//! `pef diff`: compares the symbols of an object with a linked one, byte by byte.
use vstd::prelude::*;

use crate::bytes::{low32, low_word};
use crate::obj::{
    ObjInfo, ObjSection, ObjSectionKind, ObjSymbol, ObjSymbolKind, ObjView, SymbolView,
    bytes_between, section_at,
};
use crate::text::{same_bytes, upper_hex};

verus! {

/// Two upper-case hexadecimal digits for each of the first `n` bytes.
pub open spec fn hex_upper(d: Seq<u8>, n: nat) -> Seq<char>
    decreases n,
{
    if n == 0 {
        Seq::empty()
    } else {
        hex_upper(d, (n - 1) as nat) + upper_hex(d[n - 1] as nat, 2)
    }
}

/// `hex::encode_upper`: two upper-case digits for each byte.
#[verifier::external_body]
fn encode_hex(d: &[u8]) -> (r: String)
    ensures
        r@ == hex_upper(d@, d@.len()),
{
    hex::encode_upper(d)
}

/// What was found on a symbol.
#[derive(Debug)]
pub enum SymbolDiff {
    /// Its section does not hold all of its bytes; nothing was compared.
    OutsideOriginal,
    /// No section of the linked object covers its address.
    NoLinkedSection,
    /// The linked section does not hold all of its bytes.
    OutsideLinked,
    /// The bytes, in hexadecimal, differ.
    Differs { original: String, linked: String },
}

/// What a [`SymbolDiff`] holds.
pub ghost enum DiffView {
    OutsideOriginal,
    NoLinkedSection,
    OutsideLinked,
    Differs { original: Seq<char>, linked: Seq<char> },
}

impl View for SymbolDiff {
    type V = DiffView;

    open spec fn view(&self) -> DiffView {
        match self {
            SymbolDiff::OutsideOriginal => DiffView::OutsideOriginal,
            SymbolDiff::NoLinkedSection => DiffView::NoLinkedSection,
            SymbolDiff::OutsideLinked => DiffView::OutsideLinked,
            SymbolDiff::Differs { original, linked } => DiffView::Differs {
                original: original@,
                linked: linked@,
            },
        }
    }
}

/// Whether a symbol is compared: it has a size, a section with bytes and a kind, is
/// not stripped, and its name was not generated.
pub open spec fn compared(obj: ObjView, s: SymbolView, auto: bool) -> bool {
    s.size > 0 && s.section is Some && s.kind != ObjSymbolKind::Unknown && s.kind
        != ObjSymbolKind::Section && !s.flags.stripped && !auto
        && obj.sections[s.section.unwrap() as int].kind != ObjSectionKind::Bss
}

/// The address behind a symbol.
pub open spec fn end_of(s: SymbolView) -> u32 {
    low32((low32(s.address) as u64 + low32(s.size) as u64) as u64)
}

/// The bytes of a symbol in its own section.
pub open spec fn original_bytes(obj: ObjView, s: SymbolView) -> Option<Seq<u8>> {
    bytes_between(obj.sections[s.section.unwrap() as int], low32(s.address), end_of(s))
}

/// The bytes of a linked object in the place of a symbol.
pub open spec fn linked_bytes(linked: ObjView, s: SymbolView) -> Option<Seq<u8>> {
    match section_at(linked.sections, low32(s.address)) {
        Some(i) => bytes_between(linked.sections[i as int], low32(s.address), end_of(s)),
        None => None,
    }
}

/// What comparing a symbol finds; none where the bytes are the same.
pub open spec fn finding(obj: ObjView, linked: ObjView, s: SymbolView) -> Option<DiffView> {
    match original_bytes(obj, s) {
        None => Some(DiffView::OutsideOriginal),
        Some(a) => if section_at(linked.sections, low32(s.address)) is None {
            Some(DiffView::NoLinkedSection)
        } else {
            match linked_bytes(linked, s) {
                None => Some(DiffView::OutsideLinked),
                Some(b) => if a == b {
                    None
                } else {
                    Some(
                        DiffView::Differs {
                            original: hex_upper(a, a.len()),
                            linked: hex_upper(b, b.len()),
                        },
                    )
                },
            }
        },
    }
}

/// What comparing the first `n` symbols finds: indexes and findings.
pub open spec fn findings(obj: ObjView, linked: ObjView, auto: Seq<bool>, n: nat) -> Seq<
    (usize, DiffView),
>
    decreases n,
{
    if n == 0 {
        Seq::empty()
    } else {
        let below = findings(obj, linked, auto, (n - 1) as nat);
        let s = obj.symbols[n - 1];
        if compared(obj, s, auto[n - 1]) {
            match finding(obj, linked, s) {
                Some(f) => below.push(((n - 1) as usize, f)),
                None => below,
            }
        } else {
            below
        }
    }
}

/// The number of mismatches among the first `n` findings: all but the symbols that
/// were not compared.
pub open spec fn mismatches(f: Seq<(usize, DiffView)>, n: nat) -> nat
    decreases n,
{
    if n == 0 {
        0
    } else {
        mismatches(f, (n - 1) as nat) + (if f[n - 1].1 is OutsideOriginal {
            0nat
        } else {
            1nat
        })
    }
}

/// Whether every compared symbol whose bytes the object holds has the same bytes in
/// the linked object.
pub open spec fn same_symbols(obj: ObjView, linked: ObjView, auto: Seq<bool>) -> bool {
    forall|i: int|
        0 <= i < obj.symbols.len() ==> same_symbol(obj, linked, #[trigger] obj.symbols[i], auto[i])
}

/// Whether a symbol that is compared and whose bytes are there has the same bytes in
/// the linked object.
pub open spec fn same_symbol(obj: ObjView, linked: ObjView, s: SymbolView, auto: bool) -> bool {
    compared(obj, s, auto) && original_bytes(obj, s) is Some ==> linked_bytes(linked, s)
        == original_bytes(obj, s)
}

/// The views of a list of findings.
pub open spec fn diff_views(f: Seq<(usize, SymbolDiff)>) -> Seq<(usize, DiffView)> {
    f.map_values(|e: (usize, SymbolDiff)| (e.0, e.1@))
}

/// A count of nothing but uncompared symbols is zero, and the other way round.
proof fn lemma_mismatches_zero(f: Seq<(usize, DiffView)>, n: nat)
    requires
        n <= f.len(),
    ensures
        mismatches(f, n) <= n,
        mismatches(f, n) == 0 <==> forall|k: int|
            0 <= k < n ==> (#[trigger] f[k]).1 is OutsideOriginal,
    decreases n,
{
    if n > 0 {
        lemma_mismatches_zero(f, (n - 1) as nat);
    }
}

/// The symbols with a mismatch are those whose bytes are not the same.
proof fn lemma_findings(obj: ObjView, linked: ObjView, auto: Seq<bool>, n: nat)
    requires
        n <= obj.symbols.len(),
    ensures
        (forall|k: int|
            0 <= k < findings(obj, linked, auto, n).len() ==> (#[trigger] findings(
                obj,
                linked,
                auto,
                n,
            )[k]).1 is OutsideOriginal) <==> (forall|i: int|
            0 <= i < n ==> same_symbol(obj, linked, #[trigger] obj.symbols[i], auto[i])),
    decreases n,
{
    if n > 0 {
        lemma_findings(obj, linked, auto, (n - 1) as nat);
        let below = findings(obj, linked, auto, (n - 1) as nat);
        let all = findings(obj, linked, auto, n);
        let s = obj.symbols[n - 1];
        assert forall|k: int| 0 <= k < below.len() implies all[k] == below[k] by {}
        if all.len() > below.len() {
            assert(all.last().1 is OutsideOriginal <==> same_symbol(obj, linked, s, auto[n - 1]));
            if forall|k: int| 0 <= k < all.len() ==> (#[trigger] all[k]).1 is OutsideOriginal {
                assert forall|k: int| 0 <= k < below.len() implies (
                #[trigger] below[k]).1 is OutsideOriginal by {
                    assert(all[k] == below[k]);
                }
                assert(all[all.len() - 1].1 is OutsideOriginal);
            }
        } else {
            assert(same_symbol(obj, linked, s, auto[n - 1]));
        }
    }
}

/// No mismatch is counted exactly where every compared symbol has the same bytes in
/// the linked object.
pub proof fn lemma_no_mismatch(obj: ObjView, linked: ObjView, auto: Seq<bool>)
    ensures
        mismatches(
            findings(obj, linked, auto, obj.symbols.len()),
            findings(obj, linked, auto, obj.symbols.len()).len(),
        ) == 0 <==> same_symbols(obj, linked, auto),
{
    let f = findings(obj, linked, auto, obj.symbols.len());
    lemma_mismatches_zero(f, f.len());
    lemma_findings(obj, linked, auto, obj.symbols.len());
}

/// An object does not differ from itself, where each symbol's section is the first
/// one that holds its address.
pub proof fn lemma_same_object(obj: ObjView, auto: Seq<bool>)
    requires
        forall|i: int|
            0 <= i < obj.symbols.len() && (#[trigger] obj.symbols[i]).section is Some ==> section_at(
                obj.sections,
                low32(obj.symbols[i].address),
            ) == obj.symbols[i].section,
    ensures
        mismatches(
            findings(obj, obj, auto, obj.symbols.len()),
            findings(obj, obj, auto, obj.symbols.len()).len(),
        ) == 0,
{
    lemma_no_mismatch(obj, obj, auto);
}

/// Whether a symbol is compared.
fn is_compared(obj: &ObjInfo, s: &ObjSymbol, auto: bool) -> (r: bool)
    requires
        s@.section matches Some(i) ==> i < obj@.sections.len(),
    ensures
        r == compared(obj@, s@, auto),
{
    match s.section {
        Some(i) => {
            assert(obj@.sections[i as int] == obj.sections@[i as int]@);
            s.size > 0 && s.kind != ObjSymbolKind::Unknown && s.kind != ObjSymbolKind::Section
                && !s.flags.stripped && !auto && obj.sections[i].kind != ObjSectionKind::Bss
        },
        None => false,
    }
}

/// What comparing a symbol finds.
pub fn diff_symbol(obj: &ObjInfo, linked: &ObjInfo, s: &ObjSymbol) -> (r: Option<SymbolDiff>)
    requires
        s@.section matches Some(i) && i < obj@.sections.len(),
    ensures
        r is Some <==> finding(obj@, linked@, s@) is Some,
        r matches Some(f) ==> Some(f@) == finding(obj@, linked@, s@),
{
    let index: usize = match s.section {
        Some(i) => i,
        None => 0,
    };
    let section: &ObjSection = &obj.sections[index];
    assert(obj@.sections[index as int] == section@);
    let start: u32 = low_word(s.address);
    let end: u32 = low_word(start as u64 + low_word(s.size) as u64);
    let a: &[u8] = match section.data_range(start, end) {
        Some(a) => a,
        None => {
            return Some(SymbolDiff::OutsideOriginal);
        },
    };
    let other: &ObjSection = match linked.section_at_address(start) {
        Some(i) => {
            assert(linked@.sections[i as int] == linked.sections@[i as int]@);
            &linked.sections[i]
        },
        None => {
            return Some(SymbolDiff::NoLinkedSection);
        },
    };
    match other.data_range(start, end) {
        Some(b) => if same_bytes(a, b) {
            None
        } else {
            Some(SymbolDiff::Differs { original: encode_hex(a), linked: encode_hex(b) })
        },
        None => Some(SymbolDiff::OutsideLinked),
    }
}

/// Compares the symbols of `obj` with the bytes of `linked`. `auto` says of each
/// symbol whether its name was generated.
pub fn diff_symbols(obj: &ObjInfo, linked: &ObjInfo, auto: &Vec<bool>) -> (r: Vec<
    (usize, SymbolDiff),
>)
    requires
        auto@.len() == obj@.symbols.len(),
        forall|i: int|
            0 <= i < obj@.symbols.len() ==> ((#[trigger] obj@.symbols[i]).section matches Some(k)
                ==> k < obj@.sections.len()),
    ensures
        diff_views(r@) == findings(obj@, linked@, auto@, obj@.symbols.len()),
{
    let mut out: Vec<(usize, SymbolDiff)> = Vec::new();
    let mut i: usize = 0;
    assert(diff_views(out@) =~= Seq::<(usize, DiffView)>::empty());
    while i < obj.symbols.len()
        invariant
            i <= obj.symbols@.len(),
            auto@.len() == obj@.symbols.len(),
            forall|i: int|
                0 <= i < obj@.symbols.len() ==> ((#[trigger] obj@.symbols[i]).section matches Some(
                    k,
                ) ==> k < obj@.sections.len()),
            diff_views(out@) == findings(obj@, linked@, auto@, i as nat),
        decreases obj.symbols@.len() - i,
    {
        let s: &ObjSymbol = &obj.symbols[i];
        assert(obj@.symbols[i as int] == s@);
        let ghost before = out@;
        if is_compared(obj, s, auto[i]) {
            if let Some(f) = diff_symbol(obj, linked, s) {
                out.push((i, f));
                assert(diff_views(out@) =~= diff_views(before).push((i, f@)));
            }
        }
        i = i + 1;
    }
    out
}

/// The number of mismatches among the findings: all but the symbols that were not
/// compared.
pub fn count_mismatches(found: &Vec<(usize, SymbolDiff)>) -> (r: usize)
    ensures
        r == mismatches(diff_views(found@), found@.len()),
{
    let ghost views = diff_views(found@);
    let mut n: usize = 0;
    let mut i: usize = 0;
    while i < found.len()
        invariant
            i <= found@.len(),
            views == diff_views(found@),
            n == mismatches(views, i as nat),
            n <= i,
        decreases found@.len() - i,
    {
        assert(views[i as int] == (found@[i as int].0, found@[i as int].1@));
        if !matches!(found[i].1, SymbolDiff::OutsideOriginal) {
            n = n + 1;
        }
        i = i + 1;
    }
    n
}

} // verus!
