//! What comparing an object with a linked one finds.
use vstd::prelude::*;

use crate::bytes::low32;
use crate::cmd::apply_laws::{is_first_with, lemma_first_with};
use crate::cmd::diff::{
    DiffView, compared, end_of, finding, findings, hex_upper, linked_bytes, mismatches,
    original_bytes,
};
use crate::obj::{
    ObjSectionKind, ObjSymbolKind, ObjView, SectionView, SymbolView, bytes_between, section_at,
};
use crate::text::upper_hex;
use crate::text_laws::{lemma_upper_hex, numeral, sixteen_to};

verus! {

/// Whether a symbol takes part in the comparison: a function or an object with a size,
/// in a section that has bytes, that is not stripped and whose name was not generated.
pub open spec fn takes_part(obj: ObjView, auto: Seq<bool>, i: int) -> bool {
    let s = obj.symbols[i];
    &&& s.kind == ObjSymbolKind::Function || s.kind == ObjSymbolKind::Object
    &&& s.size != 0
    &&& s.section is Some
    &&& obj.sections[s.section->Some_0 as int].kind != ObjSectionKind::Bss
    &&& !s.flags.stripped
    &&& !auto[i]
}

/// Where a symbol starts.
pub open spec fn start_of(s: SymbolView) -> int {
    (s.address % 0x1_0000_0000) as int
}

/// Where a symbol ends, in 32 bits.
pub open spec fn stop_of(s: SymbolView) -> int {
    (s.address % 0x1_0000_0000 + s.size % 0x1_0000_0000) % 0x1_0000_0000
}

/// Whether a section has the bytes of a symbol.
pub open spec fn has_bytes(sec: SectionView, s: SymbolView) -> bool {
    sec.address <= start_of(s) <= stop_of(s) <= sec.address + sec.data.len()
}

/// Byte `d` of a symbol in a section.
pub open spec fn byte_of(sec: SectionView, s: SymbolView, d: int) -> u8 {
    sec.data[start_of(s) + d - sec.address]
}

/// Whether two sections have the same bytes for a symbol.
pub open spec fn same_there(a: SectionView, b: SectionView, s: SymbolView) -> bool {
    forall|d: int|
        0 <= d < stop_of(s) - start_of(s) ==> #[trigger] byte_of(a, s, d) == byte_of(b, s, d)
}

/// Whether a text gives the bytes of a symbol in a section, two digits for each.
pub open spec fn is_hex_of(text: Seq<char>, sec: SectionView, s: SymbolView) -> bool {
    &&& text.len() == 2 * (stop_of(s) - start_of(s))
    &&& forall|d: int|
        0 <= d < stop_of(s) - start_of(s) ==> numeral(text.subrange(2 * d, 2 * d + 2), 16)
            == #[trigger] byte_of(sec, s, d)
}

proof fn lemma_hex(d: Seq<u8>, n: nat)
    requires
        n <= d.len(),
    ensures
        hex_upper(d, n).len() == 2 * n,
        forall|i: int|
            0 <= i < n ==> numeral(hex_upper(d, n).subrange(2 * i, 2 * i + 2), 16)
                == #[trigger] d[i],
    decreases n,
{
    if n > 0 {
        lemma_hex(d, (n - 1) as nat);
        let below = hex_upper(d, (n - 1) as nat);
        let all = hex_upper(d, n);
        reveal_with_fuel(sixteen_to, 3);
        lemma_upper_hex(d[n - 1] as nat, 2);
        assert forall|i: int| 0 <= i < n implies numeral(all.subrange(2 * i, 2 * i + 2), 16)
            == #[trigger] d[i] by {
            if i < n - 1 {
                assert(all.subrange(2 * i, 2 * i + 2) =~= below.subrange(2 * i, 2 * i + 2));
            } else {
                assert(all.subrange(2 * i, 2 * i + 2) =~= upper_hex(d[n - 1] as nat, 2));
            }
        }
    }
}

proof fn lemma_bytes(sec: SectionView, s: SymbolView)
    ensures
        bytes_between(sec, low32(s.address), end_of(s)) is Some <==> has_bytes(sec, s),
        bytes_between(sec, low32(s.address), end_of(s)) matches Some(b) ==> {
            &&& b.len() == stop_of(s) - start_of(s)
            &&& forall|d: int| 0 <= d < b.len() ==> #[trigger] b[d] == byte_of(sec, s, d)
            &&& is_hex_of(hex_upper(b, b.len()), sec, s)
        },
{
    let a = low32(s.address);
    assert(end_of(s) == stop_of(s));
    if let Some(b) = bytes_between(sec, a, end_of(s)) {
        lemma_hex(b, b.len());
        assert forall|d: int| 0 <= d < stop_of(s) - start_of(s) implies numeral(
            hex_upper(b, b.len()).subrange(2 * d, 2 * d + 2),
            16,
        ) == #[trigger] byte_of(sec, s, d) by {
            assert(b[d] == byte_of(sec, s, d));
        }
    }
}

/// What comparing a symbol finds: that its own section does not have its bytes, that no
/// section of the linked object covers it, that the first one that does lacks its bytes,
/// or that a byte differs; then both sides are given in hexadecimal. It finds nothing
/// exactly where all bytes are the same.
pub proof fn lemma_finding(obj: ObjView, linked: ObjView, s: SymbolView)
    requires
        s.section is Some,
        linked.sections.len() <= usize::MAX,
    ensures
        ({
            let own = obj.sections[s.section->Some_0 as int];
            let f = finding(obj, linked, s);
            &&& !has_bytes(own, s) <==> f == Some(DiffView::OutsideOriginal)
            &&& f == Some(DiffView::NoLinkedSection) <==> has_bytes(own, s) && forall|k: int|
                !#[trigger] is_first_with(linked.sections, k, start_of(s))
            &&& forall|k: int|
                has_bytes(own, s) && #[trigger] is_first_with(linked.sections, k, start_of(s))
                    ==> {
                    let other = linked.sections[k];
                    &&& !has_bytes(other, s) <==> f == Some(DiffView::OutsideLinked)
                    &&& has_bytes(other, s) && same_there(own, other, s) <==> f is None
                    &&& has_bytes(other, s) && !same_there(own, other, s) ==> {
                        &&& f matches Some(DiffView::Differs { original, linked })
                        &&& is_hex_of(original, own, s)
                        &&& is_hex_of(linked, other, s)
                    }
                }
        }),
{
    let own = obj.sections[s.section->Some_0 as int];
    let f = finding(obj, linked, s);
    let va = low32(s.address);
    lemma_bytes(own, s);
    assert(original_bytes(obj, s) == bytes_between(own, va, end_of(s)));
    if let Some(i) = section_at(linked.sections, va) {
        lemma_first_with(linked.sections, va, i as int);
        assert(is_first_with(linked.sections, i as int, start_of(s)));
    }
    assert forall|k: int| #[trigger] is_first_with(linked.sections, k, start_of(s)) implies
        section_at(linked.sections, va) is Some && section_at(linked.sections, va)->Some_0 == k by {
        lemma_first_with(linked.sections, va, k);
    }
    if let Some(i) = section_at(linked.sections, va) {
        let other = linked.sections[i as int];
        lemma_bytes(other, s);
        assert(linked_bytes(linked, s) == bytes_between(other, va, end_of(s)));
        if has_bytes(own, s) && has_bytes(other, s) {
            let a = bytes_between(own, va, end_of(s))->Some_0;
            let b = bytes_between(other, va, end_of(s))->Some_0;
            if same_there(own, other, s) {
                assert forall|d: int| 0 <= d < a.len() implies #[trigger] a[d] == b[d] by {
                    assert(a[d] == byte_of(own, s, d));
                    assert(b[d] == byte_of(other, s, d));
                }
                assert(a =~= b);
            }
            if a == b {
                assert forall|d: int| 0 <= d < stop_of(s) - start_of(s) implies #[trigger] byte_of(
                    own,
                    s,
                    d,
                ) == byte_of(other, s, d) by {
                    assert(a[d] == byte_of(own, s, d));
                    assert(b[d] == byte_of(other, s, d));
                }
            }
        }
    }
}

/// Whether a finding on symbol `i` is in the list.
pub open spec fn is_listed(f: Seq<(usize, DiffView)>, i: int, d: DiffView) -> bool {
    exists|m: int| 0 <= m < f.len() && (#[trigger] f[m]).0 == i && f[m].1 == d
}

proof fn lemma_list(obj: ObjView, linked: ObjView, auto: Seq<bool>, n: nat)
    requires
        n <= obj.symbols.len() <= usize::MAX,
    ensures
        ({
            let f = findings(obj, linked, auto, n);
            &&& f.len() <= n
            &&& forall|m: int|
                0 <= m < f.len() ==> (#[trigger] f[m]).0 < n && takes_part(
                    obj,
                    auto,
                    f[m].0 as int,
                ) && finding(obj, linked, obj.symbols[f[m].0 as int]) == Some(f[m].1)
            &&& forall|a: int, b: int|
                0 <= a < b < f.len() ==> (#[trigger] f[a]).0 < (#[trigger] f[b]).0
            &&& forall|i: int|
                0 <= i < n && #[trigger] takes_part(obj, auto, i) ==> (finding(
                    obj,
                    linked,
                    obj.symbols[i],
                ) matches Some(d) ==> is_listed(f, i, d))
        }),
    decreases n,
{
    if n > 0 {
        lemma_list(obj, linked, auto, (n - 1) as nat);
        let below = findings(obj, linked, auto, (n - 1) as nat);
        let f = findings(obj, linked, auto, n);
        let s = obj.symbols[n - 1];
        assert(compared(obj, s, auto[n - 1]) == takes_part(obj, auto, n - 1));
        assert forall|m: int| 0 <= m < below.len() implies #[trigger] f[m] == below[m] by {}
        assert forall|i: int| 0 <= i < n && #[trigger] takes_part(obj, auto, i) implies (finding(
            obj,
            linked,
            obj.symbols[i],
        ) matches Some(d) ==> is_listed(f, i, d)) by {
            if let Some(d) = finding(obj, linked, obj.symbols[i]) {
                if i < n - 1 {
                    assert(is_listed(below, i, d));
                    let m = choose|m: int|
                        0 <= m < below.len() && (#[trigger] below[m]).0 == i && below[m].1 == d;
                    assert(f[m].0 == i && f[m].1 == d);
                } else {
                    assert(f[below.len() as int].0 == i && f[below.len() as int].1 == d);
                }
            }
        }
    }
}

/// The findings are those on the symbols that take part, in their order: each symbol on
/// which something is found is listed once, and no other.
pub proof fn lemma_diff_list(obj: ObjView, linked: ObjView, auto: Seq<bool>)
    requires
        obj.symbols.len() <= usize::MAX,
    ensures
        ({
            let f = findings(obj, linked, auto, obj.symbols.len());
            &&& forall|m: int|
                0 <= m < f.len() ==> (#[trigger] f[m]).0 < obj.symbols.len() && takes_part(
                    obj,
                    auto,
                    f[m].0 as int,
                ) && finding(obj, linked, obj.symbols[f[m].0 as int]) == Some(f[m].1)
            &&& forall|a: int, b: int|
                0 <= a < b < f.len() ==> (#[trigger] f[a]).0 < (#[trigger] f[b]).0
            &&& forall|i: int|
                0 <= i < obj.symbols.len() && #[trigger] takes_part(obj, auto, i) ==> (finding(
                    obj,
                    linked,
                    obj.symbols[i],
                ) matches Some(d) ==> is_listed(f, i, d))
        }),
{
    lemma_list(obj, linked, auto, obj.symbols.len());
}

proof fn lemma_prefix_count(f: Seq<(usize, DiffView)>, g: Seq<(usize, DiffView)>, n: nat)
    requires
        n <= f.len(),
        n <= g.len(),
        forall|i: int| 0 <= i < n ==> #[trigger] f[i] == g[i],
    ensures
        mismatches(f, n) == mismatches(g, n),
    decreases n,
{
    if n > 0 {
        lemma_prefix_count(f, g, (n - 1) as nat);
    }
}

/// Every finding counts as a mismatch but that a symbol's own section lacks its bytes.
pub proof fn lemma_mismatch_count(f: Seq<(usize, DiffView)>)
    ensures
        mismatches(f, f.len()) == f.filter(
            |e: (usize, DiffView)| e.1 != DiffView::OutsideOriginal,
        ).len(),
    decreases f.len(),
{
    reveal(Seq::filter);
    if f.len() > 0 {
        let below = f.drop_last();
        lemma_mismatch_count(below);
        lemma_prefix_count(f, below, below.len());
        assert(f[f.len() - 1] == f.last());
    }
}

/// The bytes between two addresses are given where the section holds them all, each
/// from its own place.
pub proof fn lemma_bytes_between(s: SectionView, start: u32, end: u32)
    ensures
        bytes_between(s, start, end) is Some <==> s.address <= start && start <= end && end
            - s.address <= s.data.len(),
        bytes_between(s, start, end) matches Some(b) ==> {
            &&& b.len() == end - start
            &&& forall|j: int| 0 <= j < b.len() ==> #[trigger] b[j] == s.data[start - s.address + j]
        },
{
}

} // verus!
