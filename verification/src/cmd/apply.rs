//! `pef apply`: brings the symbols of an object up to date with a linked one.
use vstd::prelude::*;

use crate::bytes::{low32, low_word};
use crate::obj::{
    ObjInfo, ObjSymbol, ObjSymbolKind, ObjSymbolScope, ObjView, SectionIndex, SymbolView,
    section_at,
};
use crate::text::same_text;

verus! {

/// The first symbol below `n` at an address that has the given name.
pub open spec fn first_named(
    s: Seq<SymbolView>,
    sec: SectionIndex,
    va: u32,
    name: Seq<char>,
    n: nat,
) -> Option<int>
    decreases n,
{
    if n == 0 {
        None
    } else {
        match first_named(s, sec, va, name, (n - 1) as nat) {
            Some(i) => Some(i),
            None => if s[n - 1].at(sec, va) && s[n - 1].name == name {
                Some(n - 1)
            } else {
                None
            },
        }
    }
}

/// The first symbol below `n` at an address that has the given kind.
pub open spec fn first_of_kind(
    s: Seq<SymbolView>,
    sec: SectionIndex,
    va: u32,
    kind: ObjSymbolKind,
    n: nat,
) -> Option<int>
    decreases n,
{
    if n == 0 {
        None
    } else {
        match first_of_kind(s, sec, va, kind, (n - 1) as nat) {
            Some(i) => Some(i),
            None => if s[n - 1].at(sec, va) && s[n - 1].kind == kind {
                Some(n - 1)
            } else {
                None
            },
        }
    }
}

/// The symbol of `linked` that stands for `s`: at the same address, with the same
/// name, or else with the same kind.
pub open spec fn counterpart(s: SymbolView, linked: ObjView) -> Option<int> {
    let va = low32(s.address);
    match section_at(linked.sections, va) {
        Some(sec) => match first_named(
            linked.symbols,
            sec,
            va,
            s.name,
            linked.symbols.len(),
        ) {
            Some(i) => Some(i),
            None => first_of_kind(linked.symbols, sec, va, s.kind, linked.symbols.len()),
        },
        None => None,
    }
}

/// Whether a scope is taken over: a stated one that differs, but a local symbol
/// does not become global.
pub open spec fn takes_scope(from: ObjSymbolScope, to: ObjSymbolScope) -> bool {
    to != ObjSymbolScope::Unknown && to != from && !(to == ObjSymbolScope::Global && from
        == ObjSymbolScope::Local)
}

/// `s` with name, size and scope of its counterpart `l`.
pub open spec fn brought_over(s: SymbolView, l: SymbolView) -> SymbolView {
    SymbolView {
        name: l.name,
        size: l.size,
        size_known: s.size_known || l.size != s.size,
        flags: if takes_scope(s.flags.spec_scope(), l.flags.spec_scope()) {
            s.flags.with_scope(l.flags.spec_scope())
        } else {
            s.flags
        },
        ..s
    }
}

/// A symbol after the update: unchanged without a section, for a section symbol, or
/// without a counterpart.
pub open spec fn updated(s: SymbolView, linked: ObjView) -> SymbolView {
    if s.section is None || s.kind == ObjSymbolKind::Section {
        s
    } else {
        match counterpart(s, linked) {
            Some(i) => brought_over(s, linked.symbols[i]),
            None => s,
        }
    }
}

/// Whether a symbol at the same address has the name or the kind of `l`.
pub open spec fn present(s: Seq<SymbolView>, sec: SectionIndex, l: SymbolView) -> bool {
    exists|i: int| 0 <= i < s.len() && stands_for(#[trigger] s[i], sec, l)
}

/// Whether `s` stands at the address of `l` with its name or kind.
pub open spec fn stands_for(s: SymbolView, sec: SectionIndex, l: SymbolView) -> bool {
    s.at(sec, low32(l.address)) && (s.name == l.name || s.kind == l.kind)
}

/// Whether a symbol of the linked object may be added.
pub open spec fn addable(l: SymbolView, auto: bool) -> bool {
    l.kind != ObjSymbolKind::Section && l.kind != ObjSymbolKind::Unknown && !auto && l.section
        is Some
}

/// The symbols of `obj`, and behind them those of the first `n` of `linked` that
/// are missing.
pub open spec fn grown(obj: ObjView, linked: ObjView, auto: Seq<bool>, n: nat) -> Seq<SymbolView>
    decreases n,
{
    if n == 0 {
        obj.symbols
    } else {
        let s = grown(obj, linked, auto, (n - 1) as nat);
        let l = linked.symbols[n - 1];
        match section_at(obj.sections, low32(l.address)) {
            Some(sec) => if addable(l, auto[n - 1]) && !present(s, sec, l) {
                s.push(SymbolView { section: Some(sec), ..l })
            } else {
                s
            },
            None => s,
        }
    }
}

/// The object after the update: what was there is updated, what was missing is
/// behind it.
pub open spec fn applied(obj: ObjView, linked: ObjView, auto: Seq<bool>) -> ObjView {
    let all = grown(obj, linked, auto, linked.symbols.len());
    ObjView {
        symbols: Seq::new(
            all.len(),
            |i: int|
                if i < obj.symbols.len() {
                    updated(obj.symbols[i], linked)
                } else {
                    all[i]
                },
        ),
        ..obj
    }
}

/// The symbols that were there stay in front.
pub proof fn lemma_grown(obj: ObjView, linked: ObjView, auto: Seq<bool>, n: nat)
    ensures
        obj.symbols.len() <= grown(obj, linked, auto, n).len(),
        forall|i: int|
            0 <= i < obj.symbols.len() ==> #[trigger] grown(obj, linked, auto, n)[i]
                == obj.symbols[i],
    decreases n,
{
    if n > 0 {
        lemma_grown(obj, linked, auto, (n - 1) as nat);
    }
}

/// What [`first_named`] finds.
pub(crate) proof fn lemma_first_named(
    s: Seq<SymbolView>,
    sec: SectionIndex,
    va: u32,
    name: Seq<char>,
    n: nat,
)
    requires
        n <= s.len(),
    ensures
        first_named(s, sec, va, name, n) matches Some(i) ==> 0 <= i < n && s[i].at(sec, va)
            && s[i].name == name,
        first_named(s, sec, va, name, n) is None ==> forall|i: int|
            0 <= i < n ==> !((#[trigger] s[i]).at(sec, va) && s[i].name == name),
    decreases n,
{
    if n > 0 {
        lemma_first_named(s, sec, va, name, (n - 1) as nat);
    }
}

/// What [`first_of_kind`] finds.
pub(crate) proof fn lemma_first_of_kind(
    s: Seq<SymbolView>,
    sec: SectionIndex,
    va: u32,
    kind: ObjSymbolKind,
    n: nat,
)
    requires
        n <= s.len(),
    ensures
        first_of_kind(s, sec, va, kind, n) matches Some(i) ==> 0 <= i < n && s[i].at(sec, va)
            && s[i].kind == kind,
    decreases n,
{
    if n > 0 {
        lemma_first_of_kind(s, sec, va, kind, (n - 1) as nat);
    }
}

/// A search that ended stays ended.
proof fn lemma_named_stop(
    s: Seq<SymbolView>,
    sec: SectionIndex,
    va: u32,
    name: Seq<char>,
    k: nat,
    n: nat,
)
    requires
        k <= n,
        first_named(s, sec, va, name, k) is Some,
    ensures
        first_named(s, sec, va, name, n) == first_named(s, sec, va, name, k),
    decreases n,
{
    if k < n {
        lemma_named_stop(s, sec, va, name, k, (n - 1) as nat);
    }
}

/// A search that ended stays ended.
proof fn lemma_kind_stop(
    s: Seq<SymbolView>,
    sec: SectionIndex,
    va: u32,
    kind: ObjSymbolKind,
    k: nat,
    n: nat,
)
    requires
        k <= n,
        first_of_kind(s, sec, va, kind, k) is Some,
    ensures
        first_of_kind(s, sec, va, kind, n) == first_of_kind(s, sec, va, kind, k),
    decreases n,
{
    if k < n {
        lemma_kind_stop(s, sec, va, kind, k, (n - 1) as nat);
    }
}

/// An existing symbol keeps its index, its place and its kind, and everything but
/// its name, size and flags.
pub proof fn lemma_apply_keeps(obj: ObjView, linked: ObjView, auto: Seq<bool>, i: int)
    requires
        0 <= i < obj.symbols.len(),
    ensures
        i < applied(obj, linked, auto).symbols.len(),
        applied(obj, linked, auto).symbols[i] == (SymbolView {
            name: applied(obj, linked, auto).symbols[i].name,
            size: applied(obj, linked, auto).symbols[i].size,
            size_known: applied(obj, linked, auto).symbols[i].size_known,
            flags: applied(obj, linked, auto).symbols[i].flags,
            ..obj.symbols[i]
        }),
        obj.symbols[i].size_known ==> applied(obj, linked, auto).symbols[i].size_known,
{
    lemma_grown(obj, linked, auto, linked.symbols.len());
}

/// A local symbol does not become global.
pub proof fn lemma_apply_local(obj: ObjView, linked: ObjView, auto: Seq<bool>, i: int)
    requires
        0 <= i < obj.symbols.len(),
        obj.symbols[i].flags.spec_scope() == ObjSymbolScope::Local,
    ensures
        applied(obj, linked, auto).symbols[i].flags.spec_scope() != ObjSymbolScope::Global,
{
    lemma_grown(obj, linked, auto, linked.symbols.len());
}

/// Once a symbol is there, it stays there as others are added.
pub(crate) proof fn lemma_grown_present(
    obj: ObjView,
    linked: ObjView,
    auto: Seq<bool>,
    k: nat,
    n: nat,
    i: int,
)
    requires
        k <= n,
        0 <= i < grown(obj, linked, auto, k).len(),
    ensures
        i < grown(obj, linked, auto, n).len(),
        grown(obj, linked, auto, n)[i] == grown(obj, linked, auto, k)[i],
    decreases n,
{
    if k < n {
        lemma_grown_present(obj, linked, auto, k, (n - 1) as nat, i);
    }
}

/// After the update nothing is missing: an addable symbol of the linked object that
/// stands in the first section that holds its address, and whose address lies in a
/// section of the object, has a symbol there with its name or kind.
pub proof fn lemma_apply_complete(obj: ObjView, linked: ObjView, auto: Seq<bool>, j: int)
    requires
        0 <= j < linked.symbols.len(),
        addable(linked.symbols[j], auto[j]),
        linked.symbols[j].section == section_at(
            linked.sections,
            low32(linked.symbols[j].address),
        ),
        section_at(obj.sections, low32(linked.symbols[j].address)) is Some,
    ensures
        present(
            applied(obj, linked, auto).symbols,
            section_at(obj.sections, low32(linked.symbols[j].address)).unwrap(),
            linked.symbols[j],
        ),
{
    let l = linked.symbols[j];
    let va = low32(l.address);
    let sec = section_at(obj.sections, va).unwrap();
    let n = linked.symbols.len();
    let before = grown(obj, linked, auto, j as nat);
    let after = grown(obj, linked, auto, (j + 1) as nat);
    let result = applied(obj, linked, auto).symbols;
    let i = if present(before, sec, l) {
        choose|i: int| 0 <= i < before.len() && stands_for(#[trigger] before[i], sec, l)
    } else {
        before.len() as int
    };
    assert(0 <= i < after.len() && stands_for(after[i], sec, l));
    lemma_grown_present(obj, linked, auto, (j + 1) as nat, n, i);
    lemma_grown(obj, linked, auto, n);
    if i < obj.symbols.len() {
        let s = obj.symbols[i];
        assert(s == after[i]);
        if s.kind != l.kind && s.kind != ObjSymbolKind::Section {
            let lsec = linked.symbols[j].section.unwrap();
            assert(linked.symbols[j].at(lsec, va));
            lemma_first_named(linked.symbols, lsec, va, s.name, n);
            assert(first_named(linked.symbols, lsec, va, s.name, n) is Some);
            assert(updated(s, linked).name == s.name);
        }
        assert(updated(s, linked).at(sec, va));
    }
    assert(stands_for(result[i], sec, l));
}

/// The index of the first symbol at an address with the given name.
fn find_named(obj: &ObjInfo, sec: SectionIndex, va: u32, name: &str) -> (r: Option<usize>)
    ensures
        r matches Some(i) ==> first_named(
            obj@.symbols,
            sec,
            va,
            name@,
            obj@.symbols.len(),
        ) == Some(i as int),
        r is None ==> first_named(obj@.symbols, sec, va, name@, obj@.symbols.len()) is None,
{
    let mut i: usize = 0;
    while i < obj.symbols.len()
        invariant
            i <= obj.symbols@.len(),
            first_named(obj@.symbols, sec, va, name@, i as nat) is None,
        decreases obj.symbols@.len() - i,
    {
        assert(obj@.symbols[i as int] == obj.symbols@[i as int]@);
        if obj.symbols[i].at(sec, va) && same_text(obj.symbols[i].name.as_str(), name) {
            proof {
                lemma_named_stop(
                    obj@.symbols,
                    sec,
                    va,
                    name@,
                    (i + 1) as nat,
                    obj@.symbols.len(),
                );
            }
            return Some(i);
        }
        i = i + 1;
    }
    None
}

/// The index of the first symbol at an address with the given kind.
fn find_kind(obj: &ObjInfo, sec: SectionIndex, va: u32, kind: ObjSymbolKind) -> (r: Option<usize>)
    ensures
        r matches Some(i) ==> first_of_kind(
            obj@.symbols,
            sec,
            va,
            kind,
            obj@.symbols.len(),
        ) == Some(i as int),
        r is None ==> first_of_kind(obj@.symbols, sec, va, kind, obj@.symbols.len()) is None,
{
    let mut i: usize = 0;
    while i < obj.symbols.len()
        invariant
            i <= obj.symbols@.len(),
            first_of_kind(obj@.symbols, sec, va, kind, i as nat) is None,
        decreases obj.symbols@.len() - i,
    {
        assert(obj@.symbols[i as int] == obj.symbols@[i as int]@);
        if obj.symbols[i].at(sec, va) && obj.symbols[i].kind == kind {
            proof {
                lemma_kind_stop(obj@.symbols, sec, va, kind, (i + 1) as nat, obj@.symbols.len());
            }
            return Some(i);
        }
        i = i + 1;
    }
    None
}

/// The index of the symbol of `linked` that stands for `s`.
pub fn find_counterpart(s: &ObjSymbol, linked: &ObjInfo) -> (r: Option<usize>)
    ensures
        r matches Some(i) ==> i < linked@.symbols.len() && counterpart(s@, linked@) == Some(
            i as int,
        ),
        r is None ==> counterpart(s@, linked@) is None,
{
    let va: u32 = low_word(s.address);
    match linked.section_at_address(va) {
        Some(sec) => {
            proof {
                lemma_first_named(linked@.symbols, sec, va, s.name@, linked@.symbols.len());
                lemma_first_of_kind(linked@.symbols, sec, va, s.kind, linked@.symbols.len());
            }
            match find_named(linked, sec, va, s.name.as_str()) {
                Some(i) => Some(i),
                None => find_kind(linked, sec, va, s.kind),
            }
        },
        None => None,
    }
}

/// A symbol after the update.
fn update(s: &ObjSymbol, linked: &ObjInfo) -> (r: ObjSymbol)
    ensures
        r@ == updated(s@, linked@),
{
    let mut out: ObjSymbol = s.clone();
    if s.section.is_none() || s.kind == ObjSymbolKind::Section {
        return out;
    }
    if let Some(i) = find_counterpart(s, linked) {
        let l: &ObjSymbol = &linked.symbols[i];
        assert(linked@.symbols[i as int] == l@);
        if !same_text(l.name.as_str(), s.name.as_str()) {
            out.name = l.name.clone();
        }
        if l.size != s.size {
            out.size = l.size;
            out.size_known = true;
        }
        let from = s.flags.scope();
        let to = l.flags.scope();
        if to != ObjSymbolScope::Unknown && to != from && !(to == ObjSymbolScope::Global && from
            == ObjSymbolScope::Local) {
            out.flags.set_scope(to);
        }
    }
    out
}

/// Whether a symbol at the address of `l` has its name or kind.
fn is_present(obj: &ObjInfo, sec: SectionIndex, l: &ObjSymbol) -> (r: bool)
    ensures
        r == present(obj@.symbols, sec, l@),
{
    let va: u32 = low_word(l.address);
    let mut i: usize = 0;
    while i < obj.symbols.len()
        invariant
            i <= obj.symbols@.len(),
            va == low32(l.address),
            forall|k: int| 0 <= k < i ==> !stands_for(#[trigger] obj@.symbols[k], sec, l@),
        decreases obj.symbols@.len() - i,
    {
        assert(obj@.symbols[i as int] == obj.symbols@[i as int]@);
        if obj.symbols[i].at(sec, va) && (same_text(obj.symbols[i].name.as_str(), l.name.as_str())
            || obj.symbols[i].kind == l.kind) {
            assert(stands_for(obj@.symbols[i as int], sec, l@));
            return true;
        }
        i = i + 1;
    }
    false
}

/// Adds the symbols of `linked` that are missing from `obj`.
fn add_missing(obj: &mut ObjInfo, linked: &ObjInfo, auto: &Vec<bool>)
    requires
        auto@.len() == linked@.symbols.len(),
    ensures
        final(obj)@ == (ObjView {
            symbols: grown(old(obj)@, linked@, auto@, linked@.symbols.len()),
            ..old(obj)@
        }),
{
    let ghost start = obj@;
    let mut j: usize = 0;
    while j < linked.symbols.len()
        invariant
            j <= linked.symbols@.len(),
            auto@.len() == linked@.symbols.len(),
            start == old(obj)@,
            obj@ == (ObjView { symbols: grown(start, linked@, auto@, j as nat), ..start }),
        decreases linked.symbols@.len() - j,
    {
        let l: &ObjSymbol = &linked.symbols[j];
        assert(linked@.symbols[j as int] == l@);
        if l.kind != ObjSymbolKind::Section && l.kind != ObjSymbolKind::Unknown && !auto[j]
            && l.section.is_some() {
            if let Some(sec) = obj.section_at_address(low_word(l.address)) {
                if !is_present(obj, sec, l) {
                    let mut added: ObjSymbol = l.clone();
                    added.section = Some(sec);
                    obj.add_symbol(added);
                }
            }
        }
        j = j + 1;
    }
}

/// Updates name, size and scope of the symbols of `obj` from `linked`, and adds the
/// symbols that are missing. `auto` says of each symbol of `linked` whether its name
/// was generated.
pub fn apply_symbols(obj: &mut ObjInfo, linked: &ObjInfo, auto: &Vec<bool>)
    requires
        auto@.len() == linked@.symbols.len(),
    ensures
        final(obj)@ == applied(old(obj)@, linked@, auto@),
{
    let ghost start = obj@;
    let mut updates: Vec<ObjSymbol> = Vec::new();
    let mut i: usize = 0;
    while i < obj.symbols.len()
        invariant
            i <= obj.symbols@.len(),
            updates@.len() == i,
            start == obj@,
            obj@ == old(obj)@,
            forall|k: int|
                0 <= k < i ==> (#[trigger] updates@[k])@ == updated(start.symbols[k], linked@),
        decreases obj.symbols@.len() - i,
    {
        assert(obj@.symbols[i as int] == obj.symbols@[i as int]@);
        updates.push(update(&obj.symbols[i], linked));
        i = i + 1;
    }
    add_missing(obj, linked, auto);
    let ghost all = obj@.symbols;
    proof {
        lemma_grown(start, linked@, auto@, linked@.symbols.len());
    }
    assert(obj@.symbols.len() == obj.symbols@.len());
    while i > 0
        invariant
            i == updates@.len(),
            i <= start.symbols.len() <= all.len(),
            obj@.symbols.len() == all.len(),
            obj@ == (ObjView { symbols: obj@.symbols, ..start }),
            forall|k: int|
                0 <= k < i ==> (#[trigger] updates@[k])@ == updated(start.symbols[k], linked@),
            forall|k: int|
                0 <= k < all.len() ==> #[trigger] obj@.symbols[k] == (if i <= k
                    < start.symbols.len() {
                    updated(start.symbols[k], linked@)
                } else {
                    all[k]
                }),
        decreases i,
    {
        if let Some(s) = updates.pop() {
            obj.replace_symbol(i - 1, s);
        }
        i = i - 1;
    }
    assert(obj@.symbols =~= applied(start, linked@, auto@).symbols);
}

} // verus!
