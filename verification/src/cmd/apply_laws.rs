//! What bringing the symbols up to date changes.
use vstd::prelude::*;

use crate::bytes::low32;
use crate::cmd::apply::{
    applied, brought_over, counterpart, first_named, first_of_kind, grown, lemma_first_named,
    lemma_first_of_kind, lemma_grown, present, stands_for, updated,
};
use crate::obj::{
    ObjSymbolFlagSet, ObjSymbolKind, ObjView, SectionIndex, SectionView, SymbolView,
    lemma_section_at, section_at,
};

verus! {

/// Whether section `i` is the first one that holds `va`.
pub open spec fn is_first_with(s: Seq<SectionView>, i: int, va: int) -> bool {
    &&& 0 <= i < s.len()
    &&& s[i].address <= va < s[i].address + s[i].size
    &&& forall|j: int|
        0 <= j < i ==> !((#[trigger] s[j]).address <= va < s[j].address + s[j].size)
}

/// The section found at an address is the first one that holds it.
pub proof fn lemma_first_with(s: Seq<SectionView>, va: u32, i: int)
    requires
        s.len() <= usize::MAX,
    ensures
        is_first_with(s, i, va as int) <==> section_at(s, va) is Some && section_at(
            s,
            va,
        )->Some_0 == i,
{
    lemma_section_at(s, va);
    if is_first_with(s, i, va as int) {
        assert(s[i].contains(va));
        let k = section_at(s, va)->Some_0 as int;
        if k < i {
            assert(s[k].contains(va));
        }
    } else if let Some(k) = section_at(s, va) {
        if k == i {
            assert forall|j: int| 0 <= j < i implies !((#[trigger] s[j]).address <= va
                < s[j].address + s[j].size) by {
                assert(!s[j].contains(va));
            }
        }
    }
}

/// Whether `l` stands at `va` in section `k`.
pub open spec fn is_there(l: SymbolView, k: int, va: int) -> bool {
    l.section is Some && l.section->Some_0 == k && l.address % 0x1_0000_0000 == va
}

/// Whether symbol `j` of the linked object, which stands at `va` in section `k` as `s`
/// does, is the one for `s`: the first with its name, or, where none has that, the first
/// with its kind.
pub open spec fn is_match(
    l: Seq<SymbolView>,
    k: int,
    va: int,
    s: SymbolView,
    j: int,
) -> bool {
    &&& 0 <= j < l.len()
    &&& is_there(l[j], k, va)
    &&& {
        ||| l[j].name == s.name && forall|i: int|
            0 <= i < j && is_there(#[trigger] l[i], k, va) ==> l[i].name != s.name
        ||| l[j].kind == s.kind && (forall|i: int|
            0 <= i < l.len() && is_there(#[trigger] l[i], k, va) ==> l[i].name != s.name) && (
        forall|i: int|
            0 <= i < j && is_there(#[trigger] l[i], k, va) ==> l[i].kind != s.kind)
    }
}

/// Whether symbol `j` of the linked object is the one for `s`.
pub open spec fn is_counterpart(linked: ObjView, s: SymbolView, j: int) -> bool {
    let va = (s.address % 0x1_0000_0000) as int;
    exists|k: int| #[trigger]
        is_first_with(linked.sections, k, va) && is_match(linked.symbols, k, va, s, j)
}

proof fn lemma_named_first(
    s: Seq<SymbolView>,
    sec: SectionIndex,
    va: u32,
    name: Seq<char>,
    n: nat,
)
    requires
        n <= s.len(),
    ensures
        first_named(s, sec, va, name, n) matches Some(i) ==> forall|m: int|
            0 <= m < i ==> !((#[trigger] s[m]).at(sec, va) && s[m].name == name),
    decreases n,
{
    if n > 0 {
        lemma_named_first(s, sec, va, name, (n - 1) as nat);
        lemma_first_named(s, sec, va, name, (n - 1) as nat);
    }
}

proof fn lemma_kind_first(
    s: Seq<SymbolView>,
    sec: SectionIndex,
    va: u32,
    kind: ObjSymbolKind,
    n: nat,
)
    requires
        n <= s.len(),
    ensures
        first_of_kind(s, sec, va, kind, n) matches Some(i) ==> forall|m: int|
            0 <= m < i ==> !((#[trigger] s[m]).at(sec, va) && s[m].kind == kind),
        first_of_kind(s, sec, va, kind, n) is None ==> forall|m: int|
            0 <= m < n ==> !((#[trigger] s[m]).at(sec, va) && s[m].kind == kind),
    decreases n,
{
    if n > 0 {
        lemma_kind_first(s, sec, va, kind, (n - 1) as nat);
    }
}

/// The counterpart of a symbol is the one that matches it, and there is none where none
/// does.
pub proof fn lemma_counterpart(s: SymbolView, linked: ObjView, j: int)
    requires
        linked.sections.len() <= usize::MAX,
    ensures
        is_counterpart(linked, s, j) <==> counterpart(s, linked) == Some(j),
{
    let va = low32(s.address);
    let l = linked.symbols;
    let n = l.len();
    assert forall|i: int, k: SectionIndex| 0 <= i < n implies #[trigger] l[i].at(k, va)
        == is_there(l[i], k as int, va as int) by {}
    if let Some(sec) = section_at(linked.sections, va) {
        lemma_first_with(linked.sections, va, sec as int);
        lemma_first_named(l, sec, va, s.name, n);
        lemma_named_first(l, sec, va, s.name, n);
        lemma_first_of_kind(l, sec, va, s.kind, n);
        lemma_kind_first(l, sec, va, s.kind, n);
        assert forall|i: int| 0 <= i < n implies #[trigger] l[i].at(sec, va) == is_there(
            l[i],
            sec as int,
            va as int,
        ) by {}
        if counterpart(s, linked) == Some(j) {
            assert forall|i: int|
                0 <= i < j && is_there(#[trigger] l[i], sec as int, va as int) implies l[i].name
                != s.name by {
                assert(l[i].at(sec, va));
            }
            if first_named(l, sec, va, s.name, n) is None {
                assert forall|i: int|
                    0 <= i < n && is_there(#[trigger] l[i], sec as int, va as int) implies l[i].name
                    != s.name by {
                    assert(l[i].at(sec, va));
                }
                assert forall|i: int|
                    0 <= i < j && is_there(#[trigger] l[i], sec as int, va as int) implies l[i].kind
                    != s.kind by {
                    assert(l[i].at(sec, va));
                }
            }
            assert(is_match(l, sec as int, va as int, s, j));
        }
        if is_counterpart(linked, s, j) {
            let k = choose|k: int| #[trigger]
                is_first_with(linked.sections, k, va as int) && is_match(l, k, va as int, s, j);
            lemma_first_with(linked.sections, va, k);
            assert(k == sec);
            assert(l[j].at(sec, va));
            if let Some(i) = first_named(l, sec, va, s.name, n) {
                assert(is_there(l[i], k, va as int));
                if i < j {
                    assert(l[i].name != s.name);
                }
                assert(i == j);
            } else {
                assert(l[j].name != s.name);
                let i = first_of_kind(l, sec, va, s.kind, n)->Some_0;
                if i < j {
                    assert(is_there(l[i], k, va as int));
                }
                assert(i == j);
            }
        }
    } else if is_counterpart(linked, s, j) {
        let k = choose|k: int| #[trigger]
            is_first_with(linked.sections, k, va as int) && is_match(l, k, va as int, s, j);
        lemma_first_with(linked.sections, va, k);
    }
}

/// Whether the flags state a scope.
pub open spec fn has_scope(f: ObjSymbolFlagSet) -> bool {
    f.local || f.weak || f.global
}

/// Whether two sets of flags state the same scope: a local one before a weak one before
/// a global one.
pub open spec fn same_scope(a: ObjSymbolFlagSet, b: ObjSymbolFlagSet) -> bool {
    &&& a.local == b.local
    &&& !a.local ==> a.weak == b.weak
    &&& !a.local && !a.weak ==> a.global == b.global
}

/// Whether the flags state that a symbol is global.
pub open spec fn is_global(f: ObjSymbolFlagSet) -> bool {
    f.global && !f.weak && !f.local
}

/// A symbol in a section that has a counterpart gets its name and size, and the scope
/// that it states, but that a local symbol does not become global; its size counts as
/// known once it changed. Every other symbol stays as it is.
pub proof fn lemma_apply_updates(obj: ObjView, linked: ObjView, auto: Seq<bool>, i: int)
    requires
        0 <= i < obj.symbols.len(),
        linked.sections.len() <= usize::MAX,
    ensures
        ({
            let s = obj.symbols[i];
            let new = applied(obj, linked, auto).symbols[i];
            &&& s.section is None || s.kind == ObjSymbolKind::Section ==> new == s
            &&& (forall|j: int| !#[trigger] is_counterpart(linked, s, j)) ==> new == s
            &&& forall|j: int|
                s.section is Some && s.kind != ObjSymbolKind::Section
                    && #[trigger] is_counterpart(linked, s, j) ==> {
                    let l = linked.symbols[j];
                    let kept = !has_scope(l.flags) || is_global(l.flags) && s.flags.local;
                    &&& new == (SymbolView {
                        name: l.name,
                        size: l.size,
                        size_known: new.size_known,
                        flags: new.flags,
                        ..s
                    })
                    &&& new.size_known <==> s.size_known || l.size != s.size
                    &&& kept ==> new.flags == s.flags
                    &&& !kept ==> same_scope(new.flags, l.flags)
                    &&& new.flags.exported == s.flags.exported
                    &&& new.flags.no_export == s.flags.no_export
                    &&& new.flags.stripped == s.flags.stripped
                }
        }),
{
    lemma_grown(obj, linked, auto, linked.symbols.len());
    let s = obj.symbols[i];
    let new = applied(obj, linked, auto).symbols[i];
    assert(new == updated(s, linked));
    if let Some(k) = counterpart(s, linked) {
        lemma_counterpart(s, linked, k);
    }
    assert forall|j: int|
        s.section is Some && s.kind != ObjSymbolKind::Section && #[trigger] is_counterpart(
            linked,
            s,
            j,
        ) implies {
        let l = linked.symbols[j];
        let kept = !has_scope(l.flags) || is_global(l.flags) && s.flags.local;
        &&& new == (SymbolView {
            name: l.name,
            size: l.size,
            size_known: new.size_known,
            flags: new.flags,
            ..s
        })
        &&& new.size_known <==> s.size_known || l.size != s.size
        &&& kept ==> new.flags == s.flags
        &&& !kept ==> same_scope(new.flags, l.flags)
        &&& new.flags.exported == s.flags.exported
        &&& new.flags.no_export == s.flags.no_export
        &&& new.flags.stripped == s.flags.stripped
    } by {
        lemma_counterpart(s, linked, j);
        assert(new == brought_over(s, linked.symbols[j]));
    }
}

/// Whether symbol `j` of the linked object may be added: it has a kind and a section,
/// and its name was not generated.
pub open spec fn is_addable(linked: ObjView, auto: Seq<bool>, j: int) -> bool {
    let l = linked.symbols[j];
    (l.kind == ObjSymbolKind::Function || l.kind == ObjSymbolKind::Object) && l.section is Some
        && !auto[j]
}

/// Whether `s` stands at `va` in section `k` with the name or kind of `l`.
pub open spec fn is_like(s: SymbolView, k: int, va: int, l: SymbolView) -> bool {
    is_there(s, k, va) && (s.name == l.name || s.kind == l.kind)
}

/// Whether some symbol stands at `va` in section `k` with the name or kind of `l`.
pub open spec fn has_like(all: Seq<SymbolView>, k: int, va: int, l: SymbolView) -> bool {
    exists|i: int| 0 <= i < all.len() && is_like(#[trigger] all[i], k, va, l)
}

/// Whether `s`, which follows the symbols `all`, was added for symbol `j` of the linked
/// object: it is that symbol in the section of the object that holds its address, and
/// none that stood there before had its name or kind.
pub open spec fn is_added_for(
    obj: ObjView,
    linked: ObjView,
    auto: Seq<bool>,
    all: Seq<SymbolView>,
    s: SymbolView,
    j: int,
) -> bool {
    let l = linked.symbols[j];
    let va = (l.address % 0x1_0000_0000) as int;
    &&& 0 <= j < linked.symbols.len()
    &&& is_addable(linked, auto, j)
    &&& s.section is Some
    &&& is_first_with(obj.sections, s.section->Some_0 as int, va)
    &&& s == (SymbolView { section: s.section, ..l })
    &&& !has_like(all, s.section->Some_0 as int, va, l)
}

/// Whether `s`, which follows the symbols `all`, was added for some symbol of the linked
/// object.
pub open spec fn is_added(
    obj: ObjView,
    linked: ObjView,
    auto: Seq<bool>,
    all: Seq<SymbolView>,
    s: SymbolView,
) -> bool {
    exists|j: int| #[trigger] is_added_for(obj, linked, auto, all, s, j)
}

proof fn lemma_added(obj: ObjView, linked: ObjView, auto: Seq<bool>, n: nat)
    requires
        n <= linked.symbols.len(),
        obj.sections.len() <= usize::MAX,
    ensures
        obj.symbols.len() <= grown(obj, linked, auto, n).len(),
        forall|m: int|
            obj.symbols.len() <= m < grown(obj, linked, auto, n).len() ==> is_added(
                obj,
                linked,
                auto,
                grown(obj, linked, auto, n).take(m),
                #[trigger] grown(obj, linked, auto, n)[m],
            ),
        forall|j: int, k: int|
            0 <= j < n && is_addable(linked, auto, j) && #[trigger] is_first_with(
                obj.sections,
                k,
                (linked.symbols[j].address % 0x1_0000_0000) as int,
            ) ==> has_like(
                grown(obj, linked, auto, n),
                k,
                (linked.symbols[j].address % 0x1_0000_0000) as int,
                linked.symbols[j],
            ),
    decreases n,
{
    let all = grown(obj, linked, auto, n);
    if n > 0 {
        lemma_added(obj, linked, auto, (n - 1) as nat);
        let below = grown(obj, linked, auto, (n - 1) as nat);
        let l = linked.symbols[n - 1];
        let va = low32(l.address);
        assert forall|i: int, k: SectionIndex| 0 <= i < below.len() implies stands_for(
            #[trigger] below[i],
            k,
            l,
        ) == #[trigger] is_like(below[i], k as int, va as int, l) by {}
        assert forall|k: SectionIndex| #[trigger] present(below, k, l) == has_like(
            below,
            k as int,
            va as int,
            l,
        ) by {
            if present(below, k, l) {
                let i = choose|i: int| 0 <= i < below.len() && stands_for(#[trigger] below[i], k, l);
                assert(is_like(below[i], k as int, va as int, l));
            }
            if has_like(below, k as int, va as int, l) {
                let i = choose|i: int|
                    0 <= i < below.len() && is_like(#[trigger] below[i], k as int, va as int, l);
                assert(stands_for(below[i], k, l));
            }
        }
        if let Some(sec) = section_at(obj.sections, va) {
            lemma_first_with(obj.sections, va, sec as int);
        }
        assert forall|m: int| obj.symbols.len() <= m < all.len() implies is_added(
            obj,
            linked,
            auto,
            all.take(m),
            #[trigger] all[m],
        ) by {
            assert(all.take(m) =~= below.take(m));
            if m < below.len() {
                assert(is_added(obj, linked, auto, below.take(m), below[m]));
            } else {
                assert(below.take(m) =~= below);
                assert(is_added_for(obj, linked, auto, all.take(m), all[m], n - 1));
            }
        }
        assert forall|j: int, k: int|
            0 <= j < n && is_addable(linked, auto, j) && #[trigger] is_first_with(
                obj.sections,
                k,
                (linked.symbols[j].address % 0x1_0000_0000) as int,
            ) implies has_like(
            all,
            k,
            (linked.symbols[j].address % 0x1_0000_0000) as int,
            linked.symbols[j],
        ) by {
            let at = (linked.symbols[j].address % 0x1_0000_0000) as int;
            if j < n - 1 {
                let i = choose|i: int|
                    0 <= i < below.len() && is_like(
                        #[trigger] below[i],
                        k,
                        at,
                        linked.symbols[j],
                    );
                assert(all[i] == below[i]);
            } else {
                lemma_first_with(obj.sections, va, k);
                if has_like(below, k, at, l) {
                    let i = choose|i: int|
                        0 <= i < below.len() && is_like(#[trigger] below[i], k, at, l);
                    assert(all[i] == below[i]);
                } else {
                    assert(is_like(all[below.len() as int], k, at, l));
                }
            }
        }
    }
}

/// What is added: behind the symbols of the object, those of the linked one that were
/// missing, each in the section of the object that holds its address. None is added
/// where one with its name or kind stood before, and none that may be added is left out.
/// Nothing but the symbols changes.
pub proof fn lemma_apply_adds(obj: ObjView, linked: ObjView, auto: Seq<bool>)
    requires
        obj.sections.len() <= usize::MAX,
    ensures
        ({
            let new = applied(obj, linked, auto);
            let old_len = obj.symbols.len() as int;
            let added = new.symbols.skip(old_len);
            &&& new == (ObjView { symbols: new.symbols, ..obj })
            &&& old_len <= new.symbols.len()
            &&& forall|m: int|
                0 <= m < added.len() ==> is_added(
                    obj,
                    linked,
                    auto,
                    obj.symbols + added.take(m),
                    #[trigger] added[m],
                )
            &&& forall|j: int, k: int|
                0 <= j < linked.symbols.len() && is_addable(linked, auto, j)
                    && #[trigger] is_first_with(
                    obj.sections,
                    k,
                    (linked.symbols[j].address % 0x1_0000_0000) as int,
                ) ==> has_like(
                    obj.symbols + added,
                    k,
                    (linked.symbols[j].address % 0x1_0000_0000) as int,
                    linked.symbols[j],
                )
        }),
{
    let n = linked.symbols.len();
    let all = grown(obj, linked, auto, n);
    lemma_grown(obj, linked, auto, n);
    lemma_added(obj, linked, auto, n);
    let new = applied(obj, linked, auto);
    let old_len = obj.symbols.len() as int;
    let added = new.symbols.skip(old_len);
    assert(obj.symbols + added =~= all);
    assert forall|m: int| 0 <= m < added.len() implies is_added(
        obj,
        linked,
        auto,
        obj.symbols + added.take(m),
        #[trigger] added[m],
    ) by {
        assert(obj.symbols + added.take(m) =~= all.take(old_len + m));
        assert(added[m] == all[old_len + m]);
    }
}

} // verus!
