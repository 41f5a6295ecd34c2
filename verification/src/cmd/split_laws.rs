//! What splitting a binary records and keeps.
use vstd::prelude::*;

use crate::addr_map::{ascending, lemma_put_value, value_at};
use crate::bytes::low32;
use crate::cmd::apply_laws::{is_first_with, is_there, lemma_first_with};
use crate::cmd::split::{
    BlockSide, blocked, entry_symbols, functions, kept_names, range_end, unit_at, with_relocation,
};
use crate::obj::{
    ObjKind, ObjReloc, ObjRelocKind, ObjSymbolKind, ObjView, SectionAddress, SectionIndex,
    SectionView, SymbolIndex, SymbolView, UnitView, indexes_at, section_at,
};

verus! {

/// A range without an end is one byte long; the highest address is followed by zero.
pub proof fn lemma_range_end(start: SectionAddress, end: Option<SectionAddress>)
    ensures
        end is Some ==> Some(range_end(start, end)) == end,
        end is None ==> {
            let e = range_end(start, end);
            &&& e.section == start.section
            &&& start.address < u32::MAX ==> e.address == start.address + 1
            &&& start.address == u32::MAX ==> e.address == 0
        },
{
}

/// Blocking a range changes the ranges of its side alone: the range is there, no other
/// range starts where it does, and the others stay.
pub proof fn lemma_blocked(
    obj: ObjView,
    side: BlockSide,
    start: SectionAddress,
    end: Option<SectionAddress>,
)
    ensures
        ({
            let new = blocked(obj, side, start, end);
            let (a, b) = if side == BlockSide::Source {
                (obj.blocked_relocation_sources, new.blocked_relocation_sources)
            } else {
                (obj.blocked_relocation_targets, new.blocked_relocation_targets)
            };
            &&& side == BlockSide::Source ==> new == (ObjView {
                blocked_relocation_sources: b,
                ..obj
            })
            &&& side == BlockSide::Target ==> new == (ObjView {
                blocked_relocation_targets: b,
                ..obj
            })
            &&& a.len() <= b.len() <= a.len() + 1
            &&& b.contains((start, range_end(start, end)))
            &&& forall|i: int|
                0 <= i < b.len() && (#[trigger] b[i]).0 == start ==> b[i].1 == range_end(
                    start,
                    end,
                )
            &&& forall|i: int| 0 <= i < a.len() && (#[trigger] a[i]).0 != start ==> b[i] == a[i]
            &&& forall|i: int|
                0 <= i < b.len() && (#[trigger] b[i]).0 != start ==> i < a.len() && a[i] == b[i]
        }),
{
    let e = range_end(start, end);
    crate::cmd::split::lemma_with_range(obj.blocked_relocation_sources, start, e);
    crate::cmd::split::lemma_with_range(obj.blocked_relocation_targets, start, e);
}

/// A relocation that is added stands at its address with its kind, target and addend;
/// without a target it refers to a new symbol of the given name, which has no place. All
/// other relocations, symbols and sections stay.
pub proof fn lemma_relocation_added(
    obj: ObjView,
    at: SectionAddress,
    target: Option<SymbolIndex>,
    name: Seq<char>,
    plain_name: Option<Seq<char>>,
    kind: ObjRelocKind,
    addend: i64,
    other: u32,
)
    requires
        at.section < obj.sections.len(),
        ascending(obj.sections[at.section as int].relocations),
        obj.symbols.len() <= usize::MAX,
    ensures
        ({
            let new = with_relocation(obj, at, target, name, plain_name, kind, addend);
            let a = obj.sections[at.section as int];
            let b = new.sections[at.section as int];
            let r = value_at(b.relocations, at.address);
            &&& r is Some
            &&& r->Some_0.kind == kind
            &&& r->Some_0.addend == addend
            &&& r->Some_0.module is None
            &&& target is Some ==> new.symbols == obj.symbols && Some(r->Some_0.target_symbol)
                == target
            &&& target is None ==> {
                let s = new.symbols[r->Some_0.target_symbol as int];
                &&& r->Some_0.target_symbol == obj.symbols.len()
                &&& new.symbols.len() == obj.symbols.len() + 1
                &&& new.symbols.drop_last() == obj.symbols
                &&& s.name == name
                &&& s.demangled_name == plain_name
                &&& s.section is None
                &&& s.kind == ObjSymbolKind::Unknown
                &&& s.size == 0
            }
            &&& other != at.address ==> value_at(b.relocations, other) == value_at(
                a.relocations,
                other,
            )
            &&& b == (SectionView { relocations: b.relocations, ..a })
            &&& new.sections.len() == obj.sections.len()
            &&& forall|i: int|
                0 <= i < obj.sections.len() && i != at.section ==> #[trigger] new.sections[i]
                    == obj.sections[i]
            &&& new == (ObjView { symbols: new.symbols, sections: new.sections, ..obj })
        }),
{
    let target_symbol = match target {
        Some(t) => t,
        None => obj.symbols.len() as usize,
    };
    let reloc = ObjReloc { kind, target_symbol, addend, module: None };
    lemma_put_value(obj.sections[at.section as int].relocations, at.address, reloc, other);
    let new = with_relocation(obj, at, target, name, plain_name, kind, addend);
    if target is None {
        assert(new.symbols.drop_last() =~= obj.symbols);
    }
}

/// No unit before the one that is found has the path.
pub proof fn lemma_unit_first(units: Seq<UnitView>, path: Seq<char>, n: nat)
    requires
        n <= units.len(),
    ensures
        unit_at(units, path, n) matches Some(i) ==> 0 <= i < n && units[i].object_path == path
            && forall|j: int| 0 <= j < i ==> (#[trigger] units[j]).object_path != path,
        unit_at(units, path, n) is None ==> forall|i: int|
            0 <= i < n ==> (#[trigger] units[i]).object_path != path,
    decreases n,
{
    if n > 0 {
        lemma_unit_first(units, path, (n - 1) as nat);
    }
}

proof fn lemma_indexes(s: Seq<SymbolView>, sec: SectionIndex, va: u32, n: nat)
    requires
        n <= s.len(),
    ensures
        ({
            let l = indexes_at(s, sec, va, n);
            &&& forall|k: int|
                0 <= k < l.len() ==> 0 <= #[trigger] l[k] < n && is_there(
                    s[l[k]],
                    sec as int,
                    va as int,
                )
            &&& forall|a: int, b: int|
                0 <= a < b < l.len() ==> #[trigger] l[a] < #[trigger] l[b]
            &&& forall|i: int|
                0 <= i < n && is_there(#[trigger] s[i], sec as int, va as int) ==> l.contains(i)
        }),
    decreases n,
{
    if n > 0 {
        lemma_indexes(s, sec, va, (n - 1) as nat);
        let below = indexes_at(s, sec, va, (n - 1) as nat);
        let l = indexes_at(s, sec, va, n);
        assert forall|k: int| 0 <= k < below.len() implies #[trigger] l[k] == below[k] by {}
        assert(s[n - 1].at(sec, va) == is_there(s[n - 1], sec as int, va as int));
        assert forall|i: int|
            0 <= i < n && is_there(#[trigger] s[i], sec as int, va as int) implies l.contains(
            i,
        ) by {
            if i == n - 1 {
                assert(l[below.len() as int] == i);
            } else {
                assert(below.contains(i));
                let k = choose|k: int| 0 <= k < below.len() && below[k] == i;
                assert(l[k] == i);
            }
        }
    }
}

/// The symbols that may name the entry point are those of an executable that stand at
/// its address, in the first section that holds it; they are listed in their order.
pub proof fn lemma_entry_symbols(obj: ObjView)
    requires
        obj.sections.len() <= usize::MAX,
    ensures
        ({
            let l = entry_symbols(obj);
            &&& forall|a: int, b: int|
                0 <= a < b < l.len() ==> #[trigger] l[a] < #[trigger] l[b]
            &&& l.len() > 0 ==> obj.kind == ObjKind::Executable && obj.entry is Some
            &&& forall|m: int|
                0 <= m < l.len() ==> {
                    let i = #[trigger] l[m];
                    let va = (obj.entry->Some_0 % 0x1_0000_0000) as int;
                    &&& 0 <= i < obj.symbols.len()
                    &&& obj.symbols[i].section is Some
                    &&& is_first_with(obj.sections, obj.symbols[i].section->Some_0 as int, va)
                    &&& obj.symbols[i].address % 0x1_0000_0000 == va
                }
            &&& forall|i: int, k: int|
                obj.kind == ObjKind::Executable && obj.entry is Some && 0 <= i < obj.symbols.len()
                    && #[trigger] is_first_with(
                    obj.sections,
                    k,
                    (obj.entry->Some_0 % 0x1_0000_0000) as int,
                ) && is_there(
                    #[trigger] obj.symbols[i],
                    k,
                    (obj.entry->Some_0 % 0x1_0000_0000) as int,
                ) ==> l.contains(i)
        }),
{
    if let Some(e) = obj.entry {
        let va = low32(e);
        if let Some(sec) = section_at(obj.sections, va) {
            lemma_indexes(obj.symbols, sec, va, obj.symbols.len());
            lemma_first_with(obj.sections, va, sec as int);
        }
        assert forall|k: int| #[trigger] is_first_with(obj.sections, k, va as int) implies
            section_at(obj.sections, va) is Some && section_at(obj.sections, va)->Some_0 == k by {
            lemma_first_with(obj.sections, va, k);
        }
    }
}

/// The linker keeps no name but those of the project and the entry point, and lists
/// nothing twice that the project lists once.
pub proof fn lemma_only_kept(names: Seq<Seq<char>>, entry: Option<Seq<char>>)
    ensures
        forall|n: Seq<char>| #[trigger]
            kept_names(names, entry).contains(n) <==> names.contains(n) || entry == Some(n),
        kept_names(names, entry).len() == names.len() + (if entry matches Some(e)
            && !names.contains(e) {
            1int
        } else {
            0int
        }),
        names.no_duplicates() ==> kept_names(names, entry).no_duplicates(),
{
    let r = kept_names(names, entry);
    assert forall|n: Seq<char>| #[trigger] r.contains(n) <==> names.contains(n) || entry == Some(
        n,
    ) by {
        if names.contains(n) {
            let i = choose|i: int| 0 <= i < names.len() && names[i] == n;
            assert(r[i] == n);
        }
        if entry == Some(n) && !names.contains(n) {
            assert(r[names.len() as int] == n);
        }
        if r.contains(n) {
            let i = choose|i: int| 0 <= i < r.len() && r[i] == n;
            if i < names.len() {
                assert(names[i] == n);
            }
        }
    }
}

/// The functions are counted: no other symbol is.
pub proof fn lemma_function_count(s: Seq<SymbolView>)
    ensures
        functions(s, s.len()) == s.filter(
            |x: SymbolView| x.kind == ObjSymbolKind::Function,
        ).len(),
    decreases s.len(),
{
    reveal(Seq::filter);
    if s.len() > 0 {
        let below = s.drop_last();
        lemma_function_count(below);
        lemma_functions_prefix(s, below, below.len());
        assert(s[s.len() - 1] == s.last());
    }
}

proof fn lemma_functions_prefix(s: Seq<SymbolView>, t: Seq<SymbolView>, n: nat)
    requires
        n <= s.len(),
        n <= t.len(),
        forall|i: int| 0 <= i < n ==> #[trigger] s[i] == t[i],
    ensures
        functions(s, n) == functions(t, n),
    decreases n,
{
    if n > 0 {
        lemma_functions_prefix(s, t, (n - 1) as nat);
    }
}

} // verus!
