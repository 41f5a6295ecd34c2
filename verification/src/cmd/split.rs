//! What splitting a binary decides: which relocations the project blocks or adds,
//! which files are written, and what the linker keeps.
use vstd::prelude::*;

use crate::addr_map::put;
use crate::bytes::{low32, low_word};
use crate::demangle::{demangle_name, demangled};
use crate::obj::{
    ObjInfo, ObjKind, ObjReloc, ObjRelocKind, ObjSymbol, ObjSymbolKind, ObjUnit, ObjView,
    SectionAddress, SectionView, SymbolIndex, SymbolView, UnitView, blank_symbol, indexes_at,
    section_at, text_view,
};
use crate::text::same_text;
use crate::util::rsp::{join_path, joined};

verus! {

/// The XXH3 hash of some bytes.
pub uninterp spec fn xxh3(d: Seq<u8>) -> u64;

/// `xxhash_rust::xxh3::xxh3_64`: a function of the bytes alone.
#[verifier::external_body]
fn hash_bytes(d: &[u8]) -> (r: u64)
    ensures
        r == xxh3(d@),
{
    xxhash_rust::xxh3::xxh3_64(d)
}

/// Whether lengths and hashes say that a file is unchanged.
pub fn same_file(old_len: usize, new_len: usize, old_hash: u64, new_hash: u64) -> (r: bool)
    ensures
        r == (old_len == new_len && old_hash == new_hash),
{
    old_len == new_len && old_hash == new_hash
}

/// Whether a file that holds `d` is left alone when `e` is to be written.
pub open spec fn unchanged(d: Seq<u8>, e: Seq<u8>) -> bool {
    d.len() == e.len() && xxh3(d) == xxh3(e)
}

/// Whether a file must be written: `old` holds what is there, if it is a file.
pub fn must_write(old: Option<&[u8]>, contents: &[u8]) -> (r: bool)
    ensures
        r == (old matches Some(d) ==> !unchanged(d@, contents@)),
{
    match old {
        Some(d) => if d.len() != contents.len() {
            true
        } else {
            !same_file(d.len(), contents.len(), hash_bytes(d), hash_bytes(contents))
        },
        None => true,
    }
}

/// A file that holds the contents already is left alone; one of another length is
/// written.
pub proof fn lemma_unchanged(d: Seq<u8>, e: Seq<u8>)
    ensures
        d == e ==> unchanged(d, e),
        d.len() != e.len() ==> !unchanged(d, e),
{
}

/// On which side a relocation is blocked.
#[derive(Clone, Copy, Debug, PartialEq, Eq, Structural)]
pub enum BlockSide {
    Source,
    Target,
}

/// Why a blocked relocation is refused.
#[derive(Clone, Copy, Debug, PartialEq, Eq, Structural)]
pub enum BlockError {
    /// Both source and target are given.
    Both,
    /// Neither source nor target is given.
    Neither,
}

/// The side on which a relocation is blocked: the one that is given.
pub fn block_side(source: bool, target: bool) -> (r: Result<BlockSide, BlockError>)
    ensures
        r == (if source && target {
            Err(BlockError::Both)
        } else if source {
            Ok(BlockSide::Source)
        } else if target {
            Ok(BlockSide::Target)
        } else {
            Err(BlockError::Neither)
        }),
{
    match (source, target) {
        (true, true) => Err(BlockError::Both),
        (true, false) => Ok(BlockSide::Source),
        (false, true) => Ok(BlockSide::Target),
        (false, false) => Err(BlockError::Neither),
    }
}

/// The ranges `s` with `end` as the end of the range of `start`, which comes last if
/// it is new.
pub open spec fn with_range(
    s: Seq<(SectionAddress, SectionAddress)>,
    start: SectionAddress,
    end: SectionAddress,
) -> Seq<(SectionAddress, SectionAddress)> {
    if exists|i: int| 0 <= i < s.len() && (#[trigger] s[i]).0 == start {
        Seq::new(
            s.len(),
            |i: int|
                if s[i].0 == start {
                    (start, end)
                } else {
                    s[i]
                },
        )
    } else {
        s.push((start, end))
    }
}

/// The end of a blocked range: the byte behind its start where none is given.
pub open spec fn range_end(start: SectionAddress, end: Option<SectionAddress>) -> SectionAddress {
    match end {
        Some(e) => e,
        None => SectionAddress {
            section: start.section,
            address: low32((start.address + 1) as u64),
        },
    }
}

/// An object with one range more blocked.
pub open spec fn blocked(
    obj: ObjView,
    side: BlockSide,
    start: SectionAddress,
    end: Option<SectionAddress>,
) -> ObjView {
    let e = range_end(start, end);
    match side {
        BlockSide::Source => ObjView {
            blocked_relocation_sources: with_range(obj.blocked_relocation_sources, start, e),
            ..obj
        },
        BlockSide::Target => ObjView {
            blocked_relocation_targets: with_range(obj.blocked_relocation_targets, start, e),
            ..obj
        },
    }
}

/// A recorded range is there, and the ranges of other starts are as before.
pub proof fn lemma_with_range(
    s: Seq<(SectionAddress, SectionAddress)>,
    start: SectionAddress,
    end: SectionAddress,
)
    ensures
        with_range(s, start, end).contains((start, end)),
        forall|i: int|
            0 <= i < with_range(s, start, end).len() && (#[trigger] with_range(
                s,
                start,
                end,
            )[i]).0 == start ==> with_range(s, start, end)[i].1 == end,
        forall|i: int|
            0 <= i < s.len() && (#[trigger] s[i]).0 != start ==> with_range(s, start, end)[i]
                == s[i],
{
    let r = with_range(s, start, end);
    if exists|i: int| 0 <= i < s.len() && (#[trigger] s[i]).0 == start {
        let i = choose|i: int| 0 <= i < s.len() && (#[trigger] s[i]).0 == start;
        assert(r[i] == (start, end));
    } else {
        assert(r[s.len() as int] == (start, end));
    }
}

/// Records a range in place of one with the same start.
fn record_range(
    s: &mut Vec<(SectionAddress, SectionAddress)>,
    start: SectionAddress,
    end: SectionAddress,
)
    ensures
        final(s)@ == with_range(old(s)@, start, end),
{
    let ghost before = s@;
    let mut found = false;
    let mut i: usize = 0;
    while i < s.len()
        invariant
            i <= s@.len() == before.len(),
            before == old(s)@,
            found <==> exists|k: int| 0 <= k < i && (#[trigger] before[k]).0 == start,
            forall|k: int|
                0 <= k < s@.len() ==> #[trigger] s@[k] == (if k < i && before[k].0 == start {
                    (start, end)
                } else {
                    before[k]
                }),
        decreases s@.len() - i,
    {
        if s[i].0 == start {
            assert(before[i as int].0 == start);
            s.set(i, (start, end));
            found = true;
        }
        i = i + 1;
    }
    if !found {
        s.push((start, end));
    }
    assert(s@ =~= with_range(before, start, end));
}

/// Blocks the relocations of a range, up to `end` or of one byte.
pub fn block_range(
    obj: &mut ObjInfo,
    side: BlockSide,
    start: SectionAddress,
    end: Option<SectionAddress>,
)
    ensures
        final(obj)@ == blocked(old(obj)@, side, start, end),
{
    let stop: SectionAddress = match end {
        Some(e) => e,
        None => SectionAddress {
            section: start.section,
            address: low_word(start.address as u64 + 1),
        },
    };
    match side {
        BlockSide::Source => record_range(&mut obj.blocked_relocation_sources, start, stop),
        BlockSide::Target => record_range(&mut obj.blocked_relocation_targets, start, stop),
    }
}

/// An object with a relocation more, in place of one at the same address. Without a
/// target, a symbol of the given name without a place is added for it.
pub open spec fn with_relocation(
    obj: ObjView,
    at: SectionAddress,
    target: Option<SymbolIndex>,
    name: Seq<char>,
    plain_name: Option<Seq<char>>,
    kind: ObjRelocKind,
    addend: i64,
) -> ObjView {
    let symbols = match target {
        Some(_) => obj.symbols,
        None => obj.symbols.push(
            SymbolView { name, demangled_name: plain_name, ..blank_symbol() },
        ),
    };
    let target_symbol = match target {
        Some(t) => t,
        None => obj.symbols.len() as usize,
    };
    let section = obj.sections[at.section as int];
    ObjView {
        symbols,
        sections: obj.sections.update(
            at.section as int,
            SectionView {
                relocations: put(
                    section.relocations,
                    at.address,
                    ObjReloc { kind, target_symbol, addend, module: None },
                ),
                ..section
            },
        ),
        ..obj
    }
}

/// Places a relocation. `plain_name` is the demangled `name`, which serves where
/// there is no target yet.
pub fn place_relocation(
    obj: &mut ObjInfo,
    at: SectionAddress,
    target: Option<SymbolIndex>,
    name: &str,
    plain_name: Option<String>,
    kind: ObjRelocKind,
    addend: i64,
)
    requires
        at.section < old(obj)@.sections.len(),
    ensures
        final(obj)@ == with_relocation(
            old(obj)@,
            at,
            target,
            name@,
            text_view(plain_name),
            kind,
            addend,
        ),
{
    let ghost start = obj@;
    let target_symbol: SymbolIndex = match target {
        Some(t) => t,
        None => {
            let symbol = ObjSymbol {
                name: name.to_owned(),
                demangled_name: plain_name,
                ..Default::default()
            };
            obj.add_symbol(symbol)
        },
    };
    let ghost sections = obj.sections@;
    assert(start.sections[at.section as int] == sections[at.section as int]@);
    obj.sections[at.section].relocations.insert(
        at.address,
        ObjReloc { kind, target_symbol, addend, module: None },
    );
    assert(obj@.sections =~= with_relocation(
        start,
        at,
        target,
        name@,
        text_view(plain_name),
        kind,
        addend,
    ).sections);
}

/// Adds a relocation of the project's configuration.
pub fn add_relocation(
    obj: &mut ObjInfo,
    at: SectionAddress,
    target: Option<SymbolIndex>,
    name: &str,
    kind: ObjRelocKind,
    addend: i64,
)
    requires
        at.section < old(obj)@.sections.len(),
    ensures
        final(obj)@ == with_relocation(old(obj)@, at, target, name@, demangled(name@), kind, addend),
{
    let plain_name: Option<String> = demangle_name(name);
    place_relocation(obj, at, target, name, plain_name, kind, addend);
}

/// The first of the first `n` units whose object file stands at `path`.
pub open spec fn unit_at(units: Seq<UnitView>, path: Seq<char>, n: nat) -> Option<int>
    decreases n,
{
    if n == 0 {
        None
    } else {
        match unit_at(units, path, (n - 1) as nat) {
            Some(i) => Some(i),
            None => if units[n - 1].object_path == path {
                Some(n - 1)
            } else {
                None
            },
        }
    }
}

/// What [`unit_at`] finds.
pub proof fn lemma_unit_at(units: Seq<UnitView>, path: Seq<char>, n: nat)
    requires
        n <= units.len(),
    ensures
        unit_at(units, path, n) matches Some(i) ==> 0 <= i < n && units[i].object_path == path,
        unit_at(units, path, n) is None ==> forall|i: int|
            0 <= i < n ==> (#[trigger] units[i]).object_path != path,
    decreases n,
{
    if n > 0 {
        lemma_unit_at(units, path, (n - 1) as nat);
    }
}

/// Where no unit has an earlier one at its path, no two object files share a path.
pub proof fn lemma_paths_distinct(units: Seq<UnitView>)
    requires
        forall|k: int|
            0 <= k < units.len() ==> unit_at(
                units,
                (#[trigger] units[k]).object_path,
                k as nat,
            ) is None,
    ensures
        forall|i: int, k: int|
            0 <= i < k < units.len() ==> (#[trigger] units[i]).object_path != (
            #[trigger] units[k]).object_path,
{
    assert forall|i: int, k: int| 0 <= i < k < units.len() implies (
    #[trigger] units[i]).object_path != (#[trigger] units[k]).object_path by {
        lemma_unit_at(units, units[k].object_path, k as nat);
    }
}

/// The first unit before the one at `k` whose object file stands at the same path:
/// with one, the two would overwrite each other.
pub fn earlier_unit(units: &Vec<ObjUnit>, k: usize) -> (r: Option<usize>)
    requires
        k < units@.len(),
    ensures
        r matches Some(i) ==> i < k && unit_at(
            units@.map_values(|u: ObjUnit| u@),
            units@[k as int]@.object_path,
            k as nat,
        ) == Some(i as int),
        r is None ==> unit_at(
            units@.map_values(|u: ObjUnit| u@),
            units@[k as int]@.object_path,
            k as nat,
        ) is None,
{
    let ghost views = units@.map_values(|u: ObjUnit| u@);
    let path: &str = units[k].object_path.as_str();
    let mut i: usize = 0;
    while i < k
        invariant
            i <= k < units@.len(),
            views == units@.map_values(|u: ObjUnit| u@),
            path@ == units@[k as int]@.object_path,
            unit_at(views, path@, i as nat) is None,
        decreases k - i,
    {
        assert(views[i as int] == units@[i as int]@);
        if same_text(units[i].object_path.as_str(), path) {
            proof {
                lemma_unit_stop(views, path@, (i + 1) as nat, k as nat);
            }
            return Some(i);
        }
        i = i + 1;
    }
    None
}

/// A search that ended stays ended.
proof fn lemma_unit_stop(units: Seq<UnitView>, path: Seq<char>, k: nat, n: nat)
    requires
        k <= n,
        unit_at(units, path, k) is Some,
    ensures
        unit_at(units, path, n) == unit_at(units, path, k),
    decreases n,
{
    if k < n {
        lemma_unit_stop(units, path, k, (n - 1) as nat);
    }
}

/// What the description of the output says of the unit at `i`: where its object
/// file stands, its name, and whether it was generated; or the earlier unit whose
/// object file stands at the same path.
pub fn unit_entry(order: &Vec<ObjUnit>, i: usize, dir: &str) -> (r: Result<
    (String, String, bool),
    usize,
>)
    requires
        i < order@.len(),
    ensures
        ({
            let units = order@.map_values(|u: ObjUnit| u@);
            let unit = order@[i as int]@;
            match unit_at(units, unit.object_path, i as nat) {
                Some(k) => r matches Err(e) && e == k,
                None => r matches Ok((object, name, autogenerated)) && object@ == joined(
                    dir@,
                    unit.object_path,
                ) && name@ == unit.name && autogenerated == unit.autogenerated,
            }
        }),
{
    match earlier_unit(order, i) {
        Some(k) => Err(k),
        None => Ok(
            (
                join_path(dir, order[i].object_path.as_str()),
                order[i].name.clone(),
                order[i].autogenerated,
            ),
        ),
    }
}

/// The symbols that may name the entry point: those at its address, in an executable
/// whose entry lies in a section.
pub open spec fn entry_symbols(obj: ObjView) -> Seq<int> {
    match obj.entry {
        Some(e) => match section_at(obj.sections, low32(e)) {
            Some(sec) => if obj.kind == ObjKind::Executable {
                indexes_at(obj.symbols, sec, low32(e), obj.symbols.len())
            } else {
                Seq::empty()
            },
            None => Seq::empty(),
        },
        None => Seq::empty(),
    }
}

/// The indexes of the symbols that may name the entry point.
pub fn entry_candidates(obj: &ObjInfo) -> (r: Vec<SymbolIndex>)
    ensures
        r@.map_values(|i: usize| i as int) == entry_symbols(obj@),
        forall|k: int| 0 <= k < r@.len() ==> (#[trigger] r@[k]) < obj@.symbols.len(),
{
    let mut out: Vec<SymbolIndex> = Vec::new();
    assert(out@.map_values(|i: usize| i as int) =~= Seq::<int>::empty());
    if obj.kind != ObjKind::Executable {
        return out;
    }
    if let Some(e) = obj.entry {
        let va: u32 = low_word(e);
        if let Some(sec) = obj.section_at_address(va) {
            let mut i: usize = 0;
            while i < obj.symbols.len()
                invariant
                    i <= obj.symbols@.len(),
                    out@.map_values(|i: usize| i as int) == indexes_at(
                        obj@.symbols,
                        sec,
                        va,
                        i as nat,
                    ),
                    forall|k: int| 0 <= k < out@.len() ==> (#[trigger] out@[k]) < i,
                decreases obj.symbols@.len() - i,
            {
                assert(obj@.symbols[i as int] == obj.symbols@[i as int]@);
                let ghost before = out@;
                if obj.symbols[i].at(sec, va) {
                    out.push(i);
                    assert(out@.map_values(|i: usize| i as int) =~= before.map_values(
                        |i: usize| i as int,
                    ).push(i as int));
                }
                i = i + 1;
            }
        }
    }
    out
}

/// The names of a list.
pub open spec fn texts(s: Seq<String>) -> Seq<Seq<char>> {
    s.map_values(|x: String| x@)
}

/// The names that the linker keeps: those of the project, and the entry point.
pub open spec fn kept_names(names: Seq<Seq<char>>, entry: Option<Seq<char>>) -> Seq<Seq<char>> {
    match entry {
        Some(e) => if names.contains(e) {
            names
        } else {
            names.push(e)
        },
        None => names,
    }
}

/// The names that the linker keeps.
pub fn force_active_names(names: &Vec<String>, entry: Option<&str>) -> (r: Vec<String>)
    ensures
        texts(r@) == kept_names(
            texts(names@),
            match entry {
                Some(e) => Some(e@),
                None => None,
            },
        ),
{
    let mut out: Vec<String> = Vec::new();
    let mut present = false;
    let mut i: usize = 0;
    while i < names.len()
        invariant
            i <= names@.len(),
            out@.len() == i,
            forall|k: int| 0 <= k < i ==> (#[trigger] out@[k])@ == names@[k]@,
            present <==> (entry is Some && exists|k: int|
                0 <= k < i && (#[trigger] names@[k])@ == entry->0@),
        decreases names@.len() - i,
    {
        if let Some(e) = entry {
            if same_text(names[i].as_str(), e) {
                present = true;
            }
        }
        out.push(names[i].clone());
        i = i + 1;
    }
    assert(texts(out@) =~= texts(names@));
    if let Some(e) = entry {
        proof {
            if present {
                let k = choose|k: int| 0 <= k < names@.len() && (#[trigger] names@[k])@ == e@;
                assert(texts(names@)[k] == e@);
            } else if texts(names@).contains(e@) {
                let k = choose|k: int| 0 <= k < texts(names@).len() && texts(names@)[k] == e@;
                assert(names@[k]@ == e@);
            }
        }
        if !present {
            out.push(e.to_owned());
            assert(texts(out@) =~= texts(names@).push(e@));
        }
    }
    out
}

/// The entry point is kept, and so is every name of the project, in its place.
pub proof fn lemma_kept_names(names: Seq<Seq<char>>, entry: Option<Seq<char>>)
    ensures
        entry matches Some(e) ==> kept_names(names, entry).contains(e),
        names.is_prefix_of(kept_names(names, entry)),
{
    if let Some(e) = entry {
        if !names.contains(e) {
            assert(names.push(e)[names.len() as int] == e);
        }
    }
}

/// The number of functions among the first `n` symbols.
pub open spec fn functions(s: Seq<SymbolView>, n: nat) -> nat
    decreases n,
{
    if n == 0 {
        0
    } else {
        functions(s, (n - 1) as nat) + (if s[n - 1].kind == ObjSymbolKind::Function {
            1nat
        } else {
            0nat
        })
    }
}

/// The number of functions of an object.
pub fn function_count(obj: &ObjInfo) -> (r: usize)
    ensures
        r == functions(obj@.symbols, obj@.symbols.len()),
{
    let mut n: usize = 0;
    let mut i: usize = 0;
    while i < obj.symbols.len()
        invariant
            i <= obj.symbols@.len(),
            n == functions(obj@.symbols, i as nat),
            n <= i,
        decreases obj.symbols@.len() - i,
    {
        assert(obj@.symbols[i as int] == obj.symbols@[i as int]@);
        if obj.symbols[i].kind == ObjSymbolKind::Function {
            n = n + 1;
        }
        i = i + 1;
    }
    n
}

} // verus!
