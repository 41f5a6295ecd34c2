//! What holds of every COFF object that is read or written.
use vstd::prelude::*;
use vstd::utf8::*;

use crate::obj::{ObjSectionKind, ObjSymbolKind, ObjView, SectionIndex, SectionView, SymbolView};
use crate::util::coff_read::{
    FileView, file_object, object_section, object_sections, object_symbols,
};
use crate::util::coff_write::{
    CoffState, OutSymbol, cleared, coff_ready, defining, has_linkage, stored_name, symbol_ready,
    with_relocs, with_section_relocs, with_symbol, with_symbols,
};

verus! {

/// What a section that was read looks like: not empty, without relocations, and
/// with an alignment; zero-initialized data takes no bytes.
pub open spec fn section_ok(s: SectionView) -> bool {
    s.size > 0 && s.align >= 1 && s.relocations.len() == 0 && s.splits.len() == 0
        && s.section_known && (s.kind == ObjSectionKind::Bss ==> s.data.len() == 0)
}

/// What a symbol that was read looks like: it has a name, stands in a section of the
/// object or in none, and its size counts as known unless it is zero.
pub open spec fn symbol_ok(s: SymbolView, sections: nat) -> bool {
    s.name.len() > 0 && (s.section matches Some(k) ==> k < sections) && (s.size_known <==> s.size
        > 0)
}

/// Whether all numbers name sections.
pub open spec fn indexes_ok(indexes: Seq<Option<SectionIndex>>, sections: nat) -> bool {
    forall|i: int|
        0 <= i < indexes.len() ==> (#[trigger] indexes[i] matches Some(k) ==> k < sections)
}

/// What holds of the sections that were read.
proof fn lemma_sections_ok(f: FileView, n: nat)
    requires
        n <= usize::MAX,
    ensures
        object_sections(f, n) matches Ok(l) ==> {
            &&& l.sections.len() <= n
            &&& l.indexes.len() == n + 1
            &&& indexes_ok(l.indexes, l.sections.len())
            &&& forall|i: int| 0 <= i < l.sections.len() ==> section_ok(#[trigger] l.sections[i])
        },
    decreases n,
{
    if n > 0 {
        lemma_sections_ok(f, (n - 1) as nat);
        if let Ok(Some(s)) = object_section(f, n - 1) {
            assert(section_ok(s));
        }
    }
}

/// What holds of the symbols that were read.
proof fn lemma_symbols_ok(
    f: FileView,
    indexes: Seq<Option<SectionIndex>>,
    sections: nat,
    n: nat,
)
    requires
        indexes_ok(indexes, sections),
    ensures
        forall|i: int|
            0 <= i < object_symbols(f, indexes, n).len() ==> symbol_ok(
                #[trigger] object_symbols(f, indexes, n)[i],
                sections,
            ),
    decreases n,
{
    if n > 0 {
        lemma_symbols_ok(f, indexes, sections, (n - 1) as nat);
        let below = object_symbols(f, indexes, (n - 1) as nat);
        let all = object_symbols(f, indexes, n);
        assert forall|i: int| 0 <= i < all.len() implies symbol_ok(#[trigger] all[i], sections) by {
            if i < below.len() {
                assert(all[i] == below[i]);
            }
        }
    }
}

/// The object of a COFF or PE file has no empty section and no relocation, and each
/// of its symbols is named and stands in one of its sections or in none.
pub proof fn lemma_coff_object_ok(f: FileView, name: Seq<char>)
    requires
        f.sections.len() <= usize::MAX,
    ensures
        file_object(f, name) matches Ok(o) ==> {
            &&& o.name == name
            &&& forall|i: int| 0 <= i < o.sections.len() ==> section_ok(#[trigger] o.sections[i])
            &&& forall|i: int|
                0 <= i < o.symbols.len() ==> symbol_ok(
                    #[trigger] o.symbols[i],
                    o.sections.len(),
                )
        },
{
    lemma_sections_ok(f, f.sections.len());
    if let Ok(l) = object_sections(f, f.sections.len()) {
        lemma_symbols_ok(f, l.indexes, l.sections.len(), f.symbols.len());
    }
}

/// Whether a symbol of the object is written with its name, place, size and linkage.
pub open spec fn is_written(
    sym: SymbolView,
    out: OutSymbol,
    sections: nat,
    export_all: bool,
) -> bool {
    &&& out.name == stored_name(encode_utf8(sym.name), sym.kind)
    &&& out.value == sym.address
    &&& out.size == sym.size
    &&& out.kind == sym.kind
    &&& out.section == defining(sym, sections)
    &&& out.weak == sym.flags.weak
    &&& out.linkage == has_linkage(sym.flags, sym.kind, export_all)
}

/// Whether the first `n` symbols of the object are written, each under its number;
/// a section symbol is written for its section.
pub open spec fn all_written(obj: ObjView, st: CoffState, export_all: bool, n: nat) -> bool {
    &&& st.numbers.len() == n
    &&& st.sections.len() == obj.sections.len()
    &&& forall|i: int| 0 <= i < n ==> #[trigger] st.numbers[i] < st.symbols.len()
    &&& forall|i: int|
        0 <= i < n && (#[trigger] obj.symbols[i]).kind != ObjSymbolKind::Section ==> is_written(
            obj.symbols[i],
            st.symbols[st.numbers[i] as int],
            obj.sections.len(),
            export_all,
        )
    &&& forall|i: int|
        0 <= i < st.sections.len() ==> ((#[trigger] st.sections[i]).symbol matches Some(k) ==> k
            < st.symbols.len())
}

/// The first `n` symbols are written.
proof fn lemma_with_symbols(obj: ObjView, export_all: bool, n: nat)
    requires
        coff_ready(obj),
        n <= obj.symbols.len(),
    ensures
        all_written(obj, with_symbols(obj, export_all, n), export_all, n),
    decreases n,
{
    if n > 0 {
        lemma_with_symbols(obj, export_all, (n - 1) as nat);
        let st = with_symbols(obj, export_all, (n - 1) as nat);
        let sym = obj.symbols[n - 1];
        let next = with_symbol(st, sym, export_all);
        assert(symbol_ready(obj, sym));
        assert forall|i: int|
            0 <= i < n && (#[trigger] obj.symbols[i]).kind
                != ObjSymbolKind::Section implies is_written(
            obj.symbols[i],
            next.symbols[next.numbers[i] as int],
            obj.sections.len(),
            export_all,
        ) by {
            if i < n - 1 {
                assert(next.numbers[i] == st.numbers[i]);
                assert(next.symbols[st.numbers[i] as int] == st.symbols[st.numbers[i] as int]);
            }
        }
        assert forall|i: int| 0 <= i < n implies #[trigger] next.numbers[i]
            < next.symbols.len() by {
            if i < n - 1 {
                assert(next.numbers[i] == st.numbers[i]);
            }
        }
        assert forall|i: int| 0 <= i < next.sections.len() implies ((
        #[trigger] next.sections[i]).symbol matches Some(k) ==> k < next.symbols.len()) by {
            assert(st.sections[i].symbol matches Some(k) ==> k < st.symbols.len());
        }
    }
}

/// Relocations leave the symbols as they are.
proof fn lemma_section_relocs_keep(st: CoffState, s: SectionView, i: int, n: nat)
    ensures
        with_section_relocs(st, s, i, n) matches Ok(next) ==> next.symbols == st.symbols
            && next.numbers == st.numbers,
    decreases n,
{
    if n > 0 {
        lemma_section_relocs_keep(st, s, i, (n - 1) as nat);
    }
}

/// Relocations leave the symbols as they are.
proof fn lemma_relocs_keep(obj: ObjView, export_all: bool, n: nat)
    ensures
        with_relocs(obj, export_all, n) matches Ok(next) ==> {
            let st = with_symbols(obj, export_all, obj.symbols.len());
            next.symbols == st.symbols && next.numbers == st.numbers
        },
    decreases n,
{
    if n > 0 {
        lemma_relocs_keep(obj, export_all, (n - 1) as nat);
        if let Ok(below) = with_relocs(obj, export_all, (n - 1) as nat) {
            lemma_section_relocs_keep(
                below,
                obj.sections[n - 1],
                n - 1,
                obj.sections[n - 1].relocations.len(),
            );
        }
    }
}

/// Every symbol of the object is in the file that is written: under the number that
/// its relocations use, with its name, address, size, kind, section and linkage.
pub proof fn lemma_symbols_written(obj: ObjView, export_all: bool, i: int)
    requires
        coff_ready(obj),
        0 <= i < obj.symbols.len(),
        obj.symbols[i].kind != ObjSymbolKind::Section,
    ensures
        with_relocs(obj, export_all, obj.sections.len()) matches Ok(st) ==> {
            &&& i < st.numbers.len()
            &&& st.numbers[i] < st.symbols.len()
            &&& is_written(
                obj.symbols[i],
                st.symbols[st.numbers[i] as int],
                obj.sections.len(),
                export_all,
            )
        },
{
    lemma_with_symbols(obj, export_all, obj.symbols.len());
    lemma_relocs_keep(obj, export_all, obj.sections.len());
}

/// Whether byte `j` of a section lies in one of the first `n` relocated fields that
/// the section holds.
pub open spec fn relocated_byte(s: SectionView, n: nat, j: int) -> bool {
    exists|k: int|
        0 <= k < n && (#[trigger] s.relocations[k]).0 - s.address <= j < s.relocations[k].0
            - s.address + 4 && s.relocations[k].0 - s.address + 4 <= s.data.len()
}

/// Before addends are written, relocated fields are zero and all other bytes are as
/// they were.
pub proof fn lemma_cleared(s: SectionView, n: nat, j: int)
    requires
        n <= s.relocations.len(),
        0 <= j < s.data.len(),
    ensures
        cleared(s, n).len() == s.data.len(),
        cleared(s, n)[j] == (if relocated_byte(s, n, j) {
            0
        } else {
            s.data[j]
        }),
    decreases n,
{
    if n > 0 {
        lemma_cleared(s, (n - 1) as nat, j);
        if relocated_byte(s, (n - 1) as nat, j) {
            assert(relocated_byte(s, n, j));
        }
        let e = s.relocations[n - 1];
        if e.0 - s.address <= j < e.0 - s.address + 4 && e.0 - s.address + 4 <= s.data.len() {
            assert(relocated_byte(s, n, j));
        }
    }
}

} // verus!
