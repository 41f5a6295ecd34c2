//! What holds of every object that is read from a PEF file.
use vstd::prelude::*;

use crate::demangle::demangled;
use crate::obj::{ObjKind, ObjSymbolKind, SectionIndex, SectionView, SymbolView};
use crate::util::pef::{ContainerView, container};
use crate::util::pef_loader::{ExportView, ImportView, LoaderView, loader_section};
use crate::util::pef_object::{
    SectionsView, entry_symbol, exported, exported_symbols, imported, imported_symbols, indexes_ok,
    lemma_indexes_ok, object_index, object_sections, pef_object, pef_symbols, push_some,
};
use crate::util::xcoff::xcoff_ready;

verus! {

/// Whether a symbol stands in a section of the object, at most 4 GiB behind the
/// section's address, or in none.
pub open spec fn placed(s: SymbolView, sections: Seq<SectionView>) -> bool {
    s.section matches Some(k) ==> k < sections.len() && sections[k as int].address <= s.address
        <= sections[k as int].address + u32::MAX
}

/// What a section that stands in the object looks like.
pub open spec fn section_ok(s: SectionView) -> bool {
    s.address <= u32::MAX && s.size <= u32::MAX && s.relocations.len() == 0 && s.splits.len() == 0
        && s.section_known
}

/// The sections of the object have addresses and sizes of 32 bits, and no
/// relocations yet.
proof fn lemma_sections_ok(d: Seq<u8>, c: ContainerView, n: nat)
    ensures
        object_sections(d, c, n) matches Ok(s) ==> forall|i: int|
            0 <= i < s.sections.len() ==> section_ok(#[trigger] s.sections[i]),
    decreases n,
{
    if n > 0 {
        lemma_sections_ok(d, c, (n - 1) as nat);
    }
}

/// An imported symbol stands in no section.
pub(crate) proof fn lemma_imported(s: Seq<ImportView>, n: nat)
    ensures
        imported_symbols(s, n).len() == n,
        forall|i: int|
            0 <= i < n ==> #[trigger] imported_symbols(s, n)[i] == imported(
                s[i],
                demangled(s[i].name),
            ),
    decreases n,
{
    if n > 0 {
        lemma_imported(s, (n - 1) as nat);
    }
}

/// An exported symbol stands in a section of the object or in none.
proof fn lemma_exported(secs: SectionsView, s: Seq<ExportView>, n: nat)
    requires
        indexes_ok(secs.sections, secs.indexes),
    ensures
        forall|i: int|
            0 <= i < exported_symbols(secs, s, n).len() ==> placed(
                #[trigger] exported_symbols(secs, s, n)[i],
                secs.sections,
            ),
    decreases n,
{
    if n > 0 {
        lemma_exported(secs, s, (n - 1) as nat);
        let below = exported_symbols(secs, s, (n - 1) as nat);
        let all = exported_symbols(secs, s, n);
        assert forall|i: int| 0 <= i < all.len() implies placed(#[trigger] all[i], secs.sections) by {
            if i < below.len() {
                assert(all[i] == below[i]);
            }
        }
    }
}

/// The symbol of an entry point stands in a section of the object.
proof fn lemma_entry(s: SectionsView, name: Seq<char>, section: i32, offset: u32)
    requires
        indexes_ok(s.sections, s.indexes),
    ensures
        entry_symbol(s, name, section, offset) matches Some(e) ==> placed(e, s.sections)
            && e.section is Some && e.name == name,
{
}

/// Every symbol stands in a section of the object or in none.
proof fn lemma_symbols_placed(s: SectionsView, l: LoaderView)
    requires
        indexes_ok(s.sections, s.indexes),
    ensures
        forall|i: int|
            0 <= i < pef_symbols(s, l).len() ==> placed(
                #[trigger] pef_symbols(s, l)[i],
                s.sections,
            ),
{
    lemma_imported(l.imports, l.imports.len());
    lemma_exported(s, l.exports, l.exports.len());
    lemma_entry(s, "_pef_main"@, l.info.main_section, l.info.main_offset);
    lemma_entry(s, "_pef_init"@, l.info.init_section, l.info.init_offset);
    lemma_entry(s, "_pef_term"@, l.info.term_section, l.info.term_offset);
}

/// The object of a PEF file has sections with addresses and sizes of 32 bits and
/// without relocations, and every symbol stands in one of them or in none.
pub proof fn lemma_pef_object_ok(d: Seq<u8>, name: Seq<char>)
    ensures
        pef_object(d, name) matches Ok(o) ==> {
            &&& o.kind == ObjKind::Executable
            &&& o.name == name
            &&& forall|i: int| 0 <= i < o.sections.len() ==> section_ok(#[trigger] o.sections[i])
            &&& forall|i: int|
                0 <= i < o.symbols.len() ==> placed(#[trigger] o.symbols[i], o.sections)
        },
{
    if let Ok(c) = container(d) {
        let n = c.sections.len();
        crate::util::pef::lemma_labels_len(d);
        lemma_indexes_ok(d, c, n);
        lemma_sections_ok(d, c, n);
        if let Ok(s) = object_sections(d, c, n) {
            if let Some(b) = s.loader {
                if let Ok(l) = loader_section(b) {
                    lemma_symbols_placed(s, l);
                }
            }
        }
    }
}

/// The object of a PEF file can be written as XCOFF.
pub proof fn lemma_pef_object_writable(d: Seq<u8>, name: Seq<char>)
    ensures
        pef_object(d, name) matches Ok(o) ==> o.sections.len() <= i16::MAX ==> xcoff_ready(o),
{
    lemma_pef_object_ok(d, name);
    if let Ok(o) = pef_object(d, name) {
        assert forall|i: int, k: int|
            0 <= i < o.sections.len() && 0 <= k
                < o.sections[i].relocations.len() implies crate::util::xcoff::reloc_ready(
            o,
            o.sections[i],
            #[trigger] o.sections[i].relocations[k],
        ) by {
            assert(section_ok(o.sections[i]));
        }
    }
}

/// The imports come first, each as an undefined symbol of its name.
pub proof fn lemma_imports_first(s: SectionsView, l: LoaderView, i: int)
    requires
        0 <= i < l.imports.len(),
    ensures
        i < pef_symbols(s, l).len(),
        pef_symbols(s, l)[i].name == l.imports[i].name,
        pef_symbols(s, l)[i].section is None,
        pef_symbols(s, l)[i].demangled_name == demangled(l.imports[i].name),
{
    lemma_imported(l.imports, l.imports.len());
}

/// The symbol of an export is among those of the exports.
proof fn lemma_export_there(secs: SectionsView, s: Seq<ExportView>, n: nat, i: int)
    requires
        0 <= i < n,
        exported(secs.sections, secs.indexes, s[i], demangled(s[i].name)) is Some,
    ensures
        exported_symbols(secs, s, n).contains(
            exported(secs.sections, secs.indexes, s[i], demangled(s[i].name)).unwrap(),
        ),
    decreases n,
{
    let sym = exported(secs.sections, secs.indexes, s[i], demangled(s[i].name)).unwrap();
    let all = exported_symbols(secs, s, n);
    if i == n - 1 {
        assert(all[all.len() - 1] == sym);
    } else {
        lemma_export_there(secs, s, (n - 1) as nat, i);
        let below = exported_symbols(secs, s, (n - 1) as nat);
        let k = choose|k: int| 0 <= k < below.len() && below[k] == sym;
        assert(all[k] == sym);
    }
}

/// An export whose section stands in the object is a symbol there: it has its name,
/// is global and exported, and stands its value behind the section's address.
pub proof fn lemma_exports_defined(s: SectionsView, l: LoaderView, i: int, section: SectionIndex)
    requires
        0 <= i < l.exports.len(),
        l.exports[i].section_index >= 0,
        object_index(s.indexes, l.exports[i].section_index as int) == Some(section),
        s.sections[section as int].address <= u32::MAX,
    ensures
        exists|k: int|
            0 <= k < pef_symbols(s, l).len() && {
                let x = #[trigger] pef_symbols(s, l)[k];
                &&& x.name == l.exports[i].name
                &&& x.section == Some(section)
                &&& x.address == s.sections[section as int].address + l.exports[i].value
                &&& x.flags.global
                &&& x.flags.exported
            },
{
    let e = l.exports[i];
    let sym = exported(s.sections, s.indexes, e, demangled(e.name)).unwrap();
    lemma_export_there(s, l.exports, l.exports.len(), i);
    let out = exported_symbols(s, l.exports, l.exports.len());
    let k = choose|k: int| 0 <= k < out.len() && out[k] == sym;
    let at = l.imports.len() + k;
    lemma_imported(l.imports, l.imports.len());
    assert(pef_symbols(s, l)[at] == sym);
}

/// Whether a `_pef_main` symbol of a section stands at `a`.
pub open spec fn has_main(s: Seq<SymbolView>, a: u64) -> bool {
    exists|i: int| 0 <= i < s.len() && is_main(#[trigger] s[i], a)
}

/// Whether a symbol is the `_pef_main` symbol at `a`, a function of a section.
pub open spec fn is_main(s: SymbolView, a: u64) -> bool {
    s.name == "_pef_main"@ && s.address == a && s.section is Some && s.kind
        == ObjSymbolKind::Function
}

/// The symbol of the main entry point is among the symbols.
proof fn lemma_main_there(s: SectionsView, l: LoaderView)
    ensures
        entry_symbol(s, "_pef_main"@, l.info.main_section, l.info.main_offset) matches Some(m)
            ==> has_main(pef_symbols(s, l), m.address),
{
    let named = imported_symbols(l.imports, l.imports.len()) + exported_symbols(
        s,
        l.exports,
        l.exports.len(),
    );
    let main = entry_symbol(s, "_pef_main"@, l.info.main_section, l.info.main_offset);
    if let Some(m) = main {
        assert(push_some(named, main)[named.len() as int] == m);
        assert(pef_symbols(s, l)[named.len() as int] == m);
        assert(is_main(pef_symbols(s, l)[named.len() as int], m.address));
    }
}

/// The entry of the object is the address of its `_pef_main` symbol, a function.
pub proof fn lemma_entry_named(d: Seq<u8>, name: Seq<char>)
    ensures
        pef_object(d, name) matches Ok(o) ==> (o.entry matches Some(a) ==> has_main(o.symbols, a)),
{
    if let Ok(c) = container(d) {
        if let Ok(s) = object_sections(d, c, c.sections.len()) {
            if let Some(b) = s.loader {
                if let Ok(l) = loader_section(b) {
                    lemma_main_there(s, l);
                }
            }
        }
    }
}

/// Whether an entry point whose section stands in the object has a symbol there:
/// a global, exported function of that section, the offset behind its address.
pub open spec fn has_entry(
    symbols: Seq<SymbolView>,
    s: SectionsView,
    name: Seq<char>,
    section: i32,
    offset: u32,
) -> bool {
    object_index(s.indexes, section as int) matches Some(i) ==> exists|k: int|
        0 <= k < symbols.len() && {
            let x = #[trigger] symbols[k];
            &&& x.name == name
            &&& x.kind == ObjSymbolKind::Function
            &&& x.section == Some(i)
            &&& x.address == (s.sections[i as int].address + offset) as u64
            &&& x.flags.global
            &&& x.flags.exported
        }
}

/// A symbol that was pushed, or was there before, is there.
pub(crate) proof fn lemma_pushed(s: Seq<SymbolView>, sym: Option<SymbolView>)
    ensures
        s.len() <= push_some(s, sym).len(),
        forall|k: int| 0 <= k < s.len() ==> #[trigger] push_some(s, sym)[k] == s[k],
        sym matches Some(x) ==> push_some(s, sym).len() == s.len() + 1 && push_some(
            s,
            sym,
        )[s.len() as int] == x,
{
}

/// The main, init and term entry points are functions of the object.
pub proof fn lemma_entry_points(s: SectionsView, l: LoaderView)
    ensures
        has_entry(
            pef_symbols(s, l),
            s,
            "_pef_main"@,
            l.info.main_section,
            l.info.main_offset,
        ),
        has_entry(
            pef_symbols(s, l),
            s,
            "_pef_init"@,
            l.info.init_section,
            l.info.init_offset,
        ),
        has_entry(
            pef_symbols(s, l),
            s,
            "_pef_term"@,
            l.info.term_section,
            l.info.term_offset,
        ),
{
    let named = imported_symbols(l.imports, l.imports.len()) + exported_symbols(
        s,
        l.exports,
        l.exports.len(),
    );
    let main = entry_symbol(s, "_pef_main"@, l.info.main_section, l.info.main_offset);
    let init = entry_symbol(s, "_pef_init"@, l.info.init_section, l.info.init_offset);
    let term = entry_symbol(s, "_pef_term"@, l.info.term_section, l.info.term_offset);
    let one = push_some(named, main);
    let two = push_some(one, init);
    let all = pef_symbols(s, l);
    lemma_pushed(named, main);
    lemma_pushed(one, init);
    lemma_pushed(two, term);
    assert(all == push_some(two, term));
    if let Some(x) = main {
        assert(all[named.len() as int] == x) by {
            assert(two[named.len() as int] == one[named.len() as int]);
        }
    }
    if let Some(x) = init {
        assert(all[one.len() as int] == x);
    }
    if let Some(x) = term {
        assert(all[two.len() as int] == x);
    }
}

} // verus!
