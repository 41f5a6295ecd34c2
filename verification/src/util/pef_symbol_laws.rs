//! What the symbols of the object of a PEF file say of its loader section.
use vstd::arithmetic::power2::pow2;
use vstd::prelude::*;

use crate::bytes::{be_u32, lemma_words, number};
use crate::demangle::demangled;
use crate::obj::{ObjSymbolKind, SectionView, SymbolView};
use crate::util::pef::{PefError, container};
use crate::util::pef_file_laws::{
    file_range, last_loader_section, lemma_container, lemma_loader, lemma_sections, lemma_text_at,
    section_bytes, section_count, standing, stands, text_at,
};
use crate::util::pef_loader::{
    LibraryView, LoaderView, PefLoaderInfoHeader, export, export_start, exports, import, imports,
    lemma_loader_counts, loader_info, loader_section,
};
use crate::util::pef_object::{
    SectionsView, entry_symbol, exported, exported_symbols, imported, imported_symbols,
    object_sections, pef_object, pef_symbols, push_some,
};

verus! {

/// The kind of symbol that the low half of a class byte stands for.
pub open spec fn kind_of_class(class: int) -> ObjSymbolKind {
    if class == 0 || class == 4 {
        ObjSymbolKind::Function
    } else if class == 1 || class == 2 || class == 3 {
        ObjSymbolKind::Object
    } else {
        ObjSymbolKind::Unknown
    }
}

/// Where the entry of import `i` stands in the loader section `b`.
pub open spec fn import_entry(b: Seq<u8>, i: int) -> int {
    56 + 24 * number(b, 24, 4) + 4 * i
}

/// Where the entry of export `j` stands in the loader section `b`.
pub open spec fn export_entry(b: Seq<u8>, j: int) -> int {
    number(b, 44, 4) + 4 * pow2(number(b, 48, 4) as nat) + 4 * number(b, 52, 4) + 10 * j
}

/// Whether `name` is the string that the entry at `at` names: its last three bytes
/// are an offset into the string table.
pub open spec fn entry_names(b: Seq<u8>, at: int, name: Seq<char>) -> bool {
    text_at(b, number(b, 40, 4) + number(b, at + 1, 3), name)
}

/// Whether a symbol has no size, no alignment and no hash, and its own demangled
/// name.
pub open spec fn is_plain(x: SymbolView) -> bool {
    &&& x.size == 0
    &&& !x.size_known
    &&& x.align is None
    &&& x.data_kind.0 == 0
    &&& x.name_hash is None
    &&& x.demangled_name_hash is None
}

/// Whether `x` is the symbol of the import whose entry stands at `at`: undefined,
/// and weak if the highest bit of the entry is set.
pub open spec fn is_import(b: Seq<u8>, at: int, x: SymbolView) -> bool {
    &&& entry_names(b, at, x.name)
    &&& x.demangled_name == demangled(x.name)
    &&& x.section is None
    &&& x.address == 0
    &&& x.kind == kind_of_class(b[at] as int % 16)
    &&& x.flags.weak == (b[at] >= 0x80)
    &&& x.flags.global == (b[at] < 0x80)
    &&& !x.flags.local && !x.flags.exported && !x.flags.no_export && !x.flags.stripped
    &&& is_plain(x)
}

/// Whether a symbol is global and exported, and nothing else.
pub open spec fn is_public(x: SymbolView) -> bool {
    &&& x.flags.global
    &&& x.flags.exported
    &&& !x.flags.local && !x.flags.weak && !x.flags.no_export && !x.flags.stripped
}

/// Whether section number `s` is that of a section that stands in the object.
pub open spec fn is_placed(d: Seq<u8>, s: int) -> bool {
    0 <= s < section_count(d) && stands(d, s)
}

/// The section number of the export whose entry stands at `at`: two bytes, in two's
/// complement.
pub open spec fn export_section(b: Seq<u8>, at: int) -> int {
    if b[at + 8] < 0x80 {
        number(b, at + 8, 2)
    } else {
        number(b, at + 8, 2) - 0x1_0000
    }
}

/// Whether export `j` has a place: in a section of the object, or an absolute value
/// (section number -2).
pub open spec fn lands(d: Seq<u8>, b: Seq<u8>, j: int) -> bool {
    let s = export_section(b, export_entry(b, j));
    s == -2 || is_placed(d, s)
}

/// How many of the first `n` exports have a place.
pub open spec fn landing(d: Seq<u8>, b: Seq<u8>, n: nat) -> nat
    decreases n,
{
    if n == 0 {
        0
    } else {
        landing(d, b, (n - 1) as nat) + (if lands(d, b, n - 1) {
            1nat
        } else {
            0
        })
    }
}

/// Whether `x` stands `off` bytes behind the start of section number `s`.
pub open spec fn stands_at(
    d: Seq<u8>,
    sections: Seq<SectionView>,
    s: int,
    off: int,
    x: SymbolView,
) -> bool {
    let k = standing(d, s as nat);
    x.section matches Some(i) && i == k && x.address == sections[k as int].address + off
}

/// Whether `x` is the symbol of the export whose entry stands at `at`.
pub open spec fn is_export(
    d: Seq<u8>,
    sections: Seq<SectionView>,
    b: Seq<u8>,
    at: int,
    x: SymbolView,
) -> bool {
    let s = export_section(b, at);
    let value = number(b, at + 4, 4);
    &&& entry_names(b, at, x.name)
    &&& x.demangled_name == demangled(x.name)
    &&& x.kind == kind_of_class(b[at] as int % 16)
    &&& if s == -2 {
        x.section is None && x.address == value
    } else {
        stands_at(d, sections, s, value, x)
    }
    &&& is_public(x)
    &&& is_plain(x)
}

/// The section number of the entry point that the word at `at` states, in two's
/// complement.
pub open spec fn entry_section(b: Seq<u8>, at: int) -> int {
    if b[at] < 0x80 {
        number(b, at, 4)
    } else {
        number(b, at, 4) - 0x1_0000_0000
    }
}

/// Whether `x` is the function at the entry point that the two words at `at` state.
pub open spec fn is_entry(
    d: Seq<u8>,
    sections: Seq<SectionView>,
    b: Seq<u8>,
    at: int,
    name: Seq<char>,
    x: SymbolView,
) -> bool {
    &&& x.name == name
    &&& x.demangled_name is None
    &&& x.kind == ObjSymbolKind::Function
    &&& stands_at(d, sections, entry_section(b, at), number(b, at + 4, 4), x)
    &&& is_public(x)
    &&& is_plain(x)
}

/// 1 where the entry point that the words at `at` state stands in the object.
pub open spec fn entry_count(d: Seq<u8>, b: Seq<u8>, at: int) -> int {
    if is_placed(d, entry_section(b, at)) {
        1
    } else {
        0
    }
}

/// The two parts of an entry's first word.
pub(crate) proof fn lemma_entry_word(b: Seq<u8>, at: int)
    ensures
        be_u32(b, at) / 0x100_0000 == b[at],
        be_u32(b, at) % 0x100_0000 == number(b, at + 1, 3),
{
    lemma_words(b, at);
    reveal_with_fuel(number, 5);
}

pub(crate) proof fn lemma_import_each(
    b: Seq<u8>,
    info: PefLoaderInfoHeader,
    libs: Seq<LibraryView>,
    n: nat,
    i: int,
)
    requires
        0 <= i < n,
    ensures
        imports(b, info, libs, n) matches Ok(s) ==> s.len() == n && import(b, info, libs, i) == Ok::<
            _,
            PefError,
        >(s[i]),
    decreases n,
{
    reveal_with_fuel(imports, 2);
    if n > 1 {
        lemma_import_each(
            b,
            info,
            libs,
            (n - 1) as nat,
            if i < n - 1 {
                i
            } else {
                0
            },
        );
    }
}

pub(crate) proof fn lemma_export_each(b: Seq<u8>, info: PefLoaderInfoHeader, n: nat, j: int)
    requires
        0 <= j < n,
    ensures
        exports(b, info, n) matches Ok(s) ==> s.len() == n && export(b, info, j) == Ok::<
            _,
            PefError,
        >(s[j]),
    decreases n,
{
    reveal_with_fuel(exports, 2);
    if n > 1 {
        lemma_export_each(
            b,
            info,
            (n - 1) as nat,
            if j < n - 1 {
                j
            } else {
                0
            },
        );
    }
}

/// The words of the loader header that the tables are found by.
pub(crate) proof fn lemma_info(b: Seq<u8>)
    ensures
        ({
            let info = loader_info(b);
            &&& info.imported_library_count == number(b, 24, 4)
            &&& info.total_imported_symbol_count == number(b, 28, 4)
            &&& info.loader_strings_offset == number(b, 40, 4)
            &&& info.exported_symbol_count == number(b, 52, 4)
            &&& forall|j: int| #[trigger]
                export_entry(b, j) == export_start(info) + 10 * j
            &&& info.main_section == entry_section(b, 0)
            &&& info.main_offset == number(b, 4, 4)
            &&& info.init_section == entry_section(b, 8)
            &&& info.init_offset == number(b, 12, 4)
            &&& info.term_section == entry_section(b, 16)
            &&& info.term_offset == number(b, 20, 4)
        }),
{
    lemma_words(b, 0);
    lemma_words(b, 4);
    lemma_words(b, 8);
    lemma_words(b, 12);
    lemma_words(b, 16);
    lemma_words(b, 20);
    lemma_words(b, 24);
    lemma_words(b, 28);
    lemma_words(b, 40);
    lemma_words(b, 44);
    lemma_words(b, 48);
    lemma_words(b, 52);
}

/// An import of the loader section, by its bytes.
proof fn lemma_import(b: Seq<u8>, i: int)
    requires
        loader_section(b) is Ok,
        0 <= i < number(b, 28, 4),
    ensures
        ({
            let l = loader_section(b)->Ok_0;
            &&& l.imports.len() == number(b, 28, 4)
            &&& is_import(
                b,
                import_entry(b, i),
                imported(l.imports[i], demangled(l.imports[i].name)),
            )
        }),
{
    lemma_loader_counts(b);
    lemma_info(b);
    let l = loader_section(b)->Ok_0;
    let info = loader_info(b);
    lemma_import_each(b, info, l.libraries, info.total_imported_symbol_count as nat, i);
    let at = import_entry(b, i);
    lemma_entry_word(b, at);
    lemma_text_at(b, number(b, 40, 4) + number(b, at + 1, 3));
    let flags = (b[at] / 16 * 16) as u8;
    assert(l.imports[i].flags == flags);
    assert(flags >= 0x80 <==> b[at] >= 0x80);
}

/// An export of the loader section, by its bytes.
pub(crate) proof fn lemma_export(b: Seq<u8>, j: int)
    requires
        loader_section(b) is Ok,
        0 <= j < number(b, 52, 4),
    ensures
        ({
            let l = loader_section(b)->Ok_0;
            let at = export_entry(b, j);
            let e = l.exports[j];
            &&& l.exports.len() == number(b, 52, 4)
            &&& entry_names(b, at, e.name)
            &&& e.symbol_class == b[at] as int % 16
            &&& e.value == number(b, at + 4, 4)
            &&& e.section_index == export_section(b, at)
        }),
{
    lemma_loader_counts(b);
    lemma_info(b);
    let l = loader_section(b)->Ok_0;
    let info = loader_info(b);
    lemma_export_each(b, info, info.exported_symbol_count as nat, j);
    let at = export_entry(b, j);
    lemma_entry_word(b, at);
    lemma_words(b, at + 4);
    lemma_words(b, at + 8);
    lemma_text_at(b, number(b, 40, 4) + number(b, at + 1, 3));
}

/// Whether the sections read are those that stand in the file.
spec fn sections_match(d: Seq<u8>, s: SectionsView) -> bool {
    &&& s.indexes.len() == section_count(d)
    &&& s.sections.len() <= section_count(d)
    &&& forall|i: int|
        0 <= i < s.indexes.len() ==> #[trigger] s.indexes[i] == (if stands(d, i) {
            Some(standing(d, i as nat) as usize)
        } else {
            None
        })
    &&& forall|i: int|
        0 <= i < s.indexes.len() && #[trigger] stands(d, i) ==> standing(d, i as nat)
            < s.sections.len() && s.sections[standing(d, i as nat) as int].address <= u32::MAX
}

proof fn lemma_standing_small(d: Seq<u8>, n: nat)
    ensures
        standing(d, n) <= n,
    decreases n,
{
    if n > 0 {
        lemma_standing_small(d, (n - 1) as nat);
    }
}

/// The symbols of the exports.
proof fn lemma_exported_symbols(d: Seq<u8>, b: Seq<u8>, s: SectionsView, n: nat)
    requires
        loader_section(b) is Ok,
        sections_match(d, s),
        section_count(d) <= 0xffff,
        n <= number(b, 52, 4),
    ensures
        ({
            let l = loader_section(b)->Ok_0;
            let all = exported_symbols(s, l.exports, n);
            &&& all.len() == landing(d, b, n)
            &&& forall|j: int|
                0 <= j < n && #[trigger] lands(d, b, j) ==> landing(d, b, j as nat) < all.len()
                    && is_export(
                    d,
                    s.sections,
                    b,
                    export_entry(b, j),
                    all[landing(d, b, j as nat) as int],
                )
        }),
    decreases n,
{
    if n > 0 {
        let l = loader_section(b)->Ok_0;
        lemma_exported_symbols(d, b, s, (n - 1) as nat);
        lemma_export(b, n - 1);
        let below = exported_symbols(s, l.exports, (n - 1) as nat);
        let all = exported_symbols(s, l.exports, n);
        let at = export_entry(b, n - 1);
        let number = export_section(b, at);
        if is_placed(d, number) {
            lemma_standing_small(d, number as nat);
        }
        if lands(d, b, n - 1) {
            assert(is_export(d, s.sections, b, at, all.last()));
        }
        assert forall|j: int| 0 <= j < n && #[trigger] lands(d, b, j) implies landing(
            d,
            b,
            j as nat,
        ) < all.len() && is_export(
            d,
            s.sections,
            b,
            export_entry(b, j),
            all[landing(d, b, j as nat) as int],
        ) by {
            if j < n - 1 {
                let k = landing(d, b, j as nat) as int;
                assert(all[k] == below[k]);
            }
        }
    }
}

/// The symbol of an entry point.
proof fn lemma_entry_symbol(
    d: Seq<u8>,
    b: Seq<u8>,
    s: SectionsView,
    at: int,
    name: Seq<char>,
    section: i32,
    offset: u32,
)
    requires
        sections_match(d, s),
        section_count(d) <= 0xffff,
        section == entry_section(b, at),
        offset == number(b, at + 4, 4),
    ensures
        match entry_symbol(s, name, section, offset) {
            Some(x) => entry_count(d, b, at) == 1 && is_entry(d, s.sections, b, at, name, x),
            None => entry_count(d, b, at) == 0,
        },
{
    if is_placed(d, section as int) {
        lemma_standing_small(d, section as nat);
    }
}

/// The imports of the loader section come first among the symbols of the object,
/// then the exports that have a place, then the main, init and term entry points
/// that have one. Each is what its entry in the loader section says.
pub proof fn lemma_file_symbols(d: Seq<u8>, name: Seq<char>, at: int)
    requires
        last_loader_section(d, at, section_count(d)),
    ensures
        pef_object(d, name) matches Ok(o) ==> {
            let b = section_bytes(d, at);
            let imports = number(b, 28, 4);
            let named = imports + landing(d, b, number(b, 52, 4) as nat);
            let main = entry_count(d, b, 0);
            let init = entry_count(d, b, 8);
            let term = entry_count(d, b, 16);
            &&& file_range(d, at).0 + file_range(d, at).1 <= d.len()
            &&& o.symbols.len() == named + main + init + term
            &&& forall|i: int|
                0 <= i < imports ==> is_import(b, import_entry(b, i), #[trigger] o.symbols[i])
            &&& forall|j: int|
                0 <= j < number(b, 52, 4) && #[trigger] lands(d, b, j) ==> is_export(
                    d,
                    o.sections,
                    b,
                    export_entry(b, j),
                    o.symbols[imports + landing(d, b, j as nat)],
                )
            &&& main == 1 ==> is_entry(d, o.sections, b, 0, "_pef_main"@, o.symbols[named])
            &&& init == 1 ==> is_entry(
                d,
                o.sections,
                b,
                8,
                "_pef_init"@,
                o.symbols[named + main],
            )
            &&& term == 1 ==> is_entry(
                d,
                o.sections,
                b,
                16,
                "_pef_term"@,
                o.symbols[named + main + init],
            )
            &&& o.entry == (if main == 1 {
                Some(o.symbols[named].address)
            } else {
                None
            })
        },
{
    if let Ok(c) = container(d) {
        if let Ok(o) = pef_object(d, name) {
            let n = section_count(d) as nat;
            lemma_container(d);
            lemma_sections(d, c, n);
            lemma_loader(d, c, n);
            let b = section_bytes(d, at);
            let s = object_sections(d, c, n)->Ok_0;
            let l = loader_section(b)->Ok_0;
            lemma_words(d, 32);
            lemma_standing_small(d, n);
            reveal(crate::util::pef_file_laws::is_loaded);
            assert(sections_match(d, s)) by {
                assert forall|i: int|
                    0 <= i < s.indexes.len() && #[trigger] stands(d, i) implies s.sections[standing(
                    d,
                    i as nat,
                ) as int].address <= u32::MAX by {
                    lemma_words(d, crate::util::pef_file_laws::header_of(i) + 4);
                }
            }
            lemma_loader_counts(b);
            lemma_info(b);
            lemma_symbols_listed(d, b, s, l);
        }
    }
}

/// The symbols of an object whose sections and loader section were read.
proof fn lemma_symbols_listed(d: Seq<u8>, b: Seq<u8>, s: SectionsView, l: LoaderView)
    requires
        loader_section(b) == Ok::<_, PefError>(l),
        sections_match(d, s),
        section_count(d) <= 0xffff,
    ensures
        ({
            let symbols = pef_symbols(s, l);
            let imports = number(b, 28, 4);
            let named = imports + landing(d, b, number(b, 52, 4) as nat);
            let main = entry_count(d, b, 0);
            let init = entry_count(d, b, 8);
            let term = entry_count(d, b, 16);
            &&& symbols.len() == named + main + init + term
            &&& forall|i: int|
                0 <= i < imports ==> is_import(b, import_entry(b, i), #[trigger] symbols[i])
            &&& forall|j: int|
                0 <= j < number(b, 52, 4) && #[trigger] lands(d, b, j) ==> is_export(
                    d,
                    s.sections,
                    b,
                    export_entry(b, j),
                    symbols[imports + landing(d, b, j as nat)],
                )
            &&& main == 1 ==> is_entry(d, s.sections, b, 0, "_pef_main"@, symbols[named])
            &&& init == 1 ==> is_entry(
                d,
                s.sections,
                b,
                8,
                "_pef_init"@,
                symbols[named + main],
            )
            &&& term == 1 ==> is_entry(
                d,
                s.sections,
                b,
                16,
                "_pef_term"@,
                symbols[named + main + init],
            )
            &&& main == 1 <==> entry_symbol(
                s,
                "_pef_main"@,
                l.info.main_section,
                l.info.main_offset,
            ) is Some
            &&& main == 1 ==> entry_symbol(
                s,
                "_pef_main"@,
                l.info.main_section,
                l.info.main_offset,
            ) == Some(symbols[named])
        }),
{
    lemma_loader_counts(b);
    lemma_info(b);
    let ins = imported_symbols(l.imports, l.imports.len());
    let outs = exported_symbols(s, l.exports, l.exports.len());
    crate::util::pef_laws::lemma_imported(l.imports, l.imports.len());
    lemma_exported_symbols(d, b, s, l.exports.len());
    lemma_entry_symbol(d, b, s, 0, "_pef_main"@, l.info.main_section, l.info.main_offset);
    lemma_entry_symbol(d, b, s, 8, "_pef_init"@, l.info.init_section, l.info.init_offset);
    lemma_entry_symbol(d, b, s, 16, "_pef_term"@, l.info.term_section, l.info.term_offset);
    let main = entry_symbol(s, "_pef_main"@, l.info.main_section, l.info.main_offset);
    let init = entry_symbol(s, "_pef_init"@, l.info.init_section, l.info.init_offset);
    let term = entry_symbol(s, "_pef_term"@, l.info.term_section, l.info.term_offset);
    let named = ins + outs;
    let one = push_some(named, main);
    let two = push_some(one, init);
    let all = push_some(two, term);
    assert(pef_symbols(s, l) == all);
    crate::util::pef_laws::lemma_pushed(named, main);
    crate::util::pef_laws::lemma_pushed(one, init);
    crate::util::pef_laws::lemma_pushed(two, term);
    assert forall|k: int| 0 <= k < named.len() implies #[trigger] all[k] == named[k] by {
        assert(one[k] == named[k] && two[k] == one[k]);
    }
    assert forall|i: int| 0 <= i < l.imports.len() implies is_import(
        b,
        import_entry(b, i),
        #[trigger] all[i],
    ) by {
        lemma_import(b, i);
        assert(named[i] == ins[i]);
    }
    assert forall|j: int| 0 <= j < l.exports.len() && #[trigger] lands(d, b, j) implies is_export(
        d,
        s.sections,
        b,
        export_entry(b, j),
        all[(l.imports.len() + landing(d, b, j as nat)) as int],
    ) by {
        let k = landing(d, b, j as nat) as int;
        assert(named[l.imports.len() + k] == outs[k]);
    }
}

} // verus!
