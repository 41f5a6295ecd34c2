//! Which PEF files are read, and why others are refused.
use vstd::prelude::*;
use vstd::utf8::*;

use crate::bytes::{be_u32, lemma_words, number};
use crate::obj::ObjView;
use crate::util::pef::{
    ContainerView, PefError, PefFileHeader, c_string, container, file_header, nul_from,
    section_header_at, section_label, section_labels, section_table, section_table_end,
};
use crate::util::pef_file_laws::{
    file_range, header_of, kind_byte, last_loader_section, lemma_container, lemma_header_fields,
    lemma_loader, lemma_nul_from, lemma_text_at, section_bytes, section_count, stands, text_at,
};
use crate::util::pef_loader::{
    LibraryView, export, exports, import, imports, lemma_loader_counts, lemma_provider, libraries,
    library, loader_info, loader_section, provider, provides,
};
use crate::util::pef_object::{object_sections, pef_object};
use crate::util::pef_symbol_laws::{
    entry_names, entry_section, export_entry, export_section, import_entry, lemma_entry_word,
    lemma_export, lemma_import_each, lemma_info,
};

verus! {

/// Whether a text stands at `at`: the bytes up to the next zero byte or the end are
/// UTF-8.
pub open spec fn has_text(d: Seq<u8>, at: int) -> bool {
    exists|t: Seq<char>| text_at(d, at, t)
}

/// A string is read wherever there is one; what is read is the text there.
pub proof fn lemma_string(d: Seq<u8>, at: int)
    requires
        0 <= at,
    ensures
        c_string(d, at) is Ok <==> has_text(d, at),
        c_string(d, at) matches Ok(t) ==> text_at(d, at, t),
        c_string(d, at) == Err::<Seq<char>, _>(PefError::StringPastEnd) <==> at > d.len(),
        c_string(d, at) matches Err(e) ==> e == PefError::StringPastEnd || e
            == PefError::StringNotUtf8,
{
    lemma_text_at(d, at);
    if has_text(d, at) {
        let t = choose|t: Seq<char>| text_at(d, at, t);
        let end = choose|end: int|
            {
                &&& at <= end <= d.len()
                &&& end == d.len() || d[end] == 0
                &&& forall|k: int| at <= k < end ==> #[trigger] d[k] != 0
                &&& encode_utf8(t) == #[trigger] d.subrange(at, end)
            };
        lemma_nul_from(d, at);
        let n = nul_from(d, at);
        if n < end {
            assert(d[n] != 0);
        }
        if end < n {
            assert(d[end] != 0);
        }
        encode_utf8_valid_utf8(t);
    }
}

/// Whether the file starts as a PEF file for PowerPC does: the tags `Joy!` and `peff`,
/// the machine `pwpc`, version 1.
pub open spec fn is_pef(d: Seq<u8>) -> bool {
    &&& d.len() >= 40
    &&& d.subrange(0, 4) == seq![0x4Au8, 0x6F, 0x79, 0x21]
    &&& d.subrange(4, 8) == seq![0x70u8, 0x65, 0x66, 0x66]
    &&& d.subrange(8, 12) == seq![0x70u8, 0x77, 0x70, 0x63]
    &&& number(d, 12, 4) == 1
}

proof fn lemma_tag(d: Seq<u8>, at: int, a: u8, b: u8, c: u8, e: u8)
    requires
        0 <= at,
        at + 4 <= d.len(),
    ensures
        d.subrange(at, at + 4) == seq![a, b, c, e] <==> be_u32(d, at) == a * 0x100_0000 + b
            * 0x1_0000 + c * 0x100 + e,
{
    let s = d.subrange(at, at + 4);
    if be_u32(d, at) == a * 0x100_0000 + b * 0x1_0000 + c * 0x100 + e {
        assert(d[at] == a && d[at + 1] == b && d[at + 2] == c && d[at + 3] == e);
        assert(s =~= seq![a, b, c, e]);
    }
    if s == seq![a, b, c, e] {
        assert(s[0] == a && s[1] == b && s[2] == c && s[3] == e);
    }
}

/// A file header is read of every file that starts as one for PowerPC does, with its
/// fields by their bytes. Other files are refused for their size, their tags, their
/// machine or their version, whichever is wrong first.
pub proof fn lemma_file_header(d: Seq<u8>)
    ensures
        ({
            let r = file_header(d);
            &&& r is Ok <==> is_pef(d)
            &&& r == Err::<PefFileHeader, _>(PefError::FileTooSmall) <==> d.len() < 40
            &&& r == Err::<PefFileHeader, _>(PefError::BadMagic) <==> d.len() >= 40 && !(
            d.subrange(0, 4) == seq![0x4Au8, 0x6F, 0x79, 0x21] && d.subrange(4, 8)
                == seq![0x70u8, 0x65, 0x66, 0x66])
            &&& r == Err::<PefFileHeader, _>(PefError::UnsupportedArchitecture) <==> d.len() >= 40
                && d.subrange(0, 4) == seq![0x4Au8, 0x6F, 0x79, 0x21] && d.subrange(4, 8)
                == seq![0x70u8, 0x65, 0x66, 0x66] && d.subrange(8, 12)
                != seq![0x70u8, 0x77, 0x70, 0x63]
            &&& r matches Ok(h) ==> {
                &&& h.date_time_stamp == number(d, 16, 4)
                &&& h.old_def_version == number(d, 20, 4)
                &&& h.old_imp_version == number(d, 24, 4)
                &&& h.current_version == number(d, 28, 4)
                &&& h.section_count == number(d, 32, 2)
                &&& h.inst_section_count == number(d, 34, 2)
                &&& h.reserved_a == number(d, 36, 4)
                &&& h.tag1 == number(d, 0, 4)
                &&& h.tag2 == number(d, 4, 4)
                &&& h.architecture == number(d, 8, 4)
                &&& h.format_version == number(d, 12, 4)
            }
        }),
{
    lemma_words(d, 0);
    lemma_words(d, 4);
    lemma_words(d, 8);
    lemma_words(d, 12);
    lemma_words(d, 16);
    lemma_words(d, 20);
    lemma_words(d, 24);
    lemma_words(d, 28);
    lemma_words(d, 32);
    lemma_words(d, 34);
    lemma_words(d, 36);
    if d.len() >= 40 {
        lemma_tag(d, 0, 0x4A, 0x6F, 0x79, 0x21);
        lemma_tag(d, 4, 0x70, 0x65, 0x66, 0x66);
        lemma_tag(d, 8, 0x70, 0x77, 0x70, 0x63);
    }
}

/// Whether section `i` has no name or one that can be read.
pub open spec fn name_ok(d: Seq<u8>, i: int) -> bool {
    let off = number(d, header_of(i), 4);
    off == 0xffff_ffff || has_text(d, 40 + 28 * section_count(d) + off)
}

proof fn lemma_labels(d: Seq<u8>, count: nat, n: nat)
    requires
        n <= count == section_count(d),
        40 + 28 * count <= d.len(),
    ensures
        ({
            let r = section_labels(d, section_table_end(count), section_table(d, count), n);
            &&& r is Ok <==> forall|i: int| 0 <= i < n ==> #[trigger] name_ok(d, i)
            &&& r matches Err(e) ==> e == PefError::StringPastEnd || e
                == PefError::StringNotUtf8
        }),
    decreases n,
{
    if n > 0 {
        lemma_labels(d, count, (n - 1) as nat);
        let sh = section_table(d, count)[n - 1];
        lemma_header_fields(d, n - 1);
        assert(sh == section_header_at(d, header_of(n - 1)));
        lemma_string(d, section_table_end(count) + (sh.name_offset as int) % 0x1_0000_0000);
        assert(section_label(d, section_table_end(count), sh) is Ok <==> name_ok(d, n - 1));
    }
}

/// A container is read of every PEF file that holds its section headers and names; the
/// headers stand one behind the other, each with its fields by their bytes.
pub proof fn lemma_container_read(d: Seq<u8>)
    ensures
        ({
            let r = container(d);
            let n = section_count(d);
            &&& r is Ok <==> is_pef(d) && 40 + 28 * n <= d.len() && forall|i: int|
                0 <= i < n ==> #[trigger] name_ok(d, i)
            &&& r == Err::<ContainerView, _>(PefError::SectionTablePastEnd) <==> is_pef(d) && 40
                + 28 * n > d.len()
            &&& !is_pef(d) ==> file_header(d) is Err && r == Err::<ContainerView, PefError>(
                file_header(d)->Err_0,
            )
            &&& r is Err && is_pef(d) && 40 + 28 * n <= d.len() ==> r == Err::<ContainerView, _>(
                PefError::StringPastEnd,
            ) || r == Err::<ContainerView, _>(PefError::StringNotUtf8)
            &&& r matches Ok(c) ==> {
                &&& Ok::<_, PefError>(c.header) == file_header(d)
                &&& c.sections.len() == n
                &&& c.section_names.len() == n
                &&& forall|i: int|
                    0 <= i < n ==> {
                        let sh = #[trigger] c.sections[i];
                        let h = header_of(i);
                        &&& sh.default_address == number(d, h + 4, 4)
                        &&& sh.total_size == number(d, h + 8, 4)
                        &&& sh.unpacked_size == number(d, h + 12, 4)
                        &&& sh.container_size == number(d, h + 16, 4)
                        &&& sh.container_offset == number(d, h + 20, 4)
                        &&& sh.section_kind == d[h + 24]
                        &&& sh.share_kind == d[h + 25]
                        &&& sh.alignment == d[h + 26]
                        &&& sh.reserved_b == d[h + 27]
                        &&& (sh.name_offset as int) % 0x1_0000_0000 == number(d, h, 4)
                    }
                &&& forall|i: int|
                    0 <= i < n ==> {
                        let off = number(d, header_of(i), 4);
                        let name = #[trigger] c.section_names[i];
                        &&& name is None <==> off == 0xffff_ffff
                        &&& name matches Some(t) ==> text_at(d, 40 + 28 * n + off, t)
                    }
            }
        }),
{
    lemma_file_header(d);
    lemma_words(d, 32);
    lemma_container(d);
    let n = section_count(d);
    if is_pef(d) && 40 + 28 * n <= d.len() {
        lemma_labels(d, n as nat, n as nat);
    }
    if let Ok(c) = container(d) {
        assert forall|i: int| 0 <= i < n implies ({
            let sh = #[trigger] c.sections[i];
            let h = header_of(i);
            &&& sh.default_address == number(d, h + 4, 4)
            &&& sh.total_size == number(d, h + 8, 4)
            &&& sh.unpacked_size == number(d, h + 12, 4)
            &&& sh.container_size == number(d, h + 16, 4)
            &&& sh.container_offset == number(d, h + 20, 4)
            &&& sh.section_kind == d[h + 24]
            &&& sh.share_kind == d[h + 25]
            &&& sh.alignment == d[h + 26]
            &&& sh.reserved_b == d[h + 27]
            &&& (sh.name_offset as int) % 0x1_0000_0000 == number(d, h, 4)
        }) by {
            lemma_header_fields(d, i);
        }
    }
}

/// Whether section `i` of the file can be taken over: what it holds lies in the file,
/// and its alignment fits.
pub open spec fn section_fits(d: Seq<u8>, i: int) -> bool {
    let (start, len) = file_range(d, i);
    &&& (stands(d, i) && kind_byte(d, i) != 2) || kind_byte(d, i) == 4 ==> start + len <= d.len()
    &&& stands(d, i) ==> d[header_of(i) + 26] < 64
}

/// Why section `i` cannot be taken over.
pub open spec fn is_section_error(d: Seq<u8>, i: int, e: PefError) -> bool {
    let (start, len) = file_range(d, i);
    if kind_byte(d, i) == 4 {
        e == PefError::LoaderPastEnd
    } else if kind_byte(d, i) != 2 && start + len > d.len() {
        e == PefError::ContainerPastEnd
    } else {
        e == PefError::AlignmentOverflow
    }
}

proof fn lemma_sections_fit(d: Seq<u8>, c: ContainerView, n: nat)
    requires
        container(d) == Ok::<_, PefError>(c),
        n <= section_count(d),
    ensures
        ({
            let r = object_sections(d, c, n);
            &&& r is Ok <==> forall|i: int| 0 <= i < n ==> #[trigger] section_fits(d, i)
            &&& r matches Err(e) ==> exists|i: int|
                0 <= i < n && !#[trigger] section_fits(d, i) && is_section_error(d, i, e) && (
                forall|j: int| 0 <= j < i ==> #[trigger] section_fits(d, j))
        }),
    decreases n,
{
    if n > 0 {
        lemma_sections_fit(d, c, (n - 1) as nat);
        lemma_container(d);
        lemma_header_fields(d, n - 1);
        let sh = c.sections[n - 1];
        assert(sh == section_header_at(d, header_of(n - 1)));
        match object_sections(d, c, (n - 1) as nat) {
            Ok(below) => {
                assert(object_sections(d, c, n) is Ok <==> section_fits(d, n - 1));
                if let Err(e) = object_sections(d, c, n) {
                    assert(!section_fits(d, n - 1) && is_section_error(d, n - 1, e));
                }
            },
            Err(e) => {
                let i = choose|i: int|
                    0 <= i < n - 1 && !#[trigger] section_fits(d, i) && is_section_error(d, i, e)
                        && (forall|j: int| 0 <= j < i ==> #[trigger] section_fits(d, j));
                assert(!section_fits(d, i));
            },
        }
    }
}

/// Whether library `i` of the loader section can be read.
pub open spec fn library_ok(b: Seq<u8>, i: int) -> bool {
    &&& 56 + 24 * i + 24 <= b.len()
    &&& has_text(b, number(b, 40, 4) + number(b, 56 + 24 * i, 4))
}

/// Whether the entry of an import or export at `at`, of `size` bytes, can be read.
pub open spec fn entry_ok(b: Seq<u8>, at: int, size: int) -> bool {
    &&& at + size <= b.len()
    &&& has_text(b, number(b, 40, 4) + number(b, at + 1, 3))
}

/// Whether `l` is library `i` of the loader section.
pub open spec fn is_library(b: Seq<u8>, i: int, l: LibraryView) -> bool {
    let at = 56 + 24 * i;
    &&& text_at(b, number(b, 40, 4) + number(b, at, 4), l.name)
    &&& l.old_imp_version == number(b, at + 4, 4)
    &&& l.current_version == number(b, at + 8, 4)
    &&& l.imported_symbol_count == number(b, at + 12, 4)
    &&& l.first_imported_symbol == number(b, at + 16, 4)
    &&& l.options == b[at + 20]
}

/// Whether library `k` has import `i` in its range.
pub open spec fn has_import(b: Seq<u8>, k: int, i: int) -> bool {
    let first = number(b, 56 + 24 * k + 16, 4);
    first <= i < first + number(b, 56 + 24 * k + 12, 4)
}

proof fn lemma_libraries(b: Seq<u8>, n: nat)
    requires
        b.len() >= 56,
    ensures
        ({
            let r = libraries(b, loader_info(b), n);
            &&& r is Ok <==> forall|i: int| 0 <= i < n ==> #[trigger] library_ok(b, i)
            &&& r matches Ok(s) ==> s.len() == n && forall|i: int|
                0 <= i < n ==> is_library(b, i, #[trigger] s[i])
            &&& r matches Err(e) ==> e == PefError::LibraryTruncated || e
                == PefError::StringPastEnd || e == PefError::StringNotUtf8
        }),
    decreases n,
{
    if n > 0 {
        lemma_libraries(b, (n - 1) as nat);
        let at = 56 + 24 * (n - 1);
        lemma_words(b, 40);
        lemma_words(b, at);
        lemma_words(b, at + 4);
        lemma_words(b, at + 8);
        lemma_words(b, at + 12);
        lemma_words(b, at + 16);
        lemma_string(b, number(b, 40, 4) + number(b, at, 4));
        assert(library(b, loader_info(b), n - 1) is Ok <==> library_ok(b, n - 1));
        if let Ok(below) = libraries(b, loader_info(b), (n - 1) as nat) {
            if let Ok(s) = libraries(b, loader_info(b), n) {
                assert forall|i: int| 0 <= i < n implies is_library(b, i, #[trigger] s[i]) by {
                    if i < n - 1 {
                        assert(s[i] == below[i]);
                    }
                }
            }
        }
    }
}

proof fn lemma_imports(b: Seq<u8>, libs: Seq<LibraryView>, n: nat)
    requires
        b.len() >= 56,
        libs.len() == number(b, 24, 4),
    ensures
        ({
            let r = imports(b, loader_info(b), libs, n);
            &&& r is Ok <==> forall|i: int|
                0 <= i < n ==> entry_ok(b, #[trigger] import_entry(b, i), 4)
            &&& r matches Err(e) ==> e == PefError::ImportTruncated || e
                == PefError::StringPastEnd || e == PefError::StringNotUtf8
        }),
    decreases n,
{
    if n > 0 {
        lemma_imports(b, libs, (n - 1) as nat);
        lemma_info(b);
        let at = import_entry(b, n - 1);
        lemma_entry_word(b, at);
        lemma_words(b, 40);
        lemma_number3(b, at + 1);
        lemma_string(b, number(b, 40, 4) + number(b, at + 1, 3));
        assert(import(b, loader_info(b), libs, n - 1) is Ok <==> entry_ok(b, at, 4));
        assert(import_entry(b, n - 1) == at);
    }
}

proof fn lemma_exports(b: Seq<u8>, n: nat)
    requires
        b.len() >= 56,
    ensures
        ({
            let r = exports(b, loader_info(b), n);
            &&& r is Ok <==> forall|i: int|
                0 <= i < n ==> entry_ok(b, #[trigger] export_entry(b, i), 10)
            &&& r matches Err(e) ==> e == PefError::ExportTruncated || e
                == PefError::StringPastEnd || e == PefError::StringNotUtf8
        }),
    decreases n,
{
    if n > 0 {
        lemma_exports(b, (n - 1) as nat);
        lemma_info(b);
        let at = export_entry(b, n - 1);
        lemma_entry_word(b, at);
        lemma_words(b, 40);
        lemma_number3(b, at + 1);
        lemma_string(b, number(b, 40, 4) + number(b, at + 1, 3));
        assert(export(b, loader_info(b), n - 1) is Ok <==> entry_ok(b, at, 10));
    }
}

proof fn lemma_number3(b: Seq<u8>, at: int)
    ensures
        number(b, at, 3) >= 0,
{
    reveal_with_fuel(number, 4);
}

/// Whether a loader section can be read: its libraries, imports and exports lie in it,
/// their names can be read, and its hash table is not too large.
pub open spec fn loader_ok(b: Seq<u8>) -> bool {
    &&& b.len() >= 56
    &&& forall|i: int| 0 <= i < number(b, 24, 4) ==> #[trigger] library_ok(b, i)
    &&& forall|i: int|
        0 <= i < number(b, 28, 4) ==> entry_ok(b, #[trigger] import_entry(b, i), 4)
    &&& number(b, 48, 4) < 62
    &&& forall|j: int|
        0 <= j < number(b, 52, 4) ==> entry_ok(b, #[trigger] export_entry(b, j), 10)
}

/// A loader section is read exactly where all of it can be; it gives the libraries,
/// imports and exports by their bytes, each import with the first library that has it in
/// its range.
pub proof fn lemma_loader_read(b: Seq<u8>)
    ensures
        ({
            let r = loader_section(b);
            &&& r is Ok <==> loader_ok(b)
            &&& b.len() < 56 <==> r == Err::<crate::util::pef_loader::LoaderView, _>(
                PefError::LoaderTooSmall,
            )
            &&& r != Err::<crate::util::pef_loader::LoaderView, _>(PefError::NoLoader)
            &&& r matches Ok(l) ==> {
                &&& l.libraries.len() == number(b, 24, 4)
                &&& forall|i: int|
                    0 <= i < l.libraries.len() ==> is_library(b, i, #[trigger] l.libraries[i])
                &&& l.imports.len() == number(b, 28, 4)
                &&& forall|i: int|
                    0 <= i < l.imports.len() ==> {
                        let at = import_entry(b, i);
                        let x = #[trigger] l.imports[i];
                        &&& entry_names(b, at, x.name)
                        &&& x.symbol_class == b[at] as int % 16
                        &&& x.flags + x.symbol_class == b[at]
                        &&& x.library_index != u32::MAX ==> x.library_index < l.libraries.len()
                            && has_import(b, x.library_index as int, i)
                        &&& forall|k: int|
                            0 <= k < l.libraries.len() && k < x.library_index
                                ==> !#[trigger] has_import(b, k, i)
                    }
                &&& l.exports.len() == number(b, 52, 4)
                &&& forall|j: int|
                    0 <= j < l.exports.len() ==> {
                        let at = export_entry(b, j);
                        let x = #[trigger] l.exports[j];
                        &&& entry_names(b, at, x.name)
                        &&& x.symbol_class == b[at] as int % 16
                        &&& x.value == number(b, at + 4, 4)
                        &&& x.section_index == export_section(b, at)
                    }
                &&& l.info.main_section == entry_section(b, 0) && l.info.main_offset == number(
                    b,
                    4,
                    4,
                )
                &&& l.info.init_section == entry_section(b, 8) && l.info.init_offset == number(
                    b,
                    12,
                    4,
                )
                &&& l.info.term_section == entry_section(b, 16) && l.info.term_offset == number(
                    b,
                    20,
                    4,
                )
                &&& l.info.reloc_section_count == number(b, 32, 4)
                &&& l.info.reloc_instr_offset == number(b, 36, 4)
                &&& l.info.loader_strings_offset == number(b, 40, 4)
                &&& l.info.export_hash_offset == number(b, 44, 4)
                &&& l.info.export_hash_table_power == number(b, 48, 4)
                &&& l.info.imported_library_count == number(b, 24, 4)
                &&& l.info.total_imported_symbol_count == number(b, 28, 4)
                &&& l.info.exported_symbol_count == number(b, 52, 4)
            }
        }),
{
    lemma_info(b);
    lemma_words(b, 32);
    lemma_words(b, 36);
    lemma_words(b, 44);
    lemma_words(b, 48);
    if b.len() >= 56 {
        let info = loader_info(b);
        lemma_libraries(b, info.imported_library_count as nat);
        if let Ok(libs) = libraries(b, info, info.imported_library_count as nat) {
            lemma_imports(b, libs, info.total_imported_symbol_count as nat);
            if let Ok(imps) = imports(b, info, libs, info.total_imported_symbol_count as nat) {
                lemma_exports(b, info.exported_symbol_count as nat);
            }
        }
    }
    if let Ok(l) = loader_section(b) {
        lemma_loader_counts(b);
        assert forall|i: int| 0 <= i < l.imports.len() implies ({
            let at = import_entry(b, i);
            let x = #[trigger] l.imports[i];
            &&& entry_names(b, at, x.name)
            &&& x.symbol_class == b[at] as int % 16
            &&& x.flags + x.symbol_class == b[at]
            &&& x.library_index != u32::MAX ==> x.library_index < l.libraries.len() && has_import(
                b,
                x.library_index as int,
                i,
            )
            &&& forall|k: int|
                0 <= k < l.libraries.len() && k < x.library_index ==> !#[trigger] has_import(
                    b,
                    k,
                    i,
                )
        }) by {
            lemma_import_read(b, i);
        }
        assert forall|j: int| 0 <= j < l.exports.len() implies ({
            let at = export_entry(b, j);
            let x = #[trigger] l.exports[j];
            &&& entry_names(b, at, x.name)
            &&& x.symbol_class == b[at] as int % 16
            &&& x.value == number(b, at + 4, 4)
            &&& x.section_index == export_section(b, at)
        }) by {
            lemma_export(b, j);
        }
    }
}

proof fn lemma_import_read(b: Seq<u8>, i: int)
    requires
        loader_section(b) is Ok,
        0 <= i < number(b, 28, 4),
    ensures
        ({
            let l = loader_section(b)->Ok_0;
            let at = import_entry(b, i);
            let x = l.imports[i];
            &&& entry_names(b, at, x.name)
            &&& x.symbol_class == b[at] as int % 16
            &&& x.flags + x.symbol_class == b[at]
            &&& x.library_index != u32::MAX ==> x.library_index < l.libraries.len() && has_import(
                b,
                x.library_index as int,
                i,
            )
            &&& forall|k: int|
                0 <= k < l.libraries.len() && k < x.library_index ==> !#[trigger] has_import(
                    b,
                    k,
                    i,
                )
        }),
{
    lemma_info(b);
    lemma_loader_counts(b);
    let l = loader_section(b)->Ok_0;
    let info = loader_info(b);
    let at = import_entry(b, i);
    lemma_libraries(b, info.imported_library_count as nat);
    lemma_import_each(b, info, l.libraries, info.total_imported_symbol_count as nat, i);
    lemma_entry_word(b, at);
    lemma_text_at(b, number(b, 40, 4) + number(b, at + 1, 3));
    lemma_provider(l.libraries, i);
    let x = l.imports[i];
    assert(x.library_index == provider(l.libraries, i));
    assert forall|k: int| 0 <= k < l.libraries.len() implies #[trigger] has_import(b, k, i)
        == provides(l.libraries[k], i) by {
        assert(is_library(b, k, l.libraries[k]));
    }
    if x.library_index != u32::MAX {
        assert(has_import(b, x.library_index as int, i) == provides(
            l.libraries[x.library_index as int],
            i,
        ));
    }
}

/// Whether the headers and names of a PEF file can be read.
pub open spec fn headers_ok(d: Seq<u8>) -> bool {
    &&& is_pef(d)
    &&& 40 + 28 * section_count(d) <= d.len()
    &&& forall|i: int| 0 <= i < section_count(d) ==> #[trigger] name_ok(d, i)
}

/// Whether the sections of a PEF file can be taken over.
pub open spec fn sections_ok(d: Seq<u8>) -> bool {
    forall|i: int| 0 <= i < section_count(d) ==> #[trigger] section_fits(d, i)
}

/// Whether a PEF file has a loader section.
pub open spec fn has_loader(d: Seq<u8>) -> bool {
    exists|i: int| #[trigger] last_loader_section(d, i, section_count(d))
}

proof fn lemma_headers_read(d: Seq<u8>)
    ensures
        container(d) is Ok <==> headers_ok(d),
        container(d) != Err::<ContainerView, _>(PefError::NoLoader),
        container(d) matches Ok(c) ==> c.sections.len() == section_count(d),
{
    lemma_container_read(d);
}

proof fn lemma_loader_accepts(b: Seq<u8>)
    ensures
        loader_section(b) is Ok <==> loader_ok(b),
        loader_section(b) != Err::<crate::util::pef_loader::LoaderView, _>(PefError::NoLoader),
{
    lemma_loader_read(b);
}

proof fn lemma_sections_read(d: Seq<u8>, c: ContainerView)
    requires
        container(d) == Ok::<_, PefError>(c),
    ensures
        ({
            let n = section_count(d);
            let r = object_sections(d, c, n as nat);
            &&& r is Ok <==> sections_ok(d)
            &&& r matches Err(e) ==> e != PefError::NoLoader && exists|i: int|
                0 <= i < n && !#[trigger] section_fits(d, i) && is_section_error(d, i, e)
            &&& r matches Ok(s) ==> {
                &&& s.loader is Some <==> has_loader(d)
                &&& forall|i: int| #[trigger]
                    last_loader_section(d, i, n) ==> s.loader == Some(section_bytes(d, i))
            }
        }),
{
    let n = section_count(d);
    lemma_words(d, 32);
    lemma_sections_fit(d, c, n as nat);
    lemma_loader(d, c, n as nat);
    if let Err(e) = object_sections(d, c, n as nat) {
        let i = choose|i: int|
            0 <= i < n && !#[trigger] section_fits(d, i) && is_section_error(d, i, e) && (forall|
                j: int,
            | 0 <= j < i ==> #[trigger] section_fits(d, j));
        assert(!section_fits(d, i));
    }
}

/// An object is read of every PEF file that can be read, and of no other: its headers
/// and names, its sections, and the last loader section, which it must have. A file that
/// cannot be read is refused for the first of these that is at fault.
pub proof fn lemma_pef_read(d: Seq<u8>, name: Seq<char>)
    ensures
        ({
            let r = pef_object(d, name);
            &&& r is Ok <==> headers_ok(d) && sections_ok(d) && exists|i: int| #[trigger]
                last_loader_section(d, i, section_count(d)) && loader_ok(section_bytes(d, i))
            &&& !headers_ok(d) ==> container(d) is Err && r == Err::<ObjView, PefError>(
                container(d)->Err_0,
            )
            &&& headers_ok(d) && !sections_ok(d) ==> r is Err && exists|i: int|
                0 <= i < section_count(d) && !#[trigger] section_fits(d, i) && is_section_error(
                    d,
                    i,
                    r->Err_0,
                )
            &&& headers_ok(d) && sections_ok(d) && !has_loader(d) <==> r == Err::<ObjView, _>(
                PefError::NoLoader,
            )
        }),
{
    lemma_headers_read(d);
    if let Ok(c) = container(d) {
        lemma_sections_read(d, c);
        if let Ok(s) = object_sections(d, c, section_count(d) as nat) {
            if has_loader(d) {
                let i = choose|i: int| #[trigger] last_loader_section(d, i, section_count(d));
                assert(s.loader == Some(section_bytes(d, i)));
                lemma_loader_accepts(section_bytes(d, i));
                assert forall|j: int| #[trigger]
                    last_loader_section(d, j, section_count(d)) implies section_bytes(d, j)
                    == section_bytes(d, i) by {
                    assert(s.loader == Some(section_bytes(d, j)));
                }
            }
        }
    }
}

/// What a PEF file does not say is left open: the object has no small data areas, no
/// stack and no arena, no link order and no blocked relocations.
pub proof fn lemma_pef_frame(d: Seq<u8>, name: Seq<char>)
    ensures
        pef_object(d, name) matches Ok(o) ==> {
            &&& o.sda2_base is None && o.sda_base is None
            &&& o.stack_address is None && o.stack_end is None && o.db_stack_addr is None
            &&& o.arena_lo is None && o.arena_hi is None
            &&& o.link_order.len() == 0
            &&& o.blocked_relocation_sources.len() == 0
            &&& o.blocked_relocation_targets.len() == 0
        },
{
}

} // verus!
