//! What `pef info` prints.
use vstd::prelude::*;
use vstd::string::*;

use crate::bytes::be32;
use crate::text::{
    decimal, left, push_decimal, push_left, push_right, push_upper_hex, push_upper_hex_min, right,
    upper_hex, upper_hex_min,
};
use crate::util::pef::{
    ContainerView, PEF_ARCH_M68K, PEF_ARCH_PPC, PefContainer, PefError, PefFileHeader,
    PefImportedLibrary, PefLoaderInfoHeader, PefSectionHeader, PefSectionKind, container,
    kind_name, parse_loader_section, section_kind, string_view,
};
use crate::util::pef_loader::{
    LibraryView, export_views, import_views, library_views, loader_section,
};

verus! {

/// Whether a byte is a printable ASCII character.
pub open spec fn printable(b: u8) -> bool {
    0x20 <= b < 0x7F
}

/// A four-byte tag as text: its characters if all are printable, else its value
/// in hexadecimal.
pub open spec fn tag_text(v: u32) -> Seq<char> {
    let b = be32(v);
    if printable(b[0]) && printable(b[1]) && printable(b[2]) && printable(b[3]) {
        seq![b[0] as char, b[1] as char, b[2] as char, b[3] as char]
    } else {
        upper_hex(v as nat, 8)
    }
}

/// A four-byte tag as text.
pub fn u32_to_tag(v: u32) -> (r: String)
    ensures
        r@ == tag_text(v),
{
    let a: u8 = (v / 0x100_0000) as u8;
    let b: u8 = (v / 0x1_0000 % 0x100) as u8;
    let c: u8 = (v / 0x100 % 0x100) as u8;
    let d: u8 = (v % 0x100) as u8;
    let mut s: String = String::new();
    if 0x20 <= a && a < 0x7F && 0x20 <= b && b < 0x7F && 0x20 <= c && c < 0x7F && 0x20 <= d && d
        < 0x7F {
        s.push(a as char);
        s.push(b as char);
        s.push(c as char);
        s.push(d as char);
    } else {
        push_upper_hex(&mut s, v, 8);
    }
    assert(s@ =~= tag_text(v));
    s
}

/// The name of an instruction set.
pub open spec fn architecture_text(architecture: u32) -> Seq<char> {
    if architecture == PEF_ARCH_PPC {
        "PowerPC (pwpc)"@
    } else if architecture == PEF_ARCH_M68K {
        "68K (m68k)"@
    } else {
        "<unknown>"@
    }
}

/// A line of a label and a text.
pub open spec fn labelled(label: Seq<char>, text: Seq<char>) -> Seq<char> {
    label + text + seq!['\n']
}

/// `0x` and eight hexadecimal digits.
pub open spec fn hex8(n: u32) -> Seq<char> {
    "0x"@ + upper_hex(n as nat, 8)
}

/// `0x` and as many hexadecimal digits as needed.
pub open spec fn hex_min(n: u32) -> Seq<char> {
    "0x"@ + upper_hex_min(n as nat)
}

/// The lines on the file header.
pub open spec fn header_text(h: PefFileHeader) -> Seq<char> {
    labelled("  magic:           "@, tag_text(h.tag1) + tag_text(h.tag2)) + labelled(
        "  architecture:    "@,
        architecture_text(h.architecture) + " ("@ + upper_hex(h.architecture as nat, 8) + ")"@,
    ) + labelled("  format version:  "@, decimal(h.format_version as nat)) + labelled(
        "  date/time stamp: "@,
        hex8(h.date_time_stamp),
    ) + labelled("  old def version: "@, hex8(h.old_def_version)) + labelled(
        "  old imp version: "@,
        hex8(h.old_imp_version),
    ) + labelled("  current version: "@, hex8(h.current_version)) + labelled(
        "  section count:   "@,
        decimal(h.section_count as nat),
    ) + labelled("  instantiated:    "@, decimal(h.inst_section_count as nat))
}

/// A number of a section's line: a space and the number, padded in front.
pub open spec fn column(n: u32, width: nat) -> Seq<char> {
    " "@ + right(hex_min(n), width)
}

/// The start of a section's line: number, name and kind.
pub open spec fn section_label(i: nat, name: Option<Seq<char>>, kind: u8) -> Seq<char> {
    "  "@ + right(decimal(i), 3) + "  "@ + left(
        match name {
            Some(n) => n,
            None => "<unnamed>"@,
        },
        16,
    ) + " "@ + left(
        match section_kind(kind) {
            Some(k) => kind_name(k),
            None => "?"@,
        },
        8,
    )
}

/// The line on a section.
pub open spec fn section_text(i: nat, name: Option<Seq<char>>, sh: PefSectionHeader) -> Seq<char> {
    section_label(i, name, sh.section_kind) + column(sh.default_address, 10) + column(
        sh.total_size,
        10,
    ) + column(sh.unpacked_size, 10) + column(sh.container_size, 10) + column(
        sh.container_offset,
        5,
    ) + " "@ + right(decimal(sh.alignment as nat), 5) + seq!['\n']
}

/// The lines on the first `n` sections.
pub open spec fn section_table_text(c: ContainerView, n: nat) -> Seq<char>
    decreases n,
{
    if n == 0 {
        Seq::empty()
    } else {
        section_table_text(c, (n - 1) as nat) + section_text(
            (n - 1) as nat,
            if n - 1 < c.section_names.len() {
                c.section_names[n - 1]
            } else {
                None
            },
            c.sections[n - 1],
        )
    }
}

/// The heading of the section table.
pub open spec fn table_heading() -> Seq<char> {
    "  idx  name             kind     defaultAddr  totalSize unpackSize   contSize  cOff align\n"@
}

/// What is printed on a container.
#[verifier::opaque]
pub open spec fn container_info(file: Seq<char>, c: ContainerView) -> Seq<char> {
    labelled("PEF file: "@, file) + header_text(c.header) + seq!['\n'] + table_heading()
        + section_table_text(c, c.sections.len())
}

/// The file range of the last loader section among the first `n` sections.
pub open spec fn last_loader(s: Seq<PefSectionHeader>, n: nat) -> Option<(u64, u64)>
    decreases n,
{
    if n == 0 {
        None
    } else {
        let sh = s[n - 1];
        if section_kind(sh.section_kind) == Some(PefSectionKind::Loader) {
            Some(
                (
                    sh.container_offset as u64,
                    (sh.container_offset + sh.container_size) as u64,
                ),
            )
        } else {
            last_loader(s, (n - 1) as nat)
        }
    }
}

/// The start of a library's line: number, name and imports.
pub open spec fn library_label(i: nat, l: LibraryView) -> Seq<char> {
    "    ["@ + right(decimal(i), 2) + "] "@ + left(l.name, 32) + " syms="@ + right(
        decimal(l.imported_symbol_count as nat),
        4,
    ) + " first="@ + right(decimal(l.first_imported_symbol as nat), 5)
}

/// The rest of a library's line: versions and options.
pub open spec fn library_versions(l: LibraryView) -> Seq<char> {
    " oldImp="@ + hex8(l.old_imp_version) + " cur="@ + hex8(l.current_version) + " opts="@ + "0x"@
        + upper_hex(l.options as nat, 2) + seq!['\n']
}

/// The line on an imported library.
pub open spec fn library_text(i: nat, l: LibraryView) -> Seq<char> {
    library_label(i, l) + library_versions(l)
}

/// The lines on the first `n` imported libraries.
pub open spec fn libraries_text(l: Seq<LibraryView>, n: nat) -> Seq<char>
    decreases n,
{
    if n == 0 {
        Seq::empty()
    } else {
        libraries_text(l, (n - 1) as nat) + library_text((n - 1) as nat, l[n - 1])
    }
}

/// A signed number in decimal.
pub open spec fn signed_decimal(n: i32) -> Seq<char> {
    if n < 0 {
        "-"@ + decimal((-n) as nat)
    } else {
        decimal(n as nat)
    }
}

/// The line on an entry point.
pub open spec fn entry_text(tag: Seq<char>, section: i32, offset: u32) -> Seq<char> {
    "  "@ + tag + "Section="@ + signed_decimal(section) + " "@ + tag + "Offset="@ + hex_min(offset)
        + seq!['\n']
}

/// What is printed on a loader section.
#[verifier::opaque]
pub open spec fn loader_info_text(
    info: PefLoaderInfoHeader,
    libs: Seq<LibraryView>,
    imports: nat,
    exports: nat,
) -> Seq<char> {
    "\nLoader:\n"@ + entry_text("main"@, info.main_section, info.main_offset) + entry_text(
        "init"@,
        info.init_section,
        info.init_offset,
    ) + entry_text("term"@, info.term_section, info.term_offset) + labelled(
        "  importedLibraryCount: "@,
        decimal(libs.len()),
    ) + labelled("  totalImportedSymbolCount: "@, decimal(imports)) + labelled(
        "  exportedSymbolCount: "@,
        decimal(exports),
    ) + "\n  Imported libraries:\n"@ + libraries_text(libs, libs.len())
}

/// Appends a line of a label and a text.
fn push_line(out: &mut String, label: &str, text: &str)
    ensures
        final(out)@ == old(out)@ + labelled(label@, text@),
{
    out.push_str(label);
    out.push_str(text);
    out.push('\n');
    assert(out@ =~= old(out)@ + labelled(label@, text@));
}

/// A number in decimal.
fn decimal_string(n: u64) -> (r: String)
    ensures
        r@ == decimal(n as nat),
{
    let mut s: String = String::new();
    push_decimal(&mut s, n);
    assert(s@ =~= decimal(n as nat));
    s
}

/// `0x` and eight hexadecimal digits.
fn hex8_string(n: u32) -> (r: String)
    ensures
        r@ == hex8(n),
{
    let mut s: String = "0x".to_owned();
    push_upper_hex(&mut s, n, 8);
    s
}

/// `0x` and as many hexadecimal digits as needed.
fn hex_min_string(n: u32) -> (r: String)
    ensures
        r@ == hex_min(n),
{
    let mut s: String = "0x".to_owned();
    push_upper_hex_min(&mut s, n);
    s
}

/// Appends the lines on the file header.
fn push_header(out: &mut String, h: &PefFileHeader)
    ensures
        final(out)@ == old(out)@ + header_text(*h),
{
    let mut magic: String = u32_to_tag(h.tag1);
    magic.push_str(u32_to_tag(h.tag2).as_str());
    push_line(out, "  magic:           ", magic.as_str());
    let arch: &str = if h.architecture == PEF_ARCH_PPC {
        "PowerPC (pwpc)"
    } else if h.architecture == PEF_ARCH_M68K {
        "68K (m68k)"
    } else {
        "<unknown>"
    };
    let mut architecture: String = arch.to_owned();
    architecture.push_str(" (");
    push_upper_hex(&mut architecture, h.architecture, 8);
    architecture.push_str(")");
    push_line(out, "  architecture:    ", architecture.as_str());
    push_line(out, "  format version:  ", decimal_string(h.format_version as u64).as_str());
    push_line(out, "  date/time stamp: ", hex8_string(h.date_time_stamp).as_str());
    push_line(out, "  old def version: ", hex8_string(h.old_def_version).as_str());
    push_line(out, "  old imp version: ", hex8_string(h.old_imp_version).as_str());
    push_line(out, "  current version: ", hex8_string(h.current_version).as_str());
    push_line(out, "  section count:   ", decimal_string(h.section_count as u64).as_str());
    push_line(out, "  instantiated:    ", decimal_string(h.inst_section_count as u64).as_str());
    assert(out@ =~= old(out)@ + header_text(*h));
}

/// Appends a number of a section's line.
fn push_column(out: &mut String, n: u32, width: usize)
    ensures
        final(out)@ == old(out)@ + column(n, width as nat),
{
    out.push_str(" ");
    push_right(out, hex_min_string(n).as_str(), width);
    assert(out@ =~= old(out)@ + column(n, width as nat));
}

/// Appends the start of a section's line.
fn push_label(out: &mut String, i: usize, name: &str, sh: &PefSectionHeader)
    ensures
        final(out)@ == old(out)@ + section_label(i as nat, Some(name@), sh.section_kind),
{
    let kind: &str = match sh.kind() {
        Some(k) => k.short_name(),
        None => "?",
    };
    out.push_str("  ");
    push_right(out, decimal_string(i as u64).as_str(), 3);
    out.push_str("  ");
    push_left(out, name, 16);
    out.push_str(" ");
    push_left(out, kind, 8);
    assert(out@ =~= old(out)@ + section_label(i as nat, Some(name@), sh.section_kind));
}

/// Appends the line on a section.
fn push_section(out: &mut String, i: usize, name: &str, sh: &PefSectionHeader)
    ensures
        final(out)@ == old(out)@ + section_text(i as nat, Some(name@), *sh),
{
    push_label(out, i, name, sh);
    push_column(out, sh.default_address, 10);
    push_column(out, sh.total_size, 10);
    push_column(out, sh.unpacked_size, 10);
    push_column(out, sh.container_size, 10);
    push_column(out, sh.container_offset, 5);
    out.push_str(" ");
    push_right(out, decimal_string(sh.alignment as u64).as_str(), 5);
    out.push('\n');
    assert(out@ =~= old(out)@ + section_text(i as nat, Some(name@), *sh));
}

/// What `pef info` prints on a container: file header and section table.
pub fn container_text(file: &str, c: &PefContainer) -> (r: String)
    ensures
        r@ == container_info(file@, c@),
{
    proof {
        reveal(container_info);
    }
    let mut out: String = String::new();
    push_line(&mut out, "PEF file: ", file);
    push_header(&mut out, &c.header);
    out.push('\n');
    out.push_str(
        "  idx  name             kind     defaultAddr  totalSize unpackSize   contSize  cOff align\n",
    );
    let ghost head = out@;
    assert(head =~= labelled("PEF file: "@, file@) + header_text(c@.header) + seq!['\n']
        + table_heading());
    let mut i: usize = 0;
    assert(out@ =~= head + section_table_text(c@, 0));
    while i < c.sections.len()
        invariant
            i <= c.sections@.len() == c@.sections.len(),
            out@ == head + section_table_text(c@, i as nat),
        decreases c.sections@.len() - i,
    {
        let ghost before = out@;
        let name: &str = if i < c.section_names.len() {
            assert(c@.section_names[i as int] == crate::obj::text_view(
                c.section_names@[i as int],
            ));
            match &c.section_names[i] {
                Some(n) => n.as_str(),
                None => "<unnamed>",
            }
        } else {
            "<unnamed>"
        };
        push_section(&mut out, i, name, &c.sections[i]);
        assert(out@ =~= head + section_table_text(c@, (i + 1) as nat));
        i = i + 1;
    }
    out
}

/// The file range (start, exclusive end) of the loader section, the last one if
/// there are several.
pub fn loader_range(c: &PefContainer) -> (r: Option<(u64, u64)>)
    ensures
        r == last_loader(c@.sections, c@.sections.len()),
{
    let mut i: usize = c.sections.len();
    while i > 0
        invariant
            i <= c.sections@.len(),
            last_loader(c@.sections, i as nat) == last_loader(c@.sections, c@.sections.len()),
        decreases i,
    {
        let sh = c.sections[i - 1];
        if let Some(k) = sh.kind() {
            if k == PefSectionKind::Loader {
                let start: u64 = sh.container_offset as u64;
                return Some((start, start + sh.container_size as u64));
            }
        }
        i = i - 1;
    }
    None
}

/// Appends the start of a library's line.
fn push_library_label(out: &mut String, i: usize, l: &PefImportedLibrary)
    ensures
        final(out)@ == old(out)@ + library_label(i as nat, l@),
{
    out.push_str("    [");
    push_right(out, decimal_string(i as u64).as_str(), 2);
    out.push_str("] ");
    push_left(out, l.name.as_str(), 32);
    out.push_str(" syms=");
    push_right(out, decimal_string(l.imported_symbol_count as u64).as_str(), 4);
    out.push_str(" first=");
    push_right(out, decimal_string(l.first_imported_symbol as u64).as_str(), 5);
    assert(out@ =~= old(out)@ + library_label(i as nat, l@));
}

/// Appends the rest of a library's line.
fn push_library_versions(out: &mut String, l: &PefImportedLibrary)
    ensures
        final(out)@ == old(out)@ + library_versions(l@),
{
    out.push_str(" oldImp=");
    out.push_str(hex8_string(l.old_imp_version).as_str());
    out.push_str(" cur=");
    out.push_str(hex8_string(l.current_version).as_str());
    out.push_str(" opts=");
    out.push_str("0x");
    push_upper_hex(out, l.options as u32, 2);
    out.push('\n');
    assert(out@ =~= old(out)@ + library_versions(l@));
}

/// Appends the line on an imported library.
fn push_library(out: &mut String, i: usize, l: &PefImportedLibrary)
    ensures
        final(out)@ == old(out)@ + library_text(i as nat, l@),
{
    push_library_label(out, i, l);
    push_library_versions(out, l);
    assert(out@ =~= old(out)@ + library_text(i as nat, l@));
}

/// Appends the line on an entry point.
fn push_entry(out: &mut String, tag: &str, section: i32, offset: u32)
    ensures
        final(out)@ == old(out)@ + entry_text(tag@, section, offset),
{
    out.push_str("  ");
    out.push_str(tag);
    out.push_str("Section=");
    let ghost before = out@;
    if section < 0 {
        out.push_str("-");
        push_decimal(out, (-(section as i64)) as u64);
    } else {
        push_decimal(out, section as u64);
    }
    assert(out@ =~= before + signed_decimal(section));
    out.push_str(" ");
    out.push_str(tag);
    out.push_str("Offset=");
    out.push_str(hex_min_string(offset).as_str());
    out.push('\n');
    assert(out@ =~= old(out)@ + entry_text(tag@, section, offset));
}

/// What `pef info` prints on a loader section.
pub fn loader_text(
    info: &PefLoaderInfoHeader,
    libs: &Vec<PefImportedLibrary>,
    imports: usize,
    exports: usize,
) -> (r: String)
    ensures
        r@ == loader_info_text(*info, library_views(libs@), imports as nat, exports as nat),
{
    proof {
        reveal(loader_info_text);
    }
    let ghost views = library_views(libs@);
    let mut out: String = "\nLoader:\n".to_owned();
    push_entry(&mut out, "main", info.main_section, info.main_offset);
    push_entry(&mut out, "init", info.init_section, info.init_offset);
    push_entry(&mut out, "term", info.term_section, info.term_offset);
    push_line(&mut out, "  importedLibraryCount: ", decimal_string(libs.len() as u64).as_str());
    push_line(&mut out, "  totalImportedSymbolCount: ", decimal_string(imports as u64).as_str());
    push_line(&mut out, "  exportedSymbolCount: ", decimal_string(exports as u64).as_str());
    out.push_str("\n  Imported libraries:\n");
    let ghost head = out@;
    let mut i: usize = 0;
    assert(out@ =~= head + libraries_text(views, 0));
    while i < libs.len()
        invariant
            i <= libs@.len(),
            views == library_views(libs@),
            out@ == head + libraries_text(views, i as nat),
        decreases libs@.len() - i,
    {
        assert(views[i as int] == libs@[i as int]@);
        push_library(&mut out, i, &libs[i]);
        assert(out@ =~= head + libraries_text(views, (i + 1) as nat));
        i = i + 1;
    }
    assert(out@ =~= loader_info_text(*info, views, imports as nat, exports as nat));
    out
}

/// What is printed on the bytes of a loader section, or why they are refused.
#[verifier::opaque]
pub open spec fn loader_report(d: Seq<u8>) -> Result<Seq<char>, PefError> {
    match loader_section(d) {
        Err(e) => Err(e),
        Ok(l) => Ok(loader_info_text(l.info, l.libraries, l.imports.len(), l.exports.len())),
    }
}

/// What is printed on a container and its loader section, and how it ends.
pub open spec fn report(file: Seq<char>, d: Seq<u8>, c: ContainerView) -> (
    Seq<char>,
    Result<(), PefError>,
) {
    match last_loader(c.sections, c.sections.len()) {
        None => (container_info(file, c), Ok(())),
        Some((lo, hi)) => match loader_report(d.subrange(lo as int, hi as int)) {
            Err(e) => (container_info(file, c), Err(e)),
            Ok(text) => (container_info(file, c) + text, Ok(())),
        },
    }
}

/// What `pef info` prints, and how it ends.
pub open spec fn info_of(file: Seq<char>, d: Seq<u8>) -> (Seq<char>, Result<(), PefError>) {
    match container(d) {
        Err(e) => (Seq::empty(), Err(e)),
        Ok(c) => report(file, d, c),
    }
}

/// Whether the file holds all of its loader section.
pub open spec fn loader_inside(d: Seq<u8>, c: ContainerView) -> bool {
    last_loader(c.sections, c.sections.len()) matches Some((lo, hi)) ==> hi <= d.len()
}

/// The range that [`last_loader`] names does not end before it starts.
proof fn lemma_last_loader(s: Seq<PefSectionHeader>, n: nat)
    requires
        n <= s.len(),
    ensures
        last_loader(s, n) matches Some((lo, hi)) ==> lo <= hi,
    decreases n,
{
    if n > 0 {
        lemma_last_loader(s, (n - 1) as nat);
    }
}

/// What is printed on the bytes of a loader section.
fn loader_part(loader: &[u8]) -> (r: Result<String, PefError>)
    ensures
        string_view(r) == loader_report(loader@),
{
    proof {
        reveal(loader_report);
    }
    match parse_loader_section(loader) {
        Ok((info, libs, imports, exports)) => {
            assert(import_views(imports@).len() == imports@.len());
            assert(export_views(exports@).len() == exports@.len());
            Ok(loader_text(&info, &libs, imports.len(), exports.len()))
        },
        Err(e) => Err(e),
    }
}

/// What is printed on a container and its loader section, and how it ends.
fn report_text(file: &str, data: &[u8], c: &PefContainer) -> (r: (String, Result<(), PefError>))
    requires
        loader_inside(data@, c@),
    ensures
        (r.0@, r.1) == report(file@, data@, c@),
{
    let mut out: String = container_text(file, c);
    match loader_range(c) {
        None => (out, Ok(())),
        Some((lo, hi)) => {
            proof {
                lemma_last_loader(c@.sections, c@.sections.len());
            }
            assert(hi <= data.len());
            let loader: &[u8] = vstd::slice::slice_subrange(data, lo as usize, hi as usize);
            match loader_part(loader) {
                Ok(text) => {
                    out.push_str(text.as_str());
                    (out, Ok(()))
                },
                Err(e) => (out, Err(e)),
            }
        },
    }
}

/// What `pef info` prints on a file, and how it ends: what precedes an error is
/// printed.
pub fn info_text(file: &str, data: &[u8]) -> (r: (String, Result<(), PefError>))
    requires
        container(data@) matches Ok(c) ==> loader_inside(data@, c),
    ensures
        (r.0@, r.1) == info_of(file@, data@),
{
    match PefContainer::parse(data) {
        Ok(c) => report_text(file, data, &c),
        Err(e) => {
            let none: String = String::new();
            assert(none@ =~= Seq::<char>::empty());
            (none, Err(e))
        },
    }
}

} // verus!
