//! Classic Mac OS PowerPC PEF (Preferred Executable Format) reader.
//!
//! Container layout:
//!   - [`PefFileHeader`] (40 bytes) at file offset 0
//!   - [`PefSectionHeader`] table (28 bytes each) immediately following
//!   - section name table (packed C strings) after the section headers
//!   - section containers at their `container_offset`
//!
//! One section (of kind [`PefSectionKind::Loader`]) holds a
//! [`PefLoaderInfoHeader`], an imported library table, an imported symbol
//! table, relocation instructions, an export hash table and a string table.
use vstd::prelude::*;

use crate::bytes::{be_u16, be_u32, read_be_i32, read_be_u16, read_be_u32, signed32};
use crate::text::{decode_text, utf8_text};
pub use crate::util::pef_loader::{
    PefExportedSymbol, PefImportedLibrary, PefImportedSymbol, PefLoaderInfoHeader,
    parse_loader_section,
};
pub use crate::util::pef_object::{
    apply_pef_relocations, export_symbol, import_symbol, pef_class_to_symbol_kind, process_pef,
    read_container, write_pef,
};

verus! {

/// "Joy!"
pub const PEF_MAGIC_TAG1: u32 = 0x4A6F_7921;

/// "peff"
pub const PEF_MAGIC_TAG2: u32 = 0x7065_6666;

/// "pwpc"
pub const PEF_ARCH_PPC: u32 = 0x7077_7063;

/// "m68k"
pub const PEF_ARCH_M68K: u32 = 0x6D36_386B;

pub const PEF_FILE_HEADER_SIZE: usize = 40;

pub const PEF_SECTION_HEADER_SIZE: usize = 28;

pub const PEF_LOADER_INFO_HEADER_SIZE: usize = 56;

pub const PEF_IMPORTED_LIBRARY_SIZE: usize = 24;

pub const PEF_EXPORTED_SYMBOL_SIZE: usize = 10;

/// Symbol class (low four bits of the class byte): code.
pub const PEF_CLASS_CODE: u8 = 0;

/// Symbol class: data.
pub const PEF_CLASS_DATA: u8 = 1;

/// Symbol class: transition vector.
pub const PEF_CLASS_TVECTOR: u8 = 2;

/// Symbol class: table of contents.
pub const PEF_CLASS_TOC: u8 = 3;

/// Symbol class: linker glue.
pub const PEF_CLASS_GLUE: u8 = 4;

/// Symbol class: none.
pub const PEF_CLASS_UNDEFINED: u8 = 0x0F;

/// Imported-symbol flag (high four bits of the class byte): weak import.
pub const PEF_WEAK_IMPORT: u8 = 0x80;

/// Section index of an exported symbol with an absolute value.
pub const PEF_EXPORT_ABSOLUTE: i16 = -2;

/// Section index of an exported symbol that is an import.
pub const PEF_EXPORT_REEXPORT: i16 = -3;

/// Why a PEF file is refused.
#[derive(Clone, Copy, Debug, PartialEq, Eq, Structural)]
pub enum PefError {
    /// The file is too small for a file header.
    FileTooSmall,
    /// The file does not start with the two tags.
    BadMagic,
    /// The code is not for PowerPC.
    UnsupportedArchitecture,
    /// The format version is not 1.
    UnsupportedVersion,
    /// A section header is cut off.
    SectionHeaderTruncated,
    /// The section header table extends past the end of the file.
    SectionTablePastEnd,
    /// A string starts past the end.
    StringPastEnd,
    /// A string is not UTF-8.
    StringNotUtf8,
    /// The loader section is too small for its header.
    LoaderTooSmall,
    /// An imported library is cut off.
    LibraryTruncated,
    /// An imported symbol is cut off.
    ImportTruncated,
    /// The export hash table is larger than memory.
    HashSlotsOverflow,
    /// An exported symbol is cut off.
    ExportTruncated,
    /// The loader section extends past the end of the file.
    LoaderPastEnd,
    /// A section extends past the end of the file.
    ContainerPastEnd,
    /// The alignment of a section does not fit in 64 bits.
    AlignmentOverflow,
    /// There is no loader section.
    NoLoader,
    /// PEF files cannot be written.
    WriterNotImplemented,
}

/// What a PEF section holds.
#[derive(Clone, Copy, Debug, PartialEq, Eq, Structural)]
pub enum PefSectionKind {
    Code,
    UnpackedData,
    PatternInitData,
    ConstantData,
    Loader,
    Debug,
    ExecutableData,
    Exception,
    Traceback,
}

/// The section kind with the given code.
pub open spec fn section_kind(v: u8) -> Option<PefSectionKind> {
    if v == 0 {
        Some(PefSectionKind::Code)
    } else if v == 1 {
        Some(PefSectionKind::UnpackedData)
    } else if v == 2 {
        Some(PefSectionKind::PatternInitData)
    } else if v == 3 {
        Some(PefSectionKind::ConstantData)
    } else if v == 4 {
        Some(PefSectionKind::Loader)
    } else if v == 5 {
        Some(PefSectionKind::Debug)
    } else if v == 6 {
        Some(PefSectionKind::ExecutableData)
    } else if v == 7 {
        Some(PefSectionKind::Exception)
    } else if v == 8 {
        Some(PefSectionKind::Traceback)
    } else {
        None
    }
}

/// The short name of a section kind.
pub open spec fn kind_name(k: PefSectionKind) -> Seq<char> {
    match k {
        PefSectionKind::Code => "code"@,
        PefSectionKind::UnpackedData => "data"@,
        PefSectionKind::PatternInitData => "pidata"@,
        PefSectionKind::ConstantData => "rdata"@,
        PefSectionKind::Loader => "loader"@,
        PefSectionKind::Debug => "debug"@,
        PefSectionKind::ExecutableData => "xdata"@,
        PefSectionKind::Exception => "except"@,
        PefSectionKind::Traceback => "trace"@,
    }
}

impl PefSectionKind {
    /// The section kind with the given code.
    pub fn from_u8(v: u8) -> (r: Option<Self>)
        ensures
            r == section_kind(v),
    {
        match v {
            0 => Some(PefSectionKind::Code),
            1 => Some(PefSectionKind::UnpackedData),
            2 => Some(PefSectionKind::PatternInitData),
            3 => Some(PefSectionKind::ConstantData),
            4 => Some(PefSectionKind::Loader),
            5 => Some(PefSectionKind::Debug),
            6 => Some(PefSectionKind::ExecutableData),
            7 => Some(PefSectionKind::Exception),
            8 => Some(PefSectionKind::Traceback),
            _ => None,
        }
    }

    /// The short name of the kind.
    pub fn short_name(self) -> (r: &'static str)
        ensures
            r@ == kind_name(self),
    {
        match self {
            PefSectionKind::Code => "code",
            PefSectionKind::UnpackedData => "data",
            PefSectionKind::PatternInitData => "pidata",
            PefSectionKind::ConstantData => "rdata",
            PefSectionKind::Loader => "loader",
            PefSectionKind::Debug => "debug",
            PefSectionKind::ExecutableData => "xdata",
            PefSectionKind::Exception => "except",
            PefSectionKind::Traceback => "trace",
        }
    }
}

/// The header of a PEF file.
#[derive(Clone, Copy, Debug, PartialEq, Eq, Structural)]
pub struct PefFileHeader {
    pub tag1: u32,
    pub tag2: u32,
    pub architecture: u32,
    pub format_version: u32,
    pub date_time_stamp: u32,
    pub old_def_version: u32,
    pub old_imp_version: u32,
    pub current_version: u32,
    pub section_count: u16,
    pub inst_section_count: u16,
    pub reserved_a: u32,
}

/// The fields of the file header.
pub open spec fn raw_file_header(d: Seq<u8>) -> PefFileHeader {
    PefFileHeader {
        tag1: be_u32(d, 0),
        tag2: be_u32(d, 4),
        architecture: be_u32(d, 8),
        format_version: be_u32(d, 12),
        date_time_stamp: be_u32(d, 16),
        old_def_version: be_u32(d, 20),
        old_imp_version: be_u32(d, 24),
        current_version: be_u32(d, 28),
        section_count: be_u16(d, 32),
        inst_section_count: be_u16(d, 34),
        reserved_a: be_u32(d, 36),
    }
}

/// The file header, or why it is refused.
pub open spec fn file_header(d: Seq<u8>) -> Result<PefFileHeader, PefError> {
    let h = raw_file_header(d);
    if d.len() < PEF_FILE_HEADER_SIZE {
        Err(PefError::FileTooSmall)
    } else if h.tag1 != PEF_MAGIC_TAG1 || h.tag2 != PEF_MAGIC_TAG2 {
        Err(PefError::BadMagic)
    } else if h.architecture != PEF_ARCH_PPC {
        Err(PefError::UnsupportedArchitecture)
    } else if h.format_version != 1 {
        Err(PefError::UnsupportedVersion)
    } else {
        Ok(h)
    }
}

impl PefFileHeader {
    /// Reads the file header.
    pub fn parse(data: &[u8]) -> (r: Result<Self, PefError>)
        ensures
            r == file_header(data@),
    {
        if data.len() < PEF_FILE_HEADER_SIZE {
            return Err(PefError::FileTooSmall);
        }
        let h = PefFileHeader {
            tag1: read_be_u32(data, 0),
            tag2: read_be_u32(data, 4),
            architecture: read_be_u32(data, 8),
            format_version: read_be_u32(data, 12),
            date_time_stamp: read_be_u32(data, 16),
            old_def_version: read_be_u32(data, 20),
            old_imp_version: read_be_u32(data, 24),
            current_version: read_be_u32(data, 28),
            section_count: read_be_u16(data, 32),
            inst_section_count: read_be_u16(data, 34),
            reserved_a: read_be_u32(data, 36),
        };
        if h.tag1 != PEF_MAGIC_TAG1 || h.tag2 != PEF_MAGIC_TAG2 {
            return Err(PefError::BadMagic);
        }
        if h.architecture != PEF_ARCH_PPC {
            return Err(PefError::UnsupportedArchitecture);
        }
        if h.format_version != 1 {
            return Err(PefError::UnsupportedVersion);
        }
        Ok(h)
    }
}

/// The header of a PEF section.
#[derive(Clone, Copy, Debug, PartialEq, Eq, Structural)]
pub struct PefSectionHeader {
    /// Offset into the section name table. `-1` means unnamed.
    pub name_offset: i32,
    pub default_address: u32,
    pub total_size: u32,
    pub unpacked_size: u32,
    pub container_size: u32,
    pub container_offset: u32,
    pub section_kind: u8,
    pub share_kind: u8,
    pub alignment: u8,
    pub reserved_b: u8,
}

/// The section header at `off`.
pub open spec fn section_header_at(d: Seq<u8>, off: int) -> PefSectionHeader {
    PefSectionHeader {
        name_offset: signed32(be_u32(d, off)),
        default_address: be_u32(d, off + 4),
        total_size: be_u32(d, off + 8),
        unpacked_size: be_u32(d, off + 12),
        container_size: be_u32(d, off + 16),
        container_offset: be_u32(d, off + 20),
        section_kind: d[off + 24],
        share_kind: d[off + 25],
        alignment: d[off + 26],
        reserved_b: d[off + 27],
    }
}

impl PefSectionHeader {
    /// Reads a section header.
    pub fn parse(data: &[u8]) -> (r: Result<Self, PefError>)
        ensures
            data@.len() < PEF_SECTION_HEADER_SIZE ==> r == Err::<Self, _>(
                PefError::SectionHeaderTruncated,
            ),
            data@.len() >= PEF_SECTION_HEADER_SIZE ==> r == Ok::<_, PefError>(
                section_header_at(data@, 0),
            ),
    {
        if data.len() < PEF_SECTION_HEADER_SIZE {
            return Err(PefError::SectionHeaderTruncated);
        }
        Ok(
            PefSectionHeader {
                name_offset: read_be_i32(data, 0),
                default_address: read_be_u32(data, 4),
                total_size: read_be_u32(data, 8),
                unpacked_size: read_be_u32(data, 12),
                container_size: read_be_u32(data, 16),
                container_offset: read_be_u32(data, 20),
                section_kind: data[24],
                share_kind: data[25],
                alignment: data[26],
                reserved_b: data[27],
            },
        )
    }

    /// The kind of the section, if its code is known.
    pub fn kind(&self) -> (r: Option<PefSectionKind>)
        ensures
            r == section_kind(self.section_kind),
    {
        PefSectionKind::from_u8(self.section_kind)
    }
}

/// The index of the first zero byte from `i` on, or the length.
pub open spec fn nul_from(d: Seq<u8>, i: int) -> int
    decreases d.len() - i,
{
    if i >= d.len() {
        d.len() as int
    } else if d[i] == 0 {
        i
    } else {
        nul_from(d, i + 1)
    }
}

/// The string from `abs` to the next zero byte or the end.
pub open spec fn c_string(d: Seq<u8>, abs: int) -> Result<Seq<char>, PefError> {
    if abs > d.len() {
        Err(PefError::StringPastEnd)
    } else {
        match utf8_text(d.subrange(abs, nul_from(d, abs))) {
            Some(t) => Ok(t),
            None => Err(PefError::StringNotUtf8),
        }
    }
}

/// The characters of a string read, or the error.
pub open spec fn string_view(r: Result<String, PefError>) -> Result<Seq<char>, PefError> {
    match r {
        Ok(s) => Ok(s@),
        Err(e) => Err(e),
    }
}

/// Reads the zero-terminated string at `abs`; the end of `data` ends it too.
pub fn read_c_string(data: &[u8], abs: u64) -> (r: Result<String, PefError>)
    ensures
        string_view(r) == c_string(data@, abs as int),
{
    if abs > data.len() as u64 {
        return Err(PefError::StringPastEnd);
    }
    let start: usize = abs as usize;
    let mut end: usize = start;
    while end < data.len() && data[end] != 0
        invariant
            start <= end <= data@.len(),
            nul_from(data@, end as int) == nul_from(data@, start as int),
        decreases data@.len() - end,
    {
        end = end + 1;
    }
    let bytes = vstd::slice::slice_subrange(data, start, end);
    match decode_text(bytes) {
        Some(s) => Ok(s),
        None => Err(PefError::StringNotUtf8),
    }
}

/// A parsed PEF container: file header, section headers and section names.
pub struct PefContainer {
    pub header: PefFileHeader,
    pub sections: Vec<PefSectionHeader>,
    pub section_names: Vec<Option<String>>,
}

/// What a [`PefContainer`] holds.
pub ghost struct ContainerView {
    pub header: PefFileHeader,
    pub sections: Seq<PefSectionHeader>,
    pub section_names: Seq<Option<Seq<char>>>,
}

/// The views of a list of optional names.
pub open spec fn name_views(s: Seq<Option<String>>) -> Seq<Option<Seq<char>>> {
    s.map_values(|x: Option<String>| crate::obj::text_view(x))
}

impl View for PefContainer {
    type V = ContainerView;

    open spec fn view(&self) -> ContainerView {
        ContainerView {
            header: self.header,
            sections: self.sections@,
            section_names: name_views(self.section_names@),
        }
    }
}

/// The file offset behind the section header table.
pub open spec fn section_table_end(count: nat) -> int {
    40int + 28 * count
}

/// The section header table.
pub open spec fn section_table(d: Seq<u8>, count: nat) -> Seq<PefSectionHeader> {
    Seq::new(
        count,
        |i: int| section_header_at(d, 40 + 28 * i),
    )
}

/// The name of a section, where it has one.
pub open spec fn section_label(d: Seq<u8>, table_end: int, sh: PefSectionHeader) -> Result<
    Option<Seq<char>>,
    PefError,
> {
    if sh.name_offset == -1 {
        Ok(None)
    } else {
        match c_string(d, table_end + (sh.name_offset as int) % 0x1_0000_0000) {
            Ok(t) => Ok(Some(t)),
            Err(e) => Err(e),
        }
    }
}

/// The names of the first `n` sections.
pub open spec fn section_labels(
    d: Seq<u8>,
    table_end: int,
    s: Seq<PefSectionHeader>,
    n: nat,
) -> Result<Seq<Option<Seq<char>>>, PefError>
    decreases n,
{
    if n == 0 {
        Ok(Seq::empty())
    } else {
        match section_labels(d, table_end, s, (n - 1) as nat) {
            Err(e) => Err(e),
            Ok(below) => match section_label(d, table_end, s[n - 1]) {
                Err(e) => Err(e),
                Ok(name) => Ok(below.push(name)),
            },
        }
    }
}

/// The container, or why it is refused.
pub open spec fn container(d: Seq<u8>) -> Result<ContainerView, PefError> {
    match file_header(d) {
        Err(e) => Err(e),
        Ok(header) => {
            let count = header.section_count as nat;
            let end = section_table_end(count);
            if d.len() < end {
                Err(PefError::SectionTablePastEnd)
            } else {
                let sections = section_table(d, count);
                match section_labels(d, end, sections, count) {
                    Err(e) => Err(e),
                    Ok(section_names) => Ok(ContainerView { header, sections, section_names }),
                }
            }
        },
    }
}

/// The view of a container read, or the error.
pub open spec fn container_view(r: Result<PefContainer, PefError>) -> Result<
    ContainerView,
    PefError,
> {
    match r {
        Ok(c) => Ok(c@),
        Err(e) => Err(e),
    }
}

/// A name that is refused ends the reading of names.
proof fn lemma_labels_stop(
    d: Seq<u8>,
    table_end: int,
    s: Seq<PefSectionHeader>,
    n: nat,
    all: nat,
)
    requires
        n <= all,
        section_labels(d, table_end, s, n) is Err,
    ensures
        section_labels(d, table_end, s, all) == section_labels(d, table_end, s, n),
    decreases all,
{
    if n < all {
        lemma_labels_stop(d, table_end, s, n, (all - 1) as nat);
    }
}

proof fn lemma_labels_count(
    d: Seq<u8>,
    table_end: int,
    s: Seq<PefSectionHeader>,
    n: nat,
)
    ensures
        section_labels(d, table_end, s, n) matches Ok(names) ==> names.len() == n,
    decreases n,
{
    if n > 0 {
        lemma_labels_count(d, table_end, s, (n - 1) as nat);
    }
}

/// A container has as many section headers as its header says, and as many
/// names.
pub proof fn lemma_labels_len(d: Seq<u8>)
    ensures
        container(d) matches Ok(c) ==> c.sections.len() == c.header.section_count
            && c.section_names.len() == c.header.section_count,
{
    if let Ok(h) = file_header(d) {
        let count = h.section_count as nat;
        lemma_labels_count(d, section_table_end(count), section_table(d, count), count);
    }
}

/// Reads the section header table.
fn read_section_table(data: &[u8], count: u16) -> (r: Vec<PefSectionHeader>)
    requires
        section_table_end(count as nat) <= data@.len(),
    ensures
        r@ == section_table(data@, count as nat),
{
    let ghost table = section_table(data@, count as nat);
    let mut sections: Vec<PefSectionHeader> = Vec::new();
    let mut i: usize = 0;
    while i < count as usize
        invariant
            i <= count,
            section_table_end(count as nat) <= data@.len(),
            table == section_table(data@, count as nat),
            sections@ == table.take(i as int),
        decreases count - i,
    {
        let off: usize = 40 + 28 * i;
        let entry = vstd::slice::slice_subrange(data, off, off + PEF_SECTION_HEADER_SIZE);
        if let Ok(sh) = PefSectionHeader::parse(entry) {
            proof {
                lemma_section_header(data@, off as int);
            }
            sections.push(sh);
            assert(table.take(i + 1) =~= table.take(i as int).push(sh));
        }
        i = i + 1;
    }
    assert(sections@ =~= table);
    sections
}

/// A section header is the header of its own 28 bytes.
proof fn lemma_section_header(d: Seq<u8>, off: int)
    requires
        0 <= off,
        off + 28 <= d.len(),
    ensures
        section_header_at(d.subrange(off, off + 28), 0) == section_header_at(d, off),
{
}

/// Reads the section names.
fn read_section_labels(data: &[u8], end: usize, sections: &Vec<PefSectionHeader>) -> (r: Result<
    Vec<Option<String>>,
    PefError,
>)
    requires
        end <= 0x1000_0000,
    ensures
        match r {
            Ok(names) => section_labels(data@, end as int, sections@, sections@.len()) == Ok::<
                _,
                PefError,
            >(name_views(names@)),
            Err(e) => section_labels(data@, end as int, sections@, sections@.len()) == Err::<
                Seq<Option<Seq<char>>>,
                _,
            >(e),
        },
{
    let mut names: Vec<Option<String>> = Vec::new();
    let mut i: usize = 0;
    assert(name_views(names@) =~= Seq::<Option<Seq<char>>>::empty());
    while i < sections.len()
        invariant
            i <= sections@.len(),
            end <= 0x1000_0000,
            section_labels(data@, end as int, sections@, i as nat) == Ok::<_, PefError>(
                name_views(names@),
            ),
        decreases sections@.len() - i,
    {
        let raw: i32 = sections[i].name_offset;
        let name: Option<String> = if raw == -1 {
            None
        } else {
            let off: u64 = if raw >= 0 {
                raw as u64
            } else {
                (raw as i64 + 0x1_0000_0000) as u64
            };
            assert(off == (raw as int) % 0x1_0000_0000);
            match read_c_string(data, end as u64 + off) {
                Ok(s) => Some(s),
                Err(e) => {
                    proof {
                        lemma_labels_stop(
                            data@,
                            end as int,
                            sections@,
                            (i + 1) as nat,
                            sections@.len(),
                        );
                    }
                    return Err(e);
                },
            }
        };
        let ghost before = name_views(names@);
        names.push(name);
        assert(name_views(names@) =~= before.push(crate::obj::text_view(name)));
        i = i + 1;
    }
    Ok(names)
}

impl PefContainer {
    /// Reads file header, section headers and section names.
    pub fn parse(data: &[u8]) -> (r: Result<Self, PefError>)
        ensures
            container_view(r) == container(data@),
    {
        let header = match PefFileHeader::parse(data) {
            Ok(h) => h,
            Err(e) => return Err(e),
        };
        let end: usize = 40 + 28 * header.section_count as usize;
        if data.len() < end {
            return Err(PefError::SectionTablePastEnd);
        }
        let sections = read_section_table(data, header.section_count);
        match read_section_labels(data, end, &sections) {
            Ok(section_names) => Ok(PefContainer { header, sections, section_names }),
            Err(e) => Err(e),
        }
    }
}

} // verus!
