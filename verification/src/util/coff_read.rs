//! Reading a COFF or PE file as an object.
use vstd::prelude::*;

use object::read::coff::ImageSymbol;
use object::{
    Architecture, Object, ObjectKind, ObjectSection, ObjectSymbol, SectionKind, SymbolKind,
};

use crate::addr_map::AddrMap;
use crate::bytes::{low32, low_word};
use crate::demangle::{demangle_name, demangled};
use crate::obj::{
    ObjArchitecture, ObjInfo, ObjKind, ObjReloc, ObjSection, ObjSectionKind, ObjSplit, ObjSymbol,
    ObjSymbolFlagSet, ObjSymbolKind, ObjView, SectionIndex, SectionView, SymbolView, blank_symbol,
    no_flags, plain_object, section_views, symbol_views, text_view,
};
use crate::text::same_text;

verus! {

/// `object::read::Error`.
#[verifier::external_type_specification]
#[verifier::external_body]
pub struct ExReadError(object::read::Error);

/// The instruction sets that are told apart.
#[derive(Clone, Copy, Debug, PartialEq, Eq, Structural)]
pub enum FileArchitecture {
    I386,
    PowerPc,
    Other,
}

/// The kinds of file that are told apart.
#[derive(Clone, Copy, Debug, PartialEq, Eq, Structural)]
pub enum FileKind {
    Executable,
    Relocatable,
    Other,
}

/// What is known of a file as a whole.
#[derive(Clone, Copy, Debug, PartialEq, Eq, Structural)]
pub struct FileHeader {
    pub architecture: FileArchitecture,
    pub kind: FileKind,
    /// The address of the entry point, 0 for none.
    pub entry: u64,
    /// The address that the file is loaded at, 0 for a file that has none.
    pub base: u64,
}

/// The kinds of section that are told apart.
#[derive(Clone, Copy, Debug, PartialEq, Eq, Structural)]
pub enum FileSectionKind {
    Text,
    Data,
    OtherString,
    ReadOnlyData,
    UninitializedData,
    Other,
}

/// A section of a file.
pub struct FileSection {
    /// The name, if it can be read.
    pub name: Option<String>,
    pub address: u64,
    pub size: u64,
    pub align: u64,
    /// The number of the section in the file.
    pub index: usize,
    /// The file offset of its bytes, if it has any.
    pub offset: Option<u64>,
    /// Its bytes, if they can be read.
    pub data: Option<Vec<u8>>,
}

/// What a [`FileSection`] holds.
pub ghost struct FileSectionView {
    pub name: Option<Seq<char>>,
    pub address: u64,
    pub size: u64,
    pub align: u64,
    pub index: usize,
    pub offset: Option<u64>,
    pub data: Option<Seq<u8>>,
}

/// The bytes of an optional list.
pub open spec fn bytes_view(d: Option<Vec<u8>>) -> Option<Seq<u8>> {
    match d {
        Some(v) => Some(v@),
        None => None,
    }
}

impl View for FileSection {
    type V = FileSectionView;

    open spec fn view(&self) -> FileSectionView {
        FileSectionView {
            name: text_view(self.name),
            address: self.address,
            size: self.size,
            align: self.align,
            index: self.index,
            offset: self.offset,
            data: bytes_view(self.data),
        }
    }
}

/// The kinds of symbol that are told apart.
#[derive(Clone, Copy, Debug, PartialEq, Eq, Structural)]
pub enum FileSymbolKind {
    Text,
    Data,
    Label,
    Unknown,
    Other,
}

/// A symbol of a file.
pub struct FileSymbol {
    /// The name, if it can be read.
    pub name: Option<String>,
    pub size: u64,
    /// The number of the section that defines it.
    pub section: Option<usize>,
    pub global: bool,
    pub local: bool,
}

/// What a [`FileSymbol`] holds.
pub ghost struct FileSymbolView {
    pub name: Option<Seq<char>>,
    pub size: u64,
    pub section: Option<usize>,
    pub global: bool,
    pub local: bool,
}

impl View for FileSymbol {
    type V = FileSymbolView;

    open spec fn view(&self) -> FileSymbolView {
        FileSymbolView {
            name: text_view(self.name),
            size: self.size,
            section: self.section,
            global: self.global,
            local: self.local,
        }
    }
}

/// The views of a list of sections.
pub open spec fn file_section_views(s: Seq<FileSection>) -> Seq<FileSectionView> {
    s.map_values(|x: FileSection| x@)
}

/// The views of a list of symbols.
pub open spec fn file_symbol_views(s: Seq<FileSymbol>) -> Seq<FileSymbolView> {
    s.map_values(|x: FileSymbol| x@)
}

/// What an object file as a whole is, if the bytes are one.
pub uninterp spec fn file_header(d: Seq<u8>) -> Option<FileHeader>;

/// The sections of an object file, in order.
pub uninterp spec fn file_sections(d: Seq<u8>) -> Option<Seq<FileSectionView>>;

/// The kinds of the sections of an object file, in order.
pub uninterp spec fn file_section_kinds(d: Seq<u8>) -> Option<Seq<FileSectionKind>>;

/// The symbols of an object file, in order.
pub uninterp spec fn file_symbols(d: Seq<u8>) -> Option<Seq<FileSymbolView>>;

/// The kinds of the symbols of an object file, in order.
pub uninterp spec fn file_symbol_kinds(d: Seq<u8>) -> Option<Seq<FileSymbolKind>>;

/// How far behind the base of an object file its symbols stand, in order: none
/// for a symbol without an address.
pub uninterp spec fn file_symbol_offsets(d: Seq<u8>) -> Option<Seq<Option<u64>>>;

/// `object::File::parse`, then `architecture`, `kind`, `entry` and
/// `relative_address_base`: a function of the bytes alone.
#[verifier::external_body]
fn read_header(data: &[u8]) -> (r: Result<FileHeader, object::read::Error>)
    ensures
        file_header(data@) == (match r {
            Ok(h) => Some(h),
            Err(_) => None,
        }),
{
    let file = object::File::parse(data)?;
    let architecture = match file.architecture() {
        Architecture::I386 => FileArchitecture::I386,
        Architecture::PowerPc => FileArchitecture::PowerPc,
        _ => FileArchitecture::Other,
    };
    let kind = match file.kind() {
        ObjectKind::Executable => FileKind::Executable,
        ObjectKind::Relocatable => FileKind::Relocatable,
        _ => FileKind::Other,
    };
    let (entry, base) = (file.entry(), file.relative_address_base());
    Ok(FileHeader { architecture, kind, entry, base })
}

/// `object::File::parse`, then `sections`, each with its `name`, `address`,
/// `size`, `align`, `index`, the start of its `file_range` and its
/// `uncompressed_data`: a function of the bytes alone.
#[verifier::external_body]
fn read_sections(data: &[u8]) -> (r: Result<Vec<FileSection>, object::read::Error>)
    ensures
        file_sections(data@) == (match r {
            Ok(s) => Some(file_section_views(s@)),
            Err(_) => None,
        }),
{
    let file = object::File::parse(data)?;
    let convert = |s: object::Section<'_, '_>| FileSection {
        name: s.name().ok().map(String::from),
        address: s.address(),
        size: s.size(),
        align: s.align(),
        index: s.index().0,
        offset: s.file_range().map(|r| r.0),
        data: s.uncompressed_data().ok().map(|d| d.into_owned()),
    };
    Ok(file.sections().map(convert).collect())
}

/// `object::File::parse`, then `sections`, each with its `kind`: a function of
/// the bytes alone.
#[verifier::external_body]
fn read_section_kinds(data: &[u8]) -> (r: Result<Vec<FileSectionKind>, object::read::Error>)
    ensures
        file_section_kinds(data@) == (match r {
            Ok(s) => Some(s@),
            Err(_) => None,
        }),
{
    let file = object::File::parse(data)?;
    let convert = |s: object::Section<'_, '_>| match s.kind() {
        SectionKind::Text => FileSectionKind::Text,
        SectionKind::Data => FileSectionKind::Data,
        SectionKind::OtherString => FileSectionKind::OtherString,
        SectionKind::ReadOnlyData => FileSectionKind::ReadOnlyData,
        SectionKind::UninitializedData => FileSectionKind::UninitializedData,
        _ => FileSectionKind::Other,
    };
    Ok(file.sections().map(convert).collect())
}

/// `object::File::parse`, then `symbols`, each with its `name`, `size`,
/// `section_index`, `is_global` and `is_local`: a function of the bytes alone.
#[verifier::external_body]
fn read_symbols(data: &[u8]) -> (r: Result<Vec<FileSymbol>, object::read::Error>)
    ensures
        file_symbols(data@) == (match r {
            Ok(s) => Some(file_symbol_views(s@)),
            Err(_) => None,
        }),
{
    let file = object::File::parse(data)?;
    let convert = |s: object::Symbol<'_, '_>| FileSymbol {
        name: s.name().ok().map(String::from),
        size: s.size(),
        section: s.section_index().map(|i| i.0),
        global: s.is_global(),
        local: s.is_local(),
    };
    Ok(file.symbols().map(convert).collect())
}

/// `object::File::parse`, then `symbols`, each with its `kind`: a function of the
/// bytes alone.
#[verifier::external_body]
fn read_symbol_kinds(data: &[u8]) -> (r: Result<Vec<FileSymbolKind>, object::read::Error>)
    ensures
        file_symbol_kinds(data@) == (match r {
            Ok(s) => Some(s@),
            Err(_) => None,
        }),
{
    let file = object::File::parse(data)?;
    let convert = |s: object::Symbol<'_, '_>| match s.kind() {
        SymbolKind::Text => FileSymbolKind::Text,
        SymbolKind::Data => FileSymbolKind::Data,
        SymbolKind::Label => FileSymbolKind::Label,
        SymbolKind::Unknown => FileSymbolKind::Unknown,
        _ => FileSymbolKind::Other,
    };
    Ok(file.symbols().map(convert).collect())
}

/// `object::File::parse`, then `symbols`, each with its address counted from the
/// base of the file: a function of the bytes alone.
///
/// In an image, `object::read::coff::ImageSymbol::address` adds a base, the
/// address of a section and the value of the symbol, without looking out for an
/// overflow, and gives none for a symbol that has no address. With a base of 0
/// the sum of the other two, of 32 bits each, fits. A file of any other format
/// has the base 0, so that `address` itself is counted from it.
#[verifier::external_body]
fn read_symbol_offsets(data: &[u8]) -> (r: Result<Vec<Option<u64>>, object::read::Error>)
    ensures
        file_symbol_offsets(data@) == (match r {
            Ok(s) => Some(s@),
            Err(_) => None,
        }),
{
    let file = object::File::parse(data)?;
    Ok(match &file {
        object::File::Pe32(f) => f.symbols().map(
            |s| s.coff_symbol().address(0, &f.section_table()).unwrap_or(None),
        ).collect(),
        object::File::Pe64(f) => f.symbols().map(
            |s| s.coff_symbol().address(0, &f.section_table()).unwrap_or(None),
        ).collect(),
        _ => file.symbols().map(|s| Some(s.address())).collect(),
    })
}

/// Why a file is refused.
#[derive(Clone, Copy, Debug, PartialEq, Eq, Structural)]
pub enum CoffReadError {
    /// The bytes are no object file.
    ParseFailed,
    /// The instruction set is neither i386 nor PowerPC.
    UnsupportedArchitecture,
    /// The file is neither executable nor relocatable.
    UnexpectedKind,
    /// A section name cannot be read.
    SectionName,
    /// The bytes of a section cannot be read.
    SectionData,
    /// The address of a symbol does not fit in 64 bits.
    AddressOverflow,
}

/// All that is read from an object file.
pub struct ObjectFile {
    pub header: FileHeader,
    pub sections: Vec<FileSection>,
    pub section_kinds: Vec<FileSectionKind>,
    pub symbols: Vec<FileSymbol>,
    pub symbol_kinds: Vec<FileSymbolKind>,
    /// How far behind the base the symbols stand: none for one without an address.
    pub symbol_offsets: Vec<Option<u64>>,
}

/// What an [`ObjectFile`] holds.
pub ghost struct FileView {
    pub header: FileHeader,
    pub sections: Seq<FileSectionView>,
    pub section_kinds: Seq<FileSectionKind>,
    pub symbols: Seq<FileSymbolView>,
    pub symbol_kinds: Seq<FileSymbolKind>,
    pub symbol_offsets: Seq<Option<u64>>,
}

impl View for ObjectFile {
    type V = FileView;

    open spec fn view(&self) -> FileView {
        FileView {
            header: self.header,
            sections: file_section_views(self.sections@),
            section_kinds: self.section_kinds@,
            symbols: file_symbol_views(self.symbols@),
            symbol_kinds: self.symbol_kinds@,
            symbol_offsets: self.symbol_offsets@,
        }
    }
}

/// The kind of section `i` of the file as a section kind of objects.
pub open spec fn object_section_kind(f: FileView, i: int) -> Option<ObjSectionKind> {
    if i >= f.section_kinds.len() {
        None
    } else {
        match f.section_kinds[i] {
            FileSectionKind::Text => Some(ObjSectionKind::Code),
            FileSectionKind::Data | FileSectionKind::OtherString => Some(ObjSectionKind::Data),
            FileSectionKind::ReadOnlyData => Some(ObjSectionKind::ReadOnlyData),
            FileSectionKind::UninitializedData => Some(ObjSectionKind::Bss),
            FileSectionKind::Other => None,
        }
    }
}

/// Section `i` of the file as a section of the object: none for an empty one or
/// one of another kind.
pub open spec fn object_section(f: FileView, i: int) -> Result<
    Option<SectionView>,
    CoffReadError,
> {
    let s = f.sections[i];
    if s.size == 0 {
        Ok(None)
    } else {
        match (s.name, object_section_kind(f, i)) {
            (None, _) => Err(CoffReadError::SectionName),
            (_, None) => Ok(None),
            (Some(name), Some(kind)) => {
                let data = if kind == ObjSectionKind::Bss {
                    Some(Seq::empty())
                } else {
                    s.data
                };
                match data {
                    None => Err(CoffReadError::SectionData),
                    Some(data) => Ok(
                        Some(
                            SectionView {
                                name,
                                kind,
                                address: s.address,
                                size: s.size,
                                data,
                                align: if s.align < 1 {
                                    1
                                } else {
                                    s.align
                                },
                                elf_index: s.index,
                                relocations: Seq::empty(),
                                virtual_address: None,
                                file_offset: match s.offset {
                                    Some(o) => o,
                                    None => 0,
                                },
                                section_known: true,
                                splits: Seq::empty(),
                            },
                        ),
                    ),
                }
            },
        }
    }
}

/// The sections of the object.
pub ghost struct SectionList {
    pub sections: Seq<SectionView>,
    /// For each section number of the file the index in `sections`; number 0
    /// stands for no section.
    pub indexes: Seq<Option<SectionIndex>>,
}

/// The sections of the object after the first `n` sections of the file.
pub open spec fn object_sections(f: FileView, n: nat) -> Result<SectionList, CoffReadError>
    decreases n,
{
    if n == 0 {
        Ok(SectionList { sections: Seq::empty(), indexes: seq![None] })
    } else {
        match object_sections(f, (n - 1) as nat) {
            Err(e) => Err(e),
            Ok(below) => match object_section(f, n - 1) {
                Err(e) => Err(e),
                Ok(None) => Ok(SectionList { indexes: below.indexes.push(None), ..below }),
                Ok(Some(s)) => Ok(
                    SectionList {
                        sections: below.sections.push(s),
                        indexes: below.indexes.push(Some(below.sections.len() as usize)),
                    },
                ),
            },
        }
    }
}

/// Whether a symbol has a name that is not empty.
pub open spec fn is_named(s: FileSymbolView) -> bool {
    s.name matches Some(n) && n.len() > 0
}

/// The address of symbol `i` of the file: 0 for one without an address.
pub open spec fn symbol_address(f: FileView, i: int) -> int {
    if i < f.symbol_offsets.len() {
        match f.symbol_offsets[i] {
            Some(o) => f.header.base + o,
            None => 0,
        }
    } else {
        0
    }
}

/// The address of the last one of the first `n` symbols with the given name.
pub open spec fn last_named(f: FileView, name: Seq<char>, n: nat) -> Option<u32>
    decreases n,
{
    if n == 0 {
        None
    } else if f.symbols[n - 1].name == Some(name) {
        Some(low32(symbol_address(f, n - 1) as u64))
    } else {
        last_named(f, name, (n - 1) as nat)
    }
}

/// Whether a name is one whose address the object keeps.
pub open spec fn is_reserved(name: Seq<char>) -> bool {
    ||| name == "_SDA2_BASE_"@
    ||| name == "_SDA_BASE_"@
    ||| name == "_stack_addr"@
    ||| name == "_stack_end"@
    ||| name == "_db_stack_addr"@
    ||| name == "__ArenaLo"@
    ||| name == "__ArenaHi"@
}

/// The kind of symbol `i` of the file as a symbol kind of objects.
pub open spec fn object_symbol_kind(f: FileView, i: int) -> Option<ObjSymbolKind> {
    if i >= f.symbol_kinds.len() {
        None
    } else {
        match f.symbol_kinds[i] {
            FileSymbolKind::Text => Some(ObjSymbolKind::Function),
            FileSymbolKind::Data => Some(ObjSymbolKind::Object),
            FileSymbolKind::Label | FileSymbolKind::Unknown => Some(ObjSymbolKind::Unknown),
            FileSymbolKind::Other => None,
        }
    }
}

/// Whether symbol `i` of the file, whose address the object needs, has one of more
/// than 64 bits.
pub open spec fn address_overflows(f: FileView, i: int) -> bool {
    &&& symbol_address(f, i) > u64::MAX
    &&& f.symbols[i].name matches Some(n) && n.len() > 0 && (is_reserved(n)
        || object_symbol_kind(f, i) is Some)
}

/// Whether the address of a symbol that the object needs has more than 64 bits.
pub open spec fn addresses_overflow(f: FileView) -> bool {
    exists|i: int| 0 <= i < f.symbols.len() && #[trigger] address_overflows(f, i)
}

/// The section of the object for a section number of the file.
pub open spec fn object_index(
    indexes: Seq<Option<SectionIndex>>,
    number: Option<usize>,
) -> Option<SectionIndex> {
    match number {
        Some(i) if i < indexes.len() => indexes[i as int],
        _ => None,
    }
}

/// A symbol of the file as a symbol of the object, with its address and its
/// demangled name.
pub open spec fn object_symbol(
    s: FileSymbolView,
    address: u64,
    kind: ObjSymbolKind,
    indexes: Seq<Option<SectionIndex>>,
    demangled_name: Option<Seq<char>>,
) -> SymbolView {
    SymbolView {
        name: s.name->Some_0,
        demangled_name,
        address,
        section: object_index(indexes, s.section),
        size: s.size,
        size_known: s.size > 0,
        flags: ObjSymbolFlagSet { global: s.global, local: s.local, ..no_flags() },
        kind,
        ..blank_symbol()
    }
}

/// The symbols of the object after the first `n` symbols of the file.
pub open spec fn object_symbols(
    f: FileView,
    indexes: Seq<Option<SectionIndex>>,
    n: nat,
) -> Seq<SymbolView>
    decreases n,
{
    if n == 0 {
        Seq::empty()
    } else {
        let below = object_symbols(f, indexes, (n - 1) as nat);
        let s = f.symbols[n - 1];
        match object_symbol_kind(f, n - 1) {
            Some(kind) if is_named(s) => below.push(
                object_symbol(
                    s,
                    symbol_address(f, n - 1) as u64,
                    kind,
                    indexes,
                    demangled(s.name->Some_0),
                ),
            ),
            _ => below,
        }
    }
}

/// Why a file is refused on account of its header, if it is.
pub open spec fn header_error(h: FileHeader) -> Option<CoffReadError> {
    if h.architecture == FileArchitecture::Other {
        Some(CoffReadError::UnsupportedArchitecture)
    } else if h.kind == FileKind::Other {
        Some(CoffReadError::UnexpectedKind)
    } else {
        None
    }
}

/// The object of a file, or why the file is refused.
pub open spec fn file_object(f: FileView, name: Seq<char>) -> Result<ObjView, CoffReadError> {
    if let Some(e) = header_error(f.header) {
        Err(e)
    } else {
        match object_sections(f, f.sections.len()) {
            Err(e) => Err(e),
            Ok(_) if addresses_overflow(f) => Err(CoffReadError::AddressOverflow),
            Ok(list) => {
                let n = f.symbols.len();
                let plain = plain_object(
                    if f.header.kind == FileKind::Executable {
                        ObjKind::Executable
                    } else {
                        ObjKind::Relocatable
                    },
                    if f.header.architecture == FileArchitecture::I386 {
                        ObjArchitecture::X86
                    } else {
                        ObjArchitecture::PowerPc
                    },
                    name,
                    object_symbols(f, list.indexes, n),
                    list.sections,
                );
                Ok(
                    ObjView {
                        entry: if f.header.entry == 0 {
                            None
                        } else {
                            Some(f.header.entry)
                        },
                        sda2_base: last_named(f, "_SDA2_BASE_"@, n),
                        sda_base: last_named(f, "_SDA_BASE_"@, n),
                        stack_address: last_named(f, "_stack_addr"@, n),
                        stack_end: last_named(f, "_stack_end"@, n),
                        db_stack_addr: last_named(f, "_db_stack_addr"@, n),
                        arena_lo: last_named(f, "__ArenaLo"@, n),
                        arena_hi: last_named(f, "__ArenaHi"@, n),
                        ..plain
                    },
                )
            },
        }
    }
}

/// What the bytes of an object file with this header hold.
pub open spec fn parsed(d: Seq<u8>, header: FileHeader) -> Option<FileView> {
    match (
        file_sections(d),
        file_section_kinds(d),
        file_symbols(d),
        file_symbol_kinds(d),
        file_symbol_offsets(d),
    ) {
        (
            Some(sections),
            Some(section_kinds),
            Some(symbols),
            Some(symbol_kinds),
            Some(symbol_offsets),
        ) => Some(
            FileView { header, sections, section_kinds, symbols, symbol_kinds, symbol_offsets },
        ),
        _ => None,
    }
}

/// The object of a COFF or PE file, or why the bytes are refused. The header
/// comes first.
pub open spec fn coff_object(d: Seq<u8>, name: Seq<char>) -> Result<ObjView, CoffReadError> {
    match file_header(d) {
        None => Err(CoffReadError::ParseFailed),
        Some(header) => match header_error(header) {
            Some(e) => Err(e),
            None => match parsed(d, header) {
                Some(f) => file_object(f, name),
                None => Err(CoffReadError::ParseFailed),
            },
        },
    }
}

proof fn lemma_sections_stop(f: FileView, n: nat, all: nat)
    requires
        n <= all,
        object_sections(f, n) is Err,
    ensures
        object_sections(f, all) == object_sections(f, n),
    decreases all,
{
    if n < all {
        lemma_sections_stop(f, n, (all - 1) as nat);
    }
}

/// Makes a section of the object of section `i` of the file.
fn make_section(f: &ObjectFile, i: usize) -> (r: Result<Option<ObjSection>, CoffReadError>)
    requires
        i < f.sections@.len(),
    ensures
        match r {
            Err(e) => object_section(f@, i as int) == Err::<Option<SectionView>, _>(e),
            Ok(None) => object_section(f@, i as int) == Ok::<_, CoffReadError>(
                None::<SectionView>,
            ),
            Ok(Some(s)) => object_section(f@, i as int) == Ok::<_, CoffReadError>(Some(s@)),
        },
{
    let s = &f.sections[i];
    assert(f@.sections[i as int] == s@);
    if s.size == 0 {
        return Ok(None);
    }
    let name: String = match &s.name {
        Some(n) => n.clone(),
        None => return Err(CoffReadError::SectionName),
    };
    let kind = if i < f.section_kinds.len() {
        match f.section_kinds[i] {
            FileSectionKind::Text => ObjSectionKind::Code,
            FileSectionKind::Data | FileSectionKind::OtherString => ObjSectionKind::Data,
            FileSectionKind::ReadOnlyData => ObjSectionKind::ReadOnlyData,
            FileSectionKind::UninitializedData => ObjSectionKind::Bss,
            FileSectionKind::Other => return Ok(None),
        }
    } else {
        return Ok(None);
    };
    let data: Vec<u8> = if kind == ObjSectionKind::Bss {
        Vec::new()
    } else {
        match &s.data {
            Some(d) => {
                let v: Vec<u8> = vstd::slice::slice_to_vec(d.as_slice());
                assert(v@ =~= d@);
                v
            },
            None => return Err(CoffReadError::SectionData),
        }
    };
    let relocations: AddrMap<ObjReloc> = AddrMap::new();
    let splits: Vec<(u32, ObjSplit)> = Vec::new();
    let section = ObjSection {
        name,
        kind,
        address: s.address,
        size: s.size,
        data,
        align: if s.align < 1 {
            1
        } else {
            s.align
        },
        elf_index: s.index,
        relocations,
        virtual_address: None,
        file_offset: match s.offset {
            Some(o) => o,
            None => 0,
        },
        section_known: true,
        splits,
    };
    assert(section@.splits =~= Seq::<(u32, Seq<char>)>::empty());
    Ok(Some(section))
}

/// Makes the sections of the object.
fn make_sections(f: &ObjectFile) -> (r: Result<
    (Vec<ObjSection>, Vec<Option<SectionIndex>>),
    CoffReadError,
>)
    ensures
        match r {
            Err(e) => object_sections(f@, f@.sections.len()) == Err::<SectionList, _>(e),
            Ok((sections, indexes)) => object_sections(f@, f@.sections.len()) == Ok::<
                _,
                CoffReadError,
            >(SectionList { sections: section_views(sections@), indexes: indexes@ }),
        },
{
    let mut sections: Vec<ObjSection> = Vec::new();
    let mut indexes: Vec<Option<SectionIndex>> = Vec::new();
    indexes.push(None);
    assert(section_views(sections@) =~= Seq::<SectionView>::empty());
    assert(indexes@ =~= seq![None]);
    let mut i: usize = 0;
    while i < f.sections.len()
        invariant
            i <= f.sections@.len() == f@.sections.len(),
            object_sections(f@, i as nat) == Ok::<_, CoffReadError>(
                SectionList { sections: section_views(sections@), indexes: indexes@ },
            ),
        decreases f.sections@.len() - i,
    {
        match make_section(f, i) {
            Err(e) => {
                proof {
                    lemma_sections_stop(f@, (i + 1) as nat, f@.sections.len());
                }
                return Err(e);
            },
            Ok(None) => indexes.push(None),
            Ok(Some(s)) => {
                let ghost before = section_views(sections@);
                indexes.push(Some(sections.len()));
                sections.push(s);
                assert(section_views(sections@) =~= before.push(s@));
            },
        }
        i = i + 1;
    }
    Ok((sections, indexes))
}

/// The address of symbol `i`, if it fits in 64 bits.
fn find_address(f: &ObjectFile, i: usize) -> (r: Option<u64>)
    ensures
        match r {
            Some(a) => symbol_address(f@, i as int) == a,
            None => symbol_address(f@, i as int) > u64::MAX,
        },
{
    if i < f.symbol_offsets.len() {
        match f.symbol_offsets[i] {
            Some(o) => f.header.base.checked_add(o),
            None => Some(0),
        }
    } else {
        Some(0)
    }
}

/// Finds the address of the last symbol with the given name.
fn find_last_named(f: &ObjectFile, name: &str) -> (r: Option<u32>)
    requires
        is_reserved(name@),
        !addresses_overflow(f@),
    ensures
        r == last_named(f@, name@, f@.symbols.len()),
{
    let mut i: usize = f.symbols.len();
    while i > 0
        invariant
            i <= f.symbols@.len() == f@.symbols.len(),
            is_reserved(name@),
            !addresses_overflow(f@),
            last_named(f@, name@, i as nat) == last_named(f@, name@, f@.symbols.len()),
        decreases i,
    {
        let s = &f.symbols[i - 1];
        assert(f@.symbols[i - 1] == s@);
        if let Some(n) = &s.name {
            if same_text(n.as_str(), name) {
                proof {
                    lemma_reserved(name@);
                    assert(!address_overflows(f@, i - 1));
                }
                return match find_address(f, i - 1) {
                    Some(a) => Some(low_word(a)),
                    None => None,
                };
            }
        }
        i = i - 1;
    }
    None
}

/// A reserved name is not empty.
proof fn lemma_reserved(name: Seq<char>)
    requires
        is_reserved(name),
    ensures
        name.len() > 0,
{
    reveal_strlit("_SDA2_BASE_");
    reveal_strlit("_SDA_BASE_");
    reveal_strlit("_stack_addr");
    reveal_strlit("_stack_end");
    reveal_strlit("_db_stack_addr");
    reveal_strlit("__ArenaLo");
    reveal_strlit("__ArenaHi");
}

/// Tests whether a name is reserved.
fn test_reserved(name: &str) -> (r: bool)
    ensures
        r == is_reserved(name@),
{
    same_text(name, "_SDA2_BASE_") || same_text(name, "_SDA_BASE_") || same_text(
        name,
        "_stack_addr",
    ) || same_text(name, "_stack_end") || same_text(name, "_db_stack_addr") || same_text(
        name,
        "__ArenaLo",
    ) || same_text(name, "__ArenaHi")
}

/// Makes a symbol of the object of a symbol of the file that has a name.
pub fn make_symbol(
    s: &FileSymbol,
    address: u64,
    kind: ObjSymbolKind,
    indexes: &Vec<Option<SectionIndex>>,
    demangled_name: Option<String>,
) -> (r: ObjSymbol)
    requires
        s@.name is Some,
    ensures
        r@ == object_symbol(s@, address, kind, indexes@, text_view(demangled_name)),
{
    let name: String = match &s.name {
        Some(n) => n.clone(),
        None => String::new(),
    };
    let section: Option<SectionIndex> = match s.section {
        Some(i) => if i < indexes.len() {
            indexes[i]
        } else {
            None
        },
        None => None,
    };
    let mut flags = ObjSymbolFlagSet::none();
    flags.global = s.global;
    flags.local = s.local;
    ObjSymbol {
        name,
        demangled_name,
        address,
        section,
        size: s.size,
        size_known: s.size > 0,
        flags,
        kind,
        ..Default::default()
    }
}

/// The kind of symbol `i` of the file as a symbol kind of objects.
fn find_symbol_kind(f: &ObjectFile, i: usize) -> (r: Option<ObjSymbolKind>)
    ensures
        r == object_symbol_kind(f@, i as int),
{
    if i < f.symbol_kinds.len() {
        match f.symbol_kinds[i] {
            FileSymbolKind::Text => Some(ObjSymbolKind::Function),
            FileSymbolKind::Data => Some(ObjSymbolKind::Object),
            FileSymbolKind::Label | FileSymbolKind::Unknown => Some(ObjSymbolKind::Unknown),
            FileSymbolKind::Other => None,
        }
    } else {
        None
    }
}

/// Tests whether the address of a symbol that the object needs has more than 64
/// bits.
fn find_overflow(f: &ObjectFile) -> (r: bool)
    ensures
        r == addresses_overflow(f@),
{
    let mut i: usize = 0;
    while i < f.symbols.len()
        invariant
            i <= f.symbols@.len() == f@.symbols.len(),
            forall|k: int| 0 <= k < i ==> !#[trigger] address_overflows(f@, k),
        decreases f.symbols@.len() - i,
    {
        let s = &f.symbols[i];
        assert(f@.symbols[i as int] == s@);
        if let (None, Some(name)) = (find_address(f, i), &s.name) {
            if vstd::string::StrSliceExecFns::unicode_len(name.as_str()) > 0 && (test_reserved(
                name.as_str(),
            ) || find_symbol_kind(f, i).is_some()) {
                assert(address_overflows(f@, i as int));
                return true;
            }
        }
        i = i + 1;
    }
    false
}

/// Makes the symbols of the object.
fn make_symbols(f: &ObjectFile, indexes: &Vec<Option<SectionIndex>>) -> (r: Vec<ObjSymbol>)
    requires
        !addresses_overflow(f@),
    ensures
        symbol_views(r@) == object_symbols(f@, indexes@, f@.symbols.len()),
{
    let mut out: Vec<ObjSymbol> = Vec::new();
    let mut i: usize = 0;
    assert(symbol_views(out@) =~= Seq::<SymbolView>::empty());
    while i < f.symbols.len()
        invariant
            i <= f.symbols@.len() == f@.symbols.len(),
            !addresses_overflow(f@),
            symbol_views(out@) == object_symbols(f@, indexes@, i as nat),
        decreases f.symbols@.len() - i,
    {
        let s = &f.symbols[i];
        assert(f@.symbols[i as int] == s@);
        let ghost before = symbol_views(out@);
        assert(!address_overflows(f@, i as int));
        if let (Some(kind), Some(name), Some(address)) = (
            find_symbol_kind(f, i),
            &s.name,
            find_address(f, i),
        ) {
            if vstd::string::StrSliceExecFns::unicode_len(name.as_str()) > 0 {
                let sym = make_symbol(s, address, kind, indexes, demangle_name(name.as_str()));
                out.push(sym);
                assert(symbol_views(out@) =~= before.push(sym@));
            }
        }
        i = i + 1;
    }
    out
}

/// Tells why a file is refused on account of its header, if it is.
fn find_header_error(h: &FileHeader) -> (r: Option<CoffReadError>)
    ensures
        r == header_error(*h),
{
    if h.architecture == FileArchitecture::Other {
        Some(CoffReadError::UnsupportedArchitecture)
    } else if h.kind == FileKind::Other {
        Some(CoffReadError::UnexpectedKind)
    } else {
        None
    }
}

/// Makes the object of what was read from a file.
pub fn build_object(f: &ObjectFile, name: &str) -> (r: Result<ObjInfo, CoffReadError>)
    ensures
        match file_object(f@, name@) {
            Ok(v) => r matches Ok(obj) && obj@ == v,
            Err(e) => r == Err::<ObjInfo, _>(e),
        },
{
    let architecture = match f.header.architecture {
        FileArchitecture::I386 => ObjArchitecture::X86,
        FileArchitecture::PowerPc => ObjArchitecture::PowerPc,
        FileArchitecture::Other => return Err(CoffReadError::UnsupportedArchitecture),
    };
    let kind = match f.header.kind {
        FileKind::Executable => ObjKind::Executable,
        FileKind::Relocatable => ObjKind::Relocatable,
        FileKind::Other => return Err(CoffReadError::UnexpectedKind),
    };
    let (sections, indexes): (Vec<ObjSection>, Vec<Option<SectionIndex>>) = match make_sections(f) {
        Ok(s) => s,
        Err(e) => return Err(e),
    };
    if find_overflow(f) {
        return Err(CoffReadError::AddressOverflow);
    }
    let symbols: Vec<ObjSymbol> = make_symbols(f, &indexes);
    let mut obj = ObjInfo::new(kind, architecture, name.to_owned(), symbols, sections);
    obj.entry = if f.header.entry == 0 {
        None
    } else {
        Some(f.header.entry)
    };
    obj.sda2_base = find_last_named(f, "_SDA2_BASE_");
    obj.sda_base = find_last_named(f, "_SDA_BASE_");
    obj.stack_address = find_last_named(f, "_stack_addr");
    obj.stack_end = find_last_named(f, "_stack_end");
    obj.db_stack_addr = find_last_named(f, "_db_stack_addr");
    obj.arena_lo = find_last_named(f, "__ArenaLo");
    obj.arena_hi = find_last_named(f, "__ArenaHi");
    Ok(obj)
}

/// Reads a COFF or PE file as an object.
///
/// A file is refused where the address of a symbol that the object needs has more
/// than 64 bits.
pub fn process_coff(data: &[u8], name: &str) -> (r: Result<ObjInfo, CoffReadError>)
    ensures
        match coff_object(data@, name@) {
            Ok(v) => r matches Ok(obj) && obj@ == v,
            Err(e) => r == Err::<ObjInfo, _>(e),
        },
{
    let header = match read_header(data) {
        Ok(h) => h,
        Err(_) => return Err(CoffReadError::ParseFailed),
    };
    if let Some(e) = find_header_error(&header) {
        return Err(e);
    }
    let sections = match read_sections(data) {
        Ok(s) => s,
        Err(_) => return Err(CoffReadError::ParseFailed),
    };
    let section_kinds = match read_section_kinds(data) {
        Ok(k) => k,
        Err(_) => return Err(CoffReadError::ParseFailed),
    };
    let symbols = match read_symbols(data) {
        Ok(s) => s,
        Err(_) => return Err(CoffReadError::ParseFailed),
    };
    let symbol_kinds = match read_symbol_kinds(data) {
        Ok(k) => k,
        Err(_) => return Err(CoffReadError::ParseFailed),
    };
    let symbol_offsets = match read_symbol_offsets(data) {
        Ok(o) => o,
        Err(_) => return Err(CoffReadError::ParseFailed),
    };
    let f = ObjectFile {
        header,
        sections,
        section_kinds,
        symbols,
        symbol_kinds,
        symbol_offsets,
    };
    build_object(&f, name)
}

} // verus!
