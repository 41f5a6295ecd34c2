//! A PEF file as an object: its sections and the symbols of its loader section.
use vstd::arithmetic::power2::pow2;
use vstd::prelude::*;

use crate::addr_map::AddrMap;
use crate::bytes::power_of_two;
use crate::demangle::{demangle_name, demangled};
use crate::obj::{
    ObjArchitecture, ObjInfo, ObjKind, ObjReloc, ObjSection, ObjSectionKind, ObjSplit, ObjSymbol,
    ObjSymbolFlagSet, ObjSymbolKind, ObjSymbolScope, ObjView, SectionIndex, SectionView,
    SymbolView, blank_symbol, no_flags, plain_object, section_views, symbol_views, text_view,
};
use crate::text::{decimal, push_decimal};
use crate::util::pef::{
    ContainerView, PEF_CLASS_CODE, PEF_CLASS_DATA, PEF_CLASS_GLUE, PEF_CLASS_TOC, PEF_CLASS_TVECTOR,
    PEF_EXPORT_ABSOLUTE, PEF_WEAK_IMPORT, PefContainer, PefError, PefSectionHeader, PefSectionKind,
    container, kind_name, section_kind,
};
use crate::util::pef_loader::{
    ExportView, ImportView, LoaderView, PefExportedSymbol, PefImportedSymbol, PefLoaderInfoHeader,
    export_views, import_views, loader_section, parse_loader_section,
};

verus! {

/// The symbol kind of a symbol class.
pub open spec fn class_kind(class: u8) -> ObjSymbolKind {
    if class == PEF_CLASS_CODE || class == PEF_CLASS_GLUE {
        ObjSymbolKind::Function
    } else if class == PEF_CLASS_DATA || class == PEF_CLASS_TVECTOR || class == PEF_CLASS_TOC {
        ObjSymbolKind::Object
    } else {
        ObjSymbolKind::Unknown
    }
}

/// Maps a symbol class to the symbol kind.
pub fn pef_class_to_symbol_kind(class: u8) -> (r: ObjSymbolKind)
    ensures
        r == class_kind(class),
{
    if class == PEF_CLASS_CODE || class == PEF_CLASS_GLUE {
        ObjSymbolKind::Function
    } else if class == PEF_CLASS_DATA || class == PEF_CLASS_TVECTOR || class == PEF_CLASS_TOC {
        ObjSymbolKind::Object
    } else {
        ObjSymbolKind::Unknown
    }
}

/// The bytes of a section, where the file has them all.
pub open spec fn container_bytes(d: Seq<u8>, sh: PefSectionHeader) -> Option<Seq<u8>> {
    if sh.container_offset + sh.container_size <= d.len() {
        Some(
            d.subrange(
                sh.container_offset as int,
                sh.container_offset + sh.container_size,
            ),
        )
    } else {
        None
    }
}

/// Reads the bytes of a section.
pub fn read_container(data: &[u8], sh: &PefSectionHeader) -> (r: Result<Vec<u8>, PefError>)
    ensures
        match container_bytes(data@, *sh) {
            Some(b) => r matches Ok(v) && v@ == b,
            None => r == Err::<Vec<u8>, _>(PefError::ContainerPastEnd),
        },
{
    let end: u64 = sh.container_offset as u64 + sh.container_size as u64;
    if end > data.len() as u64 {
        return Err(PefError::ContainerPastEnd);
    }
    let bytes = vstd::slice::slice_subrange(data, sh.container_offset as usize, end as usize);
    let v: Vec<u8> = vstd::slice::slice_to_vec(bytes);
    assert(v@ =~= bytes@);
    Ok(v)
}

/// `b`, filled up with zero bytes to the length `n`.
pub open spec fn filled(b: Seq<u8>, n: nat) -> Seq<u8> {
    crate::util::xcoff::pad_to(b, n)
}

/// What becomes of a section.
pub ghost enum SectionUse {
    /// It is left out.
    Skip,
    /// It is the loader section, with these bytes.
    Loader(Seq<u8>),
    /// It becomes a section of the object, with these bytes.
    Section(ObjSectionKind, Seq<u8>),
    /// It is refused.
    Refuse(PefError),
}

/// A section with the bytes of its container.
pub open spec fn contained(d: Seq<u8>, sh: PefSectionHeader, kind: ObjSectionKind) -> SectionUse {
    match container_bytes(d, sh) {
        Some(b) => SectionUse::Section(kind, b),
        None => SectionUse::Refuse(PefError::ContainerPastEnd),
    }
}

/// What becomes of the section with the header `sh`.
pub open spec fn section_use(d: Seq<u8>, sh: PefSectionHeader) -> SectionUse {
    match section_kind(sh.section_kind) {
        None => SectionUse::Skip,
        Some(PefSectionKind::Loader) => match container_bytes(d, sh) {
            Some(b) => SectionUse::Loader(b),
            None => SectionUse::Refuse(PefError::LoaderPastEnd),
        },
        Some(PefSectionKind::Code) => contained(d, sh, ObjSectionKind::Code),
        Some(PefSectionKind::ConstantData) => contained(d, sh, ObjSectionKind::ReadOnlyData),
        Some(PefSectionKind::UnpackedData) => match container_bytes(d, sh) {
            Some(b) => SectionUse::Section(ObjSectionKind::Data, filled(b, sh.total_size as nat)),
            None => SectionUse::Refuse(PefError::ContainerPastEnd),
        },
        Some(PefSectionKind::ExecutableData) => contained(d, sh, ObjSectionKind::Data),
        Some(PefSectionKind::PatternInitData) => SectionUse::Section(
            ObjSectionKind::Data,
            filled(Seq::empty(), sh.unpacked_size as nat),
        ),
        Some(PefSectionKind::Debug) | Some(PefSectionKind::Exception) | Some(
            PefSectionKind::Traceback,
        ) => SectionUse::Skip,
    }
}

/// The name of section `i`: its own, or one made of its kind and number.
pub open spec fn object_section_name(c: ContainerView, i: int) -> Seq<char> {
    match c.section_names[i] {
        Some(n) => n,
        None => "."@ + kind_name(section_kind(c.sections[i].section_kind)->Some_0) + decimal(
            i as nat,
        ),
    }
}

/// The alignment that a section header states as an exponent, where it is
/// below 64.
pub open spec fn section_align(sh: PefSectionHeader) -> u64 {
    pow2(sh.alignment as nat) as u64
}

/// Section `i` of the file as a section of the object.
pub open spec fn object_section(
    c: ContainerView,
    i: int,
    kind: ObjSectionKind,
    data: Seq<u8>,
) -> SectionView {
    let sh = c.sections[i];
    SectionView {
        name: object_section_name(c, i),
        kind,
        address: sh.default_address as u64,
        size: sh.total_size as u64,
        data,
        align: section_align(sh),
        elf_index: i as usize,
        relocations: Seq::empty(),
        virtual_address: None,
        file_offset: sh.container_offset as u64,
        section_known: true,
        splits: Seq::empty(),
    }
}

/// The sections of the object.
pub ghost struct SectionsView {
    pub sections: Seq<SectionView>,
    /// For each section of the file its index in `sections`.
    pub indexes: Seq<Option<SectionIndex>>,
    pub loader: Option<Seq<u8>>,
}

/// The sections of the object after the first `n` sections of the file.
pub open spec fn object_sections(d: Seq<u8>, c: ContainerView, n: nat) -> Result<
    SectionsView,
    PefError,
>
    decreases n,
{
    if n == 0 {
        Ok(SectionsView { sections: Seq::empty(), indexes: Seq::empty(), loader: None })
    } else {
        match object_sections(d, c, (n - 1) as nat) {
            Err(e) => Err(e),
            Ok(below) => match section_use(d, c.sections[n - 1]) {
                SectionUse::Refuse(e) => Err(e),
                SectionUse::Skip => Ok(
                    SectionsView { indexes: below.indexes.push(None), ..below },
                ),
                SectionUse::Loader(b) => Ok(
                    SectionsView { indexes: below.indexes.push(None), loader: Some(b), ..below },
                ),
                SectionUse::Section(kind, data) => if c.sections[n - 1].alignment >= 64 {
                    Err(PefError::AlignmentOverflow)
                } else {
                    Ok(
                        SectionsView {
                            sections: below.sections.push(object_section(c, n - 1, kind, data)),
                            indexes: below.indexes.push(Some(below.sections.len() as usize)),
                            ..below
                        },
                    )
                },
            },
        }
    }
}

/// The flags of an imported symbol.
pub open spec fn import_flags(flags: u8) -> ObjSymbolFlagSet {
    let global = ObjSymbolFlagSet { global: true, ..no_flags() };
    if flags >= PEF_WEAK_IMPORT {
        global.with_scope(ObjSymbolScope::Weak)
    } else {
        global
    }
}

/// The flags of an exported symbol.
pub open spec fn export_flags() -> ObjSymbolFlagSet {
    ObjSymbolFlagSet { global: true, exported: true, ..no_flags() }
}

/// The symbol of an import, with its demangled name.
pub open spec fn imported(imp: ImportView, demangled_name: Option<Seq<char>>) -> SymbolView {
    SymbolView {
        name: imp.name,
        demangled_name,
        flags: import_flags(imp.flags),
        kind: class_kind(imp.symbol_class),
        ..blank_symbol()
    }
}

/// The section of the object that stands for section `i` of the file.
pub open spec fn object_index(indexes: Seq<Option<SectionIndex>>, i: int) -> Option<SectionIndex> {
    if 0 <= i < indexes.len() {
        indexes[i]
    } else {
        None
    }
}

/// The symbol of an export, with its demangled name, unless the export has no
/// place in the object.
pub open spec fn exported(
    sections: Seq<SectionView>,
    indexes: Seq<Option<SectionIndex>>,
    exp: ExportView,
    demangled_name: Option<Seq<char>>,
) -> Option<SymbolView> {
    let symbol = SymbolView {
        name: exp.name,
        demangled_name,
        flags: export_flags(),
        kind: class_kind(exp.symbol_class),
        ..blank_symbol()
    };
    if exp.section_index == PEF_EXPORT_ABSOLUTE {
        Some(SymbolView { address: exp.value as u64, ..symbol })
    } else {
        match object_index(indexes, exp.section_index as int) {
            Some(i) => Some(
                SymbolView {
                    address: (sections[i as int].address + exp.value) as u64,
                    section: Some(i),
                    ..symbol
                },
            ),
            None => None,
        }
    }
}

/// The symbols of the first `n` imports.
pub open spec fn imported_symbols(s: Seq<ImportView>, n: nat) -> Seq<SymbolView>
    decreases n,
{
    if n == 0 {
        Seq::empty()
    } else {
        imported_symbols(s, (n - 1) as nat).push(imported(s[n - 1], demangled(s[n - 1].name)))
    }
}

/// The symbols of the first `n` exports.
pub open spec fn exported_symbols(secs: SectionsView, s: Seq<ExportView>, n: nat) -> Seq<
    SymbolView,
>
    decreases n,
{
    if n == 0 {
        Seq::empty()
    } else {
        let below = exported_symbols(secs, s, (n - 1) as nat);
        match exported(secs.sections, secs.indexes, s[n - 1], demangled(s[n - 1].name)) {
            Some(sym) => below.push(sym),
            None => below,
        }
    }
}

/// The symbol of an entry point, where it has one: a function.
pub open spec fn entry_symbol(
    s: SectionsView,
    name: Seq<char>,
    section: i32,
    offset: u32,
) -> Option<SymbolView> {
    match object_index(s.indexes, section as int) {
        Some(i) => Some(
            SymbolView {
                name,
                address: (s.sections[i as int].address + offset) as u64,
                section: Some(i),
                flags: export_flags(),
                kind: ObjSymbolKind::Function,
                ..blank_symbol()
            },
        ),
        None => None,
    }
}

/// `s` with the symbol, if there is one.
pub open spec fn push_some(s: Seq<SymbolView>, sym: Option<SymbolView>) -> Seq<SymbolView> {
    match sym {
        Some(x) => s.push(x),
        None => s,
    }
}

/// All symbols of the object: imports, exports, entry points.
pub open spec fn pef_symbols(s: SectionsView, l: LoaderView) -> Seq<SymbolView> {
    let named = imported_symbols(l.imports, l.imports.len()) + exported_symbols(
        s,
        l.exports,
        l.exports.len(),
    );
    let main = entry_symbol(s, "_pef_main"@, l.info.main_section, l.info.main_offset);
    let init = entry_symbol(s, "_pef_init"@, l.info.init_section, l.info.init_offset);
    let term = entry_symbol(s, "_pef_term"@, l.info.term_section, l.info.term_offset);
    push_some(push_some(push_some(named, main), init), term)
}

/// The object of a PEF file, or why the file is refused.
pub open spec fn pef_object(d: Seq<u8>, name: Seq<char>) -> Result<ObjView, PefError> {
    match container(d) {
        Err(e) => Err(e),
        Ok(c) => match object_sections(d, c, c.sections.len()) {
            Err(e) => Err(e),
            Ok(s) => match s.loader {
                None => Err(PefError::NoLoader),
                Some(b) => match loader_section(b) {
                    Err(e) => Err(e),
                    Ok(l) => {
                        let plain = plain_object(
                            ObjKind::Executable,
                            ObjArchitecture::PowerPc,
                            name,
                            pef_symbols(s, l),
                            s.sections,
                        );
                        let main = entry_symbol(
                            s,
                            "_pef_main"@,
                            l.info.main_section,
                            l.info.main_offset,
                        );
                        Ok(
                            ObjView {
                                entry: match main {
                                    Some(m) => Some(m.address),
                                    None => None,
                                },
                                ..plain
                            },
                        )
                    },
                },
            },
        },
    }
}

/// A section that is refused ends the reading of sections.
proof fn lemma_sections_stop(d: Seq<u8>, c: ContainerView, n: nat, all: nat)
    requires
        n <= all,
        object_sections(d, c, n) is Err,
    ensures
        object_sections(d, c, all) == object_sections(d, c, n),
    decreases all,
{
    if n < all {
        lemma_sections_stop(d, c, n, (all - 1) as nat);
    }
}

/// Whether every section of the file that stands in the object has its section
/// there.
pub open spec fn indexes_ok(
    sections: Seq<SectionView>,
    indexes: Seq<Option<SectionIndex>>,
) -> bool {
    forall|i: int|
        0 <= i < indexes.len() ==> (#[trigger] indexes[i] matches Some(k) ==> k < sections.len()
            && sections[k as int].address <= u32::MAX)
}

/// The sections of the object are found through their numbers in the file.
pub proof fn lemma_indexes_ok(d: Seq<u8>, c: ContainerView, n: nat)
    requires
        n <= usize::MAX,
    ensures
        object_sections(d, c, n) matches Ok(s) ==> indexes_ok(s.sections, s.indexes)
            && s.indexes.len() == n
            && s.sections.len() <= n,
    decreases n,
{
    if n > 0 {
        lemma_indexes_ok(d, c, (n - 1) as nat);
    }
}

/// Fills `data` up with zero bytes to the length `n`.
fn fill_up(data: &mut Vec<u8>, n: u32)
    ensures
        final(data)@ == filled(old(data)@, n as nat),
{
    crate::util::xcoff::pad_out(data, n);
}

/// The name of section `i` of the object.
fn section_name_for(names: &Vec<Option<String>>, i: usize, kind: PefSectionKind) -> (r: String)
    requires
        i < names@.len(),
    ensures
        r@ == (match names@[i as int] {
            Some(n) => n@,
            None => "."@ + kind_name(kind) + decimal(i as nat),
        }),
{
    match &names[i] {
        Some(n) => n.clone(),
        None => {
            let mut s: String = String::new();
            s.push_str(".");
            s.push_str(kind.short_name());
            push_decimal(&mut s, i as u64);
            assert(s@ =~= "."@ + kind_name(kind) + decimal(i as nat));
            s
        },
    }
}

/// The sections read so far.
struct Sections {
    sections: Vec<ObjSection>,
    indexes: Vec<Option<usize>>,
    loader: Option<Vec<u8>>,
}

/// What [`Sections`] holds.
spec fn sections_view(s: Sections) -> SectionsView {
    SectionsView {
        sections: section_views(s.sections@),
        indexes: s.indexes@,
        loader: match s.loader {
            Some(b) => Some(b@),
            None => None,
        },
    }
}

/// Appends section `i` of the file to the sections of the object.
fn add_section(
    c: &PefContainer,
    i: usize,
    pef_kind: PefSectionKind,
    kind: ObjSectionKind,
    data: Vec<u8>,
    s: &mut Sections,
)
    requires
        i < c.sections@.len(),
        c.section_names@.len() == c.sections@.len(),
        section_kind(c.sections@[i as int].section_kind) == Some(pef_kind),
        c.sections@[i as int].alignment < 64,
    ensures
        ({
            let below = sections_view(*old(s));
            sections_view(*final(s)) == (SectionsView {
                sections: below.sections.push(object_section(c@, i as int, kind, data@)),
                indexes: below.indexes.push(Some(below.sections.len() as usize)),
                ..below
            })
        }),
{
    let ghost below = sections_view(*s);
    let sh = c.sections[i];
    let name: String = section_name_for(&c.section_names, i, pef_kind);
    let relocations: AddrMap<ObjReloc> = AddrMap::new();
    let splits: Vec<(u32, ObjSplit)> = Vec::new();
    let index: usize = s.sections.len();
    let section = ObjSection {
        name,
        kind,
        address: sh.default_address as u64,
        size: sh.total_size as u64,
        data,
        align: power_of_two(sh.alignment as u64),
        elf_index: i,
        relocations,
        virtual_address: None,
        file_offset: sh.container_offset as u64,
        section_known: true,
        splits,
    };
    assert(section@.splits =~= Seq::<(u32, Seq<char>)>::empty());
    assert(section@ == object_section(c@, i as int, kind, data@));
    s.sections.push(section);
    s.indexes.push(Some(index));
    assert(section_views(s.sections@) =~= below.sections.push(section@));
}

/// Reads section `i` of the file.
fn read_section(data: &[u8], c: &PefContainer, i: usize, s: &mut Sections) -> (r: Result<
    (),
    PefError,
>)
    requires
        i < c.sections@.len(),
        c.section_names@.len() == c.sections@.len(),
        object_sections(data@, c@, i as nat) == Ok::<_, PefError>(sections_view(*old(s))),
    ensures
        match r {
            Ok(_) => object_sections(data@, c@, (i + 1) as nat) == Ok::<_, PefError>(
                sections_view(*final(s)),
            ),
            Err(e) => object_sections(data@, c@, (i + 1) as nat) == Err::<SectionsView, _>(e),
        },
{
    let sh = c.sections[i];
    let kind = match sh.kind() {
        Some(k) => k,
        None => {
            s.indexes.push(None);
            return Ok(());
        },
    };
    let (obj_kind, bytes): (ObjSectionKind, Vec<u8>) = match kind {
        PefSectionKind::Loader => {
            match read_container(data, &sh) {
                Ok(b) => {
                    s.indexes.push(None);
                    s.loader = Some(b);
                    return Ok(());
                },
                Err(_) => return Err(PefError::LoaderPastEnd),
            }
        },
        PefSectionKind::Debug | PefSectionKind::Exception | PefSectionKind::Traceback => {
            s.indexes.push(None);
            return Ok(());
        },
        PefSectionKind::PatternInitData => {
            let mut b: Vec<u8> = Vec::new();
            fill_up(&mut b, sh.unpacked_size);
            (ObjSectionKind::Data, b)
        },
        PefSectionKind::UnpackedData => {
            match read_container(data, &sh) {
                Ok(mut b) => {
                    fill_up(&mut b, sh.total_size);
                    (ObjSectionKind::Data, b)
                },
                Err(e) => return Err(e),
            }
        },
        PefSectionKind::Code => {
            match read_container(data, &sh) {
                Ok(b) => (ObjSectionKind::Code, b),
                Err(e) => return Err(e),
            }
        },
        PefSectionKind::ConstantData => {
            match read_container(data, &sh) {
                Ok(b) => (ObjSectionKind::ReadOnlyData, b),
                Err(e) => return Err(e),
            }
        },
        PefSectionKind::ExecutableData => {
            match read_container(data, &sh) {
                Ok(b) => (ObjSectionKind::Data, b),
                Err(e) => return Err(e),
            }
        },
    };
    if sh.alignment >= 64 {
        return Err(PefError::AlignmentOverflow);
    }
    add_section(c, i, kind, obj_kind, bytes, s);
    Ok(())
}

/// The symbol of an import, with its demangled name.
pub fn import_symbol(imp: &PefImportedSymbol, demangled_name: Option<String>) -> (r: ObjSymbol)
    ensures
        r@ == imported(imp@, text_view(demangled_name)),
{
    let mut flags = ObjSymbolFlagSet::none();
    flags.global = true;
    if imp.flags >= PEF_WEAK_IMPORT {
        flags.set_scope(ObjSymbolScope::Weak);
    }
    ObjSymbol {
        name: imp.name.clone(),
        demangled_name,
        flags,
        kind: pef_class_to_symbol_kind(imp.symbol_class),
        ..Default::default()
    }
}

/// The symbol at an offset into a section, or at an absolute address.
fn placed_symbol(
    name: String,
    demangled_name: Option<String>,
    address: u64,
    section: Option<usize>,
    kind: ObjSymbolKind,
) -> (r: ObjSymbol)
    ensures
        r@ == (SymbolView {
            name: name@,
            demangled_name: text_view(demangled_name),
            address,
            section,
            flags: export_flags(),
            kind,
            ..blank_symbol()
        }),
{
    let mut flags = ObjSymbolFlagSet::none();
    flags.global = true;
    flags.exported = true;
    ObjSymbol { name, demangled_name, address, section, flags, kind, ..Default::default() }
}

/// The section of the object that stands for section `i` of the file.
fn find_section(indexes: &Vec<Option<usize>>, i: i32) -> (r: Option<usize>)
    ensures
        r == object_index(indexes@, i as int),
{
    if i >= 0 && (i as u64) < indexes.len() as u64 {
        indexes[i as usize]
    } else {
        None
    }
}

/// The symbol of an export, with its demangled name, unless the export has no
/// place in the object.
pub fn export_symbol(
    sections: &Vec<ObjSection>,
    indexes: &Vec<Option<SectionIndex>>,
    exp: &PefExportedSymbol,
    demangled_name: Option<String>,
) -> (r: Option<ObjSymbol>)
    requires
        indexes_ok(section_views(sections@), indexes@),
    ensures
        match r {
            Some(sym) => exported(
                section_views(sections@),
                indexes@,
                exp@,
                text_view(demangled_name),
            ) == Some(sym@),
            None => exported(
                section_views(sections@),
                indexes@,
                exp@,
                text_view(demangled_name),
            ) is None,
        },
{
    let kind = pef_class_to_symbol_kind(exp.symbol_class);
    if exp.section_index == PEF_EXPORT_ABSOLUTE {
        return Some(
            placed_symbol(exp.name.clone(), demangled_name, exp.value as u64, None, kind),
        );
    }
    match find_section(indexes, exp.section_index as i32) {
        Some(i) => {
            assert(indexes@[exp.section_index as int] == Some(i));
            assert(section_views(sections@)[i as int] == sections@[i as int]@);
            let address: u64 = sections[i].address + exp.value as u64;
            Some(placed_symbol(exp.name.clone(), demangled_name, address, Some(i), kind))
        },
        None => None,
    }
}

/// The symbol of an entry point, where it has one: a function.
fn make_entry(s: &Sections, name: &str, section: i32, offset: u32) -> (r: Option<ObjSymbol>)
    requires
        indexes_ok(sections_view(*s).sections, s.indexes@),
    ensures
        match r {
            Some(sym) => entry_symbol(sections_view(*s), name@, section, offset) == Some(sym@),
            None => entry_symbol(sections_view(*s), name@, section, offset) is None,
        },
{
    let ghost sv = sections_view(*s);
    match find_section(&s.indexes, section) {
        Some(i) => {
            assert(sv.indexes[section as int] == Some(i));
            assert(sv.sections[i as int] == s.sections@[i as int]@);
            let address: u64 = s.sections[i].address + offset as u64;
            Some(
                placed_symbol(name.to_owned(), None, address, Some(i), ObjSymbolKind::Function),
            )
        },
        None => None,
    }
}

/// Appends the symbols of the imports.
fn add_imports(imps: &Vec<PefImportedSymbol>, out: &mut Vec<ObjSymbol>)
    ensures
        symbol_views(final(out)@) == symbol_views(old(out)@) + imported_symbols(
            import_views(imps@),
            imps@.len(),
        ),
{
    let ghost views = import_views(imps@);
    let ghost first = symbol_views(out@);
    let mut i: usize = 0;
    assert(symbol_views(out@) =~= first + imported_symbols(views, 0));
    while i < imps.len()
        invariant
            i <= imps@.len(),
            views == import_views(imps@),
            symbol_views(out@) == first + imported_symbols(views, i as nat),
        decreases imps@.len() - i,
    {
        assert(views[i as int] == imps@[i as int]@);
        let ghost before = symbol_views(out@);
        let s = import_symbol(&imps[i], demangle_name(imps[i].name.as_str()));
        out.push(s);
        assert(symbol_views(out@) =~= before.push(s@));
        assert(symbol_views(out@) =~= first + imported_symbols(views, (i + 1) as nat));
        i = i + 1;
    }
}

/// Appends the symbols of the exports.
fn add_exports(secs: &Sections, exps: &Vec<PefExportedSymbol>, out: &mut Vec<ObjSymbol>)
    requires
        indexes_ok(sections_view(*secs).sections, secs.indexes@),
    ensures
        symbol_views(final(out)@) == symbol_views(old(out)@) + exported_symbols(
            sections_view(*secs),
            export_views(exps@),
            exps@.len(),
        ),
{
    let ghost views = export_views(exps@);
    let ghost first = symbol_views(out@);
    let ghost sv = sections_view(*secs);
    let mut i: usize = 0;
    assert(symbol_views(out@) =~= first + exported_symbols(sv, views, 0));
    while i < exps.len()
        invariant
            i <= exps@.len(),
            views == export_views(exps@),
            sv == sections_view(*secs),
            indexes_ok(sv.sections, sv.indexes),
            symbol_views(out@) == first + exported_symbols(sv, views, i as nat),
        decreases exps@.len() - i,
    {
        assert(views[i as int] == exps@[i as int]@);
        let ghost before = symbol_views(out@);
        if let Some(s) = export_symbol(
            &secs.sections,
            &secs.indexes,
            &exps[i],
            demangle_name(exps[i].name.as_str()),
        ) {
            out.push(s);
            assert(symbol_views(out@) =~= before.push(s@));
        }
        assert(symbol_views(out@) =~= first + exported_symbols(sv, views, (i + 1) as nat));
        i = i + 1;
    }
}

/// Appends the symbol, if there is one.
fn add_some(symbol: Option<ObjSymbol>, out: &mut Vec<ObjSymbol>)
    ensures
        symbol_views(final(out)@) == push_some(
            symbol_views(old(out)@),
            match symbol {
                Some(s) => Some(s@),
                None => None,
            },
        ),
{
    let ghost before = symbol_views(out@);
    if let Some(s) = symbol {
        out.push(s);
        assert(symbol_views(out@) =~= before.push(s@));
    }
}

/// Reads the sections of the object.
fn read_sections(data: &[u8], c: &PefContainer) -> (r: Result<Sections, PefError>)
    requires
        c.section_names@.len() == c.sections@.len(),
    ensures
        match r {
            Ok(s) => object_sections(data@, c@, c@.sections.len()) == Ok::<_, PefError>(
                sections_view(s),
            ) && indexes_ok(sections_view(s).sections, s.indexes@),
            Err(e) => object_sections(data@, c@, c@.sections.len()) == Err::<SectionsView, _>(e),
        },
{
    let mut s = Sections { sections: Vec::new(), indexes: Vec::new(), loader: None };
    assert(sections_view(s).sections =~= Seq::<SectionView>::empty());
    let mut i: usize = 0;
    while i < c.sections.len()
        invariant
            i <= c.sections@.len(),
            c.section_names@.len() == c.sections@.len(),
            object_sections(data@, c@, i as nat) == Ok::<_, PefError>(sections_view(s)),
        decreases c.sections@.len() - i,
    {
        if let Err(e) = read_section(data, c, i, &mut s) {
            proof {
                lemma_sections_stop(data@, c@, (i + 1) as nat, c.sections@.len());
            }
            return Err(e);
        }
        i = i + 1;
    }
    proof {
        assert(c.sections@.len() == c.sections.len());
        lemma_indexes_ok(data@, c@, c.sections@.len());
    }
    Ok(s)
}

/// Makes the symbols of the object, and finds its entry point.
fn make_symbols(
    s: &Sections,
    info: &PefLoaderInfoHeader,
    imps: &Vec<PefImportedSymbol>,
    exps: &Vec<PefExportedSymbol>,
) -> (r: (Vec<ObjSymbol>, Option<u64>))
    requires
        indexes_ok(sections_view(*s).sections, s.indexes@),
    ensures
        forall|l: LoaderView|
            l.info == *info && l.imports == import_views(imps@) && l.exports == export_views(exps@)
                ==> symbol_views(r.0@) == #[trigger] pef_symbols(sections_view(*s), l),
        r.1 == (match entry_symbol(
            sections_view(*s),
            "_pef_main"@,
            info.main_section,
            info.main_offset,
        ) {
            Some(m) => Some(m.address),
            None => None,
        }),
{
    let mut symbols: Vec<ObjSymbol> = Vec::new();
    add_imports(imps, &mut symbols);
    add_exports(s, exps, &mut symbols);
    assert(symbol_views(symbols@) =~= imported_symbols(
        import_views(imps@),
        imps@.len(),
    ) + exported_symbols(sections_view(*s), export_views(exps@), exps@.len()));
    let main = make_entry(s, "_pef_main", info.main_section, info.main_offset);
    let init = make_entry(s, "_pef_init", info.init_section, info.init_offset);
    let term = make_entry(s, "_pef_term", info.term_section, info.term_offset);
    let entry: Option<u64> = match &main {
        Some(m) => Some(m.address),
        None => None,
    };
    add_some(main, &mut symbols);
    add_some(init, &mut symbols);
    add_some(term, &mut symbols);
    (symbols, entry)
}

/// Parses a PEF binary into an object.
///
/// Sections that are instantiated (code, constant data, unpacked data,
/// executable data, pattern-initialised data) become sections; the loader
/// section gives imported, exported and entry point symbols. A
/// pattern-initialised section gets zero bytes. There are no relocations yet.
/// A section whose alignment exponent is 64 or more is refused.
/// The second part of the result, an image base, is never there.
pub fn process_pef(data: &[u8], name: &str) -> (r: Result<(ObjInfo, Option<u32>), PefError>)
    ensures
        match pef_object(data@, name@) {
            Ok(v) => r matches Ok((obj, base)) && obj@ == v && base is None,
            Err(e) => r == Err::<(ObjInfo, Option<u32>), _>(e),
        },
{
    let c = match PefContainer::parse(data) {
        Ok(c) => c,
        Err(e) => return Err(e),
    };
    proof {
        crate::util::pef::lemma_labels_len(data@);
    }
    let s = match read_sections(data, &c) {
        Ok(s) => s,
        Err(e) => return Err(e),
    };
    let (info, imps, exps) = match &s.loader {
        None => return Err(PefError::NoLoader),
        Some(b) => match parse_loader_section(b.as_slice()) {
            Ok((info, _, imps, exps)) => (info, imps, exps),
            Err(e) => return Err(e),
        },
    };
    let (symbols, entry): (Vec<ObjSymbol>, Option<u64>) = make_symbols(&s, &info, &imps, &exps);
    let mut obj = ObjInfo::new(
        ObjKind::Executable,
        ObjArchitecture::PowerPc,
        name.to_owned(),
        symbols,
        s.sections,
    );
    obj.entry = entry;
    Ok((obj, None))
}

/// PEF files cannot be written: that takes a new loader section, with import
/// table, export hash table and relocation instructions.
pub fn write_pef(_obj: &ObjInfo) -> (r: Result<Vec<u8>, PefError>)
    ensures
        r == Err::<Vec<u8>, _>(PefError::WriterNotImplemented),
{
    Err(PefError::WriterNotImplemented)
}

/// The relocation instructions of the loader section are not interpreted: the
/// object stays as it is.
pub fn apply_pef_relocations(_obj: &mut ObjInfo) -> (r: Result<(), PefError>)
    ensures
        r is Ok,
        *final(_obj) == *old(_obj),
{
    Ok(())
}

} // verus!
