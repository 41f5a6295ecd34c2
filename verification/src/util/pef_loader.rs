//! The loader section of a PEF file: imported libraries, imported symbols and
//! exported symbols.
use vstd::arithmetic::power2::pow2;
use vstd::prelude::*;

use crate::bytes::{
    be_u16, be_u32, power_of_two, read_be_i16, read_be_i32, read_be_u32, signed16, signed32,
};
use crate::util::pef::{
    PEF_LOADER_INFO_HEADER_SIZE, PefError, c_string, nul_from, read_c_string,
};

verus! {

/// The header of the loader section (56 bytes at its start).
#[derive(Clone, Copy, Debug, PartialEq, Eq, Structural)]
pub struct PefLoaderInfoHeader {
    pub main_section: i32,
    pub main_offset: u32,
    pub init_section: i32,
    pub init_offset: u32,
    pub term_section: i32,
    pub term_offset: u32,
    pub imported_library_count: u32,
    pub total_imported_symbol_count: u32,
    pub reloc_section_count: u32,
    pub reloc_instr_offset: u32,
    pub loader_strings_offset: u32,
    pub export_hash_offset: u32,
    pub export_hash_table_power: u32,
    pub exported_symbol_count: u32,
}

/// The fields of the loader header.
pub open spec fn loader_info(d: Seq<u8>) -> PefLoaderInfoHeader {
    PefLoaderInfoHeader {
        main_section: signed32(be_u32(d, 0)),
        main_offset: be_u32(d, 4),
        init_section: signed32(be_u32(d, 8)),
        init_offset: be_u32(d, 12),
        term_section: signed32(be_u32(d, 16)),
        term_offset: be_u32(d, 20),
        imported_library_count: be_u32(d, 24),
        total_imported_symbol_count: be_u32(d, 28),
        reloc_section_count: be_u32(d, 32),
        reloc_instr_offset: be_u32(d, 36),
        loader_strings_offset: be_u32(d, 40),
        export_hash_offset: be_u32(d, 44),
        export_hash_table_power: be_u32(d, 48),
        exported_symbol_count: be_u32(d, 52),
    }
}

impl PefLoaderInfoHeader {
    /// Reads the loader header.
    pub fn parse(loader: &[u8]) -> (r: Result<Self, PefError>)
        ensures
            loader@.len() < PEF_LOADER_INFO_HEADER_SIZE ==> r == Err::<Self, _>(
                PefError::LoaderTooSmall,
            ),
            loader@.len() >= PEF_LOADER_INFO_HEADER_SIZE ==> r == Ok::<_, PefError>(
                loader_info(loader@),
            ),
    {
        if loader.len() < PEF_LOADER_INFO_HEADER_SIZE {
            return Err(PefError::LoaderTooSmall);
        }
        Ok(
            PefLoaderInfoHeader {
                main_section: read_be_i32(loader, 0),
                main_offset: read_be_u32(loader, 4),
                init_section: read_be_i32(loader, 8),
                init_offset: read_be_u32(loader, 12),
                term_section: read_be_i32(loader, 16),
                term_offset: read_be_u32(loader, 20),
                imported_library_count: read_be_u32(loader, 24),
                total_imported_symbol_count: read_be_u32(loader, 28),
                reloc_section_count: read_be_u32(loader, 32),
                reloc_instr_offset: read_be_u32(loader, 36),
                loader_strings_offset: read_be_u32(loader, 40),
                export_hash_offset: read_be_u32(loader, 44),
                export_hash_table_power: read_be_u32(loader, 48),
                exported_symbol_count: read_be_u32(loader, 52),
            },
        )
    }
}

/// A library that symbols are imported from.
pub struct PefImportedLibrary {
    pub name: String,
    pub old_imp_version: u32,
    pub current_version: u32,
    pub imported_symbol_count: u32,
    pub first_imported_symbol: u32,
    pub options: u8,
}

/// What a [`PefImportedLibrary`] holds.
pub ghost struct LibraryView {
    pub name: Seq<char>,
    pub old_imp_version: u32,
    pub current_version: u32,
    pub imported_symbol_count: u32,
    pub first_imported_symbol: u32,
    pub options: u8,
}

impl View for PefImportedLibrary {
    type V = LibraryView;

    open spec fn view(&self) -> LibraryView {
        LibraryView {
            name: self.name@,
            old_imp_version: self.old_imp_version,
            current_version: self.current_version,
            imported_symbol_count: self.imported_symbol_count,
            first_imported_symbol: self.first_imported_symbol,
            options: self.options,
        }
    }
}

/// An imported symbol.
pub struct PefImportedSymbol {
    pub name: String,
    /// Low four bits of the class byte.
    pub symbol_class: u8,
    /// High four bits of the class byte.
    pub flags: u8,
    /// Index into the imported library table, `u32::MAX` for none.
    pub library_index: u32,
}

/// What a [`PefImportedSymbol`] holds.
pub ghost struct ImportView {
    pub name: Seq<char>,
    pub symbol_class: u8,
    pub flags: u8,
    pub library_index: u32,
}

impl View for PefImportedSymbol {
    type V = ImportView;

    open spec fn view(&self) -> ImportView {
        ImportView {
            name: self.name@,
            symbol_class: self.symbol_class,
            flags: self.flags,
            library_index: self.library_index,
        }
    }
}

/// An exported symbol.
pub struct PefExportedSymbol {
    pub name: String,
    pub symbol_class: u8,
    pub value: u32,
    pub section_index: i16,
}

/// What a [`PefExportedSymbol`] holds.
pub ghost struct ExportView {
    pub name: Seq<char>,
    pub symbol_class: u8,
    pub value: u32,
    pub section_index: i16,
}

impl View for PefExportedSymbol {
    type V = ExportView;

    open spec fn view(&self) -> ExportView {
        ExportView {
            name: self.name@,
            symbol_class: self.symbol_class,
            value: self.value,
            section_index: self.section_index,
        }
    }
}

/// The views of a list of libraries.
pub open spec fn library_views(s: Seq<PefImportedLibrary>) -> Seq<LibraryView> {
    s.map_values(|x: PefImportedLibrary| x@)
}

/// The views of a list of imported symbols.
pub open spec fn import_views(s: Seq<PefImportedSymbol>) -> Seq<ImportView> {
    s.map_values(|x: PefImportedSymbol| x@)
}

/// The views of a list of exported symbols.
pub open spec fn export_views(s: Seq<PefExportedSymbol>) -> Seq<ExportView> {
    s.map_values(|x: PefExportedSymbol| x@)
}

/// The string at an offset into the string table.
pub open spec fn loader_string(d: Seq<u8>, info: PefLoaderInfoHeader, off: int) -> Result<
    Seq<char>,
    PefError,
> {
    c_string(d, info.loader_strings_offset + off)
}

/// The imported library at `i`.
pub open spec fn library(d: Seq<u8>, info: PefLoaderInfoHeader, i: int) -> Result<
    LibraryView,
    PefError,
> {
    let off = 56 + 24 * i;
    if off + 24 > d.len() {
        Err(PefError::LibraryTruncated)
    } else {
        match loader_string(d, info, be_u32(d, off) as int) {
            Err(e) => Err(e),
            Ok(name) => Ok(
                LibraryView {
                    name,
                    old_imp_version: be_u32(d, off + 4),
                    current_version: be_u32(d, off + 8),
                    imported_symbol_count: be_u32(d, off + 12),
                    first_imported_symbol: be_u32(d, off + 16),
                    options: d[off + 20],
                },
            ),
        }
    }
}

/// The first `n` imported libraries.
pub open spec fn libraries(d: Seq<u8>, info: PefLoaderInfoHeader, n: nat) -> Result<
    Seq<LibraryView>,
    PefError,
>
    decreases n,
{
    if n == 0 {
        Ok(Seq::empty())
    } else {
        match libraries(d, info, (n - 1) as nat) {
            Err(e) => Err(e),
            Ok(below) => match library(d, info, n - 1) {
                Err(e) => Err(e),
                Ok(l) => Ok(below.push(l)),
            },
        }
    }
}

/// Whether a library provides the import at `i`.
pub open spec fn provides(l: LibraryView, i: int) -> bool {
    l.first_imported_symbol <= i < l.first_imported_symbol + l.imported_symbol_count
}

/// The index of the first library that provides the import at `i`, `u32::MAX`
/// for none.
pub open spec fn provider(libs: Seq<LibraryView>, i: int) -> u32
    decreases libs.len(),
{
    if libs.len() == 0 {
        u32::MAX
    } else {
        let below = provider(libs.drop_last(), i);
        if below == u32::MAX && provides(libs.last(), i) {
            (libs.len() - 1) as u32
        } else {
            below
        }
    }
}

/// The imported symbol at `i`, behind the library table.
pub open spec fn import(
    d: Seq<u8>,
    info: PefLoaderInfoHeader,
    libs: Seq<LibraryView>,
    i: int,
) -> Result<ImportView, PefError> {
    let off = 56 + 24 * libs.len() + 4 * i;
    if off + 4 > d.len() {
        Err(PefError::ImportTruncated)
    } else {
        let raw = be_u32(d, off);
        let class_byte = (raw / 0x100_0000) as u8;
        match loader_string(d, info, (raw % 0x100_0000) as int) {
            Err(e) => Err(e),
            Ok(name) => Ok(
                ImportView {
                    name,
                    symbol_class: class_byte % 16,
                    flags: (class_byte / 16 * 16) as u8,
                    library_index: provider(libs, i),
                },
            ),
        }
    }
}

/// The first `n` imported symbols.
pub open spec fn imports(
    d: Seq<u8>,
    info: PefLoaderInfoHeader,
    libs: Seq<LibraryView>,
    n: nat,
) -> Result<Seq<ImportView>, PefError>
    decreases n,
{
    if n == 0 {
        Ok(Seq::empty())
    } else {
        match imports(d, info, libs, (n - 1) as nat) {
            Err(e) => Err(e),
            Ok(below) => match import(d, info, libs, n - 1) {
                Err(e) => Err(e),
                Ok(s) => Ok(below.push(s)),
            },
        }
    }
}

/// The offset of the exported symbol table: behind the hash table and the keys.
pub open spec fn export_start(info: PefLoaderInfoHeader) -> int {
    info.export_hash_offset + 4 * pow2(info.export_hash_table_power as nat) + 4
        * info.exported_symbol_count
}

/// The exported symbol at `i`.
pub open spec fn export(d: Seq<u8>, info: PefLoaderInfoHeader, i: int) -> Result<
    ExportView,
    PefError,
> {
    let off = export_start(info) + 10 * i;
    if off + 10 > d.len() {
        Err(PefError::ExportTruncated)
    } else {
        let raw = be_u32(d, off);
        match loader_string(d, info, (raw % 0x100_0000) as int) {
            Err(e) => Err(e),
            Ok(name) => Ok(
                ExportView {
                    name,
                    symbol_class: ((raw / 0x100_0000) % 16) as u8,
                    value: be_u32(d, off + 4),
                    section_index: signed16(be_u16(d, off + 8)),
                },
            ),
        }
    }
}

/// The first `n` exported symbols.
pub open spec fn exports(d: Seq<u8>, info: PefLoaderInfoHeader, n: nat) -> Result<
    Seq<ExportView>,
    PefError,
>
    decreases n,
{
    if n == 0 {
        Ok(Seq::empty())
    } else {
        match exports(d, info, (n - 1) as nat) {
            Err(e) => Err(e),
            Ok(below) => match export(d, info, n - 1) {
                Err(e) => Err(e),
                Ok(s) => Ok(below.push(s)),
            },
        }
    }
}

/// What the loader section holds.
pub ghost struct LoaderView {
    pub info: PefLoaderInfoHeader,
    pub libraries: Seq<LibraryView>,
    pub imports: Seq<ImportView>,
    pub exports: Seq<ExportView>,
}

/// The loader section, or why it is refused.
pub open spec fn loader_section(d: Seq<u8>) -> Result<LoaderView, PefError> {
    let info = loader_info(d);
    if d.len() < PEF_LOADER_INFO_HEADER_SIZE {
        Err(PefError::LoaderTooSmall)
    } else {
        match libraries(d, info, info.imported_library_count as nat) {
            Err(e) => Err(e),
            Ok(libs) => match imports(d, info, libs, info.total_imported_symbol_count as nat) {
                Err(e) => Err(e),
                Ok(imps) => if info.export_hash_table_power >= 62 {
                    Err(PefError::HashSlotsOverflow)
                } else {
                    match exports(d, info, info.exported_symbol_count as nat) {
                        Err(e) => Err(e),
                        Ok(exps) => Ok(
                            LoaderView { info, libraries: libs, imports: imps, exports: exps },
                        ),
                    }
                },
            },
        }
    }
}

/// The view of a loader section read, or the error.
pub open spec fn loader_view(
    r: Result<
        (
            PefLoaderInfoHeader,
            Vec<PefImportedLibrary>,
            Vec<PefImportedSymbol>,
            Vec<PefExportedSymbol>,
        ),
        PefError,
    >,
) -> Result<LoaderView, PefError> {
    match r {
        Ok((info, libs, imps, exps)) => Ok(
            LoaderView {
                info,
                libraries: library_views(libs@),
                imports: import_views(imps@),
                exports: export_views(exps@),
            },
        ),
        Err(e) => Err(e),
    }
}

proof fn lemma_libraries_stop(d: Seq<u8>, info: PefLoaderInfoHeader, n: nat, all: nat)
    requires
        n <= all,
        libraries(d, info, n) is Err,
    ensures
        libraries(d, info, all) == libraries(d, info, n),
    decreases all,
{
    if n < all {
        lemma_libraries_stop(d, info, n, (all - 1) as nat);
    }
}

proof fn lemma_imports_stop(
    d: Seq<u8>,
    info: PefLoaderInfoHeader,
    libs: Seq<LibraryView>,
    n: nat,
    all: nat,
)
    requires
        n <= all,
        imports(d, info, libs, n) is Err,
    ensures
        imports(d, info, libs, all) == imports(d, info, libs, n),
    decreases all,
{
    if n < all {
        lemma_imports_stop(d, info, libs, n, (all - 1) as nat);
    }
}

proof fn lemma_exports_stop(d: Seq<u8>, info: PefLoaderInfoHeader, n: nat, all: nat)
    requires
        n <= all,
        exports(d, info, n) is Err,
    ensures
        exports(d, info, all) == exports(d, info, n),
    decreases all,
{
    if n < all {
        lemma_exports_stop(d, info, n, (all - 1) as nat);
    }
}

/// The library that an import is assigned to provides it and no earlier one
/// does; an import is assigned to none only where none provides it.
pub proof fn lemma_provider(libs: Seq<LibraryView>, i: int)
    requires
        libs.len() <= u32::MAX,
    ensures
        provider(libs, i) != u32::MAX ==> provider(libs, i) < libs.len() && provides(
            libs[provider(libs, i) as int],
            i,
        ),
        forall|k: int|
            0 <= k < libs.len() && k < provider(libs, i) ==> !provides(#[trigger] libs[k], i),
    decreases libs.len(),
{
    if libs.len() > 0 {
        lemma_provider(libs.drop_last(), i);
        assert forall|k: int| 0 <= k < libs.len() - 1 implies #[trigger] libs[k]
            == libs.drop_last()[k] by {}
    }
}

/// Reads the imported library at `i`.
fn read_library(loader: &[u8], info: &PefLoaderInfoHeader, i: u32) -> (r: Result<
    PefImportedLibrary,
    PefError,
>)
    ensures
        match r {
            Ok(l) => library(loader@, *info, i as int) == Ok::<_, PefError>(l@),
            Err(e) => library(loader@, *info, i as int) == Err::<LibraryView, _>(e),
        },
{
    let off: u64 = 56 + 24 * i as u64;
    if off + 24 > loader.len() as u64 {
        return Err(PefError::LibraryTruncated);
    }
    let at: usize = off as usize;
    assert(at + 24 <= loader.len());
    match read_c_string(
        loader,
        info.loader_strings_offset as u64 + read_be_u32(loader, at) as u64,
    ) {
        Err(e) => Err(e),
        Ok(name) => Ok(
            PefImportedLibrary {
                name,
                old_imp_version: read_be_u32(loader, at + 4),
                current_version: read_be_u32(loader, at + 8),
                imported_symbol_count: read_be_u32(loader, at + 12),
                first_imported_symbol: read_be_u32(loader, at + 16),
                options: loader[at + 20],
            },
        ),
    }
}

/// Reads the imported libraries.
fn read_libraries(loader: &[u8], info: &PefLoaderInfoHeader) -> (r: Result<
    Vec<PefImportedLibrary>,
    PefError,
>)
    ensures
        match r {
            Ok(l) => libraries(loader@, *info, info.imported_library_count as nat) == Ok::<
                _,
                PefError,
            >(library_views(l@)) && l@.len() == info.imported_library_count,
            Err(e) => libraries(loader@, *info, info.imported_library_count as nat) == Err::<
                Seq<LibraryView>,
                _,
            >(e),
        },
{
    let mut out: Vec<PefImportedLibrary> = Vec::new();
    let mut i: u32 = 0;
    assert(library_views(out@) =~= Seq::<LibraryView>::empty());
    while i < info.imported_library_count
        invariant
            i <= info.imported_library_count,
            libraries(loader@, *info, i as nat) == Ok::<_, PefError>(library_views(out@)),
            out@.len() == i,
        decreases info.imported_library_count - i,
    {
        match read_library(loader, info, i) {
            Ok(l) => {
                let ghost before = library_views(out@);
                out.push(l);
                assert(library_views(out@) =~= before.push(l@));
            },
            Err(e) => {
                proof {
                    lemma_libraries_stop(
                        loader@,
                        *info,
                        (i + 1) as nat,
                        info.imported_library_count as nat,
                    );
                }
                return Err(e);
            },
        }
        i = i + 1;
    }
    Ok(out)
}

/// Finds the library that provides the import at `i`.
fn find_provider(libs: &Vec<PefImportedLibrary>, i: u32) -> (r: u32)
    requires
        libs@.len() <= u32::MAX,
    ensures
        r == provider(library_views(libs@), i as int),
{
    let ghost views = library_views(libs@);
    let mut found: u32 = u32::MAX;
    let mut k: usize = 0;
    assert(views.take(0) =~= Seq::<LibraryView>::empty());
    while k < libs.len()
        invariant
            views == library_views(libs@),
            k <= libs@.len() <= u32::MAX,
            found == provider(views.take(k as int), i as int),
        decreases libs@.len() - k,
    {
        let l = &libs[k];
        assert(views.take(k + 1).drop_last() =~= views.take(k as int));
        assert(views.take(k + 1).last() == l@);
        if found == u32::MAX && l.first_imported_symbol <= i && (i as u64)
            < l.first_imported_symbol as u64 + l.imported_symbol_count as u64 {
            found = k as u32;
        }
        k = k + 1;
    }
    assert(views.take(k as int) =~= views);
    found
}

/// Reads the imported symbol at `i`.
fn read_import(
    loader: &[u8],
    info: &PefLoaderInfoHeader,
    libs: &Vec<PefImportedLibrary>,
    i: u32,
) -> (r: Result<PefImportedSymbol, PefError>)
    requires
        libs@.len() <= u32::MAX,
    ensures
        match r {
            Ok(s) => import(loader@, *info, library_views(libs@), i as int) == Ok::<_, PefError>(
                s@,
            ),
            Err(e) => import(loader@, *info, library_views(libs@), i as int) == Err::<
                ImportView,
                _,
            >(e),
        },
{
    let off: u64 = 56 + 24 * libs.len() as u64 + 4 * i as u64;
    assert(library_views(libs@).len() == libs@.len());
    if off + 4 > loader.len() as u64 {
        return Err(PefError::ImportTruncated);
    }
    let raw: u32 = read_be_u32(loader, off as usize);
    let class_byte: u8 = (raw / 0x100_0000) as u8;
    match read_c_string(
        loader,
        info.loader_strings_offset as u64 + (raw % 0x100_0000) as u64,
    ) {
        Err(e) => Err(e),
        Ok(name) => Ok(
            PefImportedSymbol {
                name,
                symbol_class: class_byte % 16,
                flags: class_byte / 16 * 16,
                library_index: find_provider(libs, i),
            },
        ),
    }
}

/// Reads the imported symbols.
fn read_imports(
    loader: &[u8],
    info: &PefLoaderInfoHeader,
    libs: &Vec<PefImportedLibrary>,
) -> (r: Result<Vec<PefImportedSymbol>, PefError>)
    requires
        libs@.len() <= u32::MAX,
    ensures
        match r {
            Ok(s) => imports(
                loader@,
                *info,
                library_views(libs@),
                info.total_imported_symbol_count as nat,
            ) == Ok::<_, PefError>(import_views(s@)),
            Err(e) => imports(
                loader@,
                *info,
                library_views(libs@),
                info.total_imported_symbol_count as nat,
            ) == Err::<Seq<ImportView>, _>(e),
        },
{
    let mut out: Vec<PefImportedSymbol> = Vec::new();
    let mut i: u32 = 0;
    assert(import_views(out@) =~= Seq::<ImportView>::empty());
    while i < info.total_imported_symbol_count
        invariant
            libs@.len() <= u32::MAX,
            i <= info.total_imported_symbol_count,
            imports(loader@, *info, library_views(libs@), i as nat) == Ok::<_, PefError>(
                import_views(out@),
            ),
        decreases info.total_imported_symbol_count - i,
    {
        match read_import(loader, info, libs, i) {
            Ok(s) => {
                let ghost before = import_views(out@);
                out.push(s);
                assert(import_views(out@) =~= before.push(s@));
            },
            Err(e) => {
                proof {
                    lemma_imports_stop(
                        loader@,
                        *info,
                        library_views(libs@),
                        (i + 1) as nat,
                        info.total_imported_symbol_count as nat,
                    );
                }
                return Err(e);
            },
        }
        i = i + 1;
    }
    Ok(out)
}

/// Reads the exported symbol at `i`.
fn read_export(loader: &[u8], info: &PefLoaderInfoHeader, start: u64, i: u32) -> (r: Result<
    PefExportedSymbol,
    PefError,
>)
    requires
        start == export_start(*info),
        start <= 0xC000_0000_0000_0000,
    ensures
        match r {
            Ok(s) => export(loader@, *info, i as int) == Ok::<_, PefError>(s@),
            Err(e) => export(loader@, *info, i as int) == Err::<ExportView, _>(e),
        },
{
    let off: u64 = start + 10 * i as u64;
    if off + 10 > loader.len() as u64 {
        return Err(PefError::ExportTruncated);
    }
    let at: usize = off as usize;
    assert(at + 10 <= loader.len());
    let raw: u32 = read_be_u32(loader, at);
    match read_c_string(
        loader,
        info.loader_strings_offset as u64 + (raw % 0x100_0000) as u64,
    ) {
        Err(e) => Err(e),
        Ok(name) => Ok(
            PefExportedSymbol {
                name,
                symbol_class: (raw / 0x100_0000 % 16) as u8,
                value: read_be_u32(loader, at + 4),
                section_index: read_be_i16(loader, at + 8),
            },
        ),
    }
}

/// A hash table whose size is not refused takes at most half of a 64-bit range.
proof fn lemma_slots_bound(info: PefLoaderInfoHeader)
    requires
        info.export_hash_table_power < 62,
    ensures
        pow2(info.export_hash_table_power as nat) <= 0x2000_0000_0000_0000,
{
    vstd::arithmetic::power2::lemma2_to64_rest();
    if info.export_hash_table_power < 61 {
        vstd::arithmetic::power2::lemma_pow2_strictly_increases(
            info.export_hash_table_power as nat,
            61,
        );
    }
}

/// Reads the exported symbols.
fn read_exports(loader: &[u8], info: &PefLoaderInfoHeader) -> (r: Result<
    Vec<PefExportedSymbol>,
    PefError,
>)
    requires
        info.export_hash_table_power < 62,
    ensures
        match r {
            Ok(s) => exports(loader@, *info, info.exported_symbol_count as nat) == Ok::<
                _,
                PefError,
            >(export_views(s@)),
            Err(e) => exports(loader@, *info, info.exported_symbol_count as nat) == Err::<
                Seq<ExportView>,
                _,
            >(e),
        },
{
    let slots: u64 = power_of_two(info.export_hash_table_power as u64);
    proof {
        lemma_slots_bound(*info);
    }
    let start: u64 = info.export_hash_offset as u64 + 4 * slots + 4
        * info.exported_symbol_count as u64;
    let mut out: Vec<PefExportedSymbol> = Vec::new();
    let mut i: u32 = 0;
    assert(export_views(out@) =~= Seq::<ExportView>::empty());
    while i < info.exported_symbol_count
        invariant
            start == export_start(*info),
            start <= 0xC000_0000_0000_0000,
            i <= info.exported_symbol_count,
            exports(loader@, *info, i as nat) == Ok::<_, PefError>(export_views(out@)),
        decreases info.exported_symbol_count - i,
    {
        match read_export(loader, info, start, i) {
            Ok(s) => {
                let ghost before = export_views(out@);
                out.push(s);
                assert(export_views(out@) =~= before.push(s@));
            },
            Err(e) => {
                proof {
                    lemma_exports_stop(
                        loader@,
                        *info,
                        (i + 1) as nat,
                        info.exported_symbol_count as nat,
                    );
                }
                return Err(e);
            },
        }
        i = i + 1;
    }
    Ok(out)
}

/// Parses the loader section: its header, the imported library and symbol
/// tables, and the exported symbol table.
///
/// Exports are listed without the hash table, which only speeds up lookup by
/// name. From `export_hash_offset` on there are the hash table (4 bytes for
/// each of two to the `export_hash_table_power` slots), the key table (4 bytes
/// for each symbol) and the symbol table (10 bytes for each symbol). A hash
/// table that does not fit in 64 bits is refused.
pub fn parse_loader_section(loader: &[u8]) -> (r: Result<
    (PefLoaderInfoHeader, Vec<PefImportedLibrary>, Vec<PefImportedSymbol>, Vec<PefExportedSymbol>),
    PefError,
>)
    ensures
        loader_view(r) == loader_section(loader@),
{
    let info = match PefLoaderInfoHeader::parse(loader) {
        Ok(i) => i,
        Err(e) => return Err(e),
    };
    let libs = match read_libraries(loader, &info) {
        Ok(l) => l,
        Err(e) => return Err(e),
    };
    let imps = match read_imports(loader, &info, &libs) {
        Ok(s) => s,
        Err(e) => return Err(e),
    };
    if info.export_hash_table_power >= 62 {
        return Err(PefError::HashSlotsOverflow);
    }
    match read_exports(loader, &info) {
        Ok(exps) => Ok((info, libs, imps, exps)),
        Err(e) => Err(e),
    }
}

proof fn lemma_libraries_len(d: Seq<u8>, info: PefLoaderInfoHeader, n: nat)
    requires
        d.len() >= 56,
    ensures
        libraries(d, info, n) matches Ok(s) ==> s.len() == n && 56 + 24 * n <= d.len(),
    decreases n,
{
    if n > 0 {
        lemma_libraries_len(d, info, (n - 1) as nat);
    }
}

proof fn lemma_imports_len(
    d: Seq<u8>,
    info: PefLoaderInfoHeader,
    libs: Seq<LibraryView>,
    n: nat,
)
    requires
        56 + 24 * libs.len() <= d.len(),
    ensures
        imports(d, info, libs, n) matches Ok(s) ==> s.len() == n && 56 + 24 * libs.len() + 4 * n
            <= d.len(),
    decreases n,
{
    if n > 0 {
        lemma_imports_len(d, info, libs, (n - 1) as nat);
    }
}

proof fn lemma_exports_len(d: Seq<u8>, info: PefLoaderInfoHeader, n: nat)
    ensures
        exports(d, info, n) matches Ok(s) ==> s.len() == n && (n > 0 ==> export_start(info) + 10 * n
            <= d.len()),
    decreases n,
{
    if n > 0 {
        lemma_exports_len(d, info, (n - 1) as nat);
    }
}

/// A loader section that is read holds as many libraries, imports and exports as
/// its header says, and its tables lie inside it.
pub proof fn lemma_loader_counts(d: Seq<u8>)
    ensures
        loader_section(d) matches Ok(l) ==> {
            let info = loader_info(d);
            &&& l.info == info
            &&& l.libraries.len() == info.imported_library_count
            &&& l.imports.len() == info.total_imported_symbol_count
            &&& l.exports.len() == info.exported_symbol_count
            &&& 56 + 24 * l.libraries.len() + 4 * l.imports.len() <= d.len()
            &&& l.exports.len() > 0 ==> info.export_hash_offset + 4 * pow2(
                info.export_hash_table_power as nat,
            ) + 14 * l.exports.len() <= d.len()
        },
{
    let info = loader_info(d);
    if d.len() >= 56 {
        lemma_libraries_len(d, info, info.imported_library_count as nat);
        if let Ok(libs) = libraries(d, info, info.imported_library_count as nat) {
            lemma_imports_len(d, info, libs, info.total_imported_symbol_count as nat);
            lemma_exports_len(d, info, info.exported_symbol_count as nat);
        }
    }
}

/// Whether `a` and `b` are of one length and differ at most from `lo` to `hi`.
pub open spec fn same_outside(a: Seq<u8>, b: Seq<u8>, lo: int, hi: int) -> bool {
    &&& a.len() == b.len()
    &&& forall|i: int| 0 <= i < a.len() && !(lo <= i < hi) ==> #[trigger] a[i] == b[i]
}

/// Whether the string at `abs` and the zero byte that ends it lie outside the
/// bytes of `d` from `lo` to `hi`.
pub open spec fn string_outside(d: Seq<u8>, abs: int, lo: int, hi: int) -> bool {
    abs >= hi || nul_from(d, abs) < lo || d.len() <= lo
}

/// Whether the hash and key tables overlap neither the header, the import tables
/// nor a string that a library, an import or an export names.
pub open spec fn hash_apart(d: Seq<u8>) -> bool {
    let info = loader_info(d);
    let (lo, hi) = (info.export_hash_offset as int, export_start(info));
    let imports_at = 56 + 24 * info.imported_library_count;
    &&& imports_at + 4 * info.total_imported_symbol_count <= lo
    &&& forall|i: int|
        0 <= i < info.imported_library_count ==> string_outside(
            d,
            info.loader_strings_offset + #[trigger] be_u32(d, 56 + 24 * i),
            lo,
            hi,
        )
    &&& forall|i: int|
        0 <= i < info.total_imported_symbol_count ==> string_outside(
            d,
            info.loader_strings_offset + #[trigger] be_u32(d, imports_at + 4 * i) % 0x100_0000,
            lo,
            hi,
        )
    &&& forall|i: int|
        0 <= i < info.exported_symbol_count ==> string_outside(
            d,
            info.loader_strings_offset + #[trigger] be_u32(d, hi + 10 * i) % 0x100_0000,
            lo,
            hi,
        )
}

proof fn lemma_nul_same(a: Seq<u8>, b: Seq<u8>, lo: int, hi: int, i: int)
    requires
        same_outside(a, b, lo, hi),
        0 <= i,
        string_outside(a, i, lo, hi),
    ensures
        nul_from(b, i) == nul_from(a, i),
        i <= a.len() ==> i <= nul_from(a, i) <= a.len(),
    decreases a.len() - i,
{
    if i < a.len() && a[i] != 0 {
        lemma_nul_same(a, b, lo, hi, i + 1);
    }
    if i < a.len() {
        assert(i <= nul_from(a, i));
        assert(a[i] == b[i]);
    }
}

/// A string outside the bytes that differ is the same.
proof fn lemma_string_same(a: Seq<u8>, b: Seq<u8>, lo: int, hi: int, abs: int)
    requires
        same_outside(a, b, lo, hi),
        0 <= abs,
        string_outside(a, abs, lo, hi),
    ensures
        c_string(a, abs) == c_string(b, abs),
{
    lemma_nul_same(a, b, lo, hi, abs);
    if abs <= a.len() {
        assert(a.subrange(abs, nul_from(a, abs)) =~= b.subrange(abs, nul_from(a, abs)));
    }
}

proof fn lemma_libraries_same(a: Seq<u8>, b: Seq<u8>, info: PefLoaderInfoHeader, n: nat)
    requires
        info == loader_info(a),
        hash_apart(a),
        same_outside(a, b, info.export_hash_offset as int, export_start(info)),
        n <= info.imported_library_count,
    ensures
        libraries(a, info, n) == libraries(b, info, n),
    decreases n,
{
    if n > 0 {
        lemma_libraries_same(a, b, info, (n - 1) as nat);
        let off = 56 + 24 * (n - 1);
        if off + 24 <= a.len() {
            assert(forall|k: int| off <= k < off + 24 ==> #[trigger] a[k] == b[k]);
            lemma_string_same(
                a,
                b,
                info.export_hash_offset as int,
                export_start(info),
                info.loader_strings_offset + be_u32(a, off),
            );
        }
        assert(library(a, info, n - 1) == library(b, info, n - 1));
    }
}

proof fn lemma_imports_same(
    a: Seq<u8>,
    b: Seq<u8>,
    info: PefLoaderInfoHeader,
    libs: Seq<LibraryView>,
    n: nat,
)
    requires
        info == loader_info(a),
        hash_apart(a),
        same_outside(a, b, info.export_hash_offset as int, export_start(info)),
        libs.len() == info.imported_library_count,
        n <= info.total_imported_symbol_count,
    ensures
        imports(a, info, libs, n) == imports(b, info, libs, n),
    decreases n,
{
    if n > 0 {
        lemma_imports_same(a, b, info, libs, (n - 1) as nat);
        let off = 56 + 24 * info.imported_library_count + 4 * (n - 1);
        if off + 4 <= a.len() {
            assert(forall|k: int| off <= k < off + 4 ==> #[trigger] a[k] == b[k]);
            lemma_string_same(
                a,
                b,
                info.export_hash_offset as int,
                export_start(info),
                info.loader_strings_offset + be_u32(a, off) % 0x100_0000,
            );
        }
        assert(import(a, info, libs, n - 1) == import(b, info, libs, n - 1));
    }
}

proof fn lemma_export_same(a: Seq<u8>, b: Seq<u8>, info: PefLoaderInfoHeader, i: int)
    requires
        info == loader_info(a),
        hash_apart(a),
        same_outside(a, b, info.export_hash_offset as int, export_start(info)),
        0 <= i < info.exported_symbol_count,
    ensures
        export(a, info, i) == export(b, info, i),
{
    let (lo, hi) = (info.export_hash_offset as int, export_start(info));
    let off = hi + 10 * i;
    if off + 10 <= a.len() {
        let abs = info.loader_strings_offset + be_u32(a, off) % 0x100_0000;
        assert(string_outside(a, abs, lo, hi));
        lemma_string_same(a, b, lo, hi, abs);
        assert(a[off] == b[off] && a[off + 1] == b[off + 1] && a[off + 2] == b[off + 2] && a[off
            + 3] == b[off + 3]);
        assert(be_u32(a, off) == be_u32(b, off));
        assert(a[off + 4] == b[off + 4] && a[off + 5] == b[off + 5] && a[off + 6] == b[off + 6]
            && a[off + 7] == b[off + 7]);
        assert(be_u32(a, off + 4) == be_u32(b, off + 4));
        assert(a[off + 8] == b[off + 8] && a[off + 9] == b[off + 9]);
        assert(be_u16(a, off + 8) == be_u16(b, off + 8));
    }
}

proof fn lemma_exports_same(a: Seq<u8>, b: Seq<u8>, info: PefLoaderInfoHeader, n: nat)
    requires
        info == loader_info(a),
        hash_apart(a),
        same_outside(a, b, info.export_hash_offset as int, export_start(info)),
        n <= info.exported_symbol_count,
    ensures
        exports(a, info, n) == exports(b, info, n),
    decreases n,
{
    if n > 0 {
        lemma_exports_same(a, b, info, (n - 1) as nat);
        lemma_export_same(a, b, info, n - 1);
    }
}

/// What the hash and key tables hold is not read: a loader section that differs
/// from another only there gives the same imports and exports, where no other
/// table and no string shares their bytes.
pub proof fn lemma_hash_unread(a: Seq<u8>, b: Seq<u8>)
    requires
        hash_apart(a),
        same_outside(
            a,
            b,
            loader_info(a).export_hash_offset as int,
            export_start(loader_info(a)),
        ),
    ensures
        loader_section(a) == loader_section(b),
{
    let info = loader_info(a);
    if a.len() >= 56 {
        assert(forall|k: int| 0 <= k < 56 ==> #[trigger] a[k] == b[k]);
        assert(loader_info(b) == info);
        let n = info.imported_library_count as nat;
        lemma_libraries_same(a, b, info, n);
        if let Ok(libs) = libraries(a, info, n) {
            lemma_libraries_len(a, info, n);
            lemma_imports_same(a, b, info, libs, info.total_imported_symbol_count as nat);
            lemma_exports_same(a, b, info, info.exported_symbol_count as nat);
        }
    }
}

} // verus!
