use object::{Object, ObjectSection, ObjectSymbol};
use objsplit::addr_map::AddrMap;
use objsplit::obj::{
    ObjArchitecture, ObjInfo, ObjKind, ObjReloc, ObjRelocKind, ObjSection, ObjSectionKind,
    ObjSymbol, ObjSymbolFlagSet, ObjSymbolKind, ObjSymbolScope,
};
use objsplit::util::coff::{
    CoffReadError, CoffWriteError, can_write_coff, process_coff, write_coff,
};
use objsplit::util::coff_read::{
    FileArchitecture, FileHeader, FileKind, FileSection, FileSectionKind, FileSymbol,
    FileSymbolKind, ObjectFile, build_object, make_symbol,
};

fn section(name: &str, kind: ObjSectionKind, address: u64, data: Vec<u8>) -> ObjSection {
    ObjSection {
        name: name.to_string(),
        kind,
        address,
        size: data.len() as u64,
        data,
        align: 4,
        elf_index: 0,
        relocations: AddrMap::new(),
        virtual_address: None,
        file_offset: 0,
        section_known: true,
        splits: Vec::new(),
    }
}

fn symbol(name: &str, address: u64, section: Option<usize>, kind: ObjSymbolKind) -> ObjSymbol {
    ObjSymbol {
        name: name.to_string(),
        address,
        section,
        kind,
        flags: ObjSymbolFlagSet { global: true, ..ObjSymbolFlagSet::none() },
        ..Default::default()
    }
}

fn sample() -> ObjInfo {
    let mut text = section(".text", ObjSectionKind::Code, 0x100, vec![0xAA; 16]);
    text.relocations.insert(
        0x101,
        ObjReloc { kind: ObjRelocKind::X86Rel32, target_symbol: 1, addend: 0, module: None },
    );
    text.relocations.insert(
        0x108,
        ObjReloc { kind: ObjRelocKind::X86Abs32, target_symbol: 2, addend: 0x12, module: None },
    );
    text.relocations.insert(
        0x10E,
        ObjReloc { kind: ObjRelocKind::Absolute, target_symbol: 2, addend: 1, module: None },
    );
    let data = section(".data", ObjSectionKind::Data, 0, vec![1, 2, 3, 4]);
    let mut bss = section(".bss", ObjSectionKind::Bss, 0, Vec::new());
    bss.size = 64;
    let ro = section(".rdata", ObjSectionKind::ReadOnlyData, 0, vec![9; 4]);
    let symbols = vec![
        symbol("start__Fv", 0, Some(0), ObjSymbolKind::Function),
        symbol("callee", 0, None, ObjSymbolKind::Function),
        symbol("a_long_variable_name", 2, Some(1), ObjSymbolKind::Object),
    ];
    ObjInfo::new(
        ObjKind::Relocatable,
        ObjArchitecture::X86,
        "x".to_string(),
        symbols,
        vec![text, data, bss, ro],
    )
}

#[test]
fn written_file_is_read_back() {
    let out = write_coff(&sample(), false).unwrap();
    let obj = process_coff(&out, "again").unwrap();
    assert_eq!(obj.name, "again");
    assert_eq!(obj.kind, ObjKind::Relocatable);
    assert_eq!(obj.architecture, ObjArchitecture::X86);
    assert_eq!(obj.entry, None);
    let names: Vec<&str> = obj.sections.iter().map(|s| s.name.as_str()).collect();
    assert_eq!(names, [".text", ".data", ".bss", ".rdata"]);
    let kinds: Vec<ObjSectionKind> = obj.sections.iter().map(|s| s.kind).collect();
    assert_eq!(
        kinds,
        [
            ObjSectionKind::Code,
            ObjSectionKind::Data,
            ObjSectionKind::Bss,
            ObjSectionKind::ReadOnlyData
        ]
    );
    assert_eq!(obj.sections[1].data, [1, 2, 3, 4]);
    assert_eq!((obj.sections[2].size, obj.sections[2].data.len()), (64, 0));
    assert_eq!(obj.sections[0].elf_index, 1);
    assert_eq!(obj.sections[0].align, 4);
    // Names of functions and data get an underscore on i386.
    let start = obj.symbols.iter().find(|s| s.name == "_start__Fv").unwrap();
    assert_eq!((start.section, start.kind), (Some(0), ObjSymbolKind::Function));
    assert_eq!(start.demangled_name.as_deref(), Some("_start()"));
    assert_eq!(start.flags.scope(), ObjSymbolScope::Global);
    let variable = obj.symbols.iter().find(|s| s.name == "_a_long_variable_name").unwrap();
    assert_eq!((variable.section, variable.address), (Some(1), 2));
    assert!(obj.symbols.iter().all(|s| s.section.map_or(true, |k| k < obj.sections.len())));
}

#[test]
fn relocated_bytes() {
    let out = write_coff(&sample(), false).unwrap();
    let file = object::File::parse(&out[..]).unwrap();
    let text = file.section_by_name(".text").unwrap();
    let data = text.data().unwrap();
    assert_eq!(data[0], 0xAA);
    assert_eq!(&data[8..12], [0x12, 0, 0, 0]);
    assert_eq!(&data[12..14], [0xAA, 0xAA]);
    let relocs: Vec<(u64, object::Relocation)> = text.relocations().collect();
    assert_eq!(relocs.len(), 2);
    assert_eq!((relocs[0].0, relocs[1].0), (1, 8));
    assert_eq!(relocs[0].1.kind(), object::RelocationKind::Relative);
    assert_eq!(relocs[1].1.kind(), object::RelocationKind::Absolute);
    assert_eq!(relocs[1].1.size(), 32);
    // A relative field counts from behind it.
    assert_eq!(i32::from_le_bytes(data[1..5].try_into().unwrap()) as i64, 4);
}

#[test]
fn exporting_all() {
    let mut obj = sample();
    for s in obj.symbols.iter_mut() {
        s.flags = ObjSymbolFlagSet::none();
    }
    obj.symbols[2].flags.no_export = true;
    let scope = |bytes: &[u8], name: &str| {
        let file = object::File::parse(bytes).unwrap();
        let symbol = file.symbols().find(|s| s.name() == Ok(name)).unwrap();
        symbol.is_global()
    };
    let local = write_coff(&obj, false).unwrap();
    assert!(!scope(&local, "_start__Fv"));
    let global = write_coff(&obj, true).unwrap();
    assert!(scope(&global, "_start__Fv"));
    assert!(!scope(&global, "_a_long_variable_name"));
}

#[test]
fn section_symbol_is_shared() {
    let mut obj = sample();
    obj.symbols.push(symbol("", 0, Some(1), ObjSymbolKind::Section));
    obj.symbols.push(symbol("", 0, Some(1), ObjSymbolKind::Section));
    let out = write_coff(&obj, false).unwrap();
    let file = object::File::parse(&out[..]).unwrap();
    let n = file.symbols().filter(|s| s.kind() == object::SymbolKind::Section).count();
    assert_eq!(n, 1);
}

#[test]
fn write_errors() {
    let mut obj = sample();
    obj.sections[0].relocations.insert(
        0x10D,
        ObjReloc { kind: ObjRelocKind::X86Abs32, target_symbol: 0, addend: 1, module: None },
    );
    assert_eq!(write_coff(&obj, false), Err(CoffWriteError::RelocationOutside));
    let mut obj = sample();
    obj.symbols[0].kind = ObjSymbolKind::Unknown;
    assert_eq!(write_coff(&obj, false), Err(CoffWriteError::Unsupported));
    let mut obj = sample();
    obj.sections[0].align = 0x4000;
    assert_eq!(write_coff(&obj, false), Err(CoffWriteError::Unsupported));
    obj.sections[0].align = 0x2000;
    assert!(write_coff(&obj, false).is_ok());
    obj.sections[0].align = 0;
    assert!(write_coff(&obj, false).is_ok());
}

#[test]
fn no_object_file() {
    assert_eq!(process_coff(b"nothing", "x").err(), Some(CoffReadError::ParseFailed));
}

#[test]
fn other_architectures_are_refused() {
    let mut out = write_coff(&sample(), false).unwrap();
    // AMD64
    out[0..2].copy_from_slice(&0x8664u16.to_le_bytes());
    assert_eq!(process_coff(&out, "x").err(), Some(CoffReadError::UnsupportedArchitecture));
}

fn file_section(name: Option<&str>, size: u64, data: Option<Vec<u8>>) -> FileSection {
    FileSection {
        name: name.map(|n| n.to_string()),
        address: 0x1000,
        size,
        align: 0,
        index: 1,
        offset: Some(0x40),
        data,
    }
}

fn file_symbol(name: Option<&str>, section: Option<usize>) -> FileSymbol {
    FileSymbol {
        name: name.map(|n| n.to_string()),
        size: 4,
        section,
        global: true,
        local: false,
    }
}

fn given() -> ObjectFile {
    ObjectFile {
        header: FileHeader {
            architecture: FileArchitecture::PowerPc,
            kind: FileKind::Executable,
            entry: 0x1004,
            base: 4,
        },
        sections: vec![
            file_section(Some("empty"), 0, None),
            file_section(Some("other"), 4, None),
            file_section(Some("code"), 8, Some(vec![0; 4])),
            file_section(Some("zero"), 8, None),
        ],
        section_kinds: vec![
            FileSectionKind::Text,
            FileSectionKind::Other,
            FileSectionKind::Text,
            FileSectionKind::UninitializedData,
        ],
        symbols: vec![
            file_symbol(None, Some(3)),
            file_symbol(Some(""), Some(3)),
            file_symbol(Some("__ArenaLo"), Some(3)),
            file_symbol(Some("__ArenaLo"), Some(4)),
            file_symbol(Some("_stack_addr"), Some(1)),
            file_symbol(Some("section"), Some(3)),
            file_symbol(Some("label"), Some(99)),
            file_symbol(Some("data"), None),
        ],
        symbol_kinds: vec![
            FileSymbolKind::Text,
            FileSymbolKind::Text,
            FileSymbolKind::Text,
            FileSymbolKind::Data,
            FileSymbolKind::Unknown,
            FileSymbolKind::Other,
            FileSymbolKind::Label,
            FileSymbolKind::Data,
        ],
        symbol_offsets: vec![
            Some(0),
            Some(0),
            Some(0x1_0000_0001),
            Some(2),
            Some(3),
            Some(4),
            Some(5),
            None,
        ],
    }
}

#[test]
fn object_of_given_parts() {
    let obj = build_object(&given(), "p").unwrap();
    assert_eq!(obj.kind, ObjKind::Executable);
    assert_eq!(obj.architecture, ObjArchitecture::PowerPc);
    assert_eq!(obj.entry, Some(0x1004));
    let names: Vec<&str> = obj.sections.iter().map(|s| s.name.as_str()).collect();
    assert_eq!(names, ["code", "zero"]);
    assert_eq!((obj.sections[0].align, obj.sections[0].file_offset), (1, 0x40));
    let symbols: Vec<(&str, Option<usize>, ObjSymbolKind)> =
        obj.symbols.iter().map(|s| (s.name.as_str(), s.section, s.kind)).collect();
    assert_eq!(
        symbols,
        [
            ("__ArenaLo", Some(0), ObjSymbolKind::Function),
            ("__ArenaLo", Some(1), ObjSymbolKind::Object),
            ("_stack_addr", None, ObjSymbolKind::Unknown),
            ("label", None, ObjSymbolKind::Unknown),
            ("data", None, ObjSymbolKind::Object),
        ]
    );
    assert!(obj.symbols.iter().all(|s| s.size_known));
    let addresses: Vec<u64> = obj.symbols.iter().map(|s| s.address).collect();
    assert_eq!(addresses, [0x1_0000_0005, 6, 7, 9, 0]);
    // Of two symbols with a reserved name the later one counts.
    assert_eq!((obj.arena_lo, obj.arena_hi), (Some(6), None));
    assert_eq!(obj.stack_address, Some(7));
    assert_eq!(obj.sda_base, None);
}

#[test]
fn refused_parts() {
    let mut f = given();
    f.header.kind = FileKind::Other;
    assert_eq!(build_object(&f, "p").err(), Some(CoffReadError::UnexpectedKind));
    f.header.architecture = FileArchitecture::Other;
    assert_eq!(build_object(&f, "p").err(), Some(CoffReadError::UnsupportedArchitecture));
    let mut f = given();
    f.sections[2].data = None;
    assert_eq!(build_object(&f, "p").err(), Some(CoffReadError::SectionData));
    f.sections[1].name = None;
    assert_eq!(build_object(&f, "p").err(), Some(CoffReadError::SectionName));
    let mut f = given();
    f.header.entry = 0;
    assert_eq!(build_object(&f, "p").unwrap().entry, None);
}

#[test]
fn addresses_out_of_range() {
    let mut f = given();
    f.header.base = u64::MAX - 0x1_0000_0001;
    let obj = build_object(&f, "p").unwrap();
    assert_eq!(obj.symbols[0].address, u64::MAX);
    assert_eq!(obj.symbols[4].address, 0);
    f.header.base += 1;
    assert_eq!(build_object(&f, "p").err(), Some(CoffReadError::AddressOverflow));
    f.sections[2].data = None;
    assert_eq!(build_object(&f, "p").err(), Some(CoffReadError::SectionData));
    // Symbols without a name, or of a kind that is left out, need no address.
    let mut f = given();
    for i in [0, 1, 5] {
        f.symbol_offsets[i] = Some(u64::MAX);
    }
    assert_eq!(build_object(&f, "p").unwrap().symbols.len(), 5);
    // A reserved name needs one, whatever its kind.
    f.symbols[5].name = Some("__ArenaHi".to_string());
    assert_eq!(build_object(&f, "p").err(), Some(CoffReadError::AddressOverflow));
    f.symbol_offsets[5] = Some(4);
    assert_eq!(build_object(&f, "p").unwrap().arena_hi, Some(8));
}

/// An i386 image with 64-bit addresses and one code section, at 0x1000. A symbol
/// is given by its value, section and storage class.
fn image(base: u64, symbols: &[(u32, i16, u8)]) -> Vec<u8> {
    let mut v = vec![0u8; 248];
    v[0..2].copy_from_slice(b"MZ");
    v[0x3C] = 64;
    v[64..68].copy_from_slice(b"PE\0\0");
    v[68..70].copy_from_slice(&0x14Cu16.to_le_bytes());
    v[70] = 1;
    v[76..80].copy_from_slice(&248u32.to_le_bytes());
    v[80..84].copy_from_slice(&(symbols.len() as u32).to_le_bytes());
    v[84..86].copy_from_slice(&112u16.to_le_bytes());
    v[86] = 2;
    v[88..90].copy_from_slice(&0x20Bu16.to_le_bytes());
    v[104..108].copy_from_slice(&0x1001u32.to_le_bytes());
    v[112..120].copy_from_slice(&base.to_le_bytes());
    v[200..205].copy_from_slice(b".text");
    v[208] = 4;
    v[212..216].copy_from_slice(&0x1000u32.to_le_bytes());
    v[216] = 4;
    v[220..224].copy_from_slice(&240u32.to_le_bytes());
    v[236..240].copy_from_slice(&0x6000_0020u32.to_le_bytes());
    for (value, section, class) in symbols {
        v.extend_from_slice(b"_f\0\0\0\0\0\0");
        v.extend_from_slice(&value.to_le_bytes());
        v.extend_from_slice(&section.to_le_bytes());
        v.extend_from_slice(&[0x20, 0, *class, 0]);
    }
    v.extend_from_slice(&4u32.to_le_bytes());
    v
}

/// External, static and file storage.
const EXTERNAL: u8 = 2;
const STATIC: u8 = 3;
const FILE: u8 = 103;

#[test]
fn image_base_is_added() {
    let obj = process_coff(&image(0x40_0000, &[(2, 1, EXTERNAL), (3, 1, STATIC)]), "i").unwrap();
    assert_eq!((obj.kind, obj.architecture), (ObjKind::Executable, ObjArchitecture::X86));
    assert_eq!(obj.entry, Some(0x40_1001));
    assert_eq!((obj.sections[0].name.as_str(), obj.sections[0].address), (".text", 0x40_1000));
    assert_eq!((obj.symbols[0].name.as_str(), obj.symbols[0].address), ("_f", 0x40_1002));
    assert_eq!((obj.symbols[1].section, obj.symbols[1].address), (Some(0), 0x40_1003));
}

#[test]
fn symbols_without_an_address() {
    // Undefined, absolute, and in a section that is not there.
    let symbols = [(7, 0, EXTERNAL), (8, -1, EXTERNAL), (9, 5, EXTERNAL)];
    for base in [0x40_0000, u64::MAX] {
        let obj = process_coff(&image(base, &symbols), "i").unwrap();
        assert_eq!(obj.symbols.len(), 3);
        assert!(obj.symbols.iter().all(|s| s.address == 0 && s.section.is_none()));
    }
}

#[test]
fn image_base_too_high() {
    let base = u64::MAX - 0x1002;
    let obj = process_coff(&image(base, &[(2, 1, EXTERNAL)]), "i").unwrap();
    assert_eq!(obj.symbols[0].address, u64::MAX);
    let refused = process_coff(&image(base, &[(2, 1, EXTERNAL), (3, 1, STATIC)]), "i").err();
    assert_eq!(refused, Some(CoffReadError::AddressOverflow));
    // The name of a source file needs no address.
    let obj = process_coff(&image(base, &[(2, 1, EXTERNAL), (3, 1, FILE)]), "i").unwrap();
    assert_eq!(obj.symbols.len(), 1);
    let obj = process_coff(&image(u64::MAX, &[]), "i").unwrap();
    assert_eq!((obj.sections.len(), obj.symbols.len()), (1, 0));
}

#[test]
fn symbol_of_given_name() {
    let s = make_symbol(
        &file_symbol(Some("f__Fv"), Some(1)),
        3,
        ObjSymbolKind::Function,
        &vec![None, Some(5)],
        Some("plain".to_string()),
    );
    assert_eq!((s.name.as_str(), s.demangled_name.as_deref()), ("f__Fv", Some("plain")));
    assert_eq!((s.section, s.address, s.size, s.size_known), (Some(5), 3, 4, true));
}

#[test]
fn coff_objects_that_can_be_written() {
    assert!(can_write_coff(&sample()));
    let mut obj = sample();
    obj.sections[0].align = 3;
    assert!(!can_write_coff(&obj));
    let mut obj = sample();
    obj.symbols[0].name = "a\0bcdefg".to_string();
    assert!(!can_write_coff(&obj));
    obj.symbols[0].name = "a\0bcdef".to_string();
    assert!(can_write_coff(&obj));
    obj.symbols[0].kind = ObjSymbolKind::Section;
    assert!(can_write_coff(&obj));
    obj.symbols[0].section = Some(4);
    assert!(!can_write_coff(&obj));
    let mut obj = sample();
    obj.sections[0].relocations.insert(
        0x100,
        ObjReloc { kind: ObjRelocKind::X86Rel32, target_symbol: 3, addend: 0, module: None },
    );
    assert!(!can_write_coff(&obj));
    let mut obj = sample();
    obj.sections[0].relocations.insert(
        0xFF,
        ObjReloc { kind: ObjRelocKind::Absolute, target_symbol: 3, addend: 0, module: None },
    );
    assert!(!can_write_coff(&obj));
    let mut obj = sample();
    obj.sections[2].relocations.insert(
        0x4,
        ObjReloc { kind: ObjRelocKind::X86Rel32, target_symbol: 0, addend: 0, module: None },
    );
    assert!(!can_write_coff(&obj));
    obj.sections[2].relocations.insert(
        0x4,
        ObjReloc { kind: ObjRelocKind::X86Rel32, target_symbol: 0, addend: -4, module: None },
    );
    assert!(can_write_coff(&obj));
    assert!(write_coff(&obj, false).is_ok());
}
