use objsplit::cmd::info::{container_text, info_text, loader_range, loader_text, u32_to_tag};
use objsplit::obj::{
    ObjArchitecture, ObjInfo, ObjKind, ObjSectionKind, ObjSymbolKind, ObjSymbolScope,
};
use objsplit::util::pef::{
    PEF_ARCH_M68K, PEF_ARCH_PPC, PEF_CLASS_CODE, PEF_CLASS_DATA, PEF_CLASS_GLUE, PEF_CLASS_TOC,
    PEF_CLASS_TVECTOR, PEF_CLASS_UNDEFINED, PefContainer, PefError, PefExportedSymbol,
    PefFileHeader, PefImportedLibrary, PefImportedSymbol, PefLoaderInfoHeader, PefSectionHeader,
    PefSectionKind, apply_pef_relocations, parse_loader_section, process_pef, read_c_string,
    write_pef,
};
use objsplit::util::pef_object::{
    export_symbol, import_symbol, pef_class_to_symbol_kind, read_container,
};
use objsplit::util::xcoff::write_xcoff;

fn w32(v: &mut Vec<u8>, x: u32) {
    v.extend_from_slice(&x.to_be_bytes());
}

fn w16(v: &mut Vec<u8>, x: u16) {
    v.extend_from_slice(&x.to_be_bytes());
}

struct Sec {
    name: i32,
    address: u32,
    total: u32,
    unpacked: u32,
    data: Vec<u8>,
    kind: u8,
    align: u8,
}

fn file(sections: &[Sec], names: &[u8]) -> Vec<u8> {
    let mut v = Vec::new();
    w32(&mut v, 0x4A6F_7921);
    w32(&mut v, 0x7065_6666);
    w32(&mut v, PEF_ARCH_PPC);
    w32(&mut v, 1);
    w32(&mut v, 0x1234_5678);
    w32(&mut v, 2);
    w32(&mut v, 3);
    w32(&mut v, 4);
    w16(&mut v, sections.len() as u16);
    w16(&mut v, 2);
    w32(&mut v, 0);
    let mut at = 40 + 28 * sections.len() + names.len();
    for s in sections {
        w32(&mut v, s.name as u32);
        w32(&mut v, s.address);
        w32(&mut v, s.total);
        w32(&mut v, s.unpacked);
        w32(&mut v, s.data.len() as u32);
        w32(&mut v, at as u32);
        v.extend_from_slice(&[s.kind, 1, s.align, 0]);
        at += s.data.len();
    }
    v.extend_from_slice(names);
    for s in sections {
        v.extend_from_slice(&s.data);
    }
    v
}

/// Two libraries, three imports and five exports.
fn loader() -> Vec<u8> {
    let strings: &[u8] = b"InterfaceLib\0MathLib\0SysBeep\0sin__Fd\0weakOne\0main__Fv\0gTable\0";
    let (lib1, lib2, s0, s1, s2, e0, e1) = (0u32, 13, 21, 29, 37, 45, 54);
    let strings_at = 56 + 24 * 2 + 4 * 3;
    let hash_at = strings_at + strings.len();
    let mut v = Vec::new();
    for x in [1i32, 8, 0, 4, -1, 0] {
        w32(&mut v, x as u32);
    }
    w32(&mut v, 2);
    w32(&mut v, 3);
    w32(&mut v, 0);
    w32(&mut v, 0);
    w32(&mut v, strings_at as u32);
    w32(&mut v, hash_at as u32);
    w32(&mut v, 1);
    w32(&mut v, 5);
    for (name, count, first, options) in [(lib1, 2u32, 0u32, 0u8), (lib2, 1, 2, 0x40)] {
        w32(&mut v, name);
        w32(&mut v, 0x10);
        w32(&mut v, 0x20);
        w32(&mut v, count);
        w32(&mut v, first);
        v.extend_from_slice(&[options, 0, 0, 0]);
    }
    w32(&mut v, s0);
    w32(&mut v, 0x0200_0000 | s1);
    w32(&mut v, 0x8100_0000 | s2);
    v.extend_from_slice(strings);
    w32(&mut v, 0);
    w32(&mut v, 0);
    for _ in 0..5 {
        w32(&mut v, 0);
    }
    for (class, name, value, section) in [
        (0u32, e0, 0x10u32, 0i16),
        (1, e1, 4, 1),
        (1, e1, 0x7777, -2),
        (1, e1, 1, -3),
        (1, e1, 1, 3),
    ] {
        w32(&mut v, (class << 24) | name);
        w32(&mut v, value);
        w16(&mut v, section as u16);
    }
    v
}

fn sections() -> Vec<Sec> {
    vec![
        Sec { name: -1, address: 0x1000, total: 16, unpacked: 16, data: vec![7; 16], kind: 0, align: 4 },
        Sec { name: 0, address: 0x2000, total: 12, unpacked: 8, data: vec![9; 8], kind: 1, align: 0 },
        Sec { name: -1, address: 0x3000, total: 6, unpacked: 5, data: vec![1, 2], kind: 2, align: 2 },
        Sec { name: -1, address: 0, total: 0, unpacked: 0, data: loader(), kind: 4, align: 0 },
        Sec { name: -1, address: 0x4000, total: 4, unpacked: 4, data: vec![5; 4], kind: 3, align: 0 },
        Sec { name: -1, address: 0, total: 2, unpacked: 2, data: vec![0; 2], kind: 5, align: 0 },
        Sec { name: -1, address: 0x5000, total: 3, unpacked: 3, data: vec![3; 3], kind: 6, align: 1 },
        Sec { name: -1, address: 0, total: 2, unpacked: 2, data: vec![0; 2], kind: 200, align: 0 },
    ]
}

fn sample() -> Vec<u8> {
    file(&sections(), b"data one\0")
}

#[test]
fn section_kinds() {
    let names = [
        ("code", PefSectionKind::Code),
        ("data", PefSectionKind::UnpackedData),
        ("pidata", PefSectionKind::PatternInitData),
        ("rdata", PefSectionKind::ConstantData),
        ("loader", PefSectionKind::Loader),
        ("debug", PefSectionKind::Debug),
        ("xdata", PefSectionKind::ExecutableData),
        ("except", PefSectionKind::Exception),
        ("trace", PefSectionKind::Traceback),
    ];
    for (i, (name, kind)) in names.iter().enumerate() {
        assert_eq!(PefSectionKind::from_u8(i as u8), Some(*kind));
        assert_eq!(kind.short_name(), *name);
    }
    assert_eq!(PefSectionKind::from_u8(9), None);
}

#[test]
fn file_header_errors() {
    let good = sample();
    assert!(PefFileHeader::parse(&good).is_ok());
    assert_eq!(PefFileHeader::parse(&good[..39]), Err(PefError::FileTooSmall));
    let mut bad = good.clone();
    bad[0] = 0;
    assert_eq!(PefFileHeader::parse(&bad), Err(PefError::BadMagic));
    let mut bad = good.clone();
    bad[8..12].copy_from_slice(b"m68k");
    assert_eq!(PefFileHeader::parse(&bad), Err(PefError::UnsupportedArchitecture));
    let mut bad = good.clone();
    bad[15] = 2;
    assert_eq!(PefFileHeader::parse(&bad), Err(PefError::UnsupportedVersion));
}

#[test]
fn section_header_fields() {
    let data = sample();
    let sh = PefSectionHeader::parse(&data[40..68]).unwrap();
    assert_eq!(sh.name_offset, -1);
    assert_eq!(sh.default_address, 0x1000);
    assert_eq!(sh.kind(), Some(PefSectionKind::Code));
    assert_eq!(sh.alignment, 4);
    assert_eq!(PefSectionHeader::parse(&data[40..67]), Err(PefError::SectionHeaderTruncated));
}

#[test]
fn container_names() {
    let c = PefContainer::parse(&sample()).unwrap();
    assert_eq!(c.sections.len(), 8);
    assert_eq!(c.section_names[0], None);
    assert_eq!(c.section_names[1].as_deref(), Some("data one"));
    assert_eq!(c.header.current_version, 4);
}

#[test]
fn container_errors() {
    let data = sample();
    assert_eq!(
        PefContainer::parse(&data[..100]).err(),
        Some(PefError::SectionTablePastEnd)
    );
    let mut bad = data.clone();
    bad[40..44].copy_from_slice(&0x00FF_FFFFu32.to_be_bytes());
    assert_eq!(PefContainer::parse(&bad).err(), Some(PefError::StringPastEnd));
    let mut bad = data;
    let names = 40 + 28 * 8;
    bad[names] = 0xFF;
    assert_eq!(PefContainer::parse(&bad).err(), Some(PefError::StringNotUtf8));
}

#[test]
fn c_strings() {
    assert_eq!(read_c_string(b"ab\0cd", 0), Ok("ab".to_string()));
    assert_eq!(read_c_string(b"ab\0cd", 3), Ok("cd".to_string()));
    assert_eq!(read_c_string(b"ab", 2), Ok(String::new()));
    assert_eq!(read_c_string(b"ab", 3), Err(PefError::StringPastEnd));
    assert_eq!(read_c_string(b"\xC3\0", 0), Err(PefError::StringNotUtf8));
}

#[test]
fn loader_tables() {
    let (info, libs, imports, exports) = parse_loader_section(&loader()).unwrap();
    assert_eq!(info.main_section, 1);
    assert_eq!(info.term_section, -1);
    assert_eq!(libs.len(), 2);
    assert_eq!(libs[1].name, "MathLib");
    assert_eq!(libs[1].options, 0x40);
    assert_eq!(imports.len(), 3);
    assert_eq!((imports[0].name.as_str(), imports[0].library_index), ("SysBeep", 0));
    assert_eq!((imports[1].name.as_str(), imports[1].symbol_class), ("sin__Fd", 2));
    assert_eq!((imports[2].flags, imports[2].library_index), (0x80, 1));
    assert_eq!(imports[2].symbol_class, 1);
    assert_eq!(exports.len(), 5);
    assert_eq!((exports[0].name.as_str(), exports[0].value), ("main__Fv", 0x10));
    assert_eq!(exports[2].section_index, -2);
}

#[test]
fn loader_errors() {
    let good = loader();
    assert_eq!(PefLoaderInfoHeader::parse(&good[..55]), Err(PefError::LoaderTooSmall));
    assert_eq!(parse_loader_section(&good[..55]).err(), Some(PefError::LoaderTooSmall));
    assert_eq!(parse_loader_section(&good[..60]).err(), Some(PefError::LibraryTruncated));
    assert_eq!(parse_loader_section(&good[..good.len() - 1]).err(), Some(PefError::ExportTruncated));
    for power in [62u32, 63, 64, 65, 128, u32::MAX] {
        let mut bad = good.clone();
        bad[48..52].copy_from_slice(&power.to_be_bytes());
        assert_eq!(parse_loader_section(&bad).err(), Some(PefError::HashSlotsOverflow));
    }
    let mut bad = good.clone();
    bad[48..52].copy_from_slice(&61u32.to_be_bytes());
    assert_eq!(parse_loader_section(&bad).err(), Some(PefError::ExportTruncated));
    let mut bad = good.clone();
    bad[24..28].copy_from_slice(&0u32.to_be_bytes());
    bad[28..32].copy_from_slice(&0u32.to_be_bytes());
    bad[52..56].copy_from_slice(&0u32.to_be_bytes());
    let (_, libs, imports, exports) = parse_loader_section(&bad[..56]).unwrap();
    assert_eq!((libs.len(), imports.len(), exports.len()), (0, 0, 0));
    bad[28..32].copy_from_slice(&1u32.to_be_bytes());
    assert_eq!(parse_loader_section(&bad[..56]).err(), Some(PefError::ImportTruncated));
}

#[test]
fn hash_table_is_not_read() {
    let plain = loader();
    let start = u32::from_be_bytes([plain[44], plain[45], plain[46], plain[47]]) as usize;
    let mut other = plain.clone();
    // Two slots and five keys.
    other[start..start + 4 * 2 + 4 * 5].fill(0xA5);
    assert_ne!(plain, other);
    let (info, libs, imports, exports) = parse_loader_section(&plain).unwrap();
    let (info2, libs2, imports2, exports2) = parse_loader_section(&other).unwrap();
    assert_eq!(info, info2);
    assert_eq!(libs.len(), libs2.len());
    let names = |s: &[PefImportedSymbol]| s.iter().map(|x| x.name.clone()).collect::<Vec<_>>();
    assert_eq!(names(&imports), names(&imports2));
    let values = |s: &[PefExportedSymbol]| {
        s.iter().map(|x| (x.name.clone(), x.value, x.section_index)).collect::<Vec<_>>()
    };
    assert_eq!(values(&exports), values(&exports2));
}

#[test]
fn counts_of_the_header() {
    let v = loader();
    let (info, libs, imports, exports) = parse_loader_section(&v).unwrap();
    assert_eq!(libs.len(), info.imported_library_count as usize);
    assert_eq!(imports.len(), info.total_imported_symbol_count as usize);
    assert_eq!(exports.len(), info.exported_symbol_count as usize);
    // Two slots, and a key and an entry for each export, end the section.
    assert_eq!(info.export_hash_offset as usize + 4 * 2 + 14 * exports.len(), v.len());
}

#[test]
fn entry_points_are_functions() {
    let mut s = sections();
    // The term entry point, like the main one, stands in a data section.
    s[3].data[16..20].copy_from_slice(&4u32.to_be_bytes());
    s[3].data[20..24].copy_from_slice(&2u32.to_be_bytes());
    let (obj, _) = process_pef(&file(&s, b"data one\0"), "a").unwrap();
    let entries: Vec<(&str, Option<usize>, u64)> = obj
        .symbols
        .iter()
        .filter(|s| s.name.starts_with("_pef_"))
        .map(|s| (s.name.as_str(), s.section, s.address))
        .collect();
    assert_eq!(
        entries,
        [
            ("_pef_main", Some(1), 0x2008),
            ("_pef_init", Some(0), 0x1004),
            ("_pef_term", Some(3), 0x4002),
        ]
    );
    assert!(obj
        .symbols
        .iter()
        .filter(|s| s.name.starts_with("_pef_"))
        .all(|s| s.kind == ObjSymbolKind::Function && s.flags.global && s.flags.exported));
}

#[test]
fn import_of_no_library() {
    let mut v = loader();
    // The first library provides nothing any more.
    v[56 + 12..56 + 16].copy_from_slice(&0u32.to_be_bytes());
    let (_, _, imports, _) = parse_loader_section(&v).unwrap();
    assert_eq!(imports[0].library_index, u32::MAX);
    assert_eq!(imports[2].library_index, 1);
}

#[test]
fn class_kinds() {
    assert_eq!(pef_class_to_symbol_kind(PEF_CLASS_CODE), ObjSymbolKind::Function);
    assert_eq!(pef_class_to_symbol_kind(PEF_CLASS_GLUE), ObjSymbolKind::Function);
    assert_eq!(pef_class_to_symbol_kind(PEF_CLASS_DATA), ObjSymbolKind::Object);
    assert_eq!(pef_class_to_symbol_kind(PEF_CLASS_TVECTOR), ObjSymbolKind::Object);
    assert_eq!(pef_class_to_symbol_kind(PEF_CLASS_TOC), ObjSymbolKind::Object);
    assert_eq!(pef_class_to_symbol_kind(PEF_CLASS_UNDEFINED), ObjSymbolKind::Unknown);
}

fn read() -> ObjInfo {
    let (obj, base) = process_pef(&sample(), "sample").unwrap();
    assert_eq!(base, None);
    obj
}

#[test]
fn object_sections() {
    let obj = read();
    assert_eq!(obj.kind, ObjKind::Executable);
    assert_eq!(obj.architecture, ObjArchitecture::PowerPc);
    assert_eq!(obj.name, "sample");
    let names: Vec<&str> = obj.sections.iter().map(|s| s.name.as_str()).collect();
    assert_eq!(names, [".code0", "data one", ".pidata2", ".rdata4", ".xdata6"]);
    let kinds: Vec<ObjSectionKind> = obj.sections.iter().map(|s| s.kind).collect();
    assert_eq!(
        kinds,
        [
            ObjSectionKind::Code,
            ObjSectionKind::Data,
            ObjSectionKind::Data,
            ObjSectionKind::ReadOnlyData,
            ObjSectionKind::Data
        ]
    );
    assert_eq!(obj.sections[1].data, [9, 9, 9, 9, 9, 9, 9, 9, 0, 0, 0, 0]);
    assert_eq!(obj.sections[2].data, [0; 5]);
    assert_eq!(obj.sections[2].elf_index, 2);
    assert_eq!(obj.sections[0].align, 16);
    assert_eq!(obj.sections[1].align, 1);
    assert!(obj.sections.iter().all(|s| s.relocations.len() == 0));
}

#[test]
fn object_symbols() {
    let obj = read();
    let names: Vec<&str> = obj.symbols.iter().map(|s| s.name.as_str()).collect();
    assert_eq!(
        names,
        [
            "SysBeep", "sin__Fd", "weakOne", "main__Fv", "gTable", "gTable", "_pef_main",
            "_pef_init"
        ]
    );
    // Imports are undefined, and come first.
    assert!(obj.symbols[..3].iter().all(|s| s.section.is_none() && s.address == 0));
    assert_eq!(obj.symbols[0].flags.scope(), ObjSymbolScope::Global);
    assert_eq!(obj.symbols[2].flags.scope(), ObjSymbolScope::Weak);
    assert_eq!(obj.symbols[1].demangled_name.as_deref(), Some("sin(double)"));
    assert_eq!(obj.symbols[0].demangled_name, None);
    // Exports stand in their section or have an absolute address.
    assert_eq!((obj.symbols[3].section, obj.symbols[3].address), (Some(0), 0x1010));
    assert_eq!(obj.symbols[3].kind, ObjSymbolKind::Function);
    assert!(obj.symbols[3].flags.exported);
    assert_eq!(obj.symbols[3].demangled_name.as_deref(), Some("main()"));
    assert_eq!((obj.symbols[4].section, obj.symbols[4].address), (Some(1), 0x2004));
    assert_eq!((obj.symbols[5].section, obj.symbols[5].address), (None, 0x7777));
    // Entry points.
    assert_eq!((obj.symbols[6].section, obj.symbols[6].address), (Some(1), 0x2008));
    assert_eq!(obj.symbols[6].kind, ObjSymbolKind::Function);
    assert_eq!((obj.symbols[7].section, obj.symbols[7].address), (Some(0), 0x1004));
    assert_eq!(obj.symbols[7].kind, ObjSymbolKind::Function);
    assert_eq!(obj.entry, Some(0x2008));
}

#[test]
fn object_can_be_written() {
    assert!(write_xcoff(&read(), false).unwrap().len() > 20);
}

#[test]
fn object_errors() {
    let mut s = sections();
    s.remove(3);
    assert_eq!(process_pef(&file(&s, b"x\0"), "a").err(), Some(PefError::NoLoader));
    let data = sample();
    let mut bad = data.clone();
    // The loader section starts near the end of the address space.
    bad[40 + 28 * 3 + 20..40 + 28 * 3 + 24].copy_from_slice(&0xFFFF_FFF0u32.to_be_bytes());
    assert_eq!(process_pef(&bad, "a").err(), Some(PefError::LoaderPastEnd));
    let mut bad = data.clone();
    bad[40 + 16..40 + 20].copy_from_slice(&0x10_0000u32.to_be_bytes());
    assert_eq!(process_pef(&bad, "a").err(), Some(PefError::ContainerPastEnd));
    assert_eq!(process_pef(&data[..20], "a").err(), Some(PefError::FileTooSmall));
    let mut s = sections();
    s[3].data.truncate(40);
    assert_eq!(process_pef(&file(&s, b"x\0"), "a").err(), Some(PefError::LoaderTooSmall));
}

#[test]
fn alignments() {
    let with_align = |align: u8| {
        let mut s = sections();
        s[0].align = align;
        process_pef(&file(&s, b"x\0"), "a")
    };
    assert_eq!(with_align(0).unwrap().0.sections[0].align, 1);
    assert_eq!(with_align(12).unwrap().0.sections[0].align, 0x1000);
    assert_eq!(with_align(63).unwrap().0.sections[0].align, 1 << 63);
    for align in [64, 65, 128, 255] {
        assert_eq!(with_align(align).err(), Some(PefError::AlignmentOverflow));
    }
    // A section that is left out may state any alignment.
    let mut s = sections();
    s[3].align = 64;
    s[5].align = 255;
    assert!(process_pef(&file(&s, b"x\0"), "a").is_ok());
    // Missing bytes come first.
    let mut s = sections();
    s[0].align = 64;
    let mut bad = file(&s, b"x\0");
    bad[40 + 16..40 + 20].copy_from_slice(&0x10_0000u32.to_be_bytes());
    assert_eq!(process_pef(&bad, "a").err(), Some(PefError::ContainerPastEnd));
}

#[test]
fn containers() {
    let sh = PefSectionHeader::parse(&sample()[40..68]).unwrap();
    assert_eq!(read_container(&sample(), &sh), Ok(vec![7; 16]));
    assert_eq!(read_container(&[0; 4], &sh), Err(PefError::ContainerPastEnd));
}

#[test]
fn symbols_from_given_names() {
    let imp = PefImportedSymbol {
        name: "f".to_string(),
        symbol_class: PEF_CLASS_CODE,
        flags: 0x80,
        library_index: 0,
    };
    let s = import_symbol(&imp, Some("plain".to_string()));
    assert_eq!(s.demangled_name.as_deref(), Some("plain"));
    assert_eq!(s.flags.scope(), ObjSymbolScope::Weak);
    assert_eq!(s.kind, ObjSymbolKind::Function);
    let obj = read();
    let indexes = vec![Some(0), None, Some(1)];
    let mut exp = PefExportedSymbol {
        name: "g".to_string(),
        symbol_class: PEF_CLASS_DATA,
        value: 6,
        section_index: 2,
    };
    let s = export_symbol(&obj.sections, &indexes, &exp, None).unwrap();
    assert_eq!((s.section, s.address), (Some(1), 0x2006));
    for (index, there) in [(1, false), (3, false), (-3, false), (-1, false), (-2, true)] {
        exp.section_index = index;
        assert_eq!(export_symbol(&obj.sections, &indexes, &exp, None).is_some(), there);
    }
}

#[test]
fn nothing_is_written_or_relocated() {
    let mut obj = read();
    assert_eq!(write_pef(&obj), Err(PefError::WriterNotImplemented));
    let before: Vec<usize> = obj.sections.iter().map(|s| s.relocations.len()).collect();
    assert_eq!(apply_pef_relocations(&mut obj), Ok(()));
    let after: Vec<usize> = obj.sections.iter().map(|s| s.relocations.len()).collect();
    assert_eq!(before, after);
}

#[test]
fn tags() {
    assert_eq!(u32_to_tag(0x4A6F_7921), "Joy!");
    assert_eq!(u32_to_tag(0x4A6F_7900), "4A6F7900");
    assert_eq!(u32_to_tag(0x4A6F_797F), "4A6F797F");
    assert_eq!(u32_to_tag(0x2020_207E), "   ~");
    assert_eq!(u32_to_tag(0x0000_0001), "00000001");
}

fn expected_container(path: &str, c: &PefContainer, arch: &str) -> String {
    let h = &c.header;
    let mut s = String::new();
    s += &format!("PEF file: {}\n", path);
    s += &format!("  magic:           {}{}\n", u32_to_tag(h.tag1), u32_to_tag(h.tag2));
    s += &format!("  architecture:    {} ({:08X})\n", arch, h.architecture);
    s += &format!("  format version:  {}\n", h.format_version);
    s += &format!("  date/time stamp: {:#010X}\n", h.date_time_stamp);
    s += &format!("  old def version: {:#010X}\n", h.old_def_version);
    s += &format!("  old imp version: {:#010X}\n", h.old_imp_version);
    s += &format!("  current version: {:#010X}\n", h.current_version);
    s += &format!("  section count:   {}\n", h.section_count);
    s += &format!("  instantiated:    {}\n", h.inst_section_count);
    s += "\n";
    s += &format!(
        "  {:>3}  {:<16} {:<8} {:>10} {:>10} {:>10} {:>10} {:>5} {:>5}\n",
        "idx", "name", "kind", "defaultAddr", "totalSize", "unpackSize", "contSize", "cOff", "align"
    );
    for (i, sh) in c.sections.iter().enumerate() {
        let name = c.section_names.get(i).and_then(|n| n.clone()).unwrap_or("<unnamed>".to_string());
        let kind = sh.kind().map(PefSectionKind::short_name).unwrap_or("?");
        s += &format!(
            "  {:>3}  {:<16} {:<8} {:>#10X} {:>#10X} {:>#10X} {:>#10X} {:>#5X} {:>5}\n",
            i,
            name,
            kind,
            sh.default_address,
            sh.total_size,
            sh.unpacked_size,
            sh.container_size,
            sh.container_offset,
            sh.alignment
        );
    }
    s
}

fn expected_loader(info: &PefLoaderInfoHeader, libs: &[PefImportedLibrary], i: usize, e: usize) -> String {
    let mut s = String::from("\nLoader:\n");
    s += &format!("  mainSection={} mainOffset={:#X}\n", info.main_section, info.main_offset);
    s += &format!("  initSection={} initOffset={:#X}\n", info.init_section, info.init_offset);
    s += &format!("  termSection={} termOffset={:#X}\n", info.term_section, info.term_offset);
    s += &format!("  importedLibraryCount: {}\n", libs.len());
    s += &format!("  totalImportedSymbolCount: {}\n", i);
    s += &format!("  exportedSymbolCount: {}\n", e);
    s += "\n  Imported libraries:\n";
    for (i, lib) in libs.iter().enumerate() {
        s += &format!(
            "    [{:>2}] {:<32} syms={:>4} first={:>5} oldImp={:#010X} cur={:#010X} opts={:#04X}\n",
            i,
            lib.name,
            lib.imported_symbol_count,
            lib.first_imported_symbol,
            lib.old_imp_version,
            lib.current_version,
            lib.options
        );
    }
    s
}

#[test]
fn container_report() {
    let mut c = PefContainer::parse(&sample()).unwrap();
    assert_eq!(
        container_text("a/b.pef", &c),
        expected_container("a/b.pef", &c, "PowerPC (pwpc)")
    );
    c.header.architecture = PEF_ARCH_M68K;
    c.section_names.truncate(1);
    assert_eq!(container_text("x", &c), expected_container("x", &c, "68K (m68k)"));
    c.header.architecture = 7;
    c.sections[0].default_address = 0xFFFF_FFFF;
    assert_eq!(container_text("x", &c), expected_container("x", &c, "<unknown>"));
}

#[test]
fn loader_report() {
    let (mut info, libs, imports, exports) = parse_loader_section(&loader()).unwrap();
    info.init_section = i32::MIN;
    assert_eq!(
        loader_text(&info, &libs, imports.len(), exports.len()),
        expected_loader(&info, &libs, 3, 5)
    );
}

#[test]
fn whole_report() {
    let data = sample();
    let c = PefContainer::parse(&data).unwrap();
    let (lo, hi) = loader_range(&c).unwrap();
    assert_eq!(&data[lo as usize..hi as usize], &loader()[..]);
    let (info, libs, imports, exports) = parse_loader_section(&loader()).unwrap();
    let (text, end) = info_text("p", &data);
    assert_eq!(end, Ok(()));
    assert_eq!(
        text,
        expected_container("p", &c, "PowerPC (pwpc)")
            + &expected_loader(&info, &libs, imports.len(), exports.len())
    );
}

#[test]
fn report_of_refused_files() {
    assert_eq!(info_text("p", &[0; 3]), (String::new(), Err(PefError::FileTooSmall)));
    let mut s = sections();
    s[3].data.truncate(40);
    let data = file(&s, b"x\0");
    let c = PefContainer::parse(&data).unwrap();
    let (text, end) = info_text("p", &data);
    assert_eq!(end, Err(PefError::LoaderTooSmall));
    assert_eq!(text, expected_container("p", &c, "PowerPC (pwpc)"));
    s.remove(3);
    let data = file(&s, b"x\0");
    let c = PefContainer::parse(&data).unwrap();
    assert_eq!(loader_range(&c), None);
    assert_eq!(info_text("p", &data).1, Ok(()));
}

#[test]
fn last_loader_counts() {
    let mut s = sections();
    let mut second = loader();
    second.push(0);
    s.push(Sec { name: -1, address: 0, total: 0, unpacked: 0, data: second, kind: 4, align: 0 });
    let c = PefContainer::parse(&file(&s, b"x\0")).unwrap();
    let (lo, hi) = loader_range(&c).unwrap();
    assert_eq!((hi - lo) as usize, loader().len() + 1);
}
