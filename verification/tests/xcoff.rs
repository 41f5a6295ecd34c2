use object::xcoff;
use object::{Object, ObjectSection, ObjectSymbol};
use objsplit::addr_map::AddrMap;
use objsplit::obj::{
    ObjArchitecture, ObjInfo, ObjKind, ObjReloc, ObjRelocKind, ObjSection, ObjSectionKind,
    ObjSymbol, ObjSymbolFlagSet, ObjSymbolKind,
};
use objsplit::util::xcoff::{
    C_EXT, C_HIDEXT, C_WEAKEXT, FILE_HDR_SIZE, MAGIC_32, R_BR, R_POS, R_RBR, R_TOCL, R_TOCU,
    RLD_SIZE, SEC_HDR_SIZE, STYP_BSS, STYP_DATA, STYP_TEXT, SYM_SIZE, StrTab, XMC_BS, XMC_PR,
    XMC_RO, XMC_RW, XTY_ER, XTY_LD, XTY_SD, align_up, can_write_xcoff,
    log2_align, mapped_reloc_type, write_i16, write_u8, write_u16, write_u32, write_xcoff,
};

fn section(name: &str, kind: ObjSectionKind, address: u64, size: u64, data: Vec<u8>) -> ObjSection {
    ObjSection {
        name: name.to_string(),
        kind,
        address,
        size,
        data,
        align: 4,
        elf_index: 0,
        relocations: AddrMap::new(),
        virtual_address: None,
        file_offset: 0,
        section_known: true,
        splits: Vec::new(),
    }
}

fn symbol(name: &str, address: u64, section: Option<usize>, flags: ObjSymbolFlagSet) -> ObjSymbol {
    ObjSymbol {
        name: name.to_string(),
        address,
        section,
        flags,
        kind: ObjSymbolKind::Function,
        ..Default::default()
    }
}

fn flags(global: bool, local: bool, weak: bool) -> ObjSymbolFlagSet {
    ObjSymbolFlagSet { global, local, weak, ..ObjSymbolFlagSet::none() }
}

fn reloc(kind: ObjRelocKind, target_symbol: usize, addend: i64) -> ObjReloc {
    ObjReloc { kind, target_symbol, addend, module: None }
}

fn sample() -> ObjInfo {
    let mut text =
        section(".code0", ObjSectionKind::Code, 0x100, 30, (0..28u8).map(|i| 0xF0 | i).collect());
    text.relocations.insert(0x100, reloc(ObjRelocKind::PpcRel24, 0, 8));
    text.relocations.insert(0x104, reloc(ObjRelocKind::PpcRel14, 1, 0));
    text.relocations.insert(0x108, reloc(ObjRelocKind::PpcAddr16Ha, 2, 0x1234_5678));
    text.relocations.insert(0x10C, reloc(ObjRelocKind::PpcAddr16Lo, 2, 0x1234_5678));
    text.relocations.insert(0x110, reloc(ObjRelocKind::Absolute, 3, -4));
    text.relocations.insert(0x114, reloc(ObjRelocKind::PpcEmbSda21, 3, 7));
    text.relocations.insert(0x11A, reloc(ObjRelocKind::Absolute, 2, 9));
    text.relocations.insert(0x11C, reloc(ObjRelocKind::Absolute, 2, 9));
    let data = section(".data0", ObjSectionKind::Data, 0x200, 2, vec![1, 2, 3, 4]);
    let bss = section(".bss0", ObjSectionKind::Bss, 0x300, 64, Vec::new());
    let ro = section(".rdata", ObjSectionKind::ReadOnlyData, 0x400, 4, vec![5, 6, 7, 8]);
    let symbols = vec![
        symbol("short", 0x100, Some(0), flags(true, false, false)),
        symbol("a_rather_long_name", 0x104, Some(0), flags(false, true, false)),
        symbol("undefined_symbol", 0, None, flags(true, false, false)),
        symbol("weakling", 0x200, Some(1), flags(false, false, true)),
        symbol("far", 0x300, Some(9), flags(false, true, false)),
        symbol("both", 0x300, Some(2), flags(true, true, false)),
    ];
    ObjInfo::new(
        ObjKind::Relocatable,
        ObjArchitecture::PowerPc,
        "x".to_string(),
        symbols,
        vec![text, data, bss, ro],
    )
}

fn u32_at(d: &[u8], at: usize) -> u32 {
    u32::from_be_bytes(d[at..at + 4].try_into().unwrap())
}

fn u16_at(d: &[u8], at: usize) -> u16 {
    u16::from_be_bytes(d[at..at + 2].try_into().unwrap())
}

#[test]
fn constants_of_the_format() {
    assert_eq!(MAGIC_32, xcoff::MAGIC_32);
    assert_eq!((STYP_TEXT, STYP_DATA, STYP_BSS), (xcoff::STYP_TEXT, xcoff::STYP_DATA, xcoff::STYP_BSS));
    assert_eq!((C_EXT, C_HIDEXT, C_WEAKEXT), (xcoff::C_EXT, xcoff::C_HIDEXT, xcoff::C_WEAKEXT));
    assert_eq!((XTY_ER, XTY_SD, XTY_LD), (xcoff::XTY_ER, xcoff::XTY_SD, xcoff::XTY_LD));
    assert_eq!(
        (XMC_PR, XMC_RO, XMC_RW, XMC_BS),
        (xcoff::XMC_PR, xcoff::XMC_RO, xcoff::XMC_RW, xcoff::XMC_BS)
    );
    assert_eq!(
        (R_POS, R_BR, R_RBR, R_TOCU, R_TOCL),
        (xcoff::R_POS, xcoff::R_BR, xcoff::R_RBR, xcoff::R_TOCU, xcoff::R_TOCL)
    );
    assert_eq!((SYM_SIZE, RLD_SIZE, SEC_HDR_SIZE, FILE_HDR_SIZE), (18, 10, 40, 20));
}

#[test]
fn string_table() {
    let mut t = StrTab::new();
    assert_eq!(t.data, [0, 0, 0, 4]);
    assert_eq!(t.add("ab"), 4);
    assert_eq!(t.add("c"), 7);
    t.finalize();
    assert_eq!(t.data, b"\0\0\0\x09ab\0c\0");
}

#[test]
fn words_are_big_endian() {
    let mut v = Vec::new();
    write_u8(&mut v, 1);
    write_u16(&mut v, 0x0203);
    write_i16(&mut v, -2);
    write_u32(&mut v, 0x0405_0607);
    assert_eq!(v, [1, 2, 3, 0xFF, 0xFE, 4, 5, 6, 7]);
}

#[test]
fn alignment() {
    assert_eq!(align_up(0, 4), 0);
    assert_eq!(align_up(5, 4), 8);
    assert_eq!(align_up(8, 4), 8);
    assert_eq!(log2_align(0), 0);
    assert_eq!(log2_align(1), 0);
    assert_eq!(log2_align(16), 4);
    assert_eq!(log2_align(31), 4);
    assert_eq!(log2_align(u64::MAX), 63);
}

#[test]
fn relocation_types() {
    assert_eq!(mapped_reloc_type(ObjRelocKind::Absolute), Some((xcoff::R_POS, 31)));
    assert_eq!(mapped_reloc_type(ObjRelocKind::PpcRel24), Some((xcoff::R_BR, 25)));
    assert_eq!(mapped_reloc_type(ObjRelocKind::PpcRel14), Some((xcoff::R_RBR, 15)));
    assert_eq!(mapped_reloc_type(ObjRelocKind::PpcAddr16Hi), Some((xcoff::R_TOCU, 15)));
    assert_eq!(mapped_reloc_type(ObjRelocKind::PpcAddr16Ha), Some((xcoff::R_TOCU, 15)));
    assert_eq!(mapped_reloc_type(ObjRelocKind::PpcAddr16Lo), Some((xcoff::R_TOCL, 15)));
    assert_eq!(mapped_reloc_type(ObjRelocKind::PpcEmbSda21), None);
    assert_eq!(mapped_reloc_type(ObjRelocKind::X86Abs32), None);
    assert_eq!(mapped_reloc_type(ObjRelocKind::X86Rel32), None);
}

#[test]
fn headers_and_layout() {
    let out = write_xcoff(&sample(), false).unwrap();
    assert_eq!(u16_at(&out, 0), 0x01DF);
    assert_eq!(u16_at(&out, 2), 4);
    let data_at = 20 + 4 * 40;
    // The second section starts at the next multiple of four.
    let second_at = data_at + 32;
    let ro_at = second_at + 4;
    let relocs_at = ro_at + 4;
    let symtab_at = relocs_at + 7 * 10;
    assert_eq!(u32_at(&out, 8) as usize, symtab_at);
    assert_eq!(u32_at(&out, 12), 2 * (4 + 6));
    let header = |i: usize| 20 + 40 * i;
    assert_eq!(&out[header(0)..header(0) + 8], b".text\0\0\0");
    assert_eq!(u32_at(&out, header(0) + 16), 30);
    assert_eq!(u32_at(&out, header(0) + 20) as usize, data_at);
    assert_eq!(u32_at(&out, header(0) + 24) as usize, relocs_at);
    assert_eq!(u16_at(&out, header(0) + 32), 7);
    assert_eq!(u32_at(&out, header(0) + 36), 0x20);
    assert_eq!(&out[header(1)..header(1) + 8], b".data\0\0\0");
    assert_eq!(u32_at(&out, header(1) + 20) as usize, second_at);
    assert_eq!(u32_at(&out, header(1) + 24), 0);
    assert_eq!(&out[header(2)..header(2) + 8], b".bss\0\0\0\0");
    assert_eq!(u32_at(&out, header(2) + 20), 0);
    assert_eq!(&out[header(3)..header(3) + 8], b".text\0\0\0");
    assert_eq!(u32_at(&out, header(3) + 20) as usize, ro_at);
    // The data of the second section is cut to its size.
    assert_eq!(&out[second_at..second_at + 4], [1, 2, 0, 0]);
    assert_eq!(&out[ro_at..ro_at + 4], [5, 6, 7, 8]);
    // The string table ends the file and states its length.
    let strings_at = symtab_at + 18 * 20;
    assert_eq!(u32_at(&out, strings_at) as usize, out.len() - strings_at);
    assert_eq!(&out[strings_at + 4..], b"a_rather_long_name\0undefined_symbol\0");
}

#[test]
fn relocated_fields_hold_addends() {
    let out = write_xcoff(&sample(), false).unwrap();
    let at = 20 + 4 * 40;
    let original = |i: usize| u32_at(&(0..28u8).map(|i| 0xF0 | i).collect::<Vec<u8>>(), i);
    let branch = 0x100u32.wrapping_add(8);
    assert_eq!(u32_at(&out, at), (original(0) & !0x03ff_fffc) | (branch & 0x03ff_fffc));
    let short = 0x104u32.wrapping_sub(4);
    assert_eq!(u32_at(&out, at + 4), (original(4) & !0xfffc) | (short & 0xfffc));
    assert_eq!(u32_at(&out, at + 8), (original(8) & !0xffff) | 0x1234);
    assert_eq!(u32_at(&out, at + 12), (original(12) & !0xffff) | 0x5678);
    assert_eq!(u32_at(&out, at + 16), -4i32 as u32);
    assert_eq!(u32_at(&out, at + 20), original(20));
    // The next field stands across the end of the bytes that were there.
    assert_eq!(u16_at(&out, at + 24), u16_at(&[0xF8, 0xF9], 0));
    assert_eq!(u32_at(&out, at + 26), 9);
}

#[test]
fn relocation_entries() {
    let out = write_xcoff(&sample(), false).unwrap();
    let at = u32_at(&out, 20 + 24) as usize;
    let entry = |i: usize| {
        let e = at + 10 * i;
        (u32_at(&out, e), u32_at(&out, e + 4), out[e + 8], out[e + 9])
    };
    assert_eq!(entry(0), (0, 2 * 4, 25, xcoff::R_BR));
    assert_eq!(entry(1), (4, 2 * 5, 15, xcoff::R_RBR));
    assert_eq!(entry(2), (8, 2 * 6, 15, xcoff::R_TOCU));
    assert_eq!(entry(3), (12, 2 * 6, 15, xcoff::R_TOCL));
    assert_eq!(entry(4), (16, 2 * 7, 31, xcoff::R_POS));
    assert_eq!(entry(6), (28, 2 * 6, 31, xcoff::R_POS));
}

#[test]
fn symbol_entries() {
    let out = write_xcoff(&sample(), false).unwrap();
    let at = u32_at(&out, 8) as usize;
    let entry = |i: usize| &out[at + 36 * i..at + 36 * (i + 1)];
    // A csect for each section.
    assert_eq!(&entry(0)[..8], b".text\0\0\0");
    assert_eq!(u16_at(entry(0), 12), 1);
    assert_eq!((entry(0)[16], entry(0)[17]), (xcoff::C_HIDEXT, 1));
    assert_eq!(u32_at(entry(0), 18), 30);
    assert_eq!((entry(0)[28], entry(0)[29]), (xcoff::XTY_SD, xcoff::XMC_PR));
    assert_eq!(entry(1)[29], xcoff::XMC_RW);
    assert_eq!(entry(2)[29], xcoff::XMC_BS);
    assert_eq!(entry(3)[29], xcoff::XMC_RO);
    // Labels in them.
    assert_eq!(&entry(4)[..8], b"short\0\0\0");
    assert_eq!(u32_at(entry(4), 8), 0x100);
    assert_eq!((u16_at(entry(4), 12), entry(4)[16]), (1, xcoff::C_EXT));
    assert_eq!((entry(4)[28], entry(4)[29]), (xcoff::XTY_LD, xcoff::XMC_PR));
    assert_eq!((u32_at(entry(5), 0), u32_at(entry(5), 4)), (0, 4));
    assert_eq!(entry(5)[16], xcoff::C_HIDEXT);
    assert_eq!((u16_at(entry(6), 12), entry(6)[16], entry(6)[28]), (0, xcoff::C_EXT, xcoff::XTY_ER));
    assert_eq!(u32_at(entry(6), 4), 4 + 19);
    assert_eq!((u16_at(entry(7), 12), entry(7)[16]), (2, xcoff::C_WEAKEXT));
    assert_eq!(u32_at(entry(7), 18), 2);
    // A section that is not there leaves the symbol undefined.
    assert_eq!((u16_at(entry(8), 12), entry(8)[16], entry(8)[28]), (0, xcoff::C_EXT, xcoff::XTY_ER));
    assert_eq!((u16_at(entry(9), 12), entry(9)[16], entry(9)[29]), (3, xcoff::C_EXT, xcoff::XMC_BS));
}

#[test]
fn a_reader_finds_everything() {
    let out = write_xcoff(&sample(), true).unwrap();
    let file = object::File::parse(&out[..]).unwrap();
    assert_eq!(file.architecture(), object::Architecture::PowerPc);
    let names: Vec<String> = file.sections().map(|s| s.name().unwrap().to_string()).collect();
    assert_eq!(names, [".text", ".data", ".bss", ".text"]);
    let symbols: Vec<String> =
        file.symbols().map(|s| s.name().unwrap().to_string()).collect();
    assert!(symbols.contains(&"a_rather_long_name".to_string()));
    assert!(symbols.contains(&"undefined_symbol".to_string()));
    assert!(symbols.contains(&"weakling".to_string()));
}

#[test]
fn an_empty_object() {
    let obj = ObjInfo::new(
        ObjKind::Relocatable,
        ObjArchitecture::PowerPc,
        String::new(),
        Vec::new(),
        Vec::new(),
    );
    let mut expected = vec![0x01, 0xDF, 0, 0, 0, 0, 0, 0, 0, 0, 0, 20];
    expected.extend_from_slice(&[0; 8]);
    expected.extend_from_slice(&[0, 0, 0, 4]);
    assert_eq!(write_xcoff(&obj, false).unwrap(), expected);
}

#[test]
fn objects_that_can_be_written() {
    assert!(can_write_xcoff(&sample()));
    let mut obj = sample();
    obj.sections[0].relocations.insert(0xFF, reloc(ObjRelocKind::X86Abs32, 99, 0));
    assert!(can_write_xcoff(&obj));
    obj.sections[0].relocations.insert(0xFE, reloc(ObjRelocKind::Absolute, 0, 0));
    assert!(!can_write_xcoff(&obj));
    let mut obj = sample();
    obj.sections[1].relocations.insert(0x200, reloc(ObjRelocKind::Absolute, 6, 0));
    assert!(!can_write_xcoff(&obj));
}
