use object::pe;
use objsplit::addr_map::AddrMap;
use objsplit::obj::{
    ObjArchitecture, ObjInfo, ObjKind, ObjSection, ObjSectionKind, ObjSplit, ObjSymbol,
    ObjSymbolKind, ObjUnit,
};
use objsplit::util::rsp::{
    MEM_EXECUTE, MEM_READ, MEM_WRITE, PeFields, PeHeaderInfo, SUBSYSTEM_EFI_APPLICATION,
    SUBSYSTEM_EFI_BOOT_SERVICE_DRIVER, SUBSYSTEM_EFI_ROM, SUBSYSTEM_EFI_RUNTIME_DRIVER,
    SUBSYSTEM_NATIVE, SUBSYSTEM_POSIX_CUI, SUBSYSTEM_WINDOWS_CE_GUI, SUBSYSTEM_WINDOWS_CUI,
    SUBSYSTEM_WINDOWS_GUI, SUBSYSTEM_XBOX, generate_link_rsp, make_info,
};

fn fields() -> PeFields {
    PeFields {
        image_base: 0x40_0000,
        stack_reserve: 0x10_0000,
        stack_commit: 0x1000,
        heap_reserve: 0x20_0000,
        heap_commit: 0x2000,
        subsystem: 2,
        major_os_version: 4,
        minor_os_version: 1,
        major_subsystem_version: 5,
        minor_subsystem_version: 2,
        characteristics: 0x10F,
    }
}

fn raw(name: &[u8], flags: u32) -> (Vec<u8>, u32) {
    let mut n = name.to_vec();
    n.resize(8, 0);
    (n, flags)
}

fn info() -> PeHeaderInfo {
    make_info(
        &fields(),
        &vec![
            raw(b".text", 0x6000_0020),
            raw(b".data", 0x4000_0040),
            raw(b"", 0xFFFF_FFFF),
            raw(b"\xFF\xFE", 0xFFFF_FFFF),
            raw(b".data", 0xC000_0040),
            raw(b".longest", 0x4000_0040),
        ],
    )
}

fn section(name: &str, address: u64, splits: &[(u32, &str)]) -> ObjSection {
    ObjSection {
        name: name.to_string(),
        kind: ObjSectionKind::Code,
        address,
        size: 0x1000,
        data: Vec::new(),
        align: 1,
        elf_index: 0,
        relocations: AddrMap::new(),
        virtual_address: None,
        file_offset: 0,
        section_known: true,
        splits: splits.iter().map(|(a, u)| (*a, ObjSplit { unit: u.to_string() })).collect(),
    }
}

fn unit(name: &str) -> ObjUnit {
    ObjUnit { name: name.to_string(), autogenerated: false, object_path: format!("{name}.obj") }
}

fn sample() -> ObjInfo {
    let symbols = vec![
        ObjSymbol {
            name: "data".to_string(),
            address: 0x40_1010,
            section: Some(0),
            kind: ObjSymbolKind::Object,
            ..Default::default()
        },
        ObjSymbol {
            name: "WinMain".to_string(),
            address: 0x40_1010,
            section: Some(0),
            kind: ObjSymbolKind::Function,
            ..Default::default()
        },
    ];
    let mut obj = ObjInfo::new(
        ObjKind::Executable,
        ObjArchitecture::X86,
        "x".to_string(),
        symbols,
        vec![
            section(".text", 0x40_1000, &[(0x100, "b"), (0, "a"), (0x200, "a")]),
            section(".data", 0x40_0000, &[(0x10, "b")]),
        ],
    );
    obj.entry = Some(0x40_1010);
    obj.link_order = vec![unit("none1"), unit("a"), unit("b"), unit("none2")];
    obj
}

#[test]
fn constants_of_pe() {
    assert_eq!(SUBSYSTEM_NATIVE, pe::IMAGE_SUBSYSTEM_NATIVE);
    assert_eq!(SUBSYSTEM_WINDOWS_GUI, pe::IMAGE_SUBSYSTEM_WINDOWS_GUI);
    assert_eq!(SUBSYSTEM_WINDOWS_CUI, pe::IMAGE_SUBSYSTEM_WINDOWS_CUI);
    assert_eq!(SUBSYSTEM_POSIX_CUI, pe::IMAGE_SUBSYSTEM_POSIX_CUI);
    assert_eq!(SUBSYSTEM_WINDOWS_CE_GUI, pe::IMAGE_SUBSYSTEM_WINDOWS_CE_GUI);
    assert_eq!(SUBSYSTEM_EFI_APPLICATION, pe::IMAGE_SUBSYSTEM_EFI_APPLICATION);
    assert_eq!(SUBSYSTEM_EFI_BOOT_SERVICE_DRIVER, pe::IMAGE_SUBSYSTEM_EFI_BOOT_SERVICE_DRIVER);
    assert_eq!(SUBSYSTEM_EFI_RUNTIME_DRIVER, pe::IMAGE_SUBSYSTEM_EFI_RUNTIME_DRIVER);
    assert_eq!(SUBSYSTEM_EFI_ROM, pe::IMAGE_SUBSYSTEM_EFI_ROM);
    assert_eq!(SUBSYSTEM_XBOX, pe::IMAGE_SUBSYSTEM_XBOX);
    assert_eq!(MEM_READ, pe::IMAGE_SCN_MEM_READ);
    assert_eq!(MEM_WRITE, pe::IMAGE_SCN_MEM_WRITE);
    assert_eq!(MEM_EXECUTE, pe::IMAGE_SCN_MEM_EXECUTE);
    assert_eq!(pe::IMAGE_FILE_RELOCS_STRIPPED, 1);
}

#[test]
fn subsystem_names() {
    let mut i = info();
    for (subsystem, name) in [
        (pe::IMAGE_SUBSYSTEM_WINDOWS_GUI, "WINDOWS"),
        (pe::IMAGE_SUBSYSTEM_WINDOWS_CUI, "CONSOLE"),
        (pe::IMAGE_SUBSYSTEM_NATIVE, "NATIVE"),
        (pe::IMAGE_SUBSYSTEM_WINDOWS_CE_GUI, "WINDOWSCE"),
        (pe::IMAGE_SUBSYSTEM_EFI_APPLICATION, "EFI_APPLICATION"),
        (pe::IMAGE_SUBSYSTEM_EFI_BOOT_SERVICE_DRIVER, "EFI_BOOT_SERVICE_DRIVER"),
        (pe::IMAGE_SUBSYSTEM_EFI_RUNTIME_DRIVER, "EFI_RUNTIME_DRIVER"),
        (pe::IMAGE_SUBSYSTEM_EFI_ROM, "EFI_ROM"),
        (pe::IMAGE_SUBSYSTEM_XBOX, "XBOX"),
        (pe::IMAGE_SUBSYSTEM_POSIX_CUI, "POSIX"),
        (999, "WINDOWS"),
    ] {
        i.subsystem = subsystem;
        assert_eq!(i.subsystem_name(), name);
    }
}

#[test]
fn section_flags() {
    let mut i = info();
    assert_eq!(i.section_flags_str(".text"), "RE");
    assert_eq!(i.section_flags_str(".data"), "RW");
    assert_eq!(i.section_flags_str(".longest"), "R");
    assert_eq!(i.section_flags_str(".other"), "R");
    assert_eq!(i.section_characteristics.len(), 3);
    let r = pe::IMAGE_SCN_MEM_READ;
    let w = pe::IMAGE_SCN_MEM_WRITE;
    let x = pe::IMAGE_SCN_MEM_EXECUTE;
    for (flags, text) in [
        (r | w | x, "RWE"),
        (r | x, "RE"),
        (r | w, "RW"),
        (r, "R"),
        (w, "W"),
        (w | x, "R"),
        (x, "R"),
        (0, "R"),
    ] {
        i.section_characteristics = vec![("s".to_string(), flags)];
        assert_eq!(i.section_flags_str("s"), text);
    }
}

#[test]
fn response_file() {
    let text =
        generate_link_rsp(&sample(), &info(), "build/obj", &["one".to_string(), "two".to_string()])
            .unwrap();
    let expected = [
        "/BASE:0x400000",
        "/ENTRY:WinMain",
        "/SUBSYSTEM:WINDOWS,5.2",
        "/STACK:0x100000,0x1000",
        "/HEAP:0x200000,0x2000",
        "/VERSION:4.1",
        "/NODEFAULTLIB",
        "/FIXED",
        "/SECTION:.text,RE",
        "/SECTION:.data,RW",
        "/INCLUDE:one",
        "/INCLUDE:two",
        "build/obj/b.obj",
        "build/obj/a.obj",
        "build/obj/none1.obj",
        "build/obj/none2.obj",
    ];
    assert_eq!(text, expected.join("\n"));
}

#[test]
fn response_file_without_entry() {
    let mut obj = sample();
    let mut i = info();
    i.relocs_stripped = false;
    obj.entry = Some(0x40_1011);
    let text = generate_link_rsp(&obj, &i, "/abs/", &[]).unwrap();
    assert!(!text.contains("/ENTRY"));
    assert!(!text.contains("/FIXED"));
    assert!(text.contains("\n/abs/a.obj"));
    obj.entry = None;
    obj.link_order[1].object_path = "/root/a.obj".to_string();
    obj.link_order[2].object_path = String::new();
    let text = generate_link_rsp(&obj, &i, "", &[]).unwrap();
    assert!(text.contains("\n/root/a.obj\nnone1.obj"));
}

#[test]
fn paths_are_joined_like_typed_path() {
    for (dir, path) in [
        ("build/obj", "a.o"),
        ("build/obj/", "a.o"),
        ("", "a.o"),
        ("/", "a.o"),
        ("d", "/abs.o"),
        ("d", ""),
        ("d/", ""),
        ("", ""),
        ("d", "./x"),
        ("d", "../x"),
    ] {
        let mut obj = sample();
        obj.link_order = vec![unit("u")];
        obj.link_order[0].object_path = path.to_string();
        let text = generate_link_rsp(&obj, &info(), dir, &[]).unwrap();
        let last = text.rsplit('\n').next().unwrap();
        let joined = typed_path::Utf8UnixPathBuf::from(dir).join(path);
        assert_eq!(last, joined.as_str());
    }
}

fn pe_file() -> Vec<u8> {
    let mut d = vec![0u8; 0x400];
    d[0..2].copy_from_slice(b"MZ");
    d[0x3C..0x40].copy_from_slice(&0x80u32.to_le_bytes());
    d[0x80..0x84].copy_from_slice(b"PE\0\0");
    d[0x84..0x86].copy_from_slice(&0x14Cu16.to_le_bytes());
    d[0x86..0x88].copy_from_slice(&1u16.to_le_bytes());
    d[0x94..0x96].copy_from_slice(&224u16.to_le_bytes());
    d[0x96..0x98].copy_from_slice(&0x103u16.to_le_bytes());
    let opt = 0x98;
    d[opt..opt + 2].copy_from_slice(&0x10Bu16.to_le_bytes());
    d[opt + 28..opt + 32].copy_from_slice(&0x40_0000u32.to_le_bytes());
    d[opt + 40..opt + 42].copy_from_slice(&4u16.to_le_bytes());
    d[opt + 42..opt + 44].copy_from_slice(&1u16.to_le_bytes());
    d[opt + 48..opt + 50].copy_from_slice(&5u16.to_le_bytes());
    d[opt + 50..opt + 52].copy_from_slice(&2u16.to_le_bytes());
    d[opt + 68..opt + 70].copy_from_slice(&3u16.to_le_bytes());
    d[opt + 72..opt + 76].copy_from_slice(&0x10_0000u32.to_le_bytes());
    d[opt + 76..opt + 80].copy_from_slice(&0x1000u32.to_le_bytes());
    d[opt + 80..opt + 84].copy_from_slice(&0x20_0000u32.to_le_bytes());
    d[opt + 84..opt + 88].copy_from_slice(&0x2000u32.to_le_bytes());
    d[opt + 92..opt + 96].copy_from_slice(&16u32.to_le_bytes());
    let sec = opt + 224;
    d[sec..sec + 5].copy_from_slice(b".text");
    d[sec + 36..sec + 40].copy_from_slice(&0x6000_0020u32.to_le_bytes());
    d
}

#[test]
fn header_of_a_pe_file() {
    let i = PeHeaderInfo::parse(&pe_file()).unwrap();
    assert_eq!(i.image_base, 0x40_0000);
    assert_eq!((i.stack_reserve, i.stack_commit), (0x10_0000, 0x1000));
    assert_eq!((i.heap_reserve, i.heap_commit), (0x20_0000, 0x2000));
    assert_eq!((i.major_os_version, i.minor_os_version), (4, 1));
    assert_eq!((i.major_subsystem_version, i.minor_subsystem_version), (5, 2));
    assert_eq!(i.subsystem_name(), "CONSOLE");
    assert!(i.relocs_stripped);
    assert_eq!(i.section_characteristics, [(".text".to_string(), 0x6000_0020)]);
    assert!(PeHeaderInfo::parse(b"MZ").is_none());
}
