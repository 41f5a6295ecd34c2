use objsplit::addr_map::AddrMap;
use objsplit::bytes::{
    low_word, read_be_i16, read_be_i32, read_be_u16, read_be_u32, word_le,
};
use objsplit::obj::{
    ObjArchitecture, ObjError, ObjInfo, ObjKind, ObjSection, ObjSectionKind, ObjSymbol,
    ObjSymbolFlagSet, ObjSymbolKind, ObjSymbolScope,
};
use objsplit::text::{decode_text, same_bytes, same_text};

#[test]
fn words() {
    let d = [0x80, 0x01, 0x02, 0xFF, 0xFE];
    assert_eq!(read_be_u32(&d, 0), 0x8001_02FF);
    assert_eq!(read_be_i32(&d, 0), 0x8001_02FFu32 as i32);
    assert_eq!(read_be_u16(&d, 3), 0xFFFE);
    assert_eq!(read_be_i16(&d, 3), -2);
    assert_eq!(word_le(&d, 1), 0xFEFF_0201);
    assert_eq!(low_word(0x1_2345_6789), 0x2345_6789);
    for x in [0u32, 1, 0x0102_0304, u32::MAX] {
        assert_eq!(read_be_u32(&x.to_be_bytes(), 0), x);
        assert_eq!(word_le(&x.to_le_bytes(), 0), x);
    }
}

#[test]
fn texts() {
    assert_eq!(decode_text("grün".as_bytes()).as_deref(), Some("grün"));
    assert_eq!(decode_text(&[0xC3]), None);
    assert_eq!(decode_text(&[]).as_deref(), Some(""));
    assert!(same_text("ab", "ab"));
    assert!(!same_text("ab", "abc"));
    assert!(!same_text("ab", "aä"));
    assert!(same_bytes(&[1, 2], &[1, 2]));
    assert!(!same_bytes(&[1, 2], &[1, 3]));
    assert!(!same_bytes(&[1], &[1, 3]));
}

#[test]
fn addresses_stay_in_order() {
    let mut m = AddrMap::new();
    for (k, v) in [(5u32, 'a'), (1, 'b'), (9, 'c'), (5, 'd')] {
        m.insert(k, v);
    }
    assert_eq!(m.len(), 3);
    assert_eq!(m.entry(0), &(1, 'b'));
    assert_eq!(m.entry(1), &(5, 'd'));
    assert_eq!(m.get(9), Some(&'c'));
    assert_eq!(m.get(2), None);
    assert!(m.contains(5));
    assert_eq!(m.position(6), 2);
    assert_eq!(m.pop_first(), Some((1, 'b')));
    assert_eq!(m.pop_first(), Some((5, 'd')));
    assert_eq!(m.pop_first(), Some((9, 'c')));
    assert_eq!(m.pop_first(), None);
}

#[test]
fn scopes() {
    let mut f = ObjSymbolFlagSet { exported: true, ..ObjSymbolFlagSet::none() };
    assert_eq!(f.scope(), ObjSymbolScope::Unknown);
    for scope in [
        ObjSymbolScope::Global,
        ObjSymbolScope::Weak,
        ObjSymbolScope::Local,
        ObjSymbolScope::Unknown,
    ] {
        f.set_scope(scope);
        assert_eq!(f.scope(), scope);
        assert!(f.exported);
    }
}

fn section(address: u64, size: u64, data: Vec<u8>) -> ObjSection {
    ObjSection {
        name: String::new(),
        kind: ObjSectionKind::Data,
        address,
        size,
        data,
        align: 1,
        elf_index: 0,
        relocations: AddrMap::new(),
        virtual_address: None,
        file_offset: 0,
        section_known: true,
        splits: Vec::new(),
    }
}

#[test]
fn sections_by_address() {
    let obj = ObjInfo::new(
        ObjKind::Relocatable,
        ObjArchitecture::X86,
        String::new(),
        Vec::new(),
        vec![section(0x10, 0x10, vec![0, 1, 2, 3]), section(0x18, 0x10, Vec::new())],
    );
    assert_eq!(obj.section_at_address(0xF), None);
    assert_eq!(obj.section_at_address(0x10), Some(0));
    assert_eq!(obj.section_at_address(0x1F), Some(0));
    assert_eq!(obj.section_at_address(0x20), Some(1));
    assert_eq!(obj.section_at_address(0x28), None);
    assert_eq!(obj.sections[0].data_range(0x11, 0x13), Some(&[1u8, 2][..]));
    assert_eq!(obj.sections[0].data_range(0x14, 0x14), Some(&[][..]));
    assert_eq!(obj.sections[0].data_range(0x11, 0x15), None);
    assert_eq!(obj.sections[0].data_range(0xF, 0x11), None);
    assert_eq!(obj.sections[0].data_range(0x12, 0x11), None);
}

#[test]
fn symbols_by_kind() {
    let symbol = |kind: ObjSymbolKind| ObjSymbol {
        address: 0x20,
        section: Some(1),
        kind,
        ..Default::default()
    };
    let mut obj = ObjInfo::new(
        ObjKind::Relocatable,
        ObjArchitecture::X86,
        String::new(),
        Vec::new(),
        Vec::new(),
    );
    assert_eq!(obj.add_symbol(symbol(ObjSymbolKind::Object)), 0);
    assert_eq!(obj.add_symbol(symbol(ObjSymbolKind::Function)), 1);
    let find = |o: &ObjInfo, sec: usize, va: u32, k| o.kind_at_section_address(sec, va, k);
    assert_eq!(find(&obj, 1, 0x20, ObjSymbolKind::Function), Ok(Some(1)));
    assert_eq!(find(&obj, 0, 0x20, ObjSymbolKind::Function), Ok(None));
    assert_eq!(find(&obj, 1, 0x21, ObjSymbolKind::Function), Ok(None));
    obj.replace_symbol(0, symbol(ObjSymbolKind::Function));
    assert_eq!(find(&obj, 1, 0x20, ObjSymbolKind::Function), Err(ObjError::AmbiguousSymbol));
}
