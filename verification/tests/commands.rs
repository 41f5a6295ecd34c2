use objsplit::addr_map::AddrMap;
use objsplit::cmd::apply::{apply_symbols, find_counterpart};
use objsplit::cmd::diff::{SymbolDiff, count_mismatches, diff_symbol, diff_symbols};
use objsplit::cmd::plan::{
    Pass, PlanOptions, coff_load_plan, coff_split_plan, pef_load_plan, pef_split_plan,
};
use objsplit::cmd::split::{
    BlockError, BlockSide, add_relocation, block_range, block_side, earlier_unit, entry_candidates,
    force_active_names, function_count, must_write, place_relocation, same_file, unit_entry,
};
use objsplit::obj::{
    ObjArchitecture, ObjInfo, ObjKind, ObjReloc, ObjRelocKind, ObjSection, ObjSectionKind,
    ObjSymbol, ObjSymbolKind, ObjSymbolScope, ObjUnit, SectionAddress,
};

fn section(name: &str, kind: ObjSectionKind, address: u64, data: Vec<u8>) -> ObjSection {
    ObjSection {
        name: name.to_string(),
        kind,
        address,
        size: data.len() as u64,
        data,
        align: 4,
        elf_index: 0,
        relocations: AddrMap::new(),
        virtual_address: None,
        file_offset: 0,
        section_known: true,
        splits: Vec::new(),
    }
}

fn symbol(name: &str, address: u64, section: usize, kind: ObjSymbolKind, size: u64) -> ObjSymbol {
    ObjSymbol {
        name: name.to_string(),
        address,
        section: Some(section),
        kind,
        size,
        ..Default::default()
    }
}

fn object(symbols: Vec<ObjSymbol>, sections: Vec<ObjSection>) -> ObjInfo {
    ObjInfo::new(ObjKind::Executable, ObjArchitecture::PowerPc, "x".to_string(), symbols, sections)
}

fn original() -> ObjInfo {
    object(
        vec![
            symbol("same", 0x100, 0, ObjSymbolKind::Function, 4),
            symbol("changed", 0x104, 0, ObjSymbolKind::Function, 4),
            symbol("outside", 0x10C, 0, ObjSymbolKind::Object, 0x100),
            symbol("gone", 0x200, 1, ObjSymbolKind::Object, 4),
            symbol("short", 0x304, 2, ObjSymbolKind::Object, 8),
            symbol("zero", 0x400, 3, ObjSymbolKind::Object, 4),
            symbol("unknown", 0x104, 0, ObjSymbolKind::Unknown, 4),
            symbol("unsized", 0x104, 0, ObjSymbolKind::Function, 0),
        ],
        vec![
            section(".text", ObjSectionKind::Code, 0x100, (0..16).collect()),
            section(".data", ObjSectionKind::Data, 0x200, vec![1; 4]),
            section(".more", ObjSectionKind::Data, 0x300, vec![2; 16]),
            section(".bss", ObjSectionKind::Bss, 0x400, vec![0; 4]),
        ],
    )
}

fn linked() -> ObjInfo {
    let mut text: Vec<u8> = (0..16).collect();
    text[4] = 0xAB;
    object(
        Vec::new(),
        vec![
            section(".text", ObjSectionKind::Code, 0x100, text),
            section(".more", ObjSectionKind::Data, 0x300, vec![2; 8]),
        ],
    )
}

#[test]
fn differences() {
    let auto = vec![false; 8];
    let found = diff_symbols(&original(), &linked(), &auto);
    let which: Vec<usize> = found.iter().map(|f| f.0).collect();
    assert_eq!(which, [1, 2, 3, 4]);
    match &found[0].1 {
        SymbolDiff::Differs { original, linked } => {
            assert_eq!((original.as_str(), linked.as_str()), ("04050607", "AB050607"));
        }
        other => panic!("{other:?}"),
    }
    assert!(matches!(found[1].1, SymbolDiff::OutsideOriginal));
    assert!(matches!(found[2].1, SymbolDiff::NoLinkedSection));
    assert!(matches!(found[3].1, SymbolDiff::OutsideLinked));
    // What was not compared is no mismatch.
    assert_eq!(count_mismatches(&found), 3);
}

#[test]
fn symbols_that_are_not_compared() {
    let mut obj = original();
    obj.symbols[1].flags.stripped = true;
    let mut auto = vec![false; 8];
    auto[3] = true;
    let which: Vec<usize> = diff_symbols(&obj, &linked(), &auto).iter().map(|f| f.0).collect();
    assert_eq!(which, [2, 4]);
    obj.symbols[4].section = None;
    let found = diff_symbols(&obj, &linked(), &auto);
    assert_eq!(found.len(), 1);
    assert_eq!(count_mismatches(&found), 0);
    assert!(diff_symbol(&obj, &linked(), &obj.symbols[0]).is_none());
}

#[test]
fn an_object_does_not_differ_from_itself() {
    let found = diff_symbols(&original(), &original(), &vec![false; 8]);
    assert_eq!(count_mismatches(&found), 0);
}

fn scoped(mut s: ObjSymbol, scope: ObjSymbolScope) -> ObjSymbol {
    s.flags.set_scope(scope);
    s
}

#[test]
fn symbols_are_brought_up_to_date() {
    let sections = || {
        vec![
            section(".text", ObjSectionKind::Code, 0x100, vec![0; 64]),
            section(".data", ObjSectionKind::Data, 0x200, vec![0; 64]),
        ]
    };
    let mut obj = object(
        vec![
            symbol("renamed", 0x100, 0, ObjSymbolKind::Function, 4),
            scoped(symbol("named", 0x104, 0, ObjSymbolKind::Function, 4), ObjSymbolScope::Local),
            symbol("absent", 0x108, 0, ObjSymbolKind::Function, 4),
            symbol("section", 0x10C, 0, ObjSymbolKind::Section, 4),
            scoped(symbol("weak", 0x110, 0, ObjSymbolKind::Function, 4), ObjSymbolScope::Global),
            symbol("far", 0x900, 0, ObjSymbolKind::Function, 4),
        ],
        sections(),
    );
    obj.symbols[1].size_known = true;
    let mut linked = object(
        vec![
            symbol("new_name", 0x100, 1, ObjSymbolKind::Function, 8),
            scoped(symbol("other", 0x104, 1, ObjSymbolKind::Function, 9), ObjSymbolScope::Weak),
            scoped(symbol("named", 0x104, 1, ObjSymbolKind::Object, 4), ObjSymbolScope::Global),
            symbol("new_section", 0x10C, 1, ObjSymbolKind::Function, 8),
            scoped(symbol("weak", 0x110, 1, ObjSymbolKind::Function, 4), ObjSymbolScope::Weak),
            symbol("added", 0x200, 0, ObjSymbolKind::Object, 12),
            symbol("added_too", 0x200, 0, ObjSymbolKind::Object, 12),
            symbol("auto", 0x204, 0, ObjSymbolKind::Object, 12),
            symbol("unknown", 0x208, 0, ObjSymbolKind::Unknown, 12),
            symbol("nowhere", 0x800, 0, ObjSymbolKind::Object, 12),
        ],
        sections(),
    );
    // The sections of the linked object are in another order.
    linked.sections.swap(0, 1);
    let mut auto = vec![false; 10];
    auto[7] = true;
    assert_eq!(find_counterpart(&obj.symbols[0], &linked), Some(0));
    assert_eq!(find_counterpart(&obj.symbols[1], &linked), Some(2));
    assert_eq!(find_counterpart(&obj.symbols[2], &linked), None);
    assert_eq!(find_counterpart(&obj.symbols[5], &linked), None);
    apply_symbols(&mut obj, &linked, &auto);
    let s = &obj.symbols;
    assert_eq!((s[0].name.as_str(), s[0].size, s[0].size_known), ("new_name", 8, true));
    // A local symbol does not become global.
    assert_eq!((s[1].name.as_str(), s[1].size), ("named", 4));
    assert_eq!((s[1].flags.scope(), s[1].kind), (ObjSymbolScope::Local, ObjSymbolKind::Function));
    assert_eq!((s[2].name.as_str(), s[2].size_known), ("absent", false));
    assert_eq!((s[3].name.as_str(), s[3].size), ("section", 4));
    assert_eq!(s[4].flags.scope(), ObjSymbolScope::Weak);
    assert_eq!(s[5].name, "far");
    // What is missing is added, at the section of the object.
    let added: Vec<(&str, Option<usize>, u64)> =
        s[6..].iter().map(|x| (x.name.as_str(), x.section, x.address)).collect();
    assert_eq!(added, [("new_section", Some(0), 0x10C), ("added", Some(1), 0x200)]);
}

#[test]
fn files_that_must_be_written() {
    assert!(must_write(None, b"abc"));
    assert!(!must_write(Some(b"abc"), b"abc"));
    assert!(must_write(Some(b"abd"), b"abc"));
    assert!(must_write(Some(b"ab"), b"abc"));
    assert!(!must_write(Some(b""), b""));
    assert!(same_file(3, 3, 7, 7));
    assert!(!same_file(3, 3, 7, 8));
    assert!(!same_file(3, 4, 7, 7));
}

fn at(section: usize, address: u32) -> SectionAddress {
    SectionAddress { section, address }
}

#[test]
fn blocked_relocations() {
    assert_eq!(block_side(true, false), Ok(BlockSide::Source));
    assert_eq!(block_side(false, true), Ok(BlockSide::Target));
    assert_eq!(block_side(true, true), Err(BlockError::Both));
    assert_eq!(block_side(false, false), Err(BlockError::Neither));
    let mut obj = original();
    block_range(&mut obj, BlockSide::Source, at(0, 0x100), None);
    block_range(&mut obj, BlockSide::Source, at(0, 0x108), Some(at(0, 0x110)));
    block_range(&mut obj, BlockSide::Target, at(1, u32::MAX), None);
    assert_eq!(
        obj.blocked_relocation_sources,
        [(at(0, 0x100), at(0, 0x101)), (at(0, 0x108), at(0, 0x110))]
    );
    assert_eq!(obj.blocked_relocation_targets, [(at(1, u32::MAX), at(1, 0))]);
    // A range replaces one with the same start.
    block_range(&mut obj, BlockSide::Source, at(0, 0x100), Some(at(0, 0x104)));
    assert_eq!(obj.blocked_relocation_sources[0], (at(0, 0x100), at(0, 0x104)));
    assert_eq!(obj.blocked_relocation_sources.len(), 2);
}

#[test]
fn added_relocations() {
    let mut obj = original();
    add_relocation(&mut obj, at(0, 0x104), Some(3), "unused", ObjRelocKind::PpcRel24, -8);
    assert_eq!(
        obj.sections[0].relocations.get(0x104),
        Some(&ObjReloc {
            kind: ObjRelocKind::PpcRel24,
            target_symbol: 3,
            addend: -8,
            module: None
        })
    );
    assert_eq!(obj.symbols.len(), 8);
    add_relocation(&mut obj, at(0, 0x104), None, "sin__Fd", ObjRelocKind::Absolute, 0);
    assert_eq!(obj.sections[0].relocations.len(), 1);
    assert_eq!(obj.sections[0].relocations.get(0x104).unwrap().target_symbol, 8);
    assert_eq!(obj.symbols[8].name, "sin__Fd");
    assert_eq!(obj.symbols[8].demangled_name.as_deref(), Some("sin(double)"));
    assert_eq!(obj.symbols[8].section, None);
    place_relocation(
        &mut obj,
        at(1, 0x200),
        None,
        "given",
        Some("plain".to_string()),
        ObjRelocKind::Absolute,
        1,
    );
    assert_eq!(obj.symbols[9].demangled_name.as_deref(), Some("plain"));
}

#[test]
fn duplicate_object_paths() {
    let unit = |name: &str, path: &str| ObjUnit {
        name: name.to_string(),
        autogenerated: false,
        object_path: path.to_string(),
    };
    let units = vec![unit("a", "x/a.o"), unit("b", "x/b.o"), unit("c", "x/a.o"), unit("d", "x/a.o")];
    assert_eq!(earlier_unit(&units, 0), None);
    assert_eq!(earlier_unit(&units, 1), None);
    assert_eq!(earlier_unit(&units, 2), Some(0));
    assert_eq!(earlier_unit(&units, 3), Some(0));
}

#[test]
fn entries_of_units() {
    let unit = |name: &str, path: &str, autogenerated: bool| ObjUnit {
        name: name.to_string(),
        autogenerated,
        object_path: path.to_string(),
    };
    let units = vec![
        unit("a.c", "x/a.o", false),
        unit("b.c", "b.o", true),
        unit("c.c", "x/a.o", false),
        unit("d.c", "/d.o", false),
    ];
    let entry = |object: &str, name: &str, autogenerated: bool| {
        Ok((object.to_string(), name.to_string(), autogenerated))
    };
    assert_eq!(unit_entry(&units, 0, "build/obj"), entry("build/obj/x/a.o", "a.c", false));
    assert_eq!(unit_entry(&units, 1, "build/obj/"), entry("build/obj/b.o", "b.c", true));
    assert_eq!(unit_entry(&units, 2, "build/obj"), Err(0));
    assert_eq!(unit_entry(&units, 3, "build/obj"), entry("/d.o", "d.c", false));
    assert_eq!(unit_entry(&units, 1, ""), entry("b.o", "b.c", true));
}

#[test]
fn entry_points() {
    let mut obj = original();
    assert_eq!(entry_candidates(&obj), []);
    obj.entry = Some(0x104);
    assert_eq!(entry_candidates(&obj), [1, 6, 7]);
    obj.entry = Some(0x1_0000_0104);
    assert_eq!(entry_candidates(&obj), [1, 6, 7]);
    obj.entry = Some(0x999);
    assert_eq!(entry_candidates(&obj), []);
    obj.entry = Some(0x104);
    obj.kind = ObjKind::Relocatable;
    assert_eq!(entry_candidates(&obj), []);
}

#[test]
fn names_that_the_linker_keeps() {
    let names = vec!["a".to_string(), "b".to_string()];
    assert_eq!(force_active_names(&names, None), ["a", "b"]);
    assert_eq!(force_active_names(&names, Some("b")), ["a", "b"]);
    assert_eq!(force_active_names(&names, Some("main")), ["a", "b", "main"]);
}

#[test]
fn functions_are_counted() {
    assert_eq!(function_count(&original()), 3);
    assert_eq!(function_count(&linked()), 0);
}

#[test]
fn plans() {
    let mut o = PlanOptions {
        symbols_known: false,
        quick_analysis: false,
        detect_objects: true,
        detect_strings: true,
        no_update: false,
        has_map: true,
        has_splits: true,
        has_symbols: true,
        has_image_base: true,
    };
    assert_eq!(
        pef_load_plan(&o),
        [
            Pass::ReadMap,
            Pass::ReadSplits,
            Pass::ReadSymbols,
            Pass::ConfiguredRelocations,
            Pass::Signatures,
            Pass::FunctionBoundaries,
            Pass::SignaturesPost,
            Pass::ConstructorTables
        ]
    );
    assert_eq!(
        coff_load_plan(&o),
        [
            Pass::BaseRelocations,
            Pass::AnalyzeCode,
            Pass::ReadMap,
            Pass::ReadSplits,
            Pass::ReadSymbols,
            Pass::ConfiguredRelocations
        ]
    );
    assert_eq!(
        pef_split_plan(&o),
        [
            Pass::TrackRelocations,
            Pass::DetectObjects,
            Pass::DetectStrings,
            Pass::UpdateSplits,
            Pass::WriteSymbols,
            Pass::WriteSplits
        ]
    );
    assert_eq!(
        coff_split_plan(&o),
        [
            Pass::DetectObjects,
            Pass::DetectStrings,
            Pass::DetectRtti,
            Pass::FunctionSizes,
            Pass::FunctionSplits,
            Pass::UpdateSplits,
            Pass::WriteSymbols,
            Pass::WriteSplits
        ]
    );
    o.quick_analysis = true;
    o.has_map = false;
    o.has_splits = false;
    assert_eq!(
        pef_load_plan(&o),
        [
            Pass::ReadSymbols,
            Pass::ConfiguredRelocations,
            Pass::Signatures,
            Pass::SignaturesPost,
            Pass::ConstructorTables
        ]
    );
    o.symbols_known = true;
    o.no_update = true;
    o.detect_strings = false;
    o.has_image_base = false;
    assert_eq!(
        pef_load_plan(&o),
        [Pass::ReadSymbols, Pass::ConfiguredRelocations, Pass::ConstructorTables]
    );
    assert_eq!(
        coff_load_plan(&o),
        [Pass::AnalyzeCode, Pass::ReadSymbols, Pass::ConfiguredRelocations]
    );
    assert_eq!(pef_split_plan(&o), [Pass::TrackRelocations, Pass::UpdateSplits]);
    assert_eq!(
        coff_split_plan(&o),
        [Pass::DetectRtti, Pass::FunctionSizes, Pass::UpdateSplits]
    );
}
