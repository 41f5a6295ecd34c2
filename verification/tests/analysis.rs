use std::collections::VecDeque;

use objsplit::addr_map::AddrMap;
use objsplit::analysis::insn::{
    CodeSection, X86Code, X86Flow, X86Insn, X86Operand, code_fits, decode_valid, find_code, flow_at,
    insn_at, snapshot_code, snapshot_data,
};
use objsplit::analysis::rtti::{
    class_inner, cstr_at, detect_rtti, read_u32_le, rtti_col_symbol, rtti_vtable_symbol,
};
use objsplit::analysis::x86::{
    DecodedSpans, Progress, accepts_pointer, add_rel32, analyze_x86_functions,
    compute_x86_function_sizes, end_behind_tables, find_cap, follow_insn, is_padding,
    is_within_decoded_span,
};
use objsplit::obj::{
    ObjArchitecture, ObjError, ObjInfo, ObjKind, ObjRelocKind, ObjSection, ObjSectionKind,
    ObjSymbol, ObjSymbolKind,
};

fn section(name: &str, kind: ObjSectionKind, address: u64, data: Vec<u8>) -> ObjSection {
    ObjSection {
        name: name.to_string(),
        kind,
        address,
        size: data.len() as u64,
        data,
        align: 4,
        elf_index: 0,
        relocations: AddrMap::new(),
        virtual_address: None,
        file_offset: 0,
        section_known: true,
        splits: Vec::new(),
    }
}

fn symbol(name: &str, address: u64, section: usize, kind: ObjSymbolKind) -> ObjSymbol {
    ObjSymbol {
        name: name.to_string(),
        address,
        section: Some(section),
        kind,
        ..Default::default()
    }
}

fn words(w: &[u32]) -> Vec<u8> {
    w.iter().flat_map(|x| x.to_le_bytes()).collect()
}

const BASE: u32 = 0x40_1000;

/// Three functions: one calls and jumps to the second, which has a jump table, and
/// only data points to the third.
fn code() -> Vec<u8> {
    let mut c = Vec::new();
    c.extend_from_slice(&[0xE8, 0x0B, 0, 0, 0]); // 00: call 10
    c.extend_from_slice(&[0x75, 0x01]); // 05: jnz 08
    c.push(0x90); // 07: nop
    c.extend_from_slice(&[0xE9, 0x03, 0, 0, 0]); // 08: jmp 10
    c.extend_from_slice(&[0xCC; 3]); // 0D: padding
    c.extend_from_slice(&[0xFF, 0x24, 0x85]); // 10: jmp [eax*4+20]
    c.extend_from_slice(&(BASE + 0x20).to_le_bytes());
    c.push(0xC3); // 17: ret
    c.extend_from_slice(&[0x90; 8]); // 18: padding
    c.extend_from_slice(&words(&[BASE + 0x10, BASE + 0x17, 0xFFFF_FFFF])); // 20: table
    c.extend_from_slice(&[0; 4]);
    c.extend_from_slice(&[0x55, 0xC3]); // 30: push ebp; ret
    c.extend_from_slice(&[0; 14]);
    c
}

fn program() -> ObjInfo {
    let data = words(&[BASE + 0x30, BASE + 2, BASE + 0x10, 7]);
    let mut obj = ObjInfo::new(
        ObjKind::Executable,
        ObjArchitecture::X86,
        "x".to_string(),
        vec![symbol("stale", (BASE + 9) as u64, 0, ObjSymbolKind::Function)],
        vec![
            section(".text", ObjSectionKind::Code, BASE as u64, code()),
            section(".data", ObjSectionKind::Data, 0x40_2000, data),
        ],
    );
    obj.entry = Some(BASE as u64);
    obj
}

fn function<'a>(obj: &'a ObjInfo, va: u32) -> &'a ObjSymbol {
    obj.symbols
        .iter()
        .find(|s| s.address == va as u64 && s.kind == ObjSymbolKind::Function)
        .unwrap()
}

#[test]
fn functions_are_found() {
    let mut obj = program();
    analyze_x86_functions(&mut obj).unwrap();
    let mut names: Vec<&str> = obj
        .symbols
        .iter()
        .filter(|s| s.kind == ObjSymbolKind::Function)
        .map(|s| s.name.as_str())
        .collect();
    names.sort();
    assert_eq!(names, ["fn_00401000", "fn_00401010", "fn_00401030"]);
    // A function symbol inside an instruction is none.
    assert_eq!(obj.symbols[0].name, "stale");
    assert_eq!(obj.symbols[0].kind, ObjSymbolKind::Unknown);
}

#[test]
fn only_transfers_between_functions_are_relocated() {
    let mut obj = program();
    analyze_x86_functions(&mut obj).unwrap();
    let relocs = &obj.sections[0].relocations;
    assert_eq!(relocs.len(), 2);
    for at in [BASE + 1, BASE + 9] {
        let r = relocs.get(at).unwrap();
        assert_eq!(r.kind, ObjRelocKind::X86Rel32);
        assert_eq!(r.addend, 0);
        assert_eq!(obj.symbols[r.target_symbol].name, "fn_00401010");
    }
    assert_eq!(obj.sections[1].relocations.len(), 0);
}

#[test]
fn sizes_count_padding_and_tables() {
    let mut obj = program();
    let data = analyze_x86_functions(&mut obj).unwrap();
    compute_x86_function_sizes(&mut obj, data).unwrap();
    assert_eq!(function(&obj, BASE).size, 0x10);
    assert_eq!(function(&obj, BASE + 0x10).size, 0x18);
    assert_eq!(function(&obj, BASE + 0x30).size, 2);
    assert!(function(&obj, BASE).size_known);
    assert!(!obj.symbols[0].size_known);
}

#[test]
fn later_symbols_cap_sizes() {
    let mut obj = program();
    let data = analyze_x86_functions(&mut obj).unwrap();
    obj.symbols.push(symbol("late", (BASE + 0x14) as u64, 0, ObjSymbolKind::Function));
    compute_x86_function_sizes(&mut obj, data).unwrap();
    assert_eq!(function(&obj, BASE + 0x10).size, 4);
    let mut obj = program();
    let data = analyze_x86_functions(&mut obj).unwrap();
    let i = obj.symbols.iter().position(|s| s.address == BASE as u64).unwrap();
    obj.symbols[i].size = 3;
    obj.symbols[i].size_known = true;
    compute_x86_function_sizes(&mut obj, data).unwrap();
    assert_eq!(obj.symbols[i].size, 3);
}

#[test]
fn two_functions_at_one_address() {
    let mut obj = program();
    for name in ["one", "two"] {
        obj.symbols.push(symbol(name, (BASE + 0x10) as u64, 0, ObjSymbolKind::Function));
    }
    assert_eq!(analyze_x86_functions(&mut obj).err(), Some(ObjError::AmbiguousSymbol));
    let mut obj = program();
    let data = analyze_x86_functions(&mut obj).unwrap();
    obj.symbols.push(symbol("two", (BASE + 0x10) as u64, 0, ObjSymbolKind::Function));
    assert_eq!(compute_x86_function_sizes(&mut obj, data), Err(ObjError::AmbiguousSymbol));
}

#[test]
fn spans() {
    let mut s = DecodedSpans::new();
    s.insert(0x10, 4);
    s.insert(0x12, 1);
    for (va, inside) in [(0xF, false), (0x10, true), (0x12, true), (0x13, true), (0x14, false)] {
        assert_eq!(is_within_decoded_span(va, &s), inside);
    }
    assert_eq!(s.end_of(0x10), Some(0x14));
    assert_eq!(s.end_of(0x11), None);
    // The nearest start is 0x12, whose span ends at 0x13.
    assert!(!s.inside_nearest(0x13));
    assert!(s.inside_nearest(0x11));
    assert!(!s.inside_nearest(0x10));
}

#[test]
fn relocations_use_the_symbol_at_the_target() {
    let mut obj = program();
    obj.symbols.push(symbol("object", (BASE + 0x30) as u64, 0, ObjSymbolKind::Object));
    obj.symbols.push(symbol("real", (BASE + 0x30) as u64, 0, ObjSymbolKind::Function));
    add_rel32(&mut obj, 0, BASE + 0x20, 0, BASE + 0x30);
    assert_eq!(obj.sections[0].relocations.get(BASE + 0x20).unwrap().target_symbol, 2);
    // One that is there stays.
    add_rel32(&mut obj, 0, BASE + 0x20, 0, BASE + 9);
    assert_eq!(obj.sections[0].relocations.get(BASE + 0x20).unwrap().target_symbol, 2);
    let n = obj.symbols.len();
    add_rel32(&mut obj, 0, BASE + 0x24, 0, BASE + 0x3C);
    assert_eq!(obj.symbols.len(), n + 1);
    assert_eq!(obj.symbols[n].name, "fn_0040103C");
}

#[test]
fn decoding() {
    let snap = snapshot_code(&program().sections);
    assert_eq!(snap.len(), 1);
    assert_eq!(find_code(&snap, BASE + 0x3F), Some(0));
    assert_eq!(find_code(&snap, BASE + 0x40), None);
    assert_eq!(find_code(&snap, BASE - 1), None);
    let call = insn_at(&snap[0], BASE);
    assert!(call.valid);
    assert_eq!((call.len, call.code, call.op0), (5, X86Code::CallRel32, X86Operand::NearBranch32));
    assert_eq!(call.near_branch, BASE + 0x10);
    assert_eq!(flow_at(&snap[0], BASE), X86Flow::Call);
    let jump = insn_at(&snap[0], BASE + 0x10);
    assert_eq!((jump.len, jump.op0, jump.displacement), (7, X86Operand::Memory, BASE as u64 + 0x20));
    assert_eq!(flow_at(&snap[0], BASE + 0x10), X86Flow::IndirectBranch);
    assert_eq!(flow_at(&snap[0], BASE + 5), X86Flow::ConditionalBranch);
    assert_eq!(flow_at(&snap[0], BASE + 8), X86Flow::UnconditionalBranch);
    assert_eq!(flow_at(&snap[0], BASE + 0x17), X86Flow::Return);
    assert!(is_padding(insn_at(&snap[0], BASE + 7)));
    assert!(is_padding(insn_at(&snap[0], BASE + 0xD)));
    assert!(!is_padding(call));
    assert!(decode_valid(BASE, &snap));
    assert!(!decode_valid(BASE + 0x100, &snap));
    let bad = vec![CodeSection { index: 0, base: 0, data: vec![0x0F, 0xFF, 0xFF] }];
    assert!(!decode_valid(1, &vec![CodeSection { index: 0, base: 0, data: vec![0, 0xE8] }]));
    assert!(!decode_valid(3, &bad));
    assert_eq!(snapshot_data(&program().sections).len(), 1);
}

#[test]
fn pointers_into_code() {
    let snap = snapshot_code(&program().sections);
    let mut spans = DecodedSpans::new();
    spans.insert(BASE, 5);
    let mut pending = AddrMap::new();
    pending.insert(BASE + 0x10, ());
    assert!(accepts_pointer(&snap, &spans, &pending, BASE + 0x30, true));
    assert!(!accepts_pointer(&snap, &spans, &pending, BASE + 0x30, false));
    assert!(!accepts_pointer(&snap, &spans, &pending, BASE + 2, true));
    assert!(!accepts_pointer(&snap, &spans, &pending, BASE + 0x10, true));
    assert!(!accepts_pointer(&snap, &spans, &pending, 7, true));
}

struct Walk {
    obj: ObjInfo,
    progress: Progress,
    flow: VecDeque<u32>,
    tables: Vec<u32>,
}

fn follow(insn: X86Insn, kind: X86Flow, pending: &[u32]) -> (Result<(), ObjError>, Walk) {
    let mut w = Walk {
        obj: program(),
        progress: Progress {
            pending: AddrMap::new(),
            spans: DecodedSpans::new(),
            raw_ends: AddrMap::new(),
            tables: Vec::new(),
        },
        flow: VecDeque::new(),
        tables: Vec::new(),
    };
    for va in pending {
        w.progress.pending.insert(*va, ());
    }
    let snap = snapshot_code(&w.obj.sections);
    let r = follow_insn(
        &mut w.obj,
        &snap,
        &mut w.progress,
        &AddrMap::new(),
        &mut w.flow,
        &mut w.tables,
        0,
        BASE + 0x20,
        insn,
        kind,
    );
    (r, w)
}

fn insn(op0: X86Operand, near_branch: u32, displacement: u64, code: X86Code) -> X86Insn {
    X86Insn { valid: true, len: 6, op0, near_branch, displacement, code, nop: false }
}

#[test]
fn control_flow_of_given_instructions() {
    let near = |t: u32| insn(X86Operand::NearBranch32, t, 0, X86Code::Other);
    let next = BASE + 0x26;
    for kind in [X86Flow::Next, X86Flow::IndirectCall, X86Flow::XbeginXabortXend] {
        let (r, w) = follow(near(BASE), kind, &[]);
        assert_eq!(r, Ok(()));
        assert_eq!(w.flow, [next]);
    }
    for kind in [X86Flow::Return, X86Flow::Exception, X86Flow::Interrupt] {
        assert_eq!(follow(near(BASE), kind, &[]).1.flow, []);
    }
    assert_eq!(follow(near(BASE), X86Flow::ConditionalBranch, &[]).1.flow, [next, BASE]);
    assert_eq!(follow(near(3), X86Flow::ConditionalBranch, &[]).1.flow, [next]);
    // A call adds a function, a pending entry and a relocation.
    let (_, w) = follow(near(BASE + 0x30), X86Flow::Call, &[]);
    assert_eq!(w.flow, [next]);
    assert!(w.progress.pending.contains(BASE + 0x30));
    assert!(w.obj.sections[0].relocations.contains(BASE + 0x22));
    let rel32 = insn(X86Operand::NearBranch32, BASE + 0x30, 0, X86Code::CallRel32);
    assert!(follow(rel32, X86Flow::Call, &[]).1.obj.sections[0].relocations.contains(BASE + 0x21));
    let far = insn(X86Operand::Other, BASE + 0x30, 0, X86Code::Other);
    assert_eq!(follow(far, X86Flow::Call, &[]).1.obj.symbols.len(), 1);
    // A jump stays in the function unless a function is known at its target.
    let (_, w) = follow(near(BASE + 0x30), X86Flow::UnconditionalBranch, &[]);
    assert_eq!(w.flow, [BASE + 0x30]);
    assert_eq!(w.obj.sections[0].relocations.len(), 0);
    let (_, w) = follow(near(BASE + 0x30), X86Flow::UnconditionalBranch, &[BASE + 0x30]);
    assert_eq!(w.flow, []);
    assert!(w.obj.sections[0].relocations.contains(BASE + 0x22));
    let (_, w) = follow(near(BASE + 9), X86Flow::UnconditionalBranch, &[]);
    assert_eq!(w.flow, []);
    assert!(w.obj.sections[0].relocations.contains(BASE + 0x22));
    // An indirect jump through memory in code names a jump table.
    let table = insn(X86Operand::Memory, 0, (BASE + 0x20) as u64, X86Code::Other);
    let (_, w) = follow(table, X86Flow::IndirectBranch, &[]);
    assert_eq!((w.flow, w.tables), (VecDeque::from([next]), vec![BASE + 0x20]));
    let none = insn(X86Operand::Memory, 0, 7, X86Code::Other);
    assert_eq!(follow(none, X86Flow::IndirectBranch, &[]).1.tables, []);
}

#[test]
fn ends_of_given_functions() {
    let obj = program();
    let snap = snapshot_code(&obj.sections);
    assert_eq!(find_cap(&obj.symbols, &snap[0], BASE), BASE + 9);
    assert_eq!(find_cap(&obj.symbols, &snap[0], BASE + 9), BASE + 0x40);
    let tables = vec![(BASE, BASE + 0x20), (BASE + 0x10, BASE + 0x20)];
    let end = |va: u32, raw: u32, cap: u32, padded: u32| {
        end_behind_tables(&snap, &tables, &snap[0], va, raw, cap, padded)
    };
    assert_eq!(end(BASE + 0x10, BASE + 0x18, BASE + 0x30, BASE + 0x20), BASE + 0x28);
    assert_eq!(end(BASE + 0x10, BASE + 0x18, BASE + 0x24, BASE + 0x20), BASE + 0x24);
    assert_eq!(end(BASE + 0x10, BASE + 0x22, BASE + 0x30, BASE + 0x22), BASE + 0x22);
    assert_eq!(end(BASE + 0x11, BASE + 0x18, BASE + 0x30, BASE + 0x20), BASE + 0x20);
    assert_eq!(end(BASE + 0x11, BASE + 0x18, BASE + 0x1A, BASE + 0x20), BASE + 0x1A);
}

#[test]
fn words_and_strings() {
    assert_eq!(read_u32_le(&[1, 2, 3, 4, 5], 1), Some(0x0504_0302));
    assert_eq!(read_u32_le(&[1, 2, 3, 4, 5], 2), None);
    assert_eq!(cstr_at(b"ab\0c", 0).as_deref(), Some("ab"));
    assert_eq!(cstr_at(b"ab\0c", 3), None);
    assert_eq!(cstr_at(b"ab\0c", 9), None);
    assert_eq!(cstr_at(b"\xFF\0", 0), None);
}

#[test]
fn class_names() {
    assert_eq!(class_inner(".?AVFoo@@"), "Foo@@");
    assert_eq!(class_inner(".?AVBar@ns@@"), "Bar@ns@@");
    assert_eq!(class_inner(".?AUBaz@@"), "Baz@@");
    assert_eq!(class_inner("Foo@@"), "Foo@@");
    assert_eq!(rtti_col_symbol(".?AVFoo@@"), "??_R4Foo@@6B@");
    assert_eq!(rtti_vtable_symbol(".?AVFoo@@"), "??_7Foo@@6B@");
}

fn rtti_program() -> ObjInfo {
    let data_base = 0x40_3000u32;
    let mut data = words(&[0x40_2000, 0]);
    data.extend_from_slice(b".?AVFoo@@\0\0\0");
    data.extend_from_slice(&words(&[0x40_2000, 1]));
    data.extend_from_slice(b".?AVBad@@\0\0\0");
    let rdata = words(&[
        // A locator at 0, then a vtable behind its pointer.
        0,
        0,
        0,
        data_base,
        0x40_2000,
        0x40_2000,
        BASE,
        // A pointer to the locator with data behind it.
        0x40_2000,
        data_base,
    ]);
    ObjInfo::new(
        ObjKind::Executable,
        ObjArchitecture::X86,
        "x".to_string(),
        Vec::new(),
        vec![
            section(".text", ObjSectionKind::Code, BASE as u64, vec![0xC3; 16]),
            section(".rdata", ObjSectionKind::ReadOnlyData, 0x40_2000, rdata),
            section(".data", ObjSectionKind::Data, data_base as u64, data),
        ],
    )
}

#[test]
fn rtti_structures() {
    let mut obj = rtti_program();
    detect_rtti(&mut obj).unwrap();
    let found: Vec<(&str, u64, u64, bool)> =
        obj.symbols.iter().map(|s| (s.name.as_str(), s.address, s.size, s.size_known)).collect();
    assert_eq!(
        found,
        [
            ("??_R0?AVFoo@@@8", 0x40_3000, 18, true),
            ("??_R4Foo@@6B@", 0x40_2000, 20, true),
            ("??_7Foo@@6B@", 0x40_2018, 0, false),
        ]
    );
    assert!(obj.symbols.iter().all(|s| s.kind == ObjSymbolKind::Object));
    assert_eq!(obj.symbols[0].section, Some(2));
    assert_eq!(obj.symbols[2].section, Some(1));
    // Found again, nothing is added.
    detect_rtti(&mut obj).unwrap();
    assert_eq!(obj.symbols.len(), 3);
}

#[test]
fn named_addresses_stay() {
    let mut obj = rtti_program();
    obj.symbols.push(symbol("mine", 0x40_2000, 1, ObjSymbolKind::Object));
    detect_rtti(&mut obj).unwrap();
    assert_eq!(obj.symbols.len(), 3);
    assert!(obj.symbols.iter().all(|s| !s.name.starts_with("??_R4")));
}

#[test]
fn code_in_the_address_space() {
    let mut obj = program();
    assert!(code_fits(&obj.sections));
    obj.sections[0].address = 0xFFFF_FFFF - 0x40;
    assert!(code_fits(&obj.sections));
    obj.sections[0].address += 1;
    assert!(!code_fits(&obj.sections));
    obj.sections[0].address = 0x1_0000_0000;
    assert!(code_fits(&obj.sections));
    obj.sections[1].address = 0xFFFF_FFFF;
    assert!(code_fits(&obj.sections));
}
