//! What holds of every x86 analysis.
use vstd::prelude::*;

use crate::addr_map::{
    ascending, has_key, lemma_lower_bound, lemma_put_ascending, lemma_put_at, lemma_put_value,
    lower_bound, put, value_at,
};
use crate::analysis::insn::{
    CodeView, X86Code, X86Flow, X86Insn, X86Operand, all_fit, code_at, code_sections,
    data_sections, lemma_code_at, x86_flow,
};
use crate::analysis::scan::{
    Scan, Walk, downgrade_all, downgraded, enter, explore, follow, found_function, four_before,
    in_span, inside_nearest, lemma_enter_progress, lemma_step_progress, lemma_step_spans, scan_end,
    scan_start, spans_ok, step, sweep, sweep_words, walk, walk_over, walk_start, with_function,
    with_rel32, with_transfer,
};
use crate::bytes::{le_u32, low32};
use crate::obj::{
    ObjReloc, ObjRelocKind, ObjSectionKind, ObjSymbolKind, ObjView, SectionIndex, SectionView,
    SymbolView, kind_indexes_at, lemma_kind_indexes,
};

verus! {

/// Whether `s` is the symbol given to a function found in one of the code
/// sections.
pub open spec fn is_found(snap: Seq<CodeView>, s: SymbolView) -> bool {
    exists|va: u32, k: int|
        code_at(snap, va) == Some(k) && s == #[trigger] found_function(snap[k].index, va)
}

/// Whether the relocations of all sections are in order.
pub open spec fn relocs_ok(sections: Seq<SectionView>) -> bool {
    forall|j: int| 0 <= j < sections.len() ==> ascending((#[trigger] sections[j]).relocations)
}

/// Whether `r` is a relative relocation to a function symbol.
pub open spec fn calls_function(symbols: Seq<SymbolView>, r: ObjReloc) -> bool {
    &&& r.kind == ObjRelocKind::X86Rel32
    &&& r.target_symbol < symbols.len()
    &&& symbols[r.target_symbol as int].kind == ObjSymbolKind::Function
}

/// Whether each code section stands in the section list, as one of code.
pub open spec fn at_code(snap: Seq<CodeView>, sections: Seq<SectionView>) -> bool {
    forall|i: int|
        0 <= i < snap.len() ==> (#[trigger] snap[i]).index < sections.len()
            && sections[snap[i].index as int].kind == ObjSectionKind::Code
}

/// Whether `b` holds all that `a` holds: the symbols of `a` and further found
/// functions, and in each section the relocations of `a` and, in code, further
/// relative ones to functions. Nothing else differs.
pub open spec fn grown(
    snap: Seq<CodeView>,
    a_symbols: Seq<SymbolView>,
    a_sections: Seq<SectionView>,
    b_symbols: Seq<SymbolView>,
    b_sections: Seq<SectionView>,
) -> bool {
    &&& a_symbols.len() <= b_symbols.len()
    &&& forall|i: int| 0 <= i < a_symbols.len() ==> #[trigger] b_symbols[i] == a_symbols[i]
    &&& forall|i: int|
        a_symbols.len() <= i < b_symbols.len() ==> is_found(snap, #[trigger] b_symbols[i])
    &&& a_sections.len() == b_sections.len()
    &&& relocs_ok(b_sections)
    &&& forall|j: int|
        0 <= j < a_sections.len() ==> section_grown(b_symbols, a_sections[j], #[trigger] b_sections[j])
}

/// Whether section `b` is `a` with further relative relocations to functions,
/// which only a code section gets.
pub open spec fn section_grown(
    symbols: Seq<SymbolView>,
    a: SectionView,
    b: SectionView,
) -> bool {
    &&& b == (SectionView { relocations: b.relocations, ..a })
    &&& b.relocations != a.relocations ==> a.kind == ObjSectionKind::Code
    &&& forall|va: u32| #[trigger]
        has_key(a.relocations, va) ==> has_key(b.relocations, va) && value_at(b.relocations, va)
            == value_at(a.relocations, va)
    &&& forall|va: u32| #[trigger]
        has_key(b.relocations, va) && !has_key(a.relocations, va) ==> calls_function(
            symbols,
            value_at(b.relocations, va)->Some_0,
        )
}

/// [`grown`] between two states.
pub open spec fn scan_grown(snap: Seq<CodeView>, a: Scan, b: Scan) -> bool {
    grown(snap, a.symbols, a.sections, b.symbols, b.sections)
}

pub(crate) proof fn lemma_grown_same(snap: Seq<CodeView>, a: Scan)
    requires
        relocs_ok(a.sections),
    ensures
        scan_grown(snap, a, a),
{
}

pub(crate) proof fn lemma_grown_trans(snap: Seq<CodeView>, a: Scan, b: Scan, c: Scan)
    requires
        scan_grown(snap, a, b),
        scan_grown(snap, b, c),
    ensures
        scan_grown(snap, a, c),
{
    assert forall|i: int| 0 <= i < a.symbols.len() implies #[trigger] c.symbols[i]
        == a.symbols[i] by {
        assert(b.symbols[i] == a.symbols[i]);
    }
    assert forall|i: int| a.symbols.len() <= i < c.symbols.len() implies is_found(
        snap,
        #[trigger] c.symbols[i],
    ) by {
        if i < b.symbols.len() {
            assert(c.symbols[i] == b.symbols[i]);
        }
    }
    assert forall|j: int| 0 <= j < a.sections.len() implies section_grown(
        c.symbols,
        a.sections[j],
        #[trigger] c.sections[j],
    ) by {
        assert(section_grown(b.symbols, a.sections[j], b.sections[j]));
        assert(section_grown(c.symbols, b.sections[j], c.sections[j]));
        let (ra, rb, rc) = (
            a.sections[j].relocations,
            b.sections[j].relocations,
            c.sections[j].relocations,
        );
        assert forall|va: u32| #[trigger]
            has_key(rc, va) && !has_key(ra, va) implies calls_function(
            c.symbols,
            value_at(rc, va)->Some_0,
        ) by {
            if has_key(rb, va) {
                let r = value_at(rb, va)->Some_0;
                assert(calls_function(b.symbols, r));
                assert(c.symbols[r.target_symbol as int] == b.symbols[r.target_symbol as int]);
            }
        }
    }
}

pub(crate) proof fn lemma_at_code_kept(snap: Seq<CodeView>, a: Scan, b: Scan)
    requires
        scan_grown(snap, a, b),
        at_code(snap, a.sections),
    ensures
        at_code(snap, b.sections),
{
    assert forall|i: int| 0 <= i < snap.len() implies (#[trigger] snap[i]).index < b.sections.len()
        && b.sections[snap[i].index as int].kind == ObjSectionKind::Code by {
        let j = snap[i].index as int;
        assert(section_grown(b.symbols, a.sections[j], b.sections[j]));
    }
}

/// The code sections of an object stand in it as code.
pub(crate) proof fn lemma_code_sections_kind(s: Seq<SectionView>, n: nat)
    requires
        n <= s.len() <= usize::MAX,
    ensures
        at_code(code_sections(s, n), s),
    decreases n,
{
    if n > 0 {
        lemma_code_sections_kind(s, (n - 1) as nat);
    }
}

/// A function symbol among the first ones is a function symbol at the address.
pub(crate) proof fn lemma_function_there(s: Seq<SymbolView>, sec: SectionIndex, va: u32, i: int)
    requires
        0 <= i < s.len(),
        s[i].at(sec, va),
        s[i].kind == ObjSymbolKind::Function,
    ensures
        kind_indexes_at(s, sec, va, ObjSymbolKind::Function, s.len()).len() > 0,
{
    lemma_kind_indexes(s, sec, va, ObjSymbolKind::Function, s.len());
    assert(kind_indexes_at(s, sec, va, ObjSymbolKind::Function, s.len()).contains(i));
}

/// A call or tail call leaves a function symbol at its target and a relocation
/// at its operand.
pub(crate) proof fn lemma_transfer(
    snap: Seq<CodeView>,
    st: Scan,
    src: SectionIndex,
    operand: u32,
    k: int,
    va: u32,
)
    requires
        relocs_ok(st.sections),
        src < st.sections.len(),
        st.sections[src as int].kind == ObjSectionKind::Code,
        code_at(snap, va) == Some(k),
        !st.ambiguous,
        with_function(st, snap[k].index, va).symbols.len() <= usize::MAX,
    ensures
        ({
            let end = with_transfer(st, src, operand, snap[k].index, va);
            &&& scan_grown(snap, st, end)
            &&& !end.ambiguous ==> has_key(end.sections[src as int].relocations, operand)
            &&& !end.ambiguous ==> kind_indexes_at(
                end.symbols,
                snap[k].index,
                va,
                ObjSymbolKind::Function,
                end.symbols.len(),
            ).len() > 0
        }),
{
    let sec = snap[k].index;
    let named = with_function(st, sec, va);
    lemma_grown_same(snap, st);
    if !named.ambiguous {
        lemma_kind_indexes(st.symbols, sec, va, ObjSymbolKind::Function, st.symbols.len());
        let n = named.symbols.len();
        if named.symbols.len() > st.symbols.len() {
            assert(named.symbols[n - 1] == found_function(sec, va));
            assert(is_found(snap, named.symbols[n - 1]));
            lemma_function_there(named.symbols, sec, va, n - 1);
        }
        lemma_kind_indexes(named.symbols, sec, va, ObjSymbolKind::Function, n);
        let functions = kind_indexes_at(named.symbols, sec, va, ObjSymbolKind::Function, n);
        assert(functions.len() > 0);
        let target = functions[0];
        assert(0 <= target < n);
        let waiting = Scan { pending: put(named.pending, va, ()), ..named };
        let end = with_rel32(waiting, src, operand, sec, va);
        let section = st.sections[src as int];
        assert(scan_grown(snap, st, waiting));
        if !has_key(section.relocations, operand) {
            let r = end.sections[src as int].relocations;
            let reloc = ObjReloc {
                kind: ObjRelocKind::X86Rel32,
                target_symbol: target as usize,
                addend: crate::analysis::scan::signed64(va - named.symbols[target].address),
                module: None,
            };
            assert(r == put(section.relocations, operand, reloc));
            lemma_put_ascending(section.relocations, operand, reloc);
            lemma_put_value(section.relocations, operand, reloc, operand);
            assert(has_key(r, operand));
            assert(calls_function(end.symbols, reloc));
            assert forall|key: u32| #[trigger] has_key(section.relocations, key) implies has_key(
                r,
                key,
            ) && value_at(r, key) == value_at(section.relocations, key) by {
                lemma_put_value(section.relocations, operand, reloc, key);
            }
            assert forall|key: u32| #[trigger]
                has_key(r, key) && !has_key(section.relocations, key) implies calls_function(
                end.symbols,
                value_at(r, key)->Some_0,
            ) by {
                lemma_put_value(section.relocations, operand, reloc, key);
            }
            assert(section_grown(end.symbols, section, end.sections[src as int]));
        }
    }
}

/// Where the operand of a call stands.
pub open spec fn call_operand(pc: u32, insn: X86Insn) -> u32 {
    if insn.code == X86Code::CallRel32 {
        (pc + 1) as u32
    } else {
        four_before((pc + insn.len) as u32)
    }
}

/// Whether the instruction at `pc`, if it is a direct call into a code section,
/// has a function symbol at its target and a relocation at its operand.
pub open spec fn call_recorded(
    snap: Seq<CodeView>,
    symbols: Seq<SymbolView>,
    sections: Seq<SectionView>,
    pc: u32,
) -> bool {
    match code_at(snap, pc) {
        Some(k) => {
            let insn = snap[k].insn(pc);
            match code_at(snap, insn.near_branch) {
                Some(t) => x86_flow(snap[k].from(pc), pc) == X86Flow::Call && insn.op0
                    == X86Operand::NearBranch32 ==> {
                    &&& has_key(
                        sections[snap[k].index as int].relocations,
                        call_operand(pc, insn),
                    )
                    &&& kind_indexes_at(
                        symbols,
                        snap[t].index,
                        insn.near_branch,
                        ObjSymbolKind::Function,
                        symbols.len(),
                    ).len() > 0
                },
                None => true,
            }
        },
        None => true,
    }
}

/// [`call_recorded`] of every decoded instruction.
pub open spec fn calls_recorded(snap: Seq<CodeView>, st: Scan) -> bool {
    forall|i: int|
        0 <= i < st.spans.len() ==> call_recorded(
            snap,
            st.symbols,
            st.sections,
            (#[trigger] st.spans[i]).0,
        )
}

proof fn lemma_recorded_grows(snap: Seq<CodeView>, a: Scan, b: Scan, pc: u32)
    requires
        scan_grown(snap, a, b),
        call_recorded(snap, a.symbols, a.sections, pc),
        at_code(snap, a.sections),
    ensures
        call_recorded(snap, b.symbols, b.sections, pc),
{
    lemma_code_at(snap, pc);
    match code_at(snap, pc) {
        Some(k) => {
            let insn = snap[k].insn(pc);
            match code_at(snap, insn.near_branch) {
                Some(t) => {
                    if x86_flow(snap[k].from(pc), pc) == X86Flow::Call && insn.op0
                        == X86Operand::NearBranch32 {
                        let (sec, va) = (snap[t].index, insn.near_branch);
                        lemma_kind_indexes(
                            a.symbols,
                            sec,
                            va,
                            ObjSymbolKind::Function,
                            a.symbols.len(),
                        );
                        let i = kind_indexes_at(
                            a.symbols,
                            sec,
                            va,
                            ObjSymbolKind::Function,
                            a.symbols.len(),
                        )[0];
                        assert(b.symbols[i] == a.symbols[i]);
                        lemma_function_there(b.symbols, sec, va, i);
                        let j = snap[k].index as int;
                        assert(0 <= j < a.sections.len());
                        assert(section_grown(b.symbols, a.sections[j], b.sections[j]));
                    }
                },
                None => {},
            }
        },
        None => {},
    }
}

/// What one step of the disassembly does to symbols and relocations.
pub(crate) proof fn lemma_step_grows(snap: Seq<CodeView>, w: Walk)
    requires
        relocs_ok(w.scan.sections),
        at_code(snap, w.scan.sections),
        !walk_over(w),
        step(snap, w).scan.symbols.len() <= usize::MAX,
    ensures
        scan_grown(snap, w.scan, step(snap, w).scan),
{
    lemma_grown_same(snap, w.scan);
    let pc = w.flow[0];
    lemma_code_at(snap, pc);
    match code_at(snap, pc) {
        Some(k) if snap[k].decodes(pc) && !has_key(w.visited, pc) => {
            let insn = snap[k].insn(pc);
            let src = snap[k].index;
            let spanned = Scan {
                spans: put(w.scan.spans, pc, (pc + insn.len) as u32),
                ..w.scan
            };
            match code_at(snap, insn.near_branch) {
                Some(t) => {
                    let flow = x86_flow(snap[k].from(pc), pc);
                    let operand = if flow == X86Flow::Call {
                        call_operand(pc, insn)
                    } else {
                        four_before((pc + insn.len) as u32)
                    };
                    let end = with_transfer(spanned, src, operand, snap[t].index, insn.near_branch);
                    if step(snap, w).scan == end {
                        lemma_transfer(snap, spanned, src, operand, t, insn.near_branch);
                    }
                },
                None => {},
            }
        },
        _ => {},
    }
}

/// The symbols only become more.
pub(crate) proof fn lemma_walk_len(snap: Seq<CodeView>, w: Walk)
    requires
        ascending(w.visited),
    ensures
        w.scan.symbols.len() <= walk(snap, w).scan.symbols.len(),
    decreases 0x1_0000_0000 - w.visited.len(), w.flow.len(),
{
    if !walk_over(w) {
        lemma_step_progress(snap, w);
        lemma_walk_len(snap, step(snap, w));
    }
}

/// After one step, the calls among the decoded instructions are recorded.
proof fn lemma_step_calls(snap: Seq<CodeView>, w: Walk)
    requires
        relocs_ok(w.scan.sections),
        at_code(snap, w.scan.sections),
        !walk_over(w),
        ascending(w.scan.spans),
        step(snap, w).scan.symbols.len() <= usize::MAX,
        calls_recorded(snap, w.scan),
        !step(snap, w).scan.ambiguous,
    ensures
        calls_recorded(snap, step(snap, w).scan),
{
    lemma_step_grows(snap, w);
    let end = step(snap, w).scan;
    let pc = w.flow[0];
    lemma_code_at(snap, pc);
    assert forall|i: int| 0 <= i < w.scan.spans.len() implies call_recorded(
        snap,
        end.symbols,
        end.sections,
        (#[trigger] w.scan.spans[i]).0,
    ) by {
        lemma_recorded_grows(snap, w.scan, end, w.scan.spans[i].0);
    }
    match code_at(snap, pc) {
        Some(k) if snap[k].decodes(pc) && !has_key(w.visited, pc) => {
            let insn = snap[k].insn(pc);
            let src = snap[k].index;
            let span = (pc + insn.len) as u32;
            let spanned = Scan { spans: put(w.scan.spans, pc, span), ..w.scan };
            match code_at(snap, insn.near_branch) {
                Some(t) => {
                    if x86_flow(snap[k].from(pc), pc) == X86Flow::Call && insn.op0
                        == X86Operand::NearBranch32 {
                        lemma_transfer(
                            snap,
                            spanned,
                            src,
                            call_operand(pc, insn),
                            t,
                            insn.near_branch,
                        );
                    }
                },
                None => {},
            }
            assert(call_recorded(snap, end.symbols, end.sections, pc));
            assert(end.spans == put(w.scan.spans, pc, span));
            lemma_lower_bound(w.scan.spans, pc);
            let at = lower_bound(w.scan.spans, pc);
            lemma_put_at(w.scan.spans, pc, span, at);
            assert forall|i: int| 0 <= i < end.spans.len() implies call_recorded(
                snap,
                end.symbols,
                end.sections,
                (#[trigger] end.spans[i]).0,
            ) by {
                if i != at {
                    let j = if i < at || end.spans.len() == w.scan.spans.len() {
                        i
                    } else {
                        i - 1
                    };
                    assert(end.spans[i] == w.scan.spans[j]);
                }
            }
        },
        _ => {},
    }
}

/// What the disassembly of one function does.
pub(crate) proof fn lemma_walk_grows(snap: Seq<CodeView>, w: Walk)
    requires
        relocs_ok(w.scan.sections),
        at_code(snap, w.scan.sections),
        ascending(w.visited),
        spans_ok(w.scan.spans),
        all_fit(snap),
        walk(snap, w).scan.symbols.len() <= usize::MAX,
    ensures
        scan_grown(snap, w.scan, walk(snap, w).scan),
        calls_recorded(snap, w.scan) && !walk(snap, w).scan.ambiguous ==> calls_recorded(
            snap,
            walk(snap, w).scan,
        ),
    decreases 0x1_0000_0000 - w.visited.len(), w.flow.len(),
{
    lemma_grown_same(snap, w.scan);
    if !walk_over(w) {
        let next = step(snap, w);
        lemma_step_progress(snap, w);
        lemma_step_spans(snap, w);
        lemma_walk_len(snap, next);
        lemma_step_grows(snap, w);
        if calls_recorded(snap, w.scan) && !next.scan.ambiguous {
            lemma_step_calls(snap, w);
        }
        lemma_at_code_kept(snap, w.scan, next.scan);
        lemma_walk_grows(snap, next);
        lemma_grown_trans(snap, w.scan, next.scan, walk(snap, next).scan);
    }
}

/// What dealing with one pending entry does.
pub(crate) proof fn lemma_enter_grows(snap: Seq<CodeView>, st: Scan)
    requires
        relocs_ok(st.sections),
        at_code(snap, st.sections),
        spans_ok(st.spans),
        all_fit(snap),
        !st.ambiguous,
        st.pending.len() > 0,
        enter(snap, st).symbols.len() <= usize::MAX,
    ensures
        scan_grown(snap, st, enter(snap, st)),
        calls_recorded(snap, st) && !enter(snap, st).ambiguous ==> calls_recorded(
            snap,
            enter(snap, st),
        ),
{
    let va = st.pending[0].0;
    let rest = Scan { pending: st.pending.drop_first(), ..st };
    lemma_grown_same(snap, st);
    match code_at(snap, va) {
        Some(k) if !in_span(st.spans, va) => {
            let named = with_function(rest, snap[k].index, va);
            if !named.ambiguous {
                let start = walk_start(named, va);
                if named.symbols.len() > st.symbols.len() {
                    assert(named.symbols[st.symbols.len() as int] == found_function(
                        snap[k].index,
                        va,
                    ));
                }
                assert(scan_grown(snap, st, named));
                if calls_recorded(snap, st) {
                    assert forall|i: int| 0 <= i < named.spans.len() implies call_recorded(
                        snap,
                        named.symbols,
                        named.sections,
                        (#[trigger] named.spans[i]).0,
                    ) by {
                        lemma_recorded_grows(snap, st, named, st.spans[i].0);
                    }
                }
                lemma_walk_grows(snap, start);
                lemma_grown_trans(snap, st, named, walk(snap, start).scan);
            }
        },
        _ => {},
    }
}

pub(crate) proof fn lemma_explore_len(snap: Seq<CodeView>, datas: Seq<Seq<u8>>, st: Scan, swept: bool)
    requires
        spans_ok(st.spans),
        all_fit(snap),
    ensures
        st.symbols.len() <= explore(snap, datas, st, swept).symbols.len(),
    decreases (if swept { 0int } else { 1int }), 0x1_0000_0000 - st.spans.len(), st.pending.len(),
{
    if !st.ambiguous {
        if st.pending.len() > 0 {
            lemma_enter_progress(snap, st);
            let va = st.pending[0].0;
            let rest = Scan { pending: st.pending.drop_first(), ..st };
            match code_at(snap, va) {
                Some(k) => {
                    lemma_walk_len(
                        snap,
                        walk_start(with_function(rest, snap[k].index, va), va),
                    );
                },
                None => {},
            }
            lemma_explore_len(snap, datas, enter(snap, st), swept);
        } else if !swept {
            let pending = sweep(snap, st.spans, st.pending, datas, datas.len());
            lemma_explore_len(snap, datas, Scan { pending, ..st }, true);
        }
    }
}

/// What disassembly of all reachable code does.
pub(crate) proof fn lemma_explore_grows(snap: Seq<CodeView>, datas: Seq<Seq<u8>>, st: Scan, swept: bool)
    requires
        relocs_ok(st.sections),
        at_code(snap, st.sections),
        spans_ok(st.spans),
        all_fit(snap),
        explore(snap, datas, st, swept).symbols.len() <= usize::MAX,
    ensures
        scan_grown(snap, st, explore(snap, datas, st, swept)),
        calls_recorded(snap, st) && !explore(snap, datas, st, swept).ambiguous ==> calls_recorded(
            snap,
            explore(snap, datas, st, swept),
        ),
        spans_ok(explore(snap, datas, st, swept).spans),
    decreases (if swept { 0int } else { 1int }), 0x1_0000_0000 - st.spans.len(), st.pending.len(),
{
    lemma_grown_same(snap, st);
    if !st.ambiguous {
        if st.pending.len() > 0 {
            lemma_enter_progress(snap, st);
            lemma_explore_len(snap, datas, enter(snap, st), swept);
            lemma_enter_grows(snap, st);
            lemma_at_code_kept(snap, st, enter(snap, st));
            lemma_explore_grows(snap, datas, enter(snap, st), swept);
            lemma_grown_trans(
                snap,
                st,
                enter(snap, st),
                explore(snap, datas, enter(snap, st), swept),
            );
        } else if !swept {
            let pending = sweep(snap, st.spans, st.pending, datas, datas.len());
            lemma_explore_grows(snap, datas, Scan { pending, ..st }, true);
        }
    }
}

/// The analysis takes no symbol and no relocation away: it keeps the symbols of
/// the object and adds functions found in its code, keeps the relocations and
/// adds, in code sections, relative ones to function symbols, and changes nothing
/// else.
pub proof fn lemma_analysis_grows(obj: ObjView)
    requires
        all_fit(code_sections(obj.sections, obj.sections.len())),
        relocs_ok(obj.sections),
        obj.sections.len() <= usize::MAX,
        scan_end(obj).symbols.len() <= usize::MAX,
    ensures
        grown(
            code_sections(obj.sections, obj.sections.len()),
            obj.symbols,
            obj.sections,
            scan_end(obj).symbols,
            scan_end(obj).sections,
        ),
{
    lemma_code_sections_kind(obj.sections, obj.sections.len());
    lemma_explore_grows(
        code_sections(obj.sections, obj.sections.len()),
        data_sections(obj.sections, obj.sections.len()),
        scan_start(obj),
        false,
    );
}

/// Once the analysis has succeeded, every decoded direct call into code has a
/// function symbol at its target and a relocation at its operand.
pub proof fn lemma_analysis_records_calls(obj: ObjView)
    requires
        all_fit(code_sections(obj.sections, obj.sections.len())),
        relocs_ok(obj.sections),
        obj.sections.len() <= usize::MAX,
        scan_end(obj).symbols.len() <= usize::MAX,
        !scan_end(obj).ambiguous,
    ensures
        calls_recorded(code_sections(obj.sections, obj.sections.len()), scan_end(obj)),
{
    lemma_code_sections_kind(obj.sections, obj.sections.len());
    lemma_explore_grows(
        code_sections(obj.sections, obj.sections.len()),
        data_sections(obj.sections, obj.sections.len()),
        scan_start(obj),
        false,
    );
}

/// No function symbol is left in the middle of a decoded instruction, and apart
/// from that every symbol stays what it was.
pub proof fn lemma_downgrade(symbols: Seq<SymbolView>, spans: Seq<(u32, u32)>)
    ensures
        downgrade_all(symbols, spans).len() == symbols.len(),
        forall|i: int|
            0 <= i < symbols.len() ==> {
                let new = #[trigger] downgrade_all(symbols, spans)[i];
                &&& new.kind == ObjSymbolKind::Function ==> !inside_nearest(
                    spans,
                    low32(new.address),
                )
                &&& new == symbols[i] || symbols[i].kind == ObjSymbolKind::Function && new == (
                SymbolView { kind: ObjSymbolKind::Unknown, ..symbols[i] })
            },
{
    assert forall|i: int| 0 <= i < symbols.len() implies {
        let new = #[trigger] downgrade_all(symbols, spans)[i];
        &&& new.kind == ObjSymbolKind::Function ==> !inside_nearest(spans, low32(new.address))
        &&& new == symbols[i] || symbols[i].kind == ObjSymbolKind::Function && new == (SymbolView {
            kind: ObjSymbolKind::Unknown,
            ..symbols[i]
        })
    } by {
        assert(downgrade_all(symbols, spans)[i] == downgraded(symbols[i], spans));
    }
}

/// Branches within a function add neither symbols nor relocations: conditional
/// ones never, jumps unless their target is the entry of a function.
pub proof fn lemma_branches_are_silent(
    snap: Seq<CodeView>,
    w: Walk,
    src: SectionIndex,
    pc: u32,
    insn: X86Insn,
    flow: X86Flow,
)
    requires
        flow != X86Flow::Call,
        flow == X86Flow::UnconditionalBranch ==> (code_at(snap, insn.near_branch) matches Some(t)
            ==> kind_indexes_at(
            w.scan.symbols,
            snap[t].index,
            insn.near_branch,
            ObjSymbolKind::Function,
            w.scan.symbols.len(),
        ).len() == 0 && !has_key(w.scan.pending, insn.near_branch)),
    ensures
        follow(snap, w, src, pc, insn, flow).scan == w.scan,
{
}

proof fn lemma_sweep_words(
    snap: Seq<CodeView>,
    spans: Seq<(u32, u32)>,
    pending: Seq<(u32, ())>,
    data: Seq<u8>,
    n: nat,
    va: u32,
)
    requires
        ascending(pending),
        has_key(sweep_words(snap, spans, pending, data, n), va),
    ensures
        ascending(sweep_words(snap, spans, pending, data, n)),
        has_key(pending, va) || may_start(snap, spans, va),
    decreases n,
{
    if n > 0 {
        lemma_sweep_ascending(snap, spans, pending, data, (n - 1) as nat);
        let below = sweep_words(snap, spans, pending, data, (n - 1) as nat);
        let word = le_u32(data, 4 * (n - 1));
        lemma_put_ascending(below, word, ());
        lemma_put_value(below, word, (), va);
        if word != va {
            assert(has_key(below, va));
        }
        if has_key(below, va) {
            lemma_sweep_words(snap, spans, pending, data, (n - 1) as nat, va);
        }
    }
}

pub(crate) proof fn lemma_sweep_ascending(
    snap: Seq<CodeView>,
    spans: Seq<(u32, u32)>,
    pending: Seq<(u32, ())>,
    data: Seq<u8>,
    n: nat,
)
    requires
        ascending(pending),
    ensures
        ascending(sweep_words(snap, spans, pending, data, n)),
    decreases n,
{
    if n > 0 {
        lemma_sweep_ascending(snap, spans, pending, data, (n - 1) as nat);
        let below = sweep_words(snap, spans, pending, data, (n - 1) as nat);
        lemma_put_ascending(below, le_u32(data, 4 * (n - 1)), ());
    }
}

/// Whether a function may start at `va`: code that no decoded instruction
/// covers and that decodes as an instruction.
pub open spec fn may_start(snap: Seq<CodeView>, spans: Seq<(u32, u32)>, va: u32) -> bool {
    code_at(snap, va) matches Some(k) && !in_span(spans, va) && snap[k].decodes(va)
}

/// The sweep over the data sections accepts no pointer at which a function
/// could not start.
pub proof fn lemma_sweep_accepts(
    snap: Seq<CodeView>,
    spans: Seq<(u32, u32)>,
    pending: Seq<(u32, ())>,
    datas: Seq<Seq<u8>>,
    n: nat,
    va: u32,
)
    requires
        ascending(pending),
        has_key(sweep(snap, spans, pending, datas, n), va),
    ensures
        ascending(sweep(snap, spans, pending, datas, n)),
        has_key(pending, va) || may_start(snap, spans, va),
    decreases n,
{
    if n > 0 {
        let below = sweep(snap, spans, pending, datas, (n - 1) as nat);
        let data = datas[n - 1];
        lemma_sweep_all_ascending(snap, spans, pending, datas, (n - 1) as nat);
        lemma_sweep_words(snap, spans, below, data, data.len() / 4, va);
        if has_key(below, va) {
            lemma_sweep_accepts(snap, spans, pending, datas, (n - 1) as nat, va);
        }
    }
}

pub(crate) proof fn lemma_sweep_all_ascending(
    snap: Seq<CodeView>,
    spans: Seq<(u32, u32)>,
    pending: Seq<(u32, ())>,
    datas: Seq<Seq<u8>>,
    n: nat,
)
    requires
        ascending(pending),
    ensures
        ascending(sweep(snap, spans, pending, datas, n)),
    decreases n,
{
    if n > 0 {
        lemma_sweep_all_ascending(snap, spans, pending, datas, (n - 1) as nat);
        let below = sweep(snap, spans, pending, datas, (n - 1) as nat);
        let data = datas[n - 1];
        lemma_sweep_ascending(snap, spans, below, data, data.len() / 4);
    }
}

} // verus!
