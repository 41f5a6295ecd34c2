//! What recursive disassembly finds, as a function of the sections and symbols.
use vstd::prelude::*;

use crate::addr_map::{
    ascending, has_key, lemma_ascending_len, lemma_lower_bound, lemma_put_ascending, lemma_put_at,
    lower_bound, put, value_at,
};
use crate::analysis::insn::{
    CodeView, MAX_INSN_LEN, X86Code, X86Flow, X86Insn, X86Operand, all_fit, code_at, code_sections,
    data_sections, lemma_code_at, x86_flow,
};
use crate::bytes::{le_u32, low32};
use crate::obj::{
    ObjError, ObjReloc, ObjRelocKind, ObjSymbolKind, ObjView, SectionIndex, SectionView,
    SymbolIndex, SymbolView, blank_symbol, indexes_at, kind_at, kind_indexes_at,
};
use crate::text::upper_hex;

verus! {

/// The state of the analysis between two steps.
pub ghost struct Scan {
    pub symbols: Seq<SymbolView>,
    pub sections: Seq<SectionView>,
    /// Function entries still to be disassembled.
    pub pending: Seq<(u32, ())>,
    /// Decoded instructions: start to exclusive end.
    pub spans: Seq<(u32, u32)>,
    /// Function entry to the end of its last instruction.
    pub raw_ends: Seq<(u32, u32)>,
    /// Function entries with the jump tables that the function refers to.
    pub tables: Seq<(u32, u32)>,
    /// A lookup met several function symbols at one address.
    pub ambiguous: bool,
}

/// The state of the disassembly of one function.
pub ghost struct Walk {
    pub scan: Scan,
    pub visited: Seq<(u32, ())>,
    /// Addresses still to be decoded, in order.
    pub flow: Seq<u32>,
    pub tables: Seq<u32>,
}

/// Whether some span holds `va`.
pub open spec fn in_span(spans: Seq<(u32, u32)>, va: u32) -> bool {
    exists|i: int| 0 <= i < spans.len() && #[trigger] spans[i].0 <= va < spans[i].1
}

/// Whether the span at `i` is the last one that starts at or before `va`.
pub open spec fn is_nearest(spans: Seq<(u32, u32)>, i: int, va: u32) -> bool {
    0 <= i < spans.len() && spans[i].0 <= va && forall|j: int|
        i < j < spans.len() ==> (#[trigger] spans[j]).0 > va
}

/// Whether `va` lies behind the start of the last span that starts at or before
/// it, and before that span's end.
pub open spec fn inside_nearest(spans: Seq<(u32, u32)>, va: u32) -> bool {
    exists|i: int| #[trigger] is_nearest(spans, i, va) && spans[i].0 < va < spans[i].1
}

/// Where the span stands that [`inside_nearest`] speaks of.
pub proof fn lemma_nearest(spans: Seq<(u32, u32)>, va: u32)
    requires
        ascending(spans),
    ensures
        inside_nearest(spans, va) == ({
            let i = lower_bound(spans, va);
            i > 0 && !(i < spans.len() && spans[i].0 == va) && va < spans[i - 1].1
        }),
{
    let i = lower_bound(spans, va);
    lemma_lower_bound(spans, va);
    if inside_nearest(spans, va) {
        let k = choose|k: int| #[trigger] is_nearest(spans, k, va) && spans[k].0 < va < spans[k].1;
        assert(k < i);
        if k < i - 1 {
            assert(spans[i - 1].0 > va);
        }
        if i < spans.len() {
            assert(spans[i].0 > va);
        }
    } else if i > 0 && !(i < spans.len() && spans[i].0 == va) {
        assert(spans[i - 1].0 < va);
        assert forall|j: int| i - 1 < j < spans.len() implies (#[trigger] spans[j]).0 > va by {
            assert(spans[i].0 <= spans[j].0);
        }
        assert(is_nearest(spans, i - 1, va));
    }
}

/// Spans ascend, and each is as long as an instruction can be.
pub open spec fn spans_ok(spans: Seq<(u32, u32)>) -> bool {
    &&& ascending(spans)
    &&& forall|i: int|
        0 <= i < spans.len() ==> #[trigger] spans[i].0 < spans[i].1 <= spans[i].0 + MAX_INSN_LEN
}

/// The symbol given to a function found at `va`.
pub open spec fn found_function(sec: SectionIndex, va: u32) -> SymbolView {
    SymbolView {
        name: "fn_"@ + upper_hex(va as nat, 8),
        address: va as u64,
        section: Some(sec),
        kind: ObjSymbolKind::Function,
        ..blank_symbol()
    }
}

/// The state with a function symbol at `va`.
pub open spec fn with_function(st: Scan, sec: SectionIndex, va: u32) -> Scan {
    match kind_at(st.symbols, sec, va, ObjSymbolKind::Function) {
        Ok(Some(_)) => st,
        Ok(None) => Scan { symbols: st.symbols.push(found_function(sec, va)), ..st },
        Err(_) => Scan { ambiguous: true, ..st },
    }
}

/// The symbol that a relocation to `va` refers to: a function before others,
/// the first of them.
pub open spec fn reloc_symbol(s: Seq<SymbolView>, sec: SectionIndex, va: u32) -> Option<int> {
    let functions = kind_indexes_at(s, sec, va, ObjSymbolKind::Function, s.len());
    let all = indexes_at(s, sec, va, s.len());
    if functions.len() > 0 {
        Some(functions[0])
    } else if all.len() > 0 {
        Some(all[0])
    } else {
        None
    }
}

/// Two's complement reading of a 64-bit word.
pub open spec fn signed64(v: int) -> i64 {
    let w = v % 0x1_0000_0000_0000_0000;
    if w < 0x8000_0000_0000_0000 {
        w as i64
    } else {
        (w - 0x1_0000_0000_0000_0000) as i64
    }
}

/// The state with a relocation at `operand`, unless one is there.
pub open spec fn with_rel32(
    st: Scan,
    src: SectionIndex,
    operand: u32,
    sec: SectionIndex,
    va: u32,
) -> Scan {
    let section = st.sections[src as int];
    if has_key(section.relocations, operand) {
        st
    } else {
        let (symbols, target, addend) = match reloc_symbol(st.symbols, sec, va) {
            Some(i) => (st.symbols, i as usize, signed64(va - st.symbols[i].address)),
            None => (
                st.symbols.push(found_function(sec, va)),
                st.symbols.len() as usize,
                0i64,
            ),
        };
        let reloc = ObjReloc {
            kind: ObjRelocKind::X86Rel32,
            target_symbol: target,
            addend,
            module: None,
        };
        let updated = SectionView {
            relocations: put(section.relocations, operand, reloc),
            ..section
        };
        Scan { symbols, sections: st.sections.update(src as int, updated), ..st }
    }
}

/// The state after a call or jump at `operand` to the function at `va`.
pub open spec fn with_transfer(
    st: Scan,
    src: SectionIndex,
    operand: u32,
    sec: SectionIndex,
    va: u32,
) -> Scan {
    let named = with_function(st, sec, va);
    if named.ambiguous {
        named
    } else {
        with_rel32(Scan { pending: put(named.pending, va, ()), ..named }, src, operand, sec, va)
    }
}

/// The 32-bit address four bytes before `va`.
pub open spec fn four_before(va: u32) -> u32 {
    ((va - 4) % 0x1_0000_0000) as u32
}

/// The state after the instruction at `pc` of section `src`, with control
/// passed on.
pub open spec fn follow(
    snap: Seq<CodeView>,
    w: Walk,
    src: SectionIndex,
    pc: u32,
    insn: X86Insn,
    flow: X86Flow,
) -> Walk {
    let next = (pc + insn.len) as u32;
    let on = Walk { flow: w.flow.push(next), ..w };
    let target = insn.near_branch;
    let near = insn.op0 == X86Operand::NearBranch32;
    match flow {
        X86Flow::Next | X86Flow::IndirectCall | X86Flow::XbeginXabortXend => on,
        X86Flow::Return | X86Flow::Exception | X86Flow::Interrupt => w,
        X86Flow::ConditionalBranch => if near && code_at(snap, target) is Some {
            Walk { flow: on.flow.push(target), ..on }
        } else {
            on
        },
        X86Flow::IndirectBranch => {
            let table = low32(insn.displacement);
            if insn.op0 == X86Operand::Memory && insn.displacement != 0 && code_at(snap, table)
                is Some {
                Walk { tables: on.tables.push(table), ..on }
            } else {
                on
            }
        },
        X86Flow::Call => match code_at(snap, target) {
            Some(t) if near => {
                let operand = if insn.code == X86Code::CallRel32 {
                    (pc + 1) as u32
                } else {
                    four_before(next)
                };
                Walk { scan: with_transfer(w.scan, src, operand, snap[t].index, target), ..on }
            },
            _ => on,
        },
        X86Flow::UnconditionalBranch => match code_at(snap, target) {
            Some(t) if near => {
                let sec = snap[t].index;
                let known = kind_at(w.scan.symbols, sec, target, ObjSymbolKind::Function);
                if known is Err || known == Ok::<_, ObjError>(None::<SymbolIndex>) && !has_key(
                    w.scan.pending,
                    target,
                ) {
                    if known is Err {
                        Walk { scan: Scan { ambiguous: true, ..w.scan }, ..w }
                    } else {
                        Walk { flow: w.flow.push(target), ..w }
                    }
                } else {
                    Walk {
                        scan: with_transfer(w.scan, src, four_before(next), sec, target),
                        ..w
                    }
                }
            },
            _ => w,
        },
    }
}

/// One step of the disassembly of a function: the next address is decoded,
/// unless it was before.
pub open spec fn step(snap: Seq<CodeView>, w: Walk) -> Walk {
    let pc = w.flow[0];
    let rest = Walk { flow: w.flow.drop_first(), ..w };
    if has_key(w.visited, pc) {
        rest
    } else {
        let seen = Walk { visited: put(w.visited, pc, ()), ..rest };
        match code_at(snap, pc) {
            Some(k) if snap[k].decodes(pc) => {
                let insn = snap[k].insn(pc);
                let span = (pc + insn.len) as u32;
                follow(
                    snap,
                    Walk { scan: Scan { spans: put(w.scan.spans, pc, span), ..w.scan }, ..seen },
                    snap[k].index,
                    pc,
                    insn,
                    x86_flow(snap[k].from(pc), pc),
                )
            },
            _ => seen,
        }
    }
}

/// Whether the disassembly of a function is over.
pub open spec fn walk_over(w: Walk) -> bool {
    w.flow.len() == 0 || w.scan.ambiguous
}

/// Disassembles a function to the end.
pub open spec fn walk(snap: Seq<CodeView>, w: Walk) -> Walk
    decreases 0x1_0000_0000 - w.visited.len(), w.flow.len(),
    when ascending(w.visited)
{
    if walk_over(w) {
        w
    } else {
        proof {
            lemma_step_progress(snap, w);
        }
        walk(snap, step(snap, w))
    }
}

/// A step follows control on, with fewer addresses left to visit.
pub proof fn lemma_step_progress(snap: Seq<CodeView>, w: Walk)
    requires
        ascending(w.visited),
        !walk_over(w),
    ensures
        ascending(step(snap, w).visited),
        step(snap, w).visited.len() <= 0x1_0000_0000,
        step(snap, w).visited.len() == w.visited.len() + 1 || step(snap, w).visited == w.visited
            && step(snap, w).flow.len() < w.flow.len(),
{
    lemma_put_ascending(w.visited, w.flow[0], ());
    lemma_ascending_len(put(w.visited, w.flow[0], ()));
    lemma_ascending_len(w.visited);
}

/// The highest end of the spans that start at a visited address.
pub open spec fn last_end(
    visited: Seq<(u32, ())>,
    spans: Seq<(u32, u32)>,
    n: nat,
) -> Option<u32>
    decreases n,
{
    if n == 0 {
        None
    } else {
        match (last_end(visited, spans, (n - 1) as nat), value_at(spans, visited[n - 1].0)) {
            (Some(a), Some(b)) => Some(if b > a { b } else { a }),
            (None, b) => b,
            (a, None) => a,
        }
    }
}

/// The state after the function at `va` was disassembled.
pub open spec fn finish(va: u32, w: Walk) -> Scan {
    let end = match last_end(w.visited, w.scan.spans, w.visited.len()) {
        Some(e) => e,
        None => va,
    };
    Scan {
        raw_ends: if end > va {
            put(w.scan.raw_ends, va, end)
        } else {
            w.scan.raw_ends
        },
        tables: w.scan.tables + w.tables.map_values(|t: u32| (va, t)),
        ..w.scan
    }
}

/// The disassembly of the function at `va`, before its first step.
pub open spec fn walk_start(st: Scan, va: u32) -> Walk {
    Walk { scan: st, visited: Seq::empty(), flow: seq![va], tables: Seq::empty() }
}

/// The state after the lowest pending function entry is dealt with.
pub open spec fn enter(snap: Seq<CodeView>, st: Scan) -> Scan {
    let va = st.pending[0].0;
    let rest = Scan { pending: st.pending.drop_first(), ..st };
    if in_span(st.spans, va) {
        rest
    } else {
        match code_at(snap, va) {
            None => rest,
            Some(k) => {
                let named = with_function(rest, snap[k].index, va);
                if named.ambiguous {
                    named
                } else {
                    let w = walk(snap, walk_start(named, va));
                    if w.scan.ambiguous {
                        w.scan
                    } else {
                        finish(va, w)
                    }
                }
            },
        }
    }
}

/// Whether a pointer to `va` is taken for a function entry: it points to code that
/// is no part of a decoded instruction, and that decodes itself.
pub open spec fn accepts(
    snap: Seq<CodeView>,
    spans: Seq<(u32, u32)>,
    pending: Seq<(u32, ())>,
    va: u32,
    decodes: bool,
) -> bool {
    code_at(snap, va) is Some && !has_key(pending, va) && !in_span(spans, va) && decodes
}

/// Whether the code at `va` decodes.
pub open spec fn decodes_at(snap: Seq<CodeView>, va: u32) -> bool {
    code_at(snap, va) matches Some(k) && snap[k].decodes(va)
}

/// The pending entries with `va`, if a function may start there.
pub open spec fn with_candidate(
    snap: Seq<CodeView>,
    spans: Seq<(u32, u32)>,
    pending: Seq<(u32, ())>,
    va: u32,
) -> Seq<(u32, ())> {
    if accepts(snap, spans, pending, va, decodes_at(snap, va)) {
        put(pending, va, ())
    } else {
        pending
    }
}

/// The pending entries after the first `n` words of `data` were looked at.
pub open spec fn sweep_words(
    snap: Seq<CodeView>,
    spans: Seq<(u32, u32)>,
    pending: Seq<(u32, ())>,
    data: Seq<u8>,
    n: nat,
) -> Seq<(u32, ())>
    decreases n,
{
    if n == 0 {
        pending
    } else {
        with_candidate(
            snap,
            spans,
            sweep_words(snap, spans, pending, data, (n - 1) as nat),
            le_u32(data, 4 * (n - 1)),
        )
    }
}

/// The pending entries after the first `n` data sections were looked at.
pub open spec fn sweep(
    snap: Seq<CodeView>,
    spans: Seq<(u32, u32)>,
    pending: Seq<(u32, ())>,
    datas: Seq<Seq<u8>>,
    n: nat,
) -> Seq<(u32, ())>
    decreases n,
{
    if n == 0 {
        pending
    } else {
        let data = datas[n - 1];
        sweep_words(
            snap,
            spans,
            sweep(snap, spans, pending, datas, (n - 1) as nat),
            data,
            data.len() / 4,
        )
    }
}

/// The state after all reachable code was disassembled: the pending entries
/// from the lowest up, then, once, the pointers in the data sections.
pub open spec fn explore(
    snap: Seq<CodeView>,
    datas: Seq<Seq<u8>>,
    st: Scan,
    swept: bool,
) -> Scan
    decreases (if swept { 0int } else { 1int }), 0x1_0000_0000 - st.spans.len(), st.pending.len(),
    when spans_ok(st.spans) && all_fit(snap)
{
    if st.ambiguous {
        st
    } else if st.pending.len() > 0 {
        proof {
            lemma_enter_progress(snap, st);
        }
        explore(snap, datas, enter(snap, st), swept)
    } else if !swept {
        let pending = sweep(snap, st.spans, st.pending, datas, datas.len());
        explore(snap, datas, Scan { pending, ..st }, true)
    } else {
        st
    }
}

/// Disassembly adds spans and takes none away.
pub proof fn lemma_walk_spans(snap: Seq<CodeView>, w: Walk)
    requires
        spans_ok(w.scan.spans),
        ascending(w.visited),
        all_fit(snap),
    ensures
        spans_ok(walk(snap, w).scan.spans),
        w.scan.spans.len() <= walk(snap, w).scan.spans.len(),
        ascending(walk(snap, w).visited),
    decreases 0x1_0000_0000 - w.visited.len(), w.flow.len(),
{
    if !walk_over(w) {
        lemma_step_progress(snap, w);
        lemma_step_spans(snap, w);
        lemma_walk_spans(snap, step(snap, w));
    }
}

/// What one step does to the spans.
pub proof fn lemma_step_spans(snap: Seq<CodeView>, w: Walk)
    requires
        spans_ok(w.scan.spans),
        all_fit(snap),
        w.flow.len() > 0,
    ensures
        spans_ok(step(snap, w).scan.spans),
        w.scan.spans.len() <= step(snap, w).scan.spans.len(),
{
    let pc = w.flow[0];
    lemma_code_at(snap, pc);
    match code_at(snap, pc) {
        Some(k) if snap[k].decodes(pc) && !has_key(w.visited, pc) => {
            assert(snap[k].fits());
            let end = (pc + snap[k].insn(pc).len) as u32;
            lemma_put_span(w.scan.spans, pc, end);
        },
        _ => {},
    }
}

/// Adding an instruction's span keeps the spans in order.
pub proof fn lemma_put_span(spans: Seq<(u32, u32)>, start: u32, end: u32)
    requires
        spans_ok(spans),
        start < end <= start + MAX_INSN_LEN,
    ensures
        spans_ok(put(spans, start, end)),
        put(spans, start, end).len() == spans.len() + (if has_key(spans, start) {
            0int
        } else {
            1int
        }),
{
    lemma_put_ascending(spans, start, end);
    lemma_lower_bound(spans, start);
    lemma_put_at(spans, start, end, lower_bound(spans, start));
}

/// Dealing with a pending entry decodes something new, or leaves one fewer.
pub proof fn lemma_enter_progress(snap: Seq<CodeView>, st: Scan)
    requires
        spans_ok(st.spans),
        all_fit(snap),
        st.pending.len() > 0,
    ensures
        spans_ok(enter(snap, st).spans),
        enter(snap, st).spans.len() <= 0x1_0000_0000,
        enter(snap, st).spans.len() > st.spans.len() || enter(snap, st).spans == st.spans && enter(
            snap,
            st,
        ).pending.len() < st.pending.len(),
{
    let va = st.pending[0].0;
    let rest = Scan { pending: st.pending.drop_first(), ..st };
    lemma_code_at(snap, va);
    lemma_ascending_len(st.spans);
    match code_at(snap, va) {
        Some(k) if !in_span(st.spans, va) => {
            let named = with_function(rest, snap[k].index, va);
            if !named.ambiguous {
                let start = walk_start(named, va);
                assert(!has_key(start.visited, va));
                assert(!has_key(st.spans, va)) by {
                    if has_key(st.spans, va) {
                        let i = choose|i: int| 0 <= i < st.spans.len() && #[trigger] st.spans[i].0 == va;
                        assert(st.spans[i].0 <= va < st.spans[i].1);
                    }
                }
                lemma_step_progress(snap, start);
                lemma_step_spans(snap, start);
                let next = step(snap, start);
                assert(walk(snap, start) == walk(snap, next));
                lemma_walk_spans(snap, next);
                lemma_ascending_len(walk(snap, next).scan.spans);
                if snap[k].decodes(va) {
                    assert(snap[k].fits());
                    let end = (va + snap[k].insn(va).len) as u32;
                    lemma_put_span(st.spans, va, end);
                    assert(next.scan.spans == put(st.spans, va, end));
                } else {
                    assert(next.flow.len() == 0);
                    assert(walk(snap, next) == next);
                }
            }
        },
        _ => {},
    }
}

/// The entries that analysis starts from: the entry point and the function
/// symbols among the first `n` that have a section.
pub open spec fn seeds(entry: Option<u64>, symbols: Seq<SymbolView>, n: nat) -> Seq<(u32, ())>
    decreases n,
{
    if n == 0 {
        match entry {
            Some(e) => put(Seq::empty(), low32(e), ()),
            None => Seq::empty(),
        }
    } else {
        let below = seeds(entry, symbols, (n - 1) as nat);
        let s = symbols[n - 1];
        if s.kind == ObjSymbolKind::Function && s.section is Some {
            put(below, low32(s.address), ())
        } else {
            below
        }
    }
}

/// The state before the first step.
pub open spec fn scan_start(obj: ObjView) -> Scan {
    Scan {
        symbols: obj.symbols,
        sections: obj.sections,
        pending: seeds(obj.entry, obj.symbols, obj.symbols.len()),
        spans: Seq::empty(),
        raw_ends: Seq::empty(),
        tables: Seq::empty(),
        ambiguous: false,
    }
}

/// The state in which the analysis of `obj` ends.
pub open spec fn scan_end(obj: ObjView) -> Scan {
    explore(
        code_sections(obj.sections, obj.sections.len()),
        data_sections(obj.sections, obj.sections.len()),
        scan_start(obj),
        false,
    )
}

/// The symbol without the claim to be a function, if it points into the middle
/// of a decoded instruction.
pub open spec fn downgraded(s: SymbolView, spans: Seq<(u32, u32)>) -> SymbolView {
    if s.kind == ObjSymbolKind::Function && inside_nearest(spans, low32(s.address)) {
        SymbolView { kind: ObjSymbolKind::Unknown, ..s }
    } else {
        s
    }
}

/// The symbols, each [`downgraded`] where it has to be.
pub open spec fn downgrade_all(
    symbols: Seq<SymbolView>,
    spans: Seq<(u32, u32)>,
) -> Seq<SymbolView> {
    symbols.map_values(|s: SymbolView| downgraded(s, spans))
}

/// Whether every entry ends behind its start.
pub open spec fn ends_ok(raw_ends: Seq<(u32, u32)>) -> bool {
    forall|i: int| 0 <= i < raw_ends.len() ==> (#[trigger] raw_ends[i]).0 < raw_ends[i].1
}

/// Disassembling one function leaves the ends and tables of others alone.
pub proof fn lemma_walk_ends(snap: Seq<CodeView>, w: Walk)
    requires
        ascending(w.visited),
    ensures
        walk(snap, w).scan.raw_ends == w.scan.raw_ends,
        walk(snap, w).scan.tables == w.scan.tables,
    decreases 0x1_0000_0000 - w.visited.len(), w.flow.len(),
{
    if !walk_over(w) {
        lemma_step_progress(snap, w);
        lemma_walk_ends(snap, step(snap, w));
    }
}

/// Every function end that is recorded lies behind the function's entry.
pub proof fn lemma_enter_ends(snap: Seq<CodeView>, st: Scan)
    requires
        ends_ok(st.raw_ends),
        ascending(st.raw_ends),
        st.pending.len() > 0,
    ensures
        ends_ok(enter(snap, st).raw_ends),
        ascending(enter(snap, st).raw_ends),
{
    let va = st.pending[0].0;
    let rest = Scan { pending: st.pending.drop_first(), ..st };
    match code_at(snap, va) {
        Some(k) if !in_span(st.spans, va) => {
            let named = with_function(rest, snap[k].index, va);
            if !named.ambiguous {
                lemma_walk_ends(snap, walk_start(named, va));
                let w = walk(snap, walk_start(named, va));
                match last_end(w.visited, w.scan.spans, w.visited.len()) {
                    Some(e) if e > va => {
                        lemma_put_ascending(st.raw_ends, va, e);
                        lemma_lower_bound(st.raw_ends, va);
                        lemma_put_at(st.raw_ends, va, e, lower_bound(st.raw_ends, va));
                    },
                    _ => {},
                }
            }
        },
        _ => {},
    }
}

} // verus!
