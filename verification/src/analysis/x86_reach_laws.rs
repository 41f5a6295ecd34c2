//! Which code an x86 analysis reaches, and what it records of it.
use vstd::prelude::*;

use crate::addr_map::{
    ascending, has_key, lemma_lower_bound, lemma_put_ascending, lemma_put_at, lemma_put_value,
    lower_bound, put,
};
use crate::analysis::insn::{
    CodeView, X86Code, X86Flow, X86Insn, X86Operand, all_fit, code_at, code_sections, data_sections,
    lemma_code_at, x86_flow,
};
use crate::analysis::scan::{
    Scan, Walk, decodes_at, enter, explore, follow, four_before, in_span, lemma_enter_progress,
    lemma_step_progress, scan_end, scan_start, seeds, spans_ok, step, sweep, sweep_words, walk,
    walk_over, walk_start, with_function, with_transfer,
};
use crate::analysis::size_laws::{has_instruction, instruction, is_function_at};
use crate::analysis::x86_laws::{
    at_code, call_operand, lemma_at_code_kept, lemma_code_sections_kind, lemma_explore_len,
    lemma_grown_same, lemma_transfer, lemma_walk_len, relocs_ok, scan_grown, section_grown,
};
use crate::bytes::{le_u32, lemma_words, low32, number_le};
use crate::obj::{
    ObjSectionKind, ObjSymbolKind, ObjView, SectionIndex, SectionView, SymbolView,
    kind_indexes_at, lemma_kind_indexes,
};

verus! {

/// The code section that the instruction at `p` stands in.
pub open spec fn home(snap: Seq<CodeView>, p: u32) -> CodeView {
    snap[code_at(snap, p)->Some_0]
}

/// Whether an instruction stands at `p`.
pub open spec fn runs(snap: Seq<CodeView>, p: u32) -> bool {
    code_at(snap, p) is Some && has_instruction(home(snap, p), p as int)
}

/// The instruction at `p`.
pub open spec fn insn_of(snap: Seq<CodeView>, p: u32) -> X86Insn {
    instruction(home(snap, p), p as int)
}

/// Where the instruction at `p` passes control.
pub open spec fn flow_of(snap: Seq<CodeView>, p: u32) -> X86Flow {
    let code = home(snap, p);
    x86_flow(code.data.subrange(p - code.base, code.data.len() as int), p)
}

/// The address behind the instruction at `p`.
pub open spec fn behind(snap: Seq<CodeView>, p: u32) -> int {
    p + insn_of(snap, p).len
}

/// Whether control may go on behind the instruction at `p`.
pub open spec fn goes_on(snap: Seq<CodeView>, p: u32) -> bool {
    let f = flow_of(snap, p);
    f != X86Flow::UnconditionalBranch && f != X86Flow::Return && f != X86Flow::Exception && f
        != X86Flow::Interrupt
}

/// Whether the instruction at `p` names the code at `q` as its near target.
pub open spec fn names(snap: Seq<CodeView>, p: u32, q: u32) -> bool {
    insn_of(snap, p).op0 == X86Operand::NearBranch32 && insn_of(snap, p).near_branch == q
        && code_at(snap, q) is Some
}

/// Whether the instruction at `p` is a jump to the code at `q`.
pub open spec fn jumps(snap: Seq<CodeView>, p: u32, q: u32) -> bool {
    flow_of(snap, p) == X86Flow::UnconditionalBranch && names(snap, p, q)
}

/// Whether control may get from the instruction at `p` to `q` without a call.
pub open spec fn leads(snap: Seq<CodeView>, p: u32, q: u32) -> bool {
    &&& runs(snap, p)
    &&& {
        ||| goes_on(snap, p) && q == behind(snap, p)
        ||| flow_of(snap, p) == X86Flow::ConditionalBranch && names(snap, p, q)
        ||| jumps(snap, p, q)
    }
}

/// Where the operand of the jump at `p` stands: in its last four bytes.
pub open spec fn jump_field(snap: Seq<CodeView>, p: u32) -> u32 {
    ((behind(snap, p) - 4) % 0x1_0000_0000) as u32
}

/// Where the operand of the call at `p` stands: behind the opcode of a plain near call,
/// in the last four bytes of any other.
pub open spec fn call_field(snap: Seq<CodeView>, p: u32) -> u32 {
    if insn_of(snap, p).code == X86Code::CallRel32 {
        (p + 1) as u32
    } else {
        jump_field(snap, p)
    }
}

/// Whether some decoded instruction covers `va`.
pub open spec fn is_covered(spans: Seq<(u32, u32)>, va: u32) -> bool {
    exists|i: int| 0 <= i < spans.len() && (#[trigger] spans[i]).0 <= va < spans[i].1
}

/// Whether a function symbol stands at the code at `q`.
pub open spec fn is_function(snap: Seq<CodeView>, symbols: Seq<SymbolView>, q: u32) -> bool {
    exists|j: int|
        0 <= j < symbols.len() && is_function_at(
            #[trigger] symbols[j],
            home(snap, q).index,
            q as int,
        )
}

/// Whether the code at `q` is dealt with, or going to be: a decoded instruction covers
/// it, it waits to be disassembled, or it does not decode.
pub open spec fn handed(snap: Seq<CodeView>, st: Scan, q: u32) -> bool {
    in_span(st.spans, q) || has_key(st.pending, q) || !runs(snap, q)
}

/// Whether the address `q` is decoded, if an instruction stands there.
pub open spec fn decoded(snap: Seq<CodeView>, spans: Seq<(u32, u32)>, q: u32) -> bool {
    runs(snap, q) ==> has_key(spans, q)
}

/// Whether the jump at `p` to `q` is recorded as one to another function: there is a
/// function symbol at `q` and a relocation at the jump's operand.
pub open spec fn jump_recorded(snap: Seq<CodeView>, st: Scan, p: u32, q: u32) -> bool {
    &&& is_function(snap, st.symbols, q)
    &&& has_key(
        st.sections[home(snap, p).index as int].relocations,
        jump_field(snap, p),
    )
}

/// Whether all that follows from the decoded instruction at `p` is decoded, recorded, or
/// among the addresses that wait.
pub open spec fn settled(snap: Seq<CodeView>, st: Scan, waiting: Seq<u32>, p: u32) -> bool {
    &&& forall|q: u32| #[trigger]
        leads(snap, p, q) ==> decoded(snap, st.spans, q) || waiting.contains(q) || jumps(
            snap,
            p,
            q,
        ) && jump_recorded(snap, st, p, q) && handed(snap, st, q)
    &&& forall|q: u32|
        flow_of(snap, p) == X86Flow::Call && #[trigger] names(snap, p, q) ==> (handed(snap, st, q)
            || waiting.contains(q)) && is_function(snap, st.symbols, q) && has_key(
            st.sections[home(snap, p).index as int].relocations,
            call_field(snap, p),
        )
}

/// Whether the spans are those of instructions, in order, and all that follows from them
/// is settled.
pub open spec fn all_settled(snap: Seq<CodeView>, st: Scan, waiting: Seq<u32>) -> bool {
    forall|i: int|
        0 <= i < st.spans.len() ==> settled(snap, st, waiting, (#[trigger] st.spans[i]).0)
}

/// Whether the spans are those of instructions, in order.
pub open spec fn spans_true(snap: Seq<CodeView>, spans: Seq<(u32, u32)>) -> bool {
    &&& spans_ok(spans)
    &&& forall|i: int|
        0 <= i < spans.len() ==> runs(snap, (#[trigger] spans[i]).0) && spans[i].1 == behind(
            snap,
            spans[i].0,
        )
}

/// Whether `b` holds of the decoded code, the functions and the relocations all that `a`
/// does.
pub open spec fn holds_more(snap: Seq<CodeView>, a: Scan, b: Scan) -> bool {
    &&& forall|v: u32| #[trigger] has_key(a.spans, v) ==> has_key(b.spans, v)
    &&& forall|v: u32| #[trigger]
        is_function(snap, a.symbols, v) ==> is_function(snap, b.symbols, v)
    &&& a.sections.len() == b.sections.len()
    &&& forall|j: int, key: u32|
        0 <= j < a.sections.len() && #[trigger] has_key(a.sections[j].relocations, key)
            ==> has_key(b.sections[j].relocations, key)
}

/// A decoded instruction covers its own address.
pub(crate) proof fn lemma_start_covered(spans: Seq<(u32, u32)>, v: u32)
    requires
        spans_ok(spans),
        has_key(spans, v),
    ensures
        in_span(spans, v),
{
    let i = choose|i: int| 0 <= i < spans.len() && #[trigger] spans[i].0 == v;
    assert(spans[i].0 <= v < spans[i].1);
}

/// What is settled stays settled.
pub(crate) proof fn lemma_settled_more(
    snap: Seq<CodeView>,
    a: Scan,
    b: Scan,
    waiting: Seq<u32>,
    left: Seq<u32>,
    p: u32,
)
    requires
        holds_more(snap, a, b),
        forall|v: u32| #[trigger] handed(snap, a, v) ==> handed(snap, b, v) || left.contains(v),
        spans_ok(b.spans),
        at_code(snap, a.sections),
        runs(snap, p),
        settled(snap, a, waiting, p),
        forall|q: u32| #[trigger]
            waiting.contains(q) ==> left.contains(q) || decoded(snap, b.spans, q),
    ensures
        settled(snap, b, left, p),
{
    lemma_code_at(snap, p);
    let j = home(snap, p).index as int;
    assert(0 <= j < a.sections.len());
    assert forall|q: u32| #[trigger] leads(snap, p, q) implies decoded(snap, b.spans, q)
        || left.contains(q) || jumps(snap, p, q) && jump_recorded(snap, b, p, q) && handed(
        snap,
        b,
        q,
    ) by {
        if decoded(snap, a.spans, q) {
            if runs(snap, q) {
                assert(has_key(a.spans, q));
            }
        } else if !waiting.contains(q) {
            assert(jump_recorded(snap, a, p, q));
            assert(has_key(a.sections[j].relocations, jump_field(snap, p)));
        }
    }
    assert forall|q: u32|
        flow_of(snap, p) == X86Flow::Call && #[trigger] names(snap, p, q) implies (handed(
        snap,
        b,
        q,
    ) || left.contains(q)) && is_function(snap, b.symbols, q) && has_key(
        b.sections[j].relocations,
        call_field(snap, p),
    ) by {
        assert(is_function(snap, a.symbols, q));
        if waiting.contains(q) && !left.contains(q) && runs(snap, q) {
            lemma_start_covered(b.spans, q);
        }
        assert(has_key(a.sections[j].relocations, call_field(snap, p)));
    }
}

pub(crate) proof fn lemma_runs(snap: Seq<CodeView>, p: u32)
    ensures
        runs(snap, p) == decodes_at(snap, p),
        code_at(snap, p) matches Some(k) ==> {
            &&& snap[k].decodes(p) == runs(snap, p)
            &&& snap[k].insn(p) == insn_of(snap, p)
            &&& x86_flow(snap[k].from(p), p) == flow_of(snap, p)
        },
{
    lemma_code_at(snap, p);
}

/// Function symbols found by their indexes.
pub(crate) proof fn lemma_is_function(snap: Seq<CodeView>, symbols: Seq<SymbolView>, q: u32)
    ensures
        is_function(snap, symbols, q) <==> kind_indexes_at(
            symbols,
            home(snap, q).index,
            q,
            ObjSymbolKind::Function,
            symbols.len(),
        ).len() > 0,
{
    let sec = home(snap, q).index;
    let found = kind_indexes_at(symbols, sec, q, ObjSymbolKind::Function, symbols.len());
    lemma_kind_indexes(symbols, sec, q, ObjSymbolKind::Function, symbols.len());
    if found.len() > 0 {
        assert(is_function_at(symbols[found[0]], sec, q as int));
    }
    if is_function(snap, symbols, q) {
        let j = choose|j: int|
            0 <= j < symbols.len() && is_function_at(#[trigger] symbols[j], sec, q as int);
        assert(symbols[j].at(sec, q) && symbols[j].kind == ObjSymbolKind::Function);
        assert(found.contains(j));
    }
}

/// What grows keeps its functions and relocations.
pub(crate) proof fn lemma_grown_more(snap: Seq<CodeView>, a: Scan, b: Scan)
    requires
        scan_grown(snap, a, b),
    ensures
        forall|v: u32| #[trigger]
            is_function(snap, a.symbols, v) ==> is_function(snap, b.symbols, v),
        a.sections.len() == b.sections.len(),
        forall|j: int, key: u32|
            0 <= j < a.sections.len() && #[trigger] has_key(a.sections[j].relocations, key)
                ==> has_key(b.sections[j].relocations, key),
{
    assert forall|v: u32| #[trigger] is_function(snap, a.symbols, v) implies is_function(
        snap,
        b.symbols,
        v,
    ) by {
        let j = choose|j: int|
            0 <= j < a.symbols.len() && is_function_at(
                #[trigger] a.symbols[j],
                home(snap, v).index,
                v as int,
            );
        assert(b.symbols[j] == a.symbols[j]);
    }
    assert forall|j: int, key: u32|
        0 <= j < a.sections.len() && #[trigger] has_key(
            a.sections[j].relocations,
            key,
        ) implies has_key(b.sections[j].relocations, key) by {
        assert(section_grown(b.symbols, a.sections[j], b.sections[j]));
    }
}

/// What a put entry does to the keys.
pub(crate) proof fn lemma_put_keys<V>(s: Seq<(u32, V)>, k: u32, v: V, other: u32)
    requires
        ascending(s),
    ensures
        has_key(put(s, k, v), other) <==> has_key(s, other) || other == k,
{
    lemma_put_value(s, k, v, other);
}

/// A decoded instruction that is added covers what was covered, and itself.
pub(crate) proof fn lemma_put_true(snap: Seq<CodeView>, spans: Seq<(u32, u32)>, pc: u32)
    requires
        spans_true(snap, spans),
        all_fit(snap),
        runs(snap, pc),
    ensures
        ({
            let b = put(spans, pc, behind(snap, pc) as u32);
            &&& spans_true(snap, b)
            &&& forall|v: u32| #[trigger] has_key(b, v) <==> has_key(spans, v) || v == pc
            &&& forall|v: u32| #[trigger] in_span(spans, v) ==> in_span(b, v)
            &&& in_span(b, pc)
        }),
{
    lemma_code_at(snap, pc);
    assert(home(snap, pc).fits());
    let end = behind(snap, pc) as u32;
    let b = put(spans, pc, end);
    lemma_lower_bound(spans, pc);
    let at = lower_bound(spans, pc);
    lemma_put_at(spans, pc, end, at);
    crate::analysis::scan::lemma_put_span(spans, pc, end);
    assert forall|i: int| 0 <= i < b.len() implies runs(snap, (#[trigger] b[i]).0) && b[i].1
        == behind(snap, b[i].0) by {
        if i != at {
            let j = if i < at || b.len() == spans.len() {
                i
            } else {
                i - 1
            };
            assert(b[i] == spans[j]);
        }
    }
    assert forall|v: u32| #[trigger] has_key(b, v) <==> has_key(spans, v) || v == pc by {
        lemma_put_keys(spans, pc, end, v);
    }
    assert forall|v: u32| #[trigger] in_span(spans, v) implies in_span(b, v) by {
        let i = choose|i: int| 0 <= i < spans.len() && #[trigger] spans[i].0 <= v < spans[i].1;
        if i == at && b.len() == spans.len() {
            assert(b[i].0 <= v < b[i].1);
        } else {
            let j = if i < at || b.len() == spans.len() {
                i
            } else {
                i + 1
            };
            assert(b[j] == spans[i]);
            assert(b[j].0 <= v < b[j].1);
        }
    }
    assert(b[at].0 <= pc < b[at].1);
}

/// Whether the disassembly of a function is sound so far: the decoded instructions are
/// real, what was visited is decoded, and what follows from an instruction is settled or
/// waits.
pub open spec fn walk_sound(snap: Seq<CodeView>, w: Walk) -> bool {
    &&& spans_true(snap, w.scan.spans)
    &&& relocs_ok(w.scan.sections)
    &&& at_code(snap, w.scan.sections)
    &&& ascending(w.visited)
    &&& ascending(w.scan.pending)
    &&& forall|v: u32| #[trigger] has_key(w.visited, v) ==> decoded(snap, w.scan.spans, v)
    &&& all_settled(snap, w.scan, w.flow)
}

/// Where a call or jump to a function leads is dealt with.
pub(crate) proof fn lemma_transfer_handed(
    snap: Seq<CodeView>,
    st: Scan,
    src: SectionIndex,
    operand: u32,
    k: int,
    va: u32,
)
    requires
        relocs_ok(st.sections),
        src < st.sections.len(),
        st.sections[src as int].kind == ObjSectionKind::Code,
        code_at(snap, va) == Some(k),
        !st.ambiguous,
        ascending(st.pending),
        with_transfer(st, src, operand, snap[k].index, va).symbols.len() <= usize::MAX,
        !with_transfer(st, src, operand, snap[k].index, va).ambiguous,
    ensures
        ({
            let end = with_transfer(st, src, operand, snap[k].index, va);
            &&& scan_grown(snap, st, end)
            &&& has_key(end.sections[src as int].relocations, operand)
            &&& is_function(snap, end.symbols, va)
            &&& ascending(end.pending)
            &&& end.spans == st.spans
            &&& has_key(end.pending, va)
            &&& forall|v: u32| #[trigger]
                has_key(end.pending, v) <==> has_key(st.pending, v) || v == va
        }),
{
    let named = with_function(st, snap[k].index, va);
    let end = with_transfer(st, src, operand, snap[k].index, va);
    lemma_transfer(snap, st, src, operand, k, va);
    lemma_is_function(snap, end.symbols, va);
    assert(named.pending == st.pending);
    assert(end.pending == put(st.pending, va, ()));
    lemma_put_ascending(st.pending, va, ());
    assert forall|v: u32| #[trigger] has_key(end.pending, v) <==> has_key(st.pending, v) || v
        == va by {
        lemma_put_keys(st.pending, va, (), v);
    }
    assert(has_key(end.pending, va));
}

pub(crate) proof fn lemma_pushed_contains(s: Seq<u32>, x: u32)
    ensures
        s.push(x).contains(x),
        forall|q: u32| #[trigger] s.contains(q) ==> s.push(x).contains(q),
{
    assert(s.push(x)[s.len() as int] == x);
    assert forall|q: u32| #[trigger] s.contains(q) implies s.push(x).contains(q) by {
        let i = choose|i: int| 0 <= i < s.len() && s[i] == q;
        assert(s.push(x)[i] == q);
    }
}

/// What following the instruction at `pc` does: `pc` is settled, what waited waits, and
/// nothing is lost.
pub(crate) proof fn lemma_follow_settled(snap: Seq<CodeView>, w: Walk, k: int, pc: u32)
    requires
        all_fit(snap),
        relocs_ok(w.scan.sections),
        at_code(snap, w.scan.sections),
        ascending(w.scan.pending),
        !w.scan.ambiguous,
        code_at(snap, pc) == Some(k),
        runs(snap, pc),
        ({
            let end = follow(
                snap,
                w,
                snap[k].index,
                pc,
                insn_of(snap, pc),
                flow_of(snap, pc),
            );
            !end.scan.ambiguous && end.scan.symbols.len() <= usize::MAX
        }),
    ensures
        ({
            let end = follow(
                snap,
                w,
                snap[k].index,
                pc,
                insn_of(snap, pc),
                flow_of(snap, pc),
            );
            &&& settled(snap, end.scan, end.flow, pc)
            &&& scan_grown(snap, w.scan, end.scan)
            &&& end.scan.spans == w.scan.spans
            &&& end.visited == w.visited
            &&& ascending(end.scan.pending)
            &&& forall|v: u32| #[trigger]
                has_key(w.scan.pending, v) ==> has_key(end.scan.pending, v)
            &&& forall|q: u32| #[trigger] w.flow.contains(q) ==> end.flow.contains(q)
        }),
{
    let insn = insn_of(snap, pc);
    let flow = flow_of(snap, pc);
    let src = snap[k].index;
    let end = follow(snap, w, src, pc, insn, flow);
    lemma_code_at(snap, pc);
    assert(snap[k].fits());
    let next = (pc + insn.len) as u32;
    assert(next == behind(snap, pc));
    assert(four_before(next) == jump_field(snap, pc));
    assert(call_operand(pc, insn) == call_field(snap, pc));
    lemma_grown_same(snap, w.scan);
    lemma_pushed_contains(w.flow, next);
    lemma_pushed_contains(w.flow, insn.near_branch);
    lemma_pushed_contains(w.flow.push(next), insn.near_branch);
    match code_at(snap, insn.near_branch) {
        Some(t) => {
            let operand = if flow == X86Flow::Call {
                call_operand(pc, insn)
            } else {
                four_before(next)
            };
            let moved = with_transfer(w.scan, src, operand, snap[t].index, insn.near_branch);
            if end.scan == moved {
                lemma_transfer_handed(snap, w.scan, src, operand, t, insn.near_branch);
            }
            if flow == X86Flow::Call && insn.op0 == X86Operand::NearBranch32 {
                assert(end.scan == moved);
            }
        },
        None => {},
    }
    assert forall|q: u32| #[trigger] leads(snap, pc, q) implies decoded(snap, end.scan.spans, q)
        || end.flow.contains(q) || jumps(snap, pc, q) && jump_recorded(
        snap,
        end.scan,
        pc,
        q,
    ) && handed(snap, end.scan, q) by {
        if goes_on(snap, pc) && q == behind(snap, pc) {
            assert(end.flow.contains(q));
        } else if flow == X86Flow::ConditionalBranch {
            assert(end.flow.contains(q));
        } else {
            assert(jumps(snap, pc, q));
            if !end.flow.contains(q) {
                assert(jump_recorded(snap, end.scan, pc, q));
            }
        }
    }
}

/// One step keeps the disassembly sound and loses nothing.
pub(crate) proof fn lemma_step_sound(snap: Seq<CodeView>, w: Walk)
    requires
        all_fit(snap),
        walk_sound(snap, w),
        !walk_over(w),
        !step(snap, w).scan.ambiguous,
        step(snap, w).scan.symbols.len() <= usize::MAX,
    ensures
        walk_sound(snap, step(snap, w)),
        holds_more(snap, w.scan, step(snap, w).scan),
        forall|v: u32| #[trigger] handed(snap, w.scan, v) ==> handed(snap, step(snap, w).scan, v),
        scan_grown(snap, w.scan, step(snap, w).scan),
        forall|v: u32| #[trigger]
            w.flow.contains(v) || has_key(w.visited, v) ==> step(snap, w).flow.contains(v)
                || has_key(step(snap, w).visited, v),
{
    let pc = w.flow[0];
    let rest = w.flow.drop_first();
    let end = step(snap, w);
    lemma_runs(snap, pc);
    lemma_grown_same(snap, w.scan);
    lemma_put_ascending(w.visited, pc, ());
    assert forall|v: u32| #[trigger] has_key(put(w.visited, pc, ()), v) <==> has_key(w.visited, v)
        || v == pc by {
        lemma_put_keys(w.visited, pc, (), v);
    }
    assert forall|q: u32| #[trigger] w.flow.contains(q) implies rest.contains(q) || q == pc by {
        let i = choose|i: int| 0 <= i < w.flow.len() && w.flow[i] == q;
        if i > 0 {
            assert(rest[i - 1] == q);
        }
    }
    if !has_key(w.visited, pc) && runs(snap, pc) {
        let k = code_at(snap, pc)->Some_0;
        lemma_code_at(snap, pc);
        assert(snap[k].fits());
        let span = behind(snap, pc) as u32;
        let seen = Walk {
            scan: Scan { spans: put(w.scan.spans, pc, span), ..w.scan },
            visited: put(w.visited, pc, ()),
            flow: rest,
            ..w
        };
        lemma_put_true(snap, w.scan.spans, pc);
        assert(end == follow(snap, seen, snap[k].index, pc, insn_of(snap, pc), flow_of(snap, pc)));
        lemma_follow_settled(snap, seen, k, pc);
        assert(scan_grown(snap, w.scan, end.scan));
        lemma_grown_more(snap, w.scan, end.scan);
        lemma_at_code_kept(snap, w.scan, end.scan);
        assert forall|v: u32| #[trigger] handed(snap, w.scan, v) implies handed(
            snap,
            end.scan,
            v,
        ) by {
            if in_span(w.scan.spans, v) {
                assert(in_span(end.scan.spans, v));
            }
        }
        assert(holds_more(snap, w.scan, end.scan));
        assert(has_key(end.scan.spans, pc));
        assert forall|i: int| 0 <= i < end.scan.spans.len() implies settled(
            snap,
            end.scan,
            end.flow,
            (#[trigger] end.scan.spans[i]).0,
        ) by {
            let p = end.scan.spans[i].0;
            if p != pc {
                assert(has_key(end.scan.spans, p));
                assert(has_key(w.scan.spans, p));
                let j = choose|j: int| 0 <= j < w.scan.spans.len() && #[trigger] w.scan.spans[j].0 == p;
                assert(settled(snap, w.scan, w.flow, w.scan.spans[j].0));
                lemma_settled_more(snap, w.scan, end.scan, w.flow, end.flow, p);
            }
        }
        assert forall|v: u32| #[trigger] has_key(end.visited, v) implies decoded(
            snap,
            end.scan.spans,
            v,
        ) by {
            if v != pc {
                assert(has_key(w.visited, v));
                assert(decoded(snap, w.scan.spans, v));
            }
        }
    } else {
        assert(end.scan == w.scan);
        assert(end.flow == rest);
        assert(decoded(snap, w.scan.spans, pc));
        assert forall|i: int| 0 <= i < end.scan.spans.len() implies settled(
            snap,
            end.scan,
            end.flow,
            (#[trigger] end.scan.spans[i]).0,
        ) by {
            let p = w.scan.spans[i].0;
            assert(settled(snap, w.scan, w.flow, p));
            lemma_settled_more(snap, w.scan, w.scan, w.flow, rest, p);
        }
    }
}

/// The disassembly of a function stays sound, and comes to every address that waited.
pub(crate) proof fn lemma_walk_sound(snap: Seq<CodeView>, w: Walk)
    requires
        all_fit(snap),
        walk_sound(snap, w),
        !walk(snap, w).scan.ambiguous,
        walk(snap, w).scan.symbols.len() <= usize::MAX,
    ensures
        walk_sound(snap, walk(snap, w)),
        walk(snap, w).flow.len() == 0,
        holds_more(snap, w.scan, walk(snap, w).scan),
        forall|v: u32| #[trigger] handed(snap, w.scan, v) ==> handed(snap, walk(snap, w).scan, v),
        forall|v: u32| #[trigger]
            w.flow.contains(v) || has_key(w.visited, v) ==> has_key(walk(snap, w).visited, v),
    decreases 0x1_0000_0000 - w.visited.len(), w.flow.len(),
{
    if !walk_over(w) {
        let next = step(snap, w);
        lemma_step_progress(snap, w);
        lemma_walk_len(snap, next);
        assert(walk(snap, w) == walk(snap, next));
        if next.scan.ambiguous {
            assert(walk(snap, next) == next);
        }
        lemma_step_sound(snap, w);
        lemma_walk_sound(snap, next);
        let end = walk(snap, next);
        assert(holds_more(snap, w.scan, end.scan)) by {
            assert forall|j: int, key: u32|
                0 <= j < w.scan.sections.len() && #[trigger] has_key(
                    w.scan.sections[j].relocations,
                    key,
                ) implies has_key(end.scan.sections[j].relocations, key) by {
                assert(has_key(next.scan.sections[j].relocations, key));
            }
        }
        assert forall|v: u32| #[trigger]
            w.flow.contains(v) || has_key(w.visited, v) implies has_key(
            walk(snap, w).visited,
            v,
        ) by {
            assert(next.flow.contains(v) || has_key(next.visited, v));
        }
    }
}

/// Whether the analysis is sound between two functions.
pub open spec fn scan_sound(snap: Seq<CodeView>, st: Scan) -> bool {
    &&& spans_true(snap, st.spans)
    &&& relocs_ok(st.sections)
    &&& at_code(snap, st.sections)
    &&& ascending(st.pending)
    &&& all_settled(snap, st, Seq::empty())
}

/// Dealing with a pending entry keeps the analysis sound and loses nothing.
pub(crate) proof fn lemma_enter_sound(snap: Seq<CodeView>, st: Scan)
    requires
        all_fit(snap),
        scan_sound(snap, st),
        st.pending.len() > 0,
        !st.ambiguous,
        !enter(snap, st).ambiguous,
        enter(snap, st).symbols.len() <= usize::MAX,
    ensures
        scan_sound(snap, enter(snap, st)),
        forall|v: u32| #[trigger] handed(snap, st, v) ==> handed(snap, enter(snap, st), v),
{
    let va = st.pending[0].0;
    let rest = Scan { pending: st.pending.drop_first(), ..st };
    let end = enter(snap, st);
    lemma_runs(snap, va);
    lemma_grown_same(snap, st);
    assert forall|v: u32| #[trigger] has_key(st.pending, v) implies has_key(rest.pending, v) || v
        == va by {
        let i = choose|i: int| 0 <= i < st.pending.len() && #[trigger] st.pending[i].0 == v;
        if i > 0 {
            assert(rest.pending[i - 1].0 == v);
        }
    }
    if in_span(st.spans, va) || code_at(snap, va) is None {
        assert(end == rest);
        assert forall|v: u32| #[trigger] handed(snap, st, v) implies handed(snap, rest, v) by {}
        assert forall|i: int| 0 <= i < rest.spans.len() implies settled(
            snap,
            rest,
            Seq::empty(),
            (#[trigger] rest.spans[i]).0,
        ) by {
            let p = st.spans[i].0;
            assert(settled(snap, st, Seq::empty(), p));
            lemma_settled_more(snap, st, rest, Seq::empty(), Seq::empty(), p);
        }
    } else {
        let k = code_at(snap, va)->Some_0;
        let named = with_function(rest, snap[k].index, va);
        let start = walk_start(named, va);
        let w = walk(snap, start);
        if named.ambiguous || w.scan.ambiguous {
            assert(end.ambiguous);
        }
        if named.symbols.len() > st.symbols.len() {
            assert(named.symbols[st.symbols.len() as int]
                == crate::analysis::scan::found_function(snap[k].index, va));
        }
        assert(scan_grown(snap, st, named));
        lemma_grown_more(snap, st, named);
        assert(start.flow[0] == va);
        assert(start.flow.contains(va));
        assert forall|v: u32| #[trigger] handed(snap, st, v) implies handed(snap, named, v)
            || start.flow.contains(v) by {}
        assert forall|i: int| 0 <= i < named.spans.len() implies settled(
            snap,
            named,
            start.flow,
            (#[trigger] named.spans[i]).0,
        ) by {
            let p = st.spans[i].0;
            assert(settled(snap, st, Seq::empty(), p));
            lemma_settled_more(snap, st, named, Seq::empty(), start.flow, p);
        }
        assert(walk_sound(snap, start));
        lemma_walk_sound(snap, start);
        assert(w.flow =~= Seq::empty());
        assert(has_key(w.visited, va));
        if runs(snap, va) {
            lemma_start_covered(w.scan.spans, va);
        }
        assert forall|v: u32| #[trigger] handed(snap, st, v) implies handed(snap, end, v) by {
            if v != va {
                assert(handed(snap, named, v));
                assert(handed(snap, w.scan, v));
            }
        }
        assert forall|i: int| 0 <= i < end.spans.len() implies settled(
            snap,
            end,
            Seq::empty(),
            (#[trigger] end.spans[i]).0,
        ) by {
            let p = w.scan.spans[i].0;
            assert(settled(snap, w.scan, w.flow, p));
            lemma_settled_more(snap, w.scan, end, w.flow, Seq::empty(), p);
        }
    }
}

/// The words of a data section that lead to code are dealt with.
proof fn lemma_words_handed(
    snap: Seq<CodeView>,
    st: Scan,
    data: Seq<u8>,
    n: nat,
)
    requires
        ascending(st.pending),
        n <= data.len() / 4,
    ensures
        ({
            let pending = sweep_words(snap, st.spans, st.pending, data, n);
            let end = Scan { pending, ..st };
            &&& ascending(pending)
            &&& forall|v: u32| #[trigger] has_key(st.pending, v) ==> has_key(pending, v)
            &&& forall|j: int|
                0 <= j < n ==> handed(snap, end, #[trigger] number_le(data, 4 * j, 4) as u32)
        }),
    decreases n,
{
    if n > 0 {
        lemma_words_handed(snap, st, data, (n - 1) as nat);
        let below = sweep_words(snap, st.spans, st.pending, data, (n - 1) as nat);
        let word = le_u32(data, 4 * (n - 1));
        let pending = sweep_words(snap, st.spans, st.pending, data, n);
        let end = Scan { pending, ..st };
        lemma_put_ascending(below, word, ());
        lemma_runs(snap, word);
        assert forall|v: u32| #[trigger] has_key(below, v) implies has_key(pending, v) by {
            lemma_put_keys(below, word, (), v);
        }
        lemma_put_keys(below, word, (), word);
        lemma_words(data, 4 * (n - 1));
        assert forall|j: int| 0 <= j < n implies handed(
            snap,
            end,
            #[trigger] number_le(data, 4 * j, 4) as u32,
        ) by {
            if j < n - 1 {
                assert(handed(
                    snap,
                    Scan { pending: below, ..st },
                    number_le(data, 4 * j, 4) as u32,
                ));
            } else {
                assert(number_le(data, 4 * j, 4) as u32 == word);
            }
        }
    }
}

/// The words of the data sections that lead to code are dealt with.
pub(crate) proof fn lemma_sweep_handed(snap: Seq<CodeView>, st: Scan, datas: Seq<Seq<u8>>, n: nat)
    requires
        ascending(st.pending),
        n <= datas.len(),
    ensures
        ({
            let pending = sweep(snap, st.spans, st.pending, datas, n);
            let end = Scan { pending, ..st };
            &&& ascending(pending)
            &&& forall|v: u32| #[trigger] has_key(st.pending, v) ==> has_key(pending, v)
            &&& forall|m: int, j: int|
                0 <= m < n && 0 <= j < datas[m].len() / 4 ==> handed(
                    snap,
                    end,
                    #[trigger] number_le(datas[m], 4 * j, 4) as u32,
                )
        }),
    decreases n,
{
    if n > 0 {
        lemma_sweep_handed(snap, st, datas, (n - 1) as nat);
        let below = Scan {
            pending: sweep(snap, st.spans, st.pending, datas, (n - 1) as nat),
            ..st
        };
        let data = datas[n - 1];
        lemma_words_handed(snap, below, data, data.len() / 4);
        let end = Scan { pending: sweep(snap, st.spans, st.pending, datas, n), ..st };
        assert forall|m: int, j: int|
            0 <= m < n && 0 <= j < datas[m].len() / 4 implies handed(
            snap,
            end,
            #[trigger] number_le(datas[m], 4 * j, 4) as u32,
        ) by {
            if m < n - 1 {
                assert(handed(snap, below, number_le(datas[m], 4 * j, 4) as u32));
            }
        }
    }
}

/// Whether the words of the data sections that lead to code are dealt with.
pub open spec fn words_handed(snap: Seq<CodeView>, datas: Seq<Seq<u8>>, st: Scan) -> bool {
    forall|m: int, j: int|
        0 <= m < datas.len() && 0 <= j < datas[m].len() / 4 ==> handed(
            snap,
            st,
            #[trigger] number_le(datas[m], 4 * j, 4) as u32,
        )
}

/// The analysis ends sound, with nothing lost and nothing left to deal with.
pub(crate) proof fn lemma_explore_sound(
    snap: Seq<CodeView>,
    datas: Seq<Seq<u8>>,
    st: Scan,
    swept: bool,
)
    requires
        all_fit(snap),
        scan_sound(snap, st),
        swept ==> words_handed(snap, datas, st),
        !explore(snap, datas, st, swept).ambiguous,
        explore(snap, datas, st, swept).symbols.len() <= usize::MAX,
    ensures
        ({
            let end = explore(snap, datas, st, swept);
            &&& scan_sound(snap, end)
            &&& end.pending.len() == 0
            &&& words_handed(snap, datas, end)
            &&& forall|v: u32| #[trigger] handed(snap, st, v) ==> handed(snap, end, v)
        }),
    decreases (if swept { 0int } else { 1int }), 0x1_0000_0000 - st.spans.len(), st.pending.len(),
{
    if !st.ambiguous {
        if st.pending.len() > 0 {
            let next = enter(snap, st);
            lemma_enter_progress(snap, st);
            lemma_explore_len(snap, datas, next, swept);
            assert(explore(snap, datas, st, swept) == explore(snap, datas, next, swept));
            if next.ambiguous {
                assert(explore(snap, datas, next, swept) == next);
            }
            lemma_enter_sound(snap, st);
            lemma_explore_sound(snap, datas, next, swept);
            assert forall|v: u32| #[trigger] handed(snap, st, v) implies handed(
                snap,
                explore(snap, datas, st, swept),
                v,
            ) by {
                assert(handed(snap, next, v));
            }
        } else if !swept {
            let pending = sweep(snap, st.spans, st.pending, datas, datas.len());
            let next = Scan { pending, ..st };
            lemma_sweep_handed(snap, st, datas, datas.len());
            assert forall|i: int| 0 <= i < next.spans.len() implies settled(
                snap,
                next,
                Seq::empty(),
                (#[trigger] next.spans[i]).0,
            ) by {
                let p = st.spans[i].0;
                assert(settled(snap, st, Seq::empty(), p));
                lemma_settled_more(snap, st, next, Seq::empty(), Seq::empty(), p);
            }
            assert(explore(snap, datas, st, swept) == explore(snap, datas, next, true));
            lemma_explore_sound(snap, datas, next, true);
            assert forall|v: u32| #[trigger] handed(snap, st, v) implies handed(
                snap,
                explore(snap, datas, st, swept),
                v,
            ) by {
                assert(handed(snap, next, v));
            }
        } else {
            assert(explore(snap, datas, st, swept) == st);
        }
    }
}

/// Every seed waits.
pub(crate) proof fn lemma_seeds_wait(entry: Option<u64>, symbols: Seq<SymbolView>, n: nat)
    requires
        n <= symbols.len(),
    ensures
        ascending(seeds(entry, symbols, n)),
        entry matches Some(e) ==> has_key(
            seeds(entry, symbols, n),
            (e % 0x1_0000_0000) as u32,
        ),
        forall|i: int|
            0 <= i < n && (#[trigger] symbols[i]).kind == ObjSymbolKind::Function
                && symbols[i].section is Some ==> has_key(
                seeds(entry, symbols, n),
                (symbols[i].address % 0x1_0000_0000) as u32,
            ),
    decreases n,
{
    if n == 0 {
        if let Some(e) = entry {
            let none: Seq<(u32, ())> = Seq::empty();
            lemma_put_ascending(none, low32(e), ());
            lemma_put_keys(none, low32(e), (), low32(e));
        }
    } else {
        lemma_seeds_wait(entry, symbols, (n - 1) as nat);
        let below = seeds(entry, symbols, (n - 1) as nat);
        let s = symbols[n - 1];
        lemma_put_ascending(below, low32(s.address), ());
        assert forall|v: u32| #[trigger] has_key(below, v) implies has_key(
            put(below, low32(s.address), ()),
            v,
        ) by {
            lemma_put_keys(below, low32(s.address), (), v);
        }
        lemma_put_keys(below, low32(s.address), (), low32(s.address));
        assert forall|i: int|
            0 <= i < n && (#[trigger] symbols[i]).kind == ObjSymbolKind::Function
                && symbols[i].section is Some implies has_key(
            seeds(entry, symbols, n),
            (symbols[i].address % 0x1_0000_0000) as u32,
        ) by {
            if i < n - 1 {
                assert(has_key(below, (symbols[i].address % 0x1_0000_0000) as u32));
            }
        }
    }
}

/// Every section with initialised data is one of the data sections.
proof fn lemma_data_taken(s: Seq<SectionView>, n: nat, j: int)
    requires
        0 <= j < n <= s.len(),
        s[j].kind == ObjSectionKind::Data || s[j].kind == ObjSectionKind::ReadOnlyData,
        s[j].data.len() > 0,
    ensures
        data_sections(s, n).contains(s[j].data),
    decreases n,
{
    let below = data_sections(s, (n - 1) as nat);
    if j == n - 1 {
        assert(data_sections(s, n)[below.len() as int] == s[j].data);
    } else {
        lemma_data_taken(s, (n - 1) as nat, j);
        let i = choose|i: int| 0 <= i < below.len() && below[i] == s[j].data;
        assert(data_sections(s, n)[i] == s[j].data);
    }
}

/// Whether the analysis reached the code at `va`, if an instruction stands there.
pub open spec fn is_reached(obj: ObjView, va: u32) -> bool {
    runs(code_sections(obj.sections, obj.sections.len()), va) ==> is_covered(
        scan_end(obj).spans,
        va,
    )
}

/// A successful analysis reaches the entry point, every known function and every code
/// address that a word of a data section holds: wherever an instruction stands at one of
/// these, a decoded instruction covers it.
pub proof fn lemma_analysis_reaches(obj: ObjView)
    requires
        all_fit(code_sections(obj.sections, obj.sections.len())),
        relocs_ok(obj.sections),
        obj.sections.len() <= usize::MAX,
        scan_end(obj).symbols.len() <= usize::MAX,
        !scan_end(obj).ambiguous,
    ensures
        obj.entry matches Some(e) ==> is_reached(obj, (e % 0x1_0000_0000) as u32),
        forall|i: int|
            0 <= i < obj.symbols.len() && (#[trigger] obj.symbols[i]).kind
                == ObjSymbolKind::Function && obj.symbols[i].section is Some ==> is_reached(
                obj,
                (obj.symbols[i].address % 0x1_0000_0000) as u32,
            ),
        forall|k: int, j: int|
            0 <= k < obj.sections.len() && (obj.sections[k].kind == ObjSectionKind::Data
                || obj.sections[k].kind == ObjSectionKind::ReadOnlyData) && 0 <= j && 4 * j + 4
                <= obj.sections[k].data.len() ==> is_reached(
                obj,
                #[trigger] number_le(obj.sections[k].data, 4 * j, 4) as u32,
            ),
{
    lemma_end_sound(obj);
    let snap = code_sections(obj.sections, obj.sections.len());
    let datas = data_sections(obj.sections, obj.sections.len());
    let end = scan_end(obj);
    lemma_seeds_wait(obj.entry, obj.symbols, obj.symbols.len());
    let start = scan_start(obj);
    if let Some(e) = obj.entry {
        assert(handed(snap, start, (e % 0x1_0000_0000) as u32));
        lemma_handed_reached(obj, (e % 0x1_0000_0000) as u32);
    }
    assert forall|i: int|
        0 <= i < obj.symbols.len() && (#[trigger] obj.symbols[i]).kind == ObjSymbolKind::Function
            && obj.symbols[i].section is Some implies is_reached(
        obj,
        (obj.symbols[i].address % 0x1_0000_0000) as u32,
    ) by {
        let va = (obj.symbols[i].address % 0x1_0000_0000) as u32;
        assert(handed(snap, start, va));
        lemma_handed_reached(obj, va);
    }
    assert forall|k: int, j: int|
        0 <= k < obj.sections.len() && (obj.sections[k].kind == ObjSectionKind::Data
            || obj.sections[k].kind == ObjSectionKind::ReadOnlyData) && 0 <= j && 4 * j + 4
            <= obj.sections[k].data.len() implies is_reached(
        obj,
        #[trigger] number_le(obj.sections[k].data, 4 * j, 4) as u32,
    ) by {
        lemma_data_taken(obj.sections, obj.sections.len(), k);
        let m = choose|m: int| 0 <= m < datas.len() && datas[m] == obj.sections[k].data;
        assert(handed(snap, end, number_le(datas[m], 4 * j, 4) as u32));
        lemma_handed_reached(obj, number_le(datas[m], 4 * j, 4) as u32);
    }
}

/// What is dealt with in the end is reached.
proof fn lemma_handed_reached(obj: ObjView, va: u32)
    requires
        scan_end(obj).pending.len() == 0,
        handed(code_sections(obj.sections, obj.sections.len()), scan_end(obj), va),
    ensures
        is_reached(obj, va),
{
}

/// How an analysis ends.
pub(crate) proof fn lemma_end_sound(obj: ObjView)
    requires
        all_fit(code_sections(obj.sections, obj.sections.len())),
        relocs_ok(obj.sections),
        obj.sections.len() <= usize::MAX,
        scan_end(obj).symbols.len() <= usize::MAX,
        !scan_end(obj).ambiguous,
    ensures
        ({
            let snap = code_sections(obj.sections, obj.sections.len());
            let datas = data_sections(obj.sections, obj.sections.len());
            let end = scan_end(obj);
            &&& scan_sound(snap, end)
            &&& end.pending.len() == 0
            &&& words_handed(snap, datas, end)
            &&& forall|v: u32| #[trigger]
                handed(snap, scan_start(obj), v) ==> handed(snap, end, v)
        }),
{
    let snap = code_sections(obj.sections, obj.sections.len());
    let datas = data_sections(obj.sections, obj.sections.len());
    lemma_code_sections_kind(obj.sections, obj.sections.len());
    lemma_seeds_wait(obj.entry, obj.symbols, obj.symbols.len());
    lemma_explore_sound(snap, datas, scan_start(obj), false);
}

/// A successful analysis decodes instructions only where they stand, and follows them:
/// wherever control gets to from a decoded instruction without a call, the instruction
/// is decoded too, unless a jump gets there that is recorded as one to another function;
/// and every call is recorded. What a recorded jump or call leads to is reached.
pub proof fn lemma_analysis_follows(obj: ObjView)
    requires
        all_fit(code_sections(obj.sections, obj.sections.len())),
        relocs_ok(obj.sections),
        obj.sections.len() <= usize::MAX,
        scan_end(obj).symbols.len() <= usize::MAX,
        !scan_end(obj).ambiguous,
    ensures
        ({
            let snap = code_sections(obj.sections, obj.sections.len());
            let end = scan_end(obj);
            &&& forall|i: int|
                0 <= i < end.spans.len() ==> runs(snap, (#[trigger] end.spans[i]).0)
                    && end.spans[i].1 == behind(snap, end.spans[i].0)
            &&& forall|i: int, j: int|
                0 <= i < j < end.spans.len() ==> (#[trigger] end.spans[i]).0 < (
                #[trigger] end.spans[j]).0
            &&& forall|p: u32, q: u32|
                has_key(end.spans, p) && #[trigger] leads(snap, p, q) && runs(snap, q) ==> has_key(
                    end.spans,
                    q,
                ) || jumps(snap, p, q) && jump_recorded(snap, end, p, q) && is_reached(obj, q)
            &&& forall|p: u32, q: u32|
                has_key(end.spans, p) && flow_of(snap, p) == X86Flow::Call && #[trigger] names(
                    snap,
                    p,
                    q,
                ) ==> {
                    &&& is_reached(obj, q)
                    &&& is_function(snap, end.symbols, q)
                    &&& has_key(
                        end.sections[home(snap, p).index as int].relocations,
                        call_field(snap, p),
                    )
                }
        }),
{
    lemma_end_sound(obj);
    let snap = code_sections(obj.sections, obj.sections.len());
    let end = scan_end(obj);
    assert forall|p: u32, q: u32|
        has_key(end.spans, p) && #[trigger] leads(snap, p, q) && runs(snap, q) implies has_key(
        end.spans,
        q,
    ) || jumps(snap, p, q) && jump_recorded(snap, end, p, q) && is_reached(obj, q) by {
        let i = choose|i: int| 0 <= i < end.spans.len() && #[trigger] end.spans[i].0 == p;
        assert(settled(snap, end, Seq::empty(), end.spans[i].0));
    }
    assert forall|p: u32, q: u32|
        has_key(end.spans, p) && flow_of(snap, p) == X86Flow::Call && #[trigger] names(
            snap,
            p,
            q,
        ) implies {
        &&& is_reached(obj, q)
        &&& is_function(snap, end.symbols, q)
        &&& has_key(
            end.sections[home(snap, p).index as int].relocations,
            call_field(snap, p),
        )
    } by {
        let i = choose|i: int| 0 <= i < end.spans.len() && #[trigger] end.spans[i].0 == p;
        assert(settled(snap, end, Seq::empty(), end.spans[i].0));
    }
}

} // verus!
