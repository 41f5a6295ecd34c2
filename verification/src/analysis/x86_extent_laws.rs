//! How far the functions that an x86 analysis finds go.
use vstd::prelude::*;

use crate::addr_map::{
    ascending, has_key, lemma_lower_bound, lemma_put_ascending, lemma_put_at, lower_bound, put,
    value_at,
};
use crate::analysis::insn::{
    CodeView, X86Flow, X86Operand, all_fit, code_at, code_sections, data_sections, lemma_code_at,
};
use crate::analysis::scan::{
    Scan, Walk, enter, explore, finish, follow, found_function, in_span, last_end,
    lemma_enter_progress, lemma_step_progress, lemma_walk_ends, scan_end, scan_start, step, sweep,
    walk, walk_over, walk_start, with_function,
};
use crate::analysis::x86_laws::{
    at_code, lemma_code_sections_kind, lemma_explore_len, lemma_grown_same, lemma_walk_len,
    relocs_ok, scan_grown,
};
use crate::analysis::x86_reach_laws::{
    behind, decoded, flow_of, goes_on, handed, home, insn_of, is_function, jumps, leads,
    lemma_enter_sound, lemma_follow_settled, lemma_grown_more, lemma_put_keys, lemma_runs,
    lemma_seeds_wait, lemma_settled_more, lemma_step_sound, lemma_sweep_handed, lemma_walk_sound,
    runs, scan_sound, settled, spans_true, walk_sound,
};
use crate::bytes::low32;
use crate::obj::{ObjSectionKind, ObjView, SectionView, SymbolView};

verus! {

/// Whether control gets along the addresses, from each to the next, without a call.
pub open spec fn is_route(snap: Seq<CodeView>, path: Seq<u32>) -> bool {
    path.len() > 0 && forall|j: int|
        0 <= j < path.len() - 1 ==> leads(snap, #[trigger] path[j], path[j + 1])
}

/// Whether control may get from `f` to `p` without a call.
pub open spec fn reaches(snap: Seq<CodeView>, f: u32, p: u32) -> bool {
    exists|path: Seq<u32>| #[trigger] is_route(snap, path) && path[0] == f && path.last() == p
}

/// Whether control gets along the addresses, from each to the next, without a call and
/// without a jump to where a function symbol stands.
pub open spec fn is_own_route(
    snap: Seq<CodeView>,
    symbols: Seq<SymbolView>,
    path: Seq<u32>,
) -> bool {
    path.len() > 0 && forall|j: int|
        0 <= j < path.len() - 1 ==> leads(snap, #[trigger] path[j], path[j + 1]) && !(jumps(
            snap,
            path[j],
            path[j + 1],
        ) && is_function(snap, symbols, path[j + 1]))
}

/// Whether the indirect jump at `p` goes through the table at the code address `t`.
pub open spec fn uses_table(snap: Seq<CodeView>, p: u32, t: u32) -> bool {
    &&& runs(snap, p)
    &&& flow_of(snap, p) == X86Flow::IndirectBranch
    &&& insn_of(snap, p).op0 == X86Operand::Memory
    &&& insn_of(snap, p).displacement != 0
    &&& insn_of(snap, p).displacement % 0x1_0000_0000 == t
    &&& code_at(snap, t) is Some
}

/// Whether `e` is the end of the function at `f`: the end of an instruction of it, and
/// of its last one.
pub open spec fn is_extent(
    snap: Seq<CodeView>,
    symbols: Seq<SymbolView>,
    f: u32,
    e: u32,
) -> bool {
    &&& exists|p: u32| #[trigger] runs(snap, p) && reaches(snap, f, p) && e == behind(snap, p)
    &&& forall|path: Seq<u32>|
        #[trigger] is_own_route(snap, symbols, path) && path[0] == f && runs(snap, path.last())
            ==> behind(snap, path.last()) <= e
}

/// Whether the recorded tables are those of the function at `f`: each is used by an
/// instruction of it, and each that an instruction uses is recorded.
pub open spec fn has_tables(
    snap: Seq<CodeView>,
    symbols: Seq<SymbolView>,
    tables: Seq<(u32, u32)>,
    f: u32,
) -> bool {
    forall|path: Seq<u32>, t: u32| #[trigger]
        is_own_route(snap, symbols, path) && path[0] == f && #[trigger] uses_table(
            snap,
            path.last(),
            t,
        ) ==> tables.contains((f, t))
}

/// Whether `t` is a table that an instruction of the function at `f` uses.
pub open spec fn is_used(snap: Seq<CodeView>, f: u32, t: u32) -> bool {
    exists|p: u32| #[trigger] uses_table(snap, p, t) && reaches(snap, f, p)
}

pub(crate) proof fn lemma_reaches_self(snap: Seq<CodeView>, f: u32)
    ensures
        reaches(snap, f, f),
{
    assert(is_route(snap, seq![f]));
    assert(seq![f].last() == f);
}

proof fn lemma_reaches_on(snap: Seq<CodeView>, f: u32, p: u32, q: u32)
    requires
        reaches(snap, f, p),
        leads(snap, p, q),
    ensures
        reaches(snap, f, q),
{
    let path = choose|path: Seq<u32>| #[trigger]
        is_route(snap, path) && path[0] == f && path.last() == p;
    let on = path.push(q);
    assert forall|j: int| 0 <= j < on.len() - 1 implies leads(
        snap,
        #[trigger] on[j],
        on[j + 1],
    ) by {
        assert(on[j] == path[j]);
        if j < path.len() - 1 {
            assert(on[j + 1] == path[j + 1]);
        }
    }
    assert(is_route(snap, on));
    assert(on.last() == q);
}

/// Whether the disassembly of the function at `f` knows what belongs to it.
pub open spec fn walk_within(snap: Seq<CodeView>, w: Walk, f: u32) -> bool {
    &&& forall|v: u32| #[trigger] w.flow.contains(v) ==> reaches(snap, f, v)
    &&& forall|v: u32| #[trigger] has_key(w.visited, v) ==> reaches(snap, f, v)
    &&& forall|v: u32, q: u32|
        has_key(w.visited, v) && #[trigger] leads(snap, v, q) ==> has_key(w.visited, q)
            || w.flow.contains(q) || jumps(snap, v, q) && is_function(snap, w.scan.symbols, q)
    &&& forall|t: u32| #[trigger] w.tables.contains(t) ==> is_used(snap, f, t)
    &&& forall|v: u32, t: u32|
        has_key(w.visited, v) && #[trigger] uses_table(snap, v, t) ==> w.tables.contains(t)
}

/// What following the instruction at `pc` does to what belongs to the function.
proof fn lemma_follow_within(snap: Seq<CodeView>, w: Walk, k: int, pc: u32, f: u32)
    requires
        all_fit(snap),
        relocs_ok(w.scan.sections),
        at_code(snap, w.scan.sections),
        ascending(w.scan.pending),
        !w.scan.ambiguous,
        code_at(snap, pc) == Some(k),
        runs(snap, pc),
        reaches(snap, f, pc),
        ({
            let end = follow(snap, w, snap[k].index, pc, insn_of(snap, pc), flow_of(snap, pc));
            !end.scan.ambiguous && end.scan.symbols.len() <= usize::MAX
        }),
        forall|v: u32| #[trigger] w.flow.contains(v) ==> reaches(snap, f, v),
        forall|t: u32| #[trigger] w.tables.contains(t) ==> is_used(snap, f, t),
    ensures
        ({
            let end = follow(snap, w, snap[k].index, pc, insn_of(snap, pc), flow_of(snap, pc));
            &&& forall|v: u32| #[trigger] end.flow.contains(v) ==> reaches(snap, f, v)
            &&& forall|q: u32| #[trigger]
                leads(snap, pc, q) ==> end.flow.contains(q) || jumps(snap, pc, q) && is_function(
                    snap,
                    end.scan.symbols,
                    q,
                )
            &&& forall|t: u32| #[trigger] end.tables.contains(t) ==> is_used(snap, f, t)
            &&& forall|t: u32| #[trigger] uses_table(snap, pc, t) ==> end.tables.contains(t)
            &&& forall|t: u32| #[trigger] w.tables.contains(t) ==> end.tables.contains(t)
        }),
{
    let insn = insn_of(snap, pc);
    let flow = flow_of(snap, pc);
    let src = snap[k].index;
    let end = follow(snap, w, src, pc, insn, flow);
    lemma_code_at(snap, pc);
    assert(snap[k].fits());
    let next = (pc + insn.len) as u32;
    assert(next == behind(snap, pc));
    lemma_follow_settled(snap, w, k, pc);
    let table = low32(insn.displacement);
    crate::analysis::x86_reach_laws::lemma_pushed_contains(w.flow, next);
    crate::analysis::x86_reach_laws::lemma_pushed_contains(w.flow, insn.near_branch);
    crate::analysis::x86_reach_laws::lemma_pushed_contains(w.flow.push(next), insn.near_branch);
    crate::analysis::x86_reach_laws::lemma_pushed_contains(w.tables, table);
    if goes_on(snap, pc) {
        assert(leads(snap, pc, next));
        lemma_reaches_on(snap, f, pc, next);
    }
    if leads(snap, pc, insn.near_branch) {
        lemma_reaches_on(snap, f, pc, insn.near_branch);
    }
    assert forall|v: u32| #[trigger] end.flow.contains(v) implies reaches(snap, f, v) by {
        let i = choose|i: int| 0 <= i < end.flow.len() && end.flow[i] == v;
        if i < w.flow.len() {
            assert(w.flow.contains(w.flow[i]));
        }
    }
    assert forall|q: u32| #[trigger] leads(snap, pc, q) implies end.flow.contains(q) || jumps(
        snap,
        pc,
        q,
    ) && is_function(snap, end.scan.symbols, q) by {
        if !end.flow.contains(q) {
            assert(jumps(snap, pc, q));
            if let Some(t) = code_at(snap, q) {
                assert(end.scan == crate::analysis::scan::with_transfer(
                    w.scan,
                    src,
                    crate::analysis::scan::four_before(next),
                    snap[t].index,
                    q,
                ));
                crate::analysis::x86_reach_laws::lemma_transfer_handed(
                    snap,
                    w.scan,
                    src,
                    crate::analysis::scan::four_before(next),
                    t,
                    q,
                );
            }
        }
    }
    assert forall|t: u32| #[trigger] end.tables.contains(t) implies is_used(snap, f, t) by {
        let i = choose|i: int| 0 <= i < end.tables.len() && end.tables[i] == t;
        if i < w.tables.len() {
            assert(w.tables.contains(w.tables[i]));
        } else {
            assert(uses_table(snap, pc, t));
        }
    }
}

/// One step keeps to what belongs to the function.
proof fn lemma_step_within(snap: Seq<CodeView>, w: Walk, f: u32)
    requires
        all_fit(snap),
        walk_sound(snap, w),
        walk_within(snap, w, f),
        !walk_over(w),
        !step(snap, w).scan.ambiguous,
        step(snap, w).scan.symbols.len() <= usize::MAX,
    ensures
        walk_within(snap, step(snap, w), f),
{
    let pc = w.flow[0];
    let rest = w.flow.drop_first();
    let end = step(snap, w);
    lemma_runs(snap, pc);
    assert(w.flow.contains(pc));
    assert forall|v: u32| #[trigger] has_key(put(w.visited, pc, ()), v) <==> has_key(w.visited, v)
        || v == pc by {
        lemma_put_keys(w.visited, pc, (), v);
    }
    assert forall|q: u32| #[trigger] w.flow.contains(q) implies rest.contains(q) || q == pc by {
        let i = choose|i: int| 0 <= i < w.flow.len() && w.flow[i] == q;
        if i > 0 {
            assert(rest[i - 1] == q);
        }
    }
    assert forall|q: u32| #[trigger] rest.contains(q) implies w.flow.contains(q) by {
        let i = choose|i: int| 0 <= i < rest.len() && rest[i] == q;
        assert(w.flow[i + 1] == q);
    }
    lemma_step_sound(snap, w);
    if !has_key(w.visited, pc) && runs(snap, pc) {
        let k = code_at(snap, pc)->Some_0;
        lemma_code_at(snap, pc);
        assert(snap[k].fits());
        let span = behind(snap, pc) as u32;
        let seen = Walk {
            scan: Scan { spans: put(w.scan.spans, pc, span), ..w.scan },
            visited: put(w.visited, pc, ()),
            flow: rest,
            ..w
        };
        assert(end == follow(snap, seen, snap[k].index, pc, insn_of(snap, pc), flow_of(snap, pc)));
        lemma_follow_settled(snap, seen, k, pc);
        lemma_follow_within(snap, seen, k, pc, f);
        assert forall|v: u32, q: u32|
            has_key(end.visited, v) && #[trigger] leads(snap, v, q) implies has_key(end.visited, q)
            || end.flow.contains(q) || jumps(snap, v, q) && is_function(
            snap,
            end.scan.symbols,
            q,
        ) by {
            if v != pc {
                assert(has_key(w.visited, v));
                if w.flow.contains(q) && q != pc {
                    assert(seen.flow.contains(q));
                }
            }
        }
        assert forall|v: u32, t: u32|
            has_key(end.visited, v) && #[trigger] uses_table(
                snap,
                v,
                t,
            ) implies end.tables.contains(t) by {
            if v != pc {
                assert(has_key(w.visited, v));
                assert(seen.tables.contains(t));
            }
        }
    } else {
        assert(end.flow == rest);
        assert forall|v: u32, q: u32|
            has_key(end.visited, v) && #[trigger] leads(snap, v, q) implies has_key(end.visited, q)
            || end.flow.contains(q) || jumps(snap, v, q) && is_function(
            snap,
            end.scan.symbols,
            q,
        ) by {
            assert(has_key(w.visited, v));
        }
        assert forall|v: u32, t: u32|
            has_key(end.visited, v) && #[trigger] uses_table(
                snap,
                v,
                t,
            ) implies end.tables.contains(t) by {
            assert(has_key(w.visited, v));
        }
    }
}

pub(crate) proof fn lemma_walk_within(snap: Seq<CodeView>, w: Walk, f: u32)
    requires
        all_fit(snap),
        walk_sound(snap, w),
        walk_within(snap, w, f),
        !walk(snap, w).scan.ambiguous,
        walk(snap, w).scan.symbols.len() <= usize::MAX,
    ensures
        walk_within(snap, walk(snap, w), f),
    decreases 0x1_0000_0000 - w.visited.len(), w.flow.len(),
{
    if !walk_over(w) {
        let next = step(snap, w);
        lemma_step_progress(snap, w);
        lemma_walk_len(snap, next);
        assert(walk(snap, w) == walk(snap, next));
        if next.scan.ambiguous {
            assert(walk(snap, next) == next);
        }
        lemma_step_sound(snap, w);
        lemma_step_within(snap, w, f);
        lemma_walk_within(snap, next, f);
    }
}

/// The decoded instructions are those that were, and visited ones.
proof fn lemma_walk_decodes_visited(snap: Seq<CodeView>, w: Walk, base: Seq<(u32, u32)>)
    requires
        ascending(w.visited),
        ascending(w.scan.spans),
        forall|p: u32| #[trigger]
            has_key(w.scan.spans, p) ==> has_key(base, p) || has_key(w.visited, p),
    ensures
        forall|p: u32| #[trigger]
            has_key(walk(snap, w).scan.spans, p) ==> has_key(base, p) || has_key(
                walk(snap, w).visited,
                p,
            ),
    decreases 0x1_0000_0000 - w.visited.len(), w.flow.len(),
{
    if !walk_over(w) {
        let next = step(snap, w);
        let pc = w.flow[0];
        lemma_step_progress(snap, w);
        assert forall|p: u32| #[trigger] has_key(next.scan.spans, p) implies has_key(base, p)
            || has_key(next.visited, p) by {
            lemma_put_keys(w.visited, pc, (), p);
            if next.scan.spans != w.scan.spans {
                let k = code_at(snap, pc)->Some_0;
                lemma_put_keys(w.scan.spans, pc, (pc + snap[k].insn(pc).len) as u32, p);
            }
        }
        if next.scan.spans != w.scan.spans {
            let k = code_at(snap, pc)->Some_0;
            lemma_put_ascending(w.scan.spans, pc, (pc + snap[k].insn(pc).len) as u32);
        }
        lemma_walk_decodes_visited(snap, next, base);
        assert(walk(snap, w) == walk(snap, next));
    }
}

/// The last end is the highest end of a visited instruction.
proof fn lemma_last_end(
    snap: Seq<CodeView>,
    visited: Seq<(u32, ())>,
    spans: Seq<(u32, u32)>,
    n: nat,
)
    requires
        spans_true(snap, spans),
        n <= visited.len(),
        forall|v: u32| #[trigger] has_key(visited, v) ==> decoded(snap, spans, v),
    ensures
        last_end(visited, spans, n) matches Some(e) ==> exists|i: int|
            0 <= i < n && runs(snap, (#[trigger] visited[i]).0) && e == behind(
                snap,
                visited[i].0,
            ),
        forall|i: int|
            0 <= i < n && runs(snap, (#[trigger] visited[i]).0) ==> (last_end(
                visited,
                spans,
                n,
            ) matches Some(e) && behind(snap, visited[i].0) <= e),
    decreases n,
{
    if n > 0 {
        lemma_last_end(snap, visited, spans, (n - 1) as nat);
        let v = visited[n - 1].0;
        assert(has_key(visited, v));
        lemma_value(snap, spans, v);
    }
}

proof fn lemma_value(snap: Seq<CodeView>, spans: Seq<(u32, u32)>, v: u32)
    requires
        spans_true(snap, spans),
        decoded(snap, spans, v),
    ensures
        runs(snap, v) ==> value_at(spans, v) is Some && value_at(spans, v)->Some_0 == behind(
            snap,
            v,
        ),
        !runs(snap, v) ==> value_at(spans, v) is None,
{
    lemma_lower_bound(spans, v);
    if value_at(spans, v) is Some {
        let i = lower_bound(spans, v);
        assert(runs(snap, spans[i].0));
    }
    if runs(snap, v) {
        let i = choose|i: int| 0 <= i < spans.len() && #[trigger] spans[i].0 == v;
        assert(spans[i].1 == behind(snap, spans[i].0));
        let j = lower_bound(spans, v);
        assert(j == i);
    }
}

/// Control stays where it belongs.
pub(crate) proof fn lemma_route_visited(snap: Seq<CodeView>, w: Walk, path: Seq<u32>)
    requires
        w.flow.len() == 0,
        forall|v: u32, q: u32|
            has_key(w.visited, v) && #[trigger] leads(snap, v, q) ==> has_key(w.visited, q)
                || w.flow.contains(q) || jumps(snap, v, q) && is_function(
                snap,
                w.scan.symbols,
                q,
            ),
        is_own_route(snap, w.scan.symbols, path),
        has_key(w.visited, path[0]),
    ensures
        has_key(w.visited, path.last()),
    decreases path.len(),
{
    if path.len() > 1 {
        let below = path.drop_last();
        assert forall|j: int| 0 <= j < below.len() - 1 implies leads(
            snap,
            #[trigger] below[j],
            below[j + 1],
        ) && !(jumps(snap, below[j], below[j + 1]) && is_function(
            snap,
            w.scan.symbols,
            below[j + 1],
        )) by {
            assert(below[j] == path[j] && below[j + 1] == path[j + 1]);
        }
        lemma_route_visited(snap, w, below);
        let j = path.len() - 2;
        assert(below.last() == path[j]);
        assert(leads(snap, path[j], path[j + 1]));
    }
}

/// With further function symbols no route becomes a function's own.
pub(crate) proof fn lemma_own_route_less(
    snap: Seq<CodeView>,
    a: Seq<SymbolView>,
    b: Seq<SymbolView>,
    path: Seq<u32>,
)
    requires
        forall|v: u32| #[trigger] is_function(snap, a, v) ==> is_function(snap, b, v),
        is_own_route(snap, b, path),
    ensures
        is_own_route(snap, a, path),
{
    assert forall|j: int| 0 <= j < path.len() - 1 implies leads(
        snap,
        #[trigger] path[j],
        path[j + 1],
    ) && !(jumps(snap, path[j], path[j + 1]) && is_function(snap, a, path[j + 1])) by {
        assert(is_function(snap, a, path[j + 1]) ==> is_function(snap, b, path[j + 1]));
    }
}

/// Whether some function with an end holds the instruction at `p`.
pub open spec fn is_owned(snap: Seq<CodeView>, raw_ends: Seq<(u32, u32)>, p: u32) -> bool {
    exists|f: u32| #[trigger] has_key(raw_ends, f) && reaches(snap, f, p)
}

/// Whether what is recorded of the function at `f`, which ends at `e`, is right.
pub open spec fn function_right(
    snap: Seq<CodeView>,
    symbols: Seq<SymbolView>,
    tables: Seq<(u32, u32)>,
    f: u32,
    e: u32,
) -> bool {
    &&& runs(snap, f)
    &&& is_function(snap, symbols, f)
    &&& is_extent(snap, symbols, f, e)
    &&& has_tables(snap, symbols, tables, f)
}

/// Whether what is recorded of the functions is right.
pub open spec fn scan_within(snap: Seq<CodeView>, st: Scan) -> bool {
    &&& ascending(st.raw_ends)
    &&& forall|i: int|
        0 <= i < st.raw_ends.len() ==> function_right(
            snap,
            st.symbols,
            st.tables,
            (#[trigger] st.raw_ends[i]).0,
            st.raw_ends[i].1,
        )
    &&& forall|i: int|
        0 <= i < st.tables.len() ==> has_key(st.raw_ends, (#[trigger] st.tables[i]).0) && is_used(
            snap,
            st.tables[i].0,
            st.tables[i].1,
        )
    &&& forall|p: u32| #[trigger] has_key(st.spans, p) ==> is_owned(snap, st.raw_ends, p)
}

/// What was right stays right.
proof fn lemma_function_stays_right(
    snap: Seq<CodeView>,
    a: Seq<SymbolView>,
    b: Seq<SymbolView>,
    tables: Seq<(u32, u32)>,
    more: Seq<(u32, u32)>,
    f: u32,
    e: u32,
)
    requires
        function_right(snap, a, tables, f, e),
        forall|v: u32| #[trigger] is_function(snap, a, v) ==> is_function(snap, b, v),
        forall|t: (u32, u32)| #[trigger] tables.contains(t) ==> more.contains(t),
    ensures
        function_right(snap, b, more, f, e),
{
    assert forall|path: Seq<u32>|
        #[trigger] is_own_route(snap, b, path) && path[0] == f && runs(
            snap,
            path.last(),
        ) implies behind(snap, path.last()) <= e by {
        lemma_own_route_less(snap, a, b, path);
    }
    assert forall|path: Seq<u32>, t: u32| #[trigger]
        is_own_route(snap, b, path) && path[0] == f && #[trigger] uses_table(
            snap,
            path.last(),
            t,
        ) implies more.contains((f, t)) by {
        lemma_own_route_less(snap, a, b, path);
        assert(tables.contains((f, t)));
    }
}

/// What is recorded of a function once it is disassembled.
pub(crate) proof fn lemma_finish_right(snap: Seq<CodeView>, w: Walk, f: u32)
    requires
        all_fit(snap),
        walk_sound(snap, w),
        walk_within(snap, w, f),
        w.flow.len() == 0,
        has_key(w.visited, f),
        runs(snap, f),
        is_function(snap, w.scan.symbols, f),
    ensures
        ({
            let end = finish(f, w);
            &&& last_end(w.visited, w.scan.spans, w.visited.len()) is Some
            &&& last_end(w.visited, w.scan.spans, w.visited.len())->Some_0 > f
            &&& function_right(
                snap,
                w.scan.symbols,
                end.tables,
                f,
                last_end(w.visited, w.scan.spans, w.visited.len())->Some_0,
            )
        }),
{
    let n = w.visited.len();
    let end = finish(f, w);
    lemma_last_end(snap, w.visited, w.scan.spans, n);
    let i = choose|i: int| 0 <= i < n && #[trigger] w.visited[i].0 == f;
    lemma_code_at(snap, f);
    assert(runs(snap, w.visited[i].0));
    let e = last_end(w.visited, w.scan.spans, n)->Some_0;
    let j = choose|j: int|
        0 <= j < n && runs(snap, (#[trigger] w.visited[j]).0) && e == behind(
            snap,
            w.visited[j].0,
        );
    assert(has_key(w.visited, w.visited[j].0));
    assert(reaches(snap, f, w.visited[j].0));
    assert forall|path: Seq<u32>|
        #[trigger] is_own_route(snap, w.scan.symbols, path) && path[0] == f && runs(
            snap,
            path.last(),
        ) implies behind(snap, path.last()) <= e by {
        lemma_route_visited(snap, w, path);
        let m = choose|m: int| 0 <= m < n && #[trigger] w.visited[m].0 == path.last();
        assert(runs(snap, w.visited[m].0));
    }
    assert forall|path: Seq<u32>, t: u32| #[trigger]
        is_own_route(snap, w.scan.symbols, path) && path[0] == f && #[trigger] uses_table(
            snap,
            path.last(),
            t,
        ) implies end.tables.contains((f, t)) by {
        lemma_route_visited(snap, w, path);
        assert(w.tables.contains(t));
        let m = choose|m: int| 0 <= m < w.tables.len() && w.tables[m] == t;
        assert(end.tables[w.scan.tables.len() + m] == (f, t));
    }
}

/// Dealing with a pending entry records what is right.
pub(crate) proof fn lemma_enter_within(snap: Seq<CodeView>, st: Scan)
    requires
        all_fit(snap),
        scan_sound(snap, st),
        scan_within(snap, st),
        st.pending.len() > 0,
        !st.ambiguous,
        !enter(snap, st).ambiguous,
        enter(snap, st).symbols.len() <= usize::MAX,
    ensures
        scan_within(snap, enter(snap, st)),
{
    let va = st.pending[0].0;
    let rest = Scan { pending: st.pending.drop_first(), ..st };
    let end = enter(snap, st);
    lemma_runs(snap, va);
    if !(in_span(st.spans, va) || code_at(snap, va) is None) {
        let k = code_at(snap, va)->Some_0;
        let named = with_function(rest, snap[k].index, va);
        let start = walk_start(named, va);
        let w = walk(snap, start);
        if named.ambiguous || w.scan.ambiguous {
            assert(end.ambiguous);
        }
        lemma_start_sound(snap, st, k);
        lemma_walk_sound(snap, start);
        lemma_reaches_self(snap, va);
        assert(walk_within(snap, start, va)) by {
            assert forall|v: u32| #[trigger] start.flow.contains(v) implies reaches(
                snap,
                va,
                v,
            ) by {
                let i = choose|i: int| 0 <= i < start.flow.len() && start.flow[i] == v;
                assert(v == va);
            }
        }
        lemma_walk_within(snap, start, va);
        lemma_walk_ends(snap, start);
        lemma_walk_decodes_visited(snap, start, st.spans);
        assert(start.flow[0] == va);
        assert(start.flow.contains(va));
        assert(has_key(w.visited, va));
        assert(end == finish(va, w));
        assert forall|v: u32| #[trigger] is_function(snap, st.symbols, v) implies is_function(
            snap,
            end.symbols,
            v,
        ) by {
            assert(is_function(snap, named.symbols, v));
        }
        assert forall|t: (u32, u32)| #[trigger] st.tables.contains(t) implies end.tables.contains(
            t,
        ) by {
            let i = choose|i: int| 0 <= i < st.tables.len() && st.tables[i] == t;
            assert(end.tables[i] == t);
        }
        if runs(snap, va) {
            assert(is_function(snap, w.scan.symbols, va));
            lemma_finish_right(snap, w, va);
            let e = last_end(w.visited, w.scan.spans, w.visited.len())->Some_0;
            assert(end.raw_ends == put(st.raw_ends, va, e));
            lemma_put_ascending(st.raw_ends, va, e);
            assert forall|v: u32| #[trigger] has_key(end.raw_ends, v) <==> has_key(
                st.raw_ends,
                v,
            ) || v == va by {
                lemma_put_keys(st.raw_ends, va, e, v);
            }
            lemma_lower_bound(st.raw_ends, va);
            let at = lower_bound(st.raw_ends, va);
            lemma_put_at(st.raw_ends, va, e, at);
            assert forall|i: int| 0 <= i < end.raw_ends.len() implies function_right(
                snap,
                end.symbols,
                end.tables,
                (#[trigger] end.raw_ends[i]).0,
                end.raw_ends[i].1,
            ) by {
                if i != at {
                    let j = if i < at || end.raw_ends.len() == st.raw_ends.len() {
                        i
                    } else {
                        i - 1
                    };
                    assert(end.raw_ends[i] == st.raw_ends[j]);
                    lemma_function_stays_right(
                        snap,
                        st.symbols,
                        end.symbols,
                        st.tables,
                        end.tables,
                        st.raw_ends[j].0,
                        st.raw_ends[j].1,
                    );
                }
            }
        } else {
            let next = step(snap, start);
            lemma_step_progress(snap, start);
            assert(!has_key(start.visited, va));
            assert(next.flow =~= Seq::empty());
            assert(walk(snap, start) == walk(snap, next));
            assert(walk(snap, next) == next);
            assert(w.tables =~= Seq::empty());
            lemma_last_end(snap, w.visited, w.scan.spans, w.visited.len());
            if last_end(w.visited, w.scan.spans, w.visited.len()) is Some {
                let e = last_end(w.visited, w.scan.spans, w.visited.len())->Some_0;
                let j = choose|j: int|
                    0 <= j < w.visited.len() && runs(snap, (#[trigger] w.visited[j]).0) && e
                        == behind(snap, w.visited[j].0);
                lemma_put_keys(start.visited, va, (), w.visited[j].0);
                assert(has_key(w.visited, w.visited[j].0));
                assert(has_key(start.visited, w.visited[j].0) || w.visited[j].0 == va);
                assert(false);
            }
            assert(end.raw_ends == st.raw_ends);
            assert forall|i: int| 0 <= i < end.raw_ends.len() implies function_right(
                snap,
                end.symbols,
                end.tables,
                (#[trigger] end.raw_ends[i]).0,
                end.raw_ends[i].1,
            ) by {
                lemma_function_stays_right(
                    snap,
                    st.symbols,
                    end.symbols,
                    st.tables,
                    end.tables,
                    st.raw_ends[i].0,
                    st.raw_ends[i].1,
                );
            }
        }
        assert forall|i: int| 0 <= i < end.tables.len() implies has_key(
            end.raw_ends,
            (#[trigger] end.tables[i]).0,
        ) && is_used(snap, end.tables[i].0, end.tables[i].1) by {
            if i < st.tables.len() {
                assert(end.tables[i] == st.tables[i]);
            } else {
                let m = i - st.tables.len();
                assert(w.tables.contains(w.tables[m]));
                assert(end.tables[i] == (va, w.tables[m]));
            }
        }
        assert forall|p: u32| #[trigger] has_key(end.spans, p) implies is_owned(
            snap,
            end.raw_ends,
            p,
        ) by {
            if has_key(st.spans, p) {
                let f = choose|f: u32| #[trigger] has_key(st.raw_ends, f) && reaches(snap, f, p);
                assert(has_key(end.raw_ends, f));
            } else {
                assert(has_key(w.visited, p));
                assert(reaches(snap, va, p));
                let i = choose|i: int| 0 <= i < w.scan.spans.len() && #[trigger] w.scan.spans[i].0 == p;
                assert(runs(snap, w.scan.spans[i].0));
                if !runs(snap, va) {
                    lemma_put_keys(start.visited, va, (), p);
                }
                assert(has_key(end.raw_ends, va));
            }
        }
    }
}

/// The disassembly of a function starts sound.
pub(crate) proof fn lemma_start_sound(snap: Seq<CodeView>, st: Scan, k: int)
    requires
        scan_sound(snap, st),
        st.pending.len() > 0,
        code_at(snap, st.pending[0].0) == Some(k),
        ({
            let rest = Scan { pending: st.pending.drop_first(), ..st };
            !with_function(rest, snap[k].index, st.pending[0].0).ambiguous
        }),
    ensures
        ({
            let va = st.pending[0].0;
            let rest = Scan { pending: st.pending.drop_first(), ..st };
            let named = with_function(rest, snap[k].index, va);
            &&& walk_sound(snap, walk_start(named, va))
            &&& scan_grown(snap, st, named)
            &&& is_function(snap, named.symbols, va)
            &&& forall|v: u32| #[trigger]
                is_function(snap, st.symbols, v) ==> is_function(snap, named.symbols, v)
        }),
{
    let va = st.pending[0].0;
    let rest = Scan { pending: st.pending.drop_first(), ..st };
    let named = with_function(rest, snap[k].index, va);
    let start = walk_start(named, va);
    lemma_grown_same(snap, st);
    assert forall|v: u32| #[trigger] has_key(st.pending, v) implies has_key(rest.pending, v) || v
        == va by {
        let i = choose|i: int| 0 <= i < st.pending.len() && #[trigger] st.pending[i].0 == v;
        if i > 0 {
            assert(rest.pending[i - 1].0 == v);
        }
    }
    let n = st.symbols.len() as int;
    if named.symbols.len() > st.symbols.len() {
        assert(named.symbols[n] == found_function(snap[k].index, va));
        assert(crate::analysis::size_laws::is_function_at(
            named.symbols[n],
            home(snap, va).index,
            va as int,
        ));
    } else {
        crate::analysis::x86_reach_laws::lemma_is_function(snap, st.symbols, va);
    }
    assert(scan_grown(snap, st, named));
    lemma_grown_more(snap, st, named);
    assert(start.flow[0] == va);
    assert(start.flow.contains(va));
    assert forall|v: u32| #[trigger] handed(snap, st, v) implies handed(snap, named, v)
        || start.flow.contains(v) by {}
    assert forall|i: int| 0 <= i < named.spans.len() implies settled(
        snap,
        named,
        start.flow,
        (#[trigger] named.spans[i]).0,
    ) by {
        let p = st.spans[i].0;
        assert(settled(snap, st, Seq::empty(), p));
        lemma_settled_more(snap, st, named, Seq::empty(), start.flow, p);
    }
}

pub(crate) proof fn lemma_explore_within(
    snap: Seq<CodeView>,
    datas: Seq<Seq<u8>>,
    st: Scan,
    swept: bool,
)
    requires
        all_fit(snap),
        scan_sound(snap, st),
        scan_within(snap, st),
        !explore(snap, datas, st, swept).ambiguous,
        explore(snap, datas, st, swept).symbols.len() <= usize::MAX,
    ensures
        scan_within(snap, explore(snap, datas, st, swept)),
    decreases (if swept { 0int } else { 1int }), 0x1_0000_0000 - st.spans.len(), st.pending.len(),
{
    if !st.ambiguous {
        if st.pending.len() > 0 {
            let next = enter(snap, st);
            lemma_enter_progress(snap, st);
            lemma_explore_len(snap, datas, next, swept);
            assert(explore(snap, datas, st, swept) == explore(snap, datas, next, swept));
            if next.ambiguous {
                assert(explore(snap, datas, next, swept) == next);
            }
            lemma_enter_sound(snap, st);
            lemma_enter_within(snap, st);
            lemma_explore_within(snap, datas, next, swept);
        } else if !swept {
            let pending = sweep(snap, st.spans, st.pending, datas, datas.len());
            let next = Scan { pending, ..st };
            lemma_sweep_handed(snap, st, datas, datas.len());
            assert forall|i: int| 0 <= i < next.spans.len() implies settled(
                snap,
                next,
                Seq::empty(),
                (#[trigger] next.spans[i]).0,
            ) by {
                let p = st.spans[i].0;
                assert(settled(snap, st, Seq::empty(), p));
                lemma_settled_more(snap, st, next, Seq::empty(), Seq::empty(), p);
            }
            assert(explore(snap, datas, st, swept) == explore(snap, datas, next, true));
            lemma_explore_within(snap, datas, next, true);
        } else {
            assert(explore(snap, datas, st, swept) == st);
        }
    }
}

/// What a successful analysis records of the functions it finds: each has a symbol at
/// its entry, where an instruction stands; it ends where the last of its instructions
/// does; its jump tables are those that its indirect jumps go through. The instructions
/// of a function are those that control gets to from its entry without a call or a jump
/// to another function. Nothing is decoded but for a function that is recorded.
pub proof fn lemma_function_extents(obj: ObjView)
    requires
        all_fit(code_sections(obj.sections, obj.sections.len())),
        relocs_ok(obj.sections),
        obj.sections.len() <= usize::MAX,
        scan_end(obj).symbols.len() <= usize::MAX,
        !scan_end(obj).ambiguous,
    ensures
        ({
            let snap = code_sections(obj.sections, obj.sections.len());
            let end = scan_end(obj);
            &&& forall|i: int|
                0 <= i < end.raw_ends.len() ==> function_right(
                    snap,
                    end.symbols,
                    end.tables,
                    (#[trigger] end.raw_ends[i]).0,
                    end.raw_ends[i].1,
                )
            &&& forall|i: int, j: int|
                0 <= i < j < end.raw_ends.len() ==> (#[trigger] end.raw_ends[i]).0 < (
                #[trigger] end.raw_ends[j]).0
            &&& forall|i: int|
                0 <= i < end.tables.len() ==> has_key(
                    end.raw_ends,
                    (#[trigger] end.tables[i]).0,
                ) && is_used(snap, end.tables[i].0, end.tables[i].1)
            &&& forall|i: int|
                0 <= i < end.spans.len() ==> is_owned(
                    snap,
                    end.raw_ends,
                    (#[trigger] end.spans[i]).0,
                )
        }),
{
    let snap = code_sections(obj.sections, obj.sections.len());
    let datas = data_sections(obj.sections, obj.sections.len());
    lemma_code_sections_kind(obj.sections, obj.sections.len());
    lemma_seeds_wait(obj.entry, obj.symbols, obj.symbols.len());
    lemma_explore_within(snap, datas, scan_start(obj), false);
    let end = scan_end(obj);
    assert forall|i: int| 0 <= i < end.spans.len() implies is_owned(
        snap,
        end.raw_ends,
        (#[trigger] end.spans[i]).0,
    ) by {
        assert(has_key(end.spans, end.spans[i].0));
    }
}

/// Whether section `i` is the first one of code that holds `va`.
pub open spec fn first_holding(s: Seq<SectionView>, i: int, va: u32) -> bool {
    &&& 0 <= i < s.len()
    &&& s[i].kind == ObjSectionKind::Code
    &&& s[i].address <= va < s[i].address + s[i].data.len()
    &&& forall|j: int|
        0 <= j < i && (#[trigger] s[j]).kind == ObjSectionKind::Code ==> !(s[j].address <= va
            < s[j].address + s[j].data.len())
}

/// The code at an address is that of the first code section that holds it.
pub proof fn lemma_home(s: Seq<SectionView>, va: u32)
    requires
        s.len() <= usize::MAX,
    ensures
        ({
            let snap = code_sections(s, s.len());
            &&& code_at(snap, va) is Some ==> {
                let code = home(snap, va);
                &&& first_holding(s, code.index as int, va)
                &&& code.base == s[code.index as int].address
                &&& code.data == s[code.index as int].data
            }
            &&& code_at(snap, va) is None ==> forall|i: int| !first_holding(s, i, va)
        }),
{
    let snap = code_sections(s, s.len());
    lemma_code_sections_exact(s, s.len());
    lemma_code_at(snap, va);
    if code_at(snap, va) is Some {
        let k = code_at(snap, va)->Some_0;
        let i = snap[k].index as int;
        assert forall|j: int|
            0 <= j < i && (#[trigger] s[j]).kind == ObjSectionKind::Code implies !(s[j].address
            <= va < s[j].address + s[j].data.len()) by {
            if s[j].data.len() > 0 {
                let m = choose|m: int| 0 <= m < snap.len() && (#[trigger] snap[m]).index == j;
                if m >= k {
                    assert(snap[k].index <= snap[m].index);
                }
                assert(!snap[m].holds(va));
            }
        }
    } else {
        assert forall|i: int| !first_holding(s, i, va) by {
            if first_holding(s, i, va) {
                assert(s[i].kind == ObjSectionKind::Code);
                let m = choose|m: int| 0 <= m < snap.len() && (#[trigger] snap[m]).index == i;
                assert(!snap[m].holds(va));
            }
        }
    }
}

/// The code sections are those of code that have bytes, in their order.
pub(crate) proof fn lemma_code_sections_exact(s: Seq<SectionView>, n: nat)
    requires
        n <= s.len() <= usize::MAX,
    ensures
        ({
            let snap = code_sections(s, n);
            &&& forall|k: int|
                0 <= k < snap.len() ==> {
                    let i = (#[trigger] snap[k]).index as int;
                    &&& i < n
                    &&& s[i].kind == ObjSectionKind::Code
                    &&& snap[k].base == s[i].address
                    &&& snap[k].data == s[i].data
                }
            &&& forall|a: int, b: int|
                0 <= a < b < snap.len() ==> (#[trigger] snap[a]).index < (#[trigger] snap[b]).index
            &&& forall|i: int|
                0 <= i < n && (#[trigger] s[i]).kind == ObjSectionKind::Code && s[i].data.len() > 0
                    ==> exists|m: int| 0 <= m < snap.len() && (#[trigger] snap[m]).index == i
        }),
    decreases n,
{
    if n > 0 {
        lemma_code_sections_exact(s, (n - 1) as nat);
        let below = code_sections(s, (n - 1) as nat);
        let snap = code_sections(s, n);
        assert forall|k: int| 0 <= k < below.len() implies #[trigger] snap[k] == below[k] by {}
        assert forall|i: int|
            0 <= i < n && (#[trigger] s[i]).kind == ObjSectionKind::Code && s[i].data.len()
                > 0 implies exists|m: int|
            0 <= m < snap.len() && (#[trigger] snap[m]).index == i by {
            if i == n - 1 {
                assert(snap[below.len() as int].index == i);
            } else {
                let m = choose|m: int| 0 <= m < below.len() && (#[trigger] below[m]).index == i;
                assert(snap[m].index == i);
            }
        }
    }
}

/// Code fits into the address space where every code section that starts in it ends in
/// it.
pub proof fn lemma_code_fits(s: Seq<SectionView>)
    requires
        s.len() <= usize::MAX,
    ensures
        all_fit(code_sections(s, s.len())) <==> forall|i: int|
            0 <= i < s.len() && (#[trigger] s[i]).kind == ObjSectionKind::Code && s[i].data.len()
                > 0 && s[i].address <= u32::MAX ==> s[i].address + s[i].data.len() <= u32::MAX,
{
    let snap = code_sections(s, s.len());
    lemma_code_sections_exact(s, s.len());
    if all_fit(snap) {
        assert forall|i: int|
            0 <= i < s.len() && (#[trigger] s[i]).kind == ObjSectionKind::Code && s[i].data.len()
                > 0 && s[i].address <= u32::MAX implies s[i].address + s[i].data.len()
            <= u32::MAX by {
            let m = choose|m: int| 0 <= m < snap.len() && (#[trigger] snap[m]).index == i;
            assert(snap[m].fits());
        }
    }
    if forall|i: int|
        0 <= i < s.len() && (#[trigger] s[i]).kind == ObjSectionKind::Code && s[i].data.len() > 0
            && s[i].address <= u32::MAX ==> s[i].address + s[i].data.len() <= u32::MAX {
        assert forall|k: int| 0 <= k < snap.len() implies (#[trigger] snap[k]).fits() by {
            let i = snap[k].index as int;
            assert(s[i].kind == ObjSectionKind::Code);
        }
    }
}

} // verus!
