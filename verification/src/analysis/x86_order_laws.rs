//! Which of the entries of an x86 analysis become functions.
use vstd::prelude::*;

use crate::addr_map::{ascending, has_key, lemma_put_ascending, put};
use crate::analysis::insn::{CodeView, all_fit, code_at, code_sections, data_sections};
use crate::analysis::scan::{
    Scan, enter, explore, finish, in_span, lemma_enter_progress, lemma_walk_ends, scan_end,
    scan_start, seeds, spans_ok, sweep, walk, walk_start, with_function,
};
use crate::analysis::x86_extent_laws::{
    is_own_route, lemma_function_extents, lemma_own_route_less, lemma_reaches_self,
    lemma_route_visited, lemma_start_sound, lemma_walk_within, reaches, walk_within,
};
use crate::analysis::x86_laws::{
    lemma_code_sections_kind, lemma_explore_grows, lemma_explore_len, relocs_ok,
};
use crate::analysis::x86_reach_laws::{
    behind, is_covered, is_reached, lemma_analysis_follows, lemma_analysis_reaches,
    lemma_enter_sound, lemma_grown_more, lemma_put_keys, lemma_seeds_wait, lemma_settled_more,
    lemma_sweep_handed, lemma_walk_sound, runs, scan_sound, settled, spans_true,
};
use crate::analysis::x86_reason_laws::is_seed;
use crate::obj::{ObjSymbolKind, ObjView};

verus! {

/// Whether an instruction of the function at `f` covers `va`.
pub open spec fn is_held_by(snap: Seq<CodeView>, f: u32, va: u32) -> bool {
    exists|p: u32| #[trigger] reaches(snap, f, p) && runs(snap, p) && p <= va < behind(snap, p)
}

/// The entry point and every known function, where an instruction stands at it, belongs
/// to a function whose end is recorded: to itself, where no other function holds it.
pub proof fn lemma_known_functions(obj: ObjView, va: u32)
    requires
        all_fit(code_sections(obj.sections, obj.sections.len())),
        relocs_ok(obj.sections),
        obj.sections.len() <= usize::MAX,
        scan_end(obj).symbols.len() <= usize::MAX,
        !scan_end(obj).ambiguous,
        is_seed(obj, va),
        runs(code_sections(obj.sections, obj.sections.len()), va),
    ensures
        ({
            let snap = code_sections(obj.sections, obj.sections.len());
            let ends = scan_end(obj).raw_ends;
            &&& exists|f: u32| #[trigger] has_key(ends, f) && is_held_by(snap, f, va)
            &&& (forall|f: u32| f != va && #[trigger] has_key(ends, f) ==> !is_held_by(
                snap,
                f,
                va,
            )) ==> has_key(ends, va)
        }),
{
    let snap = code_sections(obj.sections, obj.sections.len());
    let end = scan_end(obj);
    lemma_analysis_reaches(obj);
    lemma_analysis_follows(obj);
    lemma_function_extents(obj);
    assert(is_reached(obj, va));
    assert(is_covered(end.spans, va));
    let i = choose|i: int|
        0 <= i < end.spans.len() && (#[trigger] end.spans[i]).0 <= va < end.spans[i].1;
    let p = end.spans[i].0;
    assert(crate::analysis::x86_extent_laws::is_owned(snap, end.raw_ends, p));
    let f = choose|f: u32| #[trigger] has_key(end.raw_ends, f) && reaches(snap, f, p);
    assert(is_held_by(snap, f, va));
}

/// An address that is decoded is not entered.
proof fn lemma_not_entered(
    snap: Seq<CodeView>,
    datas: Seq<Seq<u8>>,
    st: Scan,
    swept: bool,
    b: u32,
)
    requires
        all_fit(snap),
        scan_sound(snap, st),
        in_span(st.spans, b),
        ascending(st.raw_ends),
        !has_key(st.raw_ends, b),
        !explore(snap, datas, st, swept).ambiguous,
        explore(snap, datas, st, swept).symbols.len() <= usize::MAX,
    ensures
        !has_key(explore(snap, datas, st, swept).raw_ends, b),
    decreases (if swept { 0int } else { 1int }), 0x1_0000_0000 - st.spans.len(), st.pending.len(),
{
    if !st.ambiguous {
        if st.pending.len() > 0 {
            let next = enter(snap, st);
            lemma_enter_progress(snap, st);
            lemma_explore_len(snap, datas, next, swept);
            assert(explore(snap, datas, st, swept) == explore(snap, datas, next, swept));
            if next.ambiguous {
                assert(explore(snap, datas, next, swept) == next);
            }
            lemma_enter_sound(snap, st);
            lemma_enter_keeps(snap, st, b);
            lemma_not_entered(snap, datas, next, swept, b);
        } else if !swept {
            let pending = sweep(snap, st.spans, st.pending, datas, datas.len());
            let next = Scan { pending, ..st };
            lemma_sweep_handed(snap, st, datas, datas.len());
            assert forall|i: int| 0 <= i < next.spans.len() implies settled(
                snap,
                next,
                Seq::empty(),
                (#[trigger] next.spans[i]).0,
            ) by {
                let p = st.spans[i].0;
                assert(settled(snap, st, Seq::empty(), p));
                lemma_settled_more(snap, st, next, Seq::empty(), Seq::empty(), p);
            }
            assert(explore(snap, datas, st, swept) == explore(snap, datas, next, true));
            lemma_not_entered(snap, datas, next, true, b);
        } else {
            assert(explore(snap, datas, st, swept) == st);
        }
    }
}

/// Whether the decoded instructions cover an address, by their starts.
proof fn lemma_cover_stays(
    snap: Seq<CodeView>,
    a: Seq<(u32, u32)>,
    b: Seq<(u32, u32)>,
    va: u32,
)
    requires
        spans_true(snap, a),
        spans_true(snap, b),
        in_span(a, va),
        forall|v: u32| #[trigger] has_key(a, v) ==> has_key(b, v),
    ensures
        in_span(b, va),
{
    let i = choose|i: int| 0 <= i < a.len() && #[trigger] a[i].0 <= va < a[i].1;
    let p = a[i].0;
    assert(runs(snap, a[i].0) && a[i].1 == behind(snap, p));
    assert(has_key(a, p));
    let j = choose|j: int| 0 <= j < b.len() && #[trigger] b[j].0 == p;
    assert(b[j].1 == behind(snap, b[j].0));
    assert(b[j].0 <= va < b[j].1);
}

proof fn lemma_enter_keeps(snap: Seq<CodeView>, st: Scan, b: u32)
    requires
        all_fit(snap),
        scan_sound(snap, st),
        st.pending.len() > 0,
        !st.ambiguous,
        in_span(st.spans, b),
        ascending(st.raw_ends),
        !has_key(st.raw_ends, b),
        !enter(snap, st).ambiguous,
        enter(snap, st).symbols.len() <= usize::MAX,
        scan_sound(snap, enter(snap, st)),
    ensures
        in_span(enter(snap, st).spans, b),
        ascending(enter(snap, st).raw_ends),
        !has_key(enter(snap, st).raw_ends, b),
{
    let va = st.pending[0].0;
    let rest = Scan { pending: st.pending.drop_first(), ..st };
    let end = enter(snap, st);
    if !(in_span(st.spans, va) || code_at(snap, va) is None) {
        let k = code_at(snap, va)->Some_0;
        let named = with_function(rest, snap[k].index, va);
        let start = walk_start(named, va);
        let w = walk(snap, start);
        if named.ambiguous || w.scan.ambiguous {
            assert(end.ambiguous);
        }
        lemma_start_sound(snap, st, k);
        lemma_walk_sound(snap, start);
        lemma_walk_ends(snap, start);
        assert(end == finish(va, w));
        assert forall|v: u32| #[trigger] has_key(st.spans, v) implies has_key(end.spans, v) by {
            assert(has_key(named.spans, v));
        }
        lemma_cover_stays(snap, st.spans, end.spans, b);
        assert(va != b);
        let e = match crate::analysis::scan::last_end(w.visited, w.scan.spans, w.visited.len()) {
            Some(e) => e,
            None => va,
        };
        lemma_put_ascending(st.raw_ends, va, e);
        lemma_put_keys(st.raw_ends, va, e, b);
    }
}

/// Whether `a` is the lowest of the entry point and the known functions.
pub open spec fn is_lowest_seed(obj: ObjView, a: u32) -> bool {
    is_seed(obj, a) && forall|v: u32| #[trigger] is_seed(obj, v) ==> a <= v
}

/// Entries are dealt with from the lowest up: the lowest of them becomes a function, and
/// no address that its instructions cover does, though it be an entry itself.
pub proof fn lemma_lowest_first(obj: ObjView, a: u32, path: Seq<u32>, b: u32)
    requires
        all_fit(code_sections(obj.sections, obj.sections.len())),
        relocs_ok(obj.sections),
        obj.sections.len() <= usize::MAX,
        scan_end(obj).symbols.len() <= usize::MAX,
        !scan_end(obj).ambiguous,
        is_lowest_seed(obj, a),
        runs(code_sections(obj.sections, obj.sections.len()), a),
        is_own_route(
            code_sections(obj.sections, obj.sections.len()),
            scan_end(obj).symbols,
            path,
        ),
        path[0] == a,
        runs(code_sections(obj.sections, obj.sections.len()), path.last()),
        path.last() <= b < behind(
            code_sections(obj.sections, obj.sections.len()),
            path.last(),
        ),
        b != a,
    ensures
        has_key(scan_end(obj).raw_ends, a),
        !has_key(scan_end(obj).raw_ends, b),
{
    let snap = code_sections(obj.sections, obj.sections.len());
    let datas = data_sections(obj.sections, obj.sections.len());
    let st = scan_start(obj);
    lemma_code_sections_kind(obj.sections, obj.sections.len());
    lemma_seeds_wait(obj.entry, obj.symbols, obj.symbols.len());
    lemma_seed_listed(obj, a);
    let m = choose|m: int| 0 <= m < st.pending.len() && #[trigger] st.pending[m].0 == a;
    let first = st.pending[0].0;
    assert(has_key(st.pending, first));
    crate::analysis::x86_reason_laws::lemma_seeds_from(obj, obj.symbols.len(), first);
    if m > 0 {
        assert(st.pending[0].0 < st.pending[m].0);
    }
    assert(first == a);
    let next = enter(snap, st);
    lemma_enter_progress(snap, st);
    lemma_explore_len(snap, datas, next, false);
    assert(explore(snap, datas, st, false) == explore(snap, datas, next, false));
    if next.ambiguous {
        assert(explore(snap, datas, next, false) == next);
    }
    lemma_enter_sound(snap, st);
    let k = code_at(snap, a)->Some_0;
    let rest = Scan { pending: st.pending.drop_first(), ..st };
    let named = with_function(rest, snap[k].index, a);
    let start = walk_start(named, a);
    let w = walk(snap, start);
    assert(!in_span(st.spans, a));
    if named.ambiguous || w.scan.ambiguous {
        assert(next.ambiguous);
    }
    lemma_start_sound(snap, st, k);
    lemma_walk_sound(snap, start);
    lemma_reaches_self(snap, a);
    assert(walk_within(snap, start, a)) by {
        assert forall|v: u32| #[trigger] start.flow.contains(v) implies reaches(snap, a, v) by {
            let i = choose|i: int| 0 <= i < start.flow.len() && start.flow[i] == v;
            assert(v == a);
        }
    }
    lemma_walk_within(snap, start, a);
    lemma_walk_ends(snap, start);
    assert(next == finish(a, w));
    lemma_explore_grows(snap, datas, next, false);
    lemma_grown_more(snap, next, scan_end(obj));
    lemma_own_route_less(snap, w.scan.symbols, scan_end(obj).symbols, path);
    assert(start.flow[0] == a);
    assert(start.flow.contains(a));
    assert(has_key(w.visited, a));
    lemma_route_visited(snap, w, path);
    let p = path.last();
    assert(has_key(w.scan.spans, p));
    let i = choose|i: int| 0 <= i < w.scan.spans.len() && #[trigger] w.scan.spans[i].0 == p;
    assert(w.scan.spans[i].1 == behind(snap, w.scan.spans[i].0));
    assert(w.scan.spans[i].0 <= b < w.scan.spans[i].1);
    assert(in_span(next.spans, b));
    crate::analysis::x86_extent_laws::lemma_finish_right(snap, w, a);
    let e = crate::analysis::scan::last_end(w.visited, w.scan.spans, w.visited.len())->Some_0;
    let none: Seq<(u32, u32)> = Seq::empty();
    assert(next.raw_ends == put(none, a, e));
    lemma_put_ascending(none, a, e);
    lemma_put_keys(none, a, e, b);
    lemma_put_keys(none, a, e, a);
    lemma_not_entered(snap, datas, next, false, b);
    lemma_stays_entered(snap, datas, next, false, a);
}

/// A function that is recorded stays so.
proof fn lemma_stays_entered(
    snap: Seq<CodeView>,
    datas: Seq<Seq<u8>>,
    st: Scan,
    swept: bool,
    a: u32,
)
    requires
        all_fit(snap),
        spans_ok(st.spans),
        ascending(st.raw_ends),
        has_key(st.raw_ends, a),
    ensures
        has_key(explore(snap, datas, st, swept).raw_ends, a),
    decreases (if swept { 0int } else { 1int }), 0x1_0000_0000 - st.spans.len(), st.pending.len(),
{
    if !st.ambiguous {
        if st.pending.len() > 0 {
            let va = st.pending[0].0;
            let rest = Scan { pending: st.pending.drop_first(), ..st };
            lemma_enter_progress(snap, st);
            if let Some(k) = code_at(snap, va) {
                let named = with_function(rest, snap[k].index, va);
                lemma_walk_ends(snap, walk_start(named, va));
                let w = walk(snap, walk_start(named, va));
                let e = match crate::analysis::scan::last_end(
                    w.visited,
                    w.scan.spans,
                    w.visited.len(),
                ) {
                    Some(e) => e,
                    None => va,
                };
                lemma_put_ascending(st.raw_ends, va, e);
                lemma_put_keys(st.raw_ends, va, e, a);
            }
            lemma_stays_entered(snap, datas, enter(snap, st), swept, a);
        } else if !swept {
            let pending = sweep(snap, st.spans, st.pending, datas, datas.len());
            lemma_stays_entered(snap, datas, Scan { pending, ..st }, true, a);
        }
    }
}

proof fn lemma_seed_listed(obj: ObjView, a: u32)
    requires
        is_seed(obj, a),
    ensures
        has_key(scan_start(obj).pending, a),
{
    lemma_seeds_wait(obj.entry, obj.symbols, obj.symbols.len());
    if !(obj.entry matches Some(e) && e % 0x1_0000_0000 == a) {
        let i = choose|i: int|
            0 <= i < obj.symbols.len() && (#[trigger] obj.symbols[i]).kind
                == ObjSymbolKind::Function && obj.symbols[i].section is Some
                && obj.symbols[i].address % 0x1_0000_0000 == a;
        assert(has_key(
            seeds(obj.entry, obj.symbols, obj.symbols.len()),
            (obj.symbols[i].address % 0x1_0000_0000) as u32,
        ));
    }
}

} // verus!
