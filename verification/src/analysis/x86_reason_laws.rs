//! Why an x86 analysis records what it records.
use vstd::prelude::*;

use crate::addr_map::{ascending, has_key, lemma_put_value, put, value_at};
use crate::analysis::insn::{
    CodeView, X86Flow, X86Operand, all_fit, code_at, code_sections, data_sections, lemma_code_at,
};
use crate::analysis::scan::{
    Scan, Walk, downgrade_all, downgraded, enter, explore, follow, found_function, four_before,
    in_span, inside_nearest, is_nearest, lemma_enter_progress, lemma_step_progress, scan_end,
    scan_start, seeds, signed64, spans_ok, step, sweep, sweep_words, walk, walk_over, walk_start,
    with_function, with_transfer,
};
use crate::analysis::size_laws::{is_function_at, lemma_indexes_ascend};
use crate::analysis::x86_extent_laws::lemma_start_sound;
use crate::analysis::x86_laws::{
    at_code, call_operand, lemma_code_sections_kind, lemma_explore_len, lemma_sweep_all_ascending,
    lemma_sweep_ascending, lemma_transfer, lemma_walk_len, relocs_ok, section_grown,
};
use crate::analysis::x86_reach_laws::{
    behind, call_field, flow_of, home, insn_of, is_function, jump_field, jump_recorded, jumps,
    lemma_enter_sound, lemma_follow_settled, lemma_is_function, lemma_put_keys, lemma_put_true,
    lemma_runs, lemma_seeds_wait, lemma_settled_more, lemma_step_sound, lemma_sweep_handed, names,
    runs, scan_sound, settled, walk_sound,
};
use crate::bytes::{le_u32, lemma_words, low32, number_le};
use crate::obj::{
    ObjError, ObjReloc, ObjRelocKind, ObjSectionKind, ObjSymbolKind, ObjView, SectionIndex,
    SectionView, SymbolIndex, SymbolView, kind_at, kind_indexes_at, lemma_kind_indexes,
};
use crate::text_laws::{lemma_eight_digits, numeral};

verus! {

/// Whether the instruction at `p` calls `q`, or jumps to it, with its operand at `field`.
pub open spec fn transfers(snap: Seq<CodeView>, p: u32, q: u32, field: u32) -> bool {
    ||| jumps(snap, p, q) && field == jump_field(snap, p)
    ||| flow_of(snap, p) == X86Flow::Call && names(snap, p, q) && field == call_field(snap, p)
}

/// Whether `r` is a relative relocation to the function at `q`, so that the address of
/// the symbol and the addend come to `q`.
pub open spec fn refers_to(
    snap: Seq<CodeView>,
    symbols: Seq<SymbolView>,
    r: ObjReloc,
    q: u32,
) -> bool {
    &&& r.kind == ObjRelocKind::X86Rel32
    &&& r.module is None
    &&& r.target_symbol < symbols.len()
    &&& is_function_at(symbols[r.target_symbol as int], home(snap, q).index, q as int)
    &&& (symbols[r.target_symbol as int].address + r.addend - q) % 0x1_0000_0000_0000_0000 == 0
}

/// Whether the relocation `r` at `key` of section `j` is that of a decoded call or jump.
pub open spec fn reloc_right(
    snap: Seq<CodeView>,
    spans: Seq<(u32, u32)>,
    symbols: Seq<SymbolView>,
    j: int,
    key: u32,
    r: ObjReloc,
) -> bool {
    exists|p: u32, q: u32|
        has_key(spans, p) && home(snap, p).index == j && #[trigger] transfers(snap, p, q, key)
            && refers_to(snap, symbols, r, q)
}

/// Whether `va` is the entry point or the address of a function that was known.
pub open spec fn is_seed(obj: ObjView, va: u32) -> bool {
    ||| obj.entry matches Some(e) && e % 0x1_0000_0000 == va
    ||| exists|i: int|
        0 <= i < obj.symbols.len() && (#[trigger] obj.symbols[i]).kind == ObjSymbolKind::Function
            && obj.symbols[i].section is Some && obj.symbols[i].address % 0x1_0000_0000 == va
}

/// Whether a word of a section that is neither code nor uninitialised holds `va`.
pub open spec fn is_pointed_at(obj: ObjView, va: u32) -> bool {
    exists|k: int, j: int|
        0 <= k < obj.sections.len() && obj.sections[k].kind != ObjSectionKind::Code
            && obj.sections[k].kind != ObjSectionKind::Bss && 0 <= j && 4 * j + 4
            <= obj.sections[k].data.len() && #[trigger] number_le(obj.sections[k].data, 4 * j, 4)
            == va
}

/// Whether a decoded instruction calls `va` or jumps to it.
pub open spec fn is_target(snap: Seq<CodeView>, spans: Seq<(u32, u32)>, va: u32) -> bool {
    exists|p: u32, field: u32|
        has_key(spans, p) && #[trigger] transfers(snap, p, va, field)
}

/// Whether there is a reason to take `va` for the entry of a function.
pub open spec fn has_reason(
    snap: Seq<CodeView>,
    obj: ObjView,
    spans: Seq<(u32, u32)>,
    va: u32,
) -> bool {
    is_seed(obj, va) || is_pointed_at(obj, va) || is_target(snap, spans, va)
}

/// Whether `s` is the symbol of a function at the code address `va`: named `fn_` and the
/// eight digits of the address, and of unknown size.
pub open spec fn names_function(snap: Seq<CodeView>, s: SymbolView, va: u32) -> bool {
    &&& code_at(snap, va) is Some
    &&& s.name.len() == 11
    &&& s.name[0] == 'f' && s.name[1] == 'n' && s.name[2] == '_'
    &&& numeral(s.name.subrange(3, 11), 16) == va
    &&& s.address == va
    &&& s.section == Some(home(snap, va).index)
    &&& s.kind == ObjSymbolKind::Function
    &&& s.size == 0
    &&& !s.size_known
}

/// Whether there is a function at the symbol and a reason to take it for one.
pub open spec fn symbol_right(
    snap: Seq<CodeView>,
    obj: ObjView,
    spans: Seq<(u32, u32)>,
    s: SymbolView,
) -> bool {
    exists|va: u32| #[trigger] names_function(snap, s, va) && has_reason(snap, obj, spans, va)
}

proof fn lemma_found(snap: Seq<CodeView>, va: u32)
    requires
        code_at(snap, va) is Some,
    ensures
        names_function(snap, found_function(home(snap, va).index, va), va),
{
    let s = found_function(home(snap, va).index, va);
    reveal_strlit("fn_");
    lemma_eight_digits(va);
    assert(s.name.subrange(3, 11) =~= crate::text::upper_hex(va as nat, 8));
}

/// Whether all that was recorded since `obj` has its reason.
spec fn all_right(snap: Seq<CodeView>, obj: ObjView, st: Scan) -> bool {
    &&& st.sections.len() == obj.sections.len()
    &&& obj.symbols.len() <= st.symbols.len()
    &&& forall|i: int| 0 <= i < obj.symbols.len() ==> #[trigger] st.symbols[i] == obj.symbols[i]
    &&& forall|j: int, key: u32|
        0 <= j < st.sections.len() && #[trigger] has_key(st.sections[j].relocations, key)
            && !has_key(obj.sections[j].relocations, key) ==> reloc_right(
            snap,
            st.spans,
            st.symbols,
            j,
            key,
            value_at(st.sections[j].relocations, key)->Some_0,
        )
    &&& forall|i: int|
        obj.symbols.len() <= i < st.symbols.len() ==> symbol_right(
            snap,
            obj,
            st.spans,
            #[trigger] st.symbols[i],
        )
    &&& forall|v: u32| #[trigger]
        has_key(st.pending, v) ==> has_reason(snap, obj, st.spans, v)
    &&& forall|p: u32, q: u32|
        has_key(st.spans, p) && #[trigger] jumps(snap, p, q) && is_function(snap, obj.symbols, q)
            ==> jump_recorded(snap, st, p, q)
}

proof fn lemma_reason_stays(
    snap: Seq<CodeView>,
    obj: ObjView,
    a: Seq<(u32, u32)>,
    b: Seq<(u32, u32)>,
    va: u32,
)
    requires
        has_reason(snap, obj, a, va),
        forall|v: u32| #[trigger] has_key(a, v) ==> has_key(b, v),
    ensures
        has_reason(snap, obj, b, va),
{
    if is_target(snap, a, va) {
        let (p, field) = choose|p: u32, field: u32|
            has_key(a, p) && #[trigger] transfers(snap, p, va, field);
        assert(has_key(b, p) && transfers(snap, p, va, field));
    }
}

proof fn lemma_symbol_stays(
    snap: Seq<CodeView>,
    obj: ObjView,
    a: Seq<(u32, u32)>,
    b: Seq<(u32, u32)>,
    s: SymbolView,
)
    requires
        symbol_right(snap, obj, a, s),
        forall|v: u32| #[trigger] has_key(a, v) ==> has_key(b, v),
    ensures
        symbol_right(snap, obj, b, s),
{
    let va = choose|va: u32| #[trigger]
        names_function(snap, s, va) && has_reason(snap, obj, a, va);
    lemma_reason_stays(snap, obj, a, b, va);
}

proof fn lemma_reloc_stays(
    snap: Seq<CodeView>,
    a: Scan,
    b: Scan,
    j: int,
    key: u32,
    r: ObjReloc,
)
    requires
        reloc_right(snap, a.spans, a.symbols, j, key, r),
        forall|v: u32| #[trigger] has_key(a.spans, v) ==> has_key(b.spans, v),
        a.symbols.len() <= b.symbols.len(),
        forall|i: int| 0 <= i < a.symbols.len() ==> #[trigger] b.symbols[i] == a.symbols[i],
    ensures
        reloc_right(snap, b.spans, b.symbols, j, key, r),
{
    let (p, q) = choose|p: u32, q: u32|
        has_key(a.spans, p) && home(snap, p).index == j && #[trigger] transfers(snap, p, q, key)
            && refers_to(snap, a.symbols, r, q);
    assert(b.symbols[r.target_symbol as int] == a.symbols[r.target_symbol as int]);
    assert(has_key(b.spans, p) && transfers(snap, p, q, key));
}

/// Exactly what a call or jump to a function records.
proof fn lemma_transfer_exact(
    snap: Seq<CodeView>,
    st: Scan,
    src: SectionIndex,
    operand: u32,
    k: int,
    va: u32,
)
    requires
        relocs_ok(st.sections),
        src < st.sections.len(),
        st.sections[src as int].kind == ObjSectionKind::Code,
        code_at(snap, va) == Some(k),
        !st.ambiguous,
        with_transfer(st, src, operand, snap[k].index, va).symbols.len() <= usize::MAX,
        !with_transfer(st, src, operand, snap[k].index, va).ambiguous,
    ensures
        ({
            let end = with_transfer(st, src, operand, snap[k].index, va);
            &&& end.symbols == st.symbols || end.symbols == st.symbols.push(
                found_function(snap[k].index, va),
            )
            &&& end.sections.len() == st.sections.len()
            &&& forall|j: int, key: u32|
                0 <= j < st.sections.len() && #[trigger] has_key(end.sections[j].relocations, key)
                    && !has_key(st.sections[j].relocations, key) ==> {
                    &&& j == src
                    &&& key == operand
                    &&& refers_to(
                        snap,
                        end.symbols,
                        value_at(end.sections[j].relocations, key)->Some_0,
                        va,
                    )
                }
        }),
{
    let sec = snap[k].index;
    let named = with_function(st, sec, va);
    let end = with_transfer(st, src, operand, sec, va);
    lemma_transfer(snap, st, src, operand, k, va);
    lemma_kind_indexes(st.symbols, sec, va, ObjSymbolKind::Function, st.symbols.len());
    let n = named.symbols.len();
    if named.symbols.len() > st.symbols.len() {
        assert(named.symbols[n - 1] == found_function(sec, va));
        crate::analysis::x86_laws::lemma_function_there(named.symbols, sec, va, n - 1);
    }
    lemma_kind_indexes(named.symbols, sec, va, ObjSymbolKind::Function, n);
    let functions = kind_indexes_at(named.symbols, sec, va, ObjSymbolKind::Function, n);
    assert(functions.len() > 0);
    let target = functions[0];
    assert(0 <= target < n);
    let section = st.sections[src as int];
    if !has_key(section.relocations, operand) {
        let x = named.symbols[target];
        let addend = signed64(va - x.address);
        let reloc = ObjReloc {
            kind: ObjRelocKind::X86Rel32,
            target_symbol: target as usize,
            addend,
            module: None,
        };
        assert(end.sections[src as int].relocations == put(section.relocations, operand, reloc));
        assert((x.address + addend - va) % 0x1_0000_0000_0000_0000 == 0);
        assert(is_function_at(x, sec, va as int));
        assert(refers_to(snap, end.symbols, reloc, va));
        assert forall|j: int, key: u32|
            0 <= j < st.sections.len() && #[trigger] has_key(end.sections[j].relocations, key)
                && !has_key(st.sections[j].relocations, key) implies {
            &&& j == src
            &&& key == operand
            &&& refers_to(
                snap,
                end.symbols,
                value_at(end.sections[j].relocations, key)->Some_0,
                va,
            )
        } by {
            if j == src {
                lemma_put_value(section.relocations, operand, reloc, key);
            }
        }
    }
}

/// Exactly what following an instruction records.
proof fn lemma_follow_exact(snap: Seq<CodeView>, w: Walk, k: int, pc: u32)
    requires
        all_fit(snap),
        relocs_ok(w.scan.sections),
        at_code(snap, w.scan.sections),
        ascending(w.scan.pending),
        !w.scan.ambiguous,
        code_at(snap, pc) == Some(k),
        runs(snap, pc),
        ({
            let end = follow(snap, w, snap[k].index, pc, insn_of(snap, pc), flow_of(snap, pc));
            !end.scan.ambiguous && end.scan.symbols.len() <= usize::MAX
        }),
    ensures
        ({
            let end = follow(snap, w, snap[k].index, pc, insn_of(snap, pc), flow_of(snap, pc));
            &&& end.scan == w.scan || {
                let q = insn_of(snap, pc).near_branch;
                &&& code_at(snap, q) is Some
                &&& exists|field: u32| #[trigger] transfers(snap, pc, q, field)
                &&& end.scan.symbols == w.scan.symbols || end.scan.symbols
                    == w.scan.symbols.push(found_function(home(snap, q).index, q))
                &&& end.scan.pending == put(w.scan.pending, q, ())
                &&& forall|j: int, key: u32|
                    0 <= j < w.scan.sections.len() && #[trigger] has_key(
                        end.scan.sections[j].relocations,
                        key,
                    ) && !has_key(w.scan.sections[j].relocations, key) ==> {
                        &&& j == snap[k].index
                        &&& transfers(snap, pc, q, key)
                        &&& refers_to(
                            snap,
                            end.scan.symbols,
                            value_at(end.scan.sections[j].relocations, key)->Some_0,
                            q,
                        )
                    }
            }
            &&& forall|q: u32| #[trigger]
                jumps(snap, pc, q) && is_function(snap, w.scan.symbols, q) ==> jump_recorded(
                    snap,
                    end.scan,
                    pc,
                    q,
                )
        }),
{
    let insn = insn_of(snap, pc);
    let flow = flow_of(snap, pc);
    let src = snap[k].index;
    let end = follow(snap, w, src, pc, insn, flow);
    let q = insn.near_branch;
    lemma_code_at(snap, pc);
    assert(snap[k].fits());
    let next = (pc + insn.len) as u32;
    assert(next == behind(snap, pc));
    assert(four_before(next) == jump_field(snap, pc));
    assert(call_operand(pc, insn) == call_field(snap, pc));
    if let Some(t) = code_at(snap, q) {
        let operand = if flow == X86Flow::Call {
            call_operand(pc, insn)
        } else {
            four_before(next)
        };
        let moved = with_transfer(w.scan, src, operand, snap[t].index, q);
        if (flow == X86Flow::Call || flow == X86Flow::UnconditionalBranch) && insn.op0
            == X86Operand::NearBranch32 && end.scan == moved {
            lemma_transfer_exact(snap, w.scan, src, operand, t, q);
            lemma_transfer(snap, w.scan, src, operand, t, q);
            lemma_is_function(snap, end.scan.symbols, q);
            assert(transfers(snap, pc, q, operand));
        } else {
            assert(end.scan == w.scan);
        }
        if jumps(snap, pc, q) && is_function(snap, w.scan.symbols, q) {
            lemma_is_function(snap, w.scan.symbols, q);
            assert(end.scan == moved);
        }
    }
}

/// What had its reason keeps it, while nothing is recorded.
proof fn lemma_right_kept(snap: Seq<CodeView>, obj: ObjView, a: Scan, b: Scan)
    requires
        all_right(snap, obj, a),
        a.symbols == b.symbols,
        a.sections == b.sections,
        a.spans == b.spans,
        forall|v: u32| #[trigger]
            has_key(b.pending, v) ==> has_key(a.pending, v) || has_reason(snap, obj, b.spans, v),
    ensures
        all_right(snap, obj, b),
{
    assert forall|p: u32, q: u32|
        has_key(b.spans, p) && #[trigger] jumps(snap, p, q) && is_function(
            snap,
            obj.symbols,
            q,
        ) implies jump_recorded(snap, b, p, q) by {
        assert(jump_recorded(snap, a, p, q));
    }
    assert forall|j: int, key: u32|
        0 <= j < b.sections.len() && #[trigger] has_key(b.sections[j].relocations, key)
            && !has_key(obj.sections[j].relocations, key) implies reloc_right(
        snap,
        b.spans,
        b.symbols,
        j,
        key,
        value_at(b.sections[j].relocations, key)->Some_0,
    ) by {
        assert(has_key(a.sections[j].relocations, key));
    }
}

/// One step records nothing without a reason.
proof fn lemma_step_right(snap: Seq<CodeView>, obj: ObjView, w: Walk)
    requires
        all_fit(snap),
        walk_sound(snap, w),
        all_right(snap, obj, w.scan),
        !walk_over(w),
        !step(snap, w).scan.ambiguous,
        step(snap, w).scan.symbols.len() <= usize::MAX,
    ensures
        all_right(snap, obj, step(snap, w).scan),
{
    let pc = w.flow[0];
    let end = step(snap, w);
    lemma_runs(snap, pc);
    lemma_step_sound(snap, w);
    if !has_key(w.visited, pc) && runs(snap, pc) {
        let k = code_at(snap, pc)->Some_0;
        lemma_code_at(snap, pc);
        assert(snap[k].fits());
        let span = behind(snap, pc) as u32;
        let seen = Walk {
            scan: Scan { spans: put(w.scan.spans, pc, span), ..w.scan },
            visited: put(w.visited, pc, ()),
            flow: w.flow.drop_first(),
            ..w
        };
        assert(end == follow(snap, seen, snap[k].index, pc, insn_of(snap, pc), flow_of(snap, pc)));
        lemma_put_true(snap, w.scan.spans, pc);
        lemma_follow_settled(snap, seen, k, pc);
        lemma_follow_exact(snap, seen, k, pc);
        let q = insn_of(snap, pc).near_branch;
        let (a, b) = (w.scan, end.scan);
        assert(has_key(b.spans, pc));
        if b != seen.scan {
            let field = choose|field: u32| #[trigger] transfers(snap, pc, q, field);
            assert(is_target(snap, b.spans, q));
            lemma_found(snap, q);
        }
        assert forall|j: int, key: u32|
            0 <= j < b.sections.len() && #[trigger] has_key(b.sections[j].relocations, key)
                && !has_key(obj.sections[j].relocations, key) implies reloc_right(
            snap,
            b.spans,
            b.symbols,
            j,
            key,
            value_at(b.sections[j].relocations, key)->Some_0,
        ) by {
            if has_key(a.sections[j].relocations, key) {
                let r = value_at(a.sections[j].relocations, key)->Some_0;
                assert(section_grown(b.symbols, a.sections[j], b.sections[j]));
                lemma_reloc_stays(snap, a, b, j, key, r);
            } else {
                assert(transfers(snap, pc, q, key));
            }
        }
        assert forall|i: int| obj.symbols.len() <= i < b.symbols.len() implies symbol_right(
            snap,
            obj,
            b.spans,
            #[trigger] b.symbols[i],
        ) by {
            if i < a.symbols.len() {
                assert(b.symbols[i] == a.symbols[i]);
                lemma_symbol_stays(snap, obj, a.spans, b.spans, a.symbols[i]);
            } else {
                assert(b.symbols[i] == found_function(home(snap, q).index, q));
                assert(names_function(snap, b.symbols[i], q));
            }
        }
        assert forall|v: u32| #[trigger] has_key(b.pending, v) implies has_reason(
            snap,
            obj,
            b.spans,
            v,
        ) by {
            lemma_put_keys(a.pending, q, (), v);
            if has_key(a.pending, v) {
                lemma_reason_stays(snap, obj, a.spans, b.spans, v);
            }
        }
        assert forall|p: u32, t: u32|
            has_key(b.spans, p) && #[trigger] jumps(snap, p, t) && is_function(
                snap,
                obj.symbols,
                t,
            ) implies jump_recorded(snap, b, p, t) by {
            let i = choose|i: int|
                0 <= i < obj.symbols.len() && is_function_at(
                    #[trigger] obj.symbols[i],
                    home(snap, t).index,
                    t as int,
                );
            assert(a.symbols[i] == obj.symbols[i]);
            assert(is_function(snap, a.symbols, t));
            if p != pc {
                assert(has_key(a.spans, p));
                assert(jump_recorded(snap, a, p, t));
                lemma_code_at(snap, p);
                let j = home(snap, p).index as int;
                let x = choose|x: int| 0 <= x < a.spans.len() && #[trigger] a.spans[x].0 == p;
                assert(runs(snap, a.spans[x].0));
                assert(0 <= j < a.sections.len());
                assert(has_key(a.sections[j].relocations, jump_field(snap, p)));
            }
        }
    }
}

proof fn lemma_walk_right(snap: Seq<CodeView>, obj: ObjView, w: Walk)
    requires
        all_fit(snap),
        walk_sound(snap, w),
        all_right(snap, obj, w.scan),
        !walk(snap, w).scan.ambiguous,
        walk(snap, w).scan.symbols.len() <= usize::MAX,
    ensures
        all_right(snap, obj, walk(snap, w).scan),
    decreases 0x1_0000_0000 - w.visited.len(), w.flow.len(),
{
    if !walk_over(w) {
        let next = step(snap, w);
        lemma_step_progress(snap, w);
        lemma_walk_len(snap, next);
        assert(walk(snap, w) == walk(snap, next));
        if next.scan.ambiguous {
            assert(walk(snap, next) == next);
        }
        lemma_step_sound(snap, w);
        lemma_step_right(snap, obj, w);
        lemma_walk_right(snap, obj, next);
    }
}

/// Dealing with a pending entry records nothing without a reason.
proof fn lemma_enter_right(snap: Seq<CodeView>, obj: ObjView, st: Scan)
    requires
        all_fit(snap),
        scan_sound(snap, st),
        all_right(snap, obj, st),
        st.pending.len() > 0,
        !st.ambiguous,
        !enter(snap, st).ambiguous,
        enter(snap, st).symbols.len() <= usize::MAX,
    ensures
        all_right(snap, obj, enter(snap, st)),
{
    let va = st.pending[0].0;
    let rest = Scan { pending: st.pending.drop_first(), ..st };
    let end = enter(snap, st);
    lemma_runs(snap, va);
    assert(has_key(st.pending, va));
    assert forall|v: u32| #[trigger] has_key(rest.pending, v) implies has_key(st.pending, v) by {
        let i = choose|i: int| 0 <= i < rest.pending.len() && #[trigger] rest.pending[i].0 == v;
        assert(st.pending[i + 1].0 == v);
    }
    lemma_right_kept(snap, obj, st, rest);
    if !(in_span(st.spans, va) || code_at(snap, va) is None) {
        let k = code_at(snap, va)->Some_0;
        let named = with_function(rest, snap[k].index, va);
        let start = walk_start(named, va);
        let w = walk(snap, start);
        if named.ambiguous || w.scan.ambiguous {
            assert(end.ambiguous);
        }
        lemma_start_sound(snap, st, k);
        lemma_found(snap, va);
        assert(all_right(snap, obj, named)) by {
            assert forall|i: int| obj.symbols.len() <= i < named.symbols.len() implies symbol_right(
                snap,
                obj,
                named.spans,
                #[trigger] named.symbols[i],
            ) by {
                if i < st.symbols.len() {
                    assert(named.symbols[i] == st.symbols[i]);
                } else {
                    assert(named.symbols[i] == found_function(home(snap, va).index, va));
                    assert(names_function(snap, named.symbols[i], va));
                    assert(has_reason(snap, obj, st.spans, va));
                }
            }
            assert forall|j: int, key: u32|
                0 <= j < named.sections.len() && #[trigger] has_key(
                    named.sections[j].relocations,
                    key,
                ) && !has_key(obj.sections[j].relocations, key) implies reloc_right(
                snap,
                named.spans,
                named.symbols,
                j,
                key,
                value_at(named.sections[j].relocations, key)->Some_0,
            ) by {
                let r = value_at(st.sections[j].relocations, key)->Some_0;
                assert(has_key(st.sections[j].relocations, key));
                lemma_reloc_stays(snap, st, named, j, key, r);
            }
            assert forall|p: u32, q: u32|
                has_key(named.spans, p) && #[trigger] jumps(snap, p, q) && is_function(
                    snap,
                    obj.symbols,
                    q,
                ) implies jump_recorded(snap, named, p, q) by {
                assert(has_key(st.spans, p));
                assert(jump_recorded(snap, st, p, q));
                assert(is_function(snap, st.symbols, q));
            }
        }
        lemma_walk_right(snap, obj, start);
        lemma_right_kept(snap, obj, w.scan, end);
    }
}

/// The words that are taken for entries stand in the data.
proof fn lemma_words_right(
    snap: Seq<CodeView>,
    spans: Seq<(u32, u32)>,
    pending: Seq<(u32, ())>,
    data: Seq<u8>,
    n: nat,
    v: u32,
)
    requires
        ascending(pending),
        n <= data.len() / 4,
        has_key(sweep_words(snap, spans, pending, data, n), v),
    ensures
        has_key(pending, v) || exists|j: int|
            0 <= j && 4 * j + 4 <= data.len() && #[trigger] number_le(data, 4 * j, 4) == v,
    decreases n,
{
    if n > 0 {
        let below = sweep_words(snap, spans, pending, data, (n - 1) as nat);
        lemma_sweep_ascending(snap, spans, pending, data, (n - 1) as nat);
        let word = le_u32(data, 4 * (n - 1));
        lemma_words(data, 4 * (n - 1));
        lemma_put_keys(below, word, (), v);
        if v == word {
            assert(number_le(data, 4 * (n - 1), 4) == v);
        } else {
            lemma_words_right(snap, spans, pending, data, (n - 1) as nat, v);
        }
    }
}

proof fn lemma_sweep_right(
    snap: Seq<CodeView>,
    spans: Seq<(u32, u32)>,
    pending: Seq<(u32, ())>,
    datas: Seq<Seq<u8>>,
    n: nat,
    v: u32,
)
    requires
        ascending(pending),
        n <= datas.len(),
        has_key(sweep(snap, spans, pending, datas, n), v),
    ensures
        has_key(pending, v) || exists|m: int, j: int|
            0 <= m < n && 0 <= j && 4 * j + 4 <= datas[m].len() && #[trigger] number_le(
                datas[m],
                4 * j,
                4,
            ) == v,
    decreases n,
{
    if n > 0 {
        let below = sweep(snap, spans, pending, datas, (n - 1) as nat);
        lemma_sweep_all_ascending(snap, spans, pending, datas, (n - 1) as nat);
        let data = datas[n - 1];
        lemma_words_right(snap, spans, below, data, data.len() / 4, v);
        if has_key(below, v) {
            lemma_sweep_right(snap, spans, pending, datas, (n - 1) as nat, v);
        } else {
            let j = choose|j: int|
                0 <= j && 4 * j + 4 <= data.len() && #[trigger] number_le(data, 4 * j, 4) == v;
            assert(number_le(datas[n - 1], 4 * j, 4) == v);
        }
    }
}

/// The data sections are sections that are neither code nor uninitialised.
proof fn lemma_data_from(s: Seq<SectionView>, n: nat, m: int)
    requires
        n <= s.len(),
        0 <= m < data_sections(s, n).len(),
    ensures
        exists|k: int|
            0 <= k < n && (#[trigger] s[k]).kind != ObjSectionKind::Code && s[k].kind
                != ObjSectionKind::Bss && s[k].data == data_sections(s, n)[m],
    decreases n,
{
    if n > 0 {
        let below = data_sections(s, (n - 1) as nat);
        if m < below.len() {
            lemma_data_from(s, (n - 1) as nat, m);
            assert(data_sections(s, n)[m] == below[m]);
        } else {
            assert(s[n - 1].data == data_sections(s, n)[m]);
        }
    }
}

proof fn lemma_explore_right(
    snap: Seq<CodeView>,
    obj: ObjView,
    st: Scan,
    swept: bool,
)
    requires
        all_fit(snap),
        scan_sound(snap, st),
        all_right(snap, obj, st),
        ({
            let datas = data_sections(obj.sections, obj.sections.len());
            &&& !explore(snap, datas, st, swept).ambiguous
            &&& explore(snap, datas, st, swept).symbols.len() <= usize::MAX
        }),
    ensures
        all_right(
            snap,
            obj,
            explore(snap, data_sections(obj.sections, obj.sections.len()), st, swept),
        ),
    decreases (if swept { 0int } else { 1int }), 0x1_0000_0000 - st.spans.len(), st.pending.len(),
{
    let datas = data_sections(obj.sections, obj.sections.len());
    if !st.ambiguous {
        if st.pending.len() > 0 {
            let next = enter(snap, st);
            lemma_enter_progress(snap, st);
            lemma_explore_len(snap, datas, next, swept);
            assert(explore(snap, datas, st, swept) == explore(snap, datas, next, swept));
            if next.ambiguous {
                assert(explore(snap, datas, next, swept) == next);
            }
            lemma_enter_sound(snap, st);
            lemma_enter_right(snap, obj, st);
            lemma_explore_right(snap, obj, next, swept);
        } else if !swept {
            let pending = sweep(snap, st.spans, st.pending, datas, datas.len());
            let next = Scan { pending, ..st };
            lemma_sweep_handed(snap, st, datas, datas.len());
            assert forall|i: int| 0 <= i < next.spans.len() implies settled(
                snap,
                next,
                Seq::empty(),
                (#[trigger] next.spans[i]).0,
            ) by {
                let p = st.spans[i].0;
                assert(settled(snap, st, Seq::empty(), p));
                lemma_settled_more(snap, st, next, Seq::empty(), Seq::empty(), p);
            }
            assert forall|v: u32| #[trigger] has_key(next.pending, v) implies has_key(
                st.pending,
                v,
            ) || has_reason(snap, obj, next.spans, v) by {
                lemma_sweep_right(snap, st.spans, st.pending, datas, datas.len(), v);
                if !has_key(st.pending, v) {
                    let (m, j) = choose|m: int, j: int|
                        0 <= m < datas.len() && 0 <= j && 4 * j + 4 <= datas[m].len()
                            && #[trigger] number_le(datas[m], 4 * j, 4) == v;
                    lemma_data_from(obj.sections, obj.sections.len(), m);
                    let k = choose|k: int|
                        0 <= k < obj.sections.len() && (#[trigger] obj.sections[k]).kind
                            != ObjSectionKind::Code && obj.sections[k].kind != ObjSectionKind::Bss
                            && obj.sections[k].data == datas[m];
                    assert(number_le(obj.sections[k].data, 4 * j, 4) == v);
                    assert(is_pointed_at(obj, v));
                }
            }
            lemma_right_kept(snap, obj, st, next);
            assert(explore(snap, datas, st, swept) == explore(snap, datas, next, true));
            lemma_explore_right(snap, obj, next, true);
        } else {
            assert(explore(snap, datas, st, swept) == st);
        }
    }
}

/// Only the entry point and known functions are seeds.
pub(crate) proof fn lemma_seeds_from(obj: ObjView, n: nat, v: u32)
    requires
        n <= obj.symbols.len(),
        has_key(seeds(obj.entry, obj.symbols, n), v),
    ensures
        is_seed(obj, v),
    decreases n,
{
    if n == 0 {
        if let Some(e) = obj.entry {
            let none: Seq<(u32, ())> = Seq::empty();
            lemma_put_keys(none, low32(e), (), v);
        }
    } else {
        let below = seeds(obj.entry, obj.symbols, (n - 1) as nat);
        lemma_seeds_wait(obj.entry, obj.symbols, (n - 1) as nat);
        let s = obj.symbols[n - 1];
        lemma_put_keys(below, low32(s.address), (), v);
        if has_key(below, v) {
            lemma_seeds_from(obj, (n - 1) as nat, v);
        } else {
            assert(obj.symbols[n - 1].address % 0x1_0000_0000 == v);
        }
    }
}

/// A successful analysis records nothing without a reason. A relocation that it adds is
/// that of a decoded call or jump, stands at the operand and refers to the function at
/// its target. A symbol that it adds names a function in code that is the entry point,
/// that a word of the data holds, or that a decoded instruction calls or jumps to. A
/// jump to a function that was known is recorded as one to another function.
pub proof fn lemma_analysis_reasons(obj: ObjView)
    requires
        all_fit(code_sections(obj.sections, obj.sections.len())),
        relocs_ok(obj.sections),
        obj.sections.len() <= usize::MAX,
        scan_end(obj).symbols.len() <= usize::MAX,
        !scan_end(obj).ambiguous,
    ensures
        ({
            let snap = code_sections(obj.sections, obj.sections.len());
            let end = scan_end(obj);
            &&& end.sections.len() == obj.sections.len()
            &&& forall|j: int, key: u32|
                0 <= j < end.sections.len() && #[trigger] has_key(end.sections[j].relocations, key)
                    && !has_key(obj.sections[j].relocations, key) ==> reloc_right(
                    snap,
                    end.spans,
                    end.symbols,
                    j,
                    key,
                    value_at(end.sections[j].relocations, key)->Some_0,
                )
            &&& forall|i: int|
                obj.symbols.len() <= i < end.symbols.len() ==> symbol_right(
                    snap,
                    obj,
                    end.spans,
                    #[trigger] end.symbols[i],
                )
            &&& forall|p: u32, q: u32|
                has_key(end.spans, p) && #[trigger] jumps(snap, p, q) && is_function(
                    snap,
                    obj.symbols,
                    q,
                ) ==> jump_recorded(snap, end, p, q)
        }),
{
    let snap = code_sections(obj.sections, obj.sections.len());
    let start = scan_start(obj);
    lemma_code_sections_kind(obj.sections, obj.sections.len());
    lemma_seeds_wait(obj.entry, obj.symbols, obj.symbols.len());
    assert forall|v: u32| #[trigger] has_key(start.pending, v) implies has_reason(
        snap,
        obj,
        start.spans,
        v,
    ) by {
        lemma_seeds_from(obj, obj.symbols.len(), v);
    }
    lemma_explore_right(snap, obj, start, false);
}

/// Whether `va` points into the middle of the decoded instruction that starts last at or
/// before it.
pub open spec fn in_the_middle(spans: Seq<(u32, u32)>, va: int) -> bool {
    exists|k: int|
        0 <= k < spans.len() && (#[trigger] spans[k]).0 < va < spans[k].1 && forall|j: int|
            0 <= j < spans.len() && (#[trigger] spans[j]).0 <= va ==> spans[j].0 <= spans[k].0
}

/// A function symbol stops being one exactly where it points into the middle of a
/// decoded instruction; every other symbol stays as it is.
pub proof fn lemma_downgraded(symbols: Seq<SymbolView>, spans: Seq<(u32, u32)>, i: int)
    requires
        ascending(spans),
        0 <= i < symbols.len(),
    ensures
        ({
            let new = downgrade_all(symbols, spans)[i];
            let hit = symbols[i].kind == ObjSymbolKind::Function && in_the_middle(
                spans,
                (symbols[i].address % 0x1_0000_0000) as int,
            );
            &&& hit ==> new == (SymbolView { kind: ObjSymbolKind::Unknown, ..symbols[i] })
            &&& !hit ==> new == symbols[i]
        }),
{
    let va = low32(symbols[i].address);
    assert(downgrade_all(symbols, spans)[i] == downgraded(symbols[i], spans));
    if inside_nearest(spans, va) {
        let k = choose|k: int| #[trigger] is_nearest(spans, k, va) && spans[k].0 < va < spans[k].1;
        assert forall|j: int|
            0 <= j < spans.len() && (#[trigger] spans[j]).0 <= va implies spans[j].0
            <= spans[k].0 by {
            if j > k {
                assert(spans[j].0 > va);
            } else if j < k {
                assert(spans[j].0 < spans[k].0);
            }
        }
        assert(in_the_middle(spans, va as int));
    }
    if in_the_middle(spans, va as int) {
        let k = choose|k: int|
            0 <= k < spans.len() && (#[trigger] spans[k]).0 < va < spans[k].1 && forall|j: int|
                0 <= j < spans.len() && (#[trigger] spans[j]).0 <= va ==> spans[j].0
                    <= spans[k].0;
        assert forall|j: int| k < j < spans.len() implies (#[trigger] spans[j]).0 > va by {
            assert(spans[k].0 < spans[j].0);
        }
        assert(is_nearest(spans, k, va));
    }
}

/// Whether two symbols are function symbols at one address of one section.
pub open spec fn is_double(a: SymbolView, b: SymbolView) -> bool {
    &&& a.kind == ObjSymbolKind::Function && b.kind == ObjSymbolKind::Function
    &&& a.section is Some && a.section == b.section
    &&& a.address % 0x1_0000_0000 == b.address % 0x1_0000_0000
}

/// Whether no two function symbols stand at one address of one section.
pub open spec fn all_distinct(s: Seq<SymbolView>) -> bool {
    forall|i: int, j: int|
        0 <= i < j < s.len() ==> !is_double(#[trigger] s[i], #[trigger] s[j])
}

proof fn lemma_kind_found(s: Seq<SymbolView>, sec: SectionIndex, va: u32)
    requires
        all_distinct(s),
    ensures
        kind_at(s, sec, va, ObjSymbolKind::Function) is Ok,
        kind_at(s, sec, va, ObjSymbolKind::Function) == Ok::<_, ObjError>(None::<SymbolIndex>)
            ==> all_distinct(s.push(found_function(sec, va))),
{
    let l = kind_indexes_at(s, sec, va, ObjSymbolKind::Function, s.len());
    lemma_kind_indexes(s, sec, va, ObjSymbolKind::Function, s.len());
    lemma_indexes_ascend(s, sec, va, ObjSymbolKind::Function, s.len());
    if l.len() >= 2 {
        assert(l[0] < l[1]);
        assert(is_double(s[l[0]], s[l[1]]));
    }
    if l.len() == 0 {
        let t = s.push(found_function(sec, va));
        assert forall|i: int, j: int| 0 <= i < j < t.len() implies !is_double(
            #[trigger] t[i],
            #[trigger] t[j],
        ) by {
            if j == s.len() {
                if is_double(t[i], t[j]) {
                    assert(s[i].at(sec, va) && s[i].kind == ObjSymbolKind::Function);
                    assert(l.contains(i));
                }
            } else {
                assert(t[i] == s[i] && t[j] == s[j]);
            }
        }
    }
}

proof fn lemma_function_distinct(st: Scan, sec: SectionIndex, va: u32)
    requires
        all_distinct(st.symbols),
        !st.ambiguous,
    ensures
        all_distinct(with_function(st, sec, va).symbols),
        !with_function(st, sec, va).ambiguous,
{
    lemma_kind_found(st.symbols, sec, va);
}

proof fn lemma_transfer_distinct(
    st: Scan,
    src: SectionIndex,
    operand: u32,
    sec: SectionIndex,
    va: u32,
)
    requires
        all_distinct(st.symbols),
        !st.ambiguous,
    ensures
        all_distinct(with_transfer(st, src, operand, sec, va).symbols),
        !with_transfer(st, src, operand, sec, va).ambiguous,
{
    lemma_function_distinct(st, sec, va);
    let named = with_function(st, sec, va);
    lemma_kind_found(named.symbols, sec, va);
}

proof fn lemma_step_distinct(snap: Seq<CodeView>, w: Walk)
    requires
        all_distinct(w.scan.symbols),
        !walk_over(w),
    ensures
        all_distinct(step(snap, w).scan.symbols),
        !step(snap, w).scan.ambiguous,
{
    let pc = w.flow[0];
    if let Some(k) = code_at(snap, pc) {
        let insn = snap[k].insn(pc);
        let spanned = Scan { spans: put(w.scan.spans, pc, (pc + insn.len) as u32), ..w.scan };
        if let Some(t) = code_at(snap, insn.near_branch) {
            lemma_kind_found(w.scan.symbols, snap[t].index, insn.near_branch);
            lemma_transfer_distinct(
                spanned,
                snap[k].index,
                call_operand(pc, insn),
                snap[t].index,
                insn.near_branch,
            );
            lemma_transfer_distinct(
                spanned,
                snap[k].index,
                four_before((pc + insn.len) as u32),
                snap[t].index,
                insn.near_branch,
            );
        }
    }
}

proof fn lemma_walk_distinct(snap: Seq<CodeView>, w: Walk)
    requires
        all_distinct(w.scan.symbols),
        ascending(w.visited),
        !w.scan.ambiguous,
    ensures
        all_distinct(walk(snap, w).scan.symbols),
        !walk(snap, w).scan.ambiguous,
    decreases 0x1_0000_0000 - w.visited.len(), w.flow.len(),
{
    if !walk_over(w) {
        lemma_step_progress(snap, w);
        lemma_step_distinct(snap, w);
        lemma_walk_distinct(snap, step(snap, w));
    }
}

proof fn lemma_explore_distinct(
    snap: Seq<CodeView>,
    datas: Seq<Seq<u8>>,
    st: Scan,
    swept: bool,
)
    requires
        all_fit(snap),
        spans_ok(st.spans),
        all_distinct(st.symbols),
        !st.ambiguous,
    ensures
        !explore(snap, datas, st, swept).ambiguous,
    decreases (if swept { 0int } else { 1int }), 0x1_0000_0000 - st.spans.len(), st.pending.len(),
{
    if st.pending.len() > 0 {
        let va = st.pending[0].0;
        let rest = Scan { pending: st.pending.drop_first(), ..st };
        lemma_enter_progress(snap, st);
        if let Some(k) = code_at(snap, va) {
            lemma_function_distinct(rest, snap[k].index, va);
            lemma_walk_distinct(
                snap,
                walk_start(with_function(rest, snap[k].index, va), va),
            );
        }
        lemma_explore_distinct(snap, datas, enter(snap, st), swept);
    } else if !swept {
        let pending = sweep(snap, st.spans, st.pending, datas, datas.len());
        lemma_explore_distinct(snap, datas, Scan { pending, ..st }, true);
    }
}

/// The analysis fails only on an object that has two function symbols at one address of
/// a section.
pub proof fn lemma_analysis_succeeds(obj: ObjView)
    requires
        all_fit(code_sections(obj.sections, obj.sections.len())),
        all_distinct(obj.symbols),
    ensures
        !scan_end(obj).ambiguous,
{
    lemma_explore_distinct(
        code_sections(obj.sections, obj.sections.len()),
        data_sections(obj.sections, obj.sections.len()),
        scan_start(obj),
        false,
    );
}

} // verus!
