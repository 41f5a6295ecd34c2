//! Function discovery in 32-bit x86 code.
use std::collections::VecDeque;

use vstd::prelude::*;

use crate::addr_map::{AddrMap, ascending, lemma_lower_bound, put, value_at};
use crate::analysis::insn::{
    CodeSection, CodeView, MAX_INSN_LEN, X86Code, X86Flow, X86Insn, X86Operand, all_fit,
    code_sections, code_views, data_sections, decode_valid, find_code, flow_at, indexes_below,
    insn_at, lemma_code_sections, snapshot_code, snapshot_data,
};
use crate::analysis::scan::{
    Scan, Walk, accepts, downgrade_all, downgraded, ends_ok, enter, explore, follow, found_function,
    four_before, in_span, inside_nearest, last_end, lemma_enter_ends, lemma_enter_progress,
    lemma_nearest, lemma_put_span, lemma_step_progress, reloc_symbol, scan_end, scan_start, seeds,
    signed64, spans_ok, step, sweep, sweep_words, walk, walk_over, walk_start, with_candidate,
    with_rel32, with_transfer,
};
use crate::analysis::sizes::{
    code_end, extend_end, function_end, lemma_function_end, lemma_next_entry, lemma_size_updates,
    lemma_updates_stop, next_entry, pad_end, padding, size_cap, size_ok, size_updates, table_end,
    tables_end, with_sizes,
};
use crate::bytes::{low_word, word_le};
use crate::obj::{
    ObjError, ObjInfo, ObjReloc, ObjRelocKind, ObjSymbol, ObjSymbolFlagSet, ObjSymbolKind, ObjView,
    SectionIndex, SectionView, SymbolIndex, SymbolView, indexes_at, kind_at, kind_indexes_at,
    symbol_views,
};
use crate::text::push_upper_hex;

verus! {

/// The instructions decoded so far, by start address.
pub struct DecodedSpans {
    map: AddrMap<u32>,
}

impl View for DecodedSpans {
    type V = Seq<(u32, u32)>;

    closed spec fn view(&self) -> Seq<(u32, u32)> {
        self.map@
    }
}

impl DecodedSpans {
    #[verifier::type_invariant]
    spec fn ok(self) -> bool {
        spans_ok(self.map@)
    }

    /// No instruction.
    pub fn new() -> (r: Self)
        ensures
            r@ == Seq::<(u32, u32)>::empty(),
    {
        DecodedSpans { map: AddrMap::new() }
    }

    /// Records the instruction of `len` bytes at `start`.
    pub fn insert(&mut self, start: u32, len: u32)
        requires
            1 <= len <= MAX_INSN_LEN,
            start + len <= u32::MAX,
        ensures
            final(self)@ == put(old(self)@, start, (start + len) as u32),
            spans_ok(final(self)@),
    {
        proof {
            use_type_invariant(&*self);
            lemma_put_span(self.map@, start, (start + len) as u32);
        }
        let mut map: AddrMap<u32> = AddrMap::new();
        core::mem::swap(&mut map, &mut self.map);
        map.insert(start, start + len);
        self.map = map;
    }

    /// The end of the instruction that starts at `start`.
    pub fn end_of(&self, start: u32) -> (r: Option<u32>)
        ensures
            r == value_at(self@, start),
    {
        match self.map.get(start) {
            Some(e) => Some(*e),
            None => None,
        }
    }

    /// Whether `va` lies behind the start of the last instruction that starts
    /// at or before it, and before that instruction's end.
    pub fn inside_nearest(&self, va: u32) -> (r: bool)
        ensures
            r == inside_nearest(self@, va),
    {
        proof {
            use_type_invariant(self);
            lemma_nearest(self.map@, va);
            lemma_lower_bound(self.map@, va);
        }
        let i: usize = self.map.position(va);
        if i < self.map.len() && self.map.entry(i).0 == va {
            return false;
        }
        i > 0 && va < self.map.entry(i - 1).1
    }
}

/// Returns `true` if `va` falls within any span in `decoded_spans`: at the
/// start of an instruction or inside it.
pub fn is_within_decoded_span(va: u32, decoded_spans: &DecodedSpans) -> (r: bool)
    ensures
        r == in_span(decoded_spans@, va),
{
    proof {
        use_type_invariant(decoded_spans);
        lemma_lower_bound(decoded_spans.map@, va);
    }
    let ghost spans = decoded_spans.map@;
    let mut i: usize = decoded_spans.map.position(va);
    if i < decoded_spans.map.len() && decoded_spans.map.entry(i).0 == va {
        assert(spans[i as int].0 <= va < spans[i as int].1);
        return true;
    }
    assert forall|k: int| i <= k < spans.len() implies (#[trigger] spans[k]).0 > va by {
        assert(spans[i as int].0 <= spans[k].0);
    }
    while i > 0
        invariant
            spans == decoded_spans@,
            spans == decoded_spans.map@,
            spans_ok(spans),
            i <= spans.len(),
            forall|k: int| 0 <= k < i ==> (#[trigger] spans[k]).0 < va,
            forall|k: int| i <= k < spans.len() ==> !((#[trigger] spans[k]).0 <= va < spans[k].1),
        decreases i,
    {
        let e = decoded_spans.map.entry(i - 1);
        assert(spans[i - 1].0 < va);
        if va < e.1 {
            assert(spans[i - 1].0 <= va < spans[i - 1].1);
            return true;
        }
        if va - e.0 >= MAX_INSN_LEN {
            assert forall|k: int| 0 <= k < spans.len() implies !((#[trigger] spans[k]).0 <= va
                < spans[k].1) by {
                if k < i {
                    assert(spans[k].0 <= spans[i - 1].0);
                }
            }
            return false;
        }
        i = i - 1;
    }
    false
}

/// What the analysis has found, apart from the object itself.
pub struct Progress {
    /// The function entries that were not dealt with.
    pub pending: AddrMap<()>,
    pub spans: DecodedSpans,
    /// For each function the address behind its last instruction.
    pub raw_ends: AddrMap<u32>,
    /// The jump tables, each with the function that uses it.
    pub tables: Vec<(u32, u32)>,
}

/// The state that `obj` and `p` stand for.
pub open spec fn scan_of(obj: ObjView, p: Progress, ambiguous: bool) -> Scan {
    Scan {
        symbols: obj.symbols,
        sections: obj.sections,
        pending: p.pending@,
        spans: p.spans@,
        raw_ends: p.raw_ends@,
        tables: p.tables@,
        ambiguous,
    }
}

/// Whether two objects differ in nothing but symbols and sections, and have
/// the same number of sections.
pub open spec fn same_frame(a: ObjView, b: ObjView) -> bool {
    b == (ObjView { symbols: b.symbols, sections: b.sections, ..a }) && a.sections.len()
        == b.sections.len()
}

/// The symbol given to a function found at `va`.
fn function_symbol(sec: SectionIndex, va: u32) -> (r: ObjSymbol)
    ensures
        r@ == found_function(sec, va),
{
    let mut name: String = String::new();
    name.push_str("fn_");
    push_upper_hex(&mut name, va, 8);
    let r = ObjSymbol {
        name,
        address: va as u64,
        section: Some(sec),
        kind: ObjSymbolKind::Function,
        flags: ObjSymbolFlagSet::none(),
        ..Default::default()
    };
    assert(r@.name =~= found_function(sec, va).name);
    r
}

/// Makes sure that a function symbol stands at `va`.
fn ensure_function(obj: &mut ObjInfo, sec: SectionIndex, va: u32) -> (r: Result<(), ObjError>)
    ensures
        r is Err <==> kind_at(old(obj)@.symbols, sec, va, ObjSymbolKind::Function) is Err,
        r matches Err(e) ==> e == ObjError::AmbiguousSymbol,
        same_frame(old(obj)@, final(obj)@),
        final(obj)@.sections == old(obj)@.sections,
        final(obj)@.symbols == (if kind_at(old(obj)@.symbols, sec, va, ObjSymbolKind::Function)
            == Ok::<_, ObjError>(None::<SymbolIndex>) {
            old(obj)@.symbols.push(found_function(sec, va))
        } else {
            old(obj)@.symbols
        }),
{
    match obj.kind_at_section_address(sec, va, ObjSymbolKind::Function) {
        Err(e) => Err(e),
        Ok(Some(_)) => Ok(()),
        Ok(None) => {
            let s = function_symbol(sec, va);
            obj.add_symbol(s);
            Ok(())
        },
    }
}

/// Finds the symbol that a relocation to `va` refers to.
fn find_reloc_symbol(symbols: &Vec<ObjSymbol>, sec: SectionIndex, va: u32) -> (r: Option<
    SymbolIndex,
>)
    ensures
        r is Some <==> reloc_symbol(symbol_views(symbols@), sec, va) is Some,
        r matches Some(i) ==> reloc_symbol(symbol_views(symbols@), sec, va) == Some(i as int) && i
            < symbols@.len(),
{
    let ghost s = symbol_views(symbols@);
    let mut function: Option<usize> = None;
    let mut any: Option<usize> = None;
    let mut i: usize = 0;
    while i < symbols.len()
        invariant
            i <= symbols@.len(),
            s == symbol_views(symbols@),
            function is None <==> kind_indexes_at(
                s,
                sec,
                va,
                ObjSymbolKind::Function,
                i as nat,
            ).len() == 0,
            function matches Some(f) ==> f < i && kind_indexes_at(
                s,
                sec,
                va,
                ObjSymbolKind::Function,
                i as nat,
            )[0] == f,
            any is None <==> indexes_at(s, sec, va, i as nat).len() == 0,
            any matches Some(a) ==> a < i && indexes_at(s, sec, va, i as nat)[0] == a,
        decreases symbols@.len() - i,
    {
        assert(s[i as int] == symbols@[i as int]@);
        if symbols[i].at(sec, va) {
            if any.is_none() {
                any = Some(i);
            }
            if function.is_none() && symbols[i].kind == ObjSymbolKind::Function {
                function = Some(i);
            }
        }
        i = i + 1;
    }
    if function.is_some() {
        function
    } else {
        any
    }
}

/// The difference of two addresses, as a signed 64-bit value.
fn address_difference(va: u32, address: u64) -> (r: i64)
    ensures
        r == signed64(va - address),
{
    let d: u64 = (va as u64).wrapping_sub(address);
    assert(d == (va - address) % 0x1_0000_0000_0000_0000);
    if d < 0x8000_0000_0000_0000 {
        d as i64
    } else {
        (d as i128 - 0x1_0000_0000_0000_0000) as i64
    }
}

/// The part of a state that [`add_rel32`] works on.
pub open spec fn bare_scan(obj: ObjView) -> Scan {
    Scan {
        symbols: obj.symbols,
        sections: obj.sections,
        pending: Seq::empty(),
        spans: Seq::empty(),
        raw_ends: Seq::empty(),
        tables: Seq::empty(),
        ambiguous: false,
    }
}

/// Inserts an [`ObjRelocKind::X86Rel32`] relocation at `operand_va` that points
/// at `target_va` in `tgt_sec`, unless a relocation is there. A symbol at the
/// target is used where there is one.
pub fn add_rel32(
    obj: &mut ObjInfo,
    src_sec: SectionIndex,
    operand_va: u32,
    tgt_sec: SectionIndex,
    target_va: u32,
)
    requires
        src_sec < old(obj)@.sections.len(),
    ensures
        ({
            let end = with_rel32(bare_scan(old(obj)@), src_sec, operand_va, tgt_sec, target_va);
            final(obj)@ == (ObjView { symbols: end.symbols, sections: end.sections, ..old(obj)@ })
        }),
        final(obj)@.sections.len() == old(obj)@.sections.len(),
{
    assert(obj@.sections[src_sec as int] == obj.sections@[src_sec as int]@);
    if obj.sections[src_sec].relocations.contains(operand_va) {
        return ;
    }
    let ghost old_obj = obj@;
    let (target_symbol, addend): (usize, i64) = match find_reloc_symbol(
        &obj.symbols,
        tgt_sec,
        target_va,
    ) {
        Some(i) => {
            assert(obj@.symbols[i as int] == obj.symbols@[i as int]@);
            (i, address_difference(target_va, obj.symbols[i].address))
        },
        None => {
            let s = function_symbol(tgt_sec, target_va);
            (obj.add_symbol(s), 0)
        },
    };
    let ghost mid_obj = obj@;
    let ghost mid_sections = obj.sections@;
    let reloc = ObjReloc { kind: ObjRelocKind::X86Rel32, target_symbol, addend, module: None };
    let section = &mut obj.sections[src_sec];
    section.relocations.insert(operand_va, reloc);
    proof {
        let sec = old_obj.sections[src_sec as int];
        let updated = SectionView {
            relocations: put(sec.relocations, operand_va, reloc),
            ..sec
        };
        assert(obj@.sections =~= old_obj.sections.update(src_sec as int, updated));
    }
}

/// Records a call or jump at `operand` to the function at `va`.
fn transfer(
    obj: &mut ObjInfo,
    p: &mut Progress,
    src: SectionIndex,
    operand: u32,
    sec: SectionIndex,
    va: u32,
) -> (r: Result<(), ObjError>)
    requires
        src < old(obj)@.sections.len(),
    ensures
        with_transfer(scan_of(old(obj)@, *old(p), false), src, operand, sec, va) == scan_of(
            final(obj)@,
            *final(p),
            r is Err,
        ),
        r matches Err(e) ==> e == ObjError::AmbiguousSymbol,
        same_frame(old(obj)@, final(obj)@),
{
    match ensure_function(obj, sec, va) {
        Err(e) => Err(e),
        Ok(_) => {
            p.pending.insert(va, ());
            add_rel32(obj, src, operand, sec, va);
            Ok(())
        },
    }
}

/// The disassembly that `obj`, `p` and the rest stand for.
pub open spec fn walk_of(
    obj: ObjView,
    p: Progress,
    visited: AddrMap<()>,
    flow: VecDeque<u32>,
    tables: Vec<u32>,
    ambiguous: bool,
) -> Walk {
    Walk { scan: scan_of(obj, p, ambiguous), visited: visited@, flow: flow@, tables: tables@ }
}

/// Passes control on from the instruction at `pc`, which was decoded to `insn` and
/// `kind`.
pub fn follow_insn(
    obj: &mut ObjInfo,
    snap: &Vec<CodeSection>,
    p: &mut Progress,
    visited: &AddrMap<()>,
    flow: &mut VecDeque<u32>,
    tables: &mut Vec<u32>,
    src: SectionIndex,
    pc: u32,
    insn: X86Insn,
    kind: X86Flow,
) -> (r: Result<(), ObjError>)
    requires
        src < old(obj)@.sections.len(),
        1 <= insn.len <= MAX_INSN_LEN,
        pc + insn.len <= u32::MAX,
    ensures
        ({
            let end = follow(
                code_views(snap@),
                walk_of(old(obj)@, *old(p), *visited, *old(flow), *old(tables), false),
                src,
                pc,
                insn,
                kind,
            );
            &&& r is Ok ==> end == walk_of(
                final(obj)@,
                *final(p),
                *visited,
                *final(flow),
                *final(tables),
                false,
            )
            &&& r is Err ==> end.scan == scan_of(final(obj)@, *final(p), true)
        }),
        r matches Err(e) ==> e == ObjError::AmbiguousSymbol,
        same_frame(old(obj)@, final(obj)@),
{
    let next: u32 = pc + insn.len;
    let target: u32 = insn.near_branch;
    let near: bool = insn.op0 == X86Operand::NearBranch32;
    let before: u32 = next.wrapping_sub(4);
    assert(before == four_before(next));
    match kind {
        X86Flow::Next | X86Flow::IndirectCall | X86Flow::XbeginXabortXend => {
            flow.push_back(next);
        },
        X86Flow::Return | X86Flow::Exception | X86Flow::Interrupt => {},
        X86Flow::ConditionalBranch => {
            flow.push_back(next);
            if near && find_code(snap, target).is_some() {
                flow.push_back(target);
            }
        },
        X86Flow::IndirectBranch => {
            let table: u32 = low_word(insn.displacement);
            if insn.op0 == X86Operand::Memory && insn.displacement != 0 && find_code(
                snap,
                table,
            ).is_some() {
                tables.push(table);
            }
            flow.push_back(next);
        },
        X86Flow::Call => {
            if near {
                if let Some(t) = find_code(snap, target) {
                    let operand: u32 = if insn.code == X86Code::CallRel32 {
                        pc + 1
                    } else {
                        before
                    };
                    assert(code_views(snap@)[t as int].index == snap@[t as int].index);
                    if let Err(e) = transfer(obj, p, src, operand, snap[t].index, target) {
                        return Err(e);
                    }
                }
            }
            flow.push_back(next);
        },
        X86Flow::UnconditionalBranch => {
            if near {
                if let Some(t) = find_code(snap, target) {
                    assert(code_views(snap@)[t as int].index == snap@[t as int].index);
                    let sec: usize = snap[t].index;
                    match obj.kind_at_section_address(sec, target, ObjSymbolKind::Function) {
                        Err(e) => return Err(e),
                        Ok(known) => {
                            if known.is_some() || p.pending.contains(target) {
                                return transfer(obj, p, src, before, sec, target);
                            }
                            flow.push_back(target);
                        },
                    }
                }
            }
        },
    }
    Ok(())
}

/// Decodes the next address of the function, unless it was decoded before.
fn walk_step(
    obj: &mut ObjInfo,
    snap: &Vec<CodeSection>,
    p: &mut Progress,
    visited: &mut AddrMap<()>,
    flow: &mut VecDeque<u32>,
    tables: &mut Vec<u32>,
) -> (r: Result<(), ObjError>)
    requires
        old(flow)@.len() > 0,
        all_fit(code_views(snap@)),
        indexes_below(code_views(snap@), old(obj)@.sections.len()),
    ensures
        ({
            let end = step(
                code_views(snap@),
                walk_of(old(obj)@, *old(p), *old(visited), *old(flow), *old(tables), false),
            );
            &&& r is Ok ==> end == walk_of(
                final(obj)@,
                *final(p),
                *final(visited),
                *final(flow),
                *final(tables),
                false,
            )
            &&& r is Err ==> end.scan == scan_of(final(obj)@, *final(p), true)
        }),
        r matches Err(e) ==> e == ObjError::AmbiguousSymbol,
        same_frame(old(obj)@, final(obj)@),
{
    let ghost w = walk_of(obj@, *p, *visited, *flow, *tables, false);
    let pc: u32 = match flow.pop_front() {
        Some(pc) => pc,
        None => return Ok(()),
    };
    assert(flow@ =~= w.flow.drop_first());
    if visited.contains(pc) {
        return Ok(());
    }
    visited.insert(pc, ());
    match find_code(snap, pc) {
        None => Ok(()),
        Some(k) => {
            assert(code_views(snap@)[k as int] == snap@[k as int]@);
            assert(code_views(snap@)[k as int].fits());
            let insn = insn_at(&snap[k], pc);
            if !insn.valid {
                return Ok(());
            }
            p.spans.insert(pc, insn.len);
            let kind = flow_at(&snap[k], pc);
            follow_insn(obj, snap, p, visited, flow, tables, snap[k].index, pc, insn, kind)
        },
    }
}

/// Disassembles the function at `va`. Returns the addresses visited and the
/// jump tables met.
fn walk_function(obj: &mut ObjInfo, snap: &Vec<CodeSection>, p: &mut Progress, va: u32) -> (r:
    Result<(AddrMap<()>, Vec<u32>), ObjError>)
    requires
        all_fit(code_views(snap@)),
        indexes_below(code_views(snap@), old(obj)@.sections.len()),
    ensures
        ({
            let end = walk(
                code_views(snap@),
                walk_start(scan_of(old(obj)@, *old(p), false), va),
            );
            &&& end.scan == scan_of(final(obj)@, *final(p), r is Err)
            &&& r matches Ok((visited, tables)) ==> end.visited == visited@ && end.tables == tables@
        }),
        r matches Err(e) ==> e == ObjError::AmbiguousSymbol,
        same_frame(old(obj)@, final(obj)@),
{
    let mut visited: AddrMap<()> = AddrMap::new();
    let mut flow: VecDeque<u32> = VecDeque::new();
    let mut tables: Vec<u32> = Vec::new();
    flow.push_back(va);
    let ghost start = walk_start(scan_of(obj@, *p, false), va);
    assert(walk_of(obj@, *p, visited, flow, tables, false) == start) by {
        assert(flow@ =~= seq![va]);
    }
    let _ = visited.len();
    while flow.len() > 0
        invariant
            all_fit(code_views(snap@)),
            indexes_below(code_views(snap@), obj@.sections.len()),
            same_frame(old(obj)@, obj@),
            start == walk_start(scan_of(old(obj)@, *old(p), false), va),
            ascending(visited@),
            walk(code_views(snap@), walk_of(obj@, *p, visited, flow, tables, false)) == walk(
                code_views(snap@),
                start,
            ),
        decreases 0x1_0000_0000 - visited@.len(), flow@.len(),
    {
        let ghost w = walk_of(obj@, *p, visited, flow, tables, false);
        proof {
            lemma_step_progress(code_views(snap@), w);
        }
        match walk_step(obj, snap, p, &mut visited, &mut flow, &mut tables) {
            Ok(_) => {},
            Err(e) => {
                proof {
                    let next = step(code_views(snap@), w);
                    assert(walk_over(next));
                    assert(walk(code_views(snap@), next) == next);
                }
                return Err(e);
            },
        }
    }
    Ok((visited, tables))
}

/// Finds the highest end of the instructions that start at a visited address.
fn find_last_end(visited: &AddrMap<()>, spans: &DecodedSpans) -> (r: Option<u32>)
    ensures
        r == last_end(visited@, spans@, visited@.len()),
{
    let mut end: Option<u32> = None;
    let mut i: usize = 0;
    while i < visited.len()
        invariant
            i <= visited@.len(),
            end == last_end(visited@, spans@, i as nat),
        decreases visited@.len() - i,
    {
        let e: Option<u32> = spans.end_of(visited.entry(i).0);
        end = match (end, e) {
            (Some(a), Some(b)) => Some(if b > a { b } else { a }),
            (None, b) => b,
            (a, None) => a,
        };
        i = i + 1;
    }
    end
}

/// Deals with the lowest pending function entry.
fn enter_function(obj: &mut ObjInfo, snap: &Vec<CodeSection>, p: &mut Progress) -> (r: Result<
    (),
    ObjError,
>)
    requires
        old(p).pending@.len() > 0,
        all_fit(code_views(snap@)),
        indexes_below(code_views(snap@), old(obj)@.sections.len()),
    ensures
        enter(code_views(snap@), scan_of(old(obj)@, *old(p), false)) == scan_of(
            final(obj)@,
            *final(p),
            r is Err,
        ),
        r matches Err(e) ==> e == ObjError::AmbiguousSymbol,
        same_frame(old(obj)@, final(obj)@),
{
    let va: u32 = match p.pending.pop_first() {
        Some(e) => e.0,
        None => return Ok(()),
    };
    if is_within_decoded_span(va, &p.spans) {
        return Ok(());
    }
    let k: usize = match find_code(snap, va) {
        Some(k) => k,
        None => return Ok(()),
    };
    assert(code_views(snap@)[k as int].index == snap@[k as int].index);
    if let Err(e) = ensure_function(obj, snap[k].index, va) {
        return Err(e);
    }
    match walk_function(obj, snap, p, va) {
        Err(e) => Err(e),
        Ok((visited, tables)) => {
            let end: u32 = match find_last_end(&visited, &p.spans) {
                Some(e) => e,
                None => va,
            };
            if end > va {
                p.raw_ends.insert(va, end);
            }
            let ghost q = *p;
            let ghost pairs = tables@.map_values(|t: u32| (va, t));
            let mut i: usize = 0;
            while i < tables.len()
                invariant
                    i <= tables@.len(),
                    pairs == tables@.map_values(|t: u32| (va, t)),
                    p.tables@ == q.tables@ + pairs.take(i as int),
                    p.pending == q.pending,
                    p.spans == q.spans,
                    p.raw_ends == q.raw_ends,
                decreases tables@.len() - i,
            {
                p.tables.push((va, tables[i]));
                assert(pairs.take(i + 1) =~= pairs.take(i as int).push((va, tables@[i as int])));
                i = i + 1;
            }
            assert(pairs.take(i as int) =~= pairs);
            Ok(())
        },
    }
}

/// Whether a pointer to `va` is taken for a function entry, where the code there
/// decodes.
pub fn accepts_pointer(
    snap: &Vec<CodeSection>,
    spans: &DecodedSpans,
    pending: &AddrMap<()>,
    va: u32,
    decodes: bool,
) -> (r: bool)
    ensures
        r == accepts(code_views(snap@), spans@, pending@, va, decodes),
{
    find_code(snap, va).is_some() && !pending.contains(va) && !is_within_decoded_span(va, spans)
        && decodes
}

/// Looks for function pointers in one data section.
fn sweep_section(snap: &Vec<CodeSection>, spans: &DecodedSpans, pending: &mut AddrMap<()>, data:
    &Vec<u8>)
    ensures
        final(pending)@ == sweep_words(
            code_views(snap@),
            spans@,
            old(pending)@,
            data@,
            data@.len() / 4,
        ),
{
    let len: usize = data.len();
    let n: usize = len / 4;
    let mut i: usize = 0;
    while i < n
        invariant
            len == data@.len(),
            n == len / 4,
            i <= n,
            pending@ == sweep_words(code_views(snap@), spans@, old(pending)@, data@, i as nat),
        decreases n - i,
    {
        let va: u32 = word_le(data.as_slice(), 4 * i);
        let ghost before = pending@;
        if accepts_pointer(snap, spans, pending, va, true) && decode_valid(va, snap) {
            pending.insert(va, ());
        }
        assert(pending@ == with_candidate(code_views(snap@), spans@, before, va));
        i = i + 1;
    }
}

/// Looks for function pointers in all data sections.
fn sweep_all(
    snap: &Vec<CodeSection>,
    datas: &Vec<Vec<u8>>,
    spans: &DecodedSpans,
    pending: &mut AddrMap<()>,
)
    ensures
        final(pending)@ == sweep(
            code_views(snap@),
            spans@,
            old(pending)@,
            datas@.map_values(|v: Vec<u8>| v@),
            datas@.len(),
        ),
{
    let ghost views = datas@.map_values(|v: Vec<u8>| v@);
    let mut i: usize = 0;
    while i < datas.len()
        invariant
            i <= datas@.len(),
            views == datas@.map_values(|v: Vec<u8>| v@),
            pending@ == sweep(code_views(snap@), spans@, old(pending)@, views, i as nat),
        decreases datas@.len() - i,
    {
        assert(views[i as int] == datas@[i as int]@);
        sweep_section(snap, spans, pending, &datas[i]);
        i = i + 1;
    }
}

/// Collects the entries that the analysis starts from.
fn collect_seeds(obj: &ObjInfo) -> (r: AddrMap<()>)
    ensures
        r@ == seeds(obj@.entry, obj@.symbols, obj@.symbols.len()),
{
    let mut pending: AddrMap<()> = AddrMap::new();
    if let Some(e) = obj.entry {
        pending.insert(low_word(e), ());
    }
    let mut i: usize = 0;
    while i < obj.symbols.len()
        invariant
            i <= obj.symbols@.len(),
            pending@ == seeds(obj@.entry, obj@.symbols, i as nat),
        decreases obj.symbols@.len() - i,
    {
        let s = &obj.symbols[i];
        assert(obj@.symbols[i as int] == s@);
        if s.kind == ObjSymbolKind::Function && s.section.is_some() {
            pending.insert(low_word(s.address), ());
        }
        i = i + 1;
    }
    pending
}

/// Takes the claim to be a function from symbols in the middle of instructions.
fn downgrade_symbols(obj: &mut ObjInfo, spans: &DecodedSpans)
    ensures
        final(obj)@ == (ObjView {
            symbols: downgrade_all(old(obj)@.symbols, spans@),
            ..old(obj)@
        }),
{
    let ghost end = downgrade_all(obj@.symbols, spans@);
    let ghost before = obj@.symbols;
    let mut i: usize = 0;
    while i < obj.symbols.len()
        invariant
            before == old(obj)@.symbols,
            end == downgrade_all(before, spans@),
            i <= obj@.symbols.len() == before.len(),
            obj.symbols@.len() == before.len(),
            forall|j: int| 0 <= j < i ==> #[trigger] obj@.symbols[j] == end[j],
            forall|j: int| i <= j < before.len() ==> #[trigger] obj@.symbols[j] == before[j],
            obj@ == (ObjView { symbols: obj@.symbols, ..old(obj)@ }),
        decreases before.len() - i,
    {
        let ghost now = obj@.symbols;
        assert(now[i as int] == obj.symbols@[i as int]@);
        assert(end[i as int] == downgraded(before[i as int], spans@));
        if obj.symbols[i].kind == ObjSymbolKind::Function && spans.inside_nearest(
            low_word(obj.symbols[i].address),
        ) {
            let s = &mut obj.symbols[i];
            s.kind = ObjSymbolKind::Unknown;
            assert(obj@.symbols =~= now.update(i as int, end[i as int]));
        }
        i = i + 1;
    }
    assert(obj@.symbols =~= end);
}

/// Data produced by [`analyze_x86_functions`] that the deferred size pass
/// [`compute_x86_function_sizes`] needs. Callers pass it through.
pub struct X86FunctionSizeData {
    fn_raw_ends: AddrMap<u32>,
    fn_tables: Vec<(u32, u32)>,
    code_snap: Vec<CodeSection>,
}

/// What [`X86FunctionSizeData`] holds.
pub ghost struct SizeView {
    /// Function entry to the end of the function's last instruction.
    pub raw_ends: Seq<(u32, u32)>,
    /// Function entries with the jump tables that the function refers to.
    pub tables: Seq<(u32, u32)>,
    /// The code sections.
    pub code: Seq<CodeView>,
}

impl View for X86FunctionSizeData {
    type V = SizeView;

    closed spec fn view(&self) -> SizeView {
        SizeView {
            raw_ends: self.fn_raw_ends@,
            tables: self.fn_tables@,
            code: code_views(self.code_snap@),
        }
    }
}

impl X86FunctionSizeData {
    #[verifier::type_invariant]
    spec fn ok(self) -> bool {
        ends_ok(self.fn_raw_ends@) && all_fit(code_views(self.code_snap@))
    }
}

/// Recursively disassembles all reachable code in `obj` starting from every
/// known function entry point, discovering new entries via CALL targets and
/// recording [`ObjRelocKind::X86Rel32`] relocations only for cross-function
/// references (CALLs and tail-call JMPs).
///
/// Within-function branches (Jcc, internal JMP) are followed for control-flow
/// coverage but produce no relocations and no label symbols.
///
/// A second pass scans all non-code sections for 4-byte-aligned pointer slots
/// whose values point into code. Candidates are accepted only if no decoded
/// instruction covers them and if they decode as a valid instruction.
///
/// Returns [`X86FunctionSizeData`] for [`compute_x86_function_sizes`], which
/// has to run after all other symbol-discovery passes, so that size caps
/// account for every function entry.
pub fn analyze_x86_functions(obj: &mut ObjInfo) -> (r: Result<X86FunctionSizeData, ObjError>)
    requires
        all_fit(code_sections(old(obj)@.sections, old(obj)@.sections.len())),
    ensures
        ({
            let end = scan_end(old(obj)@);
            &&& r is Err <==> end.ambiguous
            &&& r matches Err(e) ==> e == ObjError::AmbiguousSymbol && final(obj)@ == (ObjView {
                symbols: end.symbols,
                sections: end.sections,
                ..old(obj)@
            })
            &&& r matches Ok(data) ==> data@ == (SizeView {
                raw_ends: end.raw_ends,
                tables: end.tables,
                code: code_sections(old(obj)@.sections, old(obj)@.sections.len()),
            }) && final(obj)@ == (ObjView {
                symbols: downgrade_all(end.symbols, end.spans),
                sections: end.sections,
                ..old(obj)@
            })
        }),
{
    let ghost first = obj@;
    assert(first.sections.len() == obj.sections.len());
    let snap = snapshot_code(&obj.sections);
    let datas = snapshot_data(&obj.sections);
    let ghost code = code_views(snap@);
    let ghost views = datas@.map_values(|v: Vec<u8>| v@);
    proof {
        lemma_code_sections(first.sections, first.sections.len());
    }
    let mut p = Progress {
        pending: collect_seeds(obj),
        spans: DecodedSpans::new(),
        raw_ends: AddrMap::new(),
        tables: Vec::new(),
    };
    assert(scan_of(obj@, p, false) == scan_start(first));
    let mut swept: bool = false;
    let mut done: bool = false;
    while !done
        invariant
            all_fit(code),
            code == code_views(snap@),
            code == code_sections(first.sections, first.sections.len()),
            views == datas@.map_values(|v: Vec<u8>| v@),
            views == data_sections(first.sections, first.sections.len()),
            first == old(obj)@,
            indexes_below(code, first.sections.len()),
            same_frame(first, obj@),
            spans_ok(p.spans@),
            ends_ok(p.raw_ends@),
            ascending(p.raw_ends@),
            explore(code, views, scan_of(obj@, p, false), swept) == scan_end(first),
            done ==> scan_of(obj@, p, false) == scan_end(first),
        decreases
                (if done { 0int } else { 1int }),
                (if swept { 0int } else { 1int }),
                0x1_0000_0000 - p.spans@.len(),
                p.pending@.len(),
    {
        let ghost st = scan_of(obj@, p, false);
        if p.pending.len() > 0 {
            proof {
                lemma_enter_progress(code, st);
                lemma_enter_ends(code, st);
            }
            match enter_function(obj, &snap, &mut p) {
                Ok(_) => {},
                Err(e) => {
                    assert(explore(code, views, enter(code, st), swept) == enter(code, st));
                    return Err(e);
                },
            }
        } else if !swept {
            sweep_all(&snap, &datas, &p.spans, &mut p.pending);
            swept = true;
        } else {
            done = true;
        }
    }
    downgrade_symbols(obj, &p.spans);
    Ok(X86FunctionSizeData { fn_raw_ends: p.raw_ends, fn_tables: p.tables, code_snap: snap })
}

/// Finds where a function at `va` has to end.
pub fn find_cap(symbols: &Vec<ObjSymbol>, code: &CodeSection, va: u32) -> (r: u32)
    requires
        code@.fits(),
        code@.holds(va),
    ensures
        r == size_cap(symbol_views(symbols@), code@, va),
        va < r <= code@.base + code@.data.len(),
{
    let ghost s = symbol_views(symbols@);
    let mut next: Option<u32> = None;
    let mut i: usize = 0;
    while i < symbols.len()
        invariant
            i <= symbols@.len(),
            s == symbol_views(symbols@),
            next == next_entry(s, code.index, va, i as nat),
        decreases symbols@.len() - i,
    {
        assert(s[i as int] == symbols@[i as int]@);
        if symbols[i].kind == ObjSymbolKind::Function {
            if let Some(sec) = symbols[i].section {
                let entry: u32 = low_word(symbols[i].address);
                let lower: bool = match next {
                    Some(b) => entry < b,
                    None => true,
                };
                if sec == code.index && entry > va && lower {
                    next = Some(entry);
                }
            }
        }
        i = i + 1;
    }
    proof {
        lemma_next_entry(s, code.index, va, s.len());
    }
    let end: u32 = (code.base + code.data.len() as u64) as u32;
    assert(end == code_end(code@));
    match next {
        Some(e) => if e < end {
            e
        } else {
            end
        },
        None => end,
    }
}

/// Whether an instruction pads the space between functions.
pub fn is_padding(insn: X86Insn) -> (r: bool)
    ensures
        r == padding(insn),
{
    insn.valid && (insn.nop || insn.code == X86Code::Int3)
}

/// Finds the address behind the NOP and INT3 instructions from `start` on.
fn find_pad_end(code: &CodeSection, start: u32, cap: u32) -> (r: u32)
    requires
        code@.fits(),
        code@.base <= start,
        cap <= code@.base + code@.data.len(),
    ensures
        r == pad_end(code@, start, cap),
{
    let mut at: u32 = start;
    while at < cap
        invariant
            code@.fits(),
            code@.base <= at,
            cap <= code@.base + code@.data.len(),
            pad_end(code@, at, cap) == pad_end(code@, start, cap),
        ensures
            at == pad_end(code@, start, cap),
        decreases (if at < cap { cap - at } else { 0 }),
    {
        let pad = insn_at(code, at);
        if !is_padding(pad) {
            break;
        }
        at = at + pad.len;
    }
    at
}

/// Finds the address behind the pointers into code from `start` on.
fn find_table_end(snap: &Vec<CodeSection>, code: &CodeSection, start: u32, cap: u32) -> (r: u32)
    requires
        code@.base <= start <= cap,
        cap <= code@.base + code@.data.len(),
    ensures
        r == table_end(code_views(snap@), code@, start, cap),
{
    let mut at: u32 = start;
    while at as u64 + 4 <= cap as u64
        invariant
            code@.base <= at <= cap,
            cap <= code@.base + code@.data.len(),
            table_end(code_views(snap@), code@, at, cap) == table_end(
                code_views(snap@),
                code@,
                start,
                cap,
            ),
        ensures
            at == table_end(code_views(snap@), code@, start, cap),
        decreases cap - at,
    {
        let off: usize = (at as u64 - code.base) as usize;
        let entry: u32 = word_le(code.data.as_slice(), off);
        if find_code(snap, entry).is_none() {
            break;
        }
        at = at + 4;
    }
    at
}

/// Finds where the function at `va` ends: `padded` is the address behind its last
/// instruction and the padding after it, and jump tables of its own before `cap`
/// belong to it.
pub fn end_behind_tables(
    snap: &Vec<CodeSection>,
    tables: &Vec<(u32, u32)>,
    code: &CodeSection,
    va: u32,
    raw_end: u32,
    cap: u32,
    padded: u32,
) -> (r: u32)
    requires
        code@.base <= raw_end,
        cap <= code@.base + code@.data.len(),
    ensures
        r == tables_end(code_views(snap@), tables@, code@, va, raw_end, cap, padded),
{
    let first: u32 = if cap < padded {
        cap
    } else {
        padded
    };
    let mut end: u32 = first;
    let mut i: usize = 0;
    while i < tables.len()
        invariant
            i <= tables@.len(),
            code@.base <= raw_end,
            cap <= code@.base + code@.data.len(),
            end == extend_end(
                code_views(snap@),
                tables@,
                code@,
                va,
                raw_end,
                cap,
                first,
                i as nat,
            ),
        decreases tables@.len() - i,
    {
        let (owner, table): (u32, u32) = tables[i];
        if owner == va && raw_end <= table && table < cap {
            let t: u32 = find_table_end(snap, code, table, cap);
            if t > end {
                end = t;
            }
        }
        i = i + 1;
    }
    if cap < end {
        cap
    } else {
        end
    }
}

/// Finds where the function at `va` ends.
fn find_function_end(
    symbols: &Vec<ObjSymbol>,
    data: &X86FunctionSizeData,
    k: usize,
    va: u32,
    raw_end: u32,
) -> (r: u32)
    requires
        k < data.code_snap@.len(),
        data.code_snap@[k as int]@.holds(va),
        data.code_snap@[k as int]@.fits(),
        va < raw_end,
    ensures
        r == function_end(
            symbol_views(symbols@),
            data@,
            data.code_snap@[k as int]@,
            va,
            raw_end,
        ),
{
    let code = &data.code_snap[k];
    let cap: u32 = find_cap(symbols, code, va);
    let start: u32 = if cap < raw_end {
        cap
    } else {
        raw_end
    };
    let padded: u32 = find_pad_end(code, start, cap);
    end_behind_tables(&data.code_snap, &data.fn_tables, code, va, raw_end, cap, padded)
}

/// Computes and sets `size` and `size_known` on the x86 function symbols whose
/// size is not known.
///
/// Must be called after all symbol-discovery passes have completed, so that
/// size caps account for every function entry point. Takes the
/// [`X86FunctionSizeData`] returned by [`analyze_x86_functions`].
pub fn compute_x86_function_sizes(obj: &mut ObjInfo, data: X86FunctionSizeData) -> (r: Result<
    (),
    ObjError,
>)
    ensures
        match size_updates(old(obj)@.symbols, data@, data@.raw_ends.len()) {
            Err(e) => r == Err::<(), _>(e) && final(obj)@ == old(obj)@,
            Ok(updates) => r is Ok && final(obj)@ == (ObjView {
                symbols: with_sizes(old(obj)@.symbols, updates, updates.len()),
                ..old(obj)@
            }),
        },
{
    proof {
        use_type_invariant(&data);
    }
    let ghost s = obj@.symbols;
    assert(s.len() == obj.symbols.len());
    let ghost d = data@;
    let mut updates: Vec<(usize, u64)> = Vec::new();
    let mut n: usize = 0;
    while n < data.fn_raw_ends.len()
        invariant
            s == obj@.symbols,
            s.len() <= usize::MAX,
            *obj == *old(obj),
            d == data@,
            ends_ok(d.raw_ends),
            all_fit(d.code),
            n <= d.raw_ends.len(),
            size_updates(s, d, n as nat) == Ok::<_, ObjError>(updates@),
        decreases d.raw_ends.len() - n,
    {
        let e = data.fn_raw_ends.entry(n);
        let (va, raw_end): (u32, u32) = (e.0, e.1);
        assert(d.raw_ends[n as int] == (va, raw_end));
        if let Some(k) = find_code(&data.code_snap, va) {
            assert(d.code[k as int] == data.code_snap@[k as int]@);
            assert(d.code[k as int].fits());
            let end: u32 = find_function_end(&obj.symbols, &data, k, va, raw_end);
            proof {
                lemma_function_end(s, d, d.code[k as int], va, raw_end);
            }
            let size: u64 = (end - va) as u64;
            match obj.kind_at_section_address(
                data.code_snap[k].index,
                va,
                ObjSymbolKind::Function,
            ) {
                Err(e) => {
                    proof {
                        lemma_updates_stop(s, d, (n + 1) as nat, d.raw_ends.len());
                    }
                    return Err(e);
                },
                Ok(Some(i)) => {
                    assert(obj@.symbols[i as int] == obj.symbols@[i as int]@);
                    if !obj.symbols[i].size_known {
                        updates.push((i, size));
                    }
                },
                Ok(None) => {},
            }
        }
        n = n + 1;
    }
    proof {
        lemma_size_updates(s, d, d.raw_ends.len());
    }
    let mut i: usize = 0;
    while i < updates.len()
        invariant
            i <= updates@.len(),
            obj@ == (ObjView { symbols: with_sizes(s, updates@, i as nat), ..old(obj)@ }),
            s == old(obj)@.symbols,
            forall|k: int| 0 <= k < updates@.len() ==> size_ok(s, d, #[trigger] updates@[k]),
            obj@.symbols.len() == s.len(),
        decreases updates@.len() - i,
    {
        let (index, size): (usize, u64) = updates[i];
        assert(size_ok(s, d, updates@[i as int]));
        let ghost before = obj@.symbols;
        assert(before[index as int] == obj.symbols@[index as int]@);
        let symbol = &mut obj.symbols[index];
        symbol.size = size;
        symbol.size_known = true;
        assert(obj@.symbols =~= before.update(
            index as int,
            SymbolView { size, size_known: true, ..before[index as int] },
        ));
        i = i + 1;
    }
    Ok(())
}

} // verus!
