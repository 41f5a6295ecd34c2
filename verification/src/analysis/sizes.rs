//! How long the functions are that disassembly found.
use vstd::prelude::*;

use crate::analysis::insn::{CodeView, X86Code, X86Insn, all_fit, code_at, lemma_code_at};
use crate::analysis::scan::ends_ok;
use crate::analysis::x86::SizeView;
use crate::bytes::{le_u32, low32};
use crate::obj::{
    ObjError, ObjSymbolKind, SectionIndex, SymbolIndex, SymbolView, kind_at, kind_indexes_at,
    lemma_kind_indexes,
};

verus! {

/// The lowest function entry above `va` in section `sec`, among the first `n`
/// symbols.
pub open spec fn next_entry(s: Seq<SymbolView>, sec: SectionIndex, va: u32, n: nat) -> Option<u32>
    decreases n,
{
    if n == 0 {
        None
    } else {
        let below = next_entry(s, sec, va, (n - 1) as nat);
        let last = s[n - 1];
        let entry = low32(last.address);
        if last.kind == ObjSymbolKind::Function && last.section == Some(sec) && entry > va && (
        below matches Some(b) ==> entry < b) {
            Some(entry)
        } else {
            below
        }
    }
}

/// The address behind a code section.
pub open spec fn code_end(code: CodeView) -> u32 {
    (code.base + code.data.len()) as u32
}

/// Where a function at `va` has to end: at the next entry or with its section.
pub open spec fn size_cap(s: Seq<SymbolView>, code: CodeView, va: u32) -> u32 {
    match next_entry(s, code.index, va, s.len()) {
        Some(e) if e < code_end(code) => e,
        _ => code_end(code),
    }
}

/// Whether an instruction pads the space between functions: NOP and INT3 do.
pub open spec fn padding(insn: X86Insn) -> bool {
    insn.valid && (insn.nop || insn.code == X86Code::Int3)
}

/// The address behind the padding from `at` on; none is taken that starts at or
/// behind `cap`.
pub open spec fn pad_end(code: CodeView, at: u32, cap: u32) -> u32
    decreases (if at < cap { cap - at } else { 0 }),
    when code.fits()
{
    if at < cap && code.decodes(at) && padding(code.insn(at)) {
        pad_end(code, (at + code.insn(at).len) as u32, cap)
    } else {
        at
    }
}

/// The address behind the pointers into code from `at` on, all before `cap`.
pub open spec fn table_end(all: Seq<CodeView>, code: CodeView, at: u32, cap: u32) -> u32
    decreases cap - at,
{
    if at + 4 <= cap && code_at(all, le_u32(code.data, at - code.base)) is Some {
        table_end(all, code, (at + 4) as u32, cap)
    } else {
        at
    }
}

/// The lower of two addresses.
pub open spec fn min_va(a: u32, b: u32) -> u32 {
    if b < a {
        b
    } else {
        a
    }
}

/// `end`, moved behind the first `n` jump tables as far as they belong to the
/// function at `va`.
pub open spec fn extend_end(
    all: Seq<CodeView>,
    tables: Seq<(u32, u32)>,
    code: CodeView,
    va: u32,
    raw_end: u32,
    cap: u32,
    end: u32,
    n: nat,
) -> u32
    decreases n,
{
    if n == 0 {
        end
    } else {
        let below = extend_end(all, tables, code, va, raw_end, cap, end, (n - 1) as nat);
        let (owner, table) = tables[n - 1];
        if owner == va && raw_end <= table < cap {
            let t = table_end(all, code, table, cap);
            if t > below {
                t
            } else {
                below
            }
        } else {
            below
        }
    }
}

/// Where the function at `va` ends that is `padded` so far: behind its jump tables,
/// but not behind `cap`.
pub open spec fn tables_end(
    all: Seq<CodeView>,
    tables: Seq<(u32, u32)>,
    code: CodeView,
    va: u32,
    raw_end: u32,
    cap: u32,
    padded: u32,
) -> u32 {
    min_va(
        extend_end(all, tables, code, va, raw_end, cap, min_va(padded, cap), tables.len()),
        cap,
    )
}

/// Where the function at `va` ends: behind its last instruction, the padding
/// after it and its jump tables.
pub open spec fn function_end(
    s: Seq<SymbolView>,
    d: SizeView,
    code: CodeView,
    va: u32,
    raw_end: u32,
) -> u32 {
    let cap = size_cap(s, code, va);
    let padded = pad_end(code, min_va(raw_end, cap), cap);
    tables_end(d.code, d.tables, code, va, raw_end, cap, padded)
}

/// The sizes for the symbols of the first `n` functions, or an error where a
/// function's symbol is not unique.
pub open spec fn size_updates(s: Seq<SymbolView>, d: SizeView, n: nat) -> Result<
    Seq<(SymbolIndex, u64)>,
    ObjError,
>
    decreases n,
{
    if n == 0 {
        Ok(Seq::empty())
    } else {
        match size_updates(s, d, (n - 1) as nat) {
            Err(e) => Err(e),
            Ok(below) => {
                let (va, raw_end) = d.raw_ends[n - 1];
                match code_at(d.code, va) {
                    None => Ok(below),
                    Some(k) => {
                        let size = (function_end(s, d, d.code[k], va, raw_end) - va) as u64;
                        if size == 0 {
                            Ok(below)
                        } else {
                            match kind_at(s, d.code[k].index, va, ObjSymbolKind::Function) {
                                Err(e) => Err(e),
                                Ok(Some(i)) if !s[i as int].size_known => Ok(below.push((i, size))),
                                Ok(_) => Ok(below),
                            }
                        }
                    },
                }
            },
        }
    }
}

/// The symbols after the first `n` updates.
pub open spec fn with_sizes(
    s: Seq<SymbolView>,
    updates: Seq<(SymbolIndex, u64)>,
    n: nat,
) -> Seq<SymbolView>
    decreases n,
{
    if n == 0 {
        s
    } else {
        let below = with_sizes(s, updates, (n - 1) as nat);
        let (i, size) = updates[n - 1];
        below.update(i as int, SymbolView { size, size_known: true, ..below[i as int] })
    }
}

/// Padding ends at or behind where it starts.
pub proof fn lemma_pad_end(code: CodeView, at: u32, cap: u32)
    requires
        code.fits(),
    ensures
        pad_end(code, at, cap) >= at,
    decreases (if at < cap { cap - at } else { 0 }),
{
    if at < cap && code.decodes(at) && padding(code.insn(at)) {
        lemma_pad_end(code, (at + code.insn(at).len) as u32, cap);
    }
}

/// A jump table ends at or behind where it starts, and before the cap if it
/// starts there.
pub proof fn lemma_table_end(all: Seq<CodeView>, code: CodeView, at: u32, cap: u32)
    ensures
        table_end(all, code, at, cap) >= at,
        at <= cap ==> table_end(all, code, at, cap) <= cap,
    decreases cap - at,
{
    if at + 4 <= cap && code_at(all, le_u32(code.data, at - code.base)) is Some {
        lemma_table_end(all, code, (at + 4) as u32, cap);
    }
}

/// What [`next_entry`] finds: the lowest entry above.
pub proof fn lemma_next_entry(s: Seq<SymbolView>, sec: SectionIndex, va: u32, n: nat)
    requires
        n <= s.len(),
    ensures
        next_entry(s, sec, va, n) matches Some(e) ==> e > va,
        forall|i: int|
            0 <= i < n && #[trigger] s[i].kind == ObjSymbolKind::Function && s[i].section == Some(sec)
                && low32(s[i].address) > va ==> (next_entry(s, sec, va, n) matches Some(e) && e
                <= low32(s[i].address)),
    decreases n,
{
    if n > 0 {
        lemma_next_entry(s, sec, va, (n - 1) as nat);
    }
}

/// Moving an end behind jump tables never moves it back.
pub proof fn lemma_extend_end(
    all: Seq<CodeView>,
    tables: Seq<(u32, u32)>,
    code: CodeView,
    va: u32,
    raw_end: u32,
    cap: u32,
    end: u32,
    n: nat,
)
    ensures
        extend_end(all, tables, code, va, raw_end, cap, end, n) >= end,
    decreases n,
{
    if n > 0 {
        lemma_extend_end(all, tables, code, va, raw_end, cap, end, (n - 1) as nat);
    }
}

/// A function ends behind its entry, at or before the end of its section, and
/// at or before every function entry that follows in the section.
pub proof fn lemma_function_end(
    s: Seq<SymbolView>,
    d: SizeView,
    code: CodeView,
    va: u32,
    raw_end: u32,
)
    requires
        code.fits(),
        code.holds(va),
        va < raw_end,
    ensures
        va < function_end(s, d, code, va, raw_end) <= code.base + code.data.len(),
        forall|i: int|
            0 <= i < s.len() && #[trigger] s[i].kind == ObjSymbolKind::Function && s[i].section
                == Some(code.index) && low32(s[i].address) > va ==> function_end(
                s,
                d,
                code,
                va,
                raw_end,
            ) <= low32(s[i].address),
{
    let cap = size_cap(s, code, va);
    lemma_next_entry(s, code.index, va, s.len());
    lemma_pad_end(code, min_va(raw_end, cap), cap);
    let padded = min_va(pad_end(code, min_va(raw_end, cap), cap), cap);
    lemma_extend_end(d.code, d.tables, code, va, raw_end, cap, padded, d.tables.len());
}

/// Where the sizes come from: each is positive, belongs to a function symbol
/// without a known size, and reaches neither behind its section nor behind the
/// next function.
pub open spec fn size_ok(s: Seq<SymbolView>, d: SizeView, update: (SymbolIndex, u64)) -> bool {
    let i = update.0 as int;
    &&& 0 <= i < s.len()
    &&& s[i].kind == ObjSymbolKind::Function
    &&& !s[i].size_known
    &&& update.1 > 0
    &&& exists|k: int|
        {
            &&& 0 <= k < d.code.len()
            &&& s[i].section == Some((#[trigger] d.code[k]).index)
            &&& low32(s[i].address) + update.1 <= d.code[k].base + d.code[k].data.len()
        }
    &&& forall|j: int|
        0 <= j < s.len() && #[trigger] s[j].kind == ObjSymbolKind::Function && s[j].section
            == s[i].section && low32(s[j].address) > low32(s[i].address) ==> low32(s[i].address)
            + update.1 <= low32(s[j].address)
}

/// Every size that is set is positive and ends in the function's section, at
/// or before the next function entry.
pub proof fn lemma_size_updates(s: Seq<SymbolView>, d: SizeView, n: nat)
    requires
        n <= d.raw_ends.len(),
        ends_ok(d.raw_ends),
        all_fit(d.code),
        s.len() <= usize::MAX,
    ensures
        size_updates(s, d, n) matches Ok(u) ==> forall|k: int|
            0 <= k < u.len() ==> size_ok(s, d, #[trigger] u[k]),
    decreases n,
{
    if n > 0 {
        lemma_size_updates(s, d, (n - 1) as nat);
        let (va, raw_end) = d.raw_ends[n - 1];
        lemma_code_at(d.code, va);
        match code_at(d.code, va) {
            Some(k) if size_updates(s, d, (n - 1) as nat) is Ok => {
                let code = d.code[k];
                assert(code.fits());
                lemma_function_end(s, d, code, va, raw_end);
                lemma_kind_indexes(s, code.index, va, ObjSymbolKind::Function, s.len());
                let below = size_updates(s, d, (n - 1) as nat)->Ok_0;
                let size = (function_end(s, d, code, va, raw_end) - va) as u64;
                match kind_at(s, code.index, va, ObjSymbolKind::Function) {
                    Ok(Some(i)) if !s[i as int].size_known => {
                        let found = kind_indexes_at(
                            s,
                            code.index,
                            va,
                            ObjSymbolKind::Function,
                            s.len(),
                        );
                        assert(found[0] == i);
                        assert(s[i as int].section == Some(d.code[k].index));
                        assert(size_ok(s, d, (i, size)));
                        assert(size_updates(s, d, n) == Ok::<_, ObjError>(below.push((i, size))));
                    },
                    _ => {},
                }
            },
            _ => {},
        }
    }
}

/// An ambiguous function symbol ends the computation.
pub proof fn lemma_updates_stop(s: Seq<SymbolView>, d: SizeView, n: nat, all: nat)
    requires
        n <= all,
        size_updates(s, d, n) is Err,
    ensures
        size_updates(s, d, all) == size_updates(s, d, n),
    decreases all,
{
    if n < all {
        lemma_updates_stop(s, d, n, (all - 1) as nat);
    }
}

/// Setting sizes changes no other field of any symbol, and only symbols without
/// a known size.
pub proof fn lemma_with_sizes(
    s: Seq<SymbolView>,
    d: SizeView,
    updates: Seq<(SymbolIndex, u64)>,
    n: nat,
)
    requires
        n <= updates.len(),
        forall|k: int| 0 <= k < updates.len() ==> size_ok(s, d, #[trigger] updates[k]),
    ensures
        with_sizes(s, updates, n).len() == s.len(),
        forall|i: int|
            0 <= i < s.len() ==> {
                let new = #[trigger] with_sizes(s, updates, n)[i];
                new == s[i] || !s[i].size_known && s[i].kind == ObjSymbolKind::Function && new.size
                    > 0 && new == (SymbolView { size: new.size, size_known: true, ..s[i] })
            },
    decreases n,
{
    if n > 0 {
        lemma_with_sizes(s, d, updates, (n - 1) as nat);
        let below = with_sizes(s, updates, (n - 1) as nat);
        let (i, size) = updates[n - 1];
        assert(size_ok(s, d, updates[n - 1]));
        let next = with_sizes(s, updates, n);
        assert(next == below.update(
            i as int,
            SymbolView { size, size_known: true, ..below[i as int] },
        ));
        assert forall|j: int| 0 <= j < s.len() implies {
            let new = #[trigger] next[j];
            new == s[j] || !s[j].size_known && s[j].kind == ObjSymbolKind::Function && new.size > 0
                && new == (SymbolView { size: new.size, size_known: true, ..s[j] })
        } by {
            assert(j != i ==> next[j] == below[j]);
        }
    }
}

} // verus!
