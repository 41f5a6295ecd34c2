//! What the sizes of functions are.
use vstd::prelude::*;

use crate::addr_map::ascending;
use crate::analysis::insn::{CodeView, X86Code, X86Insn, all_fit, code_at, lemma_code_at, x86_decode};
use crate::analysis::scan::ends_ok;
use crate::analysis::sizes::{
    code_end, extend_end, function_end, lemma_function_end, lemma_next_entry, lemma_pad_end,
    lemma_table_end, lemma_updates_stop, min_va, next_entry, pad_end, padding, size_cap,
    size_updates, table_end, with_sizes,
};
use crate::analysis::x86::SizeView;
use crate::bytes::{le_u32, lemma_words, low32, number_le};
use crate::obj::{
    ObjError, ObjSymbolKind, SectionIndex, SymbolIndex, SymbolView, kind_at, kind_indexes_at,
    lemma_kind_indexes,
};

verus! {

/// Whether `va` is the address of a byte of the code.
pub open spec fn is_inside(code: CodeView, va: int) -> bool {
    code.base <= va < code.base + code.data.len()
}

/// The instruction at `va`.
pub open spec fn instruction(code: CodeView, va: int) -> X86Insn {
    x86_decode(code.data.subrange(va - code.base, code.data.len() as int), va as u32)
}

/// Whether a valid instruction stands at `va` and ends in the code.
pub open spec fn has_instruction(code: CodeView, va: int) -> bool {
    let i = instruction(code, va);
    is_inside(code, va) && i.valid && 1 <= i.len <= 15 && va + i.len <= code.base + code.data.len()
}

/// Whether the instruction at `va` is padding between functions: a NOP or an INT3.
pub open spec fn is_pad(code: CodeView, va: int) -> bool {
    has_instruction(code, va) && (instruction(code, va).nop || instruction(code, va).code
        == X86Code::Int3)
}

/// Whether padding instructions before `cap` stand at all of the addresses but the last
/// one, each right behind the one before.
pub open spec fn is_padding(code: CodeView, path: Seq<u32>, cap: int) -> bool {
    &&& path.len() > 0
    &&& forall|j: int|
        0 <= j < path.len() - 1 ==> {
            &&& is_pad(code, #[trigger] path[j] as int)
            &&& path[j] < cap
            &&& path[j + 1] == path[j] + instruction(code, path[j] as int).len
        }
}

proof fn lemma_instruction(code: CodeView, va: u32)
    ensures
        code.insn(va) == instruction(code, va as int),
        code.decodes(va) == has_instruction(code, va as int),
        code.decodes(va) && padding(code.insn(va)) <==> is_pad(code, va as int),
{
}

/// The padding from an address on goes as far as instructions that pad follow each
/// other: every instruction of it is a NOP or an INT3, and where it ends before the cap
/// none of these stands.
pub proof fn lemma_padding(code: CodeView, at: u32, cap: u32) -> (path: Seq<u32>)
    requires
        code.fits(),
    ensures
        is_padding(code, path, cap as int),
        path[0] == at,
        path.last() == pad_end(code, at, cap),
        pad_end(code, at, cap) < cap ==> !is_pad(code, pad_end(code, at, cap) as int),
    decreases (if at < cap { cap - at } else { 0 }),
{
    lemma_instruction(code, at);
    if at < cap && code.decodes(at) && padding(code.insn(at)) {
        let next = (at + code.insn(at).len) as u32;
        let rest = lemma_padding(code, next, cap);
        let path = seq![at] + rest;
        assert(path.last() == rest.last());
        assert forall|j: int| 0 <= j < path.len() - 1 implies {
            &&& is_pad(code, #[trigger] path[j] as int)
            &&& path[j] < cap
            &&& path[j + 1] == path[j] + instruction(code, path[j] as int).len
        } by {
            if j > 0 {
                assert(path[j] == rest[j - 1]);
                assert(path[j + 1] == rest[j]);
            } else {
                assert(path[1] == rest[0]);
            }
        }
        path
    } else {
        seq![at]
    }
}

/// No padding goes on behind [`pad_end`].
proof fn lemma_padding_max(code: CodeView, path: Seq<u32>, cap: u32)
    requires
        code.fits(),
        is_padding(code, path, cap as int),
    ensures
        path.last() <= pad_end(code, path[0], cap),
    decreases path.len(),
{
    lemma_instruction(code, path[0]);
    lemma_pad_end(code, path[0], cap);
    if path.len() > 1 {
        let rest = path.skip(1);
        assert(is_pad(code, path[0] as int));
        assert forall|j: int| 0 <= j < rest.len() - 1 implies {
            &&& is_pad(code, #[trigger] rest[j] as int)
            &&& rest[j] < cap
            &&& rest[j + 1] == rest[j] + instruction(code, rest[j] as int).len
        } by {
            assert(rest[j] == path[j + 1]);
            assert(rest[j + 1] == path[j + 2]);
        }
        lemma_padding_max(code, rest, cap);
        assert(rest.last() == path.last());
        assert(rest[0] == path[1]);
    }
}

/// Whether `va` lies in one of the code sections.
pub open spec fn is_code(all: Seq<CodeView>, va: int) -> bool {
    exists|k: int| 0 <= k < all.len() && is_inside(#[trigger] all[k], va)
}

/// Word `q` of the table at `t`.
pub open spec fn table_word(code: CodeView, t: int, q: int) -> int {
    number_le(code.data, t - code.base + 4 * q, 4)
}

/// Whether the first `m` words at `t` are pointers into code.
pub open spec fn is_table(all: Seq<CodeView>, code: CodeView, t: int, m: int) -> bool {
    forall|q: int| 0 <= q < m ==> is_code(all, #[trigger] table_word(code, t, q))
}

proof fn lemma_is_code(all: Seq<CodeView>, va: u32)
    ensures
        code_at(all, va) is Some <==> is_code(all, va as int),
{
    lemma_code_at(all, va);
    if let Some(k) = code_at(all, va) {
        assert(is_inside(all[k], va as int));
    }
    if is_code(all, va as int) {
        let k = choose|k: int| 0 <= k < all.len() && is_inside(#[trigger] all[k], va as int);
        assert(all[k].holds(va));
    }
}

/// How long a jump table is.
proof fn lemma_table(all: Seq<CodeView>, code: CodeView, t: u32, cap: u32) -> (m: int)
    requires
        t <= cap,
    ensures
        m >= 0,
        table_end(all, code, t, cap) == t + 4 * m,
        is_table(all, code, t as int, m),
        t + 4 * m <= cap,
        t + 4 * m + 4 <= cap ==> !is_code(all, table_word(code, t as int, m)),
    decreases cap - t,
{
    let w = le_u32(code.data, t - code.base);
    lemma_words(code.data, t - code.base);
    lemma_is_code(all, w);
    assert(table_word(code, t as int, 0) == w);
    if t + 4 <= cap && code_at(all, w) is Some {
        let rest = lemma_table(all, code, (t + 4) as u32, cap);
        assert forall|q: int| 0 <= q < rest + 1 implies is_code(
            all,
            #[trigger] table_word(code, t as int, q),
        ) by {
            if q > 0 {
                assert(table_word(code, t as int, q) == table_word(code, t + 4, q - 1));
            }
        }
        assert(table_word(code, t as int, rest + 1) == table_word(code, t + 4, rest));
        rest + 1
    } else {
        0
    }
}

/// No pointers into code follow behind the end of a table.
proof fn lemma_table_max(all: Seq<CodeView>, code: CodeView, t: u32, cap: u32, m: int)
    requires
        t <= cap,
        m >= 0,
        t + 4 * m <= cap,
        is_table(all, code, t as int, m),
    ensures
        t + 4 * m <= table_end(all, code, t, cap),
{
    let n = lemma_table(all, code, t, cap);
    if n < m {
        assert(is_code(all, table_word(code, t as int, n)));
    }
}

/// Whether a function symbol of the section stands at `va`.
pub open spec fn is_function_at(x: SymbolView, sec: SectionIndex, va: int) -> bool {
    x.kind == ObjSymbolKind::Function && x.section == Some(sec) && x.address as int
        % 0x1_0000_0000 == va
}

/// Whether `cap` is where a function at `va` has to end: at the lowest function entry
/// behind it in its section, or with the section.
pub open spec fn is_cap(s: Seq<SymbolView>, code: CodeView, va: int, cap: int) -> bool {
    &&& va < cap <= code.base + code.data.len()
    &&& forall|i: int, e: int|
        0 <= i < s.len() && #[trigger] is_function_at(s[i], code.index, e) && e > va ==> cap <= e
    &&& cap == code.base + code.data.len() || exists|i: int|
        0 <= i < s.len() && is_function_at(#[trigger] s[i], code.index, cap)
}

/// Where the next entry that is found comes from.
proof fn lemma_next_from(s: Seq<SymbolView>, sec: SectionIndex, va: u32, n: nat)
    requires
        n <= s.len(),
    ensures
        next_entry(s, sec, va, n) matches Some(e) ==> exists|i: int|
            0 <= i < s.len() && is_function_at(#[trigger] s[i], sec, e as int),
    decreases n,
{
    if n > 0 {
        lemma_next_from(s, sec, va, (n - 1) as nat);
        let last = s[n - 1];
        assert(is_function_at(last, sec, low32(last.address) as int) <==> last.kind
            == ObjSymbolKind::Function && last.section == Some(sec));
    }
}

/// The cap that is computed is the one.
proof fn lemma_cap(s: Seq<SymbolView>, code: CodeView, va: u32, cap: int)
    requires
        code.fits(),
        code.holds(va),
    ensures
        is_cap(s, code, va as int, size_cap(s, code, va) as int),
        is_cap(s, code, va as int, cap) ==> cap == size_cap(s, code, va),
{
    lemma_next_entry(s, code.index, va, s.len());
    lemma_next_from(s, code.index, va, s.len());
    let own = size_cap(s, code, va) as int;
    assert(code_end(code) == code.base + code.data.len());
    assert forall|i: int, e: int|
        0 <= i < s.len() && #[trigger] is_function_at(s[i], code.index, e) && e > va implies own
        <= e by {
        assert(low32(s[i].address) == e);
    }
    if is_cap(s, code, va as int, cap) {
        if cap != code.base + code.data.len() {
            let i = choose|i: int|
                0 <= i < s.len() && is_function_at(#[trigger] s[i], code.index, cap);
            assert(own <= cap);
        }
        if own != code.base + code.data.len() {
            let i = choose|i: int|
                0 <= i < s.len() && is_function_at(#[trigger] s[i], code.index, own);
            assert(cap <= own);
        }
    }
}

/// Whether the table `j` belongs to the function at `va` behind its last instruction.
pub open spec fn owns_table(d: SizeView, va: int, raw_end: int, cap: int, j: int) -> bool {
    0 <= j < d.tables.len() && d.tables[j].0 == va && raw_end <= d.tables[j].1 < cap
}

/// An end is moved behind each table, and to no other place.
proof fn lemma_extended(
    d: SizeView,
    code: CodeView,
    va: u32,
    raw_end: u32,
    cap: u32,
    end: u32,
    n: nat,
)
    requires
        n <= d.tables.len(),
        end <= cap,
    ensures
        ({
            let e = extend_end(d.code, d.tables, code, va, raw_end, cap, end, n);
            &&& end <= e <= cap
            &&& forall|j: int|
                j < n && #[trigger] owns_table(d, va as int, raw_end as int, cap as int, j)
                    ==> table_end(d.code, code, d.tables[j].1, cap) <= e
            &&& e == end || exists|j: int|
                j < n && #[trigger] owns_table(d, va as int, raw_end as int, cap as int, j)
                    && table_end(d.code, code, d.tables[j].1, cap) == e
        }),
    decreases n,
{
    if n > 0 {
        lemma_extended(d, code, va, raw_end, cap, end, (n - 1) as nat);
        let (owner, t) = d.tables[n - 1];
        assert(owns_table(d, va as int, raw_end as int, cap as int, n - 1) <==> owner == va
            && raw_end <= t < cap);
        if raw_end <= t < cap {
            lemma_table_end(d.code, code, t, cap);
        }
    }
}

/// Whether the function at `va` may end at `e`: behind its last instruction, behind the
/// padding there, or behind one of its jump tables, and not behind the cap.
pub open spec fn may_end(
    d: SizeView,
    code: CodeView,
    va: int,
    raw_end: int,
    cap: int,
    e: int,
) -> bool {
    let start = if raw_end < cap {
        raw_end
    } else {
        cap
    };
    ||| e == start
    ||| exists|path: Seq<u32>| #[trigger]
        is_padding(code, path, cap) && path[0] == start && e == (if path.last() < cap {
            path.last() as int
        } else {
            cap
        })
    ||| exists|j: int, m: int|
        {
            &&& owns_table(d, va, raw_end, cap, j)
            &&& m >= 0
            &&& d.tables[j].1 + 4 * m <= cap
            &&& #[trigger] is_table(d.code, code, d.tables[j].1 as int, m)
            &&& e == d.tables[j].1 + 4 * m
        }
}

/// A function ends at the last address at which it may: behind its last instruction,
/// all the padding there and all of its jump tables, as far as the cap allows.
pub proof fn lemma_end_is_last(
    s: Seq<SymbolView>,
    d: SizeView,
    code: CodeView,
    va: u32,
    raw_end: u32,
    cap: int,
)
    requires
        code.fits(),
        code.holds(va),
        va < raw_end,
        is_cap(s, code, va as int, cap),
    ensures
        may_end(
            d,
            code,
            va as int,
            raw_end as int,
            cap,
            function_end(s, d, code, va, raw_end) as int,
        ),
        forall|e: int| #[trigger]
            may_end(d, code, va as int, raw_end as int, cap, e) ==> e <= function_end(
                s,
                d,
                code,
                va,
                raw_end,
            ),
{
    lemma_cap(s, code, va, cap);
    let cap32 = size_cap(s, code, va);
    let start = min_va(raw_end, cap32);
    let padded = pad_end(code, start, cap32);
    let cut = min_va(padded, cap32);
    let end = function_end(s, d, code, va, raw_end);
    lemma_pad_end(code, start, cap32);
    lemma_extended(d, code, va, raw_end, cap32, cut, d.tables.len());
    let path = lemma_padding(code, start, cap32);
    assert(is_padding(code, path, cap));
    if end != cut {
        let j = choose|j: int|
            j < d.tables.len() && #[trigger] owns_table(d, va as int, raw_end as int, cap, j)
                && table_end(d.code, code, d.tables[j].1, cap32) == end;
        let m = lemma_table(d.code, code, d.tables[j].1, cap32);
        assert(is_table(d.code, code, d.tables[j].1 as int, m));
    }
    assert forall|e: int| #[trigger]
        may_end(d, code, va as int, raw_end as int, cap, e) implies e <= end by {
        if e != start {
            if exists|path: Seq<u32>| #[trigger]
                is_padding(code, path, cap) && path[0] == start && e == (if path.last() < cap {
                    path.last() as int
                } else {
                    cap
                }) {
                let p = choose|path: Seq<u32>| #[trigger]
                    is_padding(code, path, cap) && path[0] == start && e == (if path.last() < cap {
                        path.last() as int
                    } else {
                        cap
                    });
                lemma_padding_max(code, p, cap32);
            } else {
                let (j, m) = choose|j: int, m: int|
                    {
                        &&& owns_table(d, va as int, raw_end as int, cap, j)
                        &&& m >= 0
                        &&& d.tables[j].1 + 4 * m <= cap
                        &&& #[trigger] is_table(d.code, code, d.tables[j].1 as int, m)
                        &&& e == d.tables[j].1 + 4 * m
                    };
                lemma_table_max(d.code, code, d.tables[j].1, cap32, m);
            }
        }
    }
}

/// Whether section `k` is the first one that holds the code at `va`.
pub open spec fn first_code(all: Seq<CodeView>, k: int, va: int) -> bool {
    &&& 0 <= k < all.len()
    &&& is_inside(all[k], va)
    &&& forall|j: int| 0 <= j < k ==> !is_inside(#[trigger] all[j], va)
}

proof fn lemma_first_code(all: Seq<CodeView>, k: int, va: u32)
    ensures
        first_code(all, k, va as int) <==> code_at(all, va) == Some(k),
{
    lemma_code_at(all, va);
    if first_code(all, k, va as int) {
        assert(all[k].holds(va));
        if let Some(j) = code_at(all, va) {
            if j < k {
                assert(!is_inside(all[j], va as int));
            }
        }
    }
    if code_at(all, va) == Some(k) {
        assert forall|j: int| 0 <= j < k implies !is_inside(#[trigger] all[j], va as int) by {
            assert(!all[j].holds(va));
        }
    }
}

pub(crate) proof fn lemma_indexes_ascend(
    s: Seq<SymbolView>,
    sec: SectionIndex,
    va: u32,
    kind: ObjSymbolKind,
    n: nat,
)
    ensures
        forall|a: int, b: int|
            0 <= a < b < kind_indexes_at(s, sec, va, kind, n).len() ==> #[trigger] kind_indexes_at(
                s,
                sec,
                va,
                kind,
                n,
            )[a] < #[trigger] kind_indexes_at(s, sec, va, kind, n)[b],
        forall|a: int|
            0 <= a < kind_indexes_at(s, sec, va, kind, n).len() ==> #[trigger] kind_indexes_at(
                s,
                sec,
                va,
                kind,
                n,
            )[a] < n,
    decreases n,
{
    if n > 0 {
        lemma_indexes_ascend(s, sec, va, kind, (n - 1) as nat);
        let below = kind_indexes_at(s, sec, va, kind, (n - 1) as nat);
        let all = kind_indexes_at(s, sec, va, kind, n);
        assert forall|a: int| 0 <= a < all.len() implies #[trigger] all[a] < n by {
            if a < below.len() {
                assert(all[a] == below[a]);
            }
        }
        assert forall|a: int, b: int| 0 <= a < b < all.len() implies #[trigger] all[a]
            < #[trigger] all[b] by {
            assert(all[a] == below[a]);
            if b < below.len() {
                assert(all[b] == below[b]);
            }
        }
    }
}

/// Whether symbol `i` is the only function symbol of the section at `va`.
pub open spec fn only_function_at(
    s: Seq<SymbolView>,
    i: int,
    sec: SectionIndex,
    va: int,
) -> bool {
    &&& 0 <= i < s.len()
    &&& is_function_at(s[i], sec, va)
    &&& forall|j: int| 0 <= j < s.len() && j != i ==> !is_function_at(#[trigger] s[j], sec, va)
}

/// Which function symbol is found at an address, if there is one alone.
pub proof fn lemma_function_found(s: Seq<SymbolView>, sec: SectionIndex, va: u32)
    requires
        s.len() <= usize::MAX,
    ensures
        match kind_at(s, sec, va, ObjSymbolKind::Function) {
            Ok(Some(i)) => only_function_at(s, i as int, sec, va as int),
            Ok(None) => forall|j: int|
                0 <= j < s.len() ==> !is_function_at(#[trigger] s[j], sec, va as int),
            Err(_) => exists|i: int, j: int|
                {
                    &&& 0 <= i < j < s.len()
                    &&& is_function_at(#[trigger] s[i], sec, va as int)
                    &&& is_function_at(#[trigger] s[j], sec, va as int)
                },
        },
{
    let kind = ObjSymbolKind::Function;
    let found = kind_indexes_at(s, sec, va, kind, s.len());
    lemma_kind_indexes(s, sec, va, kind, s.len());
    lemma_indexes_ascend(s, sec, va, kind, s.len());
    assert forall|j: int|
        0 <= j < s.len() && is_function_at(#[trigger] s[j], sec, va as int) implies found.contains(
        j,
    ) by {
        assert(s[j].at(sec, va) && s[j].kind == kind);
    }
    if found.len() > 0 {
        assert(is_function_at(s[found[0]], sec, va as int));
    }
    if found.len() > 1 {
        assert(is_function_at(s[found[1]], sec, va as int));
        assert(found[0] < found[1]);
    }
}

/// Whether entry `n` gives symbol `i` the size `z`.
spec fn gives_size(s: Seq<SymbolView>, d: SizeView, n: int, i: int, z: int) -> bool {
    let (va, raw_end) = d.raw_ends[n];
    &&& 0 <= n < d.raw_ends.len()
    &&& code_at(d.code, va) is Some
    &&& ({
        let code = d.code[code_at(d.code, va)->Some_0];
        &&& kind_at(s, code.index, va, ObjSymbolKind::Function) == Ok::<_, ObjError>(
            Some(i as usize),
        )
        &&& 0 <= i < s.len()
        &&& !s[i].size_known
        &&& z == function_end(s, d, code, va, raw_end) - va
    })
}

/// Which updates the entries give.
proof fn lemma_updates(s: Seq<SymbolView>, d: SizeView, n: nat)
    requires
        n <= d.raw_ends.len(),
        ends_ok(d.raw_ends),
        all_fit(d.code),
        s.len() <= usize::MAX,
    ensures
        size_updates(s, d, n) matches Ok(u) ==> {
            &&& forall|j: int|
                0 <= j < u.len() ==> exists|m: int|
                    m < n && gives_size(
                        s,
                        d,
                        m,
                        (#[trigger] u[j]).0 as int,
                        u[j].1 as int,
                    ) && #[trigger] trigger_entry(m)
            &&& forall|m: int, i: int, z: int|
                m < n && #[trigger] gives_size(s, d, m, i, z) ==> exists|j: int|
                    0 <= j < u.len() && (#[trigger] u[j]).0 == i && u[j].1 == z
        },
    decreases n,
{
    if n > 0 {
        lemma_updates(s, d, (n - 1) as nat);
        let (va, raw_end) = d.raw_ends[n - 1];
        lemma_code_at(d.code, va);
        assert(trigger_entry(n - 1));
        if let Ok(u) = size_updates(s, d, n) {
            let below = size_updates(s, d, (n - 1) as nat)->Ok_0;
            if let Some(k) = code_at(d.code, va) {
                let code = d.code[k];
                assert(code.fits());
                lemma_function_end(s, d, code, va, raw_end);
                lemma_function_found(s, code.index, va);
            }
            assert forall|j: int| 0 <= j < u.len() implies exists|m: int|
                m < n && gives_size(s, d, m, (#[trigger] u[j]).0 as int, u[j].1 as int)
                    && #[trigger] trigger_entry(m) by {
                if j < below.len() {
                    assert(u[j] == below[j]);
                } else {
                    assert(gives_size(s, d, n - 1, u[j].0 as int, u[j].1 as int));
                }
            }
            assert forall|m: int, i: int, z: int|
                m < n && #[trigger] gives_size(s, d, m, i, z) implies exists|j: int|
                0 <= j < u.len() && (#[trigger] u[j]).0 == i && u[j].1 == z by {
                if m < n - 1 {
                    let j = choose|j: int|
                        0 <= j < below.len() && (#[trigger] below[j]).0 == i && below[j].1 == z;
                    assert(u[j] == below[j]);
                } else {
                    assert(u[below.len() as int] == (i as usize, z as u64));
                }
            }
        }
    }
}

spec fn trigger_entry(m: int) -> bool {
    true
}

/// Two entries do not give sizes to one symbol.
proof fn lemma_one_entry(s: Seq<SymbolView>, d: SizeView, m: int, n: int, i: int, y: int, z: int)
    requires
        ascending(d.raw_ends),
        s.len() <= usize::MAX,
        gives_size(s, d, m, i, y),
        gives_size(s, d, n, i, z),
    ensures
        m == n,
        y == z,
{
    let va = d.raw_ends[m].0;
    let vb = d.raw_ends[n].0;
    lemma_function_found(s, d.code[code_at(d.code, va)->Some_0].index, va);
    lemma_function_found(s, d.code[code_at(d.code, vb)->Some_0].index, vb);
    assert(va == vb);
    if m < n {
        assert(d.raw_ends[m].0 < d.raw_ends[n].0);
    } else if n < m {
        assert(d.raw_ends[n].0 < d.raw_ends[m].0);
    }
}

/// What updates of one size do to a symbol.
proof fn lemma_updated(
    s: Seq<SymbolView>,
    u: Seq<(SymbolIndex, u64)>,
    n: nat,
    i: int,
    z: u64,
)
    requires
        n <= u.len(),
        0 <= i < s.len(),
        forall|j: int| 0 <= j < u.len() ==> (#[trigger] u[j]).0 < s.len(),
        forall|j: int| 0 <= j < n && (#[trigger] u[j]).0 == i ==> u[j].1 == z,
    ensures
        with_sizes(s, u, n).len() == s.len(),
        with_sizes(s, u, n)[i] == (if exists|j: int| 0 <= j < n && (#[trigger] u[j]).0 == i {
            SymbolView { size: z, size_known: true, ..s[i] }
        } else {
            s[i]
        }),
    decreases n,
{
    if n > 0 {
        lemma_updated(s, u, (n - 1) as nat, i, z);
        assert(u[n - 1].0 < s.len());
        let prior = exists|j: int| 0 <= j < n - 1 && (#[trigger] u[j]).0 == i;
        let now = exists|j: int| 0 <= j < n && (#[trigger] u[j]).0 == i;
        if prior {
            let j = choose|j: int| 0 <= j < n - 1 && (#[trigger] u[j]).0 == i;
            assert(0 <= j < n && u[j].0 == i);
        }
        if u[n - 1].0 != i && now {
            let j = choose|j: int| 0 <= j < n && (#[trigger] u[j]).0 == i;
            assert(0 <= j < n - 1);
        }
    }
}

/// The sizes that the size pass sets: a function whose disassembly ended somewhere, and
/// whose symbol is the only one at its entry and has no known size, gets the distance to
/// the last address at which it may end.
pub proof fn lemma_size_set(
    s: Seq<SymbolView>,
    d: SizeView,
    n: int,
    k: int,
    i: int,
    cap: int,
    e: int,
)
    requires
        ascending(d.raw_ends),
        ends_ok(d.raw_ends),
        all_fit(d.code),
        s.len() <= usize::MAX,
        size_updates(s, d, d.raw_ends.len()) is Ok,
        0 <= n < d.raw_ends.len(),
        first_code(d.code, k, d.raw_ends[n].0 as int),
        only_function_at(s, i, d.code[k].index, d.raw_ends[n].0 as int),
        !s[i].size_known,
        is_cap(s, d.code[k], d.raw_ends[n].0 as int, cap),
    ensures
        ({
            let (va, raw_end) = d.raw_ends[n];
            let u = size_updates(s, d, d.raw_ends.len())->Ok_0;
            let new = with_sizes(s, u, u.len())[i];
            &&& new == (SymbolView { size: new.size, size_known: true, ..s[i] })
            &&& may_end(d, d.code[k], va as int, raw_end as int, cap, va + new.size)
            &&& may_end(d, d.code[k], va as int, raw_end as int, cap, e) ==> e <= va + new.size
        }),
{
    let (va, raw_end) = d.raw_ends[n];
    let u = size_updates(s, d, d.raw_ends.len())->Ok_0;
    let code = d.code[k];
    lemma_first_code(d.code, k, va);
    assert(code.fits());
    lemma_function_found(s, code.index, va);
    assert(is_function_at(s[i], code.index, va as int));
    lemma_updates(s, d, d.raw_ends.len());
    lemma_end_is_last(s, d, code, va, raw_end, cap);
    lemma_function_end(s, d, code, va, raw_end);
    let z = function_end(s, d, code, va, raw_end) - va;
    assert(gives_size(s, d, n, i, z));
    assert forall|j: int| 0 <= j < u.len() implies (#[trigger] u[j]).0 < s.len() && (u[j].0 == i
        ==> u[j].1 == z) by {
        let m = choose|m: int|
            m < d.raw_ends.len() && gives_size(s, d, m, u[j].0 as int, u[j].1 as int)
                && #[trigger] trigger_entry(m);
        assert(gives_size(s, d, m, u[j].0 as int, u[j].1 as int));
        if u[j].0 == i {
            lemma_one_entry(s, d, m, n, i, u[j].1 as int, z);
        }
    }
    lemma_updated(s, u, u.len(), i, z as u64);
}

/// A symbol that the size pass changes is a function of unknown size at the entry of a
/// function whose disassembly ended somewhere.
pub proof fn lemma_size_reason(s: Seq<SymbolView>, d: SizeView, i: int)
    requires
        ends_ok(d.raw_ends),
        all_fit(d.code),
        s.len() <= usize::MAX,
        size_updates(s, d, d.raw_ends.len()) is Ok,
        0 <= i < s.len(),
        ({
            let u = size_updates(s, d, d.raw_ends.len())->Ok_0;
            with_sizes(s, u, u.len())[i] != s[i]
        }),
    ensures
        !s[i].size_known,
        exists|n: int, k: int|
            0 <= n < d.raw_ends.len() && #[trigger] first_code(
                d.code,
                k,
                #[trigger] d.raw_ends[n].0 as int,
            ) && only_function_at(s, i, d.code[k].index, d.raw_ends[n].0 as int),
{
    let u = size_updates(s, d, d.raw_ends.len())->Ok_0;
    lemma_updates(s, d, d.raw_ends.len());
    assert forall|j: int| 0 <= j < u.len() implies (#[trigger] u[j]).0 < s.len() by {
        let m = choose|m: int|
            m < d.raw_ends.len() && gives_size(s, d, m, u[j].0 as int, u[j].1 as int)
                && #[trigger] trigger_entry(m);
        assert(gives_size(s, d, m, u[j].0 as int, u[j].1 as int));
    }
    if !exists|j: int| 0 <= j < u.len() && (#[trigger] u[j]).0 == i {
        lemma_updated(s, u, u.len(), i, 0);
    }
    let j = choose|j: int| 0 <= j < u.len() && (#[trigger] u[j]).0 == i;
    let m = choose|m: int|
        m < d.raw_ends.len() && gives_size(s, d, m, u[j].0 as int, u[j].1 as int)
            && #[trigger] trigger_entry(m);
    assert(gives_size(s, d, m, i, u[j].1 as int));
    let va = d.raw_ends[m].0;
    let k = code_at(d.code, va)->Some_0;
    lemma_first_code(d.code, k, va);
    lemma_function_found(s, d.code[k].index, va);
    assert(first_code(d.code, k, d.raw_ends[m].0 as int));
}

/// The size pass fails only where two function symbols stand at the entry of a function
/// whose disassembly ended somewhere.
pub proof fn lemma_size_failure(s: Seq<SymbolView>, d: SizeView, n: nat)
    requires
        n <= d.raw_ends.len(),
        s.len() <= usize::MAX,
    ensures
        size_updates(s, d, n) is Err ==> exists|m: int, k: int, i: int, j: int|
            {
                &&& 0 <= m < n
                &&& first_code(d.code, k, #[trigger] d.raw_ends[m].0 as int)
                &&& 0 <= i < j < s.len()
                &&& #[trigger] is_function_at(
                    s[i],
                    (#[trigger] d.code[k]).index,
                    d.raw_ends[m].0 as int,
                )
                &&& #[trigger] is_function_at(s[j], d.code[k].index, d.raw_ends[m].0 as int)
            },
    decreases n,
{
    if n > 0 {
        lemma_size_failure(s, d, (n - 1) as nat);
        if size_updates(s, d, n) is Err && size_updates(s, d, (n - 1) as nat) is Ok {
            let va = d.raw_ends[n - 1].0;
            let k = code_at(d.code, va)->Some_0;
            lemma_first_code(d.code, k, va);
            lemma_function_found(s, d.code[k].index, va);
            let (i, j) = choose|i: int, j: int|
                {
                    &&& 0 <= i < j < s.len()
                    &&& is_function_at(#[trigger] s[i], d.code[k].index, va as int)
                    &&& is_function_at(#[trigger] s[j], d.code[k].index, va as int)
                };
            assert(is_function_at(s[i], d.code[k].index, d.raw_ends[n - 1].0 as int));
            assert(is_function_at(s[j], d.code[k].index, d.raw_ends[n - 1].0 as int));
        }
    }
}

/// The size pass fails wherever two function symbols stand at the entry of a function
/// whose disassembly ended somewhere.
pub proof fn lemma_size_refused(s: Seq<SymbolView>, d: SizeView, m: int, k: int, i: int, j: int)
    requires
        ends_ok(d.raw_ends),
        all_fit(d.code),
        s.len() <= usize::MAX,
        0 <= m < d.raw_ends.len(),
        first_code(d.code, k, d.raw_ends[m].0 as int),
        0 <= i < j < s.len(),
        is_function_at(s[i], d.code[k].index, d.raw_ends[m].0 as int),
        is_function_at(s[j], d.code[k].index, d.raw_ends[m].0 as int),
    ensures
        size_updates(s, d, d.raw_ends.len()) is Err,
{
    let (va, raw_end) = d.raw_ends[m];
    let n = (m + 1) as nat;
    lemma_code_at(d.code, va);
    lemma_first_code(d.code, k, va);
    assert(d.code[k].fits());
    lemma_function_end(s, d, d.code[k], va, raw_end);
    lemma_function_found(s, d.code[k].index, va);
    assert(size_updates(s, d, n) is Err);
    lemma_updates_stop(s, d, n, d.raw_ends.len());
}

} // verus!
