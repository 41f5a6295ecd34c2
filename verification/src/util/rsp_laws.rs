//! What a linker response file says.
use vstd::prelude::*;

use crate::bytes::low32;
use crate::cmd::apply_laws::{is_first_with, is_there, lemma_first_with};
use crate::obj::{
    ObjSymbolKind, ObjView, SectionIndex, SectionView, SymbolView, kind_indexes_at, section_at,
};
use crate::text::{decimal, lower_hex, utf8_text};
use crate::text_laws::{lemma_decimal, lemma_lower_hex, numeral};
use crate::util::rsp::{
    PeFields, PeView, entry_name, flag_letters, flags_of, header_lines, in_order, joined, key_order,
    lemma_key_order, lemma_with_flags, pe_info, prefixed_hex, rsp_lines, section_flags,
    section_least, section_line, subsystem_text, trimmed, unit_keys, unit_least, with_breaks,
};

verus! {

/// Where line `k` starts in a text: behind the lines before it and a line break for
/// each.
pub open spec fn line_start(lines: Seq<Seq<char>>, k: nat) -> int
    decreases k,
{
    if k == 0 {
        0
    } else {
        line_start(lines, (k - 1) as nat) + lines[k - 1].len() + 1
    }
}

proof fn lemma_start_prefix(a: Seq<Seq<char>>, b: Seq<Seq<char>>, k: nat)
    requires
        k <= a.len(),
        k <= b.len(),
        forall|i: int| 0 <= i < k ==> #[trigger] a[i] == b[i],
    ensures
        line_start(a, k) == line_start(b, k),
        line_start(a, k) >= 0,
    decreases k,
{
    if k > 0 {
        lemma_start_prefix(a, b, (k - 1) as nat);
    }
}

/// The text holds every line in its place, with one line break before each but the
/// first, and nothing else.
pub proof fn lemma_lines(lines: Seq<Seq<char>>)
    ensures
        lines.len() == 0 ==> with_breaks(lines).len() == 0,
        lines.len() > 0 ==> with_breaks(lines).len() == line_start(lines, lines.len()) - 1,
        forall|k: int|
            0 <= k < lines.len() ==> {
                let at = line_start(lines, k as nat);
                &&& 0 <= at
                &&& at + lines[k].len() <= with_breaks(lines).len()
                &&& with_breaks(lines).subrange(at, at + lines[k].len()) == #[trigger] lines[k]
                &&& k > 0 ==> with_breaks(lines)[at - 1] == '\n'
            },
    decreases lines.len(),
{
    if lines.len() == 1 {
        reveal_with_fuel(line_start, 3);
        let all = with_breaks(lines);
        assert(all.subrange(0, all.len() as int) =~= lines[0]);
    } else if lines.len() > 1 {
        let below = lines.drop_last();
        lemma_lines(below);
        let t = with_breaks(below);
        let all = with_breaks(lines);
        let n = below.len();
        lemma_start_prefix(lines, below, n);
        assert forall|k: int| 0 <= k < lines.len() implies {
            let at = line_start(lines, k as nat);
            &&& 0 <= at
            &&& at + lines[k].len() <= all.len()
            &&& all.subrange(at, at + lines[k].len()) == #[trigger] lines[k]
            &&& k > 0 ==> all[at - 1] == '\n'
        } by {
            let at = line_start(lines, k as nat);
            lemma_start_prefix(lines, below, if k < n { k as nat } else { n });
            if k < n {
                assert(below[k] == lines[k]);
                assert(all.subrange(at, at + lines[k].len()) =~= t.subrange(
                    at,
                    at + lines[k].len(),
                ));
            } else {
                assert(all.subrange(at, at + lines[k].len()) =~= lines[k]);
            }
        }
    }
}

/// Where split `i` of section `k` stands.
pub open spec fn split_at(s: Seq<SectionView>, k: int, i: int) -> int {
    (s[k].address + s[k].splits[i].0) % 0x1_0000_0000_0000_0000
}

/// Whether split `i` of section `k` belongs to the unit.
pub open spec fn is_split_of(s: Seq<SectionView>, unit: Seq<char>, k: int, i: int) -> bool {
    0 <= k < s.len() && 0 <= i < s[k].splits.len() && s[k].splits[i].1 == unit
}

/// Whether `at` is where the unit starts: its lowest split, or the highest address
/// there is where it has none.
pub open spec fn is_unit_start(s: Seq<SectionView>, unit: Seq<char>, at: u64) -> bool {
    &&& forall|k: int, i: int| #[trigger] is_split_of(s, unit, k, i) ==> at <= split_at(s, k, i)
    &&& at == u64::MAX || exists|k: int, i: int| #[trigger]
        is_split_of(s, unit, k, i) && at == split_at(s, k, i)
}

proof fn lemma_section_least(s: Seq<SectionView>, unit: Seq<char>, k: int, n: nat, least: u64)
    requires
        0 <= k < s.len(),
        n <= s[k].splits.len(),
    ensures
        ({
            let r = section_least(s[k], unit, n, least);
            &&& r <= least
            &&& forall|i: int|
                i < n && #[trigger] is_split_of(s, unit, k, i) ==> r <= split_at(s, k, i)
            &&& r == least || exists|i: int|
                i < n && #[trigger] is_split_of(s, unit, k, i) && r == split_at(s, k, i)
        }),
    decreases n,
{
    if n > 0 {
        lemma_section_least(s, unit, k, (n - 1) as nat, least);
        let below = section_least(s[k], unit, (n - 1) as nat, least);
        let r = section_least(s[k], unit, n, least);
        if r != below {
            assert(is_split_of(s, unit, k, n - 1) && r == split_at(s, k, n - 1));
        } else if r != least {
            let i = choose|i: int|
                i < n - 1 && #[trigger] is_split_of(s, unit, k, i) && below == split_at(s, k, i);
            assert(is_split_of(s, unit, k, i) && r == split_at(s, k, i));
        }
    }
}

proof fn lemma_unit_least(s: Seq<SectionView>, unit: Seq<char>, n: nat)
    requires
        n <= s.len(),
    ensures
        ({
            let r = unit_least(s, unit, n);
            &&& forall|k: int, i: int|
                k < n && #[trigger] is_split_of(s, unit, k, i) ==> r <= split_at(s, k, i)
            &&& r == u64::MAX || exists|k: int, i: int|
                k < n && #[trigger] is_split_of(s, unit, k, i) && r == split_at(s, k, i)
        }),
    decreases n,
{
    if n > 0 {
        lemma_unit_least(s, unit, (n - 1) as nat);
        let below = unit_least(s, unit, (n - 1) as nat);
        lemma_section_least(s, unit, n - 1, s[n - 1].splits.len(), below);
        let r = unit_least(s, unit, n);
        if r != below {
            let i = choose|i: int|
                i < s[n - 1].splits.len() && #[trigger] is_split_of(s, unit, n - 1, i) && r
                    == split_at(s, n - 1, i);
            assert(is_split_of(s, unit, n - 1, i));
        } else if r != u64::MAX {
            let (k, i) = choose|k: int, i: int|
                k < n - 1 && #[trigger] is_split_of(s, unit, k, i) && below == split_at(s, k, i);
            assert(is_split_of(s, unit, k, i));
        }
    }
}

/// Whether a unit comes before another one: it starts lower, or at the same address and
/// comes first in the link order.
pub open spec fn comes_before(starts: Seq<u64>, a: int, b: int) -> bool {
    starts[a] < starts[b] || starts[a] == starts[b] && a < b
}

/// The last lines are the object files of the units, each once, in the order in which
/// the units start.
pub proof fn lemma_object_lines(
    obj: ObjView,
    pe: PeView,
    dir: Seq<char>,
    includes: Seq<Seq<char>>,
) -> (r: (Seq<int>, Seq<u64>))
    ensures
        ({
            let (order, starts) = r;
            let lines = rsp_lines(obj, pe, dir, includes);
            let n = obj.link_order.len();
            &&& order.len() == n
            &&& starts.len() == n
            &&& n <= lines.len()
            &&& forall|i: int|
                0 <= i < n ==> is_unit_start(
                    obj.sections,
                    (#[trigger] obj.link_order[i]).name,
                    starts[i],
                )
            &&& forall|k: int| 0 <= k < n ==> 0 <= #[trigger] order[k] < n
            &&& forall|a: int, b: int|
                0 <= a < b < n ==> comes_before(starts, #[trigger] order[a], #[trigger] order[b])
            &&& forall|i: int| 0 <= i < n ==> #[trigger] order.contains(i)
            &&& forall|k: int|
                0 <= k < n ==> #[trigger] lines[lines.len() - n + k] == joined(
                    dir,
                    obj.link_order[order[k]].object_path,
                )
        }),
{
    let n = obj.link_order.len();
    let starts = unit_keys(obj);
    let order = key_order(starts, n);
    lemma_key_order(starts, n);
    assert forall|i: int| 0 <= i < n implies is_unit_start(
        obj.sections,
        (#[trigger] obj.link_order[i]).name,
        starts[i],
    ) by {
        lemma_unit_least(obj.sections, obj.link_order[i].name, obj.sections.len());
    }
    assert forall|a: int, b: int| 0 <= a < b < n implies comes_before(
        starts,
        #[trigger] order[a],
        #[trigger] order[b],
    ) by {
        assert(in_order(starts, order[a], order[b]));
    }
    let lines = rsp_lines(obj, pe, dir, includes);
    let units = order.map_values(|i: int| joined(dir, obj.link_order[i].object_path));
    assert forall|k: int| 0 <= k < n implies #[trigger] lines[lines.len() - n + k] == joined(
        dir,
        obj.link_order[order[k]].object_path,
    ) by {
        assert(lines[lines.len() - n + k] == units[k]);
    }
    (order, starts)
}

/// Whether a text is `0x` and the number in hexadecimal.
pub open spec fn says_hex(t: Seq<char>, n: int) -> bool {
    t.len() > 2 && t[0] == '0' && t[1] == 'x' && numeral(t.skip(2), 16) == n
}

proof fn lemma_says_hex(n: u32)
    ensures
        says_hex(prefixed_hex(n), n as int),
{
    reveal_strlit("0x");
    lemma_lower_hex(n as nat);
    assert(prefixed_hex(n).skip(2) =~= lower_hex(n as nat));
}

/// Whether the line is a word and a hexadecimal number.
pub open spec fn is_hex_line(line: Seq<char>, word: Seq<char>, n: int) -> bool {
    exists|t: Seq<char>| #[trigger] says_hex(t, n) && line == word + t
}

/// Whether the line is a word and two hexadecimal numbers with a comma between.
pub open spec fn is_hex_pair(line: Seq<char>, word: Seq<char>, n: int, m: int) -> bool {
    exists|t: Seq<char>, u: Seq<char>| #[trigger]
        says_hex(t, n) && #[trigger] says_hex(u, m) && line == word + t + ","@ + u
}

/// Whether a text is a number in decimal.
pub open spec fn says_decimal(t: Seq<char>, n: int) -> bool {
    t.len() > 0 && numeral(t, 10) == n && forall|i: int|
        0 <= i < t.len() ==> '0' <= #[trigger] t[i] <= '9'
}

/// Whether the line is a word and two decimal numbers with a dot between.
pub open spec fn is_version(line: Seq<char>, word: Seq<char>, n: int, m: int) -> bool {
    exists|t: Seq<char>, u: Seq<char>| #[trigger]
        says_decimal(t, n) && #[trigger] says_decimal(u, m) && line == word + t + "."@ + u
}

/// The names of the subsystems by their numbers.
pub open spec fn subsystem_names() -> Seq<(int, Seq<char>)> {
    seq![
        (1, "NATIVE"@),
        (3, "CONSOLE"@),
        (7, "POSIX"@),
        (9, "WINDOWSCE"@),
        (10, "EFI_APPLICATION"@),
        (11, "EFI_BOOT_SERVICE_DRIVER"@),
        (12, "EFI_RUNTIME_DRIVER"@),
        (13, "EFI_ROM"@),
        (14, "XBOX"@),
    ]
}

/// Every subsystem with a name of its own has that name, and all others are Windows.
pub proof fn lemma_subsystem(n: u16)
    ensures
        forall|i: int|
            0 <= i < subsystem_names().len() && (#[trigger] subsystem_names()[i]).0 == n
                ==> subsystem_text(n) == subsystem_names()[i].1,
        (forall|i: int|
            0 <= i < subsystem_names().len() ==> (#[trigger] subsystem_names()[i]).0 != n)
            ==> subsystem_text(n) == "WINDOWS"@,
{
    let t = subsystem_names();
    assert(t[0].0 == 1 && t[1].0 == 3 && t[2].0 == 7 && t[3].0 == 9 && t[4].0 == 10 && t[5].0 == 11
        && t[6].0 == 12 && t[7].0 == 13 && t[8].0 == 14);
}

/// The letters of a section's flags: `E` for one that may be read and executed, `W` for
/// one that may be written and is not only written and executed, `R` for all but those
/// that may only be written.
pub proof fn lemma_flag_letters(flags: u32)
    ensures
        ({
            let l = flag_letters(flags);
            let r = flags & 0x4000_0000 != 0;
            let w = flags & 0x8000_0000 != 0;
            let x = flags & 0x2000_0000 != 0;
            &&& l.contains('E') <==> r && x
            &&& l.contains('W') <==> w && (r || !x)
            &&& l.contains('R') <==> !(w && !r && !x)
            &&& l.no_duplicates()
            &&& forall|i: int| 0 <= i < l.len() ==> seq!['R', 'W', 'E'].contains(#[trigger] l[i])
            &&& l.contains('R') ==> l[0] == 'R'
            &&& l.contains('E') ==> l.last() == 'E'
        }),
{
    assert(flags / 0x4000_0000 % 2 == 1 <==> flags & 0x4000_0000 != 0) by (bit_vector);
    assert(flags / 0x8000_0000 % 2 == 1 <==> flags & 0x8000_0000 != 0) by (bit_vector);
    assert(flags / 0x2000_0000 % 2 == 1 <==> flags & 0x2000_0000 != 0) by (bit_vector);
    reveal_strlit("RWE");
    reveal_strlit("RE");
    reveal_strlit("RW");
    reveal_strlit("W");
    reveal_strlit("R");
    let l = flag_letters(flags);
    let k = seq!['R', 'W', 'E'];
    assert(k[0] == 'R' && k[1] == 'W' && k[2] == 'E');
    assert(l.len() > 0);
    assert(l[0] == 'R' || l[0] == 'W');
    if l.len() > 1 {
        assert(l[1] == 'W' || l[1] == 'E');
    }
    if l.len() > 2 {
        assert(l[2] == 'E');
    }
}

/// Whether a name is what the text says up to its last character that is not zero.
pub open spec fn is_trimmed(t: Seq<char>, name: Seq<char>) -> bool {
    &&& name.is_prefix_of(t)
    &&& forall|i: int| name.len() <= i < t.len() ==> #[trigger] t[i] == '\0'
    &&& name.len() > 0 ==> name.last() != '\0'
}

proof fn lemma_trimmed(t: Seq<char>)
    ensures
        is_trimmed(t, trimmed(t)),
        forall|n: Seq<char>| #[trigger] is_trimmed(t, n) ==> n == trimmed(t),
    decreases t.len(),
{
    if t.len() > 0 && t.last() == '\0' {
        let below = t.drop_last();
        lemma_trimmed(below);
        assert forall|i: int| trimmed(t).len() <= i < t.len() implies #[trigger] t[i] == '\0' by {
            if i < below.len() {
                assert(below[i] == t[i]);
            }
        }
        assert forall|n: Seq<char>| #[trigger] is_trimmed(t, n) implies n == trimmed(t) by {
            if n.len() == t.len() {
                assert(n[n.len() - 1] == t[t.len() - 1]);
            }
            assert(n.is_prefix_of(below)) by {
                assert(n =~= below.subrange(0, n.len() as int));
            }
            assert forall|i: int| n.len() <= i < below.len() implies #[trigger] below[i]
                == '\0' by {
                assert(below[i] == t[i]);
            }
            assert(is_trimmed(below, n));
        }
    } else {
        assert(t =~= t.subrange(0, t.len() as int));
        assert forall|n: Seq<char>| #[trigger] is_trimmed(t, n) implies n == trimmed(t) by {
            if n.len() < t.len() {
                assert(t[t.len() - 1] == '\0');
            }
            assert(n =~= t);
        }
    }
}

/// Whether entry `i` of the section table has the name.
pub open spec fn has_name(s: Seq<(Seq<u8>, u32)>, i: int, name: Seq<char>) -> bool {
    utf8_text(s[i].0) matches Some(t) && is_trimmed(t, name) && name.len() > 0
}

/// The flags of a section are those of the last entry of the section table that has its
/// name, and none where no entry does.
pub proof fn lemma_section_flags(s: Seq<(Seq<u8>, u32)>, n: nat, name: Seq<char>)
    requires
        n <= s.len(),
    ensures
        ({
            let f = flags_of(section_flags(s, n), name);
            &&& (forall|i: int| 0 <= i < n ==> !#[trigger] has_name(s, i, name)) ==> f == 0
            &&& forall|i: int|
                0 <= i < n && #[trigger] has_name(s, i, name) && (forall|j: int|
                    i < j < n ==> !#[trigger] has_name(s, j, name)) ==> f == s[i].1
        }),
    decreases n,
{
    if n > 0 {
        lemma_section_flags(s, (n - 1) as nat, name);
        let below = section_flags(s, (n - 1) as nat);
        if let Some(t) = utf8_text(s[n - 1].0) {
            lemma_trimmed(t);
            if trimmed(t).len() > 0 {
                lemma_with_flags(below, trimmed(t), s[n - 1].1, name);
                assert(has_name(s, n - 1, trimmed(t)));
            }
        }
        if has_name(s, n - 1, name) {
            assert(flags_of(section_flags(s, n), name) == s[n - 1].1);
        } else {
            assert(flags_of(section_flags(s, n), name) == flags_of(below, name));
        }
    }
}

/// The lines on the file as a whole: its base, its entry point where a function stands
/// there, its subsystem, the sizes of stack and heap, its version, and that it is fixed
/// where its relocations were stripped.
pub proof fn lemma_header_lines(pe: PeView, entry: Option<Seq<char>>)
    ensures
        ({
            let l = header_lines(pe, entry);
            let e: int = if entry is Some { 1 } else { 0 };
            &&& l.len() == 6 + e + (if pe.relocs_stripped { 1int } else { 0 })
            &&& is_hex_line(l[0], "/BASE:"@, pe.image_base as int)
            &&& entry is Some ==> l[1] == "/ENTRY:"@ + entry->Some_0
            &&& is_version(
                l[1 + e],
                "/SUBSYSTEM:"@ + subsystem_text(pe.subsystem) + ","@,
                pe.major_subsystem_version as int,
                pe.minor_subsystem_version as int,
            )
            &&& is_hex_pair(l[2 + e], "/STACK:"@, pe.stack_reserve as int, pe.stack_commit as int)
            &&& is_hex_pair(l[3 + e], "/HEAP:"@, pe.heap_reserve as int, pe.heap_commit as int)
            &&& is_version(
                l[4 + e],
                "/VERSION:"@,
                pe.major_os_version as int,
                pe.minor_os_version as int,
            )
            &&& l[5 + e] == "/NODEFAULTLIB"@
            &&& pe.relocs_stripped ==> l[6 + e] == "/FIXED"@
        }),
{
    lemma_says_hex(pe.image_base);
    lemma_says_hex(pe.stack_reserve);
    lemma_says_hex(pe.stack_commit);
    lemma_says_hex(pe.heap_reserve);
    lemma_says_hex(pe.heap_commit);
    lemma_decimal(pe.major_subsystem_version as nat);
    lemma_decimal(pe.minor_subsystem_version as nat);
    lemma_decimal(pe.major_os_version as nat);
    lemma_decimal(pe.minor_os_version as nat);
    assert(says_decimal(
        decimal(pe.major_subsystem_version as nat),
        pe.major_subsystem_version as int,
    ));
    assert(says_decimal(
        decimal(pe.minor_subsystem_version as nat),
        pe.minor_subsystem_version as int,
    ));
    assert(says_decimal(decimal(pe.major_os_version as nat), pe.major_os_version as int));
    assert(says_decimal(decimal(pe.minor_os_version as nat), pe.minor_os_version as int));
}

/// Whether the function symbol `i` names the entry point: it is the first one at the
/// address, in the first section that holds it.
pub open spec fn is_entry_function(obj: ObjView, i: int) -> bool {
    let va = (obj.entry->Some_0 % 0x1_0000_0000) as int;
    &&& obj.entry is Some
    &&& 0 <= i < obj.symbols.len()
    &&& obj.symbols[i].kind == ObjSymbolKind::Function
    &&& obj.symbols[i].section is Some
    &&& is_first_with(obj.sections, obj.symbols[i].section->Some_0 as int, va)
    &&& obj.symbols[i].address % 0x1_0000_0000 == va
    &&& forall|j: int|
        0 <= j < i && (#[trigger] obj.symbols[j]).kind == ObjSymbolKind::Function
            && obj.symbols[j].section == obj.symbols[i].section ==> obj.symbols[j].address
            % 0x1_0000_0000 != va
}

proof fn lemma_first_function(s: Seq<SymbolView>, sec: SectionIndex, va: u32, n: nat)
    requires
        n <= s.len(),
    ensures
        ({
            let l = kind_indexes_at(s, sec, va, ObjSymbolKind::Function, n);
            &&& l.len() == 0 ==> forall|i: int|
                0 <= i < n ==> !((#[trigger] s[i]).kind == ObjSymbolKind::Function && is_there(
                    s[i],
                    sec as int,
                    va as int,
                ))
            &&& l.len() > 0 ==> {
                &&& 0 <= l[0] < n
                &&& s[l[0]].kind == ObjSymbolKind::Function
                &&& is_there(s[l[0]], sec as int, va as int)
                &&& forall|i: int|
                    0 <= i < l[0] ==> !((#[trigger] s[i]).kind == ObjSymbolKind::Function
                        && is_there(s[i], sec as int, va as int))
            }
        }),
    decreases n,
{
    if n > 0 {
        lemma_first_function(s, sec, va, (n - 1) as nat);
        let below = kind_indexes_at(s, sec, va, ObjSymbolKind::Function, (n - 1) as nat);
        assert(s[n - 1].at(sec, va) == is_there(s[n - 1], sec as int, va as int));
    }
}

/// The entry point is named by the first function symbol at its address, and by none
/// where there is none.
pub proof fn lemma_entry_name(obj: ObjView)
    requires
        obj.sections.len() <= usize::MAX,
    ensures
        entry_name(obj) is None <==> forall|i: int| !#[trigger] is_entry_function(obj, i),
        forall|i: int| #[trigger]
            is_entry_function(obj, i) ==> entry_name(obj) == Some(obj.symbols[i].name),
{
    if let Some(e) = obj.entry {
        let va = low32(e);
        if let Some(sec) = section_at(obj.sections, va) {
            lemma_first_function(obj.symbols, sec, va, obj.symbols.len());
            lemma_first_with(obj.sections, va, sec as int);
            let l = kind_indexes_at(
                obj.symbols,
                sec,
                va,
                ObjSymbolKind::Function,
                obj.symbols.len(),
            );
            if l.len() > 0 {
                assert forall|j: int|
                    0 <= j < l[0] && (#[trigger] obj.symbols[j]).kind == ObjSymbolKind::Function
                        && obj.symbols[j].section
                        == obj.symbols[l[0]].section implies obj.symbols[j].address
                    % 0x1_0000_0000 != va by {
                    assert(!is_there(obj.symbols[j], sec as int, va as int));
                }
                assert(is_entry_function(obj, l[0]));
            }
        }
        assert forall|i: int| #[trigger] is_entry_function(obj, i) implies entry_name(obj) == Some(
            obj.symbols[i].name,
        ) by {
            let k = obj.symbols[i].section->Some_0 as int;
            lemma_first_with(obj.sections, va, k);
            let sec = section_at(obj.sections, va)->Some_0;
            let l = kind_indexes_at(
                obj.symbols,
                sec,
                va,
                ObjSymbolKind::Function,
                obj.symbols.len(),
            );
            assert(is_there(obj.symbols[i], sec as int, va as int));
            assert(l.len() > 0);
            if l[0] < i {
                assert(obj.symbols[l[0]].kind == ObjSymbolKind::Function);
            }
            assert(l[0] == i);
        }
    }
}

/// The lines come in four groups: on the file, one for each section with its flags, one
/// for each name to be kept, and the object files.
pub proof fn lemma_groups(obj: ObjView, pe: PeView, dir: Seq<char>, includes: Seq<Seq<char>>)
    ensures
        ({
            let l = rsp_lines(obj, pe, dir, includes);
            let head = header_lines(pe, entry_name(obj));
            let h = head.len() as int;
            let s = obj.sections.len() as int;
            let n = includes.len() as int;
            &&& l.len() == h + s + n + obj.link_order.len()
            &&& l.take(h) == head
            &&& forall|i: int|
                0 <= i < s ==> l[h + i] == "/SECTION:"@ + (#[trigger] obj.sections[i]).name
                    + ","@ + flag_letters(
                    flags_of(pe.section_characteristics, obj.sections[i].name),
                )
            &&& forall|i: int|
                0 <= i < n ==> l[h + s + i] == "/INCLUDE:"@ + #[trigger] includes[i]
        }),
{
    let l = rsp_lines(obj, pe, dir, includes);
    let head = header_lines(pe, entry_name(obj));
    lemma_key_order(unit_keys(obj), obj.link_order.len());
    assert(l.take(head.len() as int) =~= head);
    let lines = obj.sections.map_values(|s: SectionView| section_line(pe, s));
    let names = includes.map_values(|n: Seq<char>| "/INCLUDE:"@ + n);
    assert forall|i: int| 0 <= i < obj.sections.len() implies l[head.len() + i] == "/SECTION:"@ + (
    #[trigger] obj.sections[i]).name + ","@ + flag_letters(
        flags_of(pe.section_characteristics, obj.sections[i].name),
    ) by {
        assert(l[head.len() + i] == lines[i]);
    }
    assert forall|i: int| 0 <= i < includes.len() implies l[head.len() + obj.sections.len() + i]
        == "/INCLUDE:"@ + #[trigger] includes[i] by {
        assert(l[head.len() + obj.sections.len() + i] == names[i]);
    }
}

/// The information holds the header fields as they are; relocations count as stripped
/// by the lowest flag of the file.
pub proof fn lemma_info(f: PeFields, s: Seq<(Seq<u8>, u32)>)
    ensures
        ({
            let i = pe_info(f, s);
            let c = f.characteristics;
            &&& i.image_base == f.image_base
            &&& i.stack_reserve == f.stack_reserve && i.stack_commit == f.stack_commit
            &&& i.heap_reserve == f.heap_reserve && i.heap_commit == f.heap_commit
            &&& i.subsystem == f.subsystem
            &&& i.major_os_version == f.major_os_version && i.minor_os_version
                == f.minor_os_version
            &&& i.major_subsystem_version == f.major_subsystem_version
                && i.minor_subsystem_version == f.minor_subsystem_version
            &&& i.relocs_stripped <==> c & 1 != 0
            &&& i.section_characteristics == section_flags(s, s.len())
        }),
{
    let c = f.characteristics;
    assert(c % 2 == 1 <==> c & 1 != 0) by (bit_vector);
}

/// A path in a directory: an absolute path is itself, an empty one the directory, and any
/// other follows the directory, with one separator between unless the directory is empty
/// or ends with one.
pub proof fn lemma_joined(dir: Seq<char>, path: Seq<char>)
    ensures
        joined(dir, Seq::empty()) == dir,
        path.len() > 0 && path[0] == '/' ==> joined(dir, path) == path,
        path.len() > 0 && path[0] != '/' ==> {
            &&& joined(Seq::empty(), path) == path
            &&& joined(dir.push('/'), path) == dir + seq!['/'] + path
            &&& dir.len() > 0 && dir.last() != '/' ==> joined(dir, path) == dir + seq!['/'] + path
        },
{
    assert(Seq::<char>::empty() + path =~= path);
    assert(dir.push('/') =~= dir + seq!['/']);
}

} // verus!
