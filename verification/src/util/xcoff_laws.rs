//! What holds of every XCOFF file that is written.
use vstd::prelude::*;
use vstd::utf8::*;

use crate::bytes::{be16, be32, be_u16, be_u32, lemma_be32_round_trip, low32};
use crate::obj::{ObjReloc, ObjRelocKind, ObjView, SectionView, SymbolView};
use crate::util::xcoff::{
    MAGIC_32, SEC_HDR_SIZE, SYM_SIZE, XSym, align4, csect, csect_entries, data_end, data_offset,
    file_header, finished, fit, fixed8, has_data, is_long, label, label_entries, name_offset,
    pad_to, patched, reloc_count, reloc_end, reloc_entries, reloc_offset, reloc_type,
    section_header, section_headers, section_relocs, stated_relocs, strings, symbol_entry,
    symtab_offset, trunc32, with_data, with_relocs, xcoff_file, xcoff_name, xcoff_styp, zeros,
};

verus! {

/// Whether all offsets and counts of the file fit into their fields.
pub open spec fn in_range(s: Seq<SectionView>) -> bool {
    &&& reloc_end(s, s.len()) <= u32::MAX
    &&& forall|i: int| 0 <= i < s.len() ==> section_relocs(#[trigger] s[i]) <= u16::MAX
}

pub(crate) proof fn lemma_trunc32(x: int)
    requires
        0 <= x <= u32::MAX,
    ensures
        trunc32(x) == x,
{
}

/// Rounding up gives the least multiple of four that is not less.
pub proof fn lemma_align4(x: int)
    requires
        x >= 0,
    ensures
        align4(x) % 4 == 0,
        x <= align4(x) < x + 4,
{
}

pub(crate) proof fn lemma_symbol_entry_len(x: XSym)
    ensures
        symbol_entry(x).len() == 36,
{
}

proof fn lemma_headers_len(s: Seq<SectionView>, n: nat)
    ensures
        section_headers(s, n).len() == SEC_HDR_SIZE * n,
    decreases n,
{
    if n > 0 {
        lemma_headers_len(s, (n - 1) as nat);
    }
}

pub(crate) proof fn lemma_patched_len(obj: ObjView, s: SectionView, n: nat)
    ensures
        patched(obj, s, n).len() == low32(s.size),
    decreases n,
{
    if n > 0 {
        lemma_patched_len(obj, s, (n - 1) as nat);
    }
}

pub(crate) proof fn lemma_reloc_entries_len(obj: ObjView, s: SectionView, n: nat)
    ensures
        reloc_entries(obj, s, n).len() == 10 * reloc_count(s.relocations, n),
    decreases n,
{
    if n > 0 {
        lemma_reloc_entries_len(obj, s, (n - 1) as nat);
    }
}

pub(crate) proof fn lemma_csects_len(s: Seq<SectionView>, n: nat)
    ensures
        csect_entries(s, n).len() == 36 * n,
    decreases n,
{
    if n > 0 {
        lemma_csects_len(s, (n - 1) as nat);
        lemma_symbol_entry_len(csect(s[n - 1], n - 1));
    }
}

pub(crate) proof fn lemma_labels_len(obj: ObjView, n: nat)
    ensures
        label_entries(obj, n).len() == 36 * n,
    decreases n,
{
    if n > 0 {
        lemma_labels_len(obj, (n - 1) as nat);
        lemma_symbol_entry_len(
            label(obj, obj.symbols[n - 1], name_offset(obj.symbols, n - 1)),
        );
    }
}

pub(crate) proof fn lemma_data_end_grows(s: Seq<SectionView>, n: nat, m: nat)
    requires
        n <= m,
    ensures
        0 <= data_end(s, n) <= data_end(s, m),
        n < m && has_data(s[n as int]) ==> align4(data_end(s, n)) + low32(s[n as int].size)
            <= data_end(s, m),
    decreases m,
{
    if m > n {
        lemma_data_end_grows(s, n, (m - 1) as nat);
    } else if n > 0 {
        lemma_data_end_grows(s, (n - 1) as nat, (n - 1) as nat);
    }
}

pub(crate) proof fn lemma_reloc_end_grows(s: Seq<SectionView>, n: nat, m: nat)
    requires
        n <= m,
    ensures
        0 <= data_end(s, s.len()) <= reloc_end(s, n) <= reloc_end(s, m),
        n < m ==> reloc_end(s, n) + 10 * section_relocs(s[n as int]) <= reloc_end(s, m),
    decreases m,
{
    if m > n {
        lemma_reloc_end_grows(s, n, (m - 1) as nat);
    } else if n > 0 {
        lemma_reloc_end_grows(s, (n - 1) as nat, (n - 1) as nat);
    } else {
        lemma_data_end_grows(s, s.len(), s.len());
    }
}

/// While offsets fit, the file is as long as the offsets say.
proof fn lemma_with_data_len(obj: ObjView, n: nat)
    requires
        in_range(obj.sections),
        n <= obj.sections.len(),
    ensures
        with_data(obj, n).len() == data_end(obj.sections, n),
    decreases n,
{
    let s = obj.sections;
    lemma_reloc_end_grows(s, 0, s.len());
    if n == 0 {
        lemma_headers_len(s, s.len());
    } else {
        lemma_with_data_len(obj, (n - 1) as nat);
        lemma_patched_len(obj, s[n - 1], s[n - 1].relocations.len());
        lemma_data_end_grows(s, (n - 1) as nat, s.len());
        if has_data(s[n - 1]) {
            let end = data_end(s, (n - 1) as nat);
            lemma_align4(end);
            lemma_trunc32(align4(end));
            assert(data_offset(s, n - 1) == align4(end));
        }
    }
}

proof fn lemma_with_relocs_len(obj: ObjView, n: nat)
    requires
        in_range(obj.sections),
        n <= obj.sections.len(),
    ensures
        with_relocs(obj, n).len() == reloc_end(obj.sections, n),
    decreases n,
{
    let s = obj.sections;
    if n == 0 {
        lemma_with_data_len(obj, s.len());
    } else {
        lemma_with_relocs_len(obj, (n - 1) as nat);
        lemma_reloc_entries_len(obj, s[n - 1], s[n - 1].relocations.len());
        lemma_reloc_end_grows(s, (n - 1) as nat, s.len());
        assert(section_relocs(s[n - 1]) <= u16::MAX);
        if section_relocs(s[n - 1]) > 0 {
            assert(reloc_offset(s, n - 1) == reloc_end(s, (n - 1) as nat));
        }
    }
}

/// Whether `a` is the beginning of `b`.
pub open spec fn begins(a: Seq<u8>, b: Seq<u8>) -> bool {
    a.len() <= b.len() && b.take(a.len() as int) == a
}

proof fn lemma_begins_more(a: Seq<u8>, b: Seq<u8>, more: Seq<u8>)
    requires
        begins(a, b),
    ensures
        begins(a, b + more),
{
    assert((b + more).take(a.len() as int) =~= b.take(a.len() as int));
}

pub(crate) proof fn lemma_begins_slice(a: Seq<u8>, b: Seq<u8>, lo: int, hi: int)
    requires
        begins(a, b),
        0 <= lo <= hi <= a.len(),
    ensures
        b.subrange(lo, hi) == a.subrange(lo, hi),
{
    assert(b.subrange(lo, hi) =~= b.take(a.len() as int).subrange(lo, hi));
}

proof fn lemma_behind(a: Seq<u8>, b: Seq<u8>)
    ensures
        (a + b).subrange(a.len() as int, (a.len() + b.len()) as int) == b,
{
    assert((a + b).subrange(a.len() as int, (a.len() + b.len()) as int) =~= b);
}

proof fn lemma_four_parts(a: Seq<u8>, b: Seq<u8>, c: Seq<u8>, d: Seq<u8>)
    ensures
        ({
            let all = a + b + c + d;
            let end = (a.len() + b.len() + c.len()) as int;
            &&& all.subrange(a.len() as int, end) == b + c
            &&& all.skip(end) == d
            &&& end <= all.len()
        }),
{
    let all = a + b + c + d;
    let end = (a.len() + b.len() + c.len()) as int;
    assert(all.subrange(a.len() as int, end) =~= b + c);
    assert(all.skip(end) =~= d);
}

proof fn lemma_begins_padded(a: Seq<u8>, b: Seq<u8>, n: nat, more: Seq<u8>)
    requires
        begins(a, b),
    ensures
        begins(a, pad_to(b, n) + more),
{
    if b.len() < n {
        lemma_begins_more(a, b, zeros((n - b.len()) as nat));
    }
    lemma_begins_more(a, pad_to(b, n), more);
}

proof fn lemma_data_begins(obj: ObjView, n: nat, m: nat)
    requires
        n <= m,
    ensures
        begins(with_data(obj, n), with_data(obj, m)),
    decreases m,
{
    if n < m {
        lemma_data_begins(obj, n, (m - 1) as nat);
        let s = obj.sections[m - 1];
        lemma_begins_padded(
            with_data(obj, n),
            with_data(obj, (m - 1) as nat),
            data_offset(obj.sections, m - 1) as nat,
            patched(obj, s, s.relocations.len()),
        );
    } else {
        assert(with_data(obj, n).take(with_data(obj, n).len() as int) =~= with_data(obj, n));
    }
}

proof fn lemma_relocs_begin(obj: ObjView, n: nat, m: nat)
    requires
        n <= m,
    ensures
        begins(with_relocs(obj, n), with_relocs(obj, m)),
    decreases m,
{
    if n < m {
        lemma_relocs_begin(obj, n, (m - 1) as nat);
        let s = obj.sections[m - 1];
        lemma_begins_padded(
            with_relocs(obj, n),
            with_relocs(obj, (m - 1) as nat),
            reloc_offset(obj.sections, m - 1) as nat,
            reloc_entries(obj, s, s.relocations.len()),
        );
    } else {
        assert(with_relocs(obj, n).take(with_relocs(obj, n).len() as int) =~= with_relocs(obj, n));
    }
}

/// The file begins with everything up to the relocation entries.
proof fn lemma_file_begins(obj: ObjView, n: nat)
    requires
        n <= obj.sections.len(),
    ensures
        begins(with_relocs(obj, n), xcoff_file(obj)),
{
    let all = obj.sections.len();
    lemma_relocs_begin(obj, n, all);
    lemma_begins_padded(
        with_relocs(obj, n),
        with_relocs(obj, all),
        symtab_offset(obj.sections) as nat,
        csect_entries(obj.sections, all),
    );
    let table = pad_to(with_relocs(obj, all), symtab_offset(obj.sections) as nat) + csect_entries(
        obj.sections,
        all,
    );
    lemma_begins_more(with_relocs(obj, n), table, label_entries(obj, obj.symbols.len()));
    lemma_begins_more(
        with_relocs(obj, n),
        table + label_entries(obj, obj.symbols.len()),
        finished(strings(obj.symbols, obj.symbols.len())),
    );
}

/// Where the data of a section goes.
pub(crate) proof fn lemma_data_offset(obj: ObjView, i: int)
    requires
        in_range(obj.sections),
        0 <= i < obj.sections.len(),
        has_data(obj.sections[i]),
    ensures
        data_offset(obj.sections, i) % 4 == 0,
        pad_to(
            with_data(obj, i as nat),
            data_offset(obj.sections, i) as nat,
        ).len() == data_offset(obj.sections, i),
{
    lemma_reloc_end_grows(obj.sections, 0, obj.sections.len());
    lemma_data_end_grows(obj.sections, i as nat, obj.sections.len());
    lemma_with_data_len(obj, i as nat);
    let end = data_end(obj.sections, i as nat);
    lemma_align4(end);
    lemma_trunc32(align4(end));
    assert(data_offset(obj.sections, i) == align4(end));
}

/// The data of a section stands, aligned to four bytes, where the section's
/// header says, and is as long as the header says.
pub proof fn lemma_data_placed(obj: ObjView, i: int)
    requires
        in_range(obj.sections),
        0 <= i < obj.sections.len(),
        has_data(obj.sections[i]),
    ensures
        data_offset(obj.sections, i) % 4 == 0,
        data_offset(obj.sections, i) + low32(obj.sections[i].size) <= xcoff_file(obj).len(),
        xcoff_file(obj).subrange(
            data_offset(obj.sections, i) as int,
            data_offset(obj.sections, i) + low32(obj.sections[i].size),
        ) == patched(obj, obj.sections[i], obj.sections[i].relocations.len()),
{
    let s = obj.sections[i];
    let at = data_offset(obj.sections, i) as int;
    let n = obj.sections.len();
    let data = patched(obj, s, s.relocations.len());
    lemma_patched_len(obj, s, s.relocations.len());
    lemma_data_offset(obj, i);
    let upto = with_data(obj, (i + 1) as nat);
    let padded = pad_to(with_data(obj, i as nat), at as nat);
    assert(upto == padded + data);
    lemma_behind(padded, data);
    lemma_data_begins(obj, (i + 1) as nat, n);
    lemma_begins_slice(upto, with_data(obj, n), at, at + data.len());
    lemma_file_begins(obj, 0);
    assert(with_relocs(obj, 0) == with_data(obj, n));
    lemma_begins_slice(with_data(obj, n), xcoff_file(obj), at, at + data.len());
}

/// The relocation entries of a section stand where the section's header says,
/// and are as many as the header says.
pub proof fn lemma_relocs_placed(obj: ObjView, i: int)
    requires
        in_range(obj.sections),
        0 <= i < obj.sections.len(),
        section_relocs(obj.sections[i]) > 0,
    ensures
        ({
            let s = obj.sections[i];
            let at = reloc_offset(obj.sections, i);
            let size = 10 * stated_relocs(s);
            &&& at + size <= xcoff_file(obj).len()
            &&& xcoff_file(obj).subrange(at as int, at + size) == reloc_entries(
                obj,
                s,
                s.relocations.len(),
            )
        }),
{
    let s = obj.sections[i];
    let at = reloc_offset(obj.sections, i) as int;
    let n = obj.sections.len();
    let entries = reloc_entries(obj, s, s.relocations.len());
    lemma_reloc_entries_len(obj, s, s.relocations.len());
    lemma_reloc_end_grows(obj.sections, i as nat, n);
    lemma_with_relocs_len(obj, i as nat);
    assert(at == reloc_end(obj.sections, i as nat));
    assert(stated_relocs(s) == section_relocs(s));
    let upto = with_relocs(obj, (i + 1) as nat);
    let before = with_relocs(obj, i as nat);
    assert(upto == before + entries);
    lemma_behind(before, entries);
    lemma_file_begins(obj, (i + 1) as nat);
    lemma_begins_slice(upto, xcoff_file(obj), at, at + entries.len());
}

/// The symbol table stands where the file header says, with two entries of 18
/// bytes for each section and each symbol, and the string table follows it to
/// the end of the file.
pub proof fn lemma_symtab_placed(obj: ObjView)
    requires
        in_range(obj.sections),
    ensures
        ({
            let at = symtab_offset(obj.sections) as int;
            let size = SYM_SIZE * (2 * (obj.sections.len() + obj.symbols.len()));
            let file = xcoff_file(obj);
            &&& at + size <= file.len()
            &&& file.subrange(at, at + size) == csect_entries(obj.sections, obj.sections.len())
                + label_entries(obj, obj.symbols.len())
            &&& file.skip(at + size) == finished(strings(obj.symbols, obj.symbols.len()))
        }),
{
    let at = symtab_offset(obj.sections) as int;
    let n = obj.sections.len();
    lemma_reloc_end_grows(obj.sections, 0, n);
    lemma_with_relocs_len(obj, n);
    lemma_csects_len(obj.sections, n);
    lemma_labels_len(obj, obj.symbols.len());
    let before = pad_to(with_relocs(obj, n), at as nat);
    assert(before.len() == at);
    lemma_four_parts(
        before,
        csect_entries(obj.sections, n),
        label_entries(obj, obj.symbols.len()),
        finished(strings(obj.symbols, obj.symbols.len())),
    );
}

proof fn lemma_strings_begin(s: Seq<SymbolView>, n: nat, m: nat)
    requires
        n <= m,
    ensures
        begins(strings(s, n), strings(s, m)),
        strings(s, n).len() >= 4,
    decreases m,
{
    if n < m {
        lemma_strings_begin(s, n, (m - 1) as nat);
        let name = s[m - 1].name;
        lemma_begins_more(
            strings(s, n),
            strings(s, (m - 1) as nat),
            encode_utf8(name).push(0),
        );
    } else {
        assert(strings(s, n).take(strings(s, n).len() as int) =~= strings(s, n));
        if n > 0 {
            lemma_strings_begin(s, (n - 1) as nat, (n - 1) as nat);
        }
    }
}

/// A name of more than eight bytes stands in the string table at the offset
/// that its symbol has, with a zero byte behind it.
pub proof fn lemma_name_found(s: Seq<SymbolView>, i: int)
    requires
        0 <= i < s.len(),
        is_long(s[i].name),
        strings(s, s.len()).len() <= u32::MAX,
    ensures
        ({
            let at = name_offset(s, i) as int;
            let name = encode_utf8(s[i].name).push(0);
            let table = finished(strings(s, s.len()));
            at + name.len() <= table.len() && table.subrange(at, at + name.len()) == name
        }),
{
    let name = encode_utf8(s[i].name).push(0);
    lemma_strings_begin(s, i as nat, s.len());
    lemma_strings_begin(s, (i + 1) as nat, s.len());
    let at = name_offset(s, i) as int;
    assert(at == strings(s, i as nat).len());
    let upto = strings(s, (i + 1) as nat);
    assert(upto.subrange(at, at + name.len()) =~= name);
    let all = strings(s, s.len());
    let table = finished(all);
    assert(table.len() == all.len());
    assert(table.subrange(at, at + name.len()) =~= all.take(upto.len() as int).subrange(
        at,
        at + name.len(),
    ));
}

/// What stands at the start of the file is what the headers are made of.
pub(crate) proof fn lemma_headers_begin(obj: ObjView)
    requires
        in_range(obj.sections),
    ensures
        begins(
            file_header(obj) + section_headers(obj.sections, obj.sections.len()),
            xcoff_file(obj),
        ),
{
    let n = obj.sections.len();
    let a = with_data(obj, 0);
    let b = with_data(obj, n);
    let c = xcoff_file(obj);
    lemma_data_begins(obj, 0, n);
    lemma_file_begins(obj, 0);
    assert(with_relocs(obj, 0) == b);
    assert(c.take(a.len() as int) =~= b.take(a.len() as int));
}

/// Four bytes are read as the word that they were made of.
proof fn lemma_word(s: Seq<u8>, at: int, x: u32)
    requires
        0 <= at,
        at + 4 <= s.len(),
        s.subrange(at, at + 4) == be32(x),
    ensures
        be_u32(s, at) == x,
{
    let w = s.subrange(at, at + 4);
    assert(w[0] == s[at] && w[1] == s[at + 1] && w[2] == s[at + 2] && w[3] == s[at + 3]);
    lemma_be32_round_trip(x);
}

/// Two bytes are read as the half word that they were made of.
proof fn lemma_half(s: Seq<u8>, at: int, x: u16)
    requires
        0 <= at,
        at + 2 <= s.len(),
        s.subrange(at, at + 2) == be16(x),
    ensures
        be_u16(s, at) == x,
{
    let w = s.subrange(at, at + 2);
    assert(w[0] == s[at] && w[1] == s[at + 1]);
}

/// The parts of seven pieces of the lengths of the file header's fields.
proof fn lemma_seven(
    a: Seq<u8>,
    b: Seq<u8>,
    c: Seq<u8>,
    d: Seq<u8>,
    e: Seq<u8>,
    f: Seq<u8>,
    g: Seq<u8>,
)
    requires
        a.len() == b.len() == f.len() == g.len() == 2,
        c.len() == d.len() == e.len() == 4,
    ensures
        ({
            let s = a + b + c + d + e + f + g;
            &&& s.len() == 20
            &&& s.subrange(0, 2) == a
            &&& s.subrange(2, 4) == b
            &&& s.subrange(8, 12) == d
            &&& s.subrange(12, 16) == e
        }),
{
    let s = a + b + c + d + e + f + g;
    assert(s.subrange(0, 2) =~= a);
    assert(s.subrange(2, 4) =~= b);
    assert(s.subrange(8, 12) =~= d);
    assert(s.subrange(12, 16) =~= e);
}

/// The parts of ten pieces of the lengths of a section header's fields.
proof fn lemma_ten(
    a: Seq<u8>,
    b: Seq<u8>,
    c: Seq<u8>,
    d: Seq<u8>,
    e: Seq<u8>,
    f: Seq<u8>,
    g: Seq<u8>,
    h: Seq<u8>,
    i: Seq<u8>,
    j: Seq<u8>,
)
    requires
        a.len() == 8,
        b.len() == c.len() == d.len() == e.len() == f.len() == g.len() == j.len() == 4,
        h.len() == i.len() == 2,
    ensures
        ({
            let s = a + b + c + d + e + f + g + h + i + j;
            &&& s.len() == 40
            &&& s.subrange(16, 20) == d
            &&& s.subrange(20, 24) == e
            &&& s.subrange(24, 28) == f
            &&& s.subrange(32, 34) == h
        }),
{
    let s = a + b + c + d + e + f + g + h + i + j;
    assert(s.subrange(16, 20) =~= d);
    assert(s.subrange(20, 24) =~= e);
    assert(s.subrange(24, 28) =~= f);
    assert(s.subrange(32, 34) =~= h);
}

/// The fields of the file header.
pub(crate) proof fn lemma_file_header_words(obj: ObjView)
    ensures
        file_header(obj).len() == 20,
        file_header(obj).subrange(0, 2) == be16(MAGIC_32),
        file_header(obj).subrange(2, 4) == be16(obj.sections.len() as u16),
        file_header(obj).subrange(8, 12) == be32(symtab_offset(obj.sections)),
        file_header(obj).subrange(12, 16) == be32(
            trunc32(2 * (obj.sections.len() + obj.symbols.len()) as int),
        ),
{
    lemma_seven(
        be16(MAGIC_32),
        be16(obj.sections.len() as u16),
        be32(0),
        be32(symtab_offset(obj.sections)),
        be32(trunc32(2 * (obj.sections.len() + obj.symbols.len()) as int)),
        be16(0),
        be16(0),
    );
}

/// The fields of a section header.
pub(crate) proof fn lemma_section_header_words(s: Seq<SectionView>, i: int)
    ensures
        section_header(s, i).len() == 40,
        section_header(s, i).subrange(16, 20) == be32(low32(s[i].size)),
        section_header(s, i).subrange(20, 24) == be32(data_offset(s, i)),
        section_header(s, i).subrange(24, 28) == be32(reloc_offset(s, i)),
        section_header(s, i).subrange(32, 34) == be16(stated_relocs(s[i])),
{
    lemma_ten(
        fixed8(encode_utf8(xcoff_name(s[i].kind))),
        be32(0),
        be32(0),
        be32(low32(s[i].size)),
        be32(data_offset(s, i)),
        be32(reloc_offset(s, i)),
        be32(0),
        be16(stated_relocs(s[i])),
        be16(0),
        be32(xcoff_styp(s[i].kind) as u32),
    );
}

/// A piece of a piece.
pub(crate) proof fn lemma_part(s: Seq<u8>, t: Seq<u8>, at: int, lo: int, hi: int)
    requires
        0 <= at,
        at + t.len() <= s.len(),
        s.subrange(at, at + t.len()) == t,
        0 <= lo <= hi <= t.len(),
    ensures
        s.subrange(at + lo, at + hi) == t.subrange(lo, hi),
{
    assert(s.subrange(at + lo, at + hi) =~= s.subrange(at, at + t.len()).subrange(lo, hi));
}

/// The header of section `i` stands behind the headers before it.
proof fn lemma_header_at(s: Seq<SectionView>, i: int, n: nat)
    requires
        0 <= i < n,
    ensures
        40 * i + 40 <= section_headers(s, n).len(),
        section_headers(s, n).subrange(40 * i, 40 * i + 40) == section_header(s, i),
    decreases n,
{
    lemma_headers_len(s, n);
    lemma_headers_len(s, (n - 1) as nat);
    let below = section_headers(s, (n - 1) as nat);
    let all = section_headers(s, n);
    if i < n - 1 {
        lemma_header_at(s, i, (n - 1) as nat);
        assert(all.subrange(40 * i, 40 * i + 40) =~= below.subrange(40 * i, 40 * i + 40));
    } else {
        assert(all.subrange(40 * i, 40 * i + 40) =~= section_header(s, i));
    }
}

/// The file header that a reader finds at the start of the file states the number of
/// sections, where the symbol table stands, and the number of its entries; the first
/// word behind the symbol table is the length of the string table.
pub proof fn lemma_header_read(obj: ObjView)
    requires
        in_range(obj.sections),
        obj.sections.len() <= u16::MAX,
        2 * (obj.sections.len() + obj.symbols.len()) <= u32::MAX,
        strings(obj.symbols, obj.symbols.len()).len() <= u32::MAX,
    ensures
        ({
            let file = xcoff_file(obj);
            let count = 2 * (obj.sections.len() + obj.symbols.len());
            let behind = symtab_offset(obj.sections) + 18 * count;
            &&& be_u16(file, 0) == MAGIC_32
            &&& be_u16(file, 2) == obj.sections.len()
            &&& be_u32(file, 8) == symtab_offset(obj.sections)
            &&& be_u32(file, 12) == count
            &&& behind + 4 <= file.len()
            &&& be_u32(file, behind) == file.len() - behind
        }),
{
    let file = xcoff_file(obj);
    let own = file_header(obj);
    let head = own + section_headers(obj.sections, obj.sections.len());
    lemma_headers_begin(obj);
    lemma_file_header_words(obj);
    assert(file.subrange(0, 20) =~= own) by {
        lemma_begins_slice(head, file, 0, 20);
        assert(head.subrange(0, 20) =~= own);
    }
    lemma_part(file, own, 0, 0, 2);
    lemma_part(file, own, 0, 2, 4);
    lemma_part(file, own, 0, 8, 12);
    lemma_part(file, own, 0, 12, 16);
    let count = 2 * (obj.sections.len() + obj.symbols.len()) as int;
    lemma_trunc32(count);
    lemma_half(file, 0, MAGIC_32);
    lemma_half(file, 2, obj.sections.len() as u16);
    lemma_word(file, 8, symtab_offset(obj.sections));
    lemma_word(file, 12, count as u32);
    lemma_symtab_placed(obj);
    lemma_strings_begin(obj.symbols, 0, obj.symbols.len());
    lemma_table_read(obj, symtab_offset(obj.sections) + 18 * count);
}

/// The string table states its own length.
proof fn lemma_table_read(obj: ObjView, behind: int)
    requires
        0 <= behind <= xcoff_file(obj).len(),
        strings(obj.symbols, obj.symbols.len()).len() >= 4,
        strings(obj.symbols, obj.symbols.len()).len() <= u32::MAX,
        xcoff_file(obj).skip(behind) == finished(strings(obj.symbols, obj.symbols.len())),
    ensures
        behind + 4 <= xcoff_file(obj).len(),
        be_u32(xcoff_file(obj), behind) == xcoff_file(obj).len() - behind,
{
    let file = xcoff_file(obj);
    let all = strings(obj.symbols, obj.symbols.len());
    let table = finished(all);
    let length = trunc32(all.len() as int);
    lemma_trunc32(all.len() as int);
    assert(table.len() == all.len());
    assert(file.skip(behind).len() == file.len() - behind);
    assert(file.subrange(behind, behind + 4) =~= table.subrange(0, 4)) by {
        assert(file.subrange(behind, behind + 4) =~= file.skip(behind).subrange(0, 4));
    }
    assert(table.subrange(0, 4) =~= be32(length));
    lemma_word(file, behind, length);
}

/// Whether the section header at `at` states the size of the data of section `i`,
/// where its data and its relocation entries stand, and how many entries there are.
#[verifier::opaque]
pub open spec fn states_section(file: Seq<u8>, at: int, s: Seq<SectionView>, i: int) -> bool {
    &&& be_u32(file, at + 16) == low32(s[i].size)
    &&& be_u32(file, at + 20) == data_offset(s, i)
    &&& be_u32(file, at + 24) == reloc_offset(s, i)
    &&& be_u16(file, at + 32) == section_relocs(s[i])
}

/// The header of section `i` that a reader finds behind the file header states what
/// the file holds of the section.
pub proof fn lemma_section_header_read(obj: ObjView, i: int)
    requires
        in_range(obj.sections),
        0 <= i < obj.sections.len(),
    ensures
        20 + 40 * i + 40 <= xcoff_file(obj).len(),
        states_section(xcoff_file(obj), 20 + 40 * i, obj.sections, i),
{
    lemma_section_header_placed(obj, i);
    lemma_section_fields(xcoff_file(obj), obj.sections, i, 20 + 40 * i);
    lemma_section_words(xcoff_file(obj), obj.sections, i, 20 + 40 * i);
}

/// Where the header of section `i` stands.
pub(crate) proof fn lemma_section_header_placed(obj: ObjView, i: int)
    requires
        in_range(obj.sections),
        0 <= i < obj.sections.len(),
    ensures
        20 + 40 * i + 40 <= xcoff_file(obj).len(),
        xcoff_file(obj).subrange(20 + 40 * i, 20 + 40 * i + 40) == section_header(
            obj.sections,
            i,
        ),
{
    let file = xcoff_file(obj);
    let headers = section_headers(obj.sections, obj.sections.len());
    let head = file_header(obj) + headers;
    let at = 20 + 40 * i;
    lemma_headers_begin(obj);
    lemma_file_header_words(obj);
    lemma_header_at(obj.sections, i, obj.sections.len());
    lemma_begins_slice(head, file, at, at + 40);
    assert(head.subrange(at, at + 40) =~= headers.subrange(40 * i, 40 * i + 40));
}

/// Whether the fields of the header of section `i` stand behind `at`.
spec fn has_fields(file: Seq<u8>, at: int, s: Seq<SectionView>, i: int) -> bool {
    &&& 0 <= at
    &&& at + 40 <= file.len()
    &&& file.subrange(at + 16, at + 20) == be32(low32(s[i].size))
    &&& file.subrange(at + 20, at + 24) == be32(data_offset(s, i))
    &&& file.subrange(at + 24, at + 28) == be32(reloc_offset(s, i))
    &&& file.subrange(at + 32, at + 34) == be16(stated_relocs(s[i]))
}

/// The fields of a section header that stands at `at`.
proof fn lemma_section_fields(file: Seq<u8>, s: Seq<SectionView>, i: int, at: int)
    requires
        0 <= at,
        at + 40 <= file.len(),
        file.subrange(at, at + 40) == section_header(s, i),
    ensures
        has_fields(file, at, s, i),
{
    let own = section_header(s, i);
    lemma_section_header_words(s, i);
    lemma_part(file, own, at, 16, 20);
    lemma_part(file, own, at, 20, 24);
    lemma_part(file, own, at, 24, 28);
    lemma_part(file, own, at, 32, 34);
}

/// The words of a section header whose fields stand behind `at`.
proof fn lemma_section_words(file: Seq<u8>, s: Seq<SectionView>, i: int, at: int)
    requires
        has_fields(file, at, s, i),
        section_relocs(s[i]) <= u16::MAX,
    ensures
        states_section(file, at, s, i),
{
    lemma_word(file, at + 16, low32(s[i].size));
    lemma_word(file, at + 20, data_offset(s, i));
    lemma_word(file, at + 24, reloc_offset(s, i));
    lemma_half(file, at + 32, stated_relocs(s[i]));
    reveal(states_section);
}

/// Whether byte `j` of a section lies in the field of the relocation `e`.
pub open spec fn in_field(s: SectionView, e: (u32, ObjReloc), j: int) -> bool {
    reloc_type(e.1.kind) is Some && e.0 - s.address <= j < e.0 - s.address + 4
}

/// A byte outside the relocated fields is written as it was.
pub proof fn lemma_patched_elsewhere(obj: ObjView, s: SectionView, n: nat, j: int)
    requires
        n <= s.relocations.len(),
        0 <= j < low32(s.size),
        forall|k: int| 0 <= k < n ==> !in_field(s, #[trigger] s.relocations[k], j),
    ensures
        patched(obj, s, n)[j] == fit(s.data, low32(s.size) as nat)[j],
    decreases n,
{
    lemma_patched_len(obj, s, n);
    if n > 0 {
        lemma_patched_len(obj, s, (n - 1) as nat);
        lemma_patched_elsewhere(obj, s, (n - 1) as nat, j);
        assert(!in_field(s, s.relocations[n - 1], j));
    }
}

/// The field of an absolute relocation holds its addend, where no later relocation
/// writes over it.
pub proof fn lemma_field_holds_addend(obj: ObjView, s: SectionView, k: int, n: nat)
    requires
        0 <= k < n <= s.relocations.len(),
        s.relocations[k].1.kind == ObjRelocKind::Absolute,
        s.address <= s.relocations[k].0,
        s.relocations[k].0 - s.address + 4 <= low32(s.size),
        forall|m: int, j: int|
            k < m < n && s.relocations[k].0 - s.address <= j < s.relocations[k].0 - s.address + 4
                ==> !#[trigger] in_field(s, s.relocations[m], j),
    ensures
        patched(obj, s, n).subrange(
            s.relocations[k].0 - s.address,
            s.relocations[k].0 - s.address + 4,
        ) == be32(trunc32(s.relocations[k].1.addend as int)),
    decreases n,
{
    let at = s.relocations[k].0 - s.address;
    let d = patched(obj, s, n);
    let below = patched(obj, s, (n - 1) as nat);
    let w = be32(trunc32(s.relocations[k].1.addend as int));
    lemma_patched_len(obj, s, n);
    lemma_patched_len(obj, s, (n - 1) as nat);
    if k == n - 1 {
        assert(d.subrange(at, at + 4) =~= w);
    } else {
        lemma_field_holds_addend(obj, s, k, (n - 1) as nat);
        assert forall|j: int| at <= j < at + 4 implies d[j] == below[j] by {
            assert(!in_field(s, s.relocations[n - 1], j));
        }
        assert(d.subrange(at, at + 4) =~= below.subrange(at, at + 4));
    }
}

} // verus!
