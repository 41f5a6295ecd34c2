//! Where the parts of an XCOFF file stand, and what its headers say besides.
use vstd::prelude::*;

use crate::bytes::{be16, be32, lemma_words, low32, number};
use crate::obj::{ObjSectionKind, ObjView, SectionView};
use crate::util::xcoff::{
    align4, data_end, data_offset, file_header, has_data, reloc_end, reloc_offset, reloc_ready,
    section_header, section_headers, section_relocs, stated_relocs, strings, symtab_offset, trunc32,
    xcoff_file, xcoff_ready,
};
use crate::util::xcoff_laws::{
    in_range, lemma_align4, lemma_begins_slice, lemma_data_end_grows, lemma_header_read,
    lemma_headers_begin, lemma_part, lemma_reloc_end_grows, lemma_section_header_placed,
    lemma_trunc32,
};
use crate::util::xcoff_read_laws::{
    data_at, is_written, lemma_number16, lemma_number32, lemma_stated, lemma_written, relocs_at,
    symbols_at, written,
};

verus! {

/// How much room a file takes at most before its symbols: its headers, and for each of
/// the first `n` sections its bytes, three for the alignment, and ten for each
/// relocation.
pub open spec fn room(s: Seq<SectionView>, n: nat) -> int
    decreases n,
{
    if n == 0 {
        20int + 40 * s.len()
    } else {
        room(s, (n - 1) as nat) + s[n - 1].size as int % 0x1_0000_0000 + 3 + 10 * written(
            s[n - 1].relocations,
            s[n - 1].relocations.len(),
        )
    }
}

spec fn relocs_of(s: Seq<SectionView>, n: nat) -> int
    decreases n,
{
    if n == 0 {
        0
    } else {
        relocs_of(s, (n - 1) as nat) + 10 * section_relocs(s[n - 1])
    }
}

proof fn lemma_room(s: Seq<SectionView>, n: nat)
    requires
        n <= s.len(),
    ensures
        data_end(s, n) + relocs_of(s, n) <= room(s, n),
        reloc_end(s, n) == data_end(s, s.len()) + relocs_of(s, n),
        room(s, n) >= 0,
    decreases n,
{
    if n > 0 {
        lemma_room(s, (n - 1) as nat);
        lemma_data_end_grows(s, (n - 1) as nat, n);
        lemma_align4(data_end(s, (n - 1) as nat));
        let r = s[n - 1].relocations;
        lemma_written(r, r.len(), r.len());
    }
}

/// Every object whose room fits into 32 bits, and whose sections have no more
/// relocations than can be counted, has a file in which all offsets fit.
pub proof fn lemma_in_range(s: Seq<SectionView>)
    requires
        room(s, s.len()) <= u32::MAX,
        forall|i: int|
            0 <= i < s.len() ==> written(
                (#[trigger] s[i]).relocations,
                s[i].relocations.len(),
            ) <= u16::MAX,
    ensures
        in_range(s),
{
    lemma_room(s, s.len());
    assert forall|i: int| 0 <= i < s.len() implies section_relocs(#[trigger] s[i])
        <= u16::MAX by {
        lemma_written(s[i].relocations, s[i].relocations.len(), s[i].relocations.len());
    }
}

/// Whether no section from `a` up to `b` has bytes in the file.
pub open spec fn none_between(s: Seq<SectionView>, a: int, b: int) -> bool {
    forall|i: int| a <= i < b ==> (#[trigger] s[i]).kind == ObjSectionKind::Bss
}

proof fn lemma_data_end_same(s: Seq<SectionView>, a: nat, b: nat)
    requires
        a <= b <= s.len(),
        none_between(s, a as int, b as int),
    ensures
        data_end(s, a) == data_end(s, b),
    decreases b,
{
    if a < b {
        lemma_data_end_same(s, a, (b - 1) as nat);
        assert(s[b - 1].kind == ObjSectionKind::Bss);
    }
}

/// The data of a section starts at the first multiple of four behind the headers, or
/// behind the data of the section with bytes before it. A section without bytes in the
/// file has no place in it.
pub proof fn lemma_data_layout(obj: ObjView, i: int)
    requires
        in_range(obj.sections),
        0 <= i < obj.sections.len(),
    ensures
        ({
            let s = obj.sections;
            let at = data_at(xcoff_file(obj), i);
            let head = 20 + 40 * s.len();
            &&& s[i].kind == ObjSectionKind::Bss ==> at == 0
            &&& s[i].kind != ObjSectionKind::Bss ==> {
                &&& at % 4 == 0
                &&& none_between(s, 0, i) ==> head <= at < head + 4
                &&& forall|j: int|
                    0 <= j < i && (#[trigger] s[j]).kind != ObjSectionKind::Bss && none_between(
                        s,
                        j + 1,
                        i,
                    ) ==> {
                        let end = data_at(xcoff_file(obj), j) + s[j].size as int
                            % 0x1_0000_0000;
                        end <= at < end + 4
                    }
            }
        }),
{
    let s = obj.sections;
    lemma_stated(obj, i);
    if has_data(s[i]) {
        lemma_offset(s, i);
        let end = data_end(s, i as nat);
        lemma_align4(end);
        if none_between(s, 0, i) {
            lemma_data_end_same(s, 0, i as nat);
        }
        assert forall|j: int|
            0 <= j < i && (#[trigger] s[j]).kind != ObjSectionKind::Bss && none_between(
                s,
                j + 1,
                i,
            ) implies {
            let end = data_at(xcoff_file(obj), j) + s[j].size as int % 0x1_0000_0000;
            end <= data_at(xcoff_file(obj), i) < end + 4
        } by {
            lemma_stated(obj, j);
            lemma_offset(s, j);
            lemma_data_end_same(s, (j + 1) as nat, i as nat);
        }
    }
}

proof fn lemma_offset(s: Seq<SectionView>, i: int)
    requires
        in_range(s),
        0 <= i < s.len(),
        has_data(s[i]),
    ensures
        data_offset(s, i) == align4(data_end(s, i as nat)),
        data_end(s, i as nat) >= 0,
{
    lemma_reloc_end_grows(s, 0, s.len());
    lemma_data_end_grows(s, i as nat, s.len());
    lemma_align4(data_end(s, i as nat));
    lemma_trunc32(align4(data_end(s, i as nat)));
}

/// The number of relocation entries of a section.
pub open spec fn entries_of(s: SectionView) -> int {
    written(s.relocations, s.relocations.len())
}

/// Whether no section from `a` up to `b` has relocation entries.
pub open spec fn no_entries(s: Seq<SectionView>, a: int, b: int) -> bool {
    forall|i: int| a <= i < b ==> entries_of(#[trigger] s[i]) == 0
}

proof fn lemma_reloc_end_same(s: Seq<SectionView>, a: nat, b: nat)
    requires
        a <= b <= s.len(),
        no_entries(s, a as int, b as int),
    ensures
        reloc_end(s, a) == reloc_end(s, b),
    decreases b,
{
    if a < b {
        lemma_reloc_end_same(s, a, (b - 1) as nat);
        let r = s[b - 1].relocations;
        assert(entries_of(s[b - 1]) == 0);
        lemma_written(r, r.len(), r.len());
    }
}

/// Where the data of the sections ends: behind the last section with bytes, or behind
/// the headers where there is none.
pub open spec fn is_data_end(obj: ObjView, file: Seq<u8>, end: int) -> bool {
    let s = obj.sections;
    let n = s.len() as int;
    &&& none_between(s, 0, n) ==> end == 20 + 40 * n
    &&& forall|j: int|
        0 <= j < n && (#[trigger] s[j]).kind != ObjSectionKind::Bss && none_between(s, j + 1, n)
            ==> end == data_at(file, j) + s[j].size as int % 0x1_0000_0000
}

proof fn lemma_data_ends(obj: ObjView)
    requires
        in_range(obj.sections),
    ensures
        is_data_end(obj, xcoff_file(obj), data_end(obj.sections, obj.sections.len())),
{
    let s = obj.sections;
    let n = s.len();
    if none_between(s, 0, n as int) {
        lemma_data_end_same(s, 0, n);
    }
    assert forall|j: int|
        0 <= j < n && (#[trigger] s[j]).kind != ObjSectionKind::Bss && none_between(
            s,
            j + 1,
            n as int,
        ) implies data_end(s, n) == data_at(xcoff_file(obj), j) + s[j].size as int
        % 0x1_0000_0000 by {
        lemma_stated(obj, j);
        lemma_offset(s, j);
        lemma_data_end_same(s, (j + 1) as nat, n);
    }
}

/// The relocation entries follow the data without a gap, those of one section behind
/// those of the one before it that has some; the symbol table follows them. A section
/// without entries says that it has none, nowhere.
pub proof fn lemma_entries_layout(obj: ObjView, i: int)
    requires
        in_range(obj.sections),
        0 <= i < obj.sections.len(),
    ensures
        ({
            let s = obj.sections;
            let file = xcoff_file(obj);
            let at = relocs_at(file, i);
            &&& number(file, 20 + 40 * i + 32, 2) == entries_of(s[i])
            &&& entries_of(s[i]) == 0 ==> at == 0
            &&& entries_of(s[i]) > 0 ==> {
                &&& no_entries(s, 0, i) ==> is_data_end(obj, file, at)
                &&& forall|j: int|
                    0 <= j < i && entries_of(#[trigger] s[j]) > 0 && no_entries(s, j + 1, i)
                        ==> at == relocs_at(file, j) + 10 * entries_of(s[j])
            }
        }),
{
    let s = obj.sections;
    let file = xcoff_file(obj);
    lemma_stated(obj, i);
    lemma_written(s[i].relocations, s[i].relocations.len(), s[i].relocations.len());
    if entries_of(s[i]) > 0 {
        lemma_reloc_place(s, i);
        if no_entries(s, 0, i) {
            lemma_reloc_end_same(s, 0, i as nat);
            lemma_data_ends(obj);
        }
        assert forall|j: int|
            0 <= j < i && entries_of(#[trigger] s[j]) > 0 && no_entries(s, j + 1, i) implies
            relocs_at(file, i) == relocs_at(file, j) + 10 * entries_of(s[j]) by {
            lemma_stated(obj, j);
            lemma_written(s[j].relocations, s[j].relocations.len(), s[j].relocations.len());
            lemma_reloc_place(s, j);
            lemma_reloc_end_same(s, (j + 1) as nat, i as nat);
        }
    }
}

proof fn lemma_reloc_place(s: Seq<SectionView>, i: int)
    requires
        in_range(s),
        0 <= i < s.len(),
        section_relocs(s[i]) > 0,
    ensures
        reloc_offset(s, i) == reloc_end(s, i as nat),
{
    lemma_reloc_end_grows(s, i as nat, s.len());
    lemma_trunc32(reloc_end(s, i as nat));
}

/// The file header: the magic number, the number of sections, no time, where the symbol
/// table stands and how many entries it has, no optional header, no flags. The symbol
/// table stands right behind the last relocation entries, or behind the data where there
/// are none; the string table, which starts with its length, ends the file.
pub proof fn lemma_header_layout(obj: ObjView)
    requires
        in_range(obj.sections),
        obj.sections.len() <= u16::MAX,
        2 * (obj.sections.len() + obj.symbols.len()) <= u32::MAX,
        strings(obj.symbols, obj.symbols.len()).len() <= u32::MAX,
    ensures
        ({
            let s = obj.sections;
            let n = s.len() as int;
            let file = xcoff_file(obj);
            let at = symbols_at(file);
            let behind = at + 36 * (obj.sections.len() + obj.symbols.len());
            &&& number(file, 0, 2) == 0x01DF
            &&& number(file, 2, 2) == n
            &&& number(file, 4, 4) == 0
            &&& number(file, 12, 4) == 2 * (obj.sections.len() + obj.symbols.len())
            &&& number(file, 16, 2) == 0
            &&& number(file, 18, 2) == 0
            &&& no_entries(s, 0, n) ==> is_data_end(obj, file, at)
            &&& forall|j: int|
                0 <= j < n && entries_of(#[trigger] s[j]) > 0 && no_entries(s, j + 1, n) ==> at
                    == relocs_at(file, j) + 10 * entries_of(s[j])
            &&& behind + 4 <= file.len()
            &&& number(file, behind, 4) == file.len() - behind
        }),
{
    let s = obj.sections;
    let n = s.len();
    let file = xcoff_file(obj);
    let own = file_header(obj);
    let head = own + section_headers(s, n);
    lemma_header_read(obj);
    lemma_headers_begin(obj);
    lemma_words(file, 0);
    lemma_words(file, 2);
    lemma_words(file, 8);
    lemma_words(file, 12);
    let count = trunc32(2 * (obj.sections.len() + obj.symbols.len()) as int);
    lemma_zero_fields(
        be16(crate::util::xcoff::MAGIC_32),
        be16(n as u16),
        be32(symtab_offset(s)),
        be32(count),
    );
    assert(file.subrange(0, 20) =~= own) by {
        lemma_begins_slice(head, file, 0, 20);
        assert(head.subrange(0, 20) =~= own);
    }
    lemma_part(file, own, 0, 4, 8);
    lemma_part(file, own, 0, 16, 18);
    lemma_part(file, own, 0, 18, 20);
    lemma_number32(file, 4, 0);
    lemma_number16(file, 16, 0);
    lemma_number16(file, 18, 0);
    lemma_reloc_end_grows(s, 0, n);
    lemma_trunc32(reloc_end(s, n));
    if no_entries(s, 0, n as int) {
        lemma_reloc_end_same(s, 0, n);
        lemma_data_ends(obj);
    }
    assert forall|j: int|
        0 <= j < n && entries_of(#[trigger] s[j]) > 0 && no_entries(s, j + 1, n as int) implies
        symbols_at(file) == relocs_at(file, j) + 10 * entries_of(s[j]) by {
        lemma_stated(obj, j);
        lemma_written(s[j].relocations, s[j].relocations.len(), s[j].relocations.len());
        lemma_reloc_place(s, j);
        lemma_reloc_end_same(s, (j + 1) as nat, n);
    }
    let behind = symtab_offset(s) + 36 * (obj.sections.len() + obj.symbols.len());
    lemma_words(file, behind);
}

proof fn lemma_zero_fields(a: Seq<u8>, b: Seq<u8>, d: Seq<u8>, e: Seq<u8>)
    requires
        a.len() == b.len() == 2,
        d.len() == e.len() == 4,
    ensures
        ({
            let s = a + b + be32(0) + d + e + be16(0) + be16(0);
            &&& s.len() == 20
            &&& s.subrange(4, 8) == be32(0)
            &&& s.subrange(16, 18) == be16(0)
            &&& s.subrange(18, 20) == be16(0)
        }),
{
    let s = a + b + be32(0) + d + e + be16(0) + be16(0);
    assert(s.subrange(4, 8) =~= be32(0));
    assert(s.subrange(16, 18) =~= be16(0));
    assert(s.subrange(18, 20) =~= be16(0));
}

/// A section header says that there are no line numbers.
pub proof fn lemma_no_lines(obj: ObjView, i: int)
    requires
        in_range(obj.sections),
        0 <= i < obj.sections.len(),
    ensures
        number(xcoff_file(obj), 20 + 40 * i + 28, 4) == 0,
        number(xcoff_file(obj), 20 + 40 * i + 34, 2) == 0,
{
    let file = xcoff_file(obj);
    let s = obj.sections;
    let h = section_header(s, i);
    let at = 20 + 40 * i;
    lemma_section_header_placed(obj, i);
    lemma_line_fields(
        crate::util::xcoff::fixed8(
            vstd::utf8::encode_utf8(crate::util::xcoff::xcoff_name(s[i].kind)),
        ),
        be32(low32(s[i].size)),
        be32(data_offset(s, i)),
        be32(reloc_offset(s, i)),
        be16(stated_relocs(s[i])),
        be32(crate::util::xcoff::xcoff_styp(s[i].kind) as u32),
    );
    lemma_part(file, h, at, 28, 32);
    lemma_part(file, h, at, 34, 36);
    lemma_number32(file, at + 28, 0);
    lemma_number16(file, at + 34, 0);
}

proof fn lemma_line_fields(
    name: Seq<u8>,
    size: Seq<u8>,
    data: Seq<u8>,
    relocs: Seq<u8>,
    count: Seq<u8>,
    styp: Seq<u8>,
)
    requires
        name.len() == 8,
        size.len() == data.len() == relocs.len() == styp.len() == 4,
        count.len() == 2,
    ensures
        ({
            let h = name + be32(0) + be32(0) + size + data + relocs + be32(0) + count + be16(0)
                + styp;
            &&& h.len() == 40
            &&& h.subrange(28, 32) == be32(0)
            &&& h.subrange(34, 36) == be16(0)
        }),
{
    let h = name + be32(0) + be32(0) + size + data + relocs + be32(0) + count + be16(0) + styp;
    assert(h.subrange(28, 32) =~= be32(0));
    assert(h.subrange(34, 36) =~= be16(0));
}

/// An object can be written where its sections can be numbered and every relocation
/// that can be written lies behind the address of its section and names a symbol.
pub proof fn lemma_ready(obj: ObjView)
    ensures
        xcoff_ready(obj) <==> obj.sections.len() <= 0x7FFF && forall|i: int, k: int|
            0 <= i < obj.sections.len() && 0 <= k < obj.sections[i].relocations.len()
                && is_written((#[trigger] obj.sections[i].relocations[k]).1.kind)
                ==> obj.sections[i].address <= obj.sections[i].relocations[k].0
                && obj.sections[i].relocations[k].1.target_symbol < obj.symbols.len(),
{
    if xcoff_ready(obj) {
        assert forall|i: int, k: int|
            0 <= i < obj.sections.len() && 0 <= k < obj.sections[i].relocations.len()
                && is_written((#[trigger] obj.sections[i].relocations[k]).1.kind) implies
            obj.sections[i].address <= obj.sections[i].relocations[k].0
            && obj.sections[i].relocations[k].1.target_symbol < obj.symbols.len() by {
            assert(reloc_ready(obj, obj.sections[i], obj.sections[i].relocations[k]));
        }
    }
}

} // verus!
