//! What a reader finds in an XCOFF file that was written: data, relocation fields,
//! relocation entries and symbols.
use vstd::prelude::*;
use vstd::utf8::*;

use crate::bytes::{be16, be32, be_u32, lemma_words, lemma_words_written, low32, number, unsigned16};
use crate::obj::{ObjReloc, ObjRelocKind, ObjSectionKind, ObjSymbolFlagSet, ObjView, SectionView};
use crate::util::xcoff::{
    XSym, csect, csect_entries, data_offset, fit, fixed8, is_long, label, label_entries,
    name_offset, patched, reloc_count, reloc_entries, reloc_offset, section_relocs, strings,
    stripped, symbol_entry, symtab_offset, trunc32, with_word, xcoff_file, xcoff_name, xcoff_styp,
    section_header, stated_relocs,
};
use crate::util::xcoff_laws::{
    in_range, lemma_csects_len, lemma_data_placed, lemma_header_read, lemma_labels_len,
    lemma_name_found, lemma_part, lemma_patched_len, lemma_reloc_entries_len, lemma_relocs_placed,
    lemma_section_header_placed, lemma_section_header_read, lemma_symbol_entry_len,
    lemma_symtab_placed, states_section,
};

verus! {

/// Whether a relocation can be written.
pub open spec fn is_written(kind: ObjRelocKind) -> bool {
    ||| kind == ObjRelocKind::Absolute
    ||| kind == ObjRelocKind::PpcRel24
    ||| kind == ObjRelocKind::PpcRel14
    ||| kind == ObjRelocKind::PpcAddr16Hi
    ||| kind == ObjRelocKind::PpcAddr16Ha
    ||| kind == ObjRelocKind::PpcAddr16Lo
}

/// Byte `j` of a section before relocation fields are set: zero behind its data.
pub open spec fn plain_byte(s: SectionView, j: int) -> u8 {
    if j < s.data.len() {
        s.data[j]
    } else {
        0
    }
}

/// Whether byte `j` of a section lies in the word that the relocation `e` changes.
pub open spec fn in_word(s: SectionView, e: (u32, ObjReloc), j: int) -> bool {
    is_written(e.1.kind) && e.0 - s.address <= j < e.0 - s.address + 4
}

/// Whether the word at the relocation `k` is changed by no other relocation.
pub open spec fn stands_alone(s: SectionView, k: int) -> bool {
    forall|m: int, j: int|
        0 <= m < s.relocations.len() && m != k && s.relocations[k].0 - s.address <= j
            < s.relocations[k].0 - s.address + 4 ==> !#[trigger] in_word(s, s.relocations[m], j)
}

/// Whether the word `v` is `w` with the field of a relocation set to what the linker
/// adds the load address to. The field of a branch holds the distance from the place
/// to the target plus the addend, in 26 or 16 bits without the lowest two; all other
/// bits of the instruction stay.
pub open spec fn field_set(
    kind: ObjRelocKind,
    w: int,
    v: int,
    addend: int,
    target: int,
    place: int,
) -> bool {
    let distance = target + addend - place;
    if kind == ObjRelocKind::Absolute {
        v == addend % 0x1_0000_0000
    } else if kind == ObjRelocKind::PpcRel24 {
        &&& v / 0x400_0000 == w / 0x400_0000
        &&& v % 4 == w % 4
        &&& v % 0x400_0000 / 4 == distance % 0x400_0000 / 4
    } else if kind == ObjRelocKind::PpcRel14 {
        &&& v / 0x1_0000 == w / 0x1_0000
        &&& v % 4 == w % 4
        &&& v % 0x1_0000 / 4 == distance % 0x1_0000 / 4
    } else if kind == ObjRelocKind::PpcAddr16Lo {
        &&& v / 0x1_0000 == w / 0x1_0000
        &&& v % 0x1_0000 == addend % 0x1_0000
    } else {
        &&& v / 0x1_0000 == w / 0x1_0000
        &&& v % 0x1_0000 == addend / 0x1_0000 % 0x1_0000
    }
}

proof fn lemma_bits(w: u32, b: u32)
    ensures
        ({
            let r = (w & !0x03fffffcu32) | (b & 0x03fffffcu32);
            r / 0x400_0000 == w / 0x400_0000 && r % 4 == w % 4 && r % 0x400_0000 / 4 == b
                % 0x400_0000 / 4
        }),
        ({
            let r = (w & !0x0000fffcu32) | (b & 0x0000fffcu32);
            r / 0x1_0000 == w / 0x1_0000 && r % 4 == w % 4 && r % 0x1_0000 / 4 == b % 0x1_0000 / 4
        }),
        ({
            let r = (w & !0x0000ffffu32) | (b & 0xffffu32);
            r / 0x1_0000 == w / 0x1_0000 && r % 0x1_0000 == b % 0x1_0000
        }),
        ({
            let r = (w & !0x0000ffffu32) | (b >> 16);
            r / 0x1_0000 == w / 0x1_0000 && r % 0x1_0000 == b / 0x1_0000
        }),
{
    assert({
        let r = (w & !0x03fffffcu32) | (b & 0x03fffffcu32);
        r / 0x400_0000 == w / 0x400_0000 && r % 4 == w % 4 && r % 0x400_0000 / 4 == b % 0x400_0000
            / 4
    }) by (bit_vector);
    assert({
        let r = (w & !0x0000fffcu32) | (b & 0x0000fffcu32);
        r / 0x1_0000 == w / 0x1_0000 && r % 4 == w % 4 && r % 0x1_0000 / 4 == b % 0x1_0000 / 4
    }) by (bit_vector);
    assert({
        let r = (w & !0x0000ffffu32) | (b & 0xffffu32);
        r / 0x1_0000 == w / 0x1_0000 && r % 0x1_0000 == b % 0x1_0000
    }) by (bit_vector);
    assert({
        let r = (w & !0x0000ffffu32) | (b >> 16);
        r / 0x1_0000 == w / 0x1_0000 && r % 0x1_0000 == b / 0x1_0000
    }) by (bit_vector);
}

/// Remainders of remainders.
proof fn lemma_cut(x: int)
    ensures
        x % 0x1_0000_0000 % 0x400_0000 == x % 0x400_0000,
        x % 0x1_0000_0000 % 0x1_0000 == x % 0x1_0000,
        x % 0x1_0000_0000 / 0x1_0000 == x / 0x1_0000 % 0x1_0000,
{
    vstd::arithmetic::div_mod::lemma_mod_mod(x, 0x400_0000, 64);
    vstd::arithmetic::div_mod::lemma_mod_mod(x, 0x1_0000, 0x1_0000);
    lemma_cut_high(x);
}

proof fn lemma_cut_high(x: int)
    ensures
        x % 0x1_0000_0000 / 0x1_0000 == x / 0x1_0000 % 0x1_0000,
{
}

/// The word that a relocation's field is set in.
proof fn lemma_stripped(kind: ObjRelocKind, w: u32, addend: i64, target: u64, place: int)
    requires
        is_written(kind),
    ensures
        field_set(
            kind,
            w as int,
            stripped(kind, w, trunc32(addend as int), low32(target), trunc32(place)) as int,
            addend as int,
            target as int,
            place,
        ),
{
    let a = trunc32(addend as int);
    let t = low32(target);
    let p = trunc32(place);
    let b = trunc32(t + a - p);
    let distance = target + addend - place;
    lemma_sum(target as int, addend as int, place);
    assert(b as int == distance % 0x1_0000_0000);
    if kind == ObjRelocKind::PpcRel24 || kind == ObjRelocKind::PpcRel14 {
        lemma_bits(w, b);
        lemma_cut(distance);
    } else if kind != ObjRelocKind::Absolute {
        lemma_bits(w, a);
        lemma_cut(addend as int);
    }
}

proof fn lemma_sum(t: int, a: int, p: int)
    ensures
        (t % 0x1_0000_0000 + a % 0x1_0000_0000 - p % 0x1_0000_0000) % 0x1_0000_0000 == (t + a - p)
            % 0x1_0000_0000,
{
}

proof fn lemma_same_word(a: Seq<u8>, b: Seq<u8>, at: int)
    requires
        forall|j: int| at <= j < at + 4 ==> #[trigger] a[j] == b[j],
    ensures
        number(a, at, 4) == number(b, at, 4),
{
    reveal_with_fuel(number, 5);
}

/// A byte that the first `n` relocations do not change.
proof fn lemma_untouched(obj: ObjView, s: SectionView, n: nat, j: int)
    requires
        n <= s.relocations.len(),
        0 <= j < low32(s.size),
        forall|k: int| 0 <= k < n ==> !in_word(s, #[trigger] s.relocations[k], j),
    ensures
        patched(obj, s, n).len() == low32(s.size),
        patched(obj, s, n)[j] == plain_byte(s, j),
    decreases n,
{
    lemma_patched_len(obj, s, n);
    if n > 0 {
        lemma_patched_len(obj, s, (n - 1) as nat);
        lemma_untouched(obj, s, (n - 1) as nat, j);
        assert(!in_word(s, s.relocations[n - 1], j));
    }
}

/// The word at the relocation `k` once the first `n` relocations are done.
proof fn lemma_field(obj: ObjView, s: SectionView, k: int, n: nat)
    requires
        0 <= k < n <= s.relocations.len(),
        is_written(s.relocations[k].1.kind),
        s.address <= s.relocations[k].0,
        s.relocations[k].0 - s.address + 4 <= low32(s.size),
        stands_alone(s, k),
    ensures
        ({
            let (addr, reloc) = s.relocations[k];
            let at = addr - s.address;
            field_set(
                reloc.kind,
                number(Seq::new(low32(s.size) as nat, |j: int| plain_byte(s, j)), at, 4),
                number(patched(obj, s, n), at, 4),
                reloc.addend as int,
                obj.symbols[reloc.target_symbol as int].address as int,
                at,
            )
        }),
    decreases n,
{
    let (addr, reloc) = s.relocations[k];
    let at = addr - s.address;
    let plain = Seq::new(low32(s.size) as nat, |j: int| plain_byte(s, j));
    let d = patched(obj, s, n);
    let below = patched(obj, s, (n - 1) as nat);
    lemma_patched_len(obj, s, n);
    lemma_patched_len(obj, s, (n - 1) as nat);
    if k == n - 1 {
        assert forall|j: int| at <= j < at + 4 implies #[trigger] below[j] == plain[j] by {
            assert forall|m: int| 0 <= m < k implies !in_word(s, #[trigger] s.relocations[m], j) by {}
            lemma_untouched(obj, s, k as nat, j);
        }
        lemma_same_word(below, plain, at);
        lemma_words(below, at);
        let w = be_u32(below, at);
        let target = obj.symbols[reloc.target_symbol as int].address;
        let v = stripped(
            reloc.kind,
            w,
            trunc32(reloc.addend as int),
            low32(target),
            trunc32(at),
        );
        assert(d == with_word(below, at, v));
        lemma_stripped(reloc.kind, w, reloc.addend, target, at);
        assert(d.subrange(at, at + 4) =~= be32(v));
        lemma_number32(d, at, v);
    } else {
        lemma_field(obj, s, k, (n - 1) as nat);
        assert forall|j: int| at <= j < at + 4 implies #[trigger] d[j] == below[j] by {
            assert(!in_word(s, s.relocations[n - 1], j));
        }
        lemma_same_word(d, below, at);
    }
}

/// A word that was written is read back.
pub(crate) proof fn lemma_number32(s: Seq<u8>, at: int, x: u32)
    requires
        0 <= at,
        at + 4 <= s.len(),
        s.subrange(at, at + 4) == be32(x),
    ensures
        number(s, at, 4) == x,
{
    let w = s.subrange(at, at + 4);
    lemma_words_written(x, 0, 0);
    assert(w[0] == s[at] && w[1] == s[at + 1] && w[2] == s[at + 2] && w[3] == s[at + 3]);
    reveal_with_fuel(number, 5);
}

pub(crate) proof fn lemma_number16(s: Seq<u8>, at: int, x: u16)
    requires
        0 <= at,
        at + 2 <= s.len(),
        s.subrange(at, at + 2) == be16(x),
    ensures
        number(s, at, 2) == x,
{
    let w = s.subrange(at, at + 2);
    lemma_words_written(0, x, 0);
    assert(w[0] == s[at] && w[1] == s[at + 1]);
    reveal_with_fuel(number, 3);
}

/// Where the header of section `i` says that its data stands.
pub open spec fn data_at(file: Seq<u8>, i: int) -> int {
    number(file, 20 + 40 * i + 20, 4)
}

/// Where the header of section `i` says that its relocation entries stand.
pub open spec fn relocs_at(file: Seq<u8>, i: int) -> int {
    number(file, 20 + 40 * i + 24, 4)
}

/// Where the file header says that the symbol table stands.
pub open spec fn symbols_at(file: Seq<u8>) -> int {
    number(file, 8, 4)
}

/// What the header of a section states, by its bytes.
pub(crate) proof fn lemma_stated(obj: ObjView, i: int)
    requires
        in_range(obj.sections),
        0 <= i < obj.sections.len(),
    ensures
        20 + 40 * i + 40 <= xcoff_file(obj).len(),
        number(xcoff_file(obj), 20 + 40 * i + 16, 4) == low32(obj.sections[i].size),
        data_at(xcoff_file(obj), i) == data_offset(obj.sections, i),
        relocs_at(xcoff_file(obj), i) == reloc_offset(obj.sections, i),
        number(xcoff_file(obj), 20 + 40 * i + 32, 2) == section_relocs(obj.sections[i]),
{
    lemma_section_header_read(obj, i);
    reveal(states_section);
    let file = xcoff_file(obj);
    lemma_words(file, 20 + 40 * i + 16);
    lemma_words(file, 20 + 40 * i + 20);
    lemma_words(file, 20 + 40 * i + 24);
    lemma_words(file, 20 + 40 * i + 32);
}

/// The byte of a section that no relocation changes is found in the file as it is in
/// the section, where the section's header says that the data stands.
pub proof fn lemma_data_read(obj: ObjView, i: int, j: int)
    requires
        in_range(obj.sections),
        0 <= i < obj.sections.len(),
        obj.sections[i].kind != ObjSectionKind::Bss,
        0 <= j < low32(obj.sections[i].size),
        forall|k: int|
            0 <= k < obj.sections[i].relocations.len() ==> !in_word(
                obj.sections[i],
                #[trigger] obj.sections[i].relocations[k],
                j,
            ),
    ensures
        0 <= data_at(xcoff_file(obj), i) + j < xcoff_file(obj).len(),
        xcoff_file(obj)[data_at(xcoff_file(obj), i) + j] == plain_byte(obj.sections[i], j),
{
    let s = obj.sections[i];
    let file = xcoff_file(obj);
    lemma_stated(obj, i);
    lemma_data_placed(obj, i);
    lemma_untouched(obj, s, s.relocations.len(), j);
    let at = data_offset(obj.sections, i) as int;
    let data = file.subrange(at, at + low32(s.size));
    assert(data[j] == file[at + j]);
}

/// The word of a relocation that stands alone is found in the file with its field set
/// for the linker, and with all other bits of the section's own word.
pub proof fn lemma_field_read(obj: ObjView, i: int, k: int)
    requires
        in_range(obj.sections),
        0 <= i < obj.sections.len(),
        obj.sections[i].kind != ObjSectionKind::Bss,
        0 <= k < obj.sections[i].relocations.len(),
        is_written(obj.sections[i].relocations[k].1.kind),
        obj.sections[i].address <= obj.sections[i].relocations[k].0,
        obj.sections[i].relocations[k].0 - obj.sections[i].address + 4 <= low32(
            obj.sections[i].size,
        ),
        stands_alone(obj.sections[i], k),
    ensures
        ({
            let s = obj.sections[i];
            let (addr, reloc) = s.relocations[k];
            let place = addr - s.address;
            let at = data_at(xcoff_file(obj), i) + place;
            let plain = Seq::new(low32(s.size) as nat, |j: int| plain_byte(s, j));
            &&& 0 <= at && at + 4 <= xcoff_file(obj).len()
            &&& field_set(
                reloc.kind,
                number(plain, place, 4),
                number(xcoff_file(obj), at, 4),
                reloc.addend as int,
                obj.symbols[reloc.target_symbol as int].address as int,
                place,
            )
        }),
{
    let s = obj.sections[i];
    let (addr, reloc) = s.relocations[k];
    let place = addr - s.address;
    let file = xcoff_file(obj);
    let n = s.relocations.len();
    lemma_stated(obj, i);
    lemma_data_placed(obj, i);
    lemma_field(obj, s, k, n);
    let at = data_offset(obj.sections, i) as int;
    let data = patched(obj, s, n);
    lemma_patched_len(obj, s, n);
    assert(data == file.subrange(at, at + low32(s.size)));
    lemma_shifted(file, data, at, place);
}

pub(crate) proof fn lemma_shifted(file: Seq<u8>, data: Seq<u8>, at: int, place: int)
    requires
        0 <= at,
        at + data.len() <= file.len(),
        data == file.subrange(at, at + data.len()),
        0 <= place,
        place + 4 <= data.len(),
    ensures
        number(file, at + place, 4) == number(data, place, 4),
{
    reveal_with_fuel(number, 5);
}

/// The type and size codes of a relocation entry.
pub open spec fn entry_codes(kind: ObjRelocKind) -> (u8, u8) {
    if kind == ObjRelocKind::Absolute {
        (0x00, 31)
    } else if kind == ObjRelocKind::PpcRel24 {
        (0x0a, 25)
    } else if kind == ObjRelocKind::PpcRel14 {
        (0x1a, 15)
    } else if kind == ObjRelocKind::PpcAddr16Lo {
        (0x31, 15)
    } else {
        (0x30, 15)
    }
}

/// How many of the first `n` relocations are written.
pub open spec fn written(r: Seq<(u32, ObjReloc)>, n: nat) -> int
    decreases n,
{
    if n == 0 {
        0
    } else {
        written(r, (n - 1) as nat) + (if is_written(r[n - 1].1.kind) {
            1int
        } else {
            0
        })
    }
}

pub(crate) proof fn lemma_written(r: Seq<(u32, ObjReloc)>, k: nat, n: nat)
    requires
        k <= n,
    ensures
        written(r, n) == reloc_count(r, n),
        0 <= written(r, k) <= written(r, n),
        k < n && is_written(r[k as int].1.kind) ==> written(r, k) < written(r, n),
    decreases n,
{
    if n > 0 {
        lemma_written(
            r,
            if k < n {
                k
            } else {
                (n - 1) as nat
            },
            (n - 1) as nat,
        );
    }
}

/// Whether the ten bytes at `at` are the entry of a relocation: its place in the
/// section, the symbol table index of its target, and its size and type.
#[verifier::opaque]
pub open spec fn is_entry(
    obj: ObjView,
    s: SectionView,
    e: (u32, ObjReloc),
    d: Seq<u8>,
    at: int,
) -> bool {
    &&& 0 <= at && at + 10 <= d.len()
    &&& number(d, at, 4) == (e.0 - s.address) % 0x1_0000_0000
    &&& number(d, at + 4, 4) == (2 * (obj.sections.len() + e.1.target_symbol)) % 0x1_0000_0000
    &&& d[at + 8] == entry_codes(e.1.kind).1
    &&& d[at + 9] == entry_codes(e.1.kind).0
}

proof fn lemma_entry(obj: ObjView, s: SectionView, k: int, n: nat)
    requires
        0 <= k < n <= s.relocations.len(),
        is_written(s.relocations[k].1.kind),
    ensures
        is_entry(
            obj,
            s,
            s.relocations[k],
            reloc_entries(obj, s, n),
            10 * written(s.relocations, k as nat),
        ),
    decreases n,
{
    reveal(is_entry);
    let below = reloc_entries(obj, s, (n - 1) as nat);
    let all = reloc_entries(obj, s, n);
    lemma_reloc_entries_len(obj, s, (n - 1) as nat);
    lemma_reloc_entries_len(obj, s, n);
    lemma_written(s.relocations, (n - 1) as nat, (n - 1) as nat);
    let (addr, reloc) = s.relocations[n - 1];
    let at = 10 * written(s.relocations, k as nat);
    if k == n - 1 {
        let place = trunc32(addr - s.address);
        let index = trunc32(2 * (obj.sections.len() + reloc.target_symbol));
        assert(all.subrange(at, at + 4) =~= be32(place));
        assert(all.subrange(at + 4, at + 8) =~= be32(index));
        lemma_number32(all, at, place);
        lemma_number32(all, at + 4, index);
    } else {
        lemma_entry(obj, s, k, (n - 1) as nat);
        assert forall|j: int| 0 <= j < below.len() implies #[trigger] all[j] == below[j] by {}
        lemma_same_word(all, below, at);
        lemma_same_word(all, below, at + 4);
    }
}

/// The relocation entries of a section, in order and without those that cannot be
/// written, are found where the section's header says; the header says how many they
/// are.
pub proof fn lemma_entry_read(obj: ObjView, i: int, k: int)
    requires
        in_range(obj.sections),
        0 <= i < obj.sections.len(),
        0 <= k < obj.sections[i].relocations.len(),
        is_written(obj.sections[i].relocations[k].1.kind),
    ensures
        ({
            let s = obj.sections[i];
            let file = xcoff_file(obj);
            &&& number(file, 20 + 40 * i + 32, 2) == written(s.relocations, s.relocations.len())
            &&& is_entry(
                obj,
                s,
                s.relocations[k],
                file,
                relocs_at(file, i) + 10 * written(s.relocations, k as nat),
            )
        }),
{
    let s = obj.sections[i];
    let n = s.relocations.len();
    lemma_written(s.relocations, k as nat, n);
    lemma_entries_found(obj, i);
    lemma_entry(obj, s, k, n);
    lemma_entry_moved(
        obj,
        s,
        s.relocations[k],
        xcoff_file(obj),
        reloc_entries(obj, s, n),
        relocs_at(xcoff_file(obj), i),
        10 * written(s.relocations, k as nat),
    );
}

/// Where the relocation entries of a section are found.
proof fn lemma_entries_found(obj: ObjView, i: int)
    requires
        in_range(obj.sections),
        0 <= i < obj.sections.len(),
        section_relocs(obj.sections[i]) > 0,
    ensures
        ({
            let s = obj.sections[i];
            let file = xcoff_file(obj);
            let at = relocs_at(file, i);
            let entries = reloc_entries(obj, s, s.relocations.len());
            &&& number(file, 20 + 40 * i + 32, 2) == section_relocs(s)
            &&& 0 <= at
            &&& at + entries.len() <= file.len()
            &&& entries == file.subrange(at, at + entries.len())
        }),
{
    let s = obj.sections[i];
    lemma_stated(obj, i);
    lemma_relocs_placed(obj, i);
    lemma_reloc_entries_len(obj, s, s.relocations.len());
    assert(stated_relocs(s) == section_relocs(s));
}

proof fn lemma_entry_moved(
    obj: ObjView,
    s: SectionView,
    e: (u32, ObjReloc),
    file: Seq<u8>,
    entries: Seq<u8>,
    at: int,
    place: int,
)
    requires
        0 <= at,
        at + entries.len() <= file.len(),
        entries == file.subrange(at, at + entries.len()),
        is_entry(obj, s, e, entries, place),
    ensures
        is_entry(obj, s, e, file, at + place),
{
    reveal(is_entry);
    lemma_shifted(file, entries, at, place);
    lemma_shifted(file, entries, at, place + 4);
    assert(entries[place + 8] == file[at + place + 8]);
    assert(entries[place + 9] == file[at + place + 9]);
}

/// Whether the bytes at `at` state a name: up to eight bytes as they are, filled up
/// with zero bytes, and a longer one by its offset in the string table at `table`.
#[verifier::opaque]
pub open spec fn states_name(d: Seq<u8>, at: int, table: int, name: Seq<char>) -> bool {
    let bytes = encode_utf8(name);
    if bytes.len() <= 8 {
        forall|j: int|
            0 <= j < 8 ==> #[trigger] d[at + j] == (if j < bytes.len() {
                bytes[j]
            } else {
                0
            })
    } else {
        let off = table + number(d, at + 4, 4);
        &&& number(d, at, 4) == 0
        &&& off + bytes.len() < d.len()
        &&& d.subrange(off, (off + bytes.len()) as int) == bytes
        &&& d[(off + bytes.len()) as int] == 0
    }
}

/// Whether the 36 bytes at `at` state, behind the name, a symbol's value, section
/// number and storage class, and in its csect entry a length, a symbol type and a
/// mapping class.
#[verifier::opaque]
pub open spec fn states_symbol(
    d: Seq<u8>,
    at: int,
    value: int,
    section: int,
    class: int,
    len: int,
    typ: int,
    mapping: int,
) -> bool {
    &&& 0 <= at && at + 36 <= d.len()
    &&& number(d, at + 8, 4) == value
    &&& number(d, at + 12, 2) == section
    &&& number(d, at + 14, 2) == 0
    &&& d[at + 16] == class
    &&& d[at + 17] == 1
    &&& number(d, at + 18, 4) == len
    &&& number(d, at + 22, 4) == 0
    &&& number(d, at + 26, 2) == 0
    &&& d[at + 28] == typ
    &&& d[at + 29] == mapping
    &&& number(d, at + 30, 4) == 0
    &&& number(d, at + 34, 2) == 0
}

/// The twelve pieces of a symbol's entries.
proof fn lemma_pieces(
    name: Seq<u8>,
    value: u32,
    section: u16,
    class: u8,
    len: u32,
    typ: u8,
    mapping: u8,
)
    requires
        name.len() == 8,
    ensures
        ({
            let d = name + be32(value) + be16(section) + be16(0) + seq![class, 1u8] + be32(len)
                + be32(0) + be16(0) + seq![typ, mapping] + be32(0) + be16(0);
            &&& d.subrange(0, 8) == name
            &&& states_symbol(
                d,
                0,
                value as int,
                section as int,
                class as int,
                len as int,
                typ as int,
                mapping as int,
            )
        }),
{
    reveal(states_symbol);
    let a = name + be32(value) + be16(section) + be16(0) + seq![class, 1u8];
    let b = be32(len) + be32(0) + be16(0) + seq![typ, mapping] + be32(0) + be16(0);
    let d = name + be32(value) + be16(section) + be16(0) + seq![class, 1u8] + be32(len) + be32(0)
        + be16(0) + seq![typ, mapping] + be32(0) + be16(0);
    assert(d =~= a + b);
    assert(d.subrange(0, 8) =~= name);
    assert(d.subrange(8, 12) =~= be32(value));
    assert(d.subrange(12, 14) =~= be16(section));
    assert(d.subrange(14, 16) =~= be16(0));
    assert(d.subrange(18, 22) =~= be32(len));
    assert(d.subrange(22, 26) =~= be32(0));
    assert(d.subrange(26, 28) =~= be16(0));
    assert(d.subrange(30, 34) =~= be32(0));
    assert(d.subrange(34, 36) =~= be16(0));
    lemma_number32(d, 8, value);
    lemma_number16(d, 12, section);
    lemma_number16(d, 14, 0);
    lemma_number32(d, 18, len);
    lemma_number32(d, 22, 0);
    lemma_number16(d, 26, 0);
    lemma_number32(d, 30, 0);
    lemma_number16(d, 34, 0);
}

/// The entries of a symbol that stand at `at`.
proof fn lemma_symbol_moved(
    file: Seq<u8>,
    d: Seq<u8>,
    at: int,
    value: int,
    section: int,
    class: int,
    len: int,
    typ: int,
    mapping: int,
)
    requires
        d.len() == 36,
        0 <= at,
        at + 36 <= file.len(),
        file.subrange(at, at + 36) == d,
        states_symbol(d, 0, value, section, class, len, typ, mapping),
    ensures
        states_symbol(file, at, value, section, class, len, typ, mapping),
{
    reveal(states_symbol);
    assert forall|j: int| 0 <= j < 36 implies #[trigger] d[j] == file[at + j] by {}
    lemma_shifted(file, d, at, 8);
    lemma_shifted_half(file, d, at, 12);
    lemma_shifted_half(file, d, at, 14);
    lemma_shifted(file, d, at, 18);
    lemma_shifted(file, d, at, 22);
    lemma_shifted_half(file, d, at, 26);
    lemma_shifted(file, d, at, 30);
    lemma_shifted_half(file, d, at, 34);
    assert(d[16] == file[at + 16] && d[17] == file[at + 17] && d[28] == file[at + 28] && d[29]
        == file[at + 29]);
}

proof fn lemma_shifted_half(file: Seq<u8>, data: Seq<u8>, at: int, place: int)
    requires
        0 <= at,
        at + data.len() <= file.len(),
        data == file.subrange(at, at + data.len()),
        0 <= place,
        place + 2 <= data.len(),
    ensures
        number(file, at + place, 2) == number(data, place, 2),
{
    reveal_with_fuel(number, 3);
}

/// What the entries of a symbol state.
proof fn lemma_symbol_entry(x: XSym)
    ensures
        symbol_entry(x).len() == 36,
        symbol_entry(x).subrange(0, 8) == (if is_long(x.name) {
            be32(0) + be32(x.str_off)
        } else {
            fixed8(encode_utf8(x.name))
        }),
        states_symbol(
            symbol_entry(x),
            0,
            x.value as int,
            unsigned16(x.scnum) as int,
            x.sclass as int,
            x.scnlen as int,
            x.smtyp as int,
            x.smclas as int,
        ),
{
    let name = if is_long(x.name) {
        be32(0) + be32(x.str_off)
    } else {
        fixed8(encode_utf8(x.name))
    };
    lemma_symbol_entry_len(x);
    lemma_pieces(name, x.value, unsigned16(x.scnum), x.sclass, x.scnlen, x.smtyp, x.smclas);
}

proof fn lemma_csect_at(s: Seq<SectionView>, i: int, n: nat)
    requires
        0 <= i < n,
    ensures
        36 * i + 36 <= csect_entries(s, n).len(),
        csect_entries(s, n).subrange(36 * i, 36 * i + 36) == symbol_entry(csect(s[i], i)),
    decreases n,
{
    lemma_csects_len(s, n);
    lemma_csects_len(s, (n - 1) as nat);
    lemma_symbol_entry_len(csect(s[n - 1], n - 1));
    let below = csect_entries(s, (n - 1) as nat);
    let all = csect_entries(s, n);
    if i < n - 1 {
        lemma_csect_at(s, i, (n - 1) as nat);
        assert(all.subrange(36 * i, 36 * i + 36) =~= below.subrange(36 * i, 36 * i + 36));
    } else {
        assert(all.subrange(36 * i, 36 * i + 36) =~= symbol_entry(csect(s[i], i)));
    }
}

proof fn lemma_label_at(obj: ObjView, j: int, n: nat)
    requires
        0 <= j < n,
    ensures
        36 * j + 36 <= label_entries(obj, n).len(),
        label_entries(obj, n).subrange(36 * j, 36 * j + 36) == symbol_entry(
            label(obj, obj.symbols[j], name_offset(obj.symbols, j)),
        ),
    decreases n,
{
    lemma_labels_len(obj, n);
    lemma_labels_len(obj, (n - 1) as nat);
    lemma_symbol_entry_len(label(obj, obj.symbols[n - 1], name_offset(obj.symbols, n - 1)));
    let below = label_entries(obj, (n - 1) as nat);
    let all = label_entries(obj, n);
    if j < n - 1 {
        lemma_label_at(obj, j, (n - 1) as nat);
        assert(all.subrange(36 * j, 36 * j + 36) =~= below.subrange(36 * j, 36 * j + 36));
    } else {
        assert(all.subrange(36 * j, 36 * j + 36) =~= symbol_entry(
            label(obj, obj.symbols[j], name_offset(obj.symbols, j)),
        ));
    }
}

/// The mapping class of what a section holds.
pub open spec fn mapping_class(kind: ObjSectionKind) -> int {
    match kind {
        ObjSectionKind::Code => 0,
        ObjSectionKind::ReadOnlyData => 1,
        ObjSectionKind::Data => 5,
        ObjSectionKind::Bss => 9,
    }
}

/// The name that sections of a kind are merged by, and their type.
pub open spec fn merged_name(kind: ObjSectionKind) -> (Seq<char>, int) {
    match kind {
        ObjSectionKind::Code | ObjSectionKind::ReadOnlyData => (".text"@, 0x20),
        ObjSectionKind::Data => (".data"@, 0x40),
        ObjSectionKind::Bss => (".bss"@, 0x80),
    }
}

/// The storage class of a symbol: that of an external one, unless it is defined and
/// weak, or defined and local alone.
pub open spec fn linkage(flags: ObjSymbolFlagSet, defined: bool) -> int {
    if defined && flags.weak {
        111
    } else if defined && flags.local && !flags.exported && !flags.global {
        107
    } else {
        2
    }
}

/// Where the string table starts.
pub open spec fn table_at(obj: ObjView, file: Seq<u8>) -> int {
    symbols_at(file) + 36 * (obj.sections.len() + obj.symbols.len())
}

/// Whether the counts and offsets of an object fit into the fields of the file.
pub open spec fn fits(obj: ObjView) -> bool {
    &&& in_range(obj.sections)
    &&& obj.sections.len() <= i16::MAX
    &&& 2 * (obj.sections.len() + obj.symbols.len()) <= u32::MAX
    &&& strings(obj.symbols, obj.symbols.len()).len() <= u32::MAX
}

/// What the symbol table holds, at the place that the file header states.
pub(crate) proof fn lemma_table(obj: ObjView)
    requires
        fits(obj),
    ensures
        ({
            let file = xcoff_file(obj);
            let at = symbols_at(file);
            &&& at == symtab_offset(obj.sections)
            &&& 0 <= at <= table_at(obj, file) <= file.len()
            &&& file.subrange(at, table_at(obj, file)) == csect_entries(
                obj.sections,
                obj.sections.len(),
            ) + label_entries(obj, obj.symbols.len())
            &&& file.skip(table_at(obj, file)) == crate::util::xcoff::finished(
                strings(obj.symbols, obj.symbols.len()),
            )
        }),
{
    lemma_header_read(obj);
    lemma_words(xcoff_file(obj), 8);
    lemma_symtab_placed(obj);
}

/// Where the entries of the section symbol `i` stand.
proof fn lemma_csect_place(obj: ObjView, i: int)
    requires
        fits(obj),
        0 <= i < obj.sections.len(),
    ensures
        ({
            let file = xcoff_file(obj);
            let at = symbols_at(file) + 36 * i;
            &&& 0 <= at
            &&& at + 36 <= file.len()
            &&& file.subrange(at, at + 36) == symbol_entry(csect(obj.sections[i], i))
        }),
{
    let file = xcoff_file(obj);
    let n = obj.sections.len();
    let base = symbols_at(file);
    lemma_table(obj);
    lemma_csects_len(obj.sections, n);
    lemma_csect_at(obj.sections, i, n);
    let table = csect_entries(obj.sections, n) + label_entries(obj, obj.symbols.len());
    lemma_labels_len(obj, obj.symbols.len());
    assert(table.subrange(36 * i, 36 * i + 36) =~= csect_entries(obj.sections, n).subrange(
        36 * i,
        36 * i + 36,
    ));
    lemma_part(file, table, base, 36 * i, 36 * i + 36);
}

/// The first symbols of the file are those that span the sections, in order: nameable
/// by the section's merged name, at 0, of the section's number and size, and with the
/// mapping class of what the section holds.
pub proof fn lemma_csect_read(obj: ObjView, i: int)
    requires
        fits(obj),
        0 <= i < obj.sections.len(),
    ensures
        ({
            let file = xcoff_file(obj);
            let s = obj.sections[i];
            let at = symbols_at(file) + 36 * i;
            &&& states_symbol(
                file,
                at,
                0,
                i + 1,
                107,
                s.size as int % 0x1_0000_0000,
                1,
                mapping_class(s.kind),
            )
            &&& states_name(file, at, table_at(obj, file), merged_name(s.kind).0)
        }),
{
    let file = xcoff_file(obj);
    let s = obj.sections[i];
    let at = symbols_at(file) + 36 * i;
    let x = csect(s, i);
    let d = symbol_entry(x);
    lemma_csect_place(obj, i);
    lemma_symbol_entry(x);
    lemma_symbol_moved(
        file,
        d,
        at,
        0,
        i + 1,
        107,
        s.size as int % 0x1_0000_0000,
        1,
        mapping_class(s.kind),
    );
    lemma_short_names();
    lemma_name_moved(file, d, at, table_at(obj, file), x.name);
}

/// The merged names are short.
proof fn lemma_short_names()
    ensures
        !is_long(".text"@),
        !is_long(".data"@),
        !is_long(".bss"@),
{
    reveal_strlit(".text");
    reveal_strlit(".data");
    reveal_strlit(".bss");
    is_ascii_chars_encode_utf8(".text"@);
    is_ascii_chars_encode_utf8(".data"@);
    is_ascii_chars_encode_utf8(".bss"@);
}

/// A short name that stands at `at`.
proof fn lemma_name_moved(file: Seq<u8>, d: Seq<u8>, at: int, table: int, name: Seq<char>)
    requires
        d.len() == 36,
        0 <= at,
        at + 36 <= file.len(),
        file.subrange(at, at + 36) == d,
        !is_long(name),
        d.subrange(0, 8) == fixed8(encode_utf8(name)),
    ensures
        states_name(file, at, table, name),
{
    reveal(states_name);
    let bytes = encode_utf8(name);
    assert forall|j: int| 0 <= j < 8 implies #[trigger] file[at + j] == (if j < bytes.len() {
        bytes[j]
    } else {
        0
    }) by {
        assert(d[j] == file[at + j]);
        assert(d.subrange(0, 8)[j] == d[j]);
    }
}

/// A long name whose offset stands at `at`.
proof fn lemma_long_name(obj: ObjView, at: int, j: int)
    requires
        fits(obj),
        0 <= j < obj.symbols.len(),
        is_long(obj.symbols[j].name),
        0 <= at,
        at + 8 <= xcoff_file(obj).len(),
        xcoff_file(obj).subrange(at, at + 8) == be32(0) + be32(name_offset(obj.symbols, j)),
    ensures
        states_name(
            xcoff_file(obj),
            at,
            table_at(obj, xcoff_file(obj)),
            obj.symbols[j].name,
        ),
{
    reveal(states_name);
    let file = xcoff_file(obj);
    let bytes = encode_utf8(obj.symbols[j].name);
    let off = name_offset(obj.symbols, j);
    let eight = file.subrange(at, at + 8);
    lemma_table(obj);
    lemma_name_found(obj.symbols, j);
    let base = table_at(obj, file);
    let strs = file.skip(base);
    assert(file.subrange(at, at + 4) =~= eight.subrange(0, 4));
    assert(file.subrange(at + 4, at + 8) =~= eight.subrange(4, 8));
    assert(eight.subrange(0, 4) =~= be32(0));
    assert(eight.subrange(4, 8) =~= be32(off));
    lemma_number32(file, at, 0);
    lemma_number32(file, at + 4, off);
    let name = bytes.push(0);
    let found = strs.subrange(off as int, (off + name.len()) as int);
    assert(found == name);
    assert(file.subrange(base + off, (base + off + bytes.len()) as int) =~= bytes) by {
        assert forall|m: int| 0 <= m < bytes.len() implies #[trigger] bytes[m] == file[base + off
            + m] by {
            assert(found[m] == name[m]);
            assert(found[m] == strs[off + m]);
        }
    }
    assert(found[bytes.len() as int] == name[bytes.len() as int]);
    assert(found[bytes.len() as int] == strs[(off + bytes.len()) as int]);
}

/// Behind them stand the symbols of the object, in order. One that is defined states
/// its address, its section's number and, as its csect, the symbol that spans the
/// section; any other one is a reference.
pub proof fn lemma_symbol_read(obj: ObjView, j: int)
    requires
        fits(obj),
        0 <= j < obj.symbols.len(),
    ensures
        ({
            let file = xcoff_file(obj);
            let sym = obj.symbols[j];
            let at = symbols_at(file) + 36 * (obj.sections.len() + j);
            let address = sym.address as int % 0x1_0000_0000;
            &&& states_name(file, at, table_at(obj, file), sym.name)
            &&& match sym.section {
                Some(i) if i < obj.sections.len() => states_symbol(
                    file,
                    at,
                    address,
                    i + 1,
                    linkage(sym.flags, true),
                    2 * i,
                    2,
                    mapping_class(obj.sections[i as int].kind),
                ),
                _ => states_symbol(file, at, address, 0, 2, 0, 0, 0),
            }
        }),
{
    let file = xcoff_file(obj);
    let n = obj.sections.len();
    let sym = obj.symbols[j];
    let base = symbols_at(file);
    let at = base + 36 * (n + j);
    let x = label(obj, sym, name_offset(obj.symbols, j));
    let d = symbol_entry(x);
    lemma_table(obj);
    lemma_csects_len(obj.sections, n);
    lemma_labels_len(obj, obj.symbols.len());
    lemma_label_at(obj, j, obj.symbols.len());
    lemma_symbol_entry(x);
    let labels = label_entries(obj, obj.symbols.len());
    let table = csect_entries(obj.sections, n) + labels;
    assert(table.subrange(36 * (n + j), 36 * (n + j) + 36) =~= labels.subrange(36 * j, 36 * j + 36));
    lemma_part(file, table, base, 36 * (n + j), 36 * (n + j) + 36);
    lemma_symbol_moved(
        file,
        d,
        at,
        x.value as int,
        unsigned16(x.scnum) as int,
        x.sclass as int,
        x.scnlen as int,
        x.smtyp as int,
        x.smclas as int,
    );
    if is_long(sym.name) {
        assert(file.subrange(at, at + 8) =~= d.subrange(0, 8));
        lemma_long_name(obj, at, j);
    } else {
        lemma_name_moved(file, d, at, table_at(obj, file), sym.name);
    }
}

/// The header of a section states the merged name and type of what the section holds,
/// no address, and its size.
pub proof fn lemma_section_read(obj: ObjView, i: int)
    requires
        in_range(obj.sections),
        0 <= i < obj.sections.len(),
    ensures
        ({
            let file = xcoff_file(obj);
            let s = obj.sections[i];
            let at = 20 + 40 * i;
            &&& at + 40 <= file.len()
            &&& states_name(file, at, 0, merged_name(s.kind).0)
            &&& number(file, at + 8, 4) == 0
            &&& number(file, at + 12, 4) == 0
            &&& number(file, at + 16, 4) == s.size as int % 0x1_0000_0000
            &&& number(file, at + 36, 4) == merged_name(s.kind).1
        }),
{
    let file = xcoff_file(obj);
    let s = obj.sections[i];
    let at = 20 + 40 * i;
    lemma_stated(obj, i);
    lemma_section_header_placed(obj, i);
    let h = section_header(obj.sections, i);
    lemma_header_pieces(
        fixed8(encode_utf8(xcoff_name(s.kind))),
        low32(s.size),
        data_offset(obj.sections, i),
        reloc_offset(obj.sections, i),
        stated_relocs(s),
        xcoff_styp(s.kind) as u32,
    );
    lemma_shifted(file, h, at, 8);
    lemma_shifted(file, h, at, 12);
    lemma_shifted(file, h, at, 36);
    lemma_short_names();
    let bytes = encode_utf8(xcoff_name(s.kind));
    reveal(states_name);
    assert forall|j: int| 0 <= j < 8 implies #[trigger] file[at + j] == (if j < bytes.len() {
        bytes[j]
    } else {
        0
    }) by {
        assert(h[j] == file[at + j]);
        assert(h.subrange(0, 8)[j] == h[j]);
    }
}

/// The pieces of a section header.
proof fn lemma_header_pieces(name: Seq<u8>, size: u32, data: u32, relocs: u32, count: u16, styp: u32)
    requires
        name.len() == 8,
    ensures
        ({
            let h = name + be32(0) + be32(0) + be32(size) + be32(data) + be32(relocs) + be32(0)
                + be16(count) + be16(0) + be32(styp);
            &&& h.len() == 40
            &&& h.subrange(0, 8) == name
            &&& number(h, 8, 4) == 0
            &&& number(h, 12, 4) == 0
            &&& number(h, 36, 4) == styp
        }),
{
    let h = name + be32(0) + be32(0) + be32(size) + be32(data) + be32(relocs) + be32(0) + be16(
        count,
    ) + be16(0) + be32(styp);
    assert(h.subrange(0, 8) =~= name);
    assert(h.subrange(8, 12) =~= be32(0));
    assert(h.subrange(12, 16) =~= be32(0));
    assert(h.subrange(36, 40) =~= be32(styp));
    lemma_number32(h, 8, 0);
    lemma_number32(h, 12, 0);
    lemma_number32(h, 36, styp);
}

} // verus!
