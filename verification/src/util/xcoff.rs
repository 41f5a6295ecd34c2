//! XCOFF32 PowerPC relocatable object writer.
//!
//! Writes minimal XCOFF32 big-endian PowerPC relocatable files for the linkers
//! that build PEF binaries (MPW `PPCLink`, CodeWarrior Pro Mac `MWLinker PPC`).
use vstd::prelude::*;
use vstd::utf8::*;

use crate::addr_map::{AddrMap, lemma_ascending_len};
use crate::bytes::{be16, be32, be_u32, low32, low_word, read_be_u32, unsigned16};
use crate::obj::{
    ObjError, ObjInfo, ObjReloc, ObjRelocKind, ObjSection, ObjSectionKind, ObjSymbolFlagSet,
    ObjView, SectionView, SymbolView,
};

verus! {

/// Size of a symbol table entry.
pub const SYM_SIZE: u64 = 18;

/// Size of a relocation entry.
pub const RLD_SIZE: u64 = 10;

/// Size of a section header.
pub const SEC_HDR_SIZE: u64 = 40;

/// Size of the file header.
pub const FILE_HDR_SIZE: u64 = 20;

/// `MAGIC_32` of the format.
pub const MAGIC_32: u16 = 0x01DF;

/// Section type: text.
pub const STYP_TEXT: u16 = 0x20;

/// Section type: data.
pub const STYP_DATA: u16 = 0x40;

/// Section type: bss.
pub const STYP_BSS: u16 = 0x80;

/// Storage class: external symbol.
pub const C_EXT: u8 = 2;

/// Storage class: unnamed external symbol.
pub const C_HIDEXT: u8 = 107;

/// Storage class: weak external symbol.
pub const C_WEAKEXT: u8 = 111;

/// Symbol type: external reference.
pub const XTY_ER: u8 = 0;

/// Symbol type: csect definition.
pub const XTY_SD: u8 = 1;

/// Symbol type: label in a csect.
pub const XTY_LD: u8 = 2;

/// Storage mapping class: program code.
pub const XMC_PR: u8 = 0;

/// Storage mapping class: read-only constant.
pub const XMC_RO: u8 = 1;

/// Storage mapping class: read-write data.
pub const XMC_RW: u8 = 5;

/// Storage mapping class: bss.
pub const XMC_BS: u8 = 9;

/// Relocation type: absolute address.
pub const R_POS: u8 = 0x00;

/// Relocation type: branch.
pub const R_BR: u8 = 0x0A;

/// Relocation type: modifiable relative branch.
pub const R_RBR: u8 = 0x1A;

/// Relocation type: high half of a TOC address.
pub const R_TOCU: u8 = 0x30;

/// Relocation type: low half of a TOC address.
pub const R_TOCL: u8 = 0x31;

/// The low 32 bits of a number.
pub open spec fn trunc32(x: int) -> u32 {
    (x % 0x1_0000_0000) as u32
}

/// `n` zero bytes.
pub open spec fn zeros(n: nat) -> Seq<u8> {
    Seq::new(n, |i: int| 0u8)
}

/// `s`, filled up with zero bytes to the length `n`.
pub open spec fn pad_to(s: Seq<u8>, n: nat) -> Seq<u8> {
    if s.len() >= n {
        s
    } else {
        s + zeros((n - s.len()) as nat)
    }
}

/// The first eight of `bytes`, filled up with zero bytes.
pub open spec fn fixed8(bytes: Seq<u8>) -> Seq<u8> {
    Seq::new(8, |i: int| if i < bytes.len() { bytes[i] } else { 0u8 })
}

/// The section name that the linkers merge by.
pub open spec fn xcoff_name(kind: ObjSectionKind) -> Seq<char> {
    match kind {
        ObjSectionKind::Code | ObjSectionKind::ReadOnlyData => ".text"@,
        ObjSectionKind::Data => ".data"@,
        ObjSectionKind::Bss => ".bss"@,
    }
}

/// The section type flags.
pub open spec fn xcoff_styp(kind: ObjSectionKind) -> u16 {
    match kind {
        ObjSectionKind::Code | ObjSectionKind::ReadOnlyData => STYP_TEXT,
        ObjSectionKind::Data => STYP_DATA,
        ObjSectionKind::Bss => STYP_BSS,
    }
}

/// The storage mapping class.
pub open spec fn xcoff_class(kind: ObjSectionKind) -> u8 {
    match kind {
        ObjSectionKind::Code => XMC_PR,
        ObjSectionKind::ReadOnlyData => XMC_RO,
        ObjSectionKind::Data => XMC_RW,
        ObjSectionKind::Bss => XMC_BS,
    }
}

/// Maps a relocation kind to its XCOFF type and size code (bits minus one).
pub open spec fn reloc_type(kind: ObjRelocKind) -> Option<(u8, u8)> {
    match kind {
        ObjRelocKind::Absolute => Some((R_POS, 31u8)),
        ObjRelocKind::PpcRel24 => Some((R_BR, 25u8)),
        ObjRelocKind::PpcRel14 => Some((R_RBR, 15u8)),
        ObjRelocKind::PpcAddr16Hi | ObjRelocKind::PpcAddr16Ha => Some((R_TOCU, 15u8)),
        ObjRelocKind::PpcAddr16Lo => Some((R_TOCL, 15u8)),
        ObjRelocKind::PpcEmbSda21 | ObjRelocKind::X86Abs32 | ObjRelocKind::X86Rel32 => None,
    }
}

/// One symbol with its csect entry.
pub ghost struct XSym {
    pub name: Seq<char>,
    pub str_off: u32,
    pub value: u32,
    pub scnum: i16,
    pub sclass: u8,
    pub scnlen: u32,
    pub smtyp: u8,
    pub smclas: u8,
}

/// The symbol that spans a whole section.
pub open spec fn csect(s: SectionView, i: int) -> XSym {
    XSym {
        name: xcoff_name(s.kind),
        str_off: 0,
        value: 0,
        scnum: (i + 1) as i16,
        sclass: C_HIDEXT,
        scnlen: low32(s.size),
        smtyp: XTY_SD,
        smclas: xcoff_class(s.kind),
    }
}

/// The storage class of a symbol.
pub open spec fn storage_class(flags: ObjSymbolFlagSet, defined: bool) -> u8 {
    if !defined {
        C_EXT
    } else if flags.weak {
        C_WEAKEXT
    } else if flags.local && !flags.exported && !flags.global {
        C_HIDEXT
    } else {
        C_EXT
    }
}

/// The index of the section that defines a symbol, if it is one of `n`.
pub open spec fn home(sym: SymbolView, n: nat) -> Option<int> {
    match sym.section {
        Some(i) if i < n => Some(i as int),
        _ => None,
    }
}

/// A symbol of the object: a label inside its section's csect, or an external
/// reference.
pub open spec fn label(obj: ObjView, sym: SymbolView, str_off: u32) -> XSym {
    let place = home(sym, obj.sections.len());
    XSym {
        name: sym.name,
        str_off,
        value: low32(sym.address),
        scnum: match place {
            Some(i) => (i + 1) as i16,
            None => 0,
        },
        sclass: storage_class(sym.flags, place is Some),
        scnlen: match place {
            Some(i) => (2 * i) as u32,
            None => 0,
        },
        smtyp: match place {
            Some(i) => XTY_LD,
            None => XTY_ER,
        },
        smclas: match place {
            Some(i) => xcoff_class(obj.sections[i].kind),
            None => XMC_PR,
        },
    }
}

/// Whether a name goes to the string table.
pub open spec fn is_long(name: Seq<char>) -> bool {
    encode_utf8(name).len() > 8
}

/// The string table after the first `n` symbols.
pub open spec fn strings(s: Seq<SymbolView>, n: nat) -> Seq<u8>
    decreases n,
{
    if n == 0 {
        seq![0u8, 0, 0, 4]
    } else {
        let below = strings(s, (n - 1) as nat);
        let name = s[n - 1].name;
        if is_long(name) {
            below + encode_utf8(name).push(0)
        } else {
            below
        }
    }
}

/// The offset of the name of symbol `i` in the string table, 0 for a short name.
pub open spec fn name_offset(s: Seq<SymbolView>, i: int) -> u32 {
    if is_long(s[i].name) {
        trunc32(strings(s, i as nat).len() as int)
    } else {
        0
    }
}

/// The string table with its length in front.
pub open spec fn finished(strings: Seq<u8>) -> Seq<u8> {
    be32(trunc32(strings.len() as int)) + strings.skip(4)
}

/// The 36 bytes of a symbol and its csect entry.
pub open spec fn symbol_entry(x: XSym) -> Seq<u8> {
    (if is_long(x.name) {
        be32(0) + be32(x.str_off)
    } else {
        fixed8(encode_utf8(x.name))
    }) + be32(x.value) + be16(unsigned16(x.scnum)) + be16(0) + seq![x.sclass, 1u8] + be32(x.scnlen)
        + be32(0) + be16(0) + seq![x.smtyp, x.smclas] + be32(0) + be16(0)
}

/// The symbol table entries of the first `n` sections.
pub open spec fn csect_entries(s: Seq<SectionView>, n: nat) -> Seq<u8>
    decreases n,
{
    if n == 0 {
        Seq::empty()
    } else {
        csect_entries(s, (n - 1) as nat) + symbol_entry(csect(s[n - 1], n - 1))
    }
}

/// The symbol table entries of the first `n` symbols.
pub open spec fn label_entries(obj: ObjView, n: nat) -> Seq<u8>
    decreases n,
{
    if n == 0 {
        Seq::empty()
    } else {
        label_entries(obj, (n - 1) as nat) + symbol_entry(
            label(obj, obj.symbols[n - 1], name_offset(obj.symbols, n - 1)),
        )
    }
}

/// How many of the first `n` relocations XCOFF can express.
pub open spec fn reloc_count(r: Seq<(u32, ObjReloc)>, n: nat) -> nat
    decreases n,
{
    if n == 0 {
        0
    } else {
        reloc_count(r, (n - 1) as nat) + (if reloc_type(r[n - 1].1.kind) is Some {
            1nat
        } else {
            0
        })
    }
}

/// The next multiple of four.
pub open spec fn align4(x: int) -> int {
    (x + 3) / 4 * 4
}

/// Whether a section has bytes in the file.
pub open spec fn has_data(s: SectionView) -> bool {
    s.kind != ObjSectionKind::Bss
}

/// The file offset behind the data of the first `n` sections.
pub open spec fn data_end(s: Seq<SectionView>, n: nat) -> int
    decreases n,
{
    if n == 0 {
        FILE_HDR_SIZE + SEC_HDR_SIZE * s.len()
    } else {
        let below = data_end(s, (n - 1) as nat);
        if has_data(s[n - 1]) {
            align4(below) + low32(s[n - 1].size)
        } else {
            below
        }
    }
}

/// The file offset of the data of section `i`, as its header states it.
pub open spec fn data_offset(s: Seq<SectionView>, i: int) -> u32 {
    if has_data(s[i]) {
        trunc32(align4(data_end(s, i as nat)))
    } else {
        0
    }
}

/// The number of relocation entries of a section.
pub open spec fn section_relocs(s: SectionView) -> nat {
    reloc_count(s.relocations, s.relocations.len())
}

/// The file offset behind the relocation entries of the first `n` sections.
pub open spec fn reloc_end(s: Seq<SectionView>, n: nat) -> int
    decreases n,
{
    if n == 0 {
        data_end(s, s.len())
    } else {
        reloc_end(s, (n - 1) as nat) + RLD_SIZE * section_relocs(s[n - 1])
    }
}

/// The file offset of the relocation entries of section `i`, as its header
/// states it.
pub open spec fn reloc_offset(s: Seq<SectionView>, i: int) -> u32 {
    if section_relocs(s[i]) > 0 {
        trunc32(reloc_end(s, i as nat))
    } else {
        0
    }
}

/// The number of relocation entries of a section, as its header states it.
pub open spec fn stated_relocs(s: SectionView) -> u16 {
    (section_relocs(s) % 0x1_0000) as u16
}

/// The file offset of the symbol table, as the file header states it.
pub open spec fn symtab_offset(s: Seq<SectionView>) -> u32 {
    trunc32(reloc_end(s, s.len()))
}

/// The file header.
pub open spec fn file_header(obj: ObjView) -> Seq<u8> {
    be16(MAGIC_32) + be16(obj.sections.len() as u16) + be32(0) + be32(symtab_offset(obj.sections))
        + be32(trunc32(2 * (obj.sections.len() + obj.symbols.len()) as int)) + be16(0) + be16(0)
}

/// The header of section `i`.
pub open spec fn section_header(s: Seq<SectionView>, i: int) -> Seq<u8> {
    fixed8(encode_utf8(xcoff_name(s[i].kind))) + be32(0) + be32(0) + be32(low32(s[i].size)) + be32(
        data_offset(s, i),
    ) + be32(reloc_offset(s, i)) + be32(0) + be16(stated_relocs(s[i])) + be16(0) + be32(
        xcoff_styp(s[i].kind) as u32,
    )
}

/// The headers of the first `n` sections.
pub open spec fn section_headers(s: Seq<SectionView>, n: nat) -> Seq<u8>
    decreases n,
{
    if n == 0 {
        Seq::empty()
    } else {
        section_headers(s, (n - 1) as nat) + section_header(s, n - 1)
    }
}

/// `data` cut or filled up with zero bytes to the length `size`.
pub open spec fn fit(data: Seq<u8>, size: nat) -> Seq<u8> {
    if data.len() > size {
        data.take(size as int)
    } else {
        pad_to(data, size)
    }
}

/// `d` with the four bytes of `w` at `off`.
pub open spec fn with_word(d: Seq<u8>, off: int, w: u32) -> Seq<u8> {
    Seq::new(d.len(), |i: int| if off <= i < off + 4 { be32(w)[i - off] } else { d[i] })
}

/// The word `w` with the field of a relocation set to what the linker adds to:
/// the addend, and for branches the target less the place.
pub open spec fn stripped(kind: ObjRelocKind, w: u32, addend: u32, target: u32, place: u32) -> u32 {
    match kind {
        ObjRelocKind::Absolute => addend,
        ObjRelocKind::PpcRel24 => (w & !0x03fffffcu32) | (trunc32(target + addend - place)
            & 0x03fffffcu32),
        ObjRelocKind::PpcRel14 => (w & !0x0000fffcu32) | (trunc32(target + addend - place)
            & 0x0000fffcu32),
        ObjRelocKind::PpcAddr16Hi | ObjRelocKind::PpcAddr16Ha => (w & !0x0000ffffu32) | (addend
            >> 16),
        ObjRelocKind::PpcAddr16Lo => (w & !0x0000ffffu32) | (addend & 0xffffu32),
        _ => w,
    }
}

/// The data of a section after the first `n` relocation fields were set.
pub open spec fn patched(obj: ObjView, s: SectionView, n: nat) -> Seq<u8>
    decreases n,
{
    if n == 0 {
        fit(s.data, low32(s.size) as nat)
    } else {
        let d = patched(obj, s, (n - 1) as nat);
        let (addr, reloc) = s.relocations[n - 1];
        let off = addr - s.address;
        if reloc_type(reloc.kind) is Some && off + 4 <= d.len() {
            with_word(
                d,
                off,
                stripped(
                    reloc.kind,
                    be_u32(d, off),
                    trunc32(reloc.addend as int),
                    low32(obj.symbols[reloc.target_symbol as int].address),
                    trunc32(off),
                ),
            )
        } else {
            d
        }
    }
}

/// The relocation entries for the first `n` relocations of a section.
pub open spec fn reloc_entries(obj: ObjView, s: SectionView, n: nat) -> Seq<u8>
    decreases n,
{
    if n == 0 {
        Seq::empty()
    } else {
        let below = reloc_entries(obj, s, (n - 1) as nat);
        let (addr, reloc) = s.relocations[n - 1];
        match reloc_type(reloc.kind) {
            Some((rtype, rsize)) => below + be32(trunc32(addr - s.address)) + be32(
                trunc32(2 * (obj.sections.len() + reloc.target_symbol)),
            ) + seq![rsize, rtype],
            None => below,
        }
    }
}

/// The file up to and with the data of the first `n` sections.
pub open spec fn with_data(obj: ObjView, n: nat) -> Seq<u8>
    decreases n,
{
    if n == 0 {
        file_header(obj) + section_headers(obj.sections, obj.sections.len())
    } else {
        let below = with_data(obj, (n - 1) as nat);
        let s = obj.sections[n - 1];
        if has_data(s) {
            pad_to(below, data_offset(obj.sections, n - 1) as nat) + patched(
                obj,
                s,
                s.relocations.len(),
            )
        } else {
            below
        }
    }
}

/// The file up to and with the relocation entries of the first `n` sections.
pub open spec fn with_relocs(obj: ObjView, n: nat) -> Seq<u8>
    decreases n,
{
    if n == 0 {
        with_data(obj, obj.sections.len())
    } else {
        let below = with_relocs(obj, (n - 1) as nat);
        let s = obj.sections[n - 1];
        if stated_relocs(s) != 0 {
            pad_to(below, reloc_offset(obj.sections, n - 1) as nat) + reloc_entries(
                obj,
                s,
                s.relocations.len(),
            )
        } else {
            below
        }
    }
}

/// The XCOFF file of an object.
pub open spec fn xcoff_file(obj: ObjView) -> Seq<u8> {
    pad_to(with_relocs(obj, obj.sections.len()), symtab_offset(obj.sections) as nat)
        + csect_entries(obj.sections, obj.sections.len()) + label_entries(obj, obj.symbols.len())
        + finished(strings(obj.symbols, obj.symbols.len()))
}

/// Whether a relocation lies behind the section's address and names a symbol.
pub open spec fn reloc_ready(obj: ObjView, s: SectionView, e: (u32, ObjReloc)) -> bool {
    reloc_type(e.1.kind) is Some ==> e.0 >= s.address && e.1.target_symbol < obj.symbols.len()
}

/// Whether an object can be written: its sections can be numbered, and the
/// relocations that XCOFF can express lie behind their section's address and
/// name symbols.
pub open spec fn xcoff_ready(obj: ObjView) -> bool {
    &&& obj.sections.len() <= i16::MAX
    &&& forall|i: int, k: int|
        0 <= i < obj.sections.len() && 0 <= k < obj.sections[i].relocations.len() ==> reloc_ready(
            obj,
            obj.sections[i],
            #[trigger] obj.sections[i].relocations[k],
        )
}

/// The string table of an object file. Its first four bytes are its length.
pub struct StrTab {
    pub data: Vec<u8>,
}

impl StrTab {
    /// An empty string table: its own length.
    pub fn new() -> (r: Self)
        ensures
            r.data@ == seq![0u8, 0, 0, 4],
    {
        let mut data: Vec<u8> = Vec::new();
        data.push(0);
        data.push(0);
        data.push(0);
        data.push(4);
        assert(data@ =~= seq![0u8, 0, 0, 4]);
        StrTab { data }
    }

    /// Appends a string and a zero byte; returns the string's offset.
    pub fn add(&mut self, s: &str) -> (r: u32)
        ensures
            final(self).data@ == old(self).data@ + encode_utf8(s@).push(0),
            r == trunc32(old(self).data@.len() as int),
    {
        let offset: u32 = low_word(self.data.len() as u64);
        self.data.extend_from_slice(s.as_bytes());
        self.data.push(0);
        assert(self.data@ =~= old(self).data@ + encode_utf8(s@).push(0));
        offset
    }

    /// Sets the length.
    pub fn finalize(&mut self)
        requires
            old(self).data@.len() >= 4,
        ensures
            final(self).data@ == finished(old(self).data@),
    {
        let len: u32 = low_word(self.data.len() as u64);
        self.data.set(0, (len / 0x100_0000) as u8);
        self.data.set(1, (len / 0x1_0000 % 0x100) as u8);
        self.data.set(2, (len / 0x100 % 0x100) as u8);
        self.data.set(3, (len % 0x100) as u8);
        assert(self.data@ =~= finished(old(self).data@));
    }
}

/// Appends a byte.
pub fn write_u8(v: &mut Vec<u8>, x: u8)
    ensures
        final(v)@ == old(v)@.push(x),
{
    v.push(x);
}

/// Appends a 16-bit word.
pub fn write_u16(v: &mut Vec<u8>, x: u16)
    ensures
        final(v)@ == old(v)@ + be16(x),
{
    v.push((x / 0x100) as u8);
    v.push((x % 0x100) as u8);
    assert(v@ =~= old(v)@ + be16(x));
}

/// Appends a signed 16-bit word.
pub fn write_i16(v: &mut Vec<u8>, x: i16)
    ensures
        final(v)@ == old(v)@ + be16(unsigned16(x)),
{
    let u: u16 = if x >= 0 {
        x as u16
    } else {
        (x as i32 + 0x1_0000) as u16
    };
    write_u16(v, u);
}

/// Appends a 32-bit word.
pub fn write_u32(v: &mut Vec<u8>, x: u32)
    ensures
        final(v)@ == old(v)@ + be32(x),
{
    v.push((x / 0x100_0000) as u8);
    v.push((x / 0x1_0000 % 0x100) as u8);
    v.push((x / 0x100 % 0x100) as u8);
    v.push((x % 0x100) as u8);
    assert(v@ =~= old(v)@ + be32(x));
}

/// Rounds `v` up to a multiple of `a`, a power of two.
pub fn align_up(v: u64, a: u64) -> (r: u64)
    requires
        a > 0,
        v + a - 1 <= u64::MAX,
    ensures
        r == ((v + a - 1) as u64) & !((a - 1) as u64),
        a & ((a - 1) as u64) == 0 ==> r & ((a - 1) as u64) == 0 && v <= r < v + a,
        a == 4 ==> r == align4(v as int),
{
    let r: u64 = (v + (a - 1)) & !(a - 1);
    assert(a & ((a - 1) as u64) == 0 ==> ((((v + a - 1) as u64) & !((a - 1) as u64)) & ((a - 1) as u64)
        == 0 && v <= (((v + a - 1) as u64) & !((a - 1) as u64)) && (((v + a - 1) as u64) & !((a
        - 1) as u64)) < v + a)) by (bit_vector)
        requires
            a > 0,
            v + a - 1 <= 0xffff_ffff_ffff_ffff,
    ;
    proof {
        if a == 4 {
            assert(((v + 3) as u64) & !3u64 == ((v + 3) as u64) / 4 * 4) by (bit_vector)
                requires
                    v + 3 <= 0xffff_ffff_ffff_ffff,
            ;
        }
    }
    r
}

/// The exponent of the highest power of two that is not above `a`.
pub open spec fn floor_log2(a: nat) -> nat
    decreases a,
{
    if a <= 1 {
        0
    } else {
        1 + floor_log2(a / 2)
    }
}

/// The exponent of an alignment, 0 for none.
pub fn log2_align(a: u64) -> (r: u32)
    ensures
        r == floor_log2(a as nat),
        r < 64,
{
    let mut x: u64 = a;
    let mut n: u32 = 0;
    proof {
        lemma_floor_log2(a as nat);
    }
    while x > 1
        invariant
            n + floor_log2(x as nat) == floor_log2(a as nat),
            floor_log2(a as nat) < 64,
        decreases x,
    {
        x = x / 2;
        n = n + 1;
    }
    n
}

/// What [`floor_log2`] is.
pub proof fn lemma_floor_log2(a: nat)
    ensures
        a > 0 ==> vstd::arithmetic::power2::pow2(floor_log2(a)) <= a
            < vstd::arithmetic::power2::pow2(floor_log2(a) + 1),
        a <= u64::MAX ==> floor_log2(a) < 64,
    decreases a,
{
    vstd::arithmetic::power2::lemma2_to64();
    vstd::arithmetic::power2::lemma2_to64_rest();
    if a > 1 {
        lemma_floor_log2(a / 2);
        vstd::arithmetic::power2::lemma_pow2_unfold(floor_log2(a));
        vstd::arithmetic::power2::lemma_pow2_unfold(floor_log2(a) + 1);
        if a <= u64::MAX && floor_log2(a) >= 64 {
            vstd::arithmetic::power2::lemma_pow2_strictly_increases(63, floor_log2(a));
        }
    }
}

/// Maps a relocation kind to its XCOFF type and size code.
pub fn mapped_reloc_type(kind: ObjRelocKind) -> (r: Option<(u8, u8)>)
    ensures
        r == reloc_type(kind),
{
    match kind {
        ObjRelocKind::Absolute => Some((R_POS, 31u8)),
        ObjRelocKind::PpcRel24 => Some((R_BR, 25u8)),
        ObjRelocKind::PpcRel14 => Some((R_RBR, 15u8)),
        ObjRelocKind::PpcAddr16Hi | ObjRelocKind::PpcAddr16Ha => Some((R_TOCU, 15u8)),
        ObjRelocKind::PpcAddr16Lo => Some((R_TOCL, 15u8)),
        ObjRelocKind::PpcEmbSda21 | ObjRelocKind::X86Abs32 | ObjRelocKind::X86Rel32 => None,
    }
}

/// The low 32 bits of a signed value.
fn low_signed(x: i64) -> (r: u32)
    ensures
        r == trunc32(x as int),
{
    if x >= 0 {
        (x as u64 % 0x1_0000_0000) as u32
    } else {
        let y: u64 = (-(x + 1)) as u64;
        (0xffff_ffff - y % 0x1_0000_0000) as u32
    }
}

/// Fills `out` up with zero bytes to the length `n`.
pub(crate) fn pad_out(out: &mut Vec<u8>, n: u32)
    ensures
        final(out)@ == pad_to(old(out)@, n as nat),
{
    while (out.len() as u64) < n as u64
        invariant
            old(out)@.len() <= out@.len(),
            out@.len() <= n || out@.len() == old(out)@.len(),
            out@ == old(out)@ + zeros((out@.len() - old(out)@.len()) as nat),
        decreases n - out@.len(),
    {
        let ghost before = out@;
        out.push(0);
        assert(out@ =~= old(out)@ + zeros((out@.len() - old(out)@.len()) as nat));
    }
    assert(out@ =~= pad_to(old(out)@, n as nat));
}

/// Appends the first eight of `bytes`, filled up with zero bytes.
fn write_fixed8(out: &mut Vec<u8>, bytes: &[u8])
    ensures
        final(out)@ == old(out)@ + fixed8(bytes@),
{
    let mut i: usize = 0;
    while i < 8
        invariant
            i <= 8,
            out@ == old(out)@ + fixed8(bytes@).take(i as int),
        decreases 8 - i,
    {
        let b: u8 = if i < bytes.len() {
            bytes[i]
        } else {
            0
        };
        out.push(b);
        assert(fixed8(bytes@).take(i + 1) =~= fixed8(bytes@).take(i as int).push(b));
        assert(out@ =~= old(out)@ + fixed8(bytes@).take(i + 1));
        i = i + 1;
    }
    assert(fixed8(bytes@).take(8) =~= fixed8(bytes@));
}

/// The section name that the linkers merge by.
fn section_name(kind: ObjSectionKind) -> (r: &'static str)
    ensures
        r@ == xcoff_name(kind),
{
    match kind {
        ObjSectionKind::Code | ObjSectionKind::ReadOnlyData => ".text",
        ObjSectionKind::Data => ".data",
        ObjSectionKind::Bss => ".bss",
    }
}

/// The section type flags.
fn section_styp(kind: ObjSectionKind) -> (r: u16)
    ensures
        r == xcoff_styp(kind),
{
    match kind {
        ObjSectionKind::Code | ObjSectionKind::ReadOnlyData => STYP_TEXT,
        ObjSectionKind::Data => STYP_DATA,
        ObjSectionKind::Bss => STYP_BSS,
    }
}

/// The storage mapping class.
fn section_class(kind: ObjSectionKind) -> (r: u8)
    ensures
        r == xcoff_class(kind),
{
    match kind {
        ObjSectionKind::Code => XMC_PR,
        ObjSectionKind::ReadOnlyData => XMC_RO,
        ObjSectionKind::Data => XMC_RW,
        ObjSectionKind::Bss => XMC_BS,
    }
}

/// The fields of a symbol, its name apart.
struct SymFields {
    str_off: u32,
    value: u32,
    scnum: i16,
    sclass: u8,
    scnlen: u32,
    smtyp: u8,
    smclas: u8,
}

/// The symbol with the given name and fields.
spec fn named(name: Seq<char>, f: SymFields) -> XSym {
    XSym {
        name,
        str_off: f.str_off,
        value: f.value,
        scnum: f.scnum,
        sclass: f.sclass,
        scnlen: f.scnlen,
        smtyp: f.smtyp,
        smclas: f.smclas,
    }
}

/// Appends a symbol and its csect entry.
fn write_symbol(out: &mut Vec<u8>, name: &str, f: SymFields)
    ensures
        final(out)@ == old(out)@ + symbol_entry(named(name@, f)),
{
    let bytes = name.as_bytes();
    if bytes.len() <= 8 {
        write_fixed8(out, bytes);
    } else {
        write_u32(out, 0);
        write_u32(out, f.str_off);
    }
    write_u32(out, f.value);
    write_i16(out, f.scnum);
    write_u16(out, 0);
    write_u8(out, f.sclass);
    write_u8(out, 1);
    write_u32(out, f.scnlen);
    write_u32(out, 0);
    write_u16(out, 0);
    write_u8(out, f.smtyp);
    write_u8(out, f.smclas);
    write_u32(out, 0);
    write_u16(out, 0);
    assert(out@ =~= old(out)@ + symbol_entry(named(name@, f)));
}

/// Writes the symbols that span the sections.
fn write_csects(sections: &Vec<ObjSection>) -> (r: Vec<u8>)
    requires
        sections@.len() <= i16::MAX,
    ensures
        r@ == csect_entries(crate::obj::section_views(sections@), sections@.len()),
{
    let ghost s = crate::obj::section_views(sections@);
    let mut out: Vec<u8> = Vec::new();
    let mut i: usize = 0;
    while i < sections.len()
        invariant
            s == crate::obj::section_views(sections@),
            i <= sections@.len() <= i16::MAX,
            out@ == csect_entries(s, i as nat),
        decreases sections@.len() - i,
    {
        assert(s[i as int] == sections@[i as int]@);
        let f = SymFields {
            str_off: 0,
            value: 0,
            scnum: i as i16 + 1,
            sclass: C_HIDEXT,
            scnlen: low_word(sections[i].size),
            smtyp: XTY_SD,
            smclas: section_class(sections[i].kind),
        };
        assert(named(xcoff_name(s[i as int].kind), f) == csect(s[i as int], i as int));
        write_symbol(&mut out, section_name(sections[i].kind), f);
        i = i + 1;
    }
    out
}

/// Appends the symbols of the object; returns the string table.
fn write_labels(obj: &ObjInfo, out: &mut Vec<u8>) -> (r: StrTab)
    requires
        obj@.sections.len() <= i16::MAX,
    ensures
        final(out)@ == old(out)@ + label_entries(obj@, obj@.symbols.len()),
        r.data@ == strings(obj@.symbols, obj@.symbols.len()),
{
    let mut strtab = StrTab::new();
    let mut i: usize = 0;
    let n: usize = obj.sections.len();
    assert(out@ =~= old(out)@ + label_entries(obj@, 0));
    while i < obj.symbols.len()
        invariant
            i <= obj@.symbols.len() == obj.symbols@.len(),
            n == obj@.sections.len() <= i16::MAX,
            out@ == old(out)@ + label_entries(obj@, i as nat),
            strtab.data@ == strings(obj@.symbols, i as nat),
        decreases obj.symbols@.len() - i,
    {
        let sym = &obj.symbols[i];
        assert(obj@.symbols[i as int] == sym@);
        let str_off: u32 = if sym.name.as_str().as_bytes().len() <= 8 {
            0
        } else {
            strtab.add(sym.name.as_str())
        };
        let place: Option<usize> = match sym.section {
            Some(sec) => if sec < n {
                Some(sec)
            } else {
                None
            },
            None => None,
        };
        let sclass: u8 = if place.is_none() {
            C_EXT
        } else if sym.flags.weak {
            C_WEAKEXT
        } else if sym.flags.local && !sym.flags.exported && !sym.flags.global {
            C_HIDEXT
        } else {
            C_EXT
        };
        let f = match place {
            Some(sec) => {
                assert(obj@.sections[sec as int] == obj.sections@[sec as int]@);
                SymFields {
                    str_off,
                    value: low_word(sym.address),
                    scnum: sec as i16 + 1,
                    sclass,
                    scnlen: 2 * sec as u32,
                    smtyp: XTY_LD,
                    smclas: section_class(obj.sections[sec].kind),
                }
            },
            None => SymFields {
                str_off,
                value: low_word(sym.address),
                scnum: 0,
                sclass,
                scnlen: 0,
                smtyp: XTY_ER,
                smclas: XMC_PR,
            },
        };
        assert(named(sym@.name, f) == label(obj@, sym@, name_offset(obj@.symbols, i as int)));
        let ghost before = out@;
        write_symbol(out, sym.name.as_str(), f);
        assert(out@ =~= old(out)@ + label_entries(obj@, (i + 1) as nat));
        i = i + 1;
    }
    strtab
}

/// Where the parts of the file go.
struct Layout {
    data_offs: Vec<u32>,
    reloc_offs: Vec<u32>,
    reloc_counts: Vec<u16>,
    symtab: u32,
}

/// Whether `l` is the layout of a file with the sections `s`.
spec fn is_layout(s: Seq<SectionView>, l: Layout) -> bool {
    &&& l.data_offs@.len() == s.len()
    &&& l.reloc_offs@.len() == s.len()
    &&& l.reloc_counts@.len() == s.len()
    &&& forall|i: int| 0 <= i < s.len() ==> #[trigger] l.data_offs@[i] == data_offset(s, i)
    &&& forall|i: int| 0 <= i < s.len() ==> #[trigger] l.reloc_offs@[i] == reloc_offset(s, i)
    &&& forall|i: int| 0 <= i < s.len() ==> #[trigger] l.reloc_counts@[i] == stated_relocs(s[i])
    &&& l.symtab == symtab_offset(s)
}

/// There are no more relocation entries than relocations.
proof fn lemma_reloc_count(r: Seq<(u32, ObjReloc)>, n: nat)
    ensures
        reloc_count(r, n) <= n,
    decreases n,
{
    if n > 0 {
        lemma_reloc_count(r, (n - 1) as nat);
    }
}

/// Counts the relocations that XCOFF can express.
fn count_relocs(relocations: &AddrMap<ObjReloc>) -> (r: u64)
    ensures
        r == reloc_count(relocations@, relocations@.len()),
        r <= 0x1_0000_0000,
{
    let mut count: u64 = 0;
    let mut i: usize = 0;
    let n: usize = relocations.len();
    proof {
        lemma_ascending_len(relocations@);
        lemma_reloc_count(relocations@, relocations@.len());
    }
    while i < n
        invariant
            n == relocations@.len(),
            n <= 0x1_0000_0000,
            i <= n,
            count == reloc_count(relocations@, i as nat),
            count <= i,
        decreases n - i,
    {
        if mapped_reloc_type(relocations.entry(i).1.kind).is_some() {
            count = count + 1;
        }
        i = i + 1;
    }
    count
}

/// Places the parts of the file.
fn plan(sections: &Vec<ObjSection>) -> (r: Layout)
    requires
        sections@.len() <= i16::MAX,
    ensures
        is_layout(crate::obj::section_views(sections@), r),
{
    let ghost s = crate::obj::section_views(sections@);
    let n: usize = sections.len();
    let mut offset: u64 = FILE_HDR_SIZE + n as u64 * SEC_HDR_SIZE;
    let mut data_offs: Vec<u32> = Vec::new();
    let mut i: usize = 0;
    while i < n
        invariant
            s == crate::obj::section_views(sections@),
            n == sections@.len() <= i16::MAX,
            i <= n,
            offset == data_end(s, i as nat),
            offset <= 2_000_000 + i * 0x1_0000_0010,
            data_offs@.len() == i,
            forall|j: int| 0 <= j < i ==> #[trigger] data_offs@[j] == data_offset(s, j),
        decreases n - i,
    {
        assert(s[i as int] == sections@[i as int]@);
        if sections[i].kind != ObjSectionKind::Bss {
            let start: u64 = align_up(offset, 4);
            data_offs.push(low_word(start));
            offset = start + low_word(sections[i].size) as u64;
        } else {
            data_offs.push(0);
        }
        i = i + 1;
    }
    let mut reloc_offs: Vec<u32> = Vec::new();
    let mut reloc_counts: Vec<u16> = Vec::new();
    let mut i: usize = 0;
    while i < n
        invariant
            s == crate::obj::section_views(sections@),
            n == sections@.len() <= i16::MAX,
            i <= n,
            offset == reloc_end(s, i as nat),
            offset <= 2_000_000 + n * 0x1_0000_0010 + i * 0xA_0000_0000,
            reloc_offs@.len() == i,
            reloc_counts@.len() == i,
            forall|j: int| 0 <= j < i ==> #[trigger] reloc_offs@[j] == reloc_offset(s, j),
            forall|j: int| 0 <= j < i ==> #[trigger] reloc_counts@[j] == stated_relocs(s[j]),
        decreases n - i,
    {
        assert(s[i as int] == sections@[i as int]@);
        let count: u64 = count_relocs(&sections[i].relocations);
        assert(count == section_relocs(s[i as int]));
        if count > 0 {
            reloc_offs.push(low_word(offset));
        } else {
            reloc_offs.push(0);
        }
        reloc_counts.push((count % 0x1_0000) as u16);
        offset = offset + count * RLD_SIZE;
        i = i + 1;
    }
    Layout { data_offs, reloc_offs, reloc_counts, symtab: low_word(offset) }
}

/// Twice the sum of two numbers, modulo 2^32.
fn double_sum(a: usize, b: usize) -> (r: u32)
    ensures
        r == trunc32(2 * (a + b)),
{
    let (x, y): (u64, u64) = (a as u64, b as u64);
    let sum: u64 = x % 0x1_0000_0000 + y % 0x1_0000_0000;
    proof {
        let q: int = 2 * (x / 0x1_0000_0000) + 2 * (y / 0x1_0000_0000);
        vstd::arithmetic::div_mod::lemma_mod_multiples_vanish(q, 2 * sum, 0x1_0000_0000);
        assert(2 * (a + b) == 0x1_0000_0000 * q + 2 * sum);
    }
    low_word(2 * sum)
}

/// Writes the file header and the section headers.
fn write_headers(obj: &ObjInfo, l: &Layout) -> (r: Vec<u8>)
    requires
        obj@.sections.len() <= i16::MAX,
        is_layout(obj@.sections, *l),
    ensures
        r@ == with_data(obj@, 0),
{
    let mut out: Vec<u8> = Vec::new();
    let n: usize = obj.sections.len();
    write_u16(&mut out, MAGIC_32);
    write_u16(&mut out, n as u16);
    write_u32(&mut out, 0);
    write_u32(&mut out, l.symtab);
    write_u32(&mut out, double_sum(n, obj.symbols.len()));
    write_u16(&mut out, 0);
    write_u16(&mut out, 0);
    assert(out@ =~= file_header(obj@));
    let mut i: usize = 0;
    assert(out@ =~= file_header(obj@) + section_headers(obj@.sections, 0));
    while i < n
        invariant
            n == obj@.sections.len() == obj.sections@.len(),
            i <= n,
            is_layout(obj@.sections, *l),
            out@ == file_header(obj@) + section_headers(obj@.sections, i as nat),
        decreases n - i,
    {
        let sec = &obj.sections[i];
        assert(obj@.sections[i as int] == sec@);
        let ghost before = out@;
        write_fixed8(&mut out, section_name(sec.kind).as_bytes());
        write_u32(&mut out, 0);
        write_u32(&mut out, 0);
        write_u32(&mut out, low_word(sec.size));
        write_u32(&mut out, l.data_offs[i]);
        write_u32(&mut out, l.reloc_offs[i]);
        write_u32(&mut out, 0);
        write_u16(&mut out, l.reloc_counts[i]);
        write_u16(&mut out, 0);
        write_u32(&mut out, section_styp(sec.kind) as u32);
        assert(out@ =~= before + section_header(obj@.sections, i as int));
        assert(out@ =~= file_header(obj@) + section_headers(obj@.sections, (i + 1) as nat));
        i = i + 1;
    }
    out
}

/// Cuts `data` or fills it up with zero bytes to the length `size`.
fn fit_data(data: &Vec<u8>, size: u32) -> (r: Vec<u8>)
    ensures
        r@ == fit(data@, size as nat),
{
    let mut d: Vec<u8> = vstd::slice::slice_to_vec(data.as_slice());
    assert(d@ =~= data@);
    if d.len() as u64 > size as u64 {
        d.truncate(size as usize);
        assert(d@ =~= data@.take(size as int));
    } else {
        pad_out(&mut d, size);
    }
    d
}

/// Sets the word at `off`.
fn set_word(d: &mut Vec<u8>, off: usize, w: u32)
    requires
        off + 4 <= old(d)@.len(),
    ensures
        final(d)@ == with_word(old(d)@, off as int, w),
{
    assert(off + 4 <= d.len());
    d.set(off, (w / 0x100_0000) as u8);
    d.set(off + 1, (w / 0x1_0000 % 0x100) as u8);
    d.set(off + 2, (w / 0x100 % 0x100) as u8);
    d.set(off + 3, (w % 0x100) as u8);
    assert(d@ =~= with_word(old(d)@, off as int, w));
}

/// The word `w` with the field of a relocation stripped.
fn strip_field(kind: ObjRelocKind, w: u32, addend: u32, target: u32, place: u32) -> (r: u32)
    ensures
        r == stripped(kind, w, addend, target, place),
{
    let biased: u32 = low_word(target as u64 + addend as u64 + (0x1_0000_0000 - place as u64));
    assert(biased == trunc32(target + addend - place));
    match kind {
        ObjRelocKind::Absolute => addend,
        ObjRelocKind::PpcRel24 => (w & !0x03fffffcu32) | (biased & 0x03fffffcu32),
        ObjRelocKind::PpcRel14 => (w & !0x0000fffcu32) | (biased & 0x0000fffcu32),
        ObjRelocKind::PpcAddr16Hi | ObjRelocKind::PpcAddr16Ha => (w & !0x0000ffffu32) | (addend
            >> 16),
        ObjRelocKind::PpcAddr16Lo => (w & !0x0000ffffu32) | (addend & 0xffffu32),
        _ => w,
    }
}

/// The data of a section with its relocation fields set.
///
/// The field at a relocated place holds what the linker adds to, not the
/// resolved value that the section data has: the addend, and for branches the
/// target less the place.
fn patch_data(obj: &ObjInfo, index: usize) -> (r: Vec<u8>)
    requires
        xcoff_ready(obj@),
        index < obj@.sections.len(),
    ensures
        r@ == patched(
            obj@,
            obj@.sections[index as int],
            obj@.sections[index as int].relocations.len(),
        ),
{
    let sec = &obj.sections[index];
    assert(obj@.sections[index as int] == sec@);
    let mut d: Vec<u8> = fit_data(&sec.data, low_word(sec.size));
    let mut i: usize = 0;
    while i < sec.relocations.len()
        invariant
            xcoff_ready(obj@),
            index < obj@.sections.len(),
            obj@.sections[index as int] == sec@,
            i <= sec@.relocations.len(),
            d@ == patched(obj@, sec@, i as nat),
        decreases sec@.relocations.len() - i,
    {
        let e = sec.relocations.entry(i);
        let (addr, reloc): (u32, ObjReloc) = (e.0, e.1);
        assert(reloc_ready(
            obj@,
            obj@.sections[index as int],
            obj@.sections[index as int].relocations[i as int],
        ));
        if mapped_reloc_type(reloc.kind).is_some() {
            let off: u64 = addr as u64 - sec.address;
            if off + 4 <= d.len() as u64 {
                assert(obj@.symbols[reloc.target_symbol as int]
                    == obj.symbols@[reloc.target_symbol as int]@);
                let at: usize = off as usize;
                let w: u32 = read_be_u32(d.as_slice(), at);
                let new: u32 = strip_field(
                    reloc.kind,
                    w,
                    low_signed(reloc.addend),
                    low_word(obj.symbols[reloc.target_symbol].address),
                    low_word(off),
                );
                set_word(&mut d, at, new);
            }
        }
        i = i + 1;
    }
    d
}

/// Appends the relocation entries of a section.
fn write_relocs(obj: &ObjInfo, index: usize, out: &mut Vec<u8>)
    requires
        xcoff_ready(obj@),
        index < obj@.sections.len(),
    ensures
        final(out)@ == old(out)@ + reloc_entries(
            obj@,
            obj@.sections[index as int],
            obj@.sections[index as int].relocations.len(),
        ),
{
    let sec = &obj.sections[index];
    assert(obj@.sections[index as int] == sec@);
    assert(out@ =~= old(out)@ + reloc_entries(obj@, sec@, 0));
    let mut i: usize = 0;
    while i < sec.relocations.len()
        invariant
            xcoff_ready(obj@),
            index < obj@.sections.len(),
            obj@.sections[index as int] == sec@,
            i <= sec@.relocations.len(),
            out@ == old(out)@ + reloc_entries(obj@, sec@, i as nat),
        decreases sec@.relocations.len() - i,
    {
        let e = sec.relocations.entry(i);
        let (addr, reloc): (u32, ObjReloc) = (e.0, e.1);
        assert(reloc_ready(
            obj@,
            obj@.sections[index as int],
            obj@.sections[index as int].relocations[i as int],
        ));
        let ghost before = out@;
        if let Some((rtype, rsize)) = mapped_reloc_type(reloc.kind) {
            write_u32(out, low_word(addr as u64 - sec.address));
            write_u32(out, double_sum(obj.sections.len(), reloc.target_symbol));
            write_u8(out, rsize);
            write_u8(out, rtype);
        }
        assert(out@ =~= old(out)@ + reloc_entries(obj@, sec@, (i + 1) as nat));
        i = i + 1;
    }
}

/// Writes an object as an XCOFF32 PowerPC object file.
///
/// Layout:
/// ```text
///   file header                      20 bytes
///   section headers                  40 bytes each
///   section data                     aligned to 4
///   relocation entries by section    10 bytes each
///   symbol table                     18 bytes each, two per symbol
///   string table                     4-byte length, then names
/// ```
pub fn write_xcoff(obj: &ObjInfo, _export_all: bool) -> (r: Result<Vec<u8>, ObjError>)
    requires
        xcoff_ready(obj@),
    ensures
        r matches Ok(out) && out@ == xcoff_file(obj@),
{
    let n: usize = obj.sections.len();
    let mut symtab: Vec<u8> = write_csects(&obj.sections);
    let mut strtab: StrTab = write_labels(obj, &mut symtab);
    let l = plan(&obj.sections);
    proof {
        lemma_strings_len(obj@.symbols, obj@.symbols.len());
    }
    strtab.finalize();
    let mut out: Vec<u8> = write_headers(obj, &l);
    let mut i: usize = 0;
    while i < n
        invariant
            n == obj@.sections.len() == obj.sections@.len(),
            i <= n,
            xcoff_ready(obj@),
            is_layout(obj@.sections, l),
            out@ == with_data(obj@, i as nat),
        decreases n - i,
    {
        assert(obj@.sections[i as int] == obj.sections@[i as int]@);
        if obj.sections[i].kind != ObjSectionKind::Bss {
            pad_out(&mut out, l.data_offs[i]);
            let d: Vec<u8> = patch_data(obj, i);
            out.extend_from_slice(d.as_slice());
            assert(out@ =~= with_data(obj@, (i + 1) as nat));
        }
        i = i + 1;
    }
    let mut i: usize = 0;
    while i < n
        invariant
            n == obj@.sections.len() == obj.sections@.len(),
            i <= n,
            xcoff_ready(obj@),
            is_layout(obj@.sections, l),
            out@ == with_relocs(obj@, i as nat),
        decreases n - i,
    {
        if l.reloc_counts[i] != 0 {
            pad_out(&mut out, l.reloc_offs[i]);
            write_relocs(obj, i, &mut out);
        }
        i = i + 1;
    }
    pad_out(&mut out, l.symtab);
    out.extend_from_slice(symtab.as_slice());
    out.extend_from_slice(strtab.data.as_slice());
    assert(out@ =~= xcoff_file(obj@));
    Ok(out)
}

/// The string table has room for its length.
proof fn lemma_strings_len(s: Seq<SymbolView>, n: nat)
    ensures
        strings(s, n).len() >= 4,
    decreases n,
{
    if n > 0 {
        lemma_strings_len(s, (n - 1) as nat);
    }
}

/// Whether an object can be written: its sections can be numbered, and the
/// relocations that XCOFF can express lie behind their section's address and
/// name symbols.
pub fn can_write_xcoff(obj: &ObjInfo) -> (r: bool)
    ensures
        r == xcoff_ready(obj@),
{
    let n: usize = obj.sections.len();
    if n > i16::MAX as usize {
        return false;
    }
    let mut i: usize = 0;
    while i < n
        invariant
            n == obj@.sections.len() == obj.sections@.len(),
            n <= i16::MAX,
            i <= n,
            forall|j: int, k: int|
                0 <= j < i && 0 <= k < obj@.sections[j].relocations.len() ==> reloc_ready(
                    obj@,
                    obj@.sections[j],
                    #[trigger] obj@.sections[j].relocations[k],
                ),
        decreases n - i,
    {
        let s = &obj.sections[i];
        assert(obj@.sections[i as int] == s@);
        let mut k: usize = 0;
        while k < s.relocations.len()
            invariant
                i < n == obj@.sections.len(),
                obj@.sections[i as int] == s@,
                k <= s@.relocations.len(),
                forall|m: int|
                    0 <= m < k ==> reloc_ready(
                        obj@,
                        obj@.sections[i as int],
                        #[trigger] obj@.sections[i as int].relocations[m],
                    ),
            decreases s@.relocations.len() - k,
        {
            let e = *s.relocations.entry(k);
            assert(e == obj@.sections[i as int].relocations[k as int]);
            if mapped_reloc_type(e.1.kind).is_some() && ((e.0 as u64) < s.address
                || e.1.target_symbol >= obj.symbols.len()) {
                assert(!reloc_ready(obj@, obj@.sections[i as int], e));
                return false;
            }
            k = k + 1;
        }
        i = i + 1;
    }
    true
}

} // verus!
