//! Writing an object as a 32-bit x86 COFF file.
use vstd::prelude::*;
use vstd::utf8::*;

use object::write::{Object, Relocation, RelocationFlags, SectionId, Symbol, SymbolId, SymbolSection};
use object::{
    Architecture, BinaryFormat, Endianness, RelocationEncoding, RelocationKind, SectionKind,
    SymbolFlags, SymbolKind, SymbolScope,
};

use crate::bytes::le32;
use crate::obj::{
    ObjInfo, ObjReloc, ObjRelocKind, ObjSection, ObjSectionKind, ObjSymbol, ObjSymbolFlagSet,
    ObjSymbolKind, ObjView, SectionView, SymbolView,
};
use crate::util::xcoff::trunc32;

verus! {

/// `object::write::Object`, a file under construction.
#[verifier::external_type_specification]
#[verifier::external_body]
pub struct ExObject<'a>(object::write::Object<'a>);

/// `object::write::SectionId`, a section of an [`Object`].
#[verifier::external_type_specification]
#[verifier::external_body]
pub struct ExSectionId(object::write::SectionId);

/// `object::write::SymbolId`, a symbol of an [`Object`].
#[verifier::external_type_specification]
#[verifier::external_body]
pub struct ExSymbolId(object::write::SymbolId);

/// `object::write::Error`.
#[verifier::external_type_specification]
#[verifier::external_body]
pub struct ExWriteError(object::write::Error);

/// A relocation of a file under construction.
pub ghost struct OutReloc {
    pub offset: u64,
    /// The number of the symbol.
    pub symbol: nat,
    pub relative: bool,
}

/// A section of a file under construction.
pub ghost struct OutSection {
    pub name: Seq<u8>,
    pub kind: ObjSectionKind,
    pub size: u64,
    pub align: u64,
    pub data: Seq<u8>,
    pub relocations: Seq<OutReloc>,
    /// The number of the symbol that stands for the section.
    pub symbol: Option<nat>,
}

/// A symbol of a file under construction.
pub ghost struct OutSymbol {
    pub name: Seq<u8>,
    pub value: u64,
    pub size: u64,
    pub kind: ObjSymbolKind,
    /// Whether the linker sees it.
    pub linkage: bool,
    pub weak: bool,
    /// The number of the section that defines it.
    pub section: Option<nat>,
}

/// The sections of an [`Object`], in the order of their numbers.
pub uninterp spec fn out_sections(o: Object<'static>) -> Seq<OutSection>;

/// The symbols of an [`Object`], in the order of their numbers.
pub uninterp spec fn out_symbols(o: Object<'static>) -> Seq<OutSymbol>;

/// The number of the section that an id stands for.
pub uninterp spec fn section_number(id: SectionId) -> nat;

/// The number of the symbol that an id stands for.
pub uninterp spec fn symbol_number(id: SymbolId) -> nat;

/// The bytes of the COFF file with the given sections and symbols.
pub uninterp spec fn coff_image(sections: Seq<OutSection>, symbols: Seq<OutSymbol>) -> Seq<u8>;

/// `object::write::Object::new` for COFF, i386, little-endian: a file without
/// sections and symbols.
#[verifier::external_body]
fn new_object() -> (r: Object<'static>)
    ensures
        out_sections(r) == Seq::<OutSection>::empty(),
        out_symbols(r) == Seq::<OutSymbol>::empty(),
{
    Object::new(BinaryFormat::Coff, Architecture::I386, Endianness::Little)
}

/// `object::write::Object::add_section` without a segment: appends an empty
/// section; no symbol is made for it.
#[verifier::external_body]
fn add_section(o: &mut Object<'static>, name: &[u8], kind: ObjSectionKind) -> (r: SectionId)
    ensures
        section_number(r) == out_sections(*old(o)).len(),
        out_sections(*final(o)) == out_sections(*old(o)).push(
            OutSection {
                name: name@,
                kind,
                size: 0,
                align: 1,
                data: Seq::empty(),
                relocations: Seq::empty(),
                symbol: None,
            },
        ),
        out_symbols(*final(o)) == out_symbols(*old(o)),
{
    let kind = match kind {
        ObjSectionKind::Code => SectionKind::Text,
        ObjSectionKind::Data => SectionKind::Data,
        ObjSectionKind::ReadOnlyData => SectionKind::ReadOnlyData,
        ObjSectionKind::Bss => SectionKind::UninitializedData,
    };
    o.add_section(Vec::new(), name.to_vec(), kind)
}

/// Whether `a` is a power of two.
pub open spec fn is_power_of_two(a: u64) -> bool {
    a >= 1 && a & ((a - 1) as u64) == 0
}

/// `object::write::Object::append_section_bss`: gives a section that has no size
/// yet its size, and raises its alignment to `align`.
#[verifier::external_body]
fn append_bss(o: &mut Object<'static>, id: SectionId, size: u64, align: u64)
    requires
        section_number(id) < out_sections(*old(o)).len(),
        out_sections(*old(o))[section_number(id) as int].kind == ObjSectionKind::Bss,
        out_sections(*old(o))[section_number(id) as int].size == 0,
        is_power_of_two(align),
    ensures
        ({
            let n = section_number(id) as int;
            let s = out_sections(*old(o))[n];
            out_sections(*final(o)) == out_sections(*old(o)).update(
                n,
                OutSection {
                    size,
                    align: if s.align < align {
                        align
                    } else {
                        s.align
                    },
                    ..s
                },
            )
        }),
        out_symbols(*final(o)) == out_symbols(*old(o)),
{
    o.append_section_bss(id, size, align);
}

/// `object::write::Object::set_section_data`: gives a section that has no data
/// yet its data and alignment.
#[verifier::external_body]
fn set_data(o: &mut Object<'static>, id: SectionId, data: Vec<u8>, align: u64)
    requires
        section_number(id) < out_sections(*old(o)).len(),
        out_sections(*old(o))[section_number(id) as int].kind != ObjSectionKind::Bss,
        out_sections(*old(o))[section_number(id) as int].data.len() == 0,
        is_power_of_two(align),
    ensures
        ({
            let n = section_number(id) as int;
            let s = out_sections(*old(o))[n];
            out_sections(*final(o)) == out_sections(*old(o)).update(
                n,
                OutSection { size: data@.len() as u64, align, data: data@, ..s },
            )
        }),
        out_symbols(*final(o)) == out_symbols(*old(o)),
{
    o.set_section_data(id, data, align);
}

/// The name under which a symbol is stored: functions and objects that have a
/// name get an underscore in front.
pub open spec fn stored_name(name: Seq<u8>, kind: ObjSymbolKind) -> Seq<u8> {
    if name.len() > 0 && (kind == ObjSymbolKind::Function || kind == ObjSymbolKind::Object) {
        seq![0x5Fu8] + name
    } else {
        name
    }
}

/// The symbol that stands for a section.
pub open spec fn section_symbol(s: OutSection, n: nat) -> OutSymbol {
    OutSymbol {
        name: s.name,
        value: 0,
        size: 0,
        kind: ObjSymbolKind::Section,
        linkage: false,
        weak: false,
        section: Some(n),
    }
}

/// The number of the section of an id, if there is one.
pub open spec fn number_of(id: Option<SectionId>) -> Option<nat> {
    match id {
        Some(i) => Some(section_number(i)),
        None => None,
    }
}

/// `object::write::Object::add_symbol`: appends a symbol, named as i386 COFF
/// names it. A section symbol is the one symbol of its section: it is made
/// where the section has none, and its other fields are not looked at.
#[verifier::external_body]
fn add_symbol(
    o: &mut Object<'static>,
    name: &[u8],
    value: u64,
    size: u64,
    kind: ObjSymbolKind,
    linkage: bool,
    weak: bool,
    section: Option<SectionId>,
) -> (r: SymbolId)
    requires
        section matches Some(id) ==> section_number(id) < out_sections(*old(o)).len(),
        kind == ObjSymbolKind::Section ==> section is Some,
    ensures
        kind != ObjSymbolKind::Section ==> {
            &&& symbol_number(r) == out_symbols(*old(o)).len()
            &&& out_sections(*final(o)) == out_sections(*old(o))
            &&& out_symbols(*final(o)) == out_symbols(*old(o)).push(
                OutSymbol {
                    name: stored_name(name@, kind),
                    value,
                    size,
                    kind,
                    linkage,
                    weak,
                    section: number_of(section),
                },
            )
        },
        kind == ObjSymbolKind::Section ==> {
            let n = section_number(section->Some_0);
            let s = out_sections(*old(o))[n as int];
            match s.symbol {
                Some(k) => {
                    &&& symbol_number(r) == k
                    &&& out_sections(*final(o)) == out_sections(*old(o))
                    &&& out_symbols(*final(o)) == out_symbols(*old(o))
                },
                None => {
                    let k = out_symbols(*old(o)).len();
                    &&& symbol_number(r) == k
                    &&& out_sections(*final(o)) == out_sections(*old(o)).update(
                        n as int,
                        OutSection { symbol: Some(k), ..s },
                    )
                    &&& out_symbols(*final(o)) == out_symbols(*old(o)).push(section_symbol(s, n))
                },
            }
        },
{
    let (name, flags) = (name.to_vec(), SymbolFlags::None);
    let kind = match kind {
        ObjSymbolKind::Function => SymbolKind::Text,
        ObjSymbolKind::Object => SymbolKind::Data,
        ObjSymbolKind::Section => SymbolKind::Section,
        ObjSymbolKind::Unknown => SymbolKind::Unknown,
    };
    let scope = match linkage {
        true => SymbolScope::Linkage,
        false => SymbolScope::Compilation,
    };
    let section = section.map_or(SymbolSection::Undefined, SymbolSection::Section);
    o.add_symbol(Symbol { name, value, size, kind, scope, weak, section, flags })
}

/// What is written at the place of a relocation: the addend, and for a relative
/// one the four bytes of its field more.
pub open spec fn stored_addend(addend: i64, relative: bool) -> int {
    addend + (if relative {
        4int
    } else {
        0
    })
}

/// `d` with the four bytes of `w`, least significant first, at `off`.
pub open spec fn with_le_word(d: Seq<u8>, off: int, w: u32) -> Seq<u8> {
    Seq::new(d.len(), |i: int| if off <= i < off + 4 { le32(w)[i - off] } else { d[i] })
}

/// Whether the field of a relocation that has to be written is not inside the
/// data.
pub open spec fn reloc_outside(s: OutSection, offset: u64, addend: i64, relative: bool) -> bool {
    stored_addend(addend, relative) != 0 && offset + 4 > s.data.len()
}

/// A section with one more relocation.
pub open spec fn relocated(
    s: OutSection,
    offset: u64,
    symbol: nat,
    addend: i64,
    relative: bool,
) -> OutSection {
    let a = stored_addend(addend, relative);
    OutSection {
        data: if a != 0 {
            with_le_word(s.data, offset as int, trunc32(a))
        } else {
            s.data
        },
        relocations: s.relocations.push(OutReloc { offset, symbol, relative }),
        ..s
    }
}

/// `object::write::Object::add_relocation` of a 32-bit absolute or relative
/// relocation: writes the addend to the section data, unless it is zero, and
/// appends the relocation. It fails, and changes nothing, where the field is
/// not inside the data.
#[verifier::external_body]
fn add_relocation(
    o: &mut Object<'static>,
    id: SectionId,
    offset: u64,
    symbol: SymbolId,
    addend: i64,
    relative: bool,
) -> (r: Result<(), object::write::Error>)
    requires
        section_number(id) < out_sections(*old(o)).len(),
        offset <= u32::MAX,
        stored_addend(addend, relative) <= i64::MAX,
        stored_addend(addend, relative) != 0 ==> out_sections(
            *old(o),
        )[section_number(id) as int].kind != ObjSectionKind::Bss,
    ensures
        r is Err == reloc_outside(
            out_sections(*old(o))[section_number(id) as int],
            offset,
            addend,
            relative,
        ),
        r is Err ==> out_sections(*final(o)) == out_sections(*old(o)),
        r is Ok ==> out_sections(*final(o)) == out_sections(*old(o)).update(
            section_number(id) as int,
            relocated(
                out_sections(*old(o))[section_number(id) as int],
                offset,
                symbol_number(symbol),
                addend,
                relative,
            ),
        ),
        out_symbols(*final(o)) == out_symbols(*old(o)),
{
    let kind = match relative {
        true => RelocationKind::Relative,
        false => RelocationKind::Absolute,
    };
    let flags = RelocationFlags::Generic { kind, encoding: RelocationEncoding::Generic, size: 32 };
    o.add_relocation(id, Relocation { offset, symbol, addend, flags })
}

/// Whether COFF can state an alignment.
pub open spec fn align_known(a: u64) -> bool {
    a <= 8192 && is_power_of_two(a)
}

/// Whether a stored name fits: a name of more than eight bytes has no zero byte.
pub open spec fn name_fits(name: Seq<u8>) -> bool {
    name.len() > 8 ==> !name.contains(0)
}

/// Whether a file can be written at all: sections and symbols can be numbered,
/// long names have no zero byte, and relocations name symbols.
pub open spec fn image_ready(sections: Seq<OutSection>, symbols: Seq<OutSymbol>) -> bool {
    &&& sections.len() <= u16::MAX
    &&& 2 * symbols.len() <= u32::MAX
    &&& forall|i: int|
        0 <= i < sections.len() ==> name_fits((#[trigger] sections[i]).name)
            && sections[i].relocations.len() < u32::MAX
    &&& forall|i: int| 0 <= i < symbols.len() ==> name_fits((#[trigger] symbols[i]).name)
    &&& forall|i: int, k: int|
        0 <= i < sections.len() && 0 <= k < sections[i].relocations.len() ==> (
        #[trigger] sections[i].relocations[k]).symbol < symbols.len()
}

/// Whether COFF can express all sections and symbols: their alignments and
/// kinds.
pub open spec fn image_known(sections: Seq<OutSection>, symbols: Seq<OutSymbol>) -> bool {
    &&& forall|i: int| 0 <= i < sections.len() ==> align_known((#[trigger] sections[i]).align)
    &&& forall|i: int|
        0 <= i < symbols.len() ==> (#[trigger] symbols[i]).kind != ObjSymbolKind::Unknown
}

/// `object::write::Object::write`: the bytes of the file, a function of its
/// sections and symbols alone. It fails exactly on an alignment that COFF cannot
/// state and on a symbol of unknown kind.
#[verifier::external_body]
fn write_object(o: &Object<'static>) -> (r: Result<Vec<u8>, object::write::Error>)
    requires
        image_ready(out_sections(*o), out_symbols(*o)),
    ensures
        r is Ok <==> image_known(out_sections(*o), out_symbols(*o)),
        r matches Ok(v) ==> v@ == coff_image(out_sections(*o), out_symbols(*o)),
{
    o.write()
}

/// Why an object cannot be written as COFF.
#[derive(Clone, Copy, Debug, PartialEq, Eq, Structural)]
pub enum CoffWriteError {
    /// The field of a relocation is not inside the section data.
    RelocationOutside,
    /// COFF cannot express an alignment or a symbol.
    Unsupported,
}

/// Whether COFF has the relocation, and if so whether it is relative.
pub open spec fn coff_reloc(kind: ObjRelocKind) -> Option<bool> {
    match kind {
        ObjRelocKind::X86Abs32 => Some(false),
        ObjRelocKind::X86Rel32 => Some(true),
        _ => None,
    }
}

/// Whether the linker sees a symbol.
pub open spec fn has_linkage(flags: ObjSymbolFlagSet, kind: ObjSymbolKind, export_all: bool) -> bool {
    flags.weak || flags.exported || flags.global || export_all && !flags.no_export && (kind
        == ObjSymbolKind::Function || kind == ObjSymbolKind::Object)
}

/// The alignment of a section, at least one.
pub open spec fn coff_align(s: SectionView) -> u64 {
    if s.align < 1 {
        1
    } else {
        s.align
    }
}

/// `d` with zero bytes at the places of the first `n` relocations.
pub open spec fn cleared(s: SectionView, n: nat) -> Seq<u8>
    decreases n,
{
    if n == 0 {
        s.data
    } else {
        let d = cleared(s, (n - 1) as nat);
        let off = s.relocations[n - 1].0 - s.address;
        if off + 4 <= d.len() {
            with_le_word(d, off, 0)
        } else {
            d
        }
    }
}

/// A section before symbols and relocations are added.
pub open spec fn bare_section(s: SectionView) -> OutSection {
    let data = if s.kind == ObjSectionKind::Bss {
        Seq::empty()
    } else {
        cleared(s, s.relocations.len())
    };
    OutSection {
        name: encode_utf8(s.name),
        kind: s.kind,
        size: if s.kind == ObjSectionKind::Bss {
            s.size
        } else {
            data.len() as u64
        },
        align: coff_align(s),
        data,
        relocations: Seq::empty(),
        symbol: None,
    }
}

/// What was added to the file so far.
pub ghost struct CoffState {
    pub sections: Seq<OutSection>,
    pub symbols: Seq<OutSymbol>,
    /// The number in the file of each symbol of the object.
    pub numbers: Seq<nat>,
}

/// The section that defines a symbol, if it is one of `n`.
pub open spec fn defining(sym: SymbolView, n: nat) -> Option<nat> {
    match sym.section {
        Some(i) if i < n => Some(i as nat),
        _ => None,
    }
}

/// The file with one more symbol.
pub open spec fn with_symbol(st: CoffState, sym: SymbolView, export_all: bool) -> CoffState {
    let place = defining(sym, st.sections.len());
    let next = st.symbols.len();
    if sym.kind == ObjSymbolKind::Section {
        let n = place->Some_0;
        let s = st.sections[n as int];
        match s.symbol {
            Some(k) => CoffState { numbers: st.numbers.push(k), ..st },
            None => CoffState {
                sections: st.sections.update(n as int, OutSection { symbol: Some(next), ..s }),
                symbols: st.symbols.push(section_symbol(s, n)),
                numbers: st.numbers.push(next),
            },
        }
    } else {
        let out = OutSymbol {
            name: stored_name(encode_utf8(sym.name), sym.kind),
            value: sym.address,
            size: sym.size,
            kind: sym.kind,
            linkage: has_linkage(sym.flags, sym.kind, export_all),
            weak: sym.flags.weak,
            section: place,
        };
        CoffState { symbols: st.symbols.push(out), numbers: st.numbers.push(next), ..st }
    }
}

/// The file with all sections and the first `n` symbols.
pub open spec fn with_symbols(obj: ObjView, export_all: bool, n: nat) -> CoffState
    decreases n,
{
    if n == 0 {
        CoffState {
            sections: obj.sections.map_values(|s: SectionView| bare_section(s)),
            symbols: Seq::empty(),
            numbers: Seq::empty(),
        }
    } else {
        with_symbol(with_symbols(obj, export_all, (n - 1) as nat), obj.symbols[n - 1], export_all)
    }
}

/// The file with one more relocation of section `i`.
pub open spec fn with_reloc(st: CoffState, s: SectionView, i: int, e: (u32, ObjReloc)) -> Result<
    CoffState,
    CoffWriteError,
> {
    match coff_reloc(e.1.kind) {
        None => Ok(st),
        Some(relative) => {
            let offset = (e.0 - s.address) as u64;
            let out = st.sections[i];
            if reloc_outside(out, offset, e.1.addend, relative) {
                Err(CoffWriteError::RelocationOutside)
            } else {
                Ok(
                    CoffState {
                        sections: st.sections.update(
                            i,
                            relocated(
                                out,
                                offset,
                                st.numbers[e.1.target_symbol as int],
                                e.1.addend,
                                relative,
                            ),
                        ),
                        ..st
                    },
                )
            }
        },
    }
}

/// The file with the first `n` relocations of section `i`.
pub open spec fn with_section_relocs(st: CoffState, s: SectionView, i: int, n: nat) -> Result<
    CoffState,
    CoffWriteError,
>
    decreases n,
{
    if n == 0 {
        Ok(st)
    } else {
        match with_section_relocs(st, s, i, (n - 1) as nat) {
            Err(e) => Err(e),
            Ok(below) => with_reloc(below, s, i, s.relocations[n - 1]),
        }
    }
}

/// The file with the relocations of the first `n` sections.
pub open spec fn with_relocs(obj: ObjView, export_all: bool, n: nat) -> Result<
    CoffState,
    CoffWriteError,
>
    decreases n,
{
    if n == 0 {
        Ok(with_symbols(obj, export_all, obj.symbols.len()))
    } else {
        match with_relocs(obj, export_all, (n - 1) as nat) {
            Err(e) => Err(e),
            Ok(below) => with_section_relocs(
                below,
                obj.sections[n - 1],
                n - 1,
                obj.sections[n - 1].relocations.len(),
            ),
        }
    }
}

/// The COFF file of an object, or why there is none.
pub open spec fn coff_file(obj: ObjView, export_all: bool) -> Result<Seq<u8>, CoffWriteError> {
    match with_relocs(obj, export_all, obj.sections.len()) {
        Err(e) => Err(e),
        Ok(st) => if image_known(st.sections, st.symbols) {
            Ok(coff_image(st.sections, st.symbols))
        } else {
            Err(CoffWriteError::Unsupported)
        },
    }
}

/// Whether a relocation can be added: it lies behind the address of its section,
/// names a symbol, its addend can be stored, and it needs no data where there is
/// none.
pub open spec fn reloc_ready(obj: ObjView, s: SectionView, e: (u32, ObjReloc)) -> bool {
    &&& s.kind != ObjSectionKind::Bss ==> s.address <= e.0
    &&& coff_reloc(e.1.kind) matches Some(relative) ==> {
        &&& s.address <= e.0
        &&& e.1.target_symbol < obj.symbols.len()
        &&& stored_addend(e.1.addend, relative) <= i64::MAX
        &&& s.kind == ObjSectionKind::Bss ==> stored_addend(e.1.addend, relative) == 0
    }
}

/// Whether a section can be added.
pub open spec fn section_ready(obj: ObjView, s: SectionView) -> bool {
    &&& is_power_of_two(coff_align(s))
    &&& name_fits(encode_utf8(s.name))
    &&& s.relocations.len() < u32::MAX
    &&& forall|k: int|
        0 <= k < s.relocations.len() ==> reloc_ready(obj, s, #[trigger] s.relocations[k])
}

/// Whether a symbol can be added.
pub open spec fn symbol_ready(obj: ObjView, sym: SymbolView) -> bool {
    if sym.kind == ObjSymbolKind::Section {
        defining(sym, obj.sections.len()) is Some
    } else {
        name_fits(stored_name(encode_utf8(sym.name), sym.kind))
    }
}

/// Whether an object can be handed to the COFF writer.
pub open spec fn coff_ready(obj: ObjView) -> bool {
    &&& obj.sections.len() <= u16::MAX
    &&& 2 * obj.symbols.len() <= u32::MAX
    &&& forall|i: int| 0 <= i < obj.sections.len() ==> section_ready(obj, #[trigger] obj.sections[i])
    &&& forall|i: int| 0 <= i < obj.symbols.len() ==> symbol_ready(obj, #[trigger] obj.symbols[i])
}

/// What holds of a section of the file: it is made of a section of the object,
/// and names only symbols of the file.
pub open spec fn out_ok(s: SectionView, out: OutSection, symbols: nat) -> bool {
    &&& out.name == encode_utf8(s.name)
    &&& out.kind == s.kind
    &&& out.symbol matches Some(k) ==> k < symbols
    &&& forall|k: int|
        0 <= k < out.relocations.len() ==> (#[trigger] out.relocations[k]).symbol < symbols
}

/// What holds of the file while symbols and relocations are added.
pub open spec fn state_ok(obj: ObjView, st: CoffState) -> bool {
    &&& st.sections.len() == obj.sections.len()
    &&& st.symbols.len() <= st.numbers.len() <= obj.symbols.len()
    &&& forall|i: int|
        0 <= i < st.sections.len() ==> out_ok(
            obj.sections[i],
            #[trigger] st.sections[i],
            st.symbols.len(),
        )
    &&& forall|i: int| 0 <= i < st.symbols.len() ==> name_fits((#[trigger] st.symbols[i]).name)
    &&& forall|i: int| 0 <= i < st.numbers.len() ==> #[trigger] st.numbers[i] < st.symbols.len()
}

/// Adding a symbol keeps the file in order.
proof fn lemma_with_symbol(obj: ObjView, st: CoffState, i: int, export_all: bool)
    requires
        coff_ready(obj),
        state_ok(obj, st),
        st.numbers.len() == i < obj.symbols.len(),
    ensures
        state_ok(obj, with_symbol(st, obj.symbols[i], export_all)),
        with_symbol(st, obj.symbols[i], export_all).numbers.len() == i + 1,
        forall|j: int|
            0 <= j < st.sections.len() ==> (#[trigger] with_symbol(
                st,
                obj.symbols[i],
                export_all,
            ).sections[j]).relocations == st.sections[j].relocations,
{
    let sym = obj.symbols[i];
    assert(symbol_ready(obj, sym));
    let next = with_symbol(st, sym, export_all);
    assert(st.symbols.len() <= next.symbols.len());
    assert forall|j: int| 0 <= j < next.sections.len() implies out_ok(
        obj.sections[j],
        #[trigger] next.sections[j],
        next.symbols.len(),
    ) by {
        assert(out_ok(obj.sections[j], st.sections[j], st.symbols.len()));
    }
    if sym.kind == ObjSymbolKind::Section {
        let n = defining(sym, st.sections.len())->Some_0 as int;
        assert(section_ready(obj, obj.sections[n]));
        assert(out_ok(obj.sections[n], st.sections[n], st.symbols.len()));
    }
}

/// Adding a relocation keeps the file in order.
proof fn lemma_with_reloc(obj: ObjView, st: CoffState, i: int, e: (u32, ObjReloc))
    requires
        state_ok(obj, st),
        st.numbers.len() == obj.symbols.len(),
        0 <= i < obj.sections.len(),
        reloc_ready(obj, obj.sections[i], e),
    ensures
        with_reloc(st, obj.sections[i], i, e) matches Ok(next) ==> {
            &&& state_ok(obj, next)
            &&& next.numbers == st.numbers
            &&& next.symbols == st.symbols
            &&& next.sections[i].relocations.len() <= st.sections[i].relocations.len() + 1
            &&& forall|j: int|
                0 <= j < st.sections.len() && j != i ==> #[trigger] next.sections[j]
                    == st.sections[j]
        },
{
    if let Ok(next) = with_reloc(st, obj.sections[i], i, e) {
        assert(out_ok(obj.sections[i], st.sections[i], st.symbols.len()));
        assert forall|j: int| 0 <= j < next.sections.len() implies out_ok(
            obj.sections[j],
            #[trigger] next.sections[j],
            next.symbols.len(),
        ) by {
            assert(out_ok(obj.sections[j], st.sections[j], st.symbols.len()));
        }
    }
}

proof fn lemma_section_relocs_stop(st: CoffState, s: SectionView, i: int, n: nat, all: nat)
    requires
        n <= all,
        with_section_relocs(st, s, i, n) is Err,
    ensures
        with_section_relocs(st, s, i, all) == with_section_relocs(st, s, i, n),
    decreases all,
{
    if n < all {
        lemma_section_relocs_stop(st, s, i, n, (all - 1) as nat);
    }
}

proof fn lemma_relocs_stop(obj: ObjView, export_all: bool, n: nat, all: nat)
    requires
        n <= all,
        with_relocs(obj, export_all, n) is Err,
    ensures
        with_relocs(obj, export_all, all) == with_relocs(obj, export_all, n),
    decreases all,
{
    if n < all {
        lemma_relocs_stop(obj, export_all, n, (all - 1) as nat);
    }
}

/// Sets the four bytes from `off` on to zero.
fn clear_word(d: &mut Vec<u8>, off: usize)
    requires
        off + 4 <= old(d)@.len(),
    ensures
        final(d)@ == with_le_word(old(d)@, off as int, 0),
{
    assert(off + 4 <= d.len());
    d.set(off, 0);
    d.set(off + 1, 0);
    d.set(off + 2, 0);
    d.set(off + 3, 0);
    assert(d@ =~= with_le_word(old(d)@, off as int, 0));
}

/// The data of a section with zero bytes at the places of relocations: the
/// addend goes with the relocation.
fn clear_relocs(s: &ObjSection) -> (r: Vec<u8>)
    requires
        forall|k: int| 0 <= k < s@.relocations.len() ==> s@.address <= (#[trigger] s@.relocations[k]).0,
    ensures
        r@ == cleared(s@, s@.relocations.len()),
        r@.len() == s@.data.len(),
{
    let mut d: Vec<u8> = vstd::slice::slice_to_vec(s.data.as_slice());
    assert(d@ =~= s@.data);
    let mut i: usize = 0;
    while i < s.relocations.len()
        invariant
            i <= s@.relocations.len(),
            d@ == cleared(s@, i as nat),
            d@.len() == s@.data.len(),
            forall|k: int|
                0 <= k < s@.relocations.len() ==> s@.address <= (#[trigger] s@.relocations[k]).0,
        decreases s@.relocations.len() - i,
    {
        let addr: u32 = s.relocations.entry(i).0;
        assert(s@.address <= s@.relocations[i as int].0);
        let off: u64 = addr as u64 - s.address;
        if off + 4 <= d.len() as u64 {
            clear_word(&mut d, off as usize);
        }
        i = i + 1;
    }
    d
}

/// Adds all sections; returns their ids.
fn add_sections(obj: &ObjInfo, o: &mut Object<'static>) -> (r: Vec<SectionId>)
    requires
        coff_ready(obj@),
        out_sections(*old(o)) == Seq::<OutSection>::empty(),
        out_symbols(*old(o)) == Seq::<OutSymbol>::empty(),
    ensures
        r@.len() == obj@.sections.len(),
        forall|i: int| 0 <= i < r@.len() ==> section_number(#[trigger] r@[i]) == i,
        out_sections(*final(o)) == obj@.sections.map_values(|s: SectionView| bare_section(s)),
        out_symbols(*final(o)) == Seq::<OutSymbol>::empty(),
{
    let ghost bare = obj@.sections.map_values(|s: SectionView| bare_section(s));
    let mut ids: Vec<SectionId> = Vec::new();
    let mut i: usize = 0;
    assert(bare.take(0) =~= Seq::<OutSection>::empty());
    while i < obj.sections.len()
        invariant
            i <= obj@.sections.len() == obj.sections@.len(),
            coff_ready(obj@),
            bare == obj@.sections.map_values(|s: SectionView| bare_section(s)),
            ids@.len() == i,
            forall|j: int| 0 <= j < i ==> section_number(#[trigger] ids@[j]) == j,
            out_sections(*o) == bare.take(i as int),
            out_symbols(*o) == Seq::<OutSymbol>::empty(),
        decreases obj.sections@.len() - i,
    {
        let s = &obj.sections[i];
        assert(obj@.sections[i as int] == s@);
        assert(section_ready(obj@, obj@.sections[i as int]));
        let align: u64 = if s.align < 1 {
            1
        } else {
            s.align
        };
        let id = add_section(o, s.name.as_str().as_bytes(), s.kind);
        if s.kind == ObjSectionKind::Bss {
            append_bss(o, id, s.size, align);
        } else {
            assert forall|k: int| 0 <= k < s@.relocations.len() implies s@.address <= (
            #[trigger] s@.relocations[k]).0 by {
                assert(reloc_ready(obj@, s@, s@.relocations[k]));
            }
            let data: Vec<u8> = clear_relocs(s);
            set_data(o, id, data, align);
        }
        ids.push(id);
        assert(out_sections(*o) =~= bare.take(i + 1));
        i = i + 1;
    }
    assert(bare.take(i as int) =~= bare);
    ids
}

/// Adds all symbols; returns their ids.
fn add_symbols(obj: &ObjInfo, export_all: bool, ids: &Vec<SectionId>, o: &mut Object<'static>) -> (r:
    Vec<SymbolId>)
    requires
        coff_ready(obj@),
        ids@.len() == obj@.sections.len(),
        forall|i: int| 0 <= i < ids@.len() ==> section_number(#[trigger] ids@[i]) == i,
        out_sections(*old(o)) == with_symbols(obj@, export_all, 0).sections,
        out_symbols(*old(o)) == Seq::<OutSymbol>::empty(),
    ensures
        ({
            let st = with_symbols(obj@, export_all, obj@.symbols.len());
            &&& state_ok(obj@, st)
            &&& st.numbers.len() == obj@.symbols.len()
            &&& forall|j: int|
                0 <= j < st.sections.len() ==> (#[trigger] st.sections[j]).relocations.len() == 0
            &&& out_sections(*final(o)) == st.sections
            &&& out_symbols(*final(o)) == st.symbols
            &&& r@.len() == st.numbers.len()
            &&& forall|i: int| 0 <= i < r@.len() ==> symbol_number(#[trigger] r@[i]) == st.numbers[i]
        }),
{
    let mut out: Vec<SymbolId> = Vec::new();
    let mut i: usize = 0;
    while i < obj.symbols.len()
        invariant
            i <= obj@.symbols.len() == obj.symbols@.len(),
            coff_ready(obj@),
            ids@.len() == obj@.sections.len(),
            forall|j: int| 0 <= j < ids@.len() ==> section_number(#[trigger] ids@[j]) == j,
            out_sections(*o) == with_symbols(obj@, export_all, i as nat).sections,
            out_symbols(*o) == with_symbols(obj@, export_all, i as nat).symbols,
            state_ok(obj@, with_symbols(obj@, export_all, i as nat)),
            with_symbols(obj@, export_all, i as nat).numbers.len() == i,
            forall|j: int|
                0 <= j < obj@.sections.len() ==> (#[trigger] with_symbols(
                    obj@,
                    export_all,
                    i as nat,
                ).sections[j]).relocations.len() == 0,
            out@.len() == i,
            forall|j: int|
                0 <= j < i ==> symbol_number(#[trigger] out@[j]) == with_symbols(
                    obj@,
                    export_all,
                    i as nat,
                ).numbers[j],
        decreases obj.symbols@.len() - i,
    {
        let sym = &obj.symbols[i];
        assert(obj@.symbols[i as int] == sym@);
        let ghost st = with_symbols(obj@, export_all, i as nat);
        proof {
            assert(symbol_ready(obj@, obj@.symbols[i as int]));
            lemma_with_symbol(obj@, st, i as int, export_all);
        }
        let section: Option<SectionId> = match sym.section {
            Some(n) => if n < ids.len() {
                Some(ids[n])
            } else {
                None
            },
            None => None,
        };
        let linkage: bool = sym.flags.weak || sym.flags.exported || sym.flags.global || (export_all
            && !sym.flags.no_export && (sym.kind == ObjSymbolKind::Function || sym.kind
            == ObjSymbolKind::Object));
        assert(number_of(section) == defining(sym@, st.sections.len()));
        let id = add_symbol(
            o,
            sym.name.as_str().as_bytes(),
            sym.address,
            sym.size,
            sym.kind,
            linkage,
            sym.flags.weak,
            section,
        );
        out.push(id);
        assert(with_symbols(obj@, export_all, (i + 1) as nat) == with_symbol(
            st,
            obj@.symbols[i as int],
            export_all,
        ));
        i = i + 1;
    }
    out
}

/// Adds the relocations of section `index`.
fn add_section_relocs(
    obj: &ObjInfo,
    index: usize,
    ids: &Vec<SectionId>,
    symbols: &Vec<SymbolId>,
    o: &mut Object<'static>,
    Ghost(st): Ghost<CoffState>,
) -> (r: Result<(), CoffWriteError>)
    requires
        coff_ready(obj@),
        state_ok(obj@, st),
        st.numbers.len() == obj@.symbols.len(),
        index < obj@.sections.len(),
        st.sections[index as int].relocations.len() == 0,
        ids@.len() == obj@.sections.len(),
        forall|i: int| 0 <= i < ids@.len() ==> section_number(#[trigger] ids@[i]) == i,
        symbols@.len() == st.numbers.len(),
        forall|i: int|
            0 <= i < symbols@.len() ==> symbol_number(#[trigger] symbols@[i]) == st.numbers[i],
        out_sections(*old(o)) == st.sections,
        out_symbols(*old(o)) == st.symbols,
    ensures
        ({
            let s = obj@.sections[index as int];
            let end = with_section_relocs(st, s, index as int, s.relocations.len());
            match r {
                Err(e) => end == Err::<CoffState, _>(e),
                Ok(_) => {
                    &&& end is Ok
                    &&& state_ok(obj@, end->Ok_0)
                    &&& end->Ok_0.numbers == st.numbers
                    &&& end->Ok_0.symbols == st.symbols
                    &&& out_sections(*final(o)) == end->Ok_0.sections
                    &&& out_symbols(*final(o)) == st.symbols
                    &&& end->Ok_0.sections[index as int].relocations.len() <= s.relocations.len()
                    &&& forall|j: int|
                        0 <= j < st.sections.len() && j != index
                            ==> #[trigger] end->Ok_0.sections[j] == st.sections[j]
                },
            }
        }),
{
    let sec = &obj.sections[index];
    assert(obj@.sections[index as int] == sec@);
    let ghost s = sec@;
    let ghost mut now = st;
    let mut k: usize = 0;
    while k < sec.relocations.len()
        invariant
            coff_ready(obj@),
            s == sec@,
            index < obj@.sections.len(),
            obj@.sections[index as int] == s,
            ids@.len() == obj@.sections.len(),
            forall|i: int| 0 <= i < ids@.len() ==> section_number(#[trigger] ids@[i]) == i,
            symbols@.len() == st.numbers.len(),
            st.numbers.len() == obj@.symbols.len(),
            forall|i: int|
                0 <= i < symbols@.len() ==> symbol_number(#[trigger] symbols@[i]) == st.numbers[i],
            k <= s.relocations.len(),
            with_section_relocs(st, s, index as int, k as nat) == Ok::<_, CoffWriteError>(now),
            state_ok(obj@, now),
            now.numbers == st.numbers,
            now.symbols == st.symbols,
            now.sections.len() == st.sections.len(),
            out_sections(*o) == now.sections,
            out_symbols(*o) == st.symbols,
            now.sections[index as int].relocations.len() <= k,
            forall|j: int|
                0 <= j < st.sections.len() && j != index ==> #[trigger] now.sections[j]
                    == st.sections[j],
        decreases s.relocations.len() - k,
    {
        let e = sec.relocations.entry(k);
        let (addr, reloc): (u32, ObjReloc) = (e.0, e.1);
        proof {
            assert(section_ready(obj@, obj@.sections[index as int]));
            assert(reloc_ready(obj@, s, s.relocations[k as int]));
            lemma_with_reloc(obj@, now, index as int, s.relocations[k as int]);
            assert(out_ok(obj@.sections[index as int], now.sections[index as int], now.symbols.len()));
        }
        let relative: bool = match reloc.kind {
            ObjRelocKind::X86Abs32 => false,
            ObjRelocKind::X86Rel32 => true,
            _ => {
                k = k + 1;
                continue ;
            },
        };
        let offset: u64 = addr as u64 - sec.address;
        if add_relocation(
            o,
            ids[index],
            offset,
            symbols[reloc.target_symbol],
            reloc.addend,
            relative,
        ).is_err() {
            proof {
                lemma_section_relocs_stop(
                    st,
                    s,
                    index as int,
                    (k + 1) as nat,
                    s.relocations.len(),
                );
            }
            return Err(CoffWriteError::RelocationOutside);
        }
        proof {
            now = with_reloc(now, s, index as int, s.relocations[k as int])->Ok_0;
        }
        k = k + 1;
    }
    Ok(())
}

/// Writes an object as a 32-bit x86 COFF file.
pub fn write_coff(obj: &ObjInfo, export_all: bool) -> (r: Result<Vec<u8>, CoffWriteError>)
    requires
        coff_ready(obj@),
    ensures
        match coff_file(obj@, export_all) {
            Ok(bytes) => r matches Ok(v) && v@ == bytes,
            Err(e) => r == Err::<Vec<u8>, _>(e),
        },
{
    let mut o: Object<'static> = new_object();
    let ids: Vec<SectionId> = add_sections(obj, &mut o);
    let symbols: Vec<SymbolId> = add_symbols(obj, export_all, &ids, &mut o);
    let ghost mut now = with_symbols(obj@, export_all, obj@.symbols.len());
    let n: usize = obj.sections.len();
    let mut i: usize = 0;
    while i < n
        invariant
            n == obj@.sections.len(),
            i <= n,
            coff_ready(obj@),
            ids@.len() == obj@.sections.len(),
            forall|j: int| 0 <= j < ids@.len() ==> section_number(#[trigger] ids@[j]) == j,
            with_relocs(obj@, export_all, i as nat) == Ok::<_, CoffWriteError>(now),
            state_ok(obj@, now),
            now.numbers.len() == obj@.symbols.len(),
            symbols@.len() == now.numbers.len(),
            forall|j: int|
                0 <= j < symbols@.len() ==> symbol_number(#[trigger] symbols@[j]) == now.numbers[j],
            out_sections(o) == now.sections,
            out_symbols(o) == now.symbols,
            forall|j: int|
                i <= j < n ==> (#[trigger] now.sections[j]).relocations.len() == 0,
            forall|j: int|
                0 <= j < i ==> (#[trigger] now.sections[j]).relocations.len()
                    <= obj@.sections[j].relocations.len(),
        decreases n - i,
    {
        match add_section_relocs(obj, i, &ids, &symbols, &mut o, Ghost(now)) {
            Ok(_) => {},
            Err(e) => {
                proof {
                    lemma_relocs_stop(obj@, export_all, (i + 1) as nat, n as nat);
                }
                return Err(e);
            },
        }
        proof {
            let s = obj@.sections[i as int];
            now = with_section_relocs(now, s, i as int, s.relocations.len())->Ok_0;
        }
        i = i + 1;
    }
    proof {
        assert forall|j: int| 0 <= j < now.sections.len() implies name_fits(
            (#[trigger] now.sections[j]).name,
        ) && now.sections[j].relocations.len() < u32::MAX by {
            assert(section_ready(obj@, obj@.sections[j]));
            assert(out_ok(obj@.sections[j], now.sections[j], now.symbols.len()));
        }
        assert forall|j: int, k: int|
            0 <= j < now.sections.len() && 0 <= k < now.sections[j].relocations.len() implies (
        #[trigger] now.sections[j].relocations[k]).symbol < now.symbols.len() by {
            assert(out_ok(obj@.sections[j], now.sections[j], now.symbols.len()));
        }
        assert(image_ready(now.sections, now.symbols));
    }
    match write_object(&o) {
        Ok(v) => Ok(v),
        Err(_) => Err(CoffWriteError::Unsupported),
    }
}

/// Whether a name of more than eight bytes, with `extra` more in front, has no zero
/// byte.
fn name_ok(name: &[u8], extra: usize) -> (r: bool)
    requires
        extra <= 1,
    ensures
        r == (name@.len() + extra > 8 ==> !name@.contains(0)),
{
    if name.len() <= 8 - extra {
        return true;
    }
    let mut i: usize = 0;
    while i < name.len()
        invariant
            i <= name@.len(),
            name@.len() + extra > 8,
            forall|k: int| 0 <= k < i ==> #[trigger] name@[k] != 0,
        decreases name@.len() - i,
    {
        if name[i] == 0 {
            assert(name@[i as int] == 0);
            return false;
        }
        i = i + 1;
    }
    true
}

/// Whether a relocation can be added.
fn reloc_ok(obj: &ObjInfo, s: &ObjSection, addr: u32, reloc: &ObjReloc) -> (r: bool)
    ensures
        r == reloc_ready(obj@, s@, (addr, *reloc)),
{
    let behind: bool = s.address <= addr as u64;
    let bss: bool = s.kind == ObjSectionKind::Bss;
    if !bss && !behind {
        return false;
    }
    let extra: i64 = match reloc.kind {
        ObjRelocKind::X86Abs32 => 0,
        ObjRelocKind::X86Rel32 => 4,
        _ => return true,
    };
    behind && reloc.target_symbol < obj.symbols.len() && reloc.addend <= i64::MAX - extra && (!bss
        || reloc.addend == -extra)
}

/// Whether a section can be added.
fn section_ok(obj: &ObjInfo, s: &ObjSection) -> (r: bool)
    ensures
        r == section_ready(obj@, s@),
{
    let align: u64 = if s.align < 1 {
        1
    } else {
        s.align
    };
    if align & (align - 1) != 0 || !name_ok(s.name.as_str().as_bytes(), 0) || s.relocations.len()
        >= u32::MAX as usize {
        return false;
    }
    let mut k: usize = 0;
    while k < s.relocations.len()
        invariant
            k <= s@.relocations.len(),
            forall|m: int|
                0 <= m < k ==> reloc_ready(obj@, s@, #[trigger] s@.relocations[m]),
        decreases s@.relocations.len() - k,
    {
        let e = *s.relocations.entry(k);
        assert(e == s@.relocations[k as int]);
        if !reloc_ok(obj, s, e.0, &e.1) {
            assert(!reloc_ready(obj@, s@, s@.relocations[k as int]));
            return false;
        }
        k = k + 1;
    }
    true
}

/// Whether a symbol can be added.
fn symbol_ok(obj: &ObjInfo, sym: &ObjSymbol) -> (r: bool)
    ensures
        r == symbol_ready(obj@, sym@),
{
    if sym.kind == ObjSymbolKind::Section {
        return match sym.section {
            Some(i) => i < obj.sections.len(),
            None => false,
        };
    }
    let name: &[u8] = sym.name.as_str().as_bytes();
    let ghost stored = stored_name(name@, sym.kind);
    if name.len() > 0 && (sym.kind == ObjSymbolKind::Function || sym.kind
        == ObjSymbolKind::Object) {
        proof {
            assert(stored == seq![0x5Fu8] + name@);
            if name@.contains(0) {
                let k = choose|k: int| 0 <= k < name@.len() && name@[k] == 0;
                assert(stored[k + 1] == 0);
            }
            if stored.contains(0) {
                let k = choose|k: int| 0 <= k < stored.len() && stored[k] == 0;
                assert(name@[k - 1] == 0);
            }
        }
        name_ok(name, 1)
    } else {
        name_ok(name, 0)
    }
}

/// Whether an object can be handed to the COFF writer: its sections and symbols can
/// be numbered, alignments are powers of two, long names have no zero byte, section
/// symbols stand for sections, and relocations lie in their sections and name
/// symbols.
pub fn can_write_coff(obj: &ObjInfo) -> (r: bool)
    ensures
        r == coff_ready(obj@),
{
    if obj.sections.len() > u16::MAX as usize || obj.symbols.len() > (u32::MAX / 2) as usize {
        return false;
    }
    let mut i: usize = 0;
    while i < obj.sections.len()
        invariant
            i <= obj.sections@.len(),
            obj@.sections.len() <= u16::MAX,
            2 * obj@.symbols.len() <= u32::MAX,
            forall|j: int| 0 <= j < i ==> section_ready(obj@, #[trigger] obj@.sections[j]),
        decreases obj.sections@.len() - i,
    {
        assert(obj@.sections[i as int] == obj.sections@[i as int]@);
        if !section_ok(obj, &obj.sections[i]) {
            assert(!section_ready(obj@, obj@.sections[i as int]));
            return false;
        }
        i = i + 1;
    }
    let mut i: usize = 0;
    while i < obj.symbols.len()
        invariant
            i <= obj.symbols@.len(),
            obj@.sections.len() <= u16::MAX,
            2 * obj@.symbols.len() <= u32::MAX,
            forall|j: int|
                0 <= j < obj@.sections.len() ==> section_ready(obj@, #[trigger] obj@.sections[j]),
            forall|j: int| 0 <= j < i ==> symbol_ready(obj@, #[trigger] obj@.symbols[j]),
        decreases obj.symbols@.len() - i,
    {
        assert(obj@.symbols[i as int] == obj.symbols@[i as int]@);
        if !symbol_ok(obj, &obj.symbols[i]) {
            assert(!symbol_ready(obj@, obj@.symbols[i as int]));
            return false;
        }
        i = i + 1;
    }
    true
}

} // verus!
