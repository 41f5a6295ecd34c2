//! MSVC run-time type information: type descriptors, complete object locators
//! and vtables.
use vstd::prelude::*;
use vstd::string::*;
use vstd::utf8::*;

use crate::bytes::{le_u32, low32, low_word, word_le};
use crate::obj::{
    ObjError, ObjInfo, ObjSection, ObjSectionKind, ObjSymbol, ObjSymbolKind, ObjView,
    SectionIndex, SectionView, SymbolView, blank_symbol, section_at, section_views, symbol_views,
};
use crate::text::{decode_text, utf8_text};

verus! {

/// The little-endian word at `off`, where all of it is there.
pub open spec fn le_word(d: Seq<u8>, off: int) -> Option<u32> {
    if off + 4 <= d.len() {
        Some(le_u32(d, off))
    } else {
        None
    }
}

/// Reads the little-endian word at `off`; `None` if it is out of bounds.
pub fn read_u32_le(data: &[u8], off: usize) -> (r: Option<u32>)
    ensures
        r == le_word(data@, off as int),
{
    if data.len() >= 4 && off <= data.len() - 4 {
        Some(word_le(data, off))
    } else {
        None
    }
}

/// The index of the first zero byte from `i` on.
pub open spec fn zero_from(d: Seq<u8>, i: int) -> Option<int>
    decreases d.len() - i,
{
    if i >= d.len() {
        None
    } else if d[i] == 0 {
        Some(i)
    } else {
        zero_from(d, i + 1)
    }
}

/// The zero-terminated string at `off`, if it is terminated and UTF-8.
pub open spec fn terminated(d: Seq<u8>, off: int) -> Option<Seq<char>> {
    if off > d.len() {
        None
    } else {
        match zero_from(d, off) {
            Some(end) => utf8_text(d.subrange(off, end)),
            None => None,
        }
    }
}

/// Reads the zero-terminated string at `off`; `None` if there is no zero byte
/// or the bytes are not UTF-8.
pub fn cstr_at(data: &[u8], off: usize) -> (r: Option<String>)
    ensures
        crate::obj::text_view(r) == terminated(data@, off as int),
{
    if off > data.len() {
        return None;
    }
    let mut end: usize = off;
    while end < data.len() && data[end] != 0
        invariant
            off <= end <= data@.len(),
            zero_from(data@, end as int) == zero_from(data@, off as int),
        decreases data@.len() - end,
    {
        end = end + 1;
    }
    if end == data.len() {
        return None;
    }
    decode_text(vstd::slice::slice_subrange(data, off, end))
}

/// Whether a name starts like the name of a type: `.?A`.
pub open spec fn has_type_prefix(s: Seq<char>) -> bool {
    s.len() >= 3 && s[0] == '.' && s[1] == '?' && s[2] == 'A'
}

/// Whether a name ends like the name of a type: `@@`.
pub open spec fn has_type_suffix(s: Seq<char>) -> bool {
    s.len() >= 2 && s[s.len() - 2] == '@' && s[s.len() - 1] == '@'
}

/// Whether a character is an ASCII letter.
pub open spec fn is_letter(c: char) -> bool {
    'A' <= c <= 'Z' || 'a' <= c <= 'z'
}

/// The class name inside the name of a type: without `.?A` and the letter after
/// it. A name without `.?A` stays whole.
pub open spec fn inner_name(s: Seq<char>) -> Seq<char> {
    if !has_type_prefix(s) {
        s
    } else if s.len() > 4 && is_letter(s[3]) {
        s.skip(4)
    } else {
        s.skip(3)
    }
}

/// The symbol name of a type descriptor.
pub open spec fn descriptor_name(s: Seq<char>) -> Seq<char> {
    "??_R0"@ + s.skip(1) + "@8"@
}

/// The symbol name of a complete object locator.
pub open spec fn locator_name(s: Seq<char>) -> Seq<char> {
    "??_R4"@ + inner_name(s) + "6B@"@
}

/// The symbol name of a vtable.
pub open spec fn vtable_name(s: Seq<char>) -> Seq<char> {
    "??_7"@ + inner_name(s) + "6B@"@
}

fn starts_like_type(s: &str) -> (r: bool)
    ensures
        r == has_type_prefix(s@),
{
    s.unicode_len() >= 3 && s.get_char(0) == '.' && s.get_char(1) == '?' && s.get_char(2) == 'A'
}

fn ends_like_type(s: &str) -> (r: bool)
    ensures
        r == has_type_suffix(s@),
{
    let n: usize = s.unicode_len();
    n >= 2 && s.get_char(n - 2) == '@' && s.get_char(n - 1) == '@'
}

/// Extracts the mangled class name fragment from an RTTI name: `Foo@@` from
/// `.?AVFoo@@`, `Bar@ns@@` from `.?AVBar@ns@@`. Gives the whole string if the
/// expected prefix is absent.
pub fn class_inner(rtti_name: &str) -> (r: &str)
    ensures
        r@ == inner_name(rtti_name@),
{
    if !starts_like_type(rtti_name) {
        return rtti_name;
    }
    let n: usize = rtti_name.unicode_len();
    if n > 4 {
        let c: char = rtti_name.get_char(3);
        if ('A' <= c && c <= 'Z') || ('a' <= c && c <= 'z') {
            let s = rtti_name.substring_char(4, n);
            assert(s@ =~= rtti_name@.skip(4));
            return s;
        }
    }
    let s = rtti_name.substring_char(3, n);
    assert(s@ =~= rtti_name@.skip(3));
    s
}

/// Generates the MSVC-standard symbol name of a complete object locator:
/// `??_R4Foo@@6B@` for `.?AVFoo@@`.
pub fn rtti_col_symbol(rtti_name: &str) -> (r: String)
    ensures
        r@ == locator_name(rtti_name@),
{
    let mut s: String = String::new();
    s.push_str("??_R4");
    s.push_str(class_inner(rtti_name));
    s.push_str("6B@");
    assert(s@ =~= locator_name(rtti_name@));
    s
}

/// Generates the MSVC-standard vtable symbol name: `??_7Foo@@6B@` for
/// `.?AVFoo@@`.
pub fn rtti_vtable_symbol(rtti_name: &str) -> (r: String)
    ensures
        r@ == vtable_name(rtti_name@),
{
    let mut s: String = String::new();
    s.push_str("??_7");
    s.push_str(class_inner(rtti_name));
    s.push_str("6B@");
    assert(s@ =~= vtable_name(rtti_name@));
    s
}

/// Whether `va` lies in a section of initialised data.
pub open spec fn in_data(s: Seq<SectionView>, va: u32) -> bool {
    exists|i: int| 0 <= i < s.len() && (#[trigger] s[i]).contains(va) && is_data(s[i].kind)
}

/// Whether `va` lies in a code section.
pub open spec fn in_code(s: Seq<SectionView>, va: u32) -> bool {
    exists|i: int|
        0 <= i < s.len() && (#[trigger] s[i]).contains(va) && s[i].kind == ObjSectionKind::Code
}

/// Whether a section of this kind holds initialised data.
pub open spec fn is_data(kind: ObjSectionKind) -> bool {
    kind != ObjSectionKind::Code && kind != ObjSectionKind::Bss
}

/// A structure found at an address, with the name of its type.
pub type Found = (u32, Seq<char>);

/// How many aligned places for a structure of `width` bytes `len` bytes have.
pub open spec fn places(len: nat, width: nat) -> nat {
    if len >= width {
        (len - width) as nat / 4 + 1
    } else {
        0
    }
}

/// The address of the word `k` of a section.
pub open spec fn word_va(s: SectionView, k: int) -> u32 {
    ((s.address + 4 * k) % 0x1_0000_0000) as u32
}

/// The type descriptor at word `k` of a section: a pointer into data, a zero
/// word, and the name of a type.
pub open spec fn descriptor_at(all: Seq<SectionView>, s: SectionView, k: int) -> Option<Found> {
    let off = 4 * k;
    match terminated(s.data, off + 8) {
        Some(name) if le_u32(s.data, off + 4) == 0 && in_data(all, le_u32(s.data, off))
            && has_type_prefix(name) && has_type_suffix(name) => Some((word_va(s, k), name)),
        _ => None,
    }
}

/// The type name found last at `va`.
pub open spec fn name_at(found: Seq<Found>, va: u32) -> Option<Seq<char>>
    decreases found.len(),
{
    if found.len() == 0 {
        None
    } else if found.last().0 == va {
        Some(found.last().1)
    } else {
        name_at(found.drop_last(), va)
    }
}

/// The complete object locator at word `k` of a section: a zero word, and in
/// its last two words a pointer to a type descriptor and a pointer into data
/// or zero.
pub open spec fn locator_at(
    all: Seq<SectionView>,
    descriptors: Seq<Found>,
    s: SectionView,
    k: int,
) -> Option<Found> {
    let off = 4 * k;
    let class = le_u32(s.data, off + 16);
    match name_at(descriptors, le_u32(s.data, off + 12)) {
        Some(name) if le_u32(s.data, off) == 0 && (in_data(all, class) || class == 0) => Some(
            (word_va(s, k), name),
        ),
        _ => None,
    }
}

/// The vtable behind word `k` of a section: the word points to a complete
/// object locator, and the next one into code.
pub open spec fn vtable_at(
    all: Seq<SectionView>,
    locators: Seq<Found>,
    s: SectionView,
    k: int,
) -> Option<Found> {
    let off = 4 * k;
    match name_at(locators, le_u32(s.data, off)) {
        Some(name) if in_code(all, le_u32(s.data, off + 4)) => Some((word_va(s, k + 1), name)),
        _ => None,
    }
}

/// `found` with one more, if there is one.
pub open spec fn and_then_found(found: Seq<Found>, more: Option<Found>) -> Seq<Found> {
    match more {
        Some(f) => found.push(f),
        None => found,
    }
}

/// The type descriptors among the first `n` words of a section.
pub open spec fn descriptors_in(all: Seq<SectionView>, s: SectionView, n: nat) -> Seq<Found>
    decreases n,
{
    if n == 0 {
        Seq::empty()
    } else {
        and_then_found(descriptors_in(all, s, (n - 1) as nat), descriptor_at(all, s, n - 1))
    }
}

/// The type descriptors in the first `n` sections.
pub open spec fn descriptors(all: Seq<SectionView>, n: nat) -> Seq<Found>
    decreases n,
{
    if n == 0 {
        Seq::empty()
    } else {
        let below = descriptors(all, (n - 1) as nat);
        let s = all[n - 1];
        if is_data(s.kind) {
            below + descriptors_in(all, s, places(s.data.len(), 12))
        } else {
            below
        }
    }
}

/// The locators among the first `n` words of a section.
pub open spec fn locators_in(
    all: Seq<SectionView>,
    descriptors: Seq<Found>,
    s: SectionView,
    n: nat,
) -> Seq<Found>
    decreases n,
{
    if n == 0 {
        Seq::empty()
    } else {
        and_then_found(
            locators_in(all, descriptors, s, (n - 1) as nat),
            locator_at(all, descriptors, s, n - 1),
        )
    }
}

/// The locators in the first `n` sections.
pub open spec fn locators(all: Seq<SectionView>, descriptors: Seq<Found>, n: nat) -> Seq<Found>
    decreases n,
{
    if n == 0 {
        Seq::empty()
    } else {
        let below = locators(all, descriptors, (n - 1) as nat);
        let s = all[n - 1];
        if is_data(s.kind) {
            below + locators_in(all, descriptors, s, places(s.data.len(), 20))
        } else {
            below
        }
    }
}

/// The vtables among the first `n` words of a section.
pub open spec fn vtables_in(
    all: Seq<SectionView>,
    locators: Seq<Found>,
    s: SectionView,
    n: nat,
) -> Seq<Found>
    decreases n,
{
    if n == 0 {
        Seq::empty()
    } else {
        and_then_found(
            vtables_in(all, locators, s, (n - 1) as nat),
            vtable_at(all, locators, s, n - 1),
        )
    }
}

/// The vtables in the first `n` sections.
pub open spec fn vtables(all: Seq<SectionView>, locators: Seq<Found>, n: nat) -> Seq<Found>
    decreases n,
{
    if n == 0 {
        Seq::empty()
    } else {
        let below = vtables(all, locators, (n - 1) as nat);
        let s = all[n - 1];
        if is_data(s.kind) {
            below + vtables_in(all, locators, s, places(s.data.len(), 8))
        } else {
            below
        }
    }
}

/// What kind of structure was found.
#[derive(Clone, Copy, Debug, PartialEq, Eq, Structural)]
pub enum RttiKind {
    TypeDescriptor,
    CompleteObjectLocator,
    Vtable,
}

/// The symbol of a structure.
pub open spec fn rtti_symbol(kind: RttiKind, f: Found, sec: SectionIndex) -> SymbolView {
    let plain = SymbolView {
        address: f.0 as u64,
        section: Some(sec),
        kind: ObjSymbolKind::Object,
        ..blank_symbol()
    };
    match kind {
        RttiKind::TypeDescriptor => SymbolView {
            name: descriptor_name(f.1),
            size: ((8 + encode_utf8(f.1).len() + 1) % 0x1_0000_0000_0000_0000) as u64,
            size_known: true,
            ..plain
        },
        RttiKind::CompleteObjectLocator => SymbolView {
            name: locator_name(f.1),
            size: 20,
            size_known: true,
            ..plain
        },
        RttiKind::Vtable => SymbolView { name: vtable_name(f.1), ..plain },
    }
}

/// Whether a symbol stands at `va` in section `sec`.
pub open spec fn taken(symbols: Seq<SymbolView>, sec: SectionIndex, va: u32) -> bool {
    exists|i: int| 0 <= i < symbols.len() && (#[trigger] symbols[i]).at(sec, va)
}

/// The symbols with one for a structure, unless it lies in no section or a
/// symbol is there.
pub open spec fn with_rtti(
    all: Seq<SectionView>,
    symbols: Seq<SymbolView>,
    kind: RttiKind,
    f: Found,
) -> Seq<SymbolView> {
    match section_at(all, f.0) {
        Some(sec) if !taken(symbols, sec, f.0) => symbols.push(rtti_symbol(kind, f, sec)),
        _ => symbols,
    }
}

/// The symbols with those of the first `n` structures.
pub open spec fn with_all(
    all: Seq<SectionView>,
    symbols: Seq<SymbolView>,
    kind: RttiKind,
    found: Seq<Found>,
    n: nat,
) -> Seq<SymbolView>
    decreases n,
{
    if n == 0 {
        symbols
    } else {
        with_rtti(
            all,
            with_all(all, symbols, kind, found, (n - 1) as nat),
            kind,
            found[n - 1],
        )
    }
}

/// The symbols of an object after detection. Of several descriptors or locators
/// found at one address the last one counts, so those are taken from the last
/// to the first; vtables are taken in order.
pub open spec fn rtti_symbols(all: Seq<SectionView>, symbols: Seq<SymbolView>) -> Seq<SymbolView> {
    let d = descriptors(all, all.len());
    let l = locators(all, d, all.len());
    let v = vtables(all, l, all.len());
    let s1 = with_all(all, symbols, RttiKind::TypeDescriptor, d.reverse(), d.len());
    let s2 = with_all(all, s1, RttiKind::CompleteObjectLocator, l.reverse(), l.len());
    with_all(all, s2, RttiKind::Vtable, v, v.len())
}

/// The views of a list of structures.
pub open spec fn found_views(s: Seq<(u32, String)>) -> Seq<Found> {
    s.map_values(|f: (u32, String)| (f.0, f.1@))
}

/// Whether a section of this kind holds initialised data.
fn holds_data(kind: ObjSectionKind) -> (r: bool)
    ensures
        r == is_data(kind),
{
    kind != ObjSectionKind::Code && kind != ObjSectionKind::Bss
}

/// Whether `va` lies in a section of initialised data.
fn va_in_data(sections: &Vec<ObjSection>, va: u32) -> (r: bool)
    ensures
        r == in_data(section_views(sections@), va),
{
    let ghost all = section_views(sections@);
    let mut i: usize = 0;
    while i < sections.len()
        invariant
            i <= sections@.len(),
            all == section_views(sections@),
            forall|j: int| 0 <= j < i ==> !((#[trigger] all[j]).contains(va) && is_data(all[j].kind)),
        decreases sections@.len() - i,
    {
        assert(all[i as int] == sections@[i as int]@);
        if sections[i].contains(va) && holds_data(sections[i].kind) {
            return true;
        }
        i = i + 1;
    }
    false
}

/// Whether `va` lies in a code section.
fn va_in_code(sections: &Vec<ObjSection>, va: u32) -> (r: bool)
    ensures
        r == in_code(section_views(sections@), va),
{
    let ghost all = section_views(sections@);
    let mut i: usize = 0;
    while i < sections.len()
        invariant
            i <= sections@.len(),
            all == section_views(sections@),
            forall|j: int|
                0 <= j < i ==> !((#[trigger] all[j]).contains(va) && all[j].kind
                    == ObjSectionKind::Code),
        decreases sections@.len() - i,
    {
        assert(all[i as int] == sections@[i as int]@);
        if sections[i].contains(va) && sections[i].kind == ObjSectionKind::Code {
            return true;
        }
        i = i + 1;
    }
    false
}

/// The address of the byte `off` of a section.
fn va_at(s: &ObjSection, off: usize) -> (r: u32)
    ensures
        r == ((s@.address + off) % 0x1_0000_0000) as u32,
{
    low_word(s.address.wrapping_add(off as u64))
}

/// The type name found last at `va`.
fn find_name(found: &Vec<(u32, String)>, va: u32) -> (r: Option<String>)
    ensures
        crate::obj::text_view(r) == name_at(found_views(found@), va),
{
    let ghost views = found_views(found@);
    let mut i: usize = found.len();
    assert(views.take(i as int) =~= views);
    while i > 0
        invariant
            i <= found@.len(),
            views == found_views(found@),
            name_at(views.take(i as int), va) == name_at(views, va),
        decreases i,
    {
        let ghost upto = views.take(i as int);
        assert(upto.drop_last() =~= views.take(i - 1));
        assert(upto.last() == (found@[i - 1].0, found@[i - 1].1@));
        if found[i - 1].0 == va {
            return Some(found[i - 1].1.clone());
        }
        i = i - 1;
    }
    None
}

/// Looks for a type descriptor at word `k` of a section.
fn look_for_descriptor(sections: &Vec<ObjSection>, s: &ObjSection, k: usize) -> (r: Option<String>)
    requires
        4 * k + 12 <= s@.data.len(),
    ensures
        match r {
            Some(n) => descriptor_at(section_views(sections@), s@, k as int) == Some(
                (word_va(s@, k as int), n@),
            ),
            None => descriptor_at(section_views(sections@), s@, k as int) is None,
        },
{
    assert(4 * k + 12 <= s.data.len());
    let off: usize = 4 * k;
    let d = s.data.as_slice();
    if word_le(d, off + 4) != 0 || !va_in_data(sections, word_le(d, off)) {
        return None;
    }
    match cstr_at(d, off + 8) {
        Some(name) => if starts_like_type(name.as_str()) && ends_like_type(name.as_str()) {
            Some(name)
        } else {
            None
        },
        None => None,
    }
}

/// Looks for a complete object locator at word `k` of a section.
fn look_for_locator(
    sections: &Vec<ObjSection>,
    found: &Vec<(u32, String)>,
    s: &ObjSection,
    k: usize,
) -> (r: Option<String>)
    requires
        4 * k + 20 <= s@.data.len(),
    ensures
        match r {
            Some(n) => locator_at(
                section_views(sections@),
                found_views(found@),
                s@,
                k as int,
            ) == Some((word_va(s@, k as int), n@)),
            None => locator_at(
                section_views(sections@),
                found_views(found@),
                s@,
                k as int,
            ) is None,
        },
{
    assert(4 * k + 20 <= s.data.len());
    let off: usize = 4 * k;
    let d = s.data.as_slice();
    if word_le(d, off) != 0 {
        return None;
    }
    match find_name(found, word_le(d, off + 12)) {
        Some(name) => {
            let class: u32 = word_le(d, off + 16);
            if va_in_data(sections, class) || class == 0 {
                Some(name)
            } else {
                None
            }
        },
        None => None,
    }
}

/// Looks for a vtable behind word `k` of a section.
fn look_for_vtable(
    sections: &Vec<ObjSection>,
    found: &Vec<(u32, String)>,
    s: &ObjSection,
    k: usize,
) -> (r: Option<String>)
    requires
        4 * k + 8 <= s@.data.len(),
    ensures
        match r {
            Some(n) => vtable_at(
                section_views(sections@),
                found_views(found@),
                s@,
                k as int,
            ) == Some((word_va(s@, k + 1), n@)),
            None => vtable_at(
                section_views(sections@),
                found_views(found@),
                s@,
                k as int,
            ) is None,
        },
{
    assert(4 * k + 8 <= s.data.len());
    let off: usize = 4 * k;
    let d = s.data.as_slice();
    match find_name(found, word_le(d, off)) {
        Some(name) => if va_in_code(sections, word_le(d, off + 4)) {
            Some(name)
        } else {
            None
        },
        None => None,
    }
}

/// Finds the type descriptors of a section.
fn scan_descriptors(sections: &Vec<ObjSection>, s: &ObjSection, out: &mut Vec<(u32, String)>)
    ensures
        found_views(final(out)@) == found_views(old(out)@) + descriptors_in(
            section_views(sections@),
            s@,
            places(s@.data.len(), 12),
        ),
{
    let ghost all = section_views(sections@);
    let ghost first = found_views(out@);
    let len: usize = s.data.len();
    let n: usize = if len >= 12 {
        (len - 12) / 4 + 1
    } else {
        0
    };
    let mut k: usize = 0;
    assert(found_views(out@) =~= first + descriptors_in(all, s@, 0));
    while k < n
        invariant
            len == s@.data.len(),
            n == places(len as nat, 12),
            k <= n,
            all == section_views(sections@),
            found_views(out@) == first + descriptors_in(all, s@, k as nat),
        decreases n - k,
    {
        let ghost before = found_views(out@);
        if let Some(name) = look_for_descriptor(sections, s, k) {
            let va: u32 = va_at(s, 4 * k);
            let ghost f = (va, name@);
            out.push((va, name));
            assert(found_views(out@) =~= before.push(f));
        }
        assert(found_views(out@) =~= first + descriptors_in(all, s@, (k + 1) as nat));
        k = k + 1;
    }
}

/// Finds the complete object locators of a section.
fn scan_locators(
    sections: &Vec<ObjSection>,
    found: &Vec<(u32, String)>,
    s: &ObjSection,
    out: &mut Vec<(u32, String)>,
)
    ensures
        found_views(final(out)@) == found_views(old(out)@) + locators_in(
            section_views(sections@),
            found_views(found@),
            s@,
            places(s@.data.len(), 20),
        ),
{
    let ghost all = section_views(sections@);
    let ghost fv = found_views(found@);
    let ghost first = found_views(out@);
    let len: usize = s.data.len();
    let n: usize = if len >= 20 {
        (len - 20) / 4 + 1
    } else {
        0
    };
    let mut k: usize = 0;
    assert(found_views(out@) =~= first + locators_in(all, fv, s@, 0));
    while k < n
        invariant
            len == s@.data.len(),
            n == places(len as nat, 20),
            k <= n,
            all == section_views(sections@),
            fv == found_views(found@),
            found_views(out@) == first + locators_in(all, fv, s@, k as nat),
        decreases n - k,
    {
        let ghost before = found_views(out@);
        if let Some(name) = look_for_locator(sections, found, s, k) {
            let va: u32 = va_at(s, 4 * k);
            let ghost f = (va, name@);
            out.push((va, name));
            assert(found_views(out@) =~= before.push(f));
        }
        assert(found_views(out@) =~= first + locators_in(all, fv, s@, (k + 1) as nat));
        k = k + 1;
    }
}

/// Finds the vtables of a section.
fn scan_vtables(
    sections: &Vec<ObjSection>,
    found: &Vec<(u32, String)>,
    s: &ObjSection,
    out: &mut Vec<(u32, String)>,
)
    ensures
        found_views(final(out)@) == found_views(old(out)@) + vtables_in(
            section_views(sections@),
            found_views(found@),
            s@,
            places(s@.data.len(), 8),
        ),
{
    let ghost all = section_views(sections@);
    let ghost fv = found_views(found@);
    let ghost first = found_views(out@);
    let len: usize = s.data.len();
    let n: usize = if len >= 8 {
        (len - 8) / 4 + 1
    } else {
        0
    };
    let mut k: usize = 0;
    assert(found_views(out@) =~= first + vtables_in(all, fv, s@, 0));
    while k < n
        invariant
            len == s@.data.len(),
            n == places(len as nat, 8),
            k <= n,
            all == section_views(sections@),
            fv == found_views(found@),
            found_views(out@) == first + vtables_in(all, fv, s@, k as nat),
        decreases n - k,
    {
        let ghost before = found_views(out@);
        if let Some(name) = look_for_vtable(sections, found, s, k) {
            let va: u32 = va_at(s, 4 * k + 4);
            let ghost f = (va, name@);
            out.push((va, name));
            assert(found_views(out@) =~= before.push(f));
        }
        assert(found_views(out@) =~= first + vtables_in(all, fv, s@, (k + 1) as nat));
        k = k + 1;
    }
}

/// Finds all type descriptors.
fn find_descriptors(sections: &Vec<ObjSection>) -> (r: Vec<(u32, String)>)
    ensures
        found_views(r@) == descriptors(section_views(sections@), sections@.len()),
{
    let ghost all = section_views(sections@);
    let mut out: Vec<(u32, String)> = Vec::new();
    let mut i: usize = 0;
    assert(found_views(out@) =~= Seq::<Found>::empty());
    while i < sections.len()
        invariant
            i <= sections@.len(),
            all == section_views(sections@),
            found_views(out@) == descriptors(all, i as nat),
        decreases sections@.len() - i,
    {
        assert(all[i as int] == sections@[i as int]@);
        if holds_data(sections[i].kind) {
            scan_descriptors(sections, &sections[i], &mut out);
        }
        i = i + 1;
    }
    out
}

/// Finds all complete object locators.
fn find_locators(sections: &Vec<ObjSection>, found: &Vec<(u32, String)>) -> (r: Vec<(u32, String)>)
    ensures
        found_views(r@) == locators(
            section_views(sections@),
            found_views(found@),
            sections@.len(),
        ),
{
    let ghost all = section_views(sections@);
    let ghost fv = found_views(found@);
    let mut out: Vec<(u32, String)> = Vec::new();
    let mut i: usize = 0;
    assert(found_views(out@) =~= Seq::<Found>::empty());
    while i < sections.len()
        invariant
            i <= sections@.len(),
            all == section_views(sections@),
            fv == found_views(found@),
            found_views(out@) == locators(all, fv, i as nat),
        decreases sections@.len() - i,
    {
        assert(all[i as int] == sections@[i as int]@);
        if holds_data(sections[i].kind) {
            scan_locators(sections, found, &sections[i], &mut out);
        }
        i = i + 1;
    }
    out
}

/// Finds all vtables.
fn find_vtables(sections: &Vec<ObjSection>, found: &Vec<(u32, String)>) -> (r: Vec<(u32, String)>)
    ensures
        found_views(r@) == vtables(
            section_views(sections@),
            found_views(found@),
            sections@.len(),
        ),
{
    let ghost all = section_views(sections@);
    let ghost fv = found_views(found@);
    let mut out: Vec<(u32, String)> = Vec::new();
    let mut i: usize = 0;
    assert(found_views(out@) =~= Seq::<Found>::empty());
    while i < sections.len()
        invariant
            i <= sections@.len(),
            all == section_views(sections@),
            fv == found_views(found@),
            found_views(out@) == vtables(all, fv, i as nat),
        decreases sections@.len() - i,
    {
        assert(all[i as int] == sections@[i as int]@);
        if holds_data(sections[i].kind) {
            scan_vtables(sections, found, &sections[i], &mut out);
        }
        i = i + 1;
    }
    out
}

/// Whether a symbol stands at `va` in section `sec`.
fn is_taken(symbols: &Vec<ObjSymbol>, sec: SectionIndex, va: u32) -> (r: bool)
    ensures
        r == taken(symbol_views(symbols@), sec, va),
{
    let ghost views = symbol_views(symbols@);
    let mut i: usize = 0;
    while i < symbols.len()
        invariant
            i <= symbols@.len(),
            views == symbol_views(symbols@),
            forall|j: int| 0 <= j < i ==> !(#[trigger] views[j]).at(sec, va),
        decreases symbols@.len() - i,
    {
        assert(views[i as int] == symbols@[i as int]@);
        if symbols[i].at(sec, va) {
            return true;
        }
        i = i + 1;
    }
    false
}

/// The symbol name of a type descriptor.
fn rtti_descriptor_symbol(name: &str) -> (r: String)
    requires
        name@.len() > 0,
    ensures
        r@ == descriptor_name(name@),
{
    let mut s: String = String::new();
    s.push_str("??_R0");
    let inner = name.substring_char(1, name.unicode_len());
    assert(inner@ =~= name@.skip(1));
    s.push_str(inner);
    s.push_str("@8");
    assert(s@ =~= descriptor_name(name@));
    s
}

/// The symbol of a structure.
fn make_symbol(kind: RttiKind, va: u32, name: &String, sec: SectionIndex) -> (r: ObjSymbol)
    requires
        name@.len() > 0,
    ensures
        r@ == rtti_symbol(kind, (va, name@), sec),
{
    let (symbol_name, size, size_known): (String, u64, bool) = match kind {
        RttiKind::TypeDescriptor => {
            let len: usize = name.as_str().as_bytes().len();
            (rtti_descriptor_symbol(name.as_str()), (len as u64).wrapping_add(9), true)
        },
        RttiKind::CompleteObjectLocator => (rtti_col_symbol(name.as_str()), 20, true),
        RttiKind::Vtable => (rtti_vtable_symbol(name.as_str()), 0, false),
    };
    ObjSymbol {
        name: symbol_name,
        address: va as u64,
        section: Some(sec),
        size,
        size_known,
        kind: ObjSymbolKind::Object,
        ..Default::default()
    }
}

/// Adds the symbol of a structure, unless it lies in no section or a symbol is
/// there.
fn add_rtti(obj: &mut ObjInfo, kind: RttiKind, f: &(u32, String))
    requires
        f.1@.len() > 0,
    ensures
        final(obj)@ == (ObjView {
            symbols: with_rtti(old(obj)@.sections, old(obj)@.symbols, kind, (f.0, f.1@)),
            ..old(obj)@
        }),
{
    if let Some(sec) = obj.section_at_address(f.0) {
        if !is_taken(&obj.symbols, sec, f.0) {
            let s = make_symbol(kind, f.0, &f.1, sec);
            obj.add_symbol(s);
        }
    }
}

/// Whether all names are there.
pub open spec fn all_named(found: Seq<Found>) -> bool {
    forall|i: int| 0 <= i < found.len() ==> (#[trigger] found[i]).1.len() > 0
}

/// Adds the symbols of structures, from the last to the first.
fn add_backward(obj: &mut ObjInfo, kind: RttiKind, found: &Vec<(u32, String)>)
    requires
        all_named(found_views(found@)),
    ensures
        final(obj)@ == (ObjView {
            symbols: with_all(
                old(obj)@.sections,
                old(obj)@.symbols,
                kind,
                found_views(found@).reverse(),
                found@.len(),
            ),
            ..old(obj)@
        }),
{
    let ghost views = found_views(found@).reverse();
    let n: usize = found.len();
    let mut i: usize = 0;
    while i < n
        invariant
            n == found@.len(),
            i <= n,
            views == found_views(found@).reverse(),
            all_named(found_views(found@)),
            obj@ == (ObjView {
                symbols: with_all(old(obj)@.sections, old(obj)@.symbols, kind, views, i as nat),
                ..old(obj)@
            }),
        decreases n - i,
    {
        let f = &found[n - 1 - i];
        assert(found_views(found@)[n - 1 - i] == (f.0, f.1@));
        assert(views[i as int] == (f.0, f.1@));
        add_rtti(obj, kind, f);
        i = i + 1;
    }
}

/// Adds the symbols of structures in order.
fn add_forward(obj: &mut ObjInfo, kind: RttiKind, found: &Vec<(u32, String)>)
    requires
        all_named(found_views(found@)),
    ensures
        final(obj)@ == (ObjView {
            symbols: with_all(
                old(obj)@.sections,
                old(obj)@.symbols,
                kind,
                found_views(found@),
                found@.len(),
            ),
            ..old(obj)@
        }),
{
    let ghost views = found_views(found@);
    let mut i: usize = 0;
    while i < found.len()
        invariant
            i <= found@.len(),
            views == found_views(found@),
            all_named(views),
            obj@ == (ObjView {
                symbols: with_all(old(obj)@.sections, old(obj)@.symbols, kind, views, i as nat),
                ..old(obj)@
            }),
        decreases found@.len() - i,
    {
        let f = &found[i];
        assert(views[i as int] == (f.0, f.1@));
        add_rtti(obj, kind, f);
        i = i + 1;
    }
}

/// Whether all names are names of types.
pub open spec fn all_types(found: Seq<Found>) -> bool {
    forall|i: int|
        0 <= i < found.len() ==> has_type_prefix((#[trigger] found[i]).1) && has_type_suffix(
            found[i].1,
        )
}

proof fn lemma_push_types(found: Seq<Found>, more: Option<Found>)
    requires
        all_types(found),
        more matches Some(f) ==> has_type_prefix(f.1) && has_type_suffix(f.1),
    ensures
        all_types(and_then_found(found, more)),
{
}

proof fn lemma_descriptors_in_types(all: Seq<SectionView>, s: SectionView, n: nat)
    ensures
        all_types(descriptors_in(all, s, n)),
    decreases n,
{
    if n > 0 {
        lemma_descriptors_in_types(all, s, (n - 1) as nat);
        lemma_push_types(
            descriptors_in(all, s, (n - 1) as nat),
            descriptor_at(all, s, n - 1),
        );
    }
}

/// Every type descriptor that is found has the name of a type.
pub proof fn lemma_descriptors_named(all: Seq<SectionView>, n: nat)
    ensures
        all_types(descriptors(all, n)),
    decreases n,
{
    if n > 0 {
        lemma_descriptors_named(all, (n - 1) as nat);
        let s = all[n - 1];
        lemma_descriptors_in_types(all, s, places(s.data.len(), 12));
    }
}

/// A name that is found is one of those listed.
proof fn lemma_name_at_types(found: Seq<Found>, va: u32)
    requires
        all_types(found),
    ensures
        name_at(found, va) matches Some(n) ==> has_type_prefix(n) && has_type_suffix(n),
    decreases found.len(),
{
    if found.len() > 0 {
        let rest = found.drop_last();
        assert(all_types(rest)) by {
            assert forall|i: int| 0 <= i < rest.len() implies has_type_prefix(
                (#[trigger] rest[i]).1,
            ) && has_type_suffix(rest[i].1) by {
                assert(rest[i] == found[i]);
            }
        }
        assert(has_type_prefix(found[found.len() - 1].1));
        lemma_name_at_types(rest, va);
    }
}

proof fn lemma_locators_in_types(
    all: Seq<SectionView>,
    found: Seq<Found>,
    s: SectionView,
    n: nat,
)
    requires
        all_types(found),
    ensures
        all_types(locators_in(all, found, s, n)),
    decreases n,
{
    if n > 0 {
        lemma_locators_in_types(all, found, s, (n - 1) as nat);
        lemma_name_at_types(found, le_u32(s.data, 4 * (n - 1) + 12));
        lemma_push_types(
            locators_in(all, found, s, (n - 1) as nat),
            locator_at(all, found, s, n - 1),
        );
    }
}

/// Every locator that is found has the name of a type.
pub proof fn lemma_locators_named(all: Seq<SectionView>, found: Seq<Found>, n: nat)
    requires
        all_types(found),
    ensures
        all_types(locators(all, found, n)),
    decreases n,
{
    if n > 0 {
        lemma_locators_named(all, found, (n - 1) as nat);
        let s = all[n - 1];
        lemma_locators_in_types(all, found, s, places(s.data.len(), 20));
    }
}

proof fn lemma_vtables_in_types(
    all: Seq<SectionView>,
    found: Seq<Found>,
    s: SectionView,
    n: nat,
)
    requires
        all_types(found),
    ensures
        all_types(vtables_in(all, found, s, n)),
    decreases n,
{
    if n > 0 {
        lemma_vtables_in_types(all, found, s, (n - 1) as nat);
        lemma_name_at_types(found, le_u32(s.data, 4 * (n - 1)));
        lemma_push_types(
            vtables_in(all, found, s, (n - 1) as nat),
            vtable_at(all, found, s, n - 1),
        );
    }
}

/// Every vtable that is found has the name of a type.
pub proof fn lemma_vtables_named(all: Seq<SectionView>, found: Seq<Found>, n: nat)
    requires
        all_types(found),
    ensures
        all_types(vtables(all, found, n)),
    decreases n,
{
    if n > 0 {
        lemma_vtables_named(all, found, (n - 1) as nat);
        let s = all[n - 1];
        lemma_vtables_in_types(all, found, s, places(s.data.len(), 8));
    }
}

/// Detects MSVC RTTI structures in data sections and adds symbols for type
/// descriptors, complete object locators and vtables.
///
/// Detection chain:
///   1. Type descriptors: structures with a pointer into data, a zero word and
///      an MSVC RTTI name string starting with `.?A`.
///   2. Complete object locators: 20-byte structures whose type descriptor
///      field points to a known type descriptor.
///   3. Vtables: locations where `ptr[-1]` points to a known locator and
///      `ptr[0]` points into a code section.
pub fn detect_rtti(obj: &mut ObjInfo) -> (r: Result<(), ObjError>)
    ensures
        r is Ok,
        final(obj)@ == (ObjView {
            symbols: rtti_symbols(old(obj)@.sections, old(obj)@.symbols),
            ..old(obj)@
        }),
{
    let ghost all = obj@.sections;
    let d = find_descriptors(&obj.sections);
    let l = find_locators(&obj.sections, &d);
    let v = find_vtables(&obj.sections, &l);
    proof {
        lemma_descriptors_named(all, all.len());
        lemma_locators_named(all, found_views(d@), all.len());
        lemma_vtables_named(all, found_views(l@), all.len());
    }
    add_backward(obj, RttiKind::TypeDescriptor, &d);
    add_backward(obj, RttiKind::CompleteObjectLocator, &l);
    add_forward(obj, RttiKind::Vtable, &v);
    Ok(())
}

/// Whether the symbols of `a` are the first ones of `b`, and each further one of
/// `b` is an object in a section.
pub open spec fn only_objects_added(
    all: Seq<SectionView>,
    a: Seq<SymbolView>,
    b: Seq<SymbolView>,
) -> bool {
    &&& a.len() <= b.len()
    &&& forall|i: int| 0 <= i < a.len() ==> #[trigger] b[i] == a[i]
    &&& forall|i: int|
        a.len() <= i < b.len() ==> {
            let s = #[trigger] b[i];
            &&& s.kind == ObjSymbolKind::Object
            &&& s.section == section_at(all, low32(s.address))
            &&& s.section is Some
            &&& forall|j: int| 0 <= j < i ==> !b[j].at(s.section->Some_0, low32(s.address))
        }
}

pub(crate) proof fn lemma_with_all_adds(
    all: Seq<SectionView>,
    symbols: Seq<SymbolView>,
    kind: RttiKind,
    found: Seq<Found>,
    n: nat,
)
    ensures
        only_objects_added(all, symbols, with_all(all, symbols, kind, found, n)),
    decreases n,
{
    if n > 0 {
        lemma_with_all_adds(all, symbols, kind, found, (n - 1) as nat);
        let below = with_all(all, symbols, kind, found, (n - 1) as nat);
        let f = found[n - 1];
        let b = with_all(all, symbols, kind, found, n);
        match section_at(all, f.0) {
            Some(sec) if !taken(below, sec, f.0) => {
                assert(b == below.push(rtti_symbol(kind, f, sec)));
                assert(low32(f.0 as u64) == f.0);
                assert forall|i: int| symbols.len() <= i < b.len() implies {
                    let s = #[trigger] b[i];
                    &&& s.kind == ObjSymbolKind::Object
                    &&& s.section == section_at(all, low32(s.address))
                    &&& s.section is Some
                    &&& forall|j: int| 0 <= j < i ==> !b[j].at(s.section->Some_0, low32(s.address))
                } by {
                    if i == b.len() - 1 {
                        assert forall|j: int| 0 <= j < i implies !b[j].at(sec, f.0) by {
                            assert(b[j] == below[j]);
                        }
                    } else {
                        assert(b[i] == below[i]);
                        let s = below[i];
                        assert forall|j: int| 0 <= j < i implies !b[j].at(
                            s.section->Some_0,
                            low32(s.address),
                        ) by {
                            assert(b[j] == below[j]);
                        }
                    }
                }
            },
            _ => {},
        }
    }
}

pub(crate) proof fn lemma_added_trans(
    all: Seq<SectionView>,
    a: Seq<SymbolView>,
    b: Seq<SymbolView>,
    c: Seq<SymbolView>,
)
    requires
        only_objects_added(all, a, b),
        only_objects_added(all, b, c),
    ensures
        only_objects_added(all, a, c),
{
    assert forall|i: int| 0 <= i < a.len() implies #[trigger] c[i] == a[i] by {
        assert(b[i] == a[i]);
    }
    assert forall|i: int| a.len() <= i < c.len() implies {
        let s = #[trigger] c[i];
        &&& s.kind == ObjSymbolKind::Object
        &&& s.section == section_at(all, low32(s.address))
        &&& s.section is Some
        &&& forall|j: int| 0 <= j < i ==> !c[j].at(s.section->Some_0, low32(s.address))
    } by {
        if i < b.len() {
            assert(c[i] == b[i]);
            let s = b[i];
            assert forall|j: int| 0 <= j < i implies !c[j].at(
                s.section->Some_0,
                low32(s.address),
            ) by {
                assert(c[j] == b[j]);
            }
        }
    }
}

/// Detection keeps every symbol, and adds objects only, each in the section
/// that holds its address and none where a symbol was.
pub proof fn lemma_rtti_adds_objects(all: Seq<SectionView>, symbols: Seq<SymbolView>)
    ensures
        only_objects_added(all, symbols, rtti_symbols(all, symbols)),
{
    let d = descriptors(all, all.len());
    let l = locators(all, d, all.len());
    let v = vtables(all, l, all.len());
    let s1 = with_all(all, symbols, RttiKind::TypeDescriptor, d.reverse(), d.len());
    let s2 = with_all(all, s1, RttiKind::CompleteObjectLocator, l.reverse(), l.len());
    lemma_with_all_adds(all, symbols, RttiKind::TypeDescriptor, d.reverse(), d.len());
    lemma_with_all_adds(all, s1, RttiKind::CompleteObjectLocator, l.reverse(), l.len());
    lemma_with_all_adds(all, s2, RttiKind::Vtable, v, v.len());
    lemma_added_trans(all, symbols, s1, s2);
    lemma_added_trans(all, symbols, s2, rtti_symbols(all, symbols));
}

/// Whether a symbol stands at each of the places of `found` that lie in a section.
spec fn all_taken(all: Seq<SectionView>, symbols: Seq<SymbolView>, found: Seq<Found>) -> bool {
    forall|i: int|
        0 <= i < found.len() ==> place_taken(all, symbols, #[trigger] found[i])
}

/// Whether a symbol stands at the place of `f`, if it lies in a section.
spec fn place_taken(all: Seq<SectionView>, symbols: Seq<SymbolView>, f: Found) -> bool {
    section_at(all, f.0) matches Some(sec) ==> taken(symbols, sec, f.0)
}

/// A place that is taken stays taken as symbols are added.
proof fn lemma_taken_stays(
    all: Seq<SectionView>,
    symbols: Seq<SymbolView>,
    kind: RttiKind,
    found: Seq<Found>,
    n: nat,
    f: Found,
)
    requires
        place_taken(all, symbols, f),
    ensures
        place_taken(all, with_all(all, symbols, kind, found, n), f),
    decreases n,
{
    if n > 0 {
        lemma_taken_stays(all, symbols, kind, found, (n - 1) as nat, f);
        let below = with_all(all, symbols, kind, found, (n - 1) as nat);
        let above = with_all(all, symbols, kind, found, n);
        if let Some(sec) = section_at(all, f.0) {
            let i = choose|i: int| 0 <= i < below.len() && (#[trigger] below[i]).at(sec, f.0);
            assert(above[i] == below[i]);
        }
    }
}

/// After the structures have got symbols, their places are taken.
proof fn lemma_with_all_taken(
    all: Seq<SectionView>,
    symbols: Seq<SymbolView>,
    kind: RttiKind,
    found: Seq<Found>,
    n: nat,
)
    requires
        n <= found.len(),
    ensures
        all_taken(all, with_all(all, symbols, kind, found, n), found.take(n as int)),
    decreases n,
{
    if n > 0 {
        lemma_with_all_taken(all, symbols, kind, found, (n - 1) as nat);
        let below = with_all(all, symbols, kind, found, (n - 1) as nat);
        let above = with_all(all, symbols, kind, found, n);
        let f = found[n - 1];
        assert(place_taken(all, above, f)) by {
            if let Some(sec) = section_at(all, f.0) {
                if !taken(below, sec, f.0) {
                    assert(above[below.len() as int].at(sec, f.0));
                }
            }
        }
        assert forall|i: int| 0 <= i < n implies place_taken(
            all,
            above,
            #[trigger] found.take(n as int)[i],
        ) by {
            if i < n - 1 {
                let g = found.take(n - 1)[i];
                assert(place_taken(all, below, g));
                if let Some(sec) = section_at(all, g.0) {
                    let k = choose|k: int|
                        0 <= k < below.len() && (#[trigger] below[k]).at(sec, g.0);
                    assert(above[k] == below[k]);
                }
            }
        }
    }
}

/// Where all places are taken, no symbol is added.
proof fn lemma_nothing_added(
    all: Seq<SectionView>,
    symbols: Seq<SymbolView>,
    kind: RttiKind,
    found: Seq<Found>,
    n: nat,
)
    requires
        n <= found.len(),
        all_taken(all, symbols, found),
    ensures
        with_all(all, symbols, kind, found, n) == symbols,
    decreases n,
{
    if n > 0 {
        lemma_nothing_added(all, symbols, kind, found, (n - 1) as nat);
        assert(place_taken(all, symbols, found[n - 1]));
    }
}

/// Detection finds nothing to add the second time.
pub proof fn lemma_rtti_twice(all: Seq<SectionView>, symbols: Seq<SymbolView>)
    ensures
        rtti_symbols(all, rtti_symbols(all, symbols)) == rtti_symbols(all, symbols),
{
    let d = descriptors(all, all.len());
    let l = locators(all, d, all.len());
    let v = vtables(all, l, all.len());
    let s1 = with_all(all, symbols, RttiKind::TypeDescriptor, d.reverse(), d.len());
    let s2 = with_all(all, s1, RttiKind::CompleteObjectLocator, l.reverse(), l.len());
    let s3 = with_all(all, s2, RttiKind::Vtable, v, v.len());
    lemma_with_all_taken(all, symbols, RttiKind::TypeDescriptor, d.reverse(), d.len());
    lemma_with_all_taken(all, s1, RttiKind::CompleteObjectLocator, l.reverse(), l.len());
    lemma_with_all_taken(all, s2, RttiKind::Vtable, v, v.len());
    assert(d.reverse().take(d.len() as int) =~= d.reverse());
    assert(l.reverse().take(l.len() as int) =~= l.reverse());
    assert(v.take(v.len() as int) =~= v);
    assert forall|i: int| 0 <= i < d.len() implies place_taken(
        all,
        s3,
        #[trigger] d.reverse()[i],
    ) by {
        let f = d.reverse()[i];
        lemma_taken_stays(
            all,
            s1,
            RttiKind::CompleteObjectLocator,
            l.reverse(),
            l.len(),
            f,
        );
        lemma_taken_stays(all, s2, RttiKind::Vtable, v, v.len(), f);
    }
    assert forall|i: int| 0 <= i < l.len() implies place_taken(
        all,
        s3,
        #[trigger] l.reverse()[i],
    ) by {
        lemma_taken_stays(all, s2, RttiKind::Vtable, v, v.len(), l.reverse()[i]);
    }
    lemma_nothing_added(all, s3, RttiKind::TypeDescriptor, d.reverse(), d.len());
    lemma_nothing_added(all, s3, RttiKind::CompleteObjectLocator, l.reverse(), l.len());
    lemma_nothing_added(all, s3, RttiKind::Vtable, v, v.len());
}

} // verus!
