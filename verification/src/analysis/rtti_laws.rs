//! Which structures of type information get symbols, and which names.
use vstd::prelude::*;
use vstd::utf8::*;

use crate::analysis::rtti::{
    Found, RttiKind, descriptor_at, descriptors, descriptors_in, in_code, in_data, inner_name,
    is_data, le_word, lemma_with_all_adds, locator_at, locator_name, locators, locators_in, name_at,
    places, rtti_symbol, rtti_symbols, taken, terminated, vtable_at, vtable_name, vtables,
    vtables_in, with_all, zero_from,
};
use crate::bytes::{le_u32, lemma_words, number_le};
use crate::obj::{ObjSectionKind, ObjSymbolKind, SectionIndex, SectionView, SymbolView, section_at};

verus! {

/// The word `k` of a section, least significant byte first.
pub open spec fn word(s: SectionView, k: int) -> int {
    number_le(s.data, 4 * k, 4)
}

/// The address of the word `k` of a section, in 32 bits.
pub open spec fn place(s: SectionView, k: int) -> int {
    (s.address + 4 * k) % 0x1_0000_0000
}

/// Whether a section holds initialised data.
pub open spec fn has_values(s: SectionView) -> bool {
    s.kind == ObjSectionKind::Data || s.kind == ObjSectionKind::ReadOnlyData
}

/// Whether the section `s` holds the address `va`.
pub open spec fn covers(s: SectionView, va: int) -> bool {
    s.address <= va < s.address + s.size
}

/// Whether `va` lies in a section of initialised data.
pub open spec fn points_to_data(all: Seq<SectionView>, va: int) -> bool {
    exists|i: int| 0 <= i < all.len() && covers(#[trigger] all[i], va) && has_values(all[i])
}

/// Whether `va` lies in a code section.
pub open spec fn points_to_code(all: Seq<SectionView>, va: int) -> bool {
    exists|i: int|
        0 <= i < all.len() && covers(#[trigger] all[i], va) && all[i].kind == ObjSectionKind::Code
}

/// Whether `name` is the text at `off` up to a zero byte.
pub open spec fn spells(d: Seq<u8>, off: int, name: Seq<char>) -> bool {
    let bytes = encode_utf8(name);
    &&& off + bytes.len() < d.len()
    &&& d.subrange(off, (off + bytes.len()) as int) == bytes
    &&& d[(off + bytes.len()) as int] == 0
    &&& forall|j: int| 0 <= j < bytes.len() ==> #[trigger] bytes[j] != 0
}

/// Whether `name` is the name of a type: it starts with `.?A` and ends with `@@`.
pub open spec fn names_type(name: Seq<char>) -> bool {
    let n = name.len();
    &&& n >= 3
    &&& name[0] == '.' && name[1] == '?' && name[2] == 'A'
    &&& name[n - 2] == '@' && name[n - 1] == '@'
}

/// Whether word `k` of section `i` is the first one of a type descriptor of the type
/// `name`: a pointer into data, a zero word, and the name.
pub open spec fn is_descriptor(all: Seq<SectionView>, i: int, k: int, name: Seq<char>) -> bool {
    &&& 0 <= i < all.len()
    &&& has_values(all[i])
    &&& 0 <= k
    &&& 4 * k + 12 <= all[i].data.len()
    &&& points_to_data(all, word(all[i], k))
    &&& word(all[i], k + 1) == 0
    &&& spells(all[i].data, 4 * k + 8, name)
    &&& names_type(name)
}

/// Whether word `k` of section `i` comes before word `k2` of section `i2`.
pub open spec fn before(i: int, k: int, i2: int, k2: int) -> bool {
    i < i2 || i == i2 && k < k2
}

/// Whether the last type descriptor at the address `va` is one of the type `name`.
pub open spec fn describes(all: Seq<SectionView>, va: int, name: Seq<char>) -> bool {
    exists|i: int, k: int|
        {
            &&& #[trigger] is_descriptor(all, i, k, name)
            &&& place(all[i], k) == va
            &&& forall|i2: int, k2: int, other: Seq<char>| #[trigger]
                is_descriptor(all, i2, k2, other) && place(all[i2], k2) == va ==> !before(
                    i,
                    k,
                    i2,
                    k2,
                )
        }
}

/// Whether word `k` of section `i` is the first one of a complete object locator of the
/// type `name`: it is zero, the fourth one points to a descriptor of the type, and the
/// fifth one into data unless it is zero.
pub open spec fn is_locator(all: Seq<SectionView>, i: int, k: int, name: Seq<char>) -> bool {
    &&& 0 <= i < all.len()
    &&& has_values(all[i])
    &&& 0 <= k
    &&& 4 * k + 20 <= all[i].data.len()
    &&& word(all[i], k) == 0
    &&& describes(all, word(all[i], k + 3), name)
    &&& word(all[i], k + 4) == 0 || points_to_data(all, word(all[i], k + 4))
}

/// Whether the last locator at the address `va` is one of the type `name`.
pub open spec fn locates(all: Seq<SectionView>, va: int, name: Seq<char>) -> bool {
    exists|i: int, k: int|
        {
            &&& #[trigger] is_locator(all, i, k, name)
            &&& place(all[i], k) == va
            &&& forall|i2: int, k2: int, other: Seq<char>| #[trigger]
                is_locator(all, i2, k2, other) && place(all[i2], k2) == va ==> !before(
                    i,
                    k,
                    i2,
                    k2,
                )
        }
}

/// Whether word `k` of section `i` stands in front of a vtable of the type `name`: it
/// points to a locator of the type, and the next one into code.
pub open spec fn is_vtable(all: Seq<SectionView>, i: int, k: int, name: Seq<char>) -> bool {
    &&& 0 <= i < all.len()
    &&& has_values(all[i])
    &&& 0 <= k
    &&& 4 * k + 8 <= all[i].data.len()
    &&& locates(all, word(all[i], k), name)
    &&& points_to_code(all, word(all[i], k + 1))
}

/// The words (section and number) of the first `n` words of section `i` at which a
/// structure starts.
spec fn origins_in(at: spec_fn(int, int) -> Option<Found>, i: int, n: nat) -> Seq<(int, int)>
    decreases n,
{
    if n == 0 {
        Seq::empty()
    } else {
        let below = origins_in(at, i, (n - 1) as nat);
        if at(i, n - 1) is Some {
            below.push((i, n - 1))
        } else {
            below
        }
    }
}

/// The words of the first `n` sections at which a structure starts.
spec fn origins(
    all: Seq<SectionView>,
    at: spec_fn(int, int) -> Option<Found>,
    width: nat,
    n: nat,
) -> Seq<(int, int)>
    decreases n,
{
    if n == 0 {
        Seq::empty()
    } else {
        let below = origins(all, at, width, (n - 1) as nat);
        if is_data(all[n - 1].kind) {
            below + origins_in(at, n - 1, places(all[n - 1].data.len(), width))
        } else {
            below
        }
    }
}

/// The structures that start at the given words.
spec fn found_at(at: spec_fn(int, int) -> Option<Found>, o: Seq<(int, int)>) -> Seq<Found> {
    o.map_values(|p: (int, int)| at(p.0, p.1)->Some_0)
}

/// Whether a word is one of those that are looked at.
spec fn looked_at(all: Seq<SectionView>, width: nat, n: nat, i: int, k: int) -> bool {
    0 <= i < n && is_data(all[i].kind) && 0 <= k && 4 * k + width <= all[i].data.len()
}

proof fn lemma_places(len: nat, width: nat, k: int)
    requires
        width > 0,
        k >= 0,
    ensures
        k < places(len, width) <==> 4 * k + width <= len,
{
}

proof fn lemma_origins_in(at: spec_fn(int, int) -> Option<Found>, i: int, n: nat)
    ensures
        forall|j: int|
            0 <= j < origins_in(at, i, n).len() ==> {
                let p = #[trigger] origins_in(at, i, n)[j];
                p.0 == i && 0 <= p.1 < n && at(i, p.1) is Some
            },
        forall|a: int, b: int|
            0 <= a < b < origins_in(at, i, n).len() ==> (#[trigger] origins_in(at, i, n)[a]).1 < (
            #[trigger] origins_in(at, i, n)[b]).1,
        forall|k: int|
            0 <= k < n && #[trigger] at(i, k) is Some ==> origins_in(at, i, n).contains((i, k)),
    decreases n,
{
    if n > 0 {
        lemma_origins_in(at, i, (n - 1) as nat);
        let below = origins_in(at, i, (n - 1) as nat);
        let all = origins_in(at, i, n);
        assert forall|k: int| 0 <= k < n && #[trigger] at(i, k) is Some implies all.contains(
            (i, k),
        ) by {
            if k < n - 1 {
                let j = choose|j: int| 0 <= j < below.len() && below[j] == (i, k);
                assert(all[j] == (i, k));
            } else {
                assert(all[all.len() - 1] == (i, k));
            }
        }
    }
}

/// The words are those at which a structure starts, in order.
proof fn lemma_origins(
    all: Seq<SectionView>,
    at: spec_fn(int, int) -> Option<Found>,
    width: nat,
    n: nat,
)
    requires
        width > 0,
        n <= all.len(),
    ensures
        forall|j: int|
            0 <= j < origins(all, at, width, n).len() ==> {
                let p = #[trigger] origins(all, at, width, n)[j];
                looked_at(all, width, n, p.0, p.1) && at(p.0, p.1) is Some
            },
        forall|a: int, b: int|
            0 <= a < b < origins(all, at, width, n).len() ==> before(
                (#[trigger] origins(all, at, width, n)[a]).0,
                origins(all, at, width, n)[a].1,
                (#[trigger] origins(all, at, width, n)[b]).0,
                origins(all, at, width, n)[b].1,
            ),
        forall|i: int, k: int|
            looked_at(all, width, n, i, k) && #[trigger] at(i, k) is Some ==> origins(
                all,
                at,
                width,
                n,
            ).contains((i, k)),
    decreases n,
{
    if n > 0 {
        lemma_origins(all, at, width, (n - 1) as nat);
        let below = origins(all, at, width, (n - 1) as nat);
        let o = origins(all, at, width, n);
        let count = places(all[n - 1].data.len(), width);
        let own = origins_in(at, n - 1, count);
        lemma_origins_in(at, n - 1, count);
        if is_data(all[n - 1].kind) {
            assert(o == below + own);
            assert forall|j: int| 0 <= j < o.len() implies {
                let p = #[trigger] o[j];
                looked_at(all, width, n, p.0, p.1) && at(p.0, p.1) is Some
            } by {
                if j < below.len() {
                    assert(o[j] == below[j]);
                } else {
                    assert(o[j] == own[j - below.len()]);
                    lemma_places(all[n - 1].data.len(), width, o[j].1);
                }
            }
            assert forall|a: int, b: int| 0 <= a < b < o.len() implies before(
                (#[trigger] o[a]).0,
                o[a].1,
                (#[trigger] o[b]).0,
                o[b].1,
            ) by {
                if b < below.len() {
                    assert(o[a] == below[a] && o[b] == below[b]);
                } else {
                    assert(o[b] == own[b - below.len()]);
                    if a < below.len() {
                        assert(o[a] == below[a]);
                        assert(looked_at(all, width, (n - 1) as nat, below[a].0, below[a].1));
                    } else {
                        assert(o[a] == own[a - below.len()]);
                    }
                }
            }
        }
        assert forall|i: int, k: int|
            looked_at(all, width, n, i, k) && #[trigger] at(i, k) is Some implies o.contains(
            (i, k),
        ) by {
            if i < n - 1 {
                assert(looked_at(all, width, (n - 1) as nat, i, k));
                let j = choose|j: int| 0 <= j < below.len() && below[j] == (i, k);
                assert(o[j] == (i, k));
            } else {
                lemma_places(all[n - 1].data.len(), width, k);
                let j = choose|j: int| 0 <= j < own.len() && own[j] == (i, k);
                assert(o[below.len() + j] == (i, k));
            }
        }
    }
}

/// What a name that is looked up is: that of the last structure at the address.
pub proof fn lemma_name_at(found: Seq<Found>, va: u32)
    ensures
        match name_at(found, va) {
            Some(name) => exists|j: int|
                {
                    &&& 0 <= j < found.len()
                    &&& #[trigger] found[j] == (va, name)
                    &&& forall|m: int| j < m < found.len() ==> (#[trigger] found[m]).0 != va
                },
            None => forall|m: int| 0 <= m < found.len() ==> (#[trigger] found[m]).0 != va,
        },
    decreases found.len(),
{
    if found.len() > 0 {
        let rest = found.drop_last();
        if found.last().0 == va {
            assert(found[found.len() - 1] == (va, found.last().1));
        } else {
            lemma_name_at(rest, va);
            match name_at(rest, va) {
                Some(name) => {
                    let j = choose|j: int|
                        {
                            &&& 0 <= j < rest.len()
                            &&& #[trigger] rest[j] == (va, name)
                            &&& forall|m: int| j < m < rest.len() ==> (#[trigger] rest[m]).0 != va
                        };
                    assert(found[j] == (va, name));
                    assert forall|m: int| j < m < found.len() implies (#[trigger] found[m]).0
                        != va by {
                        if m < rest.len() {
                            assert(found[m] == rest[m]);
                        }
                    }
                },
                None => {
                    assert forall|m: int| 0 <= m < found.len() implies (#[trigger] found[m]).0
                        != va by {
                        if m < rest.len() {
                            assert(found[m] == rest[m]);
                        }
                    }
                },
            }
        }
    }
}

/// A name that is looked up among the structures that start at the given words is that
/// of the last of them at the address.
proof fn lemma_name_of(
    all: Seq<SectionView>,
    at: spec_fn(int, int) -> Option<Found>,
    width: nat,
    va: u32,
)
    requires
        width > 0,
    ensures
        match name_at(found_at(at, origins(all, at, width, all.len())), va) {
            Some(name) => exists|i: int, k: int|
                {
                    &&& looked_at(all, width, all.len(), i, k)
                    &&& #[trigger] at(i, k) == Some((va, name))
                    &&& forall|i2: int, k2: int|
                        looked_at(all, width, all.len(), i2, k2) && before(i, k, i2, k2) ==> (
                        #[trigger] at(i2, k2) matches Some(f) ==> f.0 != va)
                },
            None => forall|i: int, k: int|
                looked_at(all, width, all.len(), i, k) ==> (#[trigger] at(i, k) matches Some(f)
                    ==> f.0 != va),
        },
{
    let o = origins(all, at, width, all.len());
    let found = found_at(at, o);
    lemma_origins(all, at, width, all.len());
    lemma_name_at(found, va);
    match name_at(found, va) {
        Some(name) => {
            let j = choose|j: int|
                {
                    &&& 0 <= j < found.len()
                    &&& #[trigger] found[j] == (va, name)
                    &&& forall|m: int| j < m < found.len() ==> (#[trigger] found[m]).0 != va
                };
            let (i, k) = o[j];
            assert(at(i, k) == Some((va, name)));
            assert forall|i2: int, k2: int|
                looked_at(all, width, all.len(), i2, k2) && before(i, k, i2, k2) implies (
            #[trigger] at(i2, k2) matches Some(f) ==> f.0 != va) by {
                if at(i2, k2) is Some {
                    let m = choose|m: int| 0 <= m < o.len() && o[m] == (i2, k2);
                    assert(m != j);
                    if m < j {
                        assert(before(o[m].0, o[m].1, o[j].0, o[j].1));
                    }
                    assert(found[m].0 != va);
                }
            }
        },
        None => {
            assert forall|i: int, k: int| looked_at(all, width, all.len(), i, k) implies (
            #[trigger] at(i, k) matches Some(f) ==> f.0 != va) by {
                if at(i, k) is Some {
                    let m = choose|m: int| 0 <= m < o.len() && o[m] == (i, k);
                    assert(found[m].0 != va);
                }
            }
        },
    }
}

/// What stands at a word, if it is a descriptor.
spec fn descriptor_of(all: Seq<SectionView>) -> spec_fn(int, int) -> Option<Found> {
    |i: int, k: int| descriptor_at(all, all[i], k)
}

/// What stands at a word, if it is a locator.
spec fn locator_of(all: Seq<SectionView>, d: Seq<Found>) -> spec_fn(int, int) -> Option<Found> {
    |i: int, k: int| locator_at(all, d, all[i], k)
}

/// What stands behind a word, if it is a vtable.
spec fn vtable_of(all: Seq<SectionView>, l: Seq<Found>) -> spec_fn(int, int) -> Option<Found> {
    |i: int, k: int| vtable_at(all, l, all[i], k)
}

proof fn lemma_descriptors_in(all: Seq<SectionView>, i: int, n: nat)
    ensures
        descriptors_in(all, all[i], n) == found_at(
            descriptor_of(all),
            origins_in(descriptor_of(all), i, n),
        ),
    decreases n,
{
    if n > 0 {
        lemma_descriptors_in(all, i, (n - 1) as nat);
    }
    assert(descriptors_in(all, all[i], n) =~= found_at(
        descriptor_of(all),
        origins_in(descriptor_of(all), i, n),
    ));
}

proof fn lemma_descriptors(all: Seq<SectionView>, n: nat)
    requires
        n <= all.len(),
    ensures
        descriptors(all, n) == found_at(
            descriptor_of(all),
            origins(all, descriptor_of(all), 12, n),
        ),
    decreases n,
{
    if n > 0 {
        lemma_descriptors(all, (n - 1) as nat);
        lemma_descriptors_in(all, n - 1, places(all[n - 1].data.len(), 12));
    }
    assert(descriptors(all, n) =~= found_at(
        descriptor_of(all),
        origins(all, descriptor_of(all), 12, n),
    ));
}

proof fn lemma_locators_in(all: Seq<SectionView>, d: Seq<Found>, i: int, n: nat)
    ensures
        locators_in(all, d, all[i], n) == found_at(
            locator_of(all, d),
            origins_in(locator_of(all, d), i, n),
        ),
    decreases n,
{
    if n > 0 {
        lemma_locators_in(all, d, i, (n - 1) as nat);
    }
    assert(locators_in(all, d, all[i], n) =~= found_at(
        locator_of(all, d),
        origins_in(locator_of(all, d), i, n),
    ));
}

proof fn lemma_locators(all: Seq<SectionView>, d: Seq<Found>, n: nat)
    requires
        n <= all.len(),
    ensures
        locators(all, d, n) == found_at(
            locator_of(all, d),
            origins(all, locator_of(all, d), 20, n),
        ),
    decreases n,
{
    if n > 0 {
        lemma_locators(all, d, (n - 1) as nat);
        lemma_locators_in(all, d, n - 1, places(all[n - 1].data.len(), 20));
    }
    assert(locators(all, d, n) =~= found_at(
        locator_of(all, d),
        origins(all, locator_of(all, d), 20, n),
    ));
}

proof fn lemma_vtables_in(all: Seq<SectionView>, l: Seq<Found>, i: int, n: nat)
    ensures
        vtables_in(all, l, all[i], n) == found_at(
            vtable_of(all, l),
            origins_in(vtable_of(all, l), i, n),
        ),
    decreases n,
{
    if n > 0 {
        lemma_vtables_in(all, l, i, (n - 1) as nat);
    }
    assert(vtables_in(all, l, all[i], n) =~= found_at(
        vtable_of(all, l),
        origins_in(vtable_of(all, l), i, n),
    ));
}

proof fn lemma_vtables(all: Seq<SectionView>, l: Seq<Found>, n: nat)
    requires
        n <= all.len(),
    ensures
        vtables(all, l, n) == found_at(vtable_of(all, l), origins(all, vtable_of(all, l), 8, n)),
    decreases n,
{
    if n > 0 {
        lemma_vtables(all, l, (n - 1) as nat);
        lemma_vtables_in(all, l, n - 1, places(all[n - 1].data.len(), 8));
    }
    assert(vtables(all, l, n) =~= found_at(
        vtable_of(all, l),
        origins(all, vtable_of(all, l), 8, n),
    ));
}

proof fn lemma_zero_from(d: Seq<u8>, at: int)
    requires
        0 <= at,
    ensures
        match zero_from(d, at) {
            Some(end) => at <= end < d.len() && d[end] == 0 && forall|k: int|
                at <= k < end ==> #[trigger] d[k] != 0,
            None => forall|k: int| at <= k < d.len() ==> #[trigger] d[k] != 0,
        },
    decreases d.len() - at,
{
    if at < d.len() && d[at] != 0 {
        lemma_zero_from(d, at + 1);
    }
}

/// The text that is read up to a zero byte.
proof fn lemma_spells(d: Seq<u8>, off: int, name: Seq<char>)
    requires
        0 <= off,
    ensures
        terminated(d, off) == Some(name) <==> spells(d, off, name),
{
    lemma_zero_from(d, off);
    let bytes = encode_utf8(name);
    encode_utf8_valid_utf8(name);
    encode_utf8_decode_utf8(name);
    if terminated(d, off) == Some(name) {
        let end = zero_from(d, off)->Some_0;
        let own = d.subrange(off, end);
        decode_utf8_encode_utf8(own);
        assert(own == bytes);
        assert forall|j: int| 0 <= j < bytes.len() implies #[trigger] bytes[j] != 0 by {
            assert(bytes[j] == d[off + j]);
        }
    }
    if spells(d, off, name) {
        let end = off + bytes.len();
        let own = d.subrange(off, end as int);
        assert forall|k: int| off <= k < end implies #[trigger] d[k] != 0 by {
            assert(own[k - off] == d[k]);
            assert(bytes[k - off] != 0);
        }
        assert(zero_from(d, off) == Some(end as int)) by {
            if let Some(e) = zero_from(d, off) {
                if e < end {
                    assert(d[e] != 0);
                } else if e > end {
                    assert(d[end as int] != 0);
                }
            } else {
                assert(d[end as int] != 0);
            }
        }
    }
}

proof fn lemma_in(all: Seq<SectionView>, va: u32)
    ensures
        in_data(all, va) == points_to_data(all, va as int),
        in_code(all, va) == points_to_code(all, va as int),
{
    if in_data(all, va) {
        let i = choose|i: int|
            0 <= i < all.len() && (#[trigger] all[i]).contains(va) && is_data(all[i].kind);
        assert(covers(all[i], va as int) && has_values(all[i]));
    }
    if points_to_data(all, va as int) {
        let i = choose|i: int|
            0 <= i < all.len() && covers(#[trigger] all[i], va as int) && has_values(all[i]);
        assert(all[i].contains(va) && is_data(all[i].kind));
    }
    if in_code(all, va) {
        let i = choose|i: int|
            0 <= i < all.len() && (#[trigger] all[i]).contains(va) && all[i].kind
                == ObjSectionKind::Code;
        assert(covers(all[i], va as int));
    }
    if points_to_code(all, va as int) {
        let i = choose|i: int|
            0 <= i < all.len() && covers(#[trigger] all[i], va as int) && all[i].kind
                == ObjSectionKind::Code;
        assert(all[i].contains(va));
    }
}

/// Where a descriptor is found, and what for.
proof fn lemma_descriptor(all: Seq<SectionView>, i: int, k: int, name: Seq<char>)
    ensures
        is_descriptor(all, i, k, name) <==> looked_at(all, 12, all.len(), i, k) && descriptor_at(
            all,
            all[i],
            k,
        ) == Some((place(all[i], k) as u32, name)),
        looked_at(all, 12, all.len(), i, k) ==> (descriptor_at(all, all[i], k) matches Some(f)
            ==> f.0 == place(all[i], k) && is_descriptor(all, i, k, f.1)),
{
    if looked_at(all, 12, all.len(), i, k) {
        let s = all[i];
        lemma_words(s.data, 4 * k);
        lemma_words(s.data, 4 * k + 4);
        lemma_in(all, le_u32(s.data, 4 * k));
        lemma_spells(s.data, 4 * k + 8, name);
        if let Some(f) = descriptor_at(all, s, k) {
            lemma_spells(s.data, 4 * k + 8, f.1);
        }
    }
}

/// A type is looked up by the address of its last descriptor.
proof fn lemma_describes(all: Seq<SectionView>, va: u32, name: Seq<char>)
    ensures
        name_at(descriptors(all, all.len()), va) == Some(name) <==> describes(
            all,
            va as int,
            name,
        ),
{
    let at = descriptor_of(all);
    lemma_descriptors(all, all.len());
    lemma_name_of(all, at, 12, va);
    let found = name_at(descriptors(all, all.len()), va);
    if let Some(n) = found {
        let (i, k) = choose|i: int, k: int|
            {
                &&& looked_at(all, 12, all.len(), i, k)
                &&& #[trigger] at(i, k) == Some((va, n))
                &&& forall|i2: int, k2: int|
                    looked_at(all, 12, all.len(), i2, k2) && before(i, k, i2, k2) ==> (
                    #[trigger] at(i2, k2) matches Some(f) ==> f.0 != va)
            };
        lemma_descriptor(all, i, k, n);
        assert(is_descriptor(all, i, k, n));
        assert forall|i2: int, k2: int, other: Seq<char>| #[trigger]
            is_descriptor(all, i2, k2, other) && place(all[i2], k2) == va implies !before(
            i,
            k,
            i2,
            k2,
        ) by {
            lemma_descriptor(all, i2, k2, other);
            assert(at(i2, k2) == Some((va, other)));
        }
        assert(describes(all, va as int, n));
        if describes(all, va as int, name) {
            let (i3, k3) = choose|i3: int, k3: int|
                {
                    &&& #[trigger] is_descriptor(all, i3, k3, name)
                    &&& place(all[i3], k3) == va
                    &&& forall|i2: int, k2: int, other: Seq<char>| #[trigger]
                        is_descriptor(all, i2, k2, other) && place(all[i2], k2) == va ==> !before(
                            i3,
                            k3,
                            i2,
                            k2,
                        )
                };
            assert(!before(i3, k3, i, k));
            assert(!before(i, k, i3, k3));
            lemma_descriptor(all, i, k, name);
        }
    } else if describes(all, va as int, name) {
        let (i, k) = choose|i: int, k: int|
            #[trigger] is_descriptor(all, i, k, name) && place(all[i], k) == va;
        lemma_descriptor(all, i, k, name);
        assert(at(i, k) == Some((va, name)));
    }
}

/// Where a locator is found, and what for.
proof fn lemma_locator(all: Seq<SectionView>, i: int, k: int, name: Seq<char>)
    ensures
        ({
            let d = descriptors(all, all.len());
            &&& is_locator(all, i, k, name) <==> looked_at(all, 20, all.len(), i, k) && locator_at(
                all,
                d,
                all[i],
                k,
            ) == Some((place(all[i], k) as u32, name))
            &&& looked_at(all, 20, all.len(), i, k) ==> (locator_at(all, d, all[i], k) matches Some(
                f,
            ) ==> f.0 == place(all[i], k) && is_locator(all, i, k, f.1))
        }),
{
    if looked_at(all, 20, all.len(), i, k) {
        let s = all[i];
        let d = descriptors(all, all.len());
        lemma_words(s.data, 4 * k);
        lemma_words(s.data, 4 * k + 12);
        lemma_words(s.data, 4 * k + 16);
        lemma_in(all, le_u32(s.data, 4 * k + 16));
        lemma_describes(all, le_u32(s.data, 4 * k + 12), name);
        if let Some(f) = locator_at(all, d, s, k) {
            lemma_describes(all, le_u32(s.data, 4 * k + 12), f.1);
        }
    }
}

/// A type is looked up by the address of its last locator.
proof fn lemma_locates(all: Seq<SectionView>, va: u32, name: Seq<char>)
    ensures
        name_at(locators(all, descriptors(all, all.len()), all.len()), va) == Some(name)
            <==> locates(all, va as int, name),
{
    let d = descriptors(all, all.len());
    let at = locator_of(all, d);
    lemma_locators(all, d, all.len());
    lemma_name_of(all, at, 20, va);
    let found = name_at(locators(all, d, all.len()), va);
    if let Some(n) = found {
        let (i, k) = choose|i: int, k: int|
            {
                &&& looked_at(all, 20, all.len(), i, k)
                &&& #[trigger] at(i, k) == Some((va, n))
                &&& forall|i2: int, k2: int|
                    looked_at(all, 20, all.len(), i2, k2) && before(i, k, i2, k2) ==> (
                    #[trigger] at(i2, k2) matches Some(f) ==> f.0 != va)
            };
        lemma_locator(all, i, k, n);
        assert(is_locator(all, i, k, n));
        assert forall|i2: int, k2: int, other: Seq<char>| #[trigger]
            is_locator(all, i2, k2, other) && place(all[i2], k2) == va implies !before(
            i,
            k,
            i2,
            k2,
        ) by {
            lemma_locator(all, i2, k2, other);
            assert(at(i2, k2) == Some((va, other)));
        }
        assert(locates(all, va as int, n));
        if locates(all, va as int, name) {
            let (i3, k3) = choose|i3: int, k3: int|
                {
                    &&& #[trigger] is_locator(all, i3, k3, name)
                    &&& place(all[i3], k3) == va
                    &&& forall|i2: int, k2: int, other: Seq<char>| #[trigger]
                        is_locator(all, i2, k2, other) && place(all[i2], k2) == va ==> !before(
                            i3,
                            k3,
                            i2,
                            k2,
                        )
                };
            assert(!before(i3, k3, i, k));
            assert(!before(i, k, i3, k3));
            lemma_locator(all, i, k, name);
        }
    } else if locates(all, va as int, name) {
        let (i, k) = choose|i: int, k: int|
            #[trigger] is_locator(all, i, k, name) && place(all[i], k) == va;
        lemma_locator(all, i, k, name);
        assert(at(i, k) == Some((va, name)));
    }
}

/// Where a vtable is found, and what for.
proof fn lemma_vtable(all: Seq<SectionView>, i: int, k: int, name: Seq<char>)
    ensures
        ({
            let l = locators(all, descriptors(all, all.len()), all.len());
            &&& is_vtable(all, i, k, name) <==> looked_at(all, 8, all.len(), i, k) && vtable_at(
                all,
                l,
                all[i],
                k,
            ) == Some((place(all[i], k + 1) as u32, name))
            &&& looked_at(all, 8, all.len(), i, k) ==> (vtable_at(all, l, all[i], k) matches Some(
                f,
            ) ==> f.0 == place(all[i], k + 1) && is_vtable(all, i, k, f.1))
        }),
{
    if looked_at(all, 8, all.len(), i, k) {
        let s = all[i];
        let l = locators(all, descriptors(all, all.len()), all.len());
        lemma_words(s.data, 4 * k);
        lemma_words(s.data, 4 * k + 4);
        lemma_in(all, le_u32(s.data, 4 * k + 4));
        lemma_locates(all, le_u32(s.data, 4 * k), name);
        if let Some(f) = vtable_at(all, l, s, k) {
            lemma_locates(all, le_u32(s.data, 4 * k), f.1);
        }
    }
}

/// Whether `class` is what is left of the name of a type without `.?A` and the letter
/// behind it.
pub open spec fn is_class(name: Seq<char>, class: Seq<char>) -> bool {
    let lettered = name.len() > 4 && ('A' <= name[3] <= 'Z' || 'a' <= name[3] <= 'z');
    let cut: int = if lettered {
        4
    } else {
        3
    };
    &&& class.len() == name.len() - cut
    &&& forall|j: int| 0 <= j < class.len() ==> #[trigger] class[j] == name[j + cut]
}

/// Whether `x` is an object at `va` with no flags, alignment or demangled name.
pub open spec fn is_object_at(x: SymbolView, va: int) -> bool {
    &&& x.kind == ObjSymbolKind::Object
    &&& x.address == va
    &&& x.demangled_name is None
    &&& x.align is None
    &&& !x.flags.global && !x.flags.local && !x.flags.weak && !x.flags.exported
    &&& !x.flags.no_export && !x.flags.stripped
}

/// Whether `x` is the symbol of a descriptor of the type `name` at `va`.
pub open spec fn is_descriptor_symbol(x: SymbolView, va: int, name: Seq<char>) -> bool {
    &&& is_object_at(x, va)
    &&& x.name == "??_R0"@ + name.skip(1) + "@8"@
    &&& x.size == (9 + encode_utf8(name).len()) % 0x1_0000_0000_0000_0000
    &&& x.size_known
}

/// Whether `x` is the symbol of a locator of the type `name` at `va`.
pub open spec fn is_locator_symbol(x: SymbolView, va: int, name: Seq<char>) -> bool {
    &&& is_object_at(x, va)
    &&& exists|class: Seq<char>| #[trigger]
        is_class(name, class) && x.name == "??_R4"@ + class + "6B@"@
    &&& x.size == 20
    &&& x.size_known
}

/// Whether `x` is the symbol of a vtable of the type `name` at `va`.
pub open spec fn is_vtable_symbol(x: SymbolView, va: int, name: Seq<char>) -> bool {
    &&& is_object_at(x, va)
    &&& exists|class: Seq<char>| #[trigger]
        is_class(name, class) && x.name == "??_7"@ + class + "6B@"@
    &&& x.size == 0
    &&& !x.size_known
}

/// Whether `x` is the symbol of a structure that stands in the sections.
pub open spec fn is_symbol_of(all: Seq<SectionView>, x: SymbolView) -> bool {
    ||| exists|i: int, k: int, name: Seq<char>| #[trigger]
        is_descriptor(all, i, k, name) && is_descriptor_symbol(x, place(all[i], k), name)
    ||| exists|i: int, k: int, name: Seq<char>| #[trigger]
        is_locator(all, i, k, name) && is_locator_symbol(x, place(all[i], k), name)
    ||| exists|i: int, k: int, name: Seq<char>| #[trigger]
        is_vtable(all, i, k, name) && is_vtable_symbol(x, place(all[i], k + 1), name)
}

proof fn lemma_symbol_fields(f: Found, sec: SectionIndex)
    requires
        names_type(f.1),
    ensures
        is_descriptor_symbol(rtti_symbol(RttiKind::TypeDescriptor, f, sec), f.0 as int, f.1),
        is_locator_symbol(rtti_symbol(RttiKind::CompleteObjectLocator, f, sec), f.0 as int, f.1),
        is_vtable_symbol(rtti_symbol(RttiKind::Vtable, f, sec), f.0 as int, f.1),
{
    assert(is_class(f.1, inner_name(f.1)));
}

proof fn lemma_locator_typed(all: Seq<SectionView>, i: int, k: int, name: Seq<char>)
    requires
        is_locator(all, i, k, name),
    ensures
        names_type(name),
{
    let va = word(all[i], k + 3);
    let (i2, k2) = choose|i2: int, k2: int|
        #[trigger] is_descriptor(all, i2, k2, name) && place(all[i2], k2) == va;
    assert(is_descriptor(all, i2, k2, name));
}

proof fn lemma_vtable_typed(all: Seq<SectionView>, i: int, k: int, name: Seq<char>)
    requires
        is_vtable(all, i, k, name),
    ensures
        names_type(name),
{
    let va = word(all[i], k);
    let (i2, k2) = choose|i2: int, k2: int|
        #[trigger] is_locator(all, i2, k2, name) && place(all[i2], k2) == va;
    lemma_locator_typed(all, i2, k2, name);
}

/// A symbol that was added is that of one of the structures.
proof fn lemma_added_from(
    all: Seq<SectionView>,
    symbols: Seq<SymbolView>,
    kind: RttiKind,
    found: Seq<Found>,
    n: nat,
    j: int,
)
    requires
        symbols.len() <= j < with_all(all, symbols, kind, found, n).len(),
        n <= found.len(),
    ensures
        exists|m: int, sec: SectionIndex|
            0 <= m < n && with_all(all, symbols, kind, found, n)[j] == #[trigger] rtti_symbol(
                kind,
                found[m],
                sec,
            ),
    decreases n,
{
    if n > 0 {
        let below = with_all(all, symbols, kind, found, (n - 1) as nat);
        if j < below.len() {
            lemma_added_from(all, symbols, kind, found, (n - 1) as nat, j);
        } else {
            let sec = section_at(all, found[n - 1].0)->Some_0;
            assert(with_all(all, symbols, kind, found, n)[j] == rtti_symbol(
                kind,
                found[n - 1],
                sec,
            ));
        }
    }
}

/// Detection adds no symbol but those of type descriptors, complete object locators and
/// vtables that stand in the data sections, with the names of their types: a locator is
/// named after the descriptor that its fourth word points to, a vtable after the
/// locator that the word in front of it points to.
pub proof fn lemma_rtti_sound(all: Seq<SectionView>, symbols: Seq<SymbolView>, j: int)
    requires
        symbols.len() <= j < rtti_symbols(all, symbols).len(),
    ensures
        is_symbol_of(all, rtti_symbols(all, symbols)[j]),
{
    let n = all.len();
    let d = descriptors(all, n);
    let l = locators(all, d, n);
    let v = vtables(all, l, n);
    let s1 = with_all(all, symbols, RttiKind::TypeDescriptor, d.reverse(), d.len());
    let s2 = with_all(all, s1, RttiKind::CompleteObjectLocator, l.reverse(), l.len());
    let s3 = with_all(all, s2, RttiKind::Vtable, v, v.len());
    lemma_with_all_adds(all, symbols, RttiKind::TypeDescriptor, d.reverse(), d.len());
    lemma_with_all_adds(all, s1, RttiKind::CompleteObjectLocator, l.reverse(), l.len());
    lemma_with_all_adds(all, s2, RttiKind::Vtable, v, v.len());
    let x = s3[j];
    if j < s1.len() {
        assert(s2[j] == s1[j] && s3[j] == s2[j]);
        lemma_added_from(all, symbols, RttiKind::TypeDescriptor, d.reverse(), d.len(), j);
        let (m, sec) = choose|m: int, sec: SectionIndex|
            0 <= m < d.len() && x == #[trigger] rtti_symbol(
                RttiKind::TypeDescriptor,
                d.reverse()[m],
                sec,
            );
        let at = descriptor_of(all);
        let o = origins(all, at, 12, n);
        lemma_descriptors(all, n);
        lemma_origins(all, at, 12, n);
        let p = o[d.len() - 1 - m];
        let f = d[d.len() - 1 - m];
        assert(at(p.0, p.1) == Some(f));
        lemma_descriptor(all, p.0, p.1, f.1);
        assert(is_descriptor(all, p.0, p.1, f.1));
        lemma_symbol_fields(f, sec);
    } else if j < s2.len() {
        assert(s3[j] == s2[j]);
        lemma_added_from(all, s1, RttiKind::CompleteObjectLocator, l.reverse(), l.len(), j);
        let (m, sec) = choose|m: int, sec: SectionIndex|
            0 <= m < l.len() && x == #[trigger] rtti_symbol(
                RttiKind::CompleteObjectLocator,
                l.reverse()[m],
                sec,
            );
        let at = locator_of(all, d);
        let o = origins(all, at, 20, n);
        lemma_locators(all, d, n);
        lemma_origins(all, at, 20, n);
        let p = o[l.len() - 1 - m];
        let f = l[l.len() - 1 - m];
        assert(at(p.0, p.1) == Some(f));
        lemma_locator(all, p.0, p.1, f.1);
        assert(is_locator(all, p.0, p.1, f.1));
        lemma_locator_typed(all, p.0, p.1, f.1);
        lemma_symbol_fields(f, sec);
    } else {
        lemma_added_from(all, s2, RttiKind::Vtable, v, v.len(), j);
        let (m, sec) = choose|m: int, sec: SectionIndex|
            0 <= m < v.len() && x == #[trigger] rtti_symbol(RttiKind::Vtable, v[m], sec);
        let at = vtable_of(all, l);
        let o = origins(all, at, 8, n);
        lemma_vtables(all, l, n);
        lemma_origins(all, at, 8, n);
        let p = o[m];
        let f = v[m];
        assert(at(p.0, p.1) == Some(f));
        lemma_vtable(all, p.0, p.1, f.1);
        assert(is_vtable(all, p.0, p.1, f.1));
        lemma_vtable_typed(all, p.0, p.1, f.1);
        lemma_symbol_fields(f, sec);
    }
}

/// Whether section `sec` is the first one that holds the address `va`.
pub open spec fn first_to_cover(all: Seq<SectionView>, sec: SectionIndex, va: int) -> bool {
    &&& sec < all.len()
    &&& covers(all[sec as int], va)
    &&& forall|i: int| 0 <= i < sec ==> !covers(#[trigger] all[i], va)
}

/// The section that an address is looked up in is the first one that holds it.
pub proof fn lemma_section_at(all: Seq<SectionView>, va: u32)
    requires
        all.len() <= usize::MAX,
    ensures
        match section_at(all, va) {
            Some(sec) => first_to_cover(all, sec, va as int),
            None => forall|i: int| 0 <= i < all.len() ==> !covers(#[trigger] all[i], va as int),
        },
    decreases all.len(),
{
    if all.len() > 0 {
        let rest = all.drop_last();
        lemma_section_at(rest, va);
        assert forall|i: int| 0 <= i < rest.len() implies #[trigger] all[i] == rest[i] by {}
    }
}

proof fn lemma_first_to_cover(all: Seq<SectionView>, sec: SectionIndex, va: u32)
    requires
        all.len() <= usize::MAX,
        first_to_cover(all, sec, va as int),
    ensures
        section_at(all, va) == Some(sec),
{
    lemma_section_at(all, va);
    if let Some(other) = section_at(all, va) {
        if other < sec {
            assert(!covers(all[other as int], va as int));
        } else if sec < other {
            assert(!covers(all[sec as int], va as int));
        }
    }
}

/// Whether a symbol stands at the address `va` of section `sec`.
pub open spec fn stands_there(symbols: Seq<SymbolView>, sec: SectionIndex, va: int) -> bool {
    exists|j: int| 0 <= j < symbols.len() && symbol_stands(#[trigger] symbols[j], sec, va)
}

/// Whether `x` stands at the address `va` of section `sec`.
pub open spec fn symbol_stands(x: SymbolView, sec: SectionIndex, va: int) -> bool {
    x.section == Some(sec) && x.address as int % 0x1_0000_0000 == va
}

proof fn lemma_taken(symbols: Seq<SymbolView>, sec: SectionIndex, va: u32)
    ensures
        taken(symbols, sec, va) == stands_there(symbols, sec, va as int),
{
    if taken(symbols, sec, va) {
        let j = choose|j: int| 0 <= j < symbols.len() && (#[trigger] symbols[j]).at(sec, va);
        assert(symbol_stands(symbols[j], sec, va as int));
    }
    if stands_there(symbols, sec, va as int) {
        let j = choose|j: int|
            0 <= j < symbols.len() && symbol_stands(#[trigger] symbols[j], sec, va as int);
        assert(symbols[j].at(sec, va));
    }
}

/// The first structure at a free place gets its symbol.
proof fn lemma_first_added(
    all: Seq<SectionView>,
    symbols: Seq<SymbolView>,
    kind: RttiKind,
    found: Seq<Found>,
    n: nat,
    m: int,
    sec: SectionIndex,
)
    requires
        0 <= m < n <= found.len(),
        section_at(all, found[m].0) == Some(sec),
        !taken(symbols, sec, found[m].0),
        forall|e: int| 0 <= e < m ==> (#[trigger] found[e]).0 != found[m].0,
    ensures
        with_all(all, symbols, kind, found, n).contains(rtti_symbol(kind, found[m], sec)),
    decreases n,
{
    let all_s = with_all(all, symbols, kind, found, n);
    let below = with_all(all, symbols, kind, found, (n - 1) as nat);
    let x = rtti_symbol(kind, found[m], sec);
    if m < n - 1 {
        lemma_first_added(all, symbols, kind, found, (n - 1) as nat, m, sec);
        let j = choose|j: int| 0 <= j < below.len() && below[j] == x;
        assert(all_s[j] == x);
    } else {
        lemma_still_free(all, symbols, kind, found, m as nat, sec, found[m].0);
        assert(all_s[all_s.len() - 1] == x);
    }
}

/// A place stays free while no structure at it was dealt with.
proof fn lemma_still_free(
    all: Seq<SectionView>,
    symbols: Seq<SymbolView>,
    kind: RttiKind,
    found: Seq<Found>,
    n: nat,
    sec: SectionIndex,
    va: u32,
)
    requires
        n <= found.len(),
        !taken(symbols, sec, va),
        forall|e: int| 0 <= e < n ==> (#[trigger] found[e]).0 != va,
    ensures
        !taken(with_all(all, symbols, kind, found, n), sec, va),
    decreases n,
{
    if n > 0 {
        lemma_still_free(all, symbols, kind, found, (n - 1) as nat, sec, va);
        let below = with_all(all, symbols, kind, found, (n - 1) as nat);
        let above = with_all(all, symbols, kind, found, n);
        if taken(above, sec, va) {
            let j = choose|j: int| 0 <= j < above.len() && (#[trigger] above[j]).at(sec, va);
            if j < below.len() {
                assert(above[j] == below[j]);
                assert(taken(below, sec, va));
            } else {
                assert(found[n - 1].0 != va);
            }
        }
    }
}

/// A symbol stays where symbols are added behind it.
proof fn lemma_kept(
    all: Seq<SectionView>,
    symbols: Seq<SymbolView>,
    kind: RttiKind,
    found: Seq<Found>,
    x: SymbolView,
)
    requires
        symbols.contains(x),
    ensures
        with_all(all, symbols, kind, found, found.len()).contains(x),
{
    lemma_with_all_adds(all, symbols, kind, found, found.len());
    let j = choose|j: int| 0 <= j < symbols.len() && symbols[j] == x;
    assert(with_all(all, symbols, kind, found, found.len())[j] == x);
}

/// The last one of a list is the first one of the reversed list.
proof fn lemma_last_first(found: Seq<Found>, va: u32, name: Seq<char>) -> (m: int)
    requires
        name_at(found, va) == Some(name),
    ensures
        0 <= m < found.len(),
        found.reverse()[m] == (va, name),
        forall|e: int| 0 <= e < m ==> (#[trigger] found.reverse()[e]).0 != va,
{
    lemma_name_at(found, va);
    let j = choose|j: int|
        {
            &&& 0 <= j < found.len()
            &&& #[trigger] found[j] == (va, name)
            &&& forall|m: int| j < m < found.len() ==> (#[trigger] found[m]).0 != va
        };
    let m = found.len() - 1 - j;
    assert(found.reverse()[m] == found[j]);
    assert forall|e: int| 0 <= e < m implies (#[trigger] found.reverse()[e]).0 != va by {
        assert(found.reverse()[e] == found[found.len() - 1 - e]);
    }
    m
}

/// A type descriptor at an address of a section where no symbol stood gets its symbol:
/// of several at one address the last one.
pub proof fn lemma_descriptors_get_symbols(
    all: Seq<SectionView>,
    symbols: Seq<SymbolView>,
    va: u32,
    name: Seq<char>,
    sec: SectionIndex,
)
    requires
        all.len() <= usize::MAX,
        describes(all, va as int, name),
        first_to_cover(all, sec, va as int),
        !stands_there(symbols, sec, va as int),
    ensures
        exists|x: SymbolView| #[trigger]
            rtti_symbols(all, symbols).contains(x) && x.section == Some(sec)
                && is_descriptor_symbol(x, va as int, name),
{
    let n = all.len();
    let d = descriptors(all, n);
    let l = locators(all, d, n);
    let v = vtables(all, l, n);
    let s1 = with_all(all, symbols, RttiKind::TypeDescriptor, d.reverse(), d.len());
    let s2 = with_all(all, s1, RttiKind::CompleteObjectLocator, l.reverse(), l.len());
    lemma_describes(all, va, name);
    lemma_first_to_cover(all, sec, va);
    lemma_taken(symbols, sec, va);
    let m = lemma_last_first(d, va, name);
    lemma_first_added(
        all,
        symbols,
        RttiKind::TypeDescriptor,
        d.reverse(),
        d.len(),
        m,
        sec,
    );
    let x = rtti_symbol(RttiKind::TypeDescriptor, (va, name), sec);
    lemma_kept(all, s1, RttiKind::CompleteObjectLocator, l.reverse(), x);
    lemma_kept(all, s2, RttiKind::Vtable, v, x);
    let (i, k) = choose|i: int, k: int|
        #[trigger] is_descriptor(all, i, k, name) && place(all[i], k) == va;
    assert(is_descriptor(all, i, k, name));
    lemma_symbol_fields((va, name), sec);
    assert(rtti_symbols(all, symbols).contains(x));
}

/// A complete object locator at an address of a section where neither a symbol nor a
/// descriptor stood gets its symbol: of several at one address the last one.
pub proof fn lemma_locators_get_symbols(
    all: Seq<SectionView>,
    symbols: Seq<SymbolView>,
    va: u32,
    name: Seq<char>,
    sec: SectionIndex,
)
    requires
        all.len() <= usize::MAX,
        locates(all, va as int, name),
        first_to_cover(all, sec, va as int),
        !stands_there(symbols, sec, va as int),
        forall|other: Seq<char>| !#[trigger] describes(all, va as int, other),
    ensures
        exists|x: SymbolView| #[trigger]
            rtti_symbols(all, symbols).contains(x) && x.section == Some(sec) && is_locator_symbol(
                x,
                va as int,
                name,
            ),
{
    let n = all.len();
    let d = descriptors(all, n);
    let l = locators(all, d, n);
    let v = vtables(all, l, n);
    let s1 = with_all(all, symbols, RttiKind::TypeDescriptor, d.reverse(), d.len());
    let s2 = with_all(all, s1, RttiKind::CompleteObjectLocator, l.reverse(), l.len());
    lemma_locates(all, va, name);
    lemma_first_to_cover(all, sec, va);
    lemma_taken(symbols, sec, va);
    lemma_no_name(all, d, va);
    lemma_still_free(
        all,
        symbols,
        RttiKind::TypeDescriptor,
        d.reverse(),
        d.len(),
        sec,
        va,
    );
    let m = lemma_last_first(l, va, name);
    lemma_first_added(
        all,
        s1,
        RttiKind::CompleteObjectLocator,
        l.reverse(),
        l.len(),
        m,
        sec,
    );
    let x = rtti_symbol(RttiKind::CompleteObjectLocator, (va, name), sec);
    lemma_kept(all, s2, RttiKind::Vtable, v, x);
    let (i, k) = choose|i: int, k: int|
        #[trigger] is_locator(all, i, k, name) && place(all[i], k) == va;
    lemma_locator_typed(all, i, k, name);
    lemma_symbol_fields((va, name), sec);
    assert(rtti_symbols(all, symbols).contains(x));
}

/// Where no descriptor stands, none is listed.
proof fn lemma_no_name(all: Seq<SectionView>, d: Seq<Found>, va: u32)
    requires
        d == descriptors(all, all.len()),
        forall|other: Seq<char>| !#[trigger] describes(all, va as int, other),
    ensures
        forall|e: int| 0 <= e < d.len() ==> (#[trigger] d.reverse()[e]).0 != va,
{
    lemma_name_at(d, va);
    if let Some(n) = name_at(d, va) {
        lemma_describes(all, va, n);
    }
    assert forall|e: int| 0 <= e < d.len() implies (#[trigger] d.reverse()[e]).0 != va by {
        assert(d.reverse()[e] == d[d.len() - 1 - e]);
    }
}

/// A vtable at an address of a section where neither a symbol, a descriptor nor a
/// locator stood gets its symbol: of several at one address the first one.
pub proof fn lemma_vtables_get_symbols(
    all: Seq<SectionView>,
    symbols: Seq<SymbolView>,
    i: int,
    k: int,
    name: Seq<char>,
    sec: SectionIndex,
)
    requires
        all.len() <= usize::MAX,
        is_vtable(all, i, k, name),
        first_to_cover(all, sec, place(all[i], k + 1)),
        !stands_there(symbols, sec, place(all[i], k + 1)),
        forall|other: Seq<char>| !#[trigger] describes(all, place(all[i], k + 1), other),
        forall|other: Seq<char>| !#[trigger] locates(all, place(all[i], k + 1), other),
        forall|i2: int, k2: int, other: Seq<char>| #[trigger]
            is_vtable(all, i2, k2, other) && place(all[i2], k2 + 1) == place(all[i], k + 1)
                ==> !before(i2, k2, i, k),
    ensures
        exists|x: SymbolView| #[trigger]
            rtti_symbols(all, symbols).contains(x) && x.section == Some(sec) && is_vtable_symbol(
                x,
                place(all[i], k + 1),
                name,
            ),
{
    let n = all.len();
    let va = place(all[i], k + 1) as u32;
    let d = descriptors(all, n);
    let l = locators(all, d, n);
    let v = vtables(all, l, n);
    let s1 = with_all(all, symbols, RttiKind::TypeDescriptor, d.reverse(), d.len());
    let s2 = with_all(all, s1, RttiKind::CompleteObjectLocator, l.reverse(), l.len());
    lemma_first_to_cover(all, sec, va);
    lemma_taken(symbols, sec, va);
    lemma_no_name(all, d, va);
    lemma_still_free(all, symbols, RttiKind::TypeDescriptor, d.reverse(), d.len(), sec, va);
    lemma_name_at(l, va);
    if let Some(other) = name_at(l, va) {
        lemma_locates(all, va, other);
    }
    assert forall|e: int| 0 <= e < l.len() implies (#[trigger] l.reverse()[e]).0 != va by {
        assert(l.reverse()[e] == l[l.len() - 1 - e]);
    }
    lemma_still_free(
        all,
        s1,
        RttiKind::CompleteObjectLocator,
        l.reverse(),
        l.len(),
        sec,
        va,
    );
    let at = vtable_of(all, l);
    let o = origins(all, at, 8, n);
    lemma_vtables(all, l, n);
    lemma_origins(all, at, 8, n);
    lemma_vtable(all, i, k, name);
    assert(at(i, k) == Some((va, name)));
    let m = choose|m: int| 0 <= m < o.len() && o[m] == (i, k);
    assert(v[m] == (va, name));
    assert forall|e: int| 0 <= e < m implies (#[trigger] v[e]).0 != va by {
        let p = o[e];
        assert(before(o[e].0, o[e].1, o[m].0, o[m].1));
        assert(at(p.0, p.1) == Some(v[e]));
        lemma_vtable(all, p.0, p.1, v[e].1);
        assert(is_vtable(all, p.0, p.1, v[e].1));
    }
    lemma_first_added(all, s2, RttiKind::Vtable, v, v.len(), m, sec);
    let x = rtti_symbol(RttiKind::Vtable, (va, name), sec);
    lemma_vtable_typed(all, i, k, name);
    lemma_symbol_fields((va, name), sec);
    assert(rtti_symbols(all, symbols).contains(x));
}

/// A word is read where all four bytes of it are there, least significant byte first.
pub proof fn lemma_word_read(d: Seq<u8>, off: int)
    requires
        0 <= off,
    ensures
        le_word(d, off) is Some <==> off + 4 <= d.len(),
        le_word(d, off) matches Some(x) ==> x == number_le(d, off, 4),
{
    if off + 4 <= d.len() {
        lemma_words(d, off);
    }
}

/// A string is read where its bytes stand in front of the first zero byte.
pub proof fn lemma_string_read(d: Seq<u8>, off: int, name: Seq<char>)
    requires
        0 <= off,
    ensures
        terminated(d, off) == Some(name) <==> spells(d, off, name),
{
    lemma_spells(d, off, name);
}

/// The class inside a name: without `.?A` and a letter behind it, unless nothing else
/// is there; and any other name whole.
pub proof fn lemma_class_inner(letter: char, class: Seq<char>, name: Seq<char>)
    ensures
        ('A' <= letter <= 'Z' || 'a' <= letter <= 'z') && class.len() > 0 ==> inner_name(
            seq!['.', '?', 'A', letter] + class,
        ) == class,
        !('A' <= letter <= 'Z' || 'a' <= letter <= 'z') ==> inner_name(
            seq!['.', '?', 'A', letter] + class,
        ) == seq![letter] + class,
        inner_name(seq!['.', '?', 'A', letter]) == seq![letter],
        inner_name(seq!['.', '?', 'A']) == Seq::<char>::empty(),
        !seq!['.', '?', 'A'].is_prefix_of(name) ==> inner_name(name) == name,
{
    let prefix = seq!['.', '?', 'A'];
    let whole = seq!['.', '?', 'A', letter] + class;
    assert(whole.skip(4) =~= class);
    assert(whole.skip(3) =~= seq![letter] + class);
    assert(seq!['.', '?', 'A', letter].skip(3) =~= seq![letter]);
    assert(prefix.skip(3) =~= Seq::<char>::empty());
    if name.len() >= 3 && name[0] == '.' && name[1] == '?' && name[2] == 'A' {
        assert(prefix =~= name.subrange(0, 3));
    }
}

/// The names of a locator and of a vtable are the class between the marks of their
/// sort, so two names of one class share them and those of two classes do not.
pub proof fn lemma_structure_names(a: Seq<char>, b: Seq<char>)
    ensures
        locator_name(a) == "??_R4"@ + inner_name(a) + "6B@"@,
        vtable_name(a) == "??_7"@ + inner_name(a) + "6B@"@,
        locator_name(a) == locator_name(b) <==> inner_name(a) == inner_name(b),
        vtable_name(a) == vtable_name(b) <==> inner_name(a) == inner_name(b),
{
    lemma_between("??_R4"@, inner_name(a), inner_name(b), "6B@"@);
    lemma_between("??_7"@, inner_name(a), inner_name(b), "6B@"@);
}

proof fn lemma_between(head: Seq<char>, a: Seq<char>, b: Seq<char>, tail: Seq<char>)
    ensures
        head + a + tail == head + b + tail <==> a == b,
{
    let x = head + a + tail;
    let y = head + b + tail;
    if x == y {
        assert(x.len() == head.len() + a.len() + tail.len());
        assert(y.len() == head.len() + b.len() + tail.len());
        assert(a =~= x.subrange(head.len() as int, (head.len() + a.len()) as int));
        assert(b =~= y.subrange(head.len() as int, (head.len() + b.len()) as int));
    }
}

} // verus!
