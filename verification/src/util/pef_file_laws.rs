//! What the object of a PEF file says of the bytes of the file.
use vstd::arithmetic::power2::pow2;
use vstd::prelude::*;
use vstd::utf8::*;

use crate::bytes::{lemma_words, number};
use crate::obj::{ObjArchitecture, ObjKind, ObjSectionKind, SectionView};
use crate::text::decimal;
use crate::util::pef::{
    ContainerView, PefError, PefSectionHeader, c_string, container, lemma_labels_len, nul_from,
    section_header_at, section_kind, section_label, section_labels, section_table,
    section_table_end,
};
use crate::util::pef_object::{
    SectionUse, object_section, object_sections, pef_object, section_use,
};

verus! {

/// Where the header of section `i` stands.
pub open spec fn header_of(i: int) -> int {
    40 + 28 * i
}

/// The byte that says what section `i` holds.
pub open spec fn kind_byte(d: Seq<u8>, i: int) -> u8 {
    d[header_of(i) + 24]
}

/// Whether section `i` of the file stands in the object: code, data as it is,
/// patterned data, constants and executable data do.
pub open spec fn stands(d: Seq<u8>, i: int) -> bool {
    let k = kind_byte(d, i);
    k == 0 || k == 1 || k == 2 || k == 3 || k == 6
}

/// How many of the first `n` sections of the file stand in the object.
pub open spec fn standing(d: Seq<u8>, n: nat) -> nat
    decreases n,
{
    if n == 0 {
        0
    } else {
        standing(d, (n - 1) as nat) + (if stands(d, n - 1) {
            1nat
        } else {
            0
        })
    }
}

/// How many sections the file has.
pub open spec fn section_count(d: Seq<u8>) -> int {
    number(d, 32, 2)
}

/// Whether `t` is the text from `at` to the next zero byte or the end.
pub open spec fn text_at(d: Seq<u8>, at: int, t: Seq<char>) -> bool {
    exists|end: int|
        {
            &&& at <= end <= d.len()
            &&& end == d.len() || d[end] == 0
            &&& forall|k: int| at <= k < end ==> #[trigger] d[k] != 0
            &&& encode_utf8(t) == #[trigger] d.subrange(at, end)
        }
}

/// The file range (start and length) that the header of section `i` states.
pub open spec fn file_range(d: Seq<u8>, i: int) -> (int, int) {
    (number(d, header_of(i) + 20, 4), number(d, header_of(i) + 16, 4))
}

/// Whether `data` is what section `i` of the file holds when it is loaded: its
/// bytes of the file, for unpacked data with zero bytes up to its total size, and
/// for patterned data zero bytes alone.
pub open spec fn loads_as(d: Seq<u8>, i: int, data: Seq<u8>) -> bool {
    let (start, len) = file_range(d, i);
    let total = number(d, header_of(i) + 8, 4);
    let unpacked = number(d, header_of(i) + 12, 4);
    if kind_byte(d, i) == 2 {
        &&& data.len() == unpacked
        &&& forall|j: int| 0 <= j < unpacked ==> #[trigger] data[j] == 0
    } else {
        &&& start + len <= d.len()
        &&& data.len() == (if kind_byte(d, i) == 1 && total > len {
            total
        } else {
            len
        })
        &&& forall|j: int| 0 <= j < len ==> #[trigger] data[j] == d[start + j]
        &&& forall|j: int| len <= j < data.len() ==> #[trigger] data[j] == 0
    }
}

/// The kind of section that the kind byte stands for in the object.
pub open spec fn loaded_kind(k: u8) -> ObjSectionKind {
    if k == 0 {
        ObjSectionKind::Code
    } else if k == 3 {
        ObjSectionKind::ReadOnlyData
    } else {
        ObjSectionKind::Data
    }
}

/// The name that a section without one gets for its kind.
pub open spec fn plain_name(k: u8) -> Seq<char> {
    if k == 0 {
        ".code"@
    } else if k == 1 {
        ".data"@
    } else if k == 2 {
        ".pidata"@
    } else if k == 3 {
        ".rdata"@
    } else {
        ".xdata"@
    }
}

/// Whether `name` is the name of section `i`: the one in the name table, or one
/// made of its kind and number.
pub open spec fn named_as(d: Seq<u8>, i: int, name: Seq<char>) -> bool {
    let off = number(d, header_of(i), 4);
    if off == 0xffff_ffff {
        name == plain_name(kind_byte(d, i)) + decimal(i as nat)
    } else {
        text_at(d, 40 + 28 * section_count(d) + off, name)
    }
}

/// Whether `s` is section `i` of the file, loaded.
#[verifier::opaque]
pub open spec fn is_loaded(d: Seq<u8>, i: int, s: SectionView) -> bool {
    &&& s.kind == loaded_kind(kind_byte(d, i))
    &&& loads_as(d, i, s.data)
    &&& s.address == number(d, header_of(i) + 4, 4)
    &&& s.size == number(d, header_of(i) + 8, 4)
    &&& s.file_offset == number(d, header_of(i) + 20, 4)
    &&& d[header_of(i) + 26] < 64
    &&& s.align == pow2(d[header_of(i) + 26] as nat)
    &&& s.elf_index == i
    &&& s.relocations.len() == 0
    &&& s.splits.len() == 0
    &&& s.virtual_address is None
    &&& s.section_known
    &&& named_as(d, i, s.name)
}

/// The string that [`c_string`] reads.
pub(crate) proof fn lemma_text_at(d: Seq<u8>, at: int)
    requires
        0 <= at,
    ensures
        c_string(d, at) matches Ok(t) ==> text_at(d, at, t),
{
    if at <= d.len() {
        lemma_nul_from(d, at);
        let end = nul_from(d, at);
        let bytes = d.subrange(at, end);
        if valid_utf8(bytes) {
            decode_utf8_encode_utf8(bytes);
            assert(encode_utf8(decode_utf8(bytes)) == d.subrange(at, end));
        }
    }
}

pub(crate) proof fn lemma_nul_from(d: Seq<u8>, at: int)
    requires
        0 <= at <= d.len(),
    ensures
        at <= nul_from(d, at) <= d.len(),
        nul_from(d, at) == d.len() || d[nul_from(d, at)] == 0,
        forall|k: int| at <= k < nul_from(d, at) ==> #[trigger] d[k] != 0,
    decreases d.len() - at,
{
    if at < d.len() && d[at] != 0 {
        lemma_nul_from(d, at + 1);
    }
}

/// The fields of a section header by their bytes.
pub(crate) proof fn lemma_header_fields(d: Seq<u8>, i: int)
    ensures
        ({
            let sh = section_header_at(d, header_of(i));
            let h = header_of(i);
            &&& sh.default_address == number(d, h + 4, 4)
            &&& sh.total_size == number(d, h + 8, 4)
            &&& sh.unpacked_size == number(d, h + 12, 4)
            &&& sh.container_size == number(d, h + 16, 4)
            &&& sh.container_offset == number(d, h + 20, 4)
            &&& sh.section_kind == d[h + 24]
            &&& sh.alignment == d[h + 26]
            &&& (sh.name_offset as int) % 0x1_0000_0000 == number(d, h, 4)
            &&& sh.name_offset == -1 <==> number(d, h, 4) == 0xffff_ffff
        }),
{
    let h = header_of(i);
    lemma_words(d, h);
    lemma_words(d, h + 4);
    lemma_words(d, h + 8);
    lemma_words(d, h + 12);
    lemma_words(d, h + 16);
    lemma_words(d, h + 20);
}

/// The container of a file by its bytes.
pub(crate) proof fn lemma_container(d: Seq<u8>)
    ensures
        container(d) matches Ok(c) ==> {
            &&& c.sections.len() == section_count(d)
            &&& c.section_names.len() == section_count(d)
            &&& 40 + 28 * section_count(d) <= d.len()
            &&& forall|i: int|
                0 <= i < section_count(d) ==> #[trigger] c.sections[i] == section_header_at(
                    d,
                    header_of(i),
                )
            &&& forall|i: int|
                0 <= i < section_count(d) ==> match #[trigger] c.section_names[i] {
                    Some(t) => number(d, header_of(i), 4) != 0xffff_ffff && text_at(
                        d,
                        40 + 28 * section_count(d) + number(d, header_of(i), 4),
                        t,
                    ),
                    None => number(d, header_of(i), 4) == 0xffff_ffff,
                }
        },
{
    lemma_labels_len(d);
    lemma_words(d, 32);
    if let Ok(c) = container(d) {
        let n = section_count(d) as nat;
        assert forall|i: int| 0 <= i < n implies match #[trigger] c.section_names[i] {
            Some(t) => number(d, header_of(i), 4) != 0xffff_ffff && text_at(
                d,
                40 + 28 * section_count(d) + number(d, header_of(i), 4),
                t,
            ),
            None => number(d, header_of(i), 4) == 0xffff_ffff,
        } by {
            let s = section_table(d, n);
            let end = section_table_end(n);
            lemma_label_each(d, end, s, n, i);
            lemma_header_fields(d, i);
            assert(s[i] == section_header_at(d, header_of(i)));
            if s[i].name_offset != -1 {
                lemma_text_at(d, end + (s[i].name_offset as int) % 0x1_0000_0000);
            }
        }
    }
}

proof fn lemma_label_each(
    d: Seq<u8>,
    end: int,
    s: Seq<PefSectionHeader>,
    n: nat,
    i: int,
)
    requires
        0 <= i < n,
    ensures
        section_labels(d, end, s, n) matches Ok(names) ==> names.len() == n && section_label(
            d,
            end,
            s[i],
        ) == Ok::<_, PefError>(names[i]),
    decreases n,
{
    reveal_with_fuel(section_labels, 2);
    if n > 1 {
        lemma_label_each(
            d,
            end,
            s,
            (n - 1) as nat,
            if i < n - 1 {
                i
            } else {
                0
            },
        );
    }
}

/// The bytes of section `i` of the file.
pub open spec fn section_bytes(d: Seq<u8>, i: int) -> Seq<u8> {
    let (start, len) = file_range(d, i);
    d.subrange(start, start + len)
}

/// Whether section `i` is the last one of the first `n` that is a loader section.
pub open spec fn last_loader_section(d: Seq<u8>, i: int, n: int) -> bool {
    0 <= i < n && kind_byte(d, i) == 4 && forall|j: int| i < j < n ==> kind_byte(d, j) != 4
}

/// What the first `n` sections of the file become.
pub(crate) proof fn lemma_sections(d: Seq<u8>, c: ContainerView, n: nat)
    requires
        container(d) == Ok::<_, PefError>(c),
        n <= section_count(d),
    ensures
        object_sections(d, c, n) matches Ok(s) ==> {
            &&& s.sections.len() == standing(d, n)
            &&& s.indexes.len() == n
            &&& forall|i: int|
                0 <= i < n ==> #[trigger] s.indexes[i] == (if stands(d, i) {
                    Some(standing(d, i as nat) as usize)
                } else {
                    None
                })
            &&& forall|i: int|
                0 <= i < n && #[trigger] stands(d, i) ==> standing(d, i as nat) < standing(d, n)
                    && is_loaded(d, i, s.sections[standing(d, i as nat) as int])
        },
    decreases n,
{
    lemma_container(d);
    if n > 0 {
        lemma_sections(d, c, (n - 1) as nat);
        let last = n - 1;
        lemma_header_fields(d, last);
        assert(c.sections[last] == section_header_at(d, header_of(last)));
        if let Ok(s) = object_sections(d, c, n) {
            let below = object_sections(d, c, (n - 1) as nat)->Ok_0;
            if stands(d, last) {
                lemma_one_section(d, c, last);
                assert(s.sections[below.sections.len() as int] == s.sections.last());
            }
            assert forall|i: int| 0 <= i < n && #[trigger] stands(d, i) implies standing(
                d,
                i as nat,
            ) < standing(d, n) && is_loaded(d, i, s.sections[standing(d, i as nat) as int]) by {
                if i < last {
                    assert(s.sections[standing(d, i as nat) as int] == below.sections[standing(
                        d,
                        i as nat,
                    ) as int]);
                }
            }
        }
    }
}

/// Which bytes the loader section is made of.
pub(crate) proof fn lemma_loader(d: Seq<u8>, c: ContainerView, n: nat)
    requires
        container(d) == Ok::<_, PefError>(c),
        n <= section_count(d),
    ensures
        object_sections(d, c, n) matches Ok(s) ==> {
            &&& forall|i: int| #[trigger]
                last_loader_section(d, i, n as int) ==> s.loader == Some(section_bytes(d, i))
                    && file_range(d, i).0 + file_range(d, i).1 <= d.len()
            &&& s.loader is Some ==> exists|i: int| #[trigger]
                last_loader_section(d, i, n as int)
        },
    decreases n,
{
    if n > 0 {
        lemma_loader(d, c, (n - 1) as nat);
        let last = n - 1;
        lemma_container(d);
        lemma_header_fields(d, last);
        assert(c.sections[last] == section_header_at(d, header_of(last)));
        if let Ok(s) = object_sections(d, c, n) {
            let below = object_sections(d, c, (n - 1) as nat)->Ok_0;
            assert forall|i: int| #[trigger] last_loader_section(d, i, n as int) implies s.loader
                == Some(section_bytes(d, i)) && file_range(d, i).0 + file_range(d, i).1
                <= d.len() by {
                if i < last {
                    assert(kind_byte(d, last) != 4);
                    assert(last_loader_section(d, i, n - 1));
                }
            }
            if s.loader is Some {
                if kind_byte(d, last) == 4 {
                    assert(last_loader_section(d, last, n as int));
                } else {
                    assert(below.loader is Some);
                    let i = choose|i: int| #[trigger] last_loader_section(d, i, n - 1);
                    assert(last_loader_section(d, i, n as int));
                }
            }
        }
    }
}

/// What one section of the file becomes.
proof fn lemma_one_section(d: Seq<u8>, c: ContainerView, i: int)
    requires
        container(d) == Ok::<_, PefError>(c),
        0 <= i < section_count(d),
        stands(d, i),
    ensures
        section_use(d, c.sections[i]) !is Skip,
        section_use(d, c.sections[i]) !is Loader,
        section_use(d, c.sections[i]) matches SectionUse::Section(kind, data) ==> (
        c.sections[i].alignment < 64 ==> is_loaded(d, i, object_section(c, i, kind, data))),
{
    lemma_container(d);
    lemma_header_fields(d, i);
    reveal(is_loaded);
    let sh = c.sections[i];
    assert(sh == section_header_at(d, header_of(i)));
    reveal_strlit(".");
    reveal_strlit("code");
    reveal_strlit("data");
    reveal_strlit("pidata");
    reveal_strlit("rdata");
    reveal_strlit("xdata");
    reveal_strlit(".code");
    reveal_strlit(".data");
    reveal_strlit(".pidata");
    reveal_strlit(".rdata");
    reveal_strlit(".xdata");
    if let SectionUse::Section(kind, data) = section_use(d, sh) {
        if sh.alignment < 64 {
            vstd::bits::lemma_u64_pow2_no_overflow(sh.alignment as nat);
            let s = object_section(c, i, kind, data);
            assert(loads_as(d, i, s.data));
            if c.section_names[i] is None {
                let k = kind_byte(d, i);
                assert("."@ + crate::util::pef::kind_name(section_kind(k)->Some_0)
                    =~= plain_name(k));
            }
        }
    }
}

/// Every section of the file that code, constants or data are loaded from is a
/// section of the object, in the order of the file: its bytes are the bytes of the
/// file that its header names, and name, address, size and alignment are those
/// that the header states. The object has no other sections.
pub proof fn lemma_file_sections(d: Seq<u8>, name: Seq<char>)
    ensures
        pef_object(d, name) matches Ok(o) ==> {
            &&& o.kind == ObjKind::Executable
            &&& o.architecture == ObjArchitecture::PowerPc
            &&& o.name == name
            &&& o.sections.len() == standing(d, section_count(d) as nat)
            &&& forall|i: int|
                0 <= i < section_count(d) && #[trigger] stands(d, i) ==> standing(d, i as nat)
                    < o.sections.len() && is_loaded(
                    d,
                    i,
                    o.sections[standing(d, i as nat) as int],
                )
        },
{
    if let Ok(c) = container(d) {
        lemma_container(d);
        lemma_sections(d, c, section_count(d) as nat);
    }
}

} // verus!
