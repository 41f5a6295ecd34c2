//! What a COFF file that is written holds of the object.
use vstd::prelude::*;
use vstd::utf8::*;

use crate::bytes::{le32, le_u32, lemma_words, lemma_words_written, number_le};
use crate::obj::{ObjRelocKind, ObjSectionKind, ObjSymbolKind, ObjView, SectionView, SymbolView};
use crate::util::coff_laws::{lemma_cleared, relocated_byte};
use crate::util::coff_write::{
    CoffState, CoffWriteError, OutReloc, OutSection, OutSymbol, bare_section, cleared, coff_file,
    coff_image, coff_ready, image_known, reloc_ready, section_ready, stored_addend, symbol_ready,
    with_le_word, with_reloc, with_relocs, with_section_relocs, with_symbol, with_symbols,
};

verus! {

/// Whether COFF has a relocation for the one at `k`: absolute and relative addresses of
/// 32 bits.
pub open spec fn is_carried(s: SectionView, k: int) -> bool {
    s.relocations[k].1.kind == ObjRelocKind::X86Abs32 || s.relocations[k].1.kind
        == ObjRelocKind::X86Rel32
}

/// How many of the first `n` relocations are carried over.
pub open spec fn carried(s: SectionView, n: nat) -> int
    decreases n,
{
    if n == 0 {
        0
    } else {
        carried(s, (n - 1) as nat) + (if is_carried(s, n - 1) {
            1int
        } else {
            0
        })
    }
}

/// What stands in the field of relocation `k`: the addend, counted from the end of the
/// field where the relocation is relative; nothing where COFF has no such relocation.
pub open spec fn field_value(s: SectionView, k: int) -> int {
    let r = s.relocations[k].1;
    if r.kind == ObjRelocKind::X86Abs32 {
        r.addend as int
    } else if r.kind == ObjRelocKind::X86Rel32 {
        r.addend + 4
    } else {
        0
    }
}

/// Where the field of relocation `k` starts in its section.
pub open spec fn field_at(s: SectionView, k: int) -> int {
    s.relocations[k].0 - s.address
}

/// Whether byte `j` lies in the field of relocation `k`.
pub open spec fn in_field(s: SectionView, k: int, j: int) -> bool {
    field_at(s, k) <= j < field_at(s, k) + 4
}

/// Whether relocation `k` does not fit: something has to stand in a field that is not
/// inside the data.
pub open spec fn is_outside(s: SectionView, k: int) -> bool {
    field_value(s, k) != 0 && field_at(s, k) + 4 > s.data.len()
}

/// Whether `r` is relocation `k` of the section.
pub open spec fn is_reloc_of(s: SectionView, k: int, r: OutReloc, numbers: Seq<nat>) -> bool {
    &&& r.offset == field_at(s, k)
    &&& r.symbol == numbers[s.relocations[k].1.target_symbol as int]
    &&& r.relative <==> s.relocations[k].1.kind == ObjRelocKind::X86Rel32
}

/// What the first `n` relocations do to a section.
spec fn relocs_added(
    s: SectionView,
    n: nat,
    a: OutSection,
    b: OutSection,
    numbers: Seq<nat>,
) -> bool {
    &&& b == (OutSection { data: b.data, relocations: b.relocations, ..a })
    &&& b.data.len() == a.data.len()
    &&& b.relocations.len() == carried(s, n)
    &&& forall|k: int|
        0 <= k < n && #[trigger] is_carried(s, k) ==> 0 <= carried(s, k as nat) < carried(s, n)
            && is_reloc_of(s, k, b.relocations[carried(s, k as nat)], numbers)
    &&& forall|j: int|
        0 <= j < a.data.len() && (forall|k: int|
            0 <= k < n && field_value(s, k) != 0 ==> !#[trigger] in_field(s, k, j))
            ==> #[trigger] b.data[j] == a.data[j]
    &&& forall|k: int, j: int|
        0 <= k < n && field_value(s, k) != 0 && #[trigger] in_field(s, k, j) && (forall|m: int|
            k < m < n && field_value(s, m) != 0 ==> !#[trigger] in_field(s, m, j))
            ==> #[trigger] b.data[j] == le32((field_value(s, k) % 0x1_0000_0000) as u32)[j
            - field_at(s, k)]
}

proof fn lemma_section_relocs(
    obj: ObjView,
    st: CoffState,
    i: int,
    n: nat,
)
    requires
        0 <= i < st.sections.len() == obj.sections.len(),
        section_ready(obj, obj.sections[i]),
        n <= obj.sections[i].relocations.len(),
        st.sections[i].relocations.len() == 0,
        st.sections[i].kind == obj.sections[i].kind,
        obj.sections[i].kind == ObjSectionKind::Bss ==> st.sections[i].data.len() == 0,
        obj.sections[i].kind != ObjSectionKind::Bss ==> st.sections[i].data.len()
            == obj.sections[i].data.len(),
    ensures
        ({
            let s = obj.sections[i];
            let r = with_section_relocs(st, s, i, n);
            &&& carried(s, n) >= 0
            &&& r matches Ok(next) ==> {
                &&& next.symbols == st.symbols
                &&& next.numbers == st.numbers
                &&& next.sections.len() == st.sections.len()
                &&& forall|j: int|
                    0 <= j < st.sections.len() && j != i ==> #[trigger] next.sections[j]
                        == st.sections[j]
                &&& relocs_added(s, n, st.sections[i], next.sections[i], st.numbers)
            }
            &&& r is Err <==> exists|k: int| 0 <= k < n && #[trigger] is_outside(s, k)
            &&& r matches Err(e) ==> e == CoffWriteError::RelocationOutside
        }),
    decreases n,
{
    let s = obj.sections[i];
    if n > 0 {
        lemma_section_relocs(obj, st, i, (n - 1) as nat);
        let k = n - 1;
        let e = s.relocations[k];
        assert(reloc_ready(obj, s, e));
        if let Ok(below) = with_section_relocs(st, s, i, (n - 1) as nat) {
            let a = st.sections[i];
            let out = below.sections[i];
            let r = with_reloc(below, s, i, e);
            if is_carried(s, k) {
                let relative = e.1.kind == ObjRelocKind::X86Rel32;
                assert(stored_addend(e.1.addend, relative) == field_value(s, k));
                assert((e.0 - s.address) as u64 == field_at(s, k));
                assert(r is Err <==> is_outside(s, k));
                if let Ok(next) = r {
                    let b = next.sections[i];
                    assert forall|m: int| 0 <= m < n && #[trigger] is_carried(s, m) implies 0
                        <= carried(s, m as nat) < carried(s, n) && is_reloc_of(
                        s,
                        m,
                        b.relocations[carried(s, m as nat)],
                        st.numbers,
                    ) by {
                        if m < k {
                            let c = carried(s, m as nat);
                            assert(b.relocations[c] == out.relocations[c]);
                        }
                    }
                    assert forall|m: int| 0 <= m < n - 1 && field_value(s, m) != 0 implies 0
                        <= #[trigger] field_at(s, m) && field_at(s, m) + 4 <= a.data.len() by {
                        assert(reloc_ready(obj, s, s.relocations[m]));
                        assert(!is_outside(s, m));
                    }
                    lemma_data_added(s, n, a, out, b);
                }
            } else {
                assert(r == Ok::<CoffState, CoffWriteError>(below));
                assert(!is_outside(s, k));
                assert(field_value(s, k) == 0);
                assert(relocs_added(s, n, a, out, st.numbers)) by {
                    lemma_data_same(s, n, a, out);
                }
            }
        } else {
            let m = choose|m: int| 0 <= m < n - 1 && #[trigger] is_outside(s, m);
            assert(is_outside(s, m));
        }
    }
}

/// The bytes after a relocation for which nothing is written.
proof fn lemma_data_same(s: SectionView, n: nat, a: OutSection, b: OutSection)
    requires
        n > 0,
        field_value(s, n - 1) == 0,
        b.data.len() == a.data.len(),
        forall|j: int|
            0 <= j < a.data.len() && (forall|k: int|
                0 <= k < n - 1 && field_value(s, k) != 0 ==> !#[trigger] in_field(s, k, j))
                ==> #[trigger] b.data[j] == a.data[j],
        forall|k: int, j: int|
            0 <= k < n - 1 && field_value(s, k) != 0 && #[trigger] in_field(s, k, j) && (forall|
                m: int,
            |
                k < m < n - 1 && field_value(s, m) != 0 ==> !#[trigger] in_field(s, m, j))
                ==> #[trigger] b.data[j] == le32((field_value(s, k) % 0x1_0000_0000) as u32)[j
                - field_at(s, k)],
    ensures
        forall|j: int|
            0 <= j < a.data.len() && (forall|k: int|
                0 <= k < n && field_value(s, k) != 0 ==> !#[trigger] in_field(s, k, j))
                ==> #[trigger] b.data[j] == a.data[j],
        forall|k: int, j: int|
            0 <= k < n && field_value(s, k) != 0 && #[trigger] in_field(s, k, j) && (forall|
                m: int,
            |
                k < m < n && field_value(s, m) != 0 ==> !#[trigger] in_field(s, m, j))
                ==> #[trigger] b.data[j] == le32((field_value(s, k) % 0x1_0000_0000) as u32)[j
                - field_at(s, k)],
{
}

/// The bytes after a relocation is added.
proof fn lemma_data_added(s: SectionView, n: nat, a: OutSection, out: OutSection, b: OutSection)
    requires
        n > 0,
        is_carried(s, n - 1),
        out.data.len() == a.data.len(),
        field_value(s, n - 1) != 0 ==> 0 <= field_at(s, n - 1) && field_at(s, n - 1) + 4
            <= a.data.len(),
        field_value(s, n - 1) == 0 ==> b.data == out.data,
        field_value(s, n - 1) != 0 ==> b.data == with_le_word(
            out.data,
            field_at(s, n - 1),
            (field_value(s, n - 1) % 0x1_0000_0000) as u32,
        ),
        forall|j: int|
            0 <= j < a.data.len() && (forall|k: int|
                0 <= k < n - 1 && field_value(s, k) != 0 ==> !#[trigger] in_field(s, k, j))
                ==> #[trigger] out.data[j] == a.data[j],
        forall|k: int, j: int|
            0 <= k < n - 1 && field_value(s, k) != 0 && #[trigger] in_field(s, k, j) && (forall|
                m: int,
            |
                k < m < n - 1 && field_value(s, m) != 0 ==> !#[trigger] in_field(s, m, j))
                ==> #[trigger] out.data[j] == le32((field_value(s, k) % 0x1_0000_0000) as u32)[j
                - field_at(s, k)],
        forall|k: int|
            0 <= k < n - 1 && field_value(s, k) != 0 ==> 0 <= #[trigger] field_at(s, k)
                && field_at(s, k) + 4 <= a.data.len(),
    ensures
        b.data.len() == a.data.len(),
        forall|j: int|
            0 <= j < a.data.len() && (forall|k: int|
                0 <= k < n && field_value(s, k) != 0 ==> !#[trigger] in_field(s, k, j))
                ==> #[trigger] b.data[j] == a.data[j],
        forall|k: int, j: int|
            0 <= k < n && field_value(s, k) != 0 && #[trigger] in_field(s, k, j) && (forall|
                m: int,
            |
                k < m < n && field_value(s, m) != 0 ==> !#[trigger] in_field(s, m, j))
                ==> #[trigger] b.data[j] == le32((field_value(s, k) % 0x1_0000_0000) as u32)[j
                - field_at(s, k)],
{
    assert forall|j: int|
        0 <= j < a.data.len() && (forall|k: int|
            0 <= k < n && field_value(s, k) != 0 ==> !#[trigger] in_field(s, k, j)) implies
        #[trigger] b.data[j] == a.data[j] by {
        assert(out.data[j] == a.data[j]);
        if field_value(s, n - 1) != 0 {
            assert(!in_field(s, n - 1, j));
        }
    }
    assert forall|k: int, j: int|
        0 <= k < n && field_value(s, k) != 0 && #[trigger] in_field(s, k, j) && (forall|m: int|
            k < m < n && field_value(s, m) != 0 ==> !#[trigger] in_field(s, m, j)) implies
        #[trigger] b.data[j] == le32((field_value(s, k) % 0x1_0000_0000) as u32)[j - field_at(
        s,
        k,
    )] by {
        if k < n - 1 {
            assert(0 <= field_at(s, k));
            assert(out.data[j] == le32((field_value(s, k) % 0x1_0000_0000) as u32)[j - field_at(
                s,
                k,
            )]);
            if field_value(s, n - 1) != 0 {
                assert(!in_field(s, n - 1, j));
            }
        }
    }
}

/// Whether `out` is the section of the object before its relocations are added.
spec fn is_bare(s: SectionView, out: OutSection) -> bool {
    &&& out.name == encode_utf8(s.name)
    &&& out.kind == s.kind
    &&& out.align == (if s.align == 0 { 1 } else { s.align })
    &&& s.kind == ObjSectionKind::Bss ==> out.data.len() == 0 && out.size == s.size
    &&& s.kind != ObjSectionKind::Bss ==> out.data == cleared(s, s.relocations.len()) && out.size
        == out.data.len() as u64
}

/// The symbol of a file that a symbol of the object becomes: a function or an object
/// gets an underscore in front of its name; the linker sees what is global, weak or
/// exported, and with `export_all` every function and object that may be exported.
pub open spec fn is_symbol_written(
    sym: SymbolView,
    out: OutSymbol,
    sections: nat,
    export_all: bool,
) -> bool {
    let text = encode_utf8(sym.name);
    let named = sym.kind == ObjSymbolKind::Function || sym.kind == ObjSymbolKind::Object;
    &&& named && text.len() > 0 ==> out.name.len() == text.len() + 1 && out.name[0] == 0x5F
        && out.name.skip(1) == text
    &&& !named || text.len() == 0 ==> out.name == text
    &&& out.value == sym.address
    &&& out.size == sym.size
    &&& out.kind == sym.kind
    &&& out.weak == sym.flags.weak
    &&& sym.section is Some && sym.section->Some_0 < sections ==> out.section == Some(
        sym.section->Some_0 as nat,
    )
    &&& sym.section is None || sym.section->Some_0 >= sections ==> out.section is None
    &&& sym.flags.weak || sym.flags.exported || sym.flags.global ==> out.linkage
    &&& out.linkage && !sym.flags.weak && !sym.flags.exported && !sym.flags.global ==> export_all
    &&& export_all && named && !sym.flags.no_export ==> out.linkage
    &&& out.linkage && !sym.flags.weak && !sym.flags.exported && !sym.flags.global ==> named
        && !sym.flags.no_export
}

/// Whether `out` is the symbol that stands for section `k`.
pub open spec fn is_section_symbol(out: OutSymbol, name: Seq<char>, k: nat) -> bool {
    &&& out.kind == ObjSymbolKind::Section
    &&& out.name == encode_utf8(name)
    &&& out.section == Some(k)
    &&& out.value == 0
    &&& out.size == 0
    &&& !out.linkage
    &&& !out.weak
}

/// Whether some symbol of the object has the number.
pub open spec fn is_number(numbers: Seq<nat>, m: int) -> bool {
    exists|i: int| 0 <= i < numbers.len() && #[trigger] numbers[i] == m
}

/// Whether the first `n` symbols are written, each under its number, and no others:
/// those that stand for a section share one number for it.
spec fn symbols_added(obj: ObjView, st: CoffState, export_all: bool, n: nat) -> bool {
    &&& st.numbers.len() == n
    &&& st.sections.len() == obj.sections.len()
    &&& forall|i: int| 0 <= i < n ==> #[trigger] st.numbers[i] < st.symbols.len()
    &&& forall|i: int|
        0 <= i < n && (#[trigger] obj.symbols[i]).kind != ObjSymbolKind::Section
            ==> is_symbol_written(
            obj.symbols[i],
            st.symbols[st.numbers[i] as int],
            obj.sections.len(),
            export_all,
        )
    &&& forall|i: int|
        0 <= i < n && (#[trigger] obj.symbols[i]).kind == ObjSymbolKind::Section ==> {
            let k = obj.symbols[i].section->Some_0;
            &&& k < obj.sections.len()
            &&& st.sections[k as int].symbol == Some(st.numbers[i])
        }
    &&& forall|k: int|
        0 <= k < st.sections.len() ==> {
            let out = #[trigger] st.sections[k];
            &&& is_bare(obj.sections[k], out)
            &&& out.relocations.len() == 0
            &&& out.symbol matches Some(m) ==> m < st.symbols.len() && is_section_symbol(
                st.symbols[m as int],
                obj.sections[k].name,
                k as nat,
            )
        }
    &&& forall|i: int, j: int|
        0 <= i < j < n && #[trigger] st.numbers[i] == #[trigger] st.numbers[j] ==> obj.symbols[i].kind
            == ObjSymbolKind::Section && obj.symbols[j].kind == ObjSymbolKind::Section
            && obj.symbols[i].section == obj.symbols[j].section
    &&& forall|m: int| 0 <= m < st.symbols.len() ==> #[trigger] is_number(st.numbers, m)
}

#[verifier::rlimit(40)]
proof fn lemma_symbols_added(obj: ObjView, export_all: bool, n: nat)
    requires
        coff_ready(obj),
        n <= obj.symbols.len(),
    ensures
        symbols_added(obj, with_symbols(obj, export_all, n), export_all, n),
    decreases n,
{
    if n == 0 {
        let st = with_symbols(obj, export_all, 0);
        assert forall|k: int| 0 <= k < st.sections.len() implies is_bare(
            obj.sections[k],
            #[trigger] st.sections[k],
        ) && st.sections[k].relocations.len() == 0 && st.sections[k].symbol is None by {
            assert(st.sections[k] == bare_section(obj.sections[k]));
        }
    } else {
        lemma_symbols_added(obj, export_all, (n - 1) as nat);
        let st = with_symbols(obj, export_all, (n - 1) as nat);
        let sym = obj.symbols[n - 1];
        let next = with_symbol(st, sym, export_all);
        assert(symbol_ready(obj, sym));
        let at = next.numbers[n - 1];
        if sym.kind != ObjSymbolKind::Section {
            let text = encode_utf8(sym.name);
            let out = next.symbols[at as int];
            if (sym.kind == ObjSymbolKind::Function || sym.kind == ObjSymbolKind::Object)
                && text.len() > 0 {
                assert(out.name.skip(1) =~= text);
            }
            assert(is_symbol_written(sym, out, obj.sections.len(), export_all));
        }
        assert forall|m: int| 0 <= m < st.symbols.len() implies #[trigger] next.symbols[m]
            == st.symbols[m] by {}
        assert forall|i: int| 0 <= i < n - 1 implies #[trigger] next.numbers[i]
            == st.numbers[i] by {}
        assert forall|k: int| 0 <= k < next.sections.len() implies ({
            let out = #[trigger] next.sections[k];
            &&& is_bare(obj.sections[k], out)
            &&& out.relocations.len() == 0
            &&& out.symbol matches Some(m) ==> m < next.symbols.len() && is_section_symbol(
                next.symbols[m as int],
                obj.sections[k].name,
                k as nat,
            )
        }) by {
            let was = st.sections[k];
            assert(is_bare(obj.sections[k], was));
        }
        assert forall|i: int|
            0 <= i < n && (#[trigger] obj.symbols[i]).kind == ObjSymbolKind::Section implies ({
            let k = obj.symbols[i].section->Some_0;
            &&& k < obj.sections.len()
            &&& next.sections[k as int].symbol == Some(next.numbers[i])
        }) by {
            if i < n - 1 {
                let k = obj.symbols[i].section->Some_0;
                assert(st.sections[k as int].symbol == Some(st.numbers[i]));
                assert(next.numbers[i] == st.numbers[i]);
            }
        }
        assert forall|i: int, j: int|
            0 <= i < j < n && #[trigger] next.numbers[i]
                == #[trigger] next.numbers[j] implies obj.symbols[i].kind
            == ObjSymbolKind::Section && obj.symbols[j].kind == ObjSymbolKind::Section
            && obj.symbols[i].section == obj.symbols[j].section by {
            assert(next.numbers[i] == st.numbers[i]);
            assert(st.numbers[i] < st.symbols.len());
            if j < n - 1 {
                assert(next.numbers[j] == st.numbers[j]);
            } else {
                let k = sym.section->Some_0;
                assert(sym.kind == ObjSymbolKind::Section);
                assert(st.sections[k as int].symbol == Some(at));
                assert(is_section_symbol(
                    st.symbols[at as int],
                    obj.sections[k as int].name,
                    k as nat,
                ));
                if obj.symbols[i].kind != ObjSymbolKind::Section {
                    assert(is_symbol_written(
                        obj.symbols[i],
                        st.symbols[st.numbers[i] as int],
                        obj.sections.len(),
                        export_all,
                    ));
                } else {
                    let q = obj.symbols[i].section->Some_0;
                    assert(st.sections[q as int].symbol == Some(st.numbers[i]));
                    assert(is_section_symbol(
                        st.symbols[at as int],
                        obj.sections[q as int].name,
                        q as nat,
                    ));
                    assert(symbol_ready(obj, obj.symbols[i]));
                }
            }
        }
        assert forall|m: int| 0 <= m < next.symbols.len() implies #[trigger] is_number(
            next.numbers,
            m,
        ) by {
            if m < st.symbols.len() {
                assert(is_number(st.numbers, m));
                let i = choose|i: int| 0 <= i < st.numbers.len() && #[trigger] st.numbers[i] == m;
                assert(next.numbers[i] == m);
            } else {
                assert(next.numbers[n - 1] == m);
            }
        }
        assert forall|i: int|
            0 <= i < n && (#[trigger] obj.symbols[i]).kind
                != ObjSymbolKind::Section implies is_symbol_written(
            obj.symbols[i],
            next.symbols[next.numbers[i] as int],
            obj.sections.len(),
            export_all,
        ) by {
            if i < n - 1 {
                assert(next.numbers[i] == st.numbers[i]);
                assert(next.symbols[st.numbers[i] as int] == st.symbols[st.numbers[i] as int]);
            }
        }
    }
}

/// Whether a relocation of one of the first `n` sections does not fit.
pub open spec fn any_outside(obj: ObjView, n: nat) -> bool {
    exists|i: int, k: int|
        0 <= i < n && 0 <= k < obj.sections[i].relocations.len() && #[trigger] is_outside(
            obj.sections[i],
            k,
        )
}

proof fn lemma_all_relocs(obj: ObjView, export_all: bool, n: nat)
    requires
        coff_ready(obj),
        n <= obj.sections.len(),
    ensures
        ({
            let base = with_symbols(obj, export_all, obj.symbols.len());
            let r = with_relocs(obj, export_all, n);
            &&& r matches Ok(st) ==> {
                &&& st.symbols == base.symbols
                &&& st.numbers == base.numbers
                &&& st.sections.len() == base.sections.len()
                &&& forall|i: int|
                    0 <= i < n ==> relocs_added(
                        obj.sections[i],
                        obj.sections[i].relocations.len(),
                        base.sections[i],
                        #[trigger] st.sections[i],
                        base.numbers,
                    )
                &&& forall|i: int|
                    n <= i < st.sections.len() ==> #[trigger] st.sections[i] == base.sections[i]
            }
            &&& r is Err <==> any_outside(obj, n)
            &&& r matches Err(e) ==> e == CoffWriteError::RelocationOutside
        }),
    decreases n,
{
    if n > 0 {
        lemma_all_relocs(obj, export_all, (n - 1) as nat);
        lemma_symbols_added(obj, export_all, obj.symbols.len());
        let base = with_symbols(obj, export_all, obj.symbols.len());
        let i = n - 1;
        let s = obj.sections[i];
        match with_relocs(obj, export_all, (n - 1) as nat) {
            Ok(below) => {
                assert(section_ready(obj, s));
                assert(below.sections[i] == base.sections[i]);
                assert(is_bare(s, base.sections[i]));
                if s.kind != ObjSectionKind::Bss {
                    lemma_cleared_len(s, s.relocations.len());
                }
                lemma_section_relocs(obj, below, i, s.relocations.len());
                let r = with_section_relocs(below, s, i, s.relocations.len());
                if r is Err {
                    let k = choose|k: int|
                        0 <= k < s.relocations.len() && #[trigger] is_outside(s, k);
                    assert(is_outside(obj.sections[i], k));
                } else {
                    let st = r->Ok_0;
                    assert forall|m: int| 0 <= m < n implies relocs_added(
                        obj.sections[m],
                        obj.sections[m].relocations.len(),
                        base.sections[m],
                        #[trigger] st.sections[m],
                        base.numbers,
                    ) by {
                        if m < i {
                            assert(st.sections[m] == below.sections[m]);
                        }
                    }
                    if any_outside(obj, n) {
                        let (m, k) = choose|m: int, k: int|
                            0 <= m < n && 0 <= k < obj.sections[m].relocations.len()
                                && #[trigger] is_outside(obj.sections[m], k);
                        if m < i {
                            assert(any_outside(obj, (n - 1) as nat));
                        }
                    }
                }
            },
            Err(e) => {
                let (m, k) = choose|m: int, k: int|
                    0 <= m < n - 1 && 0 <= k < obj.sections[m].relocations.len()
                        && #[trigger] is_outside(obj.sections[m], k);
                assert(is_outside(obj.sections[m], k));
            },
        }
    }
}

proof fn lemma_cleared_len(s: SectionView, n: nat)
    ensures
        cleared(s, n).len() == s.data.len(),
    decreases n,
{
    if n > 0 {
        lemma_cleared_len(s, (n - 1) as nat);
    }
}

/// Whether no other relocation has a byte of the field of relocation `k`.
pub open spec fn is_alone(s: SectionView, k: int) -> bool {
    forall|m: int|
        0 <= m < s.relocations.len() && m != k ==> #[trigger] field_at(s, m) + 4 <= field_at(s, k)
            || field_at(s, k) + 4 <= field_at(s, m)
}

/// Whether `out` is the section of the object in the file: with its name, kind, size and
/// alignment, with its bytes but for the fields of relocations, with their values in the
/// fields, and with the relocations that COFF has.
pub open spec fn is_section_written(s: SectionView, out: OutSection, numbers: Seq<nat>) -> bool {
    &&& out.name == encode_utf8(s.name)
    &&& out.kind == s.kind
    &&& out.align == (if s.align == 0 { 1 } else { s.align })
    &&& s.kind == ObjSectionKind::Bss ==> out.data.len() == 0 && out.size == s.size
    &&& s.kind != ObjSectionKind::Bss ==> out.data.len() == s.data.len() && out.size
        == s.data.len() as u64
    &&& forall|j: int|
        0 <= j < out.data.len() && (forall|k: int|
            0 <= k < s.relocations.len() ==> !#[trigger] in_field(s, k, j)) ==> #[trigger] out.data[j]
            == s.data[j]
    &&& forall|k: int|
        0 <= k < s.relocations.len() && #[trigger] is_alone(s, k) && 0 <= field_at(s, k)
            && field_at(s, k) + 4 <= out.data.len() ==> number_le(out.data, field_at(s, k), 4)
            == field_value(s, k) % 0x1_0000_0000
    &&& out.relocations.len() == carried(s, s.relocations.len())
    &&& forall|k: int|
        0 <= k < s.relocations.len() && #[trigger] is_carried(s, k) ==> 0 <= carried(s, k as nat)
            < out.relocations.len() && is_reloc_of(
            s,
            k,
            out.relocations[carried(s, k as nat)],
            numbers,
        )
}

proof fn lemma_section_written(s: SectionView, a: OutSection, b: OutSection, numbers: Seq<nat>)
    requires
        is_bare(s, a),
        relocs_added(s, s.relocations.len(), a, b, numbers),
        forall|k: int|
            0 <= k < s.relocations.len() && field_value(s, k) != 0 ==> 0 <= #[trigger] field_at(
                s,
                k,
            ) && field_at(s, k) + 4 <= s.data.len(),
    ensures
        is_section_written(s, b, numbers),
{
    let n = s.relocations.len();
    lemma_cleared_len(s, n);
    assert forall|j: int|
        0 <= j < b.data.len() && (forall|k: int|
            0 <= k < n ==> !#[trigger] in_field(s, k, j)) implies #[trigger] b.data[j]
        == s.data[j] by {
        lemma_cleared(s, n, j);
        if relocated_byte(s, n, j) {
            let k = choose|k: int|
                0 <= k < n && (#[trigger] s.relocations[k]).0 - s.address <= j
                    < s.relocations[k].0 - s.address + 4 && s.relocations[k].0 - s.address + 4
                    <= s.data.len();
            assert(in_field(s, k, j));
        }
        assert(b.data[j] == a.data[j]);
    }
    assert forall|k: int|
        0 <= k < n && #[trigger] is_alone(s, k) && 0 <= field_at(s, k) && field_at(s, k) + 4
            <= b.data.len() implies number_le(b.data, field_at(s, k), 4) == field_value(s, k)
        % 0x1_0000_0000 by {
        let at = field_at(s, k);
        let w = (field_value(s, k) % 0x1_0000_0000) as u32;
        lemma_words_written(w, 0, 0);
        assert forall|j: int| at <= j < at + 4 implies #[trigger] b.data[j] == le32(w)[j
            - at] by {
            assert(in_field(s, k, j));
            assert forall|m: int| 0 <= m < n && m != k implies !#[trigger] in_field(s, m, j) by {
                assert(field_at(s, m) + 4 <= field_at(s, k) || field_at(s, k) + 4 <= field_at(
                    s,
                    m,
                ));
            }
            if field_value(s, k) == 0 {
                lemma_cleared(s, n, j);
                assert(s.relocations[k].0 - s.address <= j);
                assert(relocated_byte(s, n, j));
                assert(b.data[j] == a.data[j]);
                assert(w == 0);
                assert(0u32 / 0x100_0000 == 0 && 0u32 / 0x1_0000 % 0x100 == 0 && 0u32 / 0x100
                    % 0x100 == 0);
                assert(le32(w)[j - at] == 0);
            }
        }
        lemma_words(b.data, at);
        lemma_words(le32(w), 0);
        assert(le_u32(b.data, at) == le_u32(le32(w), 0)) by {
            assert(b.data[at] == le32(w)[0]);
            assert(b.data[at + 1] == le32(w)[1]);
            assert(b.data[at + 2] == le32(w)[2]);
            assert(b.data[at + 3] == le32(w)[3]);
        }
    }
}

/// Whether the sections and symbols that go into the file are those of the object.
pub open spec fn is_all_written(obj: ObjView, st: CoffState, export_all: bool) -> bool {
    &&& st.sections.len() == obj.sections.len()
    &&& forall|i: int|
        0 <= i < obj.sections.len() ==> is_section_written(
            obj.sections[i],
            #[trigger] st.sections[i],
            st.numbers,
        )
    &&& st.numbers.len() == obj.symbols.len()
    &&& forall|i: int| 0 <= i < st.numbers.len() ==> #[trigger] st.numbers[i] < st.symbols.len()
    &&& forall|i: int|
        0 <= i < obj.symbols.len() && (#[trigger] obj.symbols[i]).kind != ObjSymbolKind::Section
            ==> is_symbol_written(
            obj.symbols[i],
            st.symbols[st.numbers[i] as int],
            obj.sections.len(),
            export_all,
        )
    &&& forall|i: int|
        0 <= i < obj.symbols.len() && (#[trigger] obj.symbols[i]).kind == ObjSymbolKind::Section
            ==> {
            let k = obj.symbols[i].section->Some_0;
            &&& k < obj.sections.len()
            &&& is_section_symbol(
                st.symbols[st.numbers[i] as int],
                obj.sections[k as int].name,
                k as nat,
            )
        }
    &&& forall|i: int, j: int|
        0 <= i < j < st.numbers.len() && #[trigger] st.numbers[i] == #[trigger] st.numbers[j]
            ==> obj.symbols[i].kind == ObjSymbolKind::Section && obj.symbols[j].kind
            == ObjSymbolKind::Section && obj.symbols[i].section == obj.symbols[j].section
    &&& forall|m: int| 0 <= m < st.symbols.len() ==> #[trigger] is_number(st.numbers, m)
}

/// Whether COFF cannot express something of the object: an alignment above 8192, or a
/// symbol of unknown kind.
pub open spec fn is_inexpressible(obj: ObjView) -> bool {
    ||| exists|i: int| 0 <= i < obj.sections.len() && (#[trigger] obj.sections[i]).align > 8192
    ||| exists|i: int|
        0 <= i < obj.symbols.len() && (#[trigger] obj.symbols[i]).kind == ObjSymbolKind::Unknown
}

/// A COFF file is written of every object whose relocations fit and that COFF can
/// express; it is the image of the object's own sections and symbols.
pub proof fn lemma_coff_written(obj: ObjView, export_all: bool)
    requires
        coff_ready(obj),
    ensures
        ({
            let r = coff_file(obj, export_all);
            let outside = any_outside(obj, obj.sections.len());
            &&& outside ==> r == Err::<Seq<u8>, _>(CoffWriteError::RelocationOutside)
            &&& !outside && is_inexpressible(obj) ==> r == Err::<Seq<u8>, _>(
                CoffWriteError::Unsupported,
            )
            &&& !outside && !is_inexpressible(obj) ==> exists|st: CoffState| #[trigger]
                is_all_written(obj, st, export_all) && r == Ok::<_, CoffWriteError>(
                    coff_image(st.sections, st.symbols),
                )
        }),
{
    let n = obj.sections.len();
    let base = with_symbols(obj, export_all, obj.symbols.len());
    lemma_all_relocs(obj, export_all, n);
    lemma_symbols_added(obj, export_all, obj.symbols.len());
    if let Ok(st) = with_relocs(obj, export_all, n) {
        assert forall|i: int| 0 <= i < n implies is_section_written(
            obj.sections[i],
            #[trigger] st.sections[i],
            st.numbers,
        ) && st.sections[i].align == base.sections[i].align by {
            let s = obj.sections[i];
            assert(section_ready(obj, s));
            assert forall|k: int|
                0 <= k < s.relocations.len() && field_value(s, k) != 0 implies 0
                <= #[trigger] field_at(s, k) && field_at(s, k) + 4 <= s.data.len() by {
                assert(reloc_ready(obj, s, s.relocations[k]));
                assert(!is_outside(obj.sections[i], k));
            }
            assert(is_bare(s, base.sections[i]));
            lemma_section_written(s, base.sections[i], st.sections[i], st.numbers);
        }
        assert forall|i: int|
            0 <= i < obj.symbols.len() && (#[trigger] obj.symbols[i]).kind
                == ObjSymbolKind::Section implies ({
            let k = obj.symbols[i].section->Some_0;
            &&& k < obj.sections.len()
            &&& is_section_symbol(
                st.symbols[st.numbers[i] as int],
                obj.sections[k as int].name,
                k as nat,
            )
        }) by {
            let k = obj.symbols[i].section->Some_0;
            assert(base.sections[k as int].symbol == Some(base.numbers[i]));
        }
        assert(is_all_written(obj, st, export_all));
        if is_inexpressible(obj) {
            if exists|i: int| 0 <= i < n && (#[trigger] obj.sections[i]).align > 8192 {
                let i = choose|i: int| 0 <= i < n && (#[trigger] obj.sections[i]).align > 8192;
                assert(st.sections[i].align > 8192);
            } else {
                let i = choose|i: int|
                    0 <= i < obj.symbols.len() && (#[trigger] obj.symbols[i]).kind
                        == ObjSymbolKind::Unknown;
                assert(st.numbers[i] < st.symbols.len());
                assert(st.symbols[st.numbers[i] as int].kind == ObjSymbolKind::Unknown);
            }
            assert(!image_known(st.sections, st.symbols));
        } else {
            assert forall|i: int| 0 <= i < st.sections.len() implies
                crate::util::coff_write::align_known((#[trigger] st.sections[i]).align) by {
                assert(section_ready(obj, obj.sections[i]));
                assert(obj.sections[i].align <= 8192);
            }
            assert forall|m: int| 0 <= m < st.symbols.len() implies (#[trigger] st.symbols[m]).kind
                != ObjSymbolKind::Unknown by {
                assert(is_number(st.numbers, m));
                let i = choose|i: int| 0 <= i < st.numbers.len() && #[trigger] st.numbers[i] == m;
                assert(obj.symbols[i].kind != ObjSymbolKind::Unknown);
            }
        }
    }
}

/// Whether a name of the given bytes can be stored: a long one has no zero byte.
pub open spec fn is_storable(name: Seq<u8>, extra: int) -> bool {
    name.len() + extra <= 8 || forall|i: int| 0 <= i < name.len() ==> #[trigger] name[i] != 0
}

/// Whether relocation `k` of a section can be handed over.
pub open spec fn is_reloc_ready(obj: ObjView, s: SectionView, k: int) -> bool {
    &&& s.kind != ObjSectionKind::Bss || is_carried(s, k) ==> s.address <= s.relocations[k].0
    &&& is_carried(s, k) ==> {
        &&& s.relocations[k].1.target_symbol < obj.symbols.len()
        &&& field_value(s, k) <= i64::MAX
        &&& s.kind == ObjSectionKind::Bss ==> field_value(s, k) == 0
    }
}

/// Whether a section can be handed over.
pub open spec fn is_section_ready(obj: ObjView, s: SectionView) -> bool {
    &&& s.align == 0 || s.align & ((s.align - 1) as u64) == 0
    &&& is_storable(encode_utf8(s.name), 0)
    &&& s.relocations.len() < u32::MAX
    &&& forall|k: int| 0 <= k < s.relocations.len() ==> #[trigger] is_reloc_ready(obj, s, k)
}

/// Whether a symbol can be handed over: one that stands for a section names one, and any
/// other has a name that can be stored.
pub open spec fn is_symbol_ready(obj: ObjView, x: SymbolView) -> bool {
    let named = x.kind == ObjSymbolKind::Function || x.kind == ObjSymbolKind::Object;
    let text = encode_utf8(x.name);
    &&& x.kind == ObjSymbolKind::Section ==> x.section is Some && x.section->Some_0
        < obj.sections.len()
    &&& x.kind != ObjSymbolKind::Section ==> is_storable(
        text,
        if named && text.len() > 0 {
            1
        } else {
            0
        },
    )
}

proof fn lemma_storable(name: Seq<u8>, stored: Seq<u8>, extra: int)
    requires
        extra == 0 ==> stored == name,
        extra == 1 ==> stored == seq![0x5Fu8] + name,
        extra == 0 || extra == 1,
    ensures
        is_storable(name, extra) <==> crate::util::coff_write::name_fits(stored),
{
    if stored.contains(0) {
        let i = choose|i: int| 0 <= i < stored.len() && stored[i] == 0;
        if extra == 1 {
            assert(stored[i] == name[i - 1]);
        } else {
            assert(name[i] == 0);
        }
    } else {
        assert forall|i: int| 0 <= i < name.len() implies #[trigger] name[i] != 0 by {
            assert(stored[i + extra] == name[i]);
        }
    }
}

/// An object can be handed to the writer where all of its sections and symbols can, and
/// they are not too many.
pub proof fn lemma_coff_ready(obj: ObjView)
    ensures
        coff_ready(obj) <==> {
            &&& obj.sections.len() <= 0xFFFF
            &&& obj.symbols.len() <= 0x7FFF_FFFF
            &&& forall|i: int|
                0 <= i < obj.sections.len() ==> is_section_ready(obj, #[trigger] obj.sections[i])
            &&& forall|i: int|
                0 <= i < obj.symbols.len() ==> is_symbol_ready(obj, #[trigger] obj.symbols[i])
        },
{
    assert forall|i: int| 0 <= i < obj.sections.len() implies section_ready(
        obj,
        #[trigger] obj.sections[i],
    ) == is_section_ready(obj, obj.sections[i]) by {
        let s = obj.sections[i];
        lemma_storable(encode_utf8(s.name), encode_utf8(s.name), 0);
        let a = s.align;
        assert(1u64 & 0u64 == 0) by (bit_vector);
        assert forall|k: int| 0 <= k < s.relocations.len() implies #[trigger] is_reloc_ready(
            obj,
            s,
            k,
        ) == reloc_ready(obj, s, s.relocations[k]) by {}
        if section_ready(obj, s) {
            assert forall|k: int| 0 <= k < s.relocations.len() implies #[trigger] is_reloc_ready(
                obj,
                s,
                k,
            ) by {
                assert(reloc_ready(obj, s, s.relocations[k]));
            }
        }
        if is_section_ready(obj, s) {
            assert forall|k: int| 0 <= k < s.relocations.len() implies reloc_ready(
                obj,
                s,
                #[trigger] s.relocations[k],
            ) by {
                assert(is_reloc_ready(obj, s, k));
            }
        }
    }
    assert forall|i: int| 0 <= i < obj.symbols.len() implies symbol_ready(
        obj,
        #[trigger] obj.symbols[i],
    ) == is_symbol_ready(obj, obj.symbols[i]) by {
        let x = obj.symbols[i];
        let text = encode_utf8(x.name);
        let named = x.kind == ObjSymbolKind::Function || x.kind == ObjSymbolKind::Object;
        lemma_storable(
            text,
            crate::util::coff_write::stored_name(text, x.kind),
            if named && text.len() > 0 {
                1
            } else {
                0
            },
        );
    }
}

} // verus!
