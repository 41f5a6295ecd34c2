//! What the object of a COFF or PE file holds of the file.
use vstd::prelude::*;

use crate::demangle::demangled;
use crate::obj::{
    ObjArchitecture, ObjKind, ObjSectionKind, ObjSymbolKind, ObjView, SectionIndex, SectionView,
    SymbolView,
};
use crate::util::coff_read::{
    CoffReadError, FileArchitecture, FileKind, FileSectionKind, FileSymbolKind, FileView,
    address_overflows, addresses_overflow, coff_object, file_header, file_object,
    file_section_kinds, file_sections, file_symbol_kinds, file_symbol_offsets, file_symbols,
    last_named, object_section, object_sections, object_symbols, symbol_address,
};

verus! {

/// Whether section `i` of the file has bytes to load, or zeros to provide.
pub open spec fn is_taken(f: FileView, i: int) -> bool {
    f.sections[i].size != 0 && i < f.section_kinds.len() && f.section_kinds[i]
        != FileSectionKind::Other
}

/// How many of the first `n` sections are taken over.
pub open spec fn taken(f: FileView, n: nat) -> int
    decreases n,
{
    if n == 0 {
        0
    } else {
        taken(f, (n - 1) as nat) + (if is_taken(f, n - 1) {
            1int
        } else {
            0
        })
    }
}

/// Whether a kind of section in the object is that of the file.
pub open spec fn same_section_kind(kind: ObjSectionKind, from: FileSectionKind) -> bool {
    &&& kind == ObjSectionKind::Code <==> from == FileSectionKind::Text
    &&& kind == ObjSectionKind::Data <==> from == FileSectionKind::Data || from
        == FileSectionKind::OtherString
    &&& kind == ObjSectionKind::ReadOnlyData <==> from == FileSectionKind::ReadOnlyData
    &&& kind == ObjSectionKind::Bss <==> from == FileSectionKind::UninitializedData
}

/// Whether `s` is section `i` of the file.
pub open spec fn is_section_of(f: FileView, i: int, s: SectionView) -> bool {
    let from = f.sections[i];
    &&& from.name == Some(s.name)
    &&& same_section_kind(s.kind, f.section_kinds[i])
    &&& s.address == from.address
    &&& s.size == from.size
    &&& s.kind == ObjSectionKind::Bss ==> s.data.len() == 0
    &&& s.kind != ObjSectionKind::Bss ==> from.data == Some(s.data)
    &&& s.align >= 1
    &&& from.align != 0 ==> s.align == from.align
    &&& from.align == 0 ==> s.align == 1
    &&& s.elf_index == from.index
    &&& s.relocations.len() == 0
    &&& s.virtual_address is None
    &&& from.offset is Some ==> s.file_offset == from.offset->Some_0
    &&& from.offset is None ==> s.file_offset == 0
    &&& s.section_known
    &&& s.splits.len() == 0
}

/// Whether section `i` of the file cannot be read.
pub open spec fn is_bad(f: FileView, i: int) -> bool {
    &&& f.sections[i].size != 0
    &&& {
        ||| f.sections[i].name is None
        ||| is_taken(f, i) && f.section_kinds[i] != FileSectionKind::UninitializedData
            && f.sections[i].data is None
    }
}

proof fn lemma_sections_from(f: FileView, n: nat)
    requires
        n <= f.sections.len() <= usize::MAX,
    ensures
        taken(f, n) >= 0,
        taken(f, n) <= n,
        object_sections(f, n) is Ok <==> forall|i: int| 0 <= i < n ==> !#[trigger] is_bad(f, i),
        object_sections(f, n) matches Ok(l) ==> {
            &&& l.sections.len() == taken(f, n)
            &&& l.indexes.len() == n + 1
            &&& l.indexes[0] is None
            &&& forall|i: int|
                0 <= i < n && #[trigger] is_taken(f, i) ==> {
                    &&& 0 <= taken(f, i as nat) < l.sections.len()
                    &&& is_section_of(f, i, l.sections[taken(f, i as nat)])
                    &&& l.indexes[i + 1] == Some(taken(f, i as nat) as usize)
                }
            &&& forall|i: int|
                0 <= i < n && !#[trigger] is_taken(f, i) ==> l.indexes[i + 1] is None
        },
        object_sections(f, n) matches Err(e) ==> exists|i: int|
            0 <= i < n && #[trigger] is_bad(f, i) && (forall|j: int|
                0 <= j < i ==> !#[trigger] is_bad(f, j)) && e == (if f.sections[i].name is None {
                CoffReadError::SectionName
            } else {
                CoffReadError::SectionData
            }),
    decreases n,
{
    if n > 0 {
        lemma_sections_from(f, (n - 1) as nat);
        let i = n - 1;
        assert(is_bad(f, i) <==> object_section(f, i) is Err);
        match object_sections(f, (n - 1) as nat) {
            Ok(below) => {
                match object_section(f, i) {
                    Ok(Some(s)) => {
                        assert(is_taken(f, i));
                        assert(is_section_of(f, i, s));
                        let l = object_sections(f, n)->Ok_0;
                        assert forall|j: int| 0 <= j < n && #[trigger] is_taken(f, j) implies {
                            &&& 0 <= taken(f, j as nat) < l.sections.len()
                            &&& is_section_of(f, j, l.sections[taken(f, j as nat)])
                            &&& l.indexes[j + 1] == Some(taken(f, j as nat) as usize)
                        } by {
                            if j < i {
                                let m = taken(f, j as nat);
                                assert(l.sections[m] == below.sections[m]);
                            }
                        }
                    },
                    Ok(None) => {
                        assert(!is_taken(f, i));
                    },
                    Err(e) => {
                        assert(is_bad(f, i));
                    },
                }
            },
            Err(e) => {
                let k = choose|k: int|
                    0 <= k < n - 1 && #[trigger] is_bad(f, k) && (forall|j: int|
                        0 <= j < k ==> !#[trigger] is_bad(f, j)) && e == (if f.sections[k].name
                        is None {
                        CoffReadError::SectionName
                    } else {
                        CoffReadError::SectionData
                    });
                assert(is_bad(f, k));
            },
        }
    }
}

/// The object holds the sections of the file that are not empty and of a kind that is
/// loaded, in their order, each with its name, kind, place and bytes.
pub proof fn lemma_read_sections(f: FileView, name: Seq<char>)
    requires
        f.sections.len() <= usize::MAX,
    ensures
        file_object(f, name) matches Ok(o) ==> {
            &&& o.sections.len() == taken(f, f.sections.len())
            &&& forall|i: int|
                0 <= i < f.sections.len() && #[trigger] is_taken(f, i) ==> {
                    &&& 0 <= taken(f, i as nat) < o.sections.len()
                    &&& is_section_of(f, i, o.sections[taken(f, i as nat)])
                }
        },
{
    lemma_sections_from(f, f.sections.len());
}

/// Whether symbol `i` of the file becomes a symbol of the object: it has a name and is
/// code, data, a label or of unknown kind.
pub open spec fn is_kept(f: FileView, i: int) -> bool {
    &&& f.symbols[i].name matches Some(s) && s.len() != 0
    &&& i < f.symbol_kinds.len()
    &&& f.symbol_kinds[i] != FileSymbolKind::Other
}

/// How many of the first `n` symbols are kept.
pub open spec fn kept(f: FileView, n: nat) -> int
    decreases n,
{
    if n == 0 {
        0
    } else {
        kept(f, (n - 1) as nat) + (if is_kept(f, n - 1) {
            1int
        } else {
            0
        })
    }
}

/// Whether a kind of symbol in the object is that of the file.
pub open spec fn same_symbol_kind(kind: ObjSymbolKind, from: FileSymbolKind) -> bool {
    &&& kind == ObjSymbolKind::Function <==> from == FileSymbolKind::Text
    &&& kind == ObjSymbolKind::Object <==> from == FileSymbolKind::Data
    &&& kind == ObjSymbolKind::Unknown <==> from == FileSymbolKind::Label || from
        == FileSymbolKind::Unknown
}

/// Where symbol `i` of the file stands: behind the address that the file is loaded at.
pub open spec fn address_of(f: FileView, i: int) -> int {
    if i < f.symbol_offsets.len() && f.symbol_offsets[i] is Some {
        f.header.base + f.symbol_offsets[i]->Some_0
    } else {
        0
    }
}

/// Whether `section` is the section of the object for the section number of the file.
pub open spec fn is_place(
    f: FileView,
    number: Option<usize>,
    section: Option<SectionIndex>,
) -> bool {
    let there = number is Some && 1 <= number->Some_0 <= f.sections.len() && is_taken(
        f,
        number->Some_0 - 1,
    );
    &&& there ==> section is Some && section->Some_0 == taken(f, (number->Some_0 - 1) as nat)
    &&& !there ==> section is None
}

/// Whether `s` is symbol `i` of the file.
pub open spec fn is_symbol_of(f: FileView, i: int, s: SymbolView) -> bool {
    let from = f.symbols[i];
    &&& from.name == Some(s.name)
    &&& s.demangled_name == demangled(s.name)
    &&& s.address == address_of(f, i)
    &&& is_place(f, from.section, s.section)
    &&& s.size == from.size
    &&& s.size_known <==> from.size != 0
    &&& same_symbol_kind(s.kind, f.symbol_kinds[i])
    &&& s.flags.global == from.global
    &&& s.flags.local == from.local
    &&& !s.flags.weak && !s.flags.exported && !s.flags.no_export && !s.flags.stripped
    &&& s.align is None
    &&& s.data_kind.0 == 0
    &&& s.name_hash is None
    &&& s.demangled_name_hash is None
}

proof fn lemma_symbols_from(f: FileView, indexes: Seq<Option<SectionIndex>>, n: nat)
    requires
        f.sections.len() < usize::MAX,
        n <= f.symbols.len(),
        object_sections(f, f.sections.len()) matches Ok(l) && l.indexes == indexes,
        !addresses_overflow(f),
    ensures
        kept(f, n) >= 0,
        object_symbols(f, indexes, n).len() == kept(f, n),
        forall|i: int|
            0 <= i < n && #[trigger] is_kept(f, i) ==> {
                &&& 0 <= kept(f, i as nat) < kept(f, n)
                &&& is_symbol_of(f, i, object_symbols(f, indexes, n)[kept(f, i as nat)])
            },
    decreases n,
{
    if n > 0 {
        lemma_symbols_from(f, indexes, (n - 1) as nat);
        lemma_sections_from(f, f.sections.len());
        let below = object_symbols(f, indexes, (n - 1) as nat);
        let all = object_symbols(f, indexes, n);
        let i = n - 1;
        if is_kept(f, i) {
            assert(!address_overflows(f, i));
            let s = all[kept(f, i as nat)];
            assert(s.address == address_of(f, i));
            let number = f.symbols[i].section;
            assert(is_place(f, number, s.section)) by {
                if number is Some && 1 <= number->Some_0 <= f.sections.len() {
                    let k = number->Some_0 - 1;
                    lemma_taken_grows(f, k as nat, f.sections.len());
                    if is_taken(f, k) {
                        assert(indexes[k + 1] == Some(taken(f, k as nat) as usize));
                    } else {
                        assert(indexes[k + 1] is None);
                    }
                }
            }
            assert(is_symbol_of(f, i, s));
        }
        assert forall|j: int| 0 <= j < n && #[trigger] is_kept(f, j) implies {
            &&& 0 <= kept(f, j as nat) < kept(f, n)
            &&& is_symbol_of(f, j, all[kept(f, j as nat)])
        } by {
            if j < i {
                let m = kept(f, j as nat);
                assert(all[m] == below[m]);
            }
        }
    }
}

proof fn lemma_taken_grows(f: FileView, a: nat, b: nat)
    requires
        a <= b,
    ensures
        0 <= taken(f, a) <= taken(f, b) <= b,
    decreases b,
{
    if a < b {
        lemma_taken_grows(f, a, (b - 1) as nat);
    } else if b > 0 {
        lemma_taken_grows(f, (b - 1) as nat, (b - 1) as nat);
    }
}

/// The object holds the symbols of the file that have a name and a kind of their own, in
/// their order, each with its name, address, section, size, kind and scope.
pub proof fn lemma_read_symbols(f: FileView, name: Seq<char>)
    requires
        f.sections.len() < usize::MAX,
    ensures
        file_object(f, name) matches Ok(o) ==> {
            &&& o.symbols.len() == kept(f, f.symbols.len())
            &&& forall|i: int|
                0 <= i < f.symbols.len() && #[trigger] is_kept(f, i) ==> {
                    &&& 0 <= kept(f, i as nat) < o.symbols.len()
                    &&& is_symbol_of(f, i, o.symbols[kept(f, i as nat)])
                }
        },
{
    if let Ok(o) = file_object(f, name) {
        let l = object_sections(f, f.sections.len())->Ok_0;
        lemma_symbols_from(f, l.indexes, f.symbols.len());
    }
}

/// Whether `at` is the 32-bit address of the last symbol of the file with the name, if
/// there is one.
pub open spec fn is_last_named(f: FileView, name: Seq<char>, at: Option<u32>) -> bool {
    &&& at is None ==> forall|i: int|
        0 <= i < f.symbols.len() ==> (#[trigger] f.symbols[i]).name != Some(name)
    &&& at matches Some(a) ==> exists|i: int|
        0 <= i < f.symbols.len() && (#[trigger] f.symbols[i]).name == Some(name) && a
            == address_of(f, i) % 0x1_0000_0000 && forall|j: int|
            i < j < f.symbols.len() ==> (#[trigger] f.symbols[j]).name != Some(name)
}

/// Whether a name is one of those whose addresses the object keeps.
pub open spec fn is_special(name: Seq<char>) -> bool {
    seq![
        "__ArenaHi"@,
        "__ArenaLo"@,
        "_SDA2_BASE_"@,
        "_SDA_BASE_"@,
        "_db_stack_addr"@,
        "_stack_addr"@,
        "_stack_end"@,
    ].contains(name)
}

proof fn lemma_special(name: Seq<char>)
    ensures
        is_special(name) <==> crate::util::coff_read::is_reserved(name),
{
    let all = seq![
        "__ArenaHi"@,
        "__ArenaLo"@,
        "_SDA2_BASE_"@,
        "_SDA_BASE_"@,
        "_db_stack_addr"@,
        "_stack_addr"@,
        "_stack_end"@,
    ];
    assert(all[0] == "__ArenaHi"@);
    assert(all[1] == "__ArenaLo"@);
    assert(all[2] == "_SDA2_BASE_"@);
    assert(all[3] == "_SDA_BASE_"@);
    assert(all[4] == "_db_stack_addr"@);
    assert(all[5] == "_stack_addr"@);
    assert(all[6] == "_stack_end"@);
}

proof fn lemma_last_named(f: FileView, name: Seq<char>, n: nat)
    requires
        n <= f.symbols.len(),
        name.len() > 0,
        crate::util::coff_read::is_reserved(name),
        !addresses_overflow(f),
        forall|j: int| n <= j < f.symbols.len() ==> (#[trigger] f.symbols[j]).name != Some(name),
    ensures
        is_last_named(f, name, last_named(f, name, n)),
    decreases n,
{
    if n > 0 {
        if f.symbols[n - 1].name == Some(name) {
            assert(!address_overflows(f, n - 1));
            assert(address_of(f, n - 1) == symbol_address(f, n - 1));
            assert(f.symbols[n - 1].name == Some(name));
        } else {
            lemma_last_named(f, name, (n - 1) as nat);
        }
    }
}

/// The object is of the kind and for the machine that the file is, has the name it is
/// given and the entry point of the file, if that has one, and keeps the addresses of
/// the last symbols with certain names.
pub proof fn lemma_read_frame(f: FileView, name: Seq<char>)
    ensures
        file_object(f, name) matches Ok(o) ==> {
            &&& o.name == name
            &&& o.kind == ObjKind::Executable <==> f.header.kind == FileKind::Executable
            &&& o.kind == ObjKind::Relocatable <==> f.header.kind == FileKind::Relocatable
            &&& o.architecture == ObjArchitecture::X86 <==> f.header.architecture
                == FileArchitecture::I386
            &&& o.architecture == ObjArchitecture::PowerPc <==> f.header.architecture
                == FileArchitecture::PowerPc
            &&& f.header.entry == 0 ==> o.entry is None
            &&& f.header.entry != 0 ==> o.entry == Some(f.header.entry)
            &&& is_last_named(f, "_SDA2_BASE_"@, o.sda2_base)
            &&& is_last_named(f, "_SDA_BASE_"@, o.sda_base)
            &&& is_last_named(f, "_stack_addr"@, o.stack_address)
            &&& is_last_named(f, "_stack_end"@, o.stack_end)
            &&& is_last_named(f, "_db_stack_addr"@, o.db_stack_addr)
            &&& is_last_named(f, "__ArenaLo"@, o.arena_lo)
            &&& is_last_named(f, "__ArenaHi"@, o.arena_hi)
            &&& o.link_order.len() == 0
            &&& o.blocked_relocation_sources.len() == 0
            &&& o.blocked_relocation_targets.len() == 0
        },
{
    if let Ok(o) = file_object(f, name) {
        let n = f.symbols.len();
        reveal_strlit("_SDA2_BASE_");
        reveal_strlit("_SDA_BASE_");
        reveal_strlit("_stack_addr");
        reveal_strlit("_stack_end");
        reveal_strlit("_db_stack_addr");
        reveal_strlit("__ArenaLo");
        reveal_strlit("__ArenaHi");
        lemma_last_named(f, "_SDA2_BASE_"@, n);
        lemma_last_named(f, "_SDA_BASE_"@, n);
        lemma_last_named(f, "_stack_addr"@, n);
        lemma_last_named(f, "_stack_end"@, n);
        lemma_last_named(f, "_db_stack_addr"@, n);
        lemma_last_named(f, "__ArenaLo"@, n);
        lemma_last_named(f, "__ArenaHi"@, n);
    }
}

/// Why a file is refused: for its machine or kind, for the first section that cannot be
/// read, or for a symbol that stands behind the last 64-bit address. No other file is.
pub proof fn lemma_read_refused(f: FileView, name: Seq<char>)
    requires
        f.sections.len() <= usize::MAX,
    ensures
        ({
            let r = file_object(f, name);
            let machine = f.header.architecture == FileArchitecture::I386 || f.header.architecture
                == FileArchitecture::PowerPc;
            let kind = f.header.kind == FileKind::Executable || f.header.kind
                == FileKind::Relocatable;
            let sections = forall|i: int|
                0 <= i < f.sections.len() ==> !#[trigger] is_bad(f, i);
            &&& !machine <==> r == Err::<ObjView, _>(CoffReadError::UnsupportedArchitecture)
            &&& machine && !kind <==> r == Err::<ObjView, _>(CoffReadError::UnexpectedKind)
            &&& machine && kind && !sections <==> r == Err::<ObjView, _>(
                CoffReadError::SectionName,
            ) || r == Err::<ObjView, _>(CoffReadError::SectionData)
            &&& machine && kind && !sections ==> exists|i: int|
                0 <= i < f.sections.len() && #[trigger] is_bad(f, i) && (forall|j: int|
                    0 <= j < i ==> !#[trigger] is_bad(f, j)) && (r == Err::<ObjView, _>(
                    CoffReadError::SectionName,
                ) <==> f.sections[i].name is None)
            &&& machine && kind && sections ==> (r is Err <==> r == Err::<ObjView, _>(
                CoffReadError::AddressOverflow,
            ))
            &&& machine && kind && sections ==> (r is Ok <==> forall|i: int|
                #![trigger f.symbols[i]]
                0 <= i < f.symbols.len() && address_of(f, i) > u64::MAX && f.symbols[i].name
                    is Some && f.symbols[i].name->Some_0.len() > 0 ==> !is_kept(f, i)
                    && !is_special(f.symbols[i].name->Some_0))
        }),
{
    lemma_sections_from(f, f.sections.len());
    assert forall|i: int| #![trigger f.symbols[i]] 0 <= i < f.symbols.len() implies (
    address_overflows(f, i) <==> address_of(f, i) > u64::MAX && f.symbols[i].name is Some
        && f.symbols[i].name->Some_0.len() > 0 && (is_kept(f, i)
        || is_special(f.symbols[i].name->Some_0))) by {
        assert(address_of(f, i) == symbol_address(f, i));
        lemma_special(f.symbols[i].name->Some_0);
    }
    if addresses_overflow(f) {
        let i = choose|i: int| 0 <= i < f.symbols.len() && #[trigger] address_overflows(f, i);
        assert(f.symbols[i] == f.symbols[i]);
    } else {
        assert forall|i: int|
            #![trigger f.symbols[i]]
            0 <= i < f.symbols.len() && address_of(f, i) > u64::MAX && f.symbols[i].name is Some
                && f.symbols[i].name->Some_0.len() > 0 implies !is_kept(f, i)
            && !is_special(f.symbols[i].name->Some_0) by {
            assert(!address_overflows(f, i));
            lemma_special(f.symbols[i].name->Some_0);
        }
    }
}

/// Reading the bytes of a file gives the object of what the file holds. Where the bytes
/// are no object file they are refused as such; the machine and kind of a file are
/// looked at before the rest of it.
pub proof fn lemma_coff_read(d: Seq<u8>, name: Seq<char>)
    ensures
        ({
            let r = coff_object(d, name);
            let all = file_sections(d) is Some && file_section_kinds(d) is Some && file_symbols(d)
                is Some && file_symbol_kinds(d) is Some && file_symbol_offsets(d) is Some;
            &&& file_header(d) is None ==> r == Err::<ObjView, _>(CoffReadError::ParseFailed)
            &&& file_header(d) matches Some(h) ==> {
                let known = (h.architecture == FileArchitecture::I386 || h.architecture
                    == FileArchitecture::PowerPc) && (h.kind == FileKind::Executable || h.kind
                    == FileKind::Relocatable);
                &&& known && !all ==> r == Err::<ObjView, _>(CoffReadError::ParseFailed)
                &&& known && all ==> r == file_object(
                    FileView {
                        header: h,
                        sections: file_sections(d)->Some_0,
                        section_kinds: file_section_kinds(d)->Some_0,
                        symbols: file_symbols(d)->Some_0,
                        symbol_kinds: file_symbol_kinds(d)->Some_0,
                        symbol_offsets: file_symbol_offsets(d)->Some_0,
                    },
                    name,
                )
                &&& !known ==> r == Err::<ObjView, _>(CoffReadError::UnsupportedArchitecture)
                    || r == Err::<ObjView, _>(CoffReadError::UnexpectedKind)
                &&& r == Err::<ObjView, _>(CoffReadError::UnsupportedArchitecture) && !known
                    ==> h.architecture == FileArchitecture::Other
            }
        }),
{
}

} // verus!
