//! The object model: sections, symbols and relocations of one binary.
use vstd::prelude::*;

use crate::addr_map::AddrMap;
use crate::bytes::{low32, low_word};

verus! {

/// Index of a section in [`ObjInfo::sections`].
pub type SectionIndex = usize;

/// Index of a symbol in [`ObjInfo::symbols`].
pub type SymbolIndex = usize;

/// Whether an object is linked.
#[derive(Clone, Copy, Debug, PartialEq, Eq, Structural)]
pub enum ObjKind {
    Executable,
    Relocatable,
}

/// Instruction set of an object.
#[derive(Clone, Copy, Debug, PartialEq, Eq, Structural)]
pub enum ObjArchitecture {
    PowerPc,
    X86,
}

/// What a section holds.
#[derive(Clone, Copy, Debug, PartialEq, Eq, Structural)]
pub enum ObjSectionKind {
    Code,
    Data,
    ReadOnlyData,
    Bss,
}

/// What a symbol names.
#[derive(Clone, Copy, Debug, PartialEq, Eq, Structural)]
pub enum ObjSymbolKind {
    Unknown,
    Function,
    Object,
    Section,
}

/// How far a symbol is visible.
#[derive(Clone, Copy, Debug, PartialEq, Eq, Structural)]
pub enum ObjSymbolScope {
    Unknown,
    Global,
    Weak,
    Local,
}

/// How a relocated field is computed.
#[derive(Clone, Copy, Debug, PartialEq, Eq, Structural)]
pub enum ObjRelocKind {
    Absolute,
    PpcAddr16Hi,
    PpcAddr16Ha,
    PpcAddr16Lo,
    PpcRel24,
    PpcRel14,
    PpcEmbSda21,
    X86Abs32,
    X86Rel32,
}

/// The flags of a symbol.
#[derive(Clone, Copy, Debug, PartialEq, Eq, Structural)]
pub struct ObjSymbolFlagSet {
    pub global: bool,
    pub local: bool,
    pub weak: bool,
    pub exported: bool,
    pub no_export: bool,
    pub stripped: bool,
}

/// No flag at all.
pub open spec fn no_flags() -> ObjSymbolFlagSet {
    ObjSymbolFlagSet {
        global: false,
        local: false,
        weak: false,
        exported: false,
        no_export: false,
        stripped: false,
    }
}

impl ObjSymbolFlagSet {
    /// The empty set of flags.
    pub fn none() -> (r: Self)
        ensures
            r == no_flags(),
    {
        ObjSymbolFlagSet {
            global: false,
            local: false,
            weak: false,
            exported: false,
            no_export: false,
            stripped: false,
        }
    }

    /// The scope that the flags state: local before weak before global.
    pub open spec fn spec_scope(self) -> ObjSymbolScope {
        if self.local {
            ObjSymbolScope::Local
        } else if self.weak {
            ObjSymbolScope::Weak
        } else if self.global {
            ObjSymbolScope::Global
        } else {
            ObjSymbolScope::Unknown
        }
    }

    /// The flags with `scope` in place of the scope they state.
    pub open spec fn with_scope(self, scope: ObjSymbolScope) -> ObjSymbolFlagSet {
        ObjSymbolFlagSet {
            local: scope == ObjSymbolScope::Local,
            weak: scope == ObjSymbolScope::Weak,
            global: scope == ObjSymbolScope::Global,
            ..self
        }
    }

    /// The scope that the flags state.
    pub fn scope(&self) -> (r: ObjSymbolScope)
        ensures
            r == self.spec_scope(),
    {
        if self.local {
            ObjSymbolScope::Local
        } else if self.weak {
            ObjSymbolScope::Weak
        } else if self.global {
            ObjSymbolScope::Global
        } else {
            ObjSymbolScope::Unknown
        }
    }

    /// Replaces the scope.
    pub fn set_scope(&mut self, scope: ObjSymbolScope)
        ensures
            *final(self) == old(self).with_scope(scope),
    {
        self.local = scope == ObjSymbolScope::Local;
        self.weak = scope == ObjSymbolScope::Weak;
        self.global = scope == ObjSymbolScope::Global;
    }
}

/// A set scope is the scope that is read back.
pub proof fn lemma_scope_round_trip(flags: ObjSymbolFlagSet, scope: ObjSymbolScope)
    ensures
        flags.with_scope(scope).spec_scope() == scope,
{
}

/// A local symbol is local whatever else it is flagged as, and a weak one weak unless it
/// is local; setting a scope leaves the flags that state none alone.
pub proof fn lemma_scope_stated(flags: ObjSymbolFlagSet, scope: ObjSymbolScope)
    ensures
        flags.spec_scope() == ObjSymbolScope::Local <==> flags.local,
        flags.spec_scope() == ObjSymbolScope::Weak <==> flags.weak && !flags.local,
        flags.spec_scope() == ObjSymbolScope::Global <==> flags.global && !flags.weak
            && !flags.local,
        flags.with_scope(scope).exported == flags.exported,
        flags.with_scope(scope).no_export == flags.no_export,
        flags.with_scope(scope).stripped == flags.stripped,
        !no_flags().global && !no_flags().local && !no_flags().weak && !no_flags().exported
            && !no_flags().no_export && !no_flags().stripped,
{
}

/// The data type recorded for a symbol, as an opaque tag (0: none).
#[derive(Clone, Copy, Debug, PartialEq, Eq, Structural)]
pub struct ObjDataKind(pub u8);

/// One relocation.
#[derive(Clone, Copy, Debug, PartialEq, Eq, Structural)]
pub struct ObjReloc {
    pub kind: ObjRelocKind,
    pub target_symbol: SymbolIndex,
    pub addend: i64,
    pub module: Option<u32>,
}

/// A boundary inside a section at which the object file `unit` starts.
pub struct ObjSplit {
    pub unit: String,
}

/// A section of an object.
pub struct ObjSection {
    pub name: String,
    pub kind: ObjSectionKind,
    pub address: u64,
    pub size: u64,
    pub data: Vec<u8>,
    pub align: u64,
    /// Index of the section in the file it came from.
    pub elf_index: SectionIndex,
    /// Relocations by the address of the field they fill.
    pub relocations: AddrMap<ObjReloc>,
    pub virtual_address: Option<u64>,
    pub file_offset: u64,
    pub section_known: bool,
    /// Split boundaries with their offsets, several may share one offset.
    pub splits: Vec<(u32, ObjSplit)>,
}

/// What an [`ObjSection`] holds.
pub ghost struct SectionView {
    pub name: Seq<char>,
    pub kind: ObjSectionKind,
    pub address: u64,
    pub size: u64,
    pub data: Seq<u8>,
    pub align: u64,
    pub elf_index: SectionIndex,
    pub relocations: Seq<(u32, ObjReloc)>,
    pub virtual_address: Option<u64>,
    pub file_offset: u64,
    pub section_known: bool,
    pub splits: Seq<(u32, Seq<char>)>,
}

impl View for ObjSection {
    type V = SectionView;

    open spec fn view(&self) -> SectionView {
        SectionView {
            name: self.name@,
            kind: self.kind,
            address: self.address,
            size: self.size,
            data: self.data@,
            align: self.align,
            elf_index: self.elf_index,
            relocations: self.relocations@,
            virtual_address: self.virtual_address,
            file_offset: self.file_offset,
            section_known: self.section_known,
            splits: self.splits@.map_values(|e: (u32, ObjSplit)| (e.0, e.1.unit@)),
        }
    }
}

impl SectionView {
    /// Whether `va` lies in the section.
    pub open spec fn contains(self, va: u32) -> bool {
        self.address <= va < self.address + self.size
    }
}

impl ObjSection {
    /// Whether `va` lies in the section.
    pub fn contains(&self, va: u32) -> (r: bool)
        ensures
            r == self@.contains(va),
    {
        va as u64 >= self.address && va as u64 - self.address < self.size
    }
}

/// A symbol of an object.
pub struct ObjSymbol {
    pub name: String,
    pub demangled_name: Option<String>,
    pub address: u64,
    pub section: Option<SectionIndex>,
    pub size: u64,
    pub size_known: bool,
    pub flags: ObjSymbolFlagSet,
    pub kind: ObjSymbolKind,
    pub align: Option<u32>,
    pub data_kind: ObjDataKind,
    pub name_hash: Option<u32>,
    pub demangled_name_hash: Option<u32>,
}

/// What an [`ObjSymbol`] holds.
pub ghost struct SymbolView {
    pub name: Seq<char>,
    pub demangled_name: Option<Seq<char>>,
    pub address: u64,
    pub section: Option<SectionIndex>,
    pub size: u64,
    pub size_known: bool,
    pub flags: ObjSymbolFlagSet,
    pub kind: ObjSymbolKind,
    pub align: Option<u32>,
    pub data_kind: ObjDataKind,
    pub name_hash: Option<u32>,
    pub demangled_name_hash: Option<u32>,
}

/// The characters of an optional string.
pub open spec fn text_view(s: Option<String>) -> Option<Seq<char>> {
    match s {
        Some(t) => Some(t@),
        None => None,
    }
}

impl View for ObjSymbol {
    type V = SymbolView;

    open spec fn view(&self) -> SymbolView {
        SymbolView {
            name: self.name@,
            demangled_name: text_view(self.demangled_name),
            address: self.address,
            section: self.section,
            size: self.size,
            size_known: self.size_known,
            flags: self.flags,
            kind: self.kind,
            align: self.align,
            data_kind: self.data_kind,
            name_hash: self.name_hash,
            demangled_name_hash: self.demangled_name_hash,
        }
    }
}

impl SymbolView {
    /// Whether the symbol stands at `va` in section `sec`.
    pub open spec fn at(self, sec: SectionIndex, va: u32) -> bool {
        self.section == Some(sec) && low32(self.address) == va
    }
}

/// A symbol without name, place or size.
pub open spec fn blank_symbol() -> SymbolView {
    SymbolView {
        name: Seq::empty(),
        demangled_name: None,
        address: 0,
        section: None,
        size: 0,
        size_known: false,
        flags: no_flags(),
        kind: ObjSymbolKind::Unknown,
        align: None,
        data_kind: ObjDataKind(0),
        name_hash: None,
        demangled_name_hash: None,
    }
}

impl Default for ObjSymbol {
    fn default() -> (r: Self)
        ensures
            r@ == blank_symbol(),
    {
        let r = ObjSymbol {
            name: String::new(),
            demangled_name: None,
            address: 0,
            section: None,
            size: 0,
            size_known: false,
            flags: ObjSymbolFlagSet::none(),
            kind: ObjSymbolKind::Unknown,
            align: None,
            data_kind: ObjDataKind(0),
            name_hash: None,
            demangled_name_hash: None,
        };
        assert(r@.name =~= Seq::<char>::empty());
        r
    }
}

impl Clone for ObjSymbol {
    fn clone(&self) -> (r: Self)
        ensures
            r@ == self@,
    {
        ObjSymbol {
            name: self.name.clone(),
            demangled_name: match &self.demangled_name {
                Some(s) => Some(s.clone()),
                None => None,
            },
            address: self.address,
            section: self.section,
            size: self.size,
            size_known: self.size_known,
            flags: self.flags,
            kind: self.kind,
            align: self.align,
            data_kind: self.data_kind,
            name_hash: self.name_hash,
            demangled_name_hash: self.demangled_name_hash,
        }
    }
}

impl ObjSymbol {
    /// Whether the symbol stands at `va` in section `sec`.
    pub fn at(&self, sec: SectionIndex, va: u32) -> (r: bool)
        ensures
            r == self@.at(sec, va),
    {
        match self.section {
            Some(s) => s == sec && low_word(self.address) == va,
            None => false,
        }
    }
}

/// An object file of the link order.
pub struct ObjUnit {
    pub name: String,
    pub autogenerated: bool,
    /// Where the unit's object file stands below the object directory.
    pub object_path: String,
}

/// What an [`ObjUnit`] holds.
pub ghost struct UnitView {
    pub name: Seq<char>,
    pub autogenerated: bool,
    pub object_path: Seq<char>,
}

impl View for ObjUnit {
    type V = UnitView;

    open spec fn view(&self) -> UnitView {
        UnitView {
            name: self.name@,
            autogenerated: self.autogenerated,
            object_path: self.object_path@,
        }
    }
}

/// An address in a section.
#[derive(Clone, Copy, Debug, PartialEq, Eq, Structural)]
pub struct SectionAddress {
    pub section: SectionIndex,
    pub address: u32,
}

/// One binary.
pub struct ObjInfo {
    pub kind: ObjKind,
    pub architecture: ObjArchitecture,
    pub name: String,
    pub symbols: Vec<ObjSymbol>,
    pub sections: Vec<ObjSection>,
    pub entry: Option<u64>,
    pub sda2_base: Option<u32>,
    pub sda_base: Option<u32>,
    pub stack_address: Option<u32>,
    pub stack_end: Option<u32>,
    pub db_stack_addr: Option<u32>,
    pub arena_lo: Option<u32>,
    pub arena_hi: Option<u32>,
    pub link_order: Vec<ObjUnit>,
    /// Address ranges (start, exclusive end) from which no relocation starts.
    pub blocked_relocation_sources: Vec<(SectionAddress, SectionAddress)>,
    /// Address ranges (start, exclusive end) to which no relocation points.
    pub blocked_relocation_targets: Vec<(SectionAddress, SectionAddress)>,
}

/// What an [`ObjInfo`] holds.
pub ghost struct ObjView {
    pub kind: ObjKind,
    pub architecture: ObjArchitecture,
    pub name: Seq<char>,
    pub symbols: Seq<SymbolView>,
    pub sections: Seq<SectionView>,
    pub entry: Option<u64>,
    pub sda2_base: Option<u32>,
    pub sda_base: Option<u32>,
    pub stack_address: Option<u32>,
    pub stack_end: Option<u32>,
    pub db_stack_addr: Option<u32>,
    pub arena_lo: Option<u32>,
    pub arena_hi: Option<u32>,
    pub link_order: Seq<UnitView>,
    pub blocked_relocation_sources: Seq<(SectionAddress, SectionAddress)>,
    pub blocked_relocation_targets: Seq<(SectionAddress, SectionAddress)>,
}

/// The views of a list of symbols.
pub open spec fn symbol_views(s: Seq<ObjSymbol>) -> Seq<SymbolView> {
    s.map_values(|x: ObjSymbol| x@)
}

/// The views of a list of sections.
pub open spec fn section_views(s: Seq<ObjSection>) -> Seq<SectionView> {
    s.map_values(|x: ObjSection| x@)
}

impl View for ObjInfo {
    type V = ObjView;

    open spec fn view(&self) -> ObjView {
        ObjView {
            kind: self.kind,
            architecture: self.architecture,
            name: self.name@,
            symbols: symbol_views(self.symbols@),
            sections: section_views(self.sections@),
            entry: self.entry,
            sda2_base: self.sda2_base,
            sda_base: self.sda_base,
            stack_address: self.stack_address,
            stack_end: self.stack_end,
            db_stack_addr: self.db_stack_addr,
            arena_lo: self.arena_lo,
            arena_hi: self.arena_hi,
            link_order: self.link_order@.map_values(|x: ObjUnit| x@),
            blocked_relocation_sources: self.blocked_relocation_sources@,
            blocked_relocation_targets: self.blocked_relocation_targets@,
        }
    }
}

/// An object with nothing but the given parts.
pub open spec fn plain_object(
    kind: ObjKind,
    architecture: ObjArchitecture,
    name: Seq<char>,
    symbols: Seq<SymbolView>,
    sections: Seq<SectionView>,
) -> ObjView {
    ObjView {
        kind,
        architecture,
        name,
        symbols,
        sections,
        entry: None,
        sda2_base: None,
        sda_base: None,
        stack_address: None,
        stack_end: None,
        db_stack_addr: None,
        arena_lo: None,
        arena_hi: None,
        link_order: Seq::empty(),
        blocked_relocation_sources: Seq::empty(),
        blocked_relocation_targets: Seq::empty(),
    }
}

/// Why a symbol lookup fails.
#[derive(Clone, Copy, Debug, PartialEq, Eq, Structural)]
pub enum ObjError {
    /// Several symbols of one kind stand at one address.
    AmbiguousSymbol,
}

/// The indexes below `n` of the symbols that stand at `va` in section `sec`.
pub open spec fn indexes_at(s: Seq<SymbolView>, sec: SectionIndex, va: u32, n: nat) -> Seq<int>
    decreases n,
{
    if n == 0 {
        Seq::empty()
    } else {
        let below = indexes_at(s, sec, va, (n - 1) as nat);
        if s[n - 1].at(sec, va) {
            below.push(n - 1)
        } else {
            below
        }
    }
}

/// The indexes below `n` of the symbols of kind `kind` that stand at `va` in
/// section `sec`.
pub open spec fn kind_indexes_at(
    s: Seq<SymbolView>,
    sec: SectionIndex,
    va: u32,
    kind: ObjSymbolKind,
    n: nat,
) -> Seq<int>
    decreases n,
{
    if n == 0 {
        Seq::empty()
    } else {
        let below = kind_indexes_at(s, sec, va, kind, (n - 1) as nat);
        if s[n - 1].at(sec, va) && s[n - 1].kind == kind {
            below.push(n - 1)
        } else {
            below
        }
    }
}

/// The one symbol of kind `kind` at an address: none, its index, or an error
/// where there are several.
pub open spec fn kind_at(
    s: Seq<SymbolView>,
    sec: SectionIndex,
    va: u32,
    kind: ObjSymbolKind,
) -> Result<Option<SymbolIndex>, ObjError> {
    let found = kind_indexes_at(s, sec, va, kind, s.len());
    if found.len() == 0 {
        Ok(None)
    } else if found.len() == 1 {
        Ok(Some(found[0] as usize))
    } else {
        Err(ObjError::AmbiguousSymbol)
    }
}

/// The index of the first section that holds `va`.
pub open spec fn section_at(s: Seq<SectionView>, va: u32) -> Option<SectionIndex>
    decreases s.len(),
{
    if s.len() == 0 {
        None
    } else {
        match section_at(s.drop_last(), va) {
            Some(i) => Some(i),
            None => if s.last().contains(va) {
                Some((s.len() - 1) as usize)
            } else {
                None
            },
        }
    }
}

/// The bytes of a section between two addresses, where it holds them all.
pub open spec fn bytes_between(s: SectionView, start: u32, end: u32) -> Option<Seq<u8>> {
    if s.address <= start <= end <= s.address + s.data.len() {
        Some(s.data.subrange(start - s.address, end - s.address))
    } else {
        None
    }
}

/// What [`kind_indexes_at`] lists.
pub proof fn lemma_kind_indexes(
    s: Seq<SymbolView>,
    sec: SectionIndex,
    va: u32,
    kind: ObjSymbolKind,
    n: nat,
)
    requires
        n <= s.len(),
    ensures
        forall|i: int|
            0 <= i < n && s[i].at(sec, va) && #[trigger] s[i].kind == kind ==> kind_indexes_at(
                s,
                sec,
                va,
                kind,
                n,
            ).contains(i),
        forall|k: int|
            0 <= k < kind_indexes_at(s, sec, va, kind, n).len() ==> {
                let i = #[trigger] kind_indexes_at(s, sec, va, kind, n)[k];
                0 <= i < n && s[i].at(sec, va) && s[i].kind == kind
            },
    decreases n,
{
    if n > 0 {
        lemma_kind_indexes(s, sec, va, kind, (n - 1) as nat);
        let below = kind_indexes_at(s, sec, va, kind, (n - 1) as nat);
        let all = kind_indexes_at(s, sec, va, kind, n);
        assert forall|i: int|
            0 <= i < n && s[i].at(sec, va) && #[trigger] s[i].kind == kind implies all.contains(
            i,
        ) by {
            if i == n - 1 {
                assert(all[all.len() - 1] == i);
            } else {
                assert(below.contains(i));
                let k = choose|k: int| 0 <= k < below.len() && below[k] == i;
                assert(all[k] == i);
            }
        }
        assert forall|k: int| 0 <= k < all.len() implies {
            let i = #[trigger] all[k];
            0 <= i < n && s[i].at(sec, va) && s[i].kind == kind
        } by {
            if k < below.len() {
                assert(all[k] == below[k]);
            }
        }
    }
}

impl ObjInfo {
    /// An object with nothing but the given parts.
    pub fn new(
        kind: ObjKind,
        architecture: ObjArchitecture,
        name: String,
        symbols: Vec<ObjSymbol>,
        sections: Vec<ObjSection>,
    ) -> (r: Self)
        ensures
            r@ == plain_object(
                kind,
                architecture,
                name@,
                symbol_views(symbols@),
                section_views(sections@),
            ),
            r.sections == sections,
            r.symbols == symbols,
    {
        let r = ObjInfo {
            kind,
            architecture,
            name,
            symbols,
            sections,
            entry: None,
            sda2_base: None,
            sda_base: None,
            stack_address: None,
            stack_end: None,
            db_stack_addr: None,
            arena_lo: None,
            arena_hi: None,
            link_order: Vec::new(),
            blocked_relocation_sources: Vec::new(),
            blocked_relocation_targets: Vec::new(),
        };
        assert(r@.link_order =~= Seq::<UnitView>::empty());
        r
    }

    /// Appends a symbol and returns its index.
    pub fn add_symbol(&mut self, symbol: ObjSymbol) -> (r: SymbolIndex)
        ensures
            final(self)@ == (ObjView { symbols: old(self)@.symbols.push(symbol@), ..old(self)@ }),
            r == old(self)@.symbols.len(),
    {
        let index: usize = self.symbols.len();
        self.symbols.push(symbol);
        assert(self@.symbols =~= old(self)@.symbols.push(symbol@));
        index
    }

    /// Replaces the symbol at `index`.
    pub fn replace_symbol(&mut self, index: SymbolIndex, symbol: ObjSymbol)
        requires
            index < old(self)@.symbols.len(),
        ensures
            final(self)@ == (ObjView {
                symbols: old(self)@.symbols.update(index as int, symbol@),
                ..old(self)@
            }),
    {
        self.symbols.set(index, symbol);
        assert(self@.symbols =~= old(self)@.symbols.update(index as int, symbol@));
    }

    /// The one symbol of kind `kind` at `va` in section `sec`.
    pub fn kind_at_section_address(
        &self,
        sec: SectionIndex,
        va: u32,
        kind: ObjSymbolKind,
    ) -> (r: Result<Option<SymbolIndex>, ObjError>)
        ensures
            r == kind_at(self@.symbols, sec, va, kind),
            r matches Ok(Some(i)) ==> i < self@.symbols.len() && self@.symbols[i as int].at(sec, va)
                && self@.symbols[i as int].kind == kind,
    {
        let mut found: Option<usize> = None;
        let mut several = false;
        let mut i: usize = 0;
        while i < self.symbols.len()
            invariant
                i <= self.symbols@.len(),
                !several && found is None ==> kind_indexes_at(
                    self@.symbols,
                    sec,
                    va,
                    kind,
                    i as nat,
                ).len() == 0,
                !several && found is Some ==> kind_indexes_at(
                    self@.symbols,
                    sec,
                    va,
                    kind,
                    i as nat,
                ).len() == 1,
                found matches Some(f) ==> f < i && kind_indexes_at(
                    self@.symbols,
                    sec,
                    va,
                    kind,
                    i as nat,
                )[0] == f && self@.symbols[f as int].at(sec, va) && self@.symbols[f as int].kind
                    == kind,
                several ==> found is Some && kind_indexes_at(
                    self@.symbols,
                    sec,
                    va,
                    kind,
                    i as nat,
                ).len() >= 2,
            decreases self.symbols@.len() - i,
        {
            assert(self@.symbols[i as int] == self.symbols@[i as int]@);
            if self.symbols[i].at(sec, va) && self.symbols[i].kind == kind {
                if found.is_some() {
                    several = true;
                } else {
                    found = Some(i);
                }
            }
            i = i + 1;
        }
        if several {
            Err(ObjError::AmbiguousSymbol)
        } else {
            Ok(found)
        }
    }

    /// The first section that holds `va`.
    pub fn section_at_address(&self, va: u32) -> (r: Option<SectionIndex>)
        ensures
            r == section_at(self@.sections, va),
            r matches Some(i) ==> i < self@.sections.len(),
    {
        let mut i: usize = 0;
        while i < self.sections.len()
            invariant
                i <= self.sections@.len(),
                section_at(self@.sections.take(i as int), va) is None,
            decreases self.sections@.len() - i,
        {
            let ghost up = self@.sections.take(i + 1);
            assert(up.drop_last() =~= self@.sections.take(i as int));
            assert(up.last() == self.sections@[i as int]@);
            if self.sections[i].contains(va) {
                proof {
                    lemma_section_at_prefix(self@.sections, va, i + 1);
                }
                return Some(i);
            }
            i = i + 1;
        }
        assert(self@.sections.take(i as int) =~= self@.sections);
        None
    }
}

/// A section found in a prefix is the one found in the whole list.
pub proof fn lemma_section_at_prefix(s: Seq<SectionView>, va: u32, n: int)
    requires
        0 <= n <= s.len(),
        section_at(s.take(n), va) is Some,
    ensures
        section_at(s, va) == section_at(s.take(n), va),
    decreases s.len() - n,
{
    if n < s.len() {
        assert(s.take(n + 1).drop_last() =~= s.take(n));
        lemma_section_at_prefix(s, va, n + 1);
    } else {
        assert(s.take(n) =~= s);
    }
}

/// The section that [`section_at`] names holds the address and no earlier one does.
pub proof fn lemma_section_at(s: Seq<SectionView>, va: u32)
    requires
        s.len() <= usize::MAX,
    ensures
        section_at(s, va) matches Some(i) ==> i < s.len() && s[i as int].contains(va) && forall|
            j: int,
        |
            0 <= j < i ==> !(#[trigger] s[j]).contains(va),
        section_at(s, va) is None ==> forall|j: int|
            0 <= j < s.len() ==> !(#[trigger] s[j]).contains(va),
    decreases s.len(),
{
    if s.len() > 0 {
        lemma_section_at(s.drop_last(), va);
        assert forall|j: int| 0 <= j < s.len() - 1 implies #[trigger] s[j] == s.drop_last()[j] by {}
    }
}

impl ObjSection {
    /// The bytes between two addresses, where the section holds them all.
    pub fn data_range(&self, start: u32, end: u32) -> (r: Option<&[u8]>)
        ensures
            r is Some <==> bytes_between(self@, start, end) is Some,
            r matches Some(d) ==> Some(d@) == bytes_between(self@, start, end),
    {
        if (start as u64) < self.address || end < start {
            return None;
        }
        let lo: u64 = start as u64 - self.address;
        let hi: u64 = end as u64 - self.address;
        if hi > self.data.len() as u64 {
            return None;
        }
        Some(vstd::slice::slice_subrange(self.data.as_slice(), lo as usize, hi as usize))
    }
}

} // verus!
