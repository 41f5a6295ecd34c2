//! Linker response files for PE executables.
use vstd::prelude::*;

use object::LittleEndian as LE;
use object::read::pe::{ImageNtHeaders, PeFile32};

use crate::bytes::{low32, low_word};
use crate::obj::{
    ObjError, ObjInfo, ObjSection, ObjSymbolKind, ObjView, SectionView, SymbolView, UnitView,
    kind_indexes_at, section_at, section_views,
};
use crate::text::{
    decimal, decode_text, lower_hex, push_decimal, push_lower_hex, same_text, utf8_text,
};

verus! {

/// Subsystem: none needed.
pub const SUBSYSTEM_NATIVE: u16 = 1;

/// Subsystem: Windows, graphical.
pub const SUBSYSTEM_WINDOWS_GUI: u16 = 2;

/// Subsystem: Windows, console.
pub const SUBSYSTEM_WINDOWS_CUI: u16 = 3;

/// Subsystem: POSIX.
pub const SUBSYSTEM_POSIX_CUI: u16 = 7;

/// Subsystem: Windows CE.
pub const SUBSYSTEM_WINDOWS_CE_GUI: u16 = 9;

/// Subsystem: EFI application.
pub const SUBSYSTEM_EFI_APPLICATION: u16 = 10;

/// Subsystem: EFI boot service driver.
pub const SUBSYSTEM_EFI_BOOT_SERVICE_DRIVER: u16 = 11;

/// Subsystem: EFI runtime driver.
pub const SUBSYSTEM_EFI_RUNTIME_DRIVER: u16 = 12;

/// Subsystem: EFI ROM image.
pub const SUBSYSTEM_EFI_ROM: u16 = 13;

/// Subsystem: Xbox.
pub const SUBSYSTEM_XBOX: u16 = 14;

/// Section flag: executable.
pub const MEM_EXECUTE: u32 = 0x2000_0000;

/// Section flag: readable.
pub const MEM_READ: u32 = 0x4000_0000;

/// Section flag: writable.
pub const MEM_WRITE: u32 = 0x8000_0000;

/// The header fields of a 32-bit PE file that a linker needs.
#[derive(Clone, Copy, Debug, PartialEq, Eq, Structural)]
pub struct PeFields {
    pub image_base: u32,
    pub stack_reserve: u32,
    pub stack_commit: u32,
    pub heap_reserve: u32,
    pub heap_commit: u32,
    pub subsystem: u16,
    pub major_os_version: u16,
    pub minor_os_version: u16,
    pub major_subsystem_version: u16,
    pub minor_subsystem_version: u16,
    /// The flags of the file header; the lowest one says that relocations were
    /// stripped.
    pub characteristics: u16,
}

/// The header fields of a PE file, if the bytes are one.
pub uninterp spec fn pe_fields(d: Seq<u8>) -> Option<PeFields>;

/// The section table of a PE file: the eight bytes of each name, and the flags.
pub uninterp spec fn pe_sections(d: Seq<u8>) -> Option<Seq<(Seq<u8>, u32)>>;

/// `object::read::pe::PeFile32::parse`, then the fields of the file header and
/// the optional header: a function of the bytes alone.
#[verifier::external_body]
fn read_fields(data: &[u8]) -> (r: Option<PeFields>)
    ensures
        r == pe_fields(data@),
{
    let pe = PeFile32::parse(data).ok()?;
    let opt = pe.nt_headers().optional_header();
    Some(PeFields {
        image_base: opt.image_base.get(LE),
        stack_reserve: opt.size_of_stack_reserve.get(LE),
        stack_commit: opt.size_of_stack_commit.get(LE),
        heap_reserve: opt.size_of_heap_reserve.get(LE),
        heap_commit: opt.size_of_heap_commit.get(LE),
        subsystem: opt.subsystem.get(LE),
        major_os_version: opt.major_operating_system_version.get(LE),
        minor_os_version: opt.minor_operating_system_version.get(LE),
        major_subsystem_version: opt.major_subsystem_version.get(LE),
        minor_subsystem_version: opt.minor_subsystem_version.get(LE),
        characteristics: pe.nt_headers().file_header().characteristics.get(LE),
    })
}

/// The views of a list of names and flags.
pub open spec fn raw_views(s: Seq<(Vec<u8>, u32)>) -> Seq<(Seq<u8>, u32)> {
    s.map_values(|e: (Vec<u8>, u32)| (e.0@, e.1))
}

/// `object::read::pe::PeFile32::parse`, then the `name` and `characteristics` of
/// each header of its `section_table`: a function of the bytes alone.
#[verifier::external_body]
fn read_sections(data: &[u8]) -> (r: Option<Vec<(Vec<u8>, u32)>>)
    ensures
        pe_sections(data@) == (match r {
            Some(s) => Some(raw_views(s@)),
            None => None,
        }),
{
    let table = PeFile32::parse(data).ok()?.section_table();
    Some(table.iter().map(|s| (s.name.to_vec(), s.characteristics.get(LE))).collect())
}

/// What a path in a directory is: an absolute path itself, and nothing but the
/// directory for an empty path; else the two with one separator between.
pub open spec fn joined(dir: Seq<char>, path: Seq<char>) -> Seq<char> {
    if path.len() == 0 {
        dir
    } else if path[0] == '/' {
        path
    } else if dir.len() > 0 && dir.last() != '/' {
        dir.push('/') + path
    } else {
        dir + path
    }
}

/// `typed_path::Utf8UnixPath::join`, as text.
#[verifier::external_body]
pub(crate) fn join_path(dir: &str, path: &str) -> (r: String)
    ensures
        r@ == joined(dir@, path@),
{
    typed_path::Utf8UnixPath::new(dir).join(path).into_string()
}

/// The text without zero characters at its end.
pub open spec fn trimmed(s: Seq<char>) -> Seq<char>
    decreases s.len(),
{
    if s.len() > 0 && s.last() == '\0' {
        trimmed(s.drop_last())
    } else {
        s
    }
}

/// A map from names to flags, in the order in which the names came.
pub type NamedFlags = Seq<(Seq<char>, u32)>;

/// `m` with the flags of `name` set.
pub open spec fn with_flags(m: NamedFlags, name: Seq<char>, flags: u32) -> NamedFlags
    decreases m.len(),
{
    if m.len() == 0 {
        seq![(name, flags)]
    } else if m[0].0 == name {
        seq![(name, flags)] + m.drop_first()
    } else {
        seq![m[0]] + with_flags(m.drop_first(), name, flags)
    }
}

/// The flags of `name`, 0 where there are none.
pub open spec fn flags_of(m: NamedFlags, name: Seq<char>) -> u32
    decreases m.len(),
{
    if m.len() == 0 {
        0
    } else if m[0].0 == name {
        m[0].1
    } else {
        flags_of(m.drop_first(), name)
    }
}

/// What was set is found, and the flags of other names stay as they were.
pub proof fn lemma_with_flags(m: NamedFlags, name: Seq<char>, flags: u32, other: Seq<char>)
    ensures
        flags_of(with_flags(m, name, flags), name) == flags,
        other != name ==> flags_of(with_flags(m, name, flags), other) == flags_of(m, other),
    decreases m.len(),
{
    let next = with_flags(m, name, flags);
    if m.len() == 0 {
        assert(next.drop_first() =~= m);
    } else if m[0].0 == name {
        assert(next.drop_first() =~= m.drop_first());
    } else {
        lemma_with_flags(m.drop_first(), name, flags, other);
        assert(next.drop_first() =~= with_flags(m.drop_first(), name, flags));
    }
}

/// The flags of the first `n` sections by name: a name that is not UTF-8 or is
/// empty without its zero bytes is left out, and of two equal names the later
/// one counts.
pub open spec fn section_flags(s: Seq<(Seq<u8>, u32)>, n: nat) -> NamedFlags
    decreases n,
{
    if n == 0 {
        Seq::empty()
    } else {
        let below = section_flags(s, (n - 1) as nat);
        match utf8_text(s[n - 1].0) {
            Some(t) if trimmed(t).len() > 0 => with_flags(below, trimmed(t), s[n - 1].1),
            _ => below,
        }
    }
}

/// PE optional-header and per-section data needed to generate a linker response
/// file.
#[derive(Debug, Default)]
pub struct PeHeaderInfo {
    pub image_base: u32,
    pub stack_reserve: u32,
    pub stack_commit: u32,
    pub heap_reserve: u32,
    pub heap_commit: u32,
    pub subsystem: u16,
    pub major_os_version: u16,
    pub minor_os_version: u16,
    pub major_subsystem_version: u16,
    pub minor_subsystem_version: u16,
    /// Whether the relocations were stripped from the file.
    pub relocs_stripped: bool,
    /// The flags of the sections by section name.
    pub section_characteristics: Vec<(String, u32)>,
}

/// What a [`PeHeaderInfo`] holds.
pub ghost struct PeView {
    pub image_base: u32,
    pub stack_reserve: u32,
    pub stack_commit: u32,
    pub heap_reserve: u32,
    pub heap_commit: u32,
    pub subsystem: u16,
    pub major_os_version: u16,
    pub minor_os_version: u16,
    pub major_subsystem_version: u16,
    pub minor_subsystem_version: u16,
    pub relocs_stripped: bool,
    pub section_characteristics: NamedFlags,
}

/// The views of a list of names and flags.
pub open spec fn flags_views(s: Seq<(String, u32)>) -> NamedFlags {
    s.map_values(|e: (String, u32)| (e.0@, e.1))
}

impl View for PeHeaderInfo {
    type V = PeView;

    open spec fn view(&self) -> PeView {
        PeView {
            image_base: self.image_base,
            stack_reserve: self.stack_reserve,
            stack_commit: self.stack_commit,
            heap_reserve: self.heap_reserve,
            heap_commit: self.heap_commit,
            subsystem: self.subsystem,
            major_os_version: self.major_os_version,
            minor_os_version: self.minor_os_version,
            major_subsystem_version: self.major_subsystem_version,
            minor_subsystem_version: self.minor_subsystem_version,
            relocs_stripped: self.relocs_stripped,
            section_characteristics: flags_views(self.section_characteristics@),
        }
    }
}

/// The header information of header fields and a section table.
pub open spec fn pe_info(f: PeFields, sections: Seq<(Seq<u8>, u32)>) -> PeView {
    PeView {
        image_base: f.image_base,
        stack_reserve: f.stack_reserve,
        stack_commit: f.stack_commit,
        heap_reserve: f.heap_reserve,
        heap_commit: f.heap_commit,
        subsystem: f.subsystem,
        major_os_version: f.major_os_version,
        minor_os_version: f.minor_os_version,
        major_subsystem_version: f.major_subsystem_version,
        minor_subsystem_version: f.minor_subsystem_version,
        relocs_stripped: f.characteristics % 2 == 1,
        section_characteristics: section_flags(sections, sections.len()),
    }
}

/// The name that linkers give a subsystem.
pub open spec fn subsystem_text(subsystem: u16) -> Seq<char> {
    if subsystem == SUBSYSTEM_WINDOWS_CUI {
        "CONSOLE"@
    } else if subsystem == SUBSYSTEM_NATIVE {
        "NATIVE"@
    } else if subsystem == SUBSYSTEM_WINDOWS_CE_GUI {
        "WINDOWSCE"@
    } else if subsystem == SUBSYSTEM_EFI_APPLICATION {
        "EFI_APPLICATION"@
    } else if subsystem == SUBSYSTEM_EFI_BOOT_SERVICE_DRIVER {
        "EFI_BOOT_SERVICE_DRIVER"@
    } else if subsystem == SUBSYSTEM_EFI_RUNTIME_DRIVER {
        "EFI_RUNTIME_DRIVER"@
    } else if subsystem == SUBSYSTEM_EFI_ROM {
        "EFI_ROM"@
    } else if subsystem == SUBSYSTEM_XBOX {
        "XBOX"@
    } else if subsystem == SUBSYSTEM_POSIX_CUI {
        "POSIX"@
    } else {
        "WINDOWS"@
    }
}

/// The letters that linkers take for section flags; `R` where there is no
/// combination for them.
pub open spec fn flag_letters(flags: u32) -> Seq<char> {
    let r = (flags / MEM_READ) % 2 == 1;
    let w = (flags / MEM_WRITE) % 2 == 1;
    let x = (flags / MEM_EXECUTE) % 2 == 1;
    if r && w && x {
        "RWE"@
    } else if r && !w && x {
        "RE"@
    } else if r && w && !x {
        "RW"@
    } else if !r && w && !x {
        "W"@
    } else {
        "R"@
    }
}

/// Cuts zero characters off the end of a text.
fn trim_zeros(s: String) -> (r: String)
    ensures
        r@ == trimmed(s@),
{
    let mut n: usize = vstd::string::StrSliceExecFns::unicode_len(s.as_str());
    assert(s@.take(n as int) =~= s@);
    while n > 0 && vstd::string::StrSliceExecFns::get_char(s.as_str(), n - 1) == '\0'
        invariant
            n <= s@.len(),
            trimmed(s@.take(n as int)) == trimmed(s@),
        decreases n,
    {
        assert(s@.take(n as int).drop_last() =~= s@.take(n - 1));
        n = n - 1;
    }
    let t = vstd::string::StrSliceExecFns::substring_char(s.as_str(), 0, n);
    assert(t@ =~= s@.take(n as int));
    t.to_owned()
}

/// Where `name` stands in the first entries from `n` on, as [`with_flags`] goes.
proof fn lemma_with_flags_at(m: NamedFlags, name: Seq<char>, flags: u32, n: int)
    requires
        0 <= n <= m.len(),
        forall|j: int| 0 <= j < n ==> (#[trigger] m[j]).0 != name,
        n < m.len() ==> m[n].0 == name,
    ensures
        n < m.len() ==> with_flags(m, name, flags) == m.update(n, (name, flags)),
        n == m.len() ==> with_flags(m, name, flags) == m.push((name, flags)),
        n < m.len() ==> flags_of(m, name) == m[n].1,
        n == m.len() ==> flags_of(m, name) == 0,
    decreases m.len(),
{
    if m.len() == 0 {
        assert(with_flags(m, name, flags) =~= m.push((name, flags)));
    } else if n == 0 {
        assert(with_flags(m, name, flags) =~= m.update(0, (name, flags)));
    } else {
        let t = m.drop_first();
        assert(m[0].0 != name);
        assert forall|j: int| 0 <= j < n - 1 implies (#[trigger] t[j]).0 != name by {
            assert(t[j] == m[j + 1]);
        }
        lemma_with_flags_at(t, name, flags, n - 1);
        if n < m.len() {
            assert(with_flags(m, name, flags) =~= m.update(n, (name, flags)));
        } else {
            assert(with_flags(m, name, flags) =~= m.push((name, flags)));
        }
    }
}

/// Finds the entry of a name, or the number of entries.
fn find_flags(m: &Vec<(String, u32)>, name: &str) -> (r: usize)
    ensures
        r <= m@.len(),
        forall|j: int| 0 <= j < r ==> (#[trigger] flags_views(m@)[j]).0 != name@,
        r < m@.len() ==> flags_views(m@)[r as int].0 == name@,
{
    let mut i: usize = 0;
    while i < m.len()
        invariant
            i <= m@.len(),
            forall|j: int| 0 <= j < i ==> (#[trigger] flags_views(m@)[j]).0 != name@,
        decreases m@.len() - i,
    {
        assert(flags_views(m@)[i as int] == (m@[i as int].0@, m@[i as int].1));
        if same_text(m[i].0.as_str(), name) {
            return i;
        }
        i = i + 1;
    }
    i
}

/// Collects the flags of the sections by name.
fn collect_flags(sections: &Vec<(Vec<u8>, u32)>) -> (r: Vec<(String, u32)>)
    ensures
        flags_views(r@) == section_flags(raw_views(sections@), sections@.len()),
{
    let ghost raw = raw_views(sections@);
    let mut out: Vec<(String, u32)> = Vec::new();
    let mut i: usize = 0;
    assert(flags_views(out@) =~= Seq::<(Seq<char>, u32)>::empty());
    while i < sections.len()
        invariant
            i <= sections@.len(),
            raw == raw_views(sections@),
            flags_views(out@) == section_flags(raw, i as nat),
        decreases sections@.len() - i,
    {
        assert(raw[i as int] == (sections@[i as int].0@, sections@[i as int].1));
        let ghost before = flags_views(out@);
        if let Some(text) = decode_text(sections[i].0.as_slice()) {
            let name: String = trim_zeros(text);
            if vstd::string::StrSliceExecFns::unicode_len(name.as_str()) > 0 {
                let flags: u32 = sections[i].1;
                let at: usize = find_flags(&out, name.as_str());
                let ghost n = name@;
                proof {
                    lemma_with_flags_at(before, n, flags, at as int);
                }
                if at < out.len() {
                    out.set(at, (name, flags));
                    assert(flags_views(out@) =~= before.update(at as int, (n, flags)));
                } else {
                    out.push((name, flags));
                    assert(flags_views(out@) =~= before.push((n, flags)));
                }
            }
        }
        i = i + 1;
    }
    out
}

/// Makes the header information of header fields and a section table.
pub fn make_info(f: &PeFields, sections: &Vec<(Vec<u8>, u32)>) -> (r: PeHeaderInfo)
    ensures
        r@ == pe_info(*f, raw_views(sections@)),
{
    PeHeaderInfo {
        image_base: f.image_base,
        stack_reserve: f.stack_reserve,
        stack_commit: f.stack_commit,
        heap_reserve: f.heap_reserve,
        heap_commit: f.heap_commit,
        subsystem: f.subsystem,
        major_os_version: f.major_os_version,
        minor_os_version: f.minor_os_version,
        major_subsystem_version: f.major_subsystem_version,
        minor_subsystem_version: f.minor_subsystem_version,
        relocs_stripped: f.characteristics % 2 == 1,
        section_characteristics: collect_flags(sections),
    }
}

impl PeHeaderInfo {
    /// Reads the header information of a 32-bit PE file.
    pub fn parse(data: &[u8]) -> (r: Option<Self>)
        ensures
            match (pe_fields(data@), pe_sections(data@)) {
                (Some(f), Some(s)) => r matches Some(i) && i@ == pe_info(f, s),
                _ => r is None,
            },
    {
        match (read_fields(data), read_sections(data)) {
            (Some(f), Some(s)) => Some(make_info(&f, &s)),
            _ => None,
        }
    }

    /// The name that linkers give the subsystem.
    pub fn subsystem_name(&self) -> (r: &'static str)
        ensures
            r@ == subsystem_text(self@.subsystem),
    {
        if self.subsystem == SUBSYSTEM_WINDOWS_CUI {
            "CONSOLE"
        } else if self.subsystem == SUBSYSTEM_NATIVE {
            "NATIVE"
        } else if self.subsystem == SUBSYSTEM_WINDOWS_CE_GUI {
            "WINDOWSCE"
        } else if self.subsystem == SUBSYSTEM_EFI_APPLICATION {
            "EFI_APPLICATION"
        } else if self.subsystem == SUBSYSTEM_EFI_BOOT_SERVICE_DRIVER {
            "EFI_BOOT_SERVICE_DRIVER"
        } else if self.subsystem == SUBSYSTEM_EFI_RUNTIME_DRIVER {
            "EFI_RUNTIME_DRIVER"
        } else if self.subsystem == SUBSYSTEM_EFI_ROM {
            "EFI_ROM"
        } else if self.subsystem == SUBSYSTEM_XBOX {
            "XBOX"
        } else if self.subsystem == SUBSYSTEM_POSIX_CUI {
            "POSIX"
        } else {
            "WINDOWS"
        }
    }

    /// The letters that linkers take for the flags of a section: `R` read, `W`
    /// write, `E` execute.
    pub fn section_flags_str(&self, section_name: &str) -> (r: &'static str)
        ensures
            r@ == flag_letters(flags_of(self@.section_characteristics, section_name@)),
    {
        let at: usize = find_flags(&self.section_characteristics, section_name);
        proof {
            lemma_with_flags_at(self@.section_characteristics, section_name@, 0, at as int);
        }
        let flags: u32 = if at < self.section_characteristics.len() {
            self.section_characteristics[at].1
        } else {
            0
        };
        assert(flags == flags_of(self@.section_characteristics, section_name@));
        let r: bool = flags / 0x4000_0000 % 2 == 1;
        let w: bool = flags / 0x8000_0000 % 2 == 1;
        let x: bool = flags / 0x2000_0000 % 2 == 1;
        if r && w && x {
            "RWE"
        } else if r && !w && x {
            "RE"
        } else if r && w && !x {
            "RW"
        } else if !r && w && !x {
            "W"
        } else {
            "R"
        }
    }
}

/// The lowest address of the first `n` splits of a section that belong to
/// `unit`, or `least` where that is lower.
pub open spec fn section_least(s: SectionView, unit: Seq<char>, n: nat, least: u64) -> u64
    decreases n,
{
    if n == 0 {
        least
    } else {
        let below = section_least(s, unit, (n - 1) as nat, least);
        let (off, owner) = s.splits[n - 1];
        let va = ((s.address + off) % 0x1_0000_0000_0000_0000) as u64;
        if owner == unit && va < below {
            va
        } else {
            below
        }
    }
}

/// The lowest address at which `unit` has a split in the first `n` sections,
/// the highest possible one where it has none.
pub open spec fn unit_least(s: Seq<SectionView>, unit: Seq<char>, n: nat) -> u64
    decreases n,
{
    if n == 0 {
        u64::MAX
    } else {
        section_least(
            s[n - 1],
            unit,
            s[n - 1].splits.len(),
            unit_least(s, unit, (n - 1) as nat),
        )
    }
}

/// `order` with `x` behind all whose key is not above that of `x`.
pub open spec fn insert_ordered(order: Seq<int>, keys: Seq<u64>, x: int) -> Seq<int>
    decreases order.len(),
{
    if order.len() == 0 || keys[order.last()] <= keys[x] {
        order.push(x)
    } else {
        insert_ordered(order.drop_last(), keys, x).push(order.last())
    }
}

/// The numbers below `n` in the order of their keys, equal ones in their own
/// order.
pub open spec fn key_order(keys: Seq<u64>, n: nat) -> Seq<int>
    decreases n,
{
    if n == 0 {
        Seq::empty()
    } else {
        insert_ordered(key_order(keys, (n - 1) as nat), keys, n - 1)
    }
}

/// Whether two numbers stand in the right order.
pub open spec fn in_order(keys: Seq<u64>, a: int, b: int) -> bool {
    keys[a] < keys[b] || keys[a] == keys[b] && a < b
}

proof fn lemma_insert_ordered(order: Seq<int>, keys: Seq<u64>, x: int)
    requires
        0 <= x,
        forall|i: int| 0 <= i < order.len() ==> 0 <= #[trigger] order[i] < x,
        forall|i: int, j: int|
            0 <= i < j < order.len() ==> in_order(keys, #[trigger] order[i], #[trigger] order[j]),
    ensures
        ({
            let r = insert_ordered(order, keys, x);
            &&& r.len() == order.len() + 1
            &&& r.contains(x)
            &&& forall|i: int| 0 <= i < r.len() ==> 0 <= #[trigger] r[i] <= x
            &&& forall|i: int, j: int|
                0 <= i < j < r.len() ==> in_order(keys, #[trigger] r[i], #[trigger] r[j])
            &&& forall|y: int| order.contains(y) ==> #[trigger] r.contains(y)
            &&& forall|i: int| 0 <= i < r.len() ==> #[trigger] r[i] == x || order.contains(r[i])
        }),
    decreases order.len(),
{
    let r = insert_ordered(order, keys, x);
    if order.len() == 0 || keys[order.last()] <= keys[x] {
        assert(r[r.len() - 1] == x);
        assert forall|i: int| 0 <= i < r.len() implies 0 <= #[trigger] r[i] <= x by {
            if i < order.len() {
                assert(r[i] == order[i]);
            }
        }
        assert forall|i: int, j: int| 0 <= i < j < r.len() implies in_order(
            keys,
            #[trigger] r[i],
            #[trigger] r[j],
        ) by {
            assert(r[i] == order[i]);
            if j == r.len() - 1 && i < order.len() - 1 {
                assert(in_order(keys, order[i], order[order.len() - 1]));
            }
        }
        assert forall|y: int| order.contains(y) implies #[trigger] r.contains(y) by {
            let k = choose|k: int| 0 <= k < order.len() && order[k] == y;
            assert(r[k] == y);
        }
        assert forall|i: int| 0 <= i < r.len() implies #[trigger] r[i] == x || order.contains(
            r[i],
        ) by {
            if i < order.len() {
                assert(r[i] == order[i]);
            }
        }
    } else {
        let rest = order.drop_last();
        let last = order.last();
        assert forall|i: int| 0 <= i < rest.len() implies 0 <= #[trigger] rest[i] < x by {
            assert(rest[i] == order[i]);
        }
        assert forall|i: int, j: int| 0 <= i < j < rest.len() implies in_order(
            keys,
            #[trigger] rest[i],
            #[trigger] rest[j],
        ) by {
            assert(rest[i] == order[i] && rest[j] == order[j]);
        }
        lemma_insert_ordered(rest, keys, x);
        let below = insert_ordered(rest, keys, x);
        assert(last == order[order.len() - 1]);
        assert forall|i: int, j: int| 0 <= i < j < r.len() implies in_order(
            keys,
            #[trigger] r[i],
            #[trigger] r[j],
        ) by {
            assert(r[i] == below[i]);
            if j == r.len() - 1 {
                if r[i] != x {
                    assert(rest.contains(below[i]));
                    let k = choose|k: int| 0 <= k < rest.len() && rest[k] == below[i];
                    assert(rest[k] == order[k]);
                    assert(in_order(keys, order[k], order[order.len() - 1]));
                }
            } else {
                assert(r[j] == below[j]);
            }
        }
        assert(below.contains(x));
        let p = choose|p: int| 0 <= p < below.len() && below[p] == x;
        assert(r[p] == x);
        assert forall|y: int| order.contains(y) implies #[trigger] r.contains(y) by {
            let k = choose|k: int| 0 <= k < order.len() && order[k] == y;
            if k < rest.len() {
                assert(rest[k] == y);
                assert(rest.contains(y));
                assert(below.contains(y));
                let q = choose|q: int| 0 <= q < below.len() && below[q] == y;
                assert(r[q] == y);
            } else {
                assert(r[r.len() - 1] == y);
            }
        }
        assert forall|i: int| 0 <= i < r.len() implies #[trigger] r[i] == x || order.contains(
            r[i],
        ) by {
            if i < below.len() {
                assert(r[i] == below[i]);
                if below[i] != x {
                    let k = choose|k: int| 0 <= k < rest.len() && rest[k] == below[i];
                    assert(order[k] == below[i]);
                }
            } else {
                assert(order[order.len() - 1] == r[i]);
            }
        }
        assert forall|i: int| 0 <= i < r.len() implies 0 <= #[trigger] r[i] <= x by {
            if i < below.len() {
                assert(r[i] == below[i]);
            }
        }
    }
}

/// The order by keys holds every number once, lower keys first and equal ones in
/// their own order.
pub proof fn lemma_key_order(keys: Seq<u64>, n: nat)
    ensures
        key_order(keys, n).len() == n,
        forall|i: int| 0 <= i < n ==> 0 <= #[trigger] key_order(keys, n)[i] < n,
        forall|i: int, j: int|
            0 <= i < j < n ==> in_order(
                keys,
                #[trigger] key_order(keys, n)[i],
                #[trigger] key_order(keys, n)[j],
            ),
        forall|y: int| 0 <= y < n ==> #[trigger] key_order(keys, n).contains(y),
    decreases n,
{
    if n > 0 {
        lemma_key_order(keys, (n - 1) as nat);
        lemma_insert_ordered(key_order(keys, (n - 1) as nat), keys, n - 1);
        assert forall|y: int| 0 <= y < n implies #[trigger] key_order(keys, n).contains(y) by {
            if y < n - 1 {
                assert(key_order(keys, (n - 1) as nat).contains(y));
            }
        }
    }
}

/// The keys of the units: where each one starts.
pub open spec fn unit_keys(obj: ObjView) -> Seq<u64> {
    obj.link_order.map_values(
        |u: UnitView| unit_least(obj.sections, u.name, obj.sections.len()),
    )
}

/// The name of the function at the entry point.
pub open spec fn entry_name(obj: ObjView) -> Option<Seq<char>> {
    match obj.entry {
        None => None,
        Some(e) => match section_at(obj.sections, low32(e)) {
            None => None,
            Some(sec) => {
                let found = kind_indexes_at(
                    obj.symbols,
                    sec,
                    low32(e),
                    ObjSymbolKind::Function,
                    obj.symbols.len(),
                );
                if found.len() > 0 {
                    Some(obj.symbols[found[0]].name)
                } else {
                    None
                }
            },
        },
    }
}

/// `0x` and the number in hexadecimal.
pub open spec fn prefixed_hex(n: u32) -> Seq<char> {
    "0x"@ + lower_hex(n as nat)
}

/// The lines on the file as a whole.
pub open spec fn header_lines(pe: PeView, entry: Option<Seq<char>>) -> Seq<Seq<char>> {
    let base = seq!["/BASE:"@ + prefixed_hex(pe.image_base)];
    let start = match entry {
        Some(name) => seq!["/ENTRY:"@ + name],
        None => Seq::empty(),
    };
    let middle = seq![
        "/SUBSYSTEM:"@ + subsystem_text(pe.subsystem) + ","@ + decimal(
            pe.major_subsystem_version as nat,
        ) + "."@ + decimal(pe.minor_subsystem_version as nat),
        "/STACK:"@ + prefixed_hex(pe.stack_reserve) + ","@ + prefixed_hex(pe.stack_commit),
        "/HEAP:"@ + prefixed_hex(pe.heap_reserve) + ","@ + prefixed_hex(pe.heap_commit),
        "/VERSION:"@ + decimal(pe.major_os_version as nat) + "."@ + decimal(
            pe.minor_os_version as nat,
        ),
        "/NODEFAULTLIB"@,
    ];
    let fixed = if pe.relocs_stripped {
        seq!["/FIXED"@]
    } else {
        Seq::empty()
    };
    base + start + middle + fixed
}

/// The line on a section.
pub open spec fn section_line(pe: PeView, s: SectionView) -> Seq<char> {
    "/SECTION:"@ + s.name + ","@ + flag_letters(flags_of(pe.section_characteristics, s.name))
}

/// The lines of a response file.
pub open spec fn rsp_lines(
    obj: ObjView,
    pe: PeView,
    dir: Seq<char>,
    includes: Seq<Seq<char>>,
) -> Seq<Seq<char>> {
    header_lines(pe, entry_name(obj)) + obj.sections.map_values(
        |s: SectionView| section_line(pe, s),
    ) + includes.map_values(|n: Seq<char>| "/INCLUDE:"@ + n) + key_order(
        unit_keys(obj),
        obj.link_order.len(),
    ).map_values(|i: int| joined(dir, obj.link_order[i].object_path))
}

/// The lines with line breaks between them.
pub open spec fn with_breaks(lines: Seq<Seq<char>>) -> Seq<char>
    decreases lines.len(),
{
    if lines.len() == 0 {
        Seq::empty()
    } else if lines.len() == 1 {
        lines[0]
    } else {
        with_breaks(lines.drop_last()).push('\n') + lines.last()
    }
}

/// The views of a list of texts.
pub open spec fn text_views(s: Seq<String>) -> Seq<Seq<char>> {
    s.map_values(|x: String| x@)
}

/// Finds the lowest address at which `unit` has a split in a section.
fn find_section_least(s: &ObjSection, unit: &str, least: u64) -> (r: u64)
    ensures
        r == section_least(s@, unit@, s@.splits.len(), least),
{
    let mut low: u64 = least;
    let mut i: usize = 0;
    while i < s.splits.len()
        invariant
            i <= s.splits@.len() == s@.splits.len(),
            low == section_least(s@, unit@, i as nat, least),
        decreases s.splits@.len() - i,
    {
        let e = &s.splits[i];
        assert(s@.splits[i as int] == (e.0, e.1.unit@));
        let va: u64 = s.address.wrapping_add(e.0 as u64);
        if same_text(e.1.unit.as_str(), unit) && va < low {
            low = va;
        }
        i = i + 1;
    }
    low
}

/// Finds the lowest address at which `unit` has a split.
fn find_unit_least(sections: &Vec<ObjSection>, unit: &str) -> (r: u64)
    ensures
        r == unit_least(section_views(sections@), unit@, sections@.len()),
{
    let ghost views = section_views(sections@);
    let mut low: u64 = u64::MAX;
    let mut i: usize = 0;
    while i < sections.len()
        invariant
            i <= sections@.len(),
            views == section_views(sections@),
            low == unit_least(views, unit@, i as nat),
        decreases sections@.len() - i,
    {
        assert(views[i as int] == sections@[i as int]@);
        low = find_section_least(&sections[i], unit, low);
        i = i + 1;
    }
    low
}

/// The numbers of a list of indexes.
spec fn as_ints(s: Seq<usize>) -> Seq<int> {
    s.map_values(|i: usize| i as int)
}

/// Where [`insert_ordered`] places its number.
proof fn lemma_insert_at(order: Seq<int>, keys: Seq<u64>, x: int, p: int)
    requires
        0 <= p <= order.len(),
        forall|j: int| p <= j < order.len() ==> keys[#[trigger] order[j]] > keys[x],
        p > 0 ==> keys[order[p - 1]] <= keys[x],
    ensures
        insert_ordered(order, keys, x) == order.insert(p, x),
    decreases order.len(),
{
    if p == order.len() {
        assert(order.insert(p, x) =~= order.push(x));
    } else {
        let rest = order.drop_last();
        assert(keys[order[order.len() - 1]] > keys[x]);
        assert forall|j: int| p <= j < rest.len() implies keys[#[trigger] rest[j]] > keys[x] by {
            assert(rest[j] == order[j]);
        }
        lemma_insert_at(rest, keys, x, p);
        assert(order.insert(p, x) =~= rest.insert(p, x).push(order.last()));
    }
}

/// Inserts `x` behind all whose key is not above that of `x`.
fn insert_by_key(order: &mut Vec<usize>, keys: &Vec<u64>, x: usize)
    requires
        x < keys@.len(),
        forall|i: int| 0 <= i < old(order)@.len() ==> #[trigger] old(order)@[i] < keys@.len(),
    ensures
        as_ints(final(order)@) == insert_ordered(as_ints(old(order)@), keys@, x as int),
        forall|i: int| 0 <= i < final(order)@.len() ==> #[trigger] final(order)@[i] < keys@.len(),
{
    let ghost before = as_ints(order@);
    let mut p: usize = order.len();
    while p > 0 && keys[order[p - 1]] > keys[x]
        invariant
            p <= order@.len(),
            x < keys@.len(),
            *order == *old(order),
            before == as_ints(order@),
            forall|i: int| 0 <= i < order@.len() ==> #[trigger] order@[i] < keys@.len(),
            forall|j: int|
                p <= j < before.len() ==> keys@[#[trigger] before[j]] > keys@[x as int],
        decreases p,
    {
        assert(before[p - 1] == order@[p - 1]);
        p = p - 1;
    }
    proof {
        if p > 0 {
            assert(before[p - 1] == order@[p - 1]);
        }
        lemma_insert_at(before, keys@, x as int, p as int);
    }
    order.insert(p, x);
    assert(as_ints(order@) =~= before.insert(p as int, x as int));
}

/// The units in the order of their lowest addresses.
fn order_units(obj: &ObjInfo) -> (r: Vec<usize>)
    ensures
        as_ints(r@) == key_order(unit_keys(obj@), obj@.link_order.len()),
        forall|i: int| 0 <= i < r@.len() ==> #[trigger] r@[i] < obj@.link_order.len(),
{
    let ghost want = unit_keys(obj@);
    let n: usize = obj.link_order.len();
    let mut keys: Vec<u64> = Vec::new();
    let mut i: usize = 0;
    while i < n
        invariant
            n == obj.link_order@.len() == obj@.link_order.len(),
            i <= n,
            want == unit_keys(obj@),
            keys@ == want.take(i as int),
        decreases n - i,
    {
        assert(obj@.link_order[i as int] == obj.link_order@[i as int]@);
        let key: u64 = find_unit_least(&obj.sections, obj.link_order[i].name.as_str());
        keys.push(key);
        assert(want[i as int] == key);
        assert(keys@ =~= want.take(i + 1));
        i = i + 1;
    }
    assert(keys@ =~= want);
    let mut order: Vec<usize> = Vec::new();
    let mut i: usize = 0;
    assert(as_ints(order@) =~= Seq::<int>::empty());
    while i < n
        invariant
            n == keys@.len() == obj@.link_order.len(),
            i <= n,
            keys@ == want,
            as_ints(order@) == key_order(want, i as nat),
            forall|j: int| 0 <= j < order@.len() ==> #[trigger] order@[j] < n,
        decreases n - i,
    {
        insert_by_key(&mut order, &keys, i);
        i = i + 1;
    }
    order
}

/// Finds the name of the function at the entry point.
fn find_entry_name(obj: &ObjInfo) -> (r: Option<String>)
    ensures
        crate::obj::text_view(r) == entry_name(obj@),
{
    let va: u32 = match obj.entry {
        Some(e) => low_word(e),
        None => return None,
    };
    let sec: usize = match obj.section_at_address(va) {
        Some(s) => s,
        None => return None,
    };
    let mut i: usize = 0;
    while i < obj.symbols.len()
        invariant
            i <= obj.symbols@.len() == obj@.symbols.len(),
            obj@.entry is Some,
            va == low32(obj@.entry->Some_0),
            section_at(obj@.sections, va) == Some(sec),
            kind_indexes_at(
                obj@.symbols,
                sec,
                va,
                ObjSymbolKind::Function,
                i as nat,
            ).len() == 0,
        decreases obj.symbols@.len() - i,
    {
        assert(obj@.symbols[i as int] == obj.symbols@[i as int]@);
        if obj.symbols[i].at(sec, va) && obj.symbols[i].kind == ObjSymbolKind::Function {
            proof {
                lemma_first_kept(
                    obj@.symbols,
                    sec,
                    va,
                    (i + 1) as nat,
                    obj@.symbols.len(),
                );
            }
            return Some(obj.symbols[i].name.clone());
        }
        i = i + 1;
    }
    None
}

/// The first symbol found among the first ones stays the first.
proof fn lemma_first_kept(
    s: Seq<SymbolView>,
    sec: crate::obj::SectionIndex,
    va: u32,
    n: nat,
    all: nat,
)
    requires
        n <= all,
        kind_indexes_at(s, sec, va, ObjSymbolKind::Function, n).len() > 0,
    ensures
        kind_indexes_at(s, sec, va, ObjSymbolKind::Function, all).len() > 0,
        kind_indexes_at(s, sec, va, ObjSymbolKind::Function, all)[0] == kind_indexes_at(
            s,
            sec,
            va,
            ObjSymbolKind::Function,
            n,
        )[0],
    decreases all,
{
    if n < all {
        lemma_first_kept(s, sec, va, n, (all - 1) as nat);
    }
}

/// Appends `0x` and the number in hexadecimal.
fn push_prefixed(s: &mut String, n: u32)
    ensures
        final(s)@ == old(s)@ + prefixed_hex(n),
{
    s.push_str("0x");
    push_lower_hex(s, n);
    assert(s@ =~= old(s)@ + prefixed_hex(n));
}

/// A line of a word and two hexadecimal numbers.
fn hex_pair_line(word: &str, a: u32, b: u32) -> (r: String)
    ensures
        r@ == word@ + prefixed_hex(a) + ","@ + prefixed_hex(b),
{
    let mut s: String = word.to_owned();
    push_prefixed(&mut s, a);
    s.push_str(",");
    push_prefixed(&mut s, b);
    s
}

/// Writes the lines on the file as a whole.
fn write_header_lines(pe: &PeHeaderInfo, entry: Option<String>) -> (r: Vec<String>)
    ensures
        text_views(r@) == header_lines(pe@, crate::obj::text_view(entry)),
{
    let mut lines: Vec<String> = Vec::new();
    let mut base: String = "/BASE:".to_owned();
    push_prefixed(&mut base, pe.image_base);
    lines.push(base);
    assert(text_views(lines@) =~= seq!["/BASE:"@ + prefixed_hex(pe@.image_base)]);
    let ghost first = text_views(lines@);
    let ghost mut start: Seq<Seq<char>> = Seq::empty();
    if let Some(name) = &entry {
        let mut line: String = "/ENTRY:".to_owned();
        line.push_str(name.as_str());
        proof {
            start = seq![line@];
        }
        lines.push(line);
    }
    assert(text_views(lines@) =~= first + start);
    let mut subsystem: String = "/SUBSYSTEM:".to_owned();
    subsystem.push_str(pe.subsystem_name());
    subsystem.push_str(",");
    push_decimal(&mut subsystem, pe.major_subsystem_version as u64);
    subsystem.push_str(".");
    push_decimal(&mut subsystem, pe.minor_subsystem_version as u64);
    lines.push(subsystem);
    let stack: String = hex_pair_line("/STACK:", pe.stack_reserve, pe.stack_commit);
    lines.push(stack);
    let heap: String = hex_pair_line("/HEAP:", pe.heap_reserve, pe.heap_commit);
    lines.push(heap);
    let mut version: String = "/VERSION:".to_owned();
    push_decimal(&mut version, pe.major_os_version as u64);
    version.push_str(".");
    push_decimal(&mut version, pe.minor_os_version as u64);
    lines.push(version);
    lines.push("/NODEFAULTLIB".to_owned());
    let ghost middle = seq![subsystem@, stack@, heap@, version@, "/NODEFAULTLIB"@];
    assert(text_views(lines@) =~= first + start + middle);
    if pe.relocs_stripped {
        lines.push("/FIXED".to_owned());
        assert(text_views(lines@) =~= first + start + middle + seq!["/FIXED"@]);
    }
    assert(text_views(lines@) =~= header_lines(pe@, crate::obj::text_view(entry)));
    lines
}

/// Appends the lines on the sections.
fn write_section_lines(obj: &ObjInfo, pe: &PeHeaderInfo, lines: &mut Vec<String>)
    ensures
        text_views(final(lines)@) == text_views(old(lines)@) + obj@.sections.map_values(
            |s: SectionView| section_line(pe@, s),
        ),
{
    let ghost first = text_views(lines@);
    let ghost all = obj@.sections.map_values(|s: SectionView| section_line(pe@, s));
    let mut i: usize = 0;
    assert(text_views(lines@) =~= first + all.take(0));
    while i < obj.sections.len()
        invariant
            i <= obj.sections@.len() == obj@.sections.len(),
            all == obj@.sections.map_values(|s: SectionView| section_line(pe@, s)),
            text_views(lines@) == first + all.take(i as int),
        decreases obj.sections@.len() - i,
    {
        let s = &obj.sections[i];
        assert(obj@.sections[i as int] == s@);
        let mut line: String = "/SECTION:".to_owned();
        line.push_str(s.name.as_str());
        line.push_str(",");
        line.push_str(pe.section_flags_str(s.name.as_str()));
        assert(line@ == section_line(pe@, s@));
        let ghost before = text_views(lines@);
        lines.push(line);
        assert(text_views(lines@) =~= before.push(line@));
        assert(all.take(i + 1) =~= all.take(i as int).push(line@));
        assert(text_views(lines@) =~= first + all.take(i + 1));
        i = i + 1;
    }
    assert(all.take(i as int) =~= all);
}

/// Appends the lines on the symbols to be kept.
fn write_include_lines(includes: &[String], lines: &mut Vec<String>)
    ensures
        text_views(final(lines)@) == text_views(old(lines)@) + text_views(includes@).map_values(
            |n: Seq<char>| "/INCLUDE:"@ + n,
        ),
{
    let ghost first = text_views(lines@);
    let ghost all = text_views(includes@).map_values(|n: Seq<char>| "/INCLUDE:"@ + n);
    let mut i: usize = 0;
    assert(text_views(lines@) =~= first + all.take(0));
    while i < includes.len()
        invariant
            i <= includes@.len(),
            all == text_views(includes@).map_values(|n: Seq<char>| "/INCLUDE:"@ + n),
            text_views(lines@) == first + all.take(i as int),
        decreases includes@.len() - i,
    {
        let mut line: String = "/INCLUDE:".to_owned();
        line.push_str(includes[i].as_str());
        assert(all[i as int] == line@);
        let ghost before = text_views(lines@);
        lines.push(line);
        assert(text_views(lines@) =~= before.push(line@));
        assert(all.take(i + 1) =~= all.take(i as int).push(line@));
        assert(text_views(lines@) =~= first + all.take(i + 1));
        i = i + 1;
    }
    assert(all.take(i as int) =~= all);
}

/// Appends the object files, in the order of their lowest addresses.
fn write_unit_lines(obj: &ObjInfo, dir: &str, lines: &mut Vec<String>)
    ensures
        text_views(final(lines)@) == text_views(old(lines)@) + key_order(
            unit_keys(obj@),
            obj@.link_order.len(),
        ).map_values(|i: int| joined(dir@, obj@.link_order[i].object_path)),
{
    let order: Vec<usize> = order_units(obj);
    let ghost first = text_views(lines@);
    let ghost all = as_ints(order@).map_values(
        |i: int| joined(dir@, obj@.link_order[i].object_path),
    );
    let mut k: usize = 0;
    assert(text_views(lines@) =~= first + all.take(0));
    while k < order.len()
        invariant
            k <= order@.len(),
            forall|i: int| 0 <= i < order@.len() ==> #[trigger] order@[i] < obj@.link_order.len(),
            obj@.link_order.len() == obj.link_order@.len(),
            all == as_ints(order@).map_values(
                |i: int| joined(dir@, obj@.link_order[i].object_path),
            ),
            text_views(lines@) == first + all.take(k as int),
        decreases order@.len() - k,
    {
        let unit: usize = order[k];
        assert(order@[k as int] < obj@.link_order.len());
        assert(obj@.link_order[unit as int] == obj.link_order@[unit as int]@);
        let line: String = join_path(dir, obj.link_order[unit].object_path.as_str());
        assert(as_ints(order@)[k as int] == unit);
        assert(all[k as int] == line@);
        let ghost before = text_views(lines@);
        lines.push(line);
        assert(text_views(lines@) =~= before.push(line@));
        assert(all.take(k + 1) =~= all.take(k as int).push(line@));
        assert(text_views(lines@) =~= first + all.take(k + 1));
        k = k + 1;
    }
    assert(all.take(k as int) =~= all);
}

/// Puts line breaks between the lines.
fn join_lines(lines: &Vec<String>) -> (r: String)
    ensures
        r@ == with_breaks(text_views(lines@)),
{
    let ghost views = text_views(lines@);
    let mut out: String = String::new();
    let mut i: usize = 0;
    assert(views.take(0) =~= Seq::<Seq<char>>::empty());
    while i < lines.len()
        invariant
            i <= lines@.len(),
            views == text_views(lines@),
            out@ == with_breaks(views.take(i as int)),
        decreases lines@.len() - i,
    {
        let ghost upto = views.take(i + 1);
        assert(upto.drop_last() =~= views.take(i as int));
        assert(upto.last() == lines@[i as int]@);
        if i > 0 {
            out.push('\n');
        }
        out.push_str(lines[i].as_str());
        assert(out@ =~= with_breaks(upto));
        i = i + 1;
    }
    assert(views.take(i as int) =~= views);
    out
}

/// Generates an MSVC/lld-link response file (`link.rsp`) for a PE executable,
/// to be passed to the linker as `lld-link @link.rsp` or `link.exe @link.rsp`.
/// `obj_dir` is the directory of the object files.
pub fn generate_link_rsp(
    obj: &ObjInfo,
    pe: &PeHeaderInfo,
    obj_dir: &str,
    force_includes: &[String],
) -> (r: Result<String, ObjError>)
    ensures
        r matches Ok(s) && s@ == with_breaks(
            rsp_lines(obj@, pe@, obj_dir@, text_views(force_includes@)),
        ),
{
    let mut lines: Vec<String> = write_header_lines(pe, find_entry_name(obj));
    write_section_lines(obj, pe, &mut lines);
    write_include_lines(force_includes, &mut lines);
    write_unit_lines(obj, obj_dir, &mut lines);
    Ok(join_lines(&lines))
}

} // verus!
