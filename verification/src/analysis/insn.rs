//! Decoded x86 instructions and the code bytes they come from.
use vstd::prelude::*;

use iced_x86::{Code, Decoder, DecoderOptions, FlowControl, Mnemonic, OpKind};

use crate::obj::{ObjSection, ObjSectionKind, SectionIndex, SectionView, section_views};

verus! {

/// Bytes of the longest x86 instruction.
pub const MAX_INSN_LEN: u32 = 15;

/// Where control goes after an instruction.
#[derive(Clone, Copy, Debug, PartialEq, Eq, Structural)]
pub enum X86Flow {
    Next,
    UnconditionalBranch,
    IndirectBranch,
    ConditionalBranch,
    Return,
    Call,
    IndirectCall,
    Interrupt,
    XbeginXabortXend,
    Exception,
}

/// The kinds of first operand that the analysis tells apart.
#[derive(Clone, Copy, Debug, PartialEq, Eq, Structural)]
pub enum X86Operand {
    NearBranch32,
    Memory,
    Other,
}

/// The opcodes that the analysis tells apart.
#[derive(Clone, Copy, Debug, PartialEq, Eq, Structural)]
pub enum X86Code {
    CallRel32,
    Int3,
    Other,
}

/// One decoded instruction.
#[derive(Clone, Copy, Debug, PartialEq, Eq, Structural)]
pub struct X86Insn {
    pub valid: bool,
    pub len: u32,
    pub op0: X86Operand,
    /// Branch target, where the first operand is a near branch.
    pub near_branch: u32,
    /// Displacement, where the first operand is in memory.
    pub displacement: u64,
    pub code: X86Code,
    pub nop: bool,
}

/// The first instruction of `bytes`, placed at `ip`, in 32-bit mode.
pub uninterp spec fn x86_decode(bytes: Seq<u8>, ip: u32) -> X86Insn;

/// Where the first instruction of `bytes`, placed at `ip`, passes control.
pub uninterp spec fn x86_flow(bytes: Seq<u8>, ip: u32) -> X86Flow;

/// `iced_x86::Decoder::with_ip` in 32-bit mode without options, then `decode`:
/// validity, length, first operand, opcode and mnemonic of the instruction.
/// The result is a function of the bytes and the address alone. A valid
/// instruction takes from 1 to 15 of the bytes given.
#[verifier::external_body]
pub(crate) fn decode_insn(bytes: &[u8], ip: u32) -> (r: X86Insn)
    ensures
        r == x86_decode(bytes@, ip),
        r.valid ==> 1 <= r.len <= MAX_INSN_LEN && r.len <= bytes@.len(),
{
    let i = Decoder::with_ip(32, bytes, ip as u64, DecoderOptions::NONE).decode();
    let op0 = match i.op0_kind() {
        OpKind::NearBranch32 => X86Operand::NearBranch32,
        OpKind::Memory => X86Operand::Memory,
        _ => X86Operand::Other,
    };
    let code = match i.code() {
        Code::Call_rel32_32 => X86Code::CallRel32,
        Code::Int3 => X86Code::Int3,
        _ => X86Code::Other,
    };
    let (near_branch, displacement) = (i.near_branch32(), i.memory_displacement64());
    let (valid, len, nop) = (!i.is_invalid(), i.len() as u32, i.mnemonic() == Mnemonic::Nop);
    X86Insn { valid, len, op0, near_branch, displacement, code, nop }
}

/// `iced_x86::Instruction::flow_control` of the same instruction, again a
/// function of the bytes and the address alone.
#[verifier::external_body]
pub(crate) fn decode_flow(bytes: &[u8], ip: u32) -> (r: X86Flow)
    ensures
        r == x86_flow(bytes@, ip),
{
    let i = Decoder::with_ip(32, bytes, ip as u64, DecoderOptions::NONE).decode();
    match i.flow_control() {
        FlowControl::Next => X86Flow::Next,
        FlowControl::UnconditionalBranch => X86Flow::UnconditionalBranch,
        FlowControl::IndirectBranch => X86Flow::IndirectBranch,
        FlowControl::ConditionalBranch => X86Flow::ConditionalBranch,
        FlowControl::Return => X86Flow::Return,
        FlowControl::Call => X86Flow::Call,
        FlowControl::IndirectCall => X86Flow::IndirectCall,
        FlowControl::Interrupt => X86Flow::Interrupt,
        FlowControl::XbeginXabortXend => X86Flow::XbeginXabortXend,
        FlowControl::Exception => X86Flow::Exception,
    }
}

/// The bytes of one code section.
pub struct CodeSection {
    pub index: SectionIndex,
    pub base: u64,
    pub data: Vec<u8>,
}

/// What a [`CodeSection`] holds.
pub ghost struct CodeView {
    pub index: SectionIndex,
    pub base: u64,
    pub data: Seq<u8>,
}

impl View for CodeSection {
    type V = CodeView;

    open spec fn view(&self) -> CodeView {
        CodeView { index: self.index, base: self.base, data: self.data@ }
    }
}

impl CodeView {
    /// Whether `va` is the address of one of the bytes.
    pub open spec fn holds(self, va: u32) -> bool {
        self.base <= va < self.base + self.data.len()
    }

    /// The bytes from `va` to the end.
    pub open spec fn from(self, va: u32) -> Seq<u8> {
        self.data.subrange(va - self.base, self.data.len() as int)
    }

    /// The instruction at `va`.
    pub open spec fn insn(self, va: u32) -> X86Insn {
        x86_decode(self.from(va), va)
    }

    /// Whether a valid instruction that ends in the section stands at `va`.
    pub open spec fn decodes(self, va: u32) -> bool {
        let i = self.insn(va);
        self.holds(va) && i.valid && 1 <= i.len <= MAX_INSN_LEN && i.len <= self.from(va).len()
    }

    /// Whether the addresses of the section, and the one behind it, are 32-bit
    /// values, if its first one is.
    pub open spec fn fits(self) -> bool {
        self.base <= u32::MAX ==> self.base + self.data.len() <= u32::MAX
    }
}

/// The views of a list of code sections.
pub open spec fn code_views(s: Seq<CodeSection>) -> Seq<CodeView> {
    s.map_values(|x: CodeSection| x@)
}

/// The code sections among the first `n` sections that have bytes.
pub open spec fn code_sections(s: Seq<SectionView>, n: nat) -> Seq<CodeView>
    decreases n,
{
    if n == 0 {
        Seq::empty()
    } else {
        let below = code_sections(s, (n - 1) as nat);
        let last = s[n - 1];
        if last.kind == ObjSectionKind::Code && last.data.len() > 0 {
            below.push(CodeView { index: (n - 1) as usize, base: last.address, data: last.data })
        } else {
            below
        }
    }
}

/// The bytes of those among the first `n` sections that hold initialised data.
pub open spec fn data_sections(s: Seq<SectionView>, n: nat) -> Seq<Seq<u8>>
    decreases n,
{
    if n == 0 {
        Seq::empty()
    } else {
        let below = data_sections(s, (n - 1) as nat);
        let last = s[n - 1];
        if last.kind != ObjSectionKind::Code && last.kind != ObjSectionKind::Bss
            && last.data.len() > 0 {
            below.push(last.data)
        } else {
            below
        }
    }
}

/// Whether all of the code sections fit into the 32-bit address space.
pub open spec fn all_fit(s: Seq<CodeView>) -> bool {
    forall|i: int| 0 <= i < s.len() ==> (#[trigger] s[i]).fits()
}

/// Whether each code section stands at an index below `n`.
pub open spec fn indexes_below(s: Seq<CodeView>, n: nat) -> bool {
    forall|i: int| 0 <= i < s.len() ==> (#[trigger] s[i]).index < n
}

/// The first code section that holds `va`.
pub open spec fn code_at(s: Seq<CodeView>, va: u32) -> Option<int>
    decreases s.len(),
{
    if s.len() == 0 {
        None
    } else {
        match code_at(s.drop_last(), va) {
            Some(i) => Some(i),
            None => if s.last().holds(va) {
                Some(s.len() - 1)
            } else {
                None
            },
        }
    }
}

/// What [`code_at`] finds.
pub proof fn lemma_code_at(s: Seq<CodeView>, va: u32)
    ensures
        code_at(s, va) matches Some(i) ==> 0 <= i < s.len() && s[i].holds(va) && forall|j: int|
            0 <= j < i ==> !(#[trigger] s[j]).holds(va),
        code_at(s, va) is None ==> forall|j: int|
            0 <= j < s.len() ==> !(#[trigger] s[j]).holds(va),
    decreases s.len(),
{
    if s.len() > 0 {
        lemma_code_at(s.drop_last(), va);
        assert forall|j: int| 0 <= j < s.len() - 1 implies #[trigger] s[j] == s.drop_last()[j] by {}
    }
}

/// The code sections lie at indexes of the section list.
pub proof fn lemma_code_sections(s: Seq<SectionView>, n: nat)
    requires
        n <= s.len() <= usize::MAX,
    ensures
        indexes_below(code_sections(s, n), n),
    decreases n,
{
    if n > 0 {
        lemma_code_sections(s, (n - 1) as nat);
    }
}

/// Copies out the code sections.
pub fn snapshot_code(sections: &Vec<ObjSection>) -> (r: Vec<CodeSection>)
    ensures
        code_views(r@) == code_sections(section_views(sections@), sections@.len()),
{
    let mut out: Vec<CodeSection> = Vec::new();
    let mut i: usize = 0;
    while i < sections.len()
        invariant
            i <= sections@.len(),
            code_views(out@) == code_sections(section_views(sections@), i as nat),
        decreases sections@.len() - i,
    {
        let s = &sections[i];
        assert(section_views(sections@)[i as int] == s@);
        if s.kind == ObjSectionKind::Code && s.data.len() > 0 {
            let ghost old_out = out@;
            let c = CodeSection {
                index: i,
                base: s.address,
                data: vstd::slice::slice_to_vec(s.data.as_slice()),
            };
            out.push(c);
            assert(c@.data =~= s@.data);
            assert(code_views(out@) =~= code_views(old_out).push(c@));
        }
        i = i + 1;
    }
    out
}

/// Copies out the bytes of the initialised data sections.
pub fn snapshot_data(sections: &Vec<ObjSection>) -> (r: Vec<Vec<u8>>)
    ensures
        r@.map_values(|v: Vec<u8>| v@) == data_sections(
            section_views(sections@),
            sections@.len(),
        ),
{
    let mut out: Vec<Vec<u8>> = Vec::new();
    let mut i: usize = 0;
    while i < sections.len()
        invariant
            i <= sections@.len(),
            out@.map_values(|v: Vec<u8>| v@) == data_sections(section_views(sections@), i as nat),
        decreases sections@.len() - i,
    {
        let s = &sections[i];
        assert(section_views(sections@)[i as int] == s@);
        if s.kind != ObjSectionKind::Code && s.kind != ObjSectionKind::Bss && s.data.len() > 0 {
            let ghost old_out = out@.map_values(|v: Vec<u8>| v@);
            let d = vstd::slice::slice_to_vec(s.data.as_slice());
            assert(d@ =~= s@.data);
            out.push(d);
            assert(out@.map_values(|v: Vec<u8>| v@) =~= old_out.push(s@.data));
        }
        i = i + 1;
    }
    out
}

/// Finds the first code section that holds `va`.
pub fn find_code(snap: &Vec<CodeSection>, va: u32) -> (r: Option<usize>)
    ensures
        r is Some <==> code_at(code_views(snap@), va) is Some,
        r matches Some(k) ==> code_at(code_views(snap@), va) == Some(k as int) && k < snap@.len()
            && code_views(snap@)[k as int].holds(va) && snap@[k as int]@.holds(va),
{
    let mut i: usize = 0;
    proof {
        lemma_code_at(code_views(snap@), va);
    }
    while i < snap.len()
        invariant
            i <= snap@.len(),
            forall|j: int| 0 <= j < i ==> !(#[trigger] code_views(snap@)[j]).holds(va),
            code_at(code_views(snap@), va) matches Some(k) ==> 0 <= k < snap@.len() && code_views(
                snap@,
            )[k].holds(va) && forall|j: int|
                0 <= j < k ==> !(#[trigger] code_views(snap@)[j]).holds(va),
            code_at(code_views(snap@), va) is None ==> forall|j: int|
                0 <= j < snap@.len() ==> !(#[trigger] code_views(snap@)[j]).holds(va),
        decreases snap@.len() - i,
    {
        let c = &snap[i];
        assert(code_views(snap@)[i as int] == c@);
        if va as u64 >= c.base && va as u64 - c.base < c.data.len() as u64 {
            assert(code_views(snap@)[i as int].holds(va));
            return Some(i);
        }
        i = i + 1;
    }
    None
}

/// Decodes the instruction at `va` in `code`.
pub fn insn_at(code: &CodeSection, va: u32) -> (r: X86Insn)
    requires
        code@.holds(va),
    ensures
        r == code@.insn(va),
        r.valid == code@.decodes(va),
{
    let off: usize = (va as u64 - code.base) as usize;
    let tail = vstd::slice::slice_subrange(code.data.as_slice(), off, code.data.len());
    assert(tail@ =~= code@.from(va));
    decode_insn(tail, va)
}

/// Finds where the instruction at `va` in `code` passes control.
pub fn flow_at(code: &CodeSection, va: u32) -> (r: X86Flow)
    requires
        code@.holds(va),
    ensures
        r == x86_flow(code@.from(va), va),
{
    let off: usize = (va as u64 - code.base) as usize;
    let tail = vstd::slice::slice_subrange(code.data.as_slice(), off, code.data.len());
    assert(tail@ =~= code@.from(va));
    decode_flow(tail, va)
}

/// Returns whether `va` is the address of a valid instruction.
pub fn decode_valid(va: u32, snap: &Vec<CodeSection>) -> (r: bool)
    ensures
        r == (code_at(code_views(snap@), va) matches Some(k) && code_views(snap@)[k].decodes(va)),
{
    match find_code(snap, va) {
        Some(k) => insn_at(&snap[k], va).valid,
        None => false,
    }
}

/// Whether the code sections fit into the 32-bit address space.
pub fn code_fits(sections: &Vec<ObjSection>) -> (r: bool)
    ensures
        r == all_fit(code_sections(section_views(sections@), sections@.len())),
{
    let ghost views = section_views(sections@);
    let mut fit = true;
    let mut i: usize = 0;
    while i < sections.len()
        invariant
            i <= sections@.len(),
            views == section_views(sections@),
            fit == all_fit(code_sections(views, i as nat)),
        decreases sections@.len() - i,
    {
        let s = &sections[i];
        assert(views[i as int] == s@);
        let ghost below = code_sections(views, i as nat);
        let ghost all = code_sections(views, (i + 1) as nat);
        if s.kind == ObjSectionKind::Code && s.data.len() > 0 {
            let own: bool = s.address > u32::MAX as u64 || s.data.len() as u64 <= u32::MAX as u64
                - s.address;
            proof {
                let last = all.last();
                assert(all =~= below.push(last));
                assert(own == last.fits());
                if all_fit(all) {
                    assert forall|k: int| 0 <= k < below.len() implies (
                    #[trigger] below[k]).fits() by {
                        assert(all[k] == below[k]);
                    }
                    assert(all[all.len() - 1].fits());
                }
            }
            fit = fit && own;
        }
        i = i + 1;
    }
    fit
}

} // verus!
