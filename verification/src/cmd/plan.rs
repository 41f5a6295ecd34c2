//! The order in which the passes over a binary run.
use vstd::prelude::*;

verus! {

/// A pass over a binary.
#[derive(Clone, Copy, Debug, PartialEq, Eq, Structural)]
pub enum Pass {
    /// Relocations from the base relocation table of a PE file.
    BaseRelocations,
    /// Functions and relative relocations from x86 code.
    AnalyzeCode,
    /// Symbols from a linker map.
    ReadMap,
    /// Splits from their file.
    ReadSplits,
    /// Symbols from their file.
    ReadSymbols,
    /// Relocations that the project blocks or adds.
    ConfiguredRelocations,
    /// Known functions by their signature.
    Signatures,
    /// Function boundaries from PowerPC code.
    FunctionBoundaries,
    /// What the signatures say of other symbols.
    SignaturesPost,
    /// The tables of constructors and destructors.
    ConstructorTables,
    /// Relocations from PowerPC code.
    TrackRelocations,
    /// Object boundaries.
    DetectObjects,
    /// Strings.
    DetectStrings,
    /// Type information of C++ classes.
    DetectRtti,
    /// Sizes of x86 functions.
    FunctionSizes,
    /// A split for each function.
    FunctionSplits,
    /// Splits that cover every section.
    UpdateSplits,
    /// The symbols to their file.
    WriteSymbols,
    /// The splits to their file.
    WriteSplits,
}

/// What a project says about the passes.
#[derive(Clone, Copy, Debug, PartialEq, Eq, Structural)]
pub struct PlanOptions {
    /// The symbols of the project are complete.
    pub symbols_known: bool,
    pub quick_analysis: bool,
    pub detect_objects: bool,
    pub detect_strings: bool,
    /// Leave the files of the project alone.
    pub no_update: bool,
    pub has_map: bool,
    pub has_splits: bool,
    pub has_symbols: bool,
    /// The file states the address that it was linked for.
    pub has_image_base: bool,
}

/// A pass that only runs under a condition.
pub open spec fn when(run: bool, pass: Pass) -> Seq<Pass> {
    if run {
        seq![pass]
    } else {
        Seq::empty()
    }
}

/// The passes that read the files of the project.
pub open spec fn reading(o: PlanOptions) -> Seq<Pass> {
    when(o.has_map, Pass::ReadMap) + when(o.has_splits, Pass::ReadSplits) + when(
        o.has_symbols,
        Pass::ReadSymbols,
    ) + seq![Pass::ConfiguredRelocations]
}

/// The passes that load a PEF file.
pub open spec fn pef_loading(o: PlanOptions) -> Seq<Pass> {
    reading(o) + when(!o.symbols_known, Pass::Signatures) + when(
        !o.symbols_known && !o.quick_analysis,
        Pass::FunctionBoundaries,
    ) + when(!o.symbols_known, Pass::SignaturesPost) + seq![Pass::ConstructorTables]
}

/// The passes that load a COFF or PE file.
pub open spec fn coff_loading(o: PlanOptions) -> Seq<Pass> {
    when(o.has_image_base, Pass::BaseRelocations) + seq![Pass::AnalyzeCode] + reading(o)
}

/// The passes that find objects and strings.
pub open spec fn detecting(o: PlanOptions) -> Seq<Pass> {
    when(!o.symbols_known && o.detect_objects, Pass::DetectObjects) + when(
        o.detect_strings,
        Pass::DetectStrings,
    )
}

/// The passes that settle the splits and write the files of the project.
pub open spec fn settling(o: PlanOptions) -> Seq<Pass> {
    seq![Pass::UpdateSplits] + when(!o.no_update && o.has_symbols, Pass::WriteSymbols) + when(
        !o.no_update && o.has_splits,
        Pass::WriteSplits,
    )
}

/// The passes before a PEF file is split.
pub open spec fn pef_splitting(o: PlanOptions) -> Seq<Pass> {
    seq![Pass::TrackRelocations] + detecting(o) + settling(o)
}

/// The passes before a COFF or PE file is split.
pub open spec fn coff_splitting(o: PlanOptions) -> Seq<Pass> {
    detecting(o) + seq![Pass::DetectRtti, Pass::FunctionSizes] + when(
        !o.symbols_known,
        Pass::FunctionSplits,
    ) + settling(o)
}

/// Whether a pass may add symbols.
pub open spec fn discovers(pass: Pass) -> bool {
    pass == Pass::AnalyzeCode || pass == Pass::ReadMap || pass == Pass::ReadSymbols || pass
        == Pass::ConfiguredRelocations || pass == Pass::DetectObjects || pass
        == Pass::DetectStrings || pass == Pass::DetectRtti
}

/// Whether the sizes of functions are not computed in `s`.
spec fn no_sizes(s: Seq<Pass>) -> bool {
    forall|i: int| 0 <= i < s.len() ==> #[trigger] s[i] != Pass::FunctionSizes
}

/// Whether no pass of `s` may add symbols.
spec fn no_discovery(s: Seq<Pass>) -> bool {
    forall|i: int| 0 <= i < s.len() ==> !discovers(#[trigger] s[i])
}

/// Loading computes no sizes.
proof fn lemma_loading(o: PlanOptions)
    ensures
        no_sizes(coff_loading(o)),
{
    assert(no_sizes(reading(o)));
    let first = when(o.has_image_base, Pass::BaseRelocations) + seq![Pass::AnalyzeCode];
    assert(no_sizes(first));
}

/// What follows the sizes adds no symbols.
proof fn lemma_settling(o: PlanOptions)
    ensures
        no_sizes(when(!o.symbols_known, Pass::FunctionSplits) + settling(o)),
        no_discovery(when(!o.symbols_known, Pass::FunctionSplits) + settling(o)),
{
    assert(no_sizes(settling(o)) && no_discovery(settling(o)));
}

/// A plan with the sizes in one place only, and no discovery behind it.
proof fn lemma_one_place(head: Seq<Pass>, tail: Seq<Pass>, i: int, k: int)
    requires
        no_sizes(head),
        no_sizes(tail),
        no_discovery(tail),
        0 <= i < head.len() + 1 + tail.len(),
        0 <= k < head.len() + 1 + tail.len(),
        (head + seq![Pass::FunctionSizes] + tail)[k] == Pass::FunctionSizes,
    ensures
        discovers((head + seq![Pass::FunctionSizes] + tail)[i]) ==> i < k,
        (head + seq![Pass::FunctionSizes] + tail)[i] == Pass::FunctionSizes ==> i == k,
{
    let all = head + seq![Pass::FunctionSizes] + tail;
    assert(forall|j: int| 0 <= j < head.len() ==> all[j] == head[j]);
    assert(forall|j: int|
        head.len() < j < all.len() ==> all[j] == tail[j - head.len() - 1]);
}

/// The sizes of functions are computed once, after every pass that may add symbols,
/// so that they stop at every function entry.
pub proof fn lemma_sizes_last(o: PlanOptions, i: int, k: int)
    requires
        0 <= i < (coff_loading(o) + coff_splitting(o)).len(),
        0 <= k < (coff_loading(o) + coff_splitting(o)).len(),
        (coff_loading(o) + coff_splitting(o))[k] == Pass::FunctionSizes,
    ensures
        discovers((coff_loading(o) + coff_splitting(o))[i]) ==> i < k,
        (coff_loading(o) + coff_splitting(o))[i] == Pass::FunctionSizes ==> i == k,
{
    lemma_loading(o);
    lemma_settling(o);
    let found = detecting(o) + seq![Pass::DetectRtti];
    assert(no_sizes(found));
    let head = coff_loading(o) + found;
    let tail = when(!o.symbols_known, Pass::FunctionSplits) + settling(o);
    lemma_parts(
        coff_loading(o),
        detecting(o),
        when(!o.symbols_known, Pass::FunctionSplits),
        settling(o),
    );
    lemma_one_place(head, tail, i, k);
}

/// The parts of the plan, put together in another way.
proof fn lemma_parts(a: Seq<Pass>, b: Seq<Pass>, c: Seq<Pass>, d: Seq<Pass>)
    ensures
        a + (b + seq![Pass::DetectRtti, Pass::FunctionSizes] + c + d) == a + (b
            + seq![Pass::DetectRtti]) + seq![Pass::FunctionSizes] + (c + d),
{
    assert(a + (b + seq![Pass::DetectRtti, Pass::FunctionSizes] + c + d) =~= a + (b
        + seq![Pass::DetectRtti]) + seq![Pass::FunctionSizes] + (c + d));
}

/// With `no_update` the files of the project are not written.
pub proof fn lemma_no_update(o: PlanOptions)
    requires
        o.no_update,
    ensures
        forall|i: int|
            0 <= i < pef_splitting(o).len() ==> #[trigger] pef_splitting(o)[i]
                != Pass::WriteSymbols && pef_splitting(o)[i] != Pass::WriteSplits,
        forall|i: int|
            0 <= i < coff_splitting(o).len() ==> #[trigger] coff_splitting(o)[i]
                != Pass::WriteSymbols && coff_splitting(o)[i] != Pass::WriteSplits,
{
}

/// Appends a pass that only runs under a condition.
fn push_when(out: &mut Vec<Pass>, run: bool, pass: Pass)
    ensures
        final(out)@ == old(out)@ + when(run, pass),
{
    if run {
        out.push(pass);
    }
    assert(out@ =~= old(out)@ + when(run, pass));
}

/// Appends the passes that read the files of the project.
fn push_reading(out: &mut Vec<Pass>, o: &PlanOptions)
    ensures
        final(out)@ == old(out)@ + reading(*o),
{
    push_when(out, o.has_map, Pass::ReadMap);
    push_when(out, o.has_splits, Pass::ReadSplits);
    push_when(out, o.has_symbols, Pass::ReadSymbols);
    out.push(Pass::ConfiguredRelocations);
    assert(out@ =~= old(out)@ + reading(*o));
}

/// Appends the passes that find objects and strings.
fn push_detecting(out: &mut Vec<Pass>, o: &PlanOptions)
    ensures
        final(out)@ == old(out)@ + detecting(*o),
{
    push_when(out, !o.symbols_known && o.detect_objects, Pass::DetectObjects);
    push_when(out, o.detect_strings, Pass::DetectStrings);
    assert(out@ =~= old(out)@ + detecting(*o));
}

/// Appends the passes that settle the splits and write the files of the project.
fn push_settling(out: &mut Vec<Pass>, o: &PlanOptions)
    ensures
        final(out)@ == old(out)@ + settling(*o),
{
    out.push(Pass::UpdateSplits);
    push_when(out, !o.no_update && o.has_symbols, Pass::WriteSymbols);
    push_when(out, !o.no_update && o.has_splits, Pass::WriteSplits);
    assert(out@ =~= old(out)@ + settling(*o));
}

/// The passes that load a PEF file.
pub fn pef_load_plan(o: &PlanOptions) -> (r: Vec<Pass>)
    ensures
        r@ == pef_loading(*o),
{
    let mut out: Vec<Pass> = Vec::new();
    push_reading(&mut out, o);
    push_when(&mut out, !o.symbols_known, Pass::Signatures);
    push_when(&mut out, !o.symbols_known && !o.quick_analysis, Pass::FunctionBoundaries);
    push_when(&mut out, !o.symbols_known, Pass::SignaturesPost);
    out.push(Pass::ConstructorTables);
    assert(out@ =~= pef_loading(*o));
    out
}

/// The passes that load a COFF or PE file.
pub fn coff_load_plan(o: &PlanOptions) -> (r: Vec<Pass>)
    ensures
        r@ == coff_loading(*o),
{
    let mut out: Vec<Pass> = Vec::new();
    push_when(&mut out, o.has_image_base, Pass::BaseRelocations);
    out.push(Pass::AnalyzeCode);
    push_reading(&mut out, o);
    assert(out@ =~= coff_loading(*o));
    out
}

/// The passes before a PEF file is split.
pub fn pef_split_plan(o: &PlanOptions) -> (r: Vec<Pass>)
    ensures
        r@ == pef_splitting(*o),
{
    let mut out: Vec<Pass> = Vec::new();
    out.push(Pass::TrackRelocations);
    push_detecting(&mut out, o);
    push_settling(&mut out, o);
    assert(out@ =~= pef_splitting(*o));
    out
}

/// The passes before a COFF or PE file is split.
pub fn coff_split_plan(o: &PlanOptions) -> (r: Vec<Pass>)
    ensures
        r@ == coff_splitting(*o),
{
    let mut out: Vec<Pass> = Vec::new();
    push_detecting(&mut out, o);
    out.push(Pass::DetectRtti);
    out.push(Pass::FunctionSizes);
    push_when(&mut out, !o.symbols_known, Pass::FunctionSplits);
    push_settling(&mut out, o);
    assert(out@ =~= coff_splitting(*o));
    out
}

} // verus!
