//! Which passes run, and in what order.
use vstd::prelude::*;

use crate::cmd::plan::{Pass, PlanOptions, coff_loading, coff_splitting, pef_loading, pef_splitting};

verus! {

/// Where a pass comes in the order in which the passes over a PEF file run.
pub open spec fn pef_rank(p: Pass) -> int {
    match p {
        Pass::ReadMap => 1,
        Pass::ReadSplits => 2,
        Pass::ReadSymbols => 3,
        Pass::ConfiguredRelocations => 4,
        Pass::Signatures => 5,
        Pass::FunctionBoundaries => 6,
        Pass::SignaturesPost => 7,
        Pass::ConstructorTables => 8,
        Pass::TrackRelocations => 9,
        Pass::DetectObjects => 10,
        Pass::DetectStrings => 11,
        Pass::UpdateSplits => 12,
        Pass::WriteSymbols => 13,
        Pass::WriteSplits => 14,
        _ => 0,
    }
}

/// Where a pass comes in the order in which the passes over a COFF or PE file run.
pub open spec fn coff_rank(p: Pass) -> int {
    match p {
        Pass::BaseRelocations => 1,
        Pass::AnalyzeCode => 2,
        Pass::ReadMap => 3,
        Pass::ReadSplits => 4,
        Pass::ReadSymbols => 5,
        Pass::ConfiguredRelocations => 6,
        Pass::DetectObjects => 7,
        Pass::DetectStrings => 8,
        Pass::DetectRtti => 9,
        Pass::FunctionSizes => 10,
        Pass::FunctionSplits => 11,
        Pass::UpdateSplits => 12,
        Pass::WriteSymbols => 13,
        Pass::WriteSplits => 14,
        _ => 0,
    }
}

/// Whether a pass runs over a PEF file when it is loaded.
pub open spec fn pef_loads(o: PlanOptions, p: Pass) -> bool {
    match p {
        Pass::ReadMap => o.has_map,
        Pass::ReadSplits => o.has_splits,
        Pass::ReadSymbols => o.has_symbols,
        Pass::ConfiguredRelocations | Pass::ConstructorTables => true,
        Pass::Signatures | Pass::SignaturesPost => !o.symbols_known,
        Pass::FunctionBoundaries => !o.symbols_known && !o.quick_analysis,
        _ => false,
    }
}

/// Whether a pass runs over a PEF file before it is split.
pub open spec fn pef_splits(o: PlanOptions, p: Pass) -> bool {
    match p {
        Pass::TrackRelocations | Pass::UpdateSplits => true,
        Pass::DetectObjects => !o.symbols_known && o.detect_objects,
        Pass::DetectStrings => o.detect_strings,
        Pass::WriteSymbols => o.has_symbols && !o.no_update,
        Pass::WriteSplits => o.has_splits && !o.no_update,
        _ => false,
    }
}

/// Whether a pass runs over a COFF or PE file when it is loaded.
pub open spec fn coff_loads(o: PlanOptions, p: Pass) -> bool {
    match p {
        Pass::BaseRelocations => o.has_image_base,
        Pass::AnalyzeCode | Pass::ConfiguredRelocations => true,
        Pass::ReadMap => o.has_map,
        Pass::ReadSplits => o.has_splits,
        Pass::ReadSymbols => o.has_symbols,
        _ => false,
    }
}

/// Whether a pass runs over a COFF or PE file before it is split.
pub open spec fn coff_splits(o: PlanOptions, p: Pass) -> bool {
    match p {
        Pass::DetectRtti | Pass::FunctionSizes | Pass::UpdateSplits => true,
        Pass::DetectObjects => !o.symbols_known && o.detect_objects,
        Pass::DetectStrings => o.detect_strings,
        Pass::FunctionSplits => !o.symbols_known,
        Pass::WriteSymbols => o.has_symbols && !o.no_update,
        Pass::WriteSplits => o.has_splits && !o.no_update,
        _ => false,
    }
}

spec fn all_from(s: Seq<Pass>, rank: spec_fn(Pass) -> int, low: int, high: int) -> bool {
    &&& forall|i: int| 0 <= i < s.len() ==> low <= rank(#[trigger] s[i]) <= high
    &&& forall|i: int, j: int|
        0 <= i < j < s.len() ==> rank(#[trigger] s[i]) < rank(#[trigger] s[j])
}

proof fn lemma_joined(
    a: Seq<Pass>,
    b: Seq<Pass>,
    rank: spec_fn(Pass) -> int,
    low: int,
    mid: int,
    high: int,
)
    requires
        low <= mid < high,
        all_from(a, rank, low, mid),
        all_from(b, rank, mid + 1, high),
    ensures
        all_from(a + b, rank, low, high),
        forall|p: Pass| #[trigger] (a + b).contains(p) <==> a.contains(p) || b.contains(p),
{
    let s = a + b;
    assert forall|i: int| 0 <= i < s.len() implies low <= rank(#[trigger] s[i]) <= high by {
        if i < a.len() {
            assert(s[i] == a[i]);
        } else {
            assert(s[i] == b[i - a.len()]);
        }
    }
    assert forall|i: int, j: int| 0 <= i < j < s.len() implies rank(#[trigger] s[i]) < rank(
        #[trigger] s[j],
    ) by {
        if j < a.len() {
            assert(s[i] == a[i] && s[j] == a[j]);
        } else if i < a.len() {
            assert(s[i] == a[i] && s[j] == b[j - a.len()]);
        } else {
            assert(s[i] == b[i - a.len()] && s[j] == b[j - a.len()]);
        }
    }
    assert forall|p: Pass| #[trigger] s.contains(p) <==> a.contains(p) || b.contains(p) by {
        if a.contains(p) {
            let i = choose|i: int| 0 <= i < a.len() && a[i] == p;
            assert(s[i] == p);
        }
        if b.contains(p) {
            let i = choose|i: int| 0 <= i < b.len() && b[i] == p;
            assert(s[a.len() + i] == p);
        }
        if s.contains(p) {
            let i = choose|i: int| 0 <= i < s.len() && s[i] == p;
            if i < a.len() {
                assert(a[i] == p);
            } else {
                assert(b[i - a.len()] == p);
            }
        }
    }
}

proof fn lemma_when(run: bool, pass: Pass, rank: spec_fn(Pass) -> int)
    ensures
        all_from(crate::cmd::plan::when(run, pass), rank, rank(pass), rank(pass)),
        forall|p: Pass| #[trigger] crate::cmd::plan::when(run, pass).contains(p) <==> run && p == pass,
        crate::cmd::plan::when(true, pass) == seq![pass],
{
    assert forall|p: Pass| #[trigger] crate::cmd::plan::when(run, pass).contains(p) <==> run && p == pass by {
        if run {
            assert(crate::cmd::plan::when(run, pass)[0] == pass);
        }
    }
}

spec fn pef_order() -> spec_fn(Pass) -> int {
    |p: Pass| pef_rank(p)
}

spec fn coff_order() -> spec_fn(Pass) -> int {
    |p: Pass| coff_rank(p)
}

/// The passes that load a PEF file: each one whose condition holds runs once, in the
/// order of the ranks, and no other.
pub proof fn lemma_pef_load(o: PlanOptions)
    ensures
        forall|p: Pass| #[trigger] pef_loading(o).contains(p) <==> pef_loads(o, p),
        forall|i: int, j: int|
            0 <= i < j < pef_loading(o).len() ==> pef_rank(#[trigger] pef_loading(o)[i])
                < pef_rank(#[trigger] pef_loading(o)[j]),
{
    let r = pef_order();
    let a = crate::cmd::plan::when(o.has_map, Pass::ReadMap);
    let b = crate::cmd::plan::when(o.has_splits, Pass::ReadSplits);
    let c = crate::cmd::plan::when(o.has_symbols, Pass::ReadSymbols);
    let d = seq![Pass::ConfiguredRelocations];
    let e = crate::cmd::plan::when(!o.symbols_known, Pass::Signatures);
    let f = crate::cmd::plan::when(!o.symbols_known && !o.quick_analysis, Pass::FunctionBoundaries);
    let g = crate::cmd::plan::when(!o.symbols_known, Pass::SignaturesPost);
    let h = seq![Pass::ConstructorTables];
    lemma_when(o.has_map, Pass::ReadMap, r);
    lemma_when(o.has_splits, Pass::ReadSplits, r);
    lemma_when(o.has_symbols, Pass::ReadSymbols, r);
    lemma_when(true, Pass::ConfiguredRelocations, r);
    lemma_when(!o.symbols_known, Pass::Signatures, r);
    lemma_when(!o.symbols_known && !o.quick_analysis, Pass::FunctionBoundaries, r);
    lemma_when(!o.symbols_known, Pass::SignaturesPost, r);
    lemma_when(true, Pass::ConstructorTables, r);
    lemma_joined(a, b, r, 1, 1, 2);
    lemma_joined(a + b, c, r, 1, 2, 3);
    lemma_joined(a + b + c, d, r, 1, 3, 4);
    lemma_joined(a + b + c + d, e, r, 1, 4, 5);
    lemma_joined(a + b + c + d + e, f, r, 1, 5, 6);
    lemma_joined(a + b + c + d + e + f, g, r, 1, 6, 7);
    lemma_joined(a + b + c + d + e + f + g, h, r, 1, 7, 8);
    assert(pef_loading(o) == a + b + c + d + e + f + g + h);
    assert forall|i: int, j: int| 0 <= i < j < pef_loading(o).len() implies pef_rank(
        #[trigger] pef_loading(o)[i],
    ) < pef_rank(#[trigger] pef_loading(o)[j]) by {
        assert(r(pef_loading(o)[i]) < r(pef_loading(o)[j]));
    }
}

/// The passes before a PEF file is split: each one whose condition holds runs once, in
/// the order of the ranks, and no other.
pub proof fn lemma_pef_split(o: PlanOptions)
    ensures
        forall|p: Pass| #[trigger] pef_splitting(o).contains(p) <==> pef_splits(o, p),
        forall|i: int, j: int|
            0 <= i < j < pef_splitting(o).len() ==> pef_rank(#[trigger] pef_splitting(o)[i])
                < pef_rank(#[trigger] pef_splitting(o)[j]),
{
    let r = pef_order();
    let a = seq![Pass::TrackRelocations];
    let b = crate::cmd::plan::when(!o.symbols_known && o.detect_objects, Pass::DetectObjects);
    let c = crate::cmd::plan::when(o.detect_strings, Pass::DetectStrings);
    let d = seq![Pass::UpdateSplits];
    let e = crate::cmd::plan::when(!o.no_update && o.has_symbols, Pass::WriteSymbols);
    let f = crate::cmd::plan::when(!o.no_update && o.has_splits, Pass::WriteSplits);
    lemma_when(true, Pass::TrackRelocations, r);
    lemma_when(!o.symbols_known && o.detect_objects, Pass::DetectObjects, r);
    lemma_when(o.detect_strings, Pass::DetectStrings, r);
    lemma_when(true, Pass::UpdateSplits, r);
    lemma_when(!o.no_update && o.has_symbols, Pass::WriteSymbols, r);
    lemma_when(!o.no_update && o.has_splits, Pass::WriteSplits, r);
    lemma_joined(a, b, r, 9, 9, 10);
    lemma_joined(a + b, c, r, 9, 10, 11);
    lemma_joined(a + b + c, d, r, 9, 11, 12);
    lemma_joined(a + b + c + d, e, r, 9, 12, 13);
    lemma_joined(a + b + c + d + e, f, r, 9, 13, 14);
    assert(pef_splitting(o) =~= a + b + c + d + e + f);
    assert forall|i: int, j: int| 0 <= i < j < pef_splitting(o).len() implies pef_rank(
        #[trigger] pef_splitting(o)[i],
    ) < pef_rank(#[trigger] pef_splitting(o)[j]) by {
        assert(r(pef_splitting(o)[i]) < r(pef_splitting(o)[j]));
    }
}

/// The passes that load a COFF or PE file: each one whose condition holds runs once, in
/// the order of the ranks, and no other.
pub proof fn lemma_coff_load(o: PlanOptions)
    ensures
        forall|p: Pass| #[trigger] coff_loading(o).contains(p) <==> coff_loads(o, p),
        forall|i: int, j: int|
            0 <= i < j < coff_loading(o).len() ==> coff_rank(#[trigger] coff_loading(o)[i])
                < coff_rank(#[trigger] coff_loading(o)[j]),
{
    let r = coff_order();
    let a = crate::cmd::plan::when(o.has_image_base, Pass::BaseRelocations);
    let b = seq![Pass::AnalyzeCode];
    let c = crate::cmd::plan::when(o.has_map, Pass::ReadMap);
    let d = crate::cmd::plan::when(o.has_splits, Pass::ReadSplits);
    let e = crate::cmd::plan::when(o.has_symbols, Pass::ReadSymbols);
    let f = seq![Pass::ConfiguredRelocations];
    lemma_when(o.has_image_base, Pass::BaseRelocations, r);
    lemma_when(true, Pass::AnalyzeCode, r);
    lemma_when(o.has_map, Pass::ReadMap, r);
    lemma_when(o.has_splits, Pass::ReadSplits, r);
    lemma_when(o.has_symbols, Pass::ReadSymbols, r);
    lemma_when(true, Pass::ConfiguredRelocations, r);
    lemma_joined(a, b, r, 1, 1, 2);
    lemma_joined(a + b, c, r, 1, 2, 3);
    lemma_joined(a + b + c, d, r, 1, 3, 4);
    lemma_joined(a + b + c + d, e, r, 1, 4, 5);
    lemma_joined(a + b + c + d + e, f, r, 1, 5, 6);
    assert(coff_loading(o) =~= a + b + c + d + e + f);
    assert forall|i: int, j: int| 0 <= i < j < coff_loading(o).len() implies coff_rank(
        #[trigger] coff_loading(o)[i],
    ) < coff_rank(#[trigger] coff_loading(o)[j]) by {
        assert(r(coff_loading(o)[i]) < r(coff_loading(o)[j]));
    }
}

proof fn lemma_regrouped(
    a: Seq<Pass>,
    b: Seq<Pass>,
    c: Seq<Pass>,
    d: Seq<Pass>,
    e: Seq<Pass>,
    f: Seq<Pass>,
    g: Seq<Pass>,
    h: Seq<Pass>,
)
    ensures
        a + b + (c + d) + e + (f + g + h) == a + b + c + d + e + f + g + h,
{
    assert(a + b + (c + d) =~= a + b + c + d);
    let x = a + b + c + d + e;
    assert(x + (f + g + h) =~= x + f + g + h);
}

/// The passes before a COFF or PE file is split: each one whose condition holds runs
/// once, in the order of the ranks, and no other.
pub proof fn lemma_coff_split(o: PlanOptions)
    ensures
        forall|p: Pass| #[trigger] coff_splitting(o).contains(p) <==> coff_splits(o, p),
        forall|i: int, j: int|
            0 <= i < j < coff_splitting(o).len() ==> coff_rank(#[trigger] coff_splitting(o)[i])
                < coff_rank(#[trigger] coff_splitting(o)[j]),
{
    let r = coff_order();
    let a = crate::cmd::plan::when(!o.symbols_known && o.detect_objects, Pass::DetectObjects);
    let b = crate::cmd::plan::when(o.detect_strings, Pass::DetectStrings);
    let c = seq![Pass::DetectRtti];
    let d = seq![Pass::FunctionSizes];
    let e = crate::cmd::plan::when(!o.symbols_known, Pass::FunctionSplits);
    let f = seq![Pass::UpdateSplits];
    let g = crate::cmd::plan::when(!o.no_update && o.has_symbols, Pass::WriteSymbols);
    let h = crate::cmd::plan::when(!o.no_update && o.has_splits, Pass::WriteSplits);
    lemma_when(!o.symbols_known && o.detect_objects, Pass::DetectObjects, r);
    lemma_when(o.detect_strings, Pass::DetectStrings, r);
    lemma_when(true, Pass::DetectRtti, r);
    lemma_when(true, Pass::FunctionSizes, r);
    lemma_when(!o.symbols_known, Pass::FunctionSplits, r);
    lemma_when(true, Pass::UpdateSplits, r);
    lemma_when(!o.no_update && o.has_symbols, Pass::WriteSymbols, r);
    lemma_when(!o.no_update && o.has_splits, Pass::WriteSplits, r);
    lemma_joined(a, b, r, 7, 7, 8);
    lemma_joined(a + b, c, r, 7, 8, 9);
    lemma_joined(a + b + c, d, r, 7, 9, 10);
    lemma_joined(a + b + c + d, e, r, 7, 10, 11);
    lemma_joined(a + b + c + d + e, f, r, 7, 11, 12);
    lemma_joined(a + b + c + d + e + f, g, r, 7, 12, 13);
    lemma_joined(a + b + c + d + e + f + g, h, r, 7, 13, 14);
    let cd = seq![Pass::DetectRtti, Pass::FunctionSizes];
    assert(cd =~= c + d);
    lemma_regrouped(a, b, c, d, e, f, g, h);
    assert(coff_splitting(o) == a + b + cd + e + (f + g + h));
    assert forall|i: int, j: int| 0 <= i < j < coff_splitting(o).len() implies coff_rank(
        #[trigger] coff_splitting(o)[i],
    ) < coff_rank(#[trigger] coff_splitting(o)[j]) by {
        assert(r(coff_splitting(o)[i]) < r(coff_splitting(o)[j]));
    }
}

} // verus!
