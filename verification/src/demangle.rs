//! CodeWarrior C++ names.
use vstd::prelude::*;

use crate::obj::text_view;

verus! {

/// The C++ name that a CodeWarrior linker name stands for, if it stands for one.
pub uninterp spec fn demangled(name: Seq<char>) -> Option<Seq<char>>;

/// `cwdemangle::demangle` with its default options: a function of the name
/// alone, `None` where the name is not a mangled one. Numbers in a name are
/// read as `usize`.
#[verifier::external_body]
pub(crate) fn demangle_name(name: &str) -> (r: Option<String>)
    ensures
        text_view(r) == demangled(name@),
{
    cwdemangle::demangle(name, &Default::default())
}

} // verus!
