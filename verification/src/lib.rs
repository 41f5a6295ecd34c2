//! Readers, writers and analyses for the object formats of classic PowerPC
//! Mac OS (PEF, XCOFF) and 32-bit Windows (COFF/PE) executables.
pub mod addr_map;
pub mod analysis;
pub mod bytes;
pub mod cmd;
pub mod demangle;
pub mod obj;
pub mod text;
pub mod text_laws;
pub mod util;
