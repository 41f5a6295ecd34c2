//! COFF and PE files.
pub use crate::util::coff_read::{CoffReadError, process_coff};
pub use crate::util::coff_write::{CoffWriteError, can_write_coff, write_coff};
