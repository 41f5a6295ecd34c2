//! Readers and writers of object formats.
pub mod coff;
pub mod coff_laws;
pub mod coff_read;
pub mod coff_read_laws;
pub mod coff_write;
pub mod coff_write_laws;
pub mod pef;
pub mod pef_file_laws;
pub mod pef_laws;
pub mod pef_loader;
pub mod pef_object;
pub mod pef_refusal_laws;
pub mod pef_symbol_laws;
pub mod rsp;
pub mod rsp_laws;
pub mod xcoff;
pub mod xcoff_laws;
pub mod xcoff_layout_laws;
pub mod xcoff_read_laws;
