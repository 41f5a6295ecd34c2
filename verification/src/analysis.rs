//! Analyses that discover symbols and relocations.
pub mod insn;
pub mod rtti;
pub mod rtti_laws;
pub mod scan;
pub mod size_laws;
pub mod sizes;
pub mod x86;
pub mod x86_extent_laws;
pub mod x86_laws;
pub mod x86_order_laws;
pub mod x86_reach_laws;
pub mod x86_reason_laws;
