//! What the commands compute.
pub mod apply;
pub mod apply_laws;
pub mod diff;
pub mod diff_laws;
pub mod info;
pub mod info_laws;
pub mod plan;
pub mod plan_laws;
pub mod split;
pub mod split_laws;
