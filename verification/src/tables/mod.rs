//! Constant tables.
pub mod dss_sp;
