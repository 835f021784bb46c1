//! The speech codecs.
pub mod common;
pub mod ds2_laws;
pub mod ds2_qp;
pub mod ds2_sp;
pub mod dss_sp;
pub mod dss_sp_laws;
pub mod grundig_laws;
pub mod grundig_sp;
pub mod pulses;
pub mod q15;
pub mod writing;
