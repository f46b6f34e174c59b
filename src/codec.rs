//! Line codes of the BPSK31 bit stream.
pub mod differential;
pub mod varicode;
