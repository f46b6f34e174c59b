//! Building blocks of a BPSK31 modem: the Varicode bit codec with its
//! differential line coding, the symbol framing of the transmitter and the
//! bit-level back end of the receiver, early-late symbol timing, the FIR
//! delay line and tap-count rules, and the sample rechunking buffer.
pub mod bpsk31;
pub mod buffer;
pub mod codec;
pub mod delay_line;
pub mod early_late;
pub mod filter;
pub mod resample;
