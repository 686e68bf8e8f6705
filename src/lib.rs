//! Encoder and two-error-correcting decoders for 32-bit words protected by a
//! (31,21) BCH code and an overall even-parity bit.
//!
//! `bch_encode` turns a payload into a codeword; `bch_repair` corrects up to
//! two bit errors with a syndrome table, and `meggitt::meggitt_repair` does
//! the same with a bit-serial syndrome register.
pub mod correction;
pub mod decoder;
pub mod encoder;
pub mod laws;
pub mod layout;
pub mod meggitt;
pub mod syndrome_table;

pub use decoder::bch_repair;
pub use encoder::bch_encode;
