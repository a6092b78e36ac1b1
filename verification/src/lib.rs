//! SM4 block-cipher modes of operation.
//!
//! The crate provides the four classic modes of operation for the SM4
//! block cipher: cipher feedback (CFB), output feedback (OFB), counter
//! (CTR) and cipher block chaining (CBC).  `cipher` holds the 128-bit
//! block primitive, `cipher_mode` the mode layer, and `laws` the proved
//! properties relating them (round trips, length invariants,
//! self-inverse modes).

pub mod cipher;
pub mod cipher_mode;
pub mod laws;
