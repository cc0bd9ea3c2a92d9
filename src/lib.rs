//! Authenticated encryption of transport frames with ChaCha20-Poly1305,
//! keyed by a 256-bit secret and a caller-owned 64-bit nonce counter, and the
//! 256-bit I2P identity with its base32 text form.
use vstd::prelude::*;

pub mod chacha;
pub mod i2p;

pub use chacha::{decrypt, deliver, derive_nonce, encrypt, EncryptionError, TAG_SIZE};
pub use i2p::I2pAddr;
