//! Authenticated encryption for byte streams.
//!
//! A stream is cut into fragments of a fixed size and every fragment is
//! sealed on its own with an AEAD algorithm, so that encryption and
//! decryption run online and in constant memory. The last fragment is
//! sealed under a distinct associated-data marker, so that a truncated
//! stream does not decrypt.
use vstd::prelude::*;

pub mod aead;
pub mod algorithms;
pub mod error;
pub mod sink;
pub mod stream;
pub mod writer;

pub use aead::{Aad, Algorithm, Key, Nonce};
pub use algorithms::{AES_256_GCM, CHACHA20_POLY1305};
pub use error::{Error, Exceeded, Invalid, NotAuthentic};
pub use sink::{Close, NopCloser, Sink};
pub use writer::{Closer, DecWriter, EncWriter, Finish};

verus! {

/// The largest fragment size that a channel accepts.
pub const MAX_BUF_SIZE: usize = 16777215;

/// The fragment size that `new` picks.
pub const BUF_SIZE: usize = 16384;

} // verus!
