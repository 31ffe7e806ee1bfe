//! A homomorphic-friendly stream cipher evaluated over an abstract arithmetic
//! channel: a silently clocked LFSR key schedule feeding an S-box / MDS round.
//!
//! The encryption scheme itself stays outside the library. Every operation on
//! ciphertexts (a weighted sum modulo `p`, a table lookup, a two-term sum,
//! an encryption) is handed in as a function value, and each contract states
//! exactly which arguments were handed to it.

mod error;
pub mod zp;
pub mod lfsr;
pub mod cipher;
pub mod shake;

pub use error::ConfigError;
pub use lfsr::LFSR;

pub use shake::shake_keygen;
pub use cipher::{Transistor, TransistorParameters};
