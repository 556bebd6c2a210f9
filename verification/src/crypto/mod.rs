//! Key exchange and the REALITY session-id authenticator, over the trusted primitives of
//! the outside crypto crates.

pub mod exchange;
pub mod primitives;
pub mod reality;

pub use exchange::{Keypair, PublicKey, SharedSecret, StaticKeypair};
