//! Signers of boot files.

pub mod dual;
pub mod local;

pub use dual::DualSigner;
pub use local::LocalKeyPair;
