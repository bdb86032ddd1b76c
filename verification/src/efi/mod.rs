//! UEFI Secure Boot data structures: GUIDs, signature lists, authenticated variable updates.

pub mod auth;
pub mod guid;
pub mod signature_list;

pub use guid::Guid;
pub use signature_list::{SignatureData, SignatureList};
