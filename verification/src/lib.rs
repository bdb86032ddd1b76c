//! Secure Boot keys held in a TPM: the EFI, DER and TPM data structures that provisioning them
//! needs, the PCR 7 value a Secure Boot state leads to, and the steps of the provisioning itself.
//!
//! Everything here is a computation on bytes and text. Reading files and EFI variables, running
//! `openssl` and the TPM tools, and writing the results is the business of the caller.

pub mod bytes;
pub mod command;
pub mod der;
pub mod efi;
pub mod hex;
pub mod path;
pub mod pcr7;
pub mod pem;
pub mod sha256;
pub mod signature;
pub mod text;
pub mod tpm;
pub mod tpm_key;
pub mod utc;
