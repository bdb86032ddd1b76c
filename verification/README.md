# lanzaboote_tool

Secure Boot keys held in a TPM: a verified library, written in [Verus](https://github.com/verus-lang/verus),
for the data structures and the steps of moving a machine to a KEK and a db key that its TPM holds.

- `src/der.rs`, `src/pem.rs`, `src/hex.rs`, `src/text.rs`, `src/bytes.rs`: encodings.
- `src/efi/`: GUIDs, signature lists, authenticated variable updates.
- `src/pcr7.rs`: the PCR 7 value that a Secure Boot state leads to.
- `src/tpm_key.rs`: TSS2 key files and the policies under which a TPM key can be used.
- `src/signature/`: how boot files are signed.
- `src/tpm/`: the steps of `lzbt tpm init`, `authorize`, `approve` and of staging the updates, as
  state machines: the caller performs an `Action` and answers with a `Reply`.
- `app/`: the command line, files, EFI variables and other programs around the library.
- `tests/`: the library on concrete values.

Every function of `src/` states in its contract what it returns, over spec functions on sequences.
Public proof functions whose names start with `law_` state what holds across functions: what is
written is read back, what is signed or measured tells different inputs apart, and in which order
the steps of the provisioning come.

The contracts of four functions outside the library are believed, not proved: SHA-256 (`sha2`), the
date of a timestamp and the current time (`time`), and `String::push`.
