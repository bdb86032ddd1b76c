//! Signing with a key on the disk.

use vstd::prelude::*;
use vstd::utf8::encode_utf8;

use crate::bytes::to_vec;
use crate::command::{word, Command, CommandView};

verus! {

/// A local keypair is a signer that reuses private key material
/// on the disk.
///
/// The security of the private key is the responsibility of the user.
///
/// Signing happens via `systemd-sbsign`. `private_key_source` is passed on as
/// `--private-key-source=` (e.g. `provider:tpm2`), so the private key can also
/// be a reference to a key held by an OpenSSL provider rather than a PEM file.
///
/// Signatures are made with a fixed signing time, so signing the same input
/// with the same RSA key yields identical bytes. That lets callers re-sign
/// unconditionally and only write the result when it differs.
#[derive(Debug, Clone)]
pub struct LocalKeyPair {
    pub private_key: Vec<u8>,
    pub private_key_source: Option<String>,
    pub public_key: Vec<u8>,
}

/// What a [`LocalKeyPair`] stands for.
#[verifier::ext_equal]
pub struct LocalKeyPairView {
    pub private_key: Seq<u8>,
    pub private_key_source: Option<Seq<char>>,
    pub public_key: Seq<u8>,
}

impl View for LocalKeyPair {
    type V = LocalKeyPairView;

    open spec fn view(&self) -> LocalKeyPairView {
        LocalKeyPairView {
            private_key: self.private_key@,
            private_key_source: source_view(self.private_key_source),
            public_key: self.public_key@,
        }
    }
}

/// What a private key source stands for.
pub open spec fn source_view(source: Option<String>) -> Option<Seq<char>> {
    match source {
        Some(source) => Some(source@),
        None => None,
    }
}

impl LocalKeyPairView {
    /// How a file is signed: the private key source is named where there is one, before the file.
    pub open spec fn signing(self, from: Seq<u8>, to: Seq<u8>) -> CommandView {
        let keys = seq![
            word("sign"@),
            word("--private-key"@),
            self.private_key,
            word("--certificate"@),
            self.public_key,
            word("--output"@),
            to,
        ];
        let source = match self.private_key_source {
            Some(source) => seq![word("--private-key-source"@), word(source)],
            None => Seq::empty(),
        };
        CommandView {
            program: "systemd-sbsign"@,
            environment: Some(("SOURCE_DATE_EPOCH"@, "1"@)),
            arguments: keys + source + seq![from],
        }
    }
}

impl LocalKeyPair {
    pub fn new(public_key: &[u8], private_key: &[u8], private_key_source: Option<String>) -> (pair:
        LocalKeyPair)
        ensures
            pair@ == (LocalKeyPairView {
                private_key: private_key@,
                private_key_source: source_view(private_key_source),
                public_key: public_key@,
            }),
    {
        LocalKeyPair {
            public_key: to_vec(public_key),
            private_key: to_vec(private_key),
            private_key_source,
        }
    }

    /// The command that signs the file at `from` and writes the signed file to `to`.
    ///
    /// The signing time is part of the signature. Pinning it makes the output reproducible; the
    /// value carries no meaning for Secure Boot.
    pub fn sign_command(&self, from: &[u8], to: &[u8]) -> (command: Command)
        ensures
            command@ == self@.signing(from@, to@),
    {
        let mut command = Command::with_environment("systemd-sbsign", "SOURCE_DATE_EPOCH", "1");
        command.push_text("sign");
        command.push_text("--private-key");
        command.push(self.private_key.as_slice());
        command.push_text("--certificate");
        command.push(self.public_key.as_slice());
        command.push_text("--output");
        command.push(to);
        if let Some(source) = &self.private_key_source {
            command.push_text("--private-key-source");
            command.push_text(source.as_str());
        }
        command.push(from);
        assert(command@ =~= self@.signing(from@, to@));
        command
    }
}

/// A file is signed with the key and the certificate of the pair, at a fixed time: what is signed,
/// where it goes and by what each stand in one place, and the source of the key is named if and only
/// if there is one.
pub proof fn law_signing(
    pair: LocalKeyPairView,
    from: Seq<u8>,
    to: Seq<u8>,
    other: LocalKeyPairView,
    other_from: Seq<u8>,
    other_to: Seq<u8>,
)
    ensures
        ({
            let a = pair.signing(from, to);
            let b = other.signing(other_from, other_to);
            &&& a.program == b.program && a.environment == b.environment && a.environment is Some
            &&& a.arguments[0] == b.arguments[0]
            &&& a.arguments[1] == encode_utf8("--private-key"@)
            &&& a.arguments[2] == pair.private_key
            &&& a.arguments[3] == encode_utf8("--certificate"@)
            &&& a.arguments[4] == pair.public_key
            &&& a.arguments[5] == encode_utf8("--output"@)
            &&& a.arguments[6] == to
            &&& a.arguments.last() == from
            &&& pair.private_key_source is None ==> a.arguments.len() == 8
            &&& pair.private_key_source is Some ==> a.arguments.len() == 10 && a.arguments[7]
                == encode_utf8("--private-key-source"@) && a.arguments[8] == encode_utf8(
                pair.private_key_source->0,
            )
        }),
{
}

} // verus!
