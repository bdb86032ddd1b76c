use lanzaboote_tool::path::join;
use lanzaboote_tool::signature::{DualSigner, LocalKeyPair};

fn words(text: &str) -> Vec<&[u8]> {
    text.split(' ').map(str::as_bytes).collect()
}

#[test]
fn signs_with_a_local_key() {
    let pair = LocalKeyPair::new(b"/db.crt", b"/db.key", None);
    let command = pair.sign_command(b"/from", b"/to");
    assert_eq!(command.program, "systemd-sbsign");
    assert_eq!(command.environment, Some(("SOURCE_DATE_EPOCH", "1")));
    assert_eq!(
        command.arguments,
        words("sign --private-key /db.key --certificate /db.crt --output /to /from")
    );
}

#[test]
fn names_the_source_of_a_provider_key() {
    let pair = LocalKeyPair::new(b"/db.crt", b"/db.key", Some("provider:tpm2".to_string()));
    assert_eq!(
        pair.sign_command(b"/from", b"/to").arguments,
        words(
            "sign --private-key /db.key --certificate /db.crt --output /to \
             --private-key-source provider:tpm2 /from"
        )
    );
}

#[test]
fn has_both_public_keys_of_two_signers() {
    assert_eq!(DualSigner::<(), ()>::public_key_of(b"old", b"new"), b"oldnew");
}

#[test]
fn joins_paths_as_the_standard_library_does() {
    for directory in ["", "/", "/state", "/state/", "relative"] {
        for name in ["", "db.key", "/absolute", "loader/keys"] {
            let expected = std::path::Path::new(directory).join(name);
            assert_eq!(
                join(directory.as_bytes(), name.as_bytes()),
                expected.to_str().unwrap().as_bytes()
            );
        }
    }
}
