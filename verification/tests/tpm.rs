use lanzaboote_tool::der;
use lanzaboote_tool::efi::auth::{assemble, data_of, signed_payload, SecureBootVariable};
use lanzaboote_tool::efi::{Guid, SignatureList};
use lanzaboote_tool::hex::hex;
use lanzaboote_tool::pcr7::{predict, SecureBootState};
use lanzaboote_tool::pem::PemError;
use lanzaboote_tool::tpm::action::{variable_contents, variable_path, variable_update};
use lanzaboote_tool::tpm::authorize::{certificate_der, deadline, issue_command};
use lanzaboote_tool::tpm::output::OutputError;
use lanzaboote_tool::tpm::{
    db_signer, stage, Action, ApproveCommand, Authorization, AuthorizeCommand, ClearPk, InitCommand,
    Key, ProvisionError, Provisioning, Reply, TpmCommand,
};
use lanzaboote_tool::tpm_key::Policy;

fn text(bytes: &[u8]) -> String {
    String::from_utf8(bytes.to_vec()).unwrap()
}

/// What is asked, in short.
fn show(action: &Action) -> String {
    match action {
        Action::Exists { path } => format!("exists {}", text(path)),
        Action::Read { path } => format!("read {}", text(path)),
        Action::ReadText { path } => format!("text {}", text(path)),
        Action::ReadIfPresent { path } => format!("maybe {}", text(path)),
        Action::Write { path, .. } => format!("write {}", text(path)),
        Action::CreateDirectory { path } => format!("directory {}", text(path)),
        Action::Run { command } | Action::RunForText { command } | Action::Attempt { command } => {
            let mut line = command.program.to_string();
            for argument in &command.arguments {
                line.push(' ');
                line.push_str(&text(argument));
            }
            line
        }
        Action::Sign { variable, key, certificate, .. } => {
            format!("sign {} {} {}", variable.name(), key, text(certificate))
        }
        Action::Random => "random".to_string(),
        Action::Timestamp => "timestamp".to_string(),
        Action::Finish => "finish".to_string(),
    }
}

fn written(action: &Action) -> Vec<u8> {
    match action {
        Action::Write { contents, .. } => contents.clone(),
        _ => panic!("nothing is written"),
    }
}

/// The file of a TPM key with a modulus.
fn key_file(modulus: &[u8]) -> String {
    let mut body = vec![0x00, 0x01, 0x00, 0x0b, 0, 0, 0, 0, 0, 0, 0x00, 0x10, 0x00, 0x10];
    body.extend_from_slice(&[0x08, 0x00, 0, 0, 0, 0]);
    body.extend_from_slice(&(modulus.len() as u16).to_be_bytes());
    body.extend_from_slice(modulus);
    let area = [&(body.len() as u16).to_be_bytes()[..], &body].concat();
    der::pem_encode("TSS2 PRIVATE KEY", &der::encode(0x30, &der::encode(0x04, &area)))
}

#[test]
fn init_creates_missing_keys_and_records_the_state() {
    let mut init = InitCommand { dir: b"/s".to_vec() }.start();
    let mut next = |reply: Reply| init.next(reply).unwrap();
    assert_eq!(show(&next(Reply::Done)), "exists /s/PK.pub");
    assert_eq!(show(&next(Reply::Exists(true))), "exists /s/KEK.key");
    assert_eq!(show(&next(Reply::Exists(true))), "text /s/KEK.key");
    let action = next(Reply::Text(key_file(&[0xaa, 0xbb])));
    assert_eq!(show(&action), "write /s/KEK.pub");
    assert_eq!(
        text(&written(&action)),
        der::rsa_public_key_pem(&[0xaa, 0xbb], 65537)
    );
    assert_eq!(show(&next(Reply::Done)), "exists /s/db.key");
    assert_eq!(
        show(&next(Reply::Exists(false))),
        "create_tpm2_key --rsa --key-size 2048 --signed-policy /s/PK.pub /s/db.key"
    );
    assert_eq!(show(&next(Reply::Done)), "text /s/db.key");
    assert_eq!(show(&next(Reply::Text(key_file(&[0xcc])))), "write /s/db.pub");
    assert_eq!(
        show(&next(Reply::Done)),
        "maybe /sys/firmware/efi/efivars/dbx-d719b2cb-3d3a-4596-a3bc-dad00e67656f"
    );
    let action = next(Reply::Present(Some(vec![7, 0, 0, 0, 1, 2, 3])));
    assert_eq!(show(&action), "write /s/dbx.esl");
    assert_eq!(written(&action), [1, 2, 3]);
    assert_eq!(show(&next(Reply::Done)), "tpm2_pcrread sha256:7");
    let action = next(Reply::Text(format!("  sha256:\n    7 : 0x{}\n", hex(&[0xab; 32]))));
    assert_eq!(show(&action), "write /s/pcr7.current");
    assert_eq!(text(&written(&action)), hex(&[0xab; 32]));
    assert_eq!(show(&next(Reply::Done)), "tpm2_readclock");
    let action = next(Reply::Text("time: 1\nclock_info:\n  clock: 600000\n".to_string()));
    assert_eq!(show(&action), "write /s/clock.current");
    assert_eq!(text(&written(&action)), "600000");
    assert_eq!(show(&next(Reply::Done)), "finish");
}

#[test]
fn init_stops_without_an_approver() {
    let mut init = InitCommand { dir: b"/s".to_vec() }.start();
    assert!(init.next(Reply::Done).is_ok());
    assert_eq!(
        init.next(Reply::Exists(false)).err().unwrap(),
        ProvisionError::NoApprover
    );
    assert_eq!(
        init.next(Reply::Done).err().unwrap(),
        ProvisionError::UnexpectedReply
    );
}

#[test]
fn init_says_what_it_cannot_read() {
    let mut init = InitCommand { dir: b"/s".to_vec() }.start();
    for reply in [Reply::Done, Reply::Exists(true), Reply::Exists(true)] {
        init.next(reply).unwrap();
    }
    let error = init.next(Reply::Text("no key".to_string())).err().unwrap();
    assert!(matches!(error, ProvisionError::TpmKey(_)));
}

fn certificate(contents: &[u8]) -> String {
    der::pem_encode("CERTIFICATE", contents)
}

fn content_info() -> Vec<u8> {
    let signed_data = der::encode(0x30, &[1, 2, 3]);
    let body = [der::encode(0x06, &[0x2a]), der::encode(0xa0, &signed_data)].concat();
    der::encode(0x30, &body)
}

fn authorization(owner: Option<Guid>) -> Authorization {
    AuthorizeCommand {
        dir: b"/s".to_vec(),
        pk: "pk.pem".to_string(),
        pk_certificate: b"/pk.crt".to_vec(),
        owner,
        transition_minutes: 60,
    }
    .start()
}

#[test]
fn authorize_signs_predicts_and_approves() {
    let owner = Guid::cert_x509();
    let pk = SignatureList::x509(owner, vec![1; 3]).to_bytes().unwrap();
    let kek = SignatureList::x509(owner, vec![2; 4]).to_bytes().unwrap();
    let db = SignatureList::x509(owner, vec![3; 5]).to_bytes().unwrap();
    let timestamp = [9u8; 16];
    let signed_data = der::encode(0x30, &[1, 2, 3]);

    let mut steps = authorization(Some(owner));
    let mut next = |reply: Reply| steps.next(reply).unwrap();
    assert_eq!(
        show(&next(Reply::Done)),
        "openssl x509 -new -days 36500 -subj /CN=Key Exchange Key (TPM)/ -force_pubkey /s/KEK.pub \
         -CA /pk.crt -CAkey pk.pem -out /s/KEK.crt"
    );
    assert_eq!(
        show(&next(Reply::Done)),
        "openssl x509 -new -days 36500 -subj /CN=Database Key (TPM)/ -force_pubkey /s/db.pub \
         -CA /pk.crt -CAkey pk.pem -out /s/db.crt"
    );
    assert_eq!(show(&next(Reply::Done)), "text /pk.crt");
    assert_eq!(show(&next(Reply::Text(certificate(&[1; 3])))), "text /s/KEK.crt");
    assert_eq!(show(&next(Reply::Text(certificate(&[2; 4])))), "text /s/db.crt");
    assert_eq!(show(&next(Reply::Text(certificate(&[3; 5])))), "timestamp");

    let mut action = next(Reply::Timestamp(timestamp));
    for (variable, data) in [
        (SecureBootVariable::Pk, &pk),
        (SecureBootVariable::Kek, &kek),
        (SecureBootVariable::Db, &db),
    ] {
        assert_eq!(show(&action), format!("sign {} pk.pem /pk.crt", variable.name()));
        match &action {
            Action::Sign { payload, .. } => {
                assert_eq!(*payload, signed_payload(variable, &timestamp, data))
            }
            _ => unreachable!(),
        }
        action = next(Reply::Bytes(content_info()));
        assert_eq!(show(&action), format!("write /s/{}.auth", variable.name()));
        let update = written(&action);
        assert_eq!(update, assemble(&timestamp, &signed_data, data).unwrap());
        assert_eq!(data_of(&update).unwrap(), &data[..]);
        action = next(Reply::Done);
    }
    assert_eq!(show(&action), "read /s/dbx.esl");

    let dbx = vec![5, 5];
    let state = SecureBootState { pk: &pk, kek: &kek, db: &db, dbx: &dbx };
    let enrolled = predict(&state, &[3; 5]).unwrap();
    let action = next(Reply::Bytes(dbx.clone()));
    assert_eq!(show(&action), "write /s/pcr7.enrolled");
    assert_eq!(text(&written(&action)), hex(&enrolled));
    assert_eq!(show(&next(Reply::Done)), "text /s/pcr7.current");
    let current = [0x11u8; 32];
    assert_eq!(
        show(&next(Reply::Text(format!("{}\n", hex(&current))))),
        "text /s/clock.current"
    );

    let action = next(Reply::Text("600000\n".to_string()));
    assert_eq!(show(&action), "write /s/policy.enrolled");
    assert_eq!(
        text(&written(&action)),
        Policy::default().pcrs(&[(7, enrolled)]).to_file_contents()
    );
    assert_eq!(
        show(&next(Reply::Done)),
        "signed_tpm2_policy add -n enrolled -c /s/policy.enrolled /s/KEK.key pk.pem"
    );
    assert_eq!(
        show(&next(Reply::Done)),
        "signed_tpm2_policy add -n enrolled -c /s/policy.enrolled /s/db.key pk.pem"
    );
    let action = next(Reply::Done);
    assert_eq!(show(&action), "write /s/policy.transition");
    assert_eq!(
        text(&written(&action)),
        Policy::default()
            .pcrs(&[(7, current)])
            .until_clock(600_000 + 60 * 60_000)
            .to_file_contents()
    );
    assert_eq!(
        show(&next(Reply::Done)),
        "signed_tpm2_policy add -n transition -c /s/policy.transition /s/KEK.key pk.pem"
    );
    assert_eq!(
        show(&next(Reply::Done)),
        "signed_tpm2_policy add -n transition -c /s/policy.transition /s/db.key pk.pem"
    );
    assert_eq!(show(&next(Reply::Done)), "finish");
}

#[test]
fn authorize_makes_up_an_owner() {
    let mut steps = authorization(None);
    assert_eq!(show(&steps.next(Reply::Done).unwrap()), "random");
    steps.next(Reply::Random([0xff; 16])).unwrap();
    assert_eq!(steps.owner, Guid::random([0xff; 16]));
}

#[test]
fn authorize_says_what_it_cannot_use() {
    let mut steps = authorization(Some(Guid::cert_x509()));
    for _ in 0..3 {
        steps.next(Reply::Done).unwrap();
    }
    assert_eq!(
        steps.next(Reply::Text("nothing".to_string())).err().unwrap(),
        ProvisionError::Certificate(PemError::NoBlock)
    );
    for contents in [[1], [2], [3]] {
        steps.next(Reply::Text(certificate(&contents))).unwrap();
    }
    steps.next(Reply::Timestamp([0; 16])).unwrap();
    assert!(matches!(
        steps.next(Reply::Bytes(vec![])).err().unwrap(),
        ProvisionError::Auth(_)
    ));
    for _ in 0..3 {
        steps.next(Reply::Bytes(content_info())).unwrap();
        steps.next(Reply::Done).unwrap();
    }
    steps.next(Reply::Bytes(vec![])).unwrap();
    steps.next(Reply::Done).unwrap();
    assert_eq!(
        steps.next(Reply::Text("12".to_string())).err().unwrap(),
        ProvisionError::Output(OutputError::PcrLength)
    );
    steps.next(Reply::Text(hex(&[0; 32]))).unwrap();
    assert_eq!(
        steps.next(Reply::Text(u64::MAX.to_string())).err().unwrap(),
        ProvisionError::DeadlineOverflow
    );
}

#[test]
fn an_empty_certificate_cannot_be_enrolled() {
    let mut steps = authorization(Some(Guid::cert_x509()));
    for _ in 0..3 {
        steps.next(Reply::Done).unwrap();
    }
    for contents in [&[1][..], &[2], &[]] {
        steps.next(Reply::Text(certificate(contents))).unwrap();
    }
    steps.next(Reply::Timestamp([0; 16])).unwrap();
    for _ in 0..3 {
        steps.next(Reply::Bytes(content_info())).unwrap();
        steps.next(Reply::Done).unwrap();
    }
    assert!(matches!(
        steps.next(Reply::Bytes(vec![])).err().unwrap(),
        ProvisionError::Predict(_)
    ));
}

fn approve_command(keys: &[&str], until_clock: Option<u64>) -> ApproveCommand {
    ApproveCommand {
        dir: b"/s".to_vec(),
        pk: "pk.pem".to_string(),
        pcr7: hex(&[0x22; 32]),
        name: "update".to_string(),
        until_clock,
        keys: keys.iter().map(|key| key.to_string()).collect(),
    }
}

#[test]
fn approve_covers_all_keys_by_default() {
    let mut steps = approve_command(&[], None).start().unwrap();
    let action = steps.next(Reply::Done).unwrap();
    assert_eq!(show(&action), "write /s/policy.update");
    assert_eq!(
        text(&written(&action)),
        Policy::default().pcrs(&[(7, [0x22; 32])]).to_file_contents()
    );
    assert_eq!(
        show(&steps.next(Reply::Done).unwrap()),
        "signed_tpm2_policy add -n update -c /s/policy.update /s/KEK.key pk.pem"
    );
    assert_eq!(
        show(&steps.next(Reply::Done).unwrap()),
        "signed_tpm2_policy add -n update -c /s/policy.update /s/db.key pk.pem"
    );
    assert_eq!(show(&steps.next(Reply::Done).unwrap()), "finish");
}

#[test]
fn approve_covers_the_named_keys_until_a_clock() {
    let mut steps = approve_command(&["db"], Some(5)).start().unwrap();
    assert_eq!(
        text(&written(&steps.next(Reply::Done).unwrap())),
        Policy::default().pcrs(&[(7, [0x22; 32])]).until_clock(5).to_file_contents()
    );
    assert_eq!(
        show(&steps.next(Reply::Done).unwrap()),
        "signed_tpm2_policy add -n update -c /s/policy.update /s/db.key pk.pem"
    );
    assert_eq!(show(&steps.next(Reply::Done).unwrap()), "finish");
}

#[test]
fn commands_start_their_steps() {
    let init = TpmCommand::Init(InitCommand { dir: b"/s".to_vec() });
    assert!(matches!(init.start(), Ok(Provisioning::Init(_))));
    let approve = TpmCommand::Approve(approve_command(&[], None));
    assert!(matches!(approve.start(), Ok(Provisioning::Approve(_))));
    let mut broken = approve_command(&[], None);
    broken.pcr7.push('0');
    assert_eq!(
        TpmCommand::Approve(broken).start().err().unwrap(),
        ProvisionError::Output(OutputError::PcrLength)
    );
}

#[test]
fn stages_the_updates() {
    let mut steps = stage(b"/s", b"/esp", None);
    let mut next = |reply: Reply| steps.next(reply).unwrap();
    assert_eq!(show(&next(Reply::Done)), "directory /esp/loader/keys/auto");
    let mut action = next(Reply::Done);
    for name in ["PK", "KEK", "db"] {
        assert_eq!(show(&action), format!("read /s/{name}.auth"));
        action = next(Reply::Bytes(vec![1, 2]));
        assert_eq!(show(&action), format!("write /esp/loader/keys/auto/{name}.auth"));
        assert_eq!(written(&action), [1, 2]);
        action = next(Reply::Done);
    }
    assert_eq!(show(&action), "finish");
}

fn staged(clear_pk: ClearPk) -> lanzaboote_tool::tpm::Staging {
    let mut steps = stage(b"/s", b"/esp", Some(clear_pk));
    steps.next(Reply::Done).unwrap();
    steps.next(Reply::Done).unwrap();
    for _ in 0..3 {
        steps.next(Reply::Bytes(vec![])).unwrap();
        steps.next(Reply::Done).unwrap();
    }
    steps
}

#[test]
fn deletes_the_pk_when_asked_to() {
    let mut steps = staged(ClearPk {
        key: Some("old.pem".to_string()),
        certificate: b"/old.crt".to_vec(),
    });
    let action = steps.next(Reply::Timestamp([4; 16])).unwrap();
    assert_eq!(show(&action), "sign PK old.pem /old.crt");
    match action {
        Action::Sign { payload, .. } => {
            assert_eq!(payload, signed_payload(SecureBootVariable::Pk, &[4; 16], &[]))
        }
        _ => unreachable!(),
    }
    let path = "/sys/firmware/efi/efivars/PK-8be4df61-93ca-11d2-aa0d-00e098032b8c";
    assert_eq!(
        show(&steps.next(Reply::Bytes(content_info())).unwrap()),
        format!("chattr -i {path}")
    );
    let action = steps.next(Reply::Done).unwrap();
    assert_eq!(show(&action), format!("write {path}"));
    let contents = written(&action);
    assert_eq!(&contents[..4], &[0x27, 0, 0, 0]);
    assert_eq!(data_of(&contents[4..]).unwrap(), b"");
    assert_eq!(show(&steps.next(Reply::Done).unwrap()), "finish");
}

#[test]
fn needs_the_path_of_the_pk_key_as_text() {
    let mut steps = staged(ClearPk { key: None, certificate: vec![] });
    assert_eq!(
        steps.next(Reply::Timestamp([4; 16])).err().unwrap(),
        ProvisionError::KeyPath
    );
}

#[test]
fn signs_with_the_db_key_of_a_state_directory() {
    let pair = db_signer(b"/s", true, Some("/lib/tpm2.so".to_string())).unwrap();
    assert_eq!(pair.public_key, b"/s/db.crt");
    assert_eq!(pair.private_key, b"/s/db.key");
    assert_eq!(pair.private_key_source.unwrap(), "provider:/lib/tpm2.so");
    assert_eq!(
        db_signer(b"/s", false, None).unwrap_err(),
        ProvisionError::NotAuthorized
    );
    assert_eq!(db_signer(b"/s", true, None).unwrap_err(), ProvisionError::NoProvider);
}

#[test]
fn variables_round_trip_behind_their_attributes() {
    assert_eq!(variable_contents(Some(variable_update(&[1, 2]))), [1, 2]);
    assert_eq!(variable_contents(Some(vec![1, 2, 3])), b"");
    assert_eq!(variable_contents(None), b"");
    assert_eq!(
        text(&variable_path("db", Guid::image_security_database())),
        "/sys/firmware/efi/efivars/db-d719b2cb-3d3a-4596-a3bc-dad00e67656f"
    );
}

#[test]
fn counts_the_deadline_in_milliseconds() {
    assert_eq!(deadline(1000, 2), Ok(121_000));
    assert_eq!(deadline(u64::MAX, 0), Ok(u64::MAX));
    assert_eq!(deadline(u64::MAX - 59_999, 1), Err(ProvisionError::DeadlineOverflow));
    assert_eq!(deadline(0, u64::MAX), Err(ProvisionError::DeadlineOverflow));
}

#[test]
fn reads_certificates_from_pem() {
    assert_eq!(certificate_der(&certificate(&[7, 8])).unwrap(), [7, 8]);
    assert_eq!(
        certificate_der(&der::pem_encode("OTHER", &[7])).unwrap_err(),
        ProvisionError::Certificate(PemError::NoBlock)
    );
}

#[test]
fn issues_certificates_from_public_halves() {
    let command = issue_command(b"/s", Key::Db, "key", b"/ca");
    assert_eq!(command.arguments[7], b"/s/db.pub");
    assert_eq!(command.arguments[13], b"/s/db.crt");
}
