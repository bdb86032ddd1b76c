use lanzaboote_tool::efi::signature_list::ListError;
use lanzaboote_tool::efi::{Guid, SignatureList};
use lanzaboote_tool::hex::hex;
use lanzaboote_tool::pcr7::{
    events, extend_message, predict, variable_event, PredictError, SecureBootState,
};

#[test]
fn requires_the_authority_to_be_in_db() {
    let db = SignatureList::x509(Guid::global_variable(), vec![1; 8])
        .to_bytes()
        .unwrap();
    let state = SecureBootState {
        pk: &[],
        kek: &[],
        db: &db,
        dbx: &[],
    };
    assert!(predict(&state, &[2; 8]).is_err());
    assert!(predict(&state, &[1; 8]).is_ok());
}

#[test]
fn says_why_there_is_no_prediction() {
    let db = SignatureList::x509(Guid::global_variable(), vec![1; 8])
        .to_bytes()
        .unwrap();
    let state = SecureBootState { pk: &[], kek: &[], db: &db, dbx: &[] };
    assert_eq!(predict(&state, &[2; 8]).unwrap_err(), PredictError::NoAuthority);
    let broken = SecureBootState { db: &db[..5], ..state };
    assert_eq!(
        predict(&broken, &[1; 8]).unwrap_err(),
        PredictError::Db(ListError::TruncatedHeader)
    );
}

#[test]
fn predicts_known_values() {
    let owner = Guid::global_variable();
    let db = SignatureList::x509(owner, vec![1; 8]).to_bytes().unwrap();
    let state = SecureBootState { pk: &[], kek: &[], db: &db, dbx: &[] };
    assert!(state.fits());
    assert_eq!(
        hex(&predict(&state, &[1; 8]).unwrap()),
        "01ac9a76f6b49826b063e997eac77741c7e7803e4259e4520c446146b48fb015"
    );

    let pk = SignatureList::x509(owner, vec![2; 5]).to_bytes().unwrap();
    let kek = SignatureList::x509(owner, vec![3; 6]).to_bytes().unwrap();
    let state = SecureBootState { pk: &pk, kek: &kek, db: &db, dbx: &[9, 8] };
    assert_eq!(
        hex(&predict(&state, &[1; 8]).unwrap()),
        "ec8fe8129bf42a2351c88ab880df8e075e4cc5d6d15358c066e96e472e6bc442"
    );
}

#[test]
fn picks_the_authority_by_certificate_not_by_position() {
    let ours = SignatureList::x509(Guid::global_variable(), vec![1; 8]).to_bytes().unwrap();
    let other = SignatureList::x509(Guid::cert_x509(), vec![2; 9]).to_bytes().unwrap();
    let last = |db: &[u8]| {
        let state = SecureBootState { pk: &[], kek: &[], db, dbx: &[] };
        events(&state, &[1; 8]).unwrap().pop().unwrap()
    };
    let first_place = [ours.clone(), other.clone()].concat();
    let second_place = [other, ours].concat();
    assert_eq!(last(&first_place), last(&second_place));
}

#[test]
fn measures_the_variables_in_order() {
    let db = SignatureList::x509(Guid::global_variable(), vec![1; 8]).to_bytes().unwrap();
    let state = SecureBootState { pk: &[1], kek: &[2, 3], db: &db, dbx: &[4] };
    let measured = events(&state, &[1; 8]).unwrap();
    let entry = [&Guid::global_variable().0[..], &[1; 8]].concat();
    assert_eq!(
        measured,
        vec![
            variable_event("SecureBoot", Guid::global_variable(), &[1]),
            variable_event("PK", Guid::global_variable(), &[1]),
            variable_event("KEK", Guid::global_variable(), &[2, 3]),
            variable_event("db", Guid::image_security_database(), &db),
            variable_event("dbx", Guid::image_security_database(), &[4]),
            vec![0; 4],
            variable_event("db", Guid::image_security_database(), &entry),
        ]
    );
}

#[test]
fn counts_a_name_in_utf16_units() {
    let event = variable_event("d\u{1f600}", Guid::global_variable(), &[5, 6]);
    assert_eq!(&event[..16], &Guid::global_variable().0);
    assert_eq!(&event[16..24], &[3, 0, 0, 0, 0, 0, 0, 0]);
    assert_eq!(&event[24..32], &[2, 0, 0, 0, 0, 0, 0, 0]);
    assert_eq!(&event[32..38], &[0x64, 0x00, 0x3d, 0xd8, 0x00, 0xde]);
    assert_eq!(&event[38..], &[5, 6]);
}

#[test]
fn extends_a_register_with_a_digest() {
    let message = extend_message(&[1; 32], &[2; 32]);
    assert_eq!(&message[..32], &[1; 32]);
    assert_eq!(&message[32..], &[2; 32]);
}
