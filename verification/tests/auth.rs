use lanzaboote_tool::der::{encode, DerError};
use lanzaboote_tool::efi::auth::{
    assemble, data_of, efi_time, efi_time_now, sign_command, signed_data_of, signed_payload,
    update_of_signature, AuthError, ContentInfoPart, SecureBootVariable,
};
use lanzaboote_tool::efi::Guid;
use lanzaboote_tool::utc::UtcTime;

#[test]
fn efi_time_matches_the_uefi_layout() {
    // 2026-09-23 12:34:56 UTC
    let t = UtcTime::from_unix_timestamp(1_790_166_896).unwrap();
    assert_eq!(
        efi_time(t),
        [0xea, 0x07, 9, 23, 12, 34, 56, 0, 0, 0, 0, 0, 0, 0, 0, 0]
    );
}

#[test]
fn payload_covers_name_vendor_attributes_time_and_data() {
    let ts = [7u8; 16];
    let payload = signed_payload(SecureBootVariable::Db, &ts, b"DATA");
    // "db" as UTF-16LE, no terminator
    assert_eq!(&payload[..4], b"d\0b\0");
    assert_eq!(&payload[4..20], &Guid::image_security_database().0);
    assert_eq!(&payload[20..24], &[0x27, 0, 0, 0]);
    assert_eq!(&payload[24..40], &ts);
    assert_eq!(&payload[40..], b"DATA");
}

#[test]
fn assembled_update_round_trips_its_data() {
    let update = assemble(&[1; 16], &[0x30, 0x00], b"payload").unwrap();
    assert_eq!(u32::from_le_bytes(update[16..20].try_into().unwrap()), 26);
    assert_eq!(&update[20..22], &[0x00, 0x02]);
    assert_eq!(&update[22..24], &[0xf1, 0x0e]);
    assert_eq!(&update[24..40], &Guid::cert_type_pkcs7().0);
    assert_eq!(data_of(&update).unwrap(), b"payload");
}

#[test]
fn unwraps_signed_data_from_content_info() {
    // ContentInfo { OID 1.2.840.113549.1.7.2, [0] { SEQUENCE { INTEGER 1 } } }
    let signed_data = [0x30, 0x03, 0x02, 0x01, 0x01];
    let oid = [
        0x06, 0x09, 0x2a, 0x86, 0x48, 0x86, 0xf7, 0x0d, 0x01, 0x07, 0x02,
    ];
    let explicit = [&[0xa0, signed_data.len() as u8][..], &signed_data].concat();
    let body = [&oid[..], &explicit].concat();
    let content_info = [&[0x30, body.len() as u8][..], &body].concat();
    assert_eq!(signed_data_of(&content_info).unwrap(), &signed_data);
}

#[test]
fn names_the_variables_and_their_vendors() {
    assert_eq!(SecureBootVariable::Pk.name(), "PK");
    assert_eq!(SecureBootVariable::Kek.name(), "KEK");
    assert_eq!(SecureBootVariable::Db.name(), "db");
    assert_eq!(SecureBootVariable::Dbx.name(), "dbx");
    assert_eq!(SecureBootVariable::Pk.vendor(), Guid::global_variable());
    assert_eq!(SecureBootVariable::Kek.vendor(), Guid::global_variable());
    assert_eq!(SecureBootVariable::Db.vendor(), Guid::image_security_database());
    assert_eq!(SecureBootVariable::Dbx.vendor(), Guid::image_security_database());
}

#[test]
fn tells_the_payloads_of_the_variables_apart() {
    let all = [
        SecureBootVariable::Pk,
        SecureBootVariable::Kek,
        SecureBootVariable::Db,
        SecureBootVariable::Dbx,
    ];
    for a in all {
        for b in all {
            let same = signed_payload(a, &[0; 16], &[]) == signed_payload(b, &[0; 16], &[]);
            assert_eq!(same, a == b);
        }
    }
}

#[test]
fn wraps_the_year_in_sixteen_bits() {
    let t = UtcTime { year: -1, month: 1, day: 2, hour: 3, minute: 4, second: 5 };
    assert_eq!(
        efi_time(t),
        [0xff, 0xff, 1, 2, 3, 4, 5, 0, 0, 0, 0, 0, 0, 0, 0, 0]
    );
}

#[test]
fn gives_the_current_time() {
    let now = efi_time_now();
    let year = u16::from_le_bytes([now[0], now[1]]);
    assert!(year >= 2024);
    assert!((1..=12).contains(&now[2]));
    assert!((1..=31).contains(&now[3]));
    assert!(now[4] < 24 && now[5] < 60 && now[6] < 60);
    assert_eq!(&now[7..], &[0; 9]);
}

#[test]
fn says_why_an_update_is_refused() {
    assert_eq!(data_of(&[0; 23]).unwrap_err(), AuthError::Truncated);
    assert_eq!(data_of(&[0; 40]).unwrap_err(), AuthError::InvalidLength(0));
    let mut long = assemble(&[1; 16], &[], &[]).unwrap();
    assert_eq!(data_of(&long).unwrap(), b"");
    long[16] = 25;
    assert_eq!(data_of(&long).unwrap_err(), AuthError::InvalidLength(25));
}

#[test]
fn says_which_part_of_a_content_info_is_refused() {
    let part = |content_info: &[u8]| signed_data_of(content_info).unwrap_err();
    assert_eq!(
        part(&[0x31, 0x00]),
        AuthError::Der {
            part: ContentInfoPart::ContentInfo,
            error: DerError::UnexpectedTag { found: 0x31, expected: 0x30 }
        }
    );
    assert_eq!(
        part(&encode(0x30, &[])),
        AuthError::Der { part: ContentInfoPart::ContentType, error: DerError::Truncated }
    );
    let oid = encode(0x06, &[0x2a]);
    assert_eq!(
        part(&encode(0x30, &oid)),
        AuthError::Der { part: ContentInfoPart::ExplicitContent, error: DerError::Truncated }
    );
    let explicit = [oid, encode(0xa0, &[0x04, 0x00])].concat();
    assert_eq!(
        part(&encode(0x30, &explicit)),
        AuthError::Der {
            part: ContentInfoPart::SignedData,
            error: DerError::UnexpectedTag { found: 0x04, expected: 0x30 }
        }
    );
}

#[test]
fn builds_an_update_from_a_signature() {
    let signed_data = encode(0x30, &[0x02, 0x01, 0x01]);
    let body = [encode(0x06, &[0x2a, 0x86]), encode(0xa0, &signed_data)].concat();
    let content_info = encode(0x30, &body);
    let update = update_of_signature(&[9; 16], &content_info, b"new").unwrap();
    assert_eq!(update, assemble(&[9; 16], &signed_data, b"new").unwrap());
    assert_eq!(data_of(&update).unwrap(), b"new");
    assert!(update_of_signature(&[9; 16], &signed_data, b"new").is_err());
}

#[test]
fn signs_with_openssl_cms() {
    let command = sign_command("pkcs11:key", b"/certificate", b"/in", b"/out");
    assert_eq!(command.program, "openssl");
    assert_eq!(command.environment, None);
    let expected = "cms -sign -binary -noattr -nosmimecap -md sha256 -outform DER -inkey \
                    pkcs11:key -signer /certificate -in /in -out /out";
    let words: Vec<&[u8]> = expected.split(' ').map(str::as_bytes).collect();
    assert_eq!(command.arguments, words);
}
