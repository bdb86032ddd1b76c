use lanzaboote_tool::efi::guid::GuidError;
use lanzaboote_tool::efi::Guid;

#[test]
fn round_trips_through_its_string_form() {
    let s = "8be4df61-93ca-11d2-aa0d-00e098032b8c";
    let guid: Guid = s.parse().unwrap();
    assert_eq!(guid, Guid::global_variable());
    assert_eq!(guid.to_string(), s);
}

#[test]
fn stores_the_first_fields_little_endian() {
    // As it appears in an efivarfs file name and in the first 16 bytes of a signature list.
    assert_eq!(
        Guid::global_variable().0,
        [
            0x61, 0xdf, 0xe4, 0x8b, 0xca, 0x93, 0xd2, 0x11, 0xaa, 0x0d, 0x00, 0xe0, 0x98, 0x03,
            0x2b, 0x8c
        ]
    );
}

#[test]
fn rejects_malformed_strings() {
    assert!("8be4df61-93ca-11d2-aa0d".parse::<Guid>().is_err());
    assert!(
        "8be4df6-193ca-11d2-aa0d-00e098032b8c"
            .parse::<Guid>()
            .is_err()
    );
    assert!(
        "zzzzzzzz-93ca-11d2-aa0d-00e098032b8c"
            .parse::<Guid>()
            .is_err()
    );
}

#[test]
fn says_why_a_guid_is_refused() {
    assert_eq!(
        "8be4df61-93ca-11d2-aa0d".parse::<Guid>().unwrap_err(),
        GuidError::GroupCount
    );
    assert_eq!(
        "8be4df6-193ca-11d2-aa0d-00e098032b8c".parse::<Guid>().unwrap_err(),
        GuidError::GroupLengths
    );
    assert_eq!(
        "zzzzzzzz-93ca-11d2-aa0d-00e098032b8c".parse::<Guid>().unwrap_err(),
        GuidError::NotHexadecimal
    );
    assert_eq!(Guid::from_bytes(&[0; 15]).unwrap_err(), GuidError::Size);
}

#[test]
fn takes_upper_case_and_shows_lower_case() {
    let guid: Guid = "D719B2CB-3D3A-4596-A3BC-DAD00E67656F".parse().unwrap();
    assert_eq!(guid, Guid::image_security_database());
    assert_eq!(guid.to_string(), "d719b2cb-3d3a-4596-a3bc-dad00e67656f");
}

#[test]
fn knows_the_certificate_types() {
    assert_eq!(Guid::cert_x509().to_string(), "a5c059a1-94e4-4aa7-87b5-ab155c2bf072");
    assert_eq!(
        Guid::cert_type_pkcs7().to_string(),
        "4aafd29d-68df-49ee-8aa9-347d375665a7"
    );
}

#[test]
fn is_made_of_sixteen_bytes() {
    let bytes: Vec<u8> = (0..16).collect();
    let guid = Guid::from_bytes(&bytes).unwrap();
    assert_eq!(guid.to_string(), "03020100-0504-0706-0809-0a0b0c0d0e0f");
    assert_eq!(
        guid,
        Guid::from_fields(0x03020100, 0x0504, 0x0706, [8, 9, 10, 11, 12, 13, 14, 15])
    );
    assert_ne!(guid, Guid::global_variable());
}

#[test]
fn shows_the_version_of_a_random_guid() {
    assert_eq!(
        Guid::random([0xff; 16]).to_string(),
        "ffffffff-ffff-4fff-bfff-ffffffffffff"
    );
    assert_eq!(
        Guid::random([0; 16]).to_string(),
        "00000000-0000-4000-8000-000000000000"
    );
}
