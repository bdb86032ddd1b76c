use lanzaboote_tool::der::{
    element, encode, encode_unsigned, expect, pem_decode, pem_encode, rsa_public_key_pem, DerError,
    PemError,
};

#[test]
fn pem_round_trips_all_lengths() {
    for len in 0..10 {
        let data: Vec<u8> = (0..len).collect();
        let pem = pem_encode("TEST", &data);
        assert_eq!(pem_decode(&pem, "TEST").unwrap(), data);
    }
}

#[test]
fn parses_long_form_lengths() {
    let encoded = encode(0x30, &[0u8; 0x100]);
    assert_eq!(&encoded[..4], &[0x30, 0x82, 0x01, 0x00]);
    let element = expect(&encoded, 0x30).unwrap();
    assert_eq!(element.len, 4 + 0x100);
    assert_eq!(element.contents.len(), 0x100);
}

#[test]
fn rejects_truncated_and_mismatched_elements() {
    assert!(element(&[0x30, 0x05, 0x00]).is_err());
    assert!(expect(&[0x04, 0x00], 0x30).is_err());
}

#[test]
fn encodes_integers_without_sign_confusion() {
    assert_eq!(encode_unsigned(&[0x00, 0x7f]), [0x02, 0x01, 0x7f]);
    assert_eq!(encode_unsigned(&[0x80]), [0x02, 0x02, 0x00, 0x80]);
    assert_eq!(encode_unsigned(&[0, 0]), [0x02, 0x01, 0x00]);
}

#[test]
fn encodes_an_absent_integer_as_zero() {
    assert_eq!(encode_unsigned(&[]), [0x02, 0x01, 0x00]);
}

#[test]
fn reads_the_element_at_the_start_of_more() {
    let read = element(&[0x04, 0x02, 7, 8, 9]).unwrap();
    assert_eq!(read.tag, 0x04);
    assert_eq!(read.contents, [7, 8]);
    assert_eq!(read.len, 4);
}

#[test]
fn says_why_an_element_is_refused() {
    assert_eq!(element(&[0x30]).unwrap_err(), DerError::Truncated);
    assert_eq!(element(&[0x30, 0x02, 0]).unwrap_err(), DerError::Truncated);
    assert_eq!(element(&[0x30, 0x80, 0]).unwrap_err(), DerError::InvalidLength);
    assert_eq!(element(&[0x30, 0x82, 0]).unwrap_err(), DerError::InvalidLength);
    assert_eq!(
        element(&[0x30, 0x85, 0, 0, 0, 0, 0]).unwrap_err(),
        DerError::InvalidLength
    );
    assert_eq!(element(&[0x30, 0x81, 0xff]).unwrap_err(), DerError::Truncated);
    assert_eq!(
        expect(&[0x04, 0x00], 0x30).unwrap_err(),
        DerError::UnexpectedTag { found: 0x04, expected: 0x30 }
    );
}

#[test]
fn encodes_lengths_in_the_fewest_octets() {
    assert_eq!(encode(0x04, &[]), [0x04, 0x00]);
    assert_eq!(&encode(0x04, &[0; 0x7f])[..2], &[0x04, 0x7f]);
    assert_eq!(&encode(0x04, &[0; 0x80])[..3], &[0x04, 0x81, 0x80]);
    assert_eq!(&encode(0x04, &[0; 0xff])[..3], &[0x04, 0x81, 0xff]);
    assert_eq!(&encode(0x04, &vec![0; 0x1_0000])[..5], &[0x04, 0x83, 0x01, 0x00, 0x00]);
}

#[test]
fn encodes_pem_blocks_with_lines_and_padding() {
    assert_eq!(
        pem_encode("TEST", b"hello"),
        "-----BEGIN TEST-----\naGVsbG8=\n-----END TEST-----\n"
    );
    assert_eq!(pem_encode("TEST", b"f"), "-----BEGIN TEST-----\nZg==\n-----END TEST-----\n");
    assert_eq!(pem_encode("TEST", b""), "-----BEGIN TEST-----\n\n-----END TEST-----\n");
    let long = pem_encode("X", &[0xff; 50]);
    let lines: Vec<&str> = long.lines().collect();
    assert_eq!(lines.len(), 4);
    assert_eq!(lines[1].len(), 64);
    assert_eq!(lines[2], "//8=");
}

#[test]
fn finds_the_block_with_the_label_in_other_text() {
    let text = format!(
        "some text\n{}{}more text\n",
        pem_encode("OTHER", &[1, 2, 3]),
        pem_encode("CERTIFICATE", &[4, 5, 6, 7])
    );
    assert_eq!(pem_decode(&text, "CERTIFICATE").unwrap(), [4, 5, 6, 7]);
    assert_eq!(pem_decode(&text, "OTHER").unwrap(), [1, 2, 3]);
}

#[test]
fn says_why_a_pem_block_is_refused() {
    assert_eq!(pem_decode("nothing here", "TEST").unwrap_err(), PemError::NoBlock);
    assert_eq!(
        pem_decode("-----BEGIN TEST-----\nAAAA\n", "TEST").unwrap_err(),
        PemError::Unterminated
    );
    assert_eq!(
        pem_decode("-----BEGIN TEST-----\nAA*A\n-----END TEST-----\n", "TEST").unwrap_err(),
        PemError::InvalidCharacter(b'*')
    );
}

#[test]
fn passes_over_white_space_and_padding_in_pem_blocks() {
    assert_eq!(
        pem_decode("-----BEGIN TEST-----  aG\tVs\r\nbG 8=== -----END TEST-----", "TEST").unwrap(),
        b"hello"
    );
}

#[test]
fn writes_rsa_public_keys_as_openssl_does() {
    let mut modulus = vec![0, 0xc0];
    for i in 0..255u32 {
        modulus.push(((i * 7 + 3) % 256) as u8);
    }
    let expected = "-----BEGIN PUBLIC KEY-----
MIIBIjANBgkqhkiG9w0BAQEFAAOCAQ8AMIIBCgKCAQEAwAMKERgfJi00O0JJUFde
ZWxzeoGIj5adpKuyucDHztXc4+rx+P8GDRQbIikwNz5FTFNaYWhvdn2Ei5KZoKeu
tbzDytHY3+bt9PsCCRAXHiUsMzpBSE9WXWRrcnmAh46VnKOqsbi/xs3U2+Lp8Pf+
BQwTGiEoLzY9REtSWWBnbnV8g4qRmJ+mrbS7wsnQ197l7PP6AQgPFh0kKzI5QEdO
VVxjanF4f4aNlJuiqbC3vsXM09rh6O/2/QQLEhkgJy41PENKUVhfZm10e4KJkJee
payzusHIz9bd5Ovy+QAHDhUcIyoxOD9GTVRbYmlwd36FjJOaoaivtr3Ey9LZ4Ofu
9QIDAQAB
-----END PUBLIC KEY-----
";
    assert_eq!(rsa_public_key_pem(&modulus, 65537), expected);
}
