use lanzaboote_tool::der;
use lanzaboote_tool::der::{DerError, PemError};
use lanzaboote_tool::tpm_key::{
    approve_command, create_command, parse_rsa_public, pcr_command, pcr_message, rsa_public_key,
    tpm2b_public, Policy, TpmKeyError, TPM_ALG_NULL, TPM_ALG_RSA, TPM_ALG_SHA256,
};

#[test]
fn pcr_policy_matches_the_engine_encoding() {
    // Produced by openssl_tpm2_engine's `signed_tpm2_policy add --pcr-lock sha256:7` with
    // PCR 7 at all zeroes: CC_PolicyPCR, one sha256 selection of PCR 7, sha256(zeroes).
    let policy = Policy::default().pcrs(&[(7, [0; 32])]);
    assert_eq!(
        policy.to_file_contents(),
        "0000017f00000001000b0380000066687aadf862bd776c8fc18b8e9f8e20089714856ee233b3902a591d0d5f2925\n"
    );
}

#[test]
fn counter_timer_policy_encodes_clock_limit() {
    assert_eq!(
        Policy::default().until_clock(1000).to_file_contents(),
        "0000016d00000000000003e800080009\n"
    );
}

#[test]
fn reads_the_rsa_public_area() {
    // TPM2B_PUBLIC: type RSA, nameAlg sha256, attributes, empty policy, NULL symmetric,
    // NULL scheme, 2048 bits, exponent 0 (65537), 4-byte modulus.
    let mut public = Vec::new();
    public.extend_from_slice(&TPM_ALG_RSA.to_be_bytes());
    public.extend_from_slice(&TPM_ALG_SHA256.to_be_bytes());
    public.extend_from_slice(&0x0004_0072u32.to_be_bytes());
    public.extend_from_slice(&0u16.to_be_bytes());
    public.extend_from_slice(&TPM_ALG_NULL.to_be_bytes());
    public.extend_from_slice(&TPM_ALG_NULL.to_be_bytes());
    public.extend_from_slice(&2048u16.to_be_bytes());
    public.extend_from_slice(&0u32.to_be_bytes());
    public.extend_from_slice(&4u16.to_be_bytes());
    public.extend_from_slice(&[0xde, 0xad, 0xbe, 0xef]);
    let tpm2b = [&(public.len() as u16).to_be_bytes()[..], &public].concat();

    // TPMKey with an OID, a parent INTEGER, then pubkey and privkey OCTET STRINGs.
    let oid = der::encode(0x06, &[0x67, 0x81, 0x05, 0x0a, 0x01, 0x03]);
    let parent = der::encode(0x02, &[0x40, 0x00, 0x00, 0x01]);
    let body = [
        oid,
        parent,
        der::encode(0x04, &tpm2b),
        der::encode(0x04, &[1, 2]),
    ]
    .concat();
    let pem = der::pem_encode("TSS2 PRIVATE KEY", &der::encode(0x30, &body));

    let (modulus, exponent) = rsa_public_key(&pem).unwrap();
    assert_eq!(modulus, [0xde, 0xad, 0xbe, 0xef]);
    assert_eq!(exponent, 65537);
}

/// A public area with a policy, a symmetric algorithm, a scheme and an exponent.
fn area() -> Vec<u8> {
    let mut body = Vec::new();
    body.extend_from_slice(&[0x00, 0x01, 0x00, 0x0b, 0, 0, 0, 0]);
    body.extend_from_slice(&[0x00, 0x03, 7, 7, 7]);
    body.extend_from_slice(&[0x00, 0x06, 0x00, 0x80, 0x00, 0x43]);
    body.extend_from_slice(&[0x00, 0x14, 0x00, 0x0b]);
    body.extend_from_slice(&[0x08, 0x00, 0x00, 0x00, 0x00, 0x03]);
    body.extend_from_slice(&[0x00, 0x02, 0xab, 0xcd]);
    [&(body.len() as u16).to_be_bytes()[..], &body].concat()
}

#[test]
fn reads_an_area_with_policy_algorithms_and_exponent() {
    let (modulus, exponent) = parse_rsa_public(&area()).unwrap();
    assert_eq!(modulus, [0xab, 0xcd]);
    assert_eq!(exponent, 3);
}

#[test]
fn refuses_every_shorter_area() {
    let whole = area();
    for length in 0..whole.len() {
        let mut short = whole[..length].to_vec();
        if length >= 2 {
            let size = (length - 2) as u16;
            short[..2].copy_from_slice(&size.to_be_bytes());
        }
        assert_eq!(parse_rsa_public(&short).unwrap_err(), TpmKeyError::Truncated);
    }
}

#[test]
fn says_why_a_key_file_is_refused() {
    assert_eq!(rsa_public_key("").unwrap_err(), TpmKeyError::Pem(PemError::NoBlock));
    assert_eq!(
        tpm2b_public(&[0x04, 0x00]).unwrap_err(),
        TpmKeyError::NotSequence(DerError::UnexpectedTag { found: 0x04, expected: 0x30 })
    );
    assert_eq!(
        tpm2b_public(&der::encode(0x30, &[0x02, 0x01])).unwrap_err(),
        TpmKeyError::Field(DerError::Truncated)
    );
    assert_eq!(
        tpm2b_public(&der::encode(0x30, &[0x02, 0x01, 0x00])).unwrap_err(),
        TpmKeyError::NoPublicArea
    );
    let mut sized = area();
    sized[1] += 1;
    assert_eq!(parse_rsa_public(&sized).unwrap_err(), TpmKeyError::Size);
    let mut typed = area();
    typed[3] = 0x23;
    assert_eq!(parse_rsa_public(&typed).unwrap_err(), TpmKeyError::NotRsa);
}

#[test]
fn sorts_the_pcrs_of_a_policy() {
    let mut seven = [0u8; 32];
    for i in 0..32 {
        seven[i] = i as u8;
    }
    let expected = "0000017f00000001000b03900080\
                    139554fb5580617385cd4970112b026d1a7ec2e00cc6b803df7fbfb6ae5d8e37\n";
    let one = [(7, seven), (23, [0x17; 32]), (4, [0x44; 32])];
    let two = [(4, [0x44; 32]), (23, [0x17; 32]), (7, seven)];
    assert_eq!(Policy::default().pcrs(&one).to_file_contents(), expected);
    assert_eq!(Policy::default().pcrs(&two).to_file_contents(), expected);
    assert_eq!(pcr_message(&one), [[0x44; 32], seven, [0x17; 32]].concat());
    assert_eq!(pcr_command(&one, &[0; 32])[11..14], [0x90, 0x00, 0x80]);
}

#[test]
fn writes_a_line_for_each_command() {
    let policy = Policy::default().pcrs(&[(7, [0; 32])]).until_clock(u64::MAX);
    assert_eq!(
        policy.to_file_contents(),
        "0000017f00000001000b0380000066687aadf862bd776c8fc18b8e9f8e20089714856ee233b3902a591d0d5f2925\n\
         0000016dffffffffffffffff00080009\n"
    );
    assert_eq!(Policy::default().to_file_contents(), "");
}

#[test]
fn creates_and_approves_with_the_tools_of_the_engine() {
    let create = create_command(b"/s/db.key", b"/s/PK.pub");
    assert_eq!(create.program, "create_tpm2_key");
    let words: Vec<&[u8]> = "--rsa --key-size 2048 --signed-policy /s/PK.pub /s/db.key"
        .split(' ')
        .map(str::as_bytes)
        .collect();
    assert_eq!(create.arguments, words);

    let approve = approve_command(b"/s/db.key", "enrolled", b"/s/policy", "pk.pem");
    assert_eq!(approve.program, "signed_tpm2_policy");
    let words: Vec<&[u8]> = "add -n enrolled -c /s/policy /s/db.key pk.pem"
        .split(' ')
        .map(str::as_bytes)
        .collect();
    assert_eq!(approve.arguments, words);
}
