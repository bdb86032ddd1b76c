use lanzaboote_tool::efi::signature_list::{find_certificate, ListError};
use lanzaboote_tool::efi::{Guid, SignatureData, SignatureList};

fn owner() -> Guid {
    "11111111-2222-3333-4444-555555555555".parse().unwrap()
}

#[test]
fn serializes_a_single_certificate_list() {
    let list = SignatureList::x509(owner(), vec![0xaa; 5]);
    let bytes = list.to_bytes().unwrap();
    assert_eq!(bytes.len(), 28 + 16 + 5);
    assert_eq!(&bytes[..16], &Guid::cert_x509().0);
    assert_eq!(u32::from_le_bytes(bytes[16..20].try_into().unwrap()), 49);
    assert_eq!(u32::from_le_bytes(bytes[20..24].try_into().unwrap()), 0);
    assert_eq!(u32::from_le_bytes(bytes[24..28].try_into().unwrap()), 21);
    assert_eq!(&bytes[28..44], &owner().0);
    assert_eq!(&bytes[44..], &[0xaa; 5]);
}

#[test]
fn parses_concatenated_lists_of_different_sizes() {
    let a = SignatureList::x509(owner(), vec![1; 3]);
    let b = SignatureList::x509(Guid::global_variable(), vec![2; 7]);
    let bytes = [a.to_bytes().unwrap(), b.to_bytes().unwrap()].concat();
    assert_eq!(SignatureList::parse_all(&bytes).unwrap(), vec![a, b]);
    assert!(SignatureList::parse_all(&[]).unwrap().is_empty());
}

#[test]
fn finds_a_certificate_among_several() {
    let ours = vec![9; 4];
    let lists = vec![
        SignatureList::x509(Guid::global_variable(), vec![1; 4]),
        SignatureList::x509(owner(), ours.clone()),
    ];
    let entry = find_certificate(&lists, &ours).unwrap();
    assert_eq!(entry.owner, owner());
    assert!(find_certificate(&lists, &[7; 4]).is_none());
}

#[test]
fn rejects_truncated_input() {
    let bytes = SignatureList::x509(owner(), vec![1; 3]).to_bytes().unwrap();
    assert!(SignatureList::parse_all(&bytes[..bytes.len() - 1]).is_err());
    assert!(SignatureList::parse_all(&bytes[..20]).is_err());
}

#[test]
fn reads_lists_of_several_entries() {
    let list = SignatureList {
        signature_type: Guid::image_security_database(),
        entries: vec![
            SignatureData { owner: owner(), data: vec![1, 2] },
            SignatureData { owner: Guid::global_variable(), data: vec![3, 4] },
        ],
    };
    let bytes = list.to_bytes().unwrap();
    assert_eq!(bytes.len(), 28 + 2 * 18);
    assert_eq!(SignatureList::parse_all(&bytes).unwrap(), vec![list]);
}

#[test]
fn looks_for_certificates_in_x509_lists_only() {
    let lists = vec![
        SignatureList {
            signature_type: Guid::global_variable(),
            entries: vec![SignatureData { owner: owner(), data: vec![5; 4] }],
        },
        SignatureList::x509(Guid::image_security_database(), vec![5; 4]),
    ];
    let entry = find_certificate(&lists, &[5; 4]).unwrap();
    assert_eq!(entry.owner, Guid::image_security_database());
    assert_eq!(entry.to_bytes(), [&entry.owner.0[..], &[5; 4]].concat());
}

#[test]
fn says_why_a_list_is_refused() {
    let empty = SignatureList { signature_type: owner(), entries: vec![] };
    assert_eq!(empty.to_bytes().unwrap_err(), ListError::NoEntries);
    let uneven = SignatureList {
        signature_type: owner(),
        entries: vec![
            SignatureData { owner: owner(), data: vec![1] },
            SignatureData { owner: owner(), data: vec![1, 2] },
        ],
    };
    assert_eq!(uneven.to_bytes().unwrap_err(), ListError::UnequalEntries);

    let bytes = SignatureList::x509(owner(), vec![1; 3]).to_bytes().unwrap();
    assert_eq!(
        SignatureList::parse_all(&bytes[..20]).unwrap_err(),
        ListError::TruncatedHeader
    );
    assert_eq!(
        SignatureList::parse_all(&bytes[..bytes.len() - 1]).unwrap_err(),
        ListError::InvalidListSize(47)
    );
    let mut small = bytes.clone();
    small[16] = 27;
    assert_eq!(
        SignatureList::parse_all(&small).unwrap_err(),
        ListError::InvalidListSize(27)
    );
    let mut header = bytes.clone();
    header[20] = 0xff;
    header[23] = 0xff;
    assert_eq!(
        SignatureList::parse_all(&header).unwrap_err(),
        ListError::InvalidListSize(47)
    );
    let mut entry = bytes.clone();
    entry[24] = 16;
    assert_eq!(
        SignatureList::parse_all(&entry).unwrap_err(),
        ListError::InvalidEntrySize(16)
    );
    let mut odd = bytes;
    odd[24] = 18;
    assert_eq!(SignatureList::parse_all(&odd).unwrap_err(), ListError::NotMultiple);
}

#[test]
fn passes_over_a_signature_header() {
    let plain = SignatureList::x509(owner(), vec![1; 3]);
    let mut bytes = plain.to_bytes().unwrap();
    bytes[16] += 2;
    bytes[20] = 2;
    bytes.insert(28, 0xee);
    bytes.insert(28, 0xee);
    assert_eq!(SignatureList::parse_all(&bytes).unwrap(), vec![plain]);
}

#[test]
fn refuses_to_read_entries_without_data() {
    let bytes = SignatureList::x509(owner(), vec![]).to_bytes().unwrap();
    assert_eq!(
        SignatureList::parse_all(&bytes).unwrap_err(),
        ListError::InvalidEntrySize(16)
    );
}
