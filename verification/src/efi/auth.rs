//! Time-based authenticated variable updates (`EFI_VARIABLE_AUTHENTICATION_2`), the `.auth`
//! files systemd-boot enrolls from `loader/keys/<name>/`.
//!
//! ```text
//! EFI_TIME         TimeStamp                 (16 bytes)
//! WIN_CERTIFICATE_UEFI_GUID AuthInfo {
//!     u32  dwLength                          (header + CertType + CertData)
//!     u16  wRevision        = 0x0200
//!     u16  wCertificateType = WIN_CERT_TYPE_EFI_GUID (0x0ef1)
//!     GUID CertType         = EFI_CERT_TYPE_PKCS7_GUID
//!     u8   CertData[]       = PKCS#7 SignedData (DER, detached, no signed attributes)
//! }
//! u8 Data[]                                  (the new variable contents)
//! ```
//!
//! The signature covers `VariableName (UTF-16LE, no terminator) || VendorGuid || Attributes ||
//! TimeStamp || Data`.

use vstd::prelude::*;
use vstd::slice::slice_subrange;
use vstd::utf8::encode_utf8;

use super::guid::{
    cert_type_pkcs7_guid, global_variable_guid, image_security_database_guid, law_known_guids,
    lemma_guid_lengths, Guid,
};
use crate::bytes::{
    byte_range, law_byte_ranges, law_le_round_trip, law_place_values, le_bytes, le_value,
    lemma_widths, push_all, push_u16_le, push_u32_le, to_vec, u32_le_at,
};
use crate::command::{command_line, word, Command, CommandView};
use crate::der::{encoded, expect, law_element_round_trip, tagged_at_start, DerError};
use crate::text::{to_utf16, utf16, utf16_char};
use crate::utc::{now, UtcTime};

verus! {

/// `EFI_VARIABLE_NON_VOLATILE | BOOTSERVICE_ACCESS | RUNTIME_ACCESS |
/// TIME_BASED_AUTHENTICATED_WRITE_ACCESS`
pub const SECURE_BOOT_VARIABLE_ATTRIBUTES: u32 = 0x27;

pub const WIN_CERT_REVISION: u16 = 0x0200;

pub const WIN_CERT_TYPE_EFI_GUID: u16 = 0x0ef1;

/// The parts of a CMS `ContentInfo` on the way to its SignedData.
#[derive(Clone, Copy, PartialEq, Eq, Debug, Structural)]
pub enum ContentInfoPart {
    ContentInfo,
    ContentType,
    ExplicitContent,
    SignedData,
}

/// Why an authenticated update could not be built or read.
#[derive(Clone, Copy, PartialEq, Eq, Debug, Structural)]
pub enum AuthError {
    /// The SignedData does not fit the 32-bit length of the update.
    TooLarge,
    /// The update ends before its header does.
    Truncated,
    /// The length in the update is too small for its header, or reaches beyond the update.
    InvalidLength(u32),
    /// A part of the signature is not the DER element it should be.
    Der { part: ContentInfoPart, error: DerError },
}

/// A Secure Boot variable an authenticated update can be built for.
#[derive(Clone, Copy, PartialEq, Eq, Debug, Structural)]
pub enum SecureBootVariable {
    Pk,
    Kek,
    Db,
    Dbx,
}

/// The name of a Secure Boot variable.
pub open spec fn variable_name(variable: SecureBootVariable) -> Seq<char> {
    match variable {
        SecureBootVariable::Pk => "PK"@,
        SecureBootVariable::Kek => "KEK"@,
        SecureBootVariable::Db => "db"@,
        SecureBootVariable::Dbx => "dbx"@,
    }
}

/// The vendor GUID of a Secure Boot variable.
pub open spec fn variable_vendor(variable: SecureBootVariable) -> Seq<u8> {
    match variable {
        SecureBootVariable::Pk | SecureBootVariable::Kek => global_variable_guid(),
        SecureBootVariable::Db | SecureBootVariable::Dbx => image_security_database_guid(),
    }
}

impl SecureBootVariable {
    pub fn name(self) -> (name: &'static str)
        ensures
            name@ == variable_name(self),
    {
        match self {
            SecureBootVariable::Pk => "PK",
            SecureBootVariable::Kek => "KEK",
            SecureBootVariable::Db => "db",
            SecureBootVariable::Dbx => "dbx",
        }
    }

    pub fn vendor(self) -> (vendor: Guid)
        ensures
            vendor@ == variable_vendor(self),
    {
        match self {
            SecureBootVariable::Pk | SecureBootVariable::Kek => Guid::global_variable(),
            SecureBootVariable::Db | SecureBootVariable::Dbx => Guid::image_security_database(),
        }
    }
}

/// The `EFI_TIME` of a time: year, month, day, hour, minute and second, and zeros.
pub open spec fn efi_time_bytes(time: UtcTime) -> Seq<u8> {
    le_bytes((time.year % 65536) as nat, 2) + seq![
        time.month,
        time.day,
        time.hour,
        time.minute,
        time.second,
    ] + Seq::new(9, |i: int| 0u8)
}

/// `EFI_TIME` for a UTC time, with the fields firmware compares (nanoseconds, time zone and
/// daylight are zero).
pub fn efi_time(time: UtcTime) -> (out: [u8; 16])
    ensures
        out@ == efi_time_bytes(time),
{
    let year: u64 = (time.year as i64 + 0x8000_0000) as u64 % 65536;
    let out: [u8; 16] = [
        (year % 256) as u8,
        (year / 256) as u8,
        time.month,
        time.day,
        time.hour,
        time.minute,
        time.second,
        0,
        0,
        0,
        0,
        0,
        0,
        0,
        0,
        0,
    ];
    proof {
        assert(year == time.year % 65536);
        reveal_with_fuel(le_bytes, 3);
        assert(out@ =~= efi_time_bytes(time));
    }
    out
}

/// `EFI_TIME` of the current time, for a new authenticated update.
///
/// The time is the one the clock of the machine gives, so no more is said than that it is a valid
/// one.
pub fn efi_time_now() -> (out: [u8; 16])
    ensures
        exists|time: UtcTime| #[trigger] time.is_valid() && out@ == efi_time_bytes(time),
{
    let time = now();
    efi_time(time)
}

/// What the PKCS#7 signature of an authenticated update covers.
pub open spec fn payload(
    variable: SecureBootVariable,
    timestamp: Seq<u8>,
    data: Seq<u8>,
) -> Seq<u8> {
    utf16(variable_name(variable)) + variable_vendor(variable) + le_bytes(
        SECURE_BOOT_VARIABLE_ATTRIBUTES as nat,
        4,
    ) + timestamp + data
}

/// The bytes the PKCS#7 signature of an authenticated update covers.
pub fn signed_payload(variable: SecureBootVariable, timestamp: &[u8; 16], data: &[u8]) -> (out: Vec<
    u8,
>)
    ensures
        out@ == payload(variable, timestamp@, data@),
{
    let mut out: Vec<u8> = to_utf16(variable.name());
    push_all(&mut out, variable.vendor().0.as_slice());
    push_u32_le(&mut out, SECURE_BOOT_VARIABLE_ATTRIBUTES);
    push_all(&mut out, timestamp.as_slice());
    push_all(&mut out, data);
    out
}

/// An authenticated update.
pub open spec fn update_bytes(timestamp: Seq<u8>, signed_data: Seq<u8>, data: Seq<u8>) -> Seq<u8> {
    timestamp + le_bytes(24 + signed_data.len(), 4) + le_bytes(WIN_CERT_REVISION as nat, 2)
        + le_bytes(WIN_CERT_TYPE_EFI_GUID as nat, 2) + cert_type_pkcs7_guid() + signed_data + data
}

/// Assemble an authenticated update from its timestamp, the DER SignedData and the new data.
pub fn assemble(timestamp: &[u8; 16], signed_data: &[u8], data: &[u8]) -> (result: Result<
    Vec<u8>,
    AuthError,
>)
    ensures
        match result {
            Ok(update) => 24 + signed_data@.len() <= u32::MAX && update@ == update_bytes(
                timestamp@,
                signed_data@,
                data@,
            ),
            Err(error) => 24 + signed_data@.len() > u32::MAX && error == AuthError::TooLarge,
        },
{
    if signed_data.len() > (u32::MAX - 24) as usize {
        return Err(AuthError::TooLarge);
    }
    let mut out: Vec<u8> = to_vec(timestamp.as_slice());
    push_u32_le(&mut out, 24 + signed_data.len() as u32);
    push_u16_le(&mut out, WIN_CERT_REVISION);
    push_u16_le(&mut out, WIN_CERT_TYPE_EFI_GUID);
    push_all(&mut out, Guid::cert_type_pkcs7().0.as_slice());
    push_all(&mut out, signed_data);
    push_all(&mut out, data);
    Ok(out)
}

/// The `dwLength` of an authenticated update.
pub open spec fn update_length(update: Seq<u8>) -> nat {
    le_value(update.subrange(16, 20))
}

/// The new variable contents in an authenticated update.
pub open spec fn update_data(update: Seq<u8>) -> Result<Seq<u8>, AuthError> {
    if update.len() < 24 {
        Err(AuthError::Truncated)
    } else if update_length(update) < 24 || 16 + update_length(update) > update.len() {
        Err(AuthError::InvalidLength(update_length(update) as u32))
    } else {
        Ok(update.skip(16 + update_length(update) as int))
    }
}

/// The `Data` part of an authenticated update (what the variable is set to).
pub fn data_of(update: &[u8]) -> (result: Result<&[u8], AuthError>)
    ensures
        match result {
            Ok(data) => update_data(update@) == Ok::<Seq<u8>, AuthError>(data@),
            Err(error) => update_data(update@) == Err::<Seq<u8>, AuthError>(error),
        },
{
    if update.len() < 24 {
        return Err(AuthError::Truncated);
    }
    let length: u32 = u32_le_at(update, 16);
    if length < 24 || length as usize > update.len() - 16 {
        return Err(AuthError::InvalidLength(length));
    }
    let data = slice_subrange(update, 16 + length as usize, update.len());
    assert(data@ =~= update@.skip(16 + length as int));
    Ok(data)
}

/// A DER element of a part of a `ContentInfo`.
pub open spec fn part_at_start(input: Seq<u8>, tag: u8, part: ContentInfoPart) -> Result<
    crate::der::ElementView,
    AuthError,
> {
    match tagged_at_start(input, tag) {
        Ok(element) => Ok(element),
        Err(error) => Err(AuthError::Der { part, error }),
    }
}

/// The SignedData in a `ContentInfo`: the element in the `[0]` element behind the content type.
pub open spec fn signed_data(content_info: Seq<u8>) -> Result<Seq<u8>, AuthError> {
    match part_at_start(content_info, 0x30, ContentInfoPart::ContentInfo) {
        Err(error) => Err(error),
        Ok(outer) => match part_at_start(outer.contents, 0x06, ContentInfoPart::ContentType) {
            Err(error) => Err(error),
            Ok(content_type) => match part_at_start(
                outer.contents.skip(content_type.len as int),
                0xa0,
                ContentInfoPart::ExplicitContent,
            ) {
                Err(error) => Err(error),
                Ok(explicit) => match part_at_start(
                    explicit.contents,
                    0x30,
                    ContentInfoPart::SignedData,
                ) {
                    Err(error) => Err(error),
                    Ok(inner) => Ok(explicit.contents.take(inner.len as int)),
                },
            },
        },
    }
}

/// The SignedData inside a DER CMS `ContentInfo { contentType, [0] EXPLICIT SignedData }`.
///
/// `EFI_VARIABLE_AUTHENTICATION_2` carries the bare SignedData, while `openssl cms` emits the
/// ContentInfo around it.
pub fn signed_data_of(content_info: &[u8]) -> (result: Result<&[u8], AuthError>)
    ensures
        match result {
            Ok(bytes) => signed_data(content_info@) == Ok::<Seq<u8>, AuthError>(bytes@),
            Err(error) => signed_data(content_info@) == Err::<Seq<u8>, AuthError>(error),
        },
{
    let outer = match expect(content_info, 0x30) {
        Ok(element) => element,
        Err(error) => {
            return Err(AuthError::Der { part: ContentInfoPart::ContentInfo, error });
        },
    };
    let content_type = match expect(outer.contents, 0x06) {
        Ok(element) => element,
        Err(error) => {
            return Err(AuthError::Der { part: ContentInfoPart::ContentType, error });
        },
    };
    let behind = slice_subrange(outer.contents, content_type.len, outer.contents.len());
    assert(behind@ =~= outer@.contents.skip(content_type@.len as int));
    let explicit = match expect(behind, 0xa0) {
        Ok(element) => element,
        Err(error) => {
            return Err(AuthError::Der { part: ContentInfoPart::ExplicitContent, error });
        },
    };
    let inner = match expect(explicit.contents, 0x30) {
        Ok(element) => element,
        Err(error) => {
            return Err(AuthError::Der { part: ContentInfoPart::SignedData, error });
        },
    };
    let bytes = slice_subrange(explicit.contents, 0, inner.len);
    assert(bytes@ =~= explicit@.contents.take(inner@.len as int));
    Ok(bytes)
}

/// How `openssl` is run to sign a payload.
pub open spec fn cms_command(
    key: Seq<char>,
    certificate: Seq<u8>,
    payload_path: Seq<u8>,
    signature_path: Seq<u8>,
) -> CommandView {
    command_line(
        "openssl"@,
        seq![
            word("cms"@),
            word("-sign"@),
            word("-binary"@),
            word("-noattr"@),
            word("-nosmimecap"@),
            word("-md"@),
            word("sha256"@),
            word("-outform"@),
            word("DER"@),
            word("-inkey"@),
            word(key),
            word("-signer"@),
            certificate,
            word("-in"@),
            payload_path,
            word("-out"@),
            signature_path,
        ],
    )
}

/// The command that signs the payload in a file, with the key and the certificate given, and
/// writes the `ContentInfo` of the signature to another file.
///
/// `key` is anything OpenSSL can load: a PEM file, or a URI for a provider configured through
/// `OPENSSL_CONF` (e.g. `pkcs11:...` for a hardware token).
pub fn sign_command(
    key: &str,
    certificate: &[u8],
    payload_path: &[u8],
    signature_path: &[u8],
) -> (command: Command)
    ensures
        command@ == cms_command(key@, certificate@, payload_path@, signature_path@),
{
    let mut command = Command::new("openssl");
    command.push_text("cms");
    command.push_text("-sign");
    command.push_text("-binary");
    command.push_text("-noattr");
    command.push_text("-nosmimecap");
    command.push_text("-md");
    command.push_text("sha256");
    command.push_text("-outform");
    command.push_text("DER");
    command.push_text("-inkey");
    command.push_text(key);
    command.push_text("-signer");
    command.push(certificate);
    command.push_text("-in");
    command.push(payload_path);
    command.push_text("-out");
    command.push(signature_path);
    assert(command@ =~= cms_command(key@, certificate@, payload_path@, signature_path@));
    command
}

/// The authenticated update that a signature over its payload makes.
pub open spec fn signed_update(
    timestamp: Seq<u8>,
    content_info: Seq<u8>,
    data: Seq<u8>,
) -> Result<Seq<u8>, AuthError> {
    match signed_data(content_info) {
        Err(error) => Err(error),
        Ok(bytes) => if 24 + bytes.len() > u32::MAX {
            Err(AuthError::TooLarge)
        } else {
            Ok(update_bytes(timestamp, bytes, data))
        },
    }
}

/// Build the authenticated update to `data` from the `ContentInfo` that `openssl` wrote when it
/// signed the payload of the update.
pub fn update_of_signature(timestamp: &[u8; 16], content_info: &[u8], data: &[u8]) -> (result:
    Result<Vec<u8>, AuthError>)
    ensures
        match result {
            Ok(update) => signed_update(timestamp@, content_info@, data@) == Ok::<
                Seq<u8>,
                AuthError,
            >(update@),
            Err(error) => signed_update(timestamp@, content_info@, data@) == Err::<
                Seq<u8>,
                AuthError,
            >(error),
        },
{
    match signed_data_of(content_info) {
        Err(error) => Err(error),
        Ok(bytes) => assemble(timestamp, bytes, data),
    }
}

/// An assembled update gives back its data, and its timestamp and signature are where firmware
/// looks for them.
pub proof fn law_update_round_trip(timestamp: Seq<u8>, signed_data: Seq<u8>, data: Seq<u8>)
    requires
        timestamp.len() == 16,
        24 + signed_data.len() <= u32::MAX,
    ensures
        ({
            let update = update_bytes(timestamp, signed_data, data);
            &&& update_data(update) == Ok::<Seq<u8>, AuthError>(data)
            &&& update.take(16) == timestamp
            &&& update.subrange(40, 16 + update_length(update) as int) == signed_data
        }),
{
    let update = update_bytes(timestamp, signed_data, data);
    let length = 24 + signed_data.len();
    lemma_widths(length, 4);
    lemma_widths(WIN_CERT_REVISION as nat, 2);
    lemma_widths(WIN_CERT_TYPE_EFI_GUID as nat, 2);
    lemma_guid_lengths();
    assert(byte_range(4) == 0x1_0000_0000) by {
        reveal_with_fuel(byte_range, 5);
    }
    law_le_round_trip(length, 4);
    assert(update.subrange(16, 20) =~= le_bytes(length, 4));
    assert(update.skip(16 + length as int) =~= data);
    assert(update.take(16) =~= timestamp);
    assert(update.subrange(40, 16 + length as int) =~= signed_data);
}

/// The `ContentInfo` around a SignedData.
pub open spec fn content_info(content_type: Seq<u8>, signed_data: Seq<u8>) -> Seq<u8> {
    encoded(0x30, encoded(0x06, content_type) + encoded(0xa0, signed_data))
}

/// The SignedData is found in the `ContentInfo` around it, whatever its content type.
pub proof fn law_content_info_unwraps(content_type: Seq<u8>, body: Seq<u8>)
    requires
        (encoded(0x06, content_type) + encoded(0xa0, encoded(0x30, body))).len() <= u32::MAX,
    ensures
        signed_data(content_info(content_type, encoded(0x30, body))) == Ok::<Seq<u8>, AuthError>(
            encoded(0x30, body),
        ),
{
    let inner = encoded(0x30, body);
    let explicit = encoded(0xa0, inner);
    let contents = encoded(0x06, content_type) + explicit;
    law_element_round_trip(0x30, contents, Seq::empty());
    assert(encoded(0x30, contents) + Seq::<u8>::empty() =~= encoded(0x30, contents));
    law_element_round_trip(0x06, content_type, explicit);
    assert(contents.skip(encoded(0x06, content_type).len() as int) =~= explicit);
    law_element_round_trip(0xa0, inner, Seq::empty());
    assert(explicit + Seq::<u8>::empty() =~= explicit);
    law_element_round_trip(0x30, body, Seq::empty());
    assert(inner + Seq::<u8>::empty() =~= inner);
    assert(inner.take(inner.len() as int) =~= inner);
}

/// What is signed determines the variable, the timestamp and the new data: a signature for one
/// update is none for another.
pub proof fn law_payload_is_injective(
    variable: SecureBootVariable,
    timestamp: Seq<u8>,
    data: Seq<u8>,
    other: SecureBootVariable,
    other_timestamp: Seq<u8>,
    other_data: Seq<u8>,
)
    requires
        timestamp.len() == 16,
        other_timestamp.len() == 16,
        payload(variable, timestamp, data) == payload(other, other_timestamp, other_data),
    ensures
        variable == other,
        timestamp == other_timestamp,
        data == other_data,
{
    let whole = payload(variable, timestamp, data);
    lemma_payload_start(variable, timestamp, data);
    lemma_payload_start(other, other_timestamp, other_data);
    assert(variable == other);
    let start = whole.len() - data.len() - 16;
    assert(whole.subrange(start, start + 16) =~= timestamp);
    assert(whole.subrange(start, start + 16) =~= other_timestamp);
    assert(whole.skip(start + 16) =~= data);
    assert(whole.skip(start + 16) =~= other_data);
}

/// The bytes of a payload that tell the variables apart.
proof fn lemma_payload_start(variable: SecureBootVariable, timestamp: Seq<u8>, data: Seq<u8>)
    requires
        timestamp.len() == 16,
    ensures
        ({
            let whole = payload(variable, timestamp, data);
            let name = utf16(variable_name(variable)).len();
            &&& whole.len() == name + 36 + data.len()
            &&& whole.len() >= 5
            &&& match variable {
                SecureBootVariable::Pk => name == 4 && whole[0] == 0x50,
                SecureBootVariable::Kek => name == 6 && whole[0] == 0x4b,
                SecureBootVariable::Db => name == 4 && whole[0] == 0x64 && whole[4] == 0xcb,
                SecureBootVariable::Dbx => name == 6 && whole[0] == 0x64 && whole[4] == 0x78,
            }
        }),
{
    reveal_strlit("PK");
    reveal_strlit("KEK");
    reveal_strlit("db");
    reveal_strlit("dbx");
    reveal_with_fuel(utf16, 4);
    reveal_with_fuel(le_bytes, 5);
}

/// The names and vendors of the variables: PK and KEK are global variables, db and dbx are of the
/// image security database.
pub proof fn law_variables()
    ensures
        variable_name(SecureBootVariable::Pk) == seq!['P', 'K'],
        variable_name(SecureBootVariable::Kek) == seq!['K', 'E', 'K'],
        variable_name(SecureBootVariable::Db) == seq!['d', 'b'],
        variable_name(SecureBootVariable::Dbx) == seq!['d', 'b', 'x'],
        variable_vendor(SecureBootVariable::Pk) == global_variable_guid(),
        variable_vendor(SecureBootVariable::Kek) == global_variable_guid(),
        variable_vendor(SecureBootVariable::Db) == image_security_database_guid(),
        variable_vendor(SecureBootVariable::Dbx) == image_security_database_guid(),
{
    reveal_strlit("PK");
    reveal_strlit("KEK");
    reveal_strlit("db");
    reveal_strlit("dbx");
    assert("PK"@ =~= seq!['P', 'K']);
    assert("KEK"@ =~= seq!['K', 'E', 'K']);
    assert("db"@ =~= seq!['d', 'b']);
    assert("dbx"@ =~= seq!['d', 'b', 'x']);
}

/// What is signed, byte by byte: the name in UTF-16 without a terminator, the 16 bytes of the
/// vendor of the variable, the attributes (non-volatile, boot service and runtime access, time
/// based authentication), the time, and the new data, all of it.
pub proof fn law_payload_layout(variable: SecureBootVariable, timestamp: Seq<u8>, data: Seq<u8>)
    requires
        timestamp.len() == 16,
    ensures
        ({
            let whole = payload(variable, timestamp, data);
            let global = seq![
                0x61u8, 0xdf, 0xe4, 0x8b, 0xca, 0x93, 0xd2, 0x11, 0xaa, 0x0d, 0x00, 0xe0, 0x98,
                0x03, 0x2b, 0x8c,
            ];
            let database = seq![
                0xcbu8, 0xb2, 0x19, 0xd7, 0x3a, 0x3d, 0x96, 0x45, 0xa3, 0xbc, 0xda, 0xd0, 0x0e,
                0x67, 0x65, 0x6f,
            ];
            let (name, vendor) = match variable {
                SecureBootVariable::Pk => (seq![0x50u8, 0, 0x4b, 0], global),
                SecureBootVariable::Kek => (seq![0x4bu8, 0, 0x45, 0, 0x4b, 0], global),
                SecureBootVariable::Db => (seq![0x64u8, 0, 0x62, 0], database),
                SecureBootVariable::Dbx => (seq![0x64u8, 0, 0x62, 0, 0x78, 0], database),
            };
            let n = name.len() as int;
            &&& whole.len() == n + 36 + data.len()
            &&& whole.take(n) == name
            &&& whole.subrange(n, n + 16) == vendor
            &&& whole.subrange(n + 16, n + 20) == seq![0x27u8, 0, 0, 0]
            &&& whole.subrange(n + 20, n + 36) == timestamp
            &&& whole.skip(n + 36) == data
        }),
{
    let name = utf16(variable_name(variable));
    let attributes = le_bytes(SECURE_BOOT_VARIABLE_ATTRIBUTES as nat, 4);
    assert(attributes =~= seq![0x27u8, 0, 0, 0]) by {
        reveal_with_fuel(le_bytes, 5);
    }
    lemma_guid_lengths();
    lemma_payload_parts(name, variable_vendor(variable), attributes, timestamp, data);
    lemma_payload_names(variable);
}

/// Where the parts of a payload stand in it.
proof fn lemma_payload_parts(
    name: Seq<u8>,
    vendor: Seq<u8>,
    attributes: Seq<u8>,
    timestamp: Seq<u8>,
    data: Seq<u8>,
)
    requires
        vendor.len() == 16,
        attributes.len() == 4,
        timestamp.len() == 16,
    ensures
        ({
            let whole = name + vendor + attributes + timestamp + data;
            let n = name.len() as int;
            &&& whole.len() == n + 36 + data.len()
            &&& whole.take(n) == name
            &&& whole.subrange(n, n + 16) == vendor
            &&& whole.subrange(n + 16, n + 20) == attributes
            &&& whole.subrange(n + 20, n + 36) == timestamp
            &&& whole.skip(n + 36) == data
        }),
{
    let whole = name + vendor + attributes + timestamp + data;
    let n = name.len() as int;
    assert(whole.take(n) =~= name);
    assert(whole.subrange(n, n + 16) =~= vendor);
    assert(whole.subrange(n + 16, n + 20) =~= attributes);
    assert(whole.subrange(n + 20, n + 36) =~= timestamp);
    assert(whole.skip(n + 36) =~= data);
}

/// The name of a variable in UTF-16, and the bytes of its vendor.
proof fn lemma_payload_names(variable: SecureBootVariable)
    ensures
        ({
            let global = seq![
                0x61u8, 0xdf, 0xe4, 0x8b, 0xca, 0x93, 0xd2, 0x11, 0xaa, 0x0d, 0x00, 0xe0, 0x98,
                0x03, 0x2b, 0x8c,
            ];
            let database = seq![
                0xcbu8, 0xb2, 0x19, 0xd7, 0x3a, 0x3d, 0x96, 0x45, 0xa3, 0xbc, 0xda, 0xd0, 0x0e,
                0x67, 0x65, 0x6f,
            ];
            let (name, vendor) = match variable {
                SecureBootVariable::Pk => (seq![0x50u8, 0, 0x4b, 0], global),
                SecureBootVariable::Kek => (seq![0x4bu8, 0, 0x45, 0, 0x4b, 0], global),
                SecureBootVariable::Db => (seq![0x64u8, 0, 0x62, 0], database),
                SecureBootVariable::Dbx => (seq![0x64u8, 0, 0x62, 0, 0x78, 0], database),
            };
            utf16(variable_name(variable)) == name && variable_vendor(variable) == vendor
        }),
{
    law_variables();
    law_known_guids();
    lemma_utf16_names();
}

/// The names of the variables in UTF-16.
proof fn lemma_utf16_names()
    ensures
        utf16(seq!['P', 'K']) == seq![0x50u8, 0, 0x4b, 0],
        utf16(seq!['K', 'E', 'K']) == seq![0x4bu8, 0, 0x45, 0, 0x4b, 0],
        utf16(seq!['d', 'b']) == seq![0x64u8, 0, 0x62, 0],
        utf16(seq!['d', 'b', 'x']) == seq![0x64u8, 0, 0x62, 0, 0x78, 0],
{
    let k = seq!['K', 'E', 'K'];
    let x = seq!['d', 'b', 'x'];
    lemma_utf16_two('P', 'K');
    lemma_utf16_two('K', 'E');
    lemma_utf16_two('d', 'b');
    assert(k.drop_last() =~= seq!['K', 'E']);
    assert(x.drop_last() =~= seq!['d', 'b']);
    lemma_utf16_small('K');
    lemma_utf16_small('x');
    assert(utf16(seq!['P', 'K']) =~= seq![0x50u8, 0, 0x4b, 0]);
    assert(utf16(k) =~= seq![0x4bu8, 0, 0x45, 0, 0x4b, 0]);
    assert(utf16(seq!['d', 'b']) =~= seq![0x64u8, 0, 0x62, 0]);
    assert(utf16(x) =~= seq![0x64u8, 0, 0x62, 0, 0x78, 0]);
}

proof fn lemma_utf16_small(c: char)
    requires
        c <= '\u{7f}',
    ensures
        utf16_char(c) == seq![c as u8, 0u8],
{
    reveal_with_fuel(le_bytes, 3);
    assert(utf16_char(c) =~= seq![c as u8, 0u8]);
}

proof fn lemma_utf16_two(a: char, b: char)
    requires
        a <= '\u{7f}',
        b <= '\u{7f}',
    ensures
        utf16(seq![a, b]) == seq![a as u8, 0u8, b as u8, 0u8],
{
    lemma_utf16_small(a);
    lemma_utf16_small(b);
    assert(seq![a, b].drop_last() =~= seq![a]);
    assert(seq![a].drop_last() =~= Seq::<char>::empty());
    assert(utf16(Seq::<char>::empty()) =~= Seq::empty());
    assert(utf16(seq![a]) =~= seq![a as u8, 0u8]);
    assert(utf16(seq![a, b]) =~= seq![a as u8, 0u8, b as u8, 0u8]);
}

/// An authenticated update, byte by byte: the time, the length of what follows up to the data, the
/// revision and type of the certificate, the PKCS#7 type, the SignedData, and the data.
pub proof fn law_update_layout(timestamp: Seq<u8>, signed_data: Seq<u8>, data: Seq<u8>)
    requires
        timestamp.len() == 16,
        24 + signed_data.len() <= u32::MAX,
    ensures
        ({
            let update = update_bytes(timestamp, signed_data, data);
            let end = 40 + signed_data.len() as int;
            &&& update.len() == end + data.len()
            &&& update.take(16) == timestamp
            &&& update[16] + 0x100 * update[17] + 0x1_0000 * update[18] + 0x100_0000 * update[19]
                == 24 + signed_data.len()
            &&& update.subrange(20, 24) == seq![0x00u8, 0x02, 0xf1, 0x0e]
            &&& update.subrange(24, 40) == seq![
                0x9du8, 0xd2, 0xaf, 0x4a, 0xdf, 0x68, 0xee, 0x49, 0x8a, 0xa9, 0x34, 0x7d, 0x37,
                0x56, 0x65, 0xa7,
            ]
            &&& update.subrange(40, end) == signed_data
            &&& update.skip(end) == data
        }),
{
    let length = 24 + signed_data.len();
    let revision = le_bytes(WIN_CERT_REVISION as nat, 2);
    let kind = le_bytes(WIN_CERT_TYPE_EFI_GUID as nat, 2);
    assert(revision =~= seq![0x00u8, 0x02] && kind =~= seq![0xf1u8, 0x0e]) by {
        reveal_with_fuel(le_bytes, 3);
    }
    lemma_widths(length, 4);
    law_byte_ranges();
    law_le_round_trip(length, 4);
    law_place_values(le_bytes(length, 4));
    lemma_guid_lengths();
    lemma_update_parts(
        timestamp,
        le_bytes(length, 4),
        revision,
        kind,
        cert_type_pkcs7_guid(),
        signed_data,
        data,
    );
    law_known_guids();
}

/// Where the parts of an update stand in it.
proof fn lemma_update_parts(
    timestamp: Seq<u8>,
    length: Seq<u8>,
    revision: Seq<u8>,
    kind: Seq<u8>,
    guid: Seq<u8>,
    signed_data: Seq<u8>,
    data: Seq<u8>,
)
    requires
        timestamp.len() == 16,
        length.len() == 4,
        revision.len() == 2,
        kind.len() == 2,
        guid.len() == 16,
    ensures
        ({
            let update = timestamp + length + revision + kind + guid + signed_data + data;
            let end = 40 + signed_data.len() as int;
            &&& update.len() == end + data.len()
            &&& update.take(16) == timestamp
            &&& update[16] == length[0] && update[17] == length[1]
            &&& update[18] == length[2] && update[19] == length[3]
            &&& update.subrange(20, 24) == seq![revision[0], revision[1], kind[0], kind[1]]
            &&& update.subrange(24, 40) == guid
            &&& update.subrange(40, end) == signed_data
            &&& update.skip(end) == data
        }),
{
    let update = timestamp + length + revision + kind + guid + signed_data + data;
    let end = 40 + signed_data.len() as int;
    assert(update.take(16) =~= timestamp);
    assert(update.subrange(20, 24) =~= seq![revision[0], revision[1], kind[0], kind[1]]);
    assert(update.subrange(24, 40) =~= guid);
    assert(update.subrange(40, end) =~= signed_data);
    assert(update.skip(end) =~= data);
}

/// The data of any update, assembled here or not: what lies behind the time and as many bytes as
/// the length says. It is refused for a length that is too small for the header or reaches beyond
/// the update, and only then.
pub proof fn law_update_data(update: Seq<u8>)
    ensures
        update.len() < 24 ==> update_data(update) == Err::<Seq<u8>, AuthError>(
            AuthError::Truncated,
        ),
        update.len() >= 24 ==> ({
            let length = update[16] + 0x100 * update[17] + 0x1_0000 * update[18] + 0x100_0000
                * update[19];
            match update_data(update) {
                Ok(data) => 24 <= length && data.len() == update.len() - 16 - length && update.take(
                    16 + length,
                ) + data == update,
                Err(error) => (length < 24 || 16 + length > update.len()) && error
                    == AuthError::InvalidLength(length as u32),
            }
        }),
{
    if update.len() >= 24 {
        law_place_values(update.subrange(16, 20));
        let length = update_length(update) as int;
        if update_data(update) is Ok {
            assert(update.take(16 + length) + update.skip(16 + length) =~= update);
        }
    }
}

/// An update that was signed carries the time, the SignedData of the signature, and all of the new
/// data. Only a signature that has no SignedData or one that is too long is refused.
pub proof fn law_signed_update(timestamp: Seq<u8>, content_info: Seq<u8>, data: Seq<u8>)
    requires
        timestamp.len() == 16,
    ensures
        match signed_update(timestamp, content_info, data) {
            Ok(update) => {
                &&& signed_data(content_info) is Ok
                &&& update.take(16) == timestamp
                &&& update.subrange(40, update.len() - data.len()) == signed_data(content_info)->Ok_0
                &&& update_data(update) == Ok::<Seq<u8>, AuthError>(data)
            },
            Err(error) => match signed_data(content_info) {
                Ok(bytes) => 24 + bytes.len() > u32::MAX && error == AuthError::TooLarge,
                Err(other) => error == other,
            },
        },
{
    if let Ok(bytes) = signed_data(content_info) {
        if 24 + bytes.len() <= u32::MAX {
            law_update_layout(timestamp, bytes, data);
            law_update_round_trip(timestamp, bytes, data);
        }
    }
}

/// The SignedData is found whatever follows it in each of the elements around it.
pub proof fn law_content_info_is_searched(
    content_type: Seq<u8>,
    body: Seq<u8>,
    behind_signed_data: Seq<u8>,
    behind_content: Seq<u8>,
    behind: Seq<u8>,
)
    requires
        (encoded(0x06, content_type) + (encoded(0xa0, encoded(0x30, body) + behind_signed_data)
            + behind_content)).len() <= u32::MAX,
    ensures
        signed_data(
            encoded(
                0x30,
                encoded(0x06, content_type) + (encoded(
                    0xa0,
                    encoded(0x30, body) + behind_signed_data,
                ) + behind_content),
            ) + behind,
        ) == Ok::<Seq<u8>, AuthError>(encoded(0x30, body)),
{
    let inner = encoded(0x30, body);
    let explicit = encoded(0xa0, inner + behind_signed_data);
    let contents = encoded(0x06, content_type) + (explicit + behind_content);
    law_element_round_trip(0x30, contents, behind);
    law_element_round_trip(0x06, content_type, explicit + behind_content);
    assert(contents.skip(encoded(0x06, content_type).len() as int) =~= explicit + behind_content);
    law_element_round_trip(0xa0, inner + behind_signed_data, behind_content);
    law_element_round_trip(0x30, body, behind_signed_data);
    assert((inner + behind_signed_data).take(inner.len() as int) =~= inner);
}

/// What is taken for SignedData is a whole SEQUENCE element.
pub proof fn law_signed_data_is_a_sequence(content_info: Seq<u8>)
    requires
        signed_data(content_info) is Ok,
    ensures
        ({
            let bytes = signed_data(content_info)->Ok_0;
            &&& bytes.len() >= 2
            &&& bytes[0] == 0x30
            &&& content_info[0] == 0x30
        }),
{
}

/// `EFI_TIME`, byte by byte.
pub proof fn law_efi_time_layout(time: UtcTime)
    ensures
        ({
            let bytes = efi_time_bytes(time);
            &&& bytes.len() == 16
            &&& bytes[0] + 0x100 * bytes[1] == time.year % 0x1_0000
            &&& bytes[2] == time.month
            &&& bytes[3] == time.day
            &&& bytes[4] == time.hour
            &&& bytes[5] == time.minute
            &&& bytes[6] == time.second
            &&& forall|i: int| 7 <= i < 16 ==> bytes[i] == 0
        }),
{
    reveal_with_fuel(le_bytes, 3);
    let year = (time.year % 0x1_0000) as nat;
    assert(year == year % 256 + 0x100 * (year / 256 % 256));
}

/// The command that signs depends on its inputs in one place each: the key is what `-inkey` names,
/// the certificate what `-signer` names, the payload what is read and the signature what is written.
pub proof fn law_sign_command(
    key: Seq<char>,
    certificate: Seq<u8>,
    input: Seq<u8>,
    output: Seq<u8>,
    other_key: Seq<char>,
    other_certificate: Seq<u8>,
    other_input: Seq<u8>,
    other_output: Seq<u8>,
)
    ensures
        ({
            let a = cms_command(key, certificate, input, output);
            let b = cms_command(other_key, other_certificate, other_input, other_output);
            &&& a.program == b.program && a.environment is None && b.environment is None
            &&& a.arguments.len() == 17 && b.arguments.len() == 17
            &&& a.arguments[9] == encode_utf8("-inkey"@) && a.arguments[10] == encode_utf8(key)
            &&& a.arguments[11] == encode_utf8("-signer"@) && a.arguments[12] == certificate
            &&& a.arguments[13] == encode_utf8("-in"@) && a.arguments[14] == input
            &&& a.arguments[15] == encode_utf8("-out"@) && a.arguments[16] == output
            &&& forall|i: int|
                0 <= i < 17 && i != 10 && i != 12 && i != 14 && i != 16 ==> a.arguments[i]
                    == b.arguments[i]
        }),
{
}

/// Why a signature has no SignedData: each of the elements on the way to it is looked for in turn, a
/// SEQUENCE, an OBJECT IDENTIFIER in it, a `[0]` behind that, and a SEQUENCE in that, and the first
/// that is not there is named, with what is wrong with it.
pub proof fn law_content_info_refusals(
    content_type: Seq<u8>,
    bad_info: Seq<u8>,
    bad_type: Seq<u8>,
    bad_explicit: Seq<u8>,
    bad_signed_data: Seq<u8>,
)
    requires
        tagged_at_start(bad_info, 0x30) is Err,
        tagged_at_start(bad_type, 0x06) is Err,
        tagged_at_start(bad_explicit, 0xa0) is Err,
        tagged_at_start(bad_signed_data, 0x30) is Err,
        bad_type.len() <= u32::MAX,
        (encoded(0x06, content_type) + bad_explicit).len() <= u32::MAX,
        (encoded(0x06, content_type) + encoded(0xa0, bad_signed_data)).len() <= u32::MAX,
    ensures
        signed_data(bad_info) == Err::<Seq<u8>, AuthError>(
            AuthError::Der {
                part: ContentInfoPart::ContentInfo,
                error: tagged_at_start(bad_info, 0x30)->Err_0,
            },
        ),
        signed_data(encoded(0x30, bad_type)) == Err::<Seq<u8>, AuthError>(
            AuthError::Der {
                part: ContentInfoPart::ContentType,
                error: tagged_at_start(bad_type, 0x06)->Err_0,
            },
        ),
        signed_data(encoded(0x30, encoded(0x06, content_type) + bad_explicit)) == Err::<
            Seq<u8>,
            AuthError,
        >(
            AuthError::Der {
                part: ContentInfoPart::ExplicitContent,
                error: tagged_at_start(bad_explicit, 0xa0)->Err_0,
            },
        ),
        signed_data(
            encoded(0x30, encoded(0x06, content_type) + encoded(0xa0, bad_signed_data)),
        ) == Err::<Seq<u8>, AuthError>(
            AuthError::Der {
                part: ContentInfoPart::SignedData,
                error: tagged_at_start(bad_signed_data, 0x30)->Err_0,
            },
        ),
{
    let none = Seq::<u8>::empty();
    let kind = encoded(0x06, content_type);
    let explicit = encoded(0xa0, bad_signed_data);
    law_element_round_trip(0x30, bad_type, none);
    assert(encoded(0x30, bad_type) + none =~= encoded(0x30, bad_type));
    law_element_round_trip(0x30, kind + bad_explicit, none);
    assert(encoded(0x30, kind + bad_explicit) + none =~= encoded(0x30, kind + bad_explicit));
    law_element_round_trip(0x06, content_type, bad_explicit);
    assert((kind + bad_explicit).skip(kind.len() as int) =~= bad_explicit);
    law_element_round_trip(0x30, kind + explicit, none);
    assert(encoded(0x30, kind + explicit) + none =~= encoded(0x30, kind + explicit));
    law_element_round_trip(0x06, content_type, explicit);
    assert((kind + explicit).skip(kind.len() as int) =~= explicit);
    law_element_round_trip(0xa0, bad_signed_data, none);
    assert(explicit + none =~= explicit);
}

} // verus!
