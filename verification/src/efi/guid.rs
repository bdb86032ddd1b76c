//! EFI GUIDs.

use std::str::FromStr;

use vstd::prelude::*;
use vstd::slice::slice_subrange;
use vstd::utf8::encode_utf8;

use crate::bytes::{
    be_value, equal, le_bytes, le_value, lemma_le_bytes_of_value, lemma_widths, push_all,
    push_u16_le, push_u32_le,
};
use crate::hex::{
    hex_digit, hex_text, is_hex, law_hex_round_trip, law_hex_text_of_pairs, lemma_hex_numeral,
    lemma_hex_text, lemma_long_numeral_bound, lemma_numeral_bound, lemma_pairs_length, numeral,
    pairs, push_hex, read_numeral, read_pairs,
};
use crate::text::{ascii, lemma_utf8_ascii};

verus! {

/// Why something is not a GUID.
#[derive(Clone, Copy, PartialEq, Eq, Debug, Structural)]
pub enum GuidError {
    /// A GUID is 16 bytes.
    Size,
    /// The text does not have five groups.
    GroupCount,
    /// The groups of the text do not have 8, 4, 4, 4 and 12 bytes.
    GroupLengths,
    /// A group of the text is not hexadecimal.
    NotHexadecimal,
}

/// An EFI GUID, stored in its on-disk (mixed-endian) byte order.
///
/// The first three fields are little-endian, the last eight bytes are stored as written.
#[derive(Clone, Copy, Eq, Debug)]
pub struct Guid(pub [u8; 16]);

impl View for Guid {
    type V = Seq<u8>;

    open spec fn view(&self) -> Seq<u8> {
        self.0@
    }
}

impl PartialEq for Guid {
    fn eq(&self, other: &Guid) -> (same: bool) {
        equal(self.0.as_slice(), other.0.as_slice())
    }
}

impl vstd::std_specs::cmp::PartialEqSpecImpl for Guid {
    open spec fn obeys_eq_spec() -> bool {
        true
    }

    open spec fn eq_spec(&self, other: &Guid) -> bool {
        self@ == other@
    }
}

/// The bytes of the GUID with the given fields.
pub open spec fn guid_bytes(a: nat, b: nat, c: nat, d: Seq<u8>) -> Seq<u8> {
    le_bytes(a, 4) + le_bytes(b, 2) + le_bytes(c, 2) + d
}

/// `EFI_GLOBAL_VARIABLE`.
pub open spec fn global_variable_guid() -> Seq<u8> {
    guid_bytes(
        0x8be4df61,
        0x93ca,
        0x11d2,
        seq![0xaau8, 0x0d, 0x00, 0xe0, 0x98, 0x03, 0x2b, 0x8c],
    )
}

/// `EFI_IMAGE_SECURITY_DATABASE_GUID`.
pub open spec fn image_security_database_guid() -> Seq<u8> {
    guid_bytes(
        0xd719b2cb,
        0x3d3a,
        0x4596,
        seq![0xa3u8, 0xbc, 0xda, 0xd0, 0x0e, 0x67, 0x65, 0x6f],
    )
}

/// `EFI_CERT_X509_GUID`.
pub open spec fn cert_x509_guid() -> Seq<u8> {
    guid_bytes(
        0xa5c059a1,
        0x94e4,
        0x4aa7,
        seq![0x87u8, 0xb5, 0xab, 0x15, 0x5c, 0x2b, 0xf0, 0x72],
    )
}

/// `EFI_CERT_TYPE_PKCS7_GUID`.
pub open spec fn cert_type_pkcs7_guid() -> Seq<u8> {
    guid_bytes(
        0x4aafd29d,
        0x68df,
        0x49ee,
        seq![0x8au8, 0xa9, 0x34, 0x7d, 0x37, 0x56, 0x65, 0xa7],
    )
}

/// The GUIDs have sixteen bytes.
pub proof fn lemma_guid_lengths()
    ensures
        global_variable_guid().len() == 16,
        image_security_database_guid().len() == 16,
        cert_x509_guid().len() == 16,
        cert_type_pkcs7_guid().len() == 16,
{
    assert forall|a: nat, b: nat, c: nat, d: Seq<u8>| #[trigger]
        guid_bytes(a, b, c, d).len() == 8 + d.len() by {
        lemma_widths(a, 4);
        lemma_widths(b, 2);
        lemma_widths(c, 2);
    }
}

/// The dashes of a text.
pub open spec fn dashes(text: Seq<u8>) -> Seq<u8> {
    text.filter(|byte: u8| byte == '-' as u8)
}

/// Whether the groups of a text with four dashes have 8, 4, 4, 4 and 12 bytes.
pub open spec fn has_guid_groups(text: Seq<u8>) -> bool {
    &&& text.len() == 36
    &&& text[8] == '-' as u8
    &&& text[13] == '-' as u8
    &&& text[18] == '-' as u8
    &&& text[23] == '-' as u8
}

/// The GUID that a text (in UTF-8) stands for: five groups of hexadecimal digits with dashes
/// between them.
pub open spec fn guid_of_text(text: Seq<u8>) -> Result<Seq<u8>, GuidError> {
    if dashes(text).len() != 4 {
        Err(GuidError::GroupCount)
    } else if !has_guid_groups(text) {
        Err(GuidError::GroupLengths)
    } else {
        match (
            numeral(text.subrange(0, 8)),
            numeral(text.subrange(9, 13)),
            numeral(text.subrange(14, 18)),
            pairs(text.subrange(19, 23)),
            pairs(text.subrange(24, 36)),
        ) {
            (Some(a), Some(b), Some(c), Some(d), Some(e)) => Ok(guid_bytes(a, b, c, d + e)),
            _ => Err(GuidError::NotHexadecimal),
        }
    }
}

/// The text form of a GUID: its fields in hexadecimal, most significant digit first.
pub open spec fn guid_text(guid: Seq<u8>) -> Seq<char> {
    hex_text(guid.subrange(0, 4).reverse()) + seq!['-'] + hex_text(guid.subrange(4, 6).reverse())
        + seq!['-'] + hex_text(guid.subrange(6, 8).reverse()) + seq!['-'] + hex_text(
        guid.subrange(8, 10),
    ) + seq!['-'] + hex_text(guid.subrange(10, 16))
}

impl Guid {
    /// `EFI_GLOBAL_VARIABLE`: vendor GUID of `PK`, `KEK` and `SecureBoot`.
    pub fn global_variable() -> (guid: Guid)
        ensures
            guid@ == global_variable_guid(),
    {
        let rest: [u8; 8] = [0xaa, 0x0d, 0x00, 0xe0, 0x98, 0x03, 0x2b, 0x8c];
        assert(rest@ =~= seq![0xaau8, 0x0d, 0x00, 0xe0, 0x98, 0x03, 0x2b, 0x8c]);
        Guid::from_fields(0x8be4df61, 0x93ca, 0x11d2, rest)
    }

    /// `EFI_IMAGE_SECURITY_DATABASE_GUID`: vendor GUID of `db` and `dbx`.
    pub fn image_security_database() -> (guid: Guid)
        ensures
            guid@ == image_security_database_guid(),
    {
        let rest: [u8; 8] = [0xa3, 0xbc, 0xda, 0xd0, 0x0e, 0x67, 0x65, 0x6f];
        assert(rest@ =~= seq![0xa3u8, 0xbc, 0xda, 0xd0, 0x0e, 0x67, 0x65, 0x6f]);
        Guid::from_fields(0xd719b2cb, 0x3d3a, 0x4596, rest)
    }

    /// `EFI_CERT_X509_GUID`: signature type of an X.509 certificate entry.
    pub fn cert_x509() -> (guid: Guid)
        ensures
            guid@ == cert_x509_guid(),
    {
        let rest: [u8; 8] = [0x87, 0xb5, 0xab, 0x15, 0x5c, 0x2b, 0xf0, 0x72];
        assert(rest@ =~= seq![0x87u8, 0xb5, 0xab, 0x15, 0x5c, 0x2b, 0xf0, 0x72]);
        Guid::from_fields(0xa5c059a1, 0x94e4, 0x4aa7, rest)
    }

    /// `EFI_CERT_TYPE_PKCS7_GUID`: certificate type of an authenticated variable update.
    pub fn cert_type_pkcs7() -> (guid: Guid)
        ensures
            guid@ == cert_type_pkcs7_guid(),
    {
        let rest: [u8; 8] = [0x8a, 0xa9, 0x34, 0x7d, 0x37, 0x56, 0x65, 0xa7];
        assert(rest@ =~= seq![0x8au8, 0xa9, 0x34, 0x7d, 0x37, 0x56, 0x65, 0xa7]);
        Guid::from_fields(0x4aafd29d, 0x68df, 0x49ee, rest)
    }

    /// The GUID with the given bytes.
    pub(crate) fn from_sixteen(bytes: &[u8]) -> (guid: Guid)
        requires
            bytes@.len() == 16,
        ensures
            guid@ == bytes@,
    {
        let guid = Guid(
            [
                bytes[0],
                bytes[1],
                bytes[2],
                bytes[3],
                bytes[4],
                bytes[5],
                bytes[6],
                bytes[7],
                bytes[8],
                bytes[9],
                bytes[10],
                bytes[11],
                bytes[12],
                bytes[13],
                bytes[14],
                bytes[15],
            ],
        );
        assert(guid@ =~= bytes@);
        guid
    }

    pub fn from_fields(a: u32, b: u16, c: u16, d: [u8; 8]) -> (guid: Guid)
        ensures
            guid@ == guid_bytes(a as nat, b as nat, c as nat, d@),
    {
        let mut bytes: Vec<u8> = Vec::new();
        push_u32_le(&mut bytes, a);
        push_u16_le(&mut bytes, b);
        push_u16_le(&mut bytes, c);
        push_all(&mut bytes, d.as_slice());
        assert(bytes@ =~= guid_bytes(a as nat, b as nat, c as nat, d@));
        proof {
            lemma_widths(a as nat, 4);
            lemma_widths(b as nat, 2);
            lemma_widths(c as nat, 2);
        }
        Guid::from_sixteen(bytes.as_slice())
    }

    pub fn from_bytes(bytes: &[u8]) -> (result: Result<Guid, GuidError>)
        ensures
            match result {
                Ok(guid) => bytes@.len() == 16 && guid@ == bytes@,
                Err(error) => bytes@.len() != 16 && error == GuidError::Size,
            },
    {
        if bytes.len() == 16 {
            Ok(Guid::from_sixteen(bytes))
        } else {
            Err(GuidError::Size)
        }
    }
}

/// How many dashes a text has.
fn count_dashes(text: &[u8]) -> (count: usize)
    ensures
        count == dashes(text@).len(),
{
    let mut count: usize = 0;
    let mut i: usize = 0;
    proof {
        reveal(Seq::filter);
        assert(text@.take(0) =~= Seq::<u8>::empty());
    }
    while i < text.len()
        invariant
            i <= text@.len(),
            count == dashes(text@.take(i as int)).len(),
            count <= i,
        decreases text@.len() - i,
    {
        if text[i] == '-' as u8 {
            count += 1;
        }
        i += 1;
        proof {
            reveal(Seq::filter);
            assert(text@.take(i as int).drop_last() =~= text@.take(i - 1));
        }
    }
    assert(text@.take(i as int) =~= text@);
    count
}

impl Guid {
    /// The GUID that `text` stands for.
    pub fn parse(text: &str) -> (result: Result<Guid, GuidError>)
        ensures
            match result {
                Ok(guid) => guid_of_text(encode_utf8(text@)) == Ok::<Seq<u8>, GuidError>(guid@),
                Err(error) => guid_of_text(encode_utf8(text@)) == Err::<Seq<u8>, GuidError>(error),
            },
    {
        let bytes: &[u8] = text.as_bytes();
        if count_dashes(bytes) != 4 {
            return Err(GuidError::GroupCount);
        }
        if bytes.len() != 36 || bytes[8] != '-' as u8 || bytes[13] != '-' as u8 || bytes[18]
            != '-' as u8 || bytes[23] != '-' as u8 {
            return Err(GuidError::GroupLengths);
        }
        match (
            read_numeral(slice_subrange(bytes, 0, 8)),
            read_numeral(slice_subrange(bytes, 9, 13)),
            read_numeral(slice_subrange(bytes, 14, 18)),
            read_pairs(slice_subrange(bytes, 19, 23)),
            read_pairs(slice_subrange(bytes, 24, 36)),
        ) {
            (Some(a), Some(b), Some(c), Some(d), Some(e)) => {
                proof {
                    lemma_numeral_bound(bytes@.subrange(9, 13));
                    lemma_numeral_bound(bytes@.subrange(14, 18));
                }
                let rest: [u8; 8] = [d[0], d[1], e[0], e[1], e[2], e[3], e[4], e[5]];
                assert(rest@ =~= d@ + e@);
                Ok(Guid::from_fields(a, b as u16, c as u16, rest))
            },
            _ => Err(GuidError::NotHexadecimal),
        }
    }

    /// The text form of the GUID.
    pub fn to_string(&self) -> (text: String)
        ensures
            text@ == guid_text(self@),
    {
        let g = &self.0;
        let a: [u8; 4] = [g[3], g[2], g[1], g[0]];
        let b: [u8; 2] = [g[5], g[4]];
        let c: [u8; 2] = [g[7], g[6]];
        assert(a@ =~= self@.subrange(0, 4).reverse());
        assert(b@ =~= self@.subrange(4, 6).reverse());
        assert(c@ =~= self@.subrange(6, 8).reverse());
        let mut text = String::new();
        push_hex(&mut text, a.as_slice());
        text.push('-');
        push_hex(&mut text, b.as_slice());
        text.push('-');
        push_hex(&mut text, c.as_slice());
        text.push('-');
        push_hex(&mut text, slice_subrange(g.as_slice(), 8, 10));
        text.push('-');
        push_hex(&mut text, slice_subrange(g.as_slice(), 10, 16));
        assert(text@ =~= guid_text(self@));
        text
    }
}

impl FromStr for Guid {
    type Err = GuidError;

    fn from_str(text: &str) -> (result: Result<Guid, GuidError>)
        ensures
            match result {
                Ok(guid) => guid_of_text(encode_utf8(text@)) == Ok::<Seq<u8>, GuidError>(guid@),
                Err(error) => guid_of_text(encode_utf8(text@)) == Err::<Seq<u8>, GuidError>(error),
            },
    {
        Guid::parse(text)
    }
}

/// The dashes of two texts in a row are those of each.
proof fn lemma_dashes_concat(first: Seq<u8>, second: Seq<u8>)
    ensures
        dashes(first + second) == dashes(first) + dashes(second),
{
    Seq::filter_distributes_over_add(first, second, |byte: u8| byte == '-' as u8);
}

/// Hexadecimal text has no dashes.
proof fn lemma_no_dashes(text: Seq<u8>)
    requires
        forall|i: int| 0 <= i < text.len() ==> #[trigger] text[i] != '-' as u8,
    ensures
        dashes(text).len() == 0,
    decreases text.len(),
{
    reveal(Seq::filter);
    if text.len() > 0 {
        assert forall|i: int| 0 <= i < text.drop_last().len() implies #[trigger] text.drop_last()[i]
            != '-' as u8 by {
            assert(text.drop_last()[i] == text[i]);
        }
        lemma_no_dashes(text.drop_last());
    }
}

/// A dash is a dash.
proof fn lemma_one_dash()
    ensures
        dashes(seq!['-' as u8]).len() == 1,
{
    reveal(Seq::filter);
    reveal_with_fuel(Seq::filter, 2);
    assert(seq!['-' as u8].drop_last() =~= Seq::<u8>::empty());
}

/// One group of the text form: it has no dashes, and two digits for each byte.
proof fn lemma_group_text(group: Seq<u8>)
    ensures
        ascii(hex_text(group)).len() == 2 * group.len(),
        dashes(ascii(hex_text(group))).len() == 0,
        pairs(ascii(hex_text(group))) == Some(group),
        group.len() > 0 ==> numeral(ascii(hex_text(group))) == Some(be_value(group)),
{
    let text = hex_text(group);
    lemma_hex_text(group);
    law_hex_round_trip(group);
    if group.len() > 0 {
        lemma_hex_numeral(group);
    }
    assert forall|i: int| 0 <= i < ascii(text).len() implies #[trigger] ascii(text)[i]
        != '-' as u8 by {
        assert(ascii(text)[i] == text[i] as u8);
    }
    lemma_no_dashes(ascii(text));
}

/// A little-endian field reads as the big-endian one with its bytes in reverse.
proof fn lemma_reversed_field(field: Seq<u8>)
    ensures
        le_bytes(be_value(field.reverse()), field.len()) == field,
    decreases field.len(),
{
    lemma_le_bytes_of_value(field);
    lemma_reversed_value(field);
}

proof fn lemma_reversed_value(field: Seq<u8>)
    ensures
        be_value(field.reverse()) == le_value(field),
    decreases field.len(),
{
    if field.len() > 0 {
        lemma_reversed_value(field.drop_first());
        assert(field.reverse().drop_last() =~= field.drop_first().reverse());
    }
}

/// The text form of a GUID in UTF-8: its groups, one byte for each character.
proof fn lemma_guid_text_bytes(guid: Seq<u8>)
    requires
        guid.len() == 16,
    ensures
        encode_utf8(guid_text(guid)) == ascii(guid_text(guid)),
{
    lemma_hex_text(guid.subrange(0, 4).reverse());
    lemma_hex_text(guid.subrange(4, 6).reverse());
    lemma_hex_text(guid.subrange(6, 8).reverse());
    lemma_hex_text(guid.subrange(8, 10));
    lemma_hex_text(guid.subrange(10, 16));
    let text = guid_text(guid);
    assert forall|i: int| 0 <= i < text.len() implies '\0' <= #[trigger] text[i] <= '\u{7f}' by {
        if i < 8 {
            assert(text[i] == hex_text(guid.subrange(0, 4).reverse())[i]);
        } else if 8 < i < 13 {
            assert(text[i] == hex_text(guid.subrange(4, 6).reverse())[i - 9]);
        } else if 13 < i < 18 {
            assert(text[i] == hex_text(guid.subrange(6, 8).reverse())[i - 14]);
        } else if 18 < i < 23 {
            assert(text[i] == hex_text(guid.subrange(8, 10))[i - 19]);
        } else if 23 < i {
            assert(text[i] == hex_text(guid.subrange(10, 16))[i - 24]);
        }
    }
    lemma_utf8_ascii(text);
}

/// Parsing the text form of a GUID gives the GUID.
pub proof fn law_guid_round_trip(guid: Seq<u8>)
    requires
        guid.len() == 16,
    ensures
        guid_of_text(encode_utf8(guid_text(guid))) == Ok::<Seq<u8>, GuidError>(guid),
{
    lemma_guid_text_bytes(guid);
    let text = ascii(guid_text(guid));
    let a = ascii(hex_text(guid.subrange(0, 4).reverse()));
    let b = ascii(hex_text(guid.subrange(4, 6).reverse()));
    let c = ascii(hex_text(guid.subrange(6, 8).reverse()));
    let d = ascii(hex_text(guid.subrange(8, 10)));
    let e = ascii(hex_text(guid.subrange(10, 16)));
    let dash = seq!['-' as u8];
    lemma_group_text(guid.subrange(0, 4).reverse());
    lemma_group_text(guid.subrange(4, 6).reverse());
    lemma_group_text(guid.subrange(6, 8).reverse());
    lemma_group_text(guid.subrange(8, 10));
    lemma_group_text(guid.subrange(10, 16));
    assert(text =~= a + dash + b + dash + c + dash + d + dash + e);
    lemma_one_dash();
    lemma_dashes_concat(a, dash);
    lemma_dashes_concat(a + dash, b);
    lemma_dashes_concat(a + dash + b, dash);
    lemma_dashes_concat(a + dash + b + dash, c);
    lemma_dashes_concat(a + dash + b + dash + c, dash);
    lemma_dashes_concat(a + dash + b + dash + c + dash, d);
    lemma_dashes_concat(a + dash + b + dash + c + dash + d, dash);
    lemma_dashes_concat(a + dash + b + dash + c + dash + d + dash, e);
    assert(text.subrange(0, 8) =~= a);
    assert(text.subrange(9, 13) =~= b);
    assert(text.subrange(14, 18) =~= c);
    assert(text.subrange(19, 23) =~= d);
    assert(text.subrange(24, 36) =~= e);
    lemma_reversed_field(guid.subrange(0, 4));
    lemma_reversed_field(guid.subrange(4, 6));
    lemma_reversed_field(guid.subrange(6, 8));
    assert(guid.subrange(0, 4) + guid.subrange(4, 6) + guid.subrange(6, 8) + (guid.subrange(8, 10)
        + guid.subrange(10, 16)) =~= guid);
}

/// Whether a text has five groups of lower-case digits, as the text form of a GUID has.
pub open spec fn is_guid_text(text: Seq<u8>) -> bool {
    &&& has_guid_groups(text)
    &&& forall|i: int|
        0 <= i < text.len() && i != 8 && i != 13 && i != 18 && i != 23 ==> is_hex(
            #[trigger] text[i],
        )
}

/// A part of a text without the dashes between its groups.
proof fn lemma_group_of_text(text: Seq<u8>, start: int, end: int)
    requires
        is_guid_text(text),
        0 <= start <= end <= 36,
        (end - start) % 2 == 0,
        end - start >= 2,
        !(start <= 8 < end),
        !(start <= 13 < end),
        !(start <= 18 < end),
        !(start <= 23 < end),
    ensures
        ({
            let group = text.subrange(start, end);
            &&& dashes(group).len() == 0
            &&& pairs(group) is Some
            &&& pairs(group)->0.len() == (end - start) / 2
            &&& ascii(hex_text(pairs(group)->0)) == group
            &&& numeral(group) == Some(be_value(pairs(group)->0))
        }),
{
    let group = text.subrange(start, end);
    assert forall|i: int| 0 <= i < group.len() implies is_hex(#[trigger] group[i]) by {
        assert(group[i] == text[start + i]);
    }
    law_hex_text_of_pairs(group);
    assert(is_hex(group[0]));
    lemma_no_dashes(group);
}

/// Every text of five groups of lower-case digits is that of a GUID: it is parsed, and the GUID
/// shows it again.
pub proof fn law_guid_text_round_trip(text: Seq<u8>)
    requires
        is_guid_text(text),
    ensures
        guid_of_text(text) is Ok,
        ascii(guid_text(guid_of_text(text)->Ok_0)) == text,
{
    let a = text.subrange(0, 8);
    let b = text.subrange(9, 13);
    let c = text.subrange(14, 18);
    let d = text.subrange(19, 23);
    let e = text.subrange(24, 36);
    lemma_group_of_text(text, 0, 8);
    lemma_group_of_text(text, 9, 13);
    lemma_group_of_text(text, 14, 18);
    lemma_group_of_text(text, 19, 23);
    lemma_group_of_text(text, 24, 36);
    let dash = seq!['-' as u8];
    assert(text =~= a + dash + b + dash + c + dash + d + dash + e);
    lemma_one_dash();
    lemma_dashes_concat(a, dash);
    lemma_dashes_concat(a + dash, b);
    lemma_dashes_concat(a + dash + b, dash);
    lemma_dashes_concat(a + dash + b + dash, c);
    lemma_dashes_concat(a + dash + b + dash + c, dash);
    lemma_dashes_concat(a + dash + b + dash + c + dash, d);
    lemma_dashes_concat(a + dash + b + dash + c + dash + d, dash);
    lemma_dashes_concat(a + dash + b + dash + c + dash + d + dash, e);
    let guid = guid_of_text(text)->Ok_0;
    lemma_field_of_group(pairs(a)->0);
    lemma_field_of_group(pairs(b)->0);
    lemma_field_of_group(pairs(c)->0);
    assert(guid.subrange(0, 4).reverse() =~= pairs(a)->0);
    assert(guid.subrange(4, 6).reverse() =~= pairs(b)->0);
    assert(guid.subrange(6, 8).reverse() =~= pairs(c)->0);
    assert(guid.subrange(8, 10) =~= pairs(d)->0);
    assert(guid.subrange(10, 16) =~= pairs(e)->0);
    assert(ascii(guid_text(guid)) =~= a + dash + b + dash + c + dash + d + dash + e);
}

/// A field holds the bytes of its group in reverse.
proof fn lemma_field_of_group(group: Seq<u8>)
    ensures
        le_bytes(be_value(group), group.len()) == group.reverse(),
{
    lemma_reversed_field(group.reverse());
    assert(group.reverse().reverse() =~= group);
}

/// The GUID that is made of random bytes: version 4 and variant 1 in the bits for them, random
/// bits in all others.
pub open spec fn random_guid(bytes: Seq<u8>) -> Seq<u8> {
    bytes.update(7, (bytes[7] % 16 + 0x40) as u8).update(8, (bytes[8] % 64 + 0x80) as u8)
}

impl Guid {
    /// A GUID made of random bytes (version 4, variant 1).
    pub fn random(bytes: [u8; 16]) -> (guid: Guid)
        ensures
            guid@ == random_guid(bytes@),
    {
        let mut bytes = bytes;
        bytes[7] = bytes[7] % 16 + 0x40;
        bytes[8] = bytes[8] % 64 + 0x80;
        Guid(bytes)
    }
}

/// The text of a random GUID shows its version, `4`, and its variant, `8` to `b`.
pub proof fn law_random_guid_shows_its_version(bytes: Seq<u8>)
    requires
        bytes.len() == 16,
    ensures
        guid_text(random_guid(bytes))[14] == '4',
        guid_text(random_guid(bytes))[19] == '8' || guid_text(random_guid(bytes))[19] == '9'
            || guid_text(random_guid(bytes))[19] == 'a' || guid_text(random_guid(bytes))[19]
            == 'b',
{
    let guid = random_guid(bytes);
    reveal_with_fuel(hex_text, 3);
    lemma_hex_text(guid.subrange(0, 4).reverse());
    lemma_hex_text(guid.subrange(4, 6).reverse());
    let third = guid.subrange(6, 8).reverse();
    let fourth = guid.subrange(8, 10);
    lemma_hex_text(third);
    lemma_hex_text(fourth);
    assert(third.drop_last() =~= seq![guid[7]]);
    assert(fourth.drop_last() =~= seq![guid[8]]);
    assert(seq![guid[7]].drop_last() =~= Seq::<u8>::empty());
    assert(seq![guid[8]].drop_last() =~= Seq::<u8>::empty());
    assert(guid_text(guid)[14] == hex_text(third)[0]);
    assert(guid_text(guid)[19] == hex_text(fourth)[0]);
    assert(hex_text(third)[0] == hex_digit(guid[7] as nat / 16));
    assert(hex_text(fourth)[0] == hex_digit(guid[8] as nat / 16));
}

/// The well-known GUIDs, as firmware stores them.
pub proof fn law_known_guids()
    ensures
        global_variable_guid() == seq![
            0x61u8, 0xdf, 0xe4, 0x8b, 0xca, 0x93, 0xd2, 0x11, 0xaa, 0x0d, 0x00, 0xe0, 0x98, 0x03,
            0x2b, 0x8c,
        ],
        image_security_database_guid() == seq![
            0xcbu8, 0xb2, 0x19, 0xd7, 0x3a, 0x3d, 0x96, 0x45, 0xa3, 0xbc, 0xda, 0xd0, 0x0e, 0x67,
            0x65, 0x6f,
        ],
        cert_x509_guid() == seq![
            0xa1u8, 0x59, 0xc0, 0xa5, 0xe4, 0x94, 0xa7, 0x4a, 0x87, 0xb5, 0xab, 0x15, 0x5c, 0x2b,
            0xf0, 0x72,
        ],
        cert_type_pkcs7_guid() == seq![
            0x9du8, 0xd2, 0xaf, 0x4a, 0xdf, 0x68, 0xee, 0x49, 0x8a, 0xa9, 0x34, 0x7d, 0x37, 0x56,
            0x65, 0xa7,
        ],
{
    lemma_guid_fields(0x8be4df61, 0x93ca, 0x11d2);
    lemma_guid_fields(0xd719b2cb, 0x3d3a, 0x4596);
    lemma_guid_fields(0xa5c059a1, 0x94e4, 0x4aa7);
    lemma_guid_fields(0x4aafd29d, 0x68df, 0x49ee);
}

/// The bytes of the three numeric fields.
proof fn lemma_guid_fields(a: nat, b: nat, c: nat)
    ensures
        le_bytes(a, 4) == seq![
            (a % 256) as u8,
            (a / 256 % 256) as u8,
            (a / 0x1_0000 % 256) as u8,
            (a / 0x100_0000 % 256) as u8,
        ],
        le_bytes(b, 2) == seq![(b % 256) as u8, (b / 256 % 256) as u8],
        le_bytes(c, 2) == seq![(c % 256) as u8, (c / 256 % 256) as u8],
{
    reveal_with_fuel(le_bytes, 5);
    assert(a / 256 / 256 == a / 0x1_0000);
    assert(a / 256 / 256 / 256 == a / 0x100_0000);
    assert(le_bytes(a, 4) =~= seq![
        (a % 256) as u8,
        (a / 256 % 256) as u8,
        (a / 256 / 256 % 256) as u8,
        (a / 256 / 256 / 256 % 256) as u8,
    ]);
    assert(le_bytes(b, 2) =~= seq![(b % 256) as u8, (b / 256 % 256) as u8]);
    assert(le_bytes(c, 2) =~= seq![(c % 256) as u8, (c / 256 % 256) as u8]);
}

/// The first three fields of a GUID are stored least significant byte first, and the rest as it
/// is given.
pub proof fn law_guid_fields(a: u32, b: u16, c: u16, d: Seq<u8>)
    requires
        d.len() == 8,
    ensures
        ({
            let guid = guid_bytes(a as nat, b as nat, c as nat, d);
            &&& guid.len() == 16
            &&& guid[0] + 0x100 * guid[1] + 0x1_0000 * guid[2] + 0x100_0000 * guid[3] == a
            &&& guid[4] + 0x100 * guid[5] == b
            &&& guid[6] + 0x100 * guid[7] == c
            &&& guid.skip(8) == d
        }),
{
    lemma_guid_fields(a as nat, b as nat, c as nat);
    let guid = guid_bytes(a as nat, b as nat, c as nat, d);
    assert(guid.skip(8) =~= d);
    let x = a as nat;
    assert(x == x % 256 + 0x100 * (x / 256 % 256) + 0x1_0000 * (x / 0x1_0000 % 256) + 0x100_0000 * (
    x / 0x100_0000 % 256));
}

/// A random GUID keeps all random bits but those of the version, which is 4, and the variant,
/// which is 1.
pub proof fn law_random_guid_keeps_the_rest(bytes: Seq<u8>)
    requires
        bytes.len() == 16,
    ensures
        ({
            let guid = random_guid(bytes);
            &&& guid.len() == 16
            &&& forall|i: int| 0 <= i < 16 && i != 7 && i != 8 ==> guid[i] == bytes[i]
            &&& 0x40 <= guid[7] <= 0x4f && guid[7] % 16 == bytes[7] % 16
            &&& 0x80 <= guid[8] <= 0xbf && guid[8] % 64 == bytes[8] % 64
        }),
{
}

/// The text of a GUID shows the bytes of the first three fields in reverse, and the others in
/// order, two digits each, with dashes behind the fourth, sixth, eighth and tenth.
pub proof fn law_guid_text_layout(guid: Seq<u8>)
    requires
        guid.len() == 16,
    ensures
        ({
            let text = guid_text(guid);
            &&& text.len() == 36
            &&& text[8] == '-' && text[13] == '-' && text[18] == '-' && text[23] == '-'
            &&& text.subrange(0, 8) == hex_text(seq![guid[3], guid[2], guid[1], guid[0]])
            &&& text.subrange(9, 13) == hex_text(seq![guid[5], guid[4]])
            &&& text.subrange(14, 18) == hex_text(seq![guid[7], guid[6]])
            &&& text.subrange(19, 23) == hex_text(seq![guid[8], guid[9]])
            &&& text.subrange(24, 36) == hex_text(
                seq![guid[10], guid[11], guid[12], guid[13], guid[14], guid[15]],
            )
        }),
{
    let a = guid.subrange(0, 4).reverse();
    let b = guid.subrange(4, 6).reverse();
    let c = guid.subrange(6, 8).reverse();
    let d = guid.subrange(8, 10);
    let e = guid.subrange(10, 16);
    assert(a =~= seq![guid[3], guid[2], guid[1], guid[0]]);
    assert(b =~= seq![guid[5], guid[4]]);
    assert(c =~= seq![guid[7], guid[6]]);
    assert(d =~= seq![guid[8], guid[9]]);
    assert(e =~= seq![guid[10], guid[11], guid[12], guid[13], guid[14], guid[15]]);
    lemma_hex_text(a);
    lemma_hex_text(b);
    lemma_hex_text(c);
    lemma_hex_text(d);
    lemma_hex_text(e);
    let text = guid_text(guid);
    assert(text.subrange(0, 8) =~= hex_text(a));
    assert(text.subrange(9, 13) =~= hex_text(b));
    assert(text.subrange(14, 18) =~= hex_text(c));
    assert(text.subrange(19, 23) =~= hex_text(d));
    assert(text.subrange(24, 36) =~= hex_text(e));
}

/// The dashes of a text are counted one by one.
pub proof fn law_dashes(text: Seq<u8>, byte: u8)
    ensures
        dashes(Seq::empty()).len() == 0,
        dashes(text.push(byte)).len() == dashes(text).len() + if byte == 0x2d {
            1int
        } else {
            0
        },
{
    reveal(Seq::filter);
    assert(text.push(byte).drop_last() =~= text);
}

/// Which texts are those of a GUID, and of which: they have 36 bytes, with a dash behind the eighth
/// and then behind each four more digits, four times in all. The first three groups are numbers, and
/// stored least significant byte first; the last two are pairs of digits, and stored in order. Every
/// other text is refused: for the count of its dashes, for where they are, or for its digits.
pub proof fn law_guid_of_text(text: Seq<u8>)
    ensures
        ({
            let placed = text.len() == 36 && text[8] == 0x2d && text[13] == 0x2d && text[18] == 0x2d
                && text[23] == 0x2d;
            let a = numeral(text.subrange(0, 8));
            let b = numeral(text.subrange(9, 13));
            let c = numeral(text.subrange(14, 18));
            let d = pairs(text.subrange(19, 23));
            let e = pairs(text.subrange(24, 36));
            match guid_of_text(text) {
                Ok(guid) => {
                    &&& dashes(text).len() == 4 && placed
                    &&& guid.len() == 16
                    &&& a is Some && guid[0] + 0x100 * guid[1] + 0x1_0000 * guid[2] + 0x100_0000
                        * guid[3] == a->0
                    &&& b is Some && guid[4] + 0x100 * guid[5] == b->0
                    &&& c is Some && guid[6] + 0x100 * guid[7] == c->0
                    &&& d is Some && guid.subrange(8, 10) == d->0
                    &&& e is Some && guid.subrange(10, 16) == e->0
                },
                Err(GuidError::GroupCount) => dashes(text).len() != 4,
                Err(GuidError::GroupLengths) => dashes(text).len() == 4 && !placed,
                Err(GuidError::NotHexadecimal) => dashes(text).len() == 4 && placed && (a is None
                    || b is None || c is None || d is None || e is None),
                Err(GuidError::Size) => false,
            }
        }),
{
    if let Ok(guid) = guid_of_text(text) {
        let a = numeral(text.subrange(0, 8))->0;
        let b = numeral(text.subrange(9, 13))->0;
        let c = numeral(text.subrange(14, 18))->0;
        let d = pairs(text.subrange(19, 23))->0;
        let e = pairs(text.subrange(24, 36))->0;
        lemma_long_numeral_bound(text.subrange(0, 8));
        lemma_numeral_bound(text.subrange(9, 13));
        lemma_numeral_bound(text.subrange(14, 18));
        lemma_pairs_length(text.subrange(19, 23));
        lemma_pairs_length(text.subrange(24, 36));
        law_guid_fields(a as u32, b as u16, c as u16, d + e);
        assert(guid.subrange(8, 10) =~= guid.skip(8).take(2));
        assert(guid.subrange(10, 16) =~= guid.skip(8).skip(2));
        assert((d + e).take(2) =~= d);
        assert((d + e).skip(2) =~= e);
    }
}

} // verus!
