//! The little DER handling the EFI and TPM key code needs: walking known structures and encoding
//! a public key. Not a general ASN.1 implementation.

use vstd::prelude::*;
use vstd::slice::slice_subrange;
use vstd::utf8::encode_utf8;

use crate::bytes::{
    be_bytes, be_value, byte_range, law_be_round_trip, push_all, push_u32_be, to_vec,
};
pub use crate::pem::{pem_decode, pem_encode, PemError};
use crate::pem::{law_pem_round_trip, pem_block, pem_contents};

verus! {

/// Why a DER element could not be read.
#[derive(Clone, Copy, PartialEq, Eq, Debug, Structural)]
pub enum DerError {
    /// The input ends before the element does.
    Truncated,
    /// The length is not of one to four octets, or its octets are missing.
    InvalidLength,
    /// The element has another tag than the one asked for.
    UnexpectedTag { found: u8, expected: u8 },
}

/// A DER element: its tag, its contents, and its total encoded length.
#[derive(Clone, Copy, Debug)]
pub struct Element<'a> {
    pub tag: u8,
    pub contents: &'a [u8],
    pub len: usize,
}

/// What an [`Element`] stands for.
pub struct ElementView {
    pub tag: u8,
    pub contents: Seq<u8>,
    pub len: nat,
}

impl<'a> View for Element<'a> {
    type V = ElementView;

    open spec fn view(&self) -> ElementView {
        ElementView { tag: self.tag, contents: self.contents@, len: self.len as nat }
    }
}

/// The element at the start of `input` whose header is `header` bytes long and says that
/// `length` bytes of contents follow.
pub open spec fn delimited(input: Seq<u8>, header: nat, length: nat) -> Result<
    ElementView,
    DerError,
> {
    if input.len() < header + length {
        Err(DerError::Truncated)
    } else {
        Ok(
            ElementView {
                tag: input[0],
                contents: input.subrange(header as int, (header + length) as int),
                len: header + length,
            },
        )
    }
}

/// The element at the start of `input`: a tag, a length in the short form (one octet below 0x80)
/// or in the long form (0x80 plus the number of octets, one to four, then the octets), and as
/// many bytes of contents.
pub open spec fn element_at_start(input: Seq<u8>) -> Result<ElementView, DerError> {
    if input.len() < 2 {
        Err(DerError::Truncated)
    } else if input[1] < 0x80 {
        delimited(input, 2, input[1] as nat)
    } else {
        let octets = (input[1] - 0x80) as nat;
        if 1 <= octets <= 4 && input.len() >= 2 + octets {
            delimited(input, 2 + octets, be_value(input.subrange(2, (2 + octets) as int)))
        } else {
            Err(DerError::InvalidLength)
        }
    }
}

/// The element at the start of `input`, if it has the given tag.
pub open spec fn tagged_at_start(input: Seq<u8>, tag: u8) -> Result<ElementView, DerError> {
    match element_at_start(input) {
        Ok(element) => if element.tag == tag {
            Ok(element)
        } else {
            Err(DerError::UnexpectedTag { found: element.tag, expected: tag })
        },
        Err(error) => Err(error),
    }
}

/// The big-endian digits of a number, without leading zeros.
pub open spec fn digits(value: nat) -> Seq<u8>
    decreases value,
{
    if value == 0 {
        Seq::empty()
    } else {
        digits(value / 256).push((value % 256) as u8)
    }
}

/// The length octets of an element with `length` bytes of contents.
pub open spec fn length_octets(length: nat) -> Seq<u8> {
    if length < 0x80 {
        seq![length as u8]
    } else {
        seq![(0x80 + digits(length).len()) as u8] + digits(length)
    }
}

/// The encoding of an element.
pub open spec fn encoded(tag: u8, contents: Seq<u8>) -> Seq<u8> {
    seq![tag] + length_octets(contents.len()) + contents
}

/// `bytes` without its leading zeros.
pub open spec fn without_leading_zeros(bytes: Seq<u8>) -> Seq<u8>
    decreases bytes.len(),
{
    if bytes.len() > 0 && bytes[0] == 0 {
        without_leading_zeros(bytes.drop_first())
    } else {
        bytes
    }
}

/// The contents of the INTEGER that holds a non-negative number: its digits, or a single zero,
/// behind a zero byte where the first digit would otherwise be read as a sign.
pub open spec fn integer_contents(bytes: Seq<u8>) -> Seq<u8> {
    let stripped = without_leading_zeros(bytes);
    let magnitude = if stripped.len() == 0 {
        seq![0u8]
    } else {
        stripped
    };
    if magnitude[0] >= 0x80 {
        seq![0u8] + magnitude
    } else {
        magnitude
    }
}

proof fn lemma_digits(value: nat, width: nat)
    ensures
        be_value(digits(value)) == value,
        value < byte_range(width) ==> digits(value).len() <= width,
        value > 0 ==> digits(value).len() > 0,
    decreases value,
{
    if value > 0 {
        assert(digits(value).drop_last() =~= digits(value / 256));
        if width > 0 {
            lemma_digits(value / 256, (width - 1) as nat);
        } else {
            lemma_digits(value / 256, 0);
        }
    }
}

/// The digits of a machine length, and those of a length below 2^32.
proof fn lemma_length_digits(length: nat)
    ensures
        be_value(digits(length)) == length,
        length <= u64::MAX ==> digits(length).len() <= 8,
        length <= u32::MAX ==> digits(length).len() <= 4,
        length > 0 ==> digits(length).len() > 0,
{
    reveal_with_fuel(byte_range, 9);
    lemma_digits(length, 8);
    lemma_digits(length, 4);
}

/// Reading an encoded element gives it back, whatever follows it, as long as its length fits
/// the four octets that a reader accepts.
pub proof fn law_element_round_trip(tag: u8, contents: Seq<u8>, rest: Seq<u8>)
    requires
        contents.len() <= u32::MAX,
    ensures
        element_at_start(encoded(tag, contents) + rest) == Ok::<ElementView, DerError>(
            ElementView { tag, contents, len: encoded(tag, contents).len() },
        ),
{
    lemma_length_digits(contents.len());
    let input = encoded(tag, contents) + rest;
    let octets = length_octets(contents.len());
    assert(input[0] == tag);
    assert(input[1] == octets[0]);
    if contents.len() >= 0x80 {
        let count = digits(contents.len()).len();
        assert(input.subrange(2, 2 + count as int) =~= digits(contents.len()));
        assert(input.subrange(2 + count as int, 2 + count as int + contents.len()) =~= contents);
    } else {
        assert(input.subrange(2, 2 + contents.len() as int) =~= contents);
    }
}

/// Stripping zeros keeps the value, and leaves no zero at the front.
proof fn lemma_without_leading_zeros(bytes: Seq<u8>)
    ensures
        be_value(without_leading_zeros(bytes)) == be_value(bytes),
        without_leading_zeros(bytes).len() <= bytes.len(),
        without_leading_zeros(bytes).len() > 0 ==> without_leading_zeros(bytes)[0] != 0,
    decreases bytes.len(),
{
    if bytes.len() > 0 && bytes[0] == 0 {
        lemma_without_leading_zeros(bytes.drop_first());
        lemma_leading_zero(bytes.drop_first());
        assert(seq![0u8] + bytes.drop_first() =~= bytes);
    }
}

/// A zero in front does not change a value.
proof fn lemma_leading_zero(bytes: Seq<u8>)
    ensures
        be_value(seq![0u8] + bytes) == be_value(bytes),
    decreases bytes.len(),
{
    let longer = seq![0u8] + bytes;
    if bytes.len() == 0 {
        reveal_with_fuel(be_value, 2);
    } else {
        lemma_leading_zero(bytes.drop_last());
        assert(longer.drop_last() =~= seq![0u8] + bytes.drop_last());
    }
}

/// The INTEGER holds the number it was made from, never reads as negative, and is as short as
/// DER demands: its first nine bits are not all zero.
pub proof fn law_integer_contents(bytes: Seq<u8>)
    ensures
        be_value(integer_contents(bytes)) == be_value(bytes),
        integer_contents(bytes).len() >= 1,
        integer_contents(bytes)[0] < 0x80,
        integer_contents(bytes).len() > 1 && integer_contents(bytes)[0] == 0
            ==> integer_contents(bytes)[1] >= 0x80,
{
    lemma_without_leading_zeros(bytes);
    let stripped = without_leading_zeros(bytes);
    if stripped.len() == 0 {
        reveal_with_fuel(be_value, 2);
    } else {
        lemma_leading_zero(stripped);
    }
}

/// Parse the DER element at the start of `input`.
pub fn element(input: &[u8]) -> (result: Result<Element<'_>, DerError>)
    ensures
        match result {
            Ok(element) => element_at_start(input@) == Ok::<ElementView, DerError>(element@),
            Err(error) => element_at_start(input@) == Err::<ElementView, DerError>(error),
        },
{
    if input.len() < 2 {
        return Err(DerError::Truncated);
    }
    let mut header: usize = 2;
    let mut length: u32 = input[1] as u32;
    if input[1] >= 0x80 {
        let octets: usize = input[1] as usize - 0x80;
        if octets < 1 || octets > 4 || input.len() < 2 + octets {
            return Err(DerError::InvalidLength);
        }
        length = 0;
        while header < 2 + octets
            invariant
                octets <= 4,
                2 <= header <= 2 + octets <= input@.len(),
                length == be_value(input@.subrange(2, header as int)),
                header == 2 ==> length == 0,
                header == 3 ==> length < 0x100,
                header == 4 ==> length < 0x1_0000,
                header == 5 ==> length < 0x100_0000,
            decreases 2 + octets - header,
        {
            proof {
                let read = input@.subrange(2, header + 1);
                assert(read.drop_last() =~= input@.subrange(2, header as int));
            }
            length = length * 256 + input[header] as u32;
            header += 1;
        }
    }
    if input.len() - header < length as usize {
        return Err(DerError::Truncated);
    }
    let end: usize = header + length as usize;
    Ok(Element { tag: input[0], contents: slice_subrange(input, header, end), len: end })
}

/// Parse the DER element at the start of `input`, requiring `tag`.
pub fn expect(input: &[u8], tag: u8) -> (result: Result<Element<'_>, DerError>)
    ensures
        match result {
            Ok(element) => tagged_at_start(input@, tag) == Ok::<ElementView, DerError>(element@),
            Err(error) => tagged_at_start(input@, tag) == Err::<ElementView, DerError>(error),
        },
{
    match element(input) {
        Ok(element) => {
            if element.tag == tag {
                Ok(element)
            } else {
                Err(DerError::UnexpectedTag { found: element.tag, expected: tag })
            }
        },
        Err(error) => Err(error),
    }
}

/// Append the big-endian digits of a number, without leading zeros.
fn push_digits(out: &mut Vec<u8>, value: usize)
    ensures
        final(out)@ == old(out)@ + digits(value as nat),
    decreases value,
{
    if value > 0 {
        push_digits(out, value / 256);
        out.push((value % 256) as u8);
    }
    assert(out@ =~= old(out)@ + digits(value as nat));
}

/// Encode a DER element.
pub fn encode(tag: u8, contents: &[u8]) -> (out: Vec<u8>)
    ensures
        out@ == encoded(tag, contents@),
{
    let length: usize = contents.len();
    let mut out: Vec<u8> = Vec::new();
    out.push(tag);
    if length < 0x80 {
        out.push(length as u8);
    } else {
        let mut octets: Vec<u8> = Vec::new();
        push_digits(&mut octets, length);
        proof {
            lemma_length_digits(length as nat);
        }
        out.push(0x80 + octets.len() as u8);
        push_all(&mut out, octets.as_slice());
    }
    assert(out@ =~= seq![tag] + length_octets(length as nat));
    push_all(&mut out, contents);
    out
}

/// Encode a non-negative big-endian integer as a DER INTEGER.
pub fn encode_unsigned(bytes: &[u8]) -> (out: Vec<u8>)
    ensures
        out@ == encoded(0x02, integer_contents(bytes@)),
{
    let mut first: usize = 0;
    assert(bytes@.subrange(0, bytes@.len() as int) =~= bytes@);
    while first < bytes.len() && bytes[first] == 0
        invariant
            first <= bytes@.len(),
            without_leading_zeros(bytes@) == without_leading_zeros(
                bytes@.subrange(first as int, bytes@.len() as int),
            ),
        decreases bytes@.len() - first,
    {
        proof {
            let rest = bytes@.subrange(first as int, bytes@.len() as int);
            assert(rest.drop_first() =~= bytes@.subrange(first + 1, bytes@.len() as int));
        }
        first += 1;
    }
    let mut contents: Vec<u8> = Vec::new();
    if first == bytes.len() {
        contents.push(0);
    } else {
        if bytes[first] >= 0x80 {
            contents.push(0);
        }
        push_all(&mut contents, slice_subrange(bytes, first, bytes.len()));
    }
    assert(contents@ =~= integer_contents(bytes@));
    encode(0x02, contents.as_slice())
}

/// `AlgorithmIdentifier { rsaEncryption, NULL }`.
pub open spec fn rsa_encryption() -> Seq<u8> {
    seq![
        0x30u8,
        0x0d,
        0x06,
        0x09,
        0x2a,
        0x86,
        0x48,
        0x86,
        0xf7,
        0x0d,
        0x01,
        0x01,
        0x01,
        0x05,
        0x00,
    ]
}

/// `RSAPublicKey { modulus, publicExponent }`.
pub open spec fn rsa_public_key_der(modulus: Seq<u8>, exponent: nat) -> Seq<u8> {
    encoded(
        0x30,
        encoded(0x02, integer_contents(modulus)) + encoded(
            0x02,
            integer_contents(be_bytes(exponent, 4)),
        ),
    )
}

/// `SubjectPublicKeyInfo { rsaEncryption, BIT STRING (no unused bits) of the RSAPublicKey }`.
pub open spec fn subject_public_key_info(modulus: Seq<u8>, exponent: nat) -> Seq<u8> {
    encoded(
        0x30,
        rsa_encryption() + encoded(0x03, seq![0u8] + rsa_public_key_der(modulus, exponent)),
    )
}

/// An RSA public key as a PEM `SubjectPublicKeyInfo`.
pub fn rsa_public_key_pem(modulus: &[u8], exponent: u32) -> (pem: String)
    ensures
        pem@ == pem_block("PUBLIC KEY"@, subject_public_key_info(modulus@, exponent as nat)),
{
    let mut numbers: Vec<u8> = encode_unsigned(modulus);
    let mut exponent_bytes: Vec<u8> = Vec::new();
    push_u32_be(&mut exponent_bytes, exponent);
    assert(exponent_bytes@ =~= be_bytes(exponent as nat, 4));
    push_all(&mut numbers, encode_unsigned(exponent_bytes.as_slice()).as_slice());
    let mut bits: Vec<u8> = Vec::new();
    bits.push(0);
    push_all(&mut bits, encode(0x30, numbers.as_slice()).as_slice());
    assert(bits@ =~= seq![0u8] + rsa_public_key_der(modulus@, exponent as nat));
    let algorithm: [u8; 15] = [
        0x30,
        0x0d,
        0x06,
        0x09,
        0x2a,
        0x86,
        0x48,
        0x86,
        0xf7,
        0x0d,
        0x01,
        0x01,
        0x01,
        0x05,
        0x00,
    ];
    assert(algorithm@ =~= rsa_encryption());
    let mut info: Vec<u8> = to_vec(algorithm.as_slice());
    push_all(&mut info, encode(0x03, bits.as_slice()).as_slice());
    pem_encode("PUBLIC KEY", encode(0x30, info.as_slice()).as_slice())
}

/// How much longer than its contents an element is.
proof fn lemma_encoded_len(tag: u8, contents: Seq<u8>)
    requires
        contents.len() <= u32::MAX,
    ensures
        contents.len() + 2 <= encoded(tag, contents).len() <= contents.len() + 6,
{
    lemma_length_digits(contents.len());
}

/// Two elements in a row read back one after the other.
proof fn lemma_pair_reads_back(tag: u8, first: Seq<u8>, second: Seq<u8>)
    requires
        first.len() + second.len() + 12 <= u32::MAX,
    ensures
        ({
            let both = encoded(tag, first) + encoded(tag, second);
            let length = encoded(tag, first).len() as int;
            &&& both.len() <= first.len() + second.len() + 12
            &&& element_at_start(both) == Ok::<ElementView, DerError>(
                ElementView { tag, contents: first, len: length as nat },
            )
            &&& element_at_start(both.skip(length)) == Ok::<ElementView, DerError>(
                ElementView { tag, contents: second, len: encoded(tag, second).len() },
            )
        }),
{
    let none = Seq::<u8>::empty();
    lemma_encoded_len(tag, first);
    lemma_encoded_len(tag, second);
    law_element_round_trip(tag, first, encoded(tag, second));
    law_element_round_trip(tag, second, none);
    assert((encoded(tag, first) + encoded(tag, second)).skip(encoded(tag, first).len() as int)
        =~= encoded(tag, second) + none);
}

/// An element behind a prefix reads back.
proof fn lemma_suffix_reads_back(prefix: Seq<u8>, tag: u8, contents: Seq<u8>)
    requires
        contents.len() <= u32::MAX,
    ensures
        (prefix + encoded(tag, contents)).len() <= prefix.len() + contents.len() + 6,
        (prefix + encoded(tag, contents)).take(prefix.len() as int) == prefix,
        element_at_start((prefix + encoded(tag, contents)).skip(prefix.len() as int)) == Ok::<
            ElementView,
            DerError,
        >(ElementView { tag, contents, len: encoded(tag, contents).len() }),
{
    let none = Seq::<u8>::empty();
    let all = prefix + encoded(tag, contents);
    lemma_encoded_len(tag, contents);
    law_element_round_trip(tag, contents, none);
    assert(all.skip(prefix.len() as int) =~= encoded(tag, contents) + none);
    assert(all.take(prefix.len() as int) =~= prefix);
}

/// The numbers in two INTEGERs in a row.
pub open spec fn two_integers(bytes: Seq<u8>) -> Option<(nat, nat)> {
    match tagged_at_start(bytes, 0x02) {
        Ok(first) => match tagged_at_start(bytes.skip(first.len as int), 0x02) {
            Ok(second) => Some((be_value(first.contents), be_value(second.contents))),
            Err(_) => None,
        },
        Err(_) => None,
    }
}

/// The modulus and the exponent in the contents of a BIT STRING without unused bits.
pub open spec fn key_in_bits(bits: Seq<u8>) -> Option<(nat, nat)> {
    if bits.len() > 0 && bits[0] == 0 {
        match tagged_at_start(bits.skip(1), 0x30) {
            Ok(numbers) => two_integers(numbers.contents),
            Err(_) => None,
        }
    } else {
        None
    }
}

/// The modulus and the exponent in the contents of a `SubjectPublicKeyInfo` of an RSA key.
pub open spec fn key_in_info(info: Seq<u8>) -> Option<(nat, nat)> {
    if info.len() >= 15 && info.take(15) == rsa_encryption() {
        match tagged_at_start(info.skip(15), 0x03) {
            Ok(bits) => key_in_bits(bits.contents),
            Err(_) => None,
        }
    } else {
        None
    }
}

/// The modulus and the exponent in a `SubjectPublicKeyInfo` of an RSA key.
pub open spec fn key_in_der(der: Seq<u8>) -> Option<(nat, nat)> {
    match tagged_at_start(der, 0x30) {
        Ok(info) => key_in_info(info.contents),
        Err(_) => None,
    }
}

/// The two numbers of an `RSAPublicKey` read back.
proof fn lemma_numbers_read_back(modulus: Seq<u8>, exponent: u32)
    requires
        modulus.len() + 64 <= u32::MAX,
    ensures
        ({
            let numbers = encoded(0x02, integer_contents(modulus)) + encoded(
                0x02,
                integer_contents(be_bytes(exponent as nat, 4)),
            );
            &&& numbers.len() <= modulus.len() + 24
            &&& two_integers(numbers) == Some((be_value(modulus), exponent as nat))
        }),
{
    let exponent_bytes = be_bytes(exponent as nat, 4);
    assert(byte_range(4) == 0x1_0000_0000) by {
        reveal_with_fuel(byte_range, 5);
    }
    law_be_round_trip(exponent as nat, 4);
    law_integer_contents(modulus);
    law_integer_contents(exponent_bytes);
    lemma_without_leading_zeros(modulus);
    lemma_without_leading_zeros(exponent_bytes);
    lemma_pair_reads_back(0x02, integer_contents(modulus), integer_contents(exponent_bytes));
}

proof fn lemma_bits_read_back(numbers: Seq<u8>)
    requires
        numbers.len() <= u32::MAX,
    ensures
        (seq![0u8] + encoded(0x30, numbers)).len() <= numbers.len() + 7,
        key_in_bits(seq![0u8] + encoded(0x30, numbers)) == two_integers(numbers),
{
    lemma_suffix_reads_back(seq![0u8], 0x30, numbers);
}

proof fn lemma_info_reads_back(bits: Seq<u8>)
    requires
        bits.len() <= u32::MAX,
    ensures
        (rsa_encryption() + encoded(0x03, bits)).len() <= bits.len() + 21,
        key_in_info(rsa_encryption() + encoded(0x03, bits)) == key_in_bits(bits),
{
    assert(rsa_encryption().len() == 15);
    lemma_suffix_reads_back(rsa_encryption(), 0x03, bits);
}

proof fn lemma_der_reads_back(info: Seq<u8>)
    requires
        info.len() <= u32::MAX,
    ensures
        key_in_der(encoded(0x30, info)) == key_in_info(info),
{
    law_element_round_trip(0x30, info, Seq::empty());
    assert(encoded(0x30, info) + Seq::<u8>::empty() =~= encoded(0x30, info));
}

/// The key file reads back: a decoder of the PEM block finds the algorithm, and behind it, in a
/// BIT STRING without unused bits, the modulus and the exponent. (A modulus whose encoding would
/// need a length of more than four octets is left out.)
pub proof fn law_rsa_public_key_reads_back(modulus: Seq<u8>, exponent: u32)
    requires
        modulus.len() + 64 <= u32::MAX,
    ensures
        ({
            let der = subject_public_key_info(modulus, exponent as nat);
            &&& pem_contents(encode_utf8(pem_block("PUBLIC KEY"@, der)), "PUBLIC KEY"@) == Ok::<
                Seq<u8>,
                PemError,
            >(der)
            &&& key_in_der(der) == Some((be_value(modulus), exponent as nat))
        }),
{
    let numbers = encoded(0x02, integer_contents(modulus)) + encoded(
        0x02,
        integer_contents(be_bytes(exponent as nat, 4)),
    );
    let bits = seq![0u8] + encoded(0x30, numbers);
    let info = rsa_encryption() + encoded(0x03, bits);
    let der = encoded(0x30, info);
    lemma_numbers_read_back(modulus, exponent);
    lemma_bits_read_back(numbers);
    lemma_info_reads_back(bits);
    lemma_der_reads_back(info);
    law_pem_round_trip("PUBLIC KEY"@, der);
}

/// What is read at the start of an input, by its bytes: the tag is the first, the length is the
/// second or, where that is 0x80 and more, the number in as many bytes behind it as it has above
/// 0x80, and the contents are as many bytes as the length says.
pub proof fn law_element_fields(input: Seq<u8>)
    ensures
        match element_at_start(input) {
            Ok(element) => {
                let header = element.len - element.contents.len();
                &&& 2 <= header <= 6
                &&& element.len <= input.len()
                &&& element.tag == input[0]
                &&& element.contents == input.subrange(header, element.len as int)
                &&& header == 2 ==> input[1] < 0x80 && element.contents.len() == input[1]
                &&& header > 2 ==> input[1] == 0x80 + header - 2 && element.contents.len()
                    == be_value(input.subrange(2, header))
            },
            Err(DerError::Truncated) => {
                ||| input.len() < 2
                ||| input[1] < 0x80 && input.len() < 2 + input[1]
                ||| 0x80 < input[1] <= 0x84 && input.len() >= input[1] - 0x7e && input.len() < input[1]
                    - 0x7e + be_value(input.subrange(2, input[1] - 0x7e))
            },
            Err(DerError::InvalidLength) => {
                &&& input.len() >= 2
                &&& input[1] >= 0x80
                &&& input[1] == 0x80 || input[1] > 0x84 || input.len() < input[1] - 0x7e
            },
            Err(_) => false,
        },
{
}

/// What is read is read from its own bytes alone: whatever follows makes no difference.
pub proof fn law_element_ends(input: Seq<u8>, rest: Seq<u8>)
    requires
        element_at_start(input) is Ok,
    ensures
        element_at_start(input + rest) == element_at_start(input),
        element_at_start(input.take(element_at_start(input)->Ok_0.len as int)) == element_at_start(
            input,
        ),
{
    let longer = input + rest;
    let element = element_at_start(input)->Ok_0;
    let exact = input.take(element.len as int);
    if input[1] >= 0x80 {
        let header = input[1] - 0x7e;
        assert(longer.subrange(2, header) =~= input.subrange(2, header));
        assert(exact.subrange(2, header) =~= input.subrange(2, header));
        assert(longer.subrange(header, element.len as int) =~= element.contents);
        assert(exact.subrange(header, element.len as int) =~= element.contents);
    } else {
        assert(longer.subrange(2, element.len as int) =~= element.contents);
        assert(exact.subrange(2, element.len as int) =~= element.contents);
    }
}

/// An element of another tag is refused with both tags, and an element of the tag is given as it is.
pub proof fn law_expected_tag(input: Seq<u8>, tag: u8)
    ensures
        match element_at_start(input) {
            Ok(element) => tagged_at_start(input, tag) == if input[0] == tag {
                Ok::<ElementView, DerError>(element)
            } else {
                Err::<ElementView, DerError>(
                    DerError::UnexpectedTag { found: input[0], expected: tag },
                )
            },
            Err(error) => tagged_at_start(input, tag) == Err::<ElementView, DerError>(error),
        },
{
}

/// The encoding of an element, byte by byte: the tag, the length in a single byte where it is below
/// 0x80 and else in as few bytes as it needs behind their count, and the contents.
pub proof fn law_encoded_layout(tag: u8, contents: Seq<u8>)
    requires
        contents.len() <= u64::MAX,
    ensures
        ({
            let bytes = encoded(tag, contents);
            let header = bytes.len() - contents.len();
            &&& bytes[0] == tag
            &&& bytes.skip(header) == contents
            &&& contents.len() < 0x80 ==> header == 2 && bytes[1] == contents.len()
            &&& contents.len() >= 0x80 ==> {
                &&& 3 <= header <= 10
                &&& bytes[1] == 0x80 + header - 2
                &&& bytes[2] != 0
                &&& be_value(bytes.subrange(2, header)) == contents.len()
            }
        }),
{
    let bytes = encoded(tag, contents);
    let header = bytes.len() - contents.len();
    lemma_length_digits(contents.len());
    assert(bytes.skip(header) =~= contents);
    if contents.len() >= 0x80 {
        lemma_first_digit(contents.len());
        assert(bytes.subrange(2, header) =~= digits(contents.len()));
        assert(bytes[2] == digits(contents.len())[0]);
    }
}

/// The first digit of a number is not zero.
proof fn lemma_first_digit(value: nat)
    requires
        value > 0,
    ensures
        digits(value).len() > 0,
        digits(value)[0] != 0,
    decreases value,
{
    if value >= 256 {
        lemma_first_digit(value / 256);
    } else {
        assert(digits(value / 256) =~= Seq::empty());
    }
}

/// The public key is an RSA key by its algorithm, whose encoding is fixed.
pub proof fn law_rsa_encryption()
    ensures
        rsa_encryption() == encoded(
            0x30,
            encoded(0x06, seq![0x2au8, 0x86, 0x48, 0x86, 0xf7, 0x0d, 1, 1, 1]) + encoded(
                0x05,
                Seq::empty(),
            ),
        ),
{
    let oid = seq![0x2au8, 0x86, 0x48, 0x86, 0xf7, 0x0d, 1, 1, 1];
    assert(encoded(0x06, oid) =~= seq![0x06u8, 9] + oid);
    assert(encoded(0x05, Seq::empty()) =~= seq![0x05u8, 0]);
    assert(rsa_encryption() =~= encoded(
        0x30,
        encoded(0x06, oid) + encoded(0x05, Seq::empty()),
    ));
}

/// The public key, element by element: a SEQUENCE of the algorithm and a BIT STRING without unused
/// bits, which holds a SEQUENCE of the modulus and the exponent, and nothing else.
pub proof fn law_public_key_structure(modulus: Seq<u8>, exponent: u32)
    ensures
        ({
            let exponent_bytes = seq![
                (exponent / 0x100_0000) as u8,
                (exponent / 0x1_0000 % 0x100) as u8,
                (exponent / 0x100 % 0x100) as u8,
                (exponent % 0x100) as u8,
            ];
            let numbers = encoded(0x02, integer_contents(modulus)) + encoded(
                0x02,
                integer_contents(exponent_bytes),
            );
            subject_public_key_info(modulus, exponent as nat) == encoded(
                0x30,
                rsa_encryption() + encoded(0x03, seq![0u8] + encoded(0x30, numbers)),
            )
        }),
{
    reveal_with_fuel(be_bytes, 5);
    let value = exponent as nat;
    assert(value / 256 / 256 == value / 0x1_0000);
    assert(value / 256 / 256 / 256 == value / 0x100_0000);
    let exponent_bytes = seq![
        (exponent / 0x100_0000) as u8,
        (exponent / 0x1_0000 % 0x100) as u8,
        (exponent / 0x100 % 0x100) as u8,
        (exponent % 0x100) as u8,
    ];
    assert(be_bytes(value, 4) =~= exponent_bytes);
}

} // verus!
