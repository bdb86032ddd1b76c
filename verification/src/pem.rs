//! PEM: base64 text between two marker lines that carry a label.

use vstd::arithmetic::div_mod::lemma_fundamental_div_mod_converse;
use vstd::prelude::*;
use vstd::slice::slice_subrange;
use vstd::utf8::encode_utf8;

use crate::bytes::push_all;
use crate::text::{
    ascii, find, first_occurrence, lemma_first_occurrence, lemma_utf8_ascii, lemma_utf8_concat,
    occurs_at,
};

verus! {

/// Why a PEM block could not be read.
#[derive(Clone, Copy, PartialEq, Eq, Debug, Structural)]
pub enum PemError {
    /// No block carries the label.
    NoBlock,
    /// The block has no end marker.
    Unterminated,
    /// The block holds a byte that is not base64: the first such byte.
    InvalidCharacter(u8),
}

/// The base64 digit of a value below 64.
pub open spec fn base64_digit(value: nat) -> char {
    if value < 26 {
        ('A' as u8 + value) as char
    } else if value < 52 {
        ('a' as u8 + (value - 26)) as char
    } else if value < 62 {
        ('0' as u8 + (value - 52)) as char
    } else if value == 62 {
        '+'
    } else {
        '/'
    }
}

/// The value of a base64 digit.
pub open spec fn base64_value(digit: u8) -> Option<nat> {
    if 'A' as u8 <= digit <= 'Z' as u8 {
        Some((digit - 'A' as u8) as nat)
    } else if 'a' as u8 <= digit <= 'z' as u8 {
        Some((digit - 'a' as u8 + 26) as nat)
    } else if '0' as u8 <= digit <= '9' as u8 {
        Some((digit - '0' as u8 + 52) as nat)
    } else if digit == '+' as u8 {
        Some(62)
    } else if digit == '/' as u8 {
        Some(63)
    } else {
        None
    }
}

/// The number that one to three bytes stand for at the upper end of 24 bits.
pub open spec fn group_value(group: Seq<u8>) -> nat {
    group[0] as nat * 0x1_0000 + (if group.len() > 1 {
        group[1] as nat * 0x100
    } else {
        0
    }) + (if group.len() > 2 {
        group[2] as nat
    } else {
        0
    })
}

/// The four characters for one to three bytes: a digit for each six bits begun, then padding.
pub open spec fn group_text(group: Seq<u8>) -> Seq<char> {
    let value = group_value(group);
    seq![
        base64_digit(value / 0x4_0000),
        base64_digit(value / 0x1000 % 64),
        if group.len() > 1 {
            base64_digit(value / 64 % 64)
        } else {
            '='
        },
        if group.len() > 2 {
            base64_digit(value % 64)
        } else {
            '='
        },
    ]
}

/// The base64 form of a byte string.
pub open spec fn base64(bytes: Seq<u8>) -> Seq<char>
    decreases bytes.len(),
{
    if bytes.len() == 0 {
        Seq::empty()
    } else if bytes.len() <= 3 {
        group_text(bytes)
    } else {
        group_text(bytes.take(3)) + base64(bytes.skip(3))
    }
}

/// A text broken into lines of 64 characters.
pub open spec fn in_lines(text: Seq<char>) -> Seq<char>
    decreases text.len(),
{
    if text.len() <= 64 {
        text
    } else {
        text.take(64) + seq!['\n'] + in_lines(text.skip(64))
    }
}

/// The marker before a block with the given label.
pub open spec fn begin_marker(label: Seq<char>) -> Seq<char> {
    "-----BEGIN "@ + label + "-----"@
}

/// The marker after a block with the given label.
pub open spec fn end_marker(label: Seq<char>) -> Seq<char> {
    "-----END "@ + label + "-----"@
}

/// The PEM block that carries `der` under the given label.
pub open spec fn pem_block(label: Seq<char>, der: Seq<u8>) -> Seq<char> {
    begin_marker(label) + seq!['\n'] + in_lines(base64(der)) + seq!['\n'] + end_marker(label)
        + seq!['\n']
}

/// Whether a byte of a block counts: white space and padding do not.
pub open spec fn is_significant(byte: u8) -> bool {
    &&& byte != ' ' as u8
    &&& byte != '\t' as u8
    &&& byte != '\n' as u8
    &&& byte != 0x0c
    &&& byte != '\r' as u8
    &&& byte != '=' as u8
}

/// The bytes of a block that count.
pub open spec fn significant(body: Seq<u8>) -> Seq<u8> {
    body.filter(|byte: u8| is_significant(byte))
}

/// The first byte that is no base64 digit.
pub open spec fn first_invalid(digits: Seq<u8>) -> Option<u8>
    decreases digits.len(),
{
    if digits.len() == 0 {
        None
    } else if base64_value(digits[0]) is None {
        Some(digits[0])
    } else {
        first_invalid(digits.drop_first())
    }
}

/// The number that one to four digits stand for at the upper end of 24 bits.
pub open spec fn digits_value(digits: Seq<u8>) -> nat {
    base64_value(digits[0])->0 * 0x4_0000 + (if digits.len() > 1 {
        base64_value(digits[1])->0 * 0x1000
    } else {
        0
    }) + (if digits.len() > 2 {
        base64_value(digits[2])->0 * 64
    } else {
        0
    }) + (if digits.len() > 3 {
        base64_value(digits[3])->0
    } else {
        0
    })
}

/// The bytes that one to four digits complete: one fewer than there are digits.
pub open spec fn digits_bytes(digits: Seq<u8>) -> Seq<u8> {
    let value = digits_value(digits);
    seq![(value / 0x1_0000) as u8, (value / 0x100 % 0x100) as u8, (value % 0x100) as u8].take(
        digits.len() - 1,
    )
}

/// The byte string that a string of base64 digits stands for. What the last digits leave over
/// of a byte is dropped.
pub open spec fn base64_bytes(digits: Seq<u8>) -> Seq<u8>
    decreases digits.len(),
{
    if digits.len() == 0 {
        Seq::empty()
    } else if digits.len() <= 4 {
        digits_bytes(digits)
    } else {
        digits_bytes(digits.take(4)) + base64_bytes(digits.skip(4))
    }
}

/// The byte string that the text between the markers stands for.
pub open spec fn body_bytes(body: Seq<u8>) -> Result<Seq<u8>, PemError> {
    match first_invalid(significant(body)) {
        Some(byte) => Err(PemError::InvalidCharacter(byte)),
        None => Ok(base64_bytes(significant(body))),
    }
}

/// What the first block with the given label in `pem` (in UTF-8) holds.
pub open spec fn pem_contents(pem: Seq<u8>, label: Seq<char>) -> Result<Seq<u8>, PemError> {
    let begin = encode_utf8(begin_marker(label));
    match first_occurrence(pem, begin) {
        None => Err(PemError::NoBlock),
        Some(at) => {
            let rest = pem.skip(at + begin.len());
            match first_occurrence(rest, encode_utf8(end_marker(label))) {
                None => Err(PemError::Unterminated),
                Some(stop) => body_bytes(rest.take(stop)),
            }
        },
    }
}

/// The value of a base64 digit.
fn value_of_digit(digit: u8) -> (value: Option<u32>)
    ensures
        match value {
            Some(value) => base64_value(digit) == Some(value as nat) && value < 64,
            None => base64_value(digit) is None,
        },
{
    if 'A' as u8 <= digit && digit <= 'Z' as u8 {
        Some((digit - 'A' as u8) as u32)
    } else if 'a' as u8 <= digit && digit <= 'z' as u8 {
        Some((digit - 'a' as u8 + 26) as u32)
    } else if '0' as u8 <= digit && digit <= '9' as u8 {
        Some((digit - '0' as u8 + 52) as u32)
    } else if digit == '+' as u8 {
        Some(62)
    } else if digit == '/' as u8 {
        Some(63)
    } else {
        None
    }
}

/// The base64 digit of a value below 64.
fn digit_of_value(value: u32) -> (digit: char)
    requires
        value < 64,
    ensures
        digit == base64_digit(value as nat),
{
    if value < 26 {
        ('A' as u8 + value as u8) as char
    } else if value < 52 {
        ('a' as u8 + (value - 26) as u8) as char
    } else if value < 62 {
        ('0' as u8 + (value - 52) as u8) as char
    } else if value == 62 {
        '+'
    } else {
        '/'
    }
}

/// The base64 form of a byte string.
fn base64_text(bytes: &[u8]) -> (out: Vec<char>)
    ensures
        out@ == base64(bytes@),
{
    let mut out: Vec<char> = Vec::new();
    let mut at: usize = 0;
    assert(bytes@.skip(0) =~= bytes@);
    while at < bytes.len()
        invariant
            at <= bytes@.len(),
            out@ + base64(bytes@.skip(at as int)) == base64(bytes@),
        decreases bytes@.len() - at,
    {
        let left: usize = bytes.len() - at;
        let first: u32 = bytes[at] as u32;
        let second: u32 = if left > 1 {
            bytes[at + 1] as u32
        } else {
            0
        };
        let third: u32 = if left > 2 {
            bytes[at + 2] as u32
        } else {
            0
        };
        let value: u32 = first * 0x1_0000 + second * 0x100 + third;
        let ghost before = out@;
        out.push(digit_of_value(value / 0x4_0000));
        out.push(digit_of_value(value / 0x1000 % 64));
        out.push(
            if left > 1 {
                digit_of_value(value / 64 % 64)
            } else {
                '='
            },
        );
        out.push(
            if left > 2 {
                digit_of_value(value % 64)
            } else {
                '='
            },
        );
        let step: usize = if left > 3 {
            3
        } else {
            left
        };
        proof {
            let rest = bytes@.skip(at as int);
            let group = rest.take(step as int);
            assert(out@ =~= before + group_text(group));
            if left > 3 {
                assert(rest.skip(3) =~= bytes@.skip(at + 3));
            } else {
                assert(group =~= rest);
                assert(bytes@.skip(at + step) =~= Seq::<u8>::empty());
            }
            assert(out@ + base64(bytes@.skip(at + step)) =~= before + base64(rest));
        }
        at += step;
    }
    assert(bytes@.skip(at as int) =~= Seq::<u8>::empty());
    assert(out@ + base64(bytes@.skip(at as int)) =~= out@);
    out
}

/// Append characters to a string.
fn push_chars(out: &mut String, characters: &[char])
    ensures
        final(out)@ == old(out)@ + characters@,
{
    let mut i: usize = 0;
    while i < characters.len()
        invariant
            i <= characters@.len(),
            out@ == old(out)@ + characters@.take(i as int),
        decreases characters@.len() - i,
    {
        out.push(characters[i]);
        i += 1;
        assert(out@ =~= old(out)@ + characters@.take(i as int));
    }
    assert(characters@.take(i as int) =~= characters@);
}

/// Append a text to a string, broken into lines of 64 characters.
fn push_in_lines(out: &mut String, text: &[char])
    ensures
        final(out)@ == old(out)@ + in_lines(text@),
{
    let mut at: usize = 0;
    assert(text@.skip(0) =~= text@);
    while text.len() - at > 64
        invariant
            at <= text@.len(),
            out@ + in_lines(text@.skip(at as int)) == old(out)@ + in_lines(text@),
        decreases text@.len() - at,
    {
        let ghost before = out@;
        push_chars(out, slice_subrange(text, at, at + 64));
        out.push('\n');
        proof {
            let rest = text@.skip(at as int);
            assert(rest.take(64) =~= text@.subrange(at as int, at + 64));
            assert(rest.skip(64) =~= text@.skip(at + 64));
            assert(out@ + in_lines(text@.skip(at + 64)) =~= before + in_lines(rest));
        }
        at += 64;
    }
    push_chars(out, slice_subrange(text, at, text.len()));
    assert(text@.subrange(at as int, text@.len() as int) =~= text@.skip(at as int));
}

/// A PEM block with the given label.
pub fn pem_encode(label: &str, der: &[u8]) -> (pem: String)
    ensures
        pem@ == pem_block(label@, der@),
{
    let mut pem = String::new();
    pem.append("-----BEGIN ");
    pem.append(label);
    pem.append("-----");
    assert(pem@ =~= begin_marker(label@));
    pem.push('\n');
    let text = base64_text(der);
    push_in_lines(&mut pem, text.as_slice());
    pem.push('\n');
    pem.append("-----END ");
    pem.append(label);
    pem.append("-----");
    pem.push('\n');
    assert(pem@ =~= pem_block(label@, der@));
    pem
}

/// Whether a byte of a block counts: white space and padding do not.
fn counts(byte: u8) -> (result: bool)
    ensures
        result == is_significant(byte),
{
    byte != ' ' as u8 && byte != '\t' as u8 && byte != '\n' as u8 && byte != 0x0c && byte
        != '\r' as u8 && byte != '=' as u8
}

/// The bytes of a block that count.
fn significant_bytes(body: &[u8]) -> (out: Vec<u8>)
    ensures
        out@ == significant(body@),
{
    let mut out: Vec<u8> = Vec::new();
    let mut i: usize = 0;
    proof {
        reveal(Seq::filter);
        assert(significant(body@.take(0)) =~= Seq::<u8>::empty());
    }
    while i < body.len()
        invariant
            i <= body@.len(),
            out@ == significant(body@.take(i as int)),
        decreases body@.len() - i,
    {
        if counts(body[i]) {
            out.push(body[i]);
        }
        proof {
            reveal(Seq::filter);
            assert(body@.take(i + 1).drop_last() =~= body@.take(i as int));
        }
        i += 1;
    }
    assert(body@.take(i as int) =~= body@);
    out
}

/// Whether every byte is a base64 digit.
pub open spec fn all_digits(digits: Seq<u8>) -> bool {
    forall|i: int| 0 <= i < digits.len() ==> base64_value(#[trigger] digits[i]) is Some
}

/// The first byte that is no base64 digit.
fn find_invalid(digits: &[u8]) -> (found: Option<u8>)
    ensures
        found == first_invalid(digits@),
        found is None ==> all_digits(digits@),
{
    let mut i: usize = 0;
    assert(digits@.skip(0) =~= digits@);
    while i < digits.len()
        invariant
            i <= digits@.len(),
            first_invalid(digits@) == first_invalid(digits@.skip(i as int)),
            forall|j: int| 0 <= j < i ==> base64_value(#[trigger] digits@[j]) is Some,
        decreases digits@.len() - i,
    {
        assert(digits@.skip(i as int).drop_first() =~= digits@.skip(i + 1));
        if value_of_digit(digits[i]).is_none() {
            return Some(digits[i]);
        }
        i += 1;
    }
    None
}

/// The value of the digit at an index, or zero behind the last digit.
fn value_at(digits: &[u8], index: usize) -> (value: u32)
    requires
        all_digits(digits@),
    ensures
        value < 64,
        index < digits@.len() ==> base64_value(digits@[index as int]) == Some(value as nat),
        index >= digits@.len() ==> value == 0,
{
    if index < digits.len() {
        match value_of_digit(digits[index]) {
            Some(value) => value,
            None => 0,
        }
    } else {
        0
    }
}

/// Append the bytes that one to four digits complete.
fn push_digits_bytes(out: &mut Vec<u8>, digits: &[u8])
    requires
        1 <= digits@.len() <= 4,
        all_digits(digits@),
    ensures
        final(out)@ == old(out)@ + digits_bytes(digits@),
{
    let value: u32 = value_at(digits, 0) * 0x4_0000 + value_at(digits, 1) * 0x1000 + value_at(
        digits,
        2,
    ) * 64 + value_at(digits, 3);
    assert(value == digits_value(digits@));
    if digits.len() > 1 {
        out.push((value / 0x1_0000) as u8);
    }
    if digits.len() > 2 {
        out.push((value / 0x100 % 0x100) as u8);
    }
    if digits.len() > 3 {
        out.push((value % 0x100) as u8);
    }
    assert(out@ =~= old(out)@ + digits_bytes(digits@));
}

/// The byte string that the text between the markers stands for.
fn decode_body(body: &[u8]) -> (result: Result<Vec<u8>, PemError>)
    ensures
        match result {
            Ok(bytes) => body_bytes(body@) == Ok::<Seq<u8>, PemError>(bytes@),
            Err(error) => body_bytes(body@) == Err::<Seq<u8>, PemError>(error),
        },
{
    let counted = significant_bytes(body);
    let digits: &[u8] = counted.as_slice();
    if let Some(byte) = find_invalid(digits) {
        return Err(PemError::InvalidCharacter(byte));
    }
    let mut out: Vec<u8> = Vec::new();
    let mut at: usize = 0;
    assert(digits@.skip(0) =~= digits@);
    while at < digits.len()
        invariant
            at <= digits@.len(),
            all_digits(digits@),
            out@ + base64_bytes(digits@.skip(at as int)) == base64_bytes(digits@),
        decreases digits@.len() - at,
    {
        let left: usize = digits.len() - at;
        let step: usize = if left > 4 {
            4
        } else {
            left
        };
        let ghost before = out@;
        push_digits_bytes(&mut out, slice_subrange(digits, at, at + step));
        proof {
            let rest = digits@.skip(at as int);
            assert(rest.take(step as int) =~= digits@.subrange(at as int, at + step));
            if left > 4 {
                assert(rest.skip(4) =~= digits@.skip(at + 4));
            } else {
                assert(rest.take(step as int) =~= rest);
                assert(digits@.skip(at + step) =~= Seq::<u8>::empty());
            }
            assert(out@ + base64_bytes(digits@.skip(at + step)) =~= before + base64_bytes(rest));
        }
        at += step;
    }
    assert(digits@.skip(at as int) =~= Seq::<u8>::empty());
    assert(out@ + base64_bytes(digits@.skip(at as int)) =~= out@);
    Ok(out)
}

/// A marker in UTF-8.
fn marker(start: &str, label: &str) -> (out: Vec<u8>)
    ensures
        out@ == encode_utf8(start@ + label@ + "-----"@),
{
    let mut out: Vec<u8> = Vec::new();
    push_all(&mut out, start.as_bytes());
    push_all(&mut out, label.as_bytes());
    push_all(&mut out, "-----".as_bytes());
    proof {
        lemma_utf8_concat(start@, label@);
        lemma_utf8_concat(start@ + label@, "-----"@);
    }
    assert(out@ =~= encode_utf8(start@ + label@ + "-----"@));
    out
}

/// The DER contents of the first PEM block with the given label.
pub fn pem_decode(pem: &str, label: &str) -> (result: Result<Vec<u8>, PemError>)
    ensures
        match result {
            Ok(der) => pem_contents(encode_utf8(pem@), label@) == Ok::<Seq<u8>, PemError>(der@),
            Err(error) => pem_contents(encode_utf8(pem@), label@) == Err::<Seq<u8>, PemError>(
                error,
            ),
        },
{
    let text: &[u8] = pem.as_bytes();
    let begin = marker("-----BEGIN ", label);
    let end = marker("-----END ", label);
    match find(text, begin.as_slice()) {
        None => Err(PemError::NoBlock),
        Some(at) => {
            let rest: &[u8] = slice_subrange(text, at + begin.len(), text.len());
            assert(rest@ =~= text@.skip(at + begin@.len()));
            match find(rest, end.as_slice()) {
                None => Err(PemError::Unterminated),
                Some(stop) => {
                    let body: &[u8] = slice_subrange(rest, 0, stop);
                    assert(body@ =~= rest@.take(stop as int));
                    decode_body(body)
                },
            }
        },
    }
}

/// A character of a base64 text: a digit or padding.
spec fn is_base64_char(c: char) -> bool {
    &&& '\0' <= c <= '\u{7f}'
    &&& c == '=' || (base64_value(c as u8) is Some && is_significant(c as u8))
}

/// A digit stands for the value it was made from.
proof fn lemma_digit(value: nat)
    requires
        value < 64,
    ensures
        is_base64_char(base64_digit(value)),
        base64_value(base64_digit(value) as u8) == Some(value),
        is_significant(base64_digit(value) as u8),
{
}

/// What counts of two texts in a row is what counts of each.
proof fn lemma_significant_concat(first: Seq<u8>, second: Seq<u8>)
    ensures
        significant(first + second) == significant(first) + significant(second),
{
    Seq::filter_distributes_over_add(first, second, |byte: u8| is_significant(byte));
}

/// One byte counts or does not.
proof fn lemma_significant_one(byte: u8)
    ensures
        significant(seq![byte]) == if is_significant(byte) {
            seq![byte]
        } else {
            Seq::<u8>::empty()
        },
{
    reveal(Seq::filter);
    reveal_with_fuel(Seq::filter, 2);
    assert(seq![byte].drop_last() =~= Seq::<u8>::empty());
    assert(significant(seq![byte]) =~= if is_significant(byte) {
        seq![byte]
    } else {
        Seq::<u8>::empty()
    });
}

proof fn lemma_significant_four(a: u8, b: u8, c: u8, d: u8)
    ensures
        significant(seq![a, b, c, d]) == significant(seq![a]) + significant(seq![b]) + significant(
            seq![c],
        ) + significant(seq![d]),
{
    assert(seq![a, b, c, d] =~= seq![a] + seq![b] + seq![c] + seq![d]);
    lemma_significant_concat(seq![a] + seq![b] + seq![c], seq![d]);
    lemma_significant_concat(seq![a] + seq![b], seq![c]);
    lemma_significant_concat(seq![a], seq![b]);
}

/// The characters of a group that count are its first ones, one more than it has bytes.
proof fn lemma_group_digits(group: Seq<u8>)
    requires
        1 <= group.len() <= 3,
    ensures
        ascii(group_text(group)).len() == 4,
        significant(ascii(group_text(group))) == ascii(group_text(group)).take(
            group.len() + 1int,
        ),
        forall|i: int| 0 <= i < 4 ==> is_base64_char(#[trigger] group_text(group)[i]),
        base64_value(ascii(group_text(group))[0]) == Some(group_value(group) / 0x4_0000),
        base64_value(ascii(group_text(group))[1]) == Some(group_value(group) / 0x1000 % 64),
        group.len() > 1 ==> base64_value(ascii(group_text(group))[2]) == Some(
            group_value(group) / 64 % 64,
        ),
        group.len() > 2 ==> base64_value(ascii(group_text(group))[3]) == Some(
            group_value(group) % 64,
        ),
{
    let value = group_value(group);
    assert(value < 0x100_0000);
    lemma_digit(value / 0x4_0000);
    lemma_digit(value / 0x1000 % 64);
    lemma_digit(value / 64 % 64);
    lemma_digit(value % 64);
    let bytes = ascii(group_text(group));
    assert(bytes =~= seq![bytes[0], bytes[1], bytes[2], bytes[3]]);
    lemma_significant_four(bytes[0], bytes[1], bytes[2], bytes[3]);
    lemma_significant_one(bytes[0]);
    lemma_significant_one(bytes[1]);
    lemma_significant_one(bytes[2]);
    lemma_significant_one(bytes[3]);
    assert(significant(bytes) =~= bytes.take(group.len() + 1int));
}

/// Six bits each make up the number they were taken from.
proof fn lemma_sextets(value: nat)
    requires
        value < 0x100_0000,
    ensures
        value / 0x4_0000 * 0x4_0000 + value / 0x1000 % 64 * 0x1000 + value / 64 % 64 * 64 + value
            % 64 == value,
        value % 0x1_0000 == 0 ==> value / 0x4_0000 * 0x4_0000 + value / 0x1000 % 64 * 0x1000
            == value,
        value % 0x100 == 0 ==> value / 0x4_0000 * 0x4_0000 + value / 0x1000 % 64 * 0x1000 + value
            / 64 % 64 * 64 == value,
{
}

/// The bytes of the number that a group stands for are the bytes of the group.
proof fn lemma_group_value(group: Seq<u8>)
    requires
        1 <= group.len() <= 3,
    ensures
        group_value(group) < 0x100_0000,
        (group_value(group) / 0x1_0000) as u8 == group[0],
        group.len() == 1 ==> group_value(group) % 0x1_0000 == 0,
        group.len() > 1 ==> (group_value(group) / 0x100 % 0x100) as u8 == group[1],
        group.len() == 2 ==> group_value(group) % 0x100 == 0,
        group.len() > 2 ==> (group_value(group) % 0x100) as u8 == group[2],
{
}

/// The digits of one group give back its bytes.
proof fn lemma_group(group: Seq<u8>)
    requires
        1 <= group.len() <= 3,
    ensures
        significant(ascii(group_text(group))).len() == group.len() + 1,
        all_digits(significant(ascii(group_text(group)))),
        digits_bytes(significant(ascii(group_text(group)))) == group,
{
    let value = group_value(group);
    let text = ascii(group_text(group));
    let digits = significant(text);
    lemma_group_digits(group);
    lemma_group_value(group);
    lemma_sextets(value);
    let high = value / 0x4_0000;
    let upper = value / 0x1000 % 64;
    let lower = value / 64 % 64;
    let low = value % 64;
    assert(digits[0] == text[0] && digits[1] == text[1]);
    assert(base64_value(digits[0]) == Some(high));
    assert(base64_value(digits[1]) == Some(upper));
    if group.len() > 1 {
        assert(digits[2] == text[2]);
        assert(base64_value(digits[2]) == Some(lower));
    }
    if group.len() > 2 {
        assert(digits[3] == text[3]);
        assert(base64_value(digits[3]) == Some(low));
    }
    assert(digits_value(digits) == value);
    assert(digits_bytes(digits) =~= group);
}

/// Digits in a row are valid, and stand for the bytes of the first four and of the others.
proof fn lemma_digits_concat(first: Seq<u8>, rest: Seq<u8>)
    requires
        first.len() == 4,
        all_digits(first),
        all_digits(rest),
    ensures
        all_digits(first + rest),
        base64_bytes(first + rest) == digits_bytes(first) + base64_bytes(rest),
{
    assert forall|i: int| 0 <= i < (first + rest).len() implies base64_value(
        #[trigger] (first + rest)[i],
    ) is Some by {
        if i >= 4 {
            assert((first + rest)[i] == rest[i - 4]);
        } else {
            assert((first + rest)[i] == first[i]);
        }
    }
    if rest.len() == 0 {
        assert(first + rest =~= first);
        assert(digits_bytes(first) + base64_bytes(rest) =~= digits_bytes(first));
    } else {
        assert((first + rest).take(4) =~= first);
        assert((first + rest).skip(4) =~= rest);
    }
}

/// The characters of a base64 text.
proof fn lemma_base64_chars(bytes: Seq<u8>)
    ensures
        forall|i: int| 0 <= i < base64(bytes).len() ==> is_base64_char(#[trigger] base64(bytes)[i]),
    decreases bytes.len(),
{
    if 0 < bytes.len() <= 3 {
        lemma_group_digits(bytes);
    } else if bytes.len() > 3 {
        let head = bytes.take(3);
        let rest = bytes.skip(3);
        lemma_group_digits(head);
        lemma_base64_chars(rest);
        assert forall|i: int| 0 <= i < base64(bytes).len() implies is_base64_char(
            #[trigger] base64(bytes)[i],
        ) by {
            if i < 4 {
                assert(base64(bytes)[i] == group_text(head)[i]);
            } else {
                assert(base64(bytes)[i] == base64(rest)[i - 4]);
            }
        }
    }
}

/// The digits of a base64 text give back the bytes it was made from.
proof fn lemma_base64(bytes: Seq<u8>)
    ensures
        all_digits(significant(ascii(base64(bytes)))),
        base64_bytes(significant(ascii(base64(bytes)))) == bytes,
    decreases bytes.len(),
{
    if bytes.len() == 0 {
        assert(ascii(base64(bytes)) =~= Seq::<u8>::empty());
        reveal(Seq::filter);
        assert(base64_bytes(significant(ascii(base64(bytes)))) =~= bytes);
    } else if bytes.len() <= 3 {
        lemma_group(bytes);
    } else {
        let head = bytes.take(3);
        let rest = bytes.skip(3);
        lemma_group(head);
        lemma_base64(rest);
        assert(ascii(base64(bytes)) =~= ascii(group_text(head)) + ascii(base64(rest)));
        lemma_significant_concat(ascii(group_text(head)), ascii(base64(rest)));
        lemma_digits_concat(significant(ascii(group_text(head))), significant(ascii(base64(rest))));
        assert(head + rest =~= bytes);
    }
}

/// Valid digits hold no invalid one.
proof fn lemma_none_invalid(digits: Seq<u8>)
    requires
        all_digits(digits),
    ensures
        first_invalid(digits) is None,
    decreases digits.len(),
{
    if digits.len() > 0 {
        assert(base64_value(digits[0]) is Some);
        assert forall|i: int| 0 <= i < digits.drop_first().len() implies base64_value(
            #[trigger] digits.drop_first()[i],
        ) is Some by {
            assert(digits.drop_first()[i] == digits[i + 1]);
        }
        lemma_none_invalid(digits.drop_first());
    }
}

/// Line breaks add nothing that counts.
proof fn lemma_in_lines(text: Seq<char>)
    requires
        forall|i: int| 0 <= i < text.len() ==> is_base64_char(#[trigger] text[i]),
    ensures
        significant(ascii(in_lines(text))) == significant(ascii(text)),
        forall|i: int|
            0 <= i < in_lines(text).len() ==> {
                ||| #[trigger] in_lines(text)[i] == '\n'
                ||| is_base64_char(in_lines(text)[i])
            },
    decreases text.len(),
{
    if text.len() > 64 {
        let head = text.take(64);
        let rest = text.skip(64);
        assert forall|i: int| 0 <= i < rest.len() implies is_base64_char(#[trigger] rest[i]) by {
            assert(rest[i] == text[i + 64]);
        }
        lemma_in_lines(rest);
        let newline = seq!['\n'];
        assert(ascii(newline) =~= seq!['\n' as u8]);
        assert(ascii(in_lines(text)) =~= ascii(head) + ascii(newline) + ascii(in_lines(rest)));
        lemma_significant_concat(ascii(head) + ascii(newline), ascii(in_lines(rest)));
        lemma_significant_concat(ascii(head), ascii(newline));
        lemma_significant_one('\n' as u8);
        assert(ascii(text) =~= ascii(head) + ascii(rest));
        lemma_significant_concat(ascii(head), ascii(rest));
        assert(significant(ascii(in_lines(text))) =~= significant(ascii(text)));
        assert forall|i: int| 0 <= i < in_lines(text).len() implies {
            ||| #[trigger] in_lines(text)[i] == '\n'
            ||| is_base64_char(in_lines(text)[i])
        } by {
            if i < 64 {
                assert(in_lines(text)[i] == text[i]);
            } else if i > 64 {
                assert(in_lines(text)[i] == in_lines(rest)[i - 65]);
            }
        }
    }
}

/// The lines between the markers of a block that carries `der`.
spec fn block_body(der: Seq<u8>) -> Seq<u8> {
    seq!['\n' as u8] + ascii(in_lines(base64(der))) + seq!['\n' as u8]
}

/// A base64 text in lines is ASCII and holds no dash.
proof fn lemma_lines_chars(der: Seq<u8>)
    ensures
        forall|i: int|
            0 <= i < in_lines(base64(der)).len() ==> '\0' <= #[trigger] in_lines(base64(der))[i]
                <= '\u{7f}' && in_lines(base64(der))[i] != '-',
{
    lemma_base64_chars(der);
    lemma_in_lines(base64(der));
}

/// The lines of a block are ASCII and hold no dash.
proof fn lemma_block_text(der: Seq<u8>)
    ensures
        encode_utf8(seq!['\n'] + in_lines(base64(der)) + seq!['\n']) == block_body(der),
        forall|i: int| 0 <= i < block_body(der).len() ==> #[trigger] block_body(der)[i] != '-' as u8,
{
    lemma_lines_chars(der);
    let lines = in_lines(base64(der));
    let framed = seq!['\n'] + lines + seq!['\n'];
    assert forall|i: int| 0 <= i < framed.len() implies '\0' <= #[trigger] framed[i] <= '\u{7f}'
        && framed[i] != '-' by {
        if 0 < i < framed.len() - 1 {
            assert(framed[i] == lines[i - 1]);
        }
    }
    lemma_utf8_ascii(framed);
    assert(ascii(framed) =~= block_body(der));
    assert forall|i: int| 0 <= i < block_body(der).len() implies #[trigger] block_body(der)[i]
        != '-' as u8 by {
        assert(ascii(framed)[i] == framed[i] as u8);
    }
}

/// The lines of a block stand for the bytes they were made from.
proof fn lemma_block_value(der: Seq<u8>)
    ensures
        body_bytes(block_body(der)) == Ok::<Seq<u8>, PemError>(der),
{
    let text = base64(der);
    let lines = ascii(in_lines(text));
    lemma_base64_chars(der);
    lemma_base64(der);
    lemma_in_lines(text);
    let newline = seq!['\n' as u8];
    lemma_significant_one('\n' as u8);
    lemma_significant_concat(newline + lines, newline);
    lemma_significant_concat(newline, lines);
    assert(significant(block_body(der)) =~= significant(ascii(text)));
    lemma_none_invalid(significant(ascii(text)));
}

/// An end marker starts with a dash.
proof fn lemma_end_marker(label: Seq<char>)
    ensures
        encode_utf8(end_marker(label)).len() > 0,
        encode_utf8(end_marker(label))[0] == '-' as u8,
{
    reveal_strlit("-----END ");
    let start = "-----END "@;
    lemma_utf8_concat(start, label + "-----"@);
    assert(end_marker(label) =~= start + (label + "-----"@));
    lemma_utf8_ascii(start);
}

/// Decoding finds the first block with the label in a text, and gives back what was encoded
/// there, whatever the label, the contents and the text around the block.
pub proof fn law_pem_block_in_text(
    before: Seq<char>,
    label: Seq<char>,
    der: Seq<u8>,
    after: Seq<char>,
)
    requires
        forall|at: int|
            0 <= at < encode_utf8(before).len() ==> !occurs_at(
                encode_utf8(before + pem_block(label, der) + after),
                encode_utf8(begin_marker(label)),
                at,
            ),
    ensures
        pem_contents(encode_utf8(before + pem_block(label, der) + after), label) == Ok::<
            Seq<u8>,
            PemError,
        >(der),
{
    let lines = seq!['\n'] + in_lines(base64(der)) + seq!['\n'];
    let tail = seq!['\n'] + after;
    let text = before + pem_block(label, der) + after;
    assert(text =~= before + (begin_marker(label) + (lines + (end_marker(label) + tail))));
    lemma_utf8_concat(before, begin_marker(label) + (lines + (end_marker(label) + tail)));
    lemma_utf8_concat(begin_marker(label), lines + (end_marker(label) + tail));
    lemma_utf8_concat(lines, end_marker(label) + tail);
    lemma_utf8_concat(end_marker(label), tail);
    lemma_block_text(der);
    lemma_block_value(der);
    lemma_end_marker(label);
    let pem = encode_utf8(text);
    let start = encode_utf8(before);
    let begin = encode_utf8(begin_marker(label));
    let body = block_body(der);
    let end = encode_utf8(end_marker(label));
    let rest = body + (end + encode_utf8(tail));
    assert(pem =~= start + (begin + rest));
    assert(pem.subrange(start.len() as int, (start.len() + begin.len()) as int) =~= begin);
    lemma_first_occurrence(pem, begin, start.len() as int);
    assert(pem.skip((start.len() + begin.len()) as int) =~= rest);
    assert(rest.subrange(body.len() as int, (body.len() + end.len()) as int) =~= end);
    assert forall|at: int| 0 <= at < body.len() implies !occurs_at(rest, end, at) by {
        if occurs_at(rest, end, at) {
            assert(rest.subrange(at, at + end.len())[0] == rest[at]);
            assert(rest[at] == body[at]);
        }
    }
    lemma_first_occurrence(rest, end, body.len() as int);
    assert(rest.take(body.len() as int) =~= body);
}

/// Decoding an encoded block gives back what was encoded, for every label and every contents.
pub proof fn law_pem_round_trip(label: Seq<char>, der: Seq<u8>)
    ensures
        pem_contents(encode_utf8(pem_block(label, der)), label) == Ok::<Seq<u8>, PemError>(der),
{
    let none = Seq::<char>::empty();
    assert(encode_utf8(none).len() == 0);
    assert(none + pem_block(label, der) + none =~= pem_block(label, der));
    law_pem_block_in_text(none, label, der, none);
}

/// The digits of base64 in the order of their values.
pub open spec fn alphabet() -> Seq<char> {
    "ABCDEFGHIJKLMNOPQRSTUVWXYZabcdefghijklmnopqrstuvwxyz0123456789+/"@
}

/// A value below 64 is written as the digit in its place of the alphabet, and a digit has the value
/// of its place. No other byte has a value.
pub proof fn law_base64_alphabet(value: nat, digit: u8)
    ensures
        alphabet().len() == 64,
        value < 64 ==> base64_digit(value) == alphabet()[value as int],
        match base64_value(digit) {
            Some(place) => place < 64 && alphabet()[place as int] as u8 == digit,
            None => forall|i: int| 0 <= i < 64 ==> #[trigger] alphabet()[i] as u8 != digit,
        },
{
    reveal_strlit("ABCDEFGHIJKLMNOPQRSTUVWXYZabcdefghijklmnopqrstuvwxyz0123456789+/");
    if base64_value(digit) is None {
        assert forall|i: int| 0 <= i < 64 implies #[trigger] alphabet()[i] as u8 != digit by {
            assert(i < 26 ==> 'A' <= alphabet()[i] <= 'Z');
            assert(26 <= i < 52 ==> 'a' <= alphabet()[i] <= 'z');
            assert(52 <= i < 62 ==> '0' <= alphabet()[i] <= '9');
            assert(alphabet()[62] == '+' && alphabet()[63] == '/');
        }
    }
}

/// Three bytes are four digits of six bits each, the most significant first. Where fewer are left,
/// the bits of the missing ones are zero, and padding stands for the digits that have none of the
/// others.
pub proof fn law_base64_group(a: u8, b: u8, c: u8)
    ensures
        base64(Seq::empty()).len() == 0,
        base64(seq![a, b, c]) == seq![
            alphabet()[a as int / 4],
            alphabet()[a as int % 4 * 16 + b as int / 16],
            alphabet()[b as int % 16 * 4 + c as int / 64],
            alphabet()[c as int % 64],
        ],
        base64(seq![a, b]) == seq![
            alphabet()[a as int / 4],
            alphabet()[a as int % 4 * 16 + b as int / 16],
            alphabet()[b as int % 16 * 4],
            '=',
        ],
        base64(seq![a]) == seq![alphabet()[a as int / 4], alphabet()[a as int % 4 * 16], '=', '='],
{
    lemma_group_text(seq![a, b, c]);
    lemma_group_text(seq![a, b]);
    lemma_group_text(seq![a]);
}

/// The digits of a group by its bytes, where missing ones are zero.
proof fn lemma_group_text(group: Seq<u8>)
    requires
        1 <= group.len() <= 3,
    ensures
        ({
            let a = group[0] as int;
            let b = if group.len() > 1 {
                group[1] as int
            } else {
                0
            };
            let c = if group.len() > 2 {
                group[2] as int
            } else {
                0
            };
            base64(group) == seq![
                alphabet()[a / 4],
                alphabet()[a % 4 * 16 + b / 16],
                if group.len() > 1 {
                    alphabet()[b % 16 * 4 + c / 64]
                } else {
                    '='
                },
                if group.len() > 2 {
                    alphabet()[c % 64]
                } else {
                    '='
                },
            ]
        }),
{
    let a = group[0] as nat;
    let b = if group.len() > 1 {
        group[1] as nat
    } else {
        0
    };
    let c = if group.len() > 2 {
        group[2] as nat
    } else {
        0
    };
    lemma_sextets_of_bytes(a, b, c);
    lemma_digit_at(a / 4);
    lemma_digit_at(a % 4 * 16 + b / 16);
    lemma_digit_at(b % 16 * 4 + c / 64);
    lemma_digit_at(c % 64);
}

proof fn lemma_digit_at(value: nat)
    requires
        value < 64,
    ensures
        base64_digit(value) == alphabet()[value as int],
{
    law_base64_alphabet(value, 0);
}

proof fn lemma_sextets_of_bytes(a: nat, b: nat, c: nat)
    requires
        a < 256,
        b < 256,
        c < 256,
    ensures
        ({
            let value = a * 0x1_0000 + b * 0x100 + c;
            &&& value / 0x4_0000 == a / 4
            &&& value / 0x1000 % 64 == a % 4 * 16 + b / 16
            &&& value / 64 % 64 == b % 16 * 4 + c / 64
            &&& value % 64 == c % 64
        }),
{
    let value = (a * 0x1_0000 + b * 0x100 + c) as int;
    let (q, r, m, n) = (a as int / 4, a as int % 4, b as int / 16, b as int % 16);
    let (s, t) = (c as int / 64, c as int % 64);
    lemma_fundamental_div_mod_converse(
        value,
        0x4_0000,
        q,
        r * 0x1_0000 + m * 0x1000 + n * 0x100 + s * 64 + t,
    );
    lemma_fundamental_div_mod_converse(
        value,
        0x1000,
        q * 64 + r * 16 + m,
        n * 0x100 + s * 64 + t,
    );
    lemma_fundamental_div_mod_converse(q * 64 + r * 16 + m, 64, q, r * 16 + m);
    let upper = q * 64 + r * 16 + m;
    lemma_fundamental_div_mod_converse(value, 64, upper * 64 + n * 4 + s, t);
    lemma_fundamental_div_mod_converse(upper * 64 + n * 4 + s, 64, upper, n * 4 + s);
}

/// Base64 goes in groups of three bytes: behind whole groups it starts anew.
pub proof fn law_base64_concat(first: Seq<u8>, second: Seq<u8>)
    requires
        first.len() % 3 == 0,
    ensures
        base64(first + second) == base64(first) + base64(second),
    decreases first.len(),
{
    if first.len() == 0 {
        assert(first + second =~= second);
        assert(base64(first) + base64(second) =~= base64(second));
    } else {
        let whole = first + second;
        let behind = first.skip(3);
        law_base64_concat(behind, second);
        assert(whole.take(3) =~= first.take(3));
        assert(whole.skip(3) =~= behind + second);
        if whole.len() == 3 {
            assert(first =~= whole);
            assert(second =~= Seq::empty());
            assert(base64(first) + base64(second) =~= base64(first));
        } else {
            if first.len() == 3 {
                assert(first.take(3) =~= first);
                assert(behind =~= Seq::empty());
                assert(behind + second =~= second);
            }
            assert(base64(whole) =~= base64(first) + base64(second));
        }
    }
}

/// A text is broken behind every 64 characters, and nowhere else, and never at its end.
#[verifier::spinoff_prover]
#[verifier::rlimit(40)]
pub proof fn law_in_lines(text: Seq<char>)
    requires
        text.len() > 0,
    ensures
        in_lines(text) == Seq::new(
            (text.len() + (text.len() - 1) / 64) as nat,
            |i: int|
                if i % 65 == 64 {
                    '\n'
                } else {
                    text[i - i / 65]
                },
        ),
    decreases text.len(),
{
    let expected = Seq::new(
        (text.len() + (text.len() - 1) / 64) as nat,
        |i: int|
            if i % 65 == 64 {
                '\n'
            } else {
                text[i - i / 65]
            },
    );
    if text.len() <= 64 {
        assert(in_lines(text) =~= expected);
    } else {
        let behind = text.skip(64);
        law_in_lines(behind);
        assert(in_lines(text) == text.take(64) + seq!['\n'] + in_lines(behind));
        assert(in_lines(text).len() == expected.len());
        assert forall|i: int| 0 <= i < expected.len() implies in_lines(text)[i] == expected[i] by {
            if i >= 65 {
                assert(in_lines(text)[i] == in_lines(behind)[i - 65]);
                assert((i - 65) % 65 == i % 65 && (i - 65) / 65 == i / 65 - 1);
            }
        }
        assert(in_lines(text) =~= expected);
    }
}

/// A block is a line with the label between dashes and `BEGIN`, the base64 text in lines, and a line
/// with the label between dashes and `END`, each with a line end.
pub proof fn law_pem_block(label: Seq<char>, der: Seq<u8>)
    ensures
        in_lines(Seq::empty()).len() == 0,
        pem_block(label, der) == "-----BEGIN "@ + label + "-----\n"@ + in_lines(base64(der))
            + "\n-----END "@ + label + "-----\n"@,
{
    reveal_strlit("-----");
    reveal_strlit("-----END ");
    reveal_strlit("-----\n");
    reveal_strlit("\n-----END ");
    assert("-----\n"@ =~= "-----"@ + seq!['\n']);
    assert("\n-----END "@ =~= seq!['\n'] + "-----END "@);
    assert(pem_block(label, der) =~= "-----BEGIN "@ + label + "-----\n"@ + in_lines(base64(der))
        + "\n-----END "@ + label + "-----\n"@);
}

/// A block is found behind the first marker that begins one with its label, ends before the first
/// marker that ends one, and holds what stands between.
pub proof fn law_pem_contents(pem: Seq<u8>, label: Seq<char>)
    ensures
        ({
            let begin = encode_utf8("-----BEGIN "@) + encode_utf8(label) + encode_utf8("-----"@);
            let end = encode_utf8("-----END "@) + encode_utf8(label) + encode_utf8("-----"@);
            match first_occurrence(pem, begin) {
                None => pem_contents(pem, label) == Err::<Seq<u8>, PemError>(PemError::NoBlock),
                Some(at) => {
                    let rest = pem.skip(at + begin.len());
                    match first_occurrence(rest, end) {
                        None => pem_contents(pem, label) == Err::<Seq<u8>, PemError>(
                            PemError::Unterminated,
                        ),
                        Some(stop) => pem_contents(pem, label) == body_bytes(rest.take(stop)),
                    }
                },
            }
        }),
{
    lemma_utf8_concat("-----BEGIN "@, label);
    lemma_utf8_concat("-----BEGIN "@ + label, "-----"@);
    lemma_utf8_concat("-----END "@, label);
    lemma_utf8_concat("-----END "@ + label, "-----"@);
}

/// White space and padding mean nothing, wherever they stand.
pub proof fn law_white_space_is_passed(before: Seq<u8>, byte: u8, behind: Seq<u8>)
    requires
        byte == 0x20 || byte == 0x09 || byte == 0x0a || byte == 0x0c || byte == 0x0d || byte == 0x3d,
    ensures
        body_bytes(before + seq![byte] + behind) == body_bytes(before + behind),
{
    lemma_significant_concat(before + seq![byte], behind);
    lemma_significant_concat(before, seq![byte]);
    lemma_significant_concat(before, behind);
    lemma_significant_one(byte);
    assert(significant(before + seq![byte] + behind) =~= significant(before + behind));
}

/// The first byte that is neither a digit nor passed over is what a text is refused for.
pub proof fn law_first_invalid_byte(before: Seq<u8>, byte: u8, behind: Seq<u8>)
    requires
        body_bytes(before) is Ok,
        forall|i: int| 0 <= i < 64 ==> #[trigger] alphabet()[i] as u8 != byte,
        byte != 0x20 && byte != 0x09 && byte != 0x0a && byte != 0x0c && byte != 0x0d && byte != 0x3d,
    ensures
        body_bytes(before + seq![byte] + behind) == Err::<Seq<u8>, PemError>(
            PemError::InvalidCharacter(byte),
        ),
{
    law_base64_alphabet(0, byte);
    if base64_value(byte) is Some {
        assert(alphabet()[base64_value(byte)->0 as int] as u8 == byte);
    }
    lemma_significant_concat(before + seq![byte], behind);
    lemma_significant_concat(before, seq![byte]);
    lemma_significant_one(byte);
    let front = significant(before);
    let rest = seq![byte] + significant(behind);
    assert(significant(before + seq![byte] + behind) =~= front + rest);
    lemma_invalid_behind(front, rest);
}

proof fn lemma_invalid_behind(front: Seq<u8>, rest: Seq<u8>)
    requires
        first_invalid(front) is None,
    ensures
        first_invalid(front + rest) == first_invalid(rest),
    decreases front.len(),
{
    if front.len() == 0 {
        assert(front + rest =~= rest);
    } else {
        assert((front + rest).drop_first() =~= front.drop_first() + rest);
        lemma_invalid_behind(front.drop_first(), rest);
    }
}

/// Digits go in groups of four: behind whole groups they start anew.
pub proof fn law_base64_bytes_concat(first: Seq<u8>, second: Seq<u8>)
    requires
        first.len() % 4 == 0,
    ensures
        base64_bytes(first + second) == base64_bytes(first) + base64_bytes(second),
    decreases first.len(),
{
    if first.len() == 0 {
        assert(first + second =~= second);
        assert(base64_bytes(first) + base64_bytes(second) =~= base64_bytes(second));
    } else {
        let whole = first + second;
        let behind = first.skip(4);
        law_base64_bytes_concat(behind, second);
        assert(whole.take(4) =~= first.take(4));
        assert(whole.skip(4) =~= behind + second);
        if whole.len() == 4 {
            assert(first =~= whole);
            assert(second =~= Seq::empty());
            assert(base64_bytes(first) + base64_bytes(second) =~= base64_bytes(first));
        } else {
            if first.len() == 4 {
                assert(first.take(4) =~= first);
                assert(behind =~= Seq::empty());
                assert(behind + second =~= second);
            }
            assert(base64_bytes(whole) =~= base64_bytes(first) + base64_bytes(second));
        }
    }
}

/// The bytes of digits by their places in the alphabet: four make three bytes, and of fewer only the
/// bytes that are whole count.
pub proof fn law_base64_digits(v: int, w: int, x: int, y: int)
    requires
        0 <= v < 64,
        0 <= w < 64,
        0 <= x < 64,
        0 <= y < 64,
    ensures
        ({
            let a = alphabet()[v] as u8;
            let b = alphabet()[w] as u8;
            let c = alphabet()[x] as u8;
            let d = alphabet()[y] as u8;
            let bytes = seq![
                (v * 4 + w / 16) as u8,
                (w % 16 * 16 + x / 4) as u8,
                (x % 4 * 64 + y) as u8,
            ];
            &&& base64_bytes(Seq::empty()).len() == 0
            &&& base64_bytes(seq![a]).len() == 0
            &&& base64_bytes(seq![a, b]) == bytes.take(1)
            &&& base64_bytes(seq![a, b, c]) == bytes.take(2)
            &&& base64_bytes(seq![a, b, c, d]) == bytes
        }),
{
    lemma_place(v);
    lemma_place(w);
    lemma_place(x);
    lemma_place(y);
    let a = alphabet()[v] as u8;
    let b = alphabet()[w] as u8;
    let c = alphabet()[x] as u8;
    let d = alphabet()[y] as u8;
    lemma_bytes_of_sextets(v, w, x, y);
    lemma_bytes_of_sextets(v, w, x, 0);
    lemma_bytes_of_sextets(v, w, 0, 0);
    assert(digits_value(seq![a, b]) == v * 0x4_0000 + w * 0x1000);
    assert(digits_value(seq![a, b, c]) == v * 0x4_0000 + w * 0x1000 + x * 64);
    assert(digits_value(seq![a, b, c, d]) == v * 0x4_0000 + w * 0x1000 + x * 64 + y);
    let bytes = seq![
        (v * 4 + w / 16) as u8,
        (w % 16 * 16 + x / 4) as u8,
        (x % 4 * 64 + y) as u8,
    ];
    assert(base64_bytes(seq![a, b]) =~= bytes.take(1));
    assert(base64_bytes(seq![a, b, c]) =~= bytes.take(2));
    assert(base64_bytes(seq![a, b, c, d]) =~= bytes);
}

proof fn lemma_bytes_of_sextets(v: int, w: int, x: int, y: int)
    requires
        0 <= v < 64,
        0 <= w < 64,
        0 <= x < 64,
        0 <= y < 64,
    ensures
        ({
            let value = v * 0x4_0000 + w * 0x1000 + x * 64 + y;
            &&& value / 0x1_0000 == v * 4 + w / 16
            &&& value / 0x100 % 0x100 == w % 16 * 16 + x / 4
            &&& value % 0x100 == x % 4 * 64 + y
        }),
{
    let value = v * 0x4_0000 + w * 0x1000 + x * 64 + y;
    let (m, n) = (w / 16, w % 16);
    let (s, t) = (x / 4, x % 4);
    lemma_fundamental_div_mod_converse(
        value,
        0x1_0000,
        v * 4 + m,
        n * 0x1000 + s * 0x100 + t * 64 + y,
    );
    let upper = v * 4 + m;
    lemma_fundamental_div_mod_converse(value, 0x100, upper * 0x100 + n * 16 + s, t * 64 + y);
    lemma_fundamental_div_mod_converse(upper * 0x100 + n * 16 + s, 0x100, upper, n * 16 + s);
}

proof fn lemma_place(place: int)
    requires
        0 <= place < 64,
    ensures
        base64_value(alphabet()[place] as u8) == Some(place as nat),
{
    law_base64_alphabet(place as nat, 0);
    lemma_digit(place as nat);
}

/// A text whose bytes are all digits stands for the bytes of the digits.
pub proof fn law_body_of_digits(body: Seq<u8>)
    requires
        forall|i: int|
            0 <= i < body.len() ==> exists|place: int|
                0 <= place < 64 && #[trigger] alphabet()[place] as u8 == #[trigger] body[i],
    ensures
        body_bytes(body) == Ok::<Seq<u8>, PemError>(base64_bytes(body)),
{
    assert forall|i: int| 0 <= i < body.len() implies base64_value(#[trigger] body[i]) is Some
        && is_significant(body[i]) by {
        let place = choose|place: int|
            0 <= place < 64 && #[trigger] alphabet()[place] as u8 == body[i];
        lemma_place(place);
        law_base64_alphabet(place as nat, 0);
        lemma_digit(place as nat);
    }
    lemma_all_significant(body);
    lemma_none_invalid(body);
}

proof fn lemma_all_significant(body: Seq<u8>)
    requires
        forall|i: int| 0 <= i < body.len() ==> is_significant(#[trigger] body[i]),
    ensures
        significant(body) == body,
    decreases body.len(),
{
    reveal(Seq::filter);
    if body.len() > 0 {
        let front = body.drop_last();
        assert forall|i: int| 0 <= i < front.len() implies is_significant(#[trigger] front[i]) by {
            assert(front[i] == body[i]);
        }
        lemma_all_significant(front);
        assert(is_significant(body[body.len() - 1]));
        assert(significant(body) =~= body);
    } else {
        assert(significant(body) =~= body);
    }
}

} // verus!
