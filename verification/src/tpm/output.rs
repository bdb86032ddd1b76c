//! What the TPM tools print, and what is recorded of it.

use vstd::prelude::*;
use vstd::slice::slice_subrange;
use vstd::utf8::encode_utf8;

use crate::hex::{
    hex_text, law_hex_round_trip, lemma_hex_characters, lemma_hex_text, lemma_pairs_length, pairs,
    read_pairs,
};
use crate::text::lemma_utf8_ascii;

verus! {

/// Why a value could not be read from a text.
#[derive(Clone, Copy, PartialEq, Eq, Debug, Structural)]
pub enum OutputError {
    /// A SHA-256 PCR value is 64 hexadecimal digits.
    PcrLength,
    /// A PCR value has something else than hexadecimal digits.
    PcrDigits,
    /// There is no PCR 7 in the output of `tpm2_pcrread`.
    NoPcr7,
    /// There is no clock in the output of `tpm2_readclock`.
    NoClock,
    /// The TPM clock is not a 64-bit decimal number.
    InvalidClock,
}

/// Whether a character has the Unicode property `White_Space`.
pub open spec fn is_space(character: char) -> bool {
    let point = character as nat;
    ||| 0x9 <= point <= 0xd
    ||| point == 0x20
    ||| point == 0x85
    ||| point == 0xa0
    ||| point == 0x1680
    ||| 0x2000 <= point <= 0x200a
    ||| point == 0x2028
    ||| point == 0x2029
    ||| point == 0x202f
    ||| point == 0x205f
    ||| point == 0x3000
}

/// A text without the white space at its start.
pub open spec fn trimmed_start(text: Seq<char>) -> Seq<char>
    decreases text.len(),
{
    if text.len() > 0 && is_space(text.first()) {
        trimmed_start(text.drop_first())
    } else {
        text
    }
}

/// A text without the white space at its end.
pub open spec fn trimmed_end(text: Seq<char>) -> Seq<char>
    decreases text.len(),
{
    if text.len() > 0 && is_space(text.last()) {
        trimmed_end(text.drop_last())
    } else {
        text
    }
}

/// A text without the white space around it.
pub open spec fn trimmed(text: Seq<char>) -> Seq<char> {
    trimmed_end(trimmed_start(text))
}

/// How many characters of a text come before the first white space.
pub open spec fn field_length(text: Seq<char>) -> nat
    decreases text.len(),
{
    if text.len() > 0 && !is_space(text.first()) {
        1 + field_length(text.drop_first())
    } else {
        0
    }
}

/// The first field of a line: what comes first between white space.
pub open spec fn first_field(line: Seq<char>) -> Option<Seq<char>> {
    let text = trimmed_start(line);
    if text.len() == 0 {
        None
    } else {
        Some(text.take(field_length(text) as int))
    }
}

/// A line behind its first field.
pub open spec fn behind_field(line: Seq<char>) -> Seq<char> {
    let text = trimmed_start(line);
    text.skip(field_length(text) as int)
}

/// How many characters of a text come before the first line end.
pub open spec fn line_length(text: Seq<char>) -> nat
    decreases text.len(),
{
    if text.len() > 0 && text.first() != '\n' {
        1 + line_length(text.drop_first())
    } else {
        0
    }
}

/// The first line of a text.
pub open spec fn first_line(text: Seq<char>) -> Seq<char> {
    text.take(line_length(text) as int)
}

/// A text behind its first line.
pub open spec fn behind_line(text: Seq<char>) -> Seq<char> {
    if line_length(text) < text.len() {
        text.skip(line_length(text) as int + 1)
    } else {
        Seq::empty()
    }
}

/// The value that a line gives for PCR 7: `7 : value`.
pub open spec fn pcr7_in_line(line: Seq<char>) -> Option<Seq<char>> {
    let second = behind_field(line);
    if first_field(line) == Some("7"@) && first_field(second) == Some(":"@) {
        first_field(behind_field(second))
    } else {
        None
    }
}

/// The value that the first line with one gives for PCR 7.
pub open spec fn pcr7_field(text: Seq<char>) -> Option<Seq<char>>
    decreases text.len(),
{
    if text.len() == 0 {
        None
    } else {
        match pcr7_in_line(first_line(text)) {
            Some(value) => Some(value),
            None => if line_length(text) < text.len() {
                pcr7_field(behind_line(text))
            } else {
                None
            },
        }
    }
}

/// Whether a text starts with another.
pub open spec fn starts_with(text: Seq<char>, start: Seq<char>) -> bool {
    text.len() >= start.len() && text.take(start.len() as int) == start
}

/// A text without every `0x` at its start.
pub open spec fn without_prefixes(text: Seq<char>) -> Seq<char>
    decreases text.len(),
{
    if text.len() >= 2 && text[0] == '0' && text[1] == 'x' {
        without_prefixes(text.skip(2))
    } else {
        text
    }
}

/// The value behind the first `clock:` that starts a line.
pub open spec fn clock_field(text: Seq<char>) -> Option<Seq<char>>
    decreases text.len(),
{
    if text.len() == 0 {
        None
    } else if starts_with(trimmed(first_line(text)), "clock:"@) {
        Some(trimmed(trimmed(first_line(text)).skip(6)))
    } else if line_length(text) < text.len() {
        clock_field(behind_line(text))
    } else {
        None
    }
}

/// The number that decimal digits stand for.
pub open spec fn decimal_value(digits: Seq<char>) -> Option<nat>
    decreases digits.len(),
{
    if digits.len() == 0 {
        Some(0)
    } else if '0' <= digits.last() <= '9' {
        match decimal_value(digits.drop_last()) {
            Some(value) => Some(value * 10 + (digits.last() as nat - '0' as nat) as nat),
            None => None,
        }
    } else {
        None
    }
}

/// The 64-bit number that a text stands for: decimal digits, behind a plus sign or not.
pub open spec fn u64_of_text(text: Seq<char>) -> Option<u64> {
    let digits = if text.len() > 0 && text[0] == '+' {
        text.skip(1)
    } else {
        text
    };
    match decimal_value(digits) {
        Some(value) => if digits.len() > 0 && value <= u64::MAX {
            Some(value as u64)
        } else {
            None
        },
        None => None,
    }
}

/// The decimal digits of a number.
pub open spec fn decimal_text(value: nat) -> Seq<char>
    decreases value,
{
    let digit = ('0' as u8 + value % 10) as char;
    if value < 10 {
        seq![digit]
    } else {
        decimal_text(value / 10).push(digit)
    }
}

/// The SHA-256 PCR value that a text gives.
pub open spec fn pcr_of_text(text: Seq<char>) -> Result<Seq<u8>, OutputError> {
    let bytes = encode_utf8(text);
    if bytes.len() != 64 {
        Err(OutputError::PcrLength)
    } else {
        match pairs(bytes) {
            Some(value) => Ok(value),
            None => Err(OutputError::PcrDigits),
        }
    }
}

/// The PCR 7 value that the output of `tpm2_pcrread` gives.
pub open spec fn pcr7_of_output(text: Seq<char>) -> Result<Seq<u8>, OutputError> {
    match pcr7_field(text) {
        None => Err(OutputError::NoPcr7),
        Some(value) => pcr_of_text(without_prefixes(value)),
    }
}

/// The TPM clock that a recorded text gives.
pub open spec fn clock_of_text(text: Seq<char>) -> Result<u64, OutputError> {
    match u64_of_text(text) {
        Some(clock) => Ok(clock),
        None => Err(OutputError::InvalidClock),
    }
}

/// The TPM clock that the output of `tpm2_readclock` gives.
pub open spec fn clock_of_output(text: Seq<char>) -> Result<u64, OutputError> {
    match clock_field(text) {
        None => Err(OutputError::NoClock),
        Some(value) => clock_of_text(value),
    }
}

/// The characters of a text.
fn characters(text: &str) -> (result: Vec<char>)
    ensures
        result@ == text@,
{
    let mut result: Vec<char> = Vec::new();
    for character in it: text.chars()
        invariant
            it.seq() == text@,
            result@ == text@.take(it.index() as int),
    {
        result.push(character);
        assert(result@ =~= text@.take(it.index() + 1));
    }
    assert(result@ =~= text@);
    result
}

/// The text of characters.
fn text_of(characters: &[char]) -> (text: String)
    ensures
        text@ == characters@,
{
    let mut text = String::new();
    let mut i: usize = 0;
    assert(text@ =~= characters@.take(0));
    while i < characters.len()
        invariant
            i <= characters@.len(),
            text@ == characters@.take(i as int),
        decreases characters@.len() - i,
    {
        text.push(characters[i]);
        i += 1;
        assert(text@ =~= characters@.take(i as int));
    }
    assert(characters@.take(i as int) =~= characters@);
    text
}

/// Whether a character is white space.
pub fn space(character: char) -> (result: bool)
    ensures
        result == is_space(character),
{
    let point: u32 = character as u32;
    (0x9 <= point && point <= 0xd) || point == 0x20 || point == 0x85 || point == 0xa0 || point
        == 0x1680 || (0x2000 <= point && point <= 0x200a) || point == 0x2028 || point == 0x2029
        || point == 0x202f || point == 0x205f || point == 0x3000
}

fn trim_start(text: &[char]) -> (result: &[char])
    ensures
        result@ == trimmed_start(text@),
        result@.len() <= text@.len(),
{
    let mut rest: &[char] = text;
    while rest.len() > 0 && space(rest[0])
        invariant
            trimmed_start(rest@) == trimmed_start(text@),
            rest@.len() <= text@.len(),
        decreases rest@.len(),
    {
        let ghost before = rest@;
        rest = slice_subrange(rest, 1, rest.len());
        assert(rest@ =~= before.drop_first());
    }
    rest
}

fn trim_end(text: &[char]) -> (result: &[char])
    ensures
        result@ == trimmed_end(text@),
{
    let mut rest: &[char] = text;
    while rest.len() > 0 && space(rest[rest.len() - 1])
        invariant
            trimmed_end(rest@) == trimmed_end(text@),
        decreases rest@.len(),
    {
        let ghost before = rest@;
        rest = slice_subrange(rest, 0, rest.len() - 1);
        assert(rest@ =~= before.drop_last());
    }
    rest
}

fn trim_characters(text: &[char]) -> (result: &[char])
    ensures
        result@ == trimmed(text@),
{
    trim_end(trim_start(text))
}

/// A text without the white space around it.
pub fn trim(text: &str) -> (result: String)
    ensures
        result@ == trimmed(text@),
{
    let text = characters(text);
    text_of(trim_characters(text.as_slice()))
}

/// How many characters of a text come before the first white space.
fn count_field(text: &[char]) -> (length: usize)
    ensures
        length == field_length(text@),
        length <= text@.len(),
{
    let mut length: usize = 0;
    assert(text@.skip(0) =~= text@);
    while length < text.len() && !space(text[length])
        invariant
            length <= text@.len(),
            field_length(text@) == length + field_length(text@.skip(length as int)),
        decreases text@.len() - length,
    {
        assert(text@.skip(length as int).drop_first() =~= text@.skip(length + 1));
        length += 1;
    }
    length
}

/// How many characters of a text come before the first line end.
fn count_line(text: &[char]) -> (length: usize)
    ensures
        length == line_length(text@),
        length <= text@.len(),
{
    let mut length: usize = 0;
    assert(text@.skip(0) =~= text@);
    while length < text.len() && text[length] != '\n'
        invariant
            length <= text@.len(),
            line_length(text@) == length + line_length(text@.skip(length as int)),
        decreases text@.len() - length,
    {
        assert(text@.skip(length as int).drop_first() =~= text@.skip(length + 1));
        length += 1;
    }
    length
}

/// The first field of a line, empty where there is none, and the line behind it.
fn split_field(line: &[char]) -> (result: (&[char], &[char]))
    ensures
        match first_field(line@) {
            Some(field) => result.0@ == field && field.len() > 0,
            None => result.0@.len() == 0,
        },
        result.1@ == behind_field(line@),
{
    let text = trim_start(line);
    let length: usize = count_field(text);
    proof {
        lemma_trimmed_start(line@);
    }
    let field = slice_subrange(text, 0, length);
    let rest = slice_subrange(text, length, text.len());
    assert(field@ =~= text@.take(length as int));
    assert(rest@ =~= text@.skip(length as int));
    (field, rest)
}

/// What is left of a trimmed text starts with no white space.
proof fn lemma_trimmed_start(text: Seq<char>)
    ensures
        trimmed_start(text).len() > 0 ==> !is_space(trimmed_start(text).first()),
    decreases text.len(),
{
    if text.len() > 0 && is_space(text.first()) {
        lemma_trimmed_start(text.drop_first());
    }
}

/// The value that a line gives for PCR 7.
fn read_pcr7_line(line: &[char]) -> (result: Option<&[char]>)
    ensures
        match result {
            Some(value) => pcr7_in_line(line@) == Some(value@),
            None => pcr7_in_line(line@) is None,
        },
{
    let (first, behind_first) = split_field(line);
    let (second, behind_second) = split_field(behind_first);
    let (third, _) = split_field(behind_second);
    proof {
        reveal_strlit("7");
        reveal_strlit(":");
        if first@.len() == 1 && first@[0] == '7' {
            assert(first@ =~= "7"@);
        }
        if second@.len() == 1 && second@[0] == ':' {
            assert(second@ =~= ":"@);
        }
    }
    if first.len() == 1 && first[0] == '7' && second.len() == 1 && second[0] == ':' && third.len()
        > 0 {
        Some(third)
    } else {
        None
    }
}

/// The value that the first line with one gives for PCR 7.
fn find_pcr7(text: &[char]) -> (result: Option<&[char]>)
    ensures
        match result {
            Some(value) => pcr7_field(text@) == Some(value@),
            None => pcr7_field(text@) is None,
        },
{
    let mut rest: &[char] = text;
    while rest.len() > 0
        invariant
            pcr7_field(rest@) == pcr7_field(text@),
        decreases rest@.len(),
    {
        let length: usize = count_line(rest);
        let line = slice_subrange(rest, 0, length);
        assert(line@ =~= first_line(rest@));
        if let Some(value) = read_pcr7_line(line) {
            return Some(value);
        }
        if length == rest.len() {
            return None;
        }
        let ghost before = rest@;
        rest = slice_subrange(rest, length + 1, rest.len());
        assert(rest@ =~= behind_line(before));
    }
    None
}

/// A text without every `0x` at its start.
fn strip_prefixes(text: &[char]) -> (result: &[char])
    ensures
        result@ == without_prefixes(text@),
{
    let mut rest: &[char] = text;
    while rest.len() >= 2 && rest[0] == '0' && rest[1] == 'x'
        invariant
            without_prefixes(rest@) == without_prefixes(text@),
        decreases rest@.len(),
    {
        let ghost before = rest@;
        rest = slice_subrange(rest, 2, rest.len());
        assert(rest@ =~= before.skip(2));
    }
    rest
}

/// The value behind the first `clock:` that starts a line.
fn find_clock(text: &[char]) -> (result: Option<&[char]>)
    ensures
        match result {
            Some(value) => clock_field(text@) == Some(value@),
            None => clock_field(text@) is None,
        },
{
    let mut rest: &[char] = text;
    while rest.len() > 0
        invariant
            clock_field(rest@) == clock_field(text@),
        decreases rest@.len(),
    {
        let length: usize = count_line(rest);
        let line = slice_subrange(rest, 0, length);
        assert(line@ =~= first_line(rest@));
        let line = trim_characters(line);
        proof {
            reveal_strlit("clock:");
            if line@.len() >= 6 {
                let start = line@.take(6);
                assert(start[0] == line@[0] && start[1] == line@[1] && start[2] == line@[2]
                    && start[3] == line@[3] && start[4] == line@[4] && start[5] == line@[5]);
                if line@[0] == 'c' && line@[1] == 'l' && line@[2] == 'o' && line@[3] == 'c'
                    && line@[4] == 'k' && line@[5] == ':' {
                    assert(start =~= "clock:"@);
                }
            }
        }
        if line.len() >= 6 && line[0] == 'c' && line[1] == 'l' && line[2] == 'o' && line[3] == 'c'
            && line[4] == 'k' && line[5] == ':' {
            let value = slice_subrange(line, 6, line.len());
            assert(value@ =~= line@.skip(6));
            return Some(trim_characters(value));
        }
        if length == rest.len() {
            return None;
        }
        let ghost before = rest@;
        rest = slice_subrange(rest, length + 1, rest.len());
        assert(rest@ =~= behind_line(before));
    }
    None
}

/// The number that decimal digits stand for, if it has 64 bits.
fn read_decimal(digits: &[char]) -> (result: Option<u64>)
    ensures
        match result {
            Some(value) => decimal_value(digits@) == Some(value as nat),
            None => match decimal_value(digits@) {
                Some(value) => value > u64::MAX,
                None => true,
            },
        },
{
    let mut value: u64 = 0;
    let mut i: usize = 0;
    assert(digits@.take(0) =~= Seq::empty());
    while i < digits.len()
        invariant
            i <= digits@.len(),
            decimal_value(digits@.take(i as int)) == Some(value as nat),
        decreases digits@.len() - i,
    {
        let digit: char = digits[i];
        assert(digits@.take(i + 1).drop_last() =~= digits@.take(i as int));
        if digit < '0' || digit > '9' {
            proof {
                lemma_decimal_prefix(digits@, i + 1);
            }
            return None;
        }
        let step: u64 = digit as u64 - '0' as u64;
        if value > (u64::MAX - step) / 10 {
            proof {
                lemma_decimal_prefix(digits@, i + 1);
            }
            return None;
        }
        value = value * 10 + step;
        i += 1;
    }
    assert(digits@.take(i as int) =~= digits@);
    Some(value)
}

/// A number is no smaller than what its first digits stand for, and there is none where they stand
/// for none.
proof fn lemma_decimal_prefix(digits: Seq<char>, length: int)
    requires
        0 <= length <= digits.len(),
    ensures
        match decimal_value(digits.take(length)) {
            Some(value) => decimal_value(digits) matches Some(whole) ==> whole >= value,
            None => decimal_value(digits) is None,
        },
    decreases digits.len() - length,
{
    if length == digits.len() {
        assert(digits.take(length) =~= digits);
    } else {
        assert(digits.take(length + 1).drop_last() =~= digits.take(length));
        lemma_decimal_prefix(digits, length + 1);
    }
}

/// The 64-bit number that a text stands for.
fn read_u64(text: &[char]) -> (result: Option<u64>)
    ensures
        result == u64_of_text(text@),
{
    let digits = if text.len() > 0 && text[0] == '+' {
        slice_subrange(text, 1, text.len())
    } else {
        text
    };
    assert(text@.len() > 0 && text@[0] == '+' ==> digits@ =~= text@.skip(1));
    if digits.len() == 0 {
        None
    } else {
        read_decimal(digits)
    }
}

/// The SHA-256 PCR value that a text of 64 hexadecimal digits gives.
pub fn parse_pcr(hex: &str) -> (result: Result<[u8; 32], OutputError>)
    ensures
        match result {
            Ok(value) => pcr_of_text(hex@) == Ok::<Seq<u8>, OutputError>(value@),
            Err(error) => pcr_of_text(hex@) == Err::<Seq<u8>, OutputError>(error),
        },
{
    let bytes: &[u8] = hex.as_bytes();
    if bytes.len() != 64 {
        return Err(OutputError::PcrLength);
    }
    match read_pairs(bytes) {
        None => Err(OutputError::PcrDigits),
        Some(value) => {
            let mut pcr: [u8; 32] = [0;32];
            let mut i: usize = 0;
            while i < 32
                invariant
                    i <= 32 == value@.len(),
                    forall|j: int| 0 <= j < i ==> pcr@[j] == value@[j],
                decreases 32 - i,
            {
                pcr[i] = value[i];
                i += 1;
            }
            assert(pcr@ =~= value@);
            Ok(pcr)
        },
    }
}

/// The PCR 7 value in the output of `tpm2_pcrread sha256:7`:
///
/// ```text
///   sha256:
///     7 : 0x<hex>
/// ```
pub fn parse_pcr7_output(output: &str) -> (result: Result<[u8; 32], OutputError>)
    ensures
        match result {
            Ok(value) => pcr7_of_output(output@) == Ok::<Seq<u8>, OutputError>(value@),
            Err(error) => pcr7_of_output(output@) == Err::<Seq<u8>, OutputError>(error),
        },
{
    let text = characters(output);
    match find_pcr7(text.as_slice()) {
        None => Err(OutputError::NoPcr7),
        Some(value) => {
            let digits = text_of(strip_prefixes(value));
            parse_pcr(digits.as_str())
        },
    }
}

/// The TPM clock that a recorded text gives.
pub fn parse_clock(text: &str) -> (result: Result<u64, OutputError>)
    ensures
        result == clock_of_text(text@),
{
    let text = characters(text);
    match read_u64(text.as_slice()) {
        Some(clock) => Ok(clock),
        None => Err(OutputError::InvalidClock),
    }
}

/// The TPM clock in the output of `tpm2_readclock`.
pub fn parse_clock_output(output: &str) -> (result: Result<u64, OutputError>)
    ensures
        result == clock_of_output(output@),
{
    let text = characters(output);
    match find_clock(text.as_slice()) {
        None => Err(OutputError::NoClock),
        Some(value) => match read_u64(value) {
            Some(clock) => Ok(clock),
            None => Err(OutputError::InvalidClock),
        },
    }
}

/// The decimal digits of a number.
pub fn decimal(value: u64) -> (text: String)
    ensures
        text@ == decimal_text(value as nat),
    decreases value,
{
    let digit: char = ('0' as u8 + (value % 10) as u8) as char;
    let mut text = if value < 10 {
        String::new()
    } else {
        decimal(value / 10)
    };
    text.push(digit);
    assert(text@ =~= decimal_text(value as nat));
    text
}

/// A text that neither starts nor ends with white space is not trimmed.
proof fn lemma_trimmed(text: Seq<char>)
    requires
        text.len() > 0,
        !is_space(text.first()),
        !is_space(text.last()),
    ensures
        trimmed(text) == text,
{
}

/// What is recorded of a PCR value is read back.
pub proof fn law_recorded_pcr_reads_back(value: Seq<u8>)
    requires
        value.len() == 32,
    ensures
        pcr_of_text(trimmed(hex_text(value))) == Ok::<Seq<u8>, OutputError>(value),
{
    let text = hex_text(value);
    lemma_hex_text(value);
    lemma_hex_characters(value);
    assert('0' <= text[0] <= '9' || 'a' <= text[0] <= 'f');
    assert('0' <= text[63] <= '9' || 'a' <= text[63] <= 'f');
    lemma_trimmed(text);
    lemma_utf8_ascii(text);
    law_hex_round_trip(value);
}

/// Decimal digits stand for the number they are of.
proof fn lemma_decimal(value: nat)
    ensures
        decimal_text(value).len() > 0,
        decimal_value(decimal_text(value)) == Some(value),
        forall|i: int|
            0 <= i < decimal_text(value).len() ==> '0' <= #[trigger] decimal_text(value)[i] <= '9',
    decreases value,
{
    let digit = ('0' as u8 + value % 10) as char;
    let text = decimal_text(value);
    assert('0' <= digit <= '9');
    assert(digit as nat - '0' as nat == value % 10);
    if value < 10 {
        assert(text.drop_last() =~= Seq::empty());
        assert(decimal_value(text.drop_last()) == Some(0nat));
    } else {
        lemma_decimal(value / 10);
        assert(text.drop_last() =~= decimal_text(value / 10));
    }
}

/// What is recorded of the TPM clock is read back.
pub proof fn law_recorded_clock_reads_back(clock: u64)
    ensures
        clock_of_text(trimmed(decimal_text(clock as nat))) == Ok::<u64, OutputError>(clock),
{
    let text = decimal_text(clock as nat);
    lemma_decimal(clock as nat);
    assert('0' <= text[0] <= '9');
    assert('0' <= text[text.len() - 1] <= '9');
    lemma_trimmed(text);
}

/// White space before a text is passed over.
proof fn lemma_spaces_are_passed(spaces: Seq<char>, text: Seq<char>)
    requires
        forall|i: int| 0 <= i < spaces.len() ==> is_space(#[trigger] spaces[i]),
        text.len() > 0 ==> !is_space(text.first()),
    ensures
        trimmed_start(spaces + text) == text,
    decreases spaces.len(),
{
    if spaces.len() == 0 {
        assert(spaces + text =~= text);
    } else {
        let rest = spaces.drop_first();
        assert(is_space(spaces[0]));
        assert forall|i: int| 0 <= i < rest.len() implies is_space(#[trigger] rest[i]) by {
            assert(rest[i] == spaces[i + 1]);
        }
        lemma_spaces_are_passed(rest, text);
        assert((spaces + text).drop_first() =~= rest + text);
    }
}

/// A field ends at the first white space.
proof fn lemma_field_length(field: Seq<char>, rest: Seq<char>)
    requires
        forall|i: int| 0 <= i < field.len() ==> !is_space(#[trigger] field[i]),
        rest.len() > 0 ==> is_space(rest.first()),
    ensures
        field_length(field + rest) == field.len(),
    decreases field.len(),
{
    if field.len() == 0 {
        assert(field + rest =~= rest);
    } else {
        let behind = field.drop_first();
        assert(!is_space(field[0]));
        assert forall|i: int| 0 <= i < behind.len() implies !is_space(#[trigger] behind[i]) by {
            assert(behind[i] == field[i + 1]);
        }
        lemma_field_length(behind, rest);
        assert((field + rest).drop_first() =~= behind + rest);
    }
}

/// The first field of a line that starts with white space, the field, and more.
proof fn lemma_first_field(spaces: Seq<char>, field: Seq<char>, rest: Seq<char>)
    requires
        forall|i: int| 0 <= i < spaces.len() ==> is_space(#[trigger] spaces[i]),
        field.len() > 0,
        forall|i: int| 0 <= i < field.len() ==> !is_space(#[trigger] field[i]),
        rest.len() > 0 ==> is_space(rest.first()),
    ensures
        first_field(spaces + field + rest) == Some(field),
        behind_field(spaces + field + rest) == rest,
{
    assert(!is_space(field[0]));
    assert(spaces + field + rest =~= spaces + (field + rest));
    lemma_spaces_are_passed(spaces, field + rest);
    lemma_field_length(field, rest);
    assert((field + rest).take(field.len() as int) =~= field);
    assert((field + rest).skip(field.len() as int) =~= rest);
}

/// A line ends at the first line end.
proof fn lemma_line_length(line: Seq<char>, rest: Seq<char>)
    requires
        forall|i: int| 0 <= i < line.len() ==> #[trigger] line[i] != '\n',
        rest.len() > 0 ==> rest.first() == '\n',
    ensures
        line_length(line + rest) == line.len(),
    decreases line.len(),
{
    if line.len() == 0 {
        assert(line + rest =~= rest);
    } else {
        let behind = line.drop_first();
        assert(line[0] != '\n');
        assert forall|i: int| 0 <= i < behind.len() implies #[trigger] behind[i] != '\n' by {
            assert(behind[i] == line[i + 1]);
        }
        lemma_line_length(behind, rest);
        assert((line + rest).drop_first() =~= behind + rest);
    }
}

/// A line that names PCR 7 and gives its value is read, wherever white space stands in it.
proof fn lemma_pcr7_line(value: Seq<u8>)
    requires
        value.len() > 0,
    ensures
        pcr7_in_line("    7 : "@ + ("0x"@ + hex_text(value))) == Some("0x"@ + hex_text(value)),
{
    reveal_strlit("    7 : ");
    reveal_strlit("0x");
    reveal_strlit("7");
    reveal_strlit(":");
    let digits = "0x"@ + hex_text(value);
    lemma_hex_characters(value);
    assert forall|i: int| 0 <= i < digits.len() implies !is_space(#[trigger] digits[i]) by {
        if i >= 2 {
            assert(digits[i] == hex_text(value)[i - 2]);
        }
    }
    let line = "    7 : "@ + digits;
    let four = seq![' ', ' ', ' ', ' '];
    let one = seq![' '];
    let second = one + ":"@ + (one + digits);
    assert(line =~= four + "7"@ + second);
    lemma_first_field(four, "7"@, second);
    lemma_first_field(one, ":"@, one + digits);
    assert(one + digits =~= one + digits + Seq::<char>::empty());
    lemma_first_field(one, digits, Seq::empty());
}

/// Lines that give no value are passed over.
pub proof fn law_other_lines_are_passed(line: Seq<char>, rest: Seq<char>)
    requires
        forall|i: int| 0 <= i < line.len() ==> #[trigger] line[i] != '\n',
    ensures
        pcr7_in_line(line) is None ==> pcr7_field(line + (seq!['\n'] + rest)) == pcr7_field(rest),
        !starts_with(trimmed(line), "clock:"@) ==> clock_field(line + (seq!['\n'] + rest))
            == clock_field(rest),
{
    let text = line + (seq!['\n'] + rest);
    lemma_line_length(line, seq!['\n'] + rest);
    assert(first_line(text) =~= line);
    assert(behind_line(text) =~= rest);
}

/// The value of PCR 7 is read from the line of `tpm2_pcrread` that gives it, whatever it is and
/// whatever follows.
pub proof fn law_pcr7_output_reads_back(value: Seq<u8>, rest: Seq<char>)
    requires
        value.len() == 32,
    ensures
        pcr7_of_output("    7 : "@ + ("0x"@ + hex_text(value)) + (seq!['\n'] + rest)) == Ok::<
            Seq<u8>,
            OutputError,
        >(value),
{
    reveal_strlit("    7 : ");
    reveal_strlit("0x");
    let digits = "0x"@ + hex_text(value);
    let line = "    7 : "@ + digits;
    let text = line + (seq!['\n'] + rest);
    lemma_hex_characters(value);
    lemma_hex_text(value);
    assert forall|i: int| 0 <= i < line.len() implies #[trigger] line[i] != '\n' by {
        if i >= 10 {
            assert(line[i] == hex_text(value)[i - 10]);
        }
    }
    lemma_line_length(line, seq!['\n'] + rest);
    assert(first_line(text) =~= line);
    lemma_pcr7_line(value);
    assert(pcr7_field(text) == Some(digits));
    assert(digits.skip(2) =~= hex_text(value));
    assert('0' <= hex_text(value)[1] <= '9' || 'a' <= hex_text(value)[1] <= 'f');
    assert(without_prefixes(hex_text(value)) == hex_text(value));
    assert(without_prefixes(digits) == hex_text(value));
    lemma_utf8_ascii(hex_text(value));
    law_hex_round_trip(value);
}

/// The clock is read from the line of `tpm2_readclock` that gives it, whatever it is and whatever
/// follows.
pub proof fn law_clock_output_reads_back(clock: u64, rest: Seq<char>)
    ensures
        clock_of_output("  clock: "@ + decimal_text(clock as nat) + (seq!['\n'] + rest)) == Ok::<
            u64,
            OutputError,
        >(clock),
{
    reveal_strlit("  clock: ");
    reveal_strlit("clock:");
    let digits = decimal_text(clock as nat);
    lemma_decimal(clock as nat);
    let line = "  clock: "@ + digits;
    let text = line + (seq!['\n'] + rest);
    assert forall|i: int| 0 <= i < line.len() implies #[trigger] line[i] != '\n' by {
        if i >= 9 {
            assert(line[i] == digits[i - 9]);
        }
    }
    lemma_line_length(line, seq!['\n'] + rest);
    assert(first_line(text) =~= line);
    let two = seq![' ', ' '];
    let inner = "clock:"@ + (seq![' '] + digits);
    assert(line =~= two + inner);
    lemma_spaces_are_passed(two, inner);
    assert('0' <= digits[0] <= '9');
    assert('0' <= digits[digits.len() - 1] <= '9');
    assert(inner.last() == digits[digits.len() - 1]);
    assert(trimmed(line) == inner);
    assert(inner.take(6) =~= "clock:"@);
    assert(inner.skip(6) =~= seq![' '] + digits);
    lemma_spaces_are_passed(seq![' '], digits);
    assert(trimmed(inner.skip(6)) == digits);
}

/// White space is what Unicode calls so: the controls of ASCII that move, the space, and the spaces
/// and separators beyond.
pub proof fn law_white_space(character: char)
    ensures
        is_space(character) <==> seq![
            0x9u32, 0xa, 0xb, 0xc, 0xd, 0x20, 0x85, 0xa0, 0x1680, 0x2000, 0x2001, 0x2002, 0x2003,
            0x2004, 0x2005, 0x2006, 0x2007, 0x2008, 0x2009, 0x200a, 0x2028, 0x2029, 0x202f, 0x205f,
            0x3000,
        ].contains(character as u32),
{
    let point = character as u32;
    let all = seq![
        0x9u32, 0xa, 0xb, 0xc, 0xd, 0x20, 0x85, 0xa0, 0x1680, 0x2000, 0x2001, 0x2002, 0x2003,
        0x2004, 0x2005, 0x2006, 0x2007, 0x2008, 0x2009, 0x200a, 0x2028, 0x2029, 0x202f, 0x205f,
        0x3000,
    ];
    assert(all[0] == 0x9 && all[1] == 0xa && all[2] == 0xb && all[3] == 0xc && all[4] == 0xd);
    assert(all[5] == 0x20 && all[6] == 0x85 && all[7] == 0xa0 && all[8] == 0x1680);
    assert(all[9] == 0x2000 && all[10] == 0x2001 && all[11] == 0x2002 && all[12] == 0x2003);
    assert(all[13] == 0x2004 && all[14] == 0x2005 && all[15] == 0x2006 && all[16] == 0x2007);
    assert(all[17] == 0x2008 && all[18] == 0x2009 && all[19] == 0x200a && all[20] == 0x2028);
    assert(all[21] == 0x2029 && all[22] == 0x202f && all[23] == 0x205f && all[24] == 0x3000);
}

/// What is trimmed off a text is the white space around it, and all of it: what is left neither
/// starts nor ends with any.
pub proof fn law_trimmed(text: Seq<char>)
    ensures
        exists|before: Seq<char>, behind: Seq<char>|
            {
                &&& text == #[trigger] (before + trimmed(text) + behind)
                &&& forall|i: int| 0 <= i < before.len() ==> is_space(#[trigger] before[i])
                &&& forall|i: int| 0 <= i < behind.len() ==> is_space(#[trigger] behind[i])
            },
        trimmed(text).len() > 0 ==> !is_space(trimmed(text).first()) && !is_space(
            trimmed(text).last(),
        ),
{
    let start = trimmed_start(text);
    lemma_trimmed_start_parts(text);
    lemma_trimmed_end_parts(start);
    let before = text.take(text.len() - start.len());
    let behind = start.skip(trimmed_end(start).len() as int);
    lemma_trimmed_start(text);
    assert(text =~= before + trimmed(text) + behind);
    if trimmed(text).len() > 0 {
        assert(trimmed(text).first() == start.first());
    }
}

proof fn lemma_trimmed_start_parts(text: Seq<char>)
    ensures
        trimmed_start(text).len() <= text.len(),
        text.skip(text.len() - trimmed_start(text).len()) == trimmed_start(text),
        forall|i: int|
            0 <= i < text.len() - trimmed_start(text).len() ==> is_space(#[trigger] text[i]),
    decreases text.len(),
{
    if text.len() > 0 && is_space(text.first()) {
        let rest = text.drop_first();
        lemma_trimmed_start_parts(rest);
        assert(text.skip(text.len() - trimmed_start(text).len()) =~= trimmed_start(text));
        assert forall|i: int| 0 <= i < text.len() - trimmed_start(text).len() implies is_space(
            #[trigger] text[i],
        ) by {
            if i > 0 {
                assert(text[i] == rest[i - 1]);
            }
        }
    } else {
        assert(text.skip(0) =~= text);
    }
}

proof fn lemma_trimmed_end_parts(text: Seq<char>)
    ensures
        trimmed_end(text).len() <= text.len(),
        text.take(trimmed_end(text).len() as int) == trimmed_end(text),
        forall|i: int| trimmed_end(text).len() <= i < text.len() ==> is_space(#[trigger] text[i]),
        trimmed_end(text).len() > 0 ==> !is_space(trimmed_end(text).last()),
    decreases text.len(),
{
    if text.len() > 0 && is_space(text.last()) {
        let front = text.drop_last();
        lemma_trimmed_end_parts(front);
        assert(text.take(trimmed_end(text).len() as int) =~= trimmed_end(text));
        assert forall|i: int| trimmed_end(text).len() <= i < text.len() implies is_space(
            #[trigger] text[i],
        ) by {
            if i < front.len() {
                assert(text[i] == front[i]);
            }
        }
    } else {
        assert(text.take(text.len() as int) =~= text);
    }
}

/// A line gives a value for PCR 7 where its first field is the number, its second a colon, and its
/// third the value, with any white space before and between them and anything behind the value.
pub proof fn law_pcr7_line(
    first: Seq<char>,
    second: Seq<char>,
    third: Seq<char>,
    value: Seq<char>,
    rest: Seq<char>,
)
    requires
        forall|i: int| 0 <= i < first.len() ==> is_space(#[trigger] first[i]),
        second.len() > 0,
        forall|i: int| 0 <= i < second.len() ==> is_space(#[trigger] second[i]),
        third.len() > 0,
        forall|i: int| 0 <= i < third.len() ==> is_space(#[trigger] third[i]),
        value.len() > 0,
        forall|i: int| 0 <= i < value.len() ==> !is_space(#[trigger] value[i]),
        rest.len() > 0 ==> is_space(rest.first()),
    ensures
        pcr7_in_line(first + seq!['7'] + (second + seq![':'] + (third + value + rest))) == Some(
            value,
        ),
{
    reveal_strlit("7");
    reveal_strlit(":");
    let behind = third + value + rest;
    let middle = second + seq![':'] + behind;
    assert("7"@ =~= seq!['7']);
    assert(":"@ =~= seq![':']);
    assert(is_space(third[0]) && is_space(second[0]));
    lemma_first_field(third, value, rest);
    lemma_first_field(second, seq![':'], behind);
    lemma_first_field(first, seq!['7'], middle);
}

/// A line gives a value only in that way: its first two fields are the number and the colon.
pub proof fn law_only_such_lines(line: Seq<char>)
    requires
        pcr7_in_line(line) is Some,
    ensures
        ({
            let a = trimmed_start(line);
            let b = trimmed_start(a.skip(1));
            let c = trimmed_start(b.skip(1));
            let value = pcr7_in_line(line)->0;
            &&& a.len() > 0 && a[0] == '7' && (a.len() > 1 ==> is_space(a[1]))
            &&& b.len() > 0 && b[0] == ':' && (b.len() > 1 ==> is_space(b[1]))
            &&& 0 < value.len() <= c.len() && c.take(value.len() as int) == value
            &&& forall|i: int| 0 <= i < value.len() ==> !is_space(#[trigger] value[i])
            &&& c.len() > value.len() ==> is_space(c[value.len() as int])
        }),
{
    reveal_strlit("7");
    reveal_strlit(":");
    let a = trimmed_start(line);
    lemma_field(a);
    assert(first_field(line) == Some("7"@));
    assert(a.take(field_length(a) as int) == "7"@);
    assert(a.take(field_length(a) as int)[0] == '7');
    let b = trimmed_start(a.skip(1));
    lemma_field(b);
    assert(first_field(behind_field(line)) == Some(":"@));
    assert(b.take(field_length(b) as int) == ":"@);
    assert(b.take(field_length(b) as int)[0] == ':');
    let c = trimmed_start(b.skip(1));
    lemma_field(c);
    lemma_trimmed_start(b.skip(1));
}

proof fn lemma_field(text: Seq<char>)
    ensures
        field_length(text) <= text.len(),
        forall|i: int| 0 <= i < field_length(text) ==> !is_space(#[trigger] text[i]),
        field_length(text) < text.len() ==> is_space(text[field_length(text) as int]),
    decreases text.len(),
{
    if text.len() > 0 && !is_space(text.first()) {
        let rest = text.drop_first();
        lemma_field(rest);
        assert forall|i: int| 0 <= i < field_length(text) implies !is_space(#[trigger] text[i]) by {
            if i > 0 {
                assert(text[i] == rest[i - 1]);
            }
        }
    }
}

/// The first line that gives a value decides, whatever follows it, and a last line counts without a
/// line end too. No line gives none.
pub proof fn law_first_line_decides(line: Seq<char>, rest: Seq<char>)
    requires
        forall|i: int| 0 <= i < line.len() ==> #[trigger] line[i] != '\n',
    ensures
        pcr7_in_line(line) is Some ==> pcr7_field(line + (seq!['\n'] + rest)) == pcr7_in_line(line),
        pcr7_field(line) == pcr7_in_line(line),
        pcr7_field(Seq::empty()) is None,
        starts_with(trimmed(line), "clock:"@) ==> clock_field(line + (seq!['\n'] + rest)) == Some(
            trimmed(trimmed(line).skip(6)),
        ) && clock_field(line) == Some(trimmed(trimmed(line).skip(6))),
        !starts_with(trimmed(line), "clock:"@) ==> clock_field(line) is None,
        clock_field(Seq::empty()) is None,
{
    let text = line + (seq!['\n'] + rest);
    lemma_line_length(line, seq!['\n'] + rest);
    assert(first_line(text) =~= line);
    lemma_line_length(line, Seq::empty());
    assert(line + Seq::<char>::empty() =~= line);
    assert(first_line(line) =~= line);
    reveal_strlit("clock:");
    if line.len() == 0 {
        assert(trimmed_start(line) =~= line);
        assert(field_length(trimmed_start(line)) == 0);
        assert(pcr7_in_line(line) is None);
    }
}

/// Every `0x` at the start is taken off, and nothing else.
pub proof fn law_without_prefixes(text: Seq<char>)
    ensures
        without_prefixes(seq!['0', 'x'] + text) == without_prefixes(text),
        !(text.len() >= 2 && text[0] == '0' && text[1] == 'x') ==> without_prefixes(text) == text,
{
    assert((seq!['0', 'x'] + text).skip(2) =~= text);
}

/// Each decimal digit more makes a number ten times as large, and adds its value. What is no digit
/// makes it no number.
pub proof fn law_decimal_grows(front: Seq<char>, digit: char)
    ensures
        decimal_value(front.push(digit)) == if '0' <= digit <= '9' && decimal_value(front) is Some {
            Some((10 * decimal_value(front)->0 + (digit as int - 0x30)) as nat)
        } else {
            None
        },
        decimal_value(Seq::empty()) == Some(0nat),
{
    assert(front.push(digit).drop_last() =~= front);
}

/// A clock is at least one decimal digit, behind a plus sign or not, and below two to the 64th.
/// Anything else is refused.
pub proof fn law_clock_of_text(text: Seq<char>)
    requires
        text.len() > 0 ==> text[0] != '+',
    ensures
        clock_of_text(text) == if text.len() > 0 && decimal_value(text) is Some && decimal_value(
            text,
        )->0 < 0x1_0000_0000_0000_0000 {
            Ok::<u64, OutputError>(decimal_value(text)->0 as u64)
        } else {
            Err::<u64, OutputError>(OutputError::InvalidClock)
        },
        clock_of_text(seq!['+'] + text) == clock_of_text(text),
{
    let signed = seq!['+'] + text;
    assert(signed.skip(1) =~= text);
}

/// A second plus sign is no digit.
pub proof fn law_second_sign_is_refused(text: Seq<char>)
    ensures
        clock_of_text(seq!['+', '+'] + text) == Err::<u64, OutputError>(OutputError::InvalidClock),
{
    let signed = seq!['+', '+'] + text;
    let digits = signed.skip(1);
    assert(digits.take(1).drop_last() =~= Seq::empty());
    assert(digits.take(1).last() == '+');
    lemma_decimal_prefix(digits, 1);
}

/// The decimal form of a number stands for it, and has no zero at its start unless it is zero.
pub proof fn law_decimal_text(value: nat)
    ensures
        decimal_value(decimal_text(value)) == Some(value),
        decimal_text(value).len() > 0,
        forall|i: int|
            0 <= i < decimal_text(value).len() ==> '0' <= #[trigger] decimal_text(value)[i] <= '9',
        decimal_text(value)[0] == '0' ==> value == 0,
        decimal_text(value).len() > 1 ==> value >= 10,
    decreases value,
{
    lemma_decimal(value);
    if value >= 10 {
        law_decimal_text(value / 10);
        assert(decimal_text(value)[0] == decimal_text(value / 10)[0]);
    }
}

/// A PCR value is 64 bytes of text that are pairs of hexadecimal digits, and has 32 bytes. Another
/// length is refused as such, and other characters as such.
pub proof fn law_pcr_of_text(text: Seq<char>)
    ensures
        match pcr_of_text(text) {
            Ok(value) => encode_utf8(text).len() == 64 && value.len() == 32 && pairs(
                encode_utf8(text),
            ) == Some(value),
            Err(error) => error == if encode_utf8(text).len() == 64 {
                OutputError::PcrDigits
            } else {
                OutputError::PcrLength
            } && (encode_utf8(text).len() == 64 ==> pairs(encode_utf8(text)) is None),
        },
{
    lemma_pairs_length(encode_utf8(text));
}

/// An output without a value is refused as such. One with a value is read by it alone.
pub proof fn law_outputs(text: Seq<char>)
    ensures
        pcr7_field(text) is None ==> pcr7_of_output(text) == Err::<Seq<u8>, OutputError>(
            OutputError::NoPcr7,
        ),
        clock_field(text) is None ==> clock_of_output(text) == Err::<u64, OutputError>(
            OutputError::NoClock,
        ),
        pcr7_field(text) is Some ==> pcr7_of_output(text) == pcr_of_text(
            without_prefixes(pcr7_field(text)->0),
        ),
        clock_field(text) is Some ==> clock_of_output(text) == clock_of_text(clock_field(text)->0),
{
}

/// A text starts with another if and only if it is the other with something behind it.
pub proof fn law_starts_with(text: Seq<char>, start: Seq<char>, rest: Seq<char>)
    ensures
        starts_with(start + rest, start),
        starts_with(text, start) ==> text == start + text.skip(start.len() as int),
{
    assert((start + rest).take(start.len() as int) =~= start);
    if starts_with(text, start) {
        assert(text =~= text.take(start.len() as int) + text.skip(start.len() as int));
    }
}

/// A line gives the clock where `clock:` comes first in it, whatever white space is before it and
/// around the value.
pub proof fn law_clock_line(
    before: Seq<char>,
    space: Seq<char>,
    value: Seq<char>,
    behind: Seq<char>,
    rest: Seq<char>,
)
    requires
        forall|i: int| 0 <= i < before.len() ==> is_space(#[trigger] before[i]) && before[i] != '\n',
        forall|i: int| 0 <= i < space.len() ==> is_space(#[trigger] space[i]) && space[i] != '\n',
        value.len() > 0,
        forall|i: int| 0 <= i < value.len() ==> !is_space(#[trigger] value[i]),
        forall|i: int| 0 <= i < behind.len() ==> is_space(#[trigger] behind[i]) && behind[i] != '\n',
    ensures
        clock_of_output(
            before + (seq!['c', 'l', 'o', 'c', 'k', ':'] + space + value) + behind + (seq!['\n']
                + rest),
        ) == clock_of_text(value),
{
    reveal_strlit("clock:");
    let name = seq!['c', 'l', 'o', 'c', 'k', ':'];
    let inner = name + space + value;
    let line = before + inner + behind;
    assert("clock:"@ =~= name);
    assert(!is_space(value[0]) && !is_space(value[value.len() - 1]));
    assert forall|i: int| 0 <= i < value.len() implies #[trigger] value[i] != '\n' by {
        assert(!is_space(value[i]));
    }
    assert forall|i: int| 0 <= i < line.len() implies #[trigger] line[i] != '\n' by {
        let n = before.len();
        let m = n + 6 + space.len();
        if i < n {
            assert(line[i] == before[i]);
        } else if n + 6 <= i < m {
            assert(line[i] == space[i - n - 6]);
        } else if m <= i < m + value.len() {
            assert(line[i] == value[i - m]);
        } else if i >= m + value.len() {
            assert(line[i] == behind[i - m - value.len()]);
        }
    }
    assert(line =~= before + (inner + behind));
    lemma_spaces_are_passed(before, inner + behind);
    lemma_spaces_behind(inner, behind);
    assert(trimmed(line) == inner);
    assert(inner.take(6) =~= name);
    assert(inner.skip(6) =~= space + value);
    lemma_spaces_are_passed(space, value);
    assert(trimmed_end(value) == value);
    law_first_line_decides(line, rest);
}

/// White space behind a text is passed over.
proof fn lemma_spaces_behind(text: Seq<char>, spaces: Seq<char>)
    requires
        forall|i: int| 0 <= i < spaces.len() ==> is_space(#[trigger] spaces[i]),
        text.len() > 0,
        !is_space(text.last()),
    ensures
        trimmed_end(text + spaces) == text,
    decreases spaces.len(),
{
    if spaces.len() == 0 {
        assert(text + spaces =~= text);
    } else {
        let front = spaces.drop_last();
        assert forall|i: int| 0 <= i < front.len() implies is_space(#[trigger] front[i]) by {
            assert(front[i] == spaces[i]);
        }
        assert(is_space(spaces[spaces.len() - 1]));
        lemma_spaces_behind(text, front);
        assert((text + spaces).drop_last() =~= text + front);
    }
}

} // verus!
