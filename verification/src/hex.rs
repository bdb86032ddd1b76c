//! Hexadecimal text.

use vstd::prelude::*;
use vstd::slice::slice_subrange;

use crate::bytes::be_value;
use crate::text::ascii;

verus! {

/// The hexadecimal digit of a value below 16.
pub open spec fn hex_digit(value: nat) -> char {
    if value < 10 {
        ('0' as u8 + value) as char
    } else {
        ('a' as u8 + (value - 10)) as char
    }
}

/// The two digits of a byte.
pub open spec fn hex_byte(byte: u8) -> Seq<char> {
    seq![hex_digit(byte as nat / 16), hex_digit(byte as nat % 16)]
}

/// The hexadecimal form of a byte string: two lower-case digits for each byte.
pub open spec fn hex_text(bytes: Seq<u8>) -> Seq<char>
    decreases bytes.len(),
{
    if bytes.len() == 0 {
        Seq::empty()
    } else {
        hex_text(bytes.drop_last()) + hex_byte(bytes.last())
    }
}

/// The value of a hexadecimal digit of either case.
pub open spec fn hex_value(digit: u8) -> Option<nat> {
    if '0' as u8 <= digit <= '9' as u8 {
        Some((digit - '0' as u8) as nat)
    } else if 'a' as u8 <= digit <= 'f' as u8 {
        Some((digit - 'a' as u8 + 10) as nat)
    } else if 'A' as u8 <= digit <= 'F' as u8 {
        Some((digit - 'A' as u8 + 10) as nat)
    } else {
        None
    }
}

/// The number that a string of hexadecimal digits stands for.
pub open spec fn digits_number(digits: Seq<u8>) -> Option<nat>
    decreases digits.len(),
{
    if digits.len() == 0 {
        Some(0)
    } else {
        match (digits_number(digits.drop_last()), hex_value(digits.last())) {
            (Some(number), Some(value)) => Some(number * 16 + value),
            _ => None,
        }
    }
}

/// The number that a hexadecimal numeral stands for: at least one digit, behind an optional plus
/// sign.
pub open spec fn numeral(text: Seq<u8>) -> Option<nat> {
    let digits = if text.len() > 0 && text[0] == '+' as u8 {
        text.skip(1)
    } else {
        text
    };
    if digits.len() == 0 {
        None
    } else {
        digits_number(digits)
    }
}

/// The byte that each pair of characters stands for, if there are only pairs and each stands for
/// one.
pub open spec fn pairs(text: Seq<u8>) -> Option<Seq<u8>>
    decreases text.len(),
{
    if text.len() == 0 {
        Some(Seq::empty())
    } else if text.len() == 1 {
        None
    } else {
        match (pairs(text.take(text.len() - 2)), numeral(text.skip(text.len() - 2))) {
            (Some(bytes), Some(byte)) => Some(bytes.push(byte as u8)),
            _ => None,
        }
    }
}

/// Digits stand for a number below the power of 16 that their count gives.
proof fn lemma_digits_bound(digits: Seq<u8>)
    requires
        digits.len() <= 8,
    ensures
        digits_number(digits) matches Some(number) ==> {
            &&& digits.len() <= 1 ==> number < 0x10
            &&& digits.len() <= 2 ==> number < 0x100
            &&& digits.len() <= 3 ==> number < 0x1000
            &&& digits.len() <= 4 ==> number < 0x1_0000
            &&& digits.len() <= 5 ==> number < 0x10_0000
            &&& digits.len() <= 6 ==> number < 0x100_0000
            &&& digits.len() <= 7 ==> number < 0x1000_0000
            &&& number < 0x1_0000_0000
        },
        digits.len() == 0 ==> digits_number(digits) == Some(0nat),
    decreases digits.len(),
{
    if digits.len() > 0 {
        lemma_digits_bound(digits.drop_last());
    }
}

/// A numeral of up to four characters stands for a number of 16 bits.
pub proof fn lemma_numeral_bound(text: Seq<u8>)
    requires
        text.len() <= 4,
    ensures
        numeral(text) matches Some(number) ==> number < 0x1_0000,
{
    lemma_digits_bound(text);
    if text.len() > 0 {
        lemma_digits_bound(text.skip(1));
    }
}

/// A numeral of up to eight characters stands for a number of 32 bits.
pub proof fn lemma_long_numeral_bound(text: Seq<u8>)
    requires
        text.len() <= 8,
    ensures
        numeral(text) matches Some(number) ==> number < 0x1_0000_0000,
{
    lemma_digits_bound(text);
    if text.len() > 0 {
        lemma_digits_bound(text.skip(1));
    }
}

/// The digits of a byte stand for it.
proof fn lemma_hex_byte(byte: u8)
    ensures
        '\0' <= hex_byte(byte)[0] <= '\u{7f}',
        '\0' <= hex_byte(byte)[1] <= '\u{7f}',
        hex_byte(byte)[0] != '+',
        hex_byte(byte)[0] != '-',
        hex_byte(byte)[1] != '-',
        hex_value(hex_byte(byte)[0] as u8) == Some(byte as nat / 16),
        hex_value(hex_byte(byte)[1] as u8) == Some(byte as nat % 16),
{
}

/// The hexadecimal form of a byte string is ASCII, holds no dash, does not start with a plus
/// sign, and stands for the number the byte string stands for.
pub proof fn lemma_hex_text(bytes: Seq<u8>)
    ensures
        hex_text(bytes).len() == 2 * bytes.len(),
        forall|i: int|
            0 <= i < hex_text(bytes).len() ==> '\0' <= #[trigger] hex_text(bytes)[i] <= '\u{7f}'
                && hex_text(bytes)[i] != '-',
        bytes.len() > 0 ==> hex_text(bytes)[0] != '+',
        digits_number(ascii(hex_text(bytes))) == Some(be_value(bytes)),
    decreases bytes.len(),
{
    if bytes.len() > 0 {
        let front = bytes.drop_last();
        let byte = bytes.last();
        lemma_hex_text(front);
        lemma_hex_byte(byte);
        let text = ascii(hex_text(bytes));
        let before = ascii(hex_text(front));
        assert(text.drop_last().drop_last() =~= before);
        assert(text.last() == hex_byte(byte)[1] as u8);
        assert(text.drop_last().last() == hex_byte(byte)[0] as u8);
        assert(digits_number(text.drop_last()) == Some(be_value(front) * 16 + byte as nat / 16));
        assert(digits_number(text) == Some(
            (be_value(front) * 16 + byte as nat / 16) * 16 + byte as nat % 16,
        ));
    }
}

/// The hexadecimal form has only digits and the first letters.
pub proof fn lemma_hex_characters(bytes: Seq<u8>)
    ensures
        forall|i: int|
            0 <= i < hex_text(bytes).len() ==> '0' <= #[trigger] hex_text(bytes)[i] <= '9' || 'a'
                <= hex_text(bytes)[i] <= 'f',
    decreases bytes.len(),
{
    if bytes.len() > 0 {
        lemma_hex_characters(bytes.drop_last());
        let byte = bytes.last();
        let high = hex_digit(byte as nat / 16);
        let low = hex_digit(byte as nat % 16);
        assert('0' <= high <= '9' || 'a' <= high <= 'f');
        assert('0' <= low <= '9' || 'a' <= low <= 'f');
        assert(hex_text(bytes) =~= hex_text(bytes.drop_last()) + hex_byte(byte));
    }
}

/// The hexadecimal form of a byte string is a numeral for the number it stands for.
pub proof fn lemma_hex_numeral(bytes: Seq<u8>)
    requires
        bytes.len() > 0,
    ensures
        numeral(ascii(hex_text(bytes))) == Some(be_value(bytes)),
{
    lemma_hex_text(bytes);
    let text = hex_text(bytes);
    assert(ascii(text)[0] == text[0] as u8);
}

/// Reading the hexadecimal form of a byte string in pairs gives back the bytes.
pub proof fn law_hex_round_trip(bytes: Seq<u8>)
    ensures
        pairs(ascii(hex_text(bytes))) == Some(bytes),
    decreases bytes.len(),
{
    let text = ascii(hex_text(bytes));
    if bytes.len() == 0 {
        assert(pairs(text)->0 =~= bytes);
    } else {
        let front = bytes.drop_last();
        let last = seq![bytes.last()];
        law_hex_round_trip(front);
        lemma_hex_text(bytes);
        lemma_hex_text(last);
        lemma_hex_numeral(last);
        reveal_with_fuel(hex_text, 2);
        reveal_with_fuel(be_value, 2);
        assert(last.drop_last() =~= Seq::<u8>::empty());
        assert(hex_text(last) =~= hex_byte(bytes.last()));
        assert(text.take(text.len() - 2) =~= ascii(hex_text(front)));
        assert(text.skip(text.len() - 2) =~= ascii(hex_text(last)));
        assert(be_value(last) == bytes.last() as nat);
        assert(front.push(bytes.last()) =~= bytes);
    }
}

/// The hexadecimal digit of a value below 16.
fn digit_of_value(value: u8) -> (digit: char)
    requires
        value < 16,
    ensures
        digit == hex_digit(value as nat),
{
    if value < 10 {
        ('0' as u8 + value) as char
    } else {
        ('a' as u8 + (value - 10)) as char
    }
}

/// Append the hexadecimal form of a byte string.
pub fn push_hex(out: &mut String, bytes: &[u8])
    ensures
        final(out)@ == old(out)@ + hex_text(bytes@),
{
    let mut i: usize = 0;
    assert(out@ + hex_text(bytes@.take(0)) =~= out@);
    while i < bytes.len()
        invariant
            i <= bytes@.len(),
            out@ == old(out)@ + hex_text(bytes@.take(i as int)),
        decreases bytes@.len() - i,
    {
        out.push(digit_of_value(bytes[i] / 16));
        out.push(digit_of_value(bytes[i] % 16));
        i += 1;
        proof {
            assert(bytes@.take(i as int).drop_last() =~= bytes@.take(i - 1));
            assert(out@ =~= old(out)@ + hex_text(bytes@.take(i as int)));
        }
    }
    assert(bytes@.take(i as int) =~= bytes@);
}

/// The hexadecimal form of a byte string.
pub fn hex(bytes: &[u8]) -> (text: String)
    ensures
        text@ == hex_text(bytes@),
{
    let mut text = String::new();
    push_hex(&mut text, bytes);
    assert(text@ =~= hex_text(bytes@));
    text
}

/// The value of a hexadecimal digit of either case.
fn value_of_digit(digit: u8) -> (value: Option<u32>)
    ensures
        match value {
            Some(value) => hex_value(digit) == Some(value as nat) && value < 16,
            None => hex_value(digit) is None,
        },
{
    if '0' as u8 <= digit && digit <= '9' as u8 {
        Some((digit - '0' as u8) as u32)
    } else if 'a' as u8 <= digit && digit <= 'f' as u8 {
        Some((digit - 'a' as u8 + 10) as u32)
    } else if 'A' as u8 <= digit && digit <= 'F' as u8 {
        Some((digit - 'A' as u8 + 10) as u32)
    } else {
        None
    }
}

/// The number that a hexadecimal numeral of up to eight characters stands for.
pub fn read_numeral(text: &[u8]) -> (number: Option<u32>)
    requires
        text@.len() <= 8,
    ensures
        match number {
            Some(number) => numeral(text@) == Some(number as nat),
            None => numeral(text@) is None,
        },
{
    let start: usize = if text.len() > 0 && text[0] == '+' as u8 {
        1
    } else {
        0
    };
    if start == text.len() {
        return None;
    }
    let ghost digits = text@.skip(start as int);
    let mut number: u32 = 0;
    let mut valid: bool = true;
    let mut i: usize = start;
    assert(digits.take(0) =~= Seq::<u8>::empty());
    while i < text.len()
        invariant
            start <= i <= text@.len() <= 8,
            digits == text@.skip(start as int),
            valid ==> digits_number(digits.take(i - start)) == Some(number as nat),
            !valid ==> digits_number(digits.take(i - start)) is None,
        decreases text@.len() - i,
    {
        proof {
            lemma_digits_bound(digits.take(i - start));
            assert(digits.take(i - start + 1).drop_last() =~= digits.take(i - start));
            assert(digits.take(i - start + 1).last() == text@[i as int]);
        }
        match value_of_digit(text[i]) {
            Some(value) => {
                if valid {
                    number = number * 16 + value;
                }
            },
            None => {
                valid = false;
            },
        }
        i += 1;
    }
    assert(digits.take(i - start) =~= digits);
    assert(start == 0 ==> digits =~= text@);
    if valid {
        Some(number)
    } else {
        None
    }
}

/// The byte that each pair of characters stands for, if each stands for one.
pub fn read_pairs(text: &[u8]) -> (bytes: Option<Vec<u8>>)
    requires
        text@.len() % 2 == 0,
    ensures
        match bytes {
            Some(bytes) => pairs(text@) == Some(bytes@),
            None => pairs(text@) is None,
        },
        bytes matches Some(bytes) ==> bytes@.len() == text@.len() / 2,
{
    let mut bytes: Vec<u8> = Vec::new();
    let mut valid: bool = true;
    let mut i: usize = 0;
    while i < text.len()
        invariant
            i <= text@.len(),
            i % 2 == 0,
            text@.len() % 2 == 0,
            valid ==> pairs(text@.take(i as int)) == Some(bytes@) && bytes@.len() == i / 2,
            !valid ==> pairs(text@.take(i as int)) is None,
        decreases text@.len() - i,
    {
        proof {
            let done = text@.take(i + 2);
            assert(done.take(i as int) =~= text@.take(i as int));
            assert(done.skip(i as int) =~= text@.subrange(i as int, i + 2));
            let pair = done.skip(i as int);
            lemma_digits_bound(pair);
            lemma_digits_bound(pair.skip(1));
        }
        match read_numeral(slice_subrange(text, i, i + 2)) {
            Some(byte) => {
                if valid {
                    bytes.push(byte as u8);
                }
            },
            None => {
                valid = false;
            },
        }
        i += 2;
    }
    assert(text@.take(i as int) =~= text@);
    if valid {
        Some(bytes)
    } else {
        None
    }
}

/// Whether a byte is a digit as the hexadecimal form has them.
pub open spec fn is_hex(byte: u8) -> bool {
    '0' as u8 <= byte <= '9' as u8 || 'a' as u8 <= byte <= 'f' as u8
}

/// A digit is that of its value.
proof fn lemma_hex_digit(byte: u8)
    requires
        is_hex(byte),
    ensures
        hex_value(byte) is Some,
        hex_value(byte)->0 < 16,
        hex_digit(hex_value(byte)->0) as u8 == byte,
{
}

/// Two digits are the hexadecimal form of the byte they stand for.
proof fn lemma_hex_pair(pair: Seq<u8>)
    requires
        pair.len() == 2,
        is_hex(pair[0]),
        is_hex(pair[1]),
    ensures
        hex_value(pair[0]) is Some,
        hex_value(pair[1]) is Some,
        hex_value(pair[0])->0 * 16 + hex_value(pair[1])->0 < 256,
        numeral(pair) == Some(hex_value(pair[0])->0 * 16 + hex_value(pair[1])->0),
        ascii(hex_byte((hex_value(pair[0])->0 * 16 + hex_value(pair[1])->0) as u8)) == pair,
{
    let high = pair[0];
    let low = pair[1];
    lemma_hex_digit(high);
    lemma_hex_digit(low);
    assert(pair.drop_last() =~= seq![high]);
    assert(seq![high].drop_last() =~= Seq::<u8>::empty());
    assert(digits_number(Seq::<u8>::empty()) == Some(0nat));
    assert(digits_number(seq![high]) == Some(hex_value(high)->0));
    let byte = (hex_value(high)->0 * 16 + hex_value(low)->0) as u8;
    assert(byte as nat / 16 == hex_value(high)->0);
    assert(byte as nat % 16 == hex_value(low)->0);
    assert(ascii(hex_byte(byte)) =~= pair);
}

/// Two more digits of a number.
proof fn lemma_two_digits(front: Seq<u8>, pair: Seq<u8>, number: nat)
    requires
        pair.len() == 2,
        hex_value(pair[0]) is Some,
        hex_value(pair[1]) is Some,
        digits_number(front) == Some(number),
    ensures
        digits_number(front + pair) == Some(
            number * 256 + (hex_value(pair[0])->0 * 16 + hex_value(pair[1])->0),
        ),
{
    let text = front + pair;
    assert(text.drop_last() =~= front.push(pair[0]));
    assert(front.push(pair[0]).drop_last() =~= front);
    assert(digits_number(front.push(pair[0])) == Some(number * 16 + hex_value(pair[0])->0));
}

/// A text of digits is the hexadecimal form of the bytes it stands for.
pub proof fn law_hex_text_of_pairs(text: Seq<u8>)
    requires
        text.len() % 2 == 0,
        forall|i: int| 0 <= i < text.len() ==> is_hex(#[trigger] text[i]),
    ensures
        pairs(text) is Some,
        pairs(text)->0.len() == text.len() / 2,
        ascii(hex_text(pairs(text)->0)) == text,
        digits_number(text) == Some(be_value(pairs(text)->0)),
    decreases text.len(),
{
    if text.len() == 0 {
        assert(ascii(hex_text(pairs(text)->0)) =~= text);
    } else {
        let front = text.take(text.len() - 2);
        let pair = text.skip(text.len() - 2);
        assert(front + pair =~= text);
        assert forall|i: int| 0 <= i < front.len() implies is_hex(#[trigger] front[i]) by {
            assert(front[i] == text[i]);
        }
        law_hex_text_of_pairs(front);
        assert(is_hex(pair[0]) && is_hex(pair[1]));
        lemma_hex_pair(pair);
        let before = pairs(front)->0;
        let byte = (hex_value(pair[0])->0 * 16 + hex_value(pair[1])->0) as u8;
        lemma_two_digits(front, pair, be_value(before));
        let bytes = before.push(byte);
        assert(pairs(text) == Some(bytes));
        assert(bytes.drop_last() =~= before);
        assert(hex_text(bytes) == hex_text(before) + hex_byte(byte));
        assert(ascii(hex_text(bytes)) =~= ascii(hex_text(before)) + ascii(hex_byte(byte)));
    }
}

/// Two digits stand for each byte.
pub proof fn lemma_pairs_length(text: Seq<u8>)
    ensures
        pairs(text) matches Some(bytes) ==> 2 * bytes.len() == text.len(),
    decreases text.len(),
{
    if text.len() >= 2 {
        lemma_pairs_length(text.take(text.len() - 2));
    }
}

/// The hexadecimal form, character by character: the upper and the lower half of each byte, in order,
/// as digits and the first letters in lower case.
pub proof fn law_hex_text_layout(bytes: Seq<u8>)
    ensures
        hex_text(bytes).len() == 2 * bytes.len(),
        forall|i: int|
            0 <= i < bytes.len() ==> {
                let high = "0123456789abcdef"@[#[trigger] bytes[i] as int / 16];
                let low = "0123456789abcdef"@[bytes[i] as int % 16];
                hex_text(bytes)[2 * i] == high && hex_text(bytes)[2 * i + 1] == low
            },
    decreases bytes.len(),
{
    if bytes.len() > 0 {
        let front = bytes.drop_last();
        let last = bytes.last();
        law_hex_text_layout(front);
        lemma_digit_table(last as nat / 16);
        lemma_digit_table(last as nat % 16);
        let table = "0123456789abcdef"@;
        assert forall|i: int| 0 <= i < bytes.len() implies hex_text(bytes)[2 * i]
            == table[#[trigger] bytes[i] as int / 16] && hex_text(bytes)[2 * i + 1]
            == table[bytes[i] as int % 16] by {
            if i < front.len() {
                assert(front[i] == bytes[i]);
                assert(hex_text(bytes)[2 * i] == hex_text(front)[2 * i]);
                assert(hex_text(bytes)[2 * i + 1] == hex_text(front)[2 * i + 1]);
            }
        }
    }
}

proof fn lemma_digit_table(value: nat)
    requires
        value < 16,
    ensures
        hex_digit(value) == "0123456789abcdef"@[value as int],
{
    reveal_strlit("0123456789abcdef");
}

/// A digit has a value below 16 if and only if it is one of the digits or the first letters, of
/// either case, and it has the value that its place among them gives.
pub proof fn law_hex_value(digit: u8)
    ensures
        match hex_value(digit) {
            Some(value) => value < 16 && ("0123456789abcdef"@[value as int] as u8 == digit
                || "0123456789ABCDEF"@[value as int] as u8 == digit),
            None => forall|i: int|
                0 <= i < 16 ==> #[trigger] "0123456789abcdef"@[i] as u8 != digit
                    && "0123456789ABCDEF"@[i] as u8 != digit,
        },
{
    reveal_strlit("0123456789abcdef");
    reveal_strlit("0123456789ABCDEF");
    let lower = "0123456789abcdef"@;
    let upper = "0123456789ABCDEF"@;
    if hex_value(digit) is None {
        assert forall|i: int| 0 <= i < 16 implies #[trigger] lower[i] as u8 != digit
            && upper[i] as u8 != digit by {
            assert('0' <= lower[i] <= '9' || 'a' <= lower[i] <= 'f');
            assert('0' <= upper[i] <= '9' || 'A' <= upper[i] <= 'F');
        }
    }
}

/// Each digit more makes a number sixteen times as large, and adds its value. What is no digit makes
/// it no number.
pub proof fn law_numeral_grows(front: Seq<u8>, digit: u8)
    requires
        front.len() > 0,
        front != seq!['+' as u8],
    ensures
        numeral(front.push(digit)) == match (numeral(front), hex_value(digit)) {
            (Some(number), Some(value)) => Some(16 * number + value),
            _ => None,
        },
{
    let text = front.push(digit);
    assert(text[0] == front[0]);
    if front[0] == '+' as u8 {
        if front.len() == 1 {
            assert(front =~= seq!['+' as u8]);
        }
        assert(text.skip(1).drop_last() =~= front.skip(1));
        assert(text.skip(1).last() == digit);
    } else {
        assert(text.drop_last() =~= front);
    }
}

/// A single digit is a number, with a plus sign before it or not. A plus sign alone, or nothing, is
/// none.
pub proof fn law_numeral_of_one(digit: u8)
    ensures
        numeral(Seq::empty()) is None,
        numeral(seq!['+' as u8]) is None,
        numeral(seq![digit]) == hex_value(digit),
        numeral(seq!['+' as u8, digit]) == hex_value(digit),
{
    let none = Seq::<u8>::empty();
    assert(digits_number(none) == Some(0nat));
    assert(seq![digit].drop_last() =~= none);
    assert(digits_number(seq![digit]) == hex_value(digit));
    assert(seq!['+' as u8].skip(1) =~= none);
    assert(seq!['+' as u8, digit].skip(1) =~= seq![digit]);
}

/// Bytes are read from a text if and only if it has only pairs and each is a number, and they are
/// these numbers, in order.
pub proof fn law_pairs(text: Seq<u8>)
    ensures
        match pairs(text) {
            Some(bytes) => {
                &&& text.len() == 2 * bytes.len()
                &&& forall|i: int|
                    0 <= i < bytes.len() ==> numeral(seq![text[2 * i], text[2 * i + 1]]) == Some(
                        #[trigger] bytes[i] as nat,
                    )
            },
            None => {
                ||| text.len() % 2 == 1
                ||| exists|i: int|
                    0 <= 2 * i && 2 * i + 1 < text.len() && numeral(
                        #[trigger] text.subrange(2 * i, 2 * i + 2),
                    ) is None
            },
        },
    decreases text.len(),
{
    if text.len() == 0 {
    } else if text.len() == 1 {
    } else {
        let n = text.len() - 2;
        let front = text.take(n);
        let pair = text.skip(n);
        law_pairs(front);
        assert(pair =~= seq![text[n], text[n + 1]]);
        lemma_pairs_length(text);
        lemma_pairs_length(front);
        lemma_digits_bound(pair);
        lemma_digits_bound(pair.skip(1));
        match pairs(text) {
            Some(bytes) => {
                let before = pairs(front)->0;
                assert forall|i: int| 0 <= i < bytes.len() implies numeral(
                    seq![text[2 * i], text[2 * i + 1]],
                ) == Some(#[trigger] bytes[i] as nat) by {
                    if i < before.len() {
                        assert(bytes[i] == before[i]);
                        assert(front[2 * i] == text[2 * i] && front[2 * i + 1] == text[2 * i + 1]);
                    } else {
                        assert(2 * i == n);
                    }
                }
            },
            None => {
                if text.len() % 2 == 0 {
                    if pairs(front) is None {
                        let i = choose|i: int|
                            0 <= 2 * i && 2 * i + 1 < front.len() && numeral(
                                #[trigger] front.subrange(2 * i, 2 * i + 2),
                            ) is None;
                        assert(text.subrange(2 * i, 2 * i + 2) =~= front.subrange(2 * i, 2 * i + 2));
                    } else {
                        let i = n / 2;
                        assert(text.subrange(2 * i, 2 * i + 2) =~= pair);
                    }
                }
            },
        }
    }
}

} // verus!
