//! Text: its UTF-8 and UTF-16 forms, and searching it.

use vstd::prelude::*;
use vstd::slice::slice_subrange;
use vstd::utf8::{encode_utf8, is_ascii_chars, is_ascii_chars_encode_utf8};

use crate::bytes::{equal, le_bytes, push_u16_le};

verus! {

/// `String::push` appends the character to the string.
pub assume_specification[ String::push ](string: &mut String, character: char)
    ensures
        final(string)@ == old(string)@.push(character),
;

/// The UTF-16LE form of a character: its code point in two bytes, or in a surrogate pair where
/// it does not fit.
pub open spec fn utf16_char(character: char) -> Seq<u8> {
    let point = character as nat;
    if point < 0x1_0000 {
        le_bytes(point, 2)
    } else {
        let above = (point - 0x1_0000) as nat;
        le_bytes(0xd800 + above / 0x400, 2) + le_bytes(0xdc00 + above % 0x400, 2)
    }
}

/// The UTF-16LE form of a text, without a terminator.
pub open spec fn utf16(text: Seq<char>) -> Seq<u8>
    decreases text.len(),
{
    if text.len() == 0 {
        Seq::empty()
    } else {
        utf16(text.drop_last()) + utf16_char(text.last())
    }
}

/// The bytes of a text that is ASCII only.
pub open spec fn ascii(text: Seq<char>) -> Seq<u8> {
    text.map_values(|c: char| c as u8)
}

/// Whether `pattern` stands in `text` at offset `at`.
pub open spec fn occurs_at(text: Seq<u8>, pattern: Seq<u8>, at: int) -> bool {
    &&& 0 <= at
    &&& at + pattern.len() <= text.len()
    &&& text.subrange(at, at + pattern.len()) == pattern
}

/// Whether `at` is the first place where `pattern` stands in `text`.
pub open spec fn occurs_first_at(text: Seq<u8>, pattern: Seq<u8>, at: int) -> bool {
    &&& occurs_at(text, pattern, at)
    &&& forall|before: int| 0 <= before < at ==> !occurs_at(text, pattern, before)
}

/// The first place where `pattern` stands in `text`.
pub open spec fn first_occurrence(text: Seq<u8>, pattern: Seq<u8>) -> Option<int> {
    if exists|at: int| occurs_first_at(text, pattern, at) {
        Some(choose|at: int| occurs_first_at(text, pattern, at))
    } else {
        None
    }
}

/// There is only one first place.
pub proof fn lemma_first_occurrence(text: Seq<u8>, pattern: Seq<u8>, at: int)
    requires
        occurs_first_at(text, pattern, at),
    ensures
        first_occurrence(text, pattern) == Some(at),
{
    let chosen = choose|other: int| occurs_first_at(text, pattern, other);
    assert(occurs_first_at(text, pattern, chosen));
    assert(chosen == at);
}

/// The UTF-8 form of two texts in a row is that of each, in a row.
pub proof fn lemma_utf8_concat(first: Seq<char>, second: Seq<char>)
    ensures
        encode_utf8(first + second) == encode_utf8(first) + encode_utf8(second),
    decreases first.len(),
{
    if first.len() == 0 {
        assert(first + second =~= second);
        assert(encode_utf8(first) + encode_utf8(second) =~= encode_utf8(second));
    } else {
        let rest = first.drop_first();
        lemma_utf8_concat(rest, second);
        assert((first + second).drop_first() =~= rest + second);
        assert((first + second)[0] == first[0]);
        assert(encode_utf8(first + second) =~= encode_utf8(first) + encode_utf8(second));
    }
}

/// The UTF-8 form of an ASCII text is its characters, one byte each.
pub proof fn lemma_utf8_ascii(text: Seq<char>)
    requires
        is_ascii_chars(text),
    ensures
        encode_utf8(text) == ascii(text),
{
    is_ascii_chars_encode_utf8(text);
    assert(encode_utf8(text) =~= ascii(text));
}

/// The first place where `pattern` stands in `text`.
pub fn find(text: &[u8], pattern: &[u8]) -> (found: Option<usize>)
    ensures
        match found {
            Some(at) => first_occurrence(text@, pattern@) == Some(at as int) && at
                + pattern.len() <= text.len(),
            None => first_occurrence(text@, pattern@) is None,
        },
{
    if text.len() < pattern.len() {
        return None;
    }
    let last: usize = text.len() - pattern.len();
    let mut at: usize = 0;
    loop
        invariant
            last + pattern.len() == text.len(),
            at <= last,
            forall|before: int| 0 <= before < at ==> !occurs_at(text@, pattern@, before),
        decreases last - at,
    {
        if equal(slice_subrange(text, at, at + pattern.len()), pattern) {
            proof {
                assert(occurs_first_at(text@, pattern@, at as int));
                lemma_first_occurrence(text@, pattern@, at as int);
            }
            return Some(at);
        }
        if at == last {
            return None;
        }
        at += 1;
    }
}

/// Append the UTF-16LE form of a character.
fn push_utf16_char(out: &mut Vec<u8>, character: char)
    ensures
        final(out)@ == old(out)@ + utf16_char(character),
{
    let point: u32 = character as u32;
    if point < 0x1_0000 {
        push_u16_le(out, point as u16);
    } else {
        let above: u32 = point - 0x1_0000;
        push_u16_le(out, (0xd800 + above / 0x400) as u16);
        push_u16_le(out, (0xdc00 + above % 0x400) as u16);
    }
    assert(out@ =~= old(out)@ + utf16_char(character));
}

/// The UTF-16LE form of `text`, without a terminator.
pub fn to_utf16(text: &str) -> (out: Vec<u8>)
    ensures
        out@ == utf16(text@),
{
    let mut out: Vec<u8> = Vec::new();
    for character in it: text.chars()
        invariant
            it.seq() == text@,
            out@ == utf16(text@.take(it.index() as int)),
    {
        push_utf16_char(&mut out, character);
        proof {
            let done = text@.take(it.index() + 1);
            assert(done.drop_last() =~= text@.take(it.index() as int));
            assert(out@ =~= utf16(done));
        }
    }
    assert(text@.take(text@.len() as int) =~= text@);
    out
}

/// The last character of a UTF-16 text can be told from what comes before.
#[verifier::rlimit(30)]
proof fn lemma_last_utf16_char(a: Seq<u8>, x: char, b: Seq<u8>, y: char)
    requires
        a + utf16_char(x) == b + utf16_char(y),
    ensures
        a == b,
        x == y,
{
    reveal_with_fuel(le_bytes, 3);
    let whole = a + utf16_char(x);
    let end = whole.len();
    let low = whole[end - 2] + 256 * whole[end - 1];
    let high = whole[end - 4] + 256 * whole[end - 3];
    if (x as nat) < 0x1_0000 {
        assert(low == x as nat);
    } else {
        let above = (x as nat - 0x1_0000) as nat;
        assert(low == 0xdc00 + above % 0x400);
        assert(high == 0xd800 + above / 0x400);
    }
    let other = b + utf16_char(y);
    assert(low == other[end - 2] + 256 * other[end - 1]);
    if (y as nat) < 0x1_0000 {
        assert(low == y as nat);
    } else {
        let above = (y as nat - 0x1_0000) as nat;
        assert(low == 0xdc00 + above % 0x400);
        assert(high == 0xd800 + above / 0x400);
    }
    assert(x == y);
    assert(whole.take(a.len() as int) =~= a);
    assert(other.take(a.len() as int) =~= b);
}

/// Different texts have different UTF-16 forms.
pub proof fn law_utf16_is_injective(a: Seq<char>, b: Seq<char>)
    requires
        utf16(a) == utf16(b),
    ensures
        a == b,
    decreases a.len(),
{
    reveal_with_fuel(le_bytes, 3);
    if a.len() > 0 && b.len() > 0 {
        lemma_last_utf16_char(utf16(a.drop_last()), a.last(), utf16(b.drop_last()), b.last());
        law_utf16_is_injective(a.drop_last(), b.drop_last());
        assert(a =~= a.drop_last().push(a.last()));
        assert(b =~= b.drop_last().push(b.last()));
    } else {
        assert(a =~= b);
    }
}

/// The UTF-16 form of two texts in a row is that of each, in a row.
pub proof fn law_utf16_concat(first: Seq<char>, second: Seq<char>)
    ensures
        utf16(first + second) == utf16(first) + utf16(second),
    decreases second.len(),
{
    if second.len() == 0 {
        assert(first + second =~= first);
        assert(utf16(first) + utf16(second) =~= utf16(first));
    } else {
        assert((first + second).drop_last() =~= first + second.drop_last());
        law_utf16_concat(first, second.drop_last());
        assert(utf16(first + second) =~= utf16(first) + utf16(second));
    }
}

/// A character of the basic plane is its code point in two bytes, least significant first. Another
/// one is a high and a low surrogate, which give ten bits each of how far it lies beyond that plane.
pub proof fn law_utf16_of_char(character: char)
    ensures
        ({
            let bytes = utf16(seq![character]);
            let point = character as int;
            let first = bytes[0] + 0x100 * bytes[1];
            let second = bytes[2] + 0x100 * bytes[3];
            if point < 0x1_0000 {
                bytes.len() == 2 && first == point
            } else {
                &&& bytes.len() == 4
                &&& 0xd800 <= first < 0xdc00
                &&& 0xdc00 <= second < 0xe000
                &&& 0x1_0000 + (first - 0xd800) * 0x400 + (second - 0xdc00) == point
            }
        }),
{
    reveal_with_fuel(le_bytes, 3);
    assert(seq![character].drop_last() =~= Seq::<char>::empty());
    assert(utf16(Seq::<char>::empty()) =~= Seq::empty());
    assert(utf16(seq![character]) =~= utf16_char(character));
}

/// Each ASCII character is itself and a zero in UTF-16.
pub proof fn law_utf16_of_ascii(text: Seq<char>)
    requires
        is_ascii_chars(text),
    ensures
        utf16(text) == Seq::new(
            2 * text.len(),
            |k: int|
                if k % 2 == 0 {
                    text[k / 2] as u8
                } else {
                    0u8
                },
        ),
    decreases text.len(),
{
    let expected = Seq::new(
        2 * text.len(),
        |k: int|
            if k % 2 == 0 {
                text[k / 2] as u8
            } else {
                0u8
            },
    );
    if text.len() == 0 {
        assert(utf16(text) =~= expected);
    } else {
        let front = text.drop_last();
        assert forall|i: int| 0 <= i < front.len() implies '\0' <= #[trigger] front[i]
            <= '\u{7f}' by {
            assert(front[i] == text[i]);
        }
        law_utf16_of_ascii(front);
        assert('\0' <= text[text.len() - 1] <= '\u{7f}');
        lemma_utf16_ascii_char(text.last());
        assert forall|k: int| 0 <= k < expected.len() implies utf16(text)[k] == expected[k] by {
            if k < 2 * front.len() {
                assert(front[k / 2] == text[k / 2]);
            }
        }
        assert(utf16(text) =~= expected);
    }
}

proof fn lemma_utf16_ascii_char(character: char)
    requires
        '\0' <= character <= '\u{7f}',
    ensures
        utf16_char(character) == seq![character as u8, 0u8],
{
    reveal_with_fuel(le_bytes, 3);
    assert(utf16_char(character) =~= seq![character as u8, 0u8]);
}

/// A pattern is found at a place where it stands, at none before it stands, and always where it
/// stands somewhere.
pub proof fn law_first_occurrence(text: Seq<u8>, pattern: Seq<u8>)
    ensures
        match first_occurrence(text, pattern) {
            Some(at) => {
                &&& 0 <= at && at + pattern.len() <= text.len()
                &&& forall|i: int| 0 <= i < pattern.len() ==> text[at + i] == #[trigger] pattern[i]
                &&& forall|before: int, rest: Seq<u8>|
                    0 <= before < at ==> #[trigger] (text.take(before) + pattern + rest) != text
            },
            None => forall|before: Seq<u8>, rest: Seq<u8>| #[trigger]
                (before + pattern + rest) != text,
        },
{
    match first_occurrence(text, pattern) {
        Some(at) => {
            assert(occurs_first_at(text, pattern, at));
            assert forall|i: int| 0 <= i < pattern.len() implies text[at + i]
                == #[trigger] pattern[i] by {
                assert(text.subrange(at, at + pattern.len())[i] == text[at + i]);
            }
            assert forall|before: int, rest: Seq<u8>| 0 <= before < at implies #[trigger]
                (text.take(before) + pattern + rest) != text by {
                let whole = text.take(before) + pattern + rest;
                if whole == text {
                    assert(whole.subrange(before, before + pattern.len()) =~= pattern);
                    assert(occurs_at(text, pattern, before));
                }
            }
        },
        None => {
            assert forall|before: Seq<u8>, rest: Seq<u8>| #[trigger]
                (before + pattern + rest) != text by {
                let whole = before + pattern + rest;
                if whole == text {
                    let at = before.len() as int;
                    assert(whole.subrange(at, at + pattern.len()) =~= pattern);
                    lemma_some_first(text, pattern, at);
                }
            }
        },
    }
}

/// Where a pattern stands somewhere, it stands somewhere first.
proof fn lemma_some_first(text: Seq<u8>, pattern: Seq<u8>, at: int)
    requires
        occurs_at(text, pattern, at),
    ensures
        exists|first: int| occurs_first_at(text, pattern, first),
    decreases at,
{
    if exists|before: int| 0 <= before < at && occurs_at(text, pattern, before) {
        let before = choose|before: int| 0 <= before < at && occurs_at(text, pattern, before);
        lemma_some_first(text, pattern, before);
    } else {
        assert(occurs_first_at(text, pattern, at));
    }
}

} // verus!
