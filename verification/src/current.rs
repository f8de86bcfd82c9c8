//! The file that names the committed manifest version.

use vstd::prelude::*;
use vstd::utf8::{decode_utf8, encode_utf8, valid_utf8};

use crate::text::{
    all_digits, chars_of, decimal_text, digits, is_digit, lemma_digits, parse_decimal,
    parsed_decimal, unsigned_part,
};

verus! {

/// Whether a character is white space, as Unicode defines it.
pub open spec fn is_space(c: char) -> bool {
    let code = c as u32;
    ||| 0x9 <= code <= 0xd
    ||| code == 0x20
    ||| code == 0x85
    ||| code == 0xa0
    ||| code == 0x1680
    ||| 0x2000 <= code <= 0x200a
    ||| code == 0x2028
    ||| code == 0x2029
    ||| code == 0x202f
    ||| code == 0x205f
    ||| code == 0x3000
}

/// A text without the white space around it.
pub open spec fn trimmed(s: Seq<char>) -> Seq<char>
    decreases s.len(),
{
    if s.len() == 0 {
        s
    } else if is_space(s[0]) {
        trimmed(s.skip(1))
    } else if is_space(s.last()) {
        trimmed(s.drop_last())
    } else {
        s
    }
}

/// The version that the bytes of the file name: a decimal number with white space around it.
pub open spec fn version_named(bytes: Seq<u8>) -> Option<u64> {
    if valid_utf8(bytes) {
        match parsed_decimal(trimmed(decode_utf8(bytes)), u64::MAX as nat) {
            Some(version) => Some(version as u64),
            None => None,
        }
    } else {
        None
    }
}

/// The bytes that name a version.
pub open spec fn version_bytes(version: u64) -> Seq<u8> {
    encode_utf8(digits(version as nat))
}

/// Calls `String::from_utf8_lossy`, which gives back the text that the bytes encode, and puts a
/// replacement character in the place of bytes that are not valid UTF-8.
#[verifier::external_body]
fn lossy_text(bytes: &[u8]) -> (text: String)
    ensures
        valid_utf8(bytes@) ==> text@ == decode_utf8(bytes@),
        !valid_utf8(bytes@) ==> text@.contains('\u{fffd}'),
{
    String::from_utf8_lossy(bytes).into_owned()
}

/// Whether a character is white space.
fn space(c: char) -> (result: bool)
    ensures
        result == is_space(c),
{
    let code: u32 = c as u32;
    (0x9 <= code && code <= 0xd) || code == 0x20 || code == 0x85 || code == 0xa0 || code == 0x1680
        || (0x2000 <= code && code <= 0x200a) || code == 0x2028 || code == 0x2029 || code == 0x202f
        || code == 0x205f || code == 0x3000
}

/// Takes the white space off both ends of a text.
pub fn trim(s: &str) -> (rest: &str)
    ensures
        rest@ == trimmed(s@),
{
    let chars = chars_of(s);
    let total: usize = chars.len();
    let mut start: usize = 0;
    assert(s@.skip(0) =~= s@);
    while start < total && space(chars[start])
        invariant
            start <= total,
            total == chars@.len(),
            chars@ == s@,
            trimmed(s@) == trimmed(s@.skip(start as int)),
        decreases total - start,
    {
        assert(s@.skip(start as int).skip(1) =~= s@.skip(start + 1));
        start = start + 1;
    }
    let mut end: usize = total;
    assert(s@.subrange(start as int, end as int) =~= s@.skip(start as int));
    while start < end && space(chars[end - 1])
        invariant
            start <= end <= total,
            total == chars@.len(),
            chars@ == s@,
            start < total ==> !is_space(s@[start as int]),
            trimmed(s@) == trimmed(s@.subrange(start as int, end as int)),
        decreases end - start,
    {
        assert(s@.subrange(start as int, end as int).drop_last() =~= s@.subrange(
            start as int,
            end - 1,
        ));
        end = end - 1;
    }
    let total_chars: usize = s.unicode_len();
    assert(total_chars == total);
    s.substring_char(start, end)
}

/// Trimming takes off nothing but white space.
proof fn lemma_trimmed_keeps(s: Seq<char>, c: char)
    requires
        s.contains(c),
        !is_space(c),
    ensures
        trimmed(s).contains(c),
    decreases s.len(),
{
    let i = choose|i: int| 0 <= i < s.len() && s[i] == c;
    if s.len() > 0 {
        if is_space(s[0]) {
            assert(s.skip(1)[i - 1] == c);
            lemma_trimmed_keeps(s.skip(1), c);
        } else if is_space(s.last()) {
            assert(s.drop_last()[i] == c);
            lemma_trimmed_keeps(s.drop_last(), c);
        }
    }
}

/// A text with a replacement character in it is no number.
proof fn lemma_not_a_number(s: Seq<char>)
    requires
        s.contains('\u{fffd}'),
    ensures
        parsed_decimal(s, u64::MAX as nat) is None,
{
    let i = choose|i: int| 0 <= i < s.len() && s[i] == '\u{fffd}';
    let body = unsigned_part(s);
    if s.len() > 1 && s[0] == '+' {
        assert(body[i - 1] == '\u{fffd}');
        assert(!is_digit(body[i - 1]));
    } else {
        assert(!is_digit(body[i]));
    }
    assert(!all_digits(body));
}

/// Reads the version out of the bytes of the file; `None`, where they name none.
pub fn parse_current(bytes: &[u8]) -> (version: Option<u64>)
    ensures
        version == version_named(bytes@),
{
    let text = lossy_text(bytes);
    let body = trim(text.as_str());
    let parsed = parse_decimal(body, u64::MAX);
    proof {
        if !valid_utf8(bytes@) {
            lemma_trimmed_keeps(text@, '\u{fffd}');
            lemma_not_a_number(body@);
        }
    }
    parsed
}

/// Writes the bytes that name a version.
pub fn current_bytes(version: u64) -> (text: String)
    ensures
        encode_utf8(text@) == version_bytes(version),
        text@ == digits(version as nat),
{
    decimal_text(version)
}

/// What was written for a version names that version.
pub proof fn current_round_trip(version: u64)
    ensures
        version_named(version_bytes(version)) == Some(version),
{
    let text = digits(version as nat);
    lemma_digits(version as nat);
    vstd::utf8::encode_utf8_valid_utf8(text);
    vstd::utf8::encode_utf8_decode_utf8(text);
    assert(is_digit(text[0]));
    assert(is_digit(text.last()));
    assert(trimmed(text) == text);
    assert(unsigned_part(text) == text);
}

/// Spaces and line ends around a text do not matter, and none is left of them.
pub proof fn spaces_around_do_not_matter(s: Seq<char>, c: char)
    ensures
        c == ' ' || c == '\n' || c == '\r' || c == '\t' ==> trimmed(seq![c] + s) == trimmed(s)
            && trimmed(s.push(c)) == trimmed(s),
        trimmed(s).len() > 0 ==> trimmed(s)[0] != ' ' && trimmed(s)[0] != '\n' && trimmed(s).last()
            != ' ' && trimmed(s).last() != '\n',
        s.len() > 0 && '0' <= s[0] <= '9' && '0' <= s.last() <= '9' ==> trimmed(s) == s,
    decreases s.len(),
{
    let front = seq![c] + s;
    let back = s.push(c);
    assert(front.skip(1) =~= s);
    assert(back.drop_last() =~= s);
    if s.len() == 0 {
        assert(back.skip(1) =~= s);
    } else if is_space(s[0]) {
        spaces_around_do_not_matter(s.skip(1), c);
        assert(back.skip(1) =~= s.skip(1).push(c));
    } else if is_space(s.last()) {
        spaces_around_do_not_matter(s.drop_last(), c);
    }
}

} // verus!
