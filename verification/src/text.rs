//! Decimal numbers and ordering of file names.

use vstd::prelude::*;

verus! {

/// The character of a decimal digit.
pub open spec fn digit_char(d: nat) -> char {
    if d == 0 {
        '0'
    } else if d == 1 {
        '1'
    } else if d == 2 {
        '2'
    } else if d == 3 {
        '3'
    } else if d == 4 {
        '4'
    } else if d == 5 {
        '5'
    } else if d == 6 {
        '6'
    } else if d == 7 {
        '7'
    } else if d == 8 {
        '8'
    } else {
        '9'
    }
}

/// Whether a character is an ASCII decimal digit.
pub open spec fn is_digit(c: char) -> bool {
    '0' <= c <= '9'
}

/// The number that a digit stands for.
pub open spec fn digit_value(c: char) -> nat {
    (c as int - '0' as int) as nat
}

/// The decimal notation of a number, without leading zeros.
pub open spec fn digits(n: nat) -> Seq<char>
    decreases n,
{
    if n < 10 {
        seq![digit_char(n)]
    } else {
        digits(n / 10).push(digit_char(n % 10))
    }
}

/// A run of zeros.
pub open spec fn zeros(count: nat) -> Seq<char> {
    Seq::new(count, |i: int| '0')
}

/// The decimal notation of a number, filled with zeros on the left up to `width` characters.
pub open spec fn padded(n: nat, width: nat) -> Seq<char> {
    let plain = digits(n);
    if plain.len() >= width {
        plain
    } else {
        zeros((width - plain.len()) as nat) + plain
    }
}

/// Whether every character is a digit.
pub open spec fn all_digits(s: Seq<char>) -> bool {
    forall|i: int| 0 <= i < s.len() ==> is_digit(#[trigger] s[i])
}

/// The number that a run of digits stands for.
pub open spec fn decimal_value(s: Seq<char>) -> nat
    decreases s.len(),
{
    if s.len() == 0 {
        0
    } else {
        decimal_value(s.drop_last()) * 10 + digit_value(s.last())
    }
}

/// The digits of a number that may carry a leading plus sign.
pub open spec fn unsigned_part(s: Seq<char>) -> Seq<char> {
    if s.len() > 1 && s[0] == '+' {
        s.skip(1)
    } else {
        s
    }
}

/// The unsigned number that a text denotes: an optional plus sign and at least one digit, with
/// a value of at most `max`.
pub open spec fn parsed_decimal(s: Seq<char>, max: nat) -> Option<nat> {
    let body = unsigned_part(s);
    if body.len() > 0 && all_digits(body) && decimal_value(body) <= max {
        Some(decimal_value(body))
    } else {
        None
    }
}

/// Lexicographic order of two texts by their code points.
pub open spec fn text_lt(a: Seq<char>, b: Seq<char>) -> bool
    decreases a.len(),
{
    if b.len() == 0 {
        false
    } else if a.len() == 0 {
        true
    } else if a[0] != b[0] {
        a[0] < b[0]
    } else {
        text_lt(a.skip(1), b.skip(1))
    }
}

/// A decimal digit in its notation and back is unchanged.
proof fn lemma_digit_char(d: nat)
    requires
        d < 10,
    ensures
        is_digit(digit_char(d)),
        digit_value(digit_char(d)) == d,
{
}

/// Decimal notation consists of digits and stands for the number it was made from.
pub proof fn lemma_digits(n: nat)
    ensures
        digits(n).len() >= 1,
        all_digits(digits(n)),
        decimal_value(digits(n)) == n,
    decreases n,
{
    if n < 10 {
        lemma_digit_char(n);
        assert(digits(n).drop_last() =~= Seq::empty());
        assert(decimal_value(Seq::<char>::empty()) == 0);
    } else {
        lemma_digits(n / 10);
        lemma_digit_char(n % 10);
        assert(digits(n).drop_last() =~= digits(n / 10));
        assert(digits(n).last() == digit_char(n % 10));
    }
}

/// Zeros in front of a number do not change its value.
proof fn lemma_leading_zeros(count: nat, s: Seq<char>)
    ensures
        decimal_value(zeros(count) + s) == decimal_value(s),
    decreases s.len(), count,
{
    if s.len() > 0 {
        lemma_leading_zeros(count, s.drop_last());
        assert((zeros(count) + s).drop_last() =~= zeros(count) + s.drop_last());
    } else if count > 0 {
        lemma_leading_zeros((count - 1) as nat, s);
        assert((zeros(count) + s).drop_last() =~= zeros((count - 1) as nat) + s);
    } else {
        assert(zeros(count) + s =~= s);
    }
}

/// Padded notation consists of digits, is at least `width` long and stands for the number.
pub proof fn lemma_padded(n: nat, width: nat)
    ensures
        all_digits(padded(n, width)),
        padded(n, width).len() >= 1,
        padded(n, width).len() >= width,
        decimal_value(padded(n, width)) == n,
{
    lemma_digits(n);
    if digits(n).len() < width {
        lemma_leading_zeros((width - digits(n).len()) as nat, digits(n));
    }
}

/// Two runs of digits of the same length that stand for the same number are the same.
pub proof fn lemma_digits_unique(a: Seq<char>, b: Seq<char>)
    requires
        all_digits(a),
        all_digits(b),
        a.len() == b.len(),
        decimal_value(a) == decimal_value(b),
    ensures
        a == b,
    decreases a.len(),
{
    if a.len() > 0 {
        assert(is_digit(a[a.len() - 1]));
        assert(is_digit(b[b.len() - 1]));
        let x = decimal_value(a.drop_last());
        let y = decimal_value(b.drop_last());
        assert(digit_value(a.last()) < 10);
        assert(digit_value(b.last()) < 10);
        assert(x * 10 + digit_value(a.last()) == y * 10 + digit_value(b.last()));
        assert(x == y);
        assert(all_digits(a.drop_last()));
        assert(all_digits(b.drop_last()));
        lemma_digits_unique(a.drop_last(), b.drop_last());
        assert(a =~= a.drop_last().push(a.last()));
        assert(b =~= b.drop_last().push(b.last()));
    }
}

/// A number below a power of ten has no more digits than the power has zeros.
pub proof fn lemma_digits_len(n: nat, limit: nat, count: nat)
    requires
        count >= 1,
        limit == power_of_ten(count),
        n < limit,
    ensures
        digits(n).len() <= count,
    decreases count,
{
    if n >= 10 {
        assert(count > 1) by {
            if count == 1 {
                assert(power_of_ten(1) == 10 * power_of_ten(0));
                assert(power_of_ten(0) == 1);
            }
        }
        let shorter = power_of_ten((count - 1) as nat);
        assert(n / 10 < shorter) by (nonlinear_arith)
            requires
                n < 10 * shorter,
        ;
        lemma_digits_len(n / 10, shorter, (count - 1) as nat);
    }
}

/// Ten to the power of `count`.
pub open spec fn power_of_ten(count: nat) -> nat
    decreases count,
{
    if count == 0 {
        1
    } else {
        10 * power_of_ten((count - 1) as nat)
    }
}

/// A run of digits stands for less than the power of ten with as many zeros.
pub proof fn lemma_value_bound(s: Seq<char>)
    requires
        all_digits(s),
    ensures
        decimal_value(s) < power_of_ten(s.len()),
    decreases s.len(),
{
    if s.len() > 0 {
        assert(is_digit(s[s.len() - 1]));
        lemma_value_bound(s.drop_last());
        assert(digit_value(s.last()) < 10);
    }
}

/// A prefix of a number is not larger than the number.
proof fn lemma_prefix_value(s: Seq<char>, n: int)
    requires
        0 <= n <= s.len(),
    ensures
        decimal_value(s.take(n)) <= decimal_value(s),
    decreases s.len() - n,
{
    if n < s.len() {
        assert(s.take(n + 1).drop_last() =~= s.take(n));
        lemma_prefix_value(s, n + 1);
    } else {
        assert(s.take(n) =~= s);
    }
}

/// The characters of a text.
pub fn chars_of(s: &str) -> (out: Vec<char>)
    ensures
        out@ == s@,
{
    let mut out: Vec<char> = Vec::new();
    for c in it: s.chars()
        invariant
            it.seq() == s@,
            out@ == s@.take(it.index() as int),
    {
        proof {
            assert(s@.take(it.index() as int + 1) =~= s@.take(it.index() as int).push(c));
        }
        out.push(c);
    }
    assert(s@.take(s@.len() as int) =~= s@);
    out
}

/// Whether a text consists of digits alone.
pub fn digits_only(s: &str) -> (only: bool)
    ensures
        only == all_digits(s@),
{
    let chars = chars_of(s);
    let mut i: usize = 0;
    while i < chars.len()
        invariant
            i <= chars.len(),
            chars@ == s@,
            forall|k: int| 0 <= k < i ==> is_digit(#[trigger] s@[k]),
        decreases chars.len() - i,
    {
        let c = chars[i];
        if !('0' <= c && c <= '9') {
            assert(!is_digit(s@[i as int]));
            return false;
        }
        i = i + 1;
    }
    true
}

/// The notation of one digit.
fn digit_text(d: u64) -> (text: &'static str)
    requires
        d < 10,
    ensures
        text@ == seq![digit_char(d as nat)],
{
    proof {
        reveal_strlit("0");
        reveal_strlit("1");
        reveal_strlit("2");
        reveal_strlit("3");
        reveal_strlit("4");
        reveal_strlit("5");
        reveal_strlit("6");
        reveal_strlit("7");
        reveal_strlit("8");
        reveal_strlit("9");
    }
    let text = match d {
        0 => "0",
        1 => "1",
        2 => "2",
        3 => "3",
        4 => "4",
        5 => "5",
        6 => "6",
        7 => "7",
        8 => "8",
        _ => "9",
    };
    assert(text@ =~= seq![digit_char(d as nat)]);
    text
}

/// Writes a number in decimal.
pub fn decimal_text(n: u64) -> (text: String)
    ensures
        text@ == digits(n as nat),
    decreases n,
{
    if n < 10 {
        String::from_str(digit_text(n))
    } else {
        let mut text = decimal_text(n / 10);
        text.append(digit_text(n % 10));
        assert(text@ =~= digits(n as nat / 10).push(digit_char(n as nat % 10)));
        text
    }
}

/// Appends a number in decimal, filled with zeros up to `width` characters.
pub fn append_padded(text: &mut String, n: u64, width: usize)
    ensures
        final(text)@ == old(text)@ + padded(n as nat, width as nat),
{
    let plain = decimal_text(n);
    let mut length: usize = plain.as_str().unicode_len();
    let ghost start = text@;
    let ghost missing: nat = if length >= width {
        0
    } else {
        (width - length) as nat
    };
    let ghost before = length;
    assert(start + zeros(0) =~= start);
    while length < width
        invariant
            before <= length,
            missing == (if before >= width { 0 } else { (width - before) as nat }),
            length <= before + missing,
            text@ == start + zeros((length - before) as nat),
        decreases width - length,
    {
        proof {
            reveal_strlit("0");
            assert(zeros((length - before) as nat) + seq!['0'] =~= zeros((length - before + 1) as nat));
            assert("0"@ =~= seq!['0']);
            assert(start + zeros((length - before) as nat) + "0"@ =~= start + zeros(
                (length - before + 1) as nat,
            ));
        }
        text.append("0");
        length = length + 1;
    }
    text.append(plain.as_str());
    assert(text@ =~= start + padded(n as nat, width as nat));
}

/// The number of a digit.
fn digit_number(c: char) -> (d: u64)
    requires
        is_digit(c),
    ensures
        d == digit_value(c),
        d < 10,
{
    (c as u32 - '0' as u32) as u64
}

/// Reads an unsigned decimal number: an optional plus sign and at least one digit. Returns
/// `None` for any other text and for a value above `max`.
pub fn parse_decimal(s: &str, max: u64) -> (value: Option<u64>)
    ensures
        match value {
            Some(v) => parsed_decimal(s@, max as nat) == Some(v as nat),
            None => parsed_decimal(s@, max as nat) is None,
        },
{
    let chars = chars_of(s);
    let start: usize = if chars.len() > 1 && chars[0] == '+' {
        1
    } else {
        0
    };
    let ghost body = unsigned_part(s@);
    assert(body =~= chars@.skip(start as int));
    if chars.len() == start {
        return None;
    }
    let mut value: u64 = 0;
    let mut i: usize = start;
    assert(body.take(0) =~= Seq::empty());
    while i < chars.len()
        invariant
            start <= i <= chars.len(),
            body == chars@.skip(start as int),
            body == unsigned_part(s@),
            all_digits(body.take(i - start)),
            value == decimal_value(body.take(i - start)),
            value <= max,
        decreases chars.len() - i,
    {
        let c = chars[i];
        assert(body[i - start] == c);
        if !('0' <= c && c <= '9') {
            assert(!is_digit(body[i - start]));
            return None;
        }
        let d: u64 = digit_number(c);
        proof {
            let k = i - start;
            assert(body.take(k + 1).drop_last() =~= body.take(k));
            assert(body.take(k + 1).last() == c);
            lemma_prefix_value(body, k + 1);
            assert forall|j: int| 0 <= j < k + 1 implies is_digit(#[trigger] body.take(k + 1)[j]) by {
                if j < k {
                    assert(body.take(k)[j] == body.take(k + 1)[j]);
                }
            }
        }
        match value.checked_mul(10) {
            Some(tens) => {
                match tens.checked_add(d) {
                    Some(next) => {
                        if next > max {
                            return None;
                        }
                        value = next;
                    },
                    None => {
                        return None;
                    },
                }
            },
            None => {
                return None;
            },
        }
        i = i + 1;
    }
    assert(body.take(body.len() as int) =~= body);
    Some(value)
}

/// No text comes before itself, and two texts that do not come before each other are equal.
pub proof fn lemma_text_order(a: Seq<char>, b: Seq<char>)
    ensures
        !(text_lt(a, b) && text_lt(b, a)),
        !text_lt(a, b) && !text_lt(b, a) ==> a == b,
    decreases a.len(),
{
    if a.len() > 0 && b.len() > 0 {
        if a[0] == b[0] {
            lemma_text_order(a.skip(1), b.skip(1));
            if a.skip(1) == b.skip(1) {
                assert(a =~= seq![a[0]] + a.skip(1));
                assert(b =~= seq![b[0]] + b.skip(1));
            }
        }
    } else if a.len() == 0 && b.len() == 0 {
        assert(a =~= b);
    }
}

/// The order of texts is transitive.
pub proof fn lemma_text_transitive(a: Seq<char>, b: Seq<char>, c: Seq<char>)
    requires
        !text_lt(b, a),
        !text_lt(c, b),
    ensures
        !text_lt(c, a),
    decreases a.len(),
{
    if a.len() > 0 && b.len() > 0 && c.len() > 0 {
        if a[0] == b[0] && b[0] == c[0] {
            lemma_text_transitive(a.skip(1), b.skip(1), c.skip(1));
        }
    }
}

/// Compares two texts by their code points.
pub fn text_less(a: &str, b: &str) -> (less: bool)
    ensures
        less == text_lt(a@, b@),
{
    let left = chars_of(a);
    let right = chars_of(b);
    let mut i: usize = 0;
    assert(a@.skip(0) =~= a@);
    assert(b@.skip(0) =~= b@);
    while i < left.len() && i < right.len()
        invariant
            i <= left.len(),
            i <= right.len(),
            left@ == a@,
            right@ == b@,
            text_lt(a@, b@) == text_lt(a@.skip(i as int), b@.skip(i as int)),
        decreases left.len() - i,
    {
        if left[i] != right[i] {
            return left[i] < right[i];
        }
        proof {
            assert(a@.skip(i as int).skip(1) =~= a@.skip(i as int + 1));
            assert(b@.skip(i as int).skip(1) =~= b@.skip(i as int + 1));
        }
        i = i + 1;
    }
    i < right.len()
}

/// Whether two texts are the same.
pub fn text_equal(a: &str, b: &str) -> (equal: bool)
    ensures
        equal == (a@ == b@),
{
    proof {
        lemma_text_order(a@, b@);
        lemma_text_order(a@, a@);
    }
    !text_less(a, b) && !text_less(b, a)
}

/// Whether `s` begins with `prefix`.
pub open spec fn has_prefix(s: Seq<char>, prefix: Seq<char>) -> bool {
    prefix.len() <= s.len() && s.take(prefix.len() as int) == prefix
}

/// Whether `s` ends with `suffix`.
pub open spec fn has_suffix(s: Seq<char>, suffix: Seq<char>) -> bool {
    suffix.len() <= s.len() && s.skip(s.len() - suffix.len()) == suffix
}

/// The text behind a prefix, where the text has it.
pub fn after_prefix<'a>(s: &'a str, prefix: &str) -> (rest: Option<&'a str>)
    ensures
        match rest {
            Some(r) => has_prefix(s@, prefix@) && r@ == s@.skip(prefix@.len() as int),
            None => !has_prefix(s@, prefix@),
        },
{
    let n: usize = prefix.unicode_len();
    let total: usize = s.unicode_len();
    if n > total {
        return None;
    }
    let head = s.substring_char(0, n);
    assert(head@ =~= s@.take(n as int));
    if text_equal(head, prefix) {
        let rest = s.substring_char(n, total);
        assert(rest@ =~= s@.skip(n as int));
        Some(rest)
    } else {
        None
    }
}

/// The text in front of a suffix, where the text has it.
pub fn before_suffix<'a>(s: &'a str, suffix: &str) -> (rest: Option<&'a str>)
    ensures
        match rest {
            Some(r) => has_suffix(s@, suffix@) && r@ == s@.take(s@.len() - suffix@.len()),
            None => !has_suffix(s@, suffix@),
        },
{
    let n: usize = suffix.unicode_len();
    let total: usize = s.unicode_len();
    if n > total {
        return None;
    }
    let tail = s.substring_char(total - n, total);
    assert(tail@ =~= s@.skip(total - n));
    if text_equal(tail, suffix) {
        let rest = s.substring_char(0, total - n);
        assert(rest@ =~= s@.take(total - n));
        Some(rest)
    } else {
        None
    }
}

/// Texts are ordered by the first character in which they differ, and a text comes before every
/// longer text that it begins.
pub proof fn first_difference_decides(
    shared: Seq<char>,
    low: char,
    high: char,
    low_rest: Seq<char>,
    high_rest: Seq<char>,
)
    requires
        low < high,
    ensures
        text_lt(shared.push(low) + low_rest, shared.push(high) + high_rest),
        !text_lt(shared.push(high) + high_rest, shared.push(low) + low_rest),
        text_lt(shared, shared.push(low) + low_rest),
        !text_lt(shared.push(low) + low_rest, shared),
    decreases shared.len(),
{
    let a = shared.push(low) + low_rest;
    let b = shared.push(high) + high_rest;
    if shared.len() > 0 {
        let rest = shared.skip(1);
        first_difference_decides(rest, low, high, low_rest, high_rest);
        assert(a.skip(1) =~= rest.push(low) + low_rest);
        assert(b.skip(1) =~= rest.push(high) + high_rest);
        assert(a[0] == shared[0]);
        assert(b[0] == shared[0]);
    }
}

/// Numbers are read and written in decimal: one digit more stands for ten times the number and the
/// digit, and nothing but digits, behind at most one plus sign, is a number.
pub proof fn numbers_are_decimal(s: Seq<char>, c: char, n: nat, d: nat, max: nat)
    ensures
        '0' <= c <= '9' ==> decimal_value(s.push(c)) == 10 * decimal_value(s) + (c as int
            - '0' as int),
        n > 0 && d < 10 ==> digits(n * 10 + d) == digits(n).push(digits(d)[0]),
        d < 10 ==> digits(d).len() == 1 && digits(d)[0] as int == '0' as int + d,
        parsed_decimal(s, max) matches Some(value) ==> value <= max && s.len() > 0 && (forall|i: int|
            1 <= i < s.len() ==> '0' <= #[trigger] s[i] <= '9') && ('0' <= s[0] <= '9' || (s[0]
            == '+' && s.len() > 1)),
{
    assert(s.push(c).drop_last() =~= s);
    if n > 0 && d < 10 {
        assert((n * 10 + d) / 10 == n);
        assert((n * 10 + d) % 10 == d);
    }
    if parsed_decimal(s, max) is Some {
        let body = unsigned_part(s);
        assert forall|i: int| 1 <= i < s.len() implies '0' <= #[trigger] s[i] <= '9' by {
            if s.len() > 1 && s[0] == '+' {
                assert(is_digit(body[i - 1]));
            } else {
                assert(is_digit(body[i]));
            }
        }
        if !(s.len() > 1 && s[0] == '+') {
            assert(is_digit(body[0]));
        }
    }
}

} // verus!
