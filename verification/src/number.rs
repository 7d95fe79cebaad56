//! The texts that stand for a number with a fraction and a power of ten.
use crate::text::{ascii_lower, chars_of, same_chars, to_ascii_lower_chars};
use vstd::prelude::*;

verus! {

broadcast use vstd::string::group_string_axioms;

/// Whether `c` is a decimal digit.
pub open spec fn is_digit(c: char) -> bool {
    '0' <= c && c <= '9'
}

/// How many digits `s` starts with.
pub open spec fn digit_count(s: Seq<char>) -> nat
    decreases s.len(),
{
    if s.len() > 0 && is_digit(s[0]) {
        1 + digit_count(s.drop_first())
    } else {
        0
    }
}

/// `s` without a sign at its start.
pub open spec fn without_sign(s: Seq<char>) -> Seq<char> {
    if s.len() > 0 && (s[0] == '+' || s[0] == '-') {
        s.skip(1)
    } else {
        s
    }
}

/// Whether `s` is a power of ten behind a number, or nothing: `e`, a sign or none, and digits.
pub open spec fn is_exponent(s: Seq<char>) -> bool {
    s.len() == 0 || ((s[0] == 'e' || s[0] == 'E') && {
        let power = without_sign(s.skip(1));
        power.len() > 0 && digit_count(power) == power.len()
    })
}

/// Whether `s` is a number without a sign: digits, with a point among, before or behind them or
/// without, and a power of ten or none.
pub open spec fn is_decimal(s: Seq<char>) -> bool {
    let whole = digit_count(s);
    let rest = s.skip(whole as int);
    if rest.len() > 0 && rest[0] == '.' {
        let part = digit_count(rest.skip(1));
        whole + part > 0 && is_exponent(rest.skip(1).skip(part as int))
    } else {
        whole > 0 && is_exponent(rest)
    }
}

/// Whether `s` stands for a number, for no number or for an infinite one.
pub open spec fn is_number(s: Seq<char>) -> bool {
    let bare = without_sign(s);
    let word = ascii_lower(bare);
    ||| word == "inf"@
    ||| word == "infinity"@
    ||| word == "nan"@
    ||| is_decimal(bare)
}

/// There are no more digits than characters.
proof fn lemma_digit_count(s: Seq<char>)
    ensures
        digit_count(s) <= s.len(),
    decreases s.len(),
{
    if s.len() > 0 && is_digit(s[0]) {
        lemma_digit_count(s.drop_first());
    }
}

/// Finds where the digits that start at `from` end.
fn digits_end(chars: &[char], from: usize) -> (r: usize)
    requires
        from <= chars@.len(),
    ensures
        from <= r <= chars@.len(),
        r - from == digit_count(chars@.skip(from as int)),
{
    let ghost all = chars@.skip(from as int);
    let mut at: usize = from;
    proof {
        assert(chars@.skip(at as int) =~= all);
    }
    while at < chars.len() && '0' <= chars[at] && chars[at] <= '9'
        invariant
            from <= at <= chars@.len(),
            digit_count(all) == (at - from) + digit_count(chars@.skip(at as int)),
        decreases chars.len() - at,
    {
        assert(chars@.skip(at as int).drop_first() =~= chars@.skip(at + 1));
        at += 1;
    }
    at
}

/// Finds where a sign at `from`, if there is one, ends.
fn sign_end(chars: &[char], from: usize) -> (r: usize)
    requires
        from <= chars@.len(),
    ensures
        from <= r <= chars@.len(),
        chars@.skip(r as int) == without_sign(chars@.skip(from as int)),
{
    if from < chars.len() && (chars[from] == '+' || chars[from] == '-') {
        assert(chars@.skip(from as int).skip(1) =~= chars@.skip(from + 1));
        from + 1
    } else {
        from
    }
}

/// Whether what follows `from` is a power of ten, or nothing.
fn exponent_follows(chars: &[char], from: usize) -> (r: bool)
    requires
        from <= chars@.len(),
    ensures
        r == is_exponent(chars@.skip(from as int)),
{
    if from == chars.len() {
        return true;
    }
    if chars[from] != 'e' && chars[from] != 'E' {
        return false;
    }
    assert(chars@.skip(from as int).skip(1) =~= chars@.skip(from + 1));
    let power = sign_end(chars, from + 1);
    let end = digits_end(chars, power);
    power < chars.len() && end == chars.len()
}

/// Whether what follows `from` is a number without a sign.
fn decimal_follows(chars: &[char], from: usize) -> (r: bool)
    requires
        from <= chars@.len(),
    ensures
        r == is_decimal(chars@.skip(from as int)),
{
    let ghost s = chars@.skip(from as int);
    let whole = digits_end(chars, from);
    proof {
        lemma_digit_count(s);
        assert(s.skip(digit_count(s) as int) =~= chars@.skip(whole as int));
    }
    if whole < chars.len() && chars[whole] == '.' {
        let ghost rest = chars@.skip(whole as int);
        let part = digits_end(chars, whole + 1);
        proof {
            assert(rest.skip(1) =~= chars@.skip(whole + 1));
            lemma_digit_count(rest.skip(1));
            assert(rest.skip(1).skip(digit_count(rest.skip(1)) as int) =~= chars@.skip(
                part as int,
            ));
        }
        (whole > from || part > whole + 1) && exponent_follows(chars, part)
    } else {
        whole > from && exponent_follows(chars, whole)
    }
}

/// Whether `lower` holds the characters of `word`.
fn is_word(lower: &[char], word: &str) -> (r: bool)
    ensures
        r == (lower@ == word@),
{
    let chars = chars_of(word);
    same_chars(lower, chars.as_slice())
}

/// Whether `text` stands for a number, for no number or for an infinite one.
pub fn stands_for_number(text: &str) -> (r: bool)
    ensures
        r == is_number(text@),
{
    let chars = chars_of(text);
    let start = sign_end(chars.as_slice(), 0);
    assert(chars@.skip(0) =~= chars@);
    let mut bare: Vec<char> = Vec::new();
    let mut i: usize = start;
    while i < chars.len()
        invariant
            start <= i <= chars@.len(),
            bare@ == chars@.subrange(start as int, i as int),
        decreases chars.len() - i,
    {
        bare.push(chars[i]);
        assert(chars@.subrange(start as int, i + 1) =~= chars@.subrange(start as int, i as int).push(
            chars@[i as int],
        ));
        i += 1;
    }
    assert(bare@ =~= chars@.skip(start as int));
    let lower = to_ascii_lower_chars(bare.as_slice());
    is_word(lower.as_slice(), "inf") || is_word(lower.as_slice(), "infinity") || is_word(
        lower.as_slice(),
        "nan",
    ) || decimal_follows(chars.as_slice(), start)
}

/// Digits are a number, and so are digits with a point before, among or behind them, each with a sign
/// in front or a power of ten behind.
pub proof fn lemma_decimals_are_numbers(whole: Seq<char>, part: Seq<char>, power: Seq<char>)
    requires
        forall|i: int| 0 <= i < whole.len() ==> is_digit(#[trigger] whole[i]),
        forall|i: int| 0 <= i < part.len() ==> is_digit(#[trigger] part[i]),
        forall|i: int| 0 <= i < power.len() ==> is_digit(#[trigger] power[i]),
        power.len() > 0,
    ensures
        whole.len() > 0 ==> is_number(whole) && is_number(seq!['-'] + whole) && is_number(
            seq!['+'] + whole,
        ),
        whole.len() + part.len() > 0 ==> is_number(whole.push('.') + part),
        whole.len() > 0 ==> is_number(whole + (seq!['e'] + power)) && is_number(
            whole + (seq!['E'] + power),
        ) && is_number(whole + (seq!['e', '-'] + power)),
{
    let none = Seq::<char>::empty();
    lemma_digits_in_front(whole, none);
    lemma_digits_in_front(part, none);
    lemma_digits_in_front(power, none);
    assert(whole + none =~= whole);
    assert(part + none =~= part);
    assert(power + none =~= power);
    assert(whole.skip(whole.len() as int) =~= none);
    assert(part.skip(part.len() as int) =~= none);
    assert(power.skip(power.len() as int) =~= none);
    if whole.len() > 0 {
        assert(is_digit(whole[0]));
        assert((seq!['-'] + whole).skip(1) =~= whole);
        assert((seq!['+'] + whole).skip(1) =~= whole);
        assert(is_decimal(whole));
    }
    let point = seq!['.'] + part;
    let text = whole.push('.') + part;
    assert(text =~= whole + point);
    lemma_digits_in_front(whole, point);
    assert(text.skip(whole.len() as int) =~= point);
    assert(point.skip(1) =~= part);
    if whole.len() + part.len() > 0 {
        assert(is_decimal(text));
        assert(text[0] == '.' || is_digit(text[0])) by {
            if whole.len() > 0 {
                assert(text[0] == whole[0]);
            }
        }
    }
    if whole.len() > 0 {
        let small = seq!['e'] + power;
        let large = seq!['E'] + power;
        let less = seq!['e', '-'] + power;
        lemma_digits_in_front(whole, small);
        lemma_digits_in_front(whole, large);
        lemma_digits_in_front(whole, less);
        assert((whole + small).skip(whole.len() as int) =~= small);
        assert((whole + large).skip(whole.len() as int) =~= large);
        assert((whole + less).skip(whole.len() as int) =~= less);
        assert(small.skip(1) =~= power);
        assert(large.skip(1) =~= power);
        assert(less.skip(1) =~= seq!['-'] + power);
        assert((seq!['-'] + power).skip(1) =~= power);
        assert(is_digit(power[0]));
        assert((whole + small)[0] == whole[0]);
        assert((whole + large)[0] == whole[0]);
        assert((whole + less)[0] == whole[0]);
        assert(is_decimal(whole + small));
        assert(is_decimal(whole + large));
        assert(is_decimal(whole + less));
    }
}

/// Digits in front of what starts with none are counted.
proof fn lemma_digits_in_front(digits: Seq<char>, rest: Seq<char>)
    requires
        forall|i: int| 0 <= i < digits.len() ==> is_digit(#[trigger] digits[i]),
        rest.len() > 0 ==> !is_digit(rest[0]),
    ensures
        digit_count(digits + rest) == digits.len(),
    decreases digits.len(),
{
    let all = digits + rest;
    if digits.len() == 0 {
        assert(all =~= rest);
    } else {
        let shorter = digits.drop_first();
        assert(is_digit(digits[0]));
        assert forall|i: int| 0 <= i < shorter.len() implies is_digit(#[trigger] shorter[i]) by {
            assert(shorter[i] == digits[i + 1]);
        }
        lemma_digits_in_front(shorter, rest);
        assert(all.drop_first() =~= shorter + rest);
    }
}

/// A number that is no word has a digit, and nothing in it but digits, a point, signs and the letter
/// before a power of ten.
pub proof fn lemma_numbers_have_digits(s: Seq<char>, i: int)
    requires
        is_decimal(s),
        0 <= i < s.len(),
    ensures
        is_digit(s[i]) || s[i] == '.' || s[i] == 'e' || s[i] == 'E' || s[i] == '+' || s[i] == '-',
        exists|k: int| 0 <= k < s.len() && is_digit(#[trigger] s[k]),
{
    let whole = digit_count(s);
    let rest = s.skip(whole as int);
    lemma_digit_count(s);
    lemma_counted_digits(s);
    if rest.len() > 0 && rest[0] == '.' {
        let behind = rest.skip(1);
        let part = digit_count(behind);
        lemma_digit_count(behind);
        lemma_counted_digits(behind);
        let exponent = behind.skip(part as int);
        if i > whole {
            assert(s[i] == behind[i - whole - 1]);
            if i - whole - 1 >= part {
                assert(s[i] == exponent[i - whole - 1 - part]);
                lemma_exponent_chars(exponent, i - whole - 1 - part);
            }
        } else if i == whole {
            assert(s[i] == rest[0]);
        }
        if whole > 0 {
            assert(is_digit(s[0]));
        } else {
            assert(is_digit(behind[0]));
            assert(s[whole as int + 1] == behind[0]);
        }
    } else {
        assert(is_digit(s[0]));
        if i >= whole {
            assert(s[i] == rest[i - whole]);
            lemma_exponent_chars(rest, i - whole);
        }
    }
}

proof fn lemma_exponent_chars(s: Seq<char>, i: int)
    requires
        is_exponent(s),
        0 <= i < s.len(),
    ensures
        is_digit(s[i]) || s[i] == 'e' || s[i] == 'E' || s[i] == '+' || s[i] == '-',
{
    let behind = s.skip(1);
    let power = without_sign(behind);
    lemma_counted_digits(power);
    if i > 0 {
        assert(s[i] == behind[i - 1]);
        if behind.len() > 0 && (behind[0] == '+' || behind[0] == '-') {
            if i > 1 {
                assert(s[i] == power[i - 2]);
            }
        } else {
            assert(s[i] == power[i - 1]);
        }
    }
}

proof fn lemma_counted_digits(s: Seq<char>)
    ensures
        digit_count(s) <= s.len(),
        forall|i: int| 0 <= i < digit_count(s) ==> is_digit(#[trigger] s[i]),
    decreases s.len(),
{
    if s.len() > 0 && is_digit(s[0]) {
        let rest = s.drop_first();
        lemma_counted_digits(rest);
        assert forall|i: int| 0 <= i < digit_count(s) implies is_digit(#[trigger] s[i]) by {
            if i > 0 {
                assert(s[i] == rest[i - 1]);
            }
        }
    }
}

} // verus!
