//! Patterns of the database's text matching: `%` for any characters, `_` for one, `\` before a
//! character that stands for itself. The case of ASCII letters does not count.
use crate::model::is_subsequence;
use crate::text::{ascii_lower, ascii_lower_char, begins_with, chars_of, lowercase};
use crate::text::to_ascii_lower_char;
use vstd::prelude::*;

verus! {

broadcast use vstd::string::group_string_axioms;

/// Whether `text` matches `pattern`.
pub open spec fn like(text: Seq<char>, pattern: Seq<char>) -> bool
    decreases pattern.len() + text.len(),
{
    if pattern.len() == 0 {
        text.len() == 0
    } else if pattern[0] == '%' {
        like(text, pattern.drop_first()) || (text.len() > 0 && like(text.drop_first(), pattern))
    } else if pattern[0] == '_' {
        text.len() > 0 && like(text.drop_first(), pattern.drop_first())
    } else if pattern[0] == '\\' {
        pattern.len() > 1 && text.len() > 0 && ascii_lower_char(text[0]) == ascii_lower_char(
            pattern[1],
        ) && like(text.drop_first(), pattern.skip(2))
    } else {
        text.len() > 0 && ascii_lower_char(text[0]) == ascii_lower_char(pattern[0]) && like(
            text.drop_first(),
            pattern.drop_first(),
        )
    }
}

/// `c` as a pattern that it alone matches.
pub open spec fn escaped_char(c: char) -> Seq<char> {
    if c == '%' || c == '_' || c == '\\' {
        seq!['\\', c]
    } else {
        seq![c]
    }
}

/// `s` as a pattern that it alone matches.
pub open spec fn escaped(s: Seq<char>) -> Seq<char>
    decreases s.len(),
{
    if s.len() == 0 {
        seq![]
    } else {
        escaped(s.drop_last()) + escaped_char(s.last())
    }
}

/// The pattern of the texts that hold the characters of `s` in their order.
pub open spec fn subsequence_pattern(s: Seq<char>) -> Seq<char>
    decreases s.len(),
{
    if s.len() == 0 {
        seq!['%']
    } else {
        subsequence_pattern(s.drop_last()) + escaped_char(s.last()) + seq!['%']
    }
}

/// The pattern of the values below `s`.
pub open spec fn descendant_pattern(s: Seq<char>) -> Seq<char> {
    escaped(s) + seq!['/', '%']
}

/// Appends `ch` to a pattern so that it stands for itself.
fn push_escaped_like_char(pattern: &mut String, ch: char)
    ensures
        final(pattern)@ == old(pattern)@ + escaped_char(ch),
{
    let ghost before = pattern@;
    if ch == '%' || ch == '_' || ch == '\\' {
        pattern.push('\\');
    }
    pattern.push(ch);
    assert(pattern@ =~= before + escaped_char(ch));
}

/// The pattern of the texts that hold the characters of `value`, lowered, in their order.
pub fn like_subsequence_pattern(value: &str) -> (r: String)
    ensures
        r@ == subsequence_pattern(lowercase(value@)),
{
    let lower = value.to_lowercase();
    let chars = chars_of(lower.as_str());
    let mut pattern = String::new();
    pattern.push('%');
    let mut i: usize = 0;
    assert(pattern@ =~= subsequence_pattern(chars@.take(0)));
    while i < chars.len()
        invariant
            i <= chars@.len(),
            pattern@ == subsequence_pattern(chars@.take(i as int)),
        decreases chars.len() - i,
    {
        let ghost before = pattern@;
        push_escaped_like_char(&mut pattern, chars[i]);
        pattern.push('%');
        proof {
            assert(chars@.take(i + 1).drop_last() =~= chars@.take(i as int));
            assert(pattern@ =~= before + escaped_char(chars@[i as int]) + seq!['%']);
        }
        i += 1;
    }
    assert(chars@.take(i as int) =~= chars@);
    pattern
}

/// The pattern of the values below `value`.
pub fn like_descendant_pattern(value: &str) -> (r: String)
    ensures
        r@ == descendant_pattern(value@),
{
    let chars = chars_of(value);
    let mut pattern = String::new();
    let mut i: usize = 0;
    assert(pattern@ =~= escaped(chars@.take(0)));
    while i < chars.len()
        invariant
            i <= chars@.len(),
            pattern@ == escaped(chars@.take(i as int)),
        decreases chars.len() - i,
    {
        push_escaped_like_char(&mut pattern, chars[i]);
        assert(chars@.take(i + 1).drop_last() =~= chars@.take(i as int));
        i += 1;
    }
    assert(chars@.take(i as int) =~= chars@);
    let ghost before = pattern@;
    pattern.push('/');
    pattern.push('%');
    assert(pattern@ =~= before + seq!['/', '%']);
    pattern
}

/// Whether `text` matches `pattern`.
pub fn like_matches(text: &str, pattern: &str) -> (r: bool)
    ensures
        r == like(text@, pattern@),
{
    let text_chars = chars_of(text);
    let pattern_chars = chars_of(pattern);
    like_chars(text_chars.as_slice(), pattern_chars.as_slice())
}

/// Whether the last `k` characters of `text` match `pattern`.
spec fn end_like(text: Seq<char>, k: int, pattern: Seq<char>) -> bool {
    like(text.skip(text.len() - k), pattern)
}

/// Whether `row` tells of every end of `text` whether it matches `pattern`.
spec fn is_row(row: Seq<bool>, text: Seq<char>, pattern: Seq<char>) -> bool {
    &&& row.len() == text.len() + 1
    &&& forall|k: int| 0 <= k <= text.len() ==> #[trigger] row[k] == end_like(text, k, pattern)
}

/// Computes the row of the pattern from `at` on, from the rows of its shorter ends.
fn like_row(
    text: &[char],
    pattern: &[char],
    at: usize,
    next: &Vec<bool>,
    after_next: &Vec<bool>,
) -> (row: Vec<bool>)
    requires
        at < pattern@.len(),
        is_row(next@, text@, pattern@.skip(at + 1)),
        at + 1 < pattern@.len() ==> is_row(after_next@, text@, pattern@.skip(at + 2)),
    ensures
        is_row(row@, text@, pattern@.skip(at as int)),
{
    let size: usize = text.len();
    let c = pattern[at];
    let follower: Option<char> = if pattern.len() - at > 1 {
        Some(pattern[at + 1])
    } else {
        None
    };
    let ghost sub = pattern@.skip(at as int);
    assert(sub.drop_first() =~= pattern@.skip(at + 1));
    assert(at + 1 < pattern@.len() ==> sub.skip(2) =~= pattern@.skip(at + 2));
    let mut row: Vec<bool> = Vec::new();
    let mut k: usize = 0;
    loop
        invariant_except_break
            row@.len() == k,
        invariant
            size == text@.len(),
            at < pattern@.len(),
            c == pattern@[at as int],
            follower is Some <==> at + 1 < pattern@.len(),
            follower is Some ==> follower == Some(pattern@[at + 1]),
            sub == pattern@.skip(at as int),
            sub.drop_first() == pattern@.skip(at + 1),
            at + 1 < pattern@.len() ==> sub.skip(2) == pattern@.skip(at + 2),
            is_row(next@, text@, pattern@.skip(at + 1)),
            at + 1 < pattern@.len() ==> is_row(after_next@, text@, pattern@.skip(at + 2)),
            k <= size,
            forall|m: int| 0 <= m < row@.len() ==> #[trigger] row@[m] == end_like(text@, m, sub),
        ensures
            row@.len() == size + 1,
        decreases size - k,
    {
        let ghost tail = text@.skip(size - k);
        proof {
            assert(next@[k as int] == end_like(text@, k as int, pattern@.skip(at + 1)));
            if k > 0 {
                assert(tail.drop_first() =~= text@.skip(size - (k - 1)));
                assert(next@[k - 1] == end_like(text@, k - 1, pattern@.skip(at + 1)));
                assert(row@[k - 1] == end_like(text@, k - 1, sub));
                if at + 1 < pattern@.len() {
                    assert(after_next@[k - 1] == end_like(text@, k - 1, pattern@.skip(at + 2)));
                }
            }
        }
        let here: bool = if c == '%' {
            next[k] || (k > 0 && row[k - 1])
        } else if c == '_' {
            k > 0 && next[k - 1]
        } else if c == '\\' {
            match follower {
                Some(d) => k > 0 && to_ascii_lower_char(text[size - k]) == to_ascii_lower_char(d)
                    && after_next[k - 1],
                None => false,
            }
        } else {
            k > 0 && to_ascii_lower_char(text[size - k]) == to_ascii_lower_char(c) && next[k - 1]
        };
        assert(here == end_like(text@, k as int, sub));
        row.push(here);
        if k == size {
            break;
        }
        k += 1;
    }
    row
}

/// Whether `text` matches `pattern`, found for ever longer ends of the pattern.
fn like_chars(text: &[char], pattern: &[char]) -> (r: bool)
    ensures
        r == like(text@, pattern@),
{
    let size: usize = text.len();
    let mut next: Vec<bool> = Vec::new();
    let mut after_next: Vec<bool> = Vec::new();
    next.push(true);
    let mut k: usize = 0;
    while k < size
        invariant
            size == text@.len(),
            k <= size,
            next@.len() == k + 1,
            forall|m: int| 0 <= m <= k ==> #[trigger] next@[m] == (m == 0),
        decreases size - k,
    {
        next.push(false);
        k += 1;
    }
    let mut at: usize = pattern.len();
    proof {
        assert(pattern@.skip(at as int) =~= seq![]);
        assert(is_row(next@, text@, pattern@.skip(at as int)));
    }
    while 0 < at
        invariant
            size == text@.len(),
            at <= pattern@.len(),
            is_row(next@, text@, pattern@.skip(at as int)),
            at < pattern@.len() ==> is_row(after_next@, text@, pattern@.skip(at + 1)),
        decreases at,
    {
        let row = like_row(text, pattern, at - 1, &next, &after_next);
        after_next = next;
        next = row;
        at -= 1;
    }
    assert(text@.skip(0) =~= text@);
    assert(pattern@.skip(0) =~= pattern@);
    assert(next@[size as int] == end_like(text@, size as int, pattern@.skip(0)));
    next[size]
}

proof fn lemma_escaped_front(c: char, rest: Seq<char>, text: Seq<char>)
    ensures
        like(text, escaped_char(c) + rest) <==> text.len() > 0 && ascii_lower_char(text[0])
            == ascii_lower_char(c) && like(text.drop_first(), rest),
{
    let pattern = escaped_char(c) + rest;
    if c == '%' || c == '_' || c == '\\' {
        assert(pattern[0] == '\\' && pattern[1] == c);
        assert(pattern.skip(2) =~= rest);
    } else {
        assert(pattern[0] == c);
        assert(pattern.drop_first() =~= rest);
    }
}

proof fn lemma_escaped_first(s: Seq<char>)
    requires
        s.len() > 0,
    ensures
        escaped(s) == escaped_char(s[0]) + escaped(s.drop_first()),
    decreases s.len(),
{
    if s.len() == 1 {
        assert(s.drop_last() =~= seq![]);
        assert(s.drop_first() =~= seq![]);
        assert(escaped(s) =~= escaped_char(s[0]) + escaped(s.drop_first()));
    } else {
        lemma_escaped_first(s.drop_last());
        assert(s.drop_last().drop_first() =~= s.drop_first().drop_last());
        assert(escaped(s) =~= escaped_char(s[0]) + escaped(s.drop_first()));
    }
}

proof fn lemma_subsequence_pattern_first(s: Seq<char>)
    requires
        s.len() > 0,
    ensures
        subsequence_pattern(s) == seq!['%'] + (escaped_char(s[0]) + subsequence_pattern(
            s.drop_first(),
        )),
    decreases s.len(),
{
    if s.len() == 1 {
        assert(s.drop_last() =~= seq![]);
        assert(s.drop_first() =~= seq![]);
        assert(subsequence_pattern(s) =~= seq!['%'] + (escaped_char(s[0]) + subsequence_pattern(
            s.drop_first(),
        )));
    } else {
        lemma_subsequence_pattern_first(s.drop_last());
        assert(s.drop_last().drop_first() =~= s.drop_first().drop_last());
        assert(subsequence_pattern(s) =~= seq!['%'] + (escaped_char(s[0]) + subsequence_pattern(
            s.drop_first(),
        )));
    }
}

proof fn lemma_any_text(text: Seq<char>)
    ensures
        like(text, seq!['%']),
    decreases text.len(),
{
    reveal_with_fuel(like, 2);
    assert(seq!['%'].drop_first() =~= seq![]);
    assert(seq!['%'][0] == '%');
    if text.len() > 0 {
        lemma_any_text(text.drop_first());
    }
}

proof fn lemma_shorter_subsequence(query: Seq<char>, text: Seq<char>)
    requires
        query.len() > 0,
        is_subsequence(query, text),
    ensures
        is_subsequence(query.drop_first(), text),
    decreases text.len(),
{
    let tail = query.drop_first();
    if query[0] == text[0] {
        if tail.len() > 0 {
            if tail[0] == text[0] {
                lemma_shorter_subsequence(tail, text.drop_first());
            }
        }
    } else {
        lemma_shorter_subsequence(query, text.drop_first());
        if tail.len() > 0 && tail[0] == text[0] {
            lemma_shorter_subsequence(tail, text.drop_first());
        }
    }
}

/// The subsequence pattern of `s` matches the texts that hold the characters of `s` in their
/// order, the case of ASCII letters aside; `%`, `_` and `\` in `s` stand for themselves.
pub proof fn lemma_like_subsequence(s: Seq<char>, text: Seq<char>)
    ensures
        like(text, subsequence_pattern(s)) <==> is_subsequence(ascii_lower(s), ascii_lower(text)),
    decreases s.len() + text.len(),
{
    let query = ascii_lower(s);
    let lower = ascii_lower(text);
    if s.len() == 0 {
        lemma_any_text(text);
    } else {
        lemma_subsequence_pattern_first(s);
        let pattern = subsequence_pattern(s);
        let rest = escaped_char(s[0]) + subsequence_pattern(s.drop_first());
        assert(pattern[0] == '%');
        assert(pattern.drop_first() =~= rest);
        lemma_escaped_front(s[0], subsequence_pattern(s.drop_first()), text);
        assert(query.drop_first() =~= ascii_lower(s.drop_first()));
        if text.len() > 0 {
            assert(lower.drop_first() =~= ascii_lower(text.drop_first()));
            lemma_like_subsequence(s, text.drop_first());
            lemma_like_subsequence(s.drop_first(), text.drop_first());
            if is_subsequence(query, lower.drop_first()) {
                lemma_shorter_subsequence(query, lower.drop_first());
            }
        }
    }
}

/// The descendant pattern of `s` matches the texts that begin with `s` and a `/`, the case of
/// ASCII letters aside; `%`, `_` and `\` in `s` stand for themselves.
pub proof fn lemma_like_descendant(s: Seq<char>, text: Seq<char>)
    ensures
        like(text, descendant_pattern(s)) <==> begins_with(
            ascii_lower(text),
            ascii_lower(s).push('/'),
        ),
    decreases s.len(),
{
    let lower = ascii_lower(text);
    let head = ascii_lower(s).push('/');
    let pattern = descendant_pattern(s);
    if s.len() == 0 {
        assert(pattern =~= seq!['/', '%']);
        assert(pattern.drop_first() =~= seq!['%']);
        if text.len() > 0 {
            lemma_any_text(text.drop_first());
        }
        assert(head =~= seq!['/']);
        if lower.len() > 0 {
            assert(lower.take(1) =~= seq![lower[0]]);
            assert(seq!['/'][0] == '/');
            assert(seq![lower[0]][0] == lower[0]);
        }
    } else {
        let tail = s.drop_first();
        lemma_escaped_first(s);
        assert(pattern =~= escaped_char(s[0]) + descendant_pattern(tail));
        lemma_escaped_front(s[0], descendant_pattern(tail), text);
        let tail_head = ascii_lower(tail).push('/');
        assert(head =~= seq![ascii_lower_char(s[0])] + tail_head);
        if text.len() > 0 {
            lemma_like_descendant(tail, text.drop_first());
            assert(lower.drop_first() =~= ascii_lower(text.drop_first()));
            let lower_tail = lower.drop_first();
            if head.len() <= lower.len() {
                assert(lower.take(head.len() as int) =~= seq![lower[0]] + lower_tail.take(
                    tail_head.len() as int,
                ));
                if lower.take(head.len() as int) == head {
                    assert(lower.take(head.len() as int)[0] == head[0]);
                    assert(lower.take(head.len() as int).drop_first() =~= lower_tail.take(
                        tail_head.len() as int,
                    ));
                    assert(head.drop_first() =~= tail_head);
                }
            }
        }
    }
}

} // verus!
