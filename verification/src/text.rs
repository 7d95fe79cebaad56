//! Text as sequences of characters: case folding, trimming, splitting,
//! searching and ordering.
use vstd::prelude::*;

verus! {

broadcast use vstd::string::group_string_axioms;

/// The characters that a trim or a split may look for.
#[derive(Clone, Copy, PartialEq, Eq, Structural)]
pub enum CharClass {
    /// The Unicode `White_Space` characters.
    WhiteSpace,
    /// Brackets, quotes and commas that surround a link in running text.
    LinkWrapper,
}

/// Whether `c` has the Unicode property `White_Space`.
pub open spec fn is_white_space(c: char) -> bool {
    let n = c as u32;
    ||| 0x9 <= n <= 0xd
    ||| n == 0x20
    ||| n == 0x85
    ||| n == 0xa0
    ||| n == 0x1680
    ||| 0x2000 <= n <= 0x200a
    ||| n == 0x2028
    ||| n == 0x2029
    ||| n == 0x202f
    ||| n == 0x205f
    ||| n == 0x3000
}

/// Whether `c` is one of `<>"'` and the backtick, brackets and comma that wrap links.
pub open spec fn is_link_wrapper(c: char) -> bool {
    ||| c == '<'
    ||| c == '>'
    ||| c == '"'
    ||| c == '\''
    ||| c == '`'
    ||| c == '('
    ||| c == ')'
    ||| c == '['
    ||| c == ']'
    ||| c == '{'
    ||| c == '}'
    ||| c == ','
}

impl CharClass {
    /// Membership of `c` in the class.
    pub open spec fn has(self, c: char) -> bool {
        match self {
            CharClass::WhiteSpace => is_white_space(c),
            CharClass::LinkWrapper => is_link_wrapper(c),
        }
    }

    /// Tests membership of `c` in the class.
    pub fn contains(self, c: char) -> (r: bool)
        ensures
            r == self.has(c),
    {
        match self {
            CharClass::WhiteSpace => {
                let n: u32 = c as u32;
                (0x9 <= n && n <= 0xd) || n == 0x20 || n == 0x85 || n == 0xa0 || n == 0x1680 || (
                0x2000 <= n && n <= 0x200a) || n == 0x2028 || n == 0x2029 || n == 0x202f || n
                    == 0x205f || n == 0x3000
            },
            CharClass::LinkWrapper => {
                c == '<' || c == '>' || c == '"' || c == '\'' || c == '`' || c == '(' || c == ')'
                    || c == '[' || c == ']' || c == '{' || c == '}' || c == ','
            },
        }
    }
}

/// The lowercase form of an ASCII letter; any other character is kept.
pub open spec fn ascii_lower_char(c: char) -> char {
    if 'A' <= c && c <= 'Z' {
        ((c as u32) + 32) as char
    } else {
        c
    }
}

/// `s` with its ASCII letters in lowercase.
pub open spec fn ascii_lower(s: Seq<char>) -> Seq<char> {
    Seq::new(s.len(), |i: int| ascii_lower_char(s[i]))
}

/// Equality up to the case of ASCII letters.
pub open spec fn equal_ignoring_ascii_case(a: Seq<char>, b: Seq<char>) -> bool {
    ascii_lower(a) == ascii_lower(b)
}

/// The Unicode lowercase mapping of a text with characters beyond ASCII.
pub uninterp spec fn unicode_lowercase(s: Seq<char>) -> Seq<char>;

/// A text in lowercase.
pub open spec fn lowercase(s: Seq<char>) -> Seq<char> {
    if vstd::utf8::is_ascii_chars(s) {
        ascii_lower(s)
    } else {
        unicode_lowercase(s)
    }
}

/// `str::to_lowercase`: on ASCII text it lowers exactly the ASCII letters; on any other text the
/// result is a function of the text alone, named [`unicode_lowercase`].
pub assume_specification[ str::to_lowercase ](s: &str) -> (r: String)
    ensures
        vstd::utf8::is_ascii_chars(s@) ==> r@ == ascii_lower(s@),
        !vstd::utf8::is_ascii_chars(s@) ==> r@ == unicode_lowercase(s@),
;

/// `String::push`: the character is appended to the end of the text.
pub assume_specification[ String::push ](s: &mut String, c: char)
    ensures
        final(s)@ == old(s)@.push(c),
;

/// Lowers an ASCII letter; any other character is returned as it is.
pub fn to_ascii_lower_char(c: char) -> (r: char)
    ensures
        r == ascii_lower_char(c),
{
    if 'A' <= c && c <= 'Z' {
        let n: u8 = c as u8;
        (n + 32) as char
    } else {
        c
    }
}

/// The characters of `s`, in order.
pub fn chars_of(s: &str) -> (r: Vec<char>)
    ensures
        r@ == s@,
{
    let mut out: Vec<char> = Vec::new();
    for c in it: s.chars()
        invariant
            it.seq() == s@,
            out@ == s@.take(it.index() as int),
    {
        out.push(c);
    }
    out
}

/// The text that `chars` spell.
pub fn text_of(chars: &[char]) -> (r: String)
    ensures
        r@ == chars@,
{
    let mut out = String::new();
    let mut i: usize = 0;
    while i < chars.len()
        invariant
            i <= chars@.len(),
            out@ == chars@.take(i as int),
        decreases chars.len() - i,
    {
        out.push(chars[i]);
        i += 1;
    }
    out
}

/// Whether `a` and `b` hold the same characters.
pub fn same_chars(a: &[char], b: &[char]) -> (r: bool)
    ensures
        r == (a@ == b@),
{
    if a.len() != b.len() {
        return false;
    }
    let mut i: usize = 0;
    while i < a.len()
        invariant
            i <= a@.len(),
            a@.len() == b@.len(),
            forall|j: int| 0 <= j < i ==> a@[j] == b@[j],
        decreases a.len() - i,
    {
        if a[i] != b[i] {
            return false;
        }
        i += 1;
    }
    assert(a@ =~= b@);
    true
}

/// Whether two texts are equal.
pub fn same_text(a: &str, b: &str) -> (r: bool)
    ensures
        r == (a@ == b@),
{
    let left = chars_of(a);
    let right = chars_of(b);
    same_chars(left.as_slice(), right.as_slice())
}

/// Whether `values` holds the text `value`.
pub fn holds_text(values: &Vec<String>, value: &str) -> (r: bool)
    ensures
        r == values.deep_view().contains(value@),
{
    let mut i: usize = 0;
    while i < values.len()
        invariant
            i <= values@.len(),
            forall|j: int| 0 <= j < i ==> values.deep_view()[j] != value@,
        decreases values.len() - i,
    {
        if same_text(values[i].as_str(), value) {
            assert(values.deep_view()[i as int] == value@);
            return true;
        }
        i += 1;
    }
    false
}

/// A copy of a list of texts.
pub fn copy_texts(values: &Vec<String>) -> (r: Vec<String>)
    ensures
        r.deep_view() == values.deep_view(),
{
    let mut out: Vec<String> = Vec::new();
    let mut i: usize = 0;
    while i < values.len()
        invariant
            i <= values@.len(),
            out.deep_view() == values.deep_view().take(i as int),
        decreases values.len() - i,
    {
        let ghost before = out.deep_view();
        out.push(values[i].clone());
        assert(out.deep_view() =~= before.push(values.deep_view()[i as int]));
        assert(out.deep_view() =~= values.deep_view().take(i + 1));
        i += 1;
    }
    assert(values.deep_view().take(i as int) =~= values.deep_view());
    out
}

/// Lowers the ASCII letters of `chars`.
pub fn to_ascii_lower_chars(chars: &[char]) -> (r: Vec<char>)
    ensures
        r@ == ascii_lower(chars@),
{
    let mut out: Vec<char> = Vec::new();
    let mut i: usize = 0;
    while i < chars.len()
        invariant
            i <= chars@.len(),
            out@ == ascii_lower(chars@).take(i as int),
        decreases chars.len() - i,
    {
        out.push(to_ascii_lower_char(chars[i]));
        assert(out@ =~= ascii_lower(chars@).take(i + 1));
        i += 1;
    }
    assert(ascii_lower(chars@).take(i as int) =~= ascii_lower(chars@));
    out
}

/// Lowers the ASCII letters of `s`.
pub fn to_ascii_lower(s: &str) -> (r: String)
    ensures
        r@ == ascii_lower(s@),
{
    let chars = chars_of(s);
    let lower = to_ascii_lower_chars(chars.as_slice());
    text_of(lower.as_slice())
}

/// Whether two texts are equal up to the case of ASCII letters.
pub fn same_ignoring_ascii_case(a: &str, b: &str) -> (r: bool)
    ensures
        r == equal_ignoring_ascii_case(a@, b@),
{
    let left = to_ascii_lower(a);
    let right = to_ascii_lower(b);
    same_text(left.as_str(), right.as_str())
}

/// `s` without the characters of `class` at its start.
pub open spec fn trim_start_in(s: Seq<char>, class: CharClass) -> Seq<char>
    decreases s.len(),
{
    if s.len() > 0 && class.has(s[0]) {
        trim_start_in(s.drop_first(), class)
    } else {
        s
    }
}

/// `s` without the characters of `class` at its end.
pub open spec fn trim_end_in(s: Seq<char>, class: CharClass) -> Seq<char>
    decreases s.len(),
{
    if s.len() > 0 && class.has(s.last()) {
        trim_end_in(s.drop_last(), class)
    } else {
        s
    }
}

/// `s` without the characters of `class` at either end.
pub open spec fn trim_in(s: Seq<char>, class: CharClass) -> Seq<char> {
    trim_end_in(trim_start_in(s, class), class)
}

/// `s` without white space at either end.
pub open spec fn trimmed(s: Seq<char>) -> Seq<char> {
    trim_in(s, CharClass::WhiteSpace)
}

/// A trimmed text has no character of the class at either end, so that trimming it again changes
/// nothing.
pub proof fn lemma_trim_again(s: Seq<char>, class: CharClass)
    ensures
        trim_in(s, class).len() > 0 ==> !class.has(trim_in(s, class)[0]) && !class.has(
            trim_in(s, class).last(),
        ),
        trim_in(trim_in(s, class), class) == trim_in(s, class),
{
    lemma_trim_start_stops(s, class);
    lemma_trim_end_stops(trim_start_in(s, class), class);
}

proof fn lemma_trim_start_stops(s: Seq<char>, class: CharClass)
    ensures
        trim_start_in(s, class).len() > 0 ==> !class.has(trim_start_in(s, class)[0]),
    decreases s.len(),
{
    if s.len() > 0 && class.has(s[0]) {
        lemma_trim_start_stops(s.drop_first(), class);
    }
}

proof fn lemma_trim_end_stops(s: Seq<char>, class: CharClass)
    ensures
        trim_end_in(s, class).len() > 0 ==> !class.has(trim_end_in(s, class).last())
            && trim_end_in(s, class)[0] == s[0],
    decreases s.len(),
{
    if s.len() > 0 && class.has(s.last()) {
        lemma_trim_end_stops(s.drop_last(), class);
    }
}

/// Finds the first position from which `chars` does not start with `class`.
fn trim_start_index(chars: &[char], class: CharClass) -> (i: usize)
    ensures
        i <= chars@.len(),
        trim_start_in(chars@, class) == chars@.skip(i as int),
{
    let mut i: usize = 0;
    assert(chars@.skip(0) =~= chars@);
    while i < chars.len() && class.contains(chars[i])
        invariant
            i <= chars@.len(),
            trim_start_in(chars@, class) == trim_start_in(chars@.skip(i as int), class),
        decreases chars.len() - i,
    {
        assert(chars@.skip(i as int).drop_first() =~= chars@.skip(i + 1));
        i += 1;
    }
    i
}

/// Trims the characters of `class` from the start of `s`.
pub fn trim_start_class(s: &str, class: CharClass) -> (r: &str)
    ensures
        r@ == trim_start_in(s@, class),
{
    let chars = chars_of(s);
    let from = trim_start_index(chars.as_slice(), class);
    let r = s.substring_char(from, chars.len());
    assert(s@.subrange(from as int, s@.len() as int) =~= s@.skip(from as int));
    r
}

/// Trims the characters of `class` from both ends of `s`.
pub fn trim_class(s: &str, class: CharClass) -> (r: &str)
    ensures
        r@ == trim_in(s@, class),
{
    let chars = chars_of(s);
    let from = trim_start_index(chars.as_slice(), class);
    let mut to: usize = chars.len();
    assert(s@.subrange(from as int, s@.len() as int) =~= s@.skip(from as int));
    while from < to && class.contains(chars[to - 1])
        invariant
            from <= to <= s@.len(),
            chars@ == s@,
            trim_in(s@, class) == trim_end_in(s@.subrange(from as int, to as int), class),
        decreases to - from,
    {
        assert(s@.subrange(from as int, to as int).drop_last() =~= s@.subrange(
            from as int,
            to - 1,
        ));
        to -= 1;
    }
    s.substring_char(from, to)
}

/// Trims white space from both ends of `s`.
pub fn trim(s: &str) -> (r: &str)
    ensures
        r@ == trimmed(s@),
{
    trim_class(s, CharClass::WhiteSpace)
}

/// Whether `s` begins with `prefix`.
pub open spec fn begins_with(s: Seq<char>, prefix: Seq<char>) -> bool {
    prefix.len() <= s.len() && s.take(prefix.len() as int) == prefix
}

/// Whether `part` occurs in `s` as consecutive characters.
pub open spec fn occurs_in(s: Seq<char>, part: Seq<char>) -> bool {
    exists|i: int| 0 <= i <= s.len() && #[trigger] begins_with(s.skip(i), part)
}

/// Whether `chars` holds `prefix` at position `at`.
fn begins_at(chars: &[char], prefix: &[char], at: usize) -> (r: bool)
    requires
        at <= chars@.len(),
    ensures
        r == begins_with(chars@.skip(at as int), prefix@),
{
    let size: usize = chars.len();
    if size - at < prefix.len() {
        return false;
    }
    let mut i: usize = 0;
    while i < prefix.len()
        invariant
            size == chars@.len(),
            at + prefix@.len() <= size,
            i <= prefix@.len(),
            forall|j: int| 0 <= j < i ==> chars@[at + j] == prefix@[j],
        decreases prefix.len() - i,
    {
        if chars[at + i] != prefix[i] {
            assert(chars@.skip(at as int).take(prefix@.len() as int)[i as int] != prefix@[i as int]);
            return false;
        }
        i += 1;
    }
    assert(chars@.skip(at as int).take(prefix@.len() as int) =~= prefix@);
    true
}

/// Whether the text `s` begins with `prefix`.
pub fn starts_with(s: &str, prefix: &str) -> (r: bool)
    ensures
        r == begins_with(s@, prefix@),
{
    let chars = chars_of(s);
    let head = chars_of(prefix);
    assert(s@.skip(0) =~= s@);
    begins_at(chars.as_slice(), head.as_slice(), 0)
}

/// What follows `prefix` in `s`, where `s` begins with it.
pub fn strip_prefix<'a>(s: &'a str, prefix: &str) -> (r: Option<&'a str>)
    ensures
        r is Some <==> begins_with(s@, prefix@),
        r matches Some(rest) ==> rest@ == s@.skip(prefix@.len() as int),
{
    if !starts_with(s, prefix) {
        return None;
    }
    let from = prefix.unicode_len();
    let to = s.unicode_len();
    assert(s@.subrange(from as int, to as int) =~= s@.skip(from as int));
    Some(s.substring_char(from, to))
}

/// Whether the text `part` occurs in `s`.
pub fn contains_text(s: &str, part: &str) -> (r: bool)
    ensures
        r == occurs_in(s@, part@),
{
    let chars = chars_of(s);
    let sub = chars_of(part);
    let mut i: usize = 0;
    loop
        invariant
            i <= chars@.len(),
            chars@ == s@,
            sub@ == part@,
            forall|j: int| 0 <= j < i ==> !#[trigger] begins_with(s@.skip(j), part@),
        decreases chars.len() - i,
    {
        if begins_at(chars.as_slice(), sub.as_slice(), i) {
            return true;
        }
        if i == chars.len() {
            return false;
        }
        i += 1;
    }
}

/// Whether the character `c` occurs in `s`.
pub fn contains_char(s: &str, c: char) -> (r: bool)
    ensures
        r == s@.contains(c),
{
    let chars = chars_of(s);
    let mut i: usize = 0;
    while i < chars.len()
        invariant
            i <= chars@.len(),
            chars@ == s@,
            forall|j: int| 0 <= j < i ==> s@[j] != c,
        decreases chars.len() - i,
    {
        if chars[i] == c {
            return true;
        }
        i += 1;
    }
    false
}

/// The position of the first `c` in `s`, or the length of `s`.
pub open spec fn first_index(s: Seq<char>, c: char) -> int
    decreases s.len(),
{
    if s.len() == 0 || s[0] == c {
        0
    } else {
        1 + first_index(s.drop_first(), c)
    }
}

/// The position of the last `c` in `s`, or -1.
pub open spec fn last_index(s: Seq<char>, c: char) -> int
    decreases s.len(),
{
    if s.len() == 0 {
        -1
    } else if s.last() == c {
        s.len() - 1
    } else {
        last_index(s.drop_last(), c)
    }
}

/// The first index lies within the text, on a `c`, with no `c` before it.
pub proof fn lemma_first_index(s: Seq<char>, c: char)
    ensures
        0 <= first_index(s, c) <= s.len(),
        first_index(s, c) < s.len() ==> s[first_index(s, c)] == c,
        forall|j: int| 0 <= j < first_index(s, c) ==> s[j] != c,
        s.contains(c) <==> first_index(s, c) < s.len(),
    decreases s.len(),
{
    if s.len() > 0 && s[0] != c {
        lemma_first_index(s.drop_first(), c);
        let k = first_index(s.drop_first(), c);
        assert forall|j: int| 0 <= j < k + 1 implies s[j] != c by {
            if j > 0 {
                assert(s.drop_first()[j - 1] != c);
            }
        }
        if s.contains(c) {
            let j = choose|j: int| 0 <= j < s.len() && s[j] == c;
            assert(s.drop_first()[j - 1] == c);
        }
    }
}

/// The last index lies within the text, on a `c`, with no `c` after it.
pub proof fn lemma_last_index(s: Seq<char>, c: char)
    ensures
        -1 <= last_index(s, c) < s.len(),
        0 <= last_index(s, c) ==> s[last_index(s, c)] == c,
        forall|j: int| last_index(s, c) < j < s.len() ==> s[j] != c,
        s.contains(c) <==> 0 <= last_index(s, c),
    decreases s.len(),
{
    if s.len() > 0 && s.last() != c {
        lemma_last_index(s.drop_last(), c);
        let k = last_index(s.drop_last(), c);
        assert forall|j: int| k < j < s.len() implies s[j] != c by {
            if j < s.len() - 1 {
                assert(s.drop_last()[j] != c);
            }
        }
        if s.contains(c) {
            let j = choose|j: int| 0 <= j < s.len() && s[j] == c;
            assert(s.drop_last()[j] == c);
        }
    }
}

/// Finds the first `c` in `chars` from `from` on, counted from `from`.
pub fn find_char(chars: &[char], c: char, from: usize) -> (i: usize)
    requires
        from <= chars@.len(),
    ensures
        from <= i <= chars@.len(),
        i - from == first_index(chars@.skip(from as int), c),
{
    let mut i: usize = from;
    while i < chars.len() && chars[i] != c
        invariant
            from <= i <= chars@.len(),
            first_index(chars@.skip(from as int), c) == i - from + first_index(
                chars@.skip(i as int),
                c,
            ),
        decreases chars.len() - i,
    {
        assert(chars@.skip(i as int).drop_first() =~= chars@.skip(i + 1));
        i += 1;
    }
    i
}

/// Splits `s` at the first `c` into what precedes and what follows it.
pub fn split_once<'a>(s: &'a str, c: char) -> (r: Option<(&'a str, &'a str)>)
    ensures
        r is Some <==> s@.contains(c),
        r matches Some((head, tail)) ==> head@ == s@.take(first_index(s@, c)) && tail@ == s@.skip(
            first_index(s@, c) + 1,
        ),
{
    let chars = chars_of(s);
    proof {
        lemma_first_index(s@, c);
        assert(s@.skip(0) =~= s@);
    }
    let i = find_char(chars.as_slice(), c, 0);
    if i == chars.len() {
        return None;
    }
    assert(s@.subrange(0, i as int) =~= s@.take(i as int));
    assert(s@.subrange(i + 1, s@.len() as int) =~= s@.skip(i + 1));
    Some((s.substring_char(0, i), s.substring_char(i + 1, chars.len())))
}

/// Finds the last `c` in `s`.
pub fn rfind_char(s: &str, c: char) -> (r: Option<usize>)
    ensures
        r is Some <==> s@.contains(c),
        r matches Some(i) ==> i == last_index(s@, c) && i < s@.len() <= usize::MAX,
{
    let chars = chars_of(s);
    let mut i: usize = chars.len();
    proof {
        lemma_last_index(s@, c);
        assert(s@.take(i as int) =~= s@);
    }
    while 0 < i && chars[i - 1] != c
        invariant
            i <= chars@.len(),
            chars@ == s@,
            last_index(s@, c) == last_index(s@.take(i as int), c),
        decreases i,
    {
        assert(s@.take(i as int).drop_last() =~= s@.take(i - 1));
        i -= 1;
    }
    if i == 0 {
        None
    } else {
        Some(i - 1)
    }
}

/// The pieces of `s` between the occurrences of `c`.
pub open spec fn split_on(s: Seq<char>, c: char) -> Seq<Seq<char>>
    decreases s.len(),
{
    let i = first_index(s, c);
    if 0 <= i < s.len() {
        seq![s.take(i)] + split_on(s.skip(i + 1), c)
    } else {
        seq![s]
    }
}

/// Splits `s` at every `c`.
pub fn split_char(s: &str, c: char) -> (r: Vec<String>)
    ensures
        r.deep_view() == split_on(s@, c),
{
    let chars = chars_of(s);
    let mut out: Vec<String> = Vec::new();
    let mut from: usize = 0;
    assert(s@.skip(0) =~= s@);
    loop
        invariant
            from <= chars@.len(),
            chars@ == s@,
            split_on(s@, c) == out.deep_view() + split_on(s@.skip(from as int), c),
        decreases chars.len() - from,
    {
        let ghost rest = s@.skip(from as int);
        let to = find_char(chars.as_slice(), c, from);
        let piece = text_of(&chars[from..to]);
        assert(piece@ =~= rest.take(to - from));
        let ghost before = out.deep_view();
        out.push(piece);
        assert(out.deep_view() =~= before.push(piece@));
        if to == chars.len() {
            assert(rest.take(to - from) =~= rest);
            assert(out.deep_view() =~= before + split_on(rest, c));
            return out;
        }
        assert(rest.skip(to - from + 1) =~= s@.skip(to + 1));
        assert(out.deep_view() + split_on(s@.skip(to + 1), c) =~= before + split_on(rest, c));
        from = to + 1;
    }
}

/// The number of characters of `s` before its first white space.
pub open spec fn word_len(s: Seq<char>) -> nat
    decreases s.len(),
{
    if s.len() == 0 || is_white_space(s[0]) {
        0
    } else {
        1 + word_len(s.drop_first())
    }
}

/// The maximal runs of characters other than white space, in order.
pub open spec fn words(s: Seq<char>) -> Seq<Seq<char>>
    decreases s.len(),
{
    if s.len() == 0 {
        seq![]
    } else if is_white_space(s[0]) {
        words(s.drop_first())
    } else {
        proof {
            lemma_word_len(s);
        }
        seq![s.take(word_len(s) as int)] + words(s.skip(word_len(s) as int))
    }
}

/// A word is no longer than the text, and is not empty unless white space or the end comes first.
pub proof fn lemma_word_len(s: Seq<char>)
    ensures
        word_len(s) <= s.len(),
        s.len() > 0 && !is_white_space(s[0]) ==> word_len(s) > 0,
    decreases s.len(),
{
    if s.len() > 0 && !is_white_space(s[0]) {
        lemma_word_len(s.drop_first());
    }
}

/// Whether no character of `s` is in `class`.
pub open spec fn is_free_of(s: Seq<char>, class: CharClass) -> bool {
    forall|i: int| 0 <= i < s.len() ==> !class.has(#[trigger] s[i])
}

/// A word has no white space, and is not empty.
pub proof fn lemma_words_are_bare(s: Seq<char>, i: int)
    requires
        0 <= i < words(s).len(),
    ensures
        words(s)[i].len() > 0,
        is_free_of(words(s)[i], CharClass::WhiteSpace),
    decreases s.len(),
{
    if is_white_space(s[0]) {
        lemma_words_are_bare(s.drop_first(), i);
    } else {
        lemma_word_len(s);
        lemma_word_is_bare(s);
        if i > 0 {
            lemma_words_are_bare(s.skip(word_len(s) as int), i - 1);
        }
    }
}

proof fn lemma_word_is_bare(s: Seq<char>)
    ensures
        word_len(s) <= s.len(),
        forall|i: int| 0 <= i < word_len(s) ==> !is_white_space(#[trigger] s[i]),
    decreases s.len(),
{
    if s.len() > 0 && !is_white_space(s[0]) {
        lemma_word_is_bare(s.drop_first());
        assert forall|i: int| 0 <= i < word_len(s) implies !is_white_space(#[trigger] s[i]) by {
            if i > 0 {
                assert(s.drop_first()[i - 1] == s[i]);
            }
        }
    }
}

/// A text without white space is one word.
pub proof fn lemma_bare_is_one_word(s: Seq<char>)
    requires
        s.len() > 0,
        is_free_of(s, CharClass::WhiteSpace),
    ensures
        words(s) == seq![s],
{
    lemma_bare_word_len(s);
    assert(CharClass::WhiteSpace.has(s[0]) == is_white_space(s[0]));
    assert(s.take(s.len() as int) =~= s);
    assert(words(s.skip(s.len() as int)) =~= seq![]);
    assert(words(s) =~= seq![s]);
}

proof fn lemma_bare_word_len(s: Seq<char>)
    requires
        is_free_of(s, CharClass::WhiteSpace),
    ensures
        word_len(s) == s.len(),
    decreases s.len(),
{
    if s.len() > 0 {
        assert(CharClass::WhiteSpace.has(s[0]) == is_white_space(s[0]));
        assert forall|i: int| 0 <= i < s.drop_first().len() implies !CharClass::WhiteSpace.has(
            #[trigger] s.drop_first()[i],
        ) by {
            assert(s.drop_first()[i] == s[i + 1]);
        }
        lemma_bare_word_len(s.drop_first());
    }
}

/// Trimming brings no new characters into a text.
pub proof fn lemma_trim_keeps_free(s: Seq<char>, class: CharClass, other: CharClass)
    requires
        is_free_of(s, other),
    ensures
        is_free_of(trim_in(s, class), other),
{
    lemma_trim_start_keeps_free(s, class, other);
    lemma_trim_end_keeps_free(trim_start_in(s, class), class, other);
}

proof fn lemma_trim_start_keeps_free(s: Seq<char>, class: CharClass, other: CharClass)
    requires
        is_free_of(s, other),
    ensures
        is_free_of(trim_start_in(s, class), other),
    decreases s.len(),
{
    if s.len() > 0 && class.has(s[0]) {
        assert forall|i: int| 0 <= i < s.drop_first().len() implies !other.has(
            #[trigger] s.drop_first()[i],
        ) by {
            assert(s.drop_first()[i] == s[i + 1]);
        }
        lemma_trim_start_keeps_free(s.drop_first(), class, other);
    }
}

proof fn lemma_trim_end_keeps_free(s: Seq<char>, class: CharClass, other: CharClass)
    requires
        is_free_of(s, other),
    ensures
        is_free_of(trim_end_in(s, class), other),
    decreases s.len(),
{
    if s.len() > 0 && class.has(s.last()) {
        assert forall|i: int| 0 <= i < s.drop_last().len() implies !other.has(
            #[trigger] s.drop_last()[i],
        ) by {
            assert(s.drop_last()[i] == s[i]);
        }
        lemma_trim_end_keeps_free(s.drop_last(), class, other);
    }
}

/// Splits `s` at white space.
pub fn split_white_space(s: &str) -> (r: Vec<String>)
    ensures
        r.deep_view() == words(s@),
{
    let chars = chars_of(s);
    let mut out: Vec<String> = Vec::new();
    let mut i: usize = 0;
    assert(s@.skip(0) =~= s@);
    while i < chars.len()
        invariant
            i <= chars@.len(),
            chars@ == s@,
            words(s@) == out.deep_view() + words(s@.skip(i as int)),
        decreases chars.len() - i,
    {
        let ghost rest = s@.skip(i as int);
        if CharClass::WhiteSpace.contains(chars[i]) {
            assert(rest.drop_first() =~= s@.skip(i + 1));
            i += 1;
        } else {
            let mut to: usize = i;
            while to < chars.len() && !CharClass::WhiteSpace.contains(chars[to])
                invariant
                    i <= to <= chars@.len(),
                    chars@ == s@,
                    rest == s@.skip(i as int),
                    word_len(rest) == to - i + word_len(s@.skip(to as int)),
                decreases chars.len() - to,
            {
                assert(s@.skip(to as int).drop_first() =~= s@.skip(to + 1));
                to += 1;
            }
            proof {
                lemma_word_len(rest);
            }
            let word = text_of(&chars[i..to]);
            let ghost before = out.deep_view();
            out.push(word);
            assert(word@ =~= rest.take(to - i));
            assert(out.deep_view() =~= before.push(word@));
            assert(rest.skip(to - i) =~= s@.skip(to as int));
            assert(out.deep_view() + words(s@.skip(to as int)) =~= before + words(rest));
            i = to;
        }
    }
    out
}

/// The decimal digit of a number below ten.
pub open spec fn digit(n: nat) -> char {
    (('0' as u32) + n) as char
}

/// The decimal digits of a number.
pub open spec fn decimal(n: nat) -> Seq<char>
    decreases n,
{
    if n < 10 {
        seq![digit(n)]
    } else {
        decimal(n / 10).push(digit(n % 10))
    }
}

/// Writes a number in decimal digits.
pub fn decimal_text(n: u128) -> (r: String)
    ensures
        r@ == decimal(n as nat),
{
    let mut digits: Vec<char> = Vec::new();
    let mut rest: u128 = n;
    assert(digits@.reverse() =~= seq![]);
    while rest >= 10
        invariant
            decimal(n as nat) == decimal(rest as nat) + digits@.reverse(),
        decreases rest,
    {
        let low: u8 = (rest % 10) as u8;
        let ghost before = digits@;
        digits.push((48 + low) as char);
        proof {
            assert(digits@.reverse() =~= seq![digit((rest % 10) as nat)] + before.reverse());
            assert(decimal(rest as nat) + before.reverse() =~= decimal((rest / 10) as nat)
                + digits@.reverse());
        }
        rest = rest / 10;
    }
    let ghost before = digits@;
    digits.push((48 + (rest as u8)) as char);
    assert(digits@.reverse() =~= decimal(n as nat));
    let mut out = String::new();
    let mut i: usize = digits.len();
    assert(digits@.skip(i as int).reverse() =~= seq![]);
    while 0 < i
        invariant
            i <= digits@.len(),
            out@ == digits@.skip(i as int).reverse(),
        decreases i,
    {
        let ghost done = out@;
        out.push(digits[i - 1]);
        proof {
            assert(digits@.skip(i - 1).reverse() =~= done.push(digits@[i - 1]));
        }
        i -= 1;
    }
    assert(digits@.skip(0) =~= digits@);
    out
}

/// Different numbers are written differently.
pub proof fn lemma_decimal_injective(a: nat, b: nat)
    requires
        decimal(a) == decimal(b),
    ensures
        a == b,
    decreases a,
{
    lemma_decimal_len(a);
    lemma_decimal_len(b);
    let x = decimal(a);
    let y = decimal(b);
    assert(x.last() == y.last());
    if a < 10 {
        if b >= 10 {
            assert(y.len() == 1);
            lemma_decimal_len(b / 10);
        }
    } else {
        if b < 10 {
            lemma_decimal_len(a / 10);
        } else {
            assert(x.drop_last() =~= decimal(a / 10));
            assert(y.drop_last() =~= decimal(b / 10));
            lemma_decimal_injective(a / 10, b / 10);
        }
    }
}

proof fn lemma_decimal_len(n: nat)
    ensures
        decimal(n).len() >= 1,
        decimal(n).last() == digit(n % 10),
{
    if n < 10 {
        assert(n % 10 == n);
    }
}

/// White space parts the words of a text: those before it and those after it make up the words of
/// the whole. White space alone has no words.
pub proof fn lemma_white_space_parts_words(head: Seq<char>, gap: char, tail: Seq<char>)
    requires
        is_white_space(gap),
    ensures
        words(head.push(gap) + tail) == words(head) + words(tail),
        words(Seq::<char>::empty()) == Seq::<Seq<char>>::empty(),
    decreases head.len(),
{
    let all = head.push(gap) + tail;
    if head.len() == 0 {
        assert(all.drop_first() =~= tail);
        assert(words(all) =~= words(head) + words(tail));
    } else if is_white_space(head[0]) {
        assert(all.drop_first() =~= head.drop_first().push(gap) + tail);
        lemma_white_space_parts_words(head.drop_first(), gap, tail);
    } else {
        let n = word_len(head);
        lemma_word_len(head);
        lemma_word_ends(head, gap, tail);
        assert(all.take(n as int) =~= head.take(n as int));
        assert(all.skip(n as int) =~= head.skip(n as int).push(gap) + tail);
        lemma_white_space_parts_words(head.skip(n as int), gap, tail);
        assert(words(all) =~= words(head) + words(tail));
    }
}

proof fn lemma_word_ends(head: Seq<char>, gap: char, tail: Seq<char>)
    requires
        is_white_space(gap),
    ensures
        word_len(head.push(gap) + tail) == word_len(head),
    decreases head.len(),
{
    if head.len() > 0 {
        assert((head.push(gap) + tail).drop_first() =~= head.drop_first().push(gap) + tail);
        lemma_word_ends(head.drop_first(), gap, tail);
    }
}

/// Every word of a text, its start and the text itself occur in it as consecutive characters.
pub proof fn lemma_word_occurs(s: Seq<char>, part: Seq<char>)
    ensures
        words(s).contains(part) ==> occurs_in(s, part),
        begins_with(s, part) ==> occurs_in(s, part),
        occurs_in(s, s),
        s == part ==> begins_with(s, part),
{
    assert(s.skip(0) =~= s);
    assert(s.take(s.len() as int) =~= s);
    assert(begins_with(s.skip(0), s));
    if begins_with(s, part) {
        assert(begins_with(s.skip(0), part));
    }
    if words(s).contains(part) {
        lemma_word_is_part(s, part);
    }
}

proof fn lemma_word_is_part(s: Seq<char>, part: Seq<char>)
    requires
        words(s).contains(part),
    ensures
        occurs_in(s, part),
    decreases s.len(),
{
    let w = choose|w: int| 0 <= w < words(s).len() && words(s)[w] == part;
    if is_white_space(s[0]) {
        let rest = s.drop_first();
        assert(rest =~= s.skip(1));
        assert(words(rest)[w] == part);
        lemma_word_is_part(rest, part);
        lemma_part_of_rest(s, 1, part);
    } else {
        let n = word_len(s);
        lemma_word_len(s);
        if w == 0 {
            assert(part == s.take(n as int));
            assert(s.skip(0) =~= s);
            assert(begins_with(s.skip(0), part));
        } else {
            assert(words(s.skip(n as int))[w - 1] == part);
            lemma_word_is_part(s.skip(n as int), part);
            lemma_part_of_rest(s, n as int, part);
        }
    }
}

proof fn lemma_part_of_rest(s: Seq<char>, n: int, part: Seq<char>)
    requires
        0 <= n <= s.len(),
        occurs_in(s.skip(n), part),
    ensures
        occurs_in(s, part),
{
    let rest = s.skip(n);
    let i = choose|i: int| 0 <= i <= rest.len() && #[trigger] begins_with(rest.skip(i), part);
    assert(rest.skip(i) =~= s.skip(n + i));
    assert(begins_with(s.skip(n + i), part));
}

/// A part occurs in a text exactly where the text consists of something, the part and something
/// else.
pub proof fn lemma_occurs(before: Seq<char>, part: Seq<char>, after: Seq<char>, s: Seq<char>)
    ensures
        occurs_in(before + part + after, part),
        begins_with(part + after, part),
        occurs_in(s, part) ==> exists|i: int|
            0 <= i <= s.len() - part.len() && s == #[trigger] s.take(i) + part + s.skip(
                i + part.len(),
            ),
        begins_with(s, part) ==> s == part + s.skip(part.len() as int),
{
    let all = before + part + after;
    assert((part + after).take(part.len() as int) =~= part);
    assert(all.skip(before.len() as int) =~= part + after);
    assert(begins_with(all.skip(before.len() as int), part));
    if occurs_in(s, part) {
        let i = choose|i: int| 0 <= i <= s.len() && #[trigger] begins_with(s.skip(i), part);
        assert forall|k: int| 0 <= k < part.len() implies s[i + k] == part[k] by {
            assert(s.skip(i).take(part.len() as int)[k] == part[k]);
        }
        assert(s =~= s.take(i) + part + s.skip(i + part.len()));
    }
    if begins_with(s, part) {
        assert(s =~= s.take(part.len() as int) + s.skip(part.len() as int));
    }
}

/// Trimming takes characters of the class off the ends of a text and nothing else.
pub proof fn lemma_trim_takes_ends(s: Seq<char>, class: CharClass) -> (r: (Seq<char>, Seq<char>))
    ensures
        s == r.0 + trim_in(s, class) + r.1,
        forall|i: int| 0 <= i < r.0.len() ==> class.has(#[trigger] r.0[i]),
        forall|i: int| 0 <= i < r.1.len() ==> class.has(#[trigger] r.1[i]),
{
    let front = lemma_trim_start_takes(s, class);
    let rest = trim_start_in(s, class);
    let back = lemma_trim_end_takes(rest, class);
    assert(s =~= front + trim_in(s, class) + back);
    (front, back)
}

proof fn lemma_trim_start_takes(s: Seq<char>, class: CharClass) -> (front: Seq<char>)
    ensures
        s == front + trim_start_in(s, class),
        forall|i: int| 0 <= i < front.len() ==> class.has(#[trigger] front[i]),
    decreases s.len(),
{
    if s.len() > 0 && class.has(s[0]) {
        let front = lemma_trim_start_takes(s.drop_first(), class);
        let all = seq![s[0]] + front;
        let rest = trim_start_in(s, class);
        assert(s.drop_first() == front + rest);
        assert(s =~= seq![s[0]] + s.drop_first());
        assert(s =~= all + rest);
        all
    } else {
        assert(s =~= Seq::<char>::empty() + s);
        Seq::empty()
    }
}

proof fn lemma_trim_end_takes(s: Seq<char>, class: CharClass) -> (back: Seq<char>)
    ensures
        s == trim_end_in(s, class) + back,
        forall|i: int| 0 <= i < back.len() ==> class.has(#[trigger] back[i]),
    decreases s.len(),
{
    if s.len() > 0 && class.has(s.last()) {
        let back = lemma_trim_end_takes(s.drop_last(), class);
        let all = back.push(s.last());
        let rest = trim_end_in(s, class);
        assert(s.drop_last() == rest + back);
        assert(s =~= s.drop_last().push(s.last()));
        assert(s =~= rest + all);
        all
    } else {
        assert(s =~= s + Seq::<char>::empty());
        Seq::empty()
    }
}

/// Lowering changes the capital letters of ASCII alone, each to its small letter; texts are equal up
/// to case exactly where they differ in that alone.
pub proof fn lemma_ascii_lower(s: Seq<char>, t: Seq<char>)
    ensures
        ascii_lower(s).len() == s.len(),
        forall|i: int|
            0 <= i < s.len() ==> if 'A' <= #[trigger] s[i] <= 'Z' {
                ascii_lower(s)[i] as int - 'a' as int == s[i] as int - 'A' as int
            } else {
                ascii_lower(s)[i] == s[i]
            },
        ascii_lower(ascii_lower(s)) == ascii_lower(s),
        equal_ignoring_ascii_case(s, ascii_lower(s)),
        equal_ignoring_ascii_case(s, t) ==> s.len() == t.len(),
{
    assert(ascii_lower(ascii_lower(s)) =~= ascii_lower(s));
    if equal_ignoring_ascii_case(s, t) {
        assert(ascii_lower(s).len() == ascii_lower(t).len());
    }
}

/// The pieces of a text between the occurrences of a character hold none of it, and give the text
/// back where it is put between them.
pub proof fn lemma_split_on(s: Seq<char>, c: char)
    ensures
        split_on(s, c).len() > 0,
        forall|i: int| 0 <= i < split_on(s, c).len() ==> !(#[trigger] split_on(s, c)[i]).contains(c),
        s == joined_with(split_on(s, c), c),
    decreases s.len(),
{
    lemma_first_index(s, c);
    let i = first_index(s, c);
    if i < s.len() {
        let rest = s.skip(i + 1);
        lemma_split_on(rest, c);
        let pieces = split_on(s, c);
        assert(pieces.drop_first() =~= split_on(rest, c));
        assert(!s.take(i).contains(c)) by {
            if s.take(i).contains(c) {
                let k = choose|k: int| 0 <= k < i && s.take(i)[k] == c;
                assert(s[k] == c);
            }
        }
        assert forall|k: int| 0 <= k < pieces.len() implies !(#[trigger] pieces[k]).contains(c) by {
            if k > 0 {
                assert(pieces[k] == split_on(rest, c)[k - 1]);
            }
        }
        assert(s =~= s.take(i).push(c) + rest);
    }
}

/// `pieces` with `c` between each two of them.
pub open spec fn joined_with(pieces: Seq<Seq<char>>, c: char) -> Seq<char>
    decreases pieces.len(),
{
    if pieces.len() == 0 {
        Seq::empty()
    } else if pieces.len() == 1 {
        pieces[0]
    } else {
        pieces[0].push(c) + joined_with(pieces.drop_first(), c)
    }
}

} // verus!
