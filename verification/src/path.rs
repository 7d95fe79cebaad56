//! File paths as texts: components, names, extensions, parents.
//!
//! Components are separated by one or more `/`; a component `.` counts only at
//! the start of a relative path. Where a system writes paths with `\`, they are
//! handed over with `/` in its place.
use crate::text::{chars_of, find_char, first_index, last_index, lemma_first_index};
use crate::text::{lemma_last_index, rfind_char, same_text, text_of};
use vstd::prelude::*;

verus! {

broadcast use vstd::string::group_string_axioms;

/// Whether `p` starts at the root.
pub open spec fn is_absolute(p: Seq<char>) -> bool {
    p.len() > 0 && p[0] == '/'
}

/// `q` from its next component on: without separators and components `.` at its start.
pub open spec fn trim_separators(q: Seq<char>) -> Seq<char>
    decreases q.len(),
{
    if q.len() == 0 {
        q
    } else if q[0] == '/' || (q[0] == '.' && (q.len() == 1 || q[1] == '/')) {
        trim_separators(q.drop_first())
    } else {
        q
    }
}

/// What is left is no longer and does not start with a separator.
pub proof fn lemma_trim_separators(q: Seq<char>)
    ensures
        trim_separators(q).len() <= q.len(),
        trim_separators(q).len() > 0 ==> trim_separators(q)[0] != '/',
    decreases q.len(),
{
    if q.len() > 0 && (q[0] == '/' || (q[0] == '.' && (q.len() == 1 || q[1] == '/'))) {
        lemma_trim_separators(q.drop_first());
    }
}

/// What follows the root in `p`.
pub open spec fn body(p: Seq<char>) -> Seq<char> {
    if is_absolute(p) {
        trim_separators(p)
    } else {
        p
    }
}

/// What follows the first component of `q`.
pub open spec fn after_part(q: Seq<char>) -> Seq<char> {
    trim_separators(q.skip(first_index(q, '/')))
}

/// The components of `q`, which does not start with a separator.
pub open spec fn parts_of(q: Seq<char>) -> Seq<Seq<char>>
    decreases q.len(),
{
    if q.len() == 0 || q[0] == '/' {
        seq![]
    } else {
        proof {
            lemma_first_index(q, '/');
            lemma_trim_separators(q.skip(first_index(q, '/')));
        }
        seq![q.take(first_index(q, '/'))] + parts_of(after_part(q))
    }
}

/// The components of `p` below the root.
pub open spec fn parts(p: Seq<char>) -> Seq<Seq<char>> {
    parts_of(body(p))
}

/// `q` without its first `n` components.
pub open spec fn rest_after(q: Seq<char>, n: nat) -> Seq<char>
    decreases n,
{
    if n == 0 {
        q
    } else {
        rest_after(after_part(q), (n - 1) as nat)
    }
}

/// `p` without separators and components `.` at its end; the root is kept.
pub open spec fn trim_path_end(p: Seq<char>) -> Seq<char>
    decreases p.len(),
{
    if p.len() >= 2 && (p.last() == '/' || (p.last() == '.' && p[p.len() - 2] == '/')) {
        trim_path_end(p.drop_last())
    } else {
        p
    }
}

/// Whether `base` is `p` or a folder above it.
pub open spec fn is_under(p: Seq<char>, base: Seq<char>) -> bool {
    ||| base.len() == 0
    ||| is_absolute(p) == is_absolute(base) && parts(base).is_prefix_of(parts(p))
}

/// The path of `p` relative to `base`.
pub open spec fn relative_to(p: Seq<char>, base: Seq<char>) -> Seq<char> {
    if base.len() == 0 {
        trim_path_end(p)
    } else {
        trim_path_end(rest_after(body(p), parts(base).len()))
    }
}

/// The last component of `p`; empty for the root and the empty path.
pub open spec fn last_part(p: Seq<char>) -> Seq<char> {
    let q = trim_path_end(p);
    q.skip(last_index(q, '/') + 1)
}

/// The path of the folder that holds `p`, if `p` has a component.
pub open spec fn parent_of(p: Seq<char>) -> Option<Seq<char>> {
    if last_part(p).len() == 0 {
        None
    } else {
        let q = trim_path_end(p);
        Some(trim_path_end(q.take(last_index(q, '/') + 1)))
    }
}

/// The name of the file or folder at `p`: its last component, unless that is `.` or `..`.
pub open spec fn name_of(p: Seq<char>) -> Option<Seq<char>> {
    let name = last_part(p);
    if name.len() == 0 || name == seq!['.'] || name == seq!['.', '.'] {
        None
    } else {
        Some(name)
    }
}

/// A file name up to its last `.`; names without one, or with one only in front, are kept whole.
pub open spec fn name_stem(name: Seq<char>) -> Seq<char> {
    let i = last_index(name, '.');
    if i <= 0 {
        name
    } else {
        name.take(i)
    }
}

/// What follows the last `.` of a file name, unless that is its first character.
pub open spec fn name_extension(name: Seq<char>) -> Option<Seq<char>> {
    let i = last_index(name, '.');
    if i <= 0 {
        None
    } else {
        Some(name.skip(i + 1))
    }
}

/// The stem of the file name of `p`.
pub open spec fn stem_of(p: Seq<char>) -> Option<Seq<char>> {
    match name_of(p) {
        Some(name) => Some(name_stem(name)),
        None => None,
    }
}

/// The extension of the file name of `p`.
pub open spec fn extension_of(p: Seq<char>) -> Option<Seq<char>> {
    match name_of(p) {
        Some(name) => name_extension(name),
        None => None,
    }
}

/// `tail` below `folder`; an absolute `tail` replaces it.
pub open spec fn joined(folder: Seq<char>, tail: Seq<char>) -> Seq<char> {
    if is_absolute(tail) {
        tail
    } else if folder.len() > 0 && folder.last() != '/' {
        folder.push('/') + tail
    } else {
        folder + tail
    }
}

/// Appends `tail` to the path `folder`.
pub fn join(folder: &str, tail: &str) -> (r: String)
    ensures
        r@ == joined(folder@, tail@),
{
    let head = chars_of(folder);
    let rest = chars_of(tail);
    if rest.len() > 0 && rest[0] == '/' {
        return tail.to_owned();
    }
    let mut out = folder.to_owned();
    if head.len() > 0 && head[head.len() - 1] != '/' {
        out.push('/');
    }
    out.append(tail);
    out
}

/// Finds where the next component of `chars` begins, from `from` on.
fn skip_separators(chars: &[char], from: usize) -> (r: usize)
    requires
        from <= chars@.len(),
    ensures
        from <= r <= chars@.len(),
        chars@.skip(r as int) == trim_separators(chars@.skip(from as int)),
{
    let size: usize = chars.len();
    let mut i: usize = from;
    while i < size && (chars[i] == '/' || (chars[i] == '.' && (i + 1 == size || chars[i + 1]
        == '/')))
        invariant
            size == chars@.len(),
            from <= i <= size,
            trim_separators(chars@.skip(from as int)) == trim_separators(chars@.skip(i as int)),
        decreases size - i,
    {
        assert(chars@.skip(i as int).drop_first() =~= chars@.skip(i + 1));
        i += 1;
    }
    i
}

/// Finds where the components of `chars` begin, after the root.
fn body_start(chars: &[char]) -> (r: usize)
    ensures
        r <= chars@.len(),
        chars@.skip(r as int) == body(chars@),
{
    assert(chars@.skip(0) =~= chars@);
    if chars.len() > 0 && chars[0] == '/' {
        skip_separators(chars, 0)
    } else {
        0
    }
}

/// Finds where `chars` ends without separators and components `.` at its end.
fn path_end(chars: &[char], to: usize) -> (r: usize)
    requires
        to <= chars@.len(),
    ensures
        r <= to,
        chars@.take(r as int) == trim_path_end(chars@.take(to as int)),
{
    let mut i: usize = to;
    while i >= 2 && (chars[i - 1] == '/' || (chars[i - 1] == '.' && chars[i - 2] == '/'))
        invariant
            i <= to <= chars@.len(),
            trim_path_end(chars@.take(to as int)) == trim_path_end(chars@.take(i as int)),
        decreases i,
    {
        assert(chars@.take(i as int).drop_last() =~= chars@.take(i - 1));
        i -= 1;
    }
    i
}

/// The path without separators and components `.` at its end.
fn trim_end(path: &str) -> (r: String)
    ensures
        r@ == trim_path_end(path@),
{
    let chars = chars_of(path);
    let to = path_end(chars.as_slice(), chars.len());
    assert(chars@.take(chars@.len() as int) =~= chars@);
    assert(chars@.subrange(0, to as int) =~= chars@.take(to as int));
    text_of(&chars[0..to])
}

/// The components of a path below the root.
pub fn components(path: &str) -> (r: Vec<String>)
    ensures
        r.deep_view() == parts(path@),
{
    let chars = chars_of(path);
    let mut at = body_start(chars.as_slice());
    let mut out: Vec<String> = Vec::new();
    assert(out.deep_view() + parts(path@) =~= parts(path@));
    while at < chars.len() && chars[at] != '/'
        invariant
            at <= chars@.len(),
            chars@ == path@,
            parts(path@) == out.deep_view() + parts_of(path@.skip(at as int)),
        decreases chars.len() - at,
    {
        let ghost rest = path@.skip(at as int);
        proof {
            lemma_first_index(rest, '/');
        }
        let to = find_char(chars.as_slice(), '/', at);
        let part = text_of(&chars[at..to]);
        assert(part@ =~= rest.take(to - at));
        let ghost before = out.deep_view();
        out.push(part);
        assert(out.deep_view() =~= before.push(part@));
        assert(rest.skip(to - at) =~= path@.skip(to as int));
        let next = skip_separators(chars.as_slice(), to);
        proof {
            assert(path@.skip(next as int) == after_part(rest));
            assert(out.deep_view() + parts_of(after_part(rest)) =~= before + parts_of(rest));
        }
        at = next;
    }
    assert(parts_of(path@.skip(at as int)) =~= seq![]);
    assert(out.deep_view() =~= parts(path@));
    out
}

/// The path of `path` relative to `base`, where it lies below it.
pub fn strip_base(path: &str, base: &str) -> (r: Option<String>)
    ensures
        r is Some <==> is_under(path@, base@),
        r matches Some(rest) ==> rest@ == relative_to(path@, base@),
{
    let base_chars = chars_of(base);
    if base_chars.len() == 0 {
        return Some(trim_end(path));
    }
    let chars = chars_of(path);
    let absolute = chars.len() > 0 && chars[0] == '/';
    if absolute != (base_chars[0] == '/') {
        return None;
    }
    let wanted = components(base);
    let have = components(path);
    if have.len() < wanted.len() {
        return None;
    }
    let mut at = body_start(chars.as_slice());
    let mut i: usize = 0;
    while i < wanted.len()
        invariant
            i <= wanted@.len() <= have@.len(),
            wanted.deep_view() == parts(base@),
            have.deep_view() == parts(path@),
            chars@ == path@,
            at <= chars@.len(),
            forall|j: int| 0 <= j < i ==> parts(base@)[j] == parts(path@)[j],
            parts_of(path@.skip(at as int)) == parts(path@).skip(i as int),
            rest_after(body(path@), parts(base@).len()) == rest_after(
                path@.skip(at as int),
                (parts(base@).len() - i) as nat,
            ),
        decreases wanted.len() - i,
    {
        assert(parts(base@)[i as int] == wanted@[i as int]@);
        assert(parts(path@)[i as int] == have@[i as int]@);
        if !same_text(wanted[i].as_str(), have[i].as_str()) {
            return None;
        }
        let ghost rest = path@.skip(at as int);
        proof {
            assert(parts_of(rest).len() > 0);
            lemma_first_index(rest, '/');
        }
        let to = find_char(chars.as_slice(), '/', at);
        assert(rest.skip(to - at) =~= path@.skip(to as int));
        let next = skip_separators(chars.as_slice(), to);
        proof {
            assert(path@.skip(next as int) == after_part(rest));
            assert(parts_of(after_part(rest)) =~= parts_of(rest).skip(1));
            assert(parts(path@).skip(i as int).skip(1) =~= parts(path@).skip(i + 1));
        }
        at = next;
        i += 1;
    }
    let rest = text_of(&chars[at..chars.len()]);
    assert(rest@ =~= path@.skip(at as int));
    Some(trim_end(rest.as_str()))
}

/// The path of the folder that holds `path`.
pub fn parent(path: &str) -> (r: Option<String>)
    ensures
        r is Some <==> parent_of(path@) is Some,
        r matches Some(folder) ==> parent_of(path@) == Some(folder@),
{
    let trimmed = trim_end(path);
    let chars = chars_of(trimmed.as_str());
    let start: usize = match rfind_char(trimmed.as_str(), '/') {
        Some(i) => i + 1,
        None => 0,
    };
    proof {
        lemma_last_index(trimmed@, '/');
    }
    if start == chars.len() {
        return None;
    }
    let to = path_end(chars.as_slice(), start);
    let folder = text_of(&chars[0..to]);
    assert(folder@ =~= chars@.take(to as int));
    Some(folder)
}

/// The name of the file or folder at `path`.
pub fn file_name(path: &str) -> (r: Option<String>)
    ensures
        r is Some <==> name_of(path@) is Some,
        r matches Some(name) ==> name_of(path@) == Some(name@),
{
    let trimmed = trim_end(path);
    let chars = chars_of(trimmed.as_str());
    let start: usize = match rfind_char(trimmed.as_str(), '/') {
        Some(i) => i + 1,
        None => 0,
    };
    proof {
        lemma_last_index(trimmed@, '/');
    }
    let name = text_of(&chars[start..chars.len()]);
    assert(name@ =~= last_part(path@));
    let size: usize = chars.len() - start;
    if size == 0 {
        return None;
    }
    if size == 1 && chars[start] == '.' {
        assert(name@ =~= seq!['.']);
        return None;
    }
    if size == 2 && chars[start] == '.' && chars[start + 1] == '.' {
        assert(name@ =~= seq!['.', '.']);
        return None;
    }
    proof {
        if name@ == seq!['.'] {
            assert(name@.len() == 1 && name@[0] == '.');
        }
        if name@ == seq!['.', '.'] {
            assert(name@.len() == 2 && name@[0] == '.' && name@[1] == '.');
        }
    }
    Some(name)
}

/// The stem of the file name of `path`.
pub fn file_stem(path: &str) -> (r: Option<String>)
    ensures
        r is Some <==> stem_of(path@) is Some,
        r matches Some(stem) ==> stem_of(path@) == Some(stem@),
{
    match file_name(path) {
        Some(name) => {
            proof {
                lemma_last_index(name@, '.');
            }
            match rfind_char(name.as_str(), '.') {
                Some(i) => {
                    if i == 0 {
                        return Some(name);
                    }
                    let chars = chars_of(name.as_str());
                    let stem = text_of(&chars[0..i]);
                    assert(stem@ =~= name@.take(i as int));
                    Some(stem)
                },
                None => Some(name),
            }
        },
        None => None,
    }
}

/// The extension of the file name of `path`.
pub fn extension(path: &str) -> (r: Option<String>)
    ensures
        r is Some <==> extension_of(path@) is Some,
        r matches Some(extension) ==> extension_of(path@) == Some(extension@),
{
    match file_name(path) {
        Some(name) => {
            proof {
                lemma_last_index(name@, '.');
            }
            match rfind_char(name.as_str(), '.') {
                Some(i) => {
                    if i == 0 {
                        return None;
                    }
                    let chars = chars_of(name.as_str());
                    let extension = text_of(&chars[i + 1..chars.len()]);
                    assert(extension@ =~= name@.skip(i + 1));
                    Some(extension)
                },
                None => None,
            }
        },
        None => None,
    }
}

/// Whether the file or folder at `path` lies in `folder` itself, with no folder between them.
pub open spec fn lies_in(path: Seq<char>, folder: Seq<char>) -> bool {
    &&& is_absolute(path) == is_absolute(folder)
    &&& parts(folder).is_prefix_of(parts(path))
    &&& parts(path).len() == parts(folder).len() + 1
}

/// Leaving components out of a path leaves them out of its list of components.
proof fn lemma_rest_after(q: Seq<char>, n: nat)
    requires
        n <= parts_of(q).len(),
    ensures
        parts_of(rest_after(q, n)) == parts_of(q).skip(n as int),
        q.len() > 0 && q[0] != '/' && rest_after(q, n).len() > 0 ==> rest_after(q, n)[0] != '/',
    decreases n,
{
    if n == 0 {
        assert(parts_of(q).skip(0) =~= parts_of(q));
    } else {
        let rest = after_part(q);
        lemma_trim_separators(q.skip(first_index(q, '/')));
        assert(parts_of(q).skip(1) =~= parts_of(rest));
        lemma_rest_after(rest, (n - 1) as nat);
        assert(parts_of(q).skip(n as int) =~= parts_of(rest).skip(n - 1));
    }
}

/// What holds no component is made of separators and components `.`.
proof fn lemma_only_separators(t: Seq<char>, i: int)
    requires
        trim_separators(t).len() == 0,
        0 <= i < t.len(),
    ensures
        t[i] == '/' || (t[i] == '.' && (i == t.len() - 1 || t[i + 1] == '/')),
    decreases t.len(),
{
    if i > 0 {
        lemma_only_separators(t.drop_first(), i - 1);
        assert(t.drop_first()[i - 1] == t[i]);
    }
}

/// Separators and components `.` behind a path of one component fall off its end.
proof fn lemma_trim_one_part(head: Seq<char>, tail: Seq<char>)
    requires
        head.len() > 0,
        !head.contains('/'),
        tail.len() > 0 ==> tail[0] == '/',
        forall|i: int|
            0 <= i < tail.len() ==> #[trigger] tail[i] == '/' || (tail[i] == '.' && (i == tail.len()
                - 1 || tail[i + 1] == '/')),
    ensures
        trim_path_end(head + tail) == head,
    decreases tail.len(),
{
    let p = head + tail;
    if tail.len() == 0 {
        assert(p =~= head);
        assert(head.last() != '/');
        if head.len() >= 2 {
            assert(head[head.len() - 2] != '/');
        }
    } else {
        let n = tail.len() - 1;
        assert(p.last() == tail[n]);
        if n > 0 {
            assert(p[p.len() - 2] == tail[n - 1]);
        }
        assert(p.drop_last() =~= head + tail.drop_last());
        lemma_trim_one_part(head, tail.drop_last());
    }
}

/// A file that lies in a folder itself has no folder between the two.
pub proof fn lemma_nothing_between(path: Seq<char>, folder: Seq<char>)
    requires
        lies_in(path, folder),
    ensures
        is_under(path, folder),
        parent_of(relative_to(path, folder)) == Some(Seq::<char>::empty()),
{
    let q = body(path);
    let n = parts(folder).len();
    lemma_trim_separators(path);
    assert(q.len() > 0 && q[0] != '/');
    lemma_rest_after(q, n);
    let rest = rest_after(q, n);
    assert(parts_of(rest).len() == 1);
    if folder.len() == 0 {
        assert(n == 0);
    }
    let k = first_index(rest, '/');
    lemma_first_index(rest, '/');
    let head = rest.take(k);
    let tail = rest.skip(k);
    lemma_trim_separators(tail);
    assert(parts_of(after_part(rest)).len() == 0);
    assert(trim_separators(tail).len() == 0);
    assert forall|i: int| 0 <= i < tail.len() implies #[trigger] tail[i] == '/' || (tail[i] == '.'
        && (i == tail.len() - 1 || tail[i + 1] == '/')) by {
        lemma_only_separators(tail, i);
    }
    assert(rest =~= head + tail);
    lemma_trim_one_part(head, tail);
    assert(relative_to(path, folder) == head);
    assert(head + Seq::<char>::empty() =~= head);
    lemma_trim_one_part(head, Seq::empty());
    lemma_last_index(head, '/');
    assert(head.skip(0) =~= head);
    assert(head.take(0) =~= Seq::<char>::empty());
}

/// What separators and components `.` leave of a text with more behind it.
proof fn lemma_trim_append(t: Seq<char>, tail: Seq<char>)
    requires
        tail.len() > 0,
        tail[0] == '/',
    ensures
        trim_separators(t + tail) == if trim_separators(t).len() == 0 {
            trim_separators(tail)
        } else {
            trim_separators(t) + tail
        },
    decreases t.len(),
{
    let all = t + tail;
    if t.len() == 0 {
        assert(all =~= tail);
    } else if t[0] == '/' || (t[0] == '.' && (t.len() == 1 || t[1] == '/')) {
        assert(all[0] == t[0]);
        if t.len() == 1 {
            assert(all[1] == tail[0]);
        } else {
            assert(all[1] == t[1]);
        }
        assert(all.drop_first() =~= t.drop_first() + tail);
        lemma_trim_append(t.drop_first(), tail);
    } else {
        assert(all[0] == t[0]);
        if t.len() == 1 {
            assert(all[1] == tail[0]);
        } else {
            assert(all[1] == t[1]);
        }
    }
}

proof fn lemma_first_index_append(q: Seq<char>, tail: Seq<char>)
    requires
        tail.len() > 0,
        tail[0] == '/',
    ensures
        first_index(q + tail, '/') == first_index(q, '/'),
    decreases q.len(),
{
    if q.len() == 0 {
        assert(q + tail =~= tail);
    } else if q[0] != '/' {
        assert((q + tail).drop_first() =~= q.drop_first() + tail);
        lemma_first_index_append(q.drop_first(), tail);
    }
}

proof fn lemma_parts_of_append(q: Seq<char>, tail: Seq<char>)
    requires
        q.len() > 0,
        q[0] != '/',
        tail.len() > 0,
        tail[0] == '/',
    ensures
        parts_of(q + tail) == parts_of(q) + parts_of(trim_separators(tail)),
    decreases q.len(),
{
    let k = first_index(q, '/');
    lemma_first_index(q, '/');
    lemma_first_index_append(q, tail);
    let all = q + tail;
    assert(all[0] == q[0]);
    assert(all.take(k) =~= q.take(k));
    let rest = q.skip(k);
    assert(all.skip(k) =~= rest + tail);
    lemma_trim_append(rest, tail);
    lemma_trim_separators(rest);
    let next = after_part(q);
    if next.len() > 0 {
        lemma_parts_of_append(next, tail);
        assert(parts_of(all) =~= parts_of(q) + parts_of(trim_separators(tail)));
    } else {
        assert(parts_of(next) =~= Seq::<Seq<char>>::empty());
        assert(parts_of(all) =~= parts_of(q) + parts_of(trim_separators(tail)));
    }
}

/// The components of a path with more behind it are its own and those of what is behind it.
pub proof fn lemma_parts_append(p: Seq<char>, tail: Seq<char>)
    requires
        p.len() > 0,
        tail.len() > 0,
        tail[0] == '/',
    ensures
        parts(p + tail) == parts(p) + parts(tail),
        is_absolute(p + tail) == is_absolute(p),
{
    let all = p + tail;
    assert(all[0] == p[0]);
    if is_absolute(p) {
        lemma_trim_append(p, tail);
        lemma_trim_separators(p);
        if trim_separators(p).len() > 0 {
            lemma_parts_of_append(trim_separators(p), tail);
        } else {
            assert(parts(all) =~= parts(p) + parts(tail));
        }
    } else {
        lemma_parts_of_append(p, tail);
    }
}

/// Leaving out separators and components `.` at its end changes no component of a path.
pub proof fn lemma_trimmed_path_is_the_same(p: Seq<char>)
    ensures
        parts(trim_path_end(p)) == parts(p),
        is_absolute(trim_path_end(p)) == is_absolute(p),
    decreases p.len(),
{
    if p.len() >= 2 && (p.last() == '/' || (p.last() == '.' && p[p.len() - 2] == '/')) {
        let shorter = p.drop_last();
        lemma_trimmed_path_is_the_same(shorter);
        assert(shorter[0] == p[0]);
        if p.last() == '/' {
            assert(p =~= shorter + seq!['/']);
            lemma_parts_append(shorter, seq!['/']);
            lemma_no_parts();
            assert(parts(p) =~= parts(shorter));
        } else {
            let front = p.take(p.len() - 2);
            assert(p =~= front + seq!['/', '.']);
            assert(shorter =~= front + seq!['/']);
            lemma_no_parts();
            if front.len() > 0 {
                lemma_parts_append(front, seq!['/', '.']);
                lemma_parts_append(front, seq!['/']);
                assert(parts(p) =~= parts(shorter));
            } else {
                assert(p =~= seq!['/', '.']);
                assert(shorter =~= seq!['/']);
            }
        }
    }
}

proof fn lemma_no_parts()
    ensures
        parts(seq!['/']) == Seq::<Seq<char>>::empty(),
        parts(seq!['/', '.']) == Seq::<Seq<char>>::empty(),
{
    reveal_with_fuel(trim_separators, 3);
    let root = seq!['/'];
    let dot = seq!['/', '.'];
    assert(root.drop_first() =~= Seq::<char>::empty());
    assert(dot.drop_first() =~= seq!['.']);
    assert(dot.drop_first().drop_first() =~= Seq::<char>::empty());
    assert(parts(root) =~= Seq::<Seq<char>>::empty());
    assert(parts(dot) =~= Seq::<Seq<char>>::empty());
}

/// Whether `name` can be the name of a file.
pub open spec fn is_bare_name(name: Seq<char>) -> bool {
    name.len() > 0 && !name.contains('/') && name != seq!['.'] && name != seq!['.', '.']
}

/// A file in a folder has its name there, behind the components of the folder, and the folder is
/// what holds it.
pub proof fn lemma_file_in_folder(folder: Seq<char>, name: Seq<char>)
    requires
        is_bare_name(name),
    ensures
        name_of(joined(folder, name)) == Some(name),
        parts(joined(folder, name)) == parts(folder).push(name),
        is_absolute(joined(folder, name)) == is_absolute(folder),
        lies_in(joined(folder, name), folder),
        parent_of(joined(folder, name)) matches Some(above) && parts(above) == parts(folder)
            && is_absolute(above) == is_absolute(folder),
{
    assert(name[0] != '/') by {
        if name[0] == '/' {
            assert(name.contains('/'));
        }
    }
    let path = joined(folder, name);
    let tail = seq!['/'] + name;
    lemma_name_is_one_part(name);
    assert(tail.drop_first() =~= name);
    assert(trim_separators(tail) == trim_separators(name));
    assert(name[0] == '.' && name.len() > 1 ==> name[1] != '/') by {
        if name.len() > 1 && name[1] == '/' {
            assert(name.contains('/'));
        }
    }
    assert(name[0] == '.' && name.len() == 1 ==> name =~= seq!['.']);
    assert(trim_separators(name) == name);
    assert(parts(tail) == seq![name]);
    let head = if folder.len() > 0 && folder.last() != '/' {
        folder.push('/')
    } else {
        folder
    };
    assert(path =~= head + name);
    if folder.len() == 0 {
        assert(path =~= name);
        assert(parts(folder) =~= Seq::<Seq<char>>::empty());
        assert(parts(path) =~= parts(folder).push(name));
    } else if folder.last() != '/' {
        assert(path =~= folder + tail);
        lemma_parts_append(folder, tail);
        assert(parts(path) =~= parts(folder).push(name));
    } else {
        let above = folder.drop_last();
        assert(folder =~= above + seq!['/']);
        assert(path =~= above + tail);
        lemma_no_parts();
        if above.len() > 0 {
            lemma_parts_append(above, tail);
            lemma_parts_append(above, seq!['/']);
            assert(parts(path) =~= parts(folder).push(name));
        } else {
            assert(folder =~= seq!['/']);
            assert(path =~= tail);
            assert(parts(path) =~= parts(folder).push(name));
        }
    }
    lemma_last_part(head, name);
    assert(path.take(head.len() as int) =~= head);
    lemma_trimmed_path_is_the_same(head);
    if folder.len() > 0 && folder.last() != '/' {
        lemma_no_parts();
        assert(head =~= folder + seq!['/']);
        lemma_parts_append(folder, seq!['/']);
        assert(parts(head) =~= parts(folder));
    }
}

proof fn lemma_name_is_one_part(name: Seq<char>)
    requires
        is_bare_name(name),
    ensures
        parts_of(name) == seq![name],
{
    lemma_first_index(name, '/');
    assert(name[0] != '/') by {
        if name[0] == '/' {
            assert(name.contains('/'));
        }
    }
    assert(name.take(name.len() as int) =~= name);
    assert(name.skip(name.len() as int) =~= Seq::<char>::empty());
    assert(parts_of(Seq::<char>::empty()) =~= Seq::<Seq<char>>::empty());
    assert(parts_of(name) =~= seq![name]);
}

proof fn lemma_last_part(head: Seq<char>, name: Seq<char>)
    requires
        is_bare_name(name),
        head.len() == 0 || head.last() == '/',
    ensures
        trim_path_end(head + name) == head + name,
        last_part(head + name) == name,
        last_index(head + name, '/') + 1 == head.len(),
{
    let p = head + name;
    assert(p.last() == name.last());
    assert(p.last() != '/') by {
        if name.last() == '/' {
            assert(name[name.len() - 1] == '/');
            assert(name.contains('/'));
        }
    }
    if name.len() >= 2 {
        assert(p[p.len() - 2] == name[name.len() - 2]);
        assert(name[name.len() - 2] != '/') by {
            if name[name.len() - 2] == '/' {
                assert(name.contains('/'));
            }
        }
    } else {
        assert(name.last() == '.' ==> name =~= seq!['.']);
    }
    lemma_last_index(p, '/');
    let i = last_index(p, '/');
    if i >= head.len() {
        assert(name[i - head.len()] == '/');
        assert(name.contains('/'));
    }
    if head.len() > 0 {
        assert(p[head.len() - 1] == '/');
    }
    assert(p.skip(head.len() as int) =~= name);
}

/// A file name is parted at its last dot into stem and extension; a name without a dot, or with one
/// only in front, is all stem.
pub proof fn lemma_stem_and_extension(
    folder: Seq<char>,
    stem: Seq<char>,
    extension: Seq<char>,
    plain: Seq<char>,
)
    ensures
        stem.len() > 0 && extension.len() > 0 && !stem.contains('/') && !extension.contains('/')
            && !extension.contains('.') ==> {
            let path = joined(folder, stem.push('.') + extension);
            &&& stem_of(path) == Some(stem)
            &&& extension_of(path) == Some(extension)
        },
        is_bare_name(plain) && !plain.drop_first().contains('.') ==> {
            let path = joined(folder, plain);
            &&& stem_of(path) == Some(plain)
            &&& extension_of(path) is None
        },
{
    if stem.len() > 0 && extension.len() > 0 && !stem.contains('/') && !extension.contains('/')
        && !extension.contains('.') {
        let name = stem.push('.') + extension;
        assert(!name.contains('/')) by {
            if name.contains('/') {
                let i = choose|i: int| 0 <= i < name.len() && name[i] == '/';
                if i < stem.len() {
                    assert(stem[i] == '/');
                } else {
                    assert(extension[i - stem.len() - 1] == '/');
                }
            }
        }
        assert(name.len() >= 3);
        lemma_file_in_folder(folder, name);
        lemma_last_index(name, '.');
        let i = last_index(name, '.');
        assert(name[stem.len() as int] == '.');
        if i > stem.len() {
            assert(extension[i - stem.len() - 1] == '.');
            assert(extension.contains('.'));
        }
        assert(name.take(stem.len() as int) =~= stem);
        assert(name.skip(stem.len() as int + 1) =~= extension);
    }
    if is_bare_name(plain) && !plain.drop_first().contains('.') {
        lemma_file_in_folder(folder, plain);
        lemma_last_index(plain, '.');
        let i = last_index(plain, '.');
        if i > 0 {
            assert(plain.drop_first()[i - 1] == '.');
            assert(plain.drop_first().contains('.'));
        }
    }
}

/// A folder is above the files below it, whatever folders lie between; what is below it is named by
/// the components behind those of the folder.
pub proof fn lemma_under_folder(folder: Seq<char>, tail: Seq<char>, other: Seq<char>)
    requires
        folder.len() > 0,
        tail.len() > 0,
        tail[0] == '/',
    ensures
        is_under(folder + tail, folder),
        parts(relative_to(folder + tail, folder)) == parts(tail) || parts(tail).len() == 0,
        is_under(other, folder) <==> is_absolute(other) == is_absolute(folder) && parts(
            folder,
        ).is_prefix_of(parts(other)),
        is_under(folder, folder),
{
    let path = folder + tail;
    lemma_parts_append(folder, tail);
    assert(parts(path).take(parts(folder).len() as int) =~= parts(folder));
    assert(parts(folder).is_prefix_of(parts(path)));
    let q = body(path);
    let n = parts(folder).len();
    if parts(tail).len() > 0 {
        lemma_trim_separators(path);
        lemma_rest_after(q, n);
        let rest = rest_after(q, n);
        assert(parts_of(q).skip(n as int) =~= parts(tail));
        assert(parts_of(rest) == parts(tail));
        assert(q.len() > 0 && q[0] != '/') by {
            if q.len() == 0 || q[0] == '/' {
                assert(parts_of(q).len() == 0);
            }
        }
        assert(rest.len() > 0);
        assert(!is_absolute(rest));
        lemma_trimmed_path_is_the_same(rest);
    }
}

/// The components of a path are those of the folder that holds it and its last one; a path without
/// such a folder has none.
pub proof fn lemma_parent_parts(p: Seq<char>)
    ensures
        parent_of(p) matches Some(above) ==> parts(p) == parts(above).push(last_part(p)),
        parent_of(p) is None ==> parts(p).len() == 0,
{
    let q = trim_path_end(p);
    lemma_trimmed_path_is_the_same(p);
    lemma_trim_path_end_stops(p);
    lemma_last_index(q, '/');
    let l = last_index(q, '/');
    let name = q.skip(l + 1);
    let head = q.take(l + 1);
    assert(q =~= head + name);
    if name.len() == 0 {
        if q.len() > 0 {
            assert(q.last() == '/');
            assert(q =~= seq!['/']);
            lemma_no_parts();
        } else {
            assert(parts(q).len() == 0);
        }
    } else {
        assert(!name.contains('/')) by {
            if name.contains('/') {
                let i = choose|i: int| 0 <= i < name.len() && name[i] == '/';
                assert(q[l + 1 + i] == '/');
            }
        }
        lemma_first_index(name, '/');
        assert(name[0] != '/') by {
            assert(name.contains(name[0]));
        }
        assert(name.take(name.len() as int) =~= name);
        assert(name.skip(name.len() as int) =~= Seq::<char>::empty());
        assert(parts_of(Seq::<char>::empty()) =~= Seq::<Seq<char>>::empty());
        assert(parts_of(name) =~= seq![name]);
        lemma_trimmed_path_is_the_same(head);
        if l < 0 {
            assert(head =~= Seq::<char>::empty());
            assert(q =~= name);
            assert(parts(head) =~= Seq::<Seq<char>>::empty());
            assert(parts(p) =~= parts(head).push(name));
        } else {
            let tail = seq!['/'] + name;
            assert(tail.drop_first() =~= name);
            assert(name.len() == 1 ==> name[0] != '.') by {
                if name.len() == 1 && name[0] == '.' {
                    assert(q.last() == name[0]);
                    assert(q[q.len() - 2] == '/');
                }
            }
            assert(name.len() > 1 ==> name[1] != '/') by {
                if name.len() > 1 {
                    assert(name.contains(name[1]));
                }
            }
            reveal_with_fuel(trim_separators, 3);
            assert(parts(tail) =~= seq![name]);
            let folder = q.take(l);
            if l == 0 {
                assert(head =~= seq!['/']);
                assert(q =~= tail);
                lemma_no_parts();
            } else {
                assert(q =~= folder + tail);
                assert(head =~= folder + seq!['/']);
                lemma_parts_append(folder, tail);
                lemma_parts_append(folder, seq!['/']);
                lemma_no_parts();
            }
            assert(parts(p) =~= parts(head).push(name));
        }
    }
}

/// A trimmed path ends with neither a separator nor a component `.`, unless it is the root or `.`.
proof fn lemma_trim_path_end_stops(p: Seq<char>)
    ensures
        ({
            let q = trim_path_end(p);
            q.len() >= 2 ==> q.last() != '/' && !(q.last() == '.' && q[q.len() - 2] == '/')
        }),
    decreases p.len(),
{
    if p.len() >= 2 && (p.last() == '/' || (p.last() == '.' && p[p.len() - 2] == '/')) {
        lemma_trim_path_end_stops(p.drop_last());
    }
}

/// A file in a folder has the path of the folder, a separator and its name; the folder's path, without
/// separators at its end, is that of the folder that holds it, and its name is its path from there.
pub proof fn lemma_path_in_folder(folder: Seq<char>, name: Seq<char>)
    requires
        is_bare_name(name),
        trim_path_end(folder) == folder,
    ensures
        folder.len() > 0 && folder != seq!['/'] ==> joined(folder, name) == folder + seq!['/']
            + name,
        folder.len() == 0 ==> joined(folder, name) == name,
        folder == seq!['/'] ==> joined(folder, name) == seq!['/'] + name,
        parent_of(joined(folder, name)) == Some(folder),
        relative_to(joined(folder, name), folder) == name,
{
    lemma_trim_path_end_stops(folder);
    let path = joined(folder, name);
    assert(name[0] != '/') by {
        assert(name.contains(name[0]));
    }
    let head = if folder.len() > 0 && folder.last() != '/' {
        folder.push('/')
    } else {
        folder
    };
    if folder.len() > 0 && folder.last() == '/' {
        assert(folder =~= seq!['/']);
    }
    assert(path =~= head + name);
    assert(folder.push('/') =~= folder + seq!['/']);
    lemma_last_part(head, name);
    assert(path.take(head.len() as int) =~= head);
    if folder.len() > 0 && folder.last() != '/' {
        assert(head.drop_last() =~= folder);
    }
    lemma_file_in_folder(folder, name);
    lemma_nothing_between(path, folder);
    let rest = relative_to(path, folder);
    let body_rest = rest_after(body(path), parts(folder).len());
    lemma_trim_again_path(if folder.len() == 0 { path } else { body_rest });
    let q = trim_path_end(rest);
    assert(q == rest);
    lemma_last_index(q, '/');
    let l = last_index(q, '/');
    lemma_trim_keeps_something(q.take(l + 1));
    assert(q.take(l + 1).len() == 0);
    assert(q.skip(0) =~= q);
    assert(last_part(rest) == rest);
    lemma_parent_parts(rest);
    assert(parts(Seq::<char>::empty()).len() == 0);
    assert(parts(rest) == parts(Seq::<char>::empty()).push(rest));
    assert(parts(rest)[0] == rest);
    assert(parts(path) == parts(folder).push(name));
    if folder.len() == 0 {
        assert(path =~= name);
    } else {
        lemma_trimmed_path_is_the_same(body_rest);
        lemma_trim_separators(path);
        lemma_rest_after(body(path), parts(folder).len());
        assert(parts(path).skip(parts(folder).len() as int)[0] == name);
        if is_absolute(body_rest) {
            assert(parts_of(body_rest).len() == 0);
        }
    }
}

proof fn lemma_trim_again_path(p: Seq<char>)
    ensures
        trim_path_end(trim_path_end(p)) == trim_path_end(p),
    decreases p.len(),
{
    if p.len() >= 2 && (p.last() == '/' || (p.last() == '.' && p[p.len() - 2] == '/')) {
        lemma_trim_again_path(p.drop_last());
    }
}

proof fn lemma_trim_keeps_something(p: Seq<char>)
    ensures
        p.len() > 0 ==> trim_path_end(p).len() > 0,
    decreases p.len(),
{
    if p.len() >= 2 && (p.last() == '/' || (p.last() == '.' && p[p.len() - 2] == '/')) {
        lemma_trim_keeps_something(p.drop_last());
    }
}

} // verus!
