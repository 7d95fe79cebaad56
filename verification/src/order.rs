//! Orders on texts and sort keys, and a stable sort.
use crate::text::{ascii_lower, chars_of, same_text, to_ascii_lower};
use vstd::prelude::*;

verus! {

broadcast use vstd::string::group_string_axioms;

/// The order of texts by their characters' code points, shorter prefixes first.
pub open spec fn text_lt(a: Seq<char>, b: Seq<char>) -> bool
    decreases b.len(),
{
    if b.len() == 0 {
        false
    } else if a.len() == 0 {
        true
    } else if a[0] == b[0] {
        text_lt(a.drop_first(), b.drop_first())
    } else {
        a[0] < b[0]
    }
}

/// No text is less than itself.
pub proof fn lemma_text_lt_irreflexive(a: Seq<char>)
    ensures
        !text_lt(a, a),
    decreases a.len(),
{
    if a.len() > 0 {
        lemma_text_lt_irreflexive(a.drop_first());
    }
}

/// The order of texts is transitive.
pub proof fn lemma_text_lt_transitive(a: Seq<char>, b: Seq<char>, c: Seq<char>)
    requires
        text_lt(a, b),
        text_lt(b, c),
    ensures
        text_lt(a, c),
    decreases c.len(),
{
    if a.len() > 0 && b.len() > 0 && c.len() > 0 && a[0] == b[0] && b[0] == c[0] {
        lemma_text_lt_transitive(a.drop_first(), b.drop_first(), c.drop_first());
    }
}

/// Two different texts are ordered one way or the other.
pub proof fn lemma_text_lt_total(a: Seq<char>, b: Seq<char>)
    ensures
        a == b || text_lt(a, b) || text_lt(b, a),
    decreases a.len(),
{
    if a.len() > 0 && b.len() > 0 && a[0] == b[0] {
        lemma_text_lt_total(a.drop_first(), b.drop_first());
        if a.drop_first() == b.drop_first() {
            assert(a =~= seq![a[0]] + a.drop_first());
            assert(b =~= seq![b[0]] + b.drop_first());
        }
    } else if a.len() == 0 && b.len() == 0 {
        assert(a =~= b);
    }
}

/// Two texts are never ordered both ways.
pub proof fn lemma_text_lt_asymmetric(a: Seq<char>, b: Seq<char>)
    requires
        text_lt(a, b),
    ensures
        !text_lt(b, a),
        a != b,
{
    lemma_text_lt_irreflexive(a);
    if text_lt(b, a) {
        lemma_text_lt_transitive(a, b, a);
    }
}

/// Whether the characters of `a` come before those of `b`.
pub fn chars_less(a: &[char], b: &[char]) -> (r: bool)
    ensures
        r == text_lt(a@, b@),
{
    let mut i: usize = 0;
    assert(a@.skip(0) =~= a@);
    assert(b@.skip(0) =~= b@);
    while i < a.len() && i < b.len()
        invariant
            i <= a@.len(),
            i <= b@.len(),
            text_lt(a@, b@) == text_lt(a@.skip(i as int), b@.skip(i as int)),
        decreases a.len() - i,
    {
        if a[i] != b[i] {
            return a[i] < b[i];
        }
        assert(a@.skip(i as int).drop_first() =~= a@.skip(i + 1));
        assert(b@.skip(i as int).drop_first() =~= b@.skip(i + 1));
        i += 1;
    }
    i < b.len()
}

/// Whether the text `a` comes before `b`.
pub fn text_less(a: &str, b: &str) -> (r: bool)
    ensures
        r == text_lt(a@, b@),
{
    let left = chars_of(a);
    let right = chars_of(b);
    chars_less(left.as_slice(), right.as_slice())
}

/// The order of lists of texts: by the first texts that differ, shorter lists first.
pub open spec fn texts_lt(a: Seq<Seq<char>>, b: Seq<Seq<char>>) -> bool
    decreases b.len(),
{
    if b.len() == 0 {
        false
    } else if a.len() == 0 {
        true
    } else if a[0] == b[0] {
        texts_lt(a.drop_first(), b.drop_first())
    } else {
        text_lt(a[0], b[0])
    }
}

proof fn lemma_texts_lt_irreflexive(a: Seq<Seq<char>>)
    ensures
        !texts_lt(a, a),
    decreases a.len(),
{
    if a.len() > 0 {
        lemma_texts_lt_irreflexive(a.drop_first());
    }
}

proof fn lemma_texts_lt_transitive(a: Seq<Seq<char>>, b: Seq<Seq<char>>, c: Seq<Seq<char>>)
    requires
        texts_lt(a, b),
        texts_lt(b, c),
    ensures
        texts_lt(a, c),
    decreases c.len(),
{
    if a.len() > 0 && b.len() > 0 && c.len() > 0 {
        if a[0] == b[0] && b[0] == c[0] {
            lemma_texts_lt_transitive(a.drop_first(), b.drop_first(), c.drop_first());
        } else if a[0] != b[0] && b[0] != c[0] {
            lemma_text_lt_transitive(a[0], b[0], c[0]);
            lemma_text_lt_irreflexive(a[0]);
        }
    }
}

proof fn lemma_texts_lt_total(a: Seq<Seq<char>>, b: Seq<Seq<char>>)
    ensures
        a == b || texts_lt(a, b) || texts_lt(b, a),
    decreases a.len(),
{
    if a.len() > 0 && b.len() > 0 {
        lemma_text_lt_total(a[0], b[0]);
        if a[0] == b[0] {
            lemma_texts_lt_total(a.drop_first(), b.drop_first());
            if a.drop_first() == b.drop_first() {
                assert(a =~= seq![a[0]] + a.drop_first());
                assert(b =~= seq![b[0]] + b.drop_first());
            }
        }
    } else if a.len() == 0 && b.len() == 0 {
        assert(a =~= b);
    }
}

/// What a sort looks at: a number first, then a list of texts.
pub struct SortKey {
    pub rank: i128,
    pub parts: Vec<String>,
}

/// The mathematical value of a [`SortKey`].
pub ghost struct KeyView {
    pub rank: int,
    pub parts: Seq<Seq<char>>,
}

impl View for SortKey {
    type V = KeyView;

    open spec fn view(&self) -> KeyView {
        KeyView { rank: self.rank as int, parts: self.parts.deep_view() }
    }
}

/// The order of keys: by number, then by the texts.
pub open spec fn key_lt(a: KeyView, b: KeyView) -> bool {
    ||| a.rank < b.rank
    ||| a.rank == b.rank && texts_lt(a.parts, b.parts)
}

/// The order of keys, equal keys included.
pub open spec fn key_le(a: KeyView, b: KeyView) -> bool {
    a == b || key_lt(a, b)
}

/// Keys are totally ordered.
pub proof fn lemma_key_order(a: KeyView, b: KeyView)
    ensures
        key_le(a, b) || key_lt(b, a),
        !(key_le(a, b) && key_lt(b, a)),
{
    lemma_texts_lt_total(a.parts, b.parts);
    lemma_texts_lt_irreflexive(a.parts);
    if texts_lt(a.parts, b.parts) && texts_lt(b.parts, a.parts) {
        lemma_texts_lt_transitive(a.parts, b.parts, a.parts);
    }
}

/// The order of keys is transitive.
pub proof fn lemma_key_le_transitive(a: KeyView, b: KeyView, c: KeyView)
    requires
        key_le(a, b),
        key_le(b, c),
    ensures
        key_le(a, c),
{
    if texts_lt(a.parts, b.parts) && texts_lt(b.parts, c.parts) {
        lemma_texts_lt_transitive(a.parts, b.parts, c.parts);
    }
}

/// Whether the list of texts `a` comes before `b`.
pub fn texts_less(a: &Vec<String>, b: &Vec<String>) -> (r: bool)
    ensures
        r == texts_lt(a.deep_view(), b.deep_view()),
{
    let ghost left = a.deep_view();
    let ghost right = b.deep_view();
    let mut i: usize = 0;
    assert(left.skip(0) =~= left);
    assert(right.skip(0) =~= right);
    while i < a.len() && i < b.len()
        invariant
            left == a.deep_view(),
            right == b.deep_view(),
            i <= left.len(),
            i <= right.len(),
            texts_lt(left, right) == texts_lt(left.skip(i as int), right.skip(i as int)),
        decreases a.len() - i,
    {
        assert(left.skip(i as int)[0] == a@[i as int]@);
        assert(right.skip(i as int)[0] == b@[i as int]@);
        if !same_text(a[i].as_str(), b[i].as_str()) {
            return text_less(a[i].as_str(), b[i].as_str());
        }
        assert(left.skip(i as int).drop_first() =~= left.skip(i + 1));
        assert(right.skip(i as int).drop_first() =~= right.skip(i + 1));
        i += 1;
    }
    i < b.len()
}

/// Whether the key `a` comes before `b`.
pub fn key_less(a: &SortKey, b: &SortKey) -> (r: bool)
    ensures
        r == key_lt(a@, b@),
{
    if a.rank != b.rank {
        return a.rank < b.rank;
    }
    texts_less(&a.parts, &b.parts)
}

/// `s` with `x` put after the elements that its key does not come before.
pub open spec fn insert_by<T>(s: Seq<T>, x: T, key: spec_fn(T) -> KeyView) -> Seq<T>
    decreases s.len(),
{
    if s.len() == 0 || key_le(key(s.last()), key(x)) {
        s.push(x)
    } else {
        insert_by(s.drop_last(), x, key).push(s.last())
    }
}

/// The elements of `s` in the order of their keys, equal keys in the order of `s`.
pub open spec fn sorted_by<T>(s: Seq<T>, key: spec_fn(T) -> KeyView) -> Seq<T>
    decreases s.len(),
{
    if s.len() == 0 {
        s
    } else {
        insert_by(sorted_by(s.drop_last(), key), s.last(), key)
    }
}

/// Whether the keys of `s` never go down.
pub open spec fn is_sorted_by<T>(s: Seq<T>, key: spec_fn(T) -> KeyView) -> bool {
    forall|i: int, j: int| 0 <= i <= j < s.len() ==> #[trigger] key_le(key(s[i]), key(s[j]))
}

proof fn lemma_insert_by_sorted<T>(s: Seq<T>, x: T, key: spec_fn(T) -> KeyView)
    requires
        is_sorted_by(s, key),
    ensures
        is_sorted_by(insert_by(s, x, key), key),
        insert_by(s, x, key).to_multiset() == s.to_multiset().insert(x),
        insert_by(s, x, key).len() == s.len() + 1,
        forall|y: T| #[trigger] insert_by(s, x, key).contains(y) ==> s.contains(y) || y == x,
    decreases s.len(),
{
    broadcast use vstd::seq_lib::group_to_multiset_ensures;

    let r = insert_by(s, x, key);
    if s.len() == 0 || key_le(key(s.last()), key(x)) {
        assert forall|i: int, j: int| 0 <= i <= j < r.len() implies #[trigger] key_le(
            key(r[i]),
            key(r[j]),
        ) by {
            if j == s.len() && i < s.len() {
                assert(key_le(key(s[i]), key(s[s.len() - 1])));
                lemma_key_le_transitive(key(s[i]), key(s.last()), key(x));
            }
        }
        assert forall|y: T| #[trigger] r.contains(y) implies s.contains(y) || y == x by {
            let i = choose|i: int| 0 <= i < r.len() && r[i] == y;
            if i < s.len() {
                assert(s[i] == y);
            }
        }
    } else {
        let front = insert_by(s.drop_last(), x, key);
        lemma_key_order(key(s.last()), key(x));
        assert(is_sorted_by(s.drop_last(), key)) by {
            assert forall|i: int, j: int|
                0 <= i <= j < s.drop_last().len() implies #[trigger] key_le(
                key(s.drop_last()[i]),
                key(s.drop_last()[j]),
            ) by {
                assert(key_le(key(s[i]), key(s[j])));
            }
        }
        lemma_insert_by_sorted(s.drop_last(), x, key);
        assert forall|i: int, j: int| 0 <= i <= j < r.len() implies #[trigger] key_le(
            key(r[i]),
            key(r[j]),
        ) by {
            if j < front.len() {
                assert(key_le(key(front[i]), key(front[j])));
            } else if i < front.len() {
                assert(front.contains(front[i]));
                if front[i] != x {
                    let k = choose|k: int| 0 <= k < s.drop_last().len() && s.drop_last()[k] == front[i];
                    assert(key_le(key(s[k]), key(s[s.len() - 1])));
                }
            }
        }
        assert(s =~= s.drop_last().push(s.last()));
        assert(r.to_multiset() =~= s.to_multiset().insert(x));
        assert forall|y: T| #[trigger] r.contains(y) implies s.contains(y) || y == x by {
            let i = choose|i: int| 0 <= i < r.len() && r[i] == y;
            if i < front.len() {
                assert(front.contains(y));
                if y != x {
                    let k = choose|k: int| 0 <= k < s.drop_last().len() && s.drop_last()[k] == y;
                    assert(s[k] == y);
                }
            } else {
                assert(s[s.len() - 1] == y);
            }
        }
    }
}

/// Sorting puts the keys in order and keeps every element.
pub proof fn lemma_sorted_by<T>(s: Seq<T>, key: spec_fn(T) -> KeyView)
    ensures
        is_sorted_by(sorted_by(s, key), key),
        sorted_by(s, key).to_multiset() == s.to_multiset(),
        sorted_by(s, key).len() == s.len(),
        forall|y: T| #[trigger] sorted_by(s, key).contains(y) <==> s.contains(y),
    decreases s.len(),
{
    broadcast use vstd::seq_lib::group_to_multiset_ensures;

    if s.len() > 0 {
        lemma_sorted_by(s.drop_last(), key);
        lemma_insert_by_sorted(sorted_by(s.drop_last(), key), s.last(), key);
        assert(s =~= s.drop_last().push(s.last()));
    }
    assert forall|y: T| #[trigger] sorted_by(s, key).contains(y) <==> s.contains(y) by {
        assert(sorted_by(s, key).contains(y) <==> sorted_by(s, key).to_multiset().count(y) > 0);
        assert(s.contains(y) <==> s.to_multiset().count(y) > 0);
    }
}

proof fn lemma_insert_by_stable<T>(s: Seq<T>, x: T, key: spec_fn(T) -> KeyView, k: KeyView)
    requires
        is_sorted_by(s, key),
    ensures
        insert_by(s, x, key).filter(|y: T| key(y) == k) == s.push(x).filter(|y: T| key(y) == k),
    decreases s.len(),
{
    reveal(Seq::filter);
    let p = |y: T| key(y) == k;
    if s.len() > 0 && !key_le(key(s.last()), key(x)) {
        let front = s.drop_last();
        assert(is_sorted_by(front, key)) by {
            assert forall|i: int, j: int| 0 <= i <= j < front.len() implies #[trigger] key_le(
                key(front[i]),
                key(front[j]),
            ) by {
                assert(key_le(key(s[i]), key(s[j])));
            }
        }
        lemma_insert_by_stable(front, x, key, k);
        assert(insert_by(s, x, key).drop_last() =~= insert_by(front, x, key));
        assert(front.push(x).drop_last() =~= front);
        assert(s.push(x).drop_last() =~= s);
        lemma_key_order(key(s.last()), key(x));
        assert(insert_by(front, x, key).filter(p) == front.push(x).filter(p));
        assert(insert_by(s, x, key).last() == s.last());
        assert(key(x) != key(s.last()));
        assert(front.push(x).filter(p) == if p(x) {
            front.filter(p).push(x)
        } else {
            front.filter(p)
        });
        assert(s.filter(p) == if p(s.last()) {
            front.filter(p).push(s.last())
        } else {
            front.filter(p)
        });
        assert(insert_by(s, x, key).filter(p) =~= s.push(x).filter(p));
    }
}

/// Sorting keeps the order of elements with equal keys.
pub proof fn lemma_sorted_by_stable<T>(s: Seq<T>, key: spec_fn(T) -> KeyView, k: KeyView)
    ensures
        sorted_by(s, key).filter(|y: T| key(y) == k) == s.filter(|y: T| key(y) == k),
    decreases s.len(),
{
    reveal(Seq::filter);
    if s.len() > 0 {
        let p = |y: T| key(y) == k;
        let front = sorted_by(s.drop_last(), key);
        lemma_sorted_by_stable(s.drop_last(), key, k);
        lemma_sorted_by(s.drop_last(), key);
        lemma_insert_by_stable(front, s.last(), key, k);
        assert(front.push(s.last()).drop_last() =~= front);
        assert(sorted_by(s, key).filter(p) =~= s.filter(p));
    }
}

/// Sorts `items` by `keys`, one key for each item.
pub(crate) fn sort_with_keys<T: DeepView>(
    items: Vec<T>,
    keys: Vec<SortKey>,
    Ghost(key): Ghost<spec_fn(<T as DeepView>::V) -> KeyView>,
) -> (r: Vec<T>)
    requires
        items@.len() == keys@.len(),
        forall|i: int| #![trigger items.deep_view()[i]]
            0 <= i < items@.len() ==> keys@[i]@ == key(items.deep_view()[i]),
    ensures
        r.deep_view() == sorted_by(items.deep_view(), key),
{
    let mut items = items;
    let mut keys = keys;
    let ghost all = items.deep_view();
    let ghost all_keys = keys@;
    let mut sorted: Vec<T> = Vec::new();
    let mut sorted_keys: Vec<SortKey> = Vec::new();
    let total: usize = items.len();
    let mut done: usize = 0;
    proof {
        assert(all.take(0) =~= Seq::empty());
        assert(sorted.deep_view() =~= Seq::empty());
    }
    while done < total
        invariant
            done <= total,
            total == all.len(),
            all_keys.len() == total,
            items@.len() == total - done,
            keys@.len() == total - done,
            forall|i: int| #![trigger items@[i]]
                0 <= i < items@.len() ==> items@[i].deep_view() == all[done + i],
            forall|i: int| #![trigger keys@[i]]
                0 <= i < keys@.len() ==> keys@[i] == all_keys[done + i],
            forall|i: int| #![trigger all[i]] 0 <= i < total ==> all_keys[i]@ == key(all[i]),
            sorted.deep_view() == sorted_by(all.take(done as int), key),
            sorted_keys@.len() == sorted@.len(),
            forall|i: int| #![trigger sorted_keys@[i]]
                0 <= i < sorted@.len() ==> sorted_keys@[i]@ == key(sorted.deep_view()[i]),
        decreases total - done,
    {
        let item = items.remove(0);
        let item_key = keys.remove(0);
        let ghost x = all[done as int];
        let ghost before = sorted.deep_view();
        assert(item.deep_view() == x);
        let mut at: usize = sorted.len();
        assert(before.take(at as int) =~= before);
        assert(insert_by(before, x, key) == insert_by(before.take(at as int), x, key)
            + before.skip(at as int));
        while 0 < at && key_less(&item_key, &sorted_keys[at - 1])
            invariant
                at <= sorted@.len(),
                before == sorted.deep_view(),
                sorted_keys@.len() == sorted@.len(),
                item_key@ == key(x),
                forall|i: int| #![trigger sorted_keys@[i]]
                    0 <= i < sorted@.len() ==> sorted_keys@[i]@ == key(
                        sorted.deep_view()[i],
                    ),
                insert_by(before, x, key) == insert_by(before.take(at as int), x, key)
                    + before.skip(at as int),
            decreases at,
        {
            proof {
                let front = before.take(at as int);
                lemma_key_order(key(front.last()), key(x));
                assert(front.last() == before[at - 1]);
                assert(front.drop_last() =~= before.take(at - 1));
                assert(insert_by(front, x, key) + before.skip(at as int) =~= insert_by(
                    before.take(at - 1),
                    x,
                    key,
                ) + before.skip(at - 1));
            }
            at -= 1;
        }
        proof {
            let front = before.take(at as int);
            if at > 0 {
                lemma_key_order(key(front.last()), key(x));
                assert(front.last() == before[at - 1]);
            }
            assert(insert_by(before, x, key) =~= front.push(x) + before.skip(at as int));
            assert(all.take(done + 1).drop_last() =~= all.take(done as int));
        }
        let ghost old_keys = sorted_keys@;
        sorted.insert(at, item);
        sorted_keys.insert(at, item_key);
        proof {
            assert(sorted.deep_view() =~= insert_by(before, x, key));
            assert forall|i: int| #![trigger sorted_keys@[i]]
                0 <= i < sorted@.len() implies sorted_keys@[i]@ == key(
                sorted.deep_view()[i],
            ) by {
                if i < at {
                    assert(sorted_keys@[i] == old_keys[i]);
                    assert(sorted.deep_view()[i] == before[i]);
                } else if i > at {
                    assert(sorted_keys@[i] == old_keys[i - 1]);
                    assert(sorted.deep_view()[i] == before[i - 1]);
                }
            }
        }
        done += 1;
    }
    assert(all.take(done as int) =~= all);
    sorted
}

/// Whether `q` lists the elements of `s`, each once, by ascending key.
pub open spec fn is_ordering<T>(q: Seq<T>, s: Set<T>, key: spec_fn(T) -> KeyView) -> bool {
    &&& forall|i: int, j: int| 0 <= i < j < q.len() ==> #[trigger] key_lt(key(q[i]), key(q[j]))
    &&& forall|x: T| #[trigger] s.contains(x) <==> q.contains(x)
}

/// The elements of `s` by ascending key.
pub open spec fn ordering<T>(s: Set<T>, key: spec_fn(T) -> KeyView) -> Seq<T> {
    choose|q: Seq<T>| is_ordering(q, s, key)
}

/// A set has at most one ordering.
pub proof fn lemma_ordering_unique<T>(
    p: Seq<T>,
    q: Seq<T>,
    s: Set<T>,
    key: spec_fn(T) -> KeyView,
)
    requires
        is_ordering(p, s, key),
        is_ordering(q, s, key),
    ensures
        p == q,
    decreases p.len(),
{
    if p.len() == 0 {
        if q.len() > 0 {
            assert(q.contains(q[0]));
            assert(s.contains(q[0]));
        }
        assert(p =~= q);
    } else {
        let a = p.last();
        assert(p.contains(a));
        assert(s.contains(a));
        assert(q.contains(a));
        let b = q.last();
        assert(q.contains(b));
        assert(s.contains(b));
        assert(p.contains(b));
        let i = choose|i: int| 0 <= i < q.len() && q[i] == a;
        let j = choose|j: int| 0 <= j < p.len() && p[j] == b;
        if i < q.len() - 1 {
            assert(key_lt(key(q[i]), key(q[q.len() - 1])));
            if j < p.len() - 1 {
                assert(key_lt(key(p[j]), key(p[p.len() - 1])));
            }
            lemma_key_order(key(b), key(a));
            assert(false);
        }
        lemma_ordering_drop_last(p, s, key);
        lemma_ordering_drop_last(q, s, key);
        lemma_ordering_unique(p.drop_last(), q.drop_last(), s.remove(a), key);
        assert(p =~= p.drop_last().push(a));
        assert(q =~= q.drop_last().push(a));
    }
}

proof fn lemma_ordering_drop_last<T>(p: Seq<T>, s: Set<T>, key: spec_fn(T) -> KeyView)
    requires
        is_ordering(p, s, key),
        p.len() > 0,
    ensures
        is_ordering(p.drop_last(), s.remove(p.last()), key),
{
    let front = p.drop_last();
    let rest = s.remove(p.last());
    assert forall|i: int, j: int| 0 <= i < j < front.len() implies #[trigger] key_lt(
        key(front[i]),
        key(front[j]),
    ) by {
        assert(key_lt(key(p[i]), key(p[j])));
    }
    assert forall|x: T| #[trigger] rest.contains(x) <==> front.contains(x) by {
        if rest.contains(x) {
            assert(p.contains(x));
            let i = choose|i: int| 0 <= i < p.len() && p[i] == x;
            assert(front[i] == x);
        }
        if front.contains(x) {
            let i = choose|i: int| 0 <= i < front.len() && front[i] == x;
            assert(p[i] == x);
            assert(p.contains(x));
            assert(key_lt(key(p[i]), key(p[p.len() - 1])));
            lemma_key_order(key(p.last()), key(x));
        }
    }
}

/// A list of the elements of `s` by ascending key is the ordering of `s`.
pub proof fn lemma_ordering<T>(q: Seq<T>, s: Set<T>, key: spec_fn(T) -> KeyView)
    requires
        is_ordering(q, s, key),
    ensures
        ordering(s, key) == q,
{
    let p = ordering(s, key);
    assert(is_ordering(p, s, key));
    lemma_ordering_unique(p, q, s, key);
}

/// Sorting a list without repeated keys gives the ordering of its elements.
pub proof fn lemma_sorted_by_is_ordering<T>(q: Seq<T>, s: Set<T>, key: spec_fn(T) -> KeyView)
    requires
        forall|i: int, j: int|
            0 <= i < q.len() && 0 <= j < q.len() && i != j ==> #[trigger] key(q[i])
                != #[trigger] key(q[j]),
        forall|x: T| #[trigger] s.contains(x) <==> q.contains(x),
    ensures
        sorted_by(q, key) == ordering(s, key),
        is_ordering(sorted_by(q, key), s, key),
    decreases q.len(),
{
    broadcast use vstd::seq_lib::group_to_multiset_ensures;

    let p = sorted_by(q, key);
    lemma_sorted_by(q, key);
    assert(q.no_duplicates()) by {
        assert forall|i: int, j: int| 0 <= i < q.len() && 0 <= j < q.len() && i != j implies q[i]
            != q[j] by {
            assert(key(q[i]) != key(q[j]));
        }
    }
    q.lemma_multiset_has_no_duplicates();
    p.lemma_multiset_has_no_duplicates_conv();
    assert forall|i: int, j: int| 0 <= i < j < p.len() implies #[trigger] key_lt(
        key(p[i]),
        key(p[j]),
    ) by {
        assert(key_le(key(p[i]), key(p[j])));
        assert(p.contains(p[i]) && p.contains(p[j]));
        assert(q.contains(p[i]) && q.contains(p[j]));
        let a = choose|a: int| 0 <= a < q.len() && q[a] == p[i];
        let b = choose|b: int| 0 <= b < q.len() && q[b] == p[j];
        assert(p[i] != p[j]);
        assert(key(q[a]) != key(q[b]));
    }
    lemma_ordering(p, s, key);
}

/// A finite set whose elements have different keys has an ordering.
pub proof fn lemma_ordering_exists<T>(s: Set<T>, key: spec_fn(T) -> KeyView)
    requires
        s.finite(),
        forall|x: T, y: T|
            s.contains(x) && s.contains(y) && #[trigger] key(x) == #[trigger] key(y) ==> x == y,
    ensures
        is_ordering(ordering(s, key), s, key),
{
    let q = lemma_listing(s);
    assert forall|i: int, j: int|
        0 <= i < q.len() && 0 <= j < q.len() && i != j implies #[trigger] key(q[i])
        != #[trigger] key(q[j]) by {
        assert(q.contains(q[i]) && q.contains(q[j]));
        assert(s.contains(q[i]) && s.contains(q[j]));
        assert(q[i] != q[j]);
    }
    lemma_sorted_by_is_ordering(q, s, key);
}

proof fn lemma_listing<T>(s: Set<T>) -> (q: Seq<T>)
    requires
        s.finite(),
    ensures
        q.no_duplicates(),
        forall|x: T| #[trigger] s.contains(x) <==> q.contains(x),
    decreases s.len(),
{
    if s.len() == 0 {
        assert(s =~= Set::empty());
        seq![]
    } else {
        let x = s.choose();
        let rest = lemma_listing(s.remove(x));
        let q = rest.push(x);
        assert forall|y: T| #[trigger] s.contains(y) <==> q.contains(y) by {
            crate::row_set::lemma_push_contains(rest, x, y);
            assert(s.remove(x).contains(y) <==> rest.contains(y));
        }
        assert(!rest.contains(x)) by {
            assert(!s.remove(x).contains(x));
        }
        assert forall|i: int, j: int| 0 <= i < q.len() && 0 <= j < q.len() && i != j implies q[i]
            != q[j] by {
            if i == rest.len() {
                assert(rest.contains(rest[j]));
            } else if j == rest.len() {
                assert(rest.contains(rest[i]));
            }
        }
        q
    }
}

/// Leaving elements out of an ordering gives the ordering of what is left.
pub proof fn lemma_ordering_filter<T>(
    q: Seq<T>,
    s: Set<T>,
    key: spec_fn(T) -> KeyView,
    p: spec_fn(T) -> bool,
)
    requires
        is_ordering(q, s, key),
    ensures
        is_ordering(q.filter(p), s.filter(p), key),
        ordering(s.filter(p), key) == q.filter(p),
{
    lemma_filter_ascends(q, key, p);
    assert forall|x: T| #[trigger] s.filter(p).contains(x) <==> q.filter(p).contains(x) by {
        lemma_filter_contains(q, p, x);
    }
    lemma_ordering(q.filter(p), s.filter(p), key);
}

/// A filtered sequence holds the elements that pass.
pub proof fn lemma_filter_contains<T>(q: Seq<T>, p: spec_fn(T) -> bool, x: T)
    ensures
        q.filter(p).contains(x) <==> q.contains(x) && p(x),
    decreases q.len(),
{
    reveal(Seq::filter);
    if q.len() > 0 {
        let front = q.drop_last();
        lemma_filter_contains(front, p, x);
        assert(q =~= front.push(q.last()));
        crate::row_set::lemma_push_contains(front, q.last(), x);
        crate::row_set::lemma_push_contains(front.filter(p), q.last(), x);
    }
}

/// Elements at the end that do not pass leave nothing in a filtered sequence.
pub proof fn lemma_filter_prefix<T>(q: Seq<T>, n: int, p: spec_fn(T) -> bool)
    requires
        0 <= n <= q.len(),
        forall|i: int| n <= i < q.len() ==> !p(#[trigger] q[i]),
    ensures
        q.filter(p) == q.take(n).filter(p),
    decreases q.len(),
{
    reveal(Seq::filter);
    if n == q.len() {
        assert(q.take(n) =~= q);
    } else {
        let front = q.drop_last();
        assert forall|i: int| n <= i < front.len() implies !p(#[trigger] front[i]) by {
            assert(front[i] == q[i]);
        }
        lemma_filter_prefix(front, n, p);
        assert(front.take(n) =~= q.take(n));
        assert(!p(q[q.len() - 1]));
    }
}

proof fn lemma_filter_ascends<T>(q: Seq<T>, key: spec_fn(T) -> KeyView, p: spec_fn(T) -> bool)
    requires
        forall|i: int, j: int| 0 <= i < j < q.len() ==> #[trigger] key_lt(key(q[i]), key(q[j])),
    ensures
        forall|i: int, j: int|
            0 <= i < j < q.filter(p).len() ==> #[trigger] key_lt(
                key(q.filter(p)[i]),
                key(q.filter(p)[j]),
            ),
    decreases q.len(),
{
    reveal(Seq::filter);
    if q.len() > 0 {
        let front = q.drop_last();
        assert forall|i: int, j: int| 0 <= i < j < front.len() implies #[trigger] key_lt(
            key(front[i]),
            key(front[j]),
        ) by {
            assert(key_lt(key(q[i]), key(q[j])));
        }
        lemma_filter_ascends(front, key, p);
        let kept = q.filter(p);
        assert forall|i: int, j: int| 0 <= i < j < kept.len() implies #[trigger] key_lt(
            key(kept[i]),
            key(kept[j]),
        ) by {
            let rest = front.filter(p);
            if j < rest.len() {
                assert(kept[i] == rest[i] && kept[j] == rest[j]);
                assert(key_lt(key(rest[i]), key(rest[j])));
            } else {
                assert(kept[j] == q.last());
                assert(kept[i] == rest[i]);
                assert(rest.contains(rest[i]));
                lemma_filter_contains(front, p, rest[i]);
                let m = choose|m: int| 0 <= m < front.len() && front[m] == rest[i];
                assert(key_lt(key(q[m]), key(q[q.len() - 1])));
            }
        }
    }
}

/// The key by which texts are ordered among themselves.
pub open spec fn text_key(t: Seq<char>) -> KeyView {
    KeyView { rank: 0, parts: seq![t] }
}

/// Keys of texts are ordered as the texts.
pub proof fn lemma_text_key(a: Seq<char>, b: Seq<char>)
    ensures
        texts_lt(seq![a], seq![b]) == text_lt(a, b),
        key_lt(text_key(a), text_key(b)) == text_lt(a, b),
{
    reveal_with_fuel(texts_lt, 2);
    lemma_text_lt_irreflexive(a);
    assert(seq![a][0] == a);
    assert(seq![b][0] == b);
}

/// The texts of `s` in their order.
pub open spec fn text_list(s: Set<Seq<char>>) -> Seq<Seq<char>> {
    ordering(s, |t: Seq<char>| text_key(t))
}

/// The key by which texts are ordered when the case of ASCII letters does not count; texts that
/// differ in nothing else are ordered among themselves.
pub open spec fn caseless_key(t: Seq<char>) -> KeyView {
    KeyView { rank: 0, parts: seq![ascii_lower(t), t] }
}

/// The texts of `s` in the order in which the case of ASCII letters does not count.
pub open spec fn caseless_list(s: Set<Seq<char>>) -> Seq<Seq<char>> {
    ordering(s, |t: Seq<char>| caseless_key(t))
}

/// Sorts different texts, the case of ASCII letters aside.
pub(crate) fn sort_caseless(values: Vec<String>, Ghost(s): Ghost<Set<Seq<char>>>) -> (r: Vec<
    String,
>)
    requires
        values.deep_view().no_duplicates(),
        forall|t: Seq<char>| #[trigger] s.contains(t) <==> values.deep_view().contains(t),
    ensures
        r.deep_view() == caseless_list(s),
{
    let ghost key = |t: Seq<char>| caseless_key(t);
    let mut keys: Vec<SortKey> = Vec::new();
    let mut i: usize = 0;
    while i < values.len()
        invariant
            i <= values@.len(),
            keys@.len() == i,
            key == (|t: Seq<char>| caseless_key(t)),
            forall|j: int| #![trigger values.deep_view()[j]]
                0 <= j < i ==> keys@[j]@ == key(values.deep_view()[j]),
        decreases values.len() - i,
    {
        let mut parts: Vec<String> = Vec::new();
        parts.push(to_ascii_lower(values[i].as_str()));
        parts.push(values[i].clone());
        let ghost t = values.deep_view()[i as int];
        assert(parts.deep_view() =~= seq![ascii_lower(t), t]);
        keys.push(SortKey { rank: 0, parts });
        i += 1;
    }
    let ghost all = values.deep_view();
    proof {
        assert forall|i: int, j: int|
            0 <= i < all.len() && 0 <= j < all.len() && i != j implies #[trigger] key(all[i])
            != #[trigger] key(all[j]) by {
            assert(key(all[i]).parts[1] == all[i]);
            assert(key(all[j]).parts[1] == all[j]);
        }
        lemma_sorted_by_is_ordering(all, s, key);
    }
    sort_with_keys(values, keys, Ghost(key))
}

/// The texts of a finite set in their order are those of the set, each once and each before the
/// greater ones.
pub proof fn lemma_text_list_has(s: Set<Seq<char>>, t: Seq<char>)
    requires
        s.finite(),
    ensures
        s.contains(t) <==> text_list(s).contains(t),
        forall|i: int, j: int|
            0 <= i < j < text_list(s).len() ==> text_lt(
                #[trigger] text_list(s)[i],
                #[trigger] text_list(s)[j],
            ),
{
    let key = |t: Seq<char>| text_key(t);
    assert forall|x: Seq<char>, y: Seq<char>|
        s.contains(x) && s.contains(y) && #[trigger] key(x) == #[trigger] key(y) implies x == y by {
        assert(key(x).parts[0] == x && key(y).parts[0] == y);
    }
    lemma_ordering_exists(s, key);
    assert forall|i: int, j: int| 0 <= i < j < text_list(s).len() implies text_lt(
        #[trigger] text_list(s)[i],
        #[trigger] text_list(s)[j],
    ) by {
        assert(key_lt(key(text_list(s)[i]), key(text_list(s)[j])));
        lemma_text_key(text_list(s)[i], text_list(s)[j]);
    }
}

/// The texts of a finite set in the order in which the case of letters does not count are those of the
/// set, each once; no text comes before one that is less in lowercase, and texts that differ in nothing
/// but the case of letters come in their order.
pub proof fn lemma_caseless_list_has(s: Set<Seq<char>>, t: Seq<char>, i: int, j: int)
    requires
        s.finite(),
    ensures
        s.contains(t) <==> caseless_list(s).contains(t),
        0 <= i < j < caseless_list(s).len() ==> {
            let a = caseless_list(s)[i];
            let b = caseless_list(s)[j];
            &&& a != b
            &&& text_lt(ascii_lower(a), ascii_lower(b)) || ascii_lower(a) == ascii_lower(b)
                && text_lt(a, b)
        },
{
    let key = |t: Seq<char>| caseless_key(t);
    assert forall|x: Seq<char>, y: Seq<char>|
        s.contains(x) && s.contains(y) && #[trigger] key(x) == #[trigger] key(y) implies x == y by {
        assert(key(x).parts[1] == x && key(y).parts[1] == y);
    }
    lemma_ordering_exists(s, key);
    if 0 <= i < j < caseless_list(s).len() {
        let a = caseless_list(s)[i];
        let b = caseless_list(s)[j];
        assert(key_lt(key(a), key(b)));
        let x = seq![ascii_lower(a), a];
        let y = seq![ascii_lower(b), b];
        assert(key(a).parts == x && key(b).parts == y);
        assert(x.drop_first() =~= seq![a]);
        assert(y.drop_first() =~= seq![b]);
        lemma_text_key(a, b);
        lemma_text_lt_irreflexive(a);
        lemma_key_order(key(a), key(b));
    }
}

} // verus!
