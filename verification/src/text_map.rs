//! Maps and sets of texts that keep their keys in order.
use crate::order::{is_ordering, key_lt, lemma_ordering, text_key, text_less, text_list, text_lt};
use crate::order::{lemma_text_key, lemma_text_lt_irreflexive};
use crate::order::{lemma_text_lt_total, lemma_text_lt_transitive};
use crate::text::same_text;
use vstd::prelude::*;

verus! {

broadcast use vstd::string::group_string_axioms;

/// A map from texts to values, ordered by text.
pub struct TextMap<V> {
    entries: Vec<(String, V)>,
}

/// Whether the keys of `entries` ascend.
spec fn ascending<V>(entries: Seq<(String, V)>) -> bool {
    forall|i: int, j: int|
        0 <= i < j < entries.len() ==> #[trigger] text_lt(entries[i].0@, entries[j].0@)
}

/// Whether `entries` has an entry for `key`.
spec fn has_key<V>(entries: Seq<(String, V)>, key: Seq<char>) -> bool {
    exists|i: int| 0 <= i < entries.len() && (#[trigger] entries[i]).0@ == key
}

/// The position of the entry for `key`.
spec fn key_index<V>(entries: Seq<(String, V)>, key: Seq<char>) -> int {
    choose|i: int| 0 <= i < entries.len() && (#[trigger] entries[i]).0@ == key
}

proof fn lemma_key_index<V>(entries: Seq<(String, V)>, i: int)
    requires
        ascending(entries),
        0 <= i < entries.len(),
    ensures
        has_key(entries, entries[i].0@),
        key_index(entries, entries[i].0@) == i,
{
    let key = entries[i].0@;
    let j = key_index(entries, key);
    assert(entries[i].0@ == key);
    lemma_text_lt_irreflexive(key);
    if i < j {
        assert(text_lt(entries[i].0@, entries[j].0@));
    } else if j < i {
        assert(text_lt(entries[j].0@, entries[i].0@));
    }
}

impl<V> TextMap<V> {
    #[verifier::type_invariant]
    spec fn well_formed(self) -> bool {
        ascending(self.entries@)
    }

    /// The keys, in order.
    pub closed spec fn keys(self) -> Seq<Seq<char>> {
        Seq::new(self.entries@.len(), |i: int| self.entries@[i].0@)
    }
}

impl<V: DeepView> View for TextMap<V> {
    type V = Map<Seq<char>, <V as DeepView>::V>;

    closed spec fn view(&self) -> Map<Seq<char>, <V as DeepView>::V> {
        Map::new(
            |key: Seq<char>| has_key(self.entries@, key),
            |key: Seq<char>| self.entries@[key_index(self.entries@, key)].1.deep_view(),
        )
    }
}

impl<V: DeepView> DeepView for TextMap<V> {
    type V = Map<Seq<char>, <V as DeepView>::V>;

    open spec fn deep_view(&self) -> Map<Seq<char>, <V as DeepView>::V> {
        self@
    }
}

impl<V: DeepView> TextMap<V> {
    /// An empty map.
    pub fn new() -> (r: TextMap<V>)
        ensures
            r@ == Map::<Seq<char>, <V as DeepView>::V>::empty(),
    {
        let r = TextMap { entries: Vec::new() };
        assert(r@ =~= Map::<Seq<char>, <V as DeepView>::V>::empty());
        r
    }

    /// The number of keys.
    pub fn len(&self) -> (r: usize)
        ensures
            r == self.keys().len(),
            self.keys() == text_list(self@.dom()),
            is_ordering(self.keys(), self@.dom(), |t: Seq<char>| text_key(t)),
    {
        proof {
            use_type_invariant(self);
            let key = |t: Seq<char>| text_key(t);
            let keys = self.keys();
            assert forall|i: int, j: int| 0 <= i < j < keys.len() implies #[trigger] key_lt(
                key(keys[i]),
                key(keys[j]),
            ) by {
                assert(text_lt(self.entries@[i].0@, self.entries@[j].0@));
                lemma_text_key(keys[i], keys[j]);
            }
            assert forall|t: Seq<char>| #[trigger] self@.dom().contains(t) <==> keys.contains(t) by {
                if self@.dom().contains(t) {
                    let i = choose|i: int|
                        0 <= i < self.entries@.len() && (#[trigger] self.entries@[i]).0@ == t;
                    assert(keys[i] == t);
                }
                if keys.contains(t) {
                    let i = choose|i: int| 0 <= i < keys.len() && keys[i] == t;
                    assert(self.entries@[i].0@ == t);
                }
            }
            lemma_ordering(keys, self@.dom(), key);
        }
        self.entries.len()
    }

    /// Whether there are no keys.
    pub fn is_empty(&self) -> (r: bool)
        ensures
            r == (self@.dom() == Set::<Seq<char>>::empty()),
    {
        let total = self.len();
        proof {
            let keys = self.keys();
            if total == 0 {
                assert forall|t: Seq<char>| !self@.dom().contains(t) by {
                    assert(self@.dom().contains(t) <==> keys.contains(t));
                }
                assert(self@.dom() =~= Set::<Seq<char>>::empty());
            } else {
                assert(keys.contains(keys[0]));
                assert(self@.dom().contains(keys[0]));
            }
        }
        total == 0
    }

    /// The key at position `i`.
    pub fn key_at(&self, i: usize) -> (r: &String)
        requires
            i < self.keys().len(),
        ensures
            r@ == self.keys()[i as int],
            self@.contains_key(r@),
    {
        proof {
            use_type_invariant(self);
            lemma_key_index(self.entries@, i as int);
        }
        &self.entries[i].0
    }

    /// The value at position `i`.
    pub fn value_at(&self, i: usize) -> (r: &V)
        requires
            i < self.keys().len(),
        ensures
            self@.contains_key(self.keys()[i as int]),
            r.deep_view() == self@[self.keys()[i as int]],
    {
        proof {
            use_type_invariant(self);
            lemma_key_index(self.entries@, i as int);
        }
        &self.entries[i].1
    }

    /// The position of the first key that does not come before `key`.
    fn position(&self, key: &str) -> (r: (usize, bool))
        ensures
            r.0 <= self.entries@.len(),
            forall|i: int| 0 <= i < r.0 ==> text_lt((#[trigger] self.entries@[i]).0@, key@),
            r.1 ==> r.0 < self.entries@.len() && self.entries@[r.0 as int].0@ == key@,
            !r.1 ==> !has_key(self.entries@, key@),
            forall|i: int|
                r.0 <= i < self.entries@.len() ==> text_lt(
                    key@,
                    (#[trigger] self.entries@[i]).0@,
                ) || (r.1 && i == r.0),
    {
        proof {
            use_type_invariant(self);
        }
        let mut low: usize = 0;
        let mut high: usize = self.entries.len();
        while low < high
            invariant
                low <= high <= self.entries@.len(),
                ascending(self.entries@),
                forall|i: int| 0 <= i < low ==> text_lt((#[trigger] self.entries@[i]).0@, key@),
                forall|i: int|
                    high <= i < self.entries@.len() ==> !text_lt(
                        (#[trigger] self.entries@[i]).0@,
                        key@,
                    ),
            decreases high - low,
        {
            let mid: usize = low + (high - low) / 2;
            if text_less(self.entries[mid].0.as_str(), key) {
                proof {
                    assert forall|i: int| 0 <= i < mid + 1 implies text_lt(
                        (#[trigger] self.entries@[i]).0@,
                        key@,
                    ) by {
                        if i < mid {
                            assert(text_lt(self.entries@[i].0@, self.entries@[mid as int].0@));
                            lemma_text_lt_transitive(
                                self.entries@[i].0@,
                                self.entries@[mid as int].0@,
                                key@,
                            );
                        }
                    }
                }
                low = mid + 1;
            } else {
                proof {
                    assert forall|i: int| mid <= i < self.entries@.len() implies !text_lt(
                        (#[trigger] self.entries@[i]).0@,
                        key@,
                    ) by {
                        if mid < i && text_lt(self.entries@[i].0@, key@) {
                            assert(text_lt(self.entries@[mid as int].0@, self.entries@[i].0@));
                            lemma_text_lt_transitive(
                                self.entries@[mid as int].0@,
                                self.entries@[i].0@,
                                key@,
                            );
                        }
                    }
                }
                high = mid;
            }
        }
        let found = low < self.entries.len() && same_text(self.entries[low].0.as_str(), key);
        proof {
            assert forall|i: int| low <= i < self.entries@.len() implies text_lt(
                key@,
                (#[trigger] self.entries@[i]).0@,
            ) || (found && i == low) by {
                lemma_text_lt_total(self.entries@[i].0@, key@);
                if self.entries@[i].0@ == key@ && low < i {
                    assert(text_lt(self.entries@[low as int].0@, self.entries@[i].0@));
                }
            }
            if !found && has_key(self.entries@, key@) {
                let i = key_index(self.entries@, key@);
                lemma_text_lt_irreflexive(key@);
                if i < low {
                    assert(text_lt(self.entries@[i].0@, key@));
                }
            }
        }
        (low, found)
    }

    /// The value for `key`.
    pub fn get(&self, key: &str) -> (r: Option<&V>)
        ensures
            r is Some <==> self@.contains_key(key@),
            r matches Some(v) ==> v.deep_view() == self@[key@],
    {
        let (at, found) = self.position(key);
        if found {
            proof {
                use_type_invariant(self);
                lemma_key_index(self.entries@, at as int);
            }
            Some(&self.entries[at].1)
        } else {
            None
        }
    }

    /// Whether there is an entry for `key`.
    pub fn contains_key(&self, key: &str) -> (r: bool)
        ensures
            r == self@.contains_key(key@),
    {
        let (_, found) = self.position(key);
        proof {
            use_type_invariant(self);
        }
        found
    }

    /// Gives `key` the value `value`.
    pub fn insert(&mut self, key: String, value: V)
        ensures
            final(self)@ == old(self)@.insert(key@, value.deep_view()),
    {
        let (at, found) = self.position(key.as_str());
        let ghost name = key@;
        let ghost deep = value.deep_view();
        let ghost before = self.entries@;
        let ghost old_view = self@;
        proof {
            use_type_invariant(&*self);
        }
        let mut entries: Vec<(String, V)> = Vec::new();
        std::mem::swap(&mut entries, &mut self.entries);
        if found {
            entries.remove(at);
        }
        let ghost middle = entries@;
        entries.insert(at, (key, value));
        proof {
            let now = entries@;
            assert forall|i: int, j: int| 0 <= i < j < now.len() implies #[trigger] text_lt(
                now[i].0@,
                now[j].0@,
            ) by {
                lemma_text_lt_irreflexive(name);
                let a = if i < at {
                    i
                } else if found {
                    i
                } else {
                    i - 1
                };
                let b = if j < at {
                    j
                } else if found {
                    j
                } else {
                    j - 1
                };
                if i != at && j != at {
                    assert(now[i] == before[a]);
                    assert(now[j] == before[b]);
                    assert(text_lt(before[a].0@, before[b].0@));
                } else if i == at {
                    assert(now[j] == before[b]);
                    assert(text_lt(name, before[b].0@));
                } else {
                    assert(now[i] == before[a]);
                    assert(text_lt(before[a].0@, name));
                }
            }
            let old_map = old_view;
            let new_map = Map::new(
                |k: Seq<char>| has_key(now, k),
                |k: Seq<char>| now[key_index(now, k)].1.deep_view(),
            );
            assert(now[at as int].0@ == name);
            lemma_key_index(now, at as int);
            assert forall|k: Seq<char>| #[trigger] old_map.contains_key(k) && k != name implies
                new_map.contains_key(k) && new_map[k] == old_map[k] by {
                let i = key_index(before, k);
                let j = if i < at || found {
                    i
                } else {
                    i + 1
                };
                assert(now[j] == before[i]);
                lemma_key_index(now, j);
            }
            assert forall|k: Seq<char>| #[trigger] new_map.contains_key(k) && k != name implies
                old_map.contains_key(k) by {
                let j = key_index(now, k);
                let i = if j < at || found {
                    j
                } else {
                    j - 1
                };
                assert(now[j] == before[i]);
                assert(before[i].0@ == k);
            }
            assert(new_map =~= old_map.insert(name, deep));
        }
        self.entries = entries;
    }

    /// Takes the entry for `key` out.
    pub fn remove(&mut self, key: &str) -> (r: Option<V>)
        ensures
            final(self)@ == old(self)@.remove(key@),
            r is Some <==> old(self)@.contains_key(key@),
            r matches Some(v) ==> v.deep_view() == old(self)@[key@],
    {
        let (at, found) = self.position(key);
        let ghost before = self.entries@;
        let ghost old_view = self@;
        proof {
            use_type_invariant(&*self);
        }
        if !found {
            assert(self@ =~= old_view.remove(key@));
            return None;
        }
        proof {
            lemma_key_index(before, at as int);
        }
        let mut entries: Vec<(String, V)> = Vec::new();
        std::mem::swap(&mut entries, &mut self.entries);
        let (_, value) = entries.remove(at);
        proof {
            let now = entries@;
            assert forall|i: int, j: int| 0 <= i < j < now.len() implies #[trigger] text_lt(
                now[i].0@,
                now[j].0@,
            ) by {
                let a = if i < at {
                    i
                } else {
                    i + 1
                };
                let b = if j < at {
                    j
                } else {
                    j + 1
                };
                assert(text_lt(before[a].0@, before[b].0@));
            }
            let new_map = Map::new(
                |k: Seq<char>| has_key(now, k),
                |k: Seq<char>| now[key_index(now, k)].1.deep_view(),
            );
            assert forall|k: Seq<char>| #[trigger] old_view.contains_key(k) && k != key@ implies
                new_map.contains_key(k) && new_map[k] == old_view[k] by {
                let i = key_index(before, k);
                let j = if i < at {
                    i
                } else {
                    i - 1
                };
                assert(now[j] == before[i]);
                lemma_key_index(now, j);
            }
            assert forall|k: Seq<char>| #[trigger] new_map.contains_key(k) implies
                old_view.contains_key(k) && k != key@ by {
                let j = key_index(now, k);
                let i = if j < at {
                    j
                } else {
                    j + 1
                };
                assert(now[j] == before[i]);
                lemma_key_index(before, i);
            }
            assert(new_map =~= old_view.remove(key@));
        }
        self.entries = entries;
        Some(value)
    }
}

/// The elements of `items` whose name, at the same position of `names`, is `name`.
pub open spec fn named<T>(items: Seq<T>, names: Seq<Seq<char>>, name: Seq<char>) -> Seq<T>
    decreases items.len(),
{
    if items.len() == 0 || names.len() == 0 {
        seq![]
    } else if names.last() == name {
        named(items.drop_last(), names.drop_last(), name).push(items.last())
    } else {
        named(items.drop_last(), names.drop_last(), name)
    }
}

/// A name with elements is one of the names, and the other way round.
pub proof fn lemma_named<T>(items: Seq<T>, names: Seq<Seq<char>>, name: Seq<char>)
    requires
        items.len() == names.len(),
    ensures
        named(items, names, name).len() > 0 <==> names.contains(name),
        forall|x: T| #[trigger] named(items, names, name).contains(x) <==> exists|i: int|
            0 <= i < items.len() && #[trigger] items[i] == x && names[i] == name,
    decreases items.len(),
{
    let group = named(items, names, name);
    if items.len() > 0 {
        let front = items.drop_last();
        let front_names = names.drop_last();
        let rest = named(front, front_names, name);
        lemma_named(front, front_names, name);
        if names.contains(name) && names.last() != name {
            let i = choose|i: int| 0 <= i < names.len() && names[i] == name;
            assert(front_names[i] == name);
        }
        if front_names.contains(name) {
            let i = choose|i: int| 0 <= i < front_names.len() && front_names[i] == name;
            assert(names[i] == name);
        }
        if names.last() == name {
            assert(names[names.len() - 1] == name);
        }
        assert forall|x: T| #[trigger] group.contains(x) <==> exists|i: int|
            0 <= i < items.len() && #[trigger] items[i] == x && names[i] == name by {
            if group.contains(x) {
                let j = choose|j: int| 0 <= j < group.len() && group[j] == x;
                if j < rest.len() {
                    assert(rest[j] == x);
                    assert(rest.contains(x));
                    let i = choose|i: int|
                        0 <= i < front.len() && #[trigger] front[i] == x && front_names[i] == name;
                    assert(items[i] == x);
                } else {
                    assert(items[items.len() - 1] == x);
                }
            }
            if exists|i: int| 0 <= i < items.len() && #[trigger] items[i] == x && names[i] == name {
                let i = choose|i: int|
                    0 <= i < items.len() && #[trigger] items[i] == x && names[i] == name;
                if i < front.len() {
                    assert(front[i] == x);
                    assert(rest.contains(x));
                    let j = choose|j: int| 0 <= j < rest.len() && rest[j] == x;
                    assert(group[j] == x);
                } else {
                    assert(group[group.len() - 1] == x);
                }
            }
        }
    }
}

/// The elements of `items` by name.
pub open spec fn groups<T>(items: Seq<T>, names: Seq<Seq<char>>) -> Map<Seq<char>, Seq<T>> {
    Map::new(|name: Seq<char>| names.contains(name), |name: Seq<char>| named(items, names, name))
}

/// Groups `items` by `names`, one name for each item, in the order of `items`.
pub fn group_by_name<T: DeepView>(items: Vec<T>, names: &Vec<String>) -> (r: TextMap<Vec<T>>)
    requires
        items@.len() == names@.len(),
    ensures
        r@ == groups(items.deep_view(), names.deep_view()),
{
    let ghost all = items.deep_view();
    let ghost all_names = names.deep_view();
    let total: usize = items.len();
    let mut items = items;
    let mut r: TextMap<Vec<T>> = TextMap::new();
    let mut done: usize = 0;
    assert(r@ =~= groups(all.take(0), all_names.take(0)));
    while done < total
        invariant
            done <= total,
            total == all.len(),
            total == all_names.len(),
            all_names == names.deep_view(),
            items@.len() == total - done,
            forall|i: int| #![trigger items@[i]]
                0 <= i < items@.len() ==> items@[i].deep_view() == all[done + i],
            r@ == groups(all.take(done as int), all_names.take(done as int)),
        decreases total - done,
    {
        let item = items.remove(0);
        let ghost x = all[done as int];
        let ghost name = all_names[done as int];
        let ghost before = r@;
        let ghost head = all.take(done as int);
        let ghost head_names = all_names.take(done as int);
        assert(names@[done as int]@ == name);
        let mut group: Vec<T> = match r.remove(names[done].as_str()) {
            Some(group) => group,
            None => Vec::new(),
        };
        proof {
            lemma_named(head, head_names, name);
            assert(group.deep_view() =~= named(head, head_names, name));
        }
        let ghost old_group = group.deep_view();
        group.push(item);
        assert(group.deep_view() =~= old_group.push(x));
        r.insert(names[done].clone(), group);
        proof {
            let next = all.take(done + 1);
            let next_names = all_names.take(done + 1);
            assert(next.drop_last() =~= head);
            assert(next_names.drop_last() =~= head_names);
            assert forall|n: Seq<char>| #[trigger] next_names.contains(n) <==> head_names.contains(n)
                || n == name by {
                if next_names.contains(n) && n != name {
                    let i = choose|i: int| 0 <= i < next_names.len() && next_names[i] == n;
                    assert(head_names[i] == n);
                }
                if head_names.contains(n) {
                    let i = choose|i: int| 0 <= i < head_names.len() && head_names[i] == n;
                    assert(next_names[i] == n);
                }
                assert(next_names[done as int] == name);
            }
            assert(r@ =~= groups(next, next_names));
        }
        done += 1;
    }
    assert(all.take(done as int) =~= all);
    assert(all_names.take(done as int) =~= all_names);
    r
}

/// A set of texts, ordered by text.
pub struct TextSet {
    members: TextMap<()>,
}

impl View for TextSet {
    type V = Set<Seq<char>>;

    closed spec fn view(&self) -> Set<Seq<char>> {
        self.members@.dom()
    }
}

impl DeepView for TextSet {
    type V = Set<Seq<char>>;

    open spec fn deep_view(&self) -> Set<Seq<char>> {
        self@
    }
}

impl TextSet {
    /// The members, in order.
    pub closed spec fn items(self) -> Seq<Seq<char>> {
        self.members.keys()
    }

    /// An empty set.
    pub fn new() -> (r: TextSet)
        ensures
            r@ == Set::<Seq<char>>::empty(),
    {
        let r = TextSet { members: TextMap::new() };
        assert(r@ =~= Set::<Seq<char>>::empty());
        r
    }

    /// The number of members.
    pub fn len(&self) -> (r: usize)
        ensures
            r == self.items().len(),
            self.items() == text_list(self@),
            is_ordering(self.items(), self@, |t: Seq<char>| text_key(t)),
    {
        self.members.len()
    }

    /// Whether there are no members.
    pub fn is_empty(&self) -> (r: bool)
        ensures
            r == (self@ == Set::<Seq<char>>::empty()),
    {
        self.members.is_empty()
    }

    /// The member at position `i`.
    pub fn item_at(&self, i: usize) -> (r: &String)
        requires
            i < self.items().len(),
        ensures
            r@ == self.items()[i as int],
            self@.contains(r@),
    {
        self.members.key_at(i)
    }

    /// Whether `value` is a member.
    pub fn contains(&self, value: &str) -> (r: bool)
        ensures
            r == self@.contains(value@),
    {
        self.members.contains_key(value)
    }

    /// Makes `value` a member.
    pub fn insert(&mut self, value: String)
        ensures
            final(self)@ == old(self)@.insert(value@),
    {
        let ghost before = self@;
        let ghost name = value@;
        self.members.insert(value, ());
        assert(self@ =~= before.insert(name));
    }

    /// Takes `value` out.
    pub fn remove(&mut self, value: &str) -> (r: bool)
        ensures
            final(self)@ == old(self)@.remove(value@),
            r == old(self)@.contains(value@),
    {
        let ghost before = self@;
        let taken = self.members.remove(value);
        assert(self@ =~= before.remove(value@));
        taken.is_some()
    }
}

/// A set with the ordering `items` is finite and has as many members as `items` lists.
pub proof fn lemma_set_len(set: Set<Seq<char>>, items: Seq<Seq<char>>)
    requires
        is_ordering(items, set, |t: Seq<char>| text_key(t)),
    ensures
        set.finite(),
        set.len() == items.len(),
{
    let key = |t: Seq<char>| text_key(t);
    assert(items.no_duplicates()) by {
        assert forall|i: int, j: int| 0 <= i < j < items.len() implies items[i] != items[j] by {
            assert(key_lt(key(items[i]), key(items[j])));
            lemma_text_key(items[i], items[i]);
            lemma_text_lt_irreflexive(items[i]);
        }
    }
    items.unique_seq_to_set();
    assert(items.to_set() =~= set);
    vstd::seq_lib::seq_to_set_is_finite(items);
}

} // verus!
