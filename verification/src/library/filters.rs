//! The checked filters of a category, the tags that go together, and the tag that a search means.
use super::display::{display_key, display_tag_key};
use crate::config::copy_set;
use crate::model::{fuzzy, fuzzy_search_match, lemma_value_below, parent_value};
use crate::model::{some_value_matches, split_subtag, value_matches};
use crate::model::{tag_value_matches_filter, FileRecord, RecordView};
use crate::row_set::lemma_take_contains;
use crate::text::{contains_char, equal_ignoring_ascii_case, first_index, holds_text, lowercase};
use crate::text::{lemma_first_index, same_ignoring_ascii_case, same_text, trim, trimmed};
use crate::text_map::{TextMap, TextSet};
use vstd::prelude::*;

verus! {

broadcast use vstd::string::group_string_axioms;

/// Whether `search` finds a tag value.
pub fn tag_matches_search(value: &str, search: &str) -> (r: bool)
    ensures
        r == fuzzy(value@, search@),
{
    fuzzy_search_match(value, search)
}

/// Whether `search` spells a tag value out, case of letters and white space around it aside.
pub open spec fn is_spelled(value: Seq<char>, search: Seq<char>) -> bool {
    trimmed(search).len() > 0 && equal_ignoring_ascii_case(trimmed(value), trimmed(search))
}

/// Whether `search` spells a tag value out.
pub fn tag_exactly_matches_search(value: &str, search: &str) -> (r: bool)
    ensures
        r == is_spelled(value@, search@),
{
    let search = trim(search);
    search.unicode_len() > 0 && same_ignoring_ascii_case(trim(value), search)
}

/// The key by which tag values are listed for a search: the one spelled out first.
pub fn tag_search_match_sort_key(value: &str, search: &str) -> (r: (bool, String))
    ensures
        r.0 == !is_spelled(value@, search@),
        r.1@ == lowercase(value@),
{
    (!tag_exactly_matches_search(value, search), value.to_lowercase())
}

/// The key by which tag groups are listed for a search: those with a value spelled out first.
pub fn tag_search_group_sort_key(key: &str, values: &[&str], search: &str) -> (r: (bool, String))
    ensures
        r.0 == !exists|i: int|
            0 <= i < values@.len() && is_spelled((#[trigger] values@[i])@, search@),
        r.1@ == lowercase(key@),
{
    let mut spelled = false;
    let mut i: usize = 0;
    while i < values.len()
        invariant
            i <= values@.len(),
            spelled == exists|j: int|
                0 <= j < i && is_spelled((#[trigger] values@[j])@, search@),
        decreases values.len() - i,
    {
        if tag_exactly_matches_search(values[i], search) {
            assert(is_spelled(values@[i as int]@, search@));
            spelled = true;
        }
        i += 1;
    }
    (!spelled, key.to_lowercase())
}

/// What follows the first `/` of a value.
pub open spec fn child_value(value: Seq<char>) -> Seq<char> {
    value.skip(first_index(value, '/') + 1)
}

/// Whether a search that finds the stored `value` may mean `meant`: the value, or the one above it.
pub open spec fn is_candidate(value: Seq<char>, meant: Seq<char>, search: Seq<char>) -> bool {
    match parent_value(value) {
        Some(parent) => {
            ||| meant == parent && fuzzy(parent, search)
            ||| meant == value && (fuzzy(child_value(value), search) || (search.contains('/')
                && fuzzy(value, search)))
        },
        None => meant == value && fuzzy(value, search),
    }
}

/// Whether a search may mean `meant` among `values`.
pub open spec fn values_offer(
    values: Seq<Seq<char>>,
    meant: Seq<char>,
    search: Seq<char>,
) -> bool {
    exists|i: int| 0 <= i < values.len() && is_candidate(#[trigger] values[i], meant, search)
}

/// Whether `search` spells out a value or its last part.
pub open spec fn is_spelled_value(value: Seq<char>, search: Seq<char>) -> bool {
    is_spelled(value, search) || (parent_value(value) is Some && is_spelled(
        child_value(value),
        search,
    ))
}

/// The tags that a search may mean, those in hidden groups only where something is searched.
pub open spec fn offered(
    schema: Map<Seq<char>, Seq<Seq<char>>>,
    hidden: Set<Seq<char>>,
    search: Seq<char>,
) -> Set<(Seq<char>, Seq<char>)> {
    Set::new(
        |tag: (Seq<char>, Seq<char>)|
            schema.contains_key(tag.0) && (search.len() > 0 || !hidden.contains(tag.0))
                && values_offer(schema[tag.0], tag.1, search),
    )
}

/// The tags that a search means: those that it spells out, or else all that it may mean.
pub open spec fn meant_tags(
    schema: Map<Seq<char>, Seq<Seq<char>>>,
    hidden: Set<Seq<char>>,
    search: Seq<char>,
) -> Set<(Seq<char>, Seq<char>)> {
    let all = offered(schema, hidden, search);
    let spelled = all.filter(|tag: (Seq<char>, Seq<char>)| is_spelled_value(tag.1, search));
    if spelled == Set::<(Seq<char>, Seq<char>)>::empty() {
        all
    } else {
        spelled
    }
}

/// Whether `found` is the only member of `tags`, or nothing where there is not just one.
pub open spec fn is_only(
    found: Option<(Seq<char>, Seq<char>)>,
    tags: Set<(Seq<char>, Seq<char>)>,
) -> bool {
    match found {
        Some(tag) => tags == Set::<(Seq<char>, Seq<char>)>::empty().insert(tag),
        None => forall|tag: (Seq<char>, Seq<char>)|
            tags != #[trigger] Set::<(Seq<char>, Seq<char>)>::empty().insert(tag),
    }
}

/// One of several tags, and whether there is another.
struct FirstTag {
    first: Option<(String, String)>,
    more: bool,
}

impl FirstTag {
    /// Whether this tells of `tags`.
    spec fn tells(self, tags: Set<(Seq<char>, Seq<char>)>) -> bool {
        match self.first {
            None => !self.more && tags == Set::<(Seq<char>, Seq<char>)>::empty(),
            Some(first) => {
                let tag = (first.0@, first.1@);
                if self.more {
                    tags.contains(tag) && exists|other: (Seq<char>, Seq<char>)|
                        tags.contains(other) && other != tag
                } else {
                    tags == Set::<(Seq<char>, Seq<char>)>::empty().insert(tag)
                }
            },
        }
    }

    /// Takes one tag more into account.
    fn meet(&mut self, key: &str, value: &str, Ghost(tags): Ghost<Set<(Seq<char>, Seq<char>)>>)
        requires
            old(self).tells(tags),
        ensures
            final(self).tells(tags.insert((key@, value@))),
    {
        let ghost tag = (key@, value@);
        let same = match &self.first {
            Some(first) => same_text(first.0.as_str(), key) && same_text(first.1.as_str(), value),
            None => false,
        };
        if self.first.is_none() {
            self.first = Some((key.to_owned(), value.to_owned()));
            assert(self.tells(tags.insert(tag)));
        } else if same {
            assert(tags.insert(tag) =~= tags);
        } else {
            proof {
                let first = self.first.unwrap();
                if self.more {
                    let other = choose|other: (Seq<char>, Seq<char>)|
                        tags.contains(other) && other != (first.0@, first.1@);
                    assert(tags.insert(tag).contains(other));
                } else {
                    assert(tags.insert(tag).contains(tag));
                }
            }
            self.more = true;
        }
    }

    /// The only tag.
    fn only(self, Ghost(tags): Ghost<Set<(Seq<char>, Seq<char>)>>) -> (r: Option<(String, String)>)
        requires
            self.tells(tags),
        ensures
            r matches Some(tag) ==> is_only(Some((tag.0@, tag.1@)), tags),
            r is None ==> is_only(None, tags),
    {
        proof {
            if self.first is None || self.more {
                assert forall|tag: (Seq<char>, Seq<char>)|
                    tags != #[trigger] Set::<(Seq<char>, Seq<char>)>::empty().insert(tag) by {
                    assert(Set::<(Seq<char>, Seq<char>)>::empty().insert(tag).contains(tag));
                }
            }
        }
        if self.more {
            None
        } else {
            self.first
        }
    }
}

/// The tags under `key` that a search may mean among `values`, those spelled out or all.
spec fn key_tags(
    key: Seq<char>,
    values: Seq<Seq<char>>,
    search: Seq<char>,
    spelled: bool,
) -> Set<(Seq<char>, Seq<char>)> {
    Set::new(
        |tag: (Seq<char>, Seq<char>)|
            tag.0 == key && values_offer(values, tag.1, search) && (spelled ==> is_spelled_value(
                tag.1,
                search,
            )),
    )
}

/// Whether `search` spells out a value or its last part.
fn is_spelled_out(value: &str, search: &str) -> (r: bool)
    ensures
        r == is_spelled_value(value@, search@),
{
    if tag_exactly_matches_search(value, search) {
        return true;
    }
    proof {
        lemma_first_index(value@, '/');
    }
    match split_subtag(value) {
        Some((parent, child)) => {
            assert(child@ =~= child_value(value@));
            tag_exactly_matches_search(child, search)
        },
        None => false,
    }
}

proof fn lemma_one_more_value(
    key: Seq<char>,
    values: Seq<Seq<char>>,
    i: int,
    search: Seq<char>,
    spelled: bool,
)
    requires
        0 <= i < values.len(),
    ensures
        forall|tag: (Seq<char>, Seq<char>)| #[trigger]
            key_tags(key, values.take(i + 1), search, spelled).contains(tag) <==> key_tags(
                key,
                values.take(i),
                search,
                spelled,
            ).contains(tag) || (tag.0 == key && is_candidate(values[i], tag.1, search) && (spelled
                ==> is_spelled_value(tag.1, search))),
{
    assert forall|meant: Seq<char>| #[trigger]
        values_offer(values.take(i + 1), meant, search) <==> values_offer(
            values.take(i),
            meant,
            search,
        ) || is_candidate(values[i], meant, search) by {
        let head = values.take(i);
        let next = values.take(i + 1);
        if values_offer(next, meant, search) {
            let j = choose|j: int|
                0 <= j < next.len() && is_candidate(#[trigger] next[j], meant, search);
            if j < i {
                assert(head[j] == next[j]);
            }
        }
        if values_offer(head, meant, search) {
            let j = choose|j: int|
                0 <= j < head.len() && is_candidate(#[trigger] head[j], meant, search);
            assert(next[j] == head[j]);
        }
        assert(next[i] == values[i]);
    }
}

/// Takes the tags under `key` into account that a search may mean.
fn meet_values(
    found: &mut FirstTag,
    key: &str,
    values: &Vec<String>,
    search: &str,
    spelled: bool,
    Ghost(tags): Ghost<Set<(Seq<char>, Seq<char>)>>,
)
    requires
        old(found).tells(tags),
    ensures
        final(found).tells(
            tags.union(key_tags(key@, values.deep_view(), search@, spelled)),
        ),
{
    let ghost all = values.deep_view();
    let mut i: usize = 0;
    assert(tags.union(key_tags(key@, all.take(0), search@, spelled)) =~= tags);
    while i < values.len()
        invariant
            i <= values@.len(),
            all == values.deep_view(),
            found.tells(tags.union(key_tags(key@, all.take(i as int), search@, spelled))),
        decreases values.len() - i,
    {
        let ghost mut seen = tags.union(key_tags(key@, all.take(i as int), search@, spelled));
        let ghost goal = tags.union(key_tags(key@, all.take(i + 1), search@, spelled));
        proof {
            lemma_one_more_value(key@, all, i as int, search@, spelled);
            assert(all[i as int] == values@[i as int]@);
            lemma_first_index(all[i as int], '/');
        }
        let value = values[i].as_str();
        match split_subtag(value) {
            Some((parent, child)) => {
                assert(child@ =~= child_value(value@));
                if tag_matches_search(parent, search) && (!spelled || is_spelled_out(
                    parent,
                    search,
                )) {
                    found.meet(key, parent, Ghost(seen));
                    proof {
                        seen = seen.insert((key@, parent@));
                    }
                }
                if (tag_matches_search(child, search) || (contains_char(search, '/')
                    && tag_matches_search(value, search))) && (!spelled || is_spelled_out(
                    value,
                    search,
                )) {
                    found.meet(key, value, Ghost(seen));
                    proof {
                        seen = seen.insert((key@, value@));
                    }
                }
            },
            None => {
                if tag_matches_search(value, search) && (!spelled || is_spelled_out(
                    value,
                    search,
                )) {
                    found.meet(key, value, Ghost(seen));
                    proof {
                        seen = seen.insert((key@, value@));
                    }
                }
            },
        }
        assert(seen =~= goal);
        i += 1;
    }
    assert(all.take(i as int) =~= all);
}

/// The tags of the first keys of a schema that a search may mean, those spelled out or all.
spec fn tags_upto(
    schema: Map<Seq<char>, Seq<Seq<char>>>,
    keys: Seq<Seq<char>>,
    hidden: Set<Seq<char>>,
    search: Seq<char>,
    spelled: bool,
) -> Set<(Seq<char>, Seq<char>)> {
    Set::new(
        |tag: (Seq<char>, Seq<char>)|
            keys.contains(tag.0) && offered(schema, hidden, search).contains(tag) && (spelled
                ==> is_spelled_value(tag.1, search)),
    )
}

/// One of the tags that a search may mean, those spelled out or all.
fn first_tag(
    schema: &TextMap<Vec<String>>,
    hidden: &TextSet,
    search: &str,
    spelled: bool,
) -> (r: FirstTag)
    ensures
        r.tells(
            if spelled {
                offered(schema@, hidden@, search@).filter(
                    |tag: (Seq<char>, Seq<char>)| is_spelled_value(tag.1, search@),
                )
            } else {
                offered(schema@, hidden@, search@)
            },
        ),
{
    let total = schema.len();
    let ghost keys = schema.keys();
    let mut found = FirstTag { first: None, more: false };
    let mut i: usize = 0;
    assert(tags_upto(schema@, keys.take(0), hidden@, search@, spelled) =~= Set::<
        (Seq<char>, Seq<char>),
    >::empty());
    while i < total
        invariant
            i <= total,
            total == keys.len(),
            keys == schema.keys(),
            found.tells(tags_upto(schema@, keys.take(i as int), hidden@, search@, spelled)),
        decreases total - i,
    {
        let ghost seen = tags_upto(schema@, keys.take(i as int), hidden@, search@, spelled);
        let ghost goal = tags_upto(schema@, keys.take(i + 1), hidden@, search@, spelled);
        let key = schema.key_at(i).as_str();
        let values = schema.value_at(i);
        proof {
            assert forall|k: Seq<char>| #[trigger]
                keys.take(i + 1).contains(k) <==> keys.take(i as int).contains(k) || k
                == keys[i as int] by {
                lemma_take_contains(keys, i as int, k);
            }
        }
        if search.unicode_len() > 0 || !hidden.contains(key) {
            meet_values(&mut found, key, values, search, spelled, Ghost(seen));
            assert(seen.union(key_tags(key@, values.deep_view(), search@, spelled)) =~= goal);
        } else {
            assert(seen =~= goal);
        }
        i += 1;
    }
    proof {
        assert(keys.take(i as int) =~= keys);
        let all = offered(schema@, hidden@, search@);
        assert forall|k: Seq<char>| #[trigger] schema@.dom().contains(k) implies keys.contains(
            k,
        ) by {}
        if spelled {
            assert(tags_upto(schema@, keys, hidden@, search@, spelled) =~= all.filter(
                |tag: (Seq<char>, Seq<char>)| is_spelled_value(tag.1, search@),
            ));
        } else {
            assert(tags_upto(schema@, keys, hidden@, search@, spelled) =~= all);
        }
    }
    found
}

/// The tag that a search means, if it means just one.
pub fn single_tag_match(schema: &TextMap<Vec<String>>, hidden: &TextSet, search: &str) -> (r:
    Option<(String, String)>)
    ensures
        r matches Some(tag) ==> is_only(
            Some((tag.0@, tag.1@)),
            meant_tags(schema@, hidden@, search@),
        ),
        r is None ==> is_only(None, meant_tags(schema@, hidden@, search@)),
{
    let ghost all = offered(schema@, hidden@, search@);
    let ghost spelled = all.filter(
        |tag: (Seq<char>, Seq<char>)| is_spelled_value(tag.1, search@),
    );
    let exact = first_tag(schema, hidden, search, true);
    if exact.first.is_some() {
        proof {
            let first = exact.first.unwrap();
            assert(spelled.contains((first.0@, first.1@)));
        }
        return exact.only(Ghost(spelled));
    }
    let any = first_tag(schema, hidden, search, false);
    any.only(Ghost(all))
}

/// A search that spells out just one tag means that tag, whatever else it finds.
pub proof fn lemma_spelled_tag_is_meant(
    schema: Map<Seq<char>, Seq<Seq<char>>>,
    hidden: Set<Seq<char>>,
    search: Seq<char>,
    tag: (Seq<char>, Seq<char>),
)
    requires
        offered(schema, hidden, search).contains(tag),
        is_spelled_value(tag.1, search),
        forall|other: (Seq<char>, Seq<char>)|
            #![trigger offered(schema, hidden, search).contains(other)]
            offered(schema, hidden, search).contains(other) && is_spelled_value(other.1, search)
                ==> other == tag,
    ensures
        is_only(Some(tag), meant_tags(schema, hidden, search)),
{
    let all = offered(schema, hidden, search);
    let spelled = all.filter(|tag: (Seq<char>, Seq<char>)| is_spelled_value(tag.1, search));
    assert(spelled.contains(tag));
    assert(spelled =~= Set::<(Seq<char>, Seq<char>)>::empty().insert(tag));
}

/// Whether `tags` has a value under `key`, as such or as the one above a subtag.
pub open spec fn has_tag(
    tags: Map<Seq<char>, Seq<Seq<char>>>,
    tag: (Seq<char>, Seq<char>),
) -> bool {
    tags.contains_key(tag.0) && exists|i: int|
        0 <= i < tags[tag.0].len() && (#[trigger] tags[tag.0][i] == tag.1 || parent_value(
            tags[tag.0][i],
        ) == Some(tag.1))
}

/// Whether one of `records` has both tags, which differ.
pub open spec fn are_together(
    records: Seq<RecordView>,
    tag: (Seq<char>, Seq<char>),
    other: (Seq<char>, Seq<char>),
) -> bool {
    tag != other && exists|i: int|
        0 <= i < records.len() && has_tag((#[trigger] records[i]).tags, tag) && has_tag(
            records[i].tags,
            other,
        )
}

/// Whether one of `records` has a tag.
pub open spec fn is_used(records: Seq<RecordView>, tag: (Seq<char>, Seq<char>)) -> bool {
    exists|i: int| 0 <= i < records.len() && has_tag((#[trigger] records[i]).tags, tag)
}

/// Whether one of `records` has a tag and another one.
pub open spec fn has_company(records: Seq<RecordView>, tag: (Seq<char>, Seq<char>)) -> bool {
    exists|other: (Seq<char>, Seq<char>)| are_together(records, tag, other)
}

/// Tags that occur together do so in either order.
pub proof fn lemma_together_is_mutual(
    records: Seq<RecordView>,
    tag: (Seq<char>, Seq<char>),
    other: (Seq<char>, Seq<char>),
)
    ensures
        are_together(records, tag, other) <==> are_together(records, other, tag),
        are_together(records, tag, other) ==> is_used(records, tag) && has_company(records, tag),
{
    if are_together(records, tag, other) {
        let i = choose|i: int|
            0 <= i < records.len() && has_tag((#[trigger] records[i]).tags, tag) && has_tag(
                records[i].tags,
                other,
            );
        assert(has_tag(records[i].tags, tag));
    }
}

/// Whether `value` is one of `values`, as such or as the one above a subtag.
fn values_have(values: &Vec<String>, value: &str) -> (r: bool)
    ensures
        r == exists|i: int|
            0 <= i < values.deep_view().len() && (#[trigger] values.deep_view()[i] == value@
                || parent_value(values.deep_view()[i]) == Some(value@)),
{
    let ghost all = values.deep_view();
    let mut i: usize = 0;
    while i < values.len()
        invariant
            i <= values@.len(),
            all == values.deep_view(),
            forall|j: int|
                0 <= j < i ==> !(#[trigger] all[j] == value@ || parent_value(all[j]) == Some(
                    value@,
                )),
        decreases values.len() - i,
    {
        assert(all[i as int] == values@[i as int]@);
        if same_text(values[i].as_str(), value) {
            return true;
        }
        match split_subtag(values[i].as_str()) {
            Some((parent, _)) => {
                if same_text(parent, value) {
                    return true;
                }
            },
            None => {},
        }
        i += 1;
    }
    false
}

/// Whether `record` has a tag, as such or as the one above a subtag.
fn record_has_tag(record: &FileRecord, key: &str, value: &str) -> (r: bool)
    ensures
        r == has_tag(record.deep_view().tags, (key@, value@)),
{
    match record.tags.get(key) {
        Some(values) => values_have(values, value),
        None => false,
    }
}

/// Whether one of `records` has a tag.
pub fn tag_is_used(records: &Vec<FileRecord>, key: &str, value: &str) -> (r: bool)
    ensures
        r == is_used(records.deep_view(), (key@, value@)),
{
    let ghost views = records.deep_view();
    let mut i: usize = 0;
    while i < records.len()
        invariant
            i <= records@.len(),
            views == records.deep_view(),
            forall|j: int| 0 <= j < i ==> !has_tag((#[trigger] views[j]).tags, (key@, value@)),
        decreases records.len() - i,
    {
        assert(views[i as int] == records@[i as int].deep_view());
        if record_has_tag(&records[i], key, value) {
            return true;
        }
        i += 1;
    }
    false
}

/// Whether one of `records` has both tags, which differ.
pub fn tags_intersect(
    records: &Vec<FileRecord>,
    key: &str,
    value: &str,
    other_key: &str,
    other_value: &str,
) -> (r: bool)
    ensures
        r == are_together(records.deep_view(), (key@, value@), (other_key@, other_value@)),
{
    if same_text(key, other_key) && same_text(value, other_value) {
        return false;
    }
    let ghost views = records.deep_view();
    let mut i: usize = 0;
    while i < records.len()
        invariant
            i <= records@.len(),
            views == records.deep_view(),
            (key@, value@) != (other_key@, other_value@),
            forall|j: int|
                0 <= j < i ==> !(has_tag((#[trigger] views[j]).tags, (key@, value@)) && has_tag(
                    views[j].tags,
                    (other_key@, other_value@),
                )),
        decreases records.len() - i,
    {
        assert(views[i as int] == records@[i as int].deep_view());
        if record_has_tag(&records[i], key, value) && record_has_tag(
            &records[i],
            other_key,
            other_value,
        ) {
            return true;
        }
        i += 1;
    }
    false
}

/// Whether `values` under `key` give another tag than `tag`.
spec fn values_differ(
    key: Seq<char>,
    values: Seq<Seq<char>>,
    tag: (Seq<char>, Seq<char>),
) -> bool {
    exists|i: int|
        0 <= i < values.len() && ((key, #[trigger] values[i]) != tag || (parent_value(values[i])
            matches Some(parent) && (key, parent) != tag))
}

/// Whether `values` under `own_key` give another tag than the one of `key` and `value`.
fn values_give_other(own_key: &str, values: &Vec<String>, key: &str, value: &str) -> (r: bool)
    ensures
        r == values_differ(own_key@, values.deep_view(), (key@, value@)),
{
    let ghost all = values.deep_view();
    let same_key = same_text(own_key, key);
    let mut i: usize = 0;
    while i < values.len()
        invariant
            i <= values@.len(),
            all == values.deep_view(),
            same_key == (own_key@ == key@),
            forall|j: int|
                0 <= j < i ==> !((own_key@, #[trigger] all[j]) != (key@, value@) || (parent_value(
                    all[j],
                ) matches Some(parent) && (own_key@, parent) != (key@, value@))),
        decreases values.len() - i,
    {
        assert(all[i as int] == values@[i as int]@);
        if !same_key || !same_text(values[i].as_str(), value) {
            assert((own_key@, all[i as int]) != (key@, value@));
            return true;
        }
        match split_subtag(values[i].as_str()) {
            Some((parent, _)) => {
                if !same_text(parent, value) {
                    assert((own_key@, parent@) != (key@, value@));
                    return true;
                }
            },
            None => {},
        }
        i += 1;
    }
    false
}

/// Whether `record` has another tag than the one of `key` and `value`.
fn record_has_other(record: &FileRecord, key: &str, value: &str) -> (r: bool)
    ensures
        r == exists|other: (Seq<char>, Seq<char>)|
            other != (key@, value@) && #[trigger] has_tag(record.deep_view().tags, other),
{
    let ghost tag = (key@, value@);
    let ghost tags = record.deep_view().tags;
    let total = record.tags.len();
    let ghost keys = record.tags.keys();
    let mut i: usize = 0;
    while i < total
        invariant
            i <= total,
            total == keys.len(),
            keys == record.tags.keys(),
            tags == record.tags@,
            tags == record.deep_view().tags,
            tag == (key@, value@),
            forall|j: int| 0 <= j < i ==> !values_differ(#[trigger] keys[j], tags[keys[j]], tag),
        decreases total - i,
    {
        let own_key = record.tags.key_at(i).as_str();
        if values_give_other(own_key, record.tags.value_at(i), key, value) {
            proof {
                let values = tags[own_key@];
                let j = choose|j: int|
                    0 <= j < values.len() && ((own_key@, #[trigger] values[j]) != tag || (
                    parent_value(values[j]) matches Some(parent) && (own_key@, parent) != tag));
                if (own_key@, values[j]) != tag {
                    assert(has_tag(tags, (own_key@, values[j])));
                } else {
                    assert(has_tag(tags, (own_key@, parent_value(values[j]).unwrap())));
                }
            }
            return true;
        }
        i += 1;
    }
    proof {
        assert forall|other: (Seq<char>, Seq<char>)| #[trigger] has_tag(tags, other) implies other
            == tag by {
            assert(tags.dom().contains(other.0));
            assert(keys.contains(other.0));
            let j = choose|j: int| 0 <= j < keys.len() && keys[j] == other.0;
            assert(!values_differ(keys[j], tags[keys[j]], tag));
            let values = tags[other.0];
            let n = choose|n: int|
                0 <= n < values.len() && (#[trigger] values[n] == other.1 || parent_value(
                    values[n],
                ) == Some(other.1));
            assert((other.0, values[n]) == tag);
        }
    }
    false
}

/// Whether one of `records` has a tag and another one.
pub fn tag_has_company(records: &Vec<FileRecord>, key: &str, value: &str) -> (r: bool)
    ensures
        r == has_company(records.deep_view(), (key@, value@)),
{
    let ghost views = records.deep_view();
    let ghost tag = (key@, value@);
    let mut i: usize = 0;
    while i < records.len()
        invariant
            i <= records@.len(),
            views == records.deep_view(),
            tag == (key@, value@),
            forall|j: int, other: (Seq<char>, Seq<char>)|
                0 <= j < i && has_tag((#[trigger] views[j]).tags, tag) && #[trigger] has_tag(
                    views[j].tags,
                    other,
                ) ==> other == tag,
        decreases records.len() - i,
    {
        assert(views[i as int] == records@[i as int].deep_view());
        if record_has_tag(&records[i], key, value) && record_has_other(&records[i], key, value) {
            proof {
                let other = choose|other: (Seq<char>, Seq<char>)|
                    other != tag && #[trigger] has_tag(views[i as int].tags, other);
                assert(are_together(views, tag, other));
            }
            return true;
        }
        i += 1;
    }
    false
}

/// The ones of `values` under `key` that occur in `records` together with another tag.
pub open spec fn accompanied(
    records: Seq<RecordView>,
    key: Seq<char>,
    values: Set<Seq<char>>,
) -> Set<Seq<char>> {
    values.filter(|value: Seq<char>| has_company(records, (key, value)))
}

/// The ones of `tags` that occur in `records` together with another tag.
pub open spec fn accompanied_tags(
    records: Seq<RecordView>,
    tags: Map<Seq<char>, Set<Seq<char>>>,
) -> Map<Seq<char>, Set<Seq<char>>> {
    Map::new(
        |key: Seq<char>|
            tags.contains_key(key) && accompanied(records, key, tags[key]) != Set::<
                Seq<char>,
            >::empty(),
        |key: Seq<char>| accompanied(records, key, tags[key]),
    )
}

/// The checked filters under `key` that one of `available` passes.
pub open spec fn passable(available: Seq<Seq<char>>, filters: Set<Seq<char>>) -> Set<Seq<char>> {
    filters.filter(|filter: Seq<char>| some_value_matches(available, filter))
}

/// The checked filters that a value of `schema` passes.
pub open spec fn passable_filters(
    schema: Map<Seq<char>, Seq<Seq<char>>>,
    selected: Map<Seq<char>, Set<Seq<char>>>,
) -> Map<Seq<char>, Set<Seq<char>>> {
    Map::new(
        |key: Seq<char>|
            selected.contains_key(key) && schema.contains_key(key) && passable(
                schema[key],
                selected[key],
            ) != Set::<Seq<char>>::empty(),
        |key: Seq<char>| passable(schema[key], selected[key]),
    )
}

/// The ones of `values` under `key` that occur in `records` together with another tag.
fn accompanied_values(records: &Vec<FileRecord>, key: &str, values: &TextSet) -> (r: TextSet)
    ensures
        r@ == accompanied(records.deep_view(), key@, values@),
{
    let total = values.len();
    let ghost items = values.items();
    let ghost wanted = accompanied(records.deep_view(), key@, values@);
    let mut r = TextSet::new();
    let mut i: usize = 0;
    while i < total
        invariant
            i <= total,
            total == items.len(),
            items == values.items(),
            wanted == accompanied(records.deep_view(), key@, values@),
            forall|v: Seq<char>| #[trigger]
                r@.contains(v) <==> wanted.contains(v) && items.take(i as int).contains(v),
        decreases total - i,
    {
        let value = values.item_at(i);
        proof {
            assert forall|v: Seq<char>| #[trigger]
                items.take(i + 1).contains(v) <==> items.take(i as int).contains(v) || v
                == items[i as int] by {
                lemma_take_contains(items, i as int, v);
            }
        }
        if tag_has_company(records, key, value.as_str()) {
            r.insert(value.clone());
        }
        i += 1;
    }
    proof {
        assert(items.take(i as int) =~= items);
        assert forall|v: Seq<char>| #[trigger] values@.contains(v) implies items.contains(v) by {}
        assert(r@ =~= wanted);
    }
    r
}

/// The ones of `tags` that occur in `records` together with another tag.
pub fn retain_accompanied(records: &Vec<FileRecord>, tags: &TextMap<TextSet>) -> (r: TextMap<
    TextSet,
>)
    ensures
        r@ == accompanied_tags(records.deep_view(), tags@),
{
    let total = tags.len();
    let ghost keys = tags.keys();
    let ghost wanted = accompanied_tags(records.deep_view(), tags@);
    let mut r: TextMap<TextSet> = TextMap::new();
    let mut i: usize = 0;
    while i < total
        invariant
            i <= total,
            total == keys.len(),
            keys == tags.keys(),
            wanted == accompanied_tags(records.deep_view(), tags@),
            forall|k: Seq<char>| #[trigger]
                r@.contains_key(k) <==> wanted.contains_key(k) && keys.take(i as int).contains(k),
            forall|k: Seq<char>| #[trigger] r@.contains_key(k) ==> r@[k] == wanted[k],
        decreases total - i,
    {
        let key = tags.key_at(i);
        let values = accompanied_values(records, key.as_str(), tags.value_at(i));
        proof {
            assert forall|k: Seq<char>| #[trigger]
                keys.take(i + 1).contains(k) <==> keys.take(i as int).contains(k) || k
                == keys[i as int] by {
                lemma_take_contains(keys, i as int, k);
            }
        }
        if !values.is_empty() {
            r.insert(key.clone(), values);
        }
        i += 1;
    }
    proof {
        assert(keys.take(i as int) =~= keys);
        assert forall|k: Seq<char>| #[trigger] r@.contains_key(k) <==> wanted.contains_key(k) by {
            assert(tags@.dom().contains(k) <==> keys.contains(k));
        }
        assert(r@ =~= wanted);
    }
    r
}

/// Whether one of `available` passes a filter.
fn some_value_passes(available: &Vec<String>, filter: &str) -> (r: bool)
    ensures
        r == some_value_matches(available.deep_view(), filter@),
{
    let ghost all = available.deep_view();
    let mut i: usize = 0;
    while i < available.len()
        invariant
            i <= available@.len(),
            all == available.deep_view(),
            forall|j: int| 0 <= j < i ==> !crate::model::value_matches(#[trigger] all[j], filter@),
        decreases available.len() - i,
    {
        assert(all[i as int] == available@[i as int]@);
        if tag_value_matches_filter(available[i].as_str(), filter) {
            return true;
        }
        i += 1;
    }
    false
}

/// The checked filters that one of `available` passes.
fn passable_values(available: &Vec<String>, filters: &TextSet) -> (r: TextSet)
    ensures
        r@ == passable(available.deep_view(), filters@),
{
    let total = filters.len();
    let ghost items = filters.items();
    let ghost wanted = passable(available.deep_view(), filters@);
    let mut r = TextSet::new();
    let mut i: usize = 0;
    while i < total
        invariant
            i <= total,
            total == items.len(),
            items == filters.items(),
            wanted == passable(available.deep_view(), filters@),
            forall|v: Seq<char>| #[trigger]
                r@.contains(v) <==> wanted.contains(v) && items.take(i as int).contains(v),
        decreases total - i,
    {
        let filter = filters.item_at(i);
        proof {
            assert forall|v: Seq<char>| #[trigger]
                items.take(i + 1).contains(v) <==> items.take(i as int).contains(v) || v
                == items[i as int] by {
                lemma_take_contains(items, i as int, v);
            }
        }
        if some_value_passes(available, filter.as_str()) {
            r.insert(filter.clone());
        }
        i += 1;
    }
    proof {
        assert(items.take(i as int) =~= items);
        assert forall|v: Seq<char>| #[trigger] filters@.contains(v) implies items.contains(v) by {}
        assert(r@ =~= wanted);
    }
    r
}

/// The checked filters that a value of `schema` passes.
fn retain_passable(schema: &TextMap<Vec<String>>, selected: &TextMap<TextSet>) -> (r: TextMap<
    TextSet,
>)
    ensures
        r@ == passable_filters(schema@, selected@),
{
    let total = selected.len();
    let ghost keys = selected.keys();
    let ghost wanted = passable_filters(schema@, selected@);
    let mut r: TextMap<TextSet> = TextMap::new();
    let mut i: usize = 0;
    while i < total
        invariant
            i <= total,
            total == keys.len(),
            keys == selected.keys(),
            wanted == passable_filters(schema@, selected@),
            forall|k: Seq<char>| #[trigger]
                r@.contains_key(k) <==> wanted.contains_key(k) && keys.take(i as int).contains(k),
            forall|k: Seq<char>| #[trigger] r@.contains_key(k) ==> r@[k] == wanted[k],
        decreases total - i,
    {
        let key = selected.key_at(i);
        proof {
            assert forall|k: Seq<char>| #[trigger]
                keys.take(i + 1).contains(k) <==> keys.take(i as int).contains(k) || k
                == keys[i as int] by {
                lemma_take_contains(keys, i as int, k);
            }
        }
        match schema.get(key.as_str()) {
            Some(available) => {
                let filters = passable_values(available, selected.value_at(i));
                if !filters.is_empty() {
                    r.insert(key.clone(), filters);
                }
            },
            None => {},
        }
        i += 1;
    }
    proof {
        assert(keys.take(i as int) =~= keys);
        assert forall|k: Seq<char>| #[trigger] r@.contains_key(k) <==> wanted.contains_key(k) by {
            assert(selected@.dom().contains(k) <==> keys.contains(k));
        }
        assert(r@ =~= wanted);
    }
    r
}

/// A tag value that got another name.
pub struct RenamedTag<'a> {
    pub key: &'a str,
    pub old_value: &'a str,
    pub new_value: &'a str,
}

/// A tag key that got another name.
pub struct RenamedKey<'a> {
    pub old_key: &'a str,
    pub new_key: &'a str,
}

/// The mathematical value of a [`RenamedTag`].
pub open spec fn renamed_tag_view(renamed: Option<RenamedTag>) -> Option<
    (Seq<char>, Seq<char>, Seq<char>),
> {
    match renamed {
        Some(renamed) => Some((renamed.key@, renamed.old_value@, renamed.new_value@)),
        None => None,
    }
}

/// The mathematical value of a [`RenamedKey`].
pub open spec fn renamed_key_view(renamed: Option<RenamedKey>) -> Option<(Seq<char>, Seq<char>)> {
    match renamed {
        Some(renamed) => Some((renamed.old_key@, renamed.new_key@)),
        None => None,
    }
}

/// Whether `schema` has a value under a key.
pub open spec fn schema_has(
    schema: Map<Seq<char>, Seq<Seq<char>>>,
    key: Seq<char>,
    value: Seq<char>,
) -> bool {
    schema.contains_key(key) && schema[key].contains(value)
}

/// The checked filters with a renamed tag under its new name, once only that is in use.
pub open spec fn with_renamed_filter(
    selected: Map<Seq<char>, Set<Seq<char>>>,
    schema: Map<Seq<char>, Seq<Seq<char>>>,
    renamed: Option<(Seq<char>, Seq<char>, Seq<char>)>,
) -> Map<Seq<char>, Set<Seq<char>>> {
    match renamed {
        Some((raw, old_value, new_value)) => match display_key(raw) {
            Some(key) => if !schema_has(schema, key, old_value) && schema_has(
                schema,
                key,
                new_value,
            ) && selected.contains_key(key) && selected[key].contains(old_value) {
                selected.insert(key, selected[key].remove(old_value).insert(new_value))
            } else {
                selected
            },
            None => selected,
        },
        None => selected,
    }
}

/// The checked filters that fit `schema`, with a renamed tag under its new name.
pub open spec fn reconciled_filters(
    selected: Map<Seq<char>, Set<Seq<char>>>,
    schema: Map<Seq<char>, Seq<Seq<char>>>,
    renamed: Option<(Seq<char>, Seq<char>, Seq<char>)>,
) -> Map<Seq<char>, Set<Seq<char>>> {
    passable_filters(schema, with_renamed_filter(selected, schema, renamed))
}

/// Whether `schema` has a value under a key.
fn schema_holds(schema: &TextMap<Vec<String>>, key: &str, value: &str) -> (r: bool)
    ensures
        r == schema_has(schema@, key@, value@),
{
    match schema.get(key) {
        Some(values) => holds_text(values, value),
        None => false,
    }
}

/// Makes the checked filters fit `schema`, with a renamed tag under its new name.
pub fn reconcile_selected_filters(
    selected: &mut TextMap<TextSet>,
    schema: &TextMap<Vec<String>>,
    renamed: Option<RenamedTag>,
)
    ensures
        final(selected)@ == reconciled_filters(
            old(selected)@,
            schema@,
            renamed_tag_view(renamed),
        ),
{
    match renamed {
        Some(renamed) => {
            match display_tag_key(renamed.key) {
                Some(key) => {
                    if !schema_holds(schema, key.as_str(), renamed.old_value) && schema_holds(
                        schema,
                        key.as_str(),
                        renamed.new_value,
                    ) {
                        match selected.get(key.as_str()) {
                            Some(values) => {
                                if values.contains(renamed.old_value) {
                                    let mut values = copy_set(values);
                                    values.remove(renamed.old_value);
                                    values.insert(renamed.new_value.to_owned());
                                    selected.insert(key, values);
                                }
                            },
                            None => {},
                        }
                    }
                },
                None => {},
            }
        },
        None => {},
    }
    *selected = retain_passable(schema, selected);
}

/// The checked filters with those under a renamed key under the new one, once only that is there.
pub open spec fn reconciled_keys(
    selected: Map<Seq<char>, Set<Seq<char>>>,
    schema: Map<Seq<char>, Seq<Seq<char>>>,
    renamed: Option<(Seq<char>, Seq<char>)>,
) -> Map<Seq<char>, Set<Seq<char>>> {
    match renamed {
        Some((old_key, new_key)) => match (display_key(old_key), display_key(new_key)) {
            (Some(from), Some(to)) => if !schema.contains_key(from) && schema.contains_key(to)
                && selected.contains_key(from) {
                let present = if selected.contains_key(to) {
                    selected[to]
                } else {
                    Set::<Seq<char>>::empty()
                };
                selected.remove(from).insert(to, present.union(selected[from]))
            } else {
                selected
            },
            _ => selected,
        },
        None => selected,
    }
}

/// The members of both sets.
fn union_of(mut set: TextSet, more: &TextSet) -> (r: TextSet)
    ensures
        r@ == set@.union(more@),
{
    let total = more.len();
    let ghost items = more.items();
    let ghost start = set@;
    let mut i: usize = 0;
    while i < total
        invariant
            i <= total,
            total == items.len(),
            items == more.items(),
            forall|v: Seq<char>| #[trigger]
                set@.contains(v) <==> start.contains(v) || items.take(i as int).contains(v),
        decreases total - i,
    {
        proof {
            assert forall|v: Seq<char>| #[trigger]
                items.take(i + 1).contains(v) <==> items.take(i as int).contains(v) || v
                == items[i as int] by {
                lemma_take_contains(items, i as int, v);
            }
        }
        set.insert(more.item_at(i).clone());
        i += 1;
    }
    proof {
        assert(items.take(i as int) =~= items);
        assert forall|v: Seq<char>| #[trigger] more@.contains(v) <==> items.contains(v) by {}
        assert(set@ =~= start.union(more@));
    }
    set
}

/// Puts the checked filters under a renamed key under the new one.
pub fn reconcile_selected_filter_keys(
    selected: &mut TextMap<TextSet>,
    schema: &TextMap<Vec<String>>,
    renamed: Option<RenamedKey>,
)
    ensures
        final(selected)@ == reconciled_keys(old(selected)@, schema@, renamed_key_view(renamed)),
{
    match renamed {
        Some(renamed) => {
            let from = display_tag_key(renamed.old_key);
            let to = display_tag_key(renamed.new_key);
            match (from, to) {
                (Some(from), Some(to)) => {
                    if !schema.contains_key(from.as_str()) && schema.contains_key(to.as_str()) {
                        match selected.remove(from.as_str()) {
                            Some(values) => {
                                let present = match selected.get(to.as_str()) {
                                    Some(present) => copy_set(present),
                                    None => TextSet::new(),
                                };
                                selected.insert(to, union_of(present, &values));
                            },
                            None => {
                                assert(selected@ =~= old(selected)@);
                            },
                        }
                    }
                },
                _ => {},
            }
        },
        None => {},
    }
}

/// Checked filters that fit a schema are those that one of its values passes, and no group of them
/// is empty.
pub proof fn lemma_reconciled_filters_fit(
    selected: Map<Seq<char>, Set<Seq<char>>>,
    schema: Map<Seq<char>, Seq<Seq<char>>>,
    renamed: Option<(Seq<char>, Seq<char>, Seq<char>)>,
    key: Seq<char>,
)
    requires
        reconciled_filters(selected, schema, renamed).contains_key(key),
    ensures
        schema.contains_key(key),
        reconciled_filters(selected, schema, renamed)[key] != Set::<Seq<char>>::empty(),
        forall|filter: Seq<char>| #[trigger]
            reconciled_filters(selected, schema, renamed)[key].contains(filter)
                ==> some_value_matches(schema[key], filter),
{
}

/// A checked tag that gets another name is checked under that name, once the old one is gone.
pub proof fn lemma_renamed_filter_stays_checked(
    selected: Map<Seq<char>, Set<Seq<char>>>,
    schema: Map<Seq<char>, Seq<Seq<char>>>,
    raw: Seq<char>,
    old_value: Seq<char>,
    new_value: Seq<char>,
)
    requires
        display_key(raw) is Some,
        !schema_has(schema, display_key(raw).unwrap(), old_value),
        schema_has(schema, display_key(raw).unwrap(), new_value),
        selected.contains_key(display_key(raw).unwrap()),
        selected[display_key(raw).unwrap()].contains(old_value),
    ensures
        reconciled_filters(selected, schema, Some((raw, old_value, new_value))).contains_key(
            display_key(raw).unwrap(),
        ),
        reconciled_filters(
            selected,
            schema,
            Some((raw, old_value, new_value)),
        )[display_key(raw).unwrap()].contains(new_value),
{
    let key = display_key(raw).unwrap();
    let i = choose|i: int| 0 <= i < schema[key].len() && schema[key][i] == new_value;
    assert(crate::model::value_matches(schema[key][i], new_value));
    let now = with_renamed_filter(selected, schema, Some((raw, old_value, new_value)));
    assert(passable(schema[key], now[key]).contains(new_value));
}

/// A search that spells out the last part of a value spells out the value, as one that spells out all
/// of it does; the case of letters and white space around it do not count.
pub proof fn lemma_spelled_out(parent: Seq<char>, child: Seq<char>, search: Seq<char>)
    requires
        !parent.contains('/'),
        parent.len() > 0,
        child.len() > 0,
        trimmed(search).len() > 0,
    ensures
        ({
            let value = parent.push('/') + child;
            &&& equal_ignoring_ascii_case(trimmed(search), trimmed(value)) ==> is_spelled_value(
                value,
                search,
            )
            &&& equal_ignoring_ascii_case(trimmed(search), trimmed(child)) ==> is_spelled_value(
                value,
                search,
            )
            &&& equal_ignoring_ascii_case(trimmed(search), trimmed(parent)) ==> is_spelled_value(
                parent,
                search,
            )
            &&& is_spelled_value(value, search) ==> equal_ignoring_ascii_case(
                trimmed(search),
                trimmed(value),
            ) || equal_ignoring_ascii_case(trimmed(search), trimmed(child))
            &&& is_spelled_value(parent, search) ==> equal_ignoring_ascii_case(
                trimmed(search),
                trimmed(parent),
            )
        }),
{
    lemma_child_of(parent, child);
}

proof fn lemma_child_of(parent: Seq<char>, child: Seq<char>)
    requires
        !parent.contains('/'),
        parent.len() > 0,
        child.len() > 0,
    ensures
        parent_value(parent.push('/') + child) == Some(parent),
        child_value(parent.push('/') + child) == child,
        parent_value(parent) is None,
{
    let value = parent.push('/') + child;
    lemma_value_below(parent, child);
    lemma_first_index(value, '/');
    assert(first_index(value, '/') == parent.len());
    assert(value.skip(parent.len() as int + 1) =~= child);
}

/// What a search may mean: a value that stands below no other, if it finds it; of a value below
/// another, the one above if it finds that, and the value itself if it finds its last part or, being
/// a search for a part of a path, all of it. Tags in hidden groups are meant only by a search that is
/// not empty.
pub proof fn lemma_search_may_mean(
    schema: Map<Seq<char>, Seq<Seq<char>>>,
    hidden: Set<Seq<char>>,
    search: Seq<char>,
    key: Seq<char>,
    parent: Seq<char>,
    child: Seq<char>,
)
    requires
        !parent.contains('/'),
        parent.len() > 0,
        child.len() > 0,
        schema.contains_key(key),
    ensures
        ({
            let value = parent.push('/') + child;
            let all = offered(schema, hidden, search);
            let open = search.len() > 0 || !hidden.contains(key);
            &&& open && schema[key].contains(parent) && fuzzy(parent, search) ==> all.contains(
                (key, parent),
            )
            &&& open && schema[key].contains(value) && fuzzy(parent, search) ==> all.contains(
                (key, parent),
            )
            &&& open && schema[key].contains(value) && fuzzy(child, search) ==> all.contains(
                (key, value),
            )
            &&& open && schema[key].contains(value) && search.contains('/') && fuzzy(value, search)
                ==> all.contains((key, value))
            &&& all.contains((key, value)) ==> open && schema[key].contains(value) && (fuzzy(
                child,
                search,
            ) || (search.contains('/') && fuzzy(value, search)))
            &&& all.contains((key, parent)) ==> open && fuzzy(parent, search)
        }),
{
    let value = parent.push('/') + child;
    let values = schema[key];
    let all = offered(schema, hidden, search);
    lemma_child_of(parent, child);
    if values.contains(parent) && fuzzy(parent, search) {
        let i = choose|i: int| 0 <= i < values.len() && values[i] == parent;
        assert(is_candidate(values[i], parent, search));
    }
    if values.contains(value) {
        let i = choose|i: int| 0 <= i < values.len() && values[i] == value;
        if fuzzy(parent, search) {
            assert(is_candidate(values[i], parent, search));
        }
        if fuzzy(child, search) || (search.contains('/') && fuzzy(value, search)) {
            assert(is_candidate(values[i], value, search));
        }
    }
    if all.contains((key, value)) {
        let i = choose|i: int| 0 <= i < values.len() && is_candidate(
            #[trigger] values[i],
            value,
            search,
        );
        if values[i] != value {
            let above = parent_value(values[i]).unwrap();
            lemma_first_index(values[i], '/');
            assert(value[parent.len() as int] == '/');
            assert(above[parent.len() as int] == values[i][parent.len() as int]);
        }
    }
}

/// A checked filter stays checked exactly if a value of its key passes it, where nothing was renamed.
pub proof fn lemma_fitting_filter_stays(
    selected: Map<Seq<char>, Set<Seq<char>>>,
    schema: Map<Seq<char>, Seq<Seq<char>>>,
    key: Seq<char>,
    filter: Seq<char>,
)
    ensures
        ({
            let after = reconciled_filters(selected, schema, None);
            after.contains_key(key) && after[key].contains(filter) <==> selected.contains_key(key)
                && selected[key].contains(filter) && schema.contains_key(key) && exists|i: int|
                0 <= i < schema[key].len() && value_matches(#[trigger] schema[key][i], filter)
        }),
{
    if selected.contains_key(key) && selected[key].contains(filter) && schema.contains_key(key)
        && some_value_matches(schema[key], filter) {
        assert(passable(schema[key], selected[key]).contains(filter));
    }
}

/// The filters that are checked under a key that gets another name are checked under the new one,
/// beside those that were; the old key has none, and other keys are not touched.
pub proof fn lemma_renamed_key_stays_checked(
    selected: Map<Seq<char>, Set<Seq<char>>>,
    schema: Map<Seq<char>, Seq<Seq<char>>>,
    old_key: Seq<char>,
    new_key: Seq<char>,
    other: Seq<char>,
    filter: Seq<char>,
)
    requires
        display_key(old_key) is Some,
        display_key(new_key) is Some,
        selected.contains_key(display_key(old_key).unwrap()),
        !schema.contains_key(display_key(old_key).unwrap()),
        schema.contains_key(display_key(new_key).unwrap()),
    ensures
        ({
            let from = display_key(old_key).unwrap();
            let to = display_key(new_key).unwrap();
            let after = reconciled_keys(selected, schema, Some((old_key, new_key)));
            &&& !after.contains_key(from)
            &&& after.contains_key(to) && (after[to].contains(filter)
                <==> selected[from].contains(filter) || (selected.contains_key(to)
                && selected[to].contains(filter)))
            &&& other != from && other != to ==> (after.contains_key(other)
                <==> selected.contains_key(other)) && (selected.contains_key(other)
                ==> after[other] == selected[other])
        }),
{
}

/// While the old key is still there, or the new one is not, checked filters stay as they are; so do
/// they where nothing was renamed.
pub proof fn lemma_keys_in_use_stay_checked(
    selected: Map<Seq<char>, Set<Seq<char>>>,
    schema: Map<Seq<char>, Seq<Seq<char>>>,
    old_key: Seq<char>,
    new_key: Seq<char>,
)
    ensures
        display_key(old_key) matches Some(from) ==> schema.contains_key(from) ==> reconciled_keys(
            selected,
            schema,
            Some((old_key, new_key)),
        ) == selected,
        display_key(new_key) matches Some(to) ==> !schema.contains_key(to) ==> reconciled_keys(
            selected,
            schema,
            Some((old_key, new_key)),
        ) == selected,
        reconciled_keys(selected, schema, None) == selected,
{
}

/// A sound has a tag if it has the value under the key, or a value below it.
pub proof fn lemma_sound_has_tag(
    tags: Map<Seq<char>, Seq<Seq<char>>>,
    key: Seq<char>,
    parent: Seq<char>,
    child: Seq<char>,
)
    requires
        tags.contains_key(key),
        !parent.contains('/'),
        parent.len() > 0,
        child.len() > 0,
    ensures
        tags[key].contains(parent) ==> has_tag(tags, (key, parent)),
        tags[key].contains(parent.push('/') + child) ==> has_tag(tags, (key, parent)) && has_tag(
            tags,
            (key, parent.push('/') + child),
        ),
        has_tag(tags, (key, parent.push('/') + child)) ==> tags[key].contains(
            parent.push('/') + child,
        ),
{
    let value = parent.push('/') + child;
    let values = tags[key];
    lemma_child_of(parent, child);
    if values.contains(parent) {
        let i = choose|i: int| 0 <= i < values.len() && values[i] == parent;
        assert(tags[(key, parent).0][i] == (key, parent).1);
    }
    if values.contains(value) {
        let i = choose|i: int| 0 <= i < values.len() && values[i] == value;
        assert(tags[(key, value).0][i] == (key, value).1);
        assert(parent_value(tags[(key, parent).0][i]) == Some((key, parent).1));
    }
    if has_tag(tags, (key, value)) {
        let i = choose|i: int|
            0 <= i < values.len() && (#[trigger] values[i] == value || parent_value(values[i])
                == Some(value));
        if values[i] != value {
            lemma_first_index(values[i], '/');
            let above = parent_value(values[i]).unwrap();
            assert(value[parent.len() as int] == '/');
            assert(above[parent.len() as int] == values[i][parent.len() as int]);
        }
    }
}

/// Of the tags that are shown only beside others, exactly those are kept that a sound has beside
/// another tag.
pub proof fn lemma_company_is_kept(
    records: Seq<RecordView>,
    tags: Map<Seq<char>, Set<Seq<char>>>,
    key: Seq<char>,
    value: Seq<char>,
    i: int,
    other: (Seq<char>, Seq<char>),
)
    ensures
        ({
            let kept = accompanied_tags(records, tags);
            let is_kept = kept.contains_key(key) && kept[key].contains(value);
            &&& is_kept ==> tags.contains_key(key) && tags[key].contains(value)
            &&& is_kept ==> exists|n: int, beside: (Seq<char>, Seq<char>)|
                0 <= n < records.len() && beside != (key, value) && has_tag(
                    (#[trigger] records[n]).tags,
                    (key, value),
                ) && #[trigger] has_tag(records[n].tags, beside)
            &&& tags.contains_key(key) && tags[key].contains(value) && 0 <= i < records.len()
                && other != (key, value) && has_tag(records[i].tags, (key, value)) && has_tag(
                records[i].tags,
                other,
            ) ==> is_kept
        }),
{
    let kept = accompanied_tags(records, tags);
    if kept.contains_key(key) && kept[key].contains(value) {
        let beside = choose|beside: (Seq<char>, Seq<char>)|
            are_together(records, (key, value), beside);
        assert(are_together(records, (key, value), beside));
        let n = choose|n: int|
            0 <= n < records.len() && has_tag((#[trigger] records[n]).tags, (key, value))
                && has_tag(records[n].tags, beside);
        assert(has_tag(records[n].tags, beside));
    }
    if tags.contains_key(key) && tags[key].contains(value) && 0 <= i < records.len() && other != (
        key,
        value,
    ) && has_tag(records[i].tags, (key, value)) && has_tag(records[i].tags, other) {
        assert(are_together(records, (key, value), other));
        assert(has_company(records, (key, value)));
        assert(accompanied(records, key, tags[key]).contains(value));
    }
}

/// Values that a search spells out are listed before all that it does not, whatever the case of
/// letters and white space around them; among themselves values are listed by their lowercase form.
pub proof fn lemma_spelled_is_listed_first(value: &str, search: &str, place: (bool, String))
    requires
        call_ensures(tag_search_match_sort_key, (value, search), place),
    ensures
        place.0 <==> !(trimmed(search@).len() > 0 && equal_ignoring_ascii_case(
            trimmed(value@),
            trimmed(search@),
        )),
        place.1@ == lowercase(value@),
{
}

} // verus!
