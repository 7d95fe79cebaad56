//! Finding the sounds of a category that match a search and checked tags.
use super::rows::{category_rows, display_name, display_names_for_rows, path_order, path_order_of};
use super::rows::{row_at, row_key, FileRow, RowView};
use super::tags::{row_has_stem, tags_on};
use super::{Database, DatabaseView, TagValue, TagValueView};
use crate::like::{descendant_pattern, like, like_descendant_pattern, like_matches};
use crate::like::{lemma_like_descendant, lemma_like_subsequence};
use crate::like::{like_subsequence_pattern, subsequence_pattern};
use crate::model::{fuzzy, matches_scoped, normal_key, normal_value, normalize_tag_key};
use crate::model::{normalize_tag_value, record_matches_scoped, record_search_sort_key_scoped};
use crate::model::{record_sort_key, AudioFormat, Category, FileRecord, FileSupport, FileVariant};
use crate::model::{is_subsequence, lemma_better_match_ranks_first, lemma_every_filter_counts};
use crate::model::lemma_rank_ignores_case;
use crate::model::{lemma_shown_by_name, value_matches, variants_match, RecordView, VariantView};
use crate::order::{caseless_list, is_sorted_by, key_lt, lemma_filter_contains, lemma_key_order};
use crate::order::{key_le, lemma_ordering_exists, lemma_sorted_by, text_lt};
use crate::order::{lemma_sorted_by_is_ordering, sort_caseless, sort_with_keys, sorted_by};
use crate::order::{is_ordering, ordering, text_key, text_list, KeyView, SortKey};
use crate::row_set::{lemma_push_contains, lemma_take_contains, Row};
use crate::text::{ascii_lower, equal_ignoring_ascii_case, lowercase, same_ignoring_ascii_case};
use crate::text::{begins_with, occurs_in, same_text, to_ascii_lower, words};
use crate::text_map::{group_by_name, groups, lemma_named, named, TextMap, TextSet};
use vstd::prelude::*;

verus! {

broadcast use vstd::string::group_string_axioms;

/// The values that a stem has under a key.
pub open spec fn values_of(
    db: DatabaseView,
    category: Category,
    stem: Seq<char>,
    key: Seq<char>,
) -> Set<Seq<char>> {
    Set::new(
        |value: Seq<char>| db.tag_values.contains(TagValueView { category, stem, key, value }),
    )
}

/// Whether a stem has a value under `key`.
pub open spec fn has_key(
    db: DatabaseView,
    category: Category,
    stem: Seq<char>,
    key: Seq<char>,
) -> bool {
    exists|value: Seq<char>| #[trigger] values_of(db, category, stem, key).contains(value)
}

/// The tags of a stem: the values under each key, the case of letters aside in their order.
pub open spec fn stem_tags(
    db: DatabaseView,
    category: Category,
    stem: Seq<char>,
) -> Map<Seq<char>, Seq<Seq<char>>> {
    Map::new(
        |key: Seq<char>| has_key(db, category, stem, key),
        |key: Seq<char>| caseless_list(values_of(db, category, stem, key)),
    )
}

/// Different items under one name stay different.
proof fn lemma_named_no_duplicates<T>(items: Seq<T>, names: Seq<Seq<char>>, name: Seq<char>)
    requires
        items.len() == names.len(),
        forall|i: int, j: int|
            0 <= i < j < items.len() && #[trigger] names[i] == #[trigger] names[j] ==> items[i]
                != items[j],
    ensures
        named(items, names, name).no_duplicates(),
    decreases items.len(),
{
    if items.len() > 0 {
        let front = items.drop_last();
        let front_names = names.drop_last();
        assert forall|i: int, j: int|
            0 <= i < j < front.len() && #[trigger] front_names[i]
                == #[trigger] front_names[j] implies front[i] != front[j] by {
            assert(names[i] == names[j]);
        }
        lemma_named_no_duplicates(front, front_names, name);
        if names.last() == name {
            let rest = named(front, front_names, name);
            lemma_named(front, front_names, name);
            if rest.contains(items.last()) {
                let i = choose|i: int|
                    0 <= i < front.len() && #[trigger] front[i] == items.last() && front_names[i]
                        == name;
                assert(names[i] == names[names.len() - 1]);
                assert(items[i] != items[items.len() - 1]);
            }
            assert forall|i: int, j: int|
                0 <= i < j < named(items, names, name).len() implies named(items, names, name)[i]
                != named(items, names, name)[j] by {
                if j == rest.len() {
                    assert(rest.contains(rest[i]));
                }
            }
        }
    }
}

impl Database {
    /// The tags of a stem.
    pub fn tags_for_stem(&self, category: Category, stem: &str) -> (r: TextMap<Vec<String>>)
        ensures
            r@ == stem_tags(self@, category, stem@),
    {
        let rows = self.stem_rows(category, stem);
        let ghost views = rows.deep_view();
        let ghost p = |row: TagValueView| row_has_stem(row, category, stem@);
        let mut keys: Vec<String> = Vec::new();
        let mut values: Vec<String> = Vec::new();
        let mut i: usize = 0;
        while i < rows.len()
            invariant
                i <= rows@.len(),
                views == rows.deep_view(),
                keys@.len() == i,
                values@.len() == i,
                forall|j: int| 0 <= j < i ==> #[trigger] keys.deep_view()[j] == views[j].key,
                forall|j: int| 0 <= j < i ==> #[trigger] values.deep_view()[j] == views[j].value,
            decreases rows.len() - i,
        {
            let ghost old_keys = keys.deep_view();
            let ghost old_values = values.deep_view();
            assert(views[i as int] == rows@[i as int].deep_view());
            keys.push(rows[i].key.clone());
            values.push(rows[i].value.clone());
            assert(keys.deep_view() =~= old_keys.push(views[i as int].key));
            assert(values.deep_view() =~= old_values.push(views[i as int].value));
            i += 1;
        }
        let ghost key_texts = keys.deep_view();
        let ghost value_texts = values.deep_view();
        proof {
            let all = self.tag_values@.filter(p);
            assert forall|j: int| 0 <= j < views.len() implies all.contains(#[trigger] views[j]) by {
                assert(views.contains(views[j]));
            }
            assert forall|a: int, b: int|
                0 <= a < b < value_texts.len() && #[trigger] key_texts[a]
                    == #[trigger] key_texts[b] implies value_texts[a] != value_texts[b] by {
                let key_of = |row: TagValueView| TagValue::row_key(row);
                assert(key_lt(key_of(views[a]), key_of(views[b])));
                lemma_key_order(key_of(views[a]), key_of(views[a]));
                assert(all.contains(views[a]) && all.contains(views[b]));
                if value_texts[a] == value_texts[b] {
                    assert(views[a] == views[b]);
                }
            }
            assert forall|key: Seq<char>, value: Seq<char>| #[trigger]
                values_of(self@, category, stem@, key).contains(value) <==> exists|j: int|
                    0 <= j < value_texts.len() && #[trigger] value_texts[j] == value && key_texts[j]
                        == key by {
                let row = TagValueView { category, stem: stem@, key, value };
                if values_of(self@, category, stem@, key).contains(value) {
                    assert(all.contains(row));
                    assert(views.contains(row));
                    let j = choose|j: int| 0 <= j < views.len() && views[j] == row;
                    assert(value_texts[j] == value && key_texts[j] == key);
                }
                if exists|j: int|
                    0 <= j < value_texts.len() && #[trigger] value_texts[j] == value && key_texts[j]
                        == key {
                    let j = choose|j: int|
                        0 <= j < value_texts.len() && #[trigger] value_texts[j] == value
                            && key_texts[j] == key;
                    assert(all.contains(views[j]));
                    assert(views[j] == row);
                }
            }
        }
        let grouped = group_by_name(values, &keys);
        let total = grouped.len();
        let ghost names = grouped.keys();
        let mut tags: TextMap<Vec<String>> = TextMap::new();
        let mut i: usize = 0;
        while i < total
            invariant
                i <= total,
                total == names.len(),
                names == grouped.keys(),
                grouped@ == groups(value_texts, key_texts),
                value_texts.len() == key_texts.len(),
                forall|k: Seq<char>| #[trigger] grouped@.dom().contains(k) <==> names.contains(k),
                forall|a: int, b: int|
                    0 <= a < b < value_texts.len() && #[trigger] key_texts[a]
                        == #[trigger] key_texts[b] ==> value_texts[a] != value_texts[b],
                forall|key: Seq<char>, value: Seq<char>| #[trigger]
                    values_of(self@, category, stem@, key).contains(value) <==> exists|j: int|
                        0 <= j < value_texts.len() && #[trigger] value_texts[j] == value
                            && key_texts[j] == key,
                forall|k: Seq<char>| #[trigger]
                    tags@.contains_key(k) <==> names.take(i as int).contains(k),
                forall|k: Seq<char>| #[trigger]
                    tags@.contains_key(k) ==> tags@[k] == caseless_list(
                        values_of(self@, category, stem@, k),
                    ),
            decreases total - i,
        {
            let key = grouped.key_at(i);
            let group = crate::text::copy_texts(grouped.value_at(i));
            let ghost members = values_of(self@, category, stem@, key@);
            proof {
                lemma_named(value_texts, key_texts, key@);
                lemma_named_no_duplicates(value_texts, key_texts, key@);
                assert(group.deep_view() == named(value_texts, key_texts, key@));
                assert forall|v: Seq<char>| #[trigger]
                    members.contains(v) <==> group.deep_view().contains(v) by {}
            }
            let sorted = sort_caseless(group, Ghost(members));
            tags.insert(key.clone(), sorted);
            proof {
                assert forall|k: Seq<char>| #[trigger]
                    tags@.contains_key(k) <==> names.take(i + 1).contains(k) by {
                    lemma_take_contains(names, i as int, k);
                }
            }
            i += 1;
        }
        proof {
            assert(names.take(i as int) =~= names);
            let wanted = stem_tags(self@, category, stem@);
            assert forall|k: Seq<char>| #[trigger] tags@.contains_key(k) <==> wanted.contains_key(
                k,
            ) by {
                assert(tags@.contains_key(k) <==> grouped@.dom().contains(k));
                if wanted.contains_key(k) {
                    let v = choose|v: Seq<char>| #[trigger]
                        values_of(self@, category, stem@, k).contains(v);
                    let j = choose|j: int|
                        0 <= j < value_texts.len() && #[trigger] value_texts[j] == v
                            && key_texts[j] == k;
                    assert(key_texts.contains(k));
                }
                if key_texts.contains(k) {
                    let j = choose|j: int| 0 <= j < key_texts.len() && key_texts[j] == k;
                    assert(value_texts[j] == value_texts[j]);
                    assert(values_of(self@, category, stem@, k).contains(value_texts[j]));
                }
            }
            assert(tags@ =~= wanted);
        }
        tags
    }
}

/// Whether `value`, checked under the key `key`, is in `selected`, keys and values taken in the
/// form in which they are stored.
pub open spec fn is_checked(
    selected: Map<Seq<char>, Set<Seq<char>>>,
    key: Seq<char>,
    value: Seq<char>,
) -> bool {
    exists|raw: Seq<char>, wanted: Seq<char>|
        selected.contains_key(raw) && #[trigger] selected[raw].contains(wanted) && normal_key(raw)
            == Some(key) && normal_value(wanted) == Some(value)
}

/// Whether a key of `selected` is `key` in the form in which keys are stored.
pub open spec fn is_checked_key(
    selected: Map<Seq<char>, Set<Seq<char>>>,
    key: Seq<char>,
) -> bool {
    exists|raw: Seq<char>| #[trigger] selected.contains_key(raw) && normal_key(raw) == Some(key)
}

/// `selected` with keys and values in the form in which they are stored.
pub open spec fn normal_selection(
    selected: Map<Seq<char>, Set<Seq<char>>>,
) -> Map<Seq<char>, Set<Seq<char>>> {
    Map::new(
        |key: Seq<char>| is_checked_key(selected, key),
        |key: Seq<char>| Set::new(|value: Seq<char>| is_checked(selected, key, value)),
    )
}

/// Puts the normal forms of `values` into `out`.
fn add_normal_values(out: &mut TextSet, values: &TextSet)
    ensures
        forall|v: Seq<char>| #[trigger]
            final(out)@.contains(v) <==> old(out)@.contains(v) || exists|w: Seq<char>| #[trigger]
                values@.contains(w) && normal_value(w) == Some(v),
{
    let ghost before = out@;
    let total = values.len();
    let ghost items = values.items();
    let mut i: usize = 0;
    while i < total
        invariant
            i <= total,
            total == items.len(),
            items == values.items(),
            forall|v: Seq<char>| #[trigger]
                out@.contains(v) <==> before.contains(v) || exists|j: int|
                    0 <= j < i && normal_value(#[trigger] items[j]) == Some(v),
        decreases total - i,
    {
        let ghost was = out@;
        let value = values.item_at(i);
        match normalize_tag_value(value.as_str()) {
            Some(normal) => {
                out.insert(normal);
            },
            None => {},
        }
        proof {
            assert forall|v: Seq<char>| #[trigger]
                out@.contains(v) <==> before.contains(v) || exists|j: int|
                    0 <= j < i + 1 && normal_value(#[trigger] items[j]) == Some(v) by {
                if was.contains(v) && !before.contains(v) {
                    let j = choose|j: int| 0 <= j < i && normal_value(#[trigger] items[j]) == Some(v);
                    assert(normal_value(items[j]) == Some(v));
                }
                assert(normal_value(items[i as int]) == normal_value(value@));
            }
        }
        i += 1;
    }
    proof {
        assert forall|v: Seq<char>| #[trigger]
            out@.contains(v) <==> before.contains(v) || exists|w: Seq<char>| #[trigger]
                values@.contains(w) && normal_value(w) == Some(v) by {
            if exists|j: int| 0 <= j < i && normal_value(#[trigger] items[j]) == Some(v) {
                let j = choose|j: int| 0 <= j < i && normal_value(#[trigger] items[j]) == Some(v);
                assert(items.contains(items[j]));
                assert(values@.contains(items[j]));
            }
            if exists|w: Seq<char>| #[trigger] values@.contains(w) && normal_value(w) == Some(v) {
                let w = choose|w: Seq<char>| #[trigger]
                    values@.contains(w) && normal_value(w) == Some(v);
                assert(items.contains(w));
                let j = choose|j: int| 0 <= j < items.len() && items[j] == w;
                assert(normal_value(items[j]) == Some(v));
            }
        }
    }
}

/// `selected` with keys and values in the form in which they are stored.
pub fn canonical_selected(selected: &TextMap<TextSet>) -> (r: TextMap<TextSet>)
    ensures
        r@ == normal_selection(selected@),
{
    let mut out: TextMap<TextSet> = TextMap::new();
    let total = selected.len();
    let ghost keys = selected.keys();
    let mut i: usize = 0;
    while i < total
        invariant
            i <= total,
            total == keys.len(),
            keys == selected.keys(),
            forall|k: Seq<char>| #[trigger] selected@.dom().contains(k) <==> keys.contains(k),
            forall|k: Seq<char>| #[trigger]
                out@.contains_key(k) <==> exists|j: int|
                    0 <= j < i && normal_key(#[trigger] keys[j]) == Some(k),
            forall|k: Seq<char>, v: Seq<char>| #[trigger]
                out@.contains_key(k) ==> (#[trigger] out@[k].contains(v) <==> exists|
                    j: int,
                    w: Seq<char>,
                |
                    0 <= j < i && #[trigger] selected@[keys[j]].contains(w) && normal_key(keys[j])
                        == Some(k) && normal_value(w) == Some(v)),
        decreases total - i,
    {
        let ghost was = out@;
        let raw = selected.key_at(i);
        let values = selected.value_at(i);
        match normalize_tag_key(raw.as_str()) {
            Some(key) => {
                let mut set = match out.remove(key.as_str()) {
                    Some(set) => set,
                    None => TextSet::new(),
                };
                let ghost old_set = set@;
                let ghost name = key@;
                add_normal_values(&mut set, values);
                let ghost new_set = set@;
                out.insert(key, set);
                proof {
                    assert forall|k: Seq<char>, v: Seq<char>| #[trigger]
                        out@.contains_key(k) implies (#[trigger] out@[k].contains(v) <==> exists|
                        j: int,
                        w: Seq<char>,
                    |
                        0 <= j < i + 1 && #[trigger] selected@[keys[j]].contains(w) && normal_key(
                            keys[j],
                        ) == Some(k) && normal_value(w) == Some(v)) by {
                        if k == name {
                            assert(out@[k] == new_set);
                            if new_set.contains(v) {
                                if old_set.contains(v) {
                                    let (j, w) = choose|j: int, w: Seq<char>|
                                        0 <= j < i && #[trigger] selected@[keys[j]].contains(w)
                                            && normal_key(keys[j]) == Some(k) && normal_value(w)
                                            == Some(v);
                                    assert(selected@[keys[j]].contains(w));
                                } else {
                                    let w = choose|w: Seq<char>| #[trigger]
                                        values@.contains(w) && normal_value(w) == Some(v);
                                    assert(selected@[keys[i as int]].contains(w));
                                }
                            }
                            if exists|j: int, w: Seq<char>|
                                0 <= j < i + 1 && #[trigger] selected@[keys[j]].contains(w)
                                    && normal_key(keys[j]) == Some(k) && normal_value(w) == Some(
                                    v,
                                ) {
                                let (j, w) = choose|j: int, w: Seq<char>|
                                    0 <= j < i + 1 && #[trigger] selected@[keys[j]].contains(w)
                                        && normal_key(keys[j]) == Some(k) && normal_value(w)
                                        == Some(v);
                                if j < i {
                                    assert(was.contains_key(k));
                                    assert(was[k].contains(v));
                                } else {
                                    assert(values@.contains(w));
                                }
                            }
                        } else {
                            assert(was.contains_key(k));
                            assert(out@[k] == was[k]);
                            if exists|j: int, w: Seq<char>|
                                0 <= j < i + 1 && #[trigger] selected@[keys[j]].contains(w)
                                    && normal_key(keys[j]) == Some(k) && normal_value(w) == Some(
                                    v,
                                ) {
                                let (j, w) = choose|j: int, w: Seq<char>|
                                    0 <= j < i + 1 && #[trigger] selected@[keys[j]].contains(w)
                                        && normal_key(keys[j]) == Some(k) && normal_value(w)
                                        == Some(v);
                                assert(j < i);
                                assert(selected@[keys[j]].contains(w));
                            }
                            if was[k].contains(v) {
                                let (j, w) = choose|j: int, w: Seq<char>|
                                    0 <= j < i && #[trigger] selected@[keys[j]].contains(w)
                                        && normal_key(keys[j]) == Some(k) && normal_value(w)
                                        == Some(v);
                                assert(selected@[keys[j]].contains(w));
                            }
                        }
                    }
                    assert forall|k: Seq<char>| #[trigger]
                        out@.contains_key(k) <==> exists|j: int|
                            0 <= j < i + 1 && normal_key(#[trigger] keys[j]) == Some(k) by {
                        if was.contains_key(k) {
                            let j = choose|j: int|
                                0 <= j < i && normal_key(#[trigger] keys[j]) == Some(k);
                            assert(normal_key(keys[j]) == Some(k));
                        }
                        assert(normal_key(keys[i as int]) == Some(name));
                    }
                }
            },
            None => {
                proof {
                    assert(normal_key(keys[i as int]) is None);
                }
            },
        }
        i += 1;
    }
    proof {
        let wanted = normal_selection(selected@);
        assert forall|k: Seq<char>| #[trigger] out@.contains_key(k) <==> wanted.contains_key(k) by {
            if out@.contains_key(k) {
                let j = choose|j: int| 0 <= j < i && normal_key(#[trigger] keys[j]) == Some(k);
                assert(keys.contains(keys[j]));
                assert(selected@.dom().contains(keys[j]));
                assert(selected@.contains_key(keys[j]));
            }
            if wanted.contains_key(k) {
                let raw = choose|raw: Seq<char>| #[trigger]
                    selected@.contains_key(raw) && normal_key(raw) == Some(k);
                assert(selected@.dom().contains(raw));
                let j = choose|j: int| 0 <= j < keys.len() && keys[j] == raw;
                assert(normal_key(keys[j]) == Some(k));
            }
        }
        assert forall|k: Seq<char>| #[trigger] out@.contains_key(k) implies out@[k]
            == wanted[k] by {
            assert forall|v: Seq<char>| #[trigger] out@[k].contains(v) <==> wanted[k].contains(
                v,
            ) by {
                if out@[k].contains(v) {
                    let (j, w) = choose|j: int, w: Seq<char>|
                        0 <= j < i && #[trigger] selected@[keys[j]].contains(w) && normal_key(
                            keys[j],
                        ) == Some(k) && normal_value(w) == Some(v);
                    assert(keys.contains(keys[j]));
                    assert(selected@.dom().contains(keys[j]));
                    assert(selected@[keys[j]].contains(w));
                }
                if is_checked(selected@, k, v) {
                    let (raw, w) = choose|raw: Seq<char>, w: Seq<char>|
                        selected@.contains_key(raw) && #[trigger] selected@[raw].contains(w)
                            && normal_key(raw) == Some(k) && normal_value(w) == Some(v);
                    assert(selected@.dom().contains(raw));
                    let j = choose|j: int| 0 <= j < keys.len() && keys[j] == raw;
                    assert(selected@[keys[j]].contains(w));
                }
            }
            assert(out@[k] =~= wanted[k]);
        }
        assert(out@ =~= wanted);
    }
    out
}

/// Whether a value is checked anywhere in `selected`.
pub open spec fn some_checked(selected: Map<Seq<char>, Set<Seq<char>>>) -> bool {
    exists|key: Seq<char>, value: Seq<char>|
        selected.contains_key(key) && #[trigger] selected[key].contains(value)
}

/// Whether a value is checked anywhere in `selected`.
fn any_checked(selected: &TextMap<TextSet>) -> (r: bool)
    ensures
        r == some_checked(selected@),
{
    let total = selected.len();
    let ghost keys = selected.keys();
    let mut i: usize = 0;
    while i < total
        invariant
            i <= total,
            total == keys.len(),
            keys == selected.keys(),
            forall|k: Seq<char>| #[trigger] selected@.dom().contains(k) <==> keys.contains(k),
            forall|j: int, v: Seq<char>|
                0 <= j < i ==> !#[trigger] selected@[keys[j]].contains(v),
        decreases total - i,
    {
        let values = selected.value_at(i);
        let count = values.len();
        if count > 0 {
            let first = values.item_at(0);
            assert(selected@[keys[i as int]].contains(first@));
            return true;
        }
        proof {
            assert forall|v: Seq<char>| !#[trigger] selected@[keys[i as int]].contains(v) by {
                assert(values@.contains(v) ==> values.items().contains(v));
            }
        }
        i += 1;
    }
    proof {
        if some_checked(selected@) {
            let (key, value) = choose|key: Seq<char>, value: Seq<char>|
                selected@.contains_key(key) && #[trigger] selected@[key].contains(value);
            assert(selected@.dom().contains(key));
            let j = choose|j: int| 0 <= j < keys.len() && keys[j] == key;
            assert(selected@[keys[j]].contains(value));
        }
    }
    false
}

/// Whether one of `rows` has a key or value that matches `pattern`.
pub open spec fn some_tag_like(rows: Seq<TagValueView>, pattern: Seq<char>) -> bool {
    exists|i: int|
        0 <= i < rows.len() && (like(ascii_lower((#[trigger] rows[i]).key), pattern) || like(
            ascii_lower(rows[i].value),
            pattern,
        ))
}

/// Whether one of `rows` has the value `wanted`, or one below it, under the key `key`.
pub open spec fn some_tag_passes(
    rows: Seq<TagValueView>,
    key: Seq<char>,
    wanted: Seq<char>,
) -> bool {
    exists|i: int|
        0 <= i < rows.len() && equal_ignoring_ascii_case((#[trigger] rows[i]).key, key) && (
        rows[i].value == wanted || like(rows[i].value, descendant_pattern(wanted)))
}

/// Whether a file with tags `rows` is a candidate for a search and checked tags: what the database
/// can tell from stem, extension and tags alone.
pub open spec fn is_candidate(
    row: RowView,
    rows: Seq<TagValueView>,
    search: Seq<char>,
    selected: Map<Seq<char>, Set<Seq<char>>>,
    include_tags: bool,
) -> bool {
    let pattern = subsequence_pattern(lowercase(search));
    &&& search.len() == 0 || like(ascii_lower(row.stem), pattern) || like(
        ascii_lower(row.extension),
        pattern,
    ) || (include_tags && some_tag_like(rows, pattern))
    &&& forall|key: Seq<char>, wanted: Seq<char>|
        selected.contains_key(key) && #[trigger] selected[key].contains(wanted) ==> some_tag_passes(
            rows,
            key,
            wanted,
        )
}

/// The stems of the files that are candidates for a search and checked tags.
pub open spec fn candidate_stems(
    db: DatabaseView,
    category: Category,
    search: Seq<char>,
    selected: Map<Seq<char>, Set<Seq<char>>>,
    include_tags: bool,
) -> Set<Seq<char>> {
    Set::new(
        |stem: Seq<char>|
            exists|path: Seq<char>| #[trigger]
                db.files.contains_key(path) && db.files[path].category == category
                    && db.files[path].stem == stem && is_candidate(
                    row_at(db, path),
                    tags_on(db, category, stem),
                    search,
                    selected,
                    include_tags,
                ),
    )
}

/// Whether one of `rows` has a key or value that matches `pattern`.
fn any_tag_like(rows: &Vec<TagValue>, pattern: &str) -> (r: bool)
    ensures
        r == some_tag_like(rows.deep_view(), pattern@),
{
    let ghost views = rows.deep_view();
    let mut i: usize = 0;
    while i < rows.len()
        invariant
            i <= rows@.len(),
            views == rows.deep_view(),
            forall|j: int|
                0 <= j < i ==> !(like(ascii_lower((#[trigger] views[j]).key), pattern@) || like(
                    ascii_lower(views[j].value),
                    pattern@,
                )),
        decreases rows.len() - i,
    {
        assert(views[i as int] == rows@[i as int].deep_view());
        let key = to_ascii_lower(rows[i].key.as_str());
        let value = to_ascii_lower(rows[i].value.as_str());
        if like_matches(key.as_str(), pattern) || like_matches(value.as_str(), pattern) {
            return true;
        }
        i += 1;
    }
    false
}

/// Whether one of `rows` has the value `wanted`, or one below it, under the key `key`.
fn any_tag_passes(rows: &Vec<TagValue>, key: &str, wanted: &str) -> (r: bool)
    ensures
        r == some_tag_passes(rows.deep_view(), key@, wanted@),
{
    let ghost views = rows.deep_view();
    let pattern = like_descendant_pattern(wanted);
    let mut i: usize = 0;
    while i < rows.len()
        invariant
            i <= rows@.len(),
            views == rows.deep_view(),
            pattern@ == descendant_pattern(wanted@),
            forall|j: int|
                0 <= j < i ==> !(equal_ignoring_ascii_case((#[trigger] views[j]).key, key@) && (
                views[j].value == wanted@ || like(views[j].value, descendant_pattern(wanted@)))),
        decreases rows.len() - i,
    {
        assert(views[i as int] == rows@[i as int].deep_view());
        if same_ignoring_ascii_case(rows[i].key.as_str(), key) && (same_text(
            rows[i].value.as_str(),
            wanted,
        ) || like_matches(rows[i].value.as_str(), pattern.as_str())) {
            return true;
        }
        i += 1;
    }
    false
}

/// Whether every checked value passes for the tags `rows`.
fn all_checked_pass(rows: &Vec<TagValue>, selected: &TextMap<TextSet>) -> (r: bool)
    ensures
        r == forall|key: Seq<char>, wanted: Seq<char>|
            selected@.contains_key(key) && #[trigger] selected@[key].contains(wanted)
                ==> some_tag_passes(rows.deep_view(), key, wanted),
{
    let ghost views = rows.deep_view();
    let total = selected.len();
    let ghost keys = selected.keys();
    let mut i: usize = 0;
    while i < total
        invariant
            i <= total,
            total == keys.len(),
            keys == selected.keys(),
            views == rows.deep_view(),
            forall|k: Seq<char>| #[trigger] selected@.dom().contains(k) <==> keys.contains(k),
            forall|j: int, w: Seq<char>|
                0 <= j < i && #[trigger] selected@[keys[j]].contains(w) ==> some_tag_passes(
                    views,
                    keys[j],
                    w,
                ),
        decreases total - i,
    {
        let key = selected.key_at(i);
        let wanted = selected.value_at(i);
        let count = wanted.len();
        let ghost items = wanted.items();
        let mut n: usize = 0;
        while n < count
            invariant
                n <= count,
                count == items.len(),
                items == wanted.items(),
                views == rows.deep_view(),
                selected@.contains_key(key@),
                wanted@ == selected@[key@],
                forall|m: int| 0 <= m < n ==> some_tag_passes(views, key@, #[trigger] items[m]),
            decreases count - n,
        {
            let value = wanted.item_at(n);
            if !any_tag_passes(rows, key.as_str(), value.as_str()) {
                assert(selected@[key@].contains(value@));
                return false;
            }
            n += 1;
        }
        proof {
            assert forall|w: Seq<char>| #[trigger]
                selected@[keys[i as int]].contains(w) implies some_tag_passes(
                views,
                keys[i as int],
                w,
            ) by {
                assert(wanted@.contains(w));
                assert(items.contains(w));
                let m = choose|m: int| 0 <= m < items.len() && items[m] == w;
                assert(some_tag_passes(views, key@, items[m]));
            }
        }
        i += 1;
    }
    proof {
        assert forall|key: Seq<char>, w: Seq<char>|
            selected@.contains_key(key) && #[trigger] selected@[key].contains(
                w,
            ) implies some_tag_passes(views, key, w) by {
            assert(selected@.dom().contains(key));
            let j = choose|j: int| 0 <= j < keys.len() && keys[j] == key;
            assert(selected@[keys[j]].contains(w));
        }
    }
    true
}

/// The rows of the stems in `stems`, or of all stems.
pub open spec fn rows_within(
    db: DatabaseView,
    category: Category,
    stems: Option<Set<Seq<char>>>,
) -> Set<RowView> {
    category_rows(
        db,
        category,
        |stem: Seq<char>|
            match stems {
                Some(stems) => stems.contains(stem),
                None => true,
            },
    )
}

/// The rows of the stems in `stems`, or of all stems, by stem, extension and path.
pub open spec fn rows_listed(
    db: DatabaseView,
    category: Category,
    stems: Option<Set<Seq<char>>>,
) -> Seq<RowView> {
    ordering(rows_within(db, category, stems), |row: RowView| row_key(row))
}

/// The place of an extension in an order of preference; behind all formats if it is none of them.
pub open spec fn preference(extension: Seq<char>, priority: Seq<AudioFormat>) -> int
    decreases priority.len(),
{
    if priority.len() == 0 || equal_ignoring_ascii_case(priority[0].extension_text(), extension) {
        0
    } else {
        1 + preference(extension, priority.drop_first())
    }
}

/// The place of an extension in an order of preference.
pub fn priority_index(extension: &str, priority: &[AudioFormat]) -> (r: usize)
    ensures
        r == preference(extension@, priority@),
        r <= priority@.len(),
{
    let mut i: usize = 0;
    assert(priority@.skip(0) =~= priority@);
    while i < priority.len()
        invariant
            i <= priority@.len(),
            preference(extension@, priority@) == i + preference(
                extension@,
                priority@.skip(i as int),
            ),
        decreases priority.len() - i,
    {
        if same_ignoring_ascii_case(priority[i].extension(), extension) {
            return i;
        }
        assert(priority@.skip(i as int).drop_first() =~= priority@.skip(i + 1));
        i += 1;
    }
    i
}

/// The key by which the files of a sound are ordered: preferred formats first, then by extension
/// and path.
pub open spec fn variant_key(variant: VariantView, priority: Seq<AudioFormat>) -> KeyView {
    KeyView {
        rank: preference(variant.extension, priority),
        parts: seq![variant.extension] + path_order(variant.path),
    }
}

/// The file of a row.
pub open spec fn variant_of(row: RowView) -> VariantView {
    VariantView {
        path: row.path,
        extension: row.extension,
        size: row.size,
        modified: row.modified,
        first_seen_at: row.first_seen_at,
        waveform: row.preview_waveform,
    }
}

/// The sound with the name `name` that the rows `group` make up.
pub open spec fn record_of(
    db: DatabaseView,
    category: Category,
    name: Seq<char>,
    group: Seq<RowView>,
    priority: Seq<AudioFormat>,
) -> RecordView {
    let variants = sorted_by(
        group.map_values(|row: RowView| variant_of(row)),
        |variant: VariantView| variant_key(variant, priority),
    );
    RecordView {
        name,
        path: variants[0].path,
        support: FileSupport::Native,
        stem: group[0].stem,
        variants,
        tags: stem_tags(db, category, group[0].stem),
    }
}

/// The sounds that `rows` make up, one for each name under which a row is shown, by name.
pub open spec fn records_of(
    db: DatabaseView,
    category: Category,
    rows: Seq<RowView>,
    names: Seq<Seq<char>>,
    priority: Seq<AudioFormat>,
) -> Seq<RecordView> {
    text_list(names.to_set()).map_values(
        |name: Seq<char>| record_of(db, category, name, named(rows, names, name), priority),
    )
}

/// The stems to which a query is limited: the candidates, where the database can tell them.
pub open spec fn query_stems(
    db: DatabaseView,
    category: Category,
    search: Seq<char>,
    selected: Map<Seq<char>, Set<Seq<char>>>,
    include_tags: bool,
) -> Option<Set<Seq<char>>> {
    if (search.len() > 0 || some_checked(selected)) && vstd::utf8::is_ascii_chars(search) {
        Some(candidate_stems(db, category, search, selected, include_tags))
    } else {
        None
    }
}

/// The sounds of `category` that match a search and checked tags, the best match first.
pub open spec fn visible_records(
    db: DatabaseView,
    category: Category,
    search: Seq<char>,
    selected: Map<Seq<char>, Set<Seq<char>>>,
    include_tags: bool,
    priority: Seq<AudioFormat>,
    folder: Option<Seq<char>>,
) -> Seq<RecordView> {
    let checked = normal_selection(selected);
    let stems = query_stems(db, category, search, checked, include_tags);
    let rows = rows_listed(db, category, stems);
    let names = rows.map_values(|row: RowView| display_name(rows.to_set(), row, folder));
    sorted_by(
        records_of(db, category, rows, names, priority).filter(
            |record: RecordView| matches_scoped(record, search, checked, include_tags),
        ),
        |record: RecordView| record_sort_key(record, search, include_tags),
    )
}

impl Database {
    /// The files of `category` whose stems are in `stems`, or all of them, by stem, extension and
    /// path.
    fn list_rows(&self, category: Category, stems: Option<&TextSet>) -> (r: Vec<FileRow>)
        ensures
            r.deep_view() == rows_listed(
                self@,
                category,
                match stems {
                    Some(stems) => Some(stems@),
                    None => None,
                },
            ),
    {
        let ghost within: Option<Set<Seq<char>>> = match stems {
            Some(stems) => Some(stems@),
            None => None,
        };
        let ghost all = rows_within(self@, category, within);
        let ghost key = |row: RowView| row_key(row);
        let total = self.files.len();
        let ghost paths = self.files.keys();
        let mut rows: Vec<FileRow> = Vec::new();
        let mut keys: Vec<SortKey> = Vec::new();
        let mut i: usize = 0;
        while i < total
            invariant
                i <= total,
                total == paths.len(),
                paths == self.files.keys(),
                is_ordering(paths, self.files@.dom(), |t: Seq<char>| text_key(t)),
                within == match stems {
                    Some(stems) => Some(stems@),
                    None => None,
                },
                all == rows_within(self@, category, within),
                key == (|row: RowView| row_key(row)),
                keys@.len() == rows@.len(),
                forall|j: int| #![trigger rows.deep_view()[j]]
                    0 <= j < rows@.len() ==> keys@[j]@ == key(rows.deep_view()[j]),
                forall|row: RowView| #[trigger]
                    rows.deep_view().contains(row) <==> all.contains(row) && paths.take(
                        i as int,
                    ).contains(row.path),
                forall|a: int, b: int|
                    0 <= a < b < rows@.len() ==> (#[trigger] rows.deep_view()[a]).path != (
                    #[trigger] rows.deep_view()[b]).path,
            decreases total - i,
        {
            let path = self.files.key_at(i);
            let stored = self.files.value_at(i);
            let ghost before = rows.deep_view();
            let ghost old_keys = keys@;
            let ghost here = row_at(self@, path@);
            let picked = match stems {
                Some(stems) => stems.contains(stored.stem.as_str()),
                None => true,
            };
            proof {
                assert forall|p: Seq<char>| #[trigger]
                    paths.take(i + 1).contains(p) <==> paths.take(i as int).contains(p) || p
                        == path@ by {
                    lemma_take_contains(paths, i as int, p);
                }
                if paths.take(i as int).contains(path@) {
                    let j = choose|j: int| 0 <= j < i && paths.take(i as int)[j] == path@;
                    let text_key_of = |t: Seq<char>| text_key(t);
                    assert(key_lt(text_key_of(paths[j]), text_key_of(paths[i as int])));
                    lemma_key_order(text_key_of(paths[j]), text_key_of(paths[j]));
                }
            }
            if stored.category == category && picked {
                let row = FileRow {
                    path: path.clone(),
                    stem: stored.stem.clone(),
                    extension: stored.extension.clone(),
                    size: stored.size,
                    modified: stored.modified,
                    first_seen_at: stored.first_seen_at,
                    preview_waveform: stored.preview_waveform,
                };
                assert(row.deep_view() == here);
                let mut parts: Vec<String> = Vec::new();
                parts.push(stored.stem.clone());
                parts.push(stored.extension.clone());
                parts.push(path.clone());
                assert(parts.deep_view() =~= seq![here.stem, here.extension, here.path]);
                keys.push(SortKey { rank: 0, parts });
                rows.push(row);
                proof {
                    assert(rows.deep_view() =~= before.push(here));
                    assert forall|row: RowView| #[trigger]
                        rows.deep_view().contains(row) <==> before.contains(row) || row == here by {
                        lemma_push_contains(before, here, row);
                    }
                    assert forall|a: int, b: int| 0 <= a < b < rows@.len() implies (
                    #[trigger] rows.deep_view()[a]).path != (#[trigger] rows.deep_view()[b]).path by {
                        if b == before.len() {
                            assert(before.contains(before[a]));
                            assert(paths.take(i as int).contains(before[a].path));
                        } else {
                            assert(before[a].path != before[b].path);
                        }
                    }
                    assert forall|j: int| #![trigger rows.deep_view()[j]]
                        0 <= j < rows@.len() implies keys@[j]@ == key(rows.deep_view()[j]) by {
                        if j < before.len() {
                            assert(rows.deep_view()[j] == before[j]);
                            assert(keys@[j] == old_keys[j]);
                        }
                    }
                }
            }
            proof {
                assert forall|row: RowView| #[trigger]
                    rows.deep_view().contains(row) <==> all.contains(row) && paths.take(
                        i + 1,
                    ).contains(row.path) by {
                    assert(before.contains(row) <==> all.contains(row) && paths.take(
                        i as int,
                    ).contains(row.path));
                }
            }
            i += 1;
        }
        proof {
            assert(paths.take(i as int) =~= paths);
            let q = rows.deep_view();
            assert forall|a: int, b: int|
                0 <= a < q.len() && 0 <= b < q.len() && a != b implies #[trigger] key(q[a])
                != #[trigger] key(q[b]) by {
                assert(key(q[a]).parts[2] == q[a].path);
                assert(key(q[b]).parts[2] == q[b].path);
                if a < b {
                    assert(q[a].path != q[b].path);
                } else {
                    assert(q[b].path != q[a].path);
                }
            }
            assert forall|row: RowView| #[trigger] all.contains(row) <==> q.contains(row) by {
                if all.contains(row) {
                    assert(self.files@.dom().contains(row.path));
                    assert(paths.contains(row.path));
                }
            }
            lemma_sorted_by_is_ordering(q, all, key);
        }
        sort_with_keys(rows, keys, Ghost(key))
    }

    /// The stems of the files that are candidates for a search and checked tags.
    fn matching_stems(
        &self,
        category: Category,
        search: &str,
        selected: &TextMap<TextSet>,
        include_tags: bool,
    ) -> (r: TextSet)
        ensures
            r@ == candidate_stems(self@, category, search@, selected@, include_tags),
    {
        let pattern = like_subsequence_pattern(search);
        let blank = search.unicode_len() == 0;
        let mut stems = TextSet::new();
        let total = self.files.len();
        let ghost paths = self.files.keys();
        let mut i: usize = 0;
        while i < total
            invariant
                i <= total,
                total == paths.len(),
                paths == self.files.keys(),
                forall|p: Seq<char>| #[trigger]
                    self.files@.dom().contains(p) <==> paths.contains(p),
                pattern@ == subsequence_pattern(lowercase(search@)),
                blank == (search@.len() == 0),
                forall|stem: Seq<char>| #[trigger]
                    stems@.contains(stem) <==> exists|j: int|
                        0 <= j < i && self.files@[#[trigger] paths[j]].category == category
                            && self.files@[paths[j]].stem == stem && is_candidate(
                            row_at(self@, paths[j]),
                            tags_on(self@, category, stem),
                            search@,
                            selected@,
                            include_tags,
                        ),
            decreases total - i,
        {
            let ghost before = stems@;
            let stored = self.files.value_at(i);
            let ghost path = paths[i as int];
            let ghost found = self.files@[path].category == category && is_candidate(
                row_at(self@, path),
                tags_on(self@, category, stored.stem@),
                search@,
                selected@,
                include_tags,
            );
            if stored.category == category {
                let tags = self.stem_rows(category, stored.stem.as_str());
                let stem = to_ascii_lower(stored.stem.as_str());
                let extension = to_ascii_lower(stored.extension.as_str());
                if (blank || like_matches(stem.as_str(), pattern.as_str()) || like_matches(
                    extension.as_str(),
                    pattern.as_str(),
                ) || (include_tags && any_tag_like(&tags, pattern.as_str()))) && all_checked_pass(
                    &tags,
                    selected,
                ) {
                    assert(found);
                    stems.insert(stored.stem.clone());
                } else {
                    assert(!found);
                }
            }
            proof {
                assert forall|stem: Seq<char>| #[trigger]
                    stems@.contains(stem) <==> exists|j: int|
                        0 <= j < i + 1 && self.files@[#[trigger] paths[j]].category == category
                            && self.files@[paths[j]].stem == stem && is_candidate(
                            row_at(self@, paths[j]),
                            tags_on(self@, category, stem),
                            search@,
                            selected@,
                            include_tags,
                        ) by {
                    if before.contains(stem) {
                        let j = choose|j: int|
                            0 <= j < i && self.files@[#[trigger] paths[j]].category == category
                                && self.files@[paths[j]].stem == stem && is_candidate(
                                row_at(self@, paths[j]),
                                tags_on(self@, category, stem),
                                search@,
                                selected@,
                                include_tags,
                            );
                        assert(self.files@[paths[j]].category == category);
                    }
                    assert(self.files@[paths[i as int]].stem == stored.stem@);
                }
            }
            i += 1;
        }
        proof {
            let wanted = candidate_stems(self@, category, search@, selected@, include_tags);
            assert forall|stem: Seq<char>| #[trigger]
                stems@.contains(stem) <==> wanted.contains(stem) by {
                if stems@.contains(stem) {
                    let j = choose|j: int|
                        0 <= j < i && self.files@[#[trigger] paths[j]].category == category
                            && self.files@[paths[j]].stem == stem && is_candidate(
                            row_at(self@, paths[j]),
                            tags_on(self@, category, stem),
                            search@,
                            selected@,
                            include_tags,
                        );
                    assert(paths.contains(paths[j]));
                    assert(self.files@.dom().contains(paths[j]));
                    assert(self.files@.contains_key(paths[j]));
                }
                if wanted.contains(stem) {
                    let path = choose|path: Seq<char>| #[trigger]
                        self@.files.contains_key(path) && self@.files[path].category == category
                            && self@.files[path].stem == stem && is_candidate(
                            row_at(self@, path),
                            tags_on(self@, category, stem),
                            search@,
                            selected@,
                            include_tags,
                        );
                    assert(self.files@.dom().contains(path));
                    let j = choose|j: int| 0 <= j < paths.len() && paths[j] == path;
                    assert(self.files@[paths[j]].category == category);
                }
            }
            assert(stems@ =~= wanted);
        }
        stems
    }
}

/// Orders the files of a sound: preferred formats first.
pub fn sort_variants(variants: Vec<FileVariant>, priority: &[AudioFormat]) -> (r: Vec<FileVariant>)
    ensures
        r.deep_view() == sorted_by(
            variants.deep_view(),
            |variant: VariantView| variant_key(variant, priority@),
        ),
{
    let ghost key = |variant: VariantView| variant_key(variant, priority@);
    let mut keys: Vec<SortKey> = Vec::new();
    let mut i: usize = 0;
    while i < variants.len()
        invariant
            i <= variants@.len(),
            keys@.len() == i,
            key == (|variant: VariantView| variant_key(variant, priority@)),
            forall|j: int| #![trigger variants.deep_view()[j]]
                0 <= j < i ==> keys@[j]@ == key(variants.deep_view()[j]),
        decreases variants.len() - i,
    {
        let variant = &variants[i];
        let ghost view = variants.deep_view()[i as int];
        let rank = priority_index(variant.extension.as_str(), priority);
        let mut parts: Vec<String> = Vec::new();
        parts.push(variant.extension.clone());
        let mut names = path_order_of(variant.path.as_str());
        let ghost old_names = names@;
        let ghost name_texts = names.deep_view();
        parts.append(&mut names);
        proof {
            let wanted = seq![view.extension] + path_order(view.path);
            assert forall|n: int| 0 <= n < parts@.len() implies parts.deep_view()[n]
                == wanted[n] by {
                if n > 0 {
                    assert(parts@[n] == old_names[n - 1]);
                    assert(name_texts[n - 1] == old_names[n - 1]@);
                }
            }
            assert(parts.deep_view() =~= wanted);
        }
        keys.push(SortKey { rank: rank as i128, parts });
        i += 1;
    }
    sort_with_keys(variants, keys, Ghost(key))
}

/// The files of `rows`.
fn variants_of(rows: &Vec<FileRow>) -> (r: Vec<FileVariant>)
    ensures
        r.deep_view() == rows.deep_view().map_values(|row: RowView| variant_of(row)),
{
    let ghost wanted = rows.deep_view().map_values(|row: RowView| variant_of(row));
    let mut variants: Vec<FileVariant> = Vec::new();
    let mut i: usize = 0;
    assert(variants.deep_view() =~= wanted.take(0));
    while i < rows.len()
        invariant
            i <= rows@.len(),
            wanted == rows.deep_view().map_values(|row: RowView| variant_of(row)),
            variants.deep_view() == wanted.take(i as int),
        decreases rows.len() - i,
    {
        let row = &rows[i];
        let ghost before = variants.deep_view();
        assert(rows.deep_view()[i as int] == row.deep_view());
        variants.push(
            FileVariant {
                path: row.path.clone(),
                extension: row.extension.clone(),
                size: row.size,
                modified: row.modified,
                first_seen_at: row.first_seen_at,
                waveform: row.preview_waveform,
            },
        );
        assert(variants.deep_view() =~= before.push(wanted[i as int]));
        assert(variants.deep_view() =~= wanted.take(i + 1));
        i += 1;
    }
    assert(wanted.take(i as int) =~= wanted);
    variants
}

impl Database {
    /// The sound with the name `name` that the rows `group` make up.
    fn make_record(
        &self,
        category: Category,
        name: &str,
        group: &Vec<FileRow>,
        priority: &[AudioFormat],
    ) -> (r: FileRecord)
        requires
            group@.len() > 0,
        ensures
            r.deep_view() == record_of(self@, category, name@, group.deep_view(), priority@),
    {
        let ghost views = group.deep_view();
        let unsorted = variants_of(group);
        proof {
            lemma_sorted_by(
                views.map_values(|row: RowView| variant_of(row)),
                |variant: VariantView| variant_key(variant, priority@),
            );
        }
        let variants = sort_variants(unsorted, priority);
        let stem = group[0].stem.clone();
        assert(views[0] == group@[0].deep_view());
        let tags = self.tags_for_stem(category, stem.as_str());
        assert(variants.deep_view()[0] == variants@[0].deep_view());
        FileRecord {
            name: name.to_owned(),
            path: variants[0].path.clone(),
            support: FileSupport::Native,
            stem,
            variants,
            tags,
        }
    }

    /// The sounds of `category` that match a search and checked tags, the best match first.
    pub fn query_visible_rows(
        &self,
        category: Category,
        search: &str,
        selected: &TextMap<TextSet>,
        priority: &[AudioFormat],
        category_folder: Option<&str>,
    ) -> (r: Vec<FileRecord>)
        ensures
            r.deep_view() == visible_records(
                self@,
                category,
                search@,
                selected@,
                true,
                priority@,
                match category_folder {
                    Some(folder) => Some(folder@),
                    None => None,
                },
            ),
    {
        self.query_visible_rows_scoped(category, search, selected, true, priority, category_folder)
    }

    /// The sounds of `category` that match a search, in their tags only where `include_tags` is
    /// set, and checked tags, the best match first.
    pub fn query_visible_rows_scoped(
        &self,
        category: Category,
        search: &str,
        selected: &TextMap<TextSet>,
        include_tags: bool,
        priority: &[AudioFormat],
        category_folder: Option<&str>,
    ) -> (r: Vec<FileRecord>)
        ensures
            r.deep_view() == visible_records(
                self@,
                category,
                search@,
                selected@,
                include_tags,
                priority@,
                match category_folder {
                    Some(folder) => Some(folder@),
                    None => None,
                },
            ),
    {
        let ghost folder: Option<Seq<char>> = match category_folder {
            Some(folder) => Some(folder@),
            None => None,
        };
        let checked = canonical_selected(selected);
        let filtered = (search.unicode_len() > 0 || any_checked(&checked)) && search.is_ascii();
        let rows = if filtered {
            let stems = self.matching_stems(category, search, &checked, include_tags);
            self.list_rows(category, Some(&stems))
        } else {
            self.list_rows(category, None)
        };
        let ghost views = rows.deep_view();
        assert(views == rows_listed(
            self@,
            category,
            query_stems(self@, category, search@, checked@, include_tags),
        ));
        let names = display_names_for_rows(&rows, category_folder);
        let ghost shown = names.deep_view();
        assert(shown =~= views.map_values(
            |row: RowView| display_name(views.to_set(), row, folder),
        ));
        let grouped = group_by_name(rows, &names);
        let ghost all = records_of(self@, category, views, shown, priority@);
        let ghost p = |record: RecordView|
            matches_scoped(record, search@, checked@, include_tags);
        let ghost key = |record: RecordView| record_sort_key(record, search@, include_tags);
        let total = grouped.len();
        let ghost titles = grouped.keys();
        proof {
            assert(grouped@.dom() =~= shown.to_set());
            assert(titles == text_list(shown.to_set()));
            reveal(Seq::filter);
            assert(all.take(0) =~= seq![]);
        }
        let mut records: Vec<FileRecord> = Vec::new();
        let mut keys: Vec<SortKey> = Vec::new();
        let mut i: usize = 0;
        assert(records.deep_view() =~= all.take(0).filter(p));
        while i < total
            invariant
                i <= total,
                total == titles.len(),
                titles == grouped.keys(),
                titles == text_list(shown.to_set()),
                grouped@ == groups(views, shown),
                views.len() == shown.len(),
                all == records_of(self@, category, views, shown, priority@),
                p == (|record: RecordView|
                    matches_scoped(record, search@, checked@, include_tags)),
                key == (|record: RecordView| record_sort_key(record, search@, include_tags)),
                records.deep_view() == all.take(i as int).filter(p),
                keys@.len() == records@.len(),
                forall|j: int| #![trigger records.deep_view()[j]]
                    0 <= j < records@.len() ==> keys@[j]@ == key(records.deep_view()[j]),
            decreases total - i,
        {
            let ghost before = records.deep_view();
            let ghost old_keys = keys@;
            let name = grouped.key_at(i);
            let group = grouped.value_at(i);
            proof {
                lemma_named(views, shown, name@);
                reveal(Seq::filter);
                assert(all.take(i + 1).drop_last() =~= all.take(i as int));
            }
            let record = self.make_record(category, name.as_str(), group, priority);
            assert(record.deep_view() == all[i as int]);
            if record_matches_scoped(&record, search, &checked, include_tags) {
                let record_key = record_search_sort_key_scoped(&record, search, include_tags);
                records.push(record);
                keys.push(record_key);
                proof {
                    assert(records.deep_view() =~= before.push(all[i as int]));
                    assert forall|j: int| #![trigger records.deep_view()[j]]
                        0 <= j < records@.len() implies keys@[j]@ == key(
                        records.deep_view()[j],
                    ) by {
                        if j < before.len() {
                            assert(records.deep_view()[j] == before[j]);
                            assert(keys@[j] == old_keys[j]);
                        }
                    }
                }
            }
            i += 1;
        }
        assert(all.take(i as int) =~= all);
        sort_with_keys(records, keys, Ghost(key))
    }
}

/// What the database tells of a stem or an extension agrees with the search, wherever lowercasing
/// touches ASCII letters alone.
pub proof fn lemma_candidates_agree(text: Seq<char>, search: Seq<char>)
    requires
        lowercase(text) == ascii_lower(text),
        lowercase(search) == ascii_lower(search),
    ensures
        like(ascii_lower(text), subsequence_pattern(lowercase(search))) <==> fuzzy(text, search),
{
    lemma_like_subsequence(ascii_lower(search), ascii_lower(text));
    assert(ascii_lower(ascii_lower(search)) =~= ascii_lower(search));
    assert(ascii_lower(ascii_lower(text)) =~= ascii_lower(text));
}

/// A checked value lets through what the database takes for it, the case of ASCII letters aside.
pub proof fn lemma_checked_values_agree(value: Seq<char>, wanted: Seq<char>)
    requires
        value_matches(value, wanted),
    ensures
        value == wanted || like(value, descendant_pattern(wanted)),
{
    if value != wanted {
        lemma_like_descendant(wanted, value);
        let head = wanted.push('/');
        assert(ascii_lower(head) =~= ascii_lower(wanted).push('/'));
        assert(ascii_lower(value).take(head.len() as int) =~= ascii_lower(
            value.take(head.len() as int),
        ));
    }
}

/// Every sound that a query shows matches the search and the checked tags, and better matches come
/// before worse ones.
pub proof fn lemma_visible_records_match(
    db: DatabaseView,
    category: Category,
    search: Seq<char>,
    selected: Map<Seq<char>, Set<Seq<char>>>,
    include_tags: bool,
    priority: Seq<AudioFormat>,
    folder: Option<Seq<char>>,
)
    ensures
        ({
            let shown = visible_records(
                db,
                category,
                search,
                selected,
                include_tags,
                priority,
                folder,
            );
            &&& forall|i: int|
                0 <= i < shown.len() ==> matches_scoped(
                    #[trigger] shown[i],
                    search,
                    normal_selection(selected),
                    include_tags,
                )
            &&& is_sorted_by(
                shown,
                |record: RecordView| record_sort_key(record, search, include_tags),
            )
        }),
{
    let checked = normal_selection(selected);
    let stems = query_stems(db, category, search, checked, include_tags);
    let rows = rows_listed(db, category, stems);
    let names = rows.map_values(|row: RowView| display_name(rows.to_set(), row, folder));
    let p = |record: RecordView| matches_scoped(record, search, checked, include_tags);
    let key = |record: RecordView| record_sort_key(record, search, include_tags);
    let all = records_of(db, category, rows, names, priority);
    let shown = sorted_by(all.filter(p), key);
    lemma_sorted_by(all.filter(p), key);
    assert forall|i: int| 0 <= i < shown.len() implies matches_scoped(
        #[trigger] shown[i],
        search,
        checked,
        include_tags,
    ) by {
        assert(shown.contains(shown[i]));
        assert(all.filter(p).contains(shown[i]));
        lemma_filter_contains(all, p, shown[i]);
    }
}

/// The rows of some stems are listed each once, by ascending key.
pub(crate) proof fn lemma_rows_listed(
    db: DatabaseView,
    category: Category,
    stems: Option<Set<Seq<char>>>,
)
    requires
        db.files.dom().finite(),
    ensures
        is_ordering(
            rows_listed(db, category, stems),
            rows_within(db, category, stems),
            |row: RowView| row_key(row),
        ),
{
    let all = rows_within(db, category, stems);
    let key = |row: RowView| row_key(row);
    let image = db.files.dom().map(|path: Seq<char>| row_at(db, path));
    db.files.dom().lemma_map_finite(|path: Seq<char>| row_at(db, path));
    assert(all.subset_of(image)) by {
        assert forall|row: RowView| all.contains(row) implies image.contains(row) by {
            assert(db.files.dom().contains(row.path));
            assert((|path: Seq<char>| row_at(db, path))(row.path) == row);
        }
    }
    vstd::set_lib::lemma_set_subset_finite(image, all);
    assert forall|x: RowView, y: RowView|
        all.contains(x) && all.contains(y) && #[trigger] key(x) == #[trigger] key(y) implies x
        == y by {
        assert(key(x).parts[2] == x.path && key(y).parts[2] == y.path);
    }
    lemma_ordering_exists(all, key);
}

/// Names are listed each once, in their order.
pub(crate) proof fn lemma_text_list(names: Seq<Seq<char>>)
    ensures
        is_ordering(text_list(names.to_set()), names.to_set(), |t: Seq<char>| text_key(t)),
{
    let key = |t: Seq<char>| text_key(t);
    vstd::seq_lib::seq_to_set_is_finite(names);
    assert forall|x: Seq<char>, y: Seq<char>|
        names.to_set().contains(x) && names.to_set().contains(y) && #[trigger] key(x)
            == #[trigger] key(y) implies x == y by {
        assert(key(x).parts[0] == x && key(y).parts[0] == y);
    }
    lemma_ordering_exists(names.to_set(), key);
}

/// Of two sounds that a query shows, the one that the search finds better comes first: the one with
/// the whole name before all others, then those of whose name the search is a word, those whose name
/// starts with it, those in whose name it occurs, those whose name has its characters in order, and
/// those that it finds by extension. Without a search, and where a search finds two alike, they come
/// by name. The case of letters does not count.
pub proof fn lemma_better_match_is_shown_first(
    db: DatabaseView,
    category: Category,
    search: Seq<char>,
    selected: Map<Seq<char>, Set<Seq<char>>>,
    include_tags: bool,
    priority: Seq<AudioFormat>,
    folder: Option<Seq<char>>,
    i: int,
    j: int,
)
    requires
        0 <= i < visible_records(
            db,
            category,
            search,
            selected,
            include_tags,
            priority,
            folder,
        ).len(),
        0 <= j < visible_records(
            db,
            category,
            search,
            selected,
            include_tags,
            priority,
            folder,
        ).len(),
    ensures
        ({
            let shown = visible_records(
                db,
                category,
                search,
                selected,
                include_tags,
                priority,
                folder,
            );
            let query = lowercase(search);
            let x = lowercase(shown[i].name);
            let y = lowercase(shown[j].name);
            &&& search.len() > 0 ==> {
                &&& x == query && y != query ==> i < j
                &&& words(x).contains(query) && y != query && !words(y).contains(query) ==> i < j
                &&& begins_with(x, query) && !begins_with(y, query) && !words(y).contains(query)
                    ==> i < j
                &&& occurs_in(x, query) && !occurs_in(y, query) ==> i < j
                &&& is_subsequence(query, x) && !is_subsequence(query, y) ==> i < j
                &&& variants_match(shown[i].variants, search) && !is_subsequence(query, y)
                    && !variants_match(shown[j].variants, search) ==> i < j
            }
            &&& search.len() == 0 && text_lt(x, y) ==> i < j
            &&& x == y && shown[i].variants == shown[j].variants && shown[i].tags == shown[j].tags
                && text_lt(shown[i].name, shown[j].name) ==> i < j
        }),
{
    let checked = normal_selection(selected);
    let stems = query_stems(db, category, search, checked, include_tags);
    let rows = rows_listed(db, category, stems);
    let names = rows.map_values(|row: RowView| display_name(rows.to_set(), row, folder));
    let p = |record: RecordView| matches_scoped(record, search, checked, include_tags);
    let found = records_of(db, category, rows, names, priority).filter(p);
    lemma_sorted_by(found, |record: RecordView| record_sort_key(record, search, include_tags));
    lemma_best_match_is_first(found, search, include_tags, i, j);
}

/// Sorting sounds by how a search finds them puts the one that it finds better first.
pub proof fn lemma_best_match_is_first(
    found: Seq<RecordView>,
    search: Seq<char>,
    include_tags: bool,
    i: int,
    j: int,
)
    requires
        0 <= i < found.len(),
        0 <= j < found.len(),
    ensures
        ({
            let shown = sorted_by(
                found,
                |record: RecordView| record_sort_key(record, search, include_tags),
            );
            let query = lowercase(search);
            let x = lowercase(shown[i].name);
            let y = lowercase(shown[j].name);
            &&& shown.len() == found.len()
            &&& search.len() > 0 ==> {
                &&& x == query && y != query ==> i < j
                &&& words(x).contains(query) && y != query && !words(y).contains(query) ==> i < j
                &&& begins_with(x, query) && !begins_with(y, query) && !words(y).contains(query)
                    ==> i < j
                &&& occurs_in(x, query) && !occurs_in(y, query) ==> i < j
                &&& is_subsequence(query, x) && !is_subsequence(query, y) ==> i < j
                &&& variants_match(shown[i].variants, search) && !is_subsequence(query, y)
                    && !variants_match(shown[j].variants, search) ==> i < j
            }
            &&& search.len() == 0 && text_lt(x, y) ==> i < j
            &&& x == y && shown[i].variants == shown[j].variants && shown[i].tags == shown[j].tags
                && text_lt(shown[i].name, shown[j].name) ==> i < j
        }),
{
    let key = |record: RecordView| record_sort_key(record, search, include_tags);
    let shown = sorted_by(found, key);
    lemma_sorted_by(found, key);
    let a = shown[i];
    let b = shown[j];
    if search.len() > 0 {
        lemma_better_match_ranks_first(a, b, search, include_tags);
    }
    lemma_shown_by_name(a, b, search, include_tags);
    if a.variants == b.variants && a.tags == b.tags && lowercase(a.name) == lowercase(b.name) {
        lemma_rank_ignores_case(a, b, search, search, include_tags);
    }
    lemma_key_order(key(b), key(a));
    if j <= i {
        assert(key_le(key(shown[j]), key(shown[i])));
    }
}

/// The place of a format in an order of preference is that of the first entry with its extension,
/// whatever the case of letters.
pub proof fn lemma_preference(extension: Seq<char>, priority: Seq<AudioFormat>, i: int)
    requires
        0 <= i <= priority.len(),
        forall|j: int|
            0 <= j < i ==> !equal_ignoring_ascii_case(
                (#[trigger] priority[j]).extension_text(),
                extension,
            ),
    ensures
        i < priority.len() && equal_ignoring_ascii_case(priority[i].extension_text(), extension)
            ==> preference(extension, priority) == i,
        preference(extension, priority) >= i,
        preference(extension, priority) <= priority.len(),
    decreases priority.len(),
{
    if priority.len() > 0 {
        let rest = priority.drop_first();
        if i > 0 {
            assert forall|j: int| 0 <= j < i - 1 implies !equal_ignoring_ascii_case(
                (#[trigger] rest[j]).extension_text(),
                extension,
            ) by {
                assert(rest[j] == priority[j + 1]);
            }
            assert(!equal_ignoring_ascii_case(priority[0].extension_text(), extension));
            if i < priority.len() {
                assert(rest[i - 1] == priority[i]);
            }
            lemma_preference(extension, rest, i - 1);
        } else {
            lemma_preference(extension, rest, 0);
        }
    }
}

/// A sound has each of the files that make it up, as they are stored. The file in the format that
/// users prefer most is in front, and stands for the sound.
pub proof fn lemma_preferred_format_is_first(
    db: DatabaseView,
    category: Category,
    name: Seq<char>,
    group: Seq<RowView>,
    priority: Seq<AudioFormat>,
    g: int,
    i: int,
)
    requires
        0 <= g < group.len(),
    ensures
        ({
            let record = record_of(db, category, name, group, priority);
            &&& record.name == name
            &&& record.stem == group[0].stem
            &&& record.variants.len() == group.len()
            &&& record.path == record.variants[0].path
            &&& record.variants.contains(
                VariantView {
                    path: group[g].path,
                    extension: group[g].extension,
                    size: group[g].size,
                    modified: group[g].modified,
                    first_seen_at: group[g].first_seen_at,
                    waveform: group[g].preview_waveform,
                },
            )
            &&& 0 <= i < priority.len() && equal_ignoring_ascii_case(
                priority[i].extension_text(),
                group[g].extension,
            ) && (forall|h: int, j: int|
                0 <= h < group.len() && 0 <= j < i ==> !equal_ignoring_ascii_case(
                    (#[trigger] priority[j]).extension_text(),
                    (#[trigger] group[h]).extension,
                )) ==> equal_ignoring_ascii_case(
                priority[i].extension_text(),
                record.variants[0].extension,
            )
        }),
{
    let files = group.map_values(|row: RowView| variant_of(row));
    let key = |variant: VariantView| variant_key(variant, priority);
    let record = record_of(db, category, name, group, priority);
    let variants = record.variants;
    lemma_sorted_by(files, key);
    let file = variant_of(group[g]);
    assert(files[g] == file);
    assert(files.contains(file));
    assert(variants.contains(file));
    if 0 <= i < priority.len() && equal_ignoring_ascii_case(
        priority[i].extension_text(),
        group[g].extension,
    ) && (forall|h: int, j: int|
        0 <= h < group.len() && 0 <= j < i ==> !equal_ignoring_ascii_case(
            (#[trigger] priority[j]).extension_text(),
            (#[trigger] group[h]).extension,
        )) {
        assert forall|j: int| 0 <= j < i implies !equal_ignoring_ascii_case(
            (#[trigger] priority[j]).extension_text(),
            file.extension,
        ) by {
            assert(group[g].extension == file.extension);
        }
        lemma_preference(file.extension, priority, i);
        let at = choose|at: int| 0 <= at < variants.len() && variants[at] == file;
        assert(key_le(key(variants[0]), key(variants[at])));
        assert(preference(variants[0].extension, priority) <= i);
        assert(variants.contains(variants[0]));
        assert(files.contains(variants[0]));
        let h = choose|h: int| 0 <= h < files.len() && files[h] == variants[0];
        assert(group[h].extension == variants[0].extension);
        assert forall|j: int| 0 <= j < i implies !equal_ignoring_ascii_case(
            (#[trigger] priority[j]).extension_text(),
            variants[0].extension,
        ) by {
            assert(group[h].extension == variants[0].extension);
        }
        lemma_preference(variants[0].extension, priority, i);
        if !equal_ignoring_ascii_case(priority[i].extension_text(), variants[0].extension) {
            assert forall|j: int| 0 <= j < i + 1 implies !equal_ignoring_ascii_case(
                (#[trigger] priority[j]).extension_text(),
                variants[0].extension,
            ) by {}
            lemma_preference(variants[0].extension, priority, i + 1);
        }
    }
}

/// Filters count in whatever form they are checked: what a query shows has, under the stored form of
/// the key, a value that the filter lets through, white space around it aside.
pub proof fn lemma_checked_filters_count(
    db: DatabaseView,
    category: Category,
    search: Seq<char>,
    selected: Map<Seq<char>, Set<Seq<char>>>,
    include_tags: bool,
    priority: Seq<AudioFormat>,
    folder: Option<Seq<char>>,
    record: RecordView,
    raw: Seq<char>,
    wanted: Seq<char>,
)
    requires
        visible_records(db, category, search, selected, include_tags, priority, folder).contains(
            record,
        ),
        selected.contains_key(raw),
        selected[raw].contains(wanted),
        normal_key(raw) is Some,
        normal_value(wanted) is Some,
    ensures
        ({
            let key = normal_key(raw).unwrap();
            let filter = normal_value(wanted).unwrap();
            &&& record.tags.contains_key(key)
            &&& exists|i: int|
                0 <= i < record.tags[key].len() && value_matches(
                    #[trigger] record.tags[key][i],
                    filter,
                )
        }),
{
    let key = normal_key(raw).unwrap();
    let filter = normal_value(wanted).unwrap();
    let checked = normal_selection(selected);
    assert(is_checked_key(selected, key));
    assert(is_checked(selected, key, filter));
    assert(checked.contains_key(key) && checked[key].contains(filter));
    let stems = query_stems(db, category, search, checked, include_tags);
    let rows = rows_listed(db, category, stems);
    let names = rows.map_values(|row: RowView| display_name(rows.to_set(), row, folder));
    let all = records_of(db, category, rows, names, priority);
    let p = |record: RecordView| matches_scoped(record, search, checked, include_tags);
    let sort_key = |record: RecordView| record_sort_key(record, search, include_tags);
    lemma_sorted_by(all.filter(p), sort_key);
    assert(visible_records(db, category, search, selected, include_tags, priority, folder)
        == sorted_by(all.filter(p), sort_key));
    lemma_filter_contains(all, p, record);
    lemma_every_filter_counts(record, search, checked, include_tags, key, filter);
}

} // verus!
