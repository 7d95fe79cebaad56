//! The tags that a category offers, with the values in use.
use super::sync::has_stem;
use super::tags::keys_of;
use super::{Database, DatabaseView, TagKeyView, TagValueView};
use crate::model::{normal_key, normal_value, normalize_tag_key, normalize_tag_value, Category};
use crate::order::{lemma_text_list_has, text_list, text_lt};
use crate::text::trimmed;
use crate::row_set::lemma_take_contains;
use crate::text_map::{TextMap, TextSet};
use vstd::prelude::*;

verus! {

broadcast use vstd::string::group_string_axioms;

/// Whether `row` is a tag of `category` on a stem that a file has.
pub open spec fn is_in_use(db: DatabaseView, category: Category, row: TagValueView) -> bool {
    db.tag_values.contains(row) && row.category == category && has_stem(
        db.files,
        category,
        row.stem,
    )
}

/// The values in use under `key`.
pub open spec fn values_in_use(
    db: DatabaseView,
    category: Category,
    key: Seq<char>,
) -> Set<Seq<char>> {
    Set::new(
        |value: Seq<char>|
            exists|row: TagValueView| #[trigger]
                is_in_use(db, category, row) && normal_key(row.key) == Some(key) && normal_value(
                    row.value,
                ) == Some(value),
    )
}

/// The keys of `category`, offered or in use, with the values in use in their order.
pub open spec fn schema_of(db: DatabaseView, category: Category) -> Map<
    Seq<char>,
    Seq<Seq<char>>,
> {
    Map::new(
        |key: Seq<char>|
            keys_of(db, category).contains(key) || exists|value: Seq<char>| #[trigger]
                values_in_use(db, category, key).contains(value),
        |key: Seq<char>| text_list(values_in_use(db, category, key)),
    )
}

/// The members of a set of texts, in their order.
pub fn list_of(set: &TextSet) -> (r: Vec<String>)
    ensures
        r.deep_view() == text_list(set@),
{
    let total = set.len();
    let ghost items = set.items();
    let mut out: Vec<String> = Vec::new();
    let mut i: usize = 0;
    assert(out.deep_view() =~= items.take(0));
    while i < total
        invariant
            i <= total,
            total == items.len(),
            items == set.items(),
            out.deep_view() == items.take(i as int),
        decreases total - i,
    {
        let ghost before = out.deep_view();
        out.push(set.item_at(i).clone());
        assert(out.deep_view() =~= before.push(items[i as int]));
        assert(out.deep_view() =~= items.take(i + 1));
        i += 1;
    }
    assert(items.take(i as int) =~= items);
    out
}

/// The sets of `sets` as lists.
fn lists_of(sets: &TextMap<TextSet>) -> (r: TextMap<Vec<String>>)
    ensures
        r@.dom() == sets@.dom(),
        forall|k: Seq<char>| #[trigger] r@.contains_key(k) ==> r@[k] == text_list(sets@[k]),
{
    let total = sets.len();
    let ghost keys = sets.keys();
    let mut out: TextMap<Vec<String>> = TextMap::new();
    let mut i: usize = 0;
    while i < total
        invariant
            i <= total,
            total == keys.len(),
            keys == sets.keys(),
            forall|k: Seq<char>| #[trigger] sets@.dom().contains(k) <==> keys.contains(k),
            forall|k: Seq<char>| #[trigger]
                out@.contains_key(k) <==> keys.take(i as int).contains(k),
            forall|k: Seq<char>| #[trigger]
                out@.contains_key(k) ==> out@[k] == text_list(sets@[k]),
        decreases total - i,
    {
        let key = sets.key_at(i);
        out.insert(key.clone(), list_of(sets.value_at(i)));
        proof {
            assert forall|k: Seq<char>| #[trigger]
                out@.contains_key(k) <==> keys.take(i + 1).contains(k) by {
                lemma_take_contains(keys, i as int, k);
            }
        }
        i += 1;
    }
    proof {
        assert(keys.take(i as int) =~= keys);
        assert forall|k: Seq<char>| #[trigger] out@.dom().contains(k) <==> sets@.dom().contains(
            k,
        ) by {
            assert(out@.contains_key(k) <==> keys.contains(k));
        }
        assert(out@.dom() =~= sets@.dom());
    }
    out
}

/// Puts `value` into the set under `key`, which is made if there is none.
fn insert_under(sets: &mut TextMap<TextSet>, key: String, value: String)
    ensures
        final(sets)@.dom() == old(sets)@.dom().insert(key@),
        forall|k: Seq<char>| k != key@ && #[trigger] old(sets)@.contains_key(k)
            ==> final(sets)@[k] == old(sets)@[k],
        final(sets)@[key@] == if old(sets)@.contains_key(key@) {
            old(sets)@[key@].insert(value@)
        } else {
            Set::<Seq<char>>::empty().insert(value@)
        },
{
    let mut set = match sets.remove(key.as_str()) {
        Some(set) => set,
        None => TextSet::new(),
    };
    set.insert(value);
    sets.insert(key, set);
    assert(sets@.dom() =~= old(sets)@.dom().insert(key@));
}

impl Database {
    /// The keys that `category` offers, each with an empty set.
    fn empty_sets(&self, category: Category) -> (r: TextMap<TextSet>)
        ensures
            forall|k: Seq<char>| #[trigger]
                r@.contains_key(k) <==> keys_of(self@, category).contains(k),
            forall|k: Seq<char>| #[trigger]
                r@.contains_key(k) ==> r@[k] == Set::<Seq<char>>::empty(),
    {
        let mut sets: TextMap<TextSet> = TextMap::new();
        let total = self.tag_keys.len();
        let ghost items = self.tag_keys.items();
        let mut i: usize = 0;
        while i < total
            invariant
                i <= total,
                total == items.len(),
                items == self.tag_keys.items(),
                forall|row: TagKeyView| #[trigger]
                    self.tag_keys@.contains(row) <==> items.contains(row),
                forall|k: Seq<char>| #[trigger]
                    sets@.contains_key(k) <==> items.take(i as int).contains(
                        TagKeyView { category, key: k },
                    ),
                forall|k: Seq<char>| #[trigger]
                    sets@.contains_key(k) ==> sets@[k] == Set::<Seq<char>>::empty(),
            decreases total - i,
        {
            let row = self.tag_keys.row_at(i);
            let ghost before = sets@;
            if row.category == category {
                sets.insert(row.key.clone(), TextSet::new());
            }
            proof {
                assert forall|k: Seq<char>| #[trigger]
                    sets@.contains_key(k) <==> items.take(i + 1).contains(
                        TagKeyView { category, key: k },
                    ) by {
                    lemma_take_contains(items, i as int, TagKeyView { category, key: k });
                    assert(before.contains_key(k) <==> items.take(i as int).contains(
                        TagKeyView { category, key: k },
                    ));
                }
            }
            i += 1;
        }
        assert(items.take(i as int) =~= items);
        sets
    }

    /// The keys of `category` with the values in use, in their order.
    pub fn schema_for(&self, category: Category) -> (r: TextMap<Vec<String>>)
        ensures
            r@ == schema_of(self@, category),
    {
        let stems = self.stems_of_category(category);
        let mut sets = self.empty_sets(category);
        let total = self.tag_values.len();
        let ghost items = self.tag_values.items();
        let mut i: usize = 0;
        while i < total
            invariant
                i <= total,
                total == items.len(),
                items == self.tag_values.items(),
                forall|row: TagValueView| #[trigger]
                    self.tag_values@.contains(row) <==> items.contains(row),
                stems@ == Set::new(|stem: Seq<char>| has_stem(self@.files, category, stem)),
                forall|k: Seq<char>| #[trigger]
                    sets@.contains_key(k) <==> keys_of(self@, category).contains(k) || exists|
                        j: int,
                    |
                        0 <= j < i && is_in_use(self@, category, #[trigger] items[j])
                            && normal_key(items[j].key) == Some(k) && normal_value(items[j].value)
                            is Some,
                forall|k: Seq<char>, v: Seq<char>| #[trigger]
                    sets@.contains_key(k) ==> (#[trigger] sets@[k].contains(v) <==> exists|j: int|
                        0 <= j < i && is_in_use(self@, category, #[trigger] items[j])
                            && normal_key(items[j].key) == Some(k) && normal_value(items[j].value)
                            == Some(v)),
            decreases total - i,
        {
            let row = self.tag_values.row_at(i);
            let ghost view = items[i as int];
            let ghost before = sets@;
            let used = row.category == category && stems.contains(row.stem.as_str());
            proof {
                assert(items.contains(view));
                assert(used == is_in_use(self@, category, view));
            }
            if used {
                match (
                    normalize_tag_key(row.key.as_str()),
                    normalize_tag_value(row.value.as_str()),
                ) {
                    (Some(key), Some(value)) => {
                        let ghost k0 = key@;
                        let ghost v0 = value@;
                        insert_under(&mut sets, key, value);
                        proof {
                            assert forall|k: Seq<char>| #[trigger]
                                sets@.contains_key(k) <==> before.contains_key(k) || k == k0 by {
                                assert(sets@.dom().contains(k) <==> before.dom().insert(
                                    k0,
                                ).contains(k));
                            }
                            lemma_schema_step(self@, category, items, i as int, before, sets@, k0, v0);
                        }
                    },
                    _ => {
                        proof {
                            lemma_schema_skip(self@, category, items, i as int, sets@);
                        }
                    },
                }
            } else {
                proof {
                    lemma_schema_skip(self@, category, items, i as int, sets@);
                }
            }
            i += 1;
        }
        let lists = lists_of(&sets);
        proof {
            let wanted = schema_of(self@, category);
            assert forall|k: Seq<char>, v: Seq<char>| #[trigger]
                values_in_use(self@, category, k).contains(v) <==> exists|j: int|
                    0 <= j < i && is_in_use(self@, category, #[trigger] items[j]) && normal_key(
                        items[j].key,
                    ) == Some(k) && normal_value(items[j].value) == Some(v) by {
                if values_in_use(self@, category, k).contains(v) {
                    let row = choose|row: TagValueView| #[trigger]
                        is_in_use(self@, category, row) && normal_key(row.key) == Some(k)
                            && normal_value(row.value) == Some(v);
                    assert(items.contains(row));
                    let j = choose|j: int| 0 <= j < items.len() && items[j] == row;
                    assert(is_in_use(self@, category, items[j]));
                }
            }
            assert forall|k: Seq<char>| #[trigger] lists@.contains_key(k) <==> wanted.contains_key(
                k,
            ) by {
                assert(lists@.dom().contains(k) <==> sets@.dom().contains(k));
                assert(lists@.contains_key(k) <==> sets@.contains_key(k));
                if exists|j: int|
                    0 <= j < i && is_in_use(self@, category, #[trigger] items[j]) && normal_key(
                        items[j].key,
                    ) == Some(k) && normal_value(items[j].value) is Some {
                    let j = choose|j: int|
                        0 <= j < i && is_in_use(self@, category, #[trigger] items[j])
                            && normal_key(items[j].key) == Some(k) && normal_value(items[j].value)
                            is Some;
                    let v = normal_value(items[j].value).unwrap();
                    assert(values_in_use(self@, category, k).contains(v));
                }
                if exists|v: Seq<char>| #[trigger] values_in_use(self@, category, k).contains(v) {
                    let v = choose|v: Seq<char>| #[trigger]
                        values_in_use(self@, category, k).contains(v);
                    let j = choose|j: int|
                        0 <= j < i && is_in_use(self@, category, #[trigger] items[j])
                            && normal_key(items[j].key) == Some(k) && normal_value(items[j].value)
                            == Some(v);
                    assert(is_in_use(self@, category, items[j]));
                }
            }
            assert forall|k: Seq<char>| #[trigger] lists@.contains_key(k) implies lists@[k]
                == wanted[k] by {
                assert(sets@.contains_key(k));
                assert forall|v: Seq<char>| #[trigger] sets@[k].contains(v) <==> values_in_use(
                    self@,
                    category,
                    k,
                ).contains(v) by {}
                assert(sets@[k] =~= values_in_use(self@, category, k));
            }
            assert(lists@ =~= wanted);
        }
        lists
    }
}

/// Whether `sets` holds what the first `n` of `items` put in use.
spec fn is_schema_of_first(
    db: DatabaseView,
    category: Category,
    items: Seq<TagValueView>,
    n: int,
    sets: Map<Seq<char>, Set<Seq<char>>>,
) -> bool {
    &&& forall|k: Seq<char>| #[trigger]
        sets.contains_key(k) <==> keys_of(db, category).contains(k) || exists|j: int|
            0 <= j < n && is_in_use(db, category, #[trigger] items[j]) && normal_key(items[j].key)
                == Some(k) && normal_value(items[j].value) is Some
    &&& forall|k: Seq<char>, v: Seq<char>| #[trigger]
        sets.contains_key(k) ==> (#[trigger] sets[k].contains(v) <==> exists|j: int|
            0 <= j < n && is_in_use(db, category, #[trigger] items[j]) && normal_key(items[j].key)
                == Some(k) && normal_value(items[j].value) == Some(v))
}

proof fn lemma_schema_skip(
    db: DatabaseView,
    category: Category,
    items: Seq<TagValueView>,
    i: int,
    sets: Map<Seq<char>, Set<Seq<char>>>,
)
    requires
        0 <= i < items.len(),
        is_schema_of_first(db, category, items, i, sets),
        !is_in_use(db, category, items[i]) || normal_key(items[i].key) is None || normal_value(
            items[i].value,
        ) is None,
    ensures
        is_schema_of_first(db, category, items, i + 1, sets),
{
    assert forall|k: Seq<char>| #[trigger]
        sets.contains_key(k) <==> keys_of(db, category).contains(k) || exists|j: int|
            0 <= j < i + 1 && is_in_use(db, category, #[trigger] items[j]) && normal_key(
                items[j].key,
            ) == Some(k) && normal_value(items[j].value) is Some by {
        if exists|j: int|
            0 <= j < i + 1 && is_in_use(db, category, #[trigger] items[j]) && normal_key(
                items[j].key,
            ) == Some(k) && normal_value(items[j].value) is Some {
            let j = choose|j: int|
                0 <= j < i + 1 && is_in_use(db, category, #[trigger] items[j]) && normal_key(
                    items[j].key,
                ) == Some(k) && normal_value(items[j].value) is Some;
            assert(j < i);
        }
    }
    assert forall|k: Seq<char>, v: Seq<char>| #[trigger] sets.contains_key(k) implies (
    #[trigger] sets[k].contains(v) <==> exists|j: int|
        0 <= j < i + 1 && is_in_use(db, category, #[trigger] items[j]) && normal_key(items[j].key)
            == Some(k) && normal_value(items[j].value) == Some(v)) by {
        if exists|j: int|
            0 <= j < i + 1 && is_in_use(db, category, #[trigger] items[j]) && normal_key(
                items[j].key,
            ) == Some(k) && normal_value(items[j].value) == Some(v) {
            let j = choose|j: int|
                0 <= j < i + 1 && is_in_use(db, category, #[trigger] items[j]) && normal_key(
                    items[j].key,
                ) == Some(k) && normal_value(items[j].value) == Some(v);
            assert(j < i);
        }
    }
}

proof fn lemma_schema_step(
    db: DatabaseView,
    category: Category,
    items: Seq<TagValueView>,
    i: int,
    before: Map<Seq<char>, Set<Seq<char>>>,
    after: Map<Seq<char>, Set<Seq<char>>>,
    key: Seq<char>,
    value: Seq<char>,
)
    requires
        0 <= i < items.len(),
        is_schema_of_first(db, category, items, i, before),
        is_in_use(db, category, items[i]),
        normal_key(items[i].key) == Some(key),
        normal_value(items[i].value) == Some(value),
        forall|k: Seq<char>| #[trigger]
            after.contains_key(k) <==> before.contains_key(k) || k == key,
        forall|k: Seq<char>| k != key && #[trigger] before.contains_key(k) ==> after[k]
            == before[k],
        after[key] == if before.contains_key(key) {
            before[key].insert(value)
        } else {
            Set::<Seq<char>>::empty().insert(value)
        },
    ensures
        is_schema_of_first(db, category, items, i + 1, after),
{
    assert forall|k: Seq<char>| #[trigger]
        after.contains_key(k) <==> keys_of(db, category).contains(k) || exists|j: int|
            0 <= j < i + 1 && is_in_use(db, category, #[trigger] items[j]) && normal_key(
                items[j].key,
            ) == Some(k) && normal_value(items[j].value) is Some by {
        if before.contains_key(k) && !keys_of(db, category).contains(k) {
            let j = choose|j: int|
                0 <= j < i && is_in_use(db, category, #[trigger] items[j]) && normal_key(
                    items[j].key,
                ) == Some(k) && normal_value(items[j].value) is Some;
            assert(is_in_use(db, category, items[j]));
        }
        if k == key {
            assert(is_in_use(db, category, items[i]));
        }
        if exists|j: int|
            0 <= j < i + 1 && is_in_use(db, category, #[trigger] items[j]) && normal_key(
                items[j].key,
            ) == Some(k) && normal_value(items[j].value) is Some {
            let j = choose|j: int|
                0 <= j < i + 1 && is_in_use(db, category, #[trigger] items[j]) && normal_key(
                    items[j].key,
                ) == Some(k) && normal_value(items[j].value) is Some;
            if j < i {
                assert(before.contains_key(k));
            }
        }
    }
    assert forall|k: Seq<char>, v: Seq<char>| #[trigger] after.contains_key(k) implies (
    #[trigger] after[k].contains(v) <==> exists|j: int|
        0 <= j < i + 1 && is_in_use(db, category, #[trigger] items[j]) && normal_key(items[j].key)
            == Some(k) && normal_value(items[j].value) == Some(v)) by {
        if exists|j: int|
            0 <= j < i + 1 && is_in_use(db, category, #[trigger] items[j]) && normal_key(
                items[j].key,
            ) == Some(k) && normal_value(items[j].value) == Some(v) {
            let j = choose|j: int|
                0 <= j < i + 1 && is_in_use(db, category, #[trigger] items[j]) && normal_key(
                    items[j].key,
                ) == Some(k) && normal_value(items[j].value) == Some(v);
            if j < i {
                assert(before.contains_key(k));
                assert(before[k].contains(v));
            }
        }
        if after[k].contains(v) {
            if k == key && v == value {
                assert(is_in_use(db, category, items[i]));
            } else {
                assert(before.contains_key(k));
                assert(before[k].contains(v));
                let j = choose|j: int|
                    0 <= j < i && is_in_use(db, category, #[trigger] items[j]) && normal_key(
                        items[j].key,
                    ) == Some(k) && normal_value(items[j].value) == Some(v);
                assert(is_in_use(db, category, items[j]));
            }
        }
    }
}

/// Tags on stems without files do not show in the schema.
pub proof fn lemma_schema_ignores_orphans(
    db: DatabaseView,
    category: Category,
    row: TagValueView,
)
    requires
        !has_stem(db.files, category, row.stem),
        row.category == category,
    ensures
        schema_of(
            DatabaseView { tag_values: db.tag_values.insert(row), ..db },
            category,
        ) == schema_of(db, category),
{
    let more = DatabaseView { tag_values: db.tag_values.insert(row), ..db };
    assert forall|r: TagValueView| #[trigger]
        is_in_use(more, category, r) == is_in_use(db, category, r) by {}
    assert forall|k: Seq<char>| #[trigger] values_in_use(more, category, k) =~= values_in_use(
        db,
        category,
        k,
    ) by {
        assert forall|v: Seq<char>| values_in_use(more, category, k).contains(v) == values_in_use(
            db,
            category,
            k,
        ).contains(v) by {
            if values_in_use(db, category, k).contains(v) {
                let r = choose|r: TagValueView| #[trigger]
                    is_in_use(db, category, r) && normal_key(r.key) == Some(k) && normal_value(
                        r.value,
                    ) == Some(v);
                assert(is_in_use(more, category, r));
            }
        }
    }
    assert forall|k: Seq<char>| #[trigger] values_in_use(db, category, k) == values_in_use(
        more,
        category,
        k,
    ) by {
        assert(values_in_use(more, category, k) =~= values_in_use(db, category, k));
    }
    assert(schema_of(more, category) =~= schema_of(db, category));
}

/// A category lists the keys that it offers and, under each key, exactly the values that its sounds
/// have there, each once and in their order; keys that it no longer offers are listed as long as a
/// sound has a value under them.
pub proof fn lemma_schema_lists(
    db: DatabaseView,
    category: Category,
    path: Seq<char>,
    row: TagValueView,
    key: Seq<char>,
    value: Seq<char>,
)
    requires
        db.tag_values.finite(),
    ensures
        ({
            let schema = schema_of(db, category);
            &&& db.tag_keys.contains(TagKeyView { category, key }) ==> schema.contains_key(key)
            &&& db.tag_values.contains(row) && row.category == category && db.files.contains_key(
                path,
            ) && db.files[path].category == category && db.files[path].stem == row.stem
                && normal_key(row.key) == Some(key) && normal_value(row.value) == Some(value)
                ==> schema.contains_key(key) && schema[key].contains(value)
            &&& schema.contains_key(key) && schema[key].contains(value) ==> exists|
                tag: TagValueView,
                file: Seq<char>,
            | #[trigger]
                db.tag_values.contains(tag) && tag.category == category && #[trigger]
                db.files.contains_key(file) && db.files[file].category == category
                    && db.files[file].stem == tag.stem && normal_key(tag.key) == Some(key)
                    && normal_value(tag.value) == Some(value)
            &&& schema.contains_key(key) ==> db.tag_keys.contains(TagKeyView { category, key })
                || schema[key].len() > 0
            &&& schema.contains_key(key) ==> forall|i: int, j: int|
                0 <= i < j < schema[key].len() ==> text_lt(
                    #[trigger] schema[key][i],
                    #[trigger] schema[key][j],
                )
        }),
{
    let values = values_in_use(db, category, key);
    let stored = db.tag_values.map(|row: TagValueView| trimmed(row.value));
    db.tag_values.lemma_map_finite(|row: TagValueView| trimmed(row.value));
    assert forall|v: Seq<char>| values.contains(v) implies stored.contains(v) by {
        let tag = choose|tag: TagValueView| #[trigger]
            is_in_use(db, category, tag) && normal_key(tag.key) == Some(key) && normal_value(
                tag.value,
            ) == Some(v);
        assert(db.tag_values.contains(tag) && trimmed(tag.value) == v);
    }
    vstd::set_lib::lemma_set_subset_finite(stored, values);
    lemma_text_list_has(values, value);
    let schema = schema_of(db, category);
    if db.tag_values.contains(row) && row.category == category && db.files.contains_key(path)
        && db.files[path].category == category && db.files[path].stem == row.stem && normal_key(
        row.key,
    ) == Some(key) && normal_value(row.value) == Some(value) {
        assert(is_in_use(db, category, row));
        assert(values.contains(value));
    }
    if schema.contains_key(key) && schema[key].contains(value) {
        let tag = choose|tag: TagValueView| #[trigger]
            is_in_use(db, category, tag) && normal_key(tag.key) == Some(key) && normal_value(
                tag.value,
            ) == Some(value);
        let file = choose|file: Seq<char>| #[trigger]
            db.files.contains_key(file) && db.files[file].category == category
                && db.files[file].stem == tag.stem;
        assert(db.tag_values.contains(tag) && db.files.contains_key(file));
    }
    if schema.contains_key(key) && !db.tag_keys.contains(TagKeyView { category, key }) {
        let v = choose|v: Seq<char>| #[trigger] values.contains(v);
        lemma_text_list_has(values, v);
    }
}

} // verus!
