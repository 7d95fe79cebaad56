//! Tag keys and tag values: adding, removing, renaming and copying them.
use super::{Database, DatabaseView, TagKey, TagKeyView, TagValue, TagValueView};
use crate::like::{descendant_pattern, lemma_like_descendant, like, like_descendant_pattern};
use crate::like::like_matches;
use crate::model::{normal_key, normal_value, normalize_tag_key, normalize_tag_value};
use crate::model::{lemma_value_below, parent_value, split_subtag, Category};
use crate::order::{caseless_list, is_ordering, key_lt, lemma_key_order, lemma_text_key};
use crate::order::{key_le, lemma_filter_prefix, lemma_ordering_filter, lemma_text_lt_asymmetric};
use crate::order::{ordering, sort_caseless, text_lt, texts_lt};
use crate::row_set::Row;
use crate::row_set::{lemma_take_contains, made_from};
use crate::text_map::TextSet;
use crate::text::{ascii_lower, begins_with, equal_ignoring_ascii_case, same_ignoring_ascii_case};
use crate::text::{same_text, trimmed};
use vstd::prelude::*;

verus! {

broadcast use vstd::string::group_string_axioms;

/// Whether `category` offers `stored`, which spells `key`, case of letters aside.
pub open spec fn spells_key(
    db: DatabaseView,
    category: Category,
    key: Seq<char>,
    stored: Seq<char>,
) -> bool {
    db.tag_keys.contains(TagKeyView { category, key: stored }) && equal_ignoring_ascii_case(
        stored,
        key,
    )
}

/// Whether `stored` is the first key of `category` that spells `key`.
pub open spec fn is_stored_key(
    db: DatabaseView,
    category: Category,
    key: Seq<char>,
    stored: Seq<char>,
) -> bool {
    &&& spells_key(db, category, key, stored)
    &&& forall|other: Seq<char>| #[trigger]
        spells_key(db, category, key, other) ==> other == stored || text_lt(stored, other)
}

/// The key that `category` uses for `key`: the first that spells it, or `key` itself.
pub open spec fn stored_key(db: DatabaseView, category: Category, key: Seq<char>) -> Seq<char> {
    if exists|stored: Seq<char>| is_stored_key(db, category, key, stored) {
        choose|stored: Seq<char>| is_stored_key(db, category, key, stored)
    } else {
        key
    }
}

/// The key that `category` uses for what a user typed; none for a blank key.
pub open spec fn key_in_use(
    db: DatabaseView,
    category: Category,
    key: Seq<char>,
) -> Option<Seq<char>> {
    match normal_key(key) {
        Some(normal) => Some(stored_key(db, category, normal)),
        None => None,
    }
}

impl Database {
    /// The key that `category` uses for `key`.
    pub(crate) fn find_stored_key(&self, category: Category, key: &str) -> (r: Option<String>)
        ensures
            r matches Some(stored) ==> is_stored_key(self@, category, key@, stored@),
            r is None ==> forall|other: Seq<char>| !spells_key(self@, category, key@, other),
    {
        let total = self.tag_keys.len();
        let ghost items = self.tag_keys.items();
        let mut i: usize = 0;
        while i < total
            invariant
                i <= total,
                total == items.len(),
                items == self.tag_keys.items(),
                is_ordering(items, self.tag_keys@, |row: TagKeyView| TagKey::row_key(row)),
                forall|row: TagKeyView| #[trigger]
                    self.tag_keys@.contains(row) <==> items.contains(row),
                forall|j: int|
                    0 <= j < i ==> !((#[trigger] items[j]).category == category
                        && equal_ignoring_ascii_case(items[j].key, key@)),
            decreases total - i,
        {
            let row = self.tag_keys.row_at(i);
            if row.category == category && same_ignoring_ascii_case(row.key.as_str(), key) {
                proof {
                    assert forall|other: Seq<char>| #[trigger]
                        spells_key(self@, category, key@, other) implies other == row.key@
                        || text_lt(row.key@, other) by {
                        let wanted = TagKeyView { category, key: other };
                        assert(items.contains(wanted));
                        let j = choose|j: int| 0 <= j < items.len() && items[j] == wanted;
                        if i < j {
                            let key_of = |row: TagKeyView| TagKey::row_key(row);
                            assert(key_lt(key_of(items[i as int]), key_of(items[j])));
                            lemma_text_key(row.key@, other);
                        } else if j < i {
                            assert(items[j].category == category);
                        }
                    }
                }
                return Some(row.key.clone());
            }
            i += 1;
        }
        proof {
            assert forall|other: Seq<char>| !spells_key(self@, category, key@, other) by {
                let wanted = TagKeyView { category, key: other };
                if spells_key(self@, category, key@, other) {
                    assert(items.contains(wanted));
                    let j = choose|j: int| 0 <= j < items.len() && items[j] == wanted;
                    assert(items[j].category == category);
                }
            }
        }
        None
    }

    /// The key that `category` uses for what a user typed; none for a blank key.
    pub fn canonical_tag_key(&self, category: Category, key: &str) -> (r: Option<String>)
        ensures
            r is Some <==> key_in_use(self@, category, key@) is Some,
            r matches Some(stored) ==> key_in_use(self@, category, key@) == Some(stored@),
    {
        match normalize_tag_key(key) {
            Some(normal) => {
                match self.find_stored_key(category, normal.as_str()) {
                    Some(stored) => {
                        proof {
                            lemma_stored_key(self@, category, normal@, stored@);
                        }
                        Some(stored)
                    },
                    None => Some(normal),
                }
            },
            None => None,
        }
    }
}

/// There is at most one stored key.
pub proof fn lemma_stored_key(
    db: DatabaseView,
    category: Category,
    key: Seq<char>,
    stored: Seq<char>,
)
    requires
        is_stored_key(db, category, key, stored),
    ensures
        stored_key(db, category, key) == stored,
{
    let other = stored_key(db, category, key);
    assert(is_stored_key(db, category, key, other));
    assert(spells_key(db, category, key, other));
    assert(spells_key(db, category, key, stored));
    if other != stored {
        lemma_text_lt_asymmetric(other, stored);
    }
}

/// `db` with `key` among the keys of `category`.
pub open spec fn with_key(db: DatabaseView, category: Category, key: Seq<char>) -> DatabaseView {
    DatabaseView { tag_keys: db.tag_keys.insert(TagKeyView { category, key }), ..db }
}

/// Whether `row` holds a value of `key` in `category`.
pub open spec fn row_has_key(row: TagValueView, category: Category, key: Seq<char>) -> bool {
    row.category == category && row.key == key
}

/// Whether `row` holds a value of the stem `stem` in `category`.
pub open spec fn row_has_stem(row: TagValueView, category: Category, stem: Seq<char>) -> bool {
    row.category == category && row.stem == stem
}

/// `db` without `key` in `category`, nor any value under it.
pub open spec fn without_key(db: DatabaseView, category: Category, key: Seq<char>) -> DatabaseView {
    DatabaseView {
        tag_keys: db.tag_keys.remove(TagKeyView { category, key }),
        tag_values: db.tag_values.filter(|row: TagValueView| !row_has_key(row, category, key)),
        ..db
    }
}

/// `rows` with those that `from` picks put in the form that `to` gives them.
pub open spec fn moved(
    rows: Set<TagValueView>,
    from: spec_fn(TagValueView) -> bool,
    to: spec_fn(TagValueView) -> TagValueView,
) -> Set<TagValueView> {
    rows.union(
        made_from(
            rows,
            |row: TagValueView|
                if from(row) {
                    Some(to(row))
                } else {
                    None
                },
        ),
    ).filter(|row: TagValueView| !from(row))
}

/// `db` with the values of `old` under `new`, and `new` in the place of `old`.
pub open spec fn with_renamed_key(
    db: DatabaseView,
    category: Category,
    old_key: Seq<char>,
    new_key: Seq<char>,
) -> DatabaseView {
    DatabaseView {
        tag_keys: db.tag_keys.insert(TagKeyView { category, key: new_key }).remove(
            TagKeyView { category, key: old_key },
        ),
        tag_values: moved(
            db.tag_values,
            |row: TagValueView| row_has_key(row, category, old_key),
            |row: TagValueView| TagValueView { key: new_key, ..row },
        ),
        ..db
    }
}

/// Whether `row` is the value `value` of `key` that the stem `stem` has.
pub open spec fn is_tag(
    row: TagValueView,
    category: Category,
    stem: Seq<char>,
    key: Seq<char>,
    value: Seq<char>,
) -> bool {
    row == TagValueView { category, stem, key, value }
}

/// Whether `row` is another value below the one above `value`, under the same key of the same stem.
pub open spec fn is_sibling(
    row: TagValueView,
    category: Category,
    stem: Seq<char>,
    key: Seq<char>,
    value: Seq<char>,
) -> bool {
    &&& row_has_stem(row, category, stem)
    &&& row.key == key
    &&& parent_value(value) matches Some(parent) && like(row.value, descendant_pattern(parent))
}

/// `db` with a tag on a stem; a value below another replaces the values beside it.
pub open spec fn with_tag(
    db: DatabaseView,
    category: Category,
    stem: Seq<char>,
    key: Seq<char>,
    value: Seq<char>,
) -> DatabaseView {
    DatabaseView {
        tag_values: db.tag_values.filter(
            |row: TagValueView| !is_sibling(row, category, stem, key, value),
        ).insert(TagValueView { category, stem, key, value }),
        ..with_key(db, category, key)
    }
}

/// `db` after a user put `value` under `key` on a stem; blank keys and values change nothing.
pub open spec fn after_add_tag(
    db: DatabaseView,
    category: Category,
    stem: Seq<char>,
    key: Seq<char>,
    value: Seq<char>,
) -> DatabaseView {
    match (key_in_use(db, category, key), normal_value(value)) {
        (Some(stored), Some(normal)) => with_tag(db, category, stem, stored, normal),
        _ => db,
    }
}

/// `db` after a user took `value` under `key` off a stem.
pub open spec fn after_remove_tag(
    db: DatabaseView,
    category: Category,
    stem: Seq<char>,
    key: Seq<char>,
    value: Seq<char>,
) -> DatabaseView {
    match (key_in_use(db, category, key), normal_value(value)) {
        (Some(stored), Some(normal)) => DatabaseView {
            tag_values: db.tag_values.remove(
                TagValueView { category, stem, key: stored, value: normal },
            ),
            ..db
        },
        _ => db,
    }
}

/// `rows` with `old_value` of `key` replaced by `new_value` on the stems that `picks` names; a
/// value below another replaces the values beside it on those stems that have the old value.
pub open spec fn with_renamed_value(
    rows: Set<TagValueView>,
    category: Category,
    key: Seq<char>,
    old_value: Seq<char>,
    new_value: Seq<char>,
    picks: spec_fn(Seq<char>) -> bool,
) -> Set<TagValueView> {
    moved(
        rows.filter(
            |row: TagValueView|
                !(picks(row.stem) && row.value != old_value && is_sibling(
                    row,
                    category,
                    row.stem,
                    key,
                    new_value,
                )),
        ),
        |row: TagValueView|
            picks(row.stem) && row_has_key(row, category, key) && row.value == old_value,
        |row: TagValueView| TagValueView { value: new_value, ..row },
    )
}

/// The stems that have `value` under `key`.
pub open spec fn stems_with(
    db: DatabaseView,
    category: Category,
    key: Seq<char>,
    value: Seq<char>,
) -> Set<Seq<char>> {
    Set::new(
        |stem: Seq<char>| db.tag_values.contains(TagValueView { category, stem, key, value }),
    )
}

/// `db` after a user renamed a value on one stem.
pub open spec fn after_rename_stem_value(
    db: DatabaseView,
    category: Category,
    stem: Seq<char>,
    key: Seq<char>,
    old_value: Seq<char>,
    new_value: Seq<char>,
) -> DatabaseView {
    match (key_in_use(db, category, key), normal_value(old_value), normal_value(new_value)) {
        (Some(stored), Some(from), Some(to)) => if old_value == new_value {
            db
        } else {
            DatabaseView {
                tag_values: with_renamed_value(
                    db.tag_values,
                    category,
                    stored,
                    from,
                    to,
                    |other: Seq<char>| other == stem,
                ),
                ..db
            }
        },
        _ => db,
    }
}

/// `db` after a user renamed a value everywhere in a category.
pub open spec fn after_rename_value(
    db: DatabaseView,
    category: Category,
    key: Seq<char>,
    old_value: Seq<char>,
    new_value: Seq<char>,
) -> DatabaseView {
    match (key_in_use(db, category, key), normal_value(old_value), normal_value(new_value)) {
        (Some(stored), Some(from), Some(to)) => if old_value == new_value {
            db
        } else {
            let stems = stems_with(db, category, stored, from);
            DatabaseView {
                tag_values: with_renamed_value(
                    db.tag_values,
                    category,
                    stored,
                    from,
                    to,
                    |stem: Seq<char>| stems.contains(stem),
                ),
                ..db
            }
        },
        _ => db,
    }
}

/// `db` with the tags of one stem on another.
pub open spec fn with_renamed_stem(
    db: DatabaseView,
    category: Category,
    old_stem: Seq<char>,
    new_stem: Seq<char>,
) -> DatabaseView {
    if old_stem == new_stem {
        db
    } else {
        DatabaseView {
            tag_values: moved(
                db.tag_values,
                |row: TagValueView| row_has_stem(row, category, old_stem),
                |row: TagValueView| TagValueView { stem: new_stem, ..row },
            ),
            ..db
        }
    }
}

impl Database {
    /// Puts `key` among the keys of `category`.
    pub(crate) fn ensure_tag_key(&mut self, category: Category, key: &str)
        ensures
            final(self)@ == with_key(old(self)@, category, key@),
            final(self).tag_values == old(self).tag_values,
    {
        let row = TagKey { category, key: key.to_owned() };
        assert(row.deep_view() == TagKeyView { category, key: key@ });
        self.tag_keys.insert(row);
    }

    /// Makes `category` offer a key; returns the form in which it is kept.
    pub fn add_tag_key(&mut self, category: Category, key: &str) -> (r: Option<String>)
        ensures
            r is Some <==> key_in_use(old(self)@, category, key@) is Some,
            r matches Some(stored) ==> key_in_use(old(self)@, category, key@) == Some(stored@)
                && final(self)@ == with_key(old(self)@, category, stored@),
            r is None ==> final(self)@ == old(self)@,
    {
        match self.canonical_tag_key(category, key) {
            Some(stored) => {
                self.ensure_tag_key(category, stored.as_str());
                Some(stored)
            },
            None => None,
        }
    }

    /// Takes a key and its values from `category`; tells whether the category offered it.
    pub fn remove_tag_key(&mut self, category: Category, key: &str) -> (r: bool)
        ensures
            final(self)@ == match key_in_use(old(self)@, category, key@) {
                Some(stored) => without_key(old(self)@, category, stored),
                None => old(self)@,
            },
            r == (key_in_use(old(self)@, category, key@) matches Some(stored)
                && old(self)@.tag_keys.contains(TagKeyView { category, key: stored })),
    {
        let ghost before = self@;
        match self.canonical_tag_key(category, key) {
            Some(stored) => {
                let row = TagKey { category, key: stored.clone() };
                let offered = self.tag_keys.contains(&row);
                let other_key = |row: &TagValue| -> (keep: bool)
                    ensures
                        keep == !row_has_key(row.deep_view(), category, stored@),
                {
                    !(row.category == category && same_text(row.key.as_str(), stored.as_str()))
                };
                self.tag_values.retain(
                    other_key,
                    Ghost(|row: TagValueView| !row_has_key(row, category, stored@)),
                );
                let another = |row: &TagKey| -> (keep: bool)
                    ensures
                        keep == !(row.deep_view() == (TagKeyView { category, key: stored@ })),
                {
                    !(row.category == category && same_text(row.key.as_str(), stored.as_str()))
                };
                self.tag_keys.retain(
                    another,
                    Ghost(|row: TagKeyView| !(row == TagKeyView { category, key: stored@ })),
                );
                assert(self@ =~= without_key(before, category, stored@));
                offered
            },
            None => false,
        }
    }

    /// Puts the values that `from` picks in the form that `to` gives them.
    fn move_values<F: Fn(&TagValue) -> bool, G: Fn(&TagValue) -> TagValue>(
        &mut self,
        from: F,
        to: G,
        Ghost(p): Ghost<spec_fn(TagValueView) -> bool>,
        Ghost(t): Ghost<spec_fn(TagValueView) -> TagValueView>,
    )
        requires
            forall|row: &TagValue| #[trigger] from.requires((row,)),
            forall|row: &TagValue, r: bool| #[trigger]
                from.ensures((row,), r) ==> r == p(row.deep_view()),
            forall|row: &TagValue| #[trigger] to.requires((row,)),
            forall|row: &TagValue, r: TagValue| #[trigger]
                to.ensures((row,), r) ==> r.deep_view() == t(row.deep_view()),
        ensures
            final(self)@ == (DatabaseView {
                tag_values: moved(old(self)@.tag_values, p, t),
                ..old(self)@
            }),
    {
        let ghost g = |row: TagValueView|
            if p(row) {
                Some(t(row))
            } else {
                None
            };
        let make = |row: &TagValue| -> (r: Option<TagValue>)
            ensures
                r.deep_view() == g(row.deep_view()),
        {
            if from(row) {
                Some(to(row))
            } else {
                None
            }
        };
        self.tag_values.extend(make, Ghost(g));
        let stay = |row: &TagValue| -> (keep: bool)
            ensures
                keep == !p(row.deep_view()),
        {
            !from(row)
        };
        self.tag_values.retain(stay, Ghost(|row: TagValueView| !p(row)));
    }

    /// Puts the values of `old_key` under `new_key`, which takes its place.
    pub fn rename_tag_key(&mut self, category: Category, old_key: &str, new_key: &str)
        ensures
            final(self)@ == match (
                key_in_use(old(self)@, category, old_key@),
                key_in_use(old(self)@, category, new_key@),
            ) {
                (Some(from), Some(to)) => if from == to {
                    old(self)@
                } else {
                    with_renamed_key(old(self)@, category, from, to)
                },
                _ => old(self)@,
            },
    {
        let ghost before = self@;
        match (
            self.canonical_tag_key(category, old_key),
            self.canonical_tag_key(category, new_key),
        ) {
            (Some(from), Some(to)) => {
                if same_text(from.as_str(), to.as_str()) {
                    return ;
                }
                self.ensure_tag_key(category, to.as_str());
                let has_old_key = |row: &TagValue| -> (r: bool)
                    ensures
                        r == row_has_key(row.deep_view(), category, from@),
                {
                    row.category == category && same_text(row.key.as_str(), from.as_str())
                };
                let under_new_key = |row: &TagValue| -> (r: TagValue)
                    ensures
                        r.deep_view() == (TagValueView { key: to@, ..row.deep_view() }),
                {
                    TagValue {
                        category: row.category,
                        stem: row.stem.clone(),
                        key: to.clone(),
                        value: row.value.clone(),
                    }
                };
                self.move_values(
                    has_old_key,
                    under_new_key,
                    Ghost(|row: TagValueView| row_has_key(row, category, from@)),
                    Ghost(|row: TagValueView| TagValueView { key: to@, ..row }),
                );
                let another = |row: &TagKey| -> (keep: bool)
                    ensures
                        keep == !(row.deep_view() == (TagKeyView { category, key: from@ })),
                {
                    !(row.category == category && same_text(row.key.as_str(), from.as_str()))
                };
                self.tag_keys.retain(
                    another,
                    Ghost(|row: TagKeyView| !(row == TagKeyView { category, key: from@ })),
                );
                assert(self@ =~= with_renamed_key(before, category, from@, to@));
            },
            _ => {},
        }
    }

    /// Takes away the values beside `value` on the stems that `picks` names, except `kept`.
    fn remove_siblings<F: Fn(&TagValue) -> bool>(
        &mut self,
        category: Category,
        key: &str,
        value: &str,
        picks: F,
        Ghost(p): Ghost<spec_fn(TagValueView) -> bool>,
    )
        requires
            forall|row: &TagValue| #[trigger] picks.requires((row,)),
            forall|row: &TagValue, r: bool| #[trigger]
                picks.ensures((row,), r) ==> r == p(row.deep_view()),
        ensures
            final(self)@ == (DatabaseView {
                tag_values: old(self)@.tag_values.filter(
                    |row: TagValueView|
                        !(p(row) && is_sibling(row, category, row.stem, key@, value@)),
                ),
                ..old(self)@
            }),
    {
        let ghost before = self@;
        match split_subtag(value) {
            Some((parent, _)) => {
                let pattern = like_descendant_pattern(parent);
                let keeps = |row: &TagValue| -> (keep: bool)
                    ensures
                        keep == !(p(row.deep_view()) && is_sibling(
                            row.deep_view(),
                            category,
                            row.deep_view().stem,
                            key@,
                            value@,
                        )),
                {
                    !(picks(row) && row.category == category && same_text(row.key.as_str(), key)
                        && like_matches(row.value.as_str(), pattern.as_str()))
                };
                self.tag_values.retain(
                    keeps,
                    Ghost(
                        |row: TagValueView|
                            !(p(row) && is_sibling(row, category, row.stem, key@, value@)),
                    ),
                );
            },
            None => {
                assert(self@.tag_values =~= before.tag_values.filter(
                    |row: TagValueView|
                        !(p(row) && is_sibling(row, category, row.stem, key@, value@)),
                ));
            },
        }
    }

    /// Puts `value` under `key` on the stem `stem`.
    pub fn add_tag(&mut self, category: Category, stem: &str, key: &str, value: &str)
        ensures
            final(self)@ == after_add_tag(old(self)@, category, stem@, key@, value@),
    {
        let ghost before = self@;
        match (self.canonical_tag_key(category, key), normalize_tag_value(value)) {
            (Some(stored), Some(normal)) => {
                self.ensure_tag_key(category, stored.as_str());
                let on_stem = |row: &TagValue| -> (r: bool)
                    ensures
                        r == (row.deep_view().stem == stem@),
                {
                    same_text(row.stem.as_str(), stem)
                };
                self.remove_siblings(
                    category,
                    stored.as_str(),
                    normal.as_str(),
                    on_stem,
                    Ghost(|row: TagValueView| row.stem == stem@),
                );
                let ghost stored_text = stored@;
                let ghost normal_text = normal@;
                let row = TagValue { category, stem: stem.to_owned(), key: stored, value: normal };
                assert(row.deep_view() == TagValueView {
                    category,
                    stem: stem@,
                    key: stored_text,
                    value: normal_text,
                });
                self.tag_values.insert(row);
                assert(self@ =~= with_tag(before, category, stem@, stored_text, normal_text));
            },
            _ => {},
        }
    }

    /// Takes `value` under `key` off the stem `stem`.
    pub fn remove_tag(&mut self, category: Category, stem: &str, key: &str, value: &str)
        ensures
            final(self)@ == after_remove_tag(old(self)@, category, stem@, key@, value@),
    {
        let ghost before = self@;
        match (self.canonical_tag_key(category, key), normalize_tag_value(value)) {
            (Some(stored), Some(normal)) => {
                let another = |row: &TagValue| -> (keep: bool)
                    ensures
                        keep == !is_tag(row.deep_view(), category, stem@, stored@, normal@),
                {
                    !(row.category == category && same_text(row.stem.as_str(), stem) && same_text(
                        row.key.as_str(),
                        stored.as_str(),
                    ) && same_text(row.value.as_str(), normal.as_str()))
                };
                self.tag_values.retain(
                    another,
                    Ghost(
                        |row: TagValueView| !is_tag(row, category, stem@, stored@, normal@),
                    ),
                );
                assert(self@ =~= after_remove_tag(before, category, stem@, key@, value@));
            },
            _ => {},
        }
    }

    /// Replaces `old_value` under `key` by `new_value` on the stem `stem`.
    pub fn rename_stem_tag_value(
        &mut self,
        category: Category,
        stem: &str,
        key: &str,
        old_value: &str,
        new_value: &str,
    )
        ensures
            final(self)@ == after_rename_stem_value(
                old(self)@,
                category,
                stem@,
                key@,
                old_value@,
                new_value@,
            ),
    {
        if same_text(old_value, new_value) {
            return ;
        }
        match (
            self.canonical_tag_key(category, key),
            normalize_tag_value(old_value),
            normalize_tag_value(new_value),
        ) {
            (Some(stored), Some(from), Some(to)) => {
                let on_stem = |row: &TagValue| -> (r: bool)
                    ensures
                        r == (row.deep_view().stem == stem@),
                {
                    same_text(row.stem.as_str(), stem)
                };
                self.replace_value(
                    category,
                    stored.as_str(),
                    from.as_str(),
                    to.as_str(),
                    on_stem,
                    Ghost(|other: Seq<char>| other == stem@),
                );
            },
            _ => {},
        }
    }

    /// Replaces `old_value` under `key` by `new_value` on the stems that `picks` names.
    fn replace_value<F: Fn(&TagValue) -> bool>(
        &mut self,
        category: Category,
        key: &str,
        old_value: &str,
        new_value: &str,
        picks: F,
        Ghost(p): Ghost<spec_fn(Seq<char>) -> bool>,
    )
        requires
            forall|row: &TagValue| #[trigger] picks.requires((row,)),
            forall|row: &TagValue, r: bool| #[trigger]
                picks.ensures((row,), r) ==> r == p(row.deep_view().stem),
        ensures
            final(self)@ == (DatabaseView {
                tag_values: with_renamed_value(
                    old(self)@.tag_values,
                    category,
                    key@,
                    old_value@,
                    new_value@,
                    p,
                ),
                ..old(self)@
            }),
    {
        let ghost before = self@;
        let picks_other = |row: &TagValue| -> (r: bool)
            ensures
                r == (p(row.deep_view().stem) && row.deep_view().value != old_value@),
        {
            picks(row) && !same_text(row.value.as_str(), old_value)
        };
        self.remove_siblings(
            category,
            key,
            new_value,
            picks_other,
            Ghost(|row: TagValueView| p(row.stem) && row.value != old_value@),
        );
        proof {
            assert(self@.tag_values =~= before.tag_values.filter(
                |row: TagValueView|
                    !(p(row.stem) && row.value != old_value@ && is_sibling(
                        row,
                        category,
                        row.stem,
                        key@,
                        new_value@,
                    )),
            ));
        }
        let has_old_value = |row: &TagValue| -> (r: bool)
            ensures
                r == (p(row.deep_view().stem) && row_has_key(row.deep_view(), category, key@)
                    && row.deep_view().value == old_value@),
        {
            picks(row) && row.category == category && same_text(row.key.as_str(), key)
                && same_text(row.value.as_str(), old_value)
        };
        let with_new_value = |row: &TagValue| -> (r: TagValue)
            ensures
                r.deep_view() == (TagValueView { value: new_value@, ..row.deep_view() }),
        {
            TagValue {
                category: row.category,
                stem: row.stem.clone(),
                key: row.key.clone(),
                value: new_value.to_owned(),
            }
        };
        self.move_values(
            has_old_value,
            with_new_value,
            Ghost(
                |row: TagValueView|
                    p(row.stem) && row_has_key(row, category, key@) && row.value == old_value@,
            ),
            Ghost(|row: TagValueView| TagValueView { value: new_value@, ..row }),
        );
    }

    /// Replaces `old_value` under `key` by `new_value` on every stem that has it.
    pub fn rename_tag_value(
        &mut self,
        category: Category,
        key: &str,
        old_value: &str,
        new_value: &str,
    )
        ensures
            final(self)@ == after_rename_value(
                old(self)@,
                category,
                key@,
                old_value@,
                new_value@,
            ),
    {
        if same_text(old_value, new_value) {
            return ;
        }
        match (
            self.canonical_tag_key(category, key),
            normalize_tag_value(old_value),
            normalize_tag_value(new_value),
        ) {
            (Some(stored), Some(from), Some(to)) => {
                let stems = self.stems_with_value(category, stored.as_str(), from.as_str());
                let has_stem = |row: &TagValue| -> (r: bool)
                    ensures
                        r == stems@.contains(row.deep_view().stem),
                {
                    stems.contains(row.stem.as_str())
                };
                self.replace_value(
                    category,
                    stored.as_str(),
                    from.as_str(),
                    to.as_str(),
                    has_stem,
                    Ghost(|stem: Seq<char>| stems@.contains(stem)),
                );
            },
            _ => {},
        }
    }

    /// The stems that have `value` under `key`.
    fn stems_with_value(&self, category: Category, key: &str, value: &str) -> (r: TextSet)
        ensures
            r@ == stems_with(self@, category, key@, value@),
    {
        let mut stems = TextSet::new();
        let total = self.tag_values.len();
        let ghost items = self.tag_values.items();
        let mut i: usize = 0;
        while i < total
            invariant
                i <= total,
                total == items.len(),
                items == self.tag_values.items(),
                forall|row: TagValueView| #[trigger]
                    self.tag_values@.contains(row) <==> items.contains(row),
                forall|stem: Seq<char>| #[trigger]
                    stems@.contains(stem) <==> items.take(i as int).contains(
                        TagValueView { category, stem, key: key@, value: value@ },
                    ),
            decreases total - i,
        {
            let row = self.tag_values.row_at(i);
            let ghost before = stems@;
            if row.category == category && same_text(row.key.as_str(), key) && same_text(
                row.value.as_str(),
                value,
            ) {
                stems.insert(row.stem.clone());
            }
            proof {
                assert forall|stem: Seq<char>| #[trigger]
                    stems@.contains(stem) <==> items.take(i + 1).contains(
                        TagValueView { category, stem, key: key@, value: value@ },
                    ) by {
                    lemma_take_contains(
                        items,
                        i as int,
                        TagValueView { category, stem, key: key@, value: value@ },
                    );
                    assert(before.contains(stem) <==> items.take(i as int).contains(
                        TagValueView { category, stem, key: key@, value: value@ },
                    ));
                }
            }
            i += 1;
        }
        assert(items.take(i as int) =~= items);
        assert(stems@ =~= stems_with(self@, category, key@, value@));
        stems
    }

    /// Puts the tags of `old_stem` on `new_stem`.
    pub fn rename_stem_tags(&mut self, category: Category, old_stem: &str, new_stem: &str)
        ensures
            final(self)@ == with_renamed_stem(old(self)@, category, old_stem@, new_stem@),
    {
        if same_text(old_stem, new_stem) {
            return ;
        }
        let has_old_stem = |row: &TagValue| -> (r: bool)
            ensures
                r == row_has_stem(row.deep_view(), category, old_stem@),
        {
            row.category == category && same_text(row.stem.as_str(), old_stem)
        };
        let on_new_stem = |row: &TagValue| -> (r: TagValue)
            ensures
                r.deep_view() == (TagValueView { stem: new_stem@, ..row.deep_view() }),
        {
            TagValue {
                category: row.category,
                stem: new_stem.to_owned(),
                key: row.key.clone(),
                value: row.value.clone(),
            }
        };
        self.move_values(
            has_old_stem,
            on_new_stem,
            Ghost(|row: TagValueView| row_has_stem(row, category, old_stem@)),
            Ghost(|row: TagValueView| TagValueView { stem: new_stem@, ..row }),
        );
    }

    /// The keys that `category` offers, in the order in which the case of letters does not count.
    pub fn tag_keys(&self, category: Category) -> (r: Vec<String>)
        ensures
            r.deep_view() == caseless_list(keys_of(self@, category)),
    {
        let of_category = |row: &TagKey| -> (r: bool)
            ensures
                r == (row.deep_view().category == category),
        {
            row.category == category
        };
        let ghost p = |row: TagKeyView| row.category == category;
        let rows = self.tag_keys.select(of_category, Ghost(p));
        let ghost views = rows.deep_view();
        let mut keys: Vec<String> = Vec::new();
        let mut i: usize = 0;
        while i < rows.len()
            invariant
                i <= rows@.len(),
                views == rows.deep_view(),
                keys@.len() == i,
                forall|j: int| 0 <= j < i ==> #[trigger] keys.deep_view()[j] == views[j].key,
            decreases rows.len() - i,
        {
            let ghost before = keys.deep_view();
            assert(views[i as int] == rows@[i as int].deep_view());
            keys.push(rows[i].key.clone());
            assert(keys.deep_view() =~= before.push(views[i as int].key));
            i += 1;
        }
        proof {
            let texts = keys.deep_view();
            let all = self.tag_keys@.filter(p);
            let key_of = |row: TagKeyView| TagKey::row_key(row);
            assert forall|i: int| 0 <= i < views.len() implies (#[trigger] views[i]).category
                == category by {
                assert(views.contains(views[i]));
                assert(all.contains(views[i]));
            }
            assert forall|i: int, j: int| 0 <= i < j < texts.len() implies texts[i] != texts[j] by {
                assert(key_lt(key_of(views[i]), key_of(views[j])));
                lemma_key_order(key_of(views[i]), key_of(views[i]));
                if views[i].key == views[j].key {
                    assert(views[i] == views[j]);
                }
            }
            assert forall|t: Seq<char>| #[trigger]
                keys_of(self@, category).contains(t) <==> texts.contains(t) by {
                let row = TagKeyView { category, key: t };
                if keys_of(self@, category).contains(t) {
                    assert(all.contains(row));
                    assert(views.contains(row));
                    let i = choose|i: int| 0 <= i < views.len() && views[i] == row;
                    assert(texts[i] == t);
                }
                if texts.contains(t) {
                    let i = choose|i: int| 0 <= i < texts.len() && texts[i] == t;
                    assert(views[i] == row);
                    assert(views.contains(row));
                    assert(all.contains(row));
                }
            }
        }
        sort_caseless(keys, Ghost(keys_of(self@, category)))
    }

    /// Puts the tags of `source_stem` in `source` on `destination_stem` in `destination`. Within a
    /// category the tags move; between categories they are copied, under the keys that the
    /// destination uses.
    pub fn copy_stem_tags_between_categories(
        &mut self,
        source: Category,
        destination: Category,
        source_stem: &str,
        destination_stem: &str,
    )
        ensures
            final(self)@ == if source == destination {
                with_renamed_stem(old(self)@, source, source_stem@, destination_stem@)
            } else {
                with_copied_tags(
                    old(self)@,
                    tags_on(old(self)@, source, source_stem@),
                    destination,
                    destination_stem@,
                )
            },
    {
        if source == destination {
            self.rename_stem_tags(source, source_stem, destination_stem);
            return ;
        }
        let on_stem = |row: &TagValue| -> (r: bool)
            ensures
                r == row_has_stem(row.deep_view(), source, source_stem@),
        {
            row.category == source && same_text(row.stem.as_str(), source_stem)
        };
        let rows = self.tag_values.select(
            on_stem,
            Ghost(|row: TagValueView| row_has_stem(row, source, source_stem@)),
        );
        let ghost before = self@;
        let ghost views = rows.deep_view();
        let mut i: usize = 0;
        assert(views.take(0) =~= seq![]);
        while i < rows.len()
            invariant
                i <= rows@.len(),
                views == rows.deep_view(),
                self@ == with_copied_tags(
                    before,
                    views.take(i as int),
                    destination,
                    destination_stem@,
                ),
            decreases rows.len() - i,
        {
            let ghost was = self@;
            let row = &rows[i];
            assert(views[i as int] == row.deep_view());
            let key = match self.find_stored_key(destination, row.key.as_str()) {
                Some(stored) => {
                    proof {
                        lemma_stored_key(was, destination, row.key@, stored@);
                    }
                    stored
                },
                None => row.key.clone(),
            };
            assert(key@ == stored_key(was, destination, row.key@));
            self.ensure_tag_key(destination, key.as_str());
            let ghost key_text = key@;
            let copy = TagValue {
                category: destination,
                stem: destination_stem.to_owned(),
                key,
                value: row.value.clone(),
            };
            assert(copy.deep_view() == TagValueView {
                category: destination,
                stem: destination_stem@,
                key: key_text,
                value: views[i as int].value,
            });
            self.tag_values.insert(copy);
            proof {
                assert(views.take(i + 1).drop_last() =~= views.take(i as int));
                assert(views.take(i + 1).last() == views[i as int]);
            }
            i += 1;
        }
        assert(views.take(i as int) =~= views);
    }
}

/// The keys that `category` offers.
pub open spec fn keys_of(db: DatabaseView, category: Category) -> Set<Seq<char>> {
    Set::new(|key: Seq<char>| db.tag_keys.contains(TagKeyView { category, key }))
}

/// The tags on a stem, in the order of the table.
pub open spec fn tags_on(
    db: DatabaseView,
    category: Category,
    stem: Seq<char>,
) -> Seq<TagValueView> {
    ordering(
        db.tag_values.filter(|row: TagValueView| row_has_stem(row, category, stem)),
        |row: TagValueView| TagValue::row_key(row),
    )
}

/// `db` with the tags of `rows` on the stem `stem` of `category`, one after the other.
pub open spec fn with_copied_tags(
    db: DatabaseView,
    rows: Seq<TagValueView>,
    category: Category,
    stem: Seq<char>,
) -> DatabaseView
    decreases rows.len(),
{
    if rows.len() == 0 {
        db
    } else {
        let before = with_copied_tags(db, rows.drop_last(), category, stem);
        let key = stored_key(before, category, rows.last().key);
        DatabaseView {
            tag_values: before.tag_values.insert(
                TagValueView { category, stem, key, value: rows.last().value },
            ),
            ..with_key(before, category, key)
        }
    }
}

/// Whether `row` is a copy of `tag` on the stem `stem` of `category`, the case of letters in its key
/// aside.
pub open spec fn is_copy(
    row: TagValueView,
    tag: TagValueView,
    category: Category,
    stem: Seq<char>,
) -> bool {
    row_has_stem(row, category, stem) && equal_ignoring_ascii_case(row.key, tag.key) && row.value
        == tag.value
}

/// Whether the stem `stem` of `category` has a copy of `tag` under a key that the category offers.
pub open spec fn has_copy(
    db: DatabaseView,
    tag: TagValueView,
    category: Category,
    stem: Seq<char>,
) -> bool {
    exists|row: TagValueView| #[trigger]
        db.tag_values.contains(row) && is_copy(row, tag, category, stem) && db.tag_keys.contains(
            TagKeyView { category, key: row.key },
        )
}

/// Every tag that is copied is on the other stem afterwards, under a key that its category offers;
/// whatever else is there was there before.
pub proof fn lemma_copied_tags_are_there(
    db: DatabaseView,
    rows: Seq<TagValueView>,
    category: Category,
    stem: Seq<char>,
)
    ensures
        ({
            let after = with_copied_tags(db, rows, category, stem);
            &&& forall|i: int|
                0 <= i < rows.len() ==> has_copy(after, #[trigger] rows[i], category, stem)
            &&& forall|row: TagValueView| #[trigger]
                db.tag_values.contains(row) ==> after.tag_values.contains(row)
            &&& forall|key: TagKeyView| #[trigger]
                db.tag_keys.contains(key) ==> after.tag_keys.contains(key)
            &&& forall|row: TagValueView| #[trigger]
                after.tag_values.contains(row) ==> db.tag_values.contains(row) || exists|i: int|
                    0 <= i < rows.len() && is_copy(row, #[trigger] rows[i], category, stem)
            &&& after.files == db.files
            &&& after.settings == db.settings
        }),
    decreases rows.len(),
{
    if rows.len() > 0 {
        let front = rows.drop_last();
        lemma_copied_tags_are_there(db, front, category, stem);
        let before = with_copied_tags(db, front, category, stem);
        let after = with_copied_tags(db, rows, category, stem);
        let last = rows.last();
        let key = stored_key(before, category, last.key);
        let copy = TagValueView { category, stem, key, value: last.value };
        assert(equal_ignoring_ascii_case(key, last.key));
        assert(after.tag_values.contains(copy) && is_copy(copy, last, category, stem));
        assert forall|i: int| 0 <= i < rows.len() implies has_copy(
            after,
            #[trigger] rows[i],
            category,
            stem,
        ) by {
            if i < front.len() {
                assert(has_copy(before, front[i], category, stem));
                let row = choose|row: TagValueView| #[trigger]
                    before.tag_values.contains(row) && is_copy(row, front[i], category, stem)
                        && before.tag_keys.contains(TagKeyView { category, key: row.key });
                assert(after.tag_values.contains(row));
            }
        }
        assert forall|row: TagValueView| #[trigger]
            after.tag_values.contains(row) implies db.tag_values.contains(row) || exists|i: int|
            0 <= i < rows.len() && is_copy(row, #[trigger] rows[i], category, stem) by {
            if row == copy {
                assert(is_copy(row, rows[rows.len() - 1], category, stem));
            } else if !db.tag_values.contains(row) {
                assert(before.tag_values.contains(row));
                let i = choose|i: int|
                    0 <= i < front.len() && is_copy(row, #[trigger] front[i], category, stem);
                assert(is_copy(row, rows[i], category, stem));
            }
        }
    }
}

/// After a tag was added, the stem has it under a key that the category offers.
pub proof fn lemma_added_tag_is_there(
    db: DatabaseView,
    category: Category,
    stem: Seq<char>,
    key: Seq<char>,
    value: Seq<char>,
)
    requires
        key_in_use(db, category, key) is Some,
        normal_value(value) is Some,
    ensures
        after_add_tag(db, category, stem, key, value).tag_values.contains(
            TagValueView {
                category,
                stem,
                key: key_in_use(db, category, key).unwrap(),
                value: normal_value(value).unwrap(),
            },
        ),
        keys_of(after_add_tag(db, category, stem, key, value), category).contains(
            key_in_use(db, category, key).unwrap(),
        ),
{
}

/// Adding a tag to a stem leaves the tags of every other stem as they were.
pub proof fn lemma_add_tag_keeps_others(
    db: DatabaseView,
    category: Category,
    stem: Seq<char>,
    key: Seq<char>,
    value: Seq<char>,
    row: TagValueView,
)
    requires
        row.category != category || row.stem != stem,
    ensures
        after_add_tag(db, category, stem, key, value).tag_values.contains(row)
            <==> db.tag_values.contains(row),
{
}

/// After a value below another was added, it is the only value below that one on the stem.
pub proof fn lemma_added_subtag_is_alone(
    db: DatabaseView,
    category: Category,
    stem: Seq<char>,
    key: Seq<char>,
    value: Seq<char>,
    row: TagValueView,
)
    requires
        key_in_use(db, category, key) is Some,
        normal_value(value) is Some,
        is_sibling(
            row,
            category,
            stem,
            key_in_use(db, category, key).unwrap(),
            normal_value(value).unwrap(),
        ),
        after_add_tag(db, category, stem, key, value).tag_values.contains(row),
    ensures
        row.value == normal_value(value).unwrap(),
{
}

/// After a tag was removed the stem does not have it, and every other tag stays.
pub proof fn lemma_removed_tag_is_gone(
    db: DatabaseView,
    category: Category,
    stem: Seq<char>,
    key: Seq<char>,
    value: Seq<char>,
    row: TagValueView,
)
    requires
        key_in_use(db, category, key) is Some,
        normal_value(value) is Some,
    ensures
        after_remove_tag(db, category, stem, key, value).tag_values.contains(row)
            <==> db.tag_values.contains(row) && !is_tag(
            row,
            category,
            stem,
            key_in_use(db, category, key).unwrap(),
            normal_value(value).unwrap(),
        ),
{
}

/// Removing a tag that was not there undoes its addition, where the value stands below no other
/// and the key was offered.
pub proof fn lemma_remove_undoes_add(
    db: DatabaseView,
    category: Category,
    stem: Seq<char>,
    key: Seq<char>,
    value: Seq<char>,
)
    requires
        key_in_use(db, category, key) is Some,
        normal_value(value) is Some,
        keys_of(db, category).contains(key_in_use(db, category, key).unwrap()),
        parent_value(normal_value(value).unwrap()) is None,
        !db.tag_values.contains(
            TagValueView {
                category,
                stem,
                key: key_in_use(db, category, key).unwrap(),
                value: normal_value(value).unwrap(),
            },
        ),
    ensures
        after_remove_tag(
            after_add_tag(db, category, stem, key, value),
            category,
            stem,
            key,
            value,
        ) == db,
{
    let stored = key_in_use(db, category, key).unwrap();
    let normal = normal_value(value).unwrap();
    let added = after_add_tag(db, category, stem, key, value);
    assert(added.tag_keys =~= db.tag_keys);
    assert(added.tag_values =~= db.tag_values.insert(
        TagValueView { category, stem, key: stored, value: normal },
    ));
    lemma_key_in_use_by_keys(added, db, category, key);
    assert(after_remove_tag(added, category, stem, key, value).tag_values =~= db.tag_values);
}

/// A category no longer has a key that was removed, nor values under it.
pub proof fn lemma_removed_key_is_gone(db: DatabaseView, category: Category, key: Seq<char>)
    ensures
        !keys_of(without_key(db, category, key), category).contains(key),
        forall|row: TagValueView| #[trigger]
            without_key(db, category, key).tag_values.contains(row) <==> db.tag_values.contains(row)
                && !row_has_key(row, category, key),
{
}

/// Renaming a key moves each of its values to the new key and touches no other.
pub proof fn lemma_renamed_key(
    db: DatabaseView,
    category: Category,
    old_key: Seq<char>,
    new_key: Seq<char>,
    row: TagValueView,
)
    requires
        old_key != new_key,
    ensures
        row_has_key(row, category, old_key) ==> !with_renamed_key(
            db,
            category,
            old_key,
            new_key,
        ).tag_values.contains(row),
        row_has_key(row, category, new_key) ==> (with_renamed_key(
            db,
            category,
            old_key,
            new_key,
        ).tag_values.contains(row) <==> db.tag_values.contains(row) || db.tag_values.contains(
            TagValueView { key: old_key, ..row },
        )),
        !row_has_key(row, category, old_key) && !row_has_key(row, category, new_key) ==> (
        with_renamed_key(db, category, old_key, new_key).tag_values.contains(row)
            <==> db.tag_values.contains(row)),
        !keys_of(with_renamed_key(db, category, old_key, new_key), category).contains(old_key),
        keys_of(with_renamed_key(db, category, old_key, new_key), category).contains(new_key),
{
    let g = |x: TagValueView|
        if row_has_key(x, category, old_key) {
            Some(TagValueView { key: new_key, ..x })
        } else {
            None
        };
    let made = made_from(db.tag_values, g);
    if row_has_key(row, category, new_key) {
        let source = TagValueView { key: old_key, ..row };
        assert(g(source) == Some(row));
        if made.contains(row) {
            let x = choose|x: TagValueView| #[trigger]
                db.tag_values.contains(x) && g(x) == Some(row);
            assert(x == source);
        }
    } else if made.contains(row) {
        let x = choose|x: TagValueView| #[trigger] db.tag_values.contains(x) && g(x) == Some(row);
        assert(row.key == new_key && row.category == category);
    }
}

/// Renaming a stem moves each of its tags to the new stem and touches no other.
pub proof fn lemma_renamed_stem(
    db: DatabaseView,
    category: Category,
    old_stem: Seq<char>,
    new_stem: Seq<char>,
    row: TagValueView,
)
    requires
        old_stem != new_stem,
    ensures
        row_has_stem(row, category, old_stem) ==> !with_renamed_stem(
            db,
            category,
            old_stem,
            new_stem,
        ).tag_values.contains(row),
        row_has_stem(row, category, new_stem) ==> (with_renamed_stem(
            db,
            category,
            old_stem,
            new_stem,
        ).tag_values.contains(row) <==> db.tag_values.contains(row) || db.tag_values.contains(
            TagValueView { stem: old_stem, ..row },
        )),
        !row_has_stem(row, category, old_stem) && !row_has_stem(row, category, new_stem) ==> (
        with_renamed_stem(db, category, old_stem, new_stem).tag_values.contains(row)
            <==> db.tag_values.contains(row)),
{
    let g = |x: TagValueView|
        if row_has_stem(x, category, old_stem) {
            Some(TagValueView { stem: new_stem, ..x })
        } else {
            None
        };
    let made = made_from(db.tag_values, g);
    if row_has_stem(row, category, new_stem) {
        let source = TagValueView { stem: old_stem, ..row };
        assert(g(source) == Some(row));
        if made.contains(row) {
            let x = choose|x: TagValueView| #[trigger]
                db.tag_values.contains(x) && g(x) == Some(row);
            assert(x == source);
        }
    } else if made.contains(row) {
        let x = choose|x: TagValueView| #[trigger] db.tag_values.contains(x) && g(x) == Some(row);
        assert(row.stem == new_stem && row.category == category);
    }
}

/// Renaming a value in a category gives the new value to exactly the stems that had the old or the
/// new one, and leaves the old one nowhere.
pub proof fn lemma_renamed_value(
    db: DatabaseView,
    category: Category,
    key: Seq<char>,
    old_value: Seq<char>,
    new_value: Seq<char>,
    stem: Seq<char>,
)
    requires
        key_in_use(db, category, key) is Some,
        normal_value(old_value) is Some,
        normal_value(new_value) is Some,
        normal_value(old_value) != normal_value(new_value),
    ensures
        ({
            let stored = key_in_use(db, category, key).unwrap();
            let from = normal_value(old_value).unwrap();
            let to = normal_value(new_value).unwrap();
            let after = after_rename_value(db, category, key, old_value, new_value);
            &&& !after.tag_values.contains(TagValueView { category, stem, key: stored, value: from })
            &&& after.tag_values.contains(TagValueView { category, stem, key: stored, value: to })
                <==> db.tag_values.contains(TagValueView { category, stem, key: stored, value: to })
                || db.tag_values.contains(TagValueView { category, stem, key: stored, value: from })
        }),
{
    let stored = key_in_use(db, category, key).unwrap();
    let from = normal_value(old_value).unwrap();
    let to = normal_value(new_value).unwrap();
    let stems = stems_with(db, category, stored, from);
    let picks = |other: Seq<char>| stems.contains(other);
    let kept = db.tag_values.filter(
        |row: TagValueView|
            !(picks(row.stem) && row.value != from && is_sibling(
                row,
                category,
                row.stem,
                stored,
                to,
            )),
    );
    let has_old = |row: TagValueView|
        picks(row.stem) && row_has_key(row, category, stored) && row.value == from;
    let renamed = |row: TagValueView| TagValueView { value: to, ..row };
    let source = TagValueView { category, stem, key: stored, value: from };
    let target = TagValueView { category, stem, key: stored, value: to };
    lemma_moved(kept, has_old, renamed, source);
    lemma_moved(kept, has_old, renamed, target);
    assert(with_renamed_value(db.tag_values, category, stored, from, to, picks) == moved(
        kept,
        has_old,
        renamed,
    ));
    if exists|x: TagValueView| #[trigger] kept.contains(x) && has_old(x) && renamed(x) == target {
        let x = choose|x: TagValueView| #[trigger]
            kept.contains(x) && has_old(x) && renamed(x) == target;
        assert(x == source);
    }
    if db.tag_values.contains(source) {
        assert(kept.contains(source) && has_old(source) && renamed(source) == target);
    }
}

/// What moving rows leaves: the rows that stay, and the new forms of those that move.
pub proof fn lemma_moved(
    rows: Set<TagValueView>,
    from: spec_fn(TagValueView) -> bool,
    to: spec_fn(TagValueView) -> TagValueView,
    row: TagValueView,
)
    ensures
        moved(rows, from, to).contains(row) <==> !from(row) && (rows.contains(row) || exists|
            x: TagValueView,
        | #[trigger]
            rows.contains(x) && from(x) && to(x) == row),
{
    let g = |x: TagValueView|
        if from(x) {
            Some(to(x))
        } else {
            None
        };
    if exists|x: TagValueView| #[trigger] rows.contains(x) && from(x) && to(x) == row {
        let x = choose|x: TagValueView| #[trigger] rows.contains(x) && from(x) && to(x) == row;
        assert(g(x) == Some(row));
        assert(made_from(rows, g).contains(row));
    }
    if made_from(rows, g).contains(row) {
        let x = choose|x: TagValueView| #[trigger] rows.contains(x) && g(x) == Some(row);
        assert(from(x) && to(x) == row);
    }
}

/// The key that a category uses depends on the keys that it offers alone.
pub proof fn lemma_key_in_use_by_keys(
    a: DatabaseView,
    b: DatabaseView,
    category: Category,
    key: Seq<char>,
)
    requires
        a.tag_keys == b.tag_keys,
    ensures
        key_in_use(a, category, key) == key_in_use(b, category, key),
        forall|k: Seq<char>| #[trigger] stored_key(a, category, k) == stored_key(b, category, k),
{
    assert forall|k: Seq<char>, other: Seq<char>|
        #![trigger spells_key(a, category, k, other)]
        #![trigger spells_key(b, category, k, other)]
        spells_key(a, category, k, other) == spells_key(b, category, k, other) by {}
    assert forall|k: Seq<char>, other: Seq<char>|
        #![trigger is_stored_key(a, category, k, other)]
        #![trigger is_stored_key(b, category, k, other)]
        is_stored_key(a, category, k, other) == is_stored_key(b, category, k, other) by {}
    assert forall|k: Seq<char>| #[trigger]
        stored_key(a, category, k) == stored_key(b, category, k) by {
        if exists|s: Seq<char>| is_stored_key(a, category, k, s) {
            let s = choose|s: Seq<char>| is_stored_key(a, category, k, s);
            lemma_stored_key(a, category, k, s);
            assert(is_stored_key(b, category, k, s));
            lemma_stored_key(b, category, k, s);
        } else if exists|s: Seq<char>| is_stored_key(b, category, k, s) {
            let s = choose|s: Seq<char>| is_stored_key(b, category, k, s);
            assert(is_stored_key(a, category, k, s));
        }
    }
}

/// A tag without key and value comes first among the tags of its stem.
proof fn lemma_least_tag(low: TagValueView, row: TagValueView)
    requires
        low.category == row.category,
        low.stem == row.stem,
        low.key.len() == 0,
        low.value.len() == 0,
    ensures
        key_le(TagValue::row_key(low), TagValue::row_key(row)),
{
    reveal_with_fuel(texts_lt, 4);
    let a = TagValue::row_key(low).parts;
    let b = TagValue::row_key(row).parts;
    assert(a.drop_first() =~= seq![low.key, low.value]);
    assert(b.drop_first() =~= seq![row.key, row.value]);
    assert(a.drop_first().drop_first() =~= seq![low.value]);
    assert(b.drop_first().drop_first() =~= seq![row.value]);
    if low.key.len() == 0 && row.key.len() == 0 {
        assert(low.key =~= row.key);
    }
    if low.value.len() == 0 && row.value.len() == 0 {
        assert(low.value =~= row.value);
    }
}

/// A tag between two tags of a stem is a tag of that stem.
proof fn lemma_between_tags(low: TagValueView, middle: TagValueView, high: TagValueView)
    requires
        low.category == high.category,
        low.stem == high.stem,
        key_le(TagValue::row_key(low), TagValue::row_key(middle)),
        key_le(TagValue::row_key(middle), TagValue::row_key(high)),
    ensures
        middle.category == low.category,
        middle.stem == low.stem,
{
    let a = TagValue::row_key(low).parts;
    let m = TagValue::row_key(middle).parts;
    let b = TagValue::row_key(high).parts;
    assert(a[0] == low.stem && m[0] == middle.stem && b[0] == high.stem);
    if middle.stem != low.stem {
        lemma_text_lt_asymmetric(low.stem, middle.stem);
    }
}

impl Database {
    /// The tags on a stem, in the order of the table.
    pub(crate) fn stem_rows(&self, category: Category, stem: &str) -> (r: Vec<TagValue>)
        ensures
            r.deep_view() == tags_on(self@, category, stem@),
            is_ordering(
                r.deep_view(),
                self.tag_values@.filter(|row: TagValueView| row_has_stem(row, category, stem@)),
                |row: TagValueView| TagValue::row_key(row),
            ),
    {
        let least = TagValue {
            category,
            stem: stem.to_owned(),
            key: String::new(),
            value: String::new(),
        };
        let ghost low = least.deep_view();
        assert(low.key =~= seq![] && low.value =~= seq![]);
        let total = self.tag_values.len();
        let ghost items = self.tag_values.items();
        let ghost p = |row: TagValueView| row_has_stem(row, category, stem@);
        let start = self.tag_values.index_from(&least);
        let mut rows: Vec<TagValue> = Vec::new();
        let mut i: usize = start;
        proof {
            reveal(Seq::filter);
            let head = items.take(start as int);
            assert forall|j: int| 0 <= j < head.len() implies !p(#[trigger] head[j]) by {
                assert(head[j] == items[j]);
                if p(items[j]) {
                    lemma_least_tag(low, items[j]);
                    lemma_key_order(TagValue::row_key(low), TagValue::row_key(items[j]));
                }
            }
            lemma_filter_prefix(head, 0, p);
            assert(head.take(0) =~= seq![]);
            assert(rows.deep_view() =~= head.filter(p));
            assert(items.take(total as int) =~= items);
        }
        while i < total
            invariant_except_break
                rows.deep_view() == items.take(i as int).filter(p),
            invariant
                start <= i <= total,
                total == items.len(),
                items == self.tag_values.items(),
                p == (|row: TagValueView| row_has_stem(row, category, stem@)),
                items.take(total as int) == items,
                low == (TagValueView { category, stem: stem@, key: seq![], value: seq![] }),
                is_ordering(items, self.tag_values@, |row: TagValueView| TagValue::row_key(row)),
                forall|j: int|
                    start <= j < items.len() ==> key_le(
                        TagValue::row_key(low),
                        TagValue::row_key(#[trigger] items[j]),
                    ),
            ensures
                rows.deep_view() == items.filter(p),
            decreases total - i,
        {
            let ghost before = rows.deep_view();
            let row = self.tag_values.row_at(i);
            if row.category != category || !same_text(row.stem.as_str(), stem) {
                proof {
                    assert forall|j: int| i <= j < items.len() implies !p(#[trigger] items[j]) by {
                        if p(items[j]) {
                            let key_of = |row: TagValueView| TagValue::row_key(row);
                            if i < j {
                                assert(key_lt(key_of(items[i as int]), key_of(items[j])));
                            }
                            lemma_between_tags(low, items[i as int], items[j]);
                        }
                    }
                    lemma_filter_prefix(items, i as int, p);
                }
                break ;
            }
            proof {
                reveal(Seq::filter);
                assert(items.take(i + 1).drop_last() =~= items.take(i as int));
            }
            rows.push(row.copy_row());
            assert(rows.deep_view() =~= before.push(items[i as int]));
            i += 1;
        }
        proof {
            lemma_ordering_filter(
                items,
                self.tag_values@,
                |row: TagValueView| TagValue::row_key(row),
                p,
            );
        }
        rows
    }
}

/// The key that a category uses for what a user typed spells it; it is the typed one unless the
/// category offers another spelling, and the only one that it offers if there is just one.
pub proof fn lemma_used_key_spells(
    db: DatabaseView,
    category: Category,
    key: Seq<char>,
    offered: Seq<char>,
)
    requires
        normal_key(key) is Some,
    ensures
        ({
            let normal = normal_key(key).unwrap();
            &&& key_in_use(db, category, key) matches Some(used) && equal_ignoring_ascii_case(
                used,
                normal,
            ) && (used == normal || keys_of(db, category).contains(used))
            &&& keys_of(db, category).contains(offered) && equal_ignoring_ascii_case(
                offered,
                normal,
            ) && (forall|other: Seq<char>| #[trigger]
                keys_of(db, category).contains(other) && equal_ignoring_ascii_case(other, normal)
                    ==> other == offered) ==> key_in_use(db, category, key) == Some(offered)
        }),
{
    let normal = normal_key(key).unwrap();
    if keys_of(db, category).contains(offered) && equal_ignoring_ascii_case(offered, normal) && (
    forall|other: Seq<char>| #[trigger]
        keys_of(db, category).contains(other) && equal_ignoring_ascii_case(other, normal) ==> other
            == offered) {
        assert forall|other: Seq<char>| #[trigger]
            spells_key(db, category, normal, other) implies other == offered || text_lt(
            offered,
            other,
        ) by {
            assert(keys_of(db, category).contains(other));
        }
        assert(is_stored_key(db, category, normal, offered));
        lemma_stored_key(db, category, normal, offered);
    }
}

/// Adding a value that stands below no other takes no tag away; adding one that does takes away
/// exactly the other values below the same one, on that stem and under that key. The category
/// offers the key afterwards, and nothing else changes.
pub proof fn lemma_added_tag_takes_away(
    db: DatabaseView,
    category: Category,
    stem: Seq<char>,
    key: Seq<char>,
    value: Seq<char>,
    parent: Seq<char>,
    child: Seq<char>,
    row: TagValueView,
)
    requires
        key_in_use(db, category, key) is Some,
        normal_value(value) is Some,
        !parent.contains('/'),
    ensures
        ({
            let used = key_in_use(db, category, key).unwrap();
            let normal = normal_value(value).unwrap();
            let after = after_add_tag(db, category, stem, key, value);
            let tag = TagValueView { category, stem, key: used, value: normal };
            &&& normal == parent ==> after.tag_values == db.tag_values.insert(tag)
            &&& normal == parent.push('/') + child && (parent.len() == 0 || child.len() == 0)
                ==> after.tag_values == db.tag_values.insert(tag)
            &&& normal == parent.push('/') + child && parent.len() > 0 && child.len() > 0 ==> (
            after.tag_values.contains(row) <==> row == tag || db.tag_values.contains(row) && !(
            row.category == category && row.stem == stem && row.key == used && begins_with(
                ascii_lower(row.value),
                ascii_lower(parent).push('/'),
            )))
            &&& after.tag_keys == db.tag_keys.insert(TagKeyView { category, key: used })
            &&& after.files == db.files
            &&& after.settings == db.settings
        }),
{
    let used = key_in_use(db, category, key).unwrap();
    let normal = normal_value(value).unwrap();
    let after = after_add_tag(db, category, stem, key, value);
    let tag = TagValueView { category, stem, key: used, value: normal };
    lemma_value_below(parent, child);
    lemma_like_descendant(parent, row.value);
    if parent_value(normal) is None {
        assert(after.tag_values =~= db.tag_values.insert(tag));
    }
}

/// A blank key or a blank value adds and removes nothing.
pub proof fn lemma_blank_tags_change_nothing(
    db: DatabaseView,
    category: Category,
    stem: Seq<char>,
    key: Seq<char>,
    value: Seq<char>,
    other: Seq<char>,
)
    requires
        trimmed(key).len() == 0 || trimmed(value).len() == 0,
    ensures
        after_add_tag(db, category, stem, key, value) == db,
        after_remove_tag(db, category, stem, key, value) == db,
        after_rename_value(db, category, key, other, value) == db,
        after_rename_value(db, category, key, value, other) == db,
        after_rename_stem_value(db, category, stem, key, other, value) == db,
        after_rename_stem_value(db, category, stem, key, value, other) == db,
{
}

/// Removing a tag touches neither keys, files nor settings.
pub proof fn lemma_removing_keeps_the_rest(
    db: DatabaseView,
    category: Category,
    stem: Seq<char>,
    key: Seq<char>,
    value: Seq<char>,
)
    ensures
        ({
            let after = after_remove_tag(db, category, stem, key, value);
            &&& after.tag_keys == db.tag_keys
            &&& after.files == db.files
            &&& after.settings == db.settings
        }),
{
}

/// Whether a stem is `stem`.
spec fn is_that_stem(stem: Seq<char>) -> spec_fn(Seq<char>) -> bool {
    |other: Seq<char>| other == stem
}

/// Renaming a value on one stem gives it the new value in the place of the old one, where it had
/// that, and touches no other stem, no other key and no other value but those beside a new value
/// that stands below another.
pub proof fn lemma_renamed_stem_value(
    db: DatabaseView,
    category: Category,
    stem: Seq<char>,
    key: Seq<char>,
    old_value: Seq<char>,
    new_value: Seq<char>,
    row: TagValueView,
)
    requires
        key_in_use(db, category, key) is Some,
        normal_value(old_value) is Some,
        normal_value(new_value) is Some,
        normal_value(old_value) != normal_value(new_value),
    ensures
        ({
            let used = key_in_use(db, category, key).unwrap();
            let from = normal_value(old_value).unwrap();
            let to = normal_value(new_value).unwrap();
            let after = after_rename_stem_value(db, category, stem, key, old_value, new_value);
            let old_tag = TagValueView { category, stem, key: used, value: from };
            let new_tag = TagValueView { category, stem, key: used, value: to };
            &&& !after.tag_values.contains(old_tag)
            &&& db.tag_values.contains(old_tag) ==> after.tag_values.contains(new_tag)
            &&& row.category != category || row.stem != stem || row.key != used ==> (
            after.tag_values.contains(row) <==> db.tag_values.contains(row))
            &&& !to.contains('/') && row != old_tag && row != new_tag ==> (after.tag_values.contains(
                row,
            ) <==> db.tag_values.contains(row))
            &&& !to.contains('/') && !db.tag_values.contains(old_tag) ==> after.tag_values
                == db.tag_values
            &&& after.tag_keys == db.tag_keys
            &&& after.files == db.files
            &&& after.settings == db.settings
        }),
{
    let used = key_in_use(db, category, key).unwrap();
    let from = normal_value(old_value).unwrap();
    let to = normal_value(new_value).unwrap();
    let picks = is_that_stem(stem);
    let after = after_rename_stem_value(db, category, stem, key, old_value, new_value);
    let old_tag = TagValueView { category, stem, key: used, value: from };
    let new_tag = TagValueView { category, stem, key: used, value: to };
    let kept = db.tag_values.filter(
        |row: TagValueView|
            !(picks(row.stem) && row.value != from && is_sibling(
                row,
                category,
                row.stem,
                used,
                to,
            )),
    );
    let has_old = |row: TagValueView|
        picks(row.stem) && row_has_key(row, category, used) && row.value == from;
    let renamed = |row: TagValueView| TagValueView { value: to, ..row };
    assert(after.tag_values == with_renamed_value(db.tag_values, category, used, from, to, picks));
    assert(after.tag_values == moved(kept, has_old, renamed));
    lemma_moved(kept, has_old, renamed, old_tag);
    lemma_moved(kept, has_old, renamed, new_tag);
    lemma_moved(kept, has_old, renamed, row);
    if db.tag_values.contains(old_tag) {
        assert(kept.contains(old_tag) && has_old(old_tag) && renamed(old_tag) == new_tag);
    }
    if !to.contains('/') {
        lemma_value_below(to, to);
        assert(kept =~= db.tag_values);
        if !db.tag_values.contains(old_tag) {
            assert forall|other: TagValueView|
                after.tag_values.contains(other) <==> db.tag_values.contains(other) by {
                lemma_moved(kept, has_old, renamed, other);
                if db.tag_values.contains(other) && has_old(other) {
                    assert(other == old_tag);
                }
            }
            assert(after.tag_values =~= db.tag_values);
        }
    }
}

/// Renaming a value in a category touches no other key, no stem that does not have the old value,
/// and no other value but those beside a new value that stands below another.
pub proof fn lemma_renamed_value_keeps_the_rest(
    db: DatabaseView,
    category: Category,
    key: Seq<char>,
    old_value: Seq<char>,
    new_value: Seq<char>,
    row: TagValueView,
)
    requires
        key_in_use(db, category, key) is Some,
        normal_value(old_value) is Some,
        normal_value(new_value) is Some,
        normal_value(old_value) != normal_value(new_value),
    ensures
        ({
            let used = key_in_use(db, category, key).unwrap();
            let from = normal_value(old_value).unwrap();
            let to = normal_value(new_value).unwrap();
            let after = after_rename_value(db, category, key, old_value, new_value);
            &&& row.category != category || row.key != used || !db.tag_values.contains(
                TagValueView { value: from, ..row },
            ) ==> (after.tag_values.contains(row) <==> db.tag_values.contains(row))
            &&& !to.contains('/') && row.value != from && row.value != to ==> (
            after.tag_values.contains(row) <==> db.tag_values.contains(row))
            &&& after.tag_keys == db.tag_keys
            &&& after.files == db.files
            &&& after.settings == db.settings
        }),
{
    let used = key_in_use(db, category, key).unwrap();
    let from = normal_value(old_value).unwrap();
    let to = normal_value(new_value).unwrap();
    let stems = stems_with(db, category, used, from);
    let picks = |stem: Seq<char>| stems.contains(stem);
    let after = after_rename_value(db, category, key, old_value, new_value);
    let kept = db.tag_values.filter(
        |row: TagValueView|
            !(picks(row.stem) && row.value != from && is_sibling(
                row,
                category,
                row.stem,
                used,
                to,
            )),
    );
    let has_old = |row: TagValueView|
        picks(row.stem) && row_has_key(row, category, used) && row.value == from;
    let renamed = |row: TagValueView| TagValueView { value: to, ..row };
    assert(after.tag_values == moved(kept, has_old, renamed));
    lemma_moved(kept, has_old, renamed, row);
    if row.category == category && row.key == used && picks(row.stem) {
        assert(TagValueView { value: from, ..row } == TagValueView {
            category,
            stem: row.stem,
            key: used,
            value: from,
        });
    }
    if !to.contains('/') {
        lemma_value_below(to, to);
        assert(kept =~= db.tag_values);
    }
}

/// Removing and renaming a key touches no other key, and neither files nor settings.
pub proof fn lemma_key_edits_keep_the_rest(
    db: DatabaseView,
    category: Category,
    old_key: Seq<char>,
    new_key: Seq<char>,
    other: TagKeyView,
)
    requires
        other != (TagKeyView { category, key: old_key }),
        other != (TagKeyView { category, key: new_key }),
    ensures
        without_key(db, category, old_key).tag_keys.contains(other) <==> db.tag_keys.contains(other),
        without_key(db, category, old_key).files == db.files,
        without_key(db, category, old_key).settings == db.settings,
        with_renamed_key(db, category, old_key, new_key).tag_keys.contains(other)
            <==> db.tag_keys.contains(other),
        with_renamed_key(db, category, old_key, new_key).files == db.files,
        with_renamed_key(db, category, old_key, new_key).settings == db.settings,
        with_key(db, category, new_key).tag_keys.contains(other) <==> db.tag_keys.contains(other),
        with_key(db, category, new_key).tag_keys.contains(TagKeyView { category, key: new_key }),
        with_key(db, category, new_key).tag_values == db.tag_values,
        with_key(db, category, new_key).files == db.files,
        with_key(db, category, new_key).settings == db.settings,
        with_renamed_stem(db, category, old_key, new_key).tag_keys == db.tag_keys,
        with_renamed_stem(db, category, old_key, new_key).files == db.files,
        with_renamed_stem(db, category, old_key, new_key).settings == db.settings,
{
}

} // verus!
