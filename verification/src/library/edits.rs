//! Edits of tags, names and preferences.
use super::display::{copy_record, display_key, display_tag_key, occurs, value_occurs};
use super::filters::{RenamedKey, RenamedTag};
use super::{Library, LibraryEvent, LibraryView};
use crate::backend::scanner::stem_or_empty;
use crate::backend::{after_refresh, after_rename_key, folder_of, is_same_path, same_path};
use crate::backend::{with_db, with_renamed_stems, FolderScan, RenameRecord};
use crate::config::SettingsView;
use crate::db::folders::{all_folder_values, with_folder_tags};
use crate::db::settings::{lemma_priority_round_trip, stored_priority, with_priority};
use crate::db::settings::{with_setting, CONVERT_CONFLICT_KEY};
use crate::db::tags::{after_add_tag, after_remove_tag, after_rename_stem_value};
use crate::db::tags::{after_rename_value, key_in_use, with_key, without_key};
use crate::model::{AudioFormat, Category, CategoryState, ConvertConflictBehavior, FileRecord};
use crate::model::{normalized_priority, FolderTagAssignment, RecordView, StateView};
use crate::order::{is_sorted_by, lemma_filter_contains, lemma_sorted_by, sort_with_keys};
use crate::order::{sorted_by, text_list, KeyView, SortKey};
use crate::text::{copy_texts, holds_text, lowercase, same_text};
use crate::text_map::TextMap;
use vstd::prelude::*;

verus! {

broadcast use vstd::string::group_string_axioms;

/// The key by which tag values are listed.
pub open spec fn lower_key(value: Seq<char>) -> KeyView {
    KeyView { rank: 0, parts: seq![lowercase(value)] }
}

/// `values` and `value`, in the order in which tag values are listed.
pub open spec fn with_listed(values: Seq<Seq<char>>, value: Seq<char>) -> Seq<Seq<char>> {
    if values.contains(value) {
        values
    } else {
        sorted_by(values.push(value), |v: Seq<char>| lower_key(v))
    }
}

/// The values under `key`, none where there is no such key.
pub open spec fn listed_under(
    tags: Map<Seq<char>, Seq<Seq<char>>>,
    key: Seq<char>,
) -> Seq<Seq<char>> {
    if tags.contains_key(key) {
        tags[key]
    } else {
        Seq::empty()
    }
}

/// `tags` and `value` under `key`.
pub open spec fn tags_with(
    tags: Map<Seq<char>, Seq<Seq<char>>>,
    key: Seq<char>,
    value: Seq<char>,
) -> Map<Seq<char>, Seq<Seq<char>>> {
    tags.insert(key, with_listed(listed_under(tags, key), value))
}

/// `values` without `value`.
pub open spec fn without_listed(values: Seq<Seq<char>>, value: Seq<char>) -> Seq<Seq<char>> {
    values.filter(|v: Seq<char>| v != value)
}

/// `tags` without `value` under `key`, and without the key once no value is under it.
pub open spec fn tags_without(
    tags: Map<Seq<char>, Seq<Seq<char>>>,
    key: Seq<char>,
    value: Seq<char>,
) -> Map<Seq<char>, Seq<Seq<char>>> {
    if !tags.contains_key(key) {
        tags
    } else if without_listed(tags[key], value).len() == 0 {
        tags.remove(key)
    } else {
        tags.insert(key, without_listed(tags[key], value))
    }
}

/// The first record for the file at `path` with `value` under `key` added or taken out.
pub open spec fn with_first_edited(
    records: Seq<RecordView>,
    path: Seq<char>,
    key: Seq<char>,
    value: Seq<char>,
    added: bool,
) -> Seq<RecordView>
    decreases records.len(),
{
    if records.len() == 0 {
        records
    } else if is_same_path(records[0].path, path) {
        seq![
            RecordView {
                tags: if added {
                    tags_with(records[0].tags, key, value)
                } else {
                    tags_without(records[0].tags, key, value)
                },
                ..records[0]
            },
        ] + records.drop_first()
    } else {
        seq![records[0]] + with_first_edited(records.drop_first(), path, key, value, added)
    }
}

/// What a category shows at once when a tag is added to the file at `path`.
pub open spec fn with_tag_added(
    state: StateView,
    path: Seq<char>,
    raw: Seq<char>,
    value: Seq<char>,
) -> StateView {
    match display_key(raw) {
        Some(key) => StateView {
            results: with_first_edited(state.results, path, key, value, true),
            schema: tags_with(state.schema, key, value),
            ..state
        },
        None => state,
    }
}

/// What a category shows at once when a tag is taken off the file at `path`.
pub open spec fn with_tag_removed(
    state: StateView,
    path: Seq<char>,
    raw: Seq<char>,
    value: Seq<char>,
) -> StateView {
    match display_key(raw) {
        Some(key) => {
            let results = with_first_edited(state.results, path, key, value, false);
            StateView {
                results,
                schema: if !occurs(results, key, value) && state.schema.contains_key(key) {
                    state.schema.insert(key, without_listed(state.schema[key], value))
                } else {
                    state.schema
                },
                ..state
            }
        },
        None => state,
    }
}

/// `values` and `value`, in the order in which tag values are listed.
fn list_value(values: &Vec<String>, value: &str) -> (r: Vec<String>)
    ensures
        r.deep_view() == with_listed(values.deep_view(), value@),
{
    let mut all = copy_texts(values);
    if holds_text(&all, value) {
        return all;
    }
    let ghost before = all.deep_view();
    all.push(value.to_owned());
    assert(all.deep_view() =~= before.push(value@));
    let ghost key = |v: Seq<char>| lower_key(v);
    let mut keys: Vec<SortKey> = Vec::new();
    let mut i: usize = 0;
    while i < all.len()
        invariant
            i <= all@.len(),
            keys@.len() == i,
            key == (|v: Seq<char>| lower_key(v)),
            forall|j: int| #![trigger all.deep_view()[j]]
                0 <= j < i ==> keys@[j]@ == key(all.deep_view()[j]),
        decreases all.len() - i,
    {
        let mut parts: Vec<String> = Vec::new();
        parts.push(all[i].to_lowercase());
        assert(parts.deep_view() =~= seq![lowercase(all.deep_view()[i as int])]);
        keys.push(SortKey { rank: 0, parts });
        i += 1;
    }
    sort_with_keys(all, keys, Ghost(key))
}

/// `values` without `value`.
fn unlist_value(values: &Vec<String>, value: &str) -> (r: Vec<String>)
    ensures
        r.deep_view() == without_listed(values.deep_view(), value@),
{
    let ghost all = values.deep_view();
    let ghost p = |v: Seq<char>| v != value@;
    let mut out: Vec<String> = Vec::new();
    let mut i: usize = 0;
    proof {
        reveal(Seq::filter);
        assert(all.take(0) =~= seq![]);
        assert(out.deep_view() =~= all.take(0).filter(p));
    }
    while i < values.len()
        invariant
            i <= values@.len(),
            all == values.deep_view(),
            p == (|v: Seq<char>| v != value@),
            out.deep_view() == all.take(i as int).filter(p),
        decreases values.len() - i,
    {
        let ghost before = out.deep_view();
        proof {
            reveal(Seq::filter);
            assert(all.take(i + 1).drop_last() =~= all.take(i as int));
            assert(all.take(i + 1).last() == all[i as int]);
            assert(all[i as int] == values@[i as int]@);
        }
        if !same_text(values[i].as_str(), value) {
            out.push(values[i].clone());
            assert(out.deep_view() =~= before.push(all[i as int]));
        }
        i += 1;
    }
    assert(all.take(i as int) =~= all);
    out
}

/// Puts `value` under `key`.
fn add_to_tags(tags: &mut TextMap<Vec<String>>, key: &str, value: &str)
    ensures
        final(tags)@ == tags_with(old(tags)@, key@, value@),
{
    let none: Vec<String> = Vec::new();
    assert(none.deep_view() =~= Seq::<Seq<char>>::empty());
    let values = match tags.get(key) {
        Some(values) => list_value(values, value),
        None => list_value(&none, value),
    };
    tags.insert(key.to_owned(), values);
}

/// Takes `value` under `key` out.
fn remove_from_tags(tags: &mut TextMap<Vec<String>>, key: &str, value: &str)
    ensures
        final(tags)@ == tags_without(old(tags)@, key@, value@),
{
    let left: Vec<String> = match tags.get(key) {
        Some(values) => unlist_value(values, value),
        None => {
            return ;
        },
    };
    assert(left@.len() == left.deep_view().len());
    if left.len() == 0 {
        tags.remove(key);
    } else {
        tags.insert(key.to_owned(), left);
    }
}

/// Edits the tags of the first of `records` for the file at `path`.
fn edit_first(records: &mut Vec<FileRecord>, path: &str, key: &str, value: &str, added: bool)
    ensures
        final(records).deep_view() == with_first_edited(
            old(records).deep_view(),
            path@,
            key@,
            value@,
            added,
        ),
{
    let ghost all = records.deep_view();
    let mut i: usize = 0;
    assert(all.take(0) + with_first_edited(all.skip(0), path@, key@, value@, added)
        =~= with_first_edited(all, path@, key@, value@, added)) by {
        assert(all.skip(0) =~= all);
    }
    while i < records.len()
        invariant
            i <= records@.len(),
            *records == *old(records),
            all == records.deep_view(),
            with_first_edited(all, path@, key@, value@, added) == all.take(i as int)
                + with_first_edited(all.skip(i as int), path@, key@, value@, added),
        decreases records.len() - i,
    {
        let ghost rest = all.skip(i as int);
        proof {
            assert(all[i as int] == records@[i as int].deep_view());
            assert(rest[0] == all[i as int]);
            assert(rest.drop_first() =~= all.skip(i + 1));
        }
        if same_path(records[i].path.as_str(), path) {
            let mut record = copy_record(&records[i]);
            if added {
                add_to_tags(&mut record.tags, key, value);
            } else {
                remove_from_tags(&mut record.tags, key, value);
            }
            let ghost edited = record.deep_view();
            records[i] = record;
            proof {
                assert(records.deep_view() =~= all.update(i as int, edited));
                assert(records.deep_view() =~= all.take(i as int) + (seq![edited]
                    + rest.drop_first()));
            }
            return ;
        }
        assert(all.take(i as int) + (seq![all[i as int]] + with_first_edited(
            all.skip(i + 1),
            path@,
            key@,
            value@,
            added,
        )) =~= all.take(i + 1) + with_first_edited(all.skip(i + 1), path@, key@, value@, added));
        i += 1;
    }
    assert(all.skip(i as int) =~= Seq::<RecordView>::empty());
    assert(all.take(i as int) + with_first_edited(all.skip(i as int), path@, key@, value@, added)
        =~= all);
}

/// Shows at once that a tag was added to the file at `path`.
pub fn apply_tag_add(state: &mut CategoryState, path: &str, key: &str, value: &str)
    ensures
        final(state).deep_view() == with_tag_added(old(state).deep_view(), path@, key@, value@),
{
    match display_tag_key(key) {
        Some(key) => {
            edit_first(&mut state.results, path, key.as_str(), value, true);
            add_to_tags(&mut state.schema, key.as_str(), value);
        },
        None => {},
    }
}

/// Shows at once that a tag was taken off the file at `path`.
pub fn apply_tag_remove(state: &mut CategoryState, path: &str, key: &str, value: &str)
    ensures
        final(state).deep_view() == with_tag_removed(old(state).deep_view(), path@, key@, value@),
{
    match display_tag_key(key) {
        Some(key) => {
            edit_first(&mut state.results, path, key.as_str(), value, false);
            if !value_occurs(&state.results, key.as_str(), value) {
                let left: Option<Vec<String>> = match state.schema.get(key.as_str()) {
                    Some(values) => Some(unlist_value(values, value)),
                    None => None,
                };
                match left {
                    Some(values) => {
                        state.schema.insert(key, values);
                    },
                    None => {},
                }
            }
        },
        None => {},
    }
}

/// The position of a format in an order of preference; its length where it is not in it.
pub open spec fn place_of(priority: Seq<AudioFormat>, format: AudioFormat) -> int
    decreases priority.len(),
{
    if priority.len() == 0 || priority[0] == format {
        0
    } else {
        1 + place_of(priority.drop_first(), format)
    }
}

/// `priority` with the format at `from` at `to`, or at the end if that comes before.
pub open spec fn moved(priority: Seq<AudioFormat>, from: int, to: int) -> Seq<AudioFormat> {
    let place = if to >= priority.len() {
        priority.len() - 1
    } else {
        to
    };
    priority.remove(from).insert(place, priority[from])
}

/// Moving a format keeps every format as often as it was.
pub proof fn lemma_move_keeps_formats(priority: Seq<AudioFormat>, from: int, to: int)
    requires
        0 <= from < priority.len(),
        0 <= to,
    ensures
        moved(priority, from, to).to_multiset() == priority.to_multiset(),
        moved(priority, from, to).len() == priority.len(),
{
    broadcast use vstd::seq_lib::group_to_multiset_ensures;

    let rest = priority.remove(from);
    let place = if to >= priority.len() {
        priority.len() - 1
    } else {
        to
    };
    assert(rest.insert(place, priority[from]).to_multiset() =~= rest.to_multiset().insert(
        priority[from],
    ));
    assert(rest.to_multiset() =~= priority.to_multiset().remove(priority[from]));
    assert(priority.to_multiset().contains(priority[from]));
    assert(moved(priority, from, to).to_multiset() =~= priority.to_multiset());
}

/// The position of a format in an order of preference.
fn find_format(priority: &Vec<AudioFormat>, format: AudioFormat) -> (r: Option<usize>)
    ensures
        r is Some <==> place_of(priority@, format) < priority@.len(),
        r matches Some(i) ==> i == place_of(priority@, format),
{
    let mut i: usize = 0;
    assert(priority@.skip(0) =~= priority@);
    while i < priority.len()
        invariant
            i <= priority@.len(),
            place_of(priority@, format) == i + place_of(priority@.skip(i as int), format),
        decreases priority.len() - i,
    {
        assert(priority@.skip(i as int)[0] == priority@[i as int]);
        if priority[i] == format {
            return Some(i);
        }
        assert(priority@.skip(i as int).drop_first() =~= priority@.skip(i + 1));
        i += 1;
    }
    None
}

impl LibraryView {
    /// The library with another order of preference among formats.
    pub open spec fn with_priority(self, priority: Seq<AudioFormat>) -> LibraryView {
        (LibraryView {
            format_priority: priority,
            backend: with_db(self.backend, with_priority(self.backend.db, priority)),
            ..self
        }).fresh(self.active)
    }

    /// The library with a format moved to another place in the order of preference.
    pub open spec fn with_format_moved(self, format: AudioFormat, to: int) -> LibraryView {
        let from = place_of(self.format_priority, format);
        let last = self.format_priority.len() - 1;
        if from > last || from == to || (from == last && to >= last) {
            self
        } else {
            self.with_priority(moved(self.format_priority, from, to))
        }
    }

    /// The library with another database, shown in the active category.
    pub open spec fn edited(self, db: crate::db::DatabaseView) -> LibraryView {
        self.with_backend(with_db(self.backend, db)).fresh(self.active)
    }
}

impl Library {
    /// Puts `value` under `key` on the sound with the file at `path` in the active category.
    pub fn add_tag(&mut self, path: String, key: &str, value: &str) -> (r: LibraryEvent)
        ensures
            r matches LibraryEvent::TagEdited { path: edited } && edited@ == path@,
            final(self)@ == old(self)@.edited(
                after_add_tag(
                    old(self)@.backend.db,
                    old(self)@.active,
                    stem_or_empty(path@),
                    key@,
                    value@,
                ),
            ),
    {
        reveal(LibraryView::refreshed);
        self.backend.add_tag(self.active, path.as_str(), key, value);
        match self.active {
            Category::Music => apply_tag_add(&mut self.music, path.as_str(), key, value),
            Category::Sfx => apply_tag_add(&mut self.sfx, path.as_str(), key, value),
        }
        self.refresh_category_state(self.active);
        LibraryEvent::TagEdited { path }
    }

    /// Takes `value` under `key` off the sound with the file at `path` in the active category.
    pub fn remove_tag(&mut self, path: String, key: &str, value: &str) -> (r: LibraryEvent)
        ensures
            r matches LibraryEvent::TagEdited { path: edited } && edited@ == path@,
            final(self)@ == old(self)@.edited(
                after_remove_tag(
                    old(self)@.backend.db,
                    old(self)@.active,
                    stem_or_empty(path@),
                    key@,
                    value@,
                ),
            ),
    {
        reveal(LibraryView::refreshed);
        self.backend.remove_tag(self.active, path.as_str(), key, value);
        match self.active {
            Category::Music => apply_tag_remove(&mut self.music, path.as_str(), key, value),
            Category::Sfx => apply_tag_remove(&mut self.sfx, path.as_str(), key, value),
        }
        self.refresh_category_state(self.active);
        LibraryEvent::TagEdited { path }
    }

    /// Replaces a value under `key` on the sound with the file at `path` in the active category.
    pub fn rename_tag(&mut self, path: String, key: &str, old_value: &str, new_value: &str) -> (r:
        LibraryEvent)
        ensures
            r matches LibraryEvent::TagEdited { path: edited } && edited@ == path@,
            final(self)@ == old(self)@.with_backend(
                with_db(
                    old(self)@.backend,
                    after_rename_stem_value(
                        old(self)@.backend.db,
                        old(self)@.active,
                        stem_or_empty(path@),
                        key@,
                        old_value@,
                        new_value@,
                    ),
                ),
            ).refreshed(old(self)@.active, Some((key@, old_value@, new_value@)), None),
    {
        self.backend.rename_tag(self.active, path.as_str(), key, old_value, new_value);
        self.refresh_category_state_with_tag_rename(
            self.active,
            Some(RenamedTag { key, old_value, new_value }),
            None,
        );
        LibraryEvent::TagEdited { path }
    }

    /// Replaces a value under `key` on every sound of the active category, and takes in what a scan
    /// found.
    pub fn rename_tag_value(
        &mut self,
        key: &str,
        old_value: &str,
        new_value: &str,
        scan: FolderScan,
    )
        requires
            scan.fits(),
        ensures
            final(self)@ == old(self)@.with_backend(
                after_refresh(
                    with_db(
                        old(self)@.backend,
                        after_rename_value(
                            old(self)@.backend.db,
                            old(self)@.active,
                            key@,
                            old_value@,
                            new_value@,
                        ),
                    ),
                    old(self)@.active,
                    scan.deep_view(),
                ),
            ).refreshed(old(self)@.active, Some((key@, old_value@, new_value@)), None),
    {
        self.backend.rename_tag_value(self.active, key, old_value, new_value, scan);
        self.refresh_category_state_with_tag_rename(
            self.active,
            Some(RenamedTag { key, old_value, new_value }),
            None,
        );
    }

    /// Makes the active category offer a key; tells whether it can be one.
    pub fn add_tag_key(&mut self, key: &str) -> (r: bool)
        ensures
            r == key_in_use(old(self)@.backend.db, old(self)@.active, key@) is Some,
            final(self)@ == match key_in_use(old(self)@.backend.db, old(self)@.active, key@) {
                Some(stored) => old(self)@.edited(
                    with_key(old(self)@.backend.db, old(self)@.active, stored),
                ),
                None => old(self)@,
            },
    {
        match self.backend.add_tag_key(self.active, key) {
            Some(_) => {
                self.refresh_category_state(self.active);
                true
            },
            None => false,
        }
    }

    /// Takes a key and its values from the active category; tells whether it offered the key.
    pub fn remove_tag_key(&mut self, key: &str) -> (r: bool)
        ensures
            final(self)@ == old(self)@.edited(
                match key_in_use(old(self)@.backend.db, old(self)@.active, key@) {
                    Some(stored) => without_key(old(self)@.backend.db, old(self)@.active, stored),
                    None => old(self)@.backend.db,
                },
            ),
            r == (key_in_use(old(self)@.backend.db, old(self)@.active, key@) matches Some(stored)
                && old(self)@.backend.db.tag_keys.contains(
                crate::db::TagKeyView { category: old(self)@.active, key: stored },
            )),
    {
        let removed = self.backend.remove_tag_key(self.active, key);
        self.refresh_category_state(self.active);
        removed
    }

    /// Puts the values of one key of the active category under another one, and takes in what a
    /// scan found.
    pub fn rename_tag_key(&mut self, old_key: &str, new_key: &str, scan: FolderScan)
        requires
            scan.fits(),
        ensures
            final(self)@ == old(self)@.with_backend(
                after_refresh(
                    with_db(
                        old(self)@.backend,
                        after_rename_key(
                            old(self)@.backend.db,
                            old(self)@.active,
                            old_key@,
                            new_key@,
                        ),
                    ),
                    old(self)@.active,
                    scan.deep_view(),
                ),
            ).refreshed(old(self)@.active, None, Some((old_key@, new_key@))),
    {
        self.backend.rename_tag_key(self.active, old_key, new_key, scan);
        self.refresh_category_state_with_tag_rename(
            self.active,
            None,
            Some(RenamedKey { old_key, new_key }),
        );
    }

    /// Puts the tags of `records`, whose files were renamed, on `new_stem`, and takes in what a
    /// scan found.
    pub fn rename_records(
        &mut self,
        records: &Vec<RenameRecord>,
        new_stem: &str,
        scan: FolderScan,
    )
        requires
            scan.fits(),
        ensures
            final(self)@ == old(self)@.with_backend(
                after_refresh(
                    with_db(
                        old(self)@.backend,
                        with_renamed_stems(
                            old(self)@.backend.db,
                            old(self)@.active,
                            records.deep_view(),
                            new_stem@,
                        ),
                    ),
                    old(self)@.active,
                    scan.deep_view(),
                ),
            ).fresh(old(self)@.active),
    {
        self.backend.rename_records(self.active, records, new_stem, scan);
        self.refresh_category_state(self.active);
    }

    /// The folder names above the files of the active category, after a scan.
    pub fn prepare_folder_tag_values(&mut self, scan: FolderScan) -> (r: Vec<String>)
        requires
            scan.fits(),
        ensures
            final(self)@ == old(self)@.with_backend(
                after_refresh(old(self)@.backend, old(self)@.active, scan.deep_view()),
            ).fresh(old(self)@.active),
            r.deep_view() == match folder_of(old(self)@.backend, old(self)@.active) {
                Some(folder) => if scan.folder_is_dir {
                    text_list(
                        all_folder_values(final(self)@.backend.db, old(self)@.active, folder),
                    )
                } else {
                    Seq::<Seq<char>>::empty()
                },
                None => Seq::<Seq<char>>::empty(),
            },
    {
        reveal(LibraryView::refreshed);
        let folder_is_dir = scan.folder_is_dir;
        self.backend.refresh_category(self.active, scan);
        self.refresh_category_state(self.active);
        self.backend.folder_tag_values(self.active, folder_is_dir)
    }

    /// Gives the folder names above the files of `category` to the assigned keys; returns how many
    /// tags are new.
    pub fn assign_folder_tags(
        &mut self,
        category: Category,
        folder_is_dir: bool,
        assignments: &Vec<FolderTagAssignment>,
    ) -> (r: usize)
        ensures
            final(self)@ == old(self)@.with_backend(
                with_db(
                    old(self)@.backend,
                    match folder_of(old(self)@.backend, category) {
                        Some(folder) => if folder_is_dir {
                            with_folder_tags(
                                old(self)@.backend.db,
                                category,
                                folder,
                                assignments.deep_view(),
                            )
                        } else {
                            old(self)@.backend.db
                        },
                        None => old(self)@.backend.db,
                    },
                ),
            ).fresh(category),
            r == final(self)@.backend.db.tag_values.difference(
                old(self)@.backend.db.tag_values,
            ).len(),
    {
        reveal(LibraryView::refreshed);
        let inserted = self.backend.assign_folder_tags(category, folder_is_dir, assignments);
        self.refresh_category_state(category);
        inserted
    }

    /// Takes an order of preference among formats over.
    fn keep_format_priority(&mut self, priority: Vec<AudioFormat>)
        ensures
            final(self)@ == old(self)@.with_priority(priority@),
    {
        self.format_priority = copy_formats(&priority);
        self.backend.set_format_priority(priority);
        self.refresh_category_state(self.active);
    }

    /// Moves a format to a place in the order of preference.
    fn move_format_priority_to_index(&mut self, format: AudioFormat, new_index: usize)
        ensures
            final(self)@ == old(self)@.with_format_moved(format, new_index as int),
    {
        let index: usize = match find_format(&self.format_priority, format) {
            Some(index) => index,
            None => {
                return ;
            },
        };
        let last: usize = self.format_priority.len() - 1;
        let place: usize = if new_index > last {
            last
        } else {
            new_index
        };
        if index == place {
            return ;
        }
        let ghost before = self@;
        let mut priority = copy_formats(&self.format_priority);
        let taken = priority.remove(index);
        priority.insert(place, taken);
        assert(priority@ =~= moved(before.format_priority, index as int, new_index as int));
        self.keep_format_priority(priority);
    }

    /// Moves a format one place up in the order of preference.
    pub fn move_format_priority_up(&mut self, format: AudioFormat)
        ensures
            final(self)@ == old(self)@.with_format_moved(
                format,
                if place_of(old(self)@.format_priority, format) > 0 {
                    place_of(old(self)@.format_priority, format) - 1
                } else {
                    0
                },
            ),
    {
        match find_format(&self.format_priority, format) {
            Some(index) => {
                let up: usize = if index > 0 {
                    index - 1
                } else {
                    0
                };
                self.move_format_priority_to_index(format, up);
            },
            None => {},
        }
    }

    /// Moves a format one place down in the order of preference.
    pub fn move_format_priority_down(&mut self, format: AudioFormat)
        ensures
            final(self)@ == old(self)@.with_format_moved(
                format,
                place_of(old(self)@.format_priority, format) + 1,
            ),
    {
        match find_format(&self.format_priority, format) {
            Some(index) => {
                assert(index < self.format_priority.len());
                self.move_format_priority_to_index(format, index + 1);
            },
            None => {},
        }
    }

    /// Sets what a conversion does on a conflict.
    pub fn set_convert_conflict_behavior(&mut self, behavior: ConvertConflictBehavior)
        ensures
            final(self)@ == if old(self)@.convert_conflict_behavior == behavior {
                old(self)@
            } else {
                LibraryView {
                    convert_conflict_behavior: behavior,
                    backend: with_db(
                        old(self)@.backend,
                        with_setting(
                            old(self)@.backend.db,
                            CONVERT_CONFLICT_KEY@,
                            behavior.key_text(),
                        ),
                    ),
                    ..old(self)@
                }
            },
    {
        if self.convert_conflict_behavior == behavior {
            return ;
        }
        self.backend.set_convert_conflict_behavior(behavior);
        self.convert_conflict_behavior = behavior;
    }

    /// Sets the format in which downloads are kept.
    pub fn set_download_format(&mut self, format: AudioFormat)
        ensures
            final(self)@ == if old(self)@.settings.format() == format {
                old(self)@
            } else {
                old(self)@.with_settings(
                    SettingsView {
                        download_format: Some(format.extension_text()),
                        ..old(self)@.settings
                    },
                )
            },
    {
        if self.settings.download_format() == format {
            return ;
        }
        if self.settings_writable {
            self.settings.set_download_format(format);
        }
    }
}

/// A copy of `formats`.
fn copy_formats(formats: &Vec<AudioFormat>) -> (r: Vec<AudioFormat>)
    ensures
        r@ == formats@,
{
    let mut r: Vec<AudioFormat> = Vec::new();
    let mut i: usize = 0;
    while i < formats.len()
        invariant
            i <= formats@.len(),
            r@ == formats@.take(i as int),
        decreases formats.len() - i,
    {
        r.push(formats[i]);
        assert(r@ =~= formats@.take(i + 1));
        i += 1;
    }
    assert(r@ =~= formats@);
    r
}

/// A value that is put under a key is there, beside all that were there, and in order of letters if
/// it is new; one that is taken out is not, and the others stay as they were. A key without values is
/// none. Other keys are not touched.
pub proof fn lemma_listed_tags(
    tags: Map<Seq<char>, Seq<Seq<char>>>,
    key: Seq<char>,
    value: Seq<char>,
    other: Seq<char>,
    v: Seq<char>,
)
    ensures
        ({
            let more = tags_with(tags, key, value);
            let less = tags_without(tags, key, value);
            &&& more.contains_key(key) && (more[key].contains(v) <==> v == value || (
            tags.contains_key(key) && tags[key].contains(v)))
            &&& tags.contains_key(key) && tags[key].contains(value) ==> more[key] == tags[key]
            &&& !(tags.contains_key(key) && tags[key].contains(value)) ==> is_sorted_by(
                more[key],
                |v: Seq<char>| lower_key(v),
            )
            &&& less.contains_key(key) && less[key].contains(v) <==> v != value
                && tags.contains_key(key) && tags[key].contains(v)
            &&& less.contains_key(key) ==> less[key].len() > 0 && less[key] == tags[key].filter(
                is_other(value),
            )
            &&& other != key ==> (more.contains_key(other) <==> tags.contains_key(other))
                && more[other] == tags[other]
            &&& other != key ==> (less.contains_key(other) <==> tags.contains_key(other)) && (
            tags.contains_key(other) ==> less[other] == tags[other])
        }),
{
    let values = listed_under(tags, key);
    let more = values.push(value);
    lemma_sorted_by(more, |v: Seq<char>| lower_key(v));
    if v == value {
        assert(more[values.len() as int] == v);
    }
    if values.contains(v) {
        let i = choose|i: int| 0 <= i < values.len() && values[i] == v;
        assert(more[i] == v);
    }
    if more.contains(v) && v != value {
        let i = choose|i: int| 0 <= i < more.len() && more[i] == v;
        assert(values[i] == v);
    }
    if tags.contains_key(key) {
        lemma_filter_contains(tags[key], is_other(value), v);
        assert(without_listed(tags[key], value) == tags[key].filter(is_other(value)));
    }
}

/// Whether a value is not `value`.
pub open spec fn is_other(value: Seq<char>) -> spec_fn(Seq<char>) -> bool {
    |v: Seq<char>| v != value
}

/// An edit of the tags of a file is shown on the first sound with that file, and on no other; the
/// sound keeps everything else.
pub proof fn lemma_first_sound_is_edited(
    records: Seq<RecordView>,
    path: Seq<char>,
    key: Seq<char>,
    value: Seq<char>,
    added: bool,
    i: int,
    j: int,
)
    requires
        0 <= i <= records.len(),
        forall|k: int| 0 <= k < i ==> !is_same_path((#[trigger] records[k]).path, path),
        i < records.len() ==> is_same_path(records[i].path, path),
    ensures
        ({
            let after = with_first_edited(records, path, key, value, added);
            &&& after.len() == records.len()
            &&& 0 <= j < records.len() && j != i ==> after[j] == records[j]
            &&& i < records.len() ==> after[i] == (RecordView {
                tags: if added {
                    tags_with(records[i].tags, key, value)
                } else {
                    tags_without(records[i].tags, key, value)
                },
                ..records[i]
            })
        }),
    decreases records.len(),
{
    if records.len() > 0 {
        let rest = records.drop_first();
        if i > 0 {
            assert(!is_same_path(records[0].path, path));
            assert forall|k: int| 0 <= k < i - 1 implies !is_same_path(
                (#[trigger] rest[k]).path,
                path,
            ) by {
                assert(rest[k] == records[k + 1]);
            }
            if i < records.len() {
                assert(rest[i - 1] == records[i]);
            }
            lemma_first_sound_is_edited(rest, path, key, value, added, i - 1, j - 1);
            if 0 < j < records.len() {
                assert(rest[j - 1] == records[j]);
            }
        } else if 0 < j < records.len() {
            assert(rest[j - 1] == records[j]);
        }
    }
}

/// A tag that is added is offered at once, and one that is taken off stays offered as long as a sound
/// that is shown has it; search, filters and the other tags stay.
pub proof fn lemma_edit_is_offered(
    state: StateView,
    path: Seq<char>,
    raw: Seq<char>,
    value: Seq<char>,
    other: Seq<char>,
    v: Seq<char>,
)
    requires
        display_key(raw) is Some,
    ensures
        ({
            let key = display_key(raw).unwrap();
            let more = with_tag_added(state, path, raw, value);
            let less = with_tag_removed(state, path, raw, value);
            &&& more.schema.contains_key(key) && more.schema[key].contains(value)
            &&& less.schema.contains_key(key) <==> state.schema.contains_key(key)
            &&& state.schema.contains_key(key) ==> (less.schema[key].contains(v)
                <==> state.schema[key].contains(v) && (v != value || exists|i: int|
                0 <= i < less.results.len() && (#[trigger] less.results[i]).tags.contains_key(key)
                    && less.results[i].tags[key].contains(value)))
            &&& other != key ==> (more.schema.contains_key(other) <==> state.schema.contains_key(
                other,
            )) && more.schema[other] == state.schema[other] && (less.schema.contains_key(other)
                <==> state.schema.contains_key(other)) && less.schema[other] == state.schema[other]
            &&& more.search == state.search && more.selected == state.selected && more.all_records
                == state.all_records
            &&& less.search == state.search && less.selected == state.selected && less.all_records
                == state.all_records
        }),
{
    let key = display_key(raw).unwrap();
    lemma_listed_tags(state.schema, key, value, other, value);
    if state.schema.contains_key(key) {
        lemma_filter_contains(state.schema[key], is_other(value), v);
        assert(without_listed(state.schema[key], value) == state.schema[key].filter(
            is_other(value),
        ));
    }
}

/// A format that is moved stands where it was moved to, or at the end if that comes before; the
/// others keep their order.
pub proof fn lemma_moved_format(library: LibraryView, format: AudioFormat, to: int)
    requires
        0 <= to,
        library.format_priority.contains(format),
        library.format_priority.no_duplicates(),
    ensures
        ({
            let before = library.format_priority;
            let after = library.with_format_moved(format, to).format_priority;
            let place = if to < before.len() {
                to
            } else {
                before.len() - 1
            };
            &&& after.len() == before.len()
            &&& after[place] == format
            &&& after.remove(place) == before.remove(before.index_of(format))
        }),
{
    let before = library.format_priority;
    let from = place_of(before, format);
    lemma_place_of(before, format);
    assert(before.contains(before[from]));
    assert(before.index_of(format) == from) by {
        let i = before.index_of(format);
        assert(0 <= i < before.len() && before[i] == format);
        if i != from {
            assert(before[i] != before[from]);
        }
    }
    let after = library.with_format_moved(format, to).format_priority;
    reveal(LibraryView::refreshed);
    let place = if to < before.len() {
        to
    } else {
        before.len() - 1
    };
    if after != before {
        assert(after == moved(before, from, to));
        assert(after.remove(place) =~= before.remove(from));
    } else {
        let last = before.len() - 1;
        if from == to || (from == last && to >= last) {
            assert(place == from);
        } else {
            assert(after == moved(before, from, to));
            assert(after.remove(place) =~= before.remove(from));
        }
    }
}

proof fn lemma_place_of(priority: Seq<AudioFormat>, format: AudioFormat)
    requires
        priority.contains(format),
    ensures
        0 <= place_of(priority, format) < priority.len(),
        priority[place_of(priority, format)] == format,
    decreases priority.len(),
{
    if priority[0] != format {
        let i = choose|i: int| 0 <= i < priority.len() && priority[i] == format;
        let rest = priority.drop_first();
        assert(rest[i - 1] == format);
        lemma_place_of(rest, format);
    }
}

/// An order of preference that was moved is stored, and read back the next time.
pub proof fn lemma_moved_format_is_kept(library: LibraryView, format: AudioFormat, to: int)
    ensures
        ({
            let after = library.with_format_moved(format, to);
            after.format_priority != library.format_priority ==> stored_priority(after.backend.db)
                == normalized_priority(after.format_priority)
        }),
{
    reveal(LibraryView::refreshed);
    let from = place_of(library.format_priority, format);
    lemma_priority_round_trip(library.backend.db, moved(library.format_priority, from, to));
}

} // verus!
