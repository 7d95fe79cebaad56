//! Bringing the database in line with the files that a scan found.
use super::tags::{lemma_stored_key, row_has_stem, stored_key, with_key};
use super::{Database, DatabaseView, StoredFile, StoredView, TagValue, TagValueView};
use crate::model::{normal_key, normal_value, normalize_tag_key, normalize_tag_value, Category};
use crate::order::{is_ordering, key_lt, lemma_key_order, lemma_text_list_has, text_key};
use crate::order::text_list;
use crate::row_set::lemma_take_contains;
use crate::text::{equal_ignoring_ascii_case, lemma_occurs, lowercase, occurs_in};
use crate::text_map::{TextMap, TextSet};
use vstd::prelude::*;

verus! {

broadcast use vstd::string::group_string_axioms;

/// What a scan found out about one file.
pub struct FileScanRecord {
    pub path: String,
    pub stem: String,
    pub extension: String,
    pub size: u64,
    pub modified: i64,
    pub tags: TextMap<Vec<String>>,
}

/// The mathematical value of a [`FileScanRecord`].
#[verifier::ext_equal]
pub ghost struct ScanView {
    pub path: Seq<char>,
    pub stem: Seq<char>,
    pub extension: Seq<char>,
    pub size: u64,
    pub modified: i64,
    pub tags: Map<Seq<char>, Seq<Seq<char>>>,
}

impl DeepView for FileScanRecord {
    type V = ScanView;

    open spec fn deep_view(&self) -> ScanView {
        ScanView {
            path: self.path@,
            stem: self.stem@,
            extension: self.extension@,
            size: self.size,
            modified: self.modified,
            tags: self.tags@,
        }
    }
}

/// How many files a synchronization added, updated and removed.
#[derive(Debug, Clone, Copy, PartialEq, Eq, Structural)]
pub struct SyncSummary {
    pub added: usize,
    pub updated: usize,
    pub removed: usize,
}

impl Default for SyncSummary {
    fn default() -> (r: Self)
        ensures
            r == (SyncSummary { added: 0, updated: 0, removed: 0 }),
    {
        SyncSummary { added: 0, updated: 0, removed: 0 }
    }
}

/// Size and time of change of each file of `category`, by path.
pub open spec fn fingerprints(db: DatabaseView, category: Category) -> Map<Seq<char>, (u64, i64)> {
    Map::new(
        |path: Seq<char>| db.files.contains_key(path) && db.files[path].category == category,
        |path: Seq<char>| (db.files[path].size, db.files[path].modified),
    )
}

/// Whether `files` has a file of `category` with the stem `stem`.
pub open spec fn has_stem(
    files: Map<Seq<char>, StoredView>,
    category: Category,
    stem: Seq<char>,
) -> bool {
    exists|path: Seq<char>| #[trigger]
        files.contains_key(path) && files[path].category == category && files[path].stem == stem
}

/// The values under `keys`, key after key.
pub open spec fn flat_values(
    keys: Seq<Seq<char>>,
    tags: Map<Seq<char>, Seq<Seq<char>>>,
) -> Seq<Seq<char>>
    decreases keys.len(),
{
    if keys.len() == 0 {
        seq![]
    } else {
        flat_values(keys.drop_last(), tags) + tags[keys.last()]
    }
}

/// `values` in one text, a space between each two.
pub open spec fn spaced(values: Seq<Seq<char>>) -> Seq<char>
    decreases values.len(),
{
    if values.len() == 0 {
        seq![]
    } else if values.len() == 1 {
        values[0]
    } else {
        spaced(values.drop_last()).push(' ') + values.last()
    }
}

/// The text kept with a file for searching: its stem, extension, category and tag values, in
/// lowercase.
pub open spec fn search_text(category: Category, record: ScanView) -> Seq<char> {
    lowercase(
        spaced(
            seq![
                record.stem,
                record.extension,
                category.label_text(),
                spaced(flat_values(text_list(record.tags.dom()), record.tags)),
            ],
        ),
    )
}

/// What is stored for a scanned file. A file that is known already keeps the time at which it was
/// first seen, and its waveform if neither size nor time of change differ.
pub open spec fn stored_from(
    db: DatabaseView,
    category: Category,
    record: ScanView,
    now: i64,
) -> StoredView {
    let known = db.files.contains_key(record.path);
    let before = db.files[record.path];
    StoredView {
        category,
        stem: record.stem,
        extension: record.extension,
        size: record.size,
        modified: record.modified,
        first_seen_at: if known {
            before.first_seen_at
        } else {
            now
        },
        preview_waveform: if known && before.size == record.size && before.modified
            == record.modified {
            before.preview_waveform
        } else {
            None
        },
        search_text: search_text(category, record),
    }
}

/// Whether one of `values`, in the form in which values are stored, is `value`.
pub open spec fn has_normal_value(values: Seq<Seq<char>>, value: Seq<char>) -> bool {
    exists|i: int| 0 <= i < values.len() && normal_value(#[trigger] values[i]) == Some(value)
}

/// `db` with the values that a file brought for one key; blank keys and values are left out.
pub open spec fn with_file_values(
    db: DatabaseView,
    category: Category,
    stem: Seq<char>,
    key: Seq<char>,
    values: Seq<Seq<char>>,
) -> DatabaseView {
    match normal_key(key) {
        Some(normal) => {
            let stored = stored_key(db, category, normal);
            DatabaseView {
                tag_values: Set::new(
                    |row: TagValueView|
                        db.tag_values.contains(row) || (row.category == category && row.stem == stem
                            && row.key == stored && has_normal_value(values, row.value)),
                ),
                ..with_key(db, category, stored)
            }
        },
        None => db,
    }
}

/// `db` with the values that a file brought for `keys`, key after key.
pub open spec fn with_file_tags(
    db: DatabaseView,
    category: Category,
    stem: Seq<char>,
    keys: Seq<Seq<char>>,
    tags: Map<Seq<char>, Seq<Seq<char>>>,
) -> DatabaseView
    decreases keys.len(),
{
    if keys.len() == 0 {
        db
    } else {
        with_file_values(
            with_file_tags(db, category, stem, keys.drop_last(), tags),
            category,
            stem,
            keys.last(),
            tags[keys.last()],
        )
    }
}

/// Whether a stem has tags.
pub open spec fn is_tagged(db: DatabaseView, category: Category, stem: Seq<char>) -> bool {
    exists|row: TagValueView| #[trigger]
        db.tag_values.contains(row) && row.category == category && row.stem == stem
}

/// The state of a synchronization between two records.
#[verifier::ext_equal]
pub ghost struct SyncState {
    pub db: DatabaseView,
    pub stems: Set<Seq<char>>,
    pub next: int,
    pub added: int,
    pub updated: int,
}

/// Whether `record` describes the file as it was known before the scan.
pub open spec fn is_unchanged(known: Map<Seq<char>, (u64, i64)>, record: ScanView) -> bool {
    known.contains_key(record.path) && known[record.path] == (record.size, record.modified)
}

/// One record of a scan: files that did not change stay as they are; others are stored, and the
/// tags that a file brings are taken over for a stem that is new and has none.
pub open spec fn sync_step(
    state: SyncState,
    category: Category,
    known: Map<Seq<char>, (u64, i64)>,
    record: ScanView,
) -> SyncState {
    if is_unchanged(known, record) {
        state
    } else {
        let stored = DatabaseView {
            files: state.db.files.insert(
                record.path,
                stored_from(state.db, category, record, state.next as i64),
            ),
            ..state.db
        };
        SyncState {
            db: if state.stems.contains(record.stem) || is_tagged(stored, category, record.stem) {
                stored
            } else {
                with_file_tags(
                    stored,
                    category,
                    record.stem,
                    text_list(record.tags.dom()),
                    record.tags,
                )
            },
            stems: state.stems.insert(record.stem),
            next: state.next + 1,
            added: if known.contains_key(record.path) {
                state.added
            } else {
                state.added + 1
            },
            updated: if known.contains_key(record.path) {
                state.updated + 1
            } else {
                state.updated
            },
        }
    }
}

/// The records of a scan, one after the other.
pub open spec fn sync_steps(
    state: SyncState,
    category: Category,
    known: Map<Seq<char>, (u64, i64)>,
    records: Seq<ScanView>,
) -> SyncState
    decreases records.len(),
{
    if records.len() == 0 {
        state
    } else {
        sync_step(
            sync_steps(state, category, known, records.drop_last()),
            category,
            known,
            records.last(),
        )
    }
}

/// The state in which a synchronization starts.
pub open spec fn sync_start(db: DatabaseView, category: Category, now: i64) -> SyncState {
    SyncState {
        db,
        stems: Set::new(|stem: Seq<char>| has_stem(db.files, category, stem)),
        next: now as int,
        added: 0,
        updated: 0,
    }
}

/// Whether one of `records` is for the file at `path`.
pub open spec fn is_scanned(records: Seq<ScanView>, path: Seq<char>) -> bool {
    exists|i: int| 0 <= i < records.len() && (#[trigger] records[i]).path == path
}

/// The known files that the scan did not find.
pub open spec fn gone_paths(
    db: DatabaseView,
    category: Category,
    records: Seq<ScanView>,
) -> Set<Seq<char>> {
    fingerprints(db, category).dom().filter(|path: Seq<char>| !is_scanned(records, path))
}

/// `db` without the tags of stems that no file of `category` has.
pub open spec fn without_orphans(db: DatabaseView, category: Category) -> DatabaseView {
    DatabaseView {
        tag_values: db.tag_values.filter(
            |row: TagValueView| row.category != category || has_stem(db.files, category, row.stem),
        ),
        ..db
    }
}

/// The database after a synchronization with the files that a scan of `category` found at the time
/// `now`.
pub open spec fn after_sync(
    db: DatabaseView,
    category: Category,
    records: Seq<ScanView>,
    now: i64,
) -> DatabaseView {
    let stored = sync_steps(
        sync_start(db, category, now),
        category,
        fingerprints(db, category),
        records,
    ).db;
    without_orphans(
        DatabaseView {
            files: stored.files.remove_keys(gone_paths(db, category, records)),
            ..stored
        },
        category,
    )
}

/// Joins texts with a space between each two.
fn join_spaced(values: &Vec<String>) -> (r: String)
    ensures
        r@ == spaced(values.deep_view()),
{
    let ghost views = values.deep_view();
    let mut out = String::new();
    let mut i: usize = 0;
    assert(out@ =~= spaced(views.take(0)));
    while i < values.len()
        invariant
            i <= values@.len(),
            views == values.deep_view(),
            out@ == spaced(views.take(i as int)),
        decreases values.len() - i,
    {
        let ghost before = out@;
        proof {
            assert(views[i as int] == values@[i as int]@);
            assert(views.take(i + 1).drop_last() =~= views.take(i as int));
            assert(views.take(i + 1).last() == views[i as int]);
        }
        if i > 0 {
            out.push(' ');
        }
        out.append(values[i].as_str());
        proof {
            if i == 0 {
                assert(before =~= seq![]);
                assert(out@ =~= views[0]);
                assert(views.take(1)[0] == views[0]);
            }
        }
        i += 1;
    }
    assert(views.take(i as int) =~= views);
    out
}

/// The values of `tags`, key after key.
fn all_values(tags: &TextMap<Vec<String>>) -> (r: Vec<String>)
    ensures
        r.deep_view() == flat_values(text_list(tags@.dom()), tags@),
{
    let total = tags.len();
    let ghost keys = tags.keys();
    let mut out: Vec<String> = Vec::new();
    let mut i: usize = 0;
    assert(out.deep_view() =~= flat_values(keys.take(0), tags@));
    while i < total
        invariant
            i <= total,
            total == keys.len(),
            keys == tags.keys(),
            out.deep_view() == flat_values(keys.take(i as int), tags@),
        decreases total - i,
    {
        let values = tags.value_at(i);
        let mut more = crate::text::copy_texts(values);
        let ghost before = out.deep_view();
        let ghost extra = more.deep_view();
        let ghost old_out = out@;
        let ghost old_more = more@;
        out.append(&mut more);
        proof {
            assert forall|n: int| 0 <= n < out@.len() implies out.deep_view()[n] == (before
                + extra)[n] by {
                if n < old_out.len() {
                    assert(out@[n] == old_out[n]);
                    assert(before[n] == old_out[n]@);
                } else {
                    assert(out@[n] == old_more[n - old_out.len()]);
                    assert(extra[n - old_out.len()] == old_more[n - old_out.len()]@);
                }
            }
            assert(out.deep_view() =~= before + extra);
            assert(keys.take(i + 1).drop_last() =~= keys.take(i as int));
        }
        i += 1;
    }
    assert(keys.take(i as int) =~= keys);
    out
}

/// The text kept with a file for searching.
fn make_search_text(category: Category, record: &FileScanRecord) -> (r: String)
    ensures
        r@ == search_text(category, record.deep_view()),
{
    let values = all_values(&record.tags);
    let mut parts: Vec<String> = Vec::new();
    parts.push(record.stem.clone());
    parts.push(record.extension.clone());
    parts.push(category.label().to_owned());
    parts.push(join_spaced(&values));
    assert(parts.deep_view() =~= seq![
        record.stem@,
        record.extension@,
        category.label_text(),
        spaced(flat_values(text_list(record.tags@.dom()), record.tags@)),
    ]);
    join_spaced(&parts).as_str().to_lowercase()
}

impl Database {
    /// Size and time of change of each file of `category`, by path.
    pub fn file_fingerprints(&self, category: Category) -> (r: TextMap<(u64, i64)>)
        ensures
            r@ == fingerprints(self@, category),
    {
        let mut known: TextMap<(u64, i64)> = TextMap::new();
        let total = self.files.len();
        let ghost paths = self.files.keys();
        let ghost all = fingerprints(self@, category);
        let mut i: usize = 0;
        while i < total
            invariant
                i <= total,
                total == paths.len(),
                paths == self.files.keys(),
                forall|p: Seq<char>| #[trigger]
                    self.files@.dom().contains(p) <==> paths.contains(p),
                all == fingerprints(self@, category),
                forall|p: Seq<char>| #[trigger]
                    known@.contains_key(p) <==> all.contains_key(p) && paths.take(
                        i as int,
                    ).contains(p),
                forall|p: Seq<char>| #[trigger] known@.contains_key(p) ==> known@[p] == all[p],
            decreases total - i,
        {
            let ghost before = known@;
            let path = self.files.key_at(i);
            let stored = self.files.value_at(i);
            if stored.category == category {
                known.insert(path.clone(), (stored.size, stored.modified));
            }
            proof {
                assert forall|p: Seq<char>| #[trigger]
                    known@.contains_key(p) <==> all.contains_key(p) && paths.take(i + 1).contains(
                        p,
                    ) by {
                    lemma_take_contains(paths, i as int, p);
                }
            }
            i += 1;
        }
        proof {
            assert(paths.take(i as int) =~= paths);
            assert forall|p: Seq<char>| #[trigger] all.contains_key(p) implies paths.contains(p) by {
                assert(self.files@.dom().contains(p));
            }
            assert(known@ =~= all);
        }
        known
    }

    /// The stems of the files of `category`.
    pub(crate) fn stems_of_category(&self, category: Category) -> (r: TextSet)
        ensures
            r@ == Set::new(|stem: Seq<char>| has_stem(self@.files, category, stem)),
    {
        let mut stems = TextSet::new();
        let total = self.files.len();
        let ghost paths = self.files.keys();
        let mut i: usize = 0;
        while i < total
            invariant
                i <= total,
                total == paths.len(),
                paths == self.files.keys(),
                forall|p: Seq<char>| #[trigger]
                    self.files@.dom().contains(p) <==> paths.contains(p),
                forall|stem: Seq<char>| #[trigger]
                    stems@.contains(stem) <==> exists|j: int|
                        0 <= j < i && self.files@[#[trigger] paths[j]].category == category
                            && self.files@[paths[j]].stem == stem,
            decreases total - i,
        {
            let ghost before = stems@;
            let stored = self.files.value_at(i);
            if stored.category == category {
                stems.insert(stored.stem.clone());
            }
            proof {
                assert forall|stem: Seq<char>| #[trigger]
                    stems@.contains(stem) <==> exists|j: int|
                        0 <= j < i + 1 && self.files@[#[trigger] paths[j]].category == category
                            && self.files@[paths[j]].stem == stem by {
                    if before.contains(stem) {
                        let j = choose|j: int|
                            0 <= j < i && self.files@[#[trigger] paths[j]].category == category
                                && self.files@[paths[j]].stem == stem;
                        assert(self.files@[paths[j]].category == category);
                    }
                    assert(self.files@[paths[i as int]] == stored.deep_view());
                }
            }
            i += 1;
        }
        proof {
            assert forall|stem: Seq<char>| #[trigger]
                stems@.contains(stem) <==> has_stem(self@.files, category, stem) by {
                if stems@.contains(stem) {
                    let j = choose|j: int|
                        0 <= j < i && self.files@[#[trigger] paths[j]].category == category
                            && self.files@[paths[j]].stem == stem;
                    assert(paths.contains(paths[j]));
                    assert(self.files@.dom().contains(paths[j]));
                    assert(self.files@.contains_key(paths[j]));
                }
                if has_stem(self@.files, category, stem) {
                    let path = choose|path: Seq<char>| #[trigger]
                        self@.files.contains_key(path) && self@.files[path].category == category
                            && self@.files[path].stem == stem;
                    assert(self.files@.dom().contains(path));
                    let j = choose|j: int| 0 <= j < paths.len() && paths[j] == path;
                    assert(self.files@[paths[j]].category == category);
                }
            }
            assert(stems@ =~= Set::new(|stem: Seq<char>| has_stem(self@.files, category, stem)));
        }
        stems
    }

    /// Whether a stem has tags.
    fn has_tags(&self, category: Category, stem: &str) -> (r: bool)
        ensures
            r == is_tagged(self@, category, stem@),
    {
        let rows = self.stem_rows(category, stem);
        let ghost views = rows.deep_view();
        proof {
            let all = self.tag_values@.filter(
                |row: TagValueView| row_has_stem(row, category, stem@),
            );
            if views.len() > 0 {
                assert(views.contains(views[0]));
                assert(all.contains(views[0]));
            }
            if is_tagged(self@, category, stem@) {
                let row = choose|row: TagValueView| #[trigger]
                    self@.tag_values.contains(row) && row.category == category && row.stem
                        == stem@;
                assert(all.contains(row));
                assert(views.contains(row));
            }
        }
        rows.len() > 0
    }
}

/// Whether `summary` counts what bringing the files of `category` in line with a scan does.
pub open spec fn counts_sync(
    summary: SyncSummary,
    db: DatabaseView,
    category: Category,
    records: Seq<ScanView>,
    now: i64,
) -> bool {
    let end = sync_steps(
        sync_start(db, category, now),
        category,
        fingerprints(db, category),
        records,
    );
    &&& summary.added == end.added
    &&& summary.updated == end.updated
    &&& summary.removed == gone_paths(db, category, records).len()
}

impl Database {
    /// Takes over the values that a file brought for one key.
    fn add_file_values(&mut self, category: Category, stem: &str, key: &str, values: &Vec<String>)
        ensures
            final(self)@ == with_file_values(
                old(self)@,
                category,
                stem@,
                key@,
                values.deep_view(),
            ),
    {
        let ghost before = self@;
        let ghost views = values.deep_view();
        match normalize_tag_key(key) {
            Some(normal) => {
                let stored = match self.find_stored_key(category, normal.as_str()) {
                    Some(stored) => {
                        proof {
                            lemma_stored_key(before, category, normal@, stored@);
                        }
                        stored
                    },
                    None => normal,
                };
                let ghost stored_text = stored@;
                assert(stored_text == stored_key(before, category, normal_key(key@).unwrap()));
                self.ensure_tag_key(category, stored.as_str());
                let ghost keyed = self@;
                let mut i: usize = 0;
                while i < values.len()
                    invariant
                        i <= values@.len(),
                        views == values.deep_view(),
                        stored@ == stored_text,
                        self@ == (DatabaseView { tag_values: self@.tag_values, ..keyed }),
                        forall|row: TagValueView| #[trigger]
                            self@.tag_values.contains(row) <==> keyed.tag_values.contains(row) || (
                            row.category == category && row.stem == stem@ && row.key == stored_text
                                && has_normal_value(views.take(i as int), row.value)),
                    decreases values.len() - i,
                {
                    let ghost was = self@;
                    assert(views[i as int] == values@[i as int]@);
                    match normalize_tag_value(values[i].as_str()) {
                        Some(value) => {
                            let row = TagValue {
                                category,
                                stem: stem.to_owned(),
                                key: stored.clone(),
                                value,
                            };
                            assert(row.deep_view() == TagValueView {
                                category,
                                stem: stem@,
                                key: stored_text,
                                value: normal_value(views[i as int]).unwrap(),
                            });
                            self.tag_values.insert(row);
                        },
                        None => {},
                    }
                    proof {
                        assert forall|row: TagValueView| #[trigger]
                            self@.tag_values.contains(row) <==> keyed.tag_values.contains(row) || (
                            row.category == category && row.stem == stem@ && row.key == stored_text
                                && has_normal_value(views.take(i + 1), row.value)) by {
                            lemma_has_normal_value(views, i as int, row.value);
                            assert(was.tag_values.contains(row) <==> keyed.tag_values.contains(row)
                                || (row.category == category && row.stem == stem@ && row.key
                                == stored_text && has_normal_value(
                                views.take(i as int),
                                row.value,
                            )));
                        }
                    }
                    i += 1;
                }
                proof {
                    assert(views.take(i as int) =~= views);
                    assert(self@.tag_values =~= with_file_values(
                        before,
                        category,
                        stem@,
                        key@,
                        views,
                    ).tag_values);
                }
            },
            None => {},
        }
    }

    /// Takes over the tags that a file brought.
    fn add_file_tags(&mut self, category: Category, stem: &str, tags: &TextMap<Vec<String>>)
        ensures
            final(self)@ == with_file_tags(
                old(self)@,
                category,
                stem@,
                text_list(tags@.dom()),
                tags@,
            ),
    {
        let ghost before = self@;
        let total = tags.len();
        let ghost keys = tags.keys();
        let mut i: usize = 0;
        assert(keys.take(0) =~= seq![]);
        while i < total
            invariant
                i <= total,
                total == keys.len(),
                keys == tags.keys(),
                self@ == with_file_tags(before, category, stem@, keys.take(i as int), tags@),
            decreases total - i,
        {
            let key = tags.key_at(i);
            let values = tags.value_at(i);
            proof {
                assert(keys.take(i + 1).drop_last() =~= keys.take(i as int));
                assert(keys.take(i + 1).last() == keys[i as int]);
            }
            self.add_file_values(category, stem, key.as_str(), values);
            i += 1;
        }
        assert(keys.take(i as int) =~= keys);
    }

    /// Stores what a scan found out about one file.
    fn store_file(&mut self, category: Category, record: &FileScanRecord, now: i64)
        ensures
            final(self)@ == (DatabaseView {
                files: old(self)@.files.insert(
                    record.path@,
                    stored_from(old(self)@, category, record.deep_view(), now),
                ),
                ..old(self)@
            }),
    {
        let ghost before = self@;
        let text = make_search_text(category, record);
        let (first_seen_at, preview_waveform) = match self.files.get(record.path.as_str()) {
            Some(known) => {
                let waveform = if known.size == record.size && known.modified == record.modified {
                    known.preview_waveform
                } else {
                    None
                };
                (known.first_seen_at, waveform)
            },
            None => (now, None),
        };
        let stored = StoredFile {
            category,
            stem: record.stem.clone(),
            extension: record.extension.clone(),
            size: record.size,
            modified: record.modified,
            first_seen_at,
            preview_waveform,
            search_text: text,
        };
        assert(stored.deep_view() == stored_from(before, category, record.deep_view(), now));
        self.files.insert(record.path.clone(), stored);
    }

    /// Brings the files of `category` in line with what a scan found at the time `now`.
    pub fn sync_category(
        &mut self,
        category: Category,
        records: Vec<FileScanRecord>,
        now: i64,
    ) -> (r: SyncSummary)
        requires
            now + records@.len() <= i64::MAX,
        ensures
            final(self)@ == after_sync(old(self)@, category, records.deep_view(), now),
            counts_sync(r, old(self)@, category, records.deep_view(), now),
    {
        let ghost before = self@;
        let ghost views = records.deep_view();
        let known = self.file_fingerprints(category);
        let mut stems = self.stems_of_category(category);
        let ghost start = sync_start(before, category, now);
        let mut seen = TextSet::new();
        let mut summary = SyncSummary { added: 0, updated: 0, removed: 0 };
        let mut next: i64 = now;
        let mut i: usize = 0;
        assert(views.take(0) =~= seq![]);
        while i < records.len()
            invariant
                i <= records@.len(),
                views == records.deep_view(),
                known@ == fingerprints(before, category),
                now + records@.len() <= i64::MAX,
                ({
                    let state = sync_steps(start, category, known@, views.take(i as int));
                    &&& self@ == state.db
                    &&& stems@ == state.stems
                    &&& next == state.next
                    &&& summary.added == state.added
                    &&& summary.updated == state.updated
                }),
                summary.removed == 0,
                next <= now + i,
                now <= next,
                summary.added + summary.updated <= i,
                forall|p: Seq<char>| #[trigger]
                    seen@.contains(p) <==> is_scanned(views.take(i as int), p),
            decreases records.len() - i,
        {
            let record = &records[i];
            let ghost view = views[i as int];
            let ghost state = sync_steps(start, category, known@, views.take(i as int));
            let ghost was_seen = seen@;
            proof {
                assert(view == record.deep_view());
                assert(views.take(i + 1).drop_last() =~= views.take(i as int));
                assert(views.take(i + 1).last() == view);
            }
            seen.insert(record.path.clone());
            proof {
                assert forall|p: Seq<char>| #[trigger]
                    seen@.contains(p) <==> is_scanned(views.take(i + 1), p) by {
                    assert(was_seen.contains(p) <==> is_scanned(views.take(i as int), p));
                    lemma_is_scanned(views, i as int, p);
                }
            }
            let fingerprint = known.get(record.path.as_str());
            let unchanged = match fingerprint {
                Some(print) => print.0 == record.size && print.1 == record.modified,
                None => false,
            };
            assert(unchanged == is_unchanged(known@, view));
            if !unchanged {
                if fingerprint.is_some() {
                    summary.updated += 1;
                } else {
                    summary.added += 1;
                }
                self.store_file(category, record, next);
                next += 1;
                if !stems.contains(record.stem.as_str()) {
                    let tagged = self.has_tags(category, record.stem.as_str());
                    stems.insert(record.stem.clone());
                    if !tagged {
                        self.add_file_tags(category, record.stem.as_str(), &record.tags);
                    }
                } else {
                    assert(stems@ =~= state.stems.insert(view.stem));
                }
            }
            i += 1;
        }
        assert(views.take(i as int) =~= views);
        let removed = self.remove_unseen(&known, &seen);
        summary.removed = removed;
        proof {
            let gone = known@.dom().filter(|p: Seq<char>| !seen@.contains(p));
            assert(gone =~= gone_paths(before, category, views));
        }
        let left = self.stems_of_category(category);
        let ghost stored = self@;
        let keeps = |row: &TagValue| -> (keep: bool)
            ensures
                keep == (row.deep_view().category != category || left@.contains(
                    row.deep_view().stem,
                )),
        {
            row.category != category || left.contains(row.stem.as_str())
        };
        self.tag_values.retain(
            keeps,
            Ghost(|row: TagValueView| row.category != category || left@.contains(row.stem)),
        );
        assert(self@ =~= without_orphans(stored, category));
        summary
    }

    /// Removes the files in `known` that were not seen; returns how many there were.
    fn remove_unseen(&mut self, known: &TextMap<(u64, i64)>, seen: &TextSet) -> (r: usize)
        ensures
            final(self)@ == (DatabaseView {
                files: old(self)@.files.remove_keys(
                    known@.dom().filter(|p: Seq<char>| !seen@.contains(p)),
                ),
                ..old(self)@
            }),
            r == known@.dom().filter(|p: Seq<char>| !seen@.contains(p)).len(),
    {
        let ghost before = self@;
        let ghost gone = known@.dom().filter(|p: Seq<char>| !seen@.contains(p));
        let total = known.len();
        let ghost paths = known.keys();
        let ghost mut done: Set<Seq<char>> = Set::empty();
        let mut removed: usize = 0;
        let mut i: usize = 0;
        assert(before.files.remove_keys(done) =~= before.files);
        while i < total
            invariant
                i <= total,
                total == paths.len(),
                paths == known.keys(),
                is_ordering(paths, known@.dom(), |t: Seq<char>| text_key(t)),
                gone == known@.dom().filter(|p: Seq<char>| !seen@.contains(p)),
                removed <= i,
                done.finite(),
                done.len() == removed,
                forall|p: Seq<char>| #[trigger]
                    done.contains(p) <==> gone.contains(p) && paths.take(i as int).contains(p),
                self@ == (DatabaseView { files: before.files.remove_keys(done), ..before }),
            decreases total - i,
        {
            let path = known.key_at(i);
            let ghost was = done;
            proof {
                assert forall|p: Seq<char>| #[trigger]
                    paths.take(i + 1).contains(p) <==> paths.take(i as int).contains(p) || p
                        == paths[i as int] by {
                    lemma_take_contains(paths, i as int, p);
                }
                if paths.take(i as int).contains(paths[i as int]) {
                    let j = choose|j: int|
                        0 <= j < i && paths.take(i as int)[j] == paths[i as int];
                    let key = |t: Seq<char>| text_key(t);
                    assert(key_lt(key(paths[j]), key(paths[i as int])));
                    lemma_key_order(key(paths[j]), key(paths[j]));
                }
            }
            if !seen.contains(path.as_str()) {
                self.files.remove(path.as_str());
                proof {
                    done = was.insert(path@);
                    assert(self@.files =~= before.files.remove_keys(done));
                }
                removed += 1;
            }
            i += 1;
        }
        proof {
            assert(paths.take(i as int) =~= paths);
            assert forall|p: Seq<char>| #[trigger] done.contains(p) <==> gone.contains(p) by {
                if gone.contains(p) {
                    assert(known@.dom().contains(p));
                    assert(paths.contains(p));
                }
            }
            assert(done =~= gone);
        }
        removed
    }
}

proof fn lemma_is_scanned(records: Seq<ScanView>, i: int, path: Seq<char>)
    requires
        0 <= i < records.len(),
    ensures
        is_scanned(records.take(i + 1), path) <==> is_scanned(records.take(i), path)
            || records[i].path == path,
{
    let next = records.take(i + 1);
    if is_scanned(records.take(i), path) {
        let j = choose|j: int| 0 <= j < i && (#[trigger] records.take(i)[j]).path == path;
        assert(next[j].path == path);
    }
    if records[i].path == path {
        assert(next[i].path == path);
    }
    if is_scanned(next, path) {
        let j = choose|j: int| 0 <= j < i + 1 && (#[trigger] next[j]).path == path;
        if j < i {
            assert(records.take(i)[j].path == path);
        }
    }
}

proof fn lemma_has_normal_value(values: Seq<Seq<char>>, i: int, value: Seq<char>)
    requires
        0 <= i < values.len(),
    ensures
        has_normal_value(values.take(i + 1), value) <==> has_normal_value(values.take(i), value)
            || normal_value(values[i]) == Some(value),
{
    let next = values.take(i + 1);
    if has_normal_value(values.take(i), value) {
        let j = choose|j: int|
            0 <= j < i && normal_value(#[trigger] values.take(i)[j]) == Some(value);
        assert(normal_value(next[j]) == Some(value));
    }
    if normal_value(values[i]) == Some(value) {
        assert(normal_value(next[i]) == Some(value));
    }
    if has_normal_value(next, value) {
        let j = choose|j: int| 0 <= j < i + 1 && normal_value(#[trigger] next[j]) == Some(value);
        if j < i {
            assert(normal_value(values.take(i)[j]) == Some(value));
        }
    }
}

proof fn lemma_with_file_tags(
    db: DatabaseView,
    category: Category,
    stem: Seq<char>,
    keys: Seq<Seq<char>>,
    tags: Map<Seq<char>, Seq<Seq<char>>>,
)
    ensures
        with_file_tags(db, category, stem, keys, tags).files == db.files,
        with_file_tags(db, category, stem, keys, tags).settings == db.settings,
        forall|row: TagValueView| #[trigger]
            db.tag_values.contains(row) ==> with_file_tags(
                db,
                category,
                stem,
                keys,
                tags,
            ).tag_values.contains(row),
        forall|row: TagValueView|
            #![trigger with_file_tags(db, category, stem, keys, tags).tag_values.contains(row)]
            with_file_tags(db, category, stem, keys, tags).tag_values.contains(row)
                ==> db.tag_values.contains(row) || (row.category == category && row.stem == stem),
    decreases keys.len(),
{
    if keys.len() > 0 {
        lemma_with_file_tags(db, category, stem, keys.drop_last(), tags);
    }
}

/// What the records of a scan leave as it was, and what they change.
proof fn lemma_sync_steps(
    db: DatabaseView,
    category: Category,
    records: Seq<ScanView>,
    now: i64,
)
    ensures
        ({
            let state = sync_steps(
                sync_start(db, category, now),
                category,
                fingerprints(db, category),
                records,
            );
            &&& state.db.settings == db.settings
            &&& forall|p: Seq<char>| #[trigger]
                state.db.files.contains_key(p) <==> db.files.contains_key(p) || is_scanned(
                    records,
                    p,
                )
            &&& forall|p: Seq<char>| #[trigger]
                state.db.files.contains_key(p) ==> if is_scanned(records, p) {
                    state.db.files[p].category == category
                } else {
                    state.db.files[p] == db.files[p]
                }
            &&& forall|p: Seq<char>| #[trigger]
                db.files.contains_key(p) ==> state.db.files[p].first_seen_at
                    == db.files[p].first_seen_at
            &&& forall|row: TagValueView| #[trigger]
                db.tag_values.contains(row) ==> state.db.tag_values.contains(row)
            &&& forall|row: TagValueView| #[trigger]
                state.db.tag_values.contains(row) ==> db.tag_values.contains(row) || (row.category
                    == category && !has_stem(db.files, category, row.stem))
            &&& forall|stem: Seq<char>| #[trigger]
                has_stem(db.files, category, stem) ==> state.stems.contains(stem)
        }),
    decreases records.len(),
{
    let known = fingerprints(db, category);
    let start = sync_start(db, category, now);
    if records.len() > 0 {
        let front = records.drop_last();
        let record = records.last();
        lemma_sync_steps(db, category, front, now);
        let before = sync_steps(start, category, known, front);
        let after = sync_step(before, category, known, record);
        assert forall|p: Seq<char>| #[trigger]
            is_scanned(records, p) <==> is_scanned(front, p) || record.path == p by {
            assert(records.take(records.len() as int) =~= records);
            assert(records.take(records.len() - 1) =~= front);
            lemma_is_scanned(records, records.len() - 1, p);
        }
        if !is_unchanged(known, record) {
            let stored = DatabaseView {
                files: before.db.files.insert(
                    record.path,
                    stored_from(before.db, category, record, before.next as i64),
                ),
                ..before.db
            };
            lemma_with_file_tags(
                stored,
                category,
                record.stem,
                text_list(record.tags.dom()),
                record.tags,
            );
            assert(after.db.files == stored.files);
            assert forall|row: TagValueView| #[trigger]
                db.tag_values.contains(row) implies after.db.tag_values.contains(row) by {
                assert(before.db.tag_values.contains(row));
                assert(stored.tag_values.contains(row));
            }
        } else {
            assert(db.files.contains_key(record.path));
            if !is_scanned(front, record.path) {
                assert(before.db.files[record.path] == db.files[record.path]);
            }
        }
    }
}

/// After a synchronization a category has exactly the files that the scan found.
pub proof fn lemma_sync_has_scanned_files(
    db: DatabaseView,
    category: Category,
    records: Seq<ScanView>,
    now: i64,
    path: Seq<char>,
)
    ensures
        fingerprints(after_sync(db, category, records, now), category).contains_key(path)
            <==> is_scanned(records, path),
{
    lemma_sync_steps(db, category, records, now);
    let state = sync_steps(
        sync_start(db, category, now),
        category,
        fingerprints(db, category),
        records,
    );
    let after = after_sync(db, category, records, now);
    let gone = gone_paths(db, category, records);
    assert(after.files.contains_key(path) <==> state.db.files.contains_key(path)
        && !gone.contains(path));
    if state.db.files.contains_key(path) && !gone.contains(path) {
        assert(after.files[path] == state.db.files[path]);
    }
}

/// A synchronization leaves the files and tags of the other category and the settings alone, as
/// long as the scan found none of its files.
pub proof fn lemma_sync_keeps_other_category(
    db: DatabaseView,
    category: Category,
    records: Seq<ScanView>,
    now: i64,
    path: Seq<char>,
    row: TagValueView,
)
    requires
        db.files.contains_key(path),
        db.files[path].category != category,
        !is_scanned(records, path),
        row.category != category,
    ensures
        after_sync(db, category, records, now).files.contains_key(path),
        after_sync(db, category, records, now).files[path] == db.files[path],
        after_sync(db, category, records, now).tag_values.contains(row) <==> db.tag_values.contains(
            row,
        ),
        after_sync(db, category, records, now).settings == db.settings,
{
    lemma_sync_steps(db, category, records, now);
    let state = sync_steps(
        sync_start(db, category, now),
        category,
        fingerprints(db, category),
        records,
    );
    assert(state.db.files.contains_key(path));
    assert(!gone_paths(db, category, records).contains(path));
}

/// After a synchronization every tag of the category belongs to a stem that a file has.
pub proof fn lemma_sync_leaves_no_orphans(
    db: DatabaseView,
    category: Category,
    records: Seq<ScanView>,
    now: i64,
    row: TagValueView,
)
    requires
        after_sync(db, category, records, now).tag_values.contains(row),
        row.category == category,
    ensures
        has_stem(after_sync(db, category, records, now).files, category, row.stem),
{
}

/// A stem that had files before a synchronization, and has some after it, keeps exactly its tags:
/// those that users removed do not come back.
pub proof fn lemma_sync_keeps_tags(
    db: DatabaseView,
    category: Category,
    records: Seq<ScanView>,
    now: i64,
    row: TagValueView,
)
    requires
        row.category == category,
        has_stem(db.files, category, row.stem),
        has_stem(after_sync(db, category, records, now).files, category, row.stem),
    ensures
        after_sync(db, category, records, now).tag_values.contains(row) <==> db.tag_values.contains(
            row,
        ),
{
    lemma_sync_steps(db, category, records, now);
}

/// A file that was known before a synchronization and is there after it keeps the time at which it
/// was first seen.
pub proof fn lemma_sync_keeps_first_seen(
    db: DatabaseView,
    category: Category,
    records: Seq<ScanView>,
    now: i64,
    path: Seq<char>,
)
    requires
        db.files.contains_key(path),
        after_sync(db, category, records, now).files.contains_key(path),
    ensures
        after_sync(db, category, records, now).files[path].first_seen_at
            == db.files[path].first_seen_at,
{
    lemma_sync_steps(db, category, records, now);
    let state = sync_steps(
        sync_start(db, category, now),
        category,
        fingerprints(db, category),
        records,
    );
    assert(state.db.files.contains_key(path));
    assert(after_sync(db, category, records, now).files[path] == state.db.files[path]);
}

/// Whether no two of `records` are for the same file.
pub open spec fn distinct_paths(records: Seq<ScanView>) -> bool {
    forall|i: int, j: int|
        0 <= i < j < records.len() ==> (#[trigger] records[i]).path != (#[trigger] records[j]).path
}

proof fn lemma_sync_steps_record(
    db: DatabaseView,
    category: Category,
    records: Seq<ScanView>,
    now: i64,
    i: int,
)
    requires
        distinct_paths(records),
        0 <= i < records.len(),
    ensures
        ({
            let known = fingerprints(db, category);
            let state = sync_steps(sync_start(db, category, now), category, known, records);
            let stored = state.db.files[records[i].path];
            &&& state.db.files.contains_key(records[i].path)
            &&& stored.size == records[i].size
            &&& stored.modified == records[i].modified
            &&& is_unchanged(known, records[i]) ==> stored == db.files[records[i].path]
            &&& !is_unchanged(known, records[i]) ==> stored.stem == records[i].stem
                && stored.extension == records[i].extension
            &&& !is_unchanged(known, records[i]) && known.contains_key(records[i].path)
                ==> stored.preview_waveform is None
        }),
    decreases records.len(),
{
    let known = fingerprints(db, category);
    let front = records.drop_last();
    let before = sync_steps(sync_start(db, category, now), category, known, front);
    assert(distinct_paths(front)) by {
        assert forall|a: int, b: int| 0 <= a < b < front.len() implies (#[trigger] front[a]).path
            != (#[trigger] front[b]).path by {
            assert(records[a].path != records[b].path);
        }
    }
    lemma_sync_steps(db, category, front, now);
    let record = records.last();
    if !is_unchanged(known, record) {
        lemma_with_file_tags(
            DatabaseView {
                files: before.db.files.insert(
                    record.path,
                    stored_from(before.db, category, record, before.next as i64),
                ),
                ..before.db
            },
            category,
            record.stem,
            text_list(record.tags.dom()),
            record.tags,
        );
    }
    if i < front.len() {
        lemma_sync_steps_record(db, category, front, now, i);
        assert(front[i] == records[i]);
        assert(records[i].path != records[records.len() - 1].path);
    } else {
        if is_scanned(front, record.path) {
            let j = choose|j: int| 0 <= j < front.len() && (#[trigger] front[j]).path == record.path;
            assert(records[j].path != records[records.len() - 1].path);
        }
        if before.db.files.contains_key(record.path) {
            assert(before.db.files[record.path] == db.files[record.path]);
        }
    }
}

/// A scanned file is stored as the scan found it. A known file keeps its waveform if it did not
/// change, and loses it otherwise.
pub proof fn lemma_sync_stores_records(
    db: DatabaseView,
    category: Category,
    records: Seq<ScanView>,
    now: i64,
    i: int,
)
    requires
        distinct_paths(records),
        0 <= i < records.len(),
    ensures
        ({
            let after = after_sync(db, category, records, now);
            let path = records[i].path;
            let known = fingerprints(db, category);
            &&& fingerprints(after, category).contains_key(path)
            &&& fingerprints(after, category)[path] == (records[i].size, records[i].modified)
            &&& is_unchanged(known, records[i]) ==> after.files[path] == db.files[path]
            &&& !is_unchanged(known, records[i]) && known.contains_key(path)
                ==> after.files[path].preview_waveform is None
        }),
{
    let path = records[i].path;
    assert(is_scanned(records, path));
    lemma_sync_has_scanned_files(db, category, records, now, path);
    lemma_sync_steps_record(db, category, records, now, i);
}

proof fn lemma_sync_steps_unchanged(
    state: SyncState,
    category: Category,
    known: Map<Seq<char>, (u64, i64)>,
    records: Seq<ScanView>,
)
    requires
        forall|i: int| 0 <= i < records.len() ==> is_unchanged(known, #[trigger] records[i]),
    ensures
        sync_steps(state, category, known, records) == state,
    decreases records.len(),
{
    if records.len() > 0 {
        assert forall|i: int| 0 <= i < records.len() - 1 implies is_unchanged(
            known,
            #[trigger] records.drop_last()[i],
        ) by {
            assert(records.drop_last()[i] == records[i]);
        }
        lemma_sync_steps_unchanged(state, category, known, records.drop_last());
        assert(is_unchanged(known, records[records.len() - 1]));
    }
}

/// A second synchronization that finds the same files, of the same size and time of change, changes
/// nothing and counts nothing.
pub proof fn lemma_sync_again(
    db: DatabaseView,
    category: Category,
    records: Seq<ScanView>,
    now: i64,
    again: Seq<ScanView>,
    later: i64,
)
    requires
        distinct_paths(records),
        again.len() == records.len(),
        forall|i: int|
            0 <= i < records.len() ==> (#[trigger] again[i]).path == records[i].path
                && again[i].size == records[i].size && again[i].modified == records[i].modified,
    ensures
        ({
            let after = after_sync(db, category, records, now);
            let state = sync_steps(
                sync_start(after, category, later),
                category,
                fingerprints(after, category),
                again,
            );
            &&& after_sync(after, category, again, later) == after
            &&& state.added == 0
            &&& state.updated == 0
            &&& gone_paths(after, category, again) == Set::<Seq<char>>::empty()
        }),
{
    let after = after_sync(db, category, records, now);
    let known = fingerprints(after, category);
    assert forall|i: int| 0 <= i < again.len() implies is_unchanged(known, #[trigger] again[i]) by {
        lemma_sync_stores_records(db, category, records, now, i);
    }
    lemma_sync_steps_unchanged(sync_start(after, category, later), category, known, again);
    let gone = gone_paths(after, category, again);
    assert forall|p: Seq<char>| !gone.contains(p) by {
        if known.contains_key(p) {
            lemma_sync_has_scanned_files(db, category, records, now, p);
            let i = choose|i: int| 0 <= i < records.len() && (#[trigger] records[i]).path == p;
            assert(again[i].path == p);
        }
    }
    assert(gone =~= Set::<Seq<char>>::empty());
    assert(after.files.remove_keys(gone) =~= after.files);
    assert(without_orphans(after, category).tag_values =~= after.tag_values);
    assert(after_sync(after, category, again, later) =~= after);
}

/// A synchronization counts as added the files that were not known, as updated those that were and
/// have another size or time of change, and as removed the known ones that are gone.
pub proof fn lemma_sync_counts_files(
    db: DatabaseView,
    category: Category,
    records: Seq<ScanView>,
    now: i64,
    summary: SyncSummary,
)
    requires
        counts_sync(summary, db, category, records, now),
    ensures
        summary.added == records.filter(
            |record: ScanView|
                !(db.files.contains_key(record.path) && db.files[record.path].category == category),
        ).len(),
        summary.updated == records.filter(
            |record: ScanView|
                db.files.contains_key(record.path) && db.files[record.path].category == category
                    && !(db.files[record.path].size == record.size && db.files[record.path].modified
                    == record.modified),
        ).len(),
        summary.removed == Set::new(
            |path: Seq<char>|
                db.files.contains_key(path) && db.files[path].category == category && forall|i: int|
                    0 <= i < records.len() ==> (#[trigger] records[i]).path != path,
        ).len(),
{
    lemma_sync_steps_count(db, category, records, now);
    let gone = Set::new(
        |path: Seq<char>|
            db.files.contains_key(path) && db.files[path].category == category && forall|i: int|
                0 <= i < records.len() ==> (#[trigger] records[i]).path != path,
    );
    assert forall|path: Seq<char>| gone_paths(db, category, records).contains(path)
        <==> gone.contains(path) by {
        assert(fingerprints(db, category).dom().contains(path) <==> db.files.contains_key(path)
            && db.files[path].category == category);
    }
    assert(gone_paths(db, category, records) =~= gone);
}

/// What the steps of a synchronization count, and how often its clock ticked.
proof fn lemma_sync_steps_count(
    db: DatabaseView,
    category: Category,
    records: Seq<ScanView>,
    now: i64,
)
    ensures
        ({
            let end = sync_steps(
                sync_start(db, category, now),
                category,
                fingerprints(db, category),
                records,
            );
            &&& end.added == records.filter(
                |record: ScanView|
                    !(db.files.contains_key(record.path) && db.files[record.path].category
                        == category),
            ).len()
            &&& end.updated == records.filter(
                |record: ScanView|
                    db.files.contains_key(record.path) && db.files[record.path].category == category
                        && !(db.files[record.path].size == record.size
                        && db.files[record.path].modified == record.modified),
            ).len()
            &&& end.next == now + end.added + end.updated
            &&& end.added + end.updated <= records.len()
        }),
    decreases records.len(),
{
    reveal(Seq::filter);
    let known = fingerprints(db, category);
    if records.len() > 0 {
        lemma_sync_steps_count(db, category, records.drop_last(), now);
        let path = records.last().path;
        assert(known.contains_key(path) <==> db.files.contains_key(path) && db.files[path].category
            == category);
    }
}

/// A file that is new to the database is stored with what the scan found out about it, without a
/// waveform, and as first seen when the scan came to it: later than every changed file before it.
pub proof fn lemma_sync_stores_new_file(
    db: DatabaseView,
    category: Category,
    records: Seq<ScanView>,
    now: i64,
    i: int,
)
    requires
        distinct_paths(records),
        0 <= i < records.len(),
        now + records.len() <= i64::MAX,
        !db.files.contains_key(records[i].path),
    ensures
        ({
            let after = after_sync(db, category, records, now);
            let stored = after.files[records[i].path];
            &&& after.files.contains_key(records[i].path)
            &&& stored.category == category
            &&& stored.stem == records[i].stem
            &&& stored.extension == records[i].extension
            &&& stored.size == records[i].size
            &&& stored.modified == records[i].modified
            &&& stored.preview_waveform is None
            &&& stored.first_seen_at == now + records.take(i).filter(
                |record: ScanView| !is_unchanged(fingerprints(db, category), record),
            ).len()
            &&& stored.search_text == search_text(category, records[i])
        }),
{
    let path = records[i].path;
    assert(is_scanned(records, path));
    lemma_sync_has_scanned_files(db, category, records, now, path);
    lemma_sync_steps_record(db, category, records, now, i);
    lemma_sync_steps_stored(db, category, records, now, i);
}

/// A file that a synchronization stores anew is stored as its record says.
proof fn lemma_sync_steps_stored(
    db: DatabaseView,
    category: Category,
    records: Seq<ScanView>,
    now: i64,
    i: int,
)
    requires
        distinct_paths(records),
        0 <= i < records.len(),
        now + records.len() <= i64::MAX,
        !is_unchanged(fingerprints(db, category), records[i]),
    ensures
        ({
            let known = fingerprints(db, category);
            let state = sync_steps(sync_start(db, category, now), category, known, records);
            let stored = state.db.files[records[i].path];
            &&& stored.category == category
            &&& stored.search_text == search_text(category, records[i])
            &&& !db.files.contains_key(records[i].path) ==> stored.preview_waveform is None
                && stored.first_seen_at == now + records.take(i).filter(
                |record: ScanView| !is_unchanged(fingerprints(db, category), record),
            ).len()
        }),
    decreases records.len(),
{
    let known = fingerprints(db, category);
    let front = records.drop_last();
    let before = sync_steps(sync_start(db, category, now), category, known, front);
    assert(distinct_paths(front)) by {
        assert forall|a: int, b: int| 0 <= a < b < front.len() implies (#[trigger] front[a]).path
            != (#[trigger] front[b]).path by {
            assert(records[a].path != records[b].path);
        }
    }
    lemma_sync_steps(db, category, front, now);
    let record = records.last();
    if !is_unchanged(known, record) {
        lemma_with_file_tags(
            DatabaseView {
                files: before.db.files.insert(
                    record.path,
                    stored_from(before.db, category, record, before.next as i64),
                ),
                ..before.db
            },
            category,
            record.stem,
            text_list(record.tags.dom()),
            record.tags,
        );
    }
    if i < front.len() {
        lemma_sync_steps_stored(db, category, front, now, i);
        assert(front[i] == records[i]);
        assert(front.take(i) =~= records.take(i));
        assert(records[i].path != records[records.len() - 1].path);
    } else {
        if is_scanned(front, record.path) {
            let j = choose|j: int| 0 <= j < front.len() && (#[trigger] front[j]).path == record.path;
            assert(records[j].path != records[records.len() - 1].path);
        }
        assert(records.take(i) =~= front);
        lemma_sync_steps_clock(db, category, front, now);
    }
}

/// The clock of a synchronization ticks once for each file that is new or changed.
proof fn lemma_sync_steps_clock(
    db: DatabaseView,
    category: Category,
    records: Seq<ScanView>,
    now: i64,
)
    ensures
        ({
            let known = fingerprints(db, category);
            let changed = records.filter(
                |record: ScanView| !is_unchanged(fingerprints(db, category), record),
            ).len();
            &&& sync_steps(sync_start(db, category, now), category, known, records).next == now
                + changed
            &&& changed <= records.len()
        }),
    decreases records.len(),
{
    reveal(Seq::filter);
    if records.len() > 0 {
        lemma_sync_steps_clock(db, category, records.drop_last(), now);
    }
}

/// The text by which a file is found: its stem, its extension, the name of its category and its tag
/// values, each after a space, in lowercase.
pub proof fn lemma_search_text(category: Category, record: ScanView, key: Seq<char>, j: int)
    requires
        record.tags.dom().finite(),
    ensures
        exists|values: Seq<char>| #[trigger]
            lowercase(
                record.stem.push(' ') + record.extension.push(' ') + category.label_text().push(' ')
                    + values,
            ) == search_text(category, record) && (record.tags.contains_key(key) && 0 <= j
                < record.tags[key].len() ==> occurs_in(values, record.tags[key][j])),
{
    let keys = text_list(record.tags.dom());
    let all = flat_values(keys, record.tags);
    let values = spaced(all);
    let label = category.label_text();
    let parts = seq![record.stem, record.extension, label, values];
    reveal_with_fuel(spaced, 5);
    assert(parts.drop_last() =~= seq![record.stem, record.extension, label]);
    assert(parts.drop_last().drop_last() =~= seq![record.stem, record.extension]);
    assert(parts.drop_last().drop_last().drop_last() =~= seq![record.stem]);
    let text = record.stem.push(' ') + record.extension.push(' ') + label.push(' ') + values;
    assert(spaced(parts) =~= text);
    assert(lowercase(text) == search_text(category, record));
    if record.tags.contains_key(key) && 0 <= j < record.tags[key].len() {
        lemma_text_list_has(record.tags.dom(), key);
        let k = choose|k: int| 0 <= k < keys.len() && keys[k] == key;
        lemma_flat_values_has(keys, record.tags, k, j);
        let n = choose|n: int| 0 <= n < all.len() && all[n] == record.tags[key][j];
        lemma_spaced_has(all, n);
    }
}

proof fn lemma_flat_values_has(
    keys: Seq<Seq<char>>,
    tags: Map<Seq<char>, Seq<Seq<char>>>,
    k: int,
    j: int,
)
    requires
        0 <= k < keys.len(),
        0 <= j < tags[keys[k]].len(),
    ensures
        flat_values(keys, tags).contains(tags[keys[k]][j]),
    decreases keys.len(),
{
    let front = flat_values(keys.drop_last(), tags);
    let all = flat_values(keys, tags);
    if k == keys.len() - 1 {
        assert(all[front.len() + j] == tags[keys[k]][j]);
    } else {
        lemma_flat_values_has(keys.drop_last(), tags, k, j);
        let n = choose|n: int| 0 <= n < front.len() && front[n] == tags[keys[k]][j];
        assert(all[n] == front[n]);
    }
}

/// Each of some texts occurs in what joins them.
proof fn lemma_spaced_has(values: Seq<Seq<char>>, n: int)
    requires
        0 <= n < values.len(),
    ensures
        occurs_in(spaced(values), values[n]),
    decreases values.len(),
{
    let none = Seq::<char>::empty();
    if values.len() == 1 {
        assert(none + values[0] + none =~= values[0]);
        lemma_occurs(none, values[0], none, values[0]);
    } else {
        let front = spaced(values.drop_last());
        let last = values.last();
        let all = spaced(values);
        if n == values.len() - 1 {
            assert(all =~= front.push(' ') + last + none);
            lemma_occurs(front.push(' '), last, none, all);
        } else {
            lemma_spaced_has(values.drop_last(), n);
            let part = values[n];
            lemma_occurs(none, part, none, front);
            let i = choose|i: int|
                0 <= i <= front.len() - part.len() && front == #[trigger] front.take(i) + part
                    + front.skip(i + part.len());
            let tail = front.skip(i + part.len()).push(' ') + last;
            assert(all =~= front.take(i) + part + tail);
            lemma_occurs(front.take(i), part, tail, all);
        }
    }
}

/// Whether `tags` has, under a key and as a value that are stored as `key` and `value`, an entry.
pub open spec fn brings(
    tags: Map<Seq<char>, Seq<Seq<char>>>,
    key: Seq<char>,
    value: Seq<char>,
) -> bool {
    exists|raw: Seq<char>, j: int|
        tags.contains_key(raw) && 0 <= j < tags[raw].len() && normal_key(raw) == Some(key)
            && normal_value(#[trigger] tags[raw][j]) == Some(value)
}

/// Whether a stem has `value` under a key that spells `key`.
pub open spec fn has_value(
    db: DatabaseView,
    category: Category,
    stem: Seq<char>,
    key: Seq<char>,
    value: Seq<char>,
) -> bool {
    exists|row: TagValueView| #[trigger]
        db.tag_values.contains(row) && row.category == category && row.stem == stem
            && equal_ignoring_ascii_case(row.key, key) && row.value == value
}

/// What the tags of a file leave on a stem that had none: exactly those that the file brings.
proof fn lemma_file_tags(
    db: DatabaseView,
    category: Category,
    stem: Seq<char>,
    keys: Seq<Seq<char>>,
    tags: Map<Seq<char>, Seq<Seq<char>>>,
)
    requires
        forall|k: int| 0 <= k < keys.len() ==> tags.contains_key(#[trigger] keys[k]),
        !is_tagged(db, category, stem),
    ensures
        ({
            let after = with_file_tags(db, category, stem, keys, tags);
            &&& forall|k: int, j: int, key: Seq<char>, value: Seq<char>|
                0 <= k < keys.len() && 0 <= j < tags[keys[k]].len() && normal_key(keys[k]) == Some(
                    key,
                ) && normal_value(#[trigger] tags[keys[k]][j]) == Some(value)
                    ==> #[trigger] has_value(after, category, stem, key, value)
            &&& forall|row: TagValueView| #[trigger]
                after.tag_values.contains(row) && row.category == category && row.stem == stem
                    ==> exists|key: Seq<char>| #[trigger]
                    brings(tags, key, row.value) && equal_ignoring_ascii_case(row.key, key)
        }),
    decreases keys.len(),
{
    if keys.len() > 0 {
        let front = keys.drop_last();
        let raw = keys.last();
        assert forall|k: int| 0 <= k < front.len() implies tags.contains_key(
            #[trigger] front[k],
        ) by {
            assert(front[k] == keys[k]);
        }
        lemma_file_tags(db, category, stem, front, tags);
        let before = with_file_tags(db, category, stem, front, tags);
        let after = with_file_tags(db, category, stem, keys, tags);
        assert(after == with_file_values(before, category, stem, raw, tags[raw]));
        assert forall|row: TagValueView| #[trigger] before.tag_values.contains(row) implies
            after.tag_values.contains(row) by {}
        assert forall|k: int, j: int, key: Seq<char>, value: Seq<char>|
            0 <= k < keys.len() && 0 <= j < tags[keys[k]].len() && normal_key(keys[k]) == Some(key)
                && normal_value(#[trigger] tags[keys[k]][j]) == Some(value) implies #[trigger] has_value(
            after,
            category,
            stem,
            key,
            value,
        ) by {
            if k < front.len() {
                assert(tags[front[k]][j] == tags[keys[k]][j]);
                assert(has_value(before, category, stem, key, value));
                let row = choose|row: TagValueView| #[trigger]
                    before.tag_values.contains(row) && row.category == category && row.stem == stem
                        && equal_ignoring_ascii_case(row.key, key) && row.value == value;
                assert(after.tag_values.contains(row));
            } else {
                let stored = stored_key(before, category, key);
                let row = TagValueView { category, stem, key: stored, value };
                assert(has_normal_value(tags[raw], value));
                assert(after.tag_values.contains(row));
            }
        }
        assert forall|row: TagValueView| #[trigger]
            after.tag_values.contains(row) && row.category == category && row.stem
                == stem implies exists|key: Seq<char>| #[trigger]
            brings(tags, key, row.value) && equal_ignoring_ascii_case(row.key, key) by {
            if !before.tag_values.contains(row) {
                let key = normal_key(raw).unwrap();
                let j = choose|j: int|
                    0 <= j < tags[raw].len() && normal_value(#[trigger] tags[raw][j]) == Some(
                        row.value,
                    );
                assert(tags.contains_key(keys[keys.len() - 1]));
                assert(normal_value(tags[raw][j]) == Some(row.value));
                assert(brings(tags, key, row.value));
                assert(row.key == stored_key(before, category, key));
            }
        }
    }
}

/// A stem that is new and has no tags takes over exactly the tags of the first new or changed file
/// that a scan found with it, under keys that spell those of the file; blank ones are left out.
pub proof fn lemma_sync_takes_over_tags(
    db: DatabaseView,
    category: Category,
    records: Seq<ScanView>,
    now: i64,
    i: int,
    key: Seq<char>,
    value: Seq<char>,
    row: TagValueView,
)
    requires
        distinct_paths(records),
        0 <= i < records.len(),
        records[i].tags.dom().finite(),
        !has_stem(db.files, category, records[i].stem),
        !is_tagged(db, category, records[i].stem),
        !is_unchanged(fingerprints(db, category), records[i]),
        forall|j: int|
            0 <= j < i && (#[trigger] records[j]).stem == records[i].stem ==> is_unchanged(
                fingerprints(db, category),
                records[j],
            ),
    ensures
        ({
            let after = after_sync(db, category, records, now);
            let stem = records[i].stem;
            &&& brings(records[i].tags, key, value) ==> has_value(after, category, stem, key, value)
            &&& after.tag_values.contains(row) && row.category == category && row.stem == stem
                ==> exists|key: Seq<char>| #[trigger]
                brings(records[i].tags, key, row.value) && equal_ignoring_ascii_case(row.key, key)
        }),
{
    let known = fingerprints(db, category);
    let after = after_sync(db, category, records, now);
    let stem = records[i].stem;
    let path = records[i].path;
    let end = sync_steps(sync_start(db, category, now), category, known, records);
    assert(is_scanned(records, path));
    lemma_sync_has_scanned_files(db, category, records, now, path);
    lemma_sync_steps_record(db, category, records, now, i);
    assert(after.files.contains_key(path) && after.files[path].stem == stem);
    assert(has_stem(after.files, category, stem));
    lemma_first_record_tags(db, category, records, now, i);
    if brings(records[i].tags, key, value) {
        assert(has_value(end.db, category, stem, key, value));
        let found = choose|row: TagValueView| #[trigger]
            end.db.tag_values.contains(row) && row.category == category && row.stem == stem
                && equal_ignoring_ascii_case(row.key, key) && row.value == value;
        assert(after.tag_values.contains(found));
    }
    if after.tag_values.contains(row) {
        assert(end.db.tag_values.contains(row));
    }
}

proof fn lemma_first_record_tags(
    db: DatabaseView,
    category: Category,
    records: Seq<ScanView>,
    now: i64,
    i: int,
)
    requires
        0 <= i < records.len(),
        records[i].tags.dom().finite(),
        !has_stem(db.files, category, records[i].stem),
        !is_tagged(db, category, records[i].stem),
        !is_unchanged(fingerprints(db, category), records[i]),
        forall|j: int|
            0 <= j < i && (#[trigger] records[j]).stem == records[i].stem ==> is_unchanged(
                fingerprints(db, category),
                records[j],
            ),
    ensures
        ({
            let known = fingerprints(db, category);
            let state = sync_steps(sync_start(db, category, now), category, known, records);
            let stem = records[i].stem;
            &&& state.stems.contains(stem)
            &&& forall|key: Seq<char>, value: Seq<char>| #[trigger]
                brings(records[i].tags, key, value) ==> has_value(
                    state.db,
                    category,
                    stem,
                    key,
                    value,
                )
            &&& forall|row: TagValueView| #[trigger]
                state.db.tag_values.contains(row) && row.category == category && row.stem == stem
                    ==> exists|key: Seq<char>| #[trigger]
                    brings(records[i].tags, key, row.value) && equal_ignoring_ascii_case(
                        row.key,
                        key,
                    )
        }),
    decreases records.len(),
{
    let known = fingerprints(db, category);
    let front = records.drop_last();
    let start = sync_start(db, category, now);
    let before = sync_steps(start, category, known, front);
    let state = sync_steps(start, category, known, records);
    let record = records.last();
    let stem = records[i].stem;
    let stored = DatabaseView {
        files: before.db.files.insert(
            record.path,
            stored_from(before.db, category, record, before.next as i64),
        ),
        ..before.db
    };
    let keys = text_list(record.tags.dom());
    lemma_with_file_tags(stored, category, record.stem, keys, record.tags);
    if i < front.len() {
        assert(front[i] == records[i]);
        assert forall|j: int|
            0 <= j < i && (#[trigger] front[j]).stem == stem implies is_unchanged(
            known,
            front[j],
        ) by {
            assert(front[j] == records[j]);
        }
        lemma_first_record_tags(db, category, front, now, i);
        assert forall|row: TagValueView| #[trigger]
            before.db.tag_values.contains(row) implies state.db.tag_values.contains(row) by {
            assert(stored.tag_values.contains(row));
        }
        assert forall|key: Seq<char>, value: Seq<char>| #[trigger]
            brings(records[i].tags, key, value) implies has_value(
            state.db,
            category,
            stem,
            key,
            value,
        ) by {
            assert(has_value(before.db, category, stem, key, value));
            let row = choose|row: TagValueView| #[trigger]
                before.db.tag_values.contains(row) && row.category == category && row.stem == stem
                    && equal_ignoring_ascii_case(row.key, key) && row.value == value;
            assert(state.db.tag_values.contains(row));
        }
        assert forall|row: TagValueView| #[trigger]
            state.db.tag_values.contains(row) && row.category == category && row.stem
                == stem implies exists|key: Seq<char>| #[trigger]
            brings(records[i].tags, key, row.value) && equal_ignoring_ascii_case(row.key, key) by {
            assert(before.db.tag_values.contains(row));
        }
    } else {
        lemma_untouched_stem(db, category, front, now, stem);
        assert(!is_tagged(stored, category, stem)) by {
            if is_tagged(stored, category, stem) {
                let row = choose|row: TagValueView| #[trigger]
                    stored.tag_values.contains(row) && row.category == category && row.stem == stem;
                assert(before.db.tag_values.contains(row));
                assert(db.tag_values.contains(row));
            }
        }
        assert forall|k: int| 0 <= k < keys.len() implies record.tags.contains_key(
            #[trigger] keys[k],
        ) by {
            assert(keys.contains(keys[k]));
            lemma_text_list_has(record.tags.dom(), keys[k]);
        }
        lemma_file_tags(stored, category, stem, keys, record.tags);
        assert(state.db == with_file_tags(stored, category, stem, keys, record.tags));
        assert forall|key: Seq<char>, value: Seq<char>| #[trigger]
            brings(records[i].tags, key, value) implies has_value(
            state.db,
            category,
            stem,
            key,
            value,
        ) by {
            let (raw, j) = choose|raw: Seq<char>, j: int|
                record.tags.contains_key(raw) && 0 <= j < record.tags[raw].len() && normal_key(raw)
                    == Some(key) && normal_value(#[trigger] record.tags[raw][j]) == Some(value);
            lemma_text_list_has(record.tags.dom(), raw);
            let k = choose|k: int| 0 <= k < keys.len() && keys[k] == raw;
            assert(normal_value(record.tags[keys[k]][j]) == Some(value));
        }
    }
}

/// A stem that none of the changed files has stays as it is.
proof fn lemma_untouched_stem(
    db: DatabaseView,
    category: Category,
    records: Seq<ScanView>,
    now: i64,
    stem: Seq<char>,
)
    requires
        !has_stem(db.files, category, stem),
        forall|j: int|
            0 <= j < records.len() && (#[trigger] records[j]).stem == stem ==> is_unchanged(
                fingerprints(db, category),
                records[j],
            ),
    ensures
        ({
            let known = fingerprints(db, category);
            let state = sync_steps(sync_start(db, category, now), category, known, records);
            &&& !state.stems.contains(stem)
            &&& forall|row: TagValueView| #[trigger]
                state.db.tag_values.contains(row) && row.category == category && row.stem == stem
                    ==> db.tag_values.contains(row)
        }),
    decreases records.len(),
{
    let known = fingerprints(db, category);
    if records.len() > 0 {
        let front = records.drop_last();
        assert forall|j: int|
            0 <= j < front.len() && (#[trigger] front[j]).stem == stem implies is_unchanged(
            known,
            front[j],
        ) by {
            assert(front[j] == records[j]);
        }
        lemma_untouched_stem(db, category, front, now, stem);
        let before = sync_steps(sync_start(db, category, now), category, known, front);
        let record = records.last();
        assert(records[records.len() - 1] == record);
        let stored = DatabaseView {
            files: before.db.files.insert(
                record.path,
                stored_from(before.db, category, record, before.next as i64),
            ),
            ..before.db
        };
        lemma_with_file_tags(
            stored,
            category,
            record.stem,
            text_list(record.tags.dom()),
            record.tags,
        );
    }
}

} // verus!
