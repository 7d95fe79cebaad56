//! Preview waveforms kept with the files.
use super::{Database, DatabaseView, StoredFile, StoredView};
use crate::model::WaveformBinary256;
use crate::order::{is_ordering, key_lt, lemma_key_order, lemma_ordering_exists};
use crate::order::{lemma_sorted_by_is_ordering, ordering};
use crate::order::{sort_with_keys, text_key, KeyView, SortKey};
use crate::row_set::{lemma_push_contains, lemma_take_contains};
use vstd::prelude::*;

verus! {

broadcast use vstd::string::group_string_axioms;

/// The files without a waveform.
pub open spec fn paths_without_waveform(db: DatabaseView) -> Set<Seq<char>> {
    db.files.dom().filter(|path: Seq<char>| db.files[path].preview_waveform is None)
}

/// The key by which files wait for a waveform: those seen first come first.
pub open spec fn waiting_key(db: DatabaseView, path: Seq<char>) -> KeyView {
    KeyView { rank: db.files[path].first_seen_at as int, parts: seq![path] }
}

/// The files without a waveform, those seen first in front.
pub open spec fn waiting_paths(db: DatabaseView) -> Seq<Seq<char>> {
    ordering(paths_without_waveform(db), |path: Seq<char>| waiting_key(db, path))
}

/// At most `limit` elements from the front of `s`.
pub open spec fn at_most<T>(s: Seq<T>, limit: nat) -> Seq<T> {
    if s.len() <= limit {
        s
    } else {
        s.take(limit as int)
    }
}

/// `db` with another waveform for the file at `path`, where it is known.
pub open spec fn with_waveform(
    db: DatabaseView,
    path: Seq<char>,
    waveform: Option<WaveformBinary256>,
) -> DatabaseView {
    if db.files.contains_key(path) {
        DatabaseView {
            files: db.files.insert(
                path,
                StoredView { preview_waveform: waveform, ..db.files[path] },
            ),
            ..db
        }
    } else {
        db
    }
}

/// `db` without any waveform.
pub open spec fn without_waveforms(db: DatabaseView) -> DatabaseView {
    DatabaseView {
        files: db.files.map_values(
            |stored: StoredView| StoredView { preview_waveform: None, ..stored },
        ),
        ..db
    }
}

impl Database {
    /// At most `limit` files without a waveform, those seen first in front.
    pub fn missing_waveform_cache_paths(&self, limit: usize) -> (r: Vec<String>)
        ensures
            r.deep_view() == at_most(waiting_paths(self@), limit as nat),
    {
        let ghost all = paths_without_waveform(self@);
        let ghost key = |path: Seq<char>| waiting_key(self@, path);
        let total = self.files.len();
        let ghost paths = self.files.keys();
        let mut out: Vec<String> = Vec::new();
        let mut keys: Vec<SortKey> = Vec::new();
        let mut i: usize = 0;
        while i < total
            invariant
                i <= total,
                total == paths.len(),
                paths == self.files.keys(),
                is_ordering(paths, self.files@.dom(), |t: Seq<char>| text_key(t)),
                all == paths_without_waveform(self@),
                key == (|path: Seq<char>| waiting_key(self@, path)),
                keys@.len() == out@.len(),
                forall|j: int| #![trigger out.deep_view()[j]]
                    0 <= j < out@.len() ==> keys@[j]@ == key(out.deep_view()[j]),
                out.deep_view().no_duplicates(),
                forall|p: Seq<char>| #[trigger]
                    out.deep_view().contains(p) <==> all.contains(p) && paths.take(
                        i as int,
                    ).contains(p),
            decreases total - i,
        {
            let path = self.files.key_at(i);
            let stored = self.files.value_at(i);
            let ghost before = out.deep_view();
            let ghost old_keys = keys@;
            proof {
                assert forall|p: Seq<char>| #[trigger]
                    paths.take(i + 1).contains(p) <==> paths.take(i as int).contains(p) || p
                        == path@ by {
                    lemma_take_contains(paths, i as int, p);
                }
                if paths.take(i as int).contains(path@) {
                    let j = choose|j: int| 0 <= j < i && paths.take(i as int)[j] == path@;
                    let text_key_of = |t: Seq<char>| text_key(t);
                    assert(key_lt(text_key_of(paths[j]), text_key_of(paths[i as int])));
                    lemma_key_order(text_key_of(paths[j]), text_key_of(paths[j]));
                }
            }
            if stored.preview_waveform.is_none() {
                let mut parts: Vec<String> = Vec::new();
                parts.push(path.clone());
                assert(parts.deep_view() =~= seq![path@]);
                keys.push(SortKey { rank: stored.first_seen_at as i128, parts });
                out.push(path.clone());
                proof {
                    assert(out.deep_view() =~= before.push(path@));
                    assert forall|p: Seq<char>| #[trigger]
                        out.deep_view().contains(p) <==> before.contains(p) || p == path@ by {
                        lemma_push_contains(before, path@, p);
                    }
                    assert(!before.contains(path@));
                    assert forall|j: int| #![trigger out.deep_view()[j]]
                        0 <= j < out@.len() implies keys@[j]@ == key(out.deep_view()[j]) by {
                        if j < before.len() {
                            assert(out.deep_view()[j] == before[j]);
                            assert(keys@[j] == old_keys[j]);
                        }
                    }
                }
            }
            proof {
                assert forall|p: Seq<char>| #[trigger]
                    out.deep_view().contains(p) <==> all.contains(p) && paths.take(
                        i + 1,
                    ).contains(p) by {
                    assert(before.contains(p) <==> all.contains(p) && paths.take(
                        i as int,
                    ).contains(p));
                }
            }
            i += 1;
        }
        proof {
            assert(paths.take(i as int) =~= paths);
            let q = out.deep_view();
            assert forall|a: int, b: int|
                0 <= a < q.len() && 0 <= b < q.len() && a != b implies #[trigger] key(q[a])
                != #[trigger] key(q[b]) by {
                assert(key(q[a]).parts[0] == q[a]);
                assert(key(q[b]).parts[0] == q[b]);
            }
            assert forall|p: Seq<char>| #[trigger] all.contains(p) <==> q.contains(p) by {
                if all.contains(p) {
                    assert(self.files@.dom().contains(p));
                    assert(paths.contains(p));
                }
            }
            lemma_sorted_by_is_ordering(q, all, key);
        }
        let mut sorted = sort_with_keys(out, keys, Ghost(key));
        let ghost full = sorted.deep_view();
        if limit < sorted.len() {
            sorted.truncate(limit);
            assert(sorted.deep_view() =~= full.take(limit as int));
        }
        sorted
    }

    /// Keeps `waveform` with the file at `path`, where it is known.
    pub fn set_preview_waveform(&mut self, path: &str, waveform: WaveformBinary256)
        ensures
            final(self)@ == with_waveform(old(self)@, path@, Some(waveform)),
    {
        self.put_waveform(path, Some(waveform));
    }

    /// Drops the waveform of the file at `path`.
    pub fn clear_preview_waveform(&mut self, path: &str)
        ensures
            final(self)@ == with_waveform(old(self)@, path@, None),
    {
        self.put_waveform(path, None);
    }

    fn put_waveform(&mut self, path: &str, waveform: Option<WaveformBinary256>)
        ensures
            final(self)@ == with_waveform(old(self)@, path@, waveform),
    {
        let ghost before = self@;
        match self.files.remove(path) {
            Some(stored) => {
                let stored = StoredFile { preview_waveform: waveform, ..stored };
                assert(stored.deep_view() == StoredView {
                    preview_waveform: waveform,
                    ..before.files[path@]
                });
                self.files.insert(path.to_owned(), stored);
                assert(self@.files =~= with_waveform(before, path@, waveform).files);
            },
            None => {
                assert(self@.files =~= before.files);
            },
        }
    }

    /// Drops every waveform.
    pub(crate) fn clear_waveforms(&mut self)
        ensures
            final(self)@ == without_waveforms(old(self)@),
    {
        let ghost before = self@;
        let total = self.files.len();
        let ghost paths = self.files.keys();
        let mut names: Vec<String> = Vec::new();
        let mut i: usize = 0;
        while i < total
            invariant
                i <= total,
                total == paths.len(),
                paths == self.files.keys(),
                names.deep_view() == paths.take(i as int),
            decreases total - i,
        {
            let ghost done = names.deep_view();
            names.push(self.files.key_at(i).clone());
            assert(names.deep_view() =~= done.push(paths[i as int]));
            assert(names.deep_view() =~= paths.take(i + 1));
            i += 1;
        }
        assert(paths.take(i as int) =~= paths);
        let mut i: usize = 0;
        while i < names.len()
            invariant
                i <= names@.len(),
                names.deep_view() == paths,
                self@ == (DatabaseView { files: self@.files, ..before }),
                self@.files.dom() == before.files.dom(),
                forall|p: Seq<char>| #[trigger]
                    before.files.contains_key(p) ==> self@.files[p] == if paths.take(
                        i as int,
                    ).contains(p) {
                        StoredView { preview_waveform: None, ..before.files[p] }
                    } else {
                        before.files[p]
                    },
            decreases names.len() - i,
        {
            let ghost was = self@;
            assert(paths[i as int] == names@[i as int]@);
            self.clear_preview_waveform(names[i].as_str());
            proof {
                assert(self@.files.dom() =~= before.files.dom());
                assert forall|p: Seq<char>| #[trigger]
                    before.files.contains_key(p) implies self@.files[p] == if paths.take(
                    i + 1,
                ).contains(p) {
                    StoredView { preview_waveform: None, ..before.files[p] }
                } else {
                    before.files[p]
                } by {
                    lemma_take_contains(paths, i as int, p);
                }
            }
            i += 1;
        }
        proof {
            assert(paths.take(i as int) =~= paths);
            assert forall|p: Seq<char>| #[trigger] before.files.contains_key(p) implies paths.contains(
                p,
            ) by {
                assert(before.files.dom().contains(p));
            }
            assert(self@.files =~= without_waveforms(before).files);
        }
    }
}

/// A stored waveform is read back, and no other file's waveform changes.
pub proof fn lemma_waveform_round_trip(
    db: DatabaseView,
    path: Seq<char>,
    waveform: WaveformBinary256,
    other: Seq<char>,
)
    requires
        db.files.contains_key(path),
    ensures
        with_waveform(db, path, Some(waveform)).files[path].preview_waveform == Some(waveform),
        !paths_without_waveform(with_waveform(db, path, Some(waveform))).contains(path),
        paths_without_waveform(with_waveform(db, path, None)).contains(path),
        other != path ==> with_waveform(db, path, Some(waveform)).files[other] == db.files[other],
{
}

/// The files that wait for a waveform are those that have none, each once; those seen first are in
/// front, and at most as many as asked for are taken, from the front.
pub proof fn lemma_waiting(db: DatabaseView, path: Seq<char>, limit: nat, i: int, j: int)
    requires
        db.files.dom().finite(),
    ensures
        ({
            let waiting = waiting_paths(db);
            let taken = at_most(waiting, limit);
            &&& waiting.contains(path) <==> db.files.contains_key(path)
                && db.files[path].preview_waveform is None
            &&& 0 <= i < j < waiting.len() ==> waiting[i] != waiting[j]
                && db.files[waiting[i]].first_seen_at <= db.files[waiting[j]].first_seen_at
            &&& taken.len() <= limit
            &&& taken.len() < limit ==> taken == waiting
            &&& taken.is_prefix_of(waiting)
        }),
{
    let key = |path: Seq<char>| waiting_key(db, path);
    let without = paths_without_waveform(db);
    vstd::set_lib::lemma_set_subset_finite(db.files.dom(), without);
    assert forall|x: Seq<char>, y: Seq<char>|
        without.contains(x) && without.contains(y) && #[trigger] key(x)
            == #[trigger] key(y) implies x == y by {
        assert(key(x).parts[0] == x && key(y).parts[0] == y);
    }
    lemma_ordering_exists(without, key);
    let waiting = waiting_paths(db);
    assert(waiting.contains(path) <==> without.contains(path));
    if 0 <= i < j < waiting.len() {
        assert(key_lt(key(waiting[i]), key(waiting[j])));
        lemma_key_order(key(waiting[i]), key(waiting[j]));
    }
}

/// A waveform is kept with a known file alone, and keeping or dropping it changes nothing else; all
/// can be dropped at once.
pub proof fn lemma_waveforms_change_nothing_else(
    db: DatabaseView,
    path: Seq<char>,
    waveform: Option<WaveformBinary256>,
    other: Seq<char>,
)
    ensures
        ({
            let after = with_waveform(db, path, waveform);
            let dropped = without_waveforms(db);
            &&& after.files.dom() == db.files.dom()
            &&& db.files.contains_key(path) ==> after.files[path] == (StoredView {
                preview_waveform: waveform,
                ..db.files[path]
            })
            &&& other != path && db.files.contains_key(other) ==> after.files[other]
                == db.files[other]
            &&& after.tag_keys == db.tag_keys && after.tag_values == db.tag_values && after.settings
                == db.settings
            &&& dropped.files.dom() == db.files.dom()
            &&& db.files.contains_key(other) ==> dropped.files[other] == (StoredView {
                preview_waveform: None,
                ..db.files[other]
            })
            &&& dropped.tag_keys == db.tag_keys && dropped.tag_values == db.tag_values
                && dropped.settings == db.settings
        }),
{
    assert(with_waveform(db, path, waveform).files.dom() =~= db.files.dom());
    assert(without_waveforms(db).files.dom() =~= db.files.dom());
}

} // verus!
