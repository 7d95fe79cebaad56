//! The library's files and database together.
use crate::db::folders::{all_folder_values, with_folder_tags};
use crate::db::query::visible_records;
use crate::db::rows::{lemma_path_order_tells_components, path_order, path_order_of};
use crate::db::schema::schema_of;
use crate::db::settings::{stored_behavior, stored_priority, with_priority, with_setting};
use crate::db::settings::CONVERT_CONFLICT_KEY;
use crate::db::sync::{after_sync, counts_sync, fingerprints, is_scanned, FileScanRecord};
use crate::db::sync::{lemma_sync_has_scanned_files, ScanView, SyncSummary};
use crate::db::tags::{after_add_tag, after_remove_tag, after_rename_stem_value};
use crate::db::tags::{after_rename_value, key_in_use, tags_on, with_copied_tags, with_key};
use crate::db::tags::{lemma_renamed_stem, with_renamed_key, with_renamed_stem, without_key};
use crate::db::waveforms::{at_most, waiting_paths, with_waveform};
use crate::db::{Database, DatabaseView, TagKeyView, TagValueView};
use crate::model::{AudioFormat, Category, ConvertConflictBehavior, FileRecord};
use crate::model::{FolderTagAssignment, WaveformBinary256};
use crate::order::text_list;
use crate::path::{extension_of, is_absolute, joined, lemma_file_in_folder};
use crate::path::{lemma_stem_and_extension, lies_in, name_of, parent_of, parts, stem_of};
use crate::text::{contains_char, last_index, lemma_last_index, lemma_trim_again, same_text};
use crate::text::{trim, trimmed, CharClass};
use crate::text_map::{TextMap, TextSet};
use conversion::{dotted, FileError};
use scanner::{file_stem, stem_or_empty};
use vstd::prelude::*;

pub mod conversion;
pub mod scanner;

verus! {

broadcast use vstd::string::group_string_axioms;

/// A sound to be renamed: its stem and the paths of its files.
#[derive(Debug)]
pub struct RenameRecord {
    pub stem: String,
    pub paths: Vec<String>,
}

/// The mathematical value of a [`RenameRecord`].
#[verifier::ext_equal]
pub ghost struct RenameView {
    pub stem: Seq<char>,
    pub paths: Seq<Seq<char>>,
}

impl DeepView for RenameRecord {
    type V = RenameView;

    open spec fn deep_view(&self) -> RenameView {
        RenameView { stem: self.stem@, paths: self.paths.deep_view() }
    }
}

/// Whether two texts name the same place: they have the same components.
pub open spec fn is_same_path(a: Seq<char>, b: Seq<char>) -> bool {
    path_order(a) == path_order(b)
}

/// Whether one of `paths` names the same place as `path`.
pub open spec fn holds_same(paths: Seq<Seq<char>>, path: Seq<char>) -> bool {
    exists|i: int| 0 <= i < paths.len() && is_same_path(#[trigger] paths[i], path)
}

/// Whether two texts name the same place.
pub fn same_path(a: &str, b: &str) -> (r: bool)
    ensures
        r == is_same_path(a@, b@),
{
    let left = path_order_of(a);
    let right = path_order_of(b);
    if left.len() != right.len() {
        assert(left.deep_view().len() != right.deep_view().len());
        return false;
    }
    let mut i: usize = 0;
    while i < left.len()
        invariant
            i <= left@.len(),
            left@.len() == right@.len(),
            left.deep_view() == path_order(a@),
            right.deep_view() == path_order(b@),
            forall|j: int| 0 <= j < i ==> #[trigger] left.deep_view()[j] == right.deep_view()[j],
        decreases left.len() - i,
    {
        assert(left.deep_view()[i as int] == left@[i as int]@);
        assert(right.deep_view()[i as int] == right@[i as int]@);
        if !same_text(left[i].as_str(), right[i].as_str()) {
            return false;
        }
        i += 1;
    }
    assert(left.deep_view() =~= right.deep_view());
    true
}

/// Whether one of `paths` names the same place as `path`.
pub fn holds_path(paths: &Vec<String>, path: &str) -> (r: bool)
    ensures
        r == holds_same(paths.deep_view(), path@),
{
    let ghost views = paths.deep_view();
    let mut i: usize = 0;
    while i < paths.len()
        invariant
            i <= paths@.len(),
            views == paths.deep_view(),
            forall|j: int| 0 <= j < i ==> !is_same_path(#[trigger] views[j], path@),
        decreases paths.len() - i,
    {
        assert(views[i as int] == paths@[i as int]@);
        if same_path(paths[i].as_str(), path) {
            return true;
        }
        i += 1;
    }
    false
}

/// The paths of `paths` in their order, each place once.
pub open spec fn distinct_places(paths: Seq<Seq<char>>) -> Seq<Seq<char>>
    decreases paths.len(),
{
    if paths.len() == 0 {
        paths
    } else {
        let front = distinct_places(paths.drop_last());
        if holds_same(front, paths.last()) {
            front
        } else {
            front.push(paths.last())
        }
    }
}

/// The paths to be moved to the trash: those of `paths` in their order, each place once.
pub fn trash_paths(paths: Vec<String>) -> (r: Vec<String>)
    ensures
        r.deep_view() == distinct_places(paths.deep_view()),
{
    let ghost views = paths.deep_view();
    let mut out: Vec<String> = Vec::new();
    let mut i: usize = 0;
    assert(views.take(0) =~= seq![]);
    assert(out.deep_view() =~= distinct_places(views.take(0)));
    while i < paths.len()
        invariant
            i <= paths@.len(),
            views == paths.deep_view(),
            out.deep_view() == distinct_places(views.take(i as int)),
        decreases paths.len() - i,
    {
        let ghost before = out.deep_view();
        proof {
            assert(views[i as int] == paths@[i as int]@);
            assert(views.take(i + 1).drop_last() =~= views.take(i as int));
            assert(views.take(i + 1).last() == views[i as int]);
        }
        if !holds_path(&out, paths[i].as_str()) {
            out.push(paths[i].clone());
            assert(out.deep_view() =~= before.push(views[i as int]));
        }
        i += 1;
    }
    assert(views.take(i as int) =~= views);
    out
}

/// The error of a new name, if it cannot be one: it is blank or names another folder.
pub open spec fn name_error(stem: Seq<char>) -> Option<FileError> {
    if trimmed(stem).len() == 0 {
        Some(FileError::EmptyName)
    } else if trimmed(stem).contains('/') || trimmed(stem).contains('\\') {
        Some(FileError::NameWithSeparator)
    } else {
        None
    }
}

/// A new name without white space around it, or why it cannot be one.
pub fn valid_file_stem(stem: &str) -> (r: Result<&str, FileError>)
    ensures
        match r {
            Ok(valid) => name_error(stem@) is None && valid@ == trimmed(stem@),
            Err(error) => name_error(stem@) == Some(error),
        },
{
    let stem = trim(stem);
    if stem.unicode_len() == 0 {
        return Err(FileError::EmptyName);
    }
    if contains_char(stem, '/') || contains_char(stem, '\\') {
        return Err(FileError::NameWithSeparator);
    }
    Ok(stem)
}

/// The path of a file with another stem in the same folder.
pub open spec fn renamed_path(source: Seq<char>, stem: Seq<char>) -> Seq<char> {
    joined(parent_of(source).unwrap(), dotted(stem, extension_of(source).unwrap()))
}

/// The error of a file that cannot get another stem: it has no extension or lies nowhere.
pub open spec fn source_error(source: Seq<char>) -> Option<FileError> {
    if extension_of(source) is None {
        Some(FileError::NoExtension)
    } else if parent_of(source) is None {
        Some(FileError::NoParentFolder)
    } else {
        None
    }
}

/// The paths of the files of all `records`.
pub open spec fn all_paths(records: Seq<RenameView>) -> Seq<Seq<char>>
    decreases records.len(),
{
    if records.len() == 0 {
        seq![]
    } else {
        all_paths(records.drop_last()) + records.last().paths
    }
}

/// The path of the file at `source` with another stem.
pub fn rename_destination(source: &str, stem: &str) -> (r: Result<String, FileError>)
    ensures
        match r {
            Ok(path) => source_error(source@) is None && path@ == renamed_path(source@, stem@),
            Err(error) => source_error(source@) == Some(error),
        },
{
    match crate::path::extension(source) {
        Some(extension) => match crate::path::parent(source) {
            Some(folder) => {
                let mut name = stem.to_owned();
                name.push('.');
                name.append(extension.as_str());
                Ok(crate::path::join(folder.as_str(), name.as_str()))
            },
            None => Err(FileError::NoParentFolder),
        },
        None => Err(FileError::NoExtension),
    }
}

/// A file to be renamed and its new path.
#[derive(Debug)]
pub struct Rename {
    pub source: String,
    pub destination: String,
}

impl DeepView for Rename {
    type V = (Seq<char>, Seq<char>);

    open spec fn deep_view(&self) -> (Seq<char>, Seq<char>) {
        (self.source@, self.destination@)
    }
}

/// Whether the `i`th of `sources` would be renamed to another place.
pub open spec fn moves(sources: Seq<Seq<char>>, stem: Seq<char>, i: int) -> bool {
    !is_same_path(sources[i], renamed_path(sources[i], stem))
}

/// Whether an earlier one of `sources` would be renamed to the place of the `i`th.
pub open spec fn collides(sources: Seq<Seq<char>>, stem: Seq<char>, i: int) -> bool {
    exists|j: int|
        0 <= j < i && #[trigger] moves(sources, stem, j) && is_same_path(
            renamed_path(sources[j], stem),
            renamed_path(sources[i], stem),
        )
}

/// Whether the new place of the `i`th of `sources` is taken by a file that is not renamed itself.
pub open spec fn is_taken(
    sources: Seq<Seq<char>>,
    stem: Seq<char>,
    existing: Seq<Seq<char>>,
    i: int,
) -> bool {
    let destination = renamed_path(sources[i], stem);
    holds_same(existing, destination) && !holds_same(sources, destination)
}

/// Whether the `i`th of `sources` keeps the renaming from being made.
pub open spec fn is_conflict(
    sources: Seq<Seq<char>>,
    stem: Seq<char>,
    existing: Seq<Seq<char>>,
    i: int,
) -> bool {
    moves(sources, stem, i) && (collides(sources, stem, i) || is_taken(sources, stem, existing, i))
}

/// Whether `error` is what the first of `sources` that keeps the renaming from being made gives.
pub open spec fn is_rename_error(
    sources: Seq<Seq<char>>,
    stem: Seq<char>,
    existing: Seq<Seq<char>>,
    error: FileError,
) -> bool {
    ||| exists|i: int|
        0 <= i < sources.len() && source_error(#[trigger] sources[i]) == Some(error) && forall|
            j: int,
        |
            0 <= j < i ==> source_error(#[trigger] sources[j]) is None
    ||| (forall|j: int| 0 <= j < sources.len() ==> source_error(#[trigger] sources[j]) is None)
        && exists|i: int|
        0 <= i < sources.len() && #[trigger] is_conflict(sources, stem, existing, i) && (forall|
            j: int,
        |
            0 <= j < i ==> !#[trigger] is_conflict(sources, stem, existing, j)) && if collides(
            sources,
            stem,
            i,
        ) {
            error matches FileError::DuplicateDestination(path) && path@ == renamed_path(
                sources[i],
                stem,
            )
        } else {
            error matches FileError::DestinationExists(path) && path@ == renamed_path(
                sources[i],
                stem,
            )
        }
}

/// Whether every one of `sources` can be renamed.
pub open spec fn can_rename(
    sources: Seq<Seq<char>>,
    stem: Seq<char>,
    existing: Seq<Seq<char>>,
) -> bool {
    &&& forall|j: int| 0 <= j < sources.len() ==> source_error(#[trigger] sources[j]) is None
    &&& forall|j: int|
        0 <= j < sources.len() ==> !#[trigger] is_conflict(sources, stem, existing, j)
}

/// The renamings to be made: those of `sources` that move.
pub open spec fn renames_of(sources: Seq<Seq<char>>, stem: Seq<char>) -> Seq<
    (Seq<char>, Seq<char>),
>
    decreases sources.len(),
{
    if sources.len() == 0 {
        seq![]
    } else {
        let front = renames_of(sources.drop_last(), stem);
        let source = sources.last();
        if is_same_path(source, renamed_path(source, stem)) {
            front
        } else {
            front.push((source, renamed_path(source, stem)))
        }
    }
}

/// The paths of the files of all `records`.
fn collect_paths(records: &Vec<RenameRecord>) -> (r: Vec<String>)
    ensures
        r.deep_view() == all_paths(records.deep_view()),
{
    let ghost views = records.deep_view();
    let mut out: Vec<String> = Vec::new();
    let mut i: usize = 0;
    assert(out.deep_view() =~= all_paths(views.take(0)));
    while i < records.len()
        invariant
            i <= records@.len(),
            views == records.deep_view(),
            out.deep_view() == all_paths(views.take(i as int)),
        decreases records.len() - i,
    {
        let ghost start = out.deep_view();
        let paths = &records[i].paths;
        let ghost more = paths.deep_view();
        proof {
            assert(views[i as int] == records@[i as int].deep_view());
            assert(views.take(i + 1).drop_last() =~= views.take(i as int));
            assert(views.take(i + 1).last() == views[i as int]);
            assert(start + more.take(0) =~= start);
        }
        let mut n: usize = 0;
        while n < paths.len()
            invariant
                n <= paths@.len(),
                more == paths.deep_view(),
                out.deep_view() == start + more.take(n as int),
            decreases paths.len() - n,
        {
            let ghost before = out.deep_view();
            out.push(paths[n].clone());
            proof {
                assert(more[n as int] == paths@[n as int]@);
                assert(out.deep_view() =~= before.push(more[n as int]));
                assert(out.deep_view() =~= start + more.take(n + 1));
            }
            n += 1;
        }
        assert(more.take(n as int) =~= more);
        i += 1;
    }
    assert(views.take(i as int) =~= views);
    out
}

/// The renamings that give the files of `records` the stem `new_stem`, or why they cannot be made:
/// `existing` holds the paths that are taken.
pub fn plan_renames(records: &Vec<RenameRecord>, new_stem: &str, existing: &Vec<String>) -> (r:
    Result<Vec<Rename>, FileError>)
    ensures
        match r {
            Ok(renames) => {
                &&& name_error(new_stem@) is None
                &&& can_rename(
                    all_paths(records.deep_view()),
                    trimmed(new_stem@),
                    existing.deep_view(),
                )
                &&& renames.deep_view() == renames_of(
                    all_paths(records.deep_view()),
                    trimmed(new_stem@),
                )
            },
            Err(error) => if name_error(new_stem@) is Some {
                name_error(new_stem@) == Some(error)
            } else {
                is_rename_error(
                    all_paths(records.deep_view()),
                    trimmed(new_stem@),
                    existing.deep_view(),
                    error,
                )
            },
        },
{
    let stem = match valid_file_stem(new_stem) {
        Ok(stem) => stem,
        Err(error) => {
            return Err(error);
        },
    };
    let sources = collect_paths(records);
    let ghost views = sources.deep_view();
    let mut destinations: Vec<String> = Vec::new();
    let mut i: usize = 0;
    while i < sources.len()
        invariant
            i <= sources@.len(),
            views == sources.deep_view(),
            views == all_paths(records.deep_view()),
            name_error(new_stem@) is None,
            stem@ == trimmed(new_stem@),
            destinations@.len() == i,
            forall|j: int| 0 <= j < i ==> source_error(#[trigger] views[j]) is None,
            forall|j: int|
                0 <= j < i ==> #[trigger] destinations.deep_view()[j] == renamed_path(
                    views[j],
                    stem@,
                ),
        decreases sources.len() - i,
    {
        assert(views[i as int] == sources@[i as int]@);
        let ghost before = destinations.deep_view();
        match rename_destination(sources[i].as_str(), stem) {
            Ok(path) => {
                destinations.push(path);
                assert(destinations.deep_view() =~= before.push(path@));
            },
            Err(error) => {
                assert(source_error(views[i as int]) == Some(error));
                return Err(error);
            },
        }
        i += 1;
    }
    let ghost targets = destinations.deep_view();
    let mut renames: Vec<Rename> = Vec::new();
    let mut used: Vec<String> = Vec::new();
    let mut i: usize = 0;
    assert(renames.deep_view() =~= renames_of(views.take(0), stem@));
    while i < sources.len()
        invariant
            i <= sources@.len(),
            views == sources.deep_view(),
            views == all_paths(records.deep_view()),
            targets == destinations.deep_view(),
            targets.len() == views.len(),
            name_error(new_stem@) is None,
            stem@ == trimmed(new_stem@),
            forall|j: int| 0 <= j < views.len() ==> source_error(#[trigger] views[j]) is None,
            forall|j: int|
                0 <= j < views.len() ==> #[trigger] targets[j] == renamed_path(views[j], stem@),
            forall|j: int|
                0 <= j < i ==> !#[trigger] is_conflict(views, stem@, existing.deep_view(), j),
            forall|p: Seq<char>| #[trigger]
                holds_same(used.deep_view(), p) <==> exists|j: int|
                    0 <= j < i && #[trigger] moves(views, stem@, j) && is_same_path(
                        renamed_path(views[j], stem@),
                        p,
                    ),
            renames.deep_view() == renames_of(views.take(i as int), stem@),
        decreases sources.len() - i,
    {
        let ghost was_used = used.deep_view();
        let ghost done = renames.deep_view();
        proof {
            assert(views[i as int] == sources@[i as int]@);
            assert(targets[i as int] == destinations@[i as int]@);
            assert(views.take(i + 1).drop_last() =~= views.take(i as int));
            assert(views.take(i + 1).last() == views[i as int]);
        }
        let source = sources[i].as_str();
        let destination = destinations[i].as_str();
        if !same_path(source, destination) {
            if holds_path(&used, destination) {
                assert(collides(views, stem@, i as int));
                assert(is_conflict(views, stem@, existing.deep_view(), i as int));
                return Err(FileError::DuplicateDestination(destination.to_owned()));
            }
            if holds_path(existing, destination) && !holds_path(&sources, destination) {
                assert(!collides(views, stem@, i as int));
                assert(is_conflict(views, stem@, existing.deep_view(), i as int));
                return Err(FileError::DestinationExists(destination.to_owned()));
            }
            used.push(destination.to_owned());
            renames.push(
                Rename { source: source.to_owned(), destination: destination.to_owned() },
            );
            proof {
                assert(used.deep_view() =~= was_used.push(targets[i as int]));
                assert(renames.deep_view() =~= done.push((views[i as int], targets[i as int])));
            }
        }
        proof {
            assert forall|p: Seq<char>| #[trigger]
                holds_same(used.deep_view(), p) <==> exists|j: int|
                    0 <= j < i + 1 && #[trigger] moves(views, stem@, j) && is_same_path(
                        renamed_path(views[j], stem@),
                        p,
                    ) by {
                let now = used.deep_view();
                if holds_same(was_used, p) {
                    let n = choose|n: int|
                        0 <= n < was_used.len() && is_same_path(#[trigger] was_used[n], p);
                    assert(now[n] == was_used[n]);
                    let j = choose|j: int|
                        0 <= j < i && #[trigger] moves(views, stem@, j) && is_same_path(
                            renamed_path(views[j], stem@),
                            p,
                        );
                    assert(moves(views, stem@, j));
                }
                if moves(views, stem@, i as int) && is_same_path(targets[i as int], p) {
                    assert(now[was_used.len() as int] == targets[i as int]);
                }
                if holds_same(now, p) {
                    let n = choose|n: int| 0 <= n < now.len() && is_same_path(#[trigger] now[n], p);
                    if n < was_used.len() {
                        assert(was_used[n] == now[n]);
                        assert(holds_same(was_used, p));
                    } else {
                        assert(moves(views, stem@, i as int));
                    }
                }
                if exists|j: int|
                    0 <= j < i + 1 && #[trigger] moves(views, stem@, j) && is_same_path(
                        renamed_path(views[j], stem@),
                        p,
                    ) {
                    let j = choose|j: int|
                        0 <= j < i + 1 && #[trigger] moves(views, stem@, j) && is_same_path(
                            renamed_path(views[j], stem@),
                            p,
                        );
                    if j < i {
                        assert(holds_same(was_used, p));
                    }
                }
            }
        }
        i += 1;
    }
    assert(views.take(i as int) =~= views);
    Ok(renames)
}

/// A renaming that can be made gives no two files the same place, and puts none in the place of a
/// file that is not renamed itself.
pub proof fn lemma_renames_are_apart(
    sources: Seq<Seq<char>>,
    stem: Seq<char>,
    existing: Seq<Seq<char>>,
    i: int,
    j: int,
)
    requires
        can_rename(sources, stem, existing),
        0 <= i < j < sources.len(),
        moves(sources, stem, i),
        moves(sources, stem, j),
    ensures
        !is_same_path(renamed_path(sources[i], stem), renamed_path(sources[j], stem)),
        holds_same(existing, renamed_path(sources[j], stem)) ==> holds_same(
            sources,
            renamed_path(sources[j], stem),
        ),
{
    assert(!is_conflict(sources, stem, existing, j));
}

/// The database and the folders of the categories.
pub struct Backend {
    pub db: Database,
    pub music_folder: Option<String>,
    pub sfx_folder: Option<String>,
}

/// The mathematical value of a [`Backend`].
#[verifier::ext_equal]
pub ghost struct BackendView {
    pub db: DatabaseView,
    pub folders: Map<Category, Seq<char>>,
}

impl View for Backend {
    type V = BackendView;

    open spec fn view(&self) -> BackendView {
        BackendView {
            db: self.db@,
            folders: Map::new(
                |category: Category|
                    match category {
                        Category::Music => self.music_folder is Some,
                        Category::Sfx => self.sfx_folder is Some,
                    },
                |category: Category|
                    match category {
                        Category::Music => self.music_folder.unwrap()@,
                        Category::Sfx => self.sfx_folder.unwrap()@,
                    },
            ),
        }
    }
}

/// The folder of `category`.
pub open spec fn folder_of(backend: BackendView, category: Category) -> Option<Seq<char>> {
    if backend.folders.contains_key(category) {
        Some(backend.folders[category])
    } else {
        None
    }
}

/// `backend` with another database.
pub open spec fn with_db(backend: BackendView, db: DatabaseView) -> BackendView {
    BackendView { db, ..backend }
}

/// `backend` with `path` as the folder of `category`.
pub open spec fn with_folder(
    backend: BackendView,
    category: Category,
    path: Seq<char>,
) -> BackendView {
    BackendView { folders: backend.folders.insert(category, path), ..backend }
}

/// What a scan of the folder of a category found at a time: whether the folder is there, and its
/// files.
pub struct FolderScan {
    pub folder_is_dir: bool,
    pub records: Vec<FileScanRecord>,
    pub now: i64,
}

/// The mathematical value of a [`FolderScan`].
#[verifier::ext_equal]
pub ghost struct FolderScanView {
    pub folder_is_dir: bool,
    pub records: Seq<ScanView>,
    pub now: i64,
}

impl DeepView for FolderScan {
    type V = FolderScanView;

    open spec fn deep_view(&self) -> FolderScanView {
        FolderScanView {
            folder_is_dir: self.folder_is_dir,
            records: self.records.deep_view(),
            now: self.now,
        }
    }
}

impl FolderScan {
    /// Whether there is a time for each file.
    pub open spec fn fits(self) -> bool {
        self.now + self.records@.len() <= i64::MAX
    }
}

/// The files that a scan found for `category`: none where it has no folder that is there.
pub open spec fn found_in(
    backend: BackendView,
    category: Category,
    scan: FolderScanView,
) -> Seq<ScanView> {
    if folder_of(backend, category) is Some && scan.folder_is_dir {
        scan.records
    } else {
        Seq::<ScanView>::empty()
    }
}

/// `backend` with the files of `category` in line with a scan of its folder.
pub open spec fn after_refresh(
    backend: BackendView,
    category: Category,
    scan: FolderScanView,
) -> BackendView {
    with_db(
        backend,
        after_sync(backend.db, category, found_in(backend, category, scan), scan.now),
    )
}

/// `db` with the values of one key under another one, where both can be keys and differ.
pub open spec fn after_rename_key(
    db: DatabaseView,
    category: Category,
    old_key: Seq<char>,
    new_key: Seq<char>,
) -> DatabaseView {
    match (key_in_use(db, category, old_key), key_in_use(db, category, new_key)) {
        (Some(from), Some(to)) => if from == to {
            db
        } else {
            with_renamed_key(db, category, from, to)
        },
        _ => db,
    }
}

/// The sounds of `category` that `backend` shows for a search and checked tags.
pub open spec fn shown(
    backend: BackendView,
    category: Category,
    search: Seq<char>,
    selected: Map<Seq<char>, Set<Seq<char>>>,
    include_tags: bool,
) -> Seq<crate::model::RecordView> {
    visible_records(
        backend.db,
        category,
        search,
        selected,
        include_tags,
        stored_priority(backend.db),
        folder_of(backend, category),
    )
}

/// `db` with the tags of the stems of `records` on `stem`, one after the other.
pub open spec fn with_renamed_stems(
    db: DatabaseView,
    category: Category,
    records: Seq<RenameView>,
    stem: Seq<char>,
) -> DatabaseView
    decreases records.len(),
{
    if records.len() == 0 {
        db
    } else {
        with_renamed_stem(
            with_renamed_stems(db, category, records.drop_last(), stem),
            category,
            records.last().stem,
            stem,
        )
    }
}

impl Backend {
    /// The tables `db`, and no folders.
    pub fn new(db: Database) -> (r: Backend)
        ensures
            r@ == (BackendView { db: db@, folders: Map::empty() }),
    {
        let r = Backend { db, music_folder: None, sfx_folder: None };
        assert(r@.folders =~= Map::empty());
        r
    }

    /// The folder of `category`.
    pub fn category_folder(&self, category: Category) -> (r: Option<&str>)
        ensures
            r is Some <==> folder_of(self@, category) is Some,
            r matches Some(folder) ==> folder_of(self@, category) == Some(folder@),
    {
        match category {
            Category::Music => match &self.music_folder {
                Some(folder) => Some(folder.as_str()),
                None => None,
            },
            Category::Sfx => match &self.sfx_folder {
                Some(folder) => Some(folder.as_str()),
                None => None,
            },
        }
    }

    /// Keeps `path` as the folder of `category`.
    pub fn remember_category_folder(&mut self, category: Category, path: String)
        ensures
            final(self)@ == with_folder(old(self)@, category, path@),
    {
        let ghost before = self@;
        let ghost text = path@;
        match category {
            Category::Music => {
                self.music_folder = Some(path);
            },
            Category::Sfx => {
                self.sfx_folder = Some(path);
            },
        }
        assert(self@.folders =~= before.folders.insert(category, text));
    }

    /// Brings the files of `category` in line with what a scan of its folder found. A category
    /// without a folder that is there has no files.
    pub fn refresh_category(&mut self, category: Category, scan: FolderScan) -> (r: SyncSummary)
        requires
            scan.fits(),
        ensures
            final(self)@ == after_refresh(old(self)@, category, scan.deep_view()),
            counts_sync(
                r,
                old(self)@.db,
                category,
                found_in(old(self)@, category, scan.deep_view()),
                scan.now,
            ),
    {
        let ghost before = self@;
        if self.category_folder(category).is_some() && scan.folder_is_dir {
            let summary = self.db.sync_category(category, scan.records, scan.now);
            assert(self@.folders =~= before.folders);
            summary
        } else {
            let none: Vec<FileScanRecord> = Vec::new();
            assert(none.deep_view() =~= Seq::<ScanView>::empty());
            let summary = self.db.sync_category(category, none, scan.now);
            assert(self@.folders =~= before.folders);
            summary
        }
    }

    /// Makes `path` the folder of `category` and takes in what a scan of it found.
    pub fn set_category_folder(&mut self, category: Category, path: String, scan: FolderScan)
        requires
            scan.fits(),
        ensures
            final(self)@ == after_refresh(
                with_folder(old(self)@, category, path@),
                category,
                scan.deep_view(),
            ),
    {
        self.remember_category_folder(category, path);
        self.refresh_category(category, scan);
    }

    /// Brings the files of both categories in line with what scans of their folders found.
    pub fn refresh_all(&mut self, music: FolderScan, sfx: FolderScan)
        requires
            music.fits(),
            sfx.fits(),
        ensures
            final(self)@ == after_refresh(
                after_refresh(old(self)@, Category::Music, music.deep_view()),
                Category::Sfx,
                sfx.deep_view(),
            ),
    {
        self.refresh_category(Category::Music, music);
        self.refresh_category(Category::Sfx, sfx);
    }

    /// The sounds of `category` that match a search and checked tags.
    pub fn filter(
        &self,
        category: Category,
        search: &str,
        selected: &TextMap<TextSet>,
    ) -> (r: Vec<FileRecord>)
        ensures
            r.deep_view() == shown(self@, category, search@, selected@, true),
    {
        self.filter_scoped(category, search, selected, true)
    }

    /// The sounds of `category` that match a search, in their tags only where `include_tags` is
    /// set, and checked tags.
    pub fn filter_scoped(
        &self,
        category: Category,
        search: &str,
        selected: &TextMap<TextSet>,
        include_tags: bool,
    ) -> (r: Vec<FileRecord>)
        ensures
            r.deep_view() == shown(self@, category, search@, selected@, include_tags),
    {
        let priority = self.db.format_priority();
        self.db.query_visible_rows_scoped(
            category,
            search,
            selected,
            include_tags,
            priority.as_slice(),
            self.category_folder(category),
        )
    }

    /// The tags that `category` offers, with the values in use.
    pub fn schema_for(&self, category: Category) -> (r: TextMap<Vec<String>>)
        ensures
            r@ == schema_of(self@.db, category),
    {
        self.db.schema_for(category)
    }

    /// Makes `category` offer a key; returns the form in which it is kept.
    pub fn add_tag_key(&mut self, category: Category, key: &str) -> (r: Option<String>)
        ensures
            r is Some <==> key_in_use(old(self)@.db, category, key@) is Some,
            r matches Some(stored) ==> key_in_use(old(self)@.db, category, key@) == Some(stored@)
                && final(self)@ == with_db(old(self)@, with_key(old(self)@.db, category, stored@)),
            r is None ==> final(self)@ == old(self)@,
    {
        let ghost before = self@;
        let r = self.db.add_tag_key(category, key);
        assert(self@.folders =~= before.folders);
        r
    }

    /// Takes a key and its values from `category`; tells whether the category offered it.
    pub fn remove_tag_key(&mut self, category: Category, key: &str) -> (r: bool)
        ensures
            final(self)@ == with_db(
                old(self)@,
                match key_in_use(old(self)@.db, category, key@) {
                    Some(stored) => without_key(old(self)@.db, category, stored),
                    None => old(self)@.db,
                },
            ),
            r == (key_in_use(old(self)@.db, category, key@) matches Some(stored)
                && old(self)@.db.tag_keys.contains(TagKeyView { category, key: stored })),
    {
        let ghost before = self@;
        let r = self.db.remove_tag_key(category, key);
        assert(self@.folders =~= before.folders);
        r
    }

    /// Puts the values of `old_key` under `new_key`, which takes its place, and takes in what a
    /// scan found.
    pub fn rename_tag_key(
        &mut self,
        category: Category,
        old_key: &str,
        new_key: &str,
        scan: FolderScan,
    )
        requires
            scan.fits(),
        ensures
            final(self)@ == after_refresh(
                with_db(
                    old(self)@,
                    after_rename_key(old(self)@.db, category, old_key@, new_key@),
                ),
                category,
                scan.deep_view(),
            ),
    {
        let ghost before = self@;
        self.db.rename_tag_key(category, old_key, new_key);
        assert(self@.folders =~= before.folders);
        self.refresh_category(category, scan);
    }

    /// Puts `value` under `key` on the sound with the file at `path`.
    pub fn add_tag(&mut self, category: Category, path: &str, key: &str, value: &str)
        ensures
            final(self)@ == with_db(
                old(self)@,
                after_add_tag(old(self)@.db, category, stem_or_empty(path@), key@, value@),
            ),
    {
        let ghost before = self@;
        let stem = file_stem(path);
        self.db.add_tag(category, stem.as_str(), key, value);
        assert(self@.folders =~= before.folders);
    }

    /// Takes `value` under `key` off the sound with the file at `path`.
    pub fn remove_tag(&mut self, category: Category, path: &str, key: &str, value: &str)
        ensures
            final(self)@ == with_db(
                old(self)@,
                after_remove_tag(old(self)@.db, category, stem_or_empty(path@), key@, value@),
            ),
    {
        let ghost before = self@;
        let stem = file_stem(path);
        self.db.remove_tag(category, stem.as_str(), key, value);
        assert(self@.folders =~= before.folders);
    }

    /// Replaces `old_value` under `key` by `new_value` on the sound with the file at `path`.
    pub fn rename_tag(
        &mut self,
        category: Category,
        path: &str,
        key: &str,
        old_value: &str,
        new_value: &str,
    )
        ensures
            final(self)@ == with_db(
                old(self)@,
                after_rename_stem_value(
                    old(self)@.db,
                    category,
                    stem_or_empty(path@),
                    key@,
                    old_value@,
                    new_value@,
                ),
            ),
    {
        let ghost before = self@;
        let stem = file_stem(path);
        self.db.rename_stem_tag_value(category, stem.as_str(), key, old_value, new_value);
        assert(self@.folders =~= before.folders);
    }

    /// Puts the tags of `records`, whose files were renamed, on `new_stem`, and takes in what a
    /// scan found; returns how many files `records` have.
    pub fn rename_records(
        &mut self,
        category: Category,
        records: &Vec<RenameRecord>,
        new_stem: &str,
        scan: FolderScan,
    ) -> (r: usize)
        requires
            scan.fits(),
        ensures
            r == all_paths(records.deep_view()).len(),
            final(self)@ == after_refresh(
                with_db(
                    old(self)@,
                    with_renamed_stems(old(self)@.db, category, records.deep_view(), new_stem@),
                ),
                category,
                scan.deep_view(),
            ),
    {
        let ghost before = self@;
        let ghost views = records.deep_view();
        let mut i: usize = 0;
        assert(views.take(0) =~= seq![]);
        while i < records.len()
            invariant
                i <= records@.len(),
                views == records.deep_view(),
                self@ == with_db(
                    before,
                    with_renamed_stems(before.db, category, views.take(i as int), new_stem@),
                ),
            decreases records.len() - i,
        {
            proof {
                assert(views[i as int] == records@[i as int].deep_view());
                assert(views.take(i + 1).drop_last() =~= views.take(i as int));
                assert(views.take(i + 1).last() == views[i as int]);
            }
            self.db.rename_stem_tags(category, records[i].stem.as_str(), new_stem);
            assert(self@.folders =~= before.folders);
            i += 1;
        }
        assert(views.take(i as int) =~= views);
        self.refresh_category(category, scan);
        let paths = collect_paths(records);
        assert(paths@.len() == paths.deep_view().len());
        paths.len()
    }

    /// Puts the tags of the sound with the file at `source_path` on that with the file at
    /// `destination_path`.
    pub fn copy_tags_between_categories(
        &mut self,
        source: Category,
        destination: Category,
        source_path: &str,
        destination_path: &str,
    )
        ensures
            final(self)@ == with_db(
                old(self)@,
                if source == destination {
                    with_renamed_stem(
                        old(self)@.db,
                        source,
                        stem_or_empty(source_path@),
                        stem_or_empty(destination_path@),
                    )
                } else {
                    with_copied_tags(
                        old(self)@.db,
                        tags_on(old(self)@.db, source, stem_or_empty(source_path@)),
                        destination,
                        stem_or_empty(destination_path@),
                    )
                },
            ),
    {
        let ghost before = self@;
        let source_stem = file_stem(source_path);
        let destination_stem = file_stem(destination_path);
        self.db.copy_stem_tags_between_categories(
            source,
            destination,
            source_stem.as_str(),
            destination_stem.as_str(),
        );
        assert(self@.folders =~= before.folders);
    }

    /// Replaces `old_value` under `key` by `new_value` on every sound that has it, and takes in
    /// what a scan found.
    pub fn rename_tag_value(
        &mut self,
        category: Category,
        key: &str,
        old_value: &str,
        new_value: &str,
        scan: FolderScan,
    )
        requires
            scan.fits(),
        ensures
            final(self)@ == after_refresh(
                with_db(
                    old(self)@,
                    after_rename_value(old(self)@.db, category, key@, old_value@, new_value@),
                ),
                category,
                scan.deep_view(),
            ),
    {
        let ghost before = self@;
        self.db.rename_tag_value(category, key, old_value, new_value);
        assert(self@.folders =~= before.folders);
        self.refresh_category(category, scan);
    }

    /// The folder names above the files of `category`, where its folder is there.
    pub fn folder_tag_values(&self, category: Category, folder_is_dir: bool) -> (r: Vec<String>)
        ensures
            r.deep_view() == match folder_of(self@, category) {
                Some(folder) => if folder_is_dir {
                    text_list(all_folder_values(self@.db, category, folder))
                } else {
                    Seq::<Seq<char>>::empty()
                },
                None => Seq::<Seq<char>>::empty(),
            },
    {
        let none: Vec<String> = Vec::new();
        assert(none.deep_view() =~= Seq::<Seq<char>>::empty());
        match self.category_folder(category) {
            Some(folder) => if folder_is_dir {
                self.db.folder_tag_values(category, folder)
            } else {
                none
            },
            None => none,
        }
    }

    /// Gives the folder names above the files of `category` to the assigned keys, where its folder
    /// is there; returns how many tags are new.
    pub fn assign_folder_tags(
        &mut self,
        category: Category,
        folder_is_dir: bool,
        assignments: &Vec<FolderTagAssignment>,
    ) -> (r: usize)
        ensures
            final(self)@ == with_db(
                old(self)@,
                match folder_of(old(self)@, category) {
                    Some(folder) => if folder_is_dir {
                        with_folder_tags(
                            old(self)@.db,
                            category,
                            folder,
                            assignments.deep_view(),
                        )
                    } else {
                        old(self)@.db
                    },
                    None => old(self)@.db,
                },
            ),
            r == final(self)@.db.tag_values.difference(old(self)@.db.tag_values).len(),
    {
        let ghost before = self@;
        let folder: String = match self.category_folder(category) {
            Some(folder) => folder.to_owned(),
            None => {
                assert(before.db.tag_values.difference(before.db.tag_values) =~= Set::empty());
                return 0;
            },
        };
        if !folder_is_dir {
            assert(before.db.tag_values.difference(before.db.tag_values) =~= Set::empty());
            return 0;
        }
        let r = self.db.assign_folder_tags(category, folder.as_str(), assignments);
        assert(self@.folders =~= before.folders);
        r
    }

    /// At most `limit` files without a waveform, those seen first in front.
    pub fn missing_waveform_cache_paths(&self, limit: usize) -> (r: Vec<String>)
        ensures
            r.deep_view() == at_most(waiting_paths(self@.db), limit as nat),
    {
        self.db.missing_waveform_cache_paths(limit)
    }

    /// Keeps `waveform` with the file at `path`.
    pub fn set_preview_waveform(&mut self, path: &str, waveform: WaveformBinary256)
        ensures
            final(self)@ == with_db(
                old(self)@,
                with_waveform(old(self)@.db, path@, Some(waveform)),
            ),
    {
        let ghost before = self@;
        self.db.set_preview_waveform(path, waveform);
        assert(self@.folders =~= before.folders);
    }

    /// Drops the waveform of the file at `path`.
    pub fn clear_preview_waveform(&mut self, path: &str)
        ensures
            final(self)@ == with_db(old(self)@, with_waveform(old(self)@.db, path@, None)),
    {
        let ghost before = self@;
        self.db.clear_preview_waveform(path);
        assert(self@.folders =~= before.folders);
    }

    /// The order of preference among formats.
    pub fn format_priority(&self) -> (r: Vec<AudioFormat>)
        ensures
            r@ == stored_priority(self@.db),
    {
        self.db.format_priority()
    }

    /// Stores an order of preference among formats.
    pub fn set_format_priority(&mut self, priority: Vec<AudioFormat>)
        ensures
            final(self)@ == with_db(old(self)@, with_priority(old(self)@.db, priority@)),
    {
        let ghost before = self@;
        self.db.set_format_priority(priority);
        assert(self@.folders =~= before.folders);
    }

    /// What a conversion does on a conflict.
    pub fn convert_conflict_behavior(&self) -> (r: ConvertConflictBehavior)
        ensures
            r == stored_behavior(self@.db),
    {
        self.db.convert_conflict_behavior()
    }

    /// Stores what a conversion does on a conflict.
    pub fn set_convert_conflict_behavior(&mut self, behavior: ConvertConflictBehavior)
        ensures
            final(self)@ == with_db(
                old(self)@,
                with_setting(old(self)@.db, CONVERT_CONFLICT_KEY@, behavior.key_text()),
            ),
    {
        let ghost before = self@;
        self.db.set_convert_conflict_behavior(behavior);
        assert(self@.folders =~= before.folders);
    }
}

/// Two texts name the same place exactly where they have the same components and both start at the
/// root or neither does, however many separators they are written with.
pub proof fn lemma_same_place(a: Seq<char>, b: Seq<char>)
    ensures
        is_same_path(a, b) <==> is_absolute(a) == is_absolute(b) && parts(a) == parts(b),
        is_same_path(a, a),
        is_same_path(a, b) == is_same_path(b, a),
{
    lemma_path_order_tells_components(a, b);
}

/// A file that gets another stem stays in its folder and keeps its extension.
pub proof fn lemma_renamed_path(source: Seq<char>, stem: Seq<char>)
    requires
        source_error(source) is None,
        name_error(stem) is None,
        stem == trimmed(stem),
        !extension_of(source).unwrap().contains('/'),
        extension_of(source).unwrap().len() > 0,
    ensures
        ({
            let path = renamed_path(source, stem);
            &&& stem_of(path) == Some(stem)
            &&& extension_of(path) == extension_of(source)
            &&& lies_in(path, parent_of(source).unwrap())
        }),
{
    let extension = extension_of(source).unwrap();
    let name = name_of(source).unwrap();
    lemma_last_index(name, '.');
    if extension.contains('.') {
        let k = choose|k: int| 0 <= k < extension.len() && extension[k] == '.';
        assert(name[last_index(name, '.') + 1 + k] == '.');
    }
    let full = dotted(stem, extension);
    lemma_stem_and_extension(parent_of(source).unwrap(), stem, extension, full);
    assert(!full.contains('/')) by {
        if full.contains('/') {
            let i = choose|i: int| 0 <= i < full.len() && full[i] == '/';
            if i < stem.len() {
                assert(stem[i] == '/');
            } else {
                assert(extension[i - stem.len() - 1] == '/');
            }
        }
    }
    lemma_file_in_folder(parent_of(source).unwrap(), full);
}

/// A new name is refused exactly where nothing is left of it without white space, or where a
/// separator of paths is; the former counts first.
pub proof fn lemma_new_names(stem: Seq<char>, c: char)
    ensures
        trimmed(stem).len() == 0 <==> name_error(stem) == Some(FileError::EmptyName),
        trimmed(stem).contains(c) && (c == '/' || c == '\\') ==> name_error(stem) == Some(
            FileError::NameWithSeparator,
        ),
        name_error(stem) == Some(FileError::NameWithSeparator) ==> trimmed(stem).contains('/')
            || trimmed(stem).contains('\\'),
        name_error(trimmed(stem)) == name_error(stem),
{
    lemma_trim_again(stem, CharClass::WhiteSpace);
}

/// Every file of the sounds that are renamed is renamed, except where it keeps its place; nothing
/// else is, and files stay in their order.
pub proof fn lemma_renames_are_complete(sources: Seq<Seq<char>>, stem: Seq<char>)
    ensures
        ({
            let renames = renames_of(sources, stem);
            &&& forall|i: int|
                0 <= i < sources.len() && !is_same_path(
                    #[trigger] sources[i],
                    renamed_path(sources[i], stem),
                ) ==> renames.contains((sources[i], renamed_path(sources[i], stem)))
            &&& forall|k: int|
                0 <= k < renames.len() ==> sources.contains((#[trigger] renames[k]).0)
                    && renames[k].1 == renamed_path(renames[k].0, stem) && !is_same_path(
                    renames[k].0,
                    renames[k].1,
                )
            &&& renames.len() <= sources.len()
            &&& (forall|i: int|
                0 <= i < sources.len() ==> !is_same_path(
                    #[trigger] sources[i],
                    renamed_path(sources[i], stem),
                )) ==> renames == sources.map_values(
                |source: Seq<char>| (source, renamed_path(source, stem)),
            )
        }),
    decreases sources.len(),
{
    if sources.len() > 0 {
        let front = sources.drop_last();
        lemma_renames_are_complete(front, stem);
        let before = renames_of(front, stem);
        let renames = renames_of(sources, stem);
        let last = sources.last();
        assert forall|i: int|
            0 <= i < sources.len() && !is_same_path(
                #[trigger] sources[i],
                renamed_path(sources[i], stem),
            ) implies renames.contains((sources[i], renamed_path(sources[i], stem))) by {
            if i < front.len() {
                assert(front[i] == sources[i]);
                let one = (front[i], renamed_path(front[i], stem));
                let k = choose|k: int| 0 <= k < before.len() && before[k] == one;
                assert(renames[k] == one);
            } else {
                assert(renames[renames.len() - 1] == (last, renamed_path(last, stem)));
            }
        }
        assert forall|k: int| 0 <= k < renames.len() implies sources.contains(
            (#[trigger] renames[k]).0,
        ) && renames[k].1 == renamed_path(renames[k].0, stem) && !is_same_path(
            renames[k].0,
            renames[k].1,
        ) by {
            if k < before.len() {
                assert(renames[k] == before[k]);
                let i = choose|i: int| 0 <= i < front.len() && front[i] == before[k].0;
                assert(sources[i] == before[k].0);
            } else {
                assert(sources[sources.len() - 1] == last);
            }
        }
        if forall|i: int|
            0 <= i < sources.len() ==> !is_same_path(
                #[trigger] sources[i],
                renamed_path(sources[i], stem),
            ) {
            assert forall|i: int| 0 <= i < front.len() implies !is_same_path(
                #[trigger] front[i],
                renamed_path(front[i], stem),
            ) by {
                assert(front[i] == sources[i]);
            }
            assert(!is_same_path(sources[sources.len() - 1], renamed_path(last, stem)));
            assert(renames =~= sources.map_values(
                |source: Seq<char>| (source, renamed_path(source, stem)),
            ));
        }
    } else {
        assert(renames_of(sources, stem) =~= sources.map_values(
            |source: Seq<char>| (source, renamed_path(source, stem)),
        ));
    }
}

/// The files of some sounds are those of each of them, and no others.
pub proof fn lemma_all_paths(records: Seq<RenameView>, path: Seq<char>)
    ensures
        all_paths(records).contains(path) <==> exists|i: int|
            0 <= i < records.len() && (#[trigger] records[i]).paths.contains(path),
        records.len() == 1 ==> all_paths(records) == records[0].paths,
    decreases records.len(),
{
    if records.len() > 0 {
        let front = records.drop_last();
        lemma_all_paths(front, path);
        let head = all_paths(front);
        let tail = records.last().paths;
        let all = all_paths(records);
        if head.contains(path) {
            let k = choose|k: int| 0 <= k < head.len() && head[k] == path;
            assert(all[k] == path);
            let i = choose|i: int| 0 <= i < front.len() && (#[trigger] front[i]).paths.contains(path);
            assert(records[i] == front[i]);
        }
        if tail.contains(path) {
            let k = choose|k: int| 0 <= k < tail.len() && tail[k] == path;
            assert(all[head.len() + k] == path);
            assert(records[records.len() - 1].paths.contains(path));
        }
        if all.contains(path) {
            let k = choose|k: int| 0 <= k < all.len() && all[k] == path;
            if k < head.len() {
                assert(head[k] == path);
            } else {
                assert(tail[k - head.len()] == path);
            }
        }
        if exists|i: int| 0 <= i < records.len() && (#[trigger] records[i]).paths.contains(path) {
            let i = choose|i: int|
                0 <= i < records.len() && (#[trigger] records[i]).paths.contains(path);
            if i < front.len() {
                assert(front[i].paths.contains(path));
            }
        }
        if records.len() == 1 {
            assert(head =~= Seq::<Seq<char>>::empty());
            assert(all =~= tail);
        }
    }
}

/// A category whose folder is not there, or that has none, has no files after a scan; otherwise it
/// has exactly those that the scan found.
pub proof fn lemma_refresh_follows_folder(
    backend: BackendView,
    category: Category,
    scan: FolderScanView,
    path: Seq<char>,
)
    ensures
        fingerprints(after_refresh(backend, category, scan).db, category).contains_key(path)
            <==> scan.folder_is_dir && backend.folders.contains_key(category) && is_scanned(
            scan.records,
            path,
        ),
        after_refresh(backend, category, scan).folders == backend.folders,
{
    lemma_sync_has_scanned_files(
        backend.db,
        category,
        found_in(backend, category, scan),
        scan.now,
        path,
    );
}

/// The tags of every sound that is renamed are on the new stem, and on no other.
pub proof fn lemma_renamed_sounds_keep_tags(
    db: DatabaseView,
    category: Category,
    records: Seq<RenameView>,
    stem: Seq<char>,
    row: TagValueView,
)
    requires
        row.category == category,
    ensures
        ({
            let after = with_renamed_stems(db, category, records, stem);
            &&& row.stem != stem && (exists|i: int|
                0 <= i < records.len() && (#[trigger] records[i]).stem == row.stem)
                ==> !after.tag_values.contains(row)
            &&& row.stem != stem && (forall|i: int|
                0 <= i < records.len() ==> (#[trigger] records[i]).stem != row.stem) ==> (
            after.tag_values.contains(row) <==> db.tag_values.contains(row))
            &&& row.stem == stem ==> (after.tag_values.contains(row) <==> db.tag_values.contains(
                row,
            ) || exists|i: int|
                0 <= i < records.len() && db.tag_values.contains(
                    TagValueView { stem: (#[trigger] records[i]).stem, ..row },
                ))
            &&& after.files == db.files
            &&& after.tag_keys == db.tag_keys
        }),
    decreases records.len(),
{
    if records.len() > 0 {
        let front = records.drop_last();
        let last = records.last();
        let before = with_renamed_stems(db, category, front, stem);
        let after = with_renamed_stems(db, category, records, stem);
        lemma_renamed_sounds_keep_tags(db, category, front, stem, row);
        let from = TagValueView { stem: last.stem, ..row };
        lemma_renamed_sounds_keep_tags(db, category, front, stem, from);
        if last.stem != stem {
            lemma_renamed_stem(before, category, last.stem, stem, row);
        }
        assert forall|i: int| 0 <= i < front.len() implies front[i] == #[trigger] records[i] by {}
        assert(records[records.len() - 1] == last);
        if row.stem == stem {
            if exists|i: int|
                0 <= i < front.len() && db.tag_values.contains(
                    TagValueView { stem: (#[trigger] front[i]).stem, ..row },
                ) {
                let i = choose|i: int|
                    0 <= i < front.len() && db.tag_values.contains(
                        TagValueView { stem: (#[trigger] front[i]).stem, ..row },
                    );
                assert(records[i] == front[i]);
            }
            if exists|i: int|
                0 <= i < records.len() && db.tag_values.contains(
                    TagValueView { stem: (#[trigger] records[i]).stem, ..row },
                ) {
                let i = choose|i: int|
                    0 <= i < records.len() && db.tag_values.contains(
                        TagValueView { stem: (#[trigger] records[i]).stem, ..row },
                    );
                if i < front.len() {
                    assert(front[i] == records[i]);
                } else if last.stem != stem && !before.tag_values.contains(from) {
                    let j = choose|j: int|
                        0 <= j < front.len() && (#[trigger] front[j]).stem == last.stem;
                    assert(db.tag_values.contains(TagValueView { stem: front[j].stem, ..row }));
                }
            }
        } else {
            if exists|i: int| 0 <= i < records.len() && (#[trigger] records[i]).stem == row.stem {
                let i = choose|i: int|
                    0 <= i < records.len() && (#[trigger] records[i]).stem == row.stem;
                if i < front.len() {
                    assert(front[i].stem == row.stem);
                }
            }
        }
    }
}

/// Files can be renamed where each has an extension and a folder, no two get the same place, and none
/// gets the place of a file that is there and is not renamed along.
pub proof fn lemma_free_names_can_be_given(
    sources: Seq<Seq<char>>,
    stem: Seq<char>,
    existing: Seq<Seq<char>>,
)
    requires
        forall|i: int| 0 <= i < sources.len() ==> source_error(#[trigger] sources[i]) is None,
        forall|i: int, j: int|
            0 <= i < j < sources.len() ==> !is_same_path(
                renamed_path(#[trigger] sources[i], stem),
                renamed_path(#[trigger] sources[j], stem),
            ),
        forall|i: int|
            0 <= i < sources.len() && holds_same(
                existing,
                renamed_path(#[trigger] sources[i], stem),
            ) ==> holds_same(sources, renamed_path(sources[i], stem)),
    ensures
        can_rename(sources, stem, existing),
{
    assert forall|i: int| 0 <= i < sources.len() implies !#[trigger] is_conflict(
        sources,
        stem,
        existing,
        i,
    ) by {
        if collides(sources, stem, i) {
            let j = choose|j: int|
                0 <= j < i && #[trigger] moves(sources, stem, j) && is_same_path(
                    renamed_path(sources[j], stem),
                    renamed_path(sources[i], stem),
                );
            assert(!is_same_path(renamed_path(sources[j], stem), renamed_path(sources[i], stem)));
        }
    }
}

/// What the error of a renaming tells is so: a file without an extension or without a folder, a place
/// that two files would get, or one that is taken by a file that is not renamed along.
pub proof fn lemma_rename_error_is_so(
    sources: Seq<Seq<char>>,
    stem: Seq<char>,
    existing: Seq<Seq<char>>,
    error: FileError,
)
    requires
        is_rename_error(sources, stem, existing, error),
    ensures
        !can_rename(sources, stem, existing),
        error is NoExtension ==> exists|i: int|
            0 <= i < sources.len() && extension_of(#[trigger] sources[i]) is None,
        error is NoParentFolder ==> exists|i: int|
            0 <= i < sources.len() && parent_of(#[trigger] sources[i]) is None,
        error matches FileError::DestinationExists(path) ==> holds_same(existing, path@)
            && !holds_same(sources, path@),
        error matches FileError::DuplicateDestination(path) ==> exists|i: int, j: int|
            0 <= i < j < sources.len() && is_same_path(
                renamed_path(#[trigger] sources[i], stem),
                path@,
            ) && renamed_path(#[trigger] sources[j], stem) == path@,
        error is NoExtension || error is NoParentFolder || error is DestinationExists
            || error is DuplicateDestination,
{
    if exists|i: int|
        0 <= i < sources.len() && source_error(#[trigger] sources[i]) == Some(error) && forall|
            j: int,
        |
            0 <= j < i ==> source_error(#[trigger] sources[j]) is None {
        let i = choose|i: int|
            0 <= i < sources.len() && source_error(#[trigger] sources[i]) == Some(error) && forall|
                j: int,
            |
                0 <= j < i ==> source_error(#[trigger] sources[j]) is None;
        assert(source_error(sources[i]) is Some);
    } else {
        let i = choose|i: int|
            0 <= i < sources.len() && #[trigger] is_conflict(sources, stem, existing, i) && (forall|
                j: int,
            |
                0 <= j < i ==> !#[trigger] is_conflict(sources, stem, existing, j)) && if collides(
                sources,
                stem,
                i,
            ) {
                error matches FileError::DuplicateDestination(path) && path@ == renamed_path(
                    sources[i],
                    stem,
                )
            } else {
                error matches FileError::DestinationExists(path) && path@ == renamed_path(
                    sources[i],
                    stem,
                )
            };
        assert(is_conflict(sources, stem, existing, i));
        if collides(sources, stem, i) {
            let j = choose|j: int|
                0 <= j < i && #[trigger] moves(sources, stem, j) && is_same_path(
                    renamed_path(sources[j], stem),
                    renamed_path(sources[i], stem),
                );
            assert(is_same_path(renamed_path(sources[j], stem), renamed_path(sources[i], stem)));
        }
    }
}

} // verus!
