//! Tags from the names of the folders that files lie in.
use super::schema::list_of;
use super::tags::{is_stored_key, key_in_use, lemma_stored_key, spells_key, stored_key};
use super::{Database, DatabaseView, TagKeyView, TagValue, TagValueView};
use crate::model::{lemma_normal_keys_differ, normal_key, AssignmentView, Category};
use crate::model::FolderTagAssignment;
use crate::order::{text_list, text_lt};
use crate::path::{components, is_under, lemma_nothing_between, lies_in, parent, parent_of, parts};
use crate::path::{is_bare_name, lemma_file_in_folder, lemma_parent_parts, lemma_parts_append};
use crate::path::{joined, lemma_under_folder, relative_to, strip_base};
use crate::row_set::lemma_push_contains;
use crate::text::{holds_text, same_text, trim, trimmed};
use crate::text_map::{TextMap, TextSet};
use vstd::prelude::*;

verus! {

broadcast use vstd::string::group_string_axioms;

/// The names among the components `names`, without white space around them, each once.
pub open spec fn folder_names(names: Seq<Seq<char>>) -> Seq<Seq<char>>
    decreases names.len(),
{
    if names.len() == 0 {
        seq![]
    } else {
        let front = folder_names(names.drop_last());
        let name = trimmed(names.last());
        if names.last() == "."@ || names.last() == ".."@ || name.len() == 0 || front.contains(
            name,
        ) {
            front
        } else {
            front.push(name)
        }
    }
}

/// The names of the folders between `folder` and the file at `path`.
pub open spec fn folder_values(folder: Seq<char>, path: Seq<char>) -> Seq<Seq<char>> {
    if is_under(path, folder) {
        match parent_of(relative_to(path, folder)) {
            Some(above) => folder_names(parts(above)),
            None => seq![],
        }
    } else {
        seq![]
    }
}

/// The names of the folders between `category_folder` and the file at `path`.
pub fn folder_tag_values(category_folder: &str, path: &str) -> (r: Vec<String>)
    ensures
        r.deep_view() == folder_values(category_folder@, path@),
{
    let mut values: Vec<String> = Vec::new();
    assert(values.deep_view() =~= seq![]);
    match strip_base(path, category_folder) {
        Some(relative) => {
            match parent(relative.as_str()) {
                Some(above) => {
                    let names = components(above.as_str());
                    let ghost views = names.deep_view();
                    let mut i: usize = 0;
                    assert(views.take(0) =~= seq![]);
                    while i < names.len()
                        invariant
                            i <= names@.len(),
                            views == names.deep_view(),
                            values.deep_view() == folder_names(views.take(i as int)),
                        decreases names.len() - i,
                    {
                        let ghost before = values.deep_view();
                        let name = names[i].as_str();
                        proof {
                            assert(views[i as int] == name@);
                            assert(views.take(i + 1).drop_last() =~= views.take(i as int));
                            assert(views.take(i + 1).last() == name@);
                        }
                        let value = trim(name);
                        if !same_text(name, ".") && !same_text(name, "..") && value.unicode_len()
                            > 0 && !holds_text(&values, value) {
                            values.push(value.to_owned());
                            assert(values.deep_view() =~= before.push(value@));
                        }
                        i += 1;
                    }
                    assert(views.take(i as int) =~= views);
                },
                None => {},
            }
        },
        None => {},
    }
    values
}

/// The folder names above the files of a category.
pub open spec fn all_folder_values(
    db: DatabaseView,
    category: Category,
    folder: Seq<char>,
) -> Set<Seq<char>> {
    Set::new(
        |value: Seq<char>|
            exists|path: Seq<char>| #[trigger]
                db.files.contains_key(path) && db.files[path].category == category
                    && folder_values(folder, path).contains(value),
    )
}

/// The key that `assignments` give to the folder name `value`; the last one that names it counts.
pub open spec fn assigned_key(
    db: DatabaseView,
    category: Category,
    assignments: Seq<AssignmentView>,
    value: Seq<char>,
) -> Option<Seq<char>>
    decreases assignments.len(),
{
    if assignments.len() == 0 {
        None
    } else {
        let last = assignments.last();
        if last.enabled && last.value == value && key_in_use(db, category, last.key) is Some {
            key_in_use(db, category, last.key)
        } else {
            assigned_key(db, category, assignments.drop_last(), value)
        }
    }
}

/// Whether the file at `path` gets the tag `row` from the folders above it.
pub open spec fn row_from_folder(
    db: DatabaseView,
    category: Category,
    folder: Seq<char>,
    assignments: Seq<AssignmentView>,
    path: Seq<char>,
    row: TagValueView,
) -> bool {
    &&& db.files[path].category == category
    &&& row.category == category
    &&& row.stem == db.files[path].stem
    &&& folder_values(folder, path).contains(row.value)
    &&& assigned_key(db, category, assignments, row.value) == Some(row.key)
}

/// `db` after folder names were assigned to keys: the category offers those keys, and its files
/// have the names of the folders above them as tags.
pub open spec fn with_folder_tags(
    db: DatabaseView,
    category: Category,
    folder: Seq<char>,
    assignments: Seq<AssignmentView>,
) -> DatabaseView {
    DatabaseView {
        tag_keys: Set::new(
            |row: TagKeyView|
                db.tag_keys.contains(row) || (row.category == category && exists|
                    value: Seq<char>,
                |
                    #[trigger] assigned_key(db, category, assignments, value) == Some(row.key)),
        ),
        tag_values: Set::new(
            |row: TagValueView|
                db.tag_values.contains(row) || exists|path: Seq<char>| #[trigger]
                    db.files.contains_key(path) && row_from_folder(
                        db,
                        category,
                        folder,
                        assignments,
                        path,
                        row,
                    ),
        ),
        ..db
    }
}

impl Database {
    /// The folder names above the files of `category`, in order.
    pub fn folder_tag_values(&self, category: Category, category_folder: &str) -> (r: Vec<String>)
        ensures
            r.deep_view() == text_list(all_folder_values(self@, category, category_folder@)),
    {
        let mut values = TextSet::new();
        let total = self.files.len();
        let ghost paths = self.files.keys();
        let mut i: usize = 0;
        while i < total
            invariant
                i <= total,
                total == paths.len(),
                paths == self.files.keys(),
                forall|p: Seq<char>| #[trigger]
                    self.files@.dom().contains(p) <==> paths.contains(p),
                forall|v: Seq<char>| #[trigger]
                    values@.contains(v) <==> exists|j: int|
                        0 <= j < i && self.files@[#[trigger] paths[j]].category == category
                            && folder_values(category_folder@, paths[j]).contains(v),
            decreases total - i,
        {
            let path = self.files.key_at(i);
            let ghost before = values@;
            let ghost found = folder_values(category_folder@, paths[i as int]);
            if self.files.value_at(i).category == category {
                let names = folder_tag_values(category_folder, path.as_str());
                let mut n: usize = 0;
                assert(found.take(0) =~= seq![]);
                while n < names.len()
                    invariant
                        n <= names@.len(),
                        names.deep_view() == found,
                        forall|v: Seq<char>| #[trigger]
                            values@.contains(v) <==> before.contains(v) || found.take(
                                n as int,
                            ).contains(v),
                    decreases names.len() - n,
                {
                    assert(found[n as int] == names@[n as int]@);
                    values.insert(names[n].clone());
                    proof {
                        assert(found.take(n + 1) =~= found.take(n as int).push(found[n as int]));
                        assert forall|v: Seq<char>| #[trigger]
                            found.take(n + 1).contains(v) <==> found.take(n as int).contains(v) || v
                                == found[n as int] by {
                            lemma_push_contains(found.take(n as int), found[n as int], v);
                        }
                    }
                    n += 1;
                }
                assert(found.take(n as int) =~= found);
            }
            proof {
                let is_of_category = self.files@[paths[i as int]].category == category;
                assert forall|v: Seq<char>| #[trigger]
                    values@.contains(v) <==> exists|j: int|
                        0 <= j < i + 1 && self.files@[#[trigger] paths[j]].category == category
                            && folder_values(category_folder@, paths[j]).contains(v) by {
                    if before.contains(v) {
                        let j = choose|j: int|
                            0 <= j < i && self.files@[#[trigger] paths[j]].category == category
                                && folder_values(category_folder@, paths[j]).contains(v);
                        assert(self.files@[paths[j]].category == category);
                    }
                    if is_of_category && found.contains(v) {
                        assert(self.files@[paths[i as int]].category == category);
                    }
                    if exists|j: int|
                        0 <= j < i + 1 && self.files@[#[trigger] paths[j]].category == category
                            && folder_values(category_folder@, paths[j]).contains(v) {
                        let j = choose|j: int|
                            0 <= j < i + 1 && self.files@[#[trigger] paths[j]].category == category
                                && folder_values(category_folder@, paths[j]).contains(v);
                        if j < i {
                            assert(before.contains(v));
                        }
                    }
                }
            }
            i += 1;
        }
        proof {
            let all = all_folder_values(self@, category, category_folder@);
            assert forall|v: Seq<char>| #[trigger] values@.contains(v) <==> all.contains(v) by {
                if values@.contains(v) {
                    let j = choose|j: int|
                        0 <= j < i && self.files@[#[trigger] paths[j]].category == category
                            && folder_values(category_folder@, paths[j]).contains(v);
                    assert(paths.contains(paths[j]));
                    assert(self.files@.dom().contains(paths[j]));
                }
                if all.contains(v) {
                    let path = choose|path: Seq<char>| #[trigger]
                        self@.files.contains_key(path) && self@.files[path].category == category
                            && folder_values(category_folder@, path).contains(v);
                    assert(self.files@.dom().contains(path));
                    let j = choose|j: int| 0 <= j < paths.len() && paths[j] == path;
                    assert(self.files@[paths[j]].category == category);
                }
            }
            assert(values@ =~= all);
        }
        list_of(&values)
    }

    /// The keys that the enabled assignments give to folder names.
    fn assigned_keys(
        &self,
        category: Category,
        assignments: &Vec<FolderTagAssignment>,
    ) -> (r: TextMap<String>)
        ensures
            forall|v: Seq<char>| #[trigger]
                r@.contains_key(v) <==> assigned_key(
                    self@,
                    category,
                    assignments.deep_view(),
                    v,
                ) is Some,
            forall|v: Seq<char>| #[trigger]
                r@.contains_key(v) ==> assigned_key(self@, category, assignments.deep_view(), v)
                    == Some(r@[v]),
    {
        let ghost views = assignments.deep_view();
        let mut keys: TextMap<String> = TextMap::new();
        let mut i: usize = 0;
        assert(views.take(0) =~= seq![]);
        while i < assignments.len()
            invariant
                i <= assignments@.len(),
                views == assignments.deep_view(),
                forall|v: Seq<char>| #[trigger]
                    keys@.contains_key(v) <==> assigned_key(
                        self@,
                        category,
                        views.take(i as int),
                        v,
                    ) is Some,
                forall|v: Seq<char>| #[trigger]
                    keys@.contains_key(v) ==> assigned_key(
                        self@,
                        category,
                        views.take(i as int),
                        v,
                    ) == Some(keys@[v]),
            decreases assignments.len() - i,
        {
            let assignment = &assignments[i];
            proof {
                assert(views[i as int] == assignment.deep_view());
                assert(views.take(i + 1).drop_last() =~= views.take(i as int));
                assert(views.take(i + 1).last() == views[i as int]);
            }
            if assignment.enabled {
                match self.canonical_tag_key(category, assignment.key.as_str()) {
                    Some(key) => {
                        keys.insert(assignment.value.clone(), key);
                    },
                    None => {},
                }
            }
            i += 1;
        }
        assert(views.take(i as int) =~= views);
        keys
    }

    /// Gives the folder names above the files of `category` to the assigned keys; returns how many
    /// tags are new.
    pub fn assign_folder_tags(
        &mut self,
        category: Category,
        category_folder: &str,
        assignments: &Vec<FolderTagAssignment>,
    ) -> (r: usize)
        ensures
            final(self)@ == with_folder_tags(
                old(self)@,
                category,
                category_folder@,
                assignments.deep_view(),
            ),
            r == final(self)@.tag_values.difference(old(self)@.tag_values).len(),
    {
        let ghost before = self@;
        let ghost wanted = with_folder_tags(
            before,
            category,
            category_folder@,
            assignments.deep_view(),
        );
        let keys = self.assigned_keys(category, assignments);
        let rows_before = self.tag_values.len();
        self.ensure_assigned_keys(category, &keys);
        proof {
            let offered = self@.tag_keys;
            assert forall|row: TagKeyView| #[trigger]
                offered.contains(row) <==> wanted.tag_keys.contains(row) by {
                if offered.contains(row) && !before.tag_keys.contains(row) {
                    let v = choose|v: Seq<char>| #[trigger]
                        keys@.contains_key(v) && keys@[v] == row.key;
                    assert(assigned_key(before, category, assignments.deep_view(), v) == Some(
                        row.key,
                    ));
                }
                if wanted.tag_keys.contains(row) && !before.tag_keys.contains(row) {
                    let v = choose|v: Seq<char>| #[trigger]
                        assigned_key(before, category, assignments.deep_view(), v) == Some(row.key);
                    assert(keys@.contains_key(v));
                }
            }
            assert(offered =~= wanted.tag_keys);
        }
        let total = self.files.len();
        let ghost paths = self.files.keys();
        let mut i: usize = 0;
        while i < total
            invariant
                i <= total,
                total == paths.len(),
                paths == self.files.keys(),
                self@.files == before.files,
                self@.settings == before.settings,
                self@.tag_keys == wanted.tag_keys,
                forall|v: Seq<char>| #[trigger]
                    keys@.contains_key(v) <==> assigned_key(
                        before,
                        category,
                        assignments.deep_view(),
                        v,
                    ) is Some,
                forall|v: Seq<char>| #[trigger]
                    keys@.contains_key(v) ==> assigned_key(
                        before,
                        category,
                        assignments.deep_view(),
                        v,
                    ) == Some(keys@[v]),
                forall|row: TagValueView| #[trigger]
                    self@.tag_values.contains(row) <==> before.tag_values.contains(row) || exists|
                        j: int,
                    |
                        0 <= j < i && row_from_folder(
                            before,
                            category,
                            category_folder@,
                            assignments.deep_view(),
                            #[trigger] paths[j],
                            row,
                        ),
            decreases total - i,
        {
            let ghost was = self@;
            let path = self.files.key_at(i).clone();
            let stored = self.files.value_at(i);
            let in_category = stored.category == category;
            let stem = stored.stem.clone();
            if in_category {
                let values = folder_tag_values(category_folder, path.as_str());
                self.add_assigned(category, stem.as_str(), &values, &keys);
            }
            proof {
                assert forall|row: TagValueView| #[trigger]
                    self@.tag_values.contains(row) <==> before.tag_values.contains(row) || exists|
                        j: int,
                    |
                        0 <= j < i + 1 && row_from_folder(
                            before,
                            category,
                            category_folder@,
                            assignments.deep_view(),
                            #[trigger] paths[j],
                            row,
                        ) by {
                    let from_here = row_from_folder(
                        before,
                        category,
                        category_folder@,
                        assignments.deep_view(),
                        paths[i as int],
                        row,
                    );
                    assert(keys@.contains_key(row.value) <==> assigned_key(
                        before,
                        category,
                        assignments.deep_view(),
                        row.value,
                    ) is Some);
                    assert(self@.tag_values.contains(row) <==> was.tag_values.contains(row)
                        || from_here);
                    if was.tag_values.contains(row) && !before.tag_values.contains(row) {
                        let j = choose|j: int|
                            0 <= j < i && row_from_folder(
                                before,
                                category,
                                category_folder@,
                                assignments.deep_view(),
                                #[trigger] paths[j],
                                row,
                            );
                        assert(0 <= j < i + 1);
                    }
                    if from_here {
                        assert(0 <= i < i + 1);
                    }
                }
            }
            i += 1;
        }
        proof {
            assert forall|row: TagValueView| #[trigger]
                self@.tag_values.contains(row) <==> wanted.tag_values.contains(row) by {
                if self@.tag_values.contains(row) && !before.tag_values.contains(row) {
                    let j = choose|j: int|
                        0 <= j < i && row_from_folder(
                            before,
                            category,
                            category_folder@,
                            assignments.deep_view(),
                            #[trigger] paths[j],
                            row,
                        );
                    assert(paths.contains(paths[j]));
                    assert(before.files.dom().contains(paths[j]));
                    assert(before.files.contains_key(paths[j]));
                }
                if wanted.tag_values.contains(row) && !before.tag_values.contains(row) {
                    let path = choose|path: Seq<char>| #[trigger]
                        before.files.contains_key(path) && row_from_folder(
                            before,
                            category,
                            category_folder@,
                            assignments.deep_view(),
                            path,
                            row,
                        );
                    assert(self.files@.dom().contains(path));
                    assert(paths.contains(path));
                    let j = choose|j: int| 0 <= j < paths.len() && paths[j] == path;
                    assert(row_from_folder(
                        before,
                        category,
                        category_folder@,
                        assignments.deep_view(),
                        paths[j],
                        row,
                    ));
                }
            }
            assert(self@.tag_values =~= wanted.tag_values);
        }
        let rows_after = self.tag_values.len();
        proof {
            let new = self@.tag_values;
            let old_rows = before.tag_values;
            vstd::set_lib::lemma_set_difference_len(new, old_rows);
            assert(new.intersect(old_rows) =~= old_rows);
            assert(new.union(old_rows) =~= new);
            assert(old_rows.difference(new) =~= Set::empty());
            assert(old_rows.subset_of(new));
        }
        rows_after - rows_before
    }

    /// Makes `category` offer the keys in `keys`.
    fn ensure_assigned_keys(&mut self, category: Category, keys: &TextMap<String>)
        ensures
            final(self)@ == (DatabaseView { tag_keys: final(self)@.tag_keys, ..old(self)@ }),
            forall|row: TagKeyView| #[trigger]
                final(self)@.tag_keys.contains(row) <==> old(self)@.tag_keys.contains(row) || (
                row.category == category && exists|v: Seq<char>| #[trigger]
                    keys@.contains_key(v) && keys@[v] == row.key),
    {
        let ghost before = self@;
        let total = keys.len();
        let ghost names = keys.keys();
        let mut i: usize = 0;
        while i < total
            invariant
                i <= total,
                total == names.len(),
                names == keys.keys(),
                forall|v: Seq<char>| #[trigger] keys@.dom().contains(v) <==> names.contains(v),
                self@ == (DatabaseView { tag_keys: self@.tag_keys, ..before }),
                forall|row: TagKeyView| #[trigger]
                    self@.tag_keys.contains(row) <==> before.tag_keys.contains(row) || (row.category
                        == category && exists|j: int|
                        0 <= j < i && keys@[#[trigger] names[j]] == row.key),
            decreases total - i,
        {
            let ghost was = self@;
            let key = keys.value_at(i);
            self.ensure_tag_key(category, key.as_str());
            proof {
                assert forall|row: TagKeyView| #[trigger]
                    self@.tag_keys.contains(row) <==> before.tag_keys.contains(row) || (row.category
                        == category && exists|j: int|
                        0 <= j < i + 1 && keys@[#[trigger] names[j]] == row.key) by {
                    if was.tag_keys.contains(row) && !before.tag_keys.contains(row) {
                        let j = choose|j: int| 0 <= j < i && keys@[#[trigger] names[j]] == row.key;
                        assert(keys@[names[j]] == row.key);
                    }
                    assert(keys@[names[i as int]] == key@);
                }
            }
            i += 1;
        }
        proof {
            assert forall|row: TagKeyView| #[trigger]
                self@.tag_keys.contains(row) <==> before.tag_keys.contains(row) || (row.category
                    == category && exists|v: Seq<char>| #[trigger]
                    keys@.contains_key(v) && keys@[v] == row.key) by {
                if exists|v: Seq<char>| #[trigger] keys@.contains_key(v) && keys@[v] == row.key {
                    let v = choose|v: Seq<char>| #[trigger]
                        keys@.contains_key(v) && keys@[v] == row.key;
                    assert(keys@.dom().contains(v));
                    let j = choose|j: int| 0 <= j < names.len() && names[j] == v;
                    assert(keys@[names[j]] == row.key);
                }
                if exists|j: int| 0 <= j < i && keys@[#[trigger] names[j]] == row.key {
                    let j = choose|j: int| 0 <= j < i && keys@[#[trigger] names[j]] == row.key;
                    assert(names.contains(names[j]));
                    assert(keys@.dom().contains(names[j]));
                    assert(keys@.contains_key(names[j]));
                }
            }
        }
    }

    /// Puts those of `values` that have a key in `keys` under it on the stem `stem`.
    fn add_assigned(
        &mut self,
        category: Category,
        stem: &str,
        values: &Vec<String>,
        keys: &TextMap<String>,
    )
        ensures
            final(self)@ == (DatabaseView { tag_values: final(self)@.tag_values, ..old(self)@ }),
            final(self).files == old(self).files,
            forall|row: TagValueView| #[trigger]
                final(self)@.tag_values.contains(row) <==> old(self)@.tag_values.contains(row) || (
                row.category == category && row.stem == stem@ && values.deep_view().contains(
                    row.value,
                ) && keys@.contains_key(row.value) && keys@[row.value] == row.key),
    {
        let ghost before = self@;
        let ghost views = values.deep_view();
        let mut n: usize = 0;
        while n < values.len()
            invariant
                n <= values@.len(),
                views == values.deep_view(),
                self@ == (DatabaseView { tag_values: self@.tag_values, ..before }),
                self.files == old(self).files,
                forall|row: TagValueView| #[trigger]
                    self@.tag_values.contains(row) <==> before.tag_values.contains(row) || (
                    row.category == category && row.stem == stem@ && views.take(n as int).contains(
                        row.value,
                    ) && keys@.contains_key(row.value) && keys@[row.value] == row.key),
            decreases values.len() - n,
        {
            let ghost was = self@;
            assert(views[n as int] == values@[n as int]@);
            match keys.get(values[n].as_str()) {
                Some(key) => {
                    let row = TagValue {
                        category,
                        stem: stem.to_owned(),
                        key: key.clone(),
                        value: values[n].clone(),
                    };
                    let ghost new_row = row.deep_view();
                    assert(new_row == TagValueView {
                        category,
                        stem: stem@,
                        key: keys@[views[n as int]],
                        value: views[n as int],
                    });
                    self.tag_values.insert(row);
                    assert(self@.tag_values == was.tag_values.insert(new_row));
                },
                None => {},
            }
            proof {
                assert forall|row: TagValueView| #[trigger]
                    self@.tag_values.contains(row) <==> before.tag_values.contains(row) || (
                    row.category == category && row.stem == stem@ && views.take(n + 1).contains(
                        row.value,
                    ) && keys@.contains_key(row.value) && keys@[row.value] == row.key) by {
                    assert(views.take(n + 1) =~= views.take(n as int).push(views[n as int]));
                    lemma_push_contains(views.take(n as int), views[n as int], row.value);
                    assert(was.tag_values.contains(row) <==> before.tag_values.contains(row) || (
                    row.category == category && row.stem == stem@ && views.take(n as int).contains(
                        row.value,
                    ) && keys@.contains_key(row.value) && keys@[row.value] == row.key));
                }
            }
            n += 1;
        }
        assert(views.take(n as int) =~= views);
    }
}

/// A file that lies in the folder of the category itself has no folder name above it, so no tag
/// comes from it.
pub proof fn lemma_file_in_folder_gives_none(
    db: DatabaseView,
    category: Category,
    folder: Seq<char>,
    assignments: Seq<AssignmentView>,
    path: Seq<char>,
    row: TagValueView,
)
    requires
        lies_in(path, folder),
    ensures
        folder_values(folder, path) == Seq::<Seq<char>>::empty(),
        !row_from_folder(db, category, folder, assignments, path, row),
{
    lemma_nothing_between(path, folder);
    assert(parts(Seq::<char>::empty()) =~= Seq::<Seq<char>>::empty());
    assert(folder_values(folder, path) =~= Seq::<Seq<char>>::empty());
}

/// Whether an assignment that is switched on gives `value` to the key under which `row` stands.
pub open spec fn is_assigned(
    db: DatabaseView,
    category: Category,
    assignments: Seq<AssignmentView>,
    row: TagValueView,
) -> bool {
    exists|i: int|
        0 <= i < assignments.len() && (#[trigger] assignments[i]).enabled && assignments[i].value
            == row.value && key_in_use(db, category, assignments[i].key) == Some(row.key)
}

/// Assigning folder names to keys removes no tag and no key and leaves the files as they are. Each
/// new tag comes from an assignment that is switched on and from a file of the category that does
/// not lie in the category's folder itself.
pub proof fn lemma_folder_tags_only_add(
    db: DatabaseView,
    category: Category,
    folder: Seq<char>,
    assignments: Seq<AssignmentView>,
    row: TagValueView,
)
    ensures
        ({
            let after = with_folder_tags(db, category, folder, assignments);
            &&& db.tag_values.subset_of(after.tag_values)
            &&& db.tag_keys.subset_of(after.tag_keys)
            &&& after.files == db.files
            &&& after.tag_values.contains(row) && !db.tag_values.contains(row) ==> {
                &&& row.category == category
                &&& is_assigned(db, category, assignments, row)
                &&& exists|path: Seq<char>| #[trigger]
                    db.files.contains_key(path) && db.files[path].category == category
                        && db.files[path].stem == row.stem && folder_values(folder, path).contains(
                        row.value,
                    ) && !lies_in(path, folder)
            }
        }),
{
    let after = with_folder_tags(db, category, folder, assignments);
    if after.tag_values.contains(row) && !db.tag_values.contains(row) {
        let path = choose|path: Seq<char>| #[trigger]
            db.files.contains_key(path) && row_from_folder(
                db,
                category,
                folder,
                assignments,
                path,
                row,
            );
        if lies_in(path, folder) {
            lemma_file_in_folder_gives_none(db, category, folder, assignments, path, row);
        }
        let i = lemma_assigned_key(db, category, assignments, row.value);
        assert(is_assigned(db, category, assignments, row));
    }
}

/// Assignments that are switched off change nothing.
pub proof fn lemma_switched_off_adds_nothing(
    db: DatabaseView,
    category: Category,
    folder: Seq<char>,
    assignments: Seq<AssignmentView>,
)
    ensures
        with_folder_tags(db, category, folder, assignments) == with_folder_tags(
            db,
            category,
            folder,
            assignments.filter(|one: AssignmentView| one.enabled),
        ),
{
    let on = assignments.filter(|one: AssignmentView| one.enabled);
    assert forall|value: Seq<char>| #[trigger]
        assigned_key(db, category, assignments, value) == assigned_key(
            db,
            category,
            on,
            value,
        ) by {
        lemma_switched_off(db, category, assignments, value);
    }
    let left = with_folder_tags(db, category, folder, assignments);
    let right = with_folder_tags(db, category, folder, on);
    assert(left.tag_keys =~= right.tag_keys) by {
        assert forall|row: TagKeyView| #[trigger]
            left.tag_keys.contains(row) <==> right.tag_keys.contains(row) by {
            if right.tag_keys.contains(row) && !db.tag_keys.contains(row) {
                let value = choose|value: Seq<char>| #[trigger]
                    assigned_key(db, category, on, value) == Some(row.key);
                assert(assigned_key(db, category, assignments, value) == Some(row.key));
            }
        }
    }
    assert(left.tag_values =~= right.tag_values) by {
        assert forall|row: TagValueView| #[trigger]
            left.tag_values.contains(row) <==> right.tag_values.contains(row) by {
            assert forall|path: Seq<char>|
                row_from_folder(db, category, folder, assignments, path, row)
                    == row_from_folder(db, category, folder, on, path, row) by {
                assert(assigned_key(db, category, assignments, row.value) == assigned_key(
                    db,
                    category,
                    on,
                    row.value,
                ));
            }
        }
    }
}

/// Assignments that are switched off give no key to a folder name.
proof fn lemma_switched_off(
    db: DatabaseView,
    category: Category,
    assignments: Seq<AssignmentView>,
    value: Seq<char>,
)
    ensures
        assigned_key(db, category, assignments, value) == assigned_key(
            db,
            category,
            assignments.filter(|one: AssignmentView| one.enabled),
            value,
        ),
    decreases assignments.len(),
{
    reveal(Seq::filter);
    let is_on = |one: AssignmentView| one.enabled;
    if assignments.len() > 0 {
        let front = assignments.drop_last();
        lemma_switched_off(db, category, front, value);
        if assignments.last().enabled {
            let on = assignments.filter(is_on);
            assert(on =~= front.filter(is_on).push(assignments.last()));
            assert(on.drop_last() =~= front.filter(is_on));
        }
    }
}

/// Assigning folder names to keys once more adds no tag and changes nothing.
pub proof fn lemma_folder_tags_twice(
    db: DatabaseView,
    category: Category,
    folder: Seq<char>,
    assignments: Seq<AssignmentView>,
)
    ensures
        with_folder_tags(
            with_folder_tags(db, category, folder, assignments),
            category,
            folder,
            assignments,
        ) == with_folder_tags(db, category, folder, assignments),
        ({
            let once = with_folder_tags(db, category, folder, assignments);
            let twice = with_folder_tags(once, category, folder, assignments);
            twice.tag_values.difference(once.tag_values).len() == 0
        }),
{
    let once = with_folder_tags(db, category, folder, assignments);
    assert forall|value: Seq<char>| #[trigger]
        assigned_key(once, category, assignments, value) == assigned_key(
            db,
            category,
            assignments,
            value,
        ) by {
        lemma_assigned_key_again(db, category, folder, assignments, assignments, value);
    }
    let twice = with_folder_tags(once, category, folder, assignments);
    assert(twice.tag_keys =~= once.tag_keys);
    assert forall|r: TagValueView| #[trigger]
        twice.tag_values.contains(r) <==> once.tag_values.contains(r) by {
        if twice.tag_values.contains(r) && !once.tag_values.contains(r) {
            let path = choose|path: Seq<char>| #[trigger]
                once.files.contains_key(path) && row_from_folder(
                    once,
                    category,
                    folder,
                    assignments,
                    path,
                    r,
                );
            assert(db.files.contains_key(path));
            assert(row_from_folder(db, category, folder, assignments, path, r));
        }
    }
    assert(twice.tag_values =~= once.tag_values);
    assert(twice.tag_values.difference(once.tag_values) =~= Set::<TagValueView>::empty());
}

/// An assigned key is the stored form of the key of one of the assignments.
proof fn lemma_assigned_key(
    db: DatabaseView,
    category: Category,
    assignments: Seq<AssignmentView>,
    value: Seq<char>,
) -> (i: int)
    requires
        assigned_key(db, category, assignments, value) is Some,
    ensures
        0 <= i < assignments.len(),
        assignments[i].enabled,
        assignments[i].value == value,
        assigned_key(db, category, assignments, value) == key_in_use(
            db,
            category,
            assignments[i].key,
        ),
    decreases assignments.len(),
{
    let last = assignments.last();
    if last.enabled && last.value == value && key_in_use(db, category, last.key) is Some {
        assignments.len() - 1
    } else {
        let i = lemma_assigned_key(db, category, assignments.drop_last(), value);
        assert(assignments.drop_last()[i] == assignments[i]);
        i
    }
}

/// Offering the assigned keys does not change which key is used for one of them.
proof fn lemma_key_in_use_again(
    db: DatabaseView,
    category: Category,
    folder: Seq<char>,
    assignments: Seq<AssignmentView>,
    i: int,
)
    requires
        0 <= i < assignments.len(),
    ensures
        key_in_use(
            with_folder_tags(db, category, folder, assignments),
            category,
            assignments[i].key,
        ) == key_in_use(db, category, assignments[i].key),
{
    let once = with_folder_tags(db, category, folder, assignments);
    let key = assignments[i].key;
    if normal_key(key) is Some {
        let normal = normal_key(key).unwrap();
        // A key that is new and spells this one is this one, and was not spelled before.
        assert forall|other: Seq<char>| #[trigger]
            spells_key(once, category, normal, other) implies spells_key(
            db,
            category,
            normal,
            other,
        ) || (other == normal && stored_key(db, category, normal) == normal) by {
            if !spells_key(db, category, normal, other) {
                let value = choose|value: Seq<char>| #[trigger]
                    assigned_key(db, category, assignments, value) == Some(other);
                let j = lemma_assigned_key(db, category, assignments, value);
                let second = normal_key(assignments[j].key).unwrap();
                assert(other == stored_key(db, category, second));
                if exists|stored: Seq<char>| is_stored_key(db, category, second, stored) {
                    let stored = choose|stored: Seq<char>|
                        is_stored_key(db, category, second, stored);
                    assert(spells_key(db, category, normal, stored));
                }
                assert(other == second);
                lemma_normal_keys_differ(key, assignments[j].key);
                assert(second == normal);
            }
        }
        assert forall|other: Seq<char>| spells_key(db, category, normal, other) implies spells_key(
            once,
            category,
            normal,
            other,
        ) by {}
        if exists|stored: Seq<char>| is_stored_key(db, category, normal, stored) {
            let stored = choose|stored: Seq<char>| is_stored_key(db, category, normal, stored);
            assert forall|other: Seq<char>| #[trigger]
                spells_key(once, category, normal, other) implies other == stored || text_lt(
                stored,
                other,
            ) by {
                if !spells_key(db, category, normal, other) {
                    assert(other == normal);
                }
            }
            assert(is_stored_key(once, category, normal, stored));
            lemma_stored_key(once, category, normal, stored);
            lemma_stored_key(db, category, normal, stored);
        } else if exists|stored: Seq<char>| is_stored_key(once, category, normal, stored) {
            let stored = choose|stored: Seq<char>| is_stored_key(once, category, normal, stored);
            lemma_stored_key(once, category, normal, stored);
            if stored != normal {
                assert(spells_key(db, category, normal, stored));
                assert(is_stored_key(db, category, normal, stored));
            }
        }
    }
}

/// Offering the assigned keys does not change which key a folder name is assigned to.
proof fn lemma_assigned_key_again(
    db: DatabaseView,
    category: Category,
    folder: Seq<char>,
    assignments: Seq<AssignmentView>,
    front: Seq<AssignmentView>,
    value: Seq<char>,
)
    requires
        front.is_prefix_of(assignments),
    ensures
        assigned_key(
            with_folder_tags(db, category, folder, assignments),
            category,
            front,
            value,
        ) == assigned_key(db, category, front, value),
    decreases front.len(),
{
    if front.len() > 0 {
        assert(front.last() == assignments[front.len() - 1]);
        lemma_key_in_use_again(db, category, folder, assignments, front.len() - 1);
        lemma_assigned_key_again(db, category, folder, assignments, front.drop_last(), value);
    }
}

/// The names that a file has from its folders are the components between the category's folder and
/// the file, without white space around them, each once; blank ones and dots give none.
pub proof fn lemma_names_of_folders(
    folder: Seq<char>,
    inner: Seq<char>,
    name: Seq<char>,
    value: Seq<char>,
)
    requires
        folder.len() > 0,
        inner.len() > 0,
        is_bare_name(name),
    ensures
        ({
            let path = folder + (seq!['/'] + inner + (seq!['/'] + name));
            let between = parts(seq!['/'] + inner);
            &&& folder_values(folder, path).contains(value) <==> value.len() > 0 && exists|i: int|
                0 <= i < between.len() && trimmed(#[trigger] between[i]) == value && between[i]
                    != "."@ && between[i] != ".."@
            &&& folder_values(folder, path).no_duplicates()
        }),
{
    let above = seq!['/'] + inner;
    let last = seq!['/'] + name;
    let tail = above + last;
    let path = folder + tail;
    lemma_parts_append(above, last);
    lemma_under_folder(folder, tail, folder);
    lemma_file_in_folder(seq!['/'], name);
    assert(joined(seq!['/'], name) =~= last);
    lemma_parent_parts(seq!['/']);
    let rest = relative_to(path, folder);
    assert(parts(seq!['/']).len() == 0);
    assert(parts(last) =~= seq![name]);
    assert(parts(rest) == parts(above) + seq![name]);
    lemma_parent_parts(rest);
    assert(parts(rest).len() > 0);
    let held = parent_of(rest).unwrap();
    assert(parts(held) =~= parts(rest).drop_last());
    assert(parts(rest).drop_last() =~= parts(above));
    lemma_folder_names(parts(above), value);
}

proof fn lemma_folder_names(names: Seq<Seq<char>>, value: Seq<char>)
    ensures
        folder_names(names).contains(value) <==> value.len() > 0 && exists|i: int|
            0 <= i < names.len() && trimmed(#[trigger] names[i]) == value && names[i] != "."@
                && names[i] != ".."@,
        folder_names(names).no_duplicates(),
    decreases names.len(),
{
    if names.len() > 0 {
        let front = names.drop_last();
        lemma_folder_names(front, value);
        lemma_folder_names(front, trimmed(names.last()));
        let before = folder_names(front);
        let after = folder_names(names);
        let last = names.len() - 1;
        if after.contains(value) && !before.contains(value) {
            assert(after == before.push(trimmed(names.last())));
            assert(value == trimmed(names[last]));
        }
        if before.contains(value) {
            let at = choose|at: int| 0 <= at < before.len() && before[at] == value;
            assert(after[at] == value);
            let i = choose|i: int|
                0 <= i < front.len() && trimmed(#[trigger] front[i]) == value && front[i] != "."@
                    && front[i] != ".."@;
            assert(names[i] == front[i]);
        }
        if value.len() > 0 && exists|i: int|
            0 <= i < names.len() && trimmed(#[trigger] names[i]) == value && names[i] != "."@
                && names[i] != ".."@ {
            let i = choose|i: int|
                0 <= i < names.len() && trimmed(#[trigger] names[i]) == value && names[i] != "."@
                    && names[i] != ".."@;
            if i < last {
                assert(front[i] == names[i]);
            } else if !before.contains(value) {
                assert(after[before.len() as int] == value);
            }
        }
    }
}

/// Of the assignments that are switched on and name a folder, the last one counts.
pub proof fn lemma_last_assignment_counts(
    db: DatabaseView,
    category: Category,
    assignments: Seq<AssignmentView>,
    value: Seq<char>,
    i: int,
)
    requires
        -1 <= i < assignments.len(),
        forall|j: int|
            i < j < assignments.len() ==> !((#[trigger] assignments[j]).enabled
                && assignments[j].value == value && normal_key(assignments[j].key) is Some),
    ensures
        i >= 0 && assignments[i].enabled && assignments[i].value == value && normal_key(
            assignments[i].key,
        ) is Some ==> assigned_key(db, category, assignments, value) == key_in_use(
            db,
            category,
            assignments[i].key,
        ),
        i < 0 ==> assigned_key(db, category, assignments, value) is None,
    decreases assignments.len(),
{
    if assignments.len() > 0 && i < assignments.len() - 1 {
        let front = assignments.drop_last();
        assert forall|j: int| i < j < front.len() implies !((#[trigger] front[j]).enabled
            && front[j].value == value && normal_key(front[j].key) is Some) by {
            assert(front[j] == assignments[j]);
        }
        assert(!(assignments[assignments.len() - 1].enabled && assignments[assignments.len()
            - 1].value == value && normal_key(assignments[assignments.len() - 1].key) is Some));
        lemma_last_assignment_counts(db, category, front, value, i);
    }
}

/// Every file of the category below a folder whose name an assignment gives to a key has that name
/// under the key afterwards, and the category offers the key.
pub proof fn lemma_folder_tags_are_given(
    db: DatabaseView,
    category: Category,
    folder: Seq<char>,
    assignments: Seq<AssignmentView>,
    path: Seq<char>,
    i: int,
)
    requires
        db.files.contains_key(path),
        db.files[path].category == category,
        0 <= i < assignments.len(),
        assignments[i].enabled,
        normal_key(assignments[i].key) is Some,
        folder_values(folder, path).contains(assignments[i].value),
        forall|j: int|
            i < j < assignments.len() ==> !((#[trigger] assignments[j]).enabled
                && assignments[j].value == assignments[i].value && normal_key(
                assignments[j].key,
            ) is Some),
    ensures
        ({
            let after = with_folder_tags(db, category, folder, assignments);
            let key = key_in_use(db, category, assignments[i].key).unwrap();
            &&& after.tag_values.contains(
                TagValueView {
                    category,
                    stem: db.files[path].stem,
                    key,
                    value: assignments[i].value,
                },
            )
            &&& after.tag_keys.contains(TagKeyView { category, key })
        }),
{
    lemma_last_assignment_counts(db, category, assignments, assignments[i].value, i);
    let row = TagValueView {
        category,
        stem: db.files[path].stem,
        key: key_in_use(db, category, assignments[i].key).unwrap(),
        value: assignments[i].value,
    };
    assert(row_from_folder(db, category, folder, assignments, path, row));
    assert(assigned_key(db, category, assignments, row.value) == Some(row.key));
}

} // verus!
