//! The files of a category as rows, and the names under which they are shown.
use super::DatabaseView;
use crate::model::{Category, WaveformBinary256};
use crate::order::{lemma_key_order, lemma_text_lt_asymmetric, lemma_text_lt_irreflexive};
use crate::order::{lemma_text_lt_total, text_less, text_lt, texts_less, texts_lt, KeyView};
use crate::path::{components, is_absolute, is_under, parent, parent_of, parts, relative_to};
use crate::path::strip_base;
use crate::text::{ascii_lower, chars_of, same_text, to_ascii_lower};
use crate::text_map::{group_by_name, groups, lemma_named, named};
use vstd::prelude::*;

verus! {

broadcast use vstd::string::group_string_axioms;

/// A file of a category.
pub struct FileRow {
    pub path: String,
    pub stem: String,
    pub extension: String,
    pub size: u64,
    pub modified: i64,
    pub first_seen_at: i64,
    pub preview_waveform: Option<WaveformBinary256>,
}

/// The mathematical value of a [`FileRow`].
#[verifier::ext_equal]
pub ghost struct RowView {
    pub path: Seq<char>,
    pub stem: Seq<char>,
    pub extension: Seq<char>,
    pub size: u64,
    pub modified: i64,
    pub first_seen_at: i64,
    pub preview_waveform: Option<WaveformBinary256>,
}

impl DeepView for FileRow {
    type V = RowView;

    open spec fn deep_view(&self) -> RowView {
        RowView {
            path: self.path@,
            stem: self.stem@,
            extension: self.extension@,
            size: self.size,
            modified: self.modified,
            first_seen_at: self.first_seen_at,
            preview_waveform: self.preview_waveform,
        }
    }
}

impl Clone for FileRow {
    fn clone(&self) -> (r: Self)
        ensures
            r.deep_view() == self.deep_view(),
    {
        FileRow {
            path: self.path.clone(),
            stem: self.stem.clone(),
            extension: self.extension.clone(),
            size: self.size,
            modified: self.modified,
            first_seen_at: self.first_seen_at,
            preview_waveform: self.preview_waveform,
        }
    }
}

/// The row of the file at `path`.
pub open spec fn row_at(db: DatabaseView, path: Seq<char>) -> RowView {
    let stored = db.files[path];
    RowView {
        path,
        stem: stored.stem,
        extension: stored.extension,
        size: stored.size,
        modified: stored.modified,
        first_seen_at: stored.first_seen_at,
        preview_waveform: stored.preview_waveform,
    }
}

/// The rows of the files of `category` whose stems `picks` holds.
pub open spec fn category_rows(
    db: DatabaseView,
    category: Category,
    picks: spec_fn(Seq<char>) -> bool,
) -> Set<RowView> {
    Set::new(
        |row: RowView|
            db.files.contains_key(row.path) && db.files[row.path].category == category && row
                == row_at(db, row.path) && picks(row.stem),
    )
}

/// The key by which rows are listed: stem, extension, path.
pub open spec fn row_key(row: RowView) -> KeyView {
    KeyView { rank: 0, parts: seq![row.stem, row.extension, row.path] }
}

/// A text that stands for a component where paths are ordered: `.` comes before `..`, and both
/// come before every name.
pub open spec fn component_key(name: Seq<char>) -> Seq<char> {
    if name == "."@ {
        "0"@
    } else if name == ".."@ {
        "1"@
    } else {
        "2"@ + name
    }
}

/// The texts by which paths are ordered, one for each component; the root comes before the rest.
pub open spec fn path_order(path: Seq<char>) -> Seq<Seq<char>> {
    let keys = parts(path).map_values(|name: Seq<char>| component_key(name));
    if is_absolute(path) {
        seq![Seq::<char>::empty()] + keys
    } else {
        keys
    }
}

/// A text that stands for a component where paths are ordered.
fn component_key_of(name: &str) -> (r: String)
    ensures
        r@ == component_key(name@),
{
    if same_text(name, ".") {
        "0".to_owned()
    } else if same_text(name, "..") {
        "1".to_owned()
    } else {
        let mut key = "2".to_owned();
        key.append(name);
        key
    }
}

/// The texts by which paths are ordered.
pub fn path_order_of(path: &str) -> (r: Vec<String>)
    ensures
        r.deep_view() == path_order(path@),
{
    let chars = chars_of(path);
    let names = components(path);
    let mut out: Vec<String> = Vec::new();
    if chars.len() > 0 && chars[0] == '/' {
        out.push(String::new());
        assert(out@[0]@ =~= Seq::<char>::empty());
    }
    let ghost views = names.deep_view();
    let ghost root = out.deep_view();
    let ghost keys = views.map_values(|name: Seq<char>| component_key(name));
    let mut i: usize = 0;
    assert(root + keys.take(0) =~= root);
    while i < names.len()
        invariant
            i <= names@.len(),
            views == names.deep_view(),
            keys == views.map_values(|name: Seq<char>| component_key(name)),
            out.deep_view() == root + keys.take(i as int),
        decreases names.len() - i,
    {
        let ghost before = out.deep_view();
        assert(views[i as int] == names@[i as int]@);
        out.push(component_key_of(names[i].as_str()));
        proof {
            assert(out.deep_view() =~= before.push(keys[i as int]));
            assert(root + keys.take(i + 1) =~= before.push(keys[i as int]));
        }
        i += 1;
    }
    proof {
        assert(keys.take(i as int) =~= keys);
        if is_absolute(path@) {
            assert(root =~= seq![Seq::<char>::empty()]);
        } else {
            assert(root + keys =~= keys);
        }
    }
    out
}

/// Where paths are ordered, `.` comes before `..`, and `..` before every name; names are ordered as
/// texts.
pub proof fn lemma_dots_come_first(name: Seq<char>, other: Seq<char>)
    requires
        name != "."@ && name != ".."@,
        other != "."@ && other != ".."@,
    ensures
        text_lt(component_key("."@), component_key(".."@)),
        text_lt(component_key(".."@), component_key(name)),
        text_lt(component_key(name), component_key(other)) == text_lt(name, other),
{
    reveal_strlit(".");
    reveal_strlit("..");
    reveal_strlit("0");
    reveal_strlit("1");
    reveal_strlit("2");
    assert("."@.len() != ".."@.len());
    assert(component_key(name).drop_first() =~= name);
    assert(component_key(other).drop_first() =~= other);
}

/// Paths that are ordered by the same texts have the same components, and both start at the root or
/// neither does.
pub proof fn lemma_path_order_tells_components(a: Seq<char>, b: Seq<char>)
    ensures
        path_order(a) == path_order(b) <==> (is_absolute(a) == is_absolute(b) && parts(a) == parts(
            b,
        )),
{
    reveal_strlit(".");
    reveal_strlit("..");
    reveal_strlit("0");
    reveal_strlit("1");
    reveal_strlit("2");
    let one = path_order(a);
    let other = path_order(b);
    if one == other {
        if parts(a).len() > 0 && !is_absolute(a) {
            assert(one[0] == component_key(parts(a)[0]));
            assert(one[0].len() > 0);
        }
        if parts(b).len() > 0 && !is_absolute(b) {
            assert(other[0] == component_key(parts(b)[0]));
            assert(other[0].len() > 0);
        }
        if is_absolute(a) {
            assert(one[0].len() == 0);
        }
        if is_absolute(b) {
            assert(other[0].len() == 0);
        }
        let n: int = if is_absolute(a) {
            1
        } else {
            0
        };
        assert(parts(a).len() == one.len() - n);
        assert forall|i: int| 0 <= i < parts(a).len() implies parts(a)[i] == parts(b)[i] by {
            let left = parts(a)[i];
            let right = parts(b)[i];
            assert(one[i + n] == component_key(left));
            assert(other[i + n] == component_key(right));
            assert(component_key(left)[0] == component_key(right)[0]);
            if component_key(left)[0] == '2' {
                assert(component_key(left).skip(1) =~= left);
                assert(component_key(right).skip(1) =~= right);
            }
        }
        assert(parts(a) =~= parts(b));
    }
}

/// Whether the file of `a` was seen before that of `b`; files seen at the same time are told apart
/// by their paths.
pub open spec fn is_earlier(a: RowView, b: RowView) -> bool {
    ||| a.first_seen_at < b.first_seen_at
    ||| a.first_seen_at == b.first_seen_at && texts_lt(path_order(a.path), path_order(b.path))
    ||| a.first_seen_at == b.first_seen_at && path_order(a.path) == path_order(b.path) && text_lt(
        a.path,
        b.path,
    )
}

/// Whether the files of `a` and `b` have the same stem and format.
pub open spec fn is_duplicate(a: RowView, b: RowView) -> bool {
    a.stem == b.stem && ascii_lower(a.extension) == ascii_lower(b.extension)
}

/// Whether a file with the same stem and format as that of `row` was seen before it.
pub open spec fn has_earlier(rows: Set<RowView>, row: RowView) -> bool {
    exists|other: RowView| #[trigger]
        rows.contains(other) && is_duplicate(other, row) && is_earlier(other, row)
}

/// `s` with every `\` replaced by `/`.
pub open spec fn forward_slashes(s: Seq<char>) -> Seq<char> {
    Seq::new(
        s.len(),
        |i: int|
            if s[i] == '\\' {
                '/'
            } else {
                s[i]
            },
    )
}

/// The stem of a file behind the folders that lead to it from the category's folder.
pub open spec fn prefixed_name(row: RowView, folder: Option<Seq<char>>) -> Seq<char> {
    match folder {
        Some(folder) => if is_under(row.path, folder) {
            match parent_of(relative_to(row.path, folder)) {
                Some(above) => if above.len() > 0 {
                    forward_slashes(above).push('/') + row.stem
                } else {
                    row.stem
                },
                None => row.stem,
            }
        } else {
            row.stem
        },
        None => row.stem,
    }
}

/// The name under which a file is shown: its stem, or, where an earlier file has the same stem and
/// format, the stem behind the file's folders.
pub open spec fn display_name(
    rows: Set<RowView>,
    row: RowView,
    folder: Option<Seq<char>>,
) -> Seq<char> {
    if has_earlier(rows, row) {
        prefixed_name(row, folder)
    } else {
        row.stem
    }
}

/// Whether the list of texts `a` equals `b`.
fn same_texts(a: &Vec<String>, b: &Vec<String>) -> (r: bool)
    ensures
        r == (a.deep_view() == b.deep_view()),
{
    if a.len() != b.len() {
        assert(a.deep_view().len() != b.deep_view().len());
        return false;
    }
    let mut i: usize = 0;
    while i < a.len()
        invariant
            i <= a@.len(),
            a@.len() == b@.len(),
            forall|j: int| 0 <= j < i ==> #[trigger] a.deep_view()[j] == b.deep_view()[j],
        decreases a.len() - i,
    {
        assert(a.deep_view()[i as int] == a@[i as int]@);
        assert(b.deep_view()[i as int] == b@[i as int]@);
        if !same_text(a[i].as_str(), b[i].as_str()) {
            return false;
        }
        i += 1;
    }
    assert(a.deep_view() =~= b.deep_view());
    true
}

/// Whether the file of `a` was seen before that of `b`.
fn row_is_earlier(a: &FileRow, b: &FileRow) -> (r: bool)
    ensures
        r == is_earlier(a.deep_view(), b.deep_view()),
{
    if a.first_seen_at != b.first_seen_at {
        return a.first_seen_at < b.first_seen_at;
    }
    let left = path_order_of(a.path.as_str());
    let right = path_order_of(b.path.as_str());
    texts_less(&left, &right) || (same_texts(&left, &right) && text_less(
        a.path.as_str(),
        b.path.as_str(),
    ))
}

/// `s` with every `\` replaced by `/`.
pub fn to_forward_slashes(s: &str) -> (r: String)
    ensures
        r@ == forward_slashes(s@),
{
    let chars = chars_of(s);
    let mut out = String::new();
    let mut i: usize = 0;
    assert(out@ =~= forward_slashes(s@).take(0));
    while i < chars.len()
        invariant
            i <= chars@.len(),
            chars@ == s@,
            out@ == forward_slashes(s@).take(i as int),
        decreases chars.len() - i,
    {
        if chars[i] == '\\' {
            out.push('/');
        } else {
            out.push(chars[i]);
        }
        assert(out@ =~= forward_slashes(s@).take(i + 1));
        i += 1;
    }
    assert(forward_slashes(s@).take(i as int) =~= forward_slashes(s@));
    out
}

/// The stem of a file behind the folders that lead to it.
fn prefixed_duplicate_name(row: &FileRow, category_folder: Option<&str>) -> (r: String)
    ensures
        r@ == prefixed_name(
            row.deep_view(),
            match category_folder {
                Some(folder) => Some(folder@),
                None => None,
            },
        ),
{
    match category_folder {
        Some(folder) => {
            match strip_base(row.path.as_str(), folder) {
                Some(relative) => {
                    match parent(relative.as_str()) {
                        Some(above) => {
                            if above.as_str().unicode_len() > 0 {
                                let mut name = to_forward_slashes(above.as_str());
                                name.push('/');
                                name.append(row.stem.as_str());
                                return name;
                            }
                        },
                        None => {},
                    }
                },
                None => {},
            }
        },
        None => {},
    }
    row.stem.clone()
}

/// Whether a row of `group` was seen before `row` and has the same format.
fn some_earlier(group: &Vec<FileRow>, row: &FileRow) -> (r: bool)
    ensures
        r == exists|i: int|
            0 <= i < group@.len() && is_earlier(
                #[trigger] group.deep_view()[i],
                row.deep_view(),
            ) && is_duplicate(group.deep_view()[i], row.deep_view()),
{
    let extension = to_ascii_lower(row.extension.as_str());
    let mut i: usize = 0;
    while i < group.len()
        invariant
            i <= group@.len(),
            extension@ == ascii_lower(row.extension@),
            forall|j: int|
                0 <= j < i ==> !(is_earlier(#[trigger] group.deep_view()[j], row.deep_view())
                    && is_duplicate(group.deep_view()[j], row.deep_view())),
        decreases group.len() - i,
    {
        let other = &group[i];
        assert(group.deep_view()[i as int] == other.deep_view());
        let other_extension = to_ascii_lower(other.extension.as_str());
        if same_text(other.stem.as_str(), row.stem.as_str()) && same_text(
            other_extension.as_str(),
            extension.as_str(),
        ) && row_is_earlier(other, row) {
            return true;
        }
        i += 1;
    }
    false
}

/// A copy of a list of rows.
fn copy_rows(rows: &Vec<FileRow>) -> (r: Vec<FileRow>)
    ensures
        r.deep_view() == rows.deep_view(),
{
    let mut out: Vec<FileRow> = Vec::new();
    let mut i: usize = 0;
    assert(out.deep_view() =~= rows.deep_view().take(0));
    while i < rows.len()
        invariant
            i <= rows@.len(),
            out.deep_view() == rows.deep_view().take(i as int),
        decreases rows.len() - i,
    {
        let ghost before = out.deep_view();
        out.push(rows[i].clone());
        assert(out.deep_view() =~= before.push(rows.deep_view()[i as int]));
        assert(out.deep_view() =~= rows.deep_view().take(i + 1));
        i += 1;
    }
    assert(rows.deep_view().take(i as int) =~= rows.deep_view());
    out
}

/// The names under which `rows` are shown, in their order.
pub fn display_names_for_rows(rows: &Vec<FileRow>, category_folder: Option<&str>) -> (r: Vec<
    String,
>)
    ensures
        r.deep_view() == rows.deep_view().map_values(
            |row: RowView|
                display_name(
                    rows.deep_view().to_set(),
                    row,
                    match category_folder {
                        Some(folder) => Some(folder@),
                        None => None,
                    },
                ),
        ),
{
    let ghost views = rows.deep_view();
    let ghost all = views.to_set();
    let ghost folder: Option<Seq<char>> = match category_folder {
        Some(folder) => Some(folder@),
        None => None,
    };
    let ghost shown = views.map_values(|row: RowView| display_name(all, row, folder));
    let mut stems: Vec<String> = Vec::new();
    let mut i: usize = 0;
    while i < rows.len()
        invariant
            i <= rows@.len(),
            views == rows.deep_view(),
            stems@.len() == i,
            forall|j: int| 0 <= j < i ==> #[trigger] stems.deep_view()[j] == views[j].stem,
        decreases rows.len() - i,
    {
        let ghost before = stems.deep_view();
        assert(views[i as int] == rows@[i as int].deep_view());
        stems.push(rows[i].stem.clone());
        assert(stems.deep_view() =~= before.push(views[i as int].stem));
        i += 1;
    }
    let by_stem = group_by_name(copy_rows(rows), &stems);
    let mut names: Vec<String> = Vec::new();
    let mut i: usize = 0;
    assert(names.deep_view() =~= shown.take(0));
    while i < rows.len()
        invariant
            i <= rows@.len(),
            views == rows.deep_view(),
            all == views.to_set(),
            folder == match category_folder {
                Some(folder) => Some(folder@),
                None => None,
            },
            shown == views.map_values(|row: RowView| display_name(all, row, folder)),
            stems@.len() == rows@.len(),
            forall|j: int|
                0 <= j < rows@.len() ==> #[trigger] stems.deep_view()[j] == views[j].stem,
            by_stem@ == groups(views, stems.deep_view()),
            names.deep_view() == shown.take(i as int),
        decreases rows.len() - i,
    {
        let row = &rows[i];
        let ghost view = views[i as int];
        let ghost before = names.deep_view();
        assert(view == row.deep_view());
        let earlier = match by_stem.get(row.stem.as_str()) {
            Some(group) => some_earlier(group, row),
            None => false,
        };
        proof {
            let texts = stems.deep_view();
            lemma_named(views, texts, view.stem);
            assert(texts[i as int] == view.stem);
            assert(texts.contains(view.stem));
            assert(by_stem@.contains_key(view.stem));
            let group = named(views, texts, view.stem);
            assert(by_stem@[view.stem] == group);
            if earlier {
                let n = choose|n: int|
                    0 <= n < group.len() && is_earlier(#[trigger] group[n], view) && is_duplicate(
                        group[n],
                        view,
                    );
                assert(group.contains(group[n]));
                let m = choose|m: int|
                    0 <= m < views.len() && #[trigger] views[m] == group[n] && texts[m]
                        == view.stem;
                assert(views.contains(views[m]));
                assert(all.contains(group[n]));
            }
            if has_earlier(all, view) {
                let other = choose|other: RowView| #[trigger]
                    all.contains(other) && is_duplicate(other, view) && is_earlier(other, view);
                assert(views.contains(other));
                let m = choose|m: int| 0 <= m < views.len() && views[m] == other;
                assert(texts[m] == view.stem);
                assert(group.contains(other));
                let n = choose|n: int| 0 <= n < group.len() && group[n] == other;
                assert(is_earlier(group[n], view));
            }
            assert(earlier == has_earlier(all, view));
        }
        let name = if earlier {
            prefixed_duplicate_name(row, category_folder)
        } else {
            row.stem.clone()
        };
        assert(name@ == display_name(all, view, folder));
        names.push(name);
        assert(names.deep_view() =~= before.push(shown[i as int]));
        assert(names.deep_view() =~= shown.take(i + 1));
        i += 1;
    }
    assert(shown.take(i as int) =~= shown);
    names
}

/// Of two files with the same stem and format, one was seen before the other: exactly the first one
/// seen of each stem and format is shown under its stem alone.
pub proof fn lemma_first_seen_keeps_stem(
    rows: Set<RowView>,
    a: RowView,
    b: RowView,
    folder: Option<Seq<char>>,
)
    requires
        rows.contains(a),
        rows.contains(b),
        a.path != b.path,
        a.stem == b.stem,
        ascii_lower(a.extension) == ascii_lower(b.extension),
    ensures
        is_earlier(a, b) <==> !is_earlier(b, a),
        a.first_seen_at < b.first_seen_at ==> is_earlier(a, b),
        is_earlier(a, b) ==> display_name(rows, b, folder) == prefixed_name(b, folder),
        (forall|other: RowView| #[trigger]
            rows.contains(other) && other.stem == a.stem && ascii_lower(other.extension)
                == ascii_lower(a.extension) ==> other == a || a.first_seen_at
                < other.first_seen_at) ==> display_name(rows, a, folder) == a.stem,
{
    let ka = KeyView { rank: 0, parts: path_order(a.path) };
    let kb = KeyView { rank: 0, parts: path_order(b.path) };
    lemma_key_order(ka, kb);
    lemma_key_order(kb, ka);
    lemma_text_lt_total(a.path, b.path);
    if text_lt(a.path, b.path) {
        lemma_text_lt_asymmetric(a.path, b.path);
    }
    if (forall|other: RowView| #[trigger]
        rows.contains(other) && other.stem == a.stem && ascii_lower(other.extension) == ascii_lower(
            a.extension,
        ) ==> other == a || a.first_seen_at < other.first_seen_at) && has_earlier(rows, a) {
        let other = choose|other: RowView| #[trigger]
            rows.contains(other) && is_duplicate(other, a) && is_earlier(other, a);
        lemma_key_order(ka, ka);
        lemma_text_lt_irreflexive(a.path);
    }
}

/// A file that is not the first of its stem and format is shown under its stem behind the folders
/// between the category's folder and the file, slashes between them; one that is right in the
/// category's folder, or not below it, under its stem alone.
pub proof fn lemma_prefixed_name(row: RowView, folder: Seq<char>)
    ensures
        prefixed_name(row, None) == row.stem,
        !is_under(row.path, folder) ==> prefixed_name(row, Some(folder)) == row.stem,
        is_under(row.path, folder) ==> match parent_of(relative_to(row.path, folder)) {
            Some(above) if above.len() > 0 => {
                let name = prefixed_name(row, Some(folder));
                &&& name.len() == above.len() + 1 + row.stem.len()
                &&& name.skip(above.len() as int + 1) == row.stem
                &&& name[above.len() as int] == '/'
                &&& forall|i: int|
                    0 <= i < above.len() ==> #[trigger] name[i] == (if above[i] == '\\' {
                        '/'
                    } else {
                        above[i]
                    })
            },
            _ => prefixed_name(row, Some(folder)) == row.stem,
        },
{
    if is_under(row.path, folder) {
        match parent_of(relative_to(row.path, folder)) {
            Some(above) => {
                if above.len() > 0 {
                    let name = prefixed_name(row, Some(folder));
                    assert(name.skip(above.len() as int + 1) =~= row.stem);
                }
            },
            None => {},
        }
    }
}

} // verus!
