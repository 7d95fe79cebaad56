//! What holds of the sounds that a query shows.
use super::query::{candidate_stems, has_key, is_candidate, is_checked, lemma_candidates_agree};
use super::query::{lemma_checked_values_agree, lemma_rows_listed, lemma_text_list};
use super::query::{normal_selection, query_stems, record_of, records_of, rows_listed};
use super::query::{rows_within, some_checked, some_tag_like, some_tag_passes, stem_tags};
use super::query::{values_of, variant_key, variant_of, visible_records};
use super::rows::{display_name, forward_slashes, has_earlier, is_duplicate, is_earlier, row_at};
use super::rows::{row_key, RowView};
use super::tags::{after_add_tag, after_remove_tag, key_in_use, row_has_stem, tags_on};
use super::{DatabaseView, TagValue, TagValueView};
use crate::like::subsequence_pattern;
use crate::model::{fuzzy, matches_scoped, normal_key, normal_value, passes_selected};
use crate::model::{record_sort_key, value_matches, values_match, variants_match, AudioFormat};
use crate::model::{Category, RecordView, VariantView};
use crate::order::{caseless_key, caseless_list, key_lt, lemma_filter_contains, lemma_key_order};
use crate::order::{lemma_ordering_exists, lemma_ordering_filter, lemma_sorted_by};
use crate::order::{sorted_by, text_key, text_list};
use crate::path::{is_under, parent_of, relative_to};
use crate::row_set::Row;
use crate::text::lowercase;
use crate::text_map::{lemma_named, named};
use vstd::prelude::*;

verus! {

/// Whether one of the files of `record` is at `path`.
pub open spec fn has_file(record: RecordView, path: Seq<char>) -> bool {
    exists|i: int| 0 <= i < record.variants.len() && (#[trigger] record.variants[i]).path == path
}

/// The names under which `rows` are shown, in their order.
pub open spec fn names_of(rows: Seq<RowView>, folder: Option<Seq<char>>) -> Seq<Seq<char>> {
    rows.map_values(|row: RowView| display_name(rows.to_set(), row, folder))
}

/// The sounds that the files of `stems`, or all files of the category, make up, by name.
pub open spec fn sounds_within(
    db: DatabaseView,
    category: Category,
    stems: Option<Set<Seq<char>>>,
    priority: Seq<AudioFormat>,
    folder: Option<Seq<char>>,
) -> Seq<RecordView> {
    let rows = rows_listed(db, category, stems);
    records_of(db, category, rows, names_of(rows, folder), priority)
}

/// Every sound of a category, by name.
pub open spec fn sounds(
    db: DatabaseView,
    category: Category,
    priority: Seq<AudioFormat>,
    folder: Option<Seq<char>>,
) -> Seq<RecordView> {
    sounds_within(db, category, None, priority, folder)
}

/// A sound has exactly the files that are shown under its name.
pub proof fn lemma_sound_files(
    db: DatabaseView,
    category: Category,
    stems: Option<Set<Seq<char>>>,
    priority: Seq<AudioFormat>,
    folder: Option<Seq<char>>,
    n: int,
    path: Seq<char>,
)
    requires
        db.files.dom().finite(),
        0 <= n < sounds_within(db, category, stems, priority, folder).len(),
    ensures
        has_file(sounds_within(db, category, stems, priority, folder)[n], path)
            <==> rows_within(db, category, stems).contains(row_at(db, path)) && display_name(
            rows_within(db, category, stems),
            row_at(db, path),
            folder,
        ) == sounds_within(db, category, stems, priority, folder)[n].name,
{
    let rows = rows_listed(db, category, stems);
    let within = rows_within(db, category, stems);
    lemma_rows_listed(db, category, stems);
    assert(rows.to_set() =~= within);
    let names = names_of(rows, folder);
    lemma_text_list(names);
    let titles = text_list(names.to_set());
    let name = titles[n];
    let record = sounds_within(db, category, stems, priority, folder)[n];
    assert(record.name == name);
    let group = named(rows, names, name);
    lemma_named(rows, names, name);
    let files = group.map_values(|row: RowView| variant_of(row));
    let key = |variant: VariantView| variant_key(variant, priority);
    lemma_sorted_by(files, key);
    assert(record.variants == sorted_by(files, key));
    let here = row_at(db, path);
    if has_file(record, path) {
        let v = choose|v: int|
            0 <= v < record.variants.len() && (#[trigger] record.variants[v]).path == path;
        assert(record.variants.contains(record.variants[v]));
        assert(files.contains(record.variants[v]));
        let m = choose|m: int| 0 <= m < files.len() && files[m] == record.variants[v];
        let row = group[m];
        assert(group.contains(row));
        let i = choose|i: int| 0 <= i < rows.len() && #[trigger] rows[i] == row && names[i] == name;
        assert(rows.contains(row));
        assert(within.contains(row));
        assert(row == here);
    }
    if within.contains(here) && display_name(within, here, folder) == name {
        assert(rows.contains(here));
        let i = choose|i: int| 0 <= i < rows.len() && rows[i] == here;
        assert(names[i] == name);
        assert(group.contains(here));
        let m = choose|m: int| 0 <= m < group.len() && group[m] == here;
        assert(files[m] == variant_of(here));
        assert(files.contains(variant_of(here)));
        assert(record.variants.contains(variant_of(here)));
        let v = choose|v: int|
            0 <= v < record.variants.len() && record.variants[v] == variant_of(here);
        assert(record.variants[v].path == path);
    }
}

/// There is a sound under the name of every file.
proof fn lemma_name_has_sound(
    db: DatabaseView,
    category: Category,
    stems: Option<Set<Seq<char>>>,
    priority: Seq<AudioFormat>,
    folder: Option<Seq<char>>,
    row: RowView,
) -> (n: int)
    requires
        db.files.dom().finite(),
        rows_within(db, category, stems).contains(row),
    ensures
        0 <= n < sounds_within(db, category, stems, priority, folder).len(),
        sounds_within(db, category, stems, priority, folder)[n].name == display_name(
            rows_within(db, category, stems),
            row,
            folder,
        ),
{
    let within = rows_within(db, category, stems);
    let rows = rows_listed(db, category, stems);
    lemma_rows_listed(db, category, stems);
    assert(rows.to_set() =~= within);
    assert(rows.contains(row));
    let at = choose|at: int| 0 <= at < rows.len() && rows[at] == row;
    let names = names_of(rows, folder);
    let name = display_name(within, row, folder);
    assert(names[at] == name);
    lemma_text_list(names);
    let titles = text_list(names.to_set());
    assert(names.to_set().contains(name));
    assert(titles.contains(name));
    choose|n: int| 0 <= n < titles.len() && titles[n] == name
}

/// A query shows the sounds that its candidates make up and that match.
pub proof fn lemma_shown(
    db: DatabaseView,
    category: Category,
    search: Seq<char>,
    selected: Map<Seq<char>, Set<Seq<char>>>,
    include_tags: bool,
    priority: Seq<AudioFormat>,
    folder: Option<Seq<char>>,
    record: RecordView,
)
    ensures
        visible_records(db, category, search, selected, include_tags, priority, folder).contains(
            record,
        ) <==> sounds_within(
            db,
            category,
            query_stems(db, category, search, normal_selection(selected), include_tags),
            priority,
            folder,
        ).contains(record) && matches_scoped(
            record,
            search,
            normal_selection(selected),
            include_tags,
        ),
{
    let checked = normal_selection(selected);
    let stems = query_stems(db, category, search, checked, include_tags);
    let all = sounds_within(db, category, stems, priority, folder);
    let p = |record: RecordView| matches_scoped(record, search, checked, include_tags);
    let key = |record: RecordView| record_sort_key(record, search, include_tags);
    lemma_filter_contains(all, p, record);
    lemma_sorted_by(all.filter(p), key);
    assert(visible_records(db, category, search, selected, include_tags, priority, folder)
        == sorted_by(all.filter(p), key));
}

/// The sounds of a category have different names.
pub proof fn lemma_names_differ(
    db: DatabaseView,
    category: Category,
    stems: Option<Set<Seq<char>>>,
    priority: Seq<AudioFormat>,
    folder: Option<Seq<char>>,
    m: int,
    n: int,
)
    requires
        0 <= m < n < sounds_within(db, category, stems, priority, folder).len(),
    ensures
        sounds_within(db, category, stems, priority, folder)[m].name != sounds_within(
            db,
            category,
            stems,
            priority,
            folder,
        )[n].name,
{
    let names = names_of(rows_listed(db, category, stems), folder);
    let titles = text_list(names.to_set());
    lemma_text_list(names);
    let key = |t: Seq<char>| text_key(t);
    assert(key_lt(key(titles[m]), key(titles[n])));
    lemma_key_order(text_key(titles[m]), text_key(titles[n]));
}

/// No file is shown twice.
pub proof fn lemma_file_is_shown_once(
    db: DatabaseView,
    category: Category,
    search: Seq<char>,
    selected: Map<Seq<char>, Set<Seq<char>>>,
    include_tags: bool,
    priority: Seq<AudioFormat>,
    folder: Option<Seq<char>>,
    path: Seq<char>,
    i: int,
    j: int,
)
    requires
        db.files.dom().finite(),
        ({
            let shown = visible_records(
                db,
                category,
                search,
                selected,
                include_tags,
                priority,
                folder,
            );
            &&& 0 <= i < shown.len()
            &&& 0 <= j < shown.len()
            &&& has_file(shown[i], path)
            &&& has_file(shown[j], path)
        }),
    ensures
        i == j,
{
    let checked = normal_selection(selected);
    let stems = query_stems(db, category, search, checked, include_tags);
    let all = sounds_within(db, category, stems, priority, folder);
    let p = |record: RecordView| matches_scoped(record, search, checked, include_tags);
    let key = |record: RecordView| record_sort_key(record, search, include_tags);
    let shown = visible_records(db, category, search, selected, include_tags, priority, folder);
    assert(shown == sorted_by(all.filter(p), key));
    assert(all.no_duplicates()) by {
        assert forall|m: int, n: int| 0 <= m < n < all.len() implies all[m] != all[n] by {
            lemma_names_differ(db, category, stems, priority, folder, m, n);
        }
    }
    lemma_filter_distinct(all, p);
    lemma_sorted_by(all.filter(p), key);
    all.filter(p).lemma_multiset_has_no_duplicates();
    shown.lemma_multiset_has_no_duplicates_conv();
    lemma_shown(db, category, search, selected, include_tags, priority, folder, shown[i]);
    lemma_shown(db, category, search, selected, include_tags, priority, folder, shown[j]);
    assert(shown.contains(shown[i]) && shown.contains(shown[j]));
    let m = choose|m: int| 0 <= m < all.len() && all[m] == shown[i];
    let n = choose|n: int| 0 <= n < all.len() && all[n] == shown[j];
    lemma_sound_files(db, category, stems, priority, folder, m, path);
    lemma_sound_files(db, category, stems, priority, folder, n, path);
    if m < n {
        lemma_names_differ(db, category, stems, priority, folder, m, n);
    } else if n < m {
        lemma_names_differ(db, category, stems, priority, folder, n, m);
    }
}

proof fn lemma_filter_distinct<T>(s: Seq<T>, p: spec_fn(T) -> bool)
    requires
        s.no_duplicates(),
    ensures
        s.filter(p).no_duplicates(),
    decreases s.len(),
{
    reveal(Seq::filter);
    if s.len() > 0 {
        let front = s.drop_last();
        lemma_filter_distinct(front, p);
        lemma_filter_contains(front, p, s.last());
        if front.contains(s.last()) {
            let i = choose|i: int| 0 <= i < front.len() && front[i] == s.last();
            assert(s[i] == s[s.len() - 1]);
        }
    }
}

/// Files with the same stem make up one sound under that stem, in whatever formats they are; only
/// a file that comes after another with its stem and format is a sound of its own.
pub proof fn lemma_stem_is_one_sound(
    db: DatabaseView,
    category: Category,
    priority: Seq<AudioFormat>,
    folder: Option<Seq<char>>,
    a: Seq<char>,
    b: Seq<char>,
)
    requires
        db.files.dom().finite(),
        db.files.contains_key(a),
        db.files.contains_key(b),
        db.files[a].category == category,
        db.files[b].category == category,
        db.files[a].stem == db.files[b].stem,
        !has_earlier(rows_within(db, category, None), row_at(db, a)),
        !has_earlier(rows_within(db, category, None), row_at(db, b)),
    ensures
        exists|n: int|
            0 <= n < sounds(db, category, priority, folder).len() && sounds(
                db,
                category,
                priority,
                folder,
            )[n].name == db.files[a].stem && has_file(
                #[trigger] sounds(db, category, priority, folder)[n],
                a,
            ) && has_file(sounds(db, category, priority, folder)[n], b),
{
    let n = lemma_name_has_sound(db, category, None, priority, folder, row_at(db, a));
    lemma_sound_files(db, category, None, priority, folder, n, a);
    lemma_sound_files(db, category, None, priority, folder, n, b);
    assert(sounds(db, category, priority, folder)[n].name == db.files[a].stem);
}

/// Without a search and checked tags, a query shows every sound of the category, and no other.
pub proof fn lemma_every_sound_is_shown(
    db: DatabaseView,
    category: Category,
    search: Seq<char>,
    selected: Map<Seq<char>, Set<Seq<char>>>,
    include_tags: bool,
    priority: Seq<AudioFormat>,
    folder: Option<Seq<char>>,
    record: RecordView,
)
    requires
        search.len() == 0,
        !some_checked(selected),
    ensures
        visible_records(db, category, search, selected, include_tags, priority, folder).contains(
            record,
        ) <==> sounds(db, category, priority, folder).contains(record),
{
    let checked = normal_selection(selected);
    lemma_none_checked(selected);
    lemma_shown(db, category, search, selected, include_tags, priority, folder, record);
    assert(query_stems(db, category, search, checked, include_tags) is None);
    assert(fuzzy(record.name, search));
    assert(passes_selected(record.tags, checked));
}

/// Without a search and checked tags, a query shows every file of the category.
pub proof fn lemma_every_file_is_shown(
    db: DatabaseView,
    category: Category,
    search: Seq<char>,
    selected: Map<Seq<char>, Set<Seq<char>>>,
    include_tags: bool,
    priority: Seq<AudioFormat>,
    folder: Option<Seq<char>>,
    path: Seq<char>,
)
    requires
        db.files.dom().finite(),
        db.files.contains_key(path),
        db.files[path].category == category,
        search.len() == 0,
        !some_checked(selected),
    ensures
        exists|i: int|
            0 <= i < visible_records(
                db,
                category,
                search,
                selected,
                include_tags,
                priority,
                folder,
            ).len() && has_file(
                #[trigger] visible_records(
                    db,
                    category,
                    search,
                    selected,
                    include_tags,
                    priority,
                    folder,
                )[i],
                path,
            ),
{
    let n = lemma_name_has_sound(db, category, None, priority, folder, row_at(db, path));
    lemma_sound_files(db, category, None, priority, folder, n, path);
    let all = sounds(db, category, priority, folder);
    let record = all[n];
    assert(all.contains(record));
    lemma_every_sound_is_shown(
        db,
        category,
        search,
        selected,
        include_tags,
        priority,
        folder,
        record,
    );
    let shown = visible_records(db, category, search, selected, include_tags, priority, folder);
    let i = choose|i: int| 0 <= i < shown.len() && shown[i] == record;
    assert(has_file(shown[i], path));
}

/// Where nothing is checked, nothing is checked in the form in which tags are stored.
proof fn lemma_none_checked(selected: Map<Seq<char>, Set<Seq<char>>>)
    requires
        !some_checked(selected),
    ensures
        !some_checked(normal_selection(selected)),
{
    let checked = normal_selection(selected);
    assert forall|key: Seq<char>, value: Seq<char>|
        !(checked.contains_key(key) && #[trigger] checked[key].contains(value)) by {
        if checked.contains_key(key) && checked[key].contains(value) {
            assert(is_checked(selected, key, value));
            let (raw, wanted) = choose|raw: Seq<char>, wanted: Seq<char>|
                selected.contains_key(raw) && #[trigger] selected[raw].contains(wanted)
                    && normal_key(raw) == Some(key) && normal_value(wanted) == Some(value);
            assert(selected[raw].contains(wanted));
        }
    }
}

/// The elements under a name are those that have it.
proof fn lemma_named_is_filter<T>(
    items: Seq<T>,
    name_of: spec_fn(T) -> Seq<char>,
    name: Seq<char>,
)
    ensures
        named(items, items.map_values(name_of), name) == items.filter(
            |x: T| name_of(x) == name,
        ),
    decreases items.len(),
{
    reveal(Seq::filter);
    if items.len() > 0 {
        lemma_named_is_filter(items.drop_last(), name_of, name);
        assert(items.map_values(name_of).drop_last() =~= items.drop_last().map_values(name_of));
    }
}

/// What passes `q` is found among what passes `p`, where `q` is the stricter one.
proof fn lemma_filter_twice<T>(
    s: Seq<T>,
    p: spec_fn(T) -> bool,
    q: spec_fn(T) -> bool,
    r: spec_fn(T) -> bool,
)
    requires
        forall|i: int|
            0 <= i < s.len() ==> #[trigger] r(s[i]) == (p(s[i]) && q(s[i])),
    ensures
        s.filter(p).filter(q) == s.filter(r),
    decreases s.len(),
{
    reveal(Seq::filter);
    if s.len() > 0 {
        let front = s.drop_last();
        assert forall|i: int| 0 <= i < front.len() implies #[trigger] r(front[i]) == (p(front[i])
            && q(front[i])) by {
            assert(r(s[i]) == (p(s[i]) && q(s[i])));
        }
        lemma_filter_twice(front, p, q, r);
        assert(r(s[s.len() - 1]) == (p(s[s.len() - 1]) && q(s[s.len() - 1])));
        if p(s.last()) {
            let kept = front.filter(p).push(s.last());
            assert(kept.drop_last() =~= front.filter(p));
        }
    }
}

/// A file that is shown under a name without folders has that name as its stem.
proof fn lemma_bare_name(
    rows: Set<RowView>,
    row: RowView,
    folder: Option<Seq<char>>,
)
    requires
        !display_name(rows, row, folder).contains('/'),
    ensures
        display_name(rows, row, folder) == row.stem,
{
    if has_earlier(rows, row) && folder is Some && is_under(row.path, folder.unwrap()) {
        match parent_of(relative_to(row.path, folder.unwrap())) {
            Some(above) => {
                if above.len() > 0 {
                    let name = display_name(rows, row, folder);
                    assert(name[forward_slashes(above).len() as int] == '/');
                }
            },
            None => {},
        }
    }
}

/// Limiting a query to some stems changes no name under which their files are shown.
proof fn lemma_names_within(
    db: DatabaseView,
    category: Category,
    stems: Set<Seq<char>>,
    row: RowView,
    folder: Option<Seq<char>>,
)
    requires
        stems.contains(row.stem),
    ensures
        display_name(rows_within(db, category, Some(stems)), row, folder) == display_name(
            rows_within(db, category, None),
            row,
            folder,
        ),
{
    let some = rows_within(db, category, Some(stems));
    let all = rows_within(db, category, None);
    if has_earlier(all, row) {
        let other = choose|other: RowView| #[trigger]
            all.contains(other) && is_duplicate(other, row) && is_earlier(other, row);
        assert(some.contains(other));
    }
    if has_earlier(some, row) {
        let other = choose|other: RowView| #[trigger]
            some.contains(other) && is_duplicate(other, row) && is_earlier(other, row);
        assert(all.contains(other));
    }
}

/// The files of a sound that is shown under its stem are the same in a query that is limited to
/// some stems, if that stem is one of them.
proof fn lemma_group_within(
    db: DatabaseView,
    category: Category,
    stems: Set<Seq<char>>,
    folder: Option<Seq<char>>,
    stem: Seq<char>,
)
    requires
        db.files.dom().finite(),
        !stem.contains('/'),
    ensures
        ({
            let some = rows_listed(db, category, Some(stems));
            let all = rows_listed(db, category, None);
            let group = named(some, names_of(some, folder), stem);
            &&& stems.contains(stem) ==> group == named(all, names_of(all, folder), stem)
            &&& !stems.contains(stem) ==> group.len() == 0
        }),
{
    let some = rows_listed(db, category, Some(stems));
    let all = rows_listed(db, category, None);
    let within = rows_within(db, category, None);
    let key = |row: RowView| row_key(row);
    let p = |row: RowView| stems.contains(row.stem);
    lemma_rows_listed(db, category, None);
    lemma_rows_listed(db, category, Some(stems));
    lemma_ordering_filter(all, within, key, p);
    assert(within.filter(p) =~= rows_within(db, category, Some(stems)));
    assert(some == all.filter(p));
    assert(all.to_set() =~= within);
    assert(some.to_set() =~= rows_within(db, category, Some(stems)));
    let name_all = |row: RowView| display_name(all.to_set(), row, folder);
    let name_some = |row: RowView| display_name(some.to_set(), row, folder);
    lemma_named_is_filter(all, name_all, stem);
    lemma_named_is_filter(some, name_some, stem);
    let q = |row: RowView| name_some(row) == stem;
    let r = |row: RowView| name_all(row) == stem;
    let both = |row: RowView| p(row) && q(row);
    lemma_filter_twice(all, p, q, both);
    if stems.contains(stem) {
        assert forall|i: int| 0 <= i < all.len() implies #[trigger] r(all[i]) == (p(all[i]) && q(
            all[i],
        )) by {
            let row = all[i];
            if p(row) {
                lemma_names_within(db, category, stems, row, folder);
            } else if r(row) {
                lemma_bare_name(within, row, folder);
            }
        }
        lemma_filter_twice(all, p, q, r);
    } else {
        let group = some.filter(q);
        if group.len() > 0 {
            assert(group.contains(group[0]));
            lemma_filter_contains(some, q, group[0]);
            lemma_filter_contains(all, p, group[0]);
            lemma_bare_name(some.to_set(), group[0], folder);
        }
    }
}

/// The tags of a stem are the values that are stored for it.
pub proof fn lemma_stem_tags(
    db: DatabaseView,
    category: Category,
    stem: Seq<char>,
    key: Seq<char>,
    value: Seq<char>,
)
    requires
        db.tag_values.finite(),
    ensures
        stem_tags(db, category, stem).contains_key(key) && stem_tags(db, category, stem)[key].contains(
            value,
        ) <==> db.tag_values.contains(TagValueView { category, stem, key, value }),
        tags_on(db, category, stem).contains(TagValueView { category, stem, key, value })
            <==> db.tag_values.contains(TagValueView { category, stem, key, value }),
{
    let row = TagValueView { category, stem, key, value };
    let values = values_of(db, category, stem, key);
    let image = db.tag_values.map(|row: TagValueView| row.value);
    db.tag_values.lemma_map_finite(|row: TagValueView| row.value);
    assert(values.subset_of(image)) by {
        assert forall|v: Seq<char>| values.contains(v) implies image.contains(v) by {
            let r = TagValueView { category, stem, key, value: v };
            assert(db.tag_values.contains(r));
            assert((|row: TagValueView| row.value)(r) == v);
        }
    }
    vstd::set_lib::lemma_set_subset_finite(image, values);
    let by_value = |t: Seq<char>| caseless_key(t);
    assert forall|x: Seq<char>, y: Seq<char>|
        values.contains(x) && values.contains(y) && #[trigger] by_value(x) == #[trigger] by_value(
            y,
        ) implies x == y by {
        assert(by_value(x).parts[1] == x && by_value(y).parts[1] == y);
    }
    lemma_ordering_exists(values, by_value);
    assert(values.contains(value) <==> caseless_list(values).contains(value));
    if values.contains(value) {
        assert(has_key(db, category, stem, key));
    }
    let own = db.tag_values.filter(|row: TagValueView| row_has_stem(row, category, stem));
    let by_row = |row: TagValueView| TagValue::row_key(row);
    assert forall|x: TagValueView, y: TagValueView|
        own.contains(x) && own.contains(y) && #[trigger] by_row(x) == #[trigger] by_row(
            y,
        ) implies x == y by {
        TagValue::lemma_row_key(x, y);
    }
    lemma_ordering_exists(own, by_row);
    assert(own.contains(row) <==> tags_on(db, category, stem).contains(row));
}

/// Whether the texts of a sound are ASCII.
pub open spec fn is_plain(record: RecordView) -> bool {
    &&& vstd::utf8::is_ascii_chars(record.stem)
    &&& forall|i: int|
        0 <= i < record.variants.len() ==> vstd::utf8::is_ascii_chars(
            (#[trigger] record.variants[i]).extension,
        )
    &&& forall|key: Seq<char>| #[trigger]
        record.tags.contains_key(key) ==> vstd::utf8::is_ascii_chars(key)
    &&& forall|key: Seq<char>, value: Seq<char>|
        record.tags.contains_key(key) && #[trigger] record.tags[key].contains(value)
            ==> vstd::utf8::is_ascii_chars(value)
}

/// A sound that matches has a file that is a candidate.
proof fn lemma_match_is_candidate(
    db: DatabaseView,
    category: Category,
    search: Seq<char>,
    checked: Map<Seq<char>, Set<Seq<char>>>,
    include_tags: bool,
    priority: Seq<AudioFormat>,
    folder: Option<Seq<char>>,
    record: RecordView,
)
    requires
        db.files.dom().finite(),
        db.tag_values.finite(),
        vstd::utf8::is_ascii_chars(search),
        sounds(db, category, priority, folder).contains(record),
        is_plain(record),
        record.name == record.stem,
        !record.stem.contains('/'),
        matches_scoped(record, search, checked, include_tags),
    ensures
        candidate_stems(db, category, search, checked, include_tags).contains(record.stem),
{
    let stem = record.stem;
    let all = sounds(db, category, priority, folder);
    let n = choose|n: int| 0 <= n < all.len() && all[n] == record;
    let rows = rows_listed(db, category, None);
    let within = rows_within(db, category, None);
    lemma_rows_listed(db, category, None);
    assert(rows.to_set() =~= within);
    let names = names_of(rows, folder);
    lemma_text_list(names);
    let titles = text_list(names.to_set());
    assert(titles[n] == stem);
    assert(titles.contains(stem));
    assert(names.to_set().contains(stem));
    let group = named(rows, names, stem);
    lemma_named(rows, names, stem);
    let files = group.map_values(|row: RowView| variant_of(row));
    lemma_sorted_by(files, |variant: VariantView| variant_key(variant, priority));
    assert forall|m: int| 0 <= m < group.len() implies within.contains(#[trigger] group[m])
        && group[m].stem == stem by {
        assert(group.contains(group[m]));
        let i = choose|i: int|
            0 <= i < rows.len() && #[trigger] rows[i] == group[m] && names[i] == stem;
        assert(rows.contains(rows[i]));
        lemma_bare_name(rows.to_set(), rows[i], folder);
    }
    assert(record.tags == stem_tags(db, category, stem));
    let tags = tags_on(db, category, stem);
    // The checked values are stored for the stem.
    assert forall|key: Seq<char>, wanted: Seq<char>|
        checked.contains_key(key) && #[trigger] checked[key].contains(
            wanted,
        ) implies some_tag_passes(tags, key, wanted) by {
        let values = record.tags[key];
        let v = choose|v: int| 0 <= v < values.len() && value_matches(#[trigger] values[v], wanted);
        assert(values.contains(values[v]));
        lemma_stem_tags(db, category, stem, key, values[v]);
        let row = TagValueView { category, stem, key, value: values[v] };
        let t = choose|t: int| 0 <= t < tags.len() && tags[t] == row;
        lemma_checked_values_agree(values[v], wanted);
        assert(tags[t].key == key);
    }
    // The search finds the stem, an extension or a tag.
    let pattern = subsequence_pattern(lowercase(search));
    let path = if variants_match(record.variants, search) {
        let v = choose|v: int|
            0 <= v < record.variants.len() && fuzzy(
                (#[trigger] record.variants[v]).extension,
                search,
            );
        assert(record.variants.contains(record.variants[v]));
        assert(files.contains(record.variants[v]));
        let m = choose|m: int| 0 <= m < files.len() && files[m] == record.variants[v];
        assert(within.contains(group[m]));
        lemma_candidates_agree(record.variants[v].extension, search);
        group[m].path
    } else {
        assert(within.contains(group[0]));
        group[0].path
    };
    assert(db.files.contains_key(path));
    assert(db.files[path].stem == stem);
    if search.len() > 0 && !variants_match(record.variants, search) {
        if fuzzy(record.name, search) {
            lemma_candidates_agree(stem, search);
        } else {
            let key = choose|key: Seq<char>| #[trigger]
                record.tags.contains_key(key) && (fuzzy(key, search) || values_match(
                    record.tags[key],
                    search,
                ));
            let values = record.tags[key];
            let value = if fuzzy(key, search) {
                choose|value: Seq<char>| #[trigger]
                    values_of(db, category, stem, key).contains(value)
            } else {
                let v = choose|v: int| 0 <= v < values.len() && fuzzy(#[trigger] values[v], search);
                assert(values.contains(values[v]));
                values[v]
            };
            lemma_stem_tags(db, category, stem, key, value);
            let row = TagValueView { category, stem, key, value };
            let t = choose|t: int| 0 <= t < tags.len() && tags[t] == row;
            if fuzzy(key, search) {
                lemma_candidates_agree(key, search);
            } else {
                lemma_candidates_agree(value, search);
            }
            assert(tags[t].key == key);
            assert(some_tag_like(tags, pattern));
        }
    }
    assert(is_candidate(row_at(db, path), tags, search, checked, include_tags));
}

/// A query finds every sound that matches: for one whose texts are ASCII and that is shown under
/// its stem, limiting the query to candidates makes no difference.
pub proof fn lemma_search_loses_nothing(
    db: DatabaseView,
    category: Category,
    search: Seq<char>,
    selected: Map<Seq<char>, Set<Seq<char>>>,
    include_tags: bool,
    priority: Seq<AudioFormat>,
    folder: Option<Seq<char>>,
    record: RecordView,
)
    requires
        db.files.dom().finite(),
        db.tag_values.finite(),
        is_plain(record),
        record.name == record.stem,
        !record.stem.contains('/'),
    ensures
        visible_records(db, category, search, selected, include_tags, priority, folder).contains(
            record,
        ) <==> sounds(db, category, priority, folder).contains(record) && matches_scoped(
            record,
            search,
            normal_selection(selected),
            include_tags,
        ),
{
    let checked = normal_selection(selected);
    let stem = record.stem;
    lemma_shown(db, category, search, selected, include_tags, priority, folder, record);
    match query_stems(db, category, search, checked, include_tags) {
        None => {},
        Some(stems) => {
            if sounds(db, category, priority, folder).contains(record) && matches_scoped(
                record,
                search,
                checked,
                include_tags,
            ) {
                lemma_match_is_candidate(
                    db,
                    category,
                    search,
                    checked,
                    include_tags,
                    priority,
                    folder,
                    record,
                );
            }
            lemma_group_within(db, category, stems, folder, stem);
            lemma_sound_of_name(db, category, None, priority, folder, record);
            lemma_sound_of_name(db, category, Some(stems), priority, folder, record);
        },
    }
}

/// A record is a sound exactly if it is what the files under its name make up.
proof fn lemma_sound_of_name(
    db: DatabaseView,
    category: Category,
    stems: Option<Set<Seq<char>>>,
    priority: Seq<AudioFormat>,
    folder: Option<Seq<char>>,
    record: RecordView,
)
    ensures
        ({
            let rows = rows_listed(db, category, stems);
            let group = named(rows, names_of(rows, folder), record.name);
            sounds_within(db, category, stems, priority, folder).contains(record) <==> group.len()
                > 0 && record == record_of(db, category, record.name, group, priority)
        }),
{
    let rows = rows_listed(db, category, stems);
    let names = names_of(rows, folder);
    let group = named(rows, names, record.name);
    let all = sounds_within(db, category, stems, priority, folder);
    lemma_named(rows, names, record.name);
    lemma_text_list(names);
    let titles = text_list(names.to_set());
    if all.contains(record) {
        let n = choose|n: int| 0 <= n < all.len() && all[n] == record;
        assert(record.name == titles[n]);
        assert(titles.contains(titles[n]));
        assert(names.to_set().contains(record.name));
    }
    if group.len() > 0 && record == record_of(db, category, record.name, group, priority) {
        assert(names.to_set().contains(record.name));
        assert(titles.contains(record.name));
        let n = choose|n: int| 0 <= n < titles.len() && titles[n] == record.name;
        assert(all[n] == record);
    }
}

/// A sound is shown with exactly the tags that are stored for its stem.
pub proof fn lemma_shown_tags(
    db: DatabaseView,
    category: Category,
    search: Seq<char>,
    selected: Map<Seq<char>, Set<Seq<char>>>,
    include_tags: bool,
    priority: Seq<AudioFormat>,
    folder: Option<Seq<char>>,
    record: RecordView,
    key: Seq<char>,
    value: Seq<char>,
)
    requires
        db.tag_values.finite(),
        visible_records(db, category, search, selected, include_tags, priority, folder).contains(
            record,
        ),
    ensures
        record.tags.contains_key(key) && record.tags[key].contains(value)
            <==> db.tag_values.contains(TagValueView { category, stem: record.stem, key, value }),
{
    let stems = query_stems(db, category, search, normal_selection(selected), include_tags);
    lemma_shown(db, category, search, selected, include_tags, priority, folder, record);
    lemma_sound_of_name(db, category, stems, priority, folder, record);
    lemma_stem_tags(db, category, record.stem, key, value);
}

/// A tag that users add is shown on the sound, and one that they remove is not.
pub proof fn lemma_edited_tags_are_shown(
    db: DatabaseView,
    category: Category,
    stem: Seq<char>,
    key: Seq<char>,
    value: Seq<char>,
    search: Seq<char>,
    selected: Map<Seq<char>, Set<Seq<char>>>,
    include_tags: bool,
    priority: Seq<AudioFormat>,
    folder: Option<Seq<char>>,
    record: RecordView,
)
    requires
        db.tag_values.finite(),
        key_in_use(db, category, key) is Some,
        normal_value(value) is Some,
        record.stem == stem,
    ensures
        ({
            let stored = key_in_use(db, category, key).unwrap();
            let normal = normal_value(value).unwrap();
            let shown = |db: DatabaseView|
                visible_records(db, category, search, selected, include_tags, priority, folder);
            &&& shown(after_add_tag(db, category, stem, key, value)).contains(record)
                ==> record.tags.contains_key(stored) && record.tags[stored].contains(normal)
            &&& shown(after_remove_tag(db, category, stem, key, value)).contains(record) ==> !(
            record.tags.contains_key(stored) && record.tags[stored].contains(normal))
        }),
{
    let stored = key_in_use(db, category, key).unwrap();
    let normal = normal_value(value).unwrap();
    let added = after_add_tag(db, category, stem, key, value);
    let removed = after_remove_tag(db, category, stem, key, value);
    if visible_records(added, category, search, selected, include_tags, priority, folder).contains(
        record,
    ) {
        lemma_shown_tags(
            added,
            category,
            search,
            selected,
            include_tags,
            priority,
            folder,
            record,
            stored,
            normal,
        );
    }
    if visible_records(
        removed,
        category,
        search,
        selected,
        include_tags,
        priority,
        folder,
    ).contains(record) {
        lemma_shown_tags(
            removed,
            category,
            search,
            selected,
            include_tags,
            priority,
            folder,
            record,
            stored,
            normal,
        );
    }
}

} // verus!
