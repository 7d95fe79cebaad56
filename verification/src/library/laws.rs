//! What holds of the library whatever users do.
use super::display::{cached_results, displayed, displayed_records};
use super::filters::{accompanied, accompanied_tags, are_together, has_company, has_tag, is_used};
use super::filters::{lemma_fitting_filter_stays, passable, passable_filters, reconciled_filters};
use super::transfers::with_moved_tags;
use super::{is_visible_in_panel, toggled, toggled_tidy, toggled_value, values_under};
use super::{LibraryView, SearchTask};
use crate::backend::scanner::stem_or_empty;
use crate::backend::{shown, BackendView};
use crate::config::SettingsView;
use crate::db::laws::lemma_stem_tags;
use crate::db::query::lemma_best_match_is_first;
use crate::db::schema::schema_of;
use crate::db::tags::{has_copy, is_copy, lemma_copied_tags_are_there, row_has_stem, tags_on};
use crate::db::tags::with_copied_tags;
use crate::db::{DatabaseView, TagKeyView, TagValueView};
use crate::downloader::DownloadErrorKind;
use crate::model::{is_subsequence, lemma_empty_filters_match, matches_scoped, record_sort_key};
use crate::model::{some_value_matches, Category, RecordView, StateView};
use crate::order::{lemma_filter_contains, lemma_sorted_by, sorted_by, text_lt};
use crate::text::{begins_with, lowercase, occurs_in, words};
use vstd::prelude::*;

verus! {

/// A search that is made beside users' work shows, once it is over, what the same search made at
/// once shows.
pub proof fn lemma_async_search_is_search(library: LibraryView, search: Seq<char>)
    ensures
        ({
            let asked = library.with_query(search);
            let state = asked.state(library.active);
            asked.with_state(
                library.active,
                StateView {
                    results: cached_results(
                        state.all_records,
                        search,
                        state.selected,
                        asked.filters_open,
                    ),
                    ..state
                },
            ).results_changed() == library.with_search(search)
        }),
{
}

/// A later search outdates an earlier one, and so does any change of the results.
pub proof fn lemma_later_search_outdates(
    task: SearchTask,
    library: LibraryView,
    search: Seq<char>,
    category: Category,
)
    requires
        task.is_current(library),
    ensures
        !task.is_current(library.with_query(search)),
        !task.is_current(library.searched(category)),
        !task.is_current(library.fresh(category)),
{
    reveal(LibraryView::refreshed);
}

/// Showing the database anew in a category leaves what the other one shows.
pub proof fn lemma_fresh_keeps_other_category(library: LibraryView, category: Category)
    ensures
        library.fresh(category).state(category.other()) == library.state(category.other()),
        library.searched(category).state(category.other()) == library.state(category.other()),
        library.fresh(category).settings.intersection(category.other())
            == library.settings.intersection(category.other()),
        library.fresh(category).backend == library.backend,
        library.fresh(category).state(category).search == library.state(category).search,
{
    reveal(LibraryView::refreshed);
}

/// Every checked filter of a category that shows the database anew lets a value of its tags through.
pub proof fn lemma_fresh_filters_fit(
    library: LibraryView,
    category: Category,
    key: Seq<char>,
    filter: Seq<char>,
)
    requires
        library.fresh(category).state(category).selected.contains_key(key),
        library.fresh(category).state(category).selected[key].contains(filter),
    ensures
        library.fresh(category).state(category).schema.contains_key(key),
        some_value_matches(library.fresh(category).state(category).schema[key], filter),
{
    reveal(LibraryView::refreshed);
}

/// A filter that no value of the tags passes any more is no longer checked.
pub proof fn lemma_orphaned_filter_is_unchecked(
    library: LibraryView,
    category: Category,
    key: Seq<char>,
    filter: Seq<char>,
)
    requires
        library.all_tags(category).contains_key(key) ==> !some_value_matches(
            library.all_tags(category)[key],
            filter,
        ),
    ensures
        !values_under(library.fresh(category).state(category).selected, key).contains(filter),
{
    reveal(LibraryView::refreshed);
}

/// Tags that are shown only beside others occur beside others, once the database is shown anew.
pub proof fn lemma_fresh_forgets_lonely_tags(
    library: LibraryView,
    category: Category,
    key: Seq<char>,
    value: Seq<char>,
)
    requires
        library.settings_writable,
        values_under(library.fresh(category).settings.intersection(category), key).contains(value),
    ensures
        has_company(library.fresh(category).state(category).all_records, (key, value)),
        values_under(library.settings.intersection(category), key).contains(value),
{
    reveal(LibraryView::refreshed);
}

proof fn lemma_filters_fit_again(
    selected: Map<Seq<char>, Set<Seq<char>>>,
    schema: Map<Seq<char>, Seq<Seq<char>>>,
)
    ensures
        passable_filters(schema, passable_filters(schema, selected)) == passable_filters(
            schema,
            selected,
        ),
{
    let once = passable_filters(schema, selected);
    let twice = passable_filters(schema, once);
    assert forall|key: Seq<char>| #[trigger] once.contains_key(key) implies passable(
        schema[key],
        once[key],
    ) == once[key] by {
        assert(passable(schema[key], once[key]) =~= once[key]);
    }
    assert(twice =~= once);
}

proof fn lemma_company_again(
    records: Seq<RecordView>,
    tags: Map<Seq<char>, Set<Seq<char>>>,
)
    ensures
        accompanied_tags(records, accompanied_tags(records, tags)) == accompanied_tags(
            records,
            tags,
        ),
{
    let once = accompanied_tags(records, tags);
    let twice = accompanied_tags(records, once);
    assert forall|key: Seq<char>| #[trigger] once.contains_key(key) implies accompanied(
        records,
        key,
        once[key],
    ) == once[key] by {
        assert(accompanied(records, key, once[key]) =~= once[key]);
    }
    assert(twice =~= once);
}

/// Showing the database anew twice shows what showing it anew once does.
pub proof fn lemma_fresh_again(library: LibraryView, category: Category)
    ensures
        library.fresh(category).fresh(category).state(category) == library.fresh(category).state(
            category,
        ),
        library.fresh(category).fresh(category).settings == library.fresh(category).settings,
{
    reveal(LibraryView::refreshed);
    let once = library.fresh(category);
    lemma_filters_fit_again(library.state(category).selected, library.all_tags(category));
    lemma_company_again(
        library.all_records(category),
        library.settings.intersection(category),
    );
    assert(once.all_records(category) == library.all_records(category));
    assert(once.all_tags(category) == library.all_tags(category));
}

/// Without a search and checked filters a category shows all of its sounds, and no others.
pub proof fn lemma_cleared_category_shows_all(
    library: LibraryView,
    category: Category,
    record: RecordView,
)
    requires
        library.state(category).search.len() == 0,
        library.state(category).selected == Map::<Seq<char>, Set<Seq<char>>>::empty(),
    ensures
        library.searched(category).state(category).results.contains(record) <==> library.state(
            category,
        ).all_records.contains(record),
{
    let state = library.state(category);
    let p = |r: RecordView|
        matches_scoped(r, state.search, state.selected, library.filters_open);
    let key = |r: RecordView| record_sort_key(r, state.search, library.filters_open);
    let found = state.all_records.filter(p);
    assert(p(record)) by {
        lemma_empty_filters_match(record, state.search, state.selected, library.filters_open);
    }
    lemma_filter_contains(state.all_records, p, record);
    lemma_sorted_by(found, key);
}

/// Whatever a category shows matches its search and its filters, and is one of its sounds.
pub proof fn lemma_results_match(library: LibraryView, category: Category, record: RecordView)
    ensures
        library.searched(category).state(category).results.contains(record) <==> library.state(
            category,
        ).all_records.contains(record) && matches_scoped(
            record,
            library.state(category).search,
            library.state(category).selected,
            library.filters_open,
        ),
{
    let state = library.state(category);
    let p = |r: RecordView|
        matches_scoped(r, state.search, state.selected, library.filters_open);
    let key = |r: RecordView| record_sort_key(r, state.search, library.filters_open);
    lemma_filter_contains(state.all_records, p, record);
    lemma_sorted_by(state.all_records.filter(p), key);
}

/// Toggling a value twice leaves everything as it was.
pub proof fn lemma_toggle_twice(
    tags: Map<Seq<char>, Set<Seq<char>>>,
    key: Seq<char>,
    value: Seq<char>,
    other: Seq<char>,
)
    ensures
        toggled_value(toggled_value(values_under(tags, key), value), value) == values_under(
            tags,
            key,
        ),
        values_under(toggled(toggled(tags, key, value), key, value), other) == values_under(
            tags,
            other,
        ),
        values_under(toggled_tidy(toggled_tidy(tags, key, value), key, value), other)
            == values_under(tags, other),
{
    let values = values_under(tags, key);
    assert(toggled_value(toggled_value(values, value), value) =~= values);
    if toggled_value(values, value) == Set::<Seq<char>>::empty() {
        assert(values_under(toggled_tidy(tags, key, value), key) =~= Set::<Seq<char>>::empty());
    }
}

/// Going to the next category twice, or to the next and the previous one, leads back.
pub proof fn lemma_categories_wrap(category: Category)
    ensures
        category.other() != category,
        category.other().other() == category,
{
}

/// While a download runs no other one starts, and pasting leaves it as it is.
pub proof fn lemma_one_download_at_a_time(
    library: LibraryView,
    category: Category,
    clipboard: Option<Seq<char>>,
)
    requires
        library.download_state is Running,
    ensures
        !library.starts_download(category, clipboard),
        library.pasted(category, clipboard).download_state == library.download_state,
        library.pasted(category, clipboard).download_canceled == library.download_canceled,
{
}

/// Whether a download can be canceled just while it runs.
pub open spec fn cancels_what_runs(library: LibraryView) -> bool {
    library.download_canceled is Some <==> library.download_state is Running
}

/// A download can be canceled just while it runs, whatever is pasted, canceled or ends. Canceling
/// lets it run on until it has stopped, and a new download is not canceled from the start.
pub proof fn lemma_running_download_can_be_canceled(
    library: LibraryView,
    category: Category,
    clipboard: Option<Seq<char>>,
    kind: DownloadErrorKind,
    message: Seq<char>,
)
    requires
        cancels_what_runs(library),
    ensures
        cancels_what_runs(library.pasted(category, clipboard)),
        cancels_what_runs(library.with_cancel_asked()),
        cancels_what_runs(library.download_over()),
        cancels_what_runs(library.download_failed(kind, message)),
        library.download_state is Running ==> library.with_cancel_asked().download_canceled == Some(
            true,
        ) && library.with_cancel_asked().download_state is Running,
        !(library.download_state is Running) ==> library.with_cancel_asked() == library,
        library.with_cancel_asked().with_cancel_asked() == library.with_cancel_asked(),
        library.starts_download(category, clipboard) ==> library.pasted(
            category,
            clipboard,
        ).download_canceled == Some(false),
{
}

/// A download runs after pasting just if it ran before or starts.
pub proof fn lemma_paste_starts_or_tells(
    library: LibraryView,
    category: Category,
    clipboard: Option<Seq<char>>,
)
    ensures
        library.pasted(category, clipboard).download_state is Running <==> (library.download_state
            is Running || library.starts_download(category, clipboard)),
        !(library.pasted(category, clipboard).download_state is Idle),
{
}

/// Files that are dropped on the category from which they are dragged stay there.
pub proof fn lemma_drop_at_home_is_nothing(
    library: LibraryView,
    category: Category,
    dropped: Seq<(Seq<char>, Option<Seq<char>>)>,
)
    requires
        library.drag_origin(dropped) == Some(category),
    ensures
        !library.starts_import(category, dropped),
        library.dropped_on(category, dropped) == (LibraryView {
            internal_file_drag: None,
            ..library
        }),
{
}

/// A file that came from another category has all of its tags there, under keys that the category
/// offers.
pub proof fn lemma_moved_tags_are_there(
    backend: BackendView,
    origin: Category,
    category: Category,
    moved: Seq<(Seq<char>, Seq<char>)>,
    i: int,
    tag: TagValueView,
)
    requires
        origin != category,
        0 <= i < moved.len(),
        backend.db.tag_values.finite(),
        backend.db.tag_values.contains(tag),
        row_has_stem(tag, origin, stem_or_empty(moved[i].0)),
    ensures
        has_copy(
            with_moved_tags(backend, origin, category, moved).db,
            tag,
            category,
            stem_or_empty(moved[i].1),
        ),
    decreases moved.len(),
{
    let front = moved.drop_last();
    let before = with_moved_tags(backend, origin, category, front);
    let after = with_moved_tags(backend, origin, category, moved);
    let source = stem_or_empty(moved.last().0);
    let destination = stem_or_empty(moved.last().1);
    let rows = tags_on(before.db, origin, source);
    lemma_moved_tags_stay(backend, origin, category, front);
    lemma_copied_tags_are_there(before.db, rows, category, destination);
    if i == moved.len() - 1 {
        lemma_stem_tags(before.db, origin, source, tag.key, tag.value);
        assert(tag == TagValueView {
            category: origin,
            stem: source,
            key: tag.key,
            value: tag.value,
        });
        assert(rows.contains(tag));
        let t = choose|t: int| 0 <= t < rows.len() && rows[t] == tag;
        assert(has_copy(after.db, rows[t], category, destination));
    } else {
        assert(front[i] == moved[i]);
        lemma_moved_tags_are_there(backend, origin, category, front, i, tag);
        let stem = stem_or_empty(moved[i].1);
        let row = choose|row: TagValueView| #[trigger]
            before.db.tag_values.contains(row) && is_copy(row, tag, category, stem)
                && before.db.tag_keys.contains(TagKeyView { category, key: row.key });
        assert(after.db.tag_values.contains(row));
    }
}

/// Moving files takes no tag away.
proof fn lemma_moved_tags_stay(
    backend: BackendView,
    origin: Category,
    category: Category,
    moved: Seq<(Seq<char>, Seq<char>)>,
)
    requires
        backend.db.tag_values.finite(),
    ensures
        with_moved_tags(backend, origin, category, moved).db.tag_values.finite(),
        forall|row: TagValueView| #[trigger]
            backend.db.tag_values.contains(row) ==> with_moved_tags(
                backend,
                origin,
                category,
                moved,
            ).db.tag_values.contains(row),
    decreases moved.len(),
{
    if moved.len() > 0 {
        let front = moved.drop_last();
        lemma_moved_tags_stay(backend, origin, category, front);
        let before = with_moved_tags(backend, origin, category, front);
        let rows = tags_on(before.db, origin, stem_or_empty(moved.last().0));
        lemma_copied_tags_are_there(before.db, rows, category, stem_or_empty(moved.last().1));
        lemma_copied_tags_are_finite(before.db, rows, category, stem_or_empty(moved.last().1));
        assert forall|row: TagValueView| #[trigger]
            backend.db.tag_values.contains(row) implies with_moved_tags(
            backend,
            origin,
            category,
            moved,
        ).db.tag_values.contains(row) by {
            assert(before.db.tag_values.contains(row));
        }
    }
}

proof fn lemma_copied_tags_are_finite(
    db: DatabaseView,
    rows: Seq<TagValueView>,
    category: Category,
    stem: Seq<char>,
)
    requires
        db.tag_values.finite(),
    ensures
        with_copied_tags(db, rows, category, stem).tag_values.finite(),
    decreases rows.len(),
{
    if rows.len() > 0 {
        lemma_copied_tags_are_finite(db, rows.drop_last(), category, stem);
    }
}

/// What a category shows is in order: the sound with the whole name before all others, then those of
/// whose name the search is a word, those whose name starts with it, those in whose name it occurs,
/// those whose name has its characters in order; the case of letters does not count. Without a search
/// sounds are shown by name.
pub proof fn lemma_results_are_in_order(
    library: LibraryView,
    category: Category,
    i: int,
    j: int,
)
    requires
        0 <= i < library.searched(category).state(category).results.len(),
        0 <= j < library.searched(category).state(category).results.len(),
    ensures
        ({
            let shown = library.searched(category).state(category).results;
            let search = library.state(category).search;
            let query = lowercase(search);
            let x = lowercase(shown[i].name);
            let y = lowercase(shown[j].name);
            &&& search.len() > 0 ==> {
                &&& x == query && y != query ==> i < j
                &&& words(x).contains(query) && y != query && !words(y).contains(query) ==> i < j
                &&& begins_with(x, query) && !begins_with(y, query) && !words(y).contains(query)
                    ==> i < j
                &&& occurs_in(x, query) && !occurs_in(y, query) ==> i < j
                &&& is_subsequence(query, x) && !is_subsequence(query, y) ==> i < j
            }
            &&& search.len() == 0 && text_lt(x, y) ==> i < j
        }),
{
    let state = library.state(category);
    let found = state.all_records.filter(
        |record: RecordView|
            matches_scoped(record, state.search, state.selected, library.filters_open),
    );
    let key = |record: RecordView| record_sort_key(record, state.search, library.filters_open);
    lemma_sorted_by(found, key);
    assert(library.searched(category).state(category).results == sorted_by(found, key));
    lemma_best_match_is_first(found, state.search, library.filters_open, i, j);
}

/// A search is put in both categories, and the active one shows what it finds; filters, tags, sounds
/// and everything else stay as they are.
pub proof fn lemma_search_is_put_in_both(
    library: LibraryView,
    search: Seq<char>,
    category: Category,
    record: RecordView,
)
    ensures
        ({
            let after = library.with_search(search);
            &&& after.state(category).search == search
            &&& after.state(category).selected == library.state(category).selected
            &&& after.state(category).schema == library.state(category).schema
            &&& after.state(category).all_records == library.state(category).all_records
            &&& after.state(library.active).results.contains(record) <==> library.state(
                library.active,
            ).all_records.contains(record) && matches_scoped(
                record,
                search,
                library.state(library.active).selected,
                library.filters_open,
            )
            &&& after.active == library.active
            &&& after.backend == library.backend
            &&& after.settings == library.settings
            &&& after.table_revision != library.table_revision
            &&& after.filter_panel_revision != library.filter_panel_revision
        }),
{
    let asked = library.with_query(search);
    lemma_results_match(asked, library.active, record);
}

/// A category that shows the database anew shows its tags and its sounds, under the keys that users
/// see, and keeps the search; of its sounds it shows those that match.
pub proof fn lemma_fresh_shows_database(
    library: LibraryView,
    category: Category,
    record: RecordView,
)
    ensures
        ({
            let after = library.fresh(category);
            let state = after.state(category);
            &&& state.search == library.state(category).search
            &&& state.schema == displayed(schema_of(library.backend.db, category))
            &&& state.all_records == displayed_records(
                shown(library.backend, category, Seq::empty(), Map::empty(), true),
            )
            &&& state.results.contains(record) <==> state.all_records.contains(record)
                && matches_scoped(record, state.search, state.selected, library.filters_open)
            &&& after.active == library.active
            &&& after.filters_open == library.filters_open
            &&& after.table_revision != library.table_revision
        }),
{
    reveal(LibraryView::refreshed);
    let after = library.fresh(category);
    let state = after.state(category);
    let p = |record: RecordView|
        matches_scoped(record, state.search, state.selected, library.filters_open);
    let key = |record: RecordView| record_sort_key(record, state.search, library.filters_open);
    lemma_sorted_by(state.all_records.filter(p), key);
    assert(state.results == sorted_by(state.all_records.filter(p), key));
    lemma_filter_contains(state.all_records, p, record);
}

/// Toggling a value puts it in where it was out and takes it out where it was in; no other value and
/// no other key changes, and a key that is kept tidy has values.
pub proof fn lemma_toggled(
    tags: Map<Seq<char>, Set<Seq<char>>>,
    key: Seq<char>,
    value: Seq<char>,
    other_key: Seq<char>,
    other: Seq<char>,
)
    ensures
        ({
            let plain = values_under(toggled(tags, key, value), other_key);
            let tidy = values_under(toggled_tidy(tags, key, value), other_key);
            let before = values_under(tags, other_key);
            &&& plain.contains(other) <==> if other_key == key && other == value {
                !before.contains(other)
            } else {
                before.contains(other)
            }
            &&& tidy.contains(other) <==> if other_key == key && other == value {
                !before.contains(other)
            } else {
                before.contains(other)
            }
            &&& toggled_tidy(tags, key, value).contains_key(key) ==> toggled_tidy(
                tags,
                key,
                value,
            )[key] != Set::<Seq<char>>::empty()
        }),
{
    let values = toggled_value(values_under(tags, key), value);
    if values == Set::<Seq<char>>::empty() {
        assert(!values.contains(other));
    }
}

/// The filter panel shows every tag while something is searched. Otherwise it leaves out those tags
/// alone that are shown only beside others and that no sound has beside a checked filter.
pub proof fn lemma_panel_leaves_out(
    library: LibraryView,
    key: Seq<char>,
    value: Seq<char>,
    checked_key: Seq<char>,
    checked: Seq<char>,
    i: int,
)
    ensures
        ({
            let state = library.state(library.active);
            let shown = is_visible_in_panel(library, (key, value));
            let beside = values_under(library.settings.intersection(library.active), key).contains(
                value,
            );
            &&& state.search.len() > 0 ==> shown
            &&& !beside ==> shown
            &&& !library.is_linked(library.active) ==> shown
            &&& (forall|n: int|
                0 <= n < state.all_records.len() ==> !has_tag(
                    (#[trigger] state.all_records[n]).tags,
                    (key, value),
                )) ==> shown
            &&& state.selected.contains_key(checked_key) && state.selected[checked_key].contains(
                checked,
            ) && (checked_key, checked) != (key, value) && 0 <= i < state.all_records.len()
                && has_tag(state.all_records[i].tags, (key, value)) && has_tag(
                state.all_records[i].tags,
                (checked_key, checked),
            ) ==> shown
            &&& state.search.len() == 0 && beside && library.is_linked(library.active) && 0 <= i
                < state.all_records.len() && has_tag(state.all_records[i].tags, (key, value))
                && state.selected == Map::<Seq<char>, Set<Seq<char>>>::empty() ==> !shown
        }),
{
    let state = library.state(library.active);
    if state.selected.contains_key(checked_key) && state.selected[checked_key].contains(checked) && (
    checked_key, checked) != (key, value) && 0 <= i < state.all_records.len() && has_tag(
        state.all_records[i].tags,
        (key, value),
    ) && has_tag(state.all_records[i].tags, (checked_key, checked)) {
        assert(are_together(state.all_records, (key, value), (checked_key, checked)));
    }
    if 0 <= i < state.all_records.len() && has_tag(state.all_records[i].tags, (key, value)) {
        assert(is_used(state.all_records, (key, value)));
    }
}

/// Settings that cannot be written stay as they are; those that can are taken over, and nothing else
/// changes. Hiding tag groups hides exactly those.
pub proof fn lemma_settings_are_taken_over(
    library: LibraryView,
    settings: SettingsView,
    keys: Set<Seq<char>>,
)
    ensures
        library.settings_writable ==> library.with_settings(settings).settings == settings,
        !library.settings_writable ==> library.with_settings(settings) == library
            && library.with_hidden_groups(keys) == library,
        library.with_settings(settings).backend == library.backend,
        library.with_settings(settings).music == library.music,
        library.with_settings(settings).sfx == library.sfx,
        library.settings_writable ==> library.with_hidden_groups(keys).settings
            == (SettingsView { hidden_tag_groups: keys, ..library.settings })
            && library.with_hidden_groups(keys).filter_panel_revision
            != library.filter_panel_revision,
{
}

/// Picking the tag that a search means clears the search and toggles the tag; it stays checked if the
/// tags that the category has let it through.
pub proof fn lemma_picked_tag(library: LibraryView, key: Seq<char>, value: Seq<char>)
    ensures
        ({
            let after = library.with_tag_picked((key, value));
            let before = library.state(library.active);
            let state = after.state(library.active);
            &&& after.active == library.active
            &&& state.search.len() == 0
            &&& values_under(before.selected, key).contains(value) ==> !values_under(
                state.selected,
                key,
            ).contains(value)
            &&& !values_under(before.selected, key).contains(value) && library.all_tags(
                library.active,
            ).contains_key(key) && some_value_matches(
                library.all_tags(library.active)[key],
                value,
            ) ==> values_under(state.selected, key).contains(value)
        }),
{
    reveal(LibraryView::refreshed);
    let cleared = library.with_search(Seq::empty());
    let picked = toggled(cleared.state(cleared.active).selected, key, value);
    let asked = cleared.with_state(
        cleared.active,
        StateView { selected: picked, ..cleared.state(cleared.active) },
    );
    assert(library.with_tag_picked((key, value)) == asked.fresh(library.active));
    assert(asked.all_tags(library.active) == library.all_tags(library.active));
    let schema = library.all_tags(library.active);
    let after = reconciled_filters(picked, schema, None);
    assert(asked.fresh(library.active).state(library.active).selected == after);
    lemma_fitting_filter_stays(picked, schema, key, value);
    lemma_toggled(cleared.state(cleared.active).selected, key, value, key, value);
}

/// At first a category shows all of its sounds and all of its tags, under the keys that users see, with
/// nothing searched and nothing checked.
pub proof fn lemma_loaded_state_shows_all(
    library: LibraryView,
    category: Category,
    key: Seq<char>,
)
    ensures
        ({
            let state = library.loaded_state(category);
            &&& state.results == state.all_records
            &&& state.all_records == displayed_records(
                shown(library.backend, category, Seq::empty(), Map::empty(), true),
            )
            &&& state.schema == displayed(schema_of(library.backend.db, category))
            &&& state.search.len() == 0
            &&& !state.selected.contains_key(key)
        }),
{
}

/// What is set for one category is read back, and the other one keeps what it has; a category that
/// shows the database anew knows which of its tags occur together.
pub proof fn lemma_categories_are_apart(
    library: LibraryView,
    category: Category,
    state: StateView,
)
    ensures
        library.with_state(category, state).state(category) == state,
        library.with_state(category, state).state(category.other()) == library.state(
            category.other(),
        ),
        library.with_state(category, state).backend == library.backend,
        library.fresh(category).is_linked(category),
        library.fresh(category).is_linked(category.other()) == library.is_linked(category.other()),
{
    reveal(LibraryView::refreshed);
}

} // verus!
