//! What users see of the records and tags of a category.
use crate::model::{copy_tags, label_of_key, matches_scoped, normal_key, normalize_tag_key};
use crate::model::{record_matches_scoped, record_search_sort_key_scoped, record_sort_key};
use crate::model::{lemma_label_spells_key, lemma_stored_form};
use crate::model::{tag_label, FileRecord, FileVariant, RecordView, StateView, CategoryState};
use crate::order::{lemma_filter_contains, lemma_text_list_has};
use crate::order::{sort_with_keys, sorted_by, text_list, SortKey};
use crate::row_set::lemma_take_contains;
use crate::text::{ascii_lower, copy_texts, holds_text, lowercase, trimmed};
use crate::text_map::{TextMap, TextSet};
use vstd::prelude::*;

verus! {

broadcast use vstd::string::group_string_axioms;

/// The key under which users see a tag: its label in lower case.
pub open spec fn display_key(key: Seq<char>) -> Option<Seq<char>> {
    match normal_key(key) {
        Some(normal) => Some(lowercase(label_of_key(normal))),
        None => None,
    }
}

/// The key under which users see a tag.
pub fn display_tag_key(key: &str) -> (r: Option<String>)
    ensures
        r is Some <==> display_key(key@) is Some,
        r matches Some(shown) ==> display_key(key@) == Some(shown@),
{
    match normalize_tag_key(key) {
        Some(normal) => Some(tag_label(normal.as_str()).to_lowercase()),
        None => None,
    }
}

/// The values of `keys` under the keys that users see; of two keys that look the same the later one
/// counts.
pub open spec fn displayed_keys(
    schema: Map<Seq<char>, Seq<Seq<char>>>,
    keys: Seq<Seq<char>>,
) -> Map<Seq<char>, Seq<Seq<char>>>
    decreases keys.len(),
{
    if keys.len() == 0 {
        Map::empty()
    } else {
        let front = displayed_keys(schema, keys.drop_last());
        match display_key(keys.last()) {
            Some(shown) => front.insert(shown, schema[keys.last()]),
            None => front,
        }
    }
}

/// The tags of `schema` under the keys that users see.
pub open spec fn displayed(schema: Map<Seq<char>, Seq<Seq<char>>>) -> Map<
    Seq<char>,
    Seq<Seq<char>>,
> {
    displayed_keys(schema, text_list(schema.dom()))
}

/// The tags of `schema` under the keys that users see.
pub fn display_schema(schema: &TextMap<Vec<String>>) -> (r: TextMap<Vec<String>>)
    ensures
        r@ == displayed(schema@),
{
    let total = schema.len();
    let ghost keys = schema.keys();
    let mut r: TextMap<Vec<String>> = TextMap::new();
    let mut i: usize = 0;
    assert(keys.take(0) =~= seq![]);
    while i < total
        invariant
            i <= total,
            total == keys.len(),
            keys == schema.keys(),
            r@ == displayed_keys(schema@, keys.take(i as int)),
        decreases total - i,
    {
        proof {
            assert(keys.take(i + 1).drop_last() =~= keys.take(i as int));
            assert(keys.take(i + 1).last() == keys[i as int]);
        }
        match display_tag_key(schema.key_at(i).as_str()) {
            Some(shown) => {
                r.insert(shown, copy_texts(schema.value_at(i)));
            },
            None => {},
        }
        i += 1;
    }
    assert(keys.take(i as int) =~= keys);
    r
}

/// `record` with its tags under the keys that users see.
pub open spec fn displayed_record(record: RecordView) -> RecordView {
    RecordView { tags: displayed(record.tags), ..record }
}

/// `records` with their tags under the keys that users see.
pub open spec fn displayed_records(records: Seq<RecordView>) -> Seq<RecordView> {
    records.map_values(|record: RecordView| displayed_record(record))
}

/// A copy of `variants`.
fn copy_variants(variants: &Vec<FileVariant>) -> (r: Vec<FileVariant>)
    ensures
        r.deep_view() == variants.deep_view(),
{
    let ghost views = variants.deep_view();
    let mut r: Vec<FileVariant> = Vec::new();
    let mut i: usize = 0;
    assert(r.deep_view() =~= views.take(0));
    while i < variants.len()
        invariant
            i <= variants@.len(),
            views == variants.deep_view(),
            r.deep_view() == views.take(i as int),
        decreases variants.len() - i,
    {
        let ghost before = r.deep_view();
        r.push(variants[i].clone());
        assert(r.deep_view() =~= before.push(views[i as int]));
        assert(r.deep_view() =~= views.take(i + 1));
        i += 1;
    }
    assert(views.take(i as int) =~= views);
    r
}

/// A copy of `record`.
pub fn copy_record(record: &FileRecord) -> (r: FileRecord)
    ensures
        r.deep_view() == record.deep_view(),
{
    FileRecord {
        name: record.name.clone(),
        path: record.path.clone(),
        support: record.support,
        stem: record.stem.clone(),
        variants: copy_variants(&record.variants),
        tags: copy_tags(&record.tags),
    }
}

/// A copy of `records`.
pub fn copy_records(records: &Vec<FileRecord>) -> (r: Vec<FileRecord>)
    ensures
        r.deep_view() == records.deep_view(),
{
    let ghost views = records.deep_view();
    let mut r: Vec<FileRecord> = Vec::new();
    let mut i: usize = 0;
    assert(r.deep_view() =~= views.take(0));
    while i < records.len()
        invariant
            i <= records@.len(),
            views == records.deep_view(),
            r.deep_view() == views.take(i as int),
        decreases records.len() - i,
    {
        let ghost before = r.deep_view();
        r.push(copy_record(&records[i]));
        assert(r.deep_view() =~= before.push(views[i as int]));
        assert(r.deep_view() =~= views.take(i + 1));
        i += 1;
    }
    assert(views.take(i as int) =~= views);
    r
}

/// `record` with its tags under the keys that users see.
pub fn display_record(record: &FileRecord) -> (r: FileRecord)
    ensures
        r.deep_view() == displayed_record(record.deep_view()),
{
    FileRecord {
        name: record.name.clone(),
        path: record.path.clone(),
        support: record.support,
        stem: record.stem.clone(),
        variants: copy_variants(&record.variants),
        tags: display_schema(&record.tags),
    }
}

/// `records` with their tags under the keys that users see.
pub fn display_records(records: &Vec<FileRecord>) -> (r: Vec<FileRecord>)
    ensures
        r.deep_view() == displayed_records(records.deep_view()),
{
    let ghost wanted = displayed_records(records.deep_view());
    let mut r: Vec<FileRecord> = Vec::new();
    let mut i: usize = 0;
    assert(r.deep_view() =~= wanted.take(0));
    while i < records.len()
        invariant
            i <= records@.len(),
            wanted == displayed_records(records.deep_view()),
            r.deep_view() == wanted.take(i as int),
        decreases records.len() - i,
    {
        let ghost before = r.deep_view();
        assert(records.deep_view()[i as int] == records@[i as int].deep_view());
        r.push(display_record(&records[i]));
        assert(r.deep_view() =~= before.push(wanted[i as int]));
        assert(r.deep_view() =~= wanted.take(i + 1));
        i += 1;
    }
    assert(wanted.take(i as int) =~= wanted);
    r
}

/// The ones of `records` that match a search and checked filters, the best first.
pub open spec fn cached_results(
    records: Seq<RecordView>,
    search: Seq<char>,
    selected: Map<Seq<char>, Set<Seq<char>>>,
    include_tags: bool,
) -> Seq<RecordView> {
    sorted_by(
        records.filter(
            |record: RecordView| matches_scoped(record, search, selected, include_tags),
        ),
        |record: RecordView| record_sort_key(record, search, include_tags),
    )
}

/// The ones of `records` that match a search and checked filters, the best first.
pub fn filter_cached_records(
    records: &Vec<FileRecord>,
    search: &str,
    selected: &TextMap<TextSet>,
    include_tags: bool,
) -> (r: Vec<FileRecord>)
    ensures
        r.deep_view() == cached_results(records.deep_view(), search@, selected@, include_tags),
{
    let ghost all = records.deep_view();
    let ghost p = |record: RecordView| matches_scoped(record, search@, selected@, include_tags);
    let ghost key = |record: RecordView| record_sort_key(record, search@, include_tags);
    let mut found: Vec<FileRecord> = Vec::new();
    let mut keys: Vec<SortKey> = Vec::new();
    let mut i: usize = 0;
    proof {
        reveal(Seq::filter);
        assert(all.take(0) =~= seq![]);
        assert(found.deep_view() =~= all.take(0).filter(p));
    }
    while i < records.len()
        invariant
            i <= records@.len(),
            all == records.deep_view(),
            p == (|record: RecordView|
                matches_scoped(record, search@, selected@, include_tags)),
            key == (|record: RecordView| record_sort_key(record, search@, include_tags)),
            found@.len() == keys@.len(),
            found.deep_view() == all.take(i as int).filter(p),
            forall|j: int| #![trigger found.deep_view()[j]]
                0 <= j < found@.len() ==> keys@[j]@ == key(found.deep_view()[j]),
        decreases records.len() - i,
    {
        let ghost before = found.deep_view();
        let ghost old_keys = keys@;
        proof {
            reveal(Seq::filter);
            assert(all.take(i + 1).drop_last() =~= all.take(i as int));
            assert(all.take(i + 1).last() == all[i as int]);
            assert(all[i as int] == records@[i as int].deep_view());
        }
        let record = &records[i];
        if record_matches_scoped(record, search, selected, include_tags) {
            keys.push(record_search_sort_key_scoped(record, search, include_tags));
            found.push(copy_record(record));
            proof {
                assert(found.deep_view() =~= before.push(all[i as int]));
                assert forall|j: int| #![trigger found.deep_view()[j]]
                    0 <= j < found@.len() implies keys@[j]@ == key(found.deep_view()[j]) by {
                    if j < before.len() {
                        assert(found.deep_view()[j] == before[j]);
                        assert(keys@[j] == old_keys[j]);
                    }
                }
            }
        }
        i += 1;
    }
    assert(all.take(i as int) =~= all);
    sort_with_keys(found, keys, Ghost(key))
}

/// Whether one of `records` has `value` under `key`.
pub open spec fn occurs(records: Seq<RecordView>, key: Seq<char>, value: Seq<char>) -> bool {
    exists|i: int|
        0 <= i < records.len() && (#[trigger] records[i]).tags.contains_key(key)
            && records[i].tags[key].contains(value)
}

/// The ones of `values` that occur under `key` in `records`.
pub open spec fn occurring(
    records: Seq<RecordView>,
    key: Seq<char>,
    values: Seq<Seq<char>>,
) -> Seq<Seq<char>> {
    values.filter(|value: Seq<char>| occurs(records, key, value))
}

/// The tags that the filter panel shows: once something is checked, the values that still occur.
pub open spec fn panel_schema(state: StateView) -> Map<Seq<char>, Seq<Seq<char>>> {
    if state.selected.dom() == Set::<Seq<char>>::empty() {
        state.schema
    } else {
        Map::new(
            |key: Seq<char>|
                state.schema.contains_key(key) && occurring(
                    state.results,
                    key,
                    state.schema[key],
                ).len() > 0,
            |key: Seq<char>| occurring(state.results, key, state.schema[key]),
        )
    }
}

/// Whether one of `records` has `value` under `key`.
pub fn value_occurs(records: &Vec<FileRecord>, key: &str, value: &str) -> (r: bool)
    ensures
        r == occurs(records.deep_view(), key@, value@),
{
    let ghost views = records.deep_view();
    let mut i: usize = 0;
    while i < records.len()
        invariant
            i <= records@.len(),
            views == records.deep_view(),
            forall|j: int|
                0 <= j < i ==> !((#[trigger] views[j]).tags.contains_key(key@)
                    && views[j].tags[key@].contains(value@)),
        decreases records.len() - i,
    {
        assert(views[i as int] == records@[i as int].deep_view());
        match records[i].tags.get(key) {
            Some(values) => {
                if holds_text(values, value) {
                    return true;
                }
            },
            None => {},
        }
        i += 1;
    }
    false
}

/// The ones of `values` that occur under `key` in `records`.
fn occurring_values(records: &Vec<FileRecord>, key: &str, values: &Vec<String>) -> (r: Vec<String>)
    ensures
        r.deep_view() == occurring(records.deep_view(), key@, values.deep_view()),
{
    let ghost all = values.deep_view();
    let ghost p = |value: Seq<char>| occurs(records.deep_view(), key@, value);
    let mut out: Vec<String> = Vec::new();
    let mut i: usize = 0;
    proof {
        reveal(Seq::filter);
        assert(all.take(0) =~= seq![]);
        assert(out.deep_view() =~= all.take(0).filter(p));
    }
    while i < values.len()
        invariant
            i <= values@.len(),
            all == values.deep_view(),
            p == (|value: Seq<char>| occurs(records.deep_view(), key@, value)),
            out.deep_view() == all.take(i as int).filter(p),
        decreases values.len() - i,
    {
        let ghost before = out.deep_view();
        proof {
            reveal(Seq::filter);
            assert(all.take(i + 1).drop_last() =~= all.take(i as int));
            assert(all.take(i + 1).last() == all[i as int]);
            assert(all[i as int] == values@[i as int]@);
        }
        if value_occurs(records, key, values[i].as_str()) {
            out.push(values[i].clone());
            assert(out.deep_view() =~= before.push(all[i as int]));
        }
        i += 1;
    }
    assert(all.take(i as int) =~= all);
    out
}

/// The tags that the filter panel shows for `state`.
pub fn tag_panel_schema(state: &CategoryState) -> (r: TextMap<Vec<String>>)
    ensures
        r@ == panel_schema(state.deep_view()),
{
    if state.selected.is_empty() {
        return copy_tags(&state.schema);
    }
    let total = state.schema.len();
    let ghost keys = state.schema.keys();
    let ghost wanted = panel_schema(state.deep_view());
    let mut r: TextMap<Vec<String>> = TextMap::new();
    let mut i: usize = 0;
    while i < total
        invariant
            i <= total,
            total == keys.len(),
            keys == state.schema.keys(),
            state.selected@.dom() != Set::<Seq<char>>::empty(),
            wanted == panel_schema(state.deep_view()),
            forall|k: Seq<char>| #[trigger]
                r@.contains_key(k) <==> wanted.contains_key(k) && keys.take(i as int).contains(k),
            forall|k: Seq<char>| #[trigger] r@.contains_key(k) ==> r@[k] == wanted[k],
        decreases total - i,
    {
        let key = state.schema.key_at(i);
        let values = occurring_values(&state.results, key.as_str(), state.schema.value_at(i));
        proof {
            assert forall|k: Seq<char>| #[trigger]
                keys.take(i + 1).contains(k) <==> keys.take(i as int).contains(k) || k
                == keys[i as int] by {
                lemma_take_contains(keys, i as int, k);
            }
            assert(values@.len() == values.deep_view().len());
        }
        if values.len() > 0 {
            r.insert(key.clone(), values);
        }
        i += 1;
    }
    proof {
        assert(keys.take(i as int) =~= keys);
        assert forall|k: Seq<char>| #[trigger] r@.contains_key(k) <==> wanted.contains_key(k) by {
            assert(state.schema@.dom().contains(k) <==> keys.contains(k));
        }
        assert(r@ =~= wanted);
    }
    r
}

/// Users see a tag key of ASCII letters as they typed it, in lowercase and without white space around
/// it; a blank one is none.
pub proof fn lemma_shown_key(key: Seq<char>)
    requires
        vstd::utf8::is_ascii_chars(trimmed(key)),
    ensures
        trimmed(key).len() > 0 ==> display_key(key) == Some(ascii_lower(trimmed(key))),
        trimmed(key).len() == 0 ==> display_key(key) is None,
{
    lemma_stored_form(key);
    if trimmed(key).len() > 0 {
        let normal = normal_key(key).unwrap();
        let label = label_of_key(normal);
        lemma_label_spells_key(normal);
        reveal_strlit("GENRE");
        reveal_strlit("MOOD");
        reveal_strlit("TYPE");
        reveal_strlit("Genre");
        reveal_strlit("Mood");
        reveal_strlit("Type");
        reveal_strlit("genre");
        reveal_strlit("mood");
        reveal_strlit("type");
        let lower = ascii_lower(trimmed(key));
        assert(ascii_lower(lower) =~= lower);
        assert(ascii_lower("GENRE"@) =~= "genre"@);
        assert(ascii_lower("MOOD"@) =~= "mood"@);
        assert(ascii_lower("TYPE"@) =~= "type"@);
        assert(vstd::utf8::is_ascii_chars(lower));
        assert(vstd::utf8::is_ascii_chars("Genre"@));
        assert(vstd::utf8::is_ascii_chars("Mood"@));
        assert(vstd::utf8::is_ascii_chars("Type"@));
        if label == normal {
            if lower != "genre"@ && lower != "mood"@ && lower != "type"@ {
                assert(normal == lower);
            }
        }
        assert(ascii_lower(label) == lower);
    }
}

/// Every key is seen with its values, under the form in which users see it, as long as no other key
/// looks the same; and every key that is seen is one of those.
pub proof fn lemma_keys_are_seen(
    schema: Map<Seq<char>, Seq<Seq<char>>>,
    key: Seq<char>,
    shown: Seq<char>,
)
    requires
        schema.dom().finite(),
    ensures
        schema.contains_key(key) && display_key(key) == Some(shown) && (forall|
            other: Seq<char>,
        | #[trigger]
            schema.contains_key(other) && display_key(other) == Some(shown) ==> other == key)
            ==> displayed(schema).contains_key(shown) && displayed(schema)[shown] == schema[key],
        displayed(schema).contains_key(shown) ==> exists|other: Seq<char>| #[trigger]
            schema.contains_key(other) && display_key(other) == Some(shown)
                && displayed(schema)[shown] == schema[other],
{
    let keys = text_list(schema.dom());
    lemma_text_list_has(schema.dom(), key);
    assert forall|k: int| 0 <= k < keys.len() implies schema.contains_key(#[trigger] keys[k]) by {
        assert(keys.contains(keys[k]));
        lemma_text_list_has(schema.dom(), keys[k]);
    }
    lemma_seen_keys(schema, keys, shown);
    if schema.contains_key(key) && display_key(key) == Some(shown) {
        let k = choose|k: int| 0 <= k < keys.len() && keys[k] == key;
        assert(display_key(keys[k]) == Some(shown));
    }
}

proof fn lemma_seen_keys(
    schema: Map<Seq<char>, Seq<Seq<char>>>,
    keys: Seq<Seq<char>>,
    shown: Seq<char>,
)
    ensures
        displayed_keys(schema, keys).contains_key(shown) <==> exists|k: int|
            0 <= k < keys.len() && display_key(#[trigger] keys[k]) == Some(shown),
        displayed_keys(schema, keys).contains_key(shown) ==> exists|k: int|
            0 <= k < keys.len() && display_key(#[trigger] keys[k]) == Some(shown)
                && displayed_keys(schema, keys)[shown] == schema[keys[k]],
    decreases keys.len(),
{
    if keys.len() > 0 {
        let front = keys.drop_last();
        lemma_seen_keys(schema, front, shown);
        let last = keys.len() - 1;
        if display_key(keys[last]) == Some(shown) {
            assert(displayed_keys(schema, keys)[shown] == schema[keys[last]]);
        } else {
            if displayed_keys(schema, front).contains_key(shown) {
                let k = choose|k: int|
                    0 <= k < front.len() && display_key(#[trigger] front[k]) == Some(shown)
                        && displayed_keys(schema, front)[shown] == schema[front[k]];
                assert(keys[k] == front[k]);
            }
            if exists|k: int| 0 <= k < keys.len() && display_key(#[trigger] keys[k]) == Some(
                shown,
            ) {
                let k = choose|k: int|
                    0 <= k < keys.len() && display_key(#[trigger] keys[k]) == Some(shown);
                assert(front[k] == keys[k]);
            }
        }
    }
}

/// The filter panel shows every value while nothing is checked; once something is, those alone that
/// one of the sounds shown has, and no key without such a value.
pub proof fn lemma_panel_shows(state: StateView, key: Seq<char>, value: Seq<char>)
    ensures
        state.selected == Map::<Seq<char>, Set<Seq<char>>>::empty() ==> panel_schema(state)
            == state.schema,
        state.selected.contains_key(key) ==> forall|other: Seq<char>|
            panel_schema(state).contains_key(other) ==> #[trigger] panel_schema(state)[other].len()
                > 0,
        !(state.selected =~= Map::<Seq<char>, Set<Seq<char>>>::empty()) ==> (panel_schema(
            state,
        ).contains_key(key) && panel_schema(state)[key].contains(value)
            <==> state.schema.contains_key(key) && state.schema[key].contains(value) && exists|
            i: int,
        |
            0 <= i < state.results.len() && (#[trigger] state.results[i]).tags.contains_key(key)
                && state.results[i].tags[key].contains(value)),
{
    let checked = state.selected;
    if checked.dom() == Set::<Seq<char>>::empty() {
        assert(checked =~= Map::<Seq<char>, Set<Seq<char>>>::empty());
    }
    if checked == Map::<Seq<char>, Set<Seq<char>>>::empty() {
        assert(checked.dom() =~= Set::<Seq<char>>::empty());
    }
    let p = |value: Seq<char>| occurs(state.results, key, value);
    lemma_filter_contains(state.schema[key], p, value);
    assert(occurring(state.results, key, state.schema[key]) == state.schema[key].filter(p));
    if checked.contains_key(key) {
        assert(checked.dom().contains(key));
    }
}

/// Sounds are seen as they are, each in its place; only their tags are under the keys that users see.
pub proof fn lemma_sounds_are_seen(records: Seq<RecordView>, i: int)
    requires
        0 <= i < records.len(),
    ensures
        ({
            let seen = displayed_records(records);
            &&& seen.len() == records.len()
            &&& seen[i].name == records[i].name
            &&& seen[i].path == records[i].path
            &&& seen[i].stem == records[i].stem
            &&& seen[i].support == records[i].support
            &&& seen[i].variants == records[i].variants
            &&& seen[i].tags == displayed(records[i].tags)
        }),
{
}

} // verus!
