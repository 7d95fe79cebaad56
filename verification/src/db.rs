//! The library's database: the files that it knows, their tags, and its settings.
use crate::model::{Category, WaveformBinary256};
use crate::order::{KeyView, SortKey};
use crate::row_set::{Row, RowSet};
use crate::text_map::TextMap;
use vstd::prelude::*;

pub mod folders;
pub mod laws;
pub mod migrations;
pub mod query;
pub mod rows;
pub mod schema;
pub mod settings;
pub mod statements;
pub mod sync;
pub mod tags;
pub mod waveforms;

verus! {

broadcast use vstd::string::group_string_axioms;

/// What the database keeps about one file, under its path.
#[derive(Debug)]
pub struct StoredFile {
    pub category: Category,
    pub stem: String,
    pub extension: String,
    pub size: u64,
    pub modified: i64,
    pub first_seen_at: i64,
    pub preview_waveform: Option<WaveformBinary256>,
    pub search_text: String,
}

/// The mathematical value of a [`StoredFile`].
#[verifier::ext_equal]
pub ghost struct StoredView {
    pub category: Category,
    pub stem: Seq<char>,
    pub extension: Seq<char>,
    pub size: u64,
    pub modified: i64,
    pub first_seen_at: i64,
    pub preview_waveform: Option<WaveformBinary256>,
    pub search_text: Seq<char>,
}

impl DeepView for StoredFile {
    type V = StoredView;

    open spec fn deep_view(&self) -> StoredView {
        StoredView {
            category: self.category,
            stem: self.stem@,
            extension: self.extension@,
            size: self.size,
            modified: self.modified,
            first_seen_at: self.first_seen_at,
            preview_waveform: self.preview_waveform,
            search_text: self.search_text@,
        }
    }
}

/// A tag key that a category offers.
#[derive(Debug)]
pub struct TagKey {
    pub category: Category,
    pub key: String,
}

/// The mathematical value of a [`TagKey`].
#[verifier::ext_equal]
pub ghost struct TagKeyView {
    pub category: Category,
    pub key: Seq<char>,
}

impl DeepView for TagKey {
    type V = TagKeyView;

    open spec fn deep_view(&self) -> TagKeyView {
        TagKeyView { category: self.category, key: self.key@ }
    }
}

/// A tag value that the files with a stem have under a key.
#[derive(Debug)]
pub struct TagValue {
    pub category: Category,
    pub stem: String,
    pub key: String,
    pub value: String,
}

/// The mathematical value of a [`TagValue`].
#[verifier::ext_equal]
pub ghost struct TagValueView {
    pub category: Category,
    pub stem: Seq<char>,
    pub key: Seq<char>,
    pub value: Seq<char>,
}

impl DeepView for TagValue {
    type V = TagValueView;

    open spec fn deep_view(&self) -> TagValueView {
        TagValueView {
            category: self.category,
            stem: self.stem@,
            key: self.key@,
            value: self.value@,
        }
    }
}

/// The place of a category among the categories.
pub open spec fn category_rank(category: Category) -> int {
    match category {
        Category::Music => 0,
        Category::Sfx => 1,
    }
}

/// The place of a category among the categories.
fn rank_of(category: Category) -> (r: i128)
    ensures
        r == category_rank(category),
{
    match category {
        Category::Music => 0,
        Category::Sfx => 1,
    }
}

impl Row for TagKey {
    open spec fn row_key(row: TagKeyView) -> KeyView {
        KeyView { rank: category_rank(row.category), parts: seq![row.key] }
    }

    proof fn lemma_row_key(a: TagKeyView, b: TagKeyView) {
        assert(Self::row_key(a).parts[0] == Self::row_key(b).parts[0]);
    }

    fn sort_key(&self) -> (r: SortKey) {
        let mut parts: Vec<String> = Vec::new();
        parts.push(self.key.clone());
        assert(parts.deep_view() =~= seq![self.key@]);
        SortKey { rank: rank_of(self.category), parts }
    }

    fn copy_row(&self) -> (r: Self) {
        TagKey { category: self.category, key: self.key.clone() }
    }
}

impl Row for TagValue {
    open spec fn row_key(row: TagValueView) -> KeyView {
        KeyView {
            rank: category_rank(row.category),
            parts: seq![row.stem, row.key, row.value],
        }
    }

    proof fn lemma_row_key(a: TagValueView, b: TagValueView) {
        assert(Self::row_key(a).parts[0] == Self::row_key(b).parts[0]);
        assert(Self::row_key(a).parts[1] == Self::row_key(b).parts[1]);
        assert(Self::row_key(a).parts[2] == Self::row_key(b).parts[2]);
    }

    fn sort_key(&self) -> (r: SortKey) {
        let mut parts: Vec<String> = Vec::new();
        parts.push(self.stem.clone());
        parts.push(self.key.clone());
        parts.push(self.value.clone());
        assert(parts.deep_view() =~= seq![self.stem@, self.key@, self.value@]);
        SortKey { rank: rank_of(self.category), parts }
    }

    fn copy_row(&self) -> (r: Self) {
        TagValue {
            category: self.category,
            stem: self.stem.clone(),
            key: self.key.clone(),
            value: self.value.clone(),
        }
    }
}

/// The tables of the library.
pub struct Database {
    pub files: TextMap<StoredFile>,
    pub tag_keys: RowSet<TagKey>,
    pub tag_values: RowSet<TagValue>,
    pub settings: TextMap<String>,
}

/// The mathematical value of a [`Database`].
#[verifier::ext_equal]
pub ghost struct DatabaseView {
    pub files: Map<Seq<char>, StoredView>,
    pub tag_keys: Set<TagKeyView>,
    pub tag_values: Set<TagValueView>,
    pub settings: Map<Seq<char>, Seq<char>>,
}

impl View for Database {
    type V = DatabaseView;

    open spec fn view(&self) -> DatabaseView {
        DatabaseView {
            files: self.files@,
            tag_keys: self.tag_keys@,
            tag_values: self.tag_values@,
            settings: self.settings@,
        }
    }
}

} // verus!
