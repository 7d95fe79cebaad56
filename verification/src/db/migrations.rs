//! Bringing the tables of earlier versions up to date.
use super::settings::with_setting;
use super::waveforms::without_waveforms;
use super::{Database, DatabaseView, StoredFile, StoredView, TagKeyView, TagValueView};
use crate::model::{default_tag_keys, normal_key, normalize_tag_key, Category};
use crate::order::{is_ordering, key_lt, lemma_key_order, text_key};
use crate::row_set::lemma_take_contains;
use crate::text::same_text;
use crate::text_map::TextMap;
use vstd::prelude::*;

verus! {

broadcast use vstd::string::group_string_axioms;

pub const DEFAULT_TAG_KEYS_SEEDED_KEY: &'static str = "default_tag_keys_seeded";

pub const PREVIEW_WAVEFORM_VERSION_KEY: &'static str = "preview_waveform_version";

pub const PREVIEW_WAVEFORM_VERSION: &'static str = "2";

/// The word under which a category is stored.
pub open spec fn category_word(category: Category) -> Seq<char> {
    match category {
        Category::Music => "music"@,
        Category::Sfx => "sfx"@,
    }
}

/// The word under which a category is stored.
pub fn category_key(category: Category) -> (r: &'static str)
    ensures
        r@ == category_word(category),
{
    match category {
        Category::Music => "music",
        Category::Sfx => "sfx",
    }
}

/// The category stored under a word.
pub fn category_from_key(key: &str) -> (r: Option<Category>)
    ensures
        r matches Some(category) ==> key@ == category_word(category),
        r is None ==> forall|category: Category| key@ != #[trigger] category_word(category),
{
    if same_text(key, "music") {
        Some(Category::Music)
    } else if same_text(key, "sfx") {
        Some(Category::Sfx)
    } else {
        proof {
            assert forall|category: Category| key@ != #[trigger] category_word(category) by {
                match category {
                    Category::Music => {},
                    Category::Sfx => {},
                }
            }
        }
        None
    }
}

/// The words of the categories differ.
pub proof fn lemma_category_words(a: Category, b: Category)
    ensures
        category_word(a) == category_word(b) ==> a == b,
{
    reveal_strlit("music");
    reveal_strlit("sfx");
    assert("music"@.len() != "sfx"@.len());
}

/// Whether a key from before keys were kept by category goes to `category`: to those that start
/// with it, or to all if none does.
pub open spec fn takes_legacy_key(category: Category, key: Seq<char>) -> bool {
    default_tag_keys(category).contains(key) || !default_tag_keys(category.other()).contains(key)
}

/// Whether `category` starts with `key`.
fn starts_with_key(category: Category, key: &str) -> (r: bool)
    ensures
        r == default_tag_keys(category).contains(key@),
{
    let keys = category.tag_keys();
    let ghost defaults = default_tag_keys(category);
    let mut i: usize = 0;
    while i < keys.len()
        invariant
            i <= keys@.len(),
            defaults == default_tag_keys(category),
            keys@.len() == defaults.len(),
            forall|j: int| 0 <= j < keys@.len() ==> (#[trigger] keys@[j])@ == defaults[j],
            forall|j: int| 0 <= j < i ==> defaults[j] != key@,
        decreases keys.len() - i,
    {
        if same_text(keys[i], key) {
            assert(defaults[i as int] == key@);
            return true;
        }
        i += 1;
    }
    false
}

/// `db` with the keys of `keys`, which come from before keys were kept by category.
pub open spec fn with_legacy_keys(db: DatabaseView, keys: Seq<Seq<char>>) -> DatabaseView {
    DatabaseView {
        tag_keys: Set::new(
            |row: TagKeyView|
                db.tag_keys.contains(row) || (takes_legacy_key(row.category, row.key) && exists|
                    i: int,
                |
                    0 <= i < keys.len() && normal_key(#[trigger] keys[i]) == Some(row.key)),
        ),
        ..db
    }
}

/// `db` with a time of first sight for the files that have none: the number of their row.
pub open spec fn with_first_seen(db: DatabaseView, row_ids: Map<Seq<char>, i64>) -> DatabaseView {
    DatabaseView {
        files: Map::new(
            |path: Seq<char>| db.files.contains_key(path),
            |path: Seq<char>|
                if db.files[path].first_seen_at == 0 && row_ids.contains_key(path) {
                    StoredView { first_seen_at: row_ids[path], ..db.files[path] }
                } else {
                    db.files[path]
                },
        ),
        ..db
    }
}

/// `db` with waveforms of the present version alone.
pub open spec fn with_waveform_version(db: DatabaseView) -> DatabaseView {
    if db.settings.contains_key(PREVIEW_WAVEFORM_VERSION_KEY@)
        && db.settings[PREVIEW_WAVEFORM_VERSION_KEY@] == PREVIEW_WAVEFORM_VERSION@ {
        db
    } else {
        with_setting(
            without_waveforms(db),
            PREVIEW_WAVEFORM_VERSION_KEY@,
            PREVIEW_WAVEFORM_VERSION@,
        )
    }
}

/// `db` with every key under which a tag is stored among the keys of its category.
pub open spec fn with_keys_of_values(db: DatabaseView) -> DatabaseView {
    DatabaseView {
        tag_keys: Set::new(
            |row: TagKeyView|
                db.tag_keys.contains(row) || exists|tag: TagValueView| #[trigger]
                    db.tag_values.contains(tag) && tag.category == row.category && normal_key(
                        tag.key,
                    ) == Some(row.key),
        ),
        ..db
    }
}

/// `db` with the keys that the categories start with, which are put in once.
pub open spec fn with_default_keys(db: DatabaseView) -> DatabaseView {
    if db.settings.contains_key(DEFAULT_TAG_KEYS_SEEDED_KEY@) {
        db
    } else {
        with_setting(
            DatabaseView {
                tag_keys: Set::new(
                    |row: TagKeyView|
                        db.tag_keys.contains(row) || default_tag_keys(row.category).contains(
                            row.key,
                        ),
                ),
                ..db
            },
            DEFAULT_TAG_KEYS_SEEDED_KEY@,
            "1"@,
        )
    }
}

/// The tables `db` brought up to date.
pub open spec fn after_init(
    db: DatabaseView,
    legacy_keys: Seq<Seq<char>>,
    row_ids: Map<Seq<char>, i64>,
) -> DatabaseView {
    with_default_keys(
        with_keys_of_values(
            with_waveform_version(with_first_seen(with_legacy_keys(db, legacy_keys), row_ids)),
        ),
    )
}

impl Database {
    /// Empty tables.
    pub fn new() -> (r: Database)
        ensures
            r@ == (DatabaseView {
                files: Map::empty(),
                tag_keys: Set::empty(),
                tag_values: Set::empty(),
                settings: Map::empty(),
            }),
    {
        Database {
            files: TextMap::new(),
            tag_keys: crate::row_set::RowSet::new(),
            tag_values: crate::row_set::RowSet::new(),
            settings: TextMap::new(),
        }
    }

    /// Brings the tables up to date: `legacy_keys` come from before keys were kept by category, and
    /// `row_ids` number the rows of files by path.
    pub fn init(&mut self, legacy_keys: &Vec<String>, row_ids: &TextMap<i64>)
        ensures
            final(self)@ == after_init(old(self)@, legacy_keys.deep_view(), row_ids@),
    {
        self.migrate_tag_keys(legacy_keys);
        self.migrate_files_first_seen_at(row_ids);
        self.migrate_files_preview_waveform();
        self.seed_tag_keys_from_values();
        self.seed_default_tag_keys();
    }

    /// Takes over keys from before keys were kept by category.
    pub fn migrate_tag_keys(&mut self, legacy_keys: &Vec<String>)
        ensures
            final(self)@ == with_legacy_keys(old(self)@, legacy_keys.deep_view()),
    {
        let ghost before = self@;
        let ghost keys = legacy_keys.deep_view();
        let mut i: usize = 0;
        assert(self@ =~= with_legacy_keys(before, keys.take(0)));
        while i < legacy_keys.len()
            invariant
                i <= legacy_keys@.len(),
                keys == legacy_keys.deep_view(),
                self@ == with_legacy_keys(before, keys.take(i as int)),
            decreases legacy_keys.len() - i,
        {
            let ghost was = self@;
            assert(keys[i as int] == legacy_keys@[i as int]@);
            let normal = normalize_tag_key(legacy_keys[i].as_str());
            match &normal {
                Some(key) => {
                    let music = starts_with_key(Category::Music, key.as_str());
                    let sfx = starts_with_key(Category::Sfx, key.as_str());
                    if music || !sfx {
                        self.ensure_tag_key(Category::Music, key.as_str());
                    }
                    if sfx || !music {
                        self.ensure_tag_key(Category::Sfx, key.as_str());
                    }
                },
                None => {},
            }
            proof {
                let next = with_legacy_keys(before, keys.take(i + 1));
                assert forall|row: TagKeyView| #[trigger]
                    self@.tag_keys.contains(row) <==> next.tag_keys.contains(row) by {
                    lemma_normal_in_prefix(keys, i as int, row.key);
                    assert(was.tag_keys.contains(row) <==> with_legacy_keys(
                        before,
                        keys.take(i as int),
                    ).tag_keys.contains(row));
                }
                assert(self@.tag_keys =~= next.tag_keys);
            }
            i += 1;
        }
        assert(keys.take(i as int) =~= keys);
    }

    /// Gives the files without a time of first sight the number of their row.
    pub fn migrate_files_first_seen_at(&mut self, row_ids: &TextMap<i64>)
        ensures
            final(self)@ == with_first_seen(old(self)@, row_ids@),
    {
        let ghost before = self@;
        let total = row_ids.len();
        let ghost paths = row_ids.keys();
        let mut i: usize = 0;
        while i < total
            invariant
                i <= total,
                total == paths.len(),
                paths == row_ids.keys(),
                forall|p: Seq<char>| #[trigger] row_ids@.dom().contains(p) <==> paths.contains(p),
                is_ordering(paths, row_ids@.dom(), |t: Seq<char>| text_key(t)),
                self@ == (DatabaseView { files: self@.files, ..before }),
                self@.files.dom() == before.files.dom(),
                forall|p: Seq<char>| #[trigger]
                    before.files.contains_key(p) ==> self@.files[p] == if before.files[p].first_seen_at
                        == 0 && paths.take(i as int).contains(p) {
                        StoredView { first_seen_at: row_ids@[p], ..before.files[p] }
                    } else {
                        before.files[p]
                    },
            decreases total - i,
        {
            let ghost was = self@;
            let path = row_ids.key_at(i);
            let id: i64 = *row_ids.value_at(i);
            proof {
                if paths.take(i as int).contains(path@) {
                    let j = choose|j: int| 0 <= j < i && paths.take(i as int)[j] == path@;
                    let key = |t: Seq<char>| text_key(t);
                    assert(key_lt(key(paths[j]), key(paths[i as int])));
                    lemma_key_order(key(paths[j]), key(paths[j]));
                }
            }
            match self.files.remove(path.as_str()) {
                Some(stored) => {
                    let stored = if stored.first_seen_at == 0 {
                        StoredFile { first_seen_at: id, ..stored }
                    } else {
                        stored
                    };
                    self.files.insert(path.clone(), stored);
                },
                None => {
                    assert(self@.files =~= was.files);
                },
            }
            proof {
                assert(self@.files.dom() =~= before.files.dom());
                assert forall|p: Seq<char>| #[trigger]
                    before.files.contains_key(p) implies self@.files[p]
                    == if before.files[p].first_seen_at == 0 && paths.take(i + 1).contains(p) {
                    StoredView { first_seen_at: row_ids@[p], ..before.files[p] }
                } else {
                    before.files[p]
                } by {
                    lemma_take_contains(paths, i as int, p);
                }
            }
            i += 1;
        }
        proof {
            assert(paths.take(i as int) =~= paths);
            assert forall|p: Seq<char>| #[trigger] row_ids@.contains_key(p) <==> paths.contains(p) by {
                assert(row_ids@.dom().contains(p) <==> paths.contains(p));
            }
            assert(self@.files =~= with_first_seen(before, row_ids@).files);
        }
    }

    /// Drops waveforms of another version.
    pub fn migrate_files_preview_waveform(&mut self)
        ensures
            final(self)@ == with_waveform_version(old(self)@),
    {
        let current = match self.settings.get(PREVIEW_WAVEFORM_VERSION_KEY) {
            Some(version) => same_text(version.as_str(), PREVIEW_WAVEFORM_VERSION),
            None => false,
        };
        if !current {
            self.clear_waveforms();
            self.set_setting(PREVIEW_WAVEFORM_VERSION_KEY, PREVIEW_WAVEFORM_VERSION);
        }
    }

    /// Puts every key under which a tag is stored among the keys of its category.
    pub fn seed_tag_keys_from_values(&mut self)
        ensures
            final(self)@ == with_keys_of_values(old(self)@),
    {
        let ghost before = self@;
        let total = self.tag_values.len();
        let ghost items = self.tag_values.items();
        let mut i: usize = 0;
        while i < total
            invariant
                i <= total,
                total == items.len(),
                items == self.tag_values.items(),
                forall|row: TagValueView| #[trigger]
                    before.tag_values.contains(row) <==> items.contains(row),
                self@ == (DatabaseView { tag_keys: self@.tag_keys, ..before }),
                forall|row: TagKeyView| #[trigger]
                    self@.tag_keys.contains(row) <==> before.tag_keys.contains(row) || exists|
                        j: int,
                    |
                        0 <= j < i && (#[trigger] items[j]).category == row.category && normal_key(
                            items[j].key,
                        ) == Some(row.key),
            decreases total - i,
        {
            let ghost was = self@;
            let row = self.tag_values.row_at(i);
            let category = row.category;
            let normal = normalize_tag_key(row.key.as_str());
            assert(items[i as int].category == category);
            match &normal {
                Some(key) => {
                    self.ensure_tag_key(category, key.as_str());
                },
                None => {},
            }
            proof {
                assert forall|row: TagKeyView| #[trigger]
                    self@.tag_keys.contains(row) <==> before.tag_keys.contains(row) || exists|
                        j: int,
                    |
                        0 <= j < i + 1 && (#[trigger] items[j]).category == row.category
                            && normal_key(items[j].key) == Some(row.key) by {
                    if was.tag_keys.contains(row) && !before.tag_keys.contains(row) {
                        let j = choose|j: int|
                            0 <= j < i && (#[trigger] items[j]).category == row.category
                                && normal_key(items[j].key) == Some(row.key);
                        assert(items[j].category == row.category);
                    }
                    if exists|j: int|
                        0 <= j < i + 1 && (#[trigger] items[j]).category == row.category
                            && normal_key(items[j].key) == Some(row.key) {
                        let j = choose|j: int|
                            0 <= j < i + 1 && (#[trigger] items[j]).category == row.category
                                && normal_key(items[j].key) == Some(row.key);
                        if j < i {
                            assert(was.tag_keys.contains(row));
                        }
                    }
                }
            }
            i += 1;
        }
        proof {
            let wanted = with_keys_of_values(before);
            assert forall|row: TagKeyView| #[trigger]
                self@.tag_keys.contains(row) <==> wanted.tag_keys.contains(row) by {
                if exists|j: int|
                    0 <= j < i && (#[trigger] items[j]).category == row.category && normal_key(
                        items[j].key,
                    ) == Some(row.key) {
                    let j = choose|j: int|
                        0 <= j < i && (#[trigger] items[j]).category == row.category && normal_key(
                            items[j].key,
                        ) == Some(row.key);
                    assert(items.contains(items[j]));
                    assert(before.tag_values.contains(items[j]));
                }
                if exists|tag: TagValueView| #[trigger]
                    before.tag_values.contains(tag) && tag.category == row.category && normal_key(
                        tag.key,
                    ) == Some(row.key) {
                    let tag = choose|tag: TagValueView| #[trigger]
                        before.tag_values.contains(tag) && tag.category == row.category
                            && normal_key(tag.key) == Some(row.key);
                    assert(items.contains(tag));
                    let j = choose|j: int| 0 <= j < items.len() && items[j] == tag;
                    assert(items[j].category == row.category);
                }
            }
            assert(self@.tag_keys =~= wanted.tag_keys);
        }
    }

    /// Puts in the keys that the categories start with, once.
    pub fn seed_default_tag_keys(&mut self)
        ensures
            final(self)@ == with_default_keys(old(self)@),
    {
        let ghost before = self@;
        if self.settings.contains_key(DEFAULT_TAG_KEYS_SEEDED_KEY) {
            return ;
        }
        self.ensure_default_keys(Category::Music);
        self.ensure_default_keys(Category::Sfx);
        proof {
            let wanted = with_default_keys(before);
            assert forall|row: TagKeyView| #[trigger]
                self@.tag_keys.contains(row) <==> wanted.tag_keys.contains(row) by {
                match row.category {
                    Category::Music => {},
                    Category::Sfx => {},
                }
            }
            assert(self@.tag_keys =~= wanted.tag_keys);
        }
        self.set_setting(DEFAULT_TAG_KEYS_SEEDED_KEY, "1");
    }

    /// Puts in the keys that `category` starts with.
    fn ensure_default_keys(&mut self, category: Category)
        ensures
            final(self)@ == (DatabaseView { tag_keys: final(self)@.tag_keys, ..old(self)@ }),
            forall|row: TagKeyView| #[trigger]
                final(self)@.tag_keys.contains(row) <==> old(self)@.tag_keys.contains(row) || (
                row.category == category && default_tag_keys(category).contains(row.key)),
    {
        let ghost before = self@;
        let keys = category.tag_keys();
        let ghost defaults = default_tag_keys(category);
        let mut i: usize = 0;
        while i < keys.len()
            invariant
                i <= keys@.len(),
                keys@.len() == defaults.len(),
                forall|j: int| 0 <= j < keys@.len() ==> (#[trigger] keys@[j])@ == defaults[j],
                self@ == (DatabaseView { tag_keys: self@.tag_keys, ..before }),
                forall|row: TagKeyView| #[trigger]
                    self@.tag_keys.contains(row) <==> before.tag_keys.contains(row) || (row.category
                        == category && defaults.take(i as int).contains(row.key)),
            decreases keys.len() - i,
        {
            let ghost was = self@;
            self.ensure_tag_key(category, keys[i]);
            proof {
                assert forall|row: TagKeyView| #[trigger]
                    self@.tag_keys.contains(row) <==> before.tag_keys.contains(row) || (row.category
                        == category && defaults.take(i + 1).contains(row.key)) by {
                    lemma_take_contains(defaults, i as int, row.key);
                    assert(was.tag_keys.contains(row) <==> before.tag_keys.contains(row) || (
                    row.category == category && defaults.take(i as int).contains(row.key)));
                }
            }
            i += 1;
        }
        assert(defaults.take(i as int) =~= defaults);
    }
}

proof fn lemma_normal_in_prefix(keys: Seq<Seq<char>>, i: int, key: Seq<char>)
    requires
        0 <= i < keys.len(),
    ensures
        (exists|j: int| 0 <= j < i + 1 && normal_key(#[trigger] keys.take(i + 1)[j]) == Some(key))
            <==> (exists|j: int|
            0 <= j < i && normal_key(#[trigger] keys.take(i)[j]) == Some(key)) || normal_key(
            keys[i],
        ) == Some(key),
{
    let next = keys.take(i + 1);
    let head = keys.take(i);
    if exists|j: int| 0 <= j < i && normal_key(#[trigger] head[j]) == Some(key) {
        let j = choose|j: int| 0 <= j < i && normal_key(#[trigger] head[j]) == Some(key);
        assert(normal_key(next[j]) == Some(key));
    }
    if normal_key(keys[i]) == Some(key) {
        assert(normal_key(next[i]) == Some(key));
    }
    if exists|j: int| 0 <= j < i + 1 && normal_key(#[trigger] next[j]) == Some(key) {
        let j = choose|j: int| 0 <= j < i + 1 && normal_key(#[trigger] next[j]) == Some(key);
        if j < i {
            assert(normal_key(head[j]) == Some(key));
        }
    }
}

/// Tables that are up to date stay as they are.
pub proof fn lemma_init_again(
    db: DatabaseView,
    legacy_keys: Seq<Seq<char>>,
    row_ids: Map<Seq<char>, i64>,
)
    ensures
        after_init(after_init(db, legacy_keys, row_ids), seq![], Map::empty()) == after_init(
            db,
            legacy_keys,
            row_ids,
        ),
{
    let once = after_init(db, legacy_keys, row_ids);
    let keyed = with_legacy_keys(once, seq![]);
    assert(keyed.tag_keys =~= once.tag_keys);
    let seen = with_first_seen(keyed, Map::empty());
    assert(seen.files =~= once.files);
    reveal_strlit("default_tag_keys_seeded");
    reveal_strlit("preview_waveform_version");
    assert(DEFAULT_TAG_KEYS_SEEDED_KEY@.len() != PREVIEW_WAVEFORM_VERSION_KEY@.len());
    assert(with_waveform_version(seen) == seen);
    let offered = with_keys_of_values(seen);
    assert forall|row: TagKeyView| #[trigger]
        offered.tag_keys.contains(row) <==> seen.tag_keys.contains(row) by {
        if offered.tag_keys.contains(row) && !seen.tag_keys.contains(row) {
            let tag = choose|tag: TagValueView| #[trigger]
                seen.tag_values.contains(tag) && tag.category == row.category && normal_key(tag.key)
                    == Some(row.key);
            let first = with_waveform_version(
                with_first_seen(with_legacy_keys(db, legacy_keys), row_ids),
            );
            assert(first.tag_values.contains(tag));
            assert(with_keys_of_values(first).tag_keys.contains(row));
        }
    }
    assert(offered.tag_keys =~= seen.tag_keys);
}

/// Bringing the tables up to date keeps every file and every tag. A file keeps what is known of it:
/// only a file without a time of first sight gets one, and its waveform is dropped if waveforms of
/// another version are stored.
pub proof fn lemma_init_keeps_files(
    db: DatabaseView,
    legacy_keys: Seq<Seq<char>>,
    row_ids: Map<Seq<char>, i64>,
    path: Seq<char>,
)
    ensures
        ({
            let after = after_init(db, legacy_keys, row_ids);
            let present = db.settings.contains_key("preview_waveform_version"@)
                && db.settings["preview_waveform_version"@] == "2"@;
            &&& after.tag_values == db.tag_values
            &&& after.files.contains_key(path) <==> db.files.contains_key(path)
            &&& db.files.contains_key(path) ==> after.files[path] == (StoredView {
                first_seen_at: if db.files[path].first_seen_at == 0 && row_ids.contains_key(path) {
                    row_ids[path]
                } else {
                    db.files[path].first_seen_at
                },
                preview_waveform: if present {
                    db.files[path].preview_waveform
                } else {
                    None
                },
                ..db.files[path]
            })
        }),
{
}

/// Bringing the tables up to date takes no key away. It puts in the keys that the categories start
/// with, unless that was done before, the keys of the stored tags, and the keys of earlier versions:
/// each goes to the category that starts with it, and to both if none does.
pub proof fn lemma_init_puts_in_keys(
    db: DatabaseView,
    legacy_keys: Seq<Seq<char>>,
    row_ids: Map<Seq<char>, i64>,
    i: int,
    tag: TagValueView,
    row: TagKeyView,
    key: Seq<char>,
)
    ensures
        ({
            let after = after_init(db, legacy_keys, row_ids);
            let music = |key: Seq<char>|
                after.tag_keys.contains(TagKeyView { category: Category::Music, key });
            let sfx = |key: Seq<char>|
                after.tag_keys.contains(TagKeyView { category: Category::Sfx, key });
            &&& db.tag_keys.contains(row) ==> after.tag_keys.contains(row)
            &&& !db.settings.contains_key("default_tag_keys_seeded"@) ==> music("GENRE"@) && music(
                "MOOD"@,
            ) && sfx("TYPE"@)
            &&& db.tag_values.contains(tag) && normal_key(tag.key) == Some(key)
                ==> after.tag_keys.contains(TagKeyView { category: tag.category, key })
            &&& 0 <= i < legacy_keys.len() && normal_key(legacy_keys[i]) == Some(key) ==> {
                &&& key != "TYPE"@ ==> music(key)
                &&& key != "GENRE"@ && key != "MOOD"@ ==> sfx(key)
            }
            &&& after.tag_keys.contains(row) ==> {
                ||| db.tag_keys.contains(row)
                ||| !db.settings.contains_key("default_tag_keys_seeded"@) && (row.category
                    == Category::Music && (row.key == "GENRE"@ || row.key == "MOOD"@)
                    || row.category == Category::Sfx && row.key == "TYPE"@)
                ||| exists|tag: TagValueView| #[trigger]
                    db.tag_values.contains(tag) && tag.category == row.category && normal_key(
                        tag.key,
                    ) == Some(row.key)
                ||| exists|j: int|
                    0 <= j < legacy_keys.len() && normal_key(#[trigger] legacy_keys[j]) == Some(
                        row.key,
                    ) && !(row.category == Category::Music && row.key == "TYPE"@) && !(row.category
                        == Category::Sfx && (row.key == "GENRE"@ || row.key == "MOOD"@))
            }
        }),
{
    reveal_strlit("GENRE");
    reveal_strlit("MOOD");
    reveal_strlit("TYPE");
    let music = default_tag_keys(Category::Music);
    let sfx = default_tag_keys(Category::Sfx);
    assert(music.len() == 2 && music[0] == "GENRE"@ && music[1] == "MOOD"@);
    assert(sfx.len() == 1 && sfx[0] == "TYPE"@);
    assert("MOOD"@[0] != "TYPE"@[0]);
    assert(music.contains("GENRE"@) && music.contains("MOOD"@) && sfx.contains("TYPE"@));
    let taken = with_legacy_keys(db, legacy_keys);
    let versioned = with_waveform_version(with_first_seen(taken, row_ids));
    assert(versioned.tag_keys == taken.tag_keys);
    assert(versioned.tag_values == db.tag_values);
    lemma_setting_names_differ();
    assert(versioned.settings.contains_key("default_tag_keys_seeded"@)
        <==> db.settings.contains_key("default_tag_keys_seeded"@));
    let after = after_init(db, legacy_keys, row_ids);
    if db.tag_values.contains(tag) && normal_key(tag.key) == Some(key) {
        assert(with_keys_of_values(versioned).tag_keys.contains(
            TagKeyView { category: tag.category, key },
        ));
    }
    if 0 <= i < legacy_keys.len() && normal_key(legacy_keys[i]) == Some(key) {
        if key != "TYPE"@ {
            assert(!sfx.contains(key));
            assert(taken.tag_keys.contains(TagKeyView { category: Category::Music, key }));
        }
        if key != "GENRE"@ && key != "MOOD"@ {
            assert(!music.contains(key));
            assert(taken.tag_keys.contains(TagKeyView { category: Category::Sfx, key }));
        }
    }
}

proof fn lemma_setting_names_differ()
    ensures
        "default_tag_keys_seeded"@ != "preview_waveform_version"@,
{
    reveal_strlit("default_tag_keys_seeded");
    reveal_strlit("preview_waveform_version");
    assert("default_tag_keys_seeded"@[0] != "preview_waveform_version"@[0]);
}

/// Tables that were brought up to date say so, and every other setting stays as it was.
pub proof fn lemma_init_settings(
    db: DatabaseView,
    legacy_keys: Seq<Seq<char>>,
    row_ids: Map<Seq<char>, i64>,
    name: Seq<char>,
)
    ensures
        ({
            let after = after_init(db, legacy_keys, row_ids);
            &&& after.settings.contains_key("default_tag_keys_seeded"@)
            &&& after.settings.contains_key("preview_waveform_version"@)
            &&& after.settings["preview_waveform_version"@] == "2"@
            &&& name != "default_tag_keys_seeded"@ && name != "preview_waveform_version"@ ==> (
            after.settings.contains_key(name) <==> db.settings.contains_key(name))
                && after.settings[name] == db.settings[name]
            &&& db.settings.contains_key("default_tag_keys_seeded"@)
                ==> after.settings["default_tag_keys_seeded"@]
                == db.settings["default_tag_keys_seeded"@]
        }),
{
    lemma_setting_names_differ();
}

} // verus!
