//! What users set up: folders, the download format, hidden and intersecting tags.
use crate::model::{format_of, AudioFormat, Category};
use crate::path::{is_absolute, is_bare_name, join, joined, lemma_file_in_folder, parent};
use crate::path::{parent_of, parts};
use crate::text::same_text;
use crate::text_map::{TextMap, TextSet};
use vstd::prelude::*;

verus! {

broadcast use vstd::string::group_string_axioms;

/// The tags of which sounds must have all, by category.
pub struct IntersectionTags {
    pub music: TextMap<TextSet>,
    pub sfx: TextMap<TextSet>,
}

impl IntersectionTags {
    /// The tags for `category`.
    pub open spec fn of(self, category: Category) -> Map<Seq<char>, Set<Seq<char>>> {
        match category {
            Category::Music => self.music@,
            Category::Sfx => self.sfx@,
        }
    }

    /// Whether there are none.
    pub fn is_empty(&self) -> (r: bool)
        ensures
            r == (self.music@.dom() == Set::<Seq<char>>::empty() && self.sfx@.dom() == Set::<
                Seq<char>,
            >::empty()),
    {
        self.music.is_empty() && self.sfx.is_empty()
    }
}

/// What users set up.
pub struct Settings {
    pub music_folder: Option<String>,
    pub sfx_folder: Option<String>,
    pub download_format: Option<String>,
    pub hidden_tag_groups: TextSet,
    pub hidden_tag_columns: TextSet,
    pub intersection_tags: IntersectionTags,
}

/// The mathematical value of a [`Settings`].
#[verifier::ext_equal]
pub ghost struct SettingsView {
    pub music_folder: Option<Seq<char>>,
    pub sfx_folder: Option<Seq<char>>,
    pub download_format: Option<Seq<char>>,
    pub hidden_tag_groups: Set<Seq<char>>,
    pub hidden_tag_columns: Set<Seq<char>>,
    pub music_intersection: Map<Seq<char>, Set<Seq<char>>>,
    pub sfx_intersection: Map<Seq<char>, Set<Seq<char>>>,
}

impl View for Settings {
    type V = SettingsView;

    open spec fn view(&self) -> SettingsView {
        SettingsView {
            music_folder: self.music_folder.deep_view(),
            sfx_folder: self.sfx_folder.deep_view(),
            download_format: self.download_format.deep_view(),
            hidden_tag_groups: self.hidden_tag_groups@,
            hidden_tag_columns: self.hidden_tag_columns@,
            music_intersection: self.intersection_tags.music@,
            sfx_intersection: self.intersection_tags.sfx@,
        }
    }
}

impl SettingsView {
    /// The folder of `category`.
    pub open spec fn folder(self, category: Category) -> Option<Seq<char>> {
        match category {
            Category::Music => self.music_folder,
            Category::Sfx => self.sfx_folder,
        }
    }

    /// The settings with another folder for `category`.
    pub open spec fn with_folder(self, category: Category, folder: Seq<char>) -> SettingsView {
        match category {
            Category::Music => SettingsView { music_folder: Some(folder), ..self },
            Category::Sfx => SettingsView { sfx_folder: Some(folder), ..self },
        }
    }

    /// The format in which downloads are kept.
    pub open spec fn format(self) -> AudioFormat {
        match self.download_format {
            Some(word) => match format_of(word) {
                Some(format) => format,
                None => AudioFormat::Opus,
            },
            None => AudioFormat::Opus,
        }
    }

    /// The tags of which sounds of `category` must have all.
    pub open spec fn intersection(self, category: Category) -> Map<Seq<char>, Set<Seq<char>>> {
        match category {
            Category::Music => self.music_intersection,
            Category::Sfx => self.sfx_intersection,
        }
    }

    /// The settings with other intersecting tags for `category`.
    pub open spec fn with_intersection(
        self,
        category: Category,
        tags: Map<Seq<char>, Set<Seq<char>>>,
    ) -> SettingsView {
        match category {
            Category::Music => SettingsView { music_intersection: tags, ..self },
            Category::Sfx => SettingsView { sfx_intersection: tags, ..self },
        }
    }
}

/// A copy of a set of texts.
pub fn copy_set(set: &TextSet) -> (r: TextSet)
    ensures
        r@ == set@,
{
    let total = set.len();
    let ghost items = set.items();
    let mut r = TextSet::new();
    let mut i: usize = 0;
    while i < total
        invariant
            i <= total,
            total == items.len(),
            items == set.items(),
            forall|t: Seq<char>| #[trigger] set@.contains(t) <==> items.contains(t),
            forall|t: Seq<char>| #[trigger] r@.contains(t) <==> items.take(i as int).contains(t),
        decreases total - i,
    {
        r.insert(set.item_at(i).clone());
        proof {
            assert forall|t: Seq<char>| #[trigger] r@.contains(t) <==> items.take(i + 1).contains(
                t,
            ) by {
                crate::row_set::lemma_take_contains(items, i as int, t);
            }
        }
        i += 1;
    }
    assert(items.take(i as int) =~= items);
    assert(r@ =~= set@);
    r
}

/// A copy of sets of texts by key.
pub fn copy_sets(sets: &TextMap<TextSet>) -> (r: TextMap<TextSet>)
    ensures
        r@ == sets@,
{
    let total = sets.len();
    let ghost keys = sets.keys();
    let mut r: TextMap<TextSet> = TextMap::new();
    let mut i: usize = 0;
    while i < total
        invariant
            i <= total,
            total == keys.len(),
            keys == sets.keys(),
            forall|k: Seq<char>| #[trigger] sets@.dom().contains(k) <==> keys.contains(k),
            forall|k: Seq<char>| #[trigger]
                r@.contains_key(k) <==> keys.take(i as int).contains(k),
            forall|k: Seq<char>| #[trigger]
                r@.contains_key(k) ==> sets@.contains_key(k) && r@[k] == sets@[k],
        decreases total - i,
    {
        let key = sets.key_at(i);
        r.insert(key.clone(), copy_set(sets.value_at(i)));
        proof {
            assert forall|k: Seq<char>| #[trigger]
                r@.contains_key(k) <==> keys.take(i + 1).contains(k) by {
                crate::row_set::lemma_take_contains(keys, i as int, k);
            }
        }
        i += 1;
    }
    proof {
        assert(keys.take(i as int) =~= keys);
        assert forall|k: Seq<char>| #[trigger] r@.contains_key(k) <==> sets@.contains_key(k) by {
            assert(sets@.dom().contains(k) <==> keys.contains(k));
        }
        assert(r@ =~= sets@);
    }
    r
}

impl Settings {
    /// Nothing is set up yet.
    pub fn new() -> (r: Settings)
        ensures
            r@ == (SettingsView {
                music_folder: None,
                sfx_folder: None,
                download_format: None,
                hidden_tag_groups: Set::empty(),
                hidden_tag_columns: Set::empty(),
                music_intersection: Map::empty(),
                sfx_intersection: Map::empty(),
            }),
    {
        Settings {
            music_folder: None,
            sfx_folder: None,
            download_format: None,
            hidden_tag_groups: TextSet::new(),
            hidden_tag_columns: TextSet::new(),
            intersection_tags: IntersectionTags { music: TextMap::new(), sfx: TextMap::new() },
        }
    }

    /// The folder of `category`.
    pub fn category_folder(&self, category: Category) -> (r: Option<&str>)
        ensures
            r is Some <==> self@.folder(category) is Some,
            r matches Some(folder) ==> self@.folder(category) == Some(folder@),
    {
        match category {
            Category::Music => match &self.music_folder {
                Some(folder) => Some(folder.as_str()),
                None => None,
            },
            Category::Sfx => match &self.sfx_folder {
                Some(folder) => Some(folder.as_str()),
                None => None,
            },
        }
    }

    /// Sets the folder of `category`.
    pub fn set_category_folder(&mut self, category: Category, path: String)
        ensures
            final(self)@ == old(self)@.with_folder(category, path@),
    {
        match category {
            Category::Music => {
                self.music_folder = Some(path);
            },
            Category::Sfx => {
                self.sfx_folder = Some(path);
            },
        }
    }

    /// The format in which downloads are kept.
    pub fn download_format(&self) -> (r: AudioFormat)
        ensures
            r == self@.format(),
    {
        match &self.download_format {
            Some(word) => match AudioFormat::from_str(word.as_str()) {
                Ok(format) => format,
                Err(_) => AudioFormat::Opus,
            },
            None => AudioFormat::Opus,
        }
    }

    /// Sets the format in which downloads are kept.
    pub fn set_download_format(&mut self, format: AudioFormat)
        ensures
            final(self)@ == (SettingsView {
                download_format: Some(format.extension_text()),
                ..old(self)@
            }),
    {
        self.download_format = Some(format.extension().to_owned());
    }

    /// The tag groups that are hidden.
    pub fn hidden_tag_groups(&self) -> (r: TextSet)
        ensures
            r@ == self@.hidden_tag_groups,
    {
        copy_set(&self.hidden_tag_groups)
    }

    /// Sets the tag groups that are hidden.
    pub fn set_hidden_tag_groups(&mut self, keys: TextSet)
        ensures
            final(self)@ == (SettingsView { hidden_tag_groups: keys@, ..old(self)@ }),
    {
        self.hidden_tag_groups = keys;
    }

    /// The tag columns that are hidden.
    pub fn hidden_tag_columns(&self) -> (r: TextSet)
        ensures
            r@ == self@.hidden_tag_columns,
    {
        copy_set(&self.hidden_tag_columns)
    }

    /// Sets the tag columns that are hidden.
    pub fn set_hidden_tag_columns(&mut self, keys: TextSet)
        ensures
            final(self)@ == (SettingsView { hidden_tag_columns: keys@, ..old(self)@ }),
    {
        self.hidden_tag_columns = keys;
    }

    /// The tags of which sounds of `category` must have all.
    pub fn intersection_tags(&self, category: Category) -> (r: TextMap<TextSet>)
        ensures
            r@ == self@.intersection(category),
    {
        match category {
            Category::Music => copy_sets(&self.intersection_tags.music),
            Category::Sfx => copy_sets(&self.intersection_tags.sfx),
        }
    }

    /// Sets the tags of which sounds of `category` must have all.
    pub fn set_intersection_tags(&mut self, category: Category, tags: TextMap<TextSet>)
        ensures
            final(self)@ == old(self)@.with_intersection(category, tags@),
    {
        match category {
            Category::Music => {
                self.intersection_tags.music = tags;
            },
            Category::Sfx => {
                self.intersection_tags.sfx = tags;
            },
        }
    }
}

/// The download format that was set is read back.
pub proof fn lemma_download_format_round_trip(settings: SettingsView, format: AudioFormat)
    ensures
        (SettingsView { download_format: Some(format.extension_text()), ..settings }).format()
            == format,
{
    crate::model::lemma_format_round_trip(format);
}

/// The folder that was set for a category is read back, and that of the other one stays.
pub proof fn lemma_folder_round_trip(
    settings: SettingsView,
    category: Category,
    folder: Seq<char>,
)
    ensures
        settings.with_folder(category, folder).folder(category) == Some(folder),
        settings.with_folder(category, folder).folder(category.other()) == settings.folder(
            category.other(),
        ),
{
}

/// The place of the settings below a folder.
pub open spec fn settings_below(folder: Seq<char>) -> Seq<char> {
    joined(joined(folder, "lowcat"@), "settings.toml"@)
}

/// Whether a variable of the environment is set to something.
pub open spec fn is_given(value: Option<Seq<char>>) -> bool {
    value matches Some(text) && text.len() > 0
}

/// The path of the settings: below the folder for configurations, if that is given, or below
/// `.config` in the home folder or in the present one.
pub open spec fn settings_place(
    config_home: Option<Seq<char>>,
    home: Option<Seq<char>>,
) -> Seq<char> {
    if is_given(config_home) {
        settings_below(config_home.unwrap())
    } else if is_given(home) {
        settings_below(joined(home.unwrap(), ".config"@))
    } else {
        settings_below(".config"@)
    }
}

/// The place of the settings below a folder.
fn settings_in(folder: &str) -> (r: String)
    ensures
        r@ == settings_below(folder@),
{
    let own = join(folder, "lowcat");
    join(own.as_str(), "settings.toml")
}

/// The path of the settings, from the variables for the folder for configurations and for the home
/// folder.
pub fn settings_path(config_home: Option<&str>, home: Option<&str>) -> (r: String)
    ensures
        r@ == settings_place(config_home.deep_view(), home.deep_view()),
{
    match config_home {
        Some(folder) => {
            if folder.unicode_len() > 0 {
                return settings_in(folder);
            }
        },
        None => {},
    }
    match home {
        Some(folder) => {
            if folder.unicode_len() > 0 {
                let config = join(folder, ".config");
                return settings_in(config.as_str());
            }
        },
        None => {},
    }
    settings_in(".config")
}

/// The path of the database that belongs to settings: beside them.
pub open spec fn database_place(settings_path: Seq<char>) -> Seq<char> {
    match parent_of(settings_path) {
        Some(folder) => joined(folder, "library.sqlite"@),
        None => "library.sqlite"@,
    }
}

/// The path of the database that belongs to settings.
pub fn database_path_for_settings(settings_path: &str) -> (r: String)
    ensures
        r@ == database_place(settings_path@),
{
    match parent(settings_path) {
        Some(folder) => join(folder.as_str(), "library.sqlite"),
        None => "library.sqlite".to_owned(),
    }
}

/// Whether `value` switches messages on for those who look for a fault.
pub fn is_switched_on(value: &str) -> (r: bool)
    ensures
        r == (value@ == "1"@ || value@ == "true"@ || value@ == "yes"@ || value@ == "on"@),
{
    same_text(value, "1") || same_text(value, "true") || same_text(value, "yes") || same_text(
        value,
        "on",
    )
}

/// Whether times are taken, by the value of the switch for that, if it has one: any but `0`.
pub fn is_profiled(value: Option<&str>) -> (r: bool)
    ensures
        r == (value is Some && value.unwrap()@ != "0"@),
{
    match value {
        Some(value) => !same_text(value, "0"),
        None => false,
    }
}

/// The settings lie in the folder of the library below the folder for configurations, or below
/// `.config` in the home folder or in the present one; a variable that is set to nothing does not
/// count. The database lies beside them.
pub proof fn lemma_places(config_home: Seq<char>, home: Seq<char>)
    ensures
        ({
            let chosen = settings_place(Some(config_home), Some(home));
            let at_home = settings_place(None, Some(home));
            let here = settings_place(None, None);
            &&& config_home.len() > 0 ==> parts(chosen) == parts(config_home).push("lowcat"@).push(
                "settings.toml"@,
            ) && is_absolute(chosen) == is_absolute(config_home)
            &&& config_home.len() > 0 ==> parts(database_place(chosen)) == parts(config_home).push(
                "lowcat"@,
            ).push("library.sqlite"@) && is_absolute(database_place(chosen)) == is_absolute(
                config_home,
            )
            &&& config_home.len() == 0 ==> chosen == at_home
            &&& home.len() > 0 ==> parts(at_home) == parts(home).push(".config"@).push(
                "lowcat"@,
            ).push("settings.toml"@) && is_absolute(at_home) == is_absolute(home)
            &&& home.len() == 0 ==> at_home == here
            &&& parts(here) == seq![".config"@, "lowcat"@, "settings.toml"@]
            &&& !is_absolute(here)
        }),
{
    reveal_strlit("lowcat");
    reveal_strlit("settings.toml");
    reveal_strlit("library.sqlite");
    reveal_strlit(".config");
    assert(is_bare_name("lowcat"@)) by {
        assert("lowcat"@.len() == 6);
    }
    assert(is_bare_name("settings.toml"@)) by {
        assert("settings.toml"@.len() == 13);
    }
    assert(is_bare_name("library.sqlite"@)) by {
        assert("library.sqlite"@.len() == 14);
    }
    assert(is_bare_name(".config"@)) by {
        assert(".config"@.len() == 7);
    }
    lemma_file_in_folder(config_home, "lowcat"@);
    lemma_file_in_folder(joined(config_home, "lowcat"@), "settings.toml"@);
    let above = parent_of(joined(joined(config_home, "lowcat"@), "settings.toml"@)).unwrap();
    lemma_file_in_folder(above, "library.sqlite"@);
    let config = joined(home, ".config"@);
    lemma_file_in_folder(home, ".config"@);
    lemma_file_in_folder(config, "lowcat"@);
    lemma_file_in_folder(joined(config, "lowcat"@), "settings.toml"@);
    lemma_file_in_folder(Seq::empty(), ".config"@);
    assert(joined(Seq::empty(), ".config"@) =~= ".config"@);
    lemma_file_in_folder(".config"@, "lowcat"@);
    lemma_file_in_folder(joined(".config"@, "lowcat"@), "settings.toml"@);
    assert(parts(Seq::<char>::empty()) =~= Seq::<Seq<char>>::empty());
    assert(parts(settings_place(None, None)) =~= seq![".config"@, "lowcat"@, "settings.toml"@]);
}

/// The tags that sounds of a category must have all of are read back as they were set, and those of
/// the other category stay, as do the folders; setting a folder keeps the tags.
pub proof fn lemma_intersection_round_trip(
    settings: SettingsView,
    category: Category,
    tags: Map<Seq<char>, Set<Seq<char>>>,
    folder: Seq<char>,
)
    ensures
        ({
            let after = settings.with_intersection(category, tags);
            let moved = settings.with_folder(category, folder);
            &&& after.intersection(category) == tags
            &&& after.intersection(category.other()) == settings.intersection(category.other())
            &&& after.folder(Category::Music) == settings.folder(Category::Music)
            &&& after.folder(Category::Sfx) == settings.folder(Category::Sfx)
            &&& after.format() == settings.format()
            &&& after.hidden_tag_groups == settings.hidden_tag_groups
            &&& after.hidden_tag_columns == settings.hidden_tag_columns
            &&& moved.intersection(Category::Music) == settings.intersection(Category::Music)
            &&& moved.intersection(Category::Sfx) == settings.intersection(Category::Sfx)
            &&& moved.format() == settings.format()
            &&& moved.hidden_tag_groups == settings.hidden_tag_groups
            &&& moved.hidden_tag_columns == settings.hidden_tag_columns
        }),
{
}

/// Downloads are kept in the format that users chose, and as Opus where they chose none that the
/// library knows.
pub proof fn lemma_download_format(settings: SettingsView)
    ensures
        settings.download_format is Some && format_of(settings.download_format.unwrap()) is Some
            ==> Some(settings.format()) == format_of(settings.download_format.unwrap()),
        settings.download_format is None || format_of(settings.download_format.unwrap()) is None
            ==> settings.format() == AudioFormat::Opus,
{
}

} // verus!
