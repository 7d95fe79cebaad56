//! The state of the library that users work on.
use crate::backend::{shown, with_folder, Backend, BackendView};
use crate::config::{copy_set, copy_sets, Settings, SettingsView};
use crate::db::schema::schema_of;
use crate::db::settings::{stored_behavior, stored_priority};
use crate::downloader::{DownloadCancel, DownloadState, DownloadStateView};
use crate::model::{AudioFormat, Category, CategoryState, ConvertConflictBehavior, FileRecord};
use crate::model::{RecordView, StateView};
use crate::text_map::{TextMap, TextSet};
use display::{cached_results, copy_records, display_records, display_schema, displayed};
use display::{displayed_records, filter_cached_records, panel_schema, tag_panel_schema};
use filters::{accompanied_tags, are_together, is_only, is_used, meant_tags, reconciled_filters};
use filters::{reconcile_selected_filter_keys, reconcile_selected_filters, reconciled_keys};
use filters::{renamed_key_view, renamed_tag_view, retain_accompanied, single_tag_match};
use filters::{tag_is_used, tags_intersect, RenamedKey, RenamedTag};
use preview::{Preview, PreviewView, WaveformCache, WaveformCacheView};
use vstd::prelude::*;

pub mod display;
pub mod edits;
pub mod filters;
pub mod laws;
pub mod preview;
pub mod transfers;

verus! {

broadcast use vstd::string::group_string_axioms;

/// What a change of the library tells those who show it.
#[derive(Debug)]
pub enum LibraryEvent {
    TagEdited { path: String },
    PreviewAdvanced,
}

/// Files that users drag out of the list of a category.
#[derive(Debug)]
pub struct InternalFileDrag {
    pub category: Category,
    pub paths: Vec<String>,
}

/// The file that is being converted, and how far that is.
#[derive(Debug)]
pub struct ImportProgress {
    pub file_name: String,
    pub progress: String,
}

/// The state of the library that users work on.
pub struct Library {
    pub backend: Backend,
    pub active: Category,
    pub music: CategoryState,
    pub sfx: CategoryState,
    pub music_linked: bool,
    pub sfx_linked: bool,
    pub settings: Settings,
    pub settings_writable: bool,
    pub format_priority: Vec<AudioFormat>,
    pub convert_conflict_behavior: ConvertConflictBehavior,
    pub filters_open: bool,
    pub downloader_open: bool,
    pub download_state: DownloadState,
    pub download_cancel: Option<DownloadCancel>,
    pub download_cancel_asked: bool,
    pub internal_file_drag: Option<InternalFileDrag>,
    pub importing: bool,
    pub import_progress: Option<ImportProgress>,
    pub last_focus_rescan: Option<u64>,
    pub focus_rescan_in_flight: bool,
    pub waveforms: WaveformCache,
    pub preview: Preview,
    pub table_revision: u64,
    pub filter_panel_revision: u64,
    pub search_generation: u64,
}

/// The mathematical value of a [`Library`].
#[verifier::ext_equal]
pub ghost struct LibraryView {
    pub backend: BackendView,
    pub active: Category,
    pub music: StateView,
    pub sfx: StateView,
    pub music_linked: bool,
    pub sfx_linked: bool,
    pub settings: SettingsView,
    pub settings_writable: bool,
    pub format_priority: Seq<AudioFormat>,
    pub convert_conflict_behavior: ConvertConflictBehavior,
    pub filters_open: bool,
    pub downloader_open: bool,
    pub download_state: DownloadStateView,
    pub download_canceled: Option<bool>,
    pub internal_file_drag: Option<(Category, Seq<Seq<char>>)>,
    pub importing: bool,
    pub import_progress: Option<(Seq<char>, Seq<char>)>,
    pub last_focus_rescan: Option<u64>,
    pub focus_rescan_in_flight: bool,
    pub waveforms: WaveformCacheView,
    pub preview: PreviewView,
    pub table_revision: u64,
    pub filter_panel_revision: u64,
    pub search_generation: u64,
}

impl View for Library {
    type V = LibraryView;

    open spec fn view(&self) -> LibraryView {
        LibraryView {
            backend: self.backend@,
            active: self.active,
            music: self.music.deep_view(),
            sfx: self.sfx.deep_view(),
            music_linked: self.music_linked,
            sfx_linked: self.sfx_linked,
            settings: self.settings@,
            settings_writable: self.settings_writable,
            format_priority: self.format_priority@,
            convert_conflict_behavior: self.convert_conflict_behavior,
            filters_open: self.filters_open,
            downloader_open: self.downloader_open,
            download_state: self.download_state.deep_view(),
            download_canceled: match self.download_cancel {
                Some(_) => Some(self.download_cancel_asked),
                None => None,
            },
            internal_file_drag: match self.internal_file_drag {
                Some(drag) => Some((drag.category, drag.paths.deep_view())),
                None => None,
            },
            importing: self.importing,
            import_progress: match self.import_progress {
                Some(progress) => Some((progress.file_name@, progress.progress@)),
                None => None,
            },
            last_focus_rescan: self.last_focus_rescan,
            focus_rescan_in_flight: self.focus_rescan_in_flight,
            waveforms: self.waveforms@,
            preview: self.preview@,
            table_revision: self.table_revision,
            filter_panel_revision: self.filter_panel_revision,
            search_generation: self.search_generation,
        }
    }
}

/// The number after `n`, from the largest back to nothing.
pub open spec fn next_revision(n: u64) -> u64 {
    if n == u64::MAX {
        0
    } else {
        (n + 1) as u64
    }
}

/// The number after `n`.
fn revision_after(n: u64) -> (r: u64)
    ensures
        r == next_revision(n),
{
    if n == u64::MAX {
        0
    } else {
        n + 1
    }
}

impl LibraryView {
    /// What `category` shows.
    pub open spec fn state(self, category: Category) -> StateView {
        match category {
            Category::Music => self.music,
            Category::Sfx => self.sfx,
        }
    }

    /// The library with another state of `category`.
    pub open spec fn with_state(self, category: Category, state: StateView) -> LibraryView {
        match category {
            Category::Music => LibraryView { music: state, ..self },
            Category::Sfx => LibraryView { sfx: state, ..self },
        }
    }

    /// Whether it is known which tags of `category` occur together.
    pub open spec fn is_linked(self, category: Category) -> bool {
        match category {
            Category::Music => self.music_linked,
            Category::Sfx => self.sfx_linked,
        }
    }

    /// The library, knowing which tags of `category` occur together.
    pub open spec fn linked(self, category: Category) -> LibraryView {
        match category {
            Category::Music => LibraryView { music_linked: true, ..self },
            Category::Sfx => LibraryView { sfx_linked: true, ..self },
        }
    }

    /// The library with another database or other folders.
    pub open spec fn with_backend(self, backend: BackendView) -> LibraryView {
        LibraryView { backend, ..self }
    }

    /// The library once the filter panel has to be shown anew.
    pub open spec fn panel_changed(self) -> LibraryView {
        LibraryView { filter_panel_revision: next_revision(self.filter_panel_revision), ..self }
    }

    /// The library once the table and the filter panel have to be shown anew.
    pub open spec fn results_changed(self) -> LibraryView {
        LibraryView {
            table_revision: next_revision(self.table_revision),
            filter_panel_revision: next_revision(self.filter_panel_revision),
            ..self
        }
    }

    /// The library with other settings, if they can be written.
    pub open spec fn with_settings(self, settings: SettingsView) -> LibraryView {
        if self.settings_writable {
            LibraryView { settings, ..self }
        } else {
            self
        }
    }

    /// All sounds of `category`, as users see them.
    pub open spec fn all_records(self, category: Category) -> Seq<RecordView> {
        displayed_records(shown(self.backend, category, seq![], Map::empty(), true))
    }

    /// All tags of `category`, as users see them.
    pub open spec fn all_tags(self, category: Category) -> Map<Seq<char>, Seq<Seq<char>>> {
        displayed(schema_of(self.backend.db, category))
    }

    /// What `category` shows at first: everything.
    pub open spec fn loaded_state(self, category: Category) -> StateView {
        StateView {
            schema: self.all_tags(category),
            selected: Map::empty(),
            search: seq![],
            results: self.all_records(category),
            all_records: self.all_records(category),
        }
    }

    /// What `category` shows once the database has changed, with renamed tags and keys still
    /// checked.
    pub open spec fn refreshed_state(
        self,
        category: Category,
        renamed_tag: Option<(Seq<char>, Seq<char>, Seq<char>)>,
        renamed_key: Option<(Seq<char>, Seq<char>)>,
    ) -> StateView {
        let state = self.state(category);
        let schema = self.all_tags(category);
        let all_records = self.all_records(category);
        let selected = reconciled_filters(
            reconciled_keys(state.selected, schema, renamed_key),
            schema,
            renamed_tag,
        );
        StateView {
            schema,
            selected,
            search: state.search,
            results: cached_results(all_records, state.search, selected, self.filters_open),
            all_records,
        }
    }

    /// The library once `category` shows the database anew. Of the tags that are shown only beside
    /// others, those are forgotten that occur beside no other any more.
    #[verifier::opaque]
    pub open spec fn refreshed(
        self,
        category: Category,
        renamed_tag: Option<(Seq<char>, Seq<char>, Seq<char>)>,
        renamed_key: Option<(Seq<char>, Seq<char>)>,
    ) -> LibraryView {
        self.with_settings(
            self.settings.with_intersection(
                category,
                accompanied_tags(
                    self.all_records(category),
                    self.settings.intersection(category),
                ),
            ),
        ).linked(category).with_state(
            category,
            self.refreshed_state(category, renamed_tag, renamed_key),
        ).results_changed()
    }

    /// The library once `category` shows the database anew, nothing renamed.
    pub open spec fn fresh(self, category: Category) -> LibraryView {
        self.refreshed(category, None, None)
    }

    /// The library once `category` shows what its search and its filters let through.
    pub open spec fn searched(self, category: Category) -> LibraryView {
        let state = self.state(category);
        self.with_state(
            category,
            StateView {
                results: cached_results(
                    state.all_records,
                    state.search,
                    state.selected,
                    self.filters_open,
                ),
                ..state
            },
        ).results_changed()
    }

    /// The library with another search in both categories.
    pub open spec fn with_query(self, search: Seq<char>) -> LibraryView {
        LibraryView {
            music: StateView { search, ..self.music },
            sfx: StateView { search, ..self.sfx },
            search_generation: next_revision(self.search_generation),
            ..self
        }
    }

    /// The library once the active category shows what another search finds.
    pub open spec fn with_search(self, search: Seq<char>) -> LibraryView {
        self.with_query(search).searched(self.active)
    }

    /// The library with other checked filters in the active category.
    pub open spec fn with_selected(self, selected: Map<Seq<char>, Set<Seq<char>>>) -> LibraryView {
        self.with_state(self.active, StateView { selected, ..self.state(self.active) }).fresh(
            self.active,
        )
    }
}

/// The values under `key`, none where there is no such key.
pub open spec fn values_under(
    tags: Map<Seq<char>, Set<Seq<char>>>,
    key: Seq<char>,
) -> Set<Seq<char>> {
    if tags.contains_key(key) {
        tags[key]
    } else {
        Set::empty()
    }
}

/// `values` with `value` out if it was in, and in if it was out.
pub open spec fn toggled_value(values: Set<Seq<char>>, value: Seq<char>) -> Set<Seq<char>> {
    if values.contains(value) {
        values.remove(value)
    } else {
        values.insert(value)
    }
}

/// `tags` with one value under `key` toggled.
pub open spec fn toggled(
    tags: Map<Seq<char>, Set<Seq<char>>>,
    key: Seq<char>,
    value: Seq<char>,
) -> Map<Seq<char>, Set<Seq<char>>> {
    tags.insert(key, toggled_value(values_under(tags, key), value))
}

/// `tags` with one value under `key` toggled, and without the key once no value is under it.
pub open spec fn toggled_tidy(
    tags: Map<Seq<char>, Set<Seq<char>>>,
    key: Seq<char>,
    value: Seq<char>,
) -> Map<Seq<char>, Set<Seq<char>>> {
    let values = toggled_value(values_under(tags, key), value);
    if values == Set::<Seq<char>>::empty() {
        tags.remove(key)
    } else {
        tags.insert(key, values)
    }
}

/// The values under `key` with `value` toggled.
fn toggle_under(tags: &TextMap<TextSet>, key: &str, value: &str) -> (r: TextSet)
    ensures
        r@ == toggled_value(values_under(tags@, key@), value@),
{
    let mut values = match tags.get(key) {
        Some(values) => copy_set(values),
        None => TextSet::new(),
    };
    let ghost before = values@;
    if !values.remove(value) {
        assert(values@ =~= before);
        values.insert(value.to_owned());
    }
    values
}

/// A search that is made while users go on.
pub struct SearchTask {
    pub generation: u64,
    pub category: Category,
    pub source_revision: u64,
    pub search: String,
    pub include_tags: bool,
    pub records: Vec<FileRecord>,
    pub selected: TextMap<TextSet>,
}

impl SearchTask {
    /// What the search finds.
    pub open spec fn found(self) -> Seq<RecordView> {
        cached_results(
            self.records.deep_view(),
            self.search@,
            self.selected@,
            self.include_tags,
        )
    }

    /// Whether the library still waits for this search.
    pub open spec fn is_current(self, library: LibraryView) -> bool {
        library.search_generation == self.generation && library.table_revision
            == self.source_revision && library.state(self.category).search == self.search@
    }

    /// Makes the search.
    pub fn run(&self) -> (r: Vec<FileRecord>)
        ensures
            r.deep_view() == self.found(),
    {
        filter_cached_records(&self.records, self.search.as_str(), &self.selected, self.include_tags)
    }
}

impl Library {
    /// The library over a database and settings, showing everything.
    pub fn new(backend: Backend, settings: Settings) -> (r: Library)
        ensures
            ({
                let known = match settings@.folder(Category::Music) {
                    Some(path) => with_folder(backend@, Category::Music, path),
                    None => backend@,
                };
                let known = match settings@.folder(Category::Sfx) {
                    Some(path) => with_folder(known, Category::Sfx, path),
                    None => known,
                };
                r@ == (LibraryView {
                    backend: known,
                    active: Category::Music,
                    music: r@.loaded_state(Category::Music),
                    sfx: r@.loaded_state(Category::Sfx),
                    music_linked: false,
                    sfx_linked: false,
                    settings: settings@,
                    settings_writable: true,
                    format_priority: stored_priority(backend@.db),
                    convert_conflict_behavior: stored_behavior(backend@.db),
                    filters_open: false,
                    downloader_open: false,
                    download_state: DownloadStateView::Idle,
                    download_canceled: None,
                    internal_file_drag: None,
                    importing: false,
                    import_progress: None,
                    last_focus_rescan: None,
                    focus_rescan_in_flight: false,
                    waveforms: WaveformCacheView { in_flight: false, skipped: seq![], ahead: seq![] },
                    preview: PreviewView {
                        has_player: false,
                        current_path: None,
                        last_stopped: None,
                        watch_running: false,
                    },
                    table_revision: 0,
                    filter_panel_revision: 0,
                    search_generation: 0,
                })
            }),
    {
        let format_priority = backend.format_priority();
        let convert_conflict_behavior = backend.convert_conflict_behavior();
        let mut library = Library {
            backend,
            active: Category::Music,
            music: CategoryState::default(),
            sfx: CategoryState::default(),
            music_linked: false,
            sfx_linked: false,
            settings,
            settings_writable: true,
            format_priority,
            convert_conflict_behavior,
            filters_open: false,
            downloader_open: false,
            download_state: DownloadState::Idle,
            download_cancel: None,
            download_cancel_asked: false,
            internal_file_drag: None,
            importing: false,
            import_progress: None,
            last_focus_rescan: None,
            focus_rescan_in_flight: false,
            waveforms: WaveformCache::new(),
            preview: Preview::new(),
            table_revision: 0,
            filter_panel_revision: 0,
            search_generation: 0,
        };
        library.remember_folder(Category::Music);
        library.remember_folder(Category::Sfx);
        library.music = library.load_category_state(Category::Music);
        library.sfx = library.load_category_state(Category::Sfx);
        library
    }

    /// Keeps the folder of `category` that the settings give.
    fn remember_folder(&mut self, category: Category)
        ensures
            final(self)@ == old(self)@.with_backend(
                match old(self)@.settings.folder(category) {
                    Some(path) => with_folder(old(self)@.backend, category, path),
                    None => old(self)@.backend,
                },
            ),
    {
        let path: Option<String> = match self.settings.category_folder(category) {
            Some(path) => Some(path.to_owned()),
            None => None,
        };
        match path {
            Some(path) => {
                self.backend.remember_category_folder(category, path);
            },
            None => {},
        }
    }

    /// All sounds of `category`, as users see them.
    fn load_records(&self, category: Category) -> (r: Vec<FileRecord>)
        ensures
            r.deep_view() == self@.all_records(category),
    {
        let none: TextMap<TextSet> = TextMap::new();
        let records = self.backend.filter(category, "", &none);
        proof {
            reveal_strlit("");
            assert(""@ =~= Seq::<char>::empty());
        }
        display_records(&records)
    }

    /// What `category` shows at first.
    fn load_category_state(&self, category: Category) -> (r: CategoryState)
        ensures
            r.deep_view() == self@.loaded_state(category),
    {
        let schema = display_schema(&self.backend.schema_for(category));
        let all_records = self.load_records(category);
        let results = copy_records(&all_records);
        let search = String::new();
        assert(search@ =~= seq![]);
        CategoryState { schema, selected: TextMap::new(), search, results, all_records }
    }

    /// Whether the settings can be written.
    pub fn set_settings_writable(&mut self, writable: bool)
        ensures
            final(self)@ == (LibraryView { settings_writable: writable, ..old(self)@ }),
    {
        self.settings_writable = writable;
    }

    /// The active category.
    pub fn active(&self) -> (r: Category)
        ensures
            r == self@.active,
    {
        self.active
    }

    /// What `category` shows.
    pub fn state(&self, category: Category) -> (r: &CategoryState)
        ensures
            r.deep_view() == self@.state(category),
    {
        match category {
            Category::Music => &self.music,
            Category::Sfx => &self.sfx,
        }
    }

    /// What the active category shows.
    pub fn active_state(&self) -> (r: &CategoryState)
        ensures
            r.deep_view() == self@.state(self@.active),
    {
        self.state(self.active)
    }

    /// The tags that the filter panel shows.
    pub fn tag_panel_schema(&self) -> (r: TextMap<Vec<String>>)
        ensures
            r@ == panel_schema(self@.state(self@.active)),
    {
        tag_panel_schema(self.active_state())
    }

    /// The folder of `category`.
    pub fn category_folder(&self, category: Category) -> (r: Option<&str>)
        ensures
            r is Some <==> self@.settings.folder(category) is Some,
            r matches Some(folder) ==> self@.settings.folder(category) == Some(folder@),
    {
        self.settings.category_folder(category)
    }

    /// Whether `category` needs a folder: it has none, or none that is there.
    pub fn category_needs_folder(&self, category: Category, folder_is_dir: bool) -> (r: bool)
        ensures
            r == (self@.settings.folder(category) is None || !folder_is_dir),
    {
        self.settings.category_folder(category).is_none() || !folder_is_dir
    }

    /// Whether the filter panel is open.
    pub fn filters_open(&self) -> (r: bool)
        ensures
            r == self@.filters_open,
    {
        self.filters_open
    }

    /// The search of the active category.
    pub fn search(&self) -> (r: &str)
        ensures
            r@ == self@.state(self@.active).search,
    {
        self.active_state().search.as_str()
    }

    /// How often the table changed.
    pub fn table_revision(&self) -> (r: u64)
        ensures
            r == self@.table_revision,
    {
        self.table_revision
    }

    /// How often the filter panel changed.
    pub fn filter_panel_revision(&self) -> (r: u64)
        ensures
            r == self@.filter_panel_revision,
    {
        self.filter_panel_revision
    }

    /// The order of preference among formats.
    pub fn format_priority(&self) -> (r: &[AudioFormat])
        ensures
            r@ == self@.format_priority,
    {
        self.format_priority.as_slice()
    }

    /// The format in which downloads are kept.
    pub fn download_format(&self) -> (r: AudioFormat)
        ensures
            r == self@.settings.format(),
    {
        self.settings.download_format()
    }

    /// What a conversion does on a conflict.
    pub fn convert_conflict_behavior(&self) -> (r: ConvertConflictBehavior)
        ensures
            r == self@.convert_conflict_behavior,
    {
        self.convert_conflict_behavior
    }

    /// Whether the downloader is open.
    pub fn downloader_open(&self) -> (r: bool)
        ensures
            r == self@.downloader_open,
    {
        self.downloader_open
    }

    /// The state of the download.
    pub fn download_state(&self) -> (r: &DownloadState)
        ensures
            r.deep_view() == self@.download_state,
    {
        &self.download_state
    }

    /// The file that is being converted.
    pub fn import_progress(&self) -> (r: Option<&ImportProgress>)
        ensures
            r is Some <==> self@.import_progress is Some,
            r matches Some(progress) ==> self@.import_progress == Some(
                (progress.file_name@, progress.progress@),
            ),
    {
        match &self.import_progress {
            Some(progress) => Some(progress),
            None => None,
        }
    }

    fn bump_results_revision(&mut self)
        ensures
            final(self)@ == old(self)@.results_changed(),
    {
        self.table_revision = revision_after(self.table_revision);
        self.filter_panel_revision = revision_after(self.filter_panel_revision);
    }

    fn bump_filter_panel_revision(&mut self)
        ensures
            final(self)@ == old(self)@.panel_changed(),
    {
        self.filter_panel_revision = revision_after(self.filter_panel_revision);
    }

    /// Replaces what `category` shows.
    fn set_state(&mut self, category: Category, state: CategoryState)
        ensures
            final(self)@ == old(self)@.with_state(category, state.deep_view()),
    {
        match category {
            Category::Music => {
                self.music = state;
            },
            Category::Sfx => {
                self.sfx = state;
            },
        }
    }

    /// Shows the database anew in `category`, with a renamed tag or key still checked.
    pub fn refresh_category_state_with_tag_rename(
        &mut self,
        category: Category,
        renamed_tag: Option<RenamedTag>,
        renamed_key: Option<RenamedKey>,
    )
        ensures
            final(self)@ == old(self)@.refreshed(
                category,
                renamed_tag_view(renamed_tag),
                renamed_key_view(renamed_key),
            ),
    {
        reveal(LibraryView::refreshed);
        let search: String = self.state(category).search.clone();
        let mut selected = copy_sets(&self.state(category).selected);
        let schema = display_schema(&self.backend.schema_for(category));
        let all_records = self.load_records(category);
        if self.settings_writable {
            let configured = retain_accompanied(
                &all_records,
                &self.settings.intersection_tags(category),
            );
            self.settings.set_intersection_tags(category, configured);
        }
        match category {
            Category::Music => {
                self.music_linked = true;
            },
            Category::Sfx => {
                self.sfx_linked = true;
            },
        }
        reconcile_selected_filter_keys(&mut selected, &schema, renamed_key);
        reconcile_selected_filters(&mut selected, &schema, renamed_tag);
        let results = filter_cached_records(
            &all_records,
            search.as_str(),
            &selected,
            self.filters_open,
        );
        self.set_state(category, CategoryState { schema, selected, search, results, all_records });
        self.bump_results_revision();
    }

    /// Shows the database anew in `category`.
    pub fn refresh_category_state(&mut self, category: Category)
        ensures
            final(self)@ == old(self)@.fresh(category),
    {
        self.refresh_category_state_with_tag_rename(category, None, None);
    }

    /// Shows in `category` what its search and its filters let through.
    pub fn refresh_search_results(&mut self, category: Category)
        ensures
            final(self)@ == old(self)@.searched(category),
    {
        let state = self.state(category);
        let results = filter_cached_records(
            &state.all_records,
            state.search.as_str(),
            &state.selected,
            self.filters_open,
        );
        match category {
            Category::Music => {
                self.music.results = results;
            },
            Category::Sfx => {
                self.sfx.results = results;
            },
        }
        self.bump_results_revision();
    }

    /// Opens or closes the filter panel.
    pub fn toggle_filters(&mut self)
        ensures
            final(self)@ == (LibraryView {
                filters_open: !old(self)@.filters_open,
                downloader_open: old(self)@.downloader_open && old(self)@.filters_open,
                ..old(self)@
            }).searched(old(self)@.active),
    {
        self.filters_open = !self.filters_open;
        if self.filters_open {
            self.downloader_open = false;
        }
        self.refresh_search_results(self.active);
    }

    /// Closes the filter panel; tells whether it was open.
    pub fn close_filters(&mut self) -> (r: bool)
        ensures
            r == old(self)@.filters_open,
            final(self)@ == if r {
                (LibraryView { filters_open: false, ..old(self)@ }).searched(old(self)@.active)
            } else {
                old(self)@
            },
    {
        if !self.filters_open {
            return false;
        }
        self.filters_open = false;
        self.refresh_search_results(self.active);
        true
    }

    /// Opens or closes the downloader, which closes the filter panel when it opens.
    pub fn toggle_downloader(&mut self)
        ensures
            final(self)@ == if old(self)@.downloader_open {
                LibraryView { downloader_open: false, ..old(self)@ }
            } else if old(self)@.filters_open {
                (LibraryView {
                    downloader_open: true,
                    filters_open: false,
                    ..old(self)@
                }).searched(old(self)@.active)
            } else {
                LibraryView { downloader_open: true, ..old(self)@ }
            },
    {
        self.downloader_open = !self.downloader_open;
        if self.downloader_open {
            let filters_were_open = self.filters_open;
            self.filters_open = false;
            if filters_were_open {
                self.refresh_search_results(self.active);
            }
        }
    }

    /// Makes `category` the active one.
    pub fn set_category(&mut self, category: Category)
        ensures
            final(self)@ == if old(self)@.active == category {
                old(self)@
            } else {
                (LibraryView { active: category, ..old(self)@ }).searched(category)
            },
    {
        if self.active != category {
            self.active = category;
            self.refresh_search_results(category);
        }
    }

    /// Makes the next category the active one.
    pub fn next_category(&mut self)
        ensures
            final(self)@ == (LibraryView {
                active: old(self)@.active.other(),
                ..old(self)@
            }).searched(old(self)@.active.other()),
    {
        self.set_category(self.active.next());
    }

    /// Makes the previous category the active one.
    pub fn previous_category(&mut self)
        ensures
            final(self)@ == (LibraryView {
                active: old(self)@.active.other(),
                ..old(self)@
            }).searched(old(self)@.active.other()),
    {
        self.set_category(self.active.previous());
    }

    /// Puts a search in both categories.
    fn set_search_query(&mut self, search: &str)
        ensures
            final(self)@ == old(self)@.with_query(search@),
    {
        self.search_generation = revision_after(self.search_generation);
        self.music.search = search.to_owned();
        self.sfx.search = search.to_owned();
    }

    /// Searches both categories, of which the active one shows what is found.
    pub fn set_search(&mut self, search: &str)
        ensures
            final(self)@ == old(self)@.with_search(search@),
    {
        self.set_search_query(search);
        self.refresh_search_results(self.active);
    }

    /// Puts a search in both categories; returns the search that is to be made for the active one.
    pub fn set_search_async(&mut self, search: &str) -> (r: SearchTask)
        ensures
            final(self)@ == old(self)@.with_query(search@),
            r.is_current(final(self)@),
            r.category == old(self)@.active,
            r.search@ == search@,
            r.include_tags == old(self)@.filters_open,
            r.records.deep_view() == old(self)@.state(old(self)@.active).all_records,
            r.selected@ == old(self)@.state(old(self)@.active).selected,
    {
        self.set_search_query(search);
        let state = self.active_state();
        SearchTask {
            generation: self.search_generation,
            category: self.active,
            source_revision: self.table_revision,
            search: search.to_owned(),
            include_tags: self.filters_open,
            records: copy_records(&state.all_records),
            selected: copy_sets(&state.selected),
        }
    }

    /// Shows what a search found, if the library still waits for it; tells whether.
    pub fn finish_search(&mut self, task: &SearchTask, results: Vec<FileRecord>) -> (r: bool)
        ensures
            r == task.is_current(old(self)@),
            final(self)@ == if r {
                old(self)@.with_state(
                    task.category,
                    StateView {
                        results: results.deep_view(),
                        ..old(self)@.state(task.category)
                    },
                ).results_changed()
            } else {
                old(self)@
            },
    {
        if self.search_generation != task.generation || self.table_revision
            != task.source_revision || !crate::text::same_text(
            self.state(task.category).search.as_str(),
            task.search.as_str(),
        ) {
            return false;
        }
        match task.category {
            Category::Music => {
                self.music.results = results;
            },
            Category::Sfx => {
                self.sfx.results = results;
            },
        }
        self.bump_results_revision();
        true
    }

    /// Clears the search; tells whether there was one.
    pub fn clear_search(&mut self) -> (r: bool)
        ensures
            r == (old(self)@.music.search.len() > 0 || old(self)@.sfx.search.len() > 0),
            final(self)@ == if r {
                old(self)@.with_search(seq![])
            } else {
                old(self)@
            },
    {
        if self.music.search.as_str().unicode_len() == 0 && self.sfx.search.as_str().unicode_len()
            == 0 {
            return false;
        }
        proof {
            reveal_strlit("");
            assert(""@ =~= Seq::<char>::empty());
        }
        self.set_search("");
        true
    }

    /// Whether the tag group of `key` is shown.
    pub fn tag_group_is_visible(&self, key: &str) -> (r: bool)
        ensures
            r == !self@.settings.hidden_tag_groups.contains(key@),
    {
        !self.settings.hidden_tag_groups.contains(key)
    }

    /// The tag columns that are hidden.
    pub fn hidden_tag_column_keys(&self) -> (r: TextSet)
        ensures
            r@ == self@.settings.hidden_tag_columns,
    {
        self.settings.hidden_tag_columns()
    }

    /// Whether a tag of the active category is shown only beside others.
    pub fn tag_shows_on_intersection(&self, key: &str, value: &str) -> (r: bool)
        ensures
            r == values_under(self@.settings.intersection(self@.active), key@).contains(value@),
    {
        let tags = match self.active {
            Category::Music => &self.settings.intersection_tags.music,
            Category::Sfx => &self.settings.intersection_tags.sfx,
        };
        match tags.get(key) {
            Some(values) => values.contains(value),
            None => false,
        }
    }

    /// Whether one of the checked filters of the active category occurs together with a tag.
    fn occurs_with_checked(&self, key: &str, value: &str) -> (r: bool)
        ensures
            r == occurs_with_selected(self@.state(self@.active), (key@, value@)),
    {
        let state = self.active_state();
        let ghost view = state.deep_view();
        let ghost tag = (key@, value@);
        let total = state.selected.len();
        let ghost keys = state.selected.keys();
        let mut i: usize = 0;
        while i < total
            invariant
                i <= total,
                total == keys.len(),
                keys == state.selected.keys(),
                view == state.deep_view(),
                view == self@.state(self@.active),
                tag == (key@, value@),
                forall|k: Seq<char>| #[trigger] view.selected.dom().contains(k) ==> keys.contains(k),
                forall|k: Seq<char>, v: Seq<char>|
                    keys.take(i as int).contains(k) && #[trigger] view.selected[k].contains(v)
                        ==> !are_together(view.all_records, tag, (k, v)),
            decreases total - i,
        {
            let own_key = state.selected.key_at(i);
            let values = state.selected.value_at(i);
            let count = values.len();
            let ghost items = values.items();
            let mut j: usize = 0;
            while j < count
                invariant
                    j <= count,
                    count == items.len(),
                    items == values.items(),
                    view == state.deep_view(),
                    view == self@.state(self@.active),
                    tag == (key@, value@),
                    view.selected.contains_key(own_key@),
                    values@ == view.selected[own_key@],
                    forall|v: Seq<char>| #[trigger] values@.contains(v) ==> items.contains(v),
                    forall|n: int|
                        0 <= n < j ==> !are_together(
                            view.all_records,
                            tag,
                            (own_key@, #[trigger] items[n]),
                        ),
                decreases count - j,
            {
                let own_value = values.item_at(j);
                if tags_intersect(
                    &state.all_records,
                    key,
                    value,
                    own_key.as_str(),
                    own_value.as_str(),
                ) {
                    assert(view.selected[own_key@].contains(own_value@));
                    return true;
                }
                j += 1;
            }
            proof {
                assert forall|k: Seq<char>, v: Seq<char>|
                    keys.take(i + 1).contains(k) && #[trigger] view.selected[k].contains(
                        v,
                    ) implies !are_together(view.all_records, tag, (k, v)) by {
                    crate::row_set::lemma_take_contains(keys, i as int, k);
                    if k == keys[i as int] {
                        let n = choose|n: int| 0 <= n < items.len() && items[n] == v;
                        assert(items[n] == v);
                    }
                }
            }
            i += 1;
        }
        assert(keys.take(i as int) =~= keys);
        false
    }

    /// Whether the filter panel shows a tag: always while something is searched; else one that is
    /// shown only beside others where it occurs together with a checked filter.
    pub fn tag_is_visible_in_panel(&self, key: &str, value: &str) -> (r: bool)
        ensures
            r == is_visible_in_panel(self@, (key@, value@)),
    {
        if self.search().unicode_len() > 0 || !self.tag_shows_on_intersection(key, value) {
            return true;
        }
        let linked = match self.active {
            Category::Music => self.music_linked,
            Category::Sfx => self.sfx_linked,
        };
        if !linked || !tag_is_used(&self.active_state().all_records, key, value) {
            return true;
        }
        self.occurs_with_checked(key, value)
    }

    /// Makes a tag of the active category shown only beside others, or always.
    pub fn toggle_tag_intersection_visibility(&mut self, key: &str, value: &str)
        ensures
            final(self)@ == old(self)@.with_settings(
                old(self)@.settings.with_intersection(
                    old(self)@.active,
                    toggled_tidy(
                        old(self)@.settings.intersection(old(self)@.active),
                        key@,
                        value@,
                    ),
                ),
            ).panel_changed(),
    {
        let category = self.active;
        if self.settings_writable {
            let mut tags = self.settings.intersection_tags(category);
            let values = toggle_under(&tags, key, value);
            if values.is_empty() {
                tags.remove(key);
            } else {
                tags.insert(key.to_owned(), values);
            }
            self.settings.set_intersection_tags(category, tags);
        }
        self.bump_filter_panel_revision();
    }

    /// Hides or shows the tag group of `key`.
    pub fn toggle_tag_group_visibility(&mut self, key: &str)
        ensures
            final(self)@ == old(self)@.with_hidden_groups(
                toggled_value(old(self)@.settings.hidden_tag_groups, key@),
            ),
    {
        let mut keys = self.settings.hidden_tag_groups();
        let ghost before = keys@;
        if !keys.remove(key) {
            assert(keys@ =~= before);
            keys.insert(key.to_owned());
        }
        self.set_hidden_tag_groups(keys);
    }

    /// Hides the tag groups of `keys` and shows the others.
    pub fn set_hidden_tag_groups(&mut self, keys: TextSet)
        ensures
            final(self)@ == old(self)@.with_hidden_groups(keys@),
    {
        if self.settings_writable {
            self.settings.set_hidden_tag_groups(keys);
            self.bump_filter_panel_revision();
        }
    }

    /// Shows all tag groups.
    pub fn show_all_tag_groups(&mut self)
        ensures
            final(self)@ == if old(self)@.settings.hidden_tag_groups == Set::<Seq<char>>::empty() {
                old(self)@
            } else {
                old(self)@.with_hidden_groups(Set::empty())
            },
    {
        if self.settings.hidden_tag_groups.is_empty() {
            return ;
        }
        self.set_hidden_tag_groups(TextSet::new());
    }

    /// Hides the tag groups of `keys`, and no others.
    pub fn hide_all_tag_groups(&mut self, keys: &Vec<String>)
        ensures
            final(self)@ == old(self)@.with_hidden_groups(keys.deep_view().to_set()),
    {
        let ghost all = keys.deep_view();
        let mut hidden = TextSet::new();
        let mut i: usize = 0;
        assert(all.take(0).to_set() =~= Set::empty());
        while i < keys.len()
            invariant
                i <= keys@.len(),
                all == keys.deep_view(),
                hidden@ == all.take(i as int).to_set(),
            decreases keys.len() - i,
        {
            let ghost before = hidden@;
            hidden.insert(keys[i].clone());
            proof {
                assert(all[i as int] == keys@[i as int]@);
                assert forall|k: Seq<char>| #[trigger]
                    all.take(i + 1).to_set().contains(k) <==> before.insert(
                        all[i as int],
                    ).contains(k) by {
                    crate::row_set::lemma_take_contains(all, i as int, k);
                }
                assert(all.take(i + 1).to_set() =~= before.insert(all[i as int]));
            }
            i += 1;
        }
        assert(all.take(i as int) =~= all);
        self.set_hidden_tag_groups(hidden);
    }

    /// Hides the tag columns of `keys` and shows the others.
    pub fn set_hidden_tag_column_keys(&mut self, keys: TextSet)
        ensures
            final(self)@ == old(self)@.with_settings(
                SettingsView { hidden_tag_columns: keys@, ..old(self)@.settings },
            ),
    {
        if self.settings_writable {
            self.settings.set_hidden_tag_columns(keys);
        }
    }

    /// The tag that the search means among those of `schema`, if it means just one.
    pub fn single_tag_search_match_in(&self, schema: &TextMap<Vec<String>>) -> (r: Option<
        (String, String),
    >)
        ensures
            is_only(
                r.deep_view(),
                meant_tags(
                    schema@,
                    self@.settings.hidden_tag_groups,
                    self@.state(self@.active).search,
                ),
            ),
    {
        single_tag_match(schema, &self.settings.hidden_tag_groups, self.search())
    }

    /// The tag that the search means among those that the filter panel shows, if it means just one.
    pub fn single_tag_search_match(&self) -> (r: Option<(String, String)>)
        ensures
            is_only(r.deep_view(), self@.meant()),
    {
        let schema = self.tag_panel_schema();
        self.single_tag_search_match_in(&schema)
    }

    /// Clears the search and toggles the tag that it meant; tells whether it meant just one.
    pub fn apply_single_tag_search_match(&mut self) -> (r: bool)
        ensures
            r ==> exists|tag: (Seq<char>, Seq<char>)|
                #![trigger old(self)@.with_tag_picked(tag)]
                is_only(Some(tag), old(self)@.meant()) && final(self)@
                    == old(self)@.with_tag_picked(tag),
            !r ==> is_only(None, old(self)@.meant()) && final(self)@ == old(self)@,
    {
        let ghost before = self@;
        match self.single_tag_search_match() {
            Some((key, value)) => {
                proof {
                    reveal_strlit("");
                    assert(""@ =~= Seq::<char>::empty());
                }
                self.set_search("");
                self.toggle_value(key.as_str(), value.as_str());
                assert(self@ == before.with_tag_picked((key@, value@)));
                true
            },
            None => false,
        }
    }

    /// Checks a filter of the active category, or no longer.
    pub fn toggle_value(&mut self, key: &str, value: &str)
        ensures
            final(self)@ == old(self)@.with_selected(
                toggled(old(self)@.state(old(self)@.active).selected, key@, value@),
            ),
    {
        let values = toggle_under(&self.active_state().selected, key, value);
        match self.active {
            Category::Music => {
                self.music.selected.insert(key.to_owned(), values);
            },
            Category::Sfx => {
                self.sfx.selected.insert(key.to_owned(), values);
            },
        }
        self.refresh_category_state(self.active);
    }

    /// No longer checks a filter of the active category.
    pub fn remove_value(&mut self, key: &str, value: &str)
        ensures
            final(self)@ == old(self)@.with_selected(
                {
                    let selected = old(self)@.state(old(self)@.active).selected;
                    if selected.contains_key(key@) {
                        selected.insert(key@, selected[key@].remove(value@))
                    } else {
                        selected
                    }
                },
            ),
    {
        let values: Option<TextSet> = match self.active_state().selected.get(key) {
            Some(values) => Some(copy_set(values)),
            None => None,
        };
        match values {
            Some(mut values) => {
                values.remove(value);
                match self.active {
                    Category::Music => {
                        self.music.selected.insert(key.to_owned(), values);
                    },
                    Category::Sfx => {
                        self.sfx.selected.insert(key.to_owned(), values);
                    },
                }
            },
            None => {},
        }
        self.refresh_category_state(self.active);
    }

    /// No longer checks any filter of the active category; tells whether one was checked.
    pub fn clear_selected_filters(&mut self) -> (r: bool)
        ensures
            r == has_checked(old(self)@.state(old(self)@.active).selected),
            final(self)@ == if r {
                old(self)@.with_selected(Map::empty())
            } else {
                old(self)@
            },
    {
        if !some_checked(&self.active_state().selected) {
            return false;
        }
        match self.active {
            Category::Music => {
                self.music.selected = TextMap::new();
            },
            Category::Sfx => {
                self.sfx.selected = TextMap::new();
            },
        }
        self.refresh_category_state(self.active);
        true
    }
}

/// Whether a filter is checked.
pub open spec fn has_checked(selected: Map<Seq<char>, Set<Seq<char>>>) -> bool {
    exists|key: Seq<char>| #[trigger]
        selected.contains_key(key) && selected[key] != Set::<Seq<char>>::empty()
}

/// Whether a filter is checked.
fn some_checked(selected: &TextMap<TextSet>) -> (r: bool)
    ensures
        r == has_checked(selected@),
{
    let total = selected.len();
    let ghost keys = selected.keys();
    let mut i: usize = 0;
    while i < total
        invariant
            i <= total,
            total == keys.len(),
            keys == selected.keys(),
            forall|k: Seq<char>| #[trigger] selected@.dom().contains(k) ==> keys.contains(k),
            forall|n: int|
                0 <= n < i ==> selected@[#[trigger] keys[n]] == Set::<Seq<char>>::empty(),
        decreases total - i,
    {
        if !selected.value_at(i).is_empty() {
            return true;
        }
        i += 1;
    }
    proof {
        assert forall|key: Seq<char>| #[trigger] selected@.contains_key(key) implies selected@[key]
            == Set::<Seq<char>>::empty() by {
            assert(selected@.dom().contains(key));
            let n = choose|n: int| 0 <= n < keys.len() && keys[n] == key;
            assert(selected@[keys[n]] == Set::<Seq<char>>::empty());
        }
    }
    false
}

/// Whether one of the checked filters occurs together with a tag.
pub open spec fn occurs_with_selected(state: StateView, tag: (Seq<char>, Seq<char>)) -> bool {
    exists|key: Seq<char>, value: Seq<char>|
        state.selected.contains_key(key) && #[trigger] state.selected[key].contains(value)
            && are_together(state.all_records, tag, (key, value))
}

/// Whether the filter panel shows a tag.
pub open spec fn is_visible_in_panel(library: LibraryView, tag: (Seq<char>, Seq<char>)) -> bool {
    let state = library.state(library.active);
    ||| state.search.len() > 0
    ||| !values_under(library.settings.intersection(library.active), tag.0).contains(tag.1)
    ||| !library.is_linked(library.active)
    ||| !is_used(state.all_records, tag)
    ||| occurs_with_selected(state, tag)
}

impl LibraryView {
    /// The library with other hidden tag groups.
    pub open spec fn with_hidden_groups(self, keys: Set<Seq<char>>) -> LibraryView {
        if self.settings_writable {
            self.with_settings(
                SettingsView { hidden_tag_groups: keys, ..self.settings },
            ).panel_changed()
        } else {
            self
        }
    }

    /// The tags that the search means among those that the filter panel shows.
    pub open spec fn meant(self) -> Set<(Seq<char>, Seq<char>)> {
        meant_tags(
            panel_schema(self.state(self.active)),
            self.settings.hidden_tag_groups,
            self.state(self.active).search,
        )
    }

    /// The library with the search cleared and a filter toggled.
    pub open spec fn with_tag_picked(self, tag: (Seq<char>, Seq<char>)) -> LibraryView {
        let cleared = self.with_search(seq![]);
        cleared.with_selected(toggled(cleared.state(cleared.active).selected, tag.0, tag.1))
    }
}

} // verus!
