use lowcat::backend::{Backend, FolderScan, RenameRecord};
use lowcat::config::Settings;
use lowcat::db::sync::FileScanRecord;
use lowcat::db::Database;
use lowcat::downloader::{
    DownloadError, DownloadErrorKind, DownloadOutput, DownloadProgressEvent, DownloadState,
};
use lowcat::library::display::{display_tag_key, filter_cached_records};
use lowcat::library::edits::{apply_tag_add, apply_tag_remove};
use lowcat::library::filters::{tag_search_group_sort_key, tag_search_match_sort_key};
use lowcat::library::preview::{
    paths_equal, playhead_for_path, PreviewPosition, WaveformBatch, WaveformStep,
};
use lowcat::library::transfers::{
    shown_file_name, DroppedFile, ImportBatchResult, ImportProgressEvent, SettingsNotWritten,
};
use lowcat::library::{Library, LibraryEvent};
use lowcat::model::{
    AudioFormat, Category, CategoryState, ConvertConflictBehavior, FileRecord, FolderTagAssignment,
};
use lowcat::text_map::{TextMap, TextSet};

fn record(path: &str, tags: &[(&str, &str)]) -> FileScanRecord {
    let name = path.rsplit_once('/').unwrap().1;
    let (stem, extension) = name.rsplit_once('.').unwrap();
    let mut map: TextMap<Vec<String>> = TextMap::new();
    for (key, value) in tags {
        map.insert(key.to_string(), vec![value.to_string()]);
    }
    FileScanRecord {
        path: path.to_string(),
        stem: stem.to_string(),
        extension: extension.to_string(),
        size: 1,
        modified: 1,
        tags: map,
    }
}

fn scan(files: &[(&str, &[(&str, &str)])]) -> FolderScan {
    FolderScan {
        folder_is_dir: true,
        records: files.iter().map(|(path, tags)| record(path, tags)).collect(),
        now: 1000,
    }
}

fn no_scan() -> FolderScan {
    FolderScan { folder_is_dir: false, records: vec![], now: 1000 }
}

fn database() -> Database {
    let mut db = Database::new();
    db.init(&vec![], &TextMap::new());
    db
}

fn empty_library() -> Library {
    Library::new(Backend::new(database()), Settings::new())
}

type Files<'a> = &'a [(&'a str, &'a [(&'a str, &'a str)])];

fn library(music: Files, sfx: Files) -> Library {
    let mut settings = Settings::new();
    settings.set_category_folder(Category::Music, "/music".to_string());
    settings.set_category_folder(Category::Sfx, "/sfx".to_string());
    let mut backend = Backend::new(database());
    backend.set_category_folder(Category::Music, "/music".to_string(), scan(music));
    backend.set_category_folder(Category::Sfx, "/sfx".to_string(), scan(sfx));
    Library::new(backend, settings)
}

/// A library over what another one leaves behind.
fn restarted(library: Library) -> Library {
    Library::new(Backend::new(library.backend.db), library.settings)
}

fn names(records: &[FileRecord]) -> Vec<&str> {
    records.iter().map(|record| record.name.as_str()).collect()
}

fn values<'a>(map: &'a TextMap<Vec<String>>, key: &str) -> Vec<&'a str> {
    match map.get(key) {
        Some(values) => values.iter().map(|value| value.as_str()).collect(),
        None => vec![],
    }
}

fn keys(map: &TextMap<Vec<String>>) -> Vec<&str> {
    (0..map.len()).map(|i| map.key_at(i).as_str()).collect()
}

fn tag(key: &str, value: &str) -> Option<(String, String)> {
    Some((key.to_string(), value.to_string()))
}

#[test]
fn library_missing_settings_file_starts_empty() {
    let library = empty_library();
    assert_eq!(library.active_state().results.len(), 0);
    assert_eq!(keys(&library.active_state().schema), vec!["genre", "mood"]);
    assert!(library.category_folder(Category::Music).is_none());
}

#[test]
fn library_priority_waveform_cache_fills_missing_visible_row() {
    let mut library = library(&[("/music/needs-cache.wav", &[])], &[]);
    let path = "/music/needs-cache.wav";
    assert!(library.active_state().results[0].primary_waveform().is_none());

    assert!(library.maybe_start_priority_waveform_cache(path, true));
    assert!(!library.maybe_start_priority_waveform_cache(path, true));
    library.finish_priority_waveform_cache(Some((path.to_string(), Some([7; 256]))));

    assert_eq!(library.active_state().results[0].primary_waveform(), Some([7; 256]));
    assert!(library.maybe_start_priority_waveform_cache(path, true));
    assert!(!library.maybe_start_priority_waveform_cache("/music/gone.wav", false));
    library.finish_priority_waveform_cache(None);
    assert!(library.maybe_start_priority_waveform_cache(path, true));
}

#[test]
fn library_invalid_settings_folder_starts_empty() {
    let mut settings = Settings::new();
    settings.set_category_folder(Category::Music, "/missing".to_string());
    let library = Library::new(Backend::new(database()), settings);
    assert_eq!(library.active_state().results.len(), 0);
    assert!(library.category_needs_folder(Category::Music, false));
    assert!(!library.category_needs_folder(Category::Music, true));
    assert!(library.category_needs_folder(Category::Sfx, true));
}

#[test]
fn library_category_folder_persists_and_refreshes() {
    let mut library = empty_library();
    assert_eq!(library.active_state().results.len(), 0);

    let found = scan(&[("/music/track.flac", &[("GENRE", "Ambient")])]);
    let limit = library.set_category_folder(Category::Music, "/music".to_string(), found).unwrap();
    assert_eq!(limit, Some(16));
    assert_eq!(library.active_state().results.len(), 1);

    let restarted = restarted(library);
    assert_eq!(restarted.category_folder(Category::Music), Some("/music"));
    assert_eq!(restarted.active_state().results.len(), 1);
}

#[test]
fn folders_stay_where_settings_cannot_be_written() {
    let mut library = empty_library();
    library.set_settings_writable(false);
    let found = scan(&[("/music/track.flac", &[])]);
    assert_eq!(
        library.set_category_folder(Category::Music, "/music".to_string(), found),
        Err(SettingsNotWritten)
    );
    assert!(library.category_folder(Category::Music).is_none());
    library.toggle_tag_group_visibility("genre");
    assert!(library.tag_group_is_visible("genre"));
    assert_eq!(library.filter_panel_revision(), 0);
}

#[test]
fn library_active_results_group_extension_variants() {
    let library = library(
        &[("/music/aaa.flac", &[("GENRE", "Ambient")]), ("/music/aaa.mp3", &[])],
        &[],
    );
    let results = &library.active_state().results;
    assert_eq!(names(results), vec!["aaa"]);
    let extensions: Vec<&str> =
        results[0].variants.iter().map(|variant| variant.extension.as_str()).collect();
    assert_eq!(extensions, vec!["mp3", "flac"]);
    assert_eq!(library.format_priority()[0], AudioFormat::Mp3);
}

fn assignment(value: &str, key: &str) -> FolderTagAssignment {
    FolderTagAssignment { value: value.to_string(), key: key.to_string(), enabled: true }
}

#[test]
fn library_folder_tag_assignment_updates_active_category() {
    let mut library = library(
        &[("/music/ambient/dark/pad.wav", &[])],
        &[("/sfx/foley/impact/hit.wav", &[])],
    );
    let found = scan(&[("/music/ambient/dark/pad.wav", &[])]);
    assert_eq!(library.prepare_folder_tag_values(found), vec!["ambient", "dark"]);

    let inserted = library.assign_folder_tags(
        Category::Music,
        true,
        &vec![assignment("ambient", "genre"), assignment("dark", "mood")],
    );
    assert_eq!(inserted, 2);

    let music = &library.state(Category::Music).results[0].tags;
    assert_eq!(values(music, "genre"), vec!["ambient"]);
    assert_eq!(values(music, "mood"), vec!["dark"]);
    assert!(!library.state(Category::Sfx).results[0].tags.contains_key("type"));
}

#[test]
fn library_trash_files_removes_grouped_variants_and_refreshes() {
    let mut library = library(
        &[
            ("/music/aaa.flac", &[("GENRE", "Ambient")]),
            ("/music/aaa.mp3", &[]),
            ("/music/bbb.opus", &[("MOOD", "Dark")]),
            ("/music/bbb.wav", &[]),
        ],
        &[],
    );
    assert_eq!(library.active_state().results.len(), 2);
    let paths: Vec<String> = library
        .active_state()
        .results
        .iter()
        .flat_map(|record| record.variants.iter().map(|variant| variant.path.clone()))
        .collect();
    let mut twice = paths.clone();
    twice.extend(paths.clone());
    let job = library.trash_files(twice, None).unwrap();
    assert_eq!(job.paths, paths);
    assert!(!job.stops_preview);
    assert!(library.trash_files(vec![], None).is_none());

    assert!(!library.finish_trash_files(job.category, scan(&[]), true));
    assert_eq!(library.active_state().results.len(), 0);
}

#[test]
fn library_format_priority_moves_one_step() {
    let mut library = empty_library();
    library.move_format_priority_down(AudioFormat::Mp3);
    assert_eq!(
        library.format_priority().to_vec(),
        vec![
            AudioFormat::Wav,
            AudioFormat::Mp3,
            AudioFormat::Opus,
            AudioFormat::Flac,
        ]
    );
    library.move_format_priority_up(AudioFormat::Opus);
    let after_up = vec![
        AudioFormat::Wav,
        AudioFormat::Opus,
        AudioFormat::Mp3,
        AudioFormat::Flac,
    ];
    assert_eq!(library.format_priority().to_vec(), after_up);
    library.move_format_priority_up(AudioFormat::Wav);
    library.move_format_priority_down(AudioFormat::Flac);
    assert_eq!(library.format_priority().to_vec(), after_up);
    assert_eq!(restarted(library).format_priority().to_vec(), after_up);
}

#[test]
fn library_download_format_persists() {
    let mut library = empty_library();
    assert_eq!(library.download_format(), AudioFormat::Opus);
    library.set_download_format(AudioFormat::Wav);
    assert_eq!(restarted(library).download_format(), AudioFormat::Wav);
}

#[test]
fn library_tag_group_visibility_persists() {
    let mut library = empty_library();
    library.toggle_tag_group_visibility("genre");
    let mut library = restarted(library);
    assert!(!library.tag_group_is_visible("genre"));
    library.toggle_tag_group_visibility("genre");
    assert!(library.tag_group_is_visible("genre"));
    library.hide_all_tag_groups(&vec!["genre".to_string(), "mood".to_string()]);
    assert!(!library.tag_group_is_visible("mood"));
    library.show_all_tag_groups();
    assert!(library.tag_group_is_visible("mood"));
}

#[test]
fn library_tag_column_visibility_persists() {
    let mut library = empty_library();
    let mut keys = TextSet::new();
    keys.insert("genre".to_string());
    library.set_hidden_tag_column_keys(keys);
    assert!(restarted(library).hidden_tag_column_keys().contains("genre"));
}

#[test]
fn library_supported_wav_is_indexed_and_searchable() {
    let mut library = library(
        &[("/music/native.flac", &[("GENRE", "Ambient")]), ("/music/hidden.wav", &[])],
        &[],
    );
    library.set_search("wav");
    assert_eq!(names(&library.active_state().results), vec!["hidden"]);
}

#[test]
fn library_search_filters_both_categories_when_switching() {
    let mut library = library(
        &[
            ("/music/hit-music.flac", &[("GENRE", "Ambient")]),
            ("/music/miss-music.flac", &[("GENRE", "Ambient")]),
        ],
        &[
            ("/sfx/hit-sfx.flac", &[("TYPE", "Impact")]),
            ("/sfx/miss-sfx.flac", &[("TYPE", "Impact")]),
        ],
    );
    library.set_search("hit");
    assert_eq!(library.active_state().results.len(), 1);
    assert_eq!(library.state(Category::Sfx).results.len(), 2);

    library.set_category(Category::Sfx);
    assert_eq!(library.active_state().results.len(), 1);

    library.set_category(Category::Music);
    assert_eq!(library.active_state().results.len(), 1);
    assert!(library.clear_search());
    assert!(!library.clear_search());
    assert_eq!(library.active_state().results.len(), 2);
}

#[test]
fn library_async_search_discards_stale_results() {
    let mut library = library(&[("/music/first.flac", &[]), ("/music/second.flac", &[])], &[]);
    let first = library.set_search_async("first");
    let second = library.set_search_async("second");
    let found = first.run();
    assert!(!library.finish_search(&first, found));
    let found = second.run();
    assert!(library.finish_search(&second, found));

    assert_eq!(library.search(), "second");
    assert_eq!(names(&library.active_state().results), vec!["second"]);
    let found = second.run();
    assert!(!library.finish_search(&second, found));
}

#[test]
fn library_unified_search_adds_tag_matches_only_while_filter_panel_is_open() {
    let mut library = library(
        &[("/music/beat.flac", &[("GENRE", "Ambient")]), ("/music/ambient-name.flac", &[])],
        &[],
    );
    library.set_search("ambient");
    assert_eq!(names(&library.active_state().results), vec!["ambient-name"]);

    library.toggle_filters();
    assert_eq!(names(&library.active_state().results), vec!["ambient-name", "beat"]);
    assert_eq!(library.single_tag_search_match(), tag("genre", "Ambient"));

    assert!(library.apply_single_tag_search_match());
    assert!(library.search().is_empty());
    assert_eq!(names(&library.active_state().results), vec!["beat"]);
    assert!(library.active_state().selected.get("genre").unwrap().contains("Ambient"));
    assert!(library.close_filters());
    assert!(!library.close_filters());
}

fn dropped(path: &str) -> Vec<DroppedFile> {
    vec![DroppedFile { path: path.to_string(), resolved: Some(path.to_string()) }]
}

#[test]
fn library_same_category_internal_drop_is_noop() {
    let mut library = library(&[("/music/track.flac", &[("GENRE", "Ambient")])], &[]);
    library.begin_internal_file_drag("/music/track.flac".to_string());
    assert!(library.internal_file_drag_active());
    assert!(library.import_files(Category::Music, dropped("/music/track.flac")).is_none());
    assert!(!library.internal_file_drag_active());
    assert_eq!(library.active_state().results.len(), 1);
}

#[test]
fn library_cross_category_internal_drop_moves_file() {
    let mut library = library(&[("/music/move.flac", &[("GENRE", "Ambient")])], &[]);
    library.add_tag("/music/move.flac".to_string(), "CUSTOM", "Favorite");

    library.begin_internal_file_drag("/music/move.flac".to_string());
    let job = library.import_files(Category::Sfx, dropped("/music/move.flac")).unwrap();
    assert_eq!(job.folder, "/sfx");
    assert_eq!(job.paths, vec!["/music/move.flac"]);
    assert_eq!(job.moved_from, Some(Category::Music));
    assert!(library.import_files(Category::Sfx, dropped("/other.flac")).is_none());
    let result = ImportBatchResult {
        category: job.category,
        moved_from: job.moved_from,
        moved_files: vec![("/music/move.flac".to_string(), "/sfx/move.flac".to_string())],
    };
    library.finish_import(result, scan(&[("/sfx/move.flac", &[])]), scan(&[]));

    assert_eq!(library.state(Category::Music).results.len(), 0);
    assert_eq!(library.state(Category::Sfx).results.len(), 1);
    let tags = &library.state(Category::Sfx).results[0].tags;
    assert_eq!(values(tags, "genre"), vec!["Ambient"]);
    assert_eq!(values(tags, "custom"), vec!["Favorite"]);
}

#[test]
fn library_toggling_a_value_filters_active_results() {
    let mut library = library(
        &[
            ("/music/dark.flac", &[("GENRE", "Electronic"), ("MOOD", "Dark")]),
            ("/music/calm.flac", &[("GENRE", "Ambient"), ("MOOD", "Calm")]),
        ],
        &[("/sfx/hit.flac", &[("TYPE", "Impact")])],
    );
    assert_eq!(library.active_state().results.len(), 2);
    library.toggle_value("genre", "Electronic");
    assert_eq!(library.active_state().results.len(), 1);
    library.set_category(Category::Sfx);
    assert_eq!(library.active_state().results.len(), 1);
    library.set_category(Category::Music);
    assert_eq!(library.active_state().results.len(), 1);
    library.toggle_value("genre", "Electronic");
    assert_eq!(library.active_state().results.len(), 2);
}

#[test]
fn library_tag_panel_only_shows_values_present_in_filtered_results() {
    let mut library = library(
        &[
            ("/music/dark.flac", &[("GENRE", "Electronic"), ("MOOD", "Dark")]),
            ("/music/calm.flac", &[("GENRE", "Ambient"), ("MOOD", "Calm")]),
        ],
        &[],
    );
    let schema = library.tag_panel_schema();
    assert_eq!(values(&schema, "genre"), vec!["Ambient", "Electronic"]);
    assert_eq!(values(&schema, "mood"), vec!["Calm", "Dark"]);

    library.toggle_value("genre", "Electronic");
    let schema = library.tag_panel_schema();
    assert_eq!(values(&schema, "genre"), vec!["Electronic"]);
    assert_eq!(values(&schema, "mood"), vec!["Dark"]);
}

#[test]
fn library_clearing_selected_filters_restores_active_results() {
    let mut library = library(
        &[
            ("/music/dark.flac", &[("GENRE", "Electronic")]),
            ("/music/calm.flac", &[("GENRE", "Ambient")]),
        ],
        &[],
    );
    library.toggle_value("genre", "Electronic");
    assert_eq!(library.active_state().results.len(), 1);
    assert_eq!(library.active_state().selected.get("genre").unwrap().len(), 1);

    assert!(library.clear_selected_filters());
    assert_eq!(library.active_state().results.len(), 2);
    assert!(library.active_state().selected.is_empty());
    assert!(!library.clear_selected_filters());
}

#[test]
fn library_tag_search_prioritizes_single_exact_match() {
    let mut library = library(&[("/music/tagged.flac", &[])], &[]);
    library.add_tag("/music/tagged.flac".to_string(), "mood", "Hype");
    library.add_tag("/music/tagged.flac".to_string(), "genre", "Hyper");
    library.set_search("hype");
    assert_eq!(library.single_tag_search_match(), tag("mood", "Hype"));
}

#[test]
fn library_tag_search_autocomplete_counts_collapsed_subtag_parent_once() {
    let mut library = library(&[("/music/comedy.flac", &[]), ("/music/meme.flac", &[])], &[]);
    library.add_tag("/music/comedy.flac".to_string(), "use", "shitpost/comedy");
    library.add_tag("/music/meme.flac".to_string(), "use", "shitpost/meme");
    library.set_search("shi");
    assert_eq!(library.single_tag_search_match(), tag("use", "shitpost"));
}

#[test]
fn library_tag_search_autocomplete_targets_subtag_before_and_after_parent_selection() {
    let mut library = library(&[("/music/comedy.flac", &[]), ("/music/meme.flac", &[])], &[]);
    library.add_tag("/music/comedy.flac".to_string(), "use", "shitpost/comedy");
    library.add_tag("/music/meme.flac".to_string(), "use", "shitpost/meme");
    library.set_search("com");
    assert_eq!(library.single_tag_search_match(), tag("use", "shitpost/comedy"));

    library.set_search("");
    library.toggle_value("use", "shitpost");
    library.set_search("mem");
    assert_eq!(library.single_tag_search_match(), tag("use", "shitpost/meme"));
}

#[test]
fn library_tag_search_orders_exact_matches_before_fuzzy_matches() {
    let mut values = vec!["Hyper", "Hypr"];

    values.sort_by_key(|value| tag_search_match_sort_key(value, "hypr"));

    assert_eq!(values, vec!["Hypr", "Hyper"]);
}

#[test]
fn library_tag_search_orders_exact_groups_before_fuzzy_groups() {
    let mut groups = vec![("genre", vec!["Hyper"]), ("mood", vec!["Hypr"])];

    groups.sort_by_key(|(key, values)| tag_search_group_sort_key(key, values, "hypr"));

    assert_eq!(groups[0].0, "mood");
    assert_eq!(groups[1].0, "genre");
}

#[test]
fn tests_tag_search_orders_exact_matches_before_fuzzy_matches() {
    let mut values = vec!["Hyper", "Hypr"];

    values.sort_by_key(|value| tag_search_match_sort_key(value, "hypr"));

    assert_eq!(values, vec!["Hypr", "Hyper"]);
}

#[test]
fn tests_tag_search_orders_exact_groups_before_fuzzy_groups() {
    let mut groups = vec![("genre", vec!["Hyper"]), ("mood", vec!["Hypr"])];

    groups.sort_by_key(|(key, values)| tag_search_group_sort_key(key, values, "hypr"));

    assert_eq!(groups[0].0, "mood");
    assert_eq!(groups[1].0, "genre");
}

#[test]
fn library_removing_last_tag_value_clears_selected_filter() {
    let mut library = library(&[("/music/tagged.flac", &[])], &[]);
    library.add_tag("/music/tagged.flac".to_string(), "genre", "Hype");
    library.toggle_value("genre", "Hype");
    assert!(library.active_state().selected.get("genre").unwrap().contains("Hype"));

    let event = library.remove_tag("/music/tagged.flac".to_string(), "genre", "Hype");
    assert!(matches!(event, LibraryEvent::TagEdited { path } if path == "/music/tagged.flac"));
    assert!(library.active_state().selected.is_empty());
    assert!(!values(&library.active_state().schema, "genre").contains(&"Hype"));
    assert_eq!(library.active_state().results.len(), 1);
}

#[test]
fn library_intersection_tag_visibility_persists_and_clears_when_orphaned() {
    let mut library =
        library(&[("/music/shared.flac", &[]), ("/music/target-only.flac", &[])], &[]);
    library.add_tag("/music/shared.flac".to_string(), "genre", "Hype");
    library.add_tag("/music/shared.flac".to_string(), "mood", "Dark");
    library.add_tag("/music/target-only.flac".to_string(), "genre", "Hype");
    library.toggle_tag_intersection_visibility("genre", "Hype");
    assert!(library.tag_shows_on_intersection("genre", "Hype"));
    assert!(!library.tag_is_visible_in_panel("genre", "Hype"));

    library.set_search("Hype");
    assert!(library.tag_is_visible_in_panel("genre", "Hype"));
    library.set_search("");

    library.toggle_value("mood", "Dark");
    assert!(library.tag_is_visible_in_panel("genre", "Hype"));

    let mut restarted = restarted(library);
    assert!(restarted.tag_shows_on_intersection("genre", "Hype"));

    restarted.remove_tag("/music/shared.flac".to_string(), "mood", "Dark");
    assert!(!restarted.tag_shows_on_intersection("genre", "Hype"));
    assert!(restarted.tag_is_visible_in_panel("genre", "Hype"));
}

#[test]
fn library_renaming_last_tag_value_renames_selected_filter() {
    let mut library = library(&[("/music/tagged.flac", &[])], &[]);
    library.add_tag("/music/tagged.flac".to_string(), "genre", "Hype");
    library.toggle_value("genre", "Hype");
    library.rename_tag("/music/tagged.flac".to_string(), "genre", "Hype", "Mad");

    let state = library.active_state();
    let selected = state.selected.get("genre").unwrap();
    assert!(!selected.contains("Hype"));
    assert!(selected.contains("Mad"));
    assert_eq!(values(&state.schema, "genre"), vec!["Mad"]);
    assert_eq!(values(&state.results[0].tags, "genre"), vec!["Mad"]);
}

#[test]
fn library_category_navigation_wraps() {
    let mut library = library(&[], &[]);
    library.next_category();
    assert_eq!(library.active(), Category::Sfx);
    library.next_category();
    assert_eq!(library.active(), Category::Music);
    library.previous_category();
    assert_eq!(library.active(), Category::Sfx);
}

#[test]
fn renamed_keys_stay_checked() {
    let mut library = library(&[("/music/a.flac", &[])], &[]);
    library.add_tag("/music/a.flac".to_string(), "use", "intro");
    library.toggle_value("use", "intro");
    library.rename_tag_key("use", "purpose", scan(&[("/music/a.flac", &[])]));
    assert!(library.active_state().selected.get("purpose").unwrap().contains("intro"));
    assert!(!library.active_state().selected.contains_key("use"));
    assert!(library.remove_tag_key("purpose"));
    assert!(library.active_state().selected.is_empty());
    assert!(library.add_tag_key("fresh"));
    assert!(!library.add_tag_key("  "));
    assert!(library.active_state().schema.contains_key("fresh"));
}

#[test]
fn renamed_values_and_sounds_are_shown() {
    let mut library = library(&[("/music/a.flac", &[]), ("/music/b.flac", &[])], &[]);
    library.add_tag("/music/a.flac".to_string(), "mood", "Dark");
    library.add_tag("/music/b.flac".to_string(), "mood", "Dark");
    let files: Files = &[("/music/a.flac", &[]), ("/music/b.flac", &[])];
    library.rename_tag_value("mood", "Dark", "Bleak", scan(files));
    assert_eq!(values(&library.active_state().schema, "mood"), vec!["Bleak"]);

    let renamed = vec![RenameRecord {
        stem: "a".to_string(),
        paths: vec!["/music/a.flac".to_string()],
    }];
    let files: Files = &[("/music/c.flac", &[]), ("/music/b.flac", &[])];
    library.rename_records(&renamed, "c", scan(files));
    assert_eq!(names(&library.active_state().results), vec!["b", "c"]);
    assert_eq!(values(&library.active_state().results[1].tags, "mood"), vec!["Bleak"]);
}

#[test]
fn pasting_starts_one_download_or_says_why_not() {
    let mut library = library(&[], &[]);
    assert!(library.download_from_clipboard(Category::Music, None).is_none());
    match library.download_state() {
        DownloadState::Error(error) => assert_eq!(error.message, "Clipboard has no text"),
        _ => panic!("an empty clipboard is no error"),
    }
    assert!(library.downloader_open());
    assert!(library.download_from_clipboard(Category::Music, Some("nothing")).is_none());
    match library.download_state() {
        DownloadState::Error(error) => assert_eq!(error.kind, DownloadErrorKind::InvalidUrl),
        _ => panic!("a text without a link is no error"),
    }
    library.dismiss_download_error();
    assert!(matches!(library.download_state(), DownloadState::Idle));

    let job = library.download_from_clipboard(Category::Sfx, Some("youtu.be/abc")).unwrap();
    assert_eq!(job.request.url, "https://youtu.be/abc");
    assert_eq!(job.request.folder, "/sfx");
    assert_eq!(job.request.format, AudioFormat::Opus);
    assert!(!job.cancel.is_canceled());
    assert!(library.download_from_clipboard(Category::Sfx, Some("youtu.be/def")).is_none());

    library.apply_download_progress(DownloadProgressEvent::Label(String::new()));
    library.apply_download_progress(DownloadProgressEvent::Percent("12.5".to_string()));
    match library.download_state() {
        DownloadState::Running(status) => {
            assert_eq!(status.label, "Preparing download");
            assert_eq!(status.percent, "12.5");
            assert_eq!(status.category, Category::Sfx);
        }
        _ => panic!("the download does not run"),
    }
    library.cancel_download();
    assert!(job.cancel.is_canceled());
    match library.download_state() {
        DownloadState::Running(status) => assert_eq!(status.label, "Canceling"),
        _ => panic!("the download does not run"),
    }
    let canceled = Err(DownloadError::canceled());
    assert!(library.finish_download(Category::Sfx, canceled, no_scan()).is_none());
    assert!(matches!(library.download_state(), DownloadState::Idle));
}

#[test]
fn canceling_reaches_the_running_download_alone() {
    let mut library = library(&[], &[]);
    library.cancel_download();
    let first = library.download_from_clipboard(Category::Music, Some("youtu.be/abc")).unwrap();
    assert!(!first.cancel.is_canceled());
    let output = Err(DownloadError::canceled());
    library.finish_download(Category::Music, output, no_scan());
    let second = library.download_from_clipboard(Category::Music, Some("youtu.be/abc")).unwrap();
    library.cancel_download();
    assert!(second.cancel.is_canceled());
    assert!(!first.cancel.is_canceled());
    assert_eq!(library.download_cancel_asked, true);
}

#[test]
fn downloads_need_a_folder_and_end_in_the_table() {
    let mut library = empty_library();
    assert!(library.download_from_clipboard(Category::Music, Some("youtu.be/abc")).is_none());
    match library.download_state() {
        DownloadState::Error(error) => assert_eq!(error.message, "Music folder not set"),
        _ => panic!("a missing folder is no error"),
    }
    library
        .set_category_folder(Category::Music, "/music".to_string(), scan(&[]))
        .unwrap();
    library.download_from_clipboard(Category::Music, Some("youtu.be/abc")).unwrap();
    let output = Ok(DownloadOutput { path: "/music/a.opus".to_string() });
    library.finish_download(Category::Music, output, scan(&[("/music/a.opus", &[])]));
    assert_eq!(names(&library.active_state().results), vec!["a"]);
    let failed = Err(DownloadError::unavailable());
    library.finish_download(Category::Music, failed, no_scan());
    match library.download_state() {
        DownloadState::Error(error) => assert_eq!(error.kind, DownloadErrorKind::Unavailable),
        _ => panic!("a failed download is no error"),
    }
}

#[test]
fn conversions_go_one_at_a_time() {
    let mut library = library(&[("/music/a.wav", &[])], &[]);
    library.set_convert_conflict_behavior(ConvertConflictBehavior::Overwrite);
    let sources = vec!["/music/a.wav".to_string(), "/music//a.wav".to_string()];
    let job = library.convert_files_to_format(sources, AudioFormat::Flac).unwrap();
    assert_eq!(job.sources, vec!["/music/a.wav"]);
    assert_eq!(job.behavior, ConvertConflictBehavior::Overwrite);
    assert_eq!(library.import_progress().unwrap().file_name, "a.wav");
    assert!(library
        .convert_files_to_format(vec!["/music/b.wav".to_string()], AudioFormat::Flac)
        .is_none());
    library.apply_import_progress(ImportProgressEvent::Progress("40".to_string()));
    assert_eq!(library.import_progress().unwrap().progress, "40");
    library.apply_import_progress(ImportProgressEvent::Start { file_name: "b".to_string() });
    assert_eq!(library.import_progress().unwrap().file_name, "b");
    library.apply_import_progress(ImportProgressEvent::Finish);
    assert!(library.import_progress().is_none());
    library.finish_convert(Category::Music, true, scan(&[("/music/a.flac", &[])]));
    assert_eq!(library.active_state().results[0].path, "/music/a.flac");
    assert!(library.convert_files_to_format(vec![], AudioFormat::Flac).is_none());
    assert_eq!(shown_file_name("/"), "import");
}

#[test]
fn rescans_wait_a_little() {
    let mut library = library(&[], &[]);
    assert!(library.rescan_after_focus(10_000));
    assert!(!library.rescan_after_focus(20_000));
    let scans = Some((scan(&[("/music/new.wav", &[])]), scan(&[])));
    assert_eq!(library.finish_focus_rescan(scans, true), (false, Some(16)));
    assert_eq!(names(&library.active_state().results), vec!["new"]);
    assert!(!library.rescan_after_focus(10_749));
    assert!(library.rescan_after_focus(10_750));
    assert_eq!(library.finish_focus_rescan(None, true), (false, None));
}

#[test]
fn waveforms_are_made_in_batches() {
    let mut library = library(&[("/music/a.wav", &[]), ("/music/b.wav", &[])], &[]);
    assert_eq!(library.maybe_start_waveform_cache(), Some(16));
    assert_eq!(library.maybe_start_waveform_cache(), None);
    let skipped: Vec<String> = vec![];
    let mut batch = WaveformBatch::new();
    let paths = library.backend.missing_waveform_cache_paths(16);
    assert_eq!(paths, vec!["/music/a.wav", "/music/b.wav"]);
    assert_eq!(batch.next_step(&paths[0], &skipped, true), WaveformStep::Make);
    assert!(batch.advance(paths[0].clone(), &skipped, true, Some([3; 256])));
    assert!(batch.advance(paths[1].clone(), &skipped, true, None));
    assert_eq!(library.finish_waveform_cache(Some(batch)), Some(17));
    assert_eq!(library.active_state().results[0].primary_waveform(), Some([3; 256]));
    let empty = WaveformBatch::new();
    assert_eq!(
        empty.next_step("/music/b.wav", &library.waveforms.skipped, true),
        WaveformStep::Pass
    );
    assert_eq!(empty.next_step("/music/c.wav", &skipped, false), WaveformStep::LeaveOut);
    assert_eq!(library.finish_waveform_cache(Some(empty)), None);
    assert_eq!(library.finish_waveform_cache(None), None);
}

#[test]
fn a_batch_stops_when_it_is_full() {
    let skipped: Vec<String> = vec![];
    let mut batch = WaveformBatch::new();
    for i in 0..16 {
        assert!(batch.advance(format!("/{i}.wav"), &skipped, true, Some([1; 256])));
    }
    assert!(!batch.advance("/next.wav".to_string(), &skipped, true, Some([1; 256])));
    assert_eq!(batch.made.len(), 16);
}

fn at(path: &str, offset: u128) -> PreviewPosition {
    PreviewPosition { path: path.to_string(), offset }
}

#[test]
fn previews_start_stop_and_end() {
    let mut library = library(&[("/music/a.wav", &[])], &[]);
    assert!(library.stop_preview(None).is_none());
    assert_eq!(library.play_preview_from_start("/music/a.wav".to_string(), true), (true, true));
    assert_eq!(
        library.play_preview_from_offset("/music/a.wav".to_string(), 5, true),
        (true, false)
    );
    let (again, event) = library.watch_playhead(None, true);
    assert!(again && event.is_some());
    let paths = vec!["/music//a.wav".to_string()];
    assert!(library.trash_files(paths, None).unwrap().stops_preview);
    assert!(library.finish_trash_files(Category::Music, scan(&[]), false));
    assert!(library.stop_preview(Some(at("/music/a.wav", 9))).is_some());
    assert!(library.preview.current_path.is_none());
    assert_eq!(library.preview.last_stopped.as_ref().unwrap().offset, 9);

    library.play_preview_from_start("/music/a.wav".to_string(), true);
    let (again, event) = library.watch_playhead(Some(at("/music/a.wav", 10)), false);
    assert!(!again && event.is_some());
    assert_eq!(library.play_preview_from_start("/gone.wav".to_string(), false), (false, false));
    let (again, event) = library.watch_playhead(None, false);
    assert!(!again && event.is_none());
    library.stop_active_preview(Some(at("/x.wav", 1)));
    assert_eq!(library.preview.last_stopped.as_ref().unwrap().path, "/x.wav");
}

#[test]
fn the_playhead_belongs_to_one_path() {
    assert!(paths_equal("/a/b", "/a//b", None));
    assert!(paths_equal("/real", "/link", Some("/real")));
    assert!(!paths_equal("/link", "/real", Some("/real")));
    let position = Some(at("/a.wav", 3));
    assert_eq!(playhead_for_path("/a.wav", None, &position, Some(12)), Some((3, 12)));
    assert_eq!(playhead_for_path("/a.wav", None, &position, Some(0)), None);
    assert_eq!(playhead_for_path("/b.wav", None, &position, Some(12)), None);
    assert_eq!(playhead_for_path("/a.wav", None, &None, Some(12)), None);
}

#[test]
fn panels_exclude_each_other() {
    let mut library = library(&[], &[]);
    library.toggle_downloader();
    assert!(library.downloader_open());
    library.toggle_filters();
    assert!(library.filters_open() && !library.downloader_open());
    library.toggle_downloader();
    assert!(library.downloader_open() && !library.filters_open());
    library.toggle_downloader();
    assert!(!library.downloader_open());
}

#[test]
fn display_keys_are_labels_in_lower_case() {
    assert_eq!(display_tag_key("GENRE"), Some("genre".to_string()));
    assert_eq!(display_tag_key(" Use "), Some("use".to_string()));
    assert_eq!(display_tag_key(" "), None);
}

#[test]
fn edits_show_at_once() {
    let library = library(&[("/music/a.wav", &[("GENRE", "b")])], &[]);
    let mut state = CategoryState::default();
    state.results =
        filter_cached_records(&library.active_state().all_records, "", &TextMap::new(), true);
    apply_tag_add(&mut state, "/music//a.wav", "Genre", "A");
    assert_eq!(values(&state.results[0].tags, "genre"), vec!["A", "b"]);
    assert_eq!(values(&state.schema, "genre"), vec!["A"]);
    apply_tag_remove(&mut state, "/music/a.wav", "Genre", "A");
    assert_eq!(values(&state.results[0].tags, "genre"), vec!["b"]);
    assert_eq!(values(&state.schema, "genre"), Vec::<&str>::new());
}

#[test]
fn removing_a_filter_shows_more() {
    let mut library = library(
        &[("/music/a.flac", &[("MOOD", "Dark")]), ("/music/b.flac", &[("MOOD", "Calm")])],
        &[],
    );
    library.toggle_value("mood", "Dark");
    assert_eq!(library.active_state().results.len(), 1);
    library.remove_value("mood", "Dark");
    assert_eq!(library.active_state().results.len(), 2);
    library.remove_value("no such key", "Dark");
    assert_eq!(library.active_state().results.len(), 2);
    let revision = library.table_revision();
    library.set_search("a");
    assert_eq!(library.table_revision(), revision + 1);
}
