use lowcat::db::folders::folder_tag_values;
use lowcat::db::migrations::{
    category_from_key, category_key, PREVIEW_WAVEFORM_VERSION, PREVIEW_WAVEFORM_VERSION_KEY,
};
use lowcat::db::query::{canonical_selected, priority_index, sort_variants};
use lowcat::db::statements::file_rows_statement;
use lowcat::db::sync::{FileScanRecord, SyncSummary};
use lowcat::db::{Database, StoredFile};
use lowcat::like::{like_descendant_pattern, like_matches, like_subsequence_pattern};
use lowcat::model::{
    default_format_priority, AudioFormat, Category, ConvertConflictBehavior, FileRecord,
    FileVariant, FolderTagAssignment, WaveformBinary256,
};
use lowcat::text_map::{TextMap, TextSet};

fn open() -> Database {
    let mut db = Database::new();
    db.init(&vec![], &TextMap::new());
    db
}

fn tag_map(tags: &[(&str, &[&str])]) -> TextMap<Vec<String>> {
    let mut map: TextMap<Vec<String>> = TextMap::new();
    for (key, values) in tags {
        map.insert(key.to_string(), values.iter().map(|v| v.to_string()).collect());
    }
    map
}

fn checked(pairs: &[(&str, &[&str])]) -> TextMap<TextSet> {
    let mut map: TextMap<TextSet> = TextMap::new();
    for (key, values) in pairs {
        let mut set = TextSet::new();
        for value in values.iter() {
            set.insert(value.to_string());
        }
        map.insert(key.to_string(), set);
    }
    map
}

fn scan(name: &str, tags: &[(&str, &[&str])]) -> FileScanRecord {
    let (stem, extension) = name.rsplit_once('.').unwrap();
    FileScanRecord {
        path: format!("/tmp/{name}"),
        stem: stem.to_string(),
        extension: extension.to_string(),
        size: 1,
        modified: 1,
        tags: tag_map(tags),
    }
}

fn scan_path(path: &str) -> FileScanRecord {
    let name = path.rsplit_once('/').unwrap().1;
    let (stem, extension) = name.rsplit_once('.').unwrap();
    FileScanRecord {
        path: path.to_string(),
        stem: stem.to_string(),
        extension: extension.to_string(),
        size: 1,
        modified: 1,
        tags: TextMap::new(),
    }
}

fn sync(db: &mut Database, records: Vec<FileScanRecord>) -> SyncSummary {
    let now = 1000 + 100 * db.files.len() as i64;
    db.sync_category(Category::Music, records, now)
}

fn visible(db: &Database, search: &str, selected: &TextMap<TextSet>) -> Vec<FileRecord> {
    db.query_visible_rows(Category::Music, search, selected, &default_format_priority(), None)
}

fn all(db: &Database) -> Vec<FileRecord> {
    visible(db, "", &TextMap::new())
}

fn names(rows: &[FileRecord]) -> Vec<&str> {
    rows.iter().map(|row| row.name.as_str()).collect()
}

fn extensions(row: &FileRecord) -> Vec<&str> {
    row.variants.iter().map(|variant| variant.extension.as_str()).collect()
}

fn waveform(value: u8) -> WaveformBinary256 {
    [value; 256]
}

#[test]
fn sync_groups_variants_and_seeds_tags() {
    let mut db = open();
    let summary = sync(
        &mut db,
        vec![scan("track.flac", &[("GENRE", &["Ambient"])]), scan("track.mp3", &[])],
    );
    assert_eq!(summary.added, 2);

    let rows = all(&db);
    assert_eq!(rows.len(), 1);
    assert_eq!(rows[0].name, "track");
    assert_eq!(extensions(&rows[0]), vec!["mp3", "flac"]);
    assert_eq!(rows[0].tags.get("GENRE").unwrap(), &vec!["Ambient"]);
}

#[test]
fn duplicate_same_format_prefixes_newer_row_with_relative_parent() {
    let mut db = open();
    sync(&mut db, vec![scan_path("/tmp/music/ambient/song.wav")]);
    sync(
        &mut db,
        vec![
            scan_path("/tmp/music/ambient/song.wav"),
            scan_path("/tmp/music/ambient/alt/song.wav"),
        ],
    );

    let rows = db.query_visible_rows(
        Category::Music,
        "",
        &TextMap::new(),
        &default_format_priority(),
        Some("/tmp/music"),
    );

    assert_eq!(names(&rows), vec!["ambient/alt/song", "song"]);
    assert_eq!(rows[0].variants.len(), 1);
    assert_eq!(rows[1].variants.len(), 1);
}

fn assignment(value: &str, key: &str, enabled: bool) -> FolderTagAssignment {
    FolderTagAssignment { value: value.to_string(), key: key.to_string(), enabled }
}

#[test]
fn assign_folder_tags_uses_relative_parent_components_for_stems() {
    let mut db = open();
    sync(
        &mut db,
        vec![
            scan_path("/tmp/music/ambient/dark/song.wav"),
            scan_path("/tmp/music/bright/song.wav"),
            scan_path("/tmp/music/root.wav"),
        ],
    );

    let values = db.folder_tag_values(Category::Music, "/tmp/music");
    assert_eq!(values, vec!["ambient", "bright", "dark"]);

    let inserted = db.assign_folder_tags(
        Category::Music,
        "/tmp/music",
        &vec![
            assignment("ambient", "GENRE", true),
            assignment("dark", "MOOD", true),
            assignment("bright", "GENRE", false),
        ],
    );
    assert_eq!(inserted, 2);

    let rows = db.query_visible_rows(
        Category::Music,
        "",
        &TextMap::new(),
        &default_format_priority(),
        Some("/tmp/music"),
    );
    let song_rows: Vec<&FileRecord> = rows.iter().filter(|row| row.stem == "song").collect();
    assert_eq!(song_rows.len(), 2);
    for row in song_rows {
        assert_eq!(row.tags.get("GENRE").unwrap(), &vec!["ambient"]);
        assert_eq!(row.tags.get("MOOD").unwrap(), &vec!["dark"]);
    }
    let root = rows.iter().find(|row| row.stem == "root").unwrap();
    assert!(!root.tags.contains_key("GENRE"));

    let inserted = db.assign_folder_tags(
        Category::Music,
        "/tmp/music",
        &vec![assignment("ambient", "GENRE", true), assignment("dark", "MOOD", true)],
    );
    assert_eq!(inserted, 0);
}

fn legacy_song(first_seen_at: i64) -> Database {
    let mut db = Database::new();
    db.files.insert(
        "/tmp/song.wav".to_string(),
        StoredFile {
            category: Category::Music,
            stem: "song".to_string(),
            extension: "wav".to_string(),
            size: 1,
            modified: 1,
            first_seen_at,
            preview_waveform: None,
            search_text: "song wav music".to_string(),
        },
    );
    db
}

#[test]
fn open_migrates_legacy_files_table_with_first_seen_at() {
    let mut db = legacy_song(0);
    let mut row_ids: TextMap<i64> = TextMap::new();
    row_ids.insert("/tmp/song.wav".to_string(), 1);
    db.init(&vec![], &row_ids);

    let rows = all(&db);
    assert_eq!(rows[0].variants[0].first_seen_at, 1);
}

#[test]
fn open_migrates_legacy_files_table_with_preview_waveform() {
    let mut db = legacy_song(1);
    db.init(&vec![], &TextMap::new());

    let rows = all(&db);
    assert_eq!(rows.len(), 1);
    assert!(rows[0].variants[0].waveform.is_none());
    assert_eq!(db.missing_waveform_cache_paths(10), vec!["/tmp/song.wav"]);
}

#[test]
fn set_preview_waveform_round_trips_binary256() {
    let mut db = open();
    sync(&mut db, vec![scan_path("/tmp/song.wav")]);

    db.set_preview_waveform("/tmp/song.wav", waveform(42));
    assert_eq!(all(&db)[0].variants[0].waveform, Some(waveform(42)));

    db.clear_preview_waveform("/tmp/song.wav");
    assert!(all(&db)[0].variants[0].waveform.is_none());
}

#[test]
fn opening_new_waveform_version_invalidates_cached_shapes() {
    let mut db = open();
    sync(&mut db, vec![scan_path("/tmp/song.wav")]);
    db.set_preview_waveform("/tmp/song.wav", waveform(42));
    db.set_setting(PREVIEW_WAVEFORM_VERSION_KEY, "1");

    db.init(&vec![], &TextMap::new());
    assert_eq!(db.missing_waveform_cache_paths(10), vec!["/tmp/song.wav"]);
    assert_eq!(
        db.setting(PREVIEW_WAVEFORM_VERSION_KEY).as_deref(),
        Some(PREVIEW_WAVEFORM_VERSION)
    );
}

#[test]
fn sync_category_preserves_preview_waveform_when_file_unchanged() {
    let mut db = open();
    sync(&mut db, vec![scan_path("/tmp/song.wav")]);
    db.set_preview_waveform("/tmp/song.wav", waveform(99));

    let summary = sync(&mut db, vec![scan_path("/tmp/song.wav")]);
    assert_eq!(summary, SyncSummary::default());
    assert_eq!(all(&db)[0].variants[0].waveform, Some(waveform(99)));
}

#[test]
fn sync_category_clears_preview_waveform_when_file_changes() {
    let mut db = open();
    sync(&mut db, vec![scan_path("/tmp/song.wav")]);
    db.set_preview_waveform("/tmp/song.wav", waveform(99));

    let mut record = scan_path("/tmp/song.wav");
    record.size += 1;
    sync(&mut db, vec![record]);

    assert!(all(&db)[0].variants[0].waveform.is_none());
}

#[test]
fn missing_waveform_cache_paths_returns_uncached_files() {
    let mut db = open();
    sync(&mut db, vec![scan_path("/tmp/a.wav"), scan_path("/tmp/b.wav")]);
    db.set_preview_waveform("/tmp/a.wav", waveform(1));

    assert_eq!(db.missing_waveform_cache_paths(10), vec!["/tmp/b.wav"]);
    assert_eq!(db.missing_waveform_cache_paths(0), Vec::<String>::new());
}

#[test]
fn sync_category_preserves_removed_last_tag() {
    let mut db = open();
    sync(&mut db, vec![scan("song.flac", &[("GENRE", &["sgdsfg"])])]);
    db.remove_tag(Category::Music, "song", "GENRE", "sgdsfg");
    sync(&mut db, vec![scan("song.flac", &[("GENRE", &["sgdsfg"])])]);

    assert!(!all(&db)[0].tags.contains_key("GENRE"));
}

#[test]
fn schema_ignores_tags_without_current_file_rows() {
    let mut db = open();
    sync(&mut db, vec![scan("removed.flac", &[("GENRE", &["aaaaa"])])]);
    sync(&mut db, vec![]);

    let schema = db.schema_for(Category::Music);
    assert_eq!(schema.get("GENRE").unwrap(), &Vec::<String>::new());
    assert_eq!(schema.get("MOOD").unwrap(), &Vec::<String>::new());
}

#[test]
fn sync_category_deletes_tags_for_removed_stems() {
    let mut db = open();
    sync(
        &mut db,
        vec![
            scan("removed.flac", &[("GENRE", &["Stale"])]),
            scan("kept.flac", &[("GENRE", &["Current"])]),
        ],
    );
    sync(&mut db, vec![scan("kept.flac", &[("GENRE", &["Current"])])]);

    let schema = db.schema_for(Category::Music);
    let rows = all(&db);
    assert_eq!(schema.get("GENRE").unwrap(), &vec!["Current"]);
    assert_eq!(rows.len(), 1);
    assert_eq!(rows[0].name, "kept");
    assert_eq!(rows[0].tags.get("GENRE").unwrap(), &vec!["Current"]);
}

#[test]
fn query_visible_rows_filters_search_and_selected_in_sql() {
    let mut db = open();
    sync(
        &mut db,
        vec![
            scan("dark.flac", &[("MOOD", &["Dark"])]),
            scan("bright.flac", &[("MOOD", &["Bright"])]),
            scan("dark.mp3", &[]),
        ],
    );
    db.add_tag(Category::Music, "dark", "GENRE", "Electronic");

    let rows = visible(&db, "dark", &checked(&[("Genre", &["Electronic"])]));
    assert_eq!(rows.len(), 1);
    assert_eq!(rows[0].name, "dark");
    assert_eq!(extensions(&rows[0]), vec!["mp3", "flac"]);
    assert_eq!(rows[0].tags.get("GENRE").unwrap(), &vec!["Electronic"]);
}

#[test]
fn adding_subtag_replaces_existing_sibling_for_stem() {
    let mut db = open();
    sync(&mut db, vec![scan("post.flac", &[])]);
    db.add_tag(Category::Music, "post", "Use", "shitpost/comedy");
    db.add_tag(Category::Music, "post", "Use", "shitpost/meme");

    assert_eq!(all(&db)[0].tags.get("use").unwrap(), &vec!["shitpost/meme"]);
}

#[test]
fn parent_filter_matches_stored_subtag_path() {
    let mut db = open();
    sync(&mut db, vec![scan("post.flac", &[])]);
    db.add_tag(Category::Music, "post", "Use", "shitpost/comedy");

    let rows = visible(&db, "", &checked(&[("use", &["shitpost"])]));
    assert_eq!(rows.len(), 1);
    assert_eq!(rows[0].tags.get("use").unwrap(), &vec!["shitpost/comedy"]);
}

#[test]
fn query_visible_rows_fuzzy_search_matches_characters_in_order() {
    let mut db = open();
    sync(&mut db, vec![scan("it's me.flac", &[]), scan("mist.flac", &[])]);

    let rows = visible(&db, "its m", &TextMap::new());
    assert_eq!(rows.len(), 1);
    assert_eq!(rows[0].name, "it's me");
}

#[test]
fn query_visible_rows_sorts_search_by_best_name_match() {
    let mut db = open();
    sync(
        &mut db,
        vec![
            scan("brass loop.flac", &[]),
            scan("bassy.flac", &[]),
            scan("sub bass loop.flac", &[]),
            scan("bass.flac", &[]),
        ],
    );

    let rows = visible(&db, "bass", &TextMap::new());
    assert_eq!(names(&rows), vec!["bass", "sub bass loop", "bassy", "brass loop"]);
}

#[test]
fn query_visible_rows_escapes_sql_like_wildcards() {
    let mut db = open();
    sync(&mut db, vec![scan("100_percent.flac", &[]), scan("100Xpercent.flac", &[])]);

    let rows = visible(&db, "100_", &TextMap::new());
    assert_eq!(rows.len(), 1);
    assert_eq!(rows[0].name, "100_percent");
}

#[test]
fn settings_round_trip() {
    let mut db = open();
    assert_eq!(db.format_priority(), default_format_priority());

    db.set_format_priority(vec![AudioFormat::Flac, AudioFormat::Mp3]);
    assert_eq!(
        db.format_priority(),
        vec![
            AudioFormat::Flac,
            AudioFormat::Mp3,
            AudioFormat::Wav,
            AudioFormat::Opus
        ]
    );

    db.set_convert_conflict_behavior(ConvertConflictBehavior::Overwrite);
    assert_eq!(db.convert_conflict_behavior(), ConvertConflictBehavior::Overwrite);
}

#[test]
fn settings_fall_back_to_their_defaults() {
    let mut db = open();
    assert_eq!(db.convert_conflict_behavior(), ConvertConflictBehavior::AddCopy);
    db.set_setting("convert_conflict", "nonsense");
    assert_eq!(db.convert_conflict_behavior(), ConvertConflictBehavior::AddCopy);
    assert_eq!(db.setting("no such setting"), None);
}

#[test]
fn an_unchanged_scan_changes_nothing() {
    let mut db = open();
    sync(&mut db, vec![scan("a.flac", &[("GENRE", &["X"])]), scan("b.mp3", &[])]);
    let before = db.file_fingerprints(Category::Music).len();
    let summary = sync(&mut db, vec![scan("a.flac", &[("GENRE", &["Y"])]), scan("b.mp3", &[])]);
    assert_eq!(summary, SyncSummary::default());
    assert_eq!(db.file_fingerprints(Category::Music).len(), before);
    assert_eq!(db.tags_for_stem(Category::Music, "a").get("GENRE").unwrap(), &vec!["X"]);
}

#[test]
fn the_other_category_is_left_alone() {
    let mut db = open();
    sync(&mut db, vec![scan("a.flac", &[("GENRE", &["X"])])]);
    db.sync_category(Category::Sfx, vec![scan_path("/sfx/hit.wav")], 5000);
    db.sync_category(Category::Sfx, vec![], 6000);
    assert_eq!(names(&all(&db)), vec!["a"]);
    assert_eq!(db.file_fingerprints(Category::Sfx).len(), 0);
}

#[test]
fn removing_undoes_adding() {
    let mut db = open();
    sync(&mut db, vec![scan("a.flac", &[])]);
    db.add_tag(Category::Music, "a", "mood", "Dark");
    assert_eq!(db.tags_for_stem(Category::Music, "a").get("MOOD").unwrap(), &vec!["Dark"]);
    db.remove_tag(Category::Music, "a", "Mood", "Dark");
    assert!(!db.tags_for_stem(Category::Music, "a").contains_key("MOOD"));
}

#[test]
fn tag_keys_are_added_renamed_and_removed() {
    let mut db = open();
    sync(&mut db, vec![scan("a.flac", &[])]);
    assert_eq!(db.add_tag_key(Category::Music, " Use "), Some("use".to_string()));
    assert_eq!(db.add_tag_key(Category::Music, "  "), None);
    assert_eq!(db.tag_keys(Category::Music), vec!["GENRE", "MOOD", "use"]);
    db.add_tag(Category::Music, "a", "USE", "intro");
    db.rename_tag_key(Category::Music, "use", "Purpose");
    assert_eq!(
        db.tags_for_stem(Category::Music, "a").get("purpose").unwrap(),
        &vec!["intro"]
    );
    assert_eq!(db.canonical_tag_key(Category::Music, "PURPOSE"), Some("purpose".to_string()));
    assert!(db.remove_tag_key(Category::Music, "purpose"));
    assert!(!db.remove_tag_key(Category::Music, "purpose"));
    assert!(!db.tags_for_stem(Category::Music, "a").contains_key("purpose"));
}

#[test]
fn tag_values_are_renamed_on_one_sound_or_all() {
    let mut db = open();
    sync(&mut db, vec![scan("a.flac", &[]), scan("b.flac", &[])]);
    db.add_tag(Category::Music, "a", "mood", "Dark");
    db.add_tag(Category::Music, "b", "mood", "Dark");
    db.rename_stem_tag_value(Category::Music, "a", "mood", "Dark", "Grim");
    assert_eq!(db.tags_for_stem(Category::Music, "a").get("MOOD").unwrap(), &vec!["Grim"]);
    assert_eq!(db.tags_for_stem(Category::Music, "b").get("MOOD").unwrap(), &vec!["Dark"]);
    db.rename_tag_value(Category::Music, "mood", "Dark", "Bleak");
    assert_eq!(db.tags_for_stem(Category::Music, "b").get("MOOD").unwrap(), &vec!["Bleak"]);
}

#[test]
fn tags_follow_renamed_and_moved_sounds() {
    let mut db = open();
    sync(&mut db, vec![scan("a.flac", &[])]);
    db.add_tag(Category::Music, "a", "custom", "Favorite");
    db.rename_stem_tags(Category::Music, "a", "z");
    assert!(!db.tags_for_stem(Category::Music, "a").contains_key("custom"));
    assert_eq!(
        db.tags_for_stem(Category::Music, "z").get("custom").unwrap(),
        &vec!["Favorite"]
    );
    db.copy_stem_tags_between_categories(Category::Music, Category::Sfx, "z", "zap");
    assert_eq!(
        db.tags_for_stem(Category::Sfx, "zap").get("custom").unwrap(),
        &vec!["Favorite"]
    );
}

#[test]
fn folder_names_are_those_between_the_folder_and_the_file() {
    assert_eq!(folder_tag_values("/m", "/m/a/b/x.wav"), vec!["a", "b"]);
    assert_eq!(folder_tag_values("/m", "/m/x.wav"), Vec::<String>::new());
    assert_eq!(folder_tag_values("/m", "/other/a/x.wav"), Vec::<String>::new());
}

#[test]
fn variants_come_in_the_preferred_order() {
    let variant = |path: &str, extension: &str| FileVariant {
        path: path.to_string(),
        extension: extension.to_string(),
        size: 0,
        modified: 0,
        first_seen_at: 0,
        waveform: None,
    };
    let sorted = sort_variants(
        vec![variant("/a.ogg", "ogg"), variant("/a.mp3", "mp3"), variant("/a.flac", "flac")],
        &[AudioFormat::Flac, AudioFormat::Mp3],
    );
    let order: Vec<&str> = sorted.iter().map(|v| v.extension.as_str()).collect();
    assert_eq!(order, vec!["flac", "mp3", "ogg"]);
    assert_eq!(priority_index("MP3", &[AudioFormat::Flac, AudioFormat::Mp3]), 1);
}

#[test]
fn checked_filters_are_put_under_stored_keys() {
    let canonical = canonical_selected(&checked(&[("Genre", &["A", " "]), ("Use", &["b"])]));
    assert!(canonical.get("GENRE").unwrap().contains("A"));
    assert!(canonical.get("use").unwrap().contains("b"));
    assert!(!canonical.contains_key("Genre"));
}

#[test]
fn like_patterns_match_as_sqlite_does() {
    assert!(like_matches("it's me", &like_subsequence_pattern("its m")));
    assert!(!like_matches("mist", &like_subsequence_pattern("its m")));
    assert!(like_matches("100_percent", &like_subsequence_pattern("100_")));
    assert!(!like_matches("100xpercent", &like_subsequence_pattern("100_")));
    assert!(like_matches("a/b", &like_descendant_pattern("a")));
    assert!(!like_matches("ab", &like_descendant_pattern("a")));
}

#[test]
fn category_words_round_trip() {
    for category in [Category::Music, Category::Sfx] {
        assert_eq!(category_from_key(category_key(category)), Some(category));
    }
    assert_eq!(category_from_key("other"), None);
}

#[test]
fn opening_again_changes_nothing() {
    let mut db = open();
    sync(&mut db, vec![scan("a.flac", &[("GENRE", &["X"])])]);
    db.remove_tag_key(Category::Music, "MOOD");
    db.init(&vec![], &TextMap::new());
    assert_eq!(db.tag_keys(Category::Music), vec!["GENRE"]);
    assert_eq!(names(&all(&db)), vec!["a"]);
}

#[test]
fn the_files_statement_reads_one_category_in_order() {
    assert_eq!(
        file_rows_statement(Category::Sfx),
        "SELECT \"path\", \"stem\", \"extension\", \"size\", \"modified\", \"first_seen_at\", \
         \"preview_waveform\" FROM \"files\" WHERE \"category\" = 'sfx' \
         ORDER BY \"stem\" ASC, \"extension\" ASC"
    );
}

#[test]
fn every_file_is_shown_once_with_its_stem() {
    let mut db = open();
    sync(
        &mut db,
        vec![
            scan_path("/lib/a/hit.wav"),
            scan_path("/lib/b/hit.wav"),
            scan_path("/lib/a/hit.mp3"),
            scan_path("/lib/a/kick.flac"),
        ],
    );
    let rows = db.query_visible_rows(
        Category::Music,
        "",
        &TextMap::new(),
        &default_format_priority(),
        Some("/lib"),
    );
    assert_eq!(names(&rows), vec!["b/hit", "hit", "kick"]);
    let mut paths: Vec<&str> = rows
        .iter()
        .flat_map(|row| row.variants.iter().map(|variant| variant.path.as_str()))
        .collect();
    paths.sort();
    assert_eq!(
        paths,
        vec!["/lib/a/hit.mp3", "/lib/a/hit.wav", "/lib/a/kick.flac", "/lib/b/hit.wav"]
    );
    assert_eq!(extensions(&rows[1]), vec!["mp3", "wav"]);
}

#[test]
fn a_search_loses_no_sound_that_matches() {
    let mut db = open();
    sync(
        &mut db,
        vec![
            scan("Rain Drops.wav", &[("GENRE", &["Ambient"])]),
            scan("thunder.flac", &[("MOOD", &["dark/heavy"])]),
            scan("door.mp3", &[]),
        ],
    );
    for (search, expected) in [
        ("RD", vec!["Rain Drops"]),
        ("flac", vec!["thunder"]),
        ("amb", vec!["Rain Drops"]),
        ("heavy", vec!["thunder"]),
        ("dr", vec!["door", "Rain Drops", "thunder"]),
    ] {
        let mut expected = expected;
        let found = visible(&db, search, &TextMap::new());
        let mut found = names(&found);
        expected.sort();
        found.sort();
        assert_eq!(found, expected, "{search}");
    }
    assert_eq!(names(&visible(&db, "", &checked(&[("mood", &["dark"])]))), vec!["thunder"]);
}

#[test]
fn assigning_folder_names_again_adds_nothing() {
    let mut db = open();
    sync(&mut db, vec![scan_path("/lib/Rain/a.wav"), scan_path("/lib/Wind/b.wav")]);
    let assignments =
        vec![assignment("Rain", "Weather", true), assignment("Wind", "WEATHER", true)];
    assert_eq!(db.assign_folder_tags(Category::Music, "/lib", &assignments), 2);
    assert_eq!(db.assign_folder_tags(Category::Music, "/lib", &assignments), 0);
    assert!(db.tag_keys(Category::Music).contains(&"weather".to_string()));
}

#[test]
fn renaming_to_a_subtag_replaces_the_values_beside_it() {
    let mut db = open();
    sync(&mut db, vec![scan("a.wav", &[]), scan("b.wav", &[])]);
    db.add_tag(Category::Music, "a", "mood", "calm");
    db.add_tag(Category::Music, "a", "mood", "dark/heavy");
    db.add_tag(Category::Music, "b", "mood", "dark/slow");
    db.rename_tag_value(Category::Music, "mood", "calm", "dark/slow");
    let rows = all(&db);
    assert_eq!(rows[0].tags.get("MOOD").unwrap(), &vec!["dark/slow"]);
    assert_eq!(rows[1].tags.get("MOOD").unwrap(), &vec!["dark/slow"]);
}

#[test]
fn dots_come_before_names_where_paths_are_ordered() {
    let variant = |path: &str| FileVariant {
        path: path.to_string(),
        extension: "flac".to_string(),
        size: 0,
        modified: 0,
        first_seen_at: 0,
        waveform: None,
    };
    let paths = ["a.flac", "!x/a.flac", "../a.flac", "./a.flac", "/a.flac", "../!x/a.flac"];
    let sorted = sort_variants(paths.iter().map(|path| variant(path)).collect(), &[]);
    let order: Vec<&str> = sorted.iter().map(|v| v.path.as_str()).collect();
    assert_eq!(
        order,
        vec!["/a.flac", "./a.flac", "../!x/a.flac", "../a.flac", "!x/a.flac", "a.flac"]
    );
    let mut by_std: Vec<&std::path::Path> = paths.iter().map(std::path::Path::new).collect();
    by_std.sort();
    assert_eq!(by_std, order.iter().map(std::path::Path::new).collect::<Vec<_>>());
}

#[test]
fn the_earlier_of_two_files_seen_at_once_keeps_its_name() {
    let mut db = Database::new();
    for path in ["!x/a.flac", "../a.flac"] {
        db.files.insert(
            path.to_string(),
            StoredFile {
                category: Category::Music,
                stem: "a".to_string(),
                extension: "flac".to_string(),
                size: 1,
                modified: 1,
                first_seen_at: 5,
                preview_waveform: None,
                search_text: "a flac music".to_string(),
            },
        );
    }
    let rows = db.query_visible_rows(
        Category::Music,
        "",
        &TextMap::new(),
        &default_format_priority(),
        Some(""),
    );
    assert_eq!(names(&rows), vec!["!x/a", "a"]);
    assert_eq!(rows[1].path, "../a.flac");
}

#[test]
fn folder_names_become_tags_of_files_below_the_folder_alone() {
    let mut db = open();
    sync(
        &mut db,
        vec![
            scan_path("/lib/Rain/a.wav"),
            scan_path("/lib/Wind/b.wav"),
            scan_path("/lib/c.wav"),
        ],
    );
    db.add_tag(Category::Music, "c", "mood", "calm");
    let assignments = vec![
        assignment("Rain", "\u{c4}ther", true),
        assignment("Rain", "\u{e4}THER", true),
        assignment("Wind", "\u{c4}ther", false),
    ];
    assert_eq!(db.assign_folder_tags(Category::Music, "/lib", &assignments), 1);
    assert_eq!(db.assign_folder_tags(Category::Music, "/lib", &assignments), 0);
    let rows = all(&db);
    assert_eq!(rows[0].tags.get("\u{e4}ther").unwrap(), &vec!["Rain"]);
    assert_eq!(rows[1].tags.len(), 0);
    assert_eq!(rows[2].tags.len(), 1);
    assert_eq!(rows[2].tags.get("MOOD").unwrap(), &vec!["calm"]);
}
