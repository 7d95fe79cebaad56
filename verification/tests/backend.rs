use lowcat::backend::conversion::{
    audio_probe_args, duration_probe_args, ffmpeg_args, next_conversion_stage, next_import_stage,
    parse_ffmpeg_progress, plan_conversion, plan_import, probe_is_audio, stage_action,
    unique_destination, ConversionFacts, FileAction, FileError, FileStage, ImportFacts,
};
use lowcat::backend::scanner::{
    collect_vorbis_tags, extension, file_stem, is_library_file, read_tags, CategoryScan, Comment,
    FileVisit,
};
use lowcat::backend::{
    holds_path, plan_renames, same_path, trash_paths, valid_file_stem, Backend, FolderScan,
    RenameRecord,
};
use lowcat::db::Database;
use lowcat::model::{AudioFormat, Category, ConvertConflictBehavior, FileRecord};
use lowcat::text_map::{TextMap, TextSet};

/// A FLAC file with nothing in it but comments.
fn flac(comments: &[(&str, &str)]) -> Vec<u8> {
    let mut bytes = b"fLaC".to_vec();
    bytes.extend([0, 0, 0, 34]);
    bytes.extend([16, 0, 16, 0, 0, 0, 0, 0, 0, 0]);
    bytes.extend([0x0b, 0xb8, 0x02, 0xf0, 0, 0, 0, 0]);
    bytes.extend([0u8; 16]);
    let block = comment_block(comments);
    bytes.push(0x84);
    bytes.extend(&(block.len() as u32).to_be_bytes()[1..]);
    bytes.extend(block);
    bytes
}

/// An Opus file with nothing in it but comments.
fn opus(comments: &[(&str, &str)]) -> Vec<u8> {
    let mut head = b"OpusHead".to_vec();
    head.extend([1, 1, 0, 0]);
    head.extend(48000u32.to_le_bytes());
    head.extend([0, 0, 0]);
    let mut tags = b"OpusTags".to_vec();
    tags.extend(comment_block(comments));
    let mut bytes = page(2, 0, &head);
    bytes.extend(page(4, 1, &tags));
    bytes
}

fn page(flags: u8, number: u32, packet: &[u8]) -> Vec<u8> {
    assert!(packet.len() < 255);
    let mut bytes = b"OggS".to_vec();
    bytes.extend([0, flags]);
    bytes.extend(0u64.to_le_bytes());
    bytes.extend(7u32.to_le_bytes());
    bytes.extend(number.to_le_bytes());
    bytes.extend(0u32.to_le_bytes());
    bytes.extend([1, packet.len() as u8]);
    bytes.extend(packet);
    bytes
}

fn comment_block(comments: &[(&str, &str)]) -> Vec<u8> {
    let mut bytes = 4u32.to_le_bytes().to_vec();
    bytes.extend(b"test");
    bytes.extend((comments.len() as u32).to_le_bytes());
    for (name, value) in comments {
        let text = format!("{name}={value}");
        bytes.extend((text.len() as u32).to_le_bytes());
        bytes.extend(text.as_bytes());
    }
    bytes
}

fn backend() -> Backend {
    let mut db = Database::new();
    db.init(&vec![], &TextMap::new());
    Backend::new(db)
}

/// What a scan of a folder with these files finds.
fn scan_of(backend: &Backend, category: Category, files: &[(&str, Vec<u8>)]) -> FolderScan {
    let known = backend.db.file_fingerprints(category);
    let mut scan = CategoryScan::new();
    scan.visit_dir();
    for (path, bytes) in files {
        let size = bytes.len() as u64;
        let visit = scan.visit_file(&known, path, Some((size, 1)));
        scan.read_scan_record_cached(visit, category, path.to_string(), (size, 1), Some(bytes));
    }
    FolderScan { folder_is_dir: true, records: scan.records, now: 1000 }
}

fn set_folder(backend: &mut Backend, category: Category, files: &[(&str, Vec<u8>)]) {
    let scan = scan_of(backend, category, files);
    backend.set_category_folder(category, "/lib".to_string(), scan);
}

fn refresh(backend: &mut Backend, category: Category, files: &[(&str, Vec<u8>)]) {
    let scan = scan_of(backend, category, files);
    backend.refresh_category(category, scan);
}

fn records(backend: &Backend, category: Category) -> Vec<FileRecord> {
    backend.filter(category, "", &TextMap::new())
}

fn names(records: &[FileRecord]) -> Vec<&str> {
    records.iter().map(|record| record.name.as_str()).collect()
}

fn values<'a>(record: &'a FileRecord, key: &str) -> Vec<&'a str> {
    match record.tags.get(key) {
        Some(values) => values.iter().map(|value| value.as_str()).collect(),
        None => vec![],
    }
}

fn raw() -> Vec<u8> {
    b"not actually audio".to_vec()
}

#[test]
fn scans_supported_audio_recursively_and_groups_variants() {
    let mut backend = backend();
    set_folder(
        &mut backend,
        Category::Music,
        &[
            ("/lib/top.opus", opus(&[])),
            ("/lib/top.flac", flac(&[])),
            ("/lib/top.mp3", raw()),
            ("/lib/clip.wav", raw()),
            ("/lib/skip.wav", raw()),
            ("/lib/notes.txt", raw()),
            ("/lib/nested/nested.flac", flac(&[])),
        ],
    );

    let records = records(&backend, Category::Music);
    assert_eq!(names(&records), vec!["clip", "nested", "skip", "top"]);
    let extensions: Vec<&str> =
        records[3].variants.iter().map(|variant| variant.extension.as_str()).collect();
    assert_eq!(extensions, vec!["mp3", "opus", "flac"]);
}

#[test]
fn preserves_tags_when_file_moves_within_category_folder() {
    let mut backend = backend();
    set_folder(&mut backend, Category::Sfx, &[("/lib/song.flac", flac(&[]))]);
    backend.add_tag(Category::Sfx, "/lib/song.flac", "Type", "Foley");
    refresh(&mut backend, Category::Sfx, &[("/lib/nested/song.flac", flac(&[]))]);

    let records = records(&backend, Category::Sfx);
    assert_eq!(records.len(), 1);
    assert_eq!(records[0].path, "/lib/nested/song.flac");
    assert_eq!(values(&records[0], "TYPE"), vec!["Foley"]);
}

#[test]
fn rename_records_moves_variants_and_preserves_tags() {
    let mut backend = backend();
    set_folder(
        &mut backend,
        Category::Music,
        &[("/lib/song.wav", raw()), ("/lib/song.mp3", raw())],
    );
    backend.add_tag(Category::Music, "/lib/song.wav", "Genre", "Ambient");

    let renamed = vec![RenameRecord {
        stem: "song".to_string(),
        paths: vec!["/lib/song.wav".to_string(), "/lib/song.mp3".to_string()],
    }];
    let existing = vec!["/lib/song.wav".to_string(), "/lib/song.mp3".to_string()];
    let renames = plan_renames(&renamed, "renamed", &existing).unwrap();
    let moved: Vec<(&str, &str)> = renames
        .iter()
        .map(|rename| (rename.source.as_str(), rename.destination.as_str()))
        .collect();
    assert_eq!(
        moved,
        vec![
            ("/lib/song.wav", "/lib/renamed.wav"),
            ("/lib/song.mp3", "/lib/renamed.mp3")
        ]
    );
    let scan = scan_of(
        &backend,
        Category::Music,
        &[("/lib/renamed.wav", raw()), ("/lib/renamed.mp3", raw())],
    );
    backend.rename_records(Category::Music, &renamed, "renamed", scan);

    let records = records(&backend, Category::Music);
    assert_eq!(names(&records), vec!["renamed"]);
    assert_eq!(values(&records[0], "GENRE"), vec!["Ambient"]);
}

#[test]
fn rename_tag_value_updates_all_matching_stems() {
    let mut backend = backend();
    let files = [("/lib/first.wav", raw()), ("/lib/second.wav", raw())];
    set_folder(&mut backend, Category::Music, &files);
    backend.add_tag(Category::Music, "/lib/first.wav", "Genre", "Ambient");
    backend.add_tag(Category::Music, "/lib/second.wav", "Genre", "Ambient");

    let scan = scan_of(&backend, Category::Music, &files);
    backend.rename_tag_value(Category::Music, "Genre", "Ambient", "Drone", scan);

    let records = records(&backend, Category::Music);
    assert_eq!(values(&records[0], "GENRE"), vec!["Drone"]);
    assert_eq!(values(&records[1], "GENRE"), vec!["Drone"]);
}

#[test]
fn refresh_indexes_matching_extensions_without_probe() {
    let mut backend = backend();
    set_folder(&mut backend, Category::Music, &[("/lib/renamed.wav", raw())]);
    assert_eq!(names(&records(&backend, Category::Music)), vec!["renamed"]);
}

#[test]
fn unchanged_refresh_preserves_existing_tags_without_rereading_file_tags() {
    let mut backend = backend();
    let files = [("/lib/song.flac", flac(&[("genre", "Embedded")]))];
    set_folder(&mut backend, Category::Music, &files);
    assert_eq!(values(&records(&backend, Category::Music)[0], "GENRE"), vec!["Embedded"]);
    backend.remove_tag(Category::Music, "/lib/song.flac", "genre", "Embedded");
    backend.add_tag(Category::Music, "/lib/song.flac", "genre", "Manual");

    refresh(&mut backend, Category::Music, &files);

    assert_eq!(values(&records(&backend, Category::Music)[0], "GENRE"), vec!["Manual"]);
}

#[test]
fn unparsable_matching_extension_is_indexed_without_tags() {
    let mut backend = backend();
    set_folder(
        &mut backend,
        Category::Music,
        &[
            ("/lib/renamed.opus", b"not actually ogg opus".to_vec()),
            ("/lib/valid.flac", flac(&[("GENRE", "Ambient")])),
        ],
    );
    assert!(read_tags(Category::Music, "/lib/renamed.opus", b"not actually ogg opus").is_none());

    let records = records(&backend, Category::Music);
    assert_eq!(names(&records), vec!["renamed", "valid"]);
    assert!(!records[0].tags.contains_key("GENRE"));
    assert_eq!(values(&records[1], "GENRE"), vec!["Ambient"]);
}

#[test]
fn a_cut_off_flac_file_has_no_tags() {
    let mut whole = b"fLaC".to_vec();
    whole.extend([0, 0, 0, 34]);
    whole.extend([16, 0, 16, 0, 0, 0, 0, 0, 0, 0]);
    whole.extend([0x0b, 0xb8, 0x02, 0xf0, 0, 0, 0, 0]);
    whole.extend([0u8; 16]);
    let block = comment_block(&[("GENRE", "Ambient")]);
    whole.push(4);
    whole.extend(&(block.len() as u32).to_be_bytes()[1..]);
    whole.extend(block);
    whole.extend([0x81, 0, 0, 8]);
    whole.extend([0u8; 8]);
    let tags = read_tags(Category::Music, "/lib/a.flac", &whole).unwrap();
    assert_eq!(tags.get("GENRE").unwrap(), &vec!["Ambient"]);

    let cut = &whole[..whole.len() - 4];
    assert!(read_tags(Category::Music, "/lib/a.flac", cut).is_none());

    let mut short = b"fLaC".to_vec();
    short.extend([0, 0, 0, 18]);
    short.extend(&whole[8..26]);
    short.extend(&whole[42..]);
    assert!(read_tags(Category::Music, "/lib/a.flac", &short).is_none());
}

#[test]
fn an_opus_file_with_a_bad_head_has_no_tags() {
    let file = |channels: u8, family: u8, len: usize| {
        let mut head = b"OpusHead".to_vec();
        head.extend([1, channels, 0, 0]);
        head.extend(48000u32.to_le_bytes());
        head.extend([0, 0, family]);
        head.truncate(len);
        let mut tags = b"OpusTags".to_vec();
        tags.extend(comment_block(&[("GENRE", "Ambient")]));
        let mut bytes = page(2, 0, &head);
        bytes.extend(page(4, 1, &tags));
        bytes
    };
    let tags = |bytes: &[u8]| read_tags(Category::Music, "/lib/a.opus", bytes);
    for (channels, family) in [(1, 0), (2, 0), (3, 1), (8, 1), (8, 255)] {
        assert!(tags(&file(channels, family, 19)).unwrap().contains_key("GENRE"));
    }
    for (channels, family) in [(3, 0), (255, 0), (9, 1)] {
        assert!(tags(&file(channels, family, 19)).is_none());
    }
    assert!(tags(&file(1, 0, 18)).is_none());
    assert!(tags(&file(1, 0, 8)).is_none());
    assert!(tags(&file(1, 0, 19)[..40]).is_none());
    assert!(tags(b"OggS").is_none());
}

/// An ID3v2 tag with one frame.
fn id3v2(frame: &[u8; 4], content: &[u8]) -> Vec<u8> {
    let mut bytes = b"ID3".to_vec();
    bytes.extend([4, 0, 0, 0, 0, 0, content.len() as u8 + 10]);
    bytes.extend(frame);
    bytes.extend([0, 0, 0, content.len() as u8, 0, 0]);
    bytes.extend(content);
    bytes
}

#[test]
fn pictures_are_read_along_where_that_can_be_done() {
    let tags = |bytes: &[u8]| read_tags(Category::Music, "/lib/a.flac", bytes);
    let ambient = [("GENRE", "Ambient")];
    let mut good = id3v2(b"APIC", b"\0image/png\0\x03\0\x89PNG");
    good.extend(flac(&ambient));
    assert!(tags(&good).unwrap().contains_key("GENRE"));
    let mut bad = id3v2(b"APIC", b"\xff");
    bad.extend(flac(&ambient));
    assert!(tags(&bad).is_none());

    for value in ["", "AAAA", "AAAAAAAA", "AAAAAAAAAA==", "AA==AA==AA==AA==AA==AA==AA=="] {
        let comments = [("GENRE", "Ambient"), ("CoverArt", value)];
        assert!(tags(&flac(&comments)).unwrap().contains_key("GENRE"), "{value}");
        let found = read_tags(Category::Music, "/lib/a.opus", &opus(&comments));
        assert!(found.unwrap().contains_key("GENRE"), "{value}");
    }
    let long = "A".repeat(32);
    for value in ["AAA", "A", "!!!!", long.as_str()] {
        let comments = [("COVERART", value), ("GENRE", "Ambient")];
        assert!(tags(&flac(&comments)).unwrap().contains_key("GENRE"), "{value}");
    }
}

#[test]
fn missing_or_unset_folders_return_empty_results() {
    let mut backend = backend();
    let found = scan_of(&backend, Category::Music, &[("/lib/a.wav", raw())]);
    backend.refresh_category(Category::Music, found);
    assert!(records(&backend, Category::Music).is_empty());

    let mut found = scan_of(&backend, Category::Music, &[("/lib/a.wav", raw())]);
    found.folder_is_dir = false;
    backend.set_category_folder(Category::Music, "/lib/nope".to_string(), found);
    assert!(records(&backend, Category::Music).is_empty());
}

#[test]
fn records_sort_by_grouped_display_name() {
    let mut backend = backend();
    set_folder(
        &mut backend,
        Category::Music,
        &[
            ("/lib/zeta.flac", flac(&[])),
            ("/lib/alpha.flac", flac(&[])),
            ("/lib/Beta.opus", opus(&[])),
            ("/lib/omega.wav", raw()),
            ("/lib/delta.wav", raw()),
        ],
    );
    assert_eq!(
        names(&records(&backend, Category::Music)),
        vec!["alpha", "Beta", "delta", "omega", "zeta"]
    );
}

#[test]
fn reads_vorbis_comments_case_insensitively_into_canonical_keys() {
    let mut backend = backend();
    let comments = [
        ("genre", "Ambient"),
        ("MoOd", "Calm"),
        ("TYPE", "Ignored"),
        ("Shitpost", "Yes"),
    ];
    set_folder(
        &mut backend,
        Category::Music,
        &[("/lib/a.flac", flac(&comments)), ("/lib/b.opus", opus(&comments))],
    );
    for record in records(&backend, Category::Music) {
        assert_eq!(values(&record, "GENRE"), vec!["Ambient"]);
        assert_eq!(values(&record, "MOOD"), vec!["Calm"]);
        assert!(!record.tags.contains_key("shitpost"));
        assert!(!record.tags.contains_key("TYPE"));
    }
}

#[test]
fn schemas_are_fixed_and_values_sorted() {
    let mut backend = backend();
    set_folder(
        &mut backend,
        Category::Music,
        &[
            ("/lib/one.flac", flac(&[("genre", "Rock")])),
            ("/lib/two.flac", flac(&[("genre", "Ambient")])),
        ],
    );
    let schema = backend.schema_for(Category::Music);
    assert_eq!(schema.get("GENRE").unwrap(), &vec!["Ambient", "Rock"]);
    assert_eq!(schema.get("MOOD").unwrap(), &Vec::<String>::new());
    let sfx = backend.schema_for(Category::Sfx);
    assert_eq!(sfx.len(), 1);
    assert_eq!(sfx.key_at(0), "TYPE");
}

#[test]
fn filtering_uses_existing_record_match_behavior() {
    let mut backend = backend();
    set_folder(
        &mut backend,
        Category::Music,
        &[
            ("/lib/dark.flac", flac(&[("GENRE", "Electronic"), ("MOOD", "Dark")])),
            ("/lib/bright.flac", flac(&[("GENRE", "Electronic"), ("MOOD", "Bright")])),
        ],
    );
    let mut set = TextSet::new();
    set.insert("Electronic".to_string());
    let mut selected: TextMap<TextSet> = TextMap::new();
    selected.insert("Genre".to_string(), set);
    assert_eq!(names(&backend.filter(Category::Music, "dark", &selected)), vec!["dark"]);
}

#[test]
fn tag_edits_are_persisted_in_sqlite() {
    let mut backend = backend();
    set_folder(&mut backend, Category::Sfx, &[("/lib/hit.flac", flac(&[("type", "Impact")]))]);
    backend.add_tag(Category::Sfx, "/lib/hit.flac", "Type", "Foley");
    backend.remove_tag(Category::Sfx, "/lib/hit.flac", "type", "Impact");
    assert_eq!(values(&records(&backend, Category::Sfx)[0], "TYPE"), vec!["Foley"]);
}

fn taken(paths: &[&str]) -> TextSet {
    let mut set = TextSet::new();
    for path in paths {
        set.insert(path.to_string());
    }
    set
}

fn facts() -> ImportFacts {
    ImportFacts { folder_is_dir: true, source_is_file: true, is_audio: true }
}

#[test]
fn import_without_folder_fails_cleanly() {
    let facts = ImportFacts { folder_is_dir: false, ..facts() };
    let error = plan_import(facts, "/nope", "/src/song.flac", &taken(&[]), 1, 2).unwrap_err();
    assert_eq!(error.message(), "category folder does not exist");
}

#[test]
fn import_supported_formats_without_conversion() {
    let plan = plan_import(facts(), "/lib", "/src/track.wav", &taken(&[]), 1, 2).unwrap();
    assert_eq!(plan.final_path, "/lib/track.wav");
    assert_eq!(plan.temp_path, "/lib/.lowcat-import-1-2.wav");
    assert_eq!(plan.source, "/src/track.wav");
}

#[test]
fn import_rejects_unsupported_audio_without_conversion() {
    let error = plan_import(facts(), "/lib", "/src/clip.ogg", &taken(&[]), 1, 2).unwrap_err();
    assert!(matches!(error, FileError::UnsupportedFormat));
}

#[test]
fn import_rejects_non_audio() {
    let facts = ImportFacts { is_audio: false, ..facts() };
    let error = plan_import(facts, "/lib", "/src/notes.txt", &taken(&[]), 1, 2).unwrap_err();
    assert!(matches!(error, FileError::NotAudio));
}

#[test]
fn import_uses_conflict_names_and_never_overwrites() {
    let first = plan_import(facts(), "/lib", "/src/song.flac", &taken(&["/lib/song.flac"]), 1, 2);
    assert_eq!(first.unwrap().final_path, "/lib/song 2.flac");
    let existing = taken(&["/lib/song.flac", "/lib/song 2.flac"]);
    let second = plan_import(facts(), "/lib", "/src/song.flac", &existing, 1, 3);
    assert_eq!(second.unwrap().final_path, "/lib/song 3.flac");
}

#[test]
fn explicit_conversion_writes_requested_target() {
    let plan = plan_conversion(
        true,
        true,
        "/lib/voice.wav",
        "/lib",
        AudioFormat::Opus,
        ConvertConflictBehavior::AddCopy,
        &taken(&["/lib/voice.wav"]),
        1,
        2,
    )
    .unwrap();
    assert_eq!(plan.final_path, "/lib/voice.opus");
    let facts = ConversionFacts {
        behavior: ConvertConflictBehavior::AddCopy,
        final_exists: false,
        source_is_final: false,
    };
    let mut stage = FileStage::Writing;
    let mut actions = vec![];
    while let Some(action) = stage_action(stage) {
        actions.push(action);
        stage = next_conversion_stage(facts, stage, true);
    }
    assert_eq!(stage, FileStage::Done);
    assert_eq!(
        actions,
        vec![FileAction::Write, FileAction::CheckWritten, FileAction::RenameToFinal]
    );
}

#[test]
fn overwrite_conversion_replaces_source_format() {
    let facts = ConversionFacts {
        behavior: ConvertConflictBehavior::Overwrite,
        final_exists: true,
        source_is_final: false,
    };
    let mut stage = FileStage::Writing;
    let mut actions = vec![];
    while let Some(action) = stage_action(stage) {
        actions.push(action);
        stage = next_conversion_stage(facts, stage, true);
    }
    assert_eq!(stage, FileStage::Done);
    assert_eq!(
        actions,
        vec![
            FileAction::Write,
            FileAction::CheckWritten,
            FileAction::RemoveFinal,
            FileAction::RenameToFinal,
            FileAction::RemoveSource
        ]
    );
}

#[test]
fn failed_imports_keep_the_source() {
    for failing in 0..3 {
        let mut stage = FileStage::Writing;
        let mut done = 0;
        let mut removed = false;
        while let Some(action) = stage_action(stage) {
            removed = removed || action == FileAction::RemoveSource;
            stage = next_import_stage(stage, done != failing);
            done += 1;
        }
        assert_eq!(stage, FileStage::Failed);
        assert!(!removed);
    }
}

#[test]
fn conversion_errors_say_what_is_wrong() {
    let plan = |is_file: bool, is_audio: bool| {
        plan_conversion(
            is_file,
            is_audio,
            "/lib/a.wav",
            "/lib",
            AudioFormat::Mp3,
            ConvertConflictBehavior::Overwrite,
            &taken(&[]),
            1,
            2,
        )
    };
    assert!(matches!(plan(false, true), Err(FileError::SourceNotFile)));
    assert!(matches!(plan(true, false), Err(FileError::NotAudio)));
    assert_eq!(plan(true, true).unwrap().final_path, "/lib/a.mp3");
    assert_eq!(FileError::ConversionFailed.message(), "ffmpeg conversion failed");
    assert_eq!(FileError::NoDestinationFile.message(), "import produced no destination file");
}

#[test]
fn the_first_free_name_is_taken() {
    assert_eq!(unique_destination("/lib", "a", "wav", &taken(&[])), "/lib/a.wav");
    let existing = taken(&["/lib/a.wav", "/lib/a 3.wav"]);
    assert_eq!(unique_destination("/lib", "a", "wav", &existing), "/lib/a 2.wav");
}

#[test]
fn the_converter_is_told_the_codec() {
    let args = ffmpeg_args("/a.wav", AudioFormat::Opus, "/b.opus");
    assert!(args.contains(&"/a.wav".to_string()));
    assert_eq!(args.last().unwrap(), "/b.opus");
    assert_eq!(parse_ffmpeg_progress("out_time_ms=1500000"), Some("1500000"));
    assert_eq!(parse_ffmpeg_progress("speed=1x"), None);
    assert_eq!(audio_probe_args("/a.wav")[5], "stream=codec_name");
    assert_eq!(duration_probe_args("/a.wav")[6], "/a.wav");
    assert!(probe_is_audio(true, b"opus"));
    assert!(!probe_is_audio(true, b""));
    assert!(!probe_is_audio(false, b"opus"));
}

fn rename_error(paths: &[&str], stem: &str, existing: &[&str]) -> FileError {
    let record = RenameRecord {
        stem: "song".to_string(),
        paths: paths.iter().map(|path| path.to_string()).collect(),
    };
    let existing: Vec<String> = existing.iter().map(|path| path.to_string()).collect();
    plan_renames(&vec![record], stem, &existing).unwrap_err()
}

#[test]
fn renames_that_clash_are_rejected() {
    assert_eq!(rename_error(&["/l/a.wav"], "  ", &[]).message(), "new name cannot be empty");
    assert_eq!(
        rename_error(&["/l/a.wav"], "x/y", &[]).message(),
        "new name cannot contain path separators"
    );
    assert_eq!(rename_error(&["/l/a"], "x", &[]).message(), "file has no extension");
    assert_eq!(
        rename_error(&["/l/a.wav", "/l/b.wav"], "x", &[]).message(),
        "rename would create duplicate /l/x.wav"
    );
    assert_eq!(
        rename_error(&["/l/a.wav"], "x", &["/l/x.wav"]).message(),
        "/l/x.wav already exists"
    );
    assert_eq!(valid_file_stem(" ok ").unwrap(), "ok");
}

#[test]
fn paths_count_by_their_parts() {
    assert!(same_path("/a//b/./c.wav", "/a/b/c.wav"));
    assert!(!same_path("a/b", "/a/b"));
    assert!(holds_path(&vec!["/x/".to_string()], "/x"));
    assert_eq!(
        trash_paths(vec!["/a".to_string(), "/b".to_string(), "/a/".to_string()]),
        vec!["/a", "/b"]
    );
}

#[test]
fn comments_become_tags_of_the_category() {
    let comment = |name: &str, value: &str| Comment {
        name: name.to_string(),
        value: value.to_string(),
    };
    let comments = vec![
        comment("GENRE", "A"),
        comment("genre", "B"),
        comment("Genre", "A"),
        comment("TYPE", "C"),
    ];
    let tags = collect_vorbis_tags(Category::Music, &comments);
    assert_eq!(tags.get("GENRE").unwrap(), &vec!["A", "B"]);
    assert!(!tags.contains_key("TYPE"));
    assert_eq!(read_tags(Category::Music, "/a.wav", b"").unwrap().len(), 0);
    assert_eq!(read_tags(Category::Music, "/a.flac", &flac(&[])).unwrap().len(), 0);
}

#[test]
fn library_files_are_told_by_their_extension() {
    assert!(is_library_file("/a/B.FLAC"));
    assert!(!is_library_file("/a/b.ogg"));
    assert_eq!(extension("/a/B.FLAC"), Some("flac".to_string()));
    assert_eq!(file_stem("/a/b.c.mp3"), "b.c");
}

#[test]
fn every_file_of_a_scan_is_counted_once() {
    let mut known: TextMap<(u64, i64)> = TextMap::new();
    known.insert("/lib/a.wav".to_string(), (3, 1));
    let mut scan = CategoryScan::new();
    assert_eq!(scan.visit_file(&known, "/lib/a.wav", Some((3, 1))), FileVisit::Reuse);
    assert_eq!(scan.visit_file(&known, "/lib/a.wav", Some((4, 1))), FileVisit::ReadTags);
    assert_eq!(scan.visit_file(&known, "/lib/a.wav", None), FileVisit::LeaveOut);
    assert_eq!(scan.visit_file(&known, "/lib/a.txt", Some((4, 1))), FileVisit::Skip);
    assert_eq!(scan.files_seen, 4);
    assert_eq!((scan.reused_seen, scan.tags_read, scan.skipped_seen), (1, 1, 1));
}

#[test]
fn files_that_cannot_be_opened_bring_no_tags() {
    let known: TextMap<(u64, i64)> = TextMap::new();
    let mut scan = CategoryScan::new();
    for path in ["/lib/a.opus", "/lib/b.txt"] {
        let visit = scan.visit_file(&known, path, Some((4, 1)));
        scan.read_scan_record_cached(visit, Category::Music, path.to_string(), (4, 1), None);
    }
    assert_eq!(scan.records.len(), 1);
    assert_eq!(scan.records[0].path, "/lib/a.opus");
    assert_eq!(scan.records[0].stem, "a");
    assert_eq!(scan.records[0].extension, "opus");
    assert!(scan.records[0].tags.is_empty());
}
