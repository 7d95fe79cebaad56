use lowcat::model::{
    canonical_tag_key, default_format_priority, fuzzy_search_match, normalize_format_priority,
    normalize_tag_key, normalize_tag_value, record_matches, record_matches_scoped,
    record_search_sort_key_scoped, split_subtag, supported_audio_extension, tag_label,
    tag_value_matches_filter, AudioFormat, Category, ConvertConflictBehavior, FileRecord,
    FileSupport, FileVariant,
};
use lowcat::text_map::{TextMap, TextSet};

fn rec(name: &str, tags: &[(&str, &[&str])]) -> FileRecord {
    let mut map: TextMap<Vec<String>> = TextMap::new();
    for (key, values) in tags {
        map.insert(key.to_string(), values.iter().map(|v| v.to_string()).collect());
    }
    FileRecord {
        name: name.to_string(),
        path: name.to_string(),
        support: FileSupport::Native,
        stem: name.rsplit_once('.').map(|(stem, _)| stem).unwrap_or(name).to_string(),
        variants: vec![FileVariant {
            path: name.to_string(),
            extension: name
                .rsplit_once('.')
                .map(|(_, extension)| extension.to_string())
                .unwrap_or_default(),
            size: 0,
            modified: 0,
            first_seen_at: 0,
            waveform: None,
        }],
        tags: map,
    }
}

fn sel(pairs: &[(&str, &[&str])]) -> TextMap<TextSet> {
    let mut map: TextMap<TextSet> = TextMap::new();
    for (key, values) in pairs {
        let mut set = TextSet::new();
        for value in values.iter() {
            set.insert(value.to_string());
        }
        map.insert(key.to_string(), set);
    }
    map
}

#[test]
fn empty_filters_match_everything() {
    let r = rec("song.ogg", &[("Genre", &["Electronic"])]);
    assert!(record_matches(&r, "", &TextMap::new()));
}

#[test]
fn search_is_case_insensitive_fuzzy_match() {
    let r = rec("Pulse_Drive.ogg", &[]);
    assert!(record_matches(&r, "drive", &TextMap::new()));
    assert!(record_matches(&r, "PULSE", &TextMap::new()));
    assert!(record_matches(&r, "psdv", &TextMap::new()));
    assert!(!record_matches(&r, "ambient", &TextMap::new()));
    assert!(!record_matches(&r, "drive pulse", &TextMap::new()));
}

#[test]
fn fuzzy_search_skips_unqueried_punctuation() {
    let r = rec("it's me.wav", &[]);
    assert!(record_matches(&r, "its m", &TextMap::new()));
}

#[test]
fn search_matches_tag_keys_and_values() {
    let r = rec("pulse.flac", &[("Genre", &["Ambient"])]);
    assert!(record_matches(&r, "genre", &TextMap::new()));
    assert!(record_matches(&r, "ambient", &TextMap::new()));
}

#[test]
fn all_checked_values_within_a_key_must_be_present() {
    let r = rec("a.ogg", &[("Mood", &["Dark", "Tense"])]);
    assert!(record_matches(&r, "", &sel(&[("Mood", &["Dark"])])));
    assert!(record_matches(&r, "", &sel(&[("Mood", &["Dark", "Tense"])])));
    assert!(!record_matches(&r, "", &sel(&[("Mood", &["Dark", "Uplifting"])])));
}

#[test]
fn checked_values_across_keys_are_anded() {
    let r = rec("a.ogg", &[("Genre", &["Electronic"]), ("Mood", &["Dark"])]);
    assert!(record_matches(
        &r,
        "",
        &sel(&[("Genre", &["Electronic"]), ("Mood", &["Dark"])])
    ));
    assert!(!record_matches(
        &r,
        "",
        &sel(&[("Genre", &["Electronic"]), ("Mood", &["Tense"])])
    ));
}

#[test]
fn missing_key_fails_when_that_key_is_filtered() {
    let r = rec("a.ogg", &[("Genre", &["Electronic"])]);
    assert!(!record_matches(&r, "", &sel(&[("Mood", &["Dark"])])));
}

#[test]
fn parent_filters_let_subtags_through() {
    let r = rec("a.ogg", &[("use", &["shitpost/comedy"])]);
    assert!(!record_matches(&r, "", &sel(&[("use", &["shitpost"])])));
    assert!(record_matches_scoped(&r, "", &sel(&[("use", &["shitpost"])]), true));
    assert!(record_matches_scoped(&r, "", &sel(&[("use", &["shitpost/comedy"])]), true));
    assert!(!record_matches_scoped(&r, "", &sel(&[("use", &["shit"])]), true));
}

#[test]
fn tags_count_only_where_they_are_searched() {
    let r = rec("beat.flac", &[("genre", &["Ambient"])]);
    assert!(record_matches_scoped(&r, "ambient", &TextMap::new(), true));
    assert!(!record_matches_scoped(&r, "ambient", &TextMap::new(), false));
    assert!(record_matches_scoped(&r, "flac", &TextMap::new(), false));
}

#[test]
fn checking_more_shows_less() {
    let r = rec("a.ogg", &[("Mood", &["Dark", "Tense"])]);
    let more = sel(&[("Mood", &["Dark", "Tense"])]);
    let fewer = sel(&[("Mood", &["Dark"])]);
    assert!(record_matches(&r, "a", &more));
    assert!(record_matches(&r, "a", &fewer));
}

#[test]
fn fuzzy_search_takes_characters_in_order() {
    assert!(fuzzy_search_match("Ambient", ""));
    assert!(fuzzy_search_match("Ambient", "ABT"));
    assert!(!fuzzy_search_match("Ambient", "tba"));
    assert!(fuzzy_search_match("\u{c4}THER", "\u{e4}ther"));
}

#[test]
fn search_ranks_better_names_first() {
    let query = "bass";
    let ranks: Vec<i128> = ["bass", "sub bass loop", "bassy", "subbass", "brass loop"]
        .iter()
        .map(|name| {
            let mut record = rec("x.flac", &[]);
            record.name = name.to_string();
            record_search_sort_key_scoped(&record, query, true).rank
        })
        .collect();
    assert_eq!(ranks, vec![0, 1, 2, 3, 4]);
    let mut by_extension = rec("x.bass", &[]);
    by_extension.name = "x".to_string();
    assert_eq!(record_search_sort_key_scoped(&by_extension, query, true).rank, 5);
    let by_tag = rec("x.flac", &[("genre", &["Bass"])]);
    assert_eq!(record_search_sort_key_scoped(&by_tag, query, true).rank, 6);
    assert_eq!(record_search_sort_key_scoped(&by_tag, query, false).rank, 7);
}

#[test]
fn categories_wrap() {
    assert_eq!(Category::Music.next(), Category::Sfx);
    assert_eq!(Category::Sfx.next(), Category::Music);
    assert_eq!(Category::Music.previous(), Category::Sfx);
    assert_eq!(Category::Music.label(), "Music");
    assert_eq!(Category::Sfx.label(), "SFX");
    assert_eq!(Category::Music.tag_keys().to_vec(), vec!["GENRE", "MOOD"]);
    assert_eq!(Category::Sfx.tag_keys().to_vec(), vec!["TYPE"]);
}

#[test]
fn formats_round_trip() {
    for format in default_format_priority() {
        assert_eq!(AudioFormat::from_str(format.extension()), Ok(format));
        assert_eq!(supported_audio_extension(format.extension()), Some(format));
    }
    assert_eq!(AudioFormat::from_str("FLAC"), Ok(AudioFormat::Flac));
    assert_eq!(AudioFormat::from_str("ogg"), Err(()));
    assert_eq!(AudioFormat::Wav.label(), "WAV");
}

#[test]
fn conflict_behaviors_round_trip() {
    for behavior in [ConvertConflictBehavior::AddCopy, ConvertConflictBehavior::Overwrite] {
        assert_eq!(ConvertConflictBehavior::from_str(behavior.key()), Ok(behavior));
    }
    assert_eq!(ConvertConflictBehavior::from_str("other"), Err(()));
}

#[test]
fn priorities_are_completed_and_lose_repeats() {
    assert_eq!(
        normalize_format_priority(vec![
            AudioFormat::Flac,
            AudioFormat::Mp3,
            AudioFormat::Flac
        ]),
        vec![
            AudioFormat::Flac,
            AudioFormat::Mp3,
            AudioFormat::Wav,
            AudioFormat::Opus
        ]
    );
    assert_eq!(normalize_format_priority(vec![]), default_format_priority());
}

#[test]
fn tag_keys_have_one_form() {
    assert_eq!(canonical_tag_key("genre"), Some("GENRE"));
    assert_eq!(canonical_tag_key("MoOd"), Some("MOOD"));
    assert_eq!(canonical_tag_key("use"), None);
    assert_eq!(tag_label("GENRE"), "Genre");
    assert_eq!(tag_label("type"), "Type");
    assert_eq!(tag_label("use"), "use");
    assert_eq!(normalize_tag_key("  Use "), Some("use".to_string()));
    assert_eq!(normalize_tag_key(" genre"), Some("GENRE".to_string()));
    assert_eq!(normalize_tag_key("  "), None);
    assert_eq!(normalize_tag_value(" Dark "), Some("Dark".to_string()));
    assert_eq!(normalize_tag_value("\t"), None);
}

#[test]
fn subtags_split_at_the_first_slash() {
    assert_eq!(split_subtag("shitpost/comedy"), Some(("shitpost", "comedy")));
    assert_eq!(split_subtag("a/b/c"), Some(("a", "b/c")));
    assert_eq!(split_subtag("/b"), None);
    assert_eq!(split_subtag("a/"), None);
    assert_eq!(split_subtag("plain"), None);
    assert!(tag_value_matches_filter("a/b", "a"));
    assert!(tag_value_matches_filter("a", "a"));
    assert!(!tag_value_matches_filter("ab", "a"));
}

#[test]
fn records_offer_the_formats_they_lack() {
    let r = rec("song.FLAC", &[]);
    assert!(r.has_extension("flac"));
    assert!(r.variant_for_extension("mp3").is_none());
    assert_eq!(
        r.conversion_targets(),
        vec![AudioFormat::Mp3, AudioFormat::Wav, AudioFormat::Opus]
    );
    assert!(r.primary_waveform().is_none());
    assert!(!r.is_convertible());
}

#[test]
fn stored_forms_are_their_own_stored_forms() {
    for key in ["  Genre ", "mOOd", "My Key", "type", "x/y"] {
        let stored = normalize_tag_key(key).unwrap();
        assert_eq!(normalize_tag_key(&stored), Some(stored.clone()));
        assert_eq!(normalize_tag_key(&key.to_uppercase()), Some(stored));
    }
    assert_eq!(normalize_tag_value(" a b "), Some("a b".to_string()));
    assert_eq!(normalize_tag_value("a b"), Some("a b".to_string()));
    assert_eq!(normalize_tag_value(" \t"), None);
}
