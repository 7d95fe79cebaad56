use lowcat::config::{
    database_path_for_settings, is_profiled, is_switched_on, settings_path, IntersectionTags, Settings,
};
use lowcat::media_tools::{
    common_tool_dirs, display_search_locations, missing_required_tools, resolve, tool_candidates, version_arg,
    SearchLocation,
};
use lowcat::model::{AudioFormat, Category};
use lowcat::text_map::{TextMap, TextSet};

fn set(values: &[&str]) -> TextSet {
    let mut set = TextSet::new();
    for value in values {
        set.insert(value.to_string());
    }
    set
}

fn texts(values: &[&str]) -> Vec<String> {
    values.iter().map(|value| value.to_string()).collect()
}

#[test]
fn the_settings_lie_where_the_environment_says() {
    assert_eq!(settings_path(Some("/cfg"), Some("/home/u")), "/cfg/lowcat/settings.toml");
    assert_eq!(
        settings_path(Some(""), Some("/home/u")),
        "/home/u/.config/lowcat/settings.toml"
    );
    assert_eq!(settings_path(None, None), ".config/lowcat/settings.toml");
    assert_eq!(database_path_for_settings("/cfg/lowcat/settings.toml"), "/cfg/lowcat/library.sqlite");
    assert_eq!(database_path_for_settings("/"), "library.sqlite");
}

#[test]
fn settings_are_read_back() {
    let mut settings = Settings::new();
    assert_eq!(settings.download_format(), AudioFormat::Opus);
    settings.set_download_format(AudioFormat::Mp3);
    assert_eq!(settings.download_format(), AudioFormat::Mp3);
    settings.download_format = Some("nonsense".to_string());
    assert_eq!(settings.download_format(), AudioFormat::Opus);

    settings.set_category_folder(Category::Sfx, "/sfx".to_string());
    assert_eq!(settings.category_folder(Category::Sfx), Some("/sfx"));
    assert_eq!(settings.category_folder(Category::Music), None);

    settings.set_hidden_tag_groups(set(&["genre"]));
    settings.set_hidden_tag_columns(set(&["mood"]));
    assert!(settings.hidden_tag_groups().contains("genre"));
    assert!(settings.hidden_tag_columns().contains("mood"));

    let mut tags: TextMap<TextSet> = TextMap::new();
    tags.insert("genre".to_string(), set(&["Hype"]));
    assert!(settings.intersection_tags.is_empty());
    settings.set_intersection_tags(Category::Music, tags);
    assert!(settings.intersection_tags(Category::Music).get("genre").unwrap().contains("Hype"));
    assert!(settings.intersection_tags(Category::Sfx).is_empty());
    assert!(!settings.intersection_tags.is_empty());
    let none = IntersectionTags { music: TextMap::new(), sfx: TextMap::new() };
    assert!(none.is_empty());
}

#[test]
fn programs_are_found_on_the_search_path_first() {
    let path = texts(&["/a", "/b"]);
    let usual = texts(&["/usr/bin"]);
    let there = set(&["/b/ffmpeg", "/usr/bin/ffmpeg", "/usr/bin/ffprobe"]);
    assert_eq!(resolve("ffmpeg", &path, &usual, &there), Some("/b/ffmpeg".to_string()));
    assert_eq!(resolve("ffprobe", &path, &usual, &there), Some("/usr/bin/ffprobe".to_string()));
    assert_eq!(resolve("yt-dlp", &path, &usual, &there), None);
    assert_eq!(tool_candidates("x", &path), vec!["/a/x", "/b/x"]);
}

#[test]
fn missing_programs_are_told_with_their_places() {
    let usual = texts(&["/usr/bin", "/opt/bin", "/usr/bin"]);
    let missing = missing_required_tools(&set(&["ffprobe"]), true, &usual);
    let names: Vec<&str> = missing.iter().map(|tool| tool.name).collect();
    assert_eq!(names, vec!["ffmpeg", "yt-dlp"]);
    assert_eq!(missing[0].search_locations.len(), 3);
    assert!(matches!(missing[0].search_locations[0], SearchLocation::Path));
    assert!(matches!(
        &missing[0].search_locations[2],
        SearchLocation::Directory(path) if path == "/opt/bin"
    ));
    assert_eq!(display_search_locations(false, &texts(&[])).len(), 0);
    assert_eq!(common_tool_dirs(true).len(), 4);
    assert_eq!(common_tool_dirs(false), Vec::<String>::new());
    assert_eq!(version_arg("yt-dlp"), "--version");
    assert_eq!(version_arg("ffmpeg"), "-version");
}

#[test]
fn switches_are_told_by_their_values() {
    for value in ["1", "true", "yes", "on"] {
        assert!(is_switched_on(value));
    }
    for value in ["", "0", "TRUE", "On", "2", "1 "] {
        assert!(!is_switched_on(value));
    }
    assert!(is_profiled(Some("")));
    assert!(is_profiled(Some("1")));
    assert!(!is_profiled(Some("0")));
    assert!(!is_profiled(None));
}
