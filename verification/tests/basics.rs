use lowcat::number::stands_for_number;
use lowcat::order::{chars_less, text_less};
use lowcat::path::{components, extension, file_name, file_stem, join, parent, strip_base};
use lowcat::text::{
    contains_text, decimal_text, find_char, same_ignoring_ascii_case, split_char, split_once,
    split_white_space, starts_with, strip_prefix, to_ascii_lower, trim,
};
use lowcat::text_map::{group_by_name, TextMap, TextSet};

#[test]
fn texts_are_cut_as_they_should() {
    assert_eq!(trim("\u{a0} a b\n"), "a b");
    assert_eq!(split_once("a=b=c", '='), Some(("a", "b=c")));
    assert_eq!(split_once("abc", '='), None);
    assert_eq!(split_char("a,,b", ','), vec!["a", "", "b"]);
    assert_eq!(split_white_space(" a  b\tc "), vec!["a", "b", "c"]);
    assert_eq!(strip_prefix("abc", "ab"), Some("c"));
    assert_eq!(strip_prefix("abc", "b"), None);
    assert!(starts_with("abc", ""));
    assert!(contains_text("abcd", "bc"));
    assert!(!contains_text("abcd", "cb"));
    assert_eq!(find_char(&['a', '/', 'b'], '/', 0), 1);
    assert_eq!(to_ascii_lower("\u{c4}BC"), "\u{c4}bc");
    assert!(same_ignoring_ascii_case("GeNre", "gENRE"));
    assert_eq!(decimal_text(0), "0");
    assert_eq!(decimal_text(u128::MAX), "340282366920938463463374607431768211455");
}

#[test]
fn texts_are_ordered_by_their_characters() {
    assert!(text_less("a", "b"));
    assert!(text_less("a", "aa"));
    assert!(!text_less("a", "a"));
    assert!(text_less("Z", "a"));
    assert!(chars_less(&['a'], &['a', 'b']));
}

#[test]
fn paths_are_taken_apart() {
    assert_eq!(join("/a", "b"), "/a/b");
    assert_eq!(join("/a/", "b"), "/a/b");
    assert_eq!(join("/a", "/b"), "/b");
    assert_eq!(components("/a//b/./c"), vec!["a", "b", "c"]);
    assert_eq!(parent("/a/b.wav"), Some("/a".to_string()));
    assert_eq!(file_name("/a/b.wav"), Some("b.wav".to_string()));
    assert_eq!(file_stem("/a/.hidden"), Some(".hidden".to_string()));
    assert_eq!(file_stem("/a/b.c.wav"), Some("b.c".to_string()));
    assert_eq!(extension("/a/b.c.wav"), Some("wav".to_string()));
    assert_eq!(extension("/a/.hidden"), None);
    assert_eq!(strip_base("/a/b/c", "/a"), Some("b/c".to_string()));
    assert_eq!(strip_base("/ab/c", "/a"), None);
}

#[test]
fn maps_and_sets_keep_their_keys_in_order() {
    let mut map: TextMap<u64> = TextMap::new();
    map.insert("b".to_string(), 2);
    map.insert("a".to_string(), 1);
    map.insert("b".to_string(), 3);
    assert_eq!(map.len(), 2);
    assert_eq!(map.key_at(0), "a");
    assert_eq!(map.value_at(1), &3);
    assert_eq!(map.get("c"), None);
    assert_eq!(map.remove("a"), Some(1));
    assert_eq!(map.remove("a"), None);
    let mut set = TextSet::new();
    set.insert("x".to_string());
    set.insert("x".to_string());
    assert_eq!(set.len(), 1);
    assert!(set.remove("x"));
    assert!(set.is_empty());
}

#[test]
fn groups_keep_the_order_of_their_items() {
    let names = vec!["b".to_string(), "a".to_string(), "b".to_string()];
    let groups = group_by_name(vec![1u64, 2, 3], &names);
    assert_eq!(groups.get("b").unwrap(), &vec![1, 3]);
    assert_eq!(groups.get("a").unwrap(), &vec![2]);
}

#[test]
fn numbers_are_told_from_other_texts() {
    let texts = [
        "", "0", "7", "42.7", "1.", ".5", ".", "+", "-", "+3", "-1e5", "1e", "1e+", "1e-3", "1E10",
        "1.5e+2", "inf", "-Infinity", "NaN", "+nan", "infin", "0x1", "1_0", " 1", "1 ", "e5",
        "1.2.3", "--1", "1e5.", "\u{661}",
    ];
    for text in texts {
        assert_eq!(stands_for_number(text), text.parse::<f32>().is_ok(), "{text:?}");
    }
}
