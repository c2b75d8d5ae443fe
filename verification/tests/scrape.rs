use axosync::order::text_leq;
use axosync::scrape::{
    file_path_listing, get_file_paths, listing_reply, normalize_path, sort_paths, ScrapeError,
};

fn texts(items: &[&str]) -> Vec<String> {
    items.iter().map(|s| s.to_string()).collect()
}

#[test]
fn a_canonical_path_loses_its_marker_and_its_backslashes() {
    assert_eq!(
        normalize_path("\\\\?\\C:\\game\\src\\init.lua"),
        Some("C:/game/src/init.lua".to_string())
    );
}

#[test]
fn slashes_stay_slashes() {
    assert_eq!(normalize_path("/tmp/game/src"), Some("/game/src".to_string()));
    assert_eq!(normalize_path("\\\\?\\C:/a\\b/c"), Some("C:/a/b/c".to_string()));
}

#[test]
fn four_bytes_leave_an_empty_path() {
    assert_eq!(normalize_path("\\\\?\\"), Some(String::new()));
}

#[test]
fn a_path_shorter_than_the_marker_cannot_be_listed() {
    assert_eq!(normalize_path(""), None);
    assert_eq!(normalize_path("abc"), None);
}

#[test]
fn a_marker_that_ends_inside_a_character_cannot_be_listed() {
    assert_eq!(normalize_path("abc\u{e9}/x"), None);
    assert_eq!(normalize_path("ab\u{e9}/x"), Some("/x".to_string()));
}

#[test]
fn characters_beyond_ascii_pass_through() {
    assert_eq!(
        normalize_path("\\\\?\\C:\\sp\u{e9}cial\\\u{65e5}\u{672c}.lua"),
        Some("C:/sp\u{e9}cial/\u{65e5}\u{672c}.lua".to_string())
    );
}

#[test]
fn paths_are_ordered_byte_by_byte() {
    assert!(text_leq("a", "a"));
    assert!(text_leq("", "a"));
    assert!(!text_leq("a", ""));
    assert!(text_leq("a", "b"));
    assert!(!text_leq("b", "a"));
    assert!(text_leq("a.txt", "a/b"));
    assert!(!text_leq("a/b", "a.txt"));
    assert!(text_leq("a", "a/b"));
    assert!(text_leq("Z", "a"));
    assert!(text_leq("z", "\u{e9}"));
    assert!(!text_leq("\u{e9}", "z"));
}

#[test]
fn sorting_goes_by_the_full_path() {
    let sorted = sort_paths(texts(&["b", "a/b", "a.txt", "a", "a/a", "B"]));
    assert_eq!(sorted, texts(&["B", "a", "a.txt", "a/a", "a/b", "b"]));
}

#[test]
fn sorting_keeps_equal_paths() {
    let sorted = sort_paths(texts(&["x", "a", "x", "a"]));
    assert_eq!(sorted, texts(&["a", "a", "x", "x"]));
    assert_eq!(sort_paths(Vec::new()), Vec::<String>::new());
}

#[test]
fn a_listing_is_normalized_and_sorted() {
    let entries = texts(&[
        "\\\\?\\C:\\game\\src",
        "\\\\?\\C:\\game",
        "\\\\?\\C:\\game\\src\\b.lua",
        "\\\\?\\C:\\game\\a.lua",
        "\\\\?\\C:\\game\\src\\a.lua",
    ]);
    let listed = file_path_listing(&entries).unwrap();
    assert_eq!(
        listed,
        texts(&[
            "C:/game",
            "C:/game/a.lua",
            "C:/game/src",
            "C:/game/src/a.lua",
            "C:/game/src/b.lua",
        ])
    );
}

#[test]
fn a_listing_does_not_depend_on_the_order_of_its_entries() {
    let one = texts(&["/tmp/p/b", "/tmp/p", "/tmp/p/a.txt", "/tmp/p/a", "/tmp/p/a/c"]);
    let other = texts(&["/tmp/p/a/c", "/tmp/p/a", "/tmp/p/b", "/tmp/p/a.txt", "/tmp/p"]);
    let first = file_path_listing(&one).unwrap();
    let second = file_path_listing(&other).unwrap();
    assert_eq!(first, second);
    assert_eq!(first, texts(&["/p", "/p/a", "/p/a.txt", "/p/a/c", "/p/b"]));
    assert_eq!(get_file_paths(&one).unwrap(), get_file_paths(&other).unwrap());
}

#[test]
fn one_bad_entry_fails_the_whole_listing() {
    let entries = texts(&["/tmp/p/a", "abc", "/tmp/p/b", "x"]);
    match file_path_listing(&entries) {
        Err(ScrapeError::Unlistable { path }) => assert_eq!(path, "abc"),
        other => panic!("unexpected: {:?}", other),
    }
    match get_file_paths(&entries) {
        Err(ScrapeError::Unlistable { path }) => assert_eq!(path, "abc"),
        other => panic!("unexpected: {:?}", other),
    }
}

#[test]
fn the_listing_is_sent_as_a_json_array() {
    let entries = texts(&["\\\\?\\C:\\game\\b.lua", "\\\\?\\C:\\game\\a.lua"]);
    assert_eq!(get_file_paths(&entries).unwrap(), "[\"C:/game/a.lua\",\"C:/game/b.lua\"]");
    assert_eq!(get_file_paths(&Vec::new()).unwrap(), "[]");
}

#[test]
fn json_escapes_what_a_string_cannot_hold() {
    let entries = texts(&["/tmp/say \"hi\"", "/tmp/tab\there"]);
    assert_eq!(
        get_file_paths(&entries).unwrap(),
        "[\"/say \\\"hi\\\"\",\"/tab\\there\"]"
    );
}

#[test]
fn a_written_listing_is_the_reply() {
    assert_eq!(listing_reply(Ok("[]".to_string())).unwrap(), "[]");
    let failed = serde_json::from_str::<Vec<String>>("nonsense").unwrap_err();
    assert!(matches!(listing_reply(Err(failed)), Err(ScrapeError::Encoding)));
}
