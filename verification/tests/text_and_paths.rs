use static_video_server::identifiers::{content_type_of, make_identifier};
use static_video_server::paths::{extension_of, join_path};
use static_video_server::sorting::{sort_positions, SortKey};
use static_video_server::text::{chars_of, decimal_string};

fn key(major: &str, minor: &str) -> SortKey {
    SortKey { major: major.chars().collect(), minor: minor.chars().collect() }
}

#[test]
fn decimal_string_writes_numbers() {
    assert_eq!(decimal_string(0), "0");
    assert_eq!(decimal_string(7), "7");
    assert_eq!(decimal_string(9), "9");
    assert_eq!(decimal_string(10), "10");
    assert_eq!(decimal_string(109), "109");
    assert_eq!(decimal_string(1234567890), "1234567890");
    assert_eq!(decimal_string(usize::MAX), usize::MAX.to_string());
}

#[test]
fn chars_of_keeps_every_character() {
    assert_eq!(chars_of(""), Vec::<char>::new());
    assert_eq!(chars_of("a.mp4"), vec!['a', '.', 'm', 'p', '4']);
    assert_eq!(chars_of("é/日本"), vec!['é', '/', '日', '本']);
}

#[test]
fn extension_of_takes_what_follows_the_last_dot() {
    assert_eq!(extension_of("a.mp4"), Some("mp4".to_string()));
    assert_eq!(extension_of("dir/a.b.mkv"), Some("mkv".to_string()));
    assert_eq!(extension_of("a."), Some(String::new()));
    assert_eq!(extension_of("x.d/y.tar.gz"), Some("gz".to_string()));
    assert_eq!(extension_of("é.日本"), Some("日本".to_string()));
    assert_eq!(extension_of("12.webm"), Some("webm".to_string()));
}

#[test]
fn extension_of_finds_none() {
    assert_eq!(extension_of(""), None);
    assert_eq!(extension_of("a"), None);
    assert_eq!(extension_of(".mp4"), None);
    assert_eq!(extension_of("dir/.mp4"), None);
    assert_eq!(extension_of("dir.d/file"), None);
    assert_eq!(extension_of("a.mp4/"), None);
    assert_eq!(extension_of("/"), None);
}

#[test]
fn join_path_writes_one_separator() {
    assert_eq!(join_path("assets", "a.mp4"), "assets/a.mp4");
    assert_eq!(join_path("assets/", "a.mp4"), "assets/a.mp4");
    assert_eq!(join_path("", "a.mp4"), "a.mp4");
    assert_eq!(join_path("/", "a.mp4"), "/a.mp4");
    assert_eq!(join_path("a/b", "c"), "a/b/c");
    assert_eq!(join_path("a", ""), "a/");
    assert_eq!(join_path("日", "本"), "日/本");
}

#[test]
fn make_identifier_is_number_dot_extension() {
    assert_eq!(make_identifier(0, "a.mp4"), "0.mp4");
    assert_eq!(make_identifier(41, "x/y/z.webm"), "41.webm");
    assert_eq!(make_identifier(100, "noext"), "100.");
}

#[test]
fn content_type_is_video_and_the_extension() {
    assert_eq!(content_type_of("0.mp4"), "video/mp4");
    assert_eq!(content_type_of("17.3gp"), "video/3gp");
    assert_eq!(content_type_of("17"), "video/");
}

#[test]
fn sort_positions_orders_by_major_then_minor() {
    let keys = vec![key("mp4", "b"), key("avi", "z"), key("mp4", "a"), key("", "q"), key("avi", "a")];
    assert_eq!(sort_positions(&keys), vec![3, 4, 1, 2, 0]);
}

#[test]
fn sort_positions_keeps_equal_keys_in_place() {
    let keys = vec![key("x", "n"), key("a", "n"), key("x", "n"), key("a", "n"), key("x", "n")];
    assert_eq!(sort_positions(&keys), vec![1, 3, 0, 2, 4]);
    assert_eq!(sort_positions(&Vec::new()), Vec::<usize>::new());
}

#[test]
fn sort_positions_puts_a_prefix_first_and_goes_by_code_point() {
    let keys = vec![key("", "ab"), key("", "a"), key("", "B"), key("", "é"), key("", "b"), key("", "")];
    assert_eq!(sort_positions(&keys), vec![5, 2, 1, 0, 4, 3]);
}

#[test]
fn known_extensions_are_thirteen() {
    let known = static_video_server::paths::known_extensions();
    assert_eq!(
        known,
        vec![
            "mp4", "av1", "avi", "flv", "heic", "mkv", "mov", "mpg", "mpeg", "m4v", "webm", "wmv",
            "3gp"
        ]
    );
}
