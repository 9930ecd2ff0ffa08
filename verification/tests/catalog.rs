use static_video_server::catalog::{CatalogError, VideoEntry, VideoPlayerConfig, VideoPlayerState};
use static_video_server::listing::{DirListing, SubDir};

fn names(list: &[&str]) -> Vec<String> {
    list.iter().map(|s| s.to_string()).collect()
}

fn dir(files: &[&str], dirs: Vec<SubDir>) -> DirListing {
    DirListing { readable: true, files: names(files), dirs }
}

fn sub(name: &str, listing: DirListing) -> SubDir {
    SubDir { name: name.to_string(), listing }
}

fn unreadable() -> DirListing {
    DirListing { readable: false, files: Vec::new(), dirs: Vec::new() }
}

fn config(root: &str) -> VideoPlayerConfig {
    VideoPlayerConfig { assets_root: root.to_string(), port: 9092, host: "0.0.0.0".to_string() }
}

fn pairs(entries: &[VideoEntry]) -> Vec<(String, String)> {
    entries.iter().map(|e| (e.id.clone(), e.path.clone())).collect()
}

fn expect(list: &[(&str, &str)]) -> Vec<(String, String)> {
    list.iter().map(|(id, path)| (id.to_string(), path.to_string())).collect()
}

fn two_videos() -> DirListing {
    dir(&["a.mp4"], vec![sub("sub", dir(&["b.mkv"], Vec::new()))])
}

#[test]
fn build_numbers_files_before_subdirectories() {
    let state = VideoPlayerState::build(&config(""), &two_videos()).unwrap();
    assert_eq!(pairs(state.videos()), expect(&[("0.mp4", "a.mp4"), ("1.mkv", "sub/b.mkv")]));
    assert_eq!(state.len(), 2);
}

#[test]
fn build_ignores_files_that_are_no_videos() {
    let listing = dir(&["notes.txt", "a.mp4"], vec![sub("sub", dir(&["b.mkv"], Vec::new()))]);
    let state = VideoPlayerState::build(&config(""), &listing).unwrap();
    assert_eq!(state.len(), 2);
    assert_eq!(pairs(state.videos()), expect(&[("0.mp4", "a.mp4"), ("1.mkv", "sub/b.mkv")]));
}

#[test]
fn reload_numbers_the_new_tree_from_zero() {
    let mut state = VideoPlayerState::build(&config(""), &two_videos()).unwrap();
    let grown = dir(&["a.mp4", "c.avi"], vec![sub("sub", dir(&["b.mkv"], Vec::new()))]);
    assert_eq!(state.reload(&grown), Ok(()));
    assert_eq!(
        pairs(state.videos()),
        expect(&[("0.avi", "c.avi"), ("1.mp4", "a.mp4"), ("2.mkv", "sub/b.mkv")])
    );
}

#[test]
fn lookup_of_an_unknown_identifier_is_not_found() {
    let state = VideoPlayerState::build(&config(""), &two_videos()).unwrap();
    assert_eq!(state.lookup("5.mp4"), Err(CatalogError::NotFound));
    assert_eq!(state.lookup("0.mkv"), Err(CatalogError::NotFound));
    assert_eq!(state.lookup(""), Err(CatalogError::NotFound));
    assert_eq!(state.resolve("5.mp4"), Err(CatalogError::NotFound));
}

#[test]
fn lookup_finds_each_video() {
    let state = VideoPlayerState::build(&config("assets"), &two_videos()).unwrap();
    assert_eq!(state.lookup("0.mp4"), Ok("assets/a.mp4".to_string()));
    assert_eq!(state.lookup("1.mkv"), Ok("assets/sub/b.mkv".to_string()));
}

#[test]
fn failed_reload_keeps_the_catalog() {
    let mut state = VideoPlayerState::build(&config("videos"), &two_videos()).unwrap();
    let before = state.snapshot();
    assert_eq!(state.reload(&unreadable()), Err(CatalogError::Io("videos".to_string())));
    assert_eq!(state.lookup("0.mp4"), Ok("videos/a.mp4".to_string()));
    assert_eq!(state.snapshot(), before);
    assert_eq!(state.root(), Some(&"videos".to_string()));
}

#[test]
fn failed_reload_below_the_root_keeps_the_catalog() {
    let mut state = VideoPlayerState::build(&config("videos"), &two_videos()).unwrap();
    let broken = dir(&["z.mp4"], vec![sub("sub", unreadable())]);
    assert_eq!(state.reload(&broken), Err(CatalogError::Io("videos/sub".to_string())));
    assert_eq!(
        pairs(state.videos()),
        expect(&[("0.mp4", "videos/a.mp4"), ("1.mkv", "videos/sub/b.mkv")])
    );
}

#[test]
fn build_fails_with_the_first_unreadable_directory() {
    let listing = dir(
        &["a.mp4"],
        vec![
            sub("y", unreadable()),
            sub("x", dir(&[], vec![sub("deep", unreadable())])),
        ],
    );
    match VideoPlayerState::build(&config("root"), &listing) {
        Err(e) => assert_eq!(e, CatalogError::Io("root/x/deep".to_string())),
        Ok(_) => panic!("an unreadable directory was passed over"),
    }
}

#[test]
fn build_of_an_unreadable_root_fails() {
    match VideoPlayerState::build(&config("gone"), &unreadable()) {
        Err(e) => assert_eq!(e, CatalogError::Io("gone".to_string())),
        Ok(_) => panic!("an unreadable root was passed over"),
    }
}

#[test]
fn build_sets_the_root() {
    let state = VideoPlayerState::build(&config("assets"), &dir(&[], Vec::new())).unwrap();
    assert_eq!(state.root(), Some(&"assets".to_string()));
    assert_eq!(state.len(), 0);
    assert!(state.videos().is_empty());
}

#[test]
fn new_is_empty_and_has_no_root() {
    let state = VideoPlayerState::new();
    assert_eq!(state.len(), 0);
    assert_eq!(state.root(), None);
    assert_eq!(state.lookup("0.mp4"), Err(CatalogError::NotFound));
}

#[test]
fn files_are_ordered_by_extension_then_name() {
    let listing = dir(&["b.mp4", "b.avi", "a.mp4", "a.webm", "a.avi", "c.3gp"], Vec::new());
    let state = VideoPlayerState::build(&config(""), &listing).unwrap();
    assert_eq!(
        pairs(state.videos()),
        expect(&[
            ("0.3gp", "c.3gp"),
            ("1.avi", "a.avi"),
            ("2.avi", "b.avi"),
            ("3.mp4", "a.mp4"),
            ("4.mp4", "b.mp4"),
            ("5.webm", "a.webm"),
        ])
    );
}

#[test]
fn subdirectories_are_visited_by_name_and_in_depth() {
    let listing = dir(
        &["top.mp4"],
        vec![
            sub("b", dir(&["two.mp4"], Vec::new())),
            sub("a", dir(&["one.mp4"], vec![sub("inner", dir(&["deep.mp4"], Vec::new()))])),
            sub("ab", dir(&["three.mkv"], Vec::new())),
        ],
    );
    let state = VideoPlayerState::build(&config("r"), &listing).unwrap();
    assert_eq!(
        pairs(state.videos()),
        expect(&[
            ("0.mp4", "r/top.mp4"),
            ("1.mp4", "r/a/one.mp4"),
            ("2.mp4", "r/a/inner/deep.mp4"),
            ("3.mkv", "r/ab/three.mkv"),
            ("4.mp4", "r/b/two.mp4"),
        ])
    );
}

#[test]
fn the_order_of_a_listing_does_not_matter() {
    let one = dir(
        &["x.mp4", "notes.txt", "k.avi", "b.mp4"],
        vec![sub("s", dir(&["2.mkv", "1.mkv"], Vec::new())), sub("d", dir(&["v.flv"], Vec::new()))],
    );
    let other = dir(
        &["b.mp4", "k.avi", "x.mp4", "notes.txt"],
        vec![sub("d", dir(&["v.flv"], Vec::new())), sub("s", dir(&["1.mkv", "2.mkv"], Vec::new()))],
    );
    let first = VideoPlayerState::build(&config("m"), &one).unwrap();
    let second = VideoPlayerState::build(&config("m"), &other).unwrap();
    assert_eq!(first.snapshot(), second.snapshot());
    assert_eq!(
        pairs(first.videos()),
        expect(&[
            ("0.avi", "m/k.avi"),
            ("1.mp4", "m/b.mp4"),
            ("2.mp4", "m/x.mp4"),
            ("3.flv", "m/d/v.flv"),
            ("4.mkv", "m/s/1.mkv"),
            ("5.mkv", "m/s/2.mkv"),
        ])
    );
}

#[test]
fn rebuilding_twice_gives_the_same_identifiers() {
    let mut state = VideoPlayerState::build(&config("m"), &two_videos()).unwrap();
    let first = state.snapshot();
    assert_eq!(state.reload(&two_videos()), Ok(()));
    let second = state.snapshot();
    assert_eq!(state.reload(&two_videos()), Ok(()));
    assert_eq!(first, second);
    assert_eq!(second, state.snapshot());
}

#[test]
fn a_name_listed_twice_is_loaded_twice() {
    let listing = dir(&["a.mp4", "a.mp4"], Vec::new());
    let state = VideoPlayerState::build(&config(""), &listing).unwrap();
    assert_eq!(pairs(state.videos()), expect(&[("0.mp4", "a.mp4"), ("1.mp4", "a.mp4")]));
}

#[test]
fn identifiers_are_distinct_and_count_from_zero() {
    let mut files: Vec<String> = Vec::new();
    for i in 0..25 {
        files.push(format!("clip{}.mp4", i));
    }
    let listing = DirListing { readable: true, files, dirs: Vec::new() };
    let state = VideoPlayerState::build(&config("v"), &listing).unwrap();
    let entries = state.snapshot();
    assert_eq!(entries.len(), 25);
    for (i, entry) in entries.iter().enumerate() {
        assert_eq!(entry.id, format!("{}.mp4", i));
        assert_eq!(state.lookup(&entry.id), Ok(entry.path.clone()));
    }
    for i in 0..entries.len() {
        for j in 0..i {
            assert_ne!(entries[i].id, entries[j].id);
        }
    }
}

#[test]
fn every_entry_is_a_video_under_the_root() {
    let listing = dir(
        &["a.mp4", "b.txt", "c"],
        vec![sub("s.d", dir(&["d.mov", ".mp4", "e."], Vec::new()))],
    );
    let state = VideoPlayerState::build(&config("root"), &listing).unwrap();
    assert_eq!(pairs(state.videos()), expect(&[("0.mp4", "root/a.mp4"), ("1.mov", "root/s.d/d.mov")]));
    for entry in state.videos() {
        assert!(entry.path.starts_with("root/"));
        assert!(state.is_video_file(&entry.path));
    }
}

#[test]
fn resolve_gives_path_and_content_type() {
    let state = VideoPlayerState::build(&config("assets"), &two_videos()).unwrap();
    assert_eq!(
        state.resolve("0.mp4"),
        Ok(("assets/a.mp4".to_string(), "video/mp4".to_string()))
    );
    assert_eq!(
        state.resolve("1.mkv"),
        Ok(("assets/sub/b.mkv".to_string(), "video/mkv".to_string()))
    );
}

#[test]
fn load_video_takes_the_next_number() {
    let mut state = VideoPlayerState::new();
    state.load_video("x/one.webm".to_string());
    state.load_video("two.m4v".to_string());
    state.load_video("x/y/three.webm".to_string());
    assert_eq!(
        pairs(state.videos()),
        expect(&[("0.webm", "x/one.webm"), ("1.m4v", "two.m4v"), ("2.webm", "x/y/three.webm")])
    );
    assert_eq!(state.lookup("1.m4v"), Ok("two.m4v".to_string()));
}

#[test]
fn load_videos_adds_to_what_is_there() {
    let mut state = VideoPlayerState::new();
    state.load_video("first.mp4".to_string());
    assert_eq!(state.load_videos("more", &two_videos()), Ok(()));
    assert_eq!(
        pairs(state.videos()),
        expect(&[("0.mp4", "first.mp4"), ("1.mp4", "more/a.mp4"), ("2.mkv", "more/sub/b.mkv")])
    );
}

#[test]
fn load_videos_that_fails_adds_nothing() {
    let mut state = VideoPlayerState::new();
    state.load_video("first.mp4".to_string());
    let broken = dir(&["a.mp4"], vec![sub("s", unreadable())]);
    assert_eq!(state.load_videos("more", &broken), Err(CatalogError::Io("more/s".to_string())));
    assert_eq!(pairs(state.videos()), expect(&[("0.mp4", "first.mp4")]));
}

#[test]
fn visit_dirs_returns_the_paths_in_order() {
    let state = VideoPlayerState::new();
    assert_eq!(
        state.visit_dirs("top/", &two_videos()),
        Ok(vec!["top/a.mp4".to_string(), "top/sub/b.mkv".to_string()])
    );
    assert_eq!(state.visit_dirs("top", &unreadable()), Err(CatalogError::Io("top".to_string())));
}

#[test]
fn replace_installs_a_new_generation() {
    let mut state = VideoPlayerState::build(&config("r"), &two_videos()).unwrap();
    state.replace(vec!["r/n.flv".to_string(), "r/m.wmv".to_string()]);
    assert_eq!(pairs(state.videos()), expect(&[("0.flv", "r/n.flv"), ("1.wmv", "r/m.wmv")]));
    assert_eq!(state.root(), Some(&"r".to_string()));
    assert_eq!(state.lookup("1.mkv"), Err(CatalogError::NotFound));
    state.replace(Vec::new());
    assert_eq!(state.len(), 0);
}

#[test]
fn is_video_file_knows_the_thirteen_extensions() {
    let state = VideoPlayerState::new();
    for ext in [
        "mp4", "av1", "avi", "flv", "heic", "mkv", "mov", "mpg", "mpeg", "m4v", "webm", "wmv", "3gp",
    ] {
        assert!(state.is_video_file(&format!("dir/clip.{}", ext)));
    }
}

#[test]
fn is_video_file_rejects_the_rest() {
    let state = VideoPlayerState::new();
    for path in [
        "clip.MP4", "clip.Mp4", "clip.txt", "clip", "clip.", ".mp4", "dir/.mp4", "dir.mp4/clip",
        "clip.mp4/", "clip.mp44", "clip.mp", "mp4", "", "clip.mp4.bak", "a/b.mkv/c.txt",
    ] {
        assert!(!state.is_video_file(path), "{}", path);
    }
    assert!(state.is_video_file("a.b.mp4"));
    assert!(state.is_video_file("..mp4"));
    assert!(state.is_video_file("dir.d/x.mov"));
}

#[test]
fn default_config_is_assets_on_9092() {
    let config = VideoPlayerConfig::default();
    assert_eq!(config.assets_root, "assets");
    assert_eq!(config.port, 9092);
    assert_eq!(config.host, "0.0.0.0");
}

#[test]
fn address_is_host_colon_port() {
    assert_eq!(VideoPlayerConfig::default().address(), "0.0.0.0:9092");
    assert_eq!(config("x").address(), "0.0.0.0:9092");
    let local = VideoPlayerConfig { assets_root: String::new(), port: 0, host: "::1".to_string() };
    assert_eq!(local.address(), "::1:0");
    let high = VideoPlayerConfig { assets_root: String::new(), port: 65535, host: "h".to_string() };
    assert_eq!(high.address(), "h:65535");
}
