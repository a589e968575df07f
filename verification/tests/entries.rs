use tv_rename::entry::{file_extension, DirectoryEntry};
use tv_rename::order::bytes_lt;

fn ext(name: &str) -> Option<String> {
    file_extension(name)
}

#[test]
fn extension_is_what_follows_the_last_dot() {
    assert_eq!(ext("episode.mp4"), Some("mp4".to_string()));
    assert_eq!(ext("archive.tar.gz"), Some("gz".to_string()));
    assert_eq!(ext("a.b.c.d"), Some("d".to_string()));
}

#[test]
fn name_without_dot_has_no_extension() {
    assert_eq!(ext("README"), None);
    assert_eq!(ext(""), None);
}

#[test]
fn leading_dot_alone_gives_no_extension() {
    assert_eq!(ext(".bashrc"), None);
    assert_eq!(ext("."), None);
    assert_eq!(ext(".hidden.mp4"), Some("mp4".to_string()));
}

#[test]
fn two_dots_have_no_extension() {
    assert_eq!(ext(".."), None);
}

#[test]
fn trailing_dot_gives_the_empty_extension() {
    assert_eq!(ext("episode."), Some(String::new()));
    assert_eq!(ext("..."), Some(String::new()));
    assert_eq!(ext("a.."), Some(String::new()));
}

#[test]
fn extension_keeps_its_case() {
    assert_eq!(ext("Episode.MP4"), Some("MP4".to_string()));
    assert_ne!(ext("Episode.MP4"), Some("mp4".to_string()));
}

#[test]
fn extension_of_a_name_with_wide_characters() {
    assert_eq!(ext("第一集.mkv"), Some("mkv".to_string()));
    assert_eq!(ext("épisode.vidéo"), Some("vidéo".to_string()));
}

#[test]
fn extension_agrees_with_the_standard_library() {
    let names = [
        "a.mp4", "a", ".a", "..", "...", "a.", ".a.b", "a.b.c", "", ".", "x.y.", "第.一",
        "no extension", "many.dots.in.this.name",
    ];
    for name in names {
        let expected = std::path::Path::new(name)
            .extension()
            .map(|e| e.to_string_lossy().into_owned());
        assert_eq!(ext(name), expected, "for the name {:?}", name);
    }
}

#[test]
fn new_entry_takes_its_extension_from_the_file_name() {
    let e = DirectoryEntry::new("/tv/show/one.mp4".to_string(), "one.mp4".to_string(), false);
    assert_eq!(e.path, "/tv/show/one.mp4");
    assert_eq!(e.file_name, "one.mp4");
    assert_eq!(e.extension, Some("mp4".to_string()));
    assert!(!e.is_dir);
    let d = DirectoryEntry::new("/tv/show/extras".to_string(), "extras".to_string(), true);
    assert_eq!(d.extension, None);
    assert!(d.is_dir);
}

#[test]
fn clone_of_an_entry_equals_it() {
    let e = DirectoryEntry::new("/tv/a.mp4".to_string(), "a.mp4".to_string(), false);
    assert_eq!(e.clone(), e);
}

#[test]
fn is_file_with_matches_exactly() {
    let e = DirectoryEntry::new("/tv/a.mp4".to_string(), "a.mp4".to_string(), false);
    assert!(e.is_file_with(&"mp4".to_string()));
    assert!(!e.is_file_with(&"MP4".to_string()));
    assert!(!e.is_file_with(&"mp".to_string()));
    assert!(!e.is_file_with(&String::new()));
}

#[test]
fn a_directory_is_never_a_file_with_an_extension() {
    let d = DirectoryEntry::new("/tv/season.mp4".to_string(), "season.mp4".to_string(), true);
    assert_eq!(d.extension, Some("mp4".to_string()));
    assert!(!d.is_file_with(&"mp4".to_string()));
}

#[test]
fn an_entry_without_extension_matches_nothing() {
    let e = DirectoryEntry::new("/tv/README".to_string(), "README".to_string(), false);
    assert!(!e.is_file_with(&String::new()));
    assert!(!e.is_file_with(&"README".to_string()));
}

#[test]
fn bytes_are_ordered_lexicographically() {
    assert!(bytes_lt(b"a", b"b"));
    assert!(!bytes_lt(b"b", b"a"));
    assert!(bytes_lt(b"abc", b"abd"));
    assert!(bytes_lt(b"ab", b"abc"));
    assert!(!bytes_lt(b"abc", b"ab"));
    assert!(bytes_lt(b"", b"a"));
    assert!(!bytes_lt(b"", b""));
    assert!(!bytes_lt(b"same", b"same"));
    assert!(bytes_lt(b"Z", b"a"));
    assert!(bytes_lt(b"10", b"9"));
}

#[test]
fn bytes_order_agrees_with_the_standard_library() {
    let words: [&[u8]; 8] = [b"", b"a", b"ab", b"b", b"a\xff", b"\x00", b"e10", b"e9"];
    for a in words {
        for b in words {
            assert_eq!(bytes_lt(a, b), a < b, "for {:?} and {:?}", a, b);
        }
    }
}

#[test]
fn path_before_orders_by_path() {
    let a = DirectoryEntry::new("/tv/e01.mp4".to_string(), "e01.mp4".to_string(), false);
    let b = DirectoryEntry::new("/tv/e02.mp4".to_string(), "e02.mp4".to_string(), false);
    assert!(a.path_before(&b));
    assert!(!b.path_before(&a));
    assert!(!a.path_before(&a));
}

#[test]
fn path_before_goes_by_the_path_not_the_name() {
    let a = DirectoryEntry::new("/b/x.mp4".to_string(), "x.mp4".to_string(), false);
    let b = DirectoryEntry::new("/a/y.mp4".to_string(), "y.mp4".to_string(), false);
    assert!(b.path_before(&a));
    assert!(!a.path_before(&b));
}
