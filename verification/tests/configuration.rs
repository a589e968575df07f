use tv_rename::config::{Args, Mode, RunConfig, SortOrder};
use tv_rename::entry::DirectoryEntry;

fn file(name: &str) -> DirectoryEntry {
    DirectoryEntry::new(format!("/tv/{}", name), name.to_string(), false)
}

fn args(ext: Option<&str>, season: u8, sort: u8, rename: u8) -> Args {
    Args {
        path: "/tv".to_string(),
        name: "Show".to_string(),
        ext: ext.map(|e| e.to_string()),
        season,
        sort,
        rename,
    }
}

#[test]
fn sort_flag_one_is_ascending() {
    assert_eq!(SortOrder::from_flag(1), SortOrder::Ascending);
}

#[test]
fn every_other_sort_flag_is_descending() {
    assert_eq!(SortOrder::from_flag(0), SortOrder::Descending);
    assert_eq!(SortOrder::from_flag(2), SortOrder::Descending);
    assert_eq!(SortOrder::from_flag(3), SortOrder::Descending);
    assert_eq!(SortOrder::from_flag(255), SortOrder::Descending);
}

#[test]
fn rename_flag_zero_is_a_dry_run() {
    assert_eq!(Mode::from_flag(0), Mode::DryRun);
}

#[test]
fn every_other_rename_flag_applies() {
    assert_eq!(Mode::from_flag(1), Mode::Apply);
    assert_eq!(Mode::from_flag(2), Mode::Apply);
    assert_eq!(Mode::from_flag(255), Mode::Apply);
}

#[test]
fn new_args_have_the_defaults() {
    let a = Args::new("/tv".to_string(), "Show".to_string());
    assert_eq!(a, args(None, 1, 1, 0));
}

#[test]
fn resolve_keeps_the_extension_asked_for() {
    let entries = vec![file("a.mp4"), file("b.mp4"), file("a.srt")];
    let config = RunConfig::resolve(&args(Some("srt"), 3, 2, 1), &entries);
    assert_eq!(
        config,
        RunConfig {
            path: "/tv".to_string(),
            name: "Show".to_string(),
            ext: "srt".to_string(),
            season: 3,
            order: SortOrder::Descending,
            mode: Mode::Apply,
        }
    );
}

#[test]
fn resolve_detects_the_extension_where_none_is_asked_for() {
    let entries = vec![file("a.srt"), file("a.mp4"), file("b.mp4")];
    let config = RunConfig::resolve(&args(None, 1, 1, 0), &entries);
    assert_eq!(config.ext, "mp4");
    assert_eq!(config.order, SortOrder::Ascending);
    assert_eq!(config.mode, Mode::DryRun);
    assert_eq!(config.season, 1);
    assert_eq!(config.name, "Show");
    assert_eq!(config.path, "/tv");
}

#[test]
fn resolve_gives_the_empty_extension_where_none_is_detected() {
    let entries = vec![file("README"), file("LICENSE")];
    let config = RunConfig::resolve(&args(None, 1, 1, 0), &entries);
    assert_eq!(config.ext, "");
}

#[test]
fn with_extension_reads_the_flags() {
    let config = RunConfig::with_extension(&args(None, 7, 9, 9), "mkv".to_string());
    assert_eq!(config.ext, "mkv");
    assert_eq!(config.season, 7);
    assert_eq!(config.order, SortOrder::Descending);
    assert_eq!(config.mode, Mode::Apply);
}
