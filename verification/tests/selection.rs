use tv_rename::config::SortOrder;
use tv_rename::detect::detect_ext;
use tv_rename::entry::DirectoryEntry;
use tv_rename::select::{select, select_in_order, sort_by_path};

fn file(name: &str) -> DirectoryEntry {
    DirectoryEntry::new(format!("/tv/{}", name), name.to_string(), false)
}

fn dir(name: &str) -> DirectoryEntry {
    DirectoryEntry::new(format!("/tv/{}", name), name.to_string(), true)
}

fn at(path: &str, name: &str) -> DirectoryEntry {
    DirectoryEntry::new(path.to_string(), name.to_string(), false)
}

#[test]
fn only_the_files_with_the_detected_extension_are_selected() {
    let entries = vec![file("b.mp4"), file("a.srt"), file("c.mp4"), file("a.mp4")];
    let ext = detect_ext(&entries).unwrap();
    assert_eq!(ext, "mp4");
    assert_eq!(select(&entries, &ext), vec![0, 2, 3]);
}

#[test]
fn selection_leaves_directories_out() {
    let entries = vec![dir("season.mp4"), file("a.mp4"), dir("extras"), file("b.mp4")];
    assert_eq!(select(&entries, &"mp4".to_string()), vec![1, 3]);
}

#[test]
fn selection_is_case_sensitive() {
    let entries = vec![file("a.MP4"), file("b.mp4"), file("c.Mp4")];
    assert_eq!(select(&entries, &"mp4".to_string()), vec![1]);
    assert_eq!(select(&entries, &"MP4".to_string()), vec![0]);
}

#[test]
fn selection_leaves_files_without_extension_out() {
    let entries = vec![file("README"), file(".mp4"), file("a.mp4")];
    assert_eq!(select(&entries, &"mp4".to_string()), vec![2]);
    assert_eq!(select(&entries, &String::new()), Vec::<usize>::new());
}

#[test]
fn selection_of_an_absent_extension_is_empty() {
    let entries = vec![file("a.mp4"), file("b.mp4")];
    assert_eq!(select(&entries, &"mkv".to_string()), Vec::<usize>::new());
}

#[test]
fn selection_from_an_empty_listing_is_empty() {
    let entries: Vec<DirectoryEntry> = Vec::new();
    assert_eq!(select(&entries, &"mp4".to_string()), Vec::<usize>::new());
}

#[test]
fn the_empty_extension_selects_names_that_end_in_a_dot() {
    let entries = vec![file("a."), file("b"), file("c.")];
    assert_eq!(select(&entries, &String::new()), vec![0, 2]);
}

#[test]
fn sorting_ascending_orders_by_rising_path() {
    let entries = vec![file("c.mp4"), file("a.mp4"), file("b.mp4")];
    assert_eq!(sort_by_path(&entries, &[0, 1, 2], SortOrder::Ascending), vec![1, 2, 0]);
}

#[test]
fn sorting_descending_orders_by_falling_path() {
    let entries = vec![file("c.mp4"), file("a.mp4"), file("b.mp4")];
    assert_eq!(sort_by_path(&entries, &[0, 1, 2], SortOrder::Descending), vec![0, 2, 1]);
}

#[test]
fn sorting_compares_bytes_not_numbers() {
    let entries = vec![file("e10.mp4"), file("e9.mp4"), file("e1.mp4")];
    assert_eq!(sort_by_path(&entries, &[0, 1, 2], SortOrder::Ascending), vec![2, 0, 1]);
}

#[test]
fn sorting_puts_upper_case_before_lower_case() {
    let entries = vec![file("b.mp4"), file("B.mp4"), file("a.mp4"), file("A.mp4")];
    assert_eq!(sort_by_path(&entries, &[0, 1, 2, 3], SortOrder::Ascending), vec![3, 1, 2, 0]);
}

#[test]
fn sorting_is_stable_in_both_directions() {
    let entries = vec![
        at("/tv/same.mp4", "first"),
        at("/tv/zz.mp4", "last"),
        at("/tv/same.mp4", "second"),
        at("/tv/same.mp4", "third"),
    ];
    assert_eq!(sort_by_path(&entries, &[0, 1, 2, 3], SortOrder::Ascending), vec![0, 2, 3, 1]);
    assert_eq!(sort_by_path(&entries, &[0, 1, 2, 3], SortOrder::Descending), vec![1, 0, 2, 3]);
    assert_eq!(sort_by_path(&entries, &[3, 2, 0], SortOrder::Ascending), vec![3, 2, 0]);
}

#[test]
fn sorting_keeps_repeated_positions() {
    let entries = vec![file("b.mp4"), file("a.mp4")];
    assert_eq!(sort_by_path(&entries, &[0, 1, 0, 1], SortOrder::Ascending), vec![1, 1, 0, 0]);
}

#[test]
fn sorting_nothing_gives_nothing() {
    let entries = vec![file("a.mp4")];
    assert_eq!(sort_by_path(&entries, &[], SortOrder::Ascending), Vec::<usize>::new());
}

#[test]
fn sorting_only_touches_the_given_positions() {
    let entries = vec![file("d.mp4"), file("c.mp4"), file("b.mp4"), file("a.mp4")];
    assert_eq!(sort_by_path(&entries, &[0, 2], SortOrder::Ascending), vec![2, 0]);
}

#[test]
fn sorting_agrees_with_the_standard_library() {
    let names = ["m.mp4", "b.mp4", "z.mp4", "a.mp4", "k.mp4", "b2.mp4", "B.mp4", "10.mp4", "9.mp4"];
    let entries: Vec<DirectoryEntry> = names.iter().map(|n| file(n)).collect();
    let all: Vec<usize> = (0..entries.len()).collect();
    let mut expected = all.clone();
    expected.sort_by(|a, b| {
        std::path::Path::new(&entries[*a].path).cmp(std::path::Path::new(&entries[*b].path))
    });
    assert_eq!(sort_by_path(&entries, &all, SortOrder::Ascending), expected);
    let mut expected = all.clone();
    expected.sort_by(|a, b| {
        std::path::Path::new(&entries[*b].path).cmp(std::path::Path::new(&entries[*a].path))
    });
    assert_eq!(sort_by_path(&entries, &all, SortOrder::Descending), expected);
}

#[test]
fn selection_in_order_filters_then_sorts() {
    let entries = vec![
        file("c.mp4"),
        file("a.srt"),
        dir("b.mp4"),
        file("a.mp4"),
        file("README"),
        file("b.mp4"),
    ];
    let ext = "mp4".to_string();
    assert_eq!(select_in_order(&entries, &ext, SortOrder::Ascending), vec![3, 5, 0]);
    assert_eq!(select_in_order(&entries, &ext, SortOrder::Descending), vec![0, 5, 3]);
}

#[test]
fn descending_is_the_reverse_of_ascending() {
    let names = ["e03.mkv", "e01.mkv", "e05.mkv", "e02.mkv", "e04.mkv"];
    let entries: Vec<DirectoryEntry> = names.iter().map(|n| file(n)).collect();
    let ext = "mkv".to_string();
    let up = select_in_order(&entries, &ext, SortOrder::Ascending);
    let mut down = select_in_order(&entries, &ext, SortOrder::Descending);
    down.reverse();
    assert_eq!(up, vec![1, 3, 0, 4, 2]);
    assert_eq!(down, up);
}

#[test]
fn descending_is_not_the_reverse_where_paths_repeat() {
    let entries = vec![at("/tv/same.mp4", "one.mp4"), at("/tv/same.mp4", "two.mp4")];
    let ext = "mp4".to_string();
    let up = select_in_order(&entries, &ext, SortOrder::Ascending);
    let down = select_in_order(&entries, &ext, SortOrder::Descending);
    assert_eq!(up, vec![0, 1]);
    assert_eq!(down, vec![0, 1]);
}
