use tv_rename::config::{Args, Mode};
use tv_rename::entry::DirectoryEntry;
use tv_rename::plan::RenamePlan;
use tv_rename::report::{
    detected_line, path_not_found_line, preview_line, push_steps, rename_failed_line,
    rename_report, renamed_line, run, Action, Listing,
};

fn file(name: &str) -> DirectoryEntry {
    DirectoryEntry::new(format!("/tv/{}", name), name.to_string(), false)
}

fn args(ext: Option<&str>, season: u8, sort: u8, rename: u8) -> Args {
    Args {
        path: "/tv".to_string(),
        name: "Show".to_string(),
        ext: ext.map(|e| e.to_string()),
        season,
        sort,
        rename,
    }
}

fn a_plan() -> RenamePlan {
    RenamePlan {
        source: 0,
        old_name: "old name.mp4".to_string(),
        episode: 1,
        new_name: "Show.S01E01.mp4".to_string(),
    }
}

fn print(line: &str) -> Action {
    Action::Print(line.to_string())
}

#[test]
fn the_preview_line() {
    assert_eq!(preview_line(&a_plan()), "old name.mp4 => Show.S01E01.mp4");
}

#[test]
fn the_renamed_line() {
    assert_eq!(renamed_line(&a_plan()), "Renamed: old name.mp4 => Show.S01E01.mp4");
}

#[test]
fn the_rename_failed_line() {
    assert_eq!(
        rename_failed_line("File exists (os error 17)"),
        "Failed to rename: File exists (os error 17)"
    );
}

#[test]
fn the_path_not_found_line() {
    assert_eq!(path_not_found_line("/no/such/dir"), "The path does not exist, path[/no/such/dir]");
}

#[test]
fn the_detected_line_quotes_the_extension() {
    assert_eq!(detected_line("mp4"), "Got the most used extension: \"mp4\"");
    assert_eq!(detected_line(""), "Got the most used extension: \"\"");
}

#[test]
fn the_detected_line_escapes_what_needs_it() {
    assert_eq!(detected_line("a\"b"), "Got the most used extension: \"a\\\"b\"");
    assert_eq!(detected_line("a\\b"), "Got the most used extension: \"a\\\\b\"");
    assert_eq!(detected_line("a\nb"), "Got the most used extension: \"a\\nb\"");
}

#[test]
fn a_rename_that_succeeded_is_reported_to_the_output() {
    assert_eq!(
        rename_report(&a_plan(), &Ok(())),
        print("Renamed: old name.mp4 => Show.S01E01.mp4")
    );
}

#[test]
fn a_rename_that_failed_is_reported_to_the_error_stream() {
    assert_eq!(
        rename_report(&a_plan(), &Err("File exists (os error 17)".to_string())),
        Action::PrintError("Failed to rename: File exists (os error 17)".to_string())
    );
}

#[test]
fn a_missing_directory_is_reported_and_nothing_else_is_done() {
    for rename in [0, 1] {
        assert_eq!(
            run(&args(None, 1, 1, rename), &Listing::Missing),
            vec![Action::PrintError("The path does not exist, path[/tv]".to_string())]
        );
        assert_eq!(
            run(&args(Some("mp4"), 1, 1, rename), &Listing::Missing),
            vec![Action::PrintError("The path does not exist, path[/tv]".to_string())]
        );
    }
}

#[test]
fn an_unreadable_directory_is_reported_and_the_run_goes_on_with_nothing() {
    assert_eq!(
        run(&args(Some("mp4"), 1, 1, 1), &Listing::Unreadable),
        vec![Action::PrintError("Failed to read directory!".to_string())]
    );
    assert_eq!(
        run(&args(None, 1, 1, 1), &Listing::Unreadable),
        vec![
            Action::PrintError("Failed to read directory!".to_string()),
            print("No specified file extension, than detect the most used extension."),
        ]
    );
}

#[test]
fn a_dry_run_shows_the_renames() {
    let entries = vec![file("b.mp4"), file("a.mp4"), file("a.srt")];
    assert_eq!(
        run(&args(Some("mp4"), 2, 1, 0), &Listing::Entries(entries)),
        vec![print("a.mp4 => Show.S02E01.mp4"), print("b.mp4 => Show.S02E02.mp4")]
    );
}

#[test]
fn a_dry_run_renames_nothing() {
    let entries = vec![file("b.mp4"), file("a.mp4"), file("c.mp4"), file("a.srt")];
    for sort in [0, 1, 2] {
        for ext in [None, Some("mp4"), Some("srt"), Some("mkv")] {
            let actions = run(&args(ext, 1, sort, 0), &Listing::Entries(entries.clone()));
            assert!(actions.iter().all(|a| matches!(a, Action::Print(_))));
        }
    }
}

#[test]
fn a_run_that_applies_renames_each_file() {
    let entries = vec![file("b.mp4"), file("a.mp4"), file("a.srt")];
    assert_eq!(
        run(&args(Some("mp4"), 2, 1, 1), &Listing::Entries(entries)),
        vec![
            Action::Rename(RenamePlan {
                source: 1,
                old_name: "a.mp4".to_string(),
                episode: 1,
                new_name: "Show.S02E01.mp4".to_string(),
            }),
            Action::Rename(RenamePlan {
                source: 0,
                old_name: "b.mp4".to_string(),
                episode: 2,
                new_name: "Show.S02E02.mp4".to_string(),
            }),
        ]
    );
}

#[test]
fn a_run_in_descending_order() {
    let entries = vec![file("b.mp4"), file("a.mp4"), file("c.mp4")];
    assert_eq!(
        run(&args(Some("mp4"), 1, 2, 0), &Listing::Entries(entries)),
        vec![
            print("c.mp4 => Show.S01E01.mp4"),
            print("b.mp4 => Show.S01E02.mp4"),
            print("a.mp4 => Show.S01E03.mp4"),
        ]
    );
}

#[test]
fn every_sort_flag_but_one_descends() {
    let entries = vec![file("b.mp4"), file("a.mp4"), file("c.mp4")];
    let expected = vec![
        print("c.mp4 => Show.S01E01.mp4"),
        print("b.mp4 => Show.S01E02.mp4"),
        print("a.mp4 => Show.S01E03.mp4"),
    ];
    for sort in [0, 2, 3, 255] {
        assert_eq!(
            run(&args(Some("mp4"), 1, sort, 0), &Listing::Entries(entries.clone())),
            expected
        );
    }
}

#[test]
fn a_run_announces_the_detection() {
    let entries = vec![file("b.mp4"), file("a.srt"), file("a.mp4"), file("c.mp4")];
    assert_eq!(
        run(&args(None, 1, 1, 0), &Listing::Entries(entries)),
        vec![
            print("No specified file extension, than detect the most used extension."),
            print("Got the most used extension: \"mp4\""),
            print("a.mp4 => Show.S01E01.mp4"),
            print("b.mp4 => Show.S01E02.mp4"),
            print("c.mp4 => Show.S01E03.mp4"),
        ]
    );
}

#[test]
fn a_run_that_detects_nothing_renames_nothing() {
    let entries = vec![file("README"), file("notes"), file(".hidden")];
    for rename in [0, 1] {
        assert_eq!(
            run(&args(None, 1, 1, rename), &Listing::Entries(entries.clone())),
            vec![print("No specified file extension, than detect the most used extension.")]
        );
    }
}

#[test]
fn a_failed_rename_leaves_the_other_reports_as_they_are() {
    let entries = vec![file("a.mp4"), file("b.mp4"), file("c.mp4")];
    let actions = run(&args(Some("mp4"), 1, 1, 1), &Listing::Entries(entries));
    assert_eq!(actions.len(), 3);
    let outcomes = [Ok(()), Err("File exists (os error 17)".to_string()), Ok(())];
    let mut reports = Vec::new();
    for (action, outcome) in actions.iter().zip(outcomes.iter()) {
        match action {
            Action::Rename(plan) => reports.push(rename_report(plan, outcome)),
            other => panic!("unexpected action {:?}", other),
        }
    }
    assert_eq!(
        reports,
        vec![
            print("Renamed: a.mp4 => Show.S01E01.mp4"),
            Action::PrintError("Failed to rename: File exists (os error 17)".to_string()),
            print("Renamed: c.mp4 => Show.S01E03.mp4"),
        ]
    );
}

#[test]
fn steps_are_appended_behind_what_is_there() {
    let mut actions = vec![print("first")];
    push_steps(&mut actions, &[a_plan()], Mode::DryRun);
    assert_eq!(actions, vec![print("first"), print("old name.mp4 => Show.S01E01.mp4")]);
    push_steps(&mut actions, &[a_plan()], Mode::Apply);
    assert_eq!(
        actions,
        vec![
            print("first"),
            print("old name.mp4 => Show.S01E01.mp4"),
            Action::Rename(a_plan()),
        ]
    );
}
