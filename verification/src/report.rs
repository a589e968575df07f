//! What a run does: the lines it writes and the renames it performs.
use crate::config::{Args, ArgsView, Mode, RunConfig, resolved};
use crate::detect::{
    detect_ext, lemma_most_used, lemma_no_extension, lemma_only_extension, most_used_extension,
};
use crate::entry::{listing, DirectoryEntry, EntryView};
use crate::naming::canonical_name;
use crate::order::lex_le;
use crate::plan::{
    distinct_paths, lemma_one_extension_ascending, lemma_planned, lemma_reversed_plans, plan,
    plan_views, planned, PlanView, RenamePlan,
};
use vstd::prelude::*;
use vstd::string::StringExecFns;

verus! {

/// The line that shows a rename without performing it.
pub open spec fn preview_text(old_name: Seq<char>, new_name: Seq<char>) -> Seq<char> {
    old_name + " => "@ + new_name
}

/// The line that reports a rename that was performed.
pub open spec fn renamed_text(old_name: Seq<char>, new_name: Seq<char>) -> Seq<char> {
    "Renamed: "@ + old_name + " => "@ + new_name
}

/// The line that reports a rename that failed, with its cause.
pub open spec fn rename_failed_text(cause: Seq<char>) -> Seq<char> {
    "Failed to rename: "@ + cause
}

/// The line that reports that the directory does not exist.
pub open spec fn path_not_found_text(path: Seq<char>) -> Seq<char> {
    "The path does not exist, path["@ + path + "]"@
}

/// The line that reports that the directory could not be listed.
pub open spec fn unreadable_text() -> Seq<char> {
    "Failed to read directory!"@
}

/// The line that announces the detection of the extension.
pub open spec fn detecting_text() -> Seq<char> {
    "No specified file extension, than detect the most used extension."@
}

/// A text as its `Debug` form shows it: between double quotes, with
/// escapes where the text needs them.
pub uninterp spec fn quoted(text: Seq<char>) -> Seq<char>;

/// The line that tells which extension was detected.
pub open spec fn detected_text(ext: Seq<char>) -> Seq<char> {
    "Got the most used extension: "@ + quoted(ext)
}

/// Formats `text` as `{:?}` does, that is with `<str as core::fmt::Debug>::fmt`
/// of the standard library. Trusted: the contract only gives the result its
/// name, `quoted`, which says that it depends on the text alone. Nothing is
/// claimed of what it holds.
#[verifier::external_body]
fn debug_string(text: &str) -> (r: String)
    ensures
        r@ == quoted(text@),
{
    format!("{:?}", text)
}

/// One step of a run.
#[derive(Debug, PartialEq, Eq)]
pub enum Action {
    /// Write the line to the standard output.
    Print(String),
    /// Write the line to the standard error.
    PrintError(String),
    /// Rename the file inside its directory, then report the outcome.
    Rename(RenamePlan),
}

/// What an [`Action`] holds, as plain mathematical values.
pub enum ActionView {
    Print(Seq<char>),
    PrintError(Seq<char>),
    Rename(PlanView),
}

impl View for Action {
    type V = ActionView;

    open spec fn view(&self) -> ActionView {
        match self {
            Action::Print(line) => ActionView::Print(line@),
            Action::PrintError(line) => ActionView::PrintError(line@),
            Action::Rename(plan) => ActionView::Rename(plan@),
        }
    }
}

/// The views of a sequence of actions.
pub open spec fn action_views(actions: Seq<Action>) -> Seq<ActionView> {
    actions.map_values(|a: Action| a@)
}

/// What came of listing the directory.
#[derive(Debug, PartialEq, Eq)]
pub enum Listing {
    /// The directory does not exist.
    Missing,
    /// The directory exists and could not be listed.
    Unreadable,
    /// The entries of the directory that could be read.
    Entries(Vec<DirectoryEntry>),
}

/// What a [`Listing`] holds, as plain mathematical values.
pub enum ListingView {
    Missing,
    Unreadable,
    Entries(Seq<EntryView>),
}

impl View for Listing {
    type V = ListingView;

    open spec fn view(&self) -> ListingView {
        match self {
            Listing::Missing => ListingView::Missing,
            Listing::Unreadable => ListingView::Unreadable,
            Listing::Entries(entries) => ListingView::Entries(listing(entries@)),
        }
    }
}

/// The step for one plan: in a dry run a line that shows the rename, else
/// the rename itself.
pub open spec fn step_of(plan: PlanView, mode: Mode) -> ActionView {
    match mode {
        Mode::DryRun => ActionView::Print(preview_text(plan.old_name, plan.new_name)),
        Mode::Apply => ActionView::Rename(plan),
    }
}

/// The steps for a sequence of plans, one for each, in their order.
pub open spec fn steps_of(plans: Seq<PlanView>, mode: Mode) -> Seq<ActionView> {
    plans.map_values(|p: PlanView| step_of(p, mode))
}

/// The lines about the detection of the extension: none where an
/// extension was asked for; else the announcement, followed by the
/// extension that was found, if one was.
pub open spec fn notices_of(requested: Option<Seq<char>>, entries: Seq<EntryView>) -> Seq<
    ActionView,
> {
    match requested {
        Some(_) => Seq::empty(),
        None => match most_used_extension(entries) {
            Some(ext) => seq![
                ActionView::Print(detecting_text()),
                ActionView::Print(detected_text(ext)),
            ],
            None => seq![ActionView::Print(detecting_text())],
        },
    }
}

/// What a run does on a directory that was listed: the notices, then one
/// step for each planned rename.
pub open spec fn pipeline_actions(args: ArgsView, entries: Seq<EntryView>) -> Seq<ActionView> {
    notices_of(args.ext, entries) + steps_of(
        planned(entries, resolved(args, entries)),
        Mode::of_flag(args.rename),
    )
}

/// What a run does. On a directory that does not exist it reports that and
/// nothing else. On one that could not be listed it reports that and goes
/// on with no entries.
pub open spec fn run_actions(args: ArgsView, listing: ListingView) -> Seq<ActionView> {
    match listing {
        ListingView::Missing => seq![ActionView::PrintError(path_not_found_text(args.path))],
        ListingView::Unreadable => seq![ActionView::PrintError(unreadable_text())]
            + pipeline_actions(args, Seq::empty()),
        ListingView::Entries(entries) => pipeline_actions(args, entries),
    }
}

/// A run in ascending order on a directory of `N` files that share one
/// extension, be it asked for or detected: every file is planned, the
/// episode numbers are `1 ..= N`, they are given in rising order of the
/// paths, and each file gets the canonical name of its episode.
pub proof fn lemma_one_extension_run(args: ArgsView, entries: Seq<EntryView>, ext: Seq<char>)
    requires
        entries.len() <= usize::MAX,
        forall|i: int| 0 <= i < entries.len() ==> (#[trigger] entries[i]).is_file_with(ext),
        args.ext is None || args.ext == Some(ext),
        args.sort == 1,
    ensures
        planned(entries, resolved(args, entries)).len() == entries.len(),
        forall|k: int|
            0 <= k < entries.len() ==> {
                let plan = #[trigger] planned(entries, resolved(args, entries))[k];
                &&& plan.episode == k + 1
                &&& plan.new_name == canonical_name(
                    args.name,
                    args.season as nat,
                    (k + 1) as nat,
                    ext,
                )
            },
        forall|a: int, b: int|
            0 <= a < b < entries.len() ==> {
                let first = #[trigger] planned(entries, resolved(args, entries))[a];
                let second = #[trigger] planned(entries, resolved(args, entries))[b];
                lex_le(entries[first.source as int].key(), entries[second.source as int].key())
            },
{
    let config = resolved(args, entries);
    if entries.len() > 0 {
        lemma_only_extension(entries, ext);
    }
    lemma_one_extension_ascending(entries, config);
    lemma_planned(entries, config);
}

/// A run with another sort flag than `1` gives the files the numbers of a
/// run with the flag `1` in reverse: the file that was first is last, and
/// so on. It holds where the paths of the files differ from each other.
pub proof fn lemma_reversed_run(ascending: ArgsView, descending: ArgsView, entries: Seq<EntryView>)
    requires
        entries.len() <= usize::MAX,
        ascending.sort == 1,
        descending.sort != 1,
        descending == (ArgsView { sort: descending.sort, ..ascending }),
        distinct_paths(entries, resolved(ascending, entries).ext),
    ensures
        planned(entries, resolved(descending, entries)).len() == planned(
            entries,
            resolved(ascending, entries),
        ).len(),
        forall|k: int|
            0 <= k < planned(entries, resolved(ascending, entries)).len() ==> {
                let up = planned(entries, resolved(ascending, entries));
                let down = #[trigger] planned(entries, resolved(descending, entries))[k];
                down.source == up[up.len() - 1 - k].source
            },
{
    lemma_reversed_plans(
        entries,
        resolved(ascending, entries),
        resolved(descending, entries),
    );
}

/// A dry run renames nothing: each of its actions writes a line.
pub proof fn lemma_dry_run_renames_nothing(args: ArgsView, listing: ListingView)
    requires
        args.rename == 0,
    ensures
        forall|k: int|
            0 <= k < run_actions(args, listing).len() ==> !(#[trigger] run_actions(
                args,
                listing,
            )[k] is Rename),
{
}

/// On a directory that does not exist a run writes one line to the
/// standard error, which says so, and does nothing else.
pub proof fn lemma_missing_directory(args: ArgsView)
    ensures
        run_actions(args, ListingView::Missing) == seq![
            ActionView::PrintError(path_not_found_text(args.path)),
        ],
{
}

/// A run that is to perform the renames has, behind its notices, one
/// rename for each plan, in the order of the plans.
pub proof fn lemma_apply_renames_each(args: ArgsView, entries: Seq<EntryView>)
    requires
        args.rename != 0,
    ensures
        pipeline_actions(args, entries).len() == notices_of(args.ext, entries).len() + planned(
            entries,
            resolved(args, entries),
        ).len(),
        forall|k: int|
            0 <= k < planned(entries, resolved(args, entries)).len() ==> {
                let step = pipeline_actions(args, entries)[notices_of(args.ext, entries).len() + k];
                step == ActionView::Rename(#[trigger] planned(entries, resolved(args, entries))[k])
            },
{
}

/// Where no extension is asked for and none is detected, nothing is
/// planned.
pub proof fn lemma_nothing_detected(args: ArgsView, entries: Seq<EntryView>)
    requires
        entries.len() <= usize::MAX,
        args.ext is None,
        most_used_extension(entries) is None,
    ensures
        planned(entries, resolved(args, entries)).len() == 0,
{
    lemma_most_used(entries);
    lemma_no_extension(entries);
    lemma_planned(entries, resolved(args, entries));
}

/// On a directory that could not be listed a run reports that, and plans
/// nothing.
pub proof fn lemma_unreadable_directory(args: ArgsView)
    ensures
        run_actions(args, ListingView::Unreadable)[0] == ActionView::PrintError(unreadable_text()),
        planned(Seq::empty(), resolved(args, Seq::empty())).len() == 0,
{
    lemma_planned(Seq::empty(), resolved(args, Seq::empty()));
}

/// The line that shows the rename of `plan` without performing it.
pub fn preview_line(plan: &RenamePlan) -> (line: String)
    ensures
        line@ == preview_text(plan@.old_name, plan@.new_name),
{
    let mut line = plan.old_name.clone();
    line.append(" => ");
    line.append(plan.new_name.as_str());
    line
}

/// The line that reports that the rename of `plan` was performed.
pub fn renamed_line(plan: &RenamePlan) -> (line: String)
    ensures
        line@ == renamed_text(plan@.old_name, plan@.new_name),
{
    let mut line = String::from_str("Renamed: ");
    line.append(plan.old_name.as_str());
    line.append(" => ");
    line.append(plan.new_name.as_str());
    line
}

/// The line that reports that a rename failed for the reason `cause`.
pub fn rename_failed_line(cause: &str) -> (line: String)
    ensures
        line@ == rename_failed_text(cause@),
{
    let mut line = String::from_str("Failed to rename: ");
    line.append(cause);
    line
}

/// The line that reports that the directory `path` does not exist.
pub fn path_not_found_line(path: &str) -> (line: String)
    ensures
        line@ == path_not_found_text(path@),
{
    let mut line = String::from_str("The path does not exist, path[");
    line.append(path);
    line.append("]");
    line
}

/// The line that tells that the extension `ext` was detected.
pub fn detected_line(ext: &str) -> (line: String)
    ensures
        line@ == detected_text(ext@),
{
    let mut line = String::from_str("Got the most used extension: ");
    line.append(debug_string(ext).as_str());
    line
}

/// The report on the rename of `plan`: on success a line for the standard
/// output, on failure a line with the cause for the standard error.
pub fn rename_report(plan: &RenamePlan, outcome: &Result<(), String>) -> (report: Action)
    ensures
        report@ == match outcome {
            Ok(_) => ActionView::Print(renamed_text(plan@.old_name, plan@.new_name)),
            Err(cause) => ActionView::PrintError(rename_failed_text(cause@)),
        },
{
    match outcome {
        Ok(_) => Action::Print(renamed_line(plan)),
        Err(cause) => Action::PrintError(rename_failed_line(cause.as_str())),
    }
}

/// Appends to `actions` the step for each plan: in a dry run a line that
/// shows the rename, else the rename itself.
pub fn push_steps(actions: &mut Vec<Action>, plans: &[RenamePlan], mode: Mode)
    ensures
        action_views(final(actions)@) == action_views(old(actions)@) + steps_of(
            plan_views(plans@),
            mode,
        ),
{
    let ghost start = action_views(actions@);
    let mut k: usize = 0;
    while k < plans.len()
        invariant
            k <= plans.len(),
            action_views(actions@) == start + steps_of(plan_views(plans@.take(k as int)), mode),
        decreases plans.len() - k,
    {
        let ghost before = action_views(actions@);
        let step = match mode {
            Mode::DryRun => Action::Print(preview_line(&plans[k])),
            Mode::Apply => Action::Rename(plans[k].clone()),
        };
        actions.push(step);
        proof {
            assert(plans@.take(k + 1) =~= plans@.take(k as int).push(plans[k as int]));
            assert(action_views(actions@) =~= before.push(step_of(plans[k as int]@, mode)));
            assert(steps_of(plan_views(plans@.take(k + 1)), mode) =~= steps_of(
                plan_views(plans@.take(k as int)),
                mode,
            ).push(step_of(plans[k as int]@, mode)));
        }
        k += 1;
    }
    assert(plans@.take(k as int) =~= plans@);
}

/// Appends to `actions` what a run does on the entries of a directory.
fn push_pipeline(actions: &mut Vec<Action>, args: &Args, entries: &[DirectoryEntry])
    ensures
        action_views(final(actions)@) == action_views(old(actions)@) + pipeline_actions(
            args@,
            listing(entries@),
        ),
{
    let ghost start = action_views(actions@);
    let ext = match &args.ext {
        Some(ext) => ext.clone(),
        None => {
            actions.push(
                Action::Print(
                    String::from_str(
                        "No specified file extension, than detect the most used extension.",
                    ),
                ),
            );
            match detect_ext(entries) {
                Some(ext) => {
                    actions.push(Action::Print(detected_line(ext.as_str())));
                    ext
                },
                None => String::new(),
            }
        },
    };
    assert(action_views(actions@) =~= start + notices_of(args@.ext, listing(entries@)));
    let config = RunConfig::with_extension(args, ext);
    assert(config@ == resolved(args@, listing(entries@)));
    let plans = plan(entries, &config);
    push_steps(actions, plans.as_slice(), config.mode);
}

/// What a run with the parameters `args` does, given what came of listing
/// the directory: the lines to write and the renames to perform, in their
/// order. The caller carries them out, and reports each rename with
/// [`rename_report`]; a rename that fails does not stop the others.
pub fn run(args: &Args, listing: &Listing) -> (actions: Vec<Action>)
    ensures
        action_views(actions@) == run_actions(args@, listing@),
{
    let mut actions: Vec<Action> = Vec::new();
    match listing {
        Listing::Missing => {
            actions.push(Action::PrintError(path_not_found_line(args.path.as_str())));
            assert(action_views(actions@) =~= run_actions(args@, listing@));
        },
        Listing::Unreadable => {
            actions.push(Action::PrintError(String::from_str("Failed to read directory!")));
            let none: Vec<DirectoryEntry> = Vec::new();
            assert(action_views(actions@) =~= seq![ActionView::PrintError(unreadable_text())]);
            assert(crate::entry::listing(none@) =~= Seq::<EntryView>::empty());
            push_pipeline(&mut actions, args, none.as_slice());
        },
        Listing::Entries(entries) => {
            assert(action_views(actions@) =~= Seq::<ActionView>::empty());
            push_pipeline(&mut actions, args, entries.as_slice());
        },
    }
    actions
}

} // verus!
