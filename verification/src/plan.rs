//! The renames of a run: each selected file with its episode number and
//! its new name.
use crate::config::{ConfigView, RunConfig, SortOrder};
use crate::detect::occurrences;
use crate::entry::{listing, DirectoryEntry, EntryView};
use crate::naming::{canonical_name, episode_file_name};
use crate::order::lex_le;
use crate::select::{
    is_ordered_selection, lemma_ordered_selection, lemma_ordered_selection_is, ordered_selection,
    precedes, select_in_order,
};
use vstd::prelude::*;
use vstd::utf8::encode_utf8_decode_utf8;

verus! {

/// One planned rename.
#[derive(Debug, PartialEq, Eq)]
pub struct RenamePlan {
    /// The position of the file in the listing.
    pub source: usize,
    /// The name that the file has.
    pub old_name: String,
    /// The episode number of the file, counted from 1.
    pub episode: usize,
    /// The name that the file is to get.
    pub new_name: String,
}

/// What a [`RenamePlan`] holds, as plain mathematical values.
pub struct PlanView {
    pub source: nat,
    pub old_name: Seq<char>,
    pub episode: nat,
    pub new_name: Seq<char>,
}

impl View for RenamePlan {
    type V = PlanView;

    open spec fn view(&self) -> PlanView {
        PlanView {
            source: self.source as nat,
            old_name: self.old_name@,
            episode: self.episode as nat,
            new_name: self.new_name@,
        }
    }
}

impl Clone for RenamePlan {
    fn clone(&self) -> (r: Self)
        ensures
            r@ == self@,
    {
        RenamePlan {
            source: self.source,
            old_name: self.old_name.clone(),
            episode: self.episode,
            new_name: self.new_name.clone(),
        }
    }
}

/// The views of a sequence of plans.
pub open spec fn plan_views(plans: Seq<RenamePlan>) -> Seq<PlanView> {
    plans.map_values(|p: RenamePlan| p@)
}

/// Entry `i` of `entries` exists and is a file with the extension `ext`.
pub open spec fn is_candidate(entries: Seq<EntryView>, ext: Seq<char>, i: usize) -> bool {
    i < entries.len() && entries[i as int].is_file_with(ext)
}

/// The positions of `sequence` that hold a file with the extension `ext`,
/// in the order of `sequence`.
pub open spec fn candidates(entries: Seq<EntryView>, ext: Seq<char>, sequence: Seq<usize>) -> Seq<
    usize,
> {
    sequence.filter(|i: usize| is_candidate(entries, ext, i))
}

/// The plans for the files at the positions `sequence`: the file at
/// position `k` of the sequence is episode `k + 1` and gets the canonical
/// name of that episode.
pub open spec fn numbered(
    entries: Seq<EntryView>,
    sequence: Seq<usize>,
    config: ConfigView,
) -> Seq<PlanView> {
    Seq::new(
        sequence.len(),
        |k: int|
            PlanView {
                source: sequence[k] as nat,
                old_name: entries[sequence[k] as int].file_name,
                episode: (k + 1) as nat,
                new_name: canonical_name(
                    config.name,
                    config.season as nat,
                    (k + 1) as nat,
                    config.ext,
                ),
            },
    )
}

/// The plans of a run on `entries`: the ordered selection of the
/// extension, numbered.
pub open spec fn planned(entries: Seq<EntryView>, config: ConfigView) -> Seq<PlanView> {
    numbered(entries, ordered_selection(entries, config.ext, config.order), config)
}

/// Taking the candidates of one more position.
pub proof fn lemma_candidates_push(
    entries: Seq<EntryView>,
    ext: Seq<char>,
    sequence: Seq<usize>,
    i: usize,
)
    ensures
        candidates(entries, ext, sequence.push(i)) == if is_candidate(entries, ext, i) {
            candidates(entries, ext, sequence).push(i)
        } else {
            candidates(entries, ext, sequence)
        },
{
    reveal(Seq::filter);
    assert(sequence.push(i).drop_last() =~= sequence);
}

/// Where every position of `sequence` holds a file with the extension,
/// all of them are candidates.
pub proof fn lemma_all_candidates(entries: Seq<EntryView>, ext: Seq<char>, sequence: Seq<usize>)
    requires
        forall|k: int|
            0 <= k < sequence.len() ==> is_candidate(entries, ext, #[trigger] sequence[k]),
    ensures
        candidates(entries, ext, sequence) == sequence,
    decreases sequence.len(),
{
    if sequence.len() == 0 {
        reveal(Seq::filter);
        assert(candidates(entries, ext, sequence) =~= sequence);
    } else {
        let rest = sequence.drop_last();
        assert forall|k: int| 0 <= k < rest.len() implies is_candidate(
            entries,
            ext,
            #[trigger] rest[k],
        ) by {
            assert(rest[k] == sequence[k]);
        }
        lemma_all_candidates(entries, ext, rest);
        lemma_candidates_push(entries, ext, rest, sequence.last());
        assert(rest.push(sequence.last()) =~= sequence);
    }
}

/// One of `plans` is for the file at position `i` of the listing.
pub open spec fn has_plan(plans: Seq<PlanView>, i: int) -> bool {
    exists|k: int| 0 <= k < plans.len() && (#[trigger] plans[k]).source == i
}

/// What the plans of a run are: there is one for each file with the
/// extension, and for no other entry; the episode numbers rise from 1
/// without a gap; each file has the canonical name of its episode; and
/// each file stands before those that it precedes.
pub proof fn lemma_planned(entries: Seq<EntryView>, config: ConfigView)
    requires
        entries.len() <= usize::MAX,
    ensures
        planned(entries, config).len() == occurrences(entries, config.ext),
        forall|k: int|
            0 <= k < planned(entries, config).len() ==> {
                let plan = #[trigger] planned(entries, config)[k];
                &&& plan.episode == k + 1
                &&& plan.source < entries.len()
                &&& entries[plan.source as int].is_file_with(config.ext)
                &&& plan.old_name == entries[plan.source as int].file_name
                &&& plan.new_name == canonical_name(
                    config.name,
                    config.season as nat,
                    plan.episode,
                    config.ext,
                )
            },
        forall|a: int, b: int|
            0 <= a < b < planned(entries, config).len() ==> precedes(
                entries,
                config.order,
                (#[trigger] planned(entries, config)[a]).source as int,
                (#[trigger] planned(entries, config)[b]).source as int,
            ),
        forall|i: int|
            0 <= i < entries.len() && (#[trigger] entries[i]).is_file_with(config.ext)
                ==> has_plan(planned(entries, config), i),
{
    let sequence = ordered_selection(entries, config.ext, config.order);
    let plans = planned(entries, config);
    lemma_ordered_selection(entries, config.ext, config.order);
    assert forall|i: int|
        0 <= i < entries.len() && (#[trigger] entries[i]).is_file_with(
            config.ext,
        ) implies has_plan(plans, i) by {
        let k = choose|k: int| 0 <= k < sequence.len() && sequence[k] == i;
        assert(plans[k].source == i);
    }
}

/// Where every entry is a file with the extension, each occurs.
pub proof fn lemma_all_occur(entries: Seq<EntryView>, ext: Seq<char>)
    requires
        forall|i: int| 0 <= i < entries.len() ==> (#[trigger] entries[i]).is_file_with(ext),
    ensures
        occurrences(entries, ext) == entries.len(),
    decreases entries.len(),
{
    if entries.len() > 0 {
        let rest = entries.drop_last();
        assert forall|i: int| 0 <= i < rest.len() implies (#[trigger] rest[i]).is_file_with(
            ext,
        ) by {
            assert(rest[i] == entries[i]);
        }
        lemma_all_occur(rest, ext);
    }
}

/// A directory of `N` files that share one extension, in ascending order:
/// every file is planned, the episode numbers are `1 ..= N`, and they are
/// given in rising order of the paths.
pub proof fn lemma_one_extension_ascending(entries: Seq<EntryView>, config: ConfigView)
    requires
        entries.len() <= usize::MAX,
        forall|i: int| 0 <= i < entries.len() ==> (#[trigger] entries[i]).is_file_with(config.ext),
        config.order == SortOrder::Ascending,
    ensures
        planned(entries, config).len() == entries.len(),
        forall|k: int|
            0 <= k < entries.len() ==> (#[trigger] planned(entries, config)[k]).episode == k + 1,
        forall|a: int, b: int|
            0 <= a < b < entries.len() ==> lex_le(
                entries[(#[trigger] planned(entries, config)[a]).source as int].key(),
                entries[(#[trigger] planned(entries, config)[b]).source as int].key(),
            ),
        forall|i: int| 0 <= i < entries.len() ==> #[trigger] has_plan(planned(entries, config), i),
{
    lemma_planned(entries, config);
    lemma_all_occur(entries, config.ext);
    let plans = planned(entries, config);
    assert forall|i: int| 0 <= i < entries.len() implies #[trigger] has_plan(plans, i) by {
        assert(entries[i].is_file_with(config.ext));
    }
    assert forall|a: int, b: int| 0 <= a < b < entries.len() implies lex_le(
        entries[(#[trigger] plans[a]).source as int].key(),
        entries[(#[trigger] plans[b]).source as int].key(),
    ) by {
        assert(precedes(entries, config.order, plans[a].source as int, plans[b].source as int));
    }
}

/// Two files with different paths have different sort keys.
pub proof fn lemma_key_of_path(a: EntryView, b: EntryView)
    ensures
        a.key() == b.key() <==> a.path == b.path,
{
    encode_utf8_decode_utf8(a.path);
    encode_utf8_decode_utf8(b.path);
}

/// The files with the extension `ext` have paths that differ from each
/// other.
pub open spec fn distinct_paths(entries: Seq<EntryView>, ext: Seq<char>) -> bool {
    forall|i: int, j: int|
        0 <= i < j < entries.len() && (#[trigger] entries[i]).is_file_with(ext)
            && (#[trigger] entries[j]).is_file_with(ext) ==> entries[i].path != entries[j].path
}

/// Reversing the direction reverses the order of the files, where their
/// paths differ from each other.
pub proof fn lemma_reversed_selection(entries: Seq<EntryView>, ext: Seq<char>, order: SortOrder)
    requires
        entries.len() <= usize::MAX,
        distinct_paths(entries, ext),
    ensures
        ordered_selection(entries, ext, order.reversed()) == ordered_selection(
            entries,
            ext,
            order,
        ).reverse(),
{
    let forward = ordered_selection(entries, ext, order);
    let backward = forward.reverse();
    let n = forward.len() as int;
    lemma_ordered_selection(entries, ext, order);
    assert forall|a: int, b: int| 0 <= a < b < n implies precedes(
        entries,
        order.reversed(),
        #[trigger] backward[a] as int,
        #[trigger] backward[b] as int,
    ) by {
        let i = forward[n - 1 - a] as int;
        let j = forward[n - 1 - b] as int;
        assert(precedes(entries, order, j, i));
        assert(entries[i].is_file_with(ext) && entries[j].is_file_with(ext));
        lemma_key_of_path(entries[i], entries[j]);
        if i == j {
            crate::select::lemma_precedes_asymmetric(entries, order, i, j);
        }
    }
    assert forall|i: int|
        0 <= i < entries.len() && (#[trigger] entries[i]).is_file_with(ext) implies exists|k: int|
        0 <= k < backward.len() && backward[k] == i by {
        let k = choose|k: int| 0 <= k < forward.len() && forward[k] == i;
        assert(backward[n - 1 - k] == i);
    }
    assert(is_ordered_selection(entries, ext, order.reversed(), backward));
    lemma_ordered_selection_is(entries, ext, order.reversed(), backward);
}

/// Reversing the direction of a run gives each file the number that, in
/// the other direction, the file at the mirrored place has: the file that
/// was first is last, and so on. It holds where the paths of the files
/// differ from each other.
pub proof fn lemma_reversed_plans(entries: Seq<EntryView>, config: ConfigView, opposite: ConfigView)
    requires
        entries.len() <= usize::MAX,
        distinct_paths(entries, config.ext),
        opposite == (ConfigView { order: config.order.reversed(), ..config }),
    ensures
        planned(entries, opposite).len() == planned(entries, config).len(),
        forall|k: int|
            0 <= k < planned(entries, config).len() ==> (#[trigger] planned(
                entries,
                opposite,
            )[k]).source == planned(entries, config)[planned(entries, config).len() - 1 - k].source,
{
    lemma_reversed_selection(entries, config.ext, config.order);
}

/// Numbers the files at the positions `sequence`, in that order, and gives
/// each its canonical name. A position that holds a directory, a file with
/// another extension than that of `config`, or nothing at all is passed
/// over and takes no number.
pub fn number(entries: &[DirectoryEntry], sequence: &[usize], config: &RunConfig) -> (plans: Vec<
    RenamePlan,
>)
    ensures
        plan_views(plans@) == numbered(
            listing(entries@),
            candidates(listing(entries@), config.ext@, sequence@),
            config@,
        ),
{
    let ghost all = listing(entries@);
    let mut plans: Vec<RenamePlan> = Vec::new();
    let mut k: usize = 0;
    while k < sequence.len()
        invariant
            k <= sequence.len(),
            all == listing(entries@),
            plans.len() <= k,
            plan_views(plans@) == numbered(
                all,
                candidates(all, config.ext@, sequence@.take(k as int)),
                config@,
            ),
        decreases sequence.len() - k,
    {
        let i: usize = sequence[k];
        let ghost before = candidates(all, config.ext@, sequence@.take(k as int));
        proof {
            lemma_candidates_push(all, config.ext@, sequence@.take(k as int), i);
            assert(sequence@.take(k as int).push(i) =~= sequence@.take(k + 1));
        }
        if i < entries.len() && entries[i].is_file_with(&config.ext) {
            let ghost earlier = plans@;
            assert(plan_views(earlier).len() == before.len());
            let episode: usize = plans.len() + 1;
            let new_name = episode_file_name(
                config.name.as_str(),
                config.season,
                episode,
                config.ext.as_str(),
            );
            let old_name = entries[i].file_name.clone();
            plans.push(RenamePlan { source: i, old_name, episode, new_name });
            proof {
                let next = numbered(all, before.push(i), config@);
                assert forall|j: int| 0 <= j < next.len() implies plan_views(plans@)[j]
                    == next[j] by {
                    if j < earlier.len() {
                        assert(plan_views(earlier)[j] == numbered(all, before, config@)[j]);
                        assert(before.push(i)[j] == before[j]);
                    }
                }
                assert(plan_views(plans@) =~= next);
            }
        }
        k += 1;
    }
    assert(sequence@.take(k as int) =~= sequence@);
    plans
}

/// The renames of a run on `entries`: the files with the extension of
/// `config`, ordered by path in the direction of `config`, each with its
/// episode number, counted from 1 without a gap, and its canonical name.
pub fn plan(entries: &[DirectoryEntry], config: &RunConfig) -> (plans: Vec<RenamePlan>)
    ensures
        plan_views(plans@) == planned(listing(entries@), config@),
{
    let sequence = select_in_order(entries, &config.ext, config.order);
    proof {
        lemma_all_candidates(listing(entries@), config.ext@, sequence@);
    }
    number(entries, sequence.as_slice(), config)
}

} // verus!
