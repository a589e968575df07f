//! Detection of the extension that a listing uses most.
use crate::entry::{listing, option_text, DirectoryEntry, EntryView};
use vstd::prelude::*;

verus! {

/// How many files of `entries` have the extension `ext`. Directories do not
/// count.
pub open spec fn occurrences(entries: Seq<EntryView>, ext: Seq<char>) -> nat
    decreases entries.len(),
{
    if entries.len() == 0 {
        0
    } else {
        occurrences(entries.drop_last(), ext) + if entries.last().is_file_with(ext) {
            1nat
        } else {
            0nat
        }
    }
}

/// The position of the first file of `entries` with the extension `ext`, or
/// `-1` where there is none.
pub open spec fn first_position(entries: Seq<EntryView>, ext: Seq<char>) -> int
    decreases entries.len(),
{
    if entries.len() == 0 {
        -1
    } else {
        let earlier = first_position(entries.drop_last(), ext);
        if earlier >= 0 {
            earlier
        } else if entries.last().is_file_with(ext) {
            entries.len() - 1
        } else {
            -1
        }
    }
}

/// `ext` is the extension that `entries` use most: some file has it, no
/// extension occurs more often, and every extension that occurs as often is
/// first met later in the listing.
pub open spec fn is_most_used(entries: Seq<EntryView>, ext: Seq<char>) -> bool {
    &&& first_position(entries, ext) >= 0
    &&& forall|j: int|
        0 <= j < entries.len() && (#[trigger] entries[j]).counted_extension() is Some ==> {
            let other = entries[j].counted_extension()->0;
            &&& occurrences(entries, other) <= occurrences(entries, ext)
            &&& occurrences(entries, other) == occurrences(entries, ext) ==> first_position(
                entries,
                ext,
            ) <= j
        }
}

/// The extension that `entries` use most, or `None` where no file has an
/// extension.
pub open spec fn most_used_extension(entries: Seq<EntryView>) -> Option<Seq<char>> {
    if exists|ext: Seq<char>| is_most_used(entries, ext) {
        Some(choose|ext: Seq<char>| is_most_used(entries, ext))
    } else {
        None
    }
}

/// No file of `entries` has an extension.
pub open spec fn no_extension(entries: Seq<EntryView>) -> bool {
    forall|j: int| 0 <= j < entries.len() ==> (#[trigger] entries[j]).counted_extension() is None
}

/// `first_position` is a position of `ext` that none precedes, and `-1`
/// only where `ext` does not occur.
pub proof fn lemma_first_position(entries: Seq<EntryView>, ext: Seq<char>)
    ensures
        -1 <= first_position(entries, ext) < entries.len(),
        first_position(entries, ext) >= 0 ==> entries[first_position(entries, ext)].is_file_with(
            ext,
        ),
        forall|j: int|
            0 <= j < entries.len() && (#[trigger] entries[j]).is_file_with(ext) ==> 0
                <= first_position(entries, ext) <= j,
        first_position(entries, ext) >= 0 <==> occurrences(entries, ext) > 0,
        occurrences(entries, ext) <= entries.len(),
    decreases entries.len(),
{
    if entries.len() > 0 {
        let rest = entries.drop_last();
        lemma_first_position(rest, ext);
        assert forall|j: int|
            0 <= j < entries.len() && (#[trigger] entries[j]).is_file_with(ext) implies 0
            <= first_position(entries, ext) <= j by {
            if j < rest.len() {
                assert(rest[j] == entries[j]);
            }
        }
        if first_position(rest, ext) >= 0 {
            assert(rest[first_position(rest, ext)] == entries[first_position(rest, ext)]);
        }
    }
}

/// A listing has at most one most used extension.
pub proof fn lemma_most_used_unique(entries: Seq<EntryView>, a: Seq<char>, b: Seq<char>)
    requires
        is_most_used(entries, a),
        is_most_used(entries, b),
    ensures
        a == b,
{
    lemma_first_position(entries, a);
    lemma_first_position(entries, b);
    let fa = first_position(entries, a);
    let fb = first_position(entries, b);
    assert(entries[fa].counted_extension() == Some(a));
    assert(entries[fb].counted_extension() == Some(b));
}

/// Where no file has an extension, none is the most used.
pub proof fn lemma_no_extension(entries: Seq<EntryView>)
    requires
        no_extension(entries),
    ensures
        most_used_extension(entries) is None,
        forall|ext: Seq<char>| occurrences(entries, ext) == 0,
{
    assert forall|ext: Seq<char>| occurrences(entries, ext) == 0 && !is_most_used(entries, ext) by {
        lemma_first_position(entries, ext);
        if first_position(entries, ext) >= 0 {
            assert(entries[first_position(entries, ext)].counted_extension() is Some);
        }
    }
}

/// The extension `a` wins over `b`: it occurs more often, or as often and
/// is first met no later.
pub open spec fn wins_over(entries: Seq<EntryView>, a: Seq<char>, b: Seq<char>) -> bool {
    occurrences(entries, a) > occurrences(entries, b) || (occurrences(entries, a) == occurrences(
        entries,
        b,
    ) && first_position(entries, a) <= first_position(entries, b))
}

/// The extension that wins over those of the first `m` entries, if any of
/// them is a file with an extension.
proof fn lemma_winner_among(entries: Seq<EntryView>, m: nat) -> (best: Option<Seq<char>>)
    requires
        m <= entries.len(),
    ensures
        match best {
            Some(ext) => first_position(entries, ext) >= 0 && forall|j: int|
                0 <= j < m && (#[trigger] entries[j]).counted_extension() is Some ==> wins_over(
                    entries,
                    ext,
                    entries[j].counted_extension()->0,
                ),
            None => forall|j: int|
                0 <= j < m ==> (#[trigger] entries[j]).counted_extension() is None,
        },
    decreases m,
{
    if m == 0 {
        None
    } else {
        let earlier = lemma_winner_among(entries, (m - 1) as nat);
        match entries[m - 1].counted_extension() {
            None => earlier,
            Some(other) => {
                assert(entries[m - 1].is_file_with(other));
                lemma_first_position(entries, other);
                match earlier {
                    None => Some(other),
                    Some(ext) => if wins_over(entries, ext, other) {
                        Some(ext)
                    } else {
                        Some(other)
                    },
                }
            },
        }
    }
}

/// `most_used_extension` is the most used extension of the listing: no
/// extension occurs more often. It is `None` only where no file has an
/// extension.
pub proof fn lemma_most_used(entries: Seq<EntryView>)
    ensures
        match most_used_extension(entries) {
            Some(ext) => is_most_used(entries, ext) && forall|other: Seq<char>|
                occurrences(entries, other) <= occurrences(entries, ext),
            None => no_extension(entries),
        },
{
    let best = lemma_winner_among(entries, entries.len());
    if best is Some {
        let ext = best->0;
        assert forall|j: int|
            0 <= j < entries.len() && (#[trigger] entries[j]).counted_extension() is Some implies {
            let other = entries[j].counted_extension()->0;
            &&& occurrences(entries, other) <= occurrences(entries, ext)
            &&& occurrences(entries, other) == occurrences(entries, ext) ==> first_position(
                entries,
                ext,
            ) <= j
        } by {
            let other = entries[j].counted_extension()->0;
            assert(entries[j].is_file_with(other));
            lemma_first_position(entries, other);
            assert(wins_over(entries, ext, other));
        }
        assert(is_most_used(entries, ext));
        lemma_most_used_unique(entries, ext, most_used_extension(entries)->0);
        assert forall|other: Seq<char>| occurrences(entries, other) <= occurrences(
            entries,
            ext,
        ) by {
            lemma_first_position(entries, other);
            if first_position(entries, other) >= 0 {
                assert(entries[first_position(entries, other)].counted_extension() == Some(
                    other,
                ));
            }
        }
    } else {
        lemma_no_extension(entries);
    }
}

/// Where every entry is a file with the extension `ext`, and there is one
/// at least, `ext` is the most used extension.
pub proof fn lemma_only_extension(entries: Seq<EntryView>, ext: Seq<char>)
    requires
        entries.len() > 0,
        forall|i: int| 0 <= i < entries.len() ==> (#[trigger] entries[i]).is_file_with(ext),
    ensures
        most_used_extension(entries) == Some(ext),
{
    lemma_most_used(entries);
    assert(entries[0].is_file_with(ext));
    if most_used_extension(entries) is Some {
        let found = most_used_extension(entries)->0;
        lemma_first_position(entries, found);
        assert(entries[first_position(entries, found)].is_file_with(ext));
    } else {
        assert(entries[0].counted_extension() is None);
    }
}

/// A table of the extensions of a listing, each with the number of files
/// that have it, in the order in which the extensions are first met.
pub struct ExtensionFrequencyTable {
    extensions: Vec<String>,
    counts: Vec<usize>,
}

impl ExtensionFrequencyTable {
    /// The two columns have one length.
    pub closed spec fn wf(&self) -> bool {
        self.extensions.len() == self.counts.len()
    }

    /// The rows of the table: extension and count.
    pub closed spec fn rows(&self) -> Seq<(Seq<char>, nat)> {
        Seq::new(
            self.extensions@.len(),
            |k: int| (self.extensions@[k]@, self.counts@[k] as nat),
        )
    }

    /// The rows are the tally of `entries`: each row holds the count of its
    /// extension, the rows stand in the order in which their extensions are
    /// first met, and every extension of a file has a row.
    pub open spec fn tallies(rows: Seq<(Seq<char>, nat)>, entries: Seq<EntryView>) -> bool {
        &&& forall|k: int|
            0 <= k < rows.len() ==> (#[trigger] rows[k]).1 == occurrences(entries, rows[k].0)
        &&& forall|k: int|
            0 <= k < rows.len() ==> first_position(entries, (#[trigger] rows[k]).0) >= 0
        &&& forall|k: int, l: int|
            0 <= k < l < rows.len() ==> first_position(entries, (#[trigger] rows[k]).0)
                < first_position(entries, (#[trigger] rows[l]).0)
        &&& forall|j: int|
            0 <= j < entries.len() && (#[trigger] entries[j]).counted_extension() is Some
                ==> exists|k: int|
                0 <= k < rows.len() && (#[trigger] rows[k]).0 == entries[j].counted_extension()->0
    }

    /// Row `k` holds the greatest count, and no row before it holds as much.
    pub open spec fn is_first_greatest(rows: Seq<(Seq<char>, nat)>, k: int) -> bool {
        &&& 0 <= k < rows.len()
        &&& forall|l: int| 0 <= l < rows.len() ==> (#[trigger] rows[l]).1 <= rows[k].1
        &&& forall|l: int| 0 <= l < k ==> (#[trigger] rows[l]).1 < rows[k].1
    }

    /// The empty table.
    pub fn new() -> (t: Self)
        ensures
            t.wf(),
            t.rows() == Seq::<(Seq<char>, nat)>::empty(),
    {
        let t = ExtensionFrequencyTable { extensions: Vec::new(), counts: Vec::new() };
        assert(t.rows() =~= Seq::<(Seq<char>, nat)>::empty());
        t
    }

    /// Counts one more entry.
    fn record(&mut self, entry: &DirectoryEntry, Ghost(seen): Ghost<Seq<EntryView>>)
        requires
            old(self).wf(),
            Self::tallies(old(self).rows(), seen),
            seen.len() < usize::MAX,
        ensures
            final(self).wf(),
            Self::tallies(final(self).rows(), seen.push(entry@)),
    {
        let ghost next = seen.push(entry@);
        assert(next.drop_last() =~= seen);
        proof {
            assert forall|j: int| 0 <= j < seen.len() implies next[j] == seen[j] by {}
        }
        if entry.is_dir {
            return ;
        }
        match &entry.extension {
            None => {},
            Some(ext) => {
                let mut k: usize = 0;
                while k < self.extensions.len() && !(self.extensions[k] == *ext)
                    invariant
                        self.wf(),
                        k <= self.extensions.len(),
                        forall|l: int| 0 <= l < k ==> self.extensions[l]@ != ext@,
                    decreases self.extensions.len() - k,
                {
                    k += 1;
                }
                let ghost before = self.rows();
                if k < self.extensions.len() {
                    proof {
                        lemma_first_position(seen, ext@);
                        assert(before[k as int].1 == occurrences(seen, ext@));
                    }
                    let count: usize = self.counts[k];
                    self.counts.set(k, count + 1);
                    proof {
                        let after = self.rows();
                        assert forall|l: int| 0 <= l < after.len() implies (#[trigger] after[l]).0
                            == before[l].0 by {}
                        assert forall|l: int| 0 <= l < after.len() implies (#[trigger] after[l]).1
                            == occurrences(next, after[l].0) by {
                            assert(before[l].1 == occurrences(seen, before[l].0));
                        }
                        assert forall|j: int|
                            0 <= j < next.len() && (#[trigger] next[j]).counted_extension() is Some
                            implies exists|l: int|
                            0 <= l < after.len() && (#[trigger] after[l]).0
                                == next[j].counted_extension()->0 by {
                            if j < seen.len() {
                                assert(seen[j].counted_extension() is Some);
                                let l = choose|l: int|
                                    0 <= l < before.len() && (#[trigger] before[l]).0
                                        == seen[j].counted_extension()->0;
                                assert(after[l].0 == before[l].0);
                            } else {
                                assert(after[k as int].0 == ext@);
                            }
                        }
                        assert forall|a: int, b: int|
                            0 <= a < b < after.len() implies first_position(
                            next,
                            (#[trigger] after[a]).0,
                        ) < first_position(next, (#[trigger] after[b]).0) by {
                            assert(first_position(seen, before[a].0) >= 0);
                            assert(first_position(seen, before[b].0) >= 0);
                        }
                        assert forall|l: int| 0 <= l < after.len() implies first_position(
                            next,
                            (#[trigger] after[l]).0,
                        ) >= 0 by {
                            assert(first_position(seen, before[l].0) >= 0);
                        }
                    }
                } else {
                    proof {
                        lemma_first_position(seen, ext@);
                        if first_position(seen, ext@) >= 0 {
                            let j = first_position(seen, ext@);
                            assert(seen[j].counted_extension() == Some(ext@));
                            let l = choose|l: int|
                                0 <= l < before.len() && (#[trigger] before[l]).0
                                    == seen[j].counted_extension()->0;
                            assert(self.extensions[l]@ == ext@);
                        }
                        assert(occurrences(seen, ext@) == 0);
                    }
                    self.extensions.push(ext.clone());
                    self.counts.push(1);
                    proof {
                        let after = self.rows();
                        assert forall|l: int| 0 <= l < before.len() implies (#[trigger] after[l])
                            == before[l] by {}
                        assert(after[k as int] == (ext@, 1nat));
                        assert forall|l: int| 0 <= l < after.len() implies (#[trigger] after[l]).1
                            == occurrences(next, after[l].0) by {
                            if l < before.len() {
                                assert(before[l].1 == occurrences(seen, before[l].0));
                            }
                        }
                        assert forall|l: int| 0 <= l < after.len() implies first_position(
                            next,
                            (#[trigger] after[l]).0,
                        ) >= 0 by {
                            if l < before.len() {
                                assert(first_position(seen, before[l].0) >= 0);
                            }
                        }
                        assert forall|a: int, b: int|
                            0 <= a < b < after.len() implies first_position(
                            next,
                            (#[trigger] after[a]).0,
                        ) < first_position(next, (#[trigger] after[b]).0) by {
                            assert(first_position(seen, before[a].0) >= 0);
                            lemma_first_position(seen, before[a].0);
                            if b < before.len() {
                                assert(first_position(seen, before[b].0) >= 0);
                            }
                        }
                        assert forall|j: int|
                            0 <= j < next.len() && (#[trigger] next[j]).counted_extension() is Some
                            implies exists|l: int|
                            0 <= l < after.len() && (#[trigger] after[l]).0
                                == next[j].counted_extension()->0 by {
                            if j < seen.len() {
                                assert(seen[j].counted_extension() is Some);
                                let l = choose|l: int|
                                    0 <= l < before.len() && (#[trigger] before[l]).0
                                        == seen[j].counted_extension()->0;
                                assert(after[l] == before[l]);
                            } else {
                                assert(after[k as int].0 == ext@);
                            }
                        }
                    }
                }
            },
        }
    }

    /// The tally of a listing.
    pub fn tally(entries: &[DirectoryEntry]) -> (t: Self)
        ensures
            t.wf(),
            Self::tallies(t.rows(), listing(entries@)),
    {
        let mut table = Self::new();
        let ghost all = listing(entries@);
        let mut i: usize = 0;
        while i < entries.len()
            invariant
                i <= entries.len(),
                all == listing(entries@),
                table.wf(),
                Self::tallies(table.rows(), all.take(i as int)),
            decreases entries.len() - i,
        {
            assert(all.take(i as int).push(entries[i as int]@) =~= all.take(i + 1));
            table.record(&entries[i], Ghost(all.take(i as int)));
            i += 1;
        }
        assert(all.take(i as int) =~= all);
        table
    }

    /// The extension of the first row that holds the greatest count, or
    /// `None` for the empty table.
    pub fn most_used(&self) -> (r: Option<String>)
        requires
            self.wf(),
        ensures
            match r {
                Some(ext) => exists|k: int|
                    Self::is_first_greatest(self.rows(), k) && (#[trigger] self.rows()[k]).0
                        == ext@,
                None => self.rows().len() == 0,
            },
    {
        if self.extensions.len() == 0 {
            return None;
        }
        let mut best: usize = 0;
        let mut k: usize = 1;
        while k < self.extensions.len()
            invariant
                self.wf(),
                best < k <= self.extensions.len(),
                forall|l: int| 0 <= l < k ==> self.counts[l] <= self.counts[best as int],
                forall|l: int| 0 <= l < best ==> self.counts[l] < self.counts[best as int],
            decreases self.extensions.len() - k,
        {
            if self.counts[k] > self.counts[best] {
                best = k;
            }
            k += 1;
        }
        let ext = self.extensions[best].clone();
        assert(Self::is_first_greatest(self.rows(), best as int));
        assert(self.rows()[best as int].0 == ext@);
        Some(ext)
    }
}

/// The extension that the files of `entries` use most, or `None` where no
/// file has an extension. Of several extensions that occur equally often,
/// the one that the listing meets first is returned.
pub fn detect_ext(entries: &[DirectoryEntry]) -> (r: Option<String>)
    ensures
        option_text(r) == most_used_extension(listing(entries@)),
        match r {
            Some(ext) => is_most_used(listing(entries@), ext@),
            None => no_extension(listing(entries@)),
        },
{
    let table = ExtensionFrequencyTable::tally(entries);
    let found = table.most_used();
    proof {
        let all = listing(entries@);
        let rows = table.rows();
        if found is Some {
            let ext = found->0@;
            let k = choose|k: int|
                ExtensionFrequencyTable::is_first_greatest(rows, k) && (#[trigger] rows[k]).0
                    == ext;
            assert forall|j: int|
                0 <= j < all.len() && (#[trigger] all[j]).counted_extension() is Some implies {
                let other = all[j].counted_extension()->0;
                &&& occurrences(all, other) <= occurrences(all, ext)
                &&& occurrences(all, other) == occurrences(all, ext) ==> first_position(all, ext)
                    <= j
            } by {
                let other = all[j].counted_extension()->0;
                let l = choose|l: int| 0 <= l < rows.len() && (#[trigger] rows[l]).0 == other;
                lemma_first_position(all, other);
                assert(rows[l].1 <= rows[k].1);
                if l < k {
                    assert(rows[l].1 < rows[k].1);
                }
            }
            assert(is_most_used(all, ext));
            lemma_most_used_unique(all, ext, most_used_extension(all)->0);
        } else {
            assert forall|j: int| 0 <= j < all.len() implies (#[trigger] all[j]).counted_extension()
                is None by {
                if all[j].counted_extension() is Some {
                    let l = choose|l: int|
                        0 <= l < rows.len() && (#[trigger] rows[l]).0
                            == all[j].counted_extension()->0;
                }
            }
            lemma_no_extension(all);
        }
    }
    found
}

} // verus!
