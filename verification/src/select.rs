//! Selection of the files to rename, and their order.
use crate::config::SortOrder;
use crate::detect::occurrences;
use crate::entry::{listing, DirectoryEntry, EntryView};
use crate::order::{lemma_lex_asymmetric, lemma_lex_total, lemma_lex_transitive, lex_lt};
use vstd::prelude::*;

verus! {

/// `picked` is the selection of `ext` from `entries`: the positions of the
/// files whose extension is exactly `ext`, all of them, in rising order.
pub open spec fn is_selection(entries: Seq<EntryView>, ext: Seq<char>, picked: Seq<usize>) -> bool {
    &&& picked.len() == occurrences(entries, ext)
    &&& forall|k: int|
        0 <= k < picked.len() ==> (#[trigger] picked[k]) < entries.len()
            && entries[picked[k] as int].is_file_with(ext)
    &&& forall|k: int, l: int| 0 <= k < l < picked.len() ==> picked[k] < picked[l]
    &&& forall|i: int|
        0 <= i < entries.len() && (#[trigger] entries[i]).is_file_with(ext) ==> exists|k: int|
            0 <= k < picked.len() && picked[k] == i
}

/// Entry `i` has to stand before entry `j`: its path comes first in the
/// direction of `order`.
pub open spec fn ranks_before(entries: Seq<EntryView>, order: SortOrder, i: int, j: int) -> bool {
    match order {
        SortOrder::Ascending => lex_lt(entries[i].key(), entries[j].key()),
        SortOrder::Descending => lex_lt(entries[j].key(), entries[i].key()),
    }
}

/// Entry `i` may stand before entry `j`: it has to, or the two have one path.
pub open spec fn may_precede(entries: Seq<EntryView>, order: SortOrder, i: int, j: int) -> bool {
    ranks_before(entries, order, i, j) || entries[i].key() == entries[j].key()
}

/// `perm` holds each of the numbers `0 .. n` once.
pub open spec fn is_arrangement(perm: Seq<int>, n: nat) -> bool {
    &&& perm.len() == n
    &&& forall|a: int| 0 <= a < n ==> 0 <= #[trigger] perm[a] < n
    &&& forall|a: int, b: int| 0 <= a < b < n ==> perm[a] != perm[b]
    &&& forall|p: int| 0 <= p < n ==> #[trigger] perm.contains(p)
}

/// `output` is `input` sorted by path in the direction of `order`, and
/// `perm` tells where each item came from: `output[a]` is `input[perm[a]]`.
/// The sort is stable: items with one path keep the order they had.
pub open spec fn is_stable_sort(
    entries: Seq<EntryView>,
    order: SortOrder,
    input: Seq<usize>,
    perm: Seq<int>,
    output: Seq<usize>,
) -> bool {
    &&& is_arrangement(perm, input.len())
    &&& output.len() == input.len()
    &&& forall|a: int| 0 <= a < output.len() ==> #[trigger] output[a] == input[perm[a]]
    &&& forall|a: int, b: int|
        0 <= a < b < output.len() ==> may_precede(
            entries,
            order,
            #[trigger] output[a] as int,
            #[trigger] output[b] as int,
        )
    &&& forall|a: int, b: int|
        0 <= a < b < output.len() && entries[#[trigger] output[a] as int].key()
            == entries[#[trigger] output[b] as int].key() ==> perm[a] < perm[b]
}

/// Entry `i` stands before entry `j` in the final order: its path comes
/// first in the direction of `order`, or the two have one path and `i` is
/// the earlier position of the listing.
pub open spec fn precedes(entries: Seq<EntryView>, order: SortOrder, i: int, j: int) -> bool {
    ranks_before(entries, order, i, j) || (entries[i].key() == entries[j].key() && i < j)
}

/// `sequence` is the ordered selection of `ext` from `entries`: the
/// positions of the files whose extension is exactly `ext`, all of them,
/// each before those that it precedes.
pub open spec fn is_ordered_selection(
    entries: Seq<EntryView>,
    ext: Seq<char>,
    order: SortOrder,
    sequence: Seq<usize>,
) -> bool {
    &&& sequence.len() == occurrences(entries, ext)
    &&& forall|k: int|
        0 <= k < sequence.len() ==> (#[trigger] sequence[k]) < entries.len()
            && entries[sequence[k] as int].is_file_with(ext)
    &&& forall|a: int, b: int|
        0 <= a < b < sequence.len() ==> precedes(
            entries,
            order,
            #[trigger] sequence[a] as int,
            #[trigger] sequence[b] as int,
        )
    &&& forall|i: int|
        0 <= i < entries.len() && (#[trigger] entries[i]).is_file_with(ext) ==> exists|k: int|
            0 <= k < sequence.len() && sequence[k] == i
}

/// The ordered selection of `ext` from `entries`.
pub open spec fn ordered_selection(
    entries: Seq<EntryView>,
    ext: Seq<char>,
    order: SortOrder,
) -> Seq<usize> {
    choose|sequence: Seq<usize>| is_ordered_selection(entries, ext, order, sequence)
}

/// `may_precede` is transitive, and of two entries one may precede the
/// other.
pub proof fn lemma_may_precede(entries: Seq<EntryView>, order: SortOrder, i: int, j: int, k: int)
    ensures
        may_precede(entries, order, i, j) && may_precede(entries, order, j, k) ==> may_precede(
            entries,
            order,
            i,
            k,
        ),
        ranks_before(entries, order, i, j) || may_precede(entries, order, j, i),
        !(ranks_before(entries, order, i, j) && may_precede(entries, order, j, i)),
{
    let a = entries[i].key();
    let b = entries[j].key();
    let c = entries[k].key();
    lemma_lex_total(a, b);
    lemma_lex_asymmetric(a, b);
    lemma_lex_asymmetric(b, a);
    if lex_lt(a, b) && lex_lt(b, c) {
        lemma_lex_transitive(a, b, c);
    }
    if lex_lt(c, b) && lex_lt(b, a) {
        lemma_lex_transitive(c, b, a);
    }
}

/// No entry precedes itself, and no two precede each other.
pub proof fn lemma_precedes_asymmetric(entries: Seq<EntryView>, order: SortOrder, i: int, j: int)
    ensures
        !(precedes(entries, order, i, j) && precedes(entries, order, j, i)),
{
    lemma_lex_asymmetric(entries[i].key(), entries[j].key());
    lemma_lex_asymmetric(entries[j].key(), entries[i].key());
}

/// Two sequences that hold the same items, each in strictly rising order
/// under `lt`, agree on their first `k` items.
proof fn lemma_rising_prefix<T>(s: Seq<T>, t: Seq<T>, lt: spec_fn(T, T) -> bool, k: int)
    requires
        forall|x: T, y: T| !(#[trigger] lt(x, y) && lt(y, x)),
        forall|a: int, b: int| 0 <= a < b < s.len() ==> lt(#[trigger] s[a], #[trigger] s[b]),
        forall|a: int, b: int| 0 <= a < b < t.len() ==> lt(#[trigger] t[a], #[trigger] t[b]),
        forall|a: int| 0 <= a < s.len() ==> t.contains(#[trigger] s[a]),
        forall|b: int| 0 <= b < t.len() ==> s.contains(#[trigger] t[b]),
        0 <= k <= s.len(),
    ensures
        k <= t.len(),
        forall|a: int| 0 <= a < k ==> s[a] == t[a],
    decreases k,
{
    if k > 0 {
        let m = k - 1;
        lemma_rising_prefix(s, t, lt, m);
        assert(t.contains(s[m]));
        let b = choose|b: int| 0 <= b < t.len() && t[b] == s[m];
        if b < m {
            assert(s[b] == t[b]);
            assert(lt(s[b], s[m]));
        }
        assert(s.contains(t[m]));
        let a = choose|a: int| 0 <= a < s.len() && s[a] == t[m];
        if a < m {
            assert(s[a] == t[a]);
            assert(lt(t[a], t[m]));
        }
        if a > m && b > m {
            assert(lt(s[m], s[a]));
            assert(lt(t[m], t[b]));
        }
    }
}

/// A sequence of positions has one stable sort in a direction.
pub proof fn lemma_stable_sort_unique(
    entries: Seq<EntryView>,
    order: SortOrder,
    input: Seq<usize>,
    perm1: Seq<int>,
    output1: Seq<usize>,
    perm2: Seq<int>,
    output2: Seq<usize>,
)
    requires
        is_stable_sort(entries, order, input, perm1, output1),
        is_stable_sort(entries, order, input, perm2, output2),
    ensures
        perm1 == perm2,
        output1 == output2,
{
    let lt = |x: int, y: int|
        {
            let i = input[x] as int;
            let j = input[y] as int;
            ranks_before(entries, order, i, j) || (entries[i].key() == entries[j].key() && x < y)
        };
    assert forall|x: int, y: int| !(#[trigger] lt(x, y) && lt(y, x)) by {
        lemma_may_precede(entries, order, input[x] as int, input[y] as int, input[x] as int);
        lemma_may_precede(entries, order, input[y] as int, input[x] as int, input[y] as int);
    }
    assert forall|a: int, b: int| 0 <= a < b < perm1.len() implies lt(
        #[trigger] perm1[a],
        #[trigger] perm1[b],
    ) by {
        assert(may_precede(entries, order, output1[a] as int, output1[b] as int));
    }
    assert forall|a: int, b: int| 0 <= a < b < perm2.len() implies lt(
        #[trigger] perm2[a],
        #[trigger] perm2[b],
    ) by {
        assert(may_precede(entries, order, output2[a] as int, output2[b] as int));
    }
    lemma_rising_prefix(perm1, perm2, lt, perm1.len() as int);
    assert(perm1 =~= perm2);
    assert(output1 =~= output2);
}

/// A listing has one ordered selection of an extension in a direction.
pub proof fn lemma_ordered_selection_unique(
    entries: Seq<EntryView>,
    ext: Seq<char>,
    order: SortOrder,
    s: Seq<usize>,
    t: Seq<usize>,
)
    requires
        is_ordered_selection(entries, ext, order, s),
        is_ordered_selection(entries, ext, order, t),
    ensures
        s == t,
{
    let lt = |x: usize, y: usize| precedes(entries, order, x as int, y as int);
    assert forall|x: usize, y: usize| !(#[trigger] lt(x, y) && lt(y, x)) by {
        lemma_precedes_asymmetric(entries, order, x as int, y as int);
    }
    assert forall|a: int| 0 <= a < s.len() implies t.contains(#[trigger] s[a]) by {
        assert(entries[s[a] as int].is_file_with(ext));
    }
    assert forall|b: int| 0 <= b < t.len() implies s.contains(#[trigger] t[b]) by {
        assert(entries[t[b] as int].is_file_with(ext));
    }
    lemma_rising_prefix(s, t, lt, s.len() as int);
    assert(s =~= t);
}

/// A sequence that is an ordered selection is the ordered selection.
pub proof fn lemma_ordered_selection_is(
    entries: Seq<EntryView>,
    ext: Seq<char>,
    order: SortOrder,
    sequence: Seq<usize>,
)
    requires
        is_ordered_selection(entries, ext, order, sequence),
    ensures
        sequence == ordered_selection(entries, ext, order),
{
    lemma_ordered_selection_unique(
        entries,
        ext,
        order,
        ordered_selection(entries, ext, order),
        sequence,
    );
}

/// Where `x` goes into a sequence in order: behind the positions that may
/// precede it, before those that it has to stand before.
proof fn lemma_insertion_point(
    entries: Seq<EntryView>,
    order: SortOrder,
    s: Seq<usize>,
    x: int,
) -> (p: int)
    requires
        forall|a: int, b: int|
            0 <= a < b < s.len() ==> precedes(
                entries,
                order,
                #[trigger] s[a] as int,
                #[trigger] s[b] as int,
            ),
    ensures
        0 <= p <= s.len(),
        forall|a: int| 0 <= a < p ==> may_precede(entries, order, #[trigger] s[a] as int, x),
        forall|b: int| p <= b < s.len() ==> ranks_before(entries, order, x, #[trigger] s[b] as int),
    decreases s.len(),
{
    if s.len() == 0 {
        0
    } else if ranks_before(entries, order, x, s.last() as int) {
        let rest = s.drop_last();
        assert forall|a: int, b: int| 0 <= a < b < rest.len() implies precedes(
            entries,
            order,
            #[trigger] rest[a] as int,
            #[trigger] rest[b] as int,
        ) by {
            assert(rest[a] == s[a] && rest[b] == s[b]);
        }
        let p = lemma_insertion_point(entries, order, rest, x);
        assert forall|a: int| 0 <= a < p implies may_precede(
            entries,
            order,
            #[trigger] s[a] as int,
            x,
        ) by {
            assert(rest[a] == s[a]);
        }
        assert forall|b: int| p <= b < s.len() implies ranks_before(
            entries,
            order,
            x,
            #[trigger] s[b] as int,
        ) by {
            if b < rest.len() {
                assert(rest[b] == s[b]);
            }
        }
        p
    } else {
        let last = s.last() as int;
        lemma_may_precede(entries, order, x, last, x);
        assert forall|a: int| 0 <= a < s.len() implies may_precede(
            entries,
            order,
            #[trigger] s[a] as int,
            x,
        ) by {
            if a < s.len() - 1 {
                assert(precedes(entries, order, s[a] as int, s[s.len() - 1] as int));
                lemma_may_precede(entries, order, s[a] as int, last, x);
            }
        }
        s.len() as int
    }
}

/// The ordered selection from the first `n` entries.
proof fn lemma_ordered_prefix(
    entries: Seq<EntryView>,
    ext: Seq<char>,
    order: SortOrder,
    n: nat,
) -> (s: Seq<usize>)
    requires
        n <= entries.len() <= usize::MAX,
    ensures
        s.len() == occurrences(entries.take(n as int), ext),
        forall|k: int|
            0 <= k < s.len() ==> (#[trigger] s[k]) < n && entries[s[k] as int].is_file_with(ext),
        forall|a: int, b: int|
            0 <= a < b < s.len() ==> precedes(
                entries,
                order,
                #[trigger] s[a] as int,
                #[trigger] s[b] as int,
            ),
        forall|i: int|
            0 <= i < n && (#[trigger] entries[i]).is_file_with(ext) ==> exists|k: int|
                0 <= k < s.len() && s[k] == i,
    decreases n,
{
    if n == 0 {
        Seq::empty()
    } else {
        let m = (n - 1) as nat;
        let prev = lemma_ordered_prefix(entries, ext, order, m);
        assert(entries.take(n as int).drop_last() =~= entries.take(m as int));
        if !entries[m as int].is_file_with(ext) {
            prev
        } else {
            let p = lemma_insertion_point(entries, order, prev, m as int);
            let s = prev.insert(p, m as usize);
            assert forall|a: int, b: int| 0 <= a < b < s.len() implies precedes(
                entries,
                order,
                #[trigger] s[a] as int,
                #[trigger] s[b] as int,
            ) by {
                if b < p {
                    assert(s[a] == prev[a] && s[b] == prev[b]);
                } else if b == p {
                    assert(s[a] == prev[a]);
                    assert(may_precede(entries, order, prev[a] as int, m as int));
                } else if a == p {
                    assert(s[b] == prev[b - 1]);
                    assert(ranks_before(entries, order, m as int, prev[b - 1] as int));
                } else if a < p {
                    assert(s[a] == prev[a] && s[b] == prev[b - 1]);
                } else {
                    assert(s[a] == prev[a - 1] && s[b] == prev[b - 1]);
                }
            }
            assert forall|k: int| 0 <= k < s.len() implies (#[trigger] s[k]) < n
                && entries[s[k] as int].is_file_with(ext) by {
                if k < p {
                    assert(s[k] == prev[k]);
                } else if k > p {
                    assert(s[k] == prev[k - 1]);
                }
            }
            assert forall|i: int|
                0 <= i < n && (#[trigger] entries[i]).is_file_with(ext) implies exists|k: int|
                0 <= k < s.len() && s[k] == i by {
                if i < m {
                    let k = choose|k: int| 0 <= k < prev.len() && prev[k] == i;
                    if k < p {
                        assert(s[k] == i);
                    } else {
                        assert(s[k + 1] == i);
                    }
                } else {
                    assert(s[p] == i);
                }
            }
            s
        }
    }
}

/// Every listing has an ordered selection of every extension in either
/// direction, and `ordered_selection` is it.
pub proof fn lemma_ordered_selection(entries: Seq<EntryView>, ext: Seq<char>, order: SortOrder)
    requires
        entries.len() <= usize::MAX,
    ensures
        is_ordered_selection(entries, ext, order, ordered_selection(entries, ext, order)),
{
    let s = lemma_ordered_prefix(entries, ext, order, entries.len());
    assert(entries.take(entries.len() as int) =~= entries);
    assert(is_ordered_selection(entries, ext, order, s));
}

/// Sorting the selection of an extension gives its ordered selection.
pub proof fn lemma_sorted_selection(
    entries: Seq<EntryView>,
    ext: Seq<char>,
    order: SortOrder,
    picked: Seq<usize>,
    perm: Seq<int>,
    sorted: Seq<usize>,
)
    requires
        is_selection(entries, ext, picked),
        is_stable_sort(entries, order, picked, perm, sorted),
    ensures
        is_ordered_selection(entries, ext, order, sorted),
{
    assert forall|k: int| 0 <= k < sorted.len() implies (#[trigger] sorted[k]) < entries.len()
        && entries[sorted[k] as int].is_file_with(ext) by {
        assert(sorted[k] == picked[perm[k]]);
    }
    assert forall|a: int, b: int| 0 <= a < b < sorted.len() implies precedes(
        entries,
        order,
        #[trigger] sorted[a] as int,
        #[trigger] sorted[b] as int,
    ) by {
        assert(may_precede(entries, order, sorted[a] as int, sorted[b] as int));
        assert(sorted[a] == picked[perm[a]] && sorted[b] == picked[perm[b]]);
    }
    assert forall|i: int|
        0 <= i < entries.len() && (#[trigger] entries[i]).is_file_with(ext) implies exists|k: int|
        0 <= k < sorted.len() && sorted[k] == i by {
        let p = choose|p: int| 0 <= p < picked.len() && picked[p] == i;
        assert(perm.contains(p));
        let a = choose|a: int| 0 <= a < perm.len() && perm[a] == p;
        assert(sorted[a] == picked[perm[a]]);
    }
}

/// The positions of the files of `entries` whose extension is exactly
/// `ext`, in rising order. Directories are left out, and so are files with
/// another extension or none.
pub fn select(entries: &[DirectoryEntry], ext: &String) -> (picked: Vec<usize>)
    ensures
        is_selection(listing(entries@), ext@, picked@),
{
    let ghost all = listing(entries@);
    let mut picked: Vec<usize> = Vec::new();
    let mut i: usize = 0;
    while i < entries.len()
        invariant
            i <= entries.len(),
            all == listing(entries@),
            is_selection(all.take(i as int), ext@, picked@),
            forall|k: int| 0 <= k < picked.len() ==> picked[k] < i,
        decreases entries.len() - i,
    {
        let ghost before = picked@;
        let ghost seen = all.take(i as int);
        let ghost next = all.take(i + 1);
        assert(next.drop_last() =~= seen);
        assert forall|j: int| 0 <= j < i implies next[j] == seen[j] by {}
        if entries[i].is_file_with(ext) {
            picked.push(i);
            assert forall|j: int|
                0 <= j < next.len() && (#[trigger] next[j]).is_file_with(
                    ext@,
                ) implies exists|k: int| 0 <= k < picked.len() && picked[k] == j by {
                if j < i {
                    assert(seen[j].is_file_with(ext@));
                    let k = choose|k: int| 0 <= k < before.len() && before[k] == j;
                    assert(picked[k] == j);
                } else {
                    assert(picked[before.len() as int] == j);
                }
            }
        } else {
            assert forall|j: int|
                0 <= j < next.len() && (#[trigger] next[j]).is_file_with(
                    ext@,
                ) implies exists|k: int| 0 <= k < picked.len() && picked[k] == j by {
                assert(seen[j].is_file_with(ext@));
            }
        }
        i += 1;
    }
    assert(all.take(i as int) =~= all);
    picked
}

/// Whether entry `a` has to stand before entry `b` in the direction of
/// `order`.
fn stands_before(a: &DirectoryEntry, b: &DirectoryEntry, order: SortOrder) -> (r: bool)
    ensures
        r == match order {
            SortOrder::Ascending => lex_lt(a@.key(), b@.key()),
            SortOrder::Descending => lex_lt(b@.key(), a@.key()),
        },
{
    match order {
        SortOrder::Ascending => a.path_before(b),
        SortOrder::Descending => b.path_before(a),
    }
}

/// Sorts the positions `input` by the paths of their entries, in the
/// direction of `order`. Positions whose entries have one path keep the
/// order in which `input` holds them.
pub fn sort_by_path(entries: &[DirectoryEntry], input: &[usize], order: SortOrder) -> (output: Vec<
    usize,
>)
    requires
        forall|k: int| 0 <= k < input.len() ==> input[k] < entries.len(),
    ensures
        exists|perm: Seq<int>| is_stable_sort(listing(entries@), order, input@, perm, output@),
{
    let ghost all = listing(entries@);
    let mut output: Vec<usize> = Vec::new();
    let ghost mut perm: Seq<int> = Seq::empty();
    let mut i: usize = 0;
    while i < input.len()
        invariant
            i <= input.len(),
            all == listing(entries@),
            forall|k: int| 0 <= k < input.len() ==> input[k] < entries.len(),
            is_stable_sort(all, order, input@.take(i as int), perm, output@),
        decreases input.len() - i,
    {
        let x: usize = input[i];
        let ghost before = output@;
        let ghost origin = perm;
        assert forall|a: int| 0 <= a < before.len() implies before[a] < entries.len() by {
            assert(before[a] == input@.take(i as int)[origin[a]]);
        }
        let mut pos: usize = output.len();
        while pos > 0 && stands_before(&entries[x], &entries[output[pos - 1]], order)
            invariant
                pos <= output.len(),
                output@ == before,
                x < entries.len(),
                all == listing(entries@),
                forall|a: int| 0 <= a < before.len() ==> before[a] < entries.len(),
                forall|b: int|
                    pos <= b < before.len() ==> ranks_before(
                        all,
                        order,
                        x as int,
                        before[b] as int,
                    ),
            decreases pos,
        {
            pos -= 1;
        }
        output.insert(pos, x);
        proof {
            perm = origin.insert(pos as int, i as int);
            let after = output@;
            let done = input@.take(i as int);
            let next = input@.take(i + 1);
            assert forall|a: int| 0 <= a < after.len() implies #[trigger] after[a]
                == next[perm[a]] by {
                if a < pos {
                    assert(before[a] == done[origin[a]]);
                } else if a > pos {
                    assert(before[a - 1] == done[origin[a - 1]]);
                }
            }
            assert forall|p: int| 0 <= p < i + 1 implies #[trigger] perm.contains(p) by {
                if p < i {
                    assert(origin.contains(p));
                    let a = choose|a: int| 0 <= a < i && #[trigger] origin[a] == p;
                    if a < pos {
                        assert(perm[a] == p);
                    } else {
                        assert(perm[a + 1] == p);
                    }
                } else {
                    assert(perm[pos as int] == p);
                }
            }
            assert forall|a: int, b: int| 0 <= a < b < after.len() implies may_precede(
                all,
                order,
                #[trigger] after[a] as int,
                #[trigger] after[b] as int,
            ) by {
                if b < pos {
                    assert(may_precede(all, order, before[a] as int, before[b] as int));
                } else if b == pos {
                    lemma_may_precede(all, order, x as int, before[pos - 1] as int, x as int);
                    if a < pos - 1 {
                        assert(may_precede(all, order, before[a] as int, before[pos - 1] as int));
                        lemma_may_precede(
                            all,
                            order,
                            before[a] as int,
                            before[pos - 1] as int,
                            x as int,
                        );
                    }
                } else if a == pos {
                    assert(ranks_before(all, order, x as int, before[b - 1] as int));
                } else if a < pos {
                    assert(may_precede(all, order, before[a] as int, before[b - 1] as int));
                } else {
                    assert(may_precede(all, order, before[a - 1] as int, before[b - 1] as int));
                }
            }
            assert forall|a: int, b: int|
                0 <= a < b < after.len() && all[#[trigger] after[a] as int].key()
                    == all[#[trigger] after[b] as int].key() implies perm[a] < perm[b] by {
                if b < pos {
                    assert(before[a] == after[a] && before[b] == after[b]);
                } else if b == pos {
                } else if a == pos {
                    assert(ranks_before(all, order, x as int, before[b - 1] as int));
                    lemma_may_precede(all, order, x as int, before[b - 1] as int, x as int);
                } else if a < pos {
                    assert(before[a] == after[a] && before[b - 1] == after[b]);
                } else {
                    assert(before[a - 1] == after[a] && before[b - 1] == after[b]);
                }
            }
        }
        i += 1;
    }
    assert(input@.take(i as int) =~= input@);
    output
}

/// The ordered selection of `ext` from `entries` in the direction of
/// `order`: the positions of the files whose extension is exactly `ext`,
/// sorted by path; files with one path stay in the order of the listing.
pub fn select_in_order(entries: &[DirectoryEntry], ext: &String, order: SortOrder) -> (sequence:
    Vec<usize>)
    ensures
        is_ordered_selection(listing(entries@), ext@, order, sequence@),
        sequence@ == ordered_selection(listing(entries@), ext@, order),
{
    let picked = select(entries, ext);
    let sequence = sort_by_path(entries, picked.as_slice(), order);
    proof {
        let all = listing(entries@);
        let perm = choose|perm: Seq<int>| is_stable_sort(all, order, picked@, perm, sequence@);
        lemma_sorted_selection(all, ext@, order, picked@, perm, sequence@);
        lemma_ordered_selection_is(all, ext@, order, sequence@);
    }
    sequence
}

} // verus!
