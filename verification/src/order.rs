//! The lexicographic order on byte strings, by which paths are ranked.
use vstd::prelude::*;

verus! {

/// `a` and `b` agree on their first `k` bytes.
pub open spec fn common_prefix(a: Seq<u8>, b: Seq<u8>, k: int) -> bool {
    &&& 0 <= k <= a.len()
    &&& k <= b.len()
    &&& forall|j: int| 0 <= j < k ==> a[j] == b[j]
}

/// `a` and `b` agree up to position `k`, and there `a` ends or holds the
/// smaller byte while `b` goes on.
pub open spec fn less_at(a: Seq<u8>, b: Seq<u8>, k: int) -> bool {
    &&& common_prefix(a, b, k)
    &&& k < b.len()
    &&& (k == a.len() || a[k] < b[k])
}

/// `a` comes strictly before `b` in lexicographic order: `a` is a proper
/// prefix of `b`, or holds the smaller byte where the two first differ.
pub open spec fn lex_lt(a: Seq<u8>, b: Seq<u8>) -> bool {
    exists|k: int| less_at(a, b, k)
}

/// `a` comes before `b` or equals it.
pub open spec fn lex_le(a: Seq<u8>, b: Seq<u8>) -> bool {
    a == b || lex_lt(a, b)
}

/// Where two byte strings stop agreeing, that position alone decides which
/// of them comes first.
pub proof fn lemma_decided_at(a: Seq<u8>, b: Seq<u8>, i: int)
    requires
        common_prefix(a, b, i),
        i == a.len() || i == b.len() || a[i] != b[i],
    ensures
        lex_lt(a, b) <==> less_at(a, b, i),
        lex_lt(b, a) <==> less_at(b, a, i),
        a == b <==> (i == a.len() && i == b.len()),
{
    if lex_lt(a, b) {
        let k = choose|k: int| less_at(a, b, k);
        if k < i {
            assert(a[k] == b[k]);
        } else if k > i {
            assert(a[i] == b[i]);
        }
    }
    if lex_lt(b, a) {
        let k = choose|k: int| less_at(b, a, k);
        if k < i {
            assert(a[k] == b[k]);
        } else if k > i {
            assert(b[i] == a[i]);
        }
    }
    if i == a.len() && i == b.len() {
        assert(a =~= b);
    }
}

proof fn lemma_trichotomy_from(a: Seq<u8>, b: Seq<u8>, i: int)
    requires
        common_prefix(a, b, i),
    ensures
        lex_lt(a, b) || a == b || lex_lt(b, a),
    decreases a.len() - i,
{
    if i == a.len() || i == b.len() || a[i] != b[i] {
        lemma_decided_at(a, b, i);
        if i < a.len() && i < b.len() {
            if a[i] < b[i] {
                assert(less_at(a, b, i));
            } else {
                assert(less_at(b, a, i));
            }
        } else if i < b.len() {
            assert(less_at(a, b, i));
        } else if i < a.len() {
            assert(less_at(b, a, i));
        }
    } else {
        lemma_trichotomy_from(a, b, i + 1);
    }
}

/// Of two byte strings one comes before the other, or they are equal.
pub proof fn lemma_lex_total(a: Seq<u8>, b: Seq<u8>)
    ensures
        lex_lt(a, b) || a == b || lex_lt(b, a),
{
    lemma_trichotomy_from(a, b, 0);
}

/// No byte string comes before itself, and no two come before each other.
pub proof fn lemma_lex_asymmetric(a: Seq<u8>, b: Seq<u8>)
    ensures
        !(lex_lt(a, b) && lex_lt(b, a)),
        lex_lt(a, b) ==> a != b,
{
    if lex_lt(a, b) {
        let k = choose|k: int| less_at(a, b, k);
        lemma_decided_at(a, b, k);
    }
}

/// The order is transitive.
pub proof fn lemma_lex_transitive(a: Seq<u8>, b: Seq<u8>, c: Seq<u8>)
    requires
        lex_lt(a, b),
        lex_lt(b, c),
    ensures
        lex_lt(a, c),
{
    let k1 = choose|k: int| less_at(a, b, k);
    let k2 = choose|k: int| less_at(b, c, k);
    let k = if k1 <= k2 { k1 } else { k2 };
    assert forall|j: int| 0 <= j < k implies a[j] == c[j] by {
        assert(a[j] == b[j]);
        assert(b[j] == c[j]);
    }
    if k1 < k2 {
        assert(b[k1] == c[k1]);
    } else if k2 < k1 {
        assert(a[k2] == b[k2]);
    }
    assert(less_at(a, c, k));
}

/// Whether `a` comes strictly before `b` in lexicographic order.
pub fn bytes_lt(a: &[u8], b: &[u8]) -> (r: bool)
    ensures
        r == lex_lt(a@, b@),
{
    let mut i: usize = 0;
    while i < a.len() && i < b.len() && a[i] == b[i]
        invariant
            common_prefix(a@, b@, i as int),
        decreases a.len() - i,
    {
        i += 1;
    }
    proof {
        lemma_decided_at(a@, b@, i as int);
    }
    i < b.len() && (i == a.len() || a[i] < b[i])
}

} // verus!
