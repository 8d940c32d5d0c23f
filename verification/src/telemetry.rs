//! Index bookkeeping of telemetry monitoring: which samples were flagged, and
//! how often a stream changes sign.

use vstd::prelude::*;

verus! {

/// Number of adjacent pairs in `s` whose two entries differ.
pub open spec fn changes(s: Seq<bool>) -> nat
    decreases s.len(),
{
    if s.len() < 2 {
        0
    } else {
        changes(s.drop_last()) + if s[s.len() - 2] != s[s.len() - 1] { 1nat } else { 0nat }
    }
}

/// The positions `i` at which `s` changes value: `s[i - 1] != s[i]`.
pub open spec fn change_points(s: Seq<bool>) -> Set<int> {
    Set::new(|i: int| 1 <= i < s.len() && s[i - 1] != s[i])
}

/// The adjacent-pair count is the number of positions at which the sequence
/// changes value.
pub proof fn lemma_changes_counts_change_points(s: Seq<bool>)
    ensures
        change_points(s).finite(),
        changes(s) == change_points(s).len(),
    decreases s.len(),
{
    if s.len() < 2 {
        assert(change_points(s) =~= Set::<int>::empty());
    } else {
        let t = s.drop_last();
        lemma_changes_counts_change_points(t);
        let last = s.len() - 1;
        if s[last - 1] != s[last] {
            assert(change_points(s) =~= change_points(t).insert(last));
            assert(!change_points(t).contains(last));
        } else {
            assert(change_points(s) =~= change_points(t));
        }
    }
}

/// A sequence that never changes value has no change points.
pub proof fn lemma_constant_has_no_changes(s: Seq<bool>, v: bool)
    requires
        forall|i: int| 0 <= i < s.len() ==> s[i] == v,
    ensures
        changes(s) == 0,
{
    lemma_changes_counts_change_points(s);
    assert(change_points(s) =~= Set::<int>::empty());
}

/// Negating every entry changes no pair from equal to different or back: the
/// count is the same for a stream and for its negation.
pub proof fn lemma_changes_negation_invariant(s: Seq<bool>)
    ensures
        changes(s.map_values(|b: bool| !b)) == changes(s),
{
    let t = s.map_values(|b: bool| !b);
    lemma_changes_counts_change_points(s);
    lemma_changes_counts_change_points(t);
    assert(change_points(t) =~= change_points(s));
}

/// Returns, in increasing order, the positions at which `flags` holds `true`.
pub fn flagged_indices(flags: &[bool]) -> (r: Vec<usize>)
    ensures
        forall|k: int| 0 <= k < r@.len() ==> #[trigger] r@[k] < flags@.len() && flags@[r@[k] as int],
        forall|k1: int, k2: int| 0 <= k1 < k2 < r@.len() ==> r@[k1] < r@[k2],
        forall|i: int| 0 <= i < flags@.len() && #[trigger] flags@[i] ==> r@.contains(i as usize),
{
    let n = flags.len();
    let mut result: Vec<usize> = Vec::new();
    let mut i: usize = 0;
    while i < n
        invariant
            i <= n,
            n == flags@.len(),
            forall|k: int| 0 <= k < result@.len() ==> #[trigger] result@[k] < i && flags@[result@[k] as int],
            forall|k1: int, k2: int| 0 <= k1 < k2 < result@.len() ==> result@[k1] < result@[k2],
            forall|j: int| 0 <= j < i && #[trigger] flags@[j] ==> result@.contains(j as usize),
        decreases n - i,
    {
        if flags[i] {
            let ghost before = result@;
            result.push(i);
            proof {
                assert forall|j: int| 0 <= j < i + 1 && #[trigger] flags@[j] implies result@.contains(j as usize) by {
                    if j < i {
                        let k = choose|k: int| 0 <= k < before.len() && before[k] == j as usize;
                        assert(result@[k] == j as usize);
                    } else {
                        assert(result@[before.len() as int] == i);
                    }
                }
            }
        }
        i = i + 1;
    }
    result
}

/// Counts the adjacent pairs of `signs` whose two entries differ: for the
/// signs of a stream's samples, the number of times the stream crosses zero.
pub fn count_sign_changes(signs: &[bool]) -> (r: usize)
    ensures
        r == changes(signs@),
        r == change_points(signs@).len(),
        r == Set::new(|i: int| 1 <= i < signs@.len() && signs@[i - 1] != signs@[i]).len(),
{
    let n = signs.len();
    let mut count: usize = 0;
    let mut i: usize = 1;
    proof {
        lemma_changes_counts_change_points(signs@);
    }
    if n < 2 {
        return 0;
    }
    while i < n
        invariant
            1 <= i <= n,
            n == signs@.len(),
            count == changes(signs@.subrange(0, i as int)),
            count < i,
        decreases n - i,
    {
        proof {
            let next = signs@.subrange(0, i + 1);
            assert(next.drop_last() =~= signs@.subrange(0, i as int));
        }
        if signs[i - 1] != signs[i] {
            count = count + 1;
        }
        i = i + 1;
    }
    assert(signs@.subrange(0, n as int) =~= signs@);
    count
}

} // verus!
