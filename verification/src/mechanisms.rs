use vstd::prelude::*;

verus! {

/// The positions that hold `true`, in increasing order.
pub open spec fn true_index_seq(s: Seq<bool>) -> Seq<int>
    decreases s.len(),
{
    if s.len() == 0 {
        Seq::empty()
    } else if s.last() {
        true_index_seq(s.drop_last()).push(s.len() - 1)
    } else {
        true_index_seq(s.drop_last())
    }
}

/// The index-collection core of the sparse-vector mechanism: given, in input
/// order, whether each noisy value exceeded the noisy threshold, returns
/// exactly the indices of the exceeding elements, in input order.  The
/// elements are visited strictly sequentially; the mechanism's guarantee
/// composes over prefixes, so the order is part of the contract.
pub fn above_threshold_indices(above: &Vec<bool>) -> (r: Vec<usize>)
    ensures
        r@.map_values(|u: usize| u as int) == true_index_seq(above@),
{
    let mut r: Vec<usize> = Vec::new();
    let mut i: usize = 0;
    while i < above.len()
        invariant
            i <= above.len(),
            r@.map_values(|u: usize| u as int) == true_index_seq(above@.take(i as int)),
        decreases above.len() - i,
    {
        proof {
            assert(above@.take(i + 1).drop_last() =~= above@.take(i as int));
            assert(above@.take(i + 1).last() == above@[i as int]);
        }
        if above[i] {
            let ghost prev = r@;
            r.push(i);
            proof {
                assert(r@.map_values(|u: usize| u as int) =~= prev.map_values(|u: usize| u as int)
                    .push(i as int));
            }
        }
        i = i + 1;
    }
    proof {
        assert(above@.take(above.len() as int) =~= above@);
    }
    r
}

/// Law of membership: the collected indices are exactly the positions that
/// hold `true`.
pub proof fn lemma_true_index_seq_contains(s: Seq<bool>, j: int)
    ensures
        true_index_seq(s).contains(j) <==> 0 <= j < s.len() && s[j],
    decreases s.len(),
{
    if s.len() == 0 {
    } else {
        lemma_true_index_seq_contains(s.drop_last(), j);
        let prefix = true_index_seq(s.drop_last());
        if s.last() {
            assert(true_index_seq(s) == prefix.push(s.len() - 1));
            vstd::seq_lib::lemma_seq_contains_after_push(prefix, s.len() - 1, j);
        } else {
            assert(true_index_seq(s) == prefix);
        }
    }
}

/// Law of order: the collected indices are strictly increasing, so they
/// appear exactly in input order.
pub proof fn lemma_true_index_seq_sorted(s: Seq<bool>)
    ensures
        forall|a: int, b: int|
            0 <= a < b < true_index_seq(s).len() ==> true_index_seq(s)[a] < true_index_seq(s)[b],
        forall|a: int| 0 <= a < true_index_seq(s).len() ==> true_index_seq(s)[a] < s.len(),
    decreases s.len(),
{
    if s.len() == 0 {
    } else {
        lemma_true_index_seq_sorted(s.drop_last());
        if s.last() {
            assert(true_index_seq(s) == true_index_seq(s.drop_last()).push(s.len() - 1));
        } else {
            assert(true_index_seq(s) == true_index_seq(s.drop_last()));
        }
    }
}

/// Law of the single threshold crossing: when the flags are a prefix of
/// `true`s followed only by `false`s — the shape a strictly decreasing input
/// compared against one threshold produces — the collected indices are
/// exactly `0, 1, ..., n-1`.
pub proof fn lemma_prefix_crossing(s: Seq<bool>, n: int)
    requires
        0 <= n <= s.len(),
        forall|i: int| 0 <= i < n ==> s[i],
        forall|i: int| n <= i < s.len() ==> !s[i],
    ensures
        true_index_seq(s) =~= Seq::new(n as nat, |j: int| j),
    decreases s.len(),
{
    if s.len() == 0 {
    } else if n == s.len() {
        lemma_prefix_crossing(s.drop_last(), n - 1);
        assert(s.last());
        assert(true_index_seq(s) =~= Seq::new((n - 1) as nat, |j: int| j).push(n - 1));
        assert(Seq::new((n - 1) as nat, |j: int| j).push(n - 1) =~= Seq::new(n as nat, |j: int| j));
    } else {
        lemma_prefix_crossing(s.drop_last(), n);
        assert(!s.last());
    }
}

} // verus!
