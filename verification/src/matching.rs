//! Match policies: deciding whether a candidate word's letters are covered
//! by a pool word's letters, exactly or with a bounded shortfall.

use vstd::prelude::*;
use crate::letters::LetterMultiset;
use crate::letters::count_sum_upto;
use crate::letters::lemma_wf_count_sum;
use crate::letters::occurrences;

verus! {

/// How far `c` falls short of being covered by `p`.
pub open spec fn shortfall(c: nat, p: nat) -> nat {
    if c > p {
        (c - p) as nat
    } else {
        0
    }
}

/// Sum, over byte values below `n`, of the candidate's per-letter shortfall
/// against the pool, both given as letter multisets.
pub open spec fn deficit_upto(pool: LetterMultiset, cand: LetterMultiset, n: int) -> nat
    decreases n,
{
    if n <= 0 {
        0
    } else {
        deficit_upto(pool, cand, n - 1) + shortfall(
            cand.count((n - 1) as u8),
            pool.count((n - 1) as u8),
        )
    }
}

/// Total shortfall of the candidate against the pool: the number of candidate
/// letters (with multiplicity) that the pool cannot supply.
pub open spec fn deficit(pool: LetterMultiset, cand: LetterMultiset) -> nat {
    deficit_upto(pool, cand, 256)
}

/// Sum, over byte values below `n`, of the per-letter shortfall of the raw
/// byte sequence `cand` against the raw byte sequence `pool`.
pub open spec fn seq_deficit_upto(pool: Seq<u8>, cand: Seq<u8>, n: int) -> nat
    decreases n,
{
    if n <= 0 {
        0
    } else {
        seq_deficit_upto(pool, cand, n - 1) + shortfall(
            occurrences(cand, (n - 1) as u8),
            occurrences(pool, (n - 1) as u8),
        )
    }
}

/// Total shortfall of the byte sequence `cand` against the byte sequence `pool`.
pub open spec fn seq_deficit(pool: Seq<u8>, cand: Seq<u8>) -> nat {
    seq_deficit_upto(pool, cand, 256)
}

/// The two ways a candidate may be accepted against a pool.
#[derive(Clone, Copy, Debug)]
pub enum MatchPolicy {
    /// Every candidate letter must be present in the pool with at least the
    /// candidate's multiplicity.
    ExactSubset,
    /// The candidate's total shortfall against the pool may be at most
    /// `max_excess` letters.
    BoundedDifference { max_excess: usize },
}

/// Whether the candidate multiset is acceptable against the pool multiset
/// under the given policy.
pub open spec fn is_match(pool: LetterMultiset, cand: LetterMultiset, policy: MatchPolicy) -> bool {
    match policy {
        MatchPolicy::ExactSubset => forall|b: u8| cand.count(b) <= pool.count(b),
        MatchPolicy::BoundedDifference { max_excess } => deficit(pool, cand) <= max_excess,
    }
}

/// Whether the raw candidate byte sequence is acceptable against the raw pool
/// byte sequence under the given policy.
pub open spec fn seq_match(pool: Seq<u8>, cand: Seq<u8>, policy: MatchPolicy) -> bool {
    match policy {
        MatchPolicy::ExactSubset => forall|b: u8| occurrences(cand, b) <= occurrences(pool, b),
        MatchPolicy::BoundedDifference { max_excess } => seq_deficit(pool, cand) <= max_excess,
    }
}

proof fn lemma_deficit_upto_bridge(pool: LetterMultiset, cand: LetterMultiset, p: Seq<u8>, c: Seq<u8>, n: int)
    requires
        forall|b: u8| pool.count(b) == occurrences(p, b),
        forall|b: u8| cand.count(b) == occurrences(c, b),
    ensures
        deficit_upto(pool, cand, n) == seq_deficit_upto(p, c, n),
    decreases n,
{
    if n > 0 {
        lemma_deficit_upto_bridge(pool, cand, p, c, n - 1);
    }
}

/// The multiset-level match decision agrees with the byte-sequence-level one
/// when the multisets record the sequences' occurrence counts.
pub proof fn lemma_match_bridge(pool: LetterMultiset, cand: LetterMultiset, p: Seq<u8>, c: Seq<u8>, policy: MatchPolicy)
    requires
        forall|b: u8| pool.count(b) == occurrences(p, b),
        forall|b: u8| cand.count(b) == occurrences(c, b),
    ensures
        is_match(pool, cand, policy) == seq_match(p, c, policy),
{
    lemma_deficit_upto_bridge(pool, cand, p, c, 256);
}

proof fn lemma_deficit_upto_zero_iff(pool: LetterMultiset, cand: LetterMultiset, n: int)
    ensures
        (deficit_upto(pool, cand, n) == 0) <==> (forall|b: u8|
            b < n ==> cand.count(b) <= pool.count(b)),
    decreases n,
{
    if n > 0 {
        lemma_deficit_upto_zero_iff(pool, cand, n - 1);
        if deficit_upto(pool, cand, n) == 0 {
            assert forall|b: u8| b < n implies cand.count(b) <= pool.count(b) by {
                if b == (n - 1) as u8 {
                    assert(shortfall(cand.count(b), pool.count(b)) == 0);
                }
            }
        }
    }
}

/// A zero deficit is the same thing as exact-subset coverage.
pub proof fn lemma_deficit_zero_iff_subset(pool: LetterMultiset, cand: LetterMultiset)
    ensures
        (deficit(pool, cand) == 0) <==> (forall|b: u8| cand.count(b) <= pool.count(b)),
{
    lemma_deficit_upto_zero_iff(pool, cand, 256);
    if forall|b: u8| cand.count(b) <= pool.count(b) {
        assert(forall|b: u8| b < 256 ==> cand.count(b) <= pool.count(b));
    }
}

/// A bounded-difference policy with no allowance is the exact-subset policy:
/// the two accept exactly the same pool/candidate pairs.
pub proof fn lemma_bounded_zero_equals_exact(pool: LetterMultiset, cand: LetterMultiset)
    ensures
        is_match(pool, cand, MatchPolicy::BoundedDifference { max_excess: 0 }) <==> is_match(
            pool,
            cand,
            MatchPolicy::ExactSubset,
        ),
{
    lemma_deficit_zero_iff_subset(pool, cand);
}

/// Bounded-difference matching is monotonic in the allowance: a pair accepted
/// at `max_excess` is accepted at any larger allowance.
pub proof fn lemma_bounded_monotonic(pool: LetterMultiset, cand: LetterMultiset, k: usize, k2: usize)
    requires
        k <= k2,
        is_match(pool, cand, MatchPolicy::BoundedDifference { max_excess: k }),
    ensures
        is_match(pool, cand, MatchPolicy::BoundedDifference { max_excess: k2 }),
{
}

proof fn lemma_deficit_le_count_sum(pool: LetterMultiset, cand: LetterMultiset, n: int)
    ensures
        deficit_upto(pool, cand, n) <= count_sum_upto(cand, n),
    decreases n,
{
    if n > 0 {
        lemma_deficit_le_count_sum(pool, cand, n - 1);
    }
}

proof fn lemma_count_sum_monotone(m: LetterMultiset, n: int, n2: int)
    requires
        n <= n2,
    ensures
        count_sum_upto(m, n) <= count_sum_upto(m, n2),
    decreases n2 - n,
{
    if n < n2 {
        lemma_count_sum_monotone(m, n, n2 - 1);
    }
}

/// The total shortfall of `word` against `letters`: the number of letters of
/// `word` (with multiplicity) that `letters` cannot supply.
pub fn get_word_difference(letters: &LetterMultiset, word: &LetterMultiset) -> (r: usize)
    requires
        letters.wf(),
        word.wf(),
    ensures
        r as nat == deficit(*letters, *word),
{
    proof {
        lemma_wf_count_sum(*word);
    }
    let mut acc: usize = 0;
    let mut n: usize = 0;
    while n < 256
        invariant
            n <= 256,
            letters.wf(),
            word.wf(),
            count_sum_upto(*word, 256) <= usize::MAX,
            acc as nat == deficit_upto(*letters, *word, n as int),
            acc as nat <= count_sum_upto(*word, n as int),
        decreases 256 - n,
    {
        let b = n as u8;
        let c = word.get(b);
        let p = letters.get(b);
        let d = if c > p {
            c - p
        } else {
            0
        };
        proof {
            lemma_count_sum_monotone(*word, n + 1, 256);
        }
        acc = acc + d;
        n = n + 1;
    }
    acc
}

/// Decides whether `candidate` is acceptable against `pool` under `policy`.
pub fn matches(pool: &LetterMultiset, candidate: &LetterMultiset, policy: &MatchPolicy) -> (r: bool)
    requires
        pool.wf(),
        candidate.wf(),
    ensures
        r == is_match(*pool, *candidate, *policy),
{
    let d = get_word_difference(pool, candidate);
    match policy {
        MatchPolicy::ExactSubset => {
            proof {
                lemma_deficit_zero_iff_subset(*pool, *candidate);
            }
            d == 0
        },
        MatchPolicy::BoundedDifference { max_excess } => d <= *max_excess,
    }
}

} // verus!
