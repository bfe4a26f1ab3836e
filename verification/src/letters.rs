//! Letter multisets: per-byte occurrence counts of an ASCII-lowercased word.

use vstd::prelude::*;

verus! {

/// ASCII lowercasing of a single byte: `b'A'..=b'Z'` shift to `b'a'..=b'z'`,
/// every other byte is unchanged.
pub open spec fn lower_byte(b: u8) -> u8 {
    if 65 <= b && b <= 90 {
        (b + 32) as u8
    } else {
        b
    }
}

/// ASCII lowercasing of a whole byte sequence.
pub open spec fn lower_seq(s: Seq<u8>) -> Seq<u8> {
    s.map_values(|b: u8| lower_byte(b))
}

/// Number of occurrences of the byte `b` in `s`.
pub open spec fn occurrences(s: Seq<u8>, b: u8) -> nat
    decreases s.len(),
{
    if s.len() == 0 {
        0
    } else {
        occurrences(s.drop_last(), b) + (if s.last() == b {
            1nat
        } else {
            0nat
        })
    }
}

/// Sum of the first `n` entries of a count table.
pub open spec fn total_upto(s: Seq<usize>, n: int) -> nat
    decreases n,
{
    if n <= 0 {
        0
    } else {
        total_upto(s, n - 1) + s[n - 1] as nat
    }
}

proof fn lemma_occurrences_take_step(s: Seq<u8>, i: int, b: u8)
    requires
        0 <= i < s.len(),
    ensures
        occurrences(s.take(i + 1), b) == occurrences(s.take(i), b) + (if s[i] == b {
            1nat
        } else {
            0nat
        }),
{
    assert(s.take(i + 1).drop_last() =~= s.take(i));
    assert(s.take(i + 1).last() == s[i]);
}

proof fn lemma_total_upto_update(s: Seq<usize>, n: int, j: int, v: usize)
    requires
        0 <= j < n <= s.len(),
    ensures
        total_upto(s.update(j, v), n) == total_upto(s, n) - s[j] + v,
    decreases n,
{
    if j == n - 1 {
        assert(forall|k: int| 0 <= k < n - 1 ==> s.update(j, v)[k] == s[k]);
        lemma_total_upto_pointwise(s, s.update(j, v), n - 1);
    } else {
        lemma_total_upto_update(s, n - 1, j, v);
    }
}

proof fn lemma_total_upto_pointwise(s: Seq<usize>, t: Seq<usize>, n: int)
    requires
        n <= s.len(),
        n <= t.len(),
        forall|k: int| 0 <= k < n ==> s[k] == t[k],
    ensures
        total_upto(s, n) == total_upto(t, n),
    decreases n,
{
    if n > 0 {
        lemma_total_upto_pointwise(s, t, n - 1);
    }
}

proof fn lemma_element_le_total(s: Seq<usize>, n: int, j: int)
    requires
        0 <= j < n <= s.len(),
    ensures
        s[j] as nat <= total_upto(s, n),
    decreases n,
{
    if j < n - 1 {
        lemma_element_le_total(s, n - 1, j);
    }
}

proof fn lemma_total_upto_zeroes(s: Seq<usize>, n: int)
    requires
        n <= s.len(),
        forall|k: int| 0 <= k < n ==> s[k] == 0usize,
    ensures
        total_upto(s, n) == 0,
    decreases n,
{
    if n > 0 {
        lemma_total_upto_zeroes(s, n - 1);
    }
}

/// Executable ASCII lowercasing of one byte.
pub fn lower_byte_value(b: u8) -> (r: u8)
    ensures
        r == lower_byte(b),
{
    if 65 <= b && b <= 90 {
        b + 32
    } else {
        b
    }
}

/// Executable ASCII lowercasing of a word.
pub fn lower_word(w: &Vec<u8>) -> (r: Vec<u8>)
    ensures
        r@ == lower_seq(w@),
{
    let mut out: Vec<u8> = Vec::new();
    let mut i: usize = 0;
    while i < w.len()
        invariant
            i <= w@.len(),
            out@ == lower_seq(w@).take(i as int),
        decreases w@.len() - i,
    {
        let b = lower_byte_value(w[i]);
        out.push(b);
        assert(lower_seq(w@).take(i + 1) =~= lower_seq(w@).take(i as int).push(lower_byte(w@[i as int])));
        i = i + 1;
    }
    assert(lower_seq(w@).take(w@.len() as int) =~= lower_seq(w@));
    out
}

/// Occurrence counts of each byte value in the ASCII-lowercased form of a word.
pub struct LetterMultiset {
    counts: Vec<usize>,
}

/// Sum of the multiset's counts over the byte values below `n`.
pub open spec fn count_sum_upto(m: LetterMultiset, n: int) -> nat
    decreases n,
{
    if n <= 0 {
        0
    } else {
        count_sum_upto(m, n - 1) + m.count((n - 1) as u8)
    }
}

impl LetterMultiset {
    /// Well-formed: one count per byte value, and the counts sum to a
    /// machine-representable total.
    pub closed spec fn wf(self) -> bool {
        &&& self.counts@.len() == 256
        &&& total_upto(self.counts@, 256) <= usize::MAX
    }

    /// The stored count for byte value `b`.
    pub closed spec fn count(self, b: u8) -> nat {
        self.counts@[b as int] as nat
    }

    /// The stored count for byte value `b`, as an executable value.
    pub fn get(&self, b: u8) -> (r: usize)
        requires
            self.wf(),
        ensures
            r as nat == self.count(b),
    {
        self.counts[b as usize]
    }

    /// Builds the letter multiset of `s`: lowercases `s` (ASCII, byte-wise)
    /// and counts the occurrences of each byte value. Never fails.
    pub fn build(s: &Vec<u8>) -> (r: LetterMultiset)
        ensures
            r.wf(),
            forall|b: u8| r.count(b) == occurrences(lower_seq(s@), b),
            count_sum_upto(r, 256) == s@.len(),
    {
        let mut counts: Vec<usize> = Vec::new();
        let mut k: usize = 0;
        while k < 256
            invariant
                k <= 256,
                counts@.len() == k,
                forall|j: int| 0 <= j < k ==> counts@[j] == 0usize,
            decreases 256 - k,
        {
            counts.push(0);
            k = k + 1;
        }
        proof {
            lemma_total_upto_zeroes(counts@, 256);
        }
        let ghost low = lower_seq(s@);
        let slen = s.len();
        let mut i: usize = 0;
        while i < slen
            invariant
                slen == s@.len(),
                i <= s@.len(),
                counts@.len() == 256,
                low == lower_seq(s@),
                forall|b: u8| #[trigger] occurrences(low.take(i as int), b) == counts@[b as int] as nat,
                total_upto(counts@, 256) == i as nat,
            decreases s@.len() - i,
        {
            let b = lower_byte_value(s[i]);
            let bi = b as usize;
            assert(low[i as int] == lower_byte(s@[i as int]));
            let c = counts[bi];
            let ghost pre = counts@;
            proof {
                assert(occurrences(low.take(i as int), b) == counts@[bi as int] as nat);
                lemma_element_le_total(counts@, 256, bi as int);
            }
            counts[bi] = c + 1;
            proof {
                assert(counts@ == pre.update(bi as int, (c + 1) as usize));
                lemma_total_upto_update(pre, 256, bi as int, (c + 1) as usize);
            }
            i = i + 1;
            proof {
                assert forall|bb: u8| #[trigger] occurrences(low.take(i as int), bb) == counts@[bb as int] as nat by {
                    lemma_occurrences_take_step(low, i - 1, bb);
                }
            }
        }
        proof {
            assert(low.take(s@.len() as int) =~= low);
        }
        let r = LetterMultiset { counts };
        proof {
            lemma_count_sum_eq_total(r, 256);
        }
        r
    }
}

proof fn lemma_count_sum_eq_total(m: LetterMultiset, n: int)
    requires
        m.counts@.len() == 256,
        n <= 256,
    ensures
        count_sum_upto(m, n) == total_upto(m.counts@, n),
    decreases n,
{
    if n > 0 {
        lemma_count_sum_eq_total(m, n - 1);
    }
}

/// ASCII lowercasing is idempotent.
pub proof fn lemma_lower_idempotent(s: Seq<u8>)
    ensures
        lower_seq(lower_seq(s)) == lower_seq(s),
{
    assert forall|i: int| 0 <= i < lower_seq(s).len() implies lower_seq(lower_seq(s))[i]
        == lower_seq(s)[i] by {
        assert(lower_seq(s)[i] == lower_byte(s[i]));
    }
    assert(lower_seq(lower_seq(s)) =~= lower_seq(s));
}

/// A well-formed multiset's counts sum to a machine-representable total.
pub proof fn lemma_wf_count_sum(m: LetterMultiset)
    requires
        m.wf(),
    ensures
        count_sum_upto(m, 256) <= usize::MAX,
{
    lemma_count_sum_eq_total(m, 256);
}

} // verus!
