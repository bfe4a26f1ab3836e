//! The result order: ascending byte length first, lexicographic (byte-wise)
//! within equal length, together with a verified insertion sort for it.

use vstd::prelude::*;
use crate::views::line_views;

verus! {

/// Byte-wise lexicographic order: `a` is less than or equal to `b`.
pub open spec fn lex_leq(a: Seq<u8>, b: Seq<u8>) -> bool
    decreases a.len(),
{
    if a.len() == 0 {
        true
    } else if b.len() == 0 {
        false
    } else if a[0] < b[0] {
        true
    } else if a[0] > b[0] {
        false
    } else {
        lex_leq(a.drop_first(), b.drop_first())
    }
}

/// The composite result order: primary key ascending length, secondary key
/// lexicographic within equal length.
pub open spec fn word_leq(a: Seq<u8>, b: Seq<u8>) -> bool {
    a.len() < b.len() || (a.len() == b.len() && lex_leq(a, b))
}

/// `s` is sorted under the composite result order.
pub open spec fn sorted_words(s: Seq<Seq<u8>>) -> bool {
    forall|i: int, j: int| 0 <= i < j < s.len() ==> word_leq(#[trigger] s[i], #[trigger] s[j])
}

pub proof fn lemma_lex_total(a: Seq<u8>, b: Seq<u8>)
    ensures
        lex_leq(a, b) || lex_leq(b, a),
    decreases a.len(),
{
    if a.len() > 0 && b.len() > 0 && a[0] == b[0] {
        lemma_lex_total(a.drop_first(), b.drop_first());
    }
}

pub proof fn lemma_lex_trans(a: Seq<u8>, b: Seq<u8>, c: Seq<u8>)
    requires
        lex_leq(a, b),
        lex_leq(b, c),
    ensures
        lex_leq(a, c),
    decreases a.len(),
{
    if a.len() > 0 {
        if a[0] == b[0] && b[0] == c[0] {
            lemma_lex_trans(a.drop_first(), b.drop_first(), c.drop_first());
        }
    }
}

/// The composite order is total.
pub proof fn lemma_word_total(a: Seq<u8>, b: Seq<u8>)
    ensures
        word_leq(a, b) || word_leq(b, a),
{
    if a.len() == b.len() {
        lemma_lex_total(a, b);
    }
}

/// The composite order is transitive.
pub proof fn lemma_word_trans(a: Seq<u8>, b: Seq<u8>, c: Seq<u8>)
    requires
        word_leq(a, b),
        word_leq(b, c),
    ensures
        word_leq(a, c),
{
    if a.len() == b.len() && b.len() == c.len() {
        lemma_lex_trans(a, b, c);
    }
}

proof fn lemma_lex_common_prefix(a: Seq<u8>, b: Seq<u8>, i: int)
    requires
        0 <= i <= a.len(),
        i <= b.len(),
        forall|j: int| 0 <= j < i ==> a[j] == b[j],
    ensures
        lex_leq(a, b) == lex_leq(a.skip(i), b.skip(i)),
    decreases i,
{
    if i > 0 {
        assert(a[0] == b[0]);
        assert(a.drop_first().skip(i - 1) =~= a.skip(i));
        assert(b.drop_first().skip(i - 1) =~= b.skip(i));
        lemma_lex_common_prefix(a.drop_first(), b.drop_first(), i - 1);
    } else {
        assert(a.skip(0) =~= a);
        assert(b.skip(0) =~= b);
    }
}

/// Decides the byte-wise lexicographic order.
fn lex_leq_words(a: &Vec<u8>, b: &Vec<u8>) -> (r: bool)
    ensures
        r == lex_leq(a@, b@),
{
    let alen = a.len();
    let blen = b.len();
    let mut i: usize = 0;
    while i < alen && i < blen
        invariant
            alen == a@.len(),
            blen == b@.len(),
            i <= alen,
            i <= blen,
            forall|j: int| 0 <= j < i ==> a@[j] == b@[j],
        decreases alen - i,
    {
        let x = a[i];
        let y = b[i];
        if x < y {
            proof {
                lemma_lex_common_prefix(a@, b@, i as int);
                assert(a@.skip(i as int)[0] == a@[i as int]);
                assert(b@.skip(i as int)[0] == b@[i as int]);
            }
            return true;
        }
        if x > y {
            proof {
                lemma_lex_common_prefix(a@, b@, i as int);
                assert(a@.skip(i as int)[0] == a@[i as int]);
                assert(b@.skip(i as int)[0] == b@[i as int]);
            }
            return false;
        }
        i = i + 1;
    }
    proof {
        lemma_lex_common_prefix(a@, b@, i as int);
        if i == alen {
            assert(a@.skip(i as int).len() == 0);
        } else {
            assert(b@.skip(i as int).len() == 0);
            assert(a@.skip(i as int).len() > 0);
        }
    }
    alen <= blen
}

/// Decides the composite result order.
fn word_leq_words(a: &Vec<u8>, b: &Vec<u8>) -> (r: bool)
    ensures
        r == word_leq(a@, b@),
{
    if a.len() < b.len() {
        true
    } else if a.len() == b.len() {
        lex_leq_words(a, b)
    } else {
        false
    }
}

/// Inserts `w` into `s` just before the first element that is not below or
/// equal to `w` under the composite order.
pub open spec fn insert_sorted(w: Seq<u8>, s: Seq<Seq<u8>>) -> Seq<Seq<u8>>
    decreases s.len(),
{
    if s.len() == 0 {
        seq![w]
    } else if word_leq(s[0], w) {
        seq![s[0]] + insert_sorted(w, s.drop_first())
    } else {
        seq![w] + s
    }
}

/// Insertion sort under the composite order: a word appearing several times
/// appears as often in the result.
pub open spec fn sort_words(s: Seq<Seq<u8>>) -> Seq<Seq<u8>>
    decreases s.len(),
{
    if s.len() == 0 {
        Seq::empty()
    } else {
        insert_sorted(s.last(), sort_words(s.drop_last()))
    }
}

pub proof fn lemma_insert_sorted_props(w: Seq<u8>, s: Seq<Seq<u8>>)
    ensures
        insert_sorted(w, s).len() == s.len() + 1,
        forall|k: int|
            0 <= k < insert_sorted(w, s).len() ==> (#[trigger] insert_sorted(w, s)[k] == w
                || s.contains(insert_sorted(w, s)[k])),
        sorted_words(s) ==> sorted_words(insert_sorted(w, s)),
    decreases s.len(),
{
    let r = insert_sorted(w, s);
    if s.len() == 0 {
    } else if word_leq(s[0], w) {
        let t = s.drop_first();
        lemma_insert_sorted_props(w, t);
        let rec = insert_sorted(w, t);
        assert(r == seq![s[0]] + rec);
        assert forall|k: int| 0 <= k < r.len() implies (#[trigger] r[k] == w || s.contains(r[k])) by {
            if k == 0 {
                assert(s[0] == r[k]);
                assert(s.contains(r[k]));
            } else {
                assert(r[k] == rec[k - 1]);
                if rec[k - 1] != w {
                    let idx = choose|idx: int| 0 <= idx < t.len() && t[idx] == rec[k - 1];
                    assert(s[idx + 1] == rec[k - 1]);
                    assert(s.contains(r[k]));
                }
            }
        }
        if sorted_words(s) {
            assert(sorted_words(t)) by {
                assert forall|i: int, j: int| 0 <= i < j < t.len() implies word_leq(
                    #[trigger] t[i],
                    #[trigger] t[j],
                ) by {
                    assert(t[i] == s[i + 1]);
                    assert(t[j] == s[j + 1]);
                }
            }
            assert forall|i: int, j: int| 0 <= i < j < r.len() implies word_leq(
                #[trigger] r[i],
                #[trigger] r[j],
            ) by {
                if i == 0 {
                    assert(r[0] == s[0]);
                    assert(r[j] == rec[j - 1]);
                    if rec[j - 1] == w {
                        assert(word_leq(s[0], w));
                    } else {
                        let idx = choose|idx: int| 0 <= idx < t.len() && t[idx] == rec[j - 1];
                        assert(s[idx + 1] == rec[j - 1]);
                        assert(word_leq(s[0], s[idx + 1]));
                    }
                } else {
                    assert(r[i] == rec[i - 1]);
                    assert(r[j] == rec[j - 1]);
                    assert(sorted_words(rec));
                }
            }
        }
    } else {
        lemma_word_total(s[0], w);
        assert(word_leq(w, s[0]));
        assert(r == seq![w] + s);
        if sorted_words(s) {
            assert forall|i: int, j: int| 0 <= i < j < r.len() implies word_leq(
                #[trigger] r[i],
                #[trigger] r[j],
            ) by {
                if i == 0 {
                    assert(r[j] == s[j - 1]);
                    if j > 1 {
                        assert(word_leq(s[0], s[j - 1]));
                        lemma_word_trans(w, s[0], s[j - 1]);
                    }
                } else {
                    assert(r[i] == s[i - 1]);
                    assert(r[j] == s[j - 1]);
                }
            }
        }
        assert forall|k: int| 0 <= k < r.len() implies (#[trigger] r[k] == w || s.contains(r[k])) by {
            if k > 0 {
                assert(r[k] == s[k - 1]);
                assert(s.contains(r[k]));
            }
        }
    }
}

/// The sort's result is sorted under the composite order, and keeps one entry
/// per input entry.
pub proof fn lemma_sort_words_sorted(s: Seq<Seq<u8>>)
    ensures
        sort_words(s).len() == s.len(),
        sorted_words(sort_words(s)),
    decreases s.len(),
{
    if s.len() > 0 {
        lemma_sort_words_sorted(s.drop_last());
        lemma_insert_sorted_props(s.last(), sort_words(s.drop_last()));
    }
}

proof fn lemma_insert_sorted_multiset(w: Seq<u8>, s: Seq<Seq<u8>>)
    ensures
        insert_sorted(w, s).to_multiset() == s.to_multiset().insert(w),
    decreases s.len(),
{
    broadcast use vstd::seq_lib::group_to_multiset_ensures;
    broadcast use vstd::multiset::group_multiset_axioms;

    if s.len() == 0 {
        assert(seq![w] =~= Seq::<Seq<u8>>::empty().push(w));
    } else if word_leq(s[0], w) {
        let t = s.drop_first();
        lemma_insert_sorted_multiset(w, t);
        vstd::seq_lib::lemma_multiset_commutative(seq![s[0]], insert_sorted(w, t));
        vstd::seq_lib::lemma_multiset_commutative(seq![s[0]], t);
        assert(seq![s[0]] + t =~= s);
        assert(seq![s[0]].to_multiset().add(t.to_multiset().insert(w)) =~= seq![
            s[0],
        ].to_multiset().add(t.to_multiset()).insert(w));
    } else {
        vstd::seq_lib::lemma_multiset_commutative(seq![w], s);
        assert(seq![w] =~= Seq::<Seq<u8>>::empty().push(w));
        assert(Seq::<Seq<u8>>::empty().to_multiset().insert(w).add(s.to_multiset()) =~=
            s.to_multiset().insert(w));
    }
}

/// Sorting permutes: the sorted list holds exactly the input's words, with
/// multiplicity, so duplicated words stay duplicated and none is lost or
/// invented.
pub proof fn lemma_sort_words_permutes(s: Seq<Seq<u8>>)
    ensures
        sort_words(s).to_multiset() == s.to_multiset(),
    decreases s.len(),
{
    broadcast use vstd::seq_lib::group_to_multiset_ensures;

    if s.len() > 0 {
        lemma_sort_words_permutes(s.drop_last());
        lemma_insert_sorted_multiset(s.last(), sort_words(s.drop_last()));
        assert(s.drop_last().push(s.last()) =~= s);
        assert(s.drop_last().push(s.last()).to_multiset() =~= s.drop_last().to_multiset().insert(
            s.last(),
        ));
    }
}

proof fn lemma_insert_sorted_at(w: Seq<u8>, s: Seq<Seq<u8>>, j: int)
    requires
        0 <= j <= s.len(),
        forall|k: int| 0 <= k < j ==> word_leq(#[trigger] s[k], w),
        j < s.len() ==> !word_leq(s[j], w),
    ensures
        insert_sorted(w, s) == s.insert(j, w),
    decreases j,
{
    if j == 0 {
        if s.len() == 0 {
            assert(insert_sorted(w, s) =~= s.insert(0, w));
        } else {
            assert(!word_leq(s[0], w));
            assert(seq![w] + s =~= s.insert(0, w));
        }
    } else {
        assert(word_leq(s[0], w));
        let t = s.drop_first();
        assert forall|k: int| 0 <= k < j - 1 implies word_leq(#[trigger] t[k], w) by {
            assert(t[k] == s[k + 1]);
        }
        assert(j - 1 < t.len() ==> !word_leq(t[j - 1], w));
        lemma_insert_sorted_at(w, t, j - 1);
        assert(seq![s[0]] + t.insert(j - 1, w) =~= s.insert(j, w));
    }
}

/// Inserts `w` into the sorted list `out`, keeping the spec-level insertion's
/// exact placement.
fn insert_word_sorted(out: &mut Vec<Vec<u8>>, w: Vec<u8>)
    ensures
        line_views(final(out)@) == insert_sorted(w@, line_views(old(out)@)),
{
    let ghost s0 = line_views(out@);
    let n = out.len();
    let mut j: usize = 0;
    while j < n
        invariant
            n == out@.len(),
            j <= n,
            line_views(out@) == s0,
            forall|k: int| 0 <= k < j ==> word_leq(#[trigger] s0[k], w@),
        ensures
            n == out@.len(),
            j <= n,
            line_views(out@) == s0,
            forall|k: int| 0 <= k < j ==> word_leq(#[trigger] s0[k], w@),
            j < n ==> !word_leq(s0[j as int], w@),
        decreases n - j,
    {
        let leq = word_leq_words(&out[j], &w);
        proof {
            assert(out@[j as int]@ == s0[j as int]);
        }
        if !leq {
            break;
        }
        j = j + 1;
    }
    proof {
        lemma_insert_sorted_at(w@, s0, j as int);
    }
    let ghost w_view = w@;
    out.insert(j, w);
    proof {
        assert(line_views(out@) =~= s0.insert(j as int, w_view));
    }
}

/// Sorts a word list under the composite order by repeated insertion.
pub fn sort_word_list(words: Vec<Vec<u8>>) -> (r: Vec<Vec<u8>>)
    ensures
        line_views(r@) == sort_words(line_views(words@)),
{
    let ghost orig = line_views(words@);
    let mut rest = words;
    let mut out: Vec<Vec<u8>> = Vec::new();
    while rest.len() > 0
        invariant
            rest@.len() <= orig.len(),
            line_views(rest@) == orig.skip(orig.len() - rest@.len()),
            line_views(out@) == sort_words(orig.take(orig.len() - rest@.len())),
        decreases rest@.len(),
    {
        let ghost k = orig.len() - rest@.len();
        let w = rest.remove(0);
        proof {
            assert(w@ == orig.skip(k)[0]);
            assert(w@ == orig[k]);
            assert(line_views(rest@) =~= orig.skip(k).drop_first());
            assert(orig.skip(k).drop_first() =~= orig.skip(k + 1));
            assert(orig.take(k + 1).drop_last() =~= orig.take(k));
            assert(orig.take(k + 1).last() == orig[k]);
        }
        insert_word_sorted(&mut out, w);
    }
    proof {
        assert(orig.take(orig.len() as int) =~= orig);
    }
    out
}

} // verus!
