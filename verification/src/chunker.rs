//! Packing an ordered word list into byte-capped message segments.
//!
//! Greedy left-to-right packing: each word adds its length plus one separator
//! byte to a running counter; when the counter reaches or exceeds the cap, a
//! new segment is opened, the counter is reduced by exactly the cap (the
//! overflow amount is carried forward, not reset), and the triggering word is
//! placed in the new segment. The empty input yields one empty segment.

use vstd::prelude::*;
use crate::views::line_views;
use crate::views::seg_views;

verus! {

/// Default byte cap for one outbound message segment.
pub const MESSAGE_CAP_BYTES: usize = 500;

/// The bytes a word adds to the running counter: its length plus one
/// separator byte.
pub open spec fn word_cost(w: Seq<u8>) -> nat {
    w.len() + 1
}

/// Sum of the costs of all words.
pub open spec fn total_cost(ws: Seq<Seq<u8>>) -> nat
    decreases ws.len(),
{
    if ws.len() == 0 {
        0
    } else {
        total_cost(ws.drop_last()) + word_cost(ws.last())
    }
}

/// The greedy packing state after consuming `words`: the segments built so
/// far, and the running byte counter.
pub open spec fn chunk_state(words: Seq<Seq<u8>>, cap: nat) -> (Seq<Seq<Seq<u8>>>, nat)
    decreases words.len(),
{
    if words.len() == 0 {
        (seq![Seq::<Seq<u8>>::empty()], 0nat)
    } else {
        let prev = chunk_state(words.drop_last(), cap);
        let t = prev.1 + word_cost(words.last());
        if t >= cap {
            (prev.0.push(seq![words.last()]), (t - cap) as nat)
        } else {
            (prev.0.update(prev.0.len() - 1, prev.0.last().push(words.last())), t)
        }
    }
}

/// The segments the greedy packing produces for `words` under `cap`.
pub open spec fn chunk_segments(words: Seq<Seq<u8>>, cap: nat) -> Seq<Seq<Seq<u8>>> {
    chunk_state(words, cap).0
}

/// The words of all segments, in order.
pub open spec fn words_of(segs: Seq<Seq<Seq<u8>>>) -> Seq<Seq<u8>>
    decreases segs.len(),
{
    if segs.len() == 0 {
        Seq::empty()
    } else {
        words_of(segs.drop_last()) + segs.last()
    }
}

/// Basic shape of the packing state: there is always at least one segment,
/// the counter never exceeds the total cost, and every packed word is a word
/// of the input.
pub proof fn lemma_chunk_state_basic(words: Seq<Seq<u8>>, cap: nat)
    ensures
        chunk_state(words, cap).0.len() >= 1,
        chunk_state(words, cap).1 <= total_cost(words),
        forall|j: int, m: int|
            0 <= j < chunk_state(words, cap).0.len() && 0 <= m < chunk_state(words, cap).0[j].len()
                ==> words.contains(#[trigger] chunk_state(words, cap).0[j][m]),
    decreases words.len(),
{
    if words.len() > 0 {
        let sub = words.drop_last();
        lemma_chunk_state_basic(sub, cap);
        let prev = chunk_state(sub, cap);
        let segs = chunk_state(words, cap).0;
        assert forall|j: int, m: int|
            0 <= j < segs.len() && 0 <= m < segs[j].len() implies words.contains(
            #[trigger] segs[j][m],
        ) by {
            let e = segs[j][m];
            if e == words.last() {
                assert(words[words.len() - 1] == e);
            } else {
                let t = prev.1 + word_cost(words.last());
                if t >= cap {
                    assert(j < prev.0.len());
                    assert(prev.0[j][m] == e);
                } else {
                    if j == prev.0.len() - 1 {
                        assert(segs[j] == prev.0.last().push(words.last()));
                        assert(m < prev.0[j].len());
                        assert(prev.0[j][m] == e);
                    } else {
                        assert(prev.0[j][m] == e);
                    }
                }
                assert(sub.contains(e));
                let idx = choose|idx: int| 0 <= idx < sub.len() && sub[idx] == e;
                assert(words[idx] == e);
            }
        }
    }
}

proof fn lemma_total_cost_take_le(ws: Seq<Seq<u8>>, k: int)
    requires
        0 <= k <= ws.len(),
    ensures
        total_cost(ws.take(k)) <= total_cost(ws),
    decreases ws.len(),
{
    if k == ws.len() {
        assert(ws.take(k) =~= ws);
    } else {
        assert(ws.take(k) =~= ws.drop_last().take(k));
        lemma_total_cost_take_le(ws.drop_last(), k);
    }
}

/// Packs `words` in order into segments: each word's cost (length plus one)
/// is added to a running counter; a word that drives the counter to the cap
/// or beyond opens a new segment, carries the overflow forward, and lands in
/// the new segment.
pub fn chunk(words: Vec<Vec<u8>>, cap_bytes: usize) -> (r: Vec<Vec<Vec<u8>>>)
    requires
        total_cost(line_views(words@)) <= usize::MAX,
    ensures
        seg_views(r@) == chunk_segments(line_views(words@), cap_bytes as nat),
{
    let ghost ws = line_views(words@);
    let mut rest = words;
    let mut done: Vec<Vec<Vec<u8>>> = Vec::new();
    let mut cur: Vec<Vec<u8>> = Vec::new();
    let mut counter: usize = 0;
    proof {
        assert(ws.take(0) =~= Seq::<Seq<u8>>::empty());
        assert(ws.skip(0) =~= ws);
        assert(line_views(cur@) =~= Seq::<Seq<u8>>::empty());
        assert(seg_views(done@).push(line_views(cur@)) =~= seq![Seq::<Seq<u8>>::empty()]);
    }
    while rest.len() > 0
        invariant
            rest@.len() <= ws.len(),
            line_views(rest@) == ws.skip(ws.len() - rest@.len()),
            total_cost(ws) <= usize::MAX,
            chunk_state(ws.take(ws.len() - rest@.len()), cap_bytes as nat).0 == seg_views(
                done@,
            ).push(line_views(cur@)),
            chunk_state(ws.take(ws.len() - rest@.len()), cap_bytes as nat).1 == counter as nat,
        decreases rest@.len(),
    {
        let ghost k = ws.len() - rest@.len();
        let w = rest.remove(0);
        proof {
            assert(w@ == ws.skip(k)[0]);
            assert(w@ == ws[k]);
            assert(line_views(rest@) =~= ws.skip(k).drop_first());
            assert(ws.skip(k).drop_first() =~= ws.skip(k + 1));
            assert(ws.take(k + 1).drop_last() =~= ws.take(k));
            assert(ws.take(k + 1).last() == ws[k]);
            lemma_total_cost_take_le(ws, k + 1);
            lemma_chunk_state_basic(ws.take(k), cap_bytes as nat);
        }
        let ghost prev_segs = seg_views(done@).push(line_views(cur@));
        let t = counter + w.len() + 1;
        if t >= cap_bytes {
            let ghost done0 = done@;
            let ghost cur0 = cur@;
            done.push(cur);
            cur = Vec::new();
            cur.push(w);
            counter = t - cap_bytes;
            proof {
                assert(seg_views(done@) =~= seg_views(done0).push(line_views(cur0)));
                assert(line_views(cur@) =~= seq![ws[k]]);
                assert(seg_views(done@).push(line_views(cur@)) =~= prev_segs.push(seq![ws[k]]));
            }
        } else {
            let ghost cur0 = cur@;
            cur.push(w);
            counter = t;
            proof {
                assert(line_views(cur@) =~= line_views(cur0).push(ws[k]));
                assert(prev_segs.update(prev_segs.len() - 1, prev_segs.last().push(ws[k])) =~=
                    seg_views(done@).push(line_views(cur@)));
            }
        }
    }
    proof {
        assert(ws.take(ws.len() - rest@.len()) =~= ws);
    }
    let ghost done1 = done@;
    let ghost cur1 = cur@;
    done.push(cur);
    proof {
        assert(seg_views(done@) =~= seg_views(done1).push(line_views(cur1)));
    }
    done
}

/// Concatenating all segments' word sequences in order reproduces the input
/// exactly: no word is lost, duplicated, or reordered.
pub proof fn lemma_chunk_preserves_words(words: Seq<Seq<u8>>, cap: nat)
    ensures
        words_of(chunk_segments(words, cap)) == words,
    decreases words.len(),
{
    if words.len() == 0 {
        let s1 = seq![Seq::<Seq<u8>>::empty()];
        assert(s1.drop_last() =~= Seq::<Seq<Seq<u8>>>::empty());
        assert(words_of(s1) == words_of(s1.drop_last()) + s1.last());
        assert(words_of(s1) =~= words);
    } else {
        let sub = words.drop_last();
        lemma_chunk_preserves_words(sub, cap);
        lemma_chunk_state_basic(sub, cap);
        let prev = chunk_state(sub, cap);
        let w = words.last();
        let t = prev.1 + word_cost(w);
        if t >= cap {
            let segs = prev.0.push(seq![w]);
            assert(segs.drop_last() =~= prev.0);
            assert(words_of(segs) == words_of(prev.0) + seq![w]);
            assert(words_of(prev.0) + seq![w] =~= words);
        } else {
            let segs = prev.0.update(prev.0.len() - 1, prev.0.last().push(w));
            assert(segs.drop_last() =~= prev.0.drop_last());
            assert(segs.last() == prev.0.last().push(w));
            assert(words_of(segs) == words_of(prev.0.drop_last()) + prev.0.last().push(w));
            assert(words_of(prev.0.drop_last()) + prev.0.last().push(w) =~= (words_of(
                prev.0.drop_last(),
            ) + prev.0.last()).push(w));
            assert(words_of(prev.0) == words_of(prev.0.drop_last()) + prev.0.last());
            assert(words_of(prev.0).push(w) =~= words);
        }
    }
}

/// When every word's cost is below the cap, a non-empty input leaves no
/// segment empty, and the counter stays below the cap.
pub proof fn lemma_chunk_segments_filled(words: Seq<Seq<u8>>, cap: nat)
    requires
        forall|k: int| 0 <= k < words.len() ==> word_cost(#[trigger] words[k]) < cap,
        words.len() > 0,
    ensures
        forall|j: int|
            0 <= j < chunk_segments(words, cap).len() ==> (#[trigger] chunk_segments(words, cap)[j]).len()
                > 0,
        chunk_state(words, cap).1 < cap,
    decreases words.len(),
{
    let sub = words.drop_last();
    let w = words.last();
    assert(word_cost(w) < cap);
    if sub.len() == 0 {
        assert(chunk_state(sub, cap) == (seq![Seq::<Seq<u8>>::empty()], 0nat));
        let segs = chunk_segments(words, cap);
        assert(segs == seq![Seq::<Seq<u8>>::empty()].update(0, Seq::<Seq<u8>>::empty().push(w)));
        assert(segs[0].len() == 1);
    } else {
        assert(forall|k: int| 0 <= k < sub.len() ==> word_cost(#[trigger] sub[k]) < cap);
        lemma_chunk_segments_filled(sub, cap);
        lemma_chunk_state_basic(sub, cap);
        let prev = chunk_state(sub, cap);
        let t = prev.1 + word_cost(w);
        if t >= cap {
            let segs = prev.0.push(seq![w]);
            assert forall|j: int| 0 <= j < segs.len() implies (#[trigger] segs[j]).len() > 0 by {
                if j < prev.0.len() {
                    assert(segs[j] == chunk_segments(sub, cap)[j]);
                }
            }
        } else {
            let segs = prev.0.update(prev.0.len() - 1, prev.0.last().push(w));
            assert forall|j: int| 0 <= j < segs.len() implies (#[trigger] segs[j]).len() > 0 by {
                if j < prev.0.len() - 1 {
                    assert(segs[j] == chunk_segments(sub, cap)[j]);
                } else {
                    assert(segs[j] == chunk_segments(sub, cap)[prev.0.len() - 1].push(w));
                }
            }
        }
    }
}

/// A segment's rendering: its words joined by a single space.
pub open spec fn render_words(ws: Seq<Seq<u8>>) -> Seq<u8>
    decreases ws.len(),
{
    if ws.len() == 0 {
        Seq::empty()
    } else if ws.len() == 1 {
        ws[0]
    } else {
        render_words(ws.drop_last()) + seq![32u8] + ws.last()
    }
}

/// Renders a segment: its words joined by a single space byte.
pub fn render_segment(segment: &Vec<Vec<u8>>) -> (r: Vec<u8>)
    ensures
        r@ == render_words(line_views(segment@)),
{
    let ghost ws = line_views(segment@);
    let mut out: Vec<u8> = Vec::new();
    let n = segment.len();
    let mut j: usize = 0;
    while j < n
        invariant
            n == segment@.len(),
            ws == line_views(segment@),
            j <= n,
            out@ == render_words(ws.take(j as int)),
        decreases n - j,
    {
        proof {
            assert(ws.take(j + 1).drop_last() =~= ws.take(j as int));
            assert(ws.take(j + 1).last() == ws[j as int]);
        }
        if j > 0 {
            out.push(32);
        }
        let word = &segment[j];
        proof {
            assert(word@ == ws[j as int]);
        }
        let wlen = word.len();
        let ghost base = out@;
        let mut m: usize = 0;
        while m < wlen
            invariant
                wlen == word@.len(),
                m <= wlen,
                out@ == base + word@.take(m as int),
            decreases wlen - m,
        {
            out.push(word[m]);
            proof {
                assert(base + word@.take(m + 1) =~= (base + word@.take(m as int)).push(
                    word@[m as int],
                ));
            }
            m = m + 1;
        }
        proof {
            assert(word@.take(wlen as int) =~= word@);
            if j == 0 {
                assert(base =~= Seq::<u8>::empty());
                assert(out@ =~= render_words(ws.take(1)));
            } else {
                assert(out@ =~= render_words(ws.take(j as int)) + seq![32u8] + ws[j as int]);
            }
        }
        j = j + 1;
    }
    proof {
        assert(ws.take(n as int) =~= ws);
    }
    out
}

proof fn lemma_render_words_nonempty(ws: Seq<Seq<u8>>)
    requires
        ws.len() > 0,
        forall|m: int| 0 <= m < ws.len() ==> (#[trigger] ws[m]).len() > 0,
    ensures
        render_words(ws).len() > 0,
{
    if ws.len() == 1 {
        assert(ws[0].len() > 0);
    }
}

/// With every word non-empty and every word's cost below the cap, no rendered
/// segment of a non-empty input is empty.
pub proof fn lemma_chunk_render_nonempty(words: Seq<Seq<u8>>, cap: nat)
    requires
        forall|k: int| 0 <= k < words.len() ==> word_cost(#[trigger] words[k]) < cap,
        forall|k: int| 0 <= k < words.len() ==> (#[trigger] words[k]).len() > 0,
        words.len() > 0,
    ensures
        forall|j: int|
            0 <= j < chunk_segments(words, cap).len() ==> render_words(
                #[trigger] chunk_segments(words, cap)[j],
            ).len() > 0,
{
    lemma_chunk_segments_filled(words, cap);
    lemma_chunk_state_basic(words, cap);
    let segs = chunk_segments(words, cap);
    assert forall|j: int| 0 <= j < segs.len() implies render_words(#[trigger] segs[j]).len()
        > 0 by {
        assert forall|m: int| 0 <= m < segs[j].len() implies (#[trigger] segs[j][m]).len() > 0 by {
            assert(words.contains(segs[j][m]));
            let idx = choose|idx: int| 0 <= idx < words.len() && words[idx] == segs[j][m];
            assert(words[idx].len() > 0);
        }
        lemma_render_words_nonempty(segs[j]);
    }
}

} // verus!
