//! The dictionary scan: split a dictionary text into lines, keep the
//! lowercased words that the request accepts, and sort them.

use vstd::prelude::*;
use crate::letters::LetterMultiset;
use crate::letters::lemma_lower_idempotent;
use crate::letters::lower_seq;
use crate::letters::lower_word;
use crate::letters::occurrences;
use crate::matching::MatchPolicy;
use crate::matching::lemma_match_bridge;
use crate::matching::seq_match;
use crate::ordering::lemma_sort_words_sorted;
use crate::ordering::sort_word_list;
use crate::ordering::sort_words;
use crate::ordering::sorted_words;
use crate::views::line_views;

verus! {

/// ASCII whitespace, as far as line blanking is concerned.
pub open spec fn is_space(b: u8) -> bool {
    b == 32 || (9 <= b && b <= 13)
}

/// A line is blank when it holds nothing but whitespace.
pub open spec fn is_blank(line: Seq<u8>) -> bool {
    forall|i: int| 0 <= i < line.len() ==> is_space(#[trigger] line[i])
}

/// The lines of `s`, split on the newline byte. The empty text is one empty
/// line; a trailing newline yields a final empty line.
pub open spec fn split_lines(s: Seq<u8>) -> Seq<Seq<u8>>
    decreases s.len(),
{
    if s.len() == 0 {
        seq![Seq::<u8>::empty()]
    } else {
        let rest = split_lines(s.drop_last());
        if s.last() == 10 {
            rest.push(Seq::<u8>::empty())
        } else {
            rest.update(rest.len() - 1, rest.last().push(s.last()))
        }
    }
}

pub proof fn lemma_split_lines_nonempty(s: Seq<u8>)
    ensures
        split_lines(s).len() >= 1,
    decreases s.len(),
{
    if s.len() > 0 {
        lemma_split_lines_nonempty(s.drop_last());
    }
}

/// Splits a text into its lines.
pub fn split_into_lines(text: &Vec<u8>) -> (r: Vec<Vec<u8>>)
    ensures
        line_views(r@) == split_lines(text@),
{
    let mut done: Vec<Vec<u8>> = Vec::new();
    let mut cur: Vec<u8> = Vec::new();
    let tlen = text.len();
    let mut i: usize = 0;
    while i < tlen
        invariant
            tlen == text@.len(),
            i <= tlen,
            split_lines(text@.take(i as int)) == line_views(done@).push(cur@),
        decreases tlen - i,
    {
        let b = text[i];
        let ghost prefix = text@.take(i as int);
        let ghost before = line_views(done@).push(cur@);
        proof {
            assert(text@.take(i + 1).drop_last() =~= prefix);
            assert(text@.take(i + 1).last() == text@[i as int]);
            lemma_split_lines_nonempty(prefix);
        }
        if b == 10 {
            let ghost done0 = done@;
            let ghost cur0 = cur@;
            done.push(cur);
            cur = Vec::new();
            proof {
                assert(line_views(done@) =~= line_views(done0).push(cur0));
                assert(split_lines(text@.take(i + 1)) =~= line_views(done@).push(cur@));
            }
        } else {
            let ghost cur0 = cur@;
            cur.push(b);
            proof {
                assert(before.update(before.len() - 1, before.last().push(text@[i as int]))
                    =~= line_views(done@).push(cur@));
            }
        }
        i = i + 1;
    }
    proof {
        assert(text@.take(tlen as int) =~= text@);
    }
    let ghost done1 = done@;
    let ghost cur1 = cur@;
    done.push(cur);
    proof {
        assert(line_views(done@) =~= line_views(done1).push(cur1));
    }
    done
}

/// Why a request is rejected at construction.
#[derive(Clone, Copy, Debug, PartialEq, Eq)]
pub enum RequestError {
    /// The pool word has no letters.
    EmptyPoolWord,
    /// The length bounds are not positive, or the minimum exceeds the maximum.
    InvalidBounds,
}

/// Why a scan fails.
#[derive(Clone, Copy, Debug, PartialEq, Eq)]
pub enum ScanError {
    /// The dictionary identifier did not resolve to a text.
    DictionaryNotFound,
}

/// A validated search request: pool word, inclusive length bounds, match
/// policy, and the key naming the dictionary to scan.
#[derive(Debug)]
pub struct SearchRequest {
    /// The pool word whose letters constrain candidates.
    pub pool_word: Vec<u8>,
    /// Smallest accepted candidate length, in bytes.
    pub minimum_length: usize,
    /// Largest accepted candidate length, in bytes.
    pub maximum_length: usize,
    /// How candidates are matched against the pool.
    pub policy: MatchPolicy,
    /// Key under which the caller resolves the dictionary text.
    pub dictionary_id: Vec<u8>,
}

impl SearchRequest {
    /// The request invariant: positive, ordered bounds and a non-empty pool.
    pub open spec fn wf(self) -> bool {
        &&& 1 <= self.minimum_length
        &&& self.minimum_length <= self.maximum_length
        &&& self.pool_word@.len() > 0
    }

    /// Validates and builds a request. The pool word must be non-empty, and
    /// the bounds positive with the minimum at most the maximum.
    pub fn new(
        pool_word: Vec<u8>,
        minimum_length: usize,
        maximum_length: usize,
        policy: MatchPolicy,
        dictionary_id: Vec<u8>,
    ) -> (r: Result<SearchRequest, RequestError>)
        ensures
            match r {
                Ok(req) => {
                    &&& req.wf()
                    &&& req.pool_word@ == pool_word@
                    &&& req.minimum_length == minimum_length
                    &&& req.maximum_length == maximum_length
                    &&& req.policy == policy
                    &&& req.dictionary_id@ == dictionary_id@
                },
                Err(e) => {
                    &&& (e == RequestError::EmptyPoolWord <==> pool_word@.len() == 0)
                    &&& (e == RequestError::InvalidBounds ==> !(1 <= minimum_length
                        && minimum_length <= maximum_length))
                },
            },
    {
        if pool_word.len() == 0 {
            Err(RequestError::EmptyPoolWord)
        } else if minimum_length == 0 || minimum_length > maximum_length {
            Err(RequestError::InvalidBounds)
        } else {
            Ok(SearchRequest { pool_word, minimum_length, maximum_length, policy, dictionary_id })
        }
    }
}

/// Whether a dictionary line is retained by a request: the line is not blank,
/// its lowercased form (whose length equals the line's) lies within the length
/// bounds, and its letters match the pool under the request's policy.
pub open spec fn keeps(req: SearchRequest, line: Seq<u8>) -> bool {
    &&& !is_blank(line)
    &&& req.minimum_length <= line.len()
    &&& line.len() <= req.maximum_length
    &&& seq_match(lower_seq(req.pool_word@), lower_seq(line), req.policy)
}

/// The retained lines, lowercased, in dictionary order.
pub open spec fn selected_from(lines: Seq<Seq<u8>>, req: SearchRequest) -> Seq<Seq<u8>>
    decreases lines.len(),
{
    if lines.len() == 0 {
        Seq::empty()
    } else {
        let rest = selected_from(lines.drop_last(), req);
        if keeps(req, lines.last()) {
            rest.push(lower_seq(lines.last()))
        } else {
            rest
        }
    }
}

/// Every word a dictionary text yields for a request, in the final order:
/// ascending length first, lexicographic within equal length.
pub open spec fn scan_result(text: Seq<u8>, req: SearchRequest) -> Seq<Seq<u8>> {
    sort_words(selected_from(split_lines(text), req))
}

/// Decides whether a line is blank.
pub fn is_blank_line(line: &Vec<u8>) -> (r: bool)
    ensures
        r == is_blank(line@),
{
    let n = line.len();
    let mut i: usize = 0;
    while i < n
        invariant
            n == line@.len(),
            i <= n,
            forall|k: int| 0 <= k < i ==> is_space(#[trigger] line@[k]),
        decreases n - i,
    {
        let b = line[i];
        if !(b == 32 || (9 <= b && b <= 13)) {
            assert(!is_space(line@[i as int]));
            return false;
        }
        i = i + 1;
    }
    true
}

/// Scans a resolved dictionary text for the request: splits it into lines,
/// keeps each non-blank lowercased line whose length lies within the bounds
/// and whose letters match the pool under the policy, and sorts the result by
/// ascending length, lexicographically within equal length. Duplicates in the
/// text stay duplicated. An unresolved dictionary (`None`) is the one failure.
pub fn scan(request: &SearchRequest, dictionary: Option<&Vec<u8>>) -> (r: Result<
    Vec<Vec<u8>>,
    ScanError,
>)
    requires
        request.wf(),
    ensures
        match r {
            Ok(words) => {
                &&& dictionary is Some
                &&& line_views(words@) == scan_result(dictionary->Some_0@, *request)
                &&& sorted_words(line_views(words@))
            },
            Err(e) => {
                &&& dictionary is None
                &&& e == ScanError::DictionaryNotFound
            },
        },
{
    let text = match dictionary {
        None => {
            return Err(ScanError::DictionaryNotFound);
        },
        Some(text) => text,
    };
    let pool_ms = LetterMultiset::build(&request.pool_word);
    let lines = split_into_lines(text);
    let ghost line_seq = split_lines(text@);
    let mut selected: Vec<Vec<u8>> = Vec::new();
    let n = lines.len();
    let mut i: usize = 0;
    while i < n
        invariant
            n == lines@.len(),
            line_views(lines@) == line_seq,
            i <= n,
            pool_ms.wf(),
            forall|b: u8| pool_ms.count(b) == occurrences(lower_seq(request.pool_word@), b),
            line_views(selected@) == selected_from(line_seq.take(i as int), *request),
        decreases n - i,
    {
        let line = &lines[i];
        proof {
            assert(line@ == line_seq[i as int]);
            assert(line_seq.take(i + 1).drop_last() =~= line_seq.take(i as int));
            assert(line_seq.take(i + 1).last() == line_seq[i as int]);
        }
        if !is_blank_line(line) {
            let cand = lower_word(line);
            if request.minimum_length <= cand.len() && cand.len() <= request.maximum_length {
                let cand_ms = LetterMultiset::build(&cand);
                let ok = crate::matching::matches(&pool_ms, &cand_ms, &request.policy);
                proof {
                    lemma_lower_idempotent(line@);
                    lemma_match_bridge(
                        pool_ms,
                        cand_ms,
                        lower_seq(request.pool_word@),
                        lower_seq(line@),
                        request.policy,
                    );
                }
                if ok {
                    let ghost sel0 = selected@;
                    let ghost cand0 = cand@;
                    selected.push(cand);
                    proof {
                        assert(line_views(selected@) =~= line_views(sel0).push(cand0));
                    }
                }
            }
        }
        i = i + 1;
    }
    proof {
        assert(line_seq.take(n as int) =~= line_seq);
    }
    let out = sort_word_list(selected);
    proof {
        lemma_sort_words_sorted(selected_from(line_seq, *request));
    }
    Ok(out)
}

} // verus!
