//! The single-term scorer interface and its built-in implementation.
//!
//! For a query without spaces the pipeline delegates per-line scoring to a
//! single-term scorer: any implementation of `LineScorer`.  The algorithm
//! behind such a scorer is outside this library's concern; the interface
//! only demands that a reported match be well-formed.  The built-in
//! `AsciiSubstrScorer` matches the query as one ASCII-case-insensitive
//! substring and is verified against an exact contract.

use vstd::prelude::*;
use crate::score::MAX_POS;
use crate::score::Score;
use crate::search::find_start_at;
use crate::search::first_match_from;
use crate::search::lemma_first_match_from;
use crate::substr::strictly_ascending;

verus! {

/// A per-line scorer for a single-term query: `(line, query) -> Option of
/// (score, matched byte offsets)`.  The offsets index the line's bytes,
/// ascending and without duplicates; no match at all is `None`.
pub trait LineScorer {
    fn score_line(&self, line: &Vec<u8>, query: &Vec<u8>) -> (r: Option<(Score, Vec<usize>)>)
        ensures
            r matches Some((s, p)) ==> {
                &&& s.wf()
                &&& strictly_ascending(p@)
                &&& forall|i: int| 0 <= i < p@.len() ==> #[trigger] p@[i] < line@.len()
            },
    ;
}

/// ASCII lower-casing of one byte.
pub open spec fn ascii_lower(b: u8) -> u8 {
    if 65 <= b <= 90 {
        (b + 32) as u8
    } else {
        b
    }
}

/// ASCII lower-casing of a byte sequence.
pub open spec fn ascii_folded(s: Seq<u8>) -> Seq<u8> {
    s.map_values(|b: u8| ascii_lower(b))
}

/// What the built-in scorer returns: the first occurrence of the
/// case-folded query in the case-folded line, scored by its span; an empty
/// query trivially matches with score zero.  Lines too long for exact
/// score arithmetic are not scored.
pub open spec fn ascii_single_result(line: Seq<u8>, query: Seq<u8>) -> Option<(Score, Seq<int>)> {
    if line.len() > MAX_POS + 1 {
        None
    } else if query.len() == 0 {
        Some((Score::Ratio { num: 0, den: 1 }, Seq::empty()))
    } else {
        match first_match_from(ascii_folded(line), ascii_folded(query), 0) {
            None => None,
            Some(i) => Some(
                (
                    Score::Span { first: i as u32, last: (i + query.len() - 1) as u32 },
                    Seq::new(query.len() as nat, |k: int| i + k),
                ),
            ),
        }
    }
}

/// ASCII lower-casing of a byte vector.
fn fold_bytes(s: &Vec<u8>) -> (r: Vec<u8>)
    ensures
        r@ == ascii_folded(s@),
{
    let n = s.len();
    let mut r: Vec<u8> = Vec::new();
    let mut i: usize = 0;
    while i < n
        invariant
            i <= n,
            n == s@.len(),
            r@.len() == i,
            forall|j: int| 0 <= j < i ==> r@[j] == ascii_lower(s@[j]),
        decreases n - i,
    {
        let b = s[i];
        if 65 <= b && b <= 90 {
            r.push(b + 32);
        } else {
            r.push(b);
        }
        i = i + 1;
    }
    proof {
        assert(r@ =~= ascii_folded(s@));
    }
    r
}

/// Scores one line against a single-term query as an
/// ASCII-case-insensitive substring match; exactly realises
/// `ascii_single_result`.
pub fn ascii_score_line(line: &Vec<u8>, query: &Vec<u8>) -> (r: Option<(Score, Vec<usize>)>)
    ensures
        r is Some <==> ascii_single_result(line@, query@) is Some,
        r matches Some((s, p)) ==> {
            &&& ascii_single_result(line@, query@) matches Some(exp) && s == exp.0
                && p@.map_values(|x: usize| x as int) == exp.1
            &&& s.wf()
            &&& strictly_ascending(p@)
            &&& forall|i: int| 0 <= i < p@.len() ==> #[trigger] p@[i] < line@.len()
        },
{
    if line.len() > (MAX_POS as usize) + 1 {
        return None;
    }
    if query.len() == 0 {
        let p: Vec<usize> = Vec::new();
        proof {
            assert(p@.map_values(|x: usize| x as int) =~= Seq::<int>::empty());
        }
        return Some((Score::zero(), p));
    }
    let fline = fold_bytes(line);
    let fquery = fold_bytes(query);
    proof {
        lemma_first_match_from(fline@, fquery@, 0);
    }
    proof {
        assert(fline@.len() == line@.len());
        assert(fquery@.len() == query@.len());
    }
    match find_start_at(&fline, 0, &fquery) {
        None => None,
        Some(idx) => {
            let qlen = query.len();
            let mut p: Vec<usize> = Vec::new();
            let mut c: usize = 0;
            while c < qlen
                invariant
                    c <= qlen,
                    idx + qlen <= line@.len(),
                    idx + qlen <= MAX_POS + 1,
                    p@.len() == c,
                    forall|j: int| 0 <= j < c ==> p@[j] == idx + j,
                decreases qlen - c,
            {
                p.push(idx + c);
                c = c + 1;
            }
            let score = Score::Span { first: idx as u32, last: (idx + qlen - 1) as u32 };
            proof {
                assert(p@.map_values(|x: usize| x as int) =~= Seq::new(
                    query@.len() as nat,
                    |k: int| idx + k,
                ));
            }
            Some((score, p))
        },
    }
}

/// The built-in single-term scorer: an ASCII-case-insensitive substring
/// match of the whole query.
pub struct AsciiSubstrScorer;

impl LineScorer for AsciiSubstrScorer {
    fn score_line(&self, line: &Vec<u8>, query: &Vec<u8>) -> (r: Option<(Score, Vec<usize>)>) {
        ascii_score_line(line, query)
    }
}

/// Shifts matched byte offsets forward so that offsets computed on an
/// icon-stripped line index the original, icon-prefixed line again: every
/// offset is returned increased by exactly `amount`.
pub fn shift_positions(p: &Vec<usize>, amount: usize, bound: usize) -> (r: Vec<usize>)
    requires
        forall|i: int| 0 <= i < p@.len() ==> #[trigger] p@[i] < bound,
        bound + amount <= usize::MAX,
    ensures
        r@.len() == p@.len(),
        forall|i: int| 0 <= i < p@.len() ==> #[trigger] r@[i] == p@[i] + amount,
{
    let n = p.len();
    let mut r: Vec<usize> = Vec::new();
    let mut i: usize = 0;
    while i < n
        invariant
            i <= n,
            n == p@.len(),
            forall|j: int| 0 <= j < p@.len() ==> #[trigger] p@[j] < bound,
            bound + amount <= usize::MAX,
            r@.len() == i,
            forall|j: int| 0 <= j < i ==> #[trigger] r@[j] == p@[j] + amount,
        decreases n - i,
    {
        r.push(p[i] + amount);
        i = i + 1;
    }
    r
}

} // verus!
