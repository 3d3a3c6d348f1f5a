//! The whitespace-aware multi-term substring scorer.
//!
//! The query is split into terms; each term, lower-cased, is searched in
//! the lower-cased line strictly left to right: a term may only match at
//! or after the end of the previous term's match.  This is a deliberate,
//! non-backtracking policy: a later term never matches before an earlier
//! term's match region, even when some other assignment of terms would
//! succeed.  Matched positions are byte offsets into the lower-cased
//! line's UTF-8 bytes; where lower-casing changes a character's byte
//! length these can drift from the original text, a known limitation that
//! is not corrected here.

use vstd::prelude::*;
use vstd::utf8::encode_utf8;
use crate::query::terms_of;
use crate::score::MAX_POS;
use crate::score::Score;
use crate::search::find_start_at;
use crate::search::first_match_from;
use crate::search::lemma_first_match_from;
use crate::text::chars_vec;
use crate::text::lower_of;
use crate::text::lower_utf8;

verus! {

/// Byte offsets strictly increase.
pub open spec fn strictly_ascending(p: Seq<usize>) -> bool {
    forall|i: int, j: int| 0 <= i < j < p.len() ==> p[i] < p[j]
}

/// The lower-cased line as UTF-8 bytes: the text the scorer searches.
pub open spec fn hay_of(line: Seq<char>) -> Seq<u8> {
    encode_utf8(lower_of(line))
}

/// The lower-cased query terms as UTF-8 bytes: the needles, in order.
pub open spec fn needles_of(q: Seq<char>) -> Seq<Seq<u8>> {
    terms_of(q).map_values(|t: Seq<char>| encode_utf8(lower_of(t)))
}

/// The strict left-to-right match: each needle is matched at its first
/// occurrence at or after the cursor, and the cursor advances to one past
/// that match.  The result is the concatenation of every byte offset each
/// match spans, or `None` as soon as one needle is not found.
pub open spec fn greedy_positions(needles: Seq<Seq<u8>>, hay: Seq<u8>, from: int) -> Option<
    Seq<int>,
>
    decreases needles.len(),
{
    if needles.len() == 0 {
        Some(Seq::empty())
    } else {
        match first_match_from(hay, needles[0], from) {
            None => None,
            Some(i) => match greedy_positions(needles.drop_first(), hay, i + needles[0].len()) {
                None => None,
                Some(rest) => Some(Seq::new(needles[0].len() as nat, |k: int| i + k) + rest),
            },
        }
    }
}

/// What the multi-term scorer returns: the greedy match of the lower-cased
/// terms against the lower-cased line, scored by its first and last
/// offsets, or zero when the query has no terms.  Lines whose folded form
/// is too long for exact score arithmetic are not scored.
pub open spec fn substr_result(q: Seq<char>, line: Seq<char>) -> Option<(Score, Seq<int>)> {
    if hay_of(line).len() > MAX_POS + 1 {
        None
    } else {
        match greedy_positions(needles_of(q), hay_of(line), 0) {
            None => None,
            Some(pos) => Some(
                (
                    if pos.len() == 0 {
                        Score::Ratio { num: 0, den: 1 }
                    } else {
                        Score::Span { first: pos[0] as u32, last: pos.last() as u32 }
                    },
                    pos,
                ),
            ),
        }
    }
}

/// A greedy match yields strictly ascending offsets, all at or after the
/// cursor and within the haystack.  In particular each term's match region
/// lies entirely after the previous term's region: the match succeeds only
/// under this monotonic reading of the query.
pub proof fn lemma_greedy_ascending(needles: Seq<Seq<u8>>, hay: Seq<u8>, from: int)
    requires
        0 <= from,
    ensures
        greedy_positions(needles, hay, from) matches Some(pos) ==> {
            &&& forall|i: int| 0 <= i < pos.len() ==> from <= #[trigger] pos[i] < hay.len()
            &&& forall|i: int, j: int| 0 <= i < j < pos.len() ==> pos[i] < pos[j]
        },
    decreases needles.len(),
{
    if needles.len() == 0 {
    } else {
        lemma_first_match_from(hay, needles[0], from);
        match first_match_from(hay, needles[0], from) {
            None => {},
            Some(i) => {
                lemma_greedy_ascending(needles.drop_first(), hay, i + needles[0].len());
                match greedy_positions(needles.drop_first(), hay, i + needles[0].len()) {
                    None => {},
                    Some(rest) => {
                        let head = Seq::new(needles[0].len() as nat, |k: int| i + k);
                        let pos = head + rest;
                        assert forall|a: int| 0 <= a < pos.len() implies from <= #[trigger] pos[a]
                            < hay.len() by {
                            if a < head.len() {
                                assert(pos[a] == i + a);
                            } else {
                                assert(pos[a] == rest[a - head.len()]);
                            }
                        }
                        assert forall|a: int, b: int| 0 <= a < b < pos.len() implies pos[a]
                            < pos[b] by {
                            if b < head.len() {
                            } else if a < head.len() {
                                assert(pos[a] == i + a);
                                assert(pos[b] == rest[b - head.len()]);
                            } else {
                                assert(pos[a] == rest[a - head.len()]);
                                assert(pos[b] == rest[b - head.len()]);
                            }
                        }
                    },
                }
            },
        }
    }
}

/// Scores a space-separated query against one line.
///
/// Exactly realises `substr_result`: `None` when some term cannot be found
/// under the strict left-to-right policy (or the folded line is too long
/// to score); otherwise the score and every matched byte offset, in
/// ascending order, offsets into the lower-cased line's UTF-8 bytes.  A
/// query with no terms trivially matches with score zero and no offsets.
pub fn substr_scorer(query: &str, line: &str) -> (r: Option<(Score, Vec<usize>)>)
    ensures
        r is Some <==> substr_result(query@, line@) is Some,
        r matches Some((s, p)) ==> {
            &&& substr_result(query@, line@) matches Some(exp) && s == exp.0 && p@.map_values(
                |x: usize| x as int,
            ) == exp.1
            &&& s.wf()
            &&& strictly_ascending(p@)
            &&& forall|i: int| 0 <= i < p@.len() ==> #[trigger] p@[i] < hay_of(line@).len()
        },
{
    let qchars = chars_vec(query);
    let terms = split_terms_utf8(&qchars);
    let lchars = chars_vec(line);
    let hay = lower_utf8(&lchars);
    let ghost needles = needles_of(query@);
    if hay.len() > (MAX_POS as usize) + 1 {
        return None;
    }
    let mut positions: Vec<usize> = Vec::new();
    let mut offset: usize = 0;
    let mut k: usize = 0;
    let nterms = terms.len();
    proof {
        assert(needles.skip(0) =~= needles);
        assert(positions@.map_values(|x: usize| x as int) =~= Seq::<int>::empty());
    }
    while k < nterms
        invariant
            k <= nterms,
            nterms == needles.len(),
            terms@.len() == needles.len(),
            forall|t: int| 0 <= t < needles.len() ==> terms@[t]@ == #[trigger] needles[t],
            hay@ == hay_of(line@),
            hay@.len() <= MAX_POS + 1,
            needles == needles_of(query@),
            offset <= hay@.len(),
            forall|i: int| 0 <= i < positions@.len() ==> #[trigger] positions@[i] < offset,
            strictly_ascending(positions@),
            match greedy_positions(needles.skip(k as int), hay@, offset as int) {
                Some(rest) => greedy_positions(needles, hay@, 0) == Some(
                    positions@.map_values(|x: usize| x as int) + rest,
                ),
                None => greedy_positions(needles, hay@, 0) is None,
            },
        decreases nterms - k,
    {
        let needle = &terms[k];
        proof {
            assert(needles.skip(k as int)[0] == needles[k as int]);
            assert(needles.skip(k as int).drop_first() =~= needles.skip(k + 1));
            lemma_first_match_from(hay@, needle@, offset as int);
        }
        match find_start_at(&hay, offset, needle) {
            None => {
                return None;
            },
            Some(idx) => {
                let nlen = needle.len();
                let ghost old_positions = positions@;
                let ghost head = Seq::new(nlen as nat, |t: int| idx + t);
                let mut c: usize = 0;
                while c < nlen
                    invariant
                        c <= nlen,
                        idx + nlen <= hay@.len(),
                        hay@.len() <= MAX_POS + 1,
                        positions@ =~= old_positions + Seq::new(c as nat, |t: int| (idx + t) as usize),
                        forall|i: int| 0 <= i < old_positions.len() ==> #[trigger] old_positions[i]
                            < idx,
                        strictly_ascending(positions@),
                        forall|i: int| 0 <= i < positions@.len() ==> #[trigger] positions@[i] < idx
                            + c,
                    decreases nlen - c,
                {
                    positions.push(idx + c);
                    proof {
                        assert(positions@ =~= old_positions + Seq::new(
                            (c + 1) as nat,
                            |t: int| (idx + t) as usize,
                        ));
                    }
                    c = c + 1;
                }
                proof {
                    let mapped_old = old_positions.map_values(|x: usize| x as int);
                    let mapped_new = positions@.map_values(|x: usize| x as int);
                    assert(mapped_new =~= mapped_old + head);
                    assert(greedy_positions(needles.skip(k as int), hay@, offset as int) == (
                    match greedy_positions(needles.skip(k + 1), hay@, (idx + nlen) as int) {
                        None => None::<Seq<int>>,
                        Some(rest) => Some(head + rest),
                    }));
                    match greedy_positions(needles.skip(k + 1), hay@, (idx + nlen) as int) {
                        Some(rest) => {
                            assert((mapped_old + (head + rest)) =~= (mapped_new + rest));
                        },
                        None => {},
                    }
                }
                offset = idx + nlen;
            },
        }
        k = k + 1;
    }
    proof {
        assert(needles.skip(nterms as int) =~= Seq::<Seq<u8>>::empty());
        assert(greedy_positions(needles, hay@, 0) == Some(
            positions@.map_values(|x: usize| x as int) + Seq::<int>::empty(),
        ));
        assert(positions@.map_values(|x: usize| x as int) + Seq::<int>::empty()
            =~= positions@.map_values(|x: usize| x as int));
    }
    let score = if positions.len() == 0 {
        Score::zero()
    } else {
        let first = positions[0];
        let last = positions[positions.len() - 1];
        proof {
            let mapped = positions@.map_values(|x: usize| x as int);
            assert(mapped[0] == positions@[0] as int);
            assert(mapped.last() == positions@.last() as int);
            assert(first <= last);
        }
        Score::Span { first: first as u32, last: last as u32 }
    };
    Some((score, positions))
}

/// Splits the query characters into terms and folds each term to the
/// lower-cased UTF-8 bytes the search runs on.
fn split_terms_utf8(q: &Vec<char>) -> (r: Vec<Vec<u8>>)
    ensures
        r@.len() == needles_of(q@).len(),
        forall|t: int| 0 <= t < r@.len() ==> r@[t]@ == #[trigger] needles_of(q@)[t],
{
    let terms = crate::query::split_terms(q);
    let mut r: Vec<Vec<u8>> = Vec::new();
    let n = terms.len();
    let mut k: usize = 0;
    while k < n
        invariant
            k <= n,
            n == terms@.len(),
            terms@.map_values(|t: Vec<char>| t@) == terms_of(q@),
            r@.len() == k,
            forall|t: int| 0 <= t < k ==> r@[t]@ == #[trigger] needles_of(q@)[t],
        decreases n - k,
    {
        let folded = lower_utf8(&terms[k]);
        proof {
            assert(terms_of(q@)[k as int] == terms@.map_values(|t: Vec<char>| t@)[k as int]);
            assert(needles_of(q@)[k as int] == encode_utf8(lower_of(terms_of(q@)[k as int])));
        }
        r.push(folded);
        k = k + 1;
    }
    r
}

} // verus!
