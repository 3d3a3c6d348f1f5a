//! First-occurrence substring search over byte sequences, the primitive
//! the multi-term scorer advances with.

use vstd::prelude::*;

verus! {

/// The needle occurs in the haystack at offset `i`.
pub open spec fn match_at(hay: Seq<u8>, pat: Seq<u8>, i: int) -> bool {
    &&& 0 <= i
    &&& i + pat.len() <= hay.len()
    &&& hay.subrange(i, i + pat.len()) == pat
}

/// Offset of the first occurrence of the needle at or after `from`, if any.
pub open spec fn first_match_from(hay: Seq<u8>, pat: Seq<u8>, from: int) -> Option<int>
    decreases hay.len() - from,
{
    if from < 0 || from + pat.len() > hay.len() {
        None
    } else if pat.len() == 0 || hay.subrange(from, from + pat.len()) == pat {
        Some(from)
    } else {
        first_match_from(hay, pat, from + 1)
    }
}

/// What `first_match_from` finds is a match, lies at or after `from`, and
/// nothing earlier at or after `from` matches; `None` means no offset at
/// or after `from` matches.
pub proof fn lemma_first_match_from(hay: Seq<u8>, pat: Seq<u8>, from: int)
    requires
        0 <= from,
    ensures
        match first_match_from(hay, pat, from) {
            Some(i) => {
                &&& from <= i
                &&& match_at(hay, pat, i)
                &&& forall|j: int| from <= j < i ==> !match_at(hay, pat, j)
            },
            None => forall|j: int| from <= j ==> !match_at(hay, pat, j),
        },
    decreases hay.len() - from,
{
    if from + pat.len() > hay.len() {
        assert(forall|j: int| from <= j ==> !#[trigger] match_at(hay, pat, j));
    } else if pat.len() == 0 || hay.subrange(from, from + pat.len()) == pat {
        assert(hay.subrange(from, from + pat.len()) =~= pat) by {
            assert(pat.len() == 0 || hay.subrange(from, from + pat.len()) == pat);
        }
    } else {
        lemma_first_match_from(hay, pat, from + 1);
        assert(!match_at(hay, pat, from));
    }
}

/// Compares the needle against the haystack at offset `i`.
fn matches_at(hay: &Vec<u8>, pat: &Vec<u8>, i: usize) -> (r: bool)
    requires
        i + pat@.len() <= hay@.len(),
    ensures
        r == match_at(hay@, pat@, i as int),
{
    let n = hay.len();
    let m = pat.len();
    let mut k: usize = 0;
    while k < m
        invariant
            k <= m,
            m == pat@.len(),
            n == hay@.len(),
            i + m <= n,
            forall|j: int| 0 <= j < k ==> hay@[i + j] == pat@[j],
        decreases m - k,
    {
        if hay[i + k] != pat[k] {
            proof {
                assert(hay@.subrange(i as int, i + pat@.len())[k as int] == hay@[i + k]);
            }
            return false;
        }
        k = k + 1;
    }
    proof {
        assert(hay@.subrange(i as int, i + pat@.len()) =~= pat@);
    }
    true
}

/// Offset of the first occurrence of the needle in the haystack at or
/// after `at`; `None` when there is none.
pub fn find_start_at(hay: &Vec<u8>, at: usize, pat: &Vec<u8>) -> (r: Option<usize>)
    ensures
        r == match first_match_from(hay@, pat@, at as int) {
            Some(i) => Some(i as usize),
            None => None::<usize>,
        },
{
    if pat.len() > hay.len() || at > hay.len() - pat.len() {
        proof {
            lemma_none_when_past(hay@, pat@, at as int);
        }
        return None;
    }
    let mut i: usize = at;
    loop
        invariant
            at <= i,
            i + pat@.len() <= hay@.len(),
            first_match_from(hay@, pat@, at as int) == first_match_from(hay@, pat@, i as int),
        decreases hay@.len() - i,
    {
        if matches_at(hay, pat, i) {
            return Some(i);
        }
        if i == hay.len() - pat.len() {
            proof {
                assert(pat@.len() == 0 ==> hay@.subrange(i as int, i + pat@.len()) =~= pat@);
                assert(first_match_from(hay@, pat@, i as int) == first_match_from(
                    hay@,
                    pat@,
                    i + 1,
                ));
                lemma_none_when_past(hay@, pat@, i + 1);
            }
            return None;
        }
        proof {
            assert(pat@.len() == 0 ==> hay@.subrange(i as int, i + pat@.len()) =~= pat@);
            assert(first_match_from(hay@, pat@, i as int) == first_match_from(hay@, pat@, i + 1));
        }
        i = i + 1;
    }
}

/// Past the last possible start, nothing matches.
proof fn lemma_none_when_past(hay: Seq<u8>, pat: Seq<u8>, from: int)
    requires
        from + pat.len() > hay.len() || from > hay.len(),
    ensures
        first_match_from(hay, pat, from) is None,
    decreases
            (if hay.len() - from >= 0 {
                hay.len() - from
            } else {
                0
            }),
{
    if !(from < 0 || from + pat.len() > hay.len()) {
        lemma_none_when_past(hay, pat, from + 1);
    }
}

} // verus!
