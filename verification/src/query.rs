//! Splitting a query into whitespace-separated terms.

use vstd::prelude::*;
use crate::text::is_unicode_ws;

verus! {

/// Length of the longest term prefix: the number of leading characters up
/// to the first whitespace character.
pub open spec fn term_len(q: Seq<char>) -> int
    decreases q.len(),
{
    if q.len() == 0 || is_unicode_ws(q[0]) {
        0
    } else {
        1 + term_len(q.drop_first())
    }
}

pub proof fn lemma_term_len_bounds(q: Seq<char>)
    ensures
        0 <= term_len(q) <= q.len(),
        q.len() > 0 && !is_unicode_ws(q[0]) ==> term_len(q) >= 1,
        forall|j: int| 0 <= j < term_len(q) ==> !is_unicode_ws(q[j]),
        term_len(q) < q.len() ==> is_unicode_ws(q[term_len(q)]),
    decreases q.len(),
{
    if q.len() == 0 || is_unicode_ws(q[0]) {
    } else {
        lemma_term_len_bounds(q.drop_first());
        assert forall|j: int| 0 <= j < term_len(q) implies !is_unicode_ws(q[j]) by {
            if j > 0 {
                assert(q.drop_first()[j - 1] == q[j]);
            }
        }
        if term_len(q) < q.len() {
            assert(q.drop_first()[term_len(q) - 1] == q[term_len(q)]);
        }
    }
}

/// The whitespace-separated terms of the query, in order: maximal runs of
/// non-whitespace characters, as `str::split_whitespace` cuts them.
pub open spec fn terms_of(q: Seq<char>) -> Seq<Seq<char>>
    decreases q.len(),
    via terms_of_dec
{
    if q.len() == 0 {
        Seq::empty()
    } else if is_unicode_ws(q[0]) {
        terms_of(q.drop_first())
    } else {
        seq![q.take(term_len(q))] + terms_of(q.skip(term_len(q)))
    }
}

#[via_fn]
proof fn terms_of_dec(q: Seq<char>) {
    if q.len() > 0 && !is_unicode_ws(q[0]) {
        lemma_term_len_bounds(q);
    }
}

/// A non-empty query without whitespace is one term: itself.
pub proof fn lemma_single_term(q: Seq<char>)
    requires
        q.len() > 0,
        forall|j: int| 0 <= j < q.len() ==> !is_unicode_ws(q[j]),
    ensures
        terms_of(q) =~= seq![q],
{
    lemma_term_len_bounds(q);
    if term_len(q) < q.len() {
        assert(is_unicode_ws(q[term_len(q)]));
        assert(false);
    }
    assert(!is_unicode_ws(q[0]));
    assert(q.take(term_len(q)) =~= q);
    assert(q.skip(term_len(q)) =~= Seq::<char>::empty());
    assert(terms_of(q.skip(term_len(q))) =~= Seq::<Seq<char>>::empty());
    assert(terms_of(q) == seq![q.take(term_len(q))] + terms_of(q.skip(term_len(q))));
}

/// Splits the query characters into its whitespace-separated terms.
pub fn split_terms(q: &Vec<char>) -> (r: Vec<Vec<char>>)
    ensures
        r@.map_values(|t: Vec<char>| t@) == terms_of(q@),
{
    let n = q.len();
    let mut r: Vec<Vec<char>> = Vec::new();
    let mut i: usize = 0;
    proof {
        assert(q@.skip(0) =~= q@);
        assert(r@.map_values(|t: Vec<char>| t@) =~= Seq::<Seq<char>>::empty());
        assert(Seq::<Seq<char>>::empty() + terms_of(q@) =~= terms_of(q@));
    }
    while i < n
        invariant
            i <= n,
            n == q@.len(),
            terms_of(q@) == r@.map_values(|t: Vec<char>| t@) + terms_of(q@.skip(i as int)),
        decreases n - i,
    {
        if q[i].is_whitespace() {
            proof {
                assert(q@.skip(i as int).drop_first() =~= q@.skip(i + 1));
            }
            i = i + 1;
        } else {
            proof {
                lemma_term_len_bounds(q@.skip(i as int));
                assert(q@.skip(i as int)[0] == q@[i as int]);
                assert(q@.skip(i as int).drop_first() =~= q@.skip(i + 1));
            }
            // collect the maximal non-whitespace run starting at i
            let mut j: usize = i + 1;
            while j < n && !q[j].is_whitespace()
                invariant
                    i < j <= n,
                    n == q@.len(),
                    term_len(q@.skip(i as int)) == (j - i) + term_len(q@.skip(j as int)),
                    forall|m: int| i <= m < j ==> !is_unicode_ws(q@[m]),
                decreases n - j,
            {
                proof {
                    assert(q@.skip(j as int).drop_first() =~= q@.skip(j + 1));
                    assert(q@.skip(j as int)[0] == q@[j as int]);
                }
                j = j + 1;
            }
            proof {
                if j < n {
                    assert(q@.skip(j as int)[0] == q@[j as int]);
                }
                assert(term_len(q@.skip(j as int)) == 0);
                assert(term_len(q@.skip(i as int)) == j - i);
            }
            let mut term: Vec<char> = Vec::new();
            let mut m: usize = i;
            while m < j
                invariant
                    i <= m <= j <= n,
                    n == q@.len(),
                    term@ == q@.subrange(i as int, m as int),
                decreases j - m,
            {
                term.push(q[m]);
                proof {
                    assert(term@ =~= q@.subrange(i as int, m + 1));
                }
                m = m + 1;
            }
            proof {
                assert(q@.skip(i as int).take(term_len(q@.skip(i as int))) =~= q@.subrange(
                    i as int,
                    j as int,
                ));
                assert(q@.skip(i as int).skip(term_len(q@.skip(i as int))) =~= q@.skip(j as int));
                let old_model = r@.map_values(|t: Vec<char>| t@);
                assert(r@.push(term).map_values(|t: Vec<char>| t@) =~= old_model + seq![term@]);
                assert(old_model + (seq![term@] + terms_of(q@.skip(j as int))) =~= old_model + seq![
                    term@,
                ] + terms_of(q@.skip(j as int)));
            }
            r.push(term);
            i = j;
        }
    }
    proof {
        assert(q@.skip(n as int) =~= Seq::<char>::empty());
        assert(r@.map_values(|t: Vec<char>| t@) + terms_of(q@.skip(n as int)) =~= r@.map_values(
            |t: Vec<char>| t@,
        ));
    }
    r
}

} // verus!
