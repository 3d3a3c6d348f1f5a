//! The ranking engine: kept rows sorted by descending score.

use vstd::prelude::*;
use crate::score::Score;
use crate::score::lemma_le_trans;
use crate::score::score_le;
use crate::substr::strictly_ascending;

verus! {

/// One ranked row: a candidate that matched, its score, and the matched
/// byte offsets.
pub struct RankedLine {
    pub text: String,
    pub score: Score,
    pub indices: Vec<usize>,
}

impl RankedLine {
    /// The mathematical content of a row.
    pub open spec fn model(self) -> (Seq<char>, Score, Seq<usize>) {
        (self.text@, self.score, self.indices@)
    }

    /// A row's score is well-formed and its offsets ascend.
    pub open spec fn wf(self) -> bool {
        self.score.wf() && strictly_ascending(self.indices@)
    }
}

/// The rows' mathematical content, in order.
pub open spec fn models(rows: Seq<RankedLine>) -> Seq<(Seq<char>, Score, Seq<usize>)> {
    rows.map_values(|r: RankedLine| r.model())
}

/// Scores never increase along the rows.
pub open spec fn sorted_desc(rows: Seq<RankedLine>) -> bool {
    forall|i: int, j: int|
        0 <= i < j < rows.len() ==> (#[trigger] rows[j].score).le(#[trigger] rows[i].score)
}

/// Sorts the rows by score, highest first.  The result is a permutation
/// of the input: same rows, same multiplicities.  Rows with equal scores
/// keep no specified relative order.
pub fn sort_by_score(rows: Vec<RankedLine>) -> (r: Vec<RankedLine>)
    requires
        forall|i: int| 0 <= i < rows@.len() ==> (#[trigger] rows@[i]).wf(),
    ensures
        sorted_desc(r@),
        models(r@).to_multiset() == models(rows@).to_multiset(),
        r@.len() == rows@.len(),
        forall|i: int| 0 <= i < r@.len() ==> (#[trigger] r@[i]).wf(),
{
    broadcast use vstd::seq_lib::group_to_multiset_ensures;
    broadcast use vstd::multiset::group_multiset_axioms;

    let mut src = rows;
    let mut out: Vec<RankedLine> = Vec::new();
    proof {
        assert(models(out@) =~= Seq::<(Seq<char>, Score, Seq<usize>)>::empty());
        assert(models(out@).to_multiset().add(models(src@).to_multiset()) =~= models(
            src@,
        ).to_multiset());
    }
    while src.len() > 0
        invariant
            models(out@).to_multiset().add(models(src@).to_multiset()) == models(
                rows@,
            ).to_multiset(),
            out@.len() + src@.len() == rows@.len(),
            sorted_desc(out@),
            forall|i: int| 0 <= i < out@.len() ==> (#[trigger] out@[i]).wf(),
            forall|i: int| 0 <= i < src@.len() ==> (#[trigger] src@[i]).wf(),
            forall|i: int, j: int|
                0 <= i < out@.len() && 0 <= j < src@.len() ==> (#[trigger] src@[j].score).le(
                    #[trigger] out@[i].score,
                ),
        decreases src@.len(),
    {
        let n = src.len();
        let mut mi: usize = 0;
        let mut j: usize = 1;
        while j < n
            invariant
                mi < j <= n,
                n == src@.len(),
                forall|i: int| 0 <= i < src@.len() ==> (#[trigger] src@[i]).wf(),
                forall|t: int| 0 <= t < j ==> (#[trigger] src@[t]).score.le(src@[mi as int].score),
            decreases n - j,
        {
            if !score_le(&src[j].score, &src[mi].score) {
                proof {
                    assert forall|t: int| 0 <= t < j implies (#[trigger] src@[t]).score.le(
                        src@[j as int].score,
                    ) by {
                        lemma_le_trans(src@[t].score, src@[mi as int].score, src@[j as int].score);
                    }
                }
                mi = j;
            }
            j = j + 1;
        }
        let ghost old_src = src@;
        let ghost old_out = out@;
        let row = src.remove(mi);
        proof {
            assert(models(old_src.remove(mi as int)) =~= models(old_src).remove(mi as int));
            vstd::seq_lib::to_multiset_remove(models(old_src), mi as int);
            assert(models(old_src)[mi as int] == row.model());
        }
        out.push(row);
        proof {
            assert(models(old_out.push(row)) =~= models(old_out).push(row.model()));
            vstd::seq_lib::to_multiset_build(models(old_out), row.model());
            assert(models(old_src).contains(row.model())) by {
                assert(models(old_src)[mi as int] == row.model());
            }
            vstd::seq_lib::to_multiset_contains(models(old_src), row.model());
            assert(models(out@).to_multiset().add(models(src@).to_multiset()) =~= models(
                old_out,
            ).to_multiset().add(models(old_src).to_multiset()));
            assert forall|i: int, t: int|
                0 <= i < out@.len() && 0 <= t < src@.len() implies (#[trigger] src@[t].score).le(
                #[trigger] out@[i].score,
            ) by {
                if t < mi {
                    assert(src@[t] == old_src[t]);
                } else {
                    assert(src@[t] == old_src[t + 1]);
                }
                if i < old_out.len() {
                    assert(out@[i] == old_out[i]);
                    lemma_le_trans(src@[t].score, row.score, out@[i].score);
                } else {
                    assert(out@[i] == row);
                }
            }
        }
    }
    proof {
        assert(models(src@) =~= Seq::<(Seq<char>, Score, Seq<usize>)>::empty());
        assert(models(out@).to_multiset().add(models(src@).to_multiset()) =~= models(
            out@,
        ).to_multiset());
    }
    out
}

} // verus!
