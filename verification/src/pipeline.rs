//! The ranking pipeline: matcher selection, per-candidate scoring,
//! descending sort, and display preparation.

use vstd::prelude::*;
use vstd::string::StrSliceExecFns;
use vstd::utf8::encode_utf8;
use vstd::utf8::is_char_boundary;
use crate::display::presented;
use crate::display::truncate_for_display;
use crate::rank::RankedLine;
use crate::rank::models;
use crate::rank::sort_by_score;
use crate::rank::sorted_desc;
use crate::score::Score;
use crate::scorer::LineScorer;
use crate::scorer::shift_positions;
use crate::substr::substr_result;
use crate::substr::substr_scorer;
use crate::text::contains_space;

verus! {

/// The scoring strategy for one query: a query with a space is an explicit
/// multi-term phrase and takes the substring scorer; any other query is
/// handed to the single-term scorer, with matched offsets corrected for
/// the icon prefix when icons are enabled.
#[derive(Clone, Copy, Debug, PartialEq, Eq, Structural)]
pub enum MatcherKind {
    MultiTerm,
    SingleTerm { enable_icon: bool },
}

/// Chooses the scoring strategy from the query's shape.
pub fn select_matcher(query: &str, enable_icon: bool) -> (r: MatcherKind)
    ensures
        r == if query@.contains(' ') {
            MatcherKind::MultiTerm
        } else {
            MatcherKind::SingleTerm { enable_icon }
        },
{
    if contains_space(query) {
        MatcherKind::MultiTerm
    } else {
        MatcherKind::SingleTerm { enable_icon }
    }
}

/// A line fit to carry the 4-byte icon prefix: at least 4 bytes long, and
/// byte 4 starts a character.
pub open spec fn icon_ok(line: Seq<char>) -> bool {
    &&& encode_utf8(line).len() >= 4
    &&& is_char_boundary(encode_utf8(line), 4)
}

/// The rows the substring scorer keeps, in candidate order: each candidate
/// that matched, with its score and matched byte offsets.
pub open spec fn substr_rows(q: Seq<char>, cands: Seq<String>) -> Seq<
    (Seq<char>, Score, Seq<usize>),
>
    decreases cands.len(),
{
    if cands.len() == 0 {
        Seq::empty()
    } else {
        substr_rows(q, cands.drop_last()) + match substr_result(q, cands.last()@) {
            None => Seq::empty(),
            Some(sp) => seq![
                (cands.last()@, sp.0, sp.1.map_values(|x: int| x as usize)),
            ],
        }
    }
}

/// What the ranking guarantees of its rows, before display preparation:
/// scores never increase, every row is well-formed, and — for a query with
/// a space — the rows are exactly the candidates the substring scorer
/// matched, reordered; for any other query every row is some candidate,
/// with offsets at or past the icon prefix when icons are enabled.
pub open spec fn ranked_ok(
    rows: Seq<RankedLine>,
    q: Seq<char>,
    cands: Seq<String>,
    enable_icon: bool,
) -> bool {
    &&& sorted_desc(rows)
    &&& forall|i: int| 0 <= i < rows.len() ==> (#[trigger] rows[i]).wf()
    &&& if q.contains(' ') {
        models(rows).to_multiset() == substr_rows(q, cands).to_multiset()
    } else {
        forall|k: int|
            0 <= k < rows.len() ==> ((exists|c: int|
                0 <= c < cands.len() && (#[trigger] rows[k]).text@ == cands[c]@) && (forall|t: int|
                0 <= t < rows[k].indices@.len() ==> #[trigger] rows[k].indices@[t] < encode_utf8(
                    rows[k].text@,
                ).len()) && (enable_icon ==> forall|t: int|
                0 <= t < rows[k].indices@.len() ==> #[trigger] rows[k].indices@[t] >= 4))
    }
}

/// Ranks the candidates against the query and prepares the result for
/// display: per-row matched byte offsets, per-row display text, and the
/// map from shortened display text back to the full original text, all in
/// descending score order.
///
/// With icons enabled and a single-term query every candidate must carry
/// the 4-byte icon prefix; `None` is returned exactly when one does not.
pub fn fuzzy_match<S: LineScorer>(
    scorer: &S,
    query: &str,
    candidates: Vec<String>,
    winwidth: usize,
    enable_icon: bool,
) -> (r: Option<(Vec<Vec<usize>>, Vec<String>, Vec<(String, String)>)>)
    ensures
        r is None <==> (!query@.contains(' ') && enable_icon && exists|i: int|
            0 <= i < candidates@.len() && !icon_ok(#[trigger] candidates@[i]@)),
        r matches Some(out) ==> exists|rows: Seq<RankedLine>|
            #[trigger] ranked_ok(rows, query@, candidates@, enable_icon) && presented(
                rows,
                winwidth as int,
                enable_icon,
                out.0@,
                out.1@,
                out.2@,
            ),
{
    let kind = select_matcher(query, enable_icon);
    let multi = match kind {
        MatcherKind::MultiTerm => true,
        MatcherKind::SingleTerm { .. } => false,
    };
    let n = candidates.len();
    if !multi && enable_icon {
        let mut i: usize = 0;
        while i < n
            invariant
                i <= n,
                n == candidates@.len(),
                !multi && enable_icon,
                multi == query@.contains(' '),
                forall|j: int| 0 <= j < i ==> icon_ok(#[trigger] candidates@[j]@),
            decreases n - i,
        {
            let s = candidates[i].as_str();
            if s.as_bytes().len() < 4 || !s.is_char_boundary(4) {
                proof {
                    assert(!icon_ok(candidates@[i as int]@));
                }
                return None;
            }
            proof {
                assert(icon_ok(candidates@[i as int]@));
            }
            i = i + 1;
        }
    }
    let mut rows: Vec<RankedLine> = Vec::new();
    let qbytes = query.as_bytes_vec();
    let mut ci: usize = 0;
    proof {
        assert(candidates@.take(0) =~= Seq::<String>::empty());
        assert(models(rows@) =~= Seq::<(Seq<char>, Score, Seq<usize>)>::empty());
    }
    while ci < n
        invariant
            ci <= n,
            n == candidates@.len(),
            forall|i: int| 0 <= i < rows@.len() ==> (#[trigger] rows@[i]).wf(),
            multi == query@.contains(' '),
            multi ==> models(rows@) == substr_rows(query@, candidates@.take(ci as int)),
            !multi ==> forall|k: int|
                0 <= k < rows@.len() ==> ((exists|c: int|
                    0 <= c < candidates@.len() && (#[trigger] rows@[k]).text@ == candidates@[c]@)
                    && (forall|t: int|
                    0 <= t < rows@[k].indices@.len() ==> #[trigger] rows@[k].indices@[t]
                        < encode_utf8(rows@[k].text@).len()) && (enable_icon ==> forall|t: int|
                    0 <= t < rows@[k].indices@.len() ==> #[trigger] rows@[k].indices@[t] >= 4)),
            !multi && enable_icon ==> forall|j: int|
                0 <= j < n ==> icon_ok(#[trigger] candidates@[j]@),
        decreases n - ci,
    {
        let line = &candidates[ci];
        let ghost old_rows = rows@;
        if multi {
            match substr_scorer(query, line.as_str()) {
                None => {},
                Some((s, p)) => {
                    proof {
                        let exp = substr_result(query@, line@).unwrap();
                        assert(p@ =~= exp.1.map_values(|x: int| x as usize)) by {
                            assert(forall|t: int|
                                0 <= t < p@.len() ==> exp.1[t] == #[trigger] p@[t] as int);
                        }
                    }
                    rows.push(RankedLine { text: line.clone(), score: s, indices: p });
                },
            }
            proof {
                assert(candidates@.take(ci + 1).drop_last() =~= candidates@.take(ci as int));
                assert(candidates@.take(ci + 1).last() == candidates@[ci as int]);
                assert(models(rows@) =~= substr_rows(query@, candidates@.take(ci + 1)));
            }
        } else {
            let lbytes = line.as_str().as_bytes_vec();
            if enable_icon {
                let blen = lbytes.len();
                let mut stripped: Vec<u8> = Vec::new();
                let mut b: usize = 4;
                while b < blen
                    invariant
                        4 <= b <= blen,
                        blen == lbytes@.len(),
                        stripped@ == lbytes@.subrange(4, b as int),
                    decreases blen - b,
                {
                    stripped.push(lbytes[b]);
                    proof {
                        assert(stripped@ =~= lbytes@.subrange(4, b + 1));
                    }
                    b = b + 1;
                }
                match scorer.score_line(&stripped, &qbytes) {
                    None => {},
                    Some((s, p)) => {
                        let shifted = shift_positions(&p, 4, stripped.len());
                        rows.push(RankedLine { text: line.clone(), score: s, indices: shifted });
                    },
                }
            } else {
                match scorer.score_line(&lbytes, &qbytes) {
                    None => {},
                    Some((s, p)) => {
                        rows.push(RankedLine { text: line.clone(), score: s, indices: p });
                    },
                }
            }
        }
        ci = ci + 1;
    }
    proof {
        if multi {
            assert(candidates@.take(n as int) =~= candidates@);
        }
    }
    let ghost pre = rows@;
    let ranked = sort_by_score(rows);
    proof {
        broadcast use vstd::seq_lib::group_to_multiset_ensures;

        if !multi {
            assert forall|k: int| 0 <= k < ranked@.len() implies ((exists|c: int|
                0 <= c < candidates@.len() && (#[trigger] ranked@[k]).text@ == candidates@[c]@) && (
            forall|t: int|
                0 <= t < ranked@[k].indices@.len() ==> #[trigger] ranked@[k].indices@[t]
                    < encode_utf8(ranked@[k].text@).len()) && (enable_icon ==> forall|t: int|
                0 <= t < ranked@[k].indices@.len() ==> #[trigger] ranked@[k].indices@[t] >= 4)) by {
                let m = models(ranked@)[k];
                assert(models(ranked@).contains(m));
                assert(models(ranked@).to_multiset().count(m) > 0);
                assert(models(pre).to_multiset().count(m) > 0);
                assert(models(pre).contains(m));
                let j = choose|j: int| 0 <= j < models(pre).len() && models(pre)[j] == m;
                assert(pre[j].text@ == m.0 && pre[j].indices@ == m.2);
                assert(ranked@[k].text@ == m.0 && ranked@[k].indices@ == m.2);
            }
        }
    }
    let out = truncate_for_display(&ranked, winwidth, enable_icon);
    proof {
        assert(ranked_ok(ranked@, query@, candidates@, enable_icon));
    }
    Some(out)
}

} // verus!
