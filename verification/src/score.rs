//! Match scores and their total order.
//!
//! A score is a real number used only for relative ordering among the
//! candidates of one query.  Scores are kept exact: a score is either the
//! value `2/(first+1) + 1/(last+1) - (last-first+1)` determined by the first
//! and last matched byte offsets of a substring match, or a plain fraction
//! `num/den` supplied by a single-term scorer.  Comparisons are exact
//! integer arithmetic; there is no undefined value, so the ranking
//! comparison is total by construction.

use vstd::prelude::*;

verus! {

/// Largest byte offset a span score can record.  Offsets are bounded so
/// that cross-multiplied score comparisons fit in 128-bit integers.
pub const MAX_POS: u32 = 0x7fff_ffff;

/// An exact match score.
#[derive(Clone, Copy, Debug, PartialEq, Eq, Structural)]
pub enum Score {
    /// Score of a substring match whose first matched byte offset is
    /// `first` and last matched byte offset is `last`: the value
    /// `2/(first+1) + 1/(last+1) - (last-first+1)`.  It rewards matches
    /// that start early and are tightly clustered.
    Span { first: u32, last: u32 },
    /// A plain fraction `num/den` with `den >= 1`, for scorers that
    /// produce their score some other way.
    Ratio { num: i32, den: u32 },
}

impl Score {
    /// Well-formedness: span offsets are ordered and bounded; a fraction
    /// has a positive denominator.
    pub open spec fn wf(self) -> bool {
        match self {
            Score::Span { first, last } => first <= last && last <= MAX_POS,
            Score::Ratio { num, den } => den >= 1,
        }
    }

    /// Numerator of the score as an exact rational over `den_of`.
    pub open spec fn num_of(self) -> int {
        match self {
            Score::Span { first, last } => 2 * (last + 1) + (first + 1) - (last - first + 1) * (
            first + 1) * (last + 1),
            Score::Ratio { num, den } => num as int,
        }
    }

    /// Denominator of the score; positive for well-formed scores.
    pub open spec fn den_of(self) -> int {
        match self {
            Score::Span { first, last } => (first + 1) * (last + 1),
            Score::Ratio { num, den } => den as int,
        }
    }

    /// The ranking order: `self <= other` as exact rationals.
    pub open spec fn le(self, other: Score) -> bool {
        self.num_of() * other.den_of() <= other.num_of() * self.den_of()
    }

    /// The zero score, given to an empty query that trivially matches.
    pub fn zero() -> (r: Score)
        ensures
            r == (Score::Ratio { num: 0, den: 1 }),
            r.wf(),
            r.num_of() == 0,
            r.den_of() == 1,
    {
        Score::Ratio { num: 0, den: 1 }
    }

    /// A plain fraction score; `None` when the denominator is zero.
    pub fn fraction(num: i32, den: u32) -> (r: Option<Score>)
        ensures
            r matches Some(s) ==> s.wf() && s == (Score::Ratio { num, den }),
            r is None <==> den == 0,
    {
        if den == 0 {
            None
        } else {
            Some(Score::Ratio { num, den })
        }
    }

    /// The span score of a match running from byte offset `first` to byte
    /// offset `last`; `None` when the offsets are out of order or too large.
    pub fn from_span(first: usize, last: usize) -> (r: Option<Score>)
        ensures
            r matches Some(s) ==> s.wf() && s == (Score::Span {
                first: first as u32,
                last: last as u32,
            }),
            r is None <==> !(first <= last && last <= MAX_POS as usize),
    {
        if first <= last && last <= MAX_POS as usize {
            Some(Score::Span { first: first as u32, last: last as u32 })
        } else {
            None
        }
    }
}

/// Regrouping of a span score's numerator: the span times the denominator
/// may be taken off as one product.
proof fn lemma_span_parts(f: int, l: int)
    requires
        0 <= f <= l,
    ensures
        2 * (l + 1) + (f + 1) - (l - f + 1) * (f + 1) * (l + 1) == (2 * (l + 1) + (f + 1)) - (l - f
            + 1) * ((f + 1) * (l + 1)),
{
    assert((l - f + 1) * (f + 1) * (l + 1) == (l - f + 1) * ((f + 1) * (l + 1)))
        by (nonlinear_arith);
}

proof fn lemma_den_positive(s: Score)
    requires
        s.wf(),
    ensures
        s.den_of() >= 1,
{
    match s {
        Score::Span { first, last } => {
            assert((first + 1) * (last + 1) >= 1) by (nonlinear_arith)
                requires
                    first >= 0,
                    last >= 0,
            ;
        },
        Score::Ratio { num, den } => {},
    }
}

/// For a well-formed span score, the fractional part `N/D` with
/// `N = 2*(last+1) + (first+1)` and `D = (first+1)*(last+1)` lies in (0, 3].
proof fn lemma_span_frac_bounds(first: int, last: int)
    requires
        0 <= first <= last,
    ensures
        1 <= 2 * (last + 1) + (first + 1),
        2 * (last + 1) + (first + 1) <= 3 * ((first + 1) * (last + 1)),
        (first + 1) * (last + 1) >= 1,
{
    assert(2 * (last + 1) + (first + 1) <= 3 * ((first + 1) * (last + 1)) && (first + 1) * (last
        + 1) >= 1) by (nonlinear_arith)
        requires
            0 <= first <= last,
    ;
}

/// Rearrangement: comparing two span scores is comparing their fractional
/// parts against the difference of their spans.
proof fn lemma_span_le_shift(f1: int, l1: int, f2: int, l2: int)
    requires
        0 <= f1 <= l1,
        0 <= f2 <= l2,
    ensures
        ({
            let n1 = 2 * (l1 + 1) + (f1 + 1);
            let d1 = (f1 + 1) * (l1 + 1);
            let s1 = l1 - f1 + 1;
            let n2 = 2 * (l2 + 1) + (f2 + 1);
            let d2 = (f2 + 1) * (l2 + 1);
            let s2 = l2 - f2 + 1;
            ((n1 - s1 * d1) * d2 <= (n2 - s2 * d2) * d1) <==> (n1 * d2 - n2 * d1 <= (s1 - s2) * (d1
                * d2))
        }),
{
    let n1 = 2 * (l1 + 1) + (f1 + 1);
    let d1 = (f1 + 1) * (l1 + 1);
    let s1 = l1 - f1 + 1;
    let n2 = 2 * (l2 + 1) + (f2 + 1);
    let d2 = (f2 + 1) * (l2 + 1);
    let s2 = l2 - f2 + 1;
    assert(((n1 - s1 * d1) * d2 <= (n2 - s2 * d2) * d1) <==> (n1 * d2 - n2 * d1 <= (s1 - s2) * (d1
        * d2))) by (nonlinear_arith);
}

/// When the spans differ by at least 3, the fractional parts cannot make
/// up the difference, so the score with the smaller span is the larger.
proof fn lemma_span_far_apart(f1: int, l1: int, f2: int, l2: int)
    requires
        0 <= f1 <= l1,
        0 <= f2 <= l2,
    ensures
        ({
            let n1 = 2 * (l1 + 1) + (f1 + 1);
            let d1 = (f1 + 1) * (l1 + 1);
            let s1 = l1 - f1 + 1;
            let n2 = 2 * (l2 + 1) + (f2 + 1);
            let d2 = (f2 + 1) * (l2 + 1);
            let s2 = l2 - f2 + 1;
            &&& (s1 - s2 >= 3 ==> n1 * d2 - n2 * d1 <= (s1 - s2) * (d1 * d2))
            &&& (s1 - s2 <= -3 ==> !(n1 * d2 - n2 * d1 <= (s1 - s2) * (d1 * d2)))
        }),
{
    lemma_span_frac_bounds(f1, l1);
    lemma_span_frac_bounds(f2, l2);
    let n1 = 2 * (l1 + 1) + (f1 + 1);
    let d1 = (f1 + 1) * (l1 + 1);
    let n2 = 2 * (l2 + 1) + (f2 + 1);
    let d2 = (f2 + 1) * (l2 + 1);
    assert((l1 - f1 + 1) - (l2 - f2 + 1) >= 3 ==> n1 * d2 - n2 * d1 <= ((l1 - f1 + 1) - (l2 - f2
        + 1)) * (d1 * d2)) by (nonlinear_arith)
        requires
            1 <= n1,
            n1 <= 3 * d1,
            1 <= d1,
            1 <= n2,
            n2 <= 3 * d2,
            1 <= d2,
    ;
    assert((l1 - f1 + 1) - (l2 - f2 + 1) <= -3 ==> !(n1 * d2 - n2 * d1 <= ((l1 - f1 + 1) - (l2 - f2
        + 1)) * (d1 * d2))) by (nonlinear_arith)
        requires
            1 <= n1,
            n1 <= 3 * d1,
            1 <= d1,
            1 <= n2,
            n2 <= 3 * d2,
            1 <= d2,
    ;
}

/// Decides the ranking order of two scores: whether `a <= b` as exact
/// rationals.  The order is total, so `score_le(a, b) || score_le(b, a)`
/// always holds.
pub fn score_le(a: &Score, b: &Score) -> (r: bool)
    requires
        a.wf(),
        b.wf(),
    ensures
        r == a.le(*b),
{
    proof {
        lemma_den_positive(*a);
        lemma_den_positive(*b);
    }
    match (a, b) {
        (Score::Ratio { num: n1, den: d1 }, Score::Ratio { num: n2, den: d2 }) => {
            proof {
                assert((*n1 as i128) * (*d2 as i128) <= 0x8000_0000_0000_0000 && (*n1 as i128) * (
                *d2 as i128) >= -0x8000_0000_0000_0000 && (*n2 as i128) * (*d1 as i128)
                    <= 0x8000_0000_0000_0000 && (*n2 as i128) * (*d1 as i128)
                    >= -0x8000_0000_0000_0000) by (nonlinear_arith)
                    requires
                        -0x8000_0000 <= *n1 as i128 <= 0x8000_0000,
                        -0x8000_0000 <= *n2 as i128 <= 0x8000_0000,
                        0 <= *d1 as i128 <= 0x1_0000_0000,
                        0 <= *d2 as i128 <= 0x1_0000_0000,
                ;
            }
            (*n1 as i128) * (*d2 as i128) <= (*n2 as i128) * (*d1 as i128)
        },
        (Score::Span { first: f1, last: l1 }, Score::Span { first: f2, last: l2 }) => {
            let s1: i64 = (*l1 as i64) - (*f1 as i64) + 1;
            let s2: i64 = (*l2 as i64) - (*f2 as i64) + 1;
            proof {
                lemma_span_parts(*f1 as int, *l1 as int);
                lemma_span_parts(*f2 as int, *l2 as int);
                lemma_span_le_shift(*f1 as int, *l1 as int, *f2 as int, *l2 as int);
                lemma_span_far_apart(*f1 as int, *l1 as int, *f2 as int, *l2 as int);
            }
            if s1 - s2 >= 3 {
                true
            } else if s1 - s2 <= -3 {
                false
            } else {
                proof {
                    lemma_span_mul_bounds(*f1 as int, *l1 as int);
                    lemma_span_mul_bounds(*f2 as int, *l2 as int);
                }
                let n1: i128 = 2 * (*l1 as i128 + 1) + (*f1 as i128 + 1);
                let d1: i128 = (*f1 as i128 + 1) * (*l1 as i128 + 1);
                let n2: i128 = 2 * (*l2 as i128 + 1) + (*f2 as i128 + 1);
                let d2: i128 = (*f2 as i128 + 1) * (*l2 as i128 + 1);
                proof {
                    assert(n1 * d2 <= 0x1_0000_0000_0000_0000_0000_0000 && n2 * d1
                        <= 0x1_0000_0000_0000_0000_0000_0000 && n1 * d2 >= 0 && n2 * d1 >= 0)
                        by (nonlinear_arith)
                        requires
                            1 <= n1 <= 0x2_0000_0000,
                            1 <= n2 <= 0x2_0000_0000,
                            1 <= d1 <= 0x4000_0000_0000_0000,
                            1 <= d2 <= 0x4000_0000_0000_0000,
                    ;
                    assert(d1 * d2 <= 0x1000_0000_0000_0000_0000_0000_0000_0000 && d1 * d2 >= 1)
                        by (nonlinear_arith)
                        requires
                            1 <= d1 <= 0x4000_0000_0000_0000,
                            1 <= d2 <= 0x4000_0000_0000_0000,
                    ;
                }
                let k: i128 = (s1 - s2) as i128;
                proof {
                    assert(-0x2000_0000_0000_0000_0000_0000_0000_0000 <= k * (d1 * d2) && k * (d1
                        * d2) <= 0x2000_0000_0000_0000_0000_0000_0000_0000) by (nonlinear_arith)
                        requires
                            -2 <= k <= 2,
                            1 <= d1 * d2 <= 0x1000_0000_0000_0000_0000_0000_0000_0000,
                    ;
                }
                n1 * d2 - n2 * d1 <= k * (d1 * d2)
            }
        },
        (Score::Span { first: f1, last: l1 }, Score::Ratio { num: n2, den: d2 }) => {
            proof {
                lemma_span_parts(*f1 as int, *l1 as int);
                lemma_span_mul_bounds(*f1 as int, *l1 as int);
            }
            let n1: i128 = 2 * (*l1 as i128 + 1) + (*f1 as i128 + 1);
            let d1: i128 = (*f1 as i128 + 1) * (*l1 as i128 + 1);
            let s1: i128 = (*l1 as i128) - (*f1 as i128) + 1;
            proof {
                lemma_cross_ratio_bounds((n1 - s1 * d1) as int, d1 as int, *n2 as int, *d2 as int);
            }
            (n1 - s1 * d1) * (*d2 as i128) <= (*n2 as i128) * d1
        },
        (Score::Ratio { num: n1, den: d1 }, Score::Span { first: f2, last: l2 }) => {
            proof {
                lemma_span_parts(*f2 as int, *l2 as int);
                lemma_span_mul_bounds(*f2 as int, *l2 as int);
            }
            let n2: i128 = 2 * (*l2 as i128 + 1) + (*f2 as i128 + 1);
            let d2: i128 = (*f2 as i128 + 1) * (*l2 as i128 + 1);
            let s2: i128 = (*l2 as i128) - (*f2 as i128) + 1;
            proof {
                lemma_cross_ratio_bounds((n2 - s2 * d2) as int, d2 as int, *n1 as int, *d1 as int);
            }
            (*n1 as i128) * d2 <= (n2 - s2 * d2) * (*d1 as i128)
        },
    }
}

/// Bounds needed to cross-multiply a span score against a fraction in
/// 128-bit arithmetic without overflow.
proof fn lemma_span_mul_bounds(f: int, l: int)
    requires
        0 <= f <= l,
        l <= MAX_POS,
    ensures
        1 <= (f + 1) * (l + 1),
        (f + 1) * (l + 1) <= 0x4000_0000_0000_0000,
        ({
            let n = 2 * (l + 1) + (f + 1);
            let d = (f + 1) * (l + 1);
            let s = l - f + 1;
            -0x4000_0000_0000_0000_0000_0000 <= n - s * d && n - s * d <= 0x4000_0000_0000_0000_0000_0000
        }),
{
    assert(1 <= (f + 1) * (l + 1) && (f + 1) * (l + 1) <= 0x4000_0000_0000_0000)
        by (nonlinear_arith)
        requires
            0 <= f <= l,
            l <= MAX_POS,
    ;
    let n = 2 * (l + 1) + (f + 1);
    let d = (f + 1) * (l + 1);
    let s = l - f + 1;
    assert(-0x4000_0000_0000_0000_0000_0000 <= n - s * d && n - s * d
        <= 0x4000_0000_0000_0000_0000_0000) by (nonlinear_arith)
        requires
            0 <= f <= l,
            l <= MAX_POS,
            n == 2 * (l + 1) + (f + 1),
            d == (f + 1) * (l + 1),
            s == l - f + 1,
            1 <= d <= 0x4000_0000_0000_0000,
    ;
}

/// Bounds for cross-multiplying a span numerator/denominator against a
/// 32-bit fraction in 128-bit arithmetic.
proof fn lemma_cross_ratio_bounds(sn: int, sd: int, rn: int, rd: int)
    requires
        -0x4000_0000_0000_0000_0000_0000 <= sn <= 0x4000_0000_0000_0000_0000_0000,
        1 <= sd <= 0x4000_0000_0000_0000,
        -0x8000_0000 <= rn <= 0x8000_0000,
        0 <= rd <= 0x1_0000_0000,
    ensures
        -0x4000_0000_0000_0000_0000_0000_0000_0000 <= sn * rd <= 0x4000_0000_0000_0000_0000_0000_0000_0000,
        -0x2000_0000_0000_0000_0000_0000 <= rn * sd <= 0x2000_0000_0000_0000_0000_0000,
{
    assert(-0x4000_0000_0000_0000_0000_0000_0000_0000 <= sn * rd
        <= 0x4000_0000_0000_0000_0000_0000_0000_0000 && -0x2000_0000_0000_0000_0000_0000 <= rn * sd
        <= 0x2000_0000_0000_0000_0000_0000) by (nonlinear_arith)
        requires
            -0x4000_0000_0000_0000_0000_0000 <= sn <= 0x4000_0000_0000_0000_0000_0000,
            1 <= sd <= 0x4000_0000_0000_0000,
            -0x8000_0000 <= rn <= 0x8000_0000,
            0 <= rd <= 0x1_0000_0000,
    ;
}

/// The ranking order is total.
pub proof fn lemma_le_total(a: Score, b: Score)
    requires
        a.wf(),
        b.wf(),
    ensures
        a.le(b) || b.le(a),
{
}

/// The ranking order is transitive.
pub proof fn lemma_le_trans(a: Score, b: Score, c: Score)
    requires
        a.wf(),
        b.wf(),
        c.wf(),
        a.le(b),
        b.le(c),
    ensures
        a.le(c),
{
    lemma_den_positive(a);
    lemma_den_positive(b);
    lemma_den_positive(c);
    assert(a.num_of() * c.den_of() <= c.num_of() * a.den_of()) by (nonlinear_arith)
        requires
            a.num_of() * b.den_of() <= b.num_of() * a.den_of(),
            b.num_of() * c.den_of() <= c.num_of() * b.den_of(),
            a.den_of() >= 1,
            b.den_of() >= 1,
            c.den_of() >= 1,
    ;
}

} // verus!
