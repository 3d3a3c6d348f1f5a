use fuzzymatch_rs::Score;
use fuzzymatch_rs::ascii_score_line;
use fuzzymatch_rs::score_le;
use fuzzymatch_rs::substr_scorer;

#[test]
fn substr_scorer_su_ou() {
    let (score, positions) = substr_scorer("su ou", "substr_scorer_should_work").unwrap();
    assert_eq!(positions, vec![0, 1, 16, 17]);
    assert_eq!(score, Score::Span { first: 0, last: 17 });
}

#[test]
fn substr_scorer_su_ork() {
    let (score, positions) = substr_scorer("su ork", "substr_scorer_should_work").unwrap();
    assert_eq!(positions, vec![0, 1, 22, 23, 24]);
    assert_eq!(score, Score::Span { first: 0, last: 24 });
}

#[test]
fn substr_scorer_single_term_present() {
    // a space-free term that occurs in the line always matches
    let (score, positions) = substr_scorer("scorer", "substr_scorer_should_work").unwrap();
    assert_eq!(positions, vec![7, 8, 9, 10, 11, 12]);
    assert_eq!(score, Score::Span { first: 7, last: 12 });
}

#[test]
fn substr_scorer_is_strictly_monotonic() {
    // a non-monotonic assignment would match ("b" at 2, then "a" at 0),
    // but a later term never matches before an earlier term's region
    assert!(substr_scorer("b a", "a b").is_none());
    assert!(substr_scorer("a b", "a b").is_some());
}

#[test]
fn substr_scorer_folds_case() {
    // an upper-case query and an upper-case line still match; if either
    // side were not lower-cased first, the bytes would differ
    let (_, positions) = substr_scorer("SU OU", "SUBSTR_SCORER_SHOULD_WORK").unwrap();
    assert_eq!(positions, vec![0, 1, 16, 17]);
    let (_, positions) = substr_scorer("su ou", "SUBSTR_scorer_SHOULD_work").unwrap();
    assert_eq!(positions, vec![0, 1, 16, 17]);
}

#[test]
fn substr_scorer_splits_on_any_whitespace() {
    // a tab separates terms just as a space does
    let (score, positions) = substr_scorer("su\tou", "substr_scorer_should_work").unwrap();
    assert_eq!(positions, vec![0, 1, 16, 17]);
    assert_eq!(score, Score::Span { first: 0, last: 17 });
}

#[test]
fn substr_scorer_empty_query_matches_everything() {
    let (score, positions) = substr_scorer("", "anything at all").unwrap();
    assert_eq!(score, Score::Ratio { num: 0, den: 1 });
    assert!(positions.is_empty());
}

#[test]
fn substr_scorer_missing_term_fails() {
    assert!(substr_scorer("su zz", "substr_scorer_should_work").is_none());
}

#[test]
fn ascii_scorer_is_case_insensitive() {
    let line: Vec<u8> = b".dependabot/config.yml".to_vec();
    let query: Vec<u8> = b"CON".to_vec();
    let (score, positions) = ascii_score_line(&line, &query).unwrap();
    assert_eq!(positions, vec![12, 13, 14]);
    assert_eq!(score, Score::Span { first: 12, last: 14 });
}

#[test]
fn ascii_scorer_no_match() {
    let line: Vec<u8> = b"unrelated".to_vec();
    let query: Vec<u8> = b"zzz".to_vec();
    assert!(ascii_score_line(&line, &query).is_none());
}

#[test]
fn score_order_is_exact() {
    // 2/1 + 1/18 - 18 = -287/18, strictly between -16 and -15
    let span = Score::Span { first: 0, last: 17 };
    assert!(score_le(&span, &Score::Ratio { num: -15, den: 1 }));
    assert!(!score_le(&Score::Ratio { num: -15, den: 1 }, &span));
    assert!(score_le(&Score::Ratio { num: -16, den: 1 }, &span));
    // equal values in different representations compare equal both ways
    let half_a = Score::Ratio { num: 1, den: 2 };
    let half_b = Score::Ratio { num: 2, den: 4 };
    assert!(score_le(&half_a, &half_b));
    assert!(score_le(&half_b, &half_a));
    // a tight early span beats a loose late one
    let tight = Score::Span { first: 0, last: 2 };
    let loose = Score::Span { first: 5, last: 20 };
    assert!(score_le(&loose, &tight));
    assert!(!score_le(&tight, &loose));
}

#[test]
fn score_constructors_check_their_inputs() {
    assert!(Score::fraction(1, 0).is_none());
    assert_eq!(Score::fraction(3, 2), Some(Score::Ratio { num: 3, den: 2 }));
    assert!(Score::from_span(5, 4).is_none());
    assert_eq!(Score::from_span(1, 4), Some(Score::Span { first: 1, last: 4 }));
}
