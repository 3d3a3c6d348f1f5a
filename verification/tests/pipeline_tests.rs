use std::collections::HashMap;

use fuzzymatch_rs::AsciiSubstrScorer;
use fuzzymatch_rs::MatcherKind;
use fuzzymatch_rs::RankedLine;
use fuzzymatch_rs::Score;
use fuzzymatch_rs::fuzzy_match;
use fuzzymatch_rs::select_matcher;
use fuzzymatch_rs::sort_by_score;
use fuzzymatch_rs::truncate_for_display;

#[test]
fn test_skip_icon() {
    let lines: Vec<String> = vec![
        "\u{e615} .dependabot/config.yml".into(),
        "\u{e615} .editorconfig".into(),
    ];
    let query = "con";
    println!(
        "ret: {:#?}",
        fuzzy_match(&AsciiSubstrScorer, query, lines, 62, true)
    );
}

#[test]
fn icon_positions_are_shifted_past_the_prefix() {
    let lines: Vec<String> = vec![
        "\u{e615} .dependabot/config.yml".into(),
        "\u{e615} .editorconfig".into(),
    ];
    let (indices, filtered, truncated) =
        fuzzy_match(&AsciiSubstrScorer, "con", lines, 62, true).unwrap();
    // both lines are evaluated against their icon-stripped forms and match
    assert_eq!(filtered.len(), 2);
    assert_eq!(indices.len(), 2);
    for row in &indices {
        assert!(!row.is_empty());
        for &p in row {
            assert!(p >= 4);
        }
    }
    // the tighter, earlier match ranks first
    assert_eq!(filtered[0], "\u{e615} .editorconfig");
    assert_eq!(indices[0], vec![11, 12, 13]);
    assert_eq!(indices[1], vec![16, 17, 18]);
    assert!(truncated.is_empty());
}

#[test]
fn icon_mode_rejects_a_line_shorter_than_the_prefix() {
    let lines: Vec<String> = vec!["ab".into()];
    assert!(fuzzy_match(&AsciiSubstrScorer, "a", lines, 62, true).is_none());
    // with icons disabled the same line is scored as it stands
    let lines: Vec<String> = vec!["ab".into()];
    assert!(fuzzy_match(&AsciiSubstrScorer, "a", lines, 62, false).is_some());
}

#[test]
fn end_to_end_substring_query() {
    let candidates: Vec<String> = vec![
        "substr_scorer_should_work".into(),
        "unrelated line".into(),
    ];
    let (indices, filtered, truncated) =
        fuzzy_match(&AsciiSubstrScorer, "su ou", candidates, 100, false).unwrap();
    // exactly one candidate matches
    assert_eq!(filtered, vec!["substr_scorer_should_work".to_string()]);
    assert_eq!(indices.len(), 1);
    // positions are non-empty and ascending
    assert_eq!(indices[0], vec![0, 1, 16, 17]);
    for w in indices[0].windows(2) {
        assert!(w[0] < w[1]);
    }
    assert!(truncated.is_empty());
}

#[test]
fn empty_query_matches_with_no_positions() {
    let candidates: Vec<String> = vec!["anything".into()];
    let (indices, filtered, _) =
        fuzzy_match(&AsciiSubstrScorer, "", candidates, 40, false).unwrap();
    assert_eq!(filtered, vec!["anything".to_string()]);
    assert_eq!(indices, vec![Vec::<usize>::new()]);
}

#[test]
fn matcher_selection_follows_the_query_shape() {
    assert_eq!(select_matcher("a b", true), MatcherKind::MultiTerm);
    assert_eq!(select_matcher("ab", true), MatcherKind::SingleTerm { enable_icon: true });
    assert_eq!(select_matcher("ab", false), MatcherKind::SingleTerm { enable_icon: false });
    // only an ASCII space marks a multi-term phrase; other whitespace does not
    assert_eq!(select_matcher("a\tb", false), MatcherKind::SingleTerm { enable_icon: false });
}

#[test]
fn ranking_is_descending_by_score() {
    let rows = vec![
        RankedLine { text: "three".to_string(), score: Score::Ratio { num: 3, den: 1 }, indices: vec![] },
        RankedLine { text: "minus_one".to_string(), score: Score::Ratio { num: -1, den: 1 }, indices: vec![] },
        RankedLine { text: "five".to_string(), score: Score::Ratio { num: 5, den: 1 }, indices: vec![] },
    ];
    let sorted = sort_by_score(rows);
    let texts: Vec<&str> = sorted.iter().map(|r| r.text.as_str()).collect();
    assert_eq!(texts, vec!["five", "three", "minus_one"]);
}

#[test]
fn truncation_round_trips_through_the_map() {
    let long = "abcdefghijklmnopqrstuvwxyz".to_string();
    let rows = vec![RankedLine {
        text: long.clone(),
        score: Score::Ratio { num: 0, den: 1 },
        indices: vec![2, 20],
    }];
    let (indices, lines, pairs) = truncate_for_display(&rows, 10, false);
    assert_eq!(lines[0], "abcdefghij");
    // the offset past the cut is omitted rather than left out of range
    assert_eq!(indices[0], vec![2]);
    let map: HashMap<String, String> = pairs.into_iter().collect();
    assert_eq!(map.get(&lines[0]).unwrap(), &long);
}

#[test]
fn truncation_reserves_columns_for_icons() {
    let long = "abcdefghij".to_string();
    let rows = vec![RankedLine {
        text: long.clone(),
        score: Score::Ratio { num: 0, den: 1 },
        indices: vec![0],
    }];
    // ten bytes fit a width of 10 without icons...
    let (_, lines, pairs) = truncate_for_display(&rows, 10, false);
    assert_eq!(lines[0], long);
    assert!(pairs.is_empty());
    // ...but only 8 columns remain when icons are enabled
    let rows = vec![RankedLine {
        text: long.clone(),
        score: Score::Ratio { num: 0, den: 1 },
        indices: vec![0],
    }];
    let (_, lines, pairs) = truncate_for_display(&rows, 10, true);
    assert_eq!(lines[0], "abcdefgh");
    assert_eq!(pairs.len(), 1);
}

#[test]
fn truncation_cuts_on_a_character_boundary() {
    // four two-byte characters: a cut at 5 bytes must fall back to 4
    let text = "\u{00e9}\u{00e9}\u{00e9}\u{00e9}".to_string();
    let rows = vec![RankedLine {
        text: text.clone(),
        score: Score::Ratio { num: 0, den: 1 },
        indices: vec![],
    }];
    let (_, lines, _) = truncate_for_display(&rows, 5, false);
    assert_eq!(lines[0], "\u{00e9}\u{00e9}");
}

#[test]
fn icon_and_truncation_combine() {
    let lines: Vec<String> = vec!["\u{e615} .dependabot/config.yml".into()];
    let (indices, filtered, truncated) =
        fuzzy_match(&AsciiSubstrScorer, "con", lines, 20, true).unwrap();
    // 18 columns remain; the line is cut there and the third matched
    // offset, now out of range, is omitted
    assert_eq!(filtered[0], "\u{e615} .dependabot/co");
    assert_eq!(indices[0], vec![16, 17]);
    let map: HashMap<String, String> = truncated.into_iter().collect();
    assert_eq!(
        map.get(&filtered[0]).map(|s| s.as_str()),
        Some("\u{e615} .dependabot/config.yml")
    );
}

#[test]
fn multi_term_query_spans_the_icon_prefix() {
    // a query with a space takes the substring scorer, which searches the
    // whole line and asks nothing of the icon prefix
    let lines: Vec<String> = vec!["\u{e615} .dependabot/config.yml".into(), "ab".into()];
    let (indices, filtered, _) =
        fuzzy_match(&AsciiSubstrScorer, "con fig", lines, 100, true).unwrap();
    assert_eq!(filtered, vec!["\u{e615} .dependabot/config.yml".to_string()]);
    assert_eq!(indices[0], vec![16, 17, 18, 19, 20, 21]);
}
