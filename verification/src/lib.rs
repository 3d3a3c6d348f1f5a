//! Query-to-candidate ranking pipeline for an interactive incremental search.
//!
//! The library scores candidate text lines against a user-typed query,
//! ranks them by descending score, and prepares the ranked results for
//! compact display: per-row matched byte offsets, display lines shortened
//! to a column budget, and a remap table from shortened text back to the
//! full original text.

mod display;
mod laws;
mod pipeline;
mod query;
mod rank;
mod score;
mod scorer;
mod search;
mod substr;
mod text;

pub use display::cut_of;
pub use display::display_bytes;
pub use display::eff_width;
pub use display::keep_lt;
pub use display::lemma_keep_lt;
pub use display::lemma_trunc_map_covers;
pub use display::presented;
pub use display::trunc_map_of;
pub use display::truncate_for_display;
pub use laws::lemma_ascii_single_matches;
pub use laws::lemma_display_positions_in_bounds;
pub use laws::lemma_single_term_matches;
pub use pipeline::MatcherKind;
pub use pipeline::fuzzy_match;
pub use pipeline::icon_ok;
pub use pipeline::ranked_ok;
pub use pipeline::select_matcher;
pub use pipeline::substr_rows;
pub use query::lemma_single_term;
pub use query::lemma_term_len_bounds;
pub use query::split_terms;
pub use query::term_len;
pub use query::terms_of;
pub use rank::RankedLine;
pub use rank::models;
pub use rank::sort_by_score;
pub use rank::sorted_desc;
pub use score::MAX_POS;
pub use score::Score;
pub use score::lemma_le_total;
pub use score::lemma_le_trans;
pub use score::score_le;
pub use scorer::AsciiSubstrScorer;
pub use scorer::LineScorer;
pub use scorer::ascii_folded;
pub use scorer::ascii_lower;
pub use scorer::ascii_score_line;
pub use scorer::ascii_single_result;
pub use scorer::shift_positions;
pub use search::find_start_at;
pub use search::first_match_from;
pub use search::lemma_first_match_from;
pub use search::match_at;
pub use substr::greedy_positions;
pub use substr::hay_of;
pub use substr::lemma_greedy_ascending;
pub use substr::needles_of;
pub use substr::strictly_ascending;
pub use substr::substr_result;
pub use substr::substr_scorer;
pub use text::chars_vec;
pub use text::contains_space;
pub use text::is_unicode_ws;
pub use text::lower_of;
