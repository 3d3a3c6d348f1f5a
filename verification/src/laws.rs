//! Properties of the scorers that hold for every input, stated and proved
//! once and for all.

use vstd::prelude::*;
use vstd::utf8::encode_utf8;
use crate::display::display_bytes;
use crate::display::eff_width;
use crate::display::keep_lt;
use crate::display::lemma_keep_lt;
use crate::display::presented;
use crate::query::lemma_single_term;
use crate::rank::RankedLine;
use crate::rank::models;
use crate::substr::strictly_ascending;
use crate::score::MAX_POS;
use crate::scorer::ascii_folded;
use crate::scorer::ascii_single_result;
use crate::search::lemma_first_match_from;
use crate::search::match_at;
use crate::substr::greedy_positions;
use crate::substr::hay_of;
use crate::substr::needles_of;
use crate::substr::substr_result;
use crate::text::is_unicode_ws;
use crate::text::lower_of;

verus! {

/// Whenever the case-folded line contains the case-folded query anywhere,
/// the built-in single-term scorer reports a match.
pub proof fn lemma_ascii_single_matches(line: Seq<u8>, query: Seq<u8>)
    requires
        line.len() <= MAX_POS + 1,
        exists|i: int| match_at(ascii_folded(line), ascii_folded(query), i),
    ensures
        ascii_single_result(line, query) is Some,
{
    if query.len() > 0 {
        lemma_first_match_from(ascii_folded(line), ascii_folded(query), 0);
        if ascii_single_result(line, query) is None {
            let i = choose|i: int| match_at(ascii_folded(line), ascii_folded(query), i);
            assert(!match_at(ascii_folded(line), ascii_folded(query), i));
        }
    }
}

/// A non-empty query free of whitespace is a single term, and whenever the
/// lower-cased line contains the lower-cased term anywhere, the substring
/// scorer reports a match: the greedy left-to-right search cannot miss a
/// single term.
pub proof fn lemma_single_term_matches(q: Seq<char>, line: Seq<char>)
    requires
        q.len() > 0,
        forall|j: int| 0 <= j < q.len() ==> !is_unicode_ws(q[j]),
        exists|i: int| match_at(hay_of(line), encode_utf8(lower_of(q)), i),
        hay_of(line).len() <= MAX_POS + 1,
    ensures
        substr_result(q, line) is Some,
{
    lemma_single_term(q);
    let needle = encode_utf8(lower_of(q));
    assert(needles_of(q) =~= seq![needle]);
    lemma_first_match_from(hay_of(line), needle, 0);
    match crate::search::first_match_from(hay_of(line), needle, 0) {
        None => {
            let i = choose|i: int| match_at(hay_of(line), needle, i);
            assert(!match_at(hay_of(line), needle, i));
        },
        Some(i) => {
            let ns = needles_of(q);
            assert(ns.len() == 1 && ns[0] == needle);
            assert(ns.drop_first() =~= Seq::<Seq<u8>>::empty());
            assert(greedy_positions(ns.drop_first(), hay_of(line), i + ns[0].len() as int)
                == Some(Seq::<int>::empty()));
            assert(greedy_positions(ns, hay_of(line), 0) is Some);
        },
    }
}

/// Displayed offsets are safe: in a presented result every matched byte
/// offset indexes the text actually shown, and each row's offsets ascend.
/// An offset that truncation pushed out of range is omitted, never
/// returned out of bounds.
pub proof fn lemma_display_positions_in_bounds(
    rows: Seq<RankedLine>,
    winwidth: int,
    enable_icon: bool,
    indices: Seq<Vec<usize>>,
    lines: Seq<String>,
    map: Seq<(String, String)>,
)
    requires
        forall|i: int| 0 <= i < rows.len() ==> (#[trigger] rows[i]).wf(),
        presented(rows, winwidth, enable_icon, indices, lines, map),
    ensures
        forall|i: int, t: int|
            0 <= i < indices.len() && 0 <= t < indices[i]@.len() ==> #[trigger] indices[i]@[t]
                < encode_utf8(lines[i]@).len(),
        forall|i: int| 0 <= i < indices.len() ==> strictly_ascending(#[trigger] indices[i]@),
{
    let w = eff_width(winwidth, enable_icon);
    let ms = models(rows);
    assert forall|i: int, t: int|
        0 <= i < indices.len() && 0 <= t < indices[i]@.len() implies #[trigger] indices[i]@[t]
        < encode_utf8(lines[i]@).len() by {
        let dlen = display_bytes(encode_utf8(ms[i].0), w).len() as int;
        lemma_keep_lt(ms[i].2, dlen);
        assert(indices[i]@ == keep_lt(ms[i].2, dlen));
        assert(encode_utf8(lines[i]@).len() == dlen);
    }
    assert forall|i: int| 0 <= i < indices.len() implies strictly_ascending(
        #[trigger] indices[i]@,
    ) by {
        let dlen = display_bytes(encode_utf8(ms[i].0), w).len() as int;
        lemma_keep_lt(ms[i].2, dlen);
        assert(ms[i].2 == rows[i].indices@);
        assert(strictly_ascending(ms[i].2));
    }
}

} // verus!
