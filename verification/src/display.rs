//! The display truncation and remap adapter.
//!
//! Ranked rows are prepared for rendering inside a column budget: a row
//! whose text has more bytes than the effective width is shortened to its
//! longest prefix that fits and still ends on a character boundary, and an
//! entry mapping the shortened text back to the full original text is
//! recorded.  Matched byte offsets are clamped against the text actually
//! shown: an offset that no longer falls inside it is omitted rather than
//! returned out of range.

use vstd::prelude::*;
use vstd::string::StringSliceAdditionalSpecFns;
use vstd::utf8::encode_utf8;
use vstd::utf8::encode_utf8_valid_utf8;
use vstd::utf8::is_char_boundary;
use vstd::utf8::is_char_boundary_start_end_of_seq;
use crate::rank::RankedLine;
use crate::rank::models;
use crate::score::Score;
use crate::substr::strictly_ascending;

verus! {

/// The column budget left for text once icon rendering is accounted for:
/// two display columns are reserved when icons are enabled.
pub open spec fn eff_width(winwidth: int, enable_icon: bool) -> int {
    if enable_icon {
        if winwidth >= 2 {
            winwidth - 2
        } else {
            0
        }
    } else {
        winwidth
    }
}

/// The largest byte offset at most `w` that falls on a character boundary.
pub open spec fn cut_of(bytes: Seq<u8>, w: int) -> int
    decreases w,
{
    if w <= 0 {
        0
    } else if is_char_boundary(bytes, w) {
        w
    } else {
        cut_of(bytes, w - 1)
    }
}

/// The bytes of the text a row displays: the text itself when it fits the
/// effective width, else its longest boundary-aligned prefix that fits.
pub open spec fn display_bytes(text_bytes: Seq<u8>, w: int) -> Seq<u8> {
    if text_bytes.len() <= w {
        text_bytes
    } else {
        text_bytes.take(cut_of(text_bytes, w))
    }
}

/// The offsets that still index the displayed text: those below `n`, in
/// their original order.
pub open spec fn keep_lt(p: Seq<usize>, n: int) -> Seq<usize>
    decreases p.len(),
{
    if p.len() == 0 {
        Seq::empty()
    } else {
        keep_lt(p.drop_last(), n) + if p.last() < n {
            seq![p.last()]
        } else {
            Seq::empty()
        }
    }
}

/// Clamped offsets stay in the source, below the bound, and ascending
/// when the source ascends.
pub proof fn lemma_keep_lt(p: Seq<usize>, n: int)
    ensures
        forall|i: int|
            0 <= i < keep_lt(p, n).len() ==> p.contains(#[trigger] keep_lt(p, n)[i]) && keep_lt(
                p,
                n,
            )[i] < n,
        strictly_ascending(p) ==> strictly_ascending(keep_lt(p, n)),
    decreases p.len(),
{
    if p.len() == 0 {
    } else {
        let q = p.drop_last();
        lemma_keep_lt(q, n);
        assert(forall|i: int| 0 <= i < q.len() ==> q[i] == p[i]);
        assert forall|i: int| 0 <= i < keep_lt(p, n).len() implies p.contains(
            #[trigger] keep_lt(p, n)[i],
        ) && keep_lt(p, n)[i] < n by {
            if i < keep_lt(q, n).len() {
                assert(keep_lt(p, n)[i] == keep_lt(q, n)[i]);
                let w = choose|j: int| 0 <= j < q.len() && q[j] == keep_lt(q, n)[i];
                assert(p[w] == keep_lt(p, n)[i]);
            } else {
                assert(keep_lt(p, n)[i] == p.last());
            }
        }
        if strictly_ascending(p) {
            assert(strictly_ascending(q));
            assert forall|a: int, b: int|
                0 <= a < b < keep_lt(p, n).len() implies keep_lt(p, n)[a] < keep_lt(p, n)[b] by {
                if b < keep_lt(q, n).len() {
                    assert(keep_lt(p, n)[a] == keep_lt(q, n)[a]);
                    assert(keep_lt(p, n)[b] == keep_lt(q, n)[b]);
                } else {
                    assert(keep_lt(p, n)[b] == p.last());
                    assert(keep_lt(p, n)[a] == keep_lt(q, n)[a]);
                    let w = choose|j: int| 0 <= j < q.len() && q[j] == keep_lt(q, n)[a];
                    assert(p[w] < p[p.len() - 1]);
                }
            }
        }
    }
}

/// The remap entries owed for a run of rows: one pair, shortened text
/// bytes to original text, for each row whose text exceeds the width, in
/// row order.
pub open spec fn trunc_map_of(ms: Seq<(Seq<char>, Score, Seq<usize>)>, w: int) -> Seq<
    (Seq<u8>, Seq<char>),
>
    decreases ms.len(),
{
    if ms.len() == 0 {
        Seq::empty()
    } else {
        trunc_map_of(ms.drop_last(), w) + if encode_utf8(ms.last().0).len() > w {
            seq![(display_bytes(encode_utf8(ms.last().0), w), ms.last().0)]
        } else {
            Seq::empty()
        }
    }
}

/// Every truncated row has its entry in the remap: the displayed bytes
/// paired with the full original text.
pub proof fn lemma_trunc_map_covers(ms: Seq<(Seq<char>, Score, Seq<usize>)>, w: int, i: int)
    requires
        0 <= i < ms.len(),
        encode_utf8(ms[i].0).len() > w,
    ensures
        trunc_map_of(ms, w).contains((display_bytes(encode_utf8(ms[i].0), w), ms[i].0)),
    decreases ms.len(),
{
    let q = ms.drop_last();
    if i == ms.len() - 1 {
        assert(ms.last() == ms[i]);
        let entry = (display_bytes(encode_utf8(ms[i].0), w), ms[i].0);
        assert(trunc_map_of(ms, w).last() == entry);
    } else {
        assert(q[i] == ms[i]);
        lemma_trunc_map_covers(q, w, i);
        let entry = (display_bytes(encode_utf8(ms[i].0), w), ms[i].0);
        let j = choose|j: int| 0 <= j < trunc_map_of(q, w).len() && trunc_map_of(q, w)[j] == entry;
        assert(trunc_map_of(ms, w)[j] == entry);
    }
}

/// Shortens one text to its longest boundary-aligned prefix of at most
/// `w` bytes.
fn truncate_text(text: &String, w: usize) -> (r: String)
    requires
        w < encode_utf8(text@).len(),
    ensures
        encode_utf8(r@) == encode_utf8(text@).take(cut_of(encode_utf8(text@), w as int)),
{
    broadcast use encode_utf8_valid_utf8;
    broadcast use is_char_boundary_start_end_of_seq;

    let s = text.as_str();
    let ghost bytes = s.spec_bytes();
    proof {
        assert(bytes == encode_utf8(s@));
        assert(vstd::utf8::valid_utf8(bytes));
    }
    let mut cut: usize = w;
    while !s.is_char_boundary(cut)
        invariant
            cut <= bytes.len(),
            bytes == s.spec_bytes(),
            vstd::utf8::valid_utf8(bytes),
            cut_of(bytes, w as int) == cut_of(bytes, cut as int),
        decreases cut,
    {
        proof {
            assert(is_char_boundary(bytes, 0));
            assert(cut > 0);
        }
        cut = cut - 1;
    }
    proof {
        assert(cut_of(bytes, cut as int) == cut);
    }
    let (head, _tail) = s.split_at(cut);
    head.to_owned()
}

/// The display contract: `indices`, `lines` and `map` present the rows.
/// For each row, in rank order: the displayed text's bytes are the row's
/// text cut to the effective width on a character boundary (the text
/// itself where it fits); the matched byte offsets are exactly those that
/// still index the displayed text; and the remap holds one entry per
/// shortened row, from the shortened text to the full original.
pub open spec fn presented(
    rows: Seq<RankedLine>,
    winwidth: int,
    enable_icon: bool,
    indices: Seq<Vec<usize>>,
    lines: Seq<String>,
    map: Seq<(String, String)>,
) -> bool {
    let w = eff_width(winwidth, enable_icon);
    let ms = models(rows);
    &&& indices.len() == rows.len()
    &&& lines.len() == rows.len()
    &&& forall|i: int|
        0 <= i < rows.len() ==> encode_utf8(#[trigger] lines[i]@) == display_bytes(
            encode_utf8(ms[i].0),
            w,
        )
    &&& forall|i: int|
        0 <= i < rows.len() && encode_utf8(ms[i].0).len() <= w ==> #[trigger] lines[i]@ == ms[i].0
    &&& forall|i: int|
        0 <= i < rows.len() ==> #[trigger] indices[i]@ == keep_lt(
            ms[i].2,
            display_bytes(encode_utf8(ms[i].0), w).len() as int,
        )
    &&& map.map_values(|pr: (String, String)| (encode_utf8(pr.0@), pr.1@)) == trunc_map_of(ms, w)
}

/// Prepares ranked rows for display: for each row, in rank order, the
/// matched byte offsets clamped to the displayed text, the displayed text
/// itself, and — for the rows that were shortened — remap entries from the
/// shortened text to the original.
pub fn truncate_for_display(rows: &Vec<RankedLine>, winwidth: usize, enable_icon: bool) -> (r: (
    Vec<Vec<usize>>,
    Vec<String>,
    Vec<(String, String)>,
))
    ensures
        presented(rows@, winwidth as int, enable_icon, r.0@, r.1@, r.2@),
{
    broadcast use encode_utf8_valid_utf8;

    let w: usize = if enable_icon {
        if winwidth >= 2 {
            winwidth - 2
        } else {
            0
        }
    } else {
        winwidth
    };
    let n = rows.len();
    let mut indices: Vec<Vec<usize>> = Vec::new();
    let mut lines: Vec<String> = Vec::new();
    let mut map: Vec<(String, String)> = Vec::new();
    let mut i: usize = 0;
    proof {
        assert(models(rows@).take(0) =~= Seq::<(Seq<char>, Score, Seq<usize>)>::empty());
        assert(map@.map_values(|pr: (String, String)| (encode_utf8(pr.0@), pr.1@))
            =~= Seq::<(Seq<u8>, Seq<char>)>::empty());
    }
    while i < n
        invariant
            i <= n,
            n == rows@.len(),
            w == eff_width(winwidth as int, enable_icon),
            indices@.len() == i,
            lines@.len() == i,
            forall|t: int|
                0 <= t < i ==> encode_utf8(#[trigger] lines@[t]@) == display_bytes(
                    encode_utf8(models(rows@)[t].0),
                    w as int,
                ),
            forall|t: int|
                0 <= t < i && encode_utf8(models(rows@)[t].0).len() <= w ==> #[trigger] lines@[t]@
                    == models(rows@)[t].0,
            forall|t: int|
                0 <= t < i ==> #[trigger] indices@[t]@ == keep_lt(
                    models(rows@)[t].2,
                    display_bytes(encode_utf8(models(rows@)[t].0), w as int).len() as int,
                ),
            map@.map_values(|pr: (String, String)| (encode_utf8(pr.0@), pr.1@)) == trunc_map_of(
                models(rows@).take(i as int),
                w as int,
            ),
        decreases n - i,
    {
        let row = &rows[i];
        let ghost ms = models(rows@);
        let ghost old_map = map@;
        proof {
            assert(ms[i as int] == rows@[i as int].model());
            assert(encode_utf8(row.text@) == encode_utf8(ms[i as int].0));
        }
        let tlen = row.text.as_str().as_bytes().len();
        let display: String;
        let dlen: usize;
        if tlen > w {
            let short = truncate_text(&row.text, w);
            proof {
                lemma_cut_of_le(encode_utf8(row.text@), w as int);
            }
            dlen = short.as_str().as_bytes().len();
            map.push((short.clone(), row.text.clone()));
            display = short;
            proof {
                assert(encode_utf8(display@) == display_bytes(encode_utf8(ms[i as int].0), w as int));
            }
        } else {
            display = row.text.clone();
            dlen = tlen;
            proof {
                assert(display@ == row.text@);
                assert(tlen as int == encode_utf8(row.text@).len());
                assert(encode_utf8(ms[i as int].0).len() <= w as int);
                assert(encode_utf8(display@) == display_bytes(encode_utf8(ms[i as int].0), w as int));
            }
        }
        proof {
            assert(dlen as int == display_bytes(encode_utf8(ms[i as int].0), w as int).len());
            assert(ms.take(i + 1).drop_last() =~= ms.take(i as int));
            assert(ms.take(i + 1).last() == ms[i as int]);
            let f = |pr: (String, String)| (encode_utf8(pr.0@), pr.1@);
            if encode_utf8(ms[i as int].0).len() > w {
                assert(map@.last().0@ == display@ && map@.last().1@ == rows@[i as int].text@);
                assert(map@.drop_last() =~= old_map);
                assert(map@.map_values(f) =~= old_map.map_values(f) + seq![
                    (encode_utf8(display@), rows@[i as int].text@),
                ]);
            }
            assert(map@.map_values(f) =~= trunc_map_of(ms.take(i + 1), w as int));
        }
        // clamp the matched offsets against the displayed text
        let p = &row.indices;
        let pn = p.len();
        let mut kept: Vec<usize> = Vec::new();
        let mut j: usize = 0;
        proof {
            assert(p@.take(0) =~= Seq::<usize>::empty());
        }
        while j < pn
            invariant
                j <= pn,
                pn == p@.len(),
                kept@ == keep_lt(p@.take(j as int), dlen as int),
            decreases pn - j,
        {
            proof {
                assert(p@.take(j + 1).drop_last() =~= p@.take(j as int));
                assert(p@.take(j + 1).last() == p@[j as int]);
            }
            if p[j] < dlen {
                kept.push(p[j]);
                proof {
                    assert(kept@ =~= keep_lt(p@.take(j as int), dlen as int) + seq![p@[j as int]]);
                }
            } else {
                proof {
                    assert(keep_lt(p@.take(j + 1), dlen as int) =~= keep_lt(
                        p@.take(j as int),
                        dlen as int,
                    ));
                }
            }
            j = j + 1;
        }
        proof {
            assert(p@.take(pn as int) =~= p@);
        }
        indices.push(kept);
        lines.push(display);
        i = i + 1;
    }
    proof {
        assert(models(rows@).take(n as int) =~= models(rows@));
    }
    (indices, lines, map)
}

/// The cut never exceeds the budget.
proof fn lemma_cut_of_le(bytes: Seq<u8>, w: int)
    requires
        0 <= w,
    ensures
        0 <= cut_of(bytes, w) <= w,
    decreases w,
{
    if w > 0 && !is_char_boundary(bytes, w) {
        lemma_cut_of_le(bytes, w - 1);
    }
}

} // verus!
