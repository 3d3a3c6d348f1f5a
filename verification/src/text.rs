//! Text primitives the scorers build on: Unicode case folding and
//! whitespace classification, which come from the standard library, and a
//! verified character-by-character view of a string.
//!
//! Case folding and the Unicode whitespace table are not restated here;
//! their results are named by uninterpreted functions, and every contract
//! that depends on them speaks through those names.

use vstd::prelude::*;
use vstd::string::StrSliceExecFns;
use vstd::utf8::encode_utf8;

verus! {

/// The Unicode lowercase mapping of a character sequence, as
/// `str::to_lowercase` computes it.  The result depends on the characters
/// alone.
pub uninterp spec fn lower_of(s: Seq<char>) -> Seq<char>;

/// Whether a character has the Unicode `White_Space` property, as
/// `char::is_whitespace` decides it.
pub uninterp spec fn is_unicode_ws(c: char) -> bool;

/// Relies on `char::is_whitespace`: the Unicode `White_Space` property,
/// which depends on the character alone; an ASCII space has it.
pub assume_specification[ char::is_whitespace ](c: char) -> (r: bool)
    ensures
        r == is_unicode_ws(c),
        c == ' ' ==> r,
;

/// Relies on `str::to_lowercase`: the lowercase equivalent of the text,
/// depending on its characters alone.  The characters are handed over and
/// the result is taken back as UTF-8 bytes, the form the scorers search.
#[verifier::external_body]
pub(crate) fn lower_utf8(chars: &Vec<char>) -> (r: Vec<u8>)
    ensures
        r@ == encode_utf8(lower_of(chars@)),
{
    let s: String = chars.iter().collect();
    s.to_lowercase().into_bytes()
}

/// The characters of a string, in order.
pub fn chars_vec(s: &str) -> (r: Vec<char>)
    ensures
        r@ == s@,
{
    let n = s.unicode_len();
    let mut r: Vec<char> = Vec::new();
    let mut i: usize = 0;
    while i < n
        invariant
            i <= n,
            n == s@.len(),
            r@ == s@.take(i as int),
        decreases n - i,
    {
        r.push(s.get_char(i));
        proof {
            assert(r@ =~= s@.take(i + 1));
        }
        i = i + 1;
    }
    proof {
        assert(r@ =~= s@);
    }
    r
}

/// Whether the text contains an ASCII space character, the shape that
/// selects the multi-term substring scorer.
pub fn contains_space(s: &str) -> (r: bool)
    ensures
        r == s@.contains(' '),
{
    let chars = chars_vec(s);
    let n = chars.len();
    let mut i: usize = 0;
    while i < n
        invariant
            i <= n,
            n == chars@.len(),
            chars@ == s@,
            forall|j: int| 0 <= j < i ==> s@[j] != ' ',
        decreases n - i,
    {
        if chars[i] == ' ' {
            proof {
                assert(s@[i as int] == ' ');
            }
            return true;
        }
        i = i + 1;
    }
    proof {
        assert(forall|j: int| 0 <= j < s@.len() ==> s@[j] != ' ');
    }
    false
}

} // verus!
