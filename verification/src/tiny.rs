//! Tiny strings: short ASCII names that fit a machine word.

use vstd::prelude::*;

verus! {

/// `tinystr::TinyStr16`, a string of one to sixteen ASCII characters.
/// Nothing of its inside is known here.
#[verifier::external_type_specification]
#[verifier::external_body]
pub struct ExTinyStr16(tinystr::TinyStr16);

/// What a tiny string reads as: the text that `TinyStr16::as_str` gives
/// for it.
pub uninterp spec fn tiny_text(t: tinystr::TinyStr16) -> Seq<char>;

/// Whether a text can be a tiny string: it has from one to sixteen
/// characters, all of them ASCII and none of them NUL.
pub open spec fn fits_tiny(text: Seq<char>) -> bool {
    1 <= text.len() <= 16 && forall|i: int|
        0 <= i < text.len() ==> '\u{1}' <= #[trigger] text[i] && text[i] <= '\u{7f}'
}

/// `TinyStr16::from_str` makes a tiny string of a text that has from one
/// to sixteen bytes, all of them ASCII and none of them NUL, and fails on
/// any other. The tiny string reads as the text it was made of.
#[verifier::external_body]
pub(crate) fn tiny(text: &str) -> (t: Option<tinystr::TinyStr16>)
    ensures
        t is Some <==> fits_tiny(text@),
        t matches Some(s) ==> tiny_text(s) == text@,
{
    text.parse().ok()
}

} // verus!
