//! Label lines: `NAME:: @ ADDR`, the head of a script or message block.

use crate::error::Error;
use crate::number::{number, parse_number};
use crate::text::{reads, texts, to_text};
use vstd::prelude::*;
use vstd::slice::slice_subrange;

verus! {

/// Whether `w` ends with `pat`.
pub open spec fn ends_with(w: Seq<char>, pat: Seq<char>) -> bool {
    pat.len() <= w.len() && w.skip(w.len() - pat.len()) == pat
}

/// What the words of a line say as a label, for the line's number.
///
/// The first word ends in `::` and what stands before is the name; the
/// second word is `@`; the third is the address in hexadecimal.
pub open spec fn label(ws: Seq<Seq<char>>, line: usize) -> Result<(Seq<char>, u32), Error>
    recommends
        ws.len() > 0,
{
    if !ends_with(ws[0], "::"@) {
        Err(Error::ScriptName(line))
    } else if ws.len() < 2 || ws[1] != "@"@ {
        Err(Error::ScriptName(line))
    } else if ws.len() < 3 {
        Err(Error::ScriptLocation(line))
    } else {
        match number(ws[2], 16, u32::MAX) {
            Err(e) => Err(Error::MalformedLocation(e, line)),
            Ok(v) => Ok((ws[0].take(ws[0].len() - "::"@.len()), v)),
        }
    }
}

/// Whether a label read by the executable code is the one the words give.
pub open spec fn label_agrees(
    got: Result<(String, u32), Error>,
    want: Result<(Seq<char>, u32), Error>,
) -> bool {
    match (got, want) {
        (Ok((name, location)), Ok((n, l))) => name@ == n && location == l,
        (Err(e), Err(f)) => e == f,
        _ => false,
    }
}

/// Executable form of [`label`].
pub fn read_label(ws: &Vec<&[char]>, line: usize) -> (r: Result<(String, u32), Error>)
    requires
        ws.len() > 0,
    ensures
        label_agrees(r, label(texts(ws@), line)),
{
    proof {
        reveal_strlit("::");
    }
    let first = ws[0];
    if first.len() < 2 {
        return Err(Error::ScriptName(line));
    }
    let n = first.len() - 2;
    if !reads(slice_subrange(first, n, first.len()), "::") {
        return Err(Error::ScriptName(line));
    }
    if ws.len() < 2 || !reads(ws[1], "@") {
        return Err(Error::ScriptName(line));
    }
    if ws.len() < 3 {
        return Err(Error::ScriptLocation(line));
    }
    match parse_number(ws[2], 16, u32::MAX) {
        Err(e) => Err(Error::MalformedLocation(e, line)),
        Ok(v) => Ok((to_text(slice_subrange(first, 0, n)), v)),
    }
}

} // verus!
