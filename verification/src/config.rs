//! Run configuration: which file the starting board comes from and how the
//! board is anchored within the viewport.

use vstd::prelude::*;
use vstd::string::StrSliceExecFns;

verus! {

/// Where the board is pinned inside the viewport: a corner, the middle of an
/// edge, the center, or `Unanchored` for the default centered placement. The
/// first letter is the vertical alignment (top, center, bottom), the second
/// the horizontal one (left, center, right).
#[derive(Debug, Clone, Copy, PartialEq, Eq, Structural)]
pub enum Anchor {
    Unanchored,
    TL,
    TC,
    TR,
    CL,
    CC,
    CR,
    BL,
    BC,
    BR,
}

/// A resolved run configuration.
#[derive(Debug)]
pub struct Config {
    pub anchor: Anchor,
    pub starting_board: String,
}

/// The anchor a two-character alignment code names: the first character one
/// of `t`, `c`, `b` and the second one of `l`, `c`, `r`; anything else names
/// no anchor.
pub open spec fn anchor_of_code(s: Seq<char>) -> Option<Anchor> {
    if s.len() != 2 {
        None
    } else if s[0] == 't' && s[1] == 'l' {
        Some(Anchor::TL)
    } else if s[0] == 't' && s[1] == 'c' {
        Some(Anchor::TC)
    } else if s[0] == 't' && s[1] == 'r' {
        Some(Anchor::TR)
    } else if s[0] == 'c' && s[1] == 'l' {
        Some(Anchor::CL)
    } else if s[0] == 'c' && s[1] == 'c' {
        Some(Anchor::CC)
    } else if s[0] == 'c' && s[1] == 'r' {
        Some(Anchor::CR)
    } else if s[0] == 'b' && s[1] == 'l' {
        Some(Anchor::BL)
    } else if s[0] == 'b' && s[1] == 'c' {
        Some(Anchor::BC)
    } else if s[0] == 'b' && s[1] == 'r' {
        Some(Anchor::BR)
    } else {
        None
    }
}

/// Parses a two-character alignment code (`"tl"`, `"cc"`, `"br"`, ...) into
/// an anchor; `None` for any string that is not a valid code.
pub fn anchor_from_code(code: &str) -> (r: Option<Anchor>)
    ensures
        r == anchor_of_code(code@),
{
    let n = code.unicode_len();
    if n != 2 {
        return None;
    }
    let v = code.get_char(0);
    let h = code.get_char(1);
    if v == 't' && h == 'l' {
        Some(Anchor::TL)
    } else if v == 't' && h == 'c' {
        Some(Anchor::TC)
    } else if v == 't' && h == 'r' {
        Some(Anchor::TR)
    } else if v == 'c' && h == 'l' {
        Some(Anchor::CL)
    } else if v == 'c' && h == 'c' {
        Some(Anchor::CC)
    } else if v == 'c' && h == 'r' {
        Some(Anchor::CR)
    } else if v == 'b' && h == 'l' {
        Some(Anchor::BL)
    } else if v == 'b' && h == 'c' {
        Some(Anchor::BC)
    } else if v == 'b' && h == 'r' {
        Some(Anchor::BR)
    } else {
        None
    }
}

} // verus!
