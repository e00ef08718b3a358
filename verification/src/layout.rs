//! Layout engine: computes the signed padding that places a board inside a
//! terminal viewport.

use vstd::prelude::*;
use crate::config::Anchor;

verus! {

/// Signed padding around a board inside a viewport: how many rows/columns of
/// blank fill surround the board on each side when rendered, or how many are
/// cropped when negative.
#[derive(Debug, Clone, Copy, PartialEq, Eq, Structural)]
pub struct Padding {
    pub top: i32,
    pub right: i32,
    pub bottom: i32,
    pub left: i32,
}

/// Floor of `d / 2` (rounds toward negative infinity, like mathematical
/// division by 2).
fn div2_floor(d: i32) -> (r: i32)
    ensures
        r as int == (d as int) / 2,
{
    if d >= 0 {
        let u: u32 = d as u32;
        (u / 2) as i32
    } else {
        let neg: i64 = -(d as i64);
        let m: u32 = neg as u32;
        let h: u32 = (m + 1) / 2;
        assert((d as int) / 2 == -((m + 1) as int / 2)) by (nonlinear_arith)
            requires
                m == -(d as int),
                d < 0,
        ;
        (-(h as i64)) as i32
    }
}

/// Centers a board of `board_width x board_height` in a window of
/// `window_width x window_height`: each dimension's difference is split in
/// half, the floor going to the left/top and the ceiling to the right/bottom.
/// Negative differences (board larger than window) yield negative padding,
/// telling the renderer to crop; the extra unit of an odd negative difference
/// is cropped from the top/left.
pub fn calculate_padding(
    window_width: i32,
    window_height: i32,
    board_width: i32,
    board_height: i32,
) -> (r: Padding)
    requires
        i32::MIN <= window_width - board_width <= i32::MAX,
        i32::MIN <= window_height - board_height <= i32::MAX,
    ensures
        r.left as int == (window_width - board_width) / 2,
        r.right as int == (window_width - board_width + 1) / 2,
        r.top as int == (window_height - board_height) / 2,
        r.bottom as int == (window_height - board_height + 1) / 2,
        r.left + r.right == window_width - board_width,
        r.top + r.bottom == window_height - board_height,
{
    let diffw: i32 = window_width - board_width;
    let diffh: i32 = window_height - board_height;

    let left: i32 = div2_floor(diffw);
    let top: i32 = div2_floor(diffh);
    assert(diffw - (diffw as int) / 2 == (diffw + 1) as int / 2) by (nonlinear_arith);
    assert(diffh - (diffh as int) / 2 == (diffh + 1) as int / 2) by (nonlinear_arith);

    Padding { top, right: diffw - left, bottom: diffh - top, left }
}

/// The left padding an anchor asks for, given the horizontal difference
/// `dw = window_width - board_width`: none when pinned to the left, all of
/// `dw` when pinned to the right, and a centered split otherwise.
pub open spec fn anchor_left(a: Anchor, dw: int) -> int {
    match a {
        Anchor::TL | Anchor::CL | Anchor::BL => 0,
        Anchor::TR | Anchor::CR | Anchor::BR => dw,
        _ => dw / 2,
    }
}

/// The top padding an anchor asks for, given the vertical difference
/// `dh = window_height - board_height`: none when pinned to the top, all of
/// `dh` when pinned to the bottom, and a centered split otherwise.
pub open spec fn anchor_top(a: Anchor, dh: int) -> int {
    match a {
        Anchor::TL | Anchor::TC | Anchor::TR => 0,
        Anchor::BL | Anchor::BC | Anchor::BR => dh,
        _ => dh / 2,
    }
}

/// Pins a board to the viewport edge or corner the anchor names, instead of
/// centering it: the whole of each dimension's difference goes to the far
/// side of the anchored edge. A centered axis (and `Anchor::Unanchored` on both
/// axes) splits as `calculate_padding` does.
pub fn calculate_anchored_padding(
    anchor: Anchor,
    window_width: i32,
    window_height: i32,
    board_width: i32,
    board_height: i32,
) -> (r: Padding)
    requires
        i32::MIN <= window_width - board_width <= i32::MAX,
        i32::MIN <= window_height - board_height <= i32::MAX,
    ensures
        r.left as int == anchor_left(anchor, window_width - board_width),
        r.top as int == anchor_top(anchor, window_height - board_height),
        r.left + r.right == window_width - board_width,
        r.top + r.bottom == window_height - board_height,
{
    let diffw: i32 = window_width - board_width;
    let diffh: i32 = window_height - board_height;

    let left: i32 = match anchor {
        Anchor::TL | Anchor::CL | Anchor::BL => 0,
        Anchor::TR | Anchor::CR | Anchor::BR => diffw,
        _ => div2_floor(diffw),
    };
    let top: i32 = match anchor {
        Anchor::TL | Anchor::TC | Anchor::TR => 0,
        Anchor::BL | Anchor::BC | Anchor::BR => diffh,
        _ => div2_floor(diffh),
    };

    Padding { top, right: diffw - left, bottom: diffh - top, left }
}

} // verus!
