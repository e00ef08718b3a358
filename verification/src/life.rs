//! The stepper: computes the next generation of a board with toroidal
//! (wrap-around) neighbor counting and the standard Conway rules (B3/S23).

use vstd::prelude::*;
use crate::board::{Board, board_height, board_width, is_board};

verus! {

/// The index just before `i` on a torus of size `n`.
pub open spec fn wrap_prev(i: int, n: int) -> int {
    if i == 0 {
        n - 1
    } else {
        i - 1
    }
}

/// The index just after `i` on a torus of size `n`.
pub open spec fn wrap_next(i: int, n: int) -> int {
    if i == n - 1 {
        0
    } else {
        i + 1
    }
}

/// The eight toroidal neighbors of `(x, y)` on a `w x h` board, in the fixed
/// order: the row above, the two sides, the row below.
pub open spec fn neighbor_coords(x: int, y: int, w: int, h: int) -> Seq<(int, int)> {
    let l = wrap_prev(x, w);
    let r = wrap_next(x, w);
    let u = wrap_prev(y, h);
    let d = wrap_next(y, h);
    seq![(l, u), (x, u), (r, u), (l, y), (r, y), (l, d), (x, d), (r, d)]
}

/// 1 for a live cell, 0 for a dead one.
pub open spec fn count(alive: bool) -> int {
    if alive {
        1
    } else {
        0
    }
}

/// How many of the eight toroidal neighbors of `(x, y)` are alive (0 to 8).
pub open spec fn live_neighbors(b: Seq<Seq<bool>>, x: int, y: int) -> int {
    let w = board_width(b);
    let h = board_height(b);
    let l = wrap_prev(x, w);
    let r = wrap_next(x, w);
    let u = wrap_prev(y, h);
    let d = wrap_next(y, h);
    count(b[u][l]) + count(b[u][x]) + count(b[u][r]) + count(b[y][l]) + count(b[y][r]) + count(
        b[d][l],
    ) + count(b[d][x]) + count(b[d][r])
}

/// The Conway rule for one cell: a live cell survives with 2 or 3 live
/// neighbors, a dead cell is born with exactly 3.
pub open spec fn next_cell(alive: bool, n: int) -> bool {
    if alive {
        2 <= n && n <= 3
    } else {
        n == 3
    }
}

/// The next generation: every cell of the result is the Conway rule applied
/// to the corresponding cell of `b`, with neighbor counts taken entirely from
/// `b` (the previous generation).
pub open spec fn step(b: Seq<Seq<bool>>) -> Seq<Seq<bool>> {
    Seq::new(
        b.len(),
        |y: int| Seq::new(b[0].len() as nat, |x: int| next_cell(b[y][x], live_neighbors(b, x, y))),
    )
}

/// `step` preserves the dimensions of any well-formed board, so the result is
/// again a well-formed board of the same width and height.
pub proof fn lemma_step_preserves_dimensions(b: Seq<Seq<bool>>)
    requires
        is_board(b),
    ensures
        is_board(step(b)),
        board_width(step(b)) == board_width(b),
        board_height(step(b)) == board_height(b),
{
}

/// Isolation rule: a live cell with no live neighbors is dead in the next
/// generation.
pub proof fn lemma_isolation(b: Seq<Seq<bool>>, x: int, y: int)
    requires
        is_board(b),
        0 <= x < board_width(b),
        0 <= y < board_height(b),
        b[y][x],
        live_neighbors(b, x, y) == 0,
    ensures
        !step(b)[y][x],
{
}

/// Toroidal wraparound: a cell in the first column has the cell in the last
/// column of the same row among its neighbors, and vice versa; likewise for
/// the first and last rows. Each such live cell contributes to the other's
/// neighbor count.
pub proof fn lemma_toroidal_wraparound(b: Seq<Seq<bool>>, x: int, y: int)
    requires
        is_board(b),
        0 <= x < board_width(b),
        0 <= y < board_height(b),
    ensures
        neighbor_coords(0, y, board_width(b), board_height(b)).contains(
            (board_width(b) - 1, y),
        ),
        neighbor_coords(board_width(b) - 1, y, board_width(b), board_height(b)).contains((0, y)),
        neighbor_coords(x, 0, board_width(b), board_height(b)).contains(
            (x, board_height(b) - 1),
        ),
        neighbor_coords(x, board_height(b) - 1, board_width(b), board_height(b)).contains((x, 0)),
        b[y][board_width(b) - 1] ==> live_neighbors(b, 0, y) >= 1,
        b[y][0] ==> live_neighbors(b, board_width(b) - 1, y) >= 1,
        b[board_height(b) - 1][x] ==> live_neighbors(b, x, 0) >= 1,
        b[0][x] ==> live_neighbors(b, x, board_height(b) - 1) >= 1,
{
    let w = board_width(b);
    let h = board_height(b);
    assert(neighbor_coords(0, y, w, h)[3] == (w - 1, y));
    if w == 1 {
        assert(neighbor_coords(w - 1, y, w, h)[3] == (0int, y));
    } else {
        assert(neighbor_coords(w - 1, y, w, h)[4] == (0int, y));
    }
    assert(neighbor_coords(x, 0, w, h)[1] == (x, h - 1));
    if h == 1 {
        assert(neighbor_coords(x, h - 1, w, h)[1] == (x, 0int));
    } else {
        assert(neighbor_coords(x, h - 1, w, h)[6] == (x, 0int));
    }
}

/// The eight toroidal neighbor coordinates of `(x, y)` on a `w x h` board, in
/// the order given by `neighbor_coords`: the row above (left, center, right),
/// the two sides, then the row below.
pub fn neighbors(x: usize, y: usize, w: usize, h: usize) -> (r: Vec<(usize, usize)>)
    requires
        x < w,
        y < h,
    ensures
        r@.len() == 8,
        forall|k: int|
            0 <= k < 8 ==> (#[trigger] r@[k]).0 == neighbor_coords(
                x as int,
                y as int,
                w as int,
                h as int,
            )[k].0 && r@[k].1 == neighbor_coords(x as int, y as int, w as int, h as int)[k].1,
        forall|k: int| 0 <= k < 8 ==> (#[trigger] r@[k]).0 < w && r@[k].1 < h,
{
    let left: usize = if x == 0 {
        w - 1
    } else {
        x - 1
    };
    let right: usize = if x == w - 1 {
        0
    } else {
        x + 1
    };
    let top: usize = if y == 0 {
        h - 1
    } else {
        y - 1
    };
    let bottom: usize = if y == h - 1 {
        0
    } else {
        y + 1
    };

    vec![
        (left, top),
        (x, top),
        (right, top),
        (left, y),
        (right, y),
        (left, bottom),
        (x, bottom),
        (right, bottom),
    ]
}

/// Computes the next generation of a well-formed board: a freshly allocated
/// board of the same dimensions whose every cell follows the Conway rule,
/// with all neighbor counts taken from `b`.
pub fn tick(b: &Board) -> (r: Board)
    requires
        is_board(b.deep_view()),
    ensures
        r.deep_view() == step(b.deep_view()),
        is_board(r.deep_view()),
        r@.len() == b@.len(),
{
    let ghost bdv = b.deep_view();
    let bh = b.len();
    let bw = b[0].len();
    let mut rows: Vec<Vec<bool>> = Vec::new();

    assert(forall|y: int| 0 <= y < bh ==> bdv[y].len() == bw && (#[trigger] b@[y])@ == bdv[y]);

    for y in 0..bh
        invariant
            bh == bdv.len(),
            bw == board_width(bdv),
            is_board(bdv),
            bdv == b.deep_view(),
            rows@.len() == y,
            forall|i: int| 0 <= i < y ==> (#[trigger] rows@[i])@ == step(bdv)[i],
    {
        let mut columns: Vec<bool> = Vec::new();

        for x in 0..bw
            invariant
                bh == bdv.len(),
                bw == board_width(bdv),
                is_board(bdv),
                bdv == b.deep_view(),
                y < bh,
                columns@.len() == x,
                forall|j: int|
                    0 <= j < x ==> columns@[j] == next_cell(
                        bdv[y as int][j],
                        live_neighbors(bdv, j, y as int),
                    ),
        {
            let nb = neighbors(x, y, bw, bh);
            let mut num_living_neighbors: u8 = 0;
            let mut k: usize = 0;
            while k < 8
                invariant
                    bh == bdv.len(),
                    bw == board_width(bdv),
                    is_board(bdv),
                    bdv == b.deep_view(),
                    x < bw,
                    y < bh,
                    k <= 8,
                    num_living_neighbors <= k,
                    nb@.len() == 8,
                    forall|m: int|
                        0 <= m < 8 ==> (#[trigger] nb@[m]).0 == neighbor_coords(
                            x as int,
                            y as int,
                            bw as int,
                            bh as int,
                        )[m].0 && nb@[m].1 == neighbor_coords(
                            x as int,
                            y as int,
                            bw as int,
                            bh as int,
                        )[m].1,
                    forall|m: int| 0 <= m < 8 ==> (#[trigger] nb@[m]).0 < bw && nb@[m].1 < bh,
                    num_living_neighbors as int == partial_neighbor_count(
                        bdv,
                        x as int,
                        y as int,
                        k as int,
                    ),
                decreases 8 - k,
            {
                let (nx, ny) = nb[k];
                proof {
                    assert(b@.len() == bdv.len());
                    assert(b@[ny as int].deep_view() == bdv[ny as int]);
                    assert(b@[ny as int]@.len() == bdv[ny as int].len());
                    assert(b@[ny as int]@[nx as int] == bdv[ny as int][nx as int]);
                }
                if b[ny][nx] {
                    num_living_neighbors = num_living_neighbors + 1;
                }
                k = k + 1;
            }
            assert(num_living_neighbors as int == live_neighbors(bdv, x as int, y as int)) by {
                reveal_with_fuel(partial_neighbor_count, 9);
            }

            proof {
                assert(b@[y as int].deep_view() == bdv[y as int]);
                assert(b@[y as int]@.len() == bdv[y as int].len());
                assert(b@[y as int]@[x as int] == bdv[y as int][x as int]);
            }
            let living = b[y][x];
            if living {
                if num_living_neighbors < 2 {
                    columns.push(false);
                } else if num_living_neighbors < 4 {
                    columns.push(true);
                } else {
                    columns.push(false);
                }
            } else {
                if num_living_neighbors == 3 {
                    columns.push(true);
                } else {
                    columns.push(false);
                }
            }
        }
        assert(columns@ =~= step(bdv)[y as int]);
        rows.push(columns);
    }

    assert(rows.deep_view() =~= step(bdv)) by {
        assert(forall|i: int| 0 <= i < bdv.len() ==> rows.deep_view()[i] == (#[trigger] rows@[i])@);
    }
    rows
}

/// The sum of `count` over the first `k` of the eight neighbor coordinates of
/// `(x, y)`; at `k == 8` this is exactly `live_neighbors`.
spec fn partial_neighbor_count(b: Seq<Seq<bool>>, x: int, y: int, k: int) -> int
    decreases k,
{
    if k <= 0 {
        0
    } else {
        let c = neighbor_coords(x, y, board_width(b), board_height(b))[k - 1];
        partial_neighbor_count(b, x, y, k - 1) + count(b[c.1][c.0])
    }
}

} // verus!
