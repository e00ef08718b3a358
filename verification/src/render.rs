//! Frame renderer: flattens a padded board into a single row-major character
//! buffer, one glyph per viewport position and no row separators.

use vstd::prelude::*;
use vstd::string::StringExecFns;
use crate::board::{Board, board_height, board_width, is_board};
use crate::layout::Padding;

verus! {

/// The glyph at viewport position (`row`, `col`), in board coordinates: `'0'`
/// for a live cell, `' '` for a dead cell or any position outside the board.
pub open spec fn render_char(b: Seq<Seq<bool>>, row: int, col: int) -> char {
    if 0 <= row < b.len() && 0 <= col < b[0].len() {
        if b[row][col] {
            '0'
        } else {
            ' '
        }
    } else {
        ' '
    }
}

/// Number of columns in the padded viewport: the board width plus both
/// horizontal paddings, or 0 when negative padding crops everything away.
pub open spec fn frame_cols(b: Seq<Seq<bool>>, p: Padding) -> int {
    if board_width(b) + p.left + p.right >= 0 {
        board_width(b) + p.left + p.right
    } else {
        0
    }
}

/// Number of rows in the padded viewport: the board height plus both vertical
/// paddings, or 0 when negative padding crops everything away.
pub open spec fn frame_rows(b: Seq<Seq<bool>>, p: Padding) -> int {
    if board_height(b) + p.top + p.bottom >= 0 {
        board_height(b) + p.top + p.bottom
    } else {
        0
    }
}

/// One rendered viewport row: `frame_cols` glyphs, for board columns starting
/// at `-p.left`.
pub open spec fn frame_row(b: Seq<Seq<bool>>, p: Padding, row: int) -> Seq<char> {
    Seq::new(frame_cols(b, p) as nat, |j: int| render_char(b, row, j - p.left))
}

/// The first `n` rendered viewport rows, concatenated; viewport rows start at
/// board row `-p.top`.
pub open spec fn frame_prefix(b: Seq<Seq<bool>>, p: Padding, n: int) -> Seq<char>
    decreases n,
{
    if n <= 0 {
        Seq::empty()
    } else {
        frame_prefix(b, p, n - 1) + frame_row(b, p, -p.top + (n - 1))
    }
}

/// The whole rendered frame: every viewport row from `-p.top` to
/// `board_height + p.bottom` (exclusive), each from column `-p.left` to
/// `board_width + p.right` (exclusive), flattened in row-major order.
pub open spec fn frame(b: Seq<Seq<bool>>, p: Padding) -> Seq<char> {
    frame_prefix(b, p, frame_rows(b, p))
}

proof fn lemma_frame_prefix_len(b: Seq<Seq<bool>>, p: Padding, n: int)
    requires
        n >= 0,
    ensures
        frame_prefix(b, p, n).len() == n * frame_cols(b, p),
    decreases n,
{
    let fc = frame_cols(b, p);
    if n == 0 {
        assert(0 * fc == 0) by (nonlinear_arith);
    } else {
        lemma_frame_prefix_len(b, p, n - 1);
        assert(frame_prefix(b, p, n).len() == frame_prefix(b, p, n - 1).len() + fc);
        assert((n - 1) * fc + fc == n * fc) by (nonlinear_arith);
    }
}

proof fn lemma_frame_prefix_index(b: Seq<Seq<bool>>, p: Padding, n: int, i: int, j: int)
    requires
        0 <= i < n,
        0 <= j < frame_cols(b, p),
    ensures
        frame_prefix(b, p, n).len() == n * frame_cols(b, p),
        frame_prefix(b, p, n)[i * frame_cols(b, p) + j] == render_char(b, -p.top + i, j - p.left),
    decreases n,
{
    let fc = frame_cols(b, p);
    lemma_frame_prefix_len(b, p, n);
    lemma_frame_prefix_len(b, p, n - 1);
    if i == n - 1 {
        assert(i * fc + j - (n - 1) * fc == j) by (nonlinear_arith)
            requires
                i == n - 1,
        ;
        assert(frame_prefix(b, p, n)[i * fc + j] == frame_row(b, p, -p.top + (n - 1))[j]);
    } else {
        lemma_frame_prefix_index(b, p, n - 1, i, j);
        assert(i * fc + j < (n - 1) * fc) by (nonlinear_arith)
            requires
                0 <= i < n - 1,
                0 <= j < fc,
        ;
    }
}

/// Round trip: rendering a well-formed board with zero padding on all sides
/// reproduces exactly `width * height` glyphs, in row-major order, with the
/// cell at (`x`, `y`) mapped to `'0'` when alive and `' '` when dead.
pub proof fn lemma_render_round_trip(b: Seq<Seq<bool>>)
    requires
        is_board(b),
    ensures
        frame(b, Padding { top: 0, right: 0, bottom: 0, left: 0 }).len() == board_height(b)
            * board_width(b),
        forall|y: int, x: int|
            0 <= y < board_height(b) && 0 <= x < board_width(b) ==> frame(
                b,
                Padding { top: 0, right: 0, bottom: 0, left: 0 },
            )[y * board_width(b) + x] == (if b[y][x] {
                '0'
            } else {
                ' '
            }),
{
    let p = Padding { top: 0, right: 0, bottom: 0, left: 0 };
    lemma_frame_prefix_len(b, p, frame_rows(b, p));
    assert forall|y: int, x: int|
        0 <= y < board_height(b) && 0 <= x < board_width(b) implies frame(b, p)[y * board_width(b)
        + x] == (if b[y][x] {
        '0'
    } else {
        ' '
    }) by {
        lemma_frame_prefix_index(b, p, frame_rows(b, p), y, x);
    }
}

/// Renders the board into one flat string: row-major over the padded
/// viewport, `'0'` for a live cell and `' '` everywhere else. The caller
/// reshapes the flat buffer using the effective row width
/// (`board_width + p.left + p.right`).
pub fn board_as_str(board: &Board, padding: &Padding) -> (s: String)
    requires
        is_board(board.deep_view()),
        board.deep_view().len() <= i32::MAX,
        board.deep_view()[0].len() <= i32::MAX,
        board.deep_view().len() + padding.bottom <= i32::MAX,
        board.deep_view()[0].len() + padding.right <= i32::MAX,
        padding.top > i32::MIN,
        padding.left > i32::MIN,
    ensures
        s@ == frame(board.deep_view(), *padding),
{
    let ghost bdv = board.deep_view();
    let ghost p = *padding;
    let mut s = String::new();

    let lines: i32 = board.len() as i32;
    let cols: i32 = board[0].len() as i32;
    assert(lines == board_height(bdv) && cols == board_width(bdv));

    proof {
        reveal_strlit("0");
        reveal_strlit(" ");
    }

    let mut line: i32 = 0 - padding.top;
    while line < lines + padding.bottom
        invariant
            is_board(bdv),
            bdv == board.deep_view(),
            p == *padding,
            lines == board_height(bdv),
            cols == board_width(bdv),
            lines + p.bottom <= i32::MAX,
            cols + p.right <= i32::MAX,
            p.left > i32::MIN,
            line >= -p.top,
            line <= lines + p.bottom || line == -p.top,
            s@ == frame_prefix(bdv, p, line + p.top),
            "0"@ =~= seq!['0'],
            " "@ =~= seq![' '],
        decreases lines + p.bottom - line,
    {
        let ghost rows_done = line + p.top;
        let ghost row_spec = frame_row(bdv, p, line as int);
        let mut col: i32 = 0 - padding.left;
        while col < cols + padding.right
            invariant
                is_board(bdv),
                bdv == board.deep_view(),
                p == *padding,
                lines == board_height(bdv),
                cols == board_width(bdv),
                cols + p.right <= i32::MAX,
                rows_done == line + p.top,
                row_spec == frame_row(bdv, p, line as int),
                col >= -p.left,
                col <= cols + p.right || col == -p.left,
                col + p.left <= frame_cols(bdv, p),
                s@ == frame_prefix(bdv, p, rows_done) + row_spec.take(col + p.left),
                "0"@ =~= seq!['0'],
                " "@ =~= seq![' '],
            decreases cols + p.right - col,
        {
            let ghost cols_done = col + p.left;
            assert(cols_done < frame_cols(bdv, p));
            assert(row_spec[cols_done] == render_char(bdv, line as int, col as int));
            if line < 0 || line >= lines || col < 0 || col >= cols {
                s.append(" ");
            } else {
                proof {
                    assert(board@[line as int].deep_view() == bdv[line as int]);
                    assert(board@[line as int]@.len() == bdv[line as int].len());
                    assert(board@[line as int]@[col as int] == bdv[line as int][col as int]);
                }
                if board[line as usize][col as usize] {
                    s.append("0");
                } else {
                    s.append(" ");
                }
            }
            assert(row_spec.take(cols_done + 1) =~= row_spec.take(cols_done).push(
                row_spec[cols_done],
            ));
            col = col + 1;
        }
        assert(row_spec.take(col + p.left) =~= row_spec);
        assert(s@ == frame_prefix(bdv, p, rows_done + 1));
        line = line + 1;
    }
    assert(line + p.top == frame_rows(bdv, p));
    s
}

} // verus!
