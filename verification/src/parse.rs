//! Board parser: turns a textual board description into a grid of cells.
//!
//! The text is trimmed of surrounding whitespace, split into lines, and each
//! line is trimmed independently; an `'o'` marks a live cell and every other
//! character a dead one. Rows shorter than the longest row are padded with
//! dead cells so the parsed board is always rectangular.

use vstd::prelude::*;
use vstd::string::StrSliceExecFns;
use crate::board::{board_height, board_width, is_board, Board};

verus! {

/// Whitespace, by the Unicode `White_Space` property (the set `str::trim`
/// and `char::is_whitespace` use).
pub open spec fn is_space(c: char) -> bool {
    let u = c as u32;
    (0x09 <= u && u <= 0x0d) || u == 0x20 || u == 0x85 || u == 0xa0 || u == 0x1680 || (0x2000 <= u
        && u <= 0x200a) || u == 0x2028 || u == 0x2029 || u == 0x202f || u == 0x205f || u == 0x3000
}

fn is_space_char(c: char) -> (r: bool)
    ensures
        r == is_space(c),
{
    let u = c as u32;
    (0x09 <= u && u <= 0x0d) || u == 0x20 || u == 0x85 || u == 0xa0 || u == 0x1680 || (0x2000 <= u
        && u <= 0x200a) || u == 0x2028 || u == 0x2029 || u == 0x202f || u == 0x205f || u == 0x3000
}

/// `s` with its leading whitespace removed.
pub open spec fn trim_front(s: Seq<char>) -> Seq<char>
    decreases s.len(),
{
    if s.len() == 0 {
        s
    } else if is_space(s[0]) {
        trim_front(s.drop_first())
    } else {
        s
    }
}

/// `s` with its trailing whitespace removed.
pub open spec fn trim_back(s: Seq<char>) -> Seq<char>
    decreases s.len(),
{
    if s.len() == 0 {
        s
    } else if is_space(s.last()) {
        trim_back(s.drop_last())
    } else {
        s
    }
}

/// `s` with both leading and trailing whitespace removed.
pub open spec fn trim(s: Seq<char>) -> Seq<char> {
    trim_back(trim_front(s))
}

proof fn lemma_trim_front_skip(s: Seq<char>, k: int)
    requires
        0 <= k <= s.len(),
        forall|i: int| 0 <= i < k ==> is_space(s[i]),
        k == s.len() || !is_space(s[k]),
    ensures
        trim_front(s) == s.skip(k),
    decreases k,
{
    if k == 0 {
        assert(s.skip(0) =~= s);
    } else {
        let t = s.drop_first();
        assert(t =~= s.skip(1));
        lemma_trim_front_skip(t, k - 1);
        assert(t.skip(k - 1) =~= s.skip(k));
    }
}

proof fn lemma_trim_back_take(s: Seq<char>, m: int)
    requires
        0 <= m <= s.len(),
        forall|i: int| m <= i < s.len() ==> is_space(s[i]),
        m == 0 || !is_space(s[m - 1]),
    ensures
        trim_back(s) == s.take(m),
    decreases s.len(),
{
    if m == s.len() {
        assert(s.take(m) =~= s);
    } else {
        let t = s.drop_last();
        assert(t =~= s.take(s.len() - 1));
        lemma_trim_back_take(t, m);
        assert(t.take(m) =~= s.take(m));
    }
}

/// The characters of `s`, in order, as a vector.
fn str_to_chars(s: &str) -> (v: Vec<char>)
    ensures
        v@ == s@,
{
    let n = s.unicode_len();
    let mut v: Vec<char> = Vec::new();
    for i in 0..n
        invariant
            n == s@.len(),
            v@.len() == i,
            forall|k: int| 0 <= k < i ==> v@[k] == s@[k],
    {
        v.push(s.get_char(i));
    }
    assert(v@ =~= s@);
    v
}

/// `v` with surrounding whitespace removed.
fn trim_chars(v: &Vec<char>) -> (r: Vec<char>)
    ensures
        r@ == trim(v@),
{
    let n = v.len();
    let mut lo: usize = 0;
    while lo < n && is_space_char(v[lo])
        invariant
            n == v@.len(),
            lo <= n,
            forall|i: int| 0 <= i < lo ==> is_space(v@[i]),
        decreases n - lo,
    {
        lo = lo + 1;
    }
    proof {
        lemma_trim_front_skip(v@, lo as int);
    }
    if lo == n {
        let r: Vec<char> = Vec::new();
        proof {
            assert(trim_front(v@) =~= Seq::<char>::empty());
            assert(trim(v@) =~= Seq::<char>::empty());
            assert(r@ =~= trim(v@));
        }
        return r;
    }
    let mut hi: usize = n;
    while hi > lo + 1 && is_space_char(v[hi - 1])
        invariant
            n == v@.len(),
            lo < hi <= n,
            !is_space(v@[lo as int]),
            forall|i: int| hi <= i < n ==> is_space(v@[i]),
        decreases hi,
    {
        hi = hi - 1;
    }
    proof {
        let f = v@.skip(lo as int);
        assert(forall|i: int| hi - lo <= i < f.len() ==> is_space(#[trigger] f[i]));
        assert(f[hi - lo - 1] == v@[hi - 1]);
        assert(!is_space(f[hi - lo - 1]));
        lemma_trim_back_take(f, hi - lo);
    }
    let mut r: Vec<char> = Vec::new();
    let mut i: usize = lo;
    while i < hi
        invariant
            n == v@.len(),
            lo <= i <= hi <= n,
            r@.len() == i - lo,
            forall|k: int| 0 <= k < i - lo ==> r@[k] == v@[lo + k],
        decreases hi - i,
    {
        r.push(v[i]);
        i = i + 1;
    }
    proof {
        assert(r@ =~= v@.skip(lo as int).take(hi - lo));
    }
    r
}

proof fn lemma_trim_back_last(s: Seq<char>)
    ensures
        trim_back(s).len() > 0 ==> !is_space(trim_back(s).last()),
    decreases s.len(),
{
    if s.len() > 0 && is_space(s.last()) {
        lemma_trim_back_last(s.drop_last());
    }
}

/// Index of the first newline in `s`, or `s.len()` if there is none.
pub open spec fn line_end(s: Seq<char>) -> nat
    decreases s.len(),
{
    if s.len() == 0 {
        0
    } else if s[0] == '\n' {
        0
    } else {
        (1 + line_end(s.drop_first())) as nat
    }
}

/// `s` split at newline characters; the empty text has no lines.
pub open spec fn split_lines(s: Seq<char>) -> Seq<Seq<char>>
    decreases s.len(),
{
    if s.len() == 0 {
        Seq::empty()
    } else {
        let e = line_end(s) as int;
        if e < s.len() {
            seq![s.take(e)] + split_lines(s.skip(e + 1))
        } else {
            seq![s]
        }
    }
}

proof fn lemma_line_end(s: Seq<char>, k: int)
    requires
        0 <= k <= s.len(),
        forall|i: int| 0 <= i < k ==> s[i] != '\n',
        k == s.len() || s[k] == '\n',
    ensures
        line_end(s) == k,
    decreases k,
{
    if k > 0 {
        let t = s.drop_first();
        assert(t =~= s.skip(1));
        lemma_line_end(t, k - 1);
    }
}

/// The row one line parses to: the line is trimmed and each character mapped
/// to whether it is the live marker `'o'`.
pub open spec fn row_of_line(line: Seq<char>) -> Seq<bool> {
    trim(line).map_values(|c: char| c == 'o')
}

/// One parsed row per line of `s`.
pub open spec fn rows_of(s: Seq<char>) -> Seq<Seq<bool>> {
    split_lines(s).map_values(|line: Seq<char>| row_of_line(line))
}

/// The raw (un-padded) rows of a board text: the whole text trimmed, split
/// into lines, each line parsed.
pub open spec fn raw_rows(s: Seq<char>) -> Seq<Seq<bool>> {
    rows_of(trim(s))
}

/// The length of the longest row (0 for no rows).
pub open spec fn max_width(rows: Seq<Seq<bool>>) -> int
    decreases rows.len(),
{
    if rows.len() == 0 {
        0
    } else {
        let rest = max_width(rows.drop_last());
        if rows.last().len() > rest {
            rows.last().len() as int
        } else {
            rest
        }
    }
}

/// `row` padded with dead cells up to width `w`; a row already `w` wide or
/// wider is unchanged.
pub open spec fn pad_row(row: Seq<bool>, w: int) -> Seq<bool> {
    if row.len() >= w {
        row
    } else {
        row + Seq::new((w - row.len()) as nat, |i: int| false)
    }
}

/// The board a text parses to: its raw rows, each padded with dead cells to
/// the width of the longest row, so the result is rectangular.
pub open spec fn parsed_board(s: Seq<char>) -> Seq<Seq<bool>> {
    raw_rows(s).map_values(|row: Seq<bool>| pad_row(row, max_width(raw_rows(s))))
}

proof fn lemma_max_width_bound(rows: Seq<Seq<bool>>, i: int)
    requires
        0 <= i < rows.len(),
    ensures
        rows[i].len() <= max_width(rows),
        max_width(rows) >= 0,
    decreases rows.len(),
{
    if i == rows.len() - 1 {
        if rows.len() > 1 {
            lemma_max_width_bound(rows.drop_last(), 0);
        }
    } else {
        lemma_max_width_bound(rows.drop_last(), i);
        assert(rows.drop_last()[i] == rows[i]);
    }
}

proof fn lemma_trim_front_first(s: Seq<char>)
    ensures
        trim_front(s).len() > 0 ==> !is_space(trim_front(s)[0]),
    decreases s.len(),
{
    if s.len() > 0 && is_space(s[0]) {
        lemma_trim_front_first(s.drop_first());
    }
}

proof fn lemma_trim_back_keeps_first(s: Seq<char>)
    requires
        s.len() > 0,
        !is_space(s[0]),
    ensures
        trim_back(s).len() > 0,
        trim_back(s)[0] == s[0],
    decreases s.len(),
{
    if is_space(s.last()) {
        lemma_trim_back_keeps_first(s.drop_last());
    }
}

/// A text whose trimmed form is nonempty parses to a well-formed board: at
/// least one row, at least one column, and every row of the same length.
pub proof fn lemma_parsed_board_well_formed(s: Seq<char>)
    requires
        trim(s).len() > 0,
    ensures
        is_board(parsed_board(s)),
        board_height(parsed_board(s)) == raw_rows(s).len(),
        board_width(parsed_board(s)) == max_width(raw_rows(s)),
{
    let ts = trim(s);
    let rr = raw_rows(s);
    let mw = max_width(rr);
    let board = parsed_board(s);

    // The first character of the trimmed text is not whitespace.
    lemma_trim_front_first(s);
    let tf = trim_front(s);
    assert(tf.len() > 0);
    lemma_trim_back_keeps_first(tf);
    assert(!is_space(ts[0]));

    // The first line starts with that character, so its trimmed form is
    // nonempty and the first raw row has at least one cell.
    let e = line_end(ts) as int;
    assert(ts[0] != '\n');
    assert(e != 0) by {
        if ts.len() > 0 && ts[0] != '\n' {
            assert(line_end(ts) == (1 + line_end(ts.drop_first())) as nat);
        }
    }
    let first_line: Seq<char> = if e < ts.len() {
        ts.take(e)
    } else {
        ts
    };
    assert(split_lines(ts)[0] == first_line);
    assert(first_line.len() > 0 && first_line[0] == ts[0]);
    assert(trim_front(first_line) == first_line);
    lemma_trim_back_keeps_first(first_line);
    assert(trim(first_line).len() > 0);
    assert(rr[0] == row_of_line(first_line));
    assert(rr[0].len() > 0);

    // Every padded row is exactly as long as the longest raw row.
    assert(rr.len() > 0);
    lemma_max_width_bound(rr, 0);
    assert(mw > 0);
    assert(board.len() == rr.len());
    assert(forall|y: int| 0 <= y < rr.len() ==> (#[trigger] rr[y]).len() <= mw) by {
        assert forall|y: int| 0 <= y < rr.len() implies (#[trigger] rr[y]).len() <= mw by {
            lemma_max_width_bound(rr, y);
        }
    }
    assert(forall|y: int| 0 <= y < board.len() ==> (#[trigger] board[y]).len() == mw) by {
        assert forall|y: int| 0 <= y < board.len() implies (#[trigger] board[y]).len() == mw by {
            assert(board[y] == pad_row(rr[y], mw));
            assert(rr[y].len() <= mw);
        }
    }
    assert(board[0].len() == mw);
}

proof fn lemma_rows_of_unfold(s: Seq<char>)
    requires
        s.len() > 0,
    ensures
        line_end(s) < s.len() ==> rows_of(s) == seq![row_of_line(s.take(line_end(s) as int))]
            + rows_of(s.skip(line_end(s) as int + 1)),
        line_end(s) >= s.len() ==> rows_of(s) == seq![row_of_line(s)],
{
    let e = line_end(s) as int;
    if e < s.len() {
        let head = seq![s.take(e)];
        let tail = split_lines(s.skip(e + 1));
        assert(split_lines(s) == head + tail);
        assert((head + tail).map_values(|line: Seq<char>| row_of_line(line)) =~= head.map_values(
            |line: Seq<char>| row_of_line(line),
        ) + tail.map_values(|line: Seq<char>| row_of_line(line)));
        assert(head.map_values(|line: Seq<char>| row_of_line(line)) =~= seq![
            row_of_line(s.take(e)),
        ]);
    } else {
        assert(split_lines(s) == seq![s]);
        assert(seq![s].map_values(|line: Seq<char>| row_of_line(line)) =~= seq![row_of_line(s)]);
    }
}

/// Builds one row from one line of the text.
fn row_from_line(line: &Vec<char>) -> (r: Vec<bool>)
    ensures
        r@ == row_of_line(line@),
{
    let t = trim_chars(line);
    let n = t.len();
    let mut r: Vec<bool> = Vec::new();
    for k in 0..n
        invariant
            t@ == trim(line@),
            n == t@.len(),
            r@.len() == k,
            forall|m: int| 0 <= m < k ==> r@[m] == (t@[m] == 'o'),
    {
        r.push(t[k] == 'o');
    }
    assert(r@ =~= row_of_line(line@));
    r
}

/// Parses a textual board: the text is trimmed of surrounding whitespace and
/// split into lines; each line is trimmed independently and every `'o'`
/// becomes a live cell, every other character a dead cell. Rows shorter than
/// the longest row are padded with dead cells, so the result is rectangular;
/// whitespace-only text yields a board with no rows.
pub fn mkboard(b: &str) -> (r: Board)
    ensures
        r.deep_view() == parsed_board(b@),
        r@.len() == raw_rows(b@).len(),
        forall|i: int|
            0 <= i < r@.len() ==> (#[trigger] r.deep_view()[i]).len() == max_width(raw_rows(b@)),
{
    let chars = str_to_chars(b);
    let t = trim_chars(&chars);
    let ghost ts = t@;
    let mut rows: Vec<Vec<bool>> = Vec::new();

    proof {
        lemma_trim_back_last(trim_front(b@));
    }

    if t.len() > 0 {
        let n = t.len();
        let mut i: usize = 0;
        assert(ts.skip(0) =~= ts);
        loop
            invariant_except_break
                t@ == ts,
                ts == trim(b@),
                n == t@.len(),
                0 < n,
                i < n,
                !is_space(ts.last()),
                rows.deep_view() + rows_of(ts.skip(i as int)) =~= rows_of(ts),
            ensures
                rows.deep_view() =~= rows_of(ts),
            decreases n - i,
        {
            let ghost prev = rows.deep_view();
            let ghost rem = ts.skip(i as int);

            let mut j: usize = i;
            while j < n && t[j] != '\n'
                invariant
                    t@ == ts,
                    n == t@.len(),
                    i <= j <= n,
                    forall|m: int| i <= m < j ==> t@[m] != '\n',
                decreases n - j,
            {
                j = j + 1;
            }
            proof {
                assert(forall|m: int| 0 <= m < j - i ==> rem[m] != '\n');
                lemma_line_end(rem, j - i);
                lemma_rows_of_unfold(rem);
            }

            let mut line: Vec<char> = Vec::new();
            let mut m: usize = i;
            while m < j
                invariant
                    t@ == ts,
                    n == t@.len(),
                    i <= m <= j <= n,
                    line@.len() == m - i,
                    forall|q: int| 0 <= q < m - i ==> line@[q] == t@[i + q],
                decreases j - m,
            {
                line.push(t[m]);
                m = m + 1;
            }
            assert(line@ =~= rem.take(j - i));

            let row = row_from_line(&line);
            rows.push(row);
            proof {
                assert(row.deep_view() =~= row@);
                assert(rows.deep_view() =~= prev + seq![row@]) by {
                    assert(forall|q: int|
                        0 <= q < prev.len() ==> rows.deep_view()[q] == prev[q]);
                    assert(rows.deep_view()[prev.len() as int] == row@);
                }
            }

            if j == n {
                proof {
                    assert(rem.take(j - i) =~= rem);
                    assert(rows_of(rem) == seq![row_of_line(rem)]);
                    assert(rows.deep_view() =~= rows_of(ts));
                }
                break ;
            }
            proof {
                assert(ts[j as int] == '\n');
                assert(!is_space(ts.last()));
                assert(is_space('\n'));
                assert(j < n - 1);
                assert(rem.skip(j - i + 1) =~= ts.skip(j + 1));
                assert(rows.deep_view() + rows_of(ts.skip(j + 1)) =~= rows_of(ts)) by {
                    assert(rows_of(rem) == seq![row_of_line(rem.take(j - i))] + rows_of(
                        rem.skip(j - i + 1),
                    ));
                }
            }
            i = j + 1;
        }
    } else {
        assert(rows.deep_view() =~= rows_of(ts));
    }
    assert(rows.deep_view() == raw_rows(b@));

    let nr = rows.len();
    let mut maxw: usize = 0;
    for k in 0..nr
        invariant
            nr == rows@.len(),
            rows.deep_view() == raw_rows(b@),
            maxw as int == max_width(rows.deep_view().take(k as int)),
    {
        proof {
            assert(rows.deep_view().take(k + 1).drop_last() =~= rows.deep_view().take(k as int));
            assert(rows.deep_view().take(k + 1).last() == rows.deep_view()[k as int]);
            assert(rows@[k as int].deep_view() =~= rows@[k as int]@);
        }
        if rows[k].len() > maxw {
            maxw = rows[k].len();
        }
    }
    assert(rows.deep_view().take(nr as int) =~= rows.deep_view());
    let ghost mw = max_width(raw_rows(b@));
    assert(maxw as int == mw);

    let mut padded: Vec<Vec<bool>> = Vec::new();
    for k in 0..nr
        invariant
            nr == rows@.len(),
            rows.deep_view() == raw_rows(b@),
            maxw as int == mw,
            mw == max_width(raw_rows(b@)),
            padded@.len() == k,
            forall|q: int|
                0 <= q < k ==> #[trigger] padded.deep_view()[q] == pad_row(
                    rows.deep_view()[q],
                    mw,
                ),
            forall|q: int| 0 <= q < k ==> (#[trigger] padded.deep_view()[q]).len() == mw,
    {
        proof {
            lemma_max_width_bound(rows.deep_view(), k as int);
            assert(rows@[k as int].deep_view() =~= rows@[k as int]@);
        }
        let ghost prevp = padded.deep_view();
        let ln = rows[k].len();
        let mut nrow: Vec<bool> = Vec::new();
        let mut q: usize = 0;
        while q < ln
            invariant
                nr == rows@.len(),
                k < nr,
                ln == rows@[k as int]@.len(),
                q <= ln,
                nrow@.len() == q,
                forall|m: int| 0 <= m < q ==> nrow@[m] == rows@[k as int]@[m],
            decreases ln - q,
        {
            nrow.push(rows[k][q]);
            q = q + 1;
        }
        while nrow.len() < maxw
            invariant
                nr == rows@.len(),
                k < nr,
                ln == rows@[k as int]@.len(),
                ln <= nrow@.len(),
                nrow@.len() <= maxw || nrow@.len() == ln,
                forall|m: int| 0 <= m < ln ==> nrow@[m] == rows@[k as int]@[m],
                forall|m: int| ln <= m < nrow@.len() ==> nrow@[m] == false,
            decreases maxw - nrow@.len(),
        {
            nrow.push(false);
        }
        assert(nrow@ =~= pad_row(rows.deep_view()[k as int], mw));
        padded.push(nrow);
        proof {
            assert(nrow.deep_view() =~= nrow@);
            assert(forall|q2: int|
                0 <= q2 < prevp.len() ==> #[trigger] padded.deep_view()[q2] == prevp[q2]);
            assert(padded.deep_view()[prevp.len() as int] == nrow@);
        }
    }

    assert(padded.deep_view() =~~= parsed_board(b@)) by {
        assert(forall|q: int|
            0 <= q < raw_rows(b@).len() ==> #[trigger] parsed_board(b@)[q] == pad_row(
                raw_rows(b@)[q],
                mw,
            ));
    }
    padded
}

} // verus!
