//! Straight runs of equal stones on a grid, and counting stones.

use vstd::prelude::*;
use crate::grid::{has_shape, with_cell};

verus! {

/// The cell `i` steps away from (`row`, `col`) in direction `dir`: 0 is right, 1 is down,
/// 2 is down-right and 3 is down-left. A negative `i` walks the opposite way.
pub open spec fn along(row: int, col: int, dir: int, i: int) -> (int, int) {
    if dir == 0 {
        (row, col + i)
    } else if dir == 1 {
        (row + i, col)
    } else if dir == 2 {
        (row + i, col + i)
    } else {
        (row + i, col - i)
    }
}

/// The cell `i` steps away from (`row`, `col`) in direction `dir`, or against it.
pub open spec fn beside(row: int, col: int, dir: int, forward: bool, i: int) -> (int, int) {
    along(
        row,
        col,
        dir,
        if forward {
            i
        } else {
            -i
        },
    )
}

/// The cell `p` lies on the `size` by `size` grid and holds `stone`.
pub open spec fn holds(rows: Seq<Seq<u8>>, size: int, stone: u8, p: (int, int)) -> bool {
    &&& 0 <= p.0 < size
    &&& 0 <= p.1 < size
    &&& rows[p.0][p.1] == stone
}

/// The `len` cells that start at (`row`, `col`) and follow direction `dir` all hold `stone`.
pub open spec fn run(
    rows: Seq<Seq<u8>>,
    size: int,
    stone: u8,
    row: int,
    col: int,
    dir: int,
    len: int,
) -> bool {
    forall|i: int| 0 <= i < len ==> holds(rows, size, stone, #[trigger] along(row, col, dir, i))
}

/// A run of `len` stones of the kind `stone` exists somewhere on the grid.
pub open spec fn has_line(rows: Seq<Seq<u8>>, size: int, stone: u8, len: int) -> bool {
    exists|row: int, col: int, dir: int|
        0 <= dir < 4 && #[trigger] run(rows, size, stone, row, col, dir, len)
}

/// A run of `len` stones in direction `dir` has (`row`, `col`) at its offset `back`.
pub open spec fn run_around(
    rows: Seq<Seq<u8>>,
    size: int,
    stone: u8,
    row: int,
    col: int,
    dir: int,
    len: int,
    back: int,
) -> bool {
    let start = along(row, col, dir, -back);
    run(rows, size, stone, start.0, start.1, dir, len)
}

/// A run of `len` stones of the kind `stone` passes through (`row`, `col`).
pub open spec fn line_through(
    rows: Seq<Seq<u8>>,
    size: int,
    stone: u8,
    row: int,
    col: int,
    len: int,
) -> bool {
    exists|dir: int, back: int|
        0 <= dir < 4 && 0 <= back < len && #[trigger] run_around(
            rows,
            size,
            stone,
            row,
            col,
            dir,
            len,
            back,
        )
}

/// A line through a cell is a line on the grid, and the other way round when the grid had
/// no line before `stone` was put on that cell.
pub proof fn lemma_new_line_passes_through(
    rows: Seq<Seq<u8>>,
    size: int,
    stone: u8,
    row: int,
    col: int,
    len: int,
)
    requires
        has_shape(rows, size, size),
        0 <= row < size,
        0 <= col < size,
        len >= 1,
        !has_line(rows, size, stone, len),
    ensures
        has_line(with_cell(rows, row, col, stone), size, stone, len) <==> line_through(
            with_cell(rows, row, col, stone),
            size,
            stone,
            row,
            col,
            len,
        ),
{
    let new = with_cell(rows, row, col, stone);
    if has_line(new, size, stone, len) {
        let (r, c, dir) = choose|r: int, c: int, dir: int|
            0 <= dir < 4 && #[trigger] run(new, size, stone, r, c, dir, len);
        if exists|back: int| 0 <= back < len && #[trigger] along(r, c, dir, back) == (row, col) {
            let back = choose|back: int| 0 <= back < len && #[trigger] along(r, c, dir, back) == (row, col);
            assert(along(row, col, dir, -back) == (r, c));
            assert(run_around(new, size, stone, row, col, dir, len, back));
        } else {
            assert forall|i: int| 0 <= i < len implies holds(
                rows,
                size,
                stone,
                #[trigger] along(r, c, dir, i),
            ) by {
                assert(holds(new, size, stone, along(r, c, dir, i)));
                assert(along(r, c, dir, i) != (row, col));
            }
            assert(run(rows, size, stone, r, c, dir, len));
        }
    }
    if line_through(new, size, stone, row, col, len) {
        let (dir, back) = choose|dir: int, back: int|
            0 <= dir < 4 && 0 <= back < len && #[trigger] run_around(
                new,
                size,
                stone,
                row,
                col,
                dir,
                len,
                back,
            );
        let start = along(row, col, dir, -back);
        assert(run(new, size, stone, start.0, start.1, dir, len));
    }
}

/// Putting `stone` on an empty cell creates no line of another kind of stone.
pub proof fn lemma_other_lines_unchanged(
    rows: Seq<Seq<u8>>,
    size: int,
    stone: u8,
    other: u8,
    row: int,
    col: int,
    len: int,
)
    requires
        has_shape(rows, size, size),
        0 <= row < size,
        0 <= col < size,
        len >= 1,
        rows[row][col] != other,
        stone != other,
    ensures
        has_line(with_cell(rows, row, col, stone), size, other, len) <==> has_line(rows, size, other, len),
{
    let new = with_cell(rows, row, col, stone);
    assert forall|p: (int, int)| holds(new, size, other, p) == #[trigger] holds(rows, size, other, p) by {}
    if has_line(new, size, other, len) {
        let (r, c, dir) = choose|r: int, c: int, dir: int|
            0 <= dir < 4 && #[trigger] run(new, size, other, r, c, dir, len);
        assert(run(rows, size, other, r, c, dir, len));
    }
    if has_line(rows, size, other, len) {
        let (r, c, dir) = choose|r: int, c: int, dir: int|
            0 <= dir < 4 && #[trigger] run(rows, size, other, r, c, dir, len);
        assert(run(new, size, other, r, c, dir, len));
    }
}

/// A walk away from (`row`, `col`) that reaches `ahead` stones one way and `behind` stones
/// the other way, each count stopped at `len - 1`, tells whether a run of `len` stones
/// passes through (`row`, `col`) in that direction.
pub proof fn lemma_walk_decides(
    rows: Seq<Seq<u8>>,
    size: int,
    stone: u8,
    row: int,
    col: int,
    dir: int,
    len: int,
    ahead: int,
    behind: int,
)
    requires
        0 <= dir < 4,
        len >= 1,
        holds(rows, size, stone, (row, col)),
        0 <= ahead < len,
        0 <= behind < len,
        forall|i: int| 1 <= i <= ahead ==> holds(rows, size, stone, #[trigger] beside(row, col, dir, true, i)),
        forall|i: int| 1 <= i <= behind ==> holds(rows, size, stone, #[trigger] beside(row, col, dir, false, i)),
        ahead == len - 1 || !holds(rows, size, stone, beside(row, col, dir, true, ahead + 1)),
        behind == len - 1 || !holds(rows, size, stone, beside(row, col, dir, false, behind + 1)),
    ensures
        1 + ahead + behind >= len <==> exists|back: int|
            0 <= back < len && #[trigger] run_around(rows, size, stone, row, col, dir, len, back),
{
    if 1 + ahead + behind >= len {
        let back = behind;
        let start = along(row, col, dir, -back);
        assert forall|i: int| 0 <= i < len implies holds(
            rows,
            size,
            stone,
            #[trigger] along(start.0, start.1, dir, i),
        ) by {
            assert(along(start.0, start.1, dir, i) == along(row, col, dir, i - back));
            if i < back {
                assert(along(row, col, dir, i - back) == beside(row, col, dir, false, back - i));
            } else if i > back {
                assert(along(row, col, dir, i - back) == beside(row, col, dir, true, i - back));
            }
        }
        assert(run_around(rows, size, stone, row, col, dir, len, back));
    }
    if exists|back: int| 0 <= back < len && #[trigger] run_around(
        rows,
        size,
        stone,
        row,
        col,
        dir,
        len,
        back,
    ) {
        let back = choose|back: int|
            0 <= back < len && #[trigger] run_around(rows, size, stone, row, col, dir, len, back);
        let start = along(row, col, dir, -back);
        if behind < back {
            let i = back - (behind + 1);
            assert(holds(rows, size, stone, along(start.0, start.1, dir, i)));
            assert(along(start.0, start.1, dir, i) == beside(row, col, dir, false, behind + 1));
        }
        if ahead < len - 1 - back {
            let i = back + ahead + 1;
            assert(holds(rows, size, stone, along(start.0, start.1, dir, i)));
            assert(along(start.0, start.1, dir, i) == beside(row, col, dir, true, ahead + 1));
        }
    }
}

/// How many entries of `row` equal `stone`.
pub open spec fn count_in_row(row: Seq<u8>, stone: u8) -> int
    decreases row.len(),
{
    if row.len() == 0 {
        0
    } else {
        count_in_row(row.drop_last(), stone) + if row.last() == stone {
            1int
        } else {
            0int
        }
    }
}

/// How many entries of `rows` equal `stone`.
pub open spec fn count(rows: Seq<Seq<u8>>, stone: u8) -> int
    decreases rows.len(),
{
    if rows.len() == 0 {
        0
    } else {
        count(rows.drop_last(), stone) + count_in_row(rows.last(), stone)
    }
}

proof fn lemma_count_in_row_update(row: Seq<u8>, i: int, value: u8, stone: u8)
    requires
        0 <= i < row.len(),
    ensures
        count_in_row(row.update(i, value), stone) == count_in_row(row, stone) - (if row[i] == stone {
            1int
        } else {
            0int
        }) + (if value == stone {
            1int
        } else {
            0int
        }),
    decreases row.len(),
{
    let new = row.update(i, value);
    if i == row.len() - 1 {
        assert(new.drop_last() =~= row.drop_last());
    } else {
        lemma_count_in_row_update(row.drop_last(), i, value, stone);
        assert(new.drop_last() =~= row.drop_last().update(i, value));
    }
}

/// Replacing one cell changes the count of a stone by that cell alone.
pub proof fn lemma_count_with_cell(rows: Seq<Seq<u8>>, row: int, col: int, value: u8, stone: u8)
    requires
        0 <= row < rows.len(),
        0 <= col < rows[row].len(),
    ensures
        count(with_cell(rows, row, col, value), stone) == count(rows, stone) - (if rows[row][col]
            == stone {
            1int
        } else {
            0int
        }) + (if value == stone {
            1int
        } else {
            0int
        }),
    decreases rows.len(),
{
    let new = with_cell(rows, row, col, value);
    if row == rows.len() - 1 {
        assert(new.drop_last() =~= rows.drop_last());
        lemma_count_in_row_update(rows[row], col, value, stone);
    } else {
        lemma_count_with_cell(rows.drop_last(), row, col, value, stone);
        assert(new.drop_last() =~= with_cell(rows.drop_last(), row, col, value));
    }
}

proof fn lemma_count_in_row_total(row: Seq<u8>)
    requires
        forall|c: int| 0 <= c < row.len() ==> row[c] <= 2,
    ensures
        count_in_row(row, 0) + count_in_row(row, 1) + count_in_row(row, 2) == row.len(),
        0 <= count_in_row(row, 0),
        0 <= count_in_row(row, 1),
        0 <= count_in_row(row, 2),
        count_in_row(row, 0) > 0 <==> row.contains(0),
    decreases row.len(),
{
    if row.len() > 0 {
        let rest = row.drop_last();
        assert forall|c: int| 0 <= c < rest.len() implies rest[c] <= 2 by {
            assert(rest[c] == row[c]);
        }
        lemma_count_in_row_total(rest);
        assert(row == rest.push(row.last()));
        if row.contains(0) {
            let c = choose|c: int| 0 <= c < row.len() && row[c] == 0;
            if c < rest.len() {
                assert(rest[c] == 0);
            }
        }
        if rest.contains(0) {
            let c = choose|c: int| 0 <= c < rest.len() && rest[c] == 0;
            assert(row[c] == 0);
        }
        if row.last() == 0 {
            assert(row[row.len() - 1] == 0);
        }
    }
}

proof fn lemma_count_in_row_absent(row: Seq<u8>, stone: u8)
    requires
        forall|c: int| 0 <= c < row.len() ==> row[c] != stone,
    ensures
        count_in_row(row, stone) == 0,
    decreases row.len(),
{
    if row.len() > 0 {
        let rest = row.drop_last();
        assert forall|c: int| 0 <= c < rest.len() implies rest[c] != stone by {
            assert(rest[c] == row[c]);
        }
        lemma_count_in_row_absent(rest, stone);
    }
}

/// A stone that lies on no cell is counted zero times.
pub proof fn lemma_count_absent(rows: Seq<Seq<u8>>, stone: u8)
    requires
        forall|r: int, c: int|
            0 <= r < rows.len() && 0 <= c < rows[r].len() ==> #[trigger] rows[r][c] != stone,
    ensures
        count(rows, stone) == 0,
    decreases rows.len(),
{
    if rows.len() > 0 {
        let rest = rows.drop_last();
        assert forall|r: int, c: int| 0 <= r < rest.len() && 0 <= c < rest[r].len() implies
            #[trigger] rest[r][c] != stone by {
            assert(rest[r][c] == rows[r][c]);
        }
        lemma_count_absent(rest, stone);
        let last = rows.last();
        assert forall|c: int| 0 <= c < last.len() implies last[c] != stone by {
            assert(last[c] == rows[rows.len() - 1][c]);
        }
        lemma_count_in_row_absent(last, stone);
    }
}

/// Some cell of `rows` is empty.
pub open spec fn has_empty(rows: Seq<Seq<u8>>) -> bool {
    exists|r: int, c: int| 0 <= r < rows.len() && 0 <= c < rows[r].len() && #[trigger] rows[r][c] == 0
}

/// On a grid whose cells are empty or one of the two stones, the three counts add up to
/// the number of cells, and an empty cell exists exactly when the count of empty cells is
/// positive.
pub proof fn lemma_count_total(rows: Seq<Seq<u8>>, height: int, width: int)
    requires
        has_shape(rows, height, width),
        height >= 0,
        width >= 0,
        forall|r: int, c: int| 0 <= r < height && 0 <= c < width ==> #[trigger] rows[r][c] <= 2,
    ensures
        count(rows, 0) + count(rows, 1) + count(rows, 2) == height * width,
        0 <= count(rows, 0),
        0 <= count(rows, 1),
        0 <= count(rows, 2),
        count(rows, 0) > 0 <==> has_empty(rows),
    decreases height,
{
    if height > 0 {
        let rest = rows.drop_last();
        let last = rows.last();
        assert forall|r: int| 0 <= r < height - 1 implies (#[trigger] rest[r]).len() == width by {
            assert(rest[r] == rows[r]);
        }
        assert forall|r: int, c: int| 0 <= r < height - 1 && 0 <= c < width implies #[trigger] rest[r][c]
            <= 2 by {
            assert(rest[r][c] == rows[r][c]);
        }
        lemma_count_total(rest, height - 1, width);
        assert(last == rows[height - 1]);
        assert forall|c: int| 0 <= c < last.len() implies last[c] <= 2 by {
            assert(last[c] == rows[height - 1][c]);
        }
        lemma_count_in_row_total(last);
        assert(height * width == (height - 1) * width + width) by (nonlinear_arith);
        if has_empty(rows) {
            let (r, c) = choose|r: int, c: int|
                0 <= r < rows.len() && 0 <= c < rows[r].len() && #[trigger] rows[r][c] == 0;
            if r < height - 1 {
                assert(rest[r][c] == 0);
            } else {
                assert(last[c] == 0);
            }
        }
        if has_empty(rest) {
            let (r, c) = choose|r: int, c: int|
                0 <= r < rest.len() && 0 <= c < rest[r].len() && #[trigger] rest[r][c] == 0;
            assert(rows[r][c] == 0);
        }
        if last.contains(0) {
            let c = choose|c: int| 0 <= c < last.len() && last[c] == 0;
            assert(rows[height - 1][c] == 0);
        }
    } else {
        assert(height * width == 0) by (nonlinear_arith)
            requires
                height == 0,
        ;
    }
}

} // verus!
