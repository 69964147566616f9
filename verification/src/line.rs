//! Discrete straight lines between grid cells.

use vstd::prelude::*;
use crate::planner::{board_of, cell_index, sides_fit};
use crate::search::Board;
use crate::search::{abs_diff, as_cell};

verus! {

/// The coordinate `x` steps from `a` in the direction of `b`.
pub open spec fn towards(a: int, b: int, x: int) -> int {
    if a < b {
        a + x
    } else {
        a - x
    }
}

/// The cell that `x` rows and `y` columns towards `b` lead to from `a`.
pub open spec fn along(a: (int, int), b: (int, int), x: int, y: int) -> (int, int) {
    (towards(a.0, b.0, x), towards(a.1, b.1, y))
}

/// How far, in units of rows times columns, a line that crosses `di` rows and `dj`
/// columns has strayed once `x` rows and `y` columns are behind it.
#[verifier::opaque]
pub open spec fn drift(di: int, dj: int, x: int, y: int) -> int {
    (y + 1) * di - (x + 1) * dj
}

/// The next row comes before the line has strayed half a column.
pub open spec fn row_next(di: int, dj: int, x: int, y: int) -> bool {
    2 * drift(di, dj, x, y) > -dj
}

/// The next column comes before the line has strayed half a row.
pub open spec fn col_next(di: int, dj: int, x: int, y: int) -> bool {
    2 * drift(di, dj, x, y) < di
}

proof fn lemma_drift(di: int, dj: int, x: int, y: int)
    ensures
        drift(di, dj, 0, 0) == di - dj,
        drift(di, dj, x + 1, y) == drift(di, dj, x, y) - dj,
        drift(di, dj, x, y + 1) == drift(di, dj, x, y) + di,
        drift(di, dj, x + 1, y + 1) == drift(di, dj, x, y) - dj + di,
{
    reveal(drift);
    assert((x + 2) * dj == (x + 1) * dj + dj) by (nonlinear_arith);
    assert((y + 2) * di == (y + 1) * di + di) by (nonlinear_arith);
}

/// The cells of the line from `a` to `b` after the first `x` rows and `y` columns.
pub open spec fn line_from(a: (int, int), b: (int, int), x: int, y: int) -> Seq<(int, int)>
    decreases abs_diff(a.0, b.0) - x + abs_diff(a.1, b.1) - y,
{
    let di = abs_diff(a.0, b.0);
    let dj = abs_diff(a.1, b.1);
    if !(0 <= x <= di && 0 <= y <= dj) || (x == di && y == dj) {
        seq![along(a, b, x, y)]
    } else {
        proof {
            lemma_line_step(di, dj, x, y);
        }
        seq![along(a, b, x, y)] + line_from(
            a,
            b,
            if row_next(di, dj, x, y) {
                x + 1
            } else {
                x
            },
            if col_next(di, dj, x, y) {
                y + 1
            } else {
                y
            },
        )
    }
}

/// The cells of the straight line from `a` to `b`, both ends with it.
pub open spec fn line(a: (int, int), b: (int, int)) -> Seq<(int, int)> {
    line_from(a, b, 0, 0)
}

/// All cells are free, and where two in a row touch only at a corner, so are the
/// two cells beside that corner.
#[verifier::opaque]
pub open spec fn all_clear(board: Board, cells: Seq<(int, int)>) -> bool {
    &&& forall|n: int| 0 <= n < cells.len() ==> board.is_free(#[trigger] cells[n])
    &&& forall|n: int|
        0 < n < cells.len() && (#[trigger] cells[n]).0 != cells[n - 1].0 && cells[n].1 != cells[n
            - 1].1 ==> board.is_free((cells[n - 1].0, cells[n].1)) && board.is_free(
            (cells[n].0, cells[n - 1].1),
        )
}

/// The robot can go straight from `a` to `b`.
pub open spec fn clear_line(board: Board, a: (int, int), b: (int, int)) -> bool {
    all_clear(board, line(a, b))
}

/// A line that has not arrived moves on, and never past its end.
pub proof fn lemma_line_step(di: int, dj: int, x: int, y: int)
    requires
        0 <= x <= di,
        0 <= y <= dj,
        x < di || y < dj,
    ensures
        row_next(di, dj, x, y) || col_next(di, dj, x, y),
        row_next(di, dj, x, y) ==> x < di,
        col_next(di, dj, x, y) ==> y < dj,
{
    reveal(drift);
    if x == di {
        assert(2 * ((y + 1) * di - (di + 1) * dj) <= -2 * dj) by (nonlinear_arith)
            requires
                y + 1 <= dj,
                0 <= di,
        ;
    }
    if y == dj {
        assert(2 * ((dj + 1) * di - (x + 1) * dj) >= 2 * di) by (nonlinear_arith)
            requires
                x + 1 <= di,
                0 <= dj,
        ;
    }
}

/// A line starts at its first end, stays between its ends, moves one cell at a
/// time and stops at its second end.
pub proof fn lemma_line(a: (int, int), b: (int, int), x: int, y: int)
    requires
        0 <= x <= abs_diff(a.0, b.0),
        0 <= y <= abs_diff(a.1, b.1),
    ensures
        line_from(a, b, x, y).len() > 0,
        line_from(a, b, x, y)[0] == along(a, b, x, y),
        line_from(a, b, x, y).last() == b,
        forall|n: int|
            #![trigger line_from(a, b, x, y)[n]]
            0 <= n < line_from(a, b, x, y).len() ==> {
                let c = line_from(a, b, x, y)[n];
                (a.0 <= c.0 <= b.0 || b.0 <= c.0 <= a.0) && (a.1 <= c.1 <= b.1 || b.1 <= c.1
                    <= a.1)
            },
        forall|n: int|
            #![trigger line_from(a, b, x, y)[n]]
            0 < n < line_from(a, b, x, y).len() ==> {
                let c = line_from(a, b, x, y)[n - 1];
                let d = line_from(a, b, x, y)[n];
                c != d && -1 <= d.0 - c.0 <= 1 && -1 <= d.1 - c.1 <= 1
            },
    decreases abs_diff(a.0, b.0) - x + abs_diff(a.1, b.1) - y,
{
    let di = abs_diff(a.0, b.0);
    let dj = abs_diff(a.1, b.1);
    if x < di || y < dj {
        lemma_line_step(di, dj, x, y);
        let nx = if row_next(di, dj, x, y) {
            x + 1
        } else {
            x
        };
        let ny = if col_next(di, dj, x, y) {
            y + 1
        } else {
            y
        };
        lemma_line(a, b, nx, ny);
        let rest = line_from(a, b, nx, ny);
        let whole = line_from(a, b, x, y);
        assert(whole =~= seq![along(a, b, x, y)] + rest);
        assert(whole.last() == rest.last());
        assert forall|n: int| #![trigger whole[n]] 0 <= n < whole.len() implies {
            let c = whole[n];
            (a.0 <= c.0 <= b.0 || b.0 <= c.0 <= a.0) && (a.1 <= c.1 <= b.1 || b.1 <= c.1 <= a.1)
        } by {
            if n > 0 {
                assert(whole[n] == rest[n - 1]);
            }
        }
        assert forall|n: int| #![trigger whole[n]] 0 < n < whole.len() implies {
            let c = whole[n - 1];
            let d = whole[n];
            c != d && -1 <= d.0 - c.0 <= 1 && -1 <= d.1 - c.1 <= 1
        } by {
            assert(whole[n] == rest[n - 1]);
            if n > 1 {
                assert(whole[n - 1] == rest[n - 2]);
            }
        }
    }
}

// A cell in front of a clear line leaves it clear when the cell is free and the
// step from it does not cut a corner.
proof fn lemma_clear_prefix(board: Board, first: (int, int), rest: Seq<(int, int)>)
    requires
        rest.len() > 0,
    ensures
        all_clear(board, seq![first] + rest) <==> {
            &&& board.is_free(first)
            &&& first.0 != rest[0].0 && first.1 != rest[0].1 ==> board.is_free(
                (first.0, rest[0].1),
            ) && board.is_free((rest[0].0, first.1))
            &&& all_clear(board, rest)
        },
{
    reveal(all_clear);
    let whole = seq![first] + rest;
    assert(forall|n: int| 0 < n < whole.len() ==> whole[n] == rest[n - 1]);
    assert(whole[0] == first);
    if all_clear(board, whole) {
        assert(whole[1] == rest[0]);
        assert forall|n: int| 0 <= n < rest.len() implies board.is_free(#[trigger] rest[n]) by {
            assert(board.is_free(whole[n + 1]));
        }
        assert forall|n: int|
            0 < n < rest.len() && (#[trigger] rest[n]).0 != rest[n - 1].0 && rest[n].1 != rest[n
                - 1].1 implies board.is_free((rest[n - 1].0, rest[n].1)) && board.is_free(
            (rest[n].0, rest[n - 1].1),
        ) by {
            assert(whole[n + 1] == rest[n]);
            assert(whole[n] == rest[n - 1]);
        }
    }
    if board.is_free(first) && (first.0 != rest[0].0 && first.1 != rest[0].1 ==> board.is_free(
        (first.0, rest[0].1),
    ) && board.is_free((rest[0].0, first.1))) && all_clear(board, rest) {
        assert forall|n: int| 0 <= n < whole.len() implies board.is_free(#[trigger] whole[n]) by {
            if n > 0 {
                assert(board.is_free(rest[n - 1]));
            }
        }
        assert forall|n: int|
            0 < n < whole.len() && (#[trigger] whole[n]).0 != whole[n - 1].0 && whole[n].1
                != whole[n - 1].1 implies board.is_free((whole[n - 1].0, whole[n].1))
            && board.is_free((whole[n].0, whole[n - 1].1)) by {
            assert(whole[n] == rest[n - 1]);
            if n > 1 {
                assert(whole[n - 1] == rest[n - 2]);
                assert(rest[n - 1].0 != rest[n - 2].0);
            }
        }
    }
}

// What is clear from here on, in terms of the next cell.
proof fn lemma_clear_step(board: Board, a: (int, int), b: (int, int), x: int, y: int)
    requires
        0 <= x <= abs_diff(a.0, b.0),
        0 <= y <= abs_diff(a.1, b.1),
        x < abs_diff(a.0, b.0) || y < abs_diff(a.1, b.1),
    ensures
        ({
            let di = abs_diff(a.0, b.0);
            let dj = abs_diff(a.1, b.1);
            let nx = if row_next(di, dj, x, y) {
                x + 1
            } else {
                x
            };
            let ny = if col_next(di, dj, x, y) {
                y + 1
            } else {
                y
            };
            let here = along(a, b, x, y);
            let next = along(a, b, nx, ny);
            all_clear(board, line_from(a, b, x, y)) <==> {
                &&& board.is_free(here)
                &&& nx > x && ny > y ==> board.is_free((here.0, next.1)) && board.is_free(
                    (next.0, here.1),
                )
                &&& all_clear(board, line_from(a, b, nx, ny))
            }
        }),
{
    let di = abs_diff(a.0, b.0);
    let dj = abs_diff(a.1, b.1);
    lemma_line_step(di, dj, x, y);
    let nx = if row_next(di, dj, x, y) {
        x + 1
    } else {
        x
    };
    let ny = if col_next(di, dj, x, y) {
        y + 1
    } else {
        y
    };
    lemma_line(a, b, nx, ny);
    lemma_clear_prefix(board, along(a, b, x, y), line_from(a, b, nx, ny));
}

// A clear line starts in a free cell between its ends.
proof fn lemma_clear_here(board: Board, a: (int, int), b: (int, int), x: int, y: int)
    requires
        board.contains(a),
        board.contains(b),
        0 <= x <= abs_diff(a.0, b.0),
        0 <= y <= abs_diff(a.1, b.1),
    ensures
        board.contains(along(a, b, x, y)),
        all_clear(board, line_from(a, b, x, y)) ==> board.is_free(along(a, b, x, y)),
        along(a, b, x, y) == b ==> x == abs_diff(a.0, b.0) && y == abs_diff(a.1, b.1),
        along(a, b, x, y) == b && board.is_free(b) ==> all_clear(board, line_from(a, b, x, y)),
{
    reveal(all_clear);
    lemma_line(a, b, x, y);
    assert(line_from(a, b, x, y)[0] == along(a, b, x, y));
}

/// A clear line can be walked cell by cell with allowed moves.
pub proof fn law_clear_line_is_allowed_steps(board: Board, a: (int, int), b: (int, int), n: int)
    requires
        clear_line(board, a, b),
        0 < n < line(a, b).len(),
    ensures
        board.step_allowed(line(a, b)[n - 1], line(a, b)[n]),
{
    reveal(all_clear);
    lemma_line(a, b, 0, 0);
    let c = line(a, b)[n - 1];
    let d = line(a, b)[n];
    assert(board.is_free(c));
    assert(board.is_free(d));
}

/// An allowed move out of a free cell is a clear line.
pub proof fn law_allowed_step_is_clear(board: Board, a: (int, int), b: (int, int))
    requires
        board.is_free(a),
        board.step_allowed(a, b),
    ensures
        clear_line(board, a, b),
{
    let di = abs_diff(a.0, b.0);
    let dj = abs_diff(a.1, b.1);
    lemma_clear_step(board, a, b, 0, 0);
    lemma_line_step(di, dj, 0, 0);
    reveal(all_clear);
    lemma_drift(di, dj, 0, 0);
    assert(row_next(di, dj, 0, 0) <==> di == 1);
    assert(col_next(di, dj, 0, 0) <==> dj == 1);
    assert(line_from(a, b, di, dj) =~= seq![b]);
    assert(all_clear(board, seq![b]));
}

/// Supercover line of sight: a straight line in which a diagonal step also
/// needs both cells beside it to be free, so that it never squeezes through the
/// shared corner of two blocked cells.
pub fn line_of_sight(
    blocked: &[bool],
    w: usize,
    h: usize,
    a: (usize, usize),
    b: (usize, usize),
) -> (clear: bool)
    requires
        sides_fit(w as int, h as int),
        blocked.len() == w * h,
        a.0 < h,
        a.1 < w,
        b.0 < h,
        b.1 < w,
    ensures
        clear == clear_line(board_of(blocked@, w, h), as_cell(a), as_cell(b)),
{
    let ghost board = board_of(blocked@, w, h);
    let ghost ca = as_cell(a);
    let ghost cb = as_cell(b);
    let mut ai: i32 = a.0 as i32;
    let mut aj: i32 = a.1 as i32;
    let bi: i32 = b.0 as i32;
    let bj: i32 = b.1 as i32;
    let di: i32 = if ai < bi {
        bi - ai
    } else {
        ai - bi
    };
    let dj: i32 = if aj < bj {
        bj - aj
    } else {
        aj - bj
    };
    let si: i32 = if ai < bi {
        1
    } else {
        -1
    };
    let sj: i32 = if aj < bj {
        1
    } else {
        -1
    };
    let mut err: i64 = di as i64 - dj as i64;
    proof {
        lemma_drift(di as int, dj as int, 0, 0);
    }
    let ghost mut x: int = 0;
    let ghost mut y: int = 0;
    loop
        invariant
            sides_fit(w as int, h as int),
            blocked.len() == w * h,
            board == board_of(blocked@, w, h),
            ca == as_cell(a),
            cb == as_cell(b),
            a.0 < h,
            a.1 < w,
            b.0 < h,
            b.1 < w,
            bi == b.0,
            bj == b.1,
            di == abs_diff(ca.0, cb.0),
            dj == abs_diff(ca.1, cb.1),
            si == if ca.0 < cb.0 { 1int } else { -1int },
            sj == if ca.1 < cb.1 { 1int } else { -1int },
            0 <= x <= di,
            0 <= y <= dj,
            (ai as int, aj as int) == along(ca, cb, x, y),
            err == drift(di as int, dj as int, x, y),
            -2 * dj <= err <= 2 * di,
            clear_line(board, ca, cb) == all_clear(board, line_from(ca, cb, x, y)),
        decreases di - x + dj - y,
    {
        proof {
            lemma_clear_here(board, ca, cb, x, y);
        }
        let here: usize = cell_index(w, h, ai as usize, aj as usize);
        if blocked[here] {
            return false;
        }
        if ai == bi && aj == bj {
            return true;
        }
        let e2: i64 = 2 * err;
        let step_i = e2 > -(dj as i64);
        let step_j = e2 < di as i64;
        proof {
            lemma_drift(di as int, dj as int, x, y);
            lemma_line_step(di as int, dj as int, x, y);
            lemma_clear_step(board, ca, cb, x, y);
        }
        if step_i && step_j {
            let side: usize = cell_index(w, h, ai as usize, (aj + sj) as usize);
            let other: usize = cell_index(w, h, (ai + si) as usize, aj as usize);
            if blocked[side] || blocked[other] {
                return false;
            }
        }
        if step_i {
            err = err - dj as i64;
            ai = ai + si;
            proof {
                x = x + 1;
            }
        }
        if step_j {
            err = err + di as i64;
            aj = aj + sj;
            proof {
                y = y + 1;
            }
        }
    }
}

/// The cells of a clear line lie in the grid and are free; so are both cells beside a
/// corner that the line passes.
pub proof fn law_clear_line_is_free(board: Board, a: (int, int), b: (int, int), n: int)
    requires
        clear_line(board, a, b),
        0 <= n < line(a, b).len(),
    ensures
        ({
            let c = line(a, b)[n];
            &&& 0 <= c.0 < board.h
            &&& 0 <= c.1 < board.w
            &&& !board.blocked[c.0 * board.w + c.1]
            &&& n > 0 && line(a, b)[n - 1].0 != c.0 && line(a, b)[n - 1].1 != c.1 ==> {
                &&& !board.blocked[line(a, b)[n - 1].0 * board.w + c.1]
                &&& !board.blocked[c.0 * board.w + line(a, b)[n - 1].1]
            }
        }),
{
    reveal(all_clear);
    assert(board.is_free(line(a, b)[n]));
    if n > 0 && line(a, b)[n - 1].0 != line(a, b)[n].0 && line(a, b)[n - 1].1 != line(a, b)[n].1 {
        assert(board.is_free((line(a, b)[n - 1].0, line(a, b)[n].1)));
    }
}

/// Where nothing is blocked in the rectangle that two cells of the grid span, the line
/// between them is clear.
pub proof fn law_line_through_open_space_is_clear(board: Board, a: (int, int), b: (int, int))
    requires
        0 <= a.0 < board.h && 0 <= a.1 < board.w,
        0 <= b.0 < board.h && 0 <= b.1 < board.w,
        forall|i: int, j: int|
            (a.0 <= i <= b.0 || b.0 <= i <= a.0) && (a.1 <= j <= b.1 || b.1 <= j <= a.1)
                ==> !#[trigger] board.blocked[i * board.w + j],
    ensures
        clear_line(board, a, b),
{
    reveal(all_clear);
    lemma_line(a, b, 0, 0);
    let cells = line(a, b);
    assert forall|n: int| 0 <= n < cells.len() implies board.is_free(#[trigger] cells[n]) by {
        let c = cells[n];
        assert(!board.blocked[c.0 * board.w + c.1]);
    }
    assert forall|n: int|
        0 < n < cells.len() && (#[trigger] cells[n]).0 != cells[n - 1].0 && cells[n].1 != cells[n
            - 1].1 implies board.is_free((cells[n - 1].0, cells[n].1)) && board.is_free(
        (cells[n].0, cells[n - 1].1),
    ) by {
        let c = cells[n - 1];
        let d = cells[n];
        assert(!board.blocked[c.0 * board.w + d.1]);
        assert(!board.blocked[d.0 * board.w + c.1]);
    }
}

/// A line starts at its first cell, ends at its second, and moves on by one cell, side
/// by side or corner to corner, each time.
pub proof fn law_line_connects_its_ends(a: (int, int), b: (int, int), n: int)
    ensures
        line(a, b).len() > 0,
        line(a, b)[0] == a,
        line(a, b).last() == b,
        0 < n < line(a, b).len() ==> {
            let c = line(a, b)[n - 1];
            let d = line(a, b)[n];
            c != d && -1 <= d.0 - c.0 <= 1 && -1 <= d.1 - c.1 <= 1
        },
{
    lemma_line(a, b, 0, 0);
}

// Where the line is after `x` rows and `y` columns, its distance from the ideal line,
// times the longer side, is at most half of that side.
proof fn lemma_line_keeps_straight(a: (int, int), b: (int, int), x: int, y: int, n: int)
    requires
        0 <= x <= abs_diff(a.0, b.0),
        0 <= y <= abs_diff(a.1, b.1),
        0 <= n < line_from(a, b, x, y).len(),
        ({
            let di = abs_diff(a.0, b.0);
            let dj = abs_diff(a.1, b.1);
            let u = y * di - x * dj;
            let long = if di < dj { dj } else { di };
            -long <= 2 * u <= long
        }),
    ensures
        exists|p: int, q: int|
            #![trigger along(a, b, p, q)]
            {
                let di = abs_diff(a.0, b.0);
                let dj = abs_diff(a.1, b.1);
                let long = if di < dj { dj } else { di };
                line_from(a, b, x, y)[n] == along(a, b, p, q) && -long <= 2 * (q * di - p * dj)
                    <= long
            },
    decreases abs_diff(a.0, b.0) - x + abs_diff(a.1, b.1) - y,
{
    let di = abs_diff(a.0, b.0);
    let dj = abs_diff(a.1, b.1);
    if n == 0 || (x == di && y == dj) {
        assert(line_from(a, b, x, y)[n] == along(a, b, x, y));
    } else {
        lemma_line_step(di, dj, x, y);
        reveal(drift);
        let nx = if row_next(di, dj, x, y) { x + 1 } else { x };
        let ny = if col_next(di, dj, x, y) { y + 1 } else { y };
        assert((y + 1) * di == y * di + di) by (nonlinear_arith);
        assert((x + 1) * dj == x * dj + dj) by (nonlinear_arith);
        lemma_line_keeps_straight(a, b, nx, ny, n - 1);
        assert(line_from(a, b, x, y)[n] == line_from(a, b, nx, ny)[n - 1]);
    }
}

/// A line is straight: no cell of it is more than half a cell off the segment between
/// the centres of its ends, counted along the shorter side.
pub proof fn law_line_is_straight(a: (int, int), b: (int, int), n: int)
    requires
        0 <= n < line(a, b).len(),
    ensures
        ({
            let c = line(a, b)[n];
            let off = 2 * ((c.1 - a.1) * (b.0 - a.0) - (c.0 - a.0) * (b.1 - a.1));
            ||| -(b.0 - a.0) <= off <= b.0 - a.0
            ||| b.0 - a.0 <= off <= -(b.0 - a.0)
            ||| -(b.1 - a.1) <= off <= b.1 - a.1
            ||| b.1 - a.1 <= off <= -(b.1 - a.1)
        }),
{
    let di = abs_diff(a.0, b.0);
    let dj = abs_diff(a.1, b.1);
    assert(0 * di == 0 && 0 * dj == 0) by (nonlinear_arith);
    lemma_line_keeps_straight(a, b, 0, 0, n);
    let c = line(a, b)[n];
    let (p, q) = choose|p: int, q: int|
        #![trigger along(a, b, p, q)]
        {
            let long = if di < dj { dj } else { di };
            c == along(a, b, p, q) && -long <= 2 * (q * di - p * dj) <= long
        };
    let t = q * di - p * dj;
    let off = (c.1 - a.1) * (b.0 - a.0) - (c.0 - a.0) * (b.1 - a.1);
    let di2 = b.0 - a.0;
    let dj2 = b.1 - a.1;
    let ci = c.0 - a.0;
    let cj = c.1 - a.1;
    assert(off == t || off == -t) by (nonlinear_arith)
        requires
            off == cj * di2 - ci * dj2,
            t == q * di - p * dj,
            (di2 == di && ci == p) || (di2 == -di && ci == -p),
            (dj2 == dj && cj == q) || (dj2 == -dj && cj == -q),
    ;
}

} // verus!
