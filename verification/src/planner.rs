//! A* path planning on an occupancy grid.
//!
//! Eight-connected neighbours, octile heuristic. Obstacles are inflated by a
//! number of cells so that the path keeps the robot's body clear of walls: the
//! search plans for a point, but the robot is about ten centimetres wide.
//!
//! The path found is thinned by a greedy line-of-sight reduction, so that it
//! does not zig-zag along the grid's eight directions.

use vstd::prelude::*;
use crate::grid::OccupancyGrid;
use crate::heap::MinHeap;
use crate::heap::lemma_lowest_is_unique;
use crate::line::line_of_sight;
use crate::line::{clear_line, law_allowed_step_is_clear, law_clear_line_is_free, line};
use crate::search::{Board, Search, COST_DIAGONAL, COST_STRAIGHT};
use crate::search::{
    abs_diff, affordable, as_cell, capped_sum, closing, first_state, halted, halts_after, index_of,
    is_answer, is_cheapest, is_trace, is_walk, law_search_answers_with_a_cheapest_walk,
    lemma_closing_is_sound, lemma_expansions_bounded, lemma_first_is_sound, lemma_index,
    lemma_neighbour, lemma_next_is_sound, lemma_relaxed_is_sound, lemma_row_col, move_cost,
    next_state, octile_spec, offset, popped, reachable, reached_by, relax, relaxed, sound,
    state_after,
};

verus! {

/// The grid's rows and columns fit the integer type that cells are counted in.
pub open spec fn sides_fit(w: int, h: int) -> bool {
    0 <= w <= i32::MAX && 0 <= h <= i32::MAX
}

/// The indices of the grid's mask, and the octile distance between any two of its
/// cells, fit the integer types that the search counts in.
pub open spec fn grid_fits(w: int, h: int) -> bool {
    &&& sides_fit(w, h)
    &&& w * h <= u32::MAX
    &&& w > 0 && h > 0 ==> octile_spec((0, 0), (h - 1, w - 1)) <= i32::MAX
}

/// Whether the search can count on a grid of this size.
pub fn is_countable(w: usize, h: usize) -> (r: bool)
    ensures
        r == grid_fits(w as int, h as int),
{
    if w > i32::MAX as usize || h > i32::MAX as usize {
        return false;
    }
    let (cols, rows): (i64, i64) = (w as i64, h as i64);
    assert(0 <= cols * rows <= 0x7FFF_FFFF * 0x7FFF_FFFF) by (nonlinear_arith)
        requires
            0 <= cols <= 0x7FFF_FFFF,
            0 <= rows <= 0x7FFF_FFFF,
    ;
    if cols * rows > u32::MAX as i64 {
        return false;
    }
    if w == 0 || h == 0 {
        return true;
    }
    let (lo, hi): (i64, i64) = if rows < cols {
        (rows - 1, cols - 1)
    } else {
        (cols - 1, rows - 1)
    };
    COST_STRAIGHT as i64 * (hi - lo) + COST_DIAGONAL as i64 * lo <= i32::MAX as i64
}

pub open spec fn board_of(blocked: Seq<bool>, w: usize, h: usize) -> Board {
    Board { blocked, w: w as int, h: h as int }
}

fn magnitude(a: i32, b: i32) -> (d: i32)
    requires
        0 <= a,
        0 <= b,
    ensures
        d == abs_diff(a as int, b as int),
{
    if a < b {
        b - a
    } else {
        a - b
    }
}

/// The octile distance between two cells.
pub fn octile(a: (usize, usize), b: (usize, usize)) -> (d: i32)
    requires
        a.0 <= i32::MAX,
        a.1 <= i32::MAX,
        b.0 <= i32::MAX,
        b.1 <= i32::MAX,
        octile_spec(as_cell(a), as_cell(b)) <= i32::MAX,
    ensures
        d == octile_spec(as_cell(a), as_cell(b)),
{
    let di: i32 = magnitude(a.0 as i32, b.0 as i32);
    let dj: i32 = magnitude(a.1 as i32, b.1 as i32);
    let (lo, hi): (i32, i32) = if di < dj {
        (di, dj)
    } else {
        (dj, di)
    };
    COST_STRAIGHT * (hi - lo) + COST_DIAGONAL * lo
}

fn add_capped(a: i32, b: i32) -> (sum: i32)
    requires
        0 <= a,
        0 <= b,
    ensures
        sum == capped_sum(a as int, b as int),
{
    if a > i32::MAX - b {
        i32::MAX
    } else {
        a + b
    }
}

fn move_of(k: usize) -> (m: (i32, i32, i32))
    requires
        k < 8,
    ensures
        (m.0 as int, m.1 as int) == offset(k as int),
        m.2 == move_cost(k as int),
{
    if k == 0 {
        (-1, 0, COST_STRAIGHT)
    } else if k == 1 {
        (1, 0, COST_STRAIGHT)
    } else if k == 2 {
        (0, -1, COST_STRAIGHT)
    } else if k == 3 {
        (0, 1, COST_STRAIGHT)
    } else if k == 4 {
        (-1, -1, COST_DIAGONAL)
    } else if k == 5 {
        (-1, 1, COST_DIAGONAL)
    } else if k == 6 {
        (1, -1, COST_DIAGONAL)
    } else {
        (1, 1, COST_DIAGONAL)
    }
}

/// Where the cell in row `i` and column `j` stands in a mask.
pub(crate) fn cell_index(w: usize, h: usize, i: usize, j: usize) -> (idx: usize)
    requires
        i < h,
        j < w,
        w * h <= usize::MAX,
    ensures
        idx == i * w + j,
        idx < w * h,
{
    assert(i * w + j < w * h) by (nonlinear_arith)
        requires
            i < h,
            j < w,
    ;
    assert(0 <= i * w) by (nonlinear_arith);
    i * w + j
}

fn neighbour_of(blocked: &[bool], w: usize, h: usize, cur: usize, k: usize) -> (v: Option<usize>)
    requires
        grid_fits(w as int, h as int),
        blocked.len() == w * h,
        cur < w * h,
        k < 8,
    ensures
        v is Some <==> board_of(blocked@, w, h).neighbour(cur as int, k as int) is Some,
        v matches Some(x) ==> board_of(blocked@, w, h).neighbour(cur as int, k as int) == Some(
            x as int,
        ),
{
    let ghost board = board_of(blocked@, w, h);
    let (di, dj, _cost) = move_of(k);
    proof {
        assert(0 < w && 0 < h) by (nonlinear_arith)
            requires
                0 <= w,
                0 <= h,
                cur < w * h,
        ;
        lemma_row_col(board, cur as int);
    }
    let ci: usize = cur / w;
    let cj: usize = cur % w;
    let ni: i32 = ci as i32 + di;
    let nj: i32 = cj as i32 + dj;
    if ni < 0 || nj < 0 || ni >= h as i32 || nj >= w as i32 {
        return None;
    }
    let nidx: usize = cell_index(w, h, ni as usize, nj as usize);
    if blocked[nidx] {
        return None;
    }
    if di != 0 && dj != 0 {
        let side: usize = cell_index(w, h, ci, nj as usize);
        let other: usize = cell_index(w, h, ni as usize, cj);
        if blocked[side] || blocked[other] {
            return None;
        }
    }
    Some(nidx)
}

/// The answer that the search over this mask halts with.
pub open spec fn search_answer(
    blocked: Seq<bool>,
    w: usize,
    h: usize,
    start: (usize, usize),
    goal: (usize, usize),
    max_expansions: usize,
    answer: Option<Seq<(usize, usize)>>,
) -> bool {
    let board = board_of(blocked, w, h);
    let si = index_of(board, start);
    let gi = index_of(board, goal);
    exists|rounds: nat|
        #![trigger state_after(board, si, gi, rounds)]
        halts_after(board, si, gi, max_expansions as int, rounds) && is_answer(
            board,
            state_after(board, si, gi, rounds),
            si,
            gi,
            answer,
        )
}

pub open spec fn view_of(path: Option<Vec<(usize, usize)>>) -> Option<Seq<(usize, usize)>> {
    match path {
        Some(p) => Some(p@),
        None => None,
    }
}

// Follows the noted predecessors from the goal back to the start.
fn trace_back(
    came_from: &Vec<u32>,
    w: usize,
    h: usize,
    s_idx: usize,
    g_idx: usize,
    Ghost(s): Ghost<Search>,
    Ghost(board): Ghost<Board>,
) -> (path: Vec<(usize, usize)>)
    requires
        board.w == w,
        board.h == h,
        sound(board, s_idx as int, g_idx as int, s),
        came_from@ == s.from,
        s.g[g_idx as int] < i32::MAX,
    ensures
        is_trace(board, s.from, s_idx as int, g_idx as int, path@),
{
    let mut back: Vec<(usize, usize)> = Vec::new();
    let mut node: usize = g_idx;
    proof {
        lemma_row_col(board, g_idx as int);
    }
    back.push((node / w, node % w));
    while node != s_idx
        invariant
            board.w == w,
            board.h == h,
            sound(board, s_idx as int, g_idx as int, s),
            came_from@ == s.from,
            node < board.size(),
            s.g[node as int] < i32::MAX,
            back.len() > 0,
            index_of(board, back[0]) == g_idx,
            index_of(board, back@.last()) == node,
            forall|i: int| 0 <= i < back.len() ==> board.contains(as_cell(#[trigger] back@[i])),
            forall|i: int|
                0 <= i < back.len() - 1 ==> index_of(board, #[trigger] back@[i]) != s_idx
                    && s.from[index_of(board, back@[i])] == index_of(board, back@[i + 1]),
        decreases s.g[node as int],
    {
        let ghost before = back@;
        let prev: usize = came_from[node] as usize;
        proof {
            assert(reached_by(board, s, node as int));
            lemma_row_col(board, prev as int);
        }
        back.push((prev / w, prev % w));
        node = prev;
        assert forall|i: int| 0 <= i < back.len() - 1 implies index_of(board, #[trigger] back@[i])
            != s_idx && s.from[index_of(board, back@[i])] == index_of(board, back@[i + 1]) by {
            assert(back@[i] == before[i]);
        }
    }
    let mut path: Vec<(usize, usize)> = Vec::new();
    let mut left: usize = back.len();
    while left > 0
        invariant
            left <= back.len(),
            path.len() == back.len() - left,
            forall|i: int| 0 <= i < path.len() ==> path@[i] == back@[back.len() - 1 - i],
        decreases left,
    {
        left = left - 1;
        path.push(back[left]);
    }
    assert forall|i: int| 0 < i < path@.len() implies index_of(board, #[trigger] path@[i]) != s_idx
        && s.from[index_of(board, path@[i])] == index_of(board, path@[i - 1]) by {
        assert(path@[i] == back@[back.len() - 1 - i]);
        assert(path@[i - 1] == back@[back.len() - 1 - (i - 1)]);
    }
    path
}

// Tries all eight moves from `cur`, which the state `c` has just closed.
fn relax_all(
    blocked: &[bool],
    w: usize,
    h: usize,
    goal: (usize, usize),
    cur: usize,
    closed: &Vec<bool>,
    g_score: &mut Vec<i32>,
    came_from: &mut Vec<u32>,
    heap: &mut MinHeap,
    Ghost(c): Ghost<Search>,
    Ghost(si): Ghost<int>,
)
    requires
        grid_fits(w as int, h as int),
        blocked.len() == w * h,
        board_of(blocked@, w, h).contains(as_cell(goal)),
        cur < w * h,
        sound(board_of(blocked@, w, h), si, index_of(board_of(blocked@, w, h), goal), c),
        c.closed[cur as int],
        closed@ == c.closed,
        old(g_score)@ == c.g,
        old(came_from)@ == c.from,
        old(heap)@ == c.open,
        old(heap).well_formed(),
    ensures
        ({
            let board = board_of(blocked@, w, h);
            let done = relaxed(board, index_of(board, goal), c, cur as int, 8);
            &&& final(g_score)@ == done.g
            &&& final(came_from)@ == done.from
            &&& final(heap)@ == done.open
            &&& final(heap).well_formed()
        }),
{
    let ghost board = board_of(blocked@, w, h);
    let ghost gi = index_of(board, goal);
    let cur_g: i32 = g_score[cur];
    let mut k: usize = 0;
    while k < 8
        invariant
            board == board_of(blocked@, w, h),
            grid_fits(w as int, h as int),
            blocked.len() == w * h,
            board.contains(as_cell(goal)),
            gi == index_of(board, goal),
            cur < w * h,
            k <= 8,
            heap.well_formed(),
            sound(board, si, gi, c),
            c.closed[cur as int],
            cur_g == c.g[cur as int],
            relaxed(board, gi, c, cur as int, k as int).g[cur as int] == cur_g,
            g_score@ == relaxed(board, gi, c, cur as int, k as int).g,
            came_from@ == relaxed(board, gi, c, cur as int, k as int).from,
            closed@ == c.closed,
            heap@ == relaxed(board, gi, c, cur as int, k as int).open,
        decreases 8 - k,
    {
        let ghost r = relaxed(board, gi, c, cur as int, k as int);
        proof {
            lemma_relaxed_is_sound(board, si, gi, c, cur as int, k as int);
            assert(relaxed(board, gi, c, cur as int, k + 1) == relax(
                board,
                gi,
                r,
                cur as int,
                k as int,
            ));
        }
        if let Some(nidx) = neighbour_of(blocked, w, h, cur, k) {
            proof {
                lemma_neighbour(board, cur as int, k as int);
                lemma_row_col(board, nidx as int);
                lemma_index(board, goal.0 as int, goal.1 as int);
            }
            if !closed[nidx] {
                let (_di, _dj, step) = move_of(k);
                let tentative: i32 = add_capped(cur_g, step);
                if tentative < g_score[nidx] {
                    g_score[nidx] = tentative;
                    came_from[nidx] = cur as u32;
                    let f: i32 = add_capped(tentative, octile((nidx / w, nidx % w), goal));
                    heap.push((f, nidx as u32));
                }
            }
        }
        k = k + 1;
    }
}

/// A cheapest way from `start` to `goal` around the blocked cells, or `None`
/// when there is none or when finding it takes more than `max_expansions`
/// expansions.
pub fn astar(
    blocked: &[bool],
    w: usize,
    h: usize,
    start: (usize, usize),
    goal: (usize, usize),
    max_expansions: usize,
) -> (found: Option<Vec<(usize, usize)>>)
    requires
        grid_fits(w as int, h as int),
        blocked.len() == w * h,
        board_of(blocked@, w, h).contains(as_cell(start)),
        board_of(blocked@, w, h).contains(as_cell(goal)),
    ensures
        search_answer(blocked@, w, h, start, goal, max_expansions, view_of(found)),
        found matches Some(path) ==> is_walk(board_of(blocked@, w, h), start, goal, path@),
        found matches Some(path) ==> affordable(board_of(blocked@, w, h), start, goal)
            ==> is_cheapest(board_of(blocked@, w, h), start, goal, path@),
        affordable(board_of(blocked@, w, h), start, goal) && max_expansions >= w * h
            ==> found is Some,
        !reachable(board_of(blocked@, w, h), start, goal) ==> found is None,
{
    let ghost board = board_of(blocked@, w, h);
    let ghost si = index_of(board, start);
    let ghost gi = index_of(board, goal);
    let n: usize = w * h;
    proof {
        lemma_index(board, start.0 as int, start.1 as int);
        lemma_index(board, goal.0 as int, goal.1 as int);
        lemma_first_is_sound(board, si, gi);
    }
    let s_idx: usize = cell_index(w, h, start.0, start.1);
    let g_idx: usize = cell_index(w, h, goal.0, goal.1);
    let mut g_score: Vec<i32> = vec![i32::MAX; n];
    let mut came_from: Vec<u32> = vec![u32::MAX; n];
    let mut closed: Vec<bool> = vec![false; n];
    let mut heap = MinHeap::new();
    g_score[s_idx] = 0;
    heap.push((octile(start, goal), s_idx as u32));
    let mut expansions: usize = 0;
    let ghost mut rounds: nat = 0;
    let ghost mut s = first_state(board, si, gi);
    proof {
        assert(g_score@ =~= s.g);
        assert(came_from@ =~= s.from);
        assert(closed@ =~= s.closed);
    }
    loop
        invariant
            board == board_of(blocked@, w, h),
            grid_fits(w as int, h as int),
            blocked.len() == w * h,
            n == w * h,
            board.contains(as_cell(start)),
            board.contains(as_cell(goal)),
            si == index_of(board, start),
            gi == index_of(board, goal),
            s_idx == si,
            g_idx == gi,
            heap.well_formed(),
            s == state_after(board, si, gi, rounds),
            sound(board, si, gi, s),
            g_score@ == s.g,
            came_from@ == s.from,
            closed@ == s.closed,
            heap@ == s.open,
            expansions == s.expansions,
            forall|m: nat|
                m < rounds ==> !halted(
                    #[trigger] state_after(board, si, gi, m),
                    gi,
                    max_expansions as int,
                ),
        decreases n - expansions, heap@.len(),
    {
        let ghost open = heap@;
        let (_f, cur32) = match heap.pop() {
            Some(entry) => entry,
            None => {
                proof {
                    assert(halts_after(board, si, gi, max_expansions as int, rounds));
                    assert(is_answer(board, s, si, gi, None));
                    law_search_answers_with_a_cheapest_walk(
                        board,
                        start,
                        goal,
                        max_expansions as int,
                        rounds,
                        None,
                    );
                }
                return None;
            },
        };
        proof {
            assert(open.len() > 0);
            lemma_lowest_is_unique(open, (_f, cur32));
            lemma_expansions_bounded(board, si, gi, s);
        }
        let cur: usize = cur32 as usize;
        if cur == g_idx {
            let path = trace_back(&came_from, w, h, s_idx, g_idx, Ghost(s), Ghost(board));
            proof {
                assert(halts_after(board, si, gi, max_expansions as int, rounds));
                assert(is_answer(board, s, si, gi, Some(path@)));
                law_search_answers_with_a_cheapest_walk(
                    board,
                    start,
                    goal,
                    max_expansions as int,
                    rounds,
                    Some(path@),
                );
            }
            return Some(path);
        }
        proof {
            lemma_closing_is_sound(board, si, gi, s);
        }
        if closed[cur] {
            proof {
                assert(!halted(s, gi, max_expansions as int));
                s = next_state(board, gi, s);
                rounds = rounds + 1;
            }
            continue;
        }
        if expansions >= max_expansions {
            proof {
                assert(halts_after(board, si, gi, max_expansions as int, rounds));
                assert(is_answer(board, s, si, gi, None));
                law_search_answers_with_a_cheapest_walk(
                    board,
                    start,
                    goal,
                    max_expansions as int,
                    rounds,
                    None,
                );
            }
            return None;
        }
        closed[cur] = true;
        expansions = expansions + 1;
        let ghost c = closing(popped(s), cur as int);
        proof {
            assert(!halted(s, gi, max_expansions as int));
            assert(closed@ =~= c.closed);
            lemma_expansions_bounded(board, si, gi, c);
        }
        relax_all(
            blocked,
            w,
            h,
            goal,
            cur,
            &closed,
            &mut g_score,
            &mut came_from,
            &mut heap,
            Ghost(c),
            Ghost(si),
        );
        proof {
            lemma_next_is_sound(board, si, gi, s);
            lemma_relaxed_is_sound(board, si, gi, c, cur as int, 8);
            s = next_state(board, gi, s);
            rounds = rounds + 1;
        }
    }
}

/// How the planner treats the grid.
#[derive(Debug, Clone, Copy, PartialEq, Eq)]
pub struct PlannerConfig {
    /// Inflate obstacles by this many cells. With 5 cm cells and a robot of
    /// about 10 cm radius, 2 is the right floor; 3 leaves a margin around walls.
    pub inflate_cells: u8,
    /// Cap on expansions, so that a hopeless query fails quickly.
    pub max_expansions: usize,
    /// A cell is an obstacle when its log-odds are above this. A single stray
    /// return reaches about 85; 150 demands about two confirmed hits.
    pub occ_threshold_fp: i16,
}

impl Default for PlannerConfig {
    fn default() -> (cfg: Self)
        ensures
            cfg.inflate_cells == 3,
            cfg.max_expansions == 100_000,
            cfg.occ_threshold_fp == 150,
    {
        PlannerConfig { inflate_cells: 3, max_expansions: 100_000, occ_threshold_fp: 150 }
    }
}

/// Cells `(i, j)` and `(x, y)` are within `radius` of each other.
pub open spec fn within(i: int, j: int, x: int, y: int, radius: int) -> bool {
    0 <= radius && (x - i) * (x - i) + (y - j) * (y - j) <= radius * radius
}

/// The cell `(i, j)` is an obstacle that, inflated, covers `(x, y)`.
pub open spec fn covers(
    grid: &OccupancyGrid,
    threshold: i16,
    radius: int,
    i: int,
    j: int,
    x: int,
    y: int,
) -> bool {
    &&& 0 <= i < grid.h()
    &&& 0 <= j < grid.w()
    &&& grid.cells()[i * grid.w() + j] > threshold
    &&& within(i, j, x, y, radius)
}

/// What a mask says of the cell in row `x` and column `y`.
pub open spec fn cell_at(mask: Seq<bool>, w: int, x: int, y: int) -> bool {
    mask[x * w + y]
}

/// The mask of the cells that lie within `inflate` of an obstacle.
pub open spec fn is_inflated(
    grid: &OccupancyGrid,
    inflate: int,
    threshold: i16,
    blocked: Seq<bool>,
) -> bool {
    &&& blocked.len() == grid.w() * grid.h()
    &&& forall|x: int, y: int|
        #![trigger cell_at(blocked, grid.w(), x, y)]
        0 <= x < grid.h() && 0 <= y < grid.w() ==> cell_at(blocked, grid.w(), x, y) == exists|
            i: int,
            j: int,
        |
            covers(grid, threshold, inflate, i, j, x, y)
}

// A coordinate that far off does not lie within the radius.
proof fn lemma_within_bounds(i: int, j: int, x: int, y: int, radius: int)
    requires
        within(i, j, x, y, radius),
    ensures
        -radius <= x - i <= radius,
        -radius <= y - j <= radius,
{
    let a = x - i;
    let b = y - j;
    assert(0 <= a * a && 0 <= b * b) by (nonlinear_arith);
    assert(-radius <= a <= radius) by (nonlinear_arith)
        requires
            a * a <= radius * radius,
            0 <= radius,
    ;
    assert(-radius <= b <= radius) by (nonlinear_arith)
        requires
            b * b <= radius * radius,
            0 <= radius,
    ;
}

proof fn lemma_all_within_bounds(i: int, j: int, radius: int)
    ensures
        forall|x: int, y: int| #[trigger]
            within(i, j, x, y, radius) ==> -radius <= x - i <= radius && -radius <= y - j <= radius,
{
    assert forall|x: int, y: int| #[trigger] within(i, j, x, y, radius) implies -radius <= x - i
        <= radius && -radius <= y - j <= radius by {
        lemma_within_bounds(i, j, x, y, radius);
    }
}

// The square of a distance in cells, twice over, can be counted.
proof fn lemma_square(d: int)
    requires
        -i32::MAX <= d <= i32::MAX,
    ensures
        0 <= d * d,
        2 * (d * d) <= i64::MAX,
{
    assert(0 <= d * d <= 0x7FFF_FFFF * 0x7FFF_FFFF) by (nonlinear_arith)
        requires
            -0x7FFF_FFFF <= d <= 0x7FFF_FFFF,
    ;
}

// Marks every cell of the grid within `inflate` of `(i, j)`.
fn mark_around(blocked: &mut Vec<bool>, w: usize, h: usize, i: usize, j: usize, inflate: i64)
    requires
        sides_fit(w as int, h as int),
        old(blocked).len() == w * h,
        i < h,
        j < w,
        inflate <= i32::MAX,
    ensures
        final(blocked).len() == w * h,
        forall|x: int, y: int|
            #![trigger cell_at(final(blocked)@, w as int, x, y)]
            0 <= x < h && 0 <= y < w ==> cell_at(final(blocked)@, w as int, x, y) == (cell_at(old(blocked)@, w as int, x, y)
                || within(i as int, j as int, x, y, inflate as int)),
{
    let ghost board = board_of(blocked@, w, h);
    let ghost before = blocked@;
    if inflate < 0 {
        return ;
    }
    let mut di: i64 = -inflate;
    proof {
        lemma_all_within_bounds(i as int, j as int, inflate as int);
    }
    while di <= inflate
        invariant
            sides_fit(w as int, h as int),
            board.valid(),
            board.w == w,
            board.h == h,
            blocked.len() == w * h,
            i < h,
            j < w,
            0 <= inflate <= i32::MAX,
            -inflate <= di <= inflate + 1,
            forall|x: int, y: int|
                #![trigger cell_at(blocked@, w as int, x, y)]
                0 <= x < h && 0 <= y < w ==> cell_at(blocked@, w as int, x, y) == (cell_at(before, w as int, x, y) || (within(
                    i as int,
                    j as int,
                    x,
                    y,
                    inflate as int,
                ) && x - i < di)),
        decreases inflate + 1 - di,
    {
        let mut dj: i64 = -inflate;
        proof {
            lemma_all_within_bounds(i as int, j as int, inflate as int);
        }
        while dj <= inflate
            invariant
                sides_fit(w as int, h as int),
                board.valid(),
                board.w == w,
                board.h == h,
                blocked.len() == w * h,
                i < h,
                j < w,
                0 <= inflate <= i32::MAX,
                -inflate <= di <= inflate,
                -inflate <= dj <= inflate + 1,
                forall|x: int, y: int|
                    #![trigger cell_at(blocked@, w as int, x, y)]
                    0 <= x < h && 0 <= y < w ==> cell_at(blocked@, w as int, x, y) == (cell_at(before, w as int, x, y) || (
                    within(i as int, j as int, x, y, inflate as int) && (x - i < di || x - i == di
                        && y - j < dj))),
            decreases inflate + 1 - dj,
        {
            let ii: i64 = i as i64 + di;
            let jj: i64 = j as i64 + dj;
            let inside = !(ii < 0 || jj < 0 || ii >= h as i64 || jj >= w as i64);
            proof {
                lemma_square(di as int);
                lemma_square(dj as int);
                lemma_square(inflate as int);
            }
            if inside && di * di + dj * dj <= inflate * inflate {
                let idx: usize = cell_index(w, h, ii as usize, jj as usize);
                let ghost prior = blocked@;
                blocked[idx] = true;
                assert forall|x: int, y: int|
                    #![trigger cell_at(blocked@, w as int, x, y)]
                    0 <= x < h && 0 <= y < w implies cell_at(blocked@, w as int, x, y) == (cell_at(prior, w as int, x, y) || (x
                    == ii && y == jj)) by {
                    lemma_index(board, x, y);
                    lemma_index(board, ii as int, jj as int);
                }
            }
            dj = dj + 1;
        }
        di = di + 1;
    }
    proof {
        lemma_all_within_bounds(i as int, j as int, inflate as int);
    }
}

/// Marks every cell within `inflate` of a cell whose log-odds are above the
/// threshold. The inflation is round: corners outside the radius stay free.
pub fn inflated_obstacles(grid: &OccupancyGrid, inflate: i32, occ_threshold_fp: i16) -> (blocked:
    Vec<bool>)
    requires
        grid.well_formed(),
        sides_fit(grid.w(), grid.h()),
    ensures
        is_inflated(grid, inflate as int, occ_threshold_fp, blocked@),
{
    let w: usize = grid.width();
    let h: usize = grid.height();
    proof {
        grid.lemma_size();
    }
    let mut blocked: Vec<bool> = vec![false; w * h];
    let ghost board = board_of(blocked@, w, h);
    let ghost r = inflate as int;
    proof {
        assert forall|x: int, y: int|
            #![trigger cell_at(blocked@, w as int, x, y)]
            0 <= x < h && 0 <= y < w implies !cell_at(blocked@, w as int, x, y) by {
            lemma_index(board, x, y);
        }
    }
    let mut i: usize = 0;
    while i < h
        invariant
            grid.well_formed(),
            w == grid.w(),
            h == grid.h(),
            sides_fit(w as int, h as int),
            r == inflate,
            blocked.len() == w * h,
            i <= h,
            forall|x: int, y: int|
                #![trigger cell_at(blocked@, w as int, x, y)]
                0 <= x < h && 0 <= y < w ==> cell_at(blocked@, w as int, x, y) == exists|a: int, b: int|
                    a < i && covers(grid, occ_threshold_fp, r, a, b, x, y),
        decreases h - i,
    {
        let mut j: usize = 0;
        while j < w
            invariant
                grid.well_formed(),
                w == grid.w(),
                h == grid.h(),
                sides_fit(w as int, h as int),
                r == inflate,
                blocked.len() == w * h,
                i < h,
                j <= w,
                forall|x: int, y: int|
                    #![trigger cell_at(blocked@, w as int, x, y)]
                    0 <= x < h && 0 <= y < w ==> cell_at(blocked@, w as int, x, y) == exists|a: int, b: int|
                        (a < i || a == i && b < j) && covers(
                            grid,
                            occ_threshold_fp,
                            r,
                            a,
                            b,
                            x,
                            y,
                        ),
            decreases w - j,
        {
            let ghost prior = blocked@;
            let occupied = grid.log_at(i, j) > occ_threshold_fp;
            if occupied {
                mark_around(&mut blocked, w, h, i, j, inflate as i64);
            }
            proof {
                assert forall|x: int, y: int|
                    #![trigger cell_at(blocked@, w as int, x, y)]
                    0 <= x < h && 0 <= y < w implies cell_at(blocked@, w as int, x, y) == exists|a: int, b: int|
                        (a < i || a == i && b < j + 1) && covers(
                            grid,
                            occ_threshold_fp,
                            r,
                            a,
                            b,
                            x,
                            y,
                        ) by {
                    let was = cell_at(prior, w as int, x, y);
                    let own = covers(grid, occ_threshold_fp, r, i as int, j as int, x, y);
                    assert(cell_at(blocked@, w as int, x, y) == (was || own));
                    if was {
                        let (a, b) = choose|a: int, b: int|
                            (a < i || a == i && b < j) && covers(
                                grid,
                                occ_threshold_fp,
                                r,
                                a,
                                b,
                                x,
                                y,
                            );
                        assert(covers(grid, occ_threshold_fp, r, a, b, x, y));
                    }
                    if exists|a: int, b: int|
                        (a < i || a == i && b < j + 1) && covers(
                            grid,
                            occ_threshold_fp,
                            r,
                            a,
                            b,
                            x,
                            y,
                        ) {
                        let (a, b) = choose|a: int, b: int|
                            (a < i || a == i && b < j + 1) && covers(
                                grid,
                                occ_threshold_fp,
                                r,
                                a,
                                b,
                                x,
                                y,
                            );
                        assert(a == i && b == j || (a < i || a == i && b < j));
                    }
                }
            }
            j = j + 1;
        }
        proof {
            assert forall|x: int, y: int|
                #![trigger cell_at(blocked@, w as int, x, y)]
                0 <= x < h && 0 <= y < w implies cell_at(blocked@, w as int, x, y) == exists|a: int, b: int|
                    a < i + 1 && covers(grid, occ_threshold_fp, r, a, b, x, y) by {
                if exists|a: int, b: int|
                    a < i + 1 && covers(grid, occ_threshold_fp, r, a, b, x, y) {
                    let (a, b) = choose|a: int, b: int|
                        a < i + 1 && covers(grid, occ_threshold_fp, r, a, b, x, y);
                    assert((a < i || a == i && b < j) && covers(
                        grid,
                        occ_threshold_fp,
                        r,
                        a,
                        b,
                        x,
                        y,
                    ));
                }
            }
        }
        i = i + 1;
    }
    proof {
        assert forall|x: int, y: int|
            #![trigger cell_at(blocked@, w as int, x, y)]
            0 <= x < h && 0 <= y < w implies cell_at(blocked@, w as int, x, y) == exists|a: int, b: int|
                covers(grid, occ_threshold_fp, r, a, b, x, y) by {
            if exists|a: int, b: int| covers(grid, occ_threshold_fp, r, a, b, x, y) {
                let (a, b) = choose|a: int, b: int|
                    covers(grid, occ_threshold_fp, r, a, b, x, y);
                assert(a < i && covers(grid, occ_threshold_fp, r, a, b, x, y));
            }
        }
    }
    blocked
}

/// The larger of the row and the column distance.
pub open spec fn ring_of(a: (int, int), b: (int, int)) -> int {
    let di = abs_diff(a.0, b.0);
    let dj = abs_diff(a.1, b.1);
    if di < dj {
        dj
    } else {
        di
    }
}

/// `c` is the free cell in the innermost ring around `start` that has one, and
/// there the first in reading order.
pub open spec fn is_nearest_free(
    board: Board,
    start: (int, int),
    max_radius: int,
    c: (int, int),
) -> bool {
    &&& board.is_free(c)
    &&& c == start || ring_of(start, c) <= max_radius
    &&& forall|x: (int, int)| #[trigger]
        board.is_free(x) ==> {
            ||| ring_of(start, c) < ring_of(start, x)
            ||| ring_of(start, c) == ring_of(start, x) && (c.0 < x.0 || (c.0 == x.0 && c.1 <= x.1))
        }
}

/// No cell is free within `max_radius` of `start`.
pub open spec fn nothing_free(board: Board, start: (int, int), max_radius: int) -> bool {
    forall|x: (int, int)| #[trigger]
        board.is_free(x) ==> x != start && ring_of(start, x) > max_radius
}

/// The free cell nearest to `start`: `start` itself, or one of the innermost ring
/// around it that has a free cell.
pub fn nearest_free(
    blocked: &[bool],
    w: usize,
    h: usize,
    start: (usize, usize),
    max_radius: i32,
) -> (found: Option<(usize, usize)>)
    requires
        sides_fit(w as int, h as int),
        blocked.len() == w * h,
        start.0 < h,
        start.1 < w,
    ensures
        match found {
            Some(c) => is_nearest_free(
                board_of(blocked@, w, h),
                as_cell(start),
                max_radius as int,
                as_cell(c),
            ),
            None => nothing_free(board_of(blocked@, w, h), as_cell(start), max_radius as int),
        },
{
    let ghost board = board_of(blocked@, w, h);
    let ghost s = as_cell(start);
    let (i0, j0) = start;
    let own: usize = cell_index(w, h, i0, j0);
    if !blocked[own] {
        assert(board.is_free(s));
        return Some(start);
    }
    let reach: i64 = max_radius as i64;
    let mut r: i64 = 1;
    while r <= reach
        invariant
            sides_fit(w as int, h as int),
            blocked.len() == w * h,
            board == board_of(blocked@, w, h),
            s == as_cell(start),
            start == (i0, j0),
            i0 < h,
            j0 < w,
            1 <= r,
            reach == max_radius,
            forall|x: (int, int)| #[trigger] board.is_free(x) ==> ring_of(s, x) >= r,
        decreases reach + 1 - r,
    {
        let mut di: i64 = -r;
        while di <= r
            invariant
                sides_fit(w as int, h as int),
                blocked.len() == w * h,
                board == board_of(blocked@, w, h),
                s == as_cell(start),
                start == (i0, j0),
                i0 < h,
                j0 < w,
                1 <= r <= reach,
                reach == max_radius,
                -r <= di <= r + 1,
                forall|x: (int, int)| #[trigger]
                    board.is_free(x) ==> ring_of(s, x) > r || (ring_of(s, x) == r && x.0 - i0
                        >= di),
            decreases r + 1 - di,
        {
            let mut dj: i64 = -r;
            while dj <= r
                invariant
                    sides_fit(w as int, h as int),
                    blocked.len() == w * h,
                    board == board_of(blocked@, w, h),
                    s == as_cell(start),
                    start == (i0, j0),
                    i0 < h,
                    j0 < w,
                    1 <= r <= reach,
                    reach == max_radius,
                    -r <= di <= r,
                    -r <= dj <= r + 1,
                    forall|x: (int, int)| #[trigger]
                        board.is_free(x) ==> ring_of(s, x) > r || (ring_of(s, x) == r && (x.0 - i0
                            > di || (x.0 - i0 == di && x.1 - j0 >= dj))),
                decreases r + 1 - dj,
            {
                let on_ring = di == r || di == -r || dj == r || dj == -r;
                if on_ring {
                    let ii: i64 = i0 as i64 + di;
                    let jj: i64 = j0 as i64 + dj;
                    if !(ii < 0 || jj < 0 || ii >= h as i64 || jj >= w as i64) {
                        let i: usize = ii as usize;
                        let j: usize = jj as usize;
                        let idx: usize = cell_index(w, h, i, j);
                        if !blocked[idx] {
                            assert(board.is_free((i as int, j as int)));
                            return Some((i, j));
                        }
                    }
                }
                dj = dj + 1;
            }
            di = di + 1;
        }
        r = r + 1;
    }
    None
}

/// From `path[anchor]`, the line to every later cell up to `path[end]` is clear,
/// the neighbouring one aside.
pub open spec fn sees_up_to(
    board: Board,
    path: Seq<(usize, usize)>,
    anchor: int,
    end: int,
) -> bool {
    forall|t: int|
        anchor + 1 < t <= end ==> clear_line(board, as_cell(path[anchor]), as_cell(#[trigger] path[t]))
}

/// `keep` lists the positions of `path` that a greedy reduction keeps: both ends,
/// and from each kept cell the last one before the view is first lost.
pub open spec fn kept_positions(
    board: Board,
    path: Seq<(usize, usize)>,
    keep: Seq<int>,
) -> bool {
    &&& keep.len() >= 2
    &&& keep[0] == 0
    &&& keep.last() == path.len() - 1
    &&& forall|n: int|
        #![trigger keep[n]]
        0 < n < keep.len() ==> {
            &&& keep[n - 1] < keep[n] < path.len()
            &&& sees_up_to(board, path, keep[n - 1], keep[n])
            &&& n < keep.len() - 1 ==> !clear_line(
                board,
                as_cell(path[keep[n - 1]]),
                as_cell(path[keep[n] + 1]),
            )
        }
}

// The positions that have been kept of a walk whose end is not in view yet.
#[verifier::opaque]
spec fn kept_so_far(board: Board, path: Seq<(usize, usize)>, keep: Seq<int>) -> bool {
    &&& keep[0] == 0
    &&& forall|n: int|
        #![trigger keep[n]]
        0 < n < keep.len() ==> {
            &&& keep[n - 1] < keep[n] < path.len() - 1
            &&& sees_up_to(board, path, keep[n - 1], keep[n])
            &&& !clear_line(board, as_cell(path[keep[n - 1]]), as_cell(path[keep[n] + 1]))
        }
}

proof fn lemma_keep_another(board: Board, path: Seq<(usize, usize)>, keep: Seq<int>, next: int)
    requires
        keep.len() > 0,
        kept_so_far(board, path, keep),
        keep.last() < next < path.len() - 1,
        sees_up_to(board, path, keep.last(), next),
        !clear_line(board, as_cell(path[keep.last()]), as_cell(path[next + 1])),
    ensures
        kept_so_far(board, path, keep.push(next)),
{
    reveal(kept_so_far);
    let longer = keep.push(next);
    assert forall|n: int| #![trigger longer[n]] 0 < n < longer.len() implies {
        &&& longer[n - 1] < longer[n] < path.len() - 1
        &&& sees_up_to(board, path, longer[n - 1], longer[n])
        &&& !clear_line(board, as_cell(path[longer[n - 1]]), as_cell(path[longer[n] + 1]))
    } by {
        if n < keep.len() {
            assert(longer[n] == keep[n]);
        }
    }
}

proof fn lemma_keep_last(board: Board, path: Seq<(usize, usize)>, keep: Seq<int>)
    requires
        keep.len() > 0,
        kept_so_far(board, path, keep),
        keep.last() < path.len() - 1,
        sees_up_to(board, path, keep.last(), path.len() - 1),
    ensures
        kept_positions(board, path, keep.push(path.len() - 1)),
{
    reveal(kept_so_far);
    let longer = keep.push(path.len() - 1);
    assert forall|n: int| #![trigger longer[n]] 0 < n < longer.len() implies {
        &&& longer[n - 1] < longer[n] < path.len()
        &&& sees_up_to(board, path, longer[n - 1], longer[n])
        &&& n < longer.len() - 1 ==> !clear_line(
            board,
            as_cell(path[longer[n - 1]]),
            as_cell(path[longer[n] + 1]),
        )
    } by {
        if n < keep.len() {
            assert(longer[n] == keep[n]);
        }
    }
}

/// `thin` is the greedy line-of-sight reduction of `path`.
pub open spec fn is_simplified(
    board: Board,
    path: Seq<(usize, usize)>,
    thin: Seq<(usize, usize)>,
) -> bool {
    if path.len() < 3 {
        thin == path
    } else {
        exists|keep: Seq<int>|
            #![trigger kept_positions(board, path, keep)]
            kept_positions(board, path, keep) && thin == Seq::new(
                keep.len(),
                |n: int| path[keep[n]],
            )
    }
}

/// Greedy line-of-sight simplification: walk on while the straight line stays
/// free, then start a new segment.
pub fn simplify_path(blocked: &[bool], w: usize, h: usize, path: &[(usize, usize)]) -> (thin: Vec<
    (usize, usize),
>)
    requires
        sides_fit(w as int, h as int),
        blocked.len() == w * h,
        forall|i: int|
            0 <= i < path.len() ==> (#[trigger] path@[i]).0 < h && path@[i].1 < w,
    ensures
        is_simplified(board_of(blocked@, w, h), path@, thin@),
{
    let ghost board = board_of(blocked@, w, h);
    let mut out: Vec<(usize, usize)> = Vec::new();
    if path.len() < 3 {
        let mut i: usize = 0;
        while i < path.len()
            invariant
                i <= path.len(),
                out@ == path@.take(i as int),
            decreases path.len() - i,
        {
            out.push(path[i]);
            i = i + 1;
        }
        assert(out@ =~= path@);
        return out;
    }
    out.push(path[0]);
    let ghost mut keep: Seq<int> = seq![0int];
    assert(kept_so_far(board, path@, keep)) by {
        reveal(kept_so_far);
    }
    let mut anchor: usize = 0;
    let mut last_visible: usize = 1;
    while last_visible + 1 < path.len()
        invariant
            sides_fit(w as int, h as int),
            blocked.len() == w * h,
            board == board_of(blocked@, w, h),
            forall|i: int|
                0 <= i < path.len() ==> (#[trigger] path@[i]).0 < h && path@[i].1 < w,
            path.len() >= 3,
            anchor < last_visible < path.len(),
            sees_up_to(board, path@, anchor as int, last_visible as int),
            keep.len() > 0,
            keep.last() == anchor,
            kept_so_far(board, path@, keep),
            out@ == Seq::new(keep.len(), |n: int| path@[keep[n]]),
        decreases path.len() - last_visible,
    {
        let next: usize = last_visible + 1;
        if line_of_sight(blocked, w, h, path[anchor], path[next]) {
            last_visible = next;
        } else {
            out.push(path[last_visible]);
            proof {
                let longer = keep.push(last_visible as int);
                lemma_keep_another(board, path@, keep, last_visible as int);
                keep = longer;
                assert(out@ =~= Seq::new(keep.len(), |n: int| path@[keep[n]]));
            }
            anchor = last_visible;
            last_visible = anchor + 1;
        }
    }
    out.push(path[path.len() - 1]);
    proof {
        let longer = keep.push(path.len() - 1);
        lemma_keep_last(board, path@, keep);
        assert(kept_positions(board, path@, longer));
        assert(out@ =~= Seq::new(longer.len(), |n: int| path@[longer[n]]));
    }
    out
}

/// The reduction of a walk out of a free cell has only free cells and clear segments,
/// and the same two ends.
pub proof fn law_simplified_segments_are_clear(
    board: Board,
    start: (usize, usize),
    goal: (usize, usize),
    path: Seq<(usize, usize)>,
    thin: Seq<(usize, usize)>,
)
    requires
        board.is_free(as_cell(start)),
        is_walk(board, start, goal, path),
        is_simplified(board, path, thin),
    ensures
        thin.len() > 0,
        thin[0] == start,
        thin.last() == goal,
        forall|i: int| 0 <= i < thin.len() ==> board.is_free(as_cell(#[trigger] thin[i])),
        forall|i: int|
            0 < i < thin.len() ==> clear_line(board, as_cell(thin[i - 1]), as_cell(#[trigger] thin[i])),
{
    assert forall|i: int| 0 < i < path.len() implies clear_line(
        board,
        as_cell(path[i - 1]),
        as_cell(#[trigger] path[i]),
    ) by {
        assert(board.step_allowed(as_cell(path[i - 1]), as_cell(path[i])));
        if i > 1 {
            assert(board.step_allowed(as_cell(path[i - 2]), as_cell(path[i - 1])));
        }
        law_allowed_step_is_clear(board, as_cell(path[i - 1]), as_cell(path[i]));
    }
    assert forall|i: int| 0 <= i < path.len() implies board.is_free(
        as_cell(#[trigger] path[i]),
    ) by {
        if i > 0 {
            assert(board.step_allowed(as_cell(path[i - 1]), as_cell(path[i])));
        }
    }
    if path.len() >= 3 {
        let keep = choose|keep: Seq<int>|
            #![trigger kept_positions(board, path, keep)]
            kept_positions(board, path, keep) && thin == Seq::new(
                keep.len(),
                |n: int| path[keep[n]],
            );
        assert forall|i: int| 0 <= i < thin.len() implies board.is_free(
            as_cell(#[trigger] thin[i]),
        ) by {
            lemma_keep_starts(board, path, keep, i);
            if i > 0 {
                assert(keep[i] < path.len());
            }
            assert(thin[i] == path[keep[i]]);
        }
        assert forall|i: int| 0 < i < thin.len() implies clear_line(
            board,
            as_cell(thin[i - 1]),
            as_cell(#[trigger] thin[i]),
        ) by {
            let a = keep[i - 1];
            let b = keep[i];
            lemma_keep_starts(board, path, keep, i - 1);
            assert(a < b < path.len());
            assert(thin[i] == path[b]);
            if b == a + 1 {
                assert(clear_line(board, as_cell(path[b - 1]), as_cell(path[b])));
            } else {
                assert(sees_up_to(board, path, a, b));
            }
        }
    }
}

proof fn lemma_keep_starts(board: Board, path: Seq<(usize, usize)>, keep: Seq<int>, n: int)
    requires
        kept_positions(board, path, keep),
        0 <= n < keep.len(),
    ensures
        0 <= keep[n],
    decreases n,
{
    if n > 0 {
        lemma_keep_starts(board, path, keep, n - 1);
        assert(keep[n - 1] < keep[n]);
    }
}

/// What the planner answers, over the mask of inflated obstacles: the reduction of
/// the search's answer between the free cells nearest to both ends.
pub open spec fn is_plan(
    blocked: Seq<bool>,
    w: usize,
    h: usize,
    start: (usize, usize),
    goal: (usize, usize),
    cfg: PlannerConfig,
    found: Option<Seq<(usize, usize)>>,
) -> bool {
    let board = board_of(blocked, w, h);
    let reach = cfg.inflate_cells * 2;
    if nothing_free(board, as_cell(start), reach) || nothing_free(board, as_cell(goal), reach) {
        found is None
    } else {
        exists|s: (usize, usize), g: (usize, usize), answer: Option<Seq<(usize, usize)>>|
            #![trigger search_answer(blocked, w, h, s, g, cfg.max_expansions, answer)]
            {
                &&& is_nearest_free(board, as_cell(start), reach, as_cell(s))
                &&& is_nearest_free(board, as_cell(goal), reach, as_cell(g))
                &&& search_answer(blocked, w, h, s, g, cfg.max_expansions, answer)
                &&& match answer {
                    None => found is None,
                    Some(path) => found matches Some(thin) && is_simplified(board, path, thin),
                }
            }
    }
}

/// `thin` leads in clear lines, over free cells, from the free cell nearest to `start`
/// to that nearest to `goal`.
pub open spec fn is_clear_way(
    board: Board,
    start: (int, int),
    goal: (int, int),
    reach: int,
    thin: Seq<(usize, usize)>,
) -> bool {
    &&& thin.len() > 0
    &&& is_nearest_free(board, start, reach, as_cell(thin[0]))
    &&& is_nearest_free(board, goal, reach, as_cell(thin.last()))
    &&& forall|i: int| 0 <= i < thin.len() ==> board.is_free(as_cell(#[trigger] thin[i]))
    &&& forall|i: int|
        0 < i < thin.len() ==> clear_line(
            board,
            as_cell(thin[i - 1]),
            as_cell(#[trigger] thin[i]),
        )
}

/// Plans a way from `start` to `goal` in cells. An end outside the grid is `None`
/// and has no plan; an end in an obstacle is moved to the nearest free cell within
/// twice the inflation radius.
pub fn plan(
    grid: &OccupancyGrid,
    start: Option<(usize, usize)>,
    goal: Option<(usize, usize)>,
    cfg: PlannerConfig,
) -> (found: Option<Vec<(usize, usize)>>)
    requires
        grid.well_formed(),
        grid_fits(grid.w(), grid.h()),
        start matches Some(c) ==> c.0 < grid.h() && c.1 < grid.w(),
        goal matches Some(c) ==> c.0 < grid.h() && c.1 < grid.w(),
    ensures
        start is None || goal is None ==> found is None,
        start is Some && goal is Some ==> exists|blocked: Seq<bool>|
            #![trigger is_inflated(grid, cfg.inflate_cells as int, cfg.occ_threshold_fp, blocked)]
            {
                &&& is_inflated(grid, cfg.inflate_cells as int, cfg.occ_threshold_fp, blocked)
                &&& is_plan(
                    blocked,
                    grid.w() as usize,
                    grid.h() as usize,
                    start->0,
                    goal->0,
                    cfg,
                    view_of(found),
                )
                &&& found matches Some(thin) ==> is_clear_way(
                    board_of(blocked, grid.w() as usize, grid.h() as usize),
                    as_cell(start->0),
                    as_cell(goal->0),
                    cfg.inflate_cells * 2,
                    thin@,
                )
            },
{
    let blocked = inflated_obstacles(grid, cfg.inflate_cells as i32, cfg.occ_threshold_fp);
    let w: usize = grid.width();
    let h: usize = grid.height();
    let (s0, g0) = match (start, goal) {
        (Some(s0), Some(g0)) => (s0, g0),
        _ => {
            return None;
        },
    };
    let ghost board = board_of(blocked@, w, h);
    let reach: i32 = cfg.inflate_cells as i32 * 2;
    let s = match nearest_free(&blocked, w, h, s0, reach) {
        Some(s) => s,
        None => {
            assert(is_inflated(
                grid,
                cfg.inflate_cells as int,
                cfg.occ_threshold_fp,
                blocked@,
            ));
            return None;
        },
    };
    let g = match nearest_free(&blocked, w, h, g0, reach) {
        Some(g) => g,
        None => {
            assert(is_inflated(
                grid,
                cfg.inflate_cells as int,
                cfg.occ_threshold_fp,
                blocked@,
            ));
            return None;
        },
    };
    assert(board.is_free(as_cell(s)) && board.is_free(as_cell(g)));
    let answer = astar(&blocked, w, h, s, g, cfg.max_expansions);
    match answer {
        None => {
            assert(is_inflated(
                grid,
                cfg.inflate_cells as int,
                cfg.occ_threshold_fp,
                blocked@,
            ));
            assert(search_answer(blocked@, w, h, s, g, cfg.max_expansions, None));
            None
        },
        Some(path) => {
            proof {
                assert forall|i: int| 0 <= i < path.len() implies (#[trigger] path@[i]).0 < h
                    && path@[i].1 < w by {
                    if i > 0 {
                        assert(board.step_allowed(as_cell(path@[i - 1]), as_cell(path@[i])));
                    }
                }
            }
            let thin = simplify_path(&blocked, w, h, &path);
            proof {
                law_simplified_segments_are_clear(board, s, g, path@, thin@);
                assert(is_inflated(
                    grid,
                    cfg.inflate_cells as int,
                    cfg.occ_threshold_fp,
                    blocked@,
                ));
                assert(search_answer(blocked@, w, h, s, g, cfg.max_expansions, Some(path@)));
            }
            Some(thin)
        },
    }
}

/// A cell whose squared distance, in cells, to some obstacle is at most the square of
/// the inflation is blocked, for every inflation.
pub proof fn law_cells_near_an_obstacle_are_blocked(
    grid: &OccupancyGrid,
    inflate: int,
    threshold: i16,
    blocked: Seq<bool>,
    i: int,
    j: int,
    x: int,
    y: int,
)
    requires
        is_inflated(grid, inflate, threshold, blocked),
        0 <= i < grid.h(),
        0 <= j < grid.w(),
        grid.cells()[i * grid.w() + j] > threshold,
        0 <= x < grid.h(),
        0 <= y < grid.w(),
        0 <= inflate,
        (x - i) * (x - i) + (y - j) * (y - j) <= inflate * inflate,
    ensures
        blocked[x * grid.w() + y],
{
    assert(covers(grid, threshold, inflate, i, j, x, y));
    assert(cell_at(blocked, grid.w(), x, y));
}

/// An obstacle blocks itself and, straight up, down, left and right, every cell of the
/// grid up to the inflation.
pub proof fn law_inflation_reaches_its_full_radius(
    grid: &OccupancyGrid,
    inflate: int,
    threshold: i16,
    blocked: Seq<bool>,
    i: int,
    j: int,
    r: int,
)
    requires
        is_inflated(grid, inflate, threshold, blocked),
        0 <= i < grid.h(),
        0 <= j < grid.w(),
        grid.cells()[i * grid.w() + j] > threshold,
        0 <= r <= inflate,
    ensures
        blocked[i * grid.w() + j],
        i + r < grid.h() ==> blocked[(i + r) * grid.w() + j],
        0 <= i - r ==> blocked[(i - r) * grid.w() + j],
        j + r < grid.w() ==> blocked[i * grid.w() + (j + r)],
        0 <= j - r ==> blocked[i * grid.w() + (j - r)],
{
    assert(r * r <= inflate * inflate && (-r) * (-r) <= inflate * inflate && 0 <= inflate * inflate)
        by (nonlinear_arith)
        requires
            0 <= r <= inflate,
    ;
    law_cells_near_an_obstacle_are_blocked(grid, inflate, threshold, blocked, i, j, i, j);
    if i + r < grid.h() {
        law_cells_near_an_obstacle_are_blocked(grid, inflate, threshold, blocked, i, j, i + r, j);
    }
    if 0 <= i - r {
        law_cells_near_an_obstacle_are_blocked(grid, inflate, threshold, blocked, i, j, i - r, j);
    }
    if j + r < grid.w() {
        law_cells_near_an_obstacle_are_blocked(grid, inflate, threshold, blocked, i, j, i, j + r);
    }
    if 0 <= j - r {
        law_cells_near_an_obstacle_are_blocked(grid, inflate, threshold, blocked, i, j, i, j - r);
    }
}

/// A blocked cell has an obstacle within the inflation: what is farther than that from
/// every obstacle stays free.
pub proof fn law_only_cells_near_an_obstacle_are_blocked(
    grid: &OccupancyGrid,
    inflate: int,
    threshold: i16,
    blocked: Seq<bool>,
    x: int,
    y: int,
) -> (near: (int, int))
    requires
        is_inflated(grid, inflate, threshold, blocked),
        0 <= x < grid.h(),
        0 <= y < grid.w(),
        blocked[x * grid.w() + y],
    ensures
        0 <= near.0 < grid.h(),
        0 <= near.1 < grid.w(),
        grid.cells()[near.0 * grid.w() + near.1] > threshold,
        0 <= inflate,
        (x - near.0) * (x - near.0) + (y - near.1) * (y - near.1) <= inflate * inflate,
{
    assert(cell_at(blocked, grid.w(), x, y));
    choose|i: int, j: int| covers(grid, threshold, inflate, i, j, x, y)
}

/// A higher threshold or a smaller inflation never blocks a cell that was free.
pub proof fn law_more_inflation_blocks_more(
    grid: &OccupancyGrid,
    small: int,
    large: int,
    high: i16,
    low: i16,
    few: Seq<bool>,
    many: Seq<bool>,
    x: int,
    y: int,
)
    requires
        small <= large,
        low <= high,
        is_inflated(grid, small, high, few),
        is_inflated(grid, large, low, many),
        0 <= x < grid.h(),
        0 <= y < grid.w(),
        few[x * grid.w() + y],
    ensures
        many[x * grid.w() + y],
{
    let (i, j) = law_only_cells_near_an_obstacle_are_blocked(grid, small, high, few, x, y);
    assert(small * small <= large * large) by (nonlinear_arith)
        requires
            0 <= small <= large,
    ;
    law_cells_near_an_obstacle_are_blocked(grid, large, low, many, i, j, x, y);
}

/// A plan keeps its distance: every waypoint, and every cell on the straight line from
/// one waypoint to the next, is farther than the inflation from every obstacle.
pub proof fn law_plan_stays_clear_of_obstacles(
    grid: &OccupancyGrid,
    inflate: int,
    threshold: i16,
    blocked: Seq<bool>,
    start: (int, int),
    goal: (int, int),
    reach: int,
    thin: Seq<(usize, usize)>,
    n: int,
    m: int,
    i: int,
    j: int,
)
    requires
        is_inflated(grid, inflate, threshold, blocked),
        is_clear_way(
            board_of(blocked, grid.w() as usize, grid.h() as usize),
            start,
            goal,
            reach,
            thin,
        ),
        grid.w() <= usize::MAX,
        grid.h() <= usize::MAX,
        0 <= inflate,
        0 <= n < thin.len(),
        0 <= i < grid.h(),
        0 <= j < grid.w(),
        grid.cells()[i * grid.w() + j] > threshold,
    ensures
        thin[n].0 < grid.h(),
        thin[n].1 < grid.w(),
        (thin[n].0 - i) * (thin[n].0 - i) + (thin[n].1 - j) * (thin[n].1 - j) > inflate * inflate,
        0 < n && 0 <= m < line(as_cell(thin[n - 1]), as_cell(thin[n])).len() ==> {
            let c = line(as_cell(thin[n - 1]), as_cell(thin[n]))[m];
            &&& 0 <= c.0 < grid.h()
            &&& 0 <= c.1 < grid.w()
            &&& (c.0 - i) * (c.0 - i) + (c.1 - j) * (c.1 - j) > inflate * inflate
        },
{
    let board = board_of(blocked, grid.w() as usize, grid.h() as usize);
    let c = as_cell(thin[n]);
    assert(board.is_free(c));
    if (c.0 - i) * (c.0 - i) + (c.1 - j) * (c.1 - j) <= inflate * inflate {
        law_cells_near_an_obstacle_are_blocked(
            grid,
            inflate,
            threshold,
            blocked,
            i,
            j,
            c.0,
            c.1,
        );
    }
    if 0 < n && 0 <= m < line(as_cell(thin[n - 1]), as_cell(thin[n])).len() {
        let d = line(as_cell(thin[n - 1]), as_cell(thin[n]))[m];
        assert(clear_line(board, as_cell(thin[n - 1]), as_cell(thin[n])));
        law_clear_line_is_free(board, as_cell(thin[n - 1]), as_cell(thin[n]), m);
        if (d.0 - i) * (d.0 - i) + (d.1 - j) * (d.1 - j) <= inflate * inflate {
            law_cells_near_an_obstacle_are_blocked(
                grid,
                inflate,
                threshold,
                blocked,
                i,
                j,
                d.0,
                d.1,
            );
        }
    }
}

/// The nearest free cell is free, lies in the square of the radius around the start, is
/// the start itself when that is free, and no smaller square around the start has a
/// free cell.
pub proof fn law_nearest_free_is_nearest(
    board: Board,
    start: (int, int),
    max_radius: int,
    c: (int, int),
    x: (int, int),
    k: int,
)
    requires
        is_nearest_free(board, start, max_radius, c),
        0 <= start.0 < board.h,
        0 <= start.1 < board.w,
    ensures
        0 <= c.0 < board.h,
        0 <= c.1 < board.w,
        !board.blocked[c.0 * board.w + c.1],
        !board.blocked[start.0 * board.w + start.1] ==> c == start,
        c != start ==> -max_radius <= c.0 - start.0 <= max_radius && -max_radius <= c.1 - start.1
            <= max_radius,
        0 <= x.0 < board.h && 0 <= x.1 < board.w && !board.blocked[x.0 * board.w + x.1] && -k
            <= x.0 - start.0 <= k && -k <= x.1 - start.1 <= k ==> -k <= c.0 - start.0 <= k && -k
            <= c.1 - start.1 <= k,
{
    if !board.blocked[start.0 * board.w + start.1] {
        assert(board.is_free(start));
    }
    if 0 <= x.0 < board.h && 0 <= x.1 < board.w && !board.blocked[x.0 * board.w + x.1] {
        assert(board.is_free(x));
    }
}

/// With nothing free, the start and every cell of the square of the radius around it
/// are blocked; and where one of those is free, something is.
pub proof fn law_nothing_free_means_all_blocked(
    board: Board,
    start: (int, int),
    max_radius: int,
    x: (int, int),
)
    requires
        0 <= x.0 < board.h,
        0 <= x.1 < board.w,
        x == start || (-max_radius <= x.0 - start.0 <= max_radius && -max_radius <= x.1 - start.1
            <= max_radius),
    ensures
        nothing_free(board, start, max_radius) ==> board.blocked[x.0 * board.w + x.1],
        !board.blocked[x.0 * board.w + x.1] ==> !nothing_free(board, start, max_radius),
{
    if !board.blocked[x.0 * board.w + x.1] {
        assert(board.is_free(x));
    }
}

/// A path of two cells or fewer is its own reduction; a longer one keeps its ends, and
/// the reduction is no longer than the path and visits only cells of it, in its order.
pub proof fn law_reduction_is_a_subsequence(
    board: Board,
    path: Seq<(usize, usize)>,
    thin: Seq<(usize, usize)>,
) -> (at: Seq<int>)
    requires
        is_simplified(board, path, thin),
        path.len() > 0,
    ensures
        path.len() < 3 ==> thin == path,
        thin.len() <= path.len(),
        thin[0] == path[0],
        thin.last() == path.last(),
        at.len() == thin.len(),
        forall|n: int| 0 <= n < at.len() ==> 0 <= #[trigger] at[n] < path.len() && thin[n] == path[at[n]],
        forall|n: int, m: int| 0 <= n < m < at.len() ==> #[trigger] at[n] < #[trigger] at[m],
{
    if path.len() < 3 {
        Seq::new(path.len(), |n: int| n)
    } else {
        let keep = choose|keep: Seq<int>|
            #![trigger kept_positions(board, path, keep)]
            kept_positions(board, path, keep) && thin == Seq::new(
                keep.len(),
                |n: int| path[keep[n]],
            );
        assert forall|n: int| 0 <= n < keep.len() implies 0 <= #[trigger] keep[n] < path.len()
            && thin[n] == path[keep[n]] by {
            lemma_keep_starts(board, path, keep, n);
        }
        lemma_keep_rises(board, path, keep);
        assert forall|n: int, m: int| 0 <= n < m < keep.len() implies #[trigger] keep[n]
            < #[trigger] keep[m] by {
            lemma_keep_grows(keep, n, m);
        }
        lemma_keep_counts(keep, keep.len() - 1);
        keep
    }
}

spec fn step_up(keep: Seq<int>, n: int) -> bool {
    keep[n - 1] < keep[n]
}

spec fn rises(keep: Seq<int>) -> bool {
    forall|n: int| 0 < n < keep.len() ==> #[trigger] step_up(keep, n)
}

proof fn lemma_keep_rises(board: Board, path: Seq<(usize, usize)>, keep: Seq<int>)
    requires
        kept_positions(board, path, keep),
    ensures
        rises(keep),
{
    assert forall|n: int| 0 < n < keep.len() implies #[trigger] step_up(keep, n) by {
        assert(keep[n - 1] < keep[n]);
    }
}

proof fn lemma_keep_grows(keep: Seq<int>, n: int, m: int)
    requires
        rises(keep),
        0 <= n < m < keep.len(),
    ensures
        keep[n] < keep[m],
    decreases m,
{
    assert(step_up(keep, m));
    if n < m - 1 {
        lemma_keep_grows(keep, n, m - 1);
    }
}

proof fn lemma_keep_counts(keep: Seq<int>, n: int)
    requires
        rises(keep),
        0 <= n < keep.len(),
        keep[0] == 0,
    ensures
        n <= keep[n],
    decreases n,
{
    if n > 0 {
        lemma_keep_counts(keep, n - 1);
        assert(step_up(keep, n));
    }
}

/// A path along which everything is in plain view from its first cell is reduced to its
/// two ends.
pub proof fn law_a_view_all_along_leaves_two_waypoints(
    board: Board,
    path: Seq<(usize, usize)>,
    thin: Seq<(usize, usize)>,
)
    requires
        is_simplified(board, path, thin),
        path.len() >= 2,
        forall|t: int|
            1 < t < path.len() ==> clear_line(board, as_cell(path[0]), as_cell(#[trigger] path[t])),
    ensures
        thin == seq![path[0], path.last()],
{
    if path.len() >= 3 {
        let keep = choose|keep: Seq<int>|
            #![trigger kept_positions(board, path, keep)]
            kept_positions(board, path, keep) && thin == Seq::new(
                keep.len(),
                |n: int| path[keep[n]],
            );
        if keep.len() > 2 {
            assert(keep[1] < path.len());
            lemma_keep_rises(board, path, keep);
            lemma_keep_grows(keep, 1, keep.len() - 1);
            assert(clear_line(board, as_cell(path[0]), as_cell(path[keep[1] + 1])));
        }
    }
    assert(thin =~= seq![path[0], path.last()]);
}

/// Between two free cells that a walk connects there is a plan, if the search may expand
/// every cell and the costs can be counted; and a walk that does not exist is not planned.
pub proof fn law_a_reachable_goal_is_planned(
    blocked: Seq<bool>,
    w: usize,
    h: usize,
    start: (usize, usize),
    goal: (usize, usize),
    cfg: PlannerConfig,
    found: Option<Seq<(usize, usize)>>,
)
    requires
        is_plan(blocked, w, h, start, goal, cfg, found),
        blocked.len() == w * h,
        w * h <= u32::MAX,
        start.0 < h && start.1 < w,
        goal.0 < h && goal.1 < w,
        !blocked[start.0 * w + start.1],
        !blocked[goal.0 * w + goal.1],
    ensures
        affordable(board_of(blocked, w, h), start, goal) && cfg.max_expansions >= w * h
            ==> found is Some,
        !reachable(board_of(blocked, w, h), start, goal) ==> found is None,
        found matches Some(thin) ==> thin.len() > 0 && thin[0] == start && thin.last() == goal,
{
    let board = board_of(blocked, w, h);
    let reach = cfg.inflate_cells * 2;
    assert(board.is_free(as_cell(start)));
    assert(board.is_free(as_cell(goal)));
    assert(0 < w && 0 < h);
    let (s, g, answer) = choose|
        s: (usize, usize),
        g: (usize, usize),
        answer: Option<Seq<(usize, usize)>>,
    |
        #![trigger search_answer(blocked, w, h, s, g, cfg.max_expansions, answer)]
        {
            &&& is_nearest_free(board, as_cell(start), reach, as_cell(s))
            &&& is_nearest_free(board, as_cell(goal), reach, as_cell(g))
            &&& search_answer(blocked, w, h, s, g, cfg.max_expansions, answer)
            &&& match answer {
                None => found is None,
                Some(path) => found matches Some(thin) && is_simplified(board, path, thin),
            }
        };
    law_nearest_free_is_nearest(board, as_cell(start), reach, as_cell(s), as_cell(s), 0);
    law_nearest_free_is_nearest(board, as_cell(goal), reach, as_cell(g), as_cell(g), 0);
    assert(s == start && g == goal);
    let si = index_of(board, start);
    let gi = index_of(board, goal);
    let rounds = choose|rounds: nat|
        #![trigger state_after(board, si, gi, rounds)]
        halts_after(board, si, gi, cfg.max_expansions as int, rounds) && is_answer(
            board,
            state_after(board, si, gi, rounds),
            si,
            gi,
            answer,
        );
    law_search_answers_with_a_cheapest_walk(
        board,
        start,
        goal,
        cfg.max_expansions as int,
        rounds,
        answer,
    );
    if let Some(path) = answer {
        let _ = law_reduction_is_a_subsequence(board, path, found->0);
    }
}

/// With no free cell near enough to the start, or none near enough to the goal, there is
/// no plan; near enough is twice the inflation.
pub proof fn law_no_free_end_no_plan(
    blocked: Seq<bool>,
    w: usize,
    h: usize,
    start: (usize, usize),
    goal: (usize, usize),
    cfg: PlannerConfig,
    found: Option<Seq<(usize, usize)>>,
    at_goal: bool,
)
    requires
        is_plan(blocked, w, h, start, goal, cfg, found),
        forall|x: (int, int)| #[trigger]
            board_of(blocked, w, h).is_free(x) ==> {
                let end = if at_goal {
                    as_cell(goal)
                } else {
                    as_cell(start)
                };
                x != end && (x.0 - end.0 > 2 * cfg.inflate_cells || end.0 - x.0 > 2
                    * cfg.inflate_cells || x.1 - end.1 > 2 * cfg.inflate_cells || end.1 - x.1 > 2
                    * cfg.inflate_cells)
            },
    ensures
        found is None,
{
    let board = board_of(blocked, w, h);
    let end = if at_goal {
        as_cell(goal)
    } else {
        as_cell(start)
    };
    assert(nothing_free(board, end, cfg.inflate_cells * 2));
}

} // verus!
