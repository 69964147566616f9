//! The mathematics behind the path search: the grid as a graph, the search
//! as a sequence of states, and why the path it ends with is a shortest one.

use vstd::prelude::*;
use vstd::arithmetic::div_mod::{
    lemma_fundamental_div_mod, lemma_fundamental_div_mod_converse, lemma_mod_bound,
    lemma_div_pos_is_pos,
};
use vstd::multiset::Multiset;
use crate::heap::{entry_le, is_lowest, lowest};

verus! {

/// Octile distance is counted in thousandths of a cell.
pub const COST_STRAIGHT: i32 = 1000;

pub const COST_DIAGONAL: i32 = 1414;

/// A rectangular mask of blocked cells, row by row.
pub struct Board {
    pub blocked: Seq<bool>,
    pub w: int,
    pub h: int,
}

pub open spec fn abs_diff(a: int, b: int) -> int {
    if a < b {
        b - a
    } else {
        a - b
    }
}

/// The octile distance between two cells.
pub open spec fn octile_spec(a: (int, int), b: (int, int)) -> int {
    let di = abs_diff(a.0, b.0);
    let dj = abs_diff(a.1, b.1);
    if di < dj {
        COST_STRAIGHT * (dj - di) + COST_DIAGONAL * di
    } else {
        COST_STRAIGHT * (di - dj) + COST_DIAGONAL * dj
    }
}

/// Saturating addition of two costs.
pub open spec fn capped_sum(a: int, b: int) -> int {
    if a + b > i32::MAX {
        i32::MAX as int
    } else {
        a + b
    }
}

/// The eight moves in the order in which they are tried: first the straight
/// ones, then the diagonal ones.
pub open spec fn offset(k: int) -> (int, int) {
    if k == 0 {
        (-1, 0)
    } else if k == 1 {
        (1, 0)
    } else if k == 2 {
        (0, -1)
    } else if k == 3 {
        (0, 1)
    } else if k == 4 {
        (-1, -1)
    } else if k == 5 {
        (-1, 1)
    } else if k == 6 {
        (1, -1)
    } else {
        (1, 1)
    }
}

pub open spec fn move_cost(k: int) -> int {
    if k < 4 {
        COST_STRAIGHT as int
    } else {
        COST_DIAGONAL as int
    }
}

impl Board {
    pub open spec fn valid(self) -> bool {
        self.w > 0 && self.h > 0 && self.blocked.len() == self.w * self.h
    }

    /// Where a cell stands in the mask.
    pub open spec fn at(self, i: int, j: int) -> int {
        i * self.w + j
    }

    pub open spec fn row(self, idx: int) -> int {
        idx / self.w
    }

    pub open spec fn col(self, idx: int) -> int {
        idx % self.w
    }

    pub open spec fn size(self) -> int {
        self.w * self.h
    }

    pub open spec fn contains(self, c: (int, int)) -> bool {
        0 <= c.0 < self.h && 0 <= c.1 < self.w
    }

    /// The cell lies in the grid and is not blocked.
    pub open spec fn is_free(self, c: (int, int)) -> bool {
        self.contains(c) && !self.blocked[self.at(c.0, c.1)]
    }

    /// The robot may go from `a` to `b` in one move: `b` is a free neighbour of
    /// `a`, and a diagonal move does not squeeze past a blocked corner.
    pub open spec fn step_allowed(self, a: (int, int), b: (int, int)) -> bool {
        &&& self.contains(a)
        &&& self.is_free(b)
        &&& -1 <= b.0 - a.0 <= 1
        &&& -1 <= b.1 - a.1 <= 1
        &&& a != b
        &&& a.0 != b.0 && a.1 != b.1 ==> self.is_free((a.0, b.1)) && self.is_free((b.0, a.1))
    }

    /// The mask index that move `k` leads to from `idx`, if the move is allowed.
    pub open spec fn neighbour(self, idx: int, k: int) -> Option<int> {
        let (di, dj) = offset(k);
        let i = self.row(idx);
        let j = self.col(idx);
        let ni = i + di;
        let nj = j + dj;
        if ni < 0 || nj < 0 || ni >= self.h || nj >= self.w {
            None
        } else if self.blocked[self.at(ni, nj)] {
            None
        } else if di != 0 && dj != 0 && (self.blocked[self.at(i, nj)] || self.blocked[self.at(
            ni,
            j,
        )]) {
            None
        } else {
            Some(self.at(ni, nj))
        }
    }

    /// The heuristic: octile distance from `idx` to `goal`.
    pub open spec fn rest(self, idx: int, goal: int) -> int {
        octile_spec((self.row(idx), self.col(idx)), (self.row(goal), self.col(goal)))
    }
}

/// The cost of one allowed move.
pub open spec fn step_cost(a: (int, int), b: (int, int)) -> int {
    if a.0 != b.0 && a.1 != b.1 {
        COST_DIAGONAL as int
    } else {
        COST_STRAIGHT as int
    }
}

pub open spec fn as_cell(c: (usize, usize)) -> (int, int) {
    (c.0 as int, c.1 as int)
}

/// A walk from `start` to `goal` by allowed moves.
pub open spec fn is_walk(
    board: Board,
    start: (usize, usize),
    goal: (usize, usize),
    path: Seq<(usize, usize)>,
) -> bool {
    &&& path.len() > 0
    &&& path[0] == start
    &&& path.last() == goal
    &&& forall|i: int|
        0 < i < path.len() ==> board.step_allowed(as_cell(path[i - 1]), as_cell(#[trigger] path[i]))
}

/// The total cost of a walk.
pub open spec fn walk_cost(path: Seq<(usize, usize)>) -> int
    decreases path.len(),
{
    if path.len() < 2 {
        0
    } else {
        walk_cost(path.drop_last()) + step_cost(
            as_cell(path[path.len() - 2]),
            as_cell(path[path.len() - 1]),
        )
    }
}

/// Some walk leads from `start` to `goal`.
pub open spec fn reachable(board: Board, start: (usize, usize), goal: (usize, usize)) -> bool {
    exists|path: Seq<(usize, usize)>| is_walk(board, start, goal, path)
}

/// No walk from `start` to `goal` is cheaper than `path`.
pub open spec fn is_cheapest(
    board: Board,
    start: (usize, usize),
    goal: (usize, usize),
    path: Seq<(usize, usize)>,
) -> bool {
    forall|other: Seq<(usize, usize)>|
        #[trigger] is_walk(board, start, goal, other) ==> walk_cost(path) <= walk_cost(other)
}

/// The dearest walk that can be told from no walk at all, with two moves to spare.
pub open spec fn dearest() -> int {
    i32::MAX - 2 * COST_DIAGONAL
}

/// Some walk from `start` to `goal` is cheap enough for its cost to be counted.
pub open spec fn affordable(board: Board, start: (usize, usize), goal: (usize, usize)) -> bool {
    exists|path: Seq<(usize, usize)>|
        #[trigger] is_walk(board, start, goal, path) && walk_cost(path) <= dearest()
}

/// The dearest move on a grid: in a single row or column there are no diagonal ones.
pub open spec fn dearest_move(w: int, h: int) -> int {
    if w <= 1 || h <= 1 {
        COST_STRAIGHT as int
    } else {
        COST_DIAGONAL as int
    }
}

/// Grids on which even a walk through all cells is cheap enough to be counted.
pub open spec fn costs_fit(w: int, h: int) -> bool {
    dearest_move(w, h) * (w * h - 1) <= dearest()
}

/// The state of the search between two expansions.
pub struct Search {
    /// The cheapest known cost from the start, `i32::MAX` where none is known.
    pub g: Seq<i32>,
    /// The cell from which that cost was reached, `u32::MAX` where none is known.
    pub from: Seq<u32>,
    /// The cells already expanded.
    pub closed: Seq<bool>,
    /// The queue of cells to look at, each with its estimated total cost.
    pub open: Multiset<(i32, u32)>,
    /// How many cells were expanded.
    pub expansions: int,
}

pub open spec fn first_state(board: Board, start: int, goal: int) -> Search {
    Search {
        g: Seq::new(
            board.size() as nat,
            |i: int|
                if i == start {
                    0i32
                } else {
                    i32::MAX
                },
        ),
        from: Seq::new(board.size() as nat, |i: int| u32::MAX),
        closed: Seq::new(board.size() as nat, |i: int| false),
        open: Multiset::<(i32, u32)>::empty().insert(
            (board.rest(start, goal) as i32, start as u32),
        ),
        expansions: 0,
    }
}

/// Tries move `k` from `cur`: a cheaper way to an unexpanded neighbour is noted
/// and the neighbour queued.
pub open spec fn relax(board: Board, goal: int, s: Search, cur: int, k: int) -> Search {
    match board.neighbour(cur, k) {
        None => s,
        Some(v) => {
            let cost = capped_sum(s.g[cur] as int, move_cost(k));
            if s.closed[v] || cost >= s.g[v] {
                s
            } else {
                Search {
                    g: s.g.update(v, cost as i32),
                    from: s.from.update(v, cur as u32),
                    open: s.open.insert(
                        (capped_sum(cost, board.rest(v, goal)) as i32, v as u32),
                    ),
                    ..s
                }
            }
        },
    }
}

/// Tries the first `k` moves from `cur`.
pub open spec fn relaxed(board: Board, goal: int, s: Search, cur: int, k: int) -> Search
    decreases k,
{
    if k <= 0 {
        s
    } else {
        relax(board, goal, relaxed(board, goal, s, cur, k - 1), cur, k - 1)
    }
}

/// The state with `cur` taken from the queue and marked as expanded.
pub open spec fn closing(s: Search, cur: int) -> Search {
    Search { closed: s.closed.update(cur, true), expansions: s.expansions + 1, ..s }
}

pub open spec fn popped(s: Search) -> Search {
    Search { open: s.open.remove(lowest(s.open)), ..s }
}

/// One round: the lowest queue entry leaves, and its cell is expanded unless it
/// already was.
pub open spec fn next_state(board: Board, goal: int, s: Search) -> Search {
    let cur = lowest(s.open).1 as int;
    if s.closed[cur] {
        popped(s)
    } else {
        relaxed(board, goal, closing(popped(s), cur), cur, 8)
    }
}

/// The search is over: the queue ran dry, the goal is next, or the next
/// expansion would be one too many.
pub open spec fn halted(s: Search, goal: int, max_expansions: int) -> bool {
    ||| s.open.len() == 0
    ||| lowest(s.open).1 == goal
    ||| !s.closed[lowest(s.open).1 as int] && s.expansions >= max_expansions
}

/// The state after `n` rounds.
pub open spec fn state_after(board: Board, start: int, goal: int, n: nat) -> Search
    decreases n,
{
    if n == 0 {
        first_state(board, start, goal)
    } else {
        next_state(board, goal, state_after(board, start, goal, (n - 1) as nat))
    }
}

/// The search halts after exactly `n` rounds.
pub open spec fn halts_after(
    board: Board,
    start: int,
    goal: int,
    max_expansions: int,
    n: nat,
) -> bool {
    &&& halted(state_after(board, start, goal, n), goal, max_expansions)
    &&& forall|m: nat|
        m < n ==> !halted(#[trigger] state_after(board, start, goal, m), goal, max_expansions)
}

/// `path` is what following `from` backwards out of `goal` gives.
pub open spec fn is_trace(
    board: Board,
    from: Seq<u32>,
    start: int,
    goal: int,
    path: Seq<(usize, usize)>,
) -> bool {
    &&& path.len() > 0
    &&& forall|i: int| 0 <= i < path.len() ==> board.contains(as_cell(#[trigger] path[i]))
    &&& index_of(board, path[0]) == start
    &&& index_of(board, path.last()) == goal
    &&& forall|i: int|
        0 < i < path.len() ==> index_of(board, #[trigger] path[i]) != start && from[index_of(
            board,
            path[i],
        )] == index_of(board, path[i - 1])
}

pub open spec fn index_of(board: Board, c: (usize, usize)) -> int {
    board.at(c.0 as int, c.1 as int)
}

/// What the search answers once it has halted in state `s`.
pub open spec fn is_answer(
    board: Board,
    s: Search,
    start: int,
    goal: int,
    answer: Option<Seq<(usize, usize)>>,
) -> bool {
    if s.open.len() > 0 && lowest(s.open).1 == goal {
        answer matches Some(path) && is_trace(board, s.from, start, goal, path)
    } else {
        answer is None
    }
}

// ---------------------------------------------------------------------------
// The grid
// ---------------------------------------------------------------------------

/// A mask index and its row and column determine each other.
pub proof fn lemma_index(board: Board, i: int, j: int)
    requires
        board.valid(),
        board.contains((i, j)),
    ensures
        0 <= board.at(i, j) < board.size(),
        board.row(board.at(i, j)) == i,
        board.col(board.at(i, j)) == j,
{
    lemma_fundamental_div_mod_converse(board.at(i, j), board.w, i, j);
    assert(i * board.w + j < board.w * board.h) by (nonlinear_arith)
        requires
            0 <= i < board.h,
            0 <= j < board.w,
    ;
    assert(i * board.w >= 0) by (nonlinear_arith)
        requires
            0 <= i,
            0 < board.w,
    ;
}

pub proof fn lemma_row_col(board: Board, idx: int)
    requires
        board.valid(),
        0 <= idx < board.size(),
    ensures
        board.contains((board.row(idx), board.col(idx))),
        board.at(board.row(idx), board.col(idx)) == idx,
{
    lemma_fundamental_div_mod(idx, board.w);
    lemma_mod_bound(idx, board.w);
    lemma_div_pos_is_pos(idx, board.w);
    let q = idx / board.w;
    assert(q < board.h) by (nonlinear_arith)
        requires
            idx == board.w * q + idx % board.w,
            0 <= idx % board.w,
            idx < board.w * board.h,
            board.w > 0,
    ;
    assert(board.w * q == q * board.w) by (nonlinear_arith);
}

pub proof fn lemma_neighbour(board: Board, u: int, k: int)
    requires
        board.valid(),
        0 <= u < board.size(),
        0 <= k < 8,
        board.neighbour(u, k) is Some,
    ensures
        ({
            let v = board.neighbour(u, k)->0;
            &&& 0 <= v < board.size()
            &&& v != u
            &&& board.row(v) == board.row(u) + offset(k).0
            &&& board.col(v) == board.col(u) + offset(k).1
            &&& board.step_allowed(
                (board.row(u), board.col(u)),
                (board.row(v), board.col(v)),
            )
            &&& step_cost((board.row(u), board.col(u)), (board.row(v), board.col(v))) == move_cost(
                k,
            )
        }),
{
    lemma_row_col(board, u);
    let (di, dj) = offset(k);
    lemma_index(board, board.row(u) + di, board.col(u) + dj);
}

/// Every allowed step is one of the eight moves.
pub proof fn lemma_step_is_a_move(board: Board, a: (int, int), b: (int, int)) -> (k: int)
    requires
        board.valid(),
        board.step_allowed(a, b),
    ensures
        0 <= k < 8,
        board.neighbour(board.at(a.0, a.1), k) == Some(board.at(b.0, b.1)),
        move_cost(k) == step_cost(a, b),
{
    lemma_index(board, a.0, a.1);
    lemma_index(board, b.0, b.1);
    let di = b.0 - a.0;
    let dj = b.1 - a.1;
    let k: int = if dj == 0 {
        if di == -1 {
            0
        } else {
            1
        }
    } else if di == 0 {
        if dj == -1 {
            2
        } else {
            3
        }
    } else if di == -1 {
        if dj == -1 {
            4
        } else {
            5
        }
    } else if dj == -1 {
        6
    } else {
        7
    };
    assert(offset(k) == (di, dj));
    k
}

/// The heuristic changes by no more than the move costs.
proof fn lemma_consistent(board: Board, goal: int, u: int, k: int)
    requires
        board.valid(),
        0 <= u < board.size(),
        0 <= k < 8,
        board.neighbour(u, k) is Some,
    ensures
        board.rest(u, goal) <= move_cost(k) + board.rest(board.neighbour(u, k)->0, goal),
        board.rest(board.neighbour(u, k)->0, goal) <= move_cost(k) + board.rest(u, goal),
{
    lemma_neighbour(board, u, k);
}

proof fn lemma_rest_bounds(board: Board, u: int, goal: int)
    requires
        board.valid(),
        0 <= u < board.size(),
        0 <= goal < board.size(),
    ensures
        0 <= board.rest(u, goal),
        board.rest(goal, goal) == 0,
{
    lemma_row_col(board, u);
    lemma_row_col(board, goal);
}

// ---------------------------------------------------------------------------
// What every state keeps
// ---------------------------------------------------------------------------

/// The cells already expanded, as a set.
pub open spec fn closed_set(s: Search) -> Set<int> {
    Set::new(|i: int| 0 <= i < s.closed.len() && s.closed[i])
}

/// The book-keeping that holds in every state.
pub open spec fn sound(board: Board, start: int, goal: int, s: Search) -> bool {
    let n = board.size();
    &&& board.valid()
    &&& 0 <= start < n
    &&& 0 <= goal < n
    &&& n <= u32::MAX
    &&& s.g.len() == n
    &&& s.from.len() == n
    &&& s.closed.len() == n
    &&& s.g[start] == 0
    &&& s.from[start] == u32::MAX
    &&& !s.closed[goal]
    &&& forall|v: int| 0 <= v < n ==> 0 <= #[trigger] s.g[v]
    &&& forall|v: int| 0 <= v < n && #[trigger] s.closed[v] ==> s.g[v] < i32::MAX
    &&& forall|v: int|
        0 <= v < n && v != start && #[trigger] s.g[v] < i32::MAX ==> reached_by(board, s, v)
    &&& forall|e: (i32, u32)| #[trigger] s.open.contains(e) ==> e.1 < n && s.g[e.1 as int] < i32::MAX
    &&& closed_set(s).finite()
    &&& closed_set(s).len() == s.expansions
}

/// The noted predecessor of `v` is expanded, one move away, and accounts for
/// the cost noted for `v`.
pub open spec fn reached_by(board: Board, s: Search, v: int) -> bool {
    let u = s.from[v] as int;
    &&& u < board.size()
    &&& s.closed[u]
    &&& exists|k: int|
        0 <= k < 8 && #[trigger] board.neighbour(u, k) == Some(v) && s.g[v] == s.g[u] + move_cost(k)
}

pub proof fn lemma_first_is_sound(board: Board, start: int, goal: int)
    requires
        board.valid(),
        0 <= start < board.size(),
        0 <= goal < board.size(),
        board.size() <= u32::MAX,
    ensures
        sound(board, start, goal, first_state(board, start, goal)),
{
    let s = first_state(board, start, goal);
    assert(closed_set(s) =~= Set::<int>::empty());
}

pub proof fn lemma_relax_is_sound(board: Board, start: int, goal: int, s: Search, cur: int, k: int)
    requires
        sound(board, start, goal, s),
        0 <= cur < board.size(),
        s.closed[cur],
        0 <= k < 8,
    ensures
        sound(board, start, goal, relax(board, goal, s, cur, k)),
        relax(board, goal, s, cur, k).closed == s.closed,
        relax(board, goal, s, cur, k).expansions == s.expansions,
{
    let t = relax(board, goal, s, cur, k);
    assert(closed_set(t) =~= closed_set(s));
    if t != s {
        let v = board.neighbour(cur, k)->0;
        lemma_neighbour(board, cur, k);
        assert(v != start);
        assert forall|x: int|
            0 <= x < board.size() && x != start && #[trigger] t.g[x] < i32::MAX implies reached_by(
            board,
            t,
            x,
        ) by {
            if x == v {
                assert(board.neighbour(cur, k) == Some(v));
            } else {
                assert(s.g[x] < i32::MAX);
                assert(reached_by(board, s, x));
                let u = s.from[x] as int;
                let m = choose|m: int|
                    0 <= m < 8 && #[trigger] board.neighbour(u, m) == Some(x) && s.g[x] == s.g[u]
                        + move_cost(m);
                assert(board.neighbour(u, m) == Some(x));
            }
        }
        assert forall|e: (i32, u32)| #[trigger] t.open.contains(e) implies e.1 < board.size()
            && t.g[e.1 as int] < i32::MAX by {
            if e.1 != v {
                assert(s.open.contains(e));
            }
        }
    }
}

pub proof fn lemma_relaxed_is_sound(board: Board, start: int, goal: int, s: Search, cur: int, k: int)
    requires
        sound(board, start, goal, s),
        0 <= cur < board.size(),
        s.closed[cur],
        0 <= k <= 8,
    ensures
        sound(board, start, goal, relaxed(board, goal, s, cur, k)),
        relaxed(board, goal, s, cur, k).closed == s.closed,
        relaxed(board, goal, s, cur, k).expansions == s.expansions,
    decreases k,
{
    if k > 0 {
        lemma_relaxed_is_sound(board, start, goal, s, cur, k - 1);
        lemma_relax_is_sound(
            board,
            start,
            goal,
            relaxed(board, goal, s, cur, k - 1),
            cur,
            k - 1,
        );
    }
}

proof fn lemma_lowest_exists(open: Multiset<(i32, u32)>)
    requires
        open.len() > 0,
    ensures
        is_lowest(open, lowest(open)),
    decreases open.len(),
{
    broadcast use vstd::multiset::group_multiset_axioms;

    let e = open.choose();
    assert(open.contains(e));
    let rest = open.remove(e);
    if rest.len() == 0 {
        assert forall|x: (i32, u32)| #[trigger] open.contains(x) implies entry_le(e, x) by {
            if x != e {
                assert(rest.count(x) == open.count(x));
                assert(rest.contains(x));
            }
        }
        assert(is_lowest(open, e));
    } else {
        lemma_lowest_exists(rest);
        let m = lowest(rest);
        let low = if entry_le(e, m) {
            e
        } else {
            m
        };
        assert(open.contains(m));
        assert forall|x: (i32, u32)| #[trigger] open.contains(x) implies entry_le(low, x) by {
            if x != e {
                assert(rest.count(x) == open.count(x));
                assert(rest.contains(x));
                assert(entry_le(m, x));
            }
        }
        assert(is_lowest(open, low));
    }
}

pub proof fn lemma_closing_is_sound(board: Board, start: int, goal: int, s: Search)
    requires
        sound(board, start, goal, s),
        s.open.len() > 0,
        lowest(s.open).1 != goal,
    ensures
        lowest(s.open).1 < board.size(),
        is_lowest(s.open, lowest(s.open)),
        sound(board, start, goal, popped(s)),
        !s.closed[lowest(s.open).1 as int] ==> sound(
            board,
            start,
            goal,
            closing(popped(s), lowest(s.open).1 as int),
        ),
{
    broadcast use vstd::multiset::group_multiset_axioms;

    lemma_lowest_exists(s.open);
    let e = lowest(s.open);
    let p = popped(s);
    assert(s.open.contains(e));
    assert(closed_set(p) =~= closed_set(s));
    assert forall|x: (i32, u32)| #[trigger] p.open.contains(x) implies x.1 < board.size()
        && p.g[x.1 as int] < i32::MAX by {
        assert(s.open.contains(x));
    }
    assert forall|x: int|
        0 <= x < board.size() && x != start && #[trigger] p.g[x] < i32::MAX implies reached_by(
        board,
        p,
        x,
    ) by {
        assert(s.g[x] < i32::MAX);
        assert(reached_by(board, s, x));
    }
    assert(sound(board, start, goal, p));
    let cur = e.1 as int;
    if !s.closed[cur] {
        let c = closing(p, cur);
        assert(closed_set(c) =~= closed_set(s).insert(cur));
        assert forall|x: int|
            0 <= x < board.size() && x != start && #[trigger] c.g[x] < i32::MAX implies reached_by(
            board,
            c,
            x,
        ) by {
            assert(p.g[x] < i32::MAX);
            assert(reached_by(board, p, x));
        }
    }
}

pub proof fn lemma_next_is_sound(board: Board, start: int, goal: int, s: Search)
    requires
        sound(board, start, goal, s),
        s.open.len() > 0,
        lowest(s.open).1 != goal,
    ensures
        sound(board, start, goal, next_state(board, goal, s)),
{
    lemma_closing_is_sound(board, start, goal, s);
    let cur = lowest(s.open).1 as int;
    if !s.closed[cur] {
        lemma_relaxed_is_sound(board, start, goal, closing(popped(s), cur), cur, 8);
    }
}

/// Expansions never outnumber the cells.
pub proof fn lemma_expansions_bounded(board: Board, start: int, goal: int, s: Search)
    requires
        sound(board, start, goal, s),
    ensures
        s.expansions < board.size(),
{
    let all = vstd::set_lib::set_int_range(0, board.size());
    vstd::set_lib::lemma_int_range(0, board.size());
    assert(closed_set(s).insert(goal).subset_of(all));
    vstd::set_lib::lemma_len_subset(closed_set(s).insert(goal), all);
}

// ---------------------------------------------------------------------------
// Why the answer is a shortest walk
// ---------------------------------------------------------------------------

// What holds while the moves from `cur` are being tried, the first `done` of them
// behind us; with `cur` negative, what holds between two rounds. No cell whose estimate
// is above the dearest walk has been expanded.
spec fn ranked(board: Board, goal: int, s: Search, cur: int, done: int) -> bool {
    let n = board.size();
    &&& forall|v: int|
        0 <= v < n && #[trigger] s.g[v] < i32::MAX ==> s.g[v] + board.rest(v, goal) <= i32::MAX
    &&& forall|v: int|
        0 <= v < n && #[trigger] s.closed[v] ==> s.g[v] + board.rest(v, goal) <= dearest()
    &&& forall|v: int|
        #![trigger s.closed[v]]
        0 <= v < n && !s.closed[v] && s.g[v] < i32::MAX ==> s.open.contains(
            ((s.g[v] + board.rest(v, goal)) as i32, v as u32),
        )
    &&& forall|e: (i32, u32)| #[trigger]
        s.open.contains(e) ==> e.0 >= s.g[e.1 as int] + board.rest(e.1 as int, goal)
    &&& forall|v: int, e: (i32, u32)|
        #![trigger s.closed[v], s.open.contains(e)]
        0 <= v < n && s.closed[v] && s.open.contains(e) ==> s.g[v] + board.rest(v, goal) <= e.0
    &&& forall|u: int, k: int|
        #![trigger board.neighbour(u, k)]
        0 <= u < n && s.closed[u] && 0 <= k < 8 && (u != cur || k < done) && board.neighbour(
            u,
            k,
        ) is Some ==> s.g[board.neighbour(u, k)->0] <= s.g[u] + move_cost(k)
    &&& cur >= 0 ==> forall|v: int|
        0 <= v < n && #[trigger] s.closed[v] ==> s.g[v] + board.rest(v, goal) <= s.g[cur]
            + board.rest(cur, goal)
}

proof fn lemma_first_is_ranked(board: Board, start: int, goal: int)
    requires
        board.valid(),
        0 <= start < board.size(),
        0 <= goal < board.size(),
        board.size() <= u32::MAX,
        board.rest(start, goal) <= dearest(),
    ensures
        ranked(board, goal, first_state(board, start, goal), -1, 0),
{
    lemma_rest_bounds(board, start, goal);
}

proof fn lemma_relax_is_ranked(board: Board, start: int, goal: int, s: Search, cur: int, k: int)
    requires
        sound(board, start, goal, s),
        ranked(board, goal, s, cur, k),
        0 <= cur < board.size(),
        s.closed[cur],
        0 <= k < 8,
    ensures
        ranked(board, goal, relax(board, goal, s, cur, k), cur, k + 1),
        relax(board, goal, s, cur, k).g[cur] == s.g[cur],
{
    let t = relax(board, goal, s, cur, k);
    assert(s.closed[cur]);
    if board.neighbour(cur, k) is Some {
        let v = board.neighbour(cur, k)->0;
        lemma_neighbour(board, cur, k);
        lemma_consistent(board, goal, cur, k);
        lemma_rest_bounds(board, v, goal);
        lemma_rest_bounds(board, cur, goal);
        if s.closed[v] {
            assert(s.g[v] <= s.g[cur] + move_cost(k));
        }
        if t != s {
            let cost = s.g[cur] + move_cost(k);
            assert(capped_sum(s.g[cur] as int, move_cost(k)) == cost);
            let f = cost + board.rest(v, goal);
            assert(capped_sum(cost, board.rest(v, goal)) == f);
            assert(t.g[v] == cost);
            assert forall|x: int|
                #![trigger t.closed[x]]
                0 <= x < board.size() && !t.closed[x] && t.g[x] < i32::MAX implies t.open.contains(
                ((t.g[x] + board.rest(x, goal)) as i32, x as u32),
            ) by {
                if x != v {
                    assert(!s.closed[x]);
                    assert(s.open.contains(((s.g[x] + board.rest(x, goal)) as i32, x as u32)));
                }
            }
            assert forall|e: (i32, u32)| #[trigger] t.open.contains(e) implies e.0 >= t.g[e.1 as int]
                + board.rest(e.1 as int, goal) by {
                if e != (f as i32, v as u32) {
                    assert(s.open.contains(e));
                }
            }
            assert forall|x: int, e: (i32, u32)|
                #![trigger t.closed[x], t.open.contains(e)]
                0 <= x < board.size() && t.closed[x] && t.open.contains(e) implies t.g[x]
                + board.rest(x, goal) <= e.0 by {
                assert(s.closed[x]);
                if e != (f as i32, v as u32) {
                    assert(s.open.contains(e));
                }
            }
            assert forall|u: int, m: int|
                #![trigger board.neighbour(u, m)]
                0 <= u < board.size() && t.closed[u] && 0 <= m < 8 && (u != cur || m < k + 1)
                    && board.neighbour(u, m) is Some implies t.g[board.neighbour(u, m)->0] <= t.g[u]
                + move_cost(m) by {
                if u != cur || m < k {
                    lemma_neighbour(board, u, m);
                    assert(s.g[board.neighbour(u, m)->0] <= s.g[u] + move_cost(m));
                }
            }
        }
    }
}

proof fn lemma_relaxed_is_ranked(board: Board, start: int, goal: int, s: Search, cur: int, k: int)
    requires
        sound(board, start, goal, s),
        ranked(board, goal, s, cur, 0),
        0 <= cur < board.size(),
        s.closed[cur],
        0 <= k <= 8,
    ensures
        ranked(board, goal, relaxed(board, goal, s, cur, k), cur, k),
        relaxed(board, goal, s, cur, k).g[cur] == s.g[cur],
    decreases k,
{
    if k > 0 {
        lemma_relaxed_is_ranked(board, start, goal, s, cur, k - 1);
        lemma_relaxed_is_sound(board, start, goal, s, cur, k - 1);
        lemma_relax_is_ranked(
            board,
            start,
            goal,
            relaxed(board, goal, s, cur, k - 1),
            cur,
            k - 1,
        );
    }
}

proof fn lemma_popped_queue(s: Search)
    requires
        is_lowest(s.open, lowest(s.open)),
    ensures
        forall|x: (i32, u32)| #[trigger]
            popped(s).open.contains(x) ==> s.open.contains(x) && entry_le(lowest(s.open), x),
        forall|x: (i32, u32)| #[trigger]
            s.open.contains(x) && x != lowest(s.open) ==> popped(s).open.contains(x),
{
    broadcast use vstd::multiset::group_multiset_axioms;

    assert forall|x: (i32, u32)| #[trigger] popped(s).open.contains(x) implies s.open.contains(x)
        && entry_le(lowest(s.open), x) by {
        assert(s.open.contains(x));
    }
}

proof fn lemma_skip_is_ranked(board: Board, start: int, goal: int, s: Search)
    requires
        sound(board, start, goal, s),
        ranked(board, goal, s, -1, 0),
        is_lowest(s.open, lowest(s.open)),
        s.closed[lowest(s.open).1 as int],
    ensures
        ranked(board, goal, popped(s), -1, 0),
{
    let e = lowest(s.open);
    let p = popped(s);
    lemma_popped_queue(s);
    assert forall|v: int|
        #![trigger p.closed[v]]
        0 <= v < board.size() && !p.closed[v] && p.g[v] < i32::MAX implies p.open.contains(
        ((p.g[v] + board.rest(v, goal)) as i32, v as u32),
    ) by {
        let x = ((s.g[v] + board.rest(v, goal)) as i32, v as u32);
        assert(!s.closed[v]);
        assert(s.open.contains(x));
        assert(x != e);
    }
    assert forall|v: int, x: (i32, u32)|
        #![trigger p.closed[v], p.open.contains(x)]
        0 <= v < board.size() && p.closed[v] && p.open.contains(x) implies p.g[v] + board.rest(
        v,
        goal,
    ) <= x.0 by {
        assert(s.closed[v] && s.open.contains(x));
    }
}

proof fn lemma_closing_is_ranked(board: Board, start: int, goal: int, s: Search)
    requires
        sound(board, start, goal, s),
        ranked(board, goal, s, -1, 0),
        is_lowest(s.open, lowest(s.open)),
        lowest(s.open).0 <= dearest(),
        !s.closed[lowest(s.open).1 as int],
    ensures
        ranked(
            board,
            goal,
            closing(popped(s), lowest(s.open).1 as int),
            lowest(s.open).1 as int,
            0,
        ),
{
    let e = lowest(s.open);
    let cur = e.1 as int;
    let c = closing(popped(s), cur);
    lemma_popped_queue(s);
    assert(s.open.contains(e));
    lemma_rest_bounds(board, cur, goal);
    let own = ((s.g[cur] + board.rest(cur, goal)) as i32, cur as u32);
    assert(s.open.contains(own));
    assert(entry_le(e, own));
    assert(e == own);
    assert forall|v: int|
        #![trigger c.closed[v]]
        0 <= v < board.size() && !c.closed[v] && c.g[v] < i32::MAX implies c.open.contains(
        ((c.g[v] + board.rest(v, goal)) as i32, v as u32),
    ) by {
        let x = ((s.g[v] + board.rest(v, goal)) as i32, v as u32);
        assert(!s.closed[v]);
        assert(s.open.contains(x));
        assert(x != e);
    }
    assert forall|v: int, x: (i32, u32)|
        #![trigger c.closed[v], c.open.contains(x)]
        0 <= v < board.size() && c.closed[v] && c.open.contains(x) implies c.g[v] + board.rest(
        v,
        goal,
    ) <= x.0 by {
        if v != cur {
            assert(s.closed[v] && s.open.contains(x));
        }
    }
    assert forall|v: int| 0 <= v < board.size() && #[trigger] c.closed[v] implies c.g[v]
        + board.rest(v, goal) <= c.g[cur] + board.rest(cur, goal) by {
        if v != cur {
            assert(s.closed[v] && s.open.contains(e));
        }
    }
}

proof fn lemma_next_is_ranked(board: Board, start: int, goal: int, s: Search)
    requires
        sound(board, start, goal, s),
        ranked(board, goal, s, -1, 0),
        s.open.len() > 0,
        lowest(s.open).0 <= dearest(),
        lowest(s.open).1 != goal,
    ensures
        ranked(board, goal, next_state(board, goal, s), -1, 0),
{
    lemma_closing_is_sound(board, start, goal, s);
    let cur = lowest(s.open).1 as int;
    if s.closed[cur] {
        lemma_skip_is_ranked(board, start, goal, s);
    } else {
        let c = closing(popped(s), cur);
        lemma_closing_is_ranked(board, start, goal, s);
        lemma_relaxed_is_ranked(board, start, goal, c, cur, 8);
    }
}

/// Every state that the search goes through is sound.
pub proof fn lemma_states_are_sound(
    board: Board,
    start: int,
    goal: int,
    max_expansions: int,
    n: nat,
)
    requires
        board.valid(),
        0 <= start < board.size(),
        0 <= goal < board.size(),
        board.size() <= u32::MAX,
        forall|m: nat|
            m < n ==> !halted(#[trigger] state_after(board, start, goal, m), goal, max_expansions),
    ensures
        sound(board, start, goal, state_after(board, start, goal, n)),
    decreases n,
{
    if n == 0 {
        lemma_first_is_sound(board, start, goal);
    } else {
        let m = (n - 1) as nat;
        lemma_states_are_sound(board, start, goal, max_expansions, m);
        assert(!halted(state_after(board, start, goal, m), goal, max_expansions));
        lemma_next_is_sound(board, start, goal, state_after(board, start, goal, m));
    }
}

proof fn lemma_states_are_ranked(
    board: Board,
    start: (usize, usize),
    goal: (usize, usize),
    max_expansions: int,
    n: nat,
    path: Seq<(usize, usize)>,
)
    requires
        board.valid(),
        board.contains(as_cell(start)),
        board.contains(as_cell(goal)),
        board.size() <= u32::MAX,
        is_walk(board, start, goal, path),
        walk_cost(path) <= dearest(),
        forall|m: nat|
            m < n ==> !halted(
                #[trigger] state_after(board, index_of(board, start), index_of(board, goal), m),
                index_of(board, goal),
                max_expansions,
            ),
    ensures
        ranked(
            board,
            index_of(board, goal),
            state_after(board, index_of(board, start), index_of(board, goal), n),
            -1,
            0,
        ),
    decreases n,
{
    let si = index_of(board, start);
    let gi = index_of(board, goal);
    lemma_index(board, start.0 as int, start.1 as int);
    lemma_index(board, goal.0 as int, goal.1 as int);
    if n == 0 {
        let last = path.len() - 1;
        lemma_rest_of_walk(board, start, goal, path, 0, last);
        lemma_rest_bounds(board, gi, gi);
        assert(path.take(path.len() as int) =~= path);
        assert(walk_cost(path.take(1)) == 0);
        lemma_first_is_ranked(board, si, gi);
    } else {
        let m = (n - 1) as nat;
        let s = state_after(board, si, gi, m);
        lemma_states_are_ranked(board, start, goal, max_expansions, m, path);
        lemma_states_are_sound(board, si, gi, max_expansions, m);
        assert(!halted(s, gi, max_expansions));
        lemma_cheaper_is_queued(board, start, goal, s, path);
        lemma_next_is_ranked(board, si, gi, s);
    }
}

// A walk either stays among expanded cells or leaves them through a queued one.
proof fn lemma_frontier(
    board: Board,
    start: (usize, usize),
    end: (usize, usize),
    goal: int,
    s: Search,
    path: Seq<(usize, usize)>,
    m: int,
) -> (j: int)
    requires
        board.contains(as_cell(start)),
        sound(board, index_of(board, start), goal, s),
        ranked(board, goal, s, -1, 0),
        is_walk(board, start, end, path),
        0 <= m < path.len(),
    ensures
        0 <= j <= m,
        board.contains(as_cell(path[j])),
        s.g[index_of(board, path[j])] < i32::MAX,
        s.g[index_of(board, path[j])] <= walk_cost(path.take(j + 1)),
        j < m ==> !s.closed[index_of(board, path[j])],
    decreases m,
{
    if m == 0 {
        lemma_index(board, start.0 as int, start.1 as int);
        0
    } else {
        let j = lemma_frontier(board, start, end, goal, s, path, m - 1);
        if j < m - 1 {
            j
        } else if !s.closed[index_of(board, path[j])] {
            j
        } else {
            let a = as_cell(path[m - 1]);
            let b = as_cell(path[m]);
            assert(board.step_allowed(a, b));
            let k = lemma_step_is_a_move(board, a, b);
            lemma_index(board, a.0, a.1);
            lemma_index(board, b.0, b.1);
            let u = board.at(a.0, a.1);
            assert(board.neighbour(u, k) is Some);
            lemma_rest_bounds(board, u, goal);
            assert(path.take(m + 1).drop_last() =~= path.take(m));
            assert(path.take(m + 1).last() == path[m]);
            assert(path.take(m + 1)[m - 1] == path[m - 1]);
            assert(s.closed[u]);
            assert(s.g[board.at(b.0, b.1)] <= s.g[u] + move_cost(k));
            m
        }
    }
}

// The heuristic does not exceed the cost of what is left of a walk.
proof fn lemma_rest_of_walk(
    board: Board,
    start: (usize, usize),
    end: (usize, usize),
    path: Seq<(usize, usize)>,
    j: int,
    m: int,
)
    requires
        board.valid(),
        board.contains(as_cell(start)),
        is_walk(board, start, end, path),
        0 <= j <= m < path.len(),
    ensures
        board.rest(index_of(board, path[j]), index_of(board, end)) + walk_cost(path.take(j + 1))
            <= walk_cost(path.take(m + 1)) + board.rest(
            index_of(board, path[m]),
            index_of(board, end),
        ),
    decreases m - j,
{
    if j < m {
        lemma_rest_of_walk(board, start, end, path, j, m - 1);
        let a = as_cell(path[m - 1]);
        let b = as_cell(path[m]);
        assert(board.step_allowed(a, b));
        let k = lemma_step_is_a_move(board, a, b);
        lemma_index(board, a.0, a.1);
        lemma_consistent(board, index_of(board, end), board.at(a.0, a.1), k);
        assert(path.take(m + 1).drop_last() =~= path.take(m));
        assert(path.take(m + 1)[m - 1] == path[m - 1]);
    }
}

// A trace is a walk that costs what is noted for its end.
proof fn lemma_trace_is_walk(
    board: Board,
    start: (usize, usize),
    goal: (usize, usize),
    s: Search,
    path: Seq<(usize, usize)>,
    m: int,
)
    requires
        board.contains(as_cell(start)),
        board.contains(as_cell(goal)),
        sound(board, index_of(board, start), index_of(board, goal), s),
        s.g[index_of(board, goal)] < i32::MAX,
        is_trace(board, s.from, index_of(board, start), index_of(board, goal), path),
        0 <= m < path.len(),
    ensures
        s.g[index_of(board, path[m])] < i32::MAX ==> walk_cost(path.take(m + 1)) == s.g[index_of(
            board,
            path[m],
        )],
        forall|i: int|
            0 < i <= m && s.g[index_of(board, path[m])] < i32::MAX ==> board.step_allowed(
                as_cell(path[i - 1]),
                as_cell(#[trigger] path[i]),
            ),
    decreases m,
{
    if m > 0 && s.g[index_of(board, path[m])] < i32::MAX {
        let v = index_of(board, path[m]);
        let u = index_of(board, path[m - 1]);
        lemma_index(board, path[m].0 as int, path[m].1 as int);
        lemma_index(board, path[m - 1].0 as int, path[m - 1].1 as int);
        assert(reached_by(board, s, v));
        let k = choose|k: int|
            0 <= k < 8 && #[trigger] board.neighbour(u, k) == Some(v) && s.g[v] == s.g[u]
                + move_cost(k);
        lemma_neighbour(board, u, k);
        lemma_trace_is_walk(board, start, goal, s, path, m - 1);
        assert(path.take(m + 1).drop_last() =~= path.take(m));
        assert(path.take(m + 1)[m - 1] == path[m - 1]);
    }
}

/// Two cells of the grid with one mask index are one cell.
pub proof fn lemma_same_index(board: Board, a: (usize, usize), b: (usize, usize))
    requires
        board.valid(),
        board.contains(as_cell(a)),
        board.contains(as_cell(b)),
        index_of(board, a) == index_of(board, b),
    ensures
        a == b,
{
    lemma_index(board, a.0 as int, a.1 as int);
    lemma_index(board, b.0 as int, b.1 as int);
}

/// The search finds a walk, and where some walk is affordable, a cheapest one. There
/// it answers `None` only when the cap on expansions cut it short, which a cap of one
/// expansion per cell never does.
pub proof fn law_search_answers_with_a_cheapest_walk(
    board: Board,
    start: (usize, usize),
    goal: (usize, usize),
    max_expansions: int,
    n: nat,
    answer: Option<Seq<(usize, usize)>>,
)
    requires
        board.valid(),
        board.contains(as_cell(start)),
        board.contains(as_cell(goal)),
        board.size() <= u32::MAX,
        halts_after(board, index_of(board, start), index_of(board, goal), max_expansions, n),
        is_answer(
            board,
            state_after(board, index_of(board, start), index_of(board, goal), n),
            index_of(board, start),
            index_of(board, goal),
            answer,
        ),
    ensures
        answer matches Some(path) ==> is_walk(board, start, goal, path),
        answer matches Some(path) ==> affordable(board, start, goal) ==> is_cheapest(
            board,
            start,
            goal,
            path,
        ),
        affordable(board, start, goal) && max_expansions >= board.size() ==> answer is Some,
{
    let si = index_of(board, start);
    let gi = index_of(board, goal);
    let s = state_after(board, si, gi, n);
    lemma_index(board, start.0 as int, start.1 as int);
    lemma_index(board, goal.0 as int, goal.1 as int);
    lemma_states_are_sound(board, si, gi, max_expansions, n);
    if let Some(path) = answer {
        lemma_lowest_exists(s.open);
        assert(s.open.contains(lowest(s.open)));
        lemma_trace_is_walk(board, start, goal, s, path, path.len() - 1);
        assert(path.take(path.len() as int) =~= path);
        lemma_same_index(board, path[0], start);
        lemma_same_index(board, path.last(), goal);
        assert(walk_cost(path) == s.g[gi]);
        if affordable(board, start, goal) {
            let cheap = choose|cheap: Seq<(usize, usize)>|
                #[trigger] is_walk(board, start, goal, cheap) && walk_cost(cheap) <= dearest();
            lemma_states_are_ranked(board, start, goal, max_expansions, n, cheap);
            assert forall|other: Seq<(usize, usize)>| #[trigger]
                is_walk(board, start, goal, other) implies walk_cost(path) <= walk_cost(other) by {
                lemma_cheaper_is_queued(board, start, goal, s, other);
                let e = lowest(s.open);
                lemma_rest_bounds(board, gi, gi);
                assert(e.0 >= s.g[gi]);
            }
        }
    }
    if affordable(board, start, goal) && max_expansions >= board.size() {
        let cheap = choose|cheap: Seq<(usize, usize)>|
            #[trigger] is_walk(board, start, goal, cheap) && walk_cost(cheap) <= dearest();
        lemma_states_are_ranked(board, start, goal, max_expansions, n, cheap);
        lemma_cheaper_is_queued(board, start, goal, s, cheap);
        lemma_expansions_bounded(board, si, gi, s);
    }
}

// While the goal is not expanded, every walk to it has a queued cell whose
// estimate the walk's cost does not undercut.
proof fn lemma_cheaper_is_queued(
    board: Board,
    start: (usize, usize),
    goal: (usize, usize),
    s: Search,
    path: Seq<(usize, usize)>,
)
    requires
        board.contains(as_cell(start)),
        board.contains(as_cell(goal)),
        sound(board, index_of(board, start), index_of(board, goal), s),
        ranked(board, index_of(board, goal), s, -1, 0),
        is_walk(board, start, goal, path),
    ensures
        s.open.len() > 0,
        lowest(s.open).0 <= walk_cost(path),
{
    broadcast use vstd::multiset::group_multiset_axioms;

    let gi = index_of(board, goal);
    let last = path.len() - 1;
    let j = lemma_frontier(board, start, goal, gi, s, path, last);
    let v = index_of(board, path[j]);
    lemma_index(board, path[j].0 as int, path[j].1 as int);
    lemma_rest_of_walk(board, start, goal, path, j, last);
    lemma_rest_bounds(board, gi, gi);
    lemma_rest_bounds(board, v, gi);
    assert(path.take(path.len() as int) =~= path);
    assert(!s.closed[v]);
    let x = ((s.g[v] + board.rest(v, gi)) as i32, v as u32);
    assert(s.open.contains(x));
    assert(s.open.count(x) > 0);
    lemma_lowest_exists(s.open);
    assert(entry_le(lowest(s.open), x));
}

// Leaving out what lies between two visits of one cell leaves a walk.
proof fn lemma_cut(
    board: Board,
    start: (usize, usize),
    goal: (usize, usize),
    path: Seq<(usize, usize)>,
    i: int,
    j: int,
)
    requires
        is_walk(board, start, goal, path),
        0 <= i < j < path.len(),
        path[i] == path[j],
    ensures
        is_walk(board, start, goal, path.take(i) + path.skip(j)),
        (path.take(i) + path.skip(j)).len() < path.len(),
{
    let short = path.take(i) + path.skip(j);
    assert forall|n: int| 0 < n < short.len() implies board.step_allowed(
        as_cell(short[n - 1]),
        as_cell(#[trigger] short[n]),
    ) by {
        if n < i {
            assert(short[n] == path[n]);
            assert(short[n - 1] == path[n - 1]);
        } else if n == i {
            assert(short[n] == path[j]);
            assert(short[n - 1] == path[i - 1]);
            assert(board.step_allowed(as_cell(path[i - 1]), as_cell(path[i])));
        } else {
            assert(short[n] == path[n - i + j]);
            assert(short[n - 1] == path[n - i + j - 1]);
        }
    }
    assert(short[0] == path[0]);
    assert(short.last() == path.last());
}

// A walk that visits no cell twice has no more cells than the grid.
proof fn lemma_simple_is_short(
    board: Board,
    start: (usize, usize),
    goal: (usize, usize),
    path: Seq<(usize, usize)>,
)
    requires
        board.valid(),
        board.contains(as_cell(start)),
        is_walk(board, start, goal, path),
        path.no_duplicates(),
    ensures
        path.len() <= board.size(),
{
    let indices = Seq::new(path.len(), |i: int| index_of(board, path[i]));
    assert forall|i: int| 0 <= i < path.len() implies board.contains(
        as_cell(#[trigger] path[i]),
    ) by {
        if i > 0 {
            assert(board.step_allowed(as_cell(path[i - 1]), as_cell(path[i])));
        }
    }
    assert forall|i: int, j: int|
        0 <= i < indices.len() && 0 <= j < indices.len() && i != j implies indices[i]
        != indices[j] by {
        if indices[i] == indices[j] {
            lemma_same_index(board, path[i], path[j]);
        }
    }
    assert(indices.no_duplicates());
    indices.unique_seq_to_set();
    let all = vstd::set_lib::set_int_range(0, board.size());
    vstd::set_lib::lemma_int_range(0, board.size());
    assert(indices.to_set().subset_of(all)) by {
        assert forall|x: int| indices.to_set().contains(x) implies all.contains(x) by {
            let i = choose|i: int| 0 <= i < indices.len() && indices[i] == x;
            lemma_index(board, path[i].0 as int, path[i].1 as int);
        }
    }
    vstd::set_lib::lemma_len_subset(indices.to_set(), all);
}

// Where there is a walk, there is one that visits no cell twice.
proof fn lemma_simple_walk(
    board: Board,
    start: (usize, usize),
    goal: (usize, usize),
    path: Seq<(usize, usize)>,
) -> (simple: Seq<(usize, usize)>)
    requires
        is_walk(board, start, goal, path),
    ensures
        is_walk(board, start, goal, simple),
        simple.no_duplicates(),
    decreases path.len(),
{
    if path.no_duplicates() {
        path
    } else {
        let (i, j) = choose|i: int, j: int|
            0 <= i < path.len() && 0 <= j < path.len() && i != j && path[i] == path[j];
        if i < j {
            lemma_cut(board, start, goal, path, i, j);
            lemma_simple_walk(board, start, goal, path.take(i) + path.skip(j))
        } else {
            lemma_cut(board, start, goal, path, j, i);
            lemma_simple_walk(board, start, goal, path.take(j) + path.skip(i))
        }
    }
}

// No move of a walk costs more than the dearest one.
proof fn lemma_walk_cost_bound(
    board: Board,
    start: (usize, usize),
    goal: (usize, usize),
    path: Seq<(usize, usize)>,
    m: int,
)
    requires
        is_walk(board, start, goal, path),
        0 < m <= path.len(),
    ensures
        walk_cost(path.take(m)) <= dearest_move(board.w, board.h) * (m - 1),
    decreases m,
{
    let each = dearest_move(board.w, board.h);
    if m > 1 {
        lemma_walk_cost_bound(board, start, goal, path, m - 1);
        assert(path.take(m).drop_last() =~= path.take(m - 1));
        let a = as_cell(path[m - 2]);
        let b = as_cell(path[m - 1]);
        assert(board.step_allowed(a, b));
        assert(step_cost(a, b) <= each);
        assert(each * (m - 1) == each * (m - 2) + each) by (nonlinear_arith);
    }
}

/// On a grid that its longest walk does not make too dear, whatever is reachable is
/// reachable by an affordable walk: there the search misses nothing.
pub proof fn law_reachable_is_affordable(
    board: Board,
    start: (usize, usize),
    goal: (usize, usize),
)
    requires
        board.valid(),
        board.contains(as_cell(start)),
        costs_fit(board.w, board.h),
        reachable(board, start, goal),
    ensures
        affordable(board, start, goal),
{
    let path = choose|path: Seq<(usize, usize)>| is_walk(board, start, goal, path);
    let simple = lemma_simple_walk(board, start, goal, path);
    lemma_simple_is_short(board, start, goal, simple);
    lemma_walk_cost_bound(board, start, goal, simple, simple.len() as int);
    assert(simple.take(simple.len() as int) =~= simple);
    let each = dearest_move(board.w, board.h);
    assert(each * (simple.len() - 1) <= each * (board.size() - 1)) by (nonlinear_arith)
        requires
            0 <= each,
            simple.len() <= board.size(),
    ;
    assert(is_walk(board, start, goal, simple));
}

// One cell closer to `to`, in rows, in columns or in both.
spec fn nearer(from: usize, to: usize) -> usize {
    if from < to {
        (from + 1) as usize
    } else if to < from {
        (from - 1) as usize
    } else {
        from
    }
}

// On a free grid the walk that goes diagonally while it can is as long as the octile
// distance.
proof fn lemma_free_walk(
    board: Board,
    start: (usize, usize),
    goal: (usize, usize),
) -> (path: Seq<(usize, usize)>)
    requires
        board.contains(as_cell(start)),
        board.contains(as_cell(goal)),
        forall|c: (int, int)| board.contains(c) ==> #[trigger] board.is_free(c),
    ensures
        is_walk(board, start, goal, path),
        walk_cost(path) == octile_spec(as_cell(start), as_cell(goal)),
    decreases abs_diff(start.0 as int, goal.0 as int) + abs_diff(start.1 as int, goal.1 as int),
{
    if start == goal {
        seq![start]
    } else {
        let before = (nearer(goal.0, start.0), nearer(goal.1, start.1));
        let most = lemma_free_walk(board, start, before);
        let path = most.push(goal);
        assert(path.drop_last() =~= most);
        let a = as_cell(before);
        let b = as_cell(goal);
        assert(board.is_free(b) && board.is_free((a.0, b.1)) && board.is_free((b.0, a.1)));
        assert(board.step_allowed(a, b));
        assert forall|i: int| 0 < i < path.len() implies board.step_allowed(
            as_cell(path[i - 1]),
            as_cell(#[trigger] path[i]),
        ) by {
            if i < most.len() {
                assert(path[i] == most[i]);
                assert(path[i - 1] == most[i - 1]);
            }
        }
        path
    }
}

/// The octile distance is symmetric, and nothing only between a cell and itself.
pub proof fn law_octile_is_a_distance(a: (int, int), b: (int, int))
    ensures
        octile_spec(a, b) == octile_spec(b, a),
        octile_spec(a, b) >= 0,
        octile_spec(a, b) == 0 <==> a == b,
{
}

/// No walk is cheaper than the octile distance between its ends.
pub proof fn law_octile_never_overestimates(
    board: Board,
    start: (usize, usize),
    goal: (usize, usize),
    path: Seq<(usize, usize)>,
)
    requires
        board.valid(),
        board.contains(as_cell(start)),
        is_walk(board, start, goal, path),
    ensures
        octile_spec(as_cell(start), as_cell(goal)) <= walk_cost(path),
{
    let last = path.len() - 1;
    lemma_rest_of_walk(board, start, goal, path, 0, last);
    assert(path.take(path.len() as int) =~= path);
    assert(walk_cost(path.take(1)) == 0);
    if last > 0 {
        assert(board.step_allowed(as_cell(path[last - 1]), as_cell(path[last])));
    }
    lemma_index(board, start.0 as int, start.1 as int);
    lemma_index(board, goal.0 as int, goal.1 as int);
}

/// Where nothing is blocked, the octile distance is what a cheapest walk costs.
pub proof fn law_octile_is_the_cost_on_a_free_grid(
    board: Board,
    start: (usize, usize),
    goal: (usize, usize),
    path: Seq<(usize, usize)>,
)
    requires
        board.valid(),
        board.contains(as_cell(start)),
        board.contains(as_cell(goal)),
        forall|c: (int, int)| board.contains(c) ==> #[trigger] board.is_free(c),
    ensures
        reachable(board, start, goal),
        octile_spec(as_cell(start), as_cell(goal)) <= dearest() ==> affordable(board, start, goal),
        is_walk(board, start, goal, path) && is_cheapest(board, start, goal, path) ==> walk_cost(
            path,
        ) == octile_spec(as_cell(start), as_cell(goal)),
{
    let free = lemma_free_walk(board, start, goal);
    assert(is_walk(board, start, goal, free));
    if is_walk(board, start, goal, path) && is_cheapest(board, start, goal, path) {
        law_octile_never_overestimates(board, start, goal, path);
    }
}

/// A move leads to one of the eight neighbours, which is free, and a diagonal one has
/// both cells beside it free; every such move is allowed.
pub proof fn law_moves_never_squeeze_past_a_corner(board: Board, a: (int, int), b: (int, int))
    requires
        0 <= a.0 < board.h && 0 <= a.1 < board.w,
        0 <= b.0 < board.h && 0 <= b.1 < board.w,
    ensures
        board.step_allowed(a, b) ==> {
            &&& a != b
            &&& a.0 - 1 <= b.0 <= a.0 + 1
            &&& a.1 - 1 <= b.1 <= a.1 + 1
            &&& !board.blocked[b.0 * board.w + b.1]
            &&& a.0 != b.0 && a.1 != b.1 ==> !board.blocked[a.0 * board.w + b.1]
                && !board.blocked[b.0 * board.w + a.1]
        },
        !board.blocked[b.0 * board.w + b.1] && a.0 == b.0 && (b.1 == a.1 + 1 || b.1 == a.1 - 1)
            ==> board.step_allowed(a, b),
        !board.blocked[b.0 * board.w + b.1] && a.1 == b.1 && (b.0 == a.0 + 1 || b.0 == a.0 - 1)
            ==> board.step_allowed(a, b),
        !board.blocked[b.0 * board.w + b.1] && !board.blocked[a.0 * board.w + b.1]
            && !board.blocked[b.0 * board.w + a.1] && (b.0 == a.0 + 1 || b.0 == a.0 - 1) && (b.1
            == a.1 + 1 || b.1 == a.1 - 1) ==> board.step_allowed(a, b),
{
}

/// A walk goes from its start to its goal over free cells of the grid, one neighbour at
/// a time.
pub proof fn law_walk_goes_over_free_cells(
    board: Board,
    start: (usize, usize),
    goal: (usize, usize),
    path: Seq<(usize, usize)>,
    i: int,
)
    requires
        is_walk(board, start, goal, path),
    ensures
        path.len() > 0,
        path[0] == start,
        path.last() == goal,
        0 < i < path.len() ==> {
            &&& path[i].0 < board.h
            &&& path[i].1 < board.w
            &&& !board.blocked[path[i].0 * board.w + path[i].1]
            &&& path[i] != path[i - 1]
            &&& path[i - 1].0 - 1 <= path[i].0 <= path[i - 1].0 + 1
            &&& path[i - 1].1 - 1 <= path[i].1 <= path[i - 1].1 + 1
        },
{
    if 0 < i < path.len() {
        assert(board.step_allowed(as_cell(path[i - 1]), as_cell(path[i])));
    }
}

/// A walk costs what it cost before its last move, and 1000 for that move, or 1414 if it
/// was diagonal.
pub proof fn law_walk_costs_add_up(path: Seq<(usize, usize)>, next: (usize, usize))
    requires
        path.len() > 0,
    ensures
        path.len() == 1 ==> walk_cost(path) == 0,
        walk_cost(path.push(next)) == walk_cost(path) + if path.last().0 != next.0 && path.last().1
            != next.1 {
            1414int
        } else {
            1000int
        },
{
    assert(path.push(next).drop_last() =~= path);
}

/// The octile distance: 1000 a cell along the longer side, and 414 more for each cell of
/// the shorter one.
pub proof fn law_octile_counts_both_sides(a: (int, int), b: (int, int))
    ensures
        a.0 == b.0 && a.1 <= b.1 ==> octile_spec(a, b) == 1000 * (b.1 - a.1),
        a.1 == b.1 && a.0 <= b.0 ==> octile_spec(a, b) == 1000 * (b.0 - a.0),
        a.0 <= b.0 && b.0 - a.0 <= b.1 - a.1 ==> octile_spec(a, b) == 1000 * (b.1 - a.1) + 414 * (b.0
            - a.0),
        a.1 <= b.1 && b.1 - a.1 <= b.0 - a.0 ==> octile_spec(a, b) == 1000 * (b.0 - a.0) + 414 * (b.1
            - a.1),
        octile_spec((-a.0, a.1), (-b.0, b.1)) == octile_spec(a, b),
        octile_spec((a.1, a.0), (b.1, b.0)) == octile_spec(a, b),
{
}

/// The search never expands more cells than it may: an answer was found within the
/// allowance, and a refusal in the face of a way out has used all of it.
pub proof fn law_search_stays_within_its_allowance(
    board: Board,
    start: (usize, usize),
    goal: (usize, usize),
    max_expansions: int,
    n: nat,
)
    requires
        board.valid(),
        board.contains(as_cell(start)),
        board.contains(as_cell(goal)),
        board.size() <= u32::MAX,
        0 <= max_expansions,
        halts_after(board, index_of(board, start), index_of(board, goal), max_expansions, n),
    ensures
        ({
            let s = state_after(board, index_of(board, start), index_of(board, goal), n);
            &&& closed_set(s).len() <= max_expansions
            &&& s.open.len() > 0 && lowest(s.open).1 != index_of(board, goal) ==> closed_set(s).len()
                == max_expansions
        }),
{
    let si = index_of(board, start);
    let gi = index_of(board, goal);
    lemma_index(board, start.0 as int, start.1 as int);
    lemma_index(board, goal.0 as int, goal.1 as int);
    lemma_allowance(board, si, gi, max_expansions, n);
}

proof fn lemma_allowance(board: Board, si: int, gi: int, max_expansions: int, n: nat)
    requires
        board.valid(),
        0 <= si < board.size(),
        0 <= gi < board.size(),
        board.size() <= u32::MAX,
        0 <= max_expansions,
        forall|m: nat| m < n ==> !halted(#[trigger] state_after(board, si, gi, m), gi, max_expansions),
    ensures
        sound(board, si, gi, state_after(board, si, gi, n)),
        state_after(board, si, gi, n).expansions <= max_expansions,
    decreases n,
{
    if n == 0 {
        lemma_first_is_sound(board, si, gi);
    } else {
        let m = (n - 1) as nat;
        lemma_allowance(board, si, gi, max_expansions, m);
        let s = state_after(board, si, gi, m);
        assert(!halted(s, gi, max_expansions));
        lemma_next_is_sound(board, si, gi, s);
        lemma_closing_is_sound(board, si, gi, s);
        let cur = lowest(s.open).1 as int;
        if !s.closed[cur] {
            lemma_relaxed_is_sound(board, si, gi, closing(popped(s), cur), cur, 8);
        }
    }
}

/// Costs add up, as far as they can be counted.
pub proof fn law_costs_are_summed(a: int, b: int)
    requires
        0 <= a,
        0 <= b,
    ensures
        a + b <= i32::MAX ==> capped_sum(a, b) == a + b,
        a + b > i32::MAX ==> capped_sum(a, b) == i32::MAX,
{
}

/// Trying a move notes a way that is cheaper than what was noted, at the cost of its
/// start and of the move, and nothing else changes; what was expanded or is as cheap
/// already stays.
pub proof fn law_only_cheaper_ways_are_noted(
    board: Board,
    goal: int,
    s: Search,
    cur: int,
    k: int,
    v: int,
    u: int,
)
    requires
        0 <= k < 8,
        board.neighbour(cur, k) == Some(v),
        0 <= v < s.g.len(),
        s.from.len() == s.g.len(),
        0 <= s.g[cur] < i32::MAX - 2000,
    ensures
        ({
            let cost = s.g[cur] + if k < 4 {
                1000int
            } else {
                1414int
            };
            let after = relax(board, goal, s, cur, k);
            &&& !s.closed[v] && cost < s.g[v] ==> after.g[v] == cost && after.from[v] == cur as u32
                && after.open.count(
                (capped_sum(cost, board.rest(v, goal)) as i32, v as u32),
            ) == s.open.count((capped_sum(cost, board.rest(v, goal)) as i32, v as u32)) + 1
            &&& s.closed[v] || cost >= s.g[v] ==> after == s
            &&& 0 <= u < s.g.len() && u != v ==> after.g[u] == s.g[u] && after.from[u] == s.from[u]
            &&& after.closed == s.closed
        }),
{
}

} // verus!
