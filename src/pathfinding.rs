use vstd::prelude::*;
use vstd::set_lib::{lemma_int_range, lemma_len_subset, set_int_range};
use crate::grid::{Cell, GameData};

verus! {

/// Cost of an orthogonal step.
pub const STRAIGHT_COST: u128 = 10;

/// Cost of a diagonal step: ten times the square root of two, rounded.
pub const DIAGONAL_COST: u128 = 14;

/// Column offset of direction `d`; the eight directions run row by row from the upper left.
pub open spec fn dir_x(d: int) -> int {
    if d == 0 || d == 3 || d == 5 {
        -1
    } else if d == 1 || d == 6 {
        0
    } else {
        1
    }
}

/// Row offset of direction `d`.
pub open spec fn dir_y(d: int) -> int {
    if d <= 2 {
        -1
    } else if d <= 4 {
        0
    } else {
        1
    }
}

pub open spec fn abs_diff(a: int, b: int) -> int {
    if a >= b {
        a - b
    } else {
        b - a
    }
}

/// Two cells carry the same coordinates.
pub open spec fn same_place(a: Cell, b: Cell) -> bool {
    a.x == b.x && a.y == b.y
}

/// `a` and `b` are one king move apart: neighbours orthogonally or diagonally.
pub open spec fn king_step(a: Cell, b: Cell) -> bool {
    &&& abs_diff(a.x as int, b.x as int) <= 1
    &&& abs_diff(a.y as int, b.y as int) <= 1
    &&& !same_place(a, b)
}

/// Cost of one king move between `a` and `b`.
pub open spec fn step_cost(a: Cell, b: Cell) -> int {
    if a.x == b.x || a.y == b.y {
        STRAIGHT_COST as int
    } else {
        DIAGONAL_COST as int
    }
}

/// Manhattan distance between two cells, in cells (not scaled by the step cost).
pub open spec fn manhattan(a: Cell, b: Cell) -> int {
    abs_diff(a.x as int, b.x as int) + abs_diff(a.y as int, b.y as int)
}

/// `path` ends at `start` and moves by king moves; every cell but the last is an open cell
/// of the board.
pub open spec fn is_walk(game: &GameData, path: Seq<Cell>, start: Cell) -> bool {
    &&& path.len() >= 1
    &&& path.last() == start
    &&& forall|i: int| 0 <= i < path.len() ==> game.in_bounds(#[trigger] path[i].x as int, path[i].y as int)
    &&& forall|i: int|
        0 <= i < path.len() - 1 ==> #[trigger] path[i] == game.cell_at(path[i].x as int, path[i].y as int)
            && !path[i].solid
    &&& forall|i: int| 0 <= i < path.len() - 1 ==> king_step(#[trigger] path[i], path[i + 1])
}

/// `path` leads, goal first and start last, from `start` to `goal` by king moves; every cell
/// but the start is an open cell of the board.
pub open spec fn is_route(game: &GameData, path: Seq<Cell>, start: Cell, goal: Cell) -> bool {
    &&& is_walk(game, path, start)
    &&& same_place(path[0], goal)
}

/// Total cost of the steps of `path` from position `i` to its end.
pub open spec fn cost_from(path: Seq<Cell>, i: int) -> int
    decreases path.len() - i,
{
    if i < 0 || i >= path.len() - 1 {
        0
    } else {
        step_cost(path[i], path[i + 1]) + cost_from(path, i + 1)
    }
}

/// Total movement cost of `path`.
pub open spec fn route_cost(path: Seq<Cell>) -> int {
    cost_from(path, 0)
}

/// No two cells of `path` share coordinates.
pub open spec fn no_revisit(path: Seq<Cell>) -> bool {
    forall|i: int, j: int| 0 <= i < j < path.len() ==> !same_place(#[trigger] path[i], #[trigger] path[j])
}

/// Some route leads from `start` to `goal`.
pub open spec fn reachable(game: &GameData, start: Cell, goal: Cell) -> bool {
    exists|p: Seq<Cell>| is_route(game, p, start, goal)
}

/// Heuristic estimate of the remaining cost from `a` to `b`: their Manhattan distance.
pub fn heuristic(a: &Cell, b: &Cell) -> (r: u128)
    ensures
        r == manhattan(*a, *b),
{
    let dx: usize = if a.x >= b.x { a.x - b.x } else { b.x - a.x };
    let dy: usize = if a.y >= b.y { a.y - b.y } else { b.y - a.y };
    dx as u128 + dy as u128
}

/// A cell reached by the search, with its costs and the closed node it was reached from.
#[derive(Clone, Copy)]
struct PathNode {
    cell: Cell,
    g_cost: u128,
    h_cost: u128,
    f_cost: u128,
    came_from: Option<usize>,
}

/// Position of `(x, y)` in the row-major array of closed flags.
spec fn index_of(game: &GameData, x: int, y: int) -> int {
    y * game.width() + x
}

spec fn is_closed(game: &GameData, flags: Seq<bool>, x: int, y: int) -> bool {
    flags[index_of(game, x, y)]
}

spec fn in_open(open: Seq<PathNode>, x: int, y: int) -> bool {
    exists|j: int| 0 <= j < open.len() && open[j].cell.x == x && open[j].cell.y == y
}

/// The open set holds a node for `(x, y)` whose g-cost is at most `bound`.
spec fn in_open_le(open: Seq<PathNode>, x: int, y: int, bound: int) -> bool {
    exists|j: int| 0 <= j < open.len() && open[j].cell.x == x && open[j].cell.y == y && open[j].g_cost <= bound
}

/// Cost of a step in direction `d`.
spec fn dir_cost(d: int) -> int {
    if dir_x(d) == 0 || dir_y(d) == 0 {
        STRAIGHT_COST as int
    } else {
        DIAGONAL_COST as int
    }
}

/// The neighbour of the closed cell `(x, y)` in direction `d` is closed, or waits in the
/// open set no dearer than through `(x, y)`, unless it is off the board or solid.
spec fn covered_dir(
    game: &GameData,
    flags: Seq<bool>,
    gv: Seq<int>,
    open: Seq<PathNode>,
    x: int,
    y: int,
    d: int,
) -> bool {
    let nx = x + dir_x(d);
    let ny = y + dir_y(d);
    game.passable(nx, ny) ==> is_closed(game, flags, nx, ny) || in_open_le(
        open,
        nx,
        ny,
        gv[index_of(game, x, y)] + dir_cost(d),
    )
}

spec fn expanded_upto(
    game: &GameData,
    flags: Seq<bool>,
    gv: Seq<int>,
    open: Seq<PathNode>,
    x: int,
    y: int,
    upto: int,
) -> bool {
    forall|d: int| 0 <= d < upto ==> #[trigger] covered_dir(game, flags, gv, open, x, y, d)
}

/// No walk reaches a closed cell for less than the cost recorded for it.
spec fn closed_optimal(game: &GameData, start: Cell, flags: Seq<bool>, gv: Seq<int>, q: Seq<Cell>, i: int) -> bool {
    is_walk(game, q, start) && 0 <= i < q.len() && is_closed(game, flags, q[i].x as int, q[i].y as int) ==> gv[index_of(
        game,
        q[i].x as int,
        q[i].y as int,
    )] <= cost_from(q, i)
}

/// A node is on the board and is either the start, at no cost, or an open cell one king
/// move from the closed node `came_from`, which was closed before it, at that node's cost
/// plus the step.
spec fn node_ok(game: &GameData, start: Cell, closed: Seq<PathNode>, n: PathNode, bound: int) -> bool {
    &&& game.in_bounds(n.cell.x as int, n.cell.y as int)
    &&& match n.came_from {
        None => n.cell == start && n.g_cost == 0,
        Some(p) => {
            &&& 0 <= p < bound
            &&& n.cell == game.cell_at(n.cell.x as int, n.cell.y as int)
            &&& !n.cell.solid
            &&& king_step(n.cell, closed[p as int].cell)
            &&& n.g_cost == closed[p as int].g_cost + step_cost(n.cell, closed[p as int].cell)
        },
    }
}

/// The `k`-th closed node satisfies `node_ok`, its parent closed before it.
spec fn closed_ok(game: &GameData, start: Cell, closed: Seq<PathNode>, k: int) -> bool {
    node_ok(game, start, closed, closed[k], k)
}

/// The state of the search between two steps. Flags mark the closed cells; the open set
/// holds one node per cell, none closed; every closed cell other than `(cx, cy)` has had
/// all eight neighbours looked at, and `(cx, cy)` its first `upto`.
spec fn search_inv(
    game: &GameData,
    start: Cell,
    goal: Cell,
    flags: Seq<bool>,
    gv: Seq<int>,
    closed_ids: Set<int>,
    open: Seq<PathNode>,
    closed: Seq<PathNode>,
    cx: int,
    cy: int,
    upto: int,
) -> bool {
    &&& flags.len() == game.width() * game.height()
    &&& gv.len() == flags.len()
    &&& closed_ids.finite()
    &&& closed_ids.len() == closed.len()
    &&& closed_ids.len() <= flags.len()
    &&& forall|i: int| #[trigger] closed_ids.contains(i) <==> 0 <= i < flags.len() && flags[i]
    &&& forall|k: int|
        0 <= k < closed.len() ==> #[trigger] closed_ok(game, start, closed, k) && is_closed(
            game,
            flags,
            closed[k].cell.x as int,
            closed[k].cell.y as int,
        ) && gv[index_of(game, closed[k].cell.x as int, closed[k].cell.y as int)] == closed[k].g_cost
    &&& forall|q: Seq<Cell>, i: int| #[trigger] closed_optimal(game, start, flags, gv, q, i)
    &&& forall|i: int, j: int|
        0 <= i < j < closed.len() ==> !same_place(#[trigger] closed[i].cell, #[trigger] closed[j].cell)
    &&& closed.len() == 0 ==> open.len() == 1 && open[0].cell == start && open[0].came_from is None
    &&& closed.len() > 0 ==> closed[0].cell == start
    &&& forall|j: int|
        0 <= j < open.len() ==> {
            &&& node_ok(game, start, closed, #[trigger] open[j], closed.len() as int)
            &&& !is_closed(game, flags, open[j].cell.x as int, open[j].cell.y as int)
            &&& open[j].g_cost <= DIAGONAL_COST * closed.len()
            &&& open[j].h_cost <= manhattan(open[j].cell, goal)
            &&& open[j].came_from is Some ==> open[j].h_cost == manhattan(open[j].cell, goal)
            &&& open[j].f_cost == open[j].g_cost + open[j].h_cost
        }
    &&& forall|i: int, j: int|
        0 <= i < j < open.len() ==> !same_place(#[trigger] open[i].cell, #[trigger] open[j].cell)
    &&& !is_closed(game, flags, goal.x as int, goal.y as int)
    &&& forall|x: int, y: int|
        game.in_bounds(x, y) && #[trigger] is_closed(game, flags, x, y) ==> expanded_upto(
            game,
            flags,
            gv,
            open,
            x,
            y,
            if x == cx && y == cy {
                upto
            } else {
                8
            },
        )
}

proof fn lemma_index_bound(w: int, h: int, x: int, y: int)
    requires
        0 <= x < w,
        0 <= y < h,
    ensures
        0 <= y * w + x < w * h,
{
    assert(0 <= y * w) by (nonlinear_arith)
        requires
            0 <= y,
            0 <= w,
    ;
    assert((y + 1) * w == y * w + w) by (nonlinear_arith);
    assert((y + 1) * w <= h * w) by (nonlinear_arith)
        requires
            y + 1 <= h,
            0 <= w,
    ;
    assert(w * h == h * w) by (nonlinear_arith);
}

proof fn lemma_index_injective(w: int, x1: int, y1: int, x2: int, y2: int)
    requires
        0 <= x1 < w,
        0 <= x2 < w,
        0 <= y1,
        0 <= y2,
        y1 * w + x1 == y2 * w + x2,
    ensures
        x1 == x2 && y1 == y2,
{
    assert((y1 + 1) * w == y1 * w + w) by (nonlinear_arith);
    assert((y2 + 1) * w == y2 * w + w) by (nonlinear_arith);
    if y1 < y2 {
        assert((y1 + 1) * w <= y2 * w) by (nonlinear_arith)
            requires
                y1 + 1 <= y2,
                0 <= w,
        ;
    } else if y2 < y1 {
        assert((y2 + 1) * w <= y1 * w) by (nonlinear_arith)
            requires
                y2 + 1 <= y1,
                0 <= w,
        ;
    }
}

/// Any two king-adjacent positions are related by one of the eight directions.
proof fn lemma_king_dir(ax: int, ay: int, bx: int, by: int) -> (d: int)
    requires
        abs_diff(ax, bx) <= 1,
        abs_diff(ay, by) <= 1,
        ax != bx || ay != by,
    ensures
        0 <= d < 8,
        bx == ax + dir_x(d),
        by == ay + dir_y(d),
{
    let ddx = bx - ax;
    let ddy = by - ay;
    if ddy == -1 {
        if ddx == -1 {
            0
        } else if ddx == 0 {
            1
        } else {
            2
        }
    } else if ddy == 0 {
        if ddx == -1 {
            3
        } else {
            4
        }
    } else {
        if ddx == -1 {
            5
        } else if ddx == 0 {
            6
        } else {
            7
        }
    }
}

/// The neighbour of `(x, y)` in direction `d`, if it lies on the board.
fn neighbor(game: &GameData, x: usize, y: usize, d: usize) -> (r: Option<(usize, usize)>)
    requires
        game.wf(),
        game.in_bounds(x as int, y as int),
        d < 8,
    ensures
        match r {
            Some((nx, ny)) => nx == x + dir_x(d as int) && ny == y + dir_y(d as int) && game.in_bounds(
                nx as int,
                ny as int,
            ),
            None => !game.in_bounds(x + dir_x(d as int), y + dir_y(d as int)),
        },
{
    let w = game.board_size_x as usize;
    let h = game.board_size_y as usize;
    let nx: usize = if d == 0 || d == 3 || d == 5 {
        if x == 0 {
            return None;
        }
        x - 1
    } else if d == 1 || d == 6 {
        x
    } else {
        if x + 1 >= w {
            return None;
        }
        x + 1
    };
    let ny: usize = if d <= 2 {
        if y == 0 {
            return None;
        }
        y - 1
    } else if d <= 4 {
        y
    } else {
        if y + 1 >= h {
            return None;
        }
        y + 1
    };
    Some((nx, ny))
}

/// Cost of a step in direction `d`.
fn move_cost(d: usize) -> (r: u128)
    requires
        d < 8,
    ensures
        r == if dir_x(d as int) == 0 || dir_y(d as int) == 0 {
            STRAIGHT_COST
        } else {
            DIAGONAL_COST
        },
{
    if d == 1 || d == 3 || d == 4 || d == 6 {
        STRAIGHT_COST
    } else {
        DIAGONAL_COST
    }
}

/// Index of the first open node with the lowest f-cost.
fn lowest_f_index(open: &Vec<PathNode>) -> (r: usize)
    requires
        open.len() > 0,
    ensures
        r < open.len(),
        forall|j: int| 0 <= j < open.len() ==> open[r as int].f_cost <= #[trigger] open[j].f_cost,
        forall|j: int| 0 <= j < r ==> open[r as int].f_cost < #[trigger] open[j].f_cost,
{
    let mut lowest: usize = 0;
    let mut i: usize = 1;
    while i < open.len()
        invariant
            0 < i <= open.len(),
            lowest < i,
            forall|j: int| 0 <= j < i ==> open[lowest as int].f_cost <= #[trigger] open[j].f_cost,
            forall|j: int| 0 <= j < lowest ==> open[lowest as int].f_cost < #[trigger] open[j].f_cost,
        decreases open.len() - i,
    {
        if open[i].f_cost < open[lowest].f_cost {
            lowest = i;
        }
        i += 1;
    }
    lowest
}

/// Index of the open node for `(x, y)`, if there is one.
fn find_open(open: &Vec<PathNode>, x: usize, y: usize) -> (r: Option<usize>)
    ensures
        match r {
            Some(k) => k < open.len() && open[k as int].cell.x == x && open[k as int].cell.y == y,
            None => !in_open(open@, x as int, y as int),
        },
{
    let mut k: usize = 0;
    while k < open.len()
        invariant
            k <= open.len(),
            forall|j: int| 0 <= j < k ==> !(#[trigger] open[j].cell.x == x && open[j].cell.y == y),
        decreases open.len() - k,
    {
        if open[k].cell.x == x && open[k].cell.y == y {
            return Some(k);
        }
        k += 1;
    }
    None
}

/// Follows the predecessor links from `last` back to the start, collecting the cells.
#[verifier::rlimit(50)]
fn build_path(Ghost(game): Ghost<&GameData>, Ghost(start): Ghost<Cell>, closed: &Vec<PathNode>, last: PathNode) -> (path: Vec<Cell>)
    requires
        forall|k: int| 0 <= k < closed.len() ==> #[trigger] closed_ok(game, start, closed@, k),
        forall|i: int, j: int|
            0 <= i < j < closed.len() ==> !same_place(#[trigger] closed[i].cell, #[trigger] closed[j].cell),
        node_ok(game, start, closed@, last, closed.len() as int),
        forall|k: int| 0 <= k < closed.len() ==> !same_place(#[trigger] closed[k].cell, last.cell),
    ensures
        path@.len() >= 1,
        path@[0] == last.cell,
        path@.last() == start,
        last.came_from is None ==> path@ == seq![last.cell],
        forall|i: int| 0 <= i < path.len() ==> game.in_bounds(#[trigger] path@[i].x as int, path@[i].y as int),
        forall|i: int|
            0 <= i < path.len() - 1 ==> #[trigger] path@[i] == game.cell_at(path@[i].x as int, path@[i].y as int)
                && !path@[i].solid,
        forall|i: int| 0 <= i < path.len() - 1 ==> king_step(#[trigger] path@[i], path@[i + 1]),
        no_revisit(path@),
        route_cost(path@) == last.g_cost,
{
    let mut path: Vec<Cell> = Vec::new();
    path.push(last.cell);
    let mut node = last;
    let ghost mut idx: Seq<int> = seq![closed.len() as int];
    while node.came_from.is_some()
        invariant
            forall|k: int| 0 <= k < closed.len() ==> #[trigger] closed_ok(game, start, closed@, k),
            forall|i: int, j: int|
                0 <= i < j < closed.len() ==> !same_place(#[trigger] closed[i].cell, #[trigger] closed[j].cell),
            forall|k: int| 0 <= k < closed.len() ==> !same_place(#[trigger] closed[k].cell, last.cell),
            path@.len() >= 1,
            idx.len() == path@.len(),
            path@[0] == last.cell,
            idx[0] == closed.len(),
            path@.last() == node.cell,
            node_ok(game, start, closed@, node, idx.last()),
            0 <= idx.last() <= closed.len(),
            last.came_from is None ==> path@.len() == 1,
            path@.len() == 1 ==> node == last,
            forall|i: int| 1 <= i < idx.len() ==> 0 <= #[trigger] idx[i] < closed.len() && path@[i] == closed[idx[i]].cell,
            forall|i: int, j: int| 0 <= i < j < idx.len() ==> #[trigger] idx[j] < #[trigger] idx[i],
            forall|i: int| 0 <= i < path.len() ==> game.in_bounds(#[trigger] path@[i].x as int, path@[i].y as int),
            forall|i: int|
                0 <= i < path.len() - 1 ==> #[trigger] path@[i] == game.cell_at(path@[i].x as int, path@[i].y as int)
                    && !path@[i].solid,
            forall|i: int| 0 <= i < path.len() - 1 ==> king_step(#[trigger] path@[i], path@[i + 1]),
            no_revisit(path@),
            cost_from(path@, 0) + node.g_cost == last.g_cost,
        decreases idx.last(),
    {
        let p = node.came_from.unwrap();
        assert(closed_ok(game, start, closed@, p as int));
        let ghost old_path = path@;
        let ghost old_idx = idx;
        node = closed[p];
        path.push(node.cell);
        proof {
            lemma_cost_push(old_path, node.cell, 0);
            idx = idx.push(p as int);
            assert forall|i: int, j: int| 0 <= i < j < path.len() implies !same_place(
                #[trigger] path@[i],
                #[trigger] path@[j],
            ) by {
                if j == path.len() - 1 && i > 0 {
                    assert(old_idx[i] > old_idx[old_idx.len() - 1] || i == old_idx.len() - 1);
                }
                if j < path.len() - 1 {
                    assert(path@[i] == old_path[i] && path@[j] == old_path[j]);
                }
            }
            assert forall|i: int, j: int| 0 <= i < j < idx.len() implies #[trigger] idx[j] < #[trigger] idx[i] by {
                if j < idx.len() - 1 {
                    assert(idx[j] == old_idx[j] && idx[i] == old_idx[i]);
                } else if i < old_idx.len() - 1 {
                    assert(old_idx[old_idx.len() - 1] < old_idx[i]);
                }
            }
        }
    }
    path
}

proof fn lemma_open_remove(open: Seq<PathNode>, lowest: int, x: int, y: int, bound: int)
    requires
        0 <= lowest < open.len(),
        in_open_le(open, x, y, bound),
        !(open[lowest].cell.x == x && open[lowest].cell.y == y),
    ensures
        in_open_le(open.remove(lowest), x, y, bound),
{
    let j = choose|j: int|
        0 <= j < open.len() && open[j].cell.x == x && open[j].cell.y == y && open[j].g_cost <= bound;
    let open2 = open.remove(lowest);
    if j < lowest {
        assert(open2[j] == open[j]);
    } else {
        assert(open2[j - 1] == open[j]);
    }
}

proof fn lemma_open_grows(game: &GameData, flags: Seq<bool>, gv: Seq<int>, open1: Seq<PathNode>, open2: Seq<PathNode>)
    requires
        forall|x: int, y: int, b: int| #[trigger] in_open_le(open1, x, y, b) ==> in_open_le(open2, x, y, b),
    ensures
        forall|x: int, y: int, u: int|
            #[trigger] expanded_upto(game, flags, gv, open1, x, y, u) ==> expanded_upto(game, flags, gv, open2, x, y, u),
{
    assert forall|x: int, y: int, u: int| #[trigger] expanded_upto(game, flags, gv, open1, x, y, u) implies expanded_upto(
        game,
        flags,
        gv,
        open2,
        x,
        y,
        u,
    ) by {
        assert forall|d: int| 0 <= d < u implies #[trigger] covered_dir(game, flags, gv, open2, x, y, d) by {
            assert(covered_dir(game, flags, gv, open1, x, y, d));
        }
    }
}

proof fn lemma_cost_nonneg(q: Seq<Cell>, i: int)
    ensures
        cost_from(q, i) >= 0,
    decreases q.len() - i,
{
    if 0 <= i < q.len() - 1 {
        lemma_cost_nonneg(q, i + 1);
    }
}

/// Appending a cell adds one step to the cost from any earlier position.
proof fn lemma_cost_push(q: Seq<Cell>, c: Cell, i: int)
    requires
        0 <= i < q.len(),
    ensures
        cost_from(q.push(c), i) == cost_from(q, i) + step_cost(q.last(), c),
    decreases q.len() - i,
{
    let q2 = q.push(c);
    assert(q2[i] == q[i]);
    assert(q2[i + 1] == if i + 1 < q.len() {
        q[i + 1]
    } else {
        c
    });
    if i < q.len() - 1 {
        lemma_cost_push(q, c, i + 1);
    } else {
        assert(cost_from(q2, i + 1) == 0);
    }
}

/// The Manhattan distance to `goal` changes by at most the cost of the steps taken.
proof fn lemma_manhattan_consistent(game: &GameData, start: Cell, q: Seq<Cell>, goal: Cell, j: int, i: int)
    requires
        is_walk(game, q, start),
        0 <= j <= i < q.len(),
    ensures
        manhattan(q[i], goal) <= manhattan(q[j], goal) + cost_from(q, j) - cost_from(q, i),
    decreases i - j,
{
    if j < i {
        lemma_manhattan_consistent(game, start, q, goal, j, i - 1);
        assert(king_step(q[i - 1], q[i]));
    }
}

/// Along a walk from an unclosed cell to a closed one, some unclosed cell is followed by a closed one.
proof fn lemma_frontier(game: &GameData, flags: Seq<bool>, q: Seq<Cell>, i: int) -> (m: int)
    requires
        0 <= i < q.len(),
        !is_closed(game, flags, q[i].x as int, q[i].y as int),
        is_closed(game, flags, q.last().x as int, q.last().y as int),
    ensures
        i <= m < q.len() - 1,
        !is_closed(game, flags, q[m].x as int, q[m].y as int),
        is_closed(game, flags, q[m + 1].x as int, q[m + 1].y as int),
    decreases q.len() - i,
{
    if is_closed(game, flags, q[i + 1].x as int, q[i + 1].y as int) {
        i
    } else {
        lemma_frontier(game, flags, q, i + 1)
    }
}

/// The open node with the lowest f-cost is reached by no walk for less than its g-cost.
#[verifier::rlimit(50)]
proof fn lemma_pop_optimal(
    game: &GameData,
    start: Cell,
    goal: Cell,
    flags: Seq<bool>,
    gv: Seq<int>,
    closed_ids: Set<int>,
    open: Seq<PathNode>,
    closed: Seq<PathNode>,
    lowest: int,
    q: Seq<Cell>,
    i0: int,
)
    requires
        game.wf(),
        search_inv(game, start, goal, flags, gv, closed_ids, open, closed, goal.x as int, goal.y as int, 8),
        0 <= lowest < open.len(),
        forall|j: int| 0 <= j < open.len() ==> open[lowest].f_cost <= #[trigger] open[j].f_cost,
        is_walk(game, q, start),
        0 <= i0 < q.len(),
        same_place(q[i0], open[lowest].cell),
    ensures
        open[lowest].g_cost <= cost_from(q, i0),
{
    let n = open[lowest];
    lemma_cost_nonneg(q, i0);
    if closed.len() == 0 {
        return;
    }
    assert(closed_ok(game, start, closed, 0));
    assert(is_closed(game, flags, q.last().x as int, q.last().y as int));
    assert(!is_closed(game, flags, n.cell.x as int, n.cell.y as int));
    assert(n.came_from is Some);
    let m = lemma_frontier(game, flags, q, i0);
    let a = q[m + 1];
    let b = q[m];
    assert(closed_optimal(game, start, flags, gv, q, m + 1));
    assert(game.in_bounds(a.x as int, a.y as int));
    assert(king_step(q[m], q[m + 1]));
    let d = lemma_king_dir(a.x as int, a.y as int, b.x as int, b.y as int);
    assert(expanded_upto(game, flags, gv, open, a.x as int, a.y as int, 8));
    assert(covered_dir(game, flags, gv, open, a.x as int, a.y as int, d));
    assert(q[m] == game.cell_at(q[m].x as int, q[m].y as int));
    assert(game.in_bounds(b.x as int, b.y as int));
    let j = choose|j: int|
        0 <= j < open.len() && open[j].cell.x == b.x && open[j].cell.y == b.y && open[j].g_cost <= gv[index_of(
            game,
            a.x as int,
            a.y as int,
        )] + dir_cost(d);
    assert(open[j].g_cost <= cost_from(q, m));
    lemma_manhattan_consistent(game, start, q, goal, i0, m);
    assert(open[j].f_cost <= cost_from(q, m) + manhattan(q[m], goal));
}

/// Moving the chosen open node, which is not the goal, to the closed set keeps the state
/// consistent; its neighbours are then still to be looked at.
#[verifier::rlimit(100)]
proof fn lemma_close_current(
    game: &GameData,
    start: Cell,
    goal: Cell,
    flags: Seq<bool>,
    gv: Seq<int>,
    closed_ids: Set<int>,
    open: Seq<PathNode>,
    closed: Seq<PathNode>,
    lowest: int,
)
    requires
        game.wf(),
        search_inv(game, start, goal, flags, gv, closed_ids, open, closed, goal.x as int, goal.y as int, 8),
        game.in_bounds(goal.x as int, goal.y as int),
        0 <= lowest < open.len(),
        forall|j: int| 0 <= j < open.len() ==> open[lowest].f_cost <= #[trigger] open[j].f_cost,
        !same_place(open[lowest].cell, goal),
    ensures
        ({
            let cur = open[lowest];
            let cid = index_of(game, cur.cell.x as int, cur.cell.y as int);
            &&& 0 <= cid < flags.len()
            &&& search_inv(
                game,
                start,
                goal,
                flags.update(cid, true),
                gv.update(cid, cur.g_cost as int),
                closed_ids.insert(cid),
                open.remove(lowest),
                closed.push(cur),
                cur.cell.x as int,
                cur.cell.y as int,
                0,
            )
        }),
{
    let cur = open[lowest];
    let cx = cur.cell.x as int;
    let cy = cur.cell.y as int;
    let w = game.width();
    let h = game.height();
    let cid = index_of(game, cx, cy);
    let flags2 = flags.update(cid, true);
    let gv2 = gv.update(cid, cur.g_cost as int);
    let ids2 = closed_ids.insert(cid);
    let open2 = open.remove(lowest);
    let closed2 = closed.push(cur);
    assert(node_ok(game, start, closed, open[lowest], closed.len() as int));
    lemma_index_bound(w, h, cx, cy);
    assert forall|x: int, y: int| game.in_bounds(x, y) && !(x == cx && y == cy) implies is_closed(game, flags2, x, y)
        == is_closed(game, flags, x, y) && gv2[index_of(game, x, y)] == gv[index_of(game, x, y)] by {
        lemma_index_bound(w, h, x, y);
        if index_of(game, x, y) == cid {
            lemma_index_injective(w, x, y, cx, cy);
        }
    }
    assert forall|x: int, y: int| game.in_bounds(x, y) && is_closed(game, flags, x, y) implies is_closed(
        game,
        flags2,
        x,
        y,
    ) by {
        lemma_index_bound(w, h, x, y);
    }
    assert(!closed_ids.contains(cid));
    assert forall|i: int| #[trigger] ids2.contains(i) <==> 0 <= i < flags2.len() && flags2[i] by {
        assert(closed_ids.contains(i) <==> 0 <= i < flags.len() && flags[i]);
    }
    lemma_int_range(0, flags.len() as int);
    assert(ids2.subset_of(set_int_range(0, flags.len() as int)));
    lemma_len_subset(ids2, set_int_range(0, flags.len() as int));
    assert forall|k: int| 0 <= k < closed2.len() implies #[trigger] closed_ok(game, start, closed2, k) && is_closed(
        game,
        flags2,
        closed2[k].cell.x as int,
        closed2[k].cell.y as int,
    ) && gv2[index_of(game, closed2[k].cell.x as int, closed2[k].cell.y as int)] == closed2[k].g_cost by {
        if k < closed.len() {
            assert(closed_ok(game, start, closed, k));
            lemma_index_bound(w, h, closed[k].cell.x as int, closed[k].cell.y as int);
            assert(closed2[k] == closed[k]);
            if let Some(p) = closed[k].came_from {
                assert(closed2[p as int] == closed[p as int]);
            }
        } else {
            if let Some(p) = cur.came_from {
                assert(closed2[p as int] == closed[p as int]);
            }
        }
    }
    assert forall|i: int, j: int| 0 <= i < j < closed2.len() implies !same_place(
        #[trigger] closed2[i].cell,
        #[trigger] closed2[j].cell,
    ) by {
        if j == closed.len() {
            assert(closed_ok(game, start, closed, i));
        }
    }
    assert forall|j: int| 0 <= j < open2.len() implies {
        &&& node_ok(game, start, closed2, #[trigger] open2[j], closed2.len() as int)
        &&& !is_closed(game, flags2, open2[j].cell.x as int, open2[j].cell.y as int)
        &&& open2[j].g_cost <= DIAGONAL_COST * closed2.len()
        &&& open2[j].h_cost <= manhattan(open2[j].cell, goal)
        &&& open2[j].came_from is Some ==> open2[j].h_cost == manhattan(open2[j].cell, goal)
        &&& open2[j].f_cost == open2[j].g_cost + open2[j].h_cost
    } by {
        let jj = if j < lowest {
            j
        } else {
            j + 1
        };
        assert(open2[j] == open[jj]);
        assert(node_ok(game, start, closed, open[jj], closed.len() as int));
        if let Some(p) = open[jj].came_from {
            assert(closed2[p as int] == closed[p as int]);
        }
        if jj < lowest {
            assert(!same_place(open[jj].cell, open[lowest].cell));
        } else {
            assert(!same_place(open[lowest].cell, open[jj].cell));
        }
    }
    assert forall|i: int, j: int| 0 <= i < j < open2.len() implies !same_place(
        #[trigger] open2[i].cell,
        #[trigger] open2[j].cell,
    ) by {
        let ii = if i < lowest {
            i
        } else {
            i + 1
        };
        let jj = if j < lowest {
            j
        } else {
            j + 1
        };
        assert(open2[i] == open[ii] && open2[j] == open[jj]);
    }
    assert forall|q: Seq<Cell>, i: int| #[trigger] closed_optimal(game, start, flags2, gv2, q, i) by {
        if is_walk(game, q, start) && 0 <= i < q.len() && is_closed(game, flags2, q[i].x as int, q[i].y as int) {
            assert(game.in_bounds(q[i].x as int, q[i].y as int));
            if q[i].x == cx && q[i].y == cy {
                lemma_pop_optimal(game, start, goal, flags, gv, closed_ids, open, closed, lowest, q, i);
            } else {
                assert(closed_optimal(game, start, flags, gv, q, i));
            }
        }
    }
    assert forall|x: int, y: int| game.in_bounds(x, y) && #[trigger] is_closed(game, flags2, x, y) implies expanded_upto(
        game,
        flags2,
        gv2,
        open2,
        x,
        y,
        if x == cx && y == cy {
            0
        } else {
            8
        },
    ) by {
        if !(x == cx && y == cy) {
            assert(expanded_upto(game, flags, gv, open, x, y, 8));
            assert forall|d: int| 0 <= d < 8 implies #[trigger] covered_dir(game, flags2, gv2, open2, x, y, d) by {
                assert(covered_dir(game, flags, gv, open, x, y, d));
                let nx = x + dir_x(d);
                let ny = y + dir_y(d);
                if game.passable(nx, ny) && !is_closed(game, flags, nx, ny) && !(nx == cx && ny == cy) {
                    lemma_open_remove(open, lowest, nx, ny, gv[index_of(game, x, y)] + dir_cost(d));
                }
            }
        }
    }
}

/// Once all eight neighbours of `(cx, cy)` are looked at, every closed cell is fully expanded.
proof fn lemma_expansion_done(
    game: &GameData,
    start: Cell,
    goal: Cell,
    flags: Seq<bool>,
    gv: Seq<int>,
    closed_ids: Set<int>,
    open: Seq<PathNode>,
    closed: Seq<PathNode>,
    cx: int,
    cy: int,
)
    requires
        search_inv(game, start, goal, flags, gv, closed_ids, open, closed, cx, cy, 8),
    ensures
        search_inv(game, start, goal, flags, gv, closed_ids, open, closed, goal.x as int, goal.y as int, 8),
{
}

/// Every cell of a route is closed once the open set is empty, if its start is.
proof fn lemma_route_closed(
    game: &GameData,
    start: Cell,
    goal: Cell,
    flags: Seq<bool>,
    gv: Seq<int>,
    open: Seq<PathNode>,
    path: Seq<Cell>,
    i: int,
)
    requires
        open.len() == 0,
        is_route(game, path, start, goal),
        is_closed(game, flags, start.x as int, start.y as int),
        forall|x: int, y: int|
            game.in_bounds(x, y) && #[trigger] is_closed(game, flags, x, y) ==> expanded_upto(game, flags, gv, open, x, y, 8),
        0 <= i < path.len(),
    ensures
        is_closed(game, flags, path[i].x as int, path[i].y as int),
    decreases path.len() - i,
{
    if i < path.len() - 1 {
        lemma_route_closed(game, start, goal, flags, gv, open, path, i + 1);
        let a = path[i + 1];
        let b = path[i];
        assert(king_step(path[i], path[i + 1]));
        assert(game.in_bounds(a.x as int, a.y as int));
        assert(path[i] == game.cell_at(path[i].x as int, path[i].y as int));
        assert(game.in_bounds(b.x as int, b.y as int));
        let d = lemma_king_dir(a.x as int, a.y as int, b.x as int, b.y as int);
        assert(expanded_upto(game, flags, gv, open, a.x as int, a.y as int, 8));
        assert(covered_dir(game, flags, gv, open, a.x as int, a.y as int, d));
    }
}

/// Finds a cheapest route from `start_cell` to `end_cell` by A* search: steps cost ten
/// orthogonally and fourteen diagonally, the heuristic is the Manhattan distance, and ties
/// on the f-cost go to the node stored first. The route lists the goal first and the start
/// last. Solid cells are never stepped onto, but the start itself is not checked.
/// The board must be well formed with both endpoints on it, and its number of cells must
/// fit in `usize`, as the search keeps one closed flag per cell.
#[verifier::rlimit(100)]
pub fn find_path(game: &GameData, start_cell: &Cell, end_cell: &Cell) -> (r: Option<Vec<Cell>>)
    requires
        game.wf(),
        game.in_bounds(start_cell.x as int, start_cell.y as int),
        game.in_bounds(end_cell.x as int, end_cell.y as int),
        game.width() * game.height() <= usize::MAX,
    ensures
        r is Some <==> reachable(game, *start_cell, *end_cell),
        r matches Some(p) ==> is_route(game, p@, *start_cell, *end_cell) && no_revisit(p@),
        same_place(*start_cell, *end_cell) ==> (r matches Some(p) && p@ == seq![*start_cell]),
        r matches Some(p) ==> forall|q: Seq<Cell>|
            is_route(game, q, *start_cell, *end_cell) ==> route_cost(p@) <= #[trigger] route_cost(q),
{
    let w = game.board_size_x as usize;
    let h = game.board_size_y as usize;
    let n = w * h;
    let mut flags: Vec<bool> = Vec::new();
    while flags.len() < n
        invariant
            flags.len() <= n,
            forall|i: int| 0 <= i < flags.len() ==> !flags[i],
        decreases n - flags.len(),
    {
        flags.push(false);
    }
    let ghost mut closed_ids: Set<int> = Set::empty();
    let ghost mut gv: Seq<int> = Seq::new(n as nat, |i: int| 0);
    let mut open: Vec<PathNode> = Vec::new();
    let mut closed: Vec<PathNode> = Vec::new();
    open.push(PathNode { cell: *start_cell, g_cost: 0, h_cost: 0, f_cost: 0, came_from: None });
    proof {
        lemma_index_bound(w as int, h as int, end_cell.x as int, end_cell.y as int);
        lemma_index_bound(w as int, h as int, start_cell.x as int, start_cell.y as int);
        assert forall|x: int, y: int| game.in_bounds(x, y) implies !#[trigger] is_closed(game, flags@, x, y) by {
            lemma_index_bound(w as int, h as int, x, y);
        }
    }
    while open.len() > 0
        invariant
            game.wf(),
            game.in_bounds(start_cell.x as int, start_cell.y as int),
            game.in_bounds(end_cell.x as int, end_cell.y as int),
            w == game.width(),
            h == game.height(),
            n == w * h,
            search_inv(
                game,
                *start_cell,
                *end_cell,
                flags@,
                gv,
                closed_ids,
                open@,
                closed@,
                end_cell.x as int,
                end_cell.y as int,
                8,
            ),
        decreases n - closed_ids.len(),
    {
        let lowest = lowest_f_index(&open);
        let ghost open0 = open@;
        let current = open.remove(lowest);
        assert(current == open0[lowest as int]);
        assert(node_ok(game, *start_cell, closed@, current, closed.len() as int));
        if current.cell.x == end_cell.x && current.cell.y == end_cell.y {
            proof {
                assert forall|k: int| 0 <= k < closed.len() implies !same_place(
                    #[trigger] closed[k].cell,
                    current.cell,
                ) by {
                    assert(closed_ok(game, *start_cell, closed@, k));
                }
                if closed.len() > 0 {
                    assert(closed_ok(game, *start_cell, closed@, 0));
                }
            }
            let path = build_path(Ghost(game), Ghost(*start_cell), &closed, current);
            proof {
                assert forall|q: Seq<Cell>| is_route(game, q, *start_cell, *end_cell) implies route_cost(path@)
                    <= #[trigger] route_cost(q) by {
                    lemma_pop_optimal(
                        game,
                        *start_cell,
                        *end_cell,
                        flags@,
                        gv,
                        closed_ids,
                        open0,
                        closed@,
                        lowest as int,
                        q,
                        0,
                    );
                }
            }
            assert(is_route(game, path@, *start_cell, *end_cell));
            return Some(path);
        }
        proof {
            lemma_close_current(game, *start_cell, *end_cell, flags@, gv, closed_ids, open0, closed@, lowest as int);
            lemma_index_bound(w as int, h as int, current.cell.x as int, current.cell.y as int);
        }
        let cid = current.cell.y * w + current.cell.x;
        flags.set(cid, true);
        closed.push(current);
        proof {
            closed_ids = closed_ids.insert(cid as int);
            gv = gv.update(cid as int, current.g_cost as int);
            assert(closed_ok(game, *start_cell, closed@, closed.len() - 1));
        }
        let mut d: usize = 0;
        while d < 8
            invariant
                game.wf(),
                game.in_bounds(start_cell.x as int, start_cell.y as int),
                game.in_bounds(end_cell.x as int, end_cell.y as int),
                w == game.width(),
                h == game.height(),
                n == w * h,
                d <= 8,
                closed.len() > 0,
                closed@.last() == current,
                current.g_cost <= DIAGONAL_COST * (closed.len() - 1),
                game.in_bounds(current.cell.x as int, current.cell.y as int),
                closed_ids.len() <= n,
                gv[index_of(game, current.cell.x as int, current.cell.y as int)] == current.g_cost,
                search_inv(
                    game,
                    *start_cell,
                    *end_cell,
                    flags@,
                    gv,
                    closed_ids,
                    open@,
                    closed@,
                    current.cell.x as int,
                    current.cell.y as int,
                    d as int,
                ),
            decreases 8 - d,
        {
            let ghost open_before = open@;
            match neighbor(game, current.cell.x, current.cell.y, d) {
                None => {},
                Some((nx, ny)) => {
                    proof {
                        lemma_index_bound(w as int, h as int, nx as int, ny as int);
                    }
                    let nid = ny * w + nx;
                    if !flags[nid] && !game.board[ny][nx].solid {
                        let tentative = current.g_cost + move_cost(d);
                        let cell = game.board[ny][nx];
                        assert(cell == game.cell_at(nx as int, ny as int));
                        let hc = heuristic(&cell, end_cell);
                        let node = PathNode {
                            cell,
                            g_cost: tentative,
                            h_cost: hc,
                            f_cost: tentative + hc,
                            came_from: Some(closed.len() - 1),
                        };
                        assert(king_step(node.cell, closed@[closed.len() - 1].cell));
                        match find_open(&open, nx, ny) {
                            Some(k) => {
                                assert(open_before[k as int].cell.x == nx && open_before[k as int].cell.y == ny);
                                assert(in_open(open_before, nx as int, ny as int));
                                if open[k].g_cost > tentative {
                                    open.set(k, node);
                                    proof {
                                        assert forall|i: int, j: int| 0 <= i < j < open.len() implies !same_place(
                                            #[trigger] open@[i].cell,
                                            #[trigger] open@[j].cell,
                                        ) by {
                                            assert(same_place(open@[i].cell, open_before[i].cell));
                                            assert(same_place(open@[j].cell, open_before[j].cell));
                                        }
                                        assert forall|x: int, y: int, b: int| #[trigger] in_open_le(
                                            open_before,
                                            x,
                                            y,
                                            b,
                                        ) implies in_open_le(open@, x, y, b) by {
                                            let j = choose|j: int|
                                                0 <= j < open_before.len() && open_before[j].cell.x == x
                                                    && open_before[j].cell.y == y && open_before[j].g_cost <= b;
                                            assert(same_place(open@[j].cell, open_before[j].cell));
                                            assert(open@[j].g_cost <= open_before[j].g_cost);
                                        }
                                        assert(open@[k as int] == node);
                                    }
                                }
                            },
                            None => {
                                open.push(node);
                                proof {
                                    assert(open@[open.len() - 1] == node);
                                    assert(in_open(open@, nx as int, ny as int));
                                    assert forall|x: int, y: int, b: int| #[trigger] in_open_le(
                                        open_before,
                                        x,
                                        y,
                                        b,
                                    ) implies in_open_le(open@, x, y, b) by {
                                        let j = choose|j: int|
                                            0 <= j < open_before.len() && open_before[j].cell.x == x
                                                && open_before[j].cell.y == y && open_before[j].g_cost <= b;
                                        assert(open@[j] == open_before[j]);
                                    }
                                }
                            },
                        }
                        proof {
                            lemma_open_grows(game, flags@, gv, open_before, open@);
                            assert(in_open_le(open@, nx as int, ny as int, current.g_cost + dir_cost(d as int)));
                        }
                    }
                },
            }
            assert(covered_dir(game, flags@, gv, open@, current.cell.x as int, current.cell.y as int, d as int));
            d += 1;
        }
        proof {
            lemma_expansion_done(
                game,
                *start_cell,
                *end_cell,
                flags@,
                gv,
                closed_ids,
                open@,
                closed@,
                current.cell.x as int,
                current.cell.y as int,
            );
        }
    }
    proof {
        if reachable(game, *start_cell, *end_cell) {
            let p = choose|p: Seq<Cell>| is_route(game, p, *start_cell, *end_cell);
            assert(closed_ok(game, *start_cell, closed@, 0));
            lemma_route_closed(game, *start_cell, *end_cell, flags@, gv, open@, p, 0);
        }
        if same_place(*start_cell, *end_cell) {
            assert(closed_ok(game, *start_cell, closed@, 0));
        }
    }
    None
}

} // verus!
