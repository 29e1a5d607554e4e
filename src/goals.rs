use vstd::prelude::*;
use crate::caster::COORD_LIMIT;
use crate::geometry::{Vec2, SUB};
use crate::maze::{Cell, MazeGrid};

verus! {

/// A goal is picked up when the viewer comes within this many world units of its centre.
pub const PICKUP_RADIUS: i64 = 80;

/// Centre of cell column `i` (or row) in sub-units, for cells `cs` world units wide.
pub open spec fn cell_center(i: int, cs: int) -> int {
    i * cs * SUB + cs * SUB / 2
}

/// The viewer at `pos` is within the pickup radius of the goal in cell `g`.
pub open spec fn within_pickup(g: (usize, usize), pos: Vec2, cs: int) -> bool {
    let dx = cell_center(g.0 as int, cs) - pos.x;
    let dy = cell_center(g.1 as int, cs) - pos.y;
    dx * dx + dy * dy < (PICKUP_RADIUS * SUB) * (PICKUP_RADIUS * SUB)
}

pub open spec fn goals_in_range(goals: Seq<(usize, usize)>, cs: int) -> bool {
    forall|k: int| 0 <= k < goals.len() ==> (#[trigger] goals[k]).0 * cs * SUB <= COORD_LIMIT && goals[k].1 * cs * SUB <= COORD_LIMIT
}

/// Centre of the cell at column `i`, row `j`, in sub-units.
pub fn goal_center(i: usize, j: usize, block_size: u64) -> (c: Vec2)
    requires
        1 <= block_size,
        block_size * SUB <= COORD_LIMIT,
        i * block_size * SUB <= COORD_LIMIT,
        j * block_size * SUB <= COORD_LIMIT,
    ensures
        c.x == cell_center(i as int, block_size as int),
        c.y == cell_center(j as int, block_size as int),
{
    let span: i64 = block_size as i64 * SUB;
    proof {
        assert(i * span == i * block_size * SUB && j * span == j * block_size * SUB) by (nonlinear_arith)
            requires span == block_size * SUB;
        assert(i <= i * span && j <= j * span) by (nonlinear_arith) requires span >= 1;
    }
    (Vec2 { x: i as i64 * span + span / 2, y: j as i64 * span + span / 2 })
}

/// The first goal, in list order, within the pickup radius of `pos`.
pub fn find_collected(goals: &Vec<(usize, usize)>, pos: Vec2, block_size: u64) -> (r: Option<usize>)
    requires
        1 <= block_size,
        block_size * SUB <= COORD_LIMIT,
        goals_in_range(goals@, block_size as int),
        -COORD_LIMIT <= pos.x <= COORD_LIMIT,
        -COORD_LIMIT <= pos.y <= COORD_LIMIT,
    ensures
        match r {
            Some(k) => k < goals@.len() && within_pickup(goals@[k as int], pos, block_size as int)
                && forall|j: int| 0 <= j < k ==> !within_pickup(#[trigger] goals@[j], pos, block_size as int),
            None => forall|j: int| 0 <= j < goals@.len() ==> !within_pickup(#[trigger] goals@[j], pos, block_size as int),
        },
{
    let mut k: usize = 0;
    while k < goals.len()
        invariant
            k <= goals@.len(),
            1 <= block_size,
            block_size * SUB <= COORD_LIMIT,
            goals_in_range(goals@, block_size as int),
            -COORD_LIMIT <= pos.x <= COORD_LIMIT,
            -COORD_LIMIT <= pos.y <= COORD_LIMIT,
            forall|j: int| 0 <= j < k ==> !within_pickup(#[trigger] goals@[j], pos, block_size as int),
        decreases goals@.len() - k,
    {
        let g = goals[k];
        assert(goals_in_range(goals@, block_size as int) ==> g.0 * block_size * SUB <= COORD_LIMIT && g.1 * block_size * SUB <= COORD_LIMIT);
        let c = goal_center(g.0, g.1, block_size);
        let dx: i128 = c.x as i128 - pos.x as i128;
        let dy: i128 = c.y as i128 - pos.y as i128;
        proof {
            assert(c.x <= 2 * COORD_LIMIT && c.y <= 2 * COORD_LIMIT) by (nonlinear_arith)
                requires c.x == cell_center(g.0 as int, block_size as int), c.y == cell_center(g.1 as int, block_size as int),
                    g.0 * block_size * SUB <= COORD_LIMIT, g.1 * block_size * SUB <= COORD_LIMIT,
                    block_size * SUB <= COORD_LIMIT, block_size >= 1;
            assert(c.x >= 0 && c.y >= 0) by (nonlinear_arith)
                requires c.x == cell_center(g.0 as int, block_size as int), c.y == cell_center(g.1 as int, block_size as int),
                    g.0 >= 0, g.1 >= 0, block_size >= 1;
            assert(dx * dx <= 9 * COORD_LIMIT * COORD_LIMIT) by (nonlinear_arith) requires -3 * COORD_LIMIT <= dx <= 3 * COORD_LIMIT;
            assert(dy * dy <= 9 * COORD_LIMIT * COORD_LIMIT) by (nonlinear_arith) requires -3 * COORD_LIMIT <= dy <= 3 * COORD_LIMIT;
            assert(dx * dx >= 0 && dy * dy >= 0) by (nonlinear_arith);
        }
        let r2: i128 = (PICKUP_RADIUS * SUB) as i128;
        if dx * dx + dy * dy < r2 * r2 {
            return Some(k);
        }
        k += 1;
    }
    None
}

/// `a` comes before `b` in row-major order; cells are `(column, row)`.
pub open spec fn row_major_before(a: (usize, usize), b: (usize, usize)) -> bool {
    a.1 < b.1 || (a.1 == b.1 && a.0 < b.0)
}

/// `r` lists goal cells only, in row-major order.
pub open spec fn goal_list_ok(maze: &MazeGrid, r: Seq<(usize, usize)>) -> bool {
    &&& forall|k: int| 0 <= k < r.len() ==> maze.cell_at((#[trigger] r[k]).0 as int, r[k].1 as int) == Some(Cell::Goal)
    &&& forall|a: int, b: int| 0 <= a < b < r.len() ==> row_major_before(#[trigger] r[a], #[trigger] r[b])
}

/// Every goal cell of the maze, as `(column, row)`, in row-major order.
pub fn find_goals(maze: &MazeGrid) -> (r: Vec<(usize, usize)>)
    ensures
        goal_list_ok(maze, r@),
        forall|i: int, j: int| #[trigger] maze.cell_at(i, j) == Some(Cell::Goal) ==> r@.contains((i as usize, j as usize)),
{
    let mut r: Vec<(usize, usize)> = Vec::new();
    let mut j: usize = 0;
    while j < maze.rows.len()
        invariant
            j <= maze.rows@.len(),
            goal_list_ok(maze, r@),
            forall|k: int| 0 <= k < r@.len() ==> (#[trigger] r@[k]).1 < j,
            forall|a: int, b: int| 0 <= b < j && maze.cell_at(a, b) == Some(Cell::Goal) ==> r@.contains((a as usize, b as usize)),
        decreases maze.rows@.len() - j,
    {
        let mut i: usize = 0;
        while i < maze.width
            invariant
                j < maze.rows@.len(),
                i <= maze.width,
                goal_list_ok(maze, r@),
                forall|k: int| 0 <= k < r@.len() ==> row_major_before(#[trigger] r@[k], (i, j)),
                forall|a: int, b: int| (0 <= b < j || (b == j && 0 <= a < i)) && maze.cell_at(a, b) == Some(Cell::Goal)
                    ==> r@.contains((a as usize, b as usize)),
            decreases maze.width - i,
        {
            if maze.get(i, j) == Some(Cell::Goal) {
                let ghost prev = r@;
                assert(maze.cell_at(i as int, j as int) == Some(Cell::Goal));
                r.push((i, j));
                assert(r@[prev.len() as int] == (i, j));
                assert forall|a: int, b: int| (0 <= b < j || (b == j && 0 <= a < i + 1)) && maze.cell_at(a, b) == Some(Cell::Goal)
                    implies r@.contains((a as usize, b as usize)) by {
                    if b == j && a == i {
                        assert(r@[prev.len() as int] == (a as usize, b as usize));
                    } else {
                        assert(prev.contains((a as usize, b as usize)));
                        let k = choose|k: int| 0 <= k < prev.len() && prev[k] == (a as usize, b as usize);
                        assert(r@[k] == prev[k]);
                    }
                }
                assert forall|a: int, b: int| 0 <= a < b < r@.len() implies row_major_before(#[trigger] r@[a], #[trigger] r@[b]) by {
                    if b == prev.len() {
                        assert(row_major_before(prev[a], (i, j)));
                    } else {
                        assert(r@[a] == prev[a] && r@[b] == prev[b]);
                    }
                }
                assert forall|k: int| 0 <= k < r@.len() implies row_major_before(#[trigger] r@[k], ((i + 1) as usize, j)) by {
                    if k < prev.len() {
                        assert(r@[k] == prev[k]);
                    }
                }
            } else {
                assert(maze.cell_at(i as int, j as int) != Some(Cell::Goal));
            }
            i += 1;
        }
        j += 1;
    }
    r
}

} // verus!
