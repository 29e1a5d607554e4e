use vstd::prelude::*;
use crate::geometry::{Vec2, SUB};
use crate::maze::{ray_passable, Cell, MazeGrid};

verus! {

/// Distance reported by a ray that leaves the grid without meeting a wall.
pub const NO_HIT: u64 = 18446744073709551615;

/// Fixed marching increment, in world units.
pub const RAY_STEP: u64 = 10;

/// Bound on coordinates and on the grid's extent, in sub-units.
pub const COORD_LIMIT: i64 = 1099511627776;

/// Bound on the marching increment.
pub const MAX_STEP: u64 = 65536;

/// Where a ray stopped.
#[derive(Clone, Copy, Debug, PartialEq, Eq, Structural)]
pub struct Intersect {
    /// World units travelled, or `NO_HIT`.
    pub distance: u64,
    pub impact: Cell,
    pub hit_x: i64,
    pub hit_y: i64,
    /// The wall was entered across a column boundary.
    pub vertical_side: bool,
}

/// `dir` has length `SUB` up to the rounding of each coordinate, so a
/// sample `d` world units along it is `d` world units from the origin.
pub open spec fn unit_direction(dir: Vec2) -> bool {
    (SUB - 2) * (SUB - 2) <= dir.x * dir.x + dir.y * dir.y <= (SUB + 2) * (SUB + 2)
}

/// What a caller of `cast_ray` must establish.
pub open spec fn cast_inputs_ok(g: &MazeGrid, o: Vec2, dir: Vec2, cs: u64, step: u64) -> bool {
    &&& 1 <= cs
    &&& cs * SUB <= COORD_LIMIT
    &&& g.width as int * cs * SUB <= COORD_LIMIT
    &&& g.height() * cs * SUB <= COORD_LIMIT
    &&& -COORD_LIMIT <= o.x <= COORD_LIMIT
    &&& -COORD_LIMIT <= o.y <= COORD_LIMIT
    &&& -SUB <= dir.x <= SUB
    &&& -SUB <= dir.y <= SUB
    &&& (dir.x != 0 || dir.y != 0)
    &&& unit_direction(dir)
    &&& 1 <= step <= MAX_STEP
}

/// Coordinate of the `n`-th sample along one axis: `o + n * s`.
pub open spec fn pos_at(o: int, s: int, n: nat) -> int {
    o + n * s
}

/// Width of a cell in sub-units.
pub open spec fn span_of(cs: u64) -> int {
    cs * SUB
}

/// The cell under the `n`-th sample, `n * step` world units from `o`.
pub open spec fn sample_cell(g: &MazeGrid, o: Vec2, dir: Vec2, cs: u64, step: u64, n: nat) -> Option<Cell> {
    g.cell_at_point(pos_at(o.x as int, step * dir.x, n), pos_at(o.y as int, step * dir.y, n), cs as int)
}

/// The `n`-th sample ends the march: it is off the grid or inside a wall.
pub open spec fn stops_at(g: &MazeGrid, o: Vec2, dir: Vec2, cs: u64, step: u64, n: nat) -> bool {
    match sample_cell(g, o, dir, cs, step, n) {
        Some(c) => !ray_passable(c),
        None => true,
    }
}

/// The index of the first sample that ends the march.
pub open spec fn first_stop(g: &MazeGrid, o: Vec2, dir: Vec2, cs: u64, step: u64) -> nat {
    choose|n: nat| stops_at(g, o, dir, cs, step, n) && forall|k: nat| k < n ==> !#[trigger] stops_at(g, o, dir, cs, step, k)
}

/// The intersection a ray marched in steps of `step` from `o` along `dir` reports.
pub open spec fn cast_spec(g: &MazeGrid, o: Vec2, dir: Vec2, cs: u64, step: u64) -> Intersect {
    let n = first_stop(g, o, dir, cs, step);
    let x = pos_at(o.x as int, step * dir.x, n);
    let y = pos_at(o.y as int, step * dir.y, n);
    match sample_cell(g, o, dir, cs, step, n) {
        Some(c) => Intersect {
            distance: (n * step) as u64,
            impact: c,
            hit_x: x as i64,
            hit_y: y as i64,
            vertical_side: n > 0 && x / span_of(cs) != pos_at(o.x as int, step * dir.x, (n - 1) as nat) / span_of(cs),
        },
        None => Intersect { distance: NO_HIT, impact: Cell::Empty, hit_x: o.x, hit_y: o.y, vertical_side: false },
    }
}

/// A march that stops at `n` and at no earlier sample has `n` as its first stop.
pub proof fn lemma_first_stop_is(g: &MazeGrid, o: Vec2, dir: Vec2, cs: u64, step: u64, n: nat)
    requires
        stops_at(g, o, dir, cs, step, n),
        forall|k: nat| k < n ==> !#[trigger] stops_at(g, o, dir, cs, step, k),
    ensures
        first_stop(g, o, dir, cs, step) == n,
{
    let m = first_stop(g, o, dir, cs, step);
    assert(stops_at(g, o, dir, cs, step, m) && forall|k: nat| k < m ==> !#[trigger] stops_at(g, o, dir, cs, step, k));
    if m < n {
        assert(!stops_at(g, o, dir, cs, step, m));
    }
    if n < m {
        assert(!stops_at(g, o, dir, cs, step, n));
    }
}

proof fn lemma_pos_next(o: int, s: int, n: nat)
    ensures
        pos_at(o, s, n + 1) == pos_at(o, s, n) + s,
{
    assert((n + 1) * s == n * s + s) by (nonlinear_arith);
}

/// Along an axis that moves, the `n`-th sample is at least `n` sub-units from the origin.
proof fn lemma_pos_progress(o: int, s: int, n: nat)
    ensures
        s >= 1 ==> pos_at(o, s, n) >= o + n,
        s <= -1 ==> pos_at(o, s, n) <= o - n,
{
    if s >= 1 {
        assert(n * s >= n) by (nonlinear_arith) requires s >= 1;
    }
    if s <= -1 {
        assert(n * s <= -n) by (nonlinear_arith) requires s <= -1;
    }
}

proof fn lemma_scaled_bounds(a: int, b: int, lo: int, hi: int, blo: int, bhi: int)
    requires
        lo <= a <= hi,
        0 <= lo,
        blo <= b <= bhi,
        blo <= 0 <= bhi,
    ensures
        hi * blo <= a * b <= hi * bhi,
{
    assert(hi * blo <= a * b <= hi * bhi) by (nonlinear_arith)
        requires lo <= a <= hi, 0 <= lo, blo <= b <= bhi, blo <= 0 <= bhi;
}

/// How far a march still has to go before it must leave the grid.
pub open spec fn room(p: int, dp: int, hi: int) -> int {
    if dp > 0 {
        if p < hi { hi - p } else { 0 }
    } else {
        if p >= 0 { p + 1 } else { 0 }
    }
}

/// Marches from `origin` along `dir` in increments of `step` world units
/// until a sample leaves the grid or falls inside a wall.
pub fn cast_ray(maze: &MazeGrid, origin: Vec2, dir: Vec2, block_size: u64, step: u64) -> (r: Intersect)
    requires
        cast_inputs_ok(maze, origin, dir, block_size, step),
    ensures
        r == cast_spec(maze, origin, dir, block_size, step),
{
    let ghost sx = step * dir.x;
    let ghost sy = step * dir.y;
    proof {
        lemma_scaled_bounds(step as int, dir.x as int, 1, MAX_STEP as int, -SUB, SUB as int);
        lemma_scaled_bounds(step as int, dir.y as int, 1, MAX_STEP as int, -SUB, SUB as int);
        lemma_scaled_bounds(block_size as int, SUB as int, 1, COORD_LIMIT as int, 0, SUB as int);
        assert(maze.width <= maze.width as int * span_of(block_size)) by (nonlinear_arith)
            requires span_of(block_size) >= 1;
        assert(maze.height() <= maze.height() * span_of(block_size)) by (nonlinear_arith)
            requires span_of(block_size) >= 1;
        assert(maze.width as int * block_size * SUB == maze.width as int * span_of(block_size)) by (nonlinear_arith);
        assert(maze.height() * block_size * SUB == maze.height() * span_of(block_size)) by (nonlinear_arith);
        assert(block_size * SUB == span_of(block_size));
    }
    assert(dir.x > 0 ==> sx >= 1) by (nonlinear_arith) requires sx == step * dir.x, step >= 1;
    assert(dir.x < 0 ==> sx <= -1) by (nonlinear_arith) requires sx == step * dir.x, step >= 1;
    assert(dir.y > 0 ==> sy >= 1) by (nonlinear_arith) requires sy == step * dir.y, step >= 1;
    assert(dir.y < 0 ==> sy <= -1) by (nonlinear_arith) requires sy == step * dir.y, step >= 1;
    let span: i64 = (block_size as i64) * SUB;
    let xmax: i64 = (maze.width as i64) * span;
    let ymax: i64 = (maze.rows.len() as i64) * span;
    let sdx: i64 = (step as i64) * dir.x;
    let sdy: i64 = (step as i64) * dir.y;
    let mut d: u64 = 0;
    let mut px: i64 = origin.x;
    let mut py: i64 = origin.y;
    let mut prev_col: i64 = 0;
    let ghost mut n: nat = 0;
    loop
        invariant
            cast_inputs_ok(maze, origin, dir, block_size, step),
            span == span_of(block_size),
            SUB <= span <= COORD_LIMIT,
            xmax == maze.width as int * span,
            ymax == maze.height() * span,
            xmax <= COORD_LIMIT,
            ymax <= COORD_LIMIT,
            dir.x > 0 ==> sx >= 1,
            dir.x < 0 ==> sx <= -1,
            dir.y > 0 ==> sy >= 1,
            dir.y < 0 ==> sy <= -1,
            sdx == sx,
            sdy == sy,
            sx == step * dir.x,
            sy == step * dir.y,
            -MAX_STEP * SUB <= sx <= MAX_STEP * SUB,
            -MAX_STEP * SUB <= sy <= MAX_STEP * SUB,
            d == n * step,
            n <= 2 * COORD_LIMIT + 1,
            px == pos_at(origin.x as int, sx, n),
            py == pos_at(origin.y as int, sy, n),
            n > 0 ==> 0 <= px - sdx < xmax && 0 <= py - sdy < ymax,
            n > 0 ==> prev_col == (px - sdx) / (span as int),
            -COORD_LIMIT - MAX_STEP * SUB <= px <= COORD_LIMIT + MAX_STEP * SUB,
            -COORD_LIMIT - MAX_STEP * SUB <= py <= COORD_LIMIT + MAX_STEP * SUB,
            forall|k: nat| k < n ==> !#[trigger] stops_at(maze, origin, dir, block_size, step, k),
        decreases
            if dir.x != 0 { room(px as int, dir.x as int, xmax as int) } else { room(py as int, dir.y as int, ymax as int) },
    {
        let cell = maze.get_at_point(Vec2 { x: px, y: py }, block_size);
        assert(cell == sample_cell(maze, origin, dir, block_size, step, n));
        match cell {
            None => {
                proof {
                    lemma_first_stop_is(maze, origin, dir, block_size, step, n);
                }
                return Intersect { distance: NO_HIT, impact: Cell::Empty, hit_x: origin.x, hit_y: origin.y, vertical_side: false };
            },
            Some(c) => {
                proof {
                    assert(0 <= px < xmax && 0 <= py < ymax) by (nonlinear_arith)
                        requires px >= 0, py >= 0, px / span < maze.width, py / span < maze.height(), span > 0,
                            xmax == maze.width as int * span, ymax == maze.height() * span;
                }
                let col: i64 = ((px as u64) / (span as u64)) as i64;
                if !c.is_ray_passable() {
                    proof {
                        lemma_first_stop_is(maze, origin, dir, block_size, step, n);
                        assert(d > 0 <==> n > 0) by (nonlinear_arith) requires d == n * step, step >= 1;
                        if n > 0 {
                            lemma_pos_next(origin.x as int, sx, (n - 1) as nat);
                        }
                    }
                    return Intersect { distance: d, impact: c, hit_x: px, hit_y: py, vertical_side: d > 0 && col != prev_col };
                }
                proof {
                    lemma_pos_next(origin.x as int, sx, n);
                    lemma_pos_next(origin.y as int, sy, n);
                    // a moving axis bounds how many samples stay inside the grid
                    if dir.x != 0 {
                        lemma_pos_progress(origin.x as int, sx, n);
                    } else {
                        lemma_pos_progress(origin.y as int, sy, n);
                    }
                    assert(n <= 2 * COORD_LIMIT);
                    lemma_scaled_bounds(n as int + 1, step as int, 0, 2 * COORD_LIMIT + 1, 0, MAX_STEP as int);
                    assert(d + step == (n + 1) * step) by (nonlinear_arith) requires d == n * step;
                    assert(forall|k: nat| k < n + 1 ==> !#[trigger] stops_at(maze, origin, dir, block_size, step, k));
                }
                prev_col = col;
                d = d + step;
                px = px + sdx;
                py = py + sdy;
                proof {
                    n = n + 1;
                }
            },
        }
    }
}

/// A sample that lies in the grid is inside `[0, COORD_LIMIT)` on both axes.
proof fn lemma_in_grid_bounds(g: &MazeGrid, o: Vec2, dir: Vec2, cs: u64, step: u64, n: nat)
    requires
        cast_inputs_ok(g, o, dir, cs, step),
        sample_cell(g, o, dir, cs, step, n) is Some,
    ensures
        0 <= pos_at(o.x as int, step * dir.x, n) < COORD_LIMIT,
        0 <= pos_at(o.y as int, step * dir.y, n) < COORD_LIMIT,
{
    let x = pos_at(o.x as int, step * dir.x, n);
    let y = pos_at(o.y as int, step * dir.y, n);
    let sp = cs * SUB;
    assert(g.width as int * cs * SUB == g.width as int * sp) by (nonlinear_arith) requires sp == cs * SUB;
    assert(g.height() * cs * SUB == g.height() * sp) by (nonlinear_arith) requires sp == cs * SUB;
    assert(x < g.width as int * sp && y < g.height() * sp) by (nonlinear_arith)
        requires x >= 0, y >= 0, x / sp < g.width, y / sp < g.height(), sp >= 1;
}

/// Samples far enough along a moving axis are off the grid.
proof fn lemma_far_sample_stops(g: &MazeGrid, o: Vec2, dir: Vec2, cs: u64, step: u64)
    requires
        cast_inputs_ok(g, o, dir, cs, step),
    ensures
        stops_at(g, o, dir, cs, step, (2 * COORD_LIMIT) as nat),
{
    let n = (2 * COORD_LIMIT) as nat;
    if sample_cell(g, o, dir, cs, step, n) is Some {
        lemma_in_grid_bounds(g, o, dir, cs, step, n);
        lemma_pos_progress(o.x as int, step * dir.x, n);
        lemma_pos_progress(o.y as int, step * dir.y, n);
        assert(dir.x > 0 ==> step * dir.x >= 1) by (nonlinear_arith) requires step >= 1;
        assert(dir.x < 0 ==> step * dir.x <= -1) by (nonlinear_arith) requires step >= 1;
        assert(dir.y > 0 ==> step * dir.y >= 1) by (nonlinear_arith) requires step >= 1;
        assert(dir.y < 0 ==> step * dir.y <= -1) by (nonlinear_arith) requires step >= 1;
    }
}

/// Below any stopping sample lies a first one.
proof fn lemma_first_stop_below(g: &MazeGrid, o: Vec2, dir: Vec2, cs: u64, step: u64, k: nat)
    requires
        stops_at(g, o, dir, cs, step, k),
    ensures
        stops_at(g, o, dir, cs, step, first_stop(g, o, dir, cs, step)),
        forall|j: nat| j < first_stop(g, o, dir, cs, step) ==> !#[trigger] stops_at(g, o, dir, cs, step, j),
    decreases k,
{
    if exists|j: nat| j < k && stops_at(g, o, dir, cs, step, j) {
        let j = choose|j: nat| j < k && stops_at(g, o, dir, cs, step, j);
        lemma_first_stop_below(g, o, dir, cs, step, j);
    } else {
        lemma_first_stop_is(g, o, dir, cs, step, k);
    }
}

/// Every admissible march stops, and `first_stop` is its first stopping sample.
pub proof fn lemma_march_stops(g: &MazeGrid, o: Vec2, dir: Vec2, cs: u64, step: u64)
    requires
        cast_inputs_ok(g, o, dir, cs, step),
    ensures
        stops_at(g, o, dir, cs, step, first_stop(g, o, dir, cs, step)),
        forall|j: nat| j < first_stop(g, o, dir, cs, step) ==> !#[trigger] stops_at(g, o, dir, cs, step, j),
{
    lemma_far_sample_stops(g, o, dir, cs, step);
    lemma_first_stop_below(g, o, dir, cs, step, (2 * COORD_LIMIT) as nat);
}

/// A ray whose `n`-th sample is the first to fall outside passable grid cells,
/// and falls in a wall, reports a finite distance `n * step` and that wall.
pub proof fn lemma_wall_hit_reported(g: &MazeGrid, o: Vec2, dir: Vec2, cs: u64, step: u64, n: nat, w: u8)
    requires
        cast_inputs_ok(g, o, dir, cs, step),
        sample_cell(g, o, dir, cs, step, n) == Some(Cell::Wall(w)),
        forall|k: nat| k < n ==> (#[trigger] sample_cell(g, o, dir, cs, step, k) matches Some(c) && ray_passable(c)),
    ensures
        cast_spec(g, o, dir, cs, step).distance == n * step,
        cast_spec(g, o, dir, cs, step).distance < NO_HIT,
        cast_spec(g, o, dir, cs, step).impact == Cell::Wall(w),
{
    assert forall|k: nat| k < n implies !#[trigger] stops_at(g, o, dir, cs, step, k) by {
        assert(sample_cell(g, o, dir, cs, step, k) matches Some(c) && ray_passable(c));
    }
    lemma_first_stop_is(g, o, dir, cs, step, n);
    lemma_in_grid_bounds(g, o, dir, cs, step, n);
    lemma_pos_progress(o.x as int, step * dir.x, n);
    lemma_pos_progress(o.y as int, step * dir.y, n);
    assert(dir.x > 0 ==> step * dir.x >= 1) by (nonlinear_arith) requires step >= 1;
    assert(dir.x < 0 ==> step * dir.x <= -1) by (nonlinear_arith) requires step >= 1;
    assert(dir.y > 0 ==> step * dir.y >= 1) by (nonlinear_arith) requires step >= 1;
    assert(dir.y < 0 ==> step * dir.y <= -1) by (nonlinear_arith) requires step >= 1;
    assert(n <= 2 * COORD_LIMIT);
    lemma_scaled_bounds(n as int, step as int, 0, 2 * COORD_LIMIT, 0, MAX_STEP as int);
}

/// A ray whose samples all fall in empty or goal cells while on the grid
/// reports no hit.
pub proof fn lemma_open_ray_misses(g: &MazeGrid, o: Vec2, dir: Vec2, cs: u64, step: u64)
    requires
        cast_inputs_ok(g, o, dir, cs, step),
        forall|k: nat| (#[trigger] sample_cell(g, o, dir, cs, step, k) matches Some(c) ==> ray_passable(c)),
    ensures
        cast_spec(g, o, dir, cs, step).distance == NO_HIT,
{
    lemma_march_stops(g, o, dir, cs, step);
    let n = first_stop(g, o, dir, cs, step);
    assert(sample_cell(g, o, dir, cs, step, n) matches Some(c) ==> ray_passable(c));
}

/// The `n`-th sample point of a march.
pub open spec fn sample_point(o: Vec2, dir: Vec2, step: u64, n: nat) -> Vec2 {
    Vec2 { x: pos_at(o.x as int, step * dir.x, n) as i64, y: pos_at(o.y as int, step * dir.y, n) as i64 }
}

/// The points a ray passes through before it stops: every sample ahead of
/// the first one that is off the grid or inside a wall.
pub fn ray_samples(maze: &MazeGrid, origin: Vec2, dir: Vec2, block_size: u64, step: u64) -> (r: Vec<Vec2>)
    requires
        cast_inputs_ok(maze, origin, dir, block_size, step),
    ensures
        r@.len() == first_stop(maze, origin, dir, block_size, step),
        forall|k: int| 0 <= k < r@.len() ==> #[trigger] r@[k] == sample_point(origin, dir, step, k as nat),
        forall|k: int| 0 <= k < r@.len() ==> 0 <= (#[trigger] r@[k]).x < COORD_LIMIT && 0 <= r@[k].y < COORD_LIMIT,
{
    let ghost stop = first_stop(maze, origin, dir, block_size, step);
    proof {
        lemma_march_stops(maze, origin, dir, block_size, step);
        lemma_scaled_bounds(step as int, dir.x as int, 1, MAX_STEP as int, -SUB, SUB as int);
        lemma_scaled_bounds(step as int, dir.y as int, 1, MAX_STEP as int, -SUB, SUB as int);
    }
    let sdx: i64 = (step as i64) * dir.x;
    let sdy: i64 = (step as i64) * dir.y;
    let mut r: Vec<Vec2> = Vec::new();
    let mut px: i64 = origin.x;
    let mut py: i64 = origin.y;
    loop
        invariant
            cast_inputs_ok(maze, origin, dir, block_size, step),
            stop == first_stop(maze, origin, dir, block_size, step),
            stops_at(maze, origin, dir, block_size, step, stop),
            forall|j: nat| j < stop ==> !#[trigger] stops_at(maze, origin, dir, block_size, step, j),
            sdx == step * dir.x,
            sdy == step * dir.y,
            -MAX_STEP * SUB <= sdx <= MAX_STEP * SUB,
            -MAX_STEP * SUB <= sdy <= MAX_STEP * SUB,
            r@.len() <= stop,
            px == pos_at(origin.x as int, sdx as int, r@.len()),
            py == pos_at(origin.y as int, sdy as int, r@.len()),
            -COORD_LIMIT - MAX_STEP * SUB <= px <= COORD_LIMIT + MAX_STEP * SUB,
            -COORD_LIMIT - MAX_STEP * SUB <= py <= COORD_LIMIT + MAX_STEP * SUB,
            forall|k: int| 0 <= k < r@.len() ==> #[trigger] r@[k] == sample_point(origin, dir, step, k as nat),
            forall|k: int| 0 <= k < r@.len() ==> 0 <= (#[trigger] r@[k]).x < COORD_LIMIT && 0 <= r@[k].y < COORD_LIMIT,
        decreases stop - r@.len(),
    {
        let ghost n = r@.len();
        let cell = maze.get_at_point(Vec2 { x: px, y: py }, block_size);
        assert(cell == sample_cell(maze, origin, dir, block_size, step, n));
        let passable = match cell {
            Some(c) => c.is_ray_passable(),
            None => false,
        };
        if !passable {
            assert(stops_at(maze, origin, dir, block_size, step, n));
            return r;
        }
        proof {
            lemma_in_grid_bounds(maze, origin, dir, block_size, step, n);
            lemma_pos_next(origin.x as int, sdx as int, n);
            lemma_pos_next(origin.y as int, sdy as int, n);
        }
        r.push(Vec2 { x: px, y: py });
        px = px + sdx;
        py = py + sdy;
    }
}

} // verus!
