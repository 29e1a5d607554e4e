use vstd::prelude::*;
use crate::caster::COORD_LIMIT;
use crate::geometry::{Vec2, SUB};
use crate::maze::{Cell, MazeGrid};

verus! {

/// A full turn in angle units (ten-thousandths of a radian).
pub const ANGLE_TURN: i64 = 62832;

/// Turn applied per tick while a turn key is held.
pub const ROTATION_SPEED: i64 = 3142;

/// Turn applied per pixel of horizontal pointer motion.
pub const MOUSE_SENSITIVITY: i64 = 30;

/// Unit sub-steps that make up one movement tick.
pub const MOVE_STEPS: u32 = 6;

/// Adds `delta` to `a` and brings the sum back into one turn by a single
/// addition or subtraction of `ANGLE_TURN`.
pub open spec fn wrap_once(a: int, delta: int) -> int {
    let s = a + delta;
    if s >= ANGLE_TURN {
        s - ANGLE_TURN
    } else if s < 0 {
        s + ANGLE_TURN
    } else {
        s
    }
}

/// The turn that one tick of input asks for.
pub open spec fn turn_of(left: bool, right: bool, mouse_dx: int) -> int {
    (if left { ROTATION_SPEED as int } else { 0 }) - (if right { ROTATION_SPEED as int } else { 0 })
        - mouse_dx * MOUSE_SENSITIVITY
}

/// The facing after one tick of input.
pub open spec fn facing_after(a: int, left: bool, right: bool, mouse_dx: int) -> int {
    wrap_once(a, turn_of(left, right, mouse_dx))
}

/// One tick of rotation input.
pub struct TurnInput {
    pub left: bool,
    pub right: bool,
    pub mouse_dx: i64,
}

/// The tick turns by less than a full turn, so one wrap brings the facing back.
pub open spec fn turn_input_ok(t: TurnInput) -> bool {
    -ANGLE_TURN < turn_of(t.left, t.right, t.mouse_dx as int) < ANGLE_TURN
}

/// The facing after a sequence of ticks, oldest first.
pub open spec fn facing_after_all(a: int, inputs: Seq<TurnInput>) -> int
    decreases inputs.len(),
{
    if inputs.len() == 0 {
        a
    } else {
        let last = inputs.last();
        facing_after(facing_after_all(a, inputs.drop_last()), last.left, last.right, last.mouse_dx as int)
    }
}

/// Applies one tick of rotation input to the facing angle `a`.
pub fn update_facing(a: i64, left: bool, right: bool, mouse_dx: i64) -> (r: i64)
    requires
        0 <= a < ANGLE_TURN,
        -ANGLE_TURN < turn_of(left, right, mouse_dx as int) < ANGLE_TURN,
    ensures
        r == facing_after(a as int, left, right, mouse_dx as int),
        0 <= r < ANGLE_TURN,
{
    let mut s: i64 = a;
    if left {
        s = s + ROTATION_SPEED;
    }
    if right {
        s = s - ROTATION_SPEED;
    }
    s = s - mouse_dx * MOUSE_SENSITIVITY;
    if s >= ANGLE_TURN {
        s = s - ANGLE_TURN;
    } else if s < 0 {
        s = s + ANGLE_TURN;
    }
    s
}

/// However many ticks of admissible input are applied, the facing stays within one turn.
pub proof fn lemma_facing_stays_in_turn(a: int, inputs: Seq<TurnInput>)
    requires
        0 <= a < ANGLE_TURN,
        forall|i: int| 0 <= i < inputs.len() ==> turn_input_ok(#[trigger] inputs[i]),
    ensures
        0 <= facing_after_all(a, inputs) < ANGLE_TURN,
    decreases inputs.len(),
{
    if inputs.len() > 0 {
        let rest = inputs.drop_last();
        assert forall|i: int| 0 <= i < rest.len() implies turn_input_ok(#[trigger] rest[i]) by {
            assert(rest[i] == inputs[i]);
        }
        lemma_facing_stays_in_turn(a, rest);
        assert(turn_input_ok(inputs[inputs.len() - 1]));
    }
}

/// What the movement functions need of their inputs.
pub open spec fn move_inputs_ok(g: &MazeGrid, pos: Vec2, cs: u64) -> bool {
    &&& 1 <= cs
    &&& cs * SUB <= COORD_LIMIT
    &&& g.width as int * cs * SUB <= COORD_LIMIT
    &&& g.height() * cs * SUB <= COORD_LIMIT
    &&& -COORD_LIMIT <= pos.x <= COORD_LIMIT
    &&& -COORD_LIMIT <= pos.y <= COORD_LIMIT
}

/// `pos + delta` when that point lies in an empty cell, else `pos`.
pub open spec fn step_spec(g: &MazeGrid, pos: Vec2, delta: Vec2, cs: u64) -> Vec2 {
    let t = Vec2 { x: (pos.x + delta.x) as i64, y: (pos.y + delta.y) as i64 };
    if g.cell_at_point(pos.x + delta.x, pos.y + delta.y, cs as int) == Some(Cell::Empty) {
        t
    } else {
        pos
    }
}

/// Moves from `pos` by `delta` when the target lies in an empty cell; otherwise stays.
pub fn try_step(maze: &MazeGrid, pos: Vec2, delta: Vec2, block_size: u64) -> (r: Vec2)
    requires
        move_inputs_ok(maze, pos, block_size),
        -COORD_LIMIT <= delta.x <= COORD_LIMIT,
        -COORD_LIMIT <= delta.y <= COORD_LIMIT,
    ensures
        r == step_spec(maze, pos, delta, block_size),
{
    let target = Vec2 { x: pos.x + delta.x, y: pos.y + delta.y };
    match maze.get_at_point(target, block_size) {
        Some(Cell::Empty) => target,
        _ => pos,
    }
}

/// A step into a wall leaves the position as it was; a step into an empty
/// cell lands exactly on the target.
pub proof fn lemma_step_outcomes(g: &MazeGrid, pos: Vec2, delta: Vec2, cs: u64)
    ensures
        g.cell_at_point(pos.x + delta.x, pos.y + delta.y, cs as int) matches Some(Cell::Wall(_))
            ==> step_spec(g, pos, delta, cs) == pos,
        g.cell_at_point(pos.x + delta.x, pos.y + delta.y, cs as int) == Some(Cell::Empty)
            ==> step_spec(g, pos, delta, cs) == (Vec2 { x: (pos.x + delta.x) as i64, y: (pos.y + delta.y) as i64 }),
{
}

/// `k` successive steps by `delta`.
pub open spec fn steps_spec(g: &MazeGrid, pos: Vec2, delta: Vec2, cs: u64, k: nat) -> Vec2
    decreases k,
{
    if k == 0 {
        pos
    } else {
        step_spec(g, steps_spec(g, pos, delta, cs, (k - 1) as nat), delta, cs)
    }
}

/// An accepted step lands in the grid, so positions stay within bounds.
proof fn lemma_step_in_bounds(g: &MazeGrid, pos: Vec2, delta: Vec2, cs: u64)
    requires
        move_inputs_ok(g, pos, cs),
        -SUB <= delta.x <= SUB,
        -SUB <= delta.y <= SUB,
    ensures
        move_inputs_ok(g, step_spec(g, pos, delta, cs), cs),
{
    let x = pos.x + delta.x;
    let y = pos.y + delta.y;
    if g.cell_at_point(x, y, cs as int) == Some(Cell::Empty) {
        let sp = cs * SUB;
        assert(g.width as int * cs * SUB == g.width as int * sp) by (nonlinear_arith) requires sp == cs * SUB;
        assert(g.height() * cs * SUB == g.height() * sp) by (nonlinear_arith) requires sp == cs * SUB;
        assert(x < g.width as int * sp && y < g.height() * sp) by (nonlinear_arith)
            requires x >= 0, y >= 0, x / sp < g.width, y / sp < g.height(), sp >= 1;
    }
}

/// One movement tick: `MOVE_STEPS` unit steps backward along `dir` when
/// `backward` is held, then as many forward when `forward` is held, each
/// step checked on its own.
pub fn move_viewer(maze: &MazeGrid, pos: Vec2, dir: Vec2, forward: bool, backward: bool, block_size: u64) -> (r: Vec2)
    requires
        move_inputs_ok(maze, pos, block_size),
        -SUB <= dir.x <= SUB,
        -SUB <= dir.y <= SUB,
    ensures
        ({
            let back = Vec2 { x: (-dir.x) as i64, y: (-dir.y) as i64 };
            let after_back = if backward { steps_spec(maze, pos, back, block_size, MOVE_STEPS as nat) } else { pos };
            r == if forward { steps_spec(maze, after_back, dir, block_size, MOVE_STEPS as nat) } else { after_back }
        }),
        move_inputs_ok(maze, r, block_size),
{
    let back = Vec2 { x: -dir.x, y: -dir.y };
    let mut p = pos;
    if backward {
        p = repeat_step(maze, p, back, block_size, MOVE_STEPS);
    }
    if forward {
        p = repeat_step(maze, p, dir, block_size, MOVE_STEPS);
    }
    p
}

/// `k` successive checked steps by `delta`.
fn repeat_step(maze: &MazeGrid, pos: Vec2, delta: Vec2, block_size: u64, k: u32) -> (r: Vec2)
    requires
        move_inputs_ok(maze, pos, block_size),
        -SUB <= delta.x <= SUB,
        -SUB <= delta.y <= SUB,
    ensures
        r == steps_spec(maze, pos, delta, block_size, k as nat),
        move_inputs_ok(maze, r, block_size),
{
    let mut p = pos;
    let mut i: u32 = 0;
    while i < k
        invariant
            i <= k,
            p == steps_spec(maze, pos, delta, block_size, i as nat),
            move_inputs_ok(maze, p, block_size),
            -SUB <= delta.x <= SUB,
            -SUB <= delta.y <= SUB,
        decreases k - i,
    {
        proof {
            lemma_step_in_bounds(maze, p, delta, block_size);
        }
        p = try_step(maze, p, delta, block_size);
        i += 1;
    }
    p
}

/// The viewer's pose: position in sub-units, facing and field of view in angle units.
#[derive(Clone, Copy, Debug, PartialEq, Eq, Structural)]
pub struct Player {
    pub pos: Vec2,
    pub a: i64,
    pub fov: i64,
}

impl Player {
    /// Applies one tick of rotation input to the facing.
    pub fn turn(&mut self, input: &TurnInput)
        requires
            0 <= old(self).a < ANGLE_TURN,
            turn_input_ok(*input),
        ensures
            final(self).a == facing_after(old(self).a as int, input.left, input.right, input.mouse_dx as int),
            0 <= final(self).a < ANGLE_TURN,
            final(self).pos == old(self).pos,
            final(self).fov == old(self).fov,
    {
        self.a = update_facing(self.a, input.left, input.right, input.mouse_dx);
    }

    /// One movement tick along `dir`, the unit vector of the current facing.
    pub fn advance(&mut self, maze: &MazeGrid, dir: Vec2, forward: bool, backward: bool, block_size: u64)
        requires
            move_inputs_ok(maze, old(self).pos, block_size),
            -SUB <= dir.x <= SUB,
            -SUB <= dir.y <= SUB,
        ensures
            ({
                let back = Vec2 { x: (-dir.x) as i64, y: (-dir.y) as i64 };
                let after_back = if backward { steps_spec(maze, old(self).pos, back, block_size, MOVE_STEPS as nat) } else { old(self).pos };
                final(self).pos == if forward { steps_spec(maze, after_back, dir, block_size, MOVE_STEPS as nat) } else { after_back }
            }),
            move_inputs_ok(maze, final(self).pos, block_size),
            final(self).a == old(self).a,
            final(self).fov == old(self).fov,
    {
        self.pos = move_viewer(maze, self.pos, dir, forward, backward, block_size);
    }
}

} // verus!
