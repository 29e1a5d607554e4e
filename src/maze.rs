use vstd::prelude::*;
use crate::geometry::{Vec2, SUB};

verus! {

/// The letter that marks a collectible in a maze file.
pub const GOAL_MARK: u8 = 103;

/// One maze cell.
#[derive(Clone, Copy, Debug, PartialEq, Eq, Structural)]
pub enum Cell {
    Empty,
    /// A wall, tagged with the symbol it was read from.
    Wall(u8),
    /// A collectible marker: rays pass through it, the viewer does not.
    Goal,
}

/// Rays travel through empty and goal cells.
pub open spec fn ray_passable(c: Cell) -> bool {
    match c {
        Cell::Wall(_) => false,
        _ => true,
    }
}

/// The cell a maze-file byte stands for.
pub open spec fn cell_of_byte(b: u8) -> Cell {
    if b == 32 {
        Cell::Empty
    } else if b == GOAL_MARK {
        Cell::Goal
    } else {
        Cell::Wall(b)
    }
}

impl Cell {
    pub fn from_byte(b: u8) -> (c: Cell)
        ensures
            c == cell_of_byte(b),
    {
        if b == 32 {
            Cell::Empty
        } else if b == GOAL_MARK {
            Cell::Goal
        } else {
            Cell::Wall(b)
        }
    }

    pub fn is_ray_passable(&self) -> (r: bool)
        ensures
            r == ray_passable(*self),
    {
        match self {
            Cell::Wall(_) => false,
            _ => true,
        }
    }
}

/// A rectangular grid of cells, row by row; `width` is the length of every row.
pub struct MazeGrid {
    pub rows: Vec<Vec<Cell>>,
    pub width: usize,
}

impl MazeGrid {
    pub open spec fn view(&self) -> Seq<Seq<Cell>> {
        self.rows@.map_values(|r: Vec<Cell>| r@)
    }

    pub open spec fn height(&self) -> nat {
        self.rows@.len()
    }

    pub open spec fn wf(&self) -> bool {
        forall|j: int| 0 <= j < self.rows@.len() ==> #[trigger] self.rows@[j]@.len() == self.width
    }

    /// The cell at column `i`, row `j`, if the grid has one there.
    pub open spec fn cell_at(&self, i: int, j: int) -> Option<Cell> {
        if 0 <= j < self.rows@.len() && 0 <= i < self.width && i < self.rows@[j]@.len() {
            Some(self.rows@[j]@[i])
        } else {
            None
        }
    }

    /// The cell holding the point `(x, y)` (sub-units) with cells `cs` world units wide.
    pub open spec fn cell_at_point(&self, x: int, y: int, cs: int) -> Option<Cell> {
        if x < 0 || y < 0 {
            None
        } else {
            self.cell_at(x / (cs * SUB), y / (cs * SUB))
        }
    }

    /// Builds a grid from rows; `None` when the rows differ in length.
    pub fn from_rows(rows: Vec<Vec<Cell>>) -> (r: Option<MazeGrid>)
        ensures
            r is Some <==> forall|j: int, k: int|
                0 <= j < rows@.len() && 0 <= k < rows@.len() ==> rows@[j]@.len() == rows@[k]@.len(),
            r matches Some(g) ==> g.wf() && g.rows@ == rows@ && (rows@.len() > 0 ==> g.width == rows@[0]@.len())
                && (rows@.len() == 0 ==> g.width == 0),
    {
        let width: usize = if rows.len() == 0 { 0 } else { rows[0].len() };
        let mut j: usize = 0;
        while j < rows.len()
            invariant
                j <= rows@.len(),
                rows@.len() > 0 ==> width == rows@[0]@.len(),
                forall|k: int| 0 <= k < j ==> #[trigger] rows@[k]@.len() == width,
            decreases rows@.len() - j,
        {
            if rows[j].len() != width {
                return None;
            }
            j += 1;
        }
        Some(MazeGrid { rows, width })
    }

    /// The cell at column `i`, row `j`, if the grid has one there; every
    /// access is checked against the row's own length.
    pub fn get(&self, i: usize, j: usize) -> (r: Option<Cell>)
        ensures
            r == self.cell_at(i as int, j as int),
    {
        if j < self.rows.len() && i < self.width && i < self.rows[j].len() {
            Some(self.rows[j][i])
        } else {
            None
        }
    }

    /// The cell holding `p`, with cells `cs` world units wide.
    pub fn get_at_point(&self, p: Vec2, cs: u64) -> (r: Option<Cell>)
        requires
            1 <= cs <= 0x1_0000_0000,
        ensures
            r == self.cell_at_point(p.x as int, p.y as int, cs as int),
    {
        if p.x < 0 || p.y < 0 {
            return None;
        }
        let span: u64 = (cs * 1024) as u64;
        let i: u64 = (p.x as u64) / span;
        let j: u64 = (p.y as u64) / span;
        if i >= self.width as u64 || j >= self.rows.len() as u64 {
            return None;
        }
        self.get(i as usize, j as usize)
    }
}

} // verus!
