use vstd::prelude::*;
use crate::caster::{cast_inputs_ok, first_stop, ray_samples, sample_point, COORD_LIMIT, RAY_STEP};
use crate::framebuffer::Framebuffer;
use crate::geometry::{Vec2, SUB};
use crate::maze::{Cell, MazeGrid};
use crate::texture::Rgba;

verus! {

/// Map colour of a cell: `+` walls blue-violet, `-` and `|` walls violet,
/// goals green, anything else white.
pub open spec fn cell_color(c: Cell) -> Rgba {
    match c {
        Cell::Wall(43) => Rgba { r: 138, g: 43, b: 226, a: 255 },
        Cell::Wall(45) | Cell::Wall(124) => Rgba { r: 238, g: 130, b: 238, a: 255 },
        Cell::Goal => Rgba { r: 0, g: 128, b: 0, a: 255 },
        _ => Rgba { r: 255, g: 255, b: 255, a: 255 },
    }
}

pub fn cell_to_color(cell: Cell) -> (c: Rgba)
    ensures
        c == cell_color(cell),
{
    match cell {
        Cell::Wall(43) => Rgba { r: 138, g: 43, b: 226, a: 255 },
        Cell::Wall(45) | Cell::Wall(124) => Rgba { r: 238, g: 130, b: 238, a: 255 },
        Cell::Goal => Rgba { r: 0, g: 128, b: 0, a: 255 },
        _ => Rgba { r: 255, g: 255, b: 255, a: 255 },
    }
}

/// Fills the `block_size` square at `(xo, yo)` with the cell's map colour,
/// unless the cell is empty; pixels off the buffer are skipped.
pub fn draw_cell(fb: &mut Framebuffer, xo: u32, yo: u32, block_size: u32, cell: Cell)
    requires
        old(fb).wf(),
    ensures
        final(fb).wf(),
        final(fb).width == old(fb).width,
        final(fb).height == old(fb).height,
        final(fb).background == old(fb).background,
        final(fb).current == old(fb).current,
        forall|px: int, py: int| #[trigger] final(fb).in_bounds(px, py) ==> final(fb).at(px, py) == (
            if cell != Cell::Empty && xo <= px < xo + block_size && yo <= py < yo + block_size {
                cell_color(cell)
            } else {
                old(fb).at(px, py)
            }),
{
    let ghost old_fb = *fb;
    if cell == Cell::Empty {
        return;
    }
    let color = cell_to_color(cell);
    let x_end: u64 = xo as u64 + block_size as u64;
    let y_end: u64 = yo as u64 + block_size as u64;
    let mut x: u64 = xo as u64;
    while x < x_end && x < fb.width as u64
        invariant
            cell != Cell::Empty,
            color == cell_color(cell),
            x_end == xo + block_size,
            y_end == yo + block_size,
            xo <= x,
            x <= x_end,
            fb.wf(),
            fb.width == old_fb.width,
            fb.height == old_fb.height,
            fb.background == old_fb.background,
            fb.current == old_fb.current,
            forall|px: int, py: int| #[trigger] fb.in_bounds(px, py) ==> fb.at(px, py) == (
                if xo <= px < x && yo <= py < y_end { color } else { old_fb.at(px, py) }),
        decreases x_end - x,
    {
        let mut y: u64 = yo as u64;
        while y < y_end && y < fb.height as u64
            invariant
                color == cell_color(cell),
                x_end == xo + block_size,
                y_end == yo + block_size,
                xo <= x < x_end,
                x < fb.width,
                yo <= y,
                y <= y_end,
                fb.wf(),
                fb.width == old_fb.width,
                fb.height == old_fb.height,
                fb.background == old_fb.background,
                fb.current == old_fb.current,
                forall|px: int, py: int| #[trigger] fb.in_bounds(px, py) ==> fb.at(px, py) == (
                    if (xo <= px < x && yo <= py < y_end) || (px == x && yo <= py < y) { color } else { old_fb.at(px, py) }),
            decreases y_end - y,
        {
            let ghost before = *fb;
            fb.put_pixel(x as u32, y as u32, color);
            assert forall|px: int, py: int| #[trigger] fb.in_bounds(px, py) implies fb.at(px, py) == (
                if (xo <= px < x && yo <= py < y_end) || (px == x && yo <= py < y + 1) { color } else { old_fb.at(px, py) }) by {
                assert(before.in_bounds(px, py));
            }
            y = y + 1;
        }
        assert forall|px: int, py: int| #[trigger] fb.in_bounds(px, py) implies fb.at(px, py) == (
            if xo <= px < x + 1 && yo <= py < y_end { color } else { old_fb.at(px, py) }) by {
            assert(fb.at(px, py) == (
                if (xo <= px < x && yo <= py < y_end) || (px == x && yo <= py < y) { color } else { old_fb.at(px, py) }));
            if px == x && yo <= py < y_end {
                assert(py < fb.height);
                assert(!(y < y_end && y < fb.height));
                assert(py < y);
                assert(fb.at(px, py) == color);
            } else if xo <= px < x && yo <= py < y_end {
                assert(fb.at(px, py) == color);
            } else {
                assert(!(xo <= px < x + 1 && yo <= py < y_end));
                assert(fb.at(px, py) == old_fb.at(px, py));
            }
        }
        x = x + 1;
    }
    assert forall|px: int, py: int| #[trigger] fb.in_bounds(px, py) implies fb.at(px, py) == (
        if xo <= px < x_end && yo <= py < y_end { color } else { old_fb.at(px, py) }) by {
        if xo <= px < x_end && yo <= py < y_end {
            assert(px < x);
        }
    }
}

/// `i * bs <= p < (i + 1) * bs` exactly when `p / bs == i`.
proof fn lemma_block_of(p: int, i: int, bs: int)
    requires
        p >= 0,
        i >= 0,
        bs >= 1,
    ensures
        (i * bs <= p < i * bs + bs) <==> p / bs == i,
{
    let q = p / bs;
    assert(q * bs <= p < q * bs + bs) by (nonlinear_arith) requires q == p / bs, bs >= 1, p >= 0;
    if i < q {
        assert(i * bs + bs <= q * bs) by (nonlinear_arith) requires i < q, bs >= 1;
    } else if q < i {
        assert(q * bs + bs <= i * bs) by (nonlinear_arith) requires q < i, bs >= 1;
    }
}

/// The map colour of the cell under pixel `(px, py)`, for cells `bs` pixels
/// wide, or `None` where that cell is empty or off the maze.
pub open spec fn map_pixel(maze: &MazeGrid, bs: int, px: int, py: int) -> Option<Rgba> {
    match maze.cell_at(px / bs, py / bs) {
        Some(c) => if c != Cell::Empty { Some(cell_color(c)) } else { None },
        None => None,
    }
}

/// The colour `map_pixel` gives `(px, py)`, or `old` where it gives none.
pub open spec fn map_or(maze: &MazeGrid, bs: int, px: int, py: int, old: Rgba) -> Rgba {
    match map_pixel(maze, bs, px, py) {
        Some(c) => c,
        None => old,
    }
}

/// Draws every non-empty cell of the maze as a `block_size` square.
pub fn draw_maze_cells(fb: &mut Framebuffer, maze: &MazeGrid, block_size: u32)
    requires
        old(fb).wf(),
        1 <= block_size,
        maze.width * block_size <= u32::MAX,
        maze.height() * block_size <= u32::MAX,
    ensures
        final(fb).wf(),
        final(fb).width == old(fb).width,
        final(fb).height == old(fb).height,
        final(fb).background == old(fb).background,
        final(fb).current == old(fb).current,
        forall|px: int, py: int| #[trigger] final(fb).in_bounds(px, py) ==> final(fb).at(px, py)
            == map_or(maze, block_size as int, px, py, old(fb).at(px, py)),
{
    let ghost old_fb = *fb;
    let ghost bs = block_size as int;
    let mut j: usize = 0;
    while j < maze.rows.len()
        invariant
            1 <= block_size,
            bs == block_size,
            maze.width * block_size <= u32::MAX,
            maze.height() * block_size <= u32::MAX,
            j <= maze.height(),
            fb.wf(),
            fb.width == old_fb.width,
            fb.height == old_fb.height,
            fb.background == old_fb.background,
            fb.current == old_fb.current,
            forall|px: int, py: int| #[trigger] fb.in_bounds(px, py) ==> fb.at(px, py) == (
                if py / bs < j { map_or(maze, bs, px, py, old_fb.at(px, py)) } else { old_fb.at(px, py) }),
        decreases maze.height() - j,
    {
        let mut i: usize = 0;
        while i < maze.width
            invariant
                1 <= block_size,
                bs == block_size,
                maze.width * block_size <= u32::MAX,
                maze.height() * block_size <= u32::MAX,
                j < maze.height(),
                i <= maze.width,
                fb.wf(),
                fb.width == old_fb.width,
                fb.height == old_fb.height,
                fb.background == old_fb.background,
                fb.current == old_fb.current,
                forall|px: int, py: int| #[trigger] fb.in_bounds(px, py) ==> fb.at(px, py) == (
                    if py / bs < j || (py / bs == j && px / bs < i) {
                        map_or(maze, bs, px, py, old_fb.at(px, py))
                    } else {
                        old_fb.at(px, py)
                    }),
            decreases maze.width - i,
        {
            proof {
                assert(i * block_size + block_size <= maze.width * block_size) by (nonlinear_arith)
                    requires i < maze.width, block_size >= 1;
                assert(j * block_size + block_size <= maze.height() * block_size) by (nonlinear_arith)
                    requires j < maze.height(), block_size >= 1;
            }
            proof {
                assert(i <= i * block_size && j <= j * block_size) by (nonlinear_arith) requires block_size >= 1;
            }
            let xo: u32 = ((i as u64) * (block_size as u64)) as u32;
            let yo: u32 = ((j as u64) * (block_size as u64)) as u32;
            assert(xo == i * bs && yo == j * bs);
            let cell = match maze.get(i, j) {
                Some(c) => c,
                None => Cell::Empty,
            };
            let ghost before = *fb;
            draw_cell(fb, xo, yo, block_size, cell);
            assert forall|px: int, py: int| #[trigger] fb.in_bounds(px, py) implies fb.at(px, py) == (
                if py / bs < j || (py / bs == j && px / bs < i + 1) {
                    map_or(maze, bs, px, py, old_fb.at(px, py))
                } else {
                    old_fb.at(px, py)
                }) by {
                assert(before.in_bounds(px, py));
                lemma_block_of(px, i as int, bs);
                lemma_block_of(py, j as int, bs);
                if px / bs == i && py / bs == j {
                    assert(maze.cell_at(px / bs, py / bs) == maze.cell_at(i as int, j as int));
                    assert(xo <= px < xo + block_size && yo <= py < yo + block_size);
                } else {
                    assert(!(xo <= px < xo + block_size && yo <= py < yo + block_size));
                }
            }
            i += 1;
        }
        assert forall|px: int, py: int| #[trigger] fb.in_bounds(px, py) implies fb.at(px, py) == (
            if py / bs < j + 1 { map_or(maze, bs, px, py, old_fb.at(px, py)) } else { old_fb.at(px, py) }) by {
            if py / bs == j && px / bs >= maze.width {
                assert(maze.cell_at(px / bs, py / bs) is None);
            }
        }
        j += 1;
    }
    assert forall|px: int, py: int| #[trigger] fb.in_bounds(px, py) implies fb.at(px, py)
        == map_or(maze, bs, px, py, old_fb.at(px, py)) by {
        if py / bs >= j {
            assert(maze.cell_at(px / bs, py / bs) is None);
        }
    }
}

/// The screen pixel of a point on the map: its world coordinates, rounded down.
pub open spec fn pixel_of(p: Vec2) -> (int, int) {
    (p.x / SUB, p.y / SUB)
}

/// Some point of `pts` lies on pixel `(px, py)`.
pub open spec fn marks(pts: Seq<Vec2>, px: int, py: int) -> bool {
    exists|k: int| 0 <= k < pts.len() && #[trigger] pixel_of(pts[k]) == (px, py)
}

/// Sets the pixel of each point to the current colour.
pub fn mark_points(fb: &mut Framebuffer, pts: &Vec<Vec2>)
    requires
        old(fb).wf(),
        forall|k: int| 0 <= k < pts@.len() ==> 0 <= (#[trigger] pts@[k]).x < COORD_LIMIT && 0 <= pts@[k].y < COORD_LIMIT,
    ensures
        final(fb).wf(),
        final(fb).width == old(fb).width,
        final(fb).height == old(fb).height,
        final(fb).background == old(fb).background,
        final(fb).current == old(fb).current,
        forall|px: int, py: int| #[trigger] final(fb).in_bounds(px, py) ==> final(fb).at(px, py) == (
            if marks(pts@, px, py) { old(fb).current } else { old(fb).at(px, py) }),
{
    let ghost old_fb = *fb;
    let mut k: usize = 0;
    while k < pts.len()
        invariant
            k <= pts@.len(),
            forall|j: int| 0 <= j < pts@.len() ==> 0 <= (#[trigger] pts@[j]).x < COORD_LIMIT && 0 <= pts@[j].y < COORD_LIMIT,
            fb.wf(),
            fb.width == old_fb.width,
            fb.height == old_fb.height,
            fb.background == old_fb.background,
            fb.current == old_fb.current,
            forall|px: int, py: int| #[trigger] fb.in_bounds(px, py) ==> fb.at(px, py) == (
                if marks(pts@.subrange(0, k as int), px, py) { old_fb.current } else { old_fb.at(px, py) }),
        decreases pts@.len() - k,
    {
        let p = pts[k];
        let x: u32 = (p.x / SUB) as u32;
        let y: u32 = (p.y / SUB) as u32;
        assert(pixel_of(p) == (x as int, y as int));
        let ghost before = *fb;
        let c = fb.current;
        fb.put_pixel(x, y, c);
        let ghost prev = pts@.subrange(0, k as int);
        let ghost next = pts@.subrange(0, k + 1);
        assert forall|px: int, py: int| #[trigger] fb.in_bounds(px, py) implies fb.at(px, py) == (
            if marks(next, px, py) { old_fb.current } else { old_fb.at(px, py) }) by {
            assert(before.in_bounds(px, py));
            if px == x && py == y {
                assert(next[k as int] == p);
                assert(pixel_of(next[k as int]) == (px, py));
            } else {
                if marks(next, px, py) {
                    let j = choose|j: int| 0 <= j < next.len() && #[trigger] pixel_of(next[j]) == (px, py);
                    assert(j < k);
                    assert(prev[j] == next[j]);
                    assert(pixel_of(prev[j]) == (px, py));
                }
                if marks(prev, px, py) {
                    let j = choose|j: int| 0 <= j < prev.len() && #[trigger] pixel_of(prev[j]) == (px, py);
                    assert(prev[j] == next[j]);
                    assert(pixel_of(next[j]) == (px, py));
                }
            }
        }
        k += 1;
    }
    assert(pts@.subrange(0, pts@.len() as int) == pts@);
}

/// Some ray `i < m` of `dirs` passes through pixel `(px, py)` before it stops.
pub open spec fn rays_mark(maze: &MazeGrid, origin: Vec2, dirs: Seq<Vec2>, cs: u64, m: int, px: int, py: int) -> bool {
    exists|i: int, k: int| 0 <= i < m && 0 <= k < first_stop(maze, origin, dirs[i], cs, RAY_STEP)
        && #[trigger] pixel_of(sample_point(origin, dirs[i], RAY_STEP, k as nat)) == (px, py)
}

/// The colour rays are marked in.
pub open spec fn ray_color() -> Rgba {
    Rgba { r: 245, g: 245, b: 245, a: 255 }
}

/// The map view: every non-empty cell as a `block_size` square, then every
/// sample each ray from `origin` along `dirs` passes before it stops.
pub fn render_maze(fb: &mut Framebuffer, maze: &MazeGrid, block_size: u32, origin: Vec2, dirs: &Vec<Vec2>)
    requires
        old(fb).wf(),
        1 <= block_size,
        maze.width * block_size <= u32::MAX,
        maze.height() * block_size <= u32::MAX,
        forall|i: int| 0 <= i < dirs@.len() ==> cast_inputs_ok(maze, origin, #[trigger] dirs@[i], block_size as u64, RAY_STEP),
    ensures
        final(fb).wf(),
        final(fb).width == old(fb).width,
        final(fb).height == old(fb).height,
        final(fb).background == old(fb).background,
        final(fb).current == ray_color(),
        forall|px: int, py: int| #[trigger] final(fb).in_bounds(px, py) ==> final(fb).at(px, py) == (
            if rays_mark(maze, origin, dirs@, block_size as u64, dirs@.len() as int, px, py) {
                ray_color()
            } else {
                map_or(maze, block_size as int, px, py, old(fb).at(px, py))
            }),
{
    let ghost old_fb = *fb;
    draw_maze_cells(fb, maze, block_size);
    let ghost drawn = *fb;
    fb.set_current_color(Rgba { r: 245, g: 245, b: 245, a: 255 });
    let ghost cells = *fb;
    assert forall|px: int, py: int| #[trigger] cells.in_bounds(px, py) implies cells.at(px, py)
        == map_or(maze, block_size as int, px, py, old_fb.at(px, py)) by {
        assert(drawn.in_bounds(px, py));
    }
    let mut i: usize = 0;
    while i < dirs.len()
        invariant
            i <= dirs@.len(),
            forall|j: int| 0 <= j < dirs@.len() ==> cast_inputs_ok(maze, origin, #[trigger] dirs@[j], block_size as u64, RAY_STEP),
            fb.wf(),
            fb.width == old_fb.width,
            fb.height == old_fb.height,
            fb.background == old_fb.background,
            fb.current == ray_color(),
            cells.width == old_fb.width,
            cells.height == old_fb.height,
            forall|px: int, py: int| #[trigger] cells.in_bounds(px, py) ==> cells.at(px, py)
                == map_or(maze, block_size as int, px, py, old_fb.at(px, py)),
            forall|px: int, py: int| #[trigger] fb.in_bounds(px, py) ==> fb.at(px, py) == (
                if rays_mark(maze, origin, dirs@, block_size as u64, i as int, px, py) { ray_color() } else { cells.at(px, py) }),
        decreases dirs@.len() - i,
    {
        let pts = ray_samples(maze, origin, dirs[i], block_size as u64, RAY_STEP);
        let ghost before = *fb;
        mark_points(fb, &pts);
        assert forall|px: int, py: int| #[trigger] fb.in_bounds(px, py) implies fb.at(px, py) == (
            if rays_mark(maze, origin, dirs@, block_size as u64, i + 1, px, py) { ray_color() } else { cells.at(px, py) }) by {
            assert(before.in_bounds(px, py));
            if marks(pts@, px, py) {
                let k = choose|k: int| 0 <= k < pts@.len() && #[trigger] pixel_of(pts@[k]) == (px, py);
                assert(pts@[k] == sample_point(origin, dirs@[i as int], RAY_STEP, k as nat));
                assert(pixel_of(sample_point(origin, dirs@[i as int], RAY_STEP, k as nat)) == (px, py));
            }
            if rays_mark(maze, origin, dirs@, block_size as u64, i + 1, px, py) {
                let (ii, k) = choose|ii: int, k: int| 0 <= ii < i + 1 && 0 <= k < first_stop(maze, origin, dirs@[ii], block_size as u64, RAY_STEP)
                    && #[trigger] pixel_of(sample_point(origin, dirs@[ii], RAY_STEP, k as nat)) == (px, py);
                if ii == i {
                    assert(pts@[k] == sample_point(origin, dirs@[i as int], RAY_STEP, k as nat));
                    assert(pixel_of(pts@[k]) == (px, py));
                } else {
                    assert(rays_mark(maze, origin, dirs@, block_size as u64, i as int, px, py));
                }
            }
            if rays_mark(maze, origin, dirs@, block_size as u64, i as int, px, py) {
                let (ii, k) = choose|ii: int, k: int| 0 <= ii < i && 0 <= k < first_stop(maze, origin, dirs@[ii], block_size as u64, RAY_STEP)
                    && #[trigger] pixel_of(sample_point(origin, dirs@[ii], RAY_STEP, k as nat)) == (px, py);
                assert(rays_mark(maze, origin, dirs@, block_size as u64, i + 1, px, py));
            }
        }
        i += 1;
    }
    assert forall|px: int, py: int| #[trigger] fb.in_bounds(px, py) implies fb.at(px, py) == (
        if rays_mark(maze, origin, dirs@, block_size as u64, dirs@.len() as int, px, py) {
            ray_color()
        } else {
            map_or(maze, block_size as int, px, py, old_fb.at(px, py))
        }) by {
        assert(cells.in_bounds(px, py));
    }
}

} // verus!
