use vstd::prelude::*;
use crate::caster::{cast_inputs_ok, cast_ray, cast_spec, Intersect, COORD_LIMIT, NO_HIT, RAY_STEP};
use crate::framebuffer::Framebuffer;
use crate::geometry::{Vec2, SUB};
use crate::maze::MazeGrid;
use crate::texture::{Rgba, TextureManager};

verus! {

/// Distance from the viewer to the virtual projection plane.
pub const PROJECTION_PLANE: u64 = 70;

/// Bound on the projection-plane distance.
pub const MAX_PLANE: u64 = 65536;

/// Projected height of a wall `d` world units away, `hh * plane / d`,
/// rounded down to whole rows (a distance of zero counts as one). The rows a
/// slice covers come from the exact fraction: see `stake_top`.
pub open spec fn height_of(d: int, hh: int, plane: int) -> int {
    (hh * plane) / (if d == 0 { 1 } else { d })
}

pub fn wall_height(distance: u64, half_height: u64, plane: u64) -> (h: u64)
    requires
        half_height <= u32::MAX,
        plane <= MAX_PLANE,
    ensures
        h == height_of(distance as int, half_height as int, plane as int),
{
    proof {
        assert(half_height * plane <= u32::MAX * MAX_PLANE) by (nonlinear_arith)
            requires half_height <= u32::MAX, plane <= MAX_PLANE;
    }
    let d: u64 = if distance == 0 { 1 } else { distance };
    (half_height * plane) / d
}

/// The exact projected height `(sh / 2) * plane / d` of a wall `d` world
/// units away on a screen `sh` rows high, as a numerator and a denominator
/// (a distance of zero counts as one).
pub open spec fn projected_height(d: int, sh: int, plane: int) -> (int, int) {
    (sh * plane, 2 * (if d == 0 { 1 } else { d }))
}

/// The fraction `a` is smaller than the fraction `b` (positive denominators).
pub open spec fn fraction_lt(a: (int, int), b: (int, int)) -> bool {
    a.0 * b.1 < b.0 * a.1
}

/// First row of the wall slice for distance `d` on a screen `sh` rows high:
/// `sh/2 - H/2` rounded down, with `H = (sh/2) * plane / d` exact, and no
/// lower than row 0.
pub open spec fn stake_top(d: int, sh: int, plane: int) -> int {
    let dd = if d == 0 { 1 } else { d };
    if sh * plane >= 2 * sh * dd { 0 } else { (2 * sh * dd - sh * plane) / (4 * dd) }
}

/// Row just below the wall slice for distance `d`: `sh/2 + H/2` rounded down.
pub open spec fn stake_bottom(d: int, sh: int, plane: int) -> int {
    let dd = if d == 0 { 1 } else { d };
    (2 * sh * dd + sh * plane) / (4 * dd)
}

/// The projected height strictly decreases with distance, and the rows drawn
/// for a farther wall lie within those drawn for a nearer one.
pub proof fn lemma_projection_decreasing(d1: int, d2: int, sh: int, plane: int)
    requires
        0 < d1 < d2,
        0 < sh,
        0 < plane,
    ensures
        fraction_lt(projected_height(d2, sh, plane), projected_height(d1, sh, plane)),
        stake_top(d1, sh, plane) <= stake_top(d2, sh, plane),
        stake_bottom(d2, sh, plane) <= stake_bottom(d1, sh, plane),
{
    let k = sh * plane;
    assert(k > 0) by (nonlinear_arith) requires k == sh * plane, 0 < sh, 0 < plane;
    assert(k * (2 * d1) < k * (2 * d2)) by (nonlinear_arith) requires k > 0, d1 < d2;
    // top: 4 d1 t1 <= 2 sh d1 - k, so k <= 2 d1 (sh - 2 t1) <= 2 d2 (sh - 2 t1)
    if k < 2 * sh * d1 {
        let t1 = (2 * sh * d1 - k) / (4 * d1);
        assert(t1 * (4 * d1) <= 2 * sh * d1 - k) by (nonlinear_arith)
            requires t1 == (2 * sh * d1 - k) / (4 * d1), d1 > 0, 2 * sh * d1 - k > 0;
        assert(2 * t1 <= sh) by (nonlinear_arith) requires t1 * (4 * d1) <= 2 * sh * d1 - k, k > 0, d1 > 0;
        assert(k <= 2 * d2 * (sh - 2 * t1)) by (nonlinear_arith)
            requires t1 * (4 * d1) <= 2 * sh * d1 - k, 2 * t1 <= sh, d1 < d2;
        assert(k < 2 * sh * d2) by (nonlinear_arith) requires k < 2 * sh * d1, d1 < d2, sh > 0;
        assert(t1 <= (2 * sh * d2 - k) / (4 * d2)) by (nonlinear_arith)
            requires k <= 2 * d2 * (sh - 2 * t1), d2 > 0;
    }
    let b2 = (2 * sh * d2 + k) / (4 * d2);
    assert(b2 * (4 * d2) <= 2 * sh * d2 + k) by (nonlinear_arith)
        requires b2 == (2 * sh * d2 + k) / (4 * d2), d2 > 0, k > 0, sh > 0;
    if 2 * b2 > sh {
        assert(2 * d1 * (2 * b2 - sh) <= k) by (nonlinear_arith)
            requires b2 * (4 * d2) <= 2 * sh * d2 + k, 2 * b2 > sh, d1 < d2, d1 > 0;
        assert(b2 <= (2 * sh * d1 + k) / (4 * d1)) by (nonlinear_arith)
            requires 2 * d1 * (2 * b2 - sh) <= k, d1 > 0;
    } else {
        assert(b2 * (4 * d1) <= 2 * sh * d1 + k) by (nonlinear_arith) requires 2 * b2 <= sh, d1 > 0, k > 0;
        assert(b2 <= (2 * sh * d1 + k) / (4 * d1)) by (nonlinear_arith)
            requires b2 * (4 * d1) <= 2 * sh * d1 + k, d1 > 0;
    }
}

/// Texture column for a hit at coordinate `hit` on a cell `span` sub-units wide.
pub open spec fn tex_u(hit: int, span: int, tw: int) -> int {
    if hit < 0 { 0 } else { (hit % span) * tw / span }
}

/// Texture row for screen row `y` of a slice drawn over `[top, bottom)`.
pub open spec fn tex_v(y: int, top: int, bottom: int, th: int) -> int {
    (y - top) * th / (bottom - top)
}

/// The colour a wall slice for `hit` gives screen row `y`, if the slice covers it.
pub open spec fn wall_pixel(tex: &TextureManager, hit: Intersect, cs: u64, sh: int, plane: int, y: int) -> Option<Rgba> {
    let top = stake_top(hit.distance as int, sh, plane);
    let bottom = stake_bottom(hit.distance as int, sh, plane);
    if hit.distance != NO_HIT && top <= y < bottom {
        let coord = if hit.vertical_side { hit.hit_y as int } else { hit.hit_x as int };
        Some(tex.wall.clamped_spec(tex_u(coord, cs * SUB, tex.wall.width as int), tex_v(y, top, bottom, tex.wall.height as int)))
    } else {
        None
    }
}

/// The rows `[top, bottom)` of the wall slice for `distance` on a screen `sh` rows high.
pub fn stake_rows(distance: u64, sh: u64, plane: u64) -> (r: (u64, u64))
    requires
        sh <= u32::MAX,
        plane <= MAX_PLANE,
    ensures
        r.0 == stake_top(distance as int, sh as int, plane as int),
        r.1 == stake_bottom(distance as int, sh as int, plane as int),
{
    let dd: u128 = if distance == 0 { 1 } else { distance as u128 };
    proof {
        assert(sh * plane <= u32::MAX * MAX_PLANE) by (nonlinear_arith) requires sh <= u32::MAX, plane <= MAX_PLANE;
        assert(2 * sh * dd <= 2 * u32::MAX * u64::MAX) by (nonlinear_arith) requires sh <= u32::MAX, 1 <= dd <= u64::MAX;
    }
    let k: u128 = (sh as u128) * (plane as u128);
    let twice: u128 = 2 * (sh as u128) * dd;
    proof {
        assert((twice + k) / (4 * dd) <= sh + k) by (nonlinear_arith)
            requires twice == 2 * sh * dd, dd >= 1, k >= 0, sh >= 0;
        if twice > k {
            assert((twice - k) / (4 * dd) <= sh) by (nonlinear_arith)
                requires twice == 2 * sh * dd, dd >= 1, k >= 0, sh >= 0, twice >= k;
        }
    }
    let top: u128 = if k >= twice { 0 } else { (twice - k) / (4 * dd) };
    let bottom: u128 = (twice + k) / (4 * dd);
    (top as u64, bottom as u64)
}

/// `old` with column `x` overwritten where the slice for `hit` covers it.
pub open spec fn column_drawn(old: Framebuffer, new: Framebuffer, x: int, tex: &TextureManager, hit: Intersect, cs: u64, plane: int) -> bool {
    forall|px: int, py: int| #[trigger] new.in_bounds(px, py) ==> new.at(px, py) == (
        if px == x {
            match wall_pixel(tex, hit, cs, old.height as int, plane, py) {
                Some(c) => c,
                None => old.at(px, py),
            }
        } else {
            old.at(px, py)
        })
}

/// Draws the textured wall slice for `hit` into column `x`.
pub fn draw_wall_column(fb: &mut Framebuffer, x: u32, hit: Intersect, block_size: u64, textures: &TextureManager, plane: u64)
    requires
        old(fb).wf(),
        1 <= block_size,
        block_size * SUB <= COORD_LIMIT,
        plane <= MAX_PLANE,
    ensures
        final(fb).wf(),
        final(fb).width == old(fb).width,
        final(fb).height == old(fb).height,
        final(fb).background == old(fb).background,
        final(fb).current == old(fb).current,
        column_drawn(*old(fb), *final(fb), x as int, textures, hit, block_size, plane as int),
{
    let ghost old_fb = *fb;
    let sh: u64 = fb.height as u64;
    let (top, bottom) = stake_rows(hit.distance, sh, plane);
    let span: u64 = block_size * (SUB as u64);
    let coord: i64 = if hit.vertical_side { hit.hit_y } else { hit.hit_x };
    let tw: u32 = textures.wall.width;
    let th: u32 = textures.wall.height;
    let u: u32 = if coord < 0 {
        0
    } else {
        let m: u64 = (coord as u64) % span;
        proof {
            assert(m * tw < span * 0x1_0000_0000) by (nonlinear_arith) requires m < span, tw < 0x1_0000_0000;
            assert((m as int) * (tw as int) / (span as int) <= tw) by (nonlinear_arith) requires m < span, span > 0, tw >= 0;
        }
        (((m as u128) * (tw as u128)) / (span as u128)) as u32
    };
    assert(u == tex_u(coord as int, block_size * SUB, tw as int));
    if hit.distance == NO_HIT {
        return;
    }
    let mut y: u64 = top;
    while y < bottom && y < fb.height as u64
        invariant
            fb.wf(),
            fb.width == old_fb.width,
            fb.height == old_fb.height,
            fb.background == old_fb.background,
            fb.current == old_fb.current,
            old_fb.wf(),
            sh == old_fb.height,
            hit.distance != NO_HIT,
            top == stake_top(hit.distance as int, sh as int, plane as int),
            bottom == stake_bottom(hit.distance as int, sh as int, plane as int),
            top <= y,
            u == tex_u(coord as int, block_size * SUB, tw as int),
            coord == (if hit.vertical_side { hit.hit_y } else { hit.hit_x }),
            tw == textures.wall.width,
            th == textures.wall.height,
            forall|px: int, py: int| #[trigger] fb.in_bounds(px, py) ==> fb.at(px, py) == (
                if px == x && top <= py < y {
                    match wall_pixel(textures, hit, block_size, sh as int, plane as int, py) {
                        Some(c) => c,
                        None => old_fb.at(px, py),
                    }
                } else {
                    old_fb.at(px, py)
                }),
        decreases bottom - y,
    {
        proof {
            assert((y - top) * th < bottom * 0x1_0000_0000) by (nonlinear_arith)
                requires top <= y < bottom, th < 0x1_0000_0000;
            assert(((y - top) as int) * (th as int) / ((bottom - top) as int) <= th) by (nonlinear_arith)
                requires top <= y < bottom, th >= 0;
        }
        let v: u32 = ((((y - top) as u128) * (th as u128)) / ((bottom - top) as u128)) as u32;
        let c = textures.get_wall_pixel_color(u, v);
        assert(wall_pixel(textures, hit, block_size, sh as int, plane as int, y as int) == Some(c));
        let ghost before = *fb;
        fb.put_pixel(x, y as u32, c);
        assert forall|px: int, py: int| #[trigger] fb.in_bounds(px, py) implies fb.at(px, py) == (
            if px == x && top <= py < y + 1 {
                match wall_pixel(textures, hit, block_size, sh as int, plane as int, py) {
                    Some(c) => c,
                    None => old_fb.at(px, py),
                }
            } else {
                old_fb.at(px, py)
            }) by {
            assert(before.in_bounds(px, py));
        }
        y = y + 1;
    }
}

/// The angle of the ray through screen column `i` of `w`: the view spans
/// `fov` centred on `facing`.
pub open spec fn column_angle_spec(facing: int, fov: int, i: int, w: int) -> int {
    facing - fov / 2 + (fov * i) / w
}

pub fn column_angle(facing: i64, fov: i64, i: u32, w: u32) -> (a: i64)
    requires
        0 <= facing <= 0x7fff_ffff,
        0 <= fov <= 0x7fff_ffff,
        i < w,
    ensures
        a == column_angle_spec(facing as int, fov as int, i as int, w as int),
{
    proof {
        assert((fov as int) * (i as int) / (w as int) <= fov) by (nonlinear_arith) requires 0 <= fov, i < w, i >= 0;
        assert(fov * i <= 0x7fff_ffff * 0xffff_ffff) by (nonlinear_arith)
            requires 0 <= fov <= 0x7fff_ffff, 0 <= i <= 0xffff_ffff;
    }
    let part: u64 = ((fov as u64) * (i as u64)) / (w as u64);
    facing - fov / 2 + part as i64
}

/// Casts one ray per screen column (`dirs[x]` for column `x`), draws the
/// textured wall slices, and returns each column's wall distance.
pub fn render_world(fb: &mut Framebuffer, maze: &MazeGrid, origin: Vec2, dirs: &Vec<Vec2>, block_size: u64, textures: &TextureManager) -> (dist: Vec<u64>)
    requires
        old(fb).wf(),
        dirs@.len() == old(fb).width,
        forall|i: int| 0 <= i < dirs@.len() ==> cast_inputs_ok(maze, origin, #[trigger] dirs@[i], block_size, RAY_STEP),
    ensures
        final(fb).wf(),
        final(fb).width == old(fb).width,
        final(fb).height == old(fb).height,
        final(fb).background == old(fb).background,
        final(fb).current == old(fb).current,
        dist@.len() == dirs@.len(),
        forall|i: int| 0 <= i < dirs@.len() ==> #[trigger] dist@[i] == cast_spec(maze, origin, dirs@[i], block_size, RAY_STEP).distance,
        forall|px: int, py: int| #[trigger] final(fb).in_bounds(px, py) ==> final(fb).at(px, py) == (
            match wall_pixel(textures, cast_spec(maze, origin, dirs@[px], block_size, RAY_STEP), block_size,
                old(fb).height as int, PROJECTION_PLANE as int, py) {
                Some(c) => c,
                None => old(fb).at(px, py),
            }),
{
    let ghost old_fb = *fb;
    let mut dist: Vec<u64> = Vec::new();
    let mut i: usize = 0;
    while i < dirs.len()
        invariant
            i <= dirs@.len(),
            dirs@.len() == old_fb.width,
            forall|k: int| 0 <= k < dirs@.len() ==> cast_inputs_ok(maze, origin, #[trigger] dirs@[k], block_size, RAY_STEP),
            fb.wf(),
            fb.width == old_fb.width,
            fb.height == old_fb.height,
            fb.background == old_fb.background,
            fb.current == old_fb.current,
            dist@.len() == i,
            forall|k: int| 0 <= k < i ==> #[trigger] dist@[k] == cast_spec(maze, origin, dirs@[k], block_size, RAY_STEP).distance,
            forall|px: int, py: int| #[trigger] fb.in_bounds(px, py) ==> fb.at(px, py) == (
                if px < i {
                    match wall_pixel(textures, cast_spec(maze, origin, dirs@[px], block_size, RAY_STEP), block_size,
                        old_fb.height as int, PROJECTION_PLANE as int, py) {
                        Some(c) => c,
                        None => old_fb.at(px, py),
                    }
                } else {
                    old_fb.at(px, py)
                }),
        decreases dirs@.len() - i,
    {
        let hit = cast_ray(maze, origin, dirs[i], block_size, RAY_STEP);
        let ghost before = *fb;
        draw_wall_column(fb, i as u32, hit, block_size, textures, PROJECTION_PLANE);
        assert forall|px: int, py: int| #[trigger] fb.in_bounds(px, py) implies fb.at(px, py) == (
            if px < i + 1 {
                match wall_pixel(textures, cast_spec(maze, origin, dirs@[px], block_size, RAY_STEP), block_size,
                    old_fb.height as int, PROJECTION_PLANE as int, py) {
                    Some(c) => c,
                    None => old_fb.at(px, py),
                }
            } else {
                old_fb.at(px, py)
            }) by {
            assert(before.in_bounds(px, py));
        }
        dist.push(hit.distance);
        i += 1;
    }
    dist
}

} // verus!
