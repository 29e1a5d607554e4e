use vstd::prelude::*;
use crate::caster::{cast_inputs_ok, cast_spec, RAY_STEP};
use crate::framebuffer::Framebuffer;
use crate::geometry::Vec2;
use crate::maze::MazeGrid;
use crate::projection::{render_world, wall_pixel, PROJECTION_PLANE};
use crate::texture::TextureManager;
use crate::movement::ANGLE_TURN;
use crate::projection::MAX_PLANE;
use crate::texture::Rgba;

verus! {

/// Sprites farther than this, in world units, are not drawn.
pub const SPRITE_CULL_DISTANCE: u64 = 1000;

/// Fill colour of collectibles.
pub open spec fn sprite_color() -> Rgba {
    Rgba { r: 255, g: 255, b: 0, a: 255 }
}

/// Apparent size of a sprite `size` world units across at distance `d`.
pub open spec fn sprite_size(size: int, plane: int, d: int) -> int {
    (size * plane) / (if d == 0 { 1 } else { d })
}

/// Screen column of a sprite seen `rel` off the facing, within a view `fov` wide on a `w`-column screen.
pub open spec fn sprite_screen_x(rel: int, fov: int, w: int) -> int {
    ((2 * rel + fov) * w) / (2 * fov)
}

/// Where a sprite appears on screen.
pub struct SpriteBox {
    pub visible: bool,
    pub x0: u64,
    pub x1: u64,
    pub y0: u64,
    pub y1: u64,
}

/// The screen box of a sprite `size` world units across, `distance` away and
/// `rel` off the facing, on a `w` x `h` screen. It is empty (and not
/// `visible`) when the sprite is outside the half field of view, farther
/// than the culling distance, or under one pixel.
pub open spec fn sprite_box_spec(rel: int, distance: int, fov: int, size: int, plane: int, w: int, h: int) -> SpriteBox {
    let s = sprite_size(size, plane, distance);
    let half = s / 2;
    let sx = sprite_screen_x(rel, fov, w);
    if -(fov / 2) <= rel <= fov / 2 && s >= 1 && distance <= SPRITE_CULL_DISTANCE {
        SpriteBox {
            visible: true,
            x0: (if sx >= half { sx - half } else { 0 }) as u64,
            x1: (if sx + half <= w { sx + half } else { w }) as u64,
            y0: (if h >= s { (h - s) / 2 } else { 0 }) as u64,
            y1: ((h + s) / 2) as u64,
        }
    } else {
        SpriteBox { visible: false, x0: 0, x1: 0, y0: 0, y1: 0 }
    }
}

/// The sprite covers `(x, y)` and is nearer than the wall in column `x`.
pub open spec fn sprite_draws(b: SpriteBox, walls: Seq<u64>, distance: int, x: int, y: int) -> bool {
    b.visible && b.x0 <= x < b.x1 && b.y0 <= y < b.y1 && x < walls.len() && distance < walls[x]
}

pub fn sprite_box(rel: i64, distance: u64, fov: i64, size: u64, plane: u64, w: u32, h: u32) -> (b: SpriteBox)
    requires
        0 < fov <= ANGLE_TURN,
        size <= u32::MAX,
        plane <= MAX_PLANE,
    ensures
        b == sprite_box_spec(rel as int, distance as int, fov as int, size as int, plane as int, w as int, h as int),
{
    proof {
        assert(size * plane <= u32::MAX * MAX_PLANE) by (nonlinear_arith) requires size <= u32::MAX, plane <= MAX_PLANE;
    }
    let d: u64 = if distance == 0 { 1 } else { distance };
    let s: u64 = (size * plane) / d;
    if !(-(fov / 2) <= rel && rel <= fov / 2 && s >= 1 && distance <= SPRITE_CULL_DISTANCE) {
        return SpriteBox { visible: false, x0: 0, x1: 0, y0: 0, y1: 0 };
    }
    let half: u64 = s / 2;
    let sh: u64 = h as u64;
    let num: u64 = (2 * rel + fov) as u64;
    proof {
        assert(num * w <= 2 * ANGLE_TURN * u32::MAX) by (nonlinear_arith)
            requires num <= 2 * ANGLE_TURN, w <= u32::MAX;
        assert(num * w / (2 * fov) <= w) by (nonlinear_arith)
            requires num <= 2 * fov, fov > 0, w >= 0;
    }
    let sx: u64 = (num * (w as u64)) / ((2 * fov) as u64);
    SpriteBox {
        visible: true,
        x0: if sx >= half { sx - half } else { 0 },
        x1: if sx + half <= w as u64 { sx + half } else { w as u64 },
        y0: if sh >= s { (sh - s) / 2 } else { 0 },
        y1: (sh + s) / 2,
    }
}

/// `new` is `old` with the sprite's unoccluded pixels filled.
pub open spec fn sprite_drawn(old: Framebuffer, new: Framebuffer, b: SpriteBox, walls: Seq<u64>, distance: int) -> bool {
    forall|px: int, py: int| #[trigger] new.in_bounds(px, py) ==> new.at(px, py) == (
        if sprite_draws(b, walls, distance, px, py) { sprite_color() } else { old.at(px, py) })
}

/// Draws a collectible as a flat square, `rel` off the facing and `distance`
/// away, depth-tested per column against `walls`.
pub fn draw_sprite(fb: &mut Framebuffer, walls: &Vec<u64>, rel: i64, distance: u64, fov: i64, size: u64, plane: u64)
    requires
        old(fb).wf(),
        0 < fov <= ANGLE_TURN,
        size <= u32::MAX,
        plane <= MAX_PLANE,
    ensures
        final(fb).wf(),
        final(fb).width == old(fb).width,
        final(fb).height == old(fb).height,
        final(fb).background == old(fb).background,
        final(fb).current == old(fb).current,
        sprite_drawn(*old(fb), *final(fb),
            sprite_box_spec(rel as int, distance as int, fov as int, size as int, plane as int, old(fb).width as int, old(fb).height as int),
            walls@, distance as int),
{
    let ghost old_fb = *fb;
    let b = sprite_box(rel, distance, fov, size, plane, fb.width, fb.height);
    let yellow = Rgba { r: 255, g: 255, b: 0, a: 255 };
    if !b.visible {
        return;
    }
    let y_end: u64 = if b.y1 < fb.height as u64 { b.y1 } else { fb.height as u64 };
    let mut y: u64 = b.y0;
    while y < y_end
        invariant
            b.visible,
            yellow == sprite_color(),
            b.x1 <= old_fb.width,
            y_end <= old_fb.height,
            y_end <= b.y1,
            b.y0 <= y,
            fb.wf(),
            fb.width == old_fb.width,
            fb.height == old_fb.height,
            fb.background == old_fb.background,
            fb.current == old_fb.current,
            forall|px: int, py: int| #[trigger] fb.in_bounds(px, py) ==> fb.at(px, py) == (
                if py < y && sprite_draws(b, walls@, distance as int, px, py) { sprite_color() } else { old_fb.at(px, py) }),
        decreases y_end - y,
    {
        let mut x: u64 = b.x0;
        while x < b.x1
            invariant
                b.visible,
                yellow == sprite_color(),
                b.x1 <= old_fb.width,
                y < y_end,
                y_end <= old_fb.height,
                y_end <= b.y1,
                b.y0 <= y,
                b.x0 <= x,
                fb.wf(),
                fb.width == old_fb.width,
                fb.height == old_fb.height,
                fb.background == old_fb.background,
                fb.current == old_fb.current,
                forall|px: int, py: int| #[trigger] fb.in_bounds(px, py) ==> fb.at(px, py) == (
                    if (py < y || (py == y && px < x)) && sprite_draws(b, walls@, distance as int, px, py) {
                        sprite_color()
                    } else {
                        old_fb.at(px, py)
                    }),
            decreases b.x1 - x,
        {
            let n: usize = walls.len();
            if x < n as u64 && distance < walls[x as usize] {
                assert(sprite_draws(b, walls@, distance as int, x as int, y as int));
                let ghost before = *fb;
                fb.put_pixel(x as u32, y as u32, yellow);
                assert forall|px: int, py: int| #[trigger] fb.in_bounds(px, py) implies fb.at(px, py) == (
                    if (py < y || (py == y && px < x + 1)) && sprite_draws(b, walls@, distance as int, px, py) {
                        sprite_color()
                    } else {
                        old_fb.at(px, py)
                    }) by {
                    assert(before.in_bounds(px, py));
                }
            }
            x = x + 1;
        }
        y = y + 1;
    }
    assert forall|px: int, py: int| #[trigger] fb.in_bounds(px, py) implies fb.at(px, py) == (
        if sprite_draws(b, walls@, distance as int, px, py) { sprite_color() } else { old_fb.at(px, py) }) by {
        if py >= y_end && sprite_draws(b, walls@, distance as int, px, py) {
            assert(py >= fb.height);
        }
    }
}

/// A sprite no nearer than the wall in every column of its box draws no pixel.
pub proof fn lemma_occluded_sprite_invisible(b: SpriteBox, walls: Seq<u64>, distance: int)
    requires
        forall|x: int| b.x0 <= x < b.x1 && 0 <= x < walls.len() ==> #[trigger] walls[x] <= distance,
    ensures
        forall|x: int, y: int| !#[trigger] sprite_draws(b, walls, distance, x, y),
{
    assert forall|x: int, y: int| !#[trigger] sprite_draws(b, walls, distance, x, y) by {
        if b.visible && b.x0 <= x < b.x1 && x < walls.len() {
            assert(walls[x] <= distance);
        }
    }
}

/// A collectible as the viewer sees it: `rel` off the facing, `distance` away.
#[derive(Clone, Copy, Debug, PartialEq, Eq, Structural)]
pub struct SpriteView {
    pub rel: i64,
    pub distance: u64,
}

/// Some sprite `i < m` is drawn at `(x, y)` over the wall distances `walls`.
pub open spec fn sprites_draw(sprites: Seq<SpriteView>, m: int, walls: Seq<u64>, fov: int, size: int, w: int, h: int, x: int, y: int) -> bool {
    exists|i: int| 0 <= i < m && #[trigger] sprite_draws(
        sprite_box_spec(sprites[i].rel as int, sprites[i].distance as int, fov, size, PROJECTION_PLANE as int, w, h),
        walls, sprites[i].distance as int, x, y)
}

/// A frame: the textured walls seen along `dirs`, one per column, then every
/// sprite in front of them. Returns the wall distance of each column.
pub fn render_scene(
    fb: &mut Framebuffer,
    maze: &MazeGrid,
    origin: Vec2,
    dirs: &Vec<Vec2>,
    block_size: u64,
    textures: &TextureManager,
    sprites: &Vec<SpriteView>,
    fov: i64,
) -> (walls: Vec<u64>)
    requires
        old(fb).wf(),
        dirs@.len() == old(fb).width,
        forall|i: int| 0 <= i < dirs@.len() ==> cast_inputs_ok(maze, origin, #[trigger] dirs@[i], block_size, RAY_STEP),
        0 < fov <= ANGLE_TURN,
        block_size <= u32::MAX,
    ensures
        final(fb).wf(),
        final(fb).width == old(fb).width,
        final(fb).height == old(fb).height,
        final(fb).background == old(fb).background,
        final(fb).current == old(fb).current,
        walls@.len() == dirs@.len(),
        forall|i: int| 0 <= i < dirs@.len() ==> #[trigger] walls@[i] == cast_spec(maze, origin, dirs@[i], block_size, RAY_STEP).distance,
        forall|px: int, py: int| #[trigger] final(fb).in_bounds(px, py) ==> final(fb).at(px, py) == (
            if sprites_draw(sprites@, sprites@.len() as int, walls@, fov as int, block_size as int,
                old(fb).width as int, old(fb).height as int, px, py) {
                sprite_color()
            } else {
                match wall_pixel(textures, cast_spec(maze, origin, dirs@[px], block_size, RAY_STEP), block_size,
                    old(fb).height as int, PROJECTION_PLANE as int, py) {
                    Some(c) => c,
                    None => old(fb).at(px, py),
                }
            }),
{
    let ghost old_fb = *fb;
    let walls = render_world(fb, maze, origin, dirs, block_size, textures);
    let ghost scene = *fb;
    let mut i: usize = 0;
    while i < sprites.len()
        invariant
            i <= sprites@.len(),
            0 < fov <= ANGLE_TURN,
            block_size <= u32::MAX,
            fb.wf(),
            fb.width == old_fb.width,
            fb.height == old_fb.height,
            fb.background == old_fb.background,
            fb.current == old_fb.current,
            scene.width == old_fb.width,
            scene.height == old_fb.height,
            forall|px: int, py: int| #[trigger] fb.in_bounds(px, py) ==> fb.at(px, py) == (
                if sprites_draw(sprites@, i as int, walls@, fov as int, block_size as int, old_fb.width as int, old_fb.height as int, px, py) {
                    sprite_color()
                } else {
                    scene.at(px, py)
                }),
        decreases sprites@.len() - i,
    {
        let sv = sprites[i];
        let ghost before = *fb;
        draw_sprite(fb, &walls, sv.rel, sv.distance, fov, block_size, PROJECTION_PLANE);
        assert forall|px: int, py: int| #[trigger] fb.in_bounds(px, py) implies fb.at(px, py) == (
            if sprites_draw(sprites@, i + 1, walls@, fov as int, block_size as int, old_fb.width as int, old_fb.height as int, px, py) {
                sprite_color()
            } else {
                scene.at(px, py)
            }) by {
            assert(before.in_bounds(px, py));
            let b = sprite_box_spec(sv.rel as int, sv.distance as int, fov as int, block_size as int, PROJECTION_PLANE as int,
                old_fb.width as int, old_fb.height as int);
            if sprite_draws(b, walls@, sv.distance as int, px, py) {
                assert(sprites@[i as int] == sv);
                assert(sprites_draw(sprites@, i + 1, walls@, fov as int, block_size as int, old_fb.width as int, old_fb.height as int, px, py));
            }
            if sprites_draw(sprites@, i + 1, walls@, fov as int, block_size as int, old_fb.width as int, old_fb.height as int, px, py) {
                let j = choose|j: int| 0 <= j < i + 1 && #[trigger] sprite_draws(
                    sprite_box_spec(sprites@[j].rel as int, sprites@[j].distance as int, fov as int, block_size as int,
                        PROJECTION_PLANE as int, old_fb.width as int, old_fb.height as int),
                    walls@, sprites@[j].distance as int, px, py);
                if j < i {
                    assert(sprites_draw(sprites@, i as int, walls@, fov as int, block_size as int, old_fb.width as int, old_fb.height as int, px, py));
                } else {
                    assert(sprites@[j] == sv);
                }
            }
            if sprites_draw(sprites@, i as int, walls@, fov as int, block_size as int, old_fb.width as int, old_fb.height as int, px, py) {
                let j = choose|j: int| 0 <= j < i && #[trigger] sprite_draws(
                    sprite_box_spec(sprites@[j].rel as int, sprites@[j].distance as int, fov as int, block_size as int,
                        PROJECTION_PLANE as int, old_fb.width as int, old_fb.height as int),
                    walls@, sprites@[j].distance as int, px, py);
                assert(sprites_draw(sprites@, i + 1, walls@, fov as int, block_size as int, old_fb.width as int, old_fb.height as int, px, py));
            }
        }
        i += 1;
    }
    assert forall|px: int, py: int| #[trigger] fb.in_bounds(px, py) implies fb.at(px, py) == (
        if sprites_draw(sprites@, sprites@.len() as int, walls@, fov as int, block_size as int,
            old_fb.width as int, old_fb.height as int, px, py) {
            sprite_color()
        } else {
            match wall_pixel(textures, cast_spec(maze, origin, dirs@[px], block_size, RAY_STEP), block_size,
                old_fb.height as int, PROJECTION_PLANE as int, py) {
                Some(c) => c,
                None => old_fb.at(px, py),
            }
        }) by {
        assert(scene.in_bounds(px, py));
    }
    walls
}

/// Sprites each no nearer than the wall in every column of their box leave
/// the frame as the walls alone drew it.
pub proof fn lemma_occluded_sprites_leave_walls(sprites: Seq<SpriteView>, walls: Seq<u64>, fov: int, size: int, w: int, h: int)
    requires
        forall|i: int, x: int| 0 <= i < sprites.len() && #[trigger] sprite_box_spec(sprites[i].rel as int, sprites[i].distance as int,
            fov, size, PROJECTION_PLANE as int, w, h).x0 <= x < sprite_box_spec(sprites[i].rel as int, sprites[i].distance as int,
            fov, size, PROJECTION_PLANE as int, w, h).x1 && 0 <= x < walls.len() ==> #[trigger] walls[x] <= sprites[i].distance,
    ensures
        forall|x: int, y: int| !#[trigger] sprites_draw(sprites, sprites.len() as int, walls, fov, size, w, h, x, y),
{
    assert forall|x: int, y: int| !#[trigger] sprites_draw(sprites, sprites.len() as int, walls, fov, size, w, h, x, y) by {
        if sprites_draw(sprites, sprites.len() as int, walls, fov, size, w, h, x, y) {
            let i = choose|i: int| 0 <= i < sprites.len() && #[trigger] sprite_draws(
                sprite_box_spec(sprites[i].rel as int, sprites[i].distance as int, fov, size, PROJECTION_PLANE as int, w, h),
                walls, sprites[i].distance as int, x, y);
            let b = sprite_box_spec(sprites[i].rel as int, sprites[i].distance as int, fov, size, PROJECTION_PLANE as int, w, h);
            assert(b.x0 <= x < b.x1 && 0 <= x < walls.len());
            assert(walls[x] <= sprites[i].distance);
        }
    }
}

} // verus!
