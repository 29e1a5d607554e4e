//! A grid-maze ray-marching renderer core in integer fixed-point arithmetic.
//!
//! World coordinates are signed integers in sub-units: one world unit is
//! `SUB` sub-units. Directions are fixed-point vectors with the same scale,
//! so a ray sample at distance `d` (whole world units) from `o` along `dir`
//! lies at `o + d * dir`, exactly. Angles are integers in ten-thousandths of
//! a radian. Trigonometry and square roots are left to the caller.

mod geometry;
mod maze;
mod caster;

pub use geometry::{Vec2, SUB};
pub use maze::{Cell, MazeGrid, GOAL_MARK};
pub use caster::{cast_ray, ray_samples, Intersect, COORD_LIMIT, NO_HIT, RAY_STEP};
mod texture;
pub use texture::{PixelBuffer, Rgba, TextureManager};
mod movement;
pub use movement::{move_viewer, try_step, update_facing, Player, TurnInput, ANGLE_TURN, MOUSE_SENSITIVITY, MOVE_STEPS, ROTATION_SPEED};
mod framebuffer;
pub use framebuffer::Framebuffer;
mod projection;
pub use projection::{column_angle, draw_wall_column, render_world, stake_rows, wall_height, PROJECTION_PLANE};
mod sprite;
pub use sprite::{draw_sprite, render_scene, sprite_box, SpriteBox, SpriteView, SPRITE_CULL_DISTANCE};
mod minimap;
pub use minimap::{cell_to_color, draw_cell, draw_maze_cells, mark_points, render_maze};
mod goals;
pub use goals::{find_collected, find_goals, goal_center, PICKUP_RADIUS};
