use raycaster::{
    cast_ray, cell_to_color, column_angle, draw_cell, draw_sprite, draw_wall_column, find_collected, find_goals,
    goal_center, move_viewer, render_world, sprite_box, try_step, update_facing, wall_height, Cell,
    Framebuffer, Intersect, MazeGrid, PixelBuffer, Rgba, TextureManager, Vec2, ANGLE_TURN, NO_HIT,
    PROJECTION_PLANE, RAY_STEP, SUB, render_maze, Player, TurnInput, ray_samples, stake_rows, render_scene, SpriteView,
};

fn grid(rows: &[&str]) -> MazeGrid {
    let rows: Vec<Vec<Cell>> = rows
        .iter()
        .map(|r| r.bytes().map(Cell::from_byte).collect())
        .collect();
    MazeGrid::from_rows(rows).expect("rectangular")
}

fn bordered_4x4() -> MazeGrid {
    grid(&["####", "#  #", "#  #", "####"])
}

fn at(x: i64, y: i64) -> Vec2 {
    Vec2::new(x * SUB, y * SUB)
}

const EAST: Vec2 = Vec2 { x: 1024, y: 0 };

#[test]
fn cast_from_cell_center_hits_border_wall() {
    let g = bordered_4x4();
    let r = cast_ray(&g, at(150, 150), EAST, 100, RAY_STEP);
    assert_eq!(r.impact, Cell::Wall(b'#'));
    assert_eq!(r.distance, 150);
    assert_eq!(r.hit_x, 300 * SUB);
    assert_eq!(r.hit_y, 150 * SUB);
    assert!(r.vertical_side);
}

#[test]
fn cast_near_wall_reports_distance_to_its_edge() {
    let g = bordered_4x4();
    let r = cast_ray(&g, at(250, 150), EAST, 100, RAY_STEP);
    assert_eq!(r.impact, Cell::Wall(b'#'));
    assert_eq!(r.distance, 50);
}

#[test]
fn cast_through_opening_reports_no_hit() {
    let g = grid(&["####", "#   ", "####"]);
    let r = cast_ray(&g, at(150, 150), EAST, 100, RAY_STEP);
    assert_eq!(
        r,
        Intersect { distance: NO_HIT, impact: Cell::Empty, hit_x: 150 * SUB, hit_y: 150 * SUB, vertical_side: false }
    );
}

#[test]
fn cast_passes_through_goal_cells() {
    let g = grid(&["#####", "# g #", "#####"]);
    let r = cast_ray(&g, at(150, 150), EAST, 100, RAY_STEP);
    assert_eq!(r.impact, Cell::Wall(b'#'));
    assert_eq!(r.distance, 250);
}

#[test]
fn cast_from_inside_wall_stops_at_once() {
    let g = bordered_4x4();
    let r = cast_ray(&g, at(50, 50), EAST, 100, RAY_STEP);
    assert_eq!(r.distance, 0);
    assert!(!r.vertical_side);
}

#[test]
fn cast_across_row_boundary_is_not_vertical() {
    let g = bordered_4x4();
    let r = cast_ray(&g, at(150, 150), Vec2::new(0, 1024), 100, RAY_STEP);
    assert_eq!(r.distance, 150);
    assert!(!r.vertical_side);
}

#[test]
fn farther_wall_projects_shorter() {
    let g = grid(&["#######", "#     #", "#######"]);
    let far = cast_ray(&g, at(100, 150), EAST, 100, RAY_STEP);
    let near = cast_ray(&g, at(500, 150), EAST, 100, RAY_STEP);
    assert_eq!(far.distance, 500);
    assert_eq!(near.distance, 100);
    let hf = wall_height(far.distance, 450, PROJECTION_PLANE);
    let hn = wall_height(near.distance, 450, PROJECTION_PLANE);
    assert_eq!(hf, 63);
    assert_eq!(hn, 315);
    assert!(hf < hn);
}

#[test]
fn wall_height_edges() {
    assert_eq!(wall_height(0, 450, 70), 31500);
    assert_eq!(wall_height(NO_HIT, 450, 70), 0);
}

fn sprite_fb() -> Framebuffer {
    Framebuffer::new(100, 100)
}

#[test]
fn sprite_drawn_in_front_of_far_wall() {
    let mut fb = sprite_fb();
    let walls = vec![200u64; 100];
    draw_sprite(&mut fb, &walls, 0, 50, 10472, 100, PROJECTION_PLANE);
    assert_eq!(fb.get(50, 50), Some(Rgba::new(255, 255, 0, 255)));
}

#[test]
fn sprite_hidden_behind_near_wall() {
    let mut fb = sprite_fb();
    let before = fb.pixels.clone();
    let walls = vec![30u64; 100];
    draw_sprite(&mut fb, &walls, 0, 50, 10472, 100, PROJECTION_PLANE);
    assert_eq!(fb.pixels, before);
}

#[test]
fn sprite_hidden_when_wall_equally_far() {
    let mut fb = sprite_fb();
    let before = fb.pixels.clone();
    let walls = vec![50u64; 100];
    draw_sprite(&mut fb, &walls, 0, 50, 10472, 100, PROJECTION_PLANE);
    assert_eq!(fb.pixels, before);
}

#[test]
fn sprite_box_geometry() {
    let b = sprite_box(0, 50, 10472, 100, 70, 100, 100);
    assert!(b.visible);
    assert_eq!((b.x0, b.x1, b.y0, b.y1), (0, 100, 0, 120));
    let b = sprite_box(0, 200, 10472, 100, 70, 100, 100);
    assert_eq!((b.x0, b.x1, b.y0, b.y1), (33, 67, 32, 67));
    let b = sprite_box(0, 1, 10472, 141, 1, 1300, 900);
    assert_eq!((b.y0, b.y1), (379, 520));
    assert!(!sprite_box(6000, 50, 10472, 100, 70, 100, 100).visible);
    assert!(!sprite_box(0, 1001, 10472, 100, 70, 100, 100).visible);
    assert!(!sprite_box(0, 900, 10472, 10, 70, 100, 100).visible);
}

#[test]
fn step_into_plus_wall_is_rejected() {
    let g = grid(&["+++", "+  ", "+  "]);
    let p = at(100, 100);
    assert_eq!(try_step(&g, p, Vec2::new(-1024, 0), 100), p);
}

#[test]
fn step_into_empty_cell_moves_exactly() {
    let g = grid(&["+++", "+  ", "+  "]);
    let p = at(100, 100);
    assert_eq!(try_step(&g, p, Vec2::new(1024, 0), 100), at(101, 100));
}

#[test]
fn step_onto_goal_is_rejected() {
    let g = grid(&["####", "# g#", "####"]);
    let p = at(199, 150);
    assert_eq!(try_step(&g, p, Vec2::new(1024, 0), 100), p);
}

#[test]
fn step_off_grid_is_rejected() {
    let g = grid(&["  ", "  "]);
    let p = at(0, 50);
    assert_eq!(try_step(&g, p, Vec2::new(-1, 0), 100), p);
}

#[test]
fn move_viewer_takes_six_unit_steps() {
    let g = bordered_4x4();
    assert_eq!(move_viewer(&g, at(150, 150), EAST, true, false, 100), at(156, 150));
    assert_eq!(move_viewer(&g, at(150, 150), EAST, false, true, 100), at(144, 150));
    assert_eq!(move_viewer(&g, at(150, 150), EAST, true, true, 100), at(150, 150));
}

#[test]
fn move_viewer_stops_at_wall() {
    let g = bordered_4x4();
    assert_eq!(move_viewer(&g, at(297, 150), EAST, true, false, 100), at(299, 150));
}

#[test]
fn facing_wraps_once() {
    assert_eq!(update_facing(0, false, true, 0), ANGLE_TURN - 3142);
    assert_eq!(update_facing(62000, true, false, 0), 62000 + 3142 - ANGLE_TURN);
    assert_eq!(update_facing(1000, false, false, 10), 700);
    assert_eq!(update_facing(100, false, false, 10), 100 - 300 + ANGLE_TURN);
}

#[test]
fn facing_stays_in_range_over_many_updates() {
    let mut a: i64 = 0;
    for k in 0..500i64 {
        a = update_facing(a, k % 3 == 0, k % 5 == 0, (k * 37) % 1900 - 950);
        assert!((0..ANGLE_TURN).contains(&a));
    }
}

#[test]
fn column_angles_span_the_view() {
    assert_eq!(column_angle(10000, 10472, 0, 100), 10000 - 5236);
    assert_eq!(column_angle(10000, 10472, 50, 100), 10000);
}

fn texture_2x2() -> TextureManager {
    let data = vec![1, 2, 3, 4, 5, 6, 7, 8, 9, 10, 11, 12, 13, 14, 15, 16];
    TextureManager::new(PixelBuffer::new(2, 2, data))
}

#[test]
fn texture_lookup_and_clamping() {
    let t = texture_2x2();
    assert_eq!(t.get_wall_pixel_color(1, 0), Rgba::new(5, 6, 7, 8));
    assert_eq!(t.get_wall_pixel_color(9, 9), Rgba::new(13, 14, 15, 16));
    assert_eq!(t.wall.get_pixel(-1, 0), Rgba::gray());
    assert_eq!(t.wall.get_pixel(2, 0), Rgba::gray());
}

#[test]
fn short_or_empty_image_falls_back_to_gray() {
    let short = PixelBuffer::new(2, 2, vec![1, 2, 3, 4]);
    assert_eq!(short.get_pixel(1, 1), Rgba::gray());
    let empty = TextureManager::new(PixelBuffer::new(0, 0, vec![]));
    assert_eq!(empty.get_wall_pixel_color(0, 0), Rgba::gray());
}

#[test]
fn wall_column_is_textured_and_centered() {
    let mut fb = Framebuffer::new(4, 200);
    let red = TextureManager::new(PixelBuffer::new(1, 1, vec![255, 0, 0, 255]));
    let hit = Intersect { distance: 150, impact: Cell::Wall(b'#'), hit_x: 300 * SUB, hit_y: 150 * SUB, vertical_side: true };
    draw_wall_column(&mut fb, 1, hit, 100, &red, PROJECTION_PLANE);
    let black = Rgba::new(0, 0, 0, 255);
    assert_eq!(fb.get(1, 76), Some(Rgba::new(255, 0, 0, 255)));
    assert_eq!(fb.get(1, 122), Some(Rgba::new(255, 0, 0, 255)));
    assert_eq!(fb.get(1, 75), Some(black));
    assert_eq!(fb.get(1, 123), Some(black));
    assert_eq!(fb.get(0, 100), Some(black));
}

#[test]
fn texture_column_follows_hit_offset() {
    let mut fb = Framebuffer::new(1, 200);
    let t = texture_2x2();
    let hit = Intersect { distance: 150, impact: Cell::Wall(b'#'), hit_x: 0, hit_y: 375 * SUB, vertical_side: true };
    draw_wall_column(&mut fb, 0, hit, 100, &t, PROJECTION_PLANE);
    assert_eq!(fb.get(0, 76), Some(Rgba::new(5, 6, 7, 8)));
    assert_eq!(fb.get(0, 122), Some(Rgba::new(13, 14, 15, 16)));
}

#[test]
fn render_world_fills_columns_and_depths() {
    let g = bordered_4x4();
    let mut fb = Framebuffer::new(3, 200);
    let red = TextureManager::new(PixelBuffer::new(1, 1, vec![255, 0, 0, 255]));
    let dirs = vec![EAST, EAST, Vec2::new(0, 1024)];
    let dist = render_world(&mut fb, &g, at(250, 150), &dirs, 100, &red);
    assert_eq!(dist, vec![50, 50, 150]);
    assert_eq!(fb.get(0, 100), Some(Rgba::new(255, 0, 0, 255)));
    assert_eq!(fb.get(2, 100), Some(Rgba::new(255, 0, 0, 255)));
    assert_eq!(fb.get(0, 10), Some(Rgba::new(0, 0, 0, 255)));
}

#[test]
fn framebuffer_ignores_points_outside() {
    let mut fb = Framebuffer::new(2, 2);
    let before = fb.pixels.clone();
    fb.set_current_color(Rgba::new(1, 2, 3, 4));
    fb.set_pixel(2, 0);
    fb.set_pixel(0, 2);
    assert_eq!(fb.pixels, before);
    fb.set_pixel(1, 1);
    assert_eq!(fb.get(1, 1), Some(Rgba::new(1, 2, 3, 4)));
    assert_eq!(fb.get(2, 2), None);
    fb.set_background_color(Rgba::new(9, 9, 9, 9));
    fb.clear();
    assert_eq!(fb.get(1, 1), Some(Rgba::new(9, 9, 9, 9)));
}

#[test]
fn minimap_colors() {
    assert_eq!(cell_to_color(Cell::Wall(b'+')), Rgba::new(138, 43, 226, 255));
    assert_eq!(cell_to_color(Cell::Wall(b'-')), Rgba::new(238, 130, 238, 255));
    assert_eq!(cell_to_color(Cell::Wall(b'|')), Rgba::new(238, 130, 238, 255));
    assert_eq!(cell_to_color(Cell::Goal), Rgba::new(0, 128, 0, 255));
    assert_eq!(cell_to_color(Cell::Wall(b'#')), Rgba::new(255, 255, 255, 255));
}

#[test]
fn draw_cell_fills_block_unless_empty() {
    let mut fb = Framebuffer::new(10, 10);
    draw_cell(&mut fb, 2, 2, 3, Cell::Goal);
    assert_eq!(fb.get(2, 2), Some(Rgba::new(0, 128, 0, 255)));
    assert_eq!(fb.get(4, 4), Some(Rgba::new(0, 128, 0, 255)));
    assert_eq!(fb.get(5, 4), Some(Rgba::new(0, 0, 0, 255)));
    let before = fb.pixels.clone();
    draw_cell(&mut fb, 0, 0, 10, Cell::Empty);
    assert_eq!(fb.pixels, before);
    draw_cell(&mut fb, 8, 8, 5, Cell::Wall(b'#'));
    assert_eq!(fb.get(9, 9), Some(Rgba::new(255, 255, 255, 255)));
}

#[test]
fn cells_from_bytes_and_ragged_rows() {
    assert_eq!(Cell::from_byte(b' '), Cell::Empty);
    assert_eq!(Cell::from_byte(b'g'), Cell::Goal);
    assert_eq!(Cell::from_byte(b'#'), Cell::Wall(b'#'));
    assert!(MazeGrid::from_rows(vec![vec![Cell::Empty; 2], vec![Cell::Empty; 3]]).is_none());
    let g = bordered_4x4();
    assert_eq!(g.get(1, 1), Some(Cell::Empty));
    assert_eq!(g.get(4, 0), None);
}

#[test]
fn pickup_finds_first_goal_in_radius() {
    let goals = vec![(1usize, 1usize), (2, 2)];
    assert_eq!(goal_center(2, 2, 100), at(250, 250));
    assert_eq!(find_collected(&goals, at(240, 250), 100), Some(1));
    assert_eq!(find_collected(&goals, at(200, 200), 100), Some(0));
    assert_eq!(find_collected(&goals, at(330, 250), 100), None);
    assert_eq!(find_collected(&goals, at(329, 250), 100), Some(1));
}

#[test]
fn goals_listed_in_row_major_order() {
    let g = grid(&["#g##", "g  g", "# g#"]);
    assert_eq!(find_goals(&g), vec![(1, 0), (0, 1), (3, 1), (2, 2)]);
    assert_eq!(find_goals(&bordered_4x4()), vec![]);
}

#[test]
fn render_maze_paints_nonempty_cells() {
    let g = grid(&["+g", " -"]);
    let mut fb = Framebuffer::new(5, 5);
    render_maze(&mut fb, &g, 2, at(3, 3), &vec![]);
    assert_eq!(fb.get(1, 1), Some(Rgba::new(138, 43, 226, 255)));
    assert_eq!(fb.get(2, 0), Some(Rgba::new(0, 128, 0, 255)));
    assert_eq!(fb.get(0, 3), Some(Rgba::new(0, 0, 0, 255)));
    assert_eq!(fb.get(3, 3), Some(Rgba::new(238, 130, 238, 255)));
    assert_eq!(fb.get(4, 4), Some(Rgba::new(0, 0, 0, 255)));
}

#[test]
fn player_turns_then_advances() {
    let g = bordered_4x4();
    let mut p = Player { pos: at(150, 150), a: 0, fov: 10472 };
    p.turn(&TurnInput { left: true, right: false, mouse_dx: 0 });
    assert_eq!(p.a, 3142);
    p.advance(&g, EAST, true, false, 100);
    assert_eq!(p.pos, at(156, 150));
    assert_eq!(p.fov, 10472);
}

#[test]
fn corridor_slices_cover_full_rows() {
    assert_eq!(stake_rows(500, 900, PROJECTION_PLANE), (418, 481));
    assert_eq!(stake_rows(100, 900, PROJECTION_PLANE), (292, 607));
    let red = TextureManager::new(PixelBuffer::new(1, 1, vec![255, 0, 0, 255]));
    let mut fb = Framebuffer::new(1, 900);
    let hit = Intersect { distance: 500, impact: Cell::Wall(b'#'), hit_x: 0, hit_y: 0, vertical_side: false };
    draw_wall_column(&mut fb, 0, hit, 100, &red, PROJECTION_PLANE);
    assert_eq!(fb.get(0, 418), Some(Rgba::new(255, 0, 0, 255)));
    assert_eq!(fb.get(0, 480), Some(Rgba::new(255, 0, 0, 255)));
    assert_eq!(fb.get(0, 417), Some(Rgba::new(0, 0, 0, 255)));
    assert_eq!(fb.get(0, 481), Some(Rgba::new(0, 0, 0, 255)));
}

#[test]
fn farther_slices_never_grow() {
    let mut last = stake_rows(1, 900, PROJECTION_PLANE);
    for d in 2..3000u64 {
        let r = stake_rows(d, 900, PROJECTION_PLANE);
        assert!(last.0 <= r.0 && r.1 <= last.1);
        last = r;
    }
}

#[test]
fn missed_ray_draws_no_slice() {
    let mut fb = Framebuffer::new(1, 10);
    let before = fb.pixels.clone();
    let red = TextureManager::new(PixelBuffer::new(1, 1, vec![255, 0, 0, 255]));
    let hit = Intersect { distance: NO_HIT, impact: Cell::Empty, hit_x: 0, hit_y: 0, vertical_side: false };
    draw_wall_column(&mut fb, 0, hit, 100, &red, PROJECTION_PLANE);
    assert_eq!(fb.pixels, before);
}

#[test]
fn large_pointer_turn_within_one_turn() {
    assert_eq!(update_facing(0, false, false, 2000), ANGLE_TURN - 60000);
}

#[test]
fn ragged_rows_are_bounds_checked() {
    let g = MazeGrid { rows: vec![vec![Cell::Empty; 3], vec![Cell::Empty]], width: 3 };
    assert_eq!(g.get(1, 1), None);
    assert_eq!(g.get(0, 1), Some(Cell::Empty));
    let r = cast_ray(&g, at(50, 150), EAST, 100, RAY_STEP);
    assert_eq!(r.distance, NO_HIT);
    let p = at(50, 150);
    assert_eq!(try_step(&g, p, Vec2::new(60 * 1024, 0), 100), p);
    assert_eq!(MazeGrid::from_rows(vec![]).map(|g| g.width), Some(0));
}

#[test]
fn ray_samples_list_passable_points() {
    let g = bordered_4x4();
    assert_eq!(ray_samples(&g, at(15, 15), EAST, 10, RAY_STEP), vec![at(15, 15), at(25, 15)]);
    assert_eq!(ray_samples(&g, at(5, 5), EAST, 10, RAY_STEP), vec![]);
}

#[test]
fn render_maze_marks_ray_paths() {
    let g = bordered_4x4();
    let mut fb = Framebuffer::new(40, 40);
    render_maze(&mut fb, &g, 10, at(15, 15), &vec![EAST]);
    let smoke = Some(Rgba::new(245, 245, 245, 255));
    assert_eq!(fb.get(15, 15), smoke);
    assert_eq!(fb.get(25, 15), smoke);
    assert_eq!(fb.get(16, 15), Some(Rgba::new(0, 0, 0, 255)));
    assert_eq!(fb.get(35, 15), Some(Rgba::new(255, 255, 255, 255)));
}

fn scene_grid() -> MazeGrid {
    grid(&["#####", "#   #", "# g #", "#   #", "#####"])
}

#[test]
fn scene_draws_sprite_before_far_wall() {
    let g = scene_grid();
    let mut fb = Framebuffer::new(100, 100);
    let white = TextureManager::new(PixelBuffer::new(1, 1, vec![255, 255, 255, 255]));
    let dirs = vec![EAST; 100];
    let sprites = vec![SpriteView { rel: 0, distance: 50 }];
    let walls = render_scene(&mut fb, &g, at(200, 250), &dirs, 100, &white, &sprites, 10472);
    assert_eq!(walls, vec![200; 100]);
    assert_eq!(fb.get(50, 50), Some(Rgba::new(255, 255, 0, 255)));
}

#[test]
fn scene_hides_sprite_behind_nearer_wall() {
    let g = scene_grid();
    let mut fb = Framebuffer::new(100, 100);
    let white = TextureManager::new(PixelBuffer::new(1, 1, vec![255, 255, 255, 255]));
    let dirs = vec![EAST; 100];
    let sprites = vec![SpriteView { rel: 0, distance: 250 }];
    render_scene(&mut fb, &g, at(200, 250), &dirs, 100, &white, &sprites, 10472);
    for x in 0..100 {
        for y in 0..100 {
            assert_ne!(fb.get(x, y), Some(Rgba::new(255, 255, 0, 255)));
        }
    }
    assert_eq!(fb.get(50, 50), Some(Rgba::new(255, 255, 255, 255)));
}

#[test]
fn odd_heights_centre_on_half_rows() {
    assert_eq!(stake_rows(100, 3, 70), (0, 2));
    let red = TextureManager::new(PixelBuffer::new(1, 1, vec![255, 0, 0, 255]));
    let mut fb = Framebuffer::new(1, 3);
    let hit = Intersect { distance: 100, impact: Cell::Wall(b'#'), hit_x: 0, hit_y: 0, vertical_side: false };
    draw_wall_column(&mut fb, 0, hit, 100, &red, 70);
    assert_eq!(fb.get(0, 0), Some(Rgba::new(255, 0, 0, 255)));
    assert_eq!(fb.get(0, 1), Some(Rgba::new(255, 0, 0, 255)));
    assert_eq!(fb.get(0, 2), Some(Rgba::new(0, 0, 0, 255)));
    let b = sprite_box(0, 1, 10472, 1, 1, 10, 3);
    assert_eq!((b.y0, b.y1), (1, 2));
}
