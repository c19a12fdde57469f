use maze_escape::render::{
    bar_fill, clamp_texture_dims, corrected_distance, enemy_marker_visible, minimap_cell_color,
    pickup_marker_visible, sort_sprites_by_depth, sprite_screen_col, sprite_visible, texel_index,
    wall_height, wall_texture_u,
};

#[test]
fn fisheye_correction_is_symmetric_about_view_center() {
    // Two rays symmetric about the view center at the same raw
    // distance yield the same corrected distance and wall height.
    let d = 46_080i64;
    let left = corrected_distance(d, -512);
    let right = corrected_distance(d, 512);
    assert_eq!(left, right);
    assert_eq!(left, d * 512 / 1024);
    let hl = wall_height(10, left, 303);
    let hr = wall_height(10, right, 303);
    assert_eq!(hl, hr);
}

#[test]
fn corrected_distance_applies_the_cosine_floor() {
    assert_eq!(corrected_distance(5000, 0), 5000 / 1024);
    assert_eq!(corrected_distance(10_240, 1024), 10_240);
}

#[test]
fn wall_height_shrinks_with_distance() {
    let near = wall_height(10, 1024, 300);
    let far = wall_height(10, 4096, 300);
    assert_eq!(near, 10 * 1024 * 300 / 1024);
    assert_eq!(far, 10 * 1024 * 300 / 4096);
    assert!(near > far);
}

#[test]
fn sprites_hide_behind_nearer_walls() {
    assert!(sprite_visible(100, 100));
    assert!(sprite_visible(99, 100));
    assert!(!sprite_visible(101, 100));
}

#[test]
fn painter_order_sorts_by_descending_distance() {
    let entries = vec![(0usize, 5i64), (1, 9), (2, 1), (3, 9)];
    let sorted = sort_sprites_by_depth(entries);
    let dists: Vec<i64> = sorted.iter().map(|e| e.1).collect();
    assert_eq!(dists, vec![9, 9, 5, 1]);
    let mut idxs: Vec<usize> = sorted.iter().map(|e| e.0).collect();
    idxs.sort();
    assert_eq!(idxs, vec![0, 1, 2, 3]);
}

#[test]
fn minimap_colors_follow_the_cell_symbols() {
    assert_eq!(minimap_cell_color(' ', false), (0, 0, 0));
    assert_eq!(minimap_cell_color('+', true), (80, 80, 80));
    assert_eq!(minimap_cell_color('-', true), (80, 80, 80));
    assert_eq!(minimap_cell_color('p', true), (230, 41, 55));
    assert_eq!(minimap_cell_color('D', true), (150, 75, 0));
    assert_eq!(minimap_cell_color('g', true), (0, 228, 48));
    assert_eq!(minimap_cell_color(' ', true), (255, 255, 255));
}

#[test]
fn markers_respect_fog_and_binoculars() {
    assert!(pickup_marker_visible(false, true, 0));
    assert!(pickup_marker_visible(false, false, 1));
    assert!(!pickup_marker_visible(false, false, 0));
    assert!(!pickup_marker_visible(true, true, 1));
    assert!(enemy_marker_visible(false, 5));
    assert!(!enemy_marker_visible(false, 0));
}

#[test]
fn hud_bar_fill_is_proportional() {
    assert_eq!(bar_fill(50, 100, 200), 100);
    assert_eq!(bar_fill(0, 100, 200), 0);
    assert_eq!(bar_fill(100, 100, 200), 200);
    assert_eq!(bar_fill(1, 3, 300), 100);
}

#[test]
fn texture_dimensions_clamp_keeps_aspect() {
    assert_eq!(clamp_texture_dims(100, 100, 512), (100, 100));
    assert_eq!(clamp_texture_dims(1024, 512, 512), (512, 256));
    assert_eq!(clamp_texture_dims(2048, 1, 512), (512, 1));
}

#[test]
fn texture_u_reads_the_coordinate_along_the_wall() {
    // Hit on a vertical edge (x at a cell border): sample along y.
    let u = wall_texture_u(30 * 1024, (10 + 2) * 1024, 10);
    assert_eq!(u, 2 * 1024 / 10);
    // Hit mid-cell: sample along x.
    let u = wall_texture_u((10 + 4) * 1024, (10 + 4) * 1024, 10);
    assert_eq!(u, 4 * 1024 / 10);
    // Always a fraction below one.
    assert!(u < 1024);
}

#[test]
fn sprite_column_is_centered_and_signed() {
    let fov = 1_047_198i64;
    assert_eq!(sprite_screen_col(0, fov, 100), 50);
    let left = sprite_screen_col(-200_000, fov, 100);
    let right = sprite_screen_col(200_000, fov, 100);
    assert!(left < 50 && right > 50);
    assert_eq!(50 - left, right - 50);
}

#[test]
fn texel_index_rounds_to_the_nearest_pixel() {
    // u = v = 0 picks the first pixel.
    assert_eq!(texel_index(0, 0, 16, 16), 0);
    // The far corner of the unit square picks the last pixel.
    assert_eq!(texel_index(1023, 1023, 16, 16), (15 * 16 + 15) * 4);
    // Mid texture: coordinate 512/1024 of 15 rounds to 8.
    assert_eq!(texel_index(512, 0, 16, 16), 8 * 4);
}
