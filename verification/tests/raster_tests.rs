use rasterizer::math::ivec2;
use rasterizer::rasterize::{edge, fixed_point_coverage, Coverage};
use rasterizer::math::vec2;

fn listed(c: &Coverage) -> Vec<(usize, usize, i128, i128, i128)> {
    c.fragments.iter().map(|f| (f.col, f.row, f.area1, f.area2, f.area3)).collect()
}

#[test]
fn edge_function_sign_tells_side() {
    // point to the right of a vector pointing down (up is negative in raster space)
    assert_eq!(edge(vec2(3, 0), vec2(0, 0), vec2(0, 5)), -15);
    assert_eq!(edge(vec2(0, 4), vec2(0, 0), vec2(5, 0)), 20);
    assert_eq!(edge(vec2(2.0f32, 1.0), vec2(1.0, 1.0), vec2(0.0, 2.0)), -2.0);
    assert_eq!(edge(vec2(1i64, 1), vec2(1, 1), vec2(7, -3)), 0);
}

#[test]
fn small_triangle_coverage() {
    let c = fixed_point_coverage(ivec2(16, 16), ivec2(16, 80), ivec2(80, 16), 8, 8);
    assert_eq!(c.area_tri, 256);
    assert_eq!(
        listed(&c),
        vec![
            (1, 1, 32, 191, 32),
            (2, 1, 96, 127, 32),
            (3, 1, 160, 63, 32),
            (1, 2, 32, 127, 96),
            (2, 2, 96, 63, 96),
            (1, 3, 32, 63, 160),
        ]
    );
}

#[test]
fn clockwise_triangle_covers_nothing() {
    let c = fixed_point_coverage(ivec2(16, 16), ivec2(80, 16), ivec2(16, 80), 8, 8);
    assert_eq!(c.area_tri, -256);
    assert!(c.fragments.is_empty());
}

#[test]
fn half_pixel_offset_triangle() {
    let c = fixed_point_coverage(ivec2(8, 8), ivec2(8, 72), ivec2(72, 72), 8, 8);
    assert_eq!(c.area_tri, 256);
    assert_eq!(
        listed(&c),
        vec![
            (0, 1, 0, 191, 63),
            (0, 2, 0, 127, 127),
            (1, 2, 64, 127, 63),
            (0, 3, 0, 63, 191),
            (1, 3, 64, 63, 127),
            (2, 3, 128, 63, 63),
        ]
    );
}

#[test]
fn rotated_vertices_cover_the_same_pixels() {
    let a = ivec2(16, 16);
    let b = ivec2(16, 80);
    let c = ivec2(80, 16);
    let c1 = fixed_point_coverage(a, b, c, 8, 8);
    let c2 = fixed_point_coverage(b, c, a, 8, 8);
    assert_eq!(c1.area_tri, c2.area_tri);
    let p1: Vec<_> = c1.fragments.iter().map(|f| (f.col, f.row, f.area2, f.area3, f.area1)).collect();
    let p2: Vec<_> = c2.fragments.iter().map(|f| (f.col, f.row, f.area1, f.area2, f.area3)).collect();
    assert_eq!(p1, p2);
}

#[test]
fn triangle_reaching_off_canvas_is_clipped() {
    let c = fixed_point_coverage(ivec2(-200, -200), ivec2(-200, 400), ivec2(400, -200), 8, 8);
    assert!(c.area_tri > 0);
    assert!(!c.fragments.is_empty());
    for f in &c.fragments {
        assert!(f.col < 8 && f.row < 8);
    }
    // row-major order without repeats
    for pair in c.fragments.windows(2) {
        assert!((pair[0].row, pair[0].col) < (pair[1].row, pair[1].col));
    }
}

#[test]
fn huge_coordinates_do_not_overflow() {
    let c = fixed_point_coverage(ivec2(i32::MIN, i32::MIN), ivec2(i32::MIN, i32::MAX), ivec2(i32::MAX, i32::MIN), 16, 16);
    assert!(c.area_tri > 0);
    for f in &c.fragments {
        assert!(f.col < 16 && f.row < 16);
    }
}

#[test]
fn empty_canvas_covers_nothing() {
    let c = fixed_point_coverage(ivec2(16, 16), ivec2(16, 80), ivec2(80, 16), 0, 0);
    assert!(c.fragments.is_empty());
}

#[test]
fn reversed_winding_covers_nothing() {
    let c = fixed_point_coverage(ivec2(8, 8), ivec2(72, 72), ivec2(8, 72), 8, 8);
    assert!(c.area_tri <= 0);
    assert!(c.fragments.is_empty());
}

#[test]
fn adjacent_triangles_tile_a_square() {
    let a = fixed_point_coverage(ivec2(16, 16), ivec2(16, 80), ivec2(80, 16), 8, 8);
    let b = fixed_point_coverage(ivec2(80, 16), ivec2(16, 80), ivec2(80, 80), 8, 8);
    let mut all: Vec<(usize, usize)> = a.fragments.iter().chain(b.fragments.iter()).map(|f| (f.col, f.row)).collect();
    all.sort();
    let mut expected = Vec::new();
    for c in 1..5 {
        for r in 1..5 {
            expected.push((c, r));
        }
    }
    assert_eq!(all, expected);
}

#[test]
fn triangles_sharing_an_edge_never_cover_the_same_pixel() {
    let a = ivec2(102, 107);
    let b = ivec2(6, 102);
    let c1 = fixed_point_coverage(a, b, ivec2(36, 108), 8, 8);
    let c2 = fixed_point_coverage(b, a, ivec2(32, 15), 8, 8);
    assert_eq!(listed(&c1), vec![(1, 6, 5, 3, 16), (2, 6, 0, 9, 15)]);
    for f in &c2.fragments {
        assert!(!c1.fragments.iter().any(|g| (g.col, g.row) == (f.col, f.row)));
    }
    assert_eq!(c2.fragments.len(), 15);
}

#[test]
fn top_left_bias_does_not_grow_along_a_row() {
    // the center of pixel (57, 5) lies beyond the edge between (221, 335) and (1002, 60)
    let c = fixed_point_coverage(ivec2(221, 335), ivec2(805, 758), ivec2(1002, 60), 64, 64);
    assert!(!c.fragments.iter().any(|f| (f.col, f.row) == (57, 5)));
    assert_eq!(c.fragments.len(), 959);
}

#[test]
fn edge_vanishes_on_its_vector_and_flips_with_it() {
    let v0 = vec2(7i32, -3);
    let v1 = vec2(2i32, 5);
    let d = vec2(-4i32, 9);
    assert_eq!(edge(v1, v1, d), 0);
    assert_eq!(edge(vec2(v1.x + d.x, v1.y + d.y), v1, d), 0);
    assert_eq!(edge(v0, v1, vec2(-d.x, -d.y)), -edge(v0, v1, d));
    assert_eq!(edge(v0, v1, d), (-3 - 5) * -4 - (7 - 2) * 9);
}
