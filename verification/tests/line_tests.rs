use rasterizer::line::{draw_colored_line_clipped_i64, draw_line_clipped_i64};
use rasterizer::math::{ivec2, Ivec2};

const BACKGROUND: u32 = 0x1234_5678;

fn black() -> u32 {
    u32::from_ne_bytes([0, 0, 0, 255])
}

/// Draws a line on a fresh canvas and lists the (column, row) of every pixel it set.
fn draw(v1: (i32, i32), v2: (i32, i32), w: usize, h: usize) -> Vec<(usize, usize)> {
    let mut canvas = vec![BACKGROUND; w * h];
    draw_line_clipped_i64(ivec2(v1.0, v1.1), ivec2(v2.0, v2.1), &mut canvas, w, h);
    let mut out = Vec::new();
    for (i, p) in canvas.iter().enumerate() {
        if *p != BACKGROUND {
            assert_eq!(*p, black());
            out.push((i % w, i / w));
        }
    }
    out
}

fn sorted(mut v: Vec<(usize, usize)>) -> Vec<(usize, usize)> {
    v.sort_by_key(|p| (p.1, p.0));
    v
}

#[test]
fn horizontal_line_stops_before_its_end() {
    assert_eq!(draw((1, 2), (5, 2), 8, 8), vec![(1, 2), (2, 2), (3, 2), (4, 2)]);
}

#[test]
fn shallow_line_follows_bresenham() {
    assert_eq!(
        sorted(draw((1, 1), (6, 4), 8, 8)),
        sorted(vec![(1, 1), (2, 2), (3, 2), (4, 3), (5, 3)])
    );
}

#[test]
fn steep_line_steps_by_rows() {
    assert_eq!(
        sorted(draw((2, 1), (3, 6), 8, 8)),
        sorted(vec![(2, 1), (2, 2), (2, 3), (3, 4), (3, 5)])
    );
}

#[test]
fn rising_line() {
    assert_eq!(
        sorted(draw((1, 6), (6, 1), 8, 8)),
        sorted(vec![(1, 6), (2, 5), (3, 4), (4, 3), (5, 2)])
    );
}

#[test]
fn line_clipped_on_both_sides() {
    assert_eq!(
        sorted(draw((-3, 3), (12, 5), 8, 8)),
        sorted(vec![(0, 3), (1, 3), (2, 3), (3, 3), (4, 4), (5, 4), (6, 4)])
    );
}

#[test]
fn steep_line_clipped_at_top_and_bottom() {
    assert_eq!(
        sorted(draw((3, -5), (4, 12), 8, 8)),
        sorted(vec![(3, 0), (3, 1), (3, 2), (3, 3), (3, 4), (3, 5), (3, 6)])
    );
}

#[test]
fn line_outside_canvas_draws_nothing() {
    assert_eq!(draw((20, 20), (30, 40), 8, 8), vec![]);
}

#[test]
fn single_point_draws_nothing() {
    assert_eq!(draw((5, 5), (5, 5), 8, 8), vec![]);
}

#[test]
fn line_on_row_zero_is_drawn() {
    let mut canvas = vec![0u32; 16];
    draw_line_clipped_i64(ivec2(0, 0), ivec2(3, 0), &mut canvas, 4, 4);
    let b = black();
    assert_eq!(canvas, vec![b, b, b, 0, 0, 0, 0, 0, 0, 0, 0, 0, 0, 0, 0, 0]);
}

#[test]
fn row_and_column_zero_are_on_the_canvas() {
    assert_eq!(sorted(draw((2, 0), (6, 3), 8, 8)), vec![(2, 0), (3, 1), (4, 2), (5, 2)]);
    // clipping at the left edge lands on row zero
    assert_eq!(
        sorted(draw((-4, -2), (6, 4), 8, 8)),
        vec![(0, 0), (1, 1), (2, 1), (3, 2), (4, 2), (5, 3)]
    );
    // a steep line on column zero
    assert_eq!(sorted(draw((0, 0), (0, 3), 4, 4)), vec![(0, 0), (0, 1), (0, 2)]);
    // a start above the canvas is moved onto row zero
    assert_eq!(sorted(draw((3, -2), (0, 3), 4, 4)), vec![(2, 0), (1, 1), (1, 2)]);
}

#[test]
fn full_width_line_leaves_last_column() {
    assert_eq!(
        draw((0, 3), (7, 3), 8, 8),
        vec![(0, 3), (1, 3), (2, 3), (3, 3), (4, 3), (5, 3), (6, 3)]
    );
}

#[test]
fn reversed_line_draws_the_same_pixels() {
    let cases = [
        ((1, 1), (6, 4)),
        ((2, 1), (3, 6)),
        ((-3, 3), (12, 5)),
        ((3, -5), (4, 12)),
        ((7, 0), (0, 7)),
        ((-100, 50), (100, -40)),
    ];
    for (a, b) in cases {
        assert_eq!(draw(a, b, 8, 8), draw(b, a, 8, 8));
    }
}

#[test]
fn far_away_lines_stay_on_canvas() {
    let ends: [(i32, i32); 6] = [
        (i32::MIN, i32::MIN),
        (i32::MAX, i32::MAX),
        (i32::MIN, i32::MAX),
        (-1_000_000, 3),
        (4, 2_000_000),
        (3, 3),
    ];
    for a in ends {
        for b in ends {
            for (c, r) in draw(a, b, 16, 10) {
                assert!(c < 16 && r < 10);
            }
        }
    }
}

#[test]
fn consecutive_pixels_are_neighbours() {
    let pixels = sorted(draw((0, 1), (15, 9), 16, 10));
    assert_eq!(pixels.len(), 15);
    let mut by_col = pixels.clone();
    by_col.sort();
    for pair in by_col.windows(2) {
        assert_eq!(pair[1].0, pair[0].0 + 1);
        assert!((pair[1].1 as i64 - pair[0].1 as i64).abs() <= 1);
    }
}

#[test]
fn colored_line_uses_given_color_and_keeps_the_rest() {
    let mut canvas = vec![7u32; 8 * 8];
    let v1: Ivec2 = ivec2(1, 2);
    let v2: Ivec2 = ivec2(5, 2);
    draw_colored_line_clipped_i64(v1, v2, &mut canvas, 8, 8, 0xabcd);
    for (i, p) in canvas.iter().enumerate() {
        if i >= 2 * 8 + 1 && i <= 2 * 8 + 4 {
            assert_eq!(*p, 0xabcd);
        } else {
            assert_eq!(*p, 7);
        }
    }
}

#[test]
fn zero_sized_canvas_draws_nothing() {
    let mut canvas: Vec<u32> = vec![];
    draw_line_clipped_i64(ivec2(-5, -5), ivec2(5, 5), &mut canvas, 0, 0);
    assert!(canvas.is_empty());
}

fn draw_i32(v1: (i32, i32), v2: (i32, i32), w: usize, h: usize) -> Vec<u32> {
    let mut canvas = vec![BACKGROUND; w * h];
    rasterizer::line::draw_line_clipped(ivec2(v1.0, v1.1), ivec2(v2.0, v2.1), &mut canvas, w, h);
    canvas
}

fn draw_i64(v1: (i32, i32), v2: (i32, i32), w: usize, h: usize) -> Vec<u32> {
    let mut canvas = vec![BACKGROUND; w * h];
    draw_line_clipped_i64(ivec2(v1.0, v1.1), ivec2(v2.0, v2.1), &mut canvas, w, h);
    canvas
}

#[test]
fn narrow_drawer_matches_wide_drawer() {
    let ends: [(i32, i32); 12] = [
        (0, 0),
        (7, 7),
        (-3, 3),
        (12, 5),
        (3, -5),
        (4, 12),
        (1, 6),
        (6, 1),
        (-100, 40),
        (16384, -16384),
        (-16384, 9),
        (2, 0),
    ];
    for a in ends {
        for b in ends {
            assert_eq!(draw_i32(a, b, 8, 8), draw_i64(a, b, 8, 8));
            assert_eq!(draw_i32(a, b, 10, 6), draw_i64(a, b, 10, 6));
        }
    }
}

#[test]
fn narrow_drawer_example() {
    let canvas = draw_i32((1, 6), (6, 1), 8, 8);
    let mut set = Vec::new();
    for (i, p) in canvas.iter().enumerate() {
        if *p != BACKGROUND {
            assert_eq!(*p, black());
            set.push((i % 8, i / 8));
        }
    }
    assert_eq!(sorted(set), sorted(vec![(1, 6), (2, 5), (3, 4), (4, 3), (5, 2)]));
}
