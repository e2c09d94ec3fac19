use raster::color::Color;
use raster::framebuffer::Framebuffer;
use raster::line::{draw_polygon, line_points, plot_line_bresenham};

fn pixel_set(pts: &[(i32, i32)]) -> Vec<(i32, i32)> {
    let mut v: Vec<(i32, i32)> = pts.to_vec();
    v.sort();
    v.dedup();
    v
}

#[test]
fn line_emits_endpoints_and_exact_length() {
    let pts = line_points(0, 0, 5, 3);
    assert_eq!(pts.len(), 6);
    assert_eq!(pts[0], (0, 0));
    assert_eq!(pts[pts.len() - 1], (5, 3));

    let pts = line_points(-7, 2, -7, -9);
    assert_eq!(pts.len(), 12);
    assert_eq!(pts[0], (-7, 2));
    assert_eq!(pts[pts.len() - 1], (-7, -9));
}

#[test]
fn line_is_connected_8_path() {
    for &(x0, y0, x1, y1) in &[
        (0, 0, 10, 4),
        (3, -5, -6, 2),
        (1, 1, 1, 9),
        (4, 4, -4, -4),
        (0, 0, 9, 0),
    ] {
        let pts = line_points(x0, y0, x1, y1);
        assert_eq!(pts.len() as i64, 1 + (x1 as i64 - x0 as i64).abs().max((y1 as i64 - y0 as i64).abs()));
        for w in pts.windows(2) {
            let (a, b) = (w[0], w[1]);
            assert!(a != b);
            assert!((a.0 - b.0).abs() <= 1 && (a.1 - b.1).abs() <= 1);
        }
    }
}

#[test]
fn degenerate_line_emits_one_pixel() {
    let pts = line_points(2, 2, 2, 2);
    assert_eq!(pts, vec![(2, 2)]);
}

#[test]
fn known_line_sequence() {
    let pts = line_points(0, 0, 3, 1);
    assert_eq!(pts, vec![(0, 0), (1, 0), (2, 1), (3, 1)]);
}

#[test]
fn reversed_line_same_pixel_set() {
    // Axis-aligned and diagonal lines always reverse to the same pixel set;
    // the two general lines here happen to as well. (Not every line does:
    // (5,1)->(-5,2) and its reverse round the half-step crossing to
    // different rows, and the test below records that.)
    for &(x0, y0, x1, y1) in &[
        (0, 0, 5, 3),
        (0, 0, 1, 5),
        (2, 2, 2, 2),
        (0, 0, 8, 8),
        (7, -2, -1, 6),
        (3, 4, 9, 4),
        (3, 4, 3, -4),
    ] {
        let fwd = pixel_set(&line_points(x0, y0, x1, y1));
        let rev = pixel_set(&line_points(x1, y1, x0, y0));
        assert_eq!(fwd, rev);
    }
}

#[test]
fn reversal_can_round_the_half_step_differently() {
    let fwd = pixel_set(&line_points(5, 1, -5, 2));
    let rev = pixel_set(&line_points(-5, 2, 5, 1));
    assert!(fwd.contains(&(0, 2)) && !fwd.contains(&(0, 1)));
    assert!(rev.contains(&(0, 1)) && !rev.contains(&(0, 2)));
}

#[test]
fn plot_line_writes_clipped_pixels() {
    let mut fb = Framebuffer::new(4, 4, Color::black());
    plot_line_bresenham(&mut fb, -2, 1, 6, 1, Color::red());
    for x in 0..4 {
        assert_eq!(fb.get_pixel(x, 1), Some(Color::red()));
    }
    assert_eq!(fb.get_pixel(0, 0), Some(Color::black()));
    assert_eq!(fb.current_color(), Color::red());
}

#[test]
fn draw_polygon_draws_three_segments_with_closing_edge() {
    let mut fb = Framebuffer::new(16, 16, Color::black());
    let pts = vec![(0, 0), (10, 0), (10, 10)];
    draw_polygon(&mut fb, &pts, Color::blue());
    // the two explicit sides
    assert_eq!(fb.get_pixel(5, 0), Some(Color::blue()));
    assert_eq!(fb.get_pixel(10, 5), Some(Color::blue()));
    // the closing edge from (10, 10) back to (0, 0)
    assert_eq!(fb.get_pixel(5, 5), Some(Color::blue()));
    // the vertices
    assert_eq!(fb.get_pixel(0, 0), Some(Color::blue()));
    assert_eq!(fb.get_pixel(10, 0), Some(Color::blue()));
    assert_eq!(fb.get_pixel(10, 10), Some(Color::blue()));
    // something off the outline stays background
    assert_eq!(fb.get_pixel(2, 8), Some(Color::black()));
}

#[test]
fn draw_polygon_under_two_points_writes_nothing() {
    let mut fb = Framebuffer::new(8, 8, Color::black());
    fb.set_current_color(Color::red());
    let one = vec![(3, 3)];
    draw_polygon(&mut fb, &one, Color::blue());
    for y in 0..8 {
        for x in 0..8 {
            assert_eq!(fb.get_pixel(x, y), Some(Color::black()));
        }
    }
    // even the drawing color is untouched
    assert_eq!(fb.current_color(), Color::red());

    let none: Vec<(i32, i32)> = vec![];
    draw_polygon(&mut fb, &none, Color::blue());
    assert_eq!(fb.get_pixel(3, 3), Some(Color::black()));
}
