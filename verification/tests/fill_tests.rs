use raster::color::Color;
use raster::fill::{add_edges, fill_polygon_scanline, Edge};
use raster::framebuffer::Framebuffer;
use raster::line::draw_polygon;

fn empty_table(rows: usize) -> Vec<Vec<Edge>> {
    let mut t: Vec<Vec<Edge>> = Vec::new();
    for _ in 0..rows {
        t.push(Vec::new());
    }
    t
}

#[test]
fn square_fill_matches_point_in_polygon_oracle() {
    // Square (0,0)-(4,0)-(4,4)-(0,4): exactly 0 <= x < 4, 0 <= y < 4 is filled.
    let mut fb = Framebuffer::new(8, 8, Color::black());
    let outer = vec![(0, 0), (4, 0), (4, 4), (0, 4)];
    let holes: Vec<Vec<(i32, i32)>> = Vec::new();
    fill_polygon_scanline(&mut fb, &outer, &holes, Color::red());
    for y in 0..8 {
        for x in 0..8 {
            let expected = if x < 4 && y < 4 { Color::red() } else { Color::black() };
            assert_eq!(fb.get_pixel(x, y), Some(expected), "pixel ({}, {})", x, y);
        }
    }
    assert_eq!(fb.current_color(), Color::red());
}

#[test]
fn triangle_fill_stays_inside_bounding_box() {
    let mut fb = Framebuffer::new(16, 16, Color::black());
    let outer = vec![(0, 0), (8, 0), (0, 8)];
    let holes: Vec<Vec<(i32, i32)>> = Vec::new();
    fill_polygon_scanline(&mut fb, &outer, &holes, Color::blue());
    // a clearly interior pixel and a clearly exterior one
    assert_eq!(fb.get_pixel(1, 1), Some(Color::blue()));
    assert_eq!(fb.get_pixel(2, 3), Some(Color::blue()));
    assert_eq!(fb.get_pixel(7, 7), Some(Color::black()));
    assert_eq!(fb.get_pixel(12, 2), Some(Color::black()));
}

#[test]
fn hole_interior_is_excluded_and_its_outline_restores_border() {
    let mut fb = Framebuffer::new(16, 16, Color::black());
    let outer = vec![(0, 0), (12, 0), (12, 12), (0, 12)];
    let hole = vec![(3, 3), (8, 3), (8, 8), (3, 8)];
    let holes = vec![hole.clone()];
    fill_polygon_scanline(&mut fb, &outer, &holes, Color::red());
    // ring between outer boundary and hole is filled
    assert_eq!(fb.get_pixel(1, 1), Some(Color::red()));
    assert_eq!(fb.get_pixel(10, 6), Some(Color::red()));
    // the hole interior stays background (even-odd parity)
    assert_eq!(fb.get_pixel(5, 5), Some(Color::black()));
    assert_eq!(fb.get_pixel(4, 6), Some(Color::black()));
    // drawing the hole's own outline afterwards restores its border pixels
    draw_polygon(&mut fb, &hole, Color::red());
    assert_eq!(fb.get_pixel(3, 3), Some(Color::red()));
    assert_eq!(fb.get_pixel(8, 5), Some(Color::red()));
    assert_eq!(fb.get_pixel(5, 5), Some(Color::black()));
}

#[test]
fn rectangle_contributes_two_edges_not_four() {
    // Rows 0..=4, so the table has 5 buckets; the two horizontal sides of the
    // rectangle contribute no edges.
    let mut table = empty_table(5);
    let rect = vec![(0, 0), (4, 0), (4, 4), (0, 4)];
    add_edges(&mut table, &rect, 0, 4);
    let total: usize = table.iter().map(|row| row.len()).sum();
    assert_eq!(total, 2);
}

#[test]
fn degenerate_flat_polygon_fills_nothing() {
    let mut fb = Framebuffer::new(8, 8, Color::black());
    let outer = vec![(0, 5), (4, 5), (2, 5)];
    let holes: Vec<Vec<(i32, i32)>> = Vec::new();
    fill_polygon_scanline(&mut fb, &outer, &holes, Color::red());
    for y in 0..8 {
        for x in 0..8 {
            assert_eq!(fb.get_pixel(x, y), Some(Color::black()));
        }
    }
}

#[test]
fn fill_clips_to_the_buffer() {
    let mut fb = Framebuffer::new(4, 4, Color::black());
    let outer = vec![(-3, -3), (9, -3), (9, 9), (-3, 9)];
    let holes: Vec<Vec<(i32, i32)>> = Vec::new();
    fill_polygon_scanline(&mut fb, &outer, &holes, Color::red());
    for y in 0..4 {
        for x in 0..4 {
            assert_eq!(fb.get_pixel(x, y), Some(Color::red()));
        }
    }
}
