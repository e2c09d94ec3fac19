use raster::color::Color;
use raster::framebuffer::Framebuffer;

#[test]
fn new_buffer_is_background_colored() {
    let fb = Framebuffer::new(3, 2, Color::blue());
    assert_eq!(fb.width(), 3);
    assert_eq!(fb.height(), 2);
    assert_eq!(fb.background_color(), Color::blue());
    assert_eq!(fb.current_color(), Color::white());
    for y in 0..2 {
        for x in 0..3 {
            assert_eq!(fb.get_pixel(x, y), Some(Color::blue()));
        }
    }
}

#[test]
fn set_pixel_writes_current_color_in_bounds() {
    let mut fb = Framebuffer::new(4, 4, Color::black());
    fb.set_current_color(Color::red());
    fb.set_pixel(2, 3);
    assert_eq!(fb.get_pixel(2, 3), Some(Color::red()));
    assert_eq!(fb.get_pixel(3, 2), Some(Color::black()));
}

#[test]
fn out_of_bounds_writes_are_silent_no_ops() {
    let mut fb = Framebuffer::new(4, 4, Color::black());
    fb.set_current_color(Color::red());
    fb.set_pixel(-1, 2);
    fb.set_pixel(2, -1);
    fb.set_pixel(4, 0);
    fb.set_pixel(0, 4);
    fb.set_pixel(i32::MIN, i32::MAX);
    for y in 0..4 {
        for x in 0..4 {
            assert_eq!(fb.get_pixel(x, y), Some(Color::black()));
        }
    }
    assert_eq!(fb.get_pixel(-1, 2), None);
    assert_eq!(fb.get_pixel(4, 0), None);
}

#[test]
fn clear_uses_the_latest_background_color() {
    let mut fb = Framebuffer::new(2, 2, Color::black());
    fb.set_current_color(Color::red());
    fb.set_pixel(0, 0);
    fb.set_background_color(Color::blue());
    fb.clear();
    for y in 0..2 {
        for x in 0..2 {
            assert_eq!(fb.get_pixel(x, y), Some(Color::blue()));
        }
    }
    // clearing does not touch the drawing color
    assert_eq!(fb.current_color(), Color::red());
}

#[test]
fn color_constructors() {
    assert_eq!(Color::rgb(1, 2, 3), Color { r: 1, g: 2, b: 3, a: 255 });
    assert_eq!(Color::white(), Color { r: 255, g: 255, b: 255, a: 255 });
    assert_eq!(Color::black(), Color { r: 0, g: 0, b: 0, a: 255 });
    assert_eq!(Color::red(), Color { r: 255, g: 0, b: 0, a: 255 });
    assert_eq!(Color::blue(), Color { r: 0, g: 0, b: 255, a: 255 });
}
