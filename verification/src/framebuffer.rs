use vstd::prelude::*;
use crate::color::Color;

verus! {

/// A mutable `width` x `height` pixel surface. Every write goes through
/// `set_pixel`, which silently drops coordinates outside
/// `[0, width) x [0, height)`: boundary clipping is the buffer's
/// responsibility, not the rasterizer's.
pub struct Framebuffer {
    width: u32,
    height: u32,
    rows: Vec<Vec<Color>>,
    background_color: Color,
    current_color: Color,
}

impl Framebuffer {
    /// The row grid matches the stated dimensions, and the dimensions are
    /// small enough that every addressable pixel has an `i32` coordinate.
    pub closed spec fn wf(self) -> bool {
        &&& self.width <= 0x7fff_ffff
        &&& self.height <= 0x7fff_ffff
        &&& self.rows@.len() == self.height as int
        &&& forall|j: int| 0 <= j < self.height as int ==> (#[trigger] self.rows@[j])@.len() == self.width as int
    }

    pub closed spec fn width_spec(self) -> int {
        self.width as int
    }

    pub closed spec fn height_spec(self) -> int {
        self.height as int
    }

    pub closed spec fn background_spec(self) -> Color {
        self.background_color
    }

    pub closed spec fn current_spec(self) -> Color {
        self.current_color
    }

    /// The dimensions of a well-formed buffer fit in i32 coordinates.
    pub proof fn lemma_wf_bounds(self)
        requires
            self.wf(),
        ensures
            0 <= self.width_spec() <= 0x7fff_ffff,
            0 <= self.height_spec() <= 0x7fff_ffff,
    {
    }

    /// Whether (x, y) lies inside the surface.
    pub open spec fn in_bounds(self, x: int, y: int) -> bool {
        0 <= x < self.width_spec() && 0 <= y < self.height_spec()
    }

    /// The color stored at (x, y).
    pub closed spec fn pixel(self, x: int, y: int) -> Color
        recommends
            self.in_bounds(x, y),
    {
        self.rows@[y]@[x]
    }

    /// The two buffers agree on dimensions, background and current color.
    pub open spec fn same_config(self, other: Framebuffer) -> bool {
        &&& self.width_spec() == other.width_spec()
        &&& self.height_spec() == other.height_spec()
        &&& self.background_spec() == other.background_spec()
        &&& self.current_spec() == other.current_spec()
    }

    /// A new buffer with every pixel set to the background color and white as
    /// the initial drawing color.
    pub fn new(width: u32, height: u32, background_color: Color) -> (fb: Framebuffer)
        requires
            width <= 0x7fff_ffff,
            height <= 0x7fff_ffff,
        ensures
            fb.wf(),
            fb.width_spec() == width as int,
            fb.height_spec() == height as int,
            fb.background_spec() == background_color,
            fb.current_spec() == (Color { r: 255, g: 255, b: 255, a: 255 }),
            forall|x: int, y: int| fb.in_bounds(x, y) ==> fb.pixel(x, y) == background_color,
    {
        let rows = solid_grid(width, height, background_color);
        Framebuffer {
            width,
            height,
            rows,
            background_color,
            current_color: Color::white(),
        }
    }

    /// Resets every pixel to the background color; nothing else changes.
    pub fn clear(&mut self)
        requires
            old(self).wf(),
        ensures
            final(self).wf(),
            final(self).same_config(*old(self)),
            forall|x: int, y: int| final(self).in_bounds(x, y)
                ==> final(self).pixel(x, y) == old(self).background_spec(),
    {
        self.rows = solid_grid(self.width, self.height, self.background_color);
    }

    /// Writes the current color at (x, y) when the coordinate is in bounds;
    /// out-of-range writes are silently dropped.
    pub fn set_pixel(&mut self, x: i32, y: i32)
        requires
            old(self).wf(),
        ensures
            final(self).wf(),
            final(self).same_config(*old(self)),
            forall|px: int, py: int| old(self).in_bounds(px, py)
                ==> final(self).pixel(px, py) == (if px == x as int && py == y as int {
                    old(self).current_spec()
                } else {
                    old(self).pixel(px, py)
                }),
            !old(self).in_bounds(x as int, y as int) ==> *final(self) == *old(self),
    {
        if 0 <= x && (x as u32) < self.width && 0 <= y && (y as u32) < self.height {
            let xi = x as usize;
            let yi = y as usize;
            self.rows[yi][xi] = self.current_color;
            proof {
                assert(forall|j: int| 0 <= j < self.height as int && j != yi as int
                    ==> #[trigger] self.rows@[j] == old(self).rows@[j]);
            }
        }
    }

    /// Changes the background used by future calls to `clear`.
    pub fn set_background_color(&mut self, color: Color)
        requires
            old(self).wf(),
        ensures
            final(self).wf(),
            final(self).width_spec() == old(self).width_spec(),
            final(self).height_spec() == old(self).height_spec(),
            final(self).background_spec() == color,
            final(self).current_spec() == old(self).current_spec(),
            forall|px: int, py: int| old(self).in_bounds(px, py)
                ==> final(self).pixel(px, py) == old(self).pixel(px, py),
    {
        self.background_color = color;
    }

    /// Changes the color used by future pixel writes.
    pub fn set_current_color(&mut self, color: Color)
        requires
            old(self).wf(),
        ensures
            final(self).wf(),
            final(self).width_spec() == old(self).width_spec(),
            final(self).height_spec() == old(self).height_spec(),
            final(self).background_spec() == old(self).background_spec(),
            final(self).current_spec() == color,
            forall|px: int, py: int| old(self).in_bounds(px, py)
                ==> final(self).pixel(px, py) == old(self).pixel(px, py),
    {
        self.current_color = color;
    }

    /// Reads back a pixel: `None` exactly when (x, y) is out of bounds.
    pub fn get_pixel(&self, x: i32, y: i32) -> (c: Option<Color>)
        requires
            self.wf(),
        ensures
            c == (if self.in_bounds(x as int, y as int) {
                Some(self.pixel(x as int, y as int))
            } else {
                None::<Color>
            }),
    {
        if 0 <= x && (x as u32) < self.width && 0 <= y && (y as u32) < self.height {
            Some(self.rows[y as usize][x as usize])
        } else {
            None
        }
    }

    pub fn width(&self) -> (w: u32)
        ensures
            w as int == self.width_spec(),
    {
        self.width
    }

    pub fn height(&self) -> (h: u32)
        ensures
            h as int == self.height_spec(),
    {
        self.height
    }

    pub fn current_color(&self) -> (c: Color)
        ensures
            c == self.current_spec(),
    {
        self.current_color
    }

    pub fn background_color(&self) -> (c: Color)
        ensures
            c == self.background_spec(),
    {
        self.background_color
    }
}

/// One row of `width` copies of `color`.
fn solid_row(width: u32, color: Color) -> (row: Vec<Color>)
    ensures
        row@.len() == width as int,
        forall|i: int| 0 <= i < width as int ==> row@[i] == color,
{
    let mut row: Vec<Color> = Vec::new();
    let mut i: u32 = 0;
    while i < width
        invariant
            i <= width,
            row@.len() == i as int,
            forall|k: int| 0 <= k < i as int ==> row@[k] == color,
        decreases width - i,
    {
        row.push(color);
        i = i + 1;
    }
    row
}

/// A `height`-row grid in which every pixel holds `color`.
fn solid_grid(width: u32, height: u32, color: Color) -> (rows: Vec<Vec<Color>>)
    ensures
        rows@.len() == height as int,
        forall|j: int| 0 <= j < height as int ==> (#[trigger] rows@[j])@.len() == width as int,
        forall|j: int, i: int| 0 <= j < height as int && 0 <= i < width as int
            ==> #[trigger] rows@[j]@[i] == color,
{
    let mut rows: Vec<Vec<Color>> = Vec::new();
    let mut j: u32 = 0;
    while j < height
        invariant
            j <= height,
            rows@.len() == j as int,
            forall|k: int| 0 <= k < j as int ==> (#[trigger] rows@[k])@.len() == width as int,
            forall|k: int, i: int| 0 <= k < j as int && 0 <= i < width as int
                ==> #[trigger] rows@[k]@[i] == color,
        decreases height - j,
    {
        rows.push(solid_row(width, color));
        j = j + 1;
    }
    rows
}

} // verus!
