//! The pixel buffer: a fixed width × height grid of colors with
//! bounds-checked access. Writes outside the grid are ignored; reads outside
//! the grid return the buffer's background color.

use vstd::prelude::*;

verus! {

/// An opaque RGBA color value. The rasterizer only copies colors, never
/// blends them.
#[derive(Clone, Copy, PartialEq, Eq, Structural, Debug)]
pub struct Color {
    pub r: u8,
    pub g: u8,
    pub b: u8,
    pub a: u8,
}

impl Color {
    pub fn new(r: u8, g: u8, b: u8, a: u8) -> (c: Color)
        ensures
            c == (Color { r, g, b, a }),
    {
        Color { r, g, b, a }
    }

    /// A fully opaque color.
    pub fn rgb(r: u8, g: u8, b: u8) -> (c: Color)
        ensures
            c == (Color { r, g, b, a: 255u8 }),
    {
        Color { r, g, b, a: 255 }
    }
}

/// A row-major grid of `width * height` colors, origin at the top left.
pub struct FrameBuffer {
    pub width: i32,
    pub height: i32,
    pub background: Color,
    pub pixels: Vec<Color>,
}

impl FrameBuffer {
    /// The buffer's internal invariant: positive dimensions and a pixel
    /// vector of exactly `width * height` cells.
    pub open spec fn wf(&self) -> bool {
        &&& 0 < self.width
        &&& 0 < self.height
        &&& self.pixels@.len() == self.width * self.height
    }

    /// The color stored at `(x, y)`, or the background color when `(x, y)`
    /// lies outside the grid.
    pub open spec fn pixel_at(&self, x: int, y: int) -> Color {
        if 0 <= x < self.width && 0 <= y < self.height {
            self.pixels@[y * self.width + x]
        } else {
            self.background
        }
    }

    pub fn new(width: i32, height: i32, background: Color) -> (fb: FrameBuffer)
        requires
            0 < width,
            0 < height,
            width * height <= usize::MAX,
        ensures
            fb.wf(),
            fb.width == width,
            fb.height == height,
            fb.background == background,
            forall|x: int, y: int| #[trigger] fb.pixel_at(x, y) == background,
    {
        let len: usize = (width as usize) * (height as usize);
        let mut pixels: Vec<Color> = Vec::new();
        let mut i: usize = 0;
        while i < len
            invariant
                i <= len,
                pixels@.len() == i,
                forall|j: int| 0 <= j < i ==> pixels@[j] == background,
            decreases len - i,
        {
            pixels.push(background);
            i = i + 1;
        }
        let fb = FrameBuffer { width, height, background, pixels };
        proof {
            assert forall|x: int, y: int| #[trigger] fb.pixel_at(x, y) == background by {
                if 0 <= x < fb.width && 0 <= y < fb.height {
                    assert(0 <= y * fb.width + x < fb.width * fb.height) by (nonlinear_arith)
                        requires
                            0 <= x < fb.width,
                            0 <= y < fb.height,
                    ;
                }
            }
        }
        fb
    }

    /// Writes `color` at `(x, y)` when the coordinates are in bounds;
    /// otherwise changes nothing.
    pub fn set_pixel(&mut self, x: i32, y: i32, color: Color)
        requires
            old(self).wf(),
        ensures
            final(self).wf(),
            final(self).width == old(self).width,
            final(self).height == old(self).height,
            final(self).background == old(self).background,
            forall|xi: int, yi: int|
                #[trigger] final(self).pixel_at(xi, yi) == if xi == x && yi == y {
                    if 0 <= x < old(self).width && 0 <= y < old(self).height {
                        color
                    } else {
                        old(self).pixel_at(xi, yi)
                    }
                } else {
                    old(self).pixel_at(xi, yi)
                },
    {
        if x >= 0 && x < self.width && y >= 0 && y < self.height {
            let n: usize = self.pixels.len();
            assert(0 <= y * self.width + x < self.width * self.height) by (nonlinear_arith)
                requires
                    0 <= x < self.width,
                    0 <= y < self.height,
            ;
            let index: usize = (y as usize) * (self.width as usize) + (x as usize);
            assert(index == y * self.width + x);
            self.pixels[index] = color;
            proof {
                assert forall|xi: int, yi: int|
                    !(xi == x && yi == y) implies #[trigger] self.pixel_at(xi, yi) == old(
                    self,
                ).pixel_at(xi, yi) by {
                    if 0 <= xi < self.width && 0 <= yi < self.height {
                        assert(0 <= yi * self.width + xi < self.width * self.height)
                            by (nonlinear_arith)
                            requires
                                0 <= xi < self.width,
                                0 <= yi < self.height,
                        ;
                        if yi != y {
                            assert(yi * self.width + xi != y * self.width + x)
                                by (nonlinear_arith)
                                requires
                                    0 <= xi < self.width,
                                    0 <= x < self.width,
                                    yi != y,
                            ;
                        }
                    }
                }
            }
        }
    }

    /// The stored color at `(x, y)`, or the background color when the
    /// coordinates are out of bounds.
    pub fn get_pixel(&self, x: i32, y: i32) -> (c: Color)
        requires
            self.wf(),
        ensures
            c == self.pixel_at(x as int, y as int),
    {
        if x >= 0 && x < self.width && y >= 0 && y < self.height {
            let n: usize = self.pixels.len();
            assert(0 <= y * self.width + x < self.width * self.height) by (nonlinear_arith)
                requires
                    0 <= x < self.width,
                    0 <= y < self.height,
            ;
            let index: usize = (y as usize) * (self.width as usize) + (x as usize);
            self.pixels[index]
        } else {
            self.background
        }
    }

    /// Overwrites every cell with `color`. The background sentinel for
    /// out-of-bounds reads is unchanged.
    pub fn clear(&mut self, color: Color)
        requires
            old(self).wf(),
        ensures
            final(self).wf(),
            final(self).width == old(self).width,
            final(self).height == old(self).height,
            final(self).background == old(self).background,
            forall|xi: int, yi: int|
                0 <= xi < old(self).width && 0 <= yi < old(self).height
                    ==> #[trigger] final(self).pixel_at(xi, yi) == color,
    {
        let len: usize = self.pixels.len();
        let mut i: usize = 0;
        while i < len
            invariant
                i <= len,
                self.pixels@.len() == len,
                self.width == old(self).width,
                self.height == old(self).height,
                self.background == old(self).background,
                forall|j: int| 0 <= j < i ==> self.pixels@[j] == color,
            decreases len - i,
        {
            self.pixels[i] = color;
            i = i + 1;
        }
        assert forall|xi: int, yi: int|
            0 <= xi < self.width && 0 <= yi < self.height implies #[trigger] self.pixel_at(
            xi,
            yi,
        ) == color by {
            assert(0 <= yi * self.width + xi < self.width * self.height) by (nonlinear_arith)
                requires
                    0 <= xi < self.width,
                    0 <= yi < self.height,
            ;
        }
    }
}

} // verus!
