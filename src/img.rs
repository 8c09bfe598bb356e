//! A pixel canvas for drawing a symbol with a quiet zone around it.
use vstd::prelude::*;
use crate::version::{size_of_version, Module, Version};
use crate::Code;

verus! {

/// A colour: red, green, blue.
#[derive(Clone, Copy, PartialEq, Eq, Structural, Debug)]
pub struct RGB(pub u8, pub u8, pub u8);

/// The bytes of `pixels`, three per pixel: red, green, blue.
pub open spec fn rgb_bytes(pixels: Seq<RGB>) -> Seq<u8> {
    Seq::new(3 * pixels.len(), |i: int| {
        let p = pixels[i / 3];
        if i % 3 == 0 {
            p.0
        } else if i % 3 == 1 {
            p.1
        } else {
            p.2
        }
    })
}

/// The red, green and blue bytes of each pixel in turn.
pub fn serialize_rgb(pixels: &Vec<RGB>, size: usize) -> (r: Vec<u8>)
    requires
        3 * pixels@.len() <= usize::MAX,
    ensures
        r@ == rgb_bytes(pixels@),
{
    let mut output: Vec<u8> = Vec::new();
    let mut i: usize = 0;
    while i < pixels.len()
        invariant
            3 * pixels@.len() <= usize::MAX,
            i <= pixels@.len(),
            output@ == rgb_bytes(pixels@.subrange(0, i as int)),
        decreases pixels@.len() - i,
    {
        let pix = pixels[i];
        output.push(pix.0);
        output.push(pix.1);
        output.push(pix.2);
        i += 1;
        assert(output@ =~= rgb_bytes(pixels@.subrange(0, i as int)));
    }
    assert(pixels@.subrange(0, pixels@.len() as int) =~= pixels@);
    output
}

/// Pixels are stored row after row.
proof fn lemma_pixel_index(w: int, h: int, x: int, y: int, a: int, b: int)
    requires
        0 <= x < w,
        0 <= y < h,
        0 <= a < w,
        0 <= b < h,
    ensures
        0 <= w * y + x < w * h,
        w * y + x == w * b + a ==> x == a && y == b,
{
    assert(0 <= w * y + x < w * h) by (nonlinear_arith)
        requires
            0 <= x < w,
            0 <= y < h,
    ;
    if y < b {
        assert(w * y + x < w * b + a) by (nonlinear_arith)
            requires
                0 <= x < w,
                0 <= a,
                y < b,
        ;
    } else if b < y {
        assert(w * b + a < w * y + x) by (nonlinear_arith)
            requires
                0 <= a < w,
                0 <= x,
                b < y,
        ;
    }
}

/// Whether pixel `(px, py)` lies in the block of module `(x, y)`: `ps` pixels a side, after a
/// quiet zone of `qz` modules.
pub open spec fn block_holds(x: int, y: int, qz: int, ps: int, px: int, py: int) -> bool {
    (x + qz) * ps <= px < (x + qz) * ps + ps && (y + qz) * ps <= py < (y + qz) * ps + ps
}

/// A grid of pixels, row after row, on which modules are drawn as squares of `pixel_size`
/// pixels, after a quiet zone of `quite_zone` modules.
pub struct Canvas {
    pixels: Vec<RGB>,
    width: u32,
    height: u32,
    pixel_size: u8,
    quite_zone: u8,
}

impl Canvas {
    pub closed spec fn spec_width(&self) -> u32 {
        self.width
    }

    pub closed spec fn spec_height(&self) -> u32 {
        self.height
    }

    pub closed spec fn spec_pixel_size(&self) -> u8 {
        self.pixel_size
    }

    pub closed spec fn spec_quiet_zone(&self) -> u8 {
        self.quite_zone
    }

    /// The pixels, row after row.
    pub closed spec fn spec_pixels(&self) -> Seq<RGB> {
        self.pixels@
    }

    /// The pixel in column `px` of row `py`.
    pub open spec fn pixel(&self, px: int, py: int) -> RGB {
        self.spec_pixels()[self.spec_width() * py + px]
    }

    /// One pixel per column of each row.
    pub open spec fn wf(&self) -> bool {
        &&& self.spec_pixels().len() == self.spec_width() * self.spec_height()
        &&& self.spec_width() * self.spec_height() <= u32::MAX
    }

    /// Paints pixel `(x, y)`; pixels in row 0, in column 0, or outside the canvas are left as
    /// they are.
    pub fn set_colour(&mut self, x: u32, y: u32, colour: &RGB)
        requires
            old(self).wf(),
        ensures
            final(self).wf(),
            final(self).spec_width() == old(self).spec_width(),
            final(self).spec_height() == old(self).spec_height(),
            final(self).spec_pixel_size() == old(self).spec_pixel_size(),
            final(self).spec_quiet_zone() == old(self).spec_quiet_zone(),
            forall|px: int, py: int| 0 <= px < old(self).spec_width() && 0 <= py < old(self).spec_height() ==> #[trigger] final(self).pixel(px, py) == if px == x && py == y && 0 < x && 0 < y {
                *colour
            } else {
                old(self).pixel(px, py)
            },
            final(self).spec_pixels() == if 0 < x < old(self).spec_width() && 0 < y < old(self).spec_height() {
                old(self).spec_pixels().update(old(self).spec_width() * y + x, *colour)
            } else {
                old(self).spec_pixels()
            },
    {
        if x > 0 && y > 0 && x < self.width && y < self.height {
            assert(self.width * y + x < self.width * self.height) by (nonlinear_arith)
                requires
                    x < self.width,
                    y < self.height,
            ;
            assert(self.width * y <= self.width * y + x);
            let i = (self.width * y + x) as usize;
            self.pixels.set(i, *colour);
            assert forall|px: int, py: int| 0 <= px < self.width && 0 <= py < self.height implies #[trigger] self.pixel(px, py) == if px == x && py == y && 0 < x && 0 < y {
                *colour
            } else {
                old(self).pixel(px, py)
            } by {
                lemma_pixel_index(self.width as int, self.height as int, x as int, y as int, px, py);
                lemma_pixel_index(self.width as int, self.height as int, px, py, px, py);
            }
        }
    }

    /// Paints the square of pixels of module `(x, y)`.
    pub fn set_pixel(&mut self, x: u32, y: u32, color: &RGB)
        requires
            old(self).wf(),
            x + old(self).spec_quiet_zone() < u32::MAX,
            y + old(self).spec_quiet_zone() < u32::MAX,
            (x + old(self).spec_quiet_zone() + 1) * old(self).spec_pixel_size() <= u32::MAX,
            (y + old(self).spec_quiet_zone() + 1) * old(self).spec_pixel_size() <= u32::MAX,
        ensures
            final(self).wf(),
            final(self).spec_width() == old(self).spec_width(),
            final(self).spec_height() == old(self).spec_height(),
            final(self).spec_pixel_size() == old(self).spec_pixel_size(),
            final(self).spec_quiet_zone() == old(self).spec_quiet_zone(),
            forall|px: int, py: int| 0 <= px < old(self).spec_width() && 0 <= py < old(self).spec_height() ==> #[trigger] final(self).pixel(px, py) == if 0 < px && 0 < py && block_holds(x as int, y as int, old(self).spec_quiet_zone() as int, old(self).spec_pixel_size() as int, px, py) {
                *color
            } else {
                old(self).pixel(px, py)
            },
    {
        let pixel_size = self.pixel_size as u32;
        let quite_zone = self.quite_zone as u32;
        let ghost start = self.pixels@;
        assert((x + quite_zone) * pixel_size + pixel_size == (x + quite_zone + 1) * pixel_size && (y + quite_zone) * pixel_size + pixel_size == (y + quite_zone + 1) * pixel_size) by (nonlinear_arith);
        assert((x + quite_zone) * pixel_size + pixel_size <= u32::MAX && (y + quite_zone) * pixel_size + pixel_size <= u32::MAX) by (nonlinear_arith)
            requires
                (x + quite_zone + 1) * pixel_size <= u32::MAX,
                (y + quite_zone + 1) * pixel_size <= u32::MAX,
        ;
        let bx = (x + quite_zone) * pixel_size;
        let by = (y + quite_zone) * pixel_size;
        let mut i: u32 = 0;
        while i < pixel_size
            invariant
                self.wf(),
                self.width == old(self).width,
                self.height == old(self).height,
                self.pixel_size == old(self).pixel_size,
                self.quite_zone == old(self).quite_zone,
                pixel_size == self.pixel_size,
                quite_zone == self.quite_zone,
                bx + pixel_size <= u32::MAX,
                by + pixel_size <= u32::MAX,
                start == old(self).pixels@,
                bx == (x + quite_zone) * pixel_size,
                by == (y + quite_zone) * pixel_size,
                i <= pixel_size,
                forall|px: int, py: int| 0 <= px < self.width && 0 <= py < self.height ==> #[trigger] self.pixel(px, py) == if 0 < px && 0 < py && bx <= px < bx + i && by <= py < by + pixel_size {
                    *color
                } else {
                    old(self).pixel(px, py)
                },
            decreases pixel_size - i,
        {
            let mut j: u32 = 0;
            while j < pixel_size
                invariant
                    self.wf(),
                    self.width == old(self).width,
                    self.height == old(self).height,
                    self.pixel_size == old(self).pixel_size,
                    self.quite_zone == old(self).quite_zone,
                    pixel_size == self.pixel_size,
                    quite_zone == self.quite_zone,
                    bx + pixel_size <= u32::MAX,
                    by + pixel_size <= u32::MAX,
                    start == old(self).pixels@,
                    bx == (x + quite_zone) * pixel_size,
                    by == (y + quite_zone) * pixel_size,
                    i < pixel_size,
                    j <= pixel_size,
                    forall|px: int, py: int| 0 <= px < self.width && 0 <= py < self.height ==> #[trigger] self.pixel(px, py) == if 0 < px && 0 < py && by <= py < by + pixel_size && (bx <= px < bx + i || (px == bx + i && py < by + j)) {
                        *color
                    } else {
                        old(self).pixel(px, py)
                    },
                decreases pixel_size - j,
            {
                self.set_colour(bx + i, by + j, color);
                j += 1;
            }
            i += 1;
        }
    }

    /// A white canvas for a version: the square plus a quiet zone of two modules on each
    /// side, eight pixels per module.
    pub fn for_version(v: Version) -> (r: Canvas)
        requires
            1 <= v.0 <= 5,
        ensures
            r.wf(),
            r.spec_width() == (size_of_version(v.0) + 4) * 8,
            r.spec_height() == (size_of_version(v.0) + 4) * 8,
            r.spec_quiet_zone() == 2,
            r.spec_pixel_size() == 8,
            forall|k: int| 0 <= k < r.spec_pixels().len() ==> #[trigger] r.spec_pixels()[k] == RGB(255, 255, 255),
    {
        let size = v.square_size() as u32;
        let canvas_size: u32 = (size + 2 * 2) * 8;
        assert(canvas_size * canvas_size <= u32::MAX) by (nonlinear_arith)
            requires
                canvas_size <= 328,
        ;
        Canvas::new(canvas_size, canvas_size, RGB(255, 255, 255), 2, 8)
    }

    /// A canvas filled with `bg_color`.
    pub fn new(width: u32, height: u32, bg_color: RGB, quite_zone: u8, pixel_size: u8) -> (r: Canvas)
        requires
            width * height <= u32::MAX,
        ensures
            r.wf(),
            r.spec_width() == width,
            r.spec_height() == height,
            r.spec_quiet_zone() == quite_zone,
            r.spec_pixel_size() == pixel_size,
            forall|k: int| 0 <= k < r.spec_pixels().len() ==> #[trigger] r.spec_pixels()[k] == bg_color,
    {
        let n = (width * height) as usize;
        let mut pixels: Vec<RGB> = Vec::new();
        let mut i: usize = 0;
        while i < n
            invariant
                n == width * height,
                i <= n,
                pixels@.len() == i,
                forall|k: int| 0 <= k < i ==> pixels@[k] == bg_color,
            decreases n - i,
        {
            pixels.push(bg_color);
            i += 1;
        }
        Canvas { width, height, quite_zone, pixel_size, pixels }
    }

    pub fn width(&self) -> (r: u32)
        ensures
            r == self.spec_width(),
    {
        self.width
    }

    pub fn height(&self) -> (r: u32)
        ensures
            r == self.spec_height(),
    {
        self.height
    }

    /// The pixels as bytes, three per pixel.
    pub fn rgb_bytes(&self) -> (r: Vec<u8>)
        requires
            self.wf(),
            3 * self.spec_pixels().len() <= usize::MAX,
        ensures
            r@ == rgb_bytes(self.spec_pixels()),
    {
        serialize_rgb(&self.pixels, (self.width * self.height) as usize)
    }
}

/// Draws a symbol: each module as a square of pixels, `colors[1]` for dark and `colors[0]` for
/// light, on a white canvas with a quiet zone.
pub fn render<const S: usize>(code: &Code<S>, colors: [RGB; 2]) -> (r: Canvas)
    requires
        code.wf(),
    ensures
        r.wf(),
        r.spec_width() == (size_of_version(code.version.0) + 4) * 8,
        r.spec_height() == (size_of_version(code.version.0) + 4) * 8,
        forall|px: int, py: int| 0 <= px < r.spec_width() && 0 <= py < r.spec_height() ==> {
            let p = #[trigger] r.pixel(px, py);
            p == RGB(255, 255, 255) || p == colors[0] || p == colors[1]
        },
{
    let mut img = Canvas::for_version(code.version);
    assert forall|px: int, py: int| 0 <= px < img.spec_width() && 0 <= py < img.spec_height() implies #[trigger] img.pixel(px, py) == RGB(255, 255, 255) by {
        lemma_pixel_index(img.spec_width() as int, img.spec_height() as int, px, py, px, py);
    }
    let modules = code.module_iter();
    let mut i: usize = 0;
    while i < modules.len()
        invariant
            img.wf(),
            img.spec_width() == (size_of_version(code.version.0) + 4) * 8,
            img.spec_height() == (size_of_version(code.version.0) + 4) * 8,
            img.spec_quiet_zone() == 2,
            img.spec_pixel_size() == 8,
            forall|px: int, py: int| 0 <= px < img.spec_width() && 0 <= py < img.spec_height() ==> {
                let p = #[trigger] img.pixel(px, py);
                p == RGB(255, 255, 255) || p == colors[0] || p == colors[1]
            },
        decreases modules@.len() - i,
    {
        let m = modules[i];
        let (x, y) = m.position();
        let colour = if m.is_dark() { colors[1] } else { colors[0] };
        img.set_pixel(x as u32, y as u32, &colour);
        i += 1;
    }
    img
}

/// The colour that shows a module's kind: black or green for dark or light data, red or white
/// for dark or light function modules.
pub fn module_to_color(m: Module) -> (r: RGB)
    ensures
        r == if m.carries_data() {
            if m.dark() { RGB(0, 0, 0) } else { RGB(0, 255, 0) }
        } else {
            if m.dark() { RGB(255, 0, 0) } else { RGB(255, 255, 255) }
        },
{
    if m.is_data() {
        if m.is_dark() {
            RGB(0, 0, 0)
        } else {
            RGB(0, 255, 0)
        }
    } else if m.is_dark() {
        RGB(255, 0, 0)
    } else {
        RGB(255, 255, 255)
    }
}

} // verus!
