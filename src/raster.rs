use vstd::prelude::*;

use crate::color::RGB;
use crate::geometry::{Area, XY};

verus! {

/// `p` lies inside a grid of the given size.
pub open spec fn in_grid(width: int, height: int, p: XY) -> bool {
    p.x < width && p.y < height
}

/// Row-major position of `p` in a grid of the given width.
pub open spec fn cell(width: int, p: XY) -> int {
    p.y * width + p.x
}

pub proof fn lemma_cell_bounds(width: int, height: int, p: XY)
    requires
        in_grid(width, height, p),
    ensures
        0 <= cell(width, p) < width * height,
{
    let (x, y) = (p.x as int, p.y as int);
    assert(0 <= y * width + x < width * height) by (nonlinear_arith)
        requires
            0 <= x < width,
            0 <= y < height,
    ;
}

pub proof fn lemma_cell_injective(width: int, p: XY, q: XY)
    requires
        p.x < width,
        q.x < width,
        cell(width, p) == cell(width, q),
    ensures
        p == q,
{
    let (px, py, qx, qy) = (p.x as int, p.y as int, q.x as int, q.y as int);
    assert(py == qy) by (nonlinear_arith)
        requires
            0 <= px < width,
            0 <= qx < width,
            0 <= py,
            0 <= qy,
            py * width + px == qy * width + qx,
    {
        if py < qy {
            assert(py * width + width <= qy * width);
        } else if py > qy {
            assert(qy * width + width <= py * width);
        }
    }
}

/// Row-major position of `p` in a grid of the given size.
pub fn cell_index(width: u32, height: u32, p: XY) -> (i: usize)
    requires
        in_grid(width as int, height as int, p),
        width * height <= usize::MAX,
    ensures
        i == cell(width as int, p),
        i < width * height,
{
    proof {
        lemma_cell_bounds(width as int, height as int, p);
    }
    p.y as usize * width as usize + p.x as usize
}

/// An RGBA pixel; alpha 0 means transparent, whatever the colour.
#[derive(Clone, Copy, Debug, PartialEq, Eq, Structural)]
pub struct Pixel {
    pub r: u8,
    pub g: u8,
    pub b: u8,
    pub a: u8,
}

impl Pixel {
    pub open spec fn color(self) -> RGB {
        RGB { r: self.r, g: self.g, b: self.b }
    }

    pub open spec fn transparent_spec(self) -> bool {
        self.a == 0
    }

    /// The transparent pixel (0, 0, 0, 0).
    pub fn transparent() -> (p: Pixel)
        ensures
            p == (Pixel { r: 0, g: 0, b: 0, a: 0 }),
    {
        Pixel { r: 0, g: 0, b: 0, a: 0 }
    }

    pub fn is_transparent(&self) -> (t: bool)
        ensures
            t == self.transparent_spec(),
    {
        self.a == 0
    }

    pub fn rgb(&self) -> (c: RGB)
        ensures
            c == self.color(),
    {
        RGB { r: self.r, g: self.g, b: self.b }
    }
}

/// `pixels` is at least `1 / denominator` of the pixel count of `img`.
pub fn is_at_least_this_much_of_image(pixels: usize, img: &Image, denominator: u64) -> (b: bool)
    ensures
        b == (denominator * pixels >= img.width * img.height),
{
    let (d, p, w, h) = (denominator as u128, pixels as u128, img.width as u128, img.height as u128);
    assert(d * p <= u64::MAX * u64::MAX && w * h <= u64::MAX * u64::MAX) by (nonlinear_arith)
        requires
            d <= u64::MAX,
            p <= u64::MAX,
            w <= u64::MAX,
            h <= u64::MAX,
    ;
    d * p >= w * h
}

impl Area {
    /// Paints every pixel of the rectangle, its right and bottom edges
    /// included, opaque in `color`.
    pub fn color(&self, img: &mut Image, color: &RGB)
        requires
            old(img).wf(),
            self.fits(old(img).width as int, old(img).height as int),
        ensures
            final(img).wf(),
            final(img).width == old(img).width,
            final(img).height == old(img).height,
            forall|p: XY|
                old(img).contains_spec(p) ==> #[trigger] final(img).at(p) == if self.contains_spec(p) {
                    Pixel { r: color.r, g: color.g, b: color.b, a: 255 }
                } else {
                    old(img).at(p)
                },
    {
        let ghost start = *img;
        let ghost (w, h) = (img.width as int, img.height as int);
        let paint = Pixel { r: color.r, g: color.g, b: color.b, a: 255 };
        let end_x = self.right() + 1;
        let end_y = self.bottom() + 1;
        let mut x = self.left;
        while x < end_x
            invariant
                img.wf(),
                w == img.width as int,
                h == img.height as int,
                w == start.width as int,
                h == start.height as int,
                self.fits(w, h),
                end_x == self.right_spec() + 1,
                end_y == self.bottom_spec() + 1,
                self.left <= x <= end_x,
                forall|p: XY|
                    in_grid(w, h, p) ==> #[trigger] img.at(p) == if self.left <= p.x < x && self.top
                        <= p.y < end_y {
                        paint
                    } else {
                        start.at(p)
                    },
            decreases end_x - x,
        {
            let mut y = self.top;
            while y < end_y
                invariant
                    img.wf(),
                    w == img.width as int,
                    h == img.height as int,
                    w == start.width as int,
                    h == start.height as int,
                    self.fits(w, h),
                    end_x == self.right_spec() + 1,
                    end_y == self.bottom_spec() + 1,
                    self.left <= x < end_x,
                    self.top <= y <= end_y,
                    forall|p: XY|
                        in_grid(w, h, p) ==> #[trigger] img.at(p) == if (self.left <= p.x < x
                            && self.top <= p.y < end_y) || (p.x == x && self.top <= p.y < y) {
                            paint
                        } else {
                            start.at(p)
                        },
                decreases end_y - y,
            {
                let ghost before = *img;
                img.put_pixel(x, y, paint);
                proof {
                    let q = XY { x, y };
                    lemma_cell_bounds(w, h, q);
                    assert forall|p: XY| in_grid(w, h, p) implies #[trigger] img.at(p) == if (self.left
                        <= p.x < x && self.top <= p.y < end_y) || (p.x == x && self.top <= p.y < y
                        + 1) {
                        paint
                    } else {
                        start.at(p)
                    } by {
                        lemma_cell_bounds(w, h, p);
                        if p != q {
                            if cell(w, p) == cell(w, q) {
                                lemma_cell_injective(w, p, q);
                            }
                            assert(img.at(p) == before.at(p));
                        }
                    }
                }
                y = y + 1;
            }
            x = x + 1;
        }
    }
}

/// A row-major RGBA pixel buffer.
#[derive(Clone)]
pub struct Image {
    pub width: u32,
    pub height: u32,
    pub pixels: Vec<Pixel>,
}

impl Image {
    pub open spec fn wf(&self) -> bool {
        self.pixels.len() == self.width * self.height
    }

    pub open spec fn contains_spec(&self, p: XY) -> bool {
        in_grid(self.width as int, self.height as int, p)
    }

    /// The pixel at `p`.
    pub open spec fn at(&self, p: XY) -> Pixel {
        self.pixels@[cell(self.width as int, p)]
    }

    /// An image of the given size with every pixel set to `fill`.
    pub fn new(width: u32, height: u32, fill: Pixel) -> (img: Image)
        requires
            width * height <= usize::MAX,
        ensures
            img.wf(),
            img.width == width,
            img.height == height,
            forall|p: XY| img.contains_spec(p) ==> img.at(p) == fill,
    {
        let n = width as usize * height as usize;
        let mut pixels: Vec<Pixel> = Vec::new();
        let mut i: usize = 0;
        while i < n
            invariant
                i <= n,
                pixels.len() == i,
                forall|j: int| 0 <= j < i ==> pixels@[j] == fill,
            decreases n - i,
        {
            pixels.push(fill);
            i = i + 1;
        }
        let img = Image { width, height, pixels };
        assert forall|p: XY| img.contains_spec(p) implies img.at(p) == fill by {
            lemma_cell_bounds(width as int, height as int, p);
        }
        img
    }

    pub fn width(&self) -> (v: u32)
        ensures
            v == self.width,
    {
        self.width
    }

    pub fn height(&self) -> (v: u32)
        ensures
            v == self.height,
    {
        self.height
    }

    /// Position of `(x, y)` in the pixel buffer.
    pub fn index_of(&self, x: u32, y: u32) -> (i: usize)
        requires
            self.wf(),
            x < self.width,
            y < self.height,
        ensures
            i == cell(self.width as int, XY { x, y }),
            i < self.pixels.len(),
    {
        cell_index(self.width, self.height, XY { x, y })
    }

    pub fn get_pixel(&self, x: u32, y: u32) -> (p: Pixel)
        requires
            self.wf(),
            x < self.width,
            y < self.height,
        ensures
            p == self.at(XY { x, y }),
    {
        let i = self.index_of(x, y);
        self.pixels[i]
    }

    pub fn put_pixel(&mut self, x: u32, y: u32, p: Pixel)
        requires
            old(self).wf(),
            x < old(self).width,
            y < old(self).height,
        ensures
            final(self).wf(),
            final(self).width == old(self).width,
            final(self).height == old(self).height,
            final(self).pixels@ == old(self).pixels@.update(
                cell(old(self).width as int, XY { x, y }),
                p,
            ),
    {
        let i = self.index_of(x, y);
        self.pixels.set(i, p);
    }
}

} // verus!
