use vstd::prelude::*;

use crate::error::ExtractError;
use crate::raster::Image;

verus! {

/// A pixel coordinate.
#[derive(Clone, Copy, Debug, PartialEq, Eq, Hash, Structural)]
pub struct XY {
    pub x: u32,
    pub y: u32,
}

impl XY {
    pub fn new(x: u32, y: u32) -> (p: XY)
        ensures
            p == (XY { x, y }),
    {
        XY { x, y }
    }

    pub fn x(&self) -> (v: u32)
        ensures
            v == self.x,
    {
        self.x
    }

    pub fn y(&self) -> (v: u32)
        ensures
            v == self.y,
    {
        self.y
    }
}

/// An axis-aligned rectangle of pixels; `right` and `bottom` are inclusive.
#[derive(Clone, Copy, Debug, PartialEq, Eq, Hash, Structural)]
pub struct Area {
    pub top: u32,
    pub left: u32,
    pub width: u32,
    pub height: u32,
}

/// The smallest rectangle that holds every pixel of `pixels`.
pub open spec fn is_bounding_area(a: Area, pixels: Set<XY>) -> bool {
    &&& a.wf()
    &&& forall|p: XY| pixels.contains(p) ==> a.contains_spec(p)
    &&& exists|p: XY| pixels.contains(p) && p.x == a.left
    &&& exists|p: XY| pixels.contains(p) && p.y == a.top
    &&& exists|p: XY| pixels.contains(p) && p.x == a.right_spec()
    &&& exists|p: XY| pixels.contains(p) && p.y == a.bottom_spec()
}

impl Area {
    /// Width and height are positive and the inclusive right and bottom
    /// edges are representable.
    pub open spec fn wf(self) -> bool {
        &&& self.width > 0
        &&& self.height > 0
        &&& self.left + self.width - 1 <= u32::MAX
        &&& self.top + self.height - 1 <= u32::MAX
    }

    pub open spec fn right_spec(self) -> int {
        self.left + self.width - 1
    }

    pub open spec fn bottom_spec(self) -> int {
        self.top + self.height - 1
    }

    pub open spec fn center_spec(self) -> XY {
        XY { x: (self.left + self.width / 2) as u32, y: (self.top + self.height / 2) as u32 }
    }

    pub open spec fn contains_spec(self, p: XY) -> bool {
        self.left <= p.x <= self.right_spec() && self.top <= p.y <= self.bottom_spec()
    }

    /// The rectangle lies inside an image of the given size.
    pub open spec fn fits(self, width: int, height: int) -> bool {
        self.wf() && self.right_spec() < width && self.bottom_spec() < height
    }

    /// A rectangle that must lie inside `img`.
    pub fn new(top: u32, left: u32, width: u32, height: u32, img: &Image) -> (r: Result<
        Area,
        ExtractError,
    >)
        ensures
            (width == 0 || height == 0) ==> r == Err::<Area, ExtractError>(
                ExtractError::AreaEmpty,
            ),
            (width > 0 && height > 0) ==> match r {
                Ok(a) => a == (Area { top, left, width, height }) && a.fits(
                    img.width as int,
                    img.height as int,
                ),
                Err(e) => e == ExtractError::AreaOutOfBounds && !(Area {
                    top,
                    left,
                    width,
                    height,
                }).fits(img.width as int, img.height as int),
            },
    {
        if width == 0 || height == 0 {
            return Err(ExtractError::AreaEmpty);
        }
        if left as u64 + width as u64 > img.width as u64 {
            return Err(ExtractError::AreaOutOfBounds);
        }
        if top as u64 + height as u64 > img.height as u64 {
            return Err(ExtractError::AreaOutOfBounds);
        }
        Ok(Area { top, left, width, height })
    }

    /// The bounding rectangle of a set of pixels, `None` when it is empty.
    pub fn new_from_pixels(pixels: &Vec<XY>) -> (r: Option<Area>)
        requires
            forall|i: int| 0 <= i < pixels.len() ==> #[trigger] pixels@[i].x < u32::MAX && pixels@[i].y < u32::MAX,
        ensures
            pixels.len() == 0 <==> r is None,
            r matches Some(a) ==> is_bounding_area(a, pixels@.to_set()),
    {
        if pixels.len() == 0 {
            return None;
        }
        let mut top: u32 = pixels[0].y;
        let mut bottom: u32 = pixels[0].y;
        let mut left: u32 = pixels[0].x;
        let mut right: u32 = pixels[0].x;
        let ghost mut i_top: int = 0;
        let ghost mut i_bottom: int = 0;
        let ghost mut i_left: int = 0;
        let ghost mut i_right: int = 0;
        let mut i: usize = 1;
        while i < pixels.len()
            invariant
                1 <= i <= pixels.len(),
                forall|j: int| 0 <= j < pixels.len() ==> #[trigger] pixels@[j].x < u32::MAX && pixels@[j].y < u32::MAX,
                left <= right,
                top <= bottom,
                0 <= i_top < i && pixels@[i_top].y == top,
                0 <= i_bottom < i && pixels@[i_bottom].y == bottom,
                0 <= i_left < i && pixels@[i_left].x == left,
                0 <= i_right < i && pixels@[i_right].x == right,
                forall|j: int|
                    0 <= j < i ==> left <= #[trigger] pixels@[j].x <= right && top
                        <= pixels@[j].y <= bottom,
            decreases pixels.len() - i,
        {
            let p = pixels[i];
            if p.y < top {
                top = p.y;
                proof {
                    i_top = i as int;
                }
            }
            if p.y > bottom {
                bottom = p.y;
                proof {
                    i_bottom = i as int;
                }
            }
            if p.x < left {
                left = p.x;
                proof {
                    i_left = i as int;
                }
            }
            if p.x > right {
                right = p.x;
                proof {
                    i_right = i as int;
                }
            }
            i = i + 1;
        }
        assert(pixels@[i_bottom].x < u32::MAX);
        let a = Area { top, left, width: right - left + 1, height: bottom - top + 1 };
        proof {
            let s = pixels@.to_set();
            assert(s.contains(pixels@[i_top]));
            assert(s.contains(pixels@[i_bottom]));
            assert(s.contains(pixels@[i_left]));
            assert(s.contains(pixels@[i_right]));
            assert forall|p: XY| s.contains(p) implies a.contains_spec(p) by {
                let j = choose|j: int| 0 <= j < pixels.len() && pixels@[j] == p;
                assert(left <= pixels@[j].x <= right);
            }
        }
        Some(a)
    }

    /// The midpoint of the integer rectangle.
    pub fn center(&self) -> (c: XY)
        requires
            self.wf(),
        ensures
            c == self.center_spec(),
    {
        XY { x: self.left + self.width / 2, y: self.top + self.height / 2 }
    }

    pub fn contains(&self, xy: &XY) -> (b: bool)
        requires
            self.wf(),
        ensures
            b == self.contains_spec(*xy),
    {
        xy.x >= self.left && xy.x <= self.right() && xy.y >= self.top && xy.y <= self.bottom()
    }

    pub fn top(&self) -> (v: u32)
        ensures
            v == self.top,
    {
        self.top
    }

    pub fn left(&self) -> (v: u32)
        ensures
            v == self.left,
    {
        self.left
    }

    pub fn width(&self) -> (v: u32)
        ensures
            v == self.width,
    {
        self.width
    }

    pub fn height(&self) -> (v: u32)
        ensures
            v == self.height,
    {
        self.height
    }

    pub fn right(&self) -> (v: u32)
        requires
            self.wf(),
        ensures
            v == self.right_spec(),
    {
        self.left + (self.width - 1)
    }

    pub fn bottom(&self) -> (v: u32)
        requires
            self.wf(),
        ensures
            v == self.bottom_spec(),
    {
        self.top + (self.height - 1)
    }

    /// The number of pixels covered.
    pub fn area(&self) -> (v: u32)
        requires
            self.width * self.height <= u32::MAX,
        ensures
            v == self.width * self.height,
    {
        self.width * self.height
    }
}

} // verus!
