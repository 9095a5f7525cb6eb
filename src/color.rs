use vstd::prelude::*;

verus! {

/// An 8-bit sRGB colour.
#[derive(Clone, Copy, Debug, PartialEq, Eq, Structural)]
pub struct RGB {
    pub r: u8,
    pub g: u8,
    pub b: u8,
}

impl RGB {
    pub fn new(r: u8, g: u8, b: u8) -> (c: RGB)
        ensures
            c == (RGB { r, g, b }),
    {
        RGB { r, g, b }
    }

    pub fn r(&self) -> (v: u8)
        ensures
            v == self.r,
    {
        self.r
    }

    pub fn g(&self) -> (v: u8)
        ensures
            v == self.g,
    {
        self.g
    }

    pub fn b(&self) -> (v: u8)
        ensures
            v == self.b,
    {
        self.b
    }
}

/// `1000 * 256 * Y` for the BT.601 luma `Y = (0.299 R + 0.587 G + 0.114 B) / 256`.
pub open spec fn luma_scaled(c: RGB) -> int {
    299 * c.r + 587 * c.g + 114 * c.b
}

pub open spec fn abs(v: int) -> int {
    if v < 0 {
        -v
    } else {
        v
    }
}

/// The colour of a fiducial: bright and nearly achromatic, that is
/// `Y > 0.7`, `|U| < 0.15` and `|V| < 0.15` with channels scaled by 1/256,
/// `U = 0.492 (B - Y)` and `V = 0.877 (R - Y)`, compared exactly.
pub open spec fn is_marker_white(c: RGB) -> bool {
    let s = luma_scaled(c);
    &&& s > 179_200
    &&& 492 * abs(1000 * c.b - s) < 38_400_000
    &&& 877 * abs(1000 * c.r - s) < 38_400_000
}

impl RGB {
    /// Whether this colour passes the fiducial brightness test.
    pub fn is_marker_white(&self) -> (b: bool)
        ensures
            b == is_marker_white(*self),
    {
        let s: i64 = 299 * self.r as i64 + 587 * self.g as i64 + 114 * self.b as i64;
        let du: i64 = 1000 * self.b as i64 - s;
        let dv: i64 = 1000 * self.r as i64 - s;
        let du_abs: i64 = if du < 0 {
            -du
        } else {
            du
        };
        let dv_abs: i64 = if dv < 0 {
            -dv
        } else {
            dv
        };
        s > 179_200 && 492 * du_abs < 38_400_000 && 877 * dv_abs < 38_400_000
    }
}

} // verus!
