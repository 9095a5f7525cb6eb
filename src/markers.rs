use vstd::prelude::*;

use crate::color::is_marker_white;
use crate::error::{Corner, ExtractError};
use crate::flood::{flood_fill, region};
use crate::geometry::{is_bounding_area, Area, XY};
use crate::raster::{is_at_least_this_much_of_image, Image, Pixel};

verus! {

/// Scan layers per axis.
pub const MARKER_SCAN_STEPS: u32 = 30;

/// Seeds tried per corner.
pub const MARKER_SCAN_SEEDS: u32 = 900;

/// A fiducial must cover at least one ten-thousandth of the image.
pub const MARKER_THRESHOLD_DENOMINATOR: u64 = 10_000;

/// Distance between scan layers along an axis of the given extent:
/// one hundredth of it, at least one pixel.
pub open spec fn scan_step(extent: int) -> int {
    if extent / 100 > 1 {
        extent / 100
    } else {
        1
    }
}

/// The scan stays short of the middle of the image on both axes.
pub open spec fn scan_fits(width: int, height: int) -> bool {
    &&& 2 * MARKER_SCAN_STEPS * scan_step(width) < width
    &&& 2 * MARKER_SCAN_STEPS * scan_step(height) < height
}

/// The `k`-th seed tried for `corner`: layer `k / 30` across, `k % 30` down,
/// walking inward from the corner.
pub open spec fn scan_seed(corner: Corner, width: int, height: int, k: int) -> XY {
    let dx = (k / MARKER_SCAN_STEPS as int) * scan_step(width);
    let dy = (k % MARKER_SCAN_STEPS as int) * scan_step(height);
    let x = match corner {
        Corner::TopLeft | Corner::BottomLeft => dx,
        Corner::TopRight | Corner::BottomRight => width - 1 - dx,
    };
    let y = match corner {
        Corner::TopLeft | Corner::TopRight => dy,
        Corner::BottomLeft | Corner::BottomRight => height - 1 - dy,
    };
    XY { x: x as u32, y: y as u32 }
}

/// Which pixels have the fiducial colour, row-major.
pub open spec fn white_mask(pixels: Seq<Pixel>) -> Seq<bool> {
    pixels.map_values(|p: Pixel| is_marker_white(p.color()))
}

/// The white blob reached from the `k`-th seed of `corner`.
pub open spec fn scan_region(img: Image, corner: Corner, k: int) -> Set<XY> {
    region(
        white_mask(img.pixels@),
        img.width as int,
        img.height as int,
        scan_seed(corner, img.width as int, img.height as int, k),
    )
}

/// The `k`-th seed of `corner` reaches a blob large enough to be a fiducial.
pub open spec fn scan_hit(img: Image, corner: Corner, k: int) -> bool {
    let r = scan_region(img, corner, k);
    r.len() > 0 && MARKER_THRESHOLD_DENOMINATOR * r.len() >= img.width * img.height
}

/// `k` is the first seed of `corner` that hits.
pub open spec fn first_hit(img: Image, corner: Corner, k: int) -> bool {
    &&& 0 <= k < MARKER_SCAN_SEEDS
    &&& scan_hit(img, corner, k)
    &&& forall|j: int| 0 <= j < k ==> !#[trigger] scan_hit(img, corner, j)
}

/// The bounding area of a non-empty finite set of pixels.
pub open spec fn bounding_area_of(s: Set<XY>) -> Area {
    choose|a: Area| is_bounding_area(a, s)
}

/// The fiducial of `corner`: the bounding area of the first blob that hits.
pub open spec fn marker_of(img: Image, corner: Corner) -> Option<Area> {
    if exists|k: int| first_hit(img, corner, k) {
        Some(bounding_area_of(scan_region(img, corner, choose|k: int| first_hit(img, corner, k))))
    } else {
        None
    }
}

/// The four fiducials in the frame's order: tops above bottoms, lefts left of rights.
pub open spec fn ordered(tl: Area, tr: Area, bl: Area, br: Area) -> bool {
    let (tl, tr, bl, br) = (tl.center_spec(), tr.center_spec(), bl.center_spec(), br.center_spec());
    &&& tl.x <= tr.x
    &&& tl.x <= br.x
    &&& bl.x <= tr.x
    &&& bl.x <= br.x
    &&& tl.y <= bl.y
    &&& tl.y <= br.y
    &&& tr.y <= bl.y
    &&& tr.y <= br.y
}

/// What the marker search yields on `img`.
pub open spec fn markers_of(img: Image) -> Result<Markers, ExtractError> {
    if !scan_fits(img.width as int, img.height as int) {
        Err(ExtractError::ConfigurationInvalid)
    } else {
        match (
            marker_of(img, Corner::TopLeft),
            marker_of(img, Corner::TopRight),
            marker_of(img, Corner::BottomLeft),
            marker_of(img, Corner::BottomRight),
        ) {
            (None, _, _, _) => Err(ExtractError::MarkerNotFound(Corner::TopLeft)),
            (Some(_), None, _, _) => Err(ExtractError::MarkerNotFound(Corner::TopRight)),
            (Some(_), Some(_), None, _) => Err(ExtractError::MarkerNotFound(Corner::BottomLeft)),
            (Some(_), Some(_), Some(_), None) => Err(
                ExtractError::MarkerNotFound(Corner::BottomRight),
            ),
            (Some(tl), Some(tr), Some(bl), Some(br)) => if ordered(tl, tr, bl, br) {
                Ok(Markers { top_left: tl, top_right: tr, bottom_left: bl, bottom_right: br })
            } else {
                Err(ExtractError::MarkerGeometry)
            },
        }
    }
}

/// Two bounding areas of one set are equal.
pub proof fn lemma_bounding_area_unique(a: Area, b: Area, s: Set<XY>)
    requires
        is_bounding_area(a, s),
        is_bounding_area(b, s),
    ensures
        a == b,
{
    let al = choose|p: XY| s.contains(p) && p.x == a.left;
    let at = choose|p: XY| s.contains(p) && p.y == a.top;
    let ar = choose|p: XY| s.contains(p) && p.x == a.right_spec();
    let ab = choose|p: XY| s.contains(p) && p.y == a.bottom_spec();
    let bl = choose|p: XY| s.contains(p) && p.x == b.left;
    let bt = choose|p: XY| s.contains(p) && p.y == b.top;
    let br = choose|p: XY| s.contains(p) && p.x == b.right_spec();
    let bb = choose|p: XY| s.contains(p) && p.y == b.bottom_spec();
    assert(a.contains_spec(bl) && a.contains_spec(bt) && a.contains_spec(br) && a.contains_spec(bb));
    assert(b.contains_spec(al) && b.contains_spec(at) && b.contains_spec(ar) && b.contains_spec(ab));
}

/// The four corner fiducials.
#[derive(Clone, Copy, Debug, PartialEq, Eq, Structural)]
pub struct Markers {
    pub top_left: Area,
    pub top_right: Area,
    pub bottom_left: Area,
    pub bottom_right: Area,
}

/// Which pixels of `img` have the fiducial colour.
pub fn marker_mask(img: &Image) -> (mask: Vec<bool>)
    ensures
        mask@ == white_mask(img.pixels@),
{
    let mut mask: Vec<bool> = Vec::new();
    let mut i: usize = 0;
    while i < img.pixels.len()
        invariant
            i <= img.pixels.len(),
            mask.len() == i,
            forall|j: int| 0 <= j < i ==> mask@[j] == is_marker_white(#[trigger] img.pixels@[j].color()),
        decreases img.pixels.len() - i,
    {
        let c = img.pixels[i].rgb();
        mask.push(c.is_marker_white());
        i = i + 1;
    }
    mask
}

fn scan_step_of(extent: u32) -> (s: u32)
    ensures
        s == scan_step(extent as int),
{
    if extent / 100 > 1 {
        extent / 100
    } else {
        1
    }
}

impl Markers {
    pub open spec fn wf(self) -> bool {
        &&& self.top_left.wf()
        &&& self.top_right.wf()
        &&& self.bottom_left.wf()
        &&& self.bottom_right.wf()
    }

    /// Midpoint between the centres of the two top fiducials.
    pub open spec fn middle_of_top_edge_spec(self) -> XY {
        let (a, b) = (self.top_left.center_spec(), self.top_right.center_spec());
        XY { x: ((a.x + b.x) / 2) as u32, y: ((a.y + b.y) / 2) as u32 }
    }

    /// Midpoint between the centres of the two top fiducials, where
    /// background removal starts.
    pub fn middle_of_top_edge(&self) -> (p: XY)
        requires
            self.wf(),
        ensures
            p == self.middle_of_top_edge_spec(),
    {
        let a = self.top_left.center();
        let b = self.top_right.center();
        let x = ((a.x as u64 + b.x as u64) / 2) as u32;
        let y = ((a.y as u64 + b.y as u64) / 2) as u32;
        XY { x, y }
    }

    /// The four fiducials: top left, top right, bottom left, bottom right.
    pub fn markers(&self) -> (v: Vec<&Area>)
        ensures
            v@.len() == 4,
            *v@[0] == self.top_left,
            *v@[1] == self.top_right,
            *v@[2] == self.bottom_left,
            *v@[3] == self.bottom_right,
    {
        let mut v: Vec<&Area> = Vec::new();
        v.push(&self.top_left);
        v.push(&self.top_right);
        v.push(&self.bottom_left);
        v.push(&self.bottom_right);
        v
    }

    pub fn top_left(&self) -> (a: &Area)
        ensures
            *a == self.top_left,
    {
        &self.top_left
    }

    pub fn top_right(&self) -> (a: &Area)
        ensures
            *a == self.top_right,
    {
        &self.top_right
    }

    pub fn bottom_left(&self) -> (a: &Area)
        ensures
            *a == self.bottom_left,
    {
        &self.bottom_left
    }

    pub fn bottom_right(&self) -> (a: &Area)
        ensures
            *a == self.bottom_right,
    {
        &self.bottom_right
    }

    /// The frame of four fiducials, checked against the ordering invariants.
    pub fn new(top_left: Area, top_right: Area, bottom_left: Area, bottom_right: Area) -> (r: Result<
        Markers,
        ExtractError,
    >)
        requires
            top_left.wf(),
            top_right.wf(),
            bottom_left.wf(),
            bottom_right.wf(),
        ensures
            r == if ordered(top_left, top_right, bottom_left, bottom_right) {
                Ok::<Markers, ExtractError>(Markers { top_left, top_right, bottom_left, bottom_right })
            } else {
                Err(ExtractError::MarkerGeometry)
            },
    {
        let tl = top_left.center();
        let tr = top_right.center();
        let bl = bottom_left.center();
        let br = bottom_right.center();
        if tl.x > tr.x || tl.x > br.x || bl.x > tr.x || bl.x > br.x {
            return Err(ExtractError::MarkerGeometry);
        }
        if tl.y > bl.y || tl.y > br.y || tr.y > bl.y || tr.y > br.y {
            return Err(ExtractError::MarkerGeometry);
        }
        Ok(Markers { top_left, top_right, bottom_left, bottom_right })
    }

    /// Locates the four fiducials of `img`.
    pub fn find(img: &Image) -> (r: Result<Markers, ExtractError>)
        requires
            img.wf(),
        ensures
            r == markers_of(*img),
            r matches Ok(m) ==> m.wf() && m.top_left.fits(img.width as int, img.height as int)
                && m.top_right.fits(img.width as int, img.height as int) && m.bottom_left.fits(
                img.width as int,
                img.height as int,
            ) && m.bottom_right.fits(img.width as int, img.height as int),
    {
        let step_x = scan_step_of(img.width) as u64;
        let step_y = scan_step_of(img.height) as u64;
        let layers = MARKER_SCAN_STEPS as u64;
        assert(2 * layers * step_x <= 60 * u32::MAX && 2 * layers * step_y <= 60 * u32::MAX)
            by (nonlinear_arith)
            requires
                layers == 30,
                step_x <= u32::MAX,
                step_y <= u32::MAX,
        ;
        if 2 * layers * step_x >= img.width as u64 || 2 * layers * step_y >= img.height as u64 {
            return Err(ExtractError::ConfigurationInvalid);
        }
        let top_left = match Markers::find_marker(img, Corner::TopLeft) {
            Ok(a) => a,
            Err(e) => return Err(e),
        };
        let top_right = match Markers::find_marker(img, Corner::TopRight) {
            Ok(a) => a,
            Err(e) => return Err(e),
        };
        let bottom_left = match Markers::find_marker(img, Corner::BottomLeft) {
            Ok(a) => a,
            Err(e) => return Err(e),
        };
        let bottom_right = match Markers::find_marker(img, Corner::BottomRight) {
            Ok(a) => a,
            Err(e) => return Err(e),
        };
        Markers::new(top_left, top_right, bottom_left, bottom_right)
    }

    /// The fiducial of one corner, scanning its seeds in order.
    pub fn find_marker(img: &Image, corner: Corner) -> (r: Result<Area, ExtractError>)
        requires
            img.wf(),
            scan_fits(img.width as int, img.height as int),
        ensures
            r == match marker_of(*img, corner) {
                Some(a) => Ok::<Area, ExtractError>(a),
                None => Err(ExtractError::MarkerNotFound(corner)),
            },
            r matches Ok(a) ==> a.fits(img.width as int, img.height as int),
    {
        let ghost g = *img;
        let width = img.width;
        let height = img.height;
        let mask = marker_mask(img);
        let step_x = scan_step_of(width);
        let step_y = scan_step_of(height);
        let mut k: u32 = 0;
        while k < MARKER_SCAN_SEEDS
            invariant
                g == *img,
                img.wf(),
                width == img.width,
                height == img.height,
                mask@ == white_mask(img.pixels@),
                step_x == scan_step(width as int),
                step_y == scan_step(height as int),
                scan_fits(width as int, height as int),
                k <= MARKER_SCAN_SEEDS,
                forall|j: int| 0 <= j < k ==> !#[trigger] scan_hit(g, corner, j),
            decreases MARKER_SCAN_SEEDS - k,
        {
            let (i, j) = (k / MARKER_SCAN_STEPS, k % MARKER_SCAN_STEPS);
            assert(i * step_x <= MARKER_SCAN_STEPS * step_x) by (nonlinear_arith)
                requires
                    i <= MARKER_SCAN_STEPS,
            ;
            assert(j * step_y <= MARKER_SCAN_STEPS * step_y) by (nonlinear_arith)
                requires
                    j <= MARKER_SCAN_STEPS,
            ;
            let dx = i * step_x;
            let dy = j * step_y;
            let x = match corner {
                Corner::TopLeft | Corner::BottomLeft => dx,
                Corner::TopRight | Corner::BottomRight => width - 1 - dx,
            };
            let y = match corner {
                Corner::TopLeft | Corner::TopRight => dy,
                Corner::BottomLeft | Corner::BottomRight => height - 1 - dy,
            };
            let seed = XY { x, y };
            assert(seed == scan_seed(corner, width as int, height as int, k as int));
            let pixels = flood_fill(&mask, width, height, seed);
            proof {
                pixels@.unique_seq_to_set();
            }
            if pixels.len() > 0 && is_at_least_this_much_of_image(
                pixels.len(),
                img,
                MARKER_THRESHOLD_DENOMINATOR,
            ) {
                let area = Area::new_from_pixels(&pixels).unwrap();
                proof {
                    assert(first_hit(g, corner, k as int));
                    let k2 = choose|k2: int| first_hit(g, corner, k2);
                    if k2 < k {
                    } else if k2 > k {
                        assert(!scan_hit(g, corner, k as int));
                    }
                    lemma_bounding_area_unique(
                        area,
                        bounding_area_of(scan_region(g, corner, k as int)),
                        scan_region(g, corner, k as int),
                    );
                }
                return Ok(area);
            }
            k = k + 1;
        }
        proof {
            assert forall|k2: int| !first_hit(g, corner, k2) by {
                if 0 <= k2 < MARKER_SCAN_SEEDS {
                    assert(!scan_hit(g, corner, k2));
                }
            }
        }
        Err(ExtractError::MarkerNotFound(corner))
    }
}

} // verus!
