use vstd::prelude::*;

use crate::color::RGB;
use crate::error::ExtractError;
use crate::geometry::{Area, XY};
use crate::markers::Markers;
use crate::raster::Image;

verus! {

/// Points per edge between two fiducial centres, the ends included.
pub const BACKGROUND_ANALYSIS_STEPS: usize = 10;

/// Fixed-point scale of the running colour average.
pub const AVERAGE_SCALE: u64 = 65536;

/// Point `i` of `steps` evenly spaced from `a` to `b` along one axis,
/// rounded down.
pub open spec fn lerp(a: int, b: int, i: int, steps: int) -> int {
    (a * (steps - 1 - i) + b * i) / (steps - 1)
}

/// A walk of `steps` evenly spaced points from `a` to `b`.
pub struct EdgeIterator {
    pub a: XY,
    pub b: XY,
    pub steps: usize,
    pub next_step: usize,
}

impl EdgeIterator {
    pub open spec fn point(self, i: int) -> XY {
        XY {
            x: lerp(self.a.x as int, self.b.x as int, i, self.steps as int) as u32,
            y: lerp(self.a.y as int, self.b.y as int, i, self.steps as int) as u32,
        }
    }

    /// A walk from `a` to `b`; fewer than two steps are refused.
    pub fn new(a: XY, b: XY, steps: usize) -> (r: Result<EdgeIterator, ExtractError>)
        ensures
            steps < 2 ==> r == Err::<EdgeIterator, ExtractError>(ExtractError::EdgeIteratorInvalid),
            steps >= 2 ==> r == Ok::<EdgeIterator, ExtractError>(
                (EdgeIterator { a, b, steps, next_step: 0 }),
            ),
    {
        if steps < 2 {
            return Err(ExtractError::EdgeIteratorInvalid);
        }
        Ok(EdgeIterator { a, b, steps, next_step: 0 })
    }

    /// The next step number and point, `None` once all steps are taken.
    pub fn next(&mut self) -> (r: Option<(usize, XY)>)
        requires
            old(self).steps >= 2,
        ensures
            final(self).a == old(self).a,
            final(self).b == old(self).b,
            final(self).steps == old(self).steps,
            old(self).next_step >= old(self).steps ==> r is None && *final(self) == *old(self),
            old(self).next_step < old(self).steps ==> r == Some(
                (old(self).next_step, old(self).point(old(self).next_step as int)),
            ) && final(self).next_step == old(self).next_step + 1,
    {
        if self.next_step >= self.steps {
            return None;
        }
        let i = self.next_step;
        self.next_step = self.next_step + 1;
        Some((i, self.point_at(i)))
    }

    /// Point `i` of the walk.
    pub fn point_at(&self, i: usize) -> (p: XY)
        requires
            i < self.steps,
            self.steps >= 2,
        ensures
            p == self.point(i as int),
    {
        let x = lerp_exec(self.a.x, self.b.x, i, self.steps);
        let y = lerp_exec(self.a.y, self.b.y, i, self.steps);
        XY { x, y }
    }
}

fn lerp_exec(a: u32, b: u32, i: usize, steps: usize) -> (v: u32)
    requires
        i < steps,
        steps >= 2,
    ensures
        v == lerp(a as int, b as int, i as int, steps as int),
{
    let d = (steps - 1) as u128;
    let ghost (ai, bi, ii, di) = (a as int, b as int, i as int, d as int);
    assert(ai * (di - ii) <= u32::MAX * u64::MAX && bi * ii <= u32::MAX * u64::MAX)
        by (nonlinear_arith)
        requires
            0 <= ii <= di <= u64::MAX,
            0 <= ai <= u32::MAX,
            0 <= bi <= u32::MAX,
    ;
    let num: u128 = a as u128 * (d - i as u128) + b as u128 * i as u128;
    assert(0 <= num <= u32::MAX * di) by (nonlinear_arith)
        requires
            num == ai * (di - ii) + bi * ii,
            0 <= ii <= di,
            0 <= ai <= u32::MAX,
            0 <= bi <= u32::MAX,
    ;
    assert(num / d <= u32::MAX) by (nonlinear_arith)
        requires
            0 <= num <= u32::MAX * d,
            d > 0,
    ;
    (num / d) as u32
}

/// The running midpoint of `vals` in units of `1 / AVERAGE_SCALE`: the first
/// value, then at each later value the mean of the running value and it,
/// rounded down.
pub open spec fn midpoint(vals: Seq<int>) -> int
    decreases vals.len(),
{
    if vals.len() == 0 {
        0
    } else if vals.len() == 1 {
        vals[0] * AVERAGE_SCALE
    } else {
        (midpoint(vals.drop_last()) + vals.last() * AVERAGE_SCALE) / 2
    }
}

proof fn lemma_midpoint_bound(vals: Seq<int>)
    requires
        forall|i: int| 0 <= i < vals.len() ==> 0 <= #[trigger] vals[i] <= 255,
    ensures
        0 <= midpoint(vals) <= 255 * AVERAGE_SCALE,
    decreases vals.len(),
{
    if vals.len() > 1 {
        lemma_midpoint_bound(vals.drop_last());
    }
}

/// The `k`-th pixel of `a` in column-by-column order.
pub open spec fn window_pixel(a: Area, k: int) -> XY {
    XY { x: (a.left + k / a.height as int) as u32, y: (a.top + k % a.height as int) as u32 }
}

/// One channel of the pixels of `a`, column by column.
pub open spec fn window_channel(img: Image, a: Area, channel: int) -> Seq<int> {
    Seq::new(
        (a.width * a.height) as nat,
        |k: int|
            {
                let p = img.at(window_pixel(a, k));
                if channel == 0 {
                    p.r as int
                } else if channel == 1 {
                    p.g as int
                } else {
                    p.b as int
                }
            },
    )
}

/// The averaged colour of `a`: each channel's running midpoint, truncated
/// to a whole channel value.
#[verifier::opaque]
pub open spec fn average_color_spec(img: Image, a: Area) -> RGB {
    RGB {
        r: (midpoint(window_channel(img, a, 0)) / AVERAGE_SCALE as int) as u8,
        g: (midpoint(window_channel(img, a, 1)) / AVERAGE_SCALE as int) as u8,
        b: (midpoint(window_channel(img, a, 2)) / AVERAGE_SCALE as int) as u8,
    }
}

/// Interior points sampled on each edge.
pub const SAMPLES_PER_EDGE: usize = 8;

/// Samples taken in all: four edges of `SAMPLES_PER_EDGE` points.
pub const BACKGROUND_SAMPLES: usize = 32;

/// The ends of edge `e`: top, bottom, left and right for 0, 1, 2, 3.
pub open spec fn edge_ends(m: Markers, e: int) -> (XY, XY) {
    if e == 0 {
        (m.top_left.center_spec(), m.top_right.center_spec())
    } else if e == 1 {
        (m.bottom_left.center_spec(), m.bottom_right.center_spec())
    } else if e == 2 {
        (m.top_left.center_spec(), m.bottom_left.center_spec())
    } else {
        (m.top_right.center_spec(), m.bottom_right.center_spec())
    }
}

/// The centre of sample `s`: interior point `s % 8 + 1` of edge `s / 8`.
pub open spec fn sample_point(m: Markers, s: int) -> XY {
    let (a, b) = edge_ends(m, s / SAMPLES_PER_EDGE as int);
    (EdgeIterator { a, b, steps: BACKGROUND_ANALYSIS_STEPS, next_step: 0 }).point(
        s % SAMPLES_PER_EDGE as int + 1,
    )
}

/// Top edge of the window of sample `s`, which may lie above the image.
pub open spec fn sample_top(m: Markers, s: int) -> int {
    sample_point(m, s).y - m.top_left.height / 2
}

/// Left edge of the window of sample `s`, which may lie left of the image.
pub open spec fn sample_left(m: Markers, s: int) -> int {
    sample_point(m, s).x - m.top_left.width / 2
}

/// The window of sample `s`: the top-left fiducial's size, centred on the sample.
#[verifier::opaque]
pub open spec fn sample_window(m: Markers, s: int) -> Area {
    Area {
        top: sample_top(m, s) as u32,
        left: sample_left(m, s) as u32,
        width: m.top_left.width,
        height: m.top_left.height,
    }
}

/// The window of sample `s` lies inside an image of the given size.
pub open spec fn sample_fits(m: Markers, s: int, width: int, height: int) -> bool {
    &&& sample_top(m, s) >= 0
    &&& sample_left(m, s) >= 0
    &&& sample_top(m, s) + m.top_left.height <= height
    &&& sample_left(m, s) + m.top_left.width <= width
}

/// `a` is the window of one of the first `count` samples.
pub open spec fn is_sample_window(m: Markers, count: int, a: Area) -> bool {
    exists|s: int| 0 <= s < count && a == #[trigger] sample_window(m, s)
}

/// Each of the first `count` sample windows has an entry in `areas`.
pub open spec fn covers(areas: Seq<(Area, RGB)>, m: Markers, count: int) -> bool {
    forall|s: int|
        #![trigger sample_window(m, s)]
        0 <= s < count ==> exists|j: int|
            0 <= j < areas.len() && (#[trigger] areas[j]).0 == sample_window(m, s)
}

/// `areas` maps each of the first `count` sample windows, once, to its
/// averaged colour in `img`, and holds nothing else.
pub open spec fn holds_samples(areas: Seq<(Area, RGB)>, img: Image, m: Markers, count: int) -> bool {
    &&& keys_unique(areas)
    &&& forall|j: int|
        0 <= j < areas.len() ==> is_sample_window(m, count, (#[trigger] areas[j]).0) && areas[j].1
            == average_color_spec(img, areas[j].0)
    &&& covers(areas, m, count)
}

/// Background colour samples taken along the edges between the fiducials.
pub struct Background {
    pub areas: Vec<(Area, RGB)>,
}

/// No two entries of `areas` share a window.
pub open spec fn keys_unique(areas: Seq<(Area, RGB)>) -> bool {
    forall|j: int, k: int| 0 <= j < k < areas.len() ==> (#[trigger] areas[j]).0 != (#[trigger] areas[k]).0
}

/// `after` is `before` with window `a` recorded as colour `c`.
pub open spec fn records(before: Seq<(Area, RGB)>, after: Seq<(Area, RGB)>, a: Area, c: RGB) -> bool {
    &&& keys_unique(after)
    &&& exists|j: int| 0 <= j < after.len() && (#[trigger] after[j]) == (a, c)
    &&& forall|j: int|
        0 <= j < after.len() ==> (#[trigger] after[j]) == (a, c) || exists|k: int|
            0 <= k < before.len() && before[k] == after[j]
    &&& forall|k: int|
        0 <= k < before.len() ==> (#[trigger] before[k]).0 == a || exists|j: int|
            0 <= j < after.len() && after[j] == before[k]
}

/// Position of the entry for window `a`, if any.
fn find_sample(areas: &Vec<(Area, RGB)>, a: Area) -> (r: Option<usize>)
    ensures
        r matches Some(j) ==> j < areas.len() && areas@[j as int].0 == a,
        r is None ==> forall|i: int| 0 <= i < areas.len() ==> (#[trigger] areas@[i]).0 != a,
{
    let mut j: usize = 0;
    while j < areas.len()
        invariant
            j <= areas.len(),
            forall|i: int| 0 <= i < j ==> (#[trigger] areas@[i]).0 != a,
        decreases areas.len() - j,
    {
        if areas[j].0 == a {
            return Some(j);
        }
        j = j + 1;
    }
    None
}

/// Records `c` as the colour of window `a`, replacing an earlier record of `a`.
fn insert_sample(areas: &mut Vec<(Area, RGB)>, a: Area, c: RGB)
    requires
        keys_unique(old(areas)@),
    ensures
        records(old(areas)@, final(areas)@, a, c),
{
    let ghost before = areas@;
    match find_sample(areas, a) {
        Some(j) => {
            areas.set(j, (a, c));
            proof {
                assert(areas@[j as int] == (a, c));
                assert forall|i: int| 0 <= i < areas.len() implies (#[trigger] areas@[i]) == (a, c)
                    || exists|k: int| 0 <= k < before.len() && before[k] == areas@[i] by {
                    if i != j {
                        assert(before[i] == areas@[i]);
                    }
                }
                assert forall|k: int| 0 <= k < before.len() implies (#[trigger] before[k]).0 == a
                    || exists|i: int| 0 <= i < areas.len() && areas@[i] == before[k] by {
                    if k != j {
                        assert(areas@[k] == before[k]);
                    }
                }
                assert forall|x: int, y: int| 0 <= x < y < areas.len() implies (
                #[trigger] areas@[x]).0 != (#[trigger] areas@[y]).0 by {
                    if x != j && y != j {
                        assert(before[x].0 != before[y].0);
                    } else if x == j {
                        assert(before[j as int].0 != before[y].0);
                    } else {
                        assert(before[x].0 != before[j as int].0);
                    }
                }
            }
        },
        None => {
            areas.push((a, c));
            proof {
                assert(areas@[before.len() as int] == (a, c));
                assert forall|i: int| 0 <= i < areas.len() implies (#[trigger] areas@[i]) == (a, c)
                    || exists|k: int| 0 <= k < before.len() && before[k] == areas@[i] by {
                    if i < before.len() {
                        assert(before[i] == areas@[i]);
                    }
                }
                assert forall|k: int| 0 <= k < before.len() implies (#[trigger] before[k]).0 == a
                    || exists|i: int| 0 <= i < areas.len() && areas@[i] == before[k] by {
                    assert(areas@[k] == before[k]);
                }
                assert forall|x: int, y: int| 0 <= x < y < areas.len() implies (
                #[trigger] areas@[x]).0 != (#[trigger] areas@[y]).0 by {
                    if y < before.len() {
                        assert(before[x].0 != before[y].0);
                    } else {
                        assert(before[x].0 != a);
                    }
                }
            }
        },
    }
}

proof fn lemma_samples_valid(
    before: Seq<(Area, RGB)>,
    after: Seq<(Area, RGB)>,
    img: Image,
    m: Markers,
    n: int,
)
    requires
        0 <= n,
        forall|j: int|
            0 <= j < before.len() ==> is_sample_window(m, n, (#[trigger] before[j]).0)
                && before[j].1 == average_color_spec(img, before[j].0),
        forall|j: int|
            0 <= j < after.len() ==> (#[trigger] after[j]) == (
                sample_window(m, n),
                average_color_spec(img, sample_window(m, n)),
            ) || exists|k: int| 0 <= k < before.len() && before[k] == after[j],
    ensures
        forall|j: int|
            0 <= j < after.len() ==> is_sample_window(m, n + 1, (#[trigger] after[j]).0)
                && after[j].1 == average_color_spec(img, after[j].0),
{
    let area = sample_window(m, n);
    let color = average_color_spec(img, area);
    assert forall|j: int| 0 <= j < after.len() implies is_sample_window(
        m,
        n + 1,
        (#[trigger] after[j]).0,
    ) && after[j].1 == average_color_spec(img, after[j].0) by {
        if after[j] != (area, color) {
            let k = choose|k: int| 0 <= k < before.len() && before[k] == after[j];
            assert(is_sample_window(m, n, before[k].0));
            let t = choose|t: int| 0 <= t < n && before[k].0 == #[trigger] sample_window(m, t);
            assert(after[j].0 == sample_window(m, t));
        } else {
            assert(after[j].0 == sample_window(m, n));
            assert(is_sample_window(m, n + 1, area));
            assert(after[j].1 == color);
        }
    }
}

proof fn lemma_samples_cover(
    before: Seq<(Area, RGB)>,
    after: Seq<(Area, RGB)>,
    m: Markers,
    n: int,
    c: RGB,
)
    requires
        0 <= n,
        covers(before, m, n),
        exists|j: int| 0 <= j < after.len() && (#[trigger] after[j]) == (sample_window(m, n), c),
        forall|k: int|
            0 <= k < before.len() ==> (#[trigger] before[k]).0 == sample_window(m, n) || exists|j: int|
                0 <= j < after.len() && after[j] == before[k],
    ensures
        covers(after, m, n + 1),
{
    let area = sample_window(m, n);
    let j0 = choose|j: int| 0 <= j < after.len() && (#[trigger] after[j]) == (area, c);
    assert forall|t: int|
        #![trigger sample_window(m, t)]
        0 <= t < n + 1 implies exists|j: int|
        0 <= j < after.len() && (#[trigger] after[j]).0 == sample_window(m, t) by {
        if t < n {
            let k = choose|k: int|
                0 <= k < before.len() && (#[trigger] before[k]).0 == sample_window(m, t);
            if before[k].0 != area {
                let j = choose|j: int| 0 <= j < after.len() && after[j] == before[k];
                assert(after[j].0 == sample_window(m, t));
            } else {
                assert(after[j0].0 == sample_window(m, t));
            }
        } else {
            assert(after[j0].0 == sample_window(m, t));
        }
    }
}

proof fn lemma_holds_samples_step(
    before: Seq<(Area, RGB)>,
    after: Seq<(Area, RGB)>,
    img: Image,
    m: Markers,
    n: int,
)
    requires
        0 <= n,
        holds_samples(before, img, m, n),
        records(before, after, sample_window(m, n), average_color_spec(img, sample_window(m, n))),
    ensures
        holds_samples(after, img, m, n + 1),
{
    lemma_samples_valid(before, after, img, m, n);
    lemma_samples_cover(before, after, m, n, average_color_spec(img, sample_window(m, n)));
}

impl Background {
    /// Samples the background colour in windows of the top-left fiducial's
    /// size at the interior points of the four edges between the fiducials.
    pub fn analyse(img: &Image, markers: &Markers) -> (r: Result<Background, ExtractError>)
        requires
            img.wf(),
            markers.wf(),
        ensures
            (forall|s: int|
                0 <= s < BACKGROUND_SAMPLES ==> sample_fits(
                    *markers,
                    s,
                    img.width as int,
                    img.height as int,
                )) ==> (r matches Ok(bg) && holds_samples(
                bg.areas@,
                *img,
                *markers,
                BACKGROUND_SAMPLES as int,
            )),
            !(forall|s: int|
                0 <= s < BACKGROUND_SAMPLES ==> sample_fits(
                    *markers,
                    s,
                    img.width as int,
                    img.height as int,
                )) ==> r == Err::<Background, ExtractError>(ExtractError::AreaOutOfBounds),
    {
        let marker_width = markers.top_left.width;
        let marker_height = markers.top_left.height;
        let mut areas: Vec<(Area, RGB)> = Vec::new();
        let mut s: usize = 0;
        while s < BACKGROUND_SAMPLES
            invariant
                img.wf(),
                markers.wf(),
                marker_width == markers.top_left.width,
                marker_height == markers.top_left.height,
                s <= BACKGROUND_SAMPLES,
                forall|t: int|
                    0 <= t < s ==> #[trigger] sample_fits(
                        *markers,
                        t,
                        img.width as int,
                        img.height as int,
                    ),
                holds_samples(areas@, *img, *markers, s as int),
            decreases BACKGROUND_SAMPLES - s,
        {
            let e = s / SAMPLES_PER_EDGE;
            let (a, b) = if e == 0 {
                (markers.top_left.center(), markers.top_right.center())
            } else if e == 1 {
                (markers.bottom_left.center(), markers.bottom_right.center())
            } else if e == 2 {
                (markers.top_left.center(), markers.bottom_left.center())
            } else {
                (markers.top_right.center(), markers.bottom_right.center())
            };
            let edge = match EdgeIterator::new(a, b, BACKGROUND_ANALYSIS_STEPS) {
                Ok(it) => it,
                Err(err) => return Err(err),
            };
            let xy = edge.point_at(s % SAMPLES_PER_EDGE + 1);
            assert(xy == sample_point(*markers, s as int));
            let top: i64 = xy.y as i64 - (marker_height / 2) as i64;
            let left: i64 = xy.x as i64 - (marker_width / 2) as i64;
            assert(top == sample_top(*markers, s as int));
            assert(left == sample_left(*markers, s as int));
            if top < 0 || left < 0 {
                assert(!sample_fits(*markers, s as int, img.width as int, img.height as int));
                return Err(ExtractError::AreaOutOfBounds);
            }
            let area = match Area::new(top as u32, left as u32, marker_width, marker_height, img) {
                Ok(area) => area,
                Err(err) => {
                    assert(!sample_fits(*markers, s as int, img.width as int, img.height as int));
                    return Err(err);
                },
            };
            assert(area == sample_window(*markers, s as int)) by {
                reveal(sample_window);
            }
            let color = area.average_color(img);
            let ghost before = areas@;
            insert_sample(&mut areas, area, color);
            proof {
                lemma_holds_samples_step(before, areas@, *img, *markers, s as int);
            }
            s = s + 1;
        }
        Ok(Background { areas })
    }

    /// The sampled windows and their averaged colours.
    pub fn areas(&self) -> (a: &Vec<(Area, RGB)>)
        ensures
            a@ == self.areas@,
    {
        &self.areas
    }
}

/// Number of blocks of `size` needed to cover `extent`.
pub open spec fn block_count(extent: int, size: int) -> int {
    if extent % size != 0 {
        extent / size + 1
    } else {
        extent / size
    }
}

/// Side of block `i` along an axis of the given extent: `size`, clipped
/// at the last pixel, which is included.
pub open spec fn block_side(extent: int, size: int, i: int) -> int {
    if i * size + size > extent {
        extent - i * size
    } else {
        size
    }
}

/// Block `(xi, yi)` of an image averaged in blocks of `size`.
pub open spec fn block_area(width: int, height: int, size: int, xi: int, yi: int) -> Area {
    Area {
        top: (yi * size) as u32,
        left: (xi * size) as u32,
        width: block_side(width, size, xi) as u32,
        height: block_side(height, size, yi) as u32,
    }
}

proof fn lemma_block_start(extent: int, size: int, i: int)
    requires
        size > 0,
        extent >= 0,
        0 <= i < block_count(extent, size),
    ensures
        0 <= i * size < extent,
{
    assert(0 <= i * size < extent) by (nonlinear_arith)
        requires
            size > 0,
            extent >= 0,
            0 <= i,
            extent % size != 0 ==> i < extent / size + 1,
            extent % size == 0 ==> i < extent / size,
    {
        assert(extent == (extent / size) * size + extent % size);
        if extent % size != 0 {
            assert(i <= extent / size);
            assert(i * size <= (extent / size) * size);
        } else {
            assert(i + 1 <= extent / size);
            assert((i + 1) * size <= (extent / size) * size);
        }
    }
}

/// Averaged colours of an image in square blocks.
pub struct AverageColors {
    pub averaged_area_size: u32,
    pub average_colors: Vec<Vec<RGB>>,
}

impl AverageColors {
    /// The colour of every block of `img` at `xi`, `yi` of `averaged_area_size`.
    pub open spec fn averages(self, img: Image) -> bool {
        let (w, h, s) = (img.width as int, img.height as int, self.averaged_area_size as int);
        &&& s > 0
        &&& self.average_colors.len() == block_count(w, s)
        &&& forall|xi: int|
            0 <= xi < self.average_colors.len() ==> (#[trigger] self.average_colors@[xi]).len()
                == block_count(h, s)
        &&& forall|xi: int, yi: int|
            0 <= xi < self.average_colors.len() && 0 <= yi < block_count(h, s)
                ==> #[trigger] self.average_colors@[xi]@[yi] == average_color_spec(
                img,
                block_area(w, h, s, xi, yi),
            )
    }

    /// Averages `img` in blocks of `averaged_area_size` pixels square, the
    /// last block along each axis clipped at the image edge; a zero size is
    /// refused.
    pub fn new(img: &Image, averaged_area_size: u32) -> (r: Result<AverageColors, ExtractError>)
        requires
            img.wf(),
        ensures
            averaged_area_size == 0 ==> r == Err::<AverageColors, ExtractError>(
                ExtractError::AreaEmpty,
            ),
            averaged_area_size > 0 ==> r is Ok,
            r matches Ok(a) ==> a.averaged_area_size == averaged_area_size && a.averages(*img),
    {
        if averaged_area_size == 0 {
            return Err(ExtractError::AreaEmpty);
        }
        let s = averaged_area_size;
        let ghost (w, h, si) = (img.width as int, img.height as int, s as int);
        assert(w % si != 0 ==> w / si < u32::MAX && h / si < u32::MAX) by (nonlinear_arith)
            requires
                si > 0,
                0 <= w <= u32::MAX,
                0 <= h <= u32::MAX,
        {
            if si == 1 {
                assert(w % si == 0);
            }
        }
        assert(h % si != 0 ==> h / si < u32::MAX) by (nonlinear_arith)
            requires
                si > 0,
                0 <= h <= u32::MAX,
        {
            if si == 1 {
                assert(h % si == 0);
            }
        }
        let mut nx = img.width / s;
        if img.width % s != 0 {
            nx = nx + 1;
        }
        let mut ny = img.height / s;
        if img.height % s != 0 {
            ny = ny + 1;
        }
        assert(nx == block_count(w, si) && ny == block_count(h, si));
        assert(nx as int * si <= w + si && ny as int * si <= h + si) by (nonlinear_arith)
            requires
                si > 0,
                nx == block_count(w, si),
                ny == block_count(h, si),
                w >= 0,
                h >= 0,
        ;
        let mut average_colors: Vec<Vec<RGB>> = Vec::new();
        let mut xi: u32 = 0;
        while xi < nx
            invariant
                img.wf(),
                s > 0,
                s == averaged_area_size,
                w == img.width as int,
                h == img.height as int,
                si == s as int,
                nx == block_count(w, si),
                ny == block_count(h, si),
                nx as int * si <= w + si,
                ny as int * si <= h + si,
                xi <= nx,
                average_colors.len() == xi,
                forall|xj: int| 0 <= xj < xi ==> (#[trigger] average_colors@[xj]).len() == ny,
                forall|xj: int, yj: int|
                    0 <= xj < xi && 0 <= yj < ny ==> #[trigger] average_colors@[xj]@[yj]
                        == average_color_spec(*img, block_area(w, h, si, xj, yj)),
            decreases nx - xi,
        {
            let mut column: Vec<RGB> = Vec::new();
            let mut yi: u32 = 0;
            assert(xi as int * si < w + si) by (nonlinear_arith)
                requires
                    xi < nx,
                    nx * si <= w + si,
                    si > 0,
            ;
            while yi < ny
                invariant
                    img.wf(),
                    s > 0,
                    s == averaged_area_size,
                    w == img.width as int,
                    h == img.height as int,
                    si == s as int,
                    ny == block_count(h, si),
                    ny as int * si <= h + si,
                    xi as int * si < w + si,
                    xi < nx,
                    nx == block_count(w, si),
                    yi <= ny,
                    column.len() == yi,
                    forall|yj: int|
                        0 <= yj < yi ==> #[trigger] column@[yj] == average_color_spec(
                            *img,
                            block_area(w, h, si, xi as int, yj),
                        ),
                decreases ny - yi,
            {
                assert(yi as int * si < h + si) by (nonlinear_arith)
                    requires
                        yi < ny,
                        ny * si <= h + si,
                        si > 0,
                ;
                proof {
                    lemma_block_start(w, si, xi as int);
                    lemma_block_start(h, si, yi as int);
                }
                let left: u64 = xi as u64 * s as u64;
                let top: u64 = yi as u64 * s as u64;
                let mut width: u64 = s as u64;
                let mut height: u64 = s as u64;
                if left + width > img.width as u64 {
                    width = img.width as u64 - left;
                }
                if top + height > img.height as u64 {
                    height = img.height as u64 - top;
                }
                assert(width == block_side(w, si, xi as int));
                assert(height == block_side(h, si, yi as int));
                let area = match Area::new(top as u32, left as u32, width as u32, height as u32, img) {
                    Ok(area) => area,
                    Err(e) => {
                        assert(width > 0 && height > 0);
                        return Err(e);
                    },
                };
                assert(area == block_area(w, h, si, xi as int, yi as int));
                column.push(area.average_color(img));
                yi = yi + 1;
            }
            average_colors.push(column);
            proof {
                assert forall|xj: int, yj: int|
                    0 <= xj < xi + 1 && 0 <= yj < ny implies #[trigger] average_colors@[xj]@[yj]
                        == average_color_spec(*img, block_area(w, h, si, xj, yj)) by {
                    if xj == xi {
                        assert(average_colors@[xj]@ == column@);
                    }
                }
            }
            xi = xi + 1;
        }
        Ok(AverageColors { averaged_area_size: s, average_colors })
    }

    pub fn averaged_area_size(&self) -> (s: u32)
        ensures
            s == self.averaged_area_size,
    {
        self.averaged_area_size
    }

    /// The averaged colour of the block that holds `xy`.
    pub fn average_color(&self, xy: &XY) -> (c: &RGB)
        requires
            self.averaged_area_size > 0,
            xy.x / self.averaged_area_size < self.average_colors.len(),
            xy.y / self.averaged_area_size < self.average_colors@[(xy.x / self.averaged_area_size) as int].len(),
        ensures
            *c == self.average_colors@[(xy.x / self.averaged_area_size) as int]@[(xy.y
                / self.averaged_area_size) as int],
    {
        let xi = (xy.x / self.averaged_area_size) as usize;
        let yi = (xy.y / self.averaged_area_size) as usize;
        &self.average_colors[xi][yi]
    }
}

proof fn lemma_window_pixel(a: Area, k: int)
    requires
        a.wf(),
        0 <= k < a.width * a.height,
    ensures
        a.contains_spec(window_pixel(a, k)),
        window_pixel(a, k).x == a.left + k / a.height as int,
        window_pixel(a, k).y == a.top + k % a.height as int,
{
    let (w, h) = (a.width as int, a.height as int);
    assert(k / h < w) by (nonlinear_arith)
        requires
            0 <= k < w * h,
            h > 0,
    ;
    assert(0 <= k % h < h) by (nonlinear_arith)
        requires
            h > 0,
    ;
    assert(0 <= k / h) by (nonlinear_arith)
        requires
            h > 0,
            k >= 0,
    ;
}

fn midpoint_step(acc: u64, value: u8, first: bool) -> (r: u64)
    requires
        acc <= 255 * AVERAGE_SCALE,
    ensures
        r == if first {
            value * AVERAGE_SCALE
        } else {
            (acc + value * AVERAGE_SCALE) / 2
        },
        r <= 255 * AVERAGE_SCALE,
{
    if first {
        value as u64 * AVERAGE_SCALE
    } else {
        (acc + value as u64 * AVERAGE_SCALE) / 2
    }
}

impl Area {
    /// The averaged colour of the pixels of this rectangle in `img`.
    pub fn average_color(&self, img: &Image) -> (c: RGB)
        requires
            img.wf(),
            self.fits(img.width as int, img.height as int),
        ensures
            c == average_color_spec(*img, *self),
    {
        let ghost chans = (
            window_channel(*img, *self, 0),
            window_channel(*img, *self, 1),
            window_channel(*img, *self, 2),
        );
        assert(self.width * self.height <= u32::MAX * u32::MAX) by (nonlinear_arith)
            requires
                self.width <= u32::MAX,
                self.height <= u32::MAX,
        ;
        let n: u64 = self.width as u64 * self.height as u64;
        let mut r: u64 = 0;
        let mut g: u64 = 0;
        let mut b: u64 = 0;
        let mut k: u64 = 0;
        while k < n
            invariant
                img.wf(),
                self.fits(img.width as int, img.height as int),
                n == self.width * self.height,
                chans == (
                    window_channel(*img, *self, 0),
                    window_channel(*img, *self, 1),
                    window_channel(*img, *self, 2),
                ),
                k <= n,
                r == midpoint(chans.0.subrange(0, k as int)),
                g == midpoint(chans.1.subrange(0, k as int)),
                b == midpoint(chans.2.subrange(0, k as int)),
                r <= 255 * AVERAGE_SCALE,
                g <= 255 * AVERAGE_SCALE,
                b <= 255 * AVERAGE_SCALE,
            decreases n - k,
        {
            proof {
                lemma_window_pixel(*self, k as int);
            }
            let x = self.left + (k / self.height as u64) as u32;
            let y = self.top + (k % self.height as u64) as u32;
            assert(XY { x, y } == window_pixel(*self, k as int));
            let p = img.get_pixel(x, y);
            let first = k == 0;
            r = midpoint_step(r, p.r, first);
            g = midpoint_step(g, p.g, first);
            b = midpoint_step(b, p.b, first);
            proof {
                let kk = k as int;
                assert(chans.0.subrange(0, kk + 1).drop_last() =~= chans.0.subrange(0, kk));
                assert(chans.1.subrange(0, kk + 1).drop_last() =~= chans.1.subrange(0, kk));
                assert(chans.2.subrange(0, kk + 1).drop_last() =~= chans.2.subrange(0, kk));
            }
            k = k + 1;
        }
        proof {
            assert(chans.0.subrange(0, n as int) =~= chans.0);
            assert(chans.1.subrange(0, n as int) =~= chans.1);
            assert(chans.2.subrange(0, n as int) =~= chans.2);
        }
        proof {
            reveal(average_color_spec);
        }
        RGB {
            r: (r / AVERAGE_SCALE) as u8,
            g: (g / AVERAGE_SCALE) as u8,
            b: (b / AVERAGE_SCALE) as u8,
        }
    }
}

} // verus!
