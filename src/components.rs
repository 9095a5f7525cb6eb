use vstd::prelude::*;

use crate::flood::{
    admits, flood_fill, lemma_reach_admits, lemma_reach_self,
    lemma_reach_trans, lemma_region_shared, reachable, region,
};
use crate::geometry::XY;
use crate::raster::{
    cell, cell_index, in_grid, is_at_least_this_much_of_image, lemma_cell_bounds, lemma_cell_injective, Image,
    Pixel,
};

verus! {

/// A component under `1 / BACKGROUND_CLEANUP_DENOMINATOR` of the image is
/// cleared by the cleanup pass.
pub const BACKGROUND_CLEANUP_DENOMINATOR: u64 = 50;

/// Which pixels are opaque, row-major.
pub open spec fn opaque_mask(pixels: Seq<Pixel>) -> Seq<bool> {
    pixels.map_values(|p: Pixel| !p.transparent_spec())
}

/// The transparent pixel (0, 0, 0, 0).
pub open spec fn clear() -> Pixel {
    Pixel { r: 0, g: 0, b: 0, a: 0 }
}

/// Which pixels of `img` are opaque.
pub fn opaque_mask_of(img: &Image) -> (mask: Vec<bool>)
    ensures
        mask@ == opaque_mask(img.pixels@),
{
    let mut mask: Vec<bool> = Vec::new();
    let mut i: usize = 0;
    while i < img.pixels.len()
        invariant
            i <= img.pixels.len(),
            mask.len() == i,
            forall|j: int|
                0 <= j < i ==> mask@[j] == !(#[trigger] img.pixels@[j]).transparent_spec(),
        decreases img.pixels.len() - i,
    {
        mask.push(!img.pixels[i].is_transparent());
        i = i + 1;
    }
    mask
}

/// Sets `visited` at every pixel of `pixels`.
fn mark_all(visited: &mut Vec<bool>, pixels: &Vec<XY>, width: u32, height: u32)
    requires
        old(visited).len() == width * height,
        forall|t: int| 0 <= t < pixels.len() ==> in_grid(width as int, height as int, #[trigger] pixels@[t]),
    ensures
        final(visited).len() == old(visited).len(),
        forall|q: XY|
            in_grid(width as int, height as int, q) ==> #[trigger] final(visited)@[cell(width as int, q)]
                == (old(visited)@[cell(width as int, q)] || pixels@.contains(q)),
{
    let ghost start = visited@;
    let ghost w = width as int;
    let ghost h = height as int;
    let mut t: usize = 0;
    while t < pixels.len()
        invariant
            w == width as int,
            h == height as int,
            t <= pixels.len(),
            visited.len() == start.len(),
            start.len() == w * h,
            forall|u: int| 0 <= u < pixels.len() ==> in_grid(w, h, #[trigger] pixels@[u]),
            forall|q: XY|
                in_grid(w, h, q) ==> #[trigger] visited@[cell(w, q)] == (start[cell(w, q)] || exists|u: int|
                    0 <= u < t && pixels@[u] == q),
        decreases pixels.len() - t,
    {
        let p = pixels[t];
        assert(in_grid(w, h, pixels@[t as int]));
        let c = cell_index(width, height, p);
        let ghost before = visited@;
        visited.set(c, true);
        assert forall|q: XY| in_grid(w, h, q) implies #[trigger] visited@[cell(w, q)] == (start[cell(
            w,
            q,
        )] || exists|u: int| 0 <= u < t + 1 && pixels@[u] == q) by {
            lemma_cell_bounds(w, h, q);
            if q == p {
                assert(pixels@[t as int] == q);
            } else {
                if cell(w, q) == cell(w, p) {
                    lemma_cell_injective(w, q, p);
                }
                assert(visited@[cell(w, q)] == before[cell(w, q)]);
                if exists|u: int| 0 <= u < t + 1 && pixels@[u] == q {
                    let u = choose|u: int| 0 <= u < t + 1 && pixels@[u] == q;
                    assert(u < t);
                }
            }
        }
        t = t + 1;
    }
    assert forall|q: XY| in_grid(w, h, q) implies #[trigger] visited@[cell(w, q)] == (start[cell(
        w,
        q,
    )] || pixels@.contains(q)) by {
        if pixels@.contains(q) {
            let u = choose|u: int| 0 <= u < pixels.len() && pixels@[u] == q;
            assert(0 <= u < t && pixels@[u] == q);
        }
    }
}

/// Makes every pixel of `pixels` transparent.
pub fn clear_pixels(img: &mut Image, pixels: &Vec<XY>)
    requires
        old(img).wf(),
        forall|t: int| 0 <= t < pixels.len() ==> old(img).contains_spec(#[trigger] pixels@[t]),
    ensures
        final(img).wf(),
        final(img).width == old(img).width,
        final(img).height == old(img).height,
        forall|q: XY|
            old(img).contains_spec(q) ==> #[trigger] final(img).at(q) == if pixels@.contains(q) {
                clear()
            } else {
                old(img).at(q)
            },
{
    let ghost start = *img;
    let ghost w = img.width as int;
    let ghost h = img.height as int;
    let mut t: usize = 0;
    while t < pixels.len()
        invariant
            w == img.width as int,
            h == img.height as int,
            w == start.width as int,
            h == start.height as int,
            img.wf(),
            t <= pixels.len(),
            forall|u: int| 0 <= u < pixels.len() ==> in_grid(w, h, #[trigger] pixels@[u]),
            forall|q: XY|
                in_grid(w, h, q) ==> #[trigger] img.at(q) == if exists|u: int|
                    0 <= u < t && pixels@[u] == q {
                    clear()
                } else {
                    start.at(q)
                },
        decreases pixels.len() - t,
    {
        let p = pixels[t];
        assert(in_grid(w, h, pixels@[t as int]));
        let ghost before = *img;
        img.put_pixel(p.x, p.y, Pixel::transparent());
        assert(img.pixels@ == before.pixels@.update(cell(w, p), clear()));
        assert forall|q: XY| in_grid(w, h, q) implies #[trigger] img.at(q) == if exists|u: int|
            0 <= u < t + 1 && pixels@[u] == q {
            clear()
        } else {
            start.at(q)
        } by {
            lemma_cell_bounds(w, h, q);
            if q == p {
                assert(pixels@[t as int] == q);
            } else {
                if cell(w, q) == cell(w, p) {
                    lemma_cell_injective(w, q, p);
                }
                lemma_cell_bounds(w, h, p);
                assert(img.at(q) == before.at(q));
                if exists|u: int| 0 <= u < t + 1 && pixels@[u] == q {
                    let u = choose|u: int| 0 <= u < t + 1 && pixels@[u] == q;
                    assert(u < t);
                }
            }
        }
        t = t + 1;
    }
    assert forall|q: XY| start.contains_spec(q) implies #[trigger] img.at(q) == if pixels@.contains(q) {
        clear()
    } else {
        start.at(q)
    } by {
        if pixels@.contains(q) {
            let u = choose|u: int| 0 <= u < pixels.len() && pixels@[u] == q;
            assert(0 <= u < t && pixels@[u] == q);
        }
    }
}

/// Clears the region of `seed` under the row-major `background` mask: every
/// pixel that the fill from `seed` reaches becomes transparent.
pub fn remove_background(img: &mut Image, seed: XY, background: &Vec<bool>)
    requires
        old(img).wf(),
        old(img).contains_spec(seed),
        background.len() == old(img).pixels.len(),
    ensures
        final(img).wf(),
        final(img).width == old(img).width,
        final(img).height == old(img).height,
        forall|q: XY|
            old(img).contains_spec(q) ==> #[trigger] final(img).at(q) == if region(
                background@,
                old(img).width as int,
                old(img).height as int,
                seed,
            ).contains(q) {
                clear()
            } else {
                old(img).at(q)
            },
{
    let pixels = flood_fill(background, img.width, img.height, seed);
    clear_pixels(img, &pixels);
}

/// The `k`-th pixel of a column-by-column scan of a grid of the given height.
pub open spec fn scan_pixel(height: int, k: int) -> XY {
    XY { x: (k / height) as u32, y: (k % height) as u32 }
}

proof fn lemma_scan_pixel(width: int, height: int, k: int)
    requires
        0 <= k < width * height,
        0 <= width <= u32::MAX,
        0 <= height <= u32::MAX,
    ensures
        in_grid(width, height, scan_pixel(height, k)),
        (k / height) * height + k % height == k,
{
    assert(height > 0) by (nonlinear_arith)
        requires
            0 <= k < width * height,
            height >= 0,
    ;
    assert(k / height < width) by (nonlinear_arith)
        requires
            0 <= k < width * height,
            height > 0,
    ;
    assert((k / height) * height + k % height == k) by (nonlinear_arith)
        requires
            height > 0,
    ;
}

proof fn lemma_scan_index(width: int, height: int, q: XY)
    requires
        in_grid(width, height, q),
    ensures
        0 <= q.x * height + q.y < width * height,
        scan_pixel(height, q.x * height + q.y) == q,
{
    let (x, y) = (q.x as int, q.y as int);
    assert(0 <= x * height + y < width * height) by (nonlinear_arith)
        requires
            0 <= x < width,
            0 <= y < height,
    ;
    assert((x * height + y) / height == x && (x * height + y) % height == y) by (nonlinear_arith)
        requires
            0 <= x,
            0 <= y < height,
    ;
}

/// The `k`-th scanned pixel is admitted and no earlier scanned pixel reaches it.
pub open spec fn starts_component(mask: Seq<bool>, width: int, height: int, k: int) -> bool {
    &&& admits(mask, width, height, scan_pixel(height, k))
    &&& forall|j: int|
        0 <= j < k ==> !#[trigger] reachable(
            mask,
            width,
            height,
            scan_pixel(height, j),
            scan_pixel(height, k),
        )
}

/// Scan positions, among the first `n`, at which a new component starts.
pub open spec fn component_starts(mask: Seq<bool>, width: int, height: int, n: int) -> Seq<int>
    decreases n,
{
    if n <= 0 {
        seq![]
    } else {
        let s = component_starts(mask, width, height, n - 1);
        if starts_component(mask, width, height, n - 1) {
            s.push(n - 1)
        } else {
            s
        }
    }
}

/// The pixel at which the `i`-th component of `img` starts.
pub open spec fn component_seed(img: Image, i: int) -> XY {
    let w = img.width as int;
    let h = img.height as int;
    scan_pixel(h, component_starts(opaque_mask(img.pixels@), w, h, w * h)[i])
}

/// Each component starts at an opaque pixel.
pub proof fn lemma_component_seed(img: Image, i: int)
    requires
        0 <= i < component_count(img),
    ensures
        admits(opaque_mask(img.pixels@), img.width as int, img.height as int, component_seed(img, i)),
{
    let w = img.width as int;
    let h = img.height as int;
    lemma_component_starts(opaque_mask(img.pixels@), w, h, w * h);
}

proof fn lemma_component_starts(mask: Seq<bool>, width: int, height: int, n: int)
    ensures
        forall|i: int|
            0 <= i < component_starts(mask, width, height, n).len() ==> starts_component(
                mask,
                width,
                height,
                #[trigger] component_starts(mask, width, height, n)[i],
            ),
    decreases n,
{
    if n > 0 {
        lemma_component_starts(mask, width, height, n - 1);
        let s = component_starts(mask, width, height, n - 1);
        let t = component_starts(mask, width, height, n);
        assert forall|i: int| 0 <= i < t.len() implies starts_component(
            mask,
            width,
            height,
            #[trigger] t[i],
        ) by {
            if i < s.len() {
                assert(t[i] == s[i]);
            }
        }
    }
}

/// The `i`-th opaque component of `img`.
pub open spec fn component(img: Image, i: int) -> Set<XY> {
    region(opaque_mask(img.pixels@), img.width as int, img.height as int, component_seed(img, i))
}

/// The number of opaque components of `img`.
pub open spec fn component_count(img: Image) -> int {
    let w = img.width as int;
    let h = img.height as int;
    component_starts(opaque_mask(img.pixels@), w, h, w * h).len() as int
}

/// The opaque 4-connected components of `img`, in the order in which a
/// column-by-column scan first meets them.
pub fn opaque_components(img: &Image) -> (comps: Vec<Vec<XY>>)
    requires
        img.wf(),
    ensures
        comps.len() == component_count(*img),
        forall|i: int|
            0 <= i < comps.len() ==> (#[trigger] comps@[i])@.no_duplicates() && comps@[i]@.to_set()
                == component(*img, i),
        forall|q: XY|
            admits(opaque_mask(img.pixels@), img.width as int, img.height as int, q) ==> exists|i: int|
                0 <= i < comps.len() && (#[trigger] comps@[i])@.contains(q),
{
    let ghost g = *img;
    let width = img.width;
    let height = img.height;
    let ghost w = width as int;
    let ghost h = height as int;
    let mask = opaque_mask_of(img);
    let ghost m = mask@;
    let n: usize = img.pixels.len();
    let mut visited: Vec<bool> = Vec::new();
    let mut i: usize = 0;
    while i < n
        invariant
            i <= n,
            visited.len() == i,
            forall|j: int| 0 <= j < i ==> !visited@[j],
        decreases n - i,
    {
        visited.push(false);
        i = i + 1;
    }
    let mut comps: Vec<Vec<XY>> = Vec::new();
    let ghost mut starts: Seq<int> = seq![];
    proof {
        assert forall|q: XY| in_grid(w, h, q) implies !visited@[cell(w, q)] by {
            lemma_cell_bounds(w, h, q);
        }
    }
    let mut k: usize = 0;
    while k < n
        invariant
            g == *img,
            img.wf(),
            w == width as int,
            h == height as int,
            width == img.width,
            height == img.height,
            mask@ == m,
            m == opaque_mask(img.pixels@),
            n == w * h,
            visited.len() == n,
            k <= n,
            starts == component_starts(m, w, h, k as int),
            comps.len() == starts.len(),
            forall|u: int|
                0 <= u < comps.len() ==> (#[trigger] comps@[u])@.no_duplicates() && comps@[u]@.to_set()
                    == region(m, w, h, scan_pixel(h, starts[u])),
            forall|q: XY|
                #![trigger visited@[cell(w, q)]]
                in_grid(w, h, q) ==> (visited@[cell(w, q)] <==> exists|j: int|
                    0 <= j < k && #[trigger] reachable(m, w, h, scan_pixel(h, j), q)),
            forall|q: XY|
                #![trigger visited@[cell(w, q)]]
                in_grid(w, h, q) ==> (visited@[cell(w, q)] <==> exists|u: int|
                    0 <= u < comps.len() && (#[trigger] comps@[u])@.contains(q)),
        decreases n - k,
    {
        proof {
            lemma_scan_pixel(w, h, k as int);
        }
        let x = (k / height as usize) as u32;
        let y = (k % height as usize) as u32;
        let p = XY { x, y };
        assert(p == scan_pixel(h, k as int));
        let c = cell_index(width, height, p);
        let ghost old_visited = visited@;
        let ghost old_comps = comps@;
        if visited[c] {
            proof {
                let j0 = choose|j: int| 0 <= j < k && #[trigger] reachable(m, w, h, scan_pixel(h, j), p);
                assert(!starts_component(m, w, h, k as int));
                assert forall|q: XY| in_grid(w, h, q) implies (visited@[cell(w, q)] <==> exists|j: int|
                    0 <= j < k + 1 && #[trigger] reachable(m, w, h, scan_pixel(h, j), q)) by {
                    if reachable(m, w, h, p, q) {
                        lemma_reach_trans(m, w, h, scan_pixel(h, j0), p, q);
                    }
                    if exists|j: int| 0 <= j < k + 1 && #[trigger] reachable(m, w, h, scan_pixel(h, j), q) {
                        let j = choose|j: int|
                            0 <= j < k + 1 && #[trigger] reachable(m, w, h, scan_pixel(h, j), q);
                        if j == k {
                            lemma_reach_trans(m, w, h, scan_pixel(h, j0), p, q);
                        }
                    }
                }
            }
        } else if !mask[c] {
            proof {
                assert(!admits(m, w, h, p));
                assert(!starts_component(m, w, h, k as int));
                assert forall|q: XY| in_grid(w, h, q) implies (visited@[cell(w, q)] <==> exists|j: int|
                    0 <= j < k + 1 && #[trigger] reachable(m, w, h, scan_pixel(h, j), q)) by {
                    if reachable(m, w, h, p, q) {
                        lemma_reach_admits(m, w, h, p, q);
                    }
                    if exists|j: int| 0 <= j < k + 1 && #[trigger] reachable(m, w, h, scan_pixel(h, j), q) {
                        let j = choose|j: int|
                            0 <= j < k + 1 && #[trigger] reachable(m, w, h, scan_pixel(h, j), q);
                        if j == k {
                            lemma_reach_admits(m, w, h, p, q);
                        }
                    }
                }
            }
        } else {
            proof {
                assert(admits(m, w, h, p));
                assert forall|j: int| 0 <= j < k implies !#[trigger] reachable(
                    m,
                    w,
                    h,
                    scan_pixel(h, j),
                    p,
                ) by {}
                assert(starts_component(m, w, h, k as int));
            }
            let pixels = flood_fill(&mask, width, height, p);
            proof {
                assert forall|t: int| 0 <= t < pixels.len() implies in_grid(
                    w,
                    h,
                    #[trigger] pixels@[t],
                ) by {
                    assert(admits(m, w, h, pixels@[t]));
                }
            }
            mark_all(&mut visited, &pixels, width, height);
            comps.push(pixels);
            proof {
                starts = starts.push(k as int);
                assert(comps@[comps.len() - 1]@ == pixels@);
                assert forall|u: int| 0 <= u < comps.len() implies (#[trigger] comps@[u])@.no_duplicates()
                    && comps@[u]@.to_set() == region(m, w, h, scan_pixel(h, starts[u])) by {
                    if u < old_comps.len() {
                        assert(comps@[u] == old_comps[u]);
                    }
                }
                assert forall|q: XY| in_grid(w, h, q) implies (visited@[cell(w, q)] <==> exists|j: int|
                    0 <= j < k + 1 && #[trigger] reachable(m, w, h, scan_pixel(h, j), q)) by {
                    assert(pixels@.contains(q) <==> pixels@.to_set().contains(q));
                    if exists|j: int| 0 <= j < k + 1 && #[trigger] reachable(m, w, h, scan_pixel(h, j), q) {
                        let j = choose|j: int|
                            0 <= j < k + 1 && #[trigger] reachable(m, w, h, scan_pixel(h, j), q);
                        if j < k {
                            assert(old_visited[cell(w, q)]);
                        }
                    }
                }
                assert forall|q: XY| in_grid(w, h, q) implies (visited@[cell(w, q)] <==> exists|u: int|
                    0 <= u < comps.len() && (#[trigger] comps@[u])@.contains(q)) by {
                    if pixels@.contains(q) {
                        assert(comps@[comps.len() - 1]@.contains(q));
                    }
                    if old_visited[cell(w, q)] {
                        let u = choose|u: int| 0 <= u < old_comps.len() && (#[trigger] old_comps[u])@.contains(q);
                        assert(comps@[u] == old_comps[u]);
                    }
                    if exists|u: int| 0 <= u < comps.len() && (#[trigger] comps@[u])@.contains(q) {
                        let u = choose|u: int| 0 <= u < comps.len() && (#[trigger] comps@[u])@.contains(q);
                        if u < old_comps.len() {
                            assert(comps@[u] == old_comps[u]);
                        }
                    }
                }
            }
        }
        k = k + 1;
    }
    proof {
        assert forall|q: XY| admits(m, w, h, q) implies exists|u: int|
            0 <= u < comps.len() && (#[trigger] comps@[u])@.contains(q) by {
            lemma_scan_index(w, h, q);
            let kq = q.x * h + q.y;
            lemma_reach_self(m, w, h, q);
            assert(reachable(m, w, h, scan_pixel(h, kq), q));
            assert(visited@[cell(w, q)]);
        }
    }
    comps
}

/// The component of `q` covers less than `1 / BACKGROUND_CLEANUP_DENOMINATOR`
/// of the image.
pub open spec fn is_small_component(mask: Seq<bool>, width: int, height: int, q: XY) -> bool {
    BACKGROUND_CLEANUP_DENOMINATOR * region(mask, width, height, q).len() < width * height
}

/// Clears every opaque component that covers less than
/// `1 / BACKGROUND_CLEANUP_DENOMINATOR` of the image; larger ones stay as they are.
pub fn remove_small_components(img: &mut Image)
    requires
        old(img).wf(),
    ensures
        final(img).wf(),
        final(img).width == old(img).width,
        final(img).height == old(img).height,
        forall|q: XY|
            old(img).contains_spec(q) ==> #[trigger] final(img).at(q) == if !old(img).at(
                q,
            ).transparent_spec() && is_small_component(
                opaque_mask(old(img).pixels@),
                old(img).width as int,
                old(img).height as int,
                q,
            ) {
                clear()
            } else {
                old(img).at(q)
            },
{
    let ghost start = *img;
    let ghost w = img.width as int;
    let ghost h = img.height as int;
    let ghost m = opaque_mask(img.pixels@);
    let comps = opaque_components(img);
    let mut i: usize = 0;
    while i < comps.len()
        invariant
            img.wf(),
            w == img.width as int,
            h == img.height as int,
            w == start.width as int,
            h == start.height as int,
            m == opaque_mask(start.pixels@),
            start.wf(),
            i <= comps.len(),
            forall|u: int|
                0 <= u < comps.len() ==> (#[trigger] comps@[u])@.no_duplicates() && comps@[u]@.to_set()
                    == component(start, u),
            forall|q: XY|
                in_grid(w, h, q) ==> #[trigger] img.at(q) == if exists|u: int|
                    0 <= u < i && (#[trigger] comps@[u])@.contains(q)
                        && BACKGROUND_CLEANUP_DENOMINATOR * comps@[u].len() < w * h {
                    clear()
                } else {
                    start.at(q)
                },
        decreases comps.len() - i,
    {
        let ghost before = *img;
        let ghost ci = comps@[i as int];
        let small = !is_at_least_this_much_of_image(
            comps[i].len(),
            img,
            BACKGROUND_CLEANUP_DENOMINATOR,
        );
        if small {
            proof {
                assert forall|t: int| 0 <= t < comps@[i as int].len() implies img.contains_spec(
                    #[trigger] comps@[i as int]@[t],
                ) by {
                    assert(comps@[i as int]@.to_set().contains(comps@[i as int]@[t]));
                    lemma_reach_admits(m, w, h, component_seed(start, i as int), comps@[i as int]@[t]);
                }
            }
            clear_pixels(img, &comps[i]);
        }
        assert forall|q: XY| in_grid(w, h, q) implies #[trigger] img.at(q) == if exists|u: int|
            0 <= u < i + 1 && (#[trigger] comps@[u])@.contains(q)
                && BACKGROUND_CLEANUP_DENOMINATOR * comps@[u].len() < w * h {
            clear()
        } else {
            start.at(q)
        } by {
            if exists|u: int|
                0 <= u < i + 1 && (#[trigger] comps@[u])@.contains(q)
                    && BACKGROUND_CLEANUP_DENOMINATOR * comps@[u].len() < w * h {
                let u = choose|u: int|
                    0 <= u < i + 1 && (#[trigger] comps@[u])@.contains(q)
                        && BACKGROUND_CLEANUP_DENOMINATOR * comps@[u].len() < w * h;
                if u == i {
                    assert(comps@[i as int] == ci);
                }
            }
        }
        i = i + 1;
    }
    proof {
        assert forall|q: XY| start.contains_spec(q) implies #[trigger] img.at(q) == if !start.at(
            q,
        ).transparent_spec() && is_small_component(m, w, h, q) {
            clear()
        } else {
            start.at(q)
        } by {
            lemma_cell_bounds(w, h, q);
            // every component that holds q is the region of q
            assert forall|u: int| 0 <= u < comps.len() && (#[trigger] comps@[u])@.contains(q) implies comps@[u].len()
                == region(m, w, h, q).len() by {
                assert(comps@[u]@.to_set().contains(q));
                lemma_region_shared(m, w, h, component_seed(start, u), q);
                comps@[u]@.unique_seq_to_set();
            }
            if !start.at(q).transparent_spec() {
                assert(admits(m, w, h, q));
                let u = choose|u: int| 0 <= u < comps.len() && (#[trigger] comps@[u])@.contains(q);
                assert(comps@[u]@.contains(q));
            } else {
                if exists|u: int| 0 <= u < comps.len() && (#[trigger] comps@[u])@.contains(q) {
                    let u = choose|u: int| 0 <= u < comps.len() && (#[trigger] comps@[u])@.contains(q);
                    assert(comps@[u]@.to_set().contains(q));
                    lemma_reach_admits(m, w, h, component_seed(start, u), q);
                }
            }
        }
    }
}

} // verus!
