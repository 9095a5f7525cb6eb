use vstd::prelude::*;

use crate::geometry::{is_bounding_area, Area, XY};
use crate::raster::{cell, cell_index, in_grid, lemma_cell_bounds, lemma_cell_injective};

verus! {

/// `q` is one of the four neighbours of `p`.
pub open spec fn adjacent(p: XY, q: XY) -> bool {
    ||| p.x == q.x && (p.y + 1 == q.y || q.y + 1 == p.y)
    ||| p.y == q.y && (p.x + 1 == q.x || q.x + 1 == p.x)
}

/// `p` lies in the grid and the row-major `mask` is set there.
pub open spec fn admits(mask: Seq<bool>, width: int, height: int, p: XY) -> bool {
    in_grid(width, height, p) && mask[cell(width, p)]
}

/// Consecutive entries `i` and `i + 1` of `path` are neighbours.
pub open spec fn linked(path: Seq<XY>, i: int) -> bool {
    adjacent(path[i], path[i + 1])
}

/// A non-empty 4-connected walk through admitted pixels.
pub open spec fn is_path(mask: Seq<bool>, width: int, height: int, path: Seq<XY>) -> bool {
    &&& path.len() > 0
    &&& forall|i: int| 0 <= i < path.len() ==> admits(mask, width, height, #[trigger] path[i])
    &&& forall|i: int| 0 <= i < path.len() - 1 ==> #[trigger] linked(path, i)
}

/// Some walk through admitted pixels leads from `from` to `to`.
pub open spec fn reachable(mask: Seq<bool>, width: int, height: int, from: XY, to: XY) -> bool {
    exists|path: Seq<XY>|
        #[trigger] is_path(mask, width, height, path) && path[0] == from && path.last() == to
}

/// Every pixel reachable from `seed`: its 4-connected component under `mask`,
/// empty when `mask` does not admit `seed`.
pub open spec fn region(mask: Seq<bool>, width: int, height: int, seed: XY) -> Set<XY> {
    Set::new(|p: XY| reachable(mask, width, height, seed, p))
}

/// No admitted neighbour of a member of `s` is missing from `s`.
pub open spec fn closed_under_steps(mask: Seq<bool>, width: int, height: int, s: Set<XY>) -> bool {
    forall|p: XY, q: XY|
        #![trigger s.contains(p), adjacent(p, q)]
        s.contains(p) && adjacent(p, q) && admits(mask, width, height, q) ==> s.contains(q)
}

pub proof fn lemma_reach_self(mask: Seq<bool>, width: int, height: int, p: XY)
    requires
        admits(mask, width, height, p),
    ensures
        reachable(mask, width, height, p, p),
{
    let path = seq![p];
    assert(is_path(mask, width, height, path));
}

pub proof fn lemma_reach_step(mask: Seq<bool>, width: int, height: int, s: XY, p: XY, q: XY)
    requires
        reachable(mask, width, height, s, p),
        adjacent(p, q),
        admits(mask, width, height, q),
    ensures
        reachable(mask, width, height, s, q),
{
    let path = choose|path: Seq<XY>|
        #[trigger] is_path(mask, width, height, path) && path[0] == s && path.last() == p;
    let longer = path.push(q);
    assert forall|i: int| 0 <= i < longer.len() implies admits(
        mask,
        width,
        height,
        #[trigger] longer[i],
    ) by {
        if i < path.len() {
            assert(longer[i] == path[i]);
        }
    }
    assert forall|i: int| 0 <= i < longer.len() - 1 implies #[trigger] linked(longer, i) by {
        if i < path.len() - 1 {
            assert(linked(path, i));
        }
    }
    assert(is_path(mask, width, height, longer));
}

pub proof fn lemma_reach_admits(mask: Seq<bool>, width: int, height: int, s: XY, t: XY)
    requires
        reachable(mask, width, height, s, t),
    ensures
        admits(mask, width, height, s),
        admits(mask, width, height, t),
{
    let path = choose|path: Seq<XY>|
        #[trigger] is_path(mask, width, height, path) && path[0] == s && path.last() == t;
    assert(admits(mask, width, height, path[0]));
    assert(admits(mask, width, height, path[path.len() - 1]));
}

pub proof fn lemma_reach_trans(mask: Seq<bool>, width: int, height: int, a: XY, b: XY, c: XY)
    requires
        reachable(mask, width, height, a, b),
        reachable(mask, width, height, b, c),
    ensures
        reachable(mask, width, height, a, c),
{
    let head = choose|path: Seq<XY>|
        #[trigger] is_path(mask, width, height, path) && path[0] == a && path.last() == b;
    let tail = choose|path: Seq<XY>|
        #[trigger] is_path(mask, width, height, path) && path[0] == b && path.last() == c;
    let joined = head + tail.skip(1);
    assert forall|i: int| 0 <= i < joined.len() implies admits(
        mask,
        width,
        height,
        #[trigger] joined[i],
    ) by {
        if i < head.len() {
            assert(joined[i] == head[i]);
        } else {
            assert(joined[i] == tail[i - head.len() + 1]);
        }
    }
    assert forall|i: int| 0 <= i < joined.len() - 1 implies #[trigger] linked(joined, i) by {
        if i < head.len() - 1 {
            assert(linked(head, i));
        } else if i == head.len() - 1 {
            assert(linked(tail, 0));
        } else {
            assert(linked(tail, i - head.len() + 1));
        }
    }
    if tail.len() == 1 {
        assert(joined.last() == head.last());
    } else {
        assert(joined.last() == tail.last());
    }
    assert(is_path(mask, width, height, joined));
}

pub proof fn lemma_reach_symmetric(mask: Seq<bool>, width: int, height: int, a: XY, b: XY)
    requires
        reachable(mask, width, height, a, b),
    ensures
        reachable(mask, width, height, b, a),
{
    let path = choose|path: Seq<XY>|
        #[trigger] is_path(mask, width, height, path) && path[0] == a && path.last() == b;
    let n = path.len();
    let back = Seq::new(n, |i: int| path[n - 1 - i]);
    assert forall|i: int| 0 <= i < back.len() implies admits(
        mask,
        width,
        height,
        #[trigger] back[i],
    ) by {
        assert(admits(mask, width, height, path[n - 1 - i]));
    }
    assert forall|i: int| 0 <= i < back.len() - 1 implies #[trigger] linked(back, i) by {
        assert(linked(path, n - 2 - i));
    }
    assert(is_path(mask, width, height, back));
}

/// Pixels connected to each other have the same region.
pub proof fn lemma_region_shared(mask: Seq<bool>, width: int, height: int, a: XY, b: XY)
    requires
        reachable(mask, width, height, a, b),
    ensures
        region(mask, width, height, a) == region(mask, width, height, b),
{
    lemma_reach_symmetric(mask, width, height, a, b);
    assert forall|t: XY| #[trigger] region(mask, width, height, a).contains(t) implies region(
        mask,
        width,
        height,
        b,
    ).contains(t) by {
        lemma_reach_trans(mask, width, height, b, a, t);
    }
    assert forall|t: XY| #[trigger] region(mask, width, height, b).contains(t) implies region(
        mask,
        width,
        height,
        a,
    ).contains(t) by {
        lemma_reach_trans(mask, width, height, a, b, t);
    }
    assert(region(mask, width, height, a) =~= region(mask, width, height, b));
}

/// Every entry of a path that starts inside a closed set stays inside it.
proof fn lemma_path_within(mask: Seq<bool>, width: int, height: int, path: Seq<XY>, s: Set<XY>, k: int)
    requires
        is_path(mask, width, height, path),
        s.contains(path[0]),
        closed_under_steps(mask, width, height, s),
        0 <= k < path.len(),
    ensures
        s.contains(path[k]),
    decreases k,
{
    if k > 0 {
        lemma_path_within(mask, width, height, path, s, k - 1);
        assert(linked(path, k - 1));
        assert(admits(mask, width, height, path[k]));
    }
}

/// A closed set that holds `seed` holds its whole region.
pub proof fn lemma_region_within(mask: Seq<bool>, width: int, height: int, seed: XY, s: Set<XY>)
    requires
        s.contains(seed),
        closed_under_steps(mask, width, height, s),
    ensures
        region(mask, width, height, seed).subset_of(s),
{
    assert forall|t: XY| region(mask, width, height, seed).contains(t) implies s.contains(t) by {
        let path = choose|path: Seq<XY>|
            #[trigger] is_path(mask, width, height, path) && path[0] == seed && path.last() == t;
        lemma_path_within(mask, width, height, path, s, path.len() - 1);
    }
}

/// Number of set entries.
pub open spec fn count_true(s: Seq<bool>) -> nat
    decreases s.len(),
{
    if s.len() == 0 {
        0
    } else {
        count_true(s.drop_last()) + if s.last() {
            1nat
        } else {
            0nat
        }
    }
}

pub proof fn lemma_count_true_le(s: Seq<bool>)
    ensures
        count_true(s) <= s.len(),
    decreases s.len(),
{
    if s.len() > 0 {
        lemma_count_true_le(s.drop_last());
    }
}

pub proof fn lemma_count_true_set(s: Seq<bool>, i: int)
    requires
        0 <= i < s.len(),
        !s[i],
    ensures
        count_true(s.update(i, true)) == count_true(s) + 1,
    decreases s.len(),
{
    let t = s.update(i, true);
    if i == s.len() - 1 {
        assert(t.drop_last() =~= s.drop_last());
    } else {
        assert(t.drop_last() =~= s.drop_last().update(i, true));
        lemma_count_true_set(s.drop_last(), i);
    }
}

/// Appends the in-grid 4-neighbours of `xy` to `queue`.
fn push_neighbours(queue: &mut Vec<XY>, xy: XY, width: u32, height: u32)
    requires
        in_grid(width as int, height as int, xy),
    ensures
        old(queue).len() <= final(queue).len() <= old(queue).len() + 4,
        forall|k: int| 0 <= k < old(queue).len() ==> final(queue)@[k] == old(queue)@[k],
        forall|k: int|
            old(queue).len() <= k < final(queue).len() ==> adjacent(xy, #[trigger] final(queue)@[k])
                && in_grid(width as int, height as int, final(queue)@[k]),
        forall|q: XY|
            adjacent(xy, q) && in_grid(width as int, height as int, q) ==> final(queue)@.contains(
                q,
            ),
{
    let ghost start = queue@;
    let ghost l = queue.len() as int;
    if xy.x > 0 {
        queue.push(XY { x: xy.x - 1, y: xy.y });
    }
    let ghost l1 = queue.len() as int;
    if xy.y > 0 {
        queue.push(XY { x: xy.x, y: xy.y - 1 });
    }
    let ghost l2 = queue.len() as int;
    if xy.x + 1 < width {
        queue.push(XY { x: xy.x + 1, y: xy.y });
    }
    let ghost l3 = queue.len() as int;
    if xy.y + 1 < height {
        queue.push(XY { x: xy.x, y: xy.y + 1 });
    }
    assert forall|q: XY|
        adjacent(xy, q) && in_grid(width as int, height as int, q) implies queue@.contains(q) by {
        if q.x + 1 == xy.x {
            assert(queue@[l] == q);
        } else if q.y + 1 == xy.y {
            assert(queue@[l1] == q);
        } else if q.x == xy.x + 1 {
            assert(queue@[l2] == q);
        } else {
            assert(queue@[l3] == q);
        }
    }
}

/// The 4-connected component of `seed` among the pixels that the row-major
/// `mask` admits, found with an explicit worklist.
pub fn flood_fill(mask: &Vec<bool>, width: u32, height: u32, seed: XY) -> (pixels: Vec<XY>)
    requires
        mask.len() == width * height,
        in_grid(width as int, height as int, seed),
    ensures
        pixels@.no_duplicates(),
        forall|i: int|
            0 <= i < pixels.len() ==> admits(mask@, width as int, height as int, #[trigger] pixels@[i]),
        pixels@.to_set() == region(mask@, width as int, height as int, seed),
{
    let ghost m = mask@;
    let ghost w = width as int;
    let ghost h = height as int;
    let n: usize = mask.len();
    if !mask[cell_index(width, height, seed)] {
        proof {
            assert forall|t: XY| !#[trigger] region(m, w, h, seed).contains(t) by {
                if region(m, w, h, seed).contains(t) {
                    lemma_reach_admits(m, w, h, seed, t);
                }
            }
            assert(Seq::<XY>::empty().to_set() =~= region(m, w, h, seed));
        }
        return Vec::new();
    }
    let mut visited: Vec<bool> = Vec::new();
    let mut i: usize = 0;
    while i < n
        invariant
            i <= n,
            visited.len() == i,
            forall|j: int| 0 <= j < i ==> !visited@[j],
        decreases n - i,
    {
        visited.push(false);
        i = i + 1;
    }
    proof {
        assert(count_true(visited@) == 0) by {
            lemma_count_false(visited@);
        }
    }
    let mut pixels: Vec<XY> = Vec::new();
    let mut queue: Vec<XY> = Vec::new();
    queue.push(seed);
    assert(queue@[0] == seed);
    assert forall|p: XY| in_grid(w, h, p) implies !visited@[cell(w, p)] && !pixels@.contains(p) by {
        lemma_cell_bounds(w, h, p);
    }
    while queue.len() > 0
        invariant
            mask@ == m,
            w == width as int,
            h == height as int,
            n == w * h,
            mask.len() == n,
            visited.len() == n,
            in_grid(w, h, seed),
            pixels.len() == count_true(visited@),
            pixels.len() <= n,
            forall|p: XY|
                #![trigger pixels@.contains(p)]
                #![trigger visited@[cell(w, p)]]
                in_grid(w, h, p) ==> (visited@[cell(w, p)] <==> pixels@.contains(p)),
            forall|j: int|
                0 <= j < pixels.len() ==> admits(m, w, h, #[trigger] pixels@[j]) && reachable(
                    m,
                    w,
                    h,
                    seed,
                    pixels@[j],
                ),
            pixels@.no_duplicates(),
            forall|k: int| 0 <= k < queue.len() ==> in_grid(w, h, #[trigger] queue@[k]),
            forall|k: int|
                0 <= k < queue.len() ==> #[trigger] queue@[k] == seed || exists|j: int|
                    0 <= j < pixels.len() && adjacent(#[trigger] pixels@[j], queue@[k]),
            forall|j: int, q: XY|
                #![trigger adjacent(pixels@[j], q)]
                0 <= j < pixels.len() && adjacent(pixels@[j], q) && admits(m, w, h, q) ==> visited@[cell(
                    w,
                    q,
                )] || queue@.contains(q),
            admits(m, w, h, seed) ==> visited@[cell(w, seed)] || queue@.contains(seed),
        decreases 5 * (n - pixels.len()) + queue.len(),
    {
        let ghost old_queue = queue@;
        let ghost old_pixels = pixels@;
        let ghost old_visited = visited@;
        let xy = queue.pop().unwrap();
        assert(xy == old_queue.last());
        assert(queue@ == old_queue.drop_last());
        assert(in_grid(w, h, xy)) by {
            assert(in_grid(w, h, old_queue[old_queue.len() - 1]));
        }
        proof {
            lemma_cell_bounds(w, h, xy);
            assert forall|q: XY| #[trigger]
                old_queue.contains(q) && q != xy implies queue@.contains(q) by {
                let k = choose|k: int| 0 <= k < old_queue.len() && old_queue[k] == q;
                assert(queue@[k] == q);
            }
        }
        let c = cell_index(width, height, xy);
        if visited[c] {
            continue;
        }
        if !mask[c] {
            continue;
        }
        proof {
            lemma_count_true_set(visited@, c as int);
            lemma_count_true_le(visited@.update(c as int, true));
            assert(!old_pixels.contains(xy));
            // where the popped pixel came from
            let k = old_queue.len() - 1;
            if xy == seed {
                lemma_reach_self(m, w, h, xy);
            } else {
                assert(old_queue[k] == xy);
                let j = choose|j: int| 0 <= j < old_pixels.len() && adjacent(old_pixels[j], xy);
                assert(reachable(m, w, h, seed, old_pixels[j]));
                lemma_reach_step(m, w, h, seed, old_pixels[j], xy);
            }
        }
        visited.set(c, true);
        pixels.push(xy);
        let ghost mid_queue = queue@;
        push_neighbours(&mut queue, xy, width, height);
        proof {
            assert(pixels@ == old_pixels.push(xy));
            assert forall|p: XY| in_grid(w, h, p) implies (visited@[cell(w, p)]
                <==> pixels@.contains(p)) by {
                if p == xy {
                    assert(pixels@[pixels.len() - 1] == xy);
                } else {
                    lemma_cell_bounds(w, h, p);
                    if cell(w, p) == cell(w, xy) {
                        lemma_cell_injective(w, p, xy);
                    }
                    assert(visited@[cell(w, p)] == old_visited[cell(w, p)]);
                    if old_pixels.contains(p) {
                        let j = choose|j: int| 0 <= j < old_pixels.len() && old_pixels[j] == p;
                        assert(pixels@[j] == p);
                    }
                    if pixels@.contains(p) {
                        let j = choose|j: int| 0 <= j < pixels.len() && pixels@[j] == p;
                        assert(old_pixels[j] == p);
                    }
                }
            }
            assert forall|j: int| 0 <= j < pixels.len() implies admits(
                m,
                w,
                h,
                #[trigger] pixels@[j],
            ) && reachable(m, w, h, seed, pixels@[j]) by {
                if j < old_pixels.len() {
                    assert(pixels@[j] == old_pixels[j]);
                }
            }
            assert(pixels@.no_duplicates()) by {
                assert forall|a: int, b: int|
                    0 <= a < b < pixels.len() implies pixels@[a] != pixels@[b] by {
                    if b == pixels.len() - 1 {
                        assert(old_pixels.contains(pixels@[a]));
                    } else {
                        assert(old_pixels[a] != old_pixels[b]);
                    }
                }
            }
            assert forall|k: int| 0 <= k < queue.len() implies #[trigger] queue@[k] == seed
                || exists|j: int| 0 <= j < pixels.len() && adjacent(#[trigger] pixels@[j], queue@[k]) by {
                if k < mid_queue.len() {
                    assert(queue@[k] == old_queue[k]);
                    if old_queue[k] != seed {
                        let j = choose|j: int|
                            0 <= j < old_pixels.len() && adjacent(#[trigger] old_pixels[j], old_queue[k]);
                        assert(pixels@[j] == old_pixels[j]);
                    }
                } else {
                    assert(adjacent(pixels@[pixels.len() - 1], queue@[k]));
                }
            }
            assert forall|q: XY| #[trigger] mid_queue.contains(q) implies queue@.contains(q) by {
                let k = choose|k: int| 0 <= k < mid_queue.len() && mid_queue[k] == q;
                assert(queue@[k] == q);
            }
            assert forall|j: int, q: XY|
                #![trigger adjacent(pixels@[j], q)]
                0 <= j < pixels.len() && adjacent(pixels@[j], q) && admits(
                    m,
                    w,
                    h,
                    q,
                ) implies visited@[cell(w, q)] || queue@.contains(q) by {
                lemma_cell_bounds(w, h, q);
                if j == pixels.len() - 1 {
                } else {
                    assert(pixels@[j] == old_pixels[j]);
                    if q == xy {
                    } else if old_queue.contains(q) {
                        assert(mid_queue.contains(q));
                    } else {
                        assert(old_visited[cell(w, q)]);
                        if cell(w, q) == cell(w, xy) {
                            lemma_cell_injective(w, q, xy);
                        }
                    }
                }
            }
            lemma_cell_bounds(w, h, seed);
            if cell(w, seed) == cell(w, xy) {
                lemma_cell_injective(w, seed, xy);
            }
            if admits(m, w, h, seed) && seed != xy {
                if old_visited[cell(w, seed)] {
                    assert(visited@[cell(w, seed)]);
                } else {
                    assert(mid_queue.contains(seed));
                    assert(queue@.contains(seed));
                }
            }
        }
    }
    proof {
        let s = pixels@.to_set();
        assert(closed_under_steps(m, w, h, s)) by {
            assert forall|p: XY, q: XY|
                #![trigger s.contains(p), adjacent(p, q)]
                s.contains(p) && adjacent(p, q) && admits(m, w, h, q) implies s.contains(q) by {
                let j = choose|j: int| 0 <= j < pixels.len() && pixels@[j] == p;
                assert(adjacent(pixels@[j], q));
            }
        }
        if admits(m, w, h, seed) {
            lemma_region_within(m, w, h, seed, s);
        } else {
            assert forall|t: XY| #[trigger] region(m, w, h, seed).contains(t) implies false by {
                lemma_reach_admits(m, w, h, seed, t);
            }
        }
        assert forall|t: XY| s.contains(t) implies #[trigger] region(m, w, h, seed).contains(t) by {
            let j = choose|j: int| 0 <= j < pixels.len() && pixels@[j] == t;
            assert(reachable(m, w, h, seed, pixels@[j]));
        }
        assert(s =~= region(m, w, h, seed));
    }
    pixels
}

/// Two fills of the same mask from the same seed hold the same pixels, in
/// whatever order their worklists were served.
pub proof fn lemma_flood_fill_deterministic(
    mask: Seq<bool>,
    width: int,
    height: int,
    seed: XY,
    first: Seq<XY>,
    second: Seq<XY>,
)
    requires
        first.no_duplicates(),
        second.no_duplicates(),
        first.to_set() == region(mask, width, height, seed),
        second.to_set() == region(mask, width, height, seed),
    ensures
        first.to_set() == second.to_set(),
        first.len() == second.len(),
{
    first.unique_seq_to_set();
    second.unique_seq_to_set();
}

/// Inside a rectangle whose pixels are all admitted, every pixel of the
/// rectangle is reachable from every other.
proof fn lemma_reach_in_block(mask: Seq<bool>, width: int, height: int, block: Area, s: XY, t: XY)
    requires
        block.fits(width, height),
        forall|p: XY| block.contains_spec(p) ==> #[trigger] admits(mask, width, height, p),
        block.contains_spec(s),
        block.contains_spec(t),
    ensures
        reachable(mask, width, height, s, t),
    decreases (if t.x >= s.x { t.x - s.x } else { s.x - t.x }) + (if t.y >= s.y { t.y - s.y } else { s.y - t.y }),
{
    if t == s {
        assert(admits(mask, width, height, s));
        lemma_reach_self(mask, width, height, s);
    } else {
        let prev = if t.x > s.x {
            XY { x: (t.x - 1) as u32, y: t.y }
        } else if t.x < s.x {
            XY { x: (t.x + 1) as u32, y: t.y }
        } else if t.y > s.y {
            XY { x: t.x, y: (t.y - 1) as u32 }
        } else {
            XY { x: t.x, y: (t.y + 1) as u32 }
        };
        lemma_reach_in_block(mask, width, height, block, s, prev);
        assert(admits(mask, width, height, t));
        lemma_reach_step(mask, width, height, s, prev, t);
    }
}

/// A fill of a mask that admits exactly one rectangle, seeded inside it, has
/// that rectangle as its bounding area.
pub proof fn lemma_block_fill_bounds(
    mask: Seq<bool>,
    width: int,
    height: int,
    block: Area,
    seed: XY,
    pixels: Seq<XY>,
    bounds: Area,
)
    requires
        mask.len() == width * height,
        block.fits(width, height),
        block.contains_spec(seed),
        forall|p: XY|
            in_grid(width, height, p) ==> (mask[cell(width, p)] <==> block.contains_spec(p)),
        pixels.to_set() == region(mask, width, height, seed),
        is_bounding_area(bounds, pixels.to_set()),
    ensures
        bounds == block,
{
    let s = pixels.to_set();
    assert forall|p: XY| block.contains_spec(p) implies #[trigger] admits(mask, width, height, p) by {
    }
    assert forall|p: XY| #[trigger] s.contains(p) implies block.contains_spec(p) by {
        assert(region(mask, width, height, seed).contains(p));
        lemma_reach_admits(mask, width, height, seed, p);
    }
    let top_left = XY { x: block.left, y: block.top };
    let bottom_right = XY { x: block.right_spec() as u32, y: block.bottom_spec() as u32 };
    lemma_reach_in_block(mask, width, height, block, seed, top_left);
    lemma_reach_in_block(mask, width, height, block, seed, bottom_right);
    assert(s.contains(top_left));
    assert(s.contains(bottom_right));
    assert(bounds.contains_spec(top_left));
    assert(bounds.contains_spec(bottom_right));
    let pl = choose|p: XY| s.contains(p) && p.x == bounds.left;
    let pt = choose|p: XY| s.contains(p) && p.y == bounds.top;
    let pr = choose|p: XY| s.contains(p) && p.x == bounds.right_spec();
    let pb = choose|p: XY| s.contains(p) && p.y == bounds.bottom_spec();
    assert(block.contains_spec(pl));
    assert(block.contains_spec(pt));
    assert(block.contains_spec(pr));
    assert(block.contains_spec(pb));
}

proof fn lemma_count_false(s: Seq<bool>)
    requires
        forall|j: int| 0 <= j < s.len() ==> !s[j],
    ensures
        count_true(s) == 0,
    decreases s.len(),
{
    if s.len() > 0 {
        lemma_count_false(s.drop_last());
    }
}

} // verus!
