use vstd::prelude::*;

use crate::color::abs;
use crate::components::{
    component, component_count, component_seed, lemma_component_seed, opaque_components,
    opaque_mask,
};
use crate::flood::{lemma_reach_admits, lemma_reach_self};
use crate::geometry::Area;
use crate::markers::lemma_bounding_area_unique;
use crate::markers::bounding_area_of;
use crate::raster::Image;

verus! {

/// Stickers whose centres are closer than `1 / SNAP_STICKERS_DENOMINATOR`
/// of the image width share a column.
pub const SNAP_STICKERS_DENOMINATOR: u64 = 5;

/// Index `i` goes before index `j` when sorting by `keys`, ties kept in
/// input order.
pub open spec fn precedes(keys: Seq<(int, int)>, i: int, j: int) -> bool {
    ||| keys[i].0 < keys[j].0
    ||| keys[i].0 == keys[j].0 && keys[i].1 < keys[j].1
    ||| keys[i].0 == keys[j].0 && keys[i].1 == keys[j].1 && i < j
}

/// `order` lists the indices of `keys` sorted stably by key.
pub open spec fn is_stable_order(keys: Seq<(int, int)>, order: Seq<int>) -> bool {
    &&& order.len() == keys.len()
    &&& order.no_duplicates()
    &&& forall|a: int| 0 <= a < order.len() ==> 0 <= #[trigger] order[a] < keys.len()
    &&& forall|a: int, b: int|
        0 <= a < b < order.len() ==> precedes(keys, #[trigger] order[a], #[trigger] order[b])
}

pub open spec fn key_view(keys: Seq<(u64, u64)>) -> Seq<(int, int)> {
    keys.map_values(|k: (u64, u64)| (k.0 as int, k.1 as int))
}

/// Indices of `keys` in stable ascending order.
pub fn stable_order(keys: &Vec<(u64, u64)>) -> (order: Vec<usize>)
    ensures
        is_stable_order(key_view(keys@), order@.map_values(|i: usize| i as int)),
{
    let ghost kv = key_view(keys@);
    let mut order: Vec<usize> = Vec::new();
    let mut i: usize = 0;
    while i < keys.len()
        invariant
            kv == key_view(keys@),
            i <= keys.len(),
            order.len() == i,
            order@.no_duplicates(),
            forall|a: int| 0 <= a < order.len() ==> #[trigger] order@[a] < i,
            forall|a: int, b: int|
                0 <= a < b < order.len() ==> precedes(kv, #[trigger] order@[a] as int, #[trigger] order@[b] as int),
        decreases keys.len() - i,
    {
        let key = keys[i];
        let mut pos: usize = order.len();
        while pos > 0 && (keys[order[pos - 1]].0 > key.0 || (keys[order[pos - 1]].0 == key.0
            && keys[order[pos - 1]].1 > key.1))
            invariant
                kv == key_view(keys@),
                i < keys.len(),
                key == keys@[i as int],
                pos <= order.len(),
                order.len() == i,
                forall|a: int| 0 <= a < order.len() ==> #[trigger] order@[a] < i,
                forall|a: int|
                    pos <= a < order.len() ==> precedes(kv, i as int, #[trigger] order@[a] as int),
            decreases pos,
        {
            pos = pos - 1;
        }
        let ghost before = order@;
        proof {
            if pos > 0 {
                assert(!precedes(kv, i as int, before[pos - 1] as int));
            }
        }
        order.insert(pos, i);
        proof {
            assert(order@ == before.insert(pos as int, i));
            assert forall|a: int| 0 <= a < order.len() implies #[trigger] order@[a] < i + 1 by {
                if a < pos {
                    assert(order@[a] == before[a]);
                } else if a > pos {
                    assert(order@[a] == before[a - 1]);
                }
            }
            assert forall|a: int, b: int| 0 <= a < b < order.len() implies precedes(
                kv,
                #[trigger] order@[a] as int,
                #[trigger] order@[b] as int,
            ) by {
                if b < pos {
                    assert(order@[a] == before[a] && order@[b] == before[b]);
                } else if b == pos {
                    assert(order@[a] == before[a]);
                    // before[a] precedes or equals before[pos - 1], which does not follow i
                    if a < pos - 1 {
                        assert(precedes(kv, before[a] as int, before[pos - 1] as int));
                    }
                } else if a == pos {
                    assert(order@[b] == before[b - 1]);
                } else if a < pos {
                    assert(order@[a] == before[a] && order@[b] == before[b - 1]);
                } else {
                    assert(order@[a] == before[a - 1] && order@[b] == before[b - 1]);
                }
            }
            assert forall|a: int, b: int| 0 <= a < b < order.len() implies order@[a] != order@[b] by {
                assert(precedes(kv, order@[a] as int, order@[b] as int));
            }
        }
        i = i + 1;
    }
    let ghost o = order@.map_values(|i: usize| i as int);
    assert forall|a: int, b: int| 0 <= a < b < o.len() implies precedes(
        kv,
        #[trigger] o[a],
        #[trigger] o[b],
    ) by {
        assert(precedes(kv, order@[a] as int, order@[b] as int));
    }
    assert forall|a: int, b: int| 0 <= a < b < o.len() implies o[a] != o[b] by {
        assert(order@[a] != order@[b]);
    }
    order
}

/// Centres `a` and `b` are close enough to share a column in an image of
/// the given width.
pub open spec fn snaps(a: int, b: int, width: int) -> bool {
    SNAP_STICKERS_DENOMINATOR * abs(a - b) < width
}

/// The first index in `from..k` whose centre snaps to that of `k`, or -1.
pub open spec fn first_snap(xs: Seq<int>, k: int, width: int, from: int) -> int
    decreases k - from,
{
    if from >= k {
        -1
    } else if snaps(xs[from], xs[k], width) {
        from
    } else {
        first_snap(xs, k, width, from + 1)
    }
}

/// The largest entry of `s`, 0 for an empty sequence.
pub open spec fn seq_max(s: Seq<int>) -> int
    decreases s.len(),
{
    if s.len() == 0 {
        0
    } else {
        let m = seq_max(s.drop_last());
        if s.last() > m {
            s.last()
        } else {
            m
        }
    }
}

/// Columns of stickers listed by ascending left edge, given their centres:
/// a sticker joins the column of the first earlier one that snaps to it,
/// otherwise opens a column one above the highest so far.
pub open spec fn columns_of(xs: Seq<int>, width: int) -> Seq<int>
    decreases xs.len(),
{
    if xs.len() == 0 {
        seq![]
    } else {
        let prev = columns_of(xs.drop_last(), width);
        let k = xs.len() - 1;
        let f = first_snap(xs, k, width, 0);
        prev.push(
            if f >= 0 {
                prev[f]
            } else if k == 0 {
                0
            } else {
                seq_max(prev) + 1
            },
        )
    }
}

/// Rows within columns: 0 where the column changes, one more than the
/// previous entry otherwise.
pub open spec fn rows_of(cols: Seq<int>) -> Seq<int>
    decreases cols.len(),
{
    if cols.len() == 0 {
        seq![]
    } else {
        let prev = rows_of(cols.drop_last());
        let t = cols.len() - 1;
        prev.push(
            if t == 0 || cols[t] != cols[t - 1] {
                0
            } else {
                prev[t - 1] + 1
            },
        )
    }
}

proof fn lemma_columns_of_len(xs: Seq<int>, width: int)
    ensures
        columns_of(xs, width).len() == xs.len(),
        forall|k: int|
            0 <= k < xs.len() ==> 0 <= #[trigger] columns_of(xs, width)[k] <= k,
        seq_max(columns_of(xs, width)) < xs.len() || xs.len() == 0,
        forall|k: int| 0 <= k < xs.len() ==> #[trigger] columns_of(xs, width)[k] <= seq_max(columns_of(xs, width)),
        seq_max(columns_of(xs, width)) >= 0,
    decreases xs.len(),
{
    if xs.len() > 0 {
        lemma_columns_of_len(xs.drop_last(), width);
        let prev = columns_of(xs.drop_last(), width);
        let cols = columns_of(xs, width);
        assert(cols.drop_last() =~= prev);
        let f = first_snap(xs, xs.len() - 1, width, 0);
        lemma_first_snap_range(xs, xs.len() - 1, width, 0);
    }
}

proof fn lemma_first_snap_range(xs: Seq<int>, k: int, width: int, from: int)
    requires
        0 <= from,
    ensures
        first_snap(xs, k, width, from) == -1 || from <= first_snap(xs, k, width, from) < k,
    decreases k - from,
{
    if from < k && !snaps(xs[from], xs[k], width) {
        lemma_first_snap_range(xs, k, width, from + 1);
    }
}

proof fn lemma_rows_of_len(cols: Seq<int>)
    ensures
        rows_of(cols).len() == cols.len(),
        forall|t: int| 0 <= t < cols.len() ==> 0 <= #[trigger] rows_of(cols)[t] <= t,
    decreases cols.len(),
{
    if cols.len() > 0 {
        lemma_rows_of_len(cols.drop_last());
        assert(rows_of(cols).drop_last() =~= rows_of(cols.drop_last()));
    }
}

/// The first earlier centre that snaps to `xs[k]`.
fn find_snap(xs: &Vec<u32>, k: usize, width: u32) -> (r: Option<usize>)
    requires
        k < xs.len(),
    ensures
        r == (if first_snap(xs@.map_values(|x: u32| x as int), k as int, width as int, 0) >= 0 {
            Some(first_snap(xs@.map_values(|x: u32| x as int), k as int, width as int, 0) as usize)
        } else {
            None::<usize>
        }),
{
    let ghost v = xs@.map_values(|x: u32| x as int);
    let mut j: usize = 0;
    while j < k
        invariant
            v == xs@.map_values(|x: u32| x as int),
            k < xs.len(),
            j <= k,
            first_snap(v, k as int, width as int, 0) == first_snap(v, k as int, width as int, j as int),
        decreases k - j,
    {
        let d: u64 = if xs[j] > xs[k] {
            (xs[j] - xs[k]) as u64
        } else {
            (xs[k] - xs[j]) as u64
        };
        if SNAP_STICKERS_DENOMINATOR * d < width as u64 {
            return Some(j);
        }
        j = j + 1;
    }
    None
}

/// Columns for stickers listed by ascending left edge, given their centres.
pub fn assign_columns(xs: &Vec<u32>, width: u32) -> (cols: Vec<usize>)
    ensures
        cols@.map_values(|c: usize| c as int) == columns_of(
            xs@.map_values(|x: u32| x as int),
            width as int,
        ),
{
    let ghost v = xs@.map_values(|x: u32| x as int);
    let mut cols: Vec<usize> = Vec::new();
    let mut highest: usize = 0;
    let mut k: usize = 0;
    while k < xs.len()
        invariant
            v == xs@.map_values(|x: u32| x as int),
            k <= xs.len(),
            cols@.map_values(|c: usize| c as int) == columns_of(v.subrange(0, k as int), width as int),
            highest == seq_max(columns_of(v.subrange(0, k as int), width as int)),
            highest <= k,
        decreases xs.len() - k,
    {
        let ghost prefix = v.subrange(0, k as int + 1);
        let ghost prev = columns_of(v.subrange(0, k as int), width as int);
        proof {
            assert(prefix.drop_last() =~= v.subrange(0, k as int));
            lemma_columns_of_len(prefix, width as int);
            lemma_columns_of_len(prefix.drop_last(), width as int);
            lemma_first_snap_range(prefix, k as int, width as int, 0);
            lemma_first_snap_prefix(v, prefix, k as int, width as int, 0);
        }
        let c = match find_snap(xs, k, width) {
            Some(j) => cols[j],
            None => if k == 0 {
                0
            } else {
                highest + 1
            },
        };
        cols.push(c);
        if c > highest {
            highest = c;
        }
        proof {
            assert(columns_of(prefix, width as int) == prev.push(c as int));
            assert(columns_of(prefix, width as int).drop_last() =~= prev);
            assert(cols@.map_values(|c: usize| c as int) =~= columns_of(prefix, width as int));
        }
        k = k + 1;
    }
    assert(v.subrange(0, k as int) =~= v);
    cols
}

proof fn lemma_first_snap_prefix(v: Seq<int>, prefix: Seq<int>, k: int, width: int, from: int)
    requires
        0 <= from,
        0 <= k < prefix.len() <= v.len(),
        forall|i: int| 0 <= i < prefix.len() ==> prefix[i] == v[i],
    ensures
        first_snap(prefix, k, width, from) == first_snap(v, k, width, from),
    decreases k - from,
{
    if from < k {
        lemma_first_snap_prefix(v, prefix, k, width, from + 1);
    }
}

proof fn lemma_all_snap_single_column(xs: Seq<int>, width: int)
    requires
        forall|a: int, b: int|
            0 <= a < xs.len() && 0 <= b < xs.len() ==> snaps(#[trigger] xs[a], #[trigger] xs[b], width),
    ensures
        forall|k: int| 0 <= k < xs.len() ==> #[trigger] columns_of(xs, width)[k] == 0,
    decreases xs.len(),
{
    if xs.len() > 0 {
        let prefix = xs.drop_last();
        lemma_all_snap_single_column(prefix, width);
        lemma_columns_of_len(prefix, width);
        let k = xs.len() - 1;
        assert(columns_of(xs, width).drop_last() =~= columns_of(prefix, width));
        if k > 0 {
            assert(snaps(xs[0], xs[k], width));
            assert(first_snap(xs, k, width, 0) == 0);
            assert(columns_of(prefix, width)[0] == 0);
        }
        assert forall|j: int| 0 <= j < xs.len() implies #[trigger] columns_of(xs, width)[j] == 0 by {
            if j < k {
                assert(columns_of(xs, width)[j] == columns_of(prefix, width)[j]);
            }
        }
    }
}

/// Stickers whose centres all lie in one interval narrower than the snap
/// distance (`width / SNAP_STICKERS_DENOMINATOR`) form a single column.
pub proof fn lemma_single_column(
    areas: Seq<Area>,
    width: int,
    x0: int,
    stickers: Seq<IdentifiedSticker>,
)
    requires
        is_layout(areas, width, stickers),
        forall|i: int|
            0 <= i < areas.len() ==> x0 <= (#[trigger] areas[i]).center_spec().x
                && SNAP_STICKERS_DENOMINATOR * (areas[i].center_spec().x - x0) < width,
    ensures
        forall|t: int| 0 <= t < stickers.len() ==> (#[trigger] stickers[t]).column == 0,
{
    let (by_left, by_column) = choose|by_left: Seq<int>, by_column: Seq<int>|
        #[trigger] layout_with(areas, width, by_left, by_column, stickers);
    let sorted = by_left.map_values(|i: int| areas[i]);
    let xs = sorted.map_values(|a: Area| a.center_spec().x as int);
    assert forall|a: int, b: int|
        0 <= a < xs.len() && 0 <= b < xs.len() implies snaps(#[trigger] xs[a], #[trigger] xs[b], width) by {
        assert(0 <= by_left[a] < areas.len());
        assert(0 <= by_left[b] < areas.len());
        assert(x0 <= areas[by_left[a]].center_spec().x);
        assert(x0 <= areas[by_left[b]].center_spec().x);
    }
    lemma_all_snap_single_column(xs, width);
    assert forall|t: int| 0 <= t < stickers.len() implies (#[trigger] stickers[t]).column == 0 by {
        assert(0 <= by_column[t] < xs.len());
        assert(columns_of(xs, width)[by_column[t]] == 0);
    }
}

proof fn lemma_rows_of_step(cols: Seq<int>, t: int)
    requires
        0 <= t < cols.len(),
    ensures
        rows_of(cols)[t] == if t == 0 || cols[t] != cols[t - 1] {
            0
        } else {
            rows_of(cols)[t - 1] + 1
        },
    decreases cols.len(),
{
    let prefix = cols.drop_last();
    lemma_rows_of_len(cols);
    lemma_rows_of_len(prefix);
    assert(rows_of(cols).drop_last() =~= rows_of(prefix));
    if t < cols.len() - 1 {
        lemma_rows_of_step(prefix, t);
        assert(rows_of(cols)[t] == rows_of(prefix)[t]);
        if t > 0 {
            assert(rows_of(cols)[t - 1] == rows_of(prefix)[t - 1]);
        }
    }
}

/// The grid numbering: columns never decrease along the list; within a
/// column rows count up from 0 by one, in ascending order of top edge.
pub proof fn lemma_layout_grid(areas: Seq<Area>, width: int, stickers: Seq<IdentifiedSticker>)
    requires
        is_layout(areas, width, stickers),
    ensures
        stickers.len() > 0 ==> stickers[0].row == 0,
        forall|t: int|
            0 < t < stickers.len() ==> stickers[t - 1].column <= (#[trigger] stickers[t]).column,
        forall|t: int|
            0 < t < stickers.len() && stickers[t - 1].column != (#[trigger] stickers[t]).column
                ==> stickers[t].row == 0,
        forall|t: int|
            0 < t < stickers.len() && stickers[t - 1].column == (#[trigger] stickers[t]).column
                ==> stickers[t].row == stickers[t - 1].row + 1 && stickers[t - 1].area.top
                <= stickers[t].area.top,
{
    let (by_left, by_column) = choose|by_left: Seq<int>, by_column: Seq<int>|
        #[trigger] layout_with(areas, width, by_left, by_column, stickers);
    let sorted = by_left.map_values(|i: int| areas[i]);
    let cols = columns_of(sorted.map_values(|a: Area| a.center_spec().x as int), width);
    let keys = Seq::new(sorted.len(), |i: int| (cols[i], sorted[i].top as int));
    let col_seq = by_column.map_values(|i: int| cols[i]);
    lemma_columns_of_len(sorted.map_values(|a: Area| a.center_spec().x as int), width);
    if stickers.len() > 0 {
        lemma_rows_of_step(col_seq, 0);
    }
    assert forall|t: int| 0 < t < stickers.len() implies stickers[t - 1].column <= (
    #[trigger] stickers[t]).column && (stickers[t - 1].column != stickers[t].column
        ==> stickers[t].row == 0) && (stickers[t - 1].column == stickers[t].column
        ==> stickers[t].row == stickers[t - 1].row + 1 && stickers[t - 1].area.top
        <= stickers[t].area.top) by {
        assert(precedes(keys, by_column[t - 1], by_column[t]));
        assert(0 <= by_column[t - 1] < keys.len() && 0 <= by_column[t] < keys.len());
        lemma_rows_of_step(col_seq, t);
        assert(stickers[t].column == cols[by_column[t]]);
        assert(stickers[t - 1].column == cols[by_column[t - 1]]);
    }
}

/// A sticker's bounding rectangle and its place in the grid.
#[derive(Clone, Copy, Debug, PartialEq, Eq, Structural)]
pub struct IdentifiedSticker {
    pub area: Area,
    pub column: usize,
    pub row: usize,
}

/// The stickers of an image, by column and then from top to bottom.
pub struct IdentifiedStickers {
    pub stickers: Vec<IdentifiedSticker>,
}

/// `stickers` lays out `areas` as a grid through the orders `by_left` and
/// `by_column`: areas sorted by left edge get columns from their centres,
/// are re-sorted by column and top, and are numbered down each column.
pub open spec fn layout_with(
    areas: Seq<Area>,
    width: int,
    by_left: Seq<int>,
    by_column: Seq<int>,
    stickers: Seq<IdentifiedSticker>,
) -> bool {
    let sorted = by_left.map_values(|i: int| areas[i]);
    let cols = columns_of(sorted.map_values(|a: Area| a.center_spec().x as int), width);
    let keys = Seq::new(sorted.len(), |i: int| (cols[i], sorted[i].top as int));
    let rows = rows_of(by_column.map_values(|i: int| cols[i]));
    &&& is_stable_order(areas.map_values(|a: Area| (a.left as int, 0int)), by_left)
    &&& is_stable_order(keys, by_column)
    &&& stickers.len() == areas.len()
    &&& forall|t: int|
        0 <= t < stickers.len() ==> (#[trigger] stickers[t]).area == sorted[by_column[t]]
            && stickers[t].column == cols[by_column[t]] && stickers[t].row == rows[t]
}

/// `stickers` is the grid layout of `areas` in an image of the given width.
pub open spec fn is_layout(areas: Seq<Area>, width: int, stickers: Seq<IdentifiedSticker>) -> bool {
    exists|by_left: Seq<int>, by_column: Seq<int>|
        #[trigger] layout_with(areas, width, by_left, by_column, stickers)
}

/// The bounding areas of the opaque components of `img`, in scan order.
pub open spec fn component_areas(img: Image) -> Seq<Area> {
    Seq::new(component_count(img) as nat, |i: int| bounding_area_of(component(img, i)))
}

impl IdentifiedStickers {
    /// Lays out the given sticker rectangles as a grid for an image of the
    /// given width.
    pub fn from_areas(areas: &Vec<Area>, width: u32) -> (r: IdentifiedStickers)
        requires
            forall|i: int| 0 <= i < areas.len() ==> (#[trigger] areas@[i]).wf(),
        ensures
            is_layout(areas@, width as int, r.stickers@),
    {
        let n = areas.len();
        // sort by left edge
        let mut keys: Vec<(u64, u64)> = Vec::new();
        let mut i: usize = 0;
        while i < n
            invariant
                n == areas.len(),
                i <= n,
                keys.len() == i,
                forall|j: int|
                    0 <= j < i ==> #[trigger] keys@[j] == (areas@[j].left as u64, 0u64),
            decreases n - i,
        {
            keys.push((areas[i].left as u64, 0));
            i = i + 1;
        }
        let by_left = stable_order(&keys);
        let ghost o1 = by_left@.map_values(|i: usize| i as int);
        proof {
            assert(key_view(keys@) =~= areas@.map_values(|a: Area| (a.left as int, 0int)));
        }
        let mut sorted: Vec<Area> = Vec::new();
        let mut xs: Vec<u32> = Vec::new();
        let mut t: usize = 0;
        while t < n
            invariant
                n == areas.len(),
                by_left.len() == n,
                o1 == by_left@.map_values(|i: usize| i as int),
                forall|a: int| 0 <= a < n ==> 0 <= #[trigger] o1[a] < n,
                forall|i: int| 0 <= i < areas.len() ==> (#[trigger] areas@[i]).wf(),
                t <= n,
                sorted.len() == t,
                xs.len() == t,
                forall|j: int| 0 <= j < t ==> #[trigger] sorted@[j] == areas@[o1[j]],
                forall|j: int| 0 <= j < t ==> #[trigger] xs@[j] == sorted@[j].center_spec().x,
            decreases n - t,
        {
            assert(o1[t as int] == by_left@[t as int]);
            let a = areas[by_left[t]];
            sorted.push(a);
            xs.push(a.center().x);
            t = t + 1;
        }
        let ghost sorted_v = o1.map_values(|i: int| areas@[i]);
        assert(sorted@ =~= sorted_v);
        assert(xs@.map_values(|x: u32| x as int) =~= sorted_v.map_values(
            |a: Area| a.center_spec().x as int,
        ));
        let cols = assign_columns(&xs, width);
        let ghost cv = cols@.map_values(|c: usize| c as int);
        proof {
            lemma_columns_of_len(xs@.map_values(|x: u32| x as int), width as int);
        }
        // re-sort by column, then top
        let mut keys2: Vec<(u64, u64)> = Vec::new();
        let mut j: usize = 0;
        while j < n
            invariant
                n == areas.len(),
                sorted.len() == n,
                cols.len() == n,
                cv == cols@.map_values(|c: usize| c as int),
                j <= n,
                keys2.len() == j,
                forall|k: int|
                    0 <= k < j ==> #[trigger] keys2@[k] == (cols@[k] as u64, sorted@[k].top as u64),
            decreases n - j,
        {
            keys2.push((cols[j] as u64, sorted[j].top as u64));
            j = j + 1;
        }
        let by_column = stable_order(&keys2);
        let ghost o2 = by_column@.map_values(|i: usize| i as int);
        let ghost key2_spec = Seq::new(sorted_v.len(), |i: int| (cv[i], sorted_v[i].top as int));
        proof {
            assert(key_view(keys2@) =~= key2_spec);
        }
        // number the rows
        let mut stickers: Vec<IdentifiedSticker> = Vec::new();
        let mut row: usize = 0;
        let mut u: usize = 0;
        let ghost col_seq = o2.map_values(|i: int| cv[i]);
        while u < n
            invariant
                n == areas.len(),
                sorted.len() == n,
                cols.len() == n,
                by_column.len() == n,
                cv == cols@.map_values(|c: usize| c as int),
                o2 == by_column@.map_values(|i: usize| i as int),
                col_seq == o2.map_values(|i: int| cv[i]),
                forall|a: int| 0 <= a < n ==> 0 <= #[trigger] o2[a] < n,
                u <= n,
                stickers.len() == u,
                u > 0 ==> row == rows_of(col_seq.subrange(0, u as int))[u - 1],
                u > 0 ==> row <= u,
                forall|k: int|
                    0 <= k < u ==> (#[trigger] stickers@[k]).area == sorted@[o2[k]]
                        && stickers@[k].column == cv[o2[k]] && stickers@[k].row == rows_of(
                        col_seq.subrange(0, u as int),
                    )[k],
            decreases n - u,
        {
            let i = by_column[u];
            assert(o2[u as int] == i);
            let column = cols[i];
            let ghost prefix = col_seq.subrange(0, u as int + 1);
            proof {
                assert(prefix.drop_last() =~= col_seq.subrange(0, u as int));
                lemma_rows_of_len(prefix);
                lemma_rows_of_len(prefix.drop_last());
                assert(rows_of(prefix).drop_last() =~= rows_of(prefix.drop_last()));
            }
            if u == 0 || stickers[u - 1].column != column {
                row = 0;
            } else {
                row = row + 1;
            }
            stickers.push(IdentifiedSticker { area: sorted[i], column, row });
            proof {
                assert forall|k: int| 0 <= k < u + 1 implies (#[trigger] stickers@[k]).area
                    == sorted@[o2[k]] && stickers@[k].column == cv[o2[k]] && stickers@[k].row
                    == rows_of(prefix)[k] by {
                    if k < u {
                        assert(rows_of(prefix)[k] == rows_of(prefix.drop_last())[k]);
                    }
                }
            }
            u = u + 1;
        }
        proof {
            assert(col_seq.subrange(0, n as int) =~= col_seq);
            assert(layout_with(areas@, width as int, o1, o2, stickers@));
        }
        IdentifiedStickers { stickers }
    }

    /// Finds the opaque components of `img` and lays them out as a grid.
    pub fn new(img: &Image) -> (r: IdentifiedStickers)
        requires
            img.wf(),
        ensures
            is_layout(component_areas(*img), img.width as int, r.stickers@),
    {
        let comps = opaque_components(img);
        let mut areas: Vec<Area> = Vec::new();
        let mut i: usize = 0;
        while i < comps.len()
            invariant
                img.wf(),
                comps.len() == component_count(*img),
                forall|u: int|
                    0 <= u < comps.len() ==> (#[trigger] comps@[u])@.no_duplicates()
                        && comps@[u]@.to_set() == component(*img, u),
                i <= comps.len(),
                areas.len() == i,
                forall|k: int|
                    0 <= k < i ==> #[trigger] areas@[k] == bounding_area_of(component(*img, k)),
                forall|k: int| 0 <= k < i ==> (#[trigger] areas@[k]).wf(),
            decreases comps.len() - i,
        {
            proof {
                assert forall|t: int| 0 <= t < comps@[i as int].len() implies (#[trigger] comps@[i as int]@[t]).x
                    < u32::MAX && comps@[i as int]@[t].y < u32::MAX by {
                    assert(comps@[i as int]@.to_set().contains(comps@[i as int]@[t]));
                    lemma_reach_admits(
                        opaque_mask(img.pixels@),
                        img.width as int,
                        img.height as int,
                        component_seed(*img, i as int),
                        comps@[i as int]@[t],
                    );
                }
                let seed = component_seed(*img, i as int);
                lemma_component_seed(*img, i as int);
                lemma_reach_self(
                    opaque_mask(img.pixels@),
                    img.width as int,
                    img.height as int,
                    seed,
                );
                assert(comps@[i as int]@.to_set().contains(seed));
            }
            let a = Area::new_from_pixels(&comps[i]).unwrap();
            proof {
                let s = component(*img, i as int);
                lemma_bounding_area_unique(a, bounding_area_of(s), s);
            }
            areas.push(a);
            i = i + 1;
        }
        assert(areas@ =~= component_areas(*img));
        IdentifiedStickers::from_areas(&areas, img.width)
    }

    pub fn stickers(&self) -> (s: &[IdentifiedSticker])
        ensures
            s@ == self.stickers@,
    {
        self.stickers.as_slice()
    }
}

} // verus!
