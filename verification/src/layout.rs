//! Squarified treemap layout: turns a size-annotated tree into a flat list
//! of nested, axis-aligned rectangles with near-square aspect ratios.

use vstd::prelude::*;

use crate::folder::FolderNode;
use crate::folder::children_size_sum;
use crate::folder::lemma_child_height;
use crate::folder::lemma_size_sum_bounds;
use crate::folder::pos_size_sum;
use crate::folder::tree_height;
use crate::folder::wf_node;

verus! {

/// Number of color classes in the fixed palette; rectangles cycle through
/// them by depth.
pub const COLOR_CLASS_COUNT: u32 = 6;

/// One positioned rectangle of the treemap, a view of exactly one
/// `FolderNode`. The rectangle covers the half-open pixel region
/// `[x, x + width) x [y, y + height)`.
pub struct TreemapRect {
    pub x: i32,
    pub y: i32,
    pub width: i32,
    pub height: i32,
    pub name: String,
    pub path: String,
    pub size: u64,
    pub depth: u32,
    pub color_class: u32,
}

/// A rectangular region still to be subdivided, together with the total
/// byte size that the region stands for.
#[derive(Clone, Copy, PartialEq, Eq, Structural)]
pub struct TreemapArea {
    pub x: i32,
    pub y: i32,
    pub width: i32,
    pub height: i32,
    pub size: u64,
}

/// The color class for a rectangle at the given depth: the palette is
/// keyed by depth modulo the palette length.
pub fn color_class_for_depth(depth: u32) -> (r: u32)
    ensures
        r == depth % COLOR_CLASS_COUNT,
{
    depth % COLOR_CLASS_COUNT
}

/// Aspect ratios are compared in fixed-point form, scaled by this factor.
pub const RATIO_SCALE: u128 = 1000;

/// The ratio score of a degenerate row (one with no usable extent); worse
/// than every finite score, so such a row never looks better than a real one.
pub const RATIO_INFINITE: u128 = 0xffff_ffff_ffff_ffff_ffff_ffff_ffff_ffff;

/// The sum of `sizes[start..end]`.
pub open spec fn sum_range(sizes: Seq<u64>, start: int, end: int) -> int
    decreases end - start,
{
    if start >= end {
        0
    } else {
        sum_range(sizes, start, end - 1) + sizes[end - 1]
    }
}

/// The least element of `sizes[start..end]` (for a nonempty range).
pub open spec fn min_range(sizes: Seq<u64>, start: int, end: int) -> int
    decreases end - start,
{
    if end - start <= 1 {
        sizes[start] as int
    } else {
        let prev = min_range(sizes, start, end - 1);
        if sizes[end - 1] < prev {
            sizes[end - 1] as int
        } else {
            prev
        }
    }
}

/// The greatest element of `sizes[start..end]` (for a nonempty range).
pub open spec fn max_range(sizes: Seq<u64>, start: int, end: int) -> int
    decreases end - start,
{
    if end - start <= 1 {
        sizes[start] as int
    } else {
        let prev = max_range(sizes, start, end - 1);
        if sizes[end - 1] > prev {
            sizes[end - 1] as int
        } else {
            prev
        }
    }
}

/// Whether rows are laid across the width of the area (when the area is at
/// least as wide as tall) or down its height.
pub open spec fn is_horizontal(a: TreemapArea) -> bool {
    a.width >= a.height
}

/// The pixel area assigned to a row holding `row_sum` bytes out of `total`
/// not-yet-placed bytes in an area of `w` by `h` pixels, with proportional
/// shares truncated to whole pixels.
pub open spec fn row_pixel_area(w: int, h: int, row_sum: int, total: int) -> int {
    w * h * row_sum / total
}

/// The thickness in pixels of such a row along the split axis: its pixel
/// area divided by the area's shorter side (zero when that side is zero).
pub open spec fn row_thickness(w: int, h: int, row_sum: int, total: int) -> int {
    let side = if w >= h {
        h
    } else {
        w
    };
    if side > 0 {
        row_pixel_area(w, h, row_sum, total) / side
    } else {
        0
    }
}

/// The worst aspect-ratio score of a candidate row, scaled by
/// `RATIO_SCALE` and truncated: the row's thickness is set by its share of
/// the remaining area, each member's extent along the free axis by its
/// share of the row, and the score is the worse of the flattest member's
/// two side ratios. Lower is better; degenerate rows score
/// `RATIO_INFINITE`.
pub open spec fn worst_ratio_spec(
    row_sum: int,
    min_size: int,
    max_size: int,
    w: int,
    h: int,
    total: int,
) -> int {
    let area_total = w * h;
    let thickness = row_thickness(w, h, row_sum, total);
    if thickness <= 0 {
        RATIO_INFINITE as int
    } else {
        let min_pixel = area_total * min_size / total;
        let max_pixel = area_total * max_size / total;
        let min_opposite = min_pixel / thickness;
        let max_opposite = max_pixel / thickness;
        let flat = max_opposite * RATIO_SCALE / thickness;
        if min_opposite <= 0 {
            RATIO_INFINITE as int
        } else {
            let tall = thickness * RATIO_SCALE / min_opposite;
            if tall >= flat {
                tall
            } else {
                flat
            }
        }
    }
}

/// Helper bounds for the fixed-point ratio arithmetic: products of the
/// quantities involved stay within 128 bits.
proof fn lemma_ratio_products_fit(w: int, h: int, row_sum: int, min_size: int, max_size: int, total: int)
    requires
        0 <= w <= i32::MAX,
        0 <= h <= i32::MAX,
        0 < total <= u64::MAX,
        0 <= row_sum <= total,
        0 <= min_size <= total,
        0 <= max_size <= total,
    ensures
        0 <= w * h <= 0x4000_0000_0000_0000,
        0 <= w * h * row_sum <= u128::MAX,
        0 <= w * h * min_size <= u128::MAX,
        0 <= w * h * max_size <= u128::MAX,
{
    assert(0 <= w * h <= 0x4000_0000_0000_0000) by (nonlinear_arith)
        requires
            0 <= w <= 0x8000_0000,
            0 <= h <= 0x8000_0000,
    ;
    assert(w * h * row_sum <= 0x4000_0000_0000_0000 * total && 0 <= w * h * row_sum) by (nonlinear_arith)
        requires
            0 <= w * h <= 0x4000_0000_0000_0000,
            0 <= row_sum <= total,
    ;
    assert(w * h * min_size <= 0x4000_0000_0000_0000 * total && 0 <= w * h * min_size) by (nonlinear_arith)
        requires
            0 <= w * h <= 0x4000_0000_0000_0000,
            0 <= min_size <= total,
    ;
    assert(w * h * max_size <= 0x4000_0000_0000_0000 * total && 0 <= w * h * max_size) by (nonlinear_arith)
        requires
            0 <= w * h <= 0x4000_0000_0000_0000,
            0 <= max_size <= total,
    ;
    assert(0x4000_0000_0000_0000 * total <= u128::MAX) by (nonlinear_arith)
        requires
            0 < total <= u64::MAX,
    ;
}

/// A truncated proportional share `at * s / t` with `s <= t` never exceeds
/// the whole quantity `at`.
proof fn lemma_scaled_share_bound(at: int, s: int, t: int)
    requires
        0 <= at,
        0 < t,
        0 <= s <= t,
    ensures
        0 <= at * s / t <= at,
{
    assert(at * s <= at * t && 0 <= at * s) by (nonlinear_arith)
        requires
            0 <= at,
            0 <= s <= t,
    ;
    lemma_div_bound(at * s, at * t, t);
    assert(at * t / t == at) by (nonlinear_arith)
        requires
            0 < t,
    ;
}

/// Division by a positive divisor keeps order and bounds.
proof fn lemma_div_bound(a: int, b: int, d: int)
    requires
        0 <= a <= b,
        0 < d,
    ensures
        0 <= a / d <= b / d,
{
    assert(0 <= a / d && a / d <= b / d) by (nonlinear_arith)
        requires
            0 <= a <= b,
            0 < d,
    ;
}

/// The worst aspect-ratio score of a candidate row, in fixed-point form.
pub fn calculate_worst_ratio(
    row_sum: u64,
    min_size: u64,
    max_size: u64,
    area: TreemapArea,
    total_size: u64,
) -> (r: u128)
    requires
        0 <= area.width,
        0 <= area.height,
        0 < total_size,
        row_sum <= total_size,
        min_size <= total_size,
        max_size <= total_size,
    ensures
        r == worst_ratio_spec(
            row_sum as int,
            min_size as int,
            max_size as int,
            area.width as int,
            area.height as int,
            total_size as int,
        ),
{
    let w = area.width as u128;
    let h = area.height as u128;
    proof {
        lemma_ratio_products_fit(
            area.width as int,
            area.height as int,
            row_sum as int,
            min_size as int,
            max_size as int,
            total_size as int,
        );
    }
    let area_total = w * h;
    let side = if w >= h {
        h
    } else {
        w
    };
    let row_pixel = area_total * (row_sum as u128) / (total_size as u128);
    let thickness = if side > 0 {
        proof {
            lemma_scaled_share_bound(
                area.width as int * area.height as int,
                row_sum as int,
                total_size as int,
            );
            lemma_div_bound(
                row_pixel as int,
                area.width as int * area.height as int,
                side as int,
            );
        }
        row_pixel / side
    } else {
        0
    };
    if thickness == 0 {
        return RATIO_INFINITE;
    }
    let min_pixel = area_total * (min_size as u128) / (total_size as u128);
    let max_pixel = area_total * (max_size as u128) / (total_size as u128);
    let min_opposite = min_pixel / thickness;
    let max_opposite = max_pixel / thickness;
    proof {
        lemma_scaled_share_bound(
            area.width as int * area.height as int,
            max_size as int,
            total_size as int,
        );
        lemma_div_bound(max_pixel as int, area.width as int * area.height as int, thickness as int);
        assert(0x4000_0000_0000_0000 * RATIO_SCALE <= u128::MAX);
    }
    let flat = max_opposite * (RATIO_SCALE as u128) / thickness;
    if min_opposite == 0 {
        return RATIO_INFINITE;
    }
    proof {
        lemma_scaled_share_bound(
            area.width as int * area.height as int,
            row_sum as int,
            total_size as int,
        );
        lemma_div_bound(
            row_pixel as int,
            area.width as int * area.height as int,
            side as int,
        );
        assert(thickness as int * RATIO_SCALE <= 0x4000_0000_0000_0000 * RATIO_SCALE) by (nonlinear_arith)
            requires
                0 <= thickness as int <= 0x4000_0000_0000_0000,
        ;
    }
    let tall = thickness * (RATIO_SCALE as u128) / min_opposite;
    if tall >= flat {
        tall
    } else {
        flat
    }
}

/// Every sum over a range of byte counts is nonnegative.
pub proof fn lemma_sum_range_nonneg(sizes: Seq<u64>, start: int, end: int)
    requires
        0 <= start,
        end <= sizes.len(),
    ensures
        0 <= sum_range(sizes, start, end),
    decreases end - start,
{
    if start < end {
        lemma_sum_range_nonneg(sizes, start, end - 1);
    }
}

/// Extending a range of byte counts cannot shrink its sum.
pub proof fn lemma_sum_range_mono(sizes: Seq<u64>, start: int, mid: int, end: int)
    requires
        0 <= start <= mid <= end <= sizes.len(),
    ensures
        sum_range(sizes, start, mid) <= sum_range(sizes, start, end),
    decreases end - mid,
{
    if mid < end {
        lemma_sum_range_mono(sizes, start, mid, end - 1);
    }
}

/// Over a nonempty range of byte counts, the least element is nonnegative
/// and the greatest element is at most the sum.
pub proof fn lemma_range_bounds(sizes: Seq<u64>, start: int, end: int)
    requires
        0 <= start < end <= sizes.len(),
    ensures
        0 <= min_range(sizes, start, end),
        min_range(sizes, start, end) <= max_range(sizes, start, end),
        max_range(sizes, start, end) <= sum_range(sizes, start, end),
    decreases end - start,
{
    lemma_sum_range_nonneg(sizes, start, end - 1);
    if end - start > 1 {
        lemma_range_bounds(sizes, start, end - 1);
    }
}

/// The ratio score of the row `sizes[start..start + count]` in the given
/// remaining area, when `total` bytes remain to be placed there.
pub open spec fn row_worst(
    sizes: Seq<u64>,
    start: int,
    count: int,
    area: TreemapArea,
    total: int,
) -> int {
    worst_ratio_spec(
        sum_range(sizes, start, start + count),
        min_range(sizes, start, start + count),
        max_range(sizes, start, start + count),
        area.width as int,
        area.height as int,
        total,
    )
}

/// The greedy row-building rule, continued from a candidate row of
/// `count - 1` members whose score is `best_ratio`: the row keeps growing
/// while each added member strictly improves the score, and stops at the
/// first member that does not.
pub open spec fn best_row_rec(
    sizes: Seq<u64>,
    start: int,
    area: TreemapArea,
    total: int,
    count: int,
    best_ratio: int,
    best_count: int,
) -> int
    decreases sizes.len() - start - count + 1,
{
    if count < 1 || count > sizes.len() - start {
        best_count
    } else {
        let r = row_worst(sizes, start, count, area, total);
        if r < best_ratio {
            best_row_rec(sizes, start, area, total, count + 1, r, count)
        } else {
            best_count
        }
    }
}

/// The number of members the greedy rule selects for the next row out of
/// `sizes[start..]`.
pub open spec fn best_row_spec(sizes: Seq<u64>, start: int, area: TreemapArea, total: int) -> int {
    best_row_rec(sizes, start, area, total, 2, row_worst(sizes, start, 1, area, total), 1)
}

/// Selects the longest prefix of the remaining sizes whose worst aspect
/// ratio strictly improves with each added member.
pub fn find_best_row(sizes: &Vec<u64>, start: usize, area: TreemapArea, total_size: u64) -> (count:
    usize)
    requires
        start < sizes@.len(),
        total_size == sum_range(sizes@, start as int, sizes@.len() as int),
        total_size > 0,
        area.width >= 0,
        area.height >= 0,
    ensures
        1 <= count <= sizes@.len() - start,
        count == best_row_spec(sizes@, start as int, area, total_size as int),
{
    let n = sizes.len();
    proof {
        assert(sum_range(sizes@, start as int, start as int) == 0);
        lemma_range_bounds(sizes@, start as int, start as int + 1);
        lemma_sum_range_mono(sizes@, start as int, start as int + 1, n as int);
    }
    let first = sizes[start];
    let mut row_sum: u64 = first;
    let mut mn: u64 = first;
    let mut mx: u64 = first;
    let mut best = calculate_worst_ratio(row_sum, mn, mx, area, total_size);
    let mut best_count: usize = 1;
    while best_count < n - start
        invariant
            sizes@.len() == n,
            start < n,
            total_size == sum_range(sizes@, start as int, n as int),
            total_size > 0,
            area.width >= 0,
            area.height >= 0,
            1 <= best_count <= n - start,
            row_sum == sum_range(sizes@, start as int, start as int + best_count),
            mn == min_range(sizes@, start as int, start as int + best_count),
            mx == max_range(sizes@, start as int, start as int + best_count),
            best == row_worst(sizes@, start as int, best_count as int, area, total_size as int),
            best_row_spec(sizes@, start as int, area, total_size as int) == best_row_rec(
                sizes@,
                start as int,
                area,
                total_size as int,
                best_count + 1,
                best as int,
                best_count as int,
            ),
        decreases n - start - best_count,
    {
        let cand = best_count + 1;
        let v = sizes[start + cand - 1];
        proof {
            lemma_sum_range_mono(sizes@, start as int, start as int + cand, n as int);
            lemma_sum_range_nonneg(sizes@, start as int, start as int + cand - 1);
        }
        row_sum = row_sum + v;
        if v < mn {
            mn = v;
        }
        if v > mx {
            mx = v;
        }
        proof {
            lemma_range_bounds(sizes@, start as int, start as int + cand);
        }
        let r = calculate_worst_ratio(row_sum, mn, mx, area, total_size);
        if r < best {
            best = r;
            best_count = cand;
        } else {
            return best_count;
        }
    }
    best_count
}

/// Whether `inner` lies entirely within `outer`, judged on all four edges.
pub open spec fn area_within(inner: TreemapArea, outer: TreemapArea) -> bool {
    &&& outer.x <= inner.x
    &&& outer.y <= inner.y
    &&& inner.x + inner.width <= outer.x + outer.width
    &&& inner.y + inner.height <= outer.y + outer.height
}

/// Whether two areas are separated by an axis-aligned gap (and so share no
/// pixel).
pub open spec fn areas_separated(a: TreemapArea, b: TreemapArea) -> bool {
    ||| a.x + a.width <= b.x
    ||| b.x + b.width <= a.x
    ||| a.y + a.height <= b.y
    ||| b.y + b.height <= a.y
}

/// A well-formed drawing region: nonnegative position and extents, staying
/// within the pixel coordinate space.
pub open spec fn area_wf(a: TreemapArea) -> bool {
    &&& 0 <= a.x
    &&& 0 <= a.y
    &&& 0 <= a.width
    &&& 0 <= a.height
    &&& a.x + a.width <= i32::MAX
    &&& a.y + a.height <= i32::MAX
}

/// The sum of the pixel areas of a list of regions.
pub open spec fn sum_areas(s: Seq<TreemapArea>) -> int
    decreases s.len(),
{
    if s.len() == 0 {
        0
    } else {
        sum_areas(s.drop_last()) + s.last().width * s.last().height
    }
}

/// Every element of a range of byte counts is at most the sum of the range.
pub proof fn lemma_element_le_sum(sizes: Seq<u64>, start: int, i: int, end: int)
    requires
        0 <= start <= i < end <= sizes.len(),
    ensures
        sizes[i] <= sum_range(sizes, start, end),
{
    lemma_sum_range_nonneg(sizes, start, i);
    lemma_sum_range_mono(sizes, start, i + 1, end);
}

/// The extent along the row's free axis of the row member at position `k`
/// (counted from `start`): its proportional share of the axis, truncated,
/// and capped by the part of the axis the previous members left.
pub open spec fn row_extent(sizes: Seq<u64>, start: int, k: int, axis: int, row_sum: int) -> int
    decreases k, 2int,
{
    let o = row_offset(sizes, start, k, axis, row_sum);
    let raw = axis * sizes[start + k] / row_sum;
    if raw <= axis - o {
        raw
    } else {
        axis - o
    }
}

/// The offset along the row's free axis where member `k` starts: the
/// stacked extents of the members before it.
pub open spec fn row_offset(sizes: Seq<u64>, start: int, k: int, axis: int, row_sum: int) -> int
    decreases k, 1int,
{
    if k <= 0 {
        0
    } else {
        row_offset(sizes, start, k - 1, axis, row_sum) + row_extent(
            sizes,
            start,
            k - 1,
            axis,
            row_sum,
        )
    }
}

/// Row offsets stay within the axis, extents are nonnegative, and offsets
/// grow monotonically.
pub proof fn lemma_row_offset_bounds(sizes: Seq<u64>, start: int, k: int, axis: int, row_sum: int)
    requires
        0 <= k,
        0 <= axis,
        0 < row_sum,
        0 <= start,
        start + k <= sizes.len(),
    ensures
        0 <= row_offset(sizes, start, k, axis, row_sum) <= axis,
        k > 0 ==> row_offset(sizes, start, k - 1, axis, row_sum) <= row_offset(
            sizes,
            start,
            k,
            axis,
            row_sum,
        ),
        k > 0 ==> 0 <= row_extent(sizes, start, k - 1, axis, row_sum),
    decreases k,
{
    if k > 0 {
        lemma_row_offset_bounds(sizes, start, k - 1, axis, row_sum);
        assert(0 <= axis * sizes[start + k - 1]) by (nonlinear_arith)
            requires
                0 <= axis,
                0 <= sizes[start + k - 1],
        ;
        lemma_div_bound(0, axis * sizes[start + k - 1], row_sum);
        let o = row_offset(sizes, start, k - 1, axis, row_sum);
        let raw = axis * sizes[start + k - 1] / row_sum;
        assert(row_extent(sizes, start, k - 1, axis, row_sum) == if raw <= axis - o {
            raw
        } else {
            axis - o
        });
        assert(row_offset(sizes, start, k, axis, row_sum) == o + row_extent(
            sizes,
            start,
            k - 1,
            axis,
            row_sum,
        ));
    }
}

/// The area assigned to the member at position `k` of the row
/// `sizes[start..end]`, laid out in `area` while `total` bytes remain
/// there: the row is a band of the computed thickness along the area's
/// longer axis, and the members stack along the band with their
/// proportional extents.
pub open spec fn row_area_at(
    sizes: Seq<u64>,
    start: int,
    end: int,
    k: int,
    area: TreemapArea,
    total: int,
) -> TreemapArea {
    let row_sum = sum_range(sizes, start, end);
    let thick = row_thickness(area.width as int, area.height as int, row_sum, total);
    if is_horizontal(area) {
        TreemapArea {
            x: area.x,
            y: (area.y + row_offset(sizes, start, k, area.height as int, row_sum)) as i32,
            width: thick as i32,
            height: row_extent(sizes, start, k, area.height as int, row_sum) as i32,
            size: sizes[start + k],
        }
    } else {
        TreemapArea {
            x: (area.x + row_offset(sizes, start, k, area.width as int, row_sum)) as i32,
            y: area.y,
            width: row_extent(sizes, start, k, area.width as int, row_sum) as i32,
            height: thick as i32,
            size: sizes[start + k],
        }
    }
}

/// The band of `area` that the row `sizes[start..end]` occupies: the first
/// `thickness` pixels along the split axis.
pub open spec fn row_band(
    sizes: Seq<u64>,
    start: int,
    end: int,
    area: TreemapArea,
    total: int,
) -> TreemapArea {
    let row_sum = sum_range(sizes, start, end);
    let thick = row_thickness(area.width as int, area.height as int, row_sum, total);
    if is_horizontal(area) {
        TreemapArea {
            x: area.x,
            y: area.y,
            width: thick as i32,
            height: area.height,
            size: area.size,
        }
    } else {
        TreemapArea {
            x: area.x,
            y: area.y,
            width: area.width,
            height: thick as i32,
            size: area.size,
        }
    }
}

/// Offsets never move backwards as the row index grows.
pub proof fn lemma_row_offset_mono(
    sizes: Seq<u64>,
    start: int,
    j: int,
    k: int,
    axis: int,
    row_sum: int,
)
    requires
        0 <= j <= k,
        0 <= axis,
        0 < row_sum,
        0 <= start,
        start + k <= sizes.len(),
    ensures
        row_offset(sizes, start, j, axis, row_sum) <= row_offset(sizes, start, k, axis, row_sum),
    decreases k - j,
{
    if j < k {
        lemma_row_offset_mono(sizes, start, j, k - 1, axis, row_sum);
        lemma_row_offset_bounds(sizes, start, k, axis, row_sum);
    }
}

/// The row thickness stays between zero and the extent of the area along
/// the split axis.
pub proof fn lemma_row_thickness_bounds(w: int, h: int, row_sum: int, total: int)
    requires
        0 <= w <= i32::MAX,
        0 <= h <= i32::MAX,
        0 < total <= u64::MAX,
        0 <= row_sum <= total,
    ensures
        0 <= row_thickness(w, h, row_sum, total),
        w >= h ==> row_thickness(w, h, row_sum, total) <= w,
        w < h ==> row_thickness(w, h, row_sum, total) <= h,
{
    let side = if w >= h {
        h
    } else {
        w
    };
    if side > 0 {
        lemma_ratio_products_fit(w, h, row_sum, 0, 0, total);
        lemma_scaled_share_bound(w * h, row_sum, total);
        lemma_div_bound(w * h * row_sum / total, w * h, side);
        if w >= h {
            assert(w * h / h == w) by (nonlinear_arith)
                requires
                    h > 0,
            ;
        } else {
            assert(w * h / w == h) by (nonlinear_arith)
                requires
                    w > 0,
            ;
        }
    }
}

/// The row thickness in pixels, computed with 128-bit intermediates; it
/// never exceeds the extent of the area along the split axis.
fn row_thickness_px(area: TreemapArea, row_sum: u64, total_size: u64) -> (t: i32)
    requires
        area_wf(area),
        0 < total_size,
        row_sum <= total_size,
    ensures
        t == row_thickness(area.width as int, area.height as int, row_sum as int, total_size as int),
        0 <= t,
        is_horizontal(area) ==> t <= area.width,
        !is_horizontal(area) ==> t <= area.height,
{
    let w = area.width as u128;
    let h = area.height as u128;
    let side = if w >= h {
        h
    } else {
        w
    };
    if side == 0 {
        return 0;
    }
    proof {
        lemma_ratio_products_fit(
            area.width as int,
            area.height as int,
            row_sum as int,
            0,
            0,
            total_size as int,
        );
        lemma_scaled_share_bound(
            area.width as int * area.height as int,
            row_sum as int,
            total_size as int,
        );
    }
    let row_pixel = w * h * (row_sum as u128) / (total_size as u128);
    let thick = row_pixel / side;
    proof {
        lemma_div_bound(row_pixel as int, area.width as int * area.height as int, side as int);
        if area.width >= area.height {
            assert(area.width as int * area.height as int / area.height as int == area.width as int)
                by (nonlinear_arith)
                requires
                    area.height as int > 0,
            ;
        } else {
            assert(area.width as int * area.height as int / area.width as int == area.height as int)
                by (nonlinear_arith)
                requires
                    area.width as int > 0,
            ;
        }
    }
    thick as i32
}

/// Lays one row of sizes into the given remaining area: the row fills a
/// band of the computed thickness along the shorter dimension, and each
/// member's extent along the band is its truncated proportional share of
/// the row, capped by the space the previous members left. Every member
/// receives an area (a degenerate one may have extent zero); members never
/// overlap and never leave the band.
pub fn layout_row(
    sizes: &Vec<u64>,
    start: usize,
    end: usize,
    area: TreemapArea,
    total_size: u64,
) -> (r: Vec<TreemapArea>)
    requires
        start < end <= sizes@.len(),
        forall|i: int| start <= i < end ==> sizes@[i] > 0,
        area_wf(area),
        sum_range(sizes@, start as int, end as int) <= total_size,
        0 < total_size,
    ensures
        r@.len() == end - start,
        forall|k: int|
            0 <= k < r@.len() ==> r@[k] == row_area_at(
                sizes@,
                start as int,
                end as int,
                k,
                area,
                total_size as int,
            ),
        forall|k: int|
            0 <= k < r@.len() ==> area_within(
                r@[k],
                row_band(sizes@, start as int, end as int, area, total_size as int),
            ),
        forall|a: int, b: int| 0 <= a < b < r@.len() ==> areas_separated(r@[a], r@[b]),
        forall|k: int| 0 <= k < r@.len() ==> area_wf(#[trigger] r@[k]),
        sum_areas(r@) <= row_band(sizes@, start as int, end as int, area, total_size as int).width
            * row_band(sizes@, start as int, end as int, area, total_size as int).height,
        area_within(row_band(sizes@, start as int, end as int, area, total_size as int), area),
{
    let ghost gstart = start as int;
    let ghost gend = end as int;
    let ghost gtotal = total_size as int;
    let mut row_sum: u64 = 0;
    let mut j: usize = start;
    while j < end
        invariant
            start <= j <= end <= sizes@.len(),
            sum_range(sizes@, gstart, gend) <= total_size,
            gstart == start,
            gend == end,
            row_sum == sum_range(sizes@, gstart, j as int),
        decreases end - j,
    {
        proof {
            lemma_sum_range_mono(sizes@, gstart, j + 1, gend);
        }
        row_sum = row_sum + sizes[j];
        j = j + 1;
    }
    proof {
        assert(sum_range(sizes@, gstart, gstart) == 0);
        assert(sum_range(sizes@, gstart, gstart + 1) == sizes@[gstart]);
        lemma_sum_range_mono(sizes@, gstart, gstart + 1, gend);
    }
    let thick = row_thickness_px(area, row_sum, total_size);
    let ghost grow_sum = row_sum as int;
    let ghost band = row_band(sizes@, gstart, gend, area, gtotal);
    proof {
        assert(band.width * band.height == if is_horizontal(area) {
            thick as int * area.height as int
        } else {
            area.width as int * thick as int
        });
    }
    let horizontal = area.width >= area.height;
    let axis = if horizontal {
        area.height
    } else {
        area.width
    };
    let ghost gaxis = axis as int;
    let mut r: Vec<TreemapArea> = Vec::new();
    let mut off: i32 = 0;
    let mut k: usize = 0;
    let count = end - start;
    while k < count
        invariant
            start < end <= sizes@.len(),
            count == end - start,
            forall|i: int| gstart <= i < gend ==> sizes@[i] > 0,
            area_wf(area),
            gstart == start,
            gend == end,
            gtotal == total_size,
            grow_sum == row_sum,
            0 < row_sum <= total_size,
            row_sum == sum_range(sizes@, gstart, gend),
            horizontal == is_horizontal(area),
            gaxis == axis,
            axis == if horizontal {
                area.height
            } else {
                area.width
            },
            thick == row_thickness(area.width as int, area.height as int, grow_sum, gtotal),
            0 <= thick,
            horizontal ==> thick <= area.width,
            !horizontal ==> thick <= area.height,
            0 <= k <= count,
            r@.len() == k,
            off == row_offset(sizes@, gstart, k as int, gaxis, grow_sum),
            0 <= off <= axis,
            sum_areas(r@) == thick as int * off,
            forall|q: int|
                0 <= q < k ==> r@[q] == row_area_at(sizes@, gstart, gend, q, area, gtotal),
        decreases count - k,
    {
        proof {
            lemma_element_le_sum(sizes@, gstart, gstart + k, gend);
            lemma_ratio_products_fit(
                gaxis,
                1,
                sizes@[gstart + k] as int,
                0,
                0,
                grow_sum,
            );
            lemma_scaled_share_bound(gaxis, sizes@[gstart + k] as int, grow_sum);
            assert(gaxis * 1 == gaxis) by (nonlinear_arith);
        }
        let raw128 = (axis as u128) * (sizes[start + k] as u128) / (row_sum as u128);
        let raw = raw128 as i32;
        let ext = if raw <= axis - off {
            raw
        } else {
            axis - off
        };
        proof {
            lemma_row_offset_bounds(sizes@, gstart, k + 1, gaxis, grow_sum);
            assert(ext == row_extent(sizes@, gstart, k as int, gaxis, grow_sum));
        }
        let ghost prev = r@;
        if horizontal {
            r.push(
                TreemapArea {
                    x: area.x,
                    y: area.y + off,
                    width: thick,
                    height: ext,
                    size: sizes[start + k],
                },
            );
        } else {
            r.push(
                TreemapArea {
                    x: area.x + off,
                    y: area.y,
                    width: ext,
                    height: thick,
                    size: sizes[start + k],
                },
            );
        }
        proof {
            assert(r@.drop_last() =~= prev);
            assert(sum_areas(r@) == thick as int * (off + ext)) by (nonlinear_arith)
                requires
                    sum_areas(r@) == sum_areas(r@.drop_last()) + r@.last().width
                        * r@.last().height,
                    sum_areas(r@.drop_last()) == thick as int * off,
                    r@.last().width * r@.last().height == if horizontal {
                        thick as int * ext
                    } else {
                        ext as int * thick
                    },
            ;
        }
        off = off + ext;
        k = k + 1;
    }
    proof {
        assert(sum_areas(r@) <= band.width * band.height) by (nonlinear_arith)
            requires
                sum_areas(r@) == thick as int * off,
                0 <= thick,
                off <= gaxis,
                band.width * band.height == if horizontal {
                    thick as int * gaxis
                } else {
                    gaxis * thick as int
                },
                horizontal ==> band.width * band.height == thick as int * gaxis,
        ;
        assert forall|q: int|
            0 <= q < r@.len() implies area_within(r@[q], band) && area_wf(#[trigger] r@[q]) by {
            lemma_row_offset_bounds(sizes@, gstart, q + 1, gaxis, grow_sum);
            lemma_row_offset_bounds(sizes@, gstart, q, gaxis, grow_sum);
        }
        assert forall|a: int, b: int|
            0 <= a < b < r@.len() implies areas_separated(r@[a], r@[b]) by {
            lemma_row_offset_bounds(sizes@, gstart, a + 1, gaxis, grow_sum);
            lemma_row_offset_bounds(sizes@, gstart, a, gaxis, grow_sum);
            lemma_row_offset_bounds(sizes@, gstart, b, gaxis, grow_sum);
            lemma_row_offset_mono(sizes@, gstart, a + 1, b, gaxis, grow_sum);
        }
    }
    r
}

/// What is left of an area after the row `sizes[start..end]` takes its
/// band: the area loses the band's thickness along the split axis, and the
/// row's bytes leave its pending size.
pub open spec fn remaining_area_spec(
    sizes: Seq<u64>,
    start: int,
    end: int,
    area: TreemapArea,
    total: int,
) -> TreemapArea {
    let row_sum = sum_range(sizes, start, end);
    let thick = row_thickness(area.width as int, area.height as int, row_sum, total);
    if is_horizontal(area) {
        TreemapArea {
            x: (area.x + thick) as i32,
            y: area.y,
            width: (area.width - thick) as i32,
            height: area.height,
            size: (area.size - row_sum) as u64,
        }
    } else {
        TreemapArea {
            x: area.x,
            y: (area.y + thick) as i32,
            width: area.width,
            height: (area.height - thick) as i32,
            size: (area.size - row_sum) as u64,
        }
    }
}

/// Shrinks an area by the band that the row `sizes[start..end]` occupies.
pub fn get_remaining_area(
    sizes: &Vec<u64>,
    start: usize,
    end: usize,
    area: TreemapArea,
    total_size: u64,
) -> (r: TreemapArea)
    requires
        start < end <= sizes@.len(),
        area_wf(area),
        sum_range(sizes@, start as int, end as int) <= total_size,
        sum_range(sizes@, start as int, end as int) <= area.size,
        0 < total_size,
    ensures
        r == remaining_area_spec(sizes@, start as int, end as int, area, total_size as int),
        area_wf(r),
        area_within(r, area),
        areas_separated(
            r,
            row_band(sizes@, start as int, end as int, area, total_size as int),
        ),
        r.size == area.size - sum_range(sizes@, start as int, end as int),
{
    let ghost gstart = start as int;
    let ghost gend = end as int;
    let mut row_sum: u64 = 0;
    let mut j: usize = start;
    while j < end
        invariant
            start <= j <= end <= sizes@.len(),
            sum_range(sizes@, gstart, gend) <= total_size,
            gstart == start,
            gend == end,
            row_sum == sum_range(sizes@, gstart, j as int),
        decreases end - j,
    {
        proof {
            lemma_sum_range_mono(sizes@, gstart, j + 1, gend);
        }
        row_sum = row_sum + sizes[j];
        j = j + 1;
    }
    let thick = row_thickness_px(area, row_sum, total_size);
    if area.width >= area.height {
        TreemapArea {
            x: area.x + thick,
            y: area.y,
            width: area.width - thick,
            height: area.height,
            size: area.size - row_sum,
        }
    } else {
        TreemapArea {
            x: area.x,
            y: area.y + thick,
            width: area.width,
            height: area.height - thick,
            size: area.size - row_sum,
        }
    }
}

/// The sum of the byte counts over a range splits at any midpoint.
pub proof fn lemma_sum_range_split(sizes: Seq<u64>, start: int, mid: int, end: int)
    requires
        0 <= start <= mid <= end <= sizes.len(),
    ensures
        sum_range(sizes, start, end) == sum_range(sizes, start, mid) + sum_range(sizes, mid, end),
    decreases end - mid,
{
    if mid < end {
        lemma_sum_range_split(sizes, start, mid, end - 1);
    }
}

/// Pixel-area sums distribute over concatenation.
pub proof fn lemma_sum_areas_add(s1: Seq<TreemapArea>, s2: Seq<TreemapArea>)
    ensures
        sum_areas(s1 + s2) == sum_areas(s1) + sum_areas(s2),
    decreases s2.len(),
{
    if s2.len() == 0 {
        assert(s1 + s2 =~= s1);
    } else {
        lemma_sum_areas_add(s1, s2.drop_last());
        assert((s1 + s2).drop_last() =~= s1 + s2.drop_last());
    }
}

/// An area separated from a region is separated from everything within the
/// region.
pub proof fn lemma_separated_within(a: TreemapArea, b: TreemapArea, c: TreemapArea)
    requires
        areas_separated(a, b),
        area_within(c, b),
    ensures
        areas_separated(a, c),
{
}

/// Containment of areas is transitive.
pub proof fn lemma_within_trans(a: TreemapArea, b: TreemapArea, c: TreemapArea)
    requires
        area_within(a, b),
        area_within(b, c),
    ensures
        area_within(a, c),
{
}

/// Sums over a range agree on sequences that agree on that range.
proof fn lemma_sum_range_agree(s1: Seq<u64>, s2: Seq<u64>, start: int, end: int)
    requires
        0 <= start,
        end <= s1.len(),
        end <= s2.len(),
        forall|k: int| start <= k < end ==> s1[k] == s2[k],
    ensures
        sum_range(s1, start, end) == sum_range(s2, start, end),
    decreases end - start,
{
    if start < end {
        lemma_sum_range_agree(s1, s2, start, end - 1);
    }
}

/// Inserting a byte count anywhere in a sequence adds it to the sum.
proof fn lemma_sum_range_insert(s: Seq<u64>, p: int, v: u64)
    requires
        0 <= p <= s.len(),
    ensures
        sum_range(s.insert(p, v), 0, s.len() as int + 1) == sum_range(s, 0, s.len() as int) + v,
    decreases s.len() - p,
{
    s.insert_ensures(p, v);
    if p == s.len() {
        lemma_sum_range_agree(s.insert(p, v), s, 0, s.len() as int);
    } else {
        let t = s.insert(p, v);
        assert(t.drop_last() =~= s.drop_last().insert(p, v)) by {
            s.drop_last().insert_ensures(p, v);
        }
        lemma_sum_range_insert(s.drop_last(), p, v);
        lemma_sum_range_agree(t, t.drop_last(), 0, s.len() as int);
        lemma_sum_range_agree(s, s.drop_last(), 0, s.len() - 1);
        assert(t[s.len() as int] == s[s.len() - 1]);
    }
}

/// The position where a size is inserted into a size-descending
/// sequence: the first index whose element is smaller (the length when
/// none is), so that equal sizes keep their order of arrival.
pub open spec fn insert_pos_sizes(sizes: Seq<u64>, v: u64) -> int
    decreases sizes.len(),
{
    if sizes.len() == 0 {
        0
    } else if sizes.first() < v {
        0
    } else {
        1 + insert_pos_sizes(sizes.drop_first(), v)
    }
}

/// The insertion position is in range, everything before it is at least
/// `v`, and the element there (when any) is smaller.
pub proof fn lemma_insert_pos_sizes(sizes: Seq<u64>, v: u64)
    ensures
        0 <= insert_pos_sizes(sizes, v) <= sizes.len(),
        forall|k: int| 0 <= k < insert_pos_sizes(sizes, v) ==> sizes[k] >= v,
        insert_pos_sizes(sizes, v) < sizes.len() ==> sizes[insert_pos_sizes(sizes, v)] < v,
    decreases sizes.len(),
{
    if sizes.len() > 0 && sizes.first() >= v {
        lemma_insert_pos_sizes(sizes.drop_first(), v);
        let p = insert_pos_sizes(sizes, v);
        assert forall|k: int| 0 <= k < p implies sizes[k] >= v by {
            if k > 0 {
                assert(sizes.drop_first()[k - 1] == sizes[k]);
            }
        }
        if p < sizes.len() {
            assert(sizes.drop_first()[insert_pos_sizes(sizes.drop_first(), v)] == sizes[p]);
        }
    }
}

/// The ordered sizes and child indices that sorting the first `j` children
/// produces: children of positive size, each inserted behind those of at
/// least its size.
pub open spec fn child_order_rec(s: Seq<FolderNode>, j: int) -> (Seq<u64>, Seq<usize>)
    decreases j,
{
    if j <= 0 {
        (Seq::empty(), Seq::empty())
    } else {
        let (sz, ord) = child_order_rec(s, j - 1);
        let v = s[j - 1].size;
        if v > 0 {
            let p = insert_pos_sizes(sz, v);
            (sz.insert(p, v), ord.insert(p, (j - 1) as usize))
        } else {
            (sz, ord)
        }
    }
}

/// The sizes of a node's children of positive size, largest first, equal
/// sizes in their original order.
pub open spec fn child_order_sizes(s: Seq<FolderNode>) -> Seq<u64> {
    child_order_rec(s, s.len() as int).0
}

/// The indices of a node's children of positive size, ordered as their
/// sizes are.
pub open spec fn child_order_indices(s: Seq<FolderNode>) -> Seq<usize> {
    child_order_rec(s, s.len() as int).1
}

/// Filters the children with positive size and orders them by size,
/// largest first, children of equal size keeping their original order.
/// Returns the ordered sizes, the matching child indices, and the total of
/// the ordered sizes.
#[verifier::rlimit(50)]
pub fn sorted_child_order(children: &Vec<FolderNode>) -> (res: (Vec<u64>, Vec<usize>, u64))
    requires
        children_size_sum(children@) <= u64::MAX,
    ensures
        res.0@ == child_order_sizes(children@),
        res.1@ == child_order_indices(children@),
        res.0@.len() == res.1@.len(),
        res.1@.len() <= children@.len(),
        forall|k: int|
            0 <= k < res.1@.len() ==> res.1@[k] < children@.len() && children@[
                res.1@[k] as int
            ].size > 0 && res.0@[k] == children@[res.1@[k] as int].size,
        forall|a: int, b: int|
            0 <= a < b < res.0@.len() ==> res.0@[a] > res.0@[b] || (res.0@[a] == res.0@[b]
                && res.1@[a] < res.1@[b]),
        forall|j: int|
            0 <= j < children@.len() && children@[j].size > 0 ==> res.1@.contains(j as usize),
        res.2 == sum_range(res.0@, 0, res.0@.len() as int),
        res.2 == pos_size_sum(children@, children@.len() as int),
{
    let n = children.len();
    let mut sorted_sizes: Vec<u64> = Vec::new();
    let mut order: Vec<usize> = Vec::new();
    let mut total: u64 = 0;
    let mut i: usize = 0;
    while i < n
        invariant
            n == children@.len(),
            children_size_sum(children@) <= u64::MAX,
            0 <= i <= n,
            sorted_sizes@ == child_order_rec(children@, i as int).0,
            order@ == child_order_rec(children@, i as int).1,
            sorted_sizes@.len() == order@.len(),
            order@.len() <= i,
            forall|k: int| 0 <= k < order@.len() ==> order@[k] < i,
            forall|k: int|
                0 <= k < order@.len() ==> children@[#[trigger] order@[k] as int].size > 0,
            forall|k: int|
                0 <= k < order@.len() ==> sorted_sizes@[k] == children@[order@[k] as int].size,
            forall|a: int, b: int|
                0 <= a < b < sorted_sizes@.len() ==> sorted_sizes@[a] > sorted_sizes@[b] || (
                sorted_sizes@[a] == sorted_sizes@[b] && order@[a] < order@[b]),
            forall|j: int|
                0 <= j < i && children@[j].size > 0 ==> order@.contains(j as usize),
            total == sum_range(sorted_sizes@, 0, sorted_sizes@.len() as int),
            total == pos_size_sum(children@, i as int),
        decreases n - i,
    {
        let sz = children[i].size;
        if sz > 0 {
            proof {
                lemma_size_sum_bounds(children@, i + 1 as int);
            }
            let mut p: usize = 0;
            while p < sorted_sizes.len() && sorted_sizes[p] >= sz
                invariant
                    0 <= p <= sorted_sizes@.len(),
                    forall|k: int| 0 <= k < p ==> sorted_sizes@[k] >= sz,
                decreases sorted_sizes@.len() - p,
            {
                p = p + 1;
            }
            let ghost old_sizes = sorted_sizes@;
            let ghost old_order = order@;
            sorted_sizes.insert(p, sz);
            order.insert(p, i);
            proof {
                lemma_insert_pos_sizes(old_sizes, sz);
                assert(p as int == insert_pos_sizes(old_sizes, sz)) by {
                    let q = insert_pos_sizes(old_sizes, sz);
                    if (p as int) < q {
                        assert(old_sizes[p as int] >= sz);
                    }
                    if q < p as int {
                        assert(old_sizes[q] >= sz);
                    }
                }
                old_sizes.insert_ensures(p as int, sz);
                old_order.insert_ensures(p as int, i);
                lemma_sum_range_insert(old_sizes, p as int, sz);
                assert forall|k: int|
                    0 <= k < order@.len() implies order@[k] < i + 1 && children@[
                    order@[k] as int
                ].size > 0 && sorted_sizes@[k] == children@[order@[k] as int].size by {
                    if k < p {
                        assert(order@[k] == old_order[k]);
                        assert(sorted_sizes@[k] == old_sizes[k]);
                    } else if k == p {
                        assert(order@[k] == i as usize);
                        assert(sorted_sizes@[k] == sz);
                    } else {
                        assert(order@[k] == old_order[k - 1]);
                        assert(sorted_sizes@[k] == old_sizes[k - 1]);
                    }
                }
                assert forall|a: int, b: int|
                    0 <= a < b < sorted_sizes@.len() implies sorted_sizes@[a] > sorted_sizes@[b]
                    || (sorted_sizes@[a] == sorted_sizes@[b] && order@[a] < order@[b]) by {
                    if a < p {
                        assert(sorted_sizes@[a] == old_sizes[a]);
                        assert(order@[a] == old_order[a]);
                    } else if a == p {
                        assert(sorted_sizes@[a] == sz);
                        assert(order@[a] == i as usize);
                    } else {
                        assert(sorted_sizes@[a] == old_sizes[a - 1]);
                        assert(order@[a] == old_order[a - 1]);
                    }
                    if b < p {
                        assert(sorted_sizes@[b] == old_sizes[b]);
                        assert(order@[b] == old_order[b]);
                    } else if b == p {
                        assert(sorted_sizes@[b] == sz);
                        assert(order@[b] == i as usize);
                    } else {
                        assert(sorted_sizes@[b] == old_sizes[b - 1]);
                        assert(order@[b] == old_order[b - 1]);
                    }
                }
                assert forall|j: int|
                    0 <= j < i + 1 && children@[j].size > 0 implies order@.contains(
                    j as usize,
                ) by {
                    if j == i {
                        assert(order@[p as int] == i as usize);
                    } else {
                        let w = choose|w: int|
                            0 <= w < old_order.len() && old_order[w] == j as usize;
                        if w < p {
                            assert(order@[w] == j as usize);
                        } else {
                            assert(order@[w + 1] == j as usize);
                        }
                    }
                }
            }
            total = total + sz;
        } else {
            proof {
                assert(pos_size_sum(children@, i + 1 as int) == pos_size_sum(
                    children@,
                    i as int,
                ));
            }
        }
        i = i + 1;
    }
    (sorted_sizes, order, total)
}

/// The areas the squarify rule assigns to `sizes[start..]` within the
/// remaining region `rem`: the greedy best row takes its band, and the
/// rest of the sizes partition what the band leaves.
pub open spec fn squarify_spec(sizes: Seq<u64>, start: int, rem: TreemapArea) -> Seq<TreemapArea>
    decreases sizes.len() - start,
{
    if start < 0 || start >= sizes.len() {
        Seq::empty()
    } else {
        let total = sum_range(sizes, start, sizes.len() as int);
        let cnt = best_row_spec(sizes, start, rem, total);
        if cnt < 1 || start + cnt > sizes.len() {
            Seq::empty()
        } else {
            let row = Seq::new(
                cnt as nat,
                |k: int| row_area_at(sizes, start, start + cnt, k, rem, total),
            );
            row + squarify_spec(
                sizes,
                start + cnt,
                remaining_area_spec(sizes, start, start + cnt, rem, total),
            )
        }
    }
}

/// Partitions an area among positive sizes with the squarify rule: every
/// size receives an area within the region, the areas never overlap, and
/// together they never exceed the region's pixel area.
pub fn squarify_layout(sizes: &Vec<u64>, area: TreemapArea) -> (r: Vec<TreemapArea>)
    requires
        forall|i: int| 0 <= i < sizes@.len() ==> sizes@[i] > 0,
        area_wf(area),
        area.size == sum_range(sizes@, 0, sizes@.len() as int),
    ensures
        r@ == squarify_spec(sizes@, 0, area),
        r@.len() == sizes@.len(),
        forall|k: int| 0 <= k < r@.len() ==> r@[k].size == sizes@[k],
        forall|k: int| 0 <= k < r@.len() ==> area_within(#[trigger] r@[k], area),
        forall|k: int| 0 <= k < r@.len() ==> area_wf(#[trigger] r@[k]),
        forall|a: int, b: int| 0 <= a < b < r@.len() ==> areas_separated(r@[a], r@[b]),
        sum_areas(r@) <= area.width * area.height,
{
    let n = sizes.len();
    let mut r: Vec<TreemapArea> = Vec::new();
    let mut rem = area;
    let mut start: usize = 0;
    proof {
        assert(r@ =~= Seq::<TreemapArea>::empty());
    }
    while start < n
        invariant
            n == sizes@.len(),
            forall|i: int| 0 <= i < n ==> sizes@[i] > 0,
            area_wf(area),
            0 <= start <= n,
            area_wf(rem),
            area_within(rem, area),
            rem.size == sum_range(sizes@, start as int, n as int),
            r@.len() == start,
            forall|k: int| 0 <= k < start ==> r@[k].size == sizes@[k],
            forall|k: int| 0 <= k < start ==> area_within(#[trigger] r@[k], area),
            forall|k: int| 0 <= k < start ==> area_wf(#[trigger] r@[k]),
            forall|a: int, b: int| 0 <= a < b < start ==> areas_separated(r@[a], r@[b]),
            forall|k: int| 0 <= k < start ==> areas_separated(#[trigger] r@[k], rem),
            sum_areas(r@) + rem.width * rem.height <= area.width * area.height,
            squarify_spec(sizes@, 0, area) == r@ + squarify_spec(sizes@, start as int, rem),
        decreases n - start,
    {
        let ghost gstart = start as int;
        proof {
            lemma_element_le_sum(sizes@, gstart, gstart, n as int);
        }
        let total = rem.size;
        let cnt = find_best_row(sizes, start, rem, total);
        let ghost row_sum = sum_range(sizes@, gstart, gstart + cnt);
        proof {
            lemma_sum_range_split(sizes@, gstart, gstart + cnt, n as int);
            lemma_sum_range_nonneg(sizes@, gstart + cnt, n as int);
            lemma_sum_range_nonneg(sizes@, gstart, gstart + cnt);
        }
        let mut row = layout_row(sizes, start, start + cnt, rem, total);
        let new_rem = get_remaining_area(sizes, start, start + cnt, rem, total);
        let ghost band = row_band(sizes@, gstart, gstart + cnt, rem, total as int);
        let ghost row_seq = row@;
        let ghost prev_r = r@;
        let ghost prev_rem = rem;
        proof {
            lemma_row_thickness_bounds(
                rem.width as int,
                rem.height as int,
                row_sum,
                total as int,
            );
            // The band and what it leaves tile the remaining region.
            assert(band.width * band.height + new_rem.width * new_rem.height == rem.width
                * rem.height) by (nonlinear_arith)
                requires
                    is_horizontal(rem) ==> band.width + new_rem.width == rem.width && band.height
                        == rem.height && new_rem.height == rem.height,
                    !is_horizontal(rem) ==> band.height + new_rem.height == rem.height
                        && band.width == rem.width && new_rem.width == rem.width,
            ;
            lemma_sum_areas_add(prev_r, row_seq);
        }
        r.append(&mut row);
        rem = new_rem;
        start = start + cnt;
        proof {
            assert(r@ =~= prev_r + row_seq);
            // Geometry of the new entries, relative to the whole area.
            assert forall|k: int|
                prev_r.len() <= k < r@.len() implies area_within(#[trigger] r@[k], area)
                && area_wf(r@[k]) && areas_separated(r@[k], rem) by {
                let q = k - prev_r.len();
                assert(r@[k] == row_seq[q]);
                lemma_within_trans(row_seq[q], band, prev_rem);
                lemma_within_trans(row_seq[q], prev_rem, area);
                lemma_separated_within(rem, band, row_seq[q]);
            }
            // Old entries stay separated from the shrunk remaining region.
            assert forall|k: int| 0 <= k < prev_r.len() implies areas_separated(
                #[trigger] r@[k],
                rem,
            ) by {
                assert(r@[k] == prev_r[k]);
                lemma_separated_within(prev_r[k], prev_rem, rem);
            }
            // All pairs stay separated.
            assert forall|a: int, b: int|
                0 <= a < b < r@.len() implies areas_separated(r@[a], r@[b]) by {
                if a < prev_r.len() && b >= prev_r.len() {
                    let q = b - prev_r.len();
                    lemma_within_trans(row_seq[q], band, prev_rem);
                    lemma_separated_within(prev_r[a], prev_rem, row_seq[q]);
                }
            }
            // The squarify recursion unfolds to exactly this row.
            assert(squarify_spec(sizes@, gstart, prev_rem) == row_seq + squarify_spec(
                sizes@,
                start as int,
                rem,
            )) by {
                let spec_row = Seq::new(
                    cnt as nat,
                    |k: int| row_area_at(sizes@, gstart, gstart + cnt, k, prev_rem, total as int),
                );
                assert(row_seq =~= spec_row);
            }
            assert(prev_r + (row_seq + squarify_spec(sizes@, start as int, rem)) =~= r@
                + squarify_spec(sizes@, start as int, rem));
        }
    }
    proof {
        assert(squarify_spec(sizes@, start as int, rem) =~= Seq::<TreemapArea>::empty());
        assert(r@ + Seq::<TreemapArea>::empty() =~= r@);
        assert(rem.width * rem.height >= 0) by (nonlinear_arith)
            requires
                rem.width >= 0,
                rem.height >= 0,
        ;
    }
    r
}


/// Padding in pixels between a rectangle and the rectangles of its
/// children.
pub const PADDING: i32 = 4;

/// Rectangles below this size (in either dimension) are not evaluated at
/// all: recursion stops before emitting one.
pub const MIN_EVAL_SIZE: i32 = 8;

/// Rectangles below this size (in either dimension) are emitted but not
/// subdivided further.
pub const MIN_SUBDIVIDE_SIZE: i32 = 20;

/// Whether the rectangle lies entirely within the region.
pub open spec fn rect_in_area(r: TreemapRect, a: TreemapArea) -> bool {
    &&& a.x <= r.x
    &&& a.y <= r.y
    &&& r.x + r.width <= a.x + a.width
    &&& r.y + r.height <= a.y + a.height
}

/// Whether two rectangles are separated by an axis-aligned gap (and so
/// share no pixel).
pub open spec fn rects_separated(a: TreemapRect, b: TreemapRect) -> bool {
    ||| a.x + a.width <= b.x
    ||| b.x + b.width <= a.x
    ||| a.y + a.height <= b.y
    ||| b.y + b.height <= a.y
}

/// Whether `inner` lies within `outer` with at least the fixed padding to
/// spare on every side.
pub open spec fn rect_in_padded(inner: TreemapRect, outer: TreemapRect) -> bool {
    &&& outer.x + PADDING <= inner.x
    &&& outer.y + PADDING <= inner.y
    &&& inner.x + inner.width <= outer.x + outer.width - PADDING
    &&& inner.y + inner.height <= outer.y + outer.height - PADDING
}

/// Whether `r` is the rectangle that the layout emits for node `n`
/// covering the region `a` at the given depth.
pub open spec fn is_node_rect(r: TreemapRect, n: FolderNode, a: TreemapArea, depth: u32) -> bool {
    &&& r.x == a.x
    &&& r.y == a.y
    &&& r.width == a.width
    &&& r.height == a.height
    &&& r.name@ == n.name@
    &&& r.path@ == n.path@
    &&& r.size == n.size
    &&& r.depth == depth
    &&& r.color_class == depth % COLOR_CLASS_COUNT
}

/// The region left for a node's children: the node's region shrunk by the
/// fixed padding on every side, carrying the children's total size.
pub open spec fn padded_area_spec(area: TreemapArea, children_total: u64) -> TreemapArea {
    TreemapArea {
        x: (area.x + PADDING) as i32,
        y: (area.y + PADDING) as i32,
        width: (area.width - 2 * PADDING) as i32,
        height: (area.height - 2 * PADDING) as i32,
        size: children_total,
    }
}

/// Completeness of a node's subdivision: every child of positive size
/// whose assigned subregion is large enough to evaluate has its rectangle
/// among `rects[lo..]`, covering exactly that subregion one level deeper.
/// The assignment is the squarify partition of the padded region among the
/// children ordered by size.
pub open spec fn children_rects_complete(
    folder: FolderNode,
    area: TreemapArea,
    depth: u32,
    rects: Seq<TreemapRect>,
    lo: int,
) -> bool {
    let sz = child_order_sizes(folder.children@);
    let ord = child_order_indices(folder.children@);
    let total = pos_size_sum(folder.children@, folder.children@.len() as int);
    let assigned = squarify_spec(sz, 0, padded_area_spec(area, total as u64));
    forall|k: int|
        0 <= k < sz.len() && assigned[k].width >= MIN_EVAL_SIZE && assigned[k].height
            >= MIN_EVAL_SIZE ==> exists|ri: int|
            lo <= ri < rects.len() && is_node_rect(
                #[trigger] rects[ri],
                folder.children@[ord[k] as int],
                assigned[k],
                (depth + 1) as u32,
            )
}

/// Rectangles lying in separated regions are themselves separated.
pub proof fn lemma_rects_in_separated_areas(
    r1: TreemapRect,
    a1: TreemapArea,
    r2: TreemapRect,
    a2: TreemapArea,
)
    requires
        rect_in_area(r1, a1),
        rect_in_area(r2, a2),
        areas_separated(a1, a2),
    ensures
        rects_separated(r1, r2),
{
}

/// Lays out one node and, recursively, its children: emits the node's own
/// rectangle covering the whole supplied region, then partitions the
/// region (shrunk by the fixed padding) among the children of positive
/// size with the squarify rule. Regions smaller than `MIN_EVAL_SIZE`
/// produce nothing; regions smaller than `MIN_SUBDIVIDE_SIZE` produce the
/// node's rectangle alone. Every emitted rectangle stays within the
/// supplied region; rectangles of equal depth never overlap; and every
/// rectangle below the node has, one level above it, a rectangle
/// containing it with the fixed padding to spare.
#[verifier::loop_isolation(false)]
#[verifier::rlimit(60)]
pub fn layout_folder(
    folder: &FolderNode,
    area: TreemapArea,
    depth: u32,
    rects: &mut Vec<TreemapRect>,
)
    requires
        wf_node(*folder),
        area_wf(area),
        depth + tree_height(*folder) <= u32::MAX,
    ensures
        final(rects)@.len() >= old(rects)@.len(),
        forall|i: int| 0 <= i < old(rects)@.len() ==> final(rects)@[i] == old(rects)@[i],
        (area.width < MIN_EVAL_SIZE || area.height < MIN_EVAL_SIZE) <==> final(rects)@.len()
            == old(rects)@.len(),
        final(rects)@.len() > old(rects)@.len() ==> is_node_rect(
            final(rects)@[old(rects)@.len() as int],
            *folder,
            area,
            depth,
        ),
        forall|i: int|
            old(rects)@.len() <= i < final(rects)@.len() ==> rect_in_area(
                #[trigger] final(rects)@[i],
                area,
            ) && depth <= final(rects)@[i].depth,
        forall|i: int|
            old(rects)@.len() <= i < final(rects)@.len() && (#[trigger] final(rects)@[i]).depth
                == depth ==> i == old(rects)@.len(),
        forall|i: int, j: int|
            old(rects)@.len() <= i < final(rects)@.len()
                && old(rects)@.len() <= j < final(rects)@.len()
                && i != j && final(rects)@[i].depth == final(rects)@[j].depth
                ==> rects_separated(final(rects)@[i], final(rects)@[j]),
        forall|i: int|
            old(rects)@.len() <= i < final(rects)@.len()
                && depth < (#[trigger] final(rects)@[i]).depth ==> exists|j: int|
                old(rects)@.len() <= j < final(rects)@.len() && final(rects)@[j].depth + 1
                    == final(rects)@[i].depth && rect_in_padded(final(rects)@[i], final(rects)@[j]),
        (area.width >= MIN_SUBDIVIDE_SIZE && area.height >= MIN_SUBDIVIDE_SIZE)
            ==> children_rects_complete(
            *folder,
            area,
            depth,
            final(rects)@,
            old(rects)@.len() as int,
        ),
    decreases *folder,
{
    if area.width < MIN_EVAL_SIZE || area.height < MIN_EVAL_SIZE {
        return ;
    }
    let ghost start0 = rects@.len() as int;
    let name = folder.name.clone();
    let path = folder.path.clone();
    rects.push(
        TreemapRect {
            x: area.x,
            y: area.y,
            width: area.width,
            height: area.height,
            name,
            path,
            size: folder.size,
            depth,
            color_class: color_class_for_depth(depth),
        },
    );
    if area.width < MIN_SUBDIVIDE_SIZE || area.height < MIN_SUBDIVIDE_SIZE {
        return ;
    }
    proof {
        assert(children_size_sum(folder.children@) <= u64::MAX);
    }
    let (sorted_sizes, order, children_total) = sorted_child_order(&folder.children);
    if sorted_sizes.len() == 0 {
        proof {
            assert(child_order_sizes(folder.children@).len() == 0);
        }
        return ;
    }
    proof {
        lemma_element_le_sum(sorted_sizes@, 0, 0, sorted_sizes@.len() as int);
    }
    let padded = TreemapArea {
        x: area.x + PADDING,
        y: area.y + PADDING,
        width: area.width - 2 * PADDING,
        height: area.height - 2 * PADDING,
        size: children_total,
    };
    let child_areas = squarify_layout(&sorted_sizes, padded);
    proof {
        assert(padded == padded_area_spec(area, children_total));
        assert(child_areas@ == squarify_spec(child_order_sizes(folder.children@), 0, padded));
        assert forall|q: int|
            0 <= q < order@.len() implies (#[trigger] order@[q]) < folder.children@.len()
            && folder.children@[order@[q] as int].size > 0 by {
            assert(sorted_sizes@[q] == folder.children@[order@[q] as int].size);
        }
    }
    let ghost node_rect = rects@[start0];
    let mut k: usize = 0;
    while k < order.len()
        invariant
            0 <= k <= order@.len(),
            order@.len() == sorted_sizes@.len(),
            child_areas@.len() == sorted_sizes@.len(),
            forall|q: int|
                0 <= q < order@.len() ==> (#[trigger] order@[q]) < folder.children@.len()
                    && folder.children@[order@[q] as int].size > 0,
            forall|q: int| 0 <= q < child_areas@.len() ==> area_within(#[trigger] child_areas@[q], padded),
            forall|q: int| 0 <= q < child_areas@.len() ==> area_wf(#[trigger] child_areas@[q]),
            forall|a: int, b: int|
                0 <= a < b < child_areas@.len() ==> areas_separated(child_areas@[a], child_areas@[b]),
            rects@.len() > start0,
            rects@[start0] == node_rect,
            forall|i: int| 0 <= i < start0 ==> rects@[i] == old(rects)@[i],
            forall|i: int|
                start0 < i < rects@.len() ==> exists|q: int|
                    0 <= q < k && rect_in_area(#[trigger] rects@[i], child_areas@[q]),
            forall|i: int|
                start0 <= i < rects@.len() ==> rect_in_area(#[trigger] rects@[i], area) && depth
                    <= rects@[i].depth,
            forall|i: int| start0 < i < rects@.len() ==> depth < (#[trigger] rects@[i]).depth,
            forall|i: int, j: int|
                start0 <= i < rects@.len() && start0 <= j < rects@.len() && i != j && rects@[
                    i
                ].depth == rects@[j].depth ==> rects_separated(rects@[i], rects@[j]),
            forall|i: int|
                start0 <= i < rects@.len() && depth < (#[trigger] rects@[i]).depth ==> exists|
                    j: int,
                |
                    start0 <= j < rects@.len() && rects@[j].depth + 1 == rects@[i].depth
                        && rect_in_padded(rects@[i], rects@[j]),
            forall|q: int|
                0 <= q < k && child_areas@[q].width >= MIN_EVAL_SIZE && child_areas@[q].height
                    >= MIN_EVAL_SIZE ==> exists|ri: int|
                    start0 <= ri < rects@.len() && is_node_rect(
                        #[trigger] rects@[ri],
                        folder.children@[order@[q] as int],
                        child_areas@[q],
                        (depth + 1) as u32,
                    ),
        decreases order@.len() - k,
    {
        let idx = order[k];
        let child = &folder.children[idx];
        proof {
            lemma_child_height(*folder, idx as int);
            assert(wf_node(folder.children@[idx as int]));
            assert(decreases_to!(*folder => folder.children@[idx as int]));
        }
        let ghost len_before = rects@.len() as int;
        let ghost pre = rects@;
        let carea = child_areas[k];
        layout_folder(child, carea, depth + 1, rects);
        proof {
            assert forall|i: int|
                start0 < i < rects@.len() implies exists|q: int|
                    0 <= q < k + 1 && rect_in_area(#[trigger] rects@[i], child_areas@[q]) by {
                if i >= len_before {
                    assert(rect_in_area(rects@[i], child_areas@[k as int]));
                } else {
                    let q = choose|q: int|
                        0 <= q < k && rect_in_area(#[trigger] rects@[i], child_areas@[q]);
                    assert(rect_in_area(rects@[i], child_areas@[q]));
                }
            }
            assert forall|i: int|
                start0 <= i < rects@.len() implies rect_in_area(#[trigger] rects@[i], area)
                && depth <= rects@[i].depth by {
                if i >= len_before {
                    lemma_rect_in_area_trans(rects@[i], carea, padded);
                    lemma_rect_in_area_trans(rects@[i], padded, area);
                }
            }
            assert forall|i: int, j: int|
                start0 <= i < rects@.len() && start0 <= j < rects@.len() && i != j && rects@[
                    i
                ].depth == rects@[j].depth implies rects_separated(rects@[i], rects@[j]) by {
                if i < len_before && j >= len_before {
                    if i > start0 {
                        let q = choose|q: int|
                            0 <= q < k && rect_in_area(#[trigger] rects@[i], child_areas@[q]);
                        assert(areas_separated(child_areas@[q], child_areas@[k as int]));
                        lemma_rects_in_separated_areas(
                            rects@[i],
                            child_areas@[q],
                            rects@[j],
                            child_areas@[k as int],
                        );
                    }
                } else if j < len_before && i >= len_before {
                    if j > start0 {
                        let q = choose|q: int|
                            0 <= q < k && rect_in_area(#[trigger] rects@[j], child_areas@[q]);
                        assert(areas_separated(child_areas@[q], child_areas@[k as int]));
                        lemma_rects_in_separated_areas(
                            rects@[i],
                            child_areas@[k as int],
                            rects@[j],
                            child_areas@[q],
                        );
                    }
                }
            }
            assert forall|i: int|
                start0 <= i < rects@.len() && depth < (#[trigger] rects@[i]).depth implies exists|
                j: int,
            |
                start0 <= j < rects@.len() && rects@[j].depth + 1 == rects@[i].depth
                    && rect_in_padded(rects@[i], rects@[j]) by {
                if i >= len_before {
                    if rects@[i].depth == depth + 1 {
                        assert(rects@[start0].depth + 1 == rects@[i].depth);
                        assert(rect_in_padded(rects@[i], rects@[start0]));
                    } else {
                        let j = choose|j: int|
                            len_before <= j < rects@.len() && rects@[j].depth + 1 == rects@[
                                i
                            ].depth && rect_in_padded(rects@[i], rects@[j]);
                        assert(start0 <= j < rects@.len() && rects@[j].depth + 1 == rects@[
                            i
                        ].depth && rect_in_padded(rects@[i], rects@[j]));
                    }
                } else {
                    let j = choose|j: int|
                        start0 <= j < len_before && pre[j].depth + 1 == pre[i].depth
                            && rect_in_padded(pre[i], pre[j]);
                    assert(rects@[j] == pre[j] && rects@[i] == pre[i]);
                }
            }
            assert forall|q: int|
                0 <= q < k + 1 && child_areas@[q].width >= MIN_EVAL_SIZE && child_areas@[q].height
                    >= MIN_EVAL_SIZE implies exists|ri: int|
                start0 <= ri < rects@.len() && is_node_rect(
                    #[trigger] rects@[ri],
                    folder.children@[order@[q] as int],
                    child_areas@[q],
                    (depth + 1) as u32,
                ) by {
                if q == k {
                    assert(is_node_rect(
                        rects@[len_before],
                        folder.children@[order@[q] as int],
                        child_areas@[q],
                        (depth + 1) as u32,
                    ));
                } else {
                    let ri = choose|ri: int|
                        start0 <= ri < len_before && is_node_rect(
                            #[trigger] pre[ri],
                            folder.children@[order@[q] as int],
                            child_areas@[q],
                            (depth + 1) as u32,
                        );
                    assert(rects@[ri] == pre[ri]);
                    assert(is_node_rect(
                        rects@[ri],
                        folder.children@[order@[q] as int],
                        child_areas@[q],
                        (depth + 1) as u32,
                    ));
                }
            }
        }
        k = k + 1;
    }
    proof {
        let sz = child_order_sizes(folder.children@);
        let ord = child_order_indices(folder.children@);
        let assigned = squarify_spec(sz, 0, padded_area_spec(area, children_total));
        assert forall|q: int|
            0 <= q < sz.len() && assigned[q].width >= MIN_EVAL_SIZE && assigned[q].height
                >= MIN_EVAL_SIZE implies exists|ri: int|
            start0 <= ri < rects@.len() && is_node_rect(
                #[trigger] rects@[ri],
                folder.children@[ord[q] as int],
                assigned[q],
                (depth + 1) as u32,
            ) by {
            assert(assigned[q] == child_areas@[q]);
            let ri = choose|ri: int|
                start0 <= ri < rects@.len() && is_node_rect(
                    #[trigger] rects@[ri],
                    folder.children@[order@[q] as int],
                    child_areas@[q],
                    (depth + 1) as u32,
                );
            assert(is_node_rect(
                rects@[ri],
                folder.children@[ord[q] as int],
                assigned[q],
                (depth + 1) as u32,
            ));
        }
    }
}

/// Rectangle containment follows region containment.
pub proof fn lemma_rect_in_area_trans(r: TreemapRect, a: TreemapArea, b: TreemapArea)
    requires
        rect_in_area(r, a),
        area_within(a, b),
    ensures
        rect_in_area(r, b),
{
}


/// Computes the treemap for a whole tree over the drawing region
/// `[x, x + width) x [y, y + height)`. The first rectangle (when the
/// region is large enough to evaluate) is the root's, covering the whole
/// region; every rectangle lies within the region; rectangles of equal
/// depth never overlap; and every rectangle of positive depth has, one
/// level above it, a rectangle containing it with the fixed padding to
/// spare.
pub fn calculate_hierarchical_treemap(
    root: &FolderNode,
    x: i32,
    y: i32,
    width: i32,
    height: i32,
) -> (rects: Vec<TreemapRect>)
    requires
        wf_node(*root),
        0 <= x,
        0 <= y,
        0 <= width,
        0 <= height,
        x + width <= i32::MAX,
        y + height <= i32::MAX,
        tree_height(*root) <= u32::MAX,
    ensures
        (width < MIN_EVAL_SIZE || height < MIN_EVAL_SIZE) <==> rects@.len() == 0,
        rects@.len() > 0 ==> is_node_rect(
            rects@[0],
            *root,
            TreemapArea { x, y, width, height, size: root.size },
            0,
        ),
        forall|i: int|
            0 <= i < rects@.len() ==> rect_in_area(
                #[trigger] rects@[i],
                TreemapArea { x, y, width, height, size: root.size },
            ),
        forall|i: int| 0 <= i < rects@.len() && (#[trigger] rects@[i]).depth == 0 ==> i == 0,
        forall|i: int, j: int|
            0 <= i < rects@.len() && 0 <= j < rects@.len() && i != j && rects@[i].depth
                == rects@[j].depth ==> rects_separated(rects@[i], rects@[j]),
        forall|i: int|
            0 <= i < rects@.len() && 0 < (#[trigger] rects@[i]).depth ==> exists|j: int|
                0 <= j < rects@.len() && rects@[j].depth + 1 == rects@[i].depth && rect_in_padded(
                    rects@[i],
                    rects@[j],
                ),
        (width >= MIN_SUBDIVIDE_SIZE && height >= MIN_SUBDIVIDE_SIZE) ==> children_rects_complete(
            *root,
            TreemapArea { x, y, width, height, size: root.size },
            0,
            rects@,
            0,
        ),
{
    let mut rects: Vec<TreemapRect> = Vec::new();
    let area = TreemapArea { x, y, width, height, size: root.size };
    layout_folder(root, area, 0, &mut rects);
    rects
}

} // verus!
