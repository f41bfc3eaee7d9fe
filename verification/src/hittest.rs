//! Pointer resolution over a laid-out treemap: find the smallest rectangle
//! containing a point, and the set of rectangles highlighted with it.

use vstd::prelude::*;

use crate::layout::TreemapRect;

verus! {

/// The pixel area of a rectangle.
pub open spec fn rect_area(r: TreemapRect) -> int {
    r.width * r.height
}

/// Whether the point `(px, py)` lies in the half-open region of `r`.
pub open spec fn rect_contains_point(r: TreemapRect, px: int, py: int) -> bool {
    &&& r.x <= px < r.x + r.width
    &&& r.y <= py < r.y + r.height
}

/// Whether `inner`'s bounds lie fully inside `outer`'s bounds, judged on
/// all four edges.
pub open spec fn rect_inside(inner: TreemapRect, outer: TreemapRect) -> bool {
    &&& outer.x <= inner.x
    &&& outer.y <= inner.y
    &&& inner.x + inner.width <= outer.x + outer.width
    &&& inner.y + inner.height <= outer.y + outer.height
}

/// The index that pointer resolution picks among the first `n` rectangles:
/// the smallest-area rectangle containing the point, ties broken in favor
/// of the earliest index.
pub open spec fn resolve_prefix(rects: Seq<TreemapRect>, px: int, py: int, n: int) -> Option<int>
    decreases n,
{
    if n <= 0 {
        None
    } else {
        let prev = resolve_prefix(rects, px, py, n - 1);
        let i = n - 1;
        if rect_contains_point(rects[i], px, py) {
            match prev {
                None => Some(i),
                Some(j) => if rect_area(rects[i]) < rect_area(rects[j]) {
                    Some(i)
                } else {
                    Some(j)
                },
            }
        } else {
            prev
        }
    }
}

/// What `resolve` returns on a rectangle list and a point.
pub open spec fn resolve_spec(rects: Seq<TreemapRect>, px: int, py: int) -> Option<int> {
    resolve_prefix(rects, px, py, rects.len() as int)
}

/// The product of two 32-bit quantities stays within 64-bit bounds.
proof fn lemma_i32_area_fits(w: int, h: int)
    requires
        i32::MIN <= w <= i32::MAX,
        i32::MIN <= h <= i32::MAX,
    ensures
        i64::MIN <= w * h <= i64::MAX,
{
    assert(i64::MIN <= w * h <= i64::MAX) by (nonlinear_arith)
        requires
            -0x8000_0000 <= w <= 0x7fff_ffff,
            -0x8000_0000 <= h <= 0x7fff_ffff,
    ;
}

/// An index option widened to the mathematical integers.
pub open spec fn index_option(o: Option<usize>) -> Option<int> {
    match o {
        None => None,
        Some(i) => Some(i as int),
    }
}

/// The set of indices highlighted together with a hovered rectangle: the
/// hovered index plus every index of a rectangle at strictly greater depth
/// lying fully inside the hovered rectangle.
pub open spec fn highlighted_spec(rects: Seq<TreemapRect>, hovered: int) -> Set<int> {
    Set::new(
        |i: int|
            0 <= i < rects.len() && (i == hovered || (rects[i].depth > rects[hovered].depth
                && rect_inside(rects[i], rects[hovered]))),
    )
}

/// Resolution over a prefix returns a containing rectangle of minimal area,
/// with ties broken in favor of the earliest index; it returns `None` only
/// when no rectangle of the prefix contains the point.
pub proof fn lemma_resolve_prefix_sound(rects: Seq<TreemapRect>, px: int, py: int, n: int)
    requires
        0 <= n <= rects.len(),
    ensures
        match resolve_prefix(rects, px, py, n) {
            None => forall|j: int| 0 <= j < n ==> !rect_contains_point(rects[j], px, py),
            Some(i) => {
                &&& 0 <= i < n
                &&& rect_contains_point(rects[i], px, py)
                &&& forall|j: int|
                    0 <= j < n && rect_contains_point(rects[j], px, py) ==> rect_area(rects[i])
                        <= rect_area(rects[j])
                &&& forall|j: int|
                    0 <= j < i && rect_contains_point(rects[j], px, py) ==> rect_area(rects[j])
                        > rect_area(rects[i])
            },
        },
    decreases n,
{
    if n > 0 {
        lemma_resolve_prefix_sound(rects, px, py, n - 1);
    }
}

/// Hit-test correctness: when a point lies inside a rectangle whose area is
/// strictly smaller than that of every other rectangle containing the point
/// (a leaf among its ancestors), resolution picks exactly that rectangle.
pub proof fn lemma_resolve_picks_leaf(rects: Seq<TreemapRect>, px: int, py: int, leaf: int)
    requires
        0 <= leaf < rects.len(),
        rect_contains_point(rects[leaf], px, py),
        forall|j: int|
            0 <= j < rects.len() && j != leaf && rect_contains_point(rects[j], px, py)
                ==> rect_area(rects[j]) > rect_area(rects[leaf]),
    ensures
        resolve_spec(rects, px, py) == Some(leaf),
{
    lemma_resolve_prefix_from_leaf(rects, px, py, leaf, rects.len() as int);
}

proof fn lemma_resolve_prefix_from_leaf(
    rects: Seq<TreemapRect>,
    px: int,
    py: int,
    leaf: int,
    n: int,
)
    requires
        0 <= leaf < n <= rects.len(),
        rect_contains_point(rects[leaf], px, py),
        forall|j: int|
            0 <= j < rects.len() && j != leaf && rect_contains_point(rects[j], px, py)
                ==> rect_area(rects[j]) > rect_area(rects[leaf]),
    ensures
        resolve_prefix(rects, px, py, n) == Some(leaf),
    decreases n,
{
    if n == leaf + 1 {
        lemma_resolve_prefix_sound(rects, px, py, leaf);
    } else {
        lemma_resolve_prefix_from_leaf(rects, px, py, leaf, n - 1);
    }
}

/// Highlight correctness: for a hovered rectangle with two deeper
/// rectangles inside it, the highlighted set holds the hovered index and
/// both of them, and no rectangle that does not lie inside the hovered one.
pub proof fn lemma_highlight_hovered_subtree(
    rects: Seq<TreemapRect>,
    hovered: int,
    c1: int,
    c2: int,
    other: int,
)
    requires
        0 <= hovered < rects.len(),
        0 <= c1 < rects.len(),
        0 <= c2 < rects.len(),
        rects[c1].depth > rects[hovered].depth,
        rects[c2].depth > rects[hovered].depth,
        rect_inside(rects[c1], rects[hovered]),
        rect_inside(rects[c2], rects[hovered]),
        0 <= other < rects.len(),
        other != hovered,
        !rect_inside(rects[other], rects[hovered]),
    ensures
        highlighted_spec(rects, hovered).contains(hovered),
        highlighted_spec(rects, hovered).contains(c1),
        highlighted_spec(rects, hovered).contains(c2),
        !highlighted_spec(rects, hovered).contains(other),
{
}

/// Whether `inner`'s bounds lie fully inside `outer`'s bounds.
pub fn is_rect_inside(inner: &TreemapRect, outer: &TreemapRect) -> (r: bool)
    ensures
        r == rect_inside(*inner, *outer),
{
    inner.x >= outer.x && inner.y >= outer.y && inner.x as i64 + inner.width as i64 <= outer.x
        as i64 + outer.width as i64 && inner.y as i64 + inner.height as i64 <= outer.y as i64
        + outer.height as i64
}

/// The smallest-area rectangle that contains the point, ties broken by the
/// first index encountered; `None` when no rectangle contains the point.
pub fn resolve(rects: &Vec<TreemapRect>, px: i32, py: i32) -> (r: Option<usize>)
    ensures
        match r {
            None => forall|j: int|
                0 <= j < rects@.len() ==> !rect_contains_point(rects@[j], px as int, py as int),
            Some(i) => {
                &&& 0 <= i < rects@.len()
                &&& rect_contains_point(rects@[i as int], px as int, py as int)
                &&& forall|j: int|
                    0 <= j < rects@.len() && rect_contains_point(
                        rects@[j],
                        px as int,
                        py as int,
                    ) ==> rect_area(rects@[i as int]) <= rect_area(rects@[j])
                &&& forall|j: int|
                    0 <= j < i && rect_contains_point(rects@[j], px as int, py as int)
                        ==> rect_area(rects@[j]) > rect_area(rects@[i as int])
            },
        },
        index_option(r) == resolve_spec(rects@, px as int, py as int),
{
    let mut best: Option<usize> = None;
    let mut k: usize = 0;
    while k < rects.len()
        invariant
            0 <= k <= rects@.len(),
            index_option(best) == resolve_prefix(rects@, px as int, py as int, k as int),
            match best {
                None => forall|j: int|
                    0 <= j < k ==> !rect_contains_point(rects@[j], px as int, py as int),
                Some(i) => {
                    &&& 0 <= i < k
                    &&& rect_contains_point(rects@[i as int], px as int, py as int)
                    &&& forall|j: int|
                        0 <= j < k && rect_contains_point(rects@[j], px as int, py as int)
                            ==> rect_area(rects@[i as int]) <= rect_area(rects@[j])
                    &&& forall|j: int|
                        0 <= j < i && rect_contains_point(rects@[j], px as int, py as int)
                            ==> rect_area(rects@[j]) > rect_area(rects@[i as int])
                },
            },
        decreases rects@.len() - k,
    {
        let rect = &rects[k];
        let contains = px >= rect.x && (px as i64) < rect.x as i64 + rect.width as i64 && py
            >= rect.y && (py as i64) < rect.y as i64 + rect.height as i64;
        if contains {
            proof {
                lemma_i32_area_fits(rect.width as int, rect.height as int);
            }
            let area = rect.width as i64 * rect.height as i64;
            match best {
                None => {
                    best = Some(k);
                },
                Some(i) => {
                    let best_rect = &rects[i];
                    proof {
                        lemma_i32_area_fits(best_rect.width as int, best_rect.height as int);
                    }
                    let best_area = best_rect.width as i64 * best_rect.height as i64;
                    if area < best_area {
                        best = Some(k);
                    }
                },
            }
        }
        k = k + 1;
    }
    best
}

/// The indices highlighted when `hovered` is under the pointer: the hovered
/// rectangle itself plus every rectangle at strictly greater depth whose
/// bounds lie fully inside the hovered rectangle's bounds. Out-of-range or
/// absent hover yields the empty set. The result holds each index once, in
/// increasing order.
pub fn get_highlighted_rects(rects: &Vec<TreemapRect>, hovered_rect: Option<usize>) -> (r: Vec<
    usize,
>)
    ensures
        forall|a: int, b: int| 0 <= a < b < r@.len() ==> r@[a] < r@[b],
        match hovered_rect {
            None => r@.len() == 0,
            Some(h) => if h < rects@.len() {
                forall|i: int|
                    #![auto]
                    0 <= i < rects@.len() ==> (r@.contains(i as usize) <==> highlighted_spec(
                        rects@,
                        h as int,
                    ).contains(i))
            } else {
                r@.len() == 0
            },
        },
        forall|v: usize| r@.contains(v) ==> v < rects@.len(),
{
    let mut r: Vec<usize> = Vec::new();
    let hovered_idx = match hovered_rect {
        None => {
            return r;
        },
        Some(h) => h,
    };
    if hovered_idx >= rects.len() {
        return r;
    }
    let hovered = &rects[hovered_idx];
    let mut i: usize = 0;
    while i < rects.len()
        invariant
            0 <= i <= rects@.len(),
            hovered_idx < rects@.len(),
            hovered == &rects@[hovered_idx as int],
            forall|a: int, b: int| 0 <= a < b < r@.len() ==> r@[a] < r@[b],
            forall|v: usize| r@.contains(v) ==> v < i,
            forall|j: int|
                #![auto]
                0 <= j < i ==> (r@.contains(j as usize) <==> (j == hovered_idx || (
                rects@[j].depth > rects@[hovered_idx as int].depth && rect_inside(
                    rects@[j],
                    rects@[hovered_idx as int],
                )))),
        decreases rects@.len() - i,
    {
        let rect = &rects[i];
        let keep = if i == hovered_idx {
            true
        } else {
            rect.depth > hovered.depth && is_rect_inside(rect, hovered)
        };
        if keep {
            let ghost old_r = r@;
            r.push(i);
            proof {
                assert forall|a: int, b: int| 0 <= a < b < r@.len() implies r@[a] < r@[b] by {
                    if b == r@.len() - 1 {
                        assert(old_r.contains(old_r[a]));
                    }
                }
                assert forall|v: usize| r@.contains(v) implies v < i + 1 by {
                    if v != i {
                        assert(old_r.contains(v)) by {
                            let w = choose|w: int| 0 <= w < r@.len() && r@[w] == v;
                            assert(old_r[w] == v);
                        }
                    }
                }
                assert forall|j: int| #![auto] 0 <= j < i + 1 implies (r@.contains(j as usize)
                    <==> (j == hovered_idx || (rects@[j].depth > rects@[hovered_idx as int].depth
                    && rect_inside(rects@[j], rects@[hovered_idx as int])))) by {
                    if j < i {
                        assert(old_r.contains(j as usize) ==> r@.contains(j as usize)) by {
                            if old_r.contains(j as usize) {
                                let w = choose|w: int|
                                    0 <= w < old_r.len() && old_r[w] == j as usize;
                                assert(r@[w] == j as usize);
                            }
                        }
                        assert(r@.contains(j as usize) ==> old_r.contains(j as usize)) by {
                            if r@.contains(j as usize) {
                                let w = choose|w: int| 0 <= w < r@.len() && r@[w] == j as usize;
                                if w < old_r.len() as int {
                                    assert(old_r[w] == j as usize);
                                }
                            }
                        }
                    } else {
                        assert(r@[r@.len() - 1] == i as usize);
                        assert(r@.contains(i as usize));
                    }
                }
            }
        } else {
            proof {
                assert forall|j: int| #![auto] 0 <= j < i + 1 implies (r@.contains(j as usize)
                    <==> (j == hovered_idx || (rects@[j].depth > rects@[hovered_idx as int].depth
                    && rect_inside(rects@[j], rects@[hovered_idx as int])))) by {
                    if j == i {
                        assert(!r@.contains(i as usize)) by {
                            if r@.contains(i as usize) {
                                let w = choose|w: int| 0 <= w < r@.len() && r@[w] == i as usize;
                            }
                        }
                    }
                }
            }
        }
        i = i + 1;
    }
    r
}

} // verus!
