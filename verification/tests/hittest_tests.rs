use folder_scan::hittest::{get_highlighted_rects, resolve};
use folder_scan::layout::TreemapRect;

fn rect(x: i32, y: i32, width: i32, height: i32, depth: u32, name: &str) -> TreemapRect {
    TreemapRect {
        x,
        y,
        width,
        height,
        name: name.to_string(),
        path: format!("/{}", name),
        size: (width as u64) * (height as u64),
        depth,
        color_class: depth % 6,
    }
}

#[test]
fn resolve_picks_the_leaf_among_its_ancestors() {
    // A point inside a leaf and all its ancestors must resolve to the
    // leaf, the smallest containing rectangle, not to any ancestor.
    let rects = vec![
        rect(0, 0, 100, 100, 0, "root"),
        rect(10, 10, 40, 40, 1, "mid"),
        rect(15, 15, 10, 10, 2, "leaf"),
    ];
    assert_eq!(resolve(&rects, 18, 18), Some(2));
    assert_eq!(resolve(&rects, 30, 30), Some(1));
    assert_eq!(resolve(&rects, 90, 90), Some(0));
}

#[test]
fn resolve_returns_none_outside_every_rectangle() {
    let rects = vec![rect(0, 0, 100, 100, 0, "root")];
    assert_eq!(resolve(&rects, 100, 50), None);
    assert_eq!(resolve(&rects, -1, 50), None);
    assert_eq!(resolve(&Vec::new(), 0, 0), None);
}

#[test]
fn resolve_breaks_area_ties_by_first_index() {
    let rects = vec![
        rect(0, 0, 100, 100, 0, "root"),
        rect(0, 0, 10, 10, 1, "first"),
        rect(5, 5, 10, 10, 1, "second"),
    ];
    // (7, 7) lies in both equally sized rectangles: the earlier one wins.
    assert_eq!(resolve(&rects, 7, 7), Some(1));
}

#[test]
fn resolve_uses_half_open_bounds() {
    let rects = vec![rect(10, 10, 5, 5, 0, "r")];
    assert_eq!(resolve(&rects, 10, 10), Some(0));
    assert_eq!(resolve(&rects, 14, 14), Some(0));
    assert_eq!(resolve(&rects, 15, 14), None);
    assert_eq!(resolve(&rects, 14, 15), None);
}

#[test]
fn highlight_covers_hovered_subtree_and_no_sibling() {
    // Hovering a node with two disjoint children highlights the node and
    // both children, and neither its sibling nor anything outside it.
    let rects = vec![
        rect(0, 0, 300, 100, 0, "root"),
        rect(10, 10, 100, 80, 1, "hovered"),
        rect(15, 15, 30, 30, 2, "child_one"),
        rect(60, 15, 30, 30, 2, "child_two"),
        rect(150, 10, 100, 80, 1, "sibling"),
        rect(160, 15, 30, 30, 2, "nephew"),
    ];
    let hl = get_highlighted_rects(&rects, Some(1));
    assert_eq!(hl, vec![1, 2, 3]);
}

#[test]
fn highlight_requires_strictly_greater_depth() {
    // A rectangle geometrically inside the hovered one but at the same
    // depth is not highlighted.
    let rects = vec![
        rect(0, 0, 100, 100, 1, "hovered"),
        rect(10, 10, 20, 20, 1, "same_depth_inside"),
        rect(40, 40, 20, 20, 2, "deeper_inside"),
    ];
    let hl = get_highlighted_rects(&rects, Some(0));
    assert_eq!(hl, vec![0, 2]);
}

#[test]
fn highlight_of_nothing_is_empty() {
    let rects = vec![rect(0, 0, 100, 100, 0, "root")];
    assert!(get_highlighted_rects(&rects, None).is_empty());
    assert!(get_highlighted_rects(&rects, Some(5)).is_empty());
}
