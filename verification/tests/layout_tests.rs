use folder_scan::folder::FolderNode;
use folder_scan::layout::{
    calculate_hierarchical_treemap, calculate_worst_ratio, color_class_for_depth, find_best_row,
    get_remaining_area, layout_row, sorted_child_order, squarify_layout, TreemapArea,
};

fn node(name: &str, size: u64) -> FolderNode {
    FolderNode::new(name.to_string(), format!("/{}", name), size)
}

fn area(x: i32, y: i32, width: i32, height: i32, size: u64) -> TreemapArea {
    TreemapArea { x, y, width, height, size }
}

#[test]
fn color_classes_cycle_by_depth() {
    assert_eq!(color_class_for_depth(0), 0);
    assert_eq!(color_class_for_depth(5), 5);
    assert_eq!(color_class_for_depth(6), 0);
    assert_eq!(color_class_for_depth(13), 1);
}

#[test]
fn worst_ratio_of_single_dominant_row() {
    // One member holding 800 of 1000 bytes in a 100x100 area: the row is
    // 80 pixels thick, the member 100 along the free axis, so the worse
    // side ratio is 100/80 = 1.25, i.e. 1250 in fixed-point thousandths.
    let r = calculate_worst_ratio(800, 800, 800, area(0, 0, 100, 100, 1000), 1000);
    assert_eq!(r, 1250);
}

#[test]
fn worst_ratio_degrades_when_row_grows_unevenly() {
    // Adding a 100-byte member to the 800-byte row makes the row 90 thick
    // and the small member 11 wide: the scores must order accordingly.
    let one = calculate_worst_ratio(800, 800, 800, area(0, 0, 100, 100, 1000), 1000);
    let two = calculate_worst_ratio(900, 100, 800, area(0, 0, 100, 100, 1000), 1000);
    assert!(two > one);
}

#[test]
fn best_row_stops_at_first_worsening() {
    let sizes: Vec<u64> = vec![600, 600, 400, 300, 200, 200, 100];
    let count = find_best_row(&sizes, 0, area(0, 0, 60, 40, 2400), 2400);
    assert_eq!(count, 2);
}

#[test]
fn best_row_takes_single_dominant_member() {
    let sizes: Vec<u64> = vec![800, 100, 100];
    let count = find_best_row(&sizes, 0, area(0, 0, 100, 100, 1000), 1000);
    assert_eq!(count, 1);
}

#[test]
fn layout_row_stacks_proportional_extents() {
    let sizes: Vec<u64> = vec![600, 600, 400, 300, 200, 200, 100];
    let row = layout_row(&sizes, 0, 2, area(0, 0, 60, 40, 2400), 2400);
    assert_eq!(row.len(), 2);
    assert_eq!((row[0].x, row[0].y, row[0].width, row[0].height), (0, 0, 30, 20));
    assert_eq!((row[1].x, row[1].y, row[1].width, row[1].height), (0, 20, 30, 20));
    assert_eq!(row[0].size, 600);
    assert_eq!(row[1].size, 600);
}

#[test]
fn remaining_area_shrinks_by_the_row_band() {
    let sizes: Vec<u64> = vec![600, 600, 400, 300, 200, 200, 100];
    let rem = get_remaining_area(&sizes, 0, 2, area(0, 0, 60, 40, 2400), 2400);
    assert_eq!((rem.x, rem.y, rem.width, rem.height), (30, 0, 30, 40));
    assert_eq!(rem.size, 1200);
}

#[test]
fn squarify_three_children_are_proportional_and_disjoint() {
    // Sizes {100, 100, 800} in a 100x100 area: the areas must be in
    // proportion 1:1:8 along the split axes, within a pixel.
    let sizes: Vec<u64> = vec![800, 100, 100];
    let out = squarify_layout(&sizes, area(0, 0, 100, 100, 1000));
    assert_eq!(out.len(), 3);
    assert_eq!((out[0].x, out[0].y, out[0].width, out[0].height), (0, 0, 80, 100));
    assert_eq!((out[1].x, out[1].y, out[1].width, out[1].height), (80, 0, 20, 50));
    assert_eq!((out[2].x, out[2].y, out[2].width, out[2].height), (80, 50, 20, 50));
    // Pairwise disjoint and conserving area: 8000 + 1000 + 1000 = 10000.
    assert_eq!(
        out[0].width * out[0].height + out[1].width * out[1].height
            + out[2].width * out[2].height,
        10000
    );
}

#[test]
fn sorted_child_order_filters_zeroes_and_sorts_stably() {
    let mut root = node("root", 11);
    root.add_child(node("a", 3));
    root.add_child(node("z", 0));
    root.add_child(node("b", 5));
    root.add_child(node("c", 3));
    let (sizes, order, total) = sorted_child_order(&root.children);
    assert_eq!(sizes, vec![5, 3, 3]);
    assert_eq!(order, vec![2, 0, 3]);
    assert_eq!(total, 11);
}

#[test]
fn layout_skips_regions_too_small_to_evaluate() {
    let root = node("root", 100);
    assert!(calculate_hierarchical_treemap(&root, 0, 0, 7, 100).is_empty());
    assert!(calculate_hierarchical_treemap(&root, 0, 0, 100, 7).is_empty());
}

#[test]
fn layout_emits_but_does_not_subdivide_small_regions() {
    let mut root = node("root", 100);
    root.add_child(node("a", 100));
    let rects = calculate_hierarchical_treemap(&root, 0, 0, 19, 19);
    assert_eq!(rects.len(), 1);
    assert_eq!(rects[0].name, "root");
}

#[test]
fn layout_pads_children_by_four_pixels() {
    let mut root = node("root", 100);
    root.add_child(node("only", 100));
    let rects = calculate_hierarchical_treemap(&root, 0, 0, 100, 100);
    assert_eq!(rects.len(), 2);
    assert_eq!((rects[0].x, rects[0].y, rects[0].width, rects[0].height), (0, 0, 100, 100));
    assert_eq!(rects[0].depth, 0);
    assert_eq!(rects[0].color_class, 0);
    assert_eq!((rects[1].x, rects[1].y, rects[1].width, rects[1].height), (4, 4, 92, 92));
    assert_eq!(rects[1].depth, 1);
    assert_eq!(rects[1].color_class, 1);
    assert_eq!(rects[1].name, "only");
}

#[test]
fn layout_discards_zero_size_children() {
    let mut root = node("root", 10);
    root.add_child(node("empty", 0));
    root.add_child(node("full", 10));
    let rects = calculate_hierarchical_treemap(&root, 0, 0, 100, 100);
    assert_eq!(rects.len(), 2);
    assert_eq!(rects[1].name, "full");
}

#[test]
fn layout_sorts_children_before_partitioning() {
    // Children given as {100, 800, 100} in a 108x108 region: the padded
    // interior is 100x100, so the sorted sizes {800, 100, 100} must land
    // on the proportional 1:1:8 partition, stably for the equal pair.
    let mut root = node("root", 1000);
    root.add_child(node("a", 100));
    root.add_child(node("b", 800));
    root.add_child(node("c", 100));
    let rects = calculate_hierarchical_treemap(&root, 0, 0, 108, 108);
    assert_eq!(rects.len(), 4);
    assert_eq!(rects[1].name, "b");
    assert_eq!((rects[1].x, rects[1].y, rects[1].width, rects[1].height), (4, 4, 80, 100));
    assert_eq!(rects[2].name, "a");
    assert_eq!((rects[2].x, rects[2].y, rects[2].width, rects[2].height), (84, 4, 20, 50));
    assert_eq!(rects[3].name, "c");
    assert_eq!((rects[3].x, rects[3].y, rects[3].width, rects[3].height), (84, 54, 20, 50));
    // Every child rectangle lies within the root's with the padding.
    for r in &rects[1..] {
        assert!(r.x >= 4 && r.y >= 4);
        assert!(r.x + r.width <= 104 && r.y + r.height <= 104);
    }
}
