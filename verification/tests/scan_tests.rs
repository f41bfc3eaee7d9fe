use folder_scan::scan::{
    calculate_directory_size, progress_percent, scan_folder_hierarchy, scan_tree, DirTree,
    ScanError, ScanPhase,
};

fn dir(name: &str, files: Vec<u64>, subdirs: Vec<DirTree>) -> DirTree {
    DirTree { name: name.to_string(), path: format!("/{}", name), files, subdirs }
}

#[test]
fn directory_size_sums_all_files_recursively() {
    let snap = dir(
        "root",
        vec![10, 20],
        vec![dir("a", vec![30], vec![dir("b", vec![5], vec![])]), dir("c", vec![], vec![])],
    );
    assert_eq!(calculate_directory_size(&snap), 65);
}

#[test]
fn directory_size_of_empty_directory_is_zero() {
    assert_eq!(calculate_directory_size(&dir("empty", vec![], vec![])), 0);
}

#[test]
fn scan_aggregates_own_files_and_subdirectories() {
    let snap = dir(
        "root",
        vec![100],
        vec![dir("a", vec![40], vec![]), dir("b", vec![60], vec![])],
    );
    let tree = scan_tree(&snap);
    assert_eq!(tree.name, "root");
    assert_eq!(tree.size, 200);
    assert_eq!(tree.children.len(), 2);
    assert_eq!(tree.children[0].name, "a");
    assert_eq!(tree.children[0].size, 40);
    assert_eq!(tree.children[1].name, "b");
    assert_eq!(tree.children[1].size, 60);
}

#[test]
fn child_at_exactly_one_mebibyte_is_not_expanded() {
    // The deep-scan comparison is strict: a child whose total is exactly
    // 1,048,576 bytes stays a size-only leaf.
    let sub = dir("sub", vec![1_048_476], vec![dir("grand", vec![100], vec![])]);
    let snap = dir("root", vec![], vec![sub]);
    let tree = scan_tree(&snap);
    assert_eq!(tree.size, 1_048_576);
    assert_eq!(tree.children.len(), 1);
    assert_eq!(tree.children[0].size, 1_048_576);
    assert!(tree.children[0].children.is_empty());
}

#[test]
fn child_over_one_mebibyte_is_expanded() {
    let sub = dir("sub", vec![1_048_477], vec![dir("grand", vec![100], vec![])]);
    let snap = dir("root", vec![], vec![sub]);
    let tree = scan_tree(&snap);
    assert_eq!(tree.children.len(), 1);
    assert_eq!(tree.children[0].size, 1_048_577);
    assert_eq!(tree.children[0].children.len(), 1);
    assert_eq!(tree.children[0].children[0].name, "grand");
    assert_eq!(tree.children[0].children[0].size, 100);
}

#[test]
fn within_fan_out_every_subdirectory_is_scanned() {
    let subs: Vec<DirTree> = (0..10).map(|i| dir(&format!("s{}", i), vec![7], vec![])).collect();
    let tree = scan_tree(&dir("root", vec![], subs));
    assert_eq!(tree.children.len(), 10);
    assert_eq!(tree.size, 70);
}

#[test]
fn over_fan_out_only_one_worker_batch_is_scanned() {
    // With more subdirectories than the fan-out threshold, the pass sizes
    // only the first batch of workers' worth; the rest are left out.
    let subs: Vec<DirTree> = (0..12).map(|i| dir(&format!("s{}", i), vec![5], vec![])).collect();
    let tree = scan_tree(&dir("root", vec![], subs));
    assert_eq!(tree.children.len(), 8);
    assert_eq!(tree.size, 40);
    assert_eq!(tree.children[0].name, "s0");
    assert_eq!(tree.children[7].name, "s7");
}

#[test]
fn scan_and_prune_drops_insignificant_children() {
    // Total 1,000,000 bytes: the threshold is 100 bytes (0.01%). A child
    // of 50 bytes (0.005%) is pruned; one of 200 bytes (0.02%) survives.
    let snap = dir(
        "root",
        vec![999_750],
        vec![dir("tiny", vec![50], vec![]), dir("kept", vec![200], vec![])],
    );
    let tree = scan_folder_hierarchy(&snap);
    assert_eq!(tree.size, 1_000_000);
    assert_eq!(tree.children.len(), 1);
    assert_eq!(tree.children[0].name, "kept");
    assert_eq!(tree.children[0].size, 200);
}

#[test]
fn progress_milestones_are_coarse() {
    assert_eq!(progress_percent(&ScanPhase::Started), 20);
    assert_eq!(progress_percent(&ScanPhase::DeepScanning), 80);
    assert_eq!(progress_percent(&ScanPhase::Completed), 100);
}

#[test]
fn scan_error_variants_are_distinct() {
    let io = ScanError::IoError("permission denied".to_string());
    assert_ne!(io, ScanError::NotADirectory);
    assert_ne!(io, ScanError::WorkerFailure);
    assert_ne!(ScanError::NotADirectory, ScanError::WorkerFailure);
    assert_eq!(io, ScanError::IoError("permission denied".to_string()));
}
