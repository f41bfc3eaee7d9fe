//! Scanning a filesystem snapshot into a size-annotated tree, and pruning
//! statistically insignificant nodes from the result.
//!
//! The scanner proper works on a `DirTree`: a snapshot of what the
//! filesystem reported for a subtree (the sizes of each directory's own
//! files, and its subdirectories). Reading the filesystem into such a
//! snapshot is input work that a caller performs; everything the scanner
//! decides and computes from it lives here.

use vstd::prelude::*;

use crate::folder::FolderNode;
use crate::folder::NodeView;
use crate::folder::children_size_sum;
use crate::folder::children_view;
use crate::folder::node_view;
use crate::folder::view_children_size_sum;
use crate::folder::wf_node;
use crate::layout::lemma_sum_range_mono;
use crate::layout::lemma_sum_range_nonneg;
use crate::layout::sum_range;

verus! {

/// A child directory is expanded into a full subtree only when its
/// aggregate size strictly exceeds this many bytes (one mebibyte);
/// children at or below it stay as size-only leaves.
pub const DEEP_SCAN_THRESHOLD: u64 = 1024 * 1024;

/// A directory's subdirectories are sized in parallel only when there are
/// strictly more of them than this.
pub const FAN_OUT_THRESHOLD: usize = 10;

/// The number of parallel sizing workers one directory dispatches. When a
/// directory exceeds the fan-out threshold, only this many of its
/// subdirectories are sized in that pass; the rest are left out of the
/// tree.
pub const MAX_PARALLEL_WORKERS: usize = 8;

/// The significance divisor: after a scan, descendants smaller than the
/// total size divided by this (0.01% of the total) are pruned away.
pub const SIGNIFICANCE_DIVISOR: u64 = 10000;

/// A snapshot of one directory: its name, its absolute path, the sizes of
/// the regular files directly in it, and snapshots of its subdirectories.
pub struct DirTree {
    pub name: String,
    pub path: String,
    pub files: Vec<u64>,
    pub subdirs: Vec<DirTree>,
}

/// The mathematical shape of a `DirTree`.
pub struct DirView {
    pub name: Seq<char>,
    pub path: Seq<char>,
    pub files: Seq<u64>,
    pub subdirs: Seq<DirView>,
}

/// Abstracts a snapshot, recursively abstracting its subdirectories.
pub open spec fn dir_view(d: DirTree) -> DirView
    decreases d,
{
    DirView {
        name: d.name@,
        path: d.path@,
        files: d.files@,
        subdirs: subdirs_view(d.subdirs@),
    }
}

/// Abstracts a sequence of snapshots elementwise.
pub open spec fn subdirs_view(s: Seq<DirTree>) -> Seq<DirView>
    decreases s,
{
    if s.len() == 0 {
        Seq::empty()
    } else {
        subdirs_view(s.drop_last()).push(dir_view(s.last()))
    }
}

/// The view of a snapshot sequence has the same length and abstracts
/// elementwise.
pub proof fn lemma_subdirs_view_index(s: Seq<DirTree>, i: int)
    requires
        0 <= i < s.len(),
    ensures
        subdirs_view(s).len() == s.len(),
        subdirs_view(s)[i] == dir_view(s[i]),
    decreases s.len(),
{
    lemma_subdirs_view_len(s);
    if i < s.len() - 1 {
        lemma_subdirs_view_index(s.drop_last(), i);
    }
}

/// The view of a snapshot sequence has the same length.
pub proof fn lemma_subdirs_view_len(s: Seq<DirTree>)
    ensures
        subdirs_view(s).len() == s.len(),
    decreases s.len(),
{
    if s.len() > 0 {
        lemma_subdirs_view_len(s.drop_last());
    }
}

/// The aggregate size of a directory snapshot: the bytes of its own files
/// plus, recursively, those of every subdirectory. This is what a plain
/// depth-first walk of the subtree reports.
pub open spec fn dir_total(v: DirView) -> int
    decreases v,
{
    sum_range(v.files, 0, v.files.len() as int) + subdirs_total(v.subdirs)
}

/// The aggregate sizes of a sequence of snapshots, summed.
pub open spec fn subdirs_total(s: Seq<DirView>) -> int
    decreases s,
{
    if s.len() == 0 {
        0
    } else {
        subdirs_total(s.drop_last()) + dir_total(s.last())
    }
}

/// Aggregate sizes are nonnegative.
pub proof fn lemma_dir_total_nonneg(v: DirView)
    ensures
        0 <= dir_total(v),
    decreases v,
{
    lemma_sum_range_nonneg(v.files, 0, v.files.len() as int);
    lemma_subdirs_total_nonneg(v.subdirs);
}

/// Summed aggregate sizes are nonnegative.
pub proof fn lemma_subdirs_total_nonneg(s: Seq<DirView>)
    ensures
        0 <= subdirs_total(s),
    decreases s,
{
    if s.len() > 0 {
        lemma_subdirs_total_nonneg(s.drop_last());
        lemma_dir_total_nonneg(s.last());
    }
}

/// A prefix of a snapshot sequence never outweighs the whole sequence.
pub proof fn lemma_subdirs_total_take(s: Seq<DirView>, m: int)
    requires
        0 <= m <= s.len(),
    ensures
        0 <= subdirs_total(s.take(m)) <= subdirs_total(s),
    decreases s.len(),
{
    lemma_subdirs_total_nonneg(s.take(m));
    if m == s.len() {
        assert(s.take(m) =~= s);
    } else {
        assert(s.drop_last().take(m) =~= s.take(m));
        lemma_subdirs_total_take(s.drop_last(), m);
        lemma_dir_total_nonneg(s.last());
    }
}

/// Extending a prefix of a snapshot sequence by one element adds that
/// element's aggregate size.
pub proof fn lemma_subdirs_total_take_step(s: Seq<DirView>, m: int)
    requires
        0 <= m < s.len(),
    ensures
        subdirs_total(s.take(m + 1)) == subdirs_total(s.take(m)) + dir_total(s[m]),
{
    assert(s.take(m + 1).drop_last() =~= s.take(m));
    assert(s.take(m + 1).last() == s[m]);
}

/// Every element's aggregate size is within the sum over the sequence.
pub proof fn lemma_subdirs_total_index(s: Seq<DirView>, i: int)
    requires
        0 <= i < s.len(),
    ensures
        dir_total(s[i]) <= subdirs_total(s),
    decreases s.len(),
{
    if i == s.len() - 1 {
        lemma_subdirs_total_nonneg(s.drop_last());
    } else {
        lemma_subdirs_total_index(s.drop_last(), i);
        lemma_dir_total_nonneg(s.last());
    }
}

/// The aggregate size of a directory snapshot, as a depth-first walk of
/// the whole subtree computes it: every file of every descendant counts.
pub fn calculate_directory_size(dir: &DirTree) -> (r: u64)
    requires
        dir_total(dir_view(*dir)) <= u64::MAX,
    ensures
        r == dir_total(dir_view(*dir)),
    decreases *dir,
{
    let ghost dv = dir_view(*dir);
    proof {
        lemma_sum_range_nonneg(dir.files@, 0, dir.files@.len() as int);
        lemma_subdirs_total_nonneg(dv.subdirs);
        lemma_subdirs_view_len(dir.subdirs@);
    }
    let mut total: u64 = 0;
    let mut i: usize = 0;
    let nf = dir.files.len();
    while i < nf
        invariant
            nf == dir.files@.len(),
            0 <= i <= nf,
            dir_total(dv) <= u64::MAX,
            dv == dir_view(*dir),
            0 <= subdirs_total(dv.subdirs),
            total == sum_range(dir.files@, 0, i as int),
        decreases nf - i,
    {
        proof {
            lemma_sum_range_mono(dir.files@, 0, i + 1, nf as int);
        }
        total = total + dir.files[i];
        i = i + 1;
    }
    let mut j: usize = 0;
    let nd = dir.subdirs.len();
    while j < nd
        invariant
            nd == dir.subdirs@.len(),
            0 <= j <= nd,
            dir_total(dv) <= u64::MAX,
            dv == dir_view(*dir),
            subdirs_view(dir.subdirs@).len() == nd,
            total == sum_range(dir.files@, 0, dir.files@.len() as int) + subdirs_total(
                dv.subdirs.take(j as int),
            ),
        decreases nd - j,
    {
        proof {
            lemma_subdirs_view_index(dir.subdirs@, j as int);
            lemma_subdirs_total_index(dv.subdirs, j as int);
            lemma_subdirs_total_take(dv.subdirs, j as int);
            lemma_subdirs_total_take_step(dv.subdirs, j as int);
            lemma_subdirs_total_take(dv.subdirs, j + 1);
            lemma_sum_range_nonneg(dir.files@, 0, dir.files@.len() as int);
            lemma_dir_total_nonneg(dv.subdirs[j as int]);
            assert(decreases_to!(*dir => dir.subdirs@[j as int]));
        }
        let sub_size = calculate_directory_size(&dir.subdirs[j]);
        total = total + sub_size;
        j = j + 1;
    }
    proof {
        assert(dv.subdirs.take(nd as int) =~= dv.subdirs);
    }
    total
}

/// The subdirectories one scan pass sizes: all of them when their count is
/// within the fan-out threshold, and only the first batch of workers'
/// worth otherwise (the rest are left out of that pass entirely).
pub open spec fn picked_subdirs(s: Seq<DirView>) -> Seq<DirView> {
    if s.len() > FAN_OUT_THRESHOLD {
        s.take(MAX_PARALLEL_WORKERS as int)
    } else {
        s
    }
}

/// The tree that scanning a snapshot produces. The node's size is its own
/// file bytes plus the aggregate sizes of the subdirectories the pass
/// picked; each picked subdirectory becomes a child, expanded into a full
/// subtree only when its aggregate size strictly exceeds the deep-scan
/// threshold, and a size-only leaf otherwise. Note that a deep-scanned
/// child is rescanned with the same picking rule, so its recorded size can
/// fall short of the aggregate size that entered its parent's total.
pub open spec fn scan_node_spec(v: DirView) -> NodeView
    decreases v, 0int,
{
    let picked = picked_subdirs(v.subdirs);
    NodeView {
        name: v.name,
        path: v.path,
        size: (sum_range(v.files, 0, v.files.len() as int) + subdirs_total(picked)) as u64,
        children: scan_children_spec(picked),
    }
}

/// The child nodes that scanning builds for a sequence of picked
/// subdirectory snapshots.
pub open spec fn scan_children_spec(s: Seq<DirView>) -> Seq<NodeView>
    decreases s, 0int,
{
    if s.len() == 0 {
        Seq::empty()
    } else {
        scan_children_spec(s.drop_last()).push(scan_child_spec(s.last()))
    }
}

/// One child of a scanned node: a full subtree past the deep-scan
/// threshold, a size-only leaf otherwise.
pub open spec fn scan_child_spec(d: DirView) -> NodeView
    decreases d, 1int,
{
    if dir_total(d) > DEEP_SCAN_THRESHOLD {
        scan_node_spec(d)
    } else {
        NodeView { name: d.name, path: d.path, size: dir_total(d) as u64, children: Seq::empty() }
    }
}

/// A scanned node never records more than the aggregate size of its
/// snapshot (it records less exactly when the fan-out rule dropped
/// subdirectories).
pub proof fn lemma_scan_size_le_total(v: DirView)
    ensures
        0 <= sum_range(v.files, 0, v.files.len() as int) + subdirs_total(picked_subdirs(v.subdirs))
            <= dir_total(v),
{
    lemma_sum_range_nonneg(v.files, 0, v.files.len() as int);
    if v.subdirs.len() > FAN_OUT_THRESHOLD {
        lemma_subdirs_total_take(v.subdirs, MAX_PARALLEL_WORKERS as int);
    } else {
        lemma_subdirs_total_nonneg(v.subdirs);
    }
}

/// Scans a snapshot into a size-annotated tree, exactly as
/// `scan_node_spec` describes: subdirectory sizes are computed by full
/// walks, at most a worker batch of them when the directory exceeds the
/// fan-out threshold, and only children strictly over the deep-scan
/// threshold are expanded into subtrees. The result is size-consistent.
#[verifier::loop_isolation(false)]
#[verifier::rlimit(50)]
pub fn scan_tree(dir: &DirTree) -> (r: FolderNode)
    requires
        dir_total(dir_view(*dir)) <= u64::MAX,
    ensures
        node_view(r) == scan_node_spec(dir_view(*dir)),
        wf_node(r),
    decreases *dir,
{
    let ghost dv = dir_view(*dir);
    proof {
        lemma_sum_range_nonneg(dir.files@, 0, dir.files@.len() as int);
        lemma_subdirs_total_nonneg(dv.subdirs);
        lemma_subdirs_view_len(dir.subdirs@);
        lemma_scan_size_le_total(dv);
    }
    let mut file_bytes: u64 = 0;
    let mut i: usize = 0;
    let nf = dir.files.len();
    while i < nf
        invariant
            0 <= i <= nf,
            file_bytes == sum_range(dir.files@, 0, i as int),
        decreases nf - i,
    {
        proof {
            lemma_sum_range_mono(dir.files@, 0, i + 1, nf as int);
        }
        file_bytes = file_bytes + dir.files[i];
        i = i + 1;
    }
    let nd = dir.subdirs.len();
    let picked_count = if nd > FAN_OUT_THRESHOLD {
        MAX_PARALLEL_WORKERS
    } else {
        nd
    };
    let ghost picked = picked_subdirs(dv.subdirs);
    proof {
        assert(picked =~= dv.subdirs.take(picked_count as int));
    }
    let mut total: u64 = file_bytes;
    let mut children: Vec<FolderNode> = Vec::new();
    let mut j: usize = 0;
    while j < picked_count
        invariant
            0 <= j <= picked_count,
            total == sum_range(dir.files@, 0, dir.files@.len() as int) + subdirs_total(
                dv.subdirs.take(j as int),
            ),
            children@.len() == j,
            children_view(children@) == scan_children_spec(dv.subdirs.take(j as int)),
            children_size_sum(children@) <= subdirs_total(dv.subdirs.take(j as int)),
            forall|q: int| 0 <= q < j ==> wf_node(#[trigger] children@[q]),
        decreases picked_count - j,
    {
        proof {
            lemma_subdirs_view_index(dir.subdirs@, j as int);
            lemma_subdirs_total_index(dv.subdirs, j as int);
            lemma_subdirs_total_take(dv.subdirs, j as int);
            lemma_subdirs_total_take_step(dv.subdirs, j as int);
            lemma_subdirs_total_take(dv.subdirs, j + 1);
            lemma_dir_total_nonneg(dv.subdirs[j as int]);
            assert(decreases_to!(*dir => dir.subdirs@[j as int]));
        }
        let sub = &dir.subdirs[j];
        let csize = calculate_directory_size(sub);
        let child = if csize > DEEP_SCAN_THRESHOLD {
            let c = scan_tree(sub);
            proof {
                lemma_scan_size_le_total(dv.subdirs[j as int]);
            }
            c
        } else {
            FolderNode { name: sub.name.clone(), path: sub.path.clone(), size: csize, children: Vec::new() }
        };
        proof {
            assert(node_view(child) == scan_child_spec(dv.subdirs[j as int])) by {
                if csize > DEEP_SCAN_THRESHOLD {
                } else {
                    assert(children_view(child.children@) =~= Seq::<NodeView>::empty());
                }
            }
            assert(node_view(child).size == child.size);
            assert(child.size <= dir_total(dv.subdirs[j as int])) by {
                if csize > DEEP_SCAN_THRESHOLD {
                    lemma_scan_size_le_total(dv.subdirs[j as int]);
                }
            }
            assert(wf_node(child)) by {
                if !(csize > DEEP_SCAN_THRESHOLD) {
                    assert(children_size_sum(child.children@) == 0);
                }
            }
        }
        total = total + csize;
        let ghost prev_children = children@;
        children.push(child);
        proof {
            assert(children@.drop_last() =~= prev_children);
            assert(children_size_sum(children@) == children_size_sum(prev_children) + child.size);
            assert(dv.subdirs.take(j + 1).drop_last() =~= dv.subdirs.take(j as int));
            assert(dv.subdirs.take(j + 1).last() == dv.subdirs[j as int]);
            assert(children_view(children@) == children_view(prev_children).push(
                node_view(child),
            ));
        }
        j = j + 1;
    }
    let r = FolderNode { name: dir.name.clone(), path: dir.path.clone(), size: total, children };
    proof {
        assert(node_view(r) == scan_node_spec(dv)) by {
            assert(dv.subdirs.take(picked_count as int) =~= picked);
        }
        assert(wf_node(r)) by {
            assert(children_size_sum(r.children@) <= r.size);
        }
    }
    r
}

/// What pruning with a threshold makes of a tree: the node itself is kept
/// untouched, each child below the threshold is removed, and the
/// surviving children are pruned in turn. The root is never removed.
pub open spec fn prune_spec(v: NodeView, threshold: u64) -> NodeView
    decreases v,
{
    NodeView {
        name: v.name,
        path: v.path,
        size: v.size,
        children: prune_children_spec(v.children, threshold),
    }
}

/// The surviving children of a pruned node, each pruned in turn, in their
/// original order.
pub open spec fn prune_children_spec(s: Seq<NodeView>, threshold: u64) -> Seq<NodeView>
    decreases s,
{
    if s.len() == 0 {
        Seq::empty()
    } else {
        let rest = prune_children_spec(s.drop_last(), threshold);
        if s.last().size >= threshold {
            rest.push(prune_spec(s.last(), threshold))
        } else {
            rest
        }
    }
}

/// Prunes a tree, consuming and rebuilding it.
#[verifier::loop_isolation(false)]
fn prune_tree(tree: FolderNode, threshold: u64) -> (r: FolderNode)
    ensures
        node_view(r) == prune_spec(node_view(tree), threshold),
        wf_node(tree) ==> wf_node(r),
    decreases tree,
{
    let mut node = tree;
    let mut remaining: Vec<FolderNode> = Vec::new();
    core::mem::swap(&mut node.children, &mut remaining);
    let ghost orig = remaining@;
    let ghost cv = children_view(orig);
    proof {
        crate::folder::lemma_children_view_len(orig);
        if wf_node(tree) {
            crate::folder::lemma_node_size_sum_full(orig);
        }
    }
    let mut i: usize = 0;
    let n = remaining.len();
    while i < n
        invariant
            0 <= i <= n,
            n == orig.len(),
            node.name == tree.name,
            node.path == tree.path,
            node.size == tree.size,
            remaining@ =~= orig.subrange(i as int, n as int),
            children_view(node.children@) == prune_children_spec(
                children_view(orig.take(i as int)),
                threshold,
            ),
            wf_node(tree) ==> children_size_sum(node.children@) <= crate::folder::node_size_sum(
                orig,
                i as int,
            ),
            wf_node(tree) ==> forall|q: int|
                0 <= q < node.children@.len() ==> wf_node(#[trigger] node.children@[q]),
        decreases n - i,
    {
        proof {
            crate::folder::lemma_children_view_index(orig, i as int);
            assert(remaining@[0] == orig[i as int]);
            assert(decreases_to!(tree => tree.children@[i as int]));
            assert(tree.children@[i as int] == orig[i as int]);
            if wf_node(tree) {
                assert(wf_node(orig[i as int]));
            }
        }
        let c = remaining.remove(0);
        let ghost prev_children = node.children@;
        if c.size >= threshold {
            let pc = prune_tree(c, threshold);
            proof {
                assert(node_view(pc).size == pc.size);
                assert(node_view(pc).size == node_view(c).size);
            }
            node.children.push(pc);
            proof {
                assert(node.children@.drop_last() =~= prev_children);
            }
        }
        proof {
            assert(remaining@ =~= orig.subrange(i + 1, n as int));
            assert(children_view(orig.take(i + 1)).drop_last() =~= children_view(
                orig.take(i as int),
            )) by {
                assert(orig.take(i + 1).drop_last() =~= orig.take(i as int));
                crate::folder::lemma_children_view_len(orig.take(i + 1));
                crate::folder::lemma_children_view_index(orig.take(i + 1), i as int);
                assert forall|q: int|
                    0 <= q < i implies children_view(orig.take(i + 1)).drop_last()[q]
                    == children_view(orig.take(i as int))[q] by {
                    crate::folder::lemma_children_view_index(orig.take(i + 1), q);
                    crate::folder::lemma_children_view_index(orig.take(i as int), q);
                }
                crate::folder::lemma_children_view_len(orig.take(i as int));
            }
            assert(children_view(orig.take(i + 1)).last() == cv[i as int]) by {
                crate::folder::lemma_children_view_index(orig.take(i + 1), i as int);
                crate::folder::lemma_children_view_index(orig, i as int);
            }
            assert(cv[i as int] == node_view(orig[i as int])) by {
                crate::folder::lemma_children_view_index(orig, i as int);
            }
        }
        i = i + 1;
    }
    proof {
        assert(orig.take(n as int) =~= orig);
        assert(children_view(node.children@) == prune_children_spec(cv, threshold));
        assert(node_view(node) == prune_spec(node_view(tree), threshold)) by {
            assert(node.name == tree.name && node.path == tree.path && node.size == tree.size);
        }
        if wf_node(tree) {
            crate::folder::lemma_node_size_sum_full(orig);
            assert(children_size_sum(node.children@) <= tree.size);
        }
    }
    node
}

/// Removes, at every level below the root, the children whose size falls
/// below the threshold; surviving children are filtered in turn, and the
/// node itself (the root of the filtered subtree) always stays.
pub fn filter_hierarchy(node: &mut FolderNode, threshold: u64)
    ensures
        node_view(*final(node)) == prune_spec(node_view(*old(node)), threshold),
        wf_node(*old(node)) ==> wf_node(*final(node)),
{
    let mut tmp = FolderNode::new(String::new(), String::new(), 0);
    core::mem::swap(node, &mut tmp);
    let pruned = prune_tree(tmp, threshold);
    *node = pruned;
}

/// The significance threshold for a scan of the given total size: the
/// fixed fraction (0.01%) of the total, truncated to whole bytes.
pub fn prune_threshold(total_size: u64) -> (r: u64)
    ensures
        r == total_size / SIGNIFICANCE_DIVISOR,
{
    total_size / SIGNIFICANCE_DIVISOR
}

/// Scans a snapshot and prunes the result: the tree `scan_node_spec`
/// describes, filtered with the significance threshold derived from its
/// total size.
pub fn scan_folder_hierarchy(snapshot: &DirTree) -> (r: FolderNode)
    requires
        dir_total(dir_view(*snapshot)) <= u64::MAX,
    ensures
        node_view(r) == prune_spec(
            scan_node_spec(dir_view(*snapshot)),
            scan_node_spec(dir_view(*snapshot)).size / SIGNIFICANCE_DIVISOR,
        ),
        wf_node(r),
{
    let mut node = scan_tree(snapshot);
    let threshold = prune_threshold(node.size);
    filter_hierarchy(&mut node, threshold);
    node
}

/// Why a scan failed.
#[derive(Debug, PartialEq, Eq)]
pub enum ScanError {
    /// The supplied root does not exist or is not a directory.
    NotADirectory,
    /// The top-level directory's entries could not be enumerated; the
    /// message describes the failure.
    IoError(String),
    /// A parallel sizing task could not deliver a result.
    WorkerFailure,
}

/// The milestones a scan reports progress at.
#[derive(Clone, Copy, Debug, PartialEq, Eq, Structural)]
pub enum ScanPhase {
    /// The scan of a directory has begun.
    Started,
    /// The scan is descending into a large child.
    DeepScanning,
    /// The scan has finished.
    Completed,
}

/// The coarse progress percentage reported at each milestone.
pub open spec fn progress_percent_spec(phase: ScanPhase) -> int {
    match phase {
        ScanPhase::Started => 20,
        ScanPhase::DeepScanning => 80,
        ScanPhase::Completed => 100,
    }
}

/// The progress percentage a scan reports when it reaches the given
/// milestone.
pub fn progress_percent(phase: &ScanPhase) -> (r: i32)
    ensures
        r == progress_percent_spec(*phase),
{
    match phase {
        ScanPhase::Started => 20,
        ScanPhase::DeepScanning => 80,
        ScanPhase::Completed => 100,
    }
}

/// Whether no directory anywhere in a snapshot exceeds the fan-out
/// threshold, so that no scan pass drops a subdirectory.
pub open spec fn within_fan_out(v: DirView) -> bool
    decreases v,
{
    &&& v.subdirs.len() <= FAN_OUT_THRESHOLD
    &&& forall|i: int| 0 <= i < v.subdirs.len() ==> within_fan_out(#[trigger] v.subdirs[i])
}

/// Size invariant of scanned trees. On a snapshot where no directory
/// exceeds the fan-out threshold (so nothing is dropped), every scanned
/// node records exactly the byte total of its snapshot subtree, and that
/// total is the node's own file bytes plus the sum of its children's
/// recorded sizes.
pub proof fn lemma_scan_size_invariant(v: DirView)
    requires
        within_fan_out(v),
        dir_total(v) <= u64::MAX,
    ensures
        scan_node_spec(v).size == dir_total(v),
        scan_node_spec(v).size == sum_range(v.files, 0, v.files.len() as int)
            + view_children_size_sum(scan_node_spec(v).children),
        scan_node_spec(v).children.len() == v.subdirs.len(),
        forall|i: int|
            0 <= i < v.subdirs.len() ==> scan_node_spec(v).children[i].size == dir_total(
                #[trigger] v.subdirs[i],
            ),
    decreases v,
{
    lemma_sum_range_nonneg(v.files, 0, v.files.len() as int);
    lemma_subdirs_total_nonneg(v.subdirs);
    lemma_scan_children_sizes(v.subdirs);
}

/// The children scanned from a sequence of snapshots carry exactly the
/// snapshots' aggregate sizes, and their sizes sum to the sequence's
/// total (when no directory within exceeds the fan-out threshold).
proof fn lemma_scan_children_sizes(s: Seq<DirView>)
    requires
        subdirs_total(s) <= u64::MAX,
        forall|i: int| 0 <= i < s.len() ==> within_fan_out(#[trigger] s[i]),
    ensures
        scan_children_spec(s).len() == s.len(),
        view_children_size_sum(scan_children_spec(s)) == subdirs_total(s),
        forall|i: int|
            0 <= i < s.len() ==> scan_children_spec(s)[i].size == dir_total(#[trigger] s[i]),
    decreases s,
{
    if s.len() > 0 {
        lemma_subdirs_total_nonneg(s.drop_last());
        lemma_dir_total_nonneg(s.last());
        lemma_scan_children_sizes(s.drop_last());
        assert(s[s.len() - 1] == s.last());
        assert(within_fan_out(s.last()));
        assert(dir_total(s.last()) <= u64::MAX);
        if dir_total(s.last()) > DEEP_SCAN_THRESHOLD {
            lemma_scan_size_invariant(s.last());
        }
        assert(scan_child_spec(s.last()).size == dir_total(s.last()));
        assert(scan_children_spec(s).drop_last() =~= scan_children_spec(s.drop_last()));
        assert(scan_children_spec(s).last() == scan_child_spec(s.last()));
        assert(view_children_size_sum(scan_children_spec(s)) == view_children_size_sum(
            scan_children_spec(s.drop_last()),
        ) + scan_child_spec(s.last()).size);
        assert forall|i: int|
            0 <= i < s.len() implies scan_children_spec(s)[i].size == dir_total(
            #[trigger] s[i],
        ) by {
            if i < s.len() - 1 {
                assert(scan_children_spec(s)[i] == scan_children_spec(s.drop_last())[i]);
                assert(s.drop_last()[i] == s[i]);
            }
        }
    }
}

/// Whether every node strictly below a root has at least the given size.
pub open spec fn all_descendants_significant(v: NodeView, threshold: u64) -> bool
    decreases v,
{
    forall|i: int|
        0 <= i < v.children.len() ==> (#[trigger] v.children[i]).size >= threshold
            && all_descendants_significant(v.children[i], threshold)
}

/// Every surviving child of a pruned node is the pruned form of one of the
/// original children, one whose size reaches the threshold.
pub proof fn lemma_prune_children_from_original(s: Seq<NodeView>, threshold: u64, i: int)
    requires
        0 <= i < prune_children_spec(s, threshold).len(),
    ensures
        exists|j: int|
            0 <= j < s.len() && s[j].size >= threshold && prune_children_spec(s, threshold)[i]
                == prune_spec(#[trigger] s[j], threshold),
    decreases s,
{
    if s.len() > 0 {
        let rest = prune_children_spec(s.drop_last(), threshold);
        if s.last().size >= threshold && i == rest.len() {
            assert(s[s.len() - 1].size >= threshold && prune_children_spec(s, threshold)[i]
                == prune_spec(s[s.len() - 1], threshold));
        } else {
            lemma_prune_children_from_original(s.drop_last(), threshold, i);
            let j = choose|j: int|
                0 <= j < s.drop_last().len() && s.drop_last()[j].size >= threshold
                    && prune_children_spec(s.drop_last(), threshold)[i] == prune_spec(
                    #[trigger] s.drop_last()[j],
                    threshold,
                );
            assert(s[j].size >= threshold && prune_children_spec(s, threshold)[i] == prune_spec(
                s[j],
                threshold,
            ));
        }
    }
}

/// Pruning invariant: after filtering with a threshold, no node below the
/// root has a size under the threshold (the root itself is never removed,
/// whatever its size).
pub proof fn lemma_prune_keeps_significant(v: NodeView, threshold: u64)
    ensures
        all_descendants_significant(prune_spec(v, threshold), threshold),
    decreases v,
{
    let p = prune_spec(v, threshold);
    assert forall|i: int|
        0 <= i < p.children.len() implies (#[trigger] p.children[i]).size >= threshold
        && all_descendants_significant(p.children[i], threshold) by {
        lemma_prune_children_from_original(v.children, threshold, i);
        let j = choose|j: int|
            0 <= j < v.children.len() && v.children[j].size >= threshold && prune_children_spec(
                v.children,
                threshold,
            )[i] == prune_spec(#[trigger] v.children[j], threshold);
        lemma_prune_keeps_significant(v.children[j], threshold);
    }
}

} // verus!
