//! The size-annotated directory tree that the scanner builds and the
//! layout engine consumes.

use vstd::prelude::*;

verus! {

/// One directory in the scanned hierarchy: its display name, its absolute
/// path, the aggregate size in bytes of the regular files in its subtree,
/// and the child directories that the scanner expanded.
pub struct FolderNode {
    pub name: String,
    pub path: String,
    pub size: u64,
    pub children: Vec<FolderNode>,
}

/// The mathematical shape of a `FolderNode`: the same fields with every
/// container replaced by its abstract value.
pub struct NodeView {
    pub name: Seq<char>,
    pub path: Seq<char>,
    pub size: u64,
    pub children: Seq<NodeView>,
}

/// Abstracts a node, recursively abstracting its children.
pub open spec fn node_view(n: FolderNode) -> NodeView
    decreases n,
{
    NodeView {
        name: n.name@,
        path: n.path@,
        size: n.size,
        children: children_view(n.children@),
    }
}

/// Abstracts a sequence of nodes elementwise.
pub open spec fn children_view(s: Seq<FolderNode>) -> Seq<NodeView>
    decreases s,
{
    if s.len() == 0 {
        Seq::empty()
    } else {
        children_view(s.drop_last()).push(node_view(s.last()))
    }
}

/// The view of a node sequence has the same length and abstracts
/// elementwise.
pub proof fn lemma_children_view_index(s: Seq<FolderNode>, i: int)
    requires
        0 <= i < s.len(),
    ensures
        children_view(s).len() == s.len(),
        children_view(s)[i] == node_view(s[i]),
    decreases s.len(),
{
    lemma_children_view_len(s);
    if i < s.len() - 1 {
        lemma_children_view_index(s.drop_last(), i);
    }
}

/// The view of a node sequence has the same length.
pub proof fn lemma_children_view_len(s: Seq<FolderNode>)
    ensures
        children_view(s).len() == s.len(),
    decreases s.len(),
{
    if s.len() > 0 {
        lemma_children_view_len(s.drop_last());
    }
}

/// The sum of the `size` fields of a sequence of nodes.
pub open spec fn children_size_sum(s: Seq<FolderNode>) -> int
    decreases s,
{
    if s.len() == 0 {
        0
    } else {
        children_size_sum(s.drop_last()) + s.last().size
    }
}

/// The sum of the `size` fields of a sequence of node views.
pub open spec fn view_children_size_sum(s: Seq<NodeView>) -> int
    decreases s,
{
    if s.len() == 0 {
        0
    } else {
        view_children_size_sum(s.drop_last()) + s.last().size
    }
}

/// Size-consistency of a scanned tree: every node's size covers at least
/// the sum of its children's sizes (a node may hold bytes of its own on
/// top of its children's).
pub open spec fn wf_node(n: FolderNode) -> bool
    decreases n,
{
    &&& children_size_sum(n.children@) <= n.size
    &&& forall|i: int| 0 <= i < n.children@.len() ==> wf_node(#[trigger] n.children@[i])
}

/// The height of a tree: one for the node itself plus the tallest child.
pub open spec fn tree_height(n: FolderNode) -> nat
    decreases n,
{
    1 + children_height(n.children@)
}

/// The tallest tree in a sequence of nodes (zero for none).
pub open spec fn children_height(s: Seq<FolderNode>) -> nat
    decreases s,
{
    if s.len() == 0 {
        0
    } else {
        let rest = children_height(s.drop_last());
        let last = tree_height(s.last());
        if last > rest {
            last
        } else {
            rest
        }
    }
}

/// Every child is strictly shorter than its parent.
pub proof fn lemma_child_height(n: FolderNode, i: int)
    requires
        0 <= i < n.children@.len(),
    ensures
        tree_height(n.children@[i]) < tree_height(n),
{
    lemma_children_height_le(n.children@, i);
}

/// A tree in a sequence never exceeds the sequence's height.
pub proof fn lemma_children_height_le(s: Seq<FolderNode>, i: int)
    requires
        0 <= i < s.len(),
    ensures
        tree_height(s[i]) <= children_height(s),
    decreases s.len(),
{
    if i < s.len() - 1 {
        lemma_children_height_le(s.drop_last(), i);
    }
}

/// The sum of the sizes of the first `j` nodes of a sequence.
pub open spec fn node_size_sum(s: Seq<FolderNode>, j: int) -> int
    decreases j,
{
    if j <= 0 {
        0
    } else {
        node_size_sum(s, j - 1) + s[j - 1].size
    }
}

/// The sum of the sizes of those of the first `j` nodes whose size is
/// positive.
pub open spec fn pos_size_sum(s: Seq<FolderNode>, j: int) -> int
    decreases j,
{
    if j <= 0 {
        0
    } else {
        pos_size_sum(s, j - 1) + if s[j - 1].size > 0 {
            s[j - 1].size as int
        } else {
            0
        }
    }
}

/// The positive-size sum never exceeds the plain sum, and the plain prefix
/// sum never exceeds the sum over all children.
pub proof fn lemma_size_sum_bounds(s: Seq<FolderNode>, j: int)
    requires
        0 <= j <= s.len(),
    ensures
        0 <= pos_size_sum(s, j) <= node_size_sum(s, j),
        node_size_sum(s, j) <= children_size_sum(s),
    decreases s.len() + j,
{
    if j > 0 {
        lemma_size_sum_bounds(s, j - 1);
    }
    if j < s.len() {
        if s.len() > 0 {
            lemma_node_size_sum_full(s);
            lemma_size_sum_mono(s, j);
        }
    } else {
        lemma_node_size_sum_full(s);
    }
}

/// The prefix sum over the whole sequence is the children's size sum.
pub proof fn lemma_node_size_sum_full(s: Seq<FolderNode>)
    ensures
        node_size_sum(s, s.len() as int) == children_size_sum(s),
    decreases s.len(),
{
    if s.len() > 0 {
        lemma_node_size_sum_full(s.drop_last());
        assert(forall|k: int|
            0 <= k < s.len() - 1 ==> s.drop_last()[k] == s[k]);
        lemma_node_size_sum_prefix_eq(s.drop_last(), s, s.len() - 1);
    }
}

/// Prefix sums agree on sequences that agree on the prefix.
proof fn lemma_node_size_sum_prefix_eq(s1: Seq<FolderNode>, s2: Seq<FolderNode>, j: int)
    requires
        0 <= j <= s1.len(),
        j <= s2.len(),
        forall|k: int| 0 <= k < j ==> s1[k] == s2[k],
    ensures
        node_size_sum(s1, j) == node_size_sum(s2, j),
    decreases j,
{
    if j > 0 {
        lemma_node_size_sum_prefix_eq(s1, s2, j - 1);
    }
}

/// Prefix sums of sizes grow monotonically.
proof fn lemma_size_sum_mono(s: Seq<FolderNode>, j: int)
    requires
        0 <= j <= s.len(),
    ensures
        node_size_sum(s, j) <= node_size_sum(s, s.len() as int),
    decreases s.len() - j,
{
    if j < s.len() {
        lemma_size_sum_mono(s, j + 1);
    }
}

/// Inserts a node view into a size-descending sequence: it lands after
/// every element of at least its size, so nodes of equal size keep their
/// order of arrival (a stable sort).
pub open spec fn insert_by_size(s: Seq<NodeView>, x: NodeView) -> Seq<NodeView>
    decreases s.len(),
{
    if s.len() == 0 {
        seq![x]
    } else if s.first().size >= x.size {
        seq![s.first()] + insert_by_size(s.drop_first(), x)
    } else {
        seq![x] + s
    }
}

/// The stable size-descending sort of a tree: every node keeps its fields,
/// its children are each sorted and then ordered by size, largest first.
pub open spec fn sort_tree(v: NodeView) -> NodeView
    decreases v,
{
    NodeView { name: v.name, path: v.path, size: v.size, children: sort_forest(v.children) }
}

/// The sorted forms of a sequence of node views, ordered by size
/// descending, equal sizes keeping their original order.
pub open spec fn sort_forest(s: Seq<NodeView>) -> Seq<NodeView>
    decreases s,
{
    if s.len() == 0 {
        Seq::empty()
    } else {
        insert_by_size(sort_forest(s.drop_last()), sort_tree(s.last()))
    }
}

/// Whether a sequence of node views is ordered by size, largest first.
pub open spec fn sorted_desc(s: Seq<NodeView>) -> bool {
    forall|i: int, j: int| 0 <= i < j < s.len() ==> s[i].size >= s[j].size
}

/// Whether every node of a tree has size-descending children, recursively.
pub open spec fn tree_sorted(v: NodeView) -> bool
    decreases v,
{
    &&& sorted_desc(v.children)
    &&& forall|i: int| 0 <= i < v.children.len() ==> tree_sorted(#[trigger] v.children[i])
}

/// Inserting into a size-descending sequence at the first position whose
/// element is smaller is exactly what `insert_by_size` does.
pub proof fn lemma_insert_by_size_at(s: Seq<NodeView>, x: NodeView, p: int)
    requires
        0 <= p <= s.len(),
        forall|k: int| 0 <= k < p ==> s[k].size >= x.size,
        p < s.len() ==> s[p].size < x.size,
    ensures
        insert_by_size(s, x) =~= s.insert(p, x),
    decreases s.len(),
{
    s.insert_ensures(p, x);
    if s.len() == 0 {
    } else if p == 0 {
    } else {
        lemma_insert_by_size_at(s.drop_first(), x, p - 1);
        s.drop_first().insert_ensures(p - 1, x);
        assert(forall|k: int| 0 <= k < p - 1 ==> s.drop_first()[k] == s[k + 1]);
    }
}

/// Insertion by size keeps a sequence size-descending.
pub proof fn lemma_insert_by_size_sorted(s: Seq<NodeView>, x: NodeView)
    requires
        sorted_desc(s),
    ensures
        sorted_desc(insert_by_size(s, x)),
        insert_by_size(s, x).len() == s.len() + 1,
    decreases s.len(),
{
    if s.len() == 0 {
    } else if s.first().size >= x.size {
        assert(sorted_desc(s.drop_first())) by {
            assert(forall|k: int| 0 <= k < s.len() - 1 ==> s.drop_first()[k] == s[k + 1]);
        }
        lemma_insert_by_size_sorted(s.drop_first(), x);
        let t = insert_by_size(s, x);
        let rest = insert_by_size(s.drop_first(), x);
        assert forall|i: int, j: int| 0 <= i < j < t.len() implies t[i].size >= t[j].size by {
            if i == 0 {
                assert(t[0] == s.first());
                assert(t[j] == rest[j - 1]);
                lemma_insert_member_size(s.drop_first(), x, j - 1);
            } else {
                assert(t[i] == rest[i - 1] && t[j] == rest[j - 1]);
            }
        }
    } else {
    }
}

/// Insertion by size grows a sequence by exactly one element.
pub proof fn lemma_insert_by_size_len(s: Seq<NodeView>, x: NodeView)
    ensures
        insert_by_size(s, x).len() == s.len() + 1,
    decreases s.len(),
{
    if s.len() > 0 && s.first().size >= x.size {
        lemma_insert_by_size_len(s.drop_first(), x);
    }
}

/// Every member of an inserted sequence is the inserted element or a
/// member of the original.
proof fn lemma_insert_member_size(s: Seq<NodeView>, x: NodeView, j: int)
    requires
        0 <= j < insert_by_size(s, x).len(),
    ensures
        insert_by_size(s, x)[j] == x || s.contains(insert_by_size(s, x)[j]),
        insert_by_size(s, x).len() == s.len() + 1,
    decreases s.len(),
{
    lemma_insert_by_size_len(s, x);
    if s.len() == 0 {
    } else if s.first().size >= x.size {
        lemma_insert_by_size_len(s.drop_first(), x);
        if j == 0 {
            assert(s[0] == s.first());
            assert(s.contains(s.first()));
        } else {
            lemma_insert_member_size(s.drop_first(), x, j - 1);
            let e = insert_by_size(s.drop_first(), x)[j - 1];
            if e != x {
                let w = choose|w: int| 0 <= w < s.drop_first().len() && s.drop_first()[w] == e;
                assert(s[w + 1] == e);
            }
        }
    } else {
        if j > 0 {
            assert(insert_by_size(s, x)[j] == s[j - 1]);
        }
    }
}

/// The sorted forms of a forest are ordered by size, largest first.
pub proof fn lemma_sort_forest_sorted(s: Seq<NodeView>)
    ensures
        sorted_desc(sort_forest(s)),
        sort_forest(s).len() == s.len(),
    decreases s,
{
    if s.len() > 0 {
        lemma_sort_forest_sorted(s.drop_last());
        lemma_insert_by_size_sorted(sort_forest(s.drop_last()), sort_tree(s.last()));
    }
}

/// Inserting by size adds exactly the inserted element to the multiset of
/// a sequence.
pub proof fn lemma_insert_by_size_multiset(s: Seq<NodeView>, x: NodeView)
    ensures
        insert_by_size(s, x).to_multiset() =~= s.to_multiset().insert(x),
    decreases s.len(),
{
    broadcast use vstd::seq_lib::group_to_multiset_ensures;

    if s.len() == 0 {
        assert(seq![x] =~= Seq::<NodeView>::empty().push(x));
        assert(Seq::<NodeView>::empty().push(x).to_multiset() =~= Seq::<
            NodeView,
        >::empty().to_multiset().insert(x));
    } else if s.first().size >= x.size {
        lemma_insert_by_size_multiset(s.drop_first(), x);
        let t = insert_by_size(s, x);
        let p = first_smaller_pos(s, x);
        lemma_first_smaller_pos(s, x);
        lemma_insert_by_size_at(s, x, p);
        s.insert_ensures(p, x);
        assert(t.remove(p) =~= s);
        assert(t.remove(p).to_multiset() =~= t.to_multiset().remove(t[p]));
        assert(t[p] == x);
        assert(t.contains(x));
        assert(t.to_multiset().count(x) > 0);
        assert forall|e: NodeView| #[trigger] insert_by_size(s, x).to_multiset().count(e)
            == s.to_multiset().insert(x).count(e) by {
            if e == x {
                assert(s.to_multiset().count(x) == t.to_multiset().remove(x).count(x));
            } else {
                assert(s.to_multiset().count(e) == t.to_multiset().remove(x).count(e));
            }
        }
    } else {
        assert(insert_by_size(s, x) =~= s.insert(0, x));
        s.insert_ensures(0, x);
        let t = s.insert(0, x);
        assert(t.remove(0) =~= s);
        assert(t.remove(0).to_multiset() =~= t.to_multiset().remove(t[0]));
        assert(t[0] == x);
        assert(t.contains(x));
        assert(t.to_multiset().count(x) > 0);
        assert forall|e: NodeView| #[trigger] insert_by_size(s, x).to_multiset().count(e)
            == s.to_multiset().insert(x).count(e) by {
            if e == x {
                assert(s.to_multiset().count(x) == t.to_multiset().remove(x).count(x));
            } else {
                assert(s.to_multiset().count(e) == t.to_multiset().remove(x).count(e));
            }
        }
    }
}

/// The first position in a sequence whose element is smaller than `x`
/// (the sequence's length when none is).
pub open spec fn first_smaller_pos(s: Seq<NodeView>, x: NodeView) -> int
    decreases s.len(),
{
    if s.len() == 0 {
        0
    } else if s.first().size < x.size {
        0
    } else {
        1 + first_smaller_pos(s.drop_first(), x)
    }
}

/// The first smaller position is in range, everything before it is at
/// least `x`'s size, and the element there (when any) is smaller.
pub proof fn lemma_first_smaller_pos(s: Seq<NodeView>, x: NodeView)
    ensures
        0 <= first_smaller_pos(s, x) <= s.len(),
        forall|k: int| 0 <= k < first_smaller_pos(s, x) ==> s[k].size >= x.size,
        first_smaller_pos(s, x) < s.len() ==> s[first_smaller_pos(s, x)].size < x.size,
    decreases s.len(),
{
    if s.len() > 0 && s.first().size >= x.size {
        lemma_first_smaller_pos(s.drop_first(), x);
        assert forall|k: int| 0 <= k < first_smaller_pos(s, x) implies s[k].size >= x.size by {
            if k > 0 {
                assert(s.drop_first()[k - 1] == s[k]);
            }
        }
        if first_smaller_pos(s, x) < s.len() {
            assert(s.drop_first()[first_smaller_pos(s.drop_first(), x)] == s[first_smaller_pos(
                s,
                x,
            )]);
        }
    }
}

/// Sorting a forest permutes the sorted forms of its members: the
/// multiset of the result is the multiset of the members' sorted forms.
pub proof fn lemma_sort_forest_permutes(s: Seq<NodeView>)
    ensures
        sort_forest(s).to_multiset() =~= s.map_values(|v: NodeView| sort_tree(v)).to_multiset(),
    decreases s,
{
    broadcast use vstd::seq_lib::group_to_multiset_ensures;

    if s.len() == 0 {
        assert(s.map_values(|v: NodeView| sort_tree(v)) =~= Seq::<NodeView>::empty());
    } else {
        lemma_sort_forest_permutes(s.drop_last());
        lemma_insert_by_size_multiset(sort_forest(s.drop_last()), sort_tree(s.last()));
        let m = s.map_values(|v: NodeView| sort_tree(v));
        assert(m =~= s.drop_last().map_values(|v: NodeView| sort_tree(v)).push(
            sort_tree(s.last()),
        ));
        assert(s.drop_last().map_values(|v: NodeView| sort_tree(v)).push(
            sort_tree(s.last()),
        ).to_multiset() =~= s.drop_last().map_values(
            |v: NodeView| sort_tree(v),
        ).to_multiset().insert(sort_tree(s.last())));
    }
}

/// Every member of a sorted forest is the sorted form of a member of the
/// original forest.
pub proof fn lemma_sort_forest_member(s: Seq<NodeView>, i: int)
    requires
        0 <= i < sort_forest(s).len(),
    ensures
        exists|j: int| 0 <= j < s.len() && sort_forest(s)[i] == sort_tree(#[trigger] s[j]),
{
    broadcast use vstd::seq_lib::group_to_multiset_ensures;

    lemma_sort_forest_permutes(s);
    let m = s.map_values(|v: NodeView| sort_tree(v));
    assert(sort_forest(s).contains(sort_forest(s)[i]));
    assert(sort_forest(s).to_multiset().count(sort_forest(s)[i]) > 0);
    assert(m.to_multiset().count(sort_forest(s)[i]) > 0);
    assert(m.contains(sort_forest(s)[i]));
    let j = choose|j: int| 0 <= j < m.len() && m[j] == sort_forest(s)[i];
    assert(sort_forest(s)[i] == sort_tree(s[j]));
}

/// Sorting a tree leaves every node's children ordered by size,
/// recursively.
pub proof fn lemma_sort_tree_sorted(v: NodeView)
    ensures
        tree_sorted(sort_tree(v)),
    decreases v,
{
    lemma_sort_forest_sorted(v.children);
    let t = sort_tree(v);
    assert forall|i: int| 0 <= i < t.children.len() implies tree_sorted(
        #[trigger] t.children[i],
    ) by {
        lemma_sort_forest_member(v.children, i);
        let j = choose|j: int|
            0 <= j < v.children.len() && sort_forest(v.children)[i] == sort_tree(
                #[trigger] v.children[j],
            );
        lemma_sort_tree_sorted(v.children[j]);
    }
}

/// Abstraction commutes with insertion into a node sequence.
pub proof fn lemma_children_view_insert(s: Seq<FolderNode>, p: int, x: FolderNode)
    requires
        0 <= p <= s.len(),
    ensures
        children_view(s.insert(p, x)) =~= children_view(s).insert(p, node_view(x)),
{
    s.insert_ensures(p, x);
    lemma_children_view_len(s);
    children_view(s).insert_ensures(p, node_view(x));
    lemma_children_view_len(s.insert(p, x));
    assert forall|k: int| 0 <= k < s.len() + 1 implies children_view(s.insert(p, x))[k]
        == children_view(s).insert(p, node_view(x))[k] by {
        lemma_children_view_index(s.insert(p, x), k);
        if k < p {
            lemma_children_view_index(s, k);
        } else if k > p {
            lemma_children_view_index(s, k - 1);
            assert(s.insert(p, x)[(k - 1) + 1] == s[k - 1]);
        }
    }
}

/// Inserting a node anywhere adds exactly its size to the size sum.
pub proof fn lemma_children_size_sum_insert(s: Seq<FolderNode>, p: int, x: FolderNode)
    requires
        0 <= p <= s.len(),
    ensures
        children_size_sum(s.insert(p, x)) == children_size_sum(s) + x.size,
    decreases s.len() - p,
{
    s.insert_ensures(p, x);
    if p == s.len() {
        assert(s.insert(p, x) =~= s.push(x));
        assert(s.push(x).drop_last() =~= s);
    } else {
        let t = s.insert(p, x);
        assert(t.drop_last() =~= s.drop_last().insert(p, x)) by {
            s.drop_last().insert_ensures(p, x);
        }
        lemma_children_size_sum_insert(s.drop_last(), p, x);
        assert(t.last() == s.last());
    }
}

/// Sorts a tree, consuming and rebuilding it.
#[verifier::loop_isolation(false)]
#[verifier::rlimit(50)]
fn sort_tree_exec(tree: FolderNode) -> (r: FolderNode)
    ensures
        node_view(r) == sort_tree(node_view(tree)),
        wf_node(tree) ==> wf_node(r),
    decreases tree,
{
    let mut node = tree;
    let mut remaining: Vec<FolderNode> = Vec::new();
    core::mem::swap(&mut node.children, &mut remaining);
    let ghost orig = remaining@;
    let ghost cv = children_view(orig);
    proof {
        lemma_children_view_len(orig);
        if wf_node(tree) {
            lemma_node_size_sum_full(orig);
        }
    }
    let mut i: usize = 0;
    let n = remaining.len();
    while i < n
        invariant
            0 <= i <= n,
            n == orig.len(),
            node.name == tree.name,
            node.path == tree.path,
            node.size == tree.size,
            remaining@ =~= orig.subrange(i as int, n as int),
            node.children@.len() == i,
            children_view(node.children@) == sort_forest(cv.take(i as int)),
            wf_node(tree) ==> children_size_sum(node.children@) == node_size_sum(orig, i as int),
            wf_node(tree) ==> forall|q: int|
                0 <= q < node.children@.len() ==> wf_node(#[trigger] node.children@[q]),
        decreases n - i,
    {
        proof {
            lemma_children_view_index(orig, i as int);
            assert(remaining@[0] == orig[i as int]);
            assert(decreases_to!(tree => tree.children@[i as int]));
            assert(tree.children@[i as int] == orig[i as int]);
            if wf_node(tree) {
                assert(wf_node(orig[i as int]));
            }
        }
        let c = remaining.remove(0);
        let sc = sort_tree_exec(c);
        proof {
            assert(node_view(sc) == sort_tree(cv[i as int]));
            assert(node_view(sc).size == sc.size);
            assert(sc.size == c.size);
        }
        let mut p: usize = 0;
        while p < node.children.len() && node.children[p].size >= sc.size
            invariant
                0 <= p <= node.children@.len(),
                forall|k: int| 0 <= k < p ==> node.children@[k].size >= sc.size,
            decreases node.children@.len() - p,
        {
            p = p + 1;
        }
        let ghost prev = node.children@;
        let ghost pv = children_view(prev);
        node.children.insert(p, sc);
        proof {
            lemma_children_view_len(prev);
            assert forall|k: int| 0 <= k < pv.len() implies pv[k].size == prev[k].size by {
                lemma_children_view_index(prev, k);
            }
            lemma_insert_by_size_at(pv, node_view(sc), p as int);
            lemma_children_view_insert(prev, p as int, sc);
            assert(children_view(node.children@) =~= insert_by_size(pv, node_view(sc)));
            assert(cv.take(i + 1).drop_last() =~= cv.take(i as int));
            assert(cv.take(i + 1).last() == cv[i as int]);
            assert(sort_forest(cv.take(i + 1)) == insert_by_size(
                sort_forest(cv.take(i as int)),
                sort_tree(cv[i as int]),
            ));
            lemma_insert_by_size_len(pv, node_view(sc));
            if wf_node(tree) {
                lemma_children_size_sum_insert(prev, p as int, sc);
                assert forall|q: int|
                    0 <= q < node.children@.len() implies wf_node(
                    #[trigger] node.children@[q],
                ) by {
                    prev.insert_ensures(p as int, sc);
                    if q < p {
                        assert(node.children@[q] == prev[q]);
                    } else if q > p {
                        assert(node.children@[q] == prev[q - 1]);
                    }
                }
            }
            assert(remaining@ =~= orig.subrange(i + 1, n as int));
        }
        i = i + 1;
    }
    proof {
        assert(cv.take(n as int) =~= cv);
        assert(node_view(node) == sort_tree(node_view(tree)));
        if wf_node(tree) {
            lemma_node_size_sum_full(orig);
            assert(children_size_sum(node.children@) <= node.size);
        }
    }
    node
}

impl FolderNode {
    /// Creates a node with no children.
    pub fn new(name: String, path: String, size: u64) -> (r: FolderNode)
        ensures
            node_view(r) == (NodeView {
                name: name@,
                path: path@,
                size: size,
                children: Seq::<NodeView>::empty(),
            }),
    {
        FolderNode { name, path, size, children: Vec::new() }
    }

    /// Appends a child to this node's child list.
    pub fn add_child(&mut self, child: FolderNode)
        ensures
            node_view(*final(self)) == (NodeView {
                children: node_view(*old(self)).children.push(node_view(child)),
                ..node_view(*old(self))
            }),
    {
        self.children.push(child);
        proof {
            assert(self.children@.drop_last() =~= old(self).children@);
        }
    }

    /// Reorders this node's children by size, largest first, recursively;
    /// children of equal size keep their relative order, and nothing but
    /// the order changes.
    pub fn sort_children(&mut self)
        ensures
            node_view(*final(self)) == sort_tree(node_view(*old(self))),
            wf_node(*old(self)) ==> wf_node(*final(self)),
    {
        let mut tmp = FolderNode::new(String::new(), String::new(), 0);
        core::mem::swap(self, &mut tmp);
        let sorted = sort_tree_exec(tmp);
        *self = sorted;
    }
}

} // verus!
