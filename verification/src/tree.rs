//! The tree model: an arena of nodes addressed by stable indices.
//!
//! A node's `left` and `right` links are owned-child references into the
//! same arena; a separate per-node thread slot (held in `Tree::threads`)
//! carries the temporary non-owning back-references that the traversal
//! installs and removes.  Every child index is strictly smaller than its
//! parent's index, which makes the child relation well founded, and no
//! index is the child of two parents, so the reachable structure is a
//! simple rooted binary tree.

use vstd::prelude::*;

verus! {

/// One tree vertex: an opaque payload and the two owned child links.
#[derive(Clone, Copy)]
pub struct Node {
    pub value: i32,
    pub left: Option<usize>,
    pub right: Option<usize>,
}

impl Node {
    /// Build a vertex from its payload and child links.
    pub fn new(value: i32, left: Option<usize>, right: Option<usize>) -> (n: Node)
        ensures
            n.value == value,
            n.left == left,
            n.right == right,
    {
        Node { value, left, right }
    }
}

/// A binary tree: the node arena, one thread slot per node, and the root.
///
/// Exclusive access for the duration of a traversal is the caller's
/// obligation (a documented precondition), not something the tree
/// enforces; in steady state every thread slot is clear.
pub struct Tree {
    pub nodes: Vec<Node>,
    pub threads: Vec<Option<usize>>,
    pub root: Option<usize>,
}

/// Well-founded measure for recursion over arena indices.
pub open spec fn omeas(r: Option<usize>) -> nat {
    match r {
        None => 0,
        Some(i) => i as nat + 1,
    }
}

/// The left child of `i`, guarded so recursion on indices is well founded
/// on arbitrary arenas; under `parent_ok` the guard never bites.
pub open spec fn lchild(nodes: Seq<Node>, i: usize) -> Option<usize> {
    if i < nodes.len() {
        match nodes[i as int].left {
            Some(l) => if l < i { Some(l) } else { None },
            None => None,
        }
    } else {
        None
    }
}

/// The right child of `i`, guarded like `lchild`.
pub open spec fn rchild(nodes: Seq<Node>, i: usize) -> Option<usize> {
    if i < nodes.len() {
        match nodes[i as int].right {
            Some(r) => if r < i { Some(r) } else { None },
            None => None,
        }
    } else {
        None
    }
}

/// The post-order sequence of values of the subtree rooted at `r`:
/// left subtree, then right subtree, then the root's own value.
pub open spec fn postorder_of(nodes: Seq<Node>, r: Option<usize>) -> Seq<i32>
    decreases omeas(r),
{
    match r {
        None => Seq::empty(),
        Some(i) => if i < nodes.len() {
            postorder_of(nodes, lchild(nodes, i)) + postorder_of(nodes, rchild(nodes, i))
                + seq![nodes[i as int].value]
        } else {
            Seq::empty()
        },
    }
}

/// Whether index `x` lies in the subtree rooted at `r`.
pub open spec fn in_tree(nodes: Seq<Node>, x: usize, r: Option<usize>) -> bool
    decreases omeas(r),
{
    match r {
        None => false,
        Some(i) => i < nodes.len() && (x == i
            || in_tree(nodes, x, lchild(nodes, i))
            || in_tree(nodes, x, rchild(nodes, i))),
    }
}

/// The number of vertices of the subtree rooted at `r`.
pub open spec fn tsize(nodes: Seq<Node>, r: Option<usize>) -> nat
    decreases omeas(r),
{
    match r {
        None => 0,
        Some(i) => if i < nodes.len() {
            1 + tsize(nodes, lchild(nodes, i)) + tsize(nodes, rchild(nodes, i))
        } else {
            0
        },
    }
}

/// Whether `c` is an owned child (left or right) of `p`.
pub open spec fn is_child_of(nodes: Seq<Node>, c: usize, p: usize) -> bool {
    p < nodes.len() && (nodes[p as int].left == Some(c) || nodes[p as int].right == Some(c))
}

/// The arena invariant: every child link points below its parent, no
/// node has the same index as both children, and no index is the child
/// of two parents.  Together these make the reachable structure a simple
/// binary tree: finite depth, no cycles, no sharing.
pub open spec fn parent_ok(nodes: Seq<Node>) -> bool {
    &&& forall|i: usize| i < nodes.len() ==> (#[trigger] nodes[i as int].left matches Some(l)
        ==> l < i)
    &&& forall|i: usize| i < nodes.len() ==> (#[trigger] nodes[i as int].right matches Some(r)
        ==> r < i)
    &&& forall|i: usize| i < nodes.len() && #[trigger] nodes[i as int].left is Some
        && nodes[i as int].right is Some ==> nodes[i as int].left != nodes[i as int].right
    &&& forall|c: usize, p1: usize, p2: usize|
        #[trigger] is_child_of(nodes, c, p1) && #[trigger] is_child_of(nodes, c, p2) ==> p1 == p2
}

/// Whether no node of the arena holds `x` as a child.
pub open spec fn parentless(nodes: Seq<Node>, x: usize) -> bool {
    forall|p: usize| !is_child_of(nodes, x, p)
}

impl Tree {
    /// Steady-state well-formedness: a simple rooted binary tree whose
    /// root is nobody's child, with one clear thread slot per node.
    pub open spec fn wf(self) -> bool {
        &&& parent_ok(self.nodes@)
        &&& self.threads@.len() == self.nodes@.len()
        &&& forall|x: int| 0 <= x < self.threads@.len() ==> self.threads@[x] is None
        &&& self.root matches Some(r) ==> r < self.nodes@.len() && parentless(self.nodes@, r)
    }

    /// The post-order value sequence of the whole tree.
    pub open spec fn postorder(self) -> Seq<i32> {
        postorder_of(self.nodes@, self.root)
    }

    /// An empty tree: no nodes, absent root.
    pub fn new() -> (t: Tree)
        ensures
            t.wf(),
            t.nodes@.len() == 0,
            t.root is None,
    {
        Tree { nodes: Vec::new(), threads: Vec::new(), root: None }
    }

    /// Append a fresh node whose children, if present, are existing
    /// parentless nodes other than the current root; returns its index.
    /// This preserves the arena invariant and makes the new node
    /// parentless, so trees are grown bottom-up.
    pub fn add_node(&mut self, value: i32, left: Option<usize>, right: Option<usize>) -> (idx:
        usize)
        requires
            old(self).wf(),
            left matches Some(l) ==> l < old(self).nodes@.len() && parentless(
                old(self).nodes@,
                l,
            ) && old(self).root != Some(l),
            right matches Some(r) ==> r < old(self).nodes@.len() && parentless(
                old(self).nodes@,
                r,
            ) && old(self).root != Some(r),
            left is Some && right is Some ==> left != right,
        ensures
            final(self).wf(),
            idx == old(self).nodes@.len(),
            final(self).nodes@ == old(self).nodes@.push(Node { value, left, right }),
            final(self).root == old(self).root,
            parentless(final(self).nodes@, idx),
            forall|x: usize| x < idx && parentless(old(self).nodes@, x) && Some(x) != left
                && Some(x) != right ==> parentless(final(self).nodes@, x),
    {
        let idx = self.nodes.len();
        self.nodes.push(Node { value, left, right });
        self.threads.push(None);
        proof {
            let o = old(self).nodes@;
            let n = self.nodes@;
            assert forall|c: usize, p1: usize, p2: usize|
                #[trigger] is_child_of(n, c, p1) && #[trigger] is_child_of(n, c, p2)
                implies p1 == p2 by {
                if p1 < o.len() && p2 < o.len() {
                    assert(is_child_of(o, c, p1));
                    assert(is_child_of(o, c, p2));
                } else if p1 == o.len() && p2 < o.len() {
                    assert(is_child_of(o, c, p2));
                    assert(!parentless(o, c));
                } else if p2 == o.len() && p1 < o.len() {
                    assert(is_child_of(o, c, p1));
                    assert(!parentless(o, c));
                }
            }
            assert forall|p: usize| !is_child_of(n, idx, p) by {
                if p < o.len() {
                    if is_child_of(n, idx, p) {
                        assert(is_child_of(o, idx, p));
                    }
                }
            }
            assert forall|x: usize|
                x < idx && parentless(o, x) && Some(x) != left && Some(x) != right
                implies parentless(n, x) by {
                assert forall|p: usize| !is_child_of(n, x, p) by {
                    if p < o.len() {
                        if is_child_of(n, x, p) {
                            assert(is_child_of(o, x, p));
                        }
                    }
                }
            }
            if self.root is Some {
                let r = self.root->0;
                assert forall|p: usize| !is_child_of(n, r, p) by {
                    if p < o.len() {
                        if is_child_of(n, r, p) {
                            assert(is_child_of(o, r, p));
                        }
                    }
                }
            }
        }
        idx
    }

    /// Declare an existing parentless node the root of the tree.
    pub fn set_root(&mut self, r: usize)
        requires
            old(self).wf(),
            r < old(self).nodes@.len(),
            parentless(old(self).nodes@, r),
        ensures
            final(self).wf(),
            final(self).nodes@ == old(self).nodes@,
            final(self).threads@ == old(self).threads@,
            final(self).root == Some(r),
    {
        self.root = Some(r);
    }
}

/// Subtree members never exceed the root's index.
pub proof fn lemma_in_tree_le(nodes: Seq<Node>, x: usize, r: Option<usize>)
    requires
        in_tree(nodes, x, r),
    ensures
        r matches Some(i) ==> x <= i,
    decreases omeas(r),
{
    match r {
        Some(i) => {
            assert(i < nodes.len());
            if x != i {
                assert(in_tree(nodes, x, lchild(nodes, i)) || in_tree(nodes, x, rchild(nodes, i)));
                if in_tree(nodes, x, lchild(nodes, i)) {
                    lemma_in_tree_le(nodes, x, lchild(nodes, i));
                    assert(lchild(nodes, i) matches Some(li) && x <= li && li < i);
                } else {
                    lemma_in_tree_le(nodes, x, rchild(nodes, i));
                    assert(rchild(nodes, i) matches Some(ri) && x <= ri && ri < i);
                }
            }
            assert(x <= i);
        },
        None => {},
    }
}

/// Subtree membership is transitive.
pub proof fn lemma_in_tree_trans(nodes: Seq<Node>, x: usize, y: usize, r: Option<usize>)
    requires
        in_tree(nodes, x, r),
        in_tree(nodes, y, Some(x)),
    ensures
        in_tree(nodes, y, r),
    decreases omeas(r),
{
    match r {
        Some(i) => {
            if x != i {
                if in_tree(nodes, x, lchild(nodes, i)) {
                    lemma_in_tree_trans(nodes, x, y, lchild(nodes, i));
                } else {
                    lemma_in_tree_trans(nodes, x, y, rchild(nodes, i));
                }
            }
        },
        None => {},
    }
}

/// A proper member of a subtree has a parent inside that subtree.
pub proof fn lemma_member_parent(nodes: Seq<Node>, c: usize, b: usize)
    requires
        parent_ok(nodes),
        in_tree(nodes, c, Some(b)),
        c != b,
    ensures
        exists|p: usize|
            in_tree(nodes, p, Some(b)) && #[trigger] is_child_of(nodes, c, p),
    decreases b,
{
    assert(b < nodes.len());
    assert(in_tree(nodes, c, lchild(nodes, b)) || in_tree(nodes, c, rchild(nodes, b)));
    if in_tree(nodes, c, lchild(nodes, b)) {
        let l = lchild(nodes, b)->0;
        assert(lchild(nodes, b) == Some(l));
        assert(nodes[b as int].left == Some(l) && l < b);
        assert(l < nodes.len());
        if c == l {
            assert(is_child_of(nodes, c, b));
            assert(in_tree(nodes, b, Some(b)));
        } else {
            lemma_member_parent(nodes, c, l);
            let p = choose|p: usize|
                in_tree(nodes, p, Some(l)) && #[trigger] is_child_of(nodes, c, p);
            assert(in_tree(nodes, l, Some(l)));
            assert(in_tree(nodes, l, lchild(nodes, b)));
            assert(in_tree(nodes, l, Some(b)));
            lemma_in_tree_trans(nodes, l, p, Some(b));
        }
    } else {
        let r = rchild(nodes, b)->0;
        assert(rchild(nodes, b) == Some(r));
        assert(nodes[b as int].right == Some(r) && r < b);
        assert(r < nodes.len());
        if c == r {
            assert(is_child_of(nodes, c, b));
            assert(in_tree(nodes, b, Some(b)));
        } else {
            lemma_member_parent(nodes, c, r);
            let p = choose|p: usize|
                in_tree(nodes, p, Some(r)) && #[trigger] is_child_of(nodes, c, p);
            assert(in_tree(nodes, r, Some(r)));
            assert(in_tree(nodes, r, rchild(nodes, b)));
            assert(in_tree(nodes, r, Some(b)));
            lemma_in_tree_trans(nodes, r, p, Some(b));
        }
    }
}

/// Two subtrees that share a vertex are nested: one root lies in the
/// other's subtree.
pub proof fn lemma_overlap(nodes: Seq<Node>, x: usize, a: usize, b: usize)
    requires
        parent_ok(nodes),
        in_tree(nodes, x, Some(a)),
        in_tree(nodes, x, Some(b)),
        a != b,
    ensures
        in_tree(nodes, a, Some(b)) || in_tree(nodes, b, Some(a)),
    decreases a + b,
{
    if x == a {
        assert(in_tree(nodes, a, Some(b)));
    } else if x == b {
        assert(in_tree(nodes, b, Some(a)));
    } else {
        assert(a < nodes.len());
        assert(in_tree(nodes, x, lchild(nodes, a)) || in_tree(nodes, x, rchild(nodes, a)));
        let ca = if in_tree(nodes, x, lchild(nodes, a)) {
            lchild(nodes, a)->0
        } else {
            rchild(nodes, a)->0
        };
        if in_tree(nodes, x, lchild(nodes, a)) {
            assert(lchild(nodes, a) == Some(ca));
            assert(nodes[a as int].left == Some(ca) && ca < a);
            assert(in_tree(nodes, x, Some(ca)));
            assert(in_tree(nodes, ca, Some(ca)));
            assert(in_tree(nodes, ca, lchild(nodes, a)));
        } else {
            assert(rchild(nodes, a) == Some(ca));
            assert(nodes[a as int].right == Some(ca) && ca < a);
            assert(in_tree(nodes, x, Some(ca)));
            assert(in_tree(nodes, ca, Some(ca)));
            assert(in_tree(nodes, ca, rchild(nodes, a)));
        }
        assert(is_child_of(nodes, ca, a));
        assert(in_tree(nodes, ca, Some(a)));
        if ca == b {
            assert(in_tree(nodes, b, Some(a)));
        } else {
            lemma_overlap(nodes, x, ca, b);
            if in_tree(nodes, b, Some(ca)) {
                lemma_in_tree_trans(nodes, ca, b, Some(a));
            } else {
                lemma_member_parent(nodes, ca, b);
                let p = choose|p: usize|
                    in_tree(nodes, p, Some(b)) && #[trigger] is_child_of(nodes, ca, p);
                assert(p == a);
            }
        }
    }
}

/// The two child subtrees of one node never share a vertex.
pub proof fn lemma_children_disjoint(nodes: Seq<Node>, i: usize, x: usize)
    requires
        parent_ok(nodes),
        i < nodes.len(),
    ensures
        !(in_tree(nodes, x, lchild(nodes, i)) && in_tree(nodes, x, rchild(nodes, i))),
{
    if in_tree(nodes, x, lchild(nodes, i)) && in_tree(nodes, x, rchild(nodes, i)) {
        let l = lchild(nodes, i)->0;
        let r = rchild(nodes, i)->0;
        assert(is_child_of(nodes, l, i));
        assert(is_child_of(nodes, r, i));
        assert(l != r);
        lemma_overlap(nodes, x, l, r);
        if in_tree(nodes, l, Some(r)) {
            lemma_member_parent(nodes, l, r);
            let p = choose|p: usize|
                in_tree(nodes, p, Some(r)) && #[trigger] is_child_of(nodes, l, p);
            assert(p == i);
            lemma_in_tree_le(nodes, i, Some(r));
        } else {
            lemma_member_parent(nodes, r, l);
            let p = choose|p: usize|
                in_tree(nodes, p, Some(l)) && #[trigger] is_child_of(nodes, r, p);
            assert(p == i);
            lemma_in_tree_le(nodes, i, Some(l));
        }
    }
}

/// Appending a node to the arena leaves the post-order of every subtree
/// rooted at an existing index unchanged.
pub proof fn lemma_po_push(nodes: Seq<Node>, z: Node, r: Option<usize>)
    requires
        omeas(r) <= nodes.len(),
    ensures
        postorder_of(nodes.push(z), r) == postorder_of(nodes, r),
    decreases omeas(r),
{
    match r {
        Some(i) => {
            assert(nodes.push(z)[i as int] == nodes[i as int]);
            assert(lchild(nodes.push(z), i) == lchild(nodes, i));
            assert(rchild(nodes.push(z), i) == rchild(nodes, i));
            lemma_po_push(nodes, z, lchild(nodes, i));
            lemma_po_push(nodes, z, rchild(nodes, i));
        },
        None => {},
    }
}

/// Build the twelve-node example tree: 1 at the root, left subtree
/// 2 → (4 → (8, -), 5 → (9, 10 → (11, 12))), right subtree 3 → (6, 7).
pub fn build_test2() -> (t: Tree)
    ensures
        t.wf(),
        t.root is Some,
{
    let mut t = Tree::new();
    let n8 = t.add_node(8, None, None);
    let n4 = t.add_node(4, Some(n8), None);
    let n9 = t.add_node(9, None, None);
    let n11 = t.add_node(11, None, None);
    let n12 = t.add_node(12, None, None);
    let n10 = t.add_node(10, Some(n11), Some(n12));
    let n5 = t.add_node(5, Some(n9), Some(n10));
    let n2 = t.add_node(2, Some(n4), Some(n5));
    let n6 = t.add_node(6, None, None);
    let n7 = t.add_node(7, None, None);
    let n3 = t.add_node(3, Some(n6), Some(n7));
    let n1 = t.add_node(1, Some(n2), Some(n3));
    t.set_root(n1);
    t
}

} // verus!
