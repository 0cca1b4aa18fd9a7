//! The threaded post-order traversal: predecessor discovery, in-place
//! chain reversal, and the driver that stitches them into full
//! post-order output with O(1) auxiliary memory.

use vstd::prelude::*;
use crate::tree::{Node, Tree, omeas, lchild, rchild, postorder_of, in_tree, tsize, is_child_of,
    parent_ok};

verus! {

/// The right spine starting at `r`: the indices reached from `r` by
/// repeatedly following right-child links.
pub open spec fn spine_of(nodes: Seq<Node>, r: Option<usize>) -> Seq<usize>
    decreases omeas(r),
{
    match r {
        None => Seq::empty(),
        Some(i) => seq![i] + spine_of(nodes, rchild(nodes, i)),
    }
}

/// The values carried by a sequence of node indices.
pub open spec fn vals_of(nodes: Seq<Node>, sp: Seq<usize>) -> Seq<i32> {
    Seq::new(sp.len(), |t: int| nodes[sp[t] as int].value)
}

/// The post-order output of the left subtrees hanging off a spine.
pub open spec fn left_parts(nodes: Seq<Node>, sp: Seq<usize>) -> Seq<i32>
    decreases sp.len(),
{
    if sp.len() == 0 {
        Seq::empty()
    } else {
        postorder_of(nodes, lchild(nodes, sp[0])) + left_parts(nodes, sp.skip(1))
    }
}

/// A chain of distinct valid indices linked head-to-tail by right links,
/// the last link absent.
pub open spec fn chain_linked(nodes: Seq<Node>, sp: Seq<usize>) -> bool {
    &&& sp.len() >= 1
    &&& forall|j: int| 0 <= j < sp.len() ==> #[trigger] sp[j] < nodes.len()
    &&& forall|j: int, k: int| 0 <= j < k < sp.len() ==> sp[j] != sp[k]
    &&& forall|j: int| 0 <= j < sp.len() - 1 ==> nodes[#[trigger] sp[j] as int].right == Some(
        sp[j + 1],
    )
    &&& nodes[sp[sp.len() - 1] as int].right is None
}

/// The spine of a well-formed arena is such a chain, runs strictly
/// downward in indices, and stays inside the subtree it starts from.
pub proof fn lemma_spine_wf(nodes: Seq<Node>, s: usize)
    requires
        parent_ok(nodes),
        s < nodes.len(),
    ensures
        ({
            let sp = spine_of(nodes, Some(s));
            &&& chain_linked(nodes, sp)
            &&& sp[0] == s
            &&& forall|j: int| 0 <= j < sp.len() - 1 ==> sp[j + 1] < #[trigger] sp[j]
            &&& forall|j: int| 0 <= j < sp.len() ==> in_tree(nodes, #[trigger] sp[j], Some(s))
        }),
    decreases s,
{
    let sp = spine_of(nodes, Some(s));
    match rchild(nodes, s) {
        None => {
            assert(spine_of(nodes, None) =~= Seq::<usize>::empty());
            assert(sp =~= seq![s]);
            assert(nodes[s as int].right is None);
        },
        Some(rc) => {
            lemma_spine_wf(nodes, rc);
            let spr = spine_of(nodes, Some(rc));
            assert(sp =~= seq![s] + spr);
            assert(nodes[s as int].right == Some(rc));
            assert forall|j: int, k: int| 0 <= j < k < sp.len() implies sp[j] != sp[k] by {
                if j == 0 {
                    assert(in_tree(nodes, spr[k - 1], Some(rc)));
                    crate::tree::lemma_in_tree_le(nodes, spr[k - 1], Some(rc));
                }
            }
            assert forall|j: int| 0 <= j < sp.len() implies in_tree(
                nodes,
                #[trigger] sp[j],
                Some(s),
            ) by {
                if j > 0 {
                    assert(in_tree(nodes, spr[j - 1], Some(rc)));
                }
            }
        },
    }
}

/// Suffixes of a spine are themselves spines: dropping `t` entries
/// leaves the spine of the element at position `t`.
pub proof fn lemma_spine_skip(nodes: Seq<Node>, s: usize, t: int)
    requires
        parent_ok(nodes),
        s < nodes.len(),
        0 <= t < spine_of(nodes, Some(s)).len(),
    ensures
        spine_of(nodes, Some(s)).skip(t) == spine_of(nodes, Some(spine_of(nodes, Some(s))[t])),
    decreases t,
{
    let sp = spine_of(nodes, Some(s));
    lemma_spine_wf(nodes, s);
    if t == 0 {
        assert(sp.skip(0) =~= sp);
    } else {
        let rc = rchild(nodes, s)->0;
        lemma_spine_skip(nodes, rc, t - 1);
        let spr = spine_of(nodes, Some(rc));
        assert(sp.skip(t) =~= spr.skip(t - 1));
        assert(sp[t] == spr[t - 1]);
    }
}

/// Peeling one position off the left-part concatenation of a spine.
pub proof fn lemma_left_parts_step(nodes: Seq<Node>, sp: Seq<usize>, t: int)
    requires
        0 <= t < sp.len(),
    ensures
        left_parts(nodes, sp.skip(t)) == postorder_of(nodes, lchild(nodes, sp[t])) + left_parts(
            nodes,
            sp.skip(t + 1),
        ),
{
    let tail = sp.skip(t);
    assert(tail[0] == sp[t]);
    assert(tail.skip(1) =~= sp.skip(t + 1));
}

/// The spine decomposition of post-order: the whole subtree's output is
/// the left parts of its right spine followed by the spine's own values,
/// deepest first.
pub proof fn lemma_spine_unroll(nodes: Seq<Node>, s: usize)
    requires
        parent_ok(nodes),
        s < nodes.len(),
    ensures
        ({
            let sp = spine_of(nodes, Some(s));
            postorder_of(nodes, Some(s)) == left_parts(nodes, sp) + vals_of(nodes, sp).reverse()
        }),
    decreases s,
{
    let sp = spine_of(nodes, Some(s));
    lemma_spine_wf(nodes, s);
    match rchild(nodes, s) {
        None => {
            assert(spine_of(nodes, None) =~= Seq::<usize>::empty());
            assert(sp =~= seq![s]);
            assert(sp.skip(1) =~= Seq::<usize>::empty());
            assert(postorder_of(nodes, rchild(nodes, s)) =~= Seq::<i32>::empty());
            assert(left_parts(nodes, sp.skip(1)) =~= Seq::<i32>::empty());
            assert(left_parts(nodes, sp) =~= postorder_of(nodes, lchild(nodes, s)) + left_parts(
                nodes,
                sp.skip(1),
            ));
            assert(vals_of(nodes, sp).reverse() =~= seq![nodes[s as int].value]);
            assert(postorder_of(nodes, Some(s)) =~= postorder_of(nodes, lchild(nodes, s)) + seq![
                nodes[s as int].value,
            ]);
            assert(postorder_of(nodes, Some(s)) =~= left_parts(nodes, sp) + vals_of(
                nodes,
                sp,
            ).reverse());
        },
        Some(rc) => {
            lemma_spine_unroll(nodes, rc);
            let spr = spine_of(nodes, Some(rc));
            assert(sp =~= seq![s] + spr);
            assert(sp.skip(1) =~= spr);
            assert(vals_of(nodes, sp).reverse() =~= vals_of(nodes, spr).reverse() + seq![
                nodes[s as int].value,
            ]);
            assert(postorder_of(nodes, Some(s)) =~= left_parts(nodes, sp) + vals_of(
                nodes,
                sp,
            ).reverse());
        },
    }
}

/// Find the predecessor of the subtree rooted at `start`: the node
/// reached from `start` by following right links to their end.
fn find_predecessor(nodes: &Vec<Node>, start: usize) -> (p: usize)
    requires
        parent_ok(nodes@),
        start < nodes@.len(),
    ensures
        ({
            let sp = spine_of(nodes@, Some(start));
            p == sp[sp.len() - 1]
        }),
{
    proof {
        lemma_spine_wf(nodes@, start);
    }
    let ghost sp = spine_of(nodes@, Some(start));
    let mut cur = start;
    let ghost mut j: int = 0;
    while nodes[cur].right.is_some()
        invariant
            parent_ok(nodes@),
            chain_linked(nodes@, sp),
            0 <= j < sp.len(),
            cur == sp[j],
        decreases sp.len() - j,
    {
        cur = nodes[cur].right.unwrap();
        proof {
            j = j + 1;
        }
    }
    proof {
        if j < sp.len() - 1 {
            assert(nodes@[cur as int].right == Some(sp[j + 1]));
        }
    }
    cur
}

/// What in-place reversal of a chain does to the arena: the chain's
/// right links now run backwards, and nothing else moved.
pub open spec fn reversed_chain(pre: Seq<Node>, post: Seq<Node>, sp: Seq<usize>) -> bool {
    &&& post.len() == pre.len()
    &&& forall|x: int| 0 <= x < pre.len() && !sp.contains(x as usize) ==> post[x] == pre[x]
    &&& forall|j: int| 0 <= j < sp.len() ==> {
        &&& post[#[trigger] sp[j] as int].value == pre[sp[j] as int].value
        &&& post[sp[j] as int].left == pre[sp[j] as int].left
    }
    &&& forall|j: int| 1 <= j < sp.len() ==> post[#[trigger] sp[j] as int].right == Some(sp[j - 1])
    &&& post[sp[0] as int].right is None
}

/// Reverse, in place, the right links of the chain `sp` whose head is
/// `head`; afterwards the chain runs from the old tail back to the old
/// head, and returns the old tail.  Values, left links, and every node
/// off the chain are untouched.
fn reverse_chain(nodes: &mut Vec<Node>, head: usize, Ghost(sp): Ghost<Seq<usize>>) -> (newhead:
    usize)
    requires
        chain_linked(old(nodes)@, sp),
        sp[0] == head,
    ensures
        reversed_chain(old(nodes)@, final(nodes)@, sp),
        newhead == sp[sp.len() - 1],
        chain_linked(final(nodes)@, sp.reverse()),
{
    let mut prev: Option<usize> = None;
    let mut cur: Option<usize> = Some(head);
    let ghost mut j: int = 0;
    while cur.is_some()
        invariant
            chain_linked(old(nodes)@, sp),
            sp[0] == head,
            nodes@.len() == old(nodes)@.len(),
            0 <= j <= sp.len(),
            j < sp.len() ==> cur == Some(sp[j]),
            j == sp.len() ==> cur is None,
            j > 0 ==> prev == Some(sp[j - 1]),
            j == 0 ==> prev is None,
            forall|x: int| 0 <= x < old(nodes)@.len() && !sp.contains(x as usize)
                ==> nodes@[x] == old(nodes)@[x],
            forall|t: int| j <= t < sp.len() ==> nodes@[#[trigger] sp[t] as int] == old(
                nodes,
            )@[sp[t] as int],
            forall|t: int| 0 <= t < j ==> {
                &&& nodes@[#[trigger] sp[t] as int].value == old(nodes)@[sp[t] as int].value
                &&& nodes@[sp[t] as int].left == old(nodes)@[sp[t] as int].left
            },
            forall|t: int| 1 <= t < j ==> nodes@[#[trigger] sp[t] as int].right == Some(sp[t - 1]),
            j > 0 ==> nodes@[sp[0] as int].right is None,
        decreases sp.len() - j,
    {
        let i = cur.unwrap();
        let nxt = nodes[i].right;
        let mut nd = nodes[i];
        nd.right = prev;
        nodes.set(i, nd);
        prev = cur;
        cur = nxt;
        proof {
            j = j + 1;
        }
    }
    proof {
        assert(j == sp.len());
        assert forall|t: int| 0 <= t < sp.reverse().len() - 1 implies nodes@[#[trigger] sp.reverse()[t] as int].right
            == Some(sp.reverse()[t + 1]) by {
            let m = sp.len();
            assert(sp.reverse()[t] == sp[m - 1 - t]);
            assert(sp.reverse()[t + 1] == sp[m - 2 - t]);
        }
        assert(sp.reverse()[sp.len() - 1] == sp[0]);
    }
    prev.unwrap()
}

/// Walk the chain `sp` from its head, appending each node's value to
/// `out` in chain order.
fn walk_chain(nodes: &Vec<Node>, head: usize, out: &mut Vec<i32>, Ghost(sp): Ghost<Seq<usize>>)
    requires
        chain_linked(nodes@, sp),
        sp[0] == head,
    ensures
        final(out)@ == old(out)@ + vals_of(nodes@, sp),
{
    let mut cur = head;
    let ghost mut j: int = 0;
    out.push(nodes[cur].value);
    proof {
        j = 1;
        assert(out@ =~= old(out)@ + vals_of(nodes@, sp).take(1));
    }
    while nodes[cur].right.is_some()
        invariant
            chain_linked(nodes@, sp),
            0 <= j <= sp.len(),
            j < sp.len() ==> cur == sp[j - 1] && j >= 1,
            1 <= j,
            cur == sp[j - 1],
            out@ == old(out)@ + vals_of(nodes@, sp).take(j),
        decreases sp.len() - j,
    {
        proof {
            if j == sp.len() {
                assert(nodes@[cur as int].right is None);
            }
        }
        cur = nodes[cur].right.unwrap();
        out.push(nodes[cur].value);
        proof {
            assert(cur == sp[j]);
            assert(vals_of(nodes@, sp).take(j + 1) =~= vals_of(nodes@, sp).take(j) + seq![
                nodes@[sp[j] as int].value,
            ]);
            j = j + 1;
        }
    }
    proof {
        if j < sp.len() {
            assert(nodes@[cur as int].right == Some(sp[j]));
        }
        assert(vals_of(nodes@, sp).take(sp.len() as int) =~= vals_of(nodes@, sp));
    }
}

} // verus!

verus! {

/// The right spine of `a`'s left subtree: the chain that gets threaded
/// through and emitted when `a` is unthreaded.
pub open spec fn lspine(nodes: Seq<Node>, a: usize) -> Seq<usize> {
    spine_of(nodes, lchild(nodes, a))
}

/// The predecessor of a node with a left child: the rightmost node of
/// its left subtree, through which the thread back to it runs.
pub open spec fn pred_of(nodes: Seq<Node>, a: usize) -> usize {
    lspine(nodes, a)[lspine(nodes, a).len() - 1]
}

/// One open frame of the traversal: node `stack[q].0` has been threaded
/// through its predecessor and its left subtree is being emitted, the
/// walk currently standing at spine position `stack[q].1`.
pub open spec fn frame_ok(
    nodes: Seq<Node>,
    threads: Seq<Option<usize>>,
    stack: Seq<(usize, int)>,
    s_idx: usize,
    q: int,
) -> bool {
    let a = stack[q].0;
    let j = stack[q].1;
    &&& a < nodes.len()
    &&& a <= s_idx
    &&& lchild(nodes, a) is Some
    &&& 0 <= j < lspine(nodes, a).len()
    &&& pred_of(nodes, a) < a
    &&& pred_of(nodes, a) < threads.len()
    &&& threads[pred_of(nodes, a) as int] == Some(a)
    &&& (q == 0 ==> a == s_idx)
    &&& (q > 0 ==> stack[q - 1].0 < nodes.len() && lchild(nodes, stack[q - 1].0) is Some && 0 <= stack[
        q - 1].1 < lspine(nodes, stack[q - 1].0).len() && a == lspine(nodes, stack[q - 1].0)[stack[q
        - 1].1] && a < stack[q - 1].0)
}

/// All open frames are in order: each one's node sits at the recorded
/// spine position of the frame below it, and its thread is installed.
pub open spec fn stack_ok(
    nodes: Seq<Node>,
    threads: Seq<Option<usize>>,
    stack: Seq<(usize, int)>,
    s_idx: usize,
) -> bool {
    forall|q: int| 0 <= q < stack.len() ==> #[trigger] frame_ok(nodes, threads, stack, s_idx, q)
}

/// The output still owed by the open frames, innermost first: for each
/// frame, the left parts of the spine positions not yet walked, then the
/// spine's own values in reverse.
pub open spec fn cont_of(nodes: Seq<Node>, stack: Seq<(usize, int)>) -> Seq<i32>
    decreases stack.len(),
{
    if stack.len() == 0 {
        Seq::empty()
    } else {
        let a = stack[stack.len() - 1].0;
        let j = stack[stack.len() - 1].1;
        left_parts(nodes, lspine(nodes, a).skip(j + 1)) + vals_of(nodes, lspine(nodes, a)).reverse()
            + cont_of(nodes, stack.drop_last())
    }
}

/// Whatever lies in the innermost open left subtree lies in every open
/// left subtree: the frames are nested.
pub proof fn lemma_cursor_below(
    nodes: Seq<Node>,
    threads: Seq<Option<usize>>,
    stack: Seq<(usize, int)>,
    s_idx: usize,
    x: usize,
    q: int,
)
    requires
        parent_ok(nodes),
        stack_ok(nodes, threads, stack, s_idx),
        stack.len() > 0,
        0 <= q < stack.len(),
        in_tree(nodes, x, lchild(nodes, stack[stack.len() - 1].0)),
    ensures
        in_tree(nodes, x, lchild(nodes, stack[q].0)),
    decreases stack.len() - q,
{
    if q < stack.len() - 1 {
        lemma_cursor_below(nodes, threads, stack, s_idx, x, q + 1);
        let a = stack[q].0;
        let an = stack[q + 1].0;
        assert(frame_ok(nodes, threads, stack, s_idx, q));
        assert(frame_ok(nodes, threads, stack, s_idx, q + 1));
        let la = lchild(nodes, a)->0;
        lemma_spine_wf(nodes, la);
        assert(in_tree(nodes, an, Some(la)));
        assert(in_tree(nodes, x, lchild(nodes, an)));
        assert(in_tree(nodes, x, Some(an)));
        crate::tree::lemma_in_tree_trans(nodes, an, x, Some(la));
    }
}

/// While the cursor stands at a fresh spine position with a left child,
/// no open frame's predecessor lies inside the cursor's left subtree, so
/// the cursor's own predecessor is never already threaded.
pub proof fn lemma_preds_avoid(
    nodes: Seq<Node>,
    threads: Seq<Option<usize>>,
    stack: Seq<(usize, int)>,
    s_idx: usize,
    c: usize,
    q: int,
)
    requires
        parent_ok(nodes),
        stack_ok(nodes, threads, stack, s_idx),
        stack.len() > 0,
        c == lspine(nodes, stack[stack.len() - 1].0)[stack[stack.len() - 1].1],
        c < nodes.len(),
        lchild(nodes, c) is Some,
        0 <= q < stack.len(),
    ensures
        !in_tree(nodes, pred_of(nodes, stack[q].0), lchild(nodes, c)),
{
    let a = stack[q].0;
    let aj = stack[q].1;
    assert(frame_ok(nodes, threads, stack, s_idx, q));
    let la = lchild(nodes, a)->0;
    let spa = lspine(nodes, a);
    let pa = pred_of(nodes, a);
    lemma_spine_wf(nodes, la);
    let anchor = spa[aj];
    assert(in_tree(nodes, anchor, Some(la)));
    crate::tree::lemma_in_tree_le(nodes, anchor, Some(la));
    // place the frame's predecessor: at the anchor itself, or inside the
    // anchor's right subtree
    lemma_spine_skip(nodes, la, aj);
    let spt = spine_of(nodes, Some(anchor));
    assert(spt == spa.skip(aj));
    assert(pa == spt[spt.len() - 1]);
    lemma_spine_wf(nodes, anchor);
    let cl = lchild(nodes, c)->0;
    // relate the cursor to the anchor
    if q == stack.len() - 1 {
        assert(anchor == c);
        if aj == spa.len() - 1 {
            assert(pa == c);
            if in_tree(nodes, pa, lchild(nodes, c)) {
                crate::tree::lemma_in_tree_le(nodes, pa, Some(cl));
            }
        } else {
            assert(spt.len() > 1);
            assert(spt[1] == spa[aj + 1]);
            assert(rchild(nodes, c) == Some(spt[1]));
            lemma_spine_skip(nodes, la, aj + 1);
            assert(spa.skip(aj + 1) == spine_of(nodes, Some(spa[aj + 1])));
            lemma_spine_wf(nodes, spa[aj + 1]);
            assert(spa.skip(aj + 1)[spa.skip(aj + 1).len() - 1] == pa);
            assert(in_tree(nodes, pa, Some(spa[aj + 1])));
            assert(in_tree(nodes, pa, rchild(nodes, c)));
            crate::tree::lemma_children_disjoint(nodes, c, pa);
        }
    } else {
        // the cursor sits inside the anchor's left subtree
        let top = stack[stack.len() - 1].0;
        let tj = stack[stack.len() - 1].1;
        assert(frame_ok(nodes, threads, stack, s_idx, stack.len() - 1));
        let lt = lchild(nodes, top)->0;
        lemma_spine_wf(nodes, lt);
        assert(in_tree(nodes, c, Some(lt)));
        lemma_cursor_below(nodes, threads, stack, s_idx, c, q + 1);
        let an = stack[q + 1].0;
        assert(frame_ok(nodes, threads, stack, s_idx, q + 1));
        assert(an == anchor);
        let lan = lchild(nodes, anchor)->0;
        assert(in_tree(nodes, c, Some(lan)));
        if in_tree(nodes, pa, lchild(nodes, c)) {
            assert(in_tree(nodes, pa, Some(c)));
            crate::tree::lemma_in_tree_trans(nodes, c, pa, Some(lan));
            assert(in_tree(nodes, pa, lchild(nodes, anchor)));
            if aj == spa.len() - 1 {
                assert(pa == anchor);
                crate::tree::lemma_in_tree_le(nodes, pa, Some(lan));
            } else {
                assert(spt.len() > 1);
                assert(spt[1] == spa[aj + 1]);
                assert(rchild(nodes, anchor) == Some(spt[1]));
                lemma_spine_skip(nodes, la, aj + 1);
                lemma_spine_wf(nodes, spa[aj + 1]);
                assert(spa.skip(aj + 1)[spa.skip(aj + 1).len() - 1] == pa);
                assert(in_tree(nodes, pa, Some(spa[aj + 1])));
                assert(in_tree(nodes, pa, rchild(nodes, anchor)));
                crate::tree::lemma_children_disjoint(nodes, anchor, pa);
            }
        }
    }
}

} // verus!

verus! {

/// The predecessor of the frame at position `q` of the open-frame stack.
pub open spec fn pred_at(nodes: Seq<Node>, stack: Seq<(usize, int)>, q: int) -> usize {
    pred_of(nodes, stack[q].0)
}

/// No two open frames share a predecessor.
pub open spec fn preds_distinct(nodes: Seq<Node>, stack: Seq<(usize, int)>) -> bool {
    forall|q1: int, q2: int| 0 <= q1 < q2 < stack.len() ==> #[trigger] pred_at(nodes, stack, q1)
        != #[trigger] pred_at(nodes, stack, q2)
}

/// Every installed thread belongs to some open frame.
pub open spec fn threads_char(
    nodes: Seq<Node>,
    threads: Seq<Option<usize>>,
    stack: Seq<(usize, int)>,
) -> bool {
    forall|x: int| 0 <= x < threads.len() && threads[x] is Some ==> exists|q: int|
        0 <= q < stack.len() && x == #[trigger] pred_at(nodes, stack, q)
}

/// Moving the top frame to another spine position keeps the stack sound:
/// only its position field changes.
pub proof fn lemma_bump_top(
    nodes: Seq<Node>,
    threads: Seq<Option<usize>>,
    sold: Seq<(usize, int)>,
    s_idx: usize,
    j2: int,
)
    requires
        stack_ok(nodes, threads, sold, s_idx),
        preds_distinct(nodes, sold),
        threads_char(nodes, threads, sold),
        sold.len() > 0,
        0 <= j2 < lspine(nodes, sold[sold.len() - 1].0).len(),
    ensures
        ({
            let snew = sold.update(sold.len() - 1, (sold[sold.len() - 1].0, j2));
            &&& stack_ok(nodes, threads, snew, s_idx)
            &&& preds_distinct(nodes, snew)
            &&& threads_char(nodes, threads, snew)
        }),
{
    let snew = sold.update(sold.len() - 1, (sold[sold.len() - 1].0, j2));
    assert forall|q: int| 0 <= q < snew.len() implies #[trigger] frame_ok(
        nodes,
        threads,
        snew,
        s_idx,
        q,
    ) by {
        assert(frame_ok(nodes, threads, sold, s_idx, q));
        if q < snew.len() - 1 {
            assert(snew[q] == sold[q]);
        }
        if q > 0 {
            assert(snew[q - 1] == sold[q - 1]);
        }
    }
    assert forall|q: int| 0 <= q < snew.len() implies #[trigger] pred_at(nodes, snew, q) == pred_at(
        nodes,
        sold,
        q,
    ) by {
        assert(snew[q].0 == sold[q].0);
    }
    assert forall|x: int| 0 <= x < threads.len() && threads[x] is Some implies exists|q: int|
        0 <= q < snew.len() && x == #[trigger] pred_at(nodes, snew, q) by {
        let w = choose|q: int| 0 <= q < sold.len() && x == #[trigger] pred_at(nodes, sold, q);
        assert(0 <= w < snew.len() && x == pred_at(nodes, snew, w));
    }
}

/// Opening a fresh frame: install the thread at the cursor's
/// predecessor and push the cursor with spine position zero.
pub proof fn lemma_push_frame(
    nodes: Seq<Node>,
    threads: Seq<Option<usize>>,
    sold: Seq<(usize, int)>,
    s_idx: usize,
    c: usize,
)
    requires
        parent_ok(nodes),
        stack_ok(nodes, threads, sold, s_idx),
        preds_distinct(nodes, sold),
        threads_char(nodes, threads, sold),
        c < nodes.len(),
        lchild(nodes, c) is Some,
        pred_of(nodes, c) < threads.len(),
        threads[pred_of(nodes, c) as int] is None,
        sold.len() == 0 ==> c == s_idx,
        sold.len() > 0 ==> c == lspine(nodes, sold[sold.len() - 1].0)[sold[sold.len() - 1].1],
    ensures
        ({
            let th = threads.update(pred_of(nodes, c) as int, Some(c));
            let snew = sold.push((c, 0int));
            &&& stack_ok(nodes, th, snew, s_idx)
            &&& preds_distinct(nodes, snew)
            &&& threads_char(nodes, th, snew)
        }),
{
    let p = pred_of(nodes, c);
    let th = threads.update(p as int, Some(c));
    let snew = sold.push((c, 0int));
    let l = lchild(nodes, c)->0;
    lemma_spine_wf(nodes, l);
    let spl = lspine(nodes, c);
    assert(in_tree(nodes, p, Some(l)));
    crate::tree::lemma_in_tree_le(nodes, p, Some(l));
    assert(p < c);
    if sold.len() > 0 {
        assert(frame_ok(nodes, threads, sold, s_idx, sold.len() - 1));
        let topa = sold[sold.len() - 1].0;
        lemma_spine_wf(nodes, lchild(nodes, topa)->0);
        assert(in_tree(nodes, c, Some(lchild(nodes, topa)->0)));
        crate::tree::lemma_in_tree_le(nodes, c, Some(lchild(nodes, topa)->0));
        assert(c < topa);
    }
    assert forall|q: int| 0 <= q < snew.len() implies #[trigger] frame_ok(
        nodes,
        th,
        snew,
        s_idx,
        q,
    ) by {
        if q < sold.len() {
            assert(frame_ok(nodes, threads, sold, s_idx, q));
            assert(snew[q] == sold[q]);
            if q > 0 {
                assert(snew[q - 1] == sold[q - 1]);
            }
            assert(threads[pred_of(nodes, sold[q].0) as int] == Some(sold[q].0));
            assert(pred_of(nodes, sold[q].0) != p);
        } else {
            assert(snew[q] == (c, 0int));
            if q > 0 {
                assert(snew[q - 1] == sold[q - 1]);
                assert(frame_ok(nodes, threads, sold, s_idx, q - 1));
            }
        }
    }
    assert forall|q1: int, q2: int| 0 <= q1 < q2 < snew.len() implies #[trigger] pred_at(
        nodes,
        snew,
        q1,
    ) != #[trigger] pred_at(nodes, snew, q2) by {
        if q2 == snew.len() - 1 {
            assert(snew[q1].0 == sold[q1].0);
            assert(frame_ok(nodes, threads, sold, s_idx, q1));
            assert(threads[pred_of(nodes, sold[q1].0) as int] == Some(sold[q1].0));
        } else {
            assert(pred_at(nodes, sold, q1) != pred_at(nodes, sold, q2));
            assert(snew[q1].0 == sold[q1].0 && snew[q2].0 == sold[q2].0);
        }
    }
    assert forall|x: int| 0 <= x < th.len() && th[x] is Some implies exists|q: int|
        0 <= q < snew.len() && x == #[trigger] pred_at(nodes, snew, q) by {
        if x == p as int {
            assert(snew[snew.len() - 1].0 == c);
            assert(0 <= snew.len() - 1 < snew.len() && x == pred_at(nodes, snew, snew.len() - 1));
        } else {
            assert(threads[x] is Some);
            let w = choose|q: int| 0 <= q < sold.len() && x == #[trigger] pred_at(nodes, sold, q);
            assert(snew[w].0 == sold[w].0);
            assert(0 <= w < snew.len() && x == pred_at(nodes, snew, w));
        }
    }
}

/// Closing the innermost frame: clear its thread and pop it; the
/// remaining frames are untouched.
pub proof fn lemma_pop_frame(
    nodes: Seq<Node>,
    threads: Seq<Option<usize>>,
    sold: Seq<(usize, int)>,
    s_idx: usize,
)
    requires
        stack_ok(nodes, threads, sold, s_idx),
        preds_distinct(nodes, sold),
        threads_char(nodes, threads, sold),
        sold.len() > 0,
    ensures
        ({
            let p = pred_at(nodes, sold, sold.len() - 1);
            let th = threads.update(p as int, None);
            let snew = sold.drop_last();
            &&& stack_ok(nodes, th, snew, s_idx)
            &&& preds_distinct(nodes, snew)
            &&& threads_char(nodes, th, snew)
        }),
{
    let p = pred_at(nodes, sold, sold.len() - 1);
    let th = threads.update(p as int, None);
    let snew = sold.drop_last();
    assert(frame_ok(nodes, threads, sold, s_idx, sold.len() - 1));
    assert(p < threads.len());
    assert forall|q: int| 0 <= q < snew.len() implies #[trigger] frame_ok(
        nodes,
        th,
        snew,
        s_idx,
        q,
    ) by {
        assert(frame_ok(nodes, threads, sold, s_idx, q));
        assert(snew[q] == sold[q]);
        if q > 0 {
            assert(snew[q - 1] == sold[q - 1]);
        }
        assert(pred_at(nodes, sold, q) != pred_at(nodes, sold, sold.len() - 1));
        assert(pred_of(nodes, sold[q].0) != p);
    }
    assert forall|q1: int, q2: int| 0 <= q1 < q2 < snew.len() implies #[trigger] pred_at(
        nodes,
        snew,
        q1,
    ) != #[trigger] pred_at(nodes, snew, q2) by {
        assert(pred_at(nodes, sold, q1) != pred_at(nodes, sold, q2));
        assert(snew[q1].0 == sold[q1].0 && snew[q2].0 == sold[q2].0);
    }
    assert forall|x: int| 0 <= x < th.len() && th[x] is Some implies exists|q: int|
        0 <= q < snew.len() && x == #[trigger] pred_at(nodes, snew, q) by {
        assert(threads[x] is Some);
        let w = choose|q: int| 0 <= q < sold.len() && x == #[trigger] pred_at(nodes, sold, q);
        assert(w != sold.len() - 1) by {
            if w == sold.len() - 1 {
                assert(x == p as int);
            }
        }
        assert(snew[w].0 == sold[w].0);
        assert(0 <= w < snew.len() && x == pred_at(nodes, snew, w));
    }
}

/// Reversing a chain and reversing it back restores the arena exactly,
/// and the values seen along the reversed chain are the original spine
/// values backwards.
pub proof fn lemma_double_reverse(o: Seq<Node>, mid: Seq<Node>, fin: Seq<Node>, sp: Seq<usize>)
    requires
        o.len() <= usize::MAX,
        chain_linked(o, sp),
        reversed_chain(o, mid, sp),
        reversed_chain(mid, fin, sp.reverse()),
    ensures
        fin == o,
        vals_of(mid, sp.reverse()) == vals_of(o, sp).reverse(),
{
    let rsp = sp.reverse();
    let m = sp.len() as int;
    assert forall|x: int| 0 <= x < o.len() implies fin[x] == o[x] by {
        if sp.contains(x as usize) {
            let t = choose|t: int| 0 <= t < sp.len() && sp[t] == x as usize;
            assert(x == sp[t] as int);
            assert(rsp[m - 1 - t] == sp[t]);
            assert(mid[x].value == o[x].value && mid[x].left == o[x].left);
            assert(fin[x].value == mid[x].value && fin[x].left == mid[x].left);
            if t < m - 1 {
                assert(m - 1 - t >= 1);
                assert(fin[rsp[m - 1 - t] as int].right == Some(rsp[m - 1 - t - 1]));
                assert(rsp[m - 2 - t] == sp[t + 1]);
                assert(o[x].right == Some(sp[t + 1]));
            } else {
                assert(x == sp[m - 1]);
                assert(rsp[0] == sp[m - 1]);
                assert(fin[rsp[0] as int].right is None);
                assert(o[x].right is None);
            }
        } else {
            assert(!rsp.contains(x as usize)) by {
                if rsp.contains(x as usize) {
                    let t = choose|t: int| 0 <= t < rsp.len() && rsp[t] == x as usize;
                    assert(sp[m - 1 - t] == x as usize);
                }
            }
            assert(mid[x] == o[x]);
            assert(fin[x] == mid[x]);
        }
    }
    assert(fin =~= o);
    assert forall|t: int| 0 <= t < m implies vals_of(mid, rsp)[t] == vals_of(o, sp).reverse()[t] by {
        assert(rsp[t] == sp[m - 1 - t]);
        assert(mid[sp[m - 1 - t] as int].value == o[sp[m - 1 - t] as int].value);
    }
    assert(vals_of(mid, rsp) =~= vals_of(o, sp).reverse());
}

} // verus!

verus! {

/// Everything that holds between steps of the traversal driver: the
/// arena (with its sentinel at `s_idx`) is in its original state, the
/// installed threads are exactly the open frames' predecessors, and the
/// output emitted so far plus the work still owed equals the whole
/// post-order sequence.
pub open spec fn driver_inv(
    t: Tree,
    outv: Seq<i32>,
    o: Seq<Node>,
    s_idx: usize,
    root: usize,
    total: Seq<i32>,
    stack: Seq<(usize, int)>,
    closing: bool,
    cur: Option<usize>,
) -> bool {
    &&& o.len() == s_idx + 1
    &&& o.len() <= usize::MAX
    &&& t.nodes@ == o
    &&& t.threads@.len() == o.len()
    &&& parent_ok(o)
    &&& o[s_idx as int].left == Some(root)
    &&& o[s_idx as int].right is None
    &&& root < s_idx
    &&& total == postorder_of(o, Some(root))
    &&& stack_ok(o, t.threads@, stack, s_idx)
    &&& preds_distinct(o, stack)
    &&& threads_char(o, t.threads@, stack)
    &&& (cur is None ==> stack.len() == 0 && outv == total)
    &&& (cur matches Some(c) ==> {
        &&& c < o.len()
        &&& (!closing ==> {
            &&& (stack.len() == 0 ==> c == s_idx)
            &&& (stack.len() > 0 ==> c == lspine(o, stack[stack.len() - 1].0)[stack[stack.len()
                - 1].1])
            &&& outv + postorder_of(o, lchild(o, c)) + cont_of(o, stack) == total
        })
        &&& (closing ==> {
            &&& stack.len() > 0
            &&& c == stack[stack.len() - 1].0
            &&& stack[stack.len() - 1].1 == lspine(o, c).len() - 1
            &&& outv + cont_of(o, stack) == total
        })
    })
}

/// One driver step at a node with no left child: move to the right
/// child, or follow the thread back to the node whose predecessor this
/// is.
#[verifier::rlimit(100)]
fn step_no_left(
    tree: &Tree,
    c: usize,
    Ghost(outv): Ghost<Seq<i32>>,
    Ghost(o): Ghost<Seq<Node>>,
    Ghost(s_idx): Ghost<usize>,
    Ghost(root): Ghost<usize>,
    Ghost(total): Ghost<Seq<i32>>,
    Ghost(stack0): Ghost<Seq<(usize, int)>>,
    Ghost(closing0): Ghost<bool>,
) -> (res: (Option<usize>, Ghost<Seq<(usize, int)>>, Ghost<bool>))
    requires
        driver_inv(*tree, outv, o, s_idx, root, total, stack0, closing0, Some(c)),
        tree.nodes@[c as int].left is None,
    ensures
        driver_inv(*tree, outv, o, s_idx, root, total, res.1@, res.2@, res.0),
        !closing0,
        !res.2@ ==> tsize(o, res.0) < tsize(o, Some(c)),
    decreases
        0int,
{
    let ghost mut stack = stack0;
    let ghost mut closing = closing0;
    proof {
        assert(!closing) by {
            if closing {
                assert(frame_ok(o, tree.threads@, stack, s_idx, stack.len() - 1));
            }
        }
        assert(lchild(o, c) is None);
        assert(postorder_of(o, lchild(o, c)) =~= Seq::<i32>::empty());
        if stack.len() == 0 {
            assert(c == s_idx);
            assert(false);
        }
        assert(frame_ok(o, tree.threads@, stack, s_idx, stack.len() - 1));
    }
    let ghost a = stack[stack.len() - 1].0;
    let ghost j = stack[stack.len() - 1].1;
    let ghost spa = lspine(o, a);
    proof {
        lemma_spine_wf(o, lchild(o, a)->0);
    }
    let r = tree.nodes[c].right;
    let cur: Option<usize>;
    if r.is_some() {
        cur = r;
        proof {
            assert(j < spa.len() - 1) by {
                if j == spa.len() - 1 {
                    assert(o[spa[j] as int].right is None);
                }
            }
            assert(o[c as int].right == Some(spa[j + 1]));
            assert(rchild(o, c) == Some(spa[j + 1]));
            lemma_bump_top(o, tree.threads@, stack, s_idx, j + 1);
            let sold = stack;
            stack = stack.update(stack.len() - 1, (a, j + 1));
            assert(stack.drop_last() =~= sold.drop_last());
            lemma_left_parts_step(o, spa, j + 1);
            assert(cont_of(o, sold) == left_parts(o, spa.skip(j + 1)) + vals_of(o, spa).reverse()
                + cont_of(o, sold.drop_last()));
            assert(cont_of(o, stack) == left_parts(o, spa.skip(j + 2)) + vals_of(o, spa).reverse()
                + cont_of(o, stack.drop_last()));
            assert(outv + postorder_of(o, lchild(o, spa[j + 1])) + cont_of(o, stack) =~= outv
                + postorder_of(o, lchild(o, c)) + cont_of(o, sold));
            assert(tsize(o, Some(spa[j + 1])) < tsize(o, Some(c)));
        }
    } else {
        cur = tree.threads[c];
        proof {
            assert(j == spa.len() - 1) by {
                if j < spa.len() - 1 {
                    assert(o[spa[j] as int].right == Some(spa[j + 1]));
                }
            }
            assert(c == pred_of(o, a));
            assert(tree.threads@[c as int] == Some(a));
            closing = true;
        }
    }
    (cur, Ghost(stack), Ghost(closing))
}

/// One driver step at a node with a left child: find its predecessor;
/// install the thread and descend left if it is fresh, else tear the
/// thread down, emit the finished left spine by reversing it in place
/// and back, and move on past the node.
#[verifier::rlimit(100)]
fn step_left(
    tree: &mut Tree,
    out: &mut Vec<i32>,
    c: usize,
    Ghost(o): Ghost<Seq<Node>>,
    Ghost(s_idx): Ghost<usize>,
    Ghost(root): Ghost<usize>,
    Ghost(total): Ghost<Seq<i32>>,
    Ghost(stack0): Ghost<Seq<(usize, int)>>,
    Ghost(closing0): Ghost<bool>,
) -> (res: (Option<usize>, Ghost<Seq<(usize, int)>>, Ghost<bool>))
    requires
        driver_inv(*old(tree), old(out)@, o, s_idx, root, total, stack0, closing0, Some(c)),
        old(tree).nodes@[c as int].left is Some,
    ensures
        driver_inv(*final(tree), final(out)@, o, s_idx, root, total, res.1@, res.2@, res.0),
        final(tree).root == old(tree).root,
        final(out)@.len() >= old(out)@.len(),
        final(out)@.len() == old(out)@.len() ==> !closing0 && !res.2@ && tsize(o, res.0) < tsize(
            o,
            Some(c),
        ),
    decreases
        0int,
{
    let ghost mut stack = stack0;
    let ghost mut closing = closing0;
    let l = tree.nodes[c].left.unwrap();
    proof {
        assert(lchild(o, c) == Some(l));
        lemma_spine_wf(o, l);
    }
    let p = find_predecessor(&tree.nodes, l);
    let ghost spl = spine_of(o, Some(l));
    proof {
        assert(p == spl[spl.len() - 1]);
        assert(in_tree(o, p, Some(l)));
        crate::tree::lemma_in_tree_le(o, p, Some(l));
        assert(spl == lspine(o, c));
        assert(p == pred_of(o, c));
    }
    let cur: Option<usize>;
    if tree.threads[p].is_none() {
        // fresh subtree: install the thread and descend left
        proof {
            assert(!closing) by {
                if closing {
                    assert(frame_ok(o, tree.threads@, stack, s_idx, stack.len() - 1));
                }
            }
            lemma_push_frame(o, tree.threads@, stack, s_idx, c);
        }
        tree.threads.set(p, Some(c));
        cur = Some(l);
        proof {
            let sold = stack;
            stack = stack.push((c, 0int));
            lemma_spine_unroll(o, l);
            assert(spl.skip(0) =~= spl);
            lemma_left_parts_step(o, spl, 0);
            assert(stack.drop_last() =~= sold);
            assert(cont_of(o, stack) == left_parts(o, spl.skip(1)) + vals_of(o, spl).reverse()
                + cont_of(o, sold));
            assert(out@ + postorder_of(o, lchild(o, l)) + cont_of(o, stack) =~= out@
                + postorder_of(o, lchild(o, c)) + cont_of(o, sold));
            assert(spl[0] == l);
            assert(tsize(o, Some(l)) < tsize(o, Some(c)));
        }
    } else {
        return close_step(
            tree,
            out,
            c,
            l,
            p,
            Ghost(o),
            Ghost(s_idx),
            Ghost(root),
            Ghost(total),
            Ghost(stack0),
            Ghost(closing0),
        );
    }
    (cur, Ghost(stack), Ghost(closing))
}


/// Remove the thread through `p`, then reverse the finished spine, walk
/// it emitting its values deepest-first, and reverse it back, leaving
/// the arena exactly as it was.
#[verifier::rlimit(100)]
fn close_emit(
    tree: &mut Tree,
    out: &mut Vec<i32>,
    c: usize,
    l: usize,
    p: usize,
    Ghost(o): Ghost<Seq<Node>>,
    Ghost(spl): Ghost<Seq<usize>>,
)
    requires
        old(tree).nodes@ == o,
        o.len() <= usize::MAX,
        parent_ok(o),
        l < o.len(),
        spl == spine_of(o, Some(l)),
        p == spl[spl.len() - 1],
        p < old(tree).threads@.len(),
    ensures
        final(tree).nodes@ == o,
        final(tree).threads@ == old(tree).threads@.update(p as int, None),
        final(tree).root == old(tree).root,
        final(out)@ == old(out)@ + vals_of(o, spl).reverse(),
    decreases
        0int,
{
    proof {
        lemma_spine_wf(o, l);
    }
    tree.threads.set(p, None);
    let newhead = reverse_chain(&mut tree.nodes, l, Ghost(spl));
    let ghost mid = tree.nodes@;
    walk_chain(&tree.nodes, newhead, out, Ghost(spl.reverse()));
    let _ = reverse_chain(&mut tree.nodes, newhead, Ghost(spl.reverse()));
    proof {
        lemma_double_reverse(o, mid, tree.nodes@, spl);
    }
}

/// Tear down the thread that points back at `c`, emit the finished left
/// spine by reversing it in place, walking it, and reversing it back,
/// then move past `c` to its right child or on up through the next
/// thread.
#[verifier::rlimit(100)]
fn close_step(
    tree: &mut Tree,
    out: &mut Vec<i32>,
    c: usize,
    l: usize,
    p: usize,
    Ghost(o): Ghost<Seq<Node>>,
    Ghost(s_idx): Ghost<usize>,
    Ghost(root): Ghost<usize>,
    Ghost(total): Ghost<Seq<i32>>,
    Ghost(stack0): Ghost<Seq<(usize, int)>>,
    Ghost(closing0): Ghost<bool>,
) -> (res: (Option<usize>, Ghost<Seq<(usize, int)>>, Ghost<bool>))
    requires
        driver_inv(*old(tree), old(out)@, o, s_idx, root, total, stack0, closing0, Some(c)),
        old(tree).nodes@[c as int].left == Some(l),
        lchild(o, c) == Some(l),
        p == pred_of(o, c),
        p < old(tree).threads@.len(),
        old(tree).threads@[p as int] is Some,
    ensures
        driver_inv(*final(tree), final(out)@, o, s_idx, root, total, res.1@, res.2@, res.0),
        final(tree).root == old(tree).root,
        final(out)@.len() > old(out)@.len(),
    decreases
        0int,
{
    let ghost mut stack = stack0;
    let ghost mut closing = closing0;
    let ghost spl = spine_of(o, Some(l));
    let cur: Option<usize>;
    proof {
        lemma_spine_wf(o, l);
        assert(spl == lspine(o, c));
        assert(spl[0] == l);
        assert(in_tree(o, p, Some(l)));
        if !closing {
            if stack.len() == 0 {
                assert(tree.threads@[p as int] is Some);
                assert(false);
            } else {
                let qq = choose|q: int|
                    0 <= q < stack.len() && p == #[trigger] pred_at(o, stack, q);
                lemma_preds_avoid(o, tree.threads@, stack, s_idx, c, qq);
                assert(in_tree(o, p, lchild(o, c)));
                assert(false);
            }
        }
        assert(frame_ok(o, tree.threads@, stack, s_idx, stack.len() - 1));
    }
    let ghost thold = tree.threads@;
    {
        let ghost j = stack[stack.len() - 1].1;
        close_emit(tree, out, c, l, p, Ghost(o), Ghost(spl));
        let ghost sold = stack;
        proof {
            lemma_pop_frame(o, thold, stack, s_idx);
            stack = stack.drop_last();
            assert(spl.skip(j + 1) =~= Seq::<usize>::empty());
            assert(left_parts(o, spl.skip(j + 1)) =~= Seq::<i32>::empty());
            assert(cont_of(o, sold) == left_parts(o, spl.skip(j + 1)) + vals_of(o, spl).reverse()
                + cont_of(o, sold.drop_last()));
            assert(out@ + cont_of(o, stack) =~= total);
        }
        let r = tree.nodes[c].right;
        if r.is_some() {
            cur = r;
            proof {
                closing = false;
                if stack.len() == 0 {
                    assert(frame_ok(o, thold, sold, s_idx, 0));
                    assert(c == s_idx);
                    assert(o[s_idx as int].right is None);
                    assert(false);
                }
                let a = stack[stack.len() - 1].0;
                let jp = stack[stack.len() - 1].1;
                let spa = lspine(o, a);
                assert(frame_ok(o, tree.threads@, stack, s_idx, stack.len() - 1));
                lemma_spine_wf(o, lchild(o, a)->0);
                assert(frame_ok(o, thold, sold, s_idx, sold.len() - 1));
                assert(c == spa[jp]);
                assert(jp < spa.len() - 1) by {
                    if jp == spa.len() - 1 {
                        assert(o[spa[jp] as int].right is None);
                    }
                }
                assert(o[c as int].right == Some(spa[jp + 1]));
                lemma_bump_top(o, tree.threads@, stack, s_idx, jp + 1);
                let spop = stack;
                stack = stack.update(stack.len() - 1, (a, jp + 1));
                assert(stack.drop_last() =~= spop.drop_last());
                lemma_left_parts_step(o, spa, jp + 1);
                assert(cont_of(o, spop) == left_parts(o, spa.skip(jp + 1)) + vals_of(
                    o,
                    spa,
                ).reverse() + cont_of(o, spop.drop_last()));
                assert(cont_of(o, stack) == left_parts(o, spa.skip(jp + 2)) + vals_of(
                    o,
                    spa,
                ).reverse() + cont_of(o, stack.drop_last()));
                assert(out@ + postorder_of(o, lchild(o, spa[jp + 1])) + cont_of(o, stack) =~= out@
                    + cont_of(o, spop));
            }
        } else {
            cur = tree.threads[c];
            proof {
                if stack.len() == 0 {
                    assert(frame_ok(o, thold, sold, s_idx, 0));
                    assert(c == s_idx);
                    assert forall|x: int|
                        0 <= x < tree.threads@.len() implies tree.threads@[x] is None by {
                        if tree.threads@[x] is Some {
                            let w = choose|q: int|
                                0 <= q < stack.len() && x == #[trigger] pred_at(o, stack, q);
                        }
                    }
                    assert(tree.threads@[c as int] is None);
                    assert(cont_of(o, stack) =~= Seq::<i32>::empty());
                    assert(out@ =~= total);
                } else {
                    let a = stack[stack.len() - 1].0;
                    let jp = stack[stack.len() - 1].1;
                    let spa = lspine(o, a);
                    assert(frame_ok(o, tree.threads@, stack, s_idx, stack.len() - 1));
                    lemma_spine_wf(o, lchild(o, a)->0);
                    assert(frame_ok(o, thold, sold, s_idx, sold.len() - 1));
                    assert(c == spa[jp]);
                    assert(jp == spa.len() - 1) by {
                        if jp < spa.len() - 1 {
                            assert(o[spa[jp] as int].right == Some(spa[jp + 1]));
                        }
                    }
                    assert(c == pred_of(o, a));
                    assert(c != p);
                    assert(tree.threads@[c as int] == Some(a));
                }
            }
        }
        proof {
            assert(out@.len() > old(out)@.len());
        }
    }
    (cur, Ghost(stack), Ghost(closing))
}


/// Traverse the tree in post-order and return the visited values, in
/// order, without recursion and without a stack: the traversal threads
/// the tree through predecessor links, emits each finished left spine by
/// reversing it in place and back, and restores the tree exactly — on
/// return the arena, the thread slots and the root are unchanged.
pub fn traverse_postorder_no_stack(tree: &mut Tree) -> (out: Vec<i32>)
    requires
        old(tree).wf(),
    ensures
        final(tree).nodes@ == old(tree).nodes@,
        final(tree).threads@ == old(tree).threads@,
        final(tree).root == old(tree).root,
        final(tree).wf(),
        out@ == old(tree).postorder(),
{
    let mut out: Vec<i32> = Vec::new();
    let root: usize;
    match tree.root {
        None => {
            return out;
        },
        Some(r) => {
            root = r;
        },
    }
    // wrap the real root as the left child of a synthetic sentinel, so
    // the root can be threaded like any other node
    let s_idx = tree.nodes.len();
    tree.nodes.push(Node { value: 0, left: Some(root), right: None });
    tree.threads.push(None);
    let ghost o = tree.nodes@;
    let nlen = tree.nodes.len();
    proof {
        assert(o.len() == nlen);
        let on = old(tree).nodes@;
        assert forall|c: usize, p1: usize, p2: usize|
            #[trigger] is_child_of(o, c, p1) && #[trigger] is_child_of(o, c, p2)
            implies p1 == p2 by {
            if p1 < on.len() && p2 < on.len() {
                assert(is_child_of(on, c, p1));
                assert(is_child_of(on, c, p2));
            } else if p1 == on.len() && p2 < on.len() {
                assert(c == root);
                assert(is_child_of(on, c, p2));
            } else if p2 == on.len() && p1 < on.len() {
                assert(c == root);
                assert(is_child_of(on, c, p1));
            }
        }
        assert(parent_ok(o));
        crate::tree::lemma_po_push(
            on,
            Node { value: 0, left: Some(root), right: None },
            Some(root),
        );
    }
    let ghost total = postorder_of(o, Some(root));
    let mut cur: Option<usize> = Some(s_idx);
    let ghost mut stack: Seq<(usize, int)> = Seq::empty();
    let ghost mut closing: bool = false;
    proof {
        assert(lchild(o, s_idx) == Some(root));
        assert(cont_of(o, stack) =~= Seq::<i32>::empty());
        assert(out@ + postorder_of(o, lchild(o, s_idx)) + cont_of(o, stack) =~= total);
    }
    while cur.is_some()
        invariant
            driver_inv(*tree, out@, o, s_idx, root, total, stack, closing, cur),
            tree.root == Some(root),
        decreases total.len() - out@.len(), (if closing {
            0int
        } else {
            1int
        }), tsize(o, cur),
    {
        let c = cur.unwrap();
        let cleft = tree.nodes[c].left;
        if cleft.is_none() {
            let res = step_no_left(
                tree,
                c,
                Ghost(out@),
                Ghost(o),
                Ghost(s_idx),
                Ghost(root),
                Ghost(total),
                Ghost(stack),
                Ghost(closing),
            );
            cur = res.0;
            proof {
                stack = res.1@;
                closing = res.2@;
            }
        } else {
            let res = step_left(
                tree,
                &mut out,
                c,
                Ghost(o),
                Ghost(s_idx),
                Ghost(root),
                Ghost(total),
                Ghost(stack),
                Ghost(closing),
            );
            cur = res.0;
            proof {
                stack = res.1@;
                closing = res.2@;
            }
        }
    }
    proof {
        assert forall|x: int| 0 <= x < tree.threads@.len() implies tree.threads@[x] is None by {
            if tree.threads@[x] is Some {
                let w = choose|q: int| 0 <= q < stack.len() && x == #[trigger] pred_at(o, stack, q);
            }
        }
    }
    let _ = tree.nodes.pop();
    let _ = tree.threads.pop();
    proof {
        assert(tree.nodes@ =~= old(tree).nodes@);
        assert(tree.threads@ =~= old(tree).threads@);
        assert(out@ == old(tree).postorder());
    }
    out
}

} // verus!

verus! {

/// The reference traversal: plain recursion, appending each subtree's
/// values in post-order.  It computes the same sequence as the threaded
/// traversal, since both meet `postorder_of`.
fn postorder_rec(nodes: &Vec<Node>, r: Option<usize>, out: &mut Vec<i32>)
    requires
        parent_ok(nodes@),
        r matches Some(i) ==> i < nodes@.len(),
    ensures
        final(out)@ == old(out)@ + postorder_of(nodes@, r),
    decreases omeas(r),
{
    match r {
        None => {
            proof {
                assert(final(out)@ =~= old(out)@ + postorder_of(nodes@, None));
            }
        },
        Some(i) => {
            let lc = nodes[i].left;
            let rc = nodes[i].right;
            proof {
                assert(lchild(nodes@, i) == lc);
                assert(rchild(nodes@, i) == rc);
            }
            postorder_rec(nodes, lc, out);
            postorder_rec(nodes, rc, out);
            out.push(nodes[i].value);
        },
    }
}

/// Recursive post-order traversal of the whole tree, the baseline that
/// the threaded traversal is measured against: both return exactly
/// `Tree::postorder`, so on every tree they agree.
pub fn postorder_recursive(tree: &Tree) -> (out: Vec<i32>)
    requires
        tree.wf(),
    ensures
        out@ == tree.postorder(),
{
    let mut out: Vec<i32> = Vec::new();
    postorder_rec(&tree.nodes, tree.root, &mut out);
    out
}

/// A tree with an absent root has an empty post-order sequence: a
/// traversal of it visits nothing.
pub proof fn lemma_postorder_empty(t: Tree)
    requires
        t.root is None,
    ensures
        t.postorder() == Seq::<i32>::empty(),
{
    assert(t.postorder() =~= Seq::<i32>::empty());
}

/// A tree of a single node has the one-element post-order sequence
/// holding that node's value: a traversal of it visits exactly once.
pub proof fn lemma_postorder_single(t: Tree, r: usize)
    requires
        t.root == Some(r),
        r < t.nodes@.len(),
        t.nodes@[r as int].left is None,
        t.nodes@[r as int].right is None,
    ensures
        t.postorder() == seq![t.nodes@[r as int].value],
{
    assert(lchild(t.nodes@, r) is None);
    assert(rchild(t.nodes@, r) is None);
    assert(postorder_of(t.nodes@, None) =~= Seq::<i32>::empty());
    assert(t.postorder() =~= seq![t.nodes@[r as int].value]);
}

} // verus!
