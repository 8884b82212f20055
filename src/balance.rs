//! Red-black balance of a tree held in an arena, with a black height kept
//! for every node: each node's two subtrees have the same black height, and
//! a red node has no red child. During an insertion the one allowed fault
//! is a red node under a red parent.

use crate::arena::Node;
use crate::shape::{
    attach_nodes, colors, compact_nodes, compact_rank, compact_root, lemma_compact_facts,
    lemma_recolor, shaped_except, splice_nodes, splice_root, lemma_rot_facts, lemma_rotate, node_ok, relink, rot_b,
    rot_nodes, rot_root, rot_y, shaped, side, with_side,
};
use vstd::prelude::*;

verus! {

/// `x` names a red node.
pub open spec fn red_at(ns: Seq<Node>, x: Option<u64>) -> bool {
    x matches Some(c) && ns[c as int].color
}

/// The black height below link `x`: zero for an absent child.
pub open spec fn bh_at(ns: Seq<Node>, bh: Seq<int>, x: Option<u64>) -> int {
    match x {
        Some(c) => bh[c as int],
        None => 0,
    }
}

/// Both subtrees of node `i` have one black height, and `bh[i]` adds the
/// node itself when it is black.
pub open spec fn height_ok(ns: Seq<Node>, bh: Seq<int>, i: int) -> bool {
    &&& bh_at(ns, bh, ns[i].left) == bh_at(ns, bh, ns[i].right)
    &&& bh[i] == bh_at(ns, bh, ns[i].left) + (if ns[i].color { 0int } else { 1int })
}

/// A red node `i` has no red child.
pub open spec fn reds_ok(ns: Seq<Node>, i: int) -> bool {
    ns[i].color ==> !red_at(ns, ns[i].left) && !red_at(ns, ns[i].right)
}

/// The child of `n` other than `x`.
pub open spec fn other_child(n: Node, x: u64) -> Option<u64> {
    if n.left == Some(x) {
        n.right
    } else {
        n.left
    }
}

/// The tree is red-black balanced under the heights `bh`.
pub open spec fn balanced(ns: Seq<Node>, root: Option<u64>, bh: Seq<int>) -> bool {
    &&& bh.len() == ns.len()
    &&& !red_at(ns, root)
    &&& forall|i: int| 0 <= i < ns.len() ==> 0 <= #[trigger] bh[i]
    &&& forall|i: int| 0 <= i < ns.len() ==> #[trigger] height_ok(ns, bh, i)
    &&& forall|i: int| 0 <= i < ns.len() ==> #[trigger] reds_ok(ns, i)
}

/// Balanced but for one fault: `x` may be red under a red parent. The
/// parent's other child is not red, and the root is black unless it is `x`.
pub open spec fn balanced_but(ns: Seq<Node>, root: Option<u64>, bh: Seq<int>, x: int) -> bool {
    &&& bh.len() == ns.len()
    &&& 0 <= x < ns.len()
    &&& (!red_at(ns, root) || root == Some(x as u64))
    &&& forall|i: int| 0 <= i < ns.len() ==> 0 <= #[trigger] bh[i]
    &&& forall|i: int| 0 <= i < ns.len() ==> #[trigger] height_ok(ns, bh, i)
    &&& forall|i: int| 0 <= i < ns.len() && Some(i as u64) != ns[x].parent ==> #[trigger] reds_ok(ns, i)
    &&& (ns[x].parent matches Some(p) ==> (ns[p as int].color ==> !red_at(ns, other_child(ns[p as int], x as u64))))
}

/// A red leaf attached to a balanced tree leaves at most the one fault.
pub proof fn lemma_attach_balance(ns: Seq<Node>, root: Option<u64>, rank: Seq<int>, bound: int, bh: Seq<int>, p: Option<u64>, r: bool, val: u64)
    requires
        shaped(ns, root, rank, bound),
        balanced(ns, root, bh),
        ns.len() < u64::MAX,
        p is None ==> root is None,
        p matches Some(pi) ==> pi < ns.len() && side(ns[pi as int], r) is None,
    ensures
        balanced_but(attach_nodes(ns, p, r, val), if p is None { Some(ns.len() as u64) } else { root }, bh.push(0), ns.len() as int),
{
    let n = ns.len() as int;
    let ns2 = attach_nodes(ns, p, r, val);
    let root2 = if p is None { Some(n as u64) } else { root };
    let bh2 = bh.push(0);
    assert(ns2[n] == Node { color: true, parent: p, left: None, right: None, val });
    assert forall|k: int| 0 <= k < n && Some(k as u64) != p implies ns2[k] == ns[k] by {}
    assert forall|k: int| 0 <= k < n implies bh2[k] == bh[k] by {}
    if let Some(pi) = p {
        assert(node_ok(ns, root, rank, pi as int));
        assert(height_ok(ns, bh, pi as int));
        assert(reds_ok(ns, pi as int));
    }
    if let Some(t) = root {
        assert(node_ok(ns, root, rank, t as int));
    }
    assert forall|k: int| 0 <= k < n + 1 implies #[trigger] height_ok(ns2, bh2, k) by {
        if k < n {
            assert(height_ok(ns, bh, k));
            assert(node_ok(ns, root, rank, k));
        }
    }
    assert forall|k: int| 0 <= k < n + 1 && Some(k as u64) != ns2[n].parent implies #[trigger] reds_ok(ns2, k) by {
        if k < n {
            assert(reds_ok(ns, k));
            assert(node_ok(ns, root, rank, k));
        }
    }
}

/// `n` painted red when `c`, black otherwise.
pub open spec fn painted(n: Node, c: bool) -> Node {
    Node { color: c, ..n }
}

/// The recolouring step of an insertion: a red `x` under a red parent
/// whose sibling (the uncle) is red. Parent and uncle turn black, the
/// grandparent red, and the fault moves up to the grandparent.
pub proof fn lemma_recolor_balance(ns: Seq<Node>, root: Option<u64>, rank: Seq<int>, bound: int, bh: Seq<int>, x: int)
    requires
        shaped(ns, root, rank, bound),
        balanced_but(ns, root, bh, x),
        ns.len() <= u64::MAX,
        ns[x].color,
        ns[x].parent is Some,
        ns[ns[x].parent->Some_0 as int].color,
        ns[ns[x].parent->Some_0 as int].parent is Some,
        red_at(ns, other_child(ns[ns[ns[x].parent->Some_0 as int].parent->Some_0 as int], ns[x].parent->Some_0)),
    ensures
        ({
            let p = ns[x].parent->Some_0 as int;
            let g = ns[p].parent->Some_0 as int;
            let u = other_child(ns[g], p as u64)->Some_0 as int;
            let ns2 = ns.update(u, painted(ns[u], false)).update(p, painted(ns[p], false)).update(g, painted(ns[g], true));
            let bh2 = bh.update(p, bh[p] + 1).update(u, bh[u] + 1);
            balanced_but(ns2, root, bh2, g)
        }),
{
    let p = ns[x].parent->Some_0 as int;
    let g = ns[p].parent->Some_0 as int;
    let u = other_child(ns[g], p as u64)->Some_0 as int;
    let ns2 = ns.update(u, painted(ns[u], false)).update(p, painted(ns[p], false)).update(g, painted(ns[g], true));
    let bh2 = bh.update(p, bh[p] + 1).update(u, bh[u] + 1);
    assert(node_ok(ns, root, rank, x));
    assert(node_ok(ns, root, rank, p));
    assert(node_ok(ns, root, rank, g));
    assert(node_ok(ns, root, rank, u));
    assert(rank[p] < rank[x]);
    assert(rank[g] < rank[p]);
    assert(u != p && u != g && u != x);
    assert(reds_ok(ns, g));
    assert(!ns[g].color);
    assert(height_ok(ns, bh, g));
    assert(height_ok(ns, bh, p));
    assert(height_ok(ns, bh, u));
    assert(reds_ok(ns, u));
    assert(reds_ok(ns, x));
    let q = ns[g].parent;
    if let Some(qi) = q {
        assert(node_ok(ns, root, rank, qi as int));
        assert(reds_ok(ns, qi as int));
        assert(height_ok(ns, bh, qi as int));
    }
    if let Some(t) = root {
        assert(node_ok(ns, root, rank, t as int));
    }
    assert forall|k: int| 0 <= k < ns.len() && k != p && k != u && k != g implies ns2[k] == ns[k] && bh2[k] == bh[k] by {}
    assert forall|k: int| 0 <= k < ns.len() implies #[trigger] height_ok(ns2, bh2, k) by {
        assert(height_ok(ns, bh, k));
        assert(node_ok(ns, root, rank, k));
    }
    assert forall|k: int| 0 <= k < ns.len() && Some(k as u64) != ns2[g].parent implies #[trigger] reds_ok(ns2, k) by {
        assert(node_ok(ns, root, rank, k));
        if k != p {
            assert(reds_ok(ns, k));
        }
        if let Some(c) = ns[k].left {
            assert(node_ok(ns, root, rank, c as int));
        }
        if let Some(c) = ns[k].right {
            assert(node_ok(ns, root, rank, c as int));
        }
    }
}

/// The first rotation of an insertion when `x` is the inner child: `x`,
/// on side `!r` of its red parent `p`, which is on side `r` of its own
/// parent, is lifted over `p`. Heights stay, and the fault moves to `p`,
/// now the outer child of `x`.
pub proof fn lemma_inner_balance(ns: Seq<Node>, root: Option<u64>, rank: Seq<int>, bound: int, bh: Seq<int>, x: int, r: bool)
    requires
        shaped(ns, root, rank, bound),
        balanced_but(ns, root, bh, x),
        ns.len() <= u64::MAX,
        ns[x].color,
        ns[x].parent is Some,
        ns[ns[x].parent->Some_0 as int].color,
        side(ns[ns[x].parent->Some_0 as int], !r) == Some(x as u64),
        ns[ns[x].parent->Some_0 as int].parent matches Some(g) && side(ns[g as int], r) == ns[x].parent,
    ensures
        ({
            let p = ns[x].parent->Some_0 as int;
            balanced_but(rot_nodes(ns, p, !r), rot_root(ns, root, p, !r), bh, p)
        }),
{
    let p = ns[x].parent->Some_0 as int;
    let g = ns[p].parent->Some_0 as int;
    assert(node_ok(ns, root, rank, x));
    assert(node_ok(ns, root, rank, p));
    lemma_rot_facts(ns, root, rank, bound, p, !r);
    lemma_rotate(ns, root, rank, bound, p, !r);
    let ns2 = rot_nodes(ns, p, !r);
    let root2 = rot_root(ns, root, p, !r);
    assert(rot_y(ns, p, !r) == x);
    let b = rot_b(ns, p, !r);
    let a = side(ns[p], r);
    let c = side(ns[x], !r);
    assert(node_ok(ns, root, rank, x));
    assert(node_ok(ns, root, rank, p));
    assert(node_ok(ns, root, rank, g));
    assert(height_ok(ns, bh, x));
    assert(height_ok(ns, bh, p));
    assert(height_ok(ns, bh, g));
    assert(reds_ok(ns, x));
    assert(reds_ok(ns, g));
    assert(a == other_child(ns[p], x as u64));
    assert(ns2[p] == Node { parent: Some(x as u64), ..with_side(ns[p], !r, b) });
    assert(ns2[x] == Node { parent: Some(g as u64), ..with_side(ns[x], r, Some(p as u64)) });
    assert(ns2[g] == relink(ns[g], p as u64, x as u64));
    assert(colors(ns2) == colors(ns));
    assert forall|k: int| 0 <= k < ns.len() implies ns2[k].color == ns[k].color by {
        assert(colors(ns2)[k] == colors(ns)[k]);
    }
    if let Some(bi) = b {
        assert(node_ok(ns, root, rank, bi as int));
        assert(height_ok(ns, bh, bi as int));
        assert(reds_ok(ns, bi as int));
    }
    if let Some(t) = root {
        assert(node_ok(ns, root, rank, t as int));
    }
    assert forall|k: int| 0 <= k < ns.len() implies #[trigger] height_ok(ns2, bh, k) by {
        assert(height_ok(ns, bh, k));
        assert(node_ok(ns, root, rank, k));
    }
    assert forall|k: int| 0 <= k < ns.len() && Some(k as u64) != ns2[p].parent implies #[trigger] reds_ok(ns2, k) by {
        assert(node_ok(ns, root, rank, k));
        if k != p {
            assert(reds_ok(ns, k));
        }
        if let Some(cc) = ns[k].left {
            assert(node_ok(ns, root, rank, cc as int));
        }
        if let Some(cc) = ns[k].right {
            assert(node_ok(ns, root, rank, cc as int));
        }
    }
}

/// The closing rotation of an insertion: `x` is the outer child, on side
/// `r` of its red parent `p`, which is on side `r` of the black
/// grandparent `g`, and the uncle is not red. Lifting `p` over `g` and
/// exchanging their colours removes the fault.
pub proof fn lemma_outer_balance(ns: Seq<Node>, root: Option<u64>, rank: Seq<int>, bound: int, bh: Seq<int>, x: int, r: bool)
    requires
        shaped(ns, root, rank, bound),
        balanced_but(ns, root, bh, x),
        ns.len() <= u64::MAX,
        ns[x].color,
        ns[x].parent is Some,
        ns[ns[x].parent->Some_0 as int].color,
        side(ns[ns[x].parent->Some_0 as int], r) == Some(x as u64),
        ns[ns[x].parent->Some_0 as int].parent matches Some(g) && side(ns[g as int], r) == ns[x].parent
            && !red_at(ns, side(ns[g as int], !r)),
    ensures
        ({
            let p = ns[x].parent->Some_0 as int;
            let g = ns[p].parent->Some_0 as int;
            let ns2 = rot_nodes(ns, g, r);
            let ns3 = ns2.update(p, painted(ns2[p], ns2[g].color)).update(g, painted(ns2[g], ns2[p].color));
            balanced(ns3, rot_root(ns, root, g, r), bh.update(g, bh[p]).update(p, bh[g]))
        }),
{
    let p = ns[x].parent->Some_0 as int;
    let g = ns[p].parent->Some_0 as int;
    assert(node_ok(ns, root, rank, x));
    assert(node_ok(ns, root, rank, p));
    lemma_rot_facts(ns, root, rank, bound, g, r);
    lemma_rotate(ns, root, rank, bound, g, r);
    let ns2 = rot_nodes(ns, g, r);
    let ns3 = ns2.update(p, painted(ns2[p], ns2[g].color)).update(g, painted(ns2[g], ns2[p].color));
    let root2 = rot_root(ns, root, g, r);
    let bh2 = bh.update(g, bh[p]).update(p, bh[g]);
    assert(rot_y(ns, g, r) == p);
    let c = rot_b(ns, g, r);
    let u = side(ns[g], !r);
    let q = ns[g].parent;
    assert(node_ok(ns, root, rank, x));
    assert(node_ok(ns, root, rank, p));
    assert(node_ok(ns, root, rank, g));
    assert(height_ok(ns, bh, x));
    assert(height_ok(ns, bh, p));
    assert(height_ok(ns, bh, g));
    assert(reds_ok(ns, x));
    assert(reds_ok(ns, g));
    assert(!ns[g].color);
    assert(c == other_child(ns[p], x as u64));
    assert(ns2[g] == Node { parent: Some(p as u64), ..with_side(ns[g], r, c) });
    assert(ns2[p] == Node { parent: q, ..with_side(ns[p], !r, Some(g as u64)) });
    assert(colors(ns2) == colors(ns));
    assert forall|k: int| 0 <= k < ns.len() implies ns2[k].color == ns[k].color by {
        assert(colors(ns2)[k] == colors(ns)[k]);
    }
    assert(ns3[p].color == false);
    assert(ns3[g].color == true);
    assert forall|k: int| 0 <= k < ns.len() && k != p && k != g implies ns3[k] == ns2[k] && bh2[k] == bh[k] by {}
    if let Some(ci) = c {
        assert(node_ok(ns, root, rank, ci as int));
        assert(height_ok(ns, bh, ci as int));
        assert(reds_ok(ns, ci as int));
    }
    if let Some(ui) = u {
        assert(node_ok(ns, root, rank, ui as int));
    }
    if let Some(qi) = q {
        assert(node_ok(ns, root, rank, qi as int));
        assert(ns2[qi as int] == relink(ns[qi as int], g as u64, p as u64));
        assert(height_ok(ns, bh, qi as int));
        assert(reds_ok(ns, qi as int));
    }
    if let Some(t) = root {
        assert(node_ok(ns, root, rank, t as int));
    }
    assert forall|k: int| 0 <= k < ns.len() implies #[trigger] height_ok(ns3, bh2, k) by {
        assert(height_ok(ns, bh, k));
        assert(node_ok(ns, root, rank, k));
    }
    assert forall|k: int| 0 <= k < ns.len() implies #[trigger] reds_ok(ns3, k) by {
        assert(node_ok(ns, root, rank, k));
        if k != p {
            assert(reds_ok(ns, k));
        }
        if let Some(cc) = ns[k].left {
            assert(node_ok(ns, root, rank, cc as int));
        }
        if let Some(cc) = ns[k].right {
            assert(node_ok(ns, root, rank, cc as int));
        }
    }
}

/// An insertion ends when the fault is gone (`x` black, or its parent
/// black) or has reached the top; painting the root black then balances
/// the tree.
pub proof fn lemma_finish_balance(ns: Seq<Node>, root: Option<u64>, rank: Seq<int>, bound: int, bh: Seq<int>, x: int)
    requires
        shaped(ns, root, rank, bound),
        balanced_but(ns, root, bh, x),
        ns.len() <= u64::MAX,
        root is Some,
        !ns[x].color || ns[x].parent is None || !ns[ns[x].parent->Some_0 as int].color
            || ns[ns[x].parent->Some_0 as int].parent is None,
    ensures
        ({
            let t = root->Some_0 as int;
            balanced(ns.update(t, painted(ns[t], false)), root, bh.update(t, if ns[t].color { bh[t] + 1 } else { bh[t] }))
        }),
{
    let t = root->Some_0 as int;
    let ns2 = ns.update(t, painted(ns[t], false));
    let bh2 = bh.update(t, if ns[t].color { bh[t] + 1 } else { bh[t] });
    assert(node_ok(ns, root, rank, t));
    assert(node_ok(ns, root, rank, x));
    assert(height_ok(ns, bh, t));
    if let Some(p) = ns[x].parent {
        assert(node_ok(ns, root, rank, p as int));
        if ns[p as int].parent is None {
            assert(p as int == t);
        }
    }
    assert forall|k: int| 0 <= k < ns.len() implies #[trigger] height_ok(ns2, bh2, k) by {
        assert(height_ok(ns, bh, k));
        assert(node_ok(ns, root, rank, k));
        if let Some(cc) = ns[k].left {
            assert(node_ok(ns, root, rank, cc as int));
        }
        if let Some(cc) = ns[k].right {
            assert(node_ok(ns, root, rank, cc as int));
        }
    }
    assert forall|k: int| 0 <= k < ns.len() implies #[trigger] reds_ok(ns2, k) by {
        assert(node_ok(ns, root, rank, k));
        if Some(k as u64) != ns[x].parent {
            assert(reds_ok(ns, k));
        } else {
            assert(ns[k].left == Some(x as u64) || ns[k].right == Some(x as u64));
        }
    }
}

/// A balanced tree has no fault anywhere.
pub proof fn lemma_balanced_but(ns: Seq<Node>, root: Option<u64>, rank: Seq<int>, bound: int, bh: Seq<int>, x: int)
    requires
        shaped(ns, root, rank, bound),
        balanced(ns, root, bh),
        0 <= x < ns.len(),
    ensures
        balanced_but(ns, root, bh, x),
{
    assert(node_ok(ns, root, rank, x));
    if let Some(p) = ns[x].parent {
        assert(reds_ok(ns, p as int));
    }
}

/// The child of `n` other than the link `x`.
pub open spec fn sib(n: Node, x: Option<u64>) -> Option<u64> {
    if n.left == x {
        n.right
    } else {
        n.left
    }
}

/// Balanced but for one black too few: below `p`, the side holding `x`
/// (possibly absent, never red) has black height one less than the other.
pub open spec fn deficit(ns: Seq<Node>, root: Option<u64>, bh: Seq<int>, p: int, x: Option<u64>) -> bool {
    &&& bh.len() == ns.len()
    &&& 0 <= p < ns.len()
    &&& (ns[p].left == x || ns[p].right == x)
    &&& !red_at(ns, x)
    &&& !red_at(ns, root)
    &&& forall|i: int| 0 <= i < ns.len() ==> 0 <= #[trigger] bh[i]
    &&& forall|i: int| 0 <= i < ns.len() && i != p ==> #[trigger] height_ok(ns, bh, i)
    &&& bh_at(ns, bh, x) + 1 == bh_at(ns, bh, sib(ns[p], x))
    &&& bh[p] == bh_at(ns, bh, sib(ns[p], x)) + (if ns[p].color { 0int } else { 1int })
    &&& forall|i: int| 0 <= i < ns.len() ==> #[trigger] reds_ok(ns, i)
}

/// A red sibling is rotated above `p` and the two swap colours; the
/// deficit stays below `p`, now red, with a black sibling.
pub proof fn lemma_dd_red(ns: Seq<Node>, root: Option<u64>, rank: Seq<int>, bound: int, bh: Seq<int>, p: int, x: Option<u64>, d: bool)
    requires
        shaped(ns, root, rank, bound),
        deficit(ns, root, bh, p, x),
        ns.len() <= u64::MAX,
        d == (ns[p].left != x),
        red_at(ns, side(ns[p], !d)),
    ensures
        ({
            let s = side(ns[p], !d)->Some_0 as int;
            let ns2 = rot_nodes(ns, p, !d);
            let ns3 = ns2.update(s, painted(ns2[s], false)).update(p, painted(ns2[p], true));
            &&& deficit(ns3, rot_root(ns, root, p, !d), bh.update(s, bh[p]).update(p, bh[s]), p, x)
            &&& side(ns3[p], d) == x
            &&& !red_at(ns3, side(ns3[p], !d))
            &&& ns3[p].color
        }),
{
    let s = side(ns[p], !d)->Some_0 as int;
    assert(node_ok(ns, root, rank, p));
    lemma_rot_facts(ns, root, rank, bound, p, !d);
    lemma_rotate(ns, root, rank, bound, p, !d);
    let ns2 = rot_nodes(ns, p, !d);
    let ns3 = ns2.update(s, painted(ns2[s], false)).update(p, painted(ns2[p], true));
    let root2 = rot_root(ns, root, p, !d);
    let bh2 = bh.update(s, bh[p]).update(p, bh[s]);
    assert(rot_y(ns, p, !d) == s);
    let b = rot_b(ns, p, !d);
    let q = ns[p].parent;
    assert(node_ok(ns, root, rank, s));
    assert(reds_ok(ns, p));
    assert(reds_ok(ns, s));
    assert(height_ok(ns, bh, s));
    assert(!ns[p].color);
    assert(colors(ns2) == colors(ns));
    assert forall|k: int| 0 <= k < ns.len() implies ns2[k].color == ns[k].color by {
        assert(colors(ns2)[k] == colors(ns)[k]);
    }
    if let Some(xi) = x {
        assert(node_ok(ns, root, rank, xi as int));
    }
    if let Some(bi) = b {
        assert(node_ok(ns, root, rank, bi as int));
        assert(height_ok(ns, bh, bi as int));
    }
    if let Some(fi) = side(ns[s], !d) {
        assert(node_ok(ns, root, rank, fi as int));
    }
    if let Some(qi) = q {
        assert(node_ok(ns, root, rank, qi as int));
        assert(ns2[qi as int] == relink(ns[qi as int], p as u64, s as u64));
        assert(height_ok(ns, bh, qi as int));
        assert(reds_ok(ns, qi as int));
    }
    if let Some(t) = root {
        assert(node_ok(ns, root, rank, t as int));
    }
    assert forall|k: int| 0 <= k < ns.len() && k != p && k != s implies ns3[k] == ns2[k] && bh2[k] == bh[k] by {}
    assert forall|k: int| 0 <= k < ns.len() && k != p implies #[trigger] height_ok(ns3, bh2, k) by {
        assert(node_ok(ns, root, rank, k));
        if k != p {
            assert(height_ok(ns, bh, k));
        }
    }
    assert forall|k: int| 0 <= k < ns.len() implies #[trigger] reds_ok(ns3, k) by {
        assert(node_ok(ns, root, rank, k));
        assert(reds_ok(ns, k));
        if let Some(cc) = ns[k].left {
            assert(node_ok(ns, root, rank, cc as int));
        }
        if let Some(cc) = ns[k].right {
            assert(node_ok(ns, root, rank, cc as int));
        }
    }
}

/// A black sibling with no red child is painted red. A red `p` is then
/// painted black and the tree is balanced; a black `p` carries the deficit
/// one level up (or, at the root, the tree is balanced).
pub proof fn lemma_dd_blacks(ns: Seq<Node>, root: Option<u64>, rank: Seq<int>, bound: int, bh: Seq<int>, p: int, x: Option<u64>, d: bool)
    requires
        shaped(ns, root, rank, bound),
        deficit(ns, root, bh, p, x),
        ns.len() <= u64::MAX,
        d == (ns[p].left != x),
        side(ns[p], !d) is Some,
        !ns[side(ns[p], !d)->Some_0 as int].color,
        !red_at(ns, ns[side(ns[p], !d)->Some_0 as int].left),
        !red_at(ns, ns[side(ns[p], !d)->Some_0 as int].right),
    ensures
        ({
            let s = side(ns[p], !d)->Some_0 as int;
            let ns2 = ns.update(s, painted(ns[s], true));
            let bh2 = bh.update(s, bh[s] - 1);
            &&& ns[p].color ==> balanced(ns2.update(p, painted(ns2[p], false)), root, bh2)
            &&& !ns[p].color ==> match ns[p].parent {
                Some(q) => deficit(ns2, root, bh2.update(p, bh[p] - 1), q as int, Some(p as u64)),
                None => balanced(ns2, root, bh2.update(p, bh[p] - 1)),
            }
        }),
{
    let s = side(ns[p], !d)->Some_0 as int;
    let ns2 = ns.update(s, painted(ns[s], true));
    let bh2 = bh.update(s, bh[s] - 1);
    assert(node_ok(ns, root, rank, p));
    assert(node_ok(ns, root, rank, s));
    assert(height_ok(ns, bh, s));
    assert(reds_ok(ns, s));
    if let Some(xi) = x {
        assert(node_ok(ns, root, rank, xi as int));
    }
    if let Some(c) = ns[s].left {
        assert(node_ok(ns, root, rank, c as int));
    }
    if let Some(c) = ns[s].right {
        assert(node_ok(ns, root, rank, c as int));
    }
    let q = ns[p].parent;
    if let Some(qi) = q {
        assert(node_ok(ns, root, rank, qi as int));
        assert(height_ok(ns, bh, qi as int));
        assert(reds_ok(ns, qi as int));
    }
    if let Some(t) = root {
        assert(node_ok(ns, root, rank, t as int));
    }
    if ns[p].color {
        let ns3 = ns2.update(p, painted(ns2[p], false));
        assert forall|k: int| 0 <= k < ns.len() implies #[trigger] height_ok(ns3, bh2, k) by {
            assert(node_ok(ns, root, rank, k));
            if k != p {
                assert(height_ok(ns, bh, k));
            }
        }
        assert forall|k: int| 0 <= k < ns.len() implies #[trigger] reds_ok(ns3, k) by {
            assert(node_ok(ns, root, rank, k));
            assert(reds_ok(ns, k));
        }
    } else {
        let bh3 = bh2.update(p, bh[p] - 1);
        assert forall|k: int| 0 <= k < ns.len() && Some(k as u64) != q implies #[trigger] height_ok(ns2, bh3, k) by {
            assert(node_ok(ns, root, rank, k));
            if k != p {
                assert(height_ok(ns, bh, k));
            }
        }
        assert forall|k: int| 0 <= k < ns.len() implies #[trigger] reds_ok(ns2, k) by {
            assert(node_ok(ns, root, rank, k));
            assert(reds_ok(ns, k));
        }
        if let Some(qi) = q {
            assert(ns[qi as int].left == Some(p as u64) || ns[qi as int].right == Some(p as u64));
        }
    }
}

/// A black sibling whose near child is red and far child is not: the near
/// child is lifted over the sibling and the two swap colours. The deficit
/// stays, now with a black sibling whose far child is red.
#[verifier::rlimit(100)]
#[verifier::spinoff_prover]
pub proof fn lemma_dd_near(ns: Seq<Node>, root: Option<u64>, rank: Seq<int>, bound: int, bh: Seq<int>, p: int, x: Option<u64>, d: bool)
    requires
        shaped(ns, root, rank, bound),
        deficit(ns, root, bh, p, x),
        ns.len() <= u64::MAX,
        d == (ns[p].left != x),
        side(ns[p], !d) is Some,
        !ns[side(ns[p], !d)->Some_0 as int].color,
        red_at(ns, side(ns[side(ns[p], !d)->Some_0 as int], d)),
        !red_at(ns, side(ns[side(ns[p], !d)->Some_0 as int], !d)),
    ensures
        ({
            let s = side(ns[p], !d)->Some_0 as int;
            let n = side(ns[s], d)->Some_0 as int;
            let ns2 = rot_nodes(ns, s, d);
            let ns3 = ns2.update(n, painted(ns2[n], false)).update(s, painted(ns2[s], true));
            &&& deficit(ns3, rot_root(ns, root, s, d), bh.update(n, bh[s]).update(s, bh[n]), p, x)
            &&& side(ns3[p], !d) == Some(n as u64)
            &&& side(ns3[p], d) == x
            &&& red_at(ns3, side(ns3[n], !d))
            &&& !ns3[n].color
        }),
{
    let s = side(ns[p], !d)->Some_0 as int;
    let n = side(ns[s], d)->Some_0 as int;
    assert(node_ok(ns, root, rank, p));
    assert(node_ok(ns, root, rank, s));
    assert(node_ok(ns, root, rank, n));
    lemma_rot_facts(ns, root, rank, bound, s, d);
    lemma_rotate(ns, root, rank, bound, s, d);
    let ns2 = rot_nodes(ns, s, d);
    let ns3 = ns2.update(n, painted(ns2[n], false)).update(s, painted(ns2[s], true));
    let bh2 = bh.update(n, bh[s]).update(s, bh[n]);
    assert(rot_y(ns, s, d) == n);
    let b = rot_b(ns, s, d);
    let f = side(ns[s], !d);
    assert(colors(ns2) == colors(ns));
    assert forall|k: int| 0 <= k < ns.len() implies ns2[k].color == ns[k].color by {
        assert(colors(ns2)[k] == colors(ns)[k]);
    }
    assert(height_ok(ns, bh, s));
    assert(height_ok(ns, bh, n));
    assert(reds_ok(ns, n));
    assert(reds_ok(ns, p));
    assert(ns2[p] == relink(ns[p], s as u64, n as u64));
    if let Some(xi) = x {
        assert(node_ok(ns, root, rank, xi as int));
    }
    if let Some(bi) = b {
        assert(node_ok(ns, root, rank, bi as int));
    }
    if let Some(fi) = f {
        assert(node_ok(ns, root, rank, fi as int));
    }
    if let Some(c) = side(ns[n], !d) {
        assert(node_ok(ns, root, rank, c as int));
    }
    assert forall|k: int| 0 <= k < ns.len() && k != p implies #[trigger] height_ok(ns3, bh2, k) by {
        assert(node_ok(ns, root, rank, k));
        assert(height_ok(ns, bh, k));
    }
    assert forall|k: int| 0 <= k < ns.len() implies #[trigger] reds_ok(ns3, k) by {
        assert(node_ok(ns, root, rank, k));
        assert(reds_ok(ns, k));
        if let Some(cc) = ns[k].left {
            assert(node_ok(ns, root, rank, cc as int));
        }
        if let Some(cc) = ns[k].right {
            assert(node_ok(ns, root, rank, cc as int));
        }
    }
}

#[verifier::rlimit(100)]
#[verifier::spinoff_prover]
proof fn lemma_dd_far_node(ns: Seq<Node>, root: Option<u64>, rank: Seq<int>, bound: int, bh: Seq<int>, p: int, x: Option<u64>, d: bool, k: int)
    requires
        shaped(ns, root, rank, bound),
        deficit(ns, root, bh, p, x),
        ns.len() <= u64::MAX,
        d == (ns[p].left != x),
        side(ns[p], !d) is Some,
        !ns[side(ns[p], !d)->Some_0 as int].color,
        red_at(ns, side(ns[side(ns[p], !d)->Some_0 as int], !d)),
        0 <= k < ns.len(),
    ensures
        ({
            let s = side(ns[p], !d)->Some_0 as int;
            let f = side(ns[s], !d)->Some_0 as int;
            let ns2 = rot_nodes(ns, p, !d);
            let ns3 = ns2.update(f, painted(ns2[f], false)).update(s, painted(ns2[s], ns[p].color)).update(p, painted(ns2[p], false));
            let bh2 = bh.update(f, bh[f] + 1).update(p, bh_at(ns, bh, x) + 1).update(s, bh[p]);
            &&& height_ok(ns3, bh2, k)
            &&& reds_ok(ns3, k)
            &&& 0 <= bh2[k]
        }),
{
    let s = side(ns[p], !d)->Some_0 as int;
    let f = side(ns[s], !d)->Some_0 as int;
    assert(node_ok(ns, root, rank, p));
    assert(node_ok(ns, root, rank, s));
    assert(node_ok(ns, root, rank, f));
    lemma_rot_facts(ns, root, rank, bound, p, !d);
    lemma_rotate(ns, root, rank, bound, p, !d);
    let ns2 = rot_nodes(ns, p, !d);
    let ns3 = ns2.update(f, painted(ns2[f], false)).update(s, painted(ns2[s], ns[p].color)).update(p, painted(ns2[p], false));
    let bh2 = bh.update(f, bh[f] + 1).update(p, bh_at(ns, bh, x) + 1).update(s, bh[p]);
    assert(rot_y(ns, p, !d) == s);
    let b = rot_b(ns, p, !d);
    let q = ns[p].parent;
    assert(colors(ns2) == colors(ns));
    assert forall|k: int| 0 <= k < ns.len() implies ns2[k].color == ns[k].color by {
        assert(colors(ns2)[k] == colors(ns)[k]);
    }
    assert(height_ok(ns, bh, s));
    assert(height_ok(ns, bh, f));
    assert(reds_ok(ns, f));
    assert(reds_ok(ns, p));
    assert(reds_ok(ns, s));
    if let Some(xi) = x {
        assert(node_ok(ns, root, rank, xi as int));
    }
    if let Some(bi) = b {
        assert(node_ok(ns, root, rank, bi as int));
    }
    if let Some(qi) = q {
        assert(node_ok(ns, root, rank, qi as int));
        assert(ns2[qi as int] == relink(ns[qi as int], p as u64, s as u64));
        assert(height_ok(ns, bh, qi as int));
        assert(reds_ok(ns, qi as int));
    }
    if let Some(t) = root {
        assert(node_ok(ns, root, rank, t as int));
    }
    assert(node_ok(ns, root, rank, k));
    assert(height_ok(ns, bh, k) || k == p);
    if k != p {
        assert(height_ok(ns, bh, k));
    }
    assert(reds_ok(ns, k));
    if let Some(cc) = ns[k].left {
        assert(node_ok(ns, root, rank, cc as int));
    }
    if let Some(cc) = ns[k].right {
        assert(node_ok(ns, root, rank, cc as int));
    }
}

/// A black sibling whose far child is red: the sibling is lifted over
/// `p`, takes the colour of `p`, and `p` and the far child turn black. The
/// tree is balanced.
pub proof fn lemma_dd_far(ns: Seq<Node>, root: Option<u64>, rank: Seq<int>, bound: int, bh: Seq<int>, p: int, x: Option<u64>, d: bool)
    requires
        shaped(ns, root, rank, bound),
        deficit(ns, root, bh, p, x),
        ns.len() <= u64::MAX,
        d == (ns[p].left != x),
        side(ns[p], !d) is Some,
        !ns[side(ns[p], !d)->Some_0 as int].color,
        red_at(ns, side(ns[side(ns[p], !d)->Some_0 as int], !d)),
    ensures
        ({
            let s = side(ns[p], !d)->Some_0 as int;
            let f = side(ns[s], !d)->Some_0 as int;
            let ns2 = rot_nodes(ns, p, !d);
            let ns3 = ns2.update(f, painted(ns2[f], false)).update(s, painted(ns2[s], ns[p].color)).update(p, painted(ns2[p], false));
            balanced(ns3, rot_root(ns, root, p, !d), bh.update(f, bh[f] + 1).update(p, bh_at(ns, bh, x) + 1).update(s, bh[p]))
        }),
{
    let s = side(ns[p], !d)->Some_0 as int;
    let f = side(ns[s], !d)->Some_0 as int;
    assert(node_ok(ns, root, rank, p));
    assert(node_ok(ns, root, rank, s));
    lemma_rot_facts(ns, root, rank, bound, p, !d);
    lemma_rotate(ns, root, rank, bound, p, !d);
    let ns2 = rot_nodes(ns, p, !d);
    let ns3 = ns2.update(f, painted(ns2[f], false)).update(s, painted(ns2[s], ns[p].color)).update(p, painted(ns2[p], false));
    let bh2 = bh.update(f, bh[f] + 1).update(p, bh_at(ns, bh, x) + 1).update(s, bh[p]);
    let root2 = rot_root(ns, root, p, !d);
    assert forall|k: int| 0 <= k < ns.len() implies #[trigger] height_ok(ns3, bh2, k) && reds_ok(ns3, k) && 0 <= bh2[k] by {
        lemma_dd_far_node(ns, root, rank, bound, bh, p, x, d, k);
    }
    assert forall|k: int| 0 <= k < ns.len() implies #[trigger] reds_ok(ns3, k) by {
        lemma_dd_far_node(ns, root, rank, bound, bh, p, x, d, k);
    }
    assert forall|k: int| 0 <= k < ns.len() implies 0 <= #[trigger] bh2[k] by {
        lemma_dd_far_node(ns, root, rank, bound, bh, p, x, d, k);
    }
    assert(colors(ns2) == colors(ns));
    if let Some(t) = root {
        assert(node_ok(ns, root, rank, t as int));
        assert(colors(ns2)[t as int] == colors(ns)[t as int]);
    }
    assert(colors(ns2)[s] == colors(ns)[s]);
}

/// Balanced over every node but `t`, which nothing links to.
pub open spec fn balanced_skip(ns: Seq<Node>, root: Option<u64>, bh: Seq<int>, t: int) -> bool {
    &&& bh.len() == ns.len()
    &&& !red_at(ns, root)
    &&& forall|i: int| 0 <= i < ns.len() && i != t ==> 0 <= #[trigger] bh[i]
    &&& forall|i: int| 0 <= i < ns.len() && i != t ==> #[trigger] height_ok(ns, bh, i)
    &&& forall|i: int| 0 <= i < ns.len() && i != t ==> #[trigger] reds_ok(ns, i)
}

/// A deficit below `p` over every node but `t`, which nothing links to.
pub open spec fn deficit_skip(ns: Seq<Node>, root: Option<u64>, bh: Seq<int>, p: int, x: Option<u64>, t: int) -> bool {
    &&& bh.len() == ns.len()
    &&& 0 <= p < ns.len()
    &&& p != t
    &&& (ns[p].left == x || ns[p].right == x)
    &&& !red_at(ns, x)
    &&& !red_at(ns, root)
    &&& forall|i: int| 0 <= i < ns.len() && i != t ==> 0 <= #[trigger] bh[i]
    &&& forall|i: int| 0 <= i < ns.len() && i != p && i != t ==> #[trigger] height_ok(ns, bh, i)
    &&& bh_at(ns, bh, x) + 1 == bh_at(ns, bh, sib(ns[p], x))
    &&& bh[p] == bh_at(ns, bh, sib(ns[p], x)) + (if ns[p].color { 0int } else { 1int })
    &&& forall|i: int| 0 <= i < ns.len() && i != t ==> #[trigger] reds_ok(ns, i)
}

/// Whether removing `t` (with child `c`) leaves a black too few: `t` and
/// `c` are both not red.
pub open spec fn short_after(ns: Seq<Node>, t: int, c: Option<u64>) -> bool {
    !ns[t].color && !red_at(ns, c)
}

/// `ns` with the child `c` painted black when removing `t` leaves no
/// black too few.
pub open spec fn splice_paint(ns: Seq<Node>, t: int, c: Option<u64>) -> Seq<Node> {
    if !short_after(ns, t, c) && c is Some {
        ns.update(c->Some_0 as int, painted(ns[c->Some_0 as int], false))
    } else {
        ns
    }
}

/// Heights after that painting.
pub open spec fn splice_bh(ns: Seq<Node>, bh: Seq<int>, t: int, c: Option<u64>) -> Seq<int> {
    if !short_after(ns, t, c) && red_at(ns, c) {
        bh.update(c->Some_0 as int, bh[c->Some_0 as int] + 1)
    } else {
        bh
    }
}

/// Splicing a node with at most one child out of a balanced tree leaves
/// it balanced (a red node goes without trace; a red child is painted
/// black), or else with a black too few below the node's parent.
#[verifier::rlimit(100)]
#[verifier::spinoff_prover]
pub proof fn lemma_splice_balance(ns: Seq<Node>, root: Option<u64>, rank: Seq<int>, bound: int, bh: Seq<int>, t: int, c: Option<u64>)
    requires
        shaped(ns, root, rank, bound),
        balanced(ns, root, bh),
        ns.len() <= u64::MAX,
        0 <= t < ns.len(),
        ns[t].left is None || ns[t].right is None,
        c == (if ns[t].left is Some { ns[t].left } else { ns[t].right }),
    ensures
        ({
            let ns1 = splice_paint(ns, t, c);
            let bh1 = splice_bh(ns, bh, t, c);
            let ns2 = splice_nodes(ns1, t, c);
            let root2 = splice_root(ns1, root, t, c);
            &&& shaped(ns1, root, rank, bound)
            &&& (short_after(ns, t, c) && ns[t].parent is Some) ==> deficit_skip(ns2, root2, bh1, ns[t].parent->Some_0 as int, c, t)
            &&& !(short_after(ns, t, c) && ns[t].parent is Some) ==> balanced_skip(ns2, root2, bh1, t)
        }),
{
    let ns1 = splice_paint(ns, t, c);
    let bh1 = splice_bh(ns, bh, t, c);
    assert(node_ok(ns, root, rank, t));
    assert(height_ok(ns, bh, t));
    assert(reds_ok(ns, t));
    if let Some(ci) = c {
        assert(node_ok(ns, root, rank, ci as int));
        assert(height_ok(ns, bh, ci as int));
        if !short_after(ns, t, c) {
            lemma_recolor(ns, root, rank, bound, ci as int, false);
        }
    }
    let p = ns[t].parent;
    assert(ns1[t] == ns[t]);
    assert(ns1[t].parent == p);
    let ns2 = splice_nodes(ns1, t, c);
    let root2 = splice_root(ns1, root, t, c);
    if let Some(pi) = p {
        assert(node_ok(ns, root, rank, pi as int));
        assert(height_ok(ns, bh, pi as int));
        assert(reds_ok(ns, pi as int));
        assert(rank[pi as int] < rank[t]);
        if let Some(ci) = c {
            assert(pi != ci);
        }
        if ns1[pi as int].left == Some(t as u64) {
            assert(ns2[pi as int] == Node { left: c, ..ns1[pi as int] });
        } else {
            assert(ns2[pi as int] == Node { right: c, ..ns1[pi as int] });
        }
    }
    if let Some(ci) = c {
        assert(ns2[ci as int] == Node { parent: p, ..ns1[ci as int] });
    }
    if let Some(r0) = root {
        assert(node_ok(ns, root, rank, r0 as int));
    }
    assert forall|j: int| 0 <= j < ns.len() && Some(j as u64) != c && Some(j as u64) != p implies ns2[j] == ns1[j] by {}
    assert forall|k: int| 0 <= k < ns.len() && k != t && !(short_after(ns, t, c) && p == Some(k as u64)) implies #[trigger] height_ok(ns2, bh1, k) by {
        assert(node_ok(ns, root, rank, k));
        assert(height_ok(ns, bh, k));
    }
    assert forall|k: int| 0 <= k < ns.len() && k != t implies #[trigger] reds_ok(ns2, k) by {
        assert(node_ok(ns, root, rank, k));
        assert(reds_ok(ns, k));
        if let Some(cc) = ns[k].left {
            assert(node_ok(ns, root, rank, cc as int));
        }
        if let Some(cc) = ns[k].right {
            assert(node_ok(ns, root, rank, cc as int));
        }
    }
}

/// A link after the last record moves into slot `t`.
pub open spec fn moved(x: Option<u64>, last: int, t: int) -> Option<u64> {
    if x == Some(last as u64) {
        Some(t as u64)
    } else {
        x
    }
}

proof fn lemma_compact_node_bal(ns: Seq<Node>, root: Option<u64>, rank: Seq<int>, bound: int, bh: Seq<int>, t: int, k: int)
    requires
        shaped_except(ns, root, rank, bound, t),
        ns.len() <= u64::MAX,
        bh.len() == ns.len(),
        0 <= k < ns.len() - 1,
    ensures
        ({
            let last = ns.len() - 1;
            let o = if k == t { last } else { k };
            let ns2 = compact_nodes(ns, t);
            let bh2 = compact_rank(bh, t);
            &&& o != t
            &&& bh2[k] == bh[o]
            &&& ns2[k].color == ns[o].color
            &&& ns2[k].left == moved(ns[o].left, last, t)
            &&& ns2[k].right == moved(ns[o].right, last, t)
            &&& bh_at(ns2, bh2, ns2[k].left) == bh_at(ns, bh, ns[o].left)
            &&& bh_at(ns2, bh2, ns2[k].right) == bh_at(ns, bh, ns[o].right)
            &&& red_at(ns2, ns2[k].left) == red_at(ns, ns[o].left)
            &&& red_at(ns2, ns2[k].right) == red_at(ns, ns[o].right)
        }),
{
    let last = ns.len() - 1;
    let o = if k == t { last } else { k };
    let ns2 = compact_nodes(ns, t);
    let bh2 = compact_rank(bh, t);
    if t == last {
        assert(ns2 == ns.drop_last());
        assert(node_ok(ns, root, rank, k));
        if let Some(c) = ns[k].left {
            assert(c != t);
        }
        if let Some(c) = ns[k].right {
            assert(c != t);
        }
    } else {
        lemma_compact_facts(ns, root, rank, bound, t);
        let ln = ns[last];
        assert(node_ok(ns, root, rank, o));
        assert forall|j: int| 0 <= j < last && j != t implies bh2[j] == bh[j] by {}
        assert(bh2[t] == bh[last]);
        if let Some(c) = ns[o].left {
            assert(node_ok(ns, root, rank, c as int));
            assert(c != t);
        }
        if let Some(c) = ns[o].right {
            assert(node_ok(ns, root, rank, c as int));
            assert(c != t);
        }
        if let Some(qq) = ln.parent {
            assert(node_ok(ns, root, rank, qq as int));
        }
        if let Some(c) = ln.left {
            assert(node_ok(ns, root, rank, c as int));
        }
        if let Some(c) = ln.right {
            assert(node_ok(ns, root, rank, c as int));
        }
    }
}

/// Moving the last record into the free slot keeps the balance.
pub proof fn lemma_compact_balance(ns: Seq<Node>, root: Option<u64>, rank: Seq<int>, bound: int, bh: Seq<int>, t: int)
    requires
        shaped_except(ns, root, rank, bound, t),
        ns.len() <= u64::MAX,
        balanced_skip(ns, root, bh, t),
    ensures
        balanced(compact_nodes(ns, t), compact_root(ns, root, t), compact_rank(bh, t)),
{
    let last = ns.len() - 1;
    let ns2 = compact_nodes(ns, t);
    let bh2 = compact_rank(bh, t);
    assert forall|k: int| 0 <= k < last implies #[trigger] height_ok(ns2, bh2, k) && reds_ok(ns2, k) && 0 <= bh2[k] by {
        lemma_compact_node_bal(ns, root, rank, bound, bh, t, k);
        let o = if k == t { last } else { k };
        assert(height_ok(ns, bh, o));
        assert(reds_ok(ns, o));
    }
    assert forall|k: int| 0 <= k < last implies #[trigger] reds_ok(ns2, k) by {
        assert(height_ok(ns2, bh2, k));
    }
    assert forall|k: int| 0 <= k < last implies 0 <= #[trigger] bh2[k] by {
        assert(height_ok(ns2, bh2, k));
    }
    if t != last {
        lemma_compact_facts(ns, root, rank, bound, t);
    }
    if let Some(r0) = compact_root(ns, root, t) {
        if t != last && ns[last].parent is None {
            assert(r0 == t);
            lemma_compact_node_bal(ns, root, rank, bound, bh, t, t);
            assert(root == Some(last as u64));
        } else {
            assert(r0 != t) by {
                assert(root != Some(t as u64));
            }
            if t != last {
                assert(node_ok(ns, root, rank, last));
            }
            lemma_compact_node_bal(ns, root, rank, bound, bh, t, r0 as int);
        }
    }
}

/// Moving the last record into the free slot keeps a deficit, below the
/// moved names of `p` and `x`.
pub proof fn lemma_compact_deficit(ns: Seq<Node>, root: Option<u64>, rank: Seq<int>, bound: int, bh: Seq<int>, t: int, p: int, x: Option<u64>)
    requires
        shaped_except(ns, root, rank, bound, t),
        ns.len() <= u64::MAX,
        deficit_skip(ns, root, bh, p, x, t),
    ensures
        ({
            let last = ns.len() - 1;
            let p2 = if p == last { t } else { p };
            deficit(compact_nodes(ns, t), compact_root(ns, root, t), compact_rank(bh, t), p2, moved(x, last, t))
        }),
{
    let last = ns.len() - 1;
    let ns2 = compact_nodes(ns, t);
    let bh2 = compact_rank(bh, t);
    let p2 = if p == last { t } else { p };
    assert(p2 < last) by {
        if p != last {
            assert(p < last || p == last);
        }
        assert(t != last || p != last);
    }
    lemma_compact_node_bal(ns, root, rank, bound, bh, t, p2);
    assert forall|k: int| 0 <= k < last && k != p2 implies #[trigger] height_ok(ns2, bh2, k) by {
        lemma_compact_node_bal(ns, root, rank, bound, bh, t, k);
        let o = if k == t { last } else { k };
        assert(height_ok(ns, bh, o));
    }
    assert forall|k: int| 0 <= k < last implies #[trigger] reds_ok(ns2, k) by {
        lemma_compact_node_bal(ns, root, rank, bound, bh, t, k);
        let o = if k == t { last } else { k };
        assert(reds_ok(ns, o));
    }
    assert forall|k: int| 0 <= k < last implies 0 <= #[trigger] bh2[k] by {
        lemma_compact_node_bal(ns, root, rank, bound, bh, t, k);
    }
    if t != last {
        lemma_compact_facts(ns, root, rank, bound, t);
    }
    if let Some(r0) = compact_root(ns, root, t) {
        if t != last && ns[last].parent is None {
            lemma_compact_node_bal(ns, root, rank, bound, bh, t, t);
            assert(root == Some(last as u64));
        } else {
            assert(r0 != t) by {
                assert(root != Some(t as u64));
            }
            if t != last {
                assert(node_ok(ns, root, rank, last));
            }
            lemma_compact_node_bal(ns, root, rank, bound, bh, t, r0 as int);
        }
    }
}

/// Changing a key leaves colours and links, hence the balance.
pub proof fn lemma_rekey_balance(ns: Seq<Node>, root: Option<u64>, rank: Seq<int>, bound: int, bh: Seq<int>, i: int, v: u64)
    requires
        shaped(ns, root, rank, bound),
        balanced(ns, root, bh),
        0 <= i < ns.len(),
    ensures
        balanced(ns.update(i, Node { val: v, ..ns[i] }), root, bh),
{
    let ns2 = ns.update(i, Node { val: v, ..ns[i] });
    assert forall|k: int| 0 <= k < ns.len() implies #[trigger] height_ok(ns2, bh, k) by {
        assert(height_ok(ns, bh, k));
    }
    assert forall|k: int| 0 <= k < ns.len() implies #[trigger] reds_ok(ns2, k) by {
        assert(reds_ok(ns, k));
        assert(node_ok(ns, root, rank, k));
    }
    if let Some(r0) = root {
        assert(node_ok(ns, root, rank, r0 as int));
    }
}

} // verus!
