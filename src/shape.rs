//! The shape of a tree held in an arena: what it means for the node
//! records to form one binary tree, and how rotations, insertions,
//! splices and compaction keep that shape.

use crate::arena::Node;
use vstd::prelude::*;

verus! {

/// The child of `n` on the right side when `r`, on the left side otherwise.
pub open spec fn side(n: Node, r: bool) -> Option<u64> {
    if r {
        n.right
    } else {
        n.left
    }
}

/// `n` with its child on side `r` replaced by `c`.
pub open spec fn with_side(n: Node, r: bool, c: Option<u64>) -> Node {
    if r {
        Node { right: c, ..n }
    } else {
        Node { left: c, ..n }
    }
}

/// A link that is absent or names a live position.
pub open spec fn link_in(len: nat, x: Option<u64>) -> bool {
    x matches Some(i) ==> i < len
}

/// Node `i` is consistent with its neighbours: its links are live, its
/// children point back to it, its parent points down to it, only the root
/// lacks a parent, and ranks grow from parent to child.
pub open spec fn node_ok(ns: Seq<Node>, root: Option<u64>, rank: Seq<int>, i: int) -> bool {
    let n = ns[i];
    &&& link_in(ns.len(), n.parent)
    &&& link_in(ns.len(), n.left)
    &&& link_in(ns.len(), n.right)
    &&& (n.parent is None <==> root == Some(i as u64))
    &&& (n.left matches Some(c) ==> ns[c as int].parent == Some(i as u64) && rank[i] < rank[c as int])
    &&& (n.right matches Some(c) ==> ns[c as int].parent == Some(i as u64) && rank[i] < rank[c as int])
    &&& (n.parent matches Some(p) ==> ns[p as int].left == Some(i as u64) || ns[p as int].right == Some(i as u64))
    &&& (n.left is Some && n.right is Some ==> n.left != n.right)
}

/// The nodes form one binary tree hanging from `root`, with parent links
/// that mirror the child links, and `rank` orders every path from the root.
pub open spec fn shaped(ns: Seq<Node>, root: Option<u64>, rank: Seq<int>, bound: int) -> bool {
    &&& rank.len() == ns.len()
    &&& 0 <= bound
    &&& link_in(ns.len(), root)
    &&& forall|i: int| 0 <= i < ns.len() ==> 0 <= #[trigger] rank[i] < bound
    &&& forall|i: int| 0 <= i < ns.len() ==> #[trigger] node_ok(ns, root, rank, i)
}

/// The keys of the nodes, in position order.
pub open spec fn vals(ns: Seq<Node>) -> Seq<u64> {
    Seq::new(ns.len(), |i: int| ns[i].val)
}

/// The colours of the nodes, in position order.
pub open spec fn colors(ns: Seq<Node>) -> Seq<bool> {
    Seq::new(ns.len(), |i: int| ns[i].color)
}

/// The nodes after lifting the child of `x` on side `r` into its place.
#[verifier::opaque]
pub open spec fn rot_nodes(ns: Seq<Node>, x: int, r: bool) -> Seq<Node> {
    let xn = ns[x];
    let y = side(xn, r)->Some_0 as int;
    let b = side(ns[y], !r);
    let p = xn.parent;
    let s1 = ns.update(x, Node { parent: Some(y as u64), ..with_side(xn, r, b) });
    let s2 = match b {
        Some(bi) => s1.update(bi as int, Node { parent: Some(x as u64), ..s1[bi as int] }),
        None => s1,
    };
    let s3 = s2.update(y, Node { parent: p, ..with_side(s2[y], !r, Some(x as u64)) });
    match p {
        Some(pi) => if s3[pi as int].left == Some(x as u64) {
            s3.update(pi as int, Node { left: Some(y as u64), ..s3[pi as int] })
        } else {
            s3.update(pi as int, Node { right: Some(y as u64), ..s3[pi as int] })
        },
        None => s3,
    }
}

/// The root after that rotation.
pub open spec fn rot_root(ns: Seq<Node>, root: Option<u64>, x: int, r: bool) -> Option<u64> {
    if ns[x].parent is None {
        side(ns[x], r)
    } else {
        root
    }
}

/// Ranks after that rotation: all doubled, with the lifted child taking the
/// rank of `x` and `x` placed just below it.
pub open spec fn rot_rank(ns: Seq<Node>, rank: Seq<int>, x: int, r: bool) -> Seq<int> {
    let y = side(ns[x], r)->Some_0 as int;
    Seq::new(
        rank.len(),
        |i: int|
            if i == y {
                2 * rank[x]
            } else if i == x {
                2 * rank[x] + 1
            } else {
                2 * rank[i]
            },
    )
}

/// The child of `x` that a rotation lifts.
pub open spec fn rot_y(ns: Seq<Node>, x: int, r: bool) -> int {
    side(ns[x], r)->Some_0 as int
}

/// The grandchild that a rotation moves across to `x`.
pub open spec fn rot_b(ns: Seq<Node>, x: int, r: bool) -> Option<u64> {
    side(ns[rot_y(ns, x, r)], !r)
}

/// `p` with its child link to `x` turned to `y`.
pub open spec fn relink(pn: Node, x: u64, y: u64) -> Node {
    if pn.left == Some(x) {
        Node { left: Some(y), ..pn }
    } else {
        Node { right: Some(y), ..pn }
    }
}

pub(crate) proof fn lemma_rot_facts(ns: Seq<Node>, root: Option<u64>, rank: Seq<int>, bound: int, x: int, r: bool)
    requires
        shaped(ns, root, rank, bound),
        0 <= x < ns.len(),
        ns.len() <= u64::MAX,
        side(ns[x], r) is Some,
    ensures
        ({
            let ns2 = rot_nodes(ns, x, r);
            let y = rot_y(ns, x, r);
            let b = rot_b(ns, x, r);
            let p = ns[x].parent;
            &&& 0 <= y < ns.len()
            &&& rank[x] < rank[y]
            &&& ns2.len() == ns.len()
            &&& ns2[x] == Node { parent: Some(y as u64), ..with_side(ns[x], r, b) }
            &&& ns2[y] == Node { parent: p, ..with_side(ns[y], !r, Some(x as u64)) }
            &&& (b matches Some(bi) ==> bi < ns.len() && rank[y] < rank[bi as int]
                && ns2[bi as int] == Node { parent: Some(x as u64), ..ns[bi as int] })
            &&& (p matches Some(pi) ==> pi < ns.len() && rank[pi as int] < rank[x]
                && ns2[pi as int] == relink(ns[pi as int], x as u64, y as u64)
                && (ns[pi as int].left == Some(x as u64) || ns[pi as int].right == Some(x as u64)))
            &&& forall|i: int| 0 <= i < ns.len() && i != x && i != y && Some(i as u64) != b
                && Some(i as u64) != p ==> ns2[i] == ns[i]
        }),
{
    reveal(rot_nodes);
    let xn = ns[x];
    let y = rot_y(ns, x, r);
    let b = rot_b(ns, x, r);
    let p = xn.parent;
    assert(node_ok(ns, root, rank, x));
    assert(node_ok(ns, root, rank, y));
    assert(rank[x] < rank[y]);
    if let Some(bi) = b {
        assert(node_ok(ns, root, rank, bi as int));
        assert(rank[y] < rank[bi as int]);
    }
    if let Some(pi) = p {
        assert(node_ok(ns, root, rank, pi as int));
        assert(ns[pi as int].left == Some(x as u64) || ns[pi as int].right == Some(x as u64));
        assert(rank[pi as int] < rank[x]);
    }
}

#[verifier::rlimit(80)]
pub(crate) proof fn lemma_rot_node(ns: Seq<Node>, root: Option<u64>, rank: Seq<int>, bound: int, x: int, r: bool, i: int)
    requires
        shaped(ns, root, rank, bound),
        0 <= x < ns.len(),
        ns.len() <= u64::MAX,
        side(ns[x], r) is Some,
        0 <= i < ns.len(),
    ensures
        node_ok(rot_nodes(ns, x, r), rot_root(ns, root, x, r), rot_rank(ns, rank, x, r), i),
{
    lemma_rot_facts(ns, root, rank, bound, x, r);
    let ns2 = rot_nodes(ns, x, r);
    let root2 = rot_root(ns, root, x, r);
    let rank2 = rot_rank(ns, rank, x, r);
    let y = rot_y(ns, x, r);
    let b = rot_b(ns, x, r);
    let p = ns[x].parent;
    assert(node_ok(ns, root, rank, i));
    assert(node_ok(ns, root, rank, x));
    assert(node_ok(ns, root, rank, y));
    let n = ns[i];
    if let Some(c) = n.left {
        assert(node_ok(ns, root, rank, c as int));
    }
    if let Some(c) = n.right {
        assert(node_ok(ns, root, rank, c as int));
    }
    if let Some(q) = n.parent {
        assert(node_ok(ns, root, rank, q as int));
    }
    if let Some(bi) = b {
        assert(node_ok(ns, root, rank, bi as int));
    }
    if let Some(pi) = p {
        assert(node_ok(ns, root, rank, pi as int));
    }
    if i == x {
        assert(node_ok(ns2, root2, rank2, i));
    } else if i == y {
        assert(node_ok(ns2, root2, rank2, i));
    } else if Some(i as u64) == b {
        assert(node_ok(ns2, root2, rank2, i));
    } else if Some(i as u64) == p {
        assert(node_ok(ns2, root2, rank2, i));
    } else {
        assert(node_ok(ns2, root2, rank2, i));
    }
}

pub(crate) proof fn lemma_rotate(ns: Seq<Node>, root: Option<u64>, rank: Seq<int>, bound: int, x: int, r: bool)
    requires
        shaped(ns, root, rank, bound),
        0 <= x < ns.len(),
        ns.len() <= u64::MAX,
        side(ns[x], r) is Some,
    ensures
        shaped(rot_nodes(ns, x, r), rot_root(ns, root, x, r), rot_rank(ns, rank, x, r), 2 * bound),
        vals(rot_nodes(ns, x, r)) == vals(ns),
        colors(rot_nodes(ns, x, r)) == colors(ns),
{
    lemma_rot_facts(ns, root, rank, bound, x, r);
    let ns2 = rot_nodes(ns, x, r);
    assert forall|i: int| 0 <= i < ns.len() implies #[trigger] node_ok(ns2, rot_root(ns, root, x, r), rot_rank(ns, rank, x, r), i) by {
        lemma_rot_node(ns, root, rank, bound, x, r, i);
    }
    assert(vals(ns2) =~= vals(ns));
    assert(colors(ns2) =~= colors(ns));
}

/// Recolouring one node keeps the shape and the keys.
pub(crate) proof fn lemma_recolor(ns: Seq<Node>, root: Option<u64>, rank: Seq<int>, bound: int, i: int, c: bool)
    requires
        shaped(ns, root, rank, bound),
        0 <= i < ns.len(),
    ensures
        shaped(ns.update(i, Node { color: c, ..ns[i] }), root, rank, bound),
        vals(ns.update(i, Node { color: c, ..ns[i] })) == vals(ns),
{
    let ns2 = ns.update(i, Node { color: c, ..ns[i] });
    assert forall|j: int| 0 <= j < ns.len() implies #[trigger] node_ok(ns2, root, rank, j) by {
        assert(node_ok(ns, root, rank, j));
        if let Some(k) = ns[j].left {
            assert(node_ok(ns, root, rank, k as int));
        }
        if let Some(k) = ns[j].right {
            assert(node_ok(ns, root, rank, k as int));
        }
        if let Some(k) = ns[j].parent {
            assert(node_ok(ns, root, rank, k as int));
        }
    }
    assert(vals(ns2) =~= vals(ns));
}

/// The nodes after appending a red leaf with key `val` as the child of `p`
/// on side `r`, or as the root when `p` is absent.
pub open spec fn attach_nodes(ns: Seq<Node>, p: Option<u64>, r: bool, val: u64) -> Seq<Node> {
    let ns1 = ns.push(Node { color: true, parent: p, left: None, right: None, val });
    match p {
        Some(pi) => ns1.update(pi as int, with_side(ns[pi as int], r, Some(ns.len() as u64))),
        None => ns1,
    }
}

/// The ranks after that insertion: the leaf sits one below its parent.
pub open spec fn attach_rank(rank: Seq<int>, p: Option<u64>) -> Seq<int> {
    match p {
        Some(pi) => rank.push(rank[pi as int] + 1),
        None => rank.push(0),
    }
}

pub(crate) proof fn lemma_attach_node(ns: Seq<Node>, root: Option<u64>, rank: Seq<int>, bound: int, p: Option<u64>, r: bool, val: u64, i: int)
    requires
        shaped(ns, root, rank, bound),
        ns.len() < u64::MAX,
        p is None ==> root is None,
        p matches Some(pi) ==> pi < ns.len() && side(ns[pi as int], r) is None,
        0 <= i <= ns.len(),
    ensures
        node_ok(attach_nodes(ns, p, r, val), if p is None { Some(ns.len() as u64) } else { root }, attach_rank(rank, p), i),
        0 <= attach_rank(rank, p)[i] < bound + 1,
{
    let n = ns.len() as int;
    let ns2 = attach_nodes(ns, p, r, val);
    let rank2 = attach_rank(rank, p);
    assert(ns2.len() == n + 1);
    assert(ns2[n].parent == p);
    assert(ns2[n].left is None && ns2[n].right is None);
    if let Some(pi) = p {
        assert(node_ok(ns, root, rank, pi as int));
        assert(ns2[pi as int] == with_side(ns[pi as int], r, Some(n as u64)));
        assert(rank2[n] == rank[pi as int] + 1);
        assert(0 <= rank[pi as int] < bound);
    }
    assert forall|j: int| 0 <= j < n && Some(j as u64) != p implies ns2[j] == ns[j] by {}
    assert forall|j: int| 0 <= j < n implies rank2[j] == rank[j] by {}
    if i < n {
        assert(0 <= rank[i] < bound);
        assert(node_ok(ns, root, rank, i));
        if let Some(k) = ns[i].left {
            assert(node_ok(ns, root, rank, k as int));
        }
        if let Some(k) = ns[i].right {
            assert(node_ok(ns, root, rank, k as int));
        }
        if let Some(k) = ns[i].parent {
            assert(node_ok(ns, root, rank, k as int));
        }
    }
}

pub(crate) proof fn lemma_attach(ns: Seq<Node>, root: Option<u64>, rank: Seq<int>, bound: int, p: Option<u64>, r: bool, val: u64)
    requires
        shaped(ns, root, rank, bound),
        ns.len() < u64::MAX,
        p is None ==> root is None,
        p matches Some(pi) ==> pi < ns.len() && side(ns[pi as int], r) is None,
    ensures
        shaped(
            attach_nodes(ns, p, r, val),
            if p is None { Some(ns.len() as u64) } else { root },
            attach_rank(rank, p),
            bound + 1,
        ),
        vals(attach_nodes(ns, p, r, val)) == vals(ns).push(val),
{
    let n = ns.len() as int;
    let ns2 = attach_nodes(ns, p, r, val);
    let root2 = if p is None { Some(n as u64) } else { root };
    let rank2 = attach_rank(rank, p);
    if let Some(pi) = p {
        assert(node_ok(ns, root, rank, pi as int));
    }
    assert forall|i: int| 0 <= i < n + 1 implies #[trigger] node_ok(ns2, root2, rank2, i) && 0 <= rank2[i] < bound + 1 by {
        lemma_attach_node(ns, root, rank, bound, p, r, val, i);
    }
    assert(vals(ns2) =~= vals(ns).push(val));
}

/// Changing the key of one node keeps the shape.
pub(crate) proof fn lemma_rekey(ns: Seq<Node>, root: Option<u64>, rank: Seq<int>, bound: int, i: int, v: u64)
    requires
        shaped(ns, root, rank, bound),
        0 <= i < ns.len(),
    ensures
        shaped(ns.update(i, Node { val: v, ..ns[i] }), root, rank, bound),
{
    let ns2 = ns.update(i, Node { val: v, ..ns[i] });
    assert forall|j: int| 0 <= j < ns.len() implies #[trigger] node_ok(ns2, root, rank, j) by {
        assert(node_ok(ns, root, rank, j));
        if let Some(k) = ns[j].left {
            assert(node_ok(ns, root, rank, k as int));
        }
        if let Some(k) = ns[j].right {
            assert(node_ok(ns, root, rank, k as int));
        }
        if let Some(k) = ns[j].parent {
            assert(node_ok(ns, root, rank, k as int));
        }
    }
}

/// No live node other than `t` links to `t`, and the root is not `t`.
pub open spec fn unreferenced(ns: Seq<Node>, root: Option<u64>, t: int) -> bool {
    &&& root != Some(t as u64)
    &&& forall|i: int| 0 <= i < ns.len() && i != t ==> {
        &&& #[trigger] ns[i].parent != Some(t as u64)
        &&& ns[i].left != Some(t as u64)
        &&& ns[i].right != Some(t as u64)
    }
}

/// The shape invariant for every node but `t`, which nothing links to.
pub open spec fn shaped_except(ns: Seq<Node>, root: Option<u64>, rank: Seq<int>, bound: int, t: int) -> bool {
    &&& 0 <= t < ns.len()
    &&& rank.len() == ns.len()
    &&& 0 <= bound
    &&& link_in(ns.len(), root)
    &&& unreferenced(ns, root, t)
    &&& forall|i: int| 0 <= i < ns.len() ==> 0 <= #[trigger] rank[i] < bound
    &&& forall|i: int| 0 <= i < ns.len() && i != t ==> #[trigger] node_ok(ns, root, rank, i)
}

/// The nodes after the child `c` of `t` (if any) takes the place of `t`
/// under its parent, or at the root.
pub open spec fn splice_nodes(ns: Seq<Node>, t: int, c: Option<u64>) -> Seq<Node> {
    let p = ns[t].parent;
    let s1 = match c {
        Some(ci) => ns.update(ci as int, Node { parent: p, ..ns[ci as int] }),
        None => ns,
    };
    match p {
        Some(pi) => if s1[pi as int].left == Some(t as u64) {
            s1.update(pi as int, Node { left: c, ..s1[pi as int] })
        } else {
            s1.update(pi as int, Node { right: c, ..s1[pi as int] })
        },
        None => s1,
    }
}

/// The root after that splice.
pub open spec fn splice_root(ns: Seq<Node>, root: Option<u64>, t: int, c: Option<u64>) -> Option<u64> {
    if ns[t].parent is None {
        c
    } else {
        root
    }
}

#[verifier::rlimit(80)]
pub(crate) proof fn lemma_splice_node(ns: Seq<Node>, root: Option<u64>, rank: Seq<int>, bound: int, t: int, c: Option<u64>, i: int)
    requires
        shaped(ns, root, rank, bound),
        0 <= t < ns.len(),
        ns.len() <= u64::MAX,
        ns[t].left is None || ns[t].right is None,
        c == (if ns[t].left is Some { ns[t].left } else { ns[t].right }),
        0 <= i < ns.len(),
        i != t,
    ensures
        node_ok(splice_nodes(ns, t, c), splice_root(ns, root, t, c), rank, i),
        splice_nodes(ns, t, c).len() == ns.len(),
        splice_nodes(ns, t, c)[i].parent != Some(t as u64),
        splice_nodes(ns, t, c)[i].left != Some(t as u64),
        splice_nodes(ns, t, c)[i].right != Some(t as u64),
{
    let p = ns[t].parent;
    let ns2 = splice_nodes(ns, t, c);
    assert(node_ok(ns, root, rank, t));
    assert(node_ok(ns, root, rank, i));
    if let Some(ci) = c {
        assert(node_ok(ns, root, rank, ci as int));
        assert(rank[t] < rank[ci as int]);
    }
    if let Some(pi) = p {
        assert(node_ok(ns, root, rank, pi as int));
        assert(rank[pi as int] < rank[t]);
        assert(ns[pi as int].left == Some(t as u64) || ns[pi as int].right == Some(t as u64));
        if let Some(ci) = c {
            assert(pi != ci);
            assert(ns2[ci as int] == Node { parent: p, ..ns[ci as int] });
        }
        if ns[pi as int].left == Some(t as u64) {
            assert(ns2[pi as int] == Node { left: c, ..ns[pi as int] });
        } else {
            assert(ns2[pi as int] == Node { right: c, ..ns[pi as int] });
        }
    } else {
        if let Some(ci) = c {
            assert(ns2[ci as int] == Node { parent: p, ..ns[ci as int] });
        }
    }
    assert forall|j: int| 0 <= j < ns.len() && Some(j as u64) != c && Some(j as u64) != p implies ns2[j] == ns[j] by {}
    let n = ns[i];
    if let Some(k) = n.left {
        assert(node_ok(ns, root, rank, k as int));
    }
    if let Some(k) = n.right {
        assert(node_ok(ns, root, rank, k as int));
    }
    if let Some(k) = n.parent {
        assert(node_ok(ns, root, rank, k as int));
    }
}

pub(crate) proof fn lemma_splice(ns: Seq<Node>, root: Option<u64>, rank: Seq<int>, bound: int, t: int, c: Option<u64>)
    requires
        shaped(ns, root, rank, bound),
        0 <= t < ns.len(),
        ns.len() <= u64::MAX,
        ns[t].left is None || ns[t].right is None,
        c == (if ns[t].left is Some { ns[t].left } else { ns[t].right }),
    ensures
        shaped_except(splice_nodes(ns, t, c), splice_root(ns, root, t, c), rank, bound, t),
        vals(splice_nodes(ns, t, c)) == vals(ns),
        colors(splice_nodes(ns, t, c)) == colors(ns),
{
    let ns2 = splice_nodes(ns, t, c);
    let root2 = splice_root(ns, root, t, c);
    assert(node_ok(ns, root, rank, t));
    if let Some(ci) = c {
        assert(rank[t] < rank[ci as int]);
    }
    assert(root2 != Some(t as u64));
    assert(link_in(ns.len(), root2));
    assert forall|i: int| 0 <= i < ns.len() && i != t implies #[trigger] node_ok(ns2, root2, rank, i) && ns2[i].parent != Some(t as u64) && ns2[i].left != Some(t as u64) && ns2[i].right != Some(t as u64) by {
        lemma_splice_node(ns, root, rank, bound, t, c, i);
    }
    assert(ns2.len() == ns.len());
    assert forall|i: int| 0 <= i < ns2.len() && i != t implies {
        &&& #[trigger] ns2[i].parent != Some(t as u64)
        &&& ns2[i].left != Some(t as u64)
        &&& ns2[i].right != Some(t as u64)
    } by {
        lemma_splice_node(ns, root, rank, bound, t, c, i);
    }
    assert(vals(ns2) =~= vals(ns));
    assert(colors(ns2) =~= colors(ns));
}

/// The nodes after the last record moves into the free slot `t` and every
/// link to it follows; the array shrinks by one.
pub open spec fn compact_nodes(ns: Seq<Node>, t: int) -> Seq<Node> {
    let last = ns.len() - 1;
    if t == last {
        ns.drop_last()
    } else {
        let ln = ns[last];
        let s1 = ns.update(t, ln);
        let s2 = match ln.parent {
            Some(q) => s1.update(q as int, relink(s1[q as int], last as u64, t as u64)),
            None => s1,
        };
        let s3 = match ln.left {
            Some(c) => s2.update(c as int, Node { parent: Some(t as u64), ..s2[c as int] }),
            None => s2,
        };
        let s4 = match ln.right {
            Some(c) => s3.update(c as int, Node { parent: Some(t as u64), ..s3[c as int] }),
            None => s3,
        };
        s4.drop_last()
    }
}

/// The root after that move.
pub open spec fn compact_root(ns: Seq<Node>, root: Option<u64>, t: int) -> Option<u64> {
    if t != ns.len() - 1 && ns[ns.len() - 1].parent is None {
        Some(t as u64)
    } else {
        root
    }
}

/// The ranks after that move.
pub open spec fn compact_rank(rank: Seq<int>, t: int) -> Seq<int> {
    rank.update(t, rank[rank.len() - 1]).drop_last()
}

pub(crate) proof fn lemma_compact_facts(ns: Seq<Node>, root: Option<u64>, rank: Seq<int>, bound: int, t: int)
    requires
        shaped_except(ns, root, rank, bound, t),
        ns.len() <= u64::MAX,
        t != ns.len() - 1,
    ensures
        ({
            let last = ns.len() - 1;
            let ln = ns[last];
            let ns2 = compact_nodes(ns, t);
            &&& node_ok(ns, root, rank, last)
            &&& ns2.len() == last
            &&& ns2[t] == ln
            &&& (ln.parent matches Some(q) ==> q != t && q < last && ns2[q as int] == relink(ns[q as int], last as u64, t as u64)
                && (ns[q as int].left == Some(last as u64) || ns[q as int].right == Some(last as u64)))
            &&& (ln.left matches Some(c) ==> c != t && c < last && ns2[c as int] == Node { parent: Some(t as u64), ..ns[c as int] })
            &&& (ln.right matches Some(c) ==> c != t && c < last && ns2[c as int] == Node { parent: Some(t as u64), ..ns[c as int] })
            &&& forall|i: int| 0 <= i < last && i != t && Some(i as u64) != ln.parent && Some(i as u64) != ln.left
                && Some(i as u64) != ln.right ==> ns2[i] == ns[i]
        }),
{
    let last = ns.len() - 1;
    let ln = ns[last];
    assert(node_ok(ns, root, rank, last));
    if let Some(q) = ln.parent {
        assert(node_ok(ns, root, rank, q as int));
        assert(rank[q as int] < rank[last]);
    }
    if let Some(c) = ln.left {
        assert(node_ok(ns, root, rank, c as int));
    }
    if let Some(c) = ln.right {
        assert(node_ok(ns, root, rank, c as int));
    }
}

#[verifier::rlimit(80)]
pub(crate) proof fn lemma_compact_node(ns: Seq<Node>, root: Option<u64>, rank: Seq<int>, bound: int, t: int, i: int)
    requires
        shaped_except(ns, root, rank, bound, t),
        ns.len() <= u64::MAX,
        0 <= i < ns.len() - 1,
    ensures
        node_ok(compact_nodes(ns, t), compact_root(ns, root, t), compact_rank(rank, t), i),
        0 <= compact_rank(rank, t)[i] < bound,
{
    let last = ns.len() - 1;
    let ns2 = compact_nodes(ns, t);
    let root2 = compact_root(ns, root, t);
    let rank2 = compact_rank(rank, t);
    assert(0 <= rank[last] < bound);
    assert(0 <= rank[i] < bound);
    if t == last {
        assert(ns2 == ns.drop_last());
        assert(node_ok(ns, root, rank, i));
        let n = ns[i];
        if let Some(k) = n.left {
            assert(node_ok(ns, root, rank, k as int));
        }
        if let Some(k) = n.right {
            assert(node_ok(ns, root, rank, k as int));
        }
        if let Some(k) = n.parent {
            assert(node_ok(ns, root, rank, k as int));
        }
    } else {
        lemma_compact_facts(ns, root, rank, bound, t);
        let ln = ns[last];
        assert(rank2[t] == rank[last]);
        assert forall|j: int| 0 <= j < last && j != t implies rank2[j] == rank[j] by {}
        if let Some(q) = ln.parent {
            assert(node_ok(ns, root, rank, q as int));
        }
        if let Some(c) = ln.left {
            assert(node_ok(ns, root, rank, c as int));
        }
        if let Some(c) = ln.right {
            assert(node_ok(ns, root, rank, c as int));
        }
        if i != t {
            assert(node_ok(ns, root, rank, i));
            let n = ns[i];
            if let Some(k) = n.left {
                assert(node_ok(ns, root, rank, k as int));
            }
            if let Some(k) = n.right {
                assert(node_ok(ns, root, rank, k as int));
            }
            if let Some(k) = n.parent {
                assert(node_ok(ns, root, rank, k as int));
            }
        }
    }
}

pub(crate) proof fn lemma_compact(ns: Seq<Node>, root: Option<u64>, rank: Seq<int>, bound: int, t: int)
    requires
        shaped_except(ns, root, rank, bound, t),
        ns.len() <= u64::MAX,
    ensures
        shaped(compact_nodes(ns, t), compact_root(ns, root, t), compact_rank(rank, t), bound),
        vals(compact_nodes(ns, t)) == vals(ns).update(t, vals(ns)[ns.len() - 1]).drop_last(),
{
    let last = ns.len() - 1;
    let ns2 = compact_nodes(ns, t);
    let root2 = compact_root(ns, root, t);
    assert forall|i: int| 0 <= i < last implies #[trigger] node_ok(ns2, root2, compact_rank(rank, t), i) && 0 <= compact_rank(rank, t)[i] < bound by {
        lemma_compact_node(ns, root, rank, bound, t, i);
    }
    if t == last {
        assert(ns2.len() == last);
    } else {
        lemma_compact_facts(ns, root, rank, bound, t);
        assert(node_ok(ns, root, rank, last));
    }
    assert(link_in(ns2.len(), root2));
    assert(vals(ns2) =~= vals(ns).update(t, vals(ns)[ns.len() - 1]).drop_last());
}

proof fn lemma_ranks_from(ns: Seq<Node>, root: Option<u64>, rank: Seq<int>, bound: int, k: int)
    requires
        shaped(ns, root, rank, bound),
        ns.len() <= u64::MAX,
        root is None,
        0 <= k,
    ensures
        forall|i: int| 0 <= i < ns.len() ==> rank[i] >= k,
    decreases k,
{
    if k > 0 {
        lemma_ranks_from(ns, root, rank, bound, k - 1);
        assert forall|i: int| 0 <= i < ns.len() implies rank[i] >= k by {
            assert(node_ok(ns, root, rank, i));
            let q = ns[i].parent->Some_0 as int;
            assert(node_ok(ns, root, rank, q));
            assert(ns[q].left == Some(i as u64) || ns[q].right == Some(i as u64));
            assert(rank[q] < rank[i]);
            assert(rank[q] >= k - 1);
        }
    }
}

/// A tree without a root has no nodes: every node would have a parent of
/// smaller rank, without end.
pub proof fn lemma_rootless_empty(ns: Seq<Node>, root: Option<u64>, rank: Seq<int>, bound: int)
    requires
        shaped(ns, root, rank, bound),
        ns.len() <= u64::MAX,
    ensures
        root is None ==> ns.len() == 0,
{
    if root is None && ns.len() > 0 {
        lemma_ranks_from(ns, root, rank, bound, bound);
        assert(rank[0] < bound);
    }
}

/// Node `j` is reached from node `x` by `k` steps to a child.
pub open spec fn in_sub(ns: Seq<Node>, x: int, j: int, k: nat) -> bool
    decreases k,
{
    if k == 0 {
        x == j
    } else {
        (ns[x].left matches Some(c) && in_sub(ns, c as int, j, (k - 1) as nat))
            || (ns[x].right matches Some(c) && in_sub(ns, c as int, j, (k - 1) as nat))
    }
}

pub(crate) proof fn lemma_in_sub_extend(ns: Seq<Node>, x: int, q: int, k: nat, j: int)
    requires
        in_sub(ns, x, q, k),
        ns[q].left == Some(j as u64) || ns[q].right == Some(j as u64),
        0 <= j <= u64::MAX,
    ensures
        in_sub(ns, x, j, k + 1),
    decreases k,
{
    if k == 0 {
        assert(in_sub(ns, j, j, 0));
        assert((j as u64) as int == j);
    } else {
        if ns[x].left is Some && in_sub(ns, ns[x].left->Some_0 as int, q, (k - 1) as nat) {
            let c = ns[x].left->Some_0;
            lemma_in_sub_extend(ns, c as int, q, (k - 1) as nat, j);
        } else {
            let c = ns[x].right->Some_0;
            lemma_in_sub_extend(ns, c as int, q, (k - 1) as nat, j);
        }
    }
}

/// Every node is reached from the root: its parents lead up to it.
pub proof fn lemma_reach_all(ns: Seq<Node>, root: Option<u64>, rank: Seq<int>, bound: int, j: int)
    requires
        shaped(ns, root, rank, bound),
        ns.len() <= u64::MAX,
        root is Some,
        0 <= j < ns.len(),
    ensures
        exists|k: nat| in_sub(ns, root->Some_0 as int, j, k),
    decreases rank[j],
{
    assert(node_ok(ns, root, rank, j));
    assert(0 <= rank[j]);
    if root == Some(j as u64) {
        assert(in_sub(ns, j, j, 0));
    } else {
        let q = ns[j].parent->Some_0 as int;
        assert(node_ok(ns, root, rank, q));
        assert(ns[q].left == Some(j as u64) || ns[q].right == Some(j as u64));
        assert(rank[q] < rank[j]);
        lemma_reach_all(ns, root, rank, bound, q);
        let k = choose|k: nat| in_sub(ns, root->Some_0 as int, q, k);
        lemma_in_sub_extend(ns, root->Some_0 as int, q, k, j);
    }
}

/// A sequence of distinct numbers below `n` has at most `n` entries.
pub proof fn lemma_distinct_below(s: Seq<int>, n: int)
    requires
        0 <= n,
        s.no_duplicates(),
        forall|j: int| 0 <= j < s.len() ==> 0 <= #[trigger] s[j] < n,
    ensures
        s.len() <= n,
{
    s.unique_seq_to_set();
    vstd::set_lib::lemma_int_range(0, n);
    assert(s.to_set().subset_of(vstd::set_lib::set_int_range(0, n)));
    vstd::set_lib::lemma_len_subset(s.to_set(), vstd::set_lib::set_int_range(0, n));
}

} // verus!
