//! Key order in a tree held in an arena. Each node carries an open
//! interval of keys that its subtree may hold; an absent child leaves a
//! gap, the part of its parent's interval on that side. The tree is in
//! order when every key lies inside its node's interval, children split
//! their parent's interval at its key, no key lies inside any gap, and no
//! two gaps overlap. A search that falls off the tree then proves the key
//! absent, and an in-order walk meets the keys in increasing order.

use crate::arena::Node;
use crate::shape::{
    attach_nodes, in_sub, lemma_reach_all, link_in, lemma_rot_facts, node_ok, relink, rot_b, rot_nodes, rot_root, rot_y, shaped,
    side, vals, with_side,
};
use vstd::prelude::*;

verus! {

/// Below every key.
pub open spec fn lo_top() -> int {
    -1
}

/// Above every key.
pub open spec fn hi_top() -> int {
    0x1_0000_0000_0000_0000
}

/// The open interval of keys that the absent child of node `i` on side
/// `s` stands for; `None` when that child is present.
pub open spec fn gap(ns: Seq<Node>, lo: Seq<int>, hi: Seq<int>, i: int, s: bool) -> Option<(int, int)> {
    if side(ns[i], s) is None {
        Some(if s { (ns[i].val as int, hi[i]) } else { (lo[i], ns[i].val as int) })
    } else {
        None
    }
}

/// Two open integer intervals share no integer.
pub open spec fn disjoint(a: (int, int), b: (int, int)) -> bool {
    a.1 <= b.0 + 1 || b.1 <= a.0 + 1
}

/// `v` lies strictly inside `g`.
pub open spec fn inside(v: int, g: (int, int)) -> bool {
    g.0 < v < g.1
}

/// Node `i` lies in its interval, and its children split it at its key.
pub open spec fn bounds_ok(ns: Seq<Node>, lo: Seq<int>, hi: Seq<int>, i: int) -> bool {
    let n = ns[i];
    &&& lo[i] < n.val < hi[i]
    &&& (n.left matches Some(c) ==> lo[c as int] == lo[i] && hi[c as int] == n.val)
    &&& (n.right matches Some(c) ==> lo[c as int] == n.val && hi[c as int] == hi[i])
}

/// No key lies inside the gap of node `i` on side `s`.
pub open spec fn gap_empty(ns: Seq<Node>, lo: Seq<int>, hi: Seq<int>, i: int, s: bool) -> bool {
    gap(ns, lo, hi, i, s) matches Some(g) ==> forall|j: int| 0 <= j < ns.len() ==> !inside(#[trigger] ns[j].val as int, g)
}

/// The gaps of `(i, s)` and `(j, t)` do not overlap, unless they are one gap.
pub open spec fn gaps_apart(ns: Seq<Node>, lo: Seq<int>, hi: Seq<int>, i: int, s: bool, j: int, t: bool) -> bool {
    (i != j || s != t) ==> (gap(ns, lo, hi, i, s) matches Some(g1) ==> (gap(ns, lo, hi, j, t) matches Some(g2) ==> disjoint(g1, g2)))
}

/// The keys are in order under the intervals `lo`, `hi`.
pub open spec fn ordered(ns: Seq<Node>, root: Option<u64>, lo: Seq<int>, hi: Seq<int>) -> bool {
    &&& lo.len() == ns.len()
    &&& hi.len() == ns.len()
    &&& (root is None ==> ns.len() == 0)
    &&& (root matches Some(r) ==> lo[r as int] == lo_top() && hi[r as int] == hi_top())
    &&& forall|i: int| 0 <= i < ns.len() ==> #[trigger] bounds_ok(ns, lo, hi, i)
    &&& forall|i: int, s: bool| 0 <= i < ns.len() ==> #[trigger] gap_empty(ns, lo, hi, i, s)
    &&& forall|i: int, s: bool, j: int, t: bool| 0 <= i < ns.len() && 0 <= j < ns.len() ==> #[trigger] gaps_apart(ns, lo, hi, i, s, j, t)
}

/// A key inside a gap is held by no node.
pub proof fn lemma_gap_absent(ns: Seq<Node>, root: Option<u64>, lo: Seq<int>, hi: Seq<int>, i: int, s: bool, v: u64)
    requires
        ordered(ns, root, lo, hi),
        0 <= i < ns.len(),
        gap(ns, lo, hi, i, s) matches Some(g) && inside(v as int, g),
    ensures
        !vals(ns).contains(v),
{
    assert(gap_empty(ns, lo, hi, i, s));
    if vals(ns).contains(v) {
        let j = choose|j: int| 0 <= j < vals(ns).len() && vals(ns)[j] == v;
        assert(ns[j].val == v);
    }
}

/// Recolouring keeps the order.
pub proof fn lemma_recolor_ordered(ns: Seq<Node>, root: Option<u64>, lo: Seq<int>, hi: Seq<int>, i: int, c: bool)
    requires
        ordered(ns, root, lo, hi),
        0 <= i < ns.len(),
    ensures
        ordered(ns.update(i, Node { color: c, ..ns[i] }), root, lo, hi),
{
    let ns2 = ns.update(i, Node { color: c, ..ns[i] });
    assert forall|k: int| 0 <= k < ns.len() implies #[trigger] bounds_ok(ns2, lo, hi, k) by {
        assert(bounds_ok(ns, lo, hi, k));
    }
    assert forall|k: int, s: bool| 0 <= k < ns.len() implies #[trigger] gap_empty(ns2, lo, hi, k, s) by {
        assert(gap_empty(ns, lo, hi, k, s));
        assert(gap(ns2, lo, hi, k, s) == gap(ns, lo, hi, k, s));
        if let Some(g) = gap(ns, lo, hi, k, s) {
            assert forall|j: int| 0 <= j < ns.len() implies !inside(#[trigger] ns2[j].val as int, g) by {
                assert(!inside(ns[j].val as int, g));
            }
        }
    }
    assert forall|a: int, s: bool, b: int, t: bool| 0 <= a < ns.len() && 0 <= b < ns.len() implies #[trigger] gaps_apart(ns2, lo, hi, a, s, b, t) by {
        assert(gaps_apart(ns, lo, hi, a, s, b, t));
        assert(gap(ns2, lo, hi, a, s) == gap(ns, lo, hi, a, s));
        assert(gap(ns2, lo, hi, b, t) == gap(ns, lo, hi, b, t));
    }
}

/// The interval of a leaf attached below `p` on side `r`: the gap it
/// fills, or everything when it becomes the root.
pub open spec fn attach_bounds(ns: Seq<Node>, lo: Seq<int>, hi: Seq<int>, p: Option<u64>, r: bool) -> (int, int) {
    match p {
        Some(pi) => gap(ns, lo, hi, pi as int, r)->Some_0,
        None => (lo_top(), hi_top()),
    }
}

proof fn lemma_attach_gap(ns: Seq<Node>, root: Option<u64>, lo: Seq<int>, hi: Seq<int>, p: Option<u64>, r: bool, val: u64, k: int, s: bool)
    requires
        ordered(ns, root, lo, hi),
        ns.len() < u64::MAX,
        p is None ==> root is None,
        p matches Some(pi) ==> pi < ns.len() && side(ns[pi as int], r) is None,
        inside(val as int, attach_bounds(ns, lo, hi, p, r)),
        0 <= k < ns.len(),
        !(p == Some(k as u64) && s == r),
    ensures
        gap(attach_nodes(ns, p, r, val), lo.push(attach_bounds(ns, lo, hi, p, r).0), hi.push(attach_bounds(ns, lo, hi, p, r).1), k, s)
            == gap(ns, lo, hi, k, s),
{
    let n = ns.len() as int;
    let ns2 = attach_nodes(ns, p, r, val);
    if p == Some(k as u64) {
        assert(ns2[k] == with_side(ns[k], r, Some(n as u64)));
    } else {
        assert(ns2[k] == ns[k]);
    }
}

/// Attaching a leaf inside the gap it fills keeps the order.
pub proof fn lemma_attach_ordered(ns: Seq<Node>, root: Option<u64>, rank: Seq<int>, bound: int, lo: Seq<int>, hi: Seq<int>, p: Option<u64>, r: bool, val: u64)
    requires
        shaped(ns, root, rank, bound),
        ordered(ns, root, lo, hi),
        ns.len() < u64::MAX,
        p is None ==> root is None,
        p matches Some(pi) ==> pi < ns.len() && side(ns[pi as int], r) is None,
        inside(val as int, attach_bounds(ns, lo, hi, p, r)),
    ensures
        ordered(
            attach_nodes(ns, p, r, val),
            if p is None { Some(ns.len() as u64) } else { root },
            lo.push(attach_bounds(ns, lo, hi, p, r).0),
            hi.push(attach_bounds(ns, lo, hi, p, r).1),
        ),
{
    let n = ns.len() as int;
    let ab = attach_bounds(ns, lo, hi, p, r);
    let ns2 = attach_nodes(ns, p, r, val);
    let root2 = if p is None { Some(n as u64) } else { root };
    let lo2 = lo.push(ab.0);
    let hi2 = hi.push(ab.1);
    assert(ns2.len() == n + 1);
    assert(ns2[n] == Node { color: true, parent: p, left: None, right: None, val });
    assert forall|k: int| 0 <= k < n && Some(k as u64) != p implies ns2[k] == ns[k] by {}
    assert forall|k: int| 0 <= k < n implies lo2[k] == lo[k] && hi2[k] == hi[k] by {}
    assert(lo2[n] == ab.0 && hi2[n] == ab.1);
    if let Some(r0) = root {
        assert(lo2[r0 as int] == lo[r0 as int]);
    }
    if let Some(pi) = p {
        assert(ns2[pi as int] == with_side(ns[pi as int], r, Some(n as u64)));
        assert(gap_empty(ns, lo, hi, pi as int, r));
    }
    // every key, old or new, stays out of the old gaps other than the filled one
    assert forall|k: int, s: bool| 0 <= k < n && !(p == Some(k as u64) && s == r) && gap(ns, lo, hi, k, s) is Some
        implies !inside(val as int, gap(ns, lo, hi, k, s)->Some_0) by {
        let pi = p->Some_0 as int;
        assert(gaps_apart(ns, lo, hi, pi, r, k, s));
    }
    assert forall|k: int| 0 <= k < n + 1 implies #[trigger] bounds_ok(ns2, lo2, hi2, k) by {
        if k < n {
            assert(bounds_ok(ns, lo, hi, k));
            assert(node_ok(ns, root, rank, k));
            if Some(k as u64) == p {
                assert(ns2[k] == with_side(ns[k], r, Some(n as u64)));
            }
        }
    }
    assert forall|k: int, s: bool| 0 <= k < n + 1 implies #[trigger] gap_empty(ns2, lo2, hi2, k, s) by {
        if k == n {
            assert forall|j: int| 0 <= j < n + 1 implies !inside(#[trigger] ns2[j].val as int, gap(ns2, lo2, hi2, k, s)->Some_0) by {
                if j < n {
                    if let Some(pi) = p {
                        assert(!inside(ns[j].val as int, gap(ns, lo, hi, pi as int, r)->Some_0));
                    }
                    if Some(j as u64) != p {
                        assert(ns2[j].val == ns[j].val);
                    }
                }
            }
        } else if p == Some(k as u64) && s == r {
        } else {
            lemma_attach_gap(ns, root, lo, hi, p, r, val, k, s);
            assert(gap_empty(ns, lo, hi, k, s));
            if let Some(g) = gap(ns, lo, hi, k, s) {
                assert forall|j: int| 0 <= j < n + 1 implies !inside(#[trigger] ns2[j].val as int, g) by {
                    if j < n {
                        assert(!inside(ns[j].val as int, g));
                    }
                }
            }
        }
    }
    assert forall|a: int, s: bool, b: int, t: bool| 0 <= a < n + 1 && 0 <= b < n + 1 implies #[trigger] gaps_apart(ns2, lo2, hi2, a, s, b, t) by {
        let pa = p == Some(a as u64) && s == r;
        let pb = p == Some(b as u64) && t == r;
        if a < n && !pa {
            lemma_attach_gap(ns, root, lo, hi, p, r, val, a, s);
        }
        if b < n && !pb {
            lemma_attach_gap(ns, root, lo, hi, p, r, val, b, t);
        }
        if a < n && b < n {
            assert(gaps_apart(ns, lo, hi, a, s, b, t));
        }
        if a == n && b < n && !pb {
            if let Some(pi) = p {
                assert(gaps_apart(ns, lo, hi, pi as int, r, b, t));
            }
        }
        if b == n && a < n && !pa {
            if let Some(pi) = p {
                assert(gaps_apart(ns, lo, hi, pi as int, r, a, s));
            }
        }
    }
}

/// Lower interval ends after lifting the child of `x` on side `r`: the
/// child takes the interval of `x`, and `x` keeps the part on its side.
pub open spec fn rot_lo(ns: Seq<Node>, lo: Seq<int>, x: int, r: bool) -> Seq<int> {
    let y = rot_y(ns, x, r);
    lo.update(y, lo[x]).update(x, if r { lo[x] } else { ns[y].val as int })
}

/// Upper interval ends after that rotation.
pub open spec fn rot_hi(ns: Seq<Node>, hi: Seq<int>, x: int, r: bool) -> Seq<int> {
    let y = rot_y(ns, x, r);
    hi.update(y, hi[x]).update(x, if r { ns[y].val as int } else { hi[x] })
}

proof fn lemma_rot_gap(ns: Seq<Node>, root: Option<u64>, rank: Seq<int>, bound: int, lo: Seq<int>, hi: Seq<int>, x: int, r: bool, k: int, s: bool)
    requires
        shaped(ns, root, rank, bound),
        ordered(ns, root, lo, hi),
        0 <= x < ns.len(),
        ns.len() <= u64::MAX,
        side(ns[x], r) is Some,
        0 <= k < ns.len(),
    ensures
        ({
            let y = rot_y(ns, x, r);
            let g2 = gap(rot_nodes(ns, x, r), rot_lo(ns, lo, x, r), rot_hi(ns, hi, x, r), k, s);
            &&& (k == y && s == !r ==> g2 is None)
            &&& (k == x && s == r ==> g2 == gap(ns, lo, hi, y, !r))
            &&& (!(k == y && s == !r) && !(k == x && s == r) ==> g2 == gap(ns, lo, hi, k, s))
        }),
{
    lemma_rot_facts(ns, root, rank, bound, x, r);
    let y = rot_y(ns, x, r);
    let b = rot_b(ns, x, r);
    let p = ns[x].parent;
    assert(node_ok(ns, root, rank, x));
    assert(node_ok(ns, root, rank, y));
    assert(bounds_ok(ns, lo, hi, x));
    assert(bounds_ok(ns, lo, hi, y));
    let ns2 = rot_nodes(ns, x, r);
    if let Some(pi) = p {
        if k == pi as int {
            assert(ns2[k] == relink(ns[k], x as u64, y as u64));
        }
    }
}

/// A rotation keeps the order, with the lifted child taking the interval
/// of `x`.
pub proof fn lemma_rot_ordered(ns: Seq<Node>, root: Option<u64>, rank: Seq<int>, bound: int, lo: Seq<int>, hi: Seq<int>, x: int, r: bool)
    requires
        shaped(ns, root, rank, bound),
        ordered(ns, root, lo, hi),
        0 <= x < ns.len(),
        ns.len() <= u64::MAX,
        side(ns[x], r) is Some,
    ensures
        ordered(rot_nodes(ns, x, r), rot_root(ns, root, x, r), rot_lo(ns, lo, x, r), rot_hi(ns, hi, x, r)),
{
    lemma_rot_facts(ns, root, rank, bound, x, r);
    let y = rot_y(ns, x, r);
    let b = rot_b(ns, x, r);
    let p = ns[x].parent;
    let ns2 = rot_nodes(ns, x, r);
    let root2 = rot_root(ns, root, x, r);
    let lo2 = rot_lo(ns, lo, x, r);
    let hi2 = rot_hi(ns, hi, x, r);
    assert(node_ok(ns, root, rank, x));
    assert(node_ok(ns, root, rank, y));
    assert(bounds_ok(ns, lo, hi, x));
    assert(bounds_ok(ns, lo, hi, y));
    assert forall|k: int| 0 <= k < ns.len() && k != x && k != y implies lo2[k] == lo[k] && hi2[k] == hi[k] by {}
    assert forall|k: int| 0 <= k < ns.len() implies #[trigger] bounds_ok(ns2, lo2, hi2, k) by {
        assert(bounds_ok(ns, lo, hi, k));
        assert(node_ok(ns, root, rank, k));
        if let Some(c) = ns[k].left {
            assert(node_ok(ns, root, rank, c as int));
        }
        if let Some(c) = ns[k].right {
            assert(node_ok(ns, root, rank, c as int));
        }
        if let Some(bi) = b {
            assert(node_ok(ns, root, rank, bi as int));
            assert(bounds_ok(ns, lo, hi, bi as int));
        }
        if let Some(pi) = p {
            assert(node_ok(ns, root, rank, pi as int));
            if k == pi as int {
                assert(ns2[k] == relink(ns[k], x as u64, y as u64));
            }
        }
    }
    assert(vals(ns2) == vals(ns));
    assert forall|k: int, s: bool| 0 <= k < ns.len() implies #[trigger] gap_empty(ns2, lo2, hi2, k, s) by {
        lemma_rot_gap(ns, root, rank, bound, lo, hi, x, r, k, s);
        let g2 = gap(ns2, lo2, hi2, k, s);
        if let Some(g) = g2 {
            let (k0, s0) = if k == x && s == r { (y, !r) } else { (k, s) };
            assert(gap_empty(ns, lo, hi, k0, s0));
            assert forall|j: int| 0 <= j < ns.len() implies !inside(#[trigger] ns2[j].val as int, g) by {
                assert(vals(ns2)[j] == vals(ns)[j]);
                assert(!inside(ns[j].val as int, g));
            }
        }
    }
    assert forall|a: int, s: bool, c: int, t: bool| 0 <= a < ns.len() && 0 <= c < ns.len() implies #[trigger] gaps_apart(ns2, lo2, hi2, a, s, c, t) by {
        lemma_rot_gap(ns, root, rank, bound, lo, hi, x, r, a, s);
        lemma_rot_gap(ns, root, rank, bound, lo, hi, x, r, c, t);
        let (a0, s0) = if a == x && s == r { (y, !r) } else { (a, s) };
        let (c0, t0) = if c == x && t == r { (y, !r) } else { (c, t) };
        assert(gaps_apart(ns, lo, hi, a0, s0, c0, t0));
    }
    if let Some(r0) = root {
        assert(node_ok(ns, root, rank, r0 as int));
    }
}

/// Node `j` lies in the subtree under link `x`.
pub open spec fn under(ns: Seq<Node>, x: Option<u64>, j: int) -> bool {
    x matches Some(xi) && exists|k: nat| in_sub(ns, xi as int, j, k)
}

/// A node reached from `c` lies in the interval of `c`.
pub proof fn lemma_sub_bounds(ns: Seq<Node>, root: Option<u64>, rank: Seq<int>, bound: int, lo: Seq<int>, hi: Seq<int>, c: int, j: int, k: nat)
    requires
        shaped(ns, root, rank, bound),
        ordered(ns, root, lo, hi),
        ns.len() <= u64::MAX,
        0 <= c < ns.len(),
        in_sub(ns, c, j, k),
    ensures
        0 <= j < ns.len(),
        lo[c] < ns[j].val < hi[c],
    decreases k,
{
    assert(node_ok(ns, root, rank, c));
    assert(bounds_ok(ns, lo, hi, c));
    if k > 0 {
        if ns[c].left is Some && in_sub(ns, ns[c].left->Some_0 as int, j, (k - 1) as nat) {
            lemma_sub_bounds(ns, root, rank, bound, lo, hi, ns[c].left->Some_0 as int, j, (k - 1) as nat);
        } else {
            lemma_sub_bounds(ns, root, rank, bound, lo, hi, ns[c].right->Some_0 as int, j, (k - 1) as nat);
        }
    }
}

/// Reaching `y` from `x` and `j` from `y` reaches `j` from `x`.
pub proof fn lemma_in_sub_trans(ns: Seq<Node>, x: int, y: int, j: int, k1: nat, k2: nat)
    requires
        in_sub(ns, x, y, k1),
        in_sub(ns, y, j, k2),
    ensures
        in_sub(ns, x, j, k1 + k2),
    decreases k1,
{
    if k1 > 0 {
        if ns[x].left is Some && in_sub(ns, ns[x].left->Some_0 as int, y, (k1 - 1) as nat) {
            lemma_in_sub_trans(ns, ns[x].left->Some_0 as int, y, j, (k1 - 1) as nat, k2);
        } else {
            lemma_in_sub_trans(ns, ns[x].right->Some_0 as int, y, j, (k1 - 1) as nat, k2);
        }
        assert((k1 + k2 - 1) as nat == (k1 - 1) as nat + k2);
    }
}

/// In an ordered tree, the nodes below node `i` other than `i` hold keys
/// other than the key of `i`; a key below the left child is smaller, one
/// below the right child larger.
pub proof fn lemma_sub_split(ns: Seq<Node>, root: Option<u64>, rank: Seq<int>, bound: int, lo: Seq<int>, hi: Seq<int>, i: int, j: int, k: nat)
    requires
        shaped(ns, root, rank, bound),
        ordered(ns, root, lo, hi),
        ns.len() <= u64::MAX,
        0 <= i < ns.len(),
        in_sub(ns, i, j, k),
    ensures
        k == 0 ==> j == i,
        k > 0 ==> {
            ||| ns[i].left is Some && in_sub(ns, ns[i].left->Some_0 as int, j, (k - 1) as nat) && ns[j].val < ns[i].val
            ||| ns[i].right is Some && in_sub(ns, ns[i].right->Some_0 as int, j, (k - 1) as nat) && ns[j].val > ns[i].val
        },
{
    assert(node_ok(ns, root, rank, i));
    assert(bounds_ok(ns, lo, hi, i));
    if k > 0 {
        if ns[i].left is Some && in_sub(ns, ns[i].left->Some_0 as int, j, (k - 1) as nat) {
            lemma_sub_bounds(ns, root, rank, bound, lo, hi, ns[i].left->Some_0 as int, j, (k - 1) as nat);
        } else {
            lemma_sub_bounds(ns, root, rank, bound, lo, hi, ns[i].right->Some_0 as int, j, (k - 1) as nat);
        }
    }
}

/// Every node lies in its interval and its children split it at its key.
pub open spec fn bounded(ns: Seq<Node>, lo: Seq<int>, hi: Seq<int>) -> bool {
    &&& lo.len() == ns.len()
    &&& hi.len() == ns.len()
    &&& forall|i: int| 0 <= i < ns.len() ==> #[trigger] bounds_ok(ns, lo, hi, i)
}

/// A node reached from `c` has its interval inside the interval of `c`.
proof fn lemma_sub_interval(ns: Seq<Node>, root: Option<u64>, rank: Seq<int>, bound: int, lo: Seq<int>, hi: Seq<int>, c: int, j: int, k: nat)
    requires
        shaped(ns, root, rank, bound),
        bounded(ns, lo, hi),
        ns.len() <= u64::MAX,
        0 <= c < ns.len(),
        in_sub(ns, c, j, k),
    ensures
        0 <= j < ns.len(),
        lo[c] <= lo[j],
        hi[j] <= hi[c],
        k > 0 ==> {
            ||| ns[c].left is Some && in_sub(ns, ns[c].left->Some_0 as int, j, (k - 1) as nat)
                && lo[ns[c].left->Some_0 as int] <= lo[j] && hi[j] <= hi[ns[c].left->Some_0 as int]
            ||| ns[c].right is Some && in_sub(ns, ns[c].right->Some_0 as int, j, (k - 1) as nat)
                && lo[ns[c].right->Some_0 as int] <= lo[j] && hi[j] <= hi[ns[c].right->Some_0 as int]
        },
    decreases k,
{
    assert(node_ok(ns, root, rank, c));
    assert(bounds_ok(ns, lo, hi, c));
    if k > 0 {
        if ns[c].left is Some && in_sub(ns, ns[c].left->Some_0 as int, j, (k - 1) as nat) {
            lemma_sub_interval(ns, root, rank, bound, lo, hi, ns[c].left->Some_0 as int, j, (k - 1) as nat);
        } else {
            lemma_sub_interval(ns, root, rank, bound, lo, hi, ns[c].right->Some_0 as int, j, (k - 1) as nat);
        }
    } else {
        assert(bounds_ok(ns, lo, hi, j));
    }
}

/// No key under `c` lies in a gap under `c`.
proof fn lemma_gap_free(ns: Seq<Node>, root: Option<u64>, rank: Seq<int>, bound: int, lo: Seq<int>, hi: Seq<int>, c: int, i: int, ki: nat, s: bool, j: int, kj: nat)
    requires
        shaped(ns, root, rank, bound),
        bounded(ns, lo, hi),
        ns.len() <= u64::MAX,
        0 <= c < ns.len(),
        in_sub(ns, c, i, ki),
        in_sub(ns, c, j, kj),
        gap(ns, lo, hi, i, s) is Some,
    ensures
        !inside(ns[j].val as int, gap(ns, lo, hi, i, s)->Some_0),
    decreases ki + kj,
{
    lemma_sub_interval(ns, root, rank, bound, lo, hi, c, i, ki);
    lemma_sub_interval(ns, root, rank, bound, lo, hi, c, j, kj);
    assert(bounds_ok(ns, lo, hi, c));
    assert(bounds_ok(ns, lo, hi, i));
    assert(bounds_ok(ns, lo, hi, j));
    assert(node_ok(ns, root, rank, c));
    if ki > 0 && kj > 0 {
        let l = ns[c].left;
        let r = ns[c].right;
        if l is Some && in_sub(ns, l->Some_0 as int, i, (ki - 1) as nat) && in_sub(ns, l->Some_0 as int, j, (kj - 1) as nat) {
            lemma_gap_free(ns, root, rank, bound, lo, hi, l->Some_0 as int, i, (ki - 1) as nat, s, j, (kj - 1) as nat);
        } else if r is Some && in_sub(ns, r->Some_0 as int, i, (ki - 1) as nat) && in_sub(ns, r->Some_0 as int, j, (kj - 1) as nat) {
            lemma_gap_free(ns, root, rank, bound, lo, hi, r->Some_0 as int, i, (ki - 1) as nat, s, j, (kj - 1) as nat);
        }
    }
}

/// Two gaps under `c` do not overlap.
proof fn lemma_gap_apart(ns: Seq<Node>, root: Option<u64>, rank: Seq<int>, bound: int, lo: Seq<int>, hi: Seq<int>, c: int, i: int, ki: nat, s: bool, j: int, kj: nat, t: bool)
    requires
        shaped(ns, root, rank, bound),
        bounded(ns, lo, hi),
        ns.len() <= u64::MAX,
        0 <= c < ns.len(),
        in_sub(ns, c, i, ki),
        in_sub(ns, c, j, kj),
    ensures
        gaps_apart(ns, lo, hi, i, s, j, t),
    decreases ki + kj,
{
    lemma_sub_interval(ns, root, rank, bound, lo, hi, c, i, ki);
    lemma_sub_interval(ns, root, rank, bound, lo, hi, c, j, kj);
    assert(bounds_ok(ns, lo, hi, c));
    assert(bounds_ok(ns, lo, hi, i));
    assert(bounds_ok(ns, lo, hi, j));
    assert(node_ok(ns, root, rank, c));
    if ki > 0 && kj > 0 {
        let l = ns[c].left;
        let r = ns[c].right;
        if l is Some && in_sub(ns, l->Some_0 as int, i, (ki - 1) as nat) && in_sub(ns, l->Some_0 as int, j, (kj - 1) as nat) {
            lemma_gap_apart(ns, root, rank, bound, lo, hi, l->Some_0 as int, i, (ki - 1) as nat, s, j, (kj - 1) as nat, t);
        } else if r is Some && in_sub(ns, r->Some_0 as int, i, (ki - 1) as nat) && in_sub(ns, r->Some_0 as int, j, (kj - 1) as nat) {
            lemma_gap_apart(ns, root, rank, bound, lo, hi, r->Some_0 as int, i, (ki - 1) as nat, s, j, (kj - 1) as nat, t);
        }
    }
}

/// A shaped tree whose root spans all keys and whose nodes each lie in an
/// interval their children split at their key is in order.
pub proof fn lemma_bounded_ordered(ns: Seq<Node>, root: Option<u64>, rank: Seq<int>, bound: int, lo: Seq<int>, hi: Seq<int>)
    requires
        shaped(ns, root, rank, bound),
        bounded(ns, lo, hi),
        ns.len() <= u64::MAX,
        root is Some,
        lo[root->Some_0 as int] == lo_top(),
        hi[root->Some_0 as int] == hi_top(),
    ensures
        ordered(ns, root, lo, hi),
{
    let r = root->Some_0 as int;
    assert(node_ok(ns, root, rank, r));
    assert forall|i: int, s: bool| 0 <= i < ns.len() implies #[trigger] gap_empty(ns, lo, hi, i, s) by {
        if let Some(g) = gap(ns, lo, hi, i, s) {
            lemma_reach_all(ns, root, rank, bound, i);
            let ki = choose|k: nat| in_sub(ns, r, i, k);
            assert forall|j: int| 0 <= j < ns.len() implies !inside(#[trigger] ns[j].val as int, g) by {
                lemma_reach_all(ns, root, rank, bound, j);
                let kj = choose|k: nat| in_sub(ns, r, j, k);
                lemma_gap_free(ns, root, rank, bound, lo, hi, r, i, ki, s, j, kj);
            }
        }
    }
    assert forall|i: int, s: bool, j: int, t: bool| 0 <= i < ns.len() && 0 <= j < ns.len() implies #[trigger] gaps_apart(ns, lo, hi, i, s, j, t) by {
        lemma_reach_all(ns, root, rank, bound, i);
        let ki = choose|k: nat| in_sub(ns, r, i, k);
        lemma_reach_all(ns, root, rank, bound, j);
        let kj = choose|k: nat| in_sub(ns, r, j, k);
        lemma_gap_apart(ns, root, rank, bound, lo, hi, r, i, ki, s, j, kj, t);
    }
}

proof fn lemma_distinct_under(ns: Seq<Node>, root: Option<u64>, rank: Seq<int>, bound: int, lo: Seq<int>, hi: Seq<int>, c: int, i: int, ki: nat, j: int, kj: nat)
    requires
        shaped(ns, root, rank, bound),
        bounded(ns, lo, hi),
        ns.len() <= u64::MAX,
        0 <= c < ns.len(),
        in_sub(ns, c, i, ki),
        in_sub(ns, c, j, kj),
        i != j,
    ensures
        ns[i].val != ns[j].val,
    decreases ki + kj,
{
    lemma_sub_interval(ns, root, rank, bound, lo, hi, c, i, ki);
    lemma_sub_interval(ns, root, rank, bound, lo, hi, c, j, kj);
    assert(bounds_ok(ns, lo, hi, c));
    assert(bounds_ok(ns, lo, hi, i));
    assert(bounds_ok(ns, lo, hi, j));
    assert(node_ok(ns, root, rank, c));
    if ki > 0 && kj > 0 {
        let l = ns[c].left;
        let r = ns[c].right;
        if l is Some && in_sub(ns, l->Some_0 as int, i, (ki - 1) as nat) && in_sub(ns, l->Some_0 as int, j, (kj - 1) as nat) {
            lemma_distinct_under(ns, root, rank, bound, lo, hi, l->Some_0 as int, i, (ki - 1) as nat, j, (kj - 1) as nat);
        } else if r is Some && in_sub(ns, r->Some_0 as int, i, (ki - 1) as nat) && in_sub(ns, r->Some_0 as int, j, (kj - 1) as nat) {
            lemma_distinct_under(ns, root, rank, bound, lo, hi, r->Some_0 as int, i, (ki - 1) as nat, j, (kj - 1) as nat);
        }
    }
}

/// In an ordered tree no two nodes hold one key.
pub proof fn lemma_keys_distinct(ns: Seq<Node>, root: Option<u64>, rank: Seq<int>, bound: int, lo: Seq<int>, hi: Seq<int>)
    requires
        shaped(ns, root, rank, bound),
        ordered(ns, root, lo, hi),
        ns.len() <= u64::MAX,
    ensures
        forall|i: int, j: int| 0 <= i < ns.len() && 0 <= j < ns.len() && i != j ==> #[trigger] ns[i].val != #[trigger] ns[j].val,
{
    assert forall|i: int, j: int| 0 <= i < ns.len() && 0 <= j < ns.len() && i != j implies #[trigger] ns[i].val != #[trigger] ns[j].val by {
        let r = root->Some_0 as int;
        lemma_reach_all(ns, root, rank, bound, i);
        let ki = choose|k: nat| in_sub(ns, r, i, k);
        lemma_reach_all(ns, root, rank, bound, j);
        let kj = choose|k: nat| in_sub(ns, r, j, k);
        assert(node_ok(ns, root, rank, r));
        lemma_distinct_under(ns, root, rank, bound, lo, hi, r, i, ki, j, kj);
    }
}

} // verus!
