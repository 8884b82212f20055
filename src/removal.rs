//! Key order through a removal: the removed key stops bounding intervals,
//! and the node that takes its place inherits its interval.

use crate::arena::Node;
use crate::order::{bounded, bounds_ok, gap, gap_empty, hi_top, inside, lemma_keys_distinct, lo_top, ordered};
use crate::rbtree::{del_found, left_chain};
use crate::shape::{
    compact_nodes, compact_rank, compact_root, lemma_compact_facts, node_ok, shaped, shaped_except, splice_nodes,
    splice_root,
};
use vstd::prelude::*;

verus! {

/// `b` with every bound equal to `v` replaced by `w`.
pub open spec fn rebound(b: Seq<int>, v: int, w: int) -> Seq<int> {
    Seq::new(b.len(), |k: int| if b[k] == v { w } else { b[k] })
}

/// Lower bounds after removing node `t`, found for key `val` at node `i`.
pub open spec fn del_lo(ns: Seq<Node>, lo: Seq<int>, i: int, t: int, val: u64) -> Seq<int> {
    if t != i {
        rebound(lo, val as int, ns[t].val as int)
    } else if ns[t].left is None {
        rebound(lo, val as int, lo[t])
    } else {
        lo
    }
}

/// Upper bounds after that removal.
pub open spec fn del_hi(ns: Seq<Node>, hi: Seq<int>, i: int, t: int, val: u64) -> Seq<int> {
    if t != i {
        rebound(hi, val as int, ns[t].val as int)
    } else if ns[t].left is None {
        hi
    } else {
        rebound(hi, val as int, hi[t])
    }
}

/// `a` and `b` differ at most in colours.
pub open spec fn same_but_color(a: Seq<Node>, b: Seq<Node>) -> bool {
    &&& a.len() == b.len()
    &&& forall|k: int| #![trigger a[k]] 0 <= k < a.len() ==> a[k].parent == b[k].parent && a[k].left == b[k].left
        && a[k].right == b[k].right && a[k].val == b[k].val
}

/// Bounded at every node but `t`.
pub open spec fn bounded_skip(ns: Seq<Node>, lo: Seq<int>, hi: Seq<int>, t: int) -> bool {
    &&& lo.len() == ns.len()
    &&& hi.len() == ns.len()
    &&& forall|k: int| 0 <= k < ns.len() && k != t ==> #[trigger] bounds_ok(ns, lo, hi, k)
}

/// Along left links the lower bound stays and the upper bound shrinks.
pub proof fn lemma_chain_bounds(ns: Seq<Node>, root: Option<u64>, rank: Seq<int>, bound: int, lo: Seq<int>, hi: Seq<int>, a: int, b: int, k: nat)
    requires
        shaped(ns, root, rank, bound),
        ordered(ns, root, lo, hi),
        ns.len() <= u64::MAX,
        0 <= a < ns.len(),
        left_chain(ns, a, b, k),
    ensures
        0 <= b < ns.len(),
        lo[b] == lo[a],
        hi[b] <= hi[a],
        k == 0 ==> b == a,
        k > 0 ==> (ns[b].parent matches Some(q) && ns[q as int].left == Some(b as u64) && left_chain(ns, a, q as int, (k - 1) as nat)),
    decreases k,
{
    assert(node_ok(ns, root, rank, a));
    assert(bounds_ok(ns, lo, hi, a));
    if k > 0 {
        let c = ns[a].left->Some_0 as int;
        lemma_chain_bounds(ns, root, rank, bound, lo, hi, c, b, (k - 1) as nat);
        assert(node_ok(ns, root, rank, c));
        assert(bounds_ok(ns, lo, hi, c));
        if k == 1 {
            assert(b == c);
            assert(left_chain(ns, a, a, 0));
        } else {
            let q = ns[b].parent->Some_0 as int;
            assert(left_chain(ns, a, q, (k - 1) as nat));
        }
    }
}

/// After removing node `t` (found for `val` at node `i`, with the key of
/// `t` moved into `i` when they differ), every other node lies in its
/// rewritten interval and its children split it at its key.
#[verifier::rlimit(100)]
#[verifier::spinoff_prover]
pub proof fn lemma_del_bounds_node(ns: Seq<Node>, root: Option<u64>, rank: Seq<int>, bound: int, lo: Seq<int>, hi: Seq<int>,
    nsb: Seq<Node>, nsp: Seq<Node>, i: int, t: int, val: u64, k: int)
    requires
        shaped(ns, root, rank, bound),
        ordered(ns, root, lo, hi),
        ns.len() <= u64::MAX,
        del_found(ns, nsb, i, t, val),
        0 <= t < ns.len(),
        same_but_color(nsp, nsb),
        0 <= k < ns.len(),
        k != t,
    ensures
        ({
            let c = if nsp[t].left is Some { nsp[t].left } else { nsp[t].right };
            bounds_ok(splice_nodes(nsp, t, c), del_lo(ns, lo, i, t, val), del_hi(ns, hi, i, t, val), k)
        }),
{
    let c = if nsp[t].left is Some { nsp[t].left } else { nsp[t].right };
    let ns2 = splice_nodes(nsp, t, c);
    let lo2 = del_lo(ns, lo, i, t, val);
    let hi2 = del_hi(ns, hi, i, t, val);
    let p = ns[t].parent;
    lemma_keys_distinct(ns, root, rank, bound, lo, hi);
    assert(node_ok(ns, root, rank, t));
    assert(node_ok(ns, root, rank, i));
    assert(node_ok(ns, root, rank, k));
    assert(bounds_ok(ns, lo, hi, t));
    assert(bounds_ok(ns, lo, hi, i));
    assert(bounds_ok(ns, lo, hi, k));
    assert(nsp[t] == Node { color: nsp[t].color, ..ns[t] });
    assert(lo2.len() == ns.len() && hi2.len() == ns.len());
    if let Some(pi) = p {
        assert(node_ok(ns, root, rank, pi as int));
        assert(bounds_ok(ns, lo, hi, pi as int));
    }
    if let Some(ci) = c {
        assert(node_ok(ns, root, rank, ci as int));
        assert(bounds_ok(ns, lo, hi, ci as int));
    }
    if let Some(ch) = ns[k].left {
        assert(node_ok(ns, root, rank, ch as int));
    }
    if let Some(ch) = ns[k].right {
        assert(node_ok(ns, root, rank, ch as int));
    }
    if t != i {
        let r = ns[i].right->Some_0 as int;
        let kk = choose|kk: nat| left_chain(ns, r, t, kk);
        lemma_chain_bounds(ns, root, rank, bound, lo, hi, r, t, kk);
        assert(node_ok(ns, root, rank, r));
        assert(lo[t] == val);
        assert(gap(ns, lo, hi, t, false) == Some((val as int, ns[t].val as int)));
        assert(gap_empty(ns, lo, hi, t, false));
        assert(!inside(ns[k].val as int, (val as int, ns[t].val as int)));
        if kk > 0 {
            let q = ns[t].parent->Some_0 as int;
            lemma_chain_bounds(ns, root, rank, bound, lo, hi, r, q, (kk - 1) as nat);
        }
    }
    let n2 = ns2[k];
    assert(nsp[k].val == nsb[k].val && nsp[k].left == nsb[k].left && nsp[k].right == nsb[k].right);
    assert(nsb[k].left == ns[k].left && nsb[k].right == ns[k].right);
    assert(n2.val == nsb[k].val);
    assert(n2.val == (if k == i && t != i { ns[t].val } else { ns[k].val }));
    if k != i {
        assert(ns[k].val != ns[i].val);
    }
    assert(ns[k].val != ns[t].val);
    if t != i {
        if k == i {
            assert(lo2[k] == lo[k]);
            assert(hi2[k] == hi[k]);
        } else {
            if lo[k] == val as int {
                assert(lo2[k] == ns[t].val);
            } else {
                assert(lo2[k] == lo[k]);
            }
            if hi[k] == val as int {
                assert(hi2[k] == ns[t].val);
            } else {
                assert(hi2[k] == hi[k]);
            }
        }
    } else if ns[t].left is None {
        assert(hi2[k] == hi[k]);
        if lo[k] == val as int {
            assert(lo2[k] == lo[t]);
        } else {
            assert(lo2[k] == lo[k]);
        }
    } else {
        assert(lo2[k] == lo[k]);
        if hi[k] == val as int {
            assert(hi2[k] == hi[t]);
        } else {
            assert(hi2[k] == hi[k]);
        }
    }
    assert(lo2[k] < n2.val < hi2[k]);
    if let Some(ch) = n2.left {
        assert(node_ok(ns, root, rank, ch as int));
        assert(bounds_ok(ns, lo, hi, ch as int));
        if p == Some(k as u64) && ns[k].left == Some(t as u64) {
            assert(Some(ch) == c);
        } else {
            assert(Some(ch) == ns[k].left);
        }
    }
    assert(n2.left matches Some(ch) ==> lo2[ch as int] == lo2[k] && hi2[ch as int] == n2.val);
    assert(n2.right matches Some(ch) ==> lo2[ch as int] == n2.val && hi2[ch as int] == hi2[k]);
}

/// After that removal every node but `t` is bounded, and the root (if
/// any) spans all keys.
pub proof fn lemma_del_bounds(ns: Seq<Node>, root: Option<u64>, rank: Seq<int>, bound: int, lo: Seq<int>, hi: Seq<int>,
    nsb: Seq<Node>, nsp: Seq<Node>, i: int, t: int, val: u64)
    requires
        shaped(ns, root, rank, bound),
        ordered(ns, root, lo, hi),
        ns.len() <= u64::MAX,
        del_found(ns, nsb, i, t, val),
        0 <= t < ns.len(),
        same_but_color(nsp, nsb),
    ensures
        ({
            let c = if nsp[t].left is Some { nsp[t].left } else { nsp[t].right };
            let lo2 = del_lo(ns, lo, i, t, val);
            let hi2 = del_hi(ns, hi, i, t, val);
            &&& bounded_skip(splice_nodes(nsp, t, c), lo2, hi2, t)
            &&& (splice_root(nsp, root, t, c) matches Some(r2) ==> lo2[r2 as int] == lo_top() && hi2[r2 as int] == hi_top())
        }),
{
    let c = if nsp[t].left is Some { nsp[t].left } else { nsp[t].right };
    let ns2 = splice_nodes(nsp, t, c);
    let lo2 = del_lo(ns, lo, i, t, val);
    let hi2 = del_hi(ns, hi, i, t, val);
    assert(node_ok(ns, root, rank, t));
    assert(nsb.len() == ns.len());
    if let Some(ci) = c {
        assert(node_ok(ns, root, rank, ci as int));
    }
    if let Some(pi) = ns[t].parent {
        assert(node_ok(ns, root, rank, pi as int));
    }
    assert(ns2.len() == ns.len());
    assert forall|k: int| 0 <= k < ns2.len() && k != t implies #[trigger] bounds_ok(ns2, lo2, hi2, k) by {
        lemma_del_bounds_node(ns, root, rank, bound, lo, hi, nsb, nsp, i, t, val, k);
    }
    assert(bounds_ok(ns, lo, hi, t));
    assert(nsp[t].parent == ns[t].parent && nsp[t].left == ns[t].left && nsp[t].right == ns[t].right);
    if let Some(r0) = root {
        assert(node_ok(ns, root, rank, r0 as int));
    }
    if let Some(ci) = c {
        assert(node_ok(ns, root, rank, ci as int));
        assert(bounds_ok(ns, lo, hi, ci as int));
    }
    if t != i {
        assert(root != Some(t as u64)) by {
            assert(node_ok(ns, root, rank, i));
            let r = ns[i].right->Some_0 as int;
            let kk = choose|kk: nat| left_chain(ns, r, t, kk);
            lemma_chain_bounds(ns, root, rank, bound, lo, hi, r, t, kk);
            assert(node_ok(ns, root, rank, i));
            assert(bounds_ok(ns, lo, hi, i));
            assert(node_ok(ns, root, rank, r));
        }
    }
}

/// Moving the last record into the free slot `t` keeps every node bounded
/// and the root spanning all keys.
pub proof fn lemma_compact_bounds(ns: Seq<Node>, root: Option<u64>, rank: Seq<int>, bound: int, lo: Seq<int>, hi: Seq<int>, t: int)
    requires
        shaped_except(ns, root, rank, bound, t),
        ns.len() <= u64::MAX,
        bounded_skip(ns, lo, hi, t),
        root matches Some(r) ==> lo[r as int] == lo_top() && hi[r as int] == hi_top(),
    ensures
        bounded(compact_nodes(ns, t), compact_rank(lo, t), compact_rank(hi, t)),
        compact_root(ns, root, t) matches Some(r) ==> compact_rank(lo, t)[r as int] == lo_top() && compact_rank(hi, t)[r as int] == hi_top(),
{
    let last = ns.len() - 1;
    let ns2 = compact_nodes(ns, t);
    let lo2 = compact_rank(lo, t);
    let hi2 = compact_rank(hi, t);
    if t != last {
        lemma_compact_facts(ns, root, rank, bound, t);
    } else {
        assert(ns2 == ns.drop_last());
    }
    assert forall|k: int| 0 <= k < last implies #[trigger] bounds_ok(ns2, lo2, hi2, k) by {
        let o = if k == t { last } else { k };
        assert(o != t);
        assert(bounds_ok(ns, lo, hi, o));
        assert(node_ok(ns, root, rank, o));
        assert(lo2[k] == lo[o] && hi2[k] == hi[o]);
        if let Some(ch) = ns[o].left {
            assert(node_ok(ns, root, rank, ch as int));
            assert(ch != t);
        }
        if let Some(ch) = ns[o].right {
            assert(node_ok(ns, root, rank, ch as int));
            assert(ch != t);
        }
        if t != last {
            let ln = ns[last];
            if let Some(q) = ln.parent {
                assert(node_ok(ns, root, rank, q as int));
            }
        }
    }
    if let Some(r0) = root {
        assert(r0 != t) by {
            assert(root != Some(t as u64));
        }
    }
}

/// The child that takes the place of `t` when it is spliced out.
pub open spec fn heir(n: Node) -> Option<u64> {
    if n.left is Some {
        n.left
    } else {
        n.right
    }
}

/// Node records that differ only in colour splice alike and bound alike.
pub proof fn lemma_colors_irrelevant(a: Seq<Node>, b: Seq<Node>, lo: Seq<int>, hi: Seq<int>, t: int)
    requires
        same_but_color(a, b),
        0 <= t < a.len(),
        a[t].parent matches Some(p) ==> p < a.len(),
        heir(a[t]) matches Some(c) ==> c < a.len(),
        bounded_skip(splice_nodes(b, t, heir(b[t])), lo, hi, t),
    ensures
        bounded_skip(splice_nodes(a, t, heir(a[t])), lo, hi, t),
        same_but_color(splice_nodes(a, t, heir(a[t])), splice_nodes(b, t, heir(b[t]))),
{
    let sa = splice_nodes(a, t, heir(a[t]));
    let sb = splice_nodes(b, t, heir(b[t]));
    assert(a[t].parent == b[t].parent && a[t].left == b[t].left && a[t].right == b[t].right);
    if let Some(p) = a[t].parent {
        assert(a[p as int].left == b[p as int].left);
    }
    assert(sa.len() == sb.len());
    assert forall|k: int| #![trigger sa[k]] 0 <= k < sa.len() implies sa[k].parent == sb[k].parent && sa[k].left == sb[k].left
        && sa[k].right == sb[k].right && sa[k].val == sb[k].val by {
        assert(a[k].parent == b[k].parent);
    }
    assert forall|k: int| 0 <= k < sa.len() && k != t implies #[trigger] bounds_ok(sa, lo, hi, k) by {
        assert(bounds_ok(sb, lo, hi, k));
        assert(sa[k].val == sb[k].val);
    }
}

} // verus!
