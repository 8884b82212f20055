//! A red-black tree of unique `u64` keys whose nodes are the records of an
//! [`Mem`] arena and whose links are arena positions.

use crate::arena::{node_at, opt_at, Mem, Node, HEADER_SIZE, NODE_SIZE};
use crate::order::{
    gap_empty, bounded, hi_top, lemma_bounded_ordered, lo_top, lemma_in_sub_trans, lemma_sub_split, under,
    attach_bounds, bounds_ok, inside, lemma_attach_ordered, lemma_gap_absent,
    lemma_recolor_ordered, lemma_rot_ordered, ordered, rot_hi, rot_lo,
};
use crate::balance::{
    bh_at, deficit, lemma_compact_balance, lemma_compact_deficit, lemma_rekey_balance,
    lemma_splice_balance, short_after, splice_bh, splice_paint, lemma_dd_blacks, lemma_dd_far, lemma_dd_near, lemma_dd_red,
    balanced, balanced_but, lemma_attach_balance, lemma_balanced_but, lemma_finish_balance,
    height_ok, lemma_inner_balance, lemma_outer_balance, lemma_recolor_balance, other_child, painted,
    reds_ok,
};
use crate::capacity::{doubled, lemma_capacity_after_add, lemma_capacity_after_del, least_capacity, used_for};
use crate::region::{le_u64, map_bytes};
use crate::removal::{
    bounded_skip, del_hi, del_lo, heir, lemma_colors_irrelevant, lemma_compact_bounds, lemma_del_bounds,
    same_but_color,
};
use crate::shape::{
    attach_nodes, attach_rank, colors, compact_nodes, compact_root, compact_rank, lemma_attach,
    lemma_compact, lemma_compact_facts, lemma_recolor, lemma_rekey, lemma_rot_facts, lemma_rotate,
    in_sub, lemma_distinct_below, lemma_in_sub_extend, lemma_reach_all, lemma_rootless_empty, lemma_splice, link_in, node_ok, rot_nodes, rot_rank, rot_root, shaped, shaped_except, side,
    splice_nodes, splice_root, vals,
};
use memmap::MmapMut;
use vstd::multiset::Multiset;
use vstd::prelude::*;

verus! {

broadcast use vstd::seq_lib::group_to_multiset_ensures;

/// The smallest region, in bytes, that a tree is kept in.
pub const LEAST_CAPACITY: u64 = 4096;

/// Whether two nilable indices are equal.
fn same(a: Option<u64>, b: Option<u64>) -> (r: bool)
    ensures
        r == (a == b),
{
    match (a, b) {
        (Some(x), Some(y)) => x == y,
        (None, None) => true,
        _ => false,
    }
}

/// The state of a breadth-first walk from `r`: `order` lists the nodes
/// reached, `order[..h]` have been expanded, `pos` gives each reached
/// node's place in `order`, and every expanded node passed the checks.
pub open spec fn walk_ok(ns: Seq<Node>, r: u64, seen: Seq<bool>, order: Seq<u64>, pos: Seq<int>, h: int) -> bool {
    &&& seen.len() == ns.len()
    &&& pos.len() == ns.len()
    &&& 0 < order.len()
    &&& 0 <= h <= order.len()
    &&& order[0] == r
    &&& ns[r as int].parent is None
    &&& forall|j: int| 0 <= j < order.len() ==> (#[trigger] order[j]) < ns.len() && seen[order[j] as int] && pos[order[j] as int] == j
    &&& forall|x: int| 0 <= x < ns.len() && #[trigger] seen[x] ==> 0 <= pos[x] < order.len() && order[pos[x]] == x
    &&& forall|j: int| 0 <= j < h ==> #[trigger] expanded_ok(ns, seen, pos, order[j] as int)
    &&& forall|x: int| 0 <= x < ns.len() && #[trigger] seen[x] && x != r ==> ({
        let q = ns[x].parent;
        &&& q is Some
        &&& (q->Some_0) < ns.len()
        &&& seen[q->Some_0 as int]
        &&& 0 <= pos[q->Some_0 as int] < h
        &&& pos[q->Some_0 as int] < pos[x]
        &&& (ns[q->Some_0 as int].left == Some(x as u64) || ns[q->Some_0 as int].right == Some(x as u64))
    })
}

/// Node `i` has live links, distinct children, and children that were
/// reached after it and point back to it.
pub open spec fn expanded_ok(ns: Seq<Node>, seen: Seq<bool>, pos: Seq<int>, i: int) -> bool {
    let n = ns[i];
    &&& link_in(ns.len(), n.parent)
    &&& link_in(ns.len(), n.left)
    &&& link_in(ns.len(), n.right)
    &&& (n.left is Some && n.right is Some ==> n.left != n.right)
    &&& (n.left matches Some(c) ==> seen[c as int] && ns[c as int].parent == Some(i as u64) && pos[i] < pos[c as int])
    &&& (n.right matches Some(c) ==> seen[c as int] && ns[c as int].parent == Some(i as u64) && pos[i] < pos[c as int])
}

/// The side of `p` on which a new key `val` hangs: right when it is
/// greater than the key of `p`.
pub open spec fn attach_side(ns: Seq<Node>, p: Option<u64>, val: u64) -> bool {
    match p {
        Some(pi) => val > ns[pi as int].val,
        None => false,
    }
}

/// `t` is reached from `a` by following `k` left links.
pub open spec fn left_chain(ns: Seq<Node>, a: int, t: int, k: nat) -> bool
    decreases k,
{
    if k == 0 {
        a == t
    } else {
        ns[a].left matches Some(b) && left_chain(ns, b as int, t, (k - 1) as nat)
    }
}

proof fn lemma_left_chain_extend(ns: Seq<Node>, a: int, t: int, k: nat, b: int)
    requires
        left_chain(ns, a, t, k),
        ns[t].left == Some(b as u64),
        0 <= b <= u64::MAX,
    ensures
        left_chain(ns, a, b, k + 1),
    decreases k,
{
    if k > 0 {
        let c = ns[a].left->Some_0 as int;
        lemma_left_chain_extend(ns, c, t, (k - 1) as nat, b);
    } else {
        assert(left_chain(ns, b, b, 0));
        assert((b as u64) as int == b);
    }
}

/// What a successful `del_bst` did: node `i` holds `val`; when it has at
/// most one child it is returned (`t == i`) and nothing changed; otherwise
/// `t` is the leftmost node of its right subtree, which has no left child,
/// and `i` took the key of `t`, the only change.
pub open spec fn del_found(ns: Seq<Node>, ns2: Seq<Node>, i: int, t: int, val: u64) -> bool {
    &&& 0 <= i < ns.len()
    &&& ns[i].val == val
    &&& if ns[i].left is Some && ns[i].right is Some {
        &&& exists|k: nat| left_chain(ns, ns[i].right->Some_0 as int, t, k)
        &&& ns[t].left is None
        &&& ns2 == ns.update(i, Node { val: ns[t].val, ..ns[i] })
    } else {
        t == i && ns2 == ns
    }
}

/// Every node under `x0` that holds `val` lies under `cur`.
pub open spec fn covered(ns: Seq<Node>, x0: Option<u64>, cur: Option<u64>, val: u64) -> bool {
    forall|j: int| #[trigger] under(ns, x0, j) && ns[j].val == val ==> under(ns, cur, j)
}

/// A lower bound kept at run time: absent means below every key.
pub open spec fn lo_of(o: Option<u64>) -> int {
    match o {
        Some(v) => v as int,
        None => lo_top(),
    }
}

/// An upper bound kept at run time: absent means above every key.
pub open spec fn hi_of(o: Option<u64>) -> int {
    match o {
        Some(v) => v as int,
        None => hi_top(),
    }
}

/// Lower bounds as integers.
pub open spec fn los(lv: Seq<Option<u64>>) -> Seq<int> {
    Seq::new(lv.len(), |x: int| lo_of(lv[x]))
}

/// Upper bounds as integers.
pub open spec fn his(hv: Seq<Option<u64>>) -> Seq<int> {
    Seq::new(hv.len(), |x: int| hi_of(hv[x]))
}

/// The witnesses that a tree is well linked, balanced and in key order:
/// ranks and their bound, black heights, and key intervals.
pub type TreeWitness = (Seq<int>, int, Seq<int>, Seq<int>, Seq<int>);

/// The bytes hold a tree as this library leaves it: the header fits the
/// region, and the records form one linked binary tree from the root that
/// is red-black balanced and in key order.
pub open spec fn holds_tree(s: Seq<u8>) -> bool {
    let ns = Seq::new(le_u64(s, 0) as nat, |i: int| node_at(s, i));
    let root = opt_at(s, 8);
    &&& HEADER_SIZE <= s.len()
    &&& HEADER_SIZE + NODE_SIZE * le_u64(s, 0) <= s.len()
    &&& exists|w: TreeWitness| shaped(ns, root, w.0, w.1) && balanced(ns, root, w.2) && ordered(ns, root, w.3, w.4)
}

/// Node `p` is where a leaf with key `val` hangs in a binary search tree:
/// below `p` on the left when `p` holds the next larger key and has no left
/// child, on the right when it holds the next smaller key and has no right
/// child.
pub open spec fn leaf_parent(ns: Seq<Node>, p: int, val: u64) -> bool {
    &&& val != ns[p].val
    &&& val < ns[p].val ==> ns[p].left is None
        && forall|j: int| 0 <= j < ns.len() && #[trigger] ns[j].val > val ==> ns[j].val >= ns[p].val
    &&& val > ns[p].val ==> ns[p].right is None
        && forall|j: int| 0 <= j < ns.len() && #[trigger] ns[j].val < val ==> ns[j].val <= ns[p].val
}

/// Black heights as integers.
pub open spec fn heights(hv: Seq<u64>) -> Seq<int> {
    Seq::new(hv.len(), |i: int| hv[i] as int)
}

/// Why an insertion was refused.
#[derive(Clone, Copy, Debug, PartialEq, Eq, Structural)]
pub enum AddError {
    /// The key is already in the tree; nothing changed.
    Duplicate,
    /// The region has no room for one more node; nothing changed. Remap the
    /// tree onto a region of `grow_target()` bytes and try again.
    Full,
}

/// Why a region could not be opened as a tree.
#[derive(Clone, Copy, Debug, PartialEq, Eq, Structural)]
pub enum OpenError {
    /// The region is smaller than [`LEAST_CAPACITY`].
    TooSmall,
    /// The header or the node records do not describe a tree.
    Corrupt,
}

/// A red-black tree of unique keys kept in a memory-mapped arena.
///
/// Ghost state: `rank` orders every path from the root (it grows from
/// parent to child below `bound`), `lo` and `hi` give each node the open
/// interval of keys its subtree may hold, and `bh` its black height.
pub struct RBTree {
    mem: Mem,
    rank: Ghost<Seq<int>>,
    bound: Ghost<int>,
    lo: Ghost<Seq<int>>,
    hi: Ghost<Seq<int>>,
    bh: Ghost<Seq<int>>,
}

impl RBTree {
    /// The node records, by position.
    pub closed spec fn nodes(&self) -> Seq<Node> {
        self.mem.nodes()
    }

    /// The position of the root, if the tree is not empty.
    pub closed spec fn root(&self) -> Option<u64> {
        self.mem.root()
    }

    /// The bytes of the backing region.
    pub closed spec fn bytes(&self) -> Seq<u8> {
        self.mem.bytes()
    }

    /// The size of the backing region in bytes.
    pub closed spec fn cap(&self) -> nat {
        self.mem.cap()
    }

    /// Bytes in use: the header and one record per node.
    pub open spec fn used(&self) -> int {
        HEADER_SIZE + NODE_SIZE * self.nodes().len()
    }

    /// The keys held, with multiplicity.
    pub open spec fn keys(&self) -> Multiset<u64> {
        vals(self.nodes()).to_multiset()
    }

    /// The keys are in binary-search-tree order: every key lies between the
    /// keys of the ancestors it hangs left and right of, and a search that
    /// reaches an absent child has proved its key absent.
    pub closed spec fn ordered(&self) -> bool {
        ordered(self.mem.nodes(), self.mem.root(), self.lo@, self.hi@)
    }

    /// The tree is red-black balanced: the root is black, a red node has
    /// no red child, and every path from a node down to an absent child
    /// meets the same number of black nodes.
    pub closed spec fn balanced(&self) -> bool {
        balanced(self.mem.nodes(), self.mem.root(), self.bh@)
    }

    /// Key `val` lies in the gap that the absent child of `p` on its side
    /// stands for (in the whole key range when `p` is absent): the one place
    /// an ordered tree can take it as a leaf.
    pub closed spec fn slot_for(&self, p: Option<u64>, val: u64) -> bool {
        inside(val as int, attach_bounds(self.mem.nodes(), self.lo@, self.hi@, p, attach_side(self.mem.nodes(), p, val)))
    }

    /// Node `t` is about to be spliced out and the key intervals already
    /// describe the tree without it: once its child takes its place, every
    /// other node lies in its interval and the root spans all keys.
    pub closed spec fn pending(&self, t: int) -> bool {
        let ns = self.mem.nodes();
        &&& 0 <= t < ns.len()
        &&& bounded_skip(splice_nodes(ns, t, heir(ns[t])), self.lo@, self.hi@, t)
        &&& (splice_root(ns, self.mem.root(), t, heir(ns[t])) matches Some(r2) ==> self.lo@[r2 as int] == lo_top()
            && self.hi@[r2 as int] == hi_top())
    }

    /// Balanced but for a black too few below `p` on the side of `x`; with
    /// `p` absent, simply balanced.
    pub closed spec fn short_at(&self, p: Option<u64>, x: Option<u64>) -> bool {
        match p {
            Some(pi) => deficit(self.mem.nodes(), self.mem.root(), self.bh@, pi as int, x),
            None => balanced(self.mem.nodes(), self.mem.root(), self.bh@),
        }
    }

    /// Balanced but for one fault: node `x` may be red under a red parent.
    pub closed spec fn balanced_except(&self, x: int) -> bool {
        balanced_but(self.mem.nodes(), self.mem.root(), self.bh@, x)
    }

    /// The arena fits its region and its nodes form one linked binary tree.
    pub closed spec fn wf(&self) -> bool {
        &&& self.mem.wf()
        &&& shaped(self.mem.nodes(), self.mem.root(), self.rank@, self.bound@)
    }

    /// The records in use fit the region, whose size is a `usize`.
    pub proof fn lemma_wf_len(&self)
        requires
            self.wf(),
        ensures
            self.nodes().len() <= u64::MAX,
            self.used() <= self.cap() <= usize::MAX,
    {
    }

    /// What a well-formed tree holds of its links: every link is live, a
    /// child points back to its parent, a parent points down to its child,
    /// only the root lacks a parent, two children differ, and no node is its
    /// own child or parent.
    pub proof fn lemma_wf_links(&self)
        requires
            self.wf(),
        ensures
            link_in(self.nodes().len(), self.root()),
            forall|i: int| 0 <= i < self.nodes().len() ==> {
                let n = #[trigger] self.nodes()[i];
                &&& link_in(self.nodes().len(), n.parent)
                &&& link_in(self.nodes().len(), n.left)
                &&& link_in(self.nodes().len(), n.right)
                &&& (n.parent is None <==> self.root() == Some(i as u64))
                &&& (n.left matches Some(c) ==> self.nodes()[c as int].parent == Some(i as u64))
                &&& (n.right matches Some(c) ==> self.nodes()[c as int].parent == Some(i as u64))
                &&& (n.parent matches Some(q) ==> self.nodes()[q as int].left == Some(i as u64)
                    || self.nodes()[q as int].right == Some(i as u64))
                &&& (n.left is Some && n.right is Some ==> n.left != n.right)
                &&& n.left != Some(i as u64)
                &&& n.right != Some(i as u64)
                &&& n.parent != Some(i as u64)
            },
    {
        let ns = self.mem.nodes();
        self.lemma_wf_len();
        assert forall|i: int| 0 <= i < ns.len() implies {
            let n = #[trigger] ns[i];
            &&& link_in(ns.len(), n.parent)
            &&& link_in(ns.len(), n.left)
            &&& link_in(ns.len(), n.right)
            &&& (n.parent is None <==> self.root() == Some(i as u64))
            &&& (n.left matches Some(c) ==> ns[c as int].parent == Some(i as u64))
            &&& (n.right matches Some(c) ==> ns[c as int].parent == Some(i as u64))
            &&& (n.parent matches Some(q) ==> ns[q as int].left == Some(i as u64) || ns[q as int].right == Some(i as u64))
            &&& (n.left is Some && n.right is Some ==> n.left != n.right)
            &&& n.left != Some(i as u64)
            &&& n.right != Some(i as u64)
            &&& n.parent != Some(i as u64)
        } by {
            assert(node_ok(ns, self.mem.root(), self.rank@, i));
            if let Some(q) = ns[i].parent {
                assert(node_ok(ns, self.mem.root(), self.rank@, q as int));
            }
        }
    }

    /// A balanced tree has a black root, if any.
    pub proof fn lemma_balanced_root(&self)
        requires
            self.balanced(),
        ensures
            self.root() matches Some(t) ==> !self.nodes()[t as int].color,
    {
    }

    /// A tree without a root holds no nodes.
    pub proof fn lemma_rootless_empty(&self)
        requires
            self.wf(),
        ensures
            self.root() is None ==> self.nodes().len() == 0,
    {
        lemma_rootless_empty(self.mem.nodes(), self.mem.root(), self.rank@, self.bound@);
    }

    /// The number of nodes.
    pub fn len(&self) -> (r: u64)
        requires
            self.wf(),
        ensures
            r == self.nodes().len(),
    {
        self.mem.len()
    }

    /// The position of the root.
    pub fn root_index(&self) -> (r: Option<u64>)
        requires
            self.wf(),
        ensures
            r == self.root(),
    {
        self.mem.meta()
    }

    /// The node at position `i`.
    pub fn node(&self, i: u64) -> (r: Node)
        requires
            self.wf(),
            i < self.nodes().len(),
        ensures
            r == self.nodes()[i as int],
    {
        self.mem.get(i)
    }

    /// The size of the backing region in bytes.
    pub fn capacity(&self) -> (r: usize)
        ensures
            r == self.cap(),
    {
        self.mem.capacity()
    }

    /// Bytes in use: the header and one record per node.
    pub fn occupy(&self) -> (r: usize)
        requires
            self.wf(),
        ensures
            r == self.used(),
    {
        self.mem.occupy()
    }

    /// Sets the colour of node `i`.
    fn paint(&mut self, i: u64, red: bool)
        requires
            old(self).wf(),
            i < old(self).nodes().len(),
        ensures
            final(self).wf(),
            final(self).nodes() == old(self).nodes().update(i as int, Node { color: red, ..old(self).nodes()[i as int] }),
            final(self).root() == old(self).root(),
            final(self).cap() == old(self).cap(),
            final(self).keys() == old(self).keys(),
            final(self).rank@ == old(self).rank@,
            final(self).bound@ == old(self).bound@,
            final(self).bh@ == old(self).bh@,
            final(self).lo@ == old(self).lo@,
            final(self).hi@ == old(self).hi@,
            old(self).ordered() ==> final(self).ordered(),
            vals(final(self).nodes()) == vals(old(self).nodes()),
    {
        proof {
            lemma_recolor(self.mem.nodes(), self.mem.root(), self.rank@, self.bound@, i as int, red);
            if self.ordered() {
                lemma_recolor_ordered(self.mem.nodes(), self.mem.root(), self.lo@, self.hi@, i as int, red);
            }
        }
        let n = self.mem.get(i);
        self.mem.set(i, Node { color: red, ..n });
    }

    /// Whether `x` names a red node; an absent node is black.
    pub fn is_red(&self, x: Option<u64>) -> (r: bool)
        requires
            self.wf(),
            link_in(self.nodes().len(), x),
        ensures
            r == (x matches Some(i) && self.nodes()[i as int].color),
    {
        match x {
            Some(i) => self.mem.get(i).is_red(),
            None => false,
        }
    }

    /// Whether `x` names a black node or is absent.
    pub fn is_black(&self, x: Option<u64>) -> (r: bool)
        requires
            self.wf(),
            link_in(self.nodes().len(), x),
        ensures
            r == !(x matches Some(i) && self.nodes()[i as int].color),
    {
        match x {
            Some(i) => self.mem.get(i).is_black(),
            None => true,
        }
    }

    /// Lifts the child of `x` on side `r` (right when `r`) into the place of `x`.
    fn rotate(&mut self, x: u64, r: bool)
        requires
            old(self).wf(),
            x < old(self).nodes().len(),
            side(old(self).nodes()[x as int], r) is Some,
        ensures
            final(self).wf(),
            final(self).bh@ == old(self).bh@,
            final(self).nodes() == rot_nodes(old(self).nodes(), x as int, r),
            final(self).root() == rot_root(old(self).nodes(), old(self).root(), x as int, r),
            final(self).cap() == old(self).cap(),
            final(self).nodes().len() == old(self).nodes().len(),
            vals(final(self).nodes()) == vals(old(self).nodes()),
            colors(final(self).nodes()) == colors(old(self).nodes()),
            old(self).ordered() ==> final(self).ordered(),
    {
        let ghost ns = self.mem.nodes();
        proof {
            self.lemma_wf_len();
            lemma_rotate(ns, self.mem.root(), self.rank@, self.bound@, x as int, r);
            lemma_rot_facts(ns, self.mem.root(), self.rank@, self.bound@, x as int, r);
            if self.ordered() {
                lemma_rot_ordered(ns, self.mem.root(), self.rank@, self.bound@, self.lo@, self.hi@, x as int, r);
            }
            reveal(rot_nodes);
        }
        let ghost was_ordered = self.ordered();
        let ghost root0 = self.mem.root();
        let xn = self.mem.get(x);
        let y = if r { xn.right.unwrap() } else { xn.left.unwrap() };
        let yn = self.mem.get(y);
        let b = if r { yn.left } else { yn.right };
        let p = xn.parent;
        let xn2 = if r { Node { parent: Some(y), right: b, ..xn } } else { Node { parent: Some(y), left: b, ..xn } };
        self.mem.set(x, xn2);
        if let Some(bi) = b {
            let bn = self.mem.get(bi);
            self.mem.set(bi, Node { parent: Some(x), ..bn });
        }
        let yn2 = self.mem.get(y);
        let yn3 = if r { Node { parent: p, left: Some(x), ..yn2 } } else { Node { parent: p, right: Some(x), ..yn2 } };
        self.mem.set(y, yn3);
        match p {
            Some(pi) => {
                let pn = self.mem.get(pi);
                let to_left = match pn.left {
                    Some(l) => l == x,
                    None => false,
                };
                if to_left {
                    self.mem.set(pi, Node { left: Some(y), ..pn });
                } else {
                    self.mem.set(pi, Node { right: Some(y), ..pn });
                }
            },
            None => {
                self.mem.set_meta(Some(y));
            },
        }
        self.rank = Ghost(rot_rank(ns, self.rank@, x as int, r));
        self.bound = Ghost(2 * self.bound@);
        self.lo = Ghost(rot_lo(ns, self.lo@, x as int, r));
        self.hi = Ghost(rot_hi(ns, self.hi@, x as int, r));
        proof {
            assert(self.mem.nodes() == rot_nodes(ns, x as int, r));
        }
    }

    /// Left rotation at `x`: its right child takes its place and `x`
    /// becomes that child's left child.
    pub fn rotate_left(&mut self, x: u64)
        requires
            old(self).wf(),
            x < old(self).nodes().len(),
            old(self).nodes()[x as int].right is Some,
        ensures
            final(self).wf(),
            final(self).nodes() == rot_nodes(old(self).nodes(), x as int, true),
            final(self).root() == rot_root(old(self).nodes(), old(self).root(), x as int, true),
            final(self).cap() == old(self).cap(),
            final(self).nodes().len() == old(self).nodes().len(),
            vals(final(self).nodes()) == vals(old(self).nodes()),
            colors(final(self).nodes()) == colors(old(self).nodes()),
            old(self).ordered() ==> final(self).ordered(),
    {
        self.rotate(x, true);
    }

    /// Right rotation at `x`: its left child takes its place and `x`
    /// becomes that child's right child.
    pub fn rotate_right(&mut self, x: u64)
        requires
            old(self).wf(),
            x < old(self).nodes().len(),
            old(self).nodes()[x as int].left is Some,
        ensures
            final(self).wf(),
            final(self).nodes() == rot_nodes(old(self).nodes(), x as int, false),
            final(self).root() == rot_root(old(self).nodes(), old(self).root(), x as int, false),
            final(self).cap() == old(self).cap(),
            final(self).nodes().len() == old(self).nodes().len(),
            vals(final(self).nodes()) == vals(old(self).nodes()),
            colors(final(self).nodes()) == colors(old(self).nodes()),
            old(self).ordered() ==> final(self).ordered(),
    {
        self.rotate(x, false);
    }

    /// Inserts `val` as a red leaf by plain binary-search-tree descent,
    /// without rebalancing, and returns its position.
    pub fn add_bst(&mut self, val: u64) -> (res: Result<u64, AddError>)
        requires
            old(self).wf(),
        ensures
            final(self).wf(),
            final(self).cap() == old(self).cap(),
            match res {
                Ok(n) => {
                    &&& n == old(self).nodes().len()
                    &&& final(self).nodes().len() == n + 1
                    &&& final(self).keys() == old(self).keys().insert(val)
                    &&& final(self).nodes()[n as int].color
                    &&& final(self).nodes()[n as int].val == val
                    &&& final(self).root() is Some
                    &&& old(self).used() + NODE_SIZE <= old(self).cap()
                    &&& final(self).nodes() == attach_nodes(old(self).nodes(), final(self).nodes()[n as int].parent,
                        attach_side(old(self).nodes(), final(self).nodes()[n as int].parent, val), val)
                    &&& (final(self).nodes()[n as int].parent is None ==> old(self).root() is None && final(self).root() == Some(n))
                    &&& (final(self).nodes()[n as int].parent is Some ==> final(self).root() == old(self).root())
                    &&& (old(self).ordered() ==> old(self).slot_for(final(self).nodes()[n as int].parent, val))
                    &&& (old(self).ordered() ==> (final(self).nodes()[n as int].parent matches Some(q)
                        ==> leaf_parent(old(self).nodes(), q as int, val)))
                },
                Err(AddError::Duplicate) => {
                    &&& final(self).nodes() == old(self).nodes()
                    &&& final(self).root() == old(self).root()
                    &&& old(self).keys().count(val) > 0
                },
                Err(AddError::Full) => {
                    &&& final(self).nodes() == old(self).nodes()
                    &&& final(self).root() == old(self).root()
                    &&& old(self).used() + NODE_SIZE > old(self).cap()
                },
            },
            old(self).ordered() ==> final(self).ordered(),
            old(self).ordered() ==> (res == Err::<u64, AddError>(AddError::Duplicate) <==> old(self).keys().count(val) > 0),
            old(self).balanced() ==> match res {
                Ok(n) => final(self).balanced_except(n as int),
                Err(_) => final(self).balanced(),
            },
    {
        proof {
            self.lemma_wf_len();
        }
        let mut x = self.mem.meta();
        let mut p: Option<u64> = None;
        let mut r = false;
        loop
            invariant
                self.wf(),
                link_in(self.nodes().len(), x),
                p is None ==> x == self.root(),
                p is Some ==> self.root() is Some,
                p matches Some(pi) ==> pi < self.nodes().len() && side(self.nodes()[pi as int], r) == x,
                p matches Some(pi) ==> r == (val > self.nodes()[pi as int].val),
                self.ordered() ==> (x matches Some(i) ==> self.lo@[i as int] < val < self.hi@[i as int]),
                self.ordered() ==> (x is None ==> inside(val as int, attach_bounds(self.nodes(), self.lo@, self.hi@, p, r))),
            ensures
                x is None,
            decreases
                match x {
                    Some(i) => self.bound@ - self.rank@[i as int],
                    None => 0,
                },
        {
            match x {
                None => break,
                Some(i) => {
                    let n = self.mem.get(i);
                    proof {
                        assert(node_ok(self.mem.nodes(), self.mem.root(), self.rank@, i as int));
                        if self.ordered() {
                            assert(bounds_ok(self.mem.nodes(), self.lo@, self.hi@, i as int));
                        }
                    }
                    if val < n.val {
                        p = x;
                        r = false;
                        x = n.left;
                    } else if val > n.val {
                        p = x;
                        r = true;
                        x = n.right;
                    } else {
                        proof {
                            assert(vals(self.nodes())[i as int] == val);
                            assert(vals(self.nodes()).contains(val));
                        }
                        return Err(AddError::Duplicate);
                    }
                },
            }
        }
        let ghost ns = self.mem.nodes();
        proof {
            if self.ordered() {
                if let Some(pi) = p {
                    lemma_gap_absent(ns, self.mem.root(), self.lo@, self.hi@, pi as int, r, val);
                } else {
                    assert(vals(ns) =~= Seq::<u64>::empty());
                }
                assert(!vals(ns).contains(val));
            }
        }
        if self.mem.capacity() - self.mem.occupy() < NODE_SIZE {
            return Err(AddError::Full);
        }
        proof {
            lemma_attach(ns, self.mem.root(), self.rank@, self.bound@, p, r, val);
            if self.ordered() {
                if let Some(pi) = p {
                    assert(gap_empty(ns, self.lo@, self.hi@, pi as int, r));
                    assert(bounds_ok(ns, self.lo@, self.hi@, pi as int));
                    assert(leaf_parent(ns, pi as int, val));
                }
                lemma_attach_ordered(ns, self.mem.root(), self.rank@, self.bound@, self.lo@, self.hi@, p, r, val);
            }
            if self.balanced() {
                lemma_attach_balance(ns, self.mem.root(), self.rank@, self.bound@, self.bh@, p, r, val);
            }
        }
        let ghost was_ordered = self.ordered();
        let ghost ab = attach_bounds(ns, self.lo@, self.hi@, p, r);
        let node = self.mem.push(Node { color: true, parent: p, left: None, right: None, val });
        match p {
            Some(pi) => {
                let pn = self.mem.get(pi);
                if r {
                    self.mem.set(pi, Node { right: Some(node), ..pn });
                } else {
                    self.mem.set(pi, Node { left: Some(node), ..pn });
                }
            },
            None => {
                self.mem.set_meta(Some(node));
            },
        }
        self.rank = Ghost(attach_rank(self.rank@, p));
        self.bound = Ghost(self.bound@ + 1);
        self.lo = Ghost(self.lo@.push(ab.0));
        self.hi = Ghost(self.hi@.push(ab.1));
        self.bh = Ghost(self.bh@.push(0));
        proof {
            assert(self.mem.nodes() =~= attach_nodes(ns, p, r, val));
            assert(attach_side(ns, p, val) == r || p is None);
        }
        Ok(node)
    }

    /// Exchanges the colours of nodes `x` and `y`.
    fn swap_color(&mut self, x: u64, y: u64)
        requires
            old(self).wf(),
            x < old(self).nodes().len(),
            y < old(self).nodes().len(),
            x != y,
        ensures
            final(self).nodes() == old(self).nodes().update(x as int, painted(old(self).nodes()[x as int], old(self).nodes()[y as int].color))
                .update(y as int, painted(old(self).nodes()[y as int], old(self).nodes()[x as int].color)),
            final(self).rank@ == old(self).rank@,
            final(self).bound@ == old(self).bound@,
            final(self).bh@ == old(self).bh@,
            final(self).wf(),
            final(self).nodes().len() == old(self).nodes().len(),
            final(self).root() == old(self).root(),
            final(self).cap() == old(self).cap(),
            final(self).keys() == old(self).keys(),
            final(self).nodes()[x as int].color == old(self).nodes()[y as int].color,
            final(self).nodes()[y as int].color == old(self).nodes()[x as int].color,
            forall|i: int| 0 <= i < old(self).nodes().len() && i != x && i != y
                ==> #[trigger] final(self).nodes()[i] == old(self).nodes()[i],
            old(self).ordered() ==> final(self).ordered(),
    {
        let cx = self.mem.get(x).color;
        let cy = self.mem.get(y).color;
        self.paint(x, cy);
        self.paint(y, cx);
    }

    /// Inserts `val` and restores the red-black balance: recolouring while
    /// the uncle is red, otherwise at most two rotations, then the root is
    /// painted black.
    pub fn add(&mut self, val: u64) -> (res: Result<(), AddError>)
        requires
            old(self).wf(),
        ensures
            final(self).wf(),
            final(self).cap() == old(self).cap(),
            match res {
                Ok(()) => {
                    &&& final(self).keys() == old(self).keys().insert(val)
                    &&& final(self).nodes().len() == old(self).nodes().len() + 1
                    &&& old(self).used() + NODE_SIZE <= old(self).cap()
                    &&& final(self).root() matches Some(t) && !final(self).nodes()[t as int].color
                },
                Err(AddError::Duplicate) => {
                    &&& final(self).nodes() == old(self).nodes()
                    &&& final(self).root() == old(self).root()
                    &&& old(self).keys().count(val) > 0
                },
                Err(AddError::Full) => {
                    &&& final(self).nodes() == old(self).nodes()
                    &&& final(self).root() == old(self).root()
                    &&& old(self).used() + NODE_SIZE > old(self).cap()
                },
            },
            old(self).keys().count(val) == 0 && old(self).used() + NODE_SIZE <= old(self).cap() ==> res is Ok,
            old(self).ordered() ==> final(self).ordered(),
            old(self).ordered() ==> (res == Err::<(), AddError>(AddError::Duplicate) <==> old(self).keys().count(val) > 0),
            old(self).balanced() ==> final(self).balanced(),
            old(self).balanced() ==> (final(self).root() matches Some(t) ==> !final(self).nodes()[t as int].color),
    {
        let ghost was = self.ordered();
        let ghost wasb = self.balanced();
        let mut x = match self.add_bst(val) {
            Ok(n) => n,
            Err(e) => return Err(e),
        };
        let ghost keys1 = self.keys();
        let ghost len1 = self.nodes().len();
        loop
            invariant
                self.wf(),
                x < self.nodes().len(),
                self.keys() == keys1,
                self.nodes().len() == len1,
                self.cap() == old(self).cap(),
                self.root() is Some,
                was ==> self.ordered(),
                wasb ==> self.balanced_except(x as int),
            ensures
                wasb ==> !self.nodes()[x as int].color || self.nodes()[x as int].parent is None
                    || !self.nodes()[self.nodes()[x as int].parent->Some_0 as int].color
                    || self.nodes()[self.nodes()[x as int].parent->Some_0 as int].parent is None,
            decreases self.rank@[x as int],
        {
            proof {
                self.lemma_wf_len();
                assert(node_ok(self.mem.nodes(), self.mem.root(), self.rank@, x as int));
            }
            let xn = self.mem.get(x);
            if !xn.color {
                break;
            }
            let p = match xn.parent {
                Some(p) => p,
                None => break,
            };
            let pn = self.mem.get(p);
            if !pn.color {
                break;
            }
            proof {
                assert(node_ok(self.mem.nodes(), self.mem.root(), self.rank@, p as int));
            }
            let g = match pn.parent {
                Some(g) => g,
                None => break,
            };
            let gn = self.mem.get(g);
            proof {
                assert(node_ok(self.mem.nodes(), self.mem.root(), self.rank@, g as int));
                assert(pn.left == Some(x) || pn.right == Some(x));
                assert(self.rank@[p as int] < self.rank@[x as int]);
                assert(gn.left == Some(p) || gn.right == Some(p));
                assert(self.rank@[g as int] < self.rank@[p as int]);
            }
            // `r`: the parent hangs on the right of the grandparent.
            let r = match gn.left {
                Some(l) => l != p,
                None => true,
            };
            let u = if r { gn.left } else { gn.right };
            if self.is_red(u) {
                let ui = u.unwrap();
                proof {
                    assert(u == other_child(gn, p));
                    if wasb {
                        lemma_recolor_balance(self.mem.nodes(), self.mem.root(), self.rank@, self.bound@, self.bh@, x as int);
                    }
                }
                let ghost bh0 = self.bh@;
                self.paint(ui, false);
                self.paint(p, false);
                self.paint(g, true);
                self.bh = Ghost(bh0.update(p as int, bh0[p as int] + 1).update(ui as int, bh0[ui as int] + 1));
                x = g;
            } else {
                let inner = match if r { pn.left } else { pn.right } {
                    Some(c) => c == x,
                    None => false,
                };
                let mut top = p;
                let mut low = x;
                proof {
                    assert(r ==> gn.right == Some(p));
                    assert(!r ==> gn.left == Some(p));
                }
                if inner {
                    proof {
                        lemma_rot_facts(self.mem.nodes(), self.mem.root(), self.rank@, self.bound@, p as int, !r);
                        if wasb {
                            lemma_inner_balance(self.mem.nodes(), self.mem.root(), self.rank@, self.bound@, self.bh@, x as int, r);
                        }
                    }
                    self.rotate(p, !r);
                    top = x;
                    low = p;
                } else {
                    proof {
                        assert(side(pn, r) == Some(x));
                    }
                }
                proof {
                    assert(side(self.nodes()[g as int], r) == Some(top));
                    assert(self.nodes()[low as int].parent == Some(top));
                    assert(self.nodes()[top as int].parent == Some(g));
                    assert(side(self.nodes()[top as int], r) == Some(low));
                    if wasb {
                        lemma_outer_balance(self.mem.nodes(), self.mem.root(), self.rank@, self.bound@, self.bh@, low as int, r);
                        assert(reds_ok(self.mem.nodes(), g as int));
                        assert(!self.nodes()[g as int].color);
                    }
                }
                let ghost bh0 = self.bh@;
                let ghost ns0 = self.nodes();
                self.rotate(g, r);
                proof {
                    assert(colors(self.nodes())[g as int] == colors(ns0)[g as int]);
                }
                self.swap_color(top, g);
                self.bh = Ghost(bh0.update(g as int, bh0[top as int]).update(top as int, bh0[g as int]));
                proof {
                    if wasb {
                        lemma_balanced_but(self.mem.nodes(), self.mem.root(), self.rank@, self.bound@, self.bh@, top as int);
                    }
                }
                x = top;
                break;
            }
        }
        proof {
            self.lemma_wf_len();
            if wasb {
                lemma_finish_balance(self.mem.nodes(), self.mem.root(), self.rank@, self.bound@, self.bh@, x as int);
            }
        }
        let t = self.mem.meta().unwrap();
        let ghost bh0 = self.bh@;
        let ghost red0 = self.nodes()[t as int].color;
        self.paint(t, false);
        self.bh = Ghost(bh0.update(t as int, if red0 { bh0[t as int] + 1 } else { bh0[t as int] }));
        Ok(())
    }

    /// Sets the key of node `i`.
    fn set_val(&mut self, i: u64, v: u64)
        requires
            old(self).wf(),
            i < old(self).nodes().len(),
        ensures
            final(self).wf(),
            final(self).nodes() == old(self).nodes().update(i as int, Node { val: v, ..old(self).nodes()[i as int] }),
            final(self).root() == old(self).root(),
            final(self).cap() == old(self).cap(),
            final(self).keys() == old(self).keys().insert(v).remove(old(self).nodes()[i as int].val),
            final(self).rank@ == old(self).rank@,
            final(self).bound@ == old(self).bound@,
            final(self).bh@ == old(self).bh@,
            old(self).balanced() ==> final(self).balanced(),
    {
        let ghost ns = self.mem.nodes();
        proof {
            lemma_rekey(ns, self.mem.root(), self.rank@, self.bound@, i as int, v);
            if self.balanced() {
                lemma_rekey_balance(ns, self.mem.root(), self.rank@, self.bound@, self.bh@, i as int, v);
            }
            vstd::seq_lib::to_multiset_update(vals(ns), i as int, v);
        }
        let n = self.mem.get(i);
        self.mem.set(i, Node { val: v, ..n });
        proof {
            assert(vals(self.nodes()) =~= vals(ns).update(i as int, v));
        }
    }

    /// One step of a search in an ordered tree: the nodes holding `val`
    /// below node `i`, whose key differs, lie below the child on `val`'s side.
    proof fn lemma_descend(&self, x0: Option<u64>, i: u64, val: u64)
        requires
            self.wf(),
            self.ordered(),
            i < self.nodes().len(),
            covered(self.nodes(), x0, Some(i), val),
            val != self.nodes()[i as int].val,
        ensures
            covered(self.nodes(), x0, if val < self.nodes()[i as int].val { self.nodes()[i as int].left } else { self.nodes()[i as int].right }, val),
    {
        let ns = self.mem.nodes();
        self.lemma_wf_len();
        let next = if val < ns[i as int].val { ns[i as int].left } else { ns[i as int].right };
        assert forall|j: int| #[trigger] under(ns, x0, j) && ns[j].val == val implies under(ns, next, j) by {
            assert(under(ns, Some(i), j));
            let k = choose|k: nat| in_sub(ns, i as int, j, k);
            lemma_sub_split(ns, self.mem.root(), self.rank@, self.bound@, self.lo@, self.hi@, i as int, j, k);
            if k > 0 {
                if ns[i as int].left is Some && in_sub(ns, ns[i as int].left->Some_0 as int, j, (k - 1) as nat) && ns[j].val < ns[i as int].val {
                    assert(in_sub(ns, next->Some_0 as int, j, (k - 1) as nat));
                } else {
                    assert(in_sub(ns, next->Some_0 as int, j, (k - 1) as nat));
                }
            }
        }
    }

    /// When node `i` holds `val`, it is the only node under `x0` that does.
    proof fn lemma_found_unique(&self, x0: Option<u64>, i: u64, val: u64)
        requires
            self.wf(),
            self.ordered(),
            i < self.nodes().len(),
            covered(self.nodes(), x0, Some(i), val),
            val == self.nodes()[i as int].val,
        ensures
            forall|j: int| #[trigger] under(self.nodes(), x0, j) && self.nodes()[j].val == val ==> j == i,
    {
        let ns = self.mem.nodes();
        self.lemma_wf_len();
        assert forall|j: int| #[trigger] under(ns, x0, j) && ns[j].val == val implies j == i by {
            assert(under(ns, Some(i), j));
            let k = choose|k: nat| in_sub(ns, i as int, j, k);
            lemma_sub_split(ns, self.mem.root(), self.rank@, self.bound@, self.lo@, self.hi@, i as int, j, k);
        }
    }

    /// Finds `val` below `x` by binary-search-tree descent. A node with two
    /// children takes the key of its in-order successor, and the successor
    /// is returned instead: the returned node has at most one child and
    /// holds the key that is to go.
    pub fn del_bst(&mut self, x: Option<u64>, val: u64) -> (res: Option<u64>)
        requires
            old(self).wf(),
            link_in(old(self).nodes().len(), x),
        ensures
            final(self).wf(),
            final(self).cap() == old(self).cap(),
            final(self).root() == old(self).root(),
            final(self).nodes().len() == old(self).nodes().len(),
            match res {
                None => final(self).nodes() == old(self).nodes(),
                Some(t) => {
                    &&& t < final(self).nodes().len()
                    &&& final(self).nodes()[t as int].left is None || final(self).nodes()[t as int].right is None
                    &&& old(self).keys().count(val) > 0
                    &&& final(self).nodes()[t as int].val == old(self).nodes()[t as int].val
                    &&& final(self).keys() == old(self).keys().insert(old(self).nodes()[t as int].val).remove(val)
                    &&& exists|i: int| del_found(old(self).nodes(), final(self).nodes(), i, t as int, val)
                },
            },
            old(self).ordered() && x == old(self).root() ==> (res is None <==> old(self).keys().count(val) == 0),
            old(self).balanced() ==> final(self).balanced(),
            old(self).ordered() ==> (res is None <==> !(exists|j: int| #[trigger] under(old(self).nodes(), x, j) && old(self).nodes()[j].val == val)),
            old(self).ordered() ==> (res matches Some(t) ==> forall|j: int| #[trigger] under(old(self).nodes(), x, j) && old(self).nodes()[j].val == val
                ==> del_found(old(self).nodes(), final(self).nodes(), j, t as int, val)),
            old(self).ordered() ==> match res {
                Some(t) => final(self).pending(t as int),
                None => final(self).ordered(),
            },
    {
        let ghost x0 = x;
        let ghost ns_a = self.nodes();
        let ghost lo_a = self.lo@;
        let ghost hi_a = self.hi@;
        let ghost wo = self.ordered();
        let ghost root_a = self.mem.root();
        let ghost rank_a = self.rank@;
        let ghost bound_a = self.bound@;
        proof {
            self.lemma_wf_len();
            assert(shaped(ns_a, root_a, rank_a, bound_a));
        }
        let ghost mut kc: nat = 0;
        proof {
            if let Some(x0i) = x0 {
                assert(in_sub(self.nodes(), x0i as int, x0i as int, 0));
            }
            assert forall|j: int| #[trigger] under(self.nodes(), x0, j) && self.nodes()[j].val == val implies under(self.nodes(), x0, j) by {}
        }
        let ghost mut gp: Option<u64> = None;
        let ghost mut gr: bool = false;
        let mut cur = x;
        loop
            invariant
                self == old(self),
                self.wf(),
                link_in(self.nodes().len(), cur),
                x0 == x,
                ns_a == self.nodes(),
                root_a == self.mem.root(),
                rank_a == self.rank@,
                bound_a == self.bound@,
                lo_a == self.lo@,
                hi_a == self.hi@,
                wo == self.ordered(),
                shaped(ns_a, root_a, rank_a, bound_a),
                cur is Some ==> x0 is Some && in_sub(self.nodes(), x0->Some_0 as int, cur->Some_0 as int, kc),
                self.ordered() ==> covered(self.nodes(), x0, cur, val),
                gp is None ==> cur == x0,
                gp matches Some(pi) ==> pi < self.nodes().len() && side(self.nodes()[pi as int], gr) == cur,
                self.ordered() && x0 == self.root() ==> (cur matches Some(i) ==> self.lo@[i as int] < val < self.hi@[i as int]),
                self.ordered() && x0 == self.root() ==> (cur is None ==> inside(val as int, attach_bounds(self.nodes(), self.lo@, self.hi@, gp, gr))),
            decreases
                match cur {
                    Some(i) => self.bound@ - self.rank@[i as int],
                    None => 0,
                },
        {
            let i = match cur {
                None => {
                    proof {
                        if self.ordered() && x0 == self.root() {
                            let ns = self.mem.nodes();
                            if let Some(pi) = gp {
                                lemma_gap_absent(ns, self.mem.root(), self.lo@, self.hi@, pi as int, gr, val);
                            } else {
                                assert(vals(ns) =~= Seq::<u64>::empty());
                            }
                            assert(!vals(ns).contains(val));
                            assert(self.keys().count(val) == 0);
                        }
                        if self.ordered() {
                            assert(!(exists|j: int| #[trigger] under(self.nodes(), x, j) && self.nodes()[j].val == val));
                        }
                    }
                    return None;
                },
                Some(i) => i,
            };
            let n = self.mem.get(i);
            proof {
                assert(node_ok(self.mem.nodes(), self.mem.root(), self.rank@, i as int));
                if self.ordered() {
                    assert(bounds_ok(self.mem.nodes(), self.lo@, self.hi@, i as int));
                }
            }
            proof {
                if self.ordered() && val != n.val {
                    self.lemma_descend(x0, i, val);
                }
            }
            if val < n.val {
                cur = n.left;
                proof {
                    gp = Some(i);
                    gr = false;
                    if let Some(l) = n.left {
                        lemma_in_sub_extend(self.nodes(), x0->Some_0 as int, i as int, kc, l as int);
                        kc = kc + 1;
                    }
                }
            } else if val > n.val {
                cur = n.right;
                proof {
                    gp = Some(i);
                    gr = true;
                    if let Some(r) = n.right {
                        lemma_in_sub_extend(self.nodes(), x0->Some_0 as int, i as int, kc, r as int);
                        kc = kc + 1;
                    }
                }
            } else {
                proof {
                    assert(under(self.nodes(), x0, i as int));
                    if self.ordered() {
                        self.lemma_found_unique(x0, i, val);
                    }
                }
                proof {
                    assert(vals(self.nodes())[i as int] == val);
                    assert(vals(self.nodes()).contains(val));
                }
                match (n.left, n.right) {
                    (Some(_), Some(r)) => {
                        let mut m = r;
                        let ghost mut k: nat = 0;
                        loop
                            invariant
                                self == old(self),
                                self.wf(),
                                m < self.nodes().len(),
                                self.rank@[i as int] < self.rank@[m as int],
                                left_chain(self.nodes(), r as int, m as int, k),
                            ensures
                                self.nodes()[m as int].left is None,
                            decreases self.bound@ - self.rank@[m as int],
                        {
                            proof {
                                assert(node_ok(self.mem.nodes(), self.mem.root(), self.rank@, m as int));
                                assert(0 <= self.rank@[m as int] < self.bound@);
                            }
                            match self.mem.get(m).left {
                                Some(b) => {
                                    proof {
                                        assert(node_ok(self.mem.nodes(), self.mem.root(), self.rank@, b as int));
                                        lemma_left_chain_extend(self.nodes(), r as int, m as int, k, b as int);
                                        k = k + 1;
                                    }
                                    m = b;
                                },
                                None => break,
                            }
                        }
                        let v = self.mem.get(m).val;
                        let ghost ns0 = self.nodes();
                        self.set_val(i, v);
                        proof {
                            assert(del_found(ns0, self.nodes(), i as int, m as int, val));
                            if wo {
                                self.lemma_wf_len();
                                lemma_del_bounds(ns_a, root_a, rank_a, bound_a, lo_a, hi_a, self.nodes(), self.nodes(), i as int, m as int, val);
                            }
                        }
                        self.lo = Ghost(if wo { del_lo(ns_a, lo_a, i as int, m as int, val) } else { lo_a });
                        self.hi = Ghost(if wo { del_hi(ns_a, hi_a, i as int, m as int, val) } else { hi_a });
                        return Some(m);
                    },
                    _ => {
                        proof {
                            let k = self.keys();
                            assert(k.insert(val).remove(val) =~= k);
                            assert(del_found(self.nodes(), self.nodes(), i as int, i as int, val));
                            if wo {
                                self.lemma_wf_len();
                                lemma_del_bounds(ns_a, root_a, rank_a, bound_a, lo_a, hi_a, self.nodes(), self.nodes(), i as int, i as int, val);
                            }
                        }
                        self.lo = Ghost(if wo { del_lo(ns_a, lo_a, i as int, i as int, val) } else { lo_a });
                        self.hi = Ghost(if wo { del_hi(ns_a, hi_a, i as int, i as int, val) } else { hi_a });
                        return Some(i);
                    },
                }
            }
        }
    }

    /// Removes node `t`, which nothing links to, by moving the last record
    /// into its slot and redirecting the links to that record.
    fn del_node(&mut self, t: u64)
        requires
            old(self).mem.wf(),
            shaped_except(old(self).mem.nodes(), old(self).mem.root(), old(self).rank@, old(self).bound@, t as int),
        ensures
            final(self).wf(),
            final(self).cap() == old(self).cap(),
            final(self).nodes() == compact_nodes(old(self).nodes(), t as int),
            final(self).root() == compact_root(old(self).nodes(), old(self).root(), t as int),
            vals(final(self).nodes()) == vals(old(self).nodes()).update(t as int, vals(old(self).nodes())[old(self).nodes().len() - 1]).drop_last(),
            final(self).bh@ == compact_rank(old(self).bh@, t as int),
            final(self).lo@ == compact_rank(old(self).lo@, t as int),
            final(self).hi@ == compact_rank(old(self).hi@, t as int),
    {
        let ghost ns = self.mem.nodes();
        let ghost root = self.mem.root();
        proof {
            lemma_compact(ns, root, self.rank@, self.bound@, t as int);
        }
        let len = self.mem.len();
        let last = len - 1;
        if t != last {
            proof {
                lemma_compact_facts(ns, root, self.rank@, self.bound@, t as int);
            }
            let ln = self.mem.get(last);
            self.mem.set(t, ln);
            match ln.parent {
                Some(q) => {
                    let qn = self.mem.get(q);
                    let to_left = match qn.left {
                        Some(l) => l == last,
                        None => false,
                    };
                    if to_left {
                        self.mem.set(q, Node { left: Some(t), ..qn });
                    } else {
                        self.mem.set(q, Node { right: Some(t), ..qn });
                    }
                },
                None => {
                    self.mem.set_meta(Some(t));
                },
            }
            if let Some(c) = ln.left {
                let cn = self.mem.get(c);
                self.mem.set(c, Node { parent: Some(t), ..cn });
            }
            if let Some(c) = ln.right {
                let cn = self.mem.get(c);
                self.mem.set(c, Node { parent: Some(t), ..cn });
            }
        }
        self.mem.pop();
        self.rank = Ghost(compact_rank(self.rank@, t as int));
        self.bh = Ghost(compact_rank(self.bh@, t as int));
        self.lo = Ghost(compact_rank(self.lo@, t as int));
        self.hi = Ghost(compact_rank(self.hi@, t as int));
        proof {
            assert(self.mem.nodes() =~= compact_nodes(ns, t as int));
        }
    }

    /// Rebalances after a black node was removed from below `p`, where `x`
    /// (possibly absent) now stands. Each round inspects the sibling of `x`:
    /// a red sibling is first rotated above `p`; a black sibling with no red
    /// child is painted red, and the deficit ends at a red `p` or climbs one
    /// level; otherwise one or two rotations end the repair.
    #[verifier::rlimit(100)]
    #[verifier::spinoff_prover]
    fn del_dblack(&mut self, p: Option<u64>, x: Option<u64>)
        requires
            old(self).wf(),
            link_in(old(self).nodes().len(), p),
            link_in(old(self).nodes().len(), x),
        ensures
            final(self).wf(),
            final(self).cap() == old(self).cap(),
            final(self).nodes().len() == old(self).nodes().len(),
            final(self).keys() == old(self).keys(),
            vals(final(self).nodes()) == vals(old(self).nodes()),
            old(self).ordered() ==> final(self).ordered(),
            p is None ==> final(self).nodes() == old(self).nodes() && final(self).root() == old(self).root()
                && final(self).bh@ == old(self).bh@,
            old(self).short_at(p, x) ==> final(self).balanced(),
    {
        let ghost was = self.short_at(p, x);
        let ghost p0 = p;
        let mut p = p;
        let mut x = x;
        loop
            invariant_except_break
                was ==> self.short_at(p, x),
            invariant
                self.wf(),
                link_in(self.nodes().len(), p),
                link_in(self.nodes().len(), x),
                self.cap() == old(self).cap(),
                self.nodes().len() == old(self).nodes().len(),
                self.keys() == old(self).keys(),
                vals(self.nodes()) == vals(old(self).nodes()),
                old(self).ordered() ==> self.ordered(),
                p0 is None ==> p is None && self.nodes() == old(self).nodes() && self.root() == old(self).root()
                    && self.bh@ == old(self).bh@,
            ensures
                was ==> self.balanced(),
            decreases
                match p {
                    Some(pi) => self.rank@[pi as int] + 1,
                    None => 0,
                },
        {
            proof {
                self.lemma_wf_len();
            }
            let pi = match p {
                Some(pi) => pi,
                None => break,
            };
            let mut pn = self.mem.get(pi);
            proof {
                assert(node_ok(self.mem.nodes(), self.mem.root(), self.rank@, pi as int));
                assert(0 <= self.rank@[pi as int]);
            }
            // `d`: `x` stands on the right of `p`.
            let mut d = !same(x, pn.left);
            let mut si = match if d { pn.left } else { pn.right } {
                Some(si) => si,
                None => {
                    proof {
                        if let Some(q) = pn.parent {
                            assert(node_ok(self.mem.nodes(), self.mem.root(), self.rank@, q as int));
                            assert(self.rank@[q as int] < self.rank@[pi as int]);
                        }
                        if was {
                            if let Some(xi) = x {
                                assert(0 <= self.bh@[xi as int]);
                            }
                        }
                    }
                    x = Some(pi);
                    p = pn.parent;
                    continue;
                },
            };
            let mut sn = self.mem.get(si);
            if sn.color {
                proof {
                    if was {
                        lemma_dd_red(self.mem.nodes(), self.mem.root(), self.rank@, self.bound@, self.bh@, pi as int, x, d);
                    }
                }
                let ghost bh0 = self.bh@;
                self.rotate(pi, !d);
                self.paint(si, false);
                self.paint(pi, true);
                self.bh = Ghost(bh0.update(si as int, bh0[pi as int]).update(pi as int, bh0[si as int]));
                pn = self.mem.get(pi);
                proof {
                    self.lemma_wf_len();
                    assert(node_ok(self.mem.nodes(), self.mem.root(), self.rank@, pi as int));
                }
                d = !same(x, pn.left);
                si = match if d { pn.left } else { pn.right } {
                    Some(si) => si,
                    None => {
                        proof {
                            if was {
                                if let Some(xi) = x {
                                    assert(0 <= self.bh@[xi as int]);
                                }
                            }
                        }
                        break;
                    },
                };
                sn = self.mem.get(si);
                if sn.color {
                    break;
                }
            }
            proof {
                assert(node_ok(self.mem.nodes(), self.mem.root(), self.rank@, si as int));
            }
            let near = if d { sn.right } else { sn.left };
            let mut far = if d { sn.left } else { sn.right };
            if self.is_black(near) && self.is_black(far) {
                proof {
                    if was {
                        lemma_dd_blacks(self.mem.nodes(), self.mem.root(), self.rank@, self.bound@, self.bh@, pi as int, x, d);
                    }
                    if let Some(q) = pn.parent {
                        assert(node_ok(self.mem.nodes(), self.mem.root(), self.rank@, q as int));
                        assert(self.rank@[q as int] < self.rank@[pi as int]);
                    }
                }
                let ghost bh0 = self.bh@;
                self.paint(si, true);
                self.bh = Ghost(bh0.update(si as int, bh0[si as int] - 1));
                if pn.color {
                    self.paint(pi, false);
                    break;
                }
                self.bh = Ghost(self.bh@.update(pi as int, bh0[pi as int] - 1));
                x = Some(pi);
                p = pn.parent;
                continue;
            }
            if !self.is_red(far) {
                let ni = near.unwrap();
                proof {
                    if was {
                        lemma_dd_near(self.mem.nodes(), self.mem.root(), self.rank@, self.bound@, self.bh@, pi as int, x, d);
                    }
                }
                let ghost bh0 = self.bh@;
                proof {
                    lemma_rot_facts(self.mem.nodes(), self.mem.root(), self.rank@, self.bound@, si as int, d);
                }
                self.rotate(si, d);
                self.paint(ni, false);
                self.paint(si, true);
                self.bh = Ghost(bh0.update(ni as int, bh0[si as int]).update(si as int, bh0[ni as int]));
                pn = self.mem.get(pi);
                si = ni;
                sn = self.mem.get(si);
                far = if d { sn.left } else { sn.right };
                proof {
                    assert(node_ok(self.mem.nodes(), self.mem.root(), self.rank@, pi as int));
                    assert(node_ok(self.mem.nodes(), self.mem.root(), self.rank@, ni as int));
                    assert(side(pn, !d) == Some(ni));
                }
            }
            let fi = match far {
                Some(fi) => fi,
                None => break,
            };
            proof {
                if was {
                    lemma_dd_far(self.mem.nodes(), self.mem.root(), self.rank@, self.bound@, self.bh@, pi as int, x, d);
                }
            }
            let ghost bh0 = self.bh@;
            let ghost ns0 = self.nodes();
            let pc = pn.color;
            self.rotate(pi, !d);
            self.paint(fi, false);
            self.paint(si, pc);
            self.paint(pi, false);
            self.bh = Ghost(bh0.update(fi as int, bh0[fi as int] + 1).update(pi as int, bh_at(ns0, bh0, x) + 1).update(si as int, bh0[pi as int]));
            break;
        }
    }

    /// Takes node `t`, which has at most one child, out of the tree: its
    /// child takes its place, and the last record moves into its slot.
    /// Returns whether a black is now missing, and below which parent and
    /// at which child (named after the move).
    #[verifier::rlimit(100)]
    #[verifier::spinoff_prover]
    fn unlink(&mut self, t: u64) -> (res: (bool, Option<u64>, Option<u64>))
        requires
            old(self).wf(),
            t < old(self).nodes().len(),
            old(self).nodes()[t as int].left is None || old(self).nodes()[t as int].right is None,
        ensures
            final(self).wf(),
            final(self).cap() == old(self).cap(),
            final(self).keys() == old(self).keys().remove(old(self).nodes()[t as int].val),
            final(self).nodes().len() + 1 == old(self).nodes().len(),
            link_in(final(self).nodes().len(), res.1),
            link_in(final(self).nodes().len(), res.2),
            old(self).balanced() ==> (if res.0 { final(self).short_at(res.1, res.2) } else { final(self).balanced() }),
            old(self).pending(t as int) ==> final(self).ordered(),
    {
        let ghost keys1 = self.keys();
        let ghost wasp = self.pending(t as int);
        let ghost wasb = self.balanced();
        proof {
            self.lemma_wf_len();
        }
        let tn = self.mem.get(t);
        let c = match tn.left {
            Some(_) => tn.left,
            None => tn.right,
        };
        let p = tn.parent;
        proof {
            assert(node_ok(self.mem.nodes(), self.mem.root(), self.rank@, t as int));
        }
        let fix = !tn.color && !self.is_red(c);
        let ghost ns0 = self.mem.nodes();
        let ghost root0 = self.mem.root();
        let ghost bh0 = self.bh@;
        proof {
            if wasb {
                lemma_splice_balance(ns0, root0, self.rank@, self.bound@, bh0, t as int, c);
            }
        }
        if !fix {
            if let Some(ci) = c {
                self.paint(ci, false);
            }
        }
        self.bh = Ghost(splice_bh(ns0, bh0, t as int, c));
        let ghost ns = self.mem.nodes();
        proof {
            assert(ns == splice_paint(ns0, t as int, c));
            assert(heir(ns0[t as int]) == c);
            if wasp {
                assert(same_but_color(ns, ns0));
                assert(heir(ns[t as int]) == c);
                lemma_colors_irrelevant(ns, ns0, self.lo@, self.hi@, t as int);
            }
        }
        let tn = self.mem.get(t);
        proof {
            lemma_splice(ns, self.mem.root(), self.rank@, self.bound@, t as int, c);
        }
        if let Some(ci) = c {
            let cn = self.mem.get(ci);
            self.mem.set(ci, Node { parent: p, ..cn });
        }
        match p {
            Some(pi) => {
                let pn = self.mem.get(pi);
                if same(pn.left, Some(t)) {
                    self.mem.set(pi, Node { left: c, ..pn });
                } else {
                    self.mem.set(pi, Node { right: c, ..pn });
                }
            },
            None => {
                self.mem.set_meta(c);
            },
        }
        proof {
            assert(self.mem.nodes() =~= splice_nodes(ns, t as int, c));
        }
        let last = self.mem.len() - 1;
        let ghost ns2 = self.mem.nodes();
        let ghost root2 = self.mem.root();
        proof {
            assert(root2 == splice_root(ns, root0, t as int, c));
            if wasb {
                if short_after(ns0, t as int, c) && p is Some {
                    lemma_compact_deficit(ns2, root2, self.rank@, self.bound@, self.bh@, t as int, p->Some_0 as int, c);
                } else {
                    lemma_compact_balance(ns2, root2, self.rank@, self.bound@, self.bh@, t as int);
                }
            }
        }
        proof {
            if wasp {
                assert(splice_root(ns, root0, t as int, c) == splice_root(ns0, root0, t as int, c));
                lemma_compact_bounds(ns2, root2, self.rank@, self.bound@, self.lo@, self.hi@, t as int);
            }
        }
        self.del_node(t);
        proof {
            if wasp {
                self.lemma_wf_len();
                if self.mem.root() is Some {
                    lemma_bounded_ordered(self.mem.nodes(), self.mem.root(), self.rank@, self.bound@, self.lo@, self.hi@);
                } else {
                    lemma_rootless_empty(self.mem.nodes(), self.mem.root(), self.rank@, self.bound@);
                }
            }
        }
        proof {
            let v = vals(ns2);
            vstd::seq_lib::to_multiset_update(v, t as int, v[last as int]);
            let v2 = v.update(t as int, v[last as int]);
            assert(v2.drop_last() =~= v2.remove(last as int));
            assert(v2[last as int] == v[last as int]) by {
                if t != last {
                } else {
                }
            }
            let m = keys1;
            assert(v =~= vals(ns));
            assert(self.keys() =~= m.insert(v[last as int]).remove(v[t as int]).remove(v[last as int]));
        }
        let p_moved = if same(p, Some(last)) { Some(t) } else { p };
        let c_moved = if same(c, Some(last)) { Some(t) } else { c };
        proof {
            assert(self.keys() =~= keys1.remove(old(self).nodes()[t as int].val));
        }
        (fix, p_moved, c_moved)
    }

    /// Removes `val` from the tree; returns whether it was found. The freed
    /// record is filled by the last one, so the arena stays dense, and the
    /// double-black repair keeps a balanced tree balanced; an ordered tree
    /// stays ordered.
    #[verifier::rlimit(100)]
    #[verifier::spinoff_prover]
    pub fn del(&mut self, val: u64) -> (removed: bool)
        requires
            old(self).wf(),
        ensures
            final(self).wf(),
            final(self).cap() == old(self).cap(),
            removed ==> {
                &&& old(self).keys().count(val) > 0
                &&& final(self).keys() == old(self).keys().remove(val)
                &&& final(self).nodes().len() + 1 == old(self).nodes().len()
                &&& final(self).root() matches Some(t) ==> !final(self).nodes()[t as int].color
            },
            !removed ==> final(self).nodes() == old(self).nodes() && final(self).root() == old(self).root(),
            old(self).keys().count(val) == 0 ==> !removed && final(self).nodes() == old(self).nodes()
                && final(self).root() == old(self).root(),
            old(self).ordered() ==> (removed <==> old(self).keys().count(val) > 0),
            old(self).balanced() ==> final(self).balanced(),
            old(self).balanced() ==> (final(self).root() matches Some(t) ==> !final(self).nodes()[t as int].color),
            old(self).ordered() ==> final(self).ordered(),
    {
        proof {
            self.lemma_wf_len();
        }
        let ghost wasb = self.balanced();
        let root = self.mem.meta();
        let t = match self.del_bst(root, val) {
            Some(t) => t,
            None => return false,
        };
        let ghost keys1 = self.keys();
        let (fix, p_moved, c_moved) = self.unlink(t);
        proof {
            assert(self.keys() =~= old(self).keys().remove(val));
        }
        if fix {
            self.del_dblack(p_moved, c_moved);
        }
        match self.mem.meta() {
            Some(ri) => {
                let ghost ns3 = self.nodes();
                self.paint(ri, false);
                proof {
                    if wasb {
                        assert(self.nodes() =~= ns3);
                    }
                }
            },
            None => {},
        }
        true
    }

    /// Marks child `c` of the expanded node `i` as reached; `false` when `c`
    /// was reached before or does not point back to `i`.
    fn reach(mem: &Mem, seen: &mut Vec<bool>, order: &mut Vec<u64>, pos: Ghost<Seq<int>>, i: u64, c: u64) -> (res: (bool, Ghost<Seq<int>>))
        requires
            mem.wf(),
            i < mem.nodes().len(),
            c < mem.nodes().len(),
            old(seen)@.len() == mem.nodes().len(),
            pos@.len() == mem.nodes().len(),
            old(order)@.len() < mem.nodes().len(),
            forall|j: int| 0 <= j < old(order)@.len() ==> (#[trigger] old(order)@[j]) < mem.nodes().len() && old(seen)@[old(order)@[j] as int] && pos@[old(order)@[j] as int] == j,
            forall|x: int| 0 <= x < mem.nodes().len() && #[trigger] old(seen)@[x] ==> 0 <= pos@[x] < old(order)@.len() && old(order)@[pos@[x]] == x,
        ensures
            !old(seen)@[c as int] && mem.nodes()[c as int].parent == Some(i) ==> res.0,
            res.0 ==> {
                &&& final(seen)@ == old(seen)@.update(c as int, true)
                &&& final(order)@ == old(order)@.push(c)
                &&& res.1@ == pos@.update(c as int, old(order)@.len() as int)
                &&& !old(seen)@[c as int]
                &&& mem.nodes()[c as int].parent == Some(i)
                &&& forall|j: int| 0 <= j < final(order)@.len() ==> (#[trigger] final(order)@[j]) < mem.nodes().len() && final(seen)@[final(order)@[j] as int] && res.1@[final(order)@[j] as int] == j
                &&& forall|x: int| 0 <= x < mem.nodes().len() && #[trigger] final(seen)@[x] ==> 0 <= res.1@[x] < final(order)@.len() && final(order)@[res.1@[x]] == x
                &&& forall|x: int| 0 <= x < mem.nodes().len() && #[trigger] old(seen)@[x] ==> final(seen)@[x] && res.1@[x] == pos@[x]
            },
    {
        if seen[c as usize] {
            return (false, pos);
        }
        match mem.get(c).parent {
            Some(q) => {
                if q != i {
                    return (false, pos);
                }
            },
            None => return (false, pos),
        }
        let ghost k = order.len() as int;
        let ghost seen0 = seen@;
        let ghost order0 = order@;
        seen.set(c as usize, true);
        order.push(c);
        let ghost pos1 = pos@.update(c as int, k);
        proof {
            assert forall|j: int| 0 <= j < order@.len() implies (#[trigger] order@[j]) < mem.nodes().len() && seen@[order@[j] as int] && pos1[order@[j] as int] == j by {
                if j < k {
                    assert(order@[j] == order0[j]);
                    assert(seen0[order0[j] as int]);
                }
            }
            assert forall|x: int| 0 <= x < mem.nodes().len() && #[trigger] seen@[x] implies 0 <= pos1[x] < order@.len() && order@[pos1[x]] == x by {
                if x != c {
                    assert(seen0[x]);
                }
            }
        }
        (true, Ghost(pos1))
    }

    /// A finished walk that reached `x` reached every node below `x`.
    proof fn lemma_walk_covers(ns: Seq<Node>, r: u64, seen: Seq<bool>, order: Seq<u64>, pos: Seq<int>, x: int, j: int, k: nat)
        requires
            walk_ok(ns, r, seen, order, pos, order.len() as int),
            0 <= x < ns.len(),
            seen[x],
            in_sub(ns, x, j, k),
        ensures
            seen[j],
        decreases k,
    {
        if k > 0 {
            assert(order[pos[x]] == x);
            assert(expanded_ok(ns, seen, pos, order[pos[x]] as int));
            if ns[x].left is Some && in_sub(ns, ns[x].left->Some_0 as int, j, (k - 1) as nat) {
                RBTree::lemma_walk_covers(ns, r, seen, order, pos, ns[x].left->Some_0 as int, j, (k - 1) as nat);
            } else {
                RBTree::lemma_walk_covers(ns, r, seen, order, pos, ns[x].right->Some_0 as int, j, (k - 1) as nat);
            }
        }
    }

    /// A walk that has not yet reached node `c` has reached fewer than `n`
    /// nodes.
    proof fn lemma_room(order: Seq<u64>, pos: Seq<int>, seen: Seq<bool>, n: int, c: u64)
        requires
            forall|j: int| 0 <= j < order.len() ==> (#[trigger] order[j]) < n && seen[order[j] as int] && pos[order[j] as int] == j,
            c < n,
            !seen[c as int],
        ensures
            order.len() < n,
    {
        let s = Seq::new(order.len() + 1, |j: int| if j < order.len() { order[j] as int } else { c as int });
        assert forall|a: int, b: int| 0 <= a < s.len() && 0 <= b < s.len() && a != b implies s[a] != s[b] by {
            if a < order.len() && b < order.len() {
                if s[a] == s[b] {
                    assert(order[a] == order[b]);
                }
            } else if a < order.len() {
                assert(seen[order[a] as int]);
            } else if b < order.len() {
                assert(seen[order[b] as int]);
            }
        }
        lemma_distinct_below(s, n);
    }

    /// Checks node `order[h]` of a breadth-first walk from `r` and reaches
    /// its children; `false` when a check fails.
    #[verifier::rlimit(100)]
    #[verifier::spinoff_prover]
    fn expand(mem: &Mem, seen: &mut Vec<bool>, order: &mut Vec<u64>, pos: Ghost<Seq<int>>, r: u64, h: usize,
        valid: Ghost<bool>, rk: Ghost<Seq<int>>, bd: Ghost<int>) -> (res: (bool, Ghost<Seq<int>>))
        requires
            mem.wf(),
            r < mem.nodes().len(),
            h < old(order)@.len(),
            old(order)@.len() <= mem.nodes().len(),
            walk_ok(mem.nodes(), r, old(seen)@, old(order)@, pos@, h as int),
            valid@ ==> shaped(mem.nodes(), mem.root(), rk@, bd@) && mem.root() == Some(r),
        ensures
            valid@ ==> res.0,
            res.0 ==> walk_ok(mem.nodes(), r, final(seen)@, final(order)@, res.1@, h + 1),
            res.0 ==> final(order)@.len() <= mem.nodes().len(),
    {
        let n = mem.len();
        let nn = n as usize;
        let i = order[h];
        let nd = mem.get(i);
        let ghost seen0 = seen@;
        let ghost order0 = order@;
        let ghost pos0 = pos@;
        let mut pos = pos;
        proof {
            if valid@ {
                assert(node_ok(mem.nodes(), mem.root(), rk@, i as int));
                if let Some(c) = nd.left {
                    assert(node_ok(mem.nodes(), mem.root(), rk@, c as int));
                    assert(seen0[c as int] ==> c == r || pos0[i as int] < h) by {
                        if seen0[c as int] && c != r {
                            assert(order0[pos0[i as int]] == i);
                        }
                    }
                    assert(!seen0[c as int]);
                    RBTree::lemma_room(order0, pos0, seen0, mem.nodes().len() as int, c);
                }
                if let Some(c) = nd.right {
                    assert(node_ok(mem.nodes(), mem.root(), rk@, c as int));
                    assert(!seen0[c as int]);
                }
            }
        }
        if let Some(q) = nd.parent {
            if q >= n {
                return (false, pos);
            }
        }
        match (nd.left, nd.right) {
            (Some(a), Some(b)) => {
                if a == b {
                    return (false, pos);
                }
            },
            _ => {},
        }
        if let Some(c) = nd.left {
            if c >= n || order.len() >= nn {
                return (false, pos);
            }
            let (ok, pos_next) = RBTree::reach(mem, seen, order, pos, i, c);
            if !ok {
                return (false, pos);
            }
            pos = pos_next;
        }
        proof {
            if valid@ {
                if let Some(c) = nd.right {
                    assert(node_ok(mem.nodes(), mem.root(), rk@, c as int));
                    assert(!seen@[c as int]);
                    RBTree::lemma_room(order@, pos@, seen@, mem.nodes().len() as int, c);
                }
            }
        }
        if let Some(c) = nd.right {
            if c >= n || order.len() >= nn {
                return (false, pos);
            }
            let (ok, pos_next) = RBTree::reach(mem, seen, order, pos, i, c);
            if !ok {
                return (false, pos);
            }
            pos = pos_next;
        }
        proof {
            let ns = mem.nodes();
            assert(forall|x: int| 0 <= x < ns.len() && #[trigger] seen0[x] ==> seen@[x] && pos@[x] == pos0[x]);
            assert(forall|j: int| 0 <= j < order0.len() ==> #[trigger] order@[j] == order0[j]);
            assert(pos0[i as int] == h);
            assert(expanded_ok(ns, seen@, pos@, i as int));
            assert forall|j: int| 0 <= j < h + 1 implies #[trigger] expanded_ok(ns, seen@, pos@, order@[j] as int) by {
                if j < h {
                    assert(expanded_ok(ns, seen0, pos0, order0[j] as int));
                    let m = ns[order0[j] as int];
                    if let Some(c) = m.left {
                        assert(seen0[c as int]);
                    }
                    if let Some(c) = m.right {
                        assert(seen0[c as int]);
                    }
                }
            }
            assert forall|x: int| 0 <= x < ns.len() && #[trigger] seen@[x] && x != r implies ({
                let q = ns[x].parent;
                &&& q is Some
                &&& (q->Some_0) < ns.len()
                &&& seen@[q->Some_0 as int]
                &&& 0 <= pos@[q->Some_0 as int] < h + 1
                &&& pos@[q->Some_0 as int] < pos@[x]
                &&& (ns[q->Some_0 as int].left == Some(x as u64) || ns[q->Some_0 as int].right == Some(x as u64))
            }) by {
                if seen0[x] {
                    let q = ns[x].parent->Some_0;
                    assert(seen0[q as int]);
                } else {
                    assert(ns[x].parent == Some(i));
                }
            }
        }
        (true, pos)
    }

    /// Gives every node the interval of keys its place allows, parents
    /// before children (`order` lists parents first, the root first), and
    /// checks that each key lies in its interval; `None` when one does not.
    fn check_order(mem: &Mem, order: &Vec<u64>, pos: Ghost<Seq<int>>, valid: Ghost<bool>, low: Ghost<Seq<int>>, hiw: Ghost<Seq<int>>) -> (res: Option<(Ghost<Seq<int>>, Ghost<Seq<int>>)>)
        requires
            mem.wf(),
            shaped(mem.nodes(), mem.root(), pos@, mem.nodes().len() as int),
            mem.nodes().len() > 0,
            order@.len() == mem.nodes().len(),
            mem.root() == Some(order@[0]),
            forall|j: int| 0 <= j < order@.len() ==> (#[trigger] order@[j]) < mem.nodes().len() && pos@[order@[j] as int] == j,
            forall|i: int| 0 <= i < mem.nodes().len() ==> 0 <= #[trigger] pos@[i] < order@.len() && order@[pos@[i]] == i,
            valid@ ==> ordered(mem.nodes(), mem.root(), low@, hiw@),
        ensures
            res matches Some((lo, hi)) ==> ordered(mem.nodes(), mem.root(), lo@, hi@),
            valid@ ==> res is Some,
    {
        let n = mem.len();
        let nn = n as usize;
        let ghost ns = mem.nodes();
        let ghost r = order@[0];
        let mut lv: Vec<Option<u64>> = Vec::new();
        let mut hv: Vec<Option<u64>> = Vec::new();
        let mut k: usize = 0;
        while k < nn
            invariant
                k <= nn,
                lv@.len() == k,
                hv@.len() == k,
                forall|j: int| 0 <= j < k ==> lv@[j] is None && hv@[j] is None,
            decreases nn - k,
        {
            lv.push(None);
            hv.push(None);
            k = k + 1;
        }
        proof {
            assert(node_ok(ns, mem.root(), pos@, r as int));
            assert(pos@[r as int] == 0);
            assert forall|c: int| 0 <= c < ns.len() && #[trigger] ns[c].parent is Some implies pos@[ns[c].parent->Some_0 as int] >= 0 by {
                assert(node_ok(ns, mem.root(), pos@, c));
            }
            if valid@ {
                assert(lo_of(lv@[r as int]) == low@[r as int]);
            }
        }
        let mut k: usize = 0;
        while k < nn
            invariant
                k <= nn,
                nn == n,
                n == ns.len(),
                ns == mem.nodes(),
                mem.wf(),
                lv@.len() == nn,
                hv@.len() == nn,
                shaped(ns, mem.root(), pos@, n as int),
                mem.root() == Some(r),
                r < n,
                pos@[r as int] == 0,
                order@.len() == n,
                forall|j: int| 0 <= j < order@.len() ==> (#[trigger] order@[j]) < ns.len() && pos@[order@[j] as int] == j,
                forall|i: int| 0 <= i < ns.len() ==> 0 <= #[trigger] pos@[i] < order@.len() && order@[pos@[i]] == i,
                lv@[r as int] is None && hv@[r as int] is None,
                forall|j: int| 0 <= j < k ==> #[trigger] bounds_ok(ns, los(lv@), his(hv@), order@[j] as int),
                forall|c: int| 0 <= c < ns.len() && #[trigger] ns[c].parent is Some && pos@[ns[c].parent->Some_0 as int] < k ==> {
                    let q = ns[c].parent->Some_0 as int;
                    &&& ns[q].left == Some(c as u64) ==> lv@[c] == lv@[q] && hv@[c] == Some(ns[q].val)
                    &&& ns[q].right == Some(c as u64) ==> lv@[c] == Some(ns[q].val) && hv@[c] == hv@[q]
                },
                valid@ ==> ordered(ns, mem.root(), low@, hiw@),
                valid@ ==> forall|c: int| 0 <= c < ns.len() && (c == r || (ns[c].parent is Some && pos@[ns[c].parent->Some_0 as int] < k))
                    ==> #[trigger] lo_of(lv@[c]) == low@[c] && hi_of(hv@[c]) == hiw@[c],
            decreases nn - k,
        {
            let i = order[k];
            let nd = mem.get(i);
            proof {
                assert(node_ok(ns, mem.root(), pos@, i as int));
            }
            let above = match lv[i as usize] {
                Some(a) => a < nd.val,
                None => true,
            };
            let below = match hv[i as usize] {
                Some(b) => nd.val < b,
                None => true,
            };
            proof {
                if valid@ {
                    assert(bounds_ok(ns, low@, hiw@, i as int));
                    assert(i as int == r || pos@[ns[i as int].parent->Some_0 as int] < k) by {
                        if i != r {
                            let q = ns[i as int].parent->Some_0 as int;
                            assert(node_ok(ns, mem.root(), pos@, q));
                        }
                    }
                    assert(lo_of(lv@[i as int]) == low@[i as int]);
                }
            }
            if !above || !below {
                return None;
            }
            let ghost lv0 = lv@;
            let ghost hv0 = hv@;
            let li = lv[i as usize];
            let hi_i = hv[i as usize];
            if let Some(c) = nd.left {
                lv.set(c as usize, li);
                hv.set(c as usize, Some(nd.val));
            }
            if let Some(c) = nd.right {
                lv.set(c as usize, Some(nd.val));
                hv.set(c as usize, hi_i);
            }
            proof {
                let lo1 = los(lv@);
                let hi1 = his(hv@);
                let lo0 = los(lv0);
                let hi0 = his(hv0);
                // only the children of `i` changed, and they come after `i`
                assert forall|x: int| 0 <= x < n && Some(x as u64) != nd.left && Some(x as u64) != nd.right implies lv@[x] == lv0[x] && hv@[x] == hv0[x] by {}
                if let Some(c) = nd.left {
                    assert(node_ok(ns, mem.root(), pos@, c as int));
                    assert(pos@[c as int] > k);
                }
                if let Some(c) = nd.right {
                    assert(node_ok(ns, mem.root(), pos@, c as int));
                    assert(pos@[c as int] > k);
                }
                assert(lv@[i as int] == lv0[i as int] && hv@[i as int] == hv0[i as int]);
                assert forall|j: int| 0 <= j < k + 1 implies #[trigger] bounds_ok(ns, lo1, hi1, order@[j] as int) by {
                    let o = order@[j] as int;
                    assert(node_ok(ns, mem.root(), pos@, o));
                    if j < k {
                        assert(bounds_ok(ns, lo0, hi0, o));
                        assert(o != i);
                        if let Some(c) = ns[o].left {
                            assert(node_ok(ns, mem.root(), pos@, c as int));
                            assert(c != nd.left->Some_0 || nd.left is None);
                        }
                        if let Some(c) = ns[o].right {
                            assert(node_ok(ns, mem.root(), pos@, c as int));
                        }
                    }
                }
                assert forall|c: int| 0 <= c < ns.len() && #[trigger] ns[c].parent is Some && pos@[ns[c].parent->Some_0 as int] < k + 1 implies {
                    let q = ns[c].parent->Some_0 as int;
                    &&& ns[q].left == Some(c as u64) ==> lv@[c] == lv@[q] && hv@[c] == Some(ns[q].val)
                    &&& ns[q].right == Some(c as u64) ==> lv@[c] == Some(ns[q].val) && hv@[c] == hv@[q]
                } by {
                    let q = ns[c].parent->Some_0 as int;
                    assert(node_ok(ns, mem.root(), pos@, c));
                    assert(node_ok(ns, mem.root(), pos@, q));
                    if q != i {
                        assert(pos@[q] < k);
                        assert(Some(c as u64) != nd.left && Some(c as u64) != nd.right);
                        assert(Some(q as u64) != nd.left && Some(q as u64) != nd.right) by {
                            if Some(q as u64) == nd.left || Some(q as u64) == nd.right {
                                assert(pos@[q] > k);
                            }
                        }
                    }
                }
                if valid@ {
                    assert(bounds_ok(ns, low@, hiw@, i as int));
                    assert forall|c: int| 0 <= c < ns.len() && (c == r || (ns[c].parent is Some && pos@[ns[c].parent->Some_0 as int] < k + 1))
                        implies #[trigger] lo_of(lv@[c]) == low@[c] && hi_of(hv@[c]) == hiw@[c] by {
                        assert(node_ok(ns, mem.root(), pos@, c));
                        if c != r {
                            let q = ns[c].parent->Some_0 as int;
                            assert(node_ok(ns, mem.root(), pos@, q));
                            if q == i {
                                assert(bounds_ok(ns, low@, hiw@, q));
                            } else {
                                assert(pos@[q] < k);
                                assert(Some(c as u64) != nd.left && Some(c as u64) != nd.right);
                            }
                        } else {
                            assert(Some(c as u64) != nd.left && Some(c as u64) != nd.right) by {
                                if let Some(cc) = nd.left {
                                    assert(pos@[cc as int] > k);
                                }
                                if let Some(cc) = nd.right {
                                    assert(pos@[cc as int] > k);
                                }
                            }
                        }
                    }
                }
                assert(Some(r) != nd.left && Some(r) != nd.right) by {
                    if let Some(c) = nd.left {
                        assert(pos@[c as int] > k);
                    }
                    if let Some(c) = nd.right {
                        assert(pos@[c as int] > k);
                    }
                }
            }
            k = k + 1;
        }
        let ghost lo = los(lv@);
        let ghost hi = his(hv@);
        proof {
            assert forall|i: int| 0 <= i < ns.len() implies #[trigger] bounds_ok(ns, lo, hi, i) by {
                assert(order@[pos@[i]] == i);
                assert(bounds_ok(ns, lo, hi, order@[pos@[i]] as int));
            }
            lemma_bounded_ordered(ns, mem.root(), pos@, n as int, lo, hi);
        }
        Some((Ghost(lo), Ghost(hi)))
    }

    /// Computes the black height of every node, children before parents
    /// (`order` lists parents before children), and checks that both
    /// subtrees of each node agree, that no red node has a red child, and
    /// that the root is black; `None` when a check fails.
    fn check_balance(mem: &Mem, order: &Vec<u64>, pos: Ghost<Seq<int>>, valid: Ghost<bool>, bhw: Ghost<Seq<int>>) -> (res: Option<Ghost<Seq<int>>>)
        requires
            mem.wf(),
            shaped(mem.nodes(), mem.root(), pos@, mem.nodes().len() as int),
            order@.len() == mem.nodes().len(),
            forall|j: int| 0 <= j < order@.len() ==> (#[trigger] order@[j]) < mem.nodes().len() && pos@[order@[j] as int] == j,
            forall|i: int| 0 <= i < mem.nodes().len() ==> 0 <= #[trigger] pos@[i] < order@.len() && order@[pos@[i]] == i,
            valid@ ==> balanced(mem.nodes(), mem.root(), bhw@),
        ensures
            res matches Some(bh) ==> balanced(mem.nodes(), mem.root(), bh@),
            valid@ ==> res is Some,
    {
        let n = mem.len();
        let nn = n as usize;
        let ghost ns = mem.nodes();
        let mut hv: Vec<u64> = Vec::new();
        let mut k: usize = 0;
        while k < nn
            invariant
                k <= nn,
                hv@.len() == k,
            decreases nn - k,
        {
            hv.push(0);
            k = k + 1;
        }
        let mut k: usize = nn;
        while k > 0
            invariant
                k <= nn,
                nn == n,
                n == ns.len(),
                ns == mem.nodes(),
                mem.wf(),
                hv@.len() == nn,
                shaped(ns, mem.root(), pos@, n as int),
                order@.len() == n,
                forall|j: int| 0 <= j < order@.len() ==> (#[trigger] order@[j]) < ns.len() && pos@[order@[j] as int] == j,
                forall|i: int| 0 <= i < ns.len() ==> 0 <= #[trigger] pos@[i] < order@.len() && order@[pos@[i]] == i,
                forall|j: int| k <= j < n ==> {
                    &&& #[trigger] height_ok(ns, heights(hv@), order@[j] as int)
                    &&& reds_ok(ns, order@[j] as int)
                    &&& hv@[order@[j] as int] <= n - j
                },
                valid@ ==> balanced(ns, mem.root(), bhw@),
                valid@ ==> forall|j: int| k <= j < n ==> hv@[#[trigger] order@[j] as int] == bhw@[order@[j] as int],
            decreases k,
        {
            k = k - 1;
            let i = order[k];
            let nd = mem.get(i);
            proof {
                assert(node_ok(ns, mem.root(), pos@, i as int));
            }
            let hl: u64 = match nd.left {
                Some(c) => {
                    proof {
                        assert(pos@[c as int] > pos@[i as int]);
                        assert(order@[pos@[c as int]] == c);
                        assert(height_ok(ns, heights(hv@), order@[pos@[c as int]] as int));
                        assert(hv@[c as int] <= n - pos@[c as int]);
                    }
                    hv[c as usize]
                },
                None => 0,
            };
            let hr: u64 = match nd.right {
                Some(c) => {
                    proof {
                        assert(pos@[c as int] > pos@[i as int]);
                        assert(order@[pos@[c as int]] == c);
                        assert(height_ok(ns, heights(hv@), order@[pos@[c as int]] as int));
                        assert(hv@[c as int] <= n - pos@[c as int]);
                    }
                    hv[c as usize]
                },
                None => 0,
            };
            proof {
                if valid@ {
                    assert(pos@[i as int] == k);
                    assert(node_ok(ns, mem.root(), pos@, i as int));
                    assert(height_ok(ns, bhw@, i as int));
                    assert(reds_ok(ns, i as int));
                    if let Some(c) = nd.left {
                        assert(order@[pos@[c as int]] == c);
                        assert(hv@[order@[pos@[c as int]] as int] == bhw@[order@[pos@[c as int]] as int]);
                    }
                    if let Some(c) = nd.right {
                        assert(order@[pos@[c as int]] == c);
                        assert(hv@[order@[pos@[c as int]] as int] == bhw@[order@[pos@[c as int]] as int]);
                    }
                    assert(hl == hr);
                    if nd.color {
                        if let Some(c) = nd.left {
                            assert(!mem.nodes()[c as int].color);
                        }
                        if let Some(c) = nd.right {
                            assert(!mem.nodes()[c as int].color);
                        }
                    }
                }
            }
            if hl != hr {
                return None;
            }
            if nd.color {
                let lr = match nd.left {
                    Some(c) => mem.get(c).color,
                    None => false,
                };
                let rr = match nd.right {
                    Some(c) => mem.get(c).color,
                    None => false,
                };
                if lr || rr {
                    return None;
                }
            }
            let ghost hv0 = hv@;
            proof {
                assert(pos@[i as int] == k);
                assert(hl + 1 <= n - k);
            }
            let h = if nd.color { hl } else { hl + 1 };
            hv.set(i as usize, h);
            proof {
                let b0 = heights(hv0);
                let b1 = heights(hv@);
                assert forall|j: int| k <= j < n implies {
                    &&& #[trigger] height_ok(ns, b1, order@[j] as int)
                    &&& reds_ok(ns, order@[j] as int)
                    &&& hv@[order@[j] as int] <= n - j
                } by {
                    let o0 = order@[j] as int;
                    assert(node_ok(ns, mem.root(), pos@, o0));
                    let o = order@[j] as int;
                    assert(node_ok(ns, mem.root(), pos@, o));
                    if let Some(c) = ns[o].left {
                        assert(node_ok(ns, mem.root(), pos@, c as int));
                    }
                    if let Some(c) = ns[o].right {
                        assert(node_ok(ns, mem.root(), pos@, c as int));
                    }
                    if j > k {
                        assert(height_ok(ns, b0, o));
                        assert(o != i);
                        if let Some(c) = ns[o].left {
                            assert(pos@[c as int] > j);
                        }
                        if let Some(c) = ns[o].right {
                            assert(pos@[c as int] > j);
                        }
                    }
                }
            }
        }
        if let Some(t) = mem.meta() {
            if mem.get(t).color {
                return None;
            }
        }
        let ghost bh = heights(hv@);
        proof {
            assert forall|i: int| 0 <= i < ns.len() implies #[trigger] height_ok(ns, bh, i) by {
                assert(order@[pos@[i]] == i);
                assert(height_ok(ns, heights(hv@), order@[pos@[i]] as int));
            }
            assert forall|i: int| 0 <= i < ns.len() implies #[trigger] reds_ok(ns, i) by {
                assert(order@[pos@[i]] == i);
                assert(height_ok(ns, heights(hv@), order@[pos@[i]] as int));
            }
        }
        Some(Ghost(bh))
    }

    /// Opens the tree kept in `map`. A region whose header counts no nodes
    /// is taken as an empty tree; otherwise the records must form one
    /// binary tree from the root, with every parent link mirroring a child
    /// link, every record reached, every key between the keys of the
    /// ancestors it hangs under, and the red-black balance intact.
    #[verifier::rlimit(80)]
    pub fn create(map: MmapMut) -> (res: Result<RBTree, OpenError>)
        ensures
            (map_bytes(map).len() < LEAST_CAPACITY) ==> res == Err::<RBTree, OpenError>(OpenError::TooSmall),
            res matches Ok(t) ==> t.wf() && t.cap() == map_bytes(map).len(),
            res matches Ok(t) ==> t.balanced(),
            res matches Ok(t) ==> t.nodes() == Seq::new(le_u64(map_bytes(map), 0) as nat, |i: int| node_at(map_bytes(map), i)),
            res matches Ok(t) ==> (le_u64(map_bytes(map), 0) != 0 ==> t.root() == opt_at(map_bytes(map), 8)),
            map_bytes(map).len() >= LEAST_CAPACITY && le_u64(map_bytes(map), 0) == 0 ==> (res matches Ok(t) && t.root() is None
                && t.nodes().len() == 0),
            res matches Ok(t) ==> t.ordered(),
            map_bytes(map).len() >= LEAST_CAPACITY && holds_tree(map_bytes(map)) ==> res is Ok,
    {
        let ghost valid = map_bytes(map).len() >= LEAST_CAPACITY && holds_tree(map_bytes(map));
        let ghost w: TreeWitness = if valid {
            choose|w: TreeWitness| shaped(Seq::new(le_u64(map_bytes(map), 0) as nat, |i: int| node_at(map_bytes(map), i)),
                opt_at(map_bytes(map), 8), w.0, w.1)
                && balanced(Seq::new(le_u64(map_bytes(map), 0) as nat, |i: int| node_at(map_bytes(map), i)), opt_at(map_bytes(map), 8), w.2)
                && ordered(Seq::new(le_u64(map_bytes(map), 0) as nat, |i: int| node_at(map_bytes(map), i)), opt_at(map_bytes(map), 8), w.3, w.4)
        } else {
            arbitrary()
        };
        let ghost rk = w.0;
        let ghost bd = w.1;
        let cap = crate::region::map_len(&map);
        if cap < LEAST_CAPACITY as usize {
            return Err(OpenError::TooSmall);
        }
        let mut mem = match Mem::new(map) {
            Some(m) => m,
            None => return Err(OpenError::Corrupt),
        };
        let n = mem.len();
        proof {
            if valid {
                assert(shaped(mem.nodes(), mem.root(), rk, bd));
                assert(balanced(mem.nodes(), mem.root(), w.2));
                assert(ordered(mem.nodes(), mem.root(), w.3, w.4));
                lemma_rootless_empty(mem.nodes(), mem.root(), rk, bd);
                if let Some(r0) = mem.root() {
                    assert(node_ok(mem.nodes(), mem.root(), rk, r0 as int));
                }
            }
        }
        if n == 0 {
            mem.set_meta(None);
            let t = RBTree { mem, rank: Ghost(Seq::empty()), bound: Ghost(0), lo: Ghost(Seq::empty()), hi: Ghost(Seq::empty()), bh: Ghost(Seq::empty()) };
            return Ok(t);
        }
        let r = match mem.meta() {
            Some(r) => r,
            None => return Err(OpenError::Corrupt),
        };
        if r >= n {
            return Err(OpenError::Corrupt);
        }
        if mem.get(r).parent.is_some() {
            return Err(OpenError::Corrupt);
        }
        let nn = n as usize;
        let mut seen: Vec<bool> = Vec::new();
        let mut k: usize = 0;
        while k < nn
            invariant
                k <= nn,
                seen@.len() == k,
                forall|j: int| 0 <= j < k ==> !(#[trigger] seen@[j]),
            decreases nn - k,
        {
            seen.push(false);
            k = k + 1;
        }
        seen.set(r as usize, true);
        let mut order: Vec<u64> = Vec::new();
        order.push(r);
        let mut pos: Ghost<Seq<int>> = Ghost(Seq::new(nn as nat, |i: int| 0));
        let mut h: usize = 0;
        while h < order.len()
            invariant
                mem.wf(),
                mem.cap() == map_bytes(map).len(),
                mem.nodes().len() == le_u64(map_bytes(map), 0),
                map_bytes(map).len() >= LEAST_CAPACITY,
                nn == n,
                n == mem.nodes().len(),
                r < n,
                mem.root() == Some(r),
                walk_ok(mem.nodes(), r, seen@, order@, pos@, h as int),
                order@.len() <= n,
                valid == (map_bytes(map).len() >= LEAST_CAPACITY && holds_tree(map_bytes(map))),
                valid ==> shaped(mem.nodes(), mem.root(), rk, bd) && balanced(mem.nodes(), mem.root(), w.2)
                    && ordered(mem.nodes(), mem.root(), w.3, w.4),
            decreases n - h,
        {
            let i = order[h];
            let (ok, pos_next) = RBTree::expand(&mem, &mut seen, &mut order, pos, r, h, Ghost(valid), Ghost(rk), Ghost(bd));
            if !ok {
                return Err(OpenError::Corrupt);
            }
            pos = pos_next;
            h = h + 1;
        }
        proof {
            if valid {
                assert forall|j: int| 0 <= j < nn implies #[trigger] seen@[j] by {
                    lemma_reach_all(mem.nodes(), mem.root(), rk, bd, j);
                    let kk = choose|kk: nat| in_sub(mem.nodes(), r as int, j, kk);
                    RBTree::lemma_walk_covers(mem.nodes(), r, seen@, order@, pos@, r as int, j, kk);
                }
            }
        }
        let mut x: usize = 0;
        while x < nn
            invariant
                x <= nn,
                mem.wf(),
                nn == n,
                n == mem.nodes().len(),
                r < n,
                mem.root() == Some(r),
                walk_ok(mem.nodes(), r, seen@, order@, pos@, order@.len() as int),
                order@.len() <= n,
                mem.cap() == map_bytes(map).len(),
                mem.nodes().len() == le_u64(map_bytes(map), 0),
                map_bytes(map).len() >= LEAST_CAPACITY,
                seen@.len() == nn,
                forall|j: int| 0 <= j < x ==> #[trigger] seen@[j],
                valid == (map_bytes(map).len() >= LEAST_CAPACITY && holds_tree(map_bytes(map))),
                valid ==> shaped(mem.nodes(), mem.root(), rk, bd) && balanced(mem.nodes(), mem.root(), w.2)
                    && ordered(mem.nodes(), mem.root(), w.3, w.4),
                valid ==> forall|j: int| 0 <= j < nn ==> #[trigger] seen@[j],
            decreases nn - x,
        {
            if !seen[x] {
                return Err(OpenError::Corrupt);
            }
            x = x + 1;
        }
        proof {
            let ns = mem.nodes();
            assert forall|i: int| 0 <= i < ns.len() implies 0 <= #[trigger] pos@[i] < n by {
                assert(seen@[i]);
            }
            assert forall|i: int| 0 <= i < ns.len() implies #[trigger] node_ok(ns, mem.root(), pos@, i) by {
                assert(seen@[i]);
                assert(order@[pos@[i]] == i);
                assert(expanded_ok(ns, seen@, pos@, order@[pos@[i]] as int));
                if i != r {
                    let q = ns[i].parent->Some_0;
                    assert(seen@[q as int]);
                }
            }
        }
        proof {
            if valid {
                let ps = Seq::new(n as nat, |i: int| pos@[i]);
                assert forall|a: int, b: int| 0 <= a < ps.len() && 0 <= b < ps.len() && a != b implies ps[a] != ps[b] by {
                    assert(seen@[a] && seen@[b]);
                    assert(order@[pos@[a]] == a);
                    assert(order@[pos@[b]] == b);
                }
                assert forall|j: int| 0 <= j < ps.len() implies 0 <= #[trigger] ps[j] < order@.len() by {
                    assert(seen@[j]);
                }
                lemma_distinct_below(ps, order@.len() as int);
            }
        }
        if order.len() != nn {
            return Err(OpenError::Corrupt);
        }
        proof {
            assert forall|i: int| 0 <= i < mem.nodes().len() implies 0 <= #[trigger] pos@[i] < order@.len() && order@[pos@[i]] == i by {
                assert(seen@[i]);
            }
        }
        let bh = match RBTree::check_balance(&mem, &order, pos, Ghost(valid), Ghost(w.2)) {
            Some(b) => b,
            None => return Err(OpenError::Corrupt),
        };
        let (lo, hi) = match RBTree::check_order(&mem, &order, pos, Ghost(valid), Ghost(w.3), Ghost(w.4)) {
            Some(b) => b,
            None => return Err(OpenError::Corrupt),
        };
        let t = RBTree { mem, rank: pos, bound: Ghost(n as int), lo, hi, bh };
        Ok(t)
    }

    /// Moves the tree into `map`, which must hold the bytes in use; the
    /// nodes and the root are kept, and `map` becomes the backing region.
    pub fn remap(self, map: MmapMut) -> (r: RBTree)
        requires
            self.wf(),
            self.used() <= map_bytes(map).len(),
        ensures
            r.wf(),
            r.nodes() == self.nodes(),
            r.root() == self.root(),
            r.cap() == map_bytes(map).len(),
            self.ordered() ==> r.ordered(),
            self.balanced() ==> r.balanced(),
    {
        let RBTree { mem, rank, bound, lo, hi, bh } = self;
        let mem = mem.remap(map);
        RBTree { mem, rank, bound, lo, hi, bh }
    }

    /// Gives the backing map back, to be flushed or dropped.
    pub fn into_map(self) -> (r: MmapMut)
        ensures
            map_bytes(r) == self.bytes(),
    {
        self.mem.into_map()
    }

    /// The region size to grow to when an insertion reports `Full`: twice
    /// the current size, or `None` when that does not fit a `usize`.
    pub fn grow_target(&self) -> (r: Option<usize>)
        ensures
            r matches Some(c) ==> c == 2 * self.cap(),
            r is None <==> 2 * self.cap() > usize::MAX,
            forall|j: nat| #[trigger] doubled(j) == self.cap() && doubled(j) == least_capacity(self.used())
                ==> (if self.used() + NODE_SIZE > self.cap() { 2 * self.cap() } else { self.cap() })
                == least_capacity(self.used() + NODE_SIZE),
    {
        proof {
            assert forall|j: nat| #[trigger] doubled(j) == self.cap() && doubled(j) == least_capacity(self.used())
                implies (if self.used() + NODE_SIZE > self.cap() { 2 * self.cap() } else { self.cap() })
                == least_capacity(self.used() + NODE_SIZE) by {
                let k = self.nodes().len();
                assert(used_for(k) == self.used());
                assert(used_for(k + 1) == self.used() + NODE_SIZE);
                lemma_capacity_after_add(j, k);
            }
        }
        let c = self.mem.capacity();
        if c <= usize::MAX / 2 {
            Some(c * 2)
        } else {
            None
        }
    }

    /// The region size to shrink to after a deletion: half the current
    /// size when less than half is in use and the half is not below
    /// [`LEAST_CAPACITY`]; `None` when the size should stay.
    pub fn shrink_target(&self) -> (r: Option<usize>)
        requires
            self.wf(),
        ensures
            r matches Some(c) ==> c == self.cap() / 2 && self.used() <= c,
            r is Some <==> (self.used() < self.cap() / 2 && self.cap() / 2 >= LEAST_CAPACITY),
            forall|j: nat| #[trigger] doubled(j) == self.cap() && doubled(j) == least_capacity(self.used() + NODE_SIZE)
                ==> (match r { Some(c) => c as int, None => self.cap() as int }) == least_capacity(self.used()),
    {
        proof {
            assert forall|j: nat| #[trigger] doubled(j) == self.cap() && doubled(j) == least_capacity(self.used() + NODE_SIZE)
                implies (if self.used() < self.cap() / 2 && self.cap() / 2 >= LEAST_CAPACITY { self.cap() / 2 } else { self.cap() })
                == least_capacity(self.used()) by {
                let k = self.nodes().len();
                assert(used_for(k) == self.used());
                assert(used_for(k + 1) == self.used() + NODE_SIZE);
                lemma_capacity_after_del(j, k);
            }
        }
        let c = self.mem.capacity();
        let half = c / 2;
        if self.mem.occupy() < half && half >= LEAST_CAPACITY as usize {
            Some(half)
        } else {
            None
        }
    }

    /// Appends the keys below node `x` to `out` in in-order sequence: the
    /// left subtree, the key of `x`, then the right subtree. The returned
    /// positions say which node each appended key came from, and cover
    /// every node reached from `x`.
    fn walk(&self, x: u64, out: &mut Vec<u64>) -> (idx: Ghost<Seq<int>>)
        requires
            self.wf(),
            x < self.nodes().len(),
        ensures
            final(out)@.len() == old(out)@.len() + idx@.len(),
            final(out)@.subrange(0, old(out)@.len() as int) == old(out)@,
            forall|m: int| 0 <= m < idx@.len() ==> 0 <= #[trigger] idx@[m] < self.nodes().len()
                && final(out)@[old(out)@.len() + m] == self.nodes()[idx@[m]].val,
            forall|j: int, k: nat| #[trigger] in_sub(self.nodes(), x as int, j, k) ==> idx@.contains(j),
            forall|k: int| old(out)@.len() <= k < final(out)@.len() ==> vals(self.nodes()).contains(#[trigger] final(out)@[k]),
            self.ordered() ==> forall|k: int| old(out)@.len() <= k < final(out)@.len()
                ==> self.lo@[x as int] < #[trigger] final(out)@[k] < self.hi@[x as int],
            self.ordered() ==> forall|k: int, l: int| old(out)@.len() <= k < l < final(out)@.len()
                ==> #[trigger] final(out)@[k] < #[trigger] final(out)@[l],
        decreases self.bound@ - self.rank@[x as int],
    {
        let ghost ns = self.nodes();
        proof {
            assert(node_ok(self.mem.nodes(), self.mem.root(), self.rank@, x as int));
            assert(0 <= self.rank@[x as int] < self.bound@);
            if self.ordered() {
                assert(bounds_ok(self.mem.nodes(), self.lo@, self.hi@, x as int));
            }
        }
        let ghost start = out@.len() as int;
        let ghost o0 = out@;
        let n = self.mem.get(x);
        let ghost mut il: Seq<int> = Seq::empty();
        if let Some(l) = n.left {
            proof {
                assert(0 <= self.rank@[l as int] < self.bound@);
            }
            let g = self.walk(l, out);
            proof {
                il = g@;
            }
        }
        let ghost mid = out@.len() as int;
        let ghost o1 = out@;
        proof {
            assert(vals(self.nodes())[x as int] == n.val);
        }
        out.push(n.val);
        let ghost o2 = out@;
        let ghost mut ir: Seq<int> = Seq::empty();
        if let Some(r) = n.right {
            proof {
                assert(0 <= self.rank@[r as int] < self.bound@);
            }
            let g = self.walk(r, out);
            proof {
                ir = g@;
            }
        }
        let ghost idx = il + seq![x as int] + ir;
        proof {
            let o3 = out@;
            assert(o3.subrange(0, mid + 1) =~= o2);
            assert(o2.subrange(0, mid) =~= o1);
            assert(o1.subrange(0, start) =~= o0);
            assert forall|k: int| start <= k < mid implies o3[k] == o1[k] by {
                assert(o3.subrange(0, mid + 1)[k] == o2[k]);
                assert(o2.subrange(0, mid)[k] == o1[k]);
            }
            assert(o3[mid] == n.val) by {
                assert(o3.subrange(0, mid + 1)[mid] == o2[mid]);
            }
            assert(o3.subrange(0, start) =~= o0) by {
                assert forall|k: int| 0 <= k < start implies o3[k] == o0[k] by {
                    assert(o3.subrange(0, mid + 1)[k] == o2[k]);
                    assert(o2.subrange(0, mid)[k] == o1[k]);
                    assert(o1.subrange(0, start)[k] == o0[k]);
                }
            }
            assert(mid == start + il.len());
            assert forall|m: int| 0 <= m < idx.len() implies 0 <= #[trigger] idx[m] < ns.len()
                && o3[start + m] == ns[idx[m]].val by {
                if m < il.len() {
                    assert(idx[m] == il[m]);
                    assert(o3[start + m] == o1[start + m]);
                } else if m == il.len() {
                    assert(idx[m] == x);
                } else {
                    assert(idx[m] == ir[m - il.len() - 1]);
                }
            }
            assert forall|j: int, k: nat| #[trigger] in_sub(ns, x as int, j, k) implies idx.contains(j) by {
                if k == 0 {
                    assert(idx[il.len() as int] == j);
                } else {
                    if n.left is Some && in_sub(ns, n.left->Some_0 as int, j, (k - 1) as nat) {
                        let m = choose|m: int| 0 <= m < il.len() && il[m] == j;
                        assert(idx[m] == j);
                    } else {
                        assert(in_sub(ns, n.right->Some_0 as int, j, (k - 1) as nat));
                        let m = choose|m: int| 0 <= m < ir.len() && ir[m] == j;
                        assert(idx[il.len() + 1 + m] == j);
                    }
                }
            }
            assert forall|k: int| start <= k < o3.len() implies vals(self.nodes()).contains(#[trigger] o3[k]) by {
                if k < mid {
                    assert(o3[k] == o1[k]);
                }
            }
            if self.ordered() {
                assert forall|k: int| start <= k < o3.len() implies self.lo@[x as int] < #[trigger] o3[k] < self.hi@[x as int] by {
                    if k < mid {
                        assert(o3[k] == o1[k]);
                    }
                }
                assert forall|k: int, l: int| start <= k < l < o3.len() implies #[trigger] o3[k] < #[trigger] o3[l] by {
                    if k < mid {
                        assert(o3[k] == o1[k]);
                        assert(o3[k] < n.val);
                    }
                    if l < mid {
                        assert(o3[l] == o1[l]);
                    }
                    if l > mid {
                        assert(o3[l] > n.val);
                    }
                }
            }
        }
        Ghost(idx)
    }

    /// The keys in in-order sequence. Each is a key of the tree, and in an
    /// ordered tree they come strictly increasing.
    pub fn keys_in_order(&self) -> (r: Vec<u64>)
        requires
            self.wf(),
        ensures
            forall|k: int| 0 <= k < r@.len() ==> self.keys().count(#[trigger] r@[k]) > 0,
            self.ordered() ==> forall|k: int, l: int| 0 <= k < l < r@.len() ==> #[trigger] r@[k] < #[trigger] r@[l],
            self.ordered() ==> r@.to_multiset() == self.keys(),
    {
        let ghost ns = self.nodes();
        let mut out: Vec<u64> = Vec::new();
        let ghost mut idx: Seq<int> = Seq::empty();
        let root = self.mem.meta();
        if let Some(t) = root {
            let g = self.walk(t, &mut out);
            proof {
                idx = g@;
            }
        }
        proof {
            self.lemma_wf_len();
            assert forall|k: int| 0 <= k < out@.len() implies self.keys().count(#[trigger] out@[k]) > 0 by {
                assert(vals(self.nodes()).contains(out@[k]));
            }
            if self.ordered() {
                let v = vals(ns);
                let o = out@;
                if root is None {
                    assert(ns.len() == 0);
                    assert(v =~= Seq::<u64>::empty());
                    assert(o.len() == 0);
                    assert(o =~= Seq::<u64>::empty());
                } else {
                    assert(o.subrange(0, 0) =~= Seq::<u64>::empty());
                    // every node is reached, so every key is listed
                    assert forall|j: int| 0 <= j < ns.len() implies o.contains(#[trigger] v[j]) by {
                        lemma_reach_all(ns, self.mem.root(), self.rank@, self.bound@, j);
                        let k = choose|k: nat| in_sub(ns, root->Some_0 as int, j, k);
                        assert(idx.contains(j));
                        let m = choose|m: int| 0 <= m < idx.len() && idx[m] == j;
                        assert(o[m] == v[j]);
                    }
                    assert(o.no_duplicates()) by {
                        assert forall|a: int, b: int| 0 <= a < o.len() && 0 <= b < o.len() && a != b implies o[a] != o[b] by {
                            if a < b {
                                assert(o[a] < o[b]);
                            } else {
                                assert(o[b] < o[a]);
                            }
                        }
                    }
                    // two nodes with one key would put it twice in the list
                    assert(v.no_duplicates()) by {
                        assert forall|a: int, b: int| 0 <= a < v.len() && 0 <= b < v.len() && a != b implies v[a] != v[b] by {
                            lemma_reach_all(ns, self.mem.root(), self.rank@, self.bound@, a);
                            lemma_reach_all(ns, self.mem.root(), self.rank@, self.bound@, b);
                            let ka = choose|k: nat| in_sub(ns, root->Some_0 as int, a, k);
                            let kb = choose|k: nat| in_sub(ns, root->Some_0 as int, b, k);
                            assert(idx.contains(a));
                            assert(idx.contains(b));
                            let ma = choose|m: int| 0 <= m < idx.len() && idx[m] == a;
                            let mb = choose|m: int| 0 <= m < idx.len() && idx[m] == b;
                            assert(o[ma] == v[a]);
                            assert(o[mb] == v[b]);
                            assert(ma != mb);
                        }
                    }
                    assert forall|k: int| 0 <= k < o.len() implies v.contains(#[trigger] o[k]) by {}
                    o.lemma_multiset_has_no_duplicates();
                    v.lemma_multiset_has_no_duplicates();
                    assert forall|a: u64| #[trigger] o.to_multiset().count(a) == v.to_multiset().count(a) by {
                        if o.contains(a) {
                            let k = choose|k: int| 0 <= k < o.len() && o[k] == a;
                            assert(v.contains(a));
                        } else if v.contains(a) {
                            let j = choose|j: int| 0 <= j < v.len() && v[j] == a;
                            assert(o.contains(v[j]));
                        }
                    }
                    assert(o.to_multiset() =~= v.to_multiset());
                }
            }
        }
        out
    }
}

} // verus!
