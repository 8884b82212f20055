//! The arena: a memory-mapped region laid out as a 64-bit element count, a
//! root slot, and a dense array of fixed-size node records.
//!
//! Byte layout, all words little-endian:
//! - `0..8`: the number of live nodes;
//! - `8..24`: the root, a nilable index (a presence word, then the index);
//! - `24 + 64 * i ..`: node `i`: colour word, parent, left and right (each a
//!   nilable index), then the key.

use crate::region::{
    le_u64, lemma_le_u64_frame, map_bytes, map_len, map_read, map_write, read_u64, same_outside,
    write_u64,
};
use memmap::MmapMut;
use vstd::prelude::*;

verus! {

/// Bytes before the first node record: the count and the root.
pub const HEADER_SIZE: usize = 24;

/// Bytes of one node record.
pub const NODE_SIZE: usize = 64;

/// One node of the tree: its colour (`true` for red), its links and its key.
#[derive(Clone, Copy, Debug, PartialEq, Eq, Structural)]
pub struct Node {
    pub color: bool,
    pub parent: Option<u64>,
    pub left: Option<u64>,
    pub right: Option<u64>,
    pub val: u64,
}

impl Node {
    /// A black node with no links and key zero.
    pub fn zero() -> (r: Node)
        ensures
            r == (Node { color: false, parent: None, left: None, right: None, val: 0 }),
    {
        Node { color: false, parent: None, left: None, right: None, val: 0 }
    }

    pub fn is_red(&self) -> (r: bool)
        ensures
            r == self.color,
    {
        self.color
    }

    pub fn is_black(&self) -> (r: bool)
        ensures
            r == !self.color,
    {
        !self.color
    }

    pub fn to_red(&mut self)
        ensures
            *final(self) == (Node { color: true, ..*old(self) }),
    {
        self.color = true;
    }

    pub fn to_black(&mut self)
        ensures
            *final(self) == (Node { color: false, ..*old(self) }),
    {
        self.color = false;
    }
}

/// The nilable index whose presence word is at `o`.
pub open spec fn opt_at(s: Seq<u8>, o: int) -> Option<u64> {
    if le_u64(s, o) != 0 {
        Some(le_u64(s, o + 8) as u64)
    } else {
        None
    }
}

/// Byte offset of node record `i`.
pub open spec fn node_offset(i: int) -> int {
    HEADER_SIZE + NODE_SIZE * i
}

/// The node record `i` as the bytes hold it.
pub open spec fn node_at(s: Seq<u8>, i: int) -> Node {
    let o = node_offset(i);
    Node {
        color: le_u64(s, o) != 0,
        parent: opt_at(s, o + 8),
        left: opt_at(s, o + 24),
        right: opt_at(s, o + 40),
        val: le_u64(s, o + 56) as u64,
    }
}

/// The eight words that encode a node record.
pub open spec fn node_words(n: Node) -> Seq<u64> {
    seq![
        if n.color { 1 } else { 0 },
        if n.parent is Some { 1 } else { 0 },
        match n.parent { Some(p) => p, None => 0 },
        if n.left is Some { 1 } else { 0 },
        match n.left { Some(p) => p, None => 0 },
        if n.right is Some { 1 } else { 0 },
        match n.right { Some(p) => p, None => 0 },
        n.val,
    ]
}

fn opt_words(x: Option<u64>) -> (r: (u64, u64))
    ensures
        r.0 == (if x is Some { 1u64 } else { 0u64 }),
        r.1 == (match x { Some(p) => p, None => 0u64 }),
{
    match x {
        Some(p) => (1, p),
        None => (0, 0),
    }
}

fn encode_node(n: Node) -> (r: Vec<u64>)
    ensures
        r@ == node_words(n),
{
    let (pf, pv) = opt_words(n.parent);
    let (lf, lv) = opt_words(n.left);
    let (rf, rv) = opt_words(n.right);
    let c: u64 = if n.color { 1 } else { 0 };
    let r = vec![c, pf, pv, lf, lv, rf, rv, n.val];
    assert(r@ =~= node_words(n));
    r
}

proof fn lemma_same_outside_grow(a: Seq<u8>, b: Seq<u8>, lo: int, hi: int, lo2: int, hi2: int)
    requires
        same_outside(a, b, lo, hi),
        lo2 <= lo,
        hi <= hi2,
    ensures
        same_outside(a, b, lo2, hi2),
{
}

proof fn lemma_same_outside_trans(a: Seq<u8>, b: Seq<u8>, c: Seq<u8>, lo: int, hi: int)
    requires
        same_outside(a, b, lo, hi),
        same_outside(b, c, lo, hi),
    ensures
        same_outside(a, c, lo, hi),
{
}

/// A node record outside the changed range decodes the same.
proof fn lemma_node_frame(a: Seq<u8>, b: Seq<u8>, lo: int, hi: int, i: int)
    requires
        same_outside(a, b, lo, hi),
        0 <= i,
        node_offset(i) + NODE_SIZE <= a.len(),
        node_offset(i) + NODE_SIZE <= lo || hi <= node_offset(i),
    ensures
        node_at(a, i) == node_at(b, i),
{
    let o = node_offset(i);
    lemma_le_u64_frame(a, b, lo, hi, o);
    lemma_le_u64_frame(a, b, lo, hi, o + 8);
    lemma_le_u64_frame(a, b, lo, hi, o + 16);
    lemma_le_u64_frame(a, b, lo, hi, o + 24);
    lemma_le_u64_frame(a, b, lo, hi, o + 32);
    lemma_le_u64_frame(a, b, lo, hi, o + 40);
    lemma_le_u64_frame(a, b, lo, hi, o + 48);
    lemma_le_u64_frame(a, b, lo, hi, o + 56);
}

/// Eight words that encode `n`, written at the offset of record `i`,
/// decode to `n`.
proof fn lemma_record_decodes(s: Seq<u8>, i: int, n: Node)
    requires
        forall|j: int| 0 <= j < 8 ==> le_u64(s, node_offset(i) + 8 * j) == #[trigger] node_words(n)[j],
    ensures
        node_at(s, i) == n,
{
    let o = node_offset(i);
    assert(le_u64(s, o + 8 * 0) == node_words(n)[0]);
    assert(le_u64(s, o + 8 * 1) == node_words(n)[1]);
    assert(le_u64(s, o + 8 * 2) == node_words(n)[2]);
    assert(le_u64(s, o + 8 * 3) == node_words(n)[3]);
    assert(le_u64(s, o + 8 * 4) == node_words(n)[4]);
    assert(le_u64(s, o + 8 * 5) == node_words(n)[5]);
    assert(le_u64(s, o + 8 * 6) == node_words(n)[6]);
    assert(le_u64(s, o + 8 * 7) == node_words(n)[7]);
}

/// Two byte sequences that agree below `n`.
pub open spec fn same_prefix(a: Seq<u8>, b: Seq<u8>, n: int) -> bool {
    &&& n <= a.len()
    &&& n <= b.len()
    &&& forall|k: int| 0 <= k < n ==> #[trigger] a[k] == b[k]
}

proof fn lemma_le_u64_prefix(a: Seq<u8>, b: Seq<u8>, n: int, o: int)
    requires
        same_prefix(a, b, n),
        0 <= o,
        o + 8 <= n,
    ensures
        le_u64(a, o) == le_u64(b, o),
{
    assert(a[o] == b[o]);
    assert(a[o + 1] == b[o + 1]);
    assert(a[o + 2] == b[o + 2]);
    assert(a[o + 3] == b[o + 3]);
    assert(a[o + 4] == b[o + 4]);
    assert(a[o + 5] == b[o + 5]);
    assert(a[o + 6] == b[o + 6]);
    assert(a[o + 7] == b[o + 7]);
}

proof fn lemma_node_prefix(a: Seq<u8>, b: Seq<u8>, n: int, i: int)
    requires
        same_prefix(a, b, n),
        0 <= i,
        node_offset(i) + NODE_SIZE <= n,
    ensures
        node_at(a, i) == node_at(b, i),
{
    let o = node_offset(i);
    lemma_le_u64_prefix(a, b, n, o);
    lemma_le_u64_prefix(a, b, n, o + 8);
    lemma_le_u64_prefix(a, b, n, o + 16);
    lemma_le_u64_prefix(a, b, n, o + 24);
    lemma_le_u64_prefix(a, b, n, o + 32);
    lemma_le_u64_prefix(a, b, n, o + 40);
    lemma_le_u64_prefix(a, b, n, o + 48);
    lemma_le_u64_prefix(a, b, n, o + 56);
}

/// A typed, length-prefixed array of nodes over a memory map.
pub struct Mem {
    map: MmapMut,
}

impl Mem {
    /// The mapped bytes.
    pub closed spec fn bytes(&self) -> Seq<u8> {
        map_bytes(self.map)
    }

    /// The live nodes, in position order.
    pub closed spec fn nodes(&self) -> Seq<Node> {
        Seq::new(le_u64(self.bytes(), 0) as nat, |i: int| node_at(self.bytes(), i))
    }

    /// The root slot of the metadata block.
    pub closed spec fn root(&self) -> Option<u64> {
        opt_at(self.bytes(), 8)
    }

    /// The size of the mapped region in bytes.
    pub closed spec fn cap(&self) -> nat {
        self.bytes().len()
    }

    /// Bytes in use: the header and the live node records.
    pub open spec fn used(&self) -> int {
        HEADER_SIZE + NODE_SIZE * self.nodes().len()
    }

    /// The live records fit in the map, and the map's size is a `usize`.
    pub open spec fn wf(&self) -> bool {
        &&& self.used() <= self.cap()
        &&& self.cap() <= usize::MAX
    }

    /// Wraps a map whose header says how many records are live; `None` when
    /// the map is too small for its header or for the records it claims.
    pub fn new(map: MmapMut) -> (r: Option<Mem>)
        ensures
            r is Some <==> HEADER_SIZE <= map_bytes(map).len() && HEADER_SIZE + NODE_SIZE
                * le_u64(map_bytes(map), 0) <= map_bytes(map).len(),
            r matches Some(m) ==> m.wf() && m.bytes() == map_bytes(map) && m.cap() == map_bytes(map).len(),
            r matches Some(m) ==> m.nodes() == Seq::new(le_u64(map_bytes(map), 0) as nat, |i: int| node_at(map_bytes(map), i)),
            r matches Some(m) ==> m.root() == opt_at(map_bytes(map), 8),
    {
        let n = map_len(&map);
        if n < HEADER_SIZE {
            return None;
        }
        let len = read_u64(&map, 0);
        if len > ((n - HEADER_SIZE) / NODE_SIZE) as u64 {
            return None;
        }
        Some(Mem { map })
    }

    /// Gives the map back.
    pub fn into_map(self) -> (r: MmapMut)
        ensures
            map_bytes(r) == self.bytes(),
    {
        self.map
    }

    /// The number of live nodes.
    pub fn len(&self) -> (r: u64)
        requires
            self.wf(),
        ensures
            r == self.nodes().len(),
    {
        read_u64(&self.map, 0)
    }

    /// The size of the mapped region.
    pub fn capacity(&self) -> (r: usize)
        ensures
            r == self.cap(),
    {
        map_len(&self.map)
    }

    /// Bytes in use: header plus live records.
    pub fn occupy(&self) -> (r: usize)
        requires
            self.wf(),
        ensures
            r == self.used(),
    {
        let n = self.len();
        HEADER_SIZE + NODE_SIZE * (n as usize)
    }

    /// The root slot.
    pub fn meta(&self) -> (r: Option<u64>)
        requires
            self.wf(),
        ensures
            r == self.root(),
    {
        // the map's length is a usize, so offsets below it cannot overflow
        let _len = map_len(&self.map);
        let f = read_u64(&self.map, 8);
        if f != 0 {
            Some(read_u64(&self.map, 16))
        } else {
            None
        }
    }

    /// Node `i`.
    pub fn get(&self, i: u64) -> (r: Node)
        requires
            self.wf(),
            i < self.nodes().len(),
        ensures
            r == self.nodes()[i as int],
    {
        let o = HEADER_SIZE + NODE_SIZE * (i as usize);
        let color = read_u64(&self.map, o) != 0;
        let pf = read_u64(&self.map, o + 8);
        let pv = read_u64(&self.map, o + 16);
        let lf = read_u64(&self.map, o + 24);
        let lv = read_u64(&self.map, o + 32);
        let rf = read_u64(&self.map, o + 40);
        let rv = read_u64(&self.map, o + 48);
        let val = read_u64(&self.map, o + 56);
        Node {
            color,
            parent: if pf != 0 { Some(pv) } else { None },
            left: if lf != 0 { Some(lv) } else { None },
            right: if rf != 0 { Some(rv) } else { None },
            val,
        }
    }

    /// Writes the eight words of `n` at byte offset `o`, changing no byte outside them.
    fn write_record(&mut self, o: usize, n: Node)
        requires
            o + NODE_SIZE <= old(self).cap(),
            old(self).cap() <= usize::MAX,
        ensures
            same_outside(old(self).bytes(), final(self).bytes(), o as int, o + NODE_SIZE),
            forall|j: int| 0 <= j < 8 ==> le_u64(final(self).bytes(), o + 8 * j) == #[trigger] node_words(n)[j],
    {
        let w = encode_node(n);
        let ghost s0 = self.bytes();
        let mut k: usize = 0;
        while k < 8
            invariant
                0 <= k <= 8,
                w@ == node_words(n),
                o + NODE_SIZE <= s0.len(),
                s0.len() <= usize::MAX,
                same_outside(s0, self.bytes(), o as int, o + NODE_SIZE),
                forall|j: int| 0 <= j < k ==> le_u64(self.bytes(), o + 8 * j) == #[trigger] node_words(n)[j],
            decreases 8 - k,
        {
            let ghost s1 = self.bytes();
            write_u64(&mut self.map, o + 8 * k, w[k]);
            proof {
                let s2 = self.bytes();
                lemma_same_outside_grow(s1, s2, o + 8 * k, o + 8 * k + 8, o as int, o + NODE_SIZE);
                lemma_same_outside_trans(s0, s1, s2, o as int, o + NODE_SIZE);
                assert forall|j: int| 0 <= j < k + 1 implies le_u64(s2, o + 8 * j) == #[trigger] node_words(n)[j] by {
                    if j < k {
                        lemma_le_u64_frame(s1, s2, o + 8 * k, o + 8 * k + 8, o + 8 * j);
                    }
                }
            }
            k = k + 1;
        }
    }

    /// Overwrites node `i`.
    pub fn set(&mut self, i: u64, n: Node)
        requires
            old(self).wf(),
            i < old(self).nodes().len(),
        ensures
            final(self).wf(),
            final(self).nodes() == old(self).nodes().update(i as int, n),
            final(self).root() == old(self).root(),
            final(self).cap() == old(self).cap(),
    {
        let ghost s0 = self.bytes();
        let o = HEADER_SIZE + NODE_SIZE * (i as usize);
        self.write_record(o, n);
        proof {
            let s = self.bytes();
            lemma_record_decodes(s, i as int, n);
            lemma_le_u64_frame(s0, s, o as int, o + NODE_SIZE, 0);
            lemma_le_u64_frame(s0, s, o as int, o + NODE_SIZE, 8);
            lemma_le_u64_frame(s0, s, o as int, o + NODE_SIZE, 16);
            assert forall|j: int| 0 <= j < old(self).nodes().len() && j != i implies node_at(s, j)
                == node_at(s0, j) by {
                lemma_node_frame(s0, s, o as int, o + NODE_SIZE, j);
            }
            assert(self.nodes() =~= old(self).nodes().update(i as int, n));
        }
    }

    /// Writes the count word, leaving the records and the root as they were.
    fn set_len(&mut self, v: u64)
        requires
            old(self).wf(),
            HEADER_SIZE + NODE_SIZE * v <= old(self).cap(),
        ensures
            final(self).cap() == old(self).cap(),
            final(self).root() == old(self).root(),
            final(self).nodes().len() == v,
            forall|j: int| 0 <= j < v ==> #[trigger] final(self).nodes()[j] == node_at(old(self).bytes(), j),
            same_outside(old(self).bytes(), final(self).bytes(), 0, 8),
    {
        let ghost s0 = self.bytes();
        // the map's length is a usize, so offsets below it cannot overflow
        let _len = map_len(&self.map);
        write_u64(&mut self.map, 0, v);
        proof {
            let s = self.bytes();
            lemma_le_u64_frame(s0, s, 0, 8, 8);
            lemma_le_u64_frame(s0, s, 0, 8, 16);
            assert forall|j: int| 0 <= j < v implies #[trigger] self.nodes()[j] == node_at(s0, j) by {
                lemma_node_frame(s0, s, 0, 8, j);
            }
        }
    }

    /// Sets the root slot.
    pub fn set_meta(&mut self, r: Option<u64>)
        requires
            old(self).wf(),
        ensures
            final(self).wf(),
            final(self).root() == r,
            final(self).nodes() == old(self).nodes(),
            final(self).cap() == old(self).cap(),
    {
        let ghost s0 = self.bytes();
        // the map's length is a usize, so offsets below it cannot overflow
        let _len = map_len(&self.map);
        let (f, v) = opt_words(r);
        write_u64(&mut self.map, 8, f);
        let ghost s1 = self.bytes();
        write_u64(&mut self.map, 16, v);
        proof {
            let s = self.bytes();
            lemma_le_u64_frame(s1, s, 16, 24, 8);
            lemma_same_outside_grow(s0, s1, 8, 16, 8, 24);
            lemma_same_outside_grow(s1, s, 16, 24, 8, 24);
            lemma_same_outside_trans(s0, s1, s, 8, 24);
            lemma_le_u64_frame(s0, s, 8, 24, 0);
            assert forall|j: int| 0 <= j < old(self).nodes().len() implies node_at(s, j) == node_at(s0, j) by {
                lemma_node_frame(s0, s, 8, 24, j);
            }
            assert(self.nodes() =~= old(self).nodes());
        }
    }

    /// Appends `n` as the last node and returns its position.
    pub fn push(&mut self, n: Node) -> (r: u64)
        requires
            old(self).wf(),
            old(self).used() + NODE_SIZE <= old(self).cap(),
        ensures
            final(self).wf(),
            r == old(self).nodes().len(),
            final(self).nodes() == old(self).nodes().push(n),
            final(self).root() == old(self).root(),
            final(self).cap() == old(self).cap(),
    {
        let len = self.len();
        let ghost s0 = self.bytes();
        let o = HEADER_SIZE + NODE_SIZE * (len as usize);
        self.write_record(o, n);
        let ghost s1 = self.bytes();
        proof {
            lemma_le_u64_frame(s0, s1, o as int, o + NODE_SIZE, 0);
            lemma_le_u64_frame(s0, s1, o as int, o + NODE_SIZE, 8);
            lemma_le_u64_frame(s0, s1, o as int, o + NODE_SIZE, 16);
            lemma_record_decodes(s1, len as int, n);
            assert forall|j: int| 0 <= j < len implies node_at(s1, j) == node_at(s0, j) by {
                lemma_node_frame(s0, s1, o as int, o + NODE_SIZE, j);
            }
        }
        self.set_len(len + 1);
        assert(self.nodes() =~= old(self).nodes().push(n));
        len
    }

    /// Removes the last node, clearing its record.
    pub fn pop(&mut self)
        requires
            old(self).wf(),
            old(self).nodes().len() > 0,
        ensures
            final(self).wf(),
            final(self).nodes() == old(self).nodes().drop_last(),
            final(self).root() == old(self).root(),
            final(self).cap() == old(self).cap(),
            node_at(final(self).bytes(), old(self).nodes().len() - 1) == (Node { color: false, parent: None, left: None, right: None, val: 0 }),
    {
        let len = self.len();
        let last = len - 1;
        let ghost s0 = self.bytes();
        let o = HEADER_SIZE + NODE_SIZE * (last as usize);
        self.write_record(o, Node::zero());
        let ghost s1 = self.bytes();
        proof {
            lemma_le_u64_frame(s0, s1, o as int, o + NODE_SIZE, 0);
            lemma_le_u64_frame(s0, s1, o as int, o + NODE_SIZE, 8);
            lemma_le_u64_frame(s0, s1, o as int, o + NODE_SIZE, 16);
            assert forall|j: int| 0 <= j < last implies node_at(s1, j) == node_at(s0, j) by {
                lemma_node_frame(s0, s1, o as int, o + NODE_SIZE, j);
            }
            lemma_record_decodes(s1, last as int, Node { color: false, parent: None, left: None, right: None, val: 0 });
        }
        self.set_len(last);
        proof {
            lemma_node_frame(s1, self.bytes(), 0, 8, last as int);
        }
        assert(self.nodes() =~= old(self).nodes().drop_last());
    }

    /// Moves the live content into `map`, which becomes the backing region.
    /// The nodes and the root are kept.
    pub fn remap(self, map: MmapMut) -> (r: Mem)
        requires
            self.wf(),
            self.used() <= map_bytes(map).len(),
        ensures
            r.wf(),
            r.nodes() == self.nodes(),
            r.root() == self.root(),
            r.cap() == map_bytes(map).len(),
    {
        let used = self.occupy();
        let mut map = map;
        // the map's length is a usize, so offsets below it cannot overflow
        let _len = map_len(&map);
        let ghost s0 = self.bytes();
        let mut k: usize = 0;
        while k < used
            invariant
                k <= used,
                used == self.used(),
                self.wf(),
                s0 == self.bytes(),
                used <= map_bytes(map).len(),
                map_bytes(map).len() == _len,
                same_prefix(s0, map_bytes(map), k as int),
            decreases used - k,
        {
            let b = map_read(&self.map, k);
            let ghost before = map_bytes(map);
            map_write(&mut map, k, b);
            proof {
                let after = map_bytes(map);
                assert forall|j: int| 0 <= j < k + 1 implies #[trigger] s0[j] == after[j] by {
                    if j < k {
                        assert(before[j] == after[j]);
                    }
                }
            }
            k = k + 1;
        }
        let r = Mem { map };
        proof {
            let s = r.bytes();
            lemma_le_u64_prefix(s0, s, used as int, 0);
            lemma_le_u64_prefix(s0, s, used as int, 8);
            lemma_le_u64_prefix(s0, s, used as int, 16);
            assert forall|j: int| 0 <= j < self.nodes().len() implies node_at(s, j) == node_at(s0, j) by {
                lemma_node_prefix(s0, s, used as int, j);
            }
            assert(r.nodes() =~= self.nodes());
        }
        r
    }
}

} // verus!
