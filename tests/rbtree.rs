use memmap::MmapMut;
use rand::Rng;
use weid::{AddError, OpenError, RBTree, HEADER_SIZE, LEAST_CAPACITY, NODE_SIZE};

fn vals() -> Vec<u64> {
    vec![
        6531, 7872, 6576, 8533, 5085, 2817, 9887, 3796, 1282, 5573, 8589, 3078, 590, 1494, 3295,
        6609, 2587, 5230, 5101, 6358, 2359, 6520, 8487, 9520, 981, 8192, 1044, 25, 3409, 1826, 7563,
        8815, 7790, 4136, 2868, 617, 6433, 3320, 110, 9427, 3556, 1573, 8474, 3794, 4277, 7194, 3708,
        654, 2821, 156, 476, 3343, 387, 3858, 522, 8810, 2947, 8774, 3854, 5693, 9512, 8942, 2646,
        3561, 1760, 67, 3372, 6540, 3447, 8243, 9859, 5944, 7580, 5610, 5478, 1286, 9347, 8831, 8490,
        4875, 465, 9761, 2545, 5496, 6120, 9771, 7852, 9114, 9870, 96, 2068, 8222, 4859, 5872, 505,
        2031, 8440, 6501, 9836, 3554,
    ]
}

fn vals_sorted() -> Vec<u64> {
    let mut v = vals();
    v.sort();
    v
}

fn new_tree() -> RBTree {
    let map = MmapMut::map_anon(LEAST_CAPACITY as usize).unwrap();
    RBTree::create(map).unwrap()
}

/// Moves the tree into a fresh anonymous map of `cap` bytes.
fn resize(tree: RBTree, cap: usize) -> RBTree {
    let map = MmapMut::map_anon(cap).unwrap();
    tree.remap(map)
}

fn add(mut tree: RBTree, v: u64) -> (RBTree, Result<(), AddError>) {
    loop {
        match tree.add(v) {
            Err(AddError::Full) => {
                let cap = tree.grow_target().unwrap();
                tree = resize(tree, cap);
            }
            r => return (tree, r),
        }
    }
}

fn add_bst(mut tree: RBTree, v: u64) -> RBTree {
    loop {
        match tree.add_bst(v) {
            Err(AddError::Full) => {
                let cap = tree.grow_target().unwrap();
                tree = resize(tree, cap);
            }
            r => {
                r.unwrap();
                return tree;
            }
        }
    }
}

fn del(mut tree: RBTree, v: u64) -> (RBTree, bool) {
    let removed = tree.del(v);
    if let Some(cap) = tree.shrink_target() {
        tree = resize(tree, cap);
    }
    (tree, removed)
}

fn construct_tree() -> RBTree {
    let mut tree = new_tree();
    for v in vals() {
        tree = add_bst(tree, v);
    }
    tree
}

fn dfs_inner(tree: &RBTree, b: &mut Vec<u64>, node: u64) {
    let n = tree.node(node);
    if let Some(l) = n.left {
        dfs_inner(tree, b, l);
    }
    b.push(n.val);
    if let Some(r) = n.right {
        dfs_inner(tree, b, r);
    }
}

fn dfs(tree: &RBTree) -> Vec<u64> {
    let mut b = vec![];
    if let Some(r) = tree.root_index() {
        dfs_inner(tree, &mut b, r);
    }
    b
}

fn assert_root(tree: &RBTree, r: u64) {
    assert_eq!(tree.root_index(), Some(r));
    assert_eq!(tree.node(r).parent, None);
}

fn assert_left_child(tree: &RBTree, p: u64, c: Option<u64>) {
    assert_eq!(tree.node(p).left, c);
    if let Some(c) = c {
        assert_eq!(tree.node(c).parent, Some(p));
    }
}

fn assert_right_child(tree: &RBTree, p: u64, c: Option<u64>) {
    assert_eq!(tree.node(p).right, c);
    if let Some(c) = c {
        assert_eq!(tree.node(c).parent, Some(p));
    }
}

/// Black nodes on every path from `x` to an absent child, counting the
/// absent child; panics where two paths differ or a red node has a red child.
fn black_height(tree: &RBTree, x: Option<u64>) -> usize {
    match x {
        None => 1,
        Some(i) => {
            let n = tree.node(i);
            if n.color {
                assert!(!tree.is_red(n.left));
                assert!(!tree.is_red(n.right));
            }
            let l = black_height(tree, n.left);
            let r = black_height(tree, n.right);
            assert_eq!(l, r);
            if n.color {
                l
            } else {
                l + 1
            }
        }
    }
}

fn assert_constraint(tree: &RBTree) {
    assert!(tree.is_black(tree.root_index()));
    black_height(tree, tree.root_index());
}

fn capacity_for(occupied: usize) -> usize {
    let mut cap = LEAST_CAPACITY as usize;
    while cap < occupied {
        cap *= 2;
    }
    cap
}

#[test]
fn test_create() {
    let tree = new_tree();
    assert!(tree.capacity() >= LEAST_CAPACITY as usize);
    assert_eq!(tree.len(), 0);
    assert_eq!(tree.root_index(), None);
}

#[test]
fn test_add_del_node() {
    let mut tree = new_tree();
    for v in 0..500u64 {
        let (t, r) = add(tree, v * 7 + 1);
        tree = t;
        r.unwrap();
    }
    let occupied = std::mem::size_of::<u64>() + std::mem::size_of::<Option<u64>>() + NODE_SIZE * 500;
    assert_eq!(tree.occupy(), occupied);
    let cap = (occupied as f64).log2().ceil().exp2();
    assert_eq!(tree.capacity(), cap as usize);
    for v in 0..490u64 {
        let (t, removed) = del(tree, v * 7 + 1);
        tree = t;
        assert!(removed);
    }
    let occupied = std::mem::size_of::<u64>() + std::mem::size_of::<Option<u64>>() + NODE_SIZE * 10;
    assert_eq!(tree.occupy(), occupied);
    // the region never shrinks below the floor
    let cap = (occupied as f64).log2().ceil().exp2().max(LEAST_CAPACITY as f64);
    assert_eq!(tree.capacity(), cap as usize);
}

#[test]
fn test_add_bst() {
    let tree = construct_tree();
    let vs = vals_sorted();
    assert_eq!(vs, dfs(&tree));
}

#[test]
fn test_del_bst1() {
    let mut tree = construct_tree();
    let root = tree.root_index();
    let x = tree.del_bst(root, 6531);
    assert_eq!(x, Some(67));
    assert_eq!(tree.node(0).val, 6540);
}

#[test]
fn test_del_bst2() {
    let mut tree = construct_tree();
    let root = tree.root_index();
    let x = tree.del_bst(root, 8533);
    assert_eq!(x, Some(10));
    assert_eq!(tree.node(3).val, 8589);
}

#[test]
fn test_rotate_left1() {
    let mut tree = construct_tree();
    tree.rotate_left(19);
    assert_right_child(&tree, 9, Some(21));
    assert_left_child(&tree, 21, Some(19));
    assert_right_child(&tree, 19, Some(36));
}

#[test]
fn test_rotate_left2() {
    let mut tree = construct_tree();
    tree.rotate_left(36);
    assert_left_child(&tree, 21, Some(97));
    assert_left_child(&tree, 97, Some(36));
    assert_right_child(&tree, 36, None);
}

#[test]
fn test_rotate_left3() {
    let mut tree = construct_tree();
    tree.rotate_left(0);
    assert_root(&tree, 1);
    assert_left_child(&tree, 1, Some(0));
    assert_right_child(&tree, 0, Some(2));
}

#[test]
fn test_rotate_right1() {
    let mut tree = construct_tree();
    tree.rotate_right(9);
    assert_right_child(&tree, 4, Some(17));
    assert_right_child(&tree, 17, Some(9));
    assert_left_child(&tree, 9, Some(74));
}

#[test]
fn test_rotate_right2() {
    let mut tree = construct_tree();
    tree.rotate_right(46);
    assert_left_child(&tree, 43, Some(63));
    assert_right_child(&tree, 63, Some(46));
    assert_left_child(&tree, 46, None);
}

#[test]
fn test_rotate_right3() {
    let mut tree = construct_tree();
    tree.rotate_right(0);
    assert_root(&tree, 4);
    assert_right_child(&tree, 4, Some(0));
    assert_left_child(&tree, 0, Some(9));
}

#[test]
fn test_byte_size() {
    assert_eq!(NODE_SIZE, 64);
    assert_eq!(std::mem::size_of::<Option<u64>>(), 16);
    assert_eq!(HEADER_SIZE, 8 + 16);
}

#[test]
fn test_add() {
    let mut tree = new_tree();
    for v in vals() {
        let (t, r) = add(tree, v);
        tree = t;
        r.unwrap();
    }
    assert_constraint(&tree);
    assert_eq!(dfs(&tree), vals_sorted());
}

#[test]
fn test_random_add() {
    let mut tree = new_tree();
    let mut rng = rand::thread_rng();
    for _ in 0..10000 {
        let (t, r) = add(tree, rng.gen());
        tree = t;
        r.unwrap();
    }
    assert_constraint(&tree);
}

#[test]
fn test_del() {
    let mut tree = new_tree();
    for v in vals() {
        let (t, r) = add(tree, v);
        tree = t;
        r.unwrap();
    }
    let mut c = 0;
    for v in vals() {
        c += 1;
        let (t, removed) = del(tree, v);
        tree = t;
        assert!(removed);
        if c >= vals().len() / 2 {
            break;
        }
    }
    assert_constraint(&tree);
    let rest: Vec<u64> = {
        let mut v: Vec<u64> = vals()[vals().len() / 2..].to_vec();
        v.sort();
        v
    };
    assert_eq!(dfs(&tree), rest);
}
