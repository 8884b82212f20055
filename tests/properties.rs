use memmap::MmapMut;
use weid::region::map_size;
use weid::{
    Add, AddError, ArticleContent, Author, Authors, Get, OpenError, RBTree, Remove, Search, Title,
    HEADER_SIZE, LEAST_CAPACITY, NODE_SIZE,
};

fn fresh() -> RBTree {
    RBTree::create(MmapMut::map_anon(LEAST_CAPACITY as usize).unwrap()).unwrap()
}

fn grow(tree: RBTree) -> RBTree {
    let cap = tree.grow_target().unwrap();
    tree.remap(MmapMut::map_anon(cap).unwrap())
}

fn insert(mut tree: RBTree, v: u64) -> (RBTree, Result<(), AddError>) {
    loop {
        match tree.add(v) {
            Err(AddError::Full) => tree = grow(tree),
            r => return (tree, r),
        }
    }
}

fn remove(mut tree: RBTree, v: u64) -> (RBTree, bool) {
    let removed = tree.del(v);
    if let Some(cap) = tree.shrink_target() {
        tree = tree.remap(MmapMut::map_anon(cap).unwrap());
    }
    (tree, removed)
}

fn in_order(tree: &RBTree) -> Vec<u64> {
    fn walk(tree: &RBTree, x: Option<u64>, out: &mut Vec<u64>) {
        if let Some(i) = x {
            let n = tree.node(i);
            walk(tree, n.left, out);
            out.push(n.val);
            walk(tree, n.right, out);
        }
    }
    let mut out = vec![];
    walk(tree, tree.root_index(), &mut out);
    out
}

fn black_height(tree: &RBTree, x: Option<u64>) -> usize {
    match x {
        None => 1,
        Some(i) => {
            let n = tree.node(i);
            if n.color {
                assert!(!tree.is_red(n.left) && !tree.is_red(n.right));
            }
            let l = black_height(tree, n.left);
            assert_eq!(l, black_height(tree, n.right));
            l + if n.color { 0 } else { 1 }
        }
    }
}

fn read_word(b: &[u8], o: usize) -> u64 {
    let mut w = [0u8; 8];
    w.copy_from_slice(&b[o..o + 8]);
    u64::from_le_bytes(w)
}

#[test]
fn count_follows_successful_adds() {
    let mut tree = fresh();
    for v in [5u64, 3, 9, 1, 7] {
        let (t, r) = insert(tree, v);
        tree = t;
        assert_eq!(r, Ok(()));
    }
    assert_eq!(tree.len(), 5);
    let (tree, r) = insert(tree, 9);
    assert_eq!(r, Err(AddError::Duplicate));
    assert_eq!(tree.len(), 5);
    assert_eq!(in_order(&tree), vec![1, 3, 5, 7, 9]);
}

#[test]
fn delete_of_absent_key_changes_nothing() {
    let mut tree = fresh();
    for v in [40u64, 20, 60, 10] {
        tree = insert(tree, v).0;
    }
    let before: Vec<_> = (0..tree.len()).map(|i| tree.node(i)).collect();
    let root = tree.root_index();
    assert!(!tree.del(30));
    let after: Vec<_> = (0..tree.len()).map(|i| tree.node(i)).collect();
    assert_eq!(before, after);
    assert_eq!(root, tree.root_index());
    assert!(tree.del(20));
    assert!(!tree.del(20));
    assert_eq!(in_order(&tree), vec![10, 40, 60]);
}

#[test]
fn delete_everything_leaves_an_empty_tree() {
    let mut tree = fresh();
    for v in 1..=50u64 {
        tree = insert(tree, v * 3).0;
    }
    for v in 1..=50u64 {
        let (t, removed) = remove(tree, v * 3);
        tree = t;
        assert!(removed);
        if tree.len() > 0 {
            assert!(tree.is_black(tree.root_index()));
            black_height(&tree, tree.root_index());
        }
    }
    assert_eq!(tree.len(), 0);
    assert_eq!(tree.root_index(), None);
    assert_eq!(tree.occupy(), HEADER_SIZE);
}

#[test]
fn interleaved_adds_and_deletes_stay_balanced() {
    let mut tree = fresh();
    let mut model: Vec<u64> = vec![];
    let mut x: u64 = 12345;
    for step in 0..3000u64 {
        x = x.wrapping_mul(6364136223846793005).wrapping_add(1442695040888963407);
        let k = (x >> 33) % 500;
        if step % 3 == 2 {
            let (t, removed) = remove(tree, k);
            tree = t;
            let pos = model.iter().position(|&m| m == k);
            assert_eq!(removed, pos.is_some());
            if let Some(p) = pos {
                model.remove(p);
            }
        } else {
            let (t, r) = insert(tree, k);
            tree = t;
            if model.contains(&k) {
                assert_eq!(r, Err(AddError::Duplicate));
            } else {
                assert_eq!(r, Ok(()));
                model.push(k);
            }
        }
        assert!(tree.is_black(tree.root_index()));
        black_height(&tree, tree.root_index());
    }
    model.sort();
    assert_eq!(in_order(&tree), model);
}

#[test]
fn capacity_doubles_from_the_floor() {
    let mut tree = fresh();
    for k in 0..200u64 {
        tree = insert(tree, k).0;
        let occupied = HEADER_SIZE + NODE_SIZE * (k as usize + 1);
        assert_eq!(tree.occupy(), occupied);
        let mut cap = LEAST_CAPACITY as usize;
        while cap < occupied {
            cap *= 2;
        }
        assert_eq!(tree.capacity(), cap);
    }
    assert_eq!(tree.capacity(), 16384);
    for k in 0..190u64 {
        tree = remove(tree, k).0;
    }
    assert_eq!(tree.occupy(), HEADER_SIZE + NODE_SIZE * 10);
    assert_eq!(tree.capacity(), 4096);
}

#[test]
fn full_region_is_reported_and_left_unchanged() {
    let mut tree = fresh();
    let per_region = (LEAST_CAPACITY as usize - HEADER_SIZE) / NODE_SIZE;
    for k in 0..per_region as u64 {
        assert_eq!(tree.add(k), Ok(()));
    }
    assert_eq!(tree.add(1000), Err(AddError::Full));
    assert_eq!(tree.add(3), Err(AddError::Duplicate));
    assert_eq!(tree.len(), per_region as u64);
    assert_eq!(tree.grow_target(), Some(2 * LEAST_CAPACITY as usize));
    assert_eq!(tree.shrink_target(), None);
}

#[test]
fn region_bytes_follow_the_layout() {
    let mut tree = fresh();
    assert_eq!(tree.add(77), Ok(()));
    assert_eq!(tree.add(33), Ok(()));
    let map = tree.into_map();
    let b: &[u8] = &map;
    assert_eq!(read_word(b, 0), 2);
    assert_eq!(read_word(b, 8), 1);
    assert_eq!(read_word(b, 16), 0);
    let n0 = HEADER_SIZE;
    let n1 = HEADER_SIZE + NODE_SIZE;
    assert_eq!(read_word(b, n0), 0);
    assert_eq!(read_word(b, n0 + 8), 0);
    assert_eq!(read_word(b, n0 + 24), 1);
    assert_eq!(read_word(b, n0 + 32), 1);
    assert_eq!(read_word(b, n0 + 40), 0);
    assert_eq!(read_word(b, n0 + 56), 77);
    assert_eq!(read_word(b, n1), 1);
    assert_eq!(read_word(b, n1 + 8), 1);
    assert_eq!(read_word(b, n1 + 16), 0);
    assert_eq!(read_word(b, n1 + 56), 33);
}

#[test]
fn reopening_a_region_keeps_the_tree() {
    let mut tree = fresh();
    for v in [8u64, 4, 12, 2, 6, 10, 14] {
        tree = insert(tree, v).0;
    }
    let map = tree.into_map();
    let tree = RBTree::create(map).unwrap();
    assert_eq!(tree.len(), 7);
    assert_eq!(in_order(&tree), vec![2, 4, 6, 8, 10, 12, 14]);
}

#[test]
fn corrupt_or_small_regions_are_refused() {
    let small = MmapMut::map_anon(1024).unwrap();
    assert!(matches!(RBTree::create(small), Err(OpenError::TooSmall)));

    let mut m = MmapMut::map_anon(LEAST_CAPACITY as usize).unwrap();
    m[0] = 1;
    assert!(matches!(RBTree::create(m), Err(OpenError::Corrupt)));

    let mut m = MmapMut::map_anon(LEAST_CAPACITY as usize).unwrap();
    m[0] = 255;
    m[1] = 255;
    assert!(matches!(RBTree::create(m), Err(OpenError::Corrupt)));

    let mut tree = fresh();
    for v in [2u64, 1, 3] {
        tree = insert(tree, v).0;
    }
    let mut m = tree.into_map();
    // point the root's left child at the root itself
    let root = read_word(&m, 16) as usize;
    let o = HEADER_SIZE + NODE_SIZE * root + 32;
    m[o..o + 8].copy_from_slice(&(root as u64).to_le_bytes());
    assert!(matches!(RBTree::create(m), Err(OpenError::Corrupt)));
}

#[test]
fn article_texts_and_authors() {
    let mut t = Title::nil();
    assert_eq!(t.to_str(), "");
    t.set("Red-black trees in mapped memory");
    assert_eq!(t.to_str(), "Red-black trees in mapped memory");

    let mut a = Author::nil();
    a.set("Ada");
    assert_eq!(a.to_str(), "Ada");

    let mut list = Authors::nil();
    assert_eq!(list.len(), 0);
    list.push("Ada");
    list.push("Brian");
    assert_eq!(list.len(), 2);
    assert_eq!(list.get(1).to_str(), "Brian");

    let names = vec!["X".to_string(), "Y".to_string(), "Z".to_string()];
    let c = ArticleContent::new("On trees", &names);
    assert_eq!(c.title.to_str(), "On trees");
    assert_eq!(c.authors.len(), 3);
    assert_eq!(c.authors.get(0).to_str(), "X");
    assert_eq!(c.authors.get(2).to_str(), "Z");
}

#[test]
fn request_values() {
    let names = vec!["A".to_string()];
    let add = Add::new("T", &names);
    assert_eq!(add.title(), "T");
    assert_eq!(add.authors(), &names[..]);
    assert_eq!(Get::new(7), Get(7));
    assert_eq!(Remove::new(9).0, 9);
    assert_eq!(Search::new("query").0, "query");
}

#[test]
fn keys_come_out_in_order() {
    let mut tree = fresh();
    let input = [50u64, 20, 80, 10, 30, 70, 90, 25, 35, 5];
    for v in input {
        tree = insert(tree, v).0;
    }
    let mut sorted = input.to_vec();
    sorted.sort();
    assert_eq!(tree.keys_in_order(), sorted);
    assert_eq!(in_order(&tree), sorted);
    let empty = fresh();
    assert!(empty.keys_in_order().is_empty());
}

#[test]
fn unbalanced_regions_are_refused() {
    let mut tree = fresh();
    for v in [20u64, 10, 30, 5] {
        tree = insert(tree, v).0;
    }
    let map = tree.into_map();
    // painting the root red breaks the balance
    let mut m = map;
    let root = read_word(&m, 16) as usize;
    let o = HEADER_SIZE + NODE_SIZE * root;
    m[o..o + 8].copy_from_slice(&1u64.to_le_bytes());
    assert!(matches!(RBTree::create(m), Err(OpenError::Corrupt)));

    let mut tree = fresh();
    for v in 0..40u64 {
        tree = insert(tree, v).0;
    }
    for v in 0..15u64 {
        tree = remove(tree, v * 2).0;
    }
    let reopened = RBTree::create(tree.into_map()).unwrap();
    assert_eq!(reopened.len(), 25);
    let expected: Vec<u64> = (0..40u64).filter(|v| *v >= 30 || v % 2 == 1).collect();
    assert_eq!(reopened.keys_in_order(), expected);
}

#[test]
fn map_size_and_full_listing() {
    let m = MmapMut::map_anon(8192).unwrap();
    assert_eq!(map_size(&m), 8192);
    let mut tree = RBTree::create(m).unwrap();
    assert_eq!(tree.len(), 0);
    for v in [9u64, 3, 7, 1, 5] {
        assert_eq!(tree.add(v), Ok(()));
    }
    assert_eq!(tree.keys_in_order(), vec![1, 3, 5, 7, 9]);
    assert_eq!(tree.keys_in_order().len() as u64, tree.len());
}

#[test]
fn out_of_order_regions_are_refused() {
    let mut tree = fresh();
    for v in [20u64, 10, 30] {
        tree = insert(tree, v).0;
    }
    let mut m = tree.into_map();
    // give the root's left child a key larger than the root's
    let root = read_word(&m, 16) as usize;
    let left = read_word(&m, HEADER_SIZE + NODE_SIZE * root + 32) as usize;
    let o = HEADER_SIZE + NODE_SIZE * left + 56;
    m[o..o + 8].copy_from_slice(&25u64.to_le_bytes());
    assert!(matches!(RBTree::create(m), Err(OpenError::Corrupt)));
}
