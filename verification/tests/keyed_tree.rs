use search_trees::parental_binary_search_tree::NodeBody;
use search_trees::parental_binary_search_tree::ParentalBinarySearchTree;
use std::cell::Cell;
use std::rc::Rc;

fn keyed(keys: &[u32]) -> ParentalBinarySearchTree<u32, u32> {
    let mut t = ParentalBinarySearchTree::new();
    for k in keys {
        t.insert(*k, *k);
    }
    t
}

fn keys_of<V>(t: &ParentalBinarySearchTree<u32, V>) -> Vec<u32> {
    t.trace().iter().map(|n| n.key).collect::<Vec<u32>>()
}

fn parent_key(t: &ParentalBinarySearchTree<u32, u32>, node: &NodeBody<u32, u32>) -> Option<u32> {
    match node.parent {
        None => None,
        Some(p) => Some(t.node(p).unwrap().key),
    }
}

fn scrambled(n: u32) -> Vec<u32> {
    let mut xs = Vec::new();
    let mut x: u32 = 2024;
    for _ in 0..n {
        x = x.wrapping_mul(1664525).wrapping_add(1013904223);
        xs.push((x >> 16) % 89);
    }
    xs
}

struct Counted {
    drops: Rc<Cell<usize>>,
}

impl Drop for Counted {
    fn drop(&mut self) {
        self.drops.set(self.drops.get() + 1);
    }
}

#[test]
fn parental_binary_search_tree_test_insert() {
    let mut t = ParentalBinarySearchTree::new();

    t.insert(11, 11);
    t.insert(21, 21);
    t.insert(1, 1);
    t.insert(22, 22);
    t.insert(23, 23);

    let keys = t.trace().iter().map(|n| n.key).collect::<Vec<u32>>();
    println!("{:?}", keys);
    assert_eq!(keys, vec![1, 11, 21, 22, 23]);
    let values = t.trace().iter().map(|n| n.value).collect::<Vec<u32>>();
    assert_eq!(values, vec![1, 11, 21, 22, 23]);
    assert_eq!(t.len(), 5);
}

#[test]
fn keyed_tree_parents_after_five_inserts() {
    let t = keyed(&[11, 21, 1, 22, 23]);
    let found = t.trace();
    let parents = found.iter().map(|n| (n.key, parent_key(&t, n))).collect::<Vec<(u32, Option<u32>)>>();
    assert_eq!(
        parents,
        vec![(1, Some(11)), (11, None), (21, Some(11)), (22, Some(21)), (23, Some(22))]
    );
    assert_eq!(t.root(), Some(0));
    assert_eq!(t.node(0).unwrap().key, 11);
}

#[test]
fn keyed_tree_handles_follow_insertion_order() {
    let t = keyed(&[11, 21, 1, 22, 23]);
    let root = t.node(0).unwrap();
    assert_eq!((root.key, root.parent, root.left, root.right), (11, None, Some(2), Some(1)));
    let n1 = t.node(1).unwrap();
    assert_eq!((n1.key, n1.parent, n1.left, n1.right), (21, Some(0), None, Some(3)));
    let n2 = t.node(2).unwrap();
    assert_eq!((n2.key, n2.parent, n2.left, n2.right), (1, Some(0), None, None));
    let n3 = t.node(3).unwrap();
    assert_eq!((n3.key, n3.parent, n3.left, n3.right), (22, Some(1), None, Some(4)));
    let n4 = t.node(4).unwrap();
    assert_eq!((n4.key, n4.parent, n4.left, n4.right), (23, Some(3), None, None));
    assert!(t.node(5).is_none());
}

#[test]
fn keyed_tree_empty() {
    let t: ParentalBinarySearchTree<u32, u32> = ParentalBinarySearchTree::new();
    assert_eq!(t.len(), 0);
    assert!(t.trace().is_empty());
    assert_eq!(t.root(), None);
    assert!(t.node(0).is_none());
}

#[test]
fn keyed_tree_first_insert_makes_root() {
    let mut t = ParentalBinarySearchTree::new();
    t.insert(4u32, "four");
    assert_eq!(t.len(), 1);
    assert_eq!(t.root(), Some(0));
    let root = t.node(0).unwrap();
    assert_eq!(root.key, 4);
    assert_eq!(root.value, "four");
    assert_eq!(root.parent, None);
    assert_eq!(root.left, None);
    assert_eq!(root.right, None);
}

#[test]
fn keyed_tree_duplicates_descend_right() {
    let mut t = ParentalBinarySearchTree::new();
    t.insert(5u32, 'a');
    t.insert(5u32, 'b');
    t.insert(5u32, 'c');

    let found = t.trace();
    let entries = found.iter().map(|n| (n.key, n.value)).collect::<Vec<(u32, char)>>();
    assert_eq!(entries, vec![(5, 'a'), (5, 'b'), (5, 'c')]);
    assert_eq!(t.len(), 3);

    let first = t.node(0).unwrap();
    assert_eq!((first.parent, first.left, first.right), (None, None, Some(1)));
    let second = t.node(1).unwrap();
    assert_eq!((second.parent, second.left, second.right), (Some(0), None, Some(2)));
    let third = t.node(2).unwrap();
    assert_eq!((third.parent, third.left, third.right), (Some(1), None, None));
}

#[test]
fn keyed_tree_decreasing_inserts_make_left_spine() {
    let t = keyed(&[5, 4, 3, 2, 1]);
    assert_eq!(keys_of(&t), vec![1, 2, 3, 4, 5]);
    assert_eq!(t.node(0).unwrap().parent, None);
    for id in 1..5usize {
        let node = t.node(id).unwrap();
        assert_eq!(node.parent, Some(id - 1));
        assert_eq!(node.right, None);
        assert_eq!(t.node(id - 1).unwrap().left, Some(id));
        assert_eq!(t.node(id - 1).unwrap().right, None);
    }
    assert_eq!(t.node(4).unwrap().left, None);
}

#[test]
fn keyed_tree_no_replacement_on_equal_key() {
    let mut t = ParentalBinarySearchTree::new();
    t.insert(2u32, "old");
    t.insert(1u32, "one");
    t.insert(2u32, "new");
    let found = t.trace();
    let entries = found.iter().map(|n| (n.key, n.value)).collect::<Vec<(u32, &str)>>();
    assert_eq!(entries, vec![(1, "one"), (2, "old"), (2, "new")]);
}

#[test]
fn keyed_tree_traversal_is_sorted_and_complete() {
    let xs = scrambled(300);
    let t = keyed(&xs);
    let got = keys_of(&t);
    assert_eq!(got.len(), xs.len());
    assert_eq!(t.len(), xs.len());
    for i in 1..got.len() {
        assert!(got[i - 1] <= got[i]);
    }
    let mut sorted = xs.clone();
    sorted.sort();
    assert_eq!(got, sorted);
}

#[test]
fn keyed_tree_length_counts_every_insert() {
    let mut t = ParentalBinarySearchTree::new();
    for (n, k) in scrambled(40).iter().enumerate() {
        assert_eq!(t.len(), n);
        assert_eq!(t.trace().len(), n);
        t.insert(*k, n);
    }
    assert_eq!(t.len(), 40);
}

#[test]
fn keyed_tree_parent_consistency() {
    let xs = scrambled(200);
    let t = keyed(&xs);
    assert_eq!(t.node(0).unwrap().parent, None);
    for id in 1..t.len() {
        let node = t.node(id).unwrap();
        let p = node.parent.unwrap();
        assert!(p < id);
        let parent = t.node(p).unwrap();
        assert!(parent.left == Some(id) || parent.right == Some(id));
        assert!(parent.left != parent.right);
    }
    for id in 0..t.len() {
        let node = t.node(id).unwrap();
        if let Some(l) = node.left {
            assert_eq!(t.node(l).unwrap().parent, Some(id));
        }
        if let Some(r) = node.right {
            assert_eq!(t.node(r).unwrap().parent, Some(id));
        }
    }
}

#[test]
fn keyed_tree_search_order_at_every_node() {
    let xs = scrambled(150);
    let t = keyed(&xs);
    for id in 1..t.len() {
        let key = t.node(id).unwrap().key;
        let mut below = id;
        let mut up = t.node(id).unwrap().parent;
        while let Some(a) = up {
            let ancestor = t.node(a).unwrap();
            if ancestor.left == Some(below) {
                assert!(key < ancestor.key);
            } else {
                assert_eq!(ancestor.right, Some(below));
                assert!(key >= ancestor.key);
            }
            below = a;
            up = ancestor.parent;
        }
        assert_eq!(below, 0);
    }
}

#[test]
fn keyed_tree_insert_keeps_older_parents() {
    let mut t = keyed(&[11, 21, 1]);
    let before = (0..3usize).map(|id| t.node(id).unwrap().parent).collect::<Vec<Option<usize>>>();
    t.insert(22, 22);
    t.insert(0, 0);
    let after = (0..3usize).map(|id| t.node(id).unwrap().parent).collect::<Vec<Option<usize>>>();
    assert_eq!(before, after);
    assert_eq!(t.node(3).unwrap().parent, Some(1));
    assert_eq!(t.node(4).unwrap().parent, Some(2));
}

#[test]
fn keyed_tree_same_inserts_same_traversal() {
    let xs = scrambled(120);
    let a = keyed(&xs);
    let b = keyed(&xs);
    assert_eq!(keys_of(&a), keys_of(&b));
    for id in 0..a.len() {
        let x = a.node(id).unwrap();
        let y = b.node(id).unwrap();
        assert_eq!((x.key, x.value, x.parent, x.left, x.right), (y.key, y.value, y.parent, y.left, y.right));
    }
}

#[test]
fn keyed_tree_drop_frees_every_node_once() {
    let drops = Rc::new(Cell::new(0usize));
    let mut t = ParentalBinarySearchTree::new();
    for k in scrambled(1000) {
        t.insert(k, Counted { drops: drops.clone() });
    }
    assert_eq!(t.len(), 1000);
    assert_eq!(drops.get(), 0);
    drop(t);
    assert_eq!(drops.get(), 1000);
}

#[test]
fn keyed_tree_drop_of_a_spine() {
    let drops = Rc::new(Cell::new(0usize));
    let mut t = ParentalBinarySearchTree::new();
    for k in 0..1000u32 {
        t.insert(1000 - k, Counted { drops: drops.clone() });
    }
    assert_eq!(keys_of(&t).len(), 1000);
    drop(t);
    assert_eq!(drops.get(), 1000);
}
