use search_trees::binary_search_tree::BinarySearchTree;
use search_trees::binary_search_tree::NodeBody;
use search_trees::order::less;

fn values_of(t: &BinarySearchTree<u32>) -> Vec<u32> {
    t.trace().iter().map(|v| **v).collect::<Vec<u32>>()
}

fn tree_of(xs: &[u32]) -> BinarySearchTree<u32> {
    let mut t = BinarySearchTree::new();
    for x in xs {
        t.insert(*x);
    }
    t
}

fn depth(node: Option<&NodeBody<u32>>) -> usize {
    match node {
        None => 0,
        Some(n) => 1 + depth(n.left()).max(depth(n.right())),
    }
}

fn holds_search_order(node: Option<&NodeBody<u32>>, low: Option<u32>, high: Option<u32>) -> bool {
    match node {
        None => true,
        Some(n) => {
            let v = *n.value();
            let above_low = match low {
                Some(l) => v >= l,
                None => true,
            };
            let under_high = match high {
                Some(h) => v < h,
                None => true,
            };
            above_low
                && under_high
                && holds_search_order(n.left(), low, Some(v))
                && holds_search_order(n.right(), Some(v), high)
        }
    }
}

fn scrambled(n: u32) -> Vec<u32> {
    let mut xs = Vec::new();
    let mut x: u32 = 12345;
    for _ in 0..n {
        x = x.wrapping_mul(1103515245).wrapping_add(12345);
        xs.push((x >> 16) % 97);
    }
    xs
}

#[test]
fn binary_search_tree_test_insert() {
    let mut t = BinarySearchTree::new();

    t.insert(11);
    t.insert(21);
    t.insert(1);
    t.insert(22);
    t.insert(23);

    let values = t.trace().iter().map(|n| **n).collect::<Vec<u32>>();
    println!("{:?}", values);
    assert_eq!(values, vec![1, 11, 21, 22, 23]);
    assert_eq!(t.len(), 5);
}

#[test]
fn value_tree_shape_after_five_inserts() {
    let t = tree_of(&[11, 21, 1, 22, 23]);
    let root = t.root().unwrap();
    assert_eq!(*root.value(), 11);

    let left = root.left().unwrap();
    assert_eq!(*left.value(), 1);
    assert!(left.left().is_none());
    assert!(left.right().is_none());

    let right = root.right().unwrap();
    assert_eq!(*right.value(), 21);
    assert!(right.left().is_none());
    let right_right = right.right().unwrap();
    assert_eq!(*right_right.value(), 22);
    assert!(right_right.left().is_none());
    let last = right_right.right().unwrap();
    assert_eq!(*last.value(), 23);
    assert!(last.left().is_none());
    assert!(last.right().is_none());
}

#[test]
fn value_tree_empty() {
    let t: BinarySearchTree<u32> = BinarySearchTree::new();
    assert_eq!(t.len(), 0);
    assert!(t.trace().is_empty());
    assert!(t.root().is_none());
}

#[test]
fn value_tree_single() {
    let t = tree_of(&[7]);
    assert_eq!(t.len(), 1);
    assert_eq!(values_of(&t), vec![7]);
    let root = t.root().unwrap();
    assert_eq!(*root.value(), 7);
    assert!(root.left().is_none());
    assert!(root.right().is_none());
}

#[test]
fn value_tree_duplicates_descend_right() {
    let t = tree_of(&[5, 5, 5]);
    assert_eq!(values_of(&t), vec![5, 5, 5]);
    assert_eq!(t.len(), 3);
    assert_eq!(depth(t.root()), 3);

    let first = t.root().unwrap();
    assert!(first.left().is_none());
    let second = first.right().unwrap();
    assert_eq!(*second.value(), 5);
    assert!(second.left().is_none());
    let third = second.right().unwrap();
    assert_eq!(*third.value(), 5);
    assert!(third.left().is_none());
    assert!(third.right().is_none());
}

#[test]
fn value_tree_decreasing_inserts_make_left_spine() {
    let t = tree_of(&[5, 4, 3, 2, 1]);
    assert_eq!(values_of(&t), vec![1, 2, 3, 4, 5]);
    assert_eq!(depth(t.root()), 5);

    let mut node = t.root();
    let mut expected = 5;
    while let Some(n) = node {
        assert_eq!(*n.value(), expected);
        assert!(n.right().is_none());
        expected -= 1;
        node = n.left();
    }
    assert_eq!(expected, 0);
}

#[test]
fn value_tree_increasing_inserts_make_right_spine() {
    let t = tree_of(&[1, 2, 3, 4]);
    assert_eq!(values_of(&t), vec![1, 2, 3, 4]);
    let mut node = t.root();
    let mut expected = 1;
    while let Some(n) = node {
        assert_eq!(*n.value(), expected);
        assert!(n.left().is_none());
        expected += 1;
        node = n.right();
    }
    assert_eq!(expected, 5);
}

#[test]
fn value_tree_traversal_is_sorted_and_complete() {
    let xs = scrambled(300);
    let t = tree_of(&xs);
    let got = values_of(&t);

    assert_eq!(got.len(), xs.len());
    assert_eq!(t.len(), xs.len());
    for i in 1..got.len() {
        assert!(got[i - 1] <= got[i]);
    }
    let mut sorted = xs.clone();
    sorted.sort();
    assert_eq!(got, sorted);
}

#[test]
fn value_tree_length_counts_every_insert() {
    let mut t = BinarySearchTree::new();
    for (n, x) in scrambled(50).iter().enumerate() {
        assert_eq!(t.len(), n);
        assert_eq!(t.trace().len(), n);
        t.insert(*x);
    }
    assert_eq!(t.len(), 50);
    assert_eq!(t.trace().len(), 50);
}

#[test]
fn value_tree_search_order_at_every_node() {
    let t = tree_of(&scrambled(200));
    assert!(holds_search_order(t.root(), None, None));
    let small = tree_of(&[11, 21, 1, 22, 23, 11, 1]);
    assert!(holds_search_order(small.root(), None, None));
}

#[test]
fn value_tree_same_inserts_same_traversal() {
    let xs = scrambled(120);
    let a = tree_of(&xs);
    let b = tree_of(&xs);
    assert_eq!(values_of(&a), values_of(&b));
}

#[test]
fn value_tree_traversal_is_repeatable() {
    let t = tree_of(&[3, 1, 2, 3, 0]);
    assert_eq!(values_of(&t), values_of(&t));
    assert_eq!(values_of(&t), vec![0, 1, 2, 3, 3]);
}

#[test]
fn value_tree_insert_lands_behind_equals() {
    let mut t = tree_of(&[10, 20, 30]);
    t.insert(20);
    assert_eq!(values_of(&t), vec![10, 20, 20, 30]);
    let second = t.root().unwrap().right().unwrap();
    assert_eq!(*second.value(), 20);
    let third = second.right().unwrap();
    assert_eq!(*third.value(), 30);
    let added = third.left().unwrap();
    assert_eq!(*added.value(), 20);
}

#[test]
fn value_tree_of_strings() {
    let mut t = BinarySearchTree::new();
    for word in ["pear", "apple", "quince", "fig", "apple"] {
        t.insert(String::from(word));
    }
    let got = t.trace().iter().map(|s| s.as_str()).collect::<Vec<&str>>();
    assert_eq!(got, vec!["apple", "apple", "fig", "pear", "quince"]);
    assert_eq!(t.root().unwrap().value().as_str(), "pear");
}

#[test]
fn value_tree_deep_spine() {
    let mut t = BinarySearchTree::new();
    for x in 0..1000u32 {
        t.insert(x);
    }
    assert_eq!(t.len(), 1000);
    let got = values_of(&t);
    assert_eq!(got.len(), 1000);
    for (i, v) in got.iter().enumerate() {
        assert_eq!(*v as usize, i);
    }
}

#[test]
fn less_is_strict() {
    assert!(less(&1u32, &2u32));
    assert!(!less(&2u32, &2u32));
    assert!(!less(&3u32, &2u32));
    assert!(less(&"a", &"b"));
}
