use search_trees::binary_search_tree::BinarySearchTree;
use std::rc::Rc;

#[derive(Debug)]
struct TestContainer {
    boxer: Box<Test>,
}

#[derive(Debug)]
struct Test {
    value: Option<usize>,
}

#[test]
fn test_box() {
    let mut raw_box = Box::new(Test { value: None });
    raw_box.value.replace(1);

    let mut box_container = TestContainer { boxer: raw_box };
    box_container.boxer.value.replace(3);

    println!("{:?}", box_container);
    assert_eq!(box_container.boxer.value, Some(3));
}

#[test]
fn test_rc() {
    let raw_box = Rc::new(Test { value: None });

    println!("{:?}", raw_box);
    assert_eq!(raw_box.value, None);
    assert_eq!(Rc::strong_count(&raw_box), 1);
}

#[test]
fn value_tree_owns_boxed_values() {
    let mut t = BinarySearchTree::new();
    t.insert(Box::new(3usize));
    t.insert(Box::new(1usize));
    t.insert(Box::new(2usize));
    let got = t.trace().iter().map(|b| ***b).collect::<Vec<usize>>();
    assert_eq!(got, vec![1, 2, 3]);
}
