//! An unbalanced binary search tree that stores an ordered multiset of
//! values. Equal values are kept, each new one behind its equals.

use crate::borrowed::pointees;
use crate::order::below;
use crate::order::less;
use crate::order::lemma_below_asymmetric;
use crate::order::lemma_below_transitive;
use crate::order::lemma_rank_around;
use crate::order::lemma_rank_bound;
use crate::order::rank;
use crate::order::sorted;
use crate::order::total_order;
use vstd::prelude::*;

verus! {

/// The mathematical tree that a `BinarySearchTree` stands for.
pub enum Shape<T> {
    Empty,
    Fork(Box<Shape<T>>, T, Box<Shape<T>>),
}

impl<T> Shape<T> {
    /// A tree of one value.
    pub open spec fn leaf(v: T) -> Shape<T> {
        Shape::Fork(Box::new(Shape::Empty), v, Box::new(Shape::Empty))
    }

    /// The number of values in the tree.
    pub open spec fn size(self) -> nat
        decreases self,
    {
        match self {
            Shape::Empty => 0,
            Shape::Fork(l, _, r) => l.size() + 1 + r.size(),
        }
    }

    /// The values from left to right: left subtree, node, right subtree.
    pub open spec fn in_order(self) -> Seq<T>
        decreases self,
    {
        match self {
            Shape::Empty => Seq::empty(),
            Shape::Fork(l, x, r) => l.in_order().push(x) + r.in_order(),
        }
    }
}

impl<T: Ord> Shape<T> {
    /// The tree after `v` was added: the walk from the root goes left where
    /// `v` is strictly less than the node's value and right otherwise, and
    /// `v` becomes a leaf where the walk leaves the tree.
    pub open spec fn insert(self, v: T) -> Shape<T>
        decreases self,
    {
        match self {
            Shape::Empty => Shape::leaf(v),
            Shape::Fork(l, x, r) => if below(v, x) {
                Shape::Fork(Box::new(l.insert(v)), x, r)
            } else {
                Shape::Fork(l, x, Box::new(r.insert(v)))
            },
        }
    }

    /// The search-tree order: at every node, all values of the left subtree
    /// are strictly less than the node's, and none of the right subtree is.
    pub open spec fn ordered(self) -> bool
        decreases self,
    {
        match self {
            Shape::Empty => true,
            Shape::Fork(l, x, r) => {
                &&& l.ordered()
                &&& r.ordered()
                &&& forall|i: int| 0 <= i < l.in_order().len() ==> below(#[trigger] l.in_order()[i], x)
                &&& forall|i: int| 0 <= i < r.in_order().len() ==> !below(#[trigger] r.in_order()[i], x)
            },
        }
    }

    /// The tree that results from adding the values of `xs`, first to last,
    /// to an empty tree.
    pub open spec fn build(xs: Seq<T>) -> Shape<T>
        decreases xs.len(),
    {
        if xs.len() == 0 {
            Shape::Empty
        } else {
            Shape::build(xs.drop_last()).insert(xs.last())
        }
    }
}

/// One node: a value and the two subtrees it owns.
#[derive(Debug)]
pub struct NodeBody<T> {
    value: T,
    left: Option<Box<NodeBody<T>>>,
    right: Option<Box<NodeBody<T>>>,
}

/// An ordered multiset of values.
#[derive(Debug)]
pub struct BinarySearchTree<T> {
    root: Option<Box<NodeBody<T>>>,
    length: usize,
}

impl<T> NodeBody<T> {
    /// The mathematical tree below an optional node.
    pub closed spec fn shape_of(link: Option<Box<NodeBody<T>>>) -> Shape<T>
        decreases link,
    {
        match link {
            None => Shape::Empty,
            Some(node) => Shape::Fork(
                Box::new(Self::shape_of(node.left)),
                node.value,
                Box::new(Self::shape_of(node.right)),
            ),
        }
    }

    /// The mathematical tree rooted at this node.
    pub closed spec fn shape(self) -> Shape<T> {
        Shape::Fork(
            Box::new(Self::shape_of(self.left)),
            self.value,
            Box::new(Self::shape_of(self.right)),
        )
    }

    /// The mathematical tree below an optional borrowed node.
    pub open spec fn shape_at(link: Option<&NodeBody<T>>) -> Shape<T> {
        match link {
            None => Shape::Empty,
            Some(node) => node.shape(),
        }
    }

    /// The value at this node.
    pub fn value(&self) -> (v: &T)
        ensures
            self.shape() matches Shape::Fork(_, x, _) && x == *v,
    {
        &self.value
    }

    /// The root of the left subtree, if there is one.
    pub fn left(&self) -> (child: Option<&NodeBody<T>>)
        ensures
            self.shape() matches Shape::Fork(l, _, _) && *l == Self::shape_at(child),
    {
        Self::borrow_link(&self.left)
    }

    /// The root of the right subtree, if there is one.
    pub fn right(&self) -> (child: Option<&NodeBody<T>>)
        ensures
            self.shape() matches Shape::Fork(_, _, r) && *r == Self::shape_at(child),
    {
        Self::borrow_link(&self.right)
    }

    fn borrow_link(link: &Option<Box<NodeBody<T>>>) -> (node: Option<&NodeBody<T>>)
        ensures
            Self::shape_at(node) == Self::shape_of(*link),
    {
        match link {
            None => None,
            Some(node) => Some(&**node),
        }
    }

    /// A leaf that holds `value`.
    fn new(value: T) -> (link: Option<Box<NodeBody<T>>>)
        ensures
            Self::shape_of(link) == Shape::leaf(value),
    {
        proof {
            reveal_with_fuel(NodeBody::shape_of, 2);
        }
        Some(Box::new(NodeBody { value, left: None, right: None }))
    }
}

impl<T: Ord> BinarySearchTree<T> {
    /// The mathematical tree that this tree stands for.
    pub closed spec fn view(&self) -> Shape<T> {
        NodeBody::shape_of(self.root)
    }

    /// The length that the tree keeps count of.
    pub closed spec fn spec_len(&self) -> nat {
        self.length as nat
    }

    /// The counted length is the number of values, and the values are in
    /// search-tree order.
    pub open spec fn wf(&self) -> bool {
        &&& self.spec_len() == self@.size()
        &&& self@.ordered()
    }

    /// An empty tree.
    pub fn new() -> (tree: Self)
        ensures
            tree.wf(),
            tree@ == Shape::<T>::Empty,
    {
        Self { root: None, length: 0 }
    }

    /// The root node, if the tree is not empty.
    pub fn root(&self) -> (node: Option<&NodeBody<T>>)
        ensures
            NodeBody::shape_at(node) == self@,
    {
        NodeBody::borrow_link(&self.root)
    }

    /// The number of values in the tree.
    pub fn len(&self) -> (n: usize)
        requires
            self.wf(),
        ensures
            n == self@.size(),
    {
        self.length
    }

    /// Adds `v` to the tree. A value equal to one already there goes to the
    /// right of it.
    pub fn insert(&mut self, v: T)
        requires
            total_order::<T>(),
            old(self).wf(),
            old(self)@.size() < usize::MAX,
        ensures
            final(self).wf(),
            final(self)@ == old(self)@.insert(v),
            final(self)@.size() == old(self)@.size() + 1,
            final(self)@.in_order() == old(self)@.in_order().insert(
                rank(old(self)@.in_order(), v) as int,
                v,
            ),
    {
        let root = self.root.take();
        self.length += 1;
        proof {
            lemma_insert_ordered(old(self)@, v);
            lemma_insert_size(old(self)@, v);
            lemma_insert_in_order(old(self)@, v);
        }
        self.root = Self::insert_support(root, v);
    }

    /// Adds `v` below `root` and hands the subtree back.
    fn insert_support(root: Option<Box<NodeBody<T>>>, v: T) -> (grown: Option<Box<NodeBody<T>>>)
        requires
            total_order::<T>(),
        ensures
            NodeBody::shape_of(grown) == NodeBody::shape_of(root).insert(v),
        decreases root,
    {
        match root {
            None => NodeBody::new(v),
            Some(mut node) => {
                if less(&v, &node.value) {
                    let left = node.left.take();
                    node.left = Self::insert_support(left, v);
                } else {
                    let right = node.right.take();
                    node.right = Self::insert_support(right, v);
                }
                Some(node)
            },
        }
    }

    /// The values of the tree in ascending order.
    pub fn trace(&self) -> (values: Vec<&T>)
        ensures
            pointees(values@) == self@.in_order(),
            values@.len() == self@.size(),
            total_order::<T>() && self.wf() ==> sorted(pointees(values@)),
    {
        let mut values: Vec<&T> = Vec::new();
        Self::trace_support(&self.root, &mut values);
        proof {
            assert(pointees(values@) =~= Seq::<T>::empty() + self@.in_order());
            lemma_in_order_len(self@);
            if total_order::<T>() && self.wf() {
                lemma_in_order_sorted(self@);
            }
        }
        values
    }

    /// Appends the values below `root`, in ascending order, to `result`.
    fn trace_support<'a>(root: &'a Option<Box<NodeBody<T>>>, result: &mut Vec<&'a T>)
        ensures
            pointees(final(result)@) == pointees(old(result)@) + NodeBody::shape_of(*root).in_order(),
        decreases *root,
    {
        match root {
            None => {
                assert(pointees(result@) =~= pointees(result@) + Seq::<T>::empty());
            },
            Some(node) => {
                Self::trace_support(&node.left, result);
                let ghost before = result@;
                result.push(&node.value);
                assert(pointees(result@) =~= pointees(before).push(node.value));
                Self::trace_support(&node.right, result);
                assert(NodeBody::shape_of(*root).in_order() == NodeBody::shape_of(
                    node.left,
                ).in_order().push(node.value) + NodeBody::shape_of(node.right).in_order());
                assert(pointees(result@) =~= pointees(old(result)@) + NodeBody::shape_of(
                    *root,
                ).in_order());
            },
        }
    }
}

/// Adding a value adds one to the size.
pub proof fn lemma_insert_size<T: Ord>(t: Shape<T>, v: T)
    ensures
        t.insert(v).size() == t.size() + 1,
    decreases t,
{
    match t {
        Shape::Empty => {},
        Shape::Fork(l, x, r) => {
            if below(v, x) {
                lemma_insert_size(*l, v);
            } else {
                lemma_insert_size(*r, v);
            }
        },
    }
}

/// The traversal yields as many values as the tree holds.
pub proof fn lemma_in_order_len<T>(t: Shape<T>)
    ensures
        t.in_order().len() == t.size(),
    decreases t,
{
    match t {
        Shape::Empty => {},
        Shape::Fork(l, x, r) => {
            lemma_in_order_len(*l);
            lemma_in_order_len(*r);
        },
    }
}

/// Adding `v` puts it into the traversal at its rank and leaves every other
/// value where it was.
pub proof fn lemma_insert_in_order<T: Ord>(t: Shape<T>, v: T)
    requires
        total_order::<T>(),
        t.ordered(),
    ensures
        rank(t.in_order(), v) <= t.in_order().len(),
        t.insert(v).in_order() == t.in_order().insert(rank(t.in_order(), v) as int, v),
    decreases t,
{
    lemma_rank_bound(t.in_order(), v);
    match t {
        Shape::Empty => {
            assert(Shape::leaf(v).in_order() =~= Seq::<T>::empty().insert(0, v));
        },
        Shape::Fork(l, x, r) => {
            let a = l.in_order();
            let b = r.in_order();
            lemma_rank_around(a, x, b, v);
            if below(v, x) {
                lemma_insert_in_order(*l, v);
                assert(a.insert(rank(a, v) as int, v).push(x) + b =~= (a.push(x) + b).insert(
                    rank(a, v) as int,
                    v,
                ));
            } else {
                lemma_insert_in_order(*r, v);
                assert(a.push(x) + b.insert(rank(b, v) as int, v) =~= (a.push(x) + b).insert(
                    (a.len() + 1 + rank(b, v)) as int,
                    v,
                ));
            }
        },
    }
}

/// Adding a value keeps the search-tree order.
pub proof fn lemma_insert_ordered<T: Ord>(t: Shape<T>, v: T)
    requires
        total_order::<T>(),
        t.ordered(),
    ensures
        t.insert(v).ordered(),
    decreases t,
{
    match t {
        Shape::Empty => {
            assert(Shape::leaf(v).ordered());
        },
        Shape::Fork(l, x, r) => {
            if below(v, x) {
                lemma_insert_ordered(*l, v);
                lemma_insert_in_order(*l, v);
                let a = l.in_order();
                let k = rank(a, v) as int;
                let a2 = l.insert(v).in_order();
                assert forall|i: int| 0 <= i < a2.len() implies below(#[trigger] a2[i], x) by {
                    if i < k {
                        assert(a2[i] == a[i]);
                    } else if i > k {
                        assert(a2[i] == a[i - 1]);
                    }
                }
            } else {
                lemma_insert_ordered(*r, v);
                lemma_insert_in_order(*r, v);
                let b = r.in_order();
                let k = rank(b, v) as int;
                let b2 = r.insert(v).in_order();
                assert forall|i: int| 0 <= i < b2.len() implies !below(#[trigger] b2[i], x) by {
                    if i < k {
                        assert(b2[i] == b[i]);
                    } else if i > k {
                        assert(b2[i] == b[i - 1]);
                    }
                }
            }
        },
    }
}

/// In a tree in search-tree order the traversal is sorted.
pub proof fn lemma_in_order_sorted<T: Ord>(t: Shape<T>)
    requires
        total_order::<T>(),
        t.ordered(),
    ensures
        sorted(t.in_order()),
    decreases t,
{
    match t {
        Shape::Empty => {},
        Shape::Fork(l, x, r) => {
            lemma_in_order_sorted(*l);
            lemma_in_order_sorted(*r);
            let a = l.in_order();
            let b = r.in_order();
            let s = t.in_order();
            assert forall|i: int, j: int| 0 <= i < j < s.len() implies !below(
                #[trigger] s[j],
                #[trigger] s[i],
            ) by {
                if j < a.len() {
                    assert(s[i] == a[i] && s[j] == a[j]);
                } else if j == a.len() {
                    assert(s[i] == a[i] && s[j] == x);
                    lemma_below_asymmetric(a[i], x);
                } else if i < a.len() {
                    assert(s[i] == a[i] && s[j] == b[j - a.len() - 1]);
                    if below(s[j], s[i]) {
                        lemma_below_transitive(s[j], s[i], x);
                    }
                } else if i == a.len() {
                    assert(s[i] == x && s[j] == b[j - a.len() - 1]);
                } else {
                    assert(s[i] == b[i - a.len() - 1] && s[j] == b[j - a.len() - 1]);
                }
            }
        },
    }
}

/// Adding one more value at the end of `xs` is one more insertion.
pub proof fn lemma_build_push<T: Ord>(xs: Seq<T>, v: T)
    ensures
        Shape::build(xs.push(v)) == Shape::build(xs).insert(v),
{
    assert(xs.push(v).drop_last() =~= xs);
}

/// Sorted traversal, length and search-tree order: whatever values are
/// added to an empty tree, and in whatever order, the tree is in
/// search-tree order, holds as many values as were added, and its traversal
/// is sorted and as long.
pub proof fn lemma_build_sorted<T: Ord>(xs: Seq<T>)
    requires
        total_order::<T>(),
    ensures
        Shape::build(xs).ordered(),
        Shape::build(xs).size() == xs.len(),
        Shape::build(xs).in_order().len() == xs.len(),
        sorted(Shape::build(xs).in_order()),
    decreases xs.len(),
{
    if xs.len() != 0 {
        let before = Shape::build(xs.drop_last());
        lemma_build_sorted(xs.drop_last());
        lemma_insert_ordered(before, xs.last());
        lemma_insert_size(before, xs.last());
    }
    lemma_in_order_len(Shape::build(xs));
    lemma_in_order_sorted(Shape::build(xs));
}

/// The traversal holds exactly the values that were added, each as often as
/// it was added.
pub proof fn lemma_build_multiset<T: Ord>(xs: Seq<T>)
    requires
        total_order::<T>(),
    ensures
        Shape::build(xs).in_order().to_multiset() == xs.to_multiset(),
    decreases xs.len(),
{
    broadcast use vstd::seq_lib::group_to_multiset_ensures;

    if xs.len() == 0 {
        assert(Shape::build(xs).in_order() =~= xs);
    } else {
        let before = Shape::build(xs.drop_last());
        lemma_build_sorted(xs.drop_last());
        lemma_build_multiset(xs.drop_last());
        lemma_insert_in_order(before, xs.last());
        assert(xs =~= xs.drop_last().push(xs.last()));
    }
}

/// Two trees that got the same values in the same order have the same
/// traversal.
pub proof fn lemma_same_inserts_same_order<T: Ord>(
    a: BinarySearchTree<T>,
    b: BinarySearchTree<T>,
    xs: Seq<T>,
)
    requires
        a@ == Shape::build(xs),
        b@ == Shape::build(xs),
    ensures
        a@.in_order() == b@.in_order(),
{
}

} // verus!
