//! An unbalanced binary search tree of keyed entries in which every node
//! knows its parent. The nodes live in one vector that the tree owns; the
//! links between them, parent links included, are indices into it, so that
//! no link owns a node and the whole tree is freed with the vector.

use crate::borrowed::pointees;
use crate::order::below;
use crate::order::lemma_below_asymmetric;
use crate::order::lemma_below_transitive;
use crate::order::lemma_rank_around;
use crate::order::less;
use crate::order::rank;
use crate::order::sorted;
use crate::order::total_order;
use vstd::prelude::*;

verus! {

/// One node of the tree: an entry and the indices of its neighbours. The
/// index of a node is its handle; nodes are numbered in the order in which
/// they were added.
#[derive(Debug)]
pub struct NodeBody<K, V> {
    pub key: K,
    pub value: V,
    pub parent: Option<usize>,
    pub left: Option<usize>,
    pub right: Option<usize>,
}

/// An ordered multimap from keys to values with parent links.
#[derive(Debug)]
pub struct ParentalBinarySearchTree<K, V> {
    nodes: Vec<NodeBody<K, V>>,
    root: Option<usize>,
    length: usize,
}

/// A node without children.
pub open spec fn leaf<K, V>(parent: Option<usize>, key: K, value: V) -> NodeBody<K, V> {
    NodeBody { key, value, parent, left: None, right: None }
}

/// The index that `link` of node `i` leads to, or -1 if it is absent. A
/// link that does not lead further down the vector counts as absent.
pub open spec fn child<K, V>(a: Seq<NodeBody<K, V>>, i: int, link: Option<usize>) -> int {
    match link {
        Some(c) => if i < c < a.len() {
            c as int
        } else {
            -1
        },
        None => -1,
    }
}

/// The left child of node `i`, or -1.
pub open spec fn left_of<K, V>(a: Seq<NodeBody<K, V>>, i: int) -> int {
    child(a, i, a[i].left)
}

/// The right child of node `i`, or -1.
pub open spec fn right_of<K, V>(a: Seq<NodeBody<K, V>>, i: int) -> int {
    child(a, i, a[i].right)
}

/// The root of the tree in `a`, or -1 if `a` is empty: the first node added.
pub open spec fn top<K, V>(a: Seq<NodeBody<K, V>>) -> int {
    if a.len() == 0 {
        -1
    } else {
        0
    }
}

/// The link that stands for the root of the tree in `a`.
pub open spec fn top_link<K, V>(a: Seq<NodeBody<K, V>>) -> Option<usize> {
    if a.len() == 0 {
        None
    } else {
        Some(0usize)
    }
}

/// How far node `i` is from the end of the vector; 0 for an absent node.
pub open spec fn room<K, V>(a: Seq<NodeBody<K, V>>, i: int) -> nat {
    if 0 <= i < a.len() {
        (a.len() - i) as nat
    } else {
        0
    }
}

/// Node `d` lies in the subtree of node `c`: following parent links from
/// `d` leads to `c`.
pub open spec fn within<K, V>(a: Seq<NodeBody<K, V>>, d: int, c: int) -> bool
    decreases d,
{
    d == c || (0 < d < a.len() && match a[d].parent {
        Some(p) => p < d && within(a, p as int, c),
        None => false,
    })
}

/// The link `link` of node `i` is absent, or leads to a later node whose
/// parent link leads back to `i`.
pub open spec fn child_linked<K, V>(a: Seq<NodeBody<K, V>>, i: int, link: Option<usize>) -> bool {
    match link {
        Some(c) => i < c < a.len() && a[c as int].parent == Some(i as usize),
        None => true,
    }
}

/// The links of node `i` are consistent: each child names `i` as its
/// parent, the two children differ, and the parent is absent exactly for
/// node 0 and else has `i` as one of its children.
pub open spec fn node_linked<K, V>(a: Seq<NodeBody<K, V>>, i: int) -> bool {
    &&& child_linked(a, i, a[i].left)
    &&& child_linked(a, i, a[i].right)
    &&& (a[i].left is Some ==> a[i].left != a[i].right)
    &&& match a[i].parent {
        Some(p) => 0 < i && p < i && (a[p as int].left == Some(i as usize) || a[p as int].right
            == Some(i as usize)),
        None => i == 0,
    }
}

/// Parent consistency: the links of every node are consistent.
pub open spec fn linked<K, V>(a: Seq<NodeBody<K, V>>) -> bool {
    &&& a.len() <= usize::MAX
    &&& forall|i: int| 0 <= i < a.len() ==> #[trigger] node_linked(a, i)
}

/// The nodes of the subtree of node `i` from left to right: left subtree,
/// node, right subtree. Empty for an absent node.
pub open spec fn walk<K, V>(a: Seq<NodeBody<K, V>>, i: int) -> Seq<int>
    decreases room(a, i),
{
    if 0 <= i < a.len() {
        walk(a, left_of(a, i)).push(i) + walk(a, right_of(a, i))
    } else {
        Seq::empty()
    }
}

/// All nodes of the tree in `a` from left to right.
pub open spec fn in_order<K, V>(a: Seq<NodeBody<K, V>>) -> Seq<int> {
    walk(a, top(a))
}

/// The nodes that the indices of `s` name.
pub open spec fn nodes_at<K, V>(a: Seq<NodeBody<K, V>>, s: Seq<int>) -> Seq<NodeBody<K, V>> {
    Seq::new(s.len(), |p: int| a[s[p]])
}

/// The keys of the nodes that the indices of `s` name.
pub open spec fn keys_at<K, V>(a: Seq<NodeBody<K, V>>, s: Seq<int>) -> Seq<K> {
    Seq::new(s.len(), |p: int| a[s[p]].key)
}

/// The entries of the nodes that the indices of `s` name.
pub open spec fn entries_at<K, V>(a: Seq<NodeBody<K, V>>, s: Seq<int>) -> Seq<(K, V)> {
    Seq::new(s.len(), |p: int| (a[s[p]].key, a[s[p]].value))
}

/// The search-tree order in the subtree of node `i`: at every node of it,
/// all keys of the left subtree are strictly less than the node's, and none
/// of the right subtree is.
pub open spec fn ordered<K: Ord, V>(a: Seq<NodeBody<K, V>>, i: int) -> bool
    decreases room(a, i),
{
    if 0 <= i < a.len() {
        &&& ordered(a, left_of(a, i))
        &&& ordered(a, right_of(a, i))
        &&& forall|p: int|
            0 <= p < walk(a, left_of(a, i)).len() ==> below(
                #[trigger] keys_at(a, walk(a, left_of(a, i)))[p],
                a[i].key,
            )
        &&& forall|p: int|
            0 <= p < walk(a, right_of(a, i)).len() ==> !below(
                #[trigger] keys_at(a, walk(a, right_of(a, i)))[p],
                a[i].key,
            )
    } else {
        true
    }
}

/// The link of node `i` that a search for `k` follows: the left one if `k`
/// is strictly less than the node's key, else the right one.
pub open spec fn toward<K: Ord, V>(a: Seq<NodeBody<K, V>>, i: int, k: K) -> Option<usize> {
    if below(k, a[i].key) {
        a[i].left
    } else {
        a[i].right
    }
}

/// The node at which a search for `k` that starts at node `i` leaves the
/// tree: the first node on its way whose link toward `k` is absent.
pub open spec fn landing<K: Ord, V>(a: Seq<NodeBody<K, V>>, i: int, k: K) -> int
    decreases room(a, i),
{
    if 0 <= i < a.len() && child(a, i, toward(a, i, k)) >= 0 {
        landing(a, child(a, i, toward(a, i, k)), k)
    } else {
        i
    }
}

/// Node `t` with its link toward `k` set to `n`.
pub open spec fn adopt<K: Ord, V>(node: NodeBody<K, V>, k: K, n: usize) -> NodeBody<K, V> {
    if below(k, node.key) {
        NodeBody { left: Some(n), ..node }
    } else {
        NodeBody { right: Some(n), ..node }
    }
}

/// The nodes after a new leaf with entry `(k, v)` was hung below node `t`,
/// on the side toward `k`.
pub open spec fn attach<K: Ord, V>(a: Seq<NodeBody<K, V>>, t: int, k: K, v: V) -> Seq<
    NodeBody<K, V>,
> {
    a.update(t, adopt(a[t], k, a.len() as usize)).push(leaf(Some(t as usize), k, v))
}

/// The nodes after the entry `(k, v)` was added to the tree: the first node
/// of an empty tree, and else a leaf where the search for `k` from the root
/// leaves the tree.
pub open spec fn grow<K: Ord, V>(a: Seq<NodeBody<K, V>>, k: K, v: V) -> Seq<NodeBody<K, V>> {
    if a.len() == 0 {
        seq![leaf(None, k, v)]
    } else {
        attach(a, landing(a, 0, k), k, v)
    }
}

/// The nodes form a tree as this library builds it: the links are
/// consistent, the traversal from the root reaches as many nodes as there
/// are, and the keys are in search-tree order.
pub open spec fn sound<K: Ord, V>(a: Seq<NodeBody<K, V>>) -> bool {
    &&& linked(a)
    &&& in_order(a).len() == a.len()
    &&& ordered(a, top(a))
}

/// The nodes after the entries of `es` were added, first to last, to an
/// empty tree.
pub open spec fn build<K: Ord, V>(es: Seq<(K, V)>) -> Seq<NodeBody<K, V>>
    decreases es.len(),
{
    if es.len() == 0 {
        Seq::empty()
    } else {
        grow(build(es.drop_last()), es.last().0, es.last().1)
    }
}

impl<K, V> NodeBody<K, V> {
    /// A node without children.
    fn new(parent: Option<usize>, key: K, value: V) -> (node: NodeBody<K, V>)
        ensures
            node == leaf(parent, key, value),
    {
        NodeBody { key, value, parent, left: None, right: None }
    }
}

impl<K: Ord, V> ParentalBinarySearchTree<K, V> {
    /// The nodes of the tree, by handle.
    pub closed spec fn view(&self) -> Seq<NodeBody<K, V>> {
        self.nodes@
    }

    /// The link to the root that the tree keeps.
    pub closed spec fn spec_root(&self) -> Option<usize> {
        self.root
    }

    /// The length that the tree keeps count of.
    pub closed spec fn spec_len(&self) -> nat {
        self.length as nat
    }

    /// The tree is well formed: the root is the first node added, the counted
    /// length is the number of nodes, and the nodes are sound.
    pub open spec fn wf(&self) -> bool {
        &&& self.spec_root() == top_link(self@)
        &&& self.spec_len() == self@.len()
        &&& sound(self@)
    }

    /// An empty tree.
    pub fn new() -> (tree: Self)
        ensures
            tree.wf(),
            tree@ == Seq::<NodeBody<K, V>>::empty(),
    {
        Self { nodes: Vec::new(), root: None, length: 0 }
    }

    /// The number of entries in the tree.
    pub fn len(&self) -> (n: usize)
        requires
            self.wf(),
        ensures
            n == self@.len(),
    {
        self.length
    }

    /// The handle of the root, if the tree is not empty.
    pub fn root(&self) -> (link: Option<usize>)
        requires
            self.wf(),
        ensures
            link == top_link(self@),
    {
        self.root
    }

    /// The node with handle `id`, if there is one.
    pub fn node(&self, id: usize) -> (found: Option<&NodeBody<K, V>>)
        ensures
            id < self@.len() ==> found == Some(&self@[id as int]),
            id >= self@.len() ==> found is None,
    {
        if id < self.nodes.len() {
            Some(&self.nodes[id])
        } else {
            None
        }
    }

    /// Adds the entry `(k, v)` to the tree. An entry whose key equals one
    /// already there goes to the right of it; no entry is replaced.
    pub fn insert(&mut self, k: K, v: V)
        requires
            total_order::<K>(),
            old(self).wf(),
        ensures
            final(self).wf(),
            final(self)@ == grow(old(self)@, k, v),
            final(self)@.len() == old(self)@.len() + 1,
            in_order(final(self)@) == in_order(old(self)@).insert(
                rank(keys_at(old(self)@, in_order(old(self)@)), k) as int,
                old(self)@.len() as int,
            ),
    {
        match self.root {
            None => {
                self.nodes.push(NodeBody::new(None, k, v));
                self.root = Some(0);
                assert(self@ =~= grow(old(self)@, k, v));
            },
            Some(top) => {
                self.insert_support(top, k, v);
                proof {
                    lemma_landing(old(self)@, 0, k);
                }
            },
        }
        self.length = self.nodes.len();
        proof {
            lemma_grow(old(self)@, k, v);
        }
    }

    /// The nodes of the tree in ascending order of their keys.
    pub fn trace(&self) -> (found: Vec<&NodeBody<K, V>>)
        requires
            self.wf(),
        ensures
            pointees(found@) == nodes_at(self@, in_order(self@)),
            found@.len() == self@.len(),
            total_order::<K>() ==> sorted(keys_at(self@, in_order(self@))),
    {
        let mut found: Vec<&NodeBody<K, V>> = Vec::new();
        match self.root {
            None => {},
            Some(top) => {
                self.trace_support(top, &mut found);
            },
        }
        proof {
            assert(pointees(found@) =~= nodes_at(self@, in_order(self@)));
            if total_order::<K>() {
                lemma_in_order_sorted(self@);
            }
        }
        found
    }

    /// Appends the nodes of the subtree of node `top`, in ascending order of
    /// their keys, to `result`.
    fn trace_support<'a>(&'a self, top: usize, result: &mut Vec<&'a NodeBody<K, V>>)
        requires
            linked(self@),
            top < self@.len(),
        ensures
            pointees(final(result)@) == pointees(old(result)@) + nodes_at(
                self@,
                walk(self@, top as int),
            ),
        decreases self@.len() - top,
    {
        let node = &self.nodes[top];
        let ghost a = self@;
        let ghost wl = walk(a, left_of(a, top as int));
        let ghost wr = walk(a, right_of(a, top as int));
        assert(node_linked(a, top as int));
        if let Some(l) = node.left {
            self.trace_support(l, result);
        }
        assert(pointees(result@) =~= pointees(old(result)@) + nodes_at(a, wl));
        let ghost before = result@;
        result.push(node);
        assert(pointees(result@) =~= pointees(before).push(*node));
        let ghost middle = result@;
        if let Some(r) = node.right {
            self.trace_support(r, result);
        }
        assert(pointees(result@) =~= pointees(middle) + nodes_at(a, wr));
        assert(nodes_at(a, walk(a, top as int)) =~= nodes_at(a, wl).push(*node) + nodes_at(a, wr));
        assert(pointees(result@) =~= pointees(old(result)@) + nodes_at(a, walk(a, top as int)));
    }

    /// The link of node `cur` that a search for `k` follows.
    fn next_link(&self, cur: usize, k: &K) -> (link: Option<usize>)
        requires
            total_order::<K>(),
            cur < self@.len(),
        ensures
            link == toward(self@, cur as int, *k),
    {
        let node = &self.nodes[cur];
        if less(k, &node.key) {
            node.left
        } else {
            node.right
        }
    }

    /// Hangs a new leaf with entry `(k, v)` where the search for `k` from
    /// node `top` leaves the tree.
    fn insert_support(&mut self, top: usize, k: K, v: V)
        requires
            total_order::<K>(),
            linked(old(self)@),
            top < old(self)@.len(),
        ensures
            final(self)@ == attach(old(self)@, landing(old(self)@, top as int, k), k, v),
            final(self).spec_root() == old(self).spec_root(),
            final(self).spec_len() == old(self).spec_len(),
    {
        let n = self.nodes.len();
        let mut cur = top;
        let mut next = self.next_link(cur, &k);
        while next.is_some()
            invariant
                total_order::<K>(),
                *self == *old(self),
                linked(self@),
                n == self@.len(),
                cur < n,
                next == toward(self@, cur as int, k),
                landing(self@, cur as int, k) == landing(self@, top as int, k),
            decreases n - cur,
        {
            assert(node_linked(self@, cur as int));
            cur = next.unwrap();
            next = self.next_link(cur, &k);
        }
        let go_left = less(&k, &self.nodes[cur].key);
        if go_left {
            self.nodes[cur].left = Some(n);
        } else {
            self.nodes[cur].right = Some(n);
        }
        self.nodes.push(NodeBody::new(Some(cur), k, v));
        assert(self@ =~= attach(old(self)@, cur as int, k, v));
    }
}

/// The root of a subtree is the oldest node in it: no node of the subtree
/// has a smaller handle.
pub proof fn lemma_within_lower<K, V>(a: Seq<NodeBody<K, V>>, d: int, c: int)
    requires
        within(a, d, c),
    ensures
        c <= d,
    decreases d,
{
    if d != c {
        lemma_within_lower(a, a[d].parent.unwrap() as int, c);
    }
}

/// A subtree of a subtree is a subtree.
pub proof fn lemma_within_transitive<K, V>(a: Seq<NodeBody<K, V>>, d: int, c: int, b: int)
    requires
        within(a, d, c),
        within(a, c, b),
    ensures
        within(a, d, b),
    decreases d,
{
    if d != c {
        lemma_within_transitive(a, a[d].parent.unwrap() as int, c, b);
    }
}

/// No sharing: the two subtrees of a node have no node in common.
pub proof fn lemma_siblings_apart<K, V>(a: Seq<NodeBody<K, V>>, i: int, d: int)
    requires
        linked(a),
        0 <= i < a.len(),
        left_of(a, i) >= 0,
        right_of(a, i) >= 0,
    ensures
        !(within(a, d, left_of(a, i)) && within(a, d, right_of(a, i))),
    decreases d,
{
    let l = left_of(a, i);
    let r = right_of(a, i);
    assert(node_linked(a, i));
    if within(a, d, l) && within(a, d, r) {
        if d == l {
            lemma_within_lower(a, i, r);
        } else if d == r {
            lemma_within_lower(a, i, l);
        } else {
            lemma_siblings_apart(a, i, a[d].parent.unwrap() as int);
        }
    }
}

/// Where a search leaves the tree: at a node of the subtree it started in,
/// whose link toward the key is absent.
pub proof fn lemma_landing<K: Ord, V>(a: Seq<NodeBody<K, V>>, i: int, k: K)
    requires
        linked(a),
        0 <= i < a.len(),
    ensures
        i <= landing(a, i, k) < a.len(),
        within(a, landing(a, i, k), i),
        toward(a, landing(a, i, k), k) is None,
    decreases room(a, i),
{
    assert(node_linked(a, i));
    let c = child(a, i, toward(a, i, k));
    if c >= 0 {
        lemma_landing(a, c, k);
        assert(within(a, i, i));
        assert(within(a, c, i));
        lemma_within_transitive(a, landing(a, i, k), c, i);
    }
}

/// The traversal of a subtree names nodes of the tree only, none of them
/// before the subtree's root.
pub proof fn lemma_walk_range<K, V>(a: Seq<NodeBody<K, V>>, i: int)
    ensures
        forall|p: int| 0 <= p < walk(a, i).len() ==> i <= #[trigger] walk(a, i)[p] < a.len(),
    decreases room(a, i),
{
    if 0 <= i < a.len() {
        let l = walk(a, left_of(a, i));
        let r = walk(a, right_of(a, i));
        lemma_walk_range(a, left_of(a, i));
        lemma_walk_range(a, right_of(a, i));
        assert forall|p: int| 0 <= p < walk(a, i).len() implies i <= #[trigger] walk(a, i)[p]
            < a.len() by {
            if p < l.len() {
                assert(walk(a, i)[p] == l[p]);
            } else if p > l.len() {
                assert(walk(a, i)[p] == r[p - l.len() - 1]);
            }
        }
    }
}

/// Hanging a leaf below a node changes no parent link of an older node, so
/// the older nodes stay in the subtrees they were in.
pub proof fn lemma_attach_within<K: Ord, V>(
    a: Seq<NodeBody<K, V>>,
    t: int,
    k: K,
    v: V,
    d: int,
    c: int,
)
    requires
        0 <= t < a.len(),
        d < a.len(),
    ensures
        within(attach(a, t, k, v), d, c) == within(a, d, c),
    decreases d,
{
    let b = attach(a, t, k, v);
    if d != c && 0 < d {
        assert(b[d].parent == a[d].parent);
        if let Some(p) = a[d].parent {
            if p < d {
                lemma_attach_within(a, t, k, v, p as int, c);
            }
        }
    }
}

/// Hanging a leaf below a node, on a side where it has no child yet, keeps
/// the links consistent.
pub proof fn lemma_attach_linked<K: Ord, V>(a: Seq<NodeBody<K, V>>, t: int, k: K, v: V)
    requires
        linked(a),
        a.len() < usize::MAX,
        0 <= t < a.len(),
        toward(a, t, k) is None,
    ensures
        linked(attach(a, t, k, v)),
{
    let b = attach(a, t, k, v);
    let n = a.len() as int;
    assert forall|i: int| 0 <= i < b.len() implies #[trigger] node_linked(b, i) by {
        if i < n {
            assert(node_linked(a, i));
            if let Some(p) = a[i].parent {
                assert(node_linked(a, p as int));
            }
            if let Some(c) = a[i].left {
                assert(node_linked(a, c as int));
            }
            if let Some(c) = a[i].right {
                assert(node_linked(a, c as int));
            }
        } else {
            assert(node_linked(a, t));
        }
    }
}

/// Hanging a leaf below node `t` leaves every subtree that does not hold
/// `t` as it was: its traversal, its keys and its order.
pub proof fn lemma_attach_elsewhere<K: Ord, V>(
    a: Seq<NodeBody<K, V>>,
    t: int,
    k: K,
    v: V,
    j: int,
)
    requires
        linked(a),
        0 <= t < a.len(),
        j < a.len(),
        j < 0 || !within(a, t, j),
    ensures
        walk(attach(a, t, k, v), j) == walk(a, j),
        keys_at(attach(a, t, k, v), walk(a, j)) == keys_at(a, walk(a, j)),
        ordered(attach(a, t, k, v), j) == ordered(a, j),
    decreases room(a, j),
{
    let b = attach(a, t, k, v);
    lemma_walk_range(a, j);
    assert(keys_at(b, walk(a, j)) =~= keys_at(a, walk(a, j)));
    if 0 <= j {
        assert(node_linked(a, j));
        assert(within(a, j, j));
        assert(b[j] == a[j]);
        let l = left_of(a, j);
        let r = right_of(a, j);
        assert(left_of(b, j) == l);
        assert(right_of(b, j) == r);
        if l >= 0 {
            assert(within(a, l, j));
            if within(a, t, l) {
                lemma_within_transitive(a, t, l, j);
            }
        }
        if r >= 0 {
            assert(within(a, r, j));
            if within(a, t, r) {
                lemma_within_transitive(a, t, r, j);
            }
        }
        lemma_attach_elsewhere(a, t, k, v, l);
        lemma_attach_elsewhere(a, t, k, v, r);
    }
}

/// The traversal of a subtree after a leaf for `(k, v)` was hung where the
/// search for `k` in that subtree leaves the tree: the new node stands at
/// the rank of `k` among the subtree's keys, every other node where it was,
/// and the subtree is still in search-tree order.
pub proof fn lemma_attach_walk<K: Ord, V>(a: Seq<NodeBody<K, V>>, j: int, k: K, v: V)
    requires
        total_order::<K>(),
        linked(a),
        a.len() < usize::MAX,
        0 <= j < a.len(),
        ordered(a, j),
    ensures
        rank(keys_at(a, walk(a, j)), k) <= walk(a, j).len(),
        walk(attach(a, landing(a, j, k), k, v), j) == walk(a, j).insert(
            rank(keys_at(a, walk(a, j)), k) as int,
            a.len() as int,
        ),
        ordered(attach(a, landing(a, j, k), k, v), j),
    decreases room(a, j),
{
    let t = landing(a, j, k);
    let b = attach(a, t, k, v);
    let n = a.len() as int;
    let x = a[j].key;
    let l = left_of(a, j);
    let r = right_of(a, j);
    let wl = walk(a, l);
    let wr = walk(a, r);
    let kl = keys_at(a, wl);
    let kr = keys_at(a, wr);
    lemma_landing(a, j, k);
    assert(node_linked(a, j));
    assert(within(a, j, j));
    lemma_walk_range(a, l);
    lemma_walk_range(a, r);
    assert(keys_at(a, walk(a, j)) =~= kl.push(x) + kr);
    assert forall|p: int| 0 <= p < kl.len() implies below(#[trigger] kl[p], x) by {}
    lemma_rank_around(kl, x, kr, k);
    assert(walk(b, n) =~= seq![n]) by {
        assert(walk(b, -1) =~= Seq::<int>::empty());
        assert(left_of(b, n) == -1 && right_of(b, n) == -1);
    }
    assert(ordered(b, n)) by {
        assert(walk(b, -1) =~= Seq::<int>::empty());
        assert(left_of(b, n) == -1 && right_of(b, n) == -1);
        assert(ordered(b, -1));
    }
    assert(keys_at(b, seq![n]) =~= seq![k]);
    assert(b[j].key == x);
    if below(k, x) {
        if r >= 0 {
            if within(a, t, r) {
                if l >= 0 {
                    lemma_landing(a, l, k);
                    lemma_siblings_apart(a, j, t);
                } else {
                    lemma_within_lower(a, t, r);
                }
            }
        }
        lemma_attach_elsewhere(a, t, k, v, r);
        assert(right_of(b, j) == r);
        if l >= 0 {
            lemma_attach_walk(a, l, k, v);
            assert(left_of(b, j) == l);
            let pos = rank(kl, k) as int;
            assert(walk(b, l) == wl.insert(pos, n));
            assert(wl.insert(pos, n).push(j) + wr =~= (wl.push(j) + wr).insert(pos, n));
            assert(keys_at(b, walk(b, l)) =~= kl.insert(pos, k));
        } else {
            assert(t == j);
            assert(left_of(b, j) == n);
            assert(wl =~= Seq::<int>::empty());
            assert(seq![n].push(j) + wr =~= (wl.push(j) + wr).insert(0, n));
        }
    } else {
        if l >= 0 {
            if within(a, t, l) {
                if r >= 0 {
                    lemma_landing(a, r, k);
                    lemma_siblings_apart(a, j, t);
                } else {
                    lemma_within_lower(a, t, l);
                }
            }
        }
        lemma_attach_elsewhere(a, t, k, v, l);
        assert(left_of(b, j) == l);
        if r >= 0 {
            lemma_attach_walk(a, r, k, v);
            assert(right_of(b, j) == r);
            let pos = rank(kr, k) as int;
            assert(walk(b, r) == wr.insert(pos, n));
            assert(wl.push(j) + wr.insert(pos, n) =~= (wl.push(j) + wr).insert(
                wl.len() + 1 + pos,
                n,
            ));
            assert(keys_at(b, walk(b, r)) =~= kr.insert(pos, k));
        } else {
            assert(t == j);
            assert(right_of(b, j) == n);
            assert(wr =~= Seq::<int>::empty());
            assert(wl.push(j) + seq![n] =~= (wl.push(j) + wr).insert(wl.len() as int + 1, n));
        }
    }
}

/// Adding an entry to a sound tree gives a sound tree with one node more.
/// The new node stands in the traversal at the rank of its key among the
/// keys, every other node where it was.
pub proof fn lemma_grow<K: Ord, V>(a: Seq<NodeBody<K, V>>, k: K, v: V)
    requires
        total_order::<K>(),
        sound(a),
        a.len() < usize::MAX,
    ensures
        sound(grow(a, k, v)),
        grow(a, k, v).len() == a.len() + 1,
        rank(keys_at(a, in_order(a)), k) <= in_order(a).len(),
        in_order(grow(a, k, v)) == in_order(a).insert(
            rank(keys_at(a, in_order(a)), k) as int,
            a.len() as int,
        ),
        keys_at(grow(a, k, v), in_order(grow(a, k, v))) == keys_at(a, in_order(a)).insert(
            rank(keys_at(a, in_order(a)), k) as int,
            k,
        ),
        entries_at(grow(a, k, v), in_order(grow(a, k, v))) == entries_at(a, in_order(a)).insert(
            rank(keys_at(a, in_order(a)), k) as int,
            (k, v),
        ),
{
    let b = grow(a, k, v);
    lemma_walk_range(a, top(a));
    if a.len() == 0 {
        assert(walk(b, -1) =~= Seq::<int>::empty());
        assert(left_of(b, 0) == -1 && right_of(b, 0) == -1);
        assert(walk(b, 0) =~= seq![0int]);
        assert(ordered(b, -1));
        assert(ordered(b, 0));
        assert(node_linked(b, 0));
        assert(walk(a, -1) =~= Seq::<int>::empty());
        assert(keys_at(a, in_order(a)) =~= Seq::<K>::empty());
        assert(in_order(b) =~= in_order(a).insert(0, 0));
    } else {
        lemma_landing(a, 0, k);
        lemma_attach_linked(a, landing(a, 0, k), k, v);
        lemma_attach_walk(a, 0, k, v);
    }
    let pos = rank(keys_at(a, in_order(a)), k) as int;
    assert(keys_at(b, in_order(b)) =~= keys_at(a, in_order(a)).insert(pos, k));
    assert(entries_at(b, in_order(b)) =~= entries_at(a, in_order(a)).insert(pos, (k, v)));
}

/// Adding an entry changes no key, value or parent link of an older node:
/// the parent of a node is set when the node is made, and stays.
pub proof fn lemma_grow_keeps<K: Ord, V>(a: Seq<NodeBody<K, V>>, k: K, v: V, i: int)
    requires
        linked(a),
        0 <= i < a.len(),
    ensures
        grow(a, k, v)[i].key == a[i].key,
        grow(a, k, v)[i].value == a[i].value,
        grow(a, k, v)[i].parent == a[i].parent,
{
    lemma_landing(a, 0, k);
}

/// In a subtree in search-tree order the keys come in ascending order.
pub proof fn lemma_walk_sorted<K: Ord, V>(a: Seq<NodeBody<K, V>>, i: int)
    requires
        total_order::<K>(),
        ordered(a, i),
    ensures
        sorted(keys_at(a, walk(a, i))),
    decreases room(a, i),
{
    if 0 <= i < a.len() {
        let x = a[i].key;
        let kl = keys_at(a, walk(a, left_of(a, i)));
        let kr = keys_at(a, walk(a, right_of(a, i)));
        let s = keys_at(a, walk(a, i));
        lemma_walk_sorted(a, left_of(a, i));
        lemma_walk_sorted(a, right_of(a, i));
        assert(s =~= kl.push(x) + kr);
        assert forall|p: int, q: int| 0 <= p < q < s.len() implies !below(
            #[trigger] s[q],
            #[trigger] s[p],
        ) by {
            if q < kl.len() {
                assert(s[p] == kl[p] && s[q] == kl[q]);
            } else if q == kl.len() {
                assert(s[p] == kl[p] && s[q] == x);
                lemma_below_asymmetric(kl[p], x);
            } else if p < kl.len() {
                assert(s[p] == kl[p] && s[q] == kr[q - kl.len() - 1]);
                if below(s[q], s[p]) {
                    lemma_below_transitive(s[q], s[p], x);
                }
            } else if p == kl.len() {
                assert(s[p] == x && s[q] == kr[q - kl.len() - 1]);
            } else {
                assert(s[p] == kr[p - kl.len() - 1] && s[q] == kr[q - kl.len() - 1]);
            }
        }
    }
}

/// Sorted traversal: in a sound tree the traversal yields the keys in
/// ascending order.
pub proof fn lemma_in_order_sorted<K: Ord, V>(a: Seq<NodeBody<K, V>>)
    requires
        total_order::<K>(),
        sound(a),
    ensures
        sorted(keys_at(a, in_order(a))),
{
    lemma_walk_sorted(a, top(a));
}

/// Parent consistency: in a sound tree the first node is the root and has
/// no parent; every other node has a parent, an older node, and is one of
/// its parent's two children.
pub proof fn lemma_parent_consistency<K: Ord, V>(a: Seq<NodeBody<K, V>>, i: int)
    requires
        sound(a),
        0 <= i < a.len(),
    ensures
        i == 0 ==> a[i].parent is None,
        i != 0 ==> (a[i].parent matches Some(p) && p < i && (left_of(a, p as int) == i || right_of(
            a,
            p as int,
        ) == i)),
        left_of(a, i) >= 0 ==> (a[left_of(a, i)].parent matches Some(p) && p == i),
        right_of(a, i) >= 0 ==> (a[right_of(a, i)].parent matches Some(p) && p == i),
{
    assert(node_linked(a, i));
}

/// A node other than the root of a subtree lies in the subtree of one of
/// the root's children.
pub proof fn lemma_within_child<K, V>(a: Seq<NodeBody<K, V>>, d: int, c: int)
    requires
        linked(a),
        0 <= c < a.len(),
        within(a, d, c),
        d != c,
    ensures
        (left_of(a, c) >= 0 && within(a, d, left_of(a, c))) || (right_of(a, c) >= 0 && within(
            a,
            d,
            right_of(a, c),
        )),
    decreases d,
{
    let p = a[d].parent.unwrap() as int;
    assert(node_linked(a, d));
    if p == c {
        assert(within(a, d, d));
    } else {
        lemma_within_child(a, p, c);
    }
}

/// The traversal of a subtree reaches every node that lies in it.
pub proof fn lemma_walk_reaches<K, V>(a: Seq<NodeBody<K, V>>, d: int, c: int)
    requires
        linked(a),
        0 <= c < a.len(),
        within(a, d, c),
    ensures
        walk(a, c).contains(d),
    decreases room(a, c),
{
    let wl = walk(a, left_of(a, c));
    let wr = walk(a, right_of(a, c));
    if d == c {
        assert(walk(a, c)[wl.len() as int] == d);
    } else {
        lemma_within_child(a, d, c);
        if left_of(a, c) >= 0 && within(a, d, left_of(a, c)) {
            lemma_walk_reaches(a, d, left_of(a, c));
            let p = choose|p: int| 0 <= p < wl.len() && wl[p] == d;
            assert(walk(a, c)[p] == d);
        } else {
            lemma_walk_reaches(a, d, right_of(a, c));
            let p = choose|p: int| 0 <= p < wr.len() && wr[p] == d;
            assert(walk(a, c)[wl.len() + 1 + p] == d);
        }
    }
}

/// In a sound tree every subtree is in search-tree order.
pub proof fn lemma_ordered_everywhere<K: Ord, V>(a: Seq<NodeBody<K, V>>, i: int)
    requires
        sound(a),
        0 <= i < a.len(),
    ensures
        ordered(a, i),
    decreases i,
{
    assert(node_linked(a, i));
    if i != 0 {
        let p = a[i].parent.unwrap() as int;
        lemma_ordered_everywhere(a, p);
        assert(left_of(a, p) == i || right_of(a, p) == i);
    }
}

/// Search-tree order at every node: in a sound tree, every node in the left
/// subtree of a node has a key strictly less than the node's, and no node
/// in its right subtree has.
pub proof fn lemma_search_order<K: Ord, V>(a: Seq<NodeBody<K, V>>, i: int, d: int)
    requires
        sound(a),
        0 <= i < a.len(),
    ensures
        left_of(a, i) >= 0 && within(a, d, left_of(a, i)) ==> below(a[d].key, a[i].key),
        right_of(a, i) >= 0 && within(a, d, right_of(a, i)) ==> !below(a[d].key, a[i].key),
{
    lemma_ordered_everywhere(a, i);
    let l = left_of(a, i);
    let r = right_of(a, i);
    if l >= 0 && within(a, d, l) {
        lemma_walk_reaches(a, d, l);
        let p = choose|p: int| 0 <= p < walk(a, l).len() && walk(a, l)[p] == d;
        assert(keys_at(a, walk(a, l))[p] == a[d].key);
    }
    if r >= 0 && within(a, d, r) {
        lemma_walk_reaches(a, d, r);
        let p = choose|p: int| 0 <= p < walk(a, r).len() && walk(a, r)[p] == d;
        assert(keys_at(a, walk(a, r))[p] == a[d].key);
    }
}

/// Adding one more entry at the end of `es` is one more insertion.
pub proof fn lemma_build_push<K: Ord, V>(es: Seq<(K, V)>, k: K, v: V)
    ensures
        build(es.push((k, v))) == grow(build(es), k, v),
{
    assert(es.push((k, v)).drop_last() =~= es);
}

/// Sorted traversal and length: whatever entries are added to an empty
/// tree, and in whatever order, the tree is sound, has one node for each
/// entry, and its traversal reaches as many nodes and yields their keys in
/// ascending order.
pub proof fn lemma_build_sound<K: Ord, V>(es: Seq<(K, V)>)
    requires
        total_order::<K>(),
        es.len() <= usize::MAX,
    ensures
        sound(build(es)),
        build(es).len() == es.len(),
        in_order(build(es)).len() == es.len(),
        sorted(keys_at(build(es), in_order(build(es)))),
    decreases es.len(),
{
    if es.len() == 0 {
        let a = build(es);
        assert(walk(a, -1) =~= Seq::<int>::empty());
    } else {
        lemma_build_sound(es.drop_last());
        lemma_grow(build(es.drop_last()), es.last().0, es.last().1);
    }
    lemma_in_order_sorted(build(es));
}

/// The traversal yields exactly the entries that were added, each as often
/// as it was added.
pub proof fn lemma_build_multiset<K: Ord, V>(es: Seq<(K, V)>)
    requires
        total_order::<K>(),
        es.len() <= usize::MAX,
    ensures
        entries_at(build(es), in_order(build(es))).to_multiset() == es.to_multiset(),
    decreases es.len(),
{
    broadcast use vstd::seq_lib::group_to_multiset_ensures;

    if es.len() == 0 {
        assert(walk(build(es), -1) =~= Seq::<int>::empty());
        assert(entries_at(build(es), in_order(build(es))) =~= es);
    } else {
        let before = build(es.drop_last());
        lemma_build_sound(es.drop_last());
        lemma_build_multiset(es.drop_last());
        lemma_grow(before, es.last().0, es.last().1);
        assert(es =~= es.drop_last().push(es.last()));
        assert(es.last() == (es.last().0, es.last().1));
    }
}

/// Two trees that got the same entries in the same order have the same
/// nodes, and so the same traversal.
pub proof fn lemma_same_inserts_same_order<K: Ord, V>(
    a: ParentalBinarySearchTree<K, V>,
    b: ParentalBinarySearchTree<K, V>,
    es: Seq<(K, V)>,
)
    requires
        a@ == build(es),
        b@ == build(es),
    ensures
        nodes_at(a@, in_order(a@)) == nodes_at(b@, in_order(b@)),
        entries_at(a@, in_order(a@)) == entries_at(b@, in_order(b@)),
{
}

} // verus!
