//! The nodes of the tree, the keys that they are stored under, and their hashes.
use vstd::prelude::*;

use crate::hash::{
    binary_hash, hash_binary, hash_leaf, hash_placeholder, leaf_hash, placeholder_hash, HashValue,
};
use crate::nibble::{Nibble, NibblePath};
use crate::reader::Key;

verus! {

/// The version of the state that a node was written at.
pub type Version = u64;

/// Where a node is stored: the version that wrote it, and its path from the root.
pub ghost struct NodeKeyView {
    pub version: Version,
    pub path: Seq<u8>,
}

impl NodeKeyView {
    /// The key of the root of the tree at `version`.
    pub open spec fn root(version: Version) -> Self {
        NodeKeyView { version, path: Seq::empty() }
    }
}

/// The unique key of each node.
#[derive(Debug, Eq, Hash, PartialOrd, Ord)]
pub struct NodeKey {
    pub version: Version,
    pub nibble_path: NibblePath,
}

impl View for NodeKey {
    type V = NodeKeyView;

    open spec fn view(&self) -> NodeKeyView {
        NodeKeyView { version: self.version, path: self.nibble_path@ }
    }
}

impl Clone for NodeKey {
    fn clone(&self) -> (r: Self)
        ensures
            r@ == self@,
    {
        NodeKey { version: self.version, nibble_path: self.nibble_path.clone() }
    }
}

impl PartialEq for NodeKey {
    fn eq(&self, other: &Self) -> (r: bool) {
        self.version == other.version && self.nibble_path == other.nibble_path
    }
}

impl vstd::std_specs::cmp::PartialEqSpecImpl for NodeKey {
    open spec fn obeys_eq_spec() -> bool {
        true
    }

    open spec fn eq_spec(&self, other: &Self) -> bool {
        self@ == other@
    }
}

impl NodeKey {
    /// Creates a new `NodeKey`.
    pub fn new(version: Version, nibble_path: NibblePath) -> (r: Self)
        ensures
            r@ == (NodeKeyView { version, path: nibble_path@ }),
    {
        NodeKey { version, nibble_path }
    }

    /// A shortcut to generate a node key consisting of a version and an empty nibble path.
    pub fn new_empty_path(version: Version) -> (r: Self)
        ensures
            r@ == NodeKeyView::root(version),
    {
        NodeKey { version, nibble_path: NibblePath::new_empty() }
    }

    /// The nibble path.
    pub fn nibble_path(&self) -> (r: &NibblePath)
        ensures
            r@ == self@.path,
    {
        &self.nibble_path
    }

    /// Generates a child node key based on this node key.
    pub fn gen_child_node_key(&self, version: Version, n: Nibble) -> (r: Self)
        requires
            self@.path.len() < 64,
        ensures
            r@ == (NodeKeyView { version, path: self@.path.push(n.value) }),
    {
        let mut nibble_path = self.nibble_path.clone();
        nibble_path.push(n);
        NodeKey { version, nibble_path }
    }

    /// Sets the version to the given version.
    pub fn set_version(&mut self, version: Version)
        ensures
            final(self)@ == (NodeKeyView { version, path: old(self)@.path }),
    {
        self.version = version;
    }
}

/// What a child of an internal node is.
#[derive(Clone, Copy, Debug, PartialEq, Eq, Structural)]
pub enum NodeType {
    Leaf,
    /// An internal node with this many leaves below it.
    Internal { leaf_count: usize },
}

/// What an internal node knows of one of its children.
#[derive(Clone, Copy, Debug, PartialEq, Eq)]
pub struct Child {
    /// The hash value of this child node.
    pub hash: HashValue,
    /// The version of this child node; its nibble path follows from the parent's.
    pub version: Version,
    /// Indicates if the child is a leaf, or holds more leaves below it.
    pub node_type: NodeType,
}

/// The number of leaves at or below a child.
pub open spec fn child_leaf_count(child: Option<Child>) -> usize {
    match child {
        None => 0,
        Some(c) => match c.node_type {
            NodeType::Leaf => 1,
            NodeType::Internal { leaf_count } => leaf_count,
        },
    }
}

/// The number of leaves at or below the first `n` of sixteen children.
pub open spec fn leaf_count_upto(slots: Seq<Option<Child>>, n: nat) -> usize
    decreases n,
{
    if n == 0 {
        0
    } else {
        leaf_count_upto(slots, (n - 1) as nat).wrapping_add(child_leaf_count(slots[n - 1]))
    }
}

/// Whether `slots` are children that an internal node can have: there is at least one, and a
/// leaf is never the only one.
pub open spec fn logical_children(slots: Seq<Option<Child>>) -> bool {
    &&& exists|i: int| 0 <= i < 16 && #[trigger] slots[i] is Some
    &&& forall|i: int|
        0 <= i < 16 && is_leaf_child(#[trigger] slots[i]) ==> exists|j: int|
            0 <= j < 16 && j != i && #[trigger] slots[j] is Some
}

/// Whether there is a child and it is a leaf.
pub open spec fn is_leaf_child(child: Option<Child>) -> bool {
    child is Some && child.unwrap().node_type is Leaf
}

/// Whether none of the `width` children from `start` on exists.
pub open spec fn range_empty(slots: Seq<Option<Child>>, start: int, width: int) -> bool {
    forall|i: int| start <= i < start + width ==> #[trigger] slots[i] is None
}

/// Whether child `i` is a leaf, and the only child among the `width` from `start` on.
pub open spec fn lone_leaf(slots: Seq<Option<Child>>, start: int, width: int, i: int) -> bool {
    &&& start <= i < start + width
    &&& is_leaf_child(slots[i])
    &&& forall|j: int| start <= j < start + width && j != i ==> #[trigger] slots[j] is None
}

/// Whether the `width` children from `start` on are a single leaf.
pub open spec fn has_lone_leaf(slots: Seq<Option<Child>>, start: int, width: int) -> bool {
    exists|i: int| lone_leaf(slots, start, width, i)
}

/// The leaf that is alone among the `width` children from `start` on.
pub open spec fn the_lone_leaf(slots: Seq<Option<Child>>, start: int, width: int) -> int {
    choose|i: int| lone_leaf(slots, start, width, i)
}

/// The root hash of the binary tree over the `width` children from `start` on. An empty subtree
/// has the placeholder as its hash, and one that holds a single leaf has the hash of that leaf.
pub open spec fn merkle_root(slots: Seq<Option<Child>>, start: int, width: int) -> HashValue
    decreases width,
{
    if range_empty(slots, start, width) {
        placeholder_hash()
    } else if width <= 1 {
        slots[start].unwrap().hash
    } else if has_lone_leaf(slots, start, width) {
        slots[the_lone_leaf(slots, start, width)].unwrap().hash
    } else {
        binary_hash(
            merkle_root(slots, start, width / 2),
            merkle_root(slots, start + width / 2, width / 2),
        )
    }
}

/// The way down from the binary node over the `width` children from `start` on towards child
/// `n`: the child that it ends at, and the root hashes of the subtrees beside it, from the top.
///
/// It ends where there is nothing below, at child `n`, or at a leaf that is alone below.
pub open spec fn descend(slots: Seq<Option<Child>>, n: int, start: int, width: int) -> (
    Option<int>,
    Seq<HashValue>,
)
    decreases width,
{
    let half = width / 2;
    let near = if n < start + half {
        start
    } else {
        start + half
    };
    let far = if n < start + half {
        start + half
    } else {
        start
    };
    let beside = seq![merkle_root(slots, far, half)];
    if width <= 1 || range_empty(slots, near, half) {
        (None, beside)
    } else if half == 1 {
        (Some(n), beside)
    } else if has_lone_leaf(slots, near, half) {
        (Some(the_lone_leaf(slots, near, half)), beside)
    } else {
        let below = descend(slots, n, near, half);
        (below.0, beside + below.1)
    }
}

/// What lies in a range of children.
enum Occupancy {
    Empty,
    LoneLeaf(usize),
    Several,
}

/// The children of an internal node, one place for each nibble.
#[derive(Clone, Copy, Debug, PartialEq, Eq)]
pub struct Children {
    pub slots: [Option<Child>; 16],
}

impl View for Children {
    type V = Seq<Option<Child>>;

    open spec fn view(&self) -> Seq<Option<Child>> {
        self.slots@
    }
}

impl Child {
    pub fn new(hash: HashValue, version: Version, node_type: NodeType) -> (r: Self)
        ensures
            r == (Child { hash, version, node_type }),
    {
        Child { hash, version, node_type }
    }

    /// Whether the child is a leaf.
    pub fn is_leaf(&self) -> (r: bool)
        ensures
            r == (self.node_type is Leaf),
    {
        match self.node_type {
            NodeType::Leaf => true,
            NodeType::Internal { .. } => false,
        }
    }

    /// The number of leaves at or below the child.
    pub fn leaf_count(&self) -> (r: usize)
        ensures
            r == child_leaf_count(Some(*self)),
    {
        match self.node_type {
            NodeType::Leaf => 1,
            NodeType::Internal { leaf_count } => leaf_count,
        }
    }
}

impl Children {
    /// No children.
    pub fn new() -> (r: Self)
        ensures
            r@ == Seq::new(16, |i: int| None::<Child>),
    {
        let r = Children { slots: [None; 16] };
        assert(r@ =~= Seq::new(16, |i: int| None::<Child>));
        r
    }

    /// Puts `child` in the place of `nibble`.
    pub fn insert(&mut self, nibble: Nibble, child: Child)
        requires
            nibble.wf(),
        ensures
            final(self)@ == old(self)@.update(nibble.value as int, Some(child)),
    {
        self.slots[nibble.value as usize] = Some(child);
    }
}

/// A node with up to sixteen children.
#[derive(Clone, Copy, Debug, PartialEq, Eq)]
pub struct InternalNode {
    pub children: Children,
}

impl View for InternalNode {
    type V = Seq<Option<Child>>;

    open spec fn view(&self) -> Seq<Option<Child>> {
        self.children@
    }
}

impl InternalNode {
    /// Creates a new internal node.
    pub fn new(children: Children) -> (r: Self)
        requires
            logical_children(children@),
        ensures
            r@ == children@,
    {
        InternalNode { children }
    }

    /// Gets the `n`-th child.
    pub fn child(&self, n: Nibble) -> (r: Option<Child>)
        requires
            n.wf(),
        ensures
            r == self@[n.value as int],
    {
        self.children.slots[n.value as usize]
    }

    /// The number of leaves below the node.
    pub fn leaf_count(&self) -> (r: usize)
        ensures
            r == leaf_count_upto(self@, 16),
    {
        let mut total: usize = 0;
        let mut i: usize = 0;
        while i < 16
            invariant
                i <= 16,
                total == leaf_count_upto(self@, i as nat),
            decreases 16 - i,
        {
            let count: usize = match self.children.slots[i] {
                None => 0,
                Some(child) => child.leaf_count(),
            };
            total = total.wrapping_add(count);
            i += 1;
        }
        total
    }

    /// Tells whether a range of children is empty or holds a single leaf and nothing else.
    fn occupancy(&self, start: usize, width: usize) -> (r: Occupancy)
        requires
            start + width <= 16,
        ensures
            match r {
                Occupancy::Empty => range_empty(self@, start as int, width as int),
                Occupancy::LoneLeaf(i) => lone_leaf(self@, start as int, width as int, i as int),
                Occupancy::Several => !range_empty(self@, start as int, width as int)
                    && !has_lone_leaf(self@, start as int, width as int),
            },
    {
        let mut first: Option<usize> = None;
        let mut several: bool = false;
        let mut i: usize = start;
        while i < start + width
            invariant
                start <= i <= start + width <= 16,
                match first {
                    None => !several && range_empty(self@, start as int, i - start),
                    Some(f) => {
                        &&& start <= f < i
                        &&& self@[f as int] is Some
                        &&& if several {
                            exists|j: int|
                                start <= j < i && j != f && #[trigger] self@[j] is Some
                        } else {
                            forall|j: int|
                                start <= j < i && j != f ==> #[trigger] self@[j] is None
                        }
                    },
                },
            decreases start + width - i,
        {
            if self.children.slots[i].is_some() {
                assert(self@[i as int] is Some);
                if first.is_none() {
                    first = Some(i);
                } else {
                    several = true;
                }
            }
            i += 1;
        }
        match first {
            None => Occupancy::Empty,
            Some(f) => {
                assert(self@[f as int] is Some);
                let leaf: bool = match self.children.slots[f] {
                    None => false,
                    Some(child) => child.is_leaf(),
                };
                if !several && leaf {
                    Occupancy::LoneLeaf(f)
                } else {
                    Occupancy::Several
                }
            },
        }
    }

    /// The root hash of the binary tree over the `width` children from `start` on.
    pub fn merkle_hash(&self, start: usize, width: usize) -> (r: HashValue)
        requires
            width == 1 || width == 2 || width == 4 || width == 8 || width == 16,
            start + width <= 16,
        ensures
            r == merkle_root(self@, start as int, width as int),
        decreases width,
    {
        match self.occupancy(start, width) {
            Occupancy::Empty => hash_placeholder(),
            Occupancy::LoneLeaf(i) => {
                proof {
                    lemma_lone_leaf_unique(self@, start as int, width as int, i as int);
                }
                match self.children.slots[i] {
                    Some(child) => child.hash,
                    None => hash_placeholder(),
                }
            },
            Occupancy::Several => {
                if width == 1 {
                    match self.children.slots[start] {
                        Some(child) => child.hash,
                        None => hash_placeholder(),
                    }
                } else {
                    let half: usize = width / 2;
                    let left: HashValue = self.merkle_hash(start, half);
                    let right: HashValue = self.merkle_hash(start + half, half);
                    hash_binary(left, right)
                }
            },
        }
    }

    /// The hash of the node.
    pub fn hash(&self) -> (r: HashValue)
        ensures
            r == merkle_root(self@, 0, 16),
    {
        self.merkle_hash(0, 16)
    }

    /// Gets the child and its corresponding siblings that are necessary to generate the proof for
    /// the `n`-th child. If it is an existence proof, the returned child must be the `n`-th
    /// child; otherwise, the returned child may be another child: a leaf that is alone in the
    /// subtree where the `n`-th child would be proves that the `n`-th child does not exist.
    pub fn get_child_with_siblings(&self, node_key: &NodeKey, n: Nibble) -> (r: (
        Option<NodeKey>,
        Vec<HashValue>,
    ))
        requires
            n.wf(),
            node_key@.path.len() < 64,
        ensures
            r.1@ == descend(self@, n.value as int, 0, 16).1,
            match descend(self@, n.value as int, 0, 16).0 {
                None => r.0 is None,
                Some(i) => 0 <= i < 16 && self@[i] is Some && r.0 is Some && r.0.unwrap()@ == (
                NodeKeyView {
                    version: self@[i].unwrap().version,
                    path: node_key@.path.push(i as u8),
                }),
            },
    {
        let at: usize = n.value as usize;
        let mut siblings: Vec<HashValue> = Vec::new();
        let mut start: usize = 0;
        let mut width: usize = 16;
        let ghost all = descend(self@, at as int, 0, 16);
        loop
            invariant
                width == 2 || width == 4 || width == 8 || width == 16,
                start <= at < start + width <= 16,
                at == n.value,
                node_key@.path.len() < 64,
                all == descend(self@, at as int, 0, 16),
                all.0 == descend(self@, at as int, start as int, width as int).0,
                all.1 == siblings@ + descend(self@, at as int, start as int, width as int).1,
            decreases width,
        {
            let half: usize = width / 2;
            let in_left: bool = at < start + half;
            let near: usize = if in_left {
                start
            } else {
                start + half
            };
            let far: usize = if in_left {
                start + half
            } else {
                start
            };
            let ghost before = siblings@;
            let ghost below = descend(self@, at as int, start as int, width as int);
            siblings.push(self.merkle_hash(far, half));
            assert(siblings@ =~= before + seq![merkle_root(self@, far as int, half as int)]);
            match self.occupancy(near, half) {
                Occupancy::Empty => {
                    return (None, siblings);
                },
                Occupancy::LoneLeaf(i) => {
                    proof {
                        lemma_lone_leaf_unique(self@, near as int, half as int, i as int);
                    }
                    let version: Version = match self.children.slots[i] {
                        Some(child) => child.version,
                        None => 0,
                    };
                    let nibble = Nibble::new(i as u8);
                    return (Some(node_key.gen_child_node_key(version, nibble)), siblings);
                },
                Occupancy::Several => {
                    if half == 1 {
                        assert(near == at);
                        let version: Version = match self.children.slots[at] {
                            Some(child) => child.version,
                            None => 0,
                        };
                        return (Some(node_key.gen_child_node_key(version, n)), siblings);
                    }
                    let ghost deeper = descend(self@, at as int, near as int, half as int);
                    assert(before + below.1 =~= siblings@ + deeper.1);
                    start = near;
                    width = half;
                },
            }
        }
    }
}

/// A range holds at most one leaf that is alone in it.
pub proof fn lemma_lone_leaf_unique(slots: Seq<Option<Child>>, start: int, width: int, i: int)
    requires
        lone_leaf(slots, start, width, i),
    ensures
        has_lone_leaf(slots, start, width),
        the_lone_leaf(slots, start, width) == i,
        !range_empty(slots, start, width),
{
    let j = the_lone_leaf(slots, start, width);
    assert(lone_leaf(slots, start, width, j));
    assert(slots[i] is Some);
    assert(slots[j] is Some);
}

/// What the way down to a child comes to.
pub proof fn lemma_descend(slots: Seq<Option<Child>>, n: int, start: int, width: int)
    requires
        width == 2 || width == 4 || width == 8 || width == 16,
        start <= n < start + width,
    ensures
        1 <= descend(slots, n, start, width).1.len(),
        width == 2 ==> descend(slots, n, start, width).1.len() <= 1,
        width == 4 ==> descend(slots, n, start, width).1.len() <= 2,
        width == 8 ==> descend(slots, n, start, width).1.len() <= 3,
        width == 16 ==> descend(slots, n, start, width).1.len() <= 4,
        match descend(slots, n, start, width).0 {
            None => slots[n] is None,
            Some(i) => {
                &&& start <= i < start + width
                &&& slots[i] is Some
                &&& i == n || (is_leaf_child(slots[i]) && slots[n] is None)
            },
        },
    decreases width,
{
    let half = width / 2;
    let near = if n < start + half {
        start
    } else {
        start + half
    };
    if range_empty(slots, near, half) {
        assert(slots[n] is None);
    } else if half == 1 {
        assert(near == n);
    } else if has_lone_leaf(slots, near, half) {
        let i = the_lone_leaf(slots, near, half);
        assert(lone_leaf(slots, near, half, i));
    } else {
        lemma_descend(slots, n, near, half);
    }
}

/// A key with the hash of its value, and where the value is to be found.
#[derive(Debug, PartialEq, Eq)]
pub struct LeafNode<K> {
    /// The hashed key associated with this leaf node.
    pub account_key: HashValue,
    /// The hash of the value.
    pub value_hash: HashValue,
    /// The key and the version that the value is stored under.
    pub value_index: (K, Version),
}

impl<K> LeafNode<K> {
    /// Creates a new leaf node.
    pub fn new(account_key: HashValue, value_hash: HashValue, value_index: (K, Version)) -> (r: Self)
        ensures
            r == (LeafNode { account_key, value_hash, value_index }),
    {
        LeafNode { account_key, value_hash, value_index }
    }

    /// The key.
    pub fn account_key(&self) -> (r: HashValue)
        ensures
            r == self.account_key,
    {
        self.account_key
    }

    /// The hash of the value.
    pub fn value_hash(&self) -> (r: HashValue)
        ensures
            r == self.value_hash,
    {
        self.value_hash
    }

    /// Where the value is to be found.
    pub fn value_index(&self) -> (r: &(K, Version))
        ensures
            *r == self.value_index,
    {
        &self.value_index
    }

    /// The hash of the leaf.
    pub fn hash(&self) -> (r: HashValue)
        ensures
            r == leaf_hash(self.account_key, self.value_hash),
    {
        hash_leaf(self.account_key, self.value_hash)
    }
}

/// A copy of where a value is to be found.
pub fn copy_value_index<K: Key>(value_index: &(K, Version)) -> (r: (K, Version))
    ensures
        r == *value_index,
{
    let key = value_index.0.clone();
    proof {
        K::clone_is_faithful(value_index.0, key);
    }
    (key, value_index.1)
}

impl<K: Key> Clone for LeafNode<K> {
    fn clone(&self) -> (r: Self)
        ensures
            r == *self,
    {
        LeafNode {
            account_key: self.account_key,
            value_hash: self.value_hash,
            value_index: copy_value_index(&self.value_index),
        }
    }
}

/// What a node holds.
#[verifier::ext_equal]
pub ghost enum NodeView<K> {
    /// The children of an internal node, one place for each nibble.
    Internal(Seq<Option<Child>>),
    Leaf(LeafNode<K>),
}

impl<K> NodeView<K> {
    /// The hash of the node.
    pub open spec fn hash(self) -> HashValue {
        match self {
            NodeView::Internal(slots) => merkle_root(slots, 0, 16),
            NodeView::Leaf(leaf) => leaf_hash(leaf.account_key, leaf.value_hash),
        }
    }

    /// The number of leaves at or below the node.
    pub open spec fn leaf_count(self) -> usize {
        match self {
            NodeView::Internal(slots) => leaf_count_upto(slots, 16),
            NodeView::Leaf(_) => 1,
        }
    }

    /// What the node is to its parent.
    pub open spec fn node_type(self) -> NodeType {
        match self {
            NodeView::Internal(_) => NodeType::Internal { leaf_count: self.leaf_count() },
            NodeView::Leaf(_) => NodeType::Leaf,
        }
    }
}

/// A node of the tree.
#[derive(Debug, PartialEq, Eq)]
pub enum Node<K> {
    Internal(InternalNode),
    Leaf(LeafNode<K>),
}

impl<K> View for Node<K> {
    type V = NodeView<K>;

    open spec fn view(&self) -> NodeView<K> {
        match *self {
            Node::Internal(node) => NodeView::Internal(node@),
            Node::Leaf(leaf) => NodeView::Leaf(leaf),
        }
    }
}

impl<K: Key> Clone for Node<K> {
    fn clone(&self) -> (r: Self)
        ensures
            r@ == self@,
    {
        match self {
            Node::Internal(node) => Node::Internal(*node),
            Node::Leaf(leaf) => Node::Leaf(leaf.clone()),
        }
    }
}

impl<K> Node<K> {
    /// Creates a leaf node.
    pub fn new_leaf(
        account_key: HashValue,
        value_hash: HashValue,
        value_index: (K, Version),
    ) -> (r: Self)
        ensures
            r@ == NodeView::Leaf(LeafNode { account_key, value_hash, value_index }),
    {
        Node::Leaf(LeafNode::new(account_key, value_hash, value_index))
    }

    /// What the node is to its parent.
    pub fn node_type(&self) -> (r: NodeType)
        ensures
            r == self@.node_type(),
    {
        match self {
            Node::Internal(node) => NodeType::Internal { leaf_count: node.leaf_count() },
            Node::Leaf(_) => NodeType::Leaf,
        }
    }

    /// The number of leaves at or below the node.
    pub fn leaf_count(&self) -> (r: usize)
        ensures
            r == self@.leaf_count(),
    {
        match self {
            Node::Internal(node) => node.leaf_count(),
            Node::Leaf(_) => 1,
        }
    }

    /// The hash of the node.
    pub fn hash(&self) -> (r: HashValue)
        ensures
            r == self@.hash(),
    {
        match self {
            Node::Internal(node) => node.hash(),
            Node::Leaf(leaf) => leaf.hash(),
        }
    }
}

} // verus!
