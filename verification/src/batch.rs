//! The updates that a write set makes to a tree.
use vstd::prelude::*;

use crate::lists::{
    in_lists, lemma_grow_twice, lemma_in_joined, lemma_in_merged, lemma_in_one, lemma_merged_grow,
    lists_grow, merged,
};
use crate::node_type::{Node, NodeKey, NodeKeyView, NodeView, Version};
use crate::reader::Key;

verus! {

/// Counts of the nodes that an update writes and outdates.
#[derive(Clone, Debug, PartialEq, Eq)]
pub struct NodeStats {
    pub new_nodes: usize,
    pub new_leaves: usize,
    pub stale_nodes: usize,
    pub stale_leaves: usize,
}

impl Default for NodeStats {
    fn default() -> (r: Self)
        ensures
            r == (NodeStats { new_nodes: 0, new_leaves: 0, stale_nodes: 0, stale_leaves: 0 }),
    {
        NodeStats { new_nodes: 0, new_leaves: 0, stale_nodes: 0, stale_leaves: 0 }
    }
}

/// Indicates a node becomes stale since `stale_since_version`.
#[derive(Clone, Debug, Eq, Hash, Ord, PartialEq, PartialOrd)]
pub struct StaleNodeIndex {
    /// The version since when the node is overwritten and becomes stale.
    pub stale_since_version: Version,
    /// The node key identifying the node associated with this record.
    pub node_key: NodeKey,
}

/// What a [`StaleNodeIndex`] says.
pub ghost struct StaleView {
    pub stale_since_version: Version,
    pub node_key: NodeKeyView,
}

impl View for StaleNodeIndex {
    type V = StaleView;

    open spec fn view(&self) -> StaleView {
        StaleView { stale_since_version: self.stale_since_version, node_key: self.node_key@ }
    }
}

/// A node together with the key that it is stored under.
pub type NodeEntry<K> = (NodeKeyView, NodeView<K>);

/// What a [`TreeUpdateBatch`] holds.
#[verifier::ext_equal]
pub ghost struct Changes<K> {
    pub nodes: Seq<Seq<NodeEntry<K>>>,
    pub stale: Seq<Seq<StaleView>>,
    pub new_leaves: nat,
    pub stale_leaves: nat,
}

impl<K> Changes<K> {
    /// No changes, with one list of each kind to put changes in.
    pub open spec fn none() -> Self {
        Changes {
            nodes: seq![Seq::empty()],
            stale: seq![Seq::empty()],
            new_leaves: 0,
            stale_leaves: 0,
        }
    }

    /// Whether there is a list of each kind to put changes in.
    pub open spec fn wf(self) -> bool {
        self.nodes.len() > 0 && self.stale.len() > 0
    }

    /// These changes and the others, each list kept apart.
    pub open spec fn combine(self, other: Self) -> Self {
        Changes {
            nodes: self.nodes + other.nodes,
            stale: self.stale + other.stale,
            new_leaves: self.new_leaves + other.new_leaves,
            stale_leaves: self.stale_leaves + other.stale_leaves,
        }
    }

    /// These changes and the others, the first lists joined into one.
    pub open spec fn absorb(self, other: Self) -> Self {
        Changes {
            nodes: merged(self.nodes, other.nodes),
            stale: merged(self.stale, other.stale),
            new_leaves: self.new_leaves + other.new_leaves,
            stale_leaves: self.stale_leaves + other.stale_leaves,
        }
    }

    /// These changes with `entries` behind the first list of nodes.
    pub open spec fn with_nodes(self, entries: Seq<NodeEntry<K>>) -> Self {
        Changes { nodes: self.nodes.update(0, self.nodes[0] + entries), ..self }
    }

    /// These changes with `indices` behind the first list of stale nodes.
    pub open spec fn with_stale(self, indices: Seq<StaleView>) -> Self {
        Changes { stale: self.stale.update(0, self.stale[0] + indices), ..self }
    }

    /// These changes with this many new leaves more.
    pub open spec fn with_new_leaves(self, n: nat) -> Self {
        Changes { new_leaves: self.new_leaves + n, ..self }
    }

    /// These changes with this many stale leaves more.
    pub open spec fn with_stale_leaves(self, n: nat) -> Self {
        Changes { stale_leaves: self.stale_leaves + n, ..self }
    }

    /// Whether `after` is these changes with more changes behind them.
    pub open spec fn grows_to(self, after: Self) -> bool {
        &&& lists_grow(self.nodes, after.nodes)
        &&& lists_grow(self.stale, after.stale)
        &&& self.new_leaves <= after.new_leaves
        &&& self.stale_leaves <= after.stale_leaves
    }

    /// Whether `entry` is in one of the lists of nodes.
    pub open spec fn holds(self, entry: NodeEntry<K>) -> bool {
        in_lists(self.nodes, entry)
    }

    /// Whether `index` is in one of the lists of stale nodes.
    pub open spec fn lists(self, index: StaleView) -> bool {
        in_lists(self.stale, index)
    }

    /// Whether a node is written under `key`.
    pub open spec fn writes(self, key: NodeKeyView) -> bool {
        exists|node: NodeView<K>| #[trigger] self.holds((key, node))
    }

    /// Whether the node under `key` becomes stale.
    pub open spec fn outdates(self, key: NodeKeyView) -> bool {
        exists|since: Version| #[trigger]
            self.lists(StaleView { stale_since_version: since, node_key: key })
    }
}

/// Changes grow when they absorb others, and so does what has grown to them.
pub proof fn lemma_absorb_grows<K>(a: Changes<K>, b: Changes<K>, c: Changes<K>)
    requires
        a.grows_to(b),
        b.wf(),
        c.wf(),
    ensures
        a.grows_to(b.absorb(c)),
{
    lemma_merged_grow(b.nodes, c.nodes);
    lemma_merged_grow(b.stale, c.stale);
    lemma_grow_twice(a.nodes, b.nodes, b.absorb(c).nodes);
    lemma_grow_twice(a.stale, b.stale, b.absorb(c).stale);
}

/// Changes that grow twice have grown.
pub proof fn lemma_changes_grow_twice<K>(a: Changes<K>, b: Changes<K>, c: Changes<K>)
    requires
        a.grows_to(b),
        b.grows_to(c),
    ensures
        a.grows_to(c),
{
    lemma_grow_twice(a.nodes, b.nodes, c.nodes);
    lemma_grow_twice(a.stale, b.stale, c.stale);
}

/// No changes hold nothing.
pub proof fn lemma_none_holds<K>()
    ensures
        forall|e: NodeEntry<K>| !#[trigger] Changes::<K>::none().holds(e),
        forall|s: StaleView| !#[trigger] Changes::<K>::none().lists(s),
{
    lemma_in_one(Seq::<NodeEntry<K>>::empty());
    lemma_in_one(Seq::<StaleView>::empty());
}

/// Combined changes hold what either holds.
pub proof fn lemma_combine_holds<K>(a: Changes<K>, b: Changes<K>)
    ensures
        forall|e: NodeEntry<K>| #[trigger] a.combine(b).holds(e) <==> a.holds(e) || b.holds(e),
        forall|s: StaleView| #[trigger] a.combine(b).lists(s) <==> a.lists(s) || b.lists(s),
{
    lemma_in_joined(a.nodes, b.nodes);
    lemma_in_joined(a.stale, b.stale);
}

/// Absorbed changes hold what either holds.
pub proof fn lemma_absorb_holds<K>(a: Changes<K>, b: Changes<K>)
    requires
        a.wf(),
        b.wf(),
    ensures
        forall|e: NodeEntry<K>| #[trigger] a.absorb(b).holds(e) <==> a.holds(e) || b.holds(e),
        forall|s: StaleView| #[trigger] a.absorb(b).lists(s) <==> a.lists(s) || b.lists(s),
{
    lemma_in_merged(a.nodes, b.nodes);
    lemma_in_merged(a.stale, b.stale);
}

/// Changes with nodes added hold those nodes too.
pub proof fn lemma_with_nodes_holds<K>(a: Changes<K>, entries: Seq<NodeEntry<K>>)
    requires
        a.wf(),
    ensures
        forall|e: NodeEntry<K>| #[trigger]
            a.with_nodes(entries).holds(e) <==> a.holds(e) || entries.contains(e),
        forall|s: StaleView| #[trigger] a.with_nodes(entries).lists(s) <==> a.lists(s),
{
    lemma_in_merged(a.nodes, seq![entries]);
    lemma_in_one(entries);
    assert(merged(a.nodes, seq![entries]) =~= a.with_nodes(entries).nodes);
}

/// Changes that differ in their counts only hold the same.
pub proof fn lemma_same_lists<K>(a: Changes<K>, b: Changes<K>)
    requires
        a.nodes == b.nodes,
        a.stale == b.stale,
    ensures
        forall|e: NodeEntry<K>| #[trigger] a.holds(e) <==> b.holds(e),
        forall|s: StaleView| #[trigger] a.lists(s) <==> b.lists(s),
{
}

/// Changes can be absorbed one after the other or all at once.
pub proof fn lemma_absorb_associative<K>(a: Changes<K>, b: Changes<K>, c: Changes<K>)
    requires
        a.wf(),
        b.wf(),
        c.wf(),
    ensures
        a.absorb(b).wf(),
        a.absorb(b).absorb(c) == a.absorb(b.absorb(c)),
{
    let left = a.absorb(b).absorb(c);
    let right = a.absorb(b.absorb(c));
    assert(left.nodes[0] =~= right.nodes[0]);
    assert(left.nodes =~= right.nodes);
    assert(left.stale[0] =~= right.stale[0]);
    assert(left.stale =~= right.stale);
}

/// Changes can be combined with others before or after they are absorbed.
pub proof fn lemma_absorb_combine<K>(a: Changes<K>, b: Changes<K>, c: Changes<K>)
    requires
        a.wf(),
        b.wf(),
    ensures
        b.combine(c).wf(),
        a.absorb(b).combine(c) == a.absorb(b.combine(c)),
{
    let left = a.absorb(b).combine(c);
    let right = a.absorb(b.combine(c));
    assert(left.nodes[0] =~= right.nodes[0]);
    assert(left.nodes =~= right.nodes);
    assert(left.stale[0] =~= right.stale[0]);
    assert(left.stale =~= right.stale);
}

/// Changes that are absorbed by no changes stay what they are.
pub proof fn lemma_absorb_none<K>(c: Changes<K>)
    requires
        c.wf(),
    ensures
        Changes::none().absorb(c) == c,
        c.absorb(Changes::none()) == c,
{
    let left = Changes::none().absorb(c);
    assert(left.nodes[0] =~= c.nodes[0]);
    assert(left.nodes =~= c.nodes);
    assert(left.stale[0] =~= c.stale[0]);
    assert(left.stale =~= c.stale);
    let right = c.absorb(Changes::none());
    assert(right.nodes[0] =~= c.nodes[0]);
    assert(right.nodes =~= c.nodes);
    assert(right.stale[0] =~= c.stale[0]);
    assert(right.stale =~= c.stale);
}

/// Adding to changes before or after they are absorbed is the same.
pub proof fn lemma_absorb_with<K>(
    a: Changes<K>,
    b: Changes<K>,
    entries: Seq<NodeEntry<K>>,
    new_leaves: nat,
)
    requires
        a.wf(),
        b.wf(),
    ensures
        a.absorb(b).with_nodes(entries).with_new_leaves(new_leaves) == a.absorb(
            b.with_nodes(entries).with_new_leaves(new_leaves),
        ),
{
    let left = a.absorb(b).with_nodes(entries).with_new_leaves(new_leaves);
    let right = a.absorb(b.with_nodes(entries).with_new_leaves(new_leaves));
    assert(left.nodes[0] =~= right.nodes[0]);
    assert(left.nodes =~= right.nodes);
    assert(left.stale =~= right.stale);
}

/// Nodes can be added in two steps.
pub proof fn lemma_with_nodes<K>(
    a: Changes<K>,
    first: Seq<NodeEntry<K>>,
    first_leaves: nat,
    then: Seq<NodeEntry<K>>,
    then_leaves: nat,
)
    requires
        a.wf(),
    ensures
        a.with_nodes(first).with_new_leaves(first_leaves).with_nodes(then).with_new_leaves(
            then_leaves,
        ) == a.with_nodes(first + then).with_new_leaves(first_leaves + then_leaves),
{
    let left = a.with_nodes(first).with_new_leaves(first_leaves).with_nodes(then).with_new_leaves(
        then_leaves,
    );
    let right = a.with_nodes(first + then).with_new_leaves(first_leaves + then_leaves);
    assert(left.nodes[0] =~= right.nodes[0]);
    assert(left.nodes =~= right.nodes);
}

/// What a list of nodes holds.
pub open spec fn entries_view<K>(entries: Seq<(NodeKey, Node<K>)>) -> Seq<NodeEntry<K>> {
    Seq::new(entries.len(), |i: int| (entries[i].0@, entries[i].1@))
}

/// What a list of stale nodes holds.
pub open spec fn stale_view(indices: Seq<StaleNodeIndex>) -> Seq<StaleView> {
    Seq::new(indices.len(), |i: int| indices[i]@)
}

/// This is a wrapper of a node batch, a batch of stale node indices and some stats of nodes that
/// represents the incremental updates of a tree and pruning indices after applying a write set,
/// which is a vector of `hashed_account_address` and `new_value` pairs.
#[derive(Debug, PartialEq, Eq)]
pub struct TreeUpdateBatch<K> {
    pub node_batch: Vec<Vec<(NodeKey, Node<K>)>>,
    pub stale_node_index_batch: Vec<Vec<StaleNodeIndex>>,
    pub num_new_leaves: usize,
    pub num_stale_leaves: usize,
}

impl<K> View for TreeUpdateBatch<K> {
    type V = Changes<K>;

    open spec fn view(&self) -> Changes<K> {
        Changes {
            nodes: Seq::new(
                self.node_batch@.len(),
                |i: int| entries_view(self.node_batch@[i]@),
            ),
            stale: Seq::new(
                self.stale_node_index_batch@.len(),
                |i: int| stale_view(self.stale_node_index_batch@[i]@),
            ),
            new_leaves: self.num_new_leaves as nat,
            stale_leaves: self.num_stale_leaves as nat,
        }
    }
}

impl<K> Default for TreeUpdateBatch<K> {
    /// A batch without any lists.
    fn default() -> (r: Self)
        ensures
            r@ == (Changes::<K> {
                nodes: Seq::empty(),
                stale: Seq::empty(),
                new_leaves: 0,
                stale_leaves: 0,
            }),
    {
        let r = TreeUpdateBatch {
            node_batch: Vec::new(),
            stale_node_index_batch: Vec::new(),
            num_new_leaves: 0,
            num_stale_leaves: 0,
        };
        assert(r@.nodes =~= Seq::empty());
        assert(r@.stale =~= Seq::empty());
        r
    }
}

impl<K: Key> Clone for TreeUpdateBatch<K> {
    fn clone(&self) -> (r: Self)
        ensures
            r@ == self@,
    {
        let mut node_batch: Vec<Vec<(NodeKey, Node<K>)>> = Vec::new();
        let mut i: usize = 0;
        while i < self.node_batch.len()
            invariant
                i <= self.node_batch@.len(),
                node_batch@.len() == i,
                forall|j: int|
                    0 <= j < i ==> entries_view((#[trigger] node_batch@[j])@) == entries_view(
                        self.node_batch@[j]@,
                    ),
            decreases self.node_batch@.len() - i,
        {
            node_batch.push(copy_entries(&self.node_batch[i]));
            i += 1;
        }
        let mut stale_node_index_batch: Vec<Vec<StaleNodeIndex>> = Vec::new();
        let mut i: usize = 0;
        while i < self.stale_node_index_batch.len()
            invariant
                i <= self.stale_node_index_batch@.len(),
                stale_node_index_batch@.len() == i,
                forall|j: int|
                    0 <= j < i ==> stale_view((#[trigger] stale_node_index_batch@[j])@)
                        == stale_view(self.stale_node_index_batch@[j]@),
            decreases self.stale_node_index_batch@.len() - i,
        {
            stale_node_index_batch.push(copy_indices(&self.stale_node_index_batch[i]));
            i += 1;
        }
        let r = TreeUpdateBatch {
            node_batch,
            stale_node_index_batch,
            num_new_leaves: self.num_new_leaves,
            num_stale_leaves: self.num_stale_leaves,
        };
        assert(r@.nodes =~= self@.nodes);
        assert(r@.stale =~= self@.stale);
        r
    }
}

/// A copy of a list of nodes.
fn copy_entries<K: Key>(entries: &Vec<(NodeKey, Node<K>)>) -> (r: Vec<(NodeKey, Node<K>)>)
    ensures
        entries_view(r@) == entries_view(entries@),
{
    let mut r: Vec<(NodeKey, Node<K>)> = Vec::new();
    let mut i: usize = 0;
    while i < entries.len()
        invariant
            i <= entries@.len(),
            r@.len() == i,
            forall|j: int|
                0 <= j < i ==> (#[trigger] r@[j]).0@ == entries@[j].0@ && r@[j].1@
                    == entries@[j].1@,
        decreases entries@.len() - i,
    {
        r.push((entries[i].0.clone(), entries[i].1.clone()));
        i += 1;
    }
    assert(entries_view(r@) =~= entries_view(entries@));
    r
}

/// A copy of a list of stale nodes.
fn copy_indices(indices: &Vec<StaleNodeIndex>) -> (r: Vec<StaleNodeIndex>)
    ensures
        stale_view(r@) == stale_view(indices@),
{
    let mut r: Vec<StaleNodeIndex> = Vec::new();
    let mut i: usize = 0;
    while i < indices.len()
        invariant
            i <= indices@.len(),
            r@.len() == i,
            forall|j: int| 0 <= j < i ==> (#[trigger] r@[j])@ == indices@[j]@,
        decreases indices@.len() - i,
    {
        r.push(
            StaleNodeIndex {
                stale_since_version: indices[i].stale_since_version,
                node_key: indices[i].node_key.clone(),
            },
        );
        i += 1;
    }
    assert(stale_view(r@) =~= stale_view(indices@));
    r
}

impl<K> TreeUpdateBatch<K> {
    /// A batch with no changes.
    pub fn new() -> (r: Self)
        ensures
            r@ == Changes::<K>::none(),
            r.node_batch@.len() == 1,
            r.node_batch@[0]@.len() == 0,
            r.stale_node_index_batch@.len() == 1,
            r.stale_node_index_batch@[0]@.len() == 0,
            r.num_new_leaves == 0,
            r.num_stale_leaves == 0,
    {
        let nodes: Vec<(NodeKey, Node<K>)> = Vec::new();
        let stale: Vec<StaleNodeIndex> = Vec::new();
        let r = Self {
            node_batch: vec![nodes],
            stale_node_index_batch: vec![stale],
            num_new_leaves: 0,
            num_stale_leaves: 0,
        };
        assert(r@.nodes =~~= Changes::<K>::none().nodes);
        assert(r@.stale =~~= Changes::<K>::none().stale);
        r
    }

    /// Takes over the lists of `other` behind its own.
    pub fn combine(&mut self, other: Self)
        requires
            old(self).num_new_leaves + other.num_new_leaves <= usize::MAX,
            old(self).num_stale_leaves + other.num_stale_leaves <= usize::MAX,
        ensures
            final(self)@ == old(self)@.combine(other@),
            final(self).node_batch@ == old(self).node_batch@ + other.node_batch@,
            final(self).stale_node_index_batch@ == old(self).stale_node_index_batch@
                + other.stale_node_index_batch@,
            final(self).num_new_leaves == old(self).num_new_leaves + other.num_new_leaves,
            final(self).num_stale_leaves == old(self).num_stale_leaves + other.num_stale_leaves,
    {
        let mut node_batch = other.node_batch;
        let mut stale_node_index_batch = other.stale_node_index_batch;
        self.node_batch.append(&mut node_batch);
        self.stale_node_index_batch.append(&mut stale_node_index_batch);
        self.num_new_leaves += other.num_new_leaves;
        self.num_stale_leaves += other.num_stale_leaves;
        assert(self@.nodes =~= old(self)@.combine(other@).nodes);
        assert(self@.stale =~= old(self)@.combine(other@).stale);
    }

    /// Counts one more new leaf.
    pub fn inc_num_new_leaves(&mut self)
        requires
            old(self).num_new_leaves < usize::MAX,
        ensures
            final(self)@ == old(self)@.with_new_leaves(1),
            *final(self) == (TreeUpdateBatch {
                num_new_leaves: (old(self).num_new_leaves + 1) as usize,
                ..*old(self)
            }),
    {
        self.num_new_leaves += 1;
    }

    /// Counts one more stale leaf.
    pub fn inc_num_stale_leaves(&mut self)
        requires
            old(self).num_stale_leaves < usize::MAX,
        ensures
            final(self)@ == old(self)@.with_stale_leaves(1),
            *final(self) == (TreeUpdateBatch {
                num_stale_leaves: (old(self).num_stale_leaves + 1) as usize,
                ..*old(self)
            }),
    {
        self.num_stale_leaves += 1;
    }

    /// Adds a node to the first list of nodes.
    pub fn put_node(&mut self, node_key: NodeKey, node: Node<K>)
        requires
            old(self)@.nodes.len() > 0,
        ensures
            final(self)@ == old(self)@.with_nodes(seq![(node_key@, node@)]),
            final(self).node_batch@.len() == old(self).node_batch@.len(),
            final(self).node_batch@[0]@ == old(self).node_batch@[0]@.push((node_key, node)),
            forall|i: int|
                0 < i < old(self).node_batch@.len() ==> #[trigger] final(self).node_batch@[i]
                    == old(self).node_batch@[i],
            final(self).stale_node_index_batch == old(self).stale_node_index_batch,
            final(self).num_new_leaves == old(self).num_new_leaves,
            final(self).num_stale_leaves == old(self).num_stale_leaves,
    {
        let ghost entry = (node_key@, node@);
        self.node_batch[0].push((node_key, node));
        assert(self@.nodes[0] =~= old(self)@.nodes[0] + seq![entry]);
        assert(self@.nodes =~= old(self)@.with_nodes(seq![entry]).nodes);
    }

    /// Adds a node to the first list of stale nodes.
    pub fn put_stale_node(&mut self, node_key: NodeKey, stale_since_version: Version)
        requires
            old(self)@.stale.len() > 0,
        ensures
            final(self)@ == old(self)@.with_stale(
                seq![StaleView { stale_since_version, node_key: node_key@ }],
            ),
            final(self).stale_node_index_batch@.len() == old(self).stale_node_index_batch@.len(),
            final(self).stale_node_index_batch@[0]@ == old(self).stale_node_index_batch@[0]@.push(
                (StaleNodeIndex { stale_since_version, node_key }),
            ),
            forall|i: int|
                0 < i < old(self).stale_node_index_batch@.len()
                    ==> #[trigger] final(self).stale_node_index_batch@[i]
                    == old(self).stale_node_index_batch@[i],
            final(self).node_batch == old(self).node_batch,
            final(self).num_new_leaves == old(self).num_new_leaves,
            final(self).num_stale_leaves == old(self).num_stale_leaves,
    {
        let ghost index = StaleView { stale_since_version, node_key: node_key@ };
        self.stale_node_index_batch[0].push(StaleNodeIndex { node_key, stale_since_version });
        assert(self@.stale[0] =~= old(self)@.stale[0] + seq![index]);
        assert(self@.stale =~= old(self)@.with_stale(seq![index]).stale);
    }
}

} // verus!
