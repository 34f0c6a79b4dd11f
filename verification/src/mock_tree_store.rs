//! A store in memory.
use vstd::prelude::*;

use crate::batch::{entries_view, Changes, NodeEntry, TreeUpdateBatch};
use crate::batch_laws::{distinct, entry_key};
use crate::hash::HashValue;
use crate::laws::lemma_same_digits;
use crate::lists::{distinct_lists, in_lists, lemma_in_joined, lemma_in_one};
use crate::node_type::{LeafNode, Node, NodeKey, NodeKeyView, NodeView};
use crate::put_laws::{batch_writes, lemma_batch_view};
use crate::reader::{Key, StorageError, TreeReader};
use crate::sorted::{lemma_precedes_transitive, precedes, Digits, Rank};
use crate::update::Store;
use crate::write_laws::commits;

verus! {

/// `nodes` with `entries` put into it, one after the other.
pub open spec fn with_entries<K>(nodes: Store<K>, entries: Seq<NodeEntry<K>>) -> Store<K>
    decreases entries.len(),
{
    if entries.len() == 0 {
        nodes
    } else {
        with_entries(nodes, entries.drop_last()).insert(entries.last().0, entries.last().1)
    }
}

/// `nodes` with the entries of all `lists` put into it, one after the other.
pub open spec fn with_lists<K>(nodes: Store<K>, lists: Seq<Seq<NodeEntry<K>>>) -> Store<K>
    decreases lists.len(),
{
    if lists.len() == 0 {
        nodes
    } else {
        with_entries(with_lists(nodes, lists.drop_last()), lists.last())
    }
}

/// Entries can be put in in two pieces.
proof fn lemma_with_entries_add<K>(
    nodes: Store<K>,
    a: Seq<NodeEntry<K>>,
    b: Seq<NodeEntry<K>>,
)
    ensures
        with_entries(nodes, a + b) == with_entries(with_entries(nodes, a), b),
    decreases b.len(),
{
    if b.len() == 0 {
        assert(a + b =~= a);
    } else {
        lemma_with_entries_add(nodes, a, b.drop_last());
        assert((a + b).drop_last() =~= a + b.drop_last());
    }
}

/// What comes of a key that entries are put in under, and of one that they are not.
proof fn lemma_with_entries<K>(nodes: Store<K>, entries: Seq<NodeEntry<K>>, key: NodeKeyView)
    ensures
        ({
            let after = with_entries(nodes, entries);
            if exists|i: int| 0 <= i < entries.len() && (#[trigger] entries[i]).0 == key {
                after.contains_key(key) && entries.contains((key, after[key]))
            } else {
                &&& after.contains_key(key) == nodes.contains_key(key)
                &&& nodes.contains_key(key) ==> after[key] == nodes[key]
            }
        }),
    decreases entries.len(),
{
    if entries.len() > 0 {
        let rest = entries.drop_last();
        let last = entries.last();
        lemma_with_entries(nodes, rest, key);
        assert(entries[entries.len() - 1] == last);
        if last.0 == key {
            assert(entries.contains((key, last.1)));
        } else if exists|i: int| 0 <= i < entries.len() && (#[trigger] entries[i]).0 == key {
            let i = choose|i: int| 0 <= i < entries.len() && (#[trigger] entries[i]).0 == key;
            assert(rest[i].0 == key);
            let after = with_entries(nodes, rest);
            let j = choose|j: int| 0 <= j < rest.len() && rest[j] == (key, after[key]);
            assert(entries[j] == (key, after[key]));
        } else {
            assert forall|i: int| 0 <= i < rest.len() implies (#[trigger] rest[i]).0 != key by {
                assert(entries[i].0 != key);
            }
        }
    }
}

/// What comes of a key that one of the lists has an entry for, and of one that none has.
proof fn lemma_with_lists<K>(
    nodes: Store<K>,
    lists: Seq<Seq<NodeEntry<K>>>,
    key: NodeKeyView,
)
    ensures
        ({
            let after = with_lists(nodes, lists);
            if exists|node: NodeView<K>| #[trigger] in_lists(lists, (key, node)) {
                after.contains_key(key) && in_lists(lists, (key, after[key]))
            } else {
                &&& after.contains_key(key) == nodes.contains_key(key)
                &&& nodes.contains_key(key) ==> after[key] == nodes[key]
            }
        }),
    decreases lists.len(),
{
    if lists.len() == 0 {
        reveal(in_lists);
    } else {
        let rest = lists.drop_last();
        let last = lists.last();
        lemma_with_lists(nodes, rest, key);
        lemma_with_entries(with_lists(nodes, rest), last, key);
        lemma_in_joined(rest, seq![last]);
        lemma_in_one(last);
        assert(lists =~= rest + seq![last]);
        let after = with_lists(nodes, lists);
        if exists|i: int| 0 <= i < last.len() && (#[trigger] last[i]).0 == key {
            assert(in_lists(lists, (key, after[key])));
        } else {
            assert forall|node: NodeView<K>| #[trigger] in_lists(lists, (key, node)) implies in_lists(
                rest,
                (key, node),
            ) by {
                if last.contains((key, node)) {
                    let i = choose|i: int| 0 <= i < last.len() && last[i] == (key, node);
                    assert(last[i].0 == key);
                }
            }
        }
    }
}

/// Putting in all nodes of changes that write no node twice commits them, and prunes nothing.
pub proof fn lemma_with_lists_commits<K>(before: Store<K>, c: Changes<K>)
    requires
        distinct(c),
    ensures
        commits(before, with_lists(before, c.nodes), c),
        forall|k: NodeKeyView| #[trigger]
            before.contains_key(k) && !c.writes(k) ==> with_lists(before, c.nodes).contains_key(k)
                && with_lists(before, c.nodes)[k] == before[k],
{
    let after = with_lists(before, c.nodes);
    assert forall|e: NodeEntry<K>| #[trigger] c.holds(e) implies after.contains_key(e.0)
        && after[e.0] == e.1 by {
        lemma_with_lists(before, c.nodes, e.0);
        assert(in_lists(c.nodes, (e.0, e.1)));
        let other = (e.0, after[e.0]);
        assert(in_lists(c.nodes, other));
        reveal(in_lists);
        reveal(distinct_lists);
        let (i, j) = choose|i: int, j: int|
            0 <= i < c.nodes.len() && 0 <= j < c.nodes[i].len() && #[trigger] c.nodes[i][j] == e;
        let (a, b) = choose|a: int, b: int|
            0 <= a < c.nodes.len() && 0 <= b < c.nodes[a].len() && #[trigger] c.nodes[a][b]
                == other;
        assert(entry_key::<K>()(c.nodes[i][j]) == entry_key::<K>()(c.nodes[a][b]));
    }
    assert forall|k: NodeKeyView| #[trigger]
        before.contains_key(k) && !c.writes(k) implies after.contains_key(k) && after[k]
        == before[k] by {
        lemma_with_lists(before, c.nodes, k);
        if exists|node: NodeView<K>| #[trigger] in_lists(c.nodes, (k, node)) {
            let node = choose|node: NodeView<K>| #[trigger] in_lists(c.nodes, (k, node));
            assert(c.holds((k, node)));
        }
    }
}

/// What comes of a key when a batch is written.
proof fn lemma_written<K>(before: Store<K>, batch: TreeUpdateBatch<K>, key: NodeKeyView)
    ensures
        ({
            let after = with_lists(before, batch@.nodes);
            if batch_writes(batch, key) {
                after.contains_key(key) && exists|i: int, j: int|
                    0 <= i < batch.node_batch@.len() && 0 <= j < batch.node_batch@[i]@.len() && (
                    #[trigger] batch.node_batch@[i]@[j]).0@ == key && batch.node_batch@[i]@[j].1@
                        == after[key]
            } else {
                &&& after.contains_key(key) == before.contains_key(key)
                &&& before.contains_key(key) ==> after[key] == before[key]
            }
        }),
{
    let after = with_lists(before, batch@.nodes);
    lemma_batch_view(batch);
    lemma_with_lists(before, batch@.nodes, key);
    assert(batch@.writes(key) == batch_writes(batch, key));
    if batch_writes(batch, key) {
        let node = choose|node: NodeView<K>| #[trigger] batch@.holds((key, node));
        assert(in_lists(batch@.nodes, (key, node)));
        assert(batch@.holds((key, after[key])));
    } else if exists|node: NodeView<K>| #[trigger] in_lists(batch@.nodes, (key, node)) {
        let node = choose|node: NodeView<K>| #[trigger] in_lists(batch@.nodes, (key, node));
        assert(batch@.holds((key, node)));
    }
}

/// A store in memory that keeps all that was ever written; of several nodes under one key the last
/// one counts.
pub struct MockTreeStore<K> {
    pub log: Vec<(NodeKey, Node<K>)>,
}

impl<K> MockTreeStore<K> {
    /// The nodes that the store holds.
    pub open spec fn held(self) -> Store<K> {
        with_entries(Map::empty(), entries_view(self.log@))
    }

    /// An empty store.
    pub fn new() -> (r: Self)
        ensures
            r.held() == Map::<NodeKeyView, NodeView<K>>::empty(),
    {
        MockTreeStore { log: Vec::new() }
    }

    /// Writes all nodes of a batch.
    pub fn write_tree_update_batch(&mut self, batch: TreeUpdateBatch<K>)
        ensures
            final(self).held() == with_lists(old(self).held(), batch@.nodes),
            forall|k: NodeKeyView| #[trigger]
                final(self).held().contains_key(k) <==> old(self).held().contains_key(k)
                    || batch_writes(batch, k),
            forall|k: NodeKeyView| #[trigger]
                final(self).held().contains_key(k) ==> if batch_writes(batch, k) {
                    exists|i: int, j: int|
                        0 <= i < batch.node_batch@.len() && 0 <= j < batch.node_batch@[i]@.len() && (
                        #[trigger] batch.node_batch@[i]@[j]).0@ == k && batch.node_batch@[i]@[j].1@
                            == final(self).held()[k]
                } else {
                    final(self).held()[k] == old(self).held()[k]
                },
    {
        let ghost lists = batch@.nodes;
        let ghost before = self.held();
        let mut node_batch = batch.node_batch;
        let ghost all = node_batch@;
        let mut i: usize = 0;
        assert(lists.take(0) =~= Seq::empty());
        while i < node_batch.len()
            invariant
                i <= node_batch@.len() == all.len(),
                lists.len() == all.len(),
                forall|j: int| 0 <= j < all.len() ==> lists[j] == entries_view(#[trigger] all[j]@),
                forall|j: int| i <= j < all.len() ==> node_batch@[j] == #[trigger] all[j],
                self.held() == with_lists(before, lists.take(i as int)),
            decreases node_batch@.len() - i,
        {
            let ghost here = self.log@;
            let mut list: Vec<(NodeKey, Node<K>)> = Vec::new();
            std::mem::swap(&mut list, &mut node_batch[i]);
            let ghost more = list@;
            assert(all[i as int]@ == more);
            self.log.append(&mut list);
            proof {
                assert(entries_view(self.log@) =~= entries_view(here) + entries_view(more));
                lemma_with_entries_add(
                    Map::<NodeKeyView, NodeView<K>>::empty(),
                    entries_view(here),
                    entries_view(more),
                );
                assert(lists.take(i + 1).drop_last() =~= lists.take(i as int));
            }
            i += 1;
        }
        assert(lists.take(i as int) =~= lists);
        proof {
            lemma_batch_view(batch);
            assert forall|k: NodeKeyView| #[trigger] self.held().contains_key(k) <==> before.contains_key(
                k,
            ) || batch_writes(batch, k) by {
                lemma_written(before, batch, k);
            }
            assert forall|k: NodeKeyView| #[trigger] self.held().contains_key(k) implies if batch_writes(
                batch,
                k,
            ) {
                exists|i: int, j: int|
                    0 <= i < batch.node_batch@.len() && 0 <= j < batch.node_batch@[i]@.len() && (
                    #[trigger] batch.node_batch@[i]@[j]).0@ == k && batch.node_batch@[i]@[j].1@
                        == self.held()[k]
            } else {
                self.held()[k] == before[k]
            } by {
                lemma_written(before, batch, k);
            }
        }
    }

    /// Whether the node at place `i` of the log is the last one under its key.
    spec fn is_last(self, i: int) -> bool {
        &&& 0 <= i < self.log@.len()
        &&& forall|j: int| i < j < self.log@.len() ==> (#[trigger] self.log@[j]).0@
            != self.log@[i].0@
    }

    /// The place of the last node under a key.
    fn find(&self, node_key: &NodeKey) -> (r: Option<usize>)
        ensures
            match r {
                Some(i) => self.is_last(i as int) && self.log@[i as int].0@ == node_key@,
                None => forall|j: int|
                    0 <= j < self.log@.len() ==> (#[trigger] self.log@[j]).0@ != node_key@,
            },
    {
        let mut i: usize = self.log.len();
        while i > 0
            invariant
                i <= self.log@.len(),
                forall|j: int| i <= j < self.log@.len() ==> (#[trigger] self.log@[j]).0@ != node_key@,
            decreases i,
        {
            i -= 1;
            let other: &NodeKey = &self.log[i].0;
            if other.version == node_key.version && other.nibble_path.is_same(&node_key.nibble_path) {
                return Some(i);
            }
        }
        None
    }
}

/// The last node under a key is the one that the store holds.
proof fn lemma_held<K>(store: MockTreeStore<K>, key: NodeKeyView)
    ensures
        forall|i: int|
            #![trigger store.log@[i]]
            store.is_last(i) && store.log@[i].0@ == key ==> store.held().contains_key(key)
                && store.held()[key] == store.log@[i].1@,
        store.held().contains_key(key) ==> exists|i: int|
            #![trigger store.log@[i]]
            store.is_last(i) && store.log@[i].0@ == key,
{
    let log = store.log@;
    lemma_held_upto(log, key, log.len() as int);
    assert(log.take(log.len() as int) =~= log);
    if store.held().contains_key(key) {
        let i = choose|i: int|
            #![trigger log[i]]
            0 <= i < log.len() && log[i].0@ == key && (forall|j: int|
                i < j < log.len() ==> (#[trigger] log[j]).0@ != key);
        assert(store.is_last(i));
    }
}

proof fn lemma_held_upto<K>(log: Seq<(NodeKey, Node<K>)>, key: NodeKeyView, n: int)
    requires
        0 <= n <= log.len(),
    ensures
        ({
            let held = with_entries(Map::empty(), entries_view(log.take(n)));
            &&& forall|i: int|
                #![trigger log[i]]
                0 <= i < n && log[i].0@ == key && (forall|j: int|
                    i < j < n ==> (#[trigger] log[j]).0@ != key) ==> held.contains_key(key)
                    && held[key] == log[i].1@
            &&& held.contains_key(key) ==> exists|i: int|
                #![trigger log[i]]
                0 <= i < n && log[i].0@ == key && (forall|j: int|
                    i < j < n ==> (#[trigger] log[j]).0@ != key)
        }),
    decreases n,
{
    let all = entries_view(log.take(n));
    if n > 0 {
        let rest = entries_view(log.take(n - 1));
        lemma_held_upto(log, key, n - 1);
        assert(all.drop_last() =~= rest);
        assert(all.last() == (log[n - 1].0@, log[n - 1].1@));
        let held = with_entries(Map::<NodeKeyView, NodeView<K>>::empty(), all);
        if log[n - 1].0@ != key && held.contains_key(key) {
            let i = choose|i: int|
                #![trigger log[i]]
                0 <= i < n - 1 && log[i].0@ == key && (forall|j: int|
                    i < j < n - 1 ==> (#[trigger] log[j]).0@ != key);
            assert(log[i].0@ == key);
        }
    }
}

impl<K: Key> TreeReader<K> for MockTreeStore<K> {
    open spec fn nodes(&self) -> Store<K> {
        self.held()
    }

    open spec fn may_fail_with(&self, key: NodeKeyView, error: StorageError) -> bool {
        false
    }

    fn get_node_option(&self, node_key: &NodeKey) -> (r: Result<Option<Node<K>>, StorageError>) {
        proof {
            lemma_held(*self, node_key@);
        }
        match self.find(node_key) {
            Some(i) => Ok(Some(self.log[i].1.clone())),
            None => Ok(None),
        }
    }

    fn get_rightmost_leaf(&self) -> (r: Result<Option<(NodeKey, LeafNode<K>)>, StorageError>) {
        let mut best: Option<(usize, &LeafNode<K>)> = None;
        let mut i: usize = 0;
        while i < self.log.len()
            invariant
                i <= self.log@.len(),
                match best {
                    None => forall|j: int|
                        0 <= j < i && #[trigger] self.is_last(j) ==> !(self.log@[j].1@ is Leaf),
                    Some((b, leaf)) => {
                        &&& self.is_last(b as int)
                        &&& self.log@[b as int].1@ == NodeView::Leaf(*leaf)
                        &&& forall|j: int|
                            0 <= j < i && #[trigger] self.is_last(j) && self.log@[j].1@ is Leaf
                                ==> not_after(
                                self.log@[j].1@->Leaf_0.account_key,
                                leaf.account_key,
                            )
                    },
                },
            decreases self.log@.len() - i,
        {
            let ghost best_before = best;
            if let Node::Leaf(leaf) = &self.log[i].1 {
                let last: bool = match self.find(&self.log[i].0) {
                    Some(j) => i == j,
                    None => false,
                };
                proof {
                    if self.is_last(i as int) {
                        assert(self.log@[i as int].0@ == self.log@[i as int].0@);
                        assert(last);
                    }
                }
                if last {
                    best = match best {
                        None => Some((i, leaf)),
                        Some((b, best_leaf)) => match leaf.account_key.rank(&best_leaf.account_key) {
                            Rank::After => {
                                proof {
                                    assert forall|j: int|
                                        0 <= j < i && #[trigger] self.is_last(j)
                                            && self.log@[j].1@ is Leaf implies not_after(
                                        self.log@[j].1@->Leaf_0.account_key,
                                        leaf.account_key,
                                    ) by {
                                        let other = self.log@[j].1@->Leaf_0.account_key;
                                        if other != best_leaf.account_key {
                                            lemma_precedes_transitive(
                                                other.nibbles(),
                                                best_leaf.account_key.nibbles(),
                                                leaf.account_key.nibbles(),
                                            );
                                        }
                                    }
                                }
                                Some((i, leaf))
                            },
                            Rank::Same => {
                                proof {
                                    lemma_same_digits(
                                        leaf.account_key,
                                        best_leaf.account_key,
                                    );
                                }
                                Some((b, best_leaf))
                            },
                            Rank::Before => Some((b, best_leaf)),
                        },
                    };
                }
            }
            i += 1;
        }
        proof {
            assert forall|k: NodeKeyView| #[trigger] self.nodes().contains_key(k) implies exists|j: int|
                #[trigger] self.is_last(j) && self.log@[j].0@ == k && self.log@[j].1@
                    == self.nodes()[k] by {
                lemma_held(*self, k);
                let j = choose|j: int|
                    #![trigger self.log@[j]]
                    self.is_last(j) && self.log@[j].0@ == k;
                assert(self.is_last(j) && self.log@[j].1@ == self.nodes()[k]);
            }
        }
        match best {
            None => Ok(None),
            Some((b, leaf)) => {
                proof {
                    lemma_held(*self, self.log@[b as int].0@);
                    assert(self.log@[b as int].0@ == self.log@[b as int].0@);
                    assert forall|k: NodeKeyView, other: LeafNode<K>|
                        self.nodes().contains_key(k) && #[trigger] self.nodes()[k]
                            == NodeView::Leaf(other) implies other.account_key == leaf.account_key
                        || #[trigger] precedes(
                        other.account_key.nibbles(),
                        leaf.account_key.nibbles(),
                    ) by {
                        let j = choose|j: int| #[trigger]
                            self.is_last(j) && self.log@[j].0@ == k && self.log@[j].1@
                                == self.nodes()[k];
                        assert(not_after(other.account_key, leaf.account_key));
                    }
                }
                Ok(Some((self.log[b].0.clone(), leaf.clone())))
            },
        }
    }
}

/// Whether `a` is `b` or comes before it.
spec fn not_after(a: HashValue, b: HashValue) -> bool {
    a == b || precedes(a.nibbles(), b.nibbles())
}

} // verus!
