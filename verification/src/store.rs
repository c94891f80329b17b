//! The flat store: every node of a trie, found by its edge key.
use crate::element::Element;
use crate::key::key_eq;
use crate::node::{Node, NodeView};
use vstd::prelude::*;

verus! {

/// The keys of a list of nodes, in order.
pub open spec fn node_keys<T: Element>(nodes: Seq<Node<T>>) -> Seq<Seq<T>> {
    Seq::new(nodes.len(), |i: int| nodes[i]@.key)
}

/// The map from key to node that a list of nodes stands for.
pub open spec fn node_map<T: Element>(nodes: Seq<Node<T>>) -> Map<Seq<T>, NodeView<T>> {
    Map::new(
        |k: Seq<T>| node_keys(nodes).contains(k),
        |k: Seq<T>| nodes[node_keys(nodes).index_of(k)]@,
    )
}

/// No two nodes share a key, and every node is well formed.
pub open spec fn nodes_wf<T: Element>(nodes: Seq<Node<T>>) -> bool {
    &&& node_keys(nodes).no_duplicates()
    &&& forall|i: int| 0 <= i < nodes.len() ==> (#[trigger] nodes[i]).wf()
}

/// What the map of a well-formed list of nodes holds.
pub proof fn lemma_node_map<T: Element>(nodes: Seq<Node<T>>)
    requires
        nodes_wf(nodes),
    ensures
        node_map(nodes).dom().finite(),
        node_map(nodes).dom().len() == nodes.len(),
        forall|i: int|
            0 <= i < nodes.len() ==> node_map(nodes).contains_key(#[trigger] nodes[i]@.key)
                && node_map(nodes)[nodes[i]@.key] == nodes[i]@,
        forall|k: Seq<T>| #[trigger]
            node_map(nodes).contains_key(k) ==> node_map(nodes)[k].wf() && node_map(nodes)[k].key
                == k,
{
    let keys = node_keys(nodes);
    assert(node_map(nodes).dom() =~= keys.to_set());
    vstd::seq_lib::seq_to_set_is_finite(keys);
    keys.unique_seq_to_set();
    assert forall|i: int| 0 <= i < nodes.len() implies node_map(nodes).contains_key(
        #[trigger] nodes[i]@.key,
    ) && node_map(nodes)[nodes[i]@.key] == nodes[i]@ by {
        assert(keys[i] == nodes[i]@.key);
        assert(keys.index_of(nodes[i]@.key) == i);
    }
    assert forall|k: Seq<T>| #[trigger] node_map(nodes).contains_key(k) implies node_map(
        nodes,
    )[k].wf() && node_map(nodes)[k].key == k by {
        let i = keys.index_of(k);
        assert(keys[i] == k);
        nodes[i].lemma_wf_view();
    }
}

/// Appending a node with a new key adds one entry.
pub proof fn lemma_node_map_push<T: Element>(nodes: Seq<Node<T>>, node: Node<T>)
    requires
        nodes_wf(nodes),
        node.wf(),
        !node_map(nodes).contains_key(node@.key),
    ensures
        nodes_wf(nodes.push(node)),
        node_map(nodes.push(node)) == node_map(nodes).insert(node@.key, node@),
{
    let after = nodes.push(node);
    assert(node_keys(after) =~= node_keys(nodes).push(node@.key));
    assert forall|i: int| 0 <= i < after.len() implies (#[trigger] after[i]).wf() by {
        if i < nodes.len() {
            assert(after[i] == nodes[i]);
        }
    }
    lemma_node_map(nodes);
    lemma_node_map(after);
    assert forall|k: Seq<T>|
        node_map(after).contains_key(k) <==> node_map(nodes).insert(node@.key, node@).contains_key(
            k,
        ) by {
        if node_keys(after).contains(k) {
            let i = node_keys(after).index_of(k);
            if i < nodes.len() {
                assert(node_keys(nodes)[i] == k);
            }
        }
        if node_keys(nodes).contains(k) {
            let i = node_keys(nodes).index_of(k);
            assert(node_keys(after)[i] == k);
        }
        if k == node@.key {
            assert(node_keys(after)[nodes.len() as int] == k);
        }
    }
    assert forall|k: Seq<T>| node_map(after).contains_key(k) implies node_map(after)[k]
        == node_map(nodes).insert(node@.key, node@)[k] by {
        let i = node_keys(after).index_of(k);
        assert(node_keys(after)[i] == k);
        assert(after[i]@.key == k);
        if i < nodes.len() {
            assert(after[i] == nodes[i]);
            assert(nodes[i]@.key == k);
        }
    }
    assert(node_map(after) =~= node_map(nodes).insert(node@.key, node@));
}

/// Replacing a node by one with the same key replaces its entry.
pub proof fn lemma_node_map_update<T: Element>(nodes: Seq<Node<T>>, i: int, node: Node<T>)
    requires
        nodes_wf(nodes),
        0 <= i < nodes.len(),
        node.wf(),
        node@.key == nodes[i]@.key,
    ensures
        nodes_wf(nodes.update(i, node)),
        node_map(nodes.update(i, node)) == node_map(nodes).insert(node@.key, node@),
{
    let after = nodes.update(i, node);
    assert(node_keys(after) =~= node_keys(nodes));
    assert forall|j: int| 0 <= j < after.len() implies (#[trigger] after[j]).wf() by {
        if j != i {
            assert(after[j] == nodes[j]);
        }
    }
    lemma_node_map(nodes);
    lemma_node_map(after);
    assert forall|k: Seq<T>| node_map(after).contains_key(k) implies node_map(after)[k]
        == node_map(nodes).insert(node@.key, node@)[k] by {
        let j = node_keys(after).index_of(k);
        assert(node_keys(after)[j] == k);
        assert(after[j]@.key == k);
        assert(nodes[j]@.key == k);
        if j != i {
            assert(after[j] == nodes[j]);
            assert(node_keys(nodes)[i] == node@.key);
        }
    }
    assert(node_keys(nodes)[i] == node@.key);
    assert(node_map(after) =~= node_map(nodes).insert(node@.key, node@));
}

/// Taking a node out takes its entry out.
pub proof fn lemma_node_map_remove<T: Element>(nodes: Seq<Node<T>>, i: int)
    requires
        nodes_wf(nodes),
        0 <= i < nodes.len(),
    ensures
        nodes_wf(nodes.remove(i)),
        node_map(nodes.remove(i)) == node_map(nodes).remove(nodes[i]@.key),
{
    let after = nodes.remove(i);
    let gone = nodes[i]@.key;
    assert(node_keys(after) =~= node_keys(nodes).remove(i));
    assert forall|p: int, q: int|
        0 <= p < after.len() && 0 <= q < after.len() && p != q implies node_keys(after)[p]
        != node_keys(after)[q] by {
        let from_p = if p < i { p } else { p + 1 };
        let from_q = if q < i { q } else { q + 1 };
        assert(node_keys(after)[p] == node_keys(nodes)[from_p]);
        assert(node_keys(after)[q] == node_keys(nodes)[from_q]);
    }
    assert forall|j: int| 0 <= j < after.len() implies (#[trigger] after[j]).wf() by {
        let from_j = if j < i { j } else { j + 1 };
        assert(after[j] == nodes[from_j]);
    }
    lemma_node_map(nodes);
    lemma_node_map(after);
    assert forall|k: Seq<T>|
        node_map(after).contains_key(k) <==> node_map(nodes).remove(gone).contains_key(k) by {
        if node_keys(after).contains(k) {
            let j = node_keys(after).index_of(k);
            let from_j = if j < i { j } else { j + 1 };
            assert(node_keys(after)[j] == node_keys(nodes)[from_j]);
            assert(node_keys(nodes)[i] == gone);
        }
        if node_keys(nodes).contains(k) && k != gone {
            let j = node_keys(nodes).index_of(k);
            assert(node_keys(nodes)[j] == k);
            let to_j = if j < i { j } else { j - 1 };
            assert(node_keys(after)[to_j] == k);
        }
    }
    assert forall|k: Seq<T>| node_map(after).contains_key(k) implies node_map(after)[k]
        == node_map(nodes).remove(gone)[k] by {
        let j = node_keys(after).index_of(k);
        assert(node_keys(after)[j] == k);
        let from_j = if j < i { j } else { j + 1 };
        assert(after[j] == nodes[from_j]);
        assert(nodes[from_j]@.key == k);
    }
    assert(node_map(after) =~= node_map(nodes).remove(gone));
}

/// A map from edge key to node.
#[derive(Debug, Clone)]
pub struct FlatStore<T: Element> {
    pub(crate) nodes: Vec<Node<T>>,
}

impl<T: Element> View for FlatStore<T> {
    type V = Map<Seq<T>, NodeView<T>>;

    closed spec fn view(&self) -> Map<Seq<T>, NodeView<T>> {
        node_map(self.nodes@)
    }
}

impl<T: Element> FlatStore<T> {
    /// No key occurs twice among the nodes held.
    pub closed spec fn inv(&self) -> bool {
        nodes_wf(self.nodes@)
    }

    /// The store holds finitely many nodes, each well formed and filed under
    /// its own key.
    pub open spec fn wf(&self) -> bool {
        &&& self.inv()
        &&& self@.dom().finite()
        &&& self@.dom().len() <= usize::MAX
        &&& forall|k: Seq<T>| #[trigger]
            self@.contains_key(k) ==> self@[k].wf() && self@[k].key == k
    }

    /// An empty store.
    pub fn new() -> (store: Self)
        ensures
            store.wf(),
            store@ == Map::<Seq<T>, NodeView<T>>::empty(),
    {
        let store = FlatStore { nodes: Vec::new() };
        proof {
            lemma_node_map(store.nodes@);
            assert(store@ =~= Map::<Seq<T>, NodeView<T>>::empty());
        }
        store
    }

    /// The number of nodes held.
    pub fn len(&self) -> (n: usize)
        requires
            self.wf(),
        ensures
            n == self@.dom().len(),
    {
        proof {
            lemma_node_map(self.nodes@);
        }
        self.nodes.len()
    }

    fn position(&self, key: &[T]) -> (r: Option<usize>)
        requires
            self.wf(),
        ensures
            match r {
                Some(i) => i < self.nodes@.len() && self.nodes@[i as int]@.key == key@
                    && self@.contains_key(key@) && self@[key@] == self.nodes@[i as int]@
                    && self.nodes@[i as int].wf(),
                None => !self@.contains_key(key@),
            },
    {
        proof {
            lemma_node_map(self.nodes@);
        }
        let mut i: usize = 0;
        while i < self.nodes.len()
            invariant
                0 <= i <= self.nodes@.len(),
                self.inv(),
                forall|j: int| 0 <= j < i ==> node_keys(self.nodes@)[j] != key@,
            decreases self.nodes@.len() - i,
        {
            if key_eq(self.nodes[i].key(), key) {
                proof {
                    lemma_node_map(self.nodes@);
                }
                return Some(i);
            }
            i += 1;
        }
        None
    }

    /// Whether a node is filed under `key`.
    pub fn contains_key(&self, key: &[T]) -> (r: bool)
        requires
            self.wf(),
        ensures
            r == self@.contains_key(key@),
    {
        self.position(key).is_some()
    }

    /// The node filed under `key`.
    pub fn get(&self, key: &[T]) -> (r: Option<&Node<T>>)
        requires
            self.wf(),
        ensures
            r.is_some() == self@.contains_key(key@),
            r matches Some(node) ==> node@ == self@[key@] && node.wf(),
    {
        match self.position(key) {
            Some(i) => Some(&self.nodes[i]),
            None => None,
        }
    }

    /// The node filed under `key`, to be changed in place. The store stays
    /// well formed as long as the node does and keeps its key.
    pub fn get_mut(&mut self, key: &[T]) -> (r: Option<&mut Node<T>>)
        requires
            old(self).wf(),
        ensures
            r.is_some() == old(self)@.contains_key(key@),
            match r {
                Some(node) => {
                    &&& node@ == old(self)@[key@]
                    &&& node.wf()
                    &&& final(node).wf() && final(node)@.key == key@ ==> final(self).wf()
                        && final(self)@ == old(self)@.insert(key@, final(node)@)
                },
                None => *final(self) == *old(self),
            },
    {
        match self.position(key) {
            Some(i) => {
                proof {
                    let nodes = self.nodes@;
                    assert forall|n: Node<T>| n.wf() && n@.key == key@ implies nodes_wf(
                        #[trigger] nodes.update(i as int, n),
                    ) && node_map(nodes.update(i as int, n)) == node_map(nodes).insert(key@, n@)
                        && node_map(nodes.update(i as int, n)).dom().finite() && node_map(
                        nodes.update(i as int, n),
                    ).dom().len() == nodes.len() && (forall|k: Seq<T>| #[trigger]
                        node_map(nodes.update(i as int, n)).contains_key(k) ==> node_map(
                            nodes.update(i as int, n),
                        )[k].wf() && node_map(nodes.update(i as int, n))[k].key == k) by {
                        lemma_node_map_update(nodes, i as int, n);
                        lemma_node_map(nodes.update(i as int, n));
                    }
                }
                Some(&mut self.nodes[i])
            },
            None => None,
        }
    }

    /// Files `node` under its key, in place of any node filed there before.
    pub fn insert(&mut self, node: Node<T>)
        requires
            old(self).wf(),
            node.wf(),
        ensures
            final(self).wf(),
            final(self)@ == old(self)@.insert(node@.key, node@),
    {
        match self.position(node.key()) {
            Some(i) => {
                proof {
                    lemma_node_map_update(self.nodes@, i as int, node);
                }
                self.nodes[i] = node;
            },
            None => {
                proof {
                    lemma_node_map_push(self.nodes@, node);
                }
                self.nodes.push(node);
            },
        }
        proof {
            lemma_node_map(self.nodes@);
            assert(self.nodes@.len() == self.nodes.len());
        }
    }

    /// Takes out the node filed under `key` and hands it back.
    pub fn remove(&mut self, key: &[T]) -> (r: Option<Node<T>>)
        requires
            old(self).wf(),
        ensures
            final(self).wf(),
            final(self)@ == old(self)@.remove(key@),
            r.is_some() == old(self)@.contains_key(key@),
            r matches Some(node) ==> node@ == old(self)@[key@] && node.wf(),
    {
        match self.position(key) {
            Some(i) => {
                proof {
                    lemma_node_map_remove(self.nodes@, i as int);
                }
                let node = self.nodes.remove(i);
                proof {
                    lemma_node_map(self.nodes@);
                }
                Some(node)
            },
            None => {
                assert(self@ =~= self@.remove(key@));
                None
            },
        }
    }

    /// Takes out every node.
    pub fn clear(&mut self)
        ensures
            final(self).wf(),
            final(self)@ == Map::<Seq<T>, NodeView<T>>::empty(),
    {
        self.nodes.clear();
        proof {
            lemma_node_map(self.nodes@);
            assert(self@ =~= Map::<Seq<T>, NodeView<T>>::empty());
        }
    }
}

} // verus!
