//! The trie: a flat store of nodes, the keys of the start nodes, and a count.
use crate::element::Element;
use crate::key::{key_at_index, key_from_seq, keys_view};
use crate::node::Node;
use crate::shape::{
    inserted_map, inserted_starts, lemma_descend, lemma_inserted_shape, lemma_step_absent,
    lemma_step_first, lemma_step_last, lemma_step_present, lemma_take, on_path, shape_wf,
    siblings, siblings_after_insert, step_map, step_starts, stored,
};
use crate::store::FlatStore;
use vstd::prelude::*;

verus! {

/// A set of non-empty sequences, stored so that sequences with a common
/// prefix share the nodes of that prefix.
#[derive(Debug, Clone)]
pub struct Trie<T: Element> {
    pub(crate) starts: Vec<Vec<T>>,
    pub(crate) children: FlatStore<T>,
    /// The number of nodes in the store.
    pub(crate) len: usize,
}

impl<T: Element> View for Trie<T> {
    type V = Set<Seq<T>>;

    /// The stored sequences.
    open(crate) spec fn view(&self) -> Set<Seq<T>> {
        stored(self.children@)
    }
}

impl<T: Element> Default for Trie<T> {
    fn default() -> (trie: Self)
        ensures
            trie.wf(),
            trie@ == Set::<Seq<T>>::empty(),
            trie.node_count() == 0,
    {
        Trie::new()
    }
}

impl<T: Element> Trie<T> {
    /// The start keys, in order.
    pub open(crate) spec fn start_keys(&self) -> Seq<Seq<T>> {
        keys_view(self.starts@)
    }

    /// Whether a node is filed under `k`.
    pub open(crate) spec fn has_node(&self, k: Seq<T>) -> bool {
        self.children@.contains_key(k)
    }

    /// The number of live nodes.
    pub open(crate) spec fn node_count(&self) -> nat {
        self.len as nat
    }

    /// The keys listed under `k`, in order: the children of the node at `k`,
    /// or the start keys where `k` is empty.
    pub open(crate) spec fn children_at(&self, k: Seq<T>) -> Seq<Seq<T>> {
        siblings(self.children@, self.start_keys(), k)
    }

    /// The node filed under `k`.
    pub open(crate) spec fn node_at(&self, k: Seq<T>) -> crate::node::NodeView<T> {
        self.children@[k]
    }

    /// Whether the node at `a` comes before the node at `b` in depth-first
    /// order: `b` lies below `a`, or the two part ways below a common node
    /// that lists the branch of `a` first.
    pub open(crate) spec fn dfs_before(&self, a: Seq<T>, b: Seq<T>) -> bool {
        crate::order::dfs_before(self.children@, self.start_keys(), a, b)
    }

    /// The invariant of the trie.
    pub open(crate) spec fn wf(&self) -> bool {
        &&& self.children.wf()
        &&& shape_wf(self.children@, self.start_keys())
        &&& self.len == self.children@.dom().len()
    }

    /// An empty trie.
    pub fn new() -> (trie: Self)
        ensures
            trie.wf(),
            trie@ == Set::<Seq<T>>::empty(),
            trie.node_count() == 0,
    {
        let trie = Trie { starts: Vec::new(), children: FlatStore::new(), len: 0 };
        assert(trie@ =~= Set::<Seq<T>>::empty());
        trie
    }

    /// Whether nothing is stored.
    pub fn is_empty(&self) -> (r: bool)
        requires
            self.wf(),
        ensures
            r == (self.node_count() == 0),
            r == (self@ == Set::<Seq<T>>::empty()),
    {
        proof {
            if self.len == 0 {
                assert(self.children@.dom() =~= Set::<Seq<T>>::empty());
                assert(self@ =~= Set::<Seq<T>>::empty());
            } else {
                let k = self.children@.dom().choose();
                let s = lemma_descend(self.children@, self.start_keys(), k);
                assert(self@.contains(s));
            }
        }
        self.len == 0
    }

    /// Whether `seq_key` is stored: its last node exists and is terminal.
    pub fn contains(&self, seq_key: &[T]) -> (r: bool)
        requires
            self.wf(),
        ensures
            r == self@.contains(seq_key@),
    {
        let key = key_from_seq(seq_key);
        match self.children.get(key.as_slice()) {
            Some(n) => n.is_terminal(),
            None => false,
        }
    }

    /// Lays the path of `seq`, from the first position to the last.
    fn _insert(&mut self, seq: &[T])
        requires
            old(self).wf(),
            seq@.len() > 0,
            !old(self).has_node(seq@),
        ensures
            final(self).children.wf(),
            final(self).children@ == inserted_map(old(self).children@, seq@),
            final(self).start_keys() == inserted_starts(old(self).start_keys(), seq@),
            final(self).len == final(self).children@.dom().len(),
    {
        let ghost m0 = self.children@;
        let ghost st0 = self.start_keys();
        proof {
            lemma_step_first(m0, st0, seq@);
        }
        let mut idx: usize = 0;
        while idx < seq.len()
            invariant
                0 <= idx <= seq@.len(),
                shape_wf(m0, st0),
                self.children.wf(),
                self.children@ == step_map(m0, seq@, idx as int),
                self.start_keys() == step_starts(st0, seq@, idx as int),
                self.len == self.children@.dom().len(),
            decreases seq@.len() - idx,
        {
            let key = key_at_index(idx, seq);
            let ghost cur = self.children@;
            match self.children.get_mut(key.as_slice()) {
                Some(node) => {
                    node.update_children(seq, idx);
                    proof {
                        lemma_step_present(m0, st0, seq@, idx as int);
                        assert(cur.insert(key@, cur[key@]).dom() =~= cur.dom());
                    }
                },
                None => {
                    proof {
                        lemma_step_absent(m0, st0, seq@, idx as int);
                        lemma_take(seq@, idx + 1);
                    }
                    let terminal = seq.len() == idx + 1;
                    let node = Node::new(seq[idx].duplicate(), seq, idx, terminal);
                    self.children.insert(node);
                    self.len += 1;
                    if idx > 0 {
                        let parent_key = key_at_index(idx - 1, seq);
                        let ghost made = self.children@;
                        if let Some(parent) = self.children.get_mut(parent_key.as_slice()) {
                            parent.add_child(key);
                        }
                        assert(made.insert(parent_key@, made[parent_key@]).dom() =~= made.dom());
                    } else {
                        let ghost before = keys_view(self.starts@);
                        self.starts.push(key);
                        assert(keys_view(self.starts@) =~= before.push(key@));
                    }
                },
            }
            idx += 1;
        }
        proof {
            lemma_step_last(m0, st0, seq@);
        }
    }

    /// Stores `seq`. An empty sequence is ignored.
    pub fn insert(&mut self, seq: &[T])
        requires
            old(self).wf(),
        ensures
            final(self).wf(),
            final(self)@ == (if seq@.len() > 0 {
                old(self)@.insert(seq@)
            } else {
                old(self)@
            }),
            seq@.len() > 0 ==> final(self)@.contains(seq@),
            forall|k: Seq<T>| #[trigger]
                final(self).has_node(k) == (old(self).has_node(k) || on_path(seq@, k)),
            forall|k: Seq<T>| #[trigger]
                final(self).children_at(k) == siblings_after_insert(
                    old(self).children_at(k),
                    seq@,
                    k,
                ),
    {
        if seq.len() == 0 {
            return ;
        }
        let ghost m0 = self.children@;
        let ghost st0 = self.start_keys();
        proof {
            lemma_inserted_shape(m0, st0, seq@);
        }
        let key = key_from_seq(seq);
        if let Some(end) = self.children.get_mut(key.as_slice()) {
            end.set_terminal(true);
            proof {
                crate::shape::lemma_inserted_present(m0, st0, seq@);
                assert(m0.insert(seq@, m0[seq@]).dom() =~= m0.dom());
            }
        } else {
            self._insert(seq);
        }
        proof {
            crate::shape::lemma_inserted_siblings(m0, st0, seq@);
        }
    }

    /// Forgets every stored sequence: no node and no start key is left.
    pub fn clear(&mut self)
        ensures
            final(self).wf(),
            final(self)@ == Set::<Seq<T>>::empty(),
            final(self).node_count() == 0,
            forall|k: Seq<T>| !final(self).has_node(k),
            forall|k: Seq<T>| #[trigger] final(self).children_at(k) == Seq::<Seq<T>>::empty(),
    {
        self.len = 0;
        self.children.clear();
        self.starts.clear();
        assert(self@ =~= Set::<Seq<T>>::empty());
        assert(self.start_keys() =~= Seq::<Seq<T>>::empty());
    }
}

} // verus!
