//! Removal: the classification of a sequence against the trie, and the
//! pruning that each class calls for.
use crate::element::Element;
use crate::key::{key_at_index, key_from_seq, key_position, keys_view, lemma_without, without};
use crate::prune::{
    cut_point, lemma_kept_siblings, lemma_sole_path, lemma_trim_begin, lemma_trim_down,
    lemma_trim_first, lemma_trim_none, lemma_trim_single, lemma_trim_unlink, lemma_trim_up,
    lemma_trimmed_nodes, lemma_trimmed_shape, lemma_trimmed_siblings, lemma_unmarked_shape,
    needed, no_inner_stored, siblings_after_remove, trimmed_map, trimmed_range, unshared_below,
};
use crate::shape::{lemma_prefix_closed, node_ok, on_path, shape_wf, stored};
use crate::trie::Trie;
use vstd::prelude::*;

verus! {

/// The situation of a sequence that is to be removed.
pub enum Remove<T> {
    /// The last node has no child and no shorter sequence is stored along
    /// the path: nodes are removed from the end upwards until one is shared.
    Childless,
    /// The trie holds no node.
    Empty,
    /// The sequence is the only one stored: the whole trie is cleared.
    Rest,
    /// A position of the sequence has no node.
    NoMatch,
    /// The sequence has one element and its node exists, whether or not a
    /// sequence ends there; holds its key.
    Starts(Vec<T>),
    /// The last node has children, whether or not a sequence ends there;
    /// holds that node's key. "car" is in this situation beside "cart".
    Stemish(Vec<T>),
    /// A shorter sequence is stored along the path; holds the last position
    /// whose node stays.
    Terminal(usize),
}

impl<T: Element> Trie<T> {
    /// Whether a proper, non-empty prefix of `seq` is stored.
    pub open(crate) spec fn inner_terminal(&self, seq: Seq<T>) -> bool {
        exists|j: int| 0 < j < seq.len() && self@.contains(#[trigger] seq.take(j))
    }

    /// Whether the nodes are as many as the elements of `seq` and no
    /// shorter sequence is stored along it: the nodes of a stored `seq` are
    /// then all there is.
    pub open(crate) spec fn sole(&self, seq: Seq<T>) -> bool {
        self.node_count() == seq.len() && !self.inner_terminal(seq)
    }

    /// Whether the node at the first `c` elements of `seq` stays when `seq`
    /// goes, and every node below it goes.
    pub open(crate) spec fn cut_at(&self, seq: Seq<T>, c: int) -> bool {
        cut_point(self.children@, seq, c)
    }

    /// The class that `state` has to be for `seq`; every sequence is in
    /// exactly one.
    pub open(crate) spec fn is_state(&self, seq: Seq<T>, state: Remove<T>) -> bool {
        match state {
            Remove::Empty => self.node_count() == 0,
            Remove::NoMatch => self.node_count() > 0 && !self.has_node(seq),
            Remove::Starts(key) => self.has_node(seq) && seq.len() == 1 && key@ == seq,
            Remove::Rest => self@.contains(seq) && seq.len() > 1 && self.sole(seq),
            Remove::Stemish(key) => {
                &&& self.has_node(seq)
                &&& seq.len() > 1
                &&& !self.sole(seq)
                &&& self.children_at(seq).len() > 0
                &&& key@ == seq
            },
            Remove::Terminal(idx) => {
                &&& self@.contains(seq)
                &&& seq.len() > 1
                &&& !self.sole(seq)
                &&& self.children_at(seq).len() == 0
                &&& self.inner_terminal(seq)
                &&& self.cut_at(seq, idx + 1)
            },
            Remove::Childless => {
                &&& self@.contains(seq)
                &&& seq.len() > 1
                &&& !self.sole(seq)
                &&& self.children_at(seq).len() == 0
                &&& !self.inner_terminal(seq)
            },
        }
    }

    /// Whether the node at the end of `seq` has children.
    fn is_terminal_end(&self, seq: &[T]) -> (r: bool)
        requires
            self.wf(),
            self.has_node(seq@),
        ensures
            r == (self.children_at(seq@).len() > 0),
    {
        let end_key = key_from_seq(seq);
        match self.children.get(end_key.as_slice()) {
            Some(node) => node.child_len() > 0,
            None => false,
        }
    }

    /// Whether a sequence ends at a position of `seq` before the last.
    fn contains_terminal(&self, seq: &[T]) -> (r: bool)
        requires
            self.wf(),
            self.has_node(seq@),
        ensures
            r == self.inner_terminal(seq@),
    {
        assert(node_ok(self.children@, seq@));
        let mut i: usize = 0;
        while i < seq.len() - 1
            invariant
                self.wf(),
                self.has_node(seq@),
                0 <= i < seq@.len(),
                forall|j: int| 0 < j <= i ==> !self@.contains(#[trigger] seq@.take(j)),
            decreases seq@.len() - i,
        {
            let key = key_at_index(i, seq);
            proof {
                lemma_prefix_closed(self.children@, self.start_keys(), seq@, i + 1);
            }
            match self.children.get(key.as_slice()) {
                Some(node) => {
                    if node.is_terminal() {
                        return true;
                    }
                },
                None => {},
            }
            i += 1;
        }
        false
    }

    /// The last position before the end of `seq` whose node is terminal or
    /// has more than one child, where a sequence ends before the end of
    /// `seq`; nothing where none does.
    fn contains_terminal_with_key(&self, seq: &[T]) -> (r: Option<usize>)
        requires
            self.wf(),
            self.has_node(seq@),
        ensures
            match r {
                Some(idx) => self.inner_terminal(seq@) && self.cut_at(seq@, idx + 1),
                None => !self.inner_terminal(seq@),
            },
    {
        if self.contains_terminal(seq) {
            let mut i: usize = seq.len() - 1;
            while i > 0
                invariant
                    self.wf(),
                    self.has_node(seq@),
                    self.inner_terminal(seq@),
                    0 <= i < seq@.len(),
                    forall|j: int| i < j < seq@.len() ==> !needed(self.children@, #[trigger] seq@.take(j)),
                decreases i,
            {
                i -= 1;
                let key = key_at_index(i, seq);
                proof {
                    lemma_prefix_closed(self.children@, self.start_keys(), seq@, i + 1);
                }
                match self.children.get(key.as_slice()) {
                    Some(node) => {
                        if node.is_terminal() || node.child_len() > 1 {
                            return Some(i);
                        }
                    },
                    None => {},
                }
            }
            proof {
                let j = choose|j: int| 0 < j < seq@.len() && self@.contains(#[trigger] seq@.take(j));
                assert(!needed(self.children@, seq@.take(j)));
            }
            None
        } else {
            None
        }
    }

    /// Classifies `seq` for removal.
    pub fn branch_state(&self, seq: &[T]) -> (state: Remove<T>)
        requires
            self.wf(),
        ensures
            self.is_state(seq@, state),
    {
        if self.is_empty() {
            return Remove::Empty;
        }
        let key = key_from_seq(seq);
        if !self.children.contains_key(key.as_slice()) {
            return Remove::NoMatch;
        }
        if seq.len() == 1 {
            return Remove::Starts(key);
        }
        assert(node_ok(self.children@, seq@));
        if self.len == seq.len() && !self.contains_terminal(seq) {
            proof {
                lemma_sole_path(self.children@, self.start_keys(), seq@);
            }
            Remove::Rest
        } else if self.is_terminal_end(seq) {
            Remove::Stemish(key_from_seq(seq))
        } else if let Some(i) = self.contains_terminal_with_key(seq) {
            Remove::Terminal(i)
        } else {
            Remove::Childless
        }
    }

    /// Takes a start node out, or clears its terminal flag if it has
    /// children. Returns whether anything was done.
    fn _remove_start(&mut self, key: Vec<T>) -> (r: bool)
        requires
            old(self).children.wf(),
            old(self).len == old(self).children@.dom().len(),
            old(self).start_keys().no_duplicates(),
            old(self).start_keys().contains(key@) ==> old(self).has_node(key@),
        ensures
            final(self).children.wf(),
            final(self).len == final(self).children@.dom().len(),
            ({
                let m = old(self).children@;
                if m.contains_key(key@) && m[key@].children.len() > 0 {
                    &&& r
                    &&& final(self).children@ == m.insert(key@, m[key@].with_terminal(false))
                    &&& final(self).start_keys() == old(self).start_keys()
                } else if old(self).start_keys().contains(key@) {
                    &&& r
                    &&& final(self).children@ == m.remove(key@)
                    &&& final(self).start_keys() == without(old(self).start_keys(), key@)
                } else {
                    &&& !r
                    &&& final(self).children@ == m
                    &&& final(self).start_keys() == old(self).start_keys()
                }
            }),
    {
        let ghost m = self.children@;
        let ghost st = self.start_keys();
        if let Some(node) = self.children.get_mut(key.as_slice()) {
            if node.child_len() != 0 {
                node.set_terminal(false);
                assert(m.insert(key@, m[key@]).dom() =~= m.dom());
                return true;
            }
            assert(m.insert(key@, m[key@]) =~= m);
        }
        match key_position(&self.starts, key.as_slice()) {
            Some(idx) => {
                proof {
                    lemma_without(st, key@);
                    assert(st[idx as int] == key@);
                    assert(st.index_of(key@) == idx);
                }
                self.starts.remove(idx);
                assert(keys_view(self.starts@) =~= st.remove(idx as int));
                self.children.remove(key.as_slice());
                self.len -= 1;
                true
            },
            None => false,
        }
    }

    /// Unlinks `key` from the node at `parent`. Returns whether that node
    /// has no child left.
    fn _remove(&mut self, parent: &[T], key: &[T]) -> (childless: bool)
        requires
            old(self).children.wf(),
            old(self).has_node(parent@),
        ensures
            final(self).children.wf(),
            final(self).children@ == old(self).children@.insert(
                parent@,
                old(self).children@[parent@].with_children(
                    without(old(self).children@[parent@].children, key@),
                ),
            ),
            childless == (without(old(self).children@[parent@].children, key@).len() == 0),
            final(self).starts == old(self).starts,
            final(self).len == old(self).len,
    {
        match self.children.get_mut(parent) {
            Some(node) => {
                node.remove_child(key);
                node.child_len() == 0
            },
            None => true,
        }
    }

    /// Takes `seq` out of the stored sequences, with every node that serves
    /// no other. Returns whether `seq` was stored; a sequence that is not
    /// stored leaves the trie as it is.
    pub fn remove(&mut self, seq: &[T]) -> (removed: bool)
        requires
            old(self).wf(),
        ensures
            final(self).wf(),
            removed == old(self)@.contains(seq@),
            final(self)@ == old(self)@.remove(seq@),
            !final(self)@.contains(seq@),
            forall|other: Seq<T>|
                other != seq@ ==> (#[trigger] final(self)@.contains(other) == old(self)@.contains(
                    other,
                )),
            forall|k: Seq<T>| #[trigger] final(self).has_node(k) ==> old(self).has_node(k),
            forall|k: Seq<T>|
                #[trigger] old(self).has_node(k) && !on_path(seq@, k) ==> final(self).has_node(k),
            forall|k: Seq<T>|
                k.len() == 0 || final(self).has_node(k) ==> #[trigger] final(self).children_at(k)
                    == siblings_after_remove(
                    old(self).children_at(k),
                    seq@,
                    k,
                    final(self).has_node(seq@.take((k.len() + 1) as int)),
                ),
    {
        let ghost m = self.children@;
        let ghost st = self.start_keys();
        match self.branch_state(seq) {
            Remove::NoMatch => {
                proof {
                    lemma_kept_siblings(m, st, m, seq@);
                    assert(self@ =~= self@.remove(seq@));
                }
                false
            },
            Remove::Empty => {
                proof {
                    assert(m.dom() =~= Set::<Seq<T>>::empty());
                    lemma_kept_siblings(m, st, m, seq@);
                    assert(self@ =~= self@.remove(seq@));
                }
                false
            },
            Remove::Starts(key) => {
                proof {
                    assert(node_ok(m, seq@));
                    lemma_trim_single(m, st, seq@);
                    if m[seq@].children.len() > 0 {
                        lemma_unmarked_shape(m, st, seq@);
                        assert(m.insert(seq@, m[seq@].with_terminal(false)).dom() =~= m.dom());
                        lemma_kept_siblings(m, st, m.insert(seq@, m[seq@].with_terminal(false)), seq@);
                    } else {
                        lemma_trimmed_shape(m, st, seq@, 0);
                        lemma_trimmed_siblings(m, st, seq@, 0);
                        lemma_trimmed_nodes(m, seq@, 0);
                    }
                }
                let was_stored = self.contains(seq);
                self._remove_start(key);
                was_stored
            },
            Remove::Rest => {
                proof {
                    lemma_sole_path(m, st, seq@);
                    lemma_trimmed_shape(m, st, seq@, 0);
                    lemma_trimmed_siblings(m, st, seq@, 0);
                    lemma_trimmed_nodes(m, seq@, 0);
                    assert forall|k: Seq<T>| m.contains_key(k) implies on_path(seq@, k) by {
                        assert(!trimmed_map(m, seq@, 0).contains_key(k));
                    }
                }
                self.clear();
                true
            },
            Remove::Terminal(at) => {
                let ghost c = at + 1;
                proof {
                    lemma_trimmed_shape(m, st, seq@, c);
                    lemma_trimmed_siblings(m, st, seq@, c);
                    lemma_trimmed_nodes(m, seq@, c);
                    lemma_trim_unlink(m, st, seq@, c);
                }
                let parent = key_at_index(at, seq);
                let child = key_at_index(at + 1, seq);
                self._remove(parent.as_slice(), child.as_slice());
                let mut idx: usize = at + 1;
                while idx < seq.len()
                    invariant
                        at < idx <= seq@.len(),
                        c == at + 1,
                        shape_wf(m, st),
                        m.contains_key(seq@),
                        self.children.wf(),
                        self.children@ == trimmed_range(m, seq@, c, idx as int),
                        self.len == self.children@.dom().len(),
                        self.start_keys() == st,
                    decreases seq@.len() - idx,
                {
                    let key = key_at_index(idx, seq);
                    proof {
                        lemma_trim_down(m, st, seq@, c, idx as int);
                    }
                    if self.children.remove(key.as_slice()).is_some() {
                        self.len -= 1;
                    }
                    idx += 1;
                }
                true
            },
            Remove::Stemish(end_key) => {
                proof {
                    assert(node_ok(m, seq@));
                    lemma_unmarked_shape(m, st, seq@);
                    assert(m.insert(seq@, m[seq@].with_terminal(false)).dom() =~= m.dom());
                    lemma_kept_siblings(m, st, m.insert(seq@, m[seq@].with_terminal(false)), seq@);
                }
                let mut was_stored = false;
                if let Some(node) = self.children.get_mut(end_key.as_slice()) {
                    was_stored = node.is_terminal();
                    node.set_terminal(false);
                }
                was_stored
            },
            Remove::Childless => {
                let mut i: usize = seq.len() - 1;
                let mut key = key_at_index(i, seq);
                proof {
                    assert(node_ok(m, seq@));
                    lemma_trim_none(m, st, seq@);
                    lemma_trim_begin(m, seq@);
                }
                while i > 0
                    invariant
                        0 <= i < seq@.len(),
                        seq@.len() > 1,
                        key@ == seq@.take(i + 1),
                        m == old(self).children@,
                        st == old(self).start_keys(),
                        old(self)@.contains(seq@),
                        shape_wf(m, st),
                        m[seq@].children.len() == 0,
                        no_inner_stored(m, seq@),
                        unshared_below(m, seq@, i as int),
                        self.children.wf(),
                        self.children@ == trimmed_map(m, seq@, i + 1),
                        self.len == self.children@.dom().len(),
                        self.start_keys() == st,
                    decreases i,
                {
                    let parent = key_at_index(i - 1, seq);
                    proof {
                        lemma_trim_up(m, st, seq@, i as int);
                    }
                    let childless = self._remove(parent.as_slice(), key.as_slice());
                    assert(self.children@.dom() =~= trimmed_map(m, seq@, i + 1).dom());
                    if self.children.remove(key.as_slice()).is_some() {
                        self.len -= 1;
                    }
                    if !childless {
                        proof {
                            lemma_trimmed_shape(m, st, seq@, i as int);
                            lemma_trimmed_siblings(m, st, seq@, i as int);
                            lemma_trimmed_nodes(m, seq@, i as int);
                        }
                        return true;
                    }
                    i -= 1;
                    key = parent;
                }
                proof {
                    lemma_trim_first(m, st, seq@);
                    lemma_trimmed_shape(m, st, seq@, 0);
                    lemma_trimmed_siblings(m, st, seq@, 0);
                    lemma_trimmed_nodes(m, seq@, 0);
                }
                self._remove_start(key);
                true
            },
        }
    }
}

} // verus!
