//! One stored element: its value, its terminal flag and the keys of its children.
use crate::element::Element;
use crate::key::{key_at, key_at_index, key_position, keys_view, lemma_without, without};
use crate::store::FlatStore;
use vstd::prelude::*;
use vstd::std_specs::cmp::PartialEqSpecImpl;

verus! {

/// What a node holds, as plain mathematical values.
pub struct NodeView<T> {
    /// The node's own edge key: the path from a start element down to it.
    pub key: Seq<T>,
    /// The element that the node stands for, the last one of its key.
    pub val: T,
    /// The edge keys of the children, in the order in which they were linked.
    pub children: Seq<Seq<T>>,
    /// Whether a stored sequence ends here.
    pub terminal: bool,
}

impl<T> NodeView<T> {
    /// A node stands for the last element of its key, and lists no child twice.
    pub open spec fn wf(self) -> bool {
        &&& self.key.len() > 0
        &&& self.val == self.key.last()
        &&& self.children.no_duplicates()
    }

    /// The same node with another terminal flag.
    pub open spec fn with_terminal(self, terminal: bool) -> Self {
        NodeView { terminal, ..self }
    }

    /// The same node with another list of children.
    pub open spec fn with_children(self, children: Seq<Seq<T>>) -> Self {
        NodeView { children, ..self }
    }
}

/// The children of a node after position `idx` of `seq` has been asked to
/// link its successor: the key of position `idx + 1` is appended unless there
/// is no such position or the key is listed already.
pub open spec fn linked_children<T>(children: Seq<Seq<T>>, seq: Seq<T>, idx: int) -> Seq<Seq<T>> {
    if idx + 1 < seq.len() && !children.contains(key_at(idx + 1, seq)) {
        children.push(key_at(idx + 1, seq))
    } else {
        children
    }
}

#[derive(Debug, Clone)]
pub struct Node<T: Element> {
    pub(crate) key: Vec<T>,
    pub(crate) val: T,
    pub(crate) children: Vec<Vec<T>>,
    pub(crate) child_size: usize,
    pub(crate) terminal: bool,
}

impl<T: Element> View for Node<T> {
    type V = NodeView<T>;

    closed spec fn view(&self) -> NodeView<T> {
        NodeView {
            key: self.key@,
            val: self.val,
            children: keys_view(self.children@),
            terminal: self.terminal,
        }
    }
}

/// Two nodes are equal when they stand for equal elements, wherever they
/// are in the trie.
impl<T: Element> PartialEq for Node<T> {
    fn eq(&self, other: &Self) -> (r: bool) {
        self.val.same(&other.val)
    }
}

impl<T: Element> PartialEqSpecImpl for Node<T> {
    open spec fn obeys_eq_spec() -> bool {
        true
    }

    open spec fn eq_spec(&self, other: &Self) -> bool {
        self@.val == other@.val
    }
}

impl<T: Element> Eq for Node<T> {

}

impl<T: Element> Node<T> {
    /// The child count agrees with the list of children, and the view is well formed.
    pub closed spec fn wf(&self) -> bool {
        &&& self.child_size == self.children@.len()
        &&& self@.wf()
    }

    /// A well-formed node has a well-formed view.
    pub proof fn lemma_wf_view(&self)
        requires
            self.wf(),
        ensures
            self@.wf(),
    {
    }

    /// A childless node for position `idx` of `seq`.
    pub fn new(val: T, seq: &[T], idx: usize, terminal: bool) -> (node: Node<T>)
        requires
            idx < seq@.len(),
            val == seq@[idx as int],
        ensures
            node.wf(),
            node@ == (NodeView {
                key: key_at(idx as int, seq@),
                val,
                children: Seq::<Seq<T>>::empty(),
                terminal,
            }),
    {
        let key = key_at_index(idx, seq);
        let children: Vec<Vec<T>> = Vec::new();
        let node = Node { key, val, children, child_size: 0, terminal };
        assert(keys_view(node.children@) =~= Seq::<Seq<T>>::empty());
        node
    }

    /// The node's own edge key.
    pub fn key(&self) -> (key: &[T])
        ensures
            key@ == self@.key,
    {
        self.key.as_slice()
    }

    /// The element that the node stands for.
    pub fn as_value(&self) -> (val: &T)
        ensures
            *val == self@.val,
    {
        &self.val
    }

    /// A copy of the element that the node stands for.
    pub fn to_value(&self) -> (val: T)
        ensures
            val == self@.val,
    {
        self.val.duplicate()
    }

    /// Whether a stored sequence ends at this node.
    pub fn is_terminal(&self) -> (terminal: bool)
        ensures
            terminal == self@.terminal,
    {
        self.terminal
    }

    /// The number of children.
    pub fn child_len(&self) -> (n: usize)
        ensures
            n == self@.children.len(),
    {
        self.children.len()
    }

    /// Sets or clears the terminal flag.
    pub fn set_terminal(&mut self, terminal: bool)
        ensures
            final(self)@ == old(self)@.with_terminal(terminal),
            old(self).wf() ==> final(self).wf(),
    {
        self.terminal = terminal;
    }

    /// Unlinks the child with the given key. Returns whether it was linked.
    pub fn remove_child(&mut self, key: &[T]) -> (removed: bool)
        requires
            old(self).wf(),
        ensures
            final(self).wf(),
            removed == old(self)@.children.contains(key@),
            final(self)@ == old(self)@.with_children(without(old(self)@.children, key@)),
    {
        let ghost before = keys_view(self.children@);
        match key_position(&self.children, key) {
            Some(idx) => {
                proof {
                    lemma_without(before, key@);
                    assert(before[idx as int] == key@);
                    assert(before.index_of(key@) == idx);
                }
                self.children.remove(idx);
                self.child_size -= 1;
                assert(keys_view(self.children@) =~= before.remove(idx as int));
                true
            },
            None => false,
        }
    }

    /// The nodes of the children, in the order in which they are listed.
    pub fn children<'a>(&self, map: &'a FlatStore<T>) -> (kids: Vec<&'a Node<T>>)
        requires
            map.wf(),
            forall|i: int|
                0 <= i < self@.children.len() ==> map@.contains_key(#[trigger] self@.children[i]),
        ensures
            kids@.len() == self@.children.len(),
            forall|i: int|
                0 <= i < kids@.len() ==> (#[trigger] kids@[i])@ == map@[self@.children[i]]
                    && kids@[i].wf() && kids@[i]@.key == self@.children[i],
    {
        let mut kids: Vec<&'a Node<T>> = Vec::new();
        let mut i: usize = 0;
        while i < self.children.len()
            invariant
                0 <= i <= self.children@.len(),
                map.wf(),
                kids@.len() == i,
                forall|j: int|
                    0 <= j < self@.children.len() ==> map@.contains_key(
                        #[trigger] self@.children[j],
                    ),
                forall|j: int|
                    0 <= j < i ==> (#[trigger] kids@[j])@ == map@[self@.children[j]]
                        && kids@[j].wf() && kids@[j]@.key == self@.children[j],
            decreases self.children@.len() - i,
        {
            assert(self@.children[i as int] == self.children@[i as int]@);
            match map.get(self.children[i].as_slice()) {
                Some(kid) => {
                    kids.push(kid);
                },
                None => {},
            }
            i += 1;
        }
        kids
    }

    /// Links the key of position `idx + 1` of `seq` as a child, unless `seq`
    /// ends at `idx` or the key is linked already.
    pub fn update_children(&mut self, seq: &[T], idx: usize)
        requires
            old(self).wf(),
        ensures
            final(self).wf(),
            final(self)@ == old(self)@.with_children(
                linked_children(old(self)@.children, seq@, idx as int),
            ),
    {
        if seq.len() > 0 && idx < seq.len() - 1 {
            let key = key_at_index(idx + 1, seq);
            self.add_child(key);
        }
    }

    /// Links `key` as the last child unless it is linked already.
    pub fn add_child(&mut self, key: Vec<T>)
        requires
            old(self).wf(),
        ensures
            final(self).wf(),
            final(self)@ == old(self)@.with_children(
                if old(self)@.children.contains(key@) {
                    old(self)@.children
                } else {
                    old(self)@.children.push(key@)
                },
            ),
    {
        let ghost before = keys_view(self.children@);
        if key_position(&self.children, key.as_slice()).is_none() {
            self.children.push(key);
            self.child_size = self.children.len();
            assert(keys_view(self.children@) =~= before.push(key@));
        }
    }
}

} // verus!
