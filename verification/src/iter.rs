//! The depth-first walk over the nodes of a trie.
use crate::element::Element;
use crate::key::parent_key;
use crate::node::Node;
use crate::order::{
    covered, expanded, lemma_walk_all, lemma_walk_done, lemma_walk_from, lemma_walk_step,
    lemma_walk_step_ordered, pending, walk_ordered, walk_wf,
};
use crate::trie::Trie;
use vstd::prelude::*;

verus! {

/// The keys of the nodes on a stack, in order.
pub open spec fn stack_keys<T: Element>(stack: Seq<&Node<T>>) -> Seq<Seq<T>> {
    Seq::new(stack.len(), |i: int| stack[i]@.key)
}

/// A cursor over the nodes of a trie, in depth-first order: a node comes
/// before its children, and the subtree of a child before that of the
/// children listed after it.
#[derive(Clone)]
pub struct TrieIter<'a, T: Element> {
    pub(crate) trie: &'a Trie<T>,
    /// The nodes whose subtrees are still to come, the next one last.
    pub(crate) stack: Vec<&'a Node<T>>,
    pub(crate) root: Ghost<Seq<T>>,
    pub(crate) yielded: Ghost<Seq<Seq<T>>>,
    pub(crate) anchor: Ghost<Seq<T>>,
}

impl<'a, T: Element> TrieIter<'a, T> {
    /// The trie that is walked.
    pub open(crate) spec fn trie(&self) -> Trie<T> {
        *self.trie
    }

    /// The key below which the walk stays; empty for a walk over every node.
    pub open(crate) spec fn root(&self) -> Seq<T> {
        self.root@
    }

    /// The keys of the nodes handed out so far, in order.
    pub open(crate) spec fn yielded(&self) -> Seq<Seq<T>> {
        self.yielded@
    }

    /// The key of the node handed out last; the root before the first.
    pub open(crate) spec fn last_key(&self) -> Seq<T> {
        self.anchor@
    }

    /// The number of nodes still to come.
    pub open(crate) spec fn remaining(&self) -> nat {
        pending(self.trie.children@, self.root@, self.yielded@).len()
    }

    /// The invariant of the cursor.
    pub closed spec fn wf(&self) -> bool {
        &&& self.trie.wf()
        &&& forall|i: int|
            0 <= i < self.stack@.len() ==> (#[trigger] self.stack@[i])@
                == self.trie.children@[self.stack@[i]@.key] && self.stack@[i].wf()
        &&& walk_wf(
            self.trie.children@,
            self.root@,
            stack_keys(self.stack@),
            self.yielded@,
            self.anchor@,
        )
        &&& walk_ordered(
            self.trie.children@,
            self.trie.start_keys(),
            stack_keys(self.stack@),
            self.yielded@,
        )
    }

    /// The next node in depth-first order: the first of those not handed
    /// out yet. Nothing once every node at or below the root has been
    /// handed out.
    pub fn next(&mut self) -> (r: Option<&'a Node<T>>)
        requires
            old(self).wf(),
        ensures
            final(self).wf(),
            final(self).trie() == old(self).trie(),
            final(self).root() == old(self).root(),
            match r {
                Some(node) => {
                    let k = node@.key;
                    &&& old(self).trie().has_node(k)
                    &&& node@ == old(self).trie().node_at(k)
                    &&& node.wf()
                    &&& old(self).root().is_prefix_of(k)
                    &&& !old(self).yielded().contains(k)
                    &&& final(self).yielded() == old(self).yielded().push(k)
                    &&& final(self).last_key() == k
                    &&& parent_key(k).is_prefix_of(old(self).last_key())
                    &&& final(self).remaining() + 1 == old(self).remaining()
                    &&& forall|y: Seq<T>|
                        old(self).yielded().contains(y) ==> #[trigger] old(self).trie().dfs_before(
                            y,
                            k,
                        )
                    &&& forall|x: Seq<T>|
                        old(self).trie().has_node(x) && old(self).root().is_prefix_of(x)
                            && !final(self).yielded().contains(x) ==> #[trigger] old(
                            self,
                        ).trie().dfs_before(k, x)
                },
                None => {
                    &&& final(self).yielded() == old(self).yielded()
                    &&& final(self).last_key() == old(self).last_key()
                    &&& final(self).remaining() == 0
                    &&& forall|x: Seq<T>|
                        #[trigger] old(self).trie().has_node(x) && old(self).root().is_prefix_of(x)
                            ==> old(self).yielded().contains(x)
                },
            },
    {
        let ghost m = self.trie.children@;
        let ghost starts = self.trie.start_keys();
        let ghost before = stack_keys(self.stack@);
        match self.stack.pop() {
            None => {
                proof {
                    assert(before =~= Seq::<Seq<T>>::empty());
                    lemma_walk_done(m, self.root@, self.yielded@, self.anchor@);
                }
                None
            },
            Some(node) => {
                let ghost k = node@.key;
                let ghost base = stack_keys(self.stack@);
                proof {
                    assert(before =~= base.push(k));
                    lemma_walk_step(m, starts, self.root@, base, k, self.yielded@, self.anchor@);
                    lemma_walk_step_ordered(
                        m,
                        starts,
                        self.root@,
                        base,
                        k,
                        self.yielded@,
                        self.anchor@,
                    );
                    assert forall|i: int| 0 <= i < node@.children.len() implies m.contains_key(
                        #[trigger] node@.children[i],
                    ) by {
                        assert(node@.children.contains(node@.children[i]));
                    }
                }
                let mut kids = node.children(&self.trie.children);
                let ghost full = kids@;
                let ghost names = node@.children;
                let ghost t = names.len() as int;
                assert(base + names.subrange(t, t).reverse() =~= base);
                while kids.len() > 0
                    invariant
                        0 <= kids@.len() <= t,
                        t == names.len(),
                        full.len() == t,
                        kids@ == full.take(kids@.len() as int),
                        forall|i: int|
                            0 <= i < t ==> (#[trigger] full[i])@ == m[names[i]] && full[i].wf()
                                && full[i]@.key == names[i],
                        stack_keys(self.stack@) == base + names.subrange(
                            kids@.len() as int,
                            t,
                        ).reverse(),
                        forall|i: int|
                            0 <= i < self.stack@.len() ==> (#[trigger] self.stack@[i])@
                                == m[self.stack@[i]@.key] && self.stack@[i].wf(),
                        self.trie == old(self).trie,
                        self.root == old(self).root,
                        self.yielded == old(self).yielded,
                        self.anchor == old(self).anchor,
                    decreases kids@.len(),
                {
                    let ghost r = kids@.len() as int;
                    let ghost has = self.stack@;
                    match kids.pop() {
                        Some(kid) => {
                            self.stack.push(kid);
                            proof {
                                assert(kid == full[r - 1]);
                                assert(kids@ =~= full.take(r - 1));
                                assert(stack_keys(self.stack@) =~= stack_keys(has).push(kid@.key));
                                assert(names.subrange(r - 1, t).reverse() =~= names.subrange(
                                    r,
                                    t,
                                ).reverse().push(names[r - 1]));
                                assert(base + names.subrange(r - 1, t).reverse() =~= (base
                                    + names.subrange(r, t).reverse()).push(names[r - 1]));
                            }
                        },
                        None => {},
                    }
                }
                proof {
                    assert(names.subrange(0, t) =~= names);
                    assert(stack_keys(self.stack@) == expanded(m, base, k));
                    self.yielded@ = self.yielded@.push(k);
                    self.anchor@ = k;
                    let after = self.yielded@;
                    assert forall|x: Seq<T>|
                        m.contains_key(x) && self.root@.is_prefix_of(x) && !after.contains(
                            x,
                        ) implies #[trigger] crate::order::dfs_before(m, starts, k, x) by {
                        assert(covered(stack_keys(self.stack@), x));
                        assert(after[after.len() - 1] == k);
                        assert(after.contains(k));
                    }
                }
                Some(node)
            },
        }
    }
}

impl<T: Element> Node<T> {
    /// A walk over this node and the nodes below it.
    pub fn walk<'a>(&'a self, trie: &'a Trie<T>) -> (it: TrieIter<'a, T>)
        requires
            trie.wf(),
            self.wf(),
            trie.has_node(self@.key),
            trie.node_at(self@.key) == self@,
        ensures
            it.wf(),
            it.trie() == *trie,
            it.root() == self@.key,
            it.yielded() == Seq::<Seq<T>>::empty(),
            it.last_key() == self@.key,
    {
        let mut stack: Vec<&'a Node<T>> = Vec::new();
        stack.push(self);
        proof {
            lemma_walk_from(trie.children@, trie.start_keys(), self@.key);
            assert(stack_keys(stack@) =~= seq![self@.key]);
        }
        TrieIter {
            trie,
            stack,
            root: Ghost(self@.key),
            yielded: Ghost(Seq::empty()),
            anchor: Ghost(self@.key),
        }
    }
}

impl<T: Element> Trie<T> {
    /// A walk over every node: the first start node, then what lies below
    /// it, then the next start node, and so on.
    pub fn iter(&self) -> (it: TrieIter<'_, T>)
        requires
            self.wf(),
        ensures
            it.wf(),
            it.trie() == *self,
            it.root() == Seq::<T>::empty(),
            it.yielded() == Seq::<Seq<T>>::empty(),
            it.last_key() == Seq::<T>::empty(),
            it.remaining() == self.node_count(),
    {
        let ghost m = self.children@;
        let ghost names = self.start_keys();
        let ghost t = names.len() as int;
        let mut stack: Vec<&Node<T>> = Vec::new();
        let mut i: usize = self.starts.len();
        assert(names.subrange(t, t).reverse() =~= stack_keys(stack@));
        while i > 0
            invariant
                0 <= i <= t,
                t == names.len(),
                t == self.starts@.len(),
                names == self.start_keys(),
                m == self.children@,
                self.wf(),
                stack_keys(stack@) == names.subrange(i as int, t).reverse(),
                forall|j: int|
                    0 <= j < stack@.len() ==> (#[trigger] stack@[j])@ == m[stack@[j]@.key]
                        && stack@[j].wf(),
            decreases i,
        {
            i -= 1;
            let ghost has = stack@;
            proof {
                assert(names[i as int] == self.starts@[i as int]@);
                assert(names.contains(names[i as int]));
            }
            match self.children.get(self.starts[i].as_slice()) {
                Some(node) => {
                    stack.push(node);
                    proof {
                        assert(stack_keys(stack@) =~= stack_keys(has).push(node@.key));
                        assert(names.subrange(i as int, t).reverse() =~= names.subrange(
                            i + 1,
                            t,
                        ).reverse().push(names[i as int]));
                    }
                },
                None => {},
            }
        }
        proof {
            assert(names.subrange(0, t) =~= names);
            lemma_walk_all(m, names);
            assert(pending(m, Seq::<T>::empty(), Seq::<Seq<T>>::empty()) =~= m.dom());
        }
        TrieIter {
            trie: self,
            stack,
            root: Ghost(Seq::empty()),
            yielded: Ghost(Seq::empty()),
            anchor: Ghost(Seq::empty()),
        }
    }
}

} // verus!
