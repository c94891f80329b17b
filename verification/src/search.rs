//! Prefix search: every stored sequence that starts with a given prefix.
use crate::element::Element;
use crate::found::Found;
use crate::key::{key_from_seq, lemma_push_contains, parent_key};
use crate::node::Node;
use crate::order::lemma_prefixes_nest;
use crate::shape::{is_child, lemma_prefix_is_take, node_ok};
use crate::trie::Trie;
use vstd::prelude::*;

verus! {

/// What a search has collected once the walk below `root` has handed out
/// the nodes `seen`: the stored sequences among them, each once, in the
/// order of the walk.
#[verifier::opaque]
pub open spec fn walked<T: Element>(trie: Trie<T>, root: Seq<T>, seen: Seq<Seq<T>>, found: Seq<Seq<T>>) -> bool {
    &&& forall|s: Seq<T>| #[trigger] seen.contains(s) ==> trie.has_node(s) && root.is_prefix_of(s)
    &&& found.no_duplicates()
    &&& forall|s: Seq<T>| #[trigger] found.contains(s) <==> seen.contains(s) && trie@.contains(s)
    &&& forall|i: int, j: int|
        0 <= i < j < found.len() ==> trie.dfs_before(#[trigger] found[i], #[trigger] found[j])
}

/// Whether the path of a search fits the node handed out last: it is that
/// node's key, or the key of its parent where the node has no children.
pub open spec fn on_track<T: Element>(trie: Trie<T>, last: Seq<T>, path: Seq<T>) -> bool {
    path == last || (path == parent_key(last) && trie.children_at(last).len() == 0)
}

/// The parent of the node that a walk hands out next lies on the path of
/// the search, so that cutting the path back to the parent's length and
/// appending the node's element gives the node's key.
pub proof fn lemma_track<T: Element>(trie: Trie<T>, last: Seq<T>, k: Seq<T>, path: Seq<T>)
    requires
        trie.wf(),
        trie.has_node(last),
        trie.has_node(k),
        parent_key(k).is_prefix_of(last),
        on_track(trie, last, path),
    ensures
        k.len() > 0,
        k.len() - 1 <= path.len(),
        path.take(k.len() - 1) == parent_key(k),
        parent_key(k).push(trie.node_at(k).val) == k,
        trie.children_at(k) == trie.node_at(k).children,
{
    let m = trie.children@;
    assert(node_ok(m, k));
    assert(node_ok(m, last));
    let above = parent_key(k);
    assert(above =~= k.take(k.len() - 1));
    if path != last {
        if above == last {
            assert(is_child(m, last, k));
            assert(m[last].children.contains(k));
        }
        if above.len() == last.len() {
            assert(above =~= last);
        }
        assert(parent_key(last) =~= last.take(last.len() - 1));
        lemma_prefixes_nest(above, parent_key(last), last);
    }
    lemma_prefix_is_take(above, path);
    assert(above.push(m[k].val) =~= k);
}

/// Handing out one more node keeps what a search has collected in step
/// with the walk, where the node's key is collected exactly if a sequence
/// ends at it.
pub proof fn lemma_walked<T: Element>(trie: Trie<T>, root: Seq<T>, seen: Seq<Seq<T>>, found: Seq<Seq<T>>, k: Seq<T>)
    requires
        walked(trie, root, seen, found),
        trie.has_node(k),
        root.is_prefix_of(k),
        !seen.contains(k),
        forall|y: Seq<T>| seen.contains(y) ==> #[trigger] trie.dfs_before(y, k),
    ensures
        trie@.contains(k) ==> walked(trie, root, seen.push(k), found.push(k)),
        !trie@.contains(k) ==> walked(trie, root, seen.push(k), found),
{
    reveal(walked);
    lemma_push_contains(seen, k);
    lemma_push_contains(found, k);
    if trie@.contains(k) {
        let f2 = found.push(k);
        assert(!found.contains(k));
        assert forall|i: int, j: int| 0 <= i < f2.len() && 0 <= j < f2.len() && i != j implies f2[i]
            != f2[j] by {
            if i < found.len() {
                assert(found.contains(found[i]));
            }
            if j < found.len() {
                assert(found.contains(found[j]));
            }
        }
        assert forall|i: int, j: int| 0 <= i < j < f2.len() implies trie.dfs_before(
            #[trigger] f2[i],
            #[trigger] f2[j],
        ) by {
            if j < found.len() {
                assert(f2[i] == found[i] && f2[j] == found[j]);
            } else {
                assert(f2[i] == found[i]);
                assert(found.contains(found[i]));
            }
        }
    }
}

impl<T: Element> Trie<T> {
    /// Whether `found` holds the stored sequences that start with `prefix`,
    /// each once, in depth-first order. An empty prefix is the key of no
    /// node, and nothing is found for it.
    pub open spec fn is_found(&self, prefix: Seq<T>, found: Seq<Seq<T>>) -> bool {
        &&& found.no_duplicates()
        &&& forall|s: Seq<T>| #[trigger]
            found.contains(s) <==> prefix.len() > 0 && self@.contains(s) && prefix.is_prefix_of(s)
        &&& forall|i: int, j: int|
            0 <= i < j < found.len() ==> self.dfs_before(#[trigger] found[i], #[trigger] found[j])
    }

    /// Walks `node` and the nodes below it depth first, and collects in
    /// `found` every stored sequence that ends on the way. The path of
    /// `found` follows the walk: it is cut back to the parent of each node
    /// that is reached, and the node's element is appended.
    fn _search(&self, node: &Node<T>, found: &mut Found<T>)
        requires
            self.wf(),
            node.wf(),
            self.has_node(node@.key),
            self.node_at(node@.key) == node@,
            old(found)@.len() == 0,
            old(found).path() == node@.key,
        ensures
            self.is_found(node@.key, final(found)@),
    {
        let ghost root = node@.key;
        let mut it = node.walk(self);
        proof {
            assert(node_ok(self.children@, root));
            reveal(walked);
        }
        loop
            invariant
                self.wf(),
                root.len() > 0,
                it.wf(),
                it.trie() == *self,
                it.root() == root,
                self.has_node(it.last_key()),
                walked(*self, root, it.yielded(), found@),
                on_track(*self, it.last_key(), found.path()),
            ensures
                walked(*self, root, it.yielded(), found@),
                forall|x: Seq<T>|
                    #[trigger] self.has_node(x) && root.is_prefix_of(x) ==> it.yielded().contains(x),
            decreases it.remaining(),
        {
            let ghost last = it.last_key();
            let ghost seen = it.yielded();
            let ghost had = found@;
            match it.next() {
                None => {
                    break ;
                },
                Some(n) => {
                    let depth = n.key().len() - 1;
                    proof {
                        lemma_track(*self, last, n@.key, found.path());
                    }
                    found.branch_split(depth);
                    found.push_val(n.to_value());
                    if n.is_terminal() && n.child_len() == 0 {
                        found.branch_end();
                    } else if n.is_terminal() {
                        found.branch_end_continue();
                    }
                    proof {
                        lemma_walked(*self, root, seen, had, n@.key);
                    }
                },
            }
        }
        proof {
            reveal(walked);
            assert forall|s: Seq<T>| #[trigger]
                found@.contains(s) <==> root.len() > 0 && self@.contains(s) && root.is_prefix_of(
                    s,
                ) by {
                if self@.contains(s) && root.is_prefix_of(s) {
                    assert(self.has_node(s));
                }
            }
        }
    }

    /// The stored sequences that start with `seq_key`, each once, in
    /// depth-first order. Where `seq_key` is the key of no node, nothing is
    /// collected and the path of the result is `seq_key` itself.
    pub fn search(&self, seq_key: &[T]) -> (res: Found<T>)
        requires
            self.wf(),
        ensures
            self.is_found(seq_key@, res@),
            !self.has_node(seq_key@) ==> res@.len() == 0 && res.path() == seq_key@,
    {
        let key = key_from_seq(seq_key);
        let mut res = Found::new();
        res.extend(seq_key);
        assert(res.path() =~= seq_key@);
        match self.children.get(key.as_slice()) {
            Some(node) => {
                self._search(node, &mut res);
            },
            None => {
                proof {
                    assert forall|s: Seq<T>| self@.contains(s) && seq_key@.len() > 0
                        && seq_key@.is_prefix_of(s) implies false by {
                        lemma_prefix_is_take(seq_key@, s);
                        crate::shape::lemma_prefix_closed(
                            self.children@,
                            self.start_keys(),
                            s,
                            seq_key@.len() as int,
                        );
                    }
                }
            },
        }
        res
    }
}

} // verus!
