//! What holds of a trie in every state, and of its operations taken together.
use crate::element::Element;
use crate::key::parent_key;
use crate::shape::{
    is_child, lemma_descend, lemma_link, lemma_prefix_closed, lemma_prefix_is_take, node_ok,
    on_path, siblings_after_insert,
};
use crate::trie::Trie;
use vstd::prelude::*;

verus! {

/// Whether `post` is what an insertion of `seq` makes of `pre`.
pub open spec fn inserted<T: Element>(pre: Trie<T>, post: Trie<T>, seq: Seq<T>) -> bool {
    &&& post.wf()
    &&& post@ == (if seq.len() > 0 {
        pre@.insert(seq)
    } else {
        pre@
    })
    &&& forall|k: Seq<T>| #[trigger] post.has_node(k) == (pre.has_node(k) || on_path(seq, k))
    &&& forall|k: Seq<T>| #[trigger]
        post.children_at(k) == siblings_after_insert(pre.children_at(k), seq, k)
}

/// The stored sequences after each sequence of `seqs` has been inserted in
/// turn; empty ones are ignored.
pub open spec fn after_inserts<T>(view: Set<Seq<T>>, seqs: Seq<Seq<T>>) -> Set<Seq<T>>
    decreases seqs.len(),
{
    if seqs.len() == 0 {
        view
    } else if seqs.last().len() > 0 {
        after_inserts(view, seqs.drop_last()).insert(seqs.last())
    } else {
        after_inserts(view, seqs.drop_last())
    }
}

/// The stored sequences after each sequence of `seqs` has been removed in turn.
pub open spec fn after_removes<T>(view: Set<Seq<T>>, seqs: Seq<Seq<T>>) -> Set<Seq<T>>
    decreases seqs.len(),
{
    if seqs.len() == 0 {
        view
    } else {
        after_removes(view, seqs.drop_last()).remove(seqs.last())
    }
}

/// A node exists exactly for the non-empty prefixes of the stored sequences.
pub proof fn lemma_nodes_are_prefixes<T: Element>(trie: Trie<T>, k: Seq<T>)
    requires
        trie.wf(),
    ensures
        trie.has_node(k) <==> k.len() > 0 && exists|s: Seq<T>|
            #[trigger] trie@.contains(s) && k.is_prefix_of(s),
{
    let m = trie.children@;
    let starts = trie.start_keys();
    if trie.has_node(k) {
        assert(node_ok(m, k));
        let s = lemma_descend(m, starts, k);
        assert(trie@.contains(s) && k.is_prefix_of(s));
    }
    if k.len() > 0 && exists|s: Seq<T>| #[trigger] trie@.contains(s) && k.is_prefix_of(s) {
        let s = choose|s: Seq<T>| #[trigger] trie@.contains(s) && k.is_prefix_of(s);
        lemma_prefix_is_take(k, s);
        lemma_prefix_closed(m, starts, s, k.len() as int);
    }
}

/// The last node of a sequence exists exactly if every position of the
/// sequence has its node.
pub proof fn lemma_path_has_nodes<T: Element>(trie: Trie<T>, seq: Seq<T>)
    requires
        trie.wf(),
    ensures
        trie.has_node(seq) <==> seq.len() > 0 && forall|j: int|
            0 < j <= seq.len() ==> trie.has_node(#[trigger] seq.take(j)),
{
    let m = trie.children@;
    if trie.has_node(seq) {
        assert(node_ok(m, seq));
        assert forall|j: int| 0 < j <= seq.len() implies trie.has_node(#[trigger] seq.take(j)) by {
            lemma_prefix_closed(m, trie.start_keys(), seq, j);
        }
    }
    if seq.len() > 0 && forall|j: int| 0 < j <= seq.len() ==> trie.has_node(#[trigger] seq.take(j)) {
        assert(seq.take(seq.len() as int) =~= seq);
    }
}

/// A sequence is stored exactly if its node exists and is terminal.
pub proof fn lemma_terminal_is_stored<T: Element>(trie: Trie<T>, s: Seq<T>)
    requires
        trie.wf(),
    ensures
        trie@.contains(s) <==> trie.has_node(s) && trie.node_at(s).terminal,
        trie.has_node(s) ==> trie.node_at(s).key == s && trie.node_at(s).val == s.last()
            && trie.node_at(s).children == trie.children_at(s),
{
    if trie.has_node(s) {
        assert(node_ok(trie.children@, s));
    }
}

/// The keys listed under a node, or among the start keys under the empty
/// key, are the keys of the nodes one position below it, each once.
pub proof fn lemma_children_are_nodes<T: Element>(trie: Trie<T>, k: Seq<T>, c: Seq<T>)
    requires
        trie.wf(),
        k.len() == 0 || trie.has_node(k),
    ensures
        trie.children_at(k).no_duplicates(),
        trie.children_at(k).contains(c) <==> trie.has_node(c) && c.len() > 0 && parent_key(c) == k,
{
    let m = trie.children@;
    if k.len() == 0 {
        if trie.has_node(c) {
            assert(node_ok(m, c));
        }
        if c.len() == 1 {
            assert(parent_key(c) =~= k);
        }
        if c.len() > 0 && parent_key(c) == k {
            assert(c.len() == 1);
        }
    } else {
        assert(node_ok(m, k));
        assert(m[k].children.contains(c) <==> is_child(m, k, c));
    }
}

/// The count of live nodes is the number of keys under which a node is filed.
pub proof fn lemma_count_is_nodes<T: Element>(trie: Trie<T>)
    requires
        trie.wf(),
    ensures
        Set::new(|k: Seq<T>| trie.has_node(k)).finite(),
        trie.node_count() == Set::new(|k: Seq<T>| trie.has_node(k)).len(),
{
    assert(Set::new(|k: Seq<T>| trie.has_node(k)) =~= trie.children@.dom());
}

/// Inserting a sequence a second time changes nothing: the stored
/// sequences, the nodes, their count and the order of their children stay
/// as the first insertion left them.
pub proof fn lemma_insert_idempotent<T: Element>(t0: Trie<T>, t1: Trie<T>, t2: Trie<T>, seq: Seq<T>)
    requires
        t0.wf(),
        inserted(t0, t1, seq),
        inserted(t1, t2, seq),
    ensures
        t2@ == t1@,
        t2.node_count() == t1.node_count(),
        forall|k: Seq<T>| t2.has_node(k) == t1.has_node(k),
        forall|k: Seq<T>| t2.children_at(k) == t1.children_at(k),
        forall|s: Seq<T>| t2@.contains(s) == t1@.contains(s),
{
    assert(t2@ =~= t1@);
    assert forall|k: Seq<T>| t2.has_node(k) == t1.has_node(k) by {
        assert(t2.has_node(k) == (t1.has_node(k) || on_path(seq, k)));
        assert(t1.has_node(k) == (t0.has_node(k) || on_path(seq, k)));
    }
    lemma_count_is_nodes(t1);
    lemma_count_is_nodes(t2);
    assert(Set::new(|k: Seq<T>| t2.has_node(k)) =~= Set::new(|k: Seq<T>| t1.has_node(k)));
    assert forall|k: Seq<T>| t2.children_at(k) == t1.children_at(k) by {
        assert(t2.children_at(k) == siblings_after_insert(t1.children_at(k), seq, k));
        assert(t1.children_at(k) == siblings_after_insert(t0.children_at(k), seq, k));
        if k.len() < seq.len() && k.is_prefix_of(seq) {
            lemma_children_distinct(t0, k);
            lemma_link(t0.children_at(k), seq.take((k.len() + 1) as int));
        }
    }
}

/// No list of children, and not the list of start keys, names a key twice.
pub proof fn lemma_children_distinct<T: Element>(trie: Trie<T>, k: Seq<T>)
    requires
        trie.wf(),
    ensures
        trie.children_at(k).no_duplicates(),
{
    crate::order::lemma_siblings_distinct(trie.children@, trie.start_keys(), k);
}

/// Depth-first order never puts two nodes before each other, and no node
/// before itself: the order in which a walk hands the nodes out is the only
/// one that agrees with it.
pub proof fn lemma_order_one_way<T: Element>(trie: Trie<T>, a: Seq<T>, b: Seq<T>)
    requires
        trie.wf(),
        trie.dfs_before(a, b),
    ensures
        a != b,
        !trie.dfs_before(b, a),
{
    crate::order::lemma_dfs_asymmetric(trie.children@, trie.start_keys(), a, b);
    crate::order::lemma_dfs_irreflexive(trie.children@, trie.start_keys(), a);
}

/// After any insertions, a sequence is stored exactly if it was stored
/// before or is one of the non-empty sequences inserted.
pub proof fn lemma_after_inserts<T>(view: Set<Seq<T>>, seqs: Seq<Seq<T>>, s: Seq<T>)
    ensures
        after_inserts(view, seqs).contains(s) <==> view.contains(s) || (s.len() > 0
            && seqs.contains(s)),
    decreases seqs.len(),
{
    if seqs.len() > 0 {
        let rest = seqs.drop_last();
        lemma_after_inserts(view, rest, s);
        crate::key::lemma_push_contains(rest, seqs.last());
        assert(rest.push(seqs.last()) =~= seqs);
    }
}

/// After any removals, a sequence is stored exactly if it was stored before
/// and is none of the sequences removed.
pub proof fn lemma_after_removes<T>(view: Set<Seq<T>>, seqs: Seq<Seq<T>>, s: Seq<T>)
    ensures
        after_removes(view, seqs).contains(s) <==> view.contains(s) && !seqs.contains(s),
    decreases seqs.len(),
{
    if seqs.len() > 0 {
        let rest = seqs.drop_last();
        lemma_after_removes(view, rest, s);
        crate::key::lemma_push_contains(rest, seqs.last());
        assert(rest.push(seqs.last()) =~= seqs);
    }
}

/// Inserting any sequences into an empty trie and then removing all of
/// them, in whatever order, leaves nothing stored; and a trie in which
/// nothing is stored has no node left.
pub proof fn lemma_round_trip<T: Element>(trie: Trie<T>, ins: Seq<Seq<T>>, rem: Seq<Seq<T>>)
    requires
        trie.wf(),
        forall|i: int| 0 <= i < ins.len() ==> rem.contains(#[trigger] ins[i]),
        trie@ == after_removes(after_inserts(Set::<Seq<T>>::empty(), ins), rem),
    ensures
        trie@ == Set::<Seq<T>>::empty(),
        trie.node_count() == 0,
        forall|k: Seq<T>| !trie.has_node(k),
{
    assert forall|s: Seq<T>| !trie@.contains(s) by {
        lemma_after_removes(after_inserts(Set::<Seq<T>>::empty(), ins), rem, s);
        lemma_after_inserts(Set::<Seq<T>>::empty(), ins, s);
        if ins.contains(s) {
            let i = choose|i: int| 0 <= i < ins.len() && ins[i] == s;
            assert(rem.contains(ins[i]));
        }
    }
    assert(trie@ =~= Set::<Seq<T>>::empty());
    assert forall|k: Seq<T>| !(#[trigger] trie.children@.dom().contains(k)) by {
        lemma_nodes_are_prefixes(trie, k);
    }
    assert(trie.children@.dom() =~= Set::<Seq<T>>::empty());
}

/// What a search finds depends on the stored sequences alone, not on the
/// order in which they were inserted: two tries that store the same
/// sequences find the same ones for a prefix.
pub proof fn lemma_search_by_view<T: Element>(
    t1: Trie<T>,
    t2: Trie<T>,
    prefix: Seq<T>,
    f1: Seq<Seq<T>>,
    f2: Seq<Seq<T>>,
)
    requires
        t1@ == t2@,
        t1.is_found(prefix, f1),
        t2.is_found(prefix, f2),
    ensures
        f1.to_set() == f2.to_set(),
        f1.len() == f2.len(),
{
    assert(f1.to_set() =~= f2.to_set());
    f1.unique_seq_to_set();
    f2.unique_seq_to_set();
}

} // verus!
