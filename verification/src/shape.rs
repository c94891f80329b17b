//! The shape of a trie, stated over plain values: the map from edge key to
//! node, and the list of start keys.
use crate::node::NodeView;
use vstd::prelude::*;

verus! {

/// Whether `k` is the key of a position of `seq`: a non-empty prefix of it.
pub open spec fn on_path<T>(seq: Seq<T>, k: Seq<T>) -> bool {
    0 < k.len() <= seq.len() && k == seq.take(k.len() as int)
}

/// Whether `c` is a node one position below `k`.
pub open spec fn is_child<T>(m: Map<Seq<T>, NodeView<T>>, k: Seq<T>, c: Seq<T>) -> bool {
    m.contains_key(c) && c.len() == k.len() + 1 && c.drop_last() == k
}

/// What holds of each single node: it is filed under its own key, the node
/// above it exists, and if it has no children a sequence ends at it.
pub open spec fn node_ok<T>(m: Map<Seq<T>, NodeView<T>>, k: Seq<T>) -> bool {
    &&& m[k].wf()
    &&& m[k].key == k
    &&& k.len() > 1 ==> m.contains_key(k.drop_last())
    &&& m[k].children.len() == 0 ==> m[k].terminal
}

/// The invariant that ties nodes, child lists and start keys together.
pub open spec fn shape_wf<T>(m: Map<Seq<T>, NodeView<T>>, starts: Seq<Seq<T>>) -> bool {
    &&& m.dom().finite()
    &&& forall|k: Seq<T>| #[trigger] m.contains_key(k) ==> node_ok(m, k)
    &&& starts.no_duplicates()
    &&& forall|c: Seq<T>| #[trigger] starts.contains(c) <==> m.contains_key(c) && c.len() == 1
    &&& forall|k: Seq<T>, c: Seq<T>|
        m.contains_key(k) ==> (#[trigger] m[k].children.contains(c) <==> is_child(m, k, c))
}

/// The sequences that the nodes store: the keys of the terminal nodes.
pub open spec fn stored<T>(m: Map<Seq<T>, NodeView<T>>) -> Set<Seq<T>> {
    Set::new(|s: Seq<T>| m.contains_key(s) && m[s].terminal)
}

/// The keys listed under `parent`; the start keys stand under the empty key.
pub open spec fn siblings<T>(
    m: Map<Seq<T>, NodeView<T>>,
    starts: Seq<Seq<T>>,
    parent: Seq<T>,
) -> Seq<Seq<T>> {
    if parent.len() == 0 {
        starts
    } else if m.contains_key(parent) {
        m[parent].children
    } else {
        Seq::empty()
    }
}

/// The nodes strictly below `k`.
pub open spec fn below<T>(m: Map<Seq<T>, NodeView<T>>, k: Seq<T>) -> Set<Seq<T>> {
    m.dom().filter(|x: Seq<T>| k.is_prefix_of(x) && x != k)
}

/// `list` with `c` appended unless it is there already.
pub open spec fn link<A>(list: Seq<A>, c: A) -> Seq<A> {
    if list.contains(c) {
        list
    } else {
        list.push(c)
    }
}

pub proof fn lemma_link<A>(list: Seq<A>, c: A)
    requires
        list.no_duplicates(),
    ensures
        link(list, c).no_duplicates(),
        forall|x: A| #[trigger] link(list, c).contains(x) <==> list.contains(x) || x == c,
{
    if !list.contains(c) {
        let l2 = list.push(c);
        assert(l2[list.len() as int] == c);
        assert forall|x: A| #[trigger] l2.contains(x) <==> list.contains(x) || x == c by {
            if l2.contains(x) {
                let j = choose|j: int| 0 <= j < l2.len() && l2[j] == x;
                if j < list.len() {
                    assert(list[j] == x);
                }
            }
            if list.contains(x) {
                let j = choose|j: int| 0 <= j < list.len() && list[j] == x;
                assert(l2[j] == x);
            }
        }
    }
}

/// Facts about prefixes of a sequence.
pub proof fn lemma_take<T>(seq: Seq<T>, j: int)
    requires
        0 < j <= seq.len(),
    ensures
        on_path(seq, seq.take(j)),
        seq.take(j).len() == j,
        seq.take(j).drop_last() == seq.take(j - 1),
        seq.take(j).last() == seq[j - 1],
        seq.take(j).is_prefix_of(seq),
        seq.take(seq.len() as int) == seq,
        forall|i: int| 0 <= i <= j ==> #[trigger] seq.take(j).take(i) == seq.take(i),
{
    assert(seq.take(j).take(j) =~= seq.take(j));
    assert(seq.take(j).drop_last() =~= seq.take(j - 1));
    assert(seq.take(seq.len() as int) =~= seq);
    assert forall|i: int| 0 <= i <= j implies #[trigger] seq.take(j).take(i) == seq.take(i) by {
        assert(seq.take(j).take(i) =~= seq.take(i));
    }
}

/// A prefix of a sequence is the sequence cut at the prefix's length.
pub proof fn lemma_prefix_is_take<T>(p: Seq<T>, s: Seq<T>)
    requires
        p.is_prefix_of(s),
    ensures
        p == s.take(p.len() as int),
{
    assert(p =~= s.take(p.len() as int));
}

/// Every non-empty prefix of a node's key is the key of a node.
pub proof fn lemma_prefix_closed<T>(m: Map<Seq<T>, NodeView<T>>, starts: Seq<Seq<T>>, k: Seq<T>, j: int)
    requires
        shape_wf(m, starts),
        m.contains_key(k),
        0 < j <= k.len(),
    ensures
        m.contains_key(k.take(j)),
    decreases k.len() - j,
{
    lemma_take(k, k.len() as int);
    if j < k.len() {
        lemma_prefix_closed(m, starts, k, j + 1);
        let kk = k.take(j + 1);
        assert(m.contains_key(kk));
        assert(node_ok(m, kk));
        lemma_take(k, j + 1);
    }
}

/// Below every node, or at it, a stored sequence ends.
pub proof fn lemma_descend<T>(m: Map<Seq<T>, NodeView<T>>, starts: Seq<Seq<T>>, k: Seq<T>) -> (s: Seq<T>)
    requires
        shape_wf(m, starts),
        m.contains_key(k),
    ensures
        stored(m).contains(s),
        k.is_prefix_of(s),
    decreases below(m, k).len(),
{
    assert(node_ok(m, k));
    if m[k].terminal {
        k
    } else {
        let c = m[k].children[0];
        assert(m[k].children.contains(c));
        assert(is_child(m, k, c));
        assert(c.drop_last() =~= c.take(c.len() - 1));
        assert(k.is_prefix_of(c));
        m.dom().lemma_len_filter(|x: Seq<T>| k.is_prefix_of(x) && x != k);
        m.dom().lemma_len_filter(|x: Seq<T>| c.is_prefix_of(x) && x != c);
        assert(below(m, k).contains(c));
        assert(below(m, c).subset_of(below(m, k).remove(c)));
        vstd::set_lib::lemma_len_subset(below(m, c), below(m, k).remove(c));
        let s = lemma_descend(m, starts, c);
        s
    }
}

/// The node filed under `k` once the path of `seq` has been laid: a node on
/// the path lists its successor, and the last node of the path is terminal.
pub open spec fn inserted_node<T>(m: Map<Seq<T>, NodeView<T>>, seq: Seq<T>, k: Seq<T>) -> NodeView<T> {
    let base = if m.contains_key(k) {
        m[k].children
    } else {
        Seq::empty()
    };
    NodeView {
        key: k,
        val: k.last(),
        children: if on_path(seq, k) && k.len() < seq.len() {
            link(base, seq.take((k.len() + 1) as int))
        } else {
            base
        },
        terminal: (m.contains_key(k) && m[k].terminal) || k == seq,
    }
}

/// The nodes after `seq` has been inserted.
pub open spec fn inserted_map<T>(m: Map<Seq<T>, NodeView<T>>, seq: Seq<T>) -> Map<Seq<T>, NodeView<T>> {
    Map::new(
        |k: Seq<T>| m.contains_key(k) || on_path(seq, k),
        |k: Seq<T>| inserted_node(m, seq, k),
    )
}

/// The start keys after `seq` has been inserted.
pub open spec fn inserted_starts<T>(starts: Seq<Seq<T>>, seq: Seq<T>) -> Seq<Seq<T>> {
    if seq.len() > 0 {
        link(starts, seq.take(1))
    } else {
        starts
    }
}

/// The list under `k` after `seq` has been inserted: where `k` is a proper
/// prefix of `seq`, the empty one included, the next position's key is linked.
pub open spec fn siblings_after_insert<T>(list: Seq<Seq<T>>, seq: Seq<T>, k: Seq<T>) -> Seq<Seq<T>> {
    if k.len() < seq.len() && k.is_prefix_of(seq) {
        link(list, seq.take((k.len() + 1) as int))
    } else {
        list
    }
}

/// The node filed under `k` while the path of `seq` is being laid and the
/// first `p` positions are done. A node that was there before has its
/// successor linked as soon as it is reached; a node that was made has it
/// linked when the successor is made.
pub open spec fn step_node<T>(m: Map<Seq<T>, NodeView<T>>, seq: Seq<T>, p: int, k: Seq<T>) -> NodeView<T> {
    let base = if m.contains_key(k) {
        m[k].children
    } else {
        Seq::empty()
    };
    NodeView {
        key: k,
        val: k.last(),
        children: if on_path(seq, k) && k.len() < seq.len() && (k.len() < p || (k.len() == p
            && m.contains_key(k))) {
            link(base, seq.take((k.len() + 1) as int))
        } else {
            base
        },
        terminal: (m.contains_key(k) && m[k].terminal) || k == seq,
    }
}

/// The nodes while the path of `seq` is being laid and the first `p`
/// positions are done.
pub open spec fn step_map<T>(m: Map<Seq<T>, NodeView<T>>, seq: Seq<T>, p: int) -> Map<Seq<T>, NodeView<T>> {
    Map::new(
        |k: Seq<T>| m.contains_key(k) || (on_path(seq, k) && k.len() <= p),
        |k: Seq<T>| step_node(m, seq, p, k),
    )
}

/// The start keys while the path of `seq` is being laid and the first `p`
/// positions are done.
pub open spec fn step_starts<T>(starts: Seq<Seq<T>>, seq: Seq<T>, p: int) -> Seq<Seq<T>> {
    if p > 0 {
        link(starts, seq.take(1))
    } else {
        starts
    }
}

/// Before the first position nothing has changed.
pub proof fn lemma_step_first<T>(m: Map<Seq<T>, NodeView<T>>, starts: Seq<Seq<T>>, seq: Seq<T>)
    requires
        shape_wf(m, starts),
        !m.contains_key(seq),
    ensures
        step_map(m, seq, 0) == m,
{
    assert forall|k: Seq<T>| m.contains_key(k) implies step_node(m, seq, 0, k) == m[k] by {
        assert(node_ok(m, k));
    }
    assert(step_map(m, seq, 0) =~= m);
}

/// After the last position the sequence is inserted.
pub proof fn lemma_step_last<T>(m: Map<Seq<T>, NodeView<T>>, starts: Seq<Seq<T>>, seq: Seq<T>)
    requires
        seq.len() > 0,
    ensures
        step_map(m, seq, seq.len() as int) == inserted_map(m, seq),
        step_starts(starts, seq, seq.len() as int) == inserted_starts(starts, seq),
{
    assert(step_map(m, seq, seq.len() as int) =~= inserted_map(m, seq));
}

/// A position whose node was there already: linking its successor is the
/// whole step.
pub proof fn lemma_step_present<T>(m: Map<Seq<T>, NodeView<T>>, starts: Seq<Seq<T>>, seq: Seq<T>, p: int)
    requires
        shape_wf(m, starts),
        0 <= p < seq.len(),
        step_map(m, seq, p).contains_key(seq.take(p + 1)),
    ensures
        m.contains_key(seq.take(p + 1)),
        step_map(m, seq, p + 1) == step_map(m, seq, p).insert(
            seq.take(p + 1),
            step_map(m, seq, p)[seq.take(p + 1)].with_children(
                crate::node::linked_children(step_map(m, seq, p)[seq.take(p + 1)].children, seq, p),
            ),
        ),
{
    let cur = step_map(m, seq, p);
    let key = seq.take(p + 1);
    lemma_take(seq, p + 1);
    if p + 1 < seq.len() {
        lemma_take(seq, p + 2);
    }
    let next = cur.insert(
        key,
        cur[key].with_children(crate::node::linked_children(cur[key].children, seq, p)),
    );
    assert forall|k: Seq<T>| #[trigger] next.contains_key(k) implies next[k] == step_node(m, seq, p + 1, k) by {
        if k != key {
            if on_path(seq, k) && k.len() == p + 1 {
                assert(k == key);
            }
        }
    }
    assert(next =~= step_map(m, seq, p + 1));
}

/// A position without a node: the node is made, and linked under the node
/// of the position before it.
pub proof fn lemma_step_absent<T>(m: Map<Seq<T>, NodeView<T>>, starts: Seq<Seq<T>>, seq: Seq<T>, p: int)
    requires
        shape_wf(m, starts),
        0 <= p < seq.len(),
        !step_map(m, seq, p).contains_key(seq.take(p + 1)),
    ensures
        !m.contains_key(seq.take(p + 1)),
        p > 0 ==> step_map(m, seq, p).contains_key(seq.take(p)),
        p == 0 ==> !starts.contains(seq.take(1)),
        step_map(m, seq, p + 1) == ({
            let made = step_map(m, seq, p).insert(
                seq.take(p + 1),
                NodeView {
                    key: seq.take(p + 1),
                    val: seq[p],
                    children: Seq::empty(),
                    terminal: p + 1 == seq.len(),
                },
            );
            if p > 0 {
                made.insert(
                    seq.take(p),
                    made[seq.take(p)].with_children(link(made[seq.take(p)].children, seq.take(p + 1))),
                )
            } else {
                made
            }
        }),
{
    let cur = step_map(m, seq, p);
    let key = seq.take(p + 1);
    lemma_take(seq, p + 1);
    lemma_take(seq, seq.len() as int);
    let made = cur.insert(
        key,
        NodeView { key, val: seq[p], children: Seq::empty(), terminal: p + 1 == seq.len() },
    );
    if p > 0 {
        let parent = seq.take(p);
        lemma_take(seq, p);
        assert(on_path(seq, parent));
        let next = made.insert(parent, made[parent].with_children(link(made[parent].children, key)));
        assert forall|k: Seq<T>| #[trigger] next.contains_key(k) implies next[k] == step_node(m, seq, p + 1, k) by {
            if k == parent {
                let base = if m.contains_key(k) {
                    m[k].children
                } else {
                    Seq::empty()
                };
                if m.contains_key(k) {
                    assert(link(base, key).contains(key)) by {
                        if !base.contains(key) {
                            assert(base.push(key)[base.len() as int] == key);
                        }
                    }
                }
            } else if k != key {
                if on_path(seq, k) && (k.len() == p + 1 || k.len() == p) {
                    assert(k == key || k == parent);
                }
            }
        }
        assert(next =~= step_map(m, seq, p + 1));
    } else {
        assert forall|k: Seq<T>| #[trigger] made.contains_key(k) implies made[k] == step_node(m, seq, 1, k) by {
            if k != key {
                if on_path(seq, k) && k.len() == 1 {
                    assert(k == key);
                }
            }
        }
        assert(made =~= step_map(m, seq, 1));
    }
}

/// Where the last node of `seq` exists, inserting `seq` only marks it.
pub proof fn lemma_inserted_present<T>(m: Map<Seq<T>, NodeView<T>>, starts: Seq<Seq<T>>, seq: Seq<T>)
    requires
        shape_wf(m, starts),
        m.contains_key(seq),
    ensures
        inserted_map(m, seq) == m.insert(seq, m[seq].with_terminal(true)),
        inserted_starts(starts, seq) == starts,
{
    assert(node_ok(m, seq));
    lemma_prefix_closed(m, starts, seq, 1);
    assert(starts.contains(seq.take(1)));
    let m1 = m.insert(seq, m[seq].with_terminal(true));
    assert forall|k: Seq<T>| on_path(seq, k) implies m.contains_key(k) by {
        lemma_prefix_closed(m, starts, seq, k.len() as int);
    }
    assert forall|k: Seq<T>| #[trigger] m1.contains_key(k) implies m1[k] == inserted_node(m, seq, k) by {
        assert(node_ok(m, k));
        if on_path(seq, k) && k.len() < seq.len() {
            let next = seq.take((k.len() + 1) as int);
            lemma_prefix_closed(m, starts, seq, (k.len() + 1) as int);
            lemma_take(seq, (k.len() + 1) as int);
            assert(is_child(m, k, next));
            assert(m[k].children.contains(next));
        }
    }
    assert(m1 =~= inserted_map(m, seq));
}

/// How the lists of siblings change when `seq` is inserted.
pub proof fn lemma_inserted_siblings<T>(m: Map<Seq<T>, NodeView<T>>, starts: Seq<Seq<T>>, seq: Seq<T>)
    requires
        shape_wf(m, starts),
        seq.len() > 0,
    ensures
        forall|k: Seq<T>| #[trigger]
            siblings(inserted_map(m, seq), inserted_starts(starts, seq), k)
                == siblings_after_insert(siblings(m, starts, k), seq, k),
{
    assert forall|k: Seq<T>| #[trigger]
        siblings(inserted_map(m, seq), inserted_starts(starts, seq), k) == siblings_after_insert(
            siblings(m, starts, k),
            seq,
            k,
        ) by {
        if k.len() <= seq.len() && k.is_prefix_of(seq) {
            lemma_prefix_is_take(k, seq);
        }
        if k.len() > 0 && m.contains_key(k) {
            assert(node_ok(m, k));
        }
        if on_path(seq, k) {
            lemma_take(seq, k.len() as int);
        }
    }
}

/// The keys of the positions of `seq`, shortest first.
pub open spec fn path_keys<T>(seq: Seq<T>) -> Seq<Seq<T>> {
    Seq::new(seq.len(), |i: int| seq.take(i + 1))
}

/// The positions of a sequence have finitely many keys.
pub proof fn lemma_path_finite<T>(seq: Seq<T>)
    ensures
        Set::new(|k: Seq<T>| on_path(seq, k)).finite(),
        Set::new(|k: Seq<T>| on_path(seq, k)).len() == seq.len(),
{
    let keys = path_keys(seq);
    let set = Set::new(|k: Seq<T>| on_path(seq, k));
    assert forall|k: Seq<T>| set.contains(k) <==> keys.to_set().contains(k) by {
        if on_path(seq, k) {
            assert(keys[k.len() - 1] == k);
        }
        if keys.to_set().contains(k) {
            let i = choose|i: int| 0 <= i < keys.len() && keys[i] == k;
            lemma_take(seq, i + 1);
        }
    }
    assert(set =~= keys.to_set());
    vstd::seq_lib::seq_to_set_is_finite(keys);
    assert forall|i: int, j: int| 0 <= i < keys.len() && 0 <= j < keys.len() && i != j implies keys[i]
        != keys[j] by {
        assert(keys[i].len() == i + 1);
        assert(keys[j].len() == j + 1);
    }
    keys.unique_seq_to_set();
}

/// Inserting a sequence keeps the shape, and stores that sequence and no other.
pub proof fn lemma_inserted_shape<T>(m: Map<Seq<T>, NodeView<T>>, starts: Seq<Seq<T>>, seq: Seq<T>)
    requires
        shape_wf(m, starts),
        seq.len() > 0,
    ensures
        shape_wf(inserted_map(m, seq), inserted_starts(starts, seq)),
        stored(inserted_map(m, seq)) == stored(m).insert(seq),
{
    let m1 = inserted_map(m, seq);
    let st1 = inserted_starts(starts, seq);
    lemma_path_finite(seq);
    assert(m1.dom() =~= m.dom().union(Set::new(|k: Seq<T>| on_path(seq, k))));
    lemma_take(seq, seq.len() as int);
    lemma_take(seq, 1);
    lemma_link(starts, seq.take(1));
    assert forall|k: Seq<T>| #[trigger] m1.contains_key(k) implies m1[k].children.no_duplicates()
        && (forall|c: Seq<T>| #[trigger]
        m1[k].children.contains(c) <==> is_child(m1, k, c)) by {
        let base = if m.contains_key(k) {
            m[k].children
        } else {
            Seq::empty()
        };
        if m.contains_key(k) {
            assert(node_ok(m, k));
        }
        assert(base.no_duplicates());
        if on_path(seq, k) && k.len() < seq.len() {
            let next = seq.take((k.len() + 1) as int);
            lemma_take(seq, (k.len() + 1) as int);
            lemma_link(base, next);
        }
        assert forall|c: Seq<T>| #[trigger] m1[k].children.contains(c) <==> is_child(m1, k, c) by {
            if m.contains_key(k) {
                assert(m[k].children.contains(c) <==> is_child(m, k, c));
            }
            if is_child(m1, k, c) {
                if m.contains_key(c) {
                    assert(node_ok(m, c));
                    assert(m.contains_key(k));
                    assert(m[k].children.contains(c));
                } else {
                    assert(on_path(seq, c));
                    lemma_take(seq, c.len() as int);
                    assert(on_path(seq, k));
                }
            }
        }
    }
    assert forall|k: Seq<T>| #[trigger] m1.contains_key(k) implies node_ok(m1, k) by {
        if m.contains_key(k) {
            assert(node_ok(m, k));
        }
        if on_path(seq, k) {
            lemma_take(seq, k.len() as int);
            if k.len() > 1 {
                lemma_take(seq, k.len() - 1);
            }
            if k.len() < seq.len() {
                let base = if m.contains_key(k) {
                    m[k].children
                } else {
                    Seq::empty()
                };
                let next = seq.take((k.len() + 1) as int);
                assert(link(base, next).contains(next)) by {
                    if !base.contains(next) {
                        assert(base.push(next)[base.len() as int] == next);
                    }
                }
            }
        }
    }
    assert forall|c: Seq<T>| #[trigger] st1.contains(c) <==> m1.contains_key(c) && c.len() == 1 by {
        assert(starts.contains(c) <==> m.contains_key(c) && c.len() == 1);
    }
    assert(stored(m1) =~= stored(m).insert(seq));
}

} // verus!
