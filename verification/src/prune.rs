//! The effect of a removal, stated over plain values: which nodes leave,
//! and why the shape of the trie survives.
use crate::key::{lemma_without, without};
use crate::node::NodeView;
use crate::shape::{
    is_child, lemma_path_finite, lemma_prefix_closed, lemma_prefix_is_take, lemma_take, node_ok,
    on_path, shape_wf, siblings, stored,
};
use vstd::prelude::*;

verus! {

/// Whether the node at `k` outlives the loss of one child: a sequence ends
/// at it, or it has another child.
pub open spec fn needed<T>(m: Map<Seq<T>, NodeView<T>>, k: Seq<T>) -> bool {
    m[k].terminal || m[k].children.len() > 1
}

/// The node filed under `k` after the path of `seq` has been cut below its
/// first `c` elements: the node at the cut no longer lists its successor.
pub open spec fn trimmed_node<T>(m: Map<Seq<T>, NodeView<T>>, seq: Seq<T>, c: int, k: Seq<T>) -> NodeView<T> {
    if c > 0 && k == seq.take(c) {
        m[k].with_children(without(m[k].children, seq.take(c + 1)))
    } else {
        m[k]
    }
}

/// The nodes after the path of `seq` has been cut below its first `c`
/// elements, as far as the nodes of up to `upto` elements go.
#[verifier::opaque]
pub open spec fn trimmed_range<T>(m: Map<Seq<T>, NodeView<T>>, seq: Seq<T>, c: int, upto: int) -> Map<
    Seq<T>,
    NodeView<T>,
> {
    Map::new(
        |k: Seq<T>| m.contains_key(k) && !(on_path(seq, k) && c < k.len() <= upto),
        |k: Seq<T>| trimmed_node(m, seq, c, k),
    )
}

/// The nodes after the path of `seq` has been cut below its first `c` elements.
pub open spec fn trimmed_map<T>(m: Map<Seq<T>, NodeView<T>>, seq: Seq<T>, c: int) -> Map<Seq<T>, NodeView<T>> {
    trimmed_range(m, seq, c, seq.len() as int)
}

/// The start keys after the path of `seq` has been cut below its first `c`
/// elements: a cut above the first element takes the start key out.
pub open spec fn trimmed_starts<T>(starts: Seq<Seq<T>>, seq: Seq<T>, c: int) -> Seq<Seq<T>> {
    if c == 0 {
        without(starts, seq.take(1))
    } else {
        starts
    }
}

/// Whether `c` is where the path of the stored, childless `seq` has to be
/// cut: every node below the cut serves `seq` alone, and the node at the cut,
/// if there is one, serves another sequence too.
pub open spec fn cut_point<T>(m: Map<Seq<T>, NodeView<T>>, seq: Seq<T>, c: int) -> bool {
    &&& 0 <= c < seq.len()
    &&& c > 0 ==> needed(m, seq.take(c))
    &&& forall|j: int| c < j < seq.len() ==> !needed(m, #[trigger] seq.take(j))
}

/// Whether no sequence ends at a position of `seq` before the last.
#[verifier::opaque]
pub open spec fn no_inner_stored<T>(m: Map<Seq<T>, NodeView<T>>, seq: Seq<T>) -> bool {
    forall|j: int| 0 < j < seq.len() ==> !stored(m).contains(#[trigger] seq.take(j))
}

/// Whether every node of the path of `seq` below its first `i` elements,
/// the last one apart, serves `seq` alone.
#[verifier::opaque]
pub open spec fn unshared_below<T>(m: Map<Seq<T>, NodeView<T>>, seq: Seq<T>, i: int) -> bool {
    forall|j: int| i < j < seq.len() ==> !needed(m, #[trigger] seq.take(j))
}

/// The list under `k` after `seq` has been removed: where `k` is a proper
/// prefix of `seq`, the empty one included, and the node of the next position
/// is gone, its key is taken out.
pub open spec fn siblings_after_remove<T>(list: Seq<Seq<T>>, seq: Seq<T>, k: Seq<T>, next_stays: bool) -> Seq<
    Seq<T>,
> {
    if k.len() < seq.len() && k.is_prefix_of(seq) && !next_stays {
        without(list, seq.take((k.len() + 1) as int))
    } else {
        list
    }
}

/// A node that is not needed and is not the last of its path has exactly
/// one child, the next node of the path.
pub proof fn lemma_single_child<T>(m: Map<Seq<T>, NodeView<T>>, starts: Seq<Seq<T>>, seq: Seq<T>, j: int, x: Seq<T>)
    requires
        shape_wf(m, starts),
        m.contains_key(seq),
        0 < j < seq.len(),
        !needed(m, seq.take(j)),
        is_child(m, seq.take(j), x),
    ensures
        x == seq.take(j + 1),
{
    let k = seq.take(j);
    let next = seq.take(j + 1);
    lemma_prefix_closed(m, starts, seq, j);
    lemma_prefix_closed(m, starts, seq, j + 1);
    lemma_take(seq, j);
    lemma_take(seq, j + 1);
    assert(node_ok(m, k));
    assert(is_child(m, k, next));
    assert(m[k].children.contains(next));
    assert(m[k].children.contains(x));
    assert(m[k].children.len() == 1);
    let a = choose|a: int| 0 <= a < m[k].children.len() && m[k].children[a] == next;
    let b = choose|b: int| 0 <= b < m[k].children.len() && m[k].children[b] == x;
    assert(a == 0 && b == 0);
}

/// Cutting the path of a stored, childless sequence at its cut point keeps
/// the shape, and takes that sequence out of the stored ones and no other.
pub proof fn lemma_trimmed_shape<T>(m: Map<Seq<T>, NodeView<T>>, starts: Seq<Seq<T>>, seq: Seq<T>, c: int)
    requires
        shape_wf(m, starts),
        stored(m).contains(seq),
        m[seq].children.len() == 0,
        cut_point(m, seq, c),
    ensures
        shape_wf(trimmed_map(m, seq, c), trimmed_starts(starts, seq, c)),
        stored(trimmed_map(m, seq, c)) == stored(m).remove(seq),
{
    reveal(trimmed_range);
    let n = seq.len() as int;
    let m1 = trimmed_map(m, seq, c);
    let st1 = trimmed_starts(starts, seq, c);
    lemma_take(seq, n);
    assert(node_ok(m, seq));
    assert(m1.dom().subset_of(m.dom()));
    vstd::set_lib::lemma_len_subset(m1.dom(), m.dom());
    // A node whose parent leaves is on the path and leaves too.
    assert forall|k: Seq<T>, x: Seq<T>|
        m.contains_key(k) && on_path(seq, k) && k.len() > c && #[trigger] is_child(m, k, x) implies on_path(seq, x) && x.len() > c by {
        if k.len() == n {
            assert(k == seq);
            assert(m[seq].children.contains(x));
        } else {
            lemma_single_child(m, starts, seq, k.len() as int, x);
            lemma_take(seq, (k.len() + 1) as int);
        }
    }
    if c > 0 {
        lemma_take(seq, c);
        lemma_take(seq, c + 1);
        lemma_prefix_closed(m, starts, seq, c);
        assert(node_ok(m, seq.take(c)));
        lemma_without(m[seq.take(c)].children, seq.take(c + 1));
    }
    assert forall|k: Seq<T>, x: Seq<T>|
        m1.contains_key(k) implies (#[trigger] m1[k].children.contains(x) <==> is_child(m1, k, x)) by {
        assert(node_ok(m, k));
        assert(m[k].children.contains(x) <==> is_child(m, k, x));
        if is_child(m, k, x) && on_path(seq, x) && x.len() > c {
            lemma_take(seq, x.len() as int);
            assert(k == seq.take(x.len() - 1));
            assert(on_path(seq, k));
            assert(x.len() == c + 1);
        }
    }
    assert forall|k: Seq<T>| #[trigger] m1.contains_key(k) implies node_ok(m1, k) by {
        assert(node_ok(m, k));
        if k.len() > 1 {
            let p = k.drop_last();
            assert(is_child(m, p, k));
            if on_path(seq, p) && p.len() > c {
                assert(on_path(seq, k) && k.len() > c);
            }
        }
        if c > 0 && k == seq.take(c) {
            if m1[k].children.len() == 0 {
                assert(m[k].children.len() <= 1);
            }
        }
    }
    if c == 0 {
        lemma_take(seq, 1);
        lemma_without(starts, seq.take(1));
    }
    assert forall|x: Seq<T>| #[trigger] st1.contains(x) <==> m1.contains_key(x) && x.len() == 1 by {
        assert(starts.contains(x) <==> m.contains_key(x) && x.len() == 1);
        if on_path(seq, x) && x.len() == 1 {
            lemma_take(seq, 1);
        }
    }
    assert forall|s: Seq<T>| stored(m1).contains(s) <==> stored(m).remove(seq).contains(s) by {
        if m.contains_key(s) && m[s].terminal && on_path(seq, s) && s.len() > c {
            if s.len() < n {
                assert(!needed(m, seq.take(s.len() as int)));
            }
        }
    }
    assert(stored(m1) =~= stored(m).remove(seq));
}

/// Clearing the terminal flag of a node with children keeps the shape, and
/// takes its sequence out of the stored ones and no other.
pub proof fn lemma_unmarked_shape<T>(m: Map<Seq<T>, NodeView<T>>, starts: Seq<Seq<T>>, seq: Seq<T>)
    requires
        shape_wf(m, starts),
        m.contains_key(seq),
        m[seq].children.len() > 0,
    ensures
        shape_wf(m.insert(seq, m[seq].with_terminal(false)), starts),
        stored(m.insert(seq, m[seq].with_terminal(false))) == stored(m).remove(seq),
{
    let m1 = m.insert(seq, m[seq].with_terminal(false));
    assert(m1.dom() =~= m.dom());
    assert forall|k: Seq<T>| #[trigger] m1.contains_key(k) implies node_ok(m1, k) by {
        assert(node_ok(m, k));
    }
    assert forall|k: Seq<T>, x: Seq<T>|
        m1.contains_key(k) implies (#[trigger] m1[k].children.contains(x) <==> is_child(m1, k, x)) by {
        assert(m[k].children.contains(x) <==> is_child(m, k, x));
    }
    assert forall|x: Seq<T>| #[trigger] starts.contains(x) <==> m1.contains_key(x) && x.len() == 1 by {
        assert(starts.contains(x) <==> m.contains_key(x) && x.len() == 1);
    }
    assert(stored(m1) =~= stored(m).remove(seq));
}

/// Before anything is cut, the nodes of a childless sequence are as they were.
pub proof fn lemma_trim_none<T>(m: Map<Seq<T>, NodeView<T>>, starts: Seq<Seq<T>>, seq: Seq<T>)
    requires
        shape_wf(m, starts),
        m.contains_key(seq),
        m[seq].children.len() == 0,
    ensures
        trimmed_map(m, seq, seq.len() as int) == m,
{
    reveal(trimmed_range);
    let n = seq.len() as int;
    assert(node_ok(m, seq));
    lemma_take(seq, n);
    assert(m[seq].children =~= Seq::<Seq<T>>::empty());
    lemma_without(m[seq].children, seq.take(n + 1));
    assert(trimmed_map(m, seq, n) =~= m);
}

/// Unlinking the successor of the node at the cut is the first step of a cut.
pub proof fn lemma_trim_unlink<T>(m: Map<Seq<T>, NodeView<T>>, starts: Seq<Seq<T>>, seq: Seq<T>, c: int)
    requires
        shape_wf(m, starts),
        m.contains_key(seq),
        0 < c < seq.len(),
    ensures
        m.contains_key(seq.take(c)),
        trimmed_range(m, seq, c, c) == m.insert(
            seq.take(c),
            m[seq.take(c)].with_children(without(m[seq.take(c)].children, seq.take(c + 1))),
        ),
        trimmed_range(m, seq, c, c).dom() == m.dom(),
{
    reveal(trimmed_range);
    lemma_prefix_closed(m, starts, seq, c);
    lemma_take(seq, c);
    let m1 = m.insert(
        seq.take(c),
        m[seq.take(c)].with_children(without(m[seq.take(c)].children, seq.take(c + 1))),
    );
    assert(trimmed_range(m, seq, c, c) =~= m1);
    assert(m1.dom() =~= m.dom());
}

/// Below the cut, taking out the next node of the path is one step of a cut.
pub proof fn lemma_trim_down<T>(m: Map<Seq<T>, NodeView<T>>, starts: Seq<Seq<T>>, seq: Seq<T>, c: int, upto: int)
    requires
        shape_wf(m, starts),
        m.contains_key(seq),
        0 < c <= upto < seq.len(),
    ensures
        trimmed_range(m, seq, c, upto).contains_key(seq.take(upto + 1)),
        trimmed_range(m, seq, c, upto).remove(seq.take(upto + 1)) == trimmed_range(m, seq, c, upto + 1),
{
    reveal(trimmed_range);
    lemma_prefix_closed(m, starts, seq, upto + 1);
    lemma_take(seq, upto + 1);
    lemma_take(seq, c);
    assert(trimmed_range(m, seq, c, upto).remove(seq.take(upto + 1)) =~= trimmed_range(
        m,
        seq,
        c,
        upto + 1,
    ));
}

/// From the end upwards, unlinking a node from the one above it and taking
/// it out moves the cut up by one position. The node above is where the cut
/// stays if it keeps a child, and serves `seq` alone if it does not.
pub proof fn lemma_trim_up<T>(m: Map<Seq<T>, NodeView<T>>, starts: Seq<Seq<T>>, seq: Seq<T>, i: int)
    requires
        shape_wf(m, starts),
        m.contains_key(seq),
        0 < i < seq.len(),
        no_inner_stored(m, seq),
        unshared_below(m, seq, i),
    ensures
        trimmed_map(m, seq, i + 1).contains_key(seq.take(i)),
        trimmed_map(m, seq, i + 1).contains_key(seq.take(i + 1)),
        trimmed_map(m, seq, i + 1)[seq.take(i)] == m[seq.take(i)],
        trimmed_map(m, seq, i + 1).insert(
            seq.take(i),
            m[seq.take(i)].with_children(without(m[seq.take(i)].children, seq.take(i + 1))),
        ).remove(seq.take(i + 1)) == trimmed_map(m, seq, i),
        without(m[seq.take(i)].children, seq.take(i + 1)).len() == 0 ==> unshared_below(
            m,
            seq,
            i - 1,
        ),
        without(m[seq.take(i)].children, seq.take(i + 1)).len() != 0 ==> cut_point(m, seq, i),
{
    reveal(trimmed_range);
    reveal(no_inner_stored);
    reveal(unshared_below);
    let parent = seq.take(i);
    let key = seq.take(i + 1);
    lemma_prefix_closed(m, starts, seq, i);
    lemma_prefix_closed(m, starts, seq, i + 1);
    lemma_take(seq, i);
    lemma_take(seq, i + 1);
    assert(node_ok(m, parent));
    assert(crate::shape::is_child(m, parent, key));
    assert(m[parent].children.contains(key));
    lemma_without(m[parent].children, key);
    assert(!stored(m).contains(seq.take(i)));
    let cur = trimmed_map(m, seq, i + 1);
    let next = cur.insert(parent, m[parent].with_children(without(m[parent].children, key))).remove(
        key,
    );
    assert(next =~= trimmed_map(m, seq, i));
}

/// The walk from the end upwards starts below the last node.
pub proof fn lemma_trim_begin<T>(m: Map<Seq<T>, NodeView<T>>, seq: Seq<T>)
    requires
        seq.len() > 0,
        forall|j: int| 0 < j < seq.len() ==> !stored(m).contains(#[trigger] seq.take(j)),
    ensures
        no_inner_stored(m, seq),
        unshared_below(m, seq, seq.len() - 1),
{
    reveal(no_inner_stored);
    reveal(unshared_below);
}

/// Taking out the node of a sequence of one element is a cut above it.
pub proof fn lemma_trim_single<T>(m: Map<Seq<T>, NodeView<T>>, starts: Seq<Seq<T>>, seq: Seq<T>)
    requires
        shape_wf(m, starts),
        m.contains_key(seq),
        seq.len() == 1,
    ensures
        starts.contains(seq),
        seq.take(1) == seq,
        cut_point(m, seq, 0),
        m.remove(seq) == trimmed_map(m, seq, 0),
{
    reveal(trimmed_range);
    lemma_take(seq, 1);
    assert(m.remove(seq) =~= trimmed_map(m, seq, 0));
}

/// Taking out the first node, once it has lost its child, completes a cut
/// above the first element.
pub proof fn lemma_trim_first<T>(m: Map<Seq<T>, NodeView<T>>, starts: Seq<Seq<T>>, seq: Seq<T>)
    requires
        shape_wf(m, starts),
        m.contains_key(seq),
        seq.len() > 1,
        unshared_below(m, seq, 0),
    ensures
        starts.contains(seq.take(1)),
        trimmed_map(m, seq, 1).contains_key(seq.take(1)),
        trimmed_map(m, seq, 1)[seq.take(1)].children.len() == 0,
        trimmed_map(m, seq, 1).remove(seq.take(1)) == trimmed_map(m, seq, 0),
        cut_point(m, seq, 0),
{
    reveal(trimmed_range);
    reveal(unshared_below);
    let first = seq.take(1);
    assert(!needed(m, seq.take(1)));
    lemma_prefix_closed(m, starts, seq, 1);
    lemma_prefix_closed(m, starts, seq, 2);
    lemma_take(seq, 1);
    lemma_take(seq, 2);
    assert(node_ok(m, first));
    assert(starts.contains(first));
    assert(crate::shape::is_child(m, first, seq.take(2)));
    assert(m[first].children.contains(seq.take(2)));
    lemma_without(m[first].children, seq.take(2));
    assert(trimmed_map(m, seq, 1).remove(first) =~= trimmed_map(m, seq, 0));
}

/// The nodes that a cut leaves: all but those of the path below the cut.
pub proof fn lemma_trimmed_nodes<T>(m: Map<Seq<T>, NodeView<T>>, seq: Seq<T>, c: int)
    ensures
        forall|k: Seq<T>| #[trigger]
            trimmed_map(m, seq, c).contains_key(k) <==> m.contains_key(k) && !(on_path(seq, k)
                && k.len() > c),
{
    reveal(trimmed_range);
}

/// How the lists of siblings change when a path is cut: the node at the cut
/// loses the key of its successor, and every other list that is left stays
/// as it was.
pub proof fn lemma_trimmed_siblings<T>(m: Map<Seq<T>, NodeView<T>>, starts: Seq<Seq<T>>, seq: Seq<T>, c: int)
    requires
        shape_wf(m, starts),
        m.contains_key(seq),
        0 <= c < seq.len(),
    ensures
        forall|k: Seq<T>|
            k.len() == 0 || trimmed_map(m, seq, c).contains_key(k) ==> #[trigger] siblings(
                trimmed_map(m, seq, c),
                trimmed_starts(starts, seq, c),
                k,
            ) == siblings_after_remove(
                siblings(m, starts, k),
                seq,
                k,
                trimmed_map(m, seq, c).contains_key(seq.take((k.len() + 1) as int)),
            ),
{
    reveal(trimmed_range);
    let m1 = trimmed_map(m, seq, c);
    let st1 = trimmed_starts(starts, seq, c);
    lemma_take(seq, 1);
    lemma_prefix_closed(m, starts, seq, 1);
    assert forall|k: Seq<T>| k.len() == 0 || m1.contains_key(k) implies #[trigger] siblings(m1, st1, k)
        == siblings_after_remove(
        siblings(m, starts, k),
        seq,
        k,
        m1.contains_key(seq.take((k.len() + 1) as int)),
    ) by {
        if k.len() == 0 {
            assert(k.is_prefix_of(seq));
        } else {
            assert(node_ok(m, k));
            if k.len() < seq.len() && k.is_prefix_of(seq) {
                lemma_prefix_is_take(k, seq);
                let j = k.len() as int;
                lemma_take(seq, j + 1);
                lemma_prefix_closed(m, starts, seq, j + 1);
            }
        }
    }
}

/// How the lists of siblings change when a terminal flag is cleared, or
/// nothing is done: not at all.
pub proof fn lemma_kept_siblings<T>(m: Map<Seq<T>, NodeView<T>>, starts: Seq<Seq<T>>, m1: Map<Seq<T>, NodeView<T>>, seq: Seq<T>)
    requires
        shape_wf(m, starts),
        m1.dom() == m.dom(),
        forall|k: Seq<T>| m.contains_key(k) ==> #[trigger] m1[k].children == m[k].children,
    ensures
        forall|k: Seq<T>| #[trigger]
            siblings(m1, starts, k) == siblings_after_remove(
                siblings(m, starts, k),
                seq,
                k,
                m1.contains_key(seq.take((k.len() + 1) as int)),
            ),
{
    assert forall|k: Seq<T>| #[trigger]
        siblings(m1, starts, k) == siblings_after_remove(
            siblings(m, starts, k),
            seq,
            k,
            m1.contains_key(seq.take((k.len() + 1) as int)),
        ) by {
        let next = seq.take((k.len() + 1) as int);
        if k.len() < seq.len() && k.is_prefix_of(seq) && !m1.contains_key(next) {
            lemma_take(seq, (k.len() + 1) as int);
            lemma_prefix_is_take(k, seq);
            if k.len() == 0 {
                assert(!starts.contains(next));
            } else if m.contains_key(k) {
                assert(node_ok(m, k));
                assert(!is_child(m, k, next));
                assert(!m[k].children.contains(next));
            }
        }
    }
}

/// Where the nodes are as many as the elements of a sequence whose last
/// node exists, and no shorter sequence is stored along it, the nodes are
/// those of its path: the sequence is stored, and cutting above the first
/// element leaves nothing.
pub proof fn lemma_sole_path<T>(m: Map<Seq<T>, NodeView<T>>, starts: Seq<Seq<T>>, seq: Seq<T>)
    requires
        shape_wf(m, starts),
        m.contains_key(seq),
        m.dom().len() == seq.len(),
        forall|j: int| 0 < j < seq.len() ==> !stored(m).contains(#[trigger] seq.take(j)),
    ensures
        stored(m).contains(seq),
        m[seq].children.len() == 0,
        cut_point(m, seq, 0),
        trimmed_map(m, seq, 0) == Map::<Seq<T>, NodeView<T>>::empty(),
        trimmed_starts(starts, seq, 0) == Seq::<Seq<T>>::empty(),
{
    reveal(trimmed_range);
    let path = Set::new(|k: Seq<T>| on_path(seq, k));
    lemma_path_finite(seq);
    assert(node_ok(m, seq));
    assert forall|k: Seq<T>| path.contains(k) implies m.dom().contains(k) by {
        lemma_prefix_closed(m, starts, seq, k.len() as int);
    }
    vstd::set_lib::lemma_subset_equality(path, m.dom());
    assert(path == m.dom());
    assert forall|k: Seq<T>| m.contains_key(k) implies on_path(seq, k) by {
        assert(path.contains(k));
    }
    if m[seq].children.len() > 0 {
        let x = m[seq].children[0];
        assert(m[seq].children.contains(x));
        assert(is_child(m, seq, x));
        assert(on_path(seq, x));
    }
    assert forall|j: int| 0 < j < seq.len() implies !needed(m, #[trigger] seq.take(j)) by {
        let k = seq.take(j);
        lemma_take(seq, j);
        lemma_take(seq, j + 1);
        assert(path.contains(k));
        assert(node_ok(m, k));
        if m[k].children.len() > 1 {
            let x = m[k].children[0];
            let y = m[k].children[1];
            assert(m[k].children.contains(x));
            assert(m[k].children.contains(y));
            assert(is_child(m, k, x) && is_child(m, k, y));
            assert(on_path(seq, x) && on_path(seq, y));
        }
    }
    assert(trimmed_map(m, seq, 0) =~= Map::<Seq<T>, NodeView<T>>::empty());
    lemma_take(seq, 1);
    lemma_without(starts, seq.take(1));
    let st1 = trimmed_starts(starts, seq, 0);
    if st1.len() > 0 {
        let x = st1[0];
        assert(st1.contains(x));
        assert(starts.contains(x));
        assert(on_path(seq, x));
    }
    assert(st1 =~= Seq::<Seq<T>>::empty());
}

} // verus!
