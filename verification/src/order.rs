//! Depth-first order over the nodes of a trie, and the state of a walk that
//! visits them in that order.
use crate::key::parent_key;
use crate::node::NodeView;
use crate::shape::{is_child, lemma_prefix_closed, lemma_prefix_is_take, lemma_take, node_ok, shape_wf, siblings};
use vstd::prelude::*;

verus! {

/// Whether `a` stands before `b` in `list`.
pub open spec fn listed_before<A>(list: Seq<A>, a: A, b: A) -> bool {
    exists|p: int, q: int|
        #![trigger list[p], list[q]]
        0 <= p < q < list.len() && list[p] == a && list[q] == b
}

/// Whether `a` and `b` share their first `j` elements and part ways right
/// after them, the branch of `a` being listed first.
pub open spec fn part_at<T>(
    m: Map<Seq<T>, NodeView<T>>,
    starts: Seq<Seq<T>>,
    a: Seq<T>,
    b: Seq<T>,
    j: int,
) -> bool {
    &&& 0 <= j < a.len()
    &&& j < b.len()
    &&& a.take(j) == b.take(j)
    &&& listed_before(siblings(m, starts, a.take(j)), a.take(j + 1), b.take(j + 1))
}

/// Depth-first order: a node comes before every node below it, and the
/// nodes below a child come before those below the children listed after it.
pub open spec fn dfs_before<T>(
    m: Map<Seq<T>, NodeView<T>>,
    starts: Seq<Seq<T>>,
    a: Seq<T>,
    b: Seq<T>,
) -> bool {
    ||| a != b && a.is_prefix_of(b)
    ||| exists|j: int| part_at(m, starts, a, b, j)
}

/// Whether `x` is at or below a key of `stack`.
pub open spec fn covered<T>(stack: Seq<Seq<T>>, x: Seq<T>) -> bool {
    exists|i: int| 0 <= i < stack.len() && (#[trigger] stack[i]).is_prefix_of(x)
}

/// The state of a walk below `root`: `stack` holds the nodes whose subtrees
/// are still to come, the next one last; `yielded` holds the nodes handed
/// out, and `anchor` the last of them, or `root` before the first.
pub open spec fn walk_wf<T>(
    m: Map<Seq<T>, NodeView<T>>,
    root: Seq<T>,
    stack: Seq<Seq<T>>,
    yielded: Seq<Seq<T>>,
    anchor: Seq<T>,
) -> bool {
    &&& forall|i: int|
        0 <= i < stack.len() ==> m.contains_key(#[trigger] stack[i]) && root.is_prefix_of(stack[i])
            && parent_key(stack[i]).is_prefix_of(anchor)
    &&& forall|i: int, j: int|
        0 <= i < j < stack.len() ==> (#[trigger] stack[i]).len() <= (#[trigger] stack[j]).len()
    &&& forall|x: Seq<T>|
        #[trigger] m.contains_key(x) && root.is_prefix_of(x) ==> yielded.contains(x) || covered(
            stack,
            x,
        )
    &&& forall|x: Seq<T>| #[trigger]
        yielded.contains(x) ==> m.contains_key(x) && root.is_prefix_of(x) && !covered(stack, x)
    &&& yielded.no_duplicates()
    &&& yielded.len() > 0 ==> anchor == yielded.last()
}

/// The order of a walk: what was handed out is in depth-first order and
/// comes before everything still to come, and the subtrees still to come
/// are in depth-first order from the end of the stack to its beginning.
pub open spec fn walk_ordered<T>(
    m: Map<Seq<T>, NodeView<T>>,
    starts: Seq<Seq<T>>,
    stack: Seq<Seq<T>>,
    yielded: Seq<Seq<T>>,
) -> bool {
    &&& forall|i: int, j: int, x: Seq<T>, y: Seq<T>|
        0 <= i < j < stack.len() && m.contains_key(x) && m.contains_key(y) && (
        #[trigger] stack[j]).is_prefix_of(x) && (#[trigger] stack[i]).is_prefix_of(y)
            ==> #[trigger] dfs_before(m, starts, x, y)
    &&& forall|y: Seq<T>, x: Seq<T>|
        yielded.contains(y) && m.contains_key(x) && covered(stack, x) ==> #[trigger] dfs_before(
            m,
            starts,
            y,
            x,
        )
    &&& forall|a: int, b: int|
        0 <= a < b < yielded.len() ==> dfs_before(
            m,
            starts,
            #[trigger] yielded[a],
            #[trigger] yielded[b],
        )
}

/// The nodes at or below `root` that a walk has not handed out yet.
pub open spec fn pending<T>(m: Map<Seq<T>, NodeView<T>>, root: Seq<T>, yielded: Seq<Seq<T>>) -> Set<Seq<T>> {
    m.dom().filter(|x: Seq<T>| root.is_prefix_of(x) && !yielded.contains(x))
}

/// Every list of siblings is free of duplicates.
pub proof fn lemma_siblings_distinct<T>(m: Map<Seq<T>, NodeView<T>>, starts: Seq<Seq<T>>, k: Seq<T>)
    requires
        shape_wf(m, starts),
    ensures
        siblings(m, starts, k).no_duplicates(),
{
    if k.len() > 0 && m.contains_key(k) {
        assert(node_ok(m, k));
    }
}

/// No node comes before itself.
pub proof fn lemma_dfs_irreflexive<T>(m: Map<Seq<T>, NodeView<T>>, starts: Seq<Seq<T>>, a: Seq<T>)
    requires
        shape_wf(m, starts),
    ensures
        !dfs_before(m, starts, a, a),
{
    if dfs_before(m, starts, a, a) {
        let j = choose|j: int| part_at(m, starts, a, a, j);
        lemma_siblings_distinct(m, starts, a.take(j));
    }
}

/// In a list without duplicates, no two entries stand before each other.
pub proof fn lemma_listed_once<A>(list: Seq<A>, a: A, b: A)
    requires
        list.no_duplicates(),
        listed_before(list, a, b),
    ensures
        a != b,
        !listed_before(list, b, a),
{
    let (p, q) = choose|p: int, q: int|
        #![trigger list[p], list[q]]
        0 <= p < q < list.len() && list[p] == a && list[q] == b;
    if listed_before(list, b, a) {
        let (u, v) = choose|u: int, v: int|
            #![trigger list[u], list[v]]
            0 <= u < v < list.len() && list[u] == b && list[v] == a;
        assert(u == q && v == p);
    }
}

/// Of two nodes, at most one comes before the other.
pub proof fn lemma_dfs_asymmetric<T>(m: Map<Seq<T>, NodeView<T>>, starts: Seq<Seq<T>>, a: Seq<T>, b: Seq<T>)
    requires
        shape_wf(m, starts),
        dfs_before(m, starts, a, b),
    ensures
        !dfs_before(m, starts, b, a),
{
    if dfs_before(m, starts, b, a) {
        if a != b && a.is_prefix_of(b) {
            if b != a && b.is_prefix_of(a) {
                assert(a =~= b);
            } else {
                let j = choose|j: int| part_at(m, starts, b, a, j);
                lemma_prefix_is_take(a, b);
                assert(b.take(j + 1) =~= a.take(j + 1));
                lemma_siblings_distinct(m, starts, b.take(j));
                lemma_listed_once(siblings(m, starts, b.take(j)), b.take(j + 1), a.take(j + 1));
            }
        } else {
            let j = choose|j: int| part_at(m, starts, a, b, j);
            lemma_siblings_distinct(m, starts, a.take(j));
            lemma_listed_once(siblings(m, starts, a.take(j)), a.take(j + 1), b.take(j + 1));
            if b != a && b.is_prefix_of(a) {
                lemma_prefix_is_take(b, a);
                assert(a.take(j + 1) =~= b.take(j + 1));
            } else {
                let i = choose|i: int| part_at(m, starts, b, a, i);
                lemma_siblings_distinct(m, starts, b.take(i));
                lemma_listed_once(siblings(m, starts, b.take(i)), b.take(i + 1), a.take(i + 1));
                if i < j {
                    assert(a.take(i + 1) =~= a.take(j).take(i + 1));
                    assert(b.take(i + 1) =~= b.take(j).take(i + 1));
                } else if j < i {
                    assert(a.take(j + 1) =~= a.take(i).take(j + 1));
                    assert(b.take(j + 1) =~= b.take(i).take(j + 1));
                }
            }
        }
    }
}

/// Of two prefixes of one sequence, the shorter is a prefix of the longer.
pub proof fn lemma_prefixes_nest<T>(p: Seq<T>, q: Seq<T>, s: Seq<T>)
    requires
        p.is_prefix_of(s),
        q.is_prefix_of(s),
        p.len() <= q.len(),
    ensures
        p.is_prefix_of(q),
{
    assert(p =~= q.take(p.len() as int));
}

/// A prefix of a prefix is a prefix.
pub proof fn lemma_prefix_trans<T>(p: Seq<T>, q: Seq<T>, s: Seq<T>)
    requires
        p.is_prefix_of(q),
        q.is_prefix_of(s),
    ensures
        p.is_prefix_of(s),
{
    assert(p =~= s.take(p.len() as int));
}

/// What lies below two siblings is ordered as the siblings are listed.
pub proof fn lemma_sibling_order<T>(
    m: Map<Seq<T>, NodeView<T>>,
    starts: Seq<Seq<T>>,
    k: Seq<T>,
    a: int,
    b: int,
    x: Seq<T>,
    y: Seq<T>,
)
    requires
        shape_wf(m, starts),
        k.len() == 0 || m.contains_key(k),
        0 <= a < b < siblings(m, starts, k).len(),
        siblings(m, starts, k)[a].is_prefix_of(x),
        siblings(m, starts, k)[b].is_prefix_of(y),
    ensures
        dfs_before(m, starts, x, y),
{
    let list = siblings(m, starts, k);
    let ca = list[a];
    let cb = list[b];
    let j = k.len() as int;
    assert(list.contains(ca) && list.contains(cb));
    assert(ca.len() == j + 1 && ca.drop_last() == k && cb.len() == j + 1 && cb.drop_last() == k) by {
        if k.len() == 0 {
            assert(m.contains_key(ca) && ca.len() == 1);
            assert(m.contains_key(cb) && cb.len() == 1);
            assert(ca.drop_last() =~= k);
            assert(cb.drop_last() =~= k);
        } else {
            assert(is_child(m, k, ca));
            assert(is_child(m, k, cb));
        }
    }
    lemma_prefix_is_take(ca, x);
    lemma_prefix_is_take(cb, y);
    assert(x.take(j) =~= ca.drop_last());
    assert(y.take(j) =~= cb.drop_last());
    assert(part_at(m, starts, x, y, j));
}

/// Every node strictly below `k` is at or below a child of `k`.
pub proof fn lemma_below_child<T>(m: Map<Seq<T>, NodeView<T>>, starts: Seq<Seq<T>>, k: Seq<T>, x: Seq<T>) -> (p: int)
    requires
        shape_wf(m, starts),
        m.contains_key(k),
        m.contains_key(x),
        k.is_prefix_of(x),
        k != x,
    ensures
        0 <= p < m[k].children.len(),
        m[k].children[p].is_prefix_of(x),
{
    let j = k.len() as int;
    let c = x.take(j + 1);
    if k.len() == x.len() {
        assert(k =~= x);
    }
    lemma_prefix_closed(m, starts, x, j + 1);
    lemma_take(x, j + 1);
    lemma_prefix_is_take(k, x);
    assert(node_ok(m, k));
    assert(is_child(m, k, c));
    assert(m[k].children.contains(c));
    let p = choose|p: int| 0 <= p < m[k].children.len() && m[k].children[p] == c;
    p
}

/// The stack after the node at its end has been handed out: the children of
/// that node take its place, the first child last.
pub open spec fn expanded<T>(m: Map<Seq<T>, NodeView<T>>, base: Seq<Seq<T>>, k: Seq<T>) -> Seq<Seq<T>> {
    base + m[k].children.reverse()
}

/// Handing out the node at the end of the stack keeps the state of the walk.
pub proof fn lemma_walk_step<T>(
    m: Map<Seq<T>, NodeView<T>>,
    starts: Seq<Seq<T>>,
    root: Seq<T>,
    base: Seq<Seq<T>>,
    k: Seq<T>,
    yielded: Seq<Seq<T>>,
    anchor: Seq<T>,
)
    requires
        shape_wf(m, starts),
        walk_wf(m, root, base.push(k), yielded, anchor),
        walk_ordered(m, starts, base.push(k), yielded),
    ensures
        walk_wf(m, root, expanded(m, base, k), yielded.push(k), k),
        m.contains_key(k),
        root.is_prefix_of(k),
        !yielded.contains(k),
        parent_key(k).is_prefix_of(anchor),
        pending(m, root, yielded).contains(k),
        pending(m, root, yielded.push(k)) == pending(m, root, yielded).remove(k),
{
    let old_stack = base.push(k);
    let kids = m[k].children;
    let t = kids.len() as int;
    let stack = expanded(m, base, k);
    let n = base.len() as int;
    assert(old_stack[n] == k);
    assert(node_ok(m, k));
    assert(k.is_prefix_of(k));
    assert(covered(old_stack, k));
    assert(!yielded.contains(k));
    let y2 = yielded.push(k);
    assert(y2[yielded.len() as int] == k);
    assert forall|x: Seq<T>| #[trigger] y2.contains(x) <==> yielded.contains(x) || x == k by {
        if y2.contains(x) {
            let i = choose|i: int| 0 <= i < y2.len() && y2[i] == x;
            if i < yielded.len() {
                assert(yielded[i] == x);
            }
        }
        if yielded.contains(x) {
            let i = choose|i: int| 0 <= i < yielded.len() && yielded[i] == x;
            assert(y2[i] == x);
        }
    }
    // What the new stack holds.
    assert forall|i: int| 0 <= i < n implies #[trigger] stack[i] == old_stack[i] by {}
    assert forall|i: int| n <= i < n + t implies #[trigger] stack[i] == kids[t - 1 - (i - n)]
        && is_child(m, k, stack[i]) by {
        let c = kids[t - 1 - (i - n)];
        assert(kids.reverse()[i - n] == c);
        assert(kids.contains(c));
    }
    assert forall|i: int| 0 <= i < stack.len() implies m.contains_key(#[trigger] stack[i])
        && root.is_prefix_of(stack[i]) && parent_key(stack[i]).is_prefix_of(k) by {
        if i < n {
            assert(old_stack[i] == stack[i]);
            assert(old_stack[i].len() <= old_stack[n].len());
            assert(parent_key(stack[i]) =~= stack[i].take(stack[i].len() - 1));
            assert(parent_key(k) =~= k.take(k.len() - 1));
            assert(parent_key(k).is_prefix_of(k));
            lemma_prefixes_nest(parent_key(stack[i]), parent_key(k), anchor);
            lemma_prefix_trans(parent_key(stack[i]), parent_key(k), k);
        } else {
            assert(is_child(m, k, stack[i]));
            assert(k =~= stack[i].take(k.len() as int));
            lemma_prefix_trans(root, k, stack[i]);
        }
    }
    assert forall|i: int, j: int| 0 <= i < j < stack.len() implies (#[trigger] stack[i]).len() <= (
    #[trigger] stack[j]).len() by {
        if j < n {
            assert(old_stack[i].len() <= old_stack[j].len());
        } else if i < n {
            assert(old_stack[i].len() <= old_stack[n].len());
            assert(is_child(m, k, stack[j]));
        } else {
            assert(is_child(m, k, stack[i]));
            assert(is_child(m, k, stack[j]));
        }
    }
    assert forall|x: Seq<T>| #[trigger] m.contains_key(x) && root.is_prefix_of(x) implies y2.contains(
        x,
    ) || covered(stack, x) by {
        if !yielded.contains(x) && x != k {
            let i = choose|i: int| 0 <= i < old_stack.len() && (#[trigger] old_stack[i]).is_prefix_of(x);
            if i < n {
                assert(stack[i].is_prefix_of(x));
            } else {
                let p = lemma_below_child(m, starts, k, x);
                let at = n + (t - 1 - p);
                assert(stack[at] == kids[p]);
                assert(stack[at].is_prefix_of(x));
            }
        }
    }
    assert forall|x: Seq<T>| #[trigger] y2.contains(x) implies m.contains_key(x) && root.is_prefix_of(
        x,
    ) && !covered(stack, x) by {
        if covered(stack, x) {
            let i = choose|i: int| 0 <= i < stack.len() && (#[trigger] stack[i]).is_prefix_of(x);
            if i < n {
                assert(old_stack[i].is_prefix_of(x));
                if x == k {
                    assert(old_stack[n].is_prefix_of(k));
                    assert(dfs_before(m, starts, k, k));
                    lemma_dfs_irreflexive(m, starts, k);
                }
            } else {
                assert(is_child(m, k, stack[i]));
                if x == k {
                    assert(false);
                } else {
                    assert(k =~= stack[i].take(k.len() as int));
                    lemma_prefix_trans(k, stack[i], x);
                    assert(old_stack[n].is_prefix_of(x));
                }
            }
        }
    }
    assert(pending(m, root, y2) =~= pending(m, root, yielded).remove(k));
}

/// Handing out the node at the end of the stack keeps the order of the
/// walk: the node comes after everything handed out before it, and before
/// everything still to come.
pub proof fn lemma_walk_step_ordered<T>(
    m: Map<Seq<T>, NodeView<T>>,
    starts: Seq<Seq<T>>,
    root: Seq<T>,
    base: Seq<Seq<T>>,
    k: Seq<T>,
    yielded: Seq<Seq<T>>,
    anchor: Seq<T>,
)
    requires
        shape_wf(m, starts),
        walk_wf(m, root, base.push(k), yielded, anchor),
        walk_ordered(m, starts, base.push(k), yielded),
    ensures
        walk_ordered(m, starts, expanded(m, base, k), yielded.push(k)),
        forall|y: Seq<T>| yielded.contains(y) ==> #[trigger] dfs_before(m, starts, y, k),
{
    let old_stack = base.push(k);
    let kids = m[k].children;
    let t = kids.len() as int;
    let stack = expanded(m, base, k);
    let n = base.len() as int;
    let y2 = yielded.push(k);
    assert(old_stack[n] == k);
    assert(node_ok(m, k));
    assert(k.is_prefix_of(k));
    assert(covered(old_stack, k));
    assert forall|i: int| 0 <= i < n implies #[trigger] stack[i] == old_stack[i] by {}
    assert forall|i: int| n <= i < n + t implies #[trigger] stack[i] == kids[t - 1 - (i - n)]
        && is_child(m, k, stack[i]) && k.is_prefix_of(stack[i]) by {
        let c = kids[t - 1 - (i - n)];
        assert(kids.reverse()[i - n] == c);
        assert(kids.contains(c));
        assert(k =~= c.take(k.len() as int));
    }
    // Whatever the new stack covers, the old one covered.
    assert forall|x: Seq<T>| covered(stack, x) implies covered(old_stack, x) by {
        let i = choose|i: int| 0 <= i < stack.len() && (#[trigger] stack[i]).is_prefix_of(x);
        if i < n {
            assert(old_stack[i].is_prefix_of(x));
        } else {
            lemma_prefix_trans(k, stack[i], x);
            assert(old_stack[n].is_prefix_of(x));
        }
    }
    assert forall|i: int, j: int, x: Seq<T>, y: Seq<T>|
        0 <= i < j < stack.len() && m.contains_key(x) && m.contains_key(y) && (
        #[trigger] stack[j]).is_prefix_of(x) && (#[trigger] stack[i]).is_prefix_of(
            y,
        ) implies #[trigger] dfs_before(m, starts, x, y) by {
        if j < n {
            assert(old_stack[j].is_prefix_of(x) && old_stack[i].is_prefix_of(y));
        } else if i < n {
            lemma_prefix_trans(k, stack[j], x);
            assert(old_stack[n].is_prefix_of(x) && old_stack[i].is_prefix_of(y));
        } else {
            let a = t - 1 - (j - n);
            let b = t - 1 - (i - n);
            assert(siblings(m, starts, k) == kids);
            lemma_sibling_order(m, starts, k, a, b, x, y);
        }
    }
    assert forall|y: Seq<T>, x: Seq<T>|
        y2.contains(y) && m.contains_key(x) && covered(stack, x) implies #[trigger] dfs_before(
        m,
        starts,
        y,
        x,
    ) by {
        let i = choose|i: int| 0 <= i < y2.len() && y2[i] == y;
        if i < yielded.len() {
            assert(yielded[i] == y);
            assert(yielded.contains(y));
            assert(covered(old_stack, x));
        } else {
            assert(y == k);
            let c = choose|c: int| 0 <= c < stack.len() && (#[trigger] stack[c]).is_prefix_of(x);
            if c < n {
                assert(old_stack[n].is_prefix_of(k) && old_stack[c].is_prefix_of(x));
            } else {
                lemma_prefix_trans(k, stack[c], x);
                assert(is_child(m, k, stack[c]));
                assert(k != x);
            }
        }
    }
    assert forall|y: Seq<T>| yielded.contains(y) implies #[trigger] dfs_before(m, starts, y, k) by {}
    assert forall|a: int, b: int| 0 <= a < b < y2.len() implies dfs_before(
        m,
        starts,
        #[trigger] y2[a],
        #[trigger] y2[b],
    ) by {
        if b < yielded.len() {
            assert(y2[a] == yielded[a] && y2[b] == yielded[b]);
        } else {
            assert(y2[a] == yielded[a]);
            assert(yielded.contains(yielded[a]));
        }
    }
}

/// When nothing is left on the stack, every node at or below the root
/// has been handed out.
pub proof fn lemma_walk_done<T>(
    m: Map<Seq<T>, NodeView<T>>,
    root: Seq<T>,
    yielded: Seq<Seq<T>>,
    anchor: Seq<T>,
)
    requires
        walk_wf(m, root, Seq::<Seq<T>>::empty(), yielded, anchor),
    ensures
        forall|x: Seq<T>| #[trigger] m.contains_key(x) && root.is_prefix_of(x) ==> yielded.contains(x),
        pending(m, root, yielded) == Set::<Seq<T>>::empty(),
{
    assert(pending(m, root, yielded) =~= Set::<Seq<T>>::empty());
}

/// A walk that starts at one node has that node alone on its stack.
pub proof fn lemma_walk_from<T>(m: Map<Seq<T>, NodeView<T>>, starts: Seq<Seq<T>>, root: Seq<T>)
    requires
        shape_wf(m, starts),
        m.contains_key(root),
    ensures
        walk_wf(m, root, seq![root], Seq::<Seq<T>>::empty(), root),
        walk_ordered(m, starts, seq![root], Seq::<Seq<T>>::empty()),
{
    let stack = seq![root];
    assert(node_ok(m, root));
    assert(parent_key(root) =~= root.take(root.len() - 1));
    assert forall|x: Seq<T>| #[trigger] m.contains_key(x) && root.is_prefix_of(x) implies covered(
        stack,
        x,
    ) by {
        assert(stack[0].is_prefix_of(x));
    }
}

/// A walk over the whole trie starts with the start nodes on its stack, the
/// first start key last.
pub proof fn lemma_walk_all<T>(m: Map<Seq<T>, NodeView<T>>, starts: Seq<Seq<T>>)
    requires
        shape_wf(m, starts),
    ensures
        walk_wf(
            m,
            Seq::<T>::empty(),
            starts.reverse(),
            Seq::<Seq<T>>::empty(),
            Seq::<T>::empty(),
        ),
        walk_ordered(m, starts, starts.reverse(), Seq::<Seq<T>>::empty()),
{
    let stack = starts.reverse();
    let t = starts.len() as int;
    let root = Seq::<T>::empty();
    assert forall|i: int| 0 <= i < t implies #[trigger] stack[i] == starts[t - 1 - i]
        && m.contains_key(stack[i]) && stack[i].len() == 1 by {
        assert(starts.contains(starts[t - 1 - i]));
    }
    assert forall|i: int| 0 <= i < stack.len() implies m.contains_key(#[trigger] stack[i])
        && root.is_prefix_of(stack[i]) && parent_key(stack[i]).is_prefix_of(root) by {
        assert(parent_key(stack[i]) =~= root);
    }
    assert forall|x: Seq<T>| #[trigger] m.contains_key(x) && root.is_prefix_of(x) implies covered(
        stack,
        x,
    ) by {
        assert(node_ok(m, x));
        lemma_prefix_closed(m, starts, x, 1);
        lemma_take(x, 1);
        let c = x.take(1);
        assert(starts.contains(c));
        let p = choose|p: int| 0 <= p < starts.len() && starts[p] == c;
        assert(stack[t - 1 - p] == c);
        assert(stack[t - 1 - p].is_prefix_of(x));
    }
    assert forall|i: int, j: int, x: Seq<T>, y: Seq<T>|
        0 <= i < j < stack.len() && m.contains_key(x) && m.contains_key(y) && (
        #[trigger] stack[j]).is_prefix_of(x) && (#[trigger] stack[i]).is_prefix_of(
            y,
        ) implies #[trigger] dfs_before(m, starts, x, y) by {
        assert(siblings(m, starts, root) == starts);
        lemma_sibling_order(m, starts, root, t - 1 - j, t - 1 - i, x, y);
    }
}

} // verus!
