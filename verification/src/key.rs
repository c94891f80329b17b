//! Edge keys: the identifiers that stand in for parent-to-child pointers.
//!
//! The key of an element is the whole path that leads to it, the element
//! included. Two occurrences of an element get the same key exactly when they
//! are reached along the same prefix, so keys never collide.
use crate::element::Element;
use vstd::prelude::*;

verus! {

/// The edge key of `element` when it follows `prefix`.
pub open spec fn edge_key<T>(prefix: Seq<T>, element: T) -> Seq<T> {
    prefix.push(element)
}

/// The edge key of position `idx` of `seq`: the first `idx + 1` elements.
pub open spec fn key_at<T>(idx: int, seq: Seq<T>) -> Seq<T> {
    seq.take(idx + 1)
}

/// The key of a node's parent; the empty sequence stands above the start nodes.
pub open spec fn parent_key<T>(key: Seq<T>) -> Seq<T> {
    key.drop_last()
}

/// The views of a list of keys, in order.
pub open spec fn keys_view<T>(keys: Seq<Vec<T>>) -> Seq<Seq<T>> {
    Seq::new(keys.len(), |i: int| keys[i]@)
}

/// `s` with the first occurrence of `a` taken out.
pub open spec fn without<A>(s: Seq<A>, a: A) -> Seq<A> {
    if s.contains(a) {
        s.remove(s.index_of(a))
    } else {
        s
    }
}

/// Keys are a function of prefix and element, and an injective one: equal
/// keys come from equal prefixes and equal elements.
pub proof fn lemma_edge_key_injective<T>(prefix: Seq<T>, element: T, other_prefix: Seq<T>, other: T)
    ensures
        edge_key(prefix, element) == edge_key(other_prefix, other) <==> prefix == other_prefix
            && element == other,
{
    if edge_key(prefix, element) == edge_key(other_prefix, other) {
        assert(prefix.push(element).last() == element);
        assert(other_prefix.push(other).last() == other);
        assert(prefix.push(element).drop_last() =~= prefix);
        assert(other_prefix.push(other).drop_last() =~= other_prefix);
    }
}

/// The key of a position is the edge key of its element after the elements
/// strictly before it.
pub proof fn lemma_key_at_is_edge_key<T>(idx: int, seq: Seq<T>)
    requires
        0 <= idx < seq.len(),
    ensures
        key_at(idx, seq) == edge_key(seq.take(idx), seq[idx]),
        key_at(idx, seq).len() == idx + 1,
        key_at(idx, seq).last() == seq[idx],
        parent_key(key_at(idx, seq)) == seq.take(idx),
{
    assert(seq.take(idx + 1) =~= seq.take(idx).push(seq[idx]));
    assert(seq.take(idx + 1).drop_last() =~= seq.take(idx));
}

/// Taking out a key of a duplicate-free list removes that key and no other,
/// and keeps the rest in order.
pub proof fn lemma_without<A>(s: Seq<A>, a: A)
    requires
        s.no_duplicates(),
    ensures
        without(s, a).no_duplicates(),
        forall|x: A| #[trigger] without(s, a).contains(x) <==> s.contains(x) && x != a,
        s.contains(a) ==> without(s, a).len() == s.len() - 1,
        !s.contains(a) ==> without(s, a) == s,
{
    if s.contains(a) {
        let i = s.index_of(a);
        let r = s.remove(i);
        assert forall|x: A| #[trigger] r.contains(x) <==> s.contains(x) && x != a by {
            if r.contains(x) {
                let j = choose|j: int| 0 <= j < r.len() && r[j] == x;
                if j < i {
                    assert(s[j] == x);
                } else {
                    assert(s[j + 1] == x);
                }
            }
            if s.contains(x) && x != a {
                let j = choose|j: int| 0 <= j < s.len() && s[j] == x;
                if j < i {
                    assert(r[j] == x);
                } else {
                    assert(r[j - 1] == x);
                }
            }
        }
        assert forall|p: int, q: int| 0 <= p < r.len() && 0 <= q < r.len() && p != q implies r[p] != r[q] by {
            let from_p = if p < i { p } else { p + 1 };
            let from_q = if q < i { q } else { q + 1 };
            assert(r[p] == s[from_p] && r[q] == s[from_q]);
        }
    }
}

/// A list with one more element at its end holds that element and what it
/// held before.
pub proof fn lemma_push_contains<A>(s: Seq<A>, a: A)
    ensures
        forall|x: A| #[trigger] s.push(a).contains(x) <==> s.contains(x) || x == a,
{
    let s2 = s.push(a);
    assert(s2[s.len() as int] == a);
    assert forall|x: A| #[trigger] s2.contains(x) <==> s.contains(x) || x == a by {
        if s2.contains(x) {
            let j = choose|j: int| 0 <= j < s2.len() && s2[j] == x;
            if j < s.len() {
                assert(s[j] == x);
            }
        }
        if s.contains(x) {
            let j = choose|j: int| 0 <= j < s.len() && s[j] == x;
            assert(s2[j] == x);
        }
    }
}

/// The whole of `seq` as a key.
pub fn key_from_seq<T: Element>(seq: &[T]) -> (key: Vec<T>)
    ensures
        key@ == seq@,
{
    let mut key: Vec<T> = Vec::new();
    let mut i: usize = 0;
    while i < seq.len()
        invariant
            0 <= i <= seq@.len(),
            key@ == seq@.take(i as int),
        decreases seq@.len() - i,
    {
        key.push(seq[i].duplicate());
        assert(seq@.take(i + 1) =~= seq@.take(i as int).push(seq@[i as int]));
        i += 1;
    }
    assert(seq@.take(seq@.len() as int) =~= seq@);
    key
}

/// The key of position `idx` of `seq`.
pub fn key_at_index<T: Element>(idx: usize, seq: &[T]) -> (key: Vec<T>)
    requires
        idx < seq@.len(),
    ensures
        key@ == key_at(idx as int, seq@),
        key@ == edge_key(seq@.take(idx as int), seq@[idx as int]),
{
    proof {
        lemma_key_at_is_edge_key(idx as int, seq@);
    }
    let mut key: Vec<T> = Vec::new();
    let mut i: usize = 0;
    while i <= idx
        invariant
            0 <= i <= idx + 1,
            idx < seq@.len(),
            key@ == seq@.take(i as int),
        decreases idx + 1 - i,
    {
        key.push(seq[i].duplicate());
        assert(seq@.take(i + 1) =~= seq@.take(i as int).push(seq@[i as int]));
        i += 1;
    }
    key
}

/// Whether two keys hold the same elements in the same order.
pub fn key_eq<T: Element>(a: &[T], b: &[T]) -> (r: bool)
    ensures
        r == (a@ == b@),
{
    if a.len() != b.len() {
        return false;
    }
    let mut i: usize = 0;
    while i < a.len()
        invariant
            0 <= i <= a@.len(),
            a@.len() == b@.len(),
            forall|j: int| 0 <= j < i ==> a@[j] == b@[j],
        decreases a@.len() - i,
    {
        if !a[i].same(&b[i]) {
            return false;
        }
        i += 1;
    }
    assert(a@ =~= b@);
    true
}

/// The position of `key` in `keys`, if it is there.
pub fn key_position<T: Element>(keys: &Vec<Vec<T>>, key: &[T]) -> (r: Option<usize>)
    ensures
        match r {
            Some(i) => i < keys@.len() && keys_view(keys@)[i as int] == key@,
            None => !keys_view(keys@).contains(key@),
        },
{
    let mut i: usize = 0;
    while i < keys.len()
        invariant
            0 <= i <= keys@.len(),
            forall|j: int| 0 <= j < i ==> keys_view(keys@)[j] != key@,
        decreases keys@.len() - i,
    {
        if key_eq(keys[i].as_slice(), key) {
            return Some(i);
        }
        i += 1;
    }
    None
}

} // verus!
