//! The accumulator of a search: the path walked so far, and the sequences
//! that were completed along the way.
use crate::element::Element;
use crate::key::{key_from_seq, keys_view};
use vstd::prelude::*;

verus! {

/// What a search has found.
#[derive(Debug, Clone)]
pub struct Found<T: Element> {
    pub(crate) temp: Vec<T>,
    pub(crate) collected: Vec<Vec<T>>,
}

impl<T: Element> View for Found<T> {
    type V = Seq<Seq<T>>;

    /// The collected sequences, in the order in which they were completed.
    open(crate) spec fn view(&self) -> Seq<Seq<T>> {
        keys_view(self.collected@)
    }
}

impl<T: Element> Found<T> {
    /// The path walked so far.
    pub open(crate) spec fn path(&self) -> Seq<T> {
        self.temp@
    }

    /// An accumulator with an empty path and nothing collected.
    pub fn new() -> (found: Self)
        ensures
            found@ == Seq::<Seq<T>>::empty(),
            found.path() == Seq::<T>::empty(),
    {
        let found = Found { temp: Vec::new(), collected: Vec::new() };
        assert(found@ =~= Seq::<Seq<T>>::empty());
        found
    }

    /// The collected sequences, each as a slice.
    pub fn as_collected(&self) -> (r: Vec<&[T]>)
        ensures
            r@.len() == self@.len(),
            forall|i: int| 0 <= i < r@.len() ==> (#[trigger] r@[i])@ == self@[i],
    {
        let mut r: Vec<&[T]> = Vec::new();
        let mut i: usize = 0;
        while i < self.collected.len()
            invariant
                0 <= i <= self.collected@.len(),
                r@.len() == i,
                forall|j: int| 0 <= j < i ==> (#[trigger] r@[j])@ == self@[j],
            decreases self.collected@.len() - i,
        {
            r.push(self.collected[i].as_slice());
            i += 1;
        }
        r
    }

    /// Appends copies of `items` to the path.
    pub fn extend(&mut self, items: &[T])
        ensures
            final(self).path() == old(self).path() + items@,
            final(self)@ == old(self)@,
    {
        let ghost before = self.temp@;
        let mut i: usize = 0;
        while i < items.len()
            invariant
                0 <= i <= items@.len(),
                self.temp@ == before + items@.take(i as int),
                self.collected == old(self).collected,
            decreases items@.len() - i,
        {
            self.temp.push(items[i].duplicate());
            assert(items@.take(i + 1) =~= items@.take(i as int).push(items@[i as int]));
            assert(before + items@.take(i + 1) =~= (before + items@.take(i as int)).push(
                items@[i as int],
            ));
            i += 1;
        }
        assert(items@.take(items@.len() as int) =~= items@);
    }

    /// Appends one element to the path.
    pub fn push_val(&mut self, t: T)
        ensures
            final(self).path() == old(self).path().push(t),
            final(self)@ == old(self)@,
    {
        self.temp.push(t);
    }

    /// Collects the path as a completed sequence and keeps it as it is, for
    /// the longer sequences that run through it.
    pub fn branch_end_continue(&mut self)
        ensures
            final(self)@ == old(self)@.push(old(self).path()),
            final(self).path() == old(self).path(),
    {
        let ghost before = self@;
        let done = key_from_seq(self.temp.as_slice());
        self.collected.push(done);
        assert(self@ =~= before.push(self.path()));
    }

    /// Cuts the path back to its first `depth` elements, so that the next
    /// branch starts where this one left its ancestor. A path that is no
    /// longer than `depth` stays as it is.
    pub fn branch_split(&mut self, depth: usize)
        ensures
            final(self).path() == (if depth <= old(self).path().len() {
                old(self).path().take(depth as int)
            } else {
                old(self).path()
            }),
            final(self)@ == old(self)@,
    {
        self.temp.truncate(depth);
        assert(self.temp@ =~= if depth <= old(self).path().len() {
            old(self).path().take(depth as int)
        } else {
            old(self).path()
        });
    }

    /// Collects the path as a completed sequence and drops its last
    /// element: the branch is exhausted.
    pub fn branch_end(&mut self)
        ensures
            final(self)@ == old(self)@.push(old(self).path()),
            final(self).path() == (if old(self).path().len() > 0 {
                old(self).path().drop_last()
            } else {
                old(self).path()
            }),
    {
        let ghost before = self@;
        let done = key_from_seq(self.temp.as_slice());
        self.collected.push(done);
        assert(self@ =~= before.push(self.path()));
        self.temp.pop();
    }
}

} // verus!
