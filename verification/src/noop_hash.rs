//! A hasher for keys that are already hash values.
use vstd::prelude::*;
use std::hash::Hasher;

verus! {

/// A hasher that hands back the last `u64` written to it.
#[derive(Debug)]
pub struct NoopHasher(u64);

impl NoopHasher {
    /// The value that `finish` returns.
    pub closed spec fn value(&self) -> u64 {
        self.0
    }
}

impl Default for NoopHasher {
    fn default() -> (h: NoopHasher)
        ensures
            h.value() == 0,
    {
        NoopHasher(0x0)
    }
}

impl Hasher for NoopHasher {
    fn finish(&self) -> (r: u64)
        ensures
            r == self.value(),
    {
        self.0
    }

    fn write_u64(&mut self, i: u64)
        ensures
            final(self).value() == i,
    {
        self.0 = i;
    }

    fn write(&mut self, _bytes: &[u8])
        ensures
            final(self).value() == old(self).value(),
    {
    }
}

/// Builds `NoopHasher`s.
pub type NoopBuildHasher = std::hash::BuildHasherDefault<NoopHasher>;

/// A hash map whose keys are hash values already and are taken as they are.
pub type PreHashedMap<K, V> = std::collections::HashMap<K, V, NoopBuildHasher>;

} // verus!
