use vstd::prelude::*;

use std::collections::HashMap;

verus! {

/// The committed bytes of the shadow mapping.
///
/// The shadow region is a huge, lazily committed reservation; only the bytes
/// the sanitizer has written are backed. The store is sparse accordingly: a
/// byte that was never written reads as `0`, which is the fully poisoned
/// encoding.
pub struct ShadowMemory {
    bytes: HashMap<u64, u8>,
}

impl ShadowMemory {
    /// The value of the shadow byte at shadow address `sa`.
    pub closed spec fn spec_byte(self, sa: u64) -> u8 {
        if self.bytes@.contains_key(sa) {
            self.bytes@[sa]
        } else {
            0u8
        }
    }

    /// A fresh shadow: every byte poisoned.
    pub fn new() -> (r: Self)
        ensures
            forall|sa: u64| r.spec_byte(sa) == 0u8,
    {
        ShadowMemory { bytes: HashMap::new() }
    }

    /// Reads the shadow byte at `sa`.
    pub fn byte_at(&self, sa: u64) -> (r: u8)
        ensures
            r == self.spec_byte(sa),
    {
        match self.bytes.get(&sa) {
            Some(b) => *b,
            None => 0u8,
        }
    }

    /// Writes `v` into the shadow byte at `sa`.
    pub fn set_byte(&mut self, sa: u64, v: u8)
        ensures
            final(self).spec_byte(sa) == v,
            forall|x: u64| x != sa ==> final(self).spec_byte(x) == old(self).spec_byte(x),
    {
        self.bytes.insert(sa, v);
    }

    /// Writes `v` into `count` consecutive shadow bytes starting at `start`.
    pub fn fill(&mut self, start: u64, count: u64, v: u8)
        requires
            start + count <= u64::MAX,
        ensures
            forall|x: u64| start <= x < start + count ==> final(self).spec_byte(x) == v,
            forall|x: u64|
                !(start <= x < start + count) ==> final(self).spec_byte(x) == old(self).spec_byte(
                    x,
                ),
    {
        let mut i: u64 = 0;
        while i < count
            invariant
                i <= count,
                start + count <= u64::MAX,
                forall|x: u64| start <= x < start + i ==> self.spec_byte(x) == v,
                forall|x: u64|
                    !(start <= x < start + i) ==> self.spec_byte(x) == old(self).spec_byte(x),
            decreases count - i,
        {
            self.set_byte(start + i, v);
            i = i + 1;
        }
    }
}

} // verus!
