use vstd::prelude::*;

verus! {

/// The number of entries in the coverage bitmap: a power of two, so an edge
/// hash is reduced by masking.
pub const MAP_SIZE: usize = 65536;

/// The edge-coverage runtime: a fixed-size bitmap of saturating hit counts
/// per observed edge, and the previous-location word of the AFL-style
/// hashed-edge scheme. At translation time, the code emitted at each basic
/// block's entry performs exactly the update [`record_edge`] describes, so
/// the scheme is stable across runs.
pub struct CoverageRuntime {
    /// The coverage bitmap.
    pub map: Vec<u8>,
    /// The previous block's location word.
    pub prev_loc: u64,
}

/// The bitmap index an edge from the block recorded in `prev` to the block
/// at `address` updates.
pub open spec fn spec_edge_index(prev: u64, address: u64) -> int {
    ((address ^ prev) & 0xFFFF) as int
}

impl CoverageRuntime {
    /// A coverage runtime is well formed when its bitmap has exactly
    /// `MAP_SIZE` entries.
    pub open spec fn wf(self) -> bool {
        self.map@.len() == MAP_SIZE
    }

    /// Makes a runtime with a zeroed bitmap.
    pub fn new() -> (r: Self)
        ensures
            r.wf(),
            forall|i: int| 0 <= i < MAP_SIZE ==> r.map@[i] == 0u8,
            r.prev_loc == 0,
    {
        let mut map: Vec<u8> = Vec::new();
        let mut i: usize = 0;
        while i < MAP_SIZE
            invariant
                i <= MAP_SIZE,
                map@.len() == i,
                forall|j: int| 0 <= j < i ==> map@[j] == 0u8,
            decreases MAP_SIZE - i,
        {
            map.push(0);
            i = i + 1;
        }
        CoverageRuntime { map, prev_loc: 0 }
    }

    /// Records one edge: the entry at the index derived from the block
    /// address and the previous location is incremented, saturating at 255,
    /// and the previous location becomes the address shifted right by one.
    pub fn record_edge(&mut self, address: u64)
        requires
            old(self).wf(),
        ensures
            final(self).wf(),
            final(self).prev_loc == address >> 1u64,
            final(self).map@ == old(self).map@.update(
                spec_edge_index(old(self).prev_loc, address),
                if old(self).map@[spec_edge_index(old(self).prev_loc, address)] == 255u8 {
                    255u8
                } else {
                    (old(self).map@[spec_edge_index(old(self).prev_loc, address)] + 1) as u8
                },
            ),
    {
        proof {
            let x = address ^ self.prev_loc;
            assert(x & 0xFFFF < 65536) by (bit_vector);
        }
        let idx: usize = ((address ^ self.prev_loc) & 0xFFFF) as usize;
        let old_count = self.map[idx];
        let new_count: u8 = if old_count == 255 {
            255
        } else {
            old_count + 1
        };
        self.map.set(idx, new_count);
        self.prev_loc = address >> 1u64;
    }

    /// Begins an iteration: the edge chain restarts from location zero.
    pub fn pre_exec(&mut self)
        ensures
            final(self).prev_loc == 0,
            final(self).map == old(self).map,
    {
        self.prev_loc = 0;
    }

    /// The bitmap base, published to the external fuzzing loop.
    pub fn map_ref(&self) -> (r: &Vec<u8>)
        ensures
            r == &self.map,
    {
        &self.map
    }
}

} // verus!
