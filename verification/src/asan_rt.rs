use vstd::prelude::*;

use std::collections::HashMap;

use crate::allocator::Allocator;
use crate::errors::{AsanError, AsanErrors};
use crate::stack::capture_stack;

verus! {

/// The address-sanitizer runtime: the shadow allocator, the registry its
/// findings go to, and the map from translated code addresses back to guest
/// addresses.
pub struct AsanRuntime {
    /// The shadow allocator.
    pub allocator: Allocator,
    /// The registry of findings.
    pub errors: AsanErrors,
    /// Translated program counters, keyed back to guest addresses.
    pub stalked: HashMap<u64, u64>,
    /// The number of live allocations at the last `pre_exec`.
    pub live_snapshot: usize,
}

impl AsanError {
    /// Whether this finding reports an out-of-bounds access of `size` bytes
    /// at `address`.
    pub open spec fn spec_is_out_of_bounds(self, address: u64, size: u64) -> bool {
        match self {
            AsanError::OutOfBounds { address: ea, size: es, .. } => ea == address && es == size,
            _ => false,
        }
    }
}

impl AsanRuntime {
    /// Wraps an allocator into a runtime with an empty registry.
    pub fn new(allocator: Allocator) -> (r: Self)
        requires
            allocator.wf(),
        ensures
            r.allocator == allocator,
            r.errors@ == Seq::<AsanError>::empty(),
            r.stalked@ == Map::<u64, u64>::empty(),
            r.live_snapshot == 0,
    {
        AsanRuntime {
            allocator,
            errors: AsanErrors::new(),
            stalked: HashMap::new(),
            live_snapshot: 0,
        }
    }

    /// The check the emitted shadow-check trampoline performs on a memory
    /// access of `size` bytes at `address`: when any byte of the range is
    /// not addressable, exactly one `OutOfBounds` finding is pushed,
    /// attributed to the nearest allocation.
    pub fn on_memory_access(&mut self, address: u64, size: u64)
        requires
            old(self).allocator.wf(),
            address + size <= u64::MAX,
        ensures
            final(self).allocator == old(self).allocator,
            final(self).stalked == old(self).stalked,
            final(self).live_snapshot == old(self).live_snapshot,
            old(self).allocator.spec_shadow_ok(address, size) ==> final(self).errors == old(
                self,
            ).errors,
            !old(self).allocator.spec_shadow_ok(address, size) ==> final(self).errors@.len() == old(
                self,
            ).errors@.len() + 1,
            !old(self).allocator.spec_shadow_ok(address, size) ==> final(self).errors@.last().spec_is_out_of_bounds(
                address,
                size,
            ),
            forall|i: int|
                0 <= i < old(self).errors@.len() ==> final(self).errors@[i] == old(
                    self,
                ).errors@[i],
    {
        if !self.allocator.check_shadow(address, size) {
            let metadata = self.allocator.find_metadata(address, address);
            let backtrace = capture_stack();
            self.errors.report_error(
                AsanError::OutOfBounds { address, size, metadata, backtrace },
            );
        }
    }

    /// Remembers which guest address a translated instruction came from.
    pub fn add_stalked_address(&mut self, translated: u64, original: u64)
        ensures
            final(self).stalked@ == old(self).stalked@.insert(translated, original),
            final(self).allocator == old(self).allocator,
            final(self).errors == old(self).errors,
    {
        self.stalked.insert(translated, original);
    }

    /// Maps a translated program counter back to its guest address; an
    /// address that was never recorded maps to itself.
    pub fn real_address_for_stalked(&self, translated: u64) -> (r: u64)
        ensures
            r == if self.stalked@.contains_key(translated) {
                self.stalked@[translated]
            } else {
                translated
            },
    {
        match self.stalked.get(&translated) {
            Some(original) => *original,
            None => translated,
        }
    }

    /// Begins an iteration: the registry is cleared and the live-allocation
    /// count is snapshot so leaks within the iteration can be told apart.
    pub fn pre_exec(&mut self)
        requires
            old(self).allocator.wf(),
        ensures
            final(self).allocator == old(self).allocator,
            final(self).stalked == old(self).stalked,
            final(self).errors@ == Seq::<AsanError>::empty(),
            final(self).live_snapshot as nat == old(self).allocator.live().dom().len(),
    {
        self.errors.clear();
        self.live_snapshot = self.allocator.allocations.len();
    }

    /// Ends an iteration: every finding is drained, in insertion order.
    pub fn post_exec(&mut self) -> (r: Vec<AsanError>)
        ensures
            r@ == old(self).errors@,
            final(self).errors@ == Seq::<AsanError>::empty(),
            final(self).allocator == old(self).allocator,
            final(self).stalked == old(self).stalked,
    {
        self.errors.drain()
    }
}

} // verus!
