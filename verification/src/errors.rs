use vstd::prelude::*;

use crate::meta::AllocationMetadata;

verus! {

/// One sanitizer finding.
#[derive(Clone, Debug)]
pub enum AsanError {
    /// The guest released a pointer the allocator never handed out.
    UnallocatedFree { address: u64, backtrace: Vec<u64> },
    /// The guest released the same allocation a second time.
    DoubleFree { address: u64, metadata: AllocationMetadata, backtrace: Vec<u64> },
    /// An allocation was still live when leaks were checked for.
    Leak { address: u64, metadata: AllocationMetadata },
    /// The guest touched memory outside every live allocation.
    OutOfBounds {
        address: u64,
        size: u64,
        metadata: Option<AllocationMetadata>,
        backtrace: Vec<u64>,
    },
}

impl AsanError {
    /// The kind of finding, usable to compare findings without looking at
    /// the captured context.
    pub open spec fn spec_kind(self) -> AsanErrorKind {
        match self {
            AsanError::UnallocatedFree { .. } => AsanErrorKind::UnallocatedFree,
            AsanError::DoubleFree { .. } => AsanErrorKind::DoubleFree,
            AsanError::Leak { .. } => AsanErrorKind::Leak,
            AsanError::OutOfBounds { .. } => AsanErrorKind::OutOfBounds,
        }
    }

    /// Returns the kind of this finding.
    pub fn kind(&self) -> (r: AsanErrorKind)
        ensures
            r == self.spec_kind(),
    {
        match self {
            AsanError::UnallocatedFree { .. } => AsanErrorKind::UnallocatedFree,
            AsanError::DoubleFree { .. } => AsanErrorKind::DoubleFree,
            AsanError::Leak { .. } => AsanErrorKind::Leak,
            AsanError::OutOfBounds { .. } => AsanErrorKind::OutOfBounds,
        }
    }
}

/// The kind of a sanitizer finding.
#[derive(Clone, Copy, Debug, PartialEq, Eq, Structural)]
pub enum AsanErrorKind {
    UnallocatedFree,
    DoubleFree,
    Leak,
    OutOfBounds,
}

/// The registry of sanitizer findings. Instrumented code pushes entries as
/// violations are detected; the executor adaptor drains it after every
/// iteration. Retrieval order is insertion order.
pub struct AsanErrors {
    errors: Vec<AsanError>,
}

impl View for AsanErrors {
    type V = Seq<AsanError>;

    closed spec fn view(&self) -> Seq<AsanError> {
        self.errors@
    }
}

impl AsanErrors {
    /// Makes an empty registry.
    pub fn new() -> (r: Self)
        ensures
            r@ == Seq::<AsanError>::empty(),
    {
        AsanErrors { errors: Vec::new() }
    }

    /// Appends one finding.
    pub fn report_error(&mut self, error: AsanError)
        ensures
            final(self)@ == old(self)@.push(error),
    {
        self.errors.push(error);
    }

    /// The number of findings recorded so far.
    pub fn len(&self) -> (r: usize)
        ensures
            r == self@.len(),
    {
        self.errors.len()
    }

    /// Whether no finding has been recorded.
    pub fn is_empty(&self) -> (r: bool)
        ensures
            r == (self@.len() == 0),
    {
        self.errors.len() == 0
    }

    /// Takes every finding out, in insertion order, leaving the registry
    /// empty.
    pub fn drain(&mut self) -> (r: Vec<AsanError>)
        ensures
            r@ == old(self)@,
            final(self)@ == Seq::<AsanError>::empty(),
    {
        let mut out: Vec<AsanError> = Vec::new();
        core::mem::swap(&mut self.errors, &mut out);
        out
    }

    /// Forgets every finding.
    pub fn clear(&mut self)
        ensures
            final(self)@ == Seq::<AsanError>::empty(),
    {
        self.errors = Vec::new();
    }
}

} // verus!
