use vstd::prelude::*;

verus! {

/// Metadata for one allocation served to the guest.
///
/// `address` is the base of the raw mapping; the user-visible pointer is one
/// guard page above it. `size` is the size the guest requested, `actual_size`
/// the raw mapping's size (requested size rounded up to a page, plus two
/// guard pages). Backtraces are frame addresses, captured only when the
/// allocator is configured to do so.
#[derive(Clone, Debug)]
pub struct AllocationMetadata {
    /// The start address of the raw mapping backing the allocation.
    pub address: u64,
    /// The size the guest requested.
    pub size: u64,
    /// The size of the raw mapping, guard pages included.
    pub actual_size: u64,
    /// Frame addresses of the allocation site, when configured.
    pub allocation_site_backtrace: Option<Vec<u64>>,
    /// Frame addresses of the release site, when configured.
    pub release_site_backtrace: Option<Vec<u64>>,
    /// Whether the allocation has been released.
    pub freed: bool,
    /// Whether the allocation was requested with a size of zero.
    pub is_malloc_zero: bool,
}

/// Tracked allocations keyed by the user-visible pointer, held in a
/// hashbrown hash map. The map itself is outside code; its contents are
/// named by [`table_of`] and every operation used by the allocator is a
/// trusted wrapper below.
#[verifier::external_body]
pub struct AllocTable {
    inner: hashbrown::HashMap<u64, AllocationMetadata>,
}

/// The entries of an [`AllocTable`], as a map from user pointer to metadata.
pub uninterp spec fn table_of(t: AllocTable) -> Map<u64, AllocationMetadata>;

/// The empty table contents.
pub open spec fn empty_table() -> Map<u64, AllocationMetadata> {
    Map::empty()
}

impl AllocTable {
    /// Relies on hashbrown::HashMap::new: makes an empty map.
    #[verifier::external_body]
    pub fn new() -> (r: Self)
        ensures
            table_of(r) == empty_table(),
    {
        AllocTable { inner: hashbrown::HashMap::new() }
    }

    /// Relies on hashbrown::HashMap::len: the number of entries.
    #[verifier::external_body]
    pub fn len(&self) -> (r: usize)
        ensures
            r as nat == table_of(*self).dom().len(),
    {
        self.inner.len()
    }

    /// Relies on hashbrown::HashMap::get: looks an entry up by its key and
    /// hands it out as an owned copy.
    #[verifier::external_body]
    pub fn get(&self, key: u64) -> (r: Option<AllocationMetadata>)
        ensures
            match r {
                Some(m) => table_of(*self).contains_key(key) && table_of(*self)[key] == m,
                None => !table_of(*self).contains_key(key),
            },
    {
        self.inner.get(&key).cloned()
    }

    /// Relies on hashbrown::HashMap::insert: maps `key` to `value`,
    /// replacing any earlier entry.
    #[verifier::external_body]
    pub fn insert(&mut self, key: u64, value: AllocationMetadata)
        ensures
            table_of(*final(self)) == table_of(*old(self)).insert(key, value),
    {
        self.inner.insert(key, value);
    }

    /// Relies on hashbrown::HashMap::remove: takes the entry for `key` out.
    #[verifier::external_body]
    pub fn remove(&mut self, key: u64) -> (r: Option<AllocationMetadata>)
        ensures
            table_of(*final(self)) == table_of(*old(self)).remove(key),
            match r {
                Some(m) => table_of(*old(self)).contains_key(key) && table_of(*old(self))[key]
                    == m,
                None => !table_of(*old(self)).contains_key(key),
            },
    {
        self.inner.remove(&key)
    }

    /// Relies on hashbrown::HashMap::iter: hands every entry out exactly
    /// once, as owned copies, in whatever order the table walks them.
    #[verifier::external_body]
    pub fn entries(&self) -> (r: Vec<(u64, AllocationMetadata)>)
        ensures
            r@.len() == table_of(*self).dom().len(),
            forall|i: int|
                0 <= i < r@.len() ==> #[trigger] table_of(*self).contains_key(r@[i].0) && table_of(
                    *self,
                )[r@[i].0] == r@[i].1,
            forall|i: int, j: int| 0 <= i < j < r@.len() ==> r@[i].0 != r@[j].0,
            forall|k: u64| #[trigger]
                table_of(*self).contains_key(k) ==> exists|i: int|
                    0 <= i < r@.len() && r@[i].0 == k,
    {
        self.inner.iter().map(|(k, v)| (*k, v.clone())).collect()
    }
}

} // verus!
