use vstd::prelude::*;

verus! {

/// One module of the guest process: the base address and size of its image,
/// and its path.
pub struct ModuleInfo {
    /// The base address the module is loaded at.
    pub base: u64,
    /// The size of the loaded image.
    pub size: u64,
    /// The module's path.
    pub path: String,
}

/// An ordered, non-overlapping map from process-address ranges to
/// `(module id, module path)`, held in a rangemap range map. The map itself
/// is outside code; its contents are named by [`ranges_of`], address by
/// address, and every operation the instrumentation uses is a trusted
/// wrapper below.
#[verifier::external_body]
pub struct ModuleRangeMap {
    inner: rangemap::RangeMap<u64, (u16, String)>,
}

/// The contents of a [`ModuleRangeMap`]: the covered addresses, each with
/// the value its range carries.
pub uninterp spec fn ranges_of(m: ModuleRangeMap) -> Map<u64, (u16, String)>;

/// The empty contents.
pub open spec fn empty_ranges() -> Map<u64, (u16, String)> {
    Map::empty()
}

impl ModuleRangeMap {
    /// Relies on rangemap::RangeMap::new: makes an empty map.
    #[verifier::external_body]
    pub fn new() -> (r: Self)
        ensures
            ranges_of(r) == empty_ranges(),
    {
        ModuleRangeMap { inner: rangemap::RangeMap::new() }
    }

    /// Relies on rangemap::RangeMap::insert: maps every address of
    /// `[start, end)` to the value, replacing whatever was stored there.
    #[verifier::external_body]
    pub fn insert(&mut self, start: u64, end: u64, module_id: u16, path: String)
        requires
            start < end,
        ensures
            ranges_of(*final(self)) == ranges_of(*old(self)).union_prefer_right(
                Map::new(|a: u64| start <= a < end, |a: u64| (module_id, path)),
            ),
    {
        self.inner.insert(start..end, (module_id, path));
    }

    /// Relies on rangemap::RangeMap::remove: removes every address of
    /// `[start, end)` from the map, contracting stored ranges as needed.
    #[verifier::external_body]
    pub fn remove(&mut self, start: u64, end: u64)
        requires
            start < end,
        ensures
            ranges_of(*final(self)) == ranges_of(*old(self)).remove_keys(
                Set::new(|a: u64| start <= a < end),
            ),
    {
        self.inner.remove(start..end);
    }

    /// Relies on rangemap::RangeMap::contains_key: whether any stored range
    /// covers the address.
    #[verifier::external_body]
    pub fn contains_key(&self, address: u64) -> (r: bool)
        ensures
            r == ranges_of(*self).dom().contains(address),
    {
        self.inner.contains_key(&address)
    }

    /// Relies on rangemap::RangeMap::get: the value stored for the address,
    /// handed out as an owned copy.
    #[verifier::external_body]
    pub fn get(&self, address: u64) -> (r: Option<(u16, String)>)
        ensures
            match r {
                Some(v) => ranges_of(*self).contains_key(address) && ranges_of(*self)[address]
                    == v,
                None => !ranges_of(*self).contains_key(address),
            },
    {
        self.inner.get(&address).map(|v| (v.0, v.1.clone()))
    }
}

/// The contents of the range map after the modules up to `upto` have been
/// inserted, in order, each mapped to its index and path.
pub open spec fn spec_inserted_modules(modules: Seq<ModuleInfo>, upto: int) -> Map<
    u64,
    (u16, String),
>
    decreases upto,
{
    if upto <= 0 {
        empty_ranges()
    } else {
        let m = modules[upto - 1];
        spec_inserted_modules(modules, upto - 1).union_prefer_right(
            Map::new(
                |a: u64| m.base <= a < m.base + m.size,
                |a: u64| (((upto - 1) as u16), m.path),
            ),
        )
    }
}

/// The contents after the four-byte skip windows up to `upto` have been
/// punched out.
pub open spec fn spec_punched(
    contents: Map<u64, (u16, String)>,
    skips: Seq<u64>,
    upto: int,
) -> Map<u64, (u16, String)>
    decreases upto,
{
    if upto <= 0 {
        contents
    } else {
        let s = skips[upto - 1];
        spec_punched(contents, skips, upto - 1).remove_keys(Set::new(|a: u64| s <= a < s + 4))
    }
}

/// Builds the map of instrumented ranges: each module's image maps every
/// address it covers to the module's index and path, and a four-byte window
/// at every skip address is punched out.
pub fn build_instrumentation_ranges(modules: &Vec<ModuleInfo>, skips: &Vec<u64>) -> (r:
    ModuleRangeMap)
    requires
        forall|i: int|
            0 <= i < modules@.len() ==> ((#[trigger] modules@[i]).size > 0 && modules@[i].base
                + modules@[i].size <= u64::MAX),
        forall|i: int| 0 <= i < skips@.len() ==> (#[trigger] skips@[i]) + 4 <= u64::MAX,
        modules@.len() <= 0xFFFF,
    ensures
        ranges_of(r) == spec_punched(
            spec_inserted_modules(modules@, modules@.len() as int),
            skips@,
            skips@.len() as int,
        ),
{
    let mut map = ModuleRangeMap::new();
    let mut i: usize = 0;
    while i < modules.len()
        invariant
            i <= modules@.len(),
            modules@.len() <= 0xFFFF,
            forall|j: int|
                0 <= j < modules@.len() ==> ((#[trigger] modules@[j]).size > 0 && modules@[j].base
                    + modules@[j].size <= u64::MAX),
            ranges_of(map) == spec_inserted_modules(modules@, i as int),
        decreases modules@.len() - i,
    {
        let m = &modules[i];
        let path = clone_string(&m.path);
        map.insert(m.base, m.base + m.size, i as u16, path);
        proof {
            assert(ranges_of(map) =~= spec_inserted_modules(modules@, i as int + 1));
        }
        i = i + 1;
    }
    let mut j: usize = 0;
    while j < skips.len()
        invariant
            j <= skips@.len(),
            forall|t: int| 0 <= t < skips@.len() ==> (#[trigger] skips@[t]) + 4 <= u64::MAX,
            ranges_of(map) == spec_punched(
                spec_inserted_modules(modules@, modules@.len() as int),
                skips@,
                j as int,
            ),
        decreases skips@.len() - j,
    {
        let s = skips[j];
        map.remove(s, s + 4);
        proof {
            assert(ranges_of(map) =~= spec_punched(
                spec_inserted_modules(modules@, modules@.len() as int),
                skips@,
                j as int + 1,
            ));
        }
        j = j + 1;
    }
    map
}

/// Relies on String::clone: the copy is an equal string.
#[verifier::external_body]
pub fn clone_string(s: &String) -> (r: String)
    ensures
        r == *s,
{
    s.clone()
}

} // verus!
