use vstd::prelude::*;

verus! {

/// Relies on ahash::RandomState::with_seeds and the resulting hasher: a
/// 64-bit hash of the input bytes under fixed keys. The algorithm ahash
/// selects depends on the machine, so nothing is promised of the result.
#[verifier::external_body]
pub fn input_hash(data: &Vec<u8>) -> u64 {
    let mut hasher = std::hash::BuildHasher::build_hasher(&ahash::RandomState::with_seeds(
        0,
        0,
        0,
        0,
    ));
    std::hash::Hasher::write(&mut hasher, data.as_slice());
    std::hash::Hasher::finish(&hasher)
}

/// A feedback which checks whether the hash of the currently observed map
/// equals the original hash provided.
pub struct MapEqualityFeedback {
    /// This feedback's own name.
    pub name: String,
    /// The name of the observer whose map is hashed.
    pub obs_name: String,
    /// The hash the observed map must equal.
    pub orig_hash: u64,
}

impl MapEqualityFeedback {
    /// Creates a new map equality feedback.
    pub fn new(name: &str, obs_name: &str, orig_hash: u64) -> (r: Self)
        ensures
            r.name@ == name@,
            r.obs_name@ == obs_name@,
            r.orig_hash == orig_hash,
    {
        MapEqualityFeedback { name: name.to_string(), obs_name: obs_name.to_string(), orig_hash }
    }

    /// This feedback's name.
    pub fn name(&self) -> (r: &str)
        ensures
            r@ == self.name@,
    {
        self.name.as_str()
    }

    /// The name of the observer this feedback reads.
    pub fn observer_name(&self) -> (r: &str)
        ensures
            r@ == self.obs_name@,
    {
        self.obs_name.as_str()
    }

    /// Whether an execution is interesting: the hash of the observed map
    /// equals the original hash.
    pub fn is_interesting(&self, observed_hash: u64) -> (r: bool)
        ensures
            r == (observed_hash == self.orig_hash),
    {
        observed_hash == self.orig_hash
    }
}

/// A feedback factory for ensuring that the maps for minimized inputs stay
/// equal to the map of the input being minimized.
pub struct MapEqualityFactory {
    /// The name of the observer whose map is hashed.
    pub obs_name: String,
}

impl MapEqualityFactory {
    /// Creates a new factory reading the observer of the given name.
    pub fn new_from_observer(observer_name: &str) -> (r: Self)
        ensures
            r.obs_name@ == observer_name@,
    {
        MapEqualityFactory { obs_name: observer_name.to_string() }
    }

    /// The name of the observer this factory's feedbacks read.
    pub fn observer_name(&self) -> (r: &str)
        ensures
            r@ == self.obs_name@,
    {
        self.obs_name.as_str()
    }

    /// Creates a feedback pinned to the given map hash.
    pub fn create_feedback(&self, orig_hash: u64) -> (r: MapEqualityFeedback)
        ensures
            r.name@ == "MapEq"@,
            r.obs_name@ == self.obs_name@,
            r.orig_hash == orig_hash,
    {
        MapEqualityFeedback {
            name: "MapEq".to_string(),
            obs_name: clone_plain_string(&self.obs_name),
            orig_hash,
        }
    }
}

/// Relies on String::clone: the copy reads the same.
#[verifier::external_body]
fn clone_plain_string(s: &String) -> (r: String)
    ensures
        r@ == s@,
{
    s.clone()
}

/// The bookkeeping of one minimization run: the candidate counter, the run
/// budget, the smallest interesting input found so far and the hash it
/// started from, and the size caps the stage maintains for the mutators.
pub struct TMinState {
    /// The candidate counter.
    pub i: usize,
    /// The number of candidates to try after the last improvement.
    pub num: usize,
    /// The smallest interesting input so far.
    pub base: Vec<u8>,
    /// The hash of the input minimization started from.
    pub base_hash: u64,
    /// The size cap to restore when minimization ends.
    pub orig_max_size: usize,
    /// The size cap handed to the mutators: the current base's length.
    pub max_size: usize,
}

impl TMinState {
    /// Whether the run budget is exhausted.
    pub fn done(&self) -> (r: bool)
        ensures
            r == (self.i >= self.num),
    {
        self.i >= self.num
    }

    /// Prepares the next candidate: the mutators' size cap becomes the
    /// current base's length, so mutation shrinks rather than grows.
    pub fn begin_candidate(&mut self)
        ensures
            *final(self) == (TMinState { max_size: final(self).max_size, ..*old(self) }),
            final(self).max_size == old(self).base@.len(),
    {
        self.max_size = self.base.len();
    }

    /// Whether a mutated candidate is worth executing: only candidates
    /// strictly smaller than the current base are run, as the mutators are
    /// not guaranteed to reduce size.
    pub fn should_execute(&self, candidate_len: usize) -> (r: bool)
        ensures
            r == (candidate_len < self.base@.len()),
    {
        candidate_len < self.base.len()
    }

    /// Records one candidate's outcome. A smaller candidate whose execution
    /// was interesting becomes the new base and restarts the counter, so
    /// minimization keeps going from the improvement; anything else spends
    /// one unit of the budget.
    pub fn record_result(&mut self, candidate: Vec<u8>, interesting: bool)
        requires
            old(self).i < old(self).num,
        ensures
            final(self).num == old(self).num,
            final(self).base_hash == old(self).base_hash,
            final(self).orig_max_size == old(self).orig_max_size,
            final(self).max_size == old(self).max_size,
            (candidate@.len() < old(self).base@.len() && interesting) ==> final(self).base
                == candidate && final(self).i == 0,
            !(candidate@.len() < old(self).base@.len() && interesting) ==> final(self).base == old(
                self,
            ).base && final(self).i == old(self).i + 1,
    {
        if candidate.len() < self.base.len() && interesting {
            self.base = candidate;
            self.i = 0;
        } else {
            self.i = self.i + 1;
        }
    }

    /// Whether the minimized base should replace the corpus entry it came
    /// from: only when its hash moved away from the original's.
    pub fn should_replace(&self, final_hash: u64) -> (r: bool)
        ensures
            r == (final_hash != self.base_hash),
    {
        final_hash != self.base_hash
    }
}

/// The corpus-entry minimizing mutational stage: it holds the mutator the
/// driving loop applies, the feedback factory that pins the coverage map,
/// and the number of candidates tried after each improvement.
pub struct StdTMinMutationalStage<M> {
    /// The mutator the driving loop applies to the base.
    pub mutator: M,
    /// The factory for map-equality feedbacks.
    pub factory: MapEqualityFactory,
    /// The number of candidates tried after each improvement.
    pub runs: usize,
}

impl<M> StdTMinMutationalStage<M> {
    /// Creates a new minimising mutational stage that will minimize
    /// provided corpus entries.
    pub fn new(mutator: M, factory: MapEqualityFactory, runs: usize) -> (r: Self)
        ensures
            r.factory == factory,
            r.runs == runs,
    {
        StdTMinMutationalStage { mutator, factory, runs }
    }

    /// The mutator, added to this stage.
    pub fn mutator(&self) -> (r: &M)
        ensures
            r == &self.mutator,
    {
        &self.mutator
    }

    /// The list of mutators, added to this stage (as mutable ref).
    pub fn mutator_mut(&mut self) -> &mut M {
        &mut self.mutator
    }

    /// Gets the number of iterations from a fixed number of runs.
    pub fn iterations(&self) -> (r: usize)
        ensures
            r == self.runs,
    {
        self.runs
    }

    /// Starts minimizing one corpus entry: the budget is this stage's run
    /// count, the base is the entry's input, and the original size cap is
    /// remembered so the driving loop can restore it.
    pub fn start_minification(&self, base: Vec<u8>, base_hash: u64, orig_max_size: usize) -> (r:
        TMinState)
        ensures
            r.i == 0,
            r.num == self.runs,
            r.base == base,
            r.base_hash == base_hash,
            r.orig_max_size == orig_max_size,
            r.max_size == orig_max_size,
    {
        TMinState {
            i: 0,
            num: self.runs,
            base,
            base_hash,
            orig_max_size,
            max_size: orig_max_size,
        }
    }
}

} // verus!
