use vstd::prelude::*;

use std::collections::HashMap;

use crate::asan_rt::AsanRuntime;
use crate::coverage::CoverageRuntime;
use crate::errors::AsanError;
use crate::options::FuzzerOptions;
use crate::ranges::{
    build_instrumentation_ranges, ranges_of, spec_inserted_modules, spec_punched, ModuleInfo,
    ModuleRangeMap,
};

verus! {

/// One basic block the DrCov tracer observed: its guest start and end.
pub struct DrCovBasicBlock {
    pub start: u64,
    pub end: u64,
}

/// The DrCov basic-block tracer: the blocks recorded so far, and the map
/// from translated program counters back to guest addresses.
pub struct DrCovRuntime {
    /// The observed basic blocks.
    pub basic_blocks: Vec<DrCovBasicBlock>,
    /// Translated program counters, keyed back to guest addresses.
    pub stalked: HashMap<u64, u64>,
}

impl DrCovRuntime {
    /// Makes an empty tracer.
    pub fn new() -> (r: Self)
        ensures
            r.basic_blocks@.len() == 0,
            r.stalked@ == Map::<u64, u64>::empty(),
    {
        DrCovRuntime { basic_blocks: Vec::new(), stalked: HashMap::new() }
    }

    /// Records one observed block.
    pub fn push_basic_block(&mut self, start: u64, end: u64)
        ensures
            final(self).basic_blocks@.len() == old(self).basic_blocks@.len() + 1,
            final(self).basic_blocks@.last().start == start,
            final(self).basic_blocks@.last().end == end,
            forall|i: int|
                0 <= i < old(self).basic_blocks@.len() ==> final(self).basic_blocks@[i] == old(
                    self,
                ).basic_blocks@[i],
            final(self).stalked == old(self).stalked,
    {
        self.basic_blocks.push(DrCovBasicBlock { start, end });
    }

    /// Remembers which guest address a translated instruction came from.
    pub fn add_stalked_address(&mut self, translated: u64, original: u64)
        ensures
            final(self).stalked@ == old(self).stalked@.insert(translated, original),
            final(self).basic_blocks == old(self).basic_blocks,
    {
        self.stalked.insert(translated, original);
    }

    /// Maps a translated program counter back to its guest address; an
    /// address that was never recorded maps to itself.
    pub fn real_address_for_stalked(&self, translated: u64) -> (r: u64)
        ensures
            r == if self.stalked@.contains_key(translated) {
                self.stalked@[translated]
            } else {
                translated
            },
    {
        match self.stalked.get(&translated) {
            Some(original) => *original,
            None => translated,
        }
    }
}

/// One memory access a disassembler found in a guest instruction: the
/// operands of its address computation and the width of the access.
#[derive(Clone, Copy, Debug)]
pub struct MemAccess {
    pub segment: u16,
    pub width: u8,
    pub base_reg: u16,
    pub index_reg: u16,
    pub scale: u8,
    pub displacement: i64,
}

/// One comparison a disassembler found interesting for compare-logging.
#[derive(Clone, Copy, Debug)]
pub struct CmpAccess {
    pub op1: u64,
    pub op2: u64,
    pub special_case: bool,
}

/// One guest instruction of a basic block about to be translated, with
/// whatever the disassembler found in it.
pub struct GuestInstruction {
    /// The instruction's guest address.
    pub address: u64,
    /// The instruction's size in bytes.
    pub size: u64,
    /// A memory access the instruction performs, when one was found.
    pub mem_access: Option<MemAccess>,
    /// An interesting comparison, when one was found.
    pub cmp_access: Option<CmpAccess>,
}

/// One action the translator takes for the emitted stream.
pub enum EmitAction {
    /// Emit the per-block coverage-bitmap update.
    CoverageMapping { address: u64 },
    /// Emit a callout recording the block for the DrCov tracer.
    DrCovCallout { address: u64, size: u64 },
    /// Emit an inline shadow check before the access.
    ShadowCheck { address: u64, access: MemAccess },
    /// Emit a callout recording the comparison's operands.
    CmpLogHandling { address: u64, access: CmpAccess },
    /// Record the mapping from the emitted code back to the guest address.
    StalkedAddress { address: u64 },
    /// Keep the original instruction in the emitted stream.
    KeepInstruction { address: u64 },
}

/// The set of runtimes the helper drives: any subset of coverage, DrCov
/// tracing, address sanitization and compare-logging may be present.
pub struct Runtimes {
    pub coverage: Option<CoverageRuntime>,
    pub drcov: Option<DrCovRuntime>,
    pub asan: Option<AsanRuntime>,
    pub cmplog: bool,
}

impl Runtimes {
    /// Whether each runtime is intact.
    pub open spec fn wf(self) -> bool {
        &&& self.coverage matches Some(c) ==> c.wf()
        &&& self.asan matches Some(a) ==> a.allocator.wf()
    }

    /// Initialization across every runtime present. The runtimes of this
    /// set need no per-module setup, so this is the identity; it is the
    /// seam where a runtime that did would be initialised.
    pub fn init_all(&mut self, ranges: &ModuleRangeMap)
        ensures
            *final(self) == *old(self),
    {
    }

    /// The pre-execution hook of every runtime present: coverage restarts
    /// its edge chain, the sanitizer clears its registry and snapshots the
    /// live-allocation count.
    pub fn pre_exec_all(&mut self)
        requires
            old(self).wf(),
        ensures
            final(self).wf(),
            final(self).cmplog == old(self).cmplog,
            final(self).drcov == old(self).drcov,
            old(self).coverage is Some <==> final(self).coverage is Some,
            old(self).asan is Some <==> final(self).asan is Some,
            final(self).coverage matches Some(c) ==> c.prev_loc == 0 && c.map == old(
                self,
            ).coverage.unwrap().map,
            final(self).asan matches Some(a) ==> a.errors@ == Seq::<AsanError>::empty()
                && a.allocator == old(self).asan.unwrap().allocator,
    {
        match &mut self.coverage {
            Some(c) => c.pre_exec(),
            None => (),
        }
        match &mut self.asan {
            Some(a) => a.pre_exec(),
            None => (),
        }
    }

    /// The post-execution hook of every runtime present: the sanitizer's
    /// findings are drained, in insertion order; without a sanitizer the
    /// result is empty.
    pub fn post_exec_all(&mut self) -> (r: Vec<AsanError>)
        requires
            old(self).wf(),
        ensures
            final(self).wf(),
            final(self).cmplog == old(self).cmplog,
            final(self).drcov == old(self).drcov,
            final(self).coverage == old(self).coverage,
            old(self).asan is Some <==> final(self).asan is Some,
            old(self).asan matches Some(a) ==> r@ == a.errors@,
            old(self).asan is None ==> r@ == Seq::<AsanError>::empty(),
            final(self).asan matches Some(a) ==> a.errors@ == Seq::<AsanError>::empty()
                && a.allocator == old(self).asan.unwrap().allocator,
    {
        match &mut self.asan {
            Some(a) => a.post_exec(),
            None => Vec::new(),
        }
    }
}

/// The helper that feeds the in-process executor with instrumentation: it
/// owns the instrumented-range map and the runtimes, and decides, for every
/// basic block the translator sees, what is emitted around each
/// instruction.
pub struct FridaInstrumentationHelper {
    /// The fuzzer options.
    pub options: FuzzerOptions,
    /// The instrumented ranges.
    pub ranges: ModuleRangeMap,
    /// The runtimes driven by the translator.
    pub runtimes: Runtimes,
}

/// What the translator emits for one instruction: the coverage update and
/// DrCov callout at the first instrumented instruction of a block, a shadow
/// check before an access the disassembler found when the sanitizer is
/// present, a compare-logging callout when configured, the stalked-address
/// record, and the instruction itself.
pub open spec fn spec_instruction_actions(
    h: FridaInstrumentationHelper,
    instr: GuestInstruction,
    first: bool,
) -> Seq<EmitAction> {
    let covered = ranges_of(h.ranges).dom().contains(instr.address);
    if !covered {
        seq![EmitAction::KeepInstruction { address: instr.address }]
    } else {
        let cov: Seq<EmitAction> = if first && h.runtimes.coverage is Some {
            seq![EmitAction::CoverageMapping { address: instr.address }]
        } else {
            Seq::empty()
        };
        let drcov: Seq<EmitAction> = if first && h.runtimes.drcov is Some {
            seq![EmitAction::DrCovCallout { address: instr.address, size: instr.size }]
        } else {
            Seq::empty()
        };
        let shadow: Seq<EmitAction> = if h.runtimes.asan is Some && instr.mem_access is Some {
            seq![
                EmitAction::ShadowCheck {
                    address: instr.address,
                    access: instr.mem_access.unwrap(),
                },
            ]
        } else {
            Seq::empty()
        };
        let cmp: Seq<EmitAction> = if h.runtimes.cmplog && instr.cmp_access is Some {
            seq![
                EmitAction::CmpLogHandling {
                    address: instr.address,
                    access: instr.cmp_access.unwrap(),
                },
            ]
        } else {
            Seq::empty()
        };
        cov + drcov + shadow + cmp + seq![
            EmitAction::StalkedAddress { address: instr.address },
            EmitAction::KeepInstruction { address: instr.address },
        ]
    }
}

/// What the translator emits for the instructions of a block from index `i`
/// on, given whether an instrumented instruction has been seen yet.
pub open spec fn spec_block_actions(
    h: FridaInstrumentationHelper,
    block: Seq<GuestInstruction>,
    i: int,
    first: bool,
) -> Seq<EmitAction>
    decreases block.len() - i,
{
    if i < 0 || i >= block.len() {
        Seq::empty()
    } else {
        let covered = ranges_of(h.ranges).dom().contains(block[i].address);
        spec_instruction_actions(h, block[i], first) + spec_block_actions(
            h,
            block,
            i + 1,
            first && !covered,
        )
    }
}

impl FridaInstrumentationHelper {
    /// Creates a helper: when any instrumentation is enabled, the module
    /// ranges are built and every runtime is initialised with them. Returns
    /// `None` — a fatal setup failure — when the helper's own code address
    /// falls inside the instrumented ranges, as instrumenting the fuzzer
    /// itself would recurse.
    pub fn new(
        options: FuzzerOptions,
        modules: &Vec<ModuleInfo>,
        skips: &Vec<u64>,
        self_code_address: u64,
        runtimes: Runtimes,
    ) -> (r: Option<FridaInstrumentationHelper>)
        requires
            forall|i: int|
                0 <= i < modules@.len() ==> ((#[trigger] modules@[i]).size > 0 && modules@[i].base
                    + modules@[i].size <= u64::MAX),
            forall|i: int| 0 <= i < skips@.len() ==> (#[trigger] skips@[i]) + 4 <= u64::MAX,
            modules@.len() <= 0xFFFF,
        ensures
            match r {
                Some(h) => {
                    &&& h.options == options
                    &&& h.runtimes == runtimes
                    &&& (options.cmplog || options.asan || !options.disable_coverage)
                        ==> ranges_of(h.ranges) == spec_punched(
                        spec_inserted_modules(modules@, modules@.len() as int),
                        skips@,
                        skips@.len() as int,
                    ) && !ranges_of(h.ranges).dom().contains(self_code_address)
                    &&& !(options.cmplog || options.asan || !options.disable_coverage)
                        ==> ranges_of(h.ranges) == crate::ranges::empty_ranges()
                },
                None => (options.cmplog || options.asan || !options.disable_coverage)
                    && spec_punched(
                    spec_inserted_modules(modules@, modules@.len() as int),
                    skips@,
                    skips@.len() as int,
                ).dom().contains(self_code_address),
            },
    {
        let mut runtimes = runtimes;
        if options.cmplog || options.asan || !options.disable_coverage {
            let ranges = build_instrumentation_ranges(modules, skips);
            if ranges.contains_key(self_code_address) {
                return None;
            }
            runtimes.init_all(&ranges);
            Some(FridaInstrumentationHelper { options, ranges, runtimes })
        } else {
            Some(FridaInstrumentationHelper { options, ranges: ModuleRangeMap::new(), runtimes })
        }
    }

    /// Initialize all runtimes with the instrumented ranges.
    pub fn init(&mut self)
        ensures
            *final(self) == *old(self),
    {
        self.runtimes.init_all(&self.ranges);
    }

    /// Whether the stalker is enabled: any of compare-logging, the
    /// sanitizer, or coverage instrumentation is on.
    pub fn stalker_enabled(&self) -> (r: bool)
        ensures
            r == (self.options.cmplog || self.options.asan || !self.options.disable_coverage),
    {
        self.options.cmplog || self.options.asan || !self.options.disable_coverage
    }

    /// The coverage bitmap, published to the external fuzzing loop; absent
    /// when no coverage runtime is present.
    pub fn coverage_map(&self) -> (r: Option<&Vec<u8>>)
        ensures
            self.runtimes.coverage is Some <==> r is Some,
            r matches Some(m) ==> m == &self.runtimes.coverage.unwrap().map,
    {
        match &self.runtimes.coverage {
            Some(c) => Some(c.map_ref()),
            None => None,
        }
    }

    /// Decides what the translator emits for one basic block: for each
    /// instruction inside the instrumented ranges, the coverage update and
    /// DrCov callout at the block's first such instruction, a shadow check
    /// before each memory access when the sanitizer is present, a
    /// compare-logging callout when configured, and the stalked-address
    /// record; every instruction is kept in the emitted stream.
    pub fn transform_basic_block(&self, block: &Vec<GuestInstruction>) -> (r: Vec<EmitAction>)
        ensures
            r@ == spec_block_actions(*self, block@, 0, true),
    {
        let mut actions: Vec<EmitAction> = Vec::new();
        let mut first = true;
        let mut i: usize = 0;
        while i < block.len()
            invariant
                i <= block@.len(),
                actions@ + spec_block_actions(*self, block@, i as int, first)
                    == spec_block_actions(*self, block@, 0, true),
            decreases block@.len() - i,
        {
            let instr = &block[i];
            let ghost pre_actions = actions@;
            let ghost was_first = first;
            if self.ranges.contains_key(instr.address) {
                if first {
                    first = false;
                    if self.runtimes.coverage.is_some() {
                        actions.push(EmitAction::CoverageMapping { address: instr.address });
                    }
                    if self.runtimes.drcov.is_some() {
                        actions.push(
                            EmitAction::DrCovCallout { address: instr.address, size: instr.size },
                        );
                    }
                }
                if self.runtimes.asan.is_some() {
                    match &instr.mem_access {
                        Some(access) => {
                            actions.push(
                                EmitAction::ShadowCheck {
                                    address: instr.address,
                                    access: *access,
                                },
                            );
                        },
                        None => (),
                    }
                }
                if self.runtimes.cmplog {
                    match &instr.cmp_access {
                        Some(access) => {
                            actions.push(
                                EmitAction::CmpLogHandling {
                                    address: instr.address,
                                    access: *access,
                                },
                            );
                        },
                        None => (),
                    }
                }
                actions.push(EmitAction::StalkedAddress { address: instr.address });
            }
            actions.push(EmitAction::KeepInstruction { address: instr.address });
            proof {
                let covered = ranges_of(self.ranges).dom().contains(block@[i as int].address);
                assert(actions@ =~= pre_actions + spec_instruction_actions(
                    *self,
                    block@[i as int],
                    was_first,
                ));
                assert(first == (was_first && !covered));
                assert(spec_block_actions(*self, block@, i as int, was_first)
                    == spec_instruction_actions(*self, block@[i as int], was_first)
                    + spec_block_actions(*self, block@, i as int + 1, was_first && !covered));
                assert(actions@ + spec_block_actions(*self, block@, i as int + 1, first)
                    =~= spec_block_actions(*self, block@, 0, true));
            }
            i = i + 1;
        }
        actions
    }

    /// Method called before an execution: the pre-execution hook of every
    /// runtime.
    pub fn pre_exec(&mut self)
        requires
            old(self).runtimes.wf(),
        ensures
            final(self).runtimes.wf(),
            final(self).options == old(self).options,
            final(self).ranges == old(self).ranges,
            final(self).runtimes.asan matches Some(a) ==> a.errors@ == Seq::<AsanError>::empty(),
            final(self).runtimes.coverage matches Some(c) ==> c.prev_loc == 0,
    {
        self.runtimes.pre_exec_all();
    }

    /// Method called after an execution: the sanitizer's findings, drained
    /// in insertion order.
    pub fn post_exec(&mut self) -> (r: Vec<AsanError>)
        requires
            old(self).runtimes.wf(),
        ensures
            final(self).runtimes.wf(),
            final(self).options == old(self).options,
            final(self).ranges == old(self).ranges,
            old(self).runtimes.asan matches Some(a) ==> r@ == a.errors@,
            old(self).runtimes.asan is None ==> r@ == Seq::<AsanError>::empty(),
    {
        self.runtimes.post_exec_all()
    }
}

/// Helper to get the size of a module's code: of the executable ranges a
/// walk of the module yields, in `(base, size)` form, the size of the last
/// one, as the walk's final visit leaves it.
pub fn get_module_size(ranges: &Vec<(u64, u64)>) -> (r: u64)
    ensures
        r == if ranges@.len() == 0 {
            0u64
        } else {
            ranges@.last().1
        },
{
    let mut code_size: u64 = 0;
    let mut i: usize = 0;
    while i < ranges.len()
        invariant
            i <= ranges@.len(),
            code_size == if i == 0 {
                0u64
            } else {
                ranges@[i - 1].1
            },
        decreases ranges@.len() - i,
    {
        code_size = ranges[i].1;
        i = i + 1;
    }
    code_size
}

} // verus!
