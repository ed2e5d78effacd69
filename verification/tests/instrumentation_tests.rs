use frida_asan::allocator::Allocator;
use frida_asan::asan_rt::AsanRuntime;
use frida_asan::coverage::{CoverageRuntime, MAP_SIZE};
use frida_asan::errors::AsanErrorKind;
use frida_asan::executor::{classify_exit, ExitClassification, GuestExit};
use frida_asan::helper::{
    get_module_size, DrCovRuntime, EmitAction, FridaInstrumentationHelper, GuestInstruction,
    MemAccess, Runtimes,
};
use frida_asan::options::FuzzerOptions;
use frida_asan::ranges::ModuleInfo;
use frida_asan::tmin::{input_hash, MapEqualityFactory, MapEqualityFeedback, StdTMinMutationalStage};

fn test_options() -> FuzzerOptions {
    FuzzerOptions {
        harness: Some(String::from("./harness.so")),
        harness_function: String::from("LLVMFuzzerTestOneInput"),
        libs_to_instrument: Vec::new(),
        dont_instrument: Vec::new(),
        cmplog: false,
        asan: true,
        disable_coverage: false,
        max_allocation: 1 << 30,
        max_allocation_panics: false,
        max_total_allocation: 1 << 32,
        allocation_backtraces: false,
    }
}

fn test_allocator() -> Allocator {
    Allocator::new(test_options(), 4096, vec![(0x10000, 0x7fff_0000_0000)]).unwrap()
}

fn test_modules() -> Vec<ModuleInfo> {
    vec![ModuleInfo { base: 0x1000, size: 0x1000, path: String::from("./harness.so") }]
}

fn test_runtimes() -> Runtimes {
    Runtimes {
        coverage: Some(CoverageRuntime::new()),
        drcov: None,
        asan: Some(AsanRuntime::new(test_allocator())),
        cmplog: false,
    }
}

fn instr(address: u64, mem: bool) -> GuestInstruction {
    GuestInstruction {
        address,
        size: 4,
        mem_access: if mem {
            Some(MemAccess {
                segment: 0,
                width: 8,
                base_reg: 5,
                index_reg: 0,
                scale: 1,
                displacement: 16,
            })
        } else {
            None
        },
        cmp_access: None,
    }
}

#[test]
fn clean_iterations_leave_no_findings_and_coverage() {
    let mut rt = AsanRuntime::new(test_allocator());
    let mut cov = CoverageRuntime::new();
    let mut total_findings = 0;
    for _ in 0..1000 {
        rt.pre_exec();
        cov.pre_exec();
        // the harness allocates 64 bytes, writes all of them, and frees
        cov.record_edge(0x1000);
        let p = rt.allocator.allocate(64, 8);
        assert_ne!(p, 0);
        rt.on_memory_access(p, 64);
        rt.allocator.release(p, &mut rt.errors);
        rt.allocator.reset();
        let findings = rt.post_exec();
        total_findings += findings.len();
        assert_eq!(classify_exit(GuestExit::Finished, findings.len()), ExitClassification::Clean);
    }
    assert_eq!(total_findings, 0);
    let nonzero = cov.map_ref().iter().filter(|&&b| b != 0).count();
    assert!(nonzero >= 1);
    assert_eq!(cov.map_ref().len(), MAP_SIZE);
}

#[test]
fn out_of_bounds_read_is_one_finding_per_iteration() {
    let mut rt = AsanRuntime::new(test_allocator());
    for _ in 0..100 {
        rt.pre_exec();
        // the harness allocates 16 bytes and reads byte 16
        let p = rt.allocator.allocate(16, 8);
        assert_ne!(p, 0);
        rt.on_memory_access(p + 16, 1);
        rt.allocator.release(p, &mut rt.errors);
        rt.allocator.reset();
        let findings = rt.post_exec();
        assert_eq!(findings.len(), 1);
        assert_eq!(findings[0].kind(), AsanErrorKind::OutOfBounds);
        assert_eq!(
            classify_exit(GuestExit::Finished, findings.len()),
            ExitClassification::SanitizerViolation
        );
    }
}

#[test]
fn classification_covers_every_outcome() {
    assert_eq!(classify_exit(GuestExit::Finished, 0), ExitClassification::Clean);
    assert_eq!(classify_exit(GuestExit::Finished, 3), ExitClassification::SanitizerViolation);
    assert_eq!(classify_exit(GuestExit::Crashed, 0), ExitClassification::Crash);
    assert_eq!(classify_exit(GuestExit::TimedOut, 5), ExitClassification::Timeout);
}

#[test]
fn coverage_updates_are_saturating_and_stable() {
    let mut cov = CoverageRuntime::new();
    cov.record_edge(0x1234);
    let idx1 = ((0x1234u64 ^ 0) & 0xFFFF) as usize;
    assert_eq!(cov.map_ref()[idx1], 1);
    assert_eq!(cov.prev_loc, 0x1234 >> 1);
    let idx2 = ((0x1234u64 ^ (0x1234 >> 1)) & 0xFFFF) as usize;
    for _ in 0..300 {
        cov.prev_loc = 0x1234 >> 1;
        cov.record_edge(0x1234);
    }
    assert_eq!(cov.map_ref()[idx2], 255);
    cov.pre_exec();
    assert_eq!(cov.prev_loc, 0);
}

#[test]
fn translator_decisions_follow_the_rules() {
    let helper = FridaInstrumentationHelper::new(
        test_options(),
        &test_modules(),
        &Vec::new(),
        0x9999_0000,
        test_runtimes(),
    )
    .unwrap();
    assert!(helper.stalker_enabled());
    assert!(helper.coverage_map().is_some());
    let block = vec![instr(0x1000, true), instr(0x1004, false), instr(0x5000, false)];
    let actions = helper.transform_basic_block(&block);
    // first instrumented instruction: coverage, shadow check, stalked, keep
    assert!(matches!(actions[0], EmitAction::CoverageMapping { address: 0x1000 }));
    assert!(matches!(actions[1], EmitAction::ShadowCheck { address: 0x1000, .. }));
    assert!(matches!(actions[2], EmitAction::StalkedAddress { address: 0x1000 }));
    assert!(matches!(actions[3], EmitAction::KeepInstruction { address: 0x1000 }));
    // later instrumented instruction: no coverage update
    assert!(matches!(actions[4], EmitAction::StalkedAddress { address: 0x1004 }));
    assert!(matches!(actions[5], EmitAction::KeepInstruction { address: 0x1004 }));
    // instruction outside the instrumented ranges: kept, nothing else
    assert!(matches!(actions[6], EmitAction::KeepInstruction { address: 0x5000 }));
    assert_eq!(actions.len(), 7);
}

#[test]
fn helper_refuses_to_instrument_its_own_code() {
    let helper = FridaInstrumentationHelper::new(
        test_options(),
        &test_modules(),
        &Vec::new(),
        0x1800,
        test_runtimes(),
    );
    assert!(helper.is_none());
}

#[test]
fn skip_windows_are_punched_out() {
    let helper = FridaInstrumentationHelper::new(
        test_options(),
        &test_modules(),
        &vec![0x1500],
        0x9999_0000,
        test_runtimes(),
    )
    .unwrap();
    assert!(helper.ranges.contains_key(0x14ff));
    assert!(!helper.ranges.contains_key(0x1500));
    assert!(!helper.ranges.contains_key(0x1503));
    assert!(helper.ranges.contains_key(0x1504));
    let block = vec![instr(0x1500, false)];
    let actions = helper.transform_basic_block(&block);
    assert_eq!(actions.len(), 1);
    assert!(matches!(actions[0], EmitAction::KeepInstruction { address: 0x1500 }));
}

#[test]
fn disabled_instrumentation_builds_no_ranges() {
    let mut opts = test_options();
    opts.asan = false;
    opts.disable_coverage = true;
    let helper = FridaInstrumentationHelper::new(
        opts,
        &test_modules(),
        &Vec::new(),
        0x1800,
        Runtimes { coverage: None, drcov: None, asan: None, cmplog: false },
    )
    .unwrap();
    assert!(!helper.stalker_enabled());
    assert!(!helper.ranges.contains_key(0x1000));
    assert!(helper.coverage_map().is_none());
}

#[test]
fn helper_lifecycle_drains_findings() {
    let mut helper = FridaInstrumentationHelper::new(
        test_options(),
        &test_modules(),
        &Vec::new(),
        0x9999_0000,
        test_runtimes(),
    )
    .unwrap();
    helper.pre_exec();
    let p = match helper.runtimes.asan.as_mut() {
        Some(rt) => {
            let p = rt.allocator.allocate(8, 8);
            rt.on_memory_access(p + 8, 1);
            p
        }
        None => unreachable!(),
    };
    assert_ne!(p, 0);
    let findings = helper.post_exec();
    assert_eq!(findings.len(), 1);
    let none_after = helper.post_exec();
    assert!(none_after.is_empty());
}

#[test]
fn drcov_runtime_records_blocks_and_stalked_addresses() {
    let mut rt = DrCovRuntime::new();
    rt.push_basic_block(0x1000, 0x1010);
    rt.push_basic_block(0x2000, 0x2004);
    assert_eq!(rt.basic_blocks.len(), 2);
    assert_eq!(rt.basic_blocks[1].start, 0x2000);
    rt.add_stalked_address(0x7000, 0x1000);
    assert_eq!(rt.real_address_for_stalked(0x7000), 0x1000);
    assert_eq!(rt.real_address_for_stalked(0x7004), 0x7004);
}

#[test]
fn stalked_addresses_resolve_through_the_sanitizer_too() {
    let mut rt = AsanRuntime::new(test_allocator());
    rt.add_stalked_address(0xaaaa, 0x1000);
    assert_eq!(rt.real_address_for_stalked(0xaaaa), 0x1000);
    assert_eq!(rt.real_address_for_stalked(0xbbbb), 0xbbbb);
}

#[test]
fn module_size_is_the_last_walked_range() {
    assert_eq!(get_module_size(&Vec::new()), 0);
    assert_eq!(get_module_size(&vec![(0x1000, 0x500), (0x2000, 0x300)]), 0x300);
}

#[test]
fn map_equality_feedback_pins_the_hash() {
    let feedback = MapEqualityFeedback::new("eq", "edges", 77);
    assert_eq!(feedback.name(), "eq");
    assert_eq!(feedback.observer_name(), "edges");
    assert!(feedback.is_interesting(77));
    assert!(!feedback.is_interesting(78));
    let factory = MapEqualityFactory::new_from_observer("edges");
    assert_eq!(factory.observer_name(), "edges");
    let made = factory.create_feedback(42);
    assert_eq!(made.name(), "MapEq");
    assert_eq!(made.observer_name(), "edges");
    assert!(made.is_interesting(42));
}

#[test]
fn minimization_keeps_smaller_interesting_inputs() {
    let stage = StdTMinMutationalStage::new((), MapEqualityFactory::new_from_observer("edges"), 3);
    assert_eq!(stage.iterations(), 3);
    let base = vec![1u8, 2, 3, 4];
    let base_hash = input_hash(&base);
    let mut state = stage.start_minification(base, base_hash, 4096);
    assert!(!state.done());
    state.begin_candidate();
    assert_eq!(state.max_size, 4);
    // a bigger candidate is not executed and spends budget
    assert!(!state.should_execute(5));
    state.record_result(vec![1u8, 2, 3, 4, 5], false);
    assert_eq!(state.i, 1);
    // a smaller interesting candidate becomes the base and restarts
    assert!(state.should_execute(2));
    state.record_result(vec![1u8, 2], true);
    assert_eq!(state.i, 0);
    assert_eq!(state.base, vec![1u8, 2]);
    // a smaller uninteresting candidate only spends budget
    state.record_result(vec![1u8], false);
    state.record_result(vec![3u8], false);
    state.record_result(vec![4u8], false);
    assert!(state.done());
    // the base changed, so it replaces the corpus entry
    let final_hash = input_hash(&state.base);
    assert_eq!(state.should_replace(final_hash), final_hash != base_hash);
    assert_eq!(input_hash(&state.base), final_hash);
}
