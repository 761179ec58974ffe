use rayzor_runtime::crash_diagnostics::{crash_report, crash_status, CodeRanges, FatalSignal};
use rayzor_runtime::exception::{
    get_exception_stack_trace, normalize_thrown_type_id, rayzor_exception_pop_handler,
    rayzor_exception_push_handler, rayzor_exception_type_matches, rayzor_get_exception,
    rayzor_get_exception_type_id, rayzor_throw, rayzor_throw_typed, throw_with_message,
    ExceptionState, ThrowStep,
};
use rayzor_runtime::heap_check::{check_heap, HeapCheckGuard};
use rayzor_runtime::kernel_timing::{
    dump_header, dump_rows, init, is_enabled, KernelTimer, KernelTiming, TimerGuard,
};
use rayzor_runtime::native_stack_trace::{
    capture_shadow_stack, lookup_function, rayzor_pop_call_frame, rayzor_push_call_frame,
    rayzor_register_function_source, rayzor_set_stack_traces_enabled,
    resolve_backtrace_to_source, FunctionRegistry,
    StackTraces,
};
use rayzor_runtime::panic_guard::{guarded_outcome, panic_report};
use rayzor_runtime::profile::{
    arming_message, ensure_alloc_dump_hooks, frame_line, parse_number, rayzor_dump_alloc_graph,
    signal_header, timer_interval, GraphSites, HookSettings, ProfilePlan, Symbol,
    TrackingAllocator,
};

fn text(b: Vec<u8>) -> String {
    String::from_utf8(b).unwrap()
}

#[test]
fn fatal_signal_reports_address_and_keeps_signal_status() {
    let mut ranges = CodeRanges::new();
    ranges.register_code(0x1000, 16, b"Fixture.main");
    let report =
        text(crash_report(&ranges, FatalSignal::Segv, Some(0x20), 0x1004, 0));
    assert_eq!(crash_status(11), 128 + 11);
    assert!(report.contains("rayzor: native crash signal="), "{report}");
    assert!(report.contains("fault=0x") && report.contains("pc=0x"), "{report}");
    assert!(report.contains("Fixture.main [Cranelift] +0x0000000000000004"), "{report}");
}

fn registry() -> FunctionRegistry {
    let mut r = FunctionRegistry::new();
    for (id, at, name) in [(1u32, 0x1000usize, "Main.main"), (2, 0x2000, "Main.go")] {
        rayzor_register_function_source(
            &mut r,
            id,
            at,
            Some(name.as_bytes()),
            Some(b"Main.hx"),
            3 * id,
            1,
            Vec::new(),
        );
    }
    r
}

#[test]
fn stacks_are_traced() {
    let r = registry();
    let mut traces = StackTraces::new();
    rayzor_set_stack_traces_enabled(&mut traces, 1);
    rayzor_push_call_frame(&mut traces, &r, 1);
    rayzor_push_call_frame(&mut traces, &r, 2);
    let both = text(capture_shadow_stack(&traces, &r));
    assert!(both.contains("Main.main") && both.contains("Main.go"), "{both}");
    rayzor_pop_call_frame(&mut traces);
    let one = text(capture_shadow_stack(&traces, &r));
    assert!(one.contains("Main.main") && !one.contains("Main.go"), "{one}");
    assert_eq!(lookup_function(&r, 0x0fff), None);
    assert_eq!(lookup_function(&r, 0x1fff), Some(0));
    assert_eq!(lookup_function(&r, 0x2fff), Some(1));
}

#[test]
fn places_are_written() {
    let r = registry();
    let ips = vec![0x2010usize, 0, 0x1001, 0x2020, 0x10];
    let trace = text(resolve_backtrace_to_source(&r, &ips, b"raw"));
    assert_eq!(
        trace,
        "Called from Main.go (Main.hx line 6 column 1)\n\
         Called from Main.main (Main.hx line 3 column 1)"
    );
    let raw = text(resolve_backtrace_to_source(&FunctionRegistry::new(), &ips, b"raw"));
    assert_eq!(raw, "raw");
    let mut traces = StackTraces::new();
    rayzor_push_call_frame(&mut traces, &r, 1);
    rayzor_push_call_frame(&mut traces, &r, 7);
    let trace = text(capture_shadow_stack(&traces, &r));
    assert_eq!(trace, "Called from Main.main (Main.hx:3:1)");
    rayzor_push_call_frame(&mut traces, &r, 2);
    rayzor_push_call_frame(&mut traces, &r, 1);
    let trace = text(capture_shadow_stack(&traces, &r));
    assert_eq!(trace, "Called from Main.main (Main.hx:3:1)\nCalled from Main.go (Main.hx:6:1)");
    let mut hidden = StackTraces::new();
    rayzor_push_call_frame(&mut hidden, &r, 7);
    assert!(capture_shadow_stack(&hidden, &r).is_empty());
}

#[test]
fn exceptions_reach_the_nearest_handler() {
    let r = registry();
    let traces = StackTraces::new();
    let mut state = ExceptionState::new();
    assert_eq!(rayzor_throw(&mut state, 5, &traces, &r), ThrowStep::Uncaught);
    let outer = rayzor_exception_push_handler(&mut state);
    let inner = rayzor_exception_push_handler(&mut state);
    assert_ne!(outer, inner);
    assert_eq!(rayzor_throw_typed(&mut state, 7, 3, &traces, &r), ThrowStep::Jump(inner));
    assert_eq!(rayzor_get_exception(&state), 7);
    assert_eq!(rayzor_get_exception_type_id(&state), 3);
    rayzor_exception_pop_handler(&mut state);
    assert_eq!(
        throw_with_message(&mut state, b"boom".to_vec(), &traces, &r),
        ThrowStep::Jump(outer)
    );
    rayzor_exception_pop_handler(&mut state);
    rayzor_exception_pop_handler(&mut state);
    assert_eq!(rayzor_throw(&mut state, 5, &traces, &r), ThrowStep::Uncaught);
    assert!(get_exception_stack_trace(&state).is_empty());
    assert_eq!(normalize_thrown_type_id(3), 3);
    assert_eq!(rayzor_exception_type_matches(4, 4, |_a: i64, _b: i64| false), 1);
    assert_eq!(rayzor_exception_type_matches(1001, 1002, |_a: i64, _b: i64| false), 0);
    assert_eq!(rayzor_exception_type_matches(1001, 1002, |_a: i64, _b: i64| true), 1);
}

#[test]
fn kernels_are_timed() {
    let mut on = KernelTiming::new();
    assert!(!is_enabled(&on));
    assert!(init(&mut on, Some(b"TRUE")));
    assert!(is_enabled(&on));
    assert!(!init(&mut on, Some(b"1")) && !init(&mut on, None));
    assert!(is_enabled(&on));
    let mut off = KernelTiming::new();
    assert!(!init(&mut off, Some(b"yes")) && !init(&mut off, Some(b"1")));
    assert!(!is_enabled(&off));
    let mut a = KernelTimer::new(b"a".to_vec());
    let mut b = KernelTimer::new(b"b".to_vec());
    a.record(5);
    TimerGuard::new(&on, 100).finish(&mut b, 130);
    TimerGuard::new(&off, 100).finish(&mut b, 900);
    let (rows, total) = dump_rows(&vec![a, KernelTimer::new(b"c".to_vec()), b]);
    assert_eq!(total, 35);
    assert_eq!(rows.len(), 2);
    assert_eq!((rows[0].timer, rows[0].nanos, rows[0].calls), (2, 30, 1));
    assert!(!dump_header(total, 2).is_empty());
}

#[test]
fn allocations_are_counted() {
    let mut t = TrackingAllocator::new();
    assert!(t.note_alloc(100, true));
    assert!(!t.note_alloc(50, false));
    t.note_dealloc(40);
    t.note_alloc(10, true);
    assert_eq!((t.alloc_bytes, t.alloc_count, t.free_bytes, t.live_peak), (110, 2, 40, 100));
    assert!(!t.rayzor_dump_alloc_stats().is_empty());

    let mut g = GraphSites::new();
    g.record(9, vec![0x10]);
    g.record(9, vec![0x10]);
    g.record(8, vec![0x20]);
    let csv = text(rayzor_dump_alloc_graph(&g, 10));
    assert!(csv.lines().count() >= 2, "{csv}");
}

#[test]
fn profiling_is_armed_once() {
    let none = HookSettings {
        graph: None,
        graph_rate: None,
        cpu: None,
        cpu_period: None,
        cpu_delay: None,
        cpu_duration: None,
        at_exit: None,
    };
    let some = HookSettings {
        graph: Some(b"1"),
        graph_rate: Some(b"0"),
        cpu: Some(b"1"),
        cpu_period: Some(b"250"),
        cpu_delay: Some(b"2000"),
        cpu_duration: Some(b"x"),
        at_exit: Some(b"yes"),
    };
    let mut armed = false;
    let plan = ensure_alloc_dump_hooks(&mut armed, &some).unwrap();
    assert_eq!(plan.graph_rate, Some(1024));
    let cpu = plan.cpu.unwrap();
    assert_eq!((cpu.period_us, cpu.delay_ms, cpu.duration_ms), (250, 2000, 0));
    assert_eq!(cpu.schedule, ProfilePlan::Scheduled { delay_ms: 2000, duration_ms: None });
    assert!(plan.keep_sites && !plan.report_at_exit);
    assert!(ensure_alloc_dump_hooks(&mut armed, &some).is_none());
    let mut fresh = false;
    let plan = ensure_alloc_dump_hooks(&mut fresh, &none).unwrap();
    assert!(plan.graph_rate.is_none() && plan.cpu.is_none() && !plan.keep_sites);

    assert_eq!(
        text(arming_message(5, 100, 7)),
        "[cpu-profile] arming SIGPROF in 5ms (period=100us, duration=7ms)"
    );
    assert_eq!(timer_interval(1_500_000), (1, 500_000));
    assert_eq!(parse_number(b"+42"), Some(42));
    assert_eq!(parse_number(b"18446744073709551616"), None);
}

#[test]
fn signals_are_reported() {
    assert_eq!(text(signal_header(11, 99)), "[sig11-backtrace pid=99]");
    assert_eq!(text(frame_line(0x1234, &None)), "  0x1234  (in JIT / unresolved)");
    let s = Symbol {
        name: b"go".to_vec(),
        start: 0x1200,
        file: Some(b"/usr/lib/librt.so".to_vec()),
    };
    assert_eq!(text(frame_line(0x1234, &Some(s))), "  0x1234  go +0x34  (librt.so)");
    let s = Symbol { name: b"go".to_vec(), start: 0x9999, file: None };
    assert_eq!(text(frame_line(0x10, &Some(s))), "  0x10  go +0x0  (?)");
}

#[test]
fn panics_are_reported() {
    let report = text(panic_report(Some(b"oops"), b"trace"));
    assert!(report.contains("oops"), "{report}");
    assert!(matches!(guarded_outcome::<i32>(Ok(3), b""), Ok(3)));
    assert!(guarded_outcome::<i32>(Err(Some(b"oops".to_vec())), b"").is_err());
}

#[test]
fn heaps_are_checked_when_asked() {
    assert!(check_heap(false, Some(false), b"f").is_none());
    assert!(check_heap(true, Some(true), b"f").is_none());
    let report = text(check_heap(true, Some(false), b"kernel").unwrap());
    assert!(report.contains("kernel"), "{report}");
    let (guard, entry) = HeapCheckGuard::new(true, Some(true), b"k".to_vec());
    assert!(entry.is_none());
    assert!(guard.leave(true, Some(false)).is_some());
}
