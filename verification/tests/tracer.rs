use kernelwhisper::tracer::{
    counter_deltas, cpu_totals_fit, fallback_after_failure, first_tracer, parse_cpu_totals, parse_ps_output, tracer_mode, MockTracer, StatError, TracerMode,
};

#[test]
fn tracer_mode_ignores_ascii_case() {
    assert_eq!(tracer_mode("ebpf"), TracerMode::Ebpf);
    assert_eq!(tracer_mode("EBPF"), TracerMode::Ebpf);
    assert_eq!(tracer_mode("Host"), TracerMode::Host);
    assert_eq!(tracer_mode("mock"), TracerMode::Mock);
    assert_eq!(tracer_mode(""), TracerMode::Mock);
    assert_eq!(tracer_mode("hosts"), TracerMode::Mock);
}

#[test]
fn mock_signal_values() {
    let r0 = MockTracer::reading(0);
    assert_eq!((r0.cpu_pct, r0.gpu_half_pct, r0.runnable_tasks, r0.blocked_syscalls), (65, 110, 4, 2));
    let r7 = MockTracer::reading(7);
    assert_eq!((r7.cpu_pct, r7.gpu_half_pct, r7.runnable_tasks, r7.blocked_syscalls), (79, 75, 11, 4));
    let r19 = MockTracer::reading(19);
    assert_eq!((r19.cpu_pct, r19.gpu_half_pct), (95, 20));
    assert_eq!(MockTracer::reading(20).cpu_pct, 65);
    assert_eq!(MockTracer::next_seq(u64::MAX), 0);
    assert_eq!(MockTracer::next_seq(3), 4);
}

#[test]
fn ps_output_counts_states() {
    let out = "S 0.0\nR 12.5\nR+ 3.0\nD 0.1\nU\n\n  Ss   1.0  extra\nZ x\n";
    let s = parse_ps_output(out);
    assert_eq!(s.runnable_tasks, 2);
    assert_eq!(s.blocked_tasks, 2);
    assert_eq!(s.cpu_fields, vec!["0.0", "12.5", "3.0", "0.1", "1.0", "x"]);
}

#[test]
fn proc_stat_totals() {
    let stat = "cpu  10 20 30 400 5 6 7 8 9 10\ncpu0 1 2 3 4\n";
    assert_eq!(parse_cpu_totals(stat), Ok((405, 10 + 20 + 30 + 400 + 5 + 6 + 7 + 8)));
    assert_eq!(parse_cpu_totals(""), Err(StatError::Empty));
    assert_eq!(parse_cpu_totals("cpu 1 2 x\n"), Err(StatError::UnexpectedFormat));
    assert_eq!(parse_cpu_totals("cpu 1 2 3 4\n"), Ok((4, 10)));
}

#[test]
fn mock_signal_repeats_every_40_steps() {
    for s in 0..80u64 {
        let a = MockTracer::reading(s);
        let b = MockTracer::reading(s + 40);
        assert_eq!(a, b);
        assert!((65..=95).contains(&a.cpu_pct));
        assert!((20..=110).contains(&a.gpu_half_pct));
    }
}

#[test]
fn stat_sum_check_flags_only_overflowing_counters() {
    assert!(cpu_totals_fit("cpu 1 2 3 4\n"));
    assert!(cpu_totals_fit(""));
    assert!(!cpu_totals_fit("cpu 18446744073709551615 1 0 0\n"));
    // too few counters: never summed, so nothing overflows
    assert!(cpu_totals_fit("cpu 18446744073709551615 1\n"));
}

#[test]
fn counter_deltas_saturate_and_clamp() {
    assert_eq!(counter_deltas((10, 5), (15, 5)), ((5, 0), (15, 5)));
    assert_eq!(counter_deltas((10, 9), (3, 12)), ((0, 3), (3, 12)));
    assert_eq!(counter_deltas((0, 0), (u64::MAX, 7)), ((u32::MAX, 7), (u64::MAX, 7)));
}

#[test]
fn tracer_start_and_fallback() {
    assert_eq!(first_tracer(TracerMode::Ebpf, true), TracerMode::Ebpf);
    assert_eq!(first_tracer(TracerMode::Ebpf, false), TracerMode::Mock);
    assert_eq!(first_tracer(TracerMode::Host, false), TracerMode::Host);
    assert_eq!(first_tracer(TracerMode::Mock, true), TracerMode::Mock);
    assert_eq!(fallback_after_failure(TracerMode::Ebpf), Some(TracerMode::Mock));
    assert_eq!(fallback_after_failure(TracerMode::Host), Some(TracerMode::Mock));
    assert_eq!(fallback_after_failure(TracerMode::Mock), None);
}
