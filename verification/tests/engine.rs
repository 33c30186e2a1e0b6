use kernelwhisper::engine::{DetectionEngine, IssueKind, RuleHits};
use kernelwhisper::rules::gpu_source_label;
use kernelwhisper::types::GpuUtilSource;
use std::collections::VecDeque;

fn none() -> RuleHits {
    RuleHits { cpu_bottleneck: false, io_pressure: false, gpu_underfed: false }
}

#[test]
fn no_finding_before_five_samples() {
    let mut e: DetectionEngine<u32> = DetectionEngine::new(20);
    let all = RuleHits { cpu_bottleneck: true, io_pressure: true, gpu_underfed: true };
    for i in 0..4 {
        assert_eq!(e.ingest(i, |_w: &VecDeque<u32>| all), None);
    }
    assert_eq!(e.ingest(4, |_w: &VecDeque<u32>| all), Some(IssueKind::CpuBottleneck));
}

#[test]
fn rule_priority_is_cpu_io_gpu() {
    let mut e: DetectionEngine<u32> = DetectionEngine::new(20);
    for i in 0..5 {
        e.record_sample(i);
    }
    let io_gpu = RuleHits { cpu_bottleneck: false, io_pressure: true, gpu_underfed: true };
    assert_eq!(e.decide(io_gpu), Some(IssueKind::IoPressure));
    let gpu = RuleHits { cpu_bottleneck: false, io_pressure: false, gpu_underfed: true };
    assert_eq!(e.decide(gpu), Some(IssueKind::GpuUnderfed));
    assert_eq!(e.decide(none()), None);
}

#[test]
fn window_keeps_latest_samples() {
    let mut e: DetectionEngine<u32> = DetectionEngine::new(3);
    for i in 0..7 {
        e.record_sample(i);
    }
    let w: Vec<u32> = e.window().iter().copied().collect();
    assert_eq!(w, vec![4, 5, 6]);
}

#[test]
fn evaluator_sees_the_updated_window() {
    let mut e: DetectionEngine<u32> = DetectionEngine::new(5);
    for i in 0..5 {
        e.record_sample(i);
    }
    let r = e.ingest(99, |w: &VecDeque<u32>| RuleHits {
        cpu_bottleneck: w.back() == Some(&99) && w.len() == 5,
        io_pressure: false,
        gpu_underfed: false,
    });
    assert_eq!(r, Some(IssueKind::CpuBottleneck));
}

#[test]
fn snapshots_every_25_samples_without_hard_findings() {
    let mut e: DetectionEngine<u32> = DetectionEngine::new(20);
    let mut snapshots = Vec::new();
    for i in 1..=75u32 {
        if e.ingest(i, |_w: &VecDeque<u32>| none()) == Some(IssueKind::TelemetrySnapshot) {
            snapshots.push(i);
        }
    }
    assert_eq!(snapshots, vec![25, 50, 75]);
}

#[test]
fn snapshot_cooldown_after_hard_detection() {
    let mut e: DetectionEngine<u32> = DetectionEngine::new(20);
    let mut seen = Vec::new();
    for i in 1..=100u32 {
        let hits = if i == 40 {
            RuleHits { cpu_bottleneck: true, io_pressure: false, gpu_underfed: false }
        } else {
            none()
        };
        if let Some(k) = e.ingest(i, |_w: &VecDeque<u32>| hits) {
            seen.push((i, k));
        }
    }
    assert_eq!(
        seen,
        vec![
            (25, IssueKind::TelemetrySnapshot),
            (40, IssueKind::CpuBottleneck),
            (75, IssueKind::TelemetrySnapshot),
            (100, IssueKind::TelemetrySnapshot),
        ]
    );
}

#[test]
fn issue_texts() {
    assert_eq!(IssueKind::CpuBottleneck.code(), "cpu_bottleneck");
    assert_eq!(IssueKind::IoPressure.code(), "io_pressure");
    assert_eq!(IssueKind::GpuUnderfed.code(), "gpu_underfed");
    assert_eq!(IssueKind::TelemetrySnapshot.code(), "telemetry_snapshot");
    assert_eq!(IssueKind::IoPressure.message(), "Heavy I/O wait is likely stalling your pipeline");
    assert_eq!(IssueKind::CpuBottleneck.suggestions().len(), 4);
    assert_eq!(
        IssueKind::TelemetrySnapshot.suggestions()[0],
        "Keep collecting for another 30-60s to increase signal stability."
    );
    assert!(IssueKind::GpuUnderfed.impact_summary().starts_with("Low GPU duty cycle"));
    assert_eq!(gpu_source_label(GpuUtilSource::NvidiaSmi), "measured via nvidia-smi");
}

fn cpu() -> RuleHits {
    RuleHits { cpu_bottleneck: true, io_pressure: false, gpu_underfed: false }
}

#[test]
fn minimum_window_is_tunable() {
    let mut e: DetectionEngine<u32> = DetectionEngine::with_tuning(20, 3, true);
    assert_eq!(e.ingest(1, |_w: &VecDeque<u32>| cpu()), None);
    assert_eq!(e.ingest(2, |_w: &VecDeque<u32>| cpu()), None);
    assert_eq!(e.ingest(3, |_w: &VecDeque<u32>| cpu()), Some(IssueKind::CpuBottleneck));
}

#[test]
fn repeated_hard_finding_is_suppressed_by_default() {
    let mut e: DetectionEngine<u32> = DetectionEngine::new(20);
    let mut got = Vec::new();
    for i in 1..=7u32 {
        got.push(e.ingest(i, |_w: &VecDeque<u32>| cpu()));
    }
    assert_eq!(got, vec![None, None, None, None, Some(IssueKind::CpuBottleneck), None, None]);
    // the condition clears, then returns: it is reported again
    assert_eq!(e.ingest(8, |_w: &VecDeque<u32>| none()), None);
    assert_eq!(e.ingest(9, |_w: &VecDeque<u32>| cpu()), Some(IssueKind::CpuBottleneck));
    // a different hard finding is not a repeat
    let io = RuleHits { cpu_bottleneck: false, io_pressure: true, gpu_underfed: false };
    assert_eq!(e.ingest(10, |_w: &VecDeque<u32>| io), Some(IssueKind::IoPressure));
}

#[test]
fn repeats_are_reported_when_suppression_is_off() {
    let mut e: DetectionEngine<u32> = DetectionEngine::with_tuning(20, 5, false);
    for i in 1..=4u32 {
        assert_eq!(e.ingest(i, |_w: &VecDeque<u32>| cpu()), None);
    }
    assert_eq!(e.ingest(5, |_w: &VecDeque<u32>| cpu()), Some(IssueKind::CpuBottleneck));
    assert_eq!(e.ingest(6, |_w: &VecDeque<u32>| cpu()), Some(IssueKind::CpuBottleneck));
}
