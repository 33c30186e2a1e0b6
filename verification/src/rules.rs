//! What each kind of finding says: its issue code, headline, why it
//! matters, and the steps it suggests.

use vstd::prelude::*;

use crate::engine::IssueKind;
use crate::stacks::strings_view;
use crate::types::GpuUtilSource;

verus! {

/// The issue code a finding carries on the wire.
pub open spec fn issue_code_text(k: IssueKind) -> Seq<char> {
    match k {
        IssueKind::CpuBottleneck => "cpu_bottleneck"@,
        IssueKind::IoPressure => "io_pressure"@,
        IssueKind::GpuUnderfed => "gpu_underfed"@,
        IssueKind::TelemetrySnapshot => "telemetry_snapshot"@,
    }
}

/// The headline of a finding.
pub open spec fn issue_message_text(k: IssueKind) -> Seq<char> {
    match k {
        IssueKind::CpuBottleneck => "Host CPU is saturated while GPU utilization stays low — classic CPU bottleneck before the accelerator."@,
        IssueKind::IoPressure => "Heavy I/O wait is likely stalling your pipeline"@,
        IssueKind::GpuUnderfed => "GPU is under-utilized while CPU still has headroom — likely batching or pipeline structure"@,
        IssueKind::TelemetrySnapshot => "Live telemetry snapshot (no strong bottleneck rule matched yet)."@,
    }
}

/// Why a finding matters.
pub open spec fn issue_impact_text(k: IssueKind) -> Seq<char> {
    match k {
        IssueKind::CpuBottleneck => "The accelerator is idle relative to demand while the host stays busy: you are paying for GPU time you are not using, and throughput is capped by CPU-side work (prep, Python, serialization, small launches)."@,
        IssueKind::IoPressure => "Threads block in D-state when the kernel waits on storage or NFS: pipelines stall in bursts even if average CPU looks moderate, and GPU work may starve for data."@,
        IssueKind::GpuUnderfed => "Low GPU duty cycle with headroom on CPU often means small batches, sync points, or launch overhead — you are not extracting the hardware’s potential FLOPs."@,
        IssueKind::TelemetrySnapshot => "No hard bottleneck rule fired in this window. Treat this as a live telemetry summary and continue watching for sustained divergence between CPU and GPU."@,
    }
}

/// The steps a finding suggests, in order.
pub open spec fn issue_suggestions_text(k: IssueKind) -> Seq<Seq<char>> {
    match k {
        IssueKind::CpuBottleneck => seq!["Batch more work per launch so the GPU gets larger chunks and the CPU launches less often."@, "Move preprocessing, decoding, or tokenization to C++/Rust, GPU, or a dedicated worker pool."@, "Use the CPU flame graph (KW_PROFILE_PID on your training/inference process) to find the widest frames and optimize those first."@, "Enable mixed precision / fused ops only after the CPU can feed the GPU fast enough."@],
        IssueKind::IoPressure => seq!["Check disk/NFS latency and queue depth; move datasets to local NVMe if possible."@, "Prefetch and cache shards; increase dataloader workers only if I/O can keep up."@, "Avoid synchronous reads on the critical path; use async I/O or larger readahead."@],
        IssueKind::GpuUnderfed => seq!["Increase batch size (memory permitting) or gradient accumulation to amortize launch cost."@, "Overlap H2D copy with compute using streams; hide transfer latency."@, "Reduce per-step Python work: compile loops, use torch.compile / JIT, or move control logic off the hot path."@],
        IssueKind::TelemetrySnapshot => seq!["Keep collecting for another 30-60s to increase signal stability."@, "If GPU stays low while CPU rises, focus on input pipeline and batching."@, "If blocked tasks climb, inspect disk/NFS latency and queue depth."@],
    }
}

/// How a GPU utilization figure was obtained, in words.
pub open spec fn gpu_source_label_text(src: GpuUtilSource) -> Seq<char> {
    match src {
        GpuUtilSource::NvidiaSmi => "measured via nvidia-smi"@,
        GpuUtilSource::EstimatedFromCpu => "estimated from host CPU load (not a GPU counter)"@,
        GpuUtilSource::Mock => "mock tracer (not real hardware)"@,
    }
}

/// How a GPU utilization figure was obtained, in words.
pub fn gpu_source_label(src: GpuUtilSource) -> (s: &'static str)
    ensures
        s@ == gpu_source_label_text(src),
{
    match src {
        GpuUtilSource::NvidiaSmi => "measured via nvidia-smi",
        GpuUtilSource::EstimatedFromCpu => "estimated from host CPU load (not a GPU counter)",
        GpuUtilSource::Mock => "mock tracer (not real hardware)",
    }
}

impl IssueKind {
    /// The issue code: `"cpu_bottleneck"`, `"io_pressure"`, `"gpu_underfed"` or `"telemetry_snapshot"`.
    pub fn code(&self) -> (s: &'static str)
        ensures
            s@ == issue_code_text(*self),
    {
        match self {
            IssueKind::CpuBottleneck => "cpu_bottleneck",
            IssueKind::IoPressure => "io_pressure",
            IssueKind::GpuUnderfed => "gpu_underfed",
            IssueKind::TelemetrySnapshot => "telemetry_snapshot",
        }
    }

    /// The headline.
    pub fn message(&self) -> (s: &'static str)
        ensures
            s@ == issue_message_text(*self),
    {
        match self {
            IssueKind::CpuBottleneck => "Host CPU is saturated while GPU utilization stays low — classic CPU bottleneck before the accelerator.",
            IssueKind::IoPressure => "Heavy I/O wait is likely stalling your pipeline",
            IssueKind::GpuUnderfed => "GPU is under-utilized while CPU still has headroom — likely batching or pipeline structure",
            IssueKind::TelemetrySnapshot => "Live telemetry snapshot (no strong bottleneck rule matched yet).",
        }
    }

    /// Why it matters.
    pub fn impact_summary(&self) -> (s: &'static str)
        ensures
            s@ == issue_impact_text(*self),
    {
        match self {
            IssueKind::CpuBottleneck => "The accelerator is idle relative to demand while the host stays busy: you are paying for GPU time you are not using, and throughput is capped by CPU-side work (prep, Python, serialization, small launches).",
            IssueKind::IoPressure => "Threads block in D-state when the kernel waits on storage or NFS: pipelines stall in bursts even if average CPU looks moderate, and GPU work may starve for data.",
            IssueKind::GpuUnderfed => "Low GPU duty cycle with headroom on CPU often means small batches, sync points, or launch overhead — you are not extracting the hardware’s potential FLOPs.",
            IssueKind::TelemetrySnapshot => "No hard bottleneck rule fired in this window. Treat this as a live telemetry summary and continue watching for sustained divergence between CPU and GPU.",
        }
    }

    /// The suggested steps, in order.
    pub fn suggestions(&self) -> (v: Vec<String>)
        ensures
            strings_view(v@) == issue_suggestions_text(*self),
    {
        let mut v: Vec<String> = Vec::new();
        match self {
            IssueKind::CpuBottleneck => {
                v.push("Batch more work per launch so the GPU gets larger chunks and the CPU launches less often.".to_owned());
                v.push("Move preprocessing, decoding, or tokenization to C++/Rust, GPU, or a dedicated worker pool.".to_owned());
                v.push("Use the CPU flame graph (KW_PROFILE_PID on your training/inference process) to find the widest frames and optimize those first.".to_owned());
                v.push("Enable mixed precision / fused ops only after the CPU can feed the GPU fast enough.".to_owned());
            },
            IssueKind::IoPressure => {
                v.push("Check disk/NFS latency and queue depth; move datasets to local NVMe if possible.".to_owned());
                v.push("Prefetch and cache shards; increase dataloader workers only if I/O can keep up.".to_owned());
                v.push("Avoid synchronous reads on the critical path; use async I/O or larger readahead.".to_owned());
            },
            IssueKind::GpuUnderfed => {
                v.push("Increase batch size (memory permitting) or gradient accumulation to amortize launch cost.".to_owned());
                v.push("Overlap H2D copy with compute using streams; hide transfer latency.".to_owned());
                v.push("Reduce per-step Python work: compile loops, use torch.compile / JIT, or move control logic off the hot path.".to_owned());
            },
            IssueKind::TelemetrySnapshot => {
                v.push("Keep collecting for another 30-60s to increase signal stability.".to_owned());
                v.push("If GPU stays low while CPU rises, focus on input pipeline and batching.".to_owned());
                v.push("If blocked tasks climb, inspect disk/NFS latency and queue depth.".to_owned());
            },
        }
        assert(strings_view(v@) =~= issue_suggestions_text(*self));
        v
    }
}

} // verus!
