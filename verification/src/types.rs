//! Shared vocabulary: where telemetry comes from, and profile kinds.

use vstd::prelude::*;

use crate::flame::FlameNode;

verus! {

/// Which tracer produced an event.
#[derive(Debug, Clone, Copy, PartialEq, Eq, Structural)]
pub enum EventSource {
    Mock,
    Host,
    Ebpf,
}

/// Where a GPU utilization figure came from.
#[derive(Debug, Clone, Copy, PartialEq, Eq, Structural)]
pub enum GpuUtilSource {
    EstimatedFromCpu,
    NvidiaSmi,
    Mock,
}

impl Default for GpuUtilSource {
    /// A figure of unknown origin counts as a host-side estimate.
    fn default() -> (s: Self)
        ensures
            s == GpuUtilSource::EstimatedFromCpu,
    {
        GpuUtilSource::EstimatedFromCpu
    }
}

/// Which flame graph a profile holds.
#[derive(Debug, Clone, Copy, PartialEq, Eq, Structural)]
pub enum FlameKind {
    Cpu,
    Gpu,
}

pub open spec fn flame_kind_text(k: FlameKind) -> Seq<char> {
    match k {
        FlameKind::Cpu => seq!['c', 'p', 'u'],
        FlameKind::Gpu => seq!['g', 'p', 'u'],
    }
}

impl FlameKind {
    /// The wire name: `"cpu"` or `"gpu"`.
    pub fn as_str(&self) -> (s: &'static str)
        ensures
            s@ == flame_kind_text(*self),
    {
        proof {
            reveal_strlit("cpu");
            reveal_strlit("gpu");
        }
        match self {
            FlameKind::Cpu => "cpu",
            FlameKind::Gpu => "gpu",
        }
    }

    /// The kind a wire name denotes; `None` for any other text.
    pub fn parse(s: &str) -> (r: Option<FlameKind>)
        ensures
            r matches Some(k) ==> flame_kind_text(k) == s@,
            r is None ==> s@ != flame_kind_text(FlameKind::Cpu) && s@ != flame_kind_text(
                FlameKind::Gpu,
            ),
    {
        let c = crate::text::chars_of(s);
        if c.len() == 3 && c[1] == 'p' && c[2] == 'u' {
            if c[0] == 'c' {
                assert(c@ =~= seq!['c', 'p', 'u']);
                return Some(FlameKind::Cpu);
            }
            if c[0] == 'g' {
                assert(c@ =~= seq!['g', 'p', 'u']);
                return Some(FlameKind::Gpu);
            }
        }
        None
    }
}

/// Reading a kind back from its wire name gives the kind.
pub proof fn lemma_flame_kind_roundtrip(k: FlameKind, j: FlameKind)
    ensures
        flame_kind_text(k) == flame_kind_text(j) ==> k == j,
{
    if k != j {
        assert(flame_kind_text(k)[0] != flame_kind_text(j)[0]);
    }
}

/// A flame graph snapshot.
pub struct FlameProfile {
    pub kind: FlameKind,
    pub total_samples: u64,
    /// When the snapshot was taken, in nanoseconds since the Unix epoch.
    pub updated_at_nanos: Option<i64>,
    pub root: FlameNode,
}

} // verus!
