//! The bundled playbook: how to read each dashboard panel and what to do.

use vstd::prelude::*;

verus! {

/// One dashboard panel's guidance.
pub struct PlaybookPanel {
    pub id: &'static str,
    pub title: &'static str,
    pub how_to_read: &'static str,
    pub when_its_bad: &'static str,
    pub what_to_do: Vec<&'static str>,
}

/// Guidance for the whole dashboard.
pub struct Playbook {
    pub intro: &'static str,
    pub panels: Vec<PlaybookPanel>,
}

pub open spec fn texts_view(v: Seq<&'static str>) -> Seq<Seq<char>> {
    v.map_values(|s: &'static str| s@)
}

/// The bundled panel at `i`, as (id, title, how to read, when it is bad,
/// what to do).
pub open spec fn bundled_panel(i: int) -> (Seq<char>, Seq<char>, Seq<char>, Seq<char>, Seq<Seq<char>>) {
    if i == 0 {
        ("cpu_flame"@, "CPU flame graph"@, "Width shows how often each function appeared on sampled stacks (inclusive). Taller stacks are deeper call chains. Hover a block for sample count and share of total."@, "One or a few frames dominate width for a long time: you are spending most CPU time there. Empty graph means native sampling is off—set KW_PROFILE_PID or KW_PROFILE_SELF."@, seq!["Profile the process that does your real work (set KW_PROFILE_PID to that PID)."@, "Optimize or parallelize the widest frames; consider moving work off the hot path."@, "If the graph only shows the API server, you are not yet profiling your training/inference job."@])
    } else if i == 1 {
        ("gpu_tree"@, "GPU panel"@, "This is not a hardware kernel flame graph. It encodes GPU utilization from nvidia-smi when available, or a host-side estimate from CPU load otherwise."@, "nvidia_smi with low % while CPU is busy: host may be bottlenecking launches or data prep. host_estimate: treat GPU % as directional until you have a real GPU."@, seq!["With NVIDIA: verify nvidia-smi is on PATH so utilization is real."@, "Increase batch size / overlap copies and compute / reduce Python overhead in the launch path."@, "Profile with vendor tools (Nsight, rocprof) if you need kernel-level GPU detail."@])
    } else {
        ("insights"@, "Insights cards"@, "Each card ties numbers to a pattern. “What the data shows” restates the signals; “Why it matters” is the performance risk; numbered steps are concrete fixes."@, "Higher confidence means the pattern held across recent samples. Critical = act soon; warning = investigate."@, seq!["Start with the latest card, then confirm in the CPU flame and GPU panel."@, "Re-run after changes; confidence should drop if the bottleneck moved."@])
    }
}

pub open spec fn bundled_intro() -> Seq<char> {
    "KernelWhisper combines host telemetry, optional real CPU stacks, and GPU utilization hints. Use this page to interpret what you see and what to change next."@
}

pub open spec fn panel_view(p: PlaybookPanel) -> (Seq<char>, Seq<char>, Seq<char>, Seq<char>, Seq<Seq<char>>) {
    (p.id@, p.title@, p.how_to_read@, p.when_its_bad@, texts_view(p.what_to_do@))
}

impl Playbook {
    /// The playbook shipped with the dashboard: an introduction and three
    /// panels (CPU flame graph, GPU panel, insight cards).
    pub fn bundled() -> (p: Self)
        ensures
            p.intro@ == bundled_intro(),
            p.panels@.len() == 3,
            forall|i: int| 0 <= i < 3 ==> panel_view(#[trigger] p.panels@[i]) == bundled_panel(i),
    {
        let mut w0: Vec<&'static str> = Vec::new();
        w0.push("Profile the process that does your real work (set KW_PROFILE_PID to that PID).");
        w0.push("Optimize or parallelize the widest frames; consider moving work off the hot path.");
        w0.push("If the graph only shows the API server, you are not yet profiling your training/inference job.");
        assert(texts_view(w0@) =~= bundled_panel(0).4);
        let p0 = PlaybookPanel {
            id: "cpu_flame",
            title: "CPU flame graph",
            how_to_read: "Width shows how often each function appeared on sampled stacks (inclusive). Taller stacks are deeper call chains. Hover a block for sample count and share of total.",
            when_its_bad: "One or a few frames dominate width for a long time: you are spending most CPU time there. Empty graph means native sampling is off—set KW_PROFILE_PID or KW_PROFILE_SELF.",
            what_to_do: w0,
        };
        let mut w1: Vec<&'static str> = Vec::new();
        w1.push("With NVIDIA: verify nvidia-smi is on PATH so utilization is real.");
        w1.push("Increase batch size / overlap copies and compute / reduce Python overhead in the launch path.");
        w1.push("Profile with vendor tools (Nsight, rocprof) if you need kernel-level GPU detail.");
        assert(texts_view(w1@) =~= bundled_panel(1).4);
        let p1 = PlaybookPanel {
            id: "gpu_tree",
            title: "GPU panel",
            how_to_read: "This is not a hardware kernel flame graph. It encodes GPU utilization from nvidia-smi when available, or a host-side estimate from CPU load otherwise.",
            when_its_bad: "nvidia_smi with low % while CPU is busy: host may be bottlenecking launches or data prep. host_estimate: treat GPU % as directional until you have a real GPU.",
            what_to_do: w1,
        };
        let mut w2: Vec<&'static str> = Vec::new();
        w2.push("Start with the latest card, then confirm in the CPU flame and GPU panel.");
        w2.push("Re-run after changes; confidence should drop if the bottleneck moved.");
        assert(texts_view(w2@) =~= bundled_panel(2).4);
        let p2 = PlaybookPanel {
            id: "insights",
            title: "Insights cards",
            how_to_read: "Each card ties numbers to a pattern. “What the data shows” restates the signals; “Why it matters” is the performance risk; numbered steps are concrete fixes.",
            when_its_bad: "Higher confidence means the pattern held across recent samples. Critical = act soon; warning = investigate.",
            what_to_do: w2,
        };
        let mut panels: Vec<PlaybookPanel> = Vec::new();
        panels.push(p0);
        panels.push(p1);
        panels.push(p2);
        Playbook {
            intro: "KernelWhisper combines host telemetry, optional real CPU stacks, and GPU utilization hints. Use this page to interpret what you see and what to change next.",
            panels,
        }
    }
}

} // verus!
