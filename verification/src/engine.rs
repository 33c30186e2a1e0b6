//! The detection engine: a rolling window of telemetry samples, rule
//! priority, and the cadence of informational snapshots.
//!
//! The engine is generic over the sample type. What a rule concludes from
//! the window's figures is handed in by an evaluator; the engine decides
//! which finding, if any, a sample yields and keeps the state that decision
//! depends on.

use vstd::prelude::*;

use std::collections::VecDeque;

verus! {

/// Samples a window needs before any rule is evaluated, unless the engine
/// is tuned otherwise.
pub const DEFAULT_MIN_SAMPLES: usize = 5;

/// Whether a hard finding that repeats the previous sample's finding is
/// held back, unless the engine is tuned otherwise.
pub const DEFAULT_SUPPRESS_DUPLICATES: bool = true;

/// A snapshot is due only on sample counts that are multiples of this.
pub const SNAPSHOT_INTERVAL_SAMPLES: u64 = 25;

/// Samples that must pass after a hard detection before a snapshot.
pub const SNAPSHOT_COOLDOWN_AFTER_HARD_SAMPLES: u64 = 30;

/// The kinds of finding the engine reports.
#[derive(Debug, Clone, Copy, PartialEq, Eq, Structural)]
pub enum IssueKind {
    CpuBottleneck,
    IoPressure,
    GpuUnderfed,
    /// Informational: no rule held, the window is summarized.
    TelemetrySnapshot,
}

/// Which rules hold of the current window.
#[derive(Debug, Clone, Copy, PartialEq, Eq, Structural)]
pub struct RuleHits {
    pub cpu_bottleneck: bool,
    pub io_pressure: bool,
    pub gpu_underfed: bool,
}

pub open spec fn sat_sub(a: u64, b: u64) -> u64 {
    if a >= b {
        (a - b) as u64
    } else {
        0
    }
}

pub open spec fn sat_inc(a: u64) -> u64 {
    if a == u64::MAX {
        a
    } else {
        (a + 1) as u64
    }
}

/// A snapshot is due at sample `count` given the sample of the last hard
/// detection (`0`: none yet).
pub open spec fn snapshot_due(count: u64, last_hard: u64) -> bool {
    &&& count % SNAPSHOT_INTERVAL_SAMPLES == 0
    &&& (last_hard == 0 || sat_sub(count, last_hard) >= SNAPSHOT_COOLDOWN_AFTER_HARD_SAMPLES)
}

/// The finding for a window of `len` samples: none below the minimum
/// window `min`; else the first rule that holds, in the order CPU bottleneck,
/// I/O pressure, underfed GPU; else a snapshot where one is due.
pub open spec fn choose_issue(len: nat, min: nat, count: u64, last_hard: u64, hits: RuleHits) -> Option<
    IssueKind,
> {
    if len < min {
        None
    } else if hits.cpu_bottleneck {
        Some(IssueKind::CpuBottleneck)
    } else if hits.io_pressure {
        Some(IssueKind::IoPressure)
    } else if hits.gpu_underfed {
        Some(IssueKind::GpuUnderfed)
    } else if snapshot_due(count, last_hard) {
        Some(IssueKind::TelemetrySnapshot)
    } else {
        None
    }
}

/// A finding other than a snapshot.
pub open spec fn is_hard(r: Option<IssueKind>) -> bool {
    r matches Some(k) && k != IssueKind::TelemetrySnapshot
}

/// What is reported of the finding `found` when the previous sample's hard
/// finding was `prev`: with suppression on, a hard finding equal to `prev`
/// is held back; everything else is reported as it is.
pub open spec fn report(found: Option<IssueKind>, suppress: bool, prev: Option<IssueKind>) -> Option<
    IssueKind,
> {
    if suppress && is_hard(found) && found == prev {
        None
    } else {
        found
    }
}

/// The hard finding a sample leaves for the next one to compare with.
pub open spec fn hard_only(found: Option<IssueKind>) -> Option<IssueKind> {
    if is_hard(found) {
        found
    } else {
        None
    }
}

/// The last `n` elements of `s` (all of `s` when it is shorter).
pub open spec fn keep_last<E>(s: Seq<E>, n: nat) -> Seq<E> {
    if s.len() > n {
        s.subrange(s.len() - n, s.len() as int)
    } else {
        s
    }
}

pub struct DetectionEngine<E> {
    window: VecDeque<E>,
    window_size: usize,
    min_samples: usize,
    suppress_duplicates: bool,
    sample_count: u64,
    last_hard_detection_sample: u64,
    last_hard_issue: Option<IssueKind>,
}

impl<E> DetectionEngine<E> {
    pub closed spec fn window_view(&self) -> Seq<E> {
        self.window@
    }

    /// The window itself, as handed to a rule evaluator.
    pub closed spec fn window_deque(&self) -> VecDeque<E> {
        self.window
    }

    pub closed spec fn capacity(&self) -> nat {
        self.window_size as nat
    }

    pub closed spec fn samples(&self) -> u64 {
        self.sample_count
    }

    pub closed spec fn last_hard(&self) -> u64 {
        self.last_hard_detection_sample
    }

    /// The hard finding the rules chose on the previous sample, if any.
    pub closed spec fn prev_finding(&self) -> Option<IssueKind> {
        self.last_hard_issue
    }

    pub closed spec fn min_window(&self) -> nat {
        self.min_samples as nat
    }

    pub closed spec fn suppresses(&self) -> bool {
        self.suppress_duplicates
    }

    /// The window never holds more than its capacity.
    pub closed spec fn wf(&self) -> bool {
        self.window@.len() <= self.window_size
    }

    /// An engine whose window keeps the last `window_size` samples, with the
    /// default tuning: rules need `DEFAULT_MIN_SAMPLES` samples, and
    /// repeated hard findings are suppressed.
    pub fn new(window_size: usize) -> (r: Self)
        ensures
            r.wf(),
            r.window_view() == Seq::<E>::empty(),
            r.capacity() == window_size,
            r.min_window() == DEFAULT_MIN_SAMPLES,
            r.suppresses() == DEFAULT_SUPPRESS_DUPLICATES,
            r.samples() == 0,
            r.last_hard() == 0,
            r.prev_finding() is None,
    {
        Self::with_tuning(window_size, DEFAULT_MIN_SAMPLES, DEFAULT_SUPPRESS_DUPLICATES)
    }

    /// An engine whose window keeps the last `window_size` samples, whose
    /// rules need at least `min_samples` samples in the window, and which
    /// holds back a hard finding that repeats the previous sample's when
    /// `suppress_duplicates` is set.
    pub fn with_tuning(window_size: usize, min_samples: usize, suppress_duplicates: bool) -> (r:
        Self)
        ensures
            r.wf(),
            r.window_view() == Seq::<E>::empty(),
            r.capacity() == window_size,
            r.min_window() == min_samples,
            r.suppresses() == suppress_duplicates,
            r.samples() == 0,
            r.last_hard() == 0,
            r.prev_finding() is None,
    {
        DetectionEngine {
            window: VecDeque::with_capacity(window_size),
            window_size,
            min_samples,
            suppress_duplicates,
            sample_count: 0,
            last_hard_detection_sample: 0,
            last_hard_issue: None,
        }
    }

    /// The samples in the window, oldest first.
    pub fn window(&self) -> (w: &VecDeque<E>)
        ensures
            w@ == self.window_view(),
    {
        &self.window
    }

    /// Adds a sample: the window keeps the newest `capacity` samples and the
    /// sample count grows by one (saturating).
    pub fn record_sample(&mut self, event: E)
        requires
            old(self).wf(),
        ensures
            final(self).wf(),
            final(self).window_view() == keep_last(
                old(self).window_view().push(event),
                old(self).capacity(),
            ),
            final(self).capacity() == old(self).capacity(),
            final(self).min_window() == old(self).min_window(),
            final(self).suppresses() == old(self).suppresses(),
            final(self).samples() == sat_inc(old(self).samples()),
            final(self).last_hard() == old(self).last_hard(),
            final(self).prev_finding() == old(self).prev_finding(),
    {
        let ghost s = self.window@.push(event);
        self.window.push_back(event);
        self.sample_count = self.sample_count.saturating_add(1);
        while self.window.len() > self.window_size
            invariant
                self.window_size == old(self).window_size,
                self.min_samples == old(self).min_samples,
                self.suppress_duplicates == old(self).suppress_duplicates,
                self.last_hard_issue == old(self).last_hard_issue,
                self.sample_count == sat_inc(old(self).sample_count),
                self.last_hard_detection_sample == old(self).last_hard_detection_sample,
                s.len() <= self.window_size + 1,
                self.window@.len() <= s.len(),
                self.window@ == s.subrange(s.len() - self.window@.len(), s.len() as int),
                self.window@.len() == s.len() || self.window@.len() >= self.window_size,
            decreases self.window@.len(),
        {
            self.window.pop_front();
        }
        proof {
            if s.len() <= self.window_size {
                assert(self.window@ =~= s);
            }
        }
    }

    /// The finding the current window yields, given which rules hold of it,
    /// before any suppression.
    pub fn decide(&self, hits: RuleHits) -> (r: Option<IssueKind>)
        ensures
            r == choose_issue(
                self.window_view().len(),
                self.min_window(),
                self.samples(),
                self.last_hard(),
                hits,
            ),
    {
        if self.window.len() < self.min_samples {
            return None;
        }
        if hits.cpu_bottleneck {
            return Some(IssueKind::CpuBottleneck);
        }
        if hits.io_pressure {
            return Some(IssueKind::IoPressure);
        }
        if hits.gpu_underfed {
            return Some(IssueKind::GpuUnderfed);
        }
        if self.sample_count % SNAPSHOT_INTERVAL_SAMPLES == 0 && (self.last_hard_detection_sample
            == 0 || self.sample_count.saturating_sub(self.last_hard_detection_sample)
            >= SNAPSHOT_COOLDOWN_AFTER_HARD_SAMPLES) {
            return Some(IssueKind::TelemetrySnapshot);
        }
        None
    }

    /// Takes note of the finding `found` the current sample yields and
    /// returns what is reported of it (`report`): a hard finding anchors the
    /// snapshot cooldown at the current sample, and becomes the finding the
    /// next sample is compared with.
    pub fn note_finding(&mut self, found: Option<IssueKind>) -> (r: Option<IssueKind>)
        ensures
            r == report(found, old(self).suppresses(), old(self).prev_finding()),
            final(self).window_view() == old(self).window_view(),
            final(self).window_deque() == old(self).window_deque(),
            final(self).capacity() == old(self).capacity(),
            final(self).min_window() == old(self).min_window(),
            final(self).suppresses() == old(self).suppresses(),
            final(self).samples() == old(self).samples(),
            final(self).last_hard() == (if is_hard(found) {
                old(self).samples()
            } else {
                old(self).last_hard()
            }),
            final(self).prev_finding() == hard_only(found),
            old(self).wf() ==> final(self).wf(),
    {
        let prev = self.last_hard_issue;
        let mut hard = false;
        if let Some(k) = found {
            if k != IssueKind::TelemetrySnapshot {
                hard = true;
            }
        }
        if hard {
            self.last_hard_detection_sample = self.sample_count;
            self.last_hard_issue = found;
            if self.suppress_duplicates && same_issue(found, prev) {
                return None;
            }
        } else {
            self.last_hard_issue = None;
        }
        found
    }

    /// Ingests one sample. The window and count advance; once the window
    /// holds `min_window` samples, `rules` is asked which rules hold of it and
    /// the finding is chosen by `choose_issue`; it is reported as `report`
    /// says, and a hard one anchors the snapshot cooldown.
    pub fn ingest<F: Fn(&VecDeque<E>) -> RuleHits>(&mut self, event: E, rules: F) -> (r: Option<
        IssueKind,
    >)
        requires
            old(self).wf(),
            forall|w: &VecDeque<E>| #[trigger] rules.requires((w,)),
        ensures
            final(self).wf(),
            final(self).window_view() == keep_last(
                old(self).window_view().push(event),
                old(self).capacity(),
            ),
            final(self).capacity() == old(self).capacity(),
            final(self).min_window() == old(self).min_window(),
            final(self).suppresses() == old(self).suppresses(),
            final(self).samples() == sat_inc(old(self).samples()),
            final(self).window_view().len() < old(self).min_window() ==> r is None
                && final(self).last_hard() == old(self).last_hard()
                && final(self).prev_finding() is None,
            final(self).window_view().len() >= old(self).min_window() ==> exists|hits: RuleHits|
                #[trigger] rules.ensures((&final(self).window_deque(),), hits) && ({
                    let found = choose_issue(
                        final(self).window_view().len(),
                        old(self).min_window(),
                        final(self).samples(),
                        old(self).last_hard(),
                        hits,
                    );
                    &&& r == report(found, old(self).suppresses(), old(self).prev_finding())
                    &&& final(self).last_hard() == (if is_hard(found) {
                        final(self).samples()
                    } else {
                        old(self).last_hard()
                    })
                    &&& final(self).prev_finding() == hard_only(found)
                }),
    {
        self.record_sample(event);
        if self.window.len() < self.min_samples {
            return self.note_finding(None);
        }
        let hits = rules(&self.window);
        assert(rules.ensures((&self.window_deque(),), hits));
        let found = self.decide(hits);
        self.note_finding(found)
    }
}

/// Whether two findings are the same.
fn same_issue(a: Option<IssueKind>, b: Option<IssueKind>) -> (r: bool)
    ensures
        r == (a == b),
{
    match (a, b) {
        (None, None) => true,
        (Some(x), Some(y)) => x == y,
        _ => false,
    }
}

/// The window of an engine always holds the most recent samples: keeping the
/// last `n` after each push is keeping the last `n` of all of them.
pub proof fn lemma_window_keeps_latest<E>(s: Seq<E>, e: E, n: nat)
    ensures
        keep_last(keep_last(s, n).push(e), n) == keep_last(s.push(e), n),
{
    assert(keep_last(keep_last(s, n).push(e), n) =~= keep_last(s.push(e), n));
}

/// No snapshot is chosen away from the interval, or within the cooldown
/// after a hard detection; a rule that holds always wins over a snapshot.
pub proof fn lemma_snapshot_cadence(len: nat, min: nat, count: u64, last_hard: u64, hits: RuleHits)
    ensures
        choose_issue(len, min, count, last_hard, hits) == Some(IssueKind::TelemetrySnapshot) ==> (
        count % SNAPSHOT_INTERVAL_SAMPLES == 0 && (last_hard == 0 || count - last_hard
            >= SNAPSHOT_COOLDOWN_AFTER_HARD_SAMPLES)),
        (len >= min && (hits.cpu_bottleneck || hits.io_pressure || hits.gpu_underfed)) ==> is_hard(
            choose_issue(len, min, count, last_hard, hits),
        ),
        len < min ==> choose_issue(len, min, count, last_hard, hits) is None,
{
}

/// Rule priority: once the window holds enough samples, a CPU bottleneck
/// wins whenever its rule holds; I/O pressure wins whenever its rule holds
/// and the CPU rule does not; an underfed GPU is chosen only when neither of
/// the others holds; a snapshot only when no rule holds.
pub proof fn lemma_rule_priority(len: nat, min: nat, count: u64, last_hard: u64, hits: RuleHits)
    requires
        len >= min,
    ensures
        hits.cpu_bottleneck ==> choose_issue(len, min, count, last_hard, hits) == Some(
            IssueKind::CpuBottleneck,
        ),
        !hits.cpu_bottleneck && hits.io_pressure ==> choose_issue(len, min, count, last_hard, hits)
            == Some(IssueKind::IoPressure),
        !hits.cpu_bottleneck && !hits.io_pressure && hits.gpu_underfed ==> choose_issue(
            len,
            min,
            count,
            last_hard,
            hits,
        ) == Some(IssueKind::GpuUnderfed),
        choose_issue(len, min, count, last_hard, hits) == Some(IssueKind::TelemetrySnapshot) ==> (
        !hits.cpu_bottleneck && !hits.io_pressure && !hits.gpu_underfed),
        choose_issue(len, min, count, last_hard, hits) is None ==> (!hits.cpu_bottleneck
            && !hits.io_pressure && !hits.gpu_underfed),
{
}

/// Suppression holds back only a repeat of the previous hard finding: with
/// it off every finding is reported; with it on, a finding is held back
/// exactly when it is hard and equal to the previous one. So, of two
/// consecutive samples, the second never reports the hard finding the first
/// reported.
pub proof fn lemma_duplicates_suppressed(
    found1: Option<IssueKind>,
    found2: Option<IssueKind>,
    prev: Option<IssueKind>,
)
    ensures
        report(found1, false, prev) == found1,
        report(found1, true, prev) is None <==> (found1 is None || (is_hard(found1) && found1
            == prev)),
        report(found1, true, prev) is Some ==> report(found1, true, prev) == found1,
        is_hard(report(found1, true, prev)) ==> report(found2, true, hard_only(found1)) != report(
            found1,
            true,
            prev,
        ),
{
}

} // verus!
