//! Telemetry sources: which tracer to run, the deterministic mock signal,
//! and the parsing of what the host and kernel report.

use vstd::prelude::*;

use crate::stacks::strings_view;
use crate::text::{
    chars_of, copy_range, line_ranges, lines, parse_u64, parse_u64_range, range_texts,
    ranges_within, string_of, word_ranges, words, lemma_words_nonempty,
};

verus! {

/// Emits a deterministic oscillating signal.
pub struct MockTracer {
    pub sample_ms: u64,
}

/// Samples process states and CPU load from the host's process table.
pub struct HostSignalTracer {
    pub sample_ms: u64,
}

/// Reads scheduler and syscall counters from eBPF tracepoints.
pub struct EbpfTracer {
    pub sample_ms: u64,
    pub object_path: String,
}

/// The tracer a configuration selects.
#[derive(Debug, Clone, Copy, PartialEq, Eq, Structural)]
pub enum TracerMode {
    Ebpf,
    Host,
    Mock,
}

pub open spec fn ascii_lower_code(c: char) -> u32 {
    let u = c as u32;
    if 65 <= u && u <= 90 {
        (u + 32) as u32
    } else {
        u
    }
}

/// `str::eq_ignore_ascii_case`.
pub open spec fn eq_ignore_ascii_case(a: Seq<char>, b: Seq<char>) -> bool {
    &&& a.len() == b.len()
    &&& forall|i: int| 0 <= i < a.len() ==> #[trigger] ascii_lower_code(a[i]) == ascii_lower_code(
        b[i],
    )
}

pub fn eq_ignore_ascii_case_exec(a: &str, b: &str) -> (r: bool)
    ensures
        r == eq_ignore_ascii_case(a@, b@),
{
    let x = chars_of(a);
    let y = chars_of(b);
    if x.len() != y.len() {
        return false;
    }
    let mut i: usize = 0;
    while i < x.len()
        invariant
            i <= x.len(),
            x.len() == y.len(),
            x@ == a@,
            y@ == b@,
            forall|j: int| 0 <= j < i ==> #[trigger] ascii_lower_code(x@[j]) == ascii_lower_code(
                y@[j],
            ),
        decreases x.len() - i,
    {
        let u = x[i] as u32;
        let v = y[i] as u32;
        let lu = if 65 <= u && u <= 90 {
            u + 32
        } else {
            u
        };
        let lv = if 65 <= v && v <= 90 {
            v + 32
        } else {
            v
        };
        if lu != lv {
            assert(ascii_lower_code(x@[i as int]) != ascii_lower_code(y@[i as int]));
            return false;
        }
        i += 1;
    }
    true
}

pub open spec fn tracer_mode_spec(setting: Seq<char>) -> TracerMode {
    if eq_ignore_ascii_case(setting, "ebpf"@) {
        TracerMode::Ebpf
    } else if eq_ignore_ascii_case(setting, "host"@) {
        TracerMode::Host
    } else {
        TracerMode::Mock
    }
}

/// The tracer `KW_TRACER_MODE` names: `"ebpf"` or `"host"` in any ASCII
/// case; anything else selects the mock tracer.
pub fn tracer_mode(setting: &str) -> (m: TracerMode)
    ensures
        m == tracer_mode_spec(setting@),
{
    if eq_ignore_ascii_case_exec(setting, "ebpf") {
        TracerMode::Ebpf
    } else if eq_ignore_ascii_case_exec(setting, "host") {
        TracerMode::Host
    } else {
        TracerMode::Mock
    }
}

// ---------------------------------------------------------------------------
// The mock signal
// ---------------------------------------------------------------------------

/// One mock sample. GPU utilization is in half-percent units, so that the
/// signal's half-percent steps are exact: the utilization is
/// `gpu_half_pct / 2` percent.
#[derive(Debug, Clone, Copy, PartialEq, Eq, Structural)]
pub struct MockReading {
    pub cpu_pct: u32,
    pub gpu_half_pct: u32,
    pub runnable_tasks: u32,
    pub blocked_syscalls: u32,
}

/// The mock signal at step `seq`: over a 20-step phase, CPU load climbs two
/// points a step from 65% (capped at 95%) while GPU utilization falls 2.5
/// points a step from 55% (floored at 10%); runnable tasks cycle through
/// 4..=11 and blocked syscalls through 2..=6.
pub open spec fn mock_reading(seq: u64) -> MockReading {
    let phase = seq % 20;
    MockReading {
        cpu_pct: (65 + if phase * 2 <= 30 {
            phase * 2
        } else {
            30
        }) as u32,
        gpu_half_pct: (if 110 - 5 * phase >= 20 {
            110 - 5 * phase
        } else {
            20
        }) as u32,
        runnable_tasks: (4 + seq % 8) as u32,
        blocked_syscalls: (2 + seq % 5) as u32,
    }
}

impl MockTracer {
    pub fn reading(seq: u64) -> (r: MockReading)
        ensures
            r == mock_reading(seq),
    {
        let phase = seq % 20;
        let cpu_step = if phase * 2 <= 30 {
            phase * 2
        } else {
            30
        };
        let gpu = if 5 * phase <= 90 {
            110 - 5 * phase
        } else {
            20
        };
        MockReading {
            cpu_pct: (65 + cpu_step) as u32,
            gpu_half_pct: gpu as u32,
            runnable_tasks: (4 + seq % 8) as u32,
            blocked_syscalls: (2 + seq % 5) as u32,
        }
    }

    /// The step after `seq` (wrapping).
    pub fn next_seq(seq: u64) -> (n: u64)
        ensures
            n == (if seq == u64::MAX {
                0
            } else {
                seq + 1
            }),
    {
        seq.wrapping_add(1)
    }
}

/// The mock signal stays in its documented ranges and repeats every
/// 40 steps (the least common period of its three cycles).
pub proof fn lemma_mock_signal_ranges(seq: u64)
    ensures
        65 <= mock_reading(seq).cpu_pct <= 95,
        20 <= mock_reading(seq).gpu_half_pct <= 110,
        4 <= mock_reading(seq).runnable_tasks <= 11,
        2 <= mock_reading(seq).blocked_syscalls <= 6,
        seq + 40 <= u64::MAX ==> mock_reading((seq + 40) as u64) == mock_reading(seq),
{
    let phase = seq % 20;
    assert(phase < 20);
    assert(seq % 8 < 8);
    assert(seq % 5 < 5);
    if seq + 40 <= u64::MAX {
        let s2 = (seq + 40) as u64;
        assert(s2 % 20 == seq % 20) by (nonlinear_arith)
            requires
                s2 == seq + 40,
        ;
        assert(s2 % 8 == seq % 8) by (nonlinear_arith)
            requires
                s2 == seq + 40,
        ;
        assert(s2 % 5 == seq % 5) by (nonlinear_arith)
            requires
                s2 == seq + 40,
        ;
    }
}

// ---------------------------------------------------------------------------
// The host process table
// ---------------------------------------------------------------------------

/// Counts read from `ps -A -o state= -o %cpu=` output.
pub struct PsSummary {
    /// Processes whose state starts with `R`.
    pub runnable_tasks: u32,
    /// Processes whose state starts with `D` or `U`.
    pub blocked_tasks: u32,
    /// The CPU-percentage column of each process line that has one, in
    /// order; the caller sums their numeric values.
    pub cpu_fields: Vec<String>,
}

pub open spec fn sat_inc32(a: u32) -> u32 {
    if a == u32::MAX {
        a
    } else {
        (a + 1) as u32
    }
}

pub type PsScan = (u32, u32, Seq<Seq<char>>);

/// One line of `ps` output: a line with no field is skipped; otherwise its
/// first field is the state, and its second, where present, the CPU load.
pub open spec fn ps_step(st: PsScan, line: Seq<char>) -> PsScan {
    let w = words(line);
    if w.len() == 0 {
        st
    } else {
        let state = w[0];
        let r = if state[0] == 'R' {
            sat_inc32(st.0)
        } else {
            st.0
        };
        let b = if state[0] == 'D' || state[0] == 'U' {
            sat_inc32(st.1)
        } else {
            st.1
        };
        let f = if w.len() > 1 {
            st.2.push(w[1])
        } else {
            st.2
        };
        (r, b, f)
    }
}

pub open spec fn ps_fold(ls: Seq<Seq<char>>) -> PsScan
    decreases ls.len(),
{
    if ls.len() == 0 {
        (0, 0, seq![])
    } else {
        ps_step(ps_fold(ls.drop_last()), ls.last())
    }
}

/// Whether the first whitespace-separated field of a `ps` line (the process
/// state) starts with `c`.
pub open spec fn state_starts_with(line: Seq<char>, c: char) -> bool {
    words(line).len() > 0 && words(line)[0].len() > 0 && words(line)[0][0] == c
}

/// `n`, or `u32::MAX` where it is larger.
pub open spec fn cap_u32(n: nat) -> u32 {
    if n > u32::MAX {
        u32::MAX
    } else {
        n as u32
    }
}

/// What the process table counts: the runnable processes are the lines whose
/// state starts with `R`, the blocked ones those whose state starts with `D`
/// (uninterruptible sleep) or `U`; any other state (`S`, `I`, `T`, `Z`, ...)
/// counts in neither. Both counts stop at `u32::MAX`. The CPU column holds
/// the second field of every line that has one, in order.
pub proof fn lemma_ps_counts(ls: Seq<Seq<char>>)
    ensures
        ps_fold(ls).0 == cap_u32(ls.filter(|l: Seq<char>| state_starts_with(l, 'R')).len()),
        ps_fold(ls).1 == cap_u32(
            ls.filter(|l: Seq<char>| state_starts_with(l, 'D') || state_starts_with(l, 'U')).len(),
        ),
        ps_fold(ls).2 == ls.filter(|l: Seq<char>| words(l).len() > 1).map_values(
            |l: Seq<char>| words(l)[1],
        ),
    decreases ls.len(),
{
    reveal(Seq::filter);
    if ls.len() > 0 {
        lemma_ps_counts(ls.drop_last());
        let l = ls.last();
        lemma_words_nonempty(l);
    }
}

/// Runnable and blocked process counts and the CPU column of `ps` output.
pub fn parse_ps_output(text: &str) -> (r: PsSummary)
    ensures
        (r.runnable_tasks, r.blocked_tasks, strings_view(r.cpu_fields@)) == ps_fold(lines(text@)),
{
    let s = chars_of(text);
    let lr = line_ranges(&s);
    let ghost ls = lines(s@);
    let mut runnable: u32 = 0;
    let mut blocked: u32 = 0;
    let mut fields: Vec<String> = Vec::new();
    let mut i: usize = 0;
    assert(ls.take(0) =~= seq![]);
    assert(strings_view(fields@) =~= seq![]);
    while i < lr.len()
        invariant
            i <= lr.len(),
            s@ == text@,
            ls == lines(s@),
            range_texts(s@, lr@) == ls,
            ranges_within(lr@, s.len() as int),
            (runnable, blocked, strings_view(fields@)) == ps_fold(ls.take(i as int)),
        decreases lr.len() - i,
    {
        let (lo, hi) = lr[i];
        proof {
            assert(ls[i as int] == s@.subrange(lo as int, hi as int));
            assert(ls.take(i + 1).drop_last() =~= ls.take(i as int));
            assert(ls.take(i + 1).last() == ls[i as int]);
        }
        let w = word_ranges(&s, lo, hi);
        let ghost wt = words(s@.subrange(lo as int, hi as int));
        if w.len() > 0 {
            let (a, b) = w[0];
            assert(wt[0] == s@.subrange(a as int, b as int));
            let c = s[a];
            assert(wt[0][0] == c);
            if c == 'R' {
                runnable = runnable.saturating_add(1);
            }
            if c == 'D' || c == 'U' {
                blocked = blocked.saturating_add(1);
            }
            if w.len() > 1 {
                let (a1, b1) = w[1];
                assert(wt[1] == s@.subrange(a1 as int, b1 as int));
                let f = string_of(&copy_range(&s, a1, b1));
                let ghost prev = fields@;
                fields.push(f);
                assert(strings_view(fields@) =~= strings_view(prev).push(wt[1]));
            }
        }
        i += 1;
    }
    assert(ls.take(lr.len() as int) =~= ls);
    PsSummary { runnable_tasks: runnable, blocked_tasks: blocked, cpu_fields: fields }
}

// ---------------------------------------------------------------------------
// /proc/stat
// ---------------------------------------------------------------------------

/// Why `/proc/stat` could not be read.
#[derive(Debug, Clone, Copy, PartialEq, Eq, Structural)]
pub enum StatError {
    /// The file has no line at all.
    Empty,
    /// The first line has fewer than four numeric counters.
    UnexpectedFormat,
}

/// Keeps the values of the words that parse as `u64`.
pub open spec fn parsed_numbers(ws: Seq<Seq<char>>) -> Seq<u64>
    decreases ws.len(),
{
    if ws.len() == 0 {
        seq![]
    } else {
        let rest = parsed_numbers(ws.drop_last());
        match parse_u64(ws.last()) {
            Some(v) => rest.push(v),
            None => rest,
        }
    }
}

/// The counters of the aggregate `cpu` line: the up to eight fields after
/// the label, those that parse as numbers.
pub open spec fn stat_numbers(text: Seq<char>) -> Seq<u64> {
    let w = words(lines(text)[0]);
    let end = if w.len() > 9 {
        9
    } else {
        w.len() as int
    };
    if w.len() == 0 {
        seq![]
    } else {
        parsed_numbers(w.subrange(1, end))
    }
}

pub open spec fn sum_u64s(s: Seq<u64>) -> int
    decreases s.len(),
{
    if s.len() == 0 {
        0
    } else {
        sum_u64s(s.drop_last()) + s.last()
    }
}

/// `(idle, total)` jiffies from `/proc/stat`: idle is the fourth counter
/// plus the fifth (I/O wait) where present, total the sum of all.
pub open spec fn cpu_totals_spec(text: Seq<char>) -> Result<(u64, u64), StatError> {
    if lines(text).len() == 0 {
        Err(StatError::Empty)
    } else {
        let n = stat_numbers(text);
        if n.len() < 4 {
            Err(StatError::UnexpectedFormat)
        } else {
            let idle = n[3] + if n.len() > 4 {
                n[4] as int
            } else {
                0
            };
            Ok((idle as u64, sum_u64s(n) as u64))
        }
    }
}

proof fn lemma_sum_u64s_prefix(s: Seq<u64>, i: int)
    requires
        0 <= i <= s.len(),
    ensures
        0 <= sum_u64s(s.subrange(0, i)) <= sum_u64s(s),
    decreases s.len() - i,
{
    if i < s.len() {
        lemma_sum_u64s_prefix(s, i + 1);
        assert(s.subrange(0, i + 1).drop_last() =~= s.subrange(0, i));
    } else {
        assert(s.subrange(0, i) =~= s);
    }
    lemma_sum_u64s_nonneg(s.subrange(0, i));
}

proof fn lemma_sum_u64s_nonneg(s: Seq<u64>)
    ensures
        sum_u64s(s) >= 0,
    decreases s.len(),
{
    if s.len() > 0 {
        lemma_sum_u64s_nonneg(s.drop_last());
    }
}

proof fn lemma_idle_le_total(s: Seq<u64>)
    requires
        s.len() >= 4,
    ensures
        s[3] + (if s.len() > 4 {
            s[4] as int
        } else {
            0
        }) <= sum_u64s(s),
{
    let k = if s.len() > 4 {
        5
    } else {
        4
    };
    lemma_sum_u64s_prefix(s, k);
    let p = s.subrange(0, k);
    lemma_sum_u64s_prefix(p, 3);
    assert(p.subrange(0, 4).drop_last() =~= p.subrange(0, 3));
    assert(p.subrange(0, k) =~= p);
    if k == 5 {
        assert(p.drop_last() =~= p.subrange(0, 4));
        assert(p.subrange(0, 4).subrange(0, 3) =~= p.subrange(0, 3));
        lemma_sum_u64s_prefix(p.subrange(0, 4), 3);
    }
    lemma_sum_u64s_nonneg(p.subrange(0, 3));
}

/// The values of the words `s[w[i]]` for `from <= i < to` that parse as
/// `u64`.
fn parse_word_numbers(s: &Vec<char>, w: &Vec<(usize, usize)>, from: usize, to: usize) -> (nums:
    Vec<u64>)
    requires
        from <= to <= w.len(),
        ranges_within(w@, s.len() as int),
    ensures
        nums@ == parsed_numbers(range_texts(s@, w@).subrange(from as int, to as int)),
{
    let ghost wt = range_texts(s@, w@);
    let mut nums: Vec<u64> = Vec::new();
    let mut i: usize = from;
    assert(wt.subrange(from as int, from as int) =~= seq![]);
    while i < to
        invariant
            from <= i <= to <= w.len(),
            wt == range_texts(s@, w@),
            ranges_within(w@, s.len() as int),
            nums@ == parsed_numbers(wt.subrange(from as int, i as int)),
        decreases to - i,
    {
        let (a, b) = w[i];
        assert(wt[i as int] == s@.subrange(a as int, b as int));
        assert(wt.subrange(from as int, i + 1).drop_last() =~= wt.subrange(from as int, i as int));
        assert(wt.subrange(from as int, i + 1).last() == wt[i as int]);
        match parse_u64_range(s, a, b) {
            Some(v) => {
                nums.push(v);
            },
            None => {},
        }
        i += 1;
    }
    nums
}

fn sum_numbers(n: &Vec<u64>) -> (total: u64)
    requires
        sum_u64s(n@) <= u64::MAX,
    ensures
        total == sum_u64s(n@),
{
    let mut total: u64 = 0;
    let mut k: usize = 0;
    while k < n.len()
        invariant
            k <= n.len(),
            sum_u64s(n@) <= u64::MAX,
            total == sum_u64s(n@.subrange(0, k as int)),
        decreases n.len() - k,
    {
        proof {
            assert(n@.subrange(0, k + 1).drop_last() =~= n@.subrange(0, k as int));
            lemma_sum_u64s_prefix(n@, k + 1);
        }
        total = total + n[k];
        k += 1;
    }
    assert(n@.subrange(0, n.len() as int) =~= n@);
    total
}

/// The counters of the first line of `/proc/stat` (`None` where the text
/// has no line).
fn first_line_numbers(s: &Vec<char>) -> (r: Option<Vec<u64>>)
    ensures
        r is None <==> lines(s@).len() == 0,
        r matches Some(n) ==> n@ == stat_numbers(s@),
{
    let lr = line_ranges(s);
    if lr.len() == 0 {
        return None;
    }
    let (lo, hi) = lr[0];
    let ghost first = lines(s@)[0];
    assert(first == s@.subrange(lo as int, hi as int));
    let w = word_ranges(s, lo, hi);
    let nums = if w.len() == 0 {
        Vec::new()
    } else {
        let end: usize = if w.len() > 9 {
            9
        } else {
            w.len()
        };
        parse_word_numbers(s, &w, 1, end)
    };
    assert(nums@ =~= stat_numbers(s@));
    Some(nums)
}

/// Whether the counters `parse_cpu_totals` adds up have a sum that fits in a
/// `u64` (or are never added up, the text having no line or too few
/// counters).
pub open spec fn stat_sum_fits(text: Seq<char>) -> bool {
    lines(text).len() == 0 || stat_numbers(text).len() < 4 || sum_u64s(stat_numbers(text))
        <= u64::MAX
}

/// Tells whether `parse_cpu_totals` can be asked to read `text`: what
/// `stat_sum_fits` states.
pub fn cpu_totals_fit(text: &str) -> (r: bool)
    ensures
        r == stat_sum_fits(text@),
{
    let s = chars_of(text);
    let nums = match first_line_numbers(&s) {
        None => return true,
        Some(n) => n,
    };
    assert(nums@ == stat_numbers(text@) && lines(text@).len() > 0);
    if nums.len() < 4 {
        return true;
    }
    let mut total: u64 = 0;
    let mut k: usize = 0;
    while k < nums.len()
        invariant
            k <= nums.len(),
            nums.len() >= 4,
            nums@ == stat_numbers(text@),
            lines(text@).len() > 0,
            total == sum_u64s(nums@.subrange(0, k as int)),
        decreases nums.len() - k,
    {
        proof {
            assert(nums@.subrange(0, k + 1).drop_last() =~= nums@.subrange(0, k as int));
        }
        match total.checked_add(nums[k]) {
            Some(t) => total = t,
            None => {
                proof {
                    lemma_sum_u64s_prefix(nums@, k + 1);
                    assert(nums@.subrange(0, k + 1).last() == nums@[k as int]);
                    assert(sum_u64s(nums@.subrange(0, k + 1)) == total + nums@[k as int]);
                }
                return false;
            },
        }
        k += 1;
    }
    assert(nums@.subrange(0, nums.len() as int) =~= nums@);
    true
}

/// `(idle, total)` jiffies from the text of `/proc/stat`.
pub fn parse_cpu_totals(text: &str) -> (r: Result<(u64, u64), StatError>)
    requires
        stat_sum_fits(text@),
    ensures
        r == cpu_totals_spec(text@),
{
    let s = chars_of(text);
    let nums = match first_line_numbers(&s) {
        None => return Err(StatError::Empty),
        Some(n) => n,
    };
    if nums.len() < 4 {
        return Err(StatError::UnexpectedFormat);
    }
    let total = sum_numbers(&nums);
    proof {
        lemma_idle_le_total(nums@);
    }
    let extra = if nums.len() > 4 {
        nums[4]
    } else {
        0
    };
    let idle = nums[3] + extra;
    Ok((idle, total))
}

/// `x` less `y`, or 0 where `y` is larger.
pub open spec fn delta(x: u64, y: u64) -> nat {
    if x >= y {
        (x - y) as nat
    } else {
        0
    }
}

/// `x`, or `u32::MAX` where it is larger.
pub open spec fn clamp_u32(x: nat) -> u32 {
    if x > u32::MAX {
        u32::MAX
    } else {
        x as u32
    }
}

fn clamped_delta(x: u64, y: u64) -> (r: u32)
    ensures
        r == clamp_u32(delta(x, y)),
{
    let d = x.saturating_sub(y);
    if d > 4294967295u64 {
        4294967295u32
    } else {
        d as u32
    }
}

/// One tick of the kernel counters `(blocked syscalls, runnable tasks)`:
/// how much each grew since the previous reading `prev` (0 where it went
/// back), clamped to a `u32`, and the readings to keep for the next tick.
pub fn counter_deltas(prev: (u64, u64), now: (u64, u64)) -> (r: ((u32, u32), (u64, u64)))
    ensures
        r.0.0 == clamp_u32(delta(now.0, prev.0)),
        r.0.1 == clamp_u32(delta(now.1, prev.1)),
        r.1 == now,
{
    ((clamped_delta(now.0, prev.0), clamped_delta(now.1, prev.1)), now)
}

/// The tracer started first for the selected `mode`: eBPF only where the
/// build can load it (else the mock), the others as selected.
pub open spec fn first_tracer_spec(mode: TracerMode, ebpf_available: bool) -> TracerMode {
    match mode {
        TracerMode::Ebpf => if ebpf_available {
            TracerMode::Ebpf
        } else {
            TracerMode::Mock
        },
        other => other,
    }
}

pub fn first_tracer(mode: TracerMode, ebpf_available: bool) -> (r: TracerMode)
    ensures
        r == first_tracer_spec(mode, ebpf_available),
{
    match mode {
        TracerMode::Ebpf => if ebpf_available {
            TracerMode::Ebpf
        } else {
            TracerMode::Mock
        },
        other => other,
    }
}

/// What to start after the tracer `failed` could not start: the mock tracer,
/// unless the mock itself failed, which is final.
pub fn fallback_after_failure(failed: TracerMode) -> (r: Option<TracerMode>)
    ensures
        r == (if failed == TracerMode::Mock {
            None::<TracerMode>
        } else {
            Some(TracerMode::Mock)
        }),
{
    match failed {
        TracerMode::Mock => None,
        _ => Some(TracerMode::Mock),
    }
}

} // verus!
