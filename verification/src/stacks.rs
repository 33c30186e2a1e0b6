//! Parsing of native CPU stack samples: the text that Linux `perf script`
//! and macOS `sample` print, turned into root-first frame lists.

use vstd::prelude::*;

use crate::text::{
    contains_range, contains_sub, is_ws, lemma_find_sub_props, parse_u64, parse_u64_range, push_char,
    push_range, trim_end, trim_end_range, utf8_len, utf8_len_range,
    lemma_find_sub, lemma_trim_end_skip, lemma_trim_noop, lemma_trim_start_skip, matches_at,
    before_first, chars_of, copy_range, find_in, find_sub, lead_count, lemma_lead_count,
    lemma_lead_count_props, line_ranges, lines, matches_at_exec, not_ws, range_texts,
    ranges_within, skip_word, starts_with, starts_with_range, string_of, trim, trim_range, trim_start,
    trim_start_range,
};

verus! {

// ---------------------------------------------------------------------------
// Views
// ---------------------------------------------------------------------------

pub open spec fn strings_view(v: Seq<String>) -> Seq<Seq<char>> {
    v.map_values(|f: String| f@)
}

pub open spec fn stacks_view(v: Seq<Vec<String>>) -> Seq<Seq<Seq<char>>> {
    v.map_values(|st: Vec<String>| strings_view(st@))
}

pub open spec fn opt_text(o: Option<String>) -> Option<Seq<char>> {
    match o {
        Some(x) => Some(x@),
        None => None,
    }
}

/// Every stack holds at least one frame, and every frame is non-empty.
pub open spec fn well_formed_stacks(st: Seq<Seq<Seq<char>>>) -> bool {
    forall|i: int|
        0 <= i < st.len() ==> #[trigger] st[i].len() > 0 && (forall|j: int|
            0 <= j < st[i].len() ==> (#[trigger] st[i][j]).len() > 0)
}

pub open spec fn nonempty_frames(path: Seq<Seq<char>>) -> bool {
    forall|j: int| 0 <= j < path.len() ==> (#[trigger] path[j]).len() > 0
}

/// Errors of a native stack capture.
#[derive(Debug, PartialEq, Eq)]
pub enum CaptureError {
    /// `sample` exited with failure; carries its standard error.
    SampleFailed(String),
    /// `sample` printed nothing that parsed as a stack.
    NoSampleStacks,
    /// `perf record` exited with failure.
    PerfRecordFailed,
    /// `perf script` exited with failure; carries its standard error.
    PerfScriptFailed(String),
    /// `perf script` printed no stack.
    NoPerfStacks,
    /// The platform has no native sampler.
    Unsupported,
}

// ---------------------------------------------------------------------------
// perf script
// ---------------------------------------------------------------------------

/// The frame name a `perf script` stack line carries: the symbol after the
/// address column, cut at `" ("`, trimmed; a zero-like address symbol
/// (`"0"`, `"0x"`, ...) reads as `"[unknown]"`.
pub open spec fn perf_frame(line: Seq<char>) -> Option<Seq<char>> {
    let t0 = line.subrange(lead_count(line, |c: char| c == '\t') as int, line.len() as int);
    let t = trim_start(t0);
    let a = lead_count(t, |c: char| not_ws(c));
    if a >= t.len() {
        None
    } else {
        let sym = trim(t.subrange(a as int, t.len() as int));
        if sym.len() == 0 {
            None
        } else {
            let name = trim(before_first(sym, seq![' ', '(']));
            if name.len() == 0 {
                None
            } else if name.len() <= 2 && (forall|i: int|
                0 <= i < name.len() ==> #[trigger] name[i] == '0' || name[i] == 'x') {
                Some("[unknown]"@)
            } else {
                Some(name)
            }
        }
    }
}

/// One line of `perf script` output: a tab-led line adds a frame to the
/// current stack; a non-blank other line (a sample header) closes the current
/// stack, stored root first.
pub open spec fn perf_step(
    st: (Seq<Seq<Seq<char>>>, Seq<Seq<char>>),
    line: Seq<char>,
) -> (Seq<Seq<Seq<char>>>, Seq<Seq<char>>) {
    if starts_with(line, seq!['\t']) {
        match perf_frame(line) {
            Some(f) => (st.0, st.1.push(f)),
            None => st,
        }
    } else if trim(line).len() > 0 {
        if st.1.len() > 0 {
            (st.0.push(st.1.reverse()), seq![])
        } else {
            st
        }
    } else {
        st
    }
}

/// A `perf script` stack line `\t<address> <symbol> (<dso>)` names the frame
/// `<symbol>` whole, spaces inside it included, provided the address has no
/// whitespace and the symbol is not blank at either end, holds no `" ("`,
/// and is not a zero-like address (`"0"`, `"0x"`, ...).
pub proof fn lemma_perf_frame_symbol(addr: Seq<char>, sym: Seq<char>, dso: Seq<char>)
    requires
        addr.len() > 0,
        forall|i: int| 0 <= i < addr.len() ==> !is_ws(#[trigger] addr[i]),
        sym.len() > 0,
        !is_ws(sym[0]),
        !is_ws(sym.last()),
        !contains_sub(sym, seq![' ', '(']),
        !(sym.len() <= 2 && forall|i: int| 0 <= i < sym.len() ==> #[trigger] sym[i] == '0' || sym[i] == 'x'),
    ensures
        perf_frame(seq!['\t'] + addr + seq![' '] + sym + seq![' ', '('] + dso + seq![')']) == Some(sym),
{
    let pat = seq![' ', '('];
    let rest = sym + pat + dso + seq![')'];
    let u = seq![' '] + rest;
    let t0 = addr + u;
    let line = seq!['\t'] + t0;
    assert(line =~= seq!['\t'] + addr + seq![' '] + sym + seq![' ', '('] + dso + seq![')']);
    // the tab
    assert(line[1] == addr[0]);
    lemma_lead_count(line, |c: char| c == '\t', 1);
    assert(line.subrange(1, line.len() as int) =~= t0);
    // no whitespace to trim before the address
    assert(t0[0] == addr[0]);
    lemma_trim_start_skip(seq![], t0);
    assert(Seq::<char>::empty() + t0 =~= t0);
    // the address column
    assert forall|j: int| 0 <= j < addr.len() implies not_ws(#[trigger] t0[j]) by {
        assert(t0[j] == addr[j]);
    }
    assert(t0[addr.len() as int] == ' ');
    lemma_lead_count(t0, |c: char| not_ws(c), addr.len() as int);
    assert(t0.subrange(addr.len() as int, t0.len() as int) =~= u);
    // the symbol part, trimmed
    assert(rest[0] == sym[0]);
    lemma_trim_start_skip(seq![' '], rest);
    assert(rest.last() == ')');
    lemma_trim_end_skip(rest, seq![]);
    assert(rest + Seq::<char>::empty() =~= rest);
    assert(trim(u) == rest);
    // cut at the first " ("
    assert(rest.subrange(sym.len() as int, sym.len() + 2int) =~= pat);
    lemma_find_sub_props(sym, pat);
    assert forall|j: int| 0 <= j && j < sym.len() implies !matches_at(rest, pat, j) by {
        if matches_at(rest, pat, j) {
            if j + 2 <= sym.len() {
                assert(sym.subrange(j, j + 2) =~= rest.subrange(j, j + 2));
                assert(matches_at(sym, pat, j));
            } else {
                assert(rest[j] == sym.last());
                assert(rest.subrange(j, j + 2)[0] == pat[0]);
            }
        }
    }
    lemma_find_sub(rest, pat, sym.len() as int);
    assert(before_first(rest, pat) =~= sym);
    lemma_trim_noop(sym);
}

pub open spec fn perf_fold(ls: Seq<Seq<char>>) -> (Seq<Seq<Seq<char>>>, Seq<Seq<char>>)
    decreases ls.len(),
{
    if ls.len() == 0 {
        (seq![], seq![])
    } else {
        perf_step(perf_fold(ls.drop_last()), ls.last())
    }
}

/// The stacks of a whole `perf script` output.
pub open spec fn perf_stacks(text: Seq<char>) -> Seq<Seq<Seq<char>>> {
    let st = perf_fold(lines(text));
    if st.1.len() > 0 {
        st.0.push(st.1.reverse())
    } else {
        st.0
    }
}

fn skip_tabs(s: &Vec<char>, lo: usize, hi: usize) -> (r: usize)
    requires
        lo <= hi <= s.len(),
    ensures
        r == lo + lead_count(s@.subrange(lo as int, hi as int), |c: char| c == '\t'),
        lo <= r <= hi,
{
    let ghost t = s@.subrange(lo as int, hi as int);
    let mut i = lo;
    while i < hi && s[i] == '\t'
        invariant
            lo <= i <= hi <= s.len(),
            t == s@.subrange(lo as int, hi as int),
            forall|j: int| 0 <= j < i - lo ==> #[trigger] t[j] == '\t',
        decreases hi - i,
    {
        i += 1;
    }
    proof {
        lemma_lead_count(t, |c: char| c == '\t', (i - lo) as int);
    }
    i
}

fn all_zero_like(s: &Vec<char>, lo: usize, hi: usize) -> (b: bool)
    requires
        lo <= hi <= s.len(),
    ensures
        b == (forall|i: int|
            0 <= i < hi - lo ==> #[trigger] s@.subrange(lo as int, hi as int)[i] == '0'
                || s@.subrange(lo as int, hi as int)[i] == 'x'),
{
    let mut i = lo;
    while i < hi
        invariant
            lo <= i <= hi <= s.len(),
            forall|j: int| lo <= j < i ==> #[trigger] s@[j] == '0' || s@[j] == 'x',
        decreases hi - i,
    {
        if s[i] != '0' && s[i] != 'x' {
            assert(s@.subrange(lo as int, hi as int)[i - lo] == s@[i as int]);
            return false;
        }
        i += 1;
    }
    assert forall|k: int| 0 <= k < hi - lo implies #[trigger] s@.subrange(lo as int, hi as int)[k]
        == '0' || s@.subrange(lo as int, hi as int)[k] == 'x' by {
        assert(s@.subrange(lo as int, hi as int)[k] == s@[lo + k]);
    }
    true
}

/// `perf_frame` of the line `s[lo..hi]`.
fn perf_frame_range(s: &Vec<char>, lo: usize, hi: usize) -> (r: Option<String>)
    requires
        lo <= hi <= s.len(),
    ensures
        opt_text(r) == perf_frame(s@.subrange(lo as int, hi as int)),
{
    let ghost line = s@.subrange(lo as int, hi as int);
    let a0 = skip_tabs(s, lo, hi);
    let ghost t0 = line.subrange(lead_count(line, |c: char| c == '\t') as int, line.len() as int);
    assert(t0 =~= s@.subrange(a0 as int, hi as int));
    let a1 = trim_start_range(s, a0, hi);
    let ghost t = trim_start(t0);
    let a2 = skip_word(s, a1, hi);
    proof {
        lemma_lead_count_props(t, |c: char| not_ws(c));
    }
    if a2 == hi {
        return None;
    }
    assert(t.subrange(a2 - a1, t.len() as int) =~= s@.subrange(a2 as int, hi as int));
    let (b0, b1) = trim_range(s, a2, hi);
    let ghost sym = trim(t.subrange(a2 - a1, t.len() as int));
    if b0 == b1 {
        return None;
    }
    let pat: Vec<char> = vec![' ', '('];
    assert(pat@ =~= seq![' ', '(']);
    let k = find_in(s, b0, b1, &pat);
    let end = match k {
        Some(k) => k,
        None => b1,
    };
    assert(before_first(sym, seq![' ', '(']) =~= s@.subrange(b0 as int, end as int));
    let (c0, c1) = trim_range(s, b0, end);
    if c0 == c1 {
        return None;
    }
    if c1 - c0 <= 2 && all_zero_like(s, c0, c1) {
        let u = "[unknown]".to_owned();
        return Some(u);
    }
    Some(string_of(&copy_range(s, c0, c1)))
}

/// The frame name of one `perf script` stack line.
pub fn parse_perf_line(line: &str) -> (r: Option<String>)
    ensures
        opt_text(r) == perf_frame(line@),
{
    let s = chars_of(line);
    assert(s@.subrange(0, s.len() as int) =~= s@);
    perf_frame_range(&s, 0, s.len())
}

/// `v` in reverse order.
fn reversed(v: Vec<String>) -> (out: Vec<String>)
    ensures
        strings_view(out@) == strings_view(v@).reverse(),
{
    let mut v = v;
    let ghost orig = v@;
    let mut out: Vec<String> = Vec::new();
    while v.len() > 0
        invariant
            orig.len() == v.len() + out.len(),
            v@ == orig.subrange(0, v.len() as int),
            forall|j: int| 0 <= j < out.len() ==> #[trigger] out@[j] == orig[orig.len() - 1 - j],
        decreases v.len(),
    {
        let x = v.pop().unwrap();
        out.push(x);
    }
    assert(strings_view(out@) =~= strings_view(orig).reverse());
    out
}

proof fn lemma_strings_view_push(v: Seq<String>, x: String)
    ensures
        strings_view(v.push(x)) == strings_view(v).push(x@),
{
    assert(strings_view(v.push(x)) =~= strings_view(v).push(x@));
}

proof fn lemma_stacks_view_push(v: Seq<Vec<String>>, x: Vec<String>)
    ensures
        stacks_view(v.push(x)) == stacks_view(v).push(strings_view(x@)),
{
    assert(stacks_view(v.push(x)) =~= stacks_view(v).push(strings_view(x@)));
}

/// Applies one line `s[lo..hi]` of `perf script` output to the scan state.
fn perf_step_exec(
    s: &Vec<char>,
    lo: usize,
    hi: usize,
    stacks: &mut Vec<Vec<String>>,
    stack: &mut Vec<String>,
)
    requires
        lo <= hi <= s.len(),
        well_formed_stacks(stacks_view(old(stacks)@)),
        nonempty_frames(strings_view(old(stack)@)),
    ensures
        (stacks_view(final(stacks)@), strings_view(final(stack)@)) == perf_step(
            (stacks_view(old(stacks)@), strings_view(old(stack)@)),
            s@.subrange(lo as int, hi as int),
        ),
        well_formed_stacks(stacks_view(final(stacks)@)),
        nonempty_frames(strings_view(final(stack)@)),
{
    let ghost line = s@.subrange(lo as int, hi as int);
    proof {
        lemma_perf_frame_nonempty(line);
    }
    let tab: Vec<char> = vec!['\t'];
    assert(tab@ =~= seq!['\t']);
    let is_tab = starts_with_range(s, lo, hi, &tab);
    if is_tab {
        match perf_frame_range(s, lo, hi) {
            Some(f) => {
                proof {
                    lemma_strings_view_push(stack@, f);
                }
                stack.push(f);
            },
            None => {},
        }
    } else {
        let (a, b) = trim_range(s, lo, hi);
        if a < b && stack.len() > 0 {
            let mut taken: Vec<String> = Vec::new();
            std::mem::swap(&mut taken, stack);
            let st = reversed(taken);
            proof {
                lemma_stacks_view_push(stacks@, st);
            }
            stacks.push(st);
            assert(strings_view(stack@) =~= seq![]);
        }
    }
}

/// The stacks of `perf script` output, each root first.
pub fn parse_perf_script(out: &str) -> (stacks: Vec<Vec<String>>)
    ensures
        stacks_view(stacks@) == perf_stacks(out@),
        well_formed_stacks(stacks_view(stacks@)),
{
    let s = chars_of(out);
    let lr = line_ranges(&s);
    let ghost ls = lines(s@);
    let mut stacks: Vec<Vec<String>> = Vec::new();
    let mut stack: Vec<String> = Vec::new();
    let mut i: usize = 0;
    assert(ls.take(0) =~= seq![]);
    while i < lr.len()
        invariant
            i <= lr.len(),
            s@ == out@,
            ls == lines(s@),
            range_texts(s@, lr@) == ls,
            ranges_within(lr@, s.len() as int),
            (stacks_view(stacks@), strings_view(stack@)) == perf_fold(ls.take(i as int)),
            well_formed_stacks(stacks_view(stacks@)),
            nonempty_frames(strings_view(stack@)),
        decreases lr.len() - i,
    {
        let (lo, hi) = lr[i];
        proof {
            assert(ls[i as int] == s@.subrange(lo as int, hi as int));
            assert(ls.take(i + 1).drop_last() =~= ls.take(i as int));
        }
        perf_step_exec(&s, lo, hi, &mut stacks, &mut stack);
        i += 1;
    }
    assert(ls.take(lr.len() as int) =~= ls);
    if stack.len() > 0 {
        let st = reversed(stack);
        proof {
            lemma_stacks_view_push(stacks@, st);
        }
        stacks.push(st);
    }
    stacks
}

proof fn lemma_perf_frame_nonempty(line: Seq<char>)
    ensures
        perf_frame(line) matches Some(f) ==> f.len() > 0,
{
    reveal_strlit("[unknown]");
}

/// The stacks of `perf script` output, or the error a capture reports when
/// it holds none.
pub fn perf_script_stacks(out: &str) -> (r: Result<Vec<Vec<String>>, CaptureError>)
    ensures
        perf_stacks(out@).len() > 0 ==> (r matches Ok(v) && stacks_view(v@) == perf_stacks(out@)),
        perf_stacks(out@).len() == 0 ==> r == Err::<Vec<Vec<String>>, CaptureError>(
            CaptureError::NoPerfStacks,
        ),
{
    let stacks = parse_perf_script(out);
    if stacks.len() == 0 {
        Err(CaptureError::NoPerfStacks)
    } else {
        Ok(stacks)
    }
}


// ---------------------------------------------------------------------------
// macOS sample
// ---------------------------------------------------------------------------

/// The frame a `sample` call-graph entry names, given the entry with its
/// leading whitespace removed: a sample count, then `"<symbol> (in <module>)"`,
/// written back as `"<symbol> (<module>)"`.
pub open spec fn sample_frame(t: Seq<char>) -> Option<Seq<char>> {
    let w = lead_count(t, |c: char| not_ws(c));
    if w == 0 || w > t.len() {
        None
    } else if parse_u64(t.subrange(0, w as int)) is None {
        None
    } else {
        let after = trim_start(t.subrange(w as int, t.len() as int));
        let i = find_sub(after, " (in "@);
        if i < 0 || i + " (in "@.len() > after.len() {
            None
        } else {
            let sym = trim(after.subrange(0, i));
            if sym.len() == 0 {
                None
            } else {
                let rest = after.subrange(i + " (in "@.len(), after.len() as int);
                let module = trim(before_first(rest, seq![')']));
                Some(sym + seq![' ', '('] + module + seq![')'])
            }
        }
    }
}

proof fn lemma_first_in_marker(sym: Seq<char>, pad: Seq<char>, back: Seq<char>)
    requires
        !is_ws(sym.last()),
        sym.len() > 0,
        !contains_sub(sym + seq![' '], " (in "@),
        forall|i: int| 0 <= i < pad.len() ==> is_ws(#[trigger] pad[i]),
    ensures
        find_sub(sym + pad + " (in "@ + back, " (in "@) == sym.len() + pad.len(),
{
    reveal_strlit(" (in ");
    let pat = " (in "@;
    assert(pat =~= seq![' ', '(', 'i', 'n', ' ']);
    let rest = sym + pad + pat + back;
    let l: int = (sym.len() + pad.len()) as int;
    assert(rest.subrange(l, l + 5) =~= pat);
    let sp = sym + seq![' '];
    lemma_find_sub_props(sp, pat);
    assert forall|j: int| 0 <= j && j < l implies !matches_at(rest, pat, j) by {
        if matches_at(rest, pat, j) {
            let win = rest.subrange(j, j + 5);
            assert(win == pat);
            if j + 5 <= sym.len() {
                assert(sp.subrange(j, j + 5) =~= win);
                assert(matches_at(sp, pat, j));
            } else if j < sym.len() {
                let k = sym.len() - j;
                assert(win[k] == rest[sym.len() as int]);
                if pad.len() > 0 {
                    assert(rest[sym.len() as int] == pad[0]);
                } else {
                    assert(rest[sym.len() as int] == ' ');
                }
                assert(k == 4);
                assert(rest[sym.len() as int] == ' ');
                assert(sp.subrange(j, j + 5) =~= win);
                assert(matches_at(sp, pat, j));
            } else {
                assert(win[1] == rest[j + 1]);
                if j + 1 < l {
                    assert(rest[j + 1] == pad[j + 1 - sym.len()]);
                } else {
                    assert(rest[j + 1] == ' ');
                }
            }
        }
    }
    lemma_find_sub(rest, pat, l);
}

proof fn lemma_before_close(module: Seq<char>, tail: Seq<char>)
    requires
        forall|i: int| 0 <= i < module.len() ==> #[trigger] module[i] != ')',
    ensures
        before_first(module + seq![')'] + tail, seq![')']) == module,
{
    let back = module + seq![')'] + tail;
    assert(back[module.len() as int] == ')');
    assert(back.subrange(module.len() as int, module.len() + 1int) =~= seq![')']);
    assert forall|j: int| 0 <= j && j < module.len() implies !matches_at(back, seq![')'], j) by {
        assert(back[j] == module[j]);
        if matches_at(back, seq![')'], j) {
            assert(back.subrange(j, j + 1)[0] == back[j]);
        }
    }
    lemma_find_sub(back, seq![')'], module.len() as int);
    assert(before_first(back, seq![')']) =~= module);
}

/// A `sample` call-graph entry `<count> <symbol><pad> (in <module>)<tail>`,
/// its leading whitespace removed, names the frame `<symbol> (<module>)`,
/// spaces inside the symbol included; provided the count is a `u64` with no
/// whitespace, the symbol is not blank at either end and no `" (in "` starts
/// inside it, the padding is whitespace, and the module holds no `')'` and is
/// not blank at either end.
pub proof fn lemma_sample_frame_symbol(
    count: Seq<char>,
    sym: Seq<char>,
    pad: Seq<char>,
    module: Seq<char>,
    tail: Seq<char>,
)
    requires
        count.len() > 0,
        forall|i: int| 0 <= i < count.len() ==> !is_ws(#[trigger] count[i]),
        parse_u64(count) is Some,
        sym.len() > 0,
        !is_ws(sym[0]),
        !is_ws(sym.last()),
        !contains_sub(sym + seq![' '], " (in "@),
        forall|i: int| 0 <= i < pad.len() ==> is_ws(#[trigger] pad[i]),
        forall|i: int| 0 <= i < module.len() ==> #[trigger] module[i] != ')',
        module.len() == 0 || (!is_ws(module[0]) && !is_ws(module.last())),
    ensures
        sample_frame(count + seq![' '] + sym + pad + " (in "@ + module + seq![')'] + tail) == Some(
            sym + seq![' ', '('] + module + seq![')'],
        ),
{
    let pat = " (in "@;
    let back = module + seq![')'] + tail;
    let rest = sym + pad + pat + back;
    let u = seq![' '] + rest;
    let t = count + u;
    assert(t =~= count + seq![' '] + sym + pad + " (in "@ + module + seq![')'] + tail);
    // the count
    assert forall|j: int| 0 <= j < count.len() implies not_ws(#[trigger] t[j]) by {
        assert(t[j] == count[j]);
    }
    assert(t[count.len() as int] == ' ');
    lemma_lead_count(t, |c: char| not_ws(c), count.len() as int);
    assert(t.subrange(0, count.len() as int) =~= count);
    assert(t.subrange(count.len() as int, t.len() as int) =~= u);
    // the text after the count
    assert(rest[0] == sym[0]);
    lemma_trim_start_skip(seq![' '], rest);
    let after = trim_start(t.subrange(count.len() as int, t.len() as int));
    assert(after == rest);
    lemma_first_in_marker(sym, pad, back);
    let l: int = (sym.len() + pad.len()) as int;
    assert(find_sub(after, pat) == l);
    reveal_strlit(" (in ");
    assert(pat.len() == 5);
    // the symbol, trimmed of the padding
    assert(rest.subrange(0, l) =~= sym + pad);
    assert((sym + pad)[0] == sym[0]);
    lemma_trim_start_skip(seq![], sym + pad);
    assert(Seq::<char>::empty() + (sym + pad) =~= sym + pad);
    lemma_trim_end_skip(sym, pad);
    assert(trim(after.subrange(0, l)) == sym);
    // the module, up to the first ')'
    assert(rest.subrange(l + 5, rest.len() as int) =~= back);
    lemma_before_close(module, tail);
    lemma_trim_noop(module);
    assert(trim(before_first(after.subrange(l + 5, after.len() as int), seq![')'])) == module);
}

/// Scan state over `sample` output: stacks so far, whether the call graph
/// has begun, the current root-first path, whether the scan has stopped.
pub type SampleScan = (Seq<Seq<Seq<char>>>, bool, Seq<Seq<char>>, bool);

/// Number of bytes of leading whitespace on a line.
pub open spec fn indent_bytes(line: Seq<char>) -> nat {
    utf8_len(line.subrange(0, lead_count(line, |c: char| is_ws(c)) as int))
}

/// Tree depth that an indentation of `ls` bytes stands for.
pub open spec fn sample_depth(ls: nat) -> nat {
    (if ls >= 4 {
        (ls - 4) as nat
    } else {
        0
    }) / 2
}

#[verifier::opaque]
pub open spec fn sample_step(st: SampleScan, line: Seq<char>) -> SampleScan {
    let (stacks, in_cg, path, done) = st;
    if done {
        st
    } else if contains_sub(line, "Call graph:"@) {
        (stacks, true, path, false)
    } else if !in_cg {
        st
    } else if starts_with(line, "Total number"@) || starts_with(line, "Sort by"@) {
        (stacks, in_cg, path, true)
    } else if trim_end(line).len() == 0 {
        st
    } else {
        let t = trim_start(line);
        if contains_sub(t, "Thread_"@) {
            if path.len() > 0 {
                (stacks.push(path), in_cg, seq![], false)
            } else {
                st
            }
        } else {
            match sample_frame(t) {
                None => st,
                Some(f) => {
                    let depth = sample_depth(indent_bytes(line));
                    if depth == 0 {
                        st
                    } else {
                        let kept = if path.len() >= depth {
                            path.subrange(0, depth - 1)
                        } else {
                            path
                        };
                        (stacks, in_cg, kept.push(f), false)
                    }
                },
            }
        }
    }
}

pub open spec fn sample_fold(ls: Seq<Seq<char>>) -> SampleScan
    decreases ls.len(),
{
    if ls.len() == 0 {
        (seq![], false, seq![], false)
    } else {
        sample_step(sample_fold(ls.drop_last()), ls.last())
    }
}

/// The stacks of a whole `sample` report.
pub open spec fn sample_stacks(text: Seq<char>) -> Seq<Seq<Seq<char>>> {
    let st = sample_fold(lines(text));
    if st.2.len() > 0 {
        st.0.push(st.2)
    } else {
        st.0
    }
}

/// `sample_frame` of `s[lo..hi]`.
fn sample_frame_range(s: &Vec<char>, lo: usize, hi: usize) -> (r: Option<String>)
    requires
        lo <= hi <= s.len(),
        lo == hi || !is_ws(s@[lo as int]),
    ensures
        opt_text(r) == sample_frame(s@.subrange(lo as int, hi as int)),
{
    let ghost t = s@.subrange(lo as int, hi as int);
    let w = skip_word(s, lo, hi);
    proof {
        lemma_lead_count_props(t, |c: char| not_ws(c));
        if lo < hi {
            assert(t[0] == s@[lo as int]);
        }
    }
    if w == lo {
        return None;
    }
    assert(t.subrange(0, w - lo) =~= s@.subrange(lo as int, w as int));
    if parse_u64_range(s, lo, w).is_none() {
        return None;
    }
    assert(t.subrange(w - lo, t.len() as int) =~= s@.subrange(w as int, hi as int));
    let a = trim_start_range(s, w, hi);
    let ghost after = s@.subrange(a as int, hi as int);
    let pat = chars_of(" (in ");
    let i = find_in(s, a, hi, &pat);
    proof {
        lemma_find_sub_props(after, pat@);
    }
    let i = match i {
        None => {
            return None;
        },
        Some(i) => i,
    };
    if pat.len() > hi - i {
        return None;
    }
    let (b0, b1) = trim_range(s, a, i);
    assert(after.subrange(0, i - a) =~= s@.subrange(a as int, i as int));
    if b0 == b1 {
        return None;
    }
    let rs = i + pat.len();
    let ghost rest = s@.subrange(rs as int, hi as int);
    assert(after.subrange(i - a + pat@.len(), after.len() as int) =~= rest);
    let close: Vec<char> = vec![')'];
    assert(close@ =~= seq![')']);
    let k = find_in(s, rs, hi, &close);
    let end = match k {
        Some(k) => k,
        None => hi,
    };
    assert(before_first(rest, seq![')']) =~= s@.subrange(rs as int, end as int));
    let (c0, c1) = trim_range(s, rs, end);
    let mut out = String::new();
    push_range(&mut out, s, b0, b1);
    push_char(&mut out, ' ');
    push_char(&mut out, '(');
    push_range(&mut out, s, c0, c1);
    push_char(&mut out, ')');
    let ghost sym = s@.subrange(b0 as int, b1 as int);
    let ghost module = s@.subrange(c0 as int, c1 as int);
    assert(out@ =~= sym + seq![' ', '('] + module + seq![')']);
    Some(out)
}

/// The frame named by a `sample` call-graph entry whose leading whitespace
/// has been removed.
pub fn parse_sample_frame(trimmed: &str) -> (r: Option<String>)
    requires
        trimmed@.len() == 0 || !is_ws(trimmed@[0]),
    ensures
        opt_text(r) == sample_frame(trimmed@),
{
    let s = chars_of(trimmed);
    assert(s@.subrange(0, s.len() as int) =~= s@);
    sample_frame_range(&s, 0, s.len())
}

proof fn lemma_sample_frame_nonempty(t: Seq<char>)
    ensures
        sample_frame(t) matches Some(f) ==> f.len() > 0,
{
}

/// Mutable scan state of `parse_sample_text`.
struct SampleScanner {
    stacks: Vec<Vec<String>>,
    in_cg: bool,
    path: Vec<String>,
    done: bool,
}

impl SampleScanner {
    spec fn state(&self) -> SampleScan {
        (stacks_view(self.stacks@), self.in_cg, strings_view(self.path@), self.done)
    }

    spec fn inv(&self) -> bool {
        &&& well_formed_stacks(stacks_view(self.stacks@))
        &&& nonempty_frames(strings_view(self.path@))
    }
}

/// Patterns the `sample` scan looks for.
struct SamplePatterns {
    call_graph: Vec<char>,
    total_number: Vec<char>,
    sort_by: Vec<char>,
    thread: Vec<char>,
}

impl SamplePatterns {
    spec fn ok(&self) -> bool {
        &&& self.call_graph@ == "Call graph:"@
        &&& self.total_number@ == "Total number"@
        &&& self.sort_by@ == "Sort by"@
        &&& self.thread@ == "Thread_"@
    }
}

/// Applies one line `s[lo..hi]` of `sample` output to the scan state.
fn sample_step_exec(
    s: &Vec<char>,
    lo: usize,
    hi: usize,
    pats: &SamplePatterns,
    sc: &mut SampleScanner,
)
    requires
        lo <= hi <= s.len(),
        utf8_len(s@) <= usize::MAX,
        pats.ok(),
        old(sc).inv(),
    ensures
        final(sc).state() == sample_step(old(sc).state(), s@.subrange(lo as int, hi as int)),
        final(sc).inv(),
{
    reveal(sample_step);
    let ghost line = s@.subrange(lo as int, hi as int);
    if sc.done {
        return;
    }
    if contains_range(s, lo, hi, &pats.call_graph) {
        sc.in_cg = true;
        return;
    }
    if !sc.in_cg {
        return;
    }
    if starts_with_range(s, lo, hi, &pats.total_number) || starts_with_range(
        s,
        lo,
        hi,
        &pats.sort_by,
    ) {
        sc.done = true;
        return;
    }
    let e = trim_end_range(s, lo, hi);
    if e == lo {
        return;
    }
    let a = trim_start_range(s, lo, hi);
    let ghost t = s@.subrange(a as int, hi as int);
    if contains_range(s, a, hi, &pats.thread) {
        if sc.path.len() > 0 {
            let mut taken: Vec<String> = Vec::new();
            std::mem::swap(&mut taken, &mut sc.path);
            proof {
                lemma_stacks_view_push(sc.stacks@, taken);
            }
            sc.stacks.push(taken);
            assert(strings_view(sc.path@) =~= seq![]);
        }
        return;
    }
    proof {
        lemma_lead_count_props(line, |c: char| is_ws(c));
        if a < hi {
            assert(t[0] == line[a - lo]);
        }
    }
    let frame = sample_frame_range(s, a, hi);
    proof {
        lemma_sample_frame_nonempty(t);
    }
    match frame {
        None => {},
        Some(f) => {
            let ls = utf8_len_range(s, lo, a);
            assert(line.subrange(0, a - lo) =~= s@.subrange(lo as int, a as int));
            let depth = ls.saturating_sub(4) / 2;
            if depth == 0 {
                return;
            }
            let ghost orig = sc.path@;
            let ghost pre_stacks = sc.stacks@;
            let ghost pre_cg = sc.in_cg;
            let ghost pre_done = sc.done;
            while sc.path.len() >= depth
                invariant
                    depth >= 1,
                    sc.stacks@ == pre_stacks,
                    sc.in_cg == pre_cg,
                    sc.done == pre_done,
                    sc.path@ == orig.subrange(0, sc.path@.len() as int),
                    sc.path@.len() <= orig.len(),
                    orig.len() >= depth ==> sc.path@.len() >= depth - 1,
                    orig.len() < depth ==> sc.path@ == orig,
                decreases sc.path.len(),
            {
                sc.path.pop();
                assert(sc.path@ =~= orig.subrange(0, sc.path@.len() as int));
            }
            proof {
                assert(depth == sample_depth(indent_bytes(line)));
                assert(nonempty_frames(strings_view(sc.path@))) by {
                    assert forall|j: int| 0 <= j < strings_view(sc.path@).len() implies (
                    #[trigger] strings_view(sc.path@)[j]).len() > 0 by {
                        assert(strings_view(sc.path@)[j] == strings_view(orig)[j]);
                    }
                }
                assert(strings_view(sc.path@) =~= (if strings_view(orig).len() >= depth {
                    strings_view(orig).subrange(0, depth - 1)
                } else {
                    strings_view(orig)
                }));
                lemma_strings_view_push(sc.path@, f);
            }
            sc.path.push(f);
        },
    }
}

/// The stacks of a `sample` report: each call-graph thread's paths, root
/// first; an error where none parses.
pub fn parse_sample_text(text: &str) -> (r: Result<Vec<Vec<String>>, CaptureError>)
    requires
        utf8_len(text@) <= usize::MAX,
    ensures
        sample_stacks(text@).len() > 0 ==> (r matches Ok(v) && stacks_view(v@) == sample_stacks(
            text@,
        )),
        sample_stacks(text@).len() == 0 ==> r == Err::<Vec<Vec<String>>, CaptureError>(
            CaptureError::NoSampleStacks,
        ),
        r matches Ok(v) ==> well_formed_stacks(stacks_view(v@)),
{
    let s = chars_of(text);
    let lr = line_ranges(&s);
    let ghost ls = lines(s@);
    let pats = SamplePatterns {
        call_graph: chars_of("Call graph:"),
        total_number: chars_of("Total number"),
        sort_by: chars_of("Sort by"),
        thread: chars_of("Thread_"),
    };
    let mut sc = SampleScanner { stacks: Vec::new(), in_cg: false, path: Vec::new(), done: false };
    assert(stacks_view(sc.stacks@) =~= seq![]);
    assert(strings_view(sc.path@) =~= seq![]);
    let mut i: usize = 0;
    assert(ls.take(0) =~= seq![]);
    while i < lr.len()
        invariant
            i <= lr.len(),
            s@ == text@,
            utf8_len(s@) <= usize::MAX,
            pats.ok(),
            ls == lines(s@),
            range_texts(s@, lr@) == ls,
            ranges_within(lr@, s.len() as int),
            sc.state() == sample_fold(ls.take(i as int)),
            sc.inv(),
        decreases lr.len() - i,
    {
        let (lo, hi) = lr[i];
        proof {
            assert(ls[i as int] == s@.subrange(lo as int, hi as int));
            assert(ls.take(i + 1).drop_last() =~= ls.take(i as int));
            assert(ls.take(i + 1).last() == ls[i as int]);
        }
        sample_step_exec(&s, lo, hi, &pats, &mut sc);
        i += 1;
    }
    assert(ls.take(lr.len() as int) =~= ls);
    let mut stacks = sc.stacks;
    if sc.path.len() > 0 {
        proof {
            lemma_stacks_view_push(stacks@, sc.path);
        }
        stacks.push(sc.path);
    }
    if stacks.len() == 0 {
        return Err(CaptureError::NoSampleStacks);
    }
    Ok(stacks)
}

} // verus!
