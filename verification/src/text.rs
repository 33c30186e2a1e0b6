//! Character-level text handling shared by the parsers and renderers.
//!
//! Text is modelled as a `Seq<char>`. The spec functions here state what the
//! `str` methods the parsers rely on (`lines`, `split_whitespace`, `trim*`,
//! `find`, `starts_with`, integer parsing and formatting) compute; the exec
//! functions work on a `Vec<char>` and a half-open index range of it, so that
//! scanning a large text never copies its remainder.

use vstd::prelude::*;

verus! {

// ---------------------------------------------------------------------------
// Character classes
// ---------------------------------------------------------------------------

/// Unicode `White_Space`, the set that `char::is_whitespace` tests.
pub open spec fn is_ws(c: char) -> bool {
    let u = c as u32;
    ||| (9 <= u && u <= 13)
    ||| u == 32
    ||| u == 0x85
    ||| u == 0xA0
    ||| u == 0x1680
    ||| (0x2000 <= u && u <= 0x200A)
    ||| u == 0x2028
    ||| u == 0x2029
    ||| u == 0x202F
    ||| u == 0x205F
    ||| u == 0x3000
}

pub fn is_ws_char(c: char) -> (b: bool)
    ensures
        b == is_ws(c),
{
    let u = c as u32;
    (9 <= u && u <= 13) || u == 32 || u == 0x85 || u == 0xA0 || u == 0x1680 || (0x2000 <= u && u
        <= 0x200A) || u == 0x2028 || u == 0x2029 || u == 0x202F || u == 0x205F || u == 0x3000
}

pub open spec fn not_ws(c: char) -> bool {
    !is_ws(c)
}

// ---------------------------------------------------------------------------
// Leading / trailing runs
// ---------------------------------------------------------------------------

/// Length of the longest prefix of `s` whose characters satisfy `p`.
pub open spec fn lead_count(s: Seq<char>, p: spec_fn(char) -> bool) -> nat
    decreases s.len(),
{
    if s.len() > 0 && p(s[0]) {
        1 + lead_count(s.drop_first(), p)
    } else {
        0
    }
}

/// Length of the longest suffix of `s` whose characters satisfy `p`.
pub open spec fn trail_count(s: Seq<char>, p: spec_fn(char) -> bool) -> nat
    decreases s.len(),
{
    if s.len() > 0 && p(s.last()) {
        1 + trail_count(s.drop_last(), p)
    } else {
        0
    }
}

pub proof fn lemma_lead_count(s: Seq<char>, p: spec_fn(char) -> bool, k: int)
    requires
        0 <= k <= s.len(),
        forall|j: int| 0 <= j < k ==> p(#[trigger] s[j]),
        k == s.len() || !p(s[k]),
    ensures
        lead_count(s, p) == k,
    decreases k,
{
    if k > 0 {
        assert forall|j: int| 0 <= j < k - 1 implies p(#[trigger] s.drop_first()[j]) by {
            assert(s.drop_first()[j] == s[j + 1]);
        }
        lemma_lead_count(s.drop_first(), p, k - 1);
    }
}

pub proof fn lemma_trail_count(s: Seq<char>, p: spec_fn(char) -> bool, k: int)
    requires
        0 <= k <= s.len(),
        forall|j: int| s.len() - k <= j < s.len() ==> p(#[trigger] s[j]),
        k == s.len() || !p(s[s.len() - k - 1]),
    ensures
        trail_count(s, p) == k,
    decreases k,
{
    if k > 0 {
        let t = s.drop_last();
        assert forall|j: int| t.len() - (k - 1) <= j < t.len() implies p(#[trigger] t[j]) by {
            assert(t[j] == s[j]);
        }
        if k - 1 < t.len() {
            assert(t[t.len() - (k - 1) - 1] == s[s.len() - k - 1]);
        }
        lemma_trail_count(t, p, k - 1);
    }
}

pub proof fn lemma_lead_count_props(s: Seq<char>, p: spec_fn(char) -> bool)
    ensures
        lead_count(s, p) <= s.len(),
        forall|j: int| 0 <= j < lead_count(s, p) ==> p(#[trigger] s[j]),
        lead_count(s, p) == s.len() || !p(s[lead_count(s, p) as int]),
    decreases s.len(),
{
    if s.len() > 0 && p(s[0]) {
        lemma_lead_count_props(s.drop_first(), p);
        assert forall|j: int| 0 <= j < lead_count(s, p) implies p(#[trigger] s[j]) by {
            if j > 0 {
                assert(s[j] == s.drop_first()[j - 1]);
            }
        }
        if lead_count(s, p) < s.len() {
            assert(s[lead_count(s, p) as int] == s.drop_first()[lead_count(s.drop_first(), p) as int]);
        }
    }
}

pub open spec fn trim_start(s: Seq<char>) -> Seq<char> {
    s.subrange(lead_count(s, |c: char| is_ws(c)) as int, s.len() as int)
}

pub open spec fn trim_end(s: Seq<char>) -> Seq<char> {
    s.subrange(0, s.len() - trail_count(s, |c: char| is_ws(c)))
}

/// `str::trim`: both ends stripped of whitespace.
pub open spec fn trim(s: Seq<char>) -> Seq<char> {
    trim_end(trim_start(s))
}

/// Whitespace `w` before text that does not start with whitespace is what
/// `trim_start` removes.
pub proof fn lemma_trim_start_skip(w: Seq<char>, s: Seq<char>)
    requires
        forall|i: int| 0 <= i < w.len() ==> is_ws(#[trigger] w[i]),
        s.len() == 0 || !is_ws(s[0]),
    ensures
        trim_start(w + s) == s,
{
    let x = w + s;
    assert forall|j: int| 0 <= j < w.len() implies is_ws(#[trigger] x[j]) by {
        assert(x[j] == w[j]);
    }
    if s.len() > 0 {
        assert(x[w.len() as int] == s[0]);
    }
    lemma_lead_count(x, |c: char| is_ws(c), w.len() as int);
    assert(x.subrange(w.len() as int, x.len() as int) =~= s);
}

/// Whitespace `w` after text that does not end with whitespace is what
/// `trim_end` removes.
pub proof fn lemma_trim_end_skip(s: Seq<char>, w: Seq<char>)
    requires
        forall|i: int| 0 <= i < w.len() ==> is_ws(#[trigger] w[i]),
        s.len() == 0 || !is_ws(s.last()),
    ensures
        trim_end(s + w) == s,
{
    let x = s + w;
    assert forall|j: int| x.len() - w.len() <= j < x.len() implies is_ws(#[trigger] x[j]) by {
        assert(x[j] == w[j - s.len()]);
    }
    if s.len() > 0 {
        assert(x[x.len() - w.len() - 1] == s.last());
    }
    lemma_trail_count(x, |c: char| is_ws(c), w.len() as int);
    assert(x.subrange(0, x.len() - w.len()) =~= s);
}

/// Text with no whitespace at either end is its own trim.
pub proof fn lemma_trim_noop(s: Seq<char>)
    requires
        s.len() == 0 || (!is_ws(s[0]) && !is_ws(s.last())),
    ensures
        trim(s) == s,
        trim_start(s) == s,
{
    lemma_trim_start_skip(seq![], s);
    assert(Seq::<char>::empty() + s =~= s);
    lemma_trim_end_skip(s, seq![]);
    assert(s + Seq::<char>::empty() =~= s);
}

// ---------------------------------------------------------------------------
// Substring search
// ---------------------------------------------------------------------------

pub open spec fn matches_at(s: Seq<char>, p: Seq<char>, i: int) -> bool {
    0 <= i && i + p.len() <= s.len() && s.subrange(i, i + p.len()) == p
}

/// `str::find` with a string pattern: index of the first occurrence of `p`
/// in `s`, or `-1` where there is none.
pub open spec fn find_sub(s: Seq<char>, p: Seq<char>) -> int
    decreases s.len(),
{
    if p.len() > s.len() {
        -1
    } else if s.subrange(0, p.len() as int) == p {
        0
    } else if s.len() == 0 {
        -1
    } else {
        let r = find_sub(s.drop_first(), p);
        if r < 0 {
            -1
        } else {
            r + 1
        }
    }
}

pub open spec fn contains_sub(s: Seq<char>, p: Seq<char>) -> bool {
    find_sub(s, p) >= 0
}

/// Text that contains `p` still does with more text after it.
pub proof fn lemma_contains_left(x: Seq<char>, y: Seq<char>, p: Seq<char>)
    requires
        contains_sub(x, p),
    ensures
        contains_sub(x + y, p),
{
    lemma_find_sub_props(x, p);
    let i = find_sub(x, p);
    assert((x + y).subrange(i, i + p.len()) =~= x.subrange(i, i + p.len()));
    assert(matches_at(x + y, p, i));
    lemma_find_sub_props(x + y, p);
}

/// Text that contains `p` still does with more text before it.
pub proof fn lemma_contains_right(x: Seq<char>, y: Seq<char>, p: Seq<char>)
    requires
        contains_sub(y, p),
    ensures
        contains_sub(x + y, p),
{
    lemma_find_sub_props(y, p);
    let i = find_sub(y, p);
    assert((x + y).subrange(x.len() + i, x.len() + i + p.len()) =~= y.subrange(i, i + p.len()));
    assert(matches_at(x + y, p, x.len() + i));
    lemma_find_sub_props(x + y, p);
}

/// Text made of `a`, then `p`, then `b` contains `p`.
pub proof fn lemma_contains_middle(a: Seq<char>, p: Seq<char>, b: Seq<char>)
    ensures
        contains_sub(a + p + b, p),
{
    let s = a + p + b;
    assert(s.subrange(a.len() as int, (a.len() + p.len()) as int) =~= p);
    assert(matches_at(s, p, a.len() as int));
    lemma_find_sub_props(s, p);
}

pub open spec fn starts_with(s: Seq<char>, p: Seq<char>) -> bool {
    matches_at(s, p, 0)
}

/// The text before the first occurrence of `p` (all of `s` where `p` does
/// not occur): what `s.split(p).next()` yields.
pub open spec fn before_first(s: Seq<char>, p: Seq<char>) -> Seq<char> {
    let i = find_sub(s, p);
    if i < 0 {
        s
    } else {
        s.subrange(0, i)
    }
}

pub proof fn lemma_find_sub(s: Seq<char>, p: Seq<char>, k: int)
    requires
        k == -1 || matches_at(s, p, k),
        forall|j: int| 0 <= j && (k == -1 || j < k) ==> !matches_at(s, p, j),
    ensures
        find_sub(s, p) == k,
    decreases s.len(),
{
    if p.len() > s.len() {
        if k != -1 {
            assert(false);
        }
    } else if s.subrange(0, p.len() as int) == p {
        assert(matches_at(s, p, 0));
    } else if s.len() == 0 {
        assert(p.len() == 0);
        assert(s.subrange(0, 0) =~= p);
    } else {
        let t = s.drop_first();
        assert(!matches_at(s, p, 0));
        assert forall|j: int| #![trigger matches_at(t, p, j)] 0 <= j implies matches_at(t, p, j)
            == matches_at(s, p, j + 1) by {
            if j + p.len() <= t.len() {
                assert(t.subrange(j, j + p.len()) =~= s.subrange(j + 1, j + 1 + p.len()));
            }
        }
        if k == -1 {
            lemma_find_sub(t, p, -1);
        } else {
            lemma_find_sub(t, p, k - 1);
        }
    }
}

pub proof fn lemma_find_sub_props(s: Seq<char>, p: Seq<char>)
    ensures
        find_sub(s, p) == -1 || 0 <= find_sub(s, p) <= s.len() - p.len(),
        find_sub(s, p) >= 0 ==> matches_at(s, p, find_sub(s, p)),
        forall|j: int|
            0 <= j && (find_sub(s, p) == -1 || j < find_sub(s, p)) ==> !matches_at(s, p, j),
    decreases s.len(),
{
    if p.len() > s.len() {
    } else if s.subrange(0, p.len() as int) == p {
    } else if s.len() == 0 {
        assert(s.subrange(0, 0) =~= p);
    } else {
        let t = s.drop_first();
        lemma_find_sub_props(t, p);
        assert forall|j: int| #![trigger matches_at(t, p, j)] 0 <= j implies matches_at(t, p, j)
            == matches_at(s, p, j + 1) by {
            if j + p.len() <= t.len() {
                assert(t.subrange(j, j + p.len()) =~= s.subrange(j + 1, j + 1 + p.len()));
            }
        }
        assert forall|j: int|
            0 <= j && (find_sub(s, p) == -1 || j < find_sub(s, p)) implies !matches_at(
            s,
            p,
            j,
        ) by {
            if j > 0 {
                assert(matches_at(t, p, j - 1) == matches_at(s, p, j));
            }
        }
    }
}

// ---------------------------------------------------------------------------
// Lines and words
// ---------------------------------------------------------------------------

/// A line ended by `"\n"` loses a `'\r'` just before it too.
pub open spec fn strip_cr(l: Seq<char>) -> Seq<char> {
    if l.len() > 0 && l.last() == '\r' {
        l.drop_last()
    } else {
        l
    }
}

/// `str::lines`: split at `'\n'`, each `"\r\n"` ending removed, no empty
/// line produced by a final line ending.
pub open spec fn lines(s: Seq<char>) -> Seq<Seq<char>>
    decreases s.len(),
{
    if s.len() == 0 {
        seq![]
    } else {
        let k = find_sub(s, seq!['\n']);
        if k < 0 || k >= s.len() {
            seq![s]
        } else {
            seq![strip_cr(s.subrange(0, k))] + lines(s.subrange(k + 1, s.len() as int))
        }
    }
}

/// `str::split_whitespace`: the maximal runs of non-whitespace characters.
pub open spec fn words(s: Seq<char>) -> Seq<Seq<char>>
    decreases s.len(),
{
    if s.len() == 0 {
        seq![]
    } else if is_ws(s[0]) {
        words(s.drop_first())
    } else {
        let k = lead_count(s, |c: char| not_ws(c));
        if k == 0 || k > s.len() {
            seq![]
        } else {
            seq![s.subrange(0, k as int)] + words(s.subrange(k as int, s.len() as int))
        }
    }
}

/// Every word is non-empty.
pub proof fn lemma_words_nonempty(s: Seq<char>)
    ensures
        forall|i: int| 0 <= i < words(s).len() ==> (#[trigger] words(s)[i]).len() > 0,
    decreases s.len(),
{
    if s.len() > 0 {
        if is_ws(s[0]) {
            lemma_words_nonempty(s.drop_first());
            assert(words(s) == words(s.drop_first()));
        } else {
            let k = lead_count(s, |c: char| not_ws(c));
            lemma_lead_count_props(s, |c: char| not_ws(c));
            assert(k > 0);
            if 0 < k <= s.len() {
                let rest = s.subrange(k as int, s.len() as int);
                lemma_words_nonempty(rest);
                assert forall|i: int| 0 <= i < words(s).len() implies (#[trigger] words(s)[i]).len()
                    > 0 by {
                    if i > 0 {
                        assert(words(s)[i] == words(rest)[i - 1]);
                    }
                }
            }
        }
    }
}

pub proof fn lemma_words_skip_ws(s: Seq<char>, k: int)
    requires
        0 <= k <= s.len(),
        forall|j: int| 0 <= j < k ==> is_ws(#[trigger] s[j]),
    ensures
        words(s) == words(s.subrange(k, s.len() as int)),
    decreases k,
{
    if k == 0 {
        assert(s.subrange(0, s.len() as int) =~= s);
    } else {
        let t = s.drop_first();
        assert forall|j: int| 0 <= j < k - 1 implies is_ws(#[trigger] t[j]) by {
            assert(t[j] == s[j + 1]);
        }
        lemma_words_skip_ws(t, k - 1);
        assert(t.subrange(k - 1, t.len() as int) =~= s.subrange(k, s.len() as int));
    }
}

// ---------------------------------------------------------------------------
// Decimal numbers
// ---------------------------------------------------------------------------

pub open spec fn is_digit(c: char) -> bool {
    '0' <= c && c <= '9'
}

pub open spec fn digit_value(c: char) -> int {
    c as int - '0' as int
}

pub open spec fn digits_value(s: Seq<char>) -> int
    decreases s.len(),
{
    if s.len() == 0 {
        0
    } else {
        digits_value(s.drop_last()) * 10 + digit_value(s.last())
    }
}

pub open spec fn all_digits(s: Seq<char>) -> bool {
    forall|i: int| 0 <= i < s.len() ==> is_digit(#[trigger] s[i])
}

/// `u64::from_str`: an optional `'+'`, then one or more decimal digits, and
/// a value that fits in a `u64`.
pub open spec fn parse_u64(s: Seq<char>) -> Option<u64> {
    let d = if s.len() > 0 && s[0] == '+' {
        s.drop_first()
    } else {
        s
    };
    if d.len() > 0 && all_digits(d) && digits_value(d) <= u64::MAX {
        Some(digits_value(d) as u64)
    } else {
        None
    }
}

pub open spec fn digit_char(d: int) -> char {
    if d == 0 {
        '0'
    } else if d == 1 {
        '1'
    } else if d == 2 {
        '2'
    } else if d == 3 {
        '3'
    } else if d == 4 {
        '4'
    } else if d == 5 {
        '5'
    } else if d == 6 {
        '6'
    } else if d == 7 {
        '7'
    } else if d == 8 {
        '8'
    } else {
        '9'
    }
}

/// The decimal representation of `n`, as `format!("{}", n)` writes it.
pub open spec fn decimal(n: nat) -> Seq<char>
    decreases n,
{
    if n < 10 {
        seq![digit_char(n as int)]
    } else {
        decimal(n / 10).push(digit_char((n % 10) as int))
    }
}

proof fn lemma_digits_value_nonneg(s: Seq<char>)
    requires
        all_digits(s),
    ensures
        digits_value(s) >= 0,
    decreases s.len(),
{
    if s.len() > 0 {
        assert(is_digit(s[s.len() - 1]));
        lemma_digits_value_nonneg(s.drop_last());
    }
}

// ---------------------------------------------------------------------------
// Exec helpers on (text, lo, hi) ranges
// ---------------------------------------------------------------------------

/// The characters of `s`, in order.
pub fn chars_of(s: &str) -> (out: Vec<char>)
    ensures
        out@ == s@,
{
    let mut out: Vec<char> = Vec::new();
    for c in it: s.chars()
        invariant
            out@ == it.seq().take(it.index() as int),
    {
        out.push(c);
    }
    out
}

/// A copy of `s[lo..hi]`.
pub fn copy_range(s: &Vec<char>, lo: usize, hi: usize) -> (out: Vec<char>)
    requires
        lo <= hi <= s.len(),
    ensures
        out@ == s@.subrange(lo as int, hi as int),
{
    let mut out: Vec<char> = Vec::new();
    let mut i = lo;
    while i < hi
        invariant
            lo <= i <= hi <= s.len(),
            out@ == s@.subrange(lo as int, i as int),
        decreases hi - i,
    {
        out.push(s[i]);
        i += 1;
        assert(out@ =~= s@.subrange(lo as int, i as int));
    }
    out
}

/// `lo` plus the length of the whitespace run that starts `s[lo..hi]`.
pub fn skip_ws(s: &Vec<char>, lo: usize, hi: usize) -> (r: usize)
    requires
        lo <= hi <= s.len(),
    ensures
        r == lo + lead_count(s@.subrange(lo as int, hi as int), |c: char| is_ws(c)),
        lo <= r <= hi,
{
    let ghost t = s@.subrange(lo as int, hi as int);
    let mut i = lo;
    while i < hi && is_ws_char(s[i])
        invariant
            lo <= i <= hi <= s.len(),
            t == s@.subrange(lo as int, hi as int),
            forall|j: int| 0 <= j < i - lo ==> is_ws(#[trigger] t[j]),
        decreases hi - i,
    {
        i += 1;
    }
    proof {
        lemma_lead_count(t, |c: char| is_ws(c), (i - lo) as int);
    }
    i
}

/// `lo` plus the length of the non-whitespace run that starts `s[lo..hi]`.
pub fn skip_word(s: &Vec<char>, lo: usize, hi: usize) -> (r: usize)
    requires
        lo <= hi <= s.len(),
    ensures
        r == lo + lead_count(s@.subrange(lo as int, hi as int), |c: char| not_ws(c)),
        lo <= r <= hi,
{
    let ghost t = s@.subrange(lo as int, hi as int);
    let mut i = lo;
    while i < hi && !is_ws_char(s[i])
        invariant
            lo <= i <= hi <= s.len(),
            t == s@.subrange(lo as int, hi as int),
            forall|j: int| 0 <= j < i - lo ==> not_ws(#[trigger] t[j]),
        decreases hi - i,
    {
        i += 1;
    }
    proof {
        lemma_lead_count(t, |c: char| not_ws(c), (i - lo) as int);
    }
    i
}

/// `hi` minus the length of the whitespace run that ends `s[lo..hi]`.
pub fn trim_ws_end(s: &Vec<char>, lo: usize, hi: usize) -> (r: usize)
    requires
        lo <= hi <= s.len(),
    ensures
        r == hi - trail_count(s@.subrange(lo as int, hi as int), |c: char| is_ws(c)),
        lo <= r <= hi,
{
    let ghost t = s@.subrange(lo as int, hi as int);
    let mut i = hi;
    while i > lo && is_ws_char(s[i - 1])
        invariant
            lo <= i <= hi <= s.len(),
            t == s@.subrange(lo as int, hi as int),
            forall|j: int| i - lo <= j < t.len() ==> is_ws(#[trigger] t[j]),
        decreases i - lo,
    {
        i -= 1;
    }
    proof {
        lemma_trail_count(t, |c: char| is_ws(c), (hi - i) as int);
    }
    i
}

/// Whether `p` occurs in `s` at position `i`.
pub fn matches_at_exec(s: &Vec<char>, p: &Vec<char>, i: usize) -> (b: bool)
    ensures
        b == matches_at(s@, p@, i as int),
{
    if i > s.len() || p.len() > s.len() - i {
        return false;
    }
    let mut k: usize = 0;
    while k < p.len()
        invariant
            i + p.len() <= s.len(),
            k <= p.len(),
            forall|j: int| 0 <= j < k ==> s@[i + j] == p@[j],
        decreases p.len() - k,
    {
        if s[i + k] != p[k] {
            assert(s@.subrange(i as int, i + p.len())[k as int] != p@[k as int]);
            return false;
        }
        k += 1;
    }
    assert(s@.subrange(i as int, i + p.len()) =~= p@);
    true
}

/// `s[lo..hi].find(p)`, as an index into `s`.
pub fn find_in(s: &Vec<char>, lo: usize, hi: usize, p: &Vec<char>) -> (r: Option<usize>)
    requires
        lo <= hi <= s.len(),
    ensures
        match r {
            Some(i) => lo <= i <= hi && find_sub(s@.subrange(lo as int, hi as int), p@) == i - lo,
            None => find_sub(s@.subrange(lo as int, hi as int), p@) == -1,
        },
{
    let ghost t = s@.subrange(lo as int, hi as int);
    if p.len() > hi - lo {
        proof {
            lemma_find_sub(t, p@, -1);
        }
        return None;
    }
    let mut i = lo;
    if p.len() == 0 {
        proof {
            assert(t.subrange(0, 0) =~= p@);
            lemma_find_sub(t, p@, 0);
        }
        return Some(lo);
    }
    let last = hi - p.len();
    while i <= last
        invariant
            lo <= i <= last + 1,
            last == hi - p.len(),
            last < hi,
            hi <= s.len(),
            p.len() <= hi - lo,
            t == s@.subrange(lo as int, hi as int),
            forall|j: int| 0 <= j < i - lo ==> !matches_at(t, p@, j),
        decreases hi - i,
    {
        let ghost j = i - lo;
        let m = matches_at_exec(s, p, i);
        proof {
            if i + p.len() <= hi {
                assert(t.subrange(j, j + p.len()) =~= s@.subrange(i as int, i + p.len()));
            }
        }
        if m {
            proof {
                lemma_find_sub(t, p@, j);
            }
            return Some(i);
        }
        i += 1;
    }
    proof {
        assert forall|j: int| 0 <= j implies !matches_at(t, p@, j) by {
            if j >= i - lo {
                assert(j + p.len() > t.len());
            }
        }
        lemma_find_sub(t, p@, -1);
    }
    None
}


/// The texts that a list of index ranges selects from `s`.
pub open spec fn range_texts(s: Seq<char>, rs: Seq<(usize, usize)>) -> Seq<Seq<char>> {
    rs.map_values(|r: (usize, usize)| s.subrange(r.0 as int, r.1 as int))
}

pub open spec fn ranges_within(rs: Seq<(usize, usize)>, len: int) -> bool {
    forall|i: int| 0 <= i < rs.len() ==> #[trigger] rs[i].0 <= rs[i].1 && rs[i].1 <= len
}

proof fn lemma_range_texts_push(s: Seq<char>, rs: Seq<(usize, usize)>, r: (usize, usize))
    ensures
        range_texts(s, rs.push(r)) == range_texts(s, rs).push(s.subrange(r.0 as int, r.1 as int)),
{
    assert(range_texts(s, rs.push(r)) =~= range_texts(s, rs).push(
        s.subrange(r.0 as int, r.1 as int),
    ));
}

/// The lines of `s`, as index ranges into `s`.
pub fn line_ranges(s: &Vec<char>) -> (out: Vec<(usize, usize)>)
    ensures
        range_texts(s@, out@) == lines(s@),
        ranges_within(out@, s.len() as int),
{
    let nl: Vec<char> = vec!['\n'];
    assert(nl@ == seq!['\n']);
    let mut out: Vec<(usize, usize)> = Vec::new();
    let mut st: usize = 0;
    let mut done = false;
    assert(s@.subrange(0, s.len() as int) =~= s@);
    while !done
        invariant
            st <= s.len(),
            nl@ == seq!['\n'],
            ranges_within(out@, s.len() as int),
            done ==> range_texts(s@, out@) == lines(s@),
            !done ==> range_texts(s@, out@) + lines(s@.subrange(st as int, s.len() as int))
                == lines(s@),
        decreases s.len() - st + (if done { 0int } else { 1int }),
    {
        let ghost t = s@.subrange(st as int, s.len() as int);
        if st == s.len() {
            assert(t.len() == 0);
            assert(range_texts(s@, out@) + lines(t) =~= range_texts(s@, out@));
            done = true;
        } else {
            let ghost prev = out@;
            let k = find_in(s, st, s.len(), &nl);
            proof {
                lemma_find_sub_props(t, seq!['\n']);
                lemma_range_texts_push(s@, out@, (st, s.len()));
            }
            match k {
                None => {
                    assert(lines(t) == seq![t]);
                    out.push((st, s.len()));
                    done = true;
                },
                Some(k) => {
                    let mut e = k;
                    if e > st && s[e - 1] == '\r' {
                        e = e - 1;
                    }
                    proof {
                        let j = k - st;
                        assert(matches_at(t, seq!['\n'], j));
                        assert(t.subrange(0, j) =~= s@.subrange(st as int, k as int));
                        assert(strip_cr(t.subrange(0, j)) =~= s@.subrange(st as int, e as int));
                        assert(t.subrange(j + 1, t.len() as int) =~= s@.subrange(
                            k + 1,
                            s.len() as int,
                        ));
                        lemma_range_texts_push(s@, out@, (st, e));
                    }
                    out.push((st, e));
                    st = k + 1;
                    assert(range_texts(s@, out@) + lines(s@.subrange(st as int, s.len() as int))
                        =~= range_texts(s@, prev) + lines(t));
                },
            }
        }
    }
    out
}


/// The whitespace-separated words of `s[lo..hi]`, as index ranges into `s`.
pub fn word_ranges(s: &Vec<char>, lo: usize, hi: usize) -> (out: Vec<(usize, usize)>)
    requires
        lo <= hi <= s.len(),
    ensures
        range_texts(s@, out@) == words(s@.subrange(lo as int, hi as int)),
        ranges_within(out@, s.len() as int),
        forall|i: int| 0 <= i < out@.len() ==> lo <= (#[trigger] out@[i]).0 < out@[i].1 <= hi,
{
    let mut out: Vec<(usize, usize)> = Vec::new();
    let mut pos = lo;
    let mut done = false;
    while !done
        invariant
            lo <= pos <= hi <= s.len(),
            ranges_within(out@, s.len() as int),
            forall|i: int| 0 <= i < out@.len() ==> lo <= (#[trigger] out@[i]).0 < out@[i].1 <= hi,
            done ==> range_texts(s@, out@) == words(s@.subrange(lo as int, hi as int)),
            !done ==> range_texts(s@, out@) + words(s@.subrange(pos as int, hi as int)) == words(
                s@.subrange(lo as int, hi as int),
            ),
        decreases hi - pos + (if done { 0int } else { 1int }),
    {
        let ghost t = s@.subrange(pos as int, hi as int);
        let p2 = skip_ws(s, pos, hi);
        proof {
            lemma_lead_count_props(t, |c: char| is_ws(c));
            lemma_words_skip_ws(t, p2 - pos);
            assert(t.subrange(p2 - pos, t.len() as int) =~= s@.subrange(p2 as int, hi as int));
        }
        if p2 == hi {
            assert(words(s@.subrange(hi as int, hi as int)) =~= seq![]) by {
                assert(s@.subrange(hi as int, hi as int).len() == 0);
            }
            assert(range_texts(s@, out@) + seq![] =~= range_texts(s@, out@));
            done = true;
        } else {
            let e = skip_word(s, p2, hi);
            let ghost u = s@.subrange(p2 as int, hi as int);
            let ghost prev = out@;
            proof {
                assert(!is_ws(u[0]));
                lemma_lead_count_props(u, |c: char| not_ws(c));
                assert(u.subrange(0, e - p2) =~= s@.subrange(p2 as int, e as int));
                assert(u.subrange(e - p2, u.len() as int) =~= s@.subrange(e as int, hi as int));
                lemma_range_texts_push(s@, out@, (p2, e));
            }
            out.push((p2, e));
            pos = e;
            assert(range_texts(s@, out@) + words(s@.subrange(pos as int, hi as int)) =~= range_texts(
                s@,
                prev,
            ) + words(u));
        }
    }
    out
}

/// `u64::from_str` applied to `s[lo..hi]`.
pub fn parse_u64_range(s: &Vec<char>, lo: usize, hi: usize) -> (r: Option<u64>)
    requires
        lo <= hi <= s.len(),
    ensures
        r == parse_u64(s@.subrange(lo as int, hi as int)),
{
    let ghost t = s@.subrange(lo as int, hi as int);
    let mut start = lo;
    if start < hi && s[start] == '+' {
        start = start + 1;
    }
    let ghost d = s@.subrange(start as int, hi as int);
    assert(d =~= (if t.len() > 0 && t[0] == '+' {
        t.drop_first()
    } else {
        t
    }));
    if start == hi {
        return None;
    }
    let mut val: u64 = 0;
    let mut i = start;
    let mut overflow = false;
    while i < hi
        invariant
            start <= i <= hi <= s.len(),
            d == s@.subrange(start as int, hi as int),
            t == s@.subrange(lo as int, hi as int),
            d == (if t.len() > 0 && t[0] == '+' {
                t.drop_first()
            } else {
                t
            }),
            forall|j: int| 0 <= j < i - start ==> is_digit(#[trigger] d[j]),
            !overflow ==> val == digits_value(d.subrange(0, i - start)),
            overflow ==> digits_value(d.subrange(0, i - start)) > u64::MAX,
        decreases hi - i,
    {
        let c = s[i];
        if c < '0' || c > '9' {
            assert(!is_digit(d[i - start]));
            assert(!all_digits(d));
            return None;
        }
        let dv = (c as u32 - '0' as u32) as u64;
        let ghost pre = d.subrange(0, i - start);
        let ghost nxt = d.subrange(0, i - start + 1);
        proof {
            assert(nxt.drop_last() =~= pre);
            assert(nxt.last() == c);
            assert(digits_value(nxt) == digits_value(pre) * 10 + dv);
        }
        if !overflow {
            if val > (u64::MAX - dv) / 10 {
                overflow = true;
                assert(val * 10 + dv > u64::MAX) by (nonlinear_arith)
                    requires
                        val > (u64::MAX - dv) / 10,
                        dv <= 9,
                ;
            } else {
                assert(val * 10 + dv <= u64::MAX) by (nonlinear_arith)
                    requires
                        val <= (u64::MAX - dv) / 10,
                        dv <= 9,
                ;
                val = val * 10 + dv;
            }
        } else {
            proof {
                lemma_digits_value_nonneg(pre);
                assert(digits_value(nxt) >= digits_value(pre)) by (nonlinear_arith)
                    requires
                        digits_value(nxt) == digits_value(pre) * 10 + dv,
                        digits_value(pre) >= 0,
                ;
            }
        }
        i = i + 1;
    }
    assert(d.subrange(0, i - start) =~= d);
    assert(all_digits(d));
    if overflow {
        None
    } else {
        Some(val)
    }
}


// ---------------------------------------------------------------------------
// Building strings
// ---------------------------------------------------------------------------

/// Calls `String::push`, which appends one character.
#[verifier::external_body]
pub(crate) fn push_char(out: &mut String, c: char)
    ensures
        final(out)@ == old(out)@.push(c),
{
    out.push(c);
}

/// Appends `src[lo..hi]` to `out`.
pub fn push_range(out: &mut String, src: &Vec<char>, lo: usize, hi: usize)
    requires
        lo <= hi <= src.len(),
    ensures
        final(out)@ == old(out)@ + src@.subrange(lo as int, hi as int),
{
    let ghost start = out@;
    let mut i = lo;
    while i < hi
        invariant
            lo <= i <= hi <= src.len(),
            out@ == start + src@.subrange(lo as int, i as int),
        decreases hi - i,
    {
        push_char(out, src[i]);
        i += 1;
        assert(out@ =~= start + src@.subrange(lo as int, i as int));
    }
}

/// Appends all of `src` to `out`.
pub fn push_all(out: &mut String, src: &Vec<char>)
    ensures
        final(out)@ == old(out)@ + src@,
{
    push_range(out, src, 0, src.len());
    assert(src@.subrange(0, src.len() as int) =~= src@);
}

/// A `String` holding exactly the characters of `src`.
pub fn string_of(src: &Vec<char>) -> (s: String)
    ensures
        s@ == src@,
{
    let mut s = String::new();
    push_all(&mut s, src);
    assert(s@ =~= src@);
    s
}

pub fn digit_char_exec(d: u64) -> (c: char)
    requires
        d < 10,
    ensures
        c == digit_char(d as int),
{
    if d == 0 {
        '0'
    } else if d == 1 {
        '1'
    } else if d == 2 {
        '2'
    } else if d == 3 {
        '3'
    } else if d == 4 {
        '4'
    } else if d == 5 {
        '5'
    } else if d == 6 {
        '6'
    } else if d == 7 {
        '7'
    } else if d == 8 {
        '8'
    } else {
        '9'
    }
}

/// Appends the decimal representation of `n`.
pub fn push_decimal(out: &mut String, n: u64)
    ensures
        final(out)@ == old(out)@ + decimal(n as nat),
    decreases n,
{
    if n >= 10 {
        push_decimal(out, n / 10);
    }
    push_char(out, digit_char_exec(n % 10));
    assert(out@ =~= old(out)@ + decimal(n as nat));
}


// ---------------------------------------------------------------------------
// Trimming ranges, UTF-8 widths
// ---------------------------------------------------------------------------

/// Bounds of `trim_start(s[lo..hi])` within `s`.
pub fn trim_start_range(s: &Vec<char>, lo: usize, hi: usize) -> (a: usize)
    requires
        lo <= hi <= s.len(),
    ensures
        lo <= a <= hi,
        a == lo + lead_count(s@.subrange(lo as int, hi as int), |c: char| is_ws(c)),
        s@.subrange(a as int, hi as int) == trim_start(s@.subrange(lo as int, hi as int)),
{
    let a = skip_ws(s, lo, hi);
    proof {
        let t = s@.subrange(lo as int, hi as int);
        assert(t.subrange(a - lo, t.len() as int) =~= s@.subrange(a as int, hi as int));
    }
    a
}

/// Bounds of `trim(s[lo..hi])` within `s`.
pub fn trim_range(s: &Vec<char>, lo: usize, hi: usize) -> (r: (usize, usize))
    requires
        lo <= hi <= s.len(),
    ensures
        lo <= r.0 <= r.1 <= hi,
        s@.subrange(r.0 as int, r.1 as int) == trim(s@.subrange(lo as int, hi as int)),
{
    let a = trim_start_range(s, lo, hi);
    let b = trim_ws_end(s, a, hi);
    proof {
        let u = s@.subrange(a as int, hi as int);
        assert(u.subrange(0, u.len() - trail_count(u, |c: char| is_ws(c))) =~= s@.subrange(
            a as int,
            b as int,
        ));
    }
    (a, b)
}

/// Bounds of `trim_end(s[lo..hi])` within `s`: the returned end.
pub fn trim_end_range(s: &Vec<char>, lo: usize, hi: usize) -> (b: usize)
    requires
        lo <= hi <= s.len(),
    ensures
        lo <= b <= hi,
        s@.subrange(lo as int, b as int) == trim_end(s@.subrange(lo as int, hi as int)),
{
    let b = trim_ws_end(s, lo, hi);
    proof {
        let u = s@.subrange(lo as int, hi as int);
        assert(u.subrange(0, u.len() - trail_count(u, |c: char| is_ws(c))) =~= s@.subrange(
            lo as int,
            b as int,
        ));
    }
    b
}

/// Number of bytes UTF-8 takes for `c`.
pub open spec fn char_width(c: char) -> nat {
    let u = c as u32;
    if u < 0x80 {
        1
    } else if u < 0x800 {
        2
    } else if u < 0x10000 {
        3
    } else {
        4
    }
}

/// Number of bytes UTF-8 takes for `s`: what `str::len` reports.
pub open spec fn utf8_len(s: Seq<char>) -> nat
    decreases s.len(),
{
    if s.len() == 0 {
        0
    } else {
        utf8_len(s.drop_last()) + char_width(s.last())
    }
}

pub proof fn lemma_utf8_len_add(x: Seq<char>, y: Seq<char>)
    ensures
        utf8_len(x + y) == utf8_len(x) + utf8_len(y),
    decreases y.len(),
{
    if y.len() > 0 {
        assert((x + y).drop_last() =~= x + y.drop_last());
        lemma_utf8_len_add(x, y.drop_last());
    } else {
        assert(x + y =~= x);
    }
}

pub proof fn lemma_utf8_len_subrange(s: Seq<char>, a: int, b: int)
    requires
        0 <= a <= b <= s.len(),
    ensures
        utf8_len(s.subrange(a, b)) <= utf8_len(s),
{
    let p = s.subrange(0, a);
    let m = s.subrange(a, b);
    let q = s.subrange(b, s.len() as int);
    assert(s =~= p + m + q);
    lemma_utf8_len_add(p, m);
    lemma_utf8_len_add(p + m, q);
}

/// `utf8_len(s[lo..hi])`.
pub fn utf8_len_range(s: &Vec<char>, lo: usize, hi: usize) -> (n: usize)
    requires
        lo <= hi <= s.len(),
        utf8_len(s@) <= usize::MAX,
    ensures
        n == utf8_len(s@.subrange(lo as int, hi as int)),
{
    let mut n: usize = 0;
    let mut i = lo;
    while i < hi
        invariant
            lo <= i <= hi <= s.len(),
            utf8_len(s@) <= usize::MAX,
            n == utf8_len(s@.subrange(lo as int, i as int)),
        decreases hi - i,
    {
        let u = s[i] as u32;
        let w: usize = if u < 0x80 {
            1
        } else if u < 0x800 {
            2
        } else if u < 0x10000 {
            3
        } else {
            4
        };
        proof {
            assert(s@.subrange(lo as int, i + 1).drop_last() =~= s@.subrange(lo as int, i as int));
            lemma_utf8_len_subrange(s@, lo as int, i + 1);
        }
        n = n + w;
        i += 1;
    }
    n
}


/// Whether `s[lo..hi]` starts with `p`.
pub fn starts_with_range(s: &Vec<char>, lo: usize, hi: usize, p: &Vec<char>) -> (b: bool)
    requires
        lo <= hi <= s.len(),
    ensures
        b == starts_with(s@.subrange(lo as int, hi as int), p@),
{
    if p.len() > hi - lo {
        return false;
    }
    let b = matches_at_exec(s, p, lo);
    assert(s@.subrange(lo as int, hi as int).subrange(0, p.len() as int) =~= s@.subrange(
        lo as int,
        lo + p.len(),
    ));
    b
}

/// Whether `p` occurs in `s[lo..hi]`.
pub fn contains_range(s: &Vec<char>, lo: usize, hi: usize, p: &Vec<char>) -> (b: bool)
    requires
        lo <= hi <= s.len(),
    ensures
        b == contains_sub(s@.subrange(lo as int, hi as int), p@),
{
    find_in(s, lo, hi, p).is_some()
}

} // verus!
