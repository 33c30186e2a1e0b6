//! Dashboard rendering: HTML insight cards and the issue tallies behind the
//! metrics row.

use vstd::prelude::*;

use crate::stacks::strings_view;
use crate::text::{chars_of, contains_sub, lemma_contains_left, lemma_contains_middle, lemma_contains_right, push_all, push_char, trim, trim_range};

verus! {

// ---------------------------------------------------------------------------
// Text helpers
// ---------------------------------------------------------------------------

/// Appends `s`.
pub fn push_str(out: &mut String, s: &str)
    ensures
        final(out)@ == old(out)@ + s@,
{
    push_all(out, &chars_of(s));
}

/// Whether `a` and `b` hold the same text.
pub fn text_eq(a: &str, b: &str) -> (r: bool)
    ensures
        r == (a@ == b@),
{
    let x = chars_of(a);
    let y = chars_of(b);
    if x.len() != y.len() {
        return false;
    }
    let mut i: usize = 0;
    while i < x.len()
        invariant
            i <= x.len(),
            x.len() == y.len(),
            x@ == a@,
            y@ == b@,
            forall|j: int| 0 <= j < i ==> x@[j] == y@[j],
        decreases x.len() - i,
    {
        if x[i] != y[i] {
            assert(x@[i as int] != y@[i as int]);
            return false;
        }
        i += 1;
    }
    assert(x@ =~= y@);
    true
}

// ---------------------------------------------------------------------------
// HTML escaping
// ---------------------------------------------------------------------------

/// The entity a character becomes in HTML text and attribute values.
pub open spec fn escape_char(c: char) -> Seq<char> {
    if c == '&' {
        seq!['&', 'a', 'm', 'p', ';']
    } else if c == '<' {
        seq!['&', 'l', 't', ';']
    } else if c == '>' {
        seq!['&', 'g', 't', ';']
    } else if c == '"' {
        seq!['&', 'q', 'u', 'o', 't', ';']
    } else if c == '\'' {
        seq!['&', '#', '3', '9', ';']
    } else {
        seq![c]
    }
}

/// `s` with `&`, `<`, `>`, `"` and `'` replaced by their entities.
pub open spec fn escape_html_spec(s: Seq<char>) -> Seq<char>
    decreases s.len(),
{
    if s.len() == 0 {
        seq![]
    } else {
        escape_html_spec(s.drop_last()) + escape_char(s.last())
    }
}

pub open spec fn is_markup_char(c: char) -> bool {
    c == '<' || c == '>' || c == '"' || c == '\''
}

/// Appends the escape of `src`.
pub fn push_escaped(out: &mut String, src: &Vec<char>)
    ensures
        final(out)@ == old(out)@ + escape_html_spec(src@),
{
    let ghost start = out@;
    let mut i: usize = 0;
    assert(src@.subrange(0, 0) =~= seq![]);
    assert(start + escape_html_spec(seq![]) =~= start);
    while i < src.len()
        invariant
            i <= src.len(),
            out@ == start + escape_html_spec(src@.subrange(0, i as int)),
        decreases src.len() - i,
    {
        let c = src[i];
        let ghost before = out@;
        if c == '&' {
            push_char(out, '&');
            push_char(out, 'a');
            push_char(out, 'm');
            push_char(out, 'p');
            push_char(out, ';');
        } else if c == '<' {
            push_char(out, '&');
            push_char(out, 'l');
            push_char(out, 't');
            push_char(out, ';');
        } else if c == '>' {
            push_char(out, '&');
            push_char(out, 'g');
            push_char(out, 't');
            push_char(out, ';');
        } else if c == '"' {
            push_char(out, '&');
            push_char(out, 'q');
            push_char(out, 'u');
            push_char(out, 'o');
            push_char(out, 't');
            push_char(out, ';');
        } else if c == '\'' {
            push_char(out, '&');
            push_char(out, '#');
            push_char(out, '3');
            push_char(out, '9');
            push_char(out, ';');
        } else {
            push_char(out, c);
        }
        assert(out@ =~= before + escape_char(c));
        assert(src@.subrange(0, i + 1).drop_last() =~= src@.subrange(0, i as int));
        assert(src@.subrange(0, i + 1).last() == c);
        assert(out@ =~= start + escape_html_spec(src@.subrange(0, i + 1)));
        i += 1;
    }
    assert(src@.subrange(0, src.len() as int) =~= src@);
}

/// HTML-escapes `input`: `&`, `<`, `>`, `"` and `'` become entities.
pub fn escape_html(input: &str) -> (r: String)
    ensures
        r@ == escape_html_spec(input@),
{
    let mut out = String::new();
    push_escaped(&mut out, &chars_of(input));
    assert(out@ =~= escape_html_spec(input@));
    out
}

/// Escaped text holds no raw markup character, and text without `&` or
/// markup characters is left as it is.
pub proof fn lemma_escape_html(s: Seq<char>)
    ensures
        forall|i: int| 0 <= i < escape_html_spec(s).len() ==> !is_markup_char(
            #[trigger] escape_html_spec(s)[i],
        ),
        (forall|i: int| 0 <= i < s.len() ==> !is_markup_char(#[trigger] s[i]) && s[i] != '&')
            ==> escape_html_spec(s) == s,
    decreases s.len(),
{
    if s.len() > 0 {
        lemma_escape_html(s.drop_last());
        let a = escape_html_spec(s.drop_last());
        let b = escape_char(s.last());
        assert forall|i: int| 0 <= i < (a + b).len() implies !is_markup_char(#[trigger] (a + b)[i]) by {
            if i >= a.len() {
                assert((a + b)[i] == b[i - a.len()]);
            } else {
                assert((a + b)[i] == a[i]);
            }
        }
        if forall|i: int| 0 <= i < s.len() ==> !is_markup_char(#[trigger] s[i]) && s[i] != '&' {
            assert forall|i: int| 0 <= i < s.drop_last().len() implies !is_markup_char(
                #[trigger] s.drop_last()[i],
            ) && s.drop_last()[i] != '&' by {
                assert(s.drop_last()[i] == s[i]);
            }
            assert(!is_markup_char(s[s.len() - 1]) && s[s.len() - 1] != '&');
            assert(a + b =~= s);
        }
    } else {
        assert(escape_html_spec(s) =~= s);
    }
}

// ---------------------------------------------------------------------------
// Labels
// ---------------------------------------------------------------------------

/// The card title for an issue code.
pub open spec fn issue_label_text(issue: Seq<char>) -> Seq<char> {
    if issue == "cpu_bottleneck"@ {
        "CPU bottleneck is reducing accelerator throughput"@
    } else if issue == "io_pressure"@ {
        "I/O wait is stalling work (storage or NFS pressure)"@
    } else if issue == "gpu_underfed"@ {
        "GPU is idle too often — pipeline not feeding the accelerator"@
    } else if issue == "telemetry_snapshot"@ {
        "Live telemetry snapshot (no strong bottleneck yet)"@
    } else if issue == "scheduling_inefficiency"@ {
        "Task scheduling is delaying compute"@
    } else if issue == "blocking_delay"@ {
        "Blocking operations are stalling pipeline"@
    } else {
        "Resource inefficiency detected"@
    }
}

/// The card title for an issue code.
pub fn issue_label(issue: &str) -> (r: &'static str)
    ensures
        r@ == issue_label_text(issue@),
{
    if text_eq(issue, "cpu_bottleneck") {
        "CPU bottleneck is reducing accelerator throughput"
    } else if text_eq(issue, "io_pressure") {
        "I/O wait is stalling work (storage or NFS pressure)"
    } else if text_eq(issue, "gpu_underfed") {
        "GPU is idle too often — pipeline not feeding the accelerator"
    } else if text_eq(issue, "telemetry_snapshot") {
        "Live telemetry snapshot (no strong bottleneck yet)"
    } else if text_eq(issue, "scheduling_inefficiency") {
        "Task scheduling is delaying compute"
    } else if text_eq(issue, "blocking_delay") {
        "Blocking operations are stalling pipeline"
    } else {
        "Resource inefficiency detected"
    }
}

// ---------------------------------------------------------------------------
// Card sections
// ---------------------------------------------------------------------------

/// A titled paragraph of a card; nothing where the body is empty.
pub open spec fn section_block_spec(title: Seq<char>, body: Seq<char>, class: Seq<char>) -> Seq<
    char,
> {
    if body.len() == 0 {
        seq![]
    } else {
        "<section class=\"insight-section "@ + class + "\"><h4 class=\"insight-sub\">"@
            + escape_html_spec(title) + "</h4><p class=\"insight-section-body\">"@
            + escape_html_spec(body) + "</p></section>"@
    }
}

/// A titled paragraph of a card; empty where `body` is.
pub fn section_block(title: &str, body: &str, class: &str) -> (r: String)
    ensures
        r@ == section_block_spec(title@, body@, class@),
{
    let mut out = String::new();
    if body.is_empty() {
        assert(out@ =~= section_block_spec(title@, body@, class@));
        return out;
    }
    push_str(&mut out, "<section class=\"insight-section ");
    push_str(&mut out, class);
    push_str(&mut out, "\"><h4 class=\"insight-sub\">");
    push_escaped(&mut out, &chars_of(title));
    push_str(&mut out, "</h4><p class=\"insight-section-body\">");
    push_escaped(&mut out, &chars_of(body));
    push_str(&mut out, "</p></section>");
    assert(out@ =~= section_block_spec(title@, body@, class@));
    out
}

/// The list items of a card's suggestions, each escaped; a placeholder item
/// where there are none.
pub open spec fn suggestions_html(items: Seq<Seq<char>>) -> Seq<char> {
    if items.len() == 0 {
        "<li>No suggestions provided</li>"@
    } else {
        suggestion_items(items)
    }
}

pub open spec fn suggestion_items(items: Seq<Seq<char>>) -> Seq<char>
    decreases items.len(),
{
    if items.len() == 0 {
        seq![]
    } else {
        suggestion_items(items.drop_last()) + "<li>"@ + escape_html_spec(items.last()) + "</li>"@
    }
}

fn render_suggestions(items: &Vec<String>) -> (r: String)
    ensures
        r@ == suggestions_html(strings_view(items@)),
{
    let mut out = String::new();
    if items.len() == 0 {
        push_str(&mut out, "<li>No suggestions provided</li>");
        assert(out@ =~= suggestions_html(strings_view(items@)));
        return out;
    }
    let ghost v = strings_view(items@);
    let mut i: usize = 0;
    assert(v.subrange(0, 0) =~= seq![]);
    assert(out@ =~= suggestion_items(v.subrange(0, 0)));
    while i < items.len()
        invariant
            i <= items.len(),
            v == strings_view(items@),
            out@ == suggestion_items(v.subrange(0, i as int)),
        decreases items.len() - i,
    {
        push_str(&mut out, "<li>");
        push_escaped(&mut out, &chars_of(&items[i]));
        push_str(&mut out, "</li>");
        assert(v.subrange(0, i + 1).drop_last() =~= v.subrange(0, i as int));
        assert(v.subrange(0, i + 1).last() == items@[i as int]@);
        i += 1;
    }
    assert(v.subrange(0, items.len() as int) =~= v);
    out
}

/// The text fields of an insight that a card shows.
pub struct CardFields {
    pub issue: String,
    pub message: String,
    /// When the insight was observed; a card says `now` where it is absent.
    pub ts: Option<String>,
    pub data_summary: String,
    pub impact_summary: String,
    pub suggestions: Vec<String>,
}

pub open spec fn ts_text(ts: Option<String>) -> Seq<char> {
    match ts {
        Some(t) => t@,
        None => "now"@,
    }
}

/// The HTML of an insight card. `severity` is the card's severity class,
/// `confidence` and `confidence_pct` the confidence as it is printed in the
/// row and in the bar's width.
pub open spec fn card_html_spec(
    issue: Seq<char>,
    message: Seq<char>,
    ts: Seq<char>,
    data_summary: Seq<char>,
    impact_summary: Seq<char>,
    suggestions: Seq<Seq<char>>,
    severity: Seq<char>,
    confidence: Seq<char>,
    confidence_pct: Seq<char>,
) -> Seq<char> {
    "<article class=\"insight-card severity-"@
        + severity
        + "\">\n  <header class=\"insight-header\">\n    <div class=\"issue-chip\">"@
        + escape_html_spec(issue)
        + "</div>\n    <div class=\"severity-chip\">"@
        + severity
        + "</div>\n  </header>\n  <h3 class=\"insight-title\">"@
        + escape_html_spec(issue_label_text(issue))
        + "</h3>\n  <p class=\"insight-message\">"@
        + escape_html_spec(message)
        + "</p>\n  "@
        + section_block_spec("What the data shows"@, trim(data_summary), "insight-data"@)
        + "\n  "@
        + section_block_spec("Why it matters"@, trim(impact_summary), "insight-impact"@)
        + "\n  <div class=\"confidence-row\">\n    <span>Confidence</span>\n    <span>"@
        + confidence
        + "</span>\n  </div>\n  <div class=\"confidence-bar\">\n    <div class=\"confidence-fill\" style=\"width: "@
        + confidence_pct
        + "%\"></div>\n  </div>\n  <div class=\"meta-row\">Observed: "@
        + escape_html_spec(ts)
        + "</div>\n  <h4 class=\"insight-sub\">What to do next</h4>\n  <ol class=\"suggestions-list\">"@
        + suggestions_html(suggestions)
        + "</ol>\n</article>"@
}

proof fn lemma_impact_section(body: Seq<char>)
    requires
        body.len() > 0,
    ensures
        section_block_spec("Why it matters"@, body, "insight-impact"@)
            == "<section class=\"insight-section insight-impact\"><h4 class=\"insight-sub\">"@
            + escape_html_spec("Why it matters"@) + "</h4><p class=\"insight-section-body\">"@
            + escape_html_spec(body) + "</p></section>"@,
{
    reveal_strlit("<section class=\"insight-section ");
    reveal_strlit("\"><h4 class=\"insight-sub\">");
    reveal_strlit("insight-impact");
    reveal_strlit("<section class=\"insight-section insight-impact\"><h4 class=\"insight-sub\">");
    assert("<section class=\"insight-section "@ + "insight-impact"@ + "\"><h4 class=\"insight-sub\">"@
        =~= "<section class=\"insight-section insight-impact\"><h4 class=\"insight-sub\">"@);
}

proof fn lemma_data_section(body: Seq<char>)
    requires
        body.len() > 0,
    ensures
        section_block_spec("What the data shows"@, body, "insight-data"@)
            == "<section class=\"insight-section insight-data\"><h4 class=\"insight-sub\">"@
            + escape_html_spec("What the data shows"@) + "</h4><p class=\"insight-section-body\">"@
            + escape_html_spec(body) + "</p></section>"@,
{
    reveal_strlit("<section class=\"insight-section ");
    reveal_strlit("\"><h4 class=\"insight-sub\">");
    reveal_strlit("insight-data");
    reveal_strlit("<section class=\"insight-section insight-data\"><h4 class=\"insight-sub\">");
    assert("<section class=\"insight-section "@ + "insight-data"@ + "\"><h4 class=\"insight-sub\">"@
        =~= "<section class=\"insight-section insight-data\"><h4 class=\"insight-sub\">"@);
}

/// A card shows the message and the issue code, each escaped.
pub proof fn lemma_card_message(
    issue: Seq<char>,
    message: Seq<char>,
    ts: Seq<char>,
    data_summary: Seq<char>,
    impact_summary: Seq<char>,
    suggestions: Seq<Seq<char>>,
    severity: Seq<char>,
    confidence: Seq<char>,
    confidence_pct: Seq<char>,
)
    ensures
        contains_sub(
            card_html_spec(issue, message, ts, data_summary, impact_summary, suggestions, severity,
                confidence, confidence_pct),
            escape_html_spec(message),
        ),
        contains_sub(
            card_html_spec(issue, message, ts, data_summary, impact_summary, suggestions, severity,
                confidence, confidence_pct),
            escape_html_spec(issue),
        ),
{
    let card = card_html_spec(issue, message, ts, data_summary, impact_summary, suggestions,
        severity, confidence, confidence_pct);
    let m = escape_html_spec(message);
    let e = escape_html_spec(issue);
    let c1 = "<article class=\"insight-card severity-"@ + severity
        + "\">\n  <header class=\"insight-header\">\n    <div class=\"issue-chip\">"@;
    let c2 = c1 + e;
    let c3 = c2 + "</div>\n    <div class=\"severity-chip\">"@ + severity
        + "</div>\n  </header>\n  <h3 class=\"insight-title\">"@ + escape_html_spec(
        issue_label_text(issue),
    ) + "</h3>\n  <p class=\"insight-message\">"@;
    let c4 = c3 + m;
    let data = section_block_spec("What the data shows"@, trim(data_summary), "insight-data"@);
    let impact = section_block_spec("Why it matters"@, trim(impact_summary), "insight-impact"@);
    let l1 = "\n  <div class=\"confidence-row\">\n    <span>Confidence</span>\n    <span>"@;
    let l2 = "</span>\n  </div>\n  <div class=\"confidence-bar\">\n    <div class=\"confidence-fill\" style=\"width: "@;
    let l3 = "%\"></div>\n  </div>\n  <div class=\"meta-row\">Observed: "@;
    let l4 = "</div>\n  <h4 class=\"insight-sub\">What to do next</h4>\n  <ol class=\"suggestions-list\">"@;
    let l5 = "</ol>\n</article>"@;
    let nl = "\n  "@;
    let p0 = "</p>\n  "@;
    let sugg = suggestions_html(suggestions);
    let ts_e = escape_html_spec(ts);
    assert(card == c4 + p0 + data + nl + impact + l1 + confidence + l2 + confidence_pct + l3 + ts_e
        + l4 + sugg + l5);
    lemma_contains_middle(Seq::empty(), m, Seq::empty());
    assert(Seq::<char>::empty() + m + Seq::<char>::empty() =~= m);
    lemma_contains_right(c3, m, m);
    lemma_contains_middle(Seq::empty(), e, Seq::empty());
    assert(Seq::<char>::empty() + e + Seq::<char>::empty() =~= e);
    lemma_contains_right(c1, e, e);
    let c2b = c2 + "</div>\n    <div class=\"severity-chip\">"@;
    lemma_contains_left(c2, "</div>\n    <div class=\"severity-chip\">"@, e);
    lemma_contains_left(c2b, severity, e);
    lemma_contains_left(c2b + severity, "</div>\n  </header>\n  <h3 class=\"insight-title\">"@, e);
    lemma_contains_left(c2b + severity + "</div>\n  </header>\n  <h3 class=\"insight-title\">"@,
        escape_html_spec(issue_label_text(issue)), e);
    lemma_contains_left(c2b + severity + "</div>\n  </header>\n  <h3 class=\"insight-title\">"@
        + escape_html_spec(issue_label_text(issue)), "</h3>\n  <p class=\"insight-message\">"@, e);
    lemma_contains_left(c3, m, e);
    lemma_contains_left(c4, p0, m);
    lemma_contains_left(c4, p0, e);
    lemma_contains_left(c4 + p0, data, m);
    lemma_contains_left(c4 + p0, data, e);
    lemma_contains_left(c4 + p0 + data, nl, m);
    lemma_contains_left(c4 + p0 + data, nl, e);
    lemma_contains_left(c4 + p0 + data + nl, impact, m);
    lemma_contains_left(c4 + p0 + data + nl, impact, e);
    let w = c4 + p0 + data + nl + impact;
    lemma_contains_left(w, l1, m);
    lemma_contains_left(w, l1, e);
    lemma_contains_left(w + l1, confidence, m);
    lemma_contains_left(w + l1, confidence, e);
    lemma_contains_left(w + l1 + confidence, l2, m);
    lemma_contains_left(w + l1 + confidence, l2, e);
    lemma_contains_left(w + l1 + confidence + l2, confidence_pct, m);
    lemma_contains_left(w + l1 + confidence + l2, confidence_pct, e);
    lemma_contains_left(w + l1 + confidence + l2 + confidence_pct, l3, m);
    lemma_contains_left(w + l1 + confidence + l2 + confidence_pct, l3, e);
    lemma_contains_left(w + l1 + confidence + l2 + confidence_pct + l3, ts_e, m);
    lemma_contains_left(w + l1 + confidence + l2 + confidence_pct + l3, ts_e, e);
    lemma_contains_left(w + l1 + confidence + l2 + confidence_pct + l3 + ts_e, l4, m);
    lemma_contains_left(w + l1 + confidence + l2 + confidence_pct + l3 + ts_e, l4, e);
    lemma_contains_left(w + l1 + confidence + l2 + confidence_pct + l3 + ts_e + l4, sugg, m);
    lemma_contains_left(w + l1 + confidence + l2 + confidence_pct + l3 + ts_e + l4, sugg, e);
    lemma_contains_left(w + l1 + confidence + l2 + confidence_pct + l3 + ts_e + l4 + sugg, l5, m);
    lemma_contains_left(w + l1 + confidence + l2 + confidence_pct + l3 + ts_e + l4 + sugg, l5, e);
}

/// A card shows, below the message, the trimmed data summary and the
/// trimmed impact summary, each escaped, in sections titled "What the data
/// shows" and "Why it matters", whenever they are not blank.
pub proof fn lemma_card_sections(
    issue: Seq<char>,
    message: Seq<char>,
    ts: Seq<char>,
    data_summary: Seq<char>,
    impact_summary: Seq<char>,
    suggestions: Seq<Seq<char>>,
    severity: Seq<char>,
    confidence: Seq<char>,
    confidence_pct: Seq<char>,
)
    ensures
        trim(impact_summary).len() > 0 ==> contains_sub(
            card_html_spec(issue, message, ts, data_summary, impact_summary, suggestions, severity,
                confidence, confidence_pct),
            "<section class=\"insight-section insight-impact\"><h4 class=\"insight-sub\">"@
                + escape_html_spec("Why it matters"@) + "</h4><p class=\"insight-section-body\">"@
                + escape_html_spec(trim(impact_summary)) + "</p></section>"@,
        ),
        trim(data_summary).len() > 0 ==> contains_sub(
            card_html_spec(issue, message, ts, data_summary, impact_summary, suggestions, severity,
                confidence, confidence_pct),
            "<section class=\"insight-section insight-data\"><h4 class=\"insight-sub\">"@
                + escape_html_spec("What the data shows"@)
                + "</h4><p class=\"insight-section-body\">"@ + escape_html_spec(trim(data_summary))
                + "</p></section>"@,
        ),
{
    let card = card_html_spec(issue, message, ts, data_summary, impact_summary, suggestions,
        severity, confidence, confidence_pct);
    let data = section_block_spec("What the data shows"@, trim(data_summary), "insight-data"@);
    let impact = section_block_spec("Why it matters"@, trim(impact_summary), "insight-impact"@);
    let before_data = "<article class=\"insight-card severity-"@
        + severity
        + "\">\n  <header class=\"insight-header\">\n    <div class=\"issue-chip\">"@
        + escape_html_spec(issue)
        + "</div>\n    <div class=\"severity-chip\">"@
        + severity
        + "</div>\n  </header>\n  <h3 class=\"insight-title\">"@
        + escape_html_spec(issue_label_text(issue))
        + "</h3>\n  <p class=\"insight-message\">"@
        + escape_html_spec(message)
        + "</p>\n  "@;
    let l1 = "\n  <div class=\"confidence-row\">\n    <span>Confidence</span>\n    <span>"@;
    let l2 = "</span>\n  </div>\n  <div class=\"confidence-bar\">\n    <div class=\"confidence-fill\" style=\"width: "@;
    let l3 = "%\"></div>\n  </div>\n  <div class=\"meta-row\">Observed: "@;
    let l4 = "</div>\n  <h4 class=\"insight-sub\">What to do next</h4>\n  <ol class=\"suggestions-list\">"@;
    let l5 = "</ol>\n</article>"@;
    let nl = "\n  "@;
    let sugg = suggestions_html(suggestions);
    let ts_e = escape_html_spec(ts);
    let with_data = before_data + data;
    let before_impact = with_data + nl;
    let with_impact = before_impact + impact;
    assert(card == with_impact + l1 + confidence + l2 + confidence_pct + l3 + ts_e + l4 + sugg + l5);
    if trim(impact_summary).len() > 0 {
        lemma_impact_section(trim(impact_summary));
        lemma_contains_middle(Seq::empty(), impact, Seq::empty());
        assert(Seq::<char>::empty() + impact + Seq::<char>::empty() =~= impact);
        lemma_contains_right(before_impact, impact, impact);
        lemma_contains_left(with_impact, l1, impact);
        lemma_contains_left(with_impact + l1, confidence, impact);
        lemma_contains_left(with_impact + l1 + confidence, l2, impact);
        lemma_contains_left(with_impact + l1 + confidence + l2, confidence_pct, impact);
        lemma_contains_left(with_impact + l1 + confidence + l2 + confidence_pct, l3, impact);
        lemma_contains_left(with_impact + l1 + confidence + l2 + confidence_pct + l3, ts_e, impact);
        lemma_contains_left(with_impact + l1 + confidence + l2 + confidence_pct + l3 + ts_e, l4, impact);
        lemma_contains_left(with_impact + l1 + confidence + l2 + confidence_pct + l3 + ts_e + l4, sugg, impact);
        lemma_contains_left(with_impact + l1 + confidence + l2 + confidence_pct + l3 + ts_e + l4 + sugg, l5, impact);
    }
    if trim(data_summary).len() > 0 {
        lemma_data_section(trim(data_summary));
        lemma_contains_middle(Seq::empty(), data, Seq::empty());
        assert(Seq::<char>::empty() + data + Seq::<char>::empty() =~= data);
        lemma_contains_right(before_data, data, data);
        lemma_contains_left(with_data, nl, data);
        lemma_contains_left(before_impact, impact, data);
        lemma_contains_left(with_impact, l1, data);
        lemma_contains_left(with_impact + l1, confidence, data);
        lemma_contains_left(with_impact + l1 + confidence, l2, data);
        lemma_contains_left(with_impact + l1 + confidence + l2, confidence_pct, data);
        lemma_contains_left(with_impact + l1 + confidence + l2 + confidence_pct, l3, data);
        lemma_contains_left(with_impact + l1 + confidence + l2 + confidence_pct + l3, ts_e, data);
        lemma_contains_left(with_impact + l1 + confidence + l2 + confidence_pct + l3 + ts_e, l4, data);
        lemma_contains_left(with_impact + l1 + confidence + l2 + confidence_pct + l3 + ts_e + l4, sugg, data);
        lemma_contains_left(with_impact + l1 + confidence + l2 + confidence_pct + l3 + ts_e + l4 + sugg, l5, data);
    }
}

fn trimmed_copy(s: &str) -> (r: String)
    ensures
        r@ == trim(s@),
{
    let v = chars_of(s);
    let (a, b) = trim_range(&v, 0, v.len());
    assert(v@.subrange(0, v.len() as int) =~= v@);
    let mut out = String::new();
    crate::text::push_range(&mut out, &v, a, b);
    assert(out@ =~= trim(s@));
    out
}

/// Renders the HTML card of an insight.
pub fn insight_card_html(card: &CardFields, severity: &str, confidence: &str, confidence_pct: &str)
    -> (r: String)
    ensures
        r@ == card_html_spec(
            card.issue@,
            card.message@,
            ts_text(card.ts),
            card.data_summary@,
            card.impact_summary@,
            strings_view(card.suggestions@),
            severity@,
            confidence@,
            confidence_pct@,
        ),
{
    let title = issue_label(card.issue.as_str());
    let ts: &str = match &card.ts {
        Some(t) => t.as_str(),
        None => "now",
    };
    let data_block = section_block("What the data shows", trimmed_copy(card.data_summary.as_str()).as_str(), "insight-data");
    let impact_block = section_block("Why it matters", trimmed_copy(card.impact_summary.as_str()).as_str(), "insight-impact");
    let items = render_suggestions(&card.suggestions);
    let mut out = String::new();
    push_str(&mut out, "<article class=\"insight-card severity-");
    push_str(&mut out, severity);
    push_str(&mut out, "\">\n  <header class=\"insight-header\">\n    <div class=\"issue-chip\">");
    push_escaped(&mut out, &chars_of(&card.issue));
    push_str(&mut out, "</div>\n    <div class=\"severity-chip\">");
    push_str(&mut out, severity);
    push_str(&mut out, "</div>\n  </header>\n  <h3 class=\"insight-title\">");
    push_escaped(&mut out, &chars_of(title));
    push_str(&mut out, "</h3>\n  <p class=\"insight-message\">");
    push_escaped(&mut out, &chars_of(&card.message));
    push_str(&mut out, "</p>\n  ");
    push_all(&mut out, &chars_of(&data_block));
    push_str(&mut out, "\n  ");
    push_all(&mut out, &chars_of(&impact_block));
    push_str(&mut out, "\n  <div class=\"confidence-row\">\n    <span>Confidence</span>\n    <span>");
    push_str(&mut out, confidence);
    push_str(&mut out, "</span>\n  </div>\n  <div class=\"confidence-bar\">\n    <div class=\"confidence-fill\" style=\"width: ");
    push_str(&mut out, confidence_pct);
    push_str(&mut out, "%\"></div>\n  </div>\n  <div class=\"meta-row\">Observed: ");
    push_escaped(&mut out, &chars_of(ts));
    push_str(&mut out, "</div>\n  <h4 class=\"insight-sub\">What to do next</h4>\n  <ol class=\"suggestions-list\">");
    push_all(&mut out, &chars_of(&items));
    push_str(&mut out, "</ol>\n</article>");
    assert(out@ =~= card_html_spec(
        card.issue@,
        card.message@,
        ts_text(card.ts),
        card.data_summary@,
        card.impact_summary@,
        strings_view(card.suggestions@),
        severity@,
        confidence@,
        confidence_pct@,
    ));
    out
}

// ---------------------------------------------------------------------------
// Tallies for the metrics row
// ---------------------------------------------------------------------------

/// Number of entries of `s` equal to `code`.
pub open spec fn count_eq(s: Seq<Seq<char>>, code: Seq<char>) -> nat
    decreases s.len(),
{
    if s.len() == 0 {
        0
    } else {
        count_eq(s.drop_last(), code) + if s.last() == code {
            1nat
        } else {
            0nat
        }
    }
}

proof fn lemma_count_eq_le(s: Seq<Seq<char>>, code: Seq<char>)
    ensures
        count_eq(s, code) <= s.len(),
    decreases s.len(),
{
    if s.len() > 0 {
        lemma_count_eq_le(s.drop_last(), code);
    }
}

/// How many insights of each kind a feed holds. Snapshots are
/// informational: `active_issues` counts every other insight.
#[derive(Debug, Clone, Copy, PartialEq, Eq, Structural)]
pub struct InsightCounts {
    pub snapshot_count: usize,
    pub active_issues: usize,
    pub cpu_bottleneck: usize,
    pub io_pressure: usize,
    pub gpu_underfed: usize,
}

fn count_code(issues: &[String], code: &str) -> (n: usize)
    ensures
        n == count_eq(strings_view(issues@), code@),
{
    let ghost v = strings_view(issues@);
    let mut n: usize = 0;
    let mut i: usize = 0;
    assert(v.subrange(0, 0) =~= seq![]);
    while i < issues.len()
        invariant
            i <= issues@.len(),
            v == strings_view(issues@),
            n == count_eq(v.subrange(0, i as int), code@),
            n <= i,
        decreases issues@.len() - i,
    {
        assert(v.subrange(0, i + 1).drop_last() =~= v.subrange(0, i as int));
        assert(v.subrange(0, i + 1).last() == issues@[i as int]@);
        if text_eq(issues[i].as_str(), code) {
            n += 1;
        }
        i += 1;
    }
    assert(v.subrange(0, issues@.len() as int) =~= v);
    n
}

/// Tallies the issue codes of a feed of insights.
pub fn count_insights(issues: &[String]) -> (c: InsightCounts)
    ensures
        c.snapshot_count == count_eq(strings_view(issues@), "telemetry_snapshot"@),
        c.active_issues == issues@.len() - c.snapshot_count,
        c.cpu_bottleneck == count_eq(strings_view(issues@), "cpu_bottleneck"@),
        c.io_pressure == count_eq(strings_view(issues@), "io_pressure"@),
        c.gpu_underfed == count_eq(strings_view(issues@), "gpu_underfed"@),
{
    let snapshot_count = count_code(issues, "telemetry_snapshot");
    proof {
        lemma_count_eq_le(strings_view(issues@), "telemetry_snapshot"@);
    }
    InsightCounts {
        snapshot_count,
        active_issues: issues.len() - snapshot_count,
        cpu_bottleneck: count_code(issues, "cpu_bottleneck"),
        io_pressure: count_code(issues, "io_pressure"),
        gpu_underfed: count_code(issues, "gpu_underfed"),
    }
}

/// The issue kind that dominates the tallies: the most frequent of the
/// three rules, ties going to the earlier of CPU bottleneck, I/O pressure,
/// underfed GPU; `mixed` where none occurs.
pub open spec fn top_issue_text(cpu: nat, io: nat, gpu: nat) -> Seq<char> {
    if cpu > 0 && cpu >= io && cpu >= gpu {
        "cpu_bottleneck"@
    } else if io > 0 && io >= gpu {
        "io_pressure"@
    } else if gpu > 0 {
        "gpu_underfed"@
    } else {
        "mixed"@
    }
}

pub fn top_issue_from_counts(cpu_bottleneck: usize, io_pressure: usize, gpu_underfed: usize) -> (r:
    &'static str)
    ensures
        r@ == top_issue_text(cpu_bottleneck as nat, io_pressure as nat, gpu_underfed as nat),
{
    if cpu_bottleneck > 0 && cpu_bottleneck >= io_pressure && cpu_bottleneck >= gpu_underfed {
        "cpu_bottleneck"
    } else if io_pressure > 0 && io_pressure >= gpu_underfed {
        "io_pressure"
    } else if gpu_underfed > 0 {
        "gpu_underfed"
    } else {
        "mixed"
    }
}

impl InsightCounts {
    /// The summary's `total`: the active issues (snapshots left out).
    pub fn total(&self) -> (n: usize)
        ensures
            n == self.active_issues,
    {
        self.active_issues
    }

    /// The summary's health where it needs no confidence figures: `stable`
    /// with no active issue; `None` otherwise, the health then following
    /// from the active issues' average confidence.
    pub fn quiet_health(&self) -> (r: Option<&'static str>)
        ensures
            self.active_issues == 0 ==> (r matches Some(h) && h@ == "stable"@),
            self.active_issues > 0 ==> r is None,
    {
        if self.active_issues == 0 {
            Some("stable")
        } else {
            None
        }
    }
}

/// The top issue of a summary: `none` with no active issue, else the
/// dominant kind.
pub fn summary_top_issue(c: &InsightCounts) -> (r: &'static str)
    ensures
        c.active_issues == 0 ==> r@ == "none"@,
        c.active_issues > 0 ==> r@ == top_issue_text(
            c.cpu_bottleneck as nat,
            c.io_pressure as nat,
            c.gpu_underfed as nat,
        ),
{
    if c.active_issues == 0 {
        "none"
    } else {
        top_issue_from_counts(c.cpu_bottleneck, c.io_pressure, c.gpu_underfed)
    }
}

/// The top issue is a kind with the largest count, earlier kinds winning
/// ties; `mixed` exactly when no rule kind occurs.
pub proof fn lemma_top_issue(cpu: nat, io: nat, gpu: nat)
    ensures
        top_issue_text(cpu, io, gpu) == "cpu_bottleneck"@ <== (cpu > 0 && cpu >= io && cpu >= gpu),
        top_issue_text(cpu, io, gpu) == "io_pressure"@ <== (io > cpu && io > 0 && io >= gpu),
        top_issue_text(cpu, io, gpu) == "gpu_underfed"@ <== (gpu > cpu && gpu > io),
        top_issue_text(cpu, io, gpu) == "mixed"@ <== (cpu == 0 && io == 0 && gpu == 0),
{
}

} // verus!
