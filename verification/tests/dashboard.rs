use kernelwhisper::dashboard::{
    count_insights, escape_html, insight_card_html, issue_label, section_block,
    summary_top_issue, top_issue_from_counts, CardFields,
};

#[test]
fn escape_html_replaces_markup() {
    assert_eq!(escape_html("a<b>&\"c'"), "a&lt;b&gt;&amp;&quot;c&#39;");
    assert_eq!(escape_html("plain text"), "plain text");
    assert_eq!(escape_html("&amp;"), "&amp;amp;");
}

#[test]
fn issue_labels() {
    assert_eq!(issue_label("cpu_bottleneck"), "CPU bottleneck is reducing accelerator throughput");
    assert_eq!(issue_label("blocking_delay"), "Blocking operations are stalling pipeline");
    assert_eq!(issue_label("something_else"), "Resource inefficiency detected");
}

#[test]
fn section_block_escapes_and_skips_empty() {
    assert_eq!(section_block("T", "", "c"), "");
    assert_eq!(
        section_block("A&B", "x<y", "insight-data"),
        "<section class=\"insight-section insight-data\"><h4 class=\"insight-sub\">A&amp;B</h4><p class=\"insight-section-body\">x&lt;y</p></section>"
    );
}

#[test]
fn card_html_layout() {
    let card = CardFields {
        issue: "io_pressure".to_string(),
        message: "m<".to_string(),
        ts: None,
        data_summary: "  data  ".to_string(),
        impact_summary: String::new(),
        suggestions: vec![],
    };
    let html = insight_card_html(&card, "warning", "0.50", "50.0");
    let expected = "<article class=\"insight-card severity-warning\">\n  <header class=\"insight-header\">\n    <div class=\"issue-chip\">io_pressure</div>\n    <div class=\"severity-chip\">warning</div>\n  </header>\n  <h3 class=\"insight-title\">I/O wait is stalling work (storage or NFS pressure)</h3>\n  <p class=\"insight-message\">m&lt;</p>\n  <section class=\"insight-section insight-data\"><h4 class=\"insight-sub\">What the data shows</h4><p class=\"insight-section-body\">data</p></section>\n  \n  <div class=\"confidence-row\">\n    <span>Confidence</span>\n    <span>0.50</span>\n  </div>\n  <div class=\"confidence-bar\">\n    <div class=\"confidence-fill\" style=\"width: 50.0%\"></div>\n  </div>\n  <div class=\"meta-row\">Observed: now</div>\n  <h4 class=\"insight-sub\">What to do next</h4>\n  <ol class=\"suggestions-list\"><li>No suggestions provided</li></ol>\n</article>";
    assert_eq!(html, expected);
}

#[test]
fn card_lists_escaped_suggestions() {
    let card = CardFields {
        issue: "x".to_string(),
        message: String::new(),
        ts: Some("t".to_string()),
        data_summary: String::new(),
        impact_summary: String::new(),
        suggestions: vec!["a<".to_string(), "b".to_string()],
    };
    let html = insight_card_html(&card, "low", "0.10", "10.0");
    assert!(html.contains("<ol class=\"suggestions-list\"><li>a&lt;</li><li>b</li></ol>"));
    assert!(html.contains("Observed: t</div>"));
}

fn issues_of(payload: &str) -> Vec<String> {
    let v: serde_json::Value = serde_json::from_str(payload).unwrap();
    v.as_array()
        .unwrap()
        .iter()
        .map(|i| i["issue"].as_str().unwrap().to_string())
        .collect()
}

#[test]
fn tallies_split_active_and_snapshots() {
    let payload = r#"[
        {"issue":"telemetry_snapshot","confidence":0.2,"message":"m","data_summary":"","impact_summary":""},
        {"issue":"cpu_bottleneck","confidence":0.8,"message":"c","data_summary":"","impact_summary":""}
    ]"#;
    let c = count_insights(&issues_of(payload));
    assert_eq!(c.active_issues, 1);
    assert_eq!(c.snapshot_count, 1);
    assert_eq!(c.total(), 1);
    assert_eq!(c.cpu_bottleneck, 1);
    assert_eq!(summary_top_issue(&c), "cpu_bottleneck");
    assert_eq!(c.quiet_health(), None);
}

#[test]
fn tallies_with_only_snapshots() {
    let payload = r#"[
        {"issue":"telemetry_snapshot","confidence":0.2,"message":"m","data_summary":"","impact_summary":""}
    ]"#;
    let c = count_insights(&issues_of(payload));
    assert_eq!(c.active_issues, 0);
    assert_eq!(c.snapshot_count, 1);
    assert_eq!(c.quiet_health(), Some("stable"));
    assert_eq!(summary_top_issue(&c), "none");
}

#[test]
fn top_issue_prefers_largest_then_order() {
    assert_eq!(top_issue_from_counts(2, 2, 2), "cpu_bottleneck");
    assert_eq!(top_issue_from_counts(1, 2, 2), "io_pressure");
    assert_eq!(top_issue_from_counts(1, 2, 3), "gpu_underfed");
    assert_eq!(top_issue_from_counts(0, 0, 0), "mixed");
    let c = count_insights(&["scheduling_inefficiency".to_string()]);
    assert_eq!(c.active_issues, 1);
    assert_eq!(summary_top_issue(&c), "mixed");
}
