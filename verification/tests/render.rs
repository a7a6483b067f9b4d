use covgate::model::{ComputedMetric, CoverageOpportunity, GateEvaluation, MetricKind, OpportunityKind, SourceSpan};
use covgate::render::{
    format_missed_spans, group_file_spans, scope_label, summary_label, title_case, uncovered_by_file,
};

fn span(start_line: u32, end_line: u32, start_col: Option<u32>, end_col: Option<u32>) -> SourceSpan {
    SourceSpan {
        path: "src/lib.rs".to_string(),
        start_line,
        end_line,
        start_col,
        end_col,
    }
}

#[test]
fn title_case_handles_empty_string() {
    assert_eq!(title_case(""), "");
}

#[test]
fn title_case_handles_hyphens() {
    assert_eq!(title_case("named-function"), "Named Function");
    assert_eq!(title_case("named-functions"), "Named Functions");
}

#[test]
fn title_case_capitalizes_each_word_of_metric_labels() {
    assert_eq!(title_case("regions"), "Regions");
    assert_eq!(title_case("lines"), "Lines");
    assert_eq!(title_case("a--b"), "A  B");
}

#[test]
fn groups_duplicate_file_spans_with_counts() {
    let spans = vec![span(10, 10, None, None), span(10, 10, None, None), span(3, 4, None, None)];
    assert_eq!(group_file_spans(&spans), vec!["3-4".to_string(), "10(2)".to_string()]);
}

#[test]
fn sorts_file_spans_numerically() {
    let spans = vec![span(100, 100, None, None), span(9, 9, None, None), span(20, 21, Some(1), Some(4))];
    assert_eq!(
        group_file_spans(&spans),
        vec!["9".to_string(), "20:1-21:4".to_string(), "100".to_string()]
    );
    assert_eq!(format_missed_spans(&spans), "`9`, `20:1-21:4`, `100`");
}

#[test]
fn scope_labels_name_only_labeled_gates_when_several_run() {
    let labeled: GateEvaluation<f64> = GateEvaluation {
        label: Some("js-ui".to_string()),
        rules: Vec::new(),
        passed: true,
    };
    let unlabeled: GateEvaluation<f64> = GateEvaluation {
        label: None,
        rules: Vec::new(),
        passed: true,
    };
    assert_eq!(summary_label(&labeled, true), Some("js-ui".to_string()));
    assert_eq!(summary_label(&unlabeled, true), Some("default".to_string()));
    assert_eq!(summary_label(&labeled, false), Some("js-ui".to_string()));
    assert_eq!(summary_label(&unlabeled, false), None);
    assert_eq!(scope_label(&unlabeled, false), "");
    assert_eq!(scope_label(&unlabeled, true), "default");
}

fn uncovered(path: &str, start_line: u32) -> CoverageOpportunity {
    CoverageOpportunity {
        kind: OpportunityKind::Region,
        span: SourceSpan { path: path.to_string(), start_line, end_line: start_line, start_col: None, end_col: None },
        covered: false,
        is_named_function: None,
        named_function_identity: None,
    }
}

fn metric_with(metric: MetricKind, ops: Vec<CoverageOpportunity>) -> ComputedMetric {
    ComputedMetric {
        metric,
        covered: 0,
        total: ops.len(),
        uncovered_changed_opportunities: ops,
        changed_totals_by_file: Vec::new(),
        totals_by_file: Vec::new(),
    }
}

#[test]
fn uncovered_spans_are_listed_per_file_and_metric() {
    let metrics = vec![
        metric_with(MetricKind::Line, vec![uncovered("src/b.rs", 4), uncovered("src/a.rs", 9), uncovered("src/b.rs", 2)]),
        metric_with(MetricKind::Region, vec![uncovered("src/b.rs", 7)]),
        metric_with(MetricKind::Branch, vec![uncovered("src/a.rs", 1)]),
    ];
    let entries = uncovered_by_file(&metrics, &[MetricKind::Line, MetricKind::Region]);
    let summary: Vec<(String, MetricKind, Vec<u32>)> = entries
        .into_iter()
        .map(|(path, kind, spans)| (path, kind, spans.iter().map(|s| s.start_line).collect()))
        .collect();
    assert_eq!(
        summary,
        vec![
            ("src/a.rs".to_string(), MetricKind::Line, vec![9]),
            ("src/b.rs".to_string(), MetricKind::Region, vec![7]),
            ("src/b.rs".to_string(), MetricKind::Line, vec![4, 2]),
        ]
    );
}
