use covgate::gate::evaluate;
use covgate::model::{ComputedMetric, CoverageOpportunity, FileTotals, GateRule, MetricKind, OpportunityKind, SourceSpan};

fn percent_met(covered: usize, total: usize, minimum: f64) -> bool {
    let percent = if total == 0 { 100.0 } else { covered as f64 / total as f64 * 100.0 };
    percent + f64::EPSILON >= minimum
}

fn uncovered_region(start_line: u32, end_line: u32) -> CoverageOpportunity {
    CoverageOpportunity {
        kind: OpportunityKind::Region,
        span: SourceSpan {
            path: "src/lib.rs".to_string(),
            start_line,
            end_line,
            start_col: None,
            end_col: None,
        },
        covered: false,
        is_named_function: None,
        named_function_identity: None,
    }
}

fn region_metric(covered: usize, total: usize, uncovered: Vec<CoverageOpportunity>) -> ComputedMetric {
    ComputedMetric {
        metric: MetricKind::Region,
        covered,
        total,
        uncovered_changed_opportunities: uncovered,
        changed_totals_by_file: Vec::new(),
        totals_by_file: Vec::new(),
    }
}

#[test]
fn fails_below_percent_threshold() {
    let mut metric = region_metric(1, 2, Vec::new());
    metric.totals_by_file = vec![("src/lib.rs".to_string(), FileTotals { covered: 1, total: 2 })];
    let result = evaluate(
        None,
        vec![metric],
        &[GateRule::Percent { metric: MetricKind::Region, minimum_percent: 90.0 }],
        &percent_met,
    )
    .expect("evaluate should succeed");

    assert!(!result.passed);
    assert!(!result.rules[0].passed);
}

#[test]
fn fails_above_uncovered_count_threshold() {
    let result = evaluate(
        None,
        vec![region_metric(1, 3, vec![uncovered_region(5, 6), uncovered_region(10, 11)])],
        &[GateRule::UncoveredCount { metric: MetricKind::Region, maximum_count: 1 }],
        &percent_met,
    )
    .expect("evaluate should succeed");

    assert!(!result.passed);
    assert!(!result.rules[0].passed);
    assert_eq!(result.rules[0].observed_uncovered_count, 2);
}

#[test]
fn multiple_rules_fail_if_any_fails() {
    let result = evaluate(
        None,
        vec![region_metric(9, 10, vec![uncovered_region(5, 6)])],
        &[
            GateRule::Percent { metric: MetricKind::Region, minimum_percent: 80.0 },
            GateRule::UncoveredCount { metric: MetricKind::Region, maximum_count: 0 },
        ],
        &percent_met,
    )
    .expect("evaluate should succeed");

    assert!(!result.passed);
    assert!(result.rules[0].passed);
    assert!(!result.rules[1].passed);
}

#[test]
fn mismatched_metric_returns_error() {
    let error = evaluate(
        None,
        vec![region_metric(1, 2, Vec::new())],
        &[GateRule::Percent { metric: MetricKind::Line, minimum_percent: 90.0 }],
        &percent_met,
    )
    .expect_err("should return error");

    assert!(error.to_string().contains("not supported by the loaded report"));
    assert_eq!(error.to_string(), "configured rule for line is not supported by the loaded report");
}

#[test]
fn unsupported_rule_error_names_the_labeled_gate() {
    let error = evaluate(
        Some("js-ui".to_string()),
        vec![region_metric(1, 2, Vec::new())],
        &[GateRule::UncoveredCount { metric: MetricKind::Branch, maximum_count: 0 }],
        &percent_met,
    )
    .expect_err("should return error");
    assert_eq!(
        error.to_string(),
        "configured rule for branch is not supported by the loaded report in gate `js-ui`"
    );
}

#[test]
fn passing_rules_record_observed_counts() {
    let result = evaluate(
        Some("core".to_string()),
        vec![region_metric(3, 4, vec![uncovered_region(1, 1)])],
        &[
            GateRule::Percent { metric: MetricKind::Region, minimum_percent: 75.0 },
            GateRule::UncoveredCount { metric: MetricKind::Region, maximum_count: 1 },
        ],
        &percent_met,
    )
    .expect("evaluate should succeed");
    assert!(result.passed);
    assert_eq!(result.label, Some("core".to_string()));
    assert_eq!(result.rules.len(), 2);
    assert_eq!(result.rules[0].observed_covered_count, 3);
    assert_eq!(result.rules[0].observed_total_count, 4);
    assert_eq!(result.rules[1].observed_uncovered_count, 1);
}
