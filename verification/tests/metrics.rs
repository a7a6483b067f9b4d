use covgate::metrics::{compute_changed_metric, compute_overall_metric};
use covgate::model::{
    ChangedFile, CoverageOpportunity, CoverageReport, FileTotals, LineRange, MetricKind, OpportunityKind,
    SourceSpan,
};

fn opportunity(
    kind: OpportunityKind,
    start_line: u32,
    end_line: u32,
    covered: bool,
    identity: Option<&str>,
) -> CoverageOpportunity {
    CoverageOpportunity {
        kind,
        span: SourceSpan {
            path: "src/lib.rs".to_string(),
            start_line,
            end_line,
            start_col: if identity.is_some() { Some(1) } else { None },
            end_col: if identity.is_some() { Some(1) } else { None },
        },
        covered,
        is_named_function: identity.map(|_| true),
        named_function_identity: identity.map(str::to_string),
    }
}

fn lib_totals(covered: usize, total: usize) -> Vec<(String, FileTotals)> {
    vec![("src/lib.rs".to_string(), FileTotals { covered, total })]
}

fn changed(start: u32, end: u32) -> Vec<ChangedFile> {
    vec![ChangedFile {
        path: "src/lib.rs".to_string(),
        changed_lines: vec![LineRange { start, end }],
    }]
}

fn included(diff: &[ChangedFile]) -> Vec<String> {
    diff.iter().map(|file| file.path.clone()).collect()
}

fn changed_file_totals(totals: &[(String, FileTotals)], path: &str) -> FileTotals {
    totals
        .iter()
        .find(|(p, _)| p == path)
        .map(|(_, t)| *t)
        .expect("changed totals by file")
}

#[test]
fn computes_changed_region_metric() {
    let report = CoverageReport {
        opportunities: vec![
            opportunity(OpportunityKind::Region, 2, 3, true, None),
            opportunity(OpportunityKind::Region, 5, 6, false, None),
        ],
        totals_by_file: vec![(MetricKind::Region, lib_totals(1, 2))],
    };
    let diff = changed(1, 6);

    let metric = compute_changed_metric(&report, &diff, &included(&diff), MetricKind::Region).expect("metric works");
    assert_eq!(metric.covered, 1);
    assert_eq!(metric.total, 2);
    assert_eq!(metric.uncovered_changed_opportunities.len(), 1);
    let file_totals = changed_file_totals(&metric.changed_totals_by_file, "src/lib.rs");
    assert_eq!(file_totals.covered, 1);
    assert_eq!(file_totals.total, 2);
}

#[test]
fn metric_with_only_zero_totals_is_treated_as_unavailable() {
    let report = CoverageReport {
        opportunities: Vec::new(),
        totals_by_file: vec![(MetricKind::Branch, lib_totals(0, 0))],
    };

    let error = compute_changed_metric(&report, &[], &[], MetricKind::Branch)
        .expect_err("branch metric with only zero totals should be unavailable");

    assert_eq!(error.to_string(), "requested metric branch is not available in the report");
}

#[test]
fn changed_named_function_metric_collapses_template_instantiations() {
    let report = CoverageReport {
        opportunities: vec![
            opportunity(OpportunityKind::Function, 10, 12, false, Some("covgate::metrics::parse")),
            opportunity(OpportunityKind::Function, 20, 22, true, Some("covgate::metrics::parse")),
        ],
        totals_by_file: vec![(MetricKind::NamedFunction, lib_totals(1, 1))],
    };
    let diff = changed(10, 22);

    let metric =
        compute_changed_metric(&report, &diff, &included(&diff), MetricKind::NamedFunction).expect("metric works");

    assert_eq!(metric.covered, 1);
    assert_eq!(metric.total, 1);
    assert_eq!(metric.uncovered_changed_opportunities.len(), 0);
    let file_totals = changed_file_totals(&metric.changed_totals_by_file, "src/lib.rs");
    assert_eq!(file_totals.covered, 1);
    assert_eq!(file_totals.total, 1);
}

#[test]
fn changed_named_function_metric_reports_one_uncovered_template_group() {
    let report = CoverageReport {
        opportunities: vec![
            opportunity(OpportunityKind::Function, 20, 22, false, Some("covgate::metrics::parse")),
            opportunity(OpportunityKind::Function, 10, 12, false, Some("covgate::metrics::parse")),
        ],
        totals_by_file: vec![(MetricKind::NamedFunction, lib_totals(0, 1))],
    };
    let diff = changed(10, 22);

    let metric =
        compute_changed_metric(&report, &diff, &included(&diff), MetricKind::NamedFunction).expect("metric works");

    assert_eq!(metric.covered, 0);
    assert_eq!(metric.total, 1);
    assert_eq!(metric.uncovered_changed_opportunities.len(), 1);
    assert_eq!(metric.uncovered_changed_opportunities[0].span.start_line, 10);
}

#[test]
fn changed_metric_counts_only_changed_lines_of_included_files() {
    let report = CoverageReport {
        opportunities: vec![
            opportunity(OpportunityKind::Line, 1, 1, true, None),
            opportunity(OpportunityKind::Line, 4, 4, false, None),
            opportunity(OpportunityKind::Line, 9, 9, false, None),
            opportunity(OpportunityKind::Region, 4, 4, false, None),
        ],
        totals_by_file: vec![(MetricKind::Line, lib_totals(1, 3)), (MetricKind::Region, lib_totals(0, 1))],
    };
    let diff = changed(3, 5);

    let metric = compute_changed_metric(&report, &diff, &included(&diff), MetricKind::Line).expect("metric works");
    assert_eq!((metric.covered, metric.total), (0, 1));
    assert_eq!(metric.uncovered_changed_opportunities[0].span.start_line, 4);
    assert_eq!(metric.covered + metric.uncovered_changed_opportunities.len(), metric.total);

    let excluded = compute_changed_metric(&report, &diff, &[], MetricKind::Line).expect("metric works");
    assert_eq!((excluded.covered, excluded.total), (0, 0));
    assert!(excluded.changed_totals_by_file.is_empty());
}

#[test]
fn overall_metric_sums_per_file_totals() {
    let report = CoverageReport {
        opportunities: Vec::new(),
        totals_by_file: vec![(
            MetricKind::Line,
            vec![
                ("a.rs".to_string(), FileTotals { covered: 2, total: 5 }),
                ("b.rs".to_string(), FileTotals { covered: 3, total: 4 }),
            ],
        )],
    };
    let metric = compute_overall_metric(&report, MetricKind::Line).expect("line totals are present");
    assert_eq!((metric.covered, metric.total), (5, 9));
    assert!(metric.uncovered_changed_opportunities.is_empty());
    assert_eq!(metric.totals_by_file.len(), 2);

    let error = compute_overall_metric(&report, MetricKind::Branch).expect_err("branch totals are absent");
    assert_eq!(error.to_string(), "requested metric branch is not available in the report");
}

#[test]
fn changed_totals_by_file_add_up_to_the_metric() {
    let mut other = opportunity(OpportunityKind::Region, 2, 2, false, None);
    other.span.path = "src/a.rs".to_string();
    let report = CoverageReport {
        opportunities: vec![
            opportunity(OpportunityKind::Region, 1, 1, true, None),
            opportunity(OpportunityKind::Region, 2, 2, false, None),
            other,
        ],
        totals_by_file: vec![(
            MetricKind::Region,
            vec![
                ("src/a.rs".to_string(), FileTotals { covered: 0, total: 1 }),
                ("src/lib.rs".to_string(), FileTotals { covered: 1, total: 2 }),
            ],
        )],
    };
    let diff = vec![
        ChangedFile { path: "src/lib.rs".to_string(), changed_lines: vec![LineRange { start: 1, end: 2 }] },
        ChangedFile { path: "src/a.rs".to_string(), changed_lines: vec![LineRange { start: 1, end: 5 }] },
    ];
    let metric = compute_changed_metric(&report, &diff, &included(&diff), MetricKind::Region).expect("metric works");
    assert_eq!((metric.covered, metric.total), (1, 3));
    let paths: Vec<&str> = metric.changed_totals_by_file.iter().map(|(p, _)| p.as_str()).collect();
    assert_eq!(paths, vec!["src/a.rs", "src/lib.rs"]);
    let covered: usize = metric.changed_totals_by_file.iter().map(|(_, t)| t.covered).sum();
    let total: usize = metric.changed_totals_by_file.iter().map(|(_, t)| t.total).sum();
    assert_eq!((covered, total), (metric.covered, metric.total));
}
