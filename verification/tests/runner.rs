use covgate::config::{ConfiguredGate, PathMatcher};
use covgate::model::{
    ChangedFile, CoverageOpportunity, CoverageReport, FileTotals, GateRule, LineRange, MetricKind, OpportunityKind,
    SourceSpan,
};
use covgate::runner::{
    assign_changed_files, check, check_untracked_coverage_files, empty_changed_metric, format_git_add_command,
    requested_metric_kinds, shell_escape_path, supported_files,
};
use ignore::gitignore::Gitignore;

fn percent_met(covered: usize, total: usize, minimum: f64) -> bool {
    let percent = if total == 0 { 100.0 } else { covered as f64 / total as f64 * 100.0 };
    percent + f64::EPSILON >= minimum
}

fn line(path: &str, at: u32, covered: bool) -> CoverageOpportunity {
    CoverageOpportunity {
        kind: OpportunityKind::Line,
        span: SourceSpan { path: path.to_string(), start_line: at, end_line: at, start_col: None, end_col: None },
        covered,
        is_named_function: None,
        named_function_identity: None,
    }
}

fn report() -> CoverageReport {
    CoverageReport {
        opportunities: vec![
            line("src/app.ts", 1, true),
            line("src/app.ts", 2, false),
            line("src/lib.rs", 5, true),
            line("src/lib.rs", 6, true),
        ],
        totals_by_file: vec![(
            MetricKind::Line,
            vec![
                ("src/app.ts".to_string(), FileTotals { covered: 1, total: 2 }),
                ("src/empty.rs".to_string(), FileTotals { covered: 0, total: 0 }),
                ("src/lib.rs".to_string(), FileTotals { covered: 2, total: 2 }),
            ],
        )],
    }
}

fn change(path: &str, start: u32, end: u32) -> ChangedFile {
    ChangedFile { path: path.to_string(), changed_lines: vec![LineRange { start, end }] }
}

fn scoped(label: &str, includes: &[&str], rules: Vec<GateRule<f64>>) -> ConfiguredGate<f64> {
    let includes: Vec<String> = includes.iter().map(|s| s.to_string()).collect();
    let matcher = PathMatcher::new(".", &includes, &[], Gitignore::empty()).expect("patterns should build");
    ConfiguredGate::new(Some(label.to_string()), rules, Some(matcher))
}

fn fallback(rules: Vec<GateRule<f64>>) -> ConfiguredGate<f64> {
    ConfiguredGate::new(None, rules, None)
}

fn line_percent(minimum: f64) -> Vec<GateRule<f64>> {
    vec![GateRule::Percent { metric: MetricKind::Line, minimum_percent: minimum }]
}

#[test]
fn supported_files_are_those_with_nonzero_totals() {
    assert_eq!(supported_files(&report()), vec!["src/app.ts".to_string(), "src/lib.rs".to_string()]);
}

#[test]
fn each_supported_change_goes_to_one_gate() {
    let gates = vec![scoped("ts", &["**/*.ts"], line_percent(50.0)), fallback(line_percent(100.0))];
    let diff = vec![change("src/app.ts", 1, 2), change("src/lib.rs", 5, 6), change("README.md", 1, 1)];
    let inputs = assign_changed_files(&report(), &diff, &gates).expect("every file should be placed");
    assert_eq!(inputs.len(), 2);
    assert_eq!(inputs[0].gate, 0);
    assert_eq!(inputs[0].changed_files.len(), 1);
    assert_eq!(inputs[0].changed_files[0].path, "src/app.ts");
    assert_eq!(inputs[0].paths, vec!["src/app.ts".to_string()]);
    assert_eq!(inputs[1].gate, 1);
    assert_eq!(inputs[1].changed_files.len(), 1);
    assert_eq!(inputs[1].changed_files[0].path, "src/lib.rs");
    assert!(inputs.iter().all(|input| input.has_assigned_changes));
}

#[test]
fn unmatched_change_without_fallback_is_rejected() {
    let gates = vec![scoped("ts", &["**/*.ts"], line_percent(50.0))];
    let diff = vec![change("src/lib.rs", 5, 6)];
    let error = assign_changed_files(&report(), &diff, &gates).err().expect("placement should fail");
    assert_eq!(
        error.to_string(),
        "changed file `src/lib.rs` has supported coverage opportunities but does not match any scoped gate and no fallback gate is configured"
    );
}

#[test]
fn change_matching_two_scoped_gates_is_rejected() {
    let gates = vec![
        scoped("ts", &["**/*.ts"], line_percent(50.0)),
        scoped("app", &["src/app.*"], line_percent(50.0)),
        fallback(line_percent(50.0)),
    ];
    let diff = vec![change("src/app.ts", 1, 1)];
    let error = assign_changed_files(&report(), &diff, &gates).err().expect("placement should fail");
    assert_eq!(error.to_string(), "changed file `src/app.ts` matches multiple scoped gates: ts, app");
}

#[test]
fn check_passes_only_when_every_gate_passes() {
    let diff = vec![change("src/app.ts", 1, 2), change("src/lib.rs", 5, 6)];
    let lenient = vec![scoped("ts", &["**/*.ts"], line_percent(50.0)), fallback(line_percent(100.0))];
    let result = check(&report(), &diff, &lenient, &percent_met).expect("check should run");
    assert!(result.passed);
    assert_eq!(result.gates.len(), 2);
    assert_eq!(result.gates[0].rules[0].observed_covered_count, 1);
    assert_eq!(result.gates[0].rules[0].observed_total_count, 2);
    assert_eq!(result.gates[1].rules[0].observed_total_count, 2);
    assert_eq!(result.changed_metrics.len(), 1);
    assert_eq!((result.changed_metrics[0].covered, result.changed_metrics[0].total), (3, 4));
    assert_eq!((result.overall_metrics[0].covered, result.overall_metrics[0].total), (3, 4));

    let strict = vec![scoped("ts", &["**/*.ts"], line_percent(90.0)), fallback(line_percent(100.0))];
    let result = check(&report(), &diff, &strict, &percent_met).expect("check should run");
    assert!(!result.passed);
    assert!(!result.gates[0].passed);
    assert!(result.gates[1].passed);
}

#[test]
fn check_rejects_rules_for_metrics_the_report_lacks() {
    let diff = vec![change("src/lib.rs", 5, 6)];
    let gates = vec![fallback(vec![GateRule::UncoveredCount { metric: MetricKind::Branch, maximum_count: 0 }])];
    let error = check(&report(), &diff, &gates, &percent_met).err().expect("branch rule should fail");
    assert!(error.to_string().contains("branch"));
}

#[test]
fn requested_metric_kinds_follow_metric_order_without_repeats() {
    let rules = vec![
        GateRule::UncoveredCount { metric: MetricKind::Function, maximum_count: 0 },
        GateRule::Percent { metric: MetricKind::Region, minimum_percent: 80.0 },
        GateRule::Percent { metric: MetricKind::Function, minimum_percent: 80.0 },
    ];
    assert_eq!(requested_metric_kinds(&rules), vec![MetricKind::Region, MetricKind::Function]);
}

#[test]
fn empty_changed_metric_has_no_counts() {
    let metric = empty_changed_metric(MetricKind::Branch);
    assert_eq!(metric.metric, MetricKind::Branch);
    assert_eq!((metric.covered, metric.total), (0, 0));
    assert!(metric.uncovered_changed_opportunities.is_empty());
}

#[test]
fn shell_escape_quotes_paths_with_spaces() {
    assert_eq!(shell_escape_path("src/lib.rs"), "src/lib.rs");
    assert_eq!(shell_escape_path("src/my file.rs"), "'src/my file.rs'");
    assert_eq!(shell_escape_path("it's.rs"), "'it'\\''s.rs'");
    assert_eq!(
        format_git_add_command(&["a.rs".to_string(), "b c.rs".to_string()]),
        "git add -N a.rs 'b c.rs'"
    );
}

#[test]
fn untracked_coverage_files_fail_with_an_add_command() {
    let coverage_files = vec!["src/new file.rs".to_string(), "src/lib.rs".to_string()];
    assert!(check_untracked_coverage_files(&["notes.txt".to_string()], &coverage_files).is_ok());
    let error = check_untracked_coverage_files(&["src/new file.rs".to_string(), "notes.txt".to_string()], &coverage_files)
        .expect_err("untracked coverage file should fail");
    assert_eq!(
        error.to_string(),
        "untracked files appear in the coverage report and are excluded from diff gating, which produces a false pass — add them with: `git add -N 'src/new file.rs'`"
    );
}
