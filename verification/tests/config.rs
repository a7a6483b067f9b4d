use covgate::config::{
    config_candidate_paths, derive_scoped_gate_label, has_cli_rules, join_strings, resolve_diff_source,
    resolve_gates, resolve_markdown_output, resolve_verbose, validate_file_config, MarkdownTarget, Args, ConfiguredGate, FileConfig, GateEntryConfig, GateRuleConfig,
};
use covgate::diff::DiffSource;
use covgate::model::{GateRule, MetricKind};
use ignore::gitignore::Gitignore;

fn args() -> Args<f64> {
    Args {
        coverage_report: "coverage.json".to_string(),
        base: None,
        diff_file: None,
        fail_under_regions: None,
        fail_under_lines: None,
        fail_under_branches: None,
        fail_under_functions: None,
        fail_under_named_functions: None,
        fail_uncovered_regions: None,
        fail_uncovered_lines: None,
        fail_uncovered_branches: None,
        fail_uncovered_functions: None,
        fail_uncovered_named_functions: None,
        markdown_output: None,
        verbose: false,
    }
}

fn no_rules() -> GateRuleConfig<f64> {
    GateRuleConfig {
        fail_under_regions: None,
        fail_under_lines: None,
        fail_under_branches: None,
        fail_under_functions: None,
        fail_under_named_functions: None,
        fail_uncovered_regions: None,
        fail_uncovered_lines: None,
        fail_uncovered_branches: None,
        fail_uncovered_functions: None,
        fail_uncovered_named_functions: None,
    }
}

fn entry(name: Option<&str>, includes: &[&str], excludes: &[&str], rules: GateRuleConfig<f64>) -> GateEntryConfig<f64> {
    GateEntryConfig {
        name: name.map(str::to_string),
        includes: includes.iter().map(|s| s.to_string()).collect(),
        excludes: excludes.iter().map(|s| s.to_string()).collect(),
        rules,
    }
}

fn config(base: Option<&str>, gates: Vec<GateEntryConfig<f64>>) -> FileConfig<f64> {
    FileConfig {
        base: base.map(str::to_string),
        markdown_output: None,
        verbose: None,
        gates,
    }
}

fn gates_of(args: &Args<f64>, file_config: Option<&FileConfig<f64>>) -> Vec<ConfiguredGate<f64>> {
    resolve_gates(args, file_config, ".", &Gitignore::empty()).expect("gates should resolve")
}

fn gate_rules(gates: &[ConfiguredGate<f64>]) -> Vec<GateRule<f64>> {
    gates.iter().flat_map(|gate| gate.rules.iter().cloned()).collect()
}

fn no_discovery() -> Result<Option<String>, covgate::error::CovgateError> {
    Ok(None)
}

#[test]
fn derive_scoped_gate_label_falls_back_for_long_globs() {
    let label = derive_scoped_gate_label(
        &[
            "**/*.really-long-typescript-file-pattern.ts".to_string(),
            "**/*.equally-long-component-pattern.tsx".to_string(),
        ],
        3,
    );

    assert_eq!(label.as_deref(), Some("gate #3"));
}

#[test]
fn derive_scoped_gate_label_joins_short_globs() {
    let label = derive_scoped_gate_label(&["**/*.ts".to_string(), "**/*.tsx".to_string()], 1);
    assert_eq!(label.as_deref(), Some("**/*.ts, **/*.tsx"));
    assert_eq!(derive_scoped_gate_label(&[], 2), None);
    assert_eq!(join_strings(&["a".to_string(), "b".to_string()], "|"), "a|b");
}

#[test]
fn parses_region_cli_rules() {
    let mut a = args();
    a.fail_under_regions = Some(90.0);
    a.fail_uncovered_regions = Some(1);
    let rules = gate_rules(&gates_of(&a, None));

    assert_eq!(rules.len(), 2);
    assert!(rules.contains(&GateRule::Percent { metric: MetricKind::Region, minimum_percent: 90.0 }));
    assert!(rules.contains(&GateRule::UncoveredCount { metric: MetricKind::Region, maximum_count: 1 }));
}

#[test]
fn prefers_cli_over_config_defaults() {
    let mut fallback = no_rules();
    fallback.fail_under_regions = Some(40.0);
    fallback.fail_uncovered_regions = Some(5);
    let file_config = config(Some("main"), vec![entry(None, &[], &[], fallback)]);

    let mut a = args();
    a.base = Some("release".to_string());
    a.fail_under_regions = Some(90.0);

    let diff_source = resolve_diff_source(&a, Some(&file_config), no_discovery).expect("diff source should resolve");
    let rules = gate_rules(&gates_of(&a, Some(&file_config)));

    match diff_source {
        DiffSource::GitBase(base) => assert_eq!(base, "release"),
        DiffSource::DiffFile(_) => panic!("expected git base"),
    }
    assert_eq!(rules.len(), 2);
    assert!(rules.contains(&GateRule::Percent { metric: MetricKind::Region, minimum_percent: 90.0 }));
    assert!(rules.contains(&GateRule::UncoveredCount { metric: MetricKind::Region, maximum_count: 5 }));
}

#[test]
fn loads_defaults_from_repo_config() {
    let mut fallback = no_rules();
    fallback.fail_under_regions = Some(75.0);
    fallback.fail_uncovered_lines = Some(2);
    let file_config = config(Some("main"), vec![entry(None, &[], &[], fallback)]);
    let a = args();

    let diff_source = resolve_diff_source(&a, Some(&file_config), no_discovery).expect("diff source should resolve");
    let rules = gate_rules(&gates_of(&a, Some(&file_config)));

    match diff_source {
        DiffSource::GitBase(base) => assert_eq!(base, "main"),
        DiffSource::DiffFile(_) => panic!("expected git base"),
    }
    assert_eq!(rules.len(), 2);
    assert!(rules.contains(&GateRule::Percent { metric: MetricKind::Region, minimum_percent: 75.0 }));
    assert!(rules.contains(&GateRule::UncoveredCount { metric: MetricKind::Line, maximum_count: 2 }));
}

#[test]
fn loads_function_rules_from_repo_config() {
    let mut fallback = no_rules();
    fallback.fail_under_functions = Some(100.0);
    fallback.fail_uncovered_functions = Some(0);
    let file_config = config(Some("main"), vec![entry(None, &[], &[], fallback)]);

    let rules = gate_rules(&gates_of(&args(), Some(&file_config)));

    assert_eq!(rules.len(), 2);
    assert!(rules.contains(&GateRule::Percent { metric: MetricKind::Function, minimum_percent: 100.0 }));
    assert!(rules.contains(&GateRule::UncoveredCount { metric: MetricKind::Function, maximum_count: 0 }));
}

#[test]
fn cli_function_rules_override_repo_config_defaults() {
    let mut fallback = no_rules();
    fallback.fail_under_functions = Some(100.0);
    fallback.fail_uncovered_functions = Some(0);
    let file_config = config(Some("main"), vec![entry(None, &[], &[], fallback)]);

    let mut a = args();
    a.diff_file = Some("scenario.diff".to_string());
    a.fail_under_functions = Some(80.0);
    a.fail_uncovered_functions = Some(2);

    let rules = gate_rules(&gates_of(&a, Some(&file_config)));

    assert!(rules.contains(&GateRule::Percent { metric: MetricKind::Function, minimum_percent: 80.0 }));
    assert!(rules.contains(&GateRule::UncoveredCount { metric: MetricKind::Function, maximum_count: 2 }));
    assert!(!rules.contains(&GateRule::Percent { metric: MetricKind::Function, minimum_percent: 100.0 }));
    assert!(!rules.contains(&GateRule::UncoveredCount { metric: MetricKind::Function, maximum_count: 0 }));
}

#[test]
fn cli_thresholds_override_only_the_fallback_gate() {
    let mut scoped = no_rules();
    scoped.fail_under_lines = Some(70.0);
    let mut fallback = no_rules();
    fallback.fail_under_lines = Some(10.0);
    let file_config = config(
        None,
        vec![entry(Some("js-ui"), &["**/*.tsx"], &[], scoped), entry(None, &[], &[], fallback)],
    );

    let mut a = args();
    a.diff_file = Some("scenario.diff".to_string());
    a.fail_under_lines = Some(40.0);

    let gates = gates_of(&a, Some(&file_config));
    let scoped_gate = gates
        .iter()
        .find(|gate| gate.label.as_deref() == Some("js-ui"))
        .expect("scoped gate should exist");
    let fallback_gate = gates.iter().find(|gate| gate.is_fallback()).expect("fallback gate should exist");

    assert!(scoped_gate.rules.contains(&GateRule::Percent { metric: MetricKind::Line, minimum_percent: 70.0 }));
    assert!(!scoped_gate.rules.contains(&GateRule::Percent { metric: MetricKind::Line, minimum_percent: 40.0 }));
    assert!(fallback_gate.rules.contains(&GateRule::Percent { metric: MetricKind::Line, minimum_percent: 40.0 }));
}

#[test]
fn cli_thresholds_synthesize_a_fallback_gate_when_config_is_scoped_only() {
    let mut scoped = no_rules();
    scoped.fail_under_lines = Some(70.0);
    let file_config = config(None, vec![entry(Some("js-ui"), &["**/*.tsx"], &[], scoped)]);

    let mut a = args();
    a.diff_file = Some("scenario.diff".to_string());
    a.fail_under_lines = Some(40.0);

    let gates = gates_of(&a, Some(&file_config));
    let scoped_gate = gates
        .iter()
        .find(|gate| gate.label.as_deref() == Some("js-ui"))
        .expect("scoped gate should exist");
    let fallback_gate = gates.iter().find(|gate| gate.is_fallback()).expect("fallback gate should be synthesized");

    assert_eq!(gates.len(), 2);
    assert!(scoped_gate.rules.contains(&GateRule::Percent { metric: MetricKind::Line, minimum_percent: 70.0 }));
    assert!(!scoped_gate.rules.contains(&GateRule::Percent { metric: MetricKind::Line, minimum_percent: 40.0 }));
    assert_eq!(fallback_gate.label, None);
    assert!(fallback_gate.rules.contains(&GateRule::Percent { metric: MetricKind::Line, minimum_percent: 40.0 }));
}

#[test]
fn resolve_gates_rejects_named_gate_without_rules() {
    let file_config = config(None, vec![entry(Some("js-ui"), &["**/*.tsx"], &[], no_rules())]);
    let mut a = args();
    a.diff_file = Some("scenario.diff".to_string());

    let error = resolve_gates(&a, Some(&file_config), ".", &Gitignore::empty())
        .err()
        .expect("gate without rules should fail");

    assert!(error.to_string().contains("js-ui"));
    assert!(error.to_string().contains("no rules"));
}

#[test]
fn file_config_defaults_empty_gates() {
    let file_config = config(None, Vec::new());
    assert!(file_config.base.is_none());
    assert!(resolve_gates(&args(), Some(&file_config), ".", &Gitignore::empty()).is_err());
    assert!(!has_cli_rules(&args()));
}

#[test]
fn scoped_gates_match_their_patterns_only() {
    let mut scoped = no_rules();
    scoped.fail_under_lines = Some(95.0);
    let mut fallback = no_rules();
    fallback.fail_under_lines = Some(90.0);
    let file_config = config(
        Some("main"),
        vec![entry(Some("js-logic"), &["**/*.ts"], &["**/*.test.ts"], scoped), entry(None, &[], &[], fallback)],
    );
    let gates = gates_of(&args(), Some(&file_config));
    assert_eq!(gates.len(), 2);
    let scoped_gate = &gates[0];
    assert_eq!(scoped_gate.label.as_deref(), Some("js-logic"));
    assert!(scoped_gate.matches("src/app.ts"));
    assert!(!scoped_gate.matches("src/app.test.ts"));
    assert!(!scoped_gate.matches("src/lib.rs"));
    assert!(!gates[1].matches("src/app.ts"));
}

#[test]
fn parse_file_config_rejects_duplicate_gate_names() {
    let mut rules = no_rules();
    rules.fail_under_lines = Some(95.0);
    let file_config = config(
        None,
        vec![entry(Some("dup"), &["**/*.ts"], &[], rules), entry(Some("dup"), &["**/*.tsx"], &[], rules)],
    );
    let error = validate_file_config(&file_config).expect_err("config should fail");
    let error_text = error.to_string();
    assert!(error_text.contains("duplicate"));
    assert!(error_text.contains("dup"));
}

#[test]
fn parse_file_config_rejects_exclude_without_include() {
    let mut rules = no_rules();
    rules.fail_under_lines = Some(80.0);
    let file_config = config(None, vec![entry(None, &[], &["**/*.tsx"], rules)]);
    let error = validate_file_config(&file_config).expect_err("config should fail");
    let error_text = error.to_string();
    assert!(error_text.contains("exclude"));
    assert!(error_text.contains("include"));
}

#[test]
fn parse_file_config_rejects_multiple_fallback_gates() {
    let mut first = no_rules();
    first.fail_under_lines = Some(90.0);
    let mut second = no_rules();
    second.fail_under_branches = Some(80.0);
    let file_config = config(None, vec![entry(None, &[], &[], first), entry(None, &[], &[], second)]);
    let error = validate_file_config(&file_config).expect_err("config should fail");
    let error_text = error.to_string();
    assert!(error_text.contains("fallback"));
    assert!(error_text.contains("one"));
}

#[test]
fn validation_accepts_distinct_scoped_gates_and_one_fallback() {
    let mut rules = no_rules();
    rules.fail_under_lines = Some(90.0);
    let file_config = config(
        None,
        vec![
            entry(Some("a"), &["**/*.ts"], &[], rules),
            entry(Some("b"), &["**/*.js"], &["**/*.test.js"], rules),
            entry(None, &[], &[], rules),
        ],
    );
    assert!(validate_file_config(&file_config).is_ok());
}

#[test]
fn config_candidate_paths_stop_at_repo_root() {
    let candidates = config_candidate_paths("/workspace/repo/nested/deeper", Some("/workspace/repo"));
    assert_eq!(
        candidates,
        vec![
            "/workspace/repo/nested/deeper/covgate.toml".to_string(),
            "/workspace/repo/nested/covgate.toml".to_string(),
            "/workspace/repo/covgate.toml".to_string(),
        ]
    );
}

#[test]
fn config_candidate_paths_walk_to_filesystem_root_when_repo_root_is_unknown() {
    let candidates = config_candidate_paths("/workspace/repo/nested", None);
    assert_eq!(
        candidates,
        vec![
            "/workspace/repo/nested/covgate.toml".to_string(),
            "/workspace/repo/covgate.toml".to_string(),
            "/workspace/covgate.toml".to_string(),
            "/covgate.toml".to_string(),
        ]
    );
}

#[test]
fn explicit_base_and_diff_file_are_exclusive() {
    let mut a = args();
    a.base = Some("main".to_string());
    a.diff_file = Some("x.diff".to_string());
    let error = resolve_diff_source(&a, None, no_discovery).expect_err("both sources should fail");
    assert_eq!(error.to_string(), "--base and --diff-file are mutually exclusive");
}

#[test]
fn discovered_base_is_used_when_none_is_configured() {
    let source = resolve_diff_source(&args(), None, || Ok(Some("origin/main".to_string())))
        .expect("discovered base should be used");
    assert!(matches!(source, DiffSource::GitBase(ref base) if base == "origin/main"));
    let error = resolve_diff_source(&args(), None, no_discovery).expect_err("no base should fail");
    assert!(error.to_string().starts_with("unable to determine a base ref automatically"));
}

#[test]
fn config_markdown_output_dash_resolves_to_stdout() {
    let mut file_config = config(None, Vec::new());
    file_config.markdown_output = Some("-".to_string());
    assert!(matches!(resolve_markdown_output(&args(), Some(&file_config)), Some(MarkdownTarget::Stdout)));

    let mut a = args();
    a.markdown_output = Some("summary.md".to_string());
    match resolve_markdown_output(&a, Some(&file_config)) {
        Some(MarkdownTarget::File(path)) => assert_eq!(path, "summary.md"),
        other => panic!("unexpected target {other:?}"),
    }
    assert!(resolve_markdown_output(&args(), None).is_none());
}

#[test]
fn verbose_comes_from_either_the_command_line_or_the_config() {
    let mut file_config = config(None, Vec::new());
    assert!(!resolve_verbose(&args(), Some(&file_config)));
    file_config.verbose = Some(true);
    assert!(resolve_verbose(&args(), Some(&file_config)));
    let mut a = args();
    a.verbose = true;
    assert!(resolve_verbose(&a, None));
}

#[test]
fn resolve_gates_reports_the_first_invalid_pattern() {
    let mut rules = no_rules();
    rules.fail_under_lines = Some(80.0);
    let file_config = config(None, vec![entry(Some("ui"), &["src/**", "src/[z-a]", "lib/[z-b]"], &[], rules)]);
    let error = resolve_gates(&args(), Some(&file_config), ".", &Gitignore::empty())
        .err()
        .expect("a reversed range should be rejected");
    assert_eq!(error.to_string(), "invalid gate pattern `src/[z-a]`");
}

#[test]
fn resolve_gates_succeeds_when_patterns_build() {
    let mut rules = no_rules();
    rules.fail_under_lines = Some(80.0);
    let file_config = config(None, vec![entry(Some("ui"), &["src/**/*.rs"], &["src/gen/**"], rules)]);
    let gates = gates_of(&args(), Some(&file_config));
    assert_eq!(gates.len(), 1);
    assert!(gates[0].matches("src/a/b.rs"));
    assert!(!gates[0].matches("src/gen/b.rs"));
}

#[test]
fn legacy_gates_table_is_refused() {
    let error = covgate::config::check_legacy_gates("[gates]\nfail-under-lines = 80\n")
        .err()
        .expect("a [gates] table should be refused");
    assert_eq!(
        error.to_string(),
        "legacy [gates] table is no longer supported; use [[gates]] entries instead"
    );
    assert!(covgate::config::check_legacy_gates("[[gates]]\nfail-under-lines = 80\n").is_ok());
    assert!(covgate::config::check_legacy_gates("base = \"main\"\n").is_ok());
    assert!(covgate::config::check_legacy_gates("gates = = =").is_ok());
    assert!(covgate::config::legacy_gates_verdict(Some(true)).is_err());
    assert!(covgate::config::legacy_gates_verdict(Some(false)).is_ok());
    assert!(covgate::config::legacy_gates_verdict(None).is_ok());
}

#[test]
fn comment_and_blank_patterns_add_no_globs() {
    let only_comments = covgate::config::build_pattern_matcher(".", &["# note".to_string(), "   ".to_string()])
        .expect("comments and blank lines are accepted");
    assert!(only_comments.is_empty());
    assert!(only_comments.matched("src/a.rs", false).is_none());

    let trimmed = covgate::config::build_pattern_matcher("./", &["src/**  ".to_string(), "# src".to_string()])
        .expect("patterns should build");
    assert_eq!(trimmed.num_ignores(), 1);
    assert!(trimmed.matched("src/a.rs", false).is_ignore());
    assert!(!trimmed.matched("lib/a.rs", false).is_ignore());
}
