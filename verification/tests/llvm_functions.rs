use covgate::coverage::llvm_functions::{
    identity_from_demangled, is_identity_named, normalize_function_path, normalize_llvm_function_name,
};
use covgate::coverage::path::{lexical_normalize, relativize_absolute_path};
use std::collections::BTreeSet;

#[test]
fn demangles_real_repro_rust_symbol_set_into_eight_identities() {
    let raw_names = [
        "_RNCNCNvNtCs6ZlX2b1lC0o_7covgate7metrics22compute_changed_metric00B7_",
        "_RNCNCNvNtCs6ZlX2b1lC0o_7covgate7metrics22compute_changed_metrics0_00B7_",
        "_RNCNvNtCs6ZlX2b1lC0o_7covgate7metrics22compute_changed_metric0B5_",
        "_RNCNvNtCs6ZlX2b1lC0o_7covgate7metrics22compute_changed_metrics0_0B5_",
        "_RNCNvNtCs6ZlX2b1lC0o_7covgate7metrics22compute_changed_metrics_0B5_",
        "_RNvNtCs6ZlX2b1lC0o_7covgate7metrics22compute_changed_metric",
        "_RNvNtCsiqc4wHYDJq1_7covgate7metrics22compute_changed_metric",
        "_RNvNtNtCsiqc4wHYDJq1_7covgate7metrics5testss_30computes_changed_region_metric",
        "_RNvNtNtCsiqc4wHYDJq1_7covgate7metrics5testss_54metric_with_only_zero_totals_is_treated_as_unavailable",
        "_RNCNCNvNtCsiqc4wHYDJq1_7covgate7metrics22compute_changed_metric00B7_",
        "_RNCNCNvNtCsiqc4wHYDJq1_7covgate7metrics22compute_changed_metrics0_00B7_",
        "_RNCNvNtCsiqc4wHYDJq1_7covgate7metrics22compute_changed_metric0B5_",
        "_RNCNvNtCsiqc4wHYDJq1_7covgate7metrics22compute_changed_metrics0_0B5_",
        "_RNCNvNtCsiqc4wHYDJq1_7covgate7metrics22compute_changed_metrics_0B5_",
    ];

    let normalized: BTreeSet<_> = raw_names.into_iter().map(normalize_llvm_function_name).collect();

    let expected = BTreeSet::from([
        "covgate::metrics::compute_changed_metric::{closure#0}::{closure#0}".to_string(),
        "covgate::metrics::compute_changed_metric::{closure#0}".to_string(),
        "covgate::metrics::compute_changed_metric".to_string(),
        "covgate::metrics::compute_changed_metric::{closure#1}".to_string(),
        "covgate::metrics::compute_changed_metric::{closure#2}".to_string(),
        "covgate::metrics::compute_changed_metric::{closure#2}::{closure#0}".to_string(),
        "covgate::metrics::tests::computes_changed_region_metric".to_string(),
        "covgate::metrics::tests::metric_with_only_zero_totals_is_treated_as_unavailable".to_string(),
    ]);

    assert_eq!(normalized, expected);
}

#[test]
fn demangles_rust_llvm_function_names_for_identity() {
    let normalized = normalize_llvm_function_name("_RNvNtCs6ZlX2b1lC0o_7covgate7metrics22compute_changed_metric");
    assert_eq!(normalized, "covgate::metrics::compute_changed_metric");
}

#[test]
fn leaves_non_rust_function_names_unchanged() {
    let normalized = normalize_llvm_function_name("plain_c_symbol_name");
    assert_eq!(normalized, "plain_c_symbol_name");
}

#[test]
fn identity_falls_back_to_the_symbol_when_demangling_fails() {
    assert_eq!(identity_from_demangled("sym", None), "sym");
    assert_eq!(identity_from_demangled("sym", Some("crate::f".to_string())), "crate::f");
}

#[test]
fn identifies_named_functions_correctly() {
    let named = normalize_llvm_function_name("_RNvNtCs6ZlX2b1lC0o_7covgate7metrics22compute_changed_metric");
    let closure = normalize_llvm_function_name("_RNCNvNtCs6ZlX2b1lC0o_7covgate7metrics22compute_changed_metric0B5_");
    assert!(is_identity_named(&named));
    assert!(!is_identity_named(&closure));
    assert!(is_identity_named("plain_c_symbol_name"));
}

#[test]
fn function_files_map_to_the_longest_known_suffix() {
    let known = vec!["src/lib.rs".to_string(), "pkg/src/lib.rs".to_string()];
    assert_eq!(normalize_function_path("/tmp/build/pkg/src/lib.rs", "/workspace/covgate", &known), "pkg/src/lib.rs");
    assert_eq!(normalize_function_path("/workspace/covgate/src/lib.rs", "/workspace/covgate", &known), "src/lib.rs");
}

#[test]
fn relativizes_paths_under_the_repo_root_only() {
    assert_eq!(relativize_absolute_path("/workspace/covgate/src/lib.rs", "/workspace/covgate"), "src/lib.rs");
    assert_eq!(relativize_absolute_path("/tmp/other/lib.rs", "/workspace/covgate"), "/tmp/other/lib.rs");
    assert_eq!(relativize_absolute_path("src/lib.rs", "/workspace/covgate"), "src/lib.rs");
    assert_eq!(lexical_normalize("src/./a/../lib.rs"), "src/a/../lib.rs");
    assert_eq!(lexical_normalize("./src//lib.rs/"), "./src/lib.rs");
    assert_eq!(lexical_normalize("/a/./b//"), "/a/b");
}
