use covgate::model::{MetricKind, OpportunityKind, SourceSpan, SpanKey};

fn span(start_line: u32, end_line: u32, start_col: Option<u32>, end_col: Option<u32>) -> SourceSpan {
    SourceSpan {
        path: "src/lib.rs".to_string(),
        start_line,
        end_line,
        start_col,
        end_col,
    }
}

#[test]
fn metric_kind_names_and_opportunity_kinds() {
    let metric = MetricKind::Function;
    assert_eq!(metric.as_str(), "function");
    assert_eq!(metric.label(), "functions");
    assert_eq!(metric.to_opportunity_kind(), OpportunityKind::Function);
    assert_eq!(MetricKind::NamedFunction.as_str(), "named-function");
    assert_eq!(MetricKind::NamedFunction.label(), "named-functions");
    assert_eq!(MetricKind::NamedFunction.to_opportunity_kind(), OpportunityKind::Function);
    assert_eq!(MetricKind::Branch.to_opportunity_kind(), OpportunityKind::BranchOutcome);
}

#[test]
fn formats_spans_with_and_without_columns() {
    let s1 = span(10, 10, None, None);
    assert_eq!(s1.format_span(), "10");
    assert_eq!(s1.display(), "src/lib.rs:10");

    assert_eq!(span(10, 12, None, None).format_span(), "10-12");
    assert_eq!(span(10, 10, Some(5), Some(5)).format_span(), "10:5");
    assert_eq!(span(10, 10, Some(5), Some(15)).format_span(), "10:5-15");
    assert_eq!(span(10, 11, Some(5), Some(10)).format_span(), "10:5-11:10");
}

#[test]
fn groups_spans_and_counts_occurrences() {
    let s1 = span(10, 10, None, None);
    let s2 = s1.clone();
    let s3 = span(20, 20, None, None);

    let groups = SourceSpan::group_by_span(&[s1, s2, s3]);
    assert_eq!(groups.len(), 2);
    let count = |k: SpanKey| groups.iter().find(|(key, _)| *key == k).map(|(_, c)| *c);
    assert_eq!(
        count(SpanKey { start_line: 10, end_line: 10, start_col: None, end_col: None }),
        Some(2)
    );
    assert_eq!(
        count(SpanKey { start_line: 20, end_line: 20, start_col: None, end_col: None }),
        Some(1)
    );
}

#[test]
fn grouping_counts_add_up_to_the_number_of_spans() {
    let spans = vec![
        span(3, 3, None, None),
        span(1, 2, Some(4), None),
        span(3, 3, None, None),
        span(1, 2, Some(4), None),
        span(3, 3, None, None),
        span(7, 7, Some(1), Some(2)),
    ];
    let groups = SourceSpan::group_by_span(&spans);
    assert_eq!(groups.iter().map(|(_, c)| *c).sum::<usize>(), spans.len());
    let keys: Vec<u32> = groups.iter().map(|(k, _)| k.start_line).collect();
    assert_eq!(keys, vec![1, 3, 7]);
}

#[test]
fn span_overlaps_line_range() {
    let s = span(5, 8, None, None);
    assert!(s.overlaps_line_range(8, 10));
    assert!(s.overlaps_line_range(1, 5));
    assert!(!s.overlaps_line_range(9, 12));
    assert!(!s.overlaps_line_range(1, 4));
}
