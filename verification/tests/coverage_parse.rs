use covgate::coverage::coverlet::{normalize_coverlet_path, parse_coverlet_report};
use covgate::coverage::istanbul::{
    normalize_istanbul_path, parse_istanbul_report, IstanbulBranchMap, IstanbulFileCoverage, IstanbulFunctionMap,
    IstanbulOptionalPosition, IstanbulOptionalSpan, IstanbulPosition, IstanbulSpan,
};
use covgate::coverage::json::{JsonNumber, JsonValue};
use covgate::coverage::llvm::{LlvmData, LlvmExport, LlvmFile, LlvmFunction, LlvmFunctionRegion};
use covgate::coverage::llvm_report::parse_llvm_export;
use covgate::coverage::path::relativize_absolute_path;
use covgate::model::{CoverageReport, FileTotals, MetricKind, OpportunityKind};
use serde_json::Value;

fn parse(text: &str) -> Value {
    serde_json::from_str(text).expect("test input should be JSON")
}

fn to_json(v: &Value) -> JsonValue {
    match v {
        Value::Null => JsonValue::Null,
        Value::Bool(b) => JsonValue::Bool(*b),
        Value::Number(n) => match (n.as_u64(), n.as_i64()) {
            (Some(u), _) => JsonValue::Number(JsonNumber::PosInt(u)),
            (None, Some(i)) => JsonValue::Number(JsonNumber::NegInt(i)),
            _ => JsonValue::Number(JsonNumber::Float),
        },
        Value::String(s) => JsonValue::Text(s.clone()),
        Value::Array(items) => JsonValue::Array(items.iter().map(to_json).collect()),
        Value::Object(members) => JsonValue::Object(members.iter().map(|(k, v)| (k.clone(), to_json(v))).collect()),
    }
}

fn u32_of(v: &Value) -> u32 {
    u32::try_from(v.as_u64().expect("a non-negative number")).expect("a number in range")
}

fn rows(v: Option<&Value>) -> Vec<Vec<JsonValue>> {
    v.and_then(Value::as_array)
        .map(|rows| {
            rows.iter()
                .map(|row| row.as_array().expect("an array row").iter().map(to_json).collect())
                .collect()
        })
        .unwrap_or_default()
}

fn llvm_function(f: &Value) -> LlvmFunction {
    LlvmFunction {
        count: f.get("count").and_then(Value::as_u64).unwrap_or(0),
        filenames: f
            .get("filenames")
            .and_then(Value::as_array)
            .map(|names| names.iter().map(|n| n.as_str().expect("a file name").to_string()).collect())
            .unwrap_or_default(),
        name: f.get("name").and_then(Value::as_str).map(str::to_string),
        regions: f
            .get("regions")
            .and_then(Value::as_array)
            .map(|regions| {
                regions
                    .iter()
                    .map(|r| LlvmFunctionRegion {
                        line_start: u32_of(&r[0]),
                        col_start: u32_of(&r[1]),
                        line_end: u32_of(&r[2]),
                        col_end: u32_of(&r[3]),
                        execution_count: r.get(4).and_then(Value::as_u64).unwrap_or(0),
                    })
                    .collect()
            })
            .unwrap_or_default(),
    }
}

fn llvm_export(text: &str) -> LlvmExport {
    let v = parse(text);
    LlvmExport {
        data: v["data"]
            .as_array()
            .expect("a data array")
            .iter()
            .map(|d| LlvmData {
                files: d["files"]
                    .as_array()
                    .expect("a files array")
                    .iter()
                    .map(|f| LlvmFile {
                        filename: f["filename"].as_str().expect("a file name").to_string(),
                        segments: rows(f.get("segments")),
                        branches: rows(f.get("branches")),
                    })
                    .collect(),
                functions: d
                    .get("functions")
                    .and_then(Value::as_array)
                    .map(|fs| fs.iter().map(llvm_function).collect())
                    .unwrap_or_default(),
            })
            .collect(),
    }
}

fn position(v: &Value) -> IstanbulPosition {
    IstanbulPosition { line: u32_of(&v["line"]), column: v.get("column").and_then(Value::as_u64).map(|c| c as u32) }
}

fn span(v: &Value) -> IstanbulSpan {
    IstanbulSpan { start: position(&v["start"]), end: position(&v["end"]) }
}

fn optional_position(v: Option<&Value>) -> IstanbulOptionalPosition {
    IstanbulOptionalPosition {
        line: v.and_then(|p| p.get("line")).and_then(Value::as_u64).map(|l| l as u32),
        column: v.and_then(|p| p.get("column")).and_then(Value::as_u64).map(|c| c as u32),
    }
}

fn optional_span(v: &Value) -> IstanbulOptionalSpan {
    IstanbulOptionalSpan { start: optional_position(v.get("start")), end: optional_position(v.get("end")) }
}

fn entries<T>(v: Option<&Value>, f: impl Fn(&Value) -> T) -> Vec<(String, T)> {
    v.and_then(Value::as_object)
        .map(|members| members.iter().map(|(k, x)| (k.clone(), f(x))).collect())
        .unwrap_or_default()
}

fn istanbul_files(text: &str) -> Vec<(String, IstanbulFileCoverage)> {
    parse(text)
        .as_object()
        .expect("an object of files")
        .iter()
        .map(|(name, c)| {
            (
                name.clone(),
                IstanbulFileCoverage {
                    statement_map: entries(c.get("statementMap"), span),
                    s: entries(c.get("s"), |x| x.as_u64().expect("a count")),
                    branch_map: entries(c.get("branchMap"), |b| IstanbulBranchMap {
                        line: b.get("line").and_then(Value::as_u64).map(|l| l as u32),
                        loc: b.get("loc").map(optional_span),
                        locations: b["locations"].as_array().expect("locations").iter().map(optional_span).collect(),
                    }),
                    b: entries(c.get("b"), |x| {
                        x.as_array().expect("counts").iter().map(|n| n.as_u64().expect("a count")).collect()
                    }),
                    fn_map: entries(c.get("fnMap"), |f| IstanbulFunctionMap {
                        name: f.get("name").and_then(Value::as_str).map(str::to_string),
                        loc: span(&f["loc"]),
                    }),
                    f: entries(c.get("f"), |x| x.as_u64().expect("a count")),
                },
            )
        })
        .collect()
}

fn coverlet_export(text: &str) -> Vec<(String, Vec<(String, JsonValue)>)> {
    entries(Some(&parse(text)), |files| entries(Some(files), to_json))
}

fn totals(report: &CoverageReport, metric: MetricKind, path: &str) -> Option<FileTotals> {
    report
        .totals_by_file
        .iter()
        .find(|(m, _)| *m == metric)
        .and_then(|(_, files)| files.iter().find(|(p, _)| p == path).map(|(_, t)| *t))
}

fn has_metric(report: &CoverageReport, metric: MetricKind) -> bool {
    report.totals_by_file.iter().any(|(m, _)| *m == metric)
}

fn count_of(report: &CoverageReport, kind: OpportunityKind) -> usize {
    report.opportunities.iter().filter(|op| op.kind == kind).count()
}

fn llvm(text: &str, root: &str) -> CoverageReport {
    parse_llvm_export(&llvm_export(text), root).expect("llvm export should parse")
}

#[test]
fn parses_istanbul_line_branch_and_function_totals() {
    let input = r#"
    {
      "src/math.js": {
        "path": "src/math.js",
        "statementMap": {
          "0": {"start": {"line": 1, "column": 0}, "end": {"line": 1, "column": 10}},
          "1": {"start": {"line": 2, "column": 0}, "end": {"line": 2, "column": 10}}
        },
        "s": {"0": 1, "1": 0},
        "branchMap": {
          "0": {
            "loc": {"start": {"line": 2, "column": 0}, "end": {"line": 2, "column": 10}},
            "type": "if",
            "locations": [
              {"start": {"line": 2, "column": 0}, "end": {"line": 2, "column": 10}},
              {"start": {"line": 2, "column": 0}, "end": {"line": 2, "column": 10}}
            ]
          }
        },
        "b": {"0": [1, 0]},
        "fnMap": {
          "0": {
            "name": "compute",
            "decl": {"start": {"line": 1, "column": 0}, "end": {"line": 1, "column": 10}},
            "loc": {"start": {"line": 1, "column": 0}, "end": {"line": 3, "column": 1}},
            "line": 1
          }
        },
        "f": {"0": 1}
      }
    }
    "#;

    let report = parse_istanbul_report(&istanbul_files(input), "/workspace/covgate");

    let line_totals = totals(&report, MetricKind::Line, "src/math.js").expect("line totals should exist");
    assert_eq!((line_totals.covered, line_totals.total), (1, 2));
    let branch_totals = totals(&report, MetricKind::Branch, "src/math.js").expect("branch totals should exist");
    assert_eq!((branch_totals.covered, branch_totals.total), (1, 2));
    let function_totals = totals(&report, MetricKind::Function, "src/math.js").expect("function totals should exist");
    assert_eq!((function_totals.covered, function_totals.total), (1, 1));
    let named_totals = totals(&report, MetricKind::NamedFunction, "src/math.js").expect("named totals should exist");
    assert_eq!((named_totals.covered, named_totals.total), (1, 1));
}

#[test]
fn merges_overlapping_statement_lines_as_covered_when_any_statement_hits() {
    let input = r#"
    {
      "src/math.js": {
        "statementMap": {
          "0": {"start": {"line": 2}, "end": {"line": 2}},
          "1": {"start": {"line": 2}, "end": {"line": 2}}
        },
        "s": {"0": 0, "1": 1},
        "branchMap": {},
        "b": {},
        "fnMap": {},
        "f": {}
      }
    }
    "#;

    let report = parse_istanbul_report(&istanbul_files(input), "/workspace/covgate");
    let line_totals = totals(&report, MetricKind::Line, "src/math.js").expect("file totals should exist");
    assert_eq!((line_totals.covered, line_totals.total), (1, 1));
    assert!(!has_metric(&report, MetricKind::Branch));
    assert!(!has_metric(&report, MetricKind::Function));
}

#[test]
fn counts_unique_statement_start_lines_for_line_totals() {
    let input = r#"
    {
      "src/math.js": {
        "statementMap": {
          "0": {"start": {"line": 19}, "end": {"line": 22}},
          "1": {"start": {"line": 20}, "end": {"line": 20}},
          "2": {"start": {"line": 22}, "end": {"line": 22}}
        },
        "s": {"0": 1, "1": 0, "2": 1},
        "branchMap": {},
        "b": {},
        "fnMap": {},
        "f": {}
      }
    }
    "#;

    let report = parse_istanbul_report(&istanbul_files(input), "/workspace/covgate");
    let line_totals = totals(&report, MetricKind::Line, "src/math.js").expect("file totals should exist");
    assert_eq!((line_totals.covered, line_totals.total), (2, 3));

    let line_20 = report
        .opportunities
        .iter()
        .find(|op| {
            op.kind == OpportunityKind::Line
                && op.span.path == "src/math.js"
                && op.span.start_line == 20
                && op.span.end_line == 20
        })
        .expect("line 20 opportunity should exist");
    assert!(!line_20.covered, "line 20 should remain uncovered");
}

#[test]
fn normalizes_repo_prefixed_and_absolute_paths() {
    let statement = r#"{"statementMap": {"0": {"start": {"line": 1}, "end": {"line": 1}}}, "s": {"0": 1}}"#;
    let prefixed = parse_istanbul_report(
        &istanbul_files(&format!(r#"{{"/workspace/covgate/src/math.js": {statement}}}"#)),
        "/workspace/covgate",
    );
    assert!(totals(&prefixed, MetricKind::Line, "src/math.js").is_some());

    let outside = parse_istanbul_report(
        &istanbul_files(&format!(r#"{{"/opt/other/math.js": {statement}}}"#)),
        "/workspace/covgate",
    );
    assert!(totals(&outside, MetricKind::Line, "/opt/other/math.js").is_some());
}

#[test]
fn does_not_strip_repo_root_text_prefix_when_not_path_boundary() {
    let report = parse_istanbul_report(
        &istanbul_files(
            r#"{
              "/workspace/covgate-old/src/math.js": {
                "statementMap": {"0": {"start": {"line": 1}, "end": {"line": 1}}},
                "s": {"0": 1},
                "branchMap": {},
                "b": {},
                "fnMap": {},
                "f": {}
              }
            }"#,
        ),
        "/workspace/covgate",
    );

    assert!(totals(&report, MetricKind::Line, "/workspace/covgate-old/src/math.js").is_some());
    assert!(totals(&report, MetricKind::Line, "-old/src/math.js").is_none());
}

#[test]
fn istanbul_paths_use_forward_slashes_relative_to_the_root() {
    assert_eq!(normalize_istanbul_path("/workspace/covgate/src/math.js", "/workspace/covgate"), "src/math.js");
    assert_eq!(normalize_istanbul_path("src\\math.js", "/workspace/covgate"), "src/math.js");
}

#[test]
fn parses_coverlet_lines_and_branches() {
    let input = r#"
    {
      "Demo.dll": {
        "/workspace/covgate/src/lib.cs": {
          "Demo.MathOps": {
            "System.Int32 Demo.MathOps::Add(System.Int32,System.Int32)": {
              "Lines": {
                "3": 1,
                "4": 0
              },
              "Branches": [
                {"Line": 4, "Hits": 1},
                {"Line": 4, "Hits": 0}
              ]
            }
          }
        }
      }
    }
    "#;

    let report = parse_coverlet_report(&coverlet_export(input), "/workspace/covgate");
    let line_totals = totals(&report, MetricKind::Line, "src/lib.cs").expect("line totals should exist");
    assert_eq!((line_totals.covered, line_totals.total), (1, 2));
    let branch_totals = totals(&report, MetricKind::Branch, "src/lib.cs").expect("branch totals should exist");
    assert_eq!((branch_totals.covered, branch_totals.total), (1, 2));
    let function_totals = totals(&report, MetricKind::Function, "src/lib.cs").expect("function totals should exist");
    assert_eq!((function_totals.covered, function_totals.total), (1, 1));
}

#[test]
fn computes_function_spans_from_method_lines() {
    let input = r#"
    {
      "Demo.dll": {
        "src/lib.cs": {
          "Demo.MathOps": {
            "Covered": {"Lines": {"10": 1, "11": 0, "15": 2}, "Branches": []},
            "Uncovered": {"Lines": {"20": 0, "21": 0}, "Branches": []}
          }
        }
      }
    }
    "#;

    let report = parse_coverlet_report(&coverlet_export(input), "/workspace/covgate");
    let function_ops: Vec<_> = report.opportunities.iter().filter(|op| op.kind == OpportunityKind::Function).collect();
    assert_eq!(function_ops.len(), 2);
    assert!(function_ops.iter().any(|op| op.span.start_line == 10 && op.span.end_line == 15 && op.covered));
    assert!(function_ops.iter().any(|op| op.span.start_line == 20 && op.span.end_line == 21 && !op.covered));
}

#[test]
fn merges_duplicate_lines_across_methods() {
    let input = r#"
    {
      "Demo.dll": {
        "src/lib.cs": {
          "Demo.MathOps": {
            "M1": {"Lines": {"10": 0, "11": 1}, "Branches": []},
            "M2": {"Lines": {"10": 2}, "Branches": []}
          }
        }
      }
    }
    "#;

    let report = parse_coverlet_report(&coverlet_export(input), "/workspace/covgate");
    let line_totals = totals(&report, MetricKind::Line, "src/lib.cs").expect("file totals should exist");
    assert_eq!(line_totals.total, 2);
    assert_eq!(line_totals.covered, 2);
}

#[test]
fn skips_non_object_class_or_method_entries() {
    let input = r#"
    {
      "Demo.dll": {
        "src/lib.cs": {
          "IgnoredClass": 5,
          "Demo.MathOps": {
            "IgnoredMethod": 3,
            "RealMethod": {"Lines": {"5": 1}, "Branches": []}
          }
        }
      }
    }
    "#;

    let report = parse_coverlet_report(&coverlet_export(input), "/workspace/covgate");
    assert_eq!(count_of(&report, OpportunityKind::Line), 1);
}

#[test]
fn invalid_line_key_method_is_ignored() {
    let input = r#"
    {
      "Demo.dll": {
        "src/lib.cs": {
          "Demo.MathOps": {
            "BadMethod": {"Lines": {"not-a-line": 1}, "Branches": []},
            "GoodMethod": {"Lines": {"7": 1}, "Branches": []}
          }
        }
      }
    }
    "#;

    let report = parse_coverlet_report(&coverlet_export(input), "/workspace/covgate");
    let line_totals = totals(&report, MetricKind::Line, "src/lib.cs").expect("file totals should exist");
    assert_eq!(line_totals.total, 1);
    assert_eq!(line_totals.covered, 1);
}

#[test]
fn skips_function_metric_when_method_has_no_lines() {
    let input = r#"
    {
      "Demo.dll": {
        "src/lib.cs": {
          "Demo.MathOps": {
            "NoLines": {"Lines": {}, "Branches": []}
          }
        }
      }
    }
    "#;

    let report = parse_coverlet_report(&coverlet_export(input), "/workspace/covgate");
    assert!(!has_metric(&report, MetricKind::Function));
}

#[test]
fn normalizes_windows_path_separators() {
    assert_eq!(normalize_coverlet_path("C:\\workspace\\covgate\\src\\lib.cs", "C:/workspace/covgate"), "src/lib.cs");
}

#[test]
fn keeps_absolute_paths_outside_repo_as_absolute() {
    assert_eq!(normalize_coverlet_path("/tmp/other/src/lib.cs", "/workspace/covgate"), "/tmp/other/src/lib.cs");
}

#[test]
fn parses_basic_llvm_export() {
    let input = r#"
    {
      "data": [
        {
          "functions": [
            {"count": 1, "filenames": ["src/lib.rs"], "regions": [[1,1,2,1,1,0,0,0]]},
            {"count": 0, "filenames": ["src/lib.rs"], "regions": [[3,1,4,1,0,0,0,0]]}
          ],
          "files": [
            {
              "filename": "src/lib.rs",
              "segments": [
                [1, 1, 1, true, true, false],
                [1, 2, 0, false, false, false],
                [2, 1, 1, true, true, false],
                [2, 2, 0, false, false, false],
                [3, 1, 0, true, true, false],
                [3, 2, 0, false, false, false],
                [4, 1, 0, true, true, false],
                [4, 2, 0, false, false, false]
              ]
            }
          ]
        }
      ]
    }
    "#;

    let report = llvm(input, "/workspace/covgate");
    assert_eq!(report.opportunities.len(), 10);
    let region_totals = totals(&report, MetricKind::Region, "src/lib.rs").expect("region totals should exist");
    assert_eq!((region_totals.covered, region_totals.total), (2, 4));
    let line_totals = totals(&report, MetricKind::Line, "src/lib.rs").expect("line totals should exist");
    assert_eq!((line_totals.covered, line_totals.total), (2, 4));
    let function_totals = totals(&report, MetricKind::Function, "src/lib.rs").expect("function totals should exist");
    assert_eq!((function_totals.covered, function_totals.total), (1, 2));
}

#[test]
fn parses_branch_metrics_when_branches_are_present() {
    let input = r#"
    {"data": [{"files": [{
      "filename": "src/lib.rs",
      "segments": [[1, 1, 1, true, false, false], [2, 1, 0, false, false, false]],
      "branches": [[1, 1, 1, true], [1, 5, 0, true]]
    }]}]}
    "#;

    let report = llvm(input, "/workspace/covgate");
    let branch_totals = totals(&report, MetricKind::Branch, "src/lib.rs").expect("branch totals should be present");
    assert_eq!((branch_totals.covered, branch_totals.total), (1, 2));
    assert_eq!(count_of(&report, OpportunityKind::BranchOutcome), 2);
}

#[test]
fn parses_llvm_branch_tuples_using_true_false_counts() {
    let input = r#"
    {"data": [{"files": [{
      "filename": "src/lib.rs",
      "segments": [[1, 1, 1, true, false, false], [2, 1, 0, false, false, false]],
      "branches": [[2, 5, 2, 10, 1, 0, 0, 0, 4]]
    }]}]}
    "#;

    let report = llvm(input, "/workspace/covgate");
    let branch_totals = totals(&report, MetricKind::Branch, "src/lib.rs").expect("branch totals should be present");
    assert_eq!((branch_totals.covered, branch_totals.total), (1, 2));
}

#[test]
fn parses_legacy_branch_entries_and_skips_has_count_false() {
    let input = r#"
    {"data": [{"files": [{
      "filename": "src/lib.rs",
      "segments": [[1, 1, 1, true, false, false], [2, 1, 0, false, false, false]],
      "branches": [[2, 1, 0, false], [3, 1, 1, true]]
    }]}]}
    "#;

    let report = llvm(input, "/workspace/covgate");
    let branch_totals = totals(&report, MetricKind::Branch, "src/lib.rs").expect("branch totals should be present");
    assert_eq!((branch_totals.covered, branch_totals.total), (1, 1));
}

#[test]
fn region_totals_ignore_non_entry_and_gap_segments() {
    let input = r#"
    {"data": [{"files": [{
      "filename": "src/lib.rs",
      "segments": [
        [1, 1, 1, true, true, false],
        [2, 1, 1, true, false, false],
        [3, 1, 1, true, true, true],
        [4, 1, 1, true, true, false],
        [5, 1, 0, false, false, false]
      ]
    }]}]}
    "#;

    let report = llvm(input, "/workspace/covgate");
    let region_totals = totals(&report, MetricKind::Region, "src/lib.rs").expect("region totals should exist");
    assert_eq!((region_totals.covered, region_totals.total), (2, 2));
}

#[test]
fn segment_boundary_does_not_overcount_lines() {
    let input = r#"
    {"data": [{"files": [{
      "filename": "src/lib.rs",
      "segments": [[1, 1, 1, true, false, false], [2, 1, 0, false, false, false]]
    }]}]}
    "#;

    let report = llvm(input, "/workspace/covgate");
    let line_totals = totals(&report, MetricKind::Line, "src/lib.rs").expect("line totals should exist");
    assert_eq!((line_totals.covered, line_totals.total), (1, 1));
}

#[test]
fn skips_segments_with_has_count_false_for_line_coverage() {
    let input = r#"{
      "data": [{
        "files": [{
          "filename": "src/lib.rs",
          "segments": [
            [1, 1, 1, true, true, false],
            [2, 1, 0, false, true, false],
            [3, 1, 0, true, true, false],
            [4, 1, 0, true, true, false]
          ],
          "branches": []
        }],
        "functions": []
      }],
      "type": "llvm.coverage.json.export",
      "version": "2.0.1"
    }"#;

    let report = llvm(input, ".");
    let lines = totals(&report, MetricKind::Line, "src/lib.rs").expect("line totals should exist");
    assert_eq!(lines.total, 2);
}

#[test]
fn skips_regions_with_backwards_range() {
    let input = r#"{
      "data": [{
        "files": [{
          "filename": "src/lib.rs",
          "segments": [[2, 1, 1, true, true, false], [1, 1, 0, true, false, false]],
          "branches": []
        }],
        "functions": []
      }]
    }"#;

    let report = llvm(input, ".");
    assert!(!has_metric(&report, MetricKind::Region));
}

#[test]
fn skips_function_entries_without_filenames_or_regions() {
    let input = r#"
    {"data": [{
      "functions": [
        {"count": 1, "filenames": [], "regions": [[1,1,2,1,1,0,0,0]]},
        {"count": 1, "filenames": ["src/lib.rs"], "regions": []}
      ],
      "files": [{
        "filename": "src/lib.rs",
        "segments": [[1, 1, 1, true, false, false], [2, 1, 0, false, false, false]]
      }]
    }]}
    "#;

    let report = llvm(input, "/workspace/covgate");
    assert!(!has_metric(&report, MetricKind::Function));
}

#[test]
fn marks_function_covered_when_regions_have_execution_count() {
    let input = r#"
    {"data": [{
      "functions": [{"count": 0, "filenames": ["src/lib.rs"], "regions": [[10,1,12,1,3,0,0,0]]}],
      "files": [{
        "filename": "src/lib.rs",
        "segments": [[10, 1, 1, true, false, false], [12, 1, 0, false, false, false]]
      }]
    }]}
    "#;

    let report = llvm(input, "/workspace/covgate");
    let function_totals = totals(&report, MetricKind::Function, "src/lib.rs").expect("function totals should exist");
    assert_eq!((function_totals.covered, function_totals.total), (1, 1));
}

#[test]
fn merges_duplicate_function_spans_as_covered_if_any_variant_is_covered() {
    let input = r#"
    {"data": [{
      "functions": [
        {"count": 0, "filenames": ["src/lib.rs"], "regions": [[20,1,25,1,0,0,0,0]]},
        {"count": 1, "filenames": ["src/lib.rs"], "regions": [[20,1,25,1,1,0,0,0]]}
      ],
      "files": [{
        "filename": "src/lib.rs",
        "segments": [[20, 1, 1, true, false, false], [25, 1, 0, false, false, false]]
      }]
    }]}
    "#;

    let report = llvm(input, "/workspace/covgate");
    let function_totals = totals(&report, MetricKind::Function, "src/lib.rs").expect("function totals should exist");
    assert_eq!((function_totals.covered, function_totals.total), (1, 1));
}

#[test]
fn keeps_rust_functions_with_different_crate_hashes_as_one_name_based_record() {
    let input = r#"
    {"data": [{
      "functions": [
        {"count": 1, "name": "_RNvNtCsAAAA_7covgate7metrics22compute_changed_metric",
         "filenames": ["src/lib.rs"], "regions": [[20,1,25,1,1,0,0,0]]},
        {"count": 1, "name": "_RNvNtCsBBBB_7covgate7metrics22compute_changed_metric",
         "filenames": ["src/lib.rs"], "regions": [[20,1,25,1,1,0,0,0]]}
      ],
      "files": [{
        "filename": "src/lib.rs",
        "segments": [[20, 1, 1, true, false, false], [25, 1, 0, false, false, false]]
      }]
    }]}
    "#;

    let report = llvm(input, "/workspace/covgate");
    let function_totals = totals(&report, MetricKind::Function, "src/lib.rs").expect("function totals should exist");
    assert_eq!((function_totals.covered, function_totals.total), (1, 1));

    let function_ops: Vec<_> = report.opportunities.iter().filter(|op| op.kind == OpportunityKind::Function).collect();
    assert_eq!(function_ops.len(), 1);
    assert_eq!(function_ops[0].span.start_line, 20);
    assert_eq!(function_ops[0].span.end_line, 25);
}

#[test]
fn prefers_longest_suffix_for_function_file_mapping() {
    let input = r#"
    {"data": [{
      "functions": [{"count": 0, "filenames": ["/tmp/build/pkg/src/lib.rs"], "regions": [[10,1,10,5,0,0,0,0]]}],
      "files": [
        {"filename": "src/lib.rs", "segments": [[1,1,1,true,false,false],[2,1,0,false,false,false]]},
        {"filename": "pkg/src/lib.rs", "segments": [[1,1,1,true,false,false],[2,1,0,false,false,false]]}
      ]
    }]}
    "#;

    let report = llvm(input, "/workspace/covgate");
    assert!(
        totals(&report, MetricKind::Function, "src/lib.rs").is_none(),
        "function should not map to less specific suffix"
    );
    let mapped = totals(&report, MetricKind::Function, "pkg/src/lib.rs").expect("function should map to longest matching suffix");
    assert_eq!((mapped.covered, mapped.total), (0, 1));
}

#[test]
fn verifies_named_function_totals() {
    let input = r#"{
      "data": [{
        "files": [{
          "filename": "src/lib.rs",
          "segments": [[1,1,1,true,true,false], [2,1,0,true,true,false]],
          "branches": []
        }],
        "functions": [
          {"name": "_RNvNtCs6ZlX2b1lC0o_7covgate7metrics22compute_changed_metric",
           "filenames": ["src/lib.rs"], "count": 1, "regions": [[1,1,2,1,1,0,0,0]]},
          {"name": "_RNCNvNtCs6ZlX2b1lC0o_7covgate7metrics22compute_changed_metric0B5_",
           "filenames": ["src/lib.rs"], "count": 1, "regions": [[1,1,2,1,1,0,0,0]]}
        ]
      }],
      "type": "llvm.core.json.export",
      "version": "2.0.1"
    }"#;

    let report = llvm(input, "/");
    let function_totals = totals(&report, MetricKind::Function, "src/lib.rs").expect("function totals");
    assert_eq!((function_totals.total, function_totals.covered), (2, 2));
    let named_totals = totals(&report, MetricKind::NamedFunction, "src/lib.rs").expect("named function totals");
    assert_eq!((named_totals.total, named_totals.covered), (1, 1));
}

#[test]
fn normalizes_absolute_paths_to_repo_relative() {
    assert_eq!(relativize_absolute_path("/workspace/covgate/src/lib.rs", "/workspace/covgate"), "src/lib.rs");
}

#[test]
fn llvm_file_paths_are_made_repo_relative() {
    let input = r#"
    {"data": [{"files": [{
      "filename": "/workspace/covgate/src/lib.rs",
      "segments": [[1, 1, 1, true, true, false], [2, 1, 0, false, false, false]]
    }]}]}
    "#;
    let report = llvm(input, "/workspace/covgate");
    assert!(totals(&report, MetricKind::Line, "src/lib.rs").is_some());
}

#[test]
fn rejects_segments_with_missing_numbers() {
    let input = r#"
    {"data": [{"files": [{
      "filename": "src/lib.rs",
      "segments": [[1, 1, 1, true, true, false], [2, "x", 0, false, false, false]]
    }]}]}
    "#;
    assert!(parse_llvm_export(&llvm_export(input), "/workspace/covgate").is_err());
}

fn assert_totals_count_opportunities(report: &CoverageReport, metrics: &[(MetricKind, OpportunityKind)], paths: &[&str]) {
    for (metric, kind) in metrics {
        for path in paths {
            let ops: Vec<_> = report
                .opportunities
                .iter()
                .filter(|op| op.kind == *kind && op.span.path == *path)
                .collect();
            let covered = ops.iter().filter(|op| op.covered).count();
            match totals(report, *metric, path) {
                Some(t) => {
                    assert!(t.total >= 1 && t.covered <= t.total);
                    assert_eq!((t.covered, t.total), (covered, ops.len()));
                }
                None => assert!(ops.is_empty()),
            }
        }
    }
}

#[test]
fn istanbul_totals_count_each_files_opportunities() {
    let input = r#"
    {
      "src/a.js": {
        "statementMap": {
          "0": {"start": {"line": 1, "column": 0}, "end": {"line": 1, "column": 5}},
          "1": {"start": {"line": 2, "column": 0}, "end": {"line": 2, "column": 5}}
        },
        "s": {"0": 3, "1": 0},
        "branchMap": {},
        "b": {},
        "fnMap": {
          "0": {"name": "f", "loc": {"start": {"line": 1, "column": 0}, "end": {"line": 2, "column": 1}}}
        },
        "f": {"0": 0}
      },
      "src/b.js": {
        "statementMap": {
          "0": {"start": {"line": 7, "column": 2}, "end": {"line": 7, "column": 9}}
        },
        "s": {"0": 1},
        "branchMap": {
          "0": {
            "loc": {"start": {"line": 7, "column": 2}, "end": {"line": 7, "column": 9}},
            "locations": [
              {"start": {"line": 7, "column": 2}, "end": {"line": 7, "column": 4}},
              {"start": {"line": 7, "column": 5}, "end": {"line": 7, "column": 9}}
            ]
          }
        },
        "b": {"0": [0, 2]},
        "fnMap": {},
        "f": {}
      }
    }
    "#;

    let report = parse_istanbul_report(&istanbul_files(input), "/workspace/covgate");
    assert_totals_count_opportunities(
        &report,
        &[
            (MetricKind::Line, OpportunityKind::Line),
            (MetricKind::Branch, OpportunityKind::BranchOutcome),
            (MetricKind::Function, OpportunityKind::Function),
        ],
        &["src/a.js", "src/b.js", "src/c.js"],
    );
    let a_lines = totals(&report, MetricKind::Line, "src/a.js").expect("line totals of a");
    assert_eq!((a_lines.covered, a_lines.total), (1, 2));
    assert!(totals(&report, MetricKind::Branch, "src/a.js").is_none());
    let b_branches = totals(&report, MetricKind::Branch, "src/b.js").expect("branch totals of b");
    assert_eq!((b_branches.covered, b_branches.total), (1, 2));
}

#[test]
fn llvm_and_coverlet_totals_count_each_files_opportunities() {
    let llvm_input = r#"
    {
      "data": [
        {
          "functions": [
            {"count": 1, "filenames": ["src/lib.rs"], "regions": [[1,1,2,1,1,0,0,0]]},
            {"count": 0, "filenames": ["src/lib.rs"], "regions": [[3,1,4,1,0,0,0,0]]}
          ],
          "files": [
            {
              "filename": "src/lib.rs",
              "segments": [
                [1, 1, 1, true, true, false],
                [1, 2, 0, false, false, false],
                [3, 1, 0, true, true, false],
                [3, 2, 0, false, false, false]
              ]
            },
            {
              "filename": "src/main.rs",
              "segments": [
                [5, 1, 2, true, true, false],
                [6, 1, 0, false, false, false]
              ]
            }
          ]
        }
      ]
    }
    "#;
    let report = llvm(llvm_input, "/workspace/covgate");
    assert_totals_count_opportunities(
        &report,
        &[
            (MetricKind::Region, OpportunityKind::Region),
            (MetricKind::Line, OpportunityKind::Line),
            (MetricKind::Branch, OpportunityKind::BranchOutcome),
            (MetricKind::Function, OpportunityKind::Function),
        ],
        &["src/lib.rs", "src/main.rs"],
    );
    assert!(totals(&report, MetricKind::Function, "src/main.rs").is_none());

    let coverlet_input = r#"
    {
      "Demo.dll": {
        "src/one.cs": {
          "Demo.One": {
            "System.Void Demo.One::Run()": {
              "Lines": {"3": 1, "4": 0},
              "Branches": [{"Line": 4, "Hits": 1}, {"Line": 4, "Hits": 0}]
            }
          }
        },
        "src/two.cs": {
          "Demo.Two": {
            "System.Void Demo.Two::Run()": {"Lines": {"9": 0}, "Branches": []}
          }
        }
      }
    }
    "#;
    let report = parse_coverlet_report(&coverlet_export(coverlet_input), "/workspace/covgate");
    assert_totals_count_opportunities(
        &report,
        &[
            (MetricKind::Line, OpportunityKind::Line),
            (MetricKind::Branch, OpportunityKind::BranchOutcome),
            (MetricKind::Function, OpportunityKind::Function),
        ],
        &["src/one.cs", "src/two.cs"],
    );
    assert!(totals(&report, MetricKind::Branch, "src/two.cs").is_none());
}
