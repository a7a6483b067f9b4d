use covgate::coverage::format::{contains_coverlet_markers, detect_format, CoverageFormat};
use covgate::coverage::json::{JsonNumber, JsonValue};
use serde_json::Value;

fn to_json(v: &Value) -> JsonValue {
    match v {
        Value::Null => JsonValue::Null,
        Value::Bool(b) => JsonValue::Bool(*b),
        Value::Number(n) => match (n.as_u64(), n.as_i64()) {
            (Some(u), _) => JsonValue::Number(JsonNumber::PosInt(u)),
            (None, Some(i)) => JsonValue::Number(JsonNumber::NegInt(i)),
            _ => JsonValue::Number(JsonNumber::Float),
        },
        Value::String(s) => JsonValue::Text(s.clone()),
        Value::Array(items) => JsonValue::Array(items.iter().map(to_json).collect()),
        Value::Object(members) => JsonValue::Object(members.iter().map(|(k, v)| (k.clone(), to_json(v))).collect()),
    }
}

fn json(text: &str) -> JsonValue {
    to_json(&serde_json::from_str::<Value>(text).expect("test input should be JSON"))
}

#[test]
fn detects_llvm_json() {
    assert_eq!(detect_format(&json(r#"{"data": []}"#)).expect("format should detect"), CoverageFormat::Llvm);
}

#[test]
fn detects_coverlet_json() {
    let value = json(
        r#"{"Demo.dll": {"src/lib.cs": {"Demo.Math": {"System.Int32 Demo.Math::Add()": {"Lines": {"1": 1}, "Branches": []}}}}}"#,
    );
    assert!(contains_coverlet_markers(&value));
    assert_eq!(detect_format(&value).expect("format should detect"), CoverageFormat::Coverlet);
}

#[test]
fn detects_istanbul_json() {
    let value = json(r#"{"src/math.js": {"statementMap": {}, "fnMap": {}, "branchMap": {}, "s": {}, "f": {}, "b": {}}}"#);
    assert_eq!(detect_format(&value).expect("format should detect"), CoverageFormat::Istanbul);
}

#[test]
fn rejects_ambiguous_format() {
    let value = json(r#"{"data": [], "Demo.dll": {"src/lib.cs": {"Demo.Math": {"m": {"Lines": {"1": 1}}}}}}"#);
    let err = detect_format(&value).expect_err("format should be ambiguous");
    assert!(err.to_string().contains("ambiguous"));
}

#[test]
fn rejects_ambiguous_coverlet_and_istanbul_format() {
    let value = json(
        r#"{
            "Demo.dll": {"src/lib.cs": {"Demo.Math": {"m": {"Lines": {"1": 1}, "Branches": []}}}},
            "src/math.js": {"statementMap": {}, "fnMap": {}, "branchMap": {}, "s": {}, "f": {}, "b": {}}
        }"#,
    );
    let err = detect_format(&value).expect_err("format should be ambiguous");
    assert!(err.to_string().contains("ambiguous"));
}

#[test]
fn rejects_array_json_for_istanbul_detection() {
    let value = json(r#"[{"statementMap": {}, "fnMap": {}, "branchMap": {}, "s": {}, "f": {}, "b": {}}]"#);
    let err = detect_format(&value).expect_err("array root should be unsupported");
    assert!(err.to_string().contains("unsupported coverage format"));
}

#[test]
fn rejects_unknown_format() {
    let err = detect_format(&json(r#"{"foo": "bar"}"#)).expect_err("format should be unsupported");
    assert!(err.to_string().contains("unsupported coverage format"));
}

#[test]
fn coverlet_markers_need_object_lines_or_array_branches() {
    assert!(!contains_coverlet_markers(&json(r#"{"a": {"Lines": 3, "Branches": {}}}"#)));
    assert!(contains_coverlet_markers(&json(r#"[{"x": [{"Branches": []}]}]"#)));
}
