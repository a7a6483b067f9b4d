use covgate::diff::{parse_unified_diff, DiffSource};

#[test]
fn parses_added_hunks() {
    let input = "\
diff --git a/src/lib.rs b/src/lib.rs\n\
+++ b/src/lib.rs\n\
@@ -1,0 +2,3 @@\n";

    let changed = parse_unified_diff(input).expect("diff should parse");
    assert_eq!(changed.len(), 1);
    assert_eq!(changed[0].path, "src/lib.rs");
    assert_eq!(changed[0].changed_lines[0].start, 2);
    assert_eq!(changed[0].changed_lines[0].end, 4);
}

#[test]
fn ignores_deleted_only_hunks() {
    let input = "\
diff --git a/src/lib.rs b/src/lib.rs\n\
+++ b/src/lib.rs\n\
@@ -4,2 +4,0 @@\n";

    let changed = parse_unified_diff(input).expect("diff should parse");
    assert_eq!(changed.len(), 1);
    assert!(changed[0].changed_lines.is_empty());
}

#[test]
fn ignores_deleted_file_headers_before_tracked_files() {
    let input = "\
diff --git a/src/deleted.rs b/src/deleted.rs\n\
+++ /dev/null\n\
@@ -1,2 +0,0 @@\n\
diff --git a/src/lib.rs b/src/lib.rs\n\
+++ b/src/lib.rs\n\
@@ -1,0 +2,2 @@\n";

    let changed = parse_unified_diff(input).expect("diff should parse");
    assert_eq!(changed.len(), 1);
    assert_eq!(changed[0].path, "src/lib.rs");
    assert_eq!(changed[0].changed_lines[0].start, 2);
    assert_eq!(changed[0].changed_lines[0].end, 3);
}

#[test]
fn single_line_hunks_default_to_one_line() {
    let input = "\
diff --git a/src/lib.rs b/src/lib.rs\n\
+++ b/src/lib.rs\n\
@@ -3 +7 @@ fn main() {\n\
+    added();\n\
@@ -10,1 +20,2 @@\n";

    let changed = parse_unified_diff(input).expect("diff should parse");
    assert_eq!(changed.len(), 1);
    let ranges: Vec<(u32, u32)> = changed[0].changed_lines.iter().map(|r| (r.start, r.end)).collect();
    assert_eq!(ranges, vec![(7, 7), (20, 21)]);
}

#[test]
fn empty_diff_has_no_changed_files() {
    let changed = parse_unified_diff("").expect("empty diff should parse");
    assert!(changed.is_empty());
}

#[test]
fn describes_diff_sources() {
    assert_eq!(
        DiffSource::GitBase("origin/main".to_string()).describe(),
        "origin/main...HEAD, staged and unstaged changes"
    );
    assert_eq!(DiffSource::DiffFile("changes.diff".to_string()).describe(), "changes.diff");
}

#[test]
fn paths_equal_as_paths_name_one_file() {
    let input = "\
diff --git a/a/b b/a/b\n\
+++ b/a/b\n\
@@ -1,0 +1,1 @@\n\
diff --git a/a/./b b/a/./b\n\
+++ b/a/./b\n\
@@ -1,0 +3,1 @@\n\
diff --git a/a//b b/a//b\n\
+++ b/a//b\n\
@@ -1,0 +5,1 @@\n\
diff --git a/a/b/ b/a/b/\n\
+++ b/a/b/\n\
@@ -1,0 +7,1 @@\n\
diff --git a/a-b b/a-b\n\
+++ b/a-b\n\
@@ -1,0 +9,1 @@\n";

    let changed = parse_unified_diff(input).expect("diff should parse");
    assert_eq!(changed.len(), 2);
    assert_eq!(changed[0].path, "a/b");
    assert_eq!(changed[1].path, "a-b");
    let starts: Vec<u32> = changed[0].changed_lines.iter().map(|r| r.start).collect();
    assert_eq!(starts, vec![1, 3, 5, 7]);
    assert_eq!(changed[1].changed_lines[0].start, 9);
}
