use nagato_apply::{apply, Error, ErrorKind, Parser, Patch};

fn first_patch(diff: &str) -> Patch<'_> {
    Parser::new(diff.as_bytes()).next().unwrap().unwrap()
}

fn apply_text(diff: &str, source: &str) -> Result<String, Error> {
    let patch = first_patch(diff);
    apply(&patch, source.as_bytes()).map(|v| String::from_utf8(v).unwrap())
}

#[test]
fn applier_simple_patch() {
    let diff = "--- a/file.txt\n+++ b/file.txt\n@@ -1,3 +1,3 @@\n context 1\n-old line\n+new line\n context 2\n";
    assert_eq!(apply_text(diff, "context 1\nold line\ncontext 2\n").unwrap(), "context 1\nnew line\ncontext 2\n");
}

#[test]
fn applier_handles_newlines_at_eof() {
    let diff = "--- a/file.txt\n+++ b/file.txt\n@@ -1,2 +1,2 @@\n-line1\n-line2\n+Line1_Changed\n+line2\n\\ No newline at end of file\n";
    assert_eq!(apply_text(diff, "line1\nline2\n").unwrap(), "Line1_Changed\nline2");
}

#[test]
fn applier_adds_trailing_newline() {
    let diff = "--- a/file.txt\n+++ b/file.txt\n@@ -1,1 +1,2 @@\n-hello\n+hello\n+world\n";
    assert_eq!(apply_text(diff, "hello").unwrap(), "hello\nworld\n");
}

#[test]
fn applier_handles_empty_lines() {
    let diff = "--- a/file.txt\n+++ b/file.txt\n@@ -1,5 +1,5 @@\n line 1\n\n line 3\n-line 4\n+new line 4\n line 5\n";
    assert_eq!(apply_text(diff, "line 1\n\nline 3\nline 4\nline 5\n").unwrap(), "line 1\n\nline 3\nnew line 4\nline 5\n");
}

#[test]
fn applier_vendor_hunkless() {
    let diff = "--- a/file.txt\n+++ b/file.txt\n-hello\n+world\n";
    assert_eq!(apply_text(diff, "hello\n").unwrap(), "world\n");
}

#[test]
fn applier_vendor_with_offset() {
    let diff = "--- a/file.txt\n+++ b/file.txt\n-hello\n+world\n";
    assert_eq!(apply_text(diff, "some other content\nhello\n").unwrap(), "some other content\nworld\n");
}

#[test]
fn applier_vendor_with_context() {
    let diff = "--- a/file.txt\n+++ b/file.txt\n context before\n-hello\n+world\n context after\n";
    assert_eq!(apply_text(diff, "some other content\ncontext before\nhello\ncontext after\n").unwrap(), "some other content\ncontext before\nworld\ncontext after\n");
}

#[test]
fn applier_vendor_multi_hunkless() {
    let diff = "file a/file.txt\n line1\n-line2\n+modified2\n\n line4\n-line5\n+modified5\n";
    assert_eq!(apply_text(diff, "line1\nline2\nline3\nline4\nline5\n").unwrap(), "line1\nmodified2\nline3\nline4\nmodified5\n");
}

#[test]
fn applier_vendor_multi_hunkless_backward() {
    let diff = "file a/file.txt\n context 3\n-same\n+changed 1\n\n context 2\n-same\n+changed 2\n\n context 1\n-same\n+changed 3\n";
    assert_eq!(apply_text(diff, "context 1\nsame\ncontext 2\nsame\ncontext 3\nsame\n").unwrap(), "context 1\nchanged 3\ncontext 2\nchanged 2\ncontext 3\nchanged 1\n");
}

#[test]
fn applier_vendor_hunkless_with_repeated_label() {
    let diff = "file a/file.txt\nlabel Container {\n\n     Block 1 {\n-        // item 1\n+        // modified 1\n     }\n\nlabel Container {\n\n     Block 2 {\n-        // item 2\n+        // modified 2\n     }\n";
    assert_eq!(apply_text(diff, "Container {\n    Block 1 {\n        // item 1\n    }\n    Block 2 {\n        // item 2\n    }\n}\n").unwrap(), "Container {\n    Block 1 {\n        // modified 1\n    }\n    Block 2 {\n        // modified 2\n    }\n}\n");
}

#[test]
fn applier_vendor_addition_after_no_newline() {
    let diff = "--- a/file.txt\n+++ b/file.txt\n@@ -1,1 +1,2 @@\n line1\n\\ No newline at end of file\n+line2\n";
    assert_eq!(apply_text(diff, "line1").unwrap(), "line1\nline2\n");
}

#[test]
fn applier_vendor_addition_after_no_newline_remains_no_newline() {
    let diff = "--- a/file.txt\n+++ b/file.txt\n@@ -1,1 +1,2 @@\n line1\n\\ No newline at end of file\n+line2\n\\ No newline at end of file\n";
    assert_eq!(apply_text(diff, "line1").unwrap(), "line1\nline2");
}

#[test]
fn applier_vendor_deletion_and_addition_with_no_newline() {
    let diff = "--- a/file.txt\n+++ b/file.txt\n@@ -1,2 +1,2 @@\n line1\n-line2\n\\ No newline at end of file\n+line3\n\\ No newline at end of file\n";
    assert_eq!(apply_text(diff, "line1\nline2").unwrap(), "line1\nline3");
}

#[test]
fn applies_hunkless() {
    let diff = "--- a/file.txt\n+++ b/file.txt\n-hello\n+world\n";
    assert_eq!(apply_text(diff, "hello\n").unwrap(), "world\n");
}

#[test]
fn applies_with_offset() {
    let diff = "--- a/file.txt\n+++ b/file.txt\n-hello\n+world\n";
    assert_eq!(apply_text(diff, "some other content\nhello\n").unwrap(), "some other content\nworld\n");
}

#[test]
fn applies_with_context() {
    let diff = "--- a/file.txt\n+++ b/file.txt\n context before\n-hello\n+world\n context after\n";
    assert_eq!(apply_text(diff, "some other content\ncontext before\nhello\ncontext after\n").unwrap(), "some other content\ncontext before\nworld\ncontext after\n");
}

#[test]
fn applies_multi_hunkless() {
    let diff = "file a/file.txt\n line1\n-line2\n+modified2\n\n line4\n-line5\n+modified5\n";
    assert_eq!(apply_text(diff, "line1\nline2\nline3\nline4\nline5\n").unwrap(), "line1\nmodified2\nline3\nline4\nmodified5\n");
}

#[test]
fn applies_multi_hunkless_backward() {
    let diff = "file a/file.txt\n context 3\n-same\n+changed 1\n\n context 2\n-same\n+changed 2\n\n context 1\n-same\n+changed 3\n";
    assert_eq!(apply_text(diff, "context 1\nsame\ncontext 2\nsame\ncontext 3\nsame\n").unwrap(), "context 1\nchanged 3\ncontext 2\nchanged 2\ncontext 3\nchanged 1\n");
}

#[test]
fn applier_matches_whitespace() {
    let diff = "diff --git a/file.txt b/file.txt\n--- a/file.txt\n+++ b/file.txt\n@@ -1,2 +1,2 @@\n  context line\n-  deletion line\n+  addition line\n";
    assert_eq!(apply_text(diff, " context line\n  deletion line\n").unwrap(), " context line\n  addition line\n");
}

#[test]
fn applier_patch_with_offset_line_numbers() {
    let diff = "diff --git a/file.txt b/file.txt\n--- a/file.txt\n+++ b/file.txt\n@@ -8,7 +8,7 @@\n  some context\n  some more context\n  a final bit of context\n-the line to remove\n+the new line to add\n  and more context\n  and more context\n  and a final context\n";
    assert_eq!(apply_text(diff, "line 1\nline 2\nline 3\nline 4\nline 5\nline 6\nline 7\n some context\n some more context\n a final bit of context\nthe line to remove\n and more context\n and more context\n and a final context\nline 15\n").unwrap(), "line 1\nline 2\nline 3\nline 4\nline 5\nline 6\nline 7\n some context\n some more context\n a final bit of context\nthe new line to add\n and more context\n and more context\n and a final context\nline 15\n");
}

#[test]
fn hunkless_multi_match_and_ordering() {
    let diff = "--- file.txt\n+++ file.txt\n-line4\n+modified4\n\n-line2\n+modified2\n";
    assert_eq!(apply_text(diff, "line1\nline2\nline3\nline4\n").unwrap(), "line1\nmodified2\nline3\nmodified4\n");
}

#[test]
fn applies_ambiguous_hunkless_sequential() {
    let diff = "file a/file.txt\n Block B {\n\n     item {\n+        val: 3\n         val: 2\n";
    let content = apply_text(diff, "Block A {\n    item {\n        val: 1\n    }\n}\n\nBlock B {\n    // Some context\n    let x = 1;\n\n    item {\n        val: 2\n    }\n}\n").unwrap();
    assert!(content.contains("Block A {\n    item {\n        val: 1\n    }\n}"));
    assert!(content.contains("item {\n        val: 3\n        val: 2\n    }"));
}

#[test]
fn applies_with_label_line() {
    let diff = "file a/file.txt\nlabel function b() {\n-// content\n+// modified content\n";
    let content = apply_text(diff, "function a() {\n// content\n}\n\nfunction b() {\n// content\n}\n").unwrap();
    assert!(content.contains("function b() {\n// modified content\n"));
    assert!(content.contains("function a() {\n// content\n}"));
}

#[test]
fn applies_hunkless_with_label() {
    let diff = "file a/file.txt\nlabel function b() {\n-// content\n+// modified content\n";
    let content = apply_text(diff, "function a() {\n// content\n}\n\nfunction b() {\n// content\n}\n").unwrap();
    assert!(content.contains("function b() {\n// modified content\n}"));
    assert!(content.contains("function a() {\n// content\n}"));
}

#[test]
fn applies_hunkless_with_multiple_labels_and_empty_lines_ordered() {
    let diff = "file file.txt\nlabel Header {\n\n   Body {\n+    new: true\n     value: 1\n   }\n\n   // Comment\n";
    let content = apply_text(diff, "Header {\n  Body {\n    value: 1\n  }\n\n  // Comment\n}\n\nHeader {\n  Body {\n    value: 1\n  }\n\n  // Comment\n}\n").unwrap();
    assert!(content.contains("Body {\n    new: true\n    value: 1\n  }\n\n  // Comment\n}\n\nHeader {\n  Body {\n    value: 1\n  }"));
}

#[test]
fn applies_hunkless_with_multiple_labels_and_empty_lines() {
    let diff = "file file.txt\nlabel Header {\n\n   Body {\n+    new: true\n     value: 1\n   }\n\n   // Comment\n\nlabel Header {\n\n   Body {\n+    new: true\n     value: 1\n   }\n\n   // Comment\n";
    let content = apply_text(diff, "Header {\n  Body {\n    value: 1\n  }\n\n  // Comment\n}\n\nHeader {\n  Body {\n    value: 1\n  }\n\n  // Comment\n}\n").unwrap();
    assert_eq!(content.matches("Body {\n    new: true\n    value: 1\n  }").count(), 2);
}

#[test]
fn applier_fails_on_context_mismatch() {
    let diff = "--- a/file.txt\n+++ b/file.txt\n@@ -1,1 +1,1 @@\n context expected line\n";
    assert!(apply_text(diff, "different line").is_err());
}

#[test]
fn applier_fails_on_whitespace_mismatch() {
    let diff = "--- file.txt\n+++ file.txt\n@@ -1,1 +1,1 @@\n  context\n";
    assert!(apply_text(diff, "    context\n").is_err());
}

#[test]
fn fails_without_hunkless_heuristic() {
    let diff = "--- a/file.txt\n+++ b/file.txt\n wrong context 1\n actual line 2\n-old line\n+new line\n";
    assert!(apply_text(diff, "actual line 1\nactual line 2\nold line\n").is_err());
}

#[test]
fn fails_with_correct_line_number_on_hunk_apply_error() {
    let diff = "--- a/a.txt\n+++ b/a.txt\n@@ -1,1 +1,1 @@\n-hello\n+world\n";
    let e = apply_text(diff, "").unwrap_err();
    assert_eq!(e.line, Some(3));
    assert_eq!(e.kind, ErrorKind::CouldNotApplyHunk);
}

#[test]
fn fails_with_prefers_best_match_for_error_reporting() {
    let diff = "file a/a.txt\n\n-A\n-C\n-*error*E\n";
    let e = apply_text(diff, "\n// Section 1\nA\nB\n\n// Section 2\nA\nC\nD\n").unwrap_err();
    assert_eq!(e.line, Some(5));
    assert_eq!(e.kind, ErrorKind::CouldNotApplyHunk);
}

#[test]
fn fails_with_correct_line_number_for_shortest_header() {
    let diff = "file a/a.txt\n\n-line one\n-line two\n-*error*line three\n";
    let e = apply_text(diff, "line one\nline two\nline three\n").unwrap_err();
    assert_eq!(e.line, Some(5));
    assert_eq!(e.kind, ErrorKind::CouldNotApplyHunk);
}

#[test]
fn fails_finding_hunk_context() {
    let diff = "--- a/a.txt\n+++ b/a.txt\n@@ -1,1 +1,1 @@\n-hello\n+world\n";
    let e = apply_text(diff, "").unwrap_err();
    assert_eq!(e.line, Some(3));
    assert_eq!(e.kind, ErrorKind::CouldNotApplyHunk);
}

#[test]
fn fails_reporting_error_on_best_match() {
    let diff = "file a/a.txt\n\n-A\n-C\n-*error*E\n";
    let e = apply_text(diff, "\n// Section 1\nA\nB\n\n// Section 2\nA\nC\nD\n").unwrap_err();
    assert_eq!(e.line, Some(5));
    assert_eq!(e.kind, ErrorKind::CouldNotApplyHunk);
}

#[test]
fn fails_matching_context_after_empty_line() {
    let diff = "file a.txt\n A\n\n C\n";
    let e = apply_text(diff, "A\n\nB\n").unwrap_err();
    assert_eq!(e.line, Some(4));
    assert_eq!(e.kind, ErrorKind::CouldNotApplyHunk);
}

#[test]
fn pure_insertion_goes_where_the_applier_stands() {
    let diff = "--- a/f\n+++ b/f\n@@ -3,0 +4 @@\n+new\n";
    assert_eq!(apply_text(diff, "1\n2\n3\n4\n").unwrap(), "new\n1\n2\n3\n4\n");
}

#[test]
fn pure_insertion_after_a_hunk_follows_it() {
    let diff = "--- a/f\n+++ b/f\n@@ -1,2 +1,2 @@\n 1\n-2\n+two\n@@ -3,0 +4 @@\n+new\n";
    assert_eq!(apply_text(diff, "1\n2\n3\n4\n").unwrap(), "1\ntwo\nnew\n3\n4\n");
}
