use nagato_apply::{
    apply, apply_streamed, get_line, parse_int, plan_file_change, plan_streamed_change,
    strip_git_prefix, BinaryFragment, BinaryKind, ErrorKind, FileAction, Hunk, Line, LineKind, Parser, Patch,
};

fn first_patch(diff: &str) -> Patch<'_> {
    Parser::new(diff.as_bytes()).next().unwrap().unwrap()
}

const ONE_HUNK: &str = "diff --git a/file.txt b/file.txt\nindex 0000000..0000000\n--- a/file.txt\n+++ b/file.txt\n@@ -1,3 +1,3 @@\n  context 1\n-old line\n+new line\n  context 2\n";

#[test]
fn reverses_patch() {
    let patch = first_patch(ONE_HUNK).invert();
    let out = apply(&patch, b" context 1\nnew line\n context 2\n").unwrap();
    assert_eq!(out, b" context 1\nold line\n context 2\n".to_vec());
}

#[test]
fn apply_then_reverse_gives_the_file_back() {
    let old = b" context 1\nold line\n context 2\n";
    let new = apply(&first_patch(ONE_HUNK), old).unwrap();
    assert_eq!(new, b" context 1\nnew line\n context 2\n".to_vec());
    let back = apply(&first_patch(ONE_HUNK).invert(), &new).unwrap();
    assert_eq!(back, old.to_vec());
}

#[test]
fn invert_twice_is_identity() {
    let patch = first_patch(ONE_HUNK);
    let twice = first_patch(ONE_HUNK).invert().invert();
    assert_eq!(twice, patch);
    let once = first_patch(ONE_HUNK).invert();
    assert_eq!(once.hunks[0].old_span, patch.hunks[0].new_span);
    assert_eq!(once.lines[1].kind, LineKind::Addition);
    assert_eq!(once.lines[2].kind, LineKind::Deletion);
}

#[test]
fn test_applier_invert() {
    let patch = Patch {
        old_file: b"file".to_vec(),
        new_file: b"file".to_vec(),
        rename_from: Some(b"old".to_vec()),
        rename_to: Some(b"new".to_vec()),
        ..Default::default()
    };
    let inverted = patch.invert();
    assert_eq!(inverted.old_file, b"file".to_vec());
    assert_eq!(inverted.rename_from, Some(b"new".to_vec()));
    assert_eq!(inverted.rename_to, Some(b"old".to_vec()));
}

#[test]
fn apply_without_changes_keeps_the_file() {
    let patch = Patch { old_file: b"a".to_vec(), new_file: b"a".to_vec(), ..Default::default() };
    assert_eq!(apply(&patch, b"no trailing newline").unwrap(), b"no trailing newline".to_vec());
}

#[test]
fn copy_without_hunks_ends_with_a_line_break() {
    let patch = Patch {
        old_file: b"a".to_vec(),
        new_file: b"b".to_vec(),
        copy_to: Some(b"b".to_vec()),
        ..Default::default()
    };
    assert_eq!(apply(&patch, b"x\ny").unwrap(), b"x\ny\n".to_vec());
}

#[test]
fn applier_flush_remaining() {
    let patch = Patch {
        hunks: vec![Hunk {
            old_line: 1,
            old_span: 1,
            new_line: 1,
            new_span: 1,
            lines_start: 0,
            lines_len: 1,
            has_header: true,
            ..Default::default()
        }],
        lines: vec![Line { kind: LineKind::Context, text: b"line1" }],
        ..Default::default()
    };
    let out = nagato_apply::Applier::new(b"line1\nline2\n").process(&patch).unwrap();
    assert!(String::from_utf8_lossy(&out).contains("line2"));
    assert_eq!(out, b"line1\nline2\n".to_vec());
}

#[test]
fn old_hash_is_checked_against_the_file() {
    let diff = "diff --git a/f b/f\nindex ce01362..0000000 100644\n--- a/f\n+++ b/f\n@@ -1 +1 @@\n-hello\n+world\n";
    assert_eq!(apply(&first_patch(diff), b"hello\n").unwrap(), b"world\n".to_vec());
    let e = apply(&first_patch(diff), b"hellp\n").unwrap_err();
    assert_eq!(e.kind, ErrorKind::BinaryPatchSourceMismatch);
}

#[test]
fn literal_fragment_skips_the_hash_check() {
    let diff = "diff --git a/b.dat b/b.dat\nindex 1234567..ffbe309 100644\nGIT binary patch\nliteral 6\nNc-kw^FUm<_000Qj0x19h\n";
    assert_eq!(apply(&first_patch(diff), b"anything").unwrap(), vec![119, 111, 114, 108, 100, 0]);
}

#[test]
fn write_to_renders_the_plain_form() {
    let diff = "file a.txt\nlabel fn main() {\n-old\n+new\n";
    let patch = first_patch(diff);
    let text = patch.write_to();
    assert_eq!(String::from_utf8(text).unwrap(), "file a.txt\nlabel fn main() {\n\n-old\n+new\n");
}

#[test]
fn append_moves_the_other_hunks() {
    let mut first = first_patch("--- a/x\n+++ b/x\n@@ -1 +1 @@\n-a\n+b\n");
    let second = first_patch("--- a/x\n+++ b/x\n@@ -5 +5 @@\n-c\n+d\n");
    first.append(second);
    assert_eq!(first.hunks.len(), 2);
    assert_eq!(first.hunks[1].lines_start, 2);
    let lines = first.hunk_lines(&first.hunks[1]);
    assert_eq!(lines[0].text, b"c");
    assert_eq!(lines[1].text, b"d");
}

#[test]
fn get_line_splits_off_the_first_line() {
    assert_eq!(get_line(b"ab\r\ncd"), Some((&b"ab"[..], &b"cd"[..])));
    assert_eq!(get_line(b"ab"), Some((&b"ab"[..], &b""[..])));
    assert_eq!(get_line(b""), None);
}

#[test]
fn parse_int_reads_leading_digits() {
    assert_eq!(parse_int(b"644 rest", 8), Some((0o644, &b" rest"[..])));
    assert_eq!(parse_int(b"12", 10), Some((12, &b""[..])));
    assert_eq!(parse_int(b"x", 10), None);
}

#[test]
fn strip_git_prefix_removes_a_and_b() {
    assert_eq!(strip_git_prefix(b"a/src/x"), b"src/x");
    assert_eq!(strip_git_prefix(b"b/y"), b"y");
    assert_eq!(strip_git_prefix(b"c/y"), b"c/y");
}

#[test]
fn plans_follow_the_kind_of_change() {
    let deletion = first_patch("--- a/gone.txt\n+++ /dev/null\n@@ -1 +0,0 @@\n-x\n");
    let plan = plan_file_change(&deletion).unwrap();
    assert_eq!(plan.action, FileAction::Delete { remove_source: true });
    assert_eq!(plan.source, b"gone.txt".to_vec());
    assert_eq!(plan.mode, None);

    let creation = first_patch("diff --git a/n.txt b/n.txt\nnew file mode 100644\n--- /dev/null\n+++ b/n.txt\n@@ -0,0 +1 @@\n+x\n");
    let plan = plan_file_change(&creation).unwrap();
    assert_eq!(plan.action, FileAction::Write { must_not_exist: true, remove_source: false });
    assert_eq!(plan.mode, Some(0o100644));

    let rename = first_patch("diff --git a/o.txt b/n.txt\nrename from o.txt\nrename to n.txt\n");
    let plan = plan_file_change(&rename).unwrap();
    assert_eq!(plan.action, FileAction::Rename);
    assert_eq!(plan.source, b"o.txt".to_vec());
    assert_eq!(plan.target, b"n.txt".to_vec());

    let copy = first_patch("diff --git a/o.txt b/n.txt\ncopy from o.txt\ncopy to n.txt\n");
    let plan = plan_file_change(&copy).unwrap();
    assert_eq!(plan.action, FileAction::Copy);

    let streamed = plan_streamed_change(&first_patch(ONE_HUNK)).unwrap();
    assert!(streamed.streamed);
    assert_eq!(streamed.action, FileAction::Write { must_not_exist: false, remove_source: false });
}

#[test]
fn test_rejects_mixed_binary_and_hunks() {
    let lines: Vec<&[u8]> = vec![b"Wc-qT"];
    let patch = Patch {
        binary: true,
        binary_fragments: vec![BinaryFragment { kind: BinaryKind::Literal, size: 1, data_start: 0, data_len: 1 }],
        binary_lines: lines,
        hunks: vec![Hunk::default()],
        ..Default::default()
    };
    assert_eq!(plan_file_change(&patch).unwrap_err().kind, ErrorKind::UnsupportedBinaryPatch);
}

#[test]
fn try_apply_refuses_malformed_patches() {
    let broken = Patch { hunks: vec![Hunk { lines_start: 3, lines_len: 1, ..Default::default() }], ..Default::default() };
    assert!(nagato_apply::try_apply(&broken, b"").is_none());
}

#[test]
fn streamed_apply_matches_buffered_apply() {
    let mut parser = Parser::new(ONE_HUNK.as_bytes());
    let mut patch = parser.parse_patch_header().unwrap().unwrap();
    let out = apply_streamed(&mut patch, b" context 1\nold line\n context 2\n", &mut parser).unwrap();
    assert_eq!(out, b" context 1\nnew line\n context 2\n".to_vec());
}

#[test]
fn streamed_apply_places_hunks_without_headers() {
    let diff = "file a/file.txt\n context 3\n-same\n+changed 1\n\n context 1\n-same\n+changed 3\n";
    let mut parser = Parser::new(diff.as_bytes());
    let mut patch = parser.parse_patch_header().unwrap().unwrap();
    let out = apply_streamed(&mut patch, b"context 1\nsame\ncontext 3\nsame\n", &mut parser).unwrap();
    assert_eq!(out, b"context 1\nchanged 3\ncontext 3\nchanged 1\n".to_vec());
}

#[test]
fn line_writer_puts_line_breaks_off() {
    let mut w = nagato_apply::writer::LineWriter::new();
    w.write_line(b"a");
    w.write_line(b"b");
    assert_eq!(w.output(), b"a\nb");
    w.ensure_newline();
    assert_eq!(w.output(), b"a\nb\n");
    w.ensure_newline();
    assert_eq!(w.output(), b"a\nb\n");
}

#[test]
fn line_writer_blocks_owe_a_break_only_without_one() {
    let mut w = nagato_apply::writer::LineWriter::new();
    w.write_block(b"x\n");
    w.write_line(b"y");
    w.write_block(b"");
    w.write_block(b"z");
    w.ensure_newline();
    assert_eq!(w.into_output(), b"x\ny\nz\n".to_vec());
}

#[test]
fn overlapping_hunks_without_headers_cannot_be_applied() {
    let diff = "file a/file.txt\n Container {\n\n     Block 1 {\n-        // item 1\n+        // modified 1\n     }\n\n Container {\n\n     Block 2 {\n-        // item 2\n+        // modified 2\n     }\n";
    let source = b"Container {\n    Block 1 {\n        // item 1\n    }\n    Block 2 {\n        // item 2\n    }\n}\n";
    let patch = first_patch(diff);
    assert_eq!(apply(&patch, source).unwrap_err().kind, ErrorKind::CouldNotApplyHunk);
    let mut parser = Parser::new(diff.as_bytes());
    let mut header = parser.parse_patch_header().unwrap().unwrap();
    let res = nagato_apply::try_stream(&mut header, source, &mut parser).unwrap();
    assert_eq!(res.unwrap_err().kind, ErrorKind::CouldNotApplyHunk);
}

#[test]
fn second_hunk_inside_the_first_is_an_error() {
    let patch = first_patch("file f\n-x\n-y\n\n-y\n+z\n");
    assert_eq!(patch.hunks.len(), 2);
    assert_eq!(apply(&patch, b"x\ny\n").unwrap_err().kind, ErrorKind::CouldNotApplyHunk);
}

#[test]
fn try_apply_applies_sound_patches() {
    let out = nagato_apply::try_apply(&first_patch(ONE_HUNK), b" context 1\nold line\n context 2\n").unwrap().unwrap();
    assert_eq!(out, b" context 1\nnew line\n context 2\n".to_vec());
}

#[test]
fn reverses_file_deletion() {
    let diff = "diff --git a/file_to_delete.txt b/file_to_delete.txt\nindex 0000000..0000000\n--- a/file_to_delete.txt\n+++ /dev/null\n@@ -1,2 +0,0 @@\n-line 1\n-line 2\n";
    assert_eq!(apply(&first_patch(diff), b"line 1\nline 2\n").unwrap(), Vec::<u8>::new());
    assert_eq!(apply(&first_patch(diff).invert(), b"").unwrap(), b"line 1\nline 2\n".to_vec());
}

#[test]
fn reverses_file_creation() {
    let diff = "diff --git a/new_file.txt b/new_file.txt\nnew file mode 100644\nindex 0000000..0000000\n--- /dev/null\n+++ b/new_file.txt\n@@ -0,0 +1,2 @@\n+line 1\n+line 2\n";
    let created = apply(&first_patch(diff), b"").unwrap();
    assert_eq!(created, b"line 1\nline 2\n".to_vec());
    assert_eq!(apply(&first_patch(diff).invert(), &created).unwrap(), Vec::<u8>::new());
    let plan = plan_file_change(&first_patch(diff).invert()).unwrap();
    assert_eq!(plan.action, FileAction::Delete { remove_source: true });
}

#[test]
fn two_hunks_apply_and_reverse() {
    let diff = "--- a/f\n+++ b/f\n@@ -1,2 +1,2 @@\n a\n-b\n+B\n@@ -3,2 +3,3 @@\n c\n-d\n+D\n+E\n";
    let old = b"a\nb\nc\nd\n";
    let new = apply(&first_patch(diff), old).unwrap();
    assert_eq!(new, b"a\nB\nc\nD\nE\n".to_vec());
    assert_eq!(apply(&first_patch(diff).invert(), &new).unwrap(), old.to_vec());
}

#[test]
fn reverses_patch_with_unchanged_text_after_the_hunks() {
    let diff = "--- a/f\n+++ b/f\n@@ -1,2 +1,2 @@\n-a\n+b\n c\n";
    let forward = apply(&first_patch(diff), b"a\nc\nrest\nmore\n").unwrap();
    assert_eq!(forward, b"b\nc\nrest\nmore\n".to_vec());
    let back = apply(&first_patch(diff).invert(), &forward).unwrap();
    assert_eq!(back, b"a\nc\nrest\nmore\n".to_vec());
}

#[test]
fn reverses_a_pure_insertion() {
    let diff = "--- a/f\n+++ b/f\n@@ -1,0 +2 @@\n+new\n";
    let forward = apply(&first_patch(diff), b"1\n2\n").unwrap();
    assert_eq!(forward, b"new\n1\n2\n".to_vec());
    let back = apply(&first_patch(diff).invert(), &forward).unwrap();
    assert_eq!(back, b"1\n2\n".to_vec());
}

#[test]
fn reverses_patch_with_unchanged_lines_around_and_between_hunks() {
    let diff = "--- a/f\n+++ b/f\n@@ -2,2 +2,2 @@\n b\n-c\n+C\n@@ -5,2 +5,3 @@\n e\n-f\n+F\n+G\n";
    let source = b"a\nb\nc\nd\ne\nf\ng\n";
    let forward = apply(&first_patch(diff), source).unwrap();
    assert_eq!(forward, b"a\nb\nC\nd\ne\nF\nG\ng\n".to_vec());
    let back = apply(&first_patch(diff).invert(), &forward).unwrap();
    assert_eq!(back, source.to_vec());
}

#[test]
fn finds_a_block_that_stands_after_a_partial_one() {
    let diff = "--- a/f\n+++ b/f\n@@ -3,2 +3,2 @@\n a\n-b\n+c\n";
    assert_eq!(apply(&first_patch(diff), b"a\nx\na\nb\n").unwrap(), b"a\nx\na\nc\n".to_vec());
}
