use nagato_apply::{ErrorKind, LineKind, Parser};

fn first_error(diff: &str) -> ErrorKind {
    match Parser::new(diff.as_bytes()).next().unwrap() {
        Err(e) => e.kind,
        Ok(_) => panic!("Expected an error but got Ok"),
    }
}

#[test]
fn test_parser_error_no_file_info() {
    assert_eq!(first_error("@@ -1,1 +1,1 @@\n-old\n+new\n"), ErrorKind::PatchHasContentButNoFileInfo);
}

#[test]
fn test_parser_error_line_count_mismatch() {
    assert_eq!(
        first_error("--- a/file.txt\n+++ b/file.txt\n@@ -1,1 +1,2 @@\n-old\n+new\n"),
        ErrorKind::HunkLineCountMismatch
    );
}

#[test]
fn test_parser_error_invalid_hunk_range_old_non_digit() {
    assert_eq!(
        first_error("--- a/file.txt\n+++ b/file.txt\n@@ -a,1 +1,1 @@\n-old\n+new\n"),
        ErrorKind::InvalidHunkRange
    );
}

#[test]
fn test_parser_error_invalid_hunk_range_new_non_digit() {
    assert_eq!(
        first_error("--- a/file.txt\n+++ b/file.txt\n@@ -1,1 +1,a @@\n-old\n+new\n"),
        ErrorKind::InvalidHunkRange
    );
}

#[test]
fn test_parser_error_invalid_hunk_range_no_comma_non_digit() {
    assert_eq!(
        first_error("--- a/file.txt\n+++ b/file.txt\n@@ -a +1 @@\n-old\n+new\n"),
        ErrorKind::InvalidHunkRange
    );
}

#[test]
fn test_parser_index_mode() {
    let diff = "diff --git a/file b/file\nindex abcdef0..1234567 100755\n--- a/file\n+++ b/file\n";
    let patch = Parser::new(diff.as_bytes()).next().unwrap().unwrap();
    assert_eq!(patch.new_mode, Some(0o100755));
}

#[test]
fn test_parser_hunk_range_defaults() {
    let diff = "--- a/file.txt\n+++ b/file.txt\n@@ -1 +1 @@\n-old\n+new\n";
    let patch = Parser::new(diff.as_bytes()).next().unwrap().unwrap();
    assert_eq!(patch.hunks[0].old_span, 1);
    assert_eq!(patch.hunks[0].new_span, 1);
}

#[test]
fn parser_reads_file_names_and_lines() {
    let diff = "diff --git a/src/x.txt b/src/x.txt\n--- a/src/x.txt\n+++ b/src/x.txt\n@@ -1,2 +1,2 @@\n keep\n-old\n+new\n";
    let patch = Parser::new(diff.as_bytes()).next().unwrap().unwrap();
    assert_eq!(patch.old_file, b"src/x.txt".to_vec());
    assert_eq!(patch.new_file, b"src/x.txt".to_vec());
    assert_eq!(patch.hunks.len(), 1);
    let hunk = patch.hunks[0];
    assert_eq!(hunk.patch_line_num, 4);
    assert!(hunk.has_header);
    let lines = patch.hunk_lines(&hunk);
    assert_eq!(lines.len(), 3);
    assert_eq!(lines[0].kind, LineKind::Context);
    assert_eq!(lines[1].kind, LineKind::Deletion);
    assert_eq!(lines[1].text, b"old");
    assert_eq!(lines[2].kind, LineKind::Addition);
}

#[test]
fn parser_reads_several_patches() {
    let diff = "--- a/one\n+++ b/one\n@@ -1 +1 @@\n-a\n+b\n--- a/two\n+++ b/two\n@@ -1 +1 @@\n-c\n+d\n";
    let mut parser = Parser::new(diff.as_bytes());
    let first = parser.next().unwrap().unwrap();
    let second = parser.next().unwrap().unwrap();
    assert!(parser.next().is_none());
    assert_eq!(first.new_file, b"one".to_vec());
    assert_eq!(second.new_file, b"two".to_vec());
}

#[test]
fn parser_headerless_hunk_has_no_header() {
    let diff = "file a/f.txt\n ctx\n-old\n+new\n";
    let patch = Parser::new(diff.as_bytes()).next().unwrap().unwrap();
    assert_eq!(patch.hunks.len(), 1);
    assert!(!patch.hunks[0].has_header);
    assert_eq!(patch.hunks[0].old_span, 2);
    assert_eq!(patch.hunks[0].new_span, 2);
}

#[test]
fn parser_reads_git_header_fields() {
    let diff = "diff --git a/old.txt b/new.txt\nsimilarity index 90%\nrename from old.txt\nrename to new.txt\nnew file mode 100755\ndeleted file mode 100644\n";
    let patch = Parser::new(diff.as_bytes()).next().unwrap().unwrap();
    assert_eq!(patch.old_file, b"old.txt".to_vec());
    assert_eq!(patch.new_file, b"new.txt".to_vec());
    assert_eq!(patch.similarity, Some(90));
    assert_eq!(patch.rename_from, Some(b"old.txt".to_vec()));
    assert_eq!(patch.rename_to, Some(b"new.txt".to_vec()));
    assert_eq!(patch.new_mode, Some(0o100755));
    assert_eq!(patch.old_mode, Some(0o100644));
}

#[test]
fn parser_unquotes_paths() {
    let diff = "diff --git \"a/with space.txt\" \"b/with space.txt\"\n--- \"a/with space.txt\"\n+++ \"b/with space.txt\"\n@@ -1 +1 @@\n-x\n+y\n";
    let patch = Parser::new(diff.as_bytes()).next().unwrap().unwrap();
    assert_eq!(patch.old_file, b"with space.txt".to_vec());
    assert_eq!(patch.new_file, b"with space.txt".to_vec());
}

#[test]
fn parser_reads_binary_fragments() {
    let diff = "diff --git a/b.dat b/b.dat\nindex 1234567..89abcde 100644\nGIT binary patch\nliteral 6\nNc-kw^FUm<_000Qj0x19h\n\nliteral 12\nTc-qTI&B@7ED9<m-Nnrp09%uwz\n";
    let patch = Parser::new(diff.as_bytes()).next().unwrap().unwrap();
    assert!(patch.binary);
    // The empty line between the two fragments is passed over.
    assert_eq!(patch.binary_fragments.len(), 2);
    assert_eq!(patch.binary_fragments[0].size, 6);
    assert_eq!(patch.binary_fragments[1].size, 12);
    assert_eq!(patch.binary_fragment_data(&patch.binary_fragments[0]), &[&b"Nc-kw^FUm<_000Qj0x19h"[..]][..]);
    assert_eq!(patch.old_hash, Some(&b"1234567"[..]));
    assert_eq!(patch.new_mode, Some(0o100644));
}

#[test]
fn parser_reads_binary_files_differ() {
    let diff = "diff --git a/x.png b/x.png\nBinary files a/x.png and b/x.png differ\n";
    let patch = Parser::new(diff.as_bytes()).next().unwrap().unwrap();
    assert!(patch.binary);
    assert_eq!(patch.old_file, b"x.png".to_vec());
    assert_eq!(patch.new_file, b"x.png".to_vec());
}

#[test]
fn parser_no_newline_marks_the_new_file() {
    let diff = "--- a/f\n+++ b/f\n@@ -1 +1 @@\n-a\n+b\n\\ No newline at end of file\n";
    let patch = Parser::new(diff.as_bytes()).next().unwrap().unwrap();
    assert!(patch.new_file_no_newline);
    assert!(!patch.old_file_no_newline);
}
