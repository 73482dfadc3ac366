use nagato_apply::parser::parse_hunk;
use nagato_apply::{decode_base85, BinaryPaths, ErrorKind, Lexer, Parser, Patch, TokenKind};

#[test]
fn hunk_header_without_old_range_is_missing_range() {
    let mut lexer = Lexer::new(b"@@ 1,1 +1,1 @@\n");
    assert_eq!(lexer.next().unwrap().unwrap_err().kind, ErrorKind::MissingRange);
}

#[test]
fn hunk_header_without_new_range_is_missing_range() {
    let mut lexer = Lexer::new(b"@@ -1,1 1,1 @@\n");
    assert_eq!(lexer.next().unwrap().unwrap_err().kind, ErrorKind::MissingRange);
}

#[test]
fn reading_a_hunk_where_there_is_none_expects_a_header() {
    let mut parser = Parser::new(b"-a\n");
    let mut patch = Patch::default();
    let e = parse_hunk(&mut parser, &mut patch).unwrap_err();
    assert_eq!(e.kind, ErrorKind::ExpectedHunkHeader);
    assert_eq!(e.line, Some(1));
}

#[test]
fn reading_a_hunk_at_the_end_is_unexpected_eof() {
    let mut parser = Parser::new(b"");
    let mut patch = Patch::default();
    assert_eq!(parse_hunk(&mut parser, &mut patch).unwrap_err().kind, ErrorKind::UnexpectedEof);
}

#[test]
fn invalid_base85_line_is_invalid_binary_files_line() {
    let lines: Vec<&[u8]> = vec![b"!abcde"];
    assert_eq!(decode_base85(&lines).unwrap_err().kind, ErrorKind::InvalidBinaryFilesLine);
}

#[test]
fn broken_zlib_stream_is_an_io_error() {
    let lines: Vec<&[u8]> = vec![b"A00000"];
    assert!(matches!(decode_base85(&lines).unwrap_err().kind, ErrorKind::Io(_)));
}

#[test]
fn file_header_path_is_trimmed() {
    let mut lexer = Lexer::new(b"file   a.txt  \n");
    assert_eq!(
        lexer.next().unwrap().unwrap().token,
        TokenKind::FileHeader(BinaryPaths { old_file: b"a.txt", new_file: b"a.txt" })
    );
}

#[test]
fn label_text_starts_after_the_spaces() {
    let mut lexer = Lexer::new(b"label    fn x() {\n");
    assert_eq!(lexer.next().unwrap().unwrap().token, TokenKind::Label(b"fn x() {"));
}

#[test]
fn hunk_header_label_is_trimmed_at_the_start() {
    let mut lexer = Lexer::new(b"@@ -1 +1 @@   fn y()\n");
    assert_eq!(
        lexer.next().unwrap().unwrap().token,
        TokenKind::HunkHeader { old_range: b"1", new_range: b"1", label: Some(b"fn y()") }
    );
}
