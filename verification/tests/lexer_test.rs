use nagato_apply::{hunk_label, index_from_fields, ranges_from_fields, ErrorKind, Lexer, LexerMode, TokenKind};

fn tokens(input: &str) -> Vec<TokenKind<'_>> {
    let mut lexer = Lexer::new(input.as_bytes());
    let mut out = Vec::new();
    while let Some(item) = lexer.next() {
        out.push(item.unwrap().token);
    }
    out
}

#[test]
fn test_lexer_errors() {
    // Test unexpected line starting with random character
    let mut lexer = Lexer::new(b"xyz\n");
    assert_eq!(lexer.next().unwrap().unwrap_err().kind, ErrorKind::UnexpectedLine);

    // Test index with invalid format (missing ..)
    let mut lexer = Lexer::new(b"index abcdef0\n");
    assert_eq!(lexer.next().unwrap().unwrap_err().kind, ErrorKind::InvalidIndexHeader);

    // Test similarity index with invalid format (missing %)
    let mut lexer = Lexer::new(b"similarity index 100\n");
    assert_eq!(lexer.next().unwrap().unwrap_err().kind, ErrorKind::InvalidPercentage);

    // Test similarity index with non-integer percentage
    let mut lexer = Lexer::new(b"similarity index abc%\n");
    assert_eq!(lexer.next().unwrap().unwrap_err().kind, ErrorKind::InvalidPercentage);

    // Test dissimilarity index with invalid format (missing %)
    let mut lexer = Lexer::new(b"dissimilarity index abc%\n");
    assert_eq!(lexer.next().unwrap().unwrap_err().kind, ErrorKind::InvalidPercentage);

    // Test mode with invalid format (missing "mode" or "file mode")
    let mut lexer = Lexer::new(b"new other\n");
    assert_eq!(lexer.next().unwrap().unwrap_err().kind, ErrorKind::InvalidFileMode);

    // Test @@ header without space
    let mut lexer = Lexer::new(b"@@-1,1 +1,1@@\n");
    assert_eq!(lexer.next().unwrap().unwrap_err().kind, ErrorKind::UnexpectedLine);

    // Test diff header unexpected
    let mut lexer = Lexer::new(b"diff --other a b\n");
    assert_eq!(lexer.next().unwrap().unwrap_err().kind, ErrorKind::UnexpectedLine);

    // Test git binary patch mismatch
    let mut lexer = Lexer::new(b"GIT binary patch header\n");
    assert_eq!(lexer.next().unwrap().unwrap_err().kind, ErrorKind::UnexpectedLine);
}

#[test]
fn lexer_modes() {
    let input = "new mode 100644\nnew file mode 100644\nold mode 100644\nold file mode 100644\ndeleted mode 100644\ndeleted file mode 100644";
    assert_eq!(
        tokens(input),
        vec![
            TokenKind::NewFileMode(b"100644"),
            TokenKind::NewFileMode(b"100644"),
            TokenKind::OldFileMode(b"100644"),
            TokenKind::OldFileMode(b"100644"),
            TokenKind::DeletedFileMode(b"100644"),
            TokenKind::DeletedFileMode(b"100644"),
        ]
    );
}

#[test]
fn lexer_rename_and_copy() {
    let input = "rename from old.txt\nrename to new.txt\ncopy from old.txt\ncopy to new.txt";
    assert_eq!(
        tokens(input),
        vec![
            TokenKind::RenameFrom(b"old.txt"),
            TokenKind::RenameTo(b"new.txt"),
            TokenKind::CopyFrom(b"old.txt"),
            TokenKind::CopyTo(b"new.txt"),
        ]
    );
}

#[test]
fn lexer_no_newline_markers() {
    assert_eq!(tokens("\\ No newline at end of file\n"), vec![TokenKind::NoNewline]);
}

#[test]
fn lexer_hunk_headers() {
    let input = "@@ -0,0 +1,3 @@\n@@ -1,1 +1,1 @@ function_name";
    assert_eq!(
        tokens(input),
        vec![
            TokenKind::HunkHeader { old_range: b"0,0", new_range: b"1,3", label: None },
            TokenKind::HunkHeader { old_range: b"1,1", new_range: b"1,1", label: Some(b"function_name") },
        ]
    );
}

#[test]
fn test_lexer_binary_mode_transitions() {
    let toks = tokens("GIT binary patch\nliteral 5\ndata\n\ndiff --git a/file b/file");
    assert_eq!(toks.len(), 5);
    assert_eq!(toks[0], TokenKind::GitBinaryPatchHeader);
    assert_eq!(toks[1], TokenKind::BinaryPatchType { kind: b"literal", size: b"5" });
    assert_eq!(toks[2], TokenKind::BinaryData(b"data"));
    assert_eq!(toks[3], TokenKind::Gap);
    assert!(matches!(toks[4], TokenKind::FileHeader(_)));
}

#[test]
fn lexer_binary_tokenization_literal_prefix_data() {
    let mut lexer = Lexer::new(b"literal_not_a_header\ndelta_not_a_header");
    lexer.set_mode(LexerMode::Binary);
    assert_eq!(lexer.next().unwrap().unwrap().token, TokenKind::BinaryData(b"literal_not_a_header"));
    assert_eq!(lexer.next().unwrap().unwrap().token, TokenKind::BinaryData(b"delta_not_a_header"));
}

#[test]
fn lexer_line_numbers_count_from_one() {
    let mut lexer = Lexer::new(b"+a\n-b\n c\n");
    assert_eq!(lexer.next().unwrap().unwrap().line_num, 1);
    assert_eq!(lexer.next().unwrap().unwrap().line_num, 2);
    assert_eq!(lexer.next().unwrap().unwrap().line_num, 3);
    assert!(lexer.next().is_none());
}

#[test]
fn lexer_vendor_lexes_trimmed_file_and_labels() {
    let toks = tokens("file path/to/file.txt\nlabel my_custom_label");
    assert_eq!(toks.len(), 2);
    assert!(matches!(toks[0], TokenKind::FileHeader(_)));
    assert_eq!(toks[1], TokenKind::Label(b"my_custom_label"));
}

#[test]
fn lexer_short_fragment_headers_start_fragments() {
    let mut lexer = Lexer::new(b"delta 10\ndelta 5\nliteral 3\ndelta \n");
    lexer.set_mode(LexerMode::Binary);
    assert_eq!(lexer.next().unwrap().unwrap().token, TokenKind::BinaryPatchType { kind: b"delta", size: b"10" });
    assert_eq!(lexer.next().unwrap().unwrap().token, TokenKind::BinaryPatchType { kind: b"delta", size: b"5" });
    assert_eq!(lexer.next().unwrap().unwrap().token, TokenKind::BinaryPatchType { kind: b"literal", size: b"3" });
    assert_eq!(lexer.next().unwrap().unwrap().token, TokenKind::BinaryData(b"delta "));
}

#[test]
fn ranges_from_fields_strips_the_signs() {
    let parts: Vec<&[u8]> = vec![b"-1,3", b"+1,4"];
    assert_eq!(ranges_from_fields(&parts), Ok((&b"1,3"[..], &b"1,4"[..])));
    let bad: Vec<&[u8]> = vec![b"1,3", b"+1,4"];
    assert_eq!(ranges_from_fields(&bad), Err(ErrorKind::MissingRange));
    let short: Vec<&[u8]> = vec![b"-1"];
    assert_eq!(ranges_from_fields(&short), Err(ErrorKind::MissingRange));
}

#[test]
fn index_from_fields_splits_the_hashes() {
    let parts: Vec<&[u8]> = vec![b"abc..def", b"100644"];
    assert_eq!(index_from_fields(&parts), Ok((&b"abc"[..], &b"def"[..], Some(&b"100644"[..]))));
    let one: Vec<&[u8]> = vec![b"abc..def"];
    assert_eq!(index_from_fields(&one), Ok((&b"abc"[..], &b"def"[..], None)));
    let bad: Vec<&[u8]> = vec![b"abcdef"];
    assert_eq!(index_from_fields(&bad), Err(ErrorKind::InvalidIndexHeader));
    let none: Vec<&[u8]> = vec![];
    assert_eq!(index_from_fields(&none), Err(ErrorKind::InvalidIndexHeader));
}

#[test]
fn hunk_label_is_none_when_empty() {
    assert_eq!(hunk_label(b""), None);
    assert_eq!(hunk_label(b"fn main"), Some(&b"fn main"[..]));
}
