use nagato_apply::{ErrorKind, Hunk, Line, LineKind, Matcher, Patch};

#[test]
fn test_match_hunk_with_no_matchable_lines() {
    // A hunk with only additions has no "lines to match" (no context or deletions).
    let patch = Patch {
        lines: vec![Line { kind: LineKind::Addition, text: b"new line" }],
        ..Default::default()
    };
    let hunk = Hunk { lines_start: 0, lines_len: 1, ..Default::default() };

    let buffer = b"existing content";
    let matcher = Matcher;

    // This should not panic and should match at position 0.
    let res = matcher.find_match(buffer, &patch, &hunk, false);
    assert!(res.is_ok());
    let (pos, remaining) = res.unwrap();
    assert_eq!(pos, 0);
    assert_eq!(remaining, buffer);
}

#[test]
fn test_match_hunk_with_only_empty_context() {
    // A hunk with context lines that are empty (e.g. just a newline in the file).
    let patch = Patch {
        lines: vec![
            Line { kind: LineKind::Context, text: b"" },
            Line { kind: LineKind::Addition, text: b"new line" },
        ],
        ..Default::default()
    };
    let hunk = Hunk { lines_start: 0, lines_len: 2, ..Default::default() };

    let buffer = b"\nexisting content";
    let matcher = Matcher;

    // This should match the empty line.
    let res = matcher.find_match(buffer, &patch, &hunk, false);
    assert!(res.is_ok());
    let (pos, remaining) = res.unwrap();
    assert_eq!(pos, 0);
    assert_eq!(remaining, b"existing content");
}

#[test]
fn matcher_finds_hunk_after_offset() {
    let patch = Patch {
        lines: vec![
            Line { kind: LineKind::Context, text: b"b" },
            Line { kind: LineKind::Deletion, text: b"c" },
        ],
        ..Default::default()
    };
    let hunk = Hunk { lines_start: 0, lines_len: 2, old_span: 2, has_header: true, ..Default::default() };
    let (pos, remaining) = Matcher.find_match(b"a\nb\nc\nd\n", &patch, &hunk, false).unwrap();
    assert_eq!(pos, 2);
    assert_eq!(remaining, b"d\n");
}

#[test]
fn matcher_accepts_crlf_line_ends() {
    let patch = Patch {
        lines: vec![Line { kind: LineKind::Deletion, text: b"x" }],
        ..Default::default()
    };
    let hunk = Hunk { lines_start: 0, lines_len: 1, old_span: 1, has_header: true, ..Default::default() };
    let (pos, remaining) = Matcher.find_match(b"x\r\ny\n", &patch, &hunk, false).unwrap();
    assert_eq!(pos, 0);
    assert_eq!(remaining, b"y\n");
}

#[test]
fn matcher_reports_hunk_line_when_nothing_matches() {
    let patch = Patch {
        lines: vec![Line { kind: LineKind::Deletion, text: b"missing" }],
        ..Default::default()
    };
    let hunk = Hunk {
        lines_start: 0,
        lines_len: 1,
        old_span: 1,
        patch_line_num: 7,
        has_header: true,
        ..Default::default()
    };
    let e = Matcher.find_match(b"other\n", &patch, &hunk, false).unwrap_err();
    assert_eq!(e.kind, ErrorKind::CouldNotApplyHunk);
    assert_eq!(e.line, Some(7));
}

#[test]
fn matcher_label_narrows_the_search() {
    let patch = Patch {
        lines: vec![Line { kind: LineKind::Deletion, text: b"body" }],
        ..Default::default()
    };
    let hunk = Hunk {
        lines_start: 0,
        lines_len: 1,
        old_span: 1,
        has_header: true,
        label: Some(b"fn second"),
        ..Default::default()
    };
    let buffer = b"fn first\nbody\nfn second\nbody\n";
    let (pos, remaining) = Matcher.find_match(buffer, &patch, &hunk, false).unwrap();
    assert_eq!(pos, 24);
    assert_eq!(remaining, b"");
}
