use vstd::prelude::*;

use crate::bytes::{
    bytes_eq, find_byte_from, parse_int, parse_int_u32, spec_parse_int, spec_parse_int_u32,
    byte_index_from,
};
use crate::error::{Error, ErrorKind};
use crate::kw;
use crate::lexer::{item_view, lemma_lex_len, spec_lex_from, Lexer, LexerItem, LexerMode, TokenKind};
use crate::model::{
    empty_patch_view, fragment_in_bounds, hunk_in_bounds, hunk_numbers_fit, patch_wf, BinaryFragment, BinaryKind, Hunk, Line, LineKind, LineV,
    Patch, PatchView, spec_has_content_changes,
};
use crate::paths::{next_path_pair, spec_next_path_pair, spec_unquote_path, unquote_path};

verus! {

// ---------------------------------------------------------------------------
// What the parser does, stated over the lexer's items
// ---------------------------------------------------------------------------

/// The index after reading the item at `idx`, if there is one.
pub open spec fn consumed<'a>(its: Seq<Result<LexerItem<'a>, Error>>, idx: int) -> int {
    if idx < its.len() {
        idx + 1
    } else {
        idx
    }
}

/// An empty line, as a gap or as an empty context line.
pub open spec fn is_blank(t: TokenKind) -> bool {
    match t {
        TokenKind::Gap => true,
        TokenKind::Context(s) => s@.len() == 0,
        _ => false,
    }
}

/// Skipping the empty lines at `idx`: an error item ends the skip (and is read).
pub open spec fn spec_skip_blank<'a>(its: Seq<Result<LexerItem<'a>, Error>>, idx: int) -> (
    Result<(), Error>,
    int,
)
    decreases its.len() - idx,
{
    if idx < 0 || idx >= its.len() {
        (Ok(()), idx)
    } else {
        match its[idx] {
            Err(e) => (Err(e), idx + 1),
            Ok(item) => if is_blank(item.token) {
                spec_skip_blank(its, idx + 1)
            } else {
                (Ok(()), idx)
            },
        }
    }
}

/// The paths of a `diff --git` or `file` header: two paths if the text holds
/// two, else each of the given ones unquoted.
pub open spec fn header_paths(old: Seq<u8>, new: Seq<u8>) -> (Seq<u8>, Seq<u8>) {
    match spec_next_path_pair(old, Seq::empty()) {
        Some((o, n)) => (o, n),
        None => (spec_unquote_path(old), spec_unquote_path(new)),
    }
}

/// The paths of a `Binary files a and b differ` line.
pub open spec fn binary_paths(old: Seq<u8>, new: Seq<u8>) -> (Seq<u8>, Seq<u8>) {
    match spec_next_path_pair(old, kw::and_sp()) {
        Some((o, n)) => (o, n),
        None => header_paths(old, new),
    }
}

/// A file mode in octal, if it reads as one.
pub open spec fn octal_mode(m: Seq<u8>) -> Option<u32> {
    match spec_parse_int_u32(m, 8) {
        Some((v, _)) => Some(v),
        None => None,
    }
}

/// Whether a token belongs to a patch header and only sets fields of the patch.
pub open spec fn is_header_field(t: TokenKind) -> bool {
    match t {
        TokenKind::FileHeader(_) | TokenKind::Index { .. } | TokenKind::OldFile(_)
        | TokenKind::NewFile(_) | TokenKind::CopyFrom(_) | TokenKind::CopyTo(_)
        | TokenKind::RenameFrom(_) | TokenKind::RenameTo(_) | TokenKind::NewFileMode(_)
        | TokenKind::OldFileMode(_) | TokenKind::DeletedFileMode(_) | TokenKind::Similarity(_)
        | TokenKind::Dissimilarity(_) => true,
        _ => false,
    }
}

/// The patch after a header line sets its field.
pub open spec fn header_step<'a>(p: PatchView<'a>, t: TokenKind<'a>) -> PatchView<'a> {
    match t {
        TokenKind::FileHeader(paths) => {
            let (o, n) = header_paths(paths.old_file@, paths.new_file@);
            PatchView { old_file: o, new_file: n, ..p }
        },
        TokenKind::Index { old_hash, new_hash, mode } => PatchView {
            old_hash: Some(old_hash),
            new_hash: Some(new_hash),
            new_mode: if p.new_mode is Some {
                p.new_mode
            } else {
                match mode {
                    Some(m) => octal_mode(m@),
                    None => None,
                }
            },
            ..p
        },
        TokenKind::OldFile(f) => PatchView { old_file: spec_unquote_path(f@), ..p },
        TokenKind::NewFile(f) => PatchView { new_file: spec_unquote_path(f@), ..p },
        TokenKind::CopyFrom(f) => PatchView { copy_from: Some(spec_unquote_path(f@)), ..p },
        TokenKind::CopyTo(f) => PatchView { copy_to: Some(spec_unquote_path(f@)), ..p },
        TokenKind::RenameFrom(f) => PatchView { rename_from: Some(spec_unquote_path(f@)), ..p },
        TokenKind::RenameTo(f) => PatchView { rename_to: Some(spec_unquote_path(f@)), ..p },
        TokenKind::NewFileMode(m) => PatchView { new_mode: octal_mode(m@), ..p },
        TokenKind::OldFileMode(m) => PatchView { old_mode: octal_mode(m@), ..p },
        TokenKind::DeletedFileMode(m) => PatchView { old_mode: octal_mode(m@), ..p },
        TokenKind::Similarity(n) => PatchView { similarity: Some(n), ..p },
        TokenKind::Dissimilarity(n) => PatchView { dissimilarity: Some(n), ..p },
        _ => p,
    }
}

/// The run of binary data lines at `idx`, appended to the patch's data lines.
pub open spec fn spec_collect_data<'a>(
    its: Seq<Result<LexerItem<'a>, Error>>,
    idx: int,
    p: PatchView<'a>,
) -> (Result<(), Error>, int, PatchView<'a>)
    decreases its.len() - idx,
{
    if idx < 0 || idx >= its.len() {
        (Ok(()), idx, p)
    } else {
        match its[idx] {
            Err(e) => (Err(e), idx + 1, p),
            Ok(item) => match item.token {
                TokenKind::BinaryData(line) => spec_collect_data(
                    its,
                    idx + 1,
                    PatchView { binary_lines: p.binary_lines.push(line@), ..p },
                ),
                _ => (Ok(()), idx, p),
            },
        }
    }
}

pub proof fn lemma_collect_data_progress<'a>(
    its: Seq<Result<LexerItem<'a>, Error>>,
    idx: int,
    p: PatchView<'a>,
)
    requires
        0 <= idx,
    ensures
        idx <= spec_collect_data(its, idx, p).1,
        spec_collect_data(its, idx, p).1 <= if idx <= its.len() { its.len() as int } else { idx },
        spec_collect_data(its, idx, p).2.binary_lines.len() - p.binary_lines.len()
            <= spec_collect_data(its, idx, p).1 - idx,
        spec_collect_data(its, idx, p).2 == (PatchView {
            binary_lines: spec_collect_data(its, idx, p).2.binary_lines,
            ..p
        }),
        spec_collect_data(its, idx, p).2.binary_lines.len() >= p.binary_lines.len(),
        spec_collect_data(its, idx, p).2.binary_lines.subrange(0, p.binary_lines.len() as int)
            == p.binary_lines,
    decreases its.len() - idx,
{
    if idx < its.len() {
        match its[idx] {
            Err(e) => {},
            Ok(item) => match item.token {
                TokenKind::BinaryData(line) => {
                    let q = PatchView { binary_lines: p.binary_lines.push(line@), ..p };
                    lemma_collect_data_progress(its, idx + 1, q);
                    let r = spec_collect_data(its, idx + 1, q).2;
                    assert(r.binary_lines.subrange(0, p.binary_lines.len() as int) =~= r.binary_lines.subrange(0, q.binary_lines.len() as int).subrange(0, p.binary_lines.len() as int));
                },
                _ => {},
            },
        }
    }
}

/// The kind that a `literal`/`delta` line names.
pub open spec fn fragment_kind(kind: Seq<u8>) -> BinaryKind {
    if kind == kw::literal_sp().subrange(0, 7) {
        BinaryKind::Literal
    } else {
        BinaryKind::Delta
    }
}

/// The size that a `literal`/`delta` line states; zero if it states none.
pub open spec fn fragment_size(size: Seq<u8>) -> u64 {
    match spec_parse_int(size, 10) {
        Some((v, _)) => v,
        None => 0,
    }
}

/// The fragments of a git binary patch from `idx` on: each `literal` or
/// `delta` line with the data lines that follow it; empty and context lines
/// between them are skipped, anything else ends the patch.
pub open spec fn spec_binary_loop<'a>(
    its: Seq<Result<LexerItem<'a>, Error>>,
    idx: int,
    p: PatchView<'a>,
) -> (Result<(), Error>, int, PatchView<'a>)
    decreases its.len() - idx,
{
    if idx < 0 || idx >= its.len() {
        (Ok(()), idx, p)
    } else {
        match its[idx] {
            Err(e) => (Err(e), idx + 1, p),
            Ok(item) => match item.token {
                TokenKind::BinaryPatchType { kind, size } => {
                    let start = p.binary_lines.len();
                    let (res, i2, p2) = spec_collect_data(its, idx + 1, p);
                    match res {
                        Err(e) => (Err(e), i2, p2),
                        Ok(()) => {
                            proof {
                                lemma_collect_data_progress(its, idx + 1, p);
                            }
                            spec_binary_loop(
                                its,
                                i2,
                                PatchView {
                                    binary_fragments: p2.binary_fragments.push(
                                        BinaryFragment {
                                            kind: fragment_kind(kind@),
                                            size: fragment_size(size@),
                                            data_start: start as u32,
                                            data_len: (p2.binary_lines.len() - start) as u32,
                                        },
                                    ),
                                    ..p2
                                },
                            )
                        },
                    }
                },
                TokenKind::Context(_) | TokenKind::Gap => spec_binary_loop(its, idx + 1, p),
                _ => (Ok(()), idx, p),
            },
        }
    }
}

/// Reading a patch header from `idx` on: header lines set fields of the
/// patch; a `Binary files` line marks it binary and (with the item after it)
/// is read; `GIT binary patch` starts its fragments and ends the header;
/// anything else ends the header unread.
pub open spec fn spec_parse_header<'a>(
    its: Seq<Result<LexerItem<'a>, Error>>,
    idx: int,
    p: PatchView<'a>,
) -> (Result<(), Error>, int, PatchView<'a>)
    decreases its.len() - idx,
{
    if idx < 0 || idx >= its.len() {
        (Ok(()), idx, p)
    } else {
        match its[idx] {
            Err(e) => (Err(e), idx + 1, p),
            Ok(item) => match item.token {
                TokenKind::Binary(paths) => {
                    let (o, n) = binary_paths(paths.old_file@, paths.new_file@);
                    spec_parse_header(
                        its,
                        consumed(its, idx + 1),
                        PatchView { old_file: o, new_file: n, binary: true, ..p },
                    )
                },
                TokenKind::GitBinaryPatchHeader => spec_binary_loop(
                    its,
                    idx + 1,
                    PatchView { binary: true, ..p },
                ),
                t => if is_header_field(t) {
                    spec_parse_header(its, idx + 1, header_step(p, t))
                } else {
                    (Ok(()), idx, p)
                },
            },
        }
    }
}

/// The lines of a hunk from `idx` on, appended to the patch's lines, with
/// the counts of old-side and new-side lines and of lines so far. For a
/// hunk without a header an empty line ends the hunk. A `\ No newline`
/// marker sets the no-newline flag of the side(s) that the hunk's last line
/// belongs to; any other line clears the flags of its sides.
pub open spec fn spec_collect_lines<'a>(
    its: Seq<Result<LexerItem<'a>, Error>>,
    idx: int,
    p: PatchView<'a>,
    headerless: bool,
    old_span: nat,
    new_span: nat,
    count: nat,
) -> (Result<(nat, nat, nat), Error>, int, PatchView<'a>)
    decreases its.len() - idx,
{
    if idx < 0 || idx >= its.len() {
        (Ok((old_span, new_span, count)), idx, p)
    } else {
        match its[idx] {
            Err(e) => (Err(e), idx + 1, p),
            Ok(item) => if headerless && is_blank(item.token) {
                (Ok((old_span, new_span, count)), idx, p)
            } else {
                match item.token {
                    TokenKind::Addition(text) => spec_collect_lines(
                        its,
                        idx + 1,
                        PatchView {
                            new_file_no_newline: false,
                            lines: p.lines.push(LineV { kind: LineKind::Addition, text: text@ }),
                            ..p
                        },
                        headerless,
                        old_span,
                        new_span + 1,
                        count + 1,
                    ),
                    TokenKind::Deletion(text) => spec_collect_lines(
                        its,
                        idx + 1,
                        PatchView {
                            old_file_no_newline: false,
                            lines: p.lines.push(LineV { kind: LineKind::Deletion, text: text@ }),
                            ..p
                        },
                        headerless,
                        old_span + 1,
                        new_span,
                        count + 1,
                    ),
                    TokenKind::Context(text) => spec_collect_lines(
                        its,
                        idx + 1,
                        PatchView {
                            old_file_no_newline: false,
                            new_file_no_newline: false,
                            lines: p.lines.push(LineV { kind: LineKind::Context, text: text@ }),
                            ..p
                        },
                        headerless,
                        old_span + 1,
                        new_span + 1,
                        count + 1,
                    ),
                    TokenKind::Gap => spec_collect_lines(
                        its,
                        idx + 1,
                        PatchView {
                            old_file_no_newline: false,
                            new_file_no_newline: false,
                            lines: p.lines.push(LineV { kind: LineKind::Gap, text: Seq::empty() }),
                            ..p
                        },
                        headerless,
                        old_span + 1,
                        new_span + 1,
                        count + 1,
                    ),
                    TokenKind::NoNewline => if count == 0 {
                        spec_collect_lines(its, idx + 1, p, headerless, old_span, new_span, count)
                    } else {
                        let last = p.lines.last().kind;
                        spec_collect_lines(
                            its,
                            idx + 1,
                            PatchView {
                                new_file_no_newline: if new_span > 0 && last != LineKind::Deletion {
                                    true
                                } else {
                                    p.new_file_no_newline
                                },
                                old_file_no_newline: if old_span > 0 && last != LineKind::Addition {
                                    true
                                } else {
                                    p.old_file_no_newline
                                },
                                ..p
                            },
                            headerless,
                            old_span,
                            new_span,
                            count,
                        )
                    },
                    _ => (Ok((old_span, new_span, count)), idx, p),
                }
            },
        }
    }
}

/// The start line and span of a hunk range `line[,span]`; the span is one
/// when absent. Text after each number is ignored.
pub open spec fn spec_parse_range(range: Seq<u8>) -> Result<(u32, u32), ErrorKind> {
    let i = byte_index_from(range, 44u8, 0);
    if i >= range.len() {
        match spec_parse_int_u32(range, 10) {
            Some((line, _)) => Ok((line, 1)),
            None => Err(ErrorKind::InvalidHunkRange),
        }
    } else {
        match spec_parse_int_u32(range.subrange(0, i), 10) {
            None => Err(ErrorKind::InvalidHunkRange),
            Some((line, _)) => match spec_parse_int_u32(range.subrange(i + 1, range.len() as int), 10) {
                None => Err(ErrorKind::InvalidHunkRange),
                Some((span, _)) => Ok((line, span)),
            },
        }
    }
}

/// A hunk with a header at `idx`: its header, then its lines; the counts of
/// old and new lines must match the header.
pub open spec fn spec_parse_hunk<'a>(
    its: Seq<Result<LexerItem<'a>, Error>>,
    idx: int,
    p: PatchView<'a>,
) -> (Result<Hunk<'a>, Error>, int, PatchView<'a>) {
    if idx < 0 || idx >= its.len() {
        (Err(Error { line: None, kind: ErrorKind::UnexpectedEof }), idx, p)
    } else {
        match its[idx] {
            Err(e) => (Err(e), idx + 1, p),
            Ok(item) => match item.token {
                TokenKind::HunkHeader { old_range, new_range, label } => match spec_parse_range(
                    old_range@,
                ) {
                    Err(k) => (Err(Error { line: Some(item.line_num), kind: k }), idx + 1, p),
                    Ok((old_line, old_span)) => match spec_parse_range(new_range@) {
                        Err(k) => (Err(Error { line: Some(item.line_num), kind: k }), idx + 1, p),
                        Ok((new_line, new_span)) => {
                            let start = p.lines.len();
                            let (res, i2, p2) = spec_collect_lines(its, idx + 1, p, false, 0, 0, 0);
                            match res {
                                Err(e) => (Err(e), i2, p2),
                                Ok((a_old, a_new, count)) => if a_old != old_span || a_new
                                    != new_span {
                                    (
                                        Err(
                                            Error {
                                                line: Some(item.line_num),
                                                kind: ErrorKind::HunkLineCountMismatch,
                                            },
                                        ),
                                        i2,
                                        p2,
                                    )
                                } else {
                                    (
                                        Ok(
                                            Hunk {
                                                old_line,
                                                old_span,
                                                new_line,
                                                new_span,
                                                lines_start: start as u32,
                                                lines_len: count as u32,
                                                patch_line_num: item.line_num,
                                                has_header: true,
                                                label,
                                            },
                                        ),
                                        i2,
                                        p2,
                                    )
                                },
                            }
                        },
                    },
                },
                _ => (
                    Err(Error { line: Some(item.line_num), kind: ErrorKind::ExpectedHunkHeader }),
                    idx + 1,
                    p,
                ),
            },
        }
    }
}

pub proof fn lemma_collect_lines_progress<'a>(
    its: Seq<Result<LexerItem<'a>, Error>>,
    idx: int,
    p: PatchView<'a>,
    headerless: bool,
    old_span: nat,
    new_span: nat,
    count: nat,
)
    requires
        0 <= idx,
        old_span <= count,
        new_span <= count,
        count <= p.lines.len(),
    ensures
        ({
            let (res, i2, p2) = spec_collect_lines(its, idx, p, headerless, old_span, new_span, count);
            &&& idx <= i2
            &&& i2 <= if idx <= its.len() { its.len() as int } else { idx }
            &&& p2.lines.len() - p.lines.len() <= i2 - idx
            &&& p2.lines.len() >= p.lines.len()
            &&& p2.lines.subrange(0, p.lines.len() as int) == p.lines
            &&& p2 == (PatchView {
                lines: p2.lines,
                old_file_no_newline: p2.old_file_no_newline,
                new_file_no_newline: p2.new_file_no_newline,
                ..p
            })
            &&& (res matches Ok((a, b, c)) ==> a <= c && b <= c && c == count + p2.lines.len()
                - p.lines.len())
        }),
    decreases its.len() - idx,
{
    if idx < its.len() {
        match its[idx] {
            Err(e) => {},
            Ok(item) => if headerless && is_blank(item.token) {
            } else {
                match item.token {
                    TokenKind::Addition(text) => {
                        let q = PatchView {
                            new_file_no_newline: false,
                            lines: p.lines.push(LineV { kind: LineKind::Addition, text: text@ }),
                            ..p
                        };
                        lemma_collect_lines_progress(its, idx + 1, q, headerless, old_span, new_span + 1, count + 1);
                        let r = spec_collect_lines(its, idx + 1, q, headerless, old_span, new_span + 1, count + 1).2;
                        assert(r.lines.subrange(0, p.lines.len() as int) =~= r.lines.subrange(0, q.lines.len() as int).subrange(0, p.lines.len() as int));
                    },
                    TokenKind::Deletion(text) => {
                        let q = PatchView {
                            old_file_no_newline: false,
                            lines: p.lines.push(LineV { kind: LineKind::Deletion, text: text@ }),
                            ..p
                        };
                        lemma_collect_lines_progress(its, idx + 1, q, headerless, old_span + 1, new_span, count + 1);
                        let r = spec_collect_lines(its, idx + 1, q, headerless, old_span + 1, new_span, count + 1).2;
                        assert(r.lines.subrange(0, p.lines.len() as int) =~= r.lines.subrange(0, q.lines.len() as int).subrange(0, p.lines.len() as int));
                    },
                    TokenKind::Context(text) => {
                        let q = PatchView {
                            old_file_no_newline: false,
                            new_file_no_newline: false,
                            lines: p.lines.push(LineV { kind: LineKind::Context, text: text@ }),
                            ..p
                        };
                        lemma_collect_lines_progress(its, idx + 1, q, headerless, old_span + 1, new_span + 1, count + 1);
                        let r = spec_collect_lines(its, idx + 1, q, headerless, old_span + 1, new_span + 1, count + 1).2;
                        assert(r.lines.subrange(0, p.lines.len() as int) =~= r.lines.subrange(0, q.lines.len() as int).subrange(0, p.lines.len() as int));
                    },
                    TokenKind::Gap => {
                        let q = PatchView {
                            old_file_no_newline: false,
                            new_file_no_newline: false,
                            lines: p.lines.push(LineV { kind: LineKind::Gap, text: Seq::empty() }),
                            ..p
                        };
                        lemma_collect_lines_progress(its, idx + 1, q, headerless, old_span + 1, new_span + 1, count + 1);
                        let r = spec_collect_lines(its, idx + 1, q, headerless, old_span + 1, new_span + 1, count + 1).2;
                        assert(r.lines.subrange(0, p.lines.len() as int) =~= r.lines.subrange(0, q.lines.len() as int).subrange(0, p.lines.len() as int));
                    },
                    TokenKind::NoNewline => if count == 0 {
                        lemma_collect_lines_progress(its, idx + 1, p, headerless, old_span, new_span, count);
                    } else {
                        let last = p.lines.last().kind;
                        let q = PatchView {
                            new_file_no_newline: if new_span > 0 && last != LineKind::Deletion {
                                true
                            } else {
                                p.new_file_no_newline
                            },
                            old_file_no_newline: if old_span > 0 && last != LineKind::Addition {
                                true
                            } else {
                                p.old_file_no_newline
                            },
                            ..p
                        };
                        lemma_collect_lines_progress(its, idx + 1, q, headerless, old_span, new_span, count);
                    },
                    _ => {},
                }
            },
        }
    }
}


pub proof fn lemma_skip_blank_progress<'a>(its: Seq<Result<LexerItem<'a>, Error>>, idx: int)
    requires
        0 <= idx,
    ensures
        idx <= spec_skip_blank(its, idx).1,
        spec_skip_blank(its, idx).1 <= if idx <= its.len() { its.len() as int } else { idx },
        0 <= idx < its.len() && (its[idx] is Err || is_blank(its[idx]->Ok_0.token)) ==> idx
            < spec_skip_blank(its, idx).1,
    decreases its.len() - idx,
{
    if 0 <= idx < its.len() {
        match its[idx] {
            Err(e) => {},
            Ok(item) => if is_blank(item.token) {
                lemma_skip_blank_progress(its, idx + 1);
            },
        }
    }
}

/// The label that a hunk carries: its own, else the pending one (which it
/// then takes).
pub open spec fn take_label<'a>(h: Hunk<'a>, label: Option<&'a [u8]>) -> (Hunk<'a>, Option<&'a [u8]>) {
    if h.label is Some {
        (h, label)
    } else {
        (Hunk { label: label, ..h }, None)
    }
}

/// The next hunk from `idx` on, with the pending label: `label` lines set
/// the pending label; a hunk with a header is read whole; a run of hunk
/// lines without a header, up to an empty line, is a hunk without one; the
/// empty lines after a hunk are skipped; anything else means no more hunks.
pub open spec fn spec_next_hunk<'a>(
    its: Seq<Result<LexerItem<'a>, Error>>,
    idx: int,
    label: Option<&'a [u8]>,
    p: PatchView<'a>,
) -> (Result<Option<Hunk<'a>>, Error>, int, Option<&'a [u8]>, PatchView<'a>)
    decreases its.len() - idx,
{
    if idx < 0 || idx >= its.len() {
        (Ok(None), idx, label, p)
    } else {
        match its[idx] {
            Err(e) => (Err(e), idx + 1, label, p),
            Ok(item) => match item.token {
                TokenKind::Label(l) => {
                    let (r, i2) = spec_skip_blank(its, idx + 1);
                    match r {
                        Err(e) => (Err(e), i2, Some(l), p),
                        Ok(()) => if idx < i2 <= its.len() {
                            spec_next_hunk(its, i2, Some(l), p)
                        } else {
                            (Ok(None), i2, Some(l), p)
                        },
                    }
                },
                TokenKind::HunkHeader { .. } => {
                    let (r, i2, p2) = spec_parse_hunk(its, idx, p);
                    match r {
                        Err(e) => (Err(e), i2, label, p2),
                        Ok(h) => {
                            let (h2, label2) = take_label(h, label);
                            let (rs, i3) = spec_skip_blank(its, i2);
                            match rs {
                                Err(e) => (Err(e), i3, label2, p2),
                                Ok(()) => (Ok(Some(h2)), i3, label2, p2),
                            }
                        },
                    }
                },
                TokenKind::Addition(_) | TokenKind::Deletion(_) | TokenKind::Context(_)
                | TokenKind::Gap => {
                    let start = p.lines.len();
                    let (r, i2, p2) = spec_collect_lines(its, idx, p, true, 0, 0, 0);
                    match r {
                        Err(e) => (Err(e), i2, label, p2),
                        Ok((o, n, c)) => if c > 0 {
                            let h = Hunk {
                                old_line: 0,
                                old_span: o as u32,
                                new_line: 0,
                                new_span: n as u32,
                                lines_start: start as u32,
                                lines_len: c as u32,
                                patch_line_num: if item.line_num >= 1 {
                                    (item.line_num - 1) as u32
                                } else {
                                    0
                                },
                                has_header: false,
                                label: label,
                            };
                            let (rs, i3) = spec_skip_blank(its, i2);
                            match rs {
                                Err(e) => (Err(e), i3, None, p2),
                                Ok(()) => (Ok(Some(h)), i3, None, p2),
                            }
                        } else {
                            let (rs, i3) = spec_skip_blank(its, i2);
                            match rs {
                                Err(e) => (Err(e), i3, label, p2),
                                Ok(()) => if idx < i3 <= its.len() {
                                    spec_next_hunk(its, i3, label, p2)
                                } else {
                                    (Ok(None), i3, label, p2)
                                },
                            }
                        },
                    }
                },
                _ => (Ok(None), idx, label, p),
            },
        }
    }
}

/// All hunks from `idx` on, appended to the patch's hunks.
pub open spec fn spec_parse_hunks<'a>(
    its: Seq<Result<LexerItem<'a>, Error>>,
    idx: int,
    label: Option<&'a [u8]>,
    p: PatchView<'a>,
) -> (Result<(), Error>, int, Option<&'a [u8]>, PatchView<'a>)
    decreases its.len() - idx,
{
    let (r, i2, label2, p2) = spec_next_hunk(its, idx, label, p);
    match r {
        Err(e) => (Err(e), i2, label2, p2),
        Ok(None) => (Ok(()), i2, label2, p2),
        Ok(Some(h)) => if idx < i2 <= its.len() {
            spec_parse_hunks(its, i2, label2, PatchView { hunks: p2.hunks.push(h), ..p2 })
        } else {
            (Ok(()), i2, label2, PatchView { hunks: p2.hunks.push(h), ..p2 })
        },
    }
}

/// One patch from `idx` on: its header, then its hunks. Hunks with no file
/// named are an error that points at the patch's first line.
pub open spec fn spec_parse_patch<'a>(its: Seq<Result<LexerItem<'a>, Error>>, idx: int) -> (
    Result<PatchView<'a>, Error>,
    int,
    Option<&'a [u8]>,
) {
    if 0 <= idx < its.len() && its[idx] is Err {
        (Err(its[idx]->Err_0), idx + 1, None)
    } else {
        let start_line = if 0 <= idx < its.len() {
            its[idx]->Ok_0.line_num
        } else {
            0
        };
        let (r, i2, p2) = spec_parse_header(its, idx, empty_patch_view());
        match r {
            Err(e) => (Err(e), i2, None),
            Ok(()) => {
                let (r3, i3, label3, p3) = spec_parse_hunks(its, i2, None, p2);
                match r3 {
                    Err(e) => (Err(e), i3, label3),
                    Ok(()) => if p3.hunks.len() > 0 && p3.old_file.len() == 0 && p3.new_file.len()
                        == 0 {
                        (
                            Err(
                                Error {
                                    line: Some(start_line),
                                    kind: ErrorKind::PatchHasContentButNoFileInfo,
                                },
                            ),
                            i3,
                            label3,
                        )
                    } else {
                        (Ok(p3), i3, label3)
                    },
                }
            },
        }
    }
}

/// The next patch from `idx` on, after the empty lines; nothing at the end
/// of the items, or when what is left names no file and changes nothing.
pub open spec fn spec_next_patch<'a>(
    its: Seq<Result<LexerItem<'a>, Error>>,
    idx: int,
    label: Option<&'a [u8]>,
) -> (Option<Result<PatchView<'a>, Error>>, int, Option<&'a [u8]>) {
    let (r, i1) = spec_skip_blank(its, idx);
    match r {
        Err(e) => (Some(Err(e)), i1, label),
        Ok(()) => if i1 >= its.len() {
            (None, i1, label)
        } else {
            let (res, i2, label2) = spec_parse_patch(its, i1);
            match res {
                Err(e) => (Some(Err(e)), i2, label2),
                Ok(p) => if !spec_has_content_changes(p) && p.old_file.len() == 0
                    && p.new_file.len() == 0 {
                    (None, i2, label2)
                } else {
                    (Some(Ok(p)), i2, label2)
                },
            }
        },
    }
}

/// The header of the next patch from `idx` on, after the empty lines;
/// nothing at the end of the items. Its hunks are left to be read.
pub open spec fn spec_parse_patch_header<'a>(
    its: Seq<Result<LexerItem<'a>, Error>>,
    idx: int,
) -> (Result<Option<PatchView<'a>>, Error>, int) {
    let (r, i1) = spec_skip_blank(its, idx);
    match r {
        Err(e) => (Err(e), i1),
        Ok(()) => if i1 >= its.len() {
            (Ok(None), i1)
        } else {
            let (r2, i2, p2) = spec_parse_header(its, i1, empty_patch_view());
            match r2 {
                Err(e) => (Err(e), i2),
                Ok(()) => (Ok(Some(p2)), i2),
            }
        },
    }
}

/// Whether the lines and data lines of a patch number at most the items read.
pub open spec fn patch_fits<'a>(p: PatchView<'a>, idx: int) -> bool {
    p.lines.len() + p.binary_lines.len() <= idx
}

/// Whether item `k` names line `k + 1` of the text.
pub open spec fn lines_numbered<'a>(its: Seq<Result<LexerItem<'a>, Error>>) -> bool {
    forall|k: int|
        0 <= k < its.len() ==> match #[trigger] its[k] {
            Ok(item) => item.line_num == k + 1,
            Err(_) => true,
        }
}

/// Whether a token is an empty line.
fn is_blank_token(t: &TokenKind) -> (r: bool)
    ensures
        r == is_blank(*t),
{
    match t {
        TokenKind::Gap => true,
        TokenKind::Context(s) => s.len() == 0,
        _ => false,
    }
}

// ---------------------------------------------------------------------------
// The parser
// ---------------------------------------------------------------------------

/// Reads patches from a patch text, one file at a time.
pub struct Parser<'a> {
    input: &'a [u8],
    items: Vec<Result<LexerItem<'a>, Error>>,
    idx: usize,
    /// The label that the next hunk without a label of its own takes.
    pub label: Option<&'a [u8]>,
}

impl<'a> Parser<'a> {
    /// The lexer's items for the whole text.
    pub closed spec fn items(&self) -> Seq<Result<LexerItem<'a>, Error>> {
        self.items@
    }

    /// The label that the next hunk without one of its own takes.
    pub closed spec fn pending_label(&self) -> Option<&'a [u8]> {
        self.label
    }

    /// The index of the next item to read.
    pub closed spec fn idx(&self) -> int {
        self.idx as int
    }

    pub closed spec fn wf(&self) -> bool {
        &&& self.idx <= self.items@.len()
        &&& self.items@.len() < u32::MAX
        &&& lines_numbered(self.items@)
    }

    /// What a well-formed parser holds: its position within its items, fewer
    /// items than 32 bits count, and each item naming its own line.
    pub proof fn lemma_wf(&self)
        requires
            self.wf(),
        ensures
            0 <= self.idx() <= self.items().len(),
            self.items().len() < u32::MAX,
            lines_numbered(self.items()),
    {
    }

    /// Whether `input` has few enough lines for `Parser::new`.
    pub fn fits(input: &'a [u8]) -> (r: bool)
        ensures
            r == (spec_lex_from(input@, 0, 0, LexerMode::Text).len() < u32::MAX),
    {
        let mut lexer = Lexer::new(input);
        let mut count: u64 = 0;
        proof {
            lemma_lex_len(input@, 0, 0, LexerMode::Text);
        }
        loop
            invariant
                lexer.wf(),
                lexer.input() == input@,
                count + lexer.rest().len() == spec_lex_from(input@, 0, 0, LexerMode::Text).len(),
                spec_lex_from(input@, 0, 0, LexerMode::Text).len() <= input@.len(),
                input@.len() == input.len(),
            decreases input@.len() - lexer.pos(),
        {
            match lexer.next() {
                Some(_) => {
                    count = count + 1;
                },
                None => {
                    return count < 0xffff_ffffu64;
                },
            }
        }
    }

    /// A parser at the start of `input`, which it reads with a `Lexer`. The
    /// text must have fewer lines than 32 bits count.
    pub fn new(input: &'a [u8]) -> (r: Self)
        requires
            spec_lex_from(input@, 0, 0, LexerMode::Text).len() < u32::MAX,
        ensures
            r.wf(),
            r.idx() == 0,
            r.pending_label() is None,
            r.items().map_values(|i: Result<LexerItem<'a>, Error>| item_view(i)) == spec_lex_from(
                input@,
                0,
                0,
                LexerMode::Text,
            ),
    {
        let mut lexer = Lexer::new(input);
        let mut items: Vec<Result<LexerItem<'a>, Error>> = Vec::new();
        proof {
            lemma_lex_len(input@, 0, 0, LexerMode::Text);
            crate::lexer::lemma_lex_line_nums(input@, 0, 0, LexerMode::Text);
        }
        loop
            invariant
                lexer.wf(),
                lexer.input() == input@,
                0 <= lexer.pos() <= input@.len(),
                items@.map_values(|i: Result<LexerItem<'a>, Error>| item_view(i)) + lexer.rest()
                    == spec_lex_from(input@, 0, 0, LexerMode::Text),
                spec_lex_from(input@, 0, 0, LexerMode::Text).len() <= input@.len(),
            ensures
                items@.map_values(|i: Result<LexerItem<'a>, Error>| item_view(i)) == spec_lex_from(
                    input@,
                    0,
                    0,
                    LexerMode::Text,
                ),
            decreases input@.len() - lexer.pos(),
        {
            let ghost before = items@;
            let ghost rest = lexer.rest();
            match lexer.next() {
                Some(item) => {
                    items.push(item);
                    proof {
                        assert(items@.map_values(|i: Result<LexerItem<'a>, Error>| item_view(i))
                            =~= before.map_values(|i: Result<LexerItem<'a>, Error>| item_view(i)).push(item_view(item)));
                        assert(before.map_values(|i: Result<LexerItem<'a>, Error>| item_view(i)) + rest
                            =~= items@.map_values(|i: Result<LexerItem<'a>, Error>| item_view(i)) + rest.drop_first());
                    }
                },
                None => {
                    assert(rest =~= Seq::<Result<(crate::lexer::Tok, u32), Error>>::empty());
                    assert(before.map_values(|i: Result<LexerItem<'a>, Error>| item_view(i)) + rest
                        =~= before.map_values(|i: Result<LexerItem<'a>, Error>| item_view(i)));
                    assert(items@.map_values(|i: Result<LexerItem<'a>, Error>| item_view(i)) =~= spec_lex_from(
                        input@,
                        0,
                        0,
                        LexerMode::Text,
                    ));
                    break;
                },
            }
        }
        proof {
            let lexed = spec_lex_from(input@, 0, 0, LexerMode::Text);
            assert forall|k: int| 0 <= k < items@.len() implies match #[trigger] items@[k] {
                Ok(item) => item.line_num == k + 1,
                Err(_) => true,
            } by {
                assert(items@.map_values(|i: Result<LexerItem<'a>, Error>| item_view(i))[k] == lexed[k]);
            }
        }
        Parser { input, items, idx: 0, label: None }
    }

    /// The next item without reading it; an error item is read and returned.
    pub fn peek_token(&mut self) -> (r: Result<Option<LexerItem<'a>>, Error>)
        requires
            old(self).wf(),
        ensures
            final(self).wf(),
            final(self).items() == old(self).items(),
            final(self).pending_label() == old(self).pending_label(),
            final(self).gap_source() == old(self).gap_source(),
            ({
                let its = old(self).items();
                let i = old(self).idx();
                if i >= its.len() {
                    r == Ok::<Option<LexerItem<'a>>, Error>(None) && final(self).idx() == i
                } else {
                    match its[i] {
                        Err(e) => r == Err::<Option<LexerItem<'a>>, Error>(e) && final(self).idx()
                            == i + 1,
                        Ok(item) => r == Ok::<Option<LexerItem<'a>>, Error>(Some(item))
                            && final(self).idx() == i,
                    }
                }
            }),
    {
        if self.idx >= self.items.len() {
            return Ok(None);
        }
        match self.items[self.idx] {
            Err(e) => {
                self.idx += 1;
                Err(e)
            },
            Ok(item) => Ok(Some(item)),
        }
    }

    fn bump(&mut self)
        requires
            old(self).wf(),
        ensures
            final(self).wf(),
            final(self).items() == old(self).items(),
            final(self).pending_label() == old(self).pending_label(),
            final(self).gap_source() == old(self).gap_source(),
            final(self).idx() == consumed(old(self).items(), old(self).idx()),
    {
        if self.idx < self.items.len() {
            self.idx += 1;
        }
    }

    /// Whether the next item satisfies `check`, without reading it; an error
    /// item is read and returned.
    pub fn peek_is<F: Fn(&TokenKind<'a>) -> bool>(&mut self, check: F) -> (r: Result<bool, Error>)
        requires
            old(self).wf(),
            forall|t: &TokenKind<'a>| #[trigger] check.requires((t,)),
        ensures
            final(self).wf(),
            final(self).items() == old(self).items(),
            final(self).pending_label() == old(self).pending_label(),
            final(self).gap_source() == old(self).gap_source(),
            ({
                let its = old(self).items();
                let i = old(self).idx();
                if i >= its.len() {
                    r == Ok::<bool, Error>(false) && final(self).idx() == i
                } else {
                    match its[i] {
                        Err(e) => r == Err::<bool, Error>(e) && final(self).idx() == i + 1,
                        Ok(item) => final(self).idx() == i && (r matches Ok(b) && check.ensures((&item.token,), b)),
                    }
                }
            }),
    {
        match self.peek_token() {
            Err(e) => Err(e),
            Ok(None) => Ok(false),
            Ok(Some(item)) => Ok(check(&item.token)),
        }
    }

    /// Skips empty lines; an error item stops the skip and is returned.
    pub fn skip_empty_context_lines(&mut self) -> (r: Result<(), Error>)
        requires
            old(self).wf(),
        ensures
            final(self).wf(),
            final(self).items() == old(self).items(),
            final(self).pending_label() == old(self).pending_label(),
            final(self).gap_source() == old(self).gap_source(),
            (r, final(self).idx()) == spec_skip_blank(old(self).items(), old(self).idx()),
            old(self).idx() <= final(self).idx(),
    {
        proof {
            lemma_skip_blank_progress(self.items@, self.idx as int);
        }
        loop
            invariant
                self.wf(),
                self.items@ == old(self).items@,
                self.label == old(self).label,
                self.input == old(self).input,
                spec_skip_blank(old(self).items@, old(self).idx as int) == spec_skip_blank(self.items@, self.idx as int),
                old(self).idx <= self.idx,
            decreases self.items@.len() - self.idx,
        {
            match self.peek_is(is_blank_token) {
                Err(e) => return Err(e),
                Ok(false) => return Ok(()),
                Ok(true) => {
                    self.idx += 1;
                },
            }
        }
    }

    pub closed spec fn gap_source(&self) -> &'a [u8] {
        self.input
    }

    /// A second parser at the same place of the same text.
    pub fn fork(&self) -> (r: Self)
        requires
            self.wf(),
        ensures
            r.wf(),
            r.items() == self.items(),
            r.idx() == self.idx(),
            r.pending_label() == self.pending_label(),
            r.gap_source() == self.gap_source(),
    {
        let mut items: Vec<Result<LexerItem<'a>, Error>> = Vec::new();
        let mut i: usize = 0;
        while i < self.items.len()
            invariant
                i <= self.items@.len(),
                items@ == self.items@.subrange(0, i as int),
            decreases self.items@.len() - i,
        {
            items.push(self.items[i]);
            i += 1;
            assert(items@ =~= self.items@.subrange(0, i as int));
        }
        assert(items@ =~= self.items@);
        Parser { input: self.input, items, idx: self.idx, label: self.label }
    }
}


/// Sets the old and the new file of `patch` from the paths of a header line.
fn set_header_paths(patch: &mut Patch, old_path: &[u8], new_path: &[u8], binary_sep: bool)
    ensures
        final(patch)@ == (PatchView {
            old_file: if binary_sep { binary_paths(old_path@, new_path@).0 } else { header_paths(old_path@, new_path@).0 },
            new_file: if binary_sep { binary_paths(old_path@, new_path@).1 } else { header_paths(old_path@, new_path@).1 },
            ..old(patch)@
        }),
{
    let and_sp = kw::and_sp_bytes();
    if binary_sep {
        if let Some((o, n)) = next_path_pair(old_path, and_sp.as_slice()) {
            patch.old_file = o;
            patch.new_file = n;
            return;
        }
    }
    let empty: [u8; 0] = [];
    assert(empty@ =~= Seq::<u8>::empty());
    match next_path_pair(old_path, empty.as_slice()) {
        Some((o, n)) => {
            patch.old_file = o;
            patch.new_file = n;
        },
        None => {
            patch.old_file = unquote_path(old_path);
            patch.new_file = unquote_path(new_path);
        },
    }
}

fn octal_mode_exec(m: &[u8]) -> (r: Option<u32>)
    ensures
        r == octal_mode(m@),
{
    match parse_int_u32(m, 8) {
        Some((v, _)) => Some(v),
        None => None,
    }
}

/// Reads the header of a patch into `patch`: the file names, hashes, modes,
/// similarity and, for a binary patch, its fragments. Stops at the first line
/// that belongs to no header, which it leaves unread.
pub fn parse_header<'a>(parser: &mut Parser<'a>, patch: &mut Patch<'a>) -> (r: Result<(), Error>)
    requires
        old(parser).wf(),
        patch_fits(old(patch)@, old(parser).idx()),
    ensures
        final(parser).wf(),
        final(parser).items() == old(parser).items(),
        final(parser).pending_label() == old(parser).pending_label(),
        final(parser).gap_source() == old(parser).gap_source(),
        patch_fits(final(patch)@, final(parser).idx()),
        (r, final(parser).idx(), final(patch)@) == spec_parse_header(
            old(parser).items(),
            old(parser).idx(),
            old(patch)@,
        ),
{
    loop
        invariant
            parser.wf(),
            parser.items@ == old(parser).items@,
            parser.pending_label() == old(parser).pending_label(),
            parser.input == old(parser).input,
            patch_fits(patch@, parser.idx as int),
            spec_parse_header(old(parser).items@, old(parser).idx as int, old(patch)@) == spec_parse_header(parser.items@, parser.idx as int, patch@),
        decreases parser.items@.len() - parser.idx,
    {
        let item = match parser.peek_token() {
            Err(e) => return Err(e),
            Ok(None) => return Ok(()),
            Ok(Some(it)) => it,
        };
        match item.token {
            TokenKind::Binary(paths) => {
                set_header_paths(patch, paths.old_file, paths.new_file, true);
                patch.binary = true;
                parser.bump();
                parser.bump();
            },
            TokenKind::GitBinaryPatchHeader => {
                parser.bump();
                return parse_binary_patch(parser, patch);
            },
            TokenKind::FileHeader(paths) => {
                set_header_paths(patch, paths.old_file, paths.new_file, false);
                parser.bump();
            },
            TokenKind::Index { old_hash, new_hash, mode } => {
                patch.old_hash = Some(old_hash);
                patch.new_hash = Some(new_hash);
                if patch.new_mode.is_none() {
                    patch.new_mode = match mode {
                        Some(m) => octal_mode_exec(m),
                        None => None,
                    };
                }
                parser.bump();
            },
            TokenKind::OldFile(f) => {
                patch.old_file = unquote_path(f);
                parser.bump();
            },
            TokenKind::NewFile(f) => {
                patch.new_file = unquote_path(f);
                parser.bump();
            },
            TokenKind::CopyFrom(f) => {
                patch.copy_from = Some(unquote_path(f));
                parser.bump();
            },
            TokenKind::CopyTo(f) => {
                patch.copy_to = Some(unquote_path(f));
                parser.bump();
            },
            TokenKind::RenameFrom(f) => {
                patch.rename_from = Some(unquote_path(f));
                parser.bump();
            },
            TokenKind::RenameTo(f) => {
                patch.rename_to = Some(unquote_path(f));
                parser.bump();
            },
            TokenKind::NewFileMode(m) => {
                patch.new_mode = octal_mode_exec(m);
                parser.bump();
            },
            TokenKind::OldFileMode(m) => {
                patch.old_mode = octal_mode_exec(m);
                parser.bump();
            },
            TokenKind::DeletedFileMode(m) => {
                patch.old_mode = octal_mode_exec(m);
                parser.bump();
            },
            TokenKind::Similarity(n) => {
                patch.similarity = Some(n);
                parser.bump();
            },
            TokenKind::Dissimilarity(n) => {
                patch.dissimilarity = Some(n);
                parser.bump();
            },
            _ => return Ok(()),
        }
    }
}

fn collect_binary_data<'a>(parser: &mut Parser<'a>, patch: &mut Patch<'a>) -> (r: Result<(), Error>)
    requires
        old(parser).wf(),
        patch_fits(old(patch)@, old(parser).idx()),
    ensures
        final(parser).wf(),
        final(parser).items() == old(parser).items(),
        final(parser).pending_label() == old(parser).pending_label(),
        final(parser).gap_source() == old(parser).gap_source(),
        patch_fits(final(patch)@, final(parser).idx()),
        (r, final(parser).idx(), final(patch)@) == spec_collect_data(
            old(parser).items(),
            old(parser).idx(),
            old(patch)@,
        ),
{
    loop
        invariant
            parser.wf(),
            parser.items@ == old(parser).items@,
            parser.pending_label() == old(parser).pending_label(),
            parser.input == old(parser).input,
            patch_fits(patch@, parser.idx as int),
            spec_collect_data(old(parser).items@, old(parser).idx as int, old(patch)@) == spec_collect_data(parser.items@, parser.idx as int, patch@),
        decreases parser.items@.len() - parser.idx,
    {
        let item = match parser.peek_token() {
            Err(e) => return Err(e),
            Ok(None) => return Ok(()),
            Ok(Some(it)) => it,
        };
        match item.token {
            TokenKind::BinaryData(line) => {
                let ghost before = patch@;
                patch.binary_lines.push(line);
                assert(patch@ =~= (PatchView { binary_lines: before.binary_lines.push(line@), ..before }));
                parser.bump();
            },
            _ => return Ok(()),
        }
    }
}

/// Reads the fragments of a git binary patch into `patch`, which it marks binary.
pub fn parse_binary_patch<'a>(parser: &mut Parser<'a>, patch: &mut Patch<'a>) -> (r: Result<
    (),
    Error,
>)
    requires
        old(parser).wf(),
        patch_fits(old(patch)@, old(parser).idx()),
    ensures
        final(parser).wf(),
        final(parser).items() == old(parser).items(),
        final(parser).pending_label() == old(parser).pending_label(),
        final(parser).gap_source() == old(parser).gap_source(),
        patch_fits(final(patch)@, final(parser).idx()),
        (r, final(parser).idx(), final(patch)@) == spec_binary_loop(
            old(parser).items(),
            old(parser).idx(),
            PatchView { binary: true, ..old(patch)@ },
        ),
{
    patch.binary = true;
    loop
        invariant
            parser.wf(),
            parser.items@ == old(parser).items@,
            parser.pending_label() == old(parser).pending_label(),
            parser.input == old(parser).input,
            patch_fits(patch@, parser.idx as int),
            spec_binary_loop(old(parser).items@, old(parser).idx as int, PatchView { binary: true, ..old(patch)@ }) == spec_binary_loop(parser.items@, parser.idx as int, patch@),
        decreases parser.items@.len() - parser.idx,
    {
        let item = match parser.peek_token() {
            Err(e) => return Err(e),
            Ok(None) => return Ok(()),
            Ok(Some(it)) => it,
        };
        match item.token {
            TokenKind::BinaryPatchType { kind, size } => {
                let ghost i_before = parser.idx as int;
                let ghost p_before = patch@;
                parser.bump();
                let lit = kw::literal_sp_bytes();
                let k = if bytes_eq(kind, &lit.as_slice()[0..7]) {
                    BinaryKind::Literal
                } else {
                    BinaryKind::Delta
                };
                let sz = match parse_int(size, 10) {
                    Some((v, _)) => v,
                    None => 0,
                };
                let start = patch.binary_lines.len();
                proof {
                    lemma_collect_data_progress(parser.items@, i_before + 1, p_before);
                }
                collect_binary_data(parser, patch)?;
                let ghost p2 = patch@;
                patch.binary_fragments.push(
                    BinaryFragment {
                        kind: k,
                        size: sz,
                        data_start: start as u32,
                        data_len: (patch.binary_lines.len() - start) as u32,
                    },
                );
                assert(patch@ =~= (PatchView {
                    binary_fragments: p2.binary_fragments.push(
                        BinaryFragment {
                            kind: fragment_kind(kind@),
                            size: fragment_size(size@),
                            data_start: start as u32,
                            data_len: (p2.binary_lines.len() - start) as u32,
                        },
                    ),
                    ..p2
                }));
            },
            TokenKind::Context(_) | TokenKind::Gap => {
                parser.bump();
            },
            _ => return Ok(()),
        }
    }
}


/// Reads the lines of a hunk into `patch` and counts its old-side lines,
/// new-side lines and lines. For a hunk without a header (`headerless`) an
/// empty line ends the hunk unread; any line that belongs to no hunk ends it
/// unread.
pub fn collect_hunk_lines<'a>(parser: &mut Parser<'a>, patch: &mut Patch<'a>, headerless: bool) -> (r:
    Result<(u32, u32, u32), Error>)
    requires
        old(parser).wf(),
        patch_fits(old(patch)@, old(parser).idx()),
    ensures
        final(parser).wf(),
        final(parser).items() == old(parser).items(),
        final(parser).pending_label() == old(parser).pending_label(),
        final(parser).gap_source() == old(parser).gap_source(),
        patch_fits(final(patch)@, final(parser).idx()),
        ({
            let (sr, si, sp) = spec_collect_lines(
                old(parser).items(),
                old(parser).idx(),
                old(patch)@,
                headerless,
                0,
                0,
                0,
            );
            &&& final(parser).idx() == si
            &&& final(patch)@ == sp
            &&& match r {
                Ok((a, b, c)) => sr == Ok::<(nat, nat, nat), Error>((a as nat, b as nat, c as nat)),
                Err(e) => sr == Err::<(nat, nat, nat), Error>(e),
            }
        }),
{
    let mut old_span: u32 = 0;
    let mut new_span: u32 = 0;
    let mut count: u32 = 0;
    let ghost start_lines = patch@.lines.len();
    let ghost start_idx = parser.idx as int;
    let empty: &'a [u8] = &parser.input[0..0];
    loop
        invariant
            parser.wf(),
            parser.items@ == old(parser).items@,
            parser.label == old(parser).label,
            parser.input == old(parser).input,
            empty@.len() == 0,
            start_lines == old(patch)@.lines.len(),
            start_idx == old(parser).idx,
            patch_fits(patch@, parser.idx as int),
            old_span <= count,
            new_span <= count,
            count == patch@.lines.len() - start_lines,
            count <= parser.idx - start_idx,
            patch@.lines.len() >= start_lines,
            spec_collect_lines(old(parser).items@, old(parser).idx as int, old(patch)@, headerless, 0, 0, 0)
                == spec_collect_lines(parser.items@, parser.idx as int, patch@, headerless, old_span as nat, new_span as nat, count as nat),
        decreases parser.items@.len() - parser.idx,
    {
        let item = match parser.peek_token() {
            Err(e) => return Err(e),
            Ok(None) => return Ok((old_span, new_span, count)),
            Ok(Some(it)) => it,
        };
        if headerless {
            let blank = match item.token {
                TokenKind::Gap => true,
                TokenKind::Context(s) => s.len() == 0,
                _ => false,
            };
            if blank {
                return Ok((old_span, new_span, count));
            }
        }
        let ghost before = patch@;
        match item.token {
            TokenKind::Addition(text) => {
                patch.new_file_no_newline = false;
                patch.lines.push(Line { kind: LineKind::Addition, text });
                new_span = new_span + 1;
                count = count + 1;
                assert(patch@ =~= (PatchView {
                    new_file_no_newline: false,
                    lines: before.lines.push(LineV { kind: LineKind::Addition, text: text@ }),
                    ..before
                }));
                parser.bump();
            },
            TokenKind::Deletion(text) => {
                patch.old_file_no_newline = false;
                patch.lines.push(Line { kind: LineKind::Deletion, text });
                old_span = old_span + 1;
                count = count + 1;
                assert(patch@ =~= (PatchView {
                    old_file_no_newline: false,
                    lines: before.lines.push(LineV { kind: LineKind::Deletion, text: text@ }),
                    ..before
                }));
                parser.bump();
            },
            TokenKind::Context(text) => {
                patch.old_file_no_newline = false;
                patch.new_file_no_newline = false;
                patch.lines.push(Line { kind: LineKind::Context, text });
                old_span = old_span + 1;
                new_span = new_span + 1;
                count = count + 1;
                assert(patch@ =~= (PatchView {
                    old_file_no_newline: false,
                    new_file_no_newline: false,
                    lines: before.lines.push(LineV { kind: LineKind::Context, text: text@ }),
                    ..before
                }));
                parser.bump();
            },
            TokenKind::Gap => {
                patch.old_file_no_newline = false;
                patch.new_file_no_newline = false;
                patch.lines.push(Line { kind: LineKind::Gap, text: empty });
                old_span = old_span + 1;
                new_span = new_span + 1;
                count = count + 1;
                assert(empty@ =~= Seq::<u8>::empty());
                assert(patch@ =~= (PatchView {
                    old_file_no_newline: false,
                    new_file_no_newline: false,
                    lines: before.lines.push(LineV { kind: LineKind::Gap, text: Seq::empty() }),
                    ..before
                }));
                parser.bump();
            },
            TokenKind::NoNewline => {
                parser.bump();
                if count > 0 {
                    let last = patch.lines[patch.lines.len() - 1].kind;
                    assert(last == patch@.lines.last().kind);
                    let last_is_deletion = match last {
                        LineKind::Deletion => true,
                        _ => false,
                    };
                    let last_is_addition = match last {
                        LineKind::Addition => true,
                        _ => false,
                    };
                    if new_span > 0 && !last_is_deletion {
                        patch.new_file_no_newline = true;
                    }
                    if old_span > 0 && !last_is_addition {
                        patch.old_file_no_newline = true;
                    }
                    assert(patch@ =~= (PatchView {
                        new_file_no_newline: if new_span > 0 && last != LineKind::Deletion {
                            true
                        } else {
                            before.new_file_no_newline
                        },
                        old_file_no_newline: if old_span > 0 && last != LineKind::Addition {
                            true
                        } else {
                            before.old_file_no_newline
                        },
                        ..before
                    }));
                }
            },
            _ => return Ok((old_span, new_span, count)),
        }
    }
}

/// The start line and span of a hunk range `line[,span]`.
pub fn parse_range(range_bytes: &[u8]) -> (r: Result<(u32, u32), ErrorKind>)
    ensures
        r == spec_parse_range(range_bytes@),
{
    let idx = find_byte_from(range_bytes, 44u8, 0);
    if idx >= range_bytes.len() {
        return match parse_int_u32(range_bytes, 10) {
            Some((line, _)) => Ok((line, 1)),
            None => Err(ErrorKind::InvalidHunkRange),
        };
    }
    let line_part = &range_bytes[0..idx];
    let span_part = &range_bytes[idx + 1..range_bytes.len()];
    let line = match parse_int_u32(line_part, 10) {
        Some((line, _)) => line,
        None => return Err(ErrorKind::InvalidHunkRange),
    };
    let span = match parse_int_u32(span_part, 10) {
        Some((span, _)) => span,
        None => return Err(ErrorKind::InvalidHunkRange),
    };
    Ok((line, span))
}

/// Reads a hunk with a header: the header, then its lines into `patch`. The
/// hunk's line counts must match its header.
pub fn parse_hunk<'a>(parser: &mut Parser<'a>, patch: &mut Patch<'a>) -> (r: Result<Hunk<'a>, Error>)
    requires
        old(parser).wf(),
        patch_fits(old(patch)@, old(parser).idx()),
    ensures
        final(parser).wf(),
        final(parser).items() == old(parser).items(),
        final(parser).pending_label() == old(parser).pending_label(),
        final(parser).gap_source() == old(parser).gap_source(),
        patch_fits(final(patch)@, final(parser).idx()),
        (r, final(parser).idx(), final(patch)@) == spec_parse_hunk(
            old(parser).items(),
            old(parser).idx(),
            old(patch)@,
        ),
{
    if parser.idx >= parser.items.len() {
        return Err(Error::new(ErrorKind::UnexpectedEof));
    }
    let entry = parser.items[parser.idx];
    parser.idx += 1;
    let item = match entry {
        Err(e) => return Err(e),
        Ok(item) => item,
    };
    let (old_range, new_range, label) = match item.token {
        TokenKind::HunkHeader { old_range, new_range, label } => (old_range, new_range, label),
        _ => return Err(Error::with_line(ErrorKind::ExpectedHunkHeader, item.line_num)),
    };
    let (old_line, old_span) = match parse_range(old_range) {
        Ok(x) => x,
        Err(k) => return Err(Error::with_line(k, item.line_num)),
    };
    let (new_line, new_span) = match parse_range(new_range) {
        Ok(x) => x,
        Err(k) => return Err(Error::with_line(k, item.line_num)),
    };
    let start = patch.lines.len();
    proof {
        lemma_collect_lines_progress(parser.items@, parser.idx as int, patch@, false, 0, 0, 0);
    }
    let (actual_old_span, actual_new_span, count) = collect_hunk_lines(parser, patch, false)?;
    if actual_old_span != old_span || actual_new_span != new_span {
        return Err(Error::with_line(ErrorKind::HunkLineCountMismatch, item.line_num));
    }
    Ok(
        Hunk {
            old_line,
            old_span,
            new_line,
            new_span,
            lines_start: start as u32,
            lines_len: count,
            patch_line_num: item.line_num,
            has_header: true,
            label,
        },
    )
}


proof fn lemma_headerless_start<'a>(its: Seq<Result<LexerItem<'a>, Error>>, idx: int, p: PatchView<'a>)
    requires
        0 <= idx < its.len(),
        its[idx] is Ok,
        ({
            let t = its[idx]->Ok_0.token;
            t is Addition || t is Deletion || t is Context || t is Gap
        }),
    ensures
        spec_collect_lines(its, idx, p, true, 0, 0, 0).0 matches Ok((o, n, c)) && c == 0 ==> is_blank(
            its[idx]->Ok_0.token,
        ) && spec_collect_lines(its, idx, p, true, 0, 0, 0).1 == idx,
{
    let item = its[idx]->Ok_0;
    if !is_blank(item.token) {
        match item.token {
            TokenKind::Addition(text) => {
                let q = PatchView {
                    new_file_no_newline: false,
                    lines: p.lines.push(LineV { kind: LineKind::Addition, text: text@ }),
                    ..p
                };
                lemma_collect_lines_progress(its, idx + 1, q, true, 0, 1, 1);
            },
            TokenKind::Deletion(text) => {
                let q = PatchView {
                    old_file_no_newline: false,
                    lines: p.lines.push(LineV { kind: LineKind::Deletion, text: text@ }),
                    ..p
                };
                lemma_collect_lines_progress(its, idx + 1, q, true, 1, 0, 1);
            },
            TokenKind::Context(text) => {
                let q = PatchView {
                    old_file_no_newline: false,
                    new_file_no_newline: false,
                    lines: p.lines.push(LineV { kind: LineKind::Context, text: text@ }),
                    ..p
                };
                lemma_collect_lines_progress(its, idx + 1, q, true, 1, 1, 1);
            },
            _ => {},
        }
    }
}

proof fn lemma_next_hunk_progress<'a>(
    its: Seq<Result<LexerItem<'a>, Error>>,
    idx: int,
    label: Option<&'a [u8]>,
    p: PatchView<'a>,
)
    requires
        0 <= idx <= its.len(),
    ensures
        ({
            let (r, i2, l2, p2) = spec_next_hunk(its, idx, label, p);
            &&& idx <= i2 <= its.len()
            &&& (r matches Ok(Some(_)) ==> idx < i2)
        }),
    decreases its.len() - idx,
{
    if idx < its.len() {
        match its[idx] {
            Err(e) => {},
            Ok(item) => match item.token {
                TokenKind::Label(l) => {
                    lemma_skip_blank_progress(its, idx + 1);
                    let (r, i2) = spec_skip_blank(its, idx + 1);
                    if r is Ok && idx < i2 <= its.len() {
                        lemma_next_hunk_progress(its, i2, Some(l), p);
                    }
                },
                TokenKind::HunkHeader { .. } => {
                    let (r, i2, p2) = spec_parse_hunk(its, idx, p);
                    lemma_parse_hunk_progress(its, idx, p);
                    lemma_skip_blank_progress(its, i2);
                },
                TokenKind::Addition(_) | TokenKind::Deletion(_) | TokenKind::Context(_)
                | TokenKind::Gap => {
                    lemma_collect_lines_progress(its, idx, p, true, 0, 0, 0);
                    let (r, i2, p2) = spec_collect_lines(its, idx, p, true, 0, 0, 0);
                    lemma_skip_blank_progress(its, i2);
                    let (rs, i3) = spec_skip_blank(its, i2);
                    if r is Ok && rs is Ok && idx < i3 <= its.len() {
                        match r {
                            Ok((o, n, c)) => if c == 0 {
                                lemma_next_hunk_progress(its, i3, label, p2);
                            },
                            Err(_) => {},
                        }
                    }
                },
                _ => {},
            },
        }
    }
}

proof fn lemma_parse_hunk_shape<'a>(its: Seq<Result<LexerItem<'a>, Error>>, idx: int, p: PatchView<'a>)
    requires
        0 <= idx < its.len(),
        its.len() < u32::MAX,
        lines_numbered(its),
        p.lines.len() <= idx,
    ensures
        ({
            let (r, i2, p2) = spec_parse_hunk(its, idx, p);
            &&& idx < i2 <= its.len()
            &&& p.lines.len() <= p2.lines.len()
            &&& p2.lines.len() - p.lines.len() <= i2 - idx - 1
            &&& p2.lines.subrange(0, p.lines.len() as int) == p.lines
            &&& p2 == (PatchView {
                lines: p2.lines,
                old_file_no_newline: p2.old_file_no_newline,
                new_file_no_newline: p2.new_file_no_newline,
                ..p
            })
            &&& (r matches Ok(h) ==> h.lines_start == p.lines.len() && h.lines_len == p2.lines.len()
                - p.lines.len() && h.patch_line_num == idx + 1)
        }),
{
    assert(p.lines.subrange(0, p.lines.len() as int) =~= p.lines);
    match its[idx] {
        Err(e) => {},
        Ok(item) => match item.token {
            TokenKind::HunkHeader { old_range, new_range, label } => {
                assert(item.line_num == idx + 1);
                lemma_collect_lines_progress(its, idx + 1, p, false, 0, 0, 0);
            },
            _ => {},
        },
    }
}

/// A hunk that `spec_next_hunk` gives names lines that the patch then holds,
/// and the line numbers of its errors fit in 32 bits; the patch only gains
/// lines and may change its no-newline marks.
pub proof fn lemma_next_hunk_fits<'a>(
    its: Seq<Result<LexerItem<'a>, Error>>,
    idx: int,
    label: Option<&'a [u8]>,
    p: PatchView<'a>,
)
    requires
        0 <= idx <= its.len(),
        its.len() < u32::MAX,
        lines_numbered(its),
        p.lines.len() <= idx,
    ensures
        ({
            let (r, i2, l2, p2) = spec_next_hunk(its, idx, label, p);
            &&& p.lines.len() <= p2.lines.len() <= i2
            &&& idx <= i2 <= its.len()
            &&& p2.lines.subrange(0, p.lines.len() as int) == p.lines
            &&& p2 == (PatchView {
                lines: p2.lines,
                old_file_no_newline: p2.old_file_no_newline,
                new_file_no_newline: p2.new_file_no_newline,
                ..p
            })
            &&& (r matches Ok(Some(h)) ==> h.lines_start + h.lines_len <= p2.lines.len() && h.patch_line_num
                + 1 + h.lines_len <= u32::MAX && idx < i2)
        }),
    decreases its.len() - idx,
{
    assert(p.lines.subrange(0, p.lines.len() as int) =~= p.lines);
    if idx < its.len() {
        match its[idx] {
            Err(e) => {},
            Ok(item) => match item.token {
                TokenKind::Label(l) => {
                    lemma_skip_blank_progress(its, idx + 1);
                    let (r, i2) = spec_skip_blank(its, idx + 1);
                    if r is Ok && idx < i2 <= its.len() {
                        lemma_next_hunk_fits(its, i2, Some(l), p);
                    }
                },
                TokenKind::HunkHeader { .. } => {
                    lemma_parse_hunk_shape(its, idx, p);
                    let (r, i2, p2) = spec_parse_hunk(its, idx, p);
                    lemma_skip_blank_progress(its, i2);
                },
                TokenKind::Addition(_) | TokenKind::Deletion(_) | TokenKind::Context(_)
                | TokenKind::Gap => {
                    assert(item.line_num == idx + 1);
                    lemma_collect_lines_progress(its, idx, p, true, 0, 0, 0);
                    let (r, i2, p2) = spec_collect_lines(its, idx, p, true, 0, 0, 0);
                    lemma_skip_blank_progress(its, i2);
                    let (rs, i3) = spec_skip_blank(its, i2);
                    if r is Ok && rs is Ok && idx < i3 <= its.len() {
                        match r {
                            Ok((o, n, c)) => if c == 0 {
                                lemma_next_hunk_fits(its, i3, label, p2);
                                let p3 = spec_next_hunk(its, i3, label, p2).3;
                                assert(p3.lines.subrange(0, p.lines.len() as int) =~= p3.lines.subrange(
                                    0,
                                    p2.lines.len() as int,
                                ).subrange(0, p.lines.len() as int));
                            },
                            Err(_) => {},
                        }
                    }
                },
                _ => {},
            },
        }
    }
}

/// Collecting hunk lines does not look at the patch's hunks: with other
/// hunks, the same lines are collected into the same patch but for them.
pub proof fn lemma_collect_lines_hunks_free<'a>(
    its: Seq<Result<LexerItem<'a>, Error>>,
    idx: int,
    p: PatchView<'a>,
    hs: Seq<Hunk<'a>>,
    headerless: bool,
    old_span: nat,
    new_span: nat,
    count: nat,
)
    ensures
        ({
            let (r1, i1, p1) = spec_collect_lines(its, idx, p, headerless, old_span, new_span, count);
            spec_collect_lines(its, idx, PatchView { hunks: hs, ..p }, headerless, old_span, new_span, count)
                == (r1, i1, PatchView { hunks: hs, ..p1 })
        }),
    decreases its.len() - idx,
{
    let ph = PatchView { hunks: hs, ..p };
    if 0 <= idx < its.len() {
        match its[idx] {
            Err(e) => {},
            Ok(item) => if headerless && is_blank(item.token) {
            } else {
                match item.token {
                    TokenKind::Addition(text) => {
                        let q = PatchView {
                            new_file_no_newline: false,
                            lines: p.lines.push(LineV { kind: LineKind::Addition, text: text@ }),
                            ..p
                        };
                        lemma_collect_lines_hunks_free(its, idx + 1, q, hs, headerless, old_span, new_span + 1, count + 1);
                        assert(PatchView {
                            new_file_no_newline: false,
                            lines: ph.lines.push(LineV { kind: LineKind::Addition, text: text@ }),
                            ..ph
                        } == PatchView { hunks: hs, ..q });
                    },
                    TokenKind::Deletion(text) => {
                        let q = PatchView {
                            old_file_no_newline: false,
                            lines: p.lines.push(LineV { kind: LineKind::Deletion, text: text@ }),
                            ..p
                        };
                        lemma_collect_lines_hunks_free(its, idx + 1, q, hs, headerless, old_span + 1, new_span, count + 1);
                        assert(PatchView {
                            old_file_no_newline: false,
                            lines: ph.lines.push(LineV { kind: LineKind::Deletion, text: text@ }),
                            ..ph
                        } == PatchView { hunks: hs, ..q });
                    },
                    TokenKind::Context(text) => {
                        let q = PatchView {
                            old_file_no_newline: false,
                            new_file_no_newline: false,
                            lines: p.lines.push(LineV { kind: LineKind::Context, text: text@ }),
                            ..p
                        };
                        lemma_collect_lines_hunks_free(its, idx + 1, q, hs, headerless, old_span + 1, new_span + 1, count + 1);
                        assert(PatchView {
                            old_file_no_newline: false,
                            new_file_no_newline: false,
                            lines: ph.lines.push(LineV { kind: LineKind::Context, text: text@ }),
                            ..ph
                        } == PatchView { hunks: hs, ..q });
                    },
                    TokenKind::Gap => {
                        let q = PatchView {
                            old_file_no_newline: false,
                            new_file_no_newline: false,
                            lines: p.lines.push(LineV { kind: LineKind::Gap, text: Seq::empty() }),
                            ..p
                        };
                        lemma_collect_lines_hunks_free(its, idx + 1, q, hs, headerless, old_span + 1, new_span + 1, count + 1);
                        assert(PatchView {
                            old_file_no_newline: false,
                            new_file_no_newline: false,
                            lines: ph.lines.push(LineV { kind: LineKind::Gap, text: Seq::empty() }),
                            ..ph
                        } == PatchView { hunks: hs, ..q });
                    },
                    TokenKind::NoNewline => if count == 0 {
                        lemma_collect_lines_hunks_free(its, idx + 1, p, hs, headerless, old_span, new_span, count);
                    } else {
                        let last = p.lines.last().kind;
                        let q = PatchView {
                            new_file_no_newline: if new_span > 0 && last != LineKind::Deletion {
                                true
                            } else {
                                p.new_file_no_newline
                            },
                            old_file_no_newline: if old_span > 0 && last != LineKind::Addition {
                                true
                            } else {
                                p.old_file_no_newline
                            },
                            ..p
                        };
                        lemma_collect_lines_hunks_free(its, idx + 1, q, hs, headerless, old_span, new_span, count);
                        assert(PatchView {
                            new_file_no_newline: if new_span > 0 && last != LineKind::Deletion {
                                true
                            } else {
                                ph.new_file_no_newline
                            },
                            old_file_no_newline: if old_span > 0 && last != LineKind::Addition {
                                true
                            } else {
                                ph.old_file_no_newline
                            },
                            ..ph
                        } == PatchView { hunks: hs, ..q });
                    },
                    _ => {},
                }
            },
        }
    }
}

/// Reading the next hunk does not look at the patch's hunks.
pub proof fn lemma_next_hunk_hunks_free<'a>(
    its: Seq<Result<LexerItem<'a>, Error>>,
    idx: int,
    label: Option<&'a [u8]>,
    p: PatchView<'a>,
    hs: Seq<Hunk<'a>>,
)
    ensures
        ({
            let (r1, i1, l1, p1) = spec_next_hunk(its, idx, label, p);
            spec_next_hunk(its, idx, label, PatchView { hunks: hs, ..p }) == (r1, i1, l1, PatchView {
                hunks: hs,
                ..p1
            })
        }),
    decreases its.len() - idx,
{
    if 0 <= idx < its.len() {
        match its[idx] {
            Err(e) => {},
            Ok(item) => match item.token {
                TokenKind::Label(l) => {
                    let (r, i2) = spec_skip_blank(its, idx + 1);
                    if r is Ok && idx < i2 <= its.len() {
                        lemma_next_hunk_hunks_free(its, i2, Some(l), p, hs);
                    }
                },
                TokenKind::HunkHeader { .. } => {
                    if let TokenKind::HunkHeader { old_range, new_range, label: hl } = item.token {
                        lemma_collect_lines_hunks_free(its, idx + 1, p, hs, false, 0, 0, 0);
                    }
                },
                TokenKind::Addition(_) | TokenKind::Deletion(_) | TokenKind::Context(_)
                | TokenKind::Gap => {
                    lemma_collect_lines_hunks_free(its, idx, p, hs, true, 0, 0, 0);
                    let (r, i2, p2) = spec_collect_lines(its, idx, p, true, 0, 0, 0);
                    let (rs, i3) = spec_skip_blank(its, i2);
                    if r is Ok && rs is Ok && idx < i3 <= its.len() {
                        lemma_next_hunk_hunks_free(its, i3, label, p2, hs);
                    }
                },
                _ => {},
            },
        }
    }
}

pub(crate) proof fn lemma_wf_grow<'a>(p: PatchView<'a>, q: PatchView<'a>)
    requires
        patch_wf(p),
        q.hunks == p.hunks,
        q.binary_fragments == p.binary_fragments,
        q.binary_lines == p.binary_lines,
        p.lines.len() <= q.lines.len(),
    ensures
        patch_wf(q),
{
    assert forall|i: int| 0 <= i < q.hunks.len() implies hunk_in_bounds(q, #[trigger] q.hunks[i])
        && hunk_numbers_fit(q.hunks[i], q.hunks[i].lines_len as int) by {
        assert(hunk_in_bounds(p, p.hunks[i]));
    }
    assert forall|i: int| 0 <= i < q.binary_fragments.len() implies fragment_in_bounds(
        q,
        #[trigger] q.binary_fragments[i],
    ) by {
        assert(fragment_in_bounds(p, p.binary_fragments[i]));
    }
}

pub(crate) proof fn lemma_wf_push<'a>(p: PatchView<'a>, h: Hunk<'a>)
    requires
        patch_wf(p),
        hunk_in_bounds(p, h),
        hunk_numbers_fit(h, h.lines_len as int),
    ensures
        patch_wf(PatchView { hunks: p.hunks.push(h), ..p }),
{
    let q = PatchView { hunks: p.hunks.push(h), ..p };
    assert forall|i: int| 0 <= i < q.hunks.len() implies hunk_in_bounds(q, #[trigger] q.hunks[i])
        && hunk_numbers_fit(q.hunks[i], q.hunks[i].lines_len as int) by {
        if i < p.hunks.len() {
            assert(q.hunks[i] == p.hunks[i]);
            assert(hunk_in_bounds(p, p.hunks[i]));
        }
    }
    assert forall|i: int| 0 <= i < q.binary_fragments.len() implies fragment_in_bounds(
        q,
        #[trigger] q.binary_fragments[i],
    ) by {
        assert(fragment_in_bounds(p, p.binary_fragments[i]));
    }
}

/// Reading the remaining hunks keeps a patch well formed.
pub(crate) proof fn lemma_parse_hunks_wf<'a>(
    its: Seq<Result<LexerItem<'a>, Error>>,
    idx: int,
    label: Option<&'a [u8]>,
    p: PatchView<'a>,
)
    requires
        0 <= idx <= its.len(),
        its.len() < u32::MAX,
        lines_numbered(its),
        p.lines.len() <= idx,
        patch_wf(p),
    ensures
        patch_wf(spec_parse_hunks(its, idx, label, p).3),
    decreases its.len() - idx,
{
    lemma_next_hunk_fits(its, idx, label, p);
    let (r, i2, l2, p2) = spec_next_hunk(its, idx, label, p);
    lemma_wf_grow(p, p2);
    match r {
        Ok(Some(h)) => {
            lemma_wf_push(p2, h);
            if idx < i2 <= its.len() {
                lemma_parse_hunks_wf(its, i2, l2, PatchView { hunks: p2.hunks.push(h), ..p2 });
            }
        },
        _ => {},
    }
}

proof fn lemma_binary_loop_wf<'a>(its: Seq<Result<LexerItem<'a>, Error>>, idx: int, p: PatchView<'a>)
    requires
        0 <= idx <= its.len(),
        its.len() < u32::MAX,
        patch_wf(p),
        patch_fits(p, idx),
    ensures
        ({
            let (r, i2, p2) = spec_binary_loop(its, idx, p);
            &&& idx <= i2 <= its.len()
            &&& patch_wf(p2)
            &&& patch_fits(p2, i2)
            &&& p2.lines == p.lines
            &&& p2.hunks == p.hunks
        }),
    decreases its.len() - idx,
{
    if idx < its.len() {
        match its[idx] {
            Err(e) => {},
            Ok(item) => match item.token {
                TokenKind::BinaryPatchType { kind, size } => {
                    lemma_collect_data_progress(its, idx + 1, p);
                    let (res, i2, p2) = spec_collect_data(its, idx + 1, p);
                    lemma_wf_grow_data(p, p2);
                    if res is Ok {
                        let start = p.binary_lines.len();
                        let f = BinaryFragment {
                            kind: fragment_kind(kind@),
                            size: fragment_size(size@),
                            data_start: start as u32,
                            data_len: (p2.binary_lines.len() - start) as u32,
                        };
                        let p3 = PatchView { binary_fragments: p2.binary_fragments.push(f), ..p2 };
                        assert forall|i: int| 0 <= i < p3.binary_fragments.len() implies fragment_in_bounds(
                            p3,
                            #[trigger] p3.binary_fragments[i],
                        ) by {
                            if i < p2.binary_fragments.len() {
                                assert(p3.binary_fragments[i] == p2.binary_fragments[i]);
                                assert(fragment_in_bounds(p2, p2.binary_fragments[i]));
                            }
                        }
                        assert forall|i: int| 0 <= i < p3.hunks.len() implies hunk_in_bounds(p3, #[trigger] p3.hunks[i])
                            && hunk_numbers_fit(p3.hunks[i], p3.hunks[i].lines_len as int) by {
                            assert(hunk_in_bounds(p2, p2.hunks[i]));
                        }
                        lemma_binary_loop_wf(its, i2, p3);
                    }
                },
                TokenKind::Context(_) | TokenKind::Gap => {
                    lemma_binary_loop_wf(its, idx + 1, p);
                },
                _ => {},
            },
        }
    }
}

proof fn lemma_wf_grow_data<'a>(p: PatchView<'a>, q: PatchView<'a>)
    requires
        patch_wf(p),
        q.hunks == p.hunks,
        q.lines == p.lines,
        q.binary_fragments == p.binary_fragments,
        p.binary_lines.len() <= q.binary_lines.len(),
    ensures
        patch_wf(q),
{
    assert forall|i: int| 0 <= i < q.hunks.len() implies hunk_in_bounds(q, #[trigger] q.hunks[i])
        && hunk_numbers_fit(q.hunks[i], q.hunks[i].lines_len as int) by {
        assert(hunk_in_bounds(p, p.hunks[i]));
    }
    assert forall|i: int| 0 <= i < q.binary_fragments.len() implies fragment_in_bounds(
        q,
        #[trigger] q.binary_fragments[i],
    ) by {
        assert(fragment_in_bounds(p, p.binary_fragments[i]));
    }
}

proof fn lemma_parse_header_wf<'a>(its: Seq<Result<LexerItem<'a>, Error>>, idx: int, p: PatchView<'a>)
    requires
        0 <= idx <= its.len(),
        its.len() < u32::MAX,
        patch_wf(p),
        patch_fits(p, idx),
    ensures
        ({
            let (r, i2, p2) = spec_parse_header(its, idx, p);
            &&& idx <= i2 <= its.len()
            &&& patch_wf(p2)
            &&& patch_fits(p2, i2)
            &&& p2.lines == p.lines
            &&& p2.hunks == p.hunks
        }),
    decreases its.len() - idx,
{
    if idx < its.len() {
        match its[idx] {
            Err(e) => {},
            Ok(item) => match item.token {
                TokenKind::Binary(paths) => {
                    let (o, n) = binary_paths(paths.old_file@, paths.new_file@);
                    let q = PatchView { old_file: o, new_file: n, binary: true, ..p };
                    lemma_wf_grow_data(p, q);
                    lemma_parse_header_wf(its, consumed(its, idx + 1), q);
                },
                TokenKind::GitBinaryPatchHeader => {
                    let q = PatchView { binary: true, ..p };
                    lemma_wf_grow_data(p, q);
                    lemma_binary_loop_wf(its, idx + 1, q);
                },
                t => if is_header_field(t) {
                    let q = header_step(p, t);
                    assert(q.lines == p.lines && q.hunks == p.hunks && q.binary_fragments == p.binary_fragments
                        && q.binary_lines == p.binary_lines);
                    lemma_wf_grow_data(p, q);
                    lemma_parse_header_wf(its, idx + 1, q);
                },
            },
        }
    }
}

/// Every patch the parser reads is well formed: its hunks name lines that
/// it holds, the line numbers of their errors fit in 32 bits, and its binary
/// fragments name data lines that it holds.
pub proof fn lemma_parsed_patch_wf<'a>(its: Seq<Result<LexerItem<'a>, Error>>, idx: int, label: Option<&'a [u8]>)
    requires
        0 <= idx <= its.len(),
        its.len() < u32::MAX,
        lines_numbered(its),
    ensures
        spec_parse_patch(its, idx).0 matches Ok(p) ==> patch_wf(p),
        spec_parse_patch_header(its, idx).0 matches Ok(Some(p)) ==> patch_wf(p),
        spec_next_patch(its, idx, label).0 matches Some(Ok(p)) ==> patch_wf(p),
{
    let e = empty_patch_view::<'a>();
    lemma_parse_header_wf(its, idx, e);
    let (r, i2, p2) = spec_parse_header(its, idx, e);
    lemma_parse_hunks_wf(its, i2, None, p2);
    lemma_skip_blank_progress(its, idx);
    let i1 = spec_skip_blank(its, idx).1;
    lemma_parse_header_wf(its, i1, e);
    let (r1, i3, p3) = spec_parse_header(its, i1, e);
    lemma_parse_hunks_wf(its, i3, None, p3);
}

proof fn lemma_parse_hunk_progress<'a>(its: Seq<Result<LexerItem<'a>, Error>>, idx: int, p: PatchView<'a>)
    requires
        0 <= idx < its.len(),
    ensures
        idx < spec_parse_hunk(its, idx, p).1 <= its.len(),
{
    match its[idx] {
        Err(e) => {},
        Ok(item) => match item.token {
            TokenKind::HunkHeader { old_range, new_range, label } => {
                lemma_collect_lines_progress(its, idx + 1, p, false, 0, 0, 0);
            },
            _ => {},
        },
    }
}

/// The next hunk of `patch`: `label` lines set the pending label, a hunk
/// with a header is read whole, a run of hunk lines without a header (up to
/// an empty line) is a hunk without one, and the empty lines after a hunk
/// are skipped. Nothing when the next line belongs to no hunk.
pub fn next_hunk<'a>(parser: &mut Parser<'a>, patch: &mut Patch<'a>) -> (r: Result<Option<Hunk<'a>>, Error>)
    requires
        old(parser).wf(),
        patch_fits(old(patch)@, old(parser).idx()),
    ensures
        final(parser).wf(),
        final(parser).items() == old(parser).items(),
        final(parser).gap_source() == old(parser).gap_source(),
        patch_fits(final(patch)@, final(parser).idx()),
        (r, final(parser).idx(), final(parser).pending_label(), final(patch)@) == spec_next_hunk(
            old(parser).items(),
            old(parser).idx(),
            old(parser).pending_label(),
            old(patch)@,
        ),
{
    loop
        invariant
            parser.wf(),
            parser.items@ == old(parser).items@,
            parser.input == old(parser).input,
            patch_fits(patch@, parser.idx as int),
            spec_next_hunk(old(parser).items@, old(parser).idx as int, old(parser).label, old(patch)@)
                == spec_next_hunk(parser.items@, parser.idx as int, parser.label, patch@),
        decreases parser.items@.len() - parser.idx,
    {
        let ghost i0 = parser.idx as int;
        let ghost l0 = parser.label;
        let ghost p0 = patch@;
        let item = match parser.peek_token() {
            Err(e) => return Err(e),
            Ok(None) => return Ok(None),
            Ok(Some(it)) => it,
        };
        match item.token {
            TokenKind::Label(l) => {
                parser.label = Some(l);
                parser.bump();
                proof {
                    lemma_skip_blank_progress(parser.items@, parser.idx as int);
                }
                parser.skip_empty_context_lines()?;
            },
            TokenKind::HunkHeader { .. } => {
                let mut hunk = parse_hunk(parser, patch)?;
                if hunk.label.is_none() {
                    hunk.label = parser.label;
                    parser.label = None;
                }
                parser.skip_empty_context_lines()?;
                return Ok(Some(hunk));
            },
            TokenKind::Addition(_) | TokenKind::Deletion(_) | TokenKind::Context(_) | TokenKind::Gap => {
                let initial_line = item.line_num;
                let start = patch.lines.len();
                proof {
                    lemma_headerless_start(parser.items@, i0, p0);
                    lemma_collect_lines_progress(parser.items@, i0, p0, true, 0, 0, 0);
                }
                let (old_span, new_span, count) = collect_hunk_lines(parser, patch, true)?;
                if count > 0 {
                    let hunk = Hunk {
                        old_line: 0,
                        old_span,
                        new_line: 0,
                        new_span,
                        lines_start: start as u32,
                        lines_len: count,
                        patch_line_num: if initial_line >= 1 {
                            initial_line - 1
                        } else {
                            0
                        },
                        has_header: false,
                        label: parser.label,
                    };
                    parser.label = None;
                    parser.skip_empty_context_lines()?;
                    return Ok(Some(hunk));
                }
                proof {
                    lemma_skip_blank_progress(parser.items@, parser.idx as int);
                }
                parser.skip_empty_context_lines()?;
            },
            _ => return Ok(None),
        }
    }
}

/// Reads all hunks of `patch` from here on.
pub fn parse_hunks<'a>(parser: &mut Parser<'a>, patch: &mut Patch<'a>) -> (r: Result<(), Error>)
    requires
        old(parser).wf(),
        patch_fits(old(patch)@, old(parser).idx()),
    ensures
        final(parser).wf(),
        final(parser).items() == old(parser).items(),
        final(parser).gap_source() == old(parser).gap_source(),
        patch_fits(final(patch)@, final(parser).idx()),
        (r, final(parser).idx(), final(parser).pending_label(), final(patch)@) == spec_parse_hunks(
            old(parser).items(),
            old(parser).idx(),
            old(parser).pending_label(),
            old(patch)@,
        ),
{
    loop
        invariant
            parser.wf(),
            parser.items@ == old(parser).items@,
            parser.input == old(parser).input,
            patch_fits(patch@, parser.idx as int),
            spec_parse_hunks(old(parser).items@, old(parser).idx as int, old(parser).label, old(patch)@)
                == spec_parse_hunks(parser.items@, parser.idx as int, parser.label, patch@),
        decreases parser.items@.len() - parser.idx,
    {
        proof {
            lemma_next_hunk_progress(parser.items@, parser.idx as int, parser.label, patch@);
        }
        match next_hunk(parser, patch)? {
            Some(h) => {
                let ghost before = patch@;
                patch.hunks.push(h);
                assert(patch@ =~= (PatchView { hunks: before.hunks.push(h), ..before }));
            },
            None => return Ok(()),
        }
    }
}

/// A patch, or the error that reading it gave, by its contents.
pub open spec fn patch_result_view<'a>(r: Result<Patch<'a>, Error>) -> Result<PatchView<'a>, Error> {
    match r {
        Ok(p) => Ok(p@),
        Err(e) => Err(e),
    }
}

impl<'a> Parser<'a> {
    /// The next hunk of `patch`; see `next_hunk`.
    pub fn next_hunk(&mut self, patch: &mut Patch<'a>) -> (r: Result<Option<Hunk<'a>>, Error>)
        requires
            old(self).wf(),
            patch_fits(old(patch)@, old(self).idx()),
        ensures
            final(self).wf(),
            final(self).items() == old(self).items(),
            patch_fits(final(patch)@, final(self).idx()),
            (r, final(self).idx(), final(self).pending_label(), final(patch)@) == spec_next_hunk(
                old(self).items(),
                old(self).idx(),
                old(self).pending_label(),
                old(patch)@,
            ),
    {
        next_hunk(self, patch)
    }


    /// Reads one patch: its header, then its hunks.
    pub fn parse_patch(&mut self) -> (r: Result<Patch<'a>, Error>)
        requires
            old(self).wf(),
        ensures
            final(self).wf(),
            final(self).items() == old(self).items(),
            final(self).gap_source() == old(self).gap_source(),
            (patch_result_view(r), final(self).idx(), final(self).pending_label()) == spec_parse_patch(
                old(self).items(),
                old(self).idx(),
            ),
            r matches Ok(p) ==> patch_fits(p@, final(self).idx()),
            r matches Ok(p) ==> patch_wf(p@),
    {
        proof {
            self.lemma_wf();
            lemma_parsed_patch_wf(self.items(), self.idx(), None);
        }
        self.label = None;
        let start_line = match self.peek_token() {
            Err(e) => return Err(e),
            Ok(Some(it)) => it.line_num,
            Ok(None) => 0,
        };
        let mut patch = Patch::default();
        parse_header(self, &mut patch)?;
        parse_hunks(self, &mut patch)?;
        if patch.hunks.len() > 0 && patch.old_file.len() == 0 && patch.new_file.len() == 0 {
            return Err(Error::with_line(ErrorKind::PatchHasContentButNoFileInfo, start_line));
        }
        Ok(patch)
    }

    /// Reads the header of the next patch and leaves its hunks to be read,
    /// as `next_hunk` does; nothing at the end of the text.
    pub fn parse_patch_header(&mut self) -> (r: Result<Option<Patch<'a>>, Error>)
        requires
            old(self).wf(),
        ensures
            final(self).wf(),
            final(self).items() == old(self).items(),
            final(self).gap_source() == old(self).gap_source(),
            final(self).pending_label() is None,
            ({
                let (sr, si) = spec_parse_patch_header(old(self).items(), old(self).idx());
                &&& final(self).idx() == si
                &&& match r {
                    Ok(Some(p)) => sr == Ok::<Option<PatchView<'a>>, Error>(Some(p@)),
                    Ok(None) => sr == Ok::<Option<PatchView<'a>>, Error>(None),
                    Err(e) => sr == Err::<Option<PatchView<'a>>, Error>(e),
                }
            }),
            r matches Ok(Some(p)) ==> patch_fits(p@, final(self).idx()),
            r matches Ok(Some(p)) ==> patch_wf(p@),
    {
        proof {
            self.lemma_wf();
            lemma_parsed_patch_wf(self.items(), self.idx(), None);
        }
        self.label = None;
        self.skip_empty_context_lines()?;
        if self.idx >= self.items.len() {
            return Ok(None);
        }
        let mut patch = Patch::default();
        parse_header(self, &mut patch)?;
        Ok(Some(patch))
    }

    /// The next patch of the text, after empty lines; nothing at the end of
    /// the text, or when what is left names no file and changes nothing.
    pub fn next(&mut self) -> (r: Option<Result<Patch<'a>, Error>>)
        requires
            old(self).wf(),
        ensures
            final(self).wf(),
            final(self).items() == old(self).items(),
            final(self).gap_source() == old(self).gap_source(),
            ({
                let (sr, si, sl) = spec_next_patch(
                    old(self).items(),
                    old(self).idx(),
                    old(self).pending_label(),
                );
                &&& final(self).idx() == si
                &&& final(self).pending_label() == sl
                &&& match r {
                    Some(res) => sr == Some(patch_result_view(res)),
                    None => sr is None,
                }
            }),
            r matches Some(Ok(p)) ==> patch_wf(p@),
    {
        proof {
            self.lemma_wf();
            lemma_parsed_patch_wf(self.items(), self.idx(), self.pending_label());
        }
        if let Err(e) = self.skip_empty_context_lines() {
            return Some(Err(e));
        }
        if self.idx >= self.items.len() {
            return None;
        }
        let res = self.parse_patch();
        match res {
            Err(e) => Some(Err(e)),
            Ok(patch) => {
                if !patch.has_content_changes() && patch.is_empty() {
                    None
                } else {
                    Some(Ok(patch))
                }
            },
        }
    }
}

// ---------------------------------------------------------------------------
// What collecting a hunk's lines counts
// ---------------------------------------------------------------------------

/// The number of lines of `lines` on the old side: every line but an addition.
pub open spec fn old_count(lines: Seq<LineV>) -> nat
    decreases lines.len(),
{
    if lines.len() == 0 {
        0
    } else {
        old_count(lines.drop_last()) + if lines.last().kind != LineKind::Addition {
            1nat
        } else {
            0nat
        }
    }
}

/// The number of lines of `lines` on the new side: every line but a deletion.
pub open spec fn new_count(lines: Seq<LineV>) -> nat
    decreases lines.len(),
{
    if lines.len() == 0 {
        0
    } else {
        new_count(lines.drop_last()) + if lines.last().kind != LineKind::Deletion {
            1nat
        } else {
            0nat
        }
    }
}

/// Collecting a hunk's lines only appends lines to the patch, and the counts
/// it returns grow by the lines appended: all of them, those on the old
/// side, and those on the new side.
pub proof fn lemma_collect_counts<'a>(
    its: Seq<Result<LexerItem<'a>, Error>>,
    idx: int,
    p: PatchView<'a>,
    headerless: bool,
    o: nat,
    n: nat,
    c: nat,
)
    ensures
        ({
            let (r, _, sp) = spec_collect_lines(its, idx, p, headerless, o, n, c);
            r matches Ok((o2, n2, c2)) ==> {
                &&& p.lines.len() <= sp.lines.len()
                &&& sp.lines.subrange(0, p.lines.len() as int) == p.lines
                &&& c2 == c + (sp.lines.len() - p.lines.len())
                &&& o2 == o + old_count(sp.lines.subrange(p.lines.len() as int, sp.lines.len() as int))
                &&& n2 == n + new_count(sp.lines.subrange(p.lines.len() as int, sp.lines.len() as int))
            }
        }),
    decreases its.len() - idx,
{
    if 0 <= idx < its.len() {
        match its[idx] {
            Err(_) => {},
            Ok(item) => if !(headerless && is_blank(item.token)) {
                let l = match item.token {
                    TokenKind::Addition(text) => Some(LineV { kind: LineKind::Addition, text: text@ }),
                    TokenKind::Deletion(text) => Some(LineV { kind: LineKind::Deletion, text: text@ }),
                    TokenKind::Context(text) => Some(LineV { kind: LineKind::Context, text: text@ }),
                    TokenKind::Gap => Some(LineV { kind: LineKind::Gap, text: Seq::empty() }),
                    _ => None,
                };
                match l {
                    Some(line) => {
                        let q = match item.token {
                            TokenKind::Addition(_) => PatchView {
                                new_file_no_newline: false,
                                lines: p.lines.push(line),
                                ..p
                            },
                            TokenKind::Deletion(_) => PatchView {
                                old_file_no_newline: false,
                                lines: p.lines.push(line),
                                ..p
                            },
                            _ => PatchView {
                                old_file_no_newline: false,
                                new_file_no_newline: false,
                                lines: p.lines.push(line),
                                ..p
                            },
                        };
                        let o1 = o + if line.kind != LineKind::Addition { 1nat } else { 0nat };
                        let n1 = n + if line.kind != LineKind::Deletion { 1nat } else { 0nat };
                        assert(spec_collect_lines(its, idx, p, headerless, o, n, c) == spec_collect_lines(
                            its,
                            idx + 1,
                            q,
                            headerless,
                            o1,
                            n1,
                            c + 1,
                        ));
                        lemma_collect_counts(its, idx + 1, q, headerless, o1, n1, c + 1);
                        let (r, _, sp) = spec_collect_lines(its, idx + 1, q, headerless, o1, n1, c + 1);
                        if r is Ok {
                            let added = sp.lines.subrange(p.lines.len() as int, sp.lines.len() as int);
                            let added_q = sp.lines.subrange(q.lines.len() as int, sp.lines.len() as int);
                            assert(sp.lines.subrange(0, p.lines.len() as int) =~= sp.lines.subrange(
                                0,
                                q.lines.len() as int,
                            ).subrange(0, p.lines.len() as int));
                            assert(q.lines.subrange(0, p.lines.len() as int) =~= p.lines);
                            lemma_counts_cons(line, added_q);
                            assert(added =~= seq![line] + added_q) by {
                                assert(sp.lines[p.lines.len() as int] == q.lines[p.lines.len() as int]);
                            }
                        }
                    },
                    None => {
                        match item.token {
                            TokenKind::NoNewline => {
                                lemma_collect_counts_same_lines(its, idx, p, headerless, o, n, c);
                            },
                            _ => {
                                assert(p.lines.subrange(0, p.lines.len() as int) =~= p.lines);
                                assert(p.lines.subrange(p.lines.len() as int, p.lines.len() as int) =~= Seq::<LineV>::empty());
                            },
                        }
                    },
                }
            } else {
                assert(p.lines.subrange(0, p.lines.len() as int) =~= p.lines);
                assert(p.lines.subrange(p.lines.len() as int, p.lines.len() as int) =~= Seq::<LineV>::empty());
            },
        }
    } else {
        assert(p.lines.subrange(0, p.lines.len() as int) =~= p.lines);
        assert(p.lines.subrange(p.lines.len() as int, p.lines.len() as int) =~= Seq::<LineV>::empty());
    }
}

proof fn lemma_collect_counts_same_lines<'a>(
    its: Seq<Result<LexerItem<'a>, Error>>,
    idx: int,
    p: PatchView<'a>,
    headerless: bool,
    o: nat,
    n: nat,
    c: nat,
)
    requires
        0 <= idx < its.len(),
        its[idx] matches Ok(item) && item.token == TokenKind::NoNewline && !(headerless && is_blank(item.token)),
    ensures
        ({
            let (r, _, sp) = spec_collect_lines(its, idx, p, headerless, o, n, c);
            r matches Ok((o2, n2, c2)) ==> {
                &&& p.lines.len() <= sp.lines.len()
                &&& sp.lines.subrange(0, p.lines.len() as int) == p.lines
                &&& c2 == c + (sp.lines.len() - p.lines.len())
                &&& o2 == o + old_count(sp.lines.subrange(p.lines.len() as int, sp.lines.len() as int))
                &&& n2 == n + new_count(sp.lines.subrange(p.lines.len() as int, sp.lines.len() as int))
            }
        }),
    decreases its.len() - idx, 1nat,
{
    if c == 0 {
        lemma_collect_counts(its, idx + 1, p, headerless, o, n, c);
    } else {
        let last = p.lines.last().kind;
        let q = PatchView {
            new_file_no_newline: if n > 0 && last != LineKind::Deletion {
                true
            } else {
                p.new_file_no_newline
            },
            old_file_no_newline: if o > 0 && last != LineKind::Addition {
                true
            } else {
                p.old_file_no_newline
            },
            ..p
        };
        lemma_collect_counts(its, idx + 1, q, headerless, o, n, c);
    }
}

proof fn lemma_counts_cons(l: LineV, rest: Seq<LineV>)
    ensures
        old_count(seq![l] + rest) == old_count(rest) + if l.kind != LineKind::Addition { 1nat } else { 0nat },
        new_count(seq![l] + rest) == new_count(rest) + if l.kind != LineKind::Deletion { 1nat } else { 0nat },
    decreases rest.len(),
{
    let whole = seq![l] + rest;
    if rest.len() > 0 {
        lemma_counts_cons(l, rest.drop_last());
        assert(whole.drop_last() =~= seq![l] + rest.drop_last());
        assert(whole.last() == rest.last());
        assert(old_count(whole) == old_count(whole.drop_last()) + if whole.last().kind != LineKind::Addition { 1nat } else { 0nat });
        assert(new_count(whole) == new_count(whole.drop_last()) + if whole.last().kind != LineKind::Deletion { 1nat } else { 0nat });
    } else {
        assert(whole.drop_last() =~= Seq::<LineV>::empty());
        assert(whole.last() == l);
        assert(old_count(whole) == old_count(whole.drop_last()) + if whole.last().kind != LineKind::Addition { 1nat } else { 0nat });
        assert(new_count(whole) == new_count(whole.drop_last()) + if whole.last().kind != LineKind::Deletion { 1nat } else { 0nat });
    }
}

// ---------------------------------------------------------------------------
// Where `copy from` and `copy to` go
// ---------------------------------------------------------------------------

/// Whether item `j` of `its` is a `copy from` or `copy to` line.
pub open spec fn is_copy_item<'a>(its: Seq<Result<LexerItem<'a>, Error>>, j: int) -> bool {
    its[j] matches Ok(item) && (item.token is CopyFrom || item.token is CopyTo)
}

proof fn lemma_binary_loop_keeps_copy<'a>(its: Seq<Result<LexerItem<'a>, Error>>, idx: int, p: PatchView<'a>)
    requires
        0 <= idx,
    ensures
        spec_binary_loop(its, idx, p).2.copy_from == p.copy_from,
        spec_binary_loop(its, idx, p).2.copy_to == p.copy_to,
    decreases its.len() - idx,
{
    if idx < its.len() {
        match its[idx] {
            Err(_) => {},
            Ok(item) => match item.token {
                TokenKind::BinaryPatchType { kind, size } => {
                    lemma_collect_data_progress(its, idx + 1, p);
                    let (res, i2, p2) = spec_collect_data(its, idx + 1, p);
                    if res is Ok {
                        let start = p.binary_lines.len();
                        let p3 = PatchView {
                            binary_fragments: p2.binary_fragments.push(
                                BinaryFragment {
                                    kind: fragment_kind(kind@),
                                    size: fragment_size(size@),
                                    data_start: start as u32,
                                    data_len: (p2.binary_lines.len() - start) as u32,
                                },
                            ),
                            ..p2
                        };
                        lemma_binary_loop_keeps_copy(its, i2, p3);
                    }
                },
                TokenKind::Context(_) | TokenKind::Gap => lemma_binary_loop_keeps_copy(its, idx + 1, p),
                _ => {},
            },
        }
    }
}

/// Header lines other than `copy from` and `copy to` leave the two copy
/// fields as they are.
pub proof fn lemma_header_keeps_copy<'a>(its: Seq<Result<LexerItem<'a>, Error>>, idx: int, p: PatchView<'a>)
    requires
        0 <= idx,
        forall|j: int| idx <= j < its.len() ==> !is_copy_item(its, j),
    ensures
        spec_parse_header(its, idx, p).2.copy_from == p.copy_from,
        spec_parse_header(its, idx, p).2.copy_to == p.copy_to,
    decreases its.len() - idx,
{
    if idx < its.len() {
        assert(!is_copy_item(its, idx));
        match its[idx] {
            Err(_) => {},
            Ok(item) => match item.token {
                TokenKind::Binary(paths) => {
                    let (o, n) = binary_paths(paths.old_file@, paths.new_file@);
                    lemma_header_keeps_copy(its, consumed(its, idx + 1), PatchView { old_file: o, new_file: n, binary: true, ..p });
                },
                TokenKind::GitBinaryPatchHeader => {
                    lemma_binary_loop_keeps_copy(its, idx + 1, PatchView { binary: true, ..p });
                },
                t => if is_header_field(t) {
                    lemma_header_keeps_copy(its, idx + 1, header_step(p, t));
                },
            },
        }
    }
}

/// A `copy from X` line followed by a `copy to Y` line (and no other copy
/// line) gives a patch that copies from the path `X` to the path `Y`.
pub proof fn lemma_copy_from_to<'a>(
    its: Seq<Result<LexerItem<'a>, Error>>,
    idx: int,
    p: PatchView<'a>,
    x: &'a [u8],
    y: &'a [u8],
)
    requires
        0 <= idx,
        idx + 1 < its.len(),
        its[idx] matches Ok(item) && item.token == TokenKind::CopyFrom(x),
        its[idx + 1] matches Ok(item) && item.token == TokenKind::CopyTo(y),
        forall|j: int| idx + 2 <= j < its.len() ==> !is_copy_item(its, j),
    ensures
        spec_parse_header(its, idx, p).2.copy_from == Some(spec_unquote_path(x@)),
        spec_parse_header(its, idx, p).2.copy_to == Some(spec_unquote_path(y@)),
{
    let p1 = header_step(p, TokenKind::CopyFrom(x));
    let p2 = header_step(p1, TokenKind::CopyTo(y));
    assert(p1.copy_from == Some(spec_unquote_path(x@)));
    assert(p2.copy_from == Some(spec_unquote_path(x@)));
    assert(p2.copy_to == Some(spec_unquote_path(y@)));
    lemma_header_keeps_copy(its, idx + 2, p2);
    assert(spec_parse_header(its, idx, p) == spec_parse_header(its, idx + 1, p1));
    assert(spec_parse_header(its, idx + 1, p1) == spec_parse_header(its, idx + 2, p2));
}

} // verus!
