use vstd::prelude::*;

use crate::bytes::{
    bytes_eq, find, first_occurrence, get_line, parse_u32, spec_ends_with, spec_get_line,
    spec_parse_u32, spec_starts_with, starts_with, strip_prefix, strip_suffix,
};
use crate::error::{Error, ErrorKind};
use crate::kw;
use crate::binary::lines_view;
use crate::outside::{bstr_fields, bstr_trim, bstr_trim_start, fields, trim, trim_start};

verus! {

/// The old and the new path that a header line names, as written there.
#[derive(Debug, Clone, Copy, PartialEq)]
pub struct BinaryPaths<'a> {
    pub old_file: &'a [u8],
    pub new_file: &'a [u8],
}

/// What one line of a patch is.
#[derive(Debug, Clone, Copy, PartialEq)]
pub enum TokenKind<'a> {
    /// `diff --git a b` or `file path`: the paths of a file diff.
    FileHeader(BinaryPaths<'a>),
    /// `index old..new [mode]`.
    Index { old_hash: &'a [u8], new_hash: &'a [u8], mode: Option<&'a [u8]> },
    /// `--- path`.
    OldFile(&'a [u8]),
    /// `+++ path`.
    NewFile(&'a [u8]),
    /// `@@ -old +new @@ [label]`.
    HunkHeader { old_range: &'a [u8], new_range: &'a [u8], label: Option<&'a [u8]> },
    /// `+text`.
    Addition(&'a [u8]),
    /// `-text`.
    Deletion(&'a [u8]),
    /// ` text`.
    Context(&'a [u8]),
    /// `\ No newline at end of file`.
    NoNewline,
    CopyFrom(&'a [u8]),
    CopyTo(&'a [u8]),
    RenameFrom(&'a [u8]),
    RenameTo(&'a [u8]),
    NewFileMode(&'a [u8]),
    OldFileMode(&'a [u8]),
    DeletedFileMode(&'a [u8]),
    Similarity(u32),
    Dissimilarity(u32),
    /// `Binary files a and b differ`.
    Binary(BinaryPaths<'a>),
    /// `GIT binary patch`.
    GitBinaryPatchHeader,
    /// `literal size` or `delta size` in a binary patch.
    BinaryPatchType { kind: &'a [u8], size: &'a [u8] },
    /// A base85 data line of a binary patch.
    BinaryData(&'a [u8]),
    /// `label text`: a line of the file near the next hunk.
    Label(&'a [u8]),
    /// An empty line.
    Gap,
}

/// A token and the (1-based) line of the patch text it comes from.
#[derive(Debug, Clone, Copy, PartialEq)]
pub struct LexerItem<'a> {
    pub token: TokenKind<'a>,
    pub line_num: u32,
}

/// Whether the lexer reads ordinary patch lines or the data lines of a git
/// binary patch.
#[derive(Debug, Clone, Copy, PartialEq, Eq, Structural)]
pub enum LexerMode {
    Text,
    Binary,
}

/// A token by its contents.
pub ghost enum Tok {
    FileHeader(Seq<u8>, Seq<u8>),
    Index(Seq<u8>, Seq<u8>, Option<Seq<u8>>),
    OldFile(Seq<u8>),
    NewFile(Seq<u8>),
    HunkHeader(Seq<u8>, Seq<u8>, Option<Seq<u8>>),
    Addition(Seq<u8>),
    Deletion(Seq<u8>),
    Context(Seq<u8>),
    NoNewline,
    CopyFrom(Seq<u8>),
    CopyTo(Seq<u8>),
    RenameFrom(Seq<u8>),
    RenameTo(Seq<u8>),
    NewFileMode(Seq<u8>),
    OldFileMode(Seq<u8>),
    DeletedFileMode(Seq<u8>),
    Similarity(u32),
    Dissimilarity(u32),
    Binary(Seq<u8>, Seq<u8>),
    GitBinaryPatchHeader,
    BinaryPatchType(Seq<u8>, Seq<u8>),
    BinaryData(Seq<u8>),
    Label(Seq<u8>),
    Gap,
}

pub open spec fn opt_view(o: Option<&[u8]>) -> Option<Seq<u8>> {
    match o {
        Some(s) => Some(s@),
        None => None,
    }
}

/// A token by its contents.
pub open spec fn tok_view(t: TokenKind) -> Tok {
    match t {
        TokenKind::FileHeader(p) => Tok::FileHeader(p.old_file@, p.new_file@),
        TokenKind::Index { old_hash, new_hash, mode } => Tok::Index(
            old_hash@,
            new_hash@,
            opt_view(mode),
        ),
        TokenKind::OldFile(s) => Tok::OldFile(s@),
        TokenKind::NewFile(s) => Tok::NewFile(s@),
        TokenKind::HunkHeader { old_range, new_range, label } => Tok::HunkHeader(
            old_range@,
            new_range@,
            opt_view(label),
        ),
        TokenKind::Addition(s) => Tok::Addition(s@),
        TokenKind::Deletion(s) => Tok::Deletion(s@),
        TokenKind::Context(s) => Tok::Context(s@),
        TokenKind::NoNewline => Tok::NoNewline,
        TokenKind::CopyFrom(s) => Tok::CopyFrom(s@),
        TokenKind::CopyTo(s) => Tok::CopyTo(s@),
        TokenKind::RenameFrom(s) => Tok::RenameFrom(s@),
        TokenKind::RenameTo(s) => Tok::RenameTo(s@),
        TokenKind::NewFileMode(s) => Tok::NewFileMode(s@),
        TokenKind::OldFileMode(s) => Tok::OldFileMode(s@),
        TokenKind::DeletedFileMode(s) => Tok::DeletedFileMode(s@),
        TokenKind::Similarity(n) => Tok::Similarity(n),
        TokenKind::Dissimilarity(n) => Tok::Dissimilarity(n),
        TokenKind::Binary(p) => Tok::Binary(p.old_file@, p.new_file@),
        TokenKind::GitBinaryPatchHeader => Tok::GitBinaryPatchHeader,
        TokenKind::BinaryPatchType { kind, size } => Tok::BinaryPatchType(kind@, size@),
        TokenKind::BinaryData(s) => Tok::BinaryData(s@),
        TokenKind::Label(s) => Tok::Label(s@),
        TokenKind::Gap => Tok::Gap,
    }
}

pub open spec fn tok_result_view(r: Result<TokenKind, ErrorKind>) -> Result<Tok, ErrorKind> {
    match r {
        Ok(t) => Ok(tok_view(t)),
        Err(k) => Err(k),
    }
}

/// `s` from offset `k` on.
pub open spec fn from(s: Seq<u8>, k: int) -> Seq<u8> {
    s.subrange(k, s.len() as int)
}

/// What a mode line's rest (after `new `, `old ` or `deleted `) holds: the
/// mode after `file mode ` or `mode `.
pub open spec fn spec_mode_rest(rest: Seq<u8>) -> Result<Seq<u8>, ErrorKind> {
    if spec_starts_with(rest, kw::file_mode_sp()) {
        Ok(from(rest, 10))
    } else if spec_starts_with(rest, kw::mode_sp()) {
        Ok(from(rest, 5))
    } else {
        Err(ErrorKind::InvalidFileMode)
    }
}

/// A percentage: decimal digits and a `%`, nothing else.
pub open spec fn spec_percentage(s: Seq<u8>) -> Result<u32, ErrorKind> {
    if !spec_ends_with(s, kw::percent()) {
        Err(ErrorKind::InvalidPercentage)
    } else {
        match spec_parse_u32(s.subrange(0, s.len() - 1)) {
            Some((n, rest)) => if rest.len() == 0 {
                Ok(n)
            } else {
                Err(ErrorKind::InvalidPercentage)
            },
            None => Err(ErrorKind::InvalidPercentage),
        }
    }
}

/// The two ranges of a hunk header: the first field of `content` without its
/// `-` and the second without its `+`; see `spec_ranges_of`.
pub open spec fn spec_ranges(content: Seq<u8>) -> Result<(Seq<u8>, Seq<u8>), ErrorKind> {
    spec_ranges_of(bstr_fields(content))
}

/// The two ranges of a hunk header from its fields: the first without its
/// `-` and the second without its `+`; a missing field or sign is
/// `MissingRange`.
pub open spec fn spec_ranges_of(parts: Seq<Seq<u8>>) -> Result<(Seq<u8>, Seq<u8>), ErrorKind> {
    if parts.len() < 1 || !spec_starts_with(parts[0], seq![45u8]) {
        Err(ErrorKind::MissingRange)
    } else if parts.len() < 2 || !spec_starts_with(parts[1], seq![43u8]) {
        Err(ErrorKind::MissingRange)
    } else {
        Ok((from(parts[0], 1), from(parts[1], 1)))
    }
}

/// A hunk header line `@@ -old +new @@ label`: the ranges come from the
/// text before ` @@`, the label (if not empty) from the text after it.
pub open spec fn spec_hunk_header(line: Seq<u8>) -> Result<Tok, ErrorKind> {
    let header = from(line, 3);
    match first_occurrence(header, kw::sp_at2()) {
        None => match spec_ranges(header) {
            Ok((o, n)) => Ok(Tok::HunkHeader(o, n, None)),
            Err(k) => Err(k),
        },
        Some(idx) => match spec_ranges(header.subrange(0, idx)) {
            Ok((o, n)) => {
                let label = bstr_trim_start(from(header, idx + 3));
                Ok(Tok::HunkHeader(o, n, if label.len() == 0 { None } else { Some(label) }))
            },
            Err(k) => Err(k),
        },
    }
}

/// A line that starts with `diff `, `dissimilarity ` or `deleted `.
pub open spec fn spec_git_header(line: Seq<u8>) -> Result<Tok, ErrorKind> {
    if spec_starts_with(line, kw::diff_git_sp()) {
        Ok(Tok::FileHeader(from(line, 11), from(line, 11)))
    } else if spec_starts_with(line, kw::dissimilarity_index_sp()) {
        match spec_percentage(from(line, 20)) {
            Ok(n) => Ok(Tok::Dissimilarity(n)),
            Err(k) => Err(k),
        }
    } else if spec_starts_with(line, kw::deleted_sp()) {
        match spec_mode_rest(from(line, 8)) {
            Ok(m) => Ok(Tok::DeletedFileMode(m)),
            Err(k) => Err(k),
        }
    } else {
        Err(ErrorKind::UnexpectedLine)
    }
}

/// An `index old..new [mode]` line; see `spec_index_of`.
pub open spec fn spec_index_line(line: Seq<u8>) -> Result<Tok, ErrorKind> {
    match spec_index_of(bstr_fields(from(line, 6))) {
        Ok((o, n, m)) => Ok(Tok::Index(o, n, m)),
        Err(k) => Err(k),
    }
}

/// The hashes and mode of an `index` line from its fields: the first field
/// split at its first `..`, and the second field, if any; no first field or
/// no `..` in it is `InvalidIndexHeader`.
pub open spec fn spec_index_of(parts: Seq<Seq<u8>>) -> Result<(Seq<u8>, Seq<u8>, Option<Seq<u8>>), ErrorKind> {
    if parts.len() < 1 {
        Err(ErrorKind::InvalidIndexHeader)
    } else {
        match first_occurrence(parts[0], kw::dot2()) {
            None => Err(ErrorKind::InvalidIndexHeader),
            Some(k) => Ok(
                (
                    parts[0].subrange(0, k),
                    from(parts[0], k + 2),
                    if parts.len() >= 2 {
                        Some(parts[1])
                    } else {
                        None
                    },
                ),
            ),
        }
    }
}

/// The label of a hunk header from the text after its ` @@`, leading white
/// space already trimmed: none when nothing is left.
pub open spec fn spec_hunk_label(trimmed: Seq<u8>) -> Option<Seq<u8>> {
    if trimmed.len() == 0 {
        None
    } else {
        Some(trimmed)
    }
}

/// The two ranges of a hunk header from its fields; see `spec_ranges_of`.
pub fn ranges_from_fields<'b>(parts: &[&'b [u8]]) -> (r: Result<(&'b [u8], &'b [u8]), ErrorKind>)
    ensures
        r is Ok <==> spec_ranges_of(lines_view(parts@)) is Ok,
        r matches Ok((o, n)) ==> spec_ranges_of(lines_view(parts@)) == Ok::<(Seq<u8>, Seq<u8>), ErrorKind>(
            (o@, n@),
        ),
        r matches Err(k) ==> spec_ranges_of(lines_view(parts@)) == Err::<(Seq<u8>, Seq<u8>), ErrorKind>(k),
{
    let minus: [u8; 1] = [45u8];
    let plus: [u8; 1] = [43u8];
    assert(minus@ =~= seq![45u8]);
    assert(plus@ =~= seq![43u8]);
    if parts.len() < 1 {
        return Err(ErrorKind::MissingRange);
    }
    assert(lines_view(parts@)[0] == parts@[0]@);
    let old_range = match strip_prefix(parts[0], minus.as_slice()) {
        Some(o) => o,
        None => return Err(ErrorKind::MissingRange),
    };
    if parts.len() < 2 {
        return Err(ErrorKind::MissingRange);
    }
    assert(lines_view(parts@)[1] == parts@[1]@);
    let new_range = match strip_prefix(parts[1], plus.as_slice()) {
        Some(n) => n,
        None => return Err(ErrorKind::MissingRange),
    };
    Ok((old_range, new_range))
}

/// The hashes and mode of an `index` line from its fields; see
/// `spec_index_of`.
pub fn index_from_fields<'b>(parts: &[&'b [u8]]) -> (r: Result<(&'b [u8], &'b [u8], Option<&'b [u8]>), ErrorKind>)
    ensures
        r is Ok <==> spec_index_of(lines_view(parts@)) is Ok,
        r matches Ok((o, n, m)) ==> spec_index_of(lines_view(parts@)) == Ok::<
            (Seq<u8>, Seq<u8>, Option<Seq<u8>>),
            ErrorKind,
        >((o@, n@, opt_view(m))),
        r matches Err(k) ==> spec_index_of(lines_view(parts@)) == Err::<
            (Seq<u8>, Seq<u8>, Option<Seq<u8>>),
            ErrorKind,
        >(k),
{
    if parts.len() < 1 {
        return Err(ErrorKind::InvalidIndexHeader);
    }
    assert(lines_view(parts@)[0] == parts@[0]@);
    let dots = kw::dot2_bytes();
    let (old_hash, new_hash) = match crate::bytes::split_once(parts[0], dots.as_slice()) {
        Some(x) => x,
        None => return Err(ErrorKind::InvalidIndexHeader),
    };
    let mode = if parts.len() >= 2 {
        assert(lines_view(parts@)[1] == parts@[1]@);
        Some(parts[1])
    } else {
        None
    };
    Ok((old_hash, new_hash, mode))
}

/// The label of a hunk header from its trimmed text; see `spec_hunk_label`.
pub fn hunk_label(trimmed: &[u8]) -> (r: Option<&[u8]>)
    ensures
        opt_view(r) == spec_hunk_label(trimmed@),
{
    if trimmed.len() == 0 {
        None
    } else {
        Some(trimmed)
    }
}

/// A `rename from/to` or `copy from/to` line.
pub open spec fn spec_rename_copy(line: Seq<u8>) -> Result<Tok, ErrorKind> {
    if spec_starts_with(line, kw::rename_from_sp()) {
        Ok(Tok::RenameFrom(from(line, 12)))
    } else if spec_starts_with(line, kw::rename_to_sp()) {
        Ok(Tok::RenameTo(from(line, 10)))
    } else if spec_starts_with(line, kw::copy_from_sp()) {
        Ok(Tok::CopyFrom(from(line, 10)))
    } else if spec_starts_with(line, kw::copy_to_sp()) {
        Ok(Tok::CopyTo(from(line, 8)))
    } else {
        Err(ErrorKind::UnexpectedLine)
    }
}

/// The paths part of `Binary files ... differ`.
pub open spec fn spec_binary_files(line: Seq<u8>) -> Tok {
    let rest = from(line, 13);
    let rest = if spec_ends_with(rest, kw::sp_differ()) {
        rest.subrange(0, rest.len() - 7)
    } else {
        rest
    };
    Tok::Binary(rest, rest)
}

pub open spec fn map_mode(r: Result<Seq<u8>, ErrorKind>, new: bool) -> Result<Tok, ErrorKind> {
    match r {
        Ok(m) => Ok(if new { Tok::NewFileMode(m) } else { Tok::OldFileMode(m) }),
        Err(k) => Err(k),
    }
}

/// The token of a line read in text mode.
pub open spec fn spec_tokenize_text(line: Seq<u8>) -> Result<Tok, ErrorKind> {
    if line.len() == 0 {
        Ok(Tok::Gap)
    } else {
        let c = line[0];
        if c == 43 {
            if spec_starts_with(line, kw::plus3_sp()) {
                Ok(Tok::NewFile(from(line, 4)))
            } else {
                Ok(Tok::Addition(from(line, 1)))
            }
        } else if c == 45 {
            if spec_starts_with(line, kw::minus3_sp()) {
                Ok(Tok::OldFile(from(line, 4)))
            } else {
                Ok(Tok::Deletion(from(line, 1)))
            }
        } else if c == 32 {
            Ok(Tok::Context(from(line, 1)))
        } else if c == 64 {
            if spec_starts_with(line, kw::at2_sp()) {
                spec_hunk_header(line)
            } else {
                Err(ErrorKind::UnexpectedLine)
            }
        } else if c == 100 {
            if spec_starts_with(line, kw::diff_sp()) || spec_starts_with(line, kw::dissimilarity_sp())
                || spec_starts_with(line, kw::deleted_sp()) {
                spec_git_header(line)
            } else {
                Err(ErrorKind::UnexpectedLine)
            }
        } else if c == 102 {
            if spec_starts_with(line, kw::file_sp()) {
                Ok(Tok::FileHeader(bstr_trim(from(line, 5)), bstr_trim(from(line, 5))))
            } else {
                Err(ErrorKind::UnexpectedLine)
            }
        } else if c == 71 {
            if line == kw::git_binary_patch() {
                Ok(Tok::GitBinaryPatchHeader)
            } else {
                Err(ErrorKind::UnexpectedLine)
            }
        } else if c == 105 {
            if spec_starts_with(line, kw::index_sp()) {
                spec_index_line(line)
            } else {
                Err(ErrorKind::UnexpectedLine)
            }
        } else if c == 108 {
            if spec_starts_with(line, kw::label_sp()) {
                Ok(Tok::Label(bstr_trim_start(from(line, 6))))
            } else {
                Err(ErrorKind::UnexpectedLine)
            }
        } else if c == 110 {
            if spec_starts_with(line, kw::new_sp()) {
                map_mode(spec_mode_rest(from(line, 4)), true)
            } else {
                Err(ErrorKind::UnexpectedLine)
            }
        } else if c == 111 {
            if spec_starts_with(line, kw::old_sp()) {
                map_mode(spec_mode_rest(from(line, 4)), false)
            } else {
                Err(ErrorKind::UnexpectedLine)
            }
        } else if c == 114 || c == 99 {
            spec_rename_copy(line)
        } else if c == 115 {
            if spec_starts_with(line, kw::similarity_index_sp()) {
                match spec_percentage(from(line, 17)) {
                    Ok(n) => Ok(Tok::Similarity(n)),
                    Err(k) => Err(k),
                }
            } else {
                Err(ErrorKind::UnexpectedLine)
            }
        } else if c == 66 {
            if spec_starts_with(line, kw::binary_files_sp()) {
                Ok(spec_binary_files(line))
            } else {
                Err(ErrorKind::UnexpectedLine)
            }
        } else if c == 92 {
            if line == kw::no_newline() {
                Ok(Tok::NoNewline)
            } else {
                Err(ErrorKind::UnexpectedLine)
            }
        } else {
            Err(ErrorKind::UnexpectedLine)
        }
    }
}

/// Whether a text-mode line switches the lexer to binary mode.
pub open spec fn enters_binary(line: Seq<u8>) -> bool {
    line == kw::git_binary_patch()
}

/// Whether a binary-mode line ends the binary data: a new diff or file header.
pub open spec fn leaves_binary(line: Seq<u8>) -> bool {
    line.len() > 0 && ((line[0] == 100 && spec_starts_with(line, kw::diff_git())) || (line[0] == 45
        && spec_starts_with(line, kw::minus3_sp())) || (line[0] == 43 && spec_starts_with(
        line,
        kw::plus3_sp(),
    )))
}

/// Whether a binary-mode line starts a fragment: `literal <size>` or
/// `delta <size>`, with something after the word and its space.
pub open spec fn is_fragment_header(line: Seq<u8>) -> bool {
    (line.len() > 8 && spec_starts_with(line, kw::literal_sp())) || (line.len() > 6
        && spec_starts_with(line, kw::delta_sp()))
}

/// The token of a line read in binary mode.
pub open spec fn spec_tokenize_binary(line: Seq<u8>) -> Result<Tok, ErrorKind> {
    if line.len() == 0 {
        Ok(Tok::Gap)
    } else if line.len() > 8 && spec_starts_with(line, kw::literal_sp()) {
        Ok(Tok::BinaryPatchType(line.subrange(0, 7), from(line, 8)))
    } else if line.len() > 6 && spec_starts_with(line, kw::delta_sp()) {
        Ok(Tok::BinaryPatchType(line.subrange(0, 5), from(line, 6)))
    } else if leaves_binary(line) {
        spec_tokenize_text(line)
    } else {
        Ok(Tok::BinaryData(line))
    }
}

/// The token of a line in the given mode, and the mode for the next line.
pub open spec fn spec_tokenize(line: Seq<u8>, mode: LexerMode) -> (Result<Tok, ErrorKind>, LexerMode) {
    match mode {
        LexerMode::Text => (
            spec_tokenize_text(line),
            if enters_binary(line) {
                LexerMode::Binary
            } else {
                LexerMode::Text
            },
        ),
        LexerMode::Binary => (
            spec_tokenize_binary(line),
            if line.len() > 0 && !is_fragment_header(line) && leaves_binary(line) {
                LexerMode::Text
            } else {
                LexerMode::Binary
            },
        ),
    }
}

/// A lexer item by its contents.
pub open spec fn item_view(r: Result<LexerItem, Error>) -> Result<(Tok, u32), Error> {
    match r {
        Ok(item) => Ok((tok_view(item.token), item.line_num)),
        Err(e) => Err(e),
    }
}

/// The number of the line after line `n`; the count wraps around after `u32::MAX`.
pub open spec fn next_line_num(n: u32) -> u32 {
    if n == u32::MAX {
        0
    } else {
        (n + 1) as u32
    }
}

/// The items that lexing `input` from `pos` on gives, with `line_num` lines
/// read so far and the lexer in `mode`: one per line, a failed line an
/// error that names its line.
pub open spec fn spec_lex_from(input: Seq<u8>, pos: int, line_num: u32, mode: LexerMode) -> Seq<
    Result<(Tok, u32), Error>,
>
    decreases input.len() - pos,
{
    if pos < 0 || pos >= input.len() {
        Seq::empty()
    } else {
        match spec_get_line(from(input, pos)) {
            None => Seq::empty(),
            Some((line, rest)) => {
                let n = next_line_num(line_num);
                let (tok, next_mode) = spec_tokenize(line, mode);
                let item = match tok {
                    Ok(t) => Ok((t, n)),
                    Err(k) => Err(Error { line: Some(n), kind: k }),
                };
                if rest.len() < from(input, pos).len() {
                    seq![item] + spec_lex_from(input, input.len() - rest.len(), n, next_mode)
                } else {
                    seq![item]
                }
            },
        }
    }
}

/// Lexing gives at most one item per byte of input.
pub proof fn lemma_lex_len(input: Seq<u8>, pos: int, line_num: u32, mode: LexerMode)
    requires
        0 <= pos <= input.len(),
    ensures
        spec_lex_from(input, pos, line_num, mode).len() <= input.len() - pos,
    decreases input.len() - pos,
{
    if pos < input.len() {
        crate::bytes::lemma_get_line_parts(from(input, pos));
        let (line, rest) = spec_get_line(from(input, pos)).unwrap();
        let n = next_line_num(line_num);
        let (tok, next_mode) = spec_tokenize(line, mode);
        if rest.len() < from(input, pos).len() {
            lemma_lex_len(input, input.len() - rest.len(), n, next_mode);
        }
    }
}

/// The item for line `k` of the text names line `k + 1`, when no count wraps.
pub proof fn lemma_lex_line_nums(input: Seq<u8>, pos: int, line_num: u32, mode: LexerMode)
    requires
        0 <= pos <= input.len(),
        line_num + spec_lex_from(input, pos, line_num, mode).len() <= u32::MAX,
    ensures
        forall|k: int|
            0 <= k < spec_lex_from(input, pos, line_num, mode).len() ==> match #[trigger] spec_lex_from(
                input,
                pos,
                line_num,
                mode,
            )[k] {
                Ok((_, n)) => n == line_num + k + 1,
                Err(_) => true,
            },
    decreases input.len() - pos,
{
    if pos < input.len() {
        crate::bytes::lemma_get_line_parts(from(input, pos));
        let (line, rest) = spec_get_line(from(input, pos)).unwrap();
        let n = next_line_num(line_num);
        let (tok, next_mode) = spec_tokenize(line, mode);
        let all = spec_lex_from(input, pos, line_num, mode);
        if rest.len() < from(input, pos).len() {
            let pos2 = input.len() - rest.len();
            lemma_lex_line_nums(input, pos2, n, next_mode);
            let tail = spec_lex_from(input, pos2, n, next_mode);
            assert forall|k: int| 0 <= k < all.len() implies match #[trigger] all[k] {
                Ok((_, m)) => m == line_num + k + 1,
                Err(_) => true,
            } by {
                if k > 0 {
                    assert(all[k] == tail[k - 1]);
                }
            }
        }
    }
}

/// The number of lines of `s`: a last line without a line break counts,
/// and so does every empty line.
pub open spec fn spec_line_count(s: Seq<u8>) -> nat
    decreases s.len(),
{
    match spec_get_line(s) {
        None => 0,
        Some((_, rest)) => if rest.len() < s.len() {
            1 + spec_line_count(rest)
        } else {
            1
        },
    }
}

/// Lexing gives one item per line of the text, whatever the lines hold:
/// the lexer runs out exactly after the last line.
pub proof fn lemma_lex_count(input: Seq<u8>, pos: int, line_num: u32, mode: LexerMode)
    requires
        0 <= pos <= input.len(),
    ensures
        spec_lex_from(input, pos, line_num, mode).len() == spec_line_count(from(input, pos)),
    decreases input.len() - pos,
{
    if pos < input.len() {
        crate::bytes::lemma_get_line_parts(from(input, pos));
        let (line, rest) = spec_get_line(from(input, pos)).unwrap();
        let n = next_line_num(line_num);
        let (tok, next_mode) = spec_tokenize(line, mode);
        if rest.len() < from(input, pos).len() {
            let pos2 = input.len() - rest.len();
            assert(from(input, pos2) =~= rest) by {
                let end = crate::bytes::byte_index_from(from(input, pos), 10u8, 0);
                if end < from(input, pos).len() {
                    assert(rest =~= from(input, pos).subrange(end + 1, from(input, pos).len() as int));
                }
            }
            lemma_lex_count(input, pos2, n, next_mode);
        }
    } else {
        assert(from(input, pos).len() == 0);
    }
}

/// Reads a patch text line by line and tells what each line is.
pub struct Lexer<'a> {
    input: &'a [u8],
    pos: usize,
    line_num: u32,
    mode: LexerMode,
}

impl<'a> Lexer<'a> {
    pub closed spec fn input(&self) -> Seq<u8> {
        self.input@
    }

    pub closed spec fn pos(&self) -> int {
        self.pos as int
    }

    pub closed spec fn line_num(&self) -> u32 {
        self.line_num
    }

    pub closed spec fn mode(&self) -> LexerMode {
        self.mode
    }

    pub open spec fn wf(&self) -> bool {
        self.pos() <= self.input().len()
    }

    /// The items that the lexer has yet to give.
    pub open spec fn rest(&self) -> Seq<Result<(Tok, u32), Error>> {
        spec_lex_from(self.input(), self.pos(), self.line_num(), self.mode())
    }

    /// A lexer at the start of `input`, in text mode.
    pub fn new(input: &'a [u8]) -> (r: Self)
        ensures
            r.wf(),
            r.input() == input@,
            r.pos() == 0,
            r.line_num() == 0,
            r.mode() == LexerMode::Text,
    {
        Lexer { input, pos: 0, line_num: 0, mode: LexerMode::Text }
    }

    /// Switches between text and binary mode.
    pub fn set_mode(&mut self, mode: LexerMode)
        requires
            old(self).wf(),
        ensures
            final(self).wf(),
            final(self).mode() == mode,
            final(self).input() == old(self).input(),
            final(self).pos() == old(self).pos(),
            final(self).line_num() == old(self).line_num(),
    {
        self.mode = mode;
    }

    fn parse_mode_rest(rest: &'a [u8]) -> (r: Result<&'a [u8], ErrorKind>)
        ensures
            r is Ok <==> spec_mode_rest(rest@) is Ok,
            r matches Ok(m) ==> spec_mode_rest(rest@) == Ok::<Seq<u8>, ErrorKind>(m@),
            r matches Err(k) ==> spec_mode_rest(rest@) == Err::<Seq<u8>, ErrorKind>(k),
    {
        let fm = kw::file_mode_sp_bytes();
        if let Some(mode) = strip_prefix(rest, fm.as_slice()) {
            return Ok(mode);
        }
        let m = kw::mode_sp_bytes();
        if let Some(mode) = strip_prefix(rest, m.as_slice()) {
            return Ok(mode);
        }
        Err(ErrorKind::InvalidFileMode)
    }

    fn parse_percentage(s: &[u8]) -> (r: Result<u32, ErrorKind>)
        ensures
            r == spec_percentage(s@),
    {
        let pct = kw::percent_bytes();
        let s = match strip_suffix(s, pct.as_slice()) {
            Some(s) => s,
            None => return Err(ErrorKind::InvalidPercentage),
        };
        match parse_u32(s) {
            Some((num, rest)) => if rest.len() == 0 {
                Ok(num)
            } else {
                Err(ErrorKind::InvalidPercentage)
            },
            None => Err(ErrorKind::InvalidPercentage),
        }
    }

    fn parse_ranges(content: &'a [u8]) -> (r: Result<(&'a [u8], &'a [u8]), ErrorKind>)
        ensures
            r is Ok <==> spec_ranges(content@) is Ok,
            r matches Ok((o, n)) ==> spec_ranges(content@) == Ok::<(Seq<u8>, Seq<u8>), ErrorKind>(
                (o@, n@),
            ),
            r matches Err(k) ==> spec_ranges(content@) == Err::<(Seq<u8>, Seq<u8>), ErrorKind>(k),
    {
        let parts = fields(content);
        assert(lines_view(parts@) =~= bstr_fields(content@));
        ranges_from_fields(parts.as_slice())
    }

    fn parse_hunk_header(line: &'a [u8]) -> (r: Result<TokenKind<'a>, ErrorKind>)
        requires
            spec_starts_with(line@, kw::at2_sp()),
        ensures
            tok_result_view(r) == spec_hunk_header(line@),
    {
        let header = &line[3..line.len()];
        let marker = kw::sp_at2_bytes();
        match find(header, marker.as_slice()) {
            None => {
                let (old_range, new_range) = Self::parse_ranges(header)?;
                Ok(TokenKind::HunkHeader { old_range, new_range, label: None })
            },
            Some(idx) => {
                proof {
                    crate::bytes::lemma_first_occurrence(header@, kw::sp_at2());
                }
                let content = &header[0..idx];
                let label_part = &header[idx + 3..header.len()];
                let (old_range, new_range) = Self::parse_ranges(content)?;
                let label = hunk_label(trim_start(label_part));
                Ok(TokenKind::HunkHeader { old_range, new_range, label })
            },
        }
    }

    fn parse_git_header(line: &'a [u8]) -> (r: Result<TokenKind<'a>, ErrorKind>)
        ensures
            tok_result_view(r) == spec_git_header(line@),
    {
        let dg = kw::diff_git_sp_bytes();
        if starts_with(line, dg.as_slice()) {
            let rest = &line[11..line.len()];
            return Ok(TokenKind::FileHeader(BinaryPaths { old_file: rest, new_file: rest }));
        }
        let di = kw::dissimilarity_index_sp_bytes();
        if starts_with(line, di.as_slice()) {
            let rest = &line[20..line.len()];
            let n = Self::parse_percentage(rest)?;
            return Ok(TokenKind::Dissimilarity(n));
        }
        let de = kw::deleted_sp_bytes();
        if starts_with(line, de.as_slice()) {
            let rest = &line[8..line.len()];
            let m = Self::parse_mode_rest(rest)?;
            return Ok(TokenKind::DeletedFileMode(m));
        }
        Err(ErrorKind::UnexpectedLine)
    }

    fn parse_index_line(line: &'a [u8]) -> (r: Result<TokenKind<'a>, ErrorKind>)
        requires
            spec_starts_with(line@, kw::index_sp()),
        ensures
            tok_result_view(r) == spec_index_line(line@),
    {
        let parts = fields(&line[6..line.len()]);
        assert(lines_view(parts@) =~= bstr_fields(from(line@, 6)));
        let (old_hash, new_hash, mode) = index_from_fields(parts.as_slice())?;
        Ok(TokenKind::Index { old_hash, new_hash, mode })
    }

    fn parse_rename_copy_line(line: &'a [u8]) -> (r: Result<TokenKind<'a>, ErrorKind>)
        ensures
            tok_result_view(r) == spec_rename_copy(line@),
    {
        let rf = kw::rename_from_sp_bytes();
        if starts_with(line, rf.as_slice()) {
            return Ok(TokenKind::RenameFrom(&line[12..line.len()]));
        }
        let rt = kw::rename_to_sp_bytes();
        if starts_with(line, rt.as_slice()) {
            return Ok(TokenKind::RenameTo(&line[10..line.len()]));
        }
        let cf = kw::copy_from_sp_bytes();
        if starts_with(line, cf.as_slice()) {
            return Ok(TokenKind::CopyFrom(&line[10..line.len()]));
        }
        let ct = kw::copy_to_sp_bytes();
        if starts_with(line, ct.as_slice()) {
            return Ok(TokenKind::CopyTo(&line[8..line.len()]));
        }
        Err(ErrorKind::UnexpectedLine)
    }

    fn parse_binary_files_line(line: &'a [u8]) -> (r: TokenKind<'a>)
        requires
            spec_starts_with(line@, kw::binary_files_sp()),
        ensures
            tok_view(r) == spec_binary_files(line@),
    {
        let rest = &line[13..line.len()];
        let d = kw::sp_differ_bytes();
        let rest = match strip_suffix(rest, d.as_slice()) {
            Some(r) => r,
            None => rest,
        };
        TokenKind::Binary(BinaryPaths { old_file: rest, new_file: rest })
    }

    /// The token of a line read in text mode; `GIT binary patch` switches the
    /// lexer to binary mode.
    pub fn tokenize_text(&mut self, line: &'a [u8]) -> (r: Result<TokenKind<'a>, ErrorKind>)
        requires
            old(self).wf(),
        ensures
            final(self).wf(),
            tok_result_view(r) == spec_tokenize_text(line@),
            final(self).mode() == (if enters_binary(line@) {
                LexerMode::Binary
            } else {
                old(self).mode()
            }),
            final(self).input() == old(self).input(),
            final(self).pos() == old(self).pos(),
            final(self).line_num() == old(self).line_num(),
    {
        if line.len() == 0 {
            return Ok(TokenKind::Gap);
        }
        let first = line[0];
        if first == 43 {
            let p = kw::plus3_sp_bytes();
            if starts_with(line, p.as_slice()) {
                Ok(TokenKind::NewFile(&line[4..line.len()]))
            } else {
                Ok(TokenKind::Addition(&line[1..line.len()]))
            }
        } else if first == 45 {
            let m = kw::minus3_sp_bytes();
            if starts_with(line, m.as_slice()) {
                Ok(TokenKind::OldFile(&line[4..line.len()]))
            } else {
                Ok(TokenKind::Deletion(&line[1..line.len()]))
            }
        } else if first == 32 {
            Ok(TokenKind::Context(&line[1..line.len()]))
        } else if first == 64 {
            let a = kw::at2_sp_bytes();
            if starts_with(line, a.as_slice()) {
                Self::parse_hunk_header(line)
            } else {
                Err(ErrorKind::UnexpectedLine)
            }
        } else if first == 100 {
            let k1 = kw::diff_sp_bytes();
            let k2 = kw::dissimilarity_sp_bytes();
            let k3 = kw::deleted_sp_bytes();
            if starts_with(line, k1.as_slice()) || starts_with(line, k2.as_slice()) || starts_with(
                line,
                k3.as_slice(),
            ) {
                Self::parse_git_header(line)
            } else {
                Err(ErrorKind::UnexpectedLine)
            }
        } else if first == 102 {
            let f = kw::file_sp_bytes();
            if starts_with(line, f.as_slice()) {
                let path = trim(&line[5..line.len()]);
                Ok(TokenKind::FileHeader(BinaryPaths { old_file: path, new_file: path }))
            } else {
                Err(ErrorKind::UnexpectedLine)
            }
        } else if first == 71 {
            let g = kw::git_binary_patch_bytes();
            if bytes_eq(line, g.as_slice()) {
                self.mode = LexerMode::Binary;
                Ok(TokenKind::GitBinaryPatchHeader)
            } else {
                Err(ErrorKind::UnexpectedLine)
            }
        } else if first == 105 {
            let k = kw::index_sp_bytes();
            if starts_with(line, k.as_slice()) {
                Self::parse_index_line(line)
            } else {
                Err(ErrorKind::UnexpectedLine)
            }
        } else if first == 108 {
            let k = kw::label_sp_bytes();
            if starts_with(line, k.as_slice()) {
                Ok(TokenKind::Label(trim_start(&line[6..line.len()])))
            } else {
                Err(ErrorKind::UnexpectedLine)
            }
        } else if first == 110 {
            let k = kw::new_sp_bytes();
            if starts_with(line, k.as_slice()) {
                let m = Self::parse_mode_rest(&line[4..line.len()])?;
                Ok(TokenKind::NewFileMode(m))
            } else {
                Err(ErrorKind::UnexpectedLine)
            }
        } else if first == 111 {
            let k = kw::old_sp_bytes();
            if starts_with(line, k.as_slice()) {
                let m = Self::parse_mode_rest(&line[4..line.len()])?;
                Ok(TokenKind::OldFileMode(m))
            } else {
                Err(ErrorKind::UnexpectedLine)
            }
        } else if first == 114 || first == 99 {
            Self::parse_rename_copy_line(line)
        } else if first == 115 {
            let k = kw::similarity_index_sp_bytes();
            if starts_with(line, k.as_slice()) {
                let n = Self::parse_percentage(&line[17..line.len()])?;
                Ok(TokenKind::Similarity(n))
            } else {
                Err(ErrorKind::UnexpectedLine)
            }
        } else if first == 66 {
            let k = kw::binary_files_sp_bytes();
            if starts_with(line, k.as_slice()) {
                Ok(Self::parse_binary_files_line(line))
            } else {
                Err(ErrorKind::UnexpectedLine)
            }
        } else if first == 92 {
            let k = kw::no_newline_bytes();
            if bytes_eq(line, k.as_slice()) {
                Ok(TokenKind::NoNewline)
            } else {
                Err(ErrorKind::UnexpectedLine)
            }
        } else {
            Err(ErrorKind::UnexpectedLine)
        }
    }

    /// The token of a line read in binary mode; a diff or file header line
    /// switches the lexer back to text mode and is read as text.
    pub fn tokenize_binary(&mut self, line: &'a [u8]) -> (r: Result<TokenKind<'a>, ErrorKind>)
        requires
            old(self).wf(),
        ensures
            final(self).wf(),
            tok_result_view(r) == spec_tokenize_binary(line@),
            final(self).mode() == (if line@.len() > 0 && !is_fragment_header(line@)
                && leaves_binary(line@) {
                LexerMode::Text
            } else {
                old(self).mode()
            }),
            final(self).input() == old(self).input(),
            final(self).pos() == old(self).pos(),
            final(self).line_num() == old(self).line_num(),
    {
        if line.len() == 0 {
            return Ok(TokenKind::Gap);
        }
        let l = kw::literal_sp_bytes();
        if line.len() > 8 && starts_with(line, l.as_slice()) {
            return Ok(TokenKind::BinaryPatchType { kind: &line[0..7], size: &line[8..line.len()] });
        }
        let d = kw::delta_sp_bytes();
        if line.len() > 6 && starts_with(line, d.as_slice()) {
            return Ok(TokenKind::BinaryPatchType { kind: &line[0..5], size: &line[6..line.len()] });
        }
        let first = line[0];
        let dg = kw::diff_git_bytes();
        let m3 = kw::minus3_sp_bytes();
        let p3 = kw::plus3_sp_bytes();
        if first == 100 && starts_with(line, dg.as_slice()) || first == 45 && starts_with(
            line,
            m3.as_slice(),
        ) || first == 43 && starts_with(line, p3.as_slice()) {
            self.mode = LexerMode::Text;
            return self.tokenize_text(line);
        }
        Ok(TokenKind::BinaryData(line))
    }

    /// The next item: the token of the next line with its line number, or
    /// the error that the line gives, marked with its line number; nothing
    /// when the input is exhausted.
    pub fn next(&mut self) -> (r: Option<Result<LexerItem<'a>, Error>>)
        requires
            old(self).wf(),
        ensures
            final(self).wf(),
            final(self).input() == old(self).input(),
            r is None <==> old(self).rest().len() == 0,
            r matches Some(item) ==> item_view(item) == old(self).rest()[0] && final(self).rest()
                == old(self).rest().drop_first(),
            r is None ==> final(self).rest().len() == 0,
            old(self).pos() <= final(self).pos(),
            r is Some ==> old(self).pos() < final(self).pos(),
    {
        if self.pos >= self.input.len() {
            return None;
        }
        let rest_in = &self.input[self.pos..self.input.len()];
        let (line, next_input) = match get_line(rest_in) {
            Some(x) => x,
            None => return None,
        };
        proof {
            crate::bytes::lemma_get_line_parts(rest_in@);
        }
        let ghost old_mode = self.mode;
        let ghost old_pos = self.pos;
        self.line_num = if self.line_num == u32::MAX {
            0
        } else {
            self.line_num + 1
        };
        self.pos = self.input.len() - next_input.len();
        let line_num = self.line_num;
        let res = match self.mode {
            LexerMode::Binary => self.tokenize_binary(line),
            LexerMode::Text => self.tokenize_text(line),
        };
        proof {
            let (t, m) = spec_tokenize(line@, old_mode);
            assert(self.mode == m);
            assert(from(self.input@, old_pos as int) == rest_in@);
        }
        match res {
            Ok(token) => Some(Ok(LexerItem { token, line_num })),
            Err(kind) => Some(Err(Error::with_line(kind, line_num))),
        }
    }
}

} // verus!
