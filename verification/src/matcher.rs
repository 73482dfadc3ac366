use vstd::prelude::*;

use crate::bytes::{
    byte_index_from, find_byte_from, find_from, first_occurrence_from, last_byte_before,
    rfind_byte_before, spec_ends_with, spec_get_line, spec_starts_with, starts_with,
    get_line, lemma_get_line_parts,
};
use crate::error::{Error, ErrorKind};
use crate::model::{
    hunk_in_bounds, hunk_numbers_fit, line_view, lines_view, spec_hunk_lines, Hunk, Line, LineKind, LineV, Patch,
};

verus! {

// ---------------------------------------------------------------------------
// Where a hunk matches a buffer
// ---------------------------------------------------------------------------

/// Whether a line of a hunk has to be found in the file: every line but an addition.
pub open spec fn is_matchable(l: LineV) -> bool {
    l.kind != LineKind::Addition
}

/// The error for hunk line `i`, counted from the line after the hunk's start line.
pub open spec fn fail_at(base: u32, i: int) -> Error {
    Error { line: Some((base + 1 + i) as u32), kind: ErrorKind::CouldNotApplyHunk }
}

/// A line of the buffer without its terminator (`\r\n` or `\n`).
pub open spec fn strip_eol(seg: Seq<u8>) -> Seq<u8> {
    if spec_ends_with(seg, seq![13u8, 10u8]) {
        seg.subrange(0, seg.len() - 2)
    } else if spec_ends_with(seg, seq![10u8]) {
        seg.subrange(0, seg.len() - 1)
    } else {
        seg
    }
}

/// Matching the hunk lines before index `i` backwards, ending at offset
/// `start` of `src`: each matchable line must be the whole line of `src`
/// just before. The offset where the first of them starts.
pub open spec fn spec_back_match(src: Seq<u8>, lines: Seq<LineV>, i: int, start: int, base: u32) -> Result<
    int,
    Error,
>
    decreases i,
{
    if i <= 0 {
        Ok(start)
    } else if !is_matchable(lines[i - 1]) {
        spec_back_match(src, lines, i - 1, start, base)
    } else if start <= 0 {
        Err(fail_at(base, i - 1))
    } else {
        let pn = match last_byte_before(src, 10u8, start - 1) {
            Some(p) => p + 1,
            None => 0,
        };
        if strip_eol(src.subrange(pn, start)) != lines[i - 1].text {
            Err(fail_at(base, i - 1))
        } else {
            spec_back_match(src, lines, i - 1, pn, base)
        }
    }
}

/// Matching the hunk lines from index `i` on forwards, from offset `cur` of
/// `src`: each matchable line must be the text there, followed by a line
/// terminator or the end of `src`. The offset after the last of them.
pub open spec fn spec_fwd_match(src: Seq<u8>, lines: Seq<LineV>, i: int, cur: int, base: u32) -> Result<
    int,
    Error,
>
    decreases lines.len() - i,
{
    if i < 0 || i >= lines.len() {
        Ok(cur)
    } else if !is_matchable(lines[i]) {
        spec_fwd_match(src, lines, i + 1, cur, base)
    } else if !(0 <= cur <= src.len()) || !spec_starts_with(src.subrange(cur, src.len() as int), lines[i].text) {
        Err(fail_at(base, i))
    } else {
        let a = cur + lines[i].text.len();
        if a == src.len() {
            spec_fwd_match(src, lines, i + 1, a, base)
        } else if src[a] == 10u8 {
            spec_fwd_match(src, lines, i + 1, a + 1, base)
        } else if src[a] == 13u8 && a + 1 < src.len() && src[a + 1] == 10u8 {
            spec_fwd_match(src, lines, i + 1, a + 2, base)
        } else {
            Err(fail_at(base, i))
        }
    }
}

/// Whether the hunk lines match `src` with line `anchor_idx` at offset
/// `anchor_pos`: the offsets where the matched text starts and ends.
pub open spec fn spec_verify_match(
    src: Seq<u8>,
    lines: Seq<LineV>,
    base: u32,
    anchor_pos: int,
    anchor_idx: int,
) -> Result<(int, int), Error> {
    match spec_back_match(src, lines, anchor_idx, anchor_pos, base) {
        Err(e) => Err(e),
        Ok(start) => match spec_fwd_match(src, lines, anchor_idx, anchor_pos, base) {
            Err(e) => Err(e),
            Ok(end) => Ok((start, end)),
        },
    }
}

/// Whether the `n` bytes at `k` are a whole line of `b`.
pub open spec fn is_line_match(b: Seq<u8>, k: int, n: int) -> bool {
    let a = k + n;
    &&& (k == 0 || b[k - 1] == 10u8)
    &&& (a == b.len() || b[a] == 10u8 || (b[a] == 13u8 && a + 1 < b.len() && b[a + 1] == 10u8))
}

/// The offsets from `from` on where `needle` occurs as a whole line, taking
/// the occurrences in order without overlap.
pub open spec fn spec_needle_anchors(b: Seq<u8>, needle: Seq<u8>, from: int) -> Seq<int>
    decreases b.len() + 1 - from,
{
    if needle.len() == 0 || from < 0 {
        Seq::empty()
    } else {
        match first_occurrence_from(b, needle, from) {
            None => Seq::empty(),
            Some(k) => {
                let rest = if from <= k && k + needle.len() <= b.len() {
                    spec_needle_anchors(b, needle, k + needle.len())
                } else {
                    Seq::empty()
                };
                if is_line_match(b, k, needle.len() as int) {
                    seq![k] + rest
                } else {
                    rest
                }
            },
        }
    }
}

/// The offsets of the empty lines of `b` from the line that starts at `pos` on.
pub open spec fn spec_empty_anchors(b: Seq<u8>, pos: int) -> Seq<int>
    decreases b.len() - pos,
{
    if pos < 0 || pos >= b.len() {
        Seq::empty()
    } else {
        let remaining = b.subrange(pos, b.len() as int);
        match spec_get_line(remaining) {
            None => Seq::empty(),
            Some((line, rest)) => {
                let consumed = remaining.len() - rest.len();
                let unterminated = rest.len() == 0 && remaining.last() != 10u8;
                let tail = if consumed > 0 && !unterminated {
                    spec_empty_anchors(b, pos + consumed)
                } else {
                    Seq::empty()
                };
                if line.len() == 0 {
                    seq![pos] + tail
                } else {
                    tail
                }
            },
        }
    }
}

/// The failure that points furthest into the hunk so far, and how far.
#[derive(Debug, Clone, Copy)]
pub struct BestError {
    pub error: Option<Error>,
    pub max_offset: u32,
}

/// `best` after the failure `e`: it takes `e` if `e` points further past
/// `base` than any failure before, or if it is the first.
pub open spec fn spec_record(best: BestError, e: Error, base: u32) -> BestError {
    let line = match e.line {
        Some(l) => l,
        None => 0,
    };
    let offset: u32 = if line >= base {
        (line - base) as u32
    } else {
        0
    };
    if offset > best.max_offset || best.error is None {
        BestError { error: Some(e), max_offset: offset }
    } else {
        best
    }
}

/// The error to report once no anchor matched.
pub open spec fn spec_into_error(best: BestError, hunk: Hunk) -> Error {
    match best.error {
        Some(e) => e,
        None => Error {
            line: Some((hunk.patch_line_num + if hunk.has_header { 0int } else { 1int }) as u32),
            kind: ErrorKind::CouldNotApplyHunk,
        },
    }
}

/// Trying the anchors in order: the first match, else the error that points
/// furthest into the hunk.
pub open spec fn spec_try_anchors(
    src: Seq<u8>,
    lines: Seq<LineV>,
    hunk: Hunk,
    anchor_idx: int,
    anchors: Seq<int>,
    best: BestError,
) -> Result<(int, int), Error>
    decreases anchors.len(),
{
    if anchors.len() == 0 {
        Err(spec_into_error(best, hunk))
    } else {
        match spec_verify_match(src, lines, hunk.patch_line_num, anchors[0], anchor_idx) {
            Ok(x) => Ok(x),
            Err(e) => spec_try_anchors(
                src,
                lines,
                hunk,
                anchor_idx,
                anchors.drop_first(),
                spec_record(best, e, hunk.patch_line_num),
            ),
        }
    }
}

/// The index of the first matchable line from `i` on.
pub open spec fn first_matchable_from(lines: Seq<LineV>, i: int) -> Option<int>
    decreases lines.len() - i,
{
    if i < 0 || i >= lines.len() {
        None
    } else if is_matchable(lines[i]) {
        Some(i)
    } else {
        first_matchable_from(lines, i + 1)
    }
}

/// The index of the first matchable line with text from `i` on.
pub open spec fn first_nonempty_from(lines: Seq<LineV>, i: int) -> Option<int>
    decreases lines.len() - i,
{
    if i < 0 || i >= lines.len() {
        None
    } else if is_matchable(lines[i]) && lines[i].text.len() > 0 {
        Some(i)
    } else {
        first_nonempty_from(lines, i + 1)
    }
}

/// The index of the longest matchable line with text from `i` on, given the
/// best so far; of lines equally long the last one.
pub open spec fn best_from(lines: Seq<LineV>, i: int, cur: Option<int>) -> Option<int>
    decreases lines.len() - i,
{
    if i < 0 || i >= lines.len() {
        cur
    } else if is_matchable(lines[i]) && lines[i].text.len() > 0 && (cur is None || lines[i].text.len()
        >= lines[cur.unwrap()].text.len()) {
        best_from(lines, i + 1, Some(i))
    } else {
        best_from(lines, i + 1, cur)
    }
}

/// The first line of the buffer after the first line that starts with the
/// hunk's label, as a start offset; the start of the buffer when there is
/// no such line or no label.
pub open spec fn spec_search_hint(b: Seq<u8>, label: Option<Seq<u8>>) -> int {
    match label {
        None => 0,
        Some(l) => if l.len() == 0 {
            0
        } else {
            spec_label_hint_from(b, l, 0)
        },
    }
}

pub open spec fn spec_label_hint_from(b: Seq<u8>, l: Seq<u8>, from: int) -> int
    decreases b.len() + 1 - from,
{
    if l.len() == 0 || from < 0 {
        0
    } else {
        match first_occurrence_from(b, l, from) {
            None => 0,
            Some(pos) => if pos == 0 || b[pos - 1] == 10u8 {
                let nl = byte_index_from(b, 10u8, pos);
                if nl < b.len() {
                    nl + 1
                } else {
                    b.len() as int
                }
            } else if from <= pos && pos + l.len() <= b.len() {
                spec_label_hint_from(b, l, pos + l.len())
            } else {
                0
            },
        }
    }
}

/// Where the hunk `hunk` of `lines` matches `b`: first at the very start,
/// then around its longest line (unless the caller fixed the anchor), then
/// around its first line with text, or else around its first matchable line
/// at an empty line. The search for anchors starts after the line that
/// holds the hunk's label, if any.
pub open spec fn spec_find_match(
    b: Seq<u8>,
    lines: Seq<LineV>,
    hunk: Hunk,
    precomputed: bool,
) -> Result<(int, int), Error> {
    let base = hunk.patch_line_num;
    let no_best = BestError { error: None, max_offset: 0 };
    match spec_verify_match(b, lines, base, 0, 0) {
        Ok(x) => Ok(x),
        Err(_) => {
            let hint = spec_search_hint(
                b,
                match hunk.label {
                    Some(l) => Some(l@),
                    None => None,
                },
            );
            let best_try = if !precomputed {
                match best_from(lines, 0, None) {
                    Some(idx) => spec_try_anchors(
                        b,
                        lines,
                        hunk,
                        idx,
                        spec_needle_anchors(b, lines[idx].text, hint),
                        no_best,
                    ),
                    None => Err(spec_into_error(no_best, hunk)),
                }
            } else {
                Err(spec_into_error(no_best, hunk))
            };
            if best_try is Ok && !precomputed && best_from(lines, 0, None) is Some {
                best_try
            } else {
                match first_nonempty_from(lines, 0) {
                    None => match first_matchable_from(lines, 0) {
                        None => Ok((0, 0)),
                        Some(idx) => spec_try_anchors(
                            b,
                            lines,
                            hunk,
                            idx,
                            spec_empty_anchors(b, hint),
                            no_best,
                        ),
                    },
                    Some(idx) => spec_try_anchors(
                        b,
                        lines,
                        hunk,
                        idx,
                        spec_needle_anchors(b, lines[idx].text, hint),
                        no_best,
                    ),
                }
            }
        },
    }
}



proof fn lemma_back_bounds(src: Seq<u8>, lines: Seq<LineV>, i: int, start: int, base: u32)
    requires
        0 <= start <= src.len(),
    ensures
        spec_back_match(src, lines, i, start, base) matches Ok(s) ==> 0 <= s <= start,
    decreases i,
{
    if i > 0 {
        if !is_matchable(lines[i - 1]) {
            lemma_back_bounds(src, lines, i - 1, start, base);
        } else if start > 0 {
            let pn = match last_byte_before(src, 10u8, start - 1) {
                Some(p) => p + 1,
                None => 0,
            };
            lemma_last_byte_bounds(src, 10u8, start - 1);
            lemma_back_bounds(src, lines, i - 1, pn, base);
        }
    }
}

proof fn lemma_last_byte_bounds(s: Seq<u8>, b: u8, i: int)
    ensures
        last_byte_before(s, b, i) matches Some(k) ==> 0 <= k < i,
    decreases i,
{
    if i > 0 && s[i - 1] != b {
        lemma_last_byte_bounds(s, b, i - 1);
    }
}

proof fn lemma_fwd_bounds(src: Seq<u8>, lines: Seq<LineV>, i: int, cur: int, base: u32)
    requires
        0 <= cur <= src.len(),
    ensures
        spec_fwd_match(src, lines, i, cur, base) matches Ok(e) ==> cur <= e <= src.len(),
    decreases lines.len() - i,
{
    if 0 <= i < lines.len() {
        if !is_matchable(lines[i]) {
            lemma_fwd_bounds(src, lines, i + 1, cur, base);
        } else if spec_starts_with(src.subrange(cur, src.len() as int), lines[i].text) {
            let a = cur + lines[i].text.len();
            if a == src.len() {
                lemma_fwd_bounds(src, lines, i + 1, a, base);
            } else if src[a] == 10u8 {
                lemma_fwd_bounds(src, lines, i + 1, a + 1, base);
            } else if src[a] == 13u8 && a + 1 < src.len() && src[a + 1] == 10u8 {
                lemma_fwd_bounds(src, lines, i + 1, a + 2, base);
            }
        }
    }
}

proof fn lemma_verify_bounds(src: Seq<u8>, lines: Seq<LineV>, base: u32, ap: int, ai: int)
    requires
        0 <= ap <= src.len(),
    ensures
        spec_verify_match(src, lines, base, ap, ai) matches Ok((s, e)) ==> 0 <= s <= e <= src.len(),
{
    lemma_back_bounds(src, lines, ai, ap, base);
    lemma_fwd_bounds(src, lines, ai, ap, base);
}

proof fn lemma_try_anchors_bounds(
    src: Seq<u8>,
    lines: Seq<LineV>,
    hunk: Hunk,
    ai: int,
    anchors: Seq<int>,
    best: BestError,
)
    requires
        forall|k: int| 0 <= k < anchors.len() ==> 0 <= #[trigger] anchors[k] <= src.len(),
    ensures
        spec_try_anchors(src, lines, hunk, ai, anchors, best) matches Ok((s, e)) ==> 0 <= s <= e <= src.len(),
    decreases anchors.len(),
{
    if anchors.len() > 0 {
        lemma_verify_bounds(src, lines, hunk.patch_line_num, anchors[0], ai);
        let rest = anchors.drop_first();
        assert forall|k: int| 0 <= k < rest.len() implies 0 <= #[trigger] rest[k] <= src.len() by {
            assert(rest[k] == anchors[k + 1]);
        }
        match spec_verify_match(src, lines, hunk.patch_line_num, anchors[0], ai) {
            Ok(_) => {},
            Err(e) => lemma_try_anchors_bounds(src, lines, hunk, ai, rest, spec_record(best, e, hunk.patch_line_num)),
        }
    }
}

proof fn lemma_needle_anchors_bounds(b: Seq<u8>, needle: Seq<u8>, from: int)
    ensures
        forall|k: int|
            0 <= k < spec_needle_anchors(b, needle, from).len() ==> 0 <= #[trigger] spec_needle_anchors(
                b,
                needle,
                from,
            )[k] <= b.len(),
    decreases b.len() + 1 - from,
{
    if needle.len() > 0 && from >= 0 {
        crate::bytes::lemma_first_occurrence_from_facts(b, needle, from);
        match first_occurrence_from(b, needle, from) {
            None => {},
            Some(k) => {
                if from <= k && k + needle.len() <= b.len() {
                    lemma_needle_anchors_bounds(b, needle, k + needle.len());
                }
                let rest = if from <= k && k + needle.len() <= b.len() {
                    spec_needle_anchors(b, needle, k + needle.len())
                } else {
                    Seq::empty()
                };
                if is_line_match(b, k, needle.len() as int) {
                    let all = seq![k] + rest;
                    assert forall|j: int| 0 <= j < all.len() implies 0 <= #[trigger] all[j] <= b.len() by {
                        if j > 0 {
                            assert(all[j] == rest[j - 1]);
                        }
                    }
                }
            },
        }
    }
}

proof fn lemma_empty_anchors_bounds(b: Seq<u8>, pos: int)
    ensures
        forall|k: int|
            0 <= k < spec_empty_anchors(b, pos).len() ==> 0 <= #[trigger] spec_empty_anchors(b, pos)[k] <= b.len(),
    decreases b.len() - pos,
{
    if 0 <= pos < b.len() {
        let remaining = b.subrange(pos, b.len() as int);
        lemma_get_line_parts(remaining);
        match spec_get_line(remaining) {
            None => {},
            Some((line, rest)) => {
                let consumed = remaining.len() - rest.len();
                let unterminated = rest.len() == 0 && remaining.last() != 10u8;
                if consumed > 0 && !unterminated {
                    lemma_empty_anchors_bounds(b, pos + consumed);
                }
                let tail = if consumed > 0 && !unterminated {
                    spec_empty_anchors(b, pos + consumed)
                } else {
                    Seq::empty()
                };
                if line.len() == 0 {
                    let all = seq![pos] + tail;
                    assert forall|j: int| 0 <= j < all.len() implies 0 <= #[trigger] all[j] <= b.len() by {
                        if j > 0 {
                            assert(all[j] == tail[j - 1]);
                        }
                    }
                }
            },
        }
    }
}

/// A match lies within the buffer: it starts no later than it ends.
pub proof fn lemma_find_match_bounds(b: Seq<u8>, lines: Seq<LineV>, hunk: Hunk, precomputed: bool)
    ensures
        spec_find_match(b, lines, hunk, precomputed) matches Ok((s, e)) ==> 0 <= s <= e <= b.len(),
{
    let base = hunk.patch_line_num;
    let no_best = BestError { error: None, max_offset: 0 };
    lemma_verify_bounds(b, lines, base, 0, 0);
    let hint = spec_search_hint(
        b,
        match hunk.label {
            Some(l) => Some(l@),
            None => None,
        },
    );
    lemma_empty_anchors_bounds(b, hint);
    match best_from(lines, 0, None) {
        Some(idx) => {
            lemma_needle_anchors_bounds(b, lines[idx].text, hint);
            lemma_try_anchors_bounds(b, lines, hunk, idx, spec_needle_anchors(b, lines[idx].text, hint), no_best);
        },
        None => {},
    }
    match first_nonempty_from(lines, 0) {
        Some(idx) => {
            lemma_needle_anchors_bounds(b, lines[idx].text, hint);
            lemma_try_anchors_bounds(b, lines, hunk, idx, spec_needle_anchors(b, lines[idx].text, hint), no_best);
        },
        None => {},
    }
    match first_matchable_from(lines, 0) {
        Some(idx) => {
            lemma_try_anchors_bounds(b, lines, hunk, idx, spec_empty_anchors(b, hint), no_best);
        },
        None => {},
    }
}

/// Whether the hunk lines match a buffer.
pub struct Matcher;

fn fail_exec(base: u32, i: usize) -> (r: Error)
    requires
        base + 1 + i <= u32::MAX,
    ensures
        r == fail_at(base, i as int),
{
    Error::with_line(ErrorKind::CouldNotApplyHunk, base + 1 + i as u32)
}

fn record(best: &mut BestError, e: Error, base: u32)
    ensures
        *final(best) == spec_record(*old(best), e, base),
{
    let line = match e.line {
        Some(l) => l,
        None => 0,
    };
    let offset = line.saturating_sub(base);
    if offset > best.max_offset || best.error.is_none() {
        best.max_offset = offset;
        best.error = Some(e);
    }
}

fn into_error(best: BestError, hunk: &Hunk) -> (r: Error)
    requires
        hunk.patch_line_num < u32::MAX,
    ensures
        r == spec_into_error(best, *hunk),
{
    match best.error {
        Some(e) => e,
        None => {
            let line = hunk.patch_line_num + if hunk.has_header {
                0
            } else {
                1
            };
            Error::with_line(ErrorKind::CouldNotApplyHunk, line)
        },
    }
}

proof fn lemma_first_nonempty_bounds(lines: Seq<LineV>, i: int)
    ensures
        first_nonempty_from(lines, i) matches Some(c) ==> 0 <= c < lines.len() && lines[c].text.len() > 0,
    decreases lines.len() - i,
{
    if 0 <= i < lines.len() && !(is_matchable(lines[i]) && lines[i].text.len() > 0) {
        lemma_first_nonempty_bounds(lines, i + 1);
    }
}

proof fn lemma_first_matchable_bounds(lines: Seq<LineV>, i: int)
    ensures
        first_matchable_from(lines, i) matches Some(c) ==> 0 <= c < lines.len(),
    decreases lines.len() - i,
{
    if 0 <= i < lines.len() && !is_matchable(lines[i]) {
        lemma_first_matchable_bounds(lines, i + 1);
    }
}

/// The index of the first matchable line with text.
pub fn first_non_empty_match_line(lines: &[Line]) -> (r: Option<usize>)
    ensures
        r == (match first_nonempty_from(lines_view(lines@), 0) {
            Some(i) => Some(i as usize),
            None => None,
        }),
        r matches Some(i) ==> i < lines@.len(),
{
    let ghost lv = lines_view(lines@);
    let mut i: usize = 0;
    while i < lines.len()
        invariant
            i <= lines@.len(),
            lv == lines_view(lines@),
            first_nonempty_from(lv, 0) == first_nonempty_from(lv, i as int),
        decreases lines@.len() - i,
    {
        let l = lines[i];
        assert(lv[i as int] == line_view(l));
        let matchable = match l.kind {
            LineKind::Addition => false,
            _ => true,
        };
        if matchable && l.text.len() > 0 {
            return Some(i);
        }
        i += 1;
    }
    None
}

/// The index of the first matchable line.
pub fn first_match_line(lines: &[Line]) -> (r: Option<usize>)
    ensures
        r == (match first_matchable_from(lines_view(lines@), 0) {
            Some(i) => Some(i as usize),
            None => None,
        }),
        r matches Some(i) ==> i < lines@.len(),
{
    let ghost lv = lines_view(lines@);
    let mut i: usize = 0;
    while i < lines.len()
        invariant
            i <= lines@.len(),
            lv == lines_view(lines@),
            first_matchable_from(lv, 0) == first_matchable_from(lv, i as int),
        decreases lines@.len() - i,
    {
        let l = lines[i];
        assert(lv[i as int] == line_view(l));
        let matchable = match l.kind {
            LineKind::Addition => false,
            _ => true,
        };
        if matchable {
            return Some(i);
        }
        i += 1;
    }
    None
}

proof fn lemma_best_from_bounds(lines: Seq<LineV>, i: int, cur: Option<int>)
    requires
        0 <= i,
        cur matches Some(c) ==> 0 <= c < lines.len() && lines[c].text.len() > 0,
    ensures
        best_from(lines, i, cur) matches Some(c) ==> 0 <= c < lines.len() && lines[c].text.len() > 0,
    decreases lines.len() - i,
{
    if i < lines.len() {
        if is_matchable(lines[i]) && lines[i].text.len() > 0 && (cur is None || lines[i].text.len()
            >= lines[cur.unwrap()].text.len()) {
            lemma_best_from_bounds(lines, i + 1, Some(i));
        } else {
            lemma_best_from_bounds(lines, i + 1, cur);
        }
    }
}

/// The index of the longest matchable line with text; of lines equally long
/// the last one.
pub fn best_match_line(lines: &[Line]) -> (r: Option<usize>)
    ensures
        r == (match best_from(lines_view(lines@), 0, None) {
            Some(i) => Some(i as usize),
            None => None,
        }),
        r matches Some(i) ==> i < lines@.len(),
{
    let ghost lv = lines_view(lines@);
    let mut i: usize = 0;
    let mut cur: Option<usize> = None;
    proof {
        lemma_best_from_bounds(lv, 0, None);
    }
    while i < lines.len()
        invariant
            i <= lines@.len(),
            lv == lines_view(lines@),
            cur matches Some(c) ==> c < i,
            best_from(lv, 0, None) == best_from(
                lv,
                i as int,
                match cur {
                    Some(c) => Some(c as int),
                    None => None,
                },
            ),
        decreases lines@.len() - i,
    {
        let l = lines[i];
        assert(lv[i as int] == line_view(l));
        let matchable = match l.kind {
            LineKind::Addition => false,
            _ => true,
        };
        if matchable && l.text.len() > 0 {
            let better = match cur {
                None => true,
                Some(c) => {
                    assert(lv[c as int] == line_view(lines@[c as int]));
                    l.text.len() >= lines[c].text.len()
                },
            };
            if better {
                cur = Some(i);
            }
        }
        i += 1;
    }
    cur
}

impl Matcher {
    /// Whether `lines` match `source` with line `anchor_line_idx` at offset
    /// `anchor_pos`: the lines before it are matched backwards, it and the
    /// lines after it forwards. On success, where the matched text starts and
    /// what follows it.
    pub fn verify_match<'s>(
        &self,
        source: &'s [u8],
        lines: &[Line],
        hunk: &Hunk,
        anchor_pos: usize,
        anchor_line_idx: usize,
    ) -> (r: Result<(usize, &'s [u8]), Error>)
        requires
            anchor_pos <= source@.len(),
            anchor_line_idx <= lines@.len(),
            hunk_numbers_fit(*hunk, lines@.len() as int),
        ensures
            ({
                let s = spec_verify_match(
                    source@,
                    lines_view(lines@),
                    hunk.patch_line_num,
                    anchor_pos as int,
                    anchor_line_idx as int,
                );
                match r {
                    Ok((start, rest)) => s matches Ok((s0, e0)) && s0 == start && rest@ == source@.subrange(
                        e0,
                        source@.len() as int,
                    ),
                    Err(e) => s == Err::<(int, int), Error>(e),
                }
            }),
    {
        let ghost lv = lines_view(lines@);
        let base = hunk.patch_line_num;
        let mut hunk_start = anchor_pos;
        let mut i = anchor_line_idx;
        while i > 0
            invariant
                i <= anchor_line_idx <= lines@.len(),
                hunk_start <= source@.len(),
                lv == lines_view(lines@),
                base == hunk.patch_line_num,
                hunk_numbers_fit(*hunk, lines@.len() as int),
                spec_back_match(source@, lv, anchor_line_idx as int, anchor_pos as int, base)
                    == spec_back_match(source@, lv, i as int, hunk_start as int, base),
            decreases i,
        {
            let l = lines[i - 1];
            assert(lv[i - 1] == line_view(l));
            let matchable = match l.kind {
                LineKind::Addition => false,
                _ => true,
            };
            if matchable {
                if hunk_start == 0 {
                    return Err(fail_exec(base, i - 1));
                }
                proof {
                    lemma_last_byte_bounds(source@, 10u8, hunk_start - 1);
                }
                let prev_newline = match rfind_byte_before(source, 10u8, hunk_start - 1) {
                    Some(p) => p + 1,
                    None => 0,
                };
                let seg = &source[prev_newline..hunk_start];
                let n = seg.len();
                let stripped = if n >= 2 && seg[n - 2] == 13u8 && seg[n - 1] == 10u8 {
                    &seg[0..n - 2]
                } else if n >= 1 && seg[n - 1] == 10u8 {
                    &seg[0..n - 1]
                } else {
                    seg
                };
                proof {
                    assert(seq![13u8, 10u8].len() == 2);
                    if n >= 2 && seg@[n - 2] == 13u8 && seg@[n - 1] == 10u8 {
                        assert(seg@.subrange(n - 2, n as int) =~= seq![13u8, 10u8]);
                    } else {
                        assert(!spec_ends_with(seg@, seq![13u8, 10u8])) by {
                            if n >= 2 {
                                assert(seg@.subrange(n - 2, n as int)[0] == seg@[n - 2]);
                                assert(seg@.subrange(n - 2, n as int)[1] == seg@[n - 1]);
                            }
                        }
                        if n >= 1 && seg@[n - 1] == 10u8 {
                            assert(seg@.subrange(n - 1, n as int) =~= seq![10u8]);
                        } else if n >= 1 {
                            assert(seg@.subrange(n - 1, n as int)[0] == seg@[n - 1]);
                        }
                    }
                    assert(stripped@ == strip_eol(seg@));
                    assert(seg@ == source@.subrange(prev_newline as int, hunk_start as int));
                    assert(prev_newline as int == match last_byte_before(source@, 10u8, hunk_start - 1) {
                        Some(p) => p + 1,
                        None => 0,
                    });
                }
                if !crate::bytes::bytes_eq(stripped, l.text) {
                    return Err(fail_exec(base, i - 1));
                }
                hunk_start = prev_newline;
            }
            i -= 1;
        }
        let mut cur = anchor_pos;
        let mut j = anchor_line_idx;
        while j < lines.len()
            invariant
                anchor_line_idx <= j <= lines@.len(),
                cur <= source@.len(),
                lv == lines_view(lines@),
                base == hunk.patch_line_num,
                hunk_numbers_fit(*hunk, lines@.len() as int),
                spec_fwd_match(source@, lv, anchor_line_idx as int, anchor_pos as int, base)
                    == spec_fwd_match(source@, lv, j as int, cur as int, base),
                spec_back_match(source@, lv, anchor_line_idx as int, anchor_pos as int, base)
                    == Ok::<int, Error>(hunk_start as int),
            decreases lines@.len() - j,
        {
            let l = lines[j];
            assert(lv[j as int] == line_view(l));
            let matchable = match l.kind {
                LineKind::Addition => false,
                _ => true,
            };
            if matchable {
                let rest = &source[cur..source.len()];
                if !starts_with(rest, l.text) {
                    return Err(fail_exec(base, j));
                }
                let a = cur + l.text.len();
                if a == source.len() {
                    cur = a;
                } else if source[a] == 10u8 {
                    cur = a + 1;
                } else if source[a] == 13u8 && a + 1 < source.len() && source[a + 1] == 10u8 {
                    cur = a + 2;
                } else {
                    return Err(fail_exec(base, j));
                }
            }
            j += 1;
        }
        Ok((hunk_start, &source[cur..source.len()]))
    }
}


proof fn lemma_drop_first_cons(k: int, rest: Seq<int>)
    ensures
        (seq![k] + rest).drop_first() == rest,
        (seq![k] + rest)[0] == k,
        (seq![k] + rest).len() > 0,
{
    assert((seq![k] + rest).drop_first() =~= rest);
}

fn is_line_match_exec(b: &[u8], k: usize, n: usize) -> (r: bool)
    requires
        k + n <= b@.len(),
    ensures
        r == is_line_match(b@, k as int, n as int),
{
    let blen = b.len();
    let a = k + n;
    (k == 0 || b[k - 1] == 10u8) && (a == b.len() || b[a] == 10u8 || (b[a] == 13u8 && a + 1 < b.len()
        && b[a + 1] == 10u8))
}

impl Matcher {
    /// Tries the whole-line occurrences of `needle` from offset `from` on as
    /// anchors for line `anchor_idx`, in order.
    fn try_needle_anchors<'s>(
        &self,
        buffer: &'s [u8],
        lines: &[Line],
        hunk: &Hunk,
        anchor_idx: usize,
        needle: &[u8],
        from: usize,
    ) -> (r: Result<(usize, &'s [u8]), Error>)
        requires
            anchor_idx < lines@.len(),
            needle@.len() > 0,
            hunk_numbers_fit(*hunk, lines@.len() as int),
        ensures
            ({
                let s = spec_try_anchors(
                    buffer@,
                    lines_view(lines@),
                    *hunk,
                    anchor_idx as int,
                    spec_needle_anchors(buffer@, needle@, from as int),
                    BestError { error: None, max_offset: 0 },
                );
                match r {
                    Ok((start, rest)) => s matches Ok((s0, e0)) && s0 == start && rest@
                        == buffer@.subrange(e0, buffer@.len() as int),
                    Err(e) => s == Err::<(int, int), Error>(e),
                }
            }),
    {
        let ghost lv = lines_view(lines@);
        let ghost all = spec_needle_anchors(buffer@, needle@, from as int);
        let mut best = BestError { error: None, max_offset: 0 };
        let mut pos = from;
        loop
            invariant
                anchor_idx < lines@.len(),
                needle@.len() > 0,
                hunk_numbers_fit(*hunk, lines@.len() as int),
                lv == lines_view(lines@),
                all == spec_needle_anchors(buffer@, needle@, from as int),
                spec_try_anchors(buffer@, lv, *hunk, anchor_idx as int, all, BestError { error: None, max_offset: 0 })
                    == spec_try_anchors(buffer@, lv, *hunk, anchor_idx as int, spec_needle_anchors(buffer@, needle@, pos as int), best),
            decreases buffer@.len() + 1 - pos,
        {
            proof {
                crate::bytes::lemma_first_occurrence_from_facts(buffer@, needle@, pos as int);
            }
            let k = match find_from(buffer, needle, pos) {
                Some(k) => k,
                None => {
                    assert(first_occurrence_from(buffer@, needle@, pos as int) is None);
                    assert(spec_needle_anchors(buffer@, needle@, pos as int) =~= Seq::<int>::empty());
                    assert(hunk.patch_line_num < u32::MAX);
                    let e = into_error(best, hunk);
                    assert(spec_try_anchors(buffer@, lv, *hunk, anchor_idx as int, Seq::<int>::empty(), best) == Err::<(int, int), Error>(e));
                    return Err(e);
                },
            };
            assert(first_occurrence_from(buffer@, needle@, pos as int) == Some(k as int));
            assert(k + needle@.len() <= buffer@.len());
            let ghost rest = spec_needle_anchors(buffer@, needle@, k + needle@.len());
            assert(spec_needle_anchors(buffer@, needle@, pos as int) == if is_line_match(
                buffer@,
                k as int,
                needle@.len() as int,
            ) {
                seq![k as int] + rest
            } else {
                rest
            });
            let lm = is_line_match_exec(buffer, k, needle.len());
            if lm {
                proof {
                    lemma_drop_first_cons(k as int, rest);
                }
                match self.verify_match(buffer, lines, hunk, k, anchor_idx) {
                    Ok(res) => return Ok(res),
                    Err(e) => {
                        record(&mut best, e, hunk.patch_line_num);
                    },
                }
            }
            let blen = buffer.len();
            assert(k + needle.len() <= blen);
            pos = k + needle.len();
        }
    }

    /// Tries the empty lines from the line at offset `from` on as anchors for
    /// line `anchor_idx`, in order.
    fn try_empty_anchors<'s>(
        &self,
        buffer: &'s [u8],
        lines: &[Line],
        hunk: &Hunk,
        anchor_idx: usize,
        from: usize,
    ) -> (r: Result<(usize, &'s [u8]), Error>)
        requires
            anchor_idx < lines@.len(),
            hunk_numbers_fit(*hunk, lines@.len() as int),
        ensures
            ({
                let s = spec_try_anchors(
                    buffer@,
                    lines_view(lines@),
                    *hunk,
                    anchor_idx as int,
                    spec_empty_anchors(buffer@, from as int),
                    BestError { error: None, max_offset: 0 },
                );
                match r {
                    Ok((start, rest)) => s matches Ok((s0, e0)) && s0 == start && rest@
                        == buffer@.subrange(e0, buffer@.len() as int),
                    Err(e) => s == Err::<(int, int), Error>(e),
                }
            }),
    {
        let ghost lv = lines_view(lines@);
        let ghost all = spec_empty_anchors(buffer@, from as int);
        let mut best = BestError { error: None, max_offset: 0 };
        let mut pos = from;
        loop
            invariant
                anchor_idx < lines@.len(),
                hunk_numbers_fit(*hunk, lines@.len() as int),
                lv == lines_view(lines@),
                all == spec_empty_anchors(buffer@, from as int),
                spec_try_anchors(buffer@, lv, *hunk, anchor_idx as int, all, BestError { error: None, max_offset: 0 })
                    == spec_try_anchors(buffer@, lv, *hunk, anchor_idx as int, spec_empty_anchors(buffer@, pos as int), best),
            decreases buffer@.len() + 1 - pos,
        {
            if pos >= buffer.len() {
                assert(spec_empty_anchors(buffer@, pos as int) =~= Seq::<int>::empty());
                return Err(into_error(best, hunk));
            }
            let remaining = &buffer[pos..buffer.len()];
            let (line, rest) = match get_line(remaining) {
                Some(x) => x,
                None => {
                    return Err(into_error(best, hunk));
                },
            };
            proof {
                lemma_get_line_parts(remaining@);
            }
            let consumed = remaining.len() - rest.len();
            let unterminated = rest.len() == 0 && remaining[remaining.len() - 1] != 10u8;
            let ghost tail = if consumed > 0 && !unterminated {
                spec_empty_anchors(buffer@, pos + consumed)
            } else {
                Seq::empty()
            };
            let ghost here = spec_empty_anchors(buffer@, pos as int);
            assert(here == if line@.len() == 0 {
                seq![pos as int] + tail
            } else {
                tail
            });
            if line.len() == 0 {
                proof {
                    lemma_drop_first_cons(pos as int, tail);
                }
                match self.verify_match(buffer, lines, hunk, pos, anchor_idx) {
                    Ok(res) => return Ok(res),
                    Err(e) => {
                        record(&mut best, e, hunk.patch_line_num);
                    },
                }
            }
            if unterminated {
                assert(tail =~= Seq::<int>::empty());
                assert(spec_try_anchors(buffer@, lv, *hunk, anchor_idx as int, tail, best) == Err::<(int, int), Error>(
                    spec_into_error(best, *hunk),
                ));
                return Err(into_error(best, hunk));
            }
            pos = pos + consumed;
        }
    }

    /// Where the next line after the first line that starts with the hunk's
    /// label begins, and the buffer from there; the whole buffer when the
    /// hunk has no label or no line starts with it.
    pub fn search_hint<'s>(&self, buffer: &'s [u8], hunk: &Hunk) -> (r: (&'s [u8], usize))
        ensures
            r.1 == spec_search_hint(
                buffer@,
                match hunk.label {
                    Some(l) => Some(l@),
                    None => None,
                },
            ),
            r.1 <= buffer@.len(),
            r.0@ == buffer@.subrange(r.1 as int, buffer@.len() as int),
    {
        let label = match hunk.label {
            Some(l) => l,
            None => return (buffer, 0),
        };
        if label.len() == 0 {
            return (buffer, 0);
        }
        let mut from: usize = 0;
        loop
            invariant
                label@.len() > 0,
                hunk.label == Some(label),
                spec_label_hint_from(buffer@, label@, 0) == spec_label_hint_from(buffer@, label@, from as int),
            decreases buffer@.len() + 1 - from,
        {
            let pos = match find_from(buffer, label, from) {
                Some(p) => p,
                None => {
                    return (buffer, 0);
                },
            };
            proof {
                crate::bytes::lemma_first_occurrence_from_facts(buffer@, label@, from as int);
            }
            if pos == 0 || buffer[pos - 1] == 10u8 {
                let nl = find_byte_from(buffer, 10u8, pos);
                let line_end = if nl < buffer.len() {
                    nl + 1
                } else {
                    buffer.len()
                };
                return (&buffer[line_end..buffer.len()], line_end);
            }
            from = pos + label.len();
        }
    }

    /// Where the hunk matches `buffer`: where the matched text starts, and
    /// what follows it. The hunk is tried at the very start, then anchored at
    /// its longest line (unless `precomputed`, which stands for a caller that
    /// has chosen the first line with text as the anchor), then at its first
    /// line with text, or else at empty lines; anchors are searched after the
    /// line that holds the hunk's label. A hunk with nothing to match matches
    /// at the start.
    pub fn find_match<'s, 'p>(
        &self,
        buffer: &'s [u8],
        patch: &Patch<'p>,
        hunk: &Hunk<'p>,
        precomputed: bool,
    ) -> (r: Result<(usize, &'s [u8]), Error>)
        requires
            hunk_in_bounds(patch@, *hunk),
            hunk_numbers_fit(*hunk, hunk.lines_len as int),
        ensures
            ({
                let s = spec_find_match(buffer@, spec_hunk_lines(patch@, *hunk), *hunk, precomputed);
                match r {
                    Ok((start, rest)) => s matches Ok((s0, e0)) && s0 == start && rest@
                        == buffer@.subrange(e0, buffer@.len() as int),
                    Err(e) => s == Err::<(int, int), Error>(e),
                }
            }),
            r matches Ok((start, rest)) ==> rest@.len() <= buffer@.len() && start <= buffer@.len()
                - rest@.len(),
    {
        proof {
            lemma_find_match_bounds(buffer@, spec_hunk_lines(patch@, *hunk), *hunk, precomputed);
        }
        let lines = patch.hunk_lines(hunk);
        let ghost lv = lines_view(lines@);
        let ghost base = hunk.patch_line_num;
        let ghost no_best = BestError { error: None, max_offset: 0 };
        proof {
            lemma_best_from_bounds(lv, 0, None);
            lemma_first_nonempty_bounds(lv, 0);
            lemma_first_matchable_bounds(lv, 0);
        }
        if let Ok(res) = self.verify_match(buffer, lines, hunk, 0, 0) {
            return Ok(res);
        }
        let (_, hint) = self.search_hint(buffer, hunk);
        let ghost label = match hunk.label {
            Some(l) => Some(l@),
            None => None,
        };
        assert(hint == spec_search_hint(buffer@, label));
        assert(spec_verify_match(buffer@, lv, base, 0, 0) is Err);
        let ghost fallback = match first_nonempty_from(lv, 0) {
            None => match first_matchable_from(lv, 0) {
                None => Ok((0int, 0int)),
                Some(idx) => spec_try_anchors(buffer@, lv, *hunk, idx, spec_empty_anchors(buffer@, hint as int), no_best),
            },
            Some(idx) => spec_try_anchors(buffer@, lv, *hunk, idx, spec_needle_anchors(buffer@, lv[idx].text, hint as int), no_best),
        };
        if !precomputed {
            if let Some(idx) = best_match_line(lines) {
                proof {
                    assert(lv[idx as int] == line_view(lines@[idx as int]));
                }
                let res = self.try_needle_anchors(buffer, lines, hunk, idx, lines[idx].text, hint);
                if res.is_ok() {
                    return res;
                }
                assert(spec_find_match(buffer@, lv, *hunk, precomputed) == fallback);
            } else {
                assert(spec_find_match(buffer@, lv, *hunk, precomputed) == fallback);
            }
        } else {
            assert(spec_find_match(buffer@, lv, *hunk, precomputed) == fallback);
        }
        assert(lv == spec_hunk_lines(patch@, *hunk));
        match first_non_empty_match_line(lines) {
            None => match first_match_line(lines) {
                None => {
                    assert(buffer@.subrange(0, buffer@.len() as int) =~= buffer@);
                    Ok((0, buffer))
                },
                Some(idx) => {
                    let r = self.try_empty_anchors(buffer, lines, hunk, idx, hint);
                    assert(fallback == spec_try_anchors(buffer@, lv, *hunk, idx as int, spec_empty_anchors(buffer@, hint as int), no_best));
                    r
                },
            },
            Some(idx) => {
                proof {
                    assert(lv[idx as int] == line_view(lines@[idx as int]));
                }
                let r = self.try_needle_anchors(buffer, lines, hunk, idx, lines[idx].text, hint);
                assert(fallback == spec_try_anchors(buffer@, lv, *hunk, idx as int, spec_needle_anchors(buffer@, lv[idx as int].text, hint as int), no_best));
                r
            },
        }
    }
}


// ---------------------------------------------------------------------------
// What a match holds
// ---------------------------------------------------------------------------

/// The texts of the matchable lines of `lines` from index `i` on, in order.
pub open spec fn texts_from(lines: Seq<LineV>, i: int) -> Seq<Seq<u8>>
    decreases lines.len() - i,
{
    if i < 0 || i >= lines.len() {
        Seq::empty()
    } else if is_matchable(lines[i]) {
        seq![lines[i].text] + texts_from(lines, i + 1)
    } else {
        texts_from(lines, i + 1)
    }
}

/// The texts of the matchable lines of `lines` before index `i`, in order.
pub open spec fn texts_to(lines: Seq<LineV>, i: int) -> Seq<Seq<u8>>
    decreases i,
{
    if i <= 0 || i > lines.len() {
        Seq::empty()
    } else if is_matchable(lines[i - 1]) {
        texts_to(lines, i - 1).push(lines[i - 1].text)
    } else {
        texts_to(lines, i - 1)
    }
}

/// Whether `seg` is the lines `t`, one after another, each followed by `\n`
/// or `\r\n`.
pub open spec fn lines_ended(seg: Seq<u8>, t: Seq<Seq<u8>>) -> bool
    decreases t.len(),
{
    if t.len() == 0 {
        seg.len() == 0
    } else {
        let n = t[0].len() as int;
        &&& spec_starts_with(seg, t[0])
        &&& ((n < seg.len() && seg[n] == 10u8 && lines_ended(seg.subrange(n + 1, seg.len() as int), t.drop_first()))
            || (n + 1 < seg.len() && seg[n] == 13u8 && seg[n + 1] == 10u8 && lines_ended(
            seg.subrange(n + 2, seg.len() as int),
            t.drop_first(),
        )))
    }
}

/// Whether `seg` is the lines `t`, one after another, each followed by `\n`
/// or `\r\n`, except that the text may end right after a line, the lines
/// after it then being empty.
pub open spec fn lines_held(seg: Seq<u8>, t: Seq<Seq<u8>>) -> bool
    decreases t.len(),
{
    if t.len() == 0 {
        seg.len() == 0
    } else {
        let n = t[0].len() as int;
        &&& spec_starts_with(seg, t[0])
        &&& ((n == seg.len() && lines_held(Seq::empty(), t.drop_first())) || (n < seg.len() && seg[n]
            == 10u8 && lines_held(seg.subrange(n + 1, seg.len() as int), t.drop_first())) || (n + 1 < seg.len()
            && seg[n] == 13u8 && seg[n + 1] == 10u8 && lines_held(
            seg.subrange(n + 2, seg.len() as int),
            t.drop_first(),
        )))
    }
}

proof fn lemma_fwd_holds(src: Seq<u8>, lines: Seq<LineV>, i: int, cur: int, base: u32)
    requires
        0 <= i <= lines.len(),
        0 <= cur <= src.len(),
    ensures
        spec_fwd_match(src, lines, i, cur, base) matches Ok(e) ==> cur <= e <= src.len() && lines_held(
            src.subrange(cur, e),
            texts_from(lines, i),
        ),
    decreases lines.len() - i,
{
    lemma_fwd_bounds(src, lines, i, cur, base);
    if i < lines.len() {
        if !is_matchable(lines[i]) {
            lemma_fwd_holds(src, lines, i + 1, cur, base);
        } else if spec_starts_with(src.subrange(cur, src.len() as int), lines[i].text) {
            let t = lines[i].text;
            let a = cur + t.len();
            let tf = texts_from(lines, i);
            assert(tf == seq![t] + texts_from(lines, i + 1));
            assert(tf.drop_first() =~= texts_from(lines, i + 1));
            assert(tf[0] == t);
            let nxt = if a == src.len() {
                a
            } else if src[a] == 10u8 {
                a + 1
            } else if src[a] == 13u8 && a + 1 < src.len() && src[a + 1] == 10u8 {
                a + 2
            } else {
                -1
            };
            if nxt >= 0 {
                lemma_fwd_holds(src, lines, i + 1, nxt, base);
                match spec_fwd_match(src, lines, i, cur, base) {
                    Ok(e) => {
                        let seg = src.subrange(cur, e);
                        assert(spec_fwd_match(src, lines, i + 1, nxt, base) == Ok::<int, Error>(e));
                        assert(seg.subrange(0, t.len() as int) =~= src.subrange(cur, src.len() as int).subrange(
                            0,
                            t.len() as int,
                        ));
                        assert(spec_starts_with(seg, t));
                        if a == src.len() {
                            assert(e == a);
                            assert(src.subrange(a, e) =~= Seq::<u8>::empty());
                        } else if src[a] == 10u8 {
                            assert(seg.subrange(t.len() as int + 1, seg.len() as int) =~= src.subrange(a + 1, e));
                        } else {
                            assert(seg.subrange(t.len() as int + 2, seg.len() as int) =~= src.subrange(a + 2, e));
                        }
                    },
                    Err(_) => {},
                }
            }
        }
    }
}

proof fn lemma_ended_snoc(a: Seq<u8>, t: Seq<Seq<u8>>, text: Seq<u8>, eol: Seq<u8>)
    requires
        lines_ended(a, t),
        eol == seq![10u8] || eol == seq![13u8, 10u8],
    ensures
        lines_ended(a + text + eol, t.push(text)),
    decreases t.len(),
{
    let whole = a + text + eol;
    let t2 = t.push(text);
    if t.len() == 0 {
        assert(a.len() == 0);
        assert(whole =~= text + eol);
        assert(t2 =~= seq![text]);
        assert(t2[0] == text);
        assert(whole.subrange(0, text.len() as int) =~= text);
        assert(t2.drop_first() =~= Seq::<Seq<u8>>::empty());
        let n = text.len() as int;
        assert(lines_ended(Seq::<u8>::empty(), Seq::<Seq<u8>>::empty()));
        if eol == seq![10u8] {
            assert(whole[n] == 10u8);
            assert(whole.subrange(n + 1, whole.len() as int) =~= Seq::<u8>::empty());
        } else {
            assert(whole[n] == 13u8);
            assert(whole[n + 1] == 10u8);
            assert(whole.subrange(n + 2, whole.len() as int) =~= Seq::<u8>::empty());
        }
    } else {
        let n = t[0].len() as int;
        assert(t2[0] == t[0]);
        assert(t2.drop_first() =~= t.drop_first().push(text));
        assert(whole.subrange(0, n) =~= a.subrange(0, n));
        if n < a.len() && a[n] == 10u8 && lines_ended(a.subrange(n + 1, a.len() as int), t.drop_first()) {
            assert(whole[n] == a[n]);
            lemma_ended_snoc(a.subrange(n + 1, a.len() as int), t.drop_first(), text, eol);
            assert(whole.subrange(n + 1, whole.len() as int) =~= a.subrange(n + 1, a.len() as int) + text + eol);
        } else {
            assert(whole[n] == a[n]);
            assert(whole[n + 1] == a[n + 1]);
            lemma_ended_snoc(a.subrange(n + 2, a.len() as int), t.drop_first(), text, eol);
            assert(whole.subrange(n + 2, whole.len() as int) =~= a.subrange(n + 2, a.len() as int) + text + eol);
        }
    }
}

proof fn lemma_last_byte_is(s: Seq<u8>, b: u8, i: int)
    ensures
        last_byte_before(s, b, i) matches Some(k) ==> s[k] == b,
    decreases i,
{
    if i > 0 && s[i - 1] != b {
        lemma_last_byte_is(s, b, i - 1);
    }
}

/// Whether offset `k` of `b` starts a line.
pub open spec fn line_start(b: Seq<u8>, k: int) -> bool {
    k == 0 || (0 < k <= b.len() && b[k - 1] == 10u8)
}

proof fn lemma_back_holds(src: Seq<u8>, lines: Seq<LineV>, i: int, start: int, base: u32)
    requires
        0 <= i <= lines.len(),
        0 <= start <= src.len(),
        line_start(src, start),
    ensures
        spec_back_match(src, lines, i, start, base) matches Ok(s) ==> 0 <= s <= start && line_start(src, s)
            && lines_ended(src.subrange(s, start), texts_to(lines, i)),
    decreases i,
{
    if i <= 0 {
        assert(src.subrange(start, start) =~= Seq::<u8>::empty());
    } else if !is_matchable(lines[i - 1]) {
        lemma_back_holds(src, lines, i - 1, start, base);
    } else if start > 0 {
        let pn = match last_byte_before(src, 10u8, start - 1) {
            Some(p) => p + 1,
            None => 0,
        };
        lemma_last_byte_bounds(src, 10u8, start - 1);
        lemma_last_byte_is(src, 10u8, start - 1);
        let seg = src.subrange(pn, start);
        let text = lines[i - 1].text;
        if strip_eol(seg) == text {
            lemma_back_holds(src, lines, i - 1, pn, base);
            match spec_back_match(src, lines, i - 1, pn, base) {
                Ok(s) => {
                    assert(seg.len() > 0 && seg.last() == 10u8);
                    let eol = if spec_ends_with(seg, seq![13u8, 10u8]) {
                        seq![13u8, 10u8]
                    } else {
                        seq![10u8]
                    };
                    if spec_ends_with(seg, seq![13u8, 10u8]) {
                        assert(seg =~= text + eol) by {
                            assert(seg.subrange(seg.len() - 2, seg.len() as int) =~= seq![13u8, 10u8]);
                        }
                    } else {
                        assert(spec_ends_with(seg, seq![10u8])) by {
                            assert(seg.subrange(seg.len() - 1, seg.len() as int) =~= seq![10u8]);
                        }
                        assert(seg =~= text + eol);
                    }
                    lemma_ended_snoc(src.subrange(s, pn), texts_to(lines, i - 1), text, eol);
                    assert(src.subrange(s, start) =~= src.subrange(s, pn) + text + eol);
                },
                Err(_) => {},
            }
        }
    }
}

proof fn lemma_ended_then_held(a: Seq<u8>, t1: Seq<Seq<u8>>, b: Seq<u8>, t2: Seq<Seq<u8>>)
    requires
        lines_ended(a, t1),
        lines_held(b, t2),
    ensures
        lines_held(a + b, t1 + t2),
    decreases t1.len(),
{
    let whole = a + b;
    let t = t1 + t2;
    if t1.len() == 0 {
        assert(whole =~= b);
        assert(t =~= t2);
    } else {
        let n = t1[0].len() as int;
        assert(t[0] == t1[0]);
        assert(t.drop_first() =~= t1.drop_first() + t2);
        assert(whole.subrange(0, n) =~= a.subrange(0, n));
        assert(whole[n] == a[n]);
        if n < a.len() && a[n] == 10u8 && lines_ended(a.subrange(n + 1, a.len() as int), t1.drop_first()) {
            lemma_ended_then_held(a.subrange(n + 1, a.len() as int), t1.drop_first(), b, t2);
            assert(whole.subrange(n + 1, whole.len() as int) =~= a.subrange(n + 1, a.len() as int) + b);
        } else {
            assert(whole[n + 1] == a[n + 1]);
            lemma_ended_then_held(a.subrange(n + 2, a.len() as int), t1.drop_first(), b, t2);
            assert(whole.subrange(n + 2, whole.len() as int) =~= a.subrange(n + 2, a.len() as int) + b);
        }
    }
}

proof fn lemma_texts_split(lines: Seq<LineV>, i: int)
    requires
        0 <= i <= lines.len(),
    ensures
        texts_to(lines, i) + texts_from(lines, i) == texts_from(lines, 0),
    decreases i,
{
    if i == 0 {
        assert(texts_to(lines, 0) + texts_from(lines, 0) =~= texts_from(lines, 0));
    } else {
        lemma_texts_split(lines, i - 1);
        if is_matchable(lines[i - 1]) {
            assert(texts_from(lines, i - 1) == seq![lines[i - 1].text] + texts_from(lines, i));
            assert(texts_to(lines, i) + texts_from(lines, i) =~= texts_to(lines, i - 1) + texts_from(lines, i - 1));
        } else {
            assert(texts_from(lines, i - 1) == texts_from(lines, i));
        }
    }
}

proof fn lemma_verify_holds(src: Seq<u8>, lines: Seq<LineV>, base: u32, ap: int, ai: int)
    requires
        0 <= ai <= lines.len(),
        0 <= ap <= src.len(),
        line_start(src, ap),
    ensures
        spec_verify_match(src, lines, base, ap, ai) matches Ok((s, e)) ==> 0 <= s <= e <= src.len()
            && line_start(src, s) && lines_held(src.subrange(s, e), texts_from(lines, 0)),
{
    lemma_back_holds(src, lines, ai, ap, base);
    lemma_fwd_holds(src, lines, ai, ap, base);
    match spec_verify_match(src, lines, base, ap, ai) {
        Ok((s, e)) => {
            lemma_ended_then_held(src.subrange(s, ap), texts_to(lines, ai), src.subrange(ap, e), texts_from(lines, ai));
            assert(src.subrange(s, ap) + src.subrange(ap, e) =~= src.subrange(s, e));
            lemma_texts_split(lines, ai);
        },
        Err(_) => {},
    }
}

proof fn lemma_try_anchors_holds(
    src: Seq<u8>,
    lines: Seq<LineV>,
    hunk: Hunk,
    ai: int,
    anchors: Seq<int>,
    best: BestError,
)
    requires
        0 <= ai <= lines.len(),
        forall|k: int| 0 <= k < anchors.len() ==> 0 <= #[trigger] anchors[k] <= src.len() && line_start(src, anchors[k]),
    ensures
        spec_try_anchors(src, lines, hunk, ai, anchors, best) matches Ok((s, e)) ==> 0 <= s <= e <= src.len()
            && line_start(src, s) && lines_held(src.subrange(s, e), texts_from(lines, 0)),
    decreases anchors.len(),
{
    if anchors.len() > 0 {
        assert(0 <= anchors[0] <= src.len() && line_start(src, anchors[0]));
        lemma_verify_holds(src, lines, hunk.patch_line_num, anchors[0], ai);
        let rest = anchors.drop_first();
        assert forall|k: int| 0 <= k < rest.len() implies 0 <= #[trigger] rest[k] <= src.len() && line_start(src, rest[k]) by {
            assert(rest[k] == anchors[k + 1]);
        }
        match spec_verify_match(src, lines, hunk.patch_line_num, anchors[0], ai) {
            Ok(_) => {},
            Err(e) => lemma_try_anchors_holds(src, lines, hunk, ai, rest, spec_record(best, e, hunk.patch_line_num)),
        }
    }
}

proof fn lemma_needle_anchors_start(b: Seq<u8>, needle: Seq<u8>, from: int)
    ensures
        forall|k: int|
            0 <= k < spec_needle_anchors(b, needle, from).len() ==> line_start(
                b,
                #[trigger] spec_needle_anchors(b, needle, from)[k],
            ),
    decreases b.len() + 1 - from,
{
    lemma_needle_anchors_bounds(b, needle, from);
    if needle.len() > 0 && from >= 0 {
        crate::bytes::lemma_first_occurrence_from_facts(b, needle, from);
        match first_occurrence_from(b, needle, from) {
            None => {},
            Some(k) => {
                if from <= k && k + needle.len() <= b.len() {
                    lemma_needle_anchors_start(b, needle, k + needle.len());
                }
                let rest = if from <= k && k + needle.len() <= b.len() {
                    spec_needle_anchors(b, needle, k + needle.len())
                } else {
                    Seq::empty()
                };
                if is_line_match(b, k, needle.len() as int) {
                    let all = seq![k] + rest;
                    assert(all == spec_needle_anchors(b, needle, from));
                    assert forall|j: int| 0 <= j < all.len() implies line_start(b, #[trigger] all[j]) by {
                        if j > 0 {
                            assert(all[j] == rest[j - 1]);
                        } else {
                            assert(0 <= all[0] <= b.len());
                        }
                    }
                }
            },
        }
    }
}

proof fn lemma_empty_anchors_start(b: Seq<u8>, pos: int)
    requires
        line_start(b, pos) || pos >= b.len(),
    ensures
        forall|k: int|
            0 <= k < spec_empty_anchors(b, pos).len() ==> line_start(b, #[trigger] spec_empty_anchors(b, pos)[k]),
    decreases b.len() - pos,
{
    if 0 <= pos < b.len() {
        let remaining = b.subrange(pos, b.len() as int);
        lemma_get_line_parts(remaining);
        match spec_get_line(remaining) {
            None => {},
            Some((line, rest)) => {
                let consumed = remaining.len() - rest.len();
                let unterminated = rest.len() == 0 && remaining.last() != 10u8;
                if consumed > 0 && !unterminated {
                    let end = byte_index_from(remaining, 10u8, 0);
                    if end < remaining.len() {
                        assert(consumed == end + 1);
                        assert(b[pos + consumed - 1] == remaining[end]);
                    } else {
                        assert(remaining.last() == b[pos + consumed - 1]);
                    }
                    lemma_empty_anchors_start(b, pos + consumed);
                }
                let tail = if consumed > 0 && !unterminated {
                    spec_empty_anchors(b, pos + consumed)
                } else {
                    Seq::empty()
                };
                if line.len() == 0 {
                    let all = seq![pos] + tail;
                    assert forall|j: int| 0 <= j < all.len() implies line_start(b, #[trigger] all[j]) by {
                        if j > 0 {
                            assert(all[j] == tail[j - 1]);
                        }
                    }
                }
            },
        }
    }
}

proof fn lemma_label_hint_start(b: Seq<u8>, l: Seq<u8>, from: int)
    ensures
        line_start(b, spec_label_hint_from(b, l, from)) || spec_label_hint_from(b, l, from) >= b.len(),
    decreases b.len() + 1 - from,
{
    if l.len() > 0 && from >= 0 {
        crate::bytes::lemma_first_occurrence_from_facts(b, l, from);
        match first_occurrence_from(b, l, from) {
            None => {},
            Some(pos) => {
                if pos == 0 || b[pos - 1] == 10u8 {
                    if 0 <= pos <= b.len() {
                        crate::bytes::lemma_byte_index_from_bounds(b, 10u8, pos);
                    }
                } else if from <= pos && pos + l.len() <= b.len() {
                    lemma_label_hint_start(b, l, pos + l.len());
                }
            },
        }
    }
}

proof fn lemma_no_matchable_texts(lines: Seq<LineV>, i: int)
    requires
        0 <= i,
        first_matchable_from(lines, i) is None,
    ensures
        texts_from(lines, i).len() == 0,
    decreases lines.len() - i,
{
    if i < lines.len() {
        lemma_no_matchable_texts(lines, i + 1);
    }
}

/// A match starts a line of the buffer and is the hunk's matchable lines in
/// order, each followed by `\n` or `\r\n`; only where the buffer ends may
/// the last lines go without one (the lines after it are then empty).
pub proof fn lemma_find_match_holds(b: Seq<u8>, lines: Seq<LineV>, hunk: Hunk, precomputed: bool)
    ensures
        spec_find_match(b, lines, hunk, precomputed) matches Ok((s, e)) ==> 0 <= s <= e <= b.len()
            && line_start(b, s) && lines_held(b.subrange(s, e), texts_from(lines, 0)),
{
    let base = hunk.patch_line_num;
    let no_best = BestError { error: None, max_offset: 0 };
    lemma_verify_holds(b, lines, base, 0, 0);
    let label = match hunk.label {
        Some(l) => Some(l@),
        None => None,
    };
    let hint = spec_search_hint(b, label);
    if let Some(l) = label {
        if l.len() > 0 {
            lemma_label_hint_start(b, l, 0);
        }
    }
    lemma_empty_anchors_bounds(b, hint);
    lemma_empty_anchors_start(b, hint);
    match best_from(lines, 0, None) {
        Some(idx) => {
            lemma_best_from_bounds(lines, 0, None);
            lemma_needle_anchors_bounds(b, lines[idx].text, hint);
            lemma_needle_anchors_start(b, lines[idx].text, hint);
            lemma_try_anchors_holds(b, lines, hunk, idx, spec_needle_anchors(b, lines[idx].text, hint), no_best);
        },
        None => {},
    }
    match first_nonempty_from(lines, 0) {
        Some(idx) => {
            lemma_first_nonempty_bounds(lines, 0);
            lemma_needle_anchors_bounds(b, lines[idx].text, hint);
            lemma_needle_anchors_start(b, lines[idx].text, hint);
            lemma_try_anchors_holds(b, lines, hunk, idx, spec_needle_anchors(b, lines[idx].text, hint), no_best);
        },
        None => {},
    }
    match first_matchable_from(lines, 0) {
        Some(idx) => {
            lemma_first_matchable_bounds(lines, 0);
            lemma_try_anchors_holds(b, lines, hunk, idx, spec_empty_anchors(b, hint), no_best);
        },
        None => {
            lemma_no_matchable_texts(lines, 0);
            assert(b.subrange(0, 0) =~= Seq::<u8>::empty());
        },
    }
}

/// Whether `e` says that the hunk could not be applied, at a line no
/// earlier than `base`.
pub open spec fn hunk_error(e: Error, base: u32) -> bool {
    &&& e.kind == ErrorKind::CouldNotApplyHunk
    &&& e.line is Some
    &&& e.line.unwrap() >= base
}

proof fn lemma_fwd_error(src: Seq<u8>, lines: Seq<LineV>, i: int, cur: int, base: u32)
    requires
        0 <= i,
        base + 1 + lines.len() <= u32::MAX,
    ensures
        spec_fwd_match(src, lines, i, cur, base) matches Err(e) ==> hunk_error(e, base),
    decreases lines.len() - i,
{
    if i < lines.len() {
        if !is_matchable(lines[i]) {
            lemma_fwd_error(src, lines, i + 1, cur, base);
        } else if 0 <= cur <= src.len() && spec_starts_with(src.subrange(cur, src.len() as int), lines[i].text) {
            let a = cur + lines[i].text.len();
            if a == src.len() {
                lemma_fwd_error(src, lines, i + 1, a, base);
            } else if src[a] == 10u8 {
                lemma_fwd_error(src, lines, i + 1, a + 1, base);
            } else if src[a] == 13u8 && a + 1 < src.len() && src[a + 1] == 10u8 {
                lemma_fwd_error(src, lines, i + 1, a + 2, base);
            }
        }
    }
}

proof fn lemma_back_error(src: Seq<u8>, lines: Seq<LineV>, i: int, start: int, base: u32)
    requires
        i <= lines.len(),
        base + 1 + lines.len() <= u32::MAX,
    ensures
        spec_back_match(src, lines, i, start, base) matches Err(e) ==> hunk_error(e, base),
    decreases i,
{
    if i > 0 {
        if !is_matchable(lines[i - 1]) {
            lemma_back_error(src, lines, i - 1, start, base);
        } else if start > 0 {
            let pn = match last_byte_before(src, 10u8, start - 1) {
                Some(p) => p + 1,
                None => 0,
            };
            lemma_back_error(src, lines, i - 1, pn, base);
        }
    }
}

proof fn lemma_try_anchors_error(
    src: Seq<u8>,
    lines: Seq<LineV>,
    hunk: Hunk,
    ai: int,
    anchors: Seq<int>,
    best: BestError,
)
    requires
        0 <= ai <= lines.len(),
        hunk_numbers_fit(hunk, lines.len() as int),
        best.error matches Some(e) ==> hunk_error(e, hunk.patch_line_num),
    ensures
        spec_try_anchors(src, lines, hunk, ai, anchors, best) matches Err(e) ==> hunk_error(e, hunk.patch_line_num),
    decreases anchors.len(),
{
    if anchors.len() > 0 {
        let base = hunk.patch_line_num;
        lemma_back_error(src, lines, ai, anchors[0], base);
        lemma_fwd_error(src, lines, ai, anchors[0], base);
        match spec_verify_match(src, lines, base, anchors[0], ai) {
            Ok(_) => {},
            Err(e) => lemma_try_anchors_error(src, lines, hunk, ai, anchors.drop_first(), spec_record(best, e, base)),
        }
    }
}

/// A failed search says that the hunk could not be applied, at a line no
/// earlier than the hunk's own.
pub proof fn lemma_find_match_error(b: Seq<u8>, lines: Seq<LineV>, hunk: Hunk, precomputed: bool)
    requires
        hunk_numbers_fit(hunk, lines.len() as int),
    ensures
        spec_find_match(b, lines, hunk, precomputed) matches Err(e) ==> hunk_error(e, hunk.patch_line_num),
{
    let no_best = BestError { error: None, max_offset: 0 };
    let label = match hunk.label {
        Some(l) => Some(l@),
        None => None,
    };
    let hint = spec_search_hint(b, label);
    match best_from(lines, 0, None) {
        Some(idx) => {
            lemma_best_from_bounds(lines, 0, None);
            lemma_try_anchors_error(b, lines, hunk, idx, spec_needle_anchors(b, lines[idx].text, hint), no_best);
        },
        None => {},
    }
    match first_nonempty_from(lines, 0) {
        Some(idx) => {
            lemma_first_nonempty_bounds(lines, 0);
            lemma_try_anchors_error(b, lines, hunk, idx, spec_needle_anchors(b, lines[idx].text, hint), no_best);
        },
        None => {},
    }
    match first_matchable_from(lines, 0) {
        Some(idx) => {
            lemma_first_matchable_bounds(lines, 0);
            lemma_try_anchors_error(b, lines, hunk, idx, spec_empty_anchors(b, hint), no_best);
        },
        None => {},
    }
}

/// How far past `base` a failure points, as the search for the best error
/// counts it.
pub open spec fn err_offset(e: Error, base: u32) -> u32 {
    let line = match e.line {
        Some(l) => l,
        None => 0,
    };
    if line >= base {
        (line - base) as u32
    } else {
        0
    }
}

/// The outcome of trying anchor `a` for line `ai` of the hunk.
pub open spec fn anchor_outcome(src: Seq<u8>, lines: Seq<LineV>, hunk: Hunk, ai: int, a: int) -> Result<
    (int, int),
    Error,
> {
    spec_verify_match(src, lines, hunk.patch_line_num, a, ai)
}

/// How far past the hunk's line the failure at anchor `anchors[m]` points.
pub open spec fn anchor_offset(src: Seq<u8>, lines: Seq<LineV>, hunk: Hunk, ai: int, anchors: Seq<int>, m: int) -> u32 {
    err_offset(anchor_outcome(src, lines, hunk, ai, anchors[m])->Err_0, hunk.patch_line_num)
}

/// Trying anchors gives the outcome of the first anchor that matches.
pub proof fn lemma_try_anchors_first_match(
    src: Seq<u8>,
    lines: Seq<LineV>,
    hunk: Hunk,
    ai: int,
    anchors: Seq<int>,
    best: BestError,
    k: int,
)
    requires
        0 <= k < anchors.len(),
        anchor_outcome(src, lines, hunk, ai, anchors[k]) is Ok,
        forall|m: int| 0 <= m < k ==> anchor_outcome(src, lines, hunk, ai, #[trigger] anchors[m]) is Err,
    ensures
        spec_try_anchors(src, lines, hunk, ai, anchors, best) == anchor_outcome(src, lines, hunk, ai, anchors[k]),
    decreases k,
{
    if k > 0 {
        assert(anchor_outcome(src, lines, hunk, ai, anchors[0]) is Err);
        let e = anchor_outcome(src, lines, hunk, ai, anchors[0])->Err_0;
        let rest = anchors.drop_first();
        assert forall|m: int| 0 <= m < k - 1 implies anchor_outcome(src, lines, hunk, ai, #[trigger] rest[m]) is Err by {
            assert(rest[m] == anchors[m + 1]);
        }
        assert(rest[k - 1] == anchors[k]);
        lemma_try_anchors_first_match(src, lines, hunk, ai, rest, spec_record(best, e, hunk.patch_line_num), k - 1);
    }
}

proof fn lemma_try_anchors_best_from(
    src: Seq<u8>,
    lines: Seq<LineV>,
    hunk: Hunk,
    ai: int,
    anchors: Seq<int>,
    best: BestError,
    eb: Error,
)
    requires
        best.error == Some(eb),
        best.max_offset == err_offset(eb, hunk.patch_line_num),
        forall|m: int| 0 <= m < anchors.len() ==> anchor_outcome(src, lines, hunk, ai, #[trigger] anchors[m]) is Err,
    ensures
        ({
            let base = hunk.patch_line_num;
            ||| (spec_try_anchors(src, lines, hunk, ai, anchors, best) == Err::<(int, int), Error>(eb) && forall|m: int|
                0 <= m < anchors.len() ==> #[trigger] anchor_offset(src, lines, hunk, ai, anchors, m) <= err_offset(eb, base))
            ||| exists|j: int|
                #![auto]
                0 <= j < anchors.len() && spec_try_anchors(src, lines, hunk, ai, anchors, best) == anchor_outcome(
                    src,
                    lines,
                    hunk,
                    ai,
                    anchors[j],
                ) && anchor_offset(src, lines, hunk, ai, anchors, j) > err_offset(eb, base) && (forall|m: int| 0 <= m < anchors.len() ==> #[trigger] anchor_offset(src, lines, hunk, ai, anchors, m) <= anchor_offset(src, lines, hunk, ai, anchors, j))
                    && (forall|m: int| 0 <= m < j ==> #[trigger] anchor_offset(src, lines, hunk, ai, anchors, m) < anchor_offset(src, lines, hunk, ai, anchors, j))
        }),
    decreases anchors.len(),
{
    let base = hunk.patch_line_num;
    if anchors.len() > 0 {
        let e0 = anchor_outcome(src, lines, hunk, ai, anchors[0])->Err_0;
        let b1 = spec_record(best, e0, base);
        let rest = anchors.drop_first();
        assert forall|m: int| 0 <= m < rest.len() implies anchor_outcome(src, lines, hunk, ai, #[trigger] rest[m]) is Err by {
            assert(rest[m] == anchors[m + 1]);
        }
        assert forall|m: int| 0 <= m < rest.len() implies #[trigger] anchor_offset(src, lines, hunk, ai, rest, m) == anchor_offset(src, lines, hunk, ai, anchors, m + 1) by {
            assert(rest[m] == anchors[m + 1]);
        }
        assert(spec_try_anchors(src, lines, hunk, ai, anchors, best) == spec_try_anchors(src, lines, hunk, ai, rest, b1));
        let eb1 = b1.error.unwrap();
        lemma_try_anchors_best_from(src, lines, hunk, ai, rest, b1, eb1);
        let r = spec_try_anchors(src, lines, hunk, ai, rest, b1);
        if anchor_offset(src, lines, hunk, ai, anchors, 0) > err_offset(eb, base) {
            assert(eb1 == e0);
            if r == Err::<(int, int), Error>(eb1) && forall|m: int| 0 <= m < rest.len() ==> #[trigger] anchor_offset(src, lines, hunk, ai, rest, m) <= err_offset(eb1, base) {
                assert(r == anchor_outcome(src, lines, hunk, ai, anchors[0]));
                assert forall|m: int| 0 <= m < anchors.len() implies #[trigger] anchor_offset(src, lines, hunk, ai, anchors, m) <= anchor_offset(src, lines, hunk, ai, anchors, 0) by {
                    if m > 0 {
                        assert(anchor_offset(src, lines, hunk, ai, rest, m - 1) == anchor_offset(src, lines, hunk, ai, anchors, m));
                    }
                }
            } else {
                let j = choose|j: int|
                    #![auto]
                    0 <= j < rest.len() && r == anchor_outcome(src, lines, hunk, ai, rest[j]) && anchor_offset(src, lines, hunk, ai, rest, j) > err_offset(eb1, base)
                        && (forall|m: int| 0 <= m < rest.len() ==> #[trigger] anchor_offset(src, lines, hunk, ai, rest, m) <= anchor_offset(src, lines, hunk, ai, rest, j)) && (forall|m: int| 0 <= m < j ==> #[trigger] anchor_offset(src, lines, hunk, ai, rest, m) < anchor_offset(src, lines, hunk, ai, rest, j));
                assert(rest[j] == anchors[j + 1]);
                assert(anchor_offset(src, lines, hunk, ai, rest, j) == anchor_offset(src, lines, hunk, ai, anchors, j + 1));
                assert forall|m: int| 0 <= m < anchors.len() implies #[trigger] anchor_offset(src, lines, hunk, ai, anchors, m) <= anchor_offset(src, lines, hunk, ai, anchors, j + 1) by {
                    if m > 0 {
                        assert(anchor_offset(src, lines, hunk, ai, rest, m - 1) == anchor_offset(src, lines, hunk, ai, anchors, m));
                    }
                }
                assert forall|m: int| 0 <= m < j + 1 implies #[trigger] anchor_offset(src, lines, hunk, ai, anchors, m) < anchor_offset(src, lines, hunk, ai, anchors, j + 1) by {
                    if m > 0 {
                        assert(anchor_offset(src, lines, hunk, ai, rest, m - 1) == anchor_offset(src, lines, hunk, ai, anchors, m));
                    }
                }
            }
        } else {
            assert(b1 == best);
            if r == Err::<(int, int), Error>(eb) && forall|m: int| 0 <= m < rest.len() ==> #[trigger] anchor_offset(src, lines, hunk, ai, rest, m) <= err_offset(eb, base) {
                assert forall|m: int| 0 <= m < anchors.len() implies #[trigger] anchor_offset(src, lines, hunk, ai, anchors, m) <= err_offset(eb, base) by {
                    if m > 0 {
                        assert(anchor_offset(src, lines, hunk, ai, rest, m - 1) == anchor_offset(src, lines, hunk, ai, anchors, m));
                    }
                }
            } else {
                let j = choose|j: int|
                    #![auto]
                    0 <= j < rest.len() && r == anchor_outcome(src, lines, hunk, ai, rest[j]) && anchor_offset(src, lines, hunk, ai, rest, j) > err_offset(eb, base)
                        && (forall|m: int| 0 <= m < rest.len() ==> #[trigger] anchor_offset(src, lines, hunk, ai, rest, m) <= anchor_offset(src, lines, hunk, ai, rest, j)) && (forall|m: int| 0 <= m < j ==> #[trigger] anchor_offset(src, lines, hunk, ai, rest, m) < anchor_offset(src, lines, hunk, ai, rest, j));
                assert(rest[j] == anchors[j + 1]);
                assert(anchor_offset(src, lines, hunk, ai, rest, j) == anchor_offset(src, lines, hunk, ai, anchors, j + 1));
                assert forall|m: int| 0 <= m < anchors.len() implies #[trigger] anchor_offset(src, lines, hunk, ai, anchors, m) <= anchor_offset(src, lines, hunk, ai, anchors, j + 1) by {
                    if m > 0 {
                        assert(anchor_offset(src, lines, hunk, ai, rest, m - 1) == anchor_offset(src, lines, hunk, ai, anchors, m));
                    }
                }
                assert forall|m: int| 0 <= m < j + 1 implies #[trigger] anchor_offset(src, lines, hunk, ai, anchors, m) < anchor_offset(src, lines, hunk, ai, anchors, j + 1) by {
                    if m > 0 {
                        assert(anchor_offset(src, lines, hunk, ai, rest, m - 1) == anchor_offset(src, lines, hunk, ai, anchors, m));
                    }
                }
            }
        }
    }
}

/// When no anchor matches, trying them gives the failure that points
/// furthest past the hunk's line, the earliest of those that point equally
/// far; with no anchor at all, the error at the hunk's first line.
pub proof fn lemma_try_anchors_best_error(src: Seq<u8>, lines: Seq<LineV>, hunk: Hunk, ai: int, anchors: Seq<int>)
    requires
        forall|m: int| 0 <= m < anchors.len() ==> anchor_outcome(src, lines, hunk, ai, #[trigger] anchors[m]) is Err,
    ensures
        anchors.len() == 0 ==> spec_try_anchors(src, lines, hunk, ai, anchors, BestError { error: None, max_offset: 0 })
            == Err::<(int, int), Error>(spec_into_error(BestError { error: None, max_offset: 0 }, hunk)),
        anchors.len() > 0 ==> exists|j: int|
                #![auto]
            0 <= j < anchors.len() && spec_try_anchors(src, lines, hunk, ai, anchors, BestError { error: None, max_offset: 0 })
                == anchor_outcome(src, lines, hunk, ai, anchors[j]) && (forall|m: int|
                0 <= m < anchors.len() ==> #[trigger] anchor_offset(src, lines, hunk, ai, anchors, m)
                    <= anchor_offset(src, lines, hunk, ai, anchors, j))
                && (forall|m: int|
                0 <= m < j ==> #[trigger] anchor_offset(src, lines, hunk, ai, anchors, m)
                    < anchor_offset(src, lines, hunk, ai, anchors, j)),
{
    let base = hunk.patch_line_num;
    let no_best = BestError { error: None, max_offset: 0 };
    if anchors.len() > 0 {
        let e0 = anchor_outcome(src, lines, hunk, ai, anchors[0])->Err_0;
        let b1 = spec_record(no_best, e0, base);
        assert(b1 == BestError { error: Some(e0), max_offset: err_offset(e0, base) });
        let rest = anchors.drop_first();
        assert forall|m: int| 0 <= m < rest.len() implies anchor_outcome(src, lines, hunk, ai, #[trigger] rest[m]) is Err by {
            assert(rest[m] == anchors[m + 1]);
        }
        assert forall|m: int| 0 <= m < rest.len() implies #[trigger] anchor_offset(src, lines, hunk, ai, rest, m) == anchor_offset(src, lines, hunk, ai, anchors, m + 1) by {
            assert(rest[m] == anchors[m + 1]);
        }
        lemma_try_anchors_best_from(src, lines, hunk, ai, rest, b1, e0);
        let r = spec_try_anchors(src, lines, hunk, ai, rest, b1);
        assert(spec_try_anchors(src, lines, hunk, ai, anchors, no_best) == r);
        if r == Err::<(int, int), Error>(e0) && forall|m: int| 0 <= m < rest.len() ==> #[trigger] anchor_offset(src, lines, hunk, ai, rest, m) <= err_offset(e0, base) {
            assert forall|m: int| 0 <= m < anchors.len() implies #[trigger] anchor_offset(src, lines, hunk, ai, anchors, m) <= anchor_offset(src, lines, hunk, ai, anchors, 0) by {
                if m > 0 {
                    assert(anchor_offset(src, lines, hunk, ai, rest, m - 1) == anchor_offset(src, lines, hunk, ai, anchors, m));
                }
            }
            assert(0 <= 0 < anchors.len() && r == anchor_outcome(src, lines, hunk, ai, anchors[0]));
        } else {
            let j = choose|j: int|
                    #![auto]
                0 <= j < rest.len() && r == anchor_outcome(src, lines, hunk, ai, rest[j]) && anchor_offset(src, lines, hunk, ai, rest, j) > err_offset(e0, base)
                    && (forall|m: int| 0 <= m < rest.len() ==> #[trigger] anchor_offset(src, lines, hunk, ai, rest, m) <= anchor_offset(src, lines, hunk, ai, rest, j)) && (forall|m: int| 0 <= m < j ==> #[trigger] anchor_offset(src, lines, hunk, ai, rest, m) < anchor_offset(src, lines, hunk, ai, rest, j));
            assert(rest[j] == anchors[j + 1]);
            assert(anchor_offset(src, lines, hunk, ai, rest, j) == anchor_offset(src, lines, hunk, ai, anchors, j + 1));
            assert forall|m: int| 0 <= m < anchors.len() implies #[trigger] anchor_offset(src, lines, hunk, ai, anchors, m) <= anchor_offset(src, lines, hunk, ai, anchors, j + 1) by {
                if m > 0 {
                    assert(anchor_offset(src, lines, hunk, ai, rest, m - 1) == anchor_offset(src, lines, hunk, ai, anchors, m));
                }
            }
            assert forall|m: int| 0 <= m < j + 1 implies #[trigger] anchor_offset(src, lines, hunk, ai, anchors, m) < anchor_offset(src, lines, hunk, ai, anchors, j + 1) by {
                if m > 0 {
                    assert(anchor_offset(src, lines, hunk, ai, rest, m - 1) == anchor_offset(src, lines, hunk, ai, anchors, m));
                }
            }
            assert(0 <= j + 1 < anchors.len() && r == anchor_outcome(src, lines, hunk, ai, anchors[j + 1]));
        }
    }
}

/// Trying the anchors of a hunk line in order gives: the outcome of the
/// first anchor at which the hunk matches; when none matches, the failure
/// that points furthest past the hunk's line (the earliest of equals); and
/// with no anchors, the error at the hunk's first line (the line after its
/// start line for a hunk without a header).
pub proof fn lemma_try_anchors_law(src: Seq<u8>, lines: Seq<LineV>, hunk: Hunk, ai: int, anchors: Seq<int>)
    ensures
        forall|k: int|
            0 <= k < anchors.len() && (#[trigger] anchor_outcome(src, lines, hunk, ai, anchors[k])) is Ok && (forall|m: int|
                0 <= m < k ==> anchor_outcome(src, lines, hunk, ai, #[trigger] anchors[m]) is Err) ==> spec_try_anchors(
                src,
                lines,
                hunk,
                ai,
                anchors,
                BestError { error: None, max_offset: 0 },
            ) == anchor_outcome(src, lines, hunk, ai, anchors[k]),
        (forall|m: int| 0 <= m < anchors.len() ==> anchor_outcome(src, lines, hunk, ai, #[trigger] anchors[m]) is Err)
            && anchors.len() > 0 ==> exists|j: int|
            #![auto]
            0 <= j < anchors.len() && spec_try_anchors(src, lines, hunk, ai, anchors, BestError { error: None, max_offset: 0 })
                == anchor_outcome(src, lines, hunk, ai, anchors[j]) && (forall|m: int|
                0 <= m < anchors.len() ==> #[trigger] anchor_offset(src, lines, hunk, ai, anchors, m) <= anchor_offset(
                    src,
                    lines,
                    hunk,
                    ai,
                    anchors,
                    j,
                )) && (forall|m: int|
                0 <= m < j ==> #[trigger] anchor_offset(src, lines, hunk, ai, anchors, m) < anchor_offset(
                    src,
                    lines,
                    hunk,
                    ai,
                    anchors,
                    j,
                )),
        anchors.len() == 0 ==> spec_try_anchors(src, lines, hunk, ai, anchors, BestError { error: None, max_offset: 0 })
            == Err::<(int, int), Error>(
            Error {
                line: Some((hunk.patch_line_num + if hunk.has_header { 0int } else { 1int }) as u32),
                kind: ErrorKind::CouldNotApplyHunk,
            },
        ),
{
    let no_best = BestError { error: None, max_offset: 0 };
    assert forall|k: int|
        0 <= k < anchors.len() && (#[trigger] anchor_outcome(src, lines, hunk, ai, anchors[k])) is Ok && (forall|m: int|
            0 <= m < k ==> anchor_outcome(src, lines, hunk, ai, #[trigger] anchors[m]) is Err) implies spec_try_anchors(
        src,
        lines,
        hunk,
        ai,
        anchors,
        no_best,
    ) == anchor_outcome(src, lines, hunk, ai, anchors[k]) by {
        lemma_try_anchors_first_match(src, lines, hunk, ai, anchors, no_best, k);
    }
    if forall|m: int| 0 <= m < anchors.len() ==> anchor_outcome(src, lines, hunk, ai, #[trigger] anchors[m]) is Err {
        lemma_try_anchors_best_error(src, lines, hunk, ai, anchors);
    }
}

// ---------------------------------------------------------------------------
// A block that is there is found
// ---------------------------------------------------------------------------

/// Whether a line text holds no line break and does not end with `\r`, so
/// that it reads back the same however its line is ended.
pub open spec fn plain_text(t: Seq<u8>) -> bool {
    (forall|j: int| 0 <= j < t.len() ==> t[j] != 10u8) && (t.len() == 0 || t.last() != 13u8)
}

proof fn lemma_needle_found(b: Seq<u8>, needle: Seq<u8>, from: int, a: int)
    requires
        needle.len() > 0,
        forall|j: int| 0 <= j < needle.len() ==> needle[j] != 10u8,
        0 <= from <= a,
        crate::bytes::occurs_at(b, needle, a),
        is_line_match(b, a, needle.len() as int),
    ensures
        spec_needle_anchors(b, needle, from).contains(a),
    decreases b.len() + 1 - from,
{
    crate::bytes::lemma_first_occurrence_from_facts(b, needle, from);
    let k = first_occurrence_from(b, needle, from).unwrap();
    if k == a {
        let rest = if from <= k && k + needle.len() <= b.len() {
            spec_needle_anchors(b, needle, k + needle.len())
        } else {
            Seq::empty()
        };
        assert((seq![k] + rest)[0] == a);
    } else {
        assert(k < a);
        if a < k + needle.len() {
            assert(b[a - 1] == 10u8);
            assert(b.subrange(k, k + needle.len())[a - 1 - k] == b[a - 1]);
            assert(needle[a - 1 - k] == 10u8);
        }
        lemma_needle_found(b, needle, k + needle.len(), a);
        let rest = spec_needle_anchors(b, needle, k + needle.len());
        let j = choose|j: int| 0 <= j < rest.len() && rest[j] == a;
        if is_line_match(b, k, needle.len() as int) {
            assert((seq![k] + rest)[j + 1] == a);
        }
    }
}

proof fn lemma_fwd_finds(src: Seq<u8>, lines: Seq<LineV>, i: int, cur: int, end: int, base: u32)
    requires
        0 <= i <= lines.len(),
        0 <= cur <= end <= src.len(),
        lines_ended(src.subrange(cur, end), texts_from(lines, i)),
    ensures
        spec_fwd_match(src, lines, i, cur, base) == Ok::<int, Error>(end),
    decreases lines.len() - i,
{
    if i == lines.len() {
        assert(src.subrange(cur, end).len() == 0);
    } else if !is_matchable(lines[i]) {
        lemma_fwd_finds(src, lines, i + 1, cur, end, base);
    } else {
        let seg = src.subrange(cur, end);
        let t = lines[i].text;
        let tf = texts_from(lines, i);
        assert(tf[0] == t);
        assert(tf.drop_first() =~= texts_from(lines, i + 1));
        let n = t.len() as int;
        assert(src.subrange(cur, src.len() as int).subrange(0, n) =~= seg.subrange(0, n));
        assert(spec_starts_with(src.subrange(cur, src.len() as int), t));
        let a = cur + n;
        assert(src[a] == seg[n]);
        if seg[n] == 10u8 && lines_ended(seg.subrange(n + 1, seg.len() as int), texts_from(lines, i + 1)) {
            assert(seg.subrange(n + 1, seg.len() as int) =~= src.subrange(a + 1, end));
            lemma_fwd_finds(src, lines, i + 1, a + 1, end, base);
        } else {
            assert(src[a + 1] == seg[n + 1]);
            assert(seg.subrange(n + 2, seg.len() as int) =~= src.subrange(a + 2, end));
            lemma_fwd_finds(src, lines, i + 1, a + 2, end, base);
        }
    }
}

proof fn lemma_last_nl(s: Seq<u8>, i: int, j: int)
    requires
        0 <= i <= s.len(),
        j < i,
        j >= 0 ==> s[j] == 10u8,
        forall|m: int| j < m < i && 0 <= m ==> s[m] != 10u8,
    ensures
        last_byte_before(s, 10u8, i) == (if j >= 0 { Some(j) } else { None::<int> }),
    decreases i,
{
    if i > 0 && i - 1 != j {
        lemma_last_nl(s, i - 1, j);
    }
}

/// The last line of a text of ended lines: the text is the lines before it,
/// then its text, then `\n` or `\r\n`.
proof fn lemma_ended_last(seg: Seq<u8>, t: Seq<Seq<u8>>) -> (r: (int, Seq<u8>))
    requires
        t.len() > 0,
        lines_ended(seg, t),
    ensures
        0 <= r.0 <= seg.len(),
        r.1 == seq![10u8] || r.1 == seq![13u8, 10u8],
        seg == seg.subrange(0, r.0) + t.last() + r.1,
        lines_ended(seg.subrange(0, r.0), t.drop_last()),
    decreases t.len(),
{
    let n = t[0].len() as int;
    let (skip, eol0) = if n < seg.len() && seg[n] == 10u8 && lines_ended(seg.subrange(n + 1, seg.len() as int), t.drop_first()) {
        (n + 1, seq![10u8])
    } else {
        (n + 2, seq![13u8, 10u8])
    };
    let rest = seg.subrange(skip, seg.len() as int);
    assert(lines_ended(rest, t.drop_first()));
    if t.len() == 1 {
        assert(t.drop_first().len() == 0);
        assert(rest.len() == 0);
        assert(seg =~= seg.subrange(0, 0) + t.last() + eol0) by {
            assert(seg.subrange(0, n) =~= t[0]);
        }
        assert(t.drop_last() =~= Seq::<Seq<u8>>::empty());
        assert(seg.subrange(0, 0) =~= Seq::<u8>::empty());
        (0, eol0)
    } else {
        let (m, eol) = lemma_ended_last(rest, t.drop_first());
        assert(t.drop_first().last() == t.last());
        let r0 = skip + m;
        assert(seg.subrange(0, r0) =~= seg.subrange(0, skip) + rest.subrange(0, m));
        assert(seg =~= seg.subrange(0, r0) + t.last() + eol) by {
            assert(seg =~= seg.subrange(0, skip) + rest);
        }
        let head = seg.subrange(0, r0);
        let td = t.drop_last();
        assert(td[0] == t[0]);
        assert(td.drop_first() =~= t.drop_first().drop_last());
        assert(head.subrange(0, n) =~= seg.subrange(0, n));
        assert(head[n] == seg[n]);
        if skip == n + 2 {
            assert(head[n + 1] == seg[n + 1]);
        }
        assert(head.subrange(skip, head.len() as int) =~= rest.subrange(0, m));
        (r0, eol)
    }
}

proof fn lemma_back_finds(src: Seq<u8>, lines: Seq<LineV>, i: int, k: int, start: int, base: u32)
    requires
        0 <= i <= lines.len(),
        0 <= k <= start <= src.len(),
        line_start(src, k),
        lines_ended(src.subrange(k, start), texts_to(lines, i)),
        forall|j: int| 0 <= j < lines.len() && is_matchable(lines[j]) ==> plain_text(#[trigger] lines[j].text),
    ensures
        spec_back_match(src, lines, i, start, base) == Ok::<int, Error>(k),
    decreases i,
{
    if i == 0 {
        assert(src.subrange(k, start).len() == 0);
    } else if !is_matchable(lines[i - 1]) {
        lemma_back_finds(src, lines, i - 1, k, start, base);
    } else {
        let t = lines[i - 1].text;
        let tt = texts_to(lines, i);
        assert(tt == texts_to(lines, i - 1).push(t));
        let seg = src.subrange(k, start);
        let (m, eol) = lemma_ended_last(seg, tt);
        assert(tt.last() == t && tt.drop_last() =~= texts_to(lines, i - 1));
        let pn = k + m;
        assert(start == pn + t.len() + eol.len());
        assert(start > 0);
        assert(plain_text(t));
        assert forall|q: int| pn <= q < pn + t.len() implies src[q] != 10u8 by {
            assert(src[q] == seg[q - k]);
            assert(seg[q - k] == t[q - pn]);
        }
        if eol == seq![13u8, 10u8] {
            assert(src[start - 2] == seg[start - 2 - k]);
        }
        assert(src[start - 1] == seg[start - 1 - k]);
        let j = pn - 1;
        if m > 0 {
            assert(seg.subrange(0, m) == seg.subrange(0, m));
            lemma_ended_nonempty_last(seg.subrange(0, m), texts_to(lines, i - 1));
            assert(src[pn - 1] == seg.subrange(0, m)[m - 1]);
        }
        assert forall|q: int| j < q < start - 1 && 0 <= q implies src[q] != 10u8 by {
            if q >= pn + t.len() {
                assert(eol == seq![13u8, 10u8]);
                assert(q == start - 2);
                assert(src[q] == 13u8);
            }
        }
        if pn == 0 {
            lemma_last_nl(src, start - 1, -1);
        } else {
            lemma_last_nl(src, start - 1, pn - 1);
        }
        let piece = src.subrange(pn, start);
        assert(piece =~= t + eol) by {
            assert(seg =~= seg.subrange(0, m) + t + eol);
            assert forall|q: int| 0 <= q < piece.len() implies piece[q] == (t + eol)[q] by {
                assert(piece[q] == seg[m + q]);
            }
        }
        if eol == seq![13u8, 10u8] {
            assert(spec_ends_with(piece, seq![13u8, 10u8])) by {
                assert(piece.subrange(piece.len() - 2, piece.len() as int) =~= seq![13u8, 10u8]);
            }
            assert(strip_eol(piece) =~= t);
        } else {
            if spec_ends_with(piece, seq![13u8, 10u8]) {
                assert(piece.subrange(piece.len() - 2, piece.len() as int)[0] == 13u8);
                assert(piece[piece.len() - 2] == t.last());
            }
            assert(spec_ends_with(piece, seq![10u8])) by {
                assert(piece.subrange(piece.len() - 1, piece.len() as int) =~= seq![10u8]);
            }
            assert(strip_eol(piece) =~= t);
        }
        assert(src.subrange(k, pn) =~= seg.subrange(0, m));
        lemma_back_finds(src, lines, i - 1, k, pn, base);
    }
}

proof fn lemma_ended_nonempty_last(seg: Seq<u8>, t: Seq<Seq<u8>>)
    requires
        lines_ended(seg, t),
        seg.len() > 0,
    ensures
        t.len() > 0 && seg.last() == 10u8,
{
    if t.len() == 0 {
    } else {
        let (m, eol) = lemma_ended_last(seg, t);
        assert(seg.last() == eol.last());
    }
}

proof fn lemma_ended_split(seg: Seq<u8>, t1: Seq<Seq<u8>>, t2: Seq<Seq<u8>>) -> (m: int)
    requires
        lines_ended(seg, t1 + t2),
    ensures
        0 <= m <= seg.len(),
        lines_ended(seg.subrange(0, m), t1),
        lines_ended(seg.subrange(m, seg.len() as int), t2),
    decreases t1.len(),
{
    if t1.len() == 0 {
        assert(t1 + t2 =~= t2);
        assert(seg.subrange(0, 0) =~= Seq::<u8>::empty());
        assert(seg.subrange(0, seg.len() as int) =~= seg);
        0
    } else {
        let t = t1 + t2;
        let n = t1[0].len() as int;
        assert(t[0] == t1[0]);
        assert(t.drop_first() =~= t1.drop_first() + t2);
        let skip = if n < seg.len() && seg[n] == 10u8 && lines_ended(seg.subrange(n + 1, seg.len() as int), t.drop_first()) {
            n + 1
        } else {
            n + 2
        };
        let rest = seg.subrange(skip, seg.len() as int);
        let m2 = lemma_ended_split(rest, t1.drop_first(), t2);
        let m = skip + m2;
        let head = seg.subrange(0, m);
        assert(head.subrange(0, n) =~= seg.subrange(0, n));
        assert(head[n] == seg[n]);
        if skip == n + 2 {
            assert(head[n + 1] == seg[n + 1]);
        }
        assert(head.subrange(skip, head.len() as int) =~= rest.subrange(0, m2));
        assert(seg.subrange(m, seg.len() as int) =~= rest.subrange(m2, rest.len() as int));
        m
    }
}

proof fn lemma_try_anchors_some_ok(
    src: Seq<u8>,
    lines: Seq<LineV>,
    hunk: Hunk,
    ai: int,
    anchors: Seq<int>,
    best: BestError,
    j: int,
)
    requires
        0 <= j < anchors.len(),
        anchor_outcome(src, lines, hunk, ai, anchors[j]) is Ok,
    ensures
        spec_try_anchors(src, lines, hunk, ai, anchors, best) is Ok,
    decreases j,
{
    if j > 0 {
        match anchor_outcome(src, lines, hunk, ai, anchors[0]) {
            Ok(_) => {},
            Err(e) => {
                assert(anchors.drop_first()[j - 1] == anchors[j]);
                lemma_try_anchors_some_ok(
                    src,
                    lines,
                    hunk,
                    ai,
                    anchors.drop_first(),
                    spec_record(best, e, hunk.patch_line_num),
                    j - 1,
                );
            },
        }
    }
}

proof fn lemma_best_from_some(lines: Seq<LineV>, i: int, cur: Option<int>)
    requires
        0 <= i,
        cur is Some || first_nonempty_from(lines, i) is Some,
    ensures
        best_from(lines, i, cur) is Some,
    decreases lines.len() - i,
{
    if i < lines.len() {
        if is_matchable(lines[i]) && lines[i].text.len() > 0 && (cur is None || lines[i].text.len()
            >= lines[cur.unwrap()].text.len()) {
            lemma_best_from_some(lines, i + 1, Some(i));
        } else {
            lemma_best_from_some(lines, i + 1, cur);
        }
    }
}

/// Anchoring on a matchable line with text finds a block that is there.
proof fn lemma_anchor_finds(b: Seq<u8>, lines: Seq<LineV>, hunk: Hunk, ai: int, k: int, e: int)
    requires
        0 <= ai < lines.len(),
        is_matchable(lines[ai]),
        lines[ai].text.len() > 0,
        forall|j: int| 0 <= j < lines.len() && is_matchable(lines[j]) ==> plain_text(#[trigger] lines[j].text),
        0 <= k <= e <= b.len(),
        line_start(b, k),
        lines_ended(b.subrange(k, e), texts_from(lines, 0)),
    ensures
        spec_try_anchors(
            b,
            lines,
            hunk,
            ai,
            spec_needle_anchors(b, lines[ai].text, 0),
            BestError { error: None, max_offset: 0 },
        ) is Ok,
{
    let blk = b.subrange(k, e);
    lemma_texts_split(lines, ai);
    let m = lemma_ended_split(blk, texts_to(lines, ai), texts_from(lines, ai));
    let a = k + m;
    assert(b.subrange(k, a) =~= blk.subrange(0, m));
    assert(b.subrange(a, e) =~= blk.subrange(m, blk.len() as int));
    let t = lines[ai].text;
    let tf = texts_from(lines, ai);
    assert(tf == seq![t] + texts_from(lines, ai + 1));
    assert(tf[0] == t);
    let rest = b.subrange(a, e);
    let n = t.len() as int;
    assert(spec_starts_with(rest, t));
    assert(crate::bytes::occurs_at(b, t, a)) by {
        assert(b.subrange(a, a + n) =~= rest.subrange(0, n));
    }
    assert(rest[n] == b[a + n]);
    if n + 1 < rest.len() {
        assert(rest[n + 1] == b[a + n + 1]);
    }
    if m > 0 {
        lemma_ended_nonempty_last(blk.subrange(0, m), texts_to(lines, ai));
        assert(b[a - 1] == blk.subrange(0, m)[m - 1]);
    }
    assert(is_line_match(b, a, n));
    assert(plain_text(t));
    lemma_needle_found(b, t, 0, a);
    let anchors = spec_needle_anchors(b, t, 0);
    let jj = choose|jj: int| 0 <= jj < anchors.len() && anchors[jj] == a;
    lemma_back_finds(b, lines, ai, k, a, hunk.patch_line_num);
    lemma_fwd_finds(b, lines, ai, a, e, hunk.patch_line_num);
    assert(anchor_outcome(b, lines, hunk, ai, anchors[jj]) == Ok::<(int, int), Error>((k, e)));
    lemma_try_anchors_some_ok(b, lines, hunk, ai, anchors, BestError { error: None, max_offset: 0 }, jj);
}

/// Matching finds a hunk whenever its matchable lines stand in the buffer as
/// whole lines, one after another, each ended by `\n` or `\r\n`: for a
/// hunk without a label that has a matchable line with text, and whose
/// matchable lines hold no line break and do not end with `\r`.
pub proof fn lemma_find_match_finds(b: Seq<u8>, lines: Seq<LineV>, hunk: Hunk, precomputed: bool, k: int, e: int)
    requires
        hunk.label matches Some(l) ==> forall|pos: int|
            #[trigger] crate::bytes::occurs_at(b, l@, pos) ==> !line_start(b, pos),
        first_nonempty_from(lines, 0) is Some,
        forall|j: int| 0 <= j < lines.len() && is_matchable(lines[j]) ==> plain_text(#[trigger] lines[j].text),
        0 <= k <= e <= b.len(),
        line_start(b, k),
        lines_ended(b.subrange(k, e), texts_from(lines, 0)),
    ensures
        spec_find_match(b, lines, hunk, precomputed) is Ok,
{
    let base = hunk.patch_line_num;
    if spec_verify_match(b, lines, base, 0, 0) is Err {
        match hunk.label {
            Some(l) => lemma_hint_without_label_line(b, l@),
            None => {},
        }
        lemma_first_nonempty_bounds(lines, 0);
        let fi = first_nonempty_from(lines, 0).unwrap();
        lemma_first_nonempty_matchable(lines, 0);
        if !precomputed {
            lemma_best_from_some(lines, 0, None);
            lemma_best_from_bounds(lines, 0, None);
            lemma_best_from_matchable(lines, 0, None);
            let bi = best_from(lines, 0, None).unwrap();
            lemma_anchor_finds(b, lines, hunk, bi, k, e);
        } else {
            lemma_anchor_finds(b, lines, hunk, fi, k, e);
        }
    }
}

proof fn lemma_first_nonempty_matchable(lines: Seq<LineV>, i: int)
    ensures
        first_nonempty_from(lines, i) matches Some(c) ==> is_matchable(lines[c]),
    decreases lines.len() - i,
{
    if 0 <= i < lines.len() && !(is_matchable(lines[i]) && lines[i].text.len() > 0) {
        lemma_first_nonempty_matchable(lines, i + 1);
    }
}

proof fn lemma_best_from_matchable(lines: Seq<LineV>, i: int, cur: Option<int>)
    requires
        0 <= i,
        cur matches Some(c) ==> 0 <= c < lines.len() && is_matchable(lines[c]),
    ensures
        best_from(lines, i, cur) matches Some(c) ==> is_matchable(lines[c]),
    decreases lines.len() - i,
{
    if i < lines.len() {
        if is_matchable(lines[i]) && lines[i].text.len() > 0 && (cur is None || lines[i].text.len()
            >= lines[cur.unwrap()].text.len()) {
            lemma_best_from_matchable(lines, i + 1, Some(i));
        } else {
            lemma_best_from_matchable(lines, i + 1, cur);
        }
    }
}

proof fn lemma_label_hint_none(b: Seq<u8>, l: Seq<u8>, from: int)
    requires
        forall|pos: int| #[trigger] crate::bytes::occurs_at(b, l, pos) ==> !line_start(b, pos),
    ensures
        spec_label_hint_from(b, l, from) == 0,
    decreases b.len() + 1 - from,
{
    if l.len() > 0 && from >= 0 {
        crate::bytes::lemma_first_occurrence_from_facts(b, l, from);
        match first_occurrence_from(b, l, from) {
            None => {},
            Some(pos) => {
                assert(crate::bytes::occurs_at(b, l, pos));
                assert(!line_start(b, pos));
                if from <= pos && pos + l.len() <= b.len() {
                    lemma_label_hint_none(b, l, pos + l.len());
                }
            },
        }
    }
}

/// When no line of the buffer starts with the hunk's label, the search for
/// anchors covers the whole buffer: it starts at offset 0.
pub proof fn lemma_hint_without_label_line(b: Seq<u8>, l: Seq<u8>)
    requires
        forall|pos: int| #[trigger] crate::bytes::occurs_at(b, l, pos) ==> !line_start(b, pos),
    ensures
        spec_search_hint(b, Some(l)) == 0,
{
    if l.len() > 0 {
        lemma_label_hint_none(b, l, 0);
    }
}

/// When a line of the buffer starts with the hunk's label (a label holds no
/// line break), the search for anchors starts after such a line: past a
/// line start at which the label stands, at the start of the next line or
/// at the end of the buffer.
pub proof fn lemma_hint_after_label_line(b: Seq<u8>, l: Seq<u8>)
    requires
        l.len() > 0,
        forall|j: int| 0 <= j < l.len() ==> l[j] != 10u8,
        exists|pos: int| #[trigger] crate::bytes::occurs_at(b, l, pos) && line_start(b, pos),
    ensures
        exists|pos: int|
            #[trigger] crate::bytes::occurs_at(b, l, pos) && line_start(b, pos) && pos < spec_search_hint(b, Some(l))
                && (spec_search_hint(b, Some(l)) == b.len() || (b[spec_search_hint(b, Some(l)) - 1] == 10u8 && forall|
                j: int| pos <= j < spec_search_hint(b, Some(l)) - 1 ==> b[j] != 10u8)),
{
    let q = choose|pos: int| #[trigger] crate::bytes::occurs_at(b, l, pos) && line_start(b, pos);
    lemma_label_hint_some(b, l, 0, q);
}

proof fn lemma_label_hint_some(b: Seq<u8>, l: Seq<u8>, from: int, q: int)
    requires
        l.len() > 0,
        forall|j: int| 0 <= j < l.len() ==> l[j] != 10u8,
        0 <= from <= q,
        crate::bytes::occurs_at(b, l, q),
        line_start(b, q),
    ensures
        exists|pos: int|
            #[trigger] crate::bytes::occurs_at(b, l, pos) && line_start(b, pos) && pos < spec_label_hint_from(b, l, from)
                && (spec_label_hint_from(b, l, from) == b.len() || (b[spec_label_hint_from(b, l, from) - 1] == 10u8
                && forall|j: int| pos <= j < spec_label_hint_from(b, l, from) - 1 ==> b[j] != 10u8)),
    decreases b.len() + 1 - from,
{
    crate::bytes::lemma_first_occurrence_from_facts(b, l, from);
    let pos = first_occurrence_from(b, l, from).unwrap();
    if pos == 0 || b[pos - 1] == 10u8 {
        crate::bytes::lemma_byte_index_from_bounds(b, 10u8, pos);
        assert(line_start(b, pos));
        let h = spec_label_hint_from(b, l, from);
        assert(pos < h);
    } else {
        assert(pos != q);
        if q < pos + l.len() {
            assert(b[q - 1] == 10u8);
            assert(b.subrange(pos, pos + l.len())[q - 1 - pos] == b[q - 1]);
            assert(l[q - 1 - pos] == 10u8);
        } else {
            lemma_label_hint_some(b, l, pos + l.len(), q);
        }
    }
}

} // verus!
