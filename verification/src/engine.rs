use vstd::prelude::*;

use crate::bytes::extend_from;

use crate::error::{Error, ErrorKind};
use crate::kw;
use crate::binary::{apply_delta, decode_base85, new_base85_decoder, spec_apply_delta, spec_fragment_stream, spec_decode_base85};
use crate::error::IoKind;
use crate::matcher::{first_nonempty_from, lemma_find_match_bounds, lemma_find_match_holds, lines_held, spec_find_match, texts_from, Matcher};
use crate::model::{
    data_view, fragment_in_bounds, hunk_in_bounds, hunk_numbers_fit, patch_wf, line_view, lines_view, spec_fragment_data,
    spec_hunk_lines, BinaryKind, Hunk, Line, LineKind, LineV, Patch, PatchView,
};
use crate::outside::{sha1, sha1_digest};
use crate::writer::{
    spec_ensure_newline, spec_write_block, spec_write_line, LineWriter, WriterView,
};

verus! {

// ---------------------------------------------------------------------------
// The hash of the file a binary patch was made against
// ---------------------------------------------------------------------------

/// The decimal digits of `n`.
pub open spec fn spec_decimal(n: nat) -> Seq<u8>
    decreases n,
{
    if n < 10 {
        seq![(48 + n) as u8]
    } else {
        spec_decimal(n / 10).push((48 + n % 10) as u8)
    }
}

/// The lower-case hex digit of `v`.
pub open spec fn hex_digit(v: int) -> u8 {
    if v < 10 {
        (48 + v) as u8
    } else {
        (87 + v) as u8
    }
}

/// Hex digit `i` of `digest`: the high half of a byte first.
pub open spec fn digest_nibble(digest: Seq<u8>, i: int) -> int {
    if i % 2 == 0 {
        (digest[i / 2] / 16) as int
    } else {
        (digest[i / 2] % 16) as int
    }
}

/// Whether `prefix` begins the lower-case hex form of `digest`.
pub open spec fn spec_hex_starts_with(digest: Seq<u8>, prefix: Seq<u8>) -> bool {
    &&& prefix.len() <= 2 * digest.len()
    &&& forall|i: int| 0 <= i < prefix.len() ==> prefix[i] == hex_digit(#[trigger] digest_nibble(digest, i))
}

/// What git hashes for a blob with content `content`: `blob <length>\0<content>`.
pub open spec fn blob_data(content: Seq<u8>) -> Seq<u8> {
    kw::blob_sp() + spec_decimal(content.len()) + seq![0u8] + content
}

/// Whether every byte of `s` is the digit zero.
pub open spec fn all_zero_digits(s: Seq<u8>) -> bool {
    forall|i: int| 0 <= i < s.len() ==> s[i] == 48u8
}

/// Whether `content` is what the patch's old hash names. A hash shorter than
/// seven digits is too weak to check, and an all-zero one stands for a file
/// that did not exist; neither is checked.
pub open spec fn spec_verify_source(content: Seq<u8>, old_hash: Option<&[u8]>) -> Result<(), Error> {
    match old_hash {
        None => Ok(()),
        Some(h) => if h@.len() < 7 || all_zero_digits(h@) {
            Ok(())
        } else if spec_hex_starts_with(sha1_digest(blob_data(content)), h@) {
            Ok(())
        } else {
            Err(Error { line: None, kind: ErrorKind::BinaryPatchSourceMismatch })
        },
    }
}

/// The check before a patch is applied to `content`: the old hash, unless the
/// patch replaces the file with a literal.
pub open spec fn spec_begin(content: Seq<u8>, p: PatchView) -> Result<(), Error> {
    if p.binary_fragments.len() > 0 && p.binary_fragments[0].kind == BinaryKind::Literal {
        Ok(())
    } else {
        spec_verify_source(content, p.old_hash)
    }
}

/// Whether `prefix` begins the lower-case hex form of `digest`.
pub fn hex_starts_with(digest: &[u8], prefix: &[u8]) -> (r: bool)
    ensures
        r == spec_hex_starts_with(digest@, prefix@),
{
    if prefix.len() / 2 > digest.len() || (prefix.len() / 2 == digest.len() && prefix.len() % 2 == 1) {
        return false;
    }
    let mut i: usize = 0;
    while i < prefix.len()
        invariant
            i <= prefix@.len(),
            prefix@.len() <= 2 * digest@.len(),
            forall|k: int| 0 <= k < i ==> prefix@[k] == hex_digit(#[trigger] digest_nibble(digest@, k)),
        decreases prefix@.len() - i,
    {
        let byte = digest[i / 2];
        let nibble = if i % 2 == 0 {
            byte / 16
        } else {
            byte % 16
        };
        let c = if nibble < 10 {
            48 + nibble
        } else {
            87 + nibble
        };
        assert(c == hex_digit(digest_nibble(digest@, i as int)));
        if prefix[i] != c {
            return false;
        }
        i += 1;
    }
    true
}

/// The decimal digits of `value`.
pub fn format_usize(value: usize) -> (r: Vec<u8>)
    ensures
        r@ == spec_decimal(value as nat),
    decreases value,
{
    if value < 10 {
        let d = value as u8;
        let mut r = Vec::new();
        r.push(48 + d);
        assert(r@ =~= spec_decimal(value as nat));
        r
    } else {
        let mut r = format_usize(value / 10);
        let d = (value % 10) as u8;
        r.push(48 + d);
        r
    }
}

fn is_all_zero_digits(s: &[u8]) -> (r: bool)
    ensures
        r == all_zero_digits(s@),
{
    let mut i: usize = 0;
    while i < s.len()
        invariant
            i <= s@.len(),
            forall|k: int| 0 <= k < i ==> s@[k] == 48u8,
        decreases s@.len() - i,
    {
        if s[i] != 48u8 {
            return false;
        }
        i += 1;
    }
    true
}

/// Checks `content` against the old hash of `patch`; see `spec_verify_source`.
pub fn verify_source(content: &[u8], old_hash: Option<&[u8]>) -> (r: Result<(), Error>)
    ensures
        r == spec_verify_source(content@, old_hash),
{
    let expected = match old_hash {
        None => return Ok(()),
        Some(h) => h,
    };
    if expected.len() < 7 || is_all_zero_digits(expected) {
        return Ok(());
    }
    let mut data: Vec<u8> = Vec::new();
    let tag = kw::blob_sp_bytes();
    extend_from(&mut data, &tag);
    let len_digits = format_usize(content.len());
    extend_from(&mut data, len_digits.as_slice());
    data.push(0u8);
    extend_from(&mut data, content);
    assert(data@ =~= blob_data(content@));
    let digest = sha1(data.as_slice());
    if !hex_starts_with(digest.as_slice(), expected) {
        return Err(Error::new(ErrorKind::BinaryPatchSourceMismatch));
    }
    Ok(())
}

// ---------------------------------------------------------------------------
// The applier
// ---------------------------------------------------------------------------

/// An applier by its contents: the file it reads, what it has written, and
/// how far into the file it has read.
#[verifier::ext_equal]
pub ghost struct ApplierView {
    pub source: Seq<u8>,
    pub w: WriterView,
    pub pos: int,
}

/// Whether the applier has read no further than the end of its file.
pub open spec fn applier_wf(a: ApplierView) -> bool {
    0 <= a.pos <= a.source.len()
}

/// The part of the file that the applier has yet to read.
pub open spec fn spec_at(a: ApplierView) -> Seq<u8> {
    a.source.subrange(a.pos, a.source.len() as int)
}

/// Whether a line of a hunk is written: with `only_added`, only additions;
/// else every line but a deletion.
pub open spec fn is_written(k: LineKind, only_added: bool) -> bool {
    if only_added {
        k == LineKind::Addition
    } else {
        k != LineKind::Deletion
    }
}

/// After writing the lines of `lines` that `only_added` selects.
pub open spec fn spec_write_lines(w: WriterView, lines: Seq<LineV>, only_added: bool) -> WriterView
    decreases lines.len(),
{
    if lines.len() == 0 {
        w
    } else {
        let w1 = spec_write_lines(w, lines.drop_last(), only_added);
        if is_written(lines.last().kind, only_added) {
            spec_write_line(w1, lines.last().text)
        } else {
            w1
        }
    }
}

/// After applying `lines` matched from `match_pos` to `end` of the unread
/// part: the text before the match is copied, the matched text is replaced
/// by the lines that the hunk keeps or adds.
pub open spec fn spec_apply_hunk(a: ApplierView, lines: Seq<LineV>, match_pos: int, end: int) -> ApplierView {
    let at = spec_at(a);
    let w1 = if match_pos > 0 {
        spec_write_block(a.w, at.subrange(0, match_pos))
    } else {
        a.w
    };
    ApplierView { source: a.source, w: spec_write_lines(w1, lines, false), pos: a.pos + end }
}

/// After one hunk: a hunk with an empty old side only adds its lines where
/// the applier stands; any other is matched in the unread part.
pub open spec fn spec_process_hunk(a: ApplierView, p: PatchView, h: Hunk) -> Result<ApplierView, Error> {
    let lines = spec_hunk_lines(p, h);
    if h.old_span == 0 {
        Ok(ApplierView { w: spec_write_lines(a.w, lines, true), ..a })
    } else {
        match spec_find_match(spec_at(a), lines, h, false) {
            Ok((s, e)) => Ok(spec_apply_hunk(a, lines, s, e)),
            Err(e) => Err(e),
        }
    }
}

/// After the hunks of `p` from index `i` on, in order.
pub open spec fn spec_process_hunks(a: ApplierView, p: PatchView, i: int) -> Result<ApplierView, Error>
    decreases p.hunks.len() - i,
{
    if i < 0 || i >= p.hunks.len() {
        Ok(a)
    } else {
        match spec_process_hunk(a, p, p.hunks[i]) {
            Ok(a1) => spec_process_hunks(a1, p, i + 1),
            Err(e) => Err(e),
        }
    }
}

/// After copying the unread part of the file.
pub open spec fn spec_flush(a: ApplierView) -> ApplierView {
    ApplierView { w: spec_write_block(a.w, spec_at(a)), pos: a.source.len() as int, ..a }
}

/// After the end of a patch: the rest of the file is copied, and the output
/// ends with a line break unless the new file has none or is binary.
pub open spec fn spec_end(a: ApplierView, p: PatchView) -> ApplierView {
    let a1 = spec_flush(a);
    if p.new_file_no_newline || p.binary {
        a1
    } else {
        ApplierView { w: spec_ensure_newline(a1.w), ..a1 }
    }
}

/// After appending `bytes` outside the line structure.
pub open spec fn spec_write_raw(a: ApplierView, bytes: Seq<u8>) -> ApplierView {
    ApplierView { w: WriterView { out: a.w.out + bytes, pending: a.w.pending }, ..a }
}

/// What a delta fragment with data lines `data` builds from `src`: the
/// stream that the lines yield, applied as a git delta.
pub open spec fn spec_delta_bytes(data: Seq<Seq<u8>>, src: Seq<u8>) -> Result<Seq<u8>, ErrorKind> {
    let (d, end) = spec_fragment_stream(data);
    spec_apply_delta(d, end, src)
}

/// Whether a failed delta fragment only means that it was made for another
/// file state: git writes both directions, and one of them does not apply.
pub open spec fn is_wrong_fragment(k: ErrorKind) -> bool {
    k == ErrorKind::BinaryPatchSourceMismatch || k == ErrorKind::Io(IoKind::InvalidData)
}

/// The binary fragments of `p` from index `i` on: the first literal, or the
/// first delta that applies, gives the new contents; a delta made for
/// another file state is passed over.
pub open spec fn spec_binary_from(a: ApplierView, p: PatchView, i: int) -> Result<ApplierView, Error>
    decreases p.binary_fragments.len() - i,
{
    if i < 0 || i >= p.binary_fragments.len() {
        Err(Error { line: None, kind: ErrorKind::CouldNotApplyHunk })
    } else {
        let f = p.binary_fragments[i];
        let data = spec_fragment_data(p, f);
        if f.kind == BinaryKind::Literal {
            match spec_decode_base85(data) {
                Ok(v) => Ok(spec_write_raw(a, v)),
                Err(k) => Err(Error { line: None, kind: k }),
            }
        } else {
            match spec_delta_bytes(data, a.source) {
                Ok(v) => Ok(spec_write_raw(a, v)),
                Err(k) => if is_wrong_fragment(k) {
                    spec_binary_from(a, p, i + 1)
                } else {
                    Err(Error { line: None, kind: k })
                },
            }
        }
    }
}

/// After a binary patch: the whole file counts as read, and the fragments
/// give the new contents.
pub open spec fn spec_process_binary(a: ApplierView, p: PatchView) -> Result<ApplierView, Error> {
    spec_binary_from(ApplierView { pos: a.source.len() as int, ..a }, p, 0)
}

// ---------------------------------------------------------------------------
// Hunks without headers
// ---------------------------------------------------------------------------

/// Whether the search for a hunk may anchor on its first line with text
/// only: so it is for a hunk that has such a line.
pub open spec fn has_text_line(lines: Seq<LineV>) -> bool {
    first_nonempty_from(lines, 0) is Some
}

/// The first pass over the hunks of `p` from index `i` on, in document order:
/// each hunk is looked for in `at` from `offset` on, and a match moves
/// `offset` past it (by one byte at least), so that repeated text binds to
/// successive occurrences. Matches go into `plan` as (start, end, hunk), the
/// hunks that did not match into `left`.
pub open spec fn spec_first_pass(
    at: Seq<u8>,
    p: PatchView,
    i: int,
    offset: int,
    plan: Seq<(usize, usize, usize)>,
    left: Seq<usize>,
) -> (Seq<(usize, usize, usize)>, Seq<usize>)
    decreases p.hunks.len() - i,
{
    if i < 0 || i >= p.hunks.len() {
        (plan, left)
    } else {
        let h = p.hunks[i];
        let lines = spec_hunk_lines(p, h);
        if offset > at.len() {
            spec_first_pass(at, p, i + 1, offset, plan, left.push(i as usize))
        } else {
            match spec_find_match(at.subrange(offset, at.len() as int), lines, h, has_text_line(lines)) {
                Err(_) => spec_first_pass(at, p, i + 1, offset, plan, left.push(i as usize)),
                Ok((s, e)) => spec_first_pass(
                    at,
                    p,
                    i + 1,
                    if offset + e >= offset + 1 {
                        offset + e
                    } else {
                        offset + 1
                    },
                    plan.push(((offset + s) as usize, (offset + e) as usize, i as usize)),
                    left,
                ),
            }
        }
    }
}

/// The second pass over the hunks `left[j..]` that the first pass did not
/// place: each is looked for in the whole of `at`, and must be found.
pub open spec fn spec_second_pass(
    at: Seq<u8>,
    p: PatchView,
    left: Seq<usize>,
    j: int,
    plan: Seq<(usize, usize, usize)>,
) -> Result<Seq<(usize, usize, usize)>, Error>
    decreases left.len() - j,
{
    if j < 0 || j >= left.len() {
        Ok(plan)
    } else {
        let h = p.hunks[left[j] as int];
        let lines = spec_hunk_lines(p, h);
        match spec_find_match(at, lines, h, has_text_line(lines)) {
            Err(e) => Err(e),
            Ok((s, e)) => spec_second_pass(at, p, left, j + 1, plan.push((s as usize, e as usize, left[j]))),
        }
    }
}

/// Where `x` goes in `s`, which is ordered by start: after every entry that
/// starts no later.
pub open spec fn insert_index(s: Seq<(usize, usize, usize)>, start: usize) -> int
    decreases s.len(),
{
    if s.len() == 0 {
        0
    } else if s.last().0 <= start {
        s.len() as int
    } else {
        insert_index(s.drop_last(), start)
    }
}

/// The first `n` entries of `plan`, ordered by start; entries with the same
/// start keep their order.
pub open spec fn spec_sort_prefix(plan: Seq<(usize, usize, usize)>, n: int) -> Seq<(usize, usize, usize)>
    decreases n,
{
    if n <= 0 {
        Seq::empty()
    } else {
        let s = spec_sort_prefix(plan, n - 1);
        let x = plan[n - 1];
        s.insert(insert_index(s, x.0), x)
    }
}

/// Where each hunk without a header applies in `at`, ordered by start.
pub open spec fn spec_plan(at: Seq<u8>, p: PatchView) -> Result<Seq<(usize, usize, usize)>, Error> {
    let (plan, left) = spec_first_pass(at, p, 0, 0, Seq::empty(), Seq::empty());
    match spec_second_pass(at, p, left, 0, plan) {
        Ok(all) => Ok(spec_sort_prefix(all, all.len() as int)),
        Err(e) => Err(e),
    }
}

/// Whether an entry of an ordered plan can be carried out where the sweep
/// over the file stands: it starts no earlier than `cur`, ends within the
/// `len` bytes read, and names a hunk of the patch.
pub open spec fn entry_fits(x: (usize, usize, usize), cur: int, len: int, n_hunks: int) -> bool {
    cur <= x.0 <= x.1 <= len && x.2 < n_hunks
}

/// The error for a plan entry that cannot be carried out, two hunks that
/// overlap: the hunk could not be applied, at its first line.
pub open spec fn overlap_error(p: PatchView, hi: usize) -> Error {
    Error {
        line: if hi < p.hunks.len() {
            Some(
                (p.hunks[hi as int].patch_line_num + if p.hunks[hi as int].has_header {
                    0int
                } else {
                    1int
                }) as u32,
            )
        } else {
            None
        },
        kind: ErrorKind::CouldNotApplyHunk,
    }
}

/// After applying the ordered plan, whose offsets count from `base`: an
/// entry that starts before the previous one ends is an overlap, and
/// `overlap_error` for its hunk.
pub open spec fn spec_apply_plan(a: ApplierView, p: PatchView, plan: Seq<(usize, usize, usize)>, base: int) -> Result<
    ApplierView,
    Error,
>
    decreases plan.len(),
{
    if plan.len() == 0 {
        Ok(a)
    } else {
        let x = plan[0];
        if !entry_fits(x, a.pos - base, a.source.len() - base, p.hunks.len() as int) {
            Err(overlap_error(p, x.2))
        } else {
            let a1 = spec_apply_hunk(
                a,
                spec_hunk_lines(p, p.hunks[x.2 as int]),
                base + x.0 - a.pos,
                base + x.1 - a.pos,
            );
            spec_apply_plan(a1, p, plan.drop_first(), base)
        }
    }
}

/// After the hunks without headers of `p`: all are placed first, then
/// applied in the order of where they start.
pub open spec fn spec_hunkless(a: ApplierView, p: PatchView) -> Result<ApplierView, Error> {
    match spec_plan(spec_at(a), p) {
        Ok(plan) => spec_apply_plan(a, p, plan, a.pos),
        Err(e) => Err(e),
    }
}

fn sort_plan(plan: &Vec<(usize, usize, usize)>) -> (r: Vec<(usize, usize, usize)>)
    ensures
        r@ == spec_sort_prefix(plan@, plan@.len() as int),
{
    let mut sorted: Vec<(usize, usize, usize)> = Vec::new();
    let mut n: usize = 0;
    while n < plan.len()
        invariant
            n <= plan@.len(),
            sorted@ == spec_sort_prefix(plan@, n as int),
        decreases plan@.len() - n,
    {
        let x = plan[n];
        let mut j = sorted.len();
        assert(sorted@.subrange(0, j as int) =~= sorted@);
        while j > 0 && sorted[j - 1].0 > x.0
            invariant
                j <= sorted@.len(),
                insert_index(sorted@, x.0) == insert_index(sorted@.subrange(0, j as int), x.0),
            decreases j,
        {
            assert(sorted@.subrange(0, j as int).drop_last() =~= sorted@.subrange(0, j - 1));
            j -= 1;
        }
        proof {
            if j > 0 {
                assert(sorted@.subrange(0, j as int).last() == sorted@[j - 1]);
            }
        }
        sorted.insert(j, x);
        n += 1;
    }
    sorted
}

/// Places the hunks without headers of `patch` in `at`, ordered by where
/// they start; see `spec_plan`.
pub fn plan_hunkless(at: &[u8], patch: &Patch) -> (r: Result<Vec<(usize, usize, usize)>, Error>)
    requires
        patch_wf(patch@),
        at@.len() < usize::MAX,
    ensures
        match r {
            Ok(v) => spec_plan(at@, patch@) == Ok::<Seq<(usize, usize, usize)>, Error>(v@),
            Err(e) => spec_plan(at@, patch@) == Err::<Seq<(usize, usize, usize)>, Error>(e),
        },
{
    let mut plan: Vec<(usize, usize, usize)> = Vec::new();
    let mut left: Vec<usize> = Vec::new();
    let mut offset: usize = 0;
    let mut i: usize = 0;
    while i < patch.hunks.len()
        invariant
            i <= patch.hunks@.len(),
            patch_wf(patch@),
            at@.len() < usize::MAX,
            offset <= at@.len() + 1,
            forall|k: int| 0 <= k < left@.len() ==> (#[trigger] left@[k]) < i,
            spec_first_pass(at@, patch@, 0, 0, Seq::empty(), Seq::empty()) == spec_first_pass(
                at@,
                patch@,
                i as int,
                offset as int,
                plan@,
                left@,
            ),
        decreases patch.hunks@.len() - i,
    {
        let hunk = patch.hunks[i];
        assert(hunk == patch@.hunks[i as int]);
        let lines = patch.hunk_lines(&hunk);
        let precomputed = crate::matcher::first_non_empty_match_line(lines).is_some();
        if offset > at.len() {
            left.push(i);
        } else {
            let sub = &at[offset..at.len()];
            match Matcher.find_match(sub, patch, &hunk, precomputed) {
                Err(_) => {
                    left.push(i);
                },
                Ok((match_pos, remaining)) => {
                    proof {
                        lemma_find_match_bounds(sub@, lines_view(lines@), hunk, precomputed);
                    }
                    let end = at.len() - remaining.len();
                    plan.push((offset + match_pos, end, i));
                    offset = if end >= offset + 1 {
                        end
                    } else {
                        offset + 1
                    };
                },
            }
        }
        i += 1;
    }
    let mut j: usize = 0;
    while j < left.len()
        invariant
            j <= left@.len(),
            patch_wf(patch@),
            forall|k: int| 0 <= k < left@.len() ==> (#[trigger] left@[k]) < patch@.hunks.len(),
            spec_first_pass(at@, patch@, 0, 0, Seq::empty(), Seq::empty()).1 == left@,
            spec_second_pass(at@, patch@, left@, 0, spec_first_pass(at@, patch@, 0, 0, Seq::empty(), Seq::empty()).0)
                == spec_second_pass(at@, patch@, left@, j as int, plan@),
        decreases left@.len() - j,
    {
        let hi = left[j];
        let hunk = patch.hunks[hi];
        assert(hunk == patch@.hunks[hi as int]);
        let lines = patch.hunk_lines(&hunk);
        let precomputed = crate::matcher::first_non_empty_match_line(lines).is_some();
        match Matcher.find_match(at, patch, &hunk, precomputed) {
            Err(e) => return Err(e),
            Ok((match_pos, remaining)) => {
                proof {
                    lemma_find_match_bounds(at@, lines_view(lines@), hunk, precomputed);
                }
                plan.push((match_pos, at.len() - remaining.len(), hi));
            },
        }
        j += 1;
    }
    Ok(sort_plan(&plan))
}

/// The output of applying `p` with the applier `a`: the old hash is checked
/// first; then the binary fragments give the new contents, or the hunks are
/// applied (in order when they have headers, else placed first) and the rest
/// of the file is copied.
pub open spec fn spec_process(a: ApplierView, p: PatchView) -> Result<Seq<u8>, Error> {
    match spec_begin(spec_at(a), p) {
        Err(e) => Err(e),
        Ok(_) => if p.binary_fragments.len() > 0 {
            match spec_process_binary(a, p) {
                Ok(a1) => Ok(a1.w.out),
                Err(e) => Err(e),
            }
        } else if p.hunks.len() == 0 {
            Ok(spec_end(a, p).w.out)
        } else if p.hunks[0].has_header {
            match spec_process_hunks(a, p, 0) {
                Ok(a1) => Ok(spec_end(a1, p).w.out),
                Err(e) => Err(e),
            }
        } else {
            match spec_hunkless(a, p) {
                Ok(a1) => Ok(spec_end(a1, p).w.out),
                Err(e) => Err(e),
            }
        },
    }
}

/// An applier at the start of `source` that has written nothing.
pub open spec fn fresh_applier(source: Seq<u8>) -> ApplierView {
    ApplierView { source, w: WriterView { out: Seq::empty(), pending: false }, pos: 0 }
}

/// The contents of the file after `p`: a patch that changes no content and
/// copies nothing leaves them as they are.
pub open spec fn spec_apply(source: Seq<u8>, p: PatchView) -> Result<Seq<u8>, Error> {
    if !crate::model::spec_has_content_changes(p) && p.copy_to is None {
        Ok(source)
    } else {
        spec_process(fresh_applier(source), p)
    }
}

/// Whether `patch` is well formed; see `patch_wf`.
pub fn patch_is_well_formed(patch: &Patch) -> (r: bool)
    ensures
        r == patch_wf(patch@),
{
    let n_lines = patch.lines.len();
    let mut i: usize = 0;
    while i < patch.hunks.len()
        invariant
            i <= patch.hunks@.len(),
            n_lines == patch@.lines.len(),
            forall|k: int|
                0 <= k < i ==> hunk_in_bounds(patch@, #[trigger] patch@.hunks[k]) && hunk_numbers_fit(
                    patch@.hunks[k],
                    patch@.hunks[k].lines_len as int,
                ),
        decreases patch.hunks@.len() - i,
    {
        let h = patch.hunks[i];
        assert(h == patch@.hunks[i as int]);
        if h.lines_start as usize > n_lines || h.lines_len as usize > n_lines - h.lines_start as usize {
            return false;
        }
        if h.patch_line_num as u64 + 1 + h.lines_len as u64 > 0xffff_ffffu64 {
            return false;
        }
        i += 1;
    }
    let n_data = patch.binary_lines.len();
    let mut j: usize = 0;
    while j < patch.binary_fragments.len()
        invariant
            j <= patch.binary_fragments@.len(),
            n_data == patch@.binary_lines.len(),
            forall|k: int| 0 <= k < j ==> fragment_in_bounds(patch@, #[trigger] patch@.binary_fragments[k]),
        decreases patch.binary_fragments@.len() - j,
    {
        let f = patch.binary_fragments[j];
        assert(f == patch@.binary_fragments[j as int]);
        if f.data_start as usize > n_data || f.data_len as usize > n_data - f.data_start as usize {
            return false;
        }
        j += 1;
    }
    true
}

/// Applies patches to the contents of one file and collects the result.
pub struct Applier<'s> {
    writer: LineWriter,
    source: &'s [u8],
    pos: usize,
}

impl<'s> View for Applier<'s> {
    type V = ApplierView;

    closed spec fn view(&self) -> ApplierView {
        ApplierView { source: self.source@, w: self.writer@, pos: self.pos as int }
    }
}

impl<'s> Applier<'s> {
    /// An applier at the start of `source` that has written nothing.
    pub fn new(source: &'s [u8]) -> (r: Self)
        ensures
            r@ == (ApplierView { source: source@, w: WriterView { out: Seq::empty(), pending: false }, pos: 0 }),
    {
        Applier { writer: LineWriter::new(), source, pos: 0 }
    }

    /// What has been written so far.
    pub fn output(&self) -> (r: &[u8])
        ensures
            r@ == self@.w.out,
    {
        self.writer.output()
    }

    /// The written bytes.
    pub fn into_output(self) -> (r: Vec<u8>)
        ensures
            r@ == self@.w.out,
    {
        self.writer.into_output()
    }

    fn source_at(&self) -> (r: &'s [u8])
        requires
            applier_wf(self@),
        ensures
            r@ == spec_at(self@),
    {
        &self.source[self.pos..self.source.len()]
    }

    fn write_lines(&mut self, lines: &[Line], only_added: bool)
        ensures
            final(self)@ == (ApplierView {
                w: spec_write_lines(old(self)@.w, lines_view(lines@), only_added),
                ..old(self)@
            }),
    {
        let ghost lv = lines_view(lines@);
        let mut i: usize = 0;
        while i < lines.len()
            invariant
                i <= lines@.len(),
                lv == lines_view(lines@),
                self.source == old(self).source,
                self.pos == old(self).pos,
                self.writer@ == spec_write_lines(old(self).writer@, lv.subrange(0, i as int), only_added),
            decreases lines@.len() - i,
        {
            let l = lines[i];
            proof {
                assert(lv.subrange(0, i + 1).drop_last() =~= lv.subrange(0, i as int));
                assert(lv.subrange(0, i + 1).last() == line_view(l));
            }
            let written = if only_added {
                match l.kind {
                    LineKind::Addition => true,
                    _ => false,
                }
            } else {
                match l.kind {
                    LineKind::Deletion => false,
                    _ => true,
                }
            };
            if written {
                self.writer.write_line(l.text);
            }
            i += 1;
        }
        assert(lv.subrange(0, i as int) =~= lv);
    }

    /// Copies what is left of the file.
    pub fn flush_remaining_source(&mut self)
        requires
            applier_wf(old(self)@),
        ensures
            final(self)@ == spec_flush(old(self)@),
    {
        let source = self.source_at();
        self.writer.write_block(source);
        self.pos = self.source.len();
    }

    /// Ends the output of `patch`; see `spec_end`.
    pub fn end(&mut self, patch: &Patch)
        requires
            applier_wf(old(self)@),
        ensures
            final(self)@ == spec_end(old(self)@, patch@),
            applier_wf(final(self)@),
    {
        self.flush_remaining_source();
        if patch.new_file_no_newline || patch.binary {
            return;
        }
        self.writer.ensure_newline();
    }

    /// Applies `lines`, matched in the unread part from `match_pos` to the
    /// start of `remaining`; see `spec_apply_hunk`.
    pub fn apply_hunk(&mut self, lines: &[Line], match_pos: usize, remaining: &[u8])
        requires
            applier_wf(old(self)@),
            remaining@.len() <= spec_at(old(self)@).len(),
            match_pos <= spec_at(old(self)@).len() - remaining@.len(),
        ensures
            final(self)@ == spec_apply_hunk(
                old(self)@,
                lines_view(lines@),
                match_pos as int,
                spec_at(old(self)@).len() - remaining@.len(),
            ),
            applier_wf(final(self)@),
    {
        let source = self.source_at();
        if match_pos > 0 {
            self.writer.write_block(&source[0..match_pos]);
        }
        self.pos = self.source.len() - remaining.len();
        self.write_lines(lines, false);
    }

    /// Applies `hunk` of `patch` where the applier stands; see `spec_process_hunk`.
    pub fn process_hunk(&mut self, patch: &Patch, hunk: &Hunk) -> (r: Result<(), Error>)
        requires
            applier_wf(old(self)@),
            hunk_in_bounds(patch@, *hunk),
            hunk_numbers_fit(*hunk, hunk.lines_len as int),
        ensures
            applier_wf(final(self)@),
            match spec_process_hunk(old(self)@, patch@, *hunk) {
                Ok(a) => r is Ok && final(self)@ == a,
                Err(e) => r == Err::<(), Error>(e),
            },
    {
        let lines = patch.hunk_lines(hunk);
        if hunk.old_span == 0 {
            self.write_lines(lines, true);
            return Ok(());
        }
        let source = self.source_at();
        let (match_pos, remaining) = match Matcher.find_match(source, patch, hunk, false) {
            Ok(x) => x,
            Err(e) => return Err(e),
        };
        proof {
            lemma_find_match_bounds(source@, lines_view(lines@), *hunk, false);
            let (s0, e0) = spec_find_match(source@, lines_view(lines@), *hunk, false).unwrap();
            assert(remaining@.len() == source@.len() - e0);
        }
        self.apply_hunk(lines, match_pos, remaining);
        Ok(())
    }

    /// Applies the hunks of `patch`, which have headers, in order; see
    /// `spec_process_hunks`.
    pub fn process_hunks(&mut self, patch: &Patch) -> (r: Result<(), Error>)
        requires
            applier_wf(old(self)@),
            patch_wf(patch@),
        ensures
            applier_wf(final(self)@),
            match spec_process_hunks(old(self)@, patch@, 0) {
                Ok(a) => r is Ok && final(self)@ == a,
                Err(e) => r == Err::<(), Error>(e),
            },
    {
        let mut i: usize = 0;
        while i < patch.hunks.len()
            invariant
                i <= patch.hunks@.len(),
                applier_wf(self@),
                patch_wf(patch@),
                spec_process_hunks(old(self)@, patch@, 0) == spec_process_hunks(self@, patch@, i as int),
            decreases patch.hunks@.len() - i,
        {
            let hunk = patch.hunks[i];
            assert(hunk == patch@.hunks[i as int]);
            match self.process_hunk(patch, &hunk) {
                Ok(()) => {},
                Err(e) => return Err(e),
            }
            i += 1;
        }
        Ok(())
    }

    /// Applies the hunks without headers of `patch`; see `spec_hunkless`.
    pub fn process_hunkless_patches(&mut self, patch: &Patch) -> (r: Result<(), Error>)
        requires
            applier_wf(old(self)@),
            patch_wf(patch@),
            old(self)@.source.len() < usize::MAX,
        ensures
            applier_wf(final(self)@),
            match spec_hunkless(old(self)@, patch@) {
                Ok(a) => r is Ok && final(self)@ == a,
                Err(e) => r == Err::<(), Error>(e),
            },
    {
        let at = self.source_at();
        let base = self.pos;
        let plan = match plan_hunkless(at, patch) {
            Ok(v) => v,
            Err(e) => return Err(e),
        };
        let mut k: usize = 0;
        assert(plan@.subrange(0, plan@.len() as int) =~= plan@);
        assert(spec_hunkless(old(self)@, patch@) == spec_apply_plan(old(self)@, patch@, plan@, base as int));
        while k < plan.len()
            invariant
                k <= plan@.len(),
                applier_wf(self@),
                patch_wf(patch@),
                spec_hunkless(old(self)@, patch@) == spec_apply_plan(old(self)@, patch@, plan@, base as int),
                self@.source == old(self)@.source,
                base == old(self)@.pos,
                at@ == spec_at(old(self)@),
                base <= self.pos,
                spec_apply_plan(old(self)@, patch@, plan@, base as int) == spec_apply_plan(
                    self@,
                    patch@,
                    plan@.subrange(k as int, plan@.len() as int),
                    base as int,
                ),
            decreases plan@.len() - k,
        {
            let ghost rest = plan@.subrange(k as int, plan@.len() as int);
            assert(rest[0] == plan@[k as int]);
            assert(rest.drop_first() =~= plan@.subrange(k + 1, plan@.len() as int));
            let (start, end, hi) = plan[k];
            if !(self.pos - base <= start && start <= end && end <= at.len() && hi < patch.hunks.len()) {
                let line = if hi < patch.hunks.len() {
                    let h = patch.hunks[hi];
                    assert(h == patch@.hunks[hi as int]);
                    assert(hunk_numbers_fit(h, h.lines_len as int));
                    Some(
                        if h.has_header {
                            h.patch_line_num
                        } else {
                            h.patch_line_num + 1
                        },
                    )
                } else {
                    None
                };
                let err = Error { line, kind: ErrorKind::CouldNotApplyHunk };
                assert(at@.len() == self@.source.len() - base);
                assert(!entry_fits(rest[0], self@.pos - base, self@.source.len() - base, patch@.hunks.len() as int));
                assert(err == overlap_error(patch@, hi));
                assert(spec_apply_plan(self@, patch@, rest, base as int) == Err::<ApplierView, Error>(err));
                return Err(err);
            }
            let hunk = patch.hunks[hi];
            assert(hunk == patch@.hunks[hi as int]);
            let lines = patch.hunk_lines(&hunk);
            let remaining = &at[end..at.len()];
            self.apply_hunk(lines, start - (self.pos - base), remaining);
            k += 1;
        }
        Ok(())
    }

    /// Applies `patch` and hands back the output; see `spec_process`.
    pub fn process(self, patch: &Patch) -> (r: Result<Vec<u8>, Error>)
        requires
            applier_wf(self@),
            patch_wf(patch@),
            self@.source.len() < usize::MAX,
        ensures
            match r {
                Ok(v) => spec_process(self@, patch@) == Ok::<Seq<u8>, Error>(v@),
                Err(e) => spec_process(self@, patch@) == Err::<Seq<u8>, Error>(e),
            },
    {
        let mut this = self;
        match this.begin(patch) {
            Err(e) => return Err(e),
            Ok(()) => {},
        }
        if patch.binary_fragments.len() > 0 {
            return match this.process_binary(patch) {
                Ok(()) => Ok(this.into_output()),
                Err(e) => Err(e),
            };
        }
        if patch.hunks.len() == 0 {
            this.end(patch);
            return Ok(this.into_output());
        }
        let res = if patch.hunks[0].has_header {
            this.process_hunks(patch)
        } else {
            this.process_hunkless_patches(patch)
        };
        match res {
            Err(e) => Err(e),
            Ok(()) => {
                this.end(patch);
                Ok(this.into_output())
            },
        }
    }

    /// Checks the file against the old hash of `patch`; see `spec_begin`.
    pub fn begin(&self, patch: &Patch) -> (r: Result<(), Error>)
        requires
            applier_wf(self@),
        ensures
            r == spec_begin(spec_at(self@), patch@),
    {
        if patch.binary_fragments.len() > 0 && patch.binary_fragments[0].kind == BinaryKind::Literal {
            return Ok(());
        }
        verify_source(self.source_at(), patch.old_hash)
    }

    /// Applies the binary fragments of `patch`; see `spec_process_binary`.
    pub fn process_binary(&mut self, patch: &Patch) -> (r: Result<(), Error>)
        requires
            applier_wf(old(self)@),
            patch_wf(patch@),
        ensures
            applier_wf(final(self)@),
            match spec_process_binary(old(self)@, patch@) {
                Ok(a) => r is Ok && final(self)@ == a,
                Err(e) => r == Err::<(), Error>(e),
            },
    {
        self.pos = self.source.len();
        let mut i: usize = 0;
        while i < patch.binary_fragments.len()
            invariant
                i <= patch.binary_fragments@.len(),
                applier_wf(self@),
                patch_wf(patch@),
                spec_process_binary(old(self)@, patch@) == spec_binary_from(self@, patch@, i as int),
            decreases patch.binary_fragments@.len() - i,
        {
            let fragment = patch.binary_fragments[i];
            assert(fragment == patch@.binary_fragments[i as int]);
            let data = patch.binary_fragment_data(&fragment);
            if fragment.kind == BinaryKind::Literal {
                match decode_base85(data) {
                    Ok(v) => {
                        self.writer.write_bytes(v.as_slice());
                        return Ok(());
                    },
                    Err(e) => return Err(e),
                }
            }
            let (d, end) = new_base85_decoder(data);
            let res = apply_delta(d.as_slice(), end, self.source);
            proof {
                assert(spec_delta_bytes(data_view(data@), self.source@) == match res {
                    Ok(v) => Ok::<Seq<u8>, ErrorKind>(v@),
                    Err(e) => Err::<Seq<u8>, ErrorKind>(e.kind),
                });
            }
            match res {
                Ok(v) => {
                    self.writer.write_bytes(v.as_slice());
                    return Ok(());
                },
                Err(e) => {
                    if !(e.kind == ErrorKind::BinaryPatchSourceMismatch || e.kind == ErrorKind::Io(
                        IoKind::InvalidData,
                    )) {
                        return Err(e);
                    }
                },
            }
            i += 1;
        }
        Err(Error::new(ErrorKind::CouldNotApplyHunk))
    }
}

/// Applies `patch` to `source` and returns the new contents; see
/// `spec_apply`. A patch that changes no content and copies nothing leaves
/// the contents as they are.
pub fn apply(patch: &Patch, source: &[u8]) -> (r: Result<Vec<u8>, Error>)
    requires
        patch_wf(patch@),
        source@.len() < usize::MAX,
    ensures
        match r {
            Ok(v) => spec_apply(source@, patch@) == Ok::<Seq<u8>, Error>(v@),
            Err(e) => spec_apply(source@, patch@) == Err::<Seq<u8>, Error>(e),
        },
{
    if !patch.has_content_changes() && patch.copy_to.is_none() {
        let mut out: Vec<u8> = Vec::new();
        extend_from(&mut out, source);
        return Ok(out);
    }
    Applier::new(source).process(patch)
}

/// Applies `patch` to `source` when it is well formed; nothing when it is
/// not.
pub fn try_apply(patch: &Patch, source: &[u8]) -> (r: Option<Result<Vec<u8>, Error>>)
    requires
        source@.len() < usize::MAX,
    ensures
        r is None <==> !patch_wf(patch@),
        r matches Some(res) ==> match res {
            Ok(v) => spec_apply(source@, patch@) == Ok::<Seq<u8>, Error>(v@),
            Err(e) => spec_apply(source@, patch@) == Err::<Seq<u8>, Error>(e),
        },
{
    if !patch_is_well_formed(patch) {
        return None;
    }
    Some(apply(patch, source))
}

// ---------------------------------------------------------------------------
// What a plan holds
// ---------------------------------------------------------------------------

/// Whether a plan entry (start, end, hunk) is a match of a hunk of `p` in
/// `at`: the text from start to end is the hunk's matchable lines; see
/// `lines_held`.
pub open spec fn plan_entry_matches(at: Seq<u8>, p: PatchView, x: (usize, usize, usize)) -> bool {
    &&& x.2 < p.hunks.len()
    &&& x.0 <= x.1 <= at.len()
    &&& lines_held(at.subrange(x.0 as int, x.1 as int), texts_from(spec_hunk_lines(p, p.hunks[x.2 as int]), 0))
}

/// Whether the entries of `s` come in the order of where they start.
pub open spec fn sorted_by_start(s: Seq<(usize, usize, usize)>) -> bool {
    forall|i: int, j: int| 0 <= i < j < s.len() ==> (#[trigger] s[i]).0 <= (#[trigger] s[j]).0
}

proof fn lemma_first_pass_matches(
    at: Seq<u8>,
    p: PatchView,
    i: int,
    offset: int,
    plan: Seq<(usize, usize, usize)>,
    left: Seq<usize>,
)
    requires
        0 <= i,
        0 <= offset,
        at.len() < usize::MAX,
        p.hunks.len() <= usize::MAX,
        forall|k: int| 0 <= k < plan.len() ==> plan_entry_matches(at, p, #[trigger] plan[k]),
        forall|k: int| 0 <= k < left.len() ==> (#[trigger] left[k]) < p.hunks.len(),
    ensures
        forall|k: int|
            0 <= k < spec_first_pass(at, p, i, offset, plan, left).0.len() ==> plan_entry_matches(
                at,
                p,
                #[trigger] spec_first_pass(at, p, i, offset, plan, left).0[k],
            ),
        forall|k: int|
            0 <= k < spec_first_pass(at, p, i, offset, plan, left).1.len() ==> (#[trigger] spec_first_pass(
                at,
                p,
                i,
                offset,
                plan,
                left,
            ).1[k]) < p.hunks.len(),
    decreases p.hunks.len() - i,
{
    if i >= p.hunks.len() {
        assert(spec_first_pass(at, p, i, offset, plan, left) == (plan, left));
    } else {
        let h = p.hunks[i];
        let lines = spec_hunk_lines(p, h);
        let l2 = left.push(i as usize);
        assert forall|k: int| 0 <= k < l2.len() implies (#[trigger] l2[k]) < p.hunks.len() by {
            if k < left.len() {
                assert(l2[k] == left[k]);
            }
        }
        if offset > at.len() {
            assert(spec_first_pass(at, p, i, offset, plan, left) == spec_first_pass(at, p, i + 1, offset, plan, l2));
            lemma_first_pass_matches(at, p, i + 1, offset, plan, l2);
        } else {
            let sub = at.subrange(offset, at.len() as int);
            match spec_find_match(sub, lines, h, crate::engine::has_text_line(lines)) {
                Err(_) => {
                    assert(spec_first_pass(at, p, i, offset, plan, left) == spec_first_pass(at, p, i + 1, offset, plan, l2));
                    lemma_first_pass_matches(at, p, i + 1, offset, plan, l2);
                },
                Ok((s, e)) => {
                    lemma_find_match_holds(sub, lines, h, crate::engine::has_text_line(lines));
                    let x = ((offset + s) as usize, (offset + e) as usize, i as usize);
                    assert(sub.subrange(s, e) =~= at.subrange(offset + s, offset + e));
                    assert(plan_entry_matches(at, p, x));
                    let plan2 = plan.push(x);
                    assert forall|k: int| 0 <= k < plan2.len() implies plan_entry_matches(at, p, #[trigger] plan2[k]) by {
                        if k < plan.len() {
                            assert(plan2[k] == plan[k]);
                        }
                    }
                    let off2 = if offset + e >= offset + 1 {
                        offset + e
                    } else {
                        offset + 1
                    };
                    assert(spec_first_pass(at, p, i, offset, plan, left) == spec_first_pass(at, p, i + 1, off2, plan2, left));
                    lemma_first_pass_matches(at, p, i + 1, off2, plan2, left);
                },
            }
        }
    }
}

proof fn lemma_second_pass_matches(
    at: Seq<u8>,
    p: PatchView,
    left: Seq<usize>,
    j: int,
    plan: Seq<(usize, usize, usize)>,
)
    requires
        0 <= j,
        at.len() < usize::MAX,
        forall|k: int| 0 <= k < plan.len() ==> plan_entry_matches(at, p, #[trigger] plan[k]),
        forall|k: int| 0 <= k < left.len() ==> (#[trigger] left[k]) < p.hunks.len(),
    ensures
        spec_second_pass(at, p, left, j, plan) matches Ok(all) ==> forall|k: int|
            0 <= k < all.len() ==> plan_entry_matches(at, p, #[trigger] all[k]),
    decreases left.len() - j,
{
    if j < left.len() {
        let h = p.hunks[left[j] as int];
        let lines = spec_hunk_lines(p, h);
        match spec_find_match(at, lines, h, crate::engine::has_text_line(lines)) {
            Err(_) => {},
            Ok((s, e)) => {
                lemma_find_match_holds(at, lines, h, crate::engine::has_text_line(lines));
                let x = (s as usize, e as usize, left[j]);
                assert(plan_entry_matches(at, p, x));
                let plan2 = plan.push(x);
                assert forall|k: int| 0 <= k < plan2.len() implies plan_entry_matches(at, p, #[trigger] plan2[k]) by {
                    if k < plan.len() {
                        assert(plan2[k] == plan[k]);
                    }
                }
                lemma_second_pass_matches(at, p, left, j + 1, plan2);
            },
        }
    }
}

proof fn lemma_insert_index(s: Seq<(usize, usize, usize)>, start: usize)
    requires
        sorted_by_start(s),
    ensures
        0 <= insert_index(s, start) <= s.len(),
        forall|k: int| 0 <= k < insert_index(s, start) ==> (#[trigger] s[k]).0 <= start,
        forall|k: int| insert_index(s, start) <= k < s.len() ==> (#[trigger] s[k]).0 > start,
    decreases s.len(),
{
    if s.len() > 0 && s.last().0 > start {
        let d = s.drop_last();
        assert forall|i: int, j: int| 0 <= i < j < d.len() implies (#[trigger] d[i]).0 <= (#[trigger] d[j]).0 by {
            assert(d[i] == s[i] && d[j] == s[j]);
        }
        lemma_insert_index(d, start);
        assert forall|k: int| 0 <= k < insert_index(s, start) implies (#[trigger] s[k]).0 <= start by {
            assert(s[k] == d[k]);
        }
        assert forall|k: int| insert_index(s, start) <= k < s.len() implies (#[trigger] s[k]).0 > start by {
            if k < d.len() {
                assert(s[k] == d[k]);
            }
        }
    } else if s.len() > 0 {
        assert forall|k: int| 0 <= k < s.len() implies (#[trigger] s[k]).0 <= start by {
            if k < s.len() - 1 {
                assert(s[k].0 <= s[s.len() - 1].0);
            }
        }
    }
}

proof fn lemma_sort_prefix(plan: Seq<(usize, usize, usize)>, n: int, pred: spec_fn((usize, usize, usize)) -> bool)
    requires
        0 <= n <= plan.len(),
        forall|k: int| 0 <= k < plan.len() ==> pred(#[trigger] plan[k]),
    ensures
        spec_sort_prefix(plan, n).len() == n,
        sorted_by_start(spec_sort_prefix(plan, n)),
        forall|k: int| 0 <= k < spec_sort_prefix(plan, n).len() ==> pred(#[trigger] spec_sort_prefix(plan, n)[k]),
    decreases n,
{
    if n > 0 {
        lemma_sort_prefix(plan, n - 1, pred);
        let s = spec_sort_prefix(plan, n - 1);
        let x = plan[n - 1];
        lemma_insert_index(s, x.0);
        let q = insert_index(s, x.0);
        s.insert_ensures(q, x);
        let r = s.insert(q, x);
        assert(r == spec_sort_prefix(plan, n));
        assert forall|k: int| 0 <= k < r.len() implies pred(#[trigger] r[k]) by {
            if k < q {
                assert(r[k] == s[k]);
            } else if k > q {
                assert(r[(k - 1) + 1] == s[k - 1]);
            }
        }
        assert forall|i: int, j: int| 0 <= i < j < r.len() implies (#[trigger] r[i]).0 <= (#[trigger] r[j]).0 by {
            if j < q {
                assert(r[i] == s[i] && r[j] == s[j]);
            } else if j == q {
                assert(r[i] == s[i]);
            } else if i < q {
                assert(r[i] == s[i]);
                assert(r[(j - 1) + 1] == s[j - 1]);
            } else if i == q {
                assert(r[(j - 1) + 1] == s[j - 1]);
            } else {
                assert(r[(i - 1) + 1] == s[i - 1]);
                assert(r[(j - 1) + 1] == s[j - 1]);
            }
        }
    }
}

/// Where the hunks without headers are placed: each entry of the plan is a
/// match of its hunk (the text it spans is the hunk's matchable lines), and
/// the entries come in the order of where they start.
pub proof fn lemma_plan_matches(at: Seq<u8>, p: PatchView)
    requires
        at.len() < usize::MAX,
        p.hunks.len() <= usize::MAX,
    ensures
        spec_plan(at, p) matches Ok(plan) ==> sorted_by_start(plan) && forall|k: int|
            0 <= k < plan.len() ==> plan_entry_matches(at, p, #[trigger] plan[k]),
{
    lemma_first_pass_matches(at, p, 0, 0, Seq::empty(), Seq::empty());
    let (plan, left) = spec_first_pass(at, p, 0, 0, Seq::empty(), Seq::empty());
    lemma_second_pass_matches(at, p, left, 0, plan);
    match spec_second_pass(at, p, left, 0, plan) {
        Ok(all) => {
            lemma_sort_prefix(all, all.len() as int, |x: (usize, usize, usize)| plan_entry_matches(at, p, x));
        },
        Err(_) => {},
    }
}

// ---------------------------------------------------------------------------
// Which binary fragment is used
// ---------------------------------------------------------------------------

/// What fragment `i` of `p` gives on its own: a literal's decoded bytes, or
/// a delta applied to the file.
pub open spec fn fragment_outcome(a: ApplierView, p: PatchView, i: int) -> Result<Seq<u8>, ErrorKind> {
    let f = p.binary_fragments[i];
    let data = spec_fragment_data(p, f);
    if f.kind == BinaryKind::Literal {
        spec_decode_base85(data)
    } else {
        spec_delta_bytes(data, a.source)
    }
}

/// Whether fragment `i` settles the outcome: a literal always does, a delta
/// when it applies or fails for a reason other than being made for another
/// file state.
pub open spec fn fragment_decides(a: ApplierView, p: PatchView, i: int) -> bool {
    p.binary_fragments[i].kind == BinaryKind::Literal || match fragment_outcome(a, p, i) {
        Ok(_) => true,
        Err(k) => !is_wrong_fragment(k),
    }
}

/// The fragments from `i` on give the outcome of the first fragment that
/// settles it: its bytes written out, or its error (with no line).
pub proof fn lemma_binary_first_decides(a: ApplierView, p: PatchView, i: int, k: int)
    requires
        0 <= i <= k < p.binary_fragments.len(),
        fragment_decides(a, p, k),
        forall|m: int| i <= m < k ==> !fragment_decides(a, p, m),
    ensures
        spec_binary_from(a, p, i) == match fragment_outcome(a, p, k) {
            Ok(v) => Ok::<ApplierView, Error>(spec_write_raw(a, v)),
            Err(kind) => Err(Error { line: None, kind }),
        },
    decreases k - i,
{
    if i < k {
        assert(!fragment_decides(a, p, i));
        lemma_binary_first_decides(a, p, i + 1, k);
    }
}

/// When no fragment from `i` on settles the outcome, the patch could not
/// be applied.
pub proof fn lemma_binary_none_decides(a: ApplierView, p: PatchView, i: int)
    requires
        0 <= i <= p.binary_fragments.len(),
        forall|m: int| i <= m < p.binary_fragments.len() ==> !fragment_decides(a, p, m),
    ensures
        spec_binary_from(a, p, i) == Err::<ApplierView, Error>(Error { line: None, kind: ErrorKind::CouldNotApplyHunk }),
    decreases p.binary_fragments.len() - i,
{
    if i < p.binary_fragments.len() {
        assert(!fragment_decides(a, p, i));
        lemma_binary_none_decides(a, p, i + 1);
    }
}

} // verus!
