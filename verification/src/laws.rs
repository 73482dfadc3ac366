use vstd::prelude::*;

use crate::engine::{
    spec_process_hunk, all_zero_digits, fresh_applier, spec_apply, spec_at, spec_write_lines, spec_process_hunks, ApplierView,
    spec_verify_source,
};
use crate::matcher::{
    first_nonempty_from, lemma_find_match_finds, lemma_find_match_holds, line_start, lines_ended, lines_held, plain_text,
    spec_find_match, spec_fwd_match, spec_verify_match, spec_back_match, is_matchable, texts_from,
};
use crate::model::{
    hunk_in_bounds, patch_wf, inverted_hunk, inverted_linev, inverted_patch, spec_hunk_lines, Hunk, LineKind, LineV,
    PatchView,
};
use crate::writer::{owed, spec_ensure_newline, spec_write_line, WriterView};

verus! {

// ---------------------------------------------------------------------------
// The text on either side of a hunk
// ---------------------------------------------------------------------------

/// The lines of `lines` from index `i` on whose kind is not `excluded`, each
/// with a line break after it.
pub open spec fn side_text(lines: Seq<LineV>, i: int, excluded: LineKind) -> Seq<u8>
    decreases lines.len() - i,
{
    if i < 0 || i >= lines.len() {
        Seq::empty()
    } else {
        (if lines[i].kind != excluded {
            lines[i].text + seq![10u8]
        } else {
            Seq::empty()
        }) + side_text(lines, i + 1, excluded)
    }
}

/// The text that the hunk lines `lines` expect: every line but the additions.
pub open spec fn old_text(lines: Seq<LineV>) -> Seq<u8> {
    side_text(lines, 0, LineKind::Addition)
}

/// The text that the hunk lines `lines` leave: every line but the deletions.
pub open spec fn new_text(lines: Seq<LineV>) -> Seq<u8> {
    side_text(lines, 0, LineKind::Deletion)
}

/// Whether a hash of a patch is one that is not checked against the file.
pub open spec fn hash_unchecked(h: Option<&[u8]>) -> bool {
    match h {
        None => true,
        Some(x) => x@.len() < 7 || all_zero_digits(x@),
    }
}

proof fn lemma_side_text_snoc(lines: Seq<LineV>, i: int, excluded: LineKind)
    requires
        0 <= i < lines.len(),
    ensures
        side_text(lines, i, excluded) == side_text(lines.drop_last(), i, excluded) + (if lines.last().kind
            != excluded {
            lines.last().text + seq![10u8]
        } else {
            Seq::empty()
        }),
    decreases lines.len() - i,
{
    let piece = if lines.last().kind != excluded {
        lines.last().text + seq![10u8]
    } else {
        Seq::empty()
    };
    if i == lines.len() - 1 {
        assert(side_text(lines, i + 1, excluded) =~= Seq::empty());
        assert(side_text(lines.drop_last(), i, excluded) =~= Seq::empty());
        assert(side_text(lines, i, excluded) =~= Seq::<u8>::empty() + piece);
    } else {
        lemma_side_text_snoc(lines, i + 1, excluded);
        assert(lines.drop_last()[i] == lines[i]);
        let head = if lines[i].kind != excluded {
            lines[i].text + seq![10u8]
        } else {
            Seq::empty()
        };
        assert(side_text(lines, i, excluded) =~= head + side_text(lines, i + 1, excluded));
        assert(side_text(lines.drop_last(), i, excluded) =~= head + side_text(lines.drop_last(), i + 1, excluded));
        assert(side_text(lines, i, excluded) =~= side_text(lines.drop_last(), i, excluded) + piece);
    }
}

proof fn lemma_side_text_inverted(lines: Seq<LineV>, i: int)
    requires
        0 <= i <= lines.len(),
    ensures
        side_text(lines.map_values(|l: LineV| inverted_linev(l)), i, LineKind::Addition) == side_text(
            lines,
            i,
            LineKind::Deletion,
        ),
        side_text(lines.map_values(|l: LineV| inverted_linev(l)), i, LineKind::Deletion) == side_text(
            lines,
            i,
            LineKind::Addition,
        ),
    decreases lines.len() - i,
{
    if i < lines.len() {
        lemma_side_text_inverted(lines, i + 1);
        let inv = lines.map_values(|l: LineV| inverted_linev(l));
        assert(inv[i] == inverted_linev(lines[i]));
    }
}

// ---------------------------------------------------------------------------
// Writing lines
// ---------------------------------------------------------------------------

/// Lines written from the start and ended with a line break give exactly
/// the lines that are written, each followed by a line break.
pub proof fn lemma_write_lines_text(lines: Seq<LineV>)
    ensures
        spec_ensure_newline(
            spec_write_lines(WriterView { out: Seq::empty(), pending: false }, lines, false),
        ).out == new_text(lines),
    decreases lines.len(),
{
    lemma_write_lines_owed(lines);
}

proof fn lemma_write_lines_owed(lines: Seq<LineV>)
    ensures
        ({
            let w = spec_write_lines(WriterView { out: Seq::empty(), pending: false }, lines, false);
            &&& w.out + owed(w) == new_text(lines)
            &&& w.pending == (new_text(lines).len() > 0)
        }),
    decreases lines.len(),
{
    let w0 = WriterView { out: Seq::<u8>::empty(), pending: false };
    if lines.len() == 0 {
        assert(w0.out + owed(w0) =~= Seq::<u8>::empty());
    } else {
        lemma_write_lines_owed(lines.drop_last());
        lemma_side_text_snoc(lines, 0, LineKind::Deletion);
        let w1 = spec_write_lines(w0, lines.drop_last(), false);
        let l = lines.last();
        if l.kind != LineKind::Deletion {
            let w2 = spec_write_line(w1, l.text);
            assert(w2.out + owed(w2) =~= (w1.out + owed(w1)) + (l.text + seq![10u8]));
        }
    }
}

// ---------------------------------------------------------------------------
// Matching
// ---------------------------------------------------------------------------

proof fn lemma_fwd_match_text(src: Seq<u8>, lines: Seq<LineV>, i: int, cur: int, base: u32)
    requires
        0 <= i <= lines.len(),
        0 <= cur,
        cur + side_text(lines, i, LineKind::Addition).len() <= src.len(),
        src.subrange(cur, cur + side_text(lines, i, LineKind::Addition).len()) == side_text(
            lines,
            i,
            LineKind::Addition,
        ),
    ensures
        spec_fwd_match(src, lines, i, cur, base) == Ok::<int, crate::error::Error>(
            cur + side_text(lines, i, LineKind::Addition).len(),
        ),
    decreases lines.len() - i,
{
    if i < lines.len() {
        let rest = side_text(lines, i + 1, LineKind::Addition);
        if !is_matchable(lines[i]) {
            assert(side_text(lines, i, LineKind::Addition) =~= rest);
            lemma_fwd_match_text(src, lines, i + 1, cur, base);
        } else {
            let t = lines[i].text;
            let whole = side_text(lines, i, LineKind::Addition);
            assert(whole =~= t + seq![10u8] + rest);
            let a = cur + t.len();
            assert(src[a] == whole[t.len() as int]);
            assert(src.subrange(cur, src.len() as int).subrange(0, t.len() as int) =~= t) by {
                assert forall|k: int| 0 <= k < t.len() implies src.subrange(cur, src.len() as int)[k] == t[k] by {
                    assert(src[cur + k] == whole[k]);
                }
            }
            assert(src.subrange(a + 1, a + 1 + rest.len()) =~= rest) by {
                assert forall|k: int| 0 <= k < rest.len() implies src[a + 1 + k] == rest[k] by {
                    assert(src[a + 1 + k] == whole[t.len() + 1 + k]);
                }
            }
            lemma_fwd_match_text(src, lines, i + 1, a + 1, base);
        }
    }
}

/// A buffer that begins with the text a hunk expects matches the hunk at
/// its start, up to the end of that text.
pub proof fn lemma_find_match_at_start(b: Seq<u8>, lines: Seq<LineV>, hunk: Hunk, precomputed: bool)
    requires
        crate::bytes::spec_starts_with(b, old_text(lines)),
    ensures
        spec_find_match(b, lines, hunk, precomputed) == Ok::<(int, int), crate::error::Error>(
            (0, old_text(lines).len() as int),
        ),
{
    lemma_fwd_match_text(b, lines, 0, 0, hunk.patch_line_num);
    assert(spec_back_match(b, lines, 0, 0, hunk.patch_line_num) == Ok::<int, crate::error::Error>(0));
    assert(spec_verify_match(b, lines, hunk.patch_line_num, 0, 0) == Ok::<(int, int), crate::error::Error>(
        (0, old_text(lines).len() as int),
    ));
}

// ---------------------------------------------------------------------------
// Applying
// ---------------------------------------------------------------------------

/// A patch that changes no content and copies nothing leaves a file as it is.
pub proof fn lemma_apply_without_changes(source: Seq<u8>, p: PatchView)
    requires
        p.hunks.len() == 0,
        p.binary_fragments.len() == 0,
        p.copy_to is None,
    ensures
        spec_apply(source, p) == Ok::<Seq<u8>, crate::error::Error>(source),
{
}

/// The text that the hunks of `p` from index `i` on expect, one after another.
pub open spec fn olds(p: PatchView, i: int) -> Seq<u8>
    decreases p.hunks.len() - i,
{
    if i < 0 || i >= p.hunks.len() {
        Seq::empty()
    } else {
        old_text(spec_hunk_lines(p, p.hunks[i])) + olds(p, i + 1)
    }
}

/// The text that the hunks of `p` from index `i` on leave, one after another.
pub open spec fn news(p: PatchView, i: int) -> Seq<u8>
    decreases p.hunks.len() - i,
{
    if i < 0 || i >= p.hunks.len() {
        Seq::empty()
    } else {
        new_text(spec_hunk_lines(p, p.hunks[i])) + news(p, i + 1)
    }
}

/// Whether `p` is a text patch whose hunks, the first with a header, are
/// applied in order; whose old hash is not checked; whose new file ends with
/// a line break; and whose hunks with an empty old side only add lines.
pub open spec fn text_patch(p: PatchView) -> bool {
    &&& text_shape(p)
    &&& hash_unchecked(p.old_hash)
}

/// `text_patch` but for the old hash.
pub open spec fn text_shape(p: PatchView) -> bool {
    &&& patch_wf(p)
    &&& p.hunks.len() > 0
    &&& p.hunks[0].has_header
    &&& p.binary_fragments.len() == 0
    &&& !p.binary
    &&& !p.new_file_no_newline
    &&& forall|i: int|
        0 <= i < p.hunks.len() && (#[trigger] p.hunks[i]).old_span == 0 ==> old_text(
            spec_hunk_lines(p, p.hunks[i]),
        ).len() == 0
}

proof fn lemma_write_lines_general(w: WriterView, lines: Seq<LineV>)
    ensures
        ({
            let w2 = spec_write_lines(w, lines, false);
            &&& w2.out + owed(w2) == w.out + owed(w) + new_text(lines)
            &&& w2.pending == (w.pending || new_text(lines).len() > 0)
        }),
    decreases lines.len(),
{
    if lines.len() == 0 {
        assert(w.out + owed(w) + new_text(lines) =~= w.out + owed(w));
    } else {
        lemma_write_lines_general(w, lines.drop_last());
        lemma_side_text_snoc(lines, 0, LineKind::Deletion);
        let w1 = spec_write_lines(w, lines.drop_last(), false);
        let l = lines.last();
        if l.kind != LineKind::Deletion {
            let w2 = spec_write_line(w1, l.text);
            assert(w2.out + owed(w2) =~= (w1.out + owed(w1)) + (l.text + seq![10u8]));
            assert(w.out + owed(w) + new_text(lines) =~= (w.out + owed(w) + new_text(lines.drop_last())) + (
            l.text + seq![10u8]));
        } else {
            assert(new_text(lines) =~= new_text(lines.drop_last()) + Seq::<u8>::empty());
        }
    }
}

proof fn lemma_only_additions(lines: Seq<LineV>, i: int)
    requires
        0 <= i <= lines.len(),
        side_text(lines, i, LineKind::Addition).len() == 0,
    ensures
        forall|k: int| i <= k < lines.len() ==> (#[trigger] lines[k]).kind == LineKind::Addition,
    decreases lines.len() - i,
{
    if i < lines.len() {
        lemma_only_additions(lines, i + 1);
    }
}

proof fn lemma_write_additions(w: WriterView, lines: Seq<LineV>)
    requires
        forall|k: int| 0 <= k < lines.len() ==> (#[trigger] lines[k]).kind == LineKind::Addition,
    ensures
        spec_write_lines(w, lines, true) == spec_write_lines(w, lines, false),
    decreases lines.len(),
{
    if lines.len() > 0 {
        assert forall|k: int| 0 <= k < lines.drop_last().len() implies (#[trigger] lines.drop_last()[k]).kind
            == LineKind::Addition by {
            assert(lines.drop_last()[k] == lines[k]);
        }
        lemma_write_additions(w, lines.drop_last());
    }
}

/// One hunk of a text patch applied where its old text stands.
proof fn lemma_hunk_step(a: ApplierView, p: PatchView, i: int, x: Seq<u8>, tail: Seq<u8>)
    requires
        text_shape(p),
        0 <= i < p.hunks.len(),
        0 <= a.pos <= a.source.len(),
        spec_at(a) == olds(p, i) + tail,
        a.w.out + owed(a.w) == x,
        a.w.pending == (x.len() > 0),
    ensures
        spec_process_hunk(a, p, p.hunks[i]) matches Ok(a1) && a1.source == a.source && 0 <= a1.pos <= a1.source.len()
            && spec_at(a1) == olds(p, i + 1) + tail && a1.w.out + owed(a1.w) == x + new_text(
            spec_hunk_lines(p, p.hunks[i]),
        ) && a1.w.pending == ((x + new_text(spec_hunk_lines(p, p.hunks[i]))).len() > 0),
{
    let h = p.hunks[i];
    let lines = spec_hunk_lines(p, h);
    lemma_write_lines_general(a.w, lines);
    if h.old_span == 0 {
        assert(old_text(lines).len() == 0);
        lemma_only_additions(lines, 0);
        lemma_write_additions(a.w, lines);
        assert(olds(p, i) =~= olds(p, i + 1));
    } else {
        let at = spec_at(a);
        let ot = old_text(lines);
        assert(olds(p, i) == ot + olds(p, i + 1));
        assert(crate::bytes::spec_starts_with(at, ot)) by {
            assert(at.subrange(0, ot.len() as int) =~= ot);
        }
        lemma_find_match_at_start(at, lines, h, false);
        let a1 = crate::engine::spec_apply_hunk(a, lines, 0, ot.len() as int);
        assert(spec_at(a1) =~= olds(p, i + 1) + tail) by {
            assert(spec_at(a1) =~= at.subrange(ot.len() as int, at.len() as int));
        }
    }
}

proof fn lemma_process_hunks_texts(a: ApplierView, p: PatchView, i: int, x: Seq<u8>, tail: Seq<u8>)
    requires
        text_shape(p),
        0 <= i <= p.hunks.len(),
        0 <= a.pos <= a.source.len(),
        a.source == olds(p, 0) + tail,
        spec_at(a) == olds(p, i) + tail,
        a.w.out + owed(a.w) == x,
        a.w.pending == (x.len() > 0),
    ensures
        spec_process_hunks(a, p, i) matches Ok(a2) && a2.source == a.source && a2.pos == a.source.len() - tail.len()
            && a2.w.out + owed(a2.w) == x + news(p, i) && a2.w.pending == ((x + news(p, i)).len() > 0),
    decreases p.hunks.len() - i,
{
    if i == p.hunks.len() {
        assert(x + news(p, i) =~= x);
        assert(olds(p, i) + tail =~= tail);
    } else {
        let h = p.hunks[i];
        let lines = spec_hunk_lines(p, h);
        lemma_hunk_step(a, p, i, x, tail);
        let a1 = spec_process_hunk(a, p, h).unwrap();
        assert(x + news(p, i) =~= (x + new_text(lines)) + news(p, i + 1));
        lemma_process_hunks_texts(a1, p, i + 1, x + new_text(lines), tail);
    }
}

/// Applying a text patch to a file that holds the text its hunks expect,
/// one after another, and then any text `tail` that ends with a line break,
/// gives the text they leave followed by `tail`.
pub proof fn lemma_apply_with_tail(p: PatchView, tail: Seq<u8>)
    requires
        text_shape(p),
        spec_verify_source(olds(p, 0) + tail, p.old_hash) is Ok,
        tail.len() == 0 || tail.last() == 10u8,
    ensures
        spec_apply(olds(p, 0) + tail, p) == Ok::<Seq<u8>, crate::error::Error>(news(p, 0) + tail),
{
    let src = olds(p, 0) + tail;
    let a0 = fresh_applier(src);
    assert(spec_at(a0) =~= src);
    assert(olds(p, 0) + tail =~= src);
    assert(spec_at(a0) == olds(p, 0) + tail);
    assert(a0.w.out + owed(a0.w) =~= Seq::<u8>::empty());
    lemma_process_hunks_texts(a0, p, 0, Seq::empty(), tail);
    let a2 = spec_process_hunks(a0, p, 0).unwrap();
    assert(Seq::<u8>::empty() + news(p, 0) =~= news(p, 0));
    assert(spec_at(a2) =~= tail);
    let a3 = crate::engine::spec_flush(a2);
    if tail.len() > 0 {
        assert(a3.w.out =~= a2.w.out + owed(a2.w) + tail);
        assert(a3.w.out =~= news(p, 0) + tail);
        assert(!a3.w.pending);
    } else {
        assert(news(p, 0) + tail =~= news(p, 0));
    }
}

/// Applying a text patch to a file that holds exactly the text its hunks
/// expect, one after another, gives exactly the text they leave.
pub proof fn lemma_apply_whole_file(p: PatchView)
    requires
        text_patch(p),
    ensures
        spec_apply(olds(p, 0), p) == Ok::<Seq<u8>, crate::error::Error>(news(p, 0)),
{
    assert(spec_verify_source(olds(p, 0) + Seq::<u8>::empty(), p.old_hash) == Ok::<(), crate::error::Error>(()));
    lemma_apply_with_tail(p, Seq::empty());
    assert(olds(p, 0) + Seq::<u8>::empty() =~= olds(p, 0));
    assert(news(p, 0) + Seq::<u8>::empty() =~= news(p, 0));
}

/// Reversing a well-formed patch gives a well-formed patch.
pub proof fn lemma_invert_wf(p: PatchView)
    requires
        patch_wf(p),
    ensures
        patch_wf(inverted_patch(p)),
{
    let q = inverted_patch(p);
    assert forall|i: int| 0 <= i < q.hunks.len() implies hunk_in_bounds(q, #[trigger] q.hunks[i])
        && crate::model::hunk_numbers_fit(q.hunks[i], q.hunks[i].lines_len as int) by {
        assert(q.hunks[i] == inverted_hunk(p.hunks[i]));
        assert(hunk_in_bounds(p, p.hunks[i]));
    }
    assert forall|i: int| 0 <= i < q.binary_fragments.len() implies crate::model::fragment_in_bounds(
        q,
        #[trigger] q.binary_fragments[i],
    ) by {
        assert(crate::model::fragment_in_bounds(p, p.binary_fragments[i]));
    }
}

proof fn lemma_inverted_lines(p: PatchView, i: int)
    requires
        patch_wf(p),
        0 <= i < p.hunks.len(),
    ensures
        spec_hunk_lines(inverted_patch(p), inverted_patch(p).hunks[i]) == spec_hunk_lines(p, p.hunks[i]).map_values(
            |l: LineV| inverted_linev(l),
        ),
        old_text(spec_hunk_lines(inverted_patch(p), inverted_patch(p).hunks[i])) == new_text(
            spec_hunk_lines(p, p.hunks[i]),
        ),
        new_text(spec_hunk_lines(inverted_patch(p), inverted_patch(p).hunks[i])) == old_text(
            spec_hunk_lines(p, p.hunks[i]),
        ),
{
    let q = inverted_patch(p);
    let h = p.hunks[i];
    assert(hunk_in_bounds(p, p.hunks[i]));
    assert(q.hunks[i] == inverted_hunk(h));
    let lines = spec_hunk_lines(p, h);
    assert(spec_hunk_lines(q, q.hunks[i]) =~= lines.map_values(|l: LineV| inverted_linev(l)));
    lemma_side_text_inverted(lines, 0);
}

proof fn lemma_inverted_texts(p: PatchView, i: int)
    requires
        patch_wf(p),
        0 <= i <= p.hunks.len(),
    ensures
        olds(inverted_patch(p), i) == news(p, i),
        news(inverted_patch(p), i) == olds(p, i),
    decreases p.hunks.len() - i,
{
    if i < p.hunks.len() {
        lemma_inverted_lines(p, i);
        lemma_inverted_texts(p, i + 1);
    }
}

/// Applying a text patch to a file that holds the text its hunks expect, one
/// after another, then any text `tail` that ends with a line break, and then
/// applying the reversed patch, gives the file back: the reversed patch turns
/// the text the hunks leave (followed by `tail`) into the text they expect.
/// The old hash names the file before and the new hash the file after;
/// reversing exchanges them, so each check passes.
pub proof fn lemma_apply_reverse(p: PatchView, tail: Seq<u8>)
    requires
        text_shape(p),
        spec_verify_source(olds(p, 0) + tail, p.old_hash) is Ok,
        spec_verify_source(news(p, 0) + tail, p.new_hash) is Ok,
        tail.len() == 0 || tail.last() == 10u8,
        !p.old_file_no_newline,
        forall|i: int|
            0 <= i < p.hunks.len() && (#[trigger] p.hunks[i]).new_span == 0 ==> new_text(
                spec_hunk_lines(p, p.hunks[i]),
            ).len() == 0,
    ensures
        spec_apply(olds(p, 0) + tail, p) == Ok::<Seq<u8>, crate::error::Error>(news(p, 0) + tail),
        spec_apply(news(p, 0) + tail, inverted_patch(p)) == Ok::<Seq<u8>, crate::error::Error>(olds(p, 0) + tail),
{
    let q = inverted_patch(p);
    lemma_apply_with_tail(p, tail);
    lemma_invert_wf(p);
    lemma_inverted_texts(p, 0);
    assert forall|i: int| 0 <= i < q.hunks.len() && (#[trigger] q.hunks[i]).old_span == 0 implies old_text(
        spec_hunk_lines(q, q.hunks[i]),
    ).len() == 0 by {
        lemma_inverted_lines(p, i);
        assert(q.hunks[i] == inverted_hunk(p.hunks[i]));
    }
    assert(q.hunks[0] == inverted_hunk(p.hunks[0]));
    lemma_apply_with_tail(q, tail);
}

// ---------------------------------------------------------------------------
// Applying where each hunk stands once, among other lines
// ---------------------------------------------------------------------------

/// Whether `s` is whole lines: empty or ended by a line break.
pub open spec fn whole_lines(s: Seq<u8>) -> bool {
    s.len() == 0 || s.last() == 10u8
}

/// A file laid out from the hunks of `p` from index `i` on: before each
/// hunk its gap of unchanged lines, then the text the hunk expects; `tail`
/// after the last.
pub open spec fn layout(p: PatchView, gaps: Seq<Seq<u8>>, tail: Seq<u8>, i: int) -> Seq<u8>
    decreases p.hunks.len() - i,
{
    if i < 0 || i >= p.hunks.len() {
        tail
    } else {
        gaps[i] + old_text(spec_hunk_lines(p, p.hunks[i])) + layout(p, gaps, tail, i + 1)
    }
}

/// The gaps of `layout`, each followed by the text that its hunk leaves.
pub open spec fn layout_new(p: PatchView, gaps: Seq<Seq<u8>>, i: int) -> Seq<u8>
    decreases p.hunks.len() - i,
{
    if i < 0 || i >= p.hunks.len() {
        Seq::empty()
    } else {
        gaps[i] + new_text(spec_hunk_lines(p, p.hunks[i])) + layout_new(p, gaps, i + 1)
    }
}

/// Whether, in `u`, the only place where the lines `t` stand as whole lines
/// is from `s0` to `e0`.
pub open spec fn block_unique(u: Seq<u8>, t: Seq<Seq<u8>>, s0: int, e0: int) -> bool {
    forall|s: int, e: int|
        0 <= s <= e <= u.len() && line_start(u, s) && #[trigger] lines_held(u.subrange(s, e), t) ==> s == s0 && e == e0
}

/// Whether the file `layout(p, gaps, tail, 0)` is one the hunks of `p` find
/// their places in: the gaps and the tail are whole lines; no hunk has a
/// label; no line holds a line break or ends with `\r`; a hunk with an
/// empty old side has no gap (it adds its lines where the previous one
/// ended); and every other hunk has a line with text on its old side, and
/// its old lines stand in what is left of the file only where the layout
/// puts them.
pub open spec fn laid_out(p: PatchView, gaps: Seq<Seq<u8>>, tail: Seq<u8>) -> bool {
    &&& gaps.len() == p.hunks.len()
    &&& whole_lines(tail)
    &&& forall|i: int| 0 <= i < gaps.len() ==> whole_lines(#[trigger] gaps[i])
    &&& forall|i: int| 0 <= i < p.hunks.len() ==> (#[trigger] p.hunks[i]).label is None
    &&& forall|i: int, j: int|
        0 <= i < p.hunks.len() && 0 <= j < spec_hunk_lines(p, p.hunks[i]).len() ==> plain_text(
            #[trigger] spec_hunk_lines(p, p.hunks[i])[j].text,
        )
    &&& forall|i: int| 0 <= i < p.hunks.len() && (#[trigger] p.hunks[i]).old_span == 0 ==> gaps[i].len() == 0
    &&& forall|i: int|
        0 <= i < p.hunks.len() && (#[trigger] p.hunks[i]).old_span > 0 ==> first_nonempty_from(
            spec_hunk_lines(p, p.hunks[i]),
            0,
        ) is Some && block_unique(
            layout(p, gaps, tail, i),
            texts_from(spec_hunk_lines(p, p.hunks[i]), 0),
            gaps[i].len() as int,
            (gaps[i].len() + old_text(spec_hunk_lines(p, p.hunks[i])).len()) as int,
        )
}

proof fn lemma_side_ended(lines: Seq<LineV>, i: int)
    requires
        0 <= i <= lines.len(),
    ensures
        lines_ended(side_text(lines, i, LineKind::Addition), texts_from(lines, i)),
    decreases lines.len() - i,
{
    if i < lines.len() {
        lemma_side_ended(lines, i + 1);
        let r = side_text(lines, i + 1, LineKind::Addition);
        if is_matchable(lines[i]) {
            let t = lines[i].text;
            let whole = t + seq![10u8] + r;
            assert(side_text(lines, i, LineKind::Addition) == whole);
            let tf = texts_from(lines, i);
            assert(tf[0] == t);
            assert(tf.drop_first() =~= texts_from(lines, i + 1));
            assert(whole.subrange(0, t.len() as int) =~= t);
            assert(whole[t.len() as int] == 10u8);
            assert(whole.subrange(t.len() as int + 1, whole.len() as int) =~= r);
        } else {
            assert(side_text(lines, i, LineKind::Addition) =~= r);
        }
    } else {
        assert(side_text(lines, i, LineKind::Addition) =~= Seq::<u8>::empty());
    }
}

proof fn lemma_layout_step(a: ApplierView, p: PatchView, gaps: Seq<Seq<u8>>, tail: Seq<u8>, i: int, x: Seq<u8>)
    requires
        text_shape(p),
        laid_out(p, gaps, tail),
        0 <= i < p.hunks.len(),
        0 <= a.pos <= a.source.len(),
        spec_at(a) == layout(p, gaps, tail, i),
        a.w.out + owed(a.w) == x,
    ensures
        spec_process_hunk(a, p, p.hunks[i]) matches Ok(a1) && a1.source == a.source && 0 <= a1.pos <= a1.source.len()
            && spec_at(a1) == layout(p, gaps, tail, i + 1) && a1.w.out + owed(a1.w) == x + gaps[i] + new_text(
            spec_hunk_lines(p, p.hunks[i]),
        ),
{
    let h = p.hunks[i];
    let lines = spec_hunk_lines(p, h);
    let g = gaps[i];
    let ot = old_text(lines);
    let rest = layout(p, gaps, tail, i + 1);
    let u = spec_at(a);
    assert(u == g + ot + rest);
    if h.old_span == 0 {
        assert(ot.len() == 0);
        assert(g.len() == 0);
        lemma_write_lines_general(a.w, lines);
        lemma_only_additions(lines, 0);
        lemma_write_additions(a.w, lines);
        assert(u =~= rest);
        assert(x + g =~= x);
    } else {
        let k = g.len() as int;
        let e = k + ot.len();
        assert(u.subrange(k, e) =~= ot);
        lemma_side_ended(lines, 0);
        assert(whole_lines(g));
        if k > 0 {
            assert(u[k - 1] == g.last());
        }
        assert(line_start(u, k));
        assert forall|j: int| 0 <= j < lines.len() && is_matchable(lines[j]) implies plain_text(#[trigger] lines[j].text) by {
            assert(plain_text(spec_hunk_lines(p, p.hunks[i])[j].text));
        }
        lemma_find_match_finds(u, lines, h, false, k, e);
        lemma_find_match_holds(u, lines, h, false);
        let (s0, e0) = spec_find_match(u, lines, h, false).unwrap();
        assert(block_unique(u, texts_from(lines, 0), k, e));
        assert(lines_held(u.subrange(s0, e0), texts_from(lines, 0)));
        assert(s0 == k && e0 == e);
        let w1 = if k > 0 {
            crate::writer::spec_write_block(a.w, u.subrange(0, k))
        } else {
            a.w
        };
        assert(u.subrange(0, k) =~= g);
        if k > 0 {
            assert(w1.out + owed(w1) =~= x + g);
        } else {
            assert(x + g =~= x);
        }
        lemma_write_lines_general(w1, lines);
        let a1 = crate::engine::spec_apply_hunk(a, lines, k, e);
        assert(spec_at(a1) =~= u.subrange(e, u.len() as int));
        assert(u.subrange(e, u.len() as int) =~= rest);
    }
}

proof fn lemma_layout_hunks(a: ApplierView, p: PatchView, gaps: Seq<Seq<u8>>, tail: Seq<u8>, i: int, x: Seq<u8>)
    requires
        text_shape(p),
        laid_out(p, gaps, tail),
        0 <= i <= p.hunks.len(),
        0 <= a.pos <= a.source.len(),
        spec_at(a) == layout(p, gaps, tail, i),
        a.w.out + owed(a.w) == x,
    ensures
        spec_process_hunks(a, p, i) matches Ok(a2) && a2.source == a.source && 0 <= a2.pos <= a2.source.len()
            && spec_at(a2) == tail && a2.w.out + owed(a2.w) == x + layout_new(p, gaps, i),
    decreases p.hunks.len() - i,
{
    if i == p.hunks.len() {
        assert(x + layout_new(p, gaps, i) =~= x);
    } else {
        lemma_layout_step(a, p, gaps, tail, i, x);
        let a1 = spec_process_hunk(a, p, p.hunks[i]).unwrap();
        let lines = spec_hunk_lines(p, p.hunks[i]);
        lemma_layout_hunks(a1, p, gaps, tail, i + 1, x + gaps[i] + new_text(lines));
        assert(x + gaps[i] + new_text(lines) + layout_new(p, gaps, i + 1) =~= x + layout_new(p, gaps, i));
    }
}

/// Applying a text patch to a file in which each hunk's old lines stand
/// once, as whole lines, where `layout` puts them (with unchanged lines
/// before and between the hunks and after the last) replaces each hunk's
/// old lines by its new ones and keeps the rest.
pub proof fn lemma_apply_layout(p: PatchView, gaps: Seq<Seq<u8>>, tail: Seq<u8>)
    requires
        text_shape(p),
        spec_verify_source(layout(p, gaps, tail, 0), p.old_hash) is Ok,
        laid_out(p, gaps, tail),
    ensures
        spec_apply(layout(p, gaps, tail, 0), p) == Ok::<Seq<u8>, crate::error::Error>(layout_new(p, gaps, 0) + tail),
{
    let src = layout(p, gaps, tail, 0);
    let a0 = fresh_applier(src);
    assert(spec_at(a0) =~= src);
    assert(a0.w.out + owed(a0.w) =~= Seq::<u8>::empty());
    lemma_layout_hunks(a0, p, gaps, tail, 0, Seq::empty());
    let a2 = spec_process_hunks(a0, p, 0).unwrap();
    assert(Seq::<u8>::empty() + layout_new(p, gaps, 0) =~= layout_new(p, gaps, 0));
    let a3 = crate::engine::spec_flush(a2);
    if tail.len() > 0 {
        assert(a3.w.out =~= a2.w.out + owed(a2.w) + tail);
        assert(!a3.w.pending);
    } else {
        assert(layout_new(p, gaps, 0) + tail =~= layout_new(p, gaps, 0));
    }
}

proof fn lemma_layout_inverted(p: PatchView, gaps: Seq<Seq<u8>>, tail: Seq<u8>, i: int)
    requires
        patch_wf(p),
        0 <= i <= p.hunks.len(),
    ensures
        layout(inverted_patch(p), gaps, tail, i) == layout_new(p, gaps, i) + tail,
        layout_new(inverted_patch(p), gaps, i) + tail == layout(p, gaps, tail, i),
    decreases p.hunks.len() - i,
{
    if i < p.hunks.len() {
        lemma_inverted_lines(p, i);
        lemma_layout_inverted(p, gaps, tail, i + 1);
        let q = inverted_patch(p);
        assert(layout(q, gaps, tail, i) =~= layout_new(p, gaps, i) + tail);
        assert(layout_new(q, gaps, i) + tail =~= layout(p, gaps, tail, i));
    } else {
        assert(layout_new(p, gaps, i) + tail =~= tail);
        assert(layout_new(inverted_patch(p), gaps, i) + tail =~= tail);
    }
}

/// Applying a text patch to a file in which each hunk's old lines stand
/// once, as whole lines, among unchanged lines (before, between and after
/// the hunks), and then applying the reversed patch, in whose view each
/// hunk's new lines stand once in the same way, gives the file back. The
/// old hash names the file before and the new hash the file after;
/// reversing exchanges them, so each check passes.
pub proof fn lemma_apply_reverse_layout(p: PatchView, gaps: Seq<Seq<u8>>, tail: Seq<u8>)
    requires
        text_shape(p),
        laid_out(p, gaps, tail),
        laid_out(inverted_patch(p), gaps, tail),
        spec_verify_source(layout(p, gaps, tail, 0), p.old_hash) is Ok,
        spec_verify_source(layout(inverted_patch(p), gaps, tail, 0), p.new_hash) is Ok,
        !p.old_file_no_newline,
        forall|i: int|
            0 <= i < p.hunks.len() && (#[trigger] p.hunks[i]).new_span == 0 ==> new_text(
                spec_hunk_lines(p, p.hunks[i]),
            ).len() == 0,
    ensures
        spec_apply(layout(p, gaps, tail, 0), p) == Ok::<Seq<u8>, crate::error::Error>(
            layout(inverted_patch(p), gaps, tail, 0),
        ),
        spec_apply(layout(inverted_patch(p), gaps, tail, 0), inverted_patch(p)) == Ok::<Seq<u8>, crate::error::Error>(
            layout(p, gaps, tail, 0),
        ),
{
    let q = inverted_patch(p);
    lemma_apply_layout(p, gaps, tail);
    lemma_layout_inverted(p, gaps, tail, 0);
    lemma_invert_wf(p);
    assert forall|i: int| 0 <= i < q.hunks.len() && (#[trigger] q.hunks[i]).old_span == 0 implies old_text(
        spec_hunk_lines(q, q.hunks[i]),
    ).len() == 0 by {
        lemma_inverted_lines(p, i);
        assert(q.hunks[i] == inverted_hunk(p.hunks[i]));
    }
    assert(q.hunks[0] == inverted_hunk(p.hunks[0]));
    lemma_apply_layout(q, gaps, tail);
    lemma_layout_inverted(q, gaps, tail, 0);
    crate::model::lemma_invert_patch_twice(p);
}

} // verus!
