use vstd::prelude::*;

use crate::engine::{
    applier_wf, fresh_applier, patch_is_well_formed,
    spec_at, spec_begin, spec_end, spec_hunkless, spec_process_binary, spec_process_hunk, Applier, ApplierView,
};
use crate::error::Error;
use crate::lexer::LexerItem;
use crate::engine::{spec_binary_from, spec_process, spec_process_hunks};
use crate::model::{patch_wf, spec_hunk_lines, Patch, PatchView};
use crate::parser::{
    lemma_next_hunk_fits, lemma_next_hunk_hunks_free, lemma_parse_hunks_wf, lemma_wf_grow, lemma_wf_push,
    lines_numbered, parse_hunks, patch_fits, spec_next_hunk, spec_parse_hunks, Parser,
};

verus! {

/// The hunks after the first one of a patch whose hunks have headers, read
/// and applied one at a time: the output, and where the parser and the
/// patch are left.
pub open spec fn spec_stream_rest<'a>(
    a: ApplierView,
    its: Seq<Result<LexerItem<'a>, Error>>,
    idx: int,
    label: Option<&'a [u8]>,
    p: PatchView<'a>,
) -> (Result<Seq<u8>, Error>, int, Option<&'a [u8]>, PatchView<'a>)
    decreases its.len() - idx,
{
    let (r, i2, l2, p2) = spec_next_hunk(its, idx, label, p);
    match r {
        Err(e) => (Err(e), i2, l2, p2),
        Ok(None) => (Ok(spec_end(a, p2).w.out), i2, l2, p2),
        Ok(Some(h)) => match spec_process_hunk(a, p2, h) {
            Err(e) => (Err(e), i2, l2, p2),
            Ok(a1) => if idx < i2 <= its.len() {
                spec_stream_rest(a1, its, i2, l2, p2)
            } else {
                (Ok(spec_end(a1, p2).w.out), i2, l2, p2)
            },
        },
    }
}

/// Applying the patch whose header `p` holds to `src` while its hunks are
/// read from `its` at `idx`: the old hash is checked first; a binary patch
/// is applied as it is; hunks with headers are applied as they are read;
/// when the first hunk has none, all hunks are read first and then placed.
/// The output, and where the parser and the patch are left.
pub open spec fn spec_stream<'a>(
    src: Seq<u8>,
    its: Seq<Result<LexerItem<'a>, Error>>,
    idx: int,
    label: Option<&'a [u8]>,
    p: PatchView<'a>,
) -> (Result<Seq<u8>, Error>, int, Option<&'a [u8]>, PatchView<'a>) {
    let a0 = fresh_applier(src);
    match spec_begin(spec_at(a0), p) {
        Err(e) => (Err(e), idx, label, p),
        Ok(_) => if p.binary_fragments.len() > 0 {
            (
                match spec_process_binary(a0, p) {
                    Ok(a1) => Ok(a1.w.out),
                    Err(e) => Err(e),
                },
                idx,
                label,
                p,
            )
        } else {
            let (r, i2, l2, p2) = spec_next_hunk(its, idx, label, p);
            match r {
                Err(e) => (Err(e), i2, l2, p2),
                Ok(None) => (Ok(spec_end(a0, p2).w.out), i2, l2, p2),
                Ok(Some(h)) => if !h.has_header {
                    let (rr, i3, l3, p4) = spec_parse_hunks(
                        its,
                        i2,
                        l2,
                        PatchView { hunks: p2.hunks.push(h), ..p2 },
                    );
                    match rr {
                        Err(e) => (Err(e), i3, l3, p4),
                        Ok(_) => (
                            match spec_hunkless(a0, p4) {
                                Ok(a1) => Ok(spec_end(a1, p4).w.out),
                                Err(e) => Err(e),
                            },
                            i3,
                            l3,
                            p4,
                        ),
                    }
                } else {
                    match spec_process_hunk(a0, p2, h) {
                        Err(e) => (Err(e), i2, l2, p2),
                        Ok(a1) => if idx < i2 <= its.len() {
                            spec_stream_rest(a1, its, i2, l2, p2)
                        } else {
                            (Ok(spec_end(a1, p2).w.out), i2, l2, p2)
                        },
                    }
                },
            }
        },
    }
}

/// The output of a step, by its contents.
pub open spec fn output_view(r: Result<Vec<u8>, Error>) -> Result<Seq<u8>, Error> {
    match r {
        Ok(v) => Ok(v@),
        Err(e) => Err(e),
    }
}

/// Reads and applies the hunks that follow a first hunk with a header; see
/// `spec_stream_rest`.
fn stream_rest<'a, 's>(applier: &mut Applier<'s>, patch: &mut Patch<'a>, parser: &mut Parser<'a>) -> (r: Result<
    (),
    Error,
>)
    requires
        old(parser).wf(),
        applier_wf(old(applier)@),
        patch_fits(old(patch)@, old(parser).idx()),
        patch_wf(old(patch)@),
    ensures
        final(parser).wf(),
        final(parser).items() == old(parser).items(),
        ({
            let (sr, si, sl, sp) = spec_stream_rest(
                old(applier)@,
                old(parser).items(),
                old(parser).idx(),
                old(parser).pending_label(),
                old(patch)@,
            );
            &&& final(parser).idx() == si
            &&& final(parser).pending_label() == sl
            &&& final(patch)@ == sp
            &&& match r {
                Ok(()) => sr == Ok::<Seq<u8>, Error>(final(applier)@.w.out),
                Err(e) => sr == Err::<Seq<u8>, Error>(e),
            }
        }),
{
    loop
        invariant
            parser.wf(),
            parser.items() == old(parser).items(),
            applier_wf(applier@),
            patch_wf(patch@),
            patch_fits(patch@, parser.idx()),
            spec_stream_rest(old(applier)@, old(parser).items(), old(parser).idx(), old(parser).pending_label(), old(patch)@)
                == spec_stream_rest(applier@, parser.items(), parser.idx(), parser.pending_label(), patch@),
        decreases parser.items().len() - parser.idx(),
    {
        let ghost its = parser.items();
        let ghost i1 = parser.idx();
        let ghost l1 = parser.pending_label();
        let ghost p1 = patch@;
        proof {
            parser.lemma_wf();
            lemma_next_hunk_fits(its, i1, l1, p1);
            lemma_wf_grow(p1, spec_next_hunk(its, i1, l1, p1).3);
        }
        match parser.next_hunk(patch) {
            Err(e) => return Err(e),
            Ok(None) => {
                applier.end(patch);
                return Ok(());
            },
            Ok(Some(h)) => {
                match applier.process_hunk(patch, &h) {
                    Err(e) => return Err(e),
                    Ok(()) => {},
                }
            },
        }
    }
}

/// Applies the patch whose header `patch` holds to `source` while reading
/// its hunks from `parser`; see `spec_stream`. The parser is left after the
/// patch's hunks, or after the step that failed.
pub fn apply_streamed<'a>(patch: &mut Patch<'a>, source: &[u8], parser: &mut Parser<'a>) -> (r: Result<
    Vec<u8>,
    Error,
>)
    requires
        old(parser).wf(),
        patch_fits(old(patch)@, old(parser).idx()),
        patch_wf(old(patch)@),
        source@.len() < usize::MAX,
    ensures
        final(parser).wf(),
        final(parser).items() == old(parser).items(),
        (output_view(r), final(parser).idx(), final(parser).pending_label(), final(patch)@) == spec_stream(
            source@,
            old(parser).items(),
            old(parser).idx(),
            old(parser).pending_label(),
            old(patch)@,
        ),
{
    let mut applier = Applier::new(source);
    let ghost its = parser.items();
    proof {
        parser.lemma_wf();
        assert(spec_at(applier@) =~= source@);
    }
    match applier.begin(patch) {
        Err(e) => return Err(e),
        Ok(()) => {},
    }
    if patch.binary_fragments.len() > 0 {
        return match applier.process_binary(patch) {
            Ok(()) => Ok(applier.into_output()),
            Err(e) => Err(e),
        };
    }
    let ghost p0 = patch@;
    let ghost i0 = parser.idx();
    let ghost l0 = parser.pending_label();
    proof {
        lemma_next_hunk_fits(its, i0, l0, p0);
        lemma_wf_grow(p0, spec_next_hunk(its, i0, l0, p0).3);
    }
    let first = match parser.next_hunk(patch) {
        Err(e) => return Err(e),
        Ok(None) => {
            applier.end(patch);
            return Ok(applier.into_output());
        },
        Ok(Some(h)) => h,
    };
    if !first.has_header {
        let ghost p2 = patch@;
        patch.hunks.push(first);
        proof {
            assert(patch@ =~= (PatchView { hunks: p2.hunks.push(first), ..p2 }));
            lemma_wf_push(p2, first);
            parser.lemma_wf();
            lemma_parse_hunks_wf(its, parser.idx(), parser.pending_label(), patch@);
        }
        match parse_hunks(parser, patch) {
            Err(e) => return Err(e),
            Ok(()) => {},
        }
        match applier.process_hunkless_patches(patch) {
            Err(e) => return Err(e),
            Ok(()) => {},
        }
        applier.end(patch);
        return Ok(applier.into_output());
    }
    match applier.process_hunk(patch, &first) {
        Err(e) => return Err(e),
        Ok(()) => {},
    }
    match stream_rest(&mut applier, patch, parser) {
        Err(e) => Err(e),
        Ok(()) => Ok(applier.into_output()),
    }
}

/// Reading the remaining hunks only appends hunks and lines to a patch and
/// may change its no-newline marks.
proof fn lemma_parse_hunks_shape<'a>(
    its: Seq<Result<LexerItem<'a>, Error>>,
    idx: int,
    label: Option<&'a [u8]>,
    q: PatchView<'a>,
)
    requires
        0 <= idx <= its.len(),
        its.len() < u32::MAX,
        lines_numbered(its),
        q.lines.len() <= idx,
    ensures
        ({
            let pp = spec_parse_hunks(its, idx, label, q).3;
            &&& q.hunks.len() <= pp.hunks.len()
            &&& pp.hunks.subrange(0, q.hunks.len() as int) == q.hunks
            &&& q.lines.len() <= pp.lines.len()
            &&& pp.lines.subrange(0, q.lines.len() as int) == q.lines
            &&& pp == (PatchView {
                lines: pp.lines,
                hunks: pp.hunks,
                old_file_no_newline: pp.old_file_no_newline,
                new_file_no_newline: pp.new_file_no_newline,
                ..q
            })
        }),
    decreases its.len() - idx,
{
    lemma_next_hunk_fits(its, idx, label, q);
    let (r, i2, l2, p2) = spec_next_hunk(its, idx, label, q);
    assert(q.hunks.subrange(0, q.hunks.len() as int) =~= q.hunks);
    match r {
        Ok(Some(h)) => {
            let q3 = PatchView { hunks: p2.hunks.push(h), ..p2 };
            if idx < i2 <= its.len() {
                lemma_parse_hunks_shape(its, i2, l2, q3);
                let pp = spec_parse_hunks(its, i2, l2, q3).3;
                assert(pp.hunks.subrange(0, q.hunks.len() as int) =~= pp.hunks.subrange(0, q3.hunks.len() as int).subrange(
                    0,
                    q.hunks.len() as int,
                ));
                assert(pp.lines.subrange(0, q.lines.len() as int) =~= pp.lines.subrange(0, q3.lines.len() as int).subrange(
                    0,
                    q.lines.len() as int,
                ));
            } else {
                assert(q3.hunks.subrange(0, q.hunks.len() as int) =~= q.hunks);
            }
        },
        _ => {},
    }
}

proof fn lemma_binary_from_same<'a>(a: ApplierView, p: PatchView<'a>, pp: PatchView<'a>, i: int)
    requires
        p.binary_fragments == pp.binary_fragments,
        p.binary_lines == pp.binary_lines,
    ensures
        spec_binary_from(a, p, i) == spec_binary_from(a, pp, i),
    decreases p.binary_fragments.len() - i,
{
    if 0 <= i < p.binary_fragments.len() {
        lemma_binary_from_same(a, p, pp, i + 1);
    }
}

proof fn lemma_rest_agrees<'a>(
    a: ApplierView,
    its: Seq<Result<LexerItem<'a>, Error>>,
    idx: int,
    label: Option<&'a [u8]>,
    s: PatchView<'a>,
    hs: Seq<crate::model::Hunk<'a>>,
)
    requires
        0 <= idx <= its.len(),
        its.len() < u32::MAX,
        lines_numbered(its),
        s.lines.len() <= idx,
        spec_parse_hunks(its, idx, label, PatchView { hunks: hs, ..s }).0 is Ok,
    ensures
        ({
            let pp = spec_parse_hunks(its, idx, label, PatchView { hunks: hs, ..s }).3;
            spec_stream_rest(a, its, idx, label, s).0 == match spec_process_hunks(a, pp, hs.len() as int) {
                Ok(a1) => Ok(spec_end(a1, pp).w.out),
                Err(e) => Err(e),
            }
        }),
    decreases its.len() - idx,
{
    let q = PatchView { hunks: hs, ..s };
    lemma_next_hunk_fits(its, idx, label, s);
    lemma_next_hunk_hunks_free(its, idx, label, s, hs);
    let (r, i2, l2, p2) = spec_next_hunk(its, idx, label, s);
    match r {
        Ok(Some(h)) => {
            let q3 = PatchView { hunks: hs.push(h), ..p2 };
            assert(PatchView { hunks: PatchView { hunks: hs, ..p2 }.hunks.push(h), ..PatchView { hunks: hs, ..p2 } } == q3);
            lemma_parse_hunks_shape(its, i2, l2, q3);
            let pp = spec_parse_hunks(its, i2, l2, q3).3;
            assert(pp.hunks.subrange(0, q3.hunks.len() as int)[hs.len() as int] == h);
            assert(pp.hunks[hs.len() as int] == h);
            assert(spec_hunk_lines(pp, h) =~= spec_hunk_lines(p2, h)) by {
                assert(pp.lines.subrange(h.lines_start as int, h.lines_start + h.lines_len) =~= pp.lines.subrange(
                    0,
                    p2.lines.len() as int,
                ).subrange(h.lines_start as int, h.lines_start + h.lines_len));
            }
            assert(spec_process_hunk(a, pp, h) == spec_process_hunk(a, p2, h));
            match spec_process_hunk(a, p2, h) {
                Ok(a1) => {
                    lemma_rest_agrees(a1, its, i2, l2, p2, hs.push(h));
                },
                Err(e) => {},
            }
        },
        _ => {},
    }
}

/// Applying a patch while its hunks are read gives what `Applier::process`
/// gives for the patch once all its hunks are read, whenever reading them
/// succeeds (for a header that holds no hunks yet).
pub proof fn lemma_stream_agrees<'a>(
    src: Seq<u8>,
    its: Seq<Result<LexerItem<'a>, Error>>,
    idx: int,
    label: Option<&'a [u8]>,
    p: PatchView<'a>,
)
    requires
        0 <= idx <= its.len(),
        its.len() < u32::MAX,
        lines_numbered(its),
        p.lines.len() <= idx,
        p.hunks.len() == 0,
        spec_parse_hunks(its, idx, label, p).0 is Ok,
    ensures
        spec_stream(src, its, idx, label, p).0 == spec_process(
            fresh_applier(src),
            spec_parse_hunks(its, idx, label, p).3,
        ),
{
    let a0 = fresh_applier(src);
    let pp = spec_parse_hunks(its, idx, label, p).3;
    lemma_parse_hunks_shape(its, idx, label, p);
    assert(spec_begin(spec_at(a0), pp) == spec_begin(spec_at(a0), p));
    lemma_binary_from_same(ApplierView { pos: a0.source.len() as int, ..a0 }, p, pp, 0);
    lemma_next_hunk_fits(its, idx, label, p);
    let (r, i2, l2, p2) = spec_next_hunk(its, idx, label, p);
    match r {
        Ok(Some(h)) => {
            let q3 = PatchView { hunks: p2.hunks.push(h), ..p2 };
            lemma_parse_hunks_shape(its, i2, l2, q3);
            assert(pp.hunks.subrange(0, q3.hunks.len() as int)[0] == h);
            assert(pp.hunks[0] == h);
            if h.has_header {
                assert(p2.hunks =~= Seq::<crate::model::Hunk<'a>>::empty());
                assert(q3 == PatchView { hunks: seq![h], ..p2 }) by {
                    assert(p2.hunks.push(h) =~= seq![h]);
                }
                assert(spec_hunk_lines(pp, h) =~= spec_hunk_lines(p2, h)) by {
                    assert(pp.lines.subrange(h.lines_start as int, h.lines_start + h.lines_len) =~= pp.lines.subrange(
                        0,
                        p2.lines.len() as int,
                    ).subrange(h.lines_start as int, h.lines_start + h.lines_len));
                }
                assert(spec_process_hunk(a0, pp, h) == spec_process_hunk(a0, p2, h));
                match spec_process_hunk(a0, p2, h) {
                    Ok(a1) => {
                        lemma_rest_agrees(a1, its, i2, l2, p2, seq![h]);
                    },
                    Err(e) => {},
                }
            }
        },
        _ => {},
    }
}

fn copy_vec<T: Copy>(v: &Vec<T>) -> (r: Vec<T>)
    ensures
        r@ == v@,
{
    let mut out: Vec<T> = Vec::new();
    let mut i: usize = 0;
    while i < v.len()
        invariant
            i <= v@.len(),
            out@ == v@.subrange(0, i as int),
        decreases v@.len() - i,
    {
        out.push(v[i]);
        i += 1;
        assert(out@ =~= v@.subrange(0, i as int));
    }
    assert(out@ =~= v@);
    out
}

fn copy_opt(v: &Option<Vec<u8>>) -> (r: Option<Vec<u8>>)
    ensures
        crate::model::opt_bytes(r) == crate::model::opt_bytes(*v),
{
    match v {
        Some(x) => Some(copy_vec(x)),
        None => None,
    }
}

fn fork_patch<'a>(p: &Patch<'a>) -> (r: Patch<'a>)
    ensures
        r@ == p@,
{
    let r = Patch {
        old_hash: p.old_hash,
        new_hash: p.new_hash,
        old_file: copy_vec(&p.old_file),
        new_file: copy_vec(&p.new_file),
        hunks: copy_vec(&p.hunks),
        copy_from: copy_opt(&p.copy_from),
        copy_to: copy_opt(&p.copy_to),
        rename_from: copy_opt(&p.rename_from),
        rename_to: copy_opt(&p.rename_to),
        new_mode: p.new_mode,
        old_mode: p.old_mode,
        similarity: p.similarity,
        dissimilarity: p.dissimilarity,
        binary: p.binary,
        old_file_no_newline: p.old_file_no_newline,
        new_file_no_newline: p.new_file_no_newline,
        binary_fragments: copy_vec(&p.binary_fragments),
        lines: copy_vec(&p.lines),
        binary_lines: copy_vec(&p.binary_lines),
    };
    assert(r@ =~= p@);
    r
}

/// Applies the patch whose header `patch` holds while reading its hunks
/// from `parser`, when the header is well formed; nothing when it is not, and
/// `parser` and `patch` are then left as they are.
pub fn try_stream<'a>(patch: &mut Patch<'a>, source: &[u8], parser: &mut Parser<'a>) -> (r: Option<
    Result<Vec<u8>, Error>,
>)
    requires
        old(parser).wf(),
        patch_fits(old(patch)@, old(parser).idx()),
        source@.len() < usize::MAX,
    ensures
        final(parser).wf(),
        final(parser).items() == old(parser).items(),
        r is None <==> !patch_wf(old(patch)@),
        r is None ==> final(parser).idx() == old(parser).idx() && final(parser).pending_label()
            == old(parser).pending_label() && final(patch)@ == old(patch)@,
        r matches Some(res) ==> (output_view(res), final(parser).idx(), final(parser).pending_label(), final(patch)@)
            == spec_stream(
            source@,
            old(parser).items(),
            old(parser).idx(),
            old(parser).pending_label(),
            old(patch)@,
        ),
{
    if !patch_is_well_formed(patch) {
        return None;
    }
    Some(apply_streamed(patch, source, parser))
}

} // verus!
