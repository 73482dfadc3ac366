use vstd::prelude::*;

use crate::bytes::{extend_from, is_dev_null};
use crate::kw;

verus! {

/// What a line of a hunk does to the file.
#[derive(Debug, Clone, Copy, PartialEq, Eq, Structural)]
pub enum LineKind {
    Addition,
    Deletion,
    Context,
    /// An empty line of a hunk without a header; it matches an empty line.
    Gap,
}

/// The kind a line has once the patch is reversed.
pub open spec fn inverted_kind(k: LineKind) -> LineKind {
    match k {
        LineKind::Addition => LineKind::Deletion,
        LineKind::Deletion => LineKind::Addition,
        other => other,
    }
}

impl LineKind {
    /// Turns an addition into a deletion and back; other kinds stay.
    pub fn invert(&mut self)
        ensures
            *final(self) == inverted_kind(*old(self)),
    {
        *self = match *self {
            LineKind::Addition => LineKind::Deletion,
            LineKind::Deletion => LineKind::Addition,
            LineKind::Context => LineKind::Context,
            LineKind::Gap => LineKind::Gap,
        };
    }
}

/// One line of a hunk: its kind and its text without the leading marker.
#[derive(Debug, Clone, Copy, PartialEq)]
pub struct Line<'a> {
    pub kind: LineKind,
    pub text: &'a [u8],
}

/// The line as it reads once the patch is reversed.
pub open spec fn inverted_line<'a>(l: Line<'a>) -> Line<'a> {
    Line { kind: inverted_kind(l.kind), text: l.text }
}

/// A line of a hunk by its contents.
pub ghost struct LineV {
    pub kind: LineKind,
    pub text: Seq<u8>,
}

/// A line by its contents.
pub open spec fn line_view(l: Line) -> LineV {
    LineV { kind: l.kind, text: l.text@ }
}

/// The lines of a slice by their contents.
pub open spec fn lines_view(ls: Seq<Line>) -> Seq<LineV> {
    ls.map_values(|l: Line| line_view(l))
}

/// The line, by its contents, once the patch is reversed.
pub open spec fn inverted_linev(l: LineV) -> LineV {
    LineV { kind: inverted_kind(l.kind), text: l.text }
}

/// Data lines by their contents.
pub open spec fn data_view(ls: Seq<&[u8]>) -> Seq<Seq<u8>> {
    ls.map_values(|l: &[u8]| l@)
}

impl<'a> Line<'a> {
    /// Reverses what the line does.
    pub fn invert(&mut self)
        ensures
            *final(self) == inverted_line(*old(self)),
    {
        self.kind.invert();
    }
}

/// A hunk: where it applies in the old and the new file, and which lines of
/// its patch (`lines_start`, `lines_len`) are its own.
#[derive(Debug, Clone, Copy, PartialEq, Default)]
pub struct Hunk<'a> {
    pub old_line: u32,
    pub old_span: u32,
    pub new_line: u32,
    pub new_span: u32,
    pub lines_start: u32,
    pub lines_len: u32,
    /// The line of the patch text where the hunk starts.
    pub patch_line_num: u32,
    /// Whether the hunk had an `@@` header.
    pub has_header: bool,
    /// A line of the file near the hunk, to narrow the search.
    pub label: Option<&'a [u8]>,
}

/// The hunk with the old and the new side exchanged.
pub open spec fn inverted_hunk<'a>(h: Hunk<'a>) -> Hunk<'a> {
    Hunk {
        old_line: h.new_line,
        old_span: h.new_span,
        new_line: h.old_line,
        new_span: h.old_span,
        ..h
    }
}

impl<'a> Hunk<'a> {
    /// Exchanges the old and the new side of the hunk.
    pub fn invert(&mut self)
        ensures
            *final(self) == inverted_hunk(*old(self)),
    {
        let t = self.old_line;
        self.old_line = self.new_line;
        self.new_line = t;
        let t = self.old_span;
        self.old_span = self.new_span;
        self.new_span = t;
    }
}

/// How a binary fragment describes the new file.
#[derive(Debug, Clone, Copy, PartialEq, Eq, Structural)]
pub enum BinaryKind {
    /// The new content itself.
    Literal,
    /// A delta against the old content.
    Delta,
}

/// A binary fragment of a git binary patch; its data lines are
/// `data_len` lines of its patch from `data_start` on.
#[derive(Debug, PartialEq, Clone, Copy)]
pub struct BinaryFragment {
    pub kind: BinaryKind,
    pub size: u64,
    pub data_start: u32,
    pub data_len: u32,
}

/// The change to one file.
#[derive(Debug, PartialEq, Clone)]
pub struct Patch<'a> {
    pub old_hash: Option<&'a [u8]>,
    pub new_hash: Option<&'a [u8]>,
    pub old_file: Vec<u8>,
    pub new_file: Vec<u8>,
    pub hunks: Vec<Hunk<'a>>,
    pub copy_from: Option<Vec<u8>>,
    pub copy_to: Option<Vec<u8>>,
    pub rename_from: Option<Vec<u8>>,
    pub rename_to: Option<Vec<u8>>,
    pub new_mode: Option<u32>,
    pub old_mode: Option<u32>,
    pub similarity: Option<u32>,
    pub dissimilarity: Option<u32>,
    pub binary: bool,
    pub old_file_no_newline: bool,
    pub new_file_no_newline: bool,
    pub binary_fragments: Vec<BinaryFragment>,
    /// The lines of all hunks, in order.
    pub lines: Vec<Line<'a>>,
    /// The data lines of all binary fragments, in order.
    pub binary_lines: Vec<&'a [u8]>,
}

/// The contents of an optional byte vector.
pub open spec fn opt_bytes(o: Option<Vec<u8>>) -> Option<Seq<u8>> {
    match o {
        Some(v) => Some(v@),
        None => None,
    }
}

/// A patch as a value: every field by its contents.
#[verifier::ext_equal]
pub ghost struct PatchView<'a> {
    pub old_hash: Option<&'a [u8]>,
    pub new_hash: Option<&'a [u8]>,
    pub old_file: Seq<u8>,
    pub new_file: Seq<u8>,
    pub hunks: Seq<Hunk<'a>>,
    pub copy_from: Option<Seq<u8>>,
    pub copy_to: Option<Seq<u8>>,
    pub rename_from: Option<Seq<u8>>,
    pub rename_to: Option<Seq<u8>>,
    pub new_mode: Option<u32>,
    pub old_mode: Option<u32>,
    pub similarity: Option<u32>,
    pub dissimilarity: Option<u32>,
    pub binary: bool,
    pub old_file_no_newline: bool,
    pub new_file_no_newline: bool,
    pub binary_fragments: Seq<BinaryFragment>,
    pub lines: Seq<LineV>,
    pub binary_lines: Seq<Seq<u8>>,
}

impl<'a> View for Patch<'a> {
    type V = PatchView<'a>;

    open spec fn view(&self) -> PatchView<'a> {
        PatchView {
            old_hash: self.old_hash,
            new_hash: self.new_hash,
            old_file: self.old_file@,
            new_file: self.new_file@,
            hunks: self.hunks@,
            copy_from: opt_bytes(self.copy_from),
            copy_to: opt_bytes(self.copy_to),
            rename_from: opt_bytes(self.rename_from),
            rename_to: opt_bytes(self.rename_to),
            new_mode: self.new_mode,
            old_mode: self.old_mode,
            similarity: self.similarity,
            dissimilarity: self.dissimilarity,
            binary: self.binary,
            old_file_no_newline: self.old_file_no_newline,
            new_file_no_newline: self.new_file_no_newline,
            binary_fragments: self.binary_fragments@,
            lines: lines_view(self.lines@),
            binary_lines: data_view(self.binary_lines@),
        }
    }
}

/// A patch that changes nothing and names no file.
pub open spec fn empty_patch_view<'a>() -> PatchView<'a> {
    PatchView {
        old_hash: None,
        new_hash: None,
        old_file: Seq::empty(),
        new_file: Seq::empty(),
        hunks: Seq::empty(),
        copy_from: None,
        copy_to: None,
        rename_from: None,
        rename_to: None,
        new_mode: None,
        old_mode: None,
        similarity: None,
        dissimilarity: None,
        binary: false,
        old_file_no_newline: false,
        new_file_no_newline: false,
        binary_fragments: Seq::empty(),
        lines: Seq::empty(),
        binary_lines: Seq::empty(),
    }
}

/// The patch that undoes `p`: old and new side exchanged, every line and
/// hunk reversed.
pub open spec fn inverted_patch<'a>(p: PatchView<'a>) -> PatchView<'a> {
    PatchView {
        old_hash: p.new_hash,
        new_hash: p.old_hash,
        old_file: p.new_file,
        new_file: p.old_file,
        hunks: p.hunks.map_values(|h: Hunk<'a>| inverted_hunk(h)),
        copy_from: p.copy_to,
        copy_to: p.copy_from,
        rename_from: p.rename_to,
        rename_to: p.rename_from,
        new_mode: p.old_mode,
        old_mode: p.new_mode,
        old_file_no_newline: p.new_file_no_newline,
        new_file_no_newline: p.old_file_no_newline,
        lines: p.lines.map_values(|l: LineV| inverted_linev(l)),
        ..p
    }
}

/// Whether the lines that hunk `h` names lie within the patch.
pub open spec fn hunk_in_bounds<'a>(p: PatchView<'a>, h: Hunk<'a>) -> bool {
    h.lines_start + h.lines_len <= p.lines.len()
}

/// The lines of hunk `h`.
pub open spec fn spec_hunk_lines<'a>(p: PatchView<'a>, h: Hunk<'a>) -> Seq<LineV> {
    p.lines.subrange(h.lines_start as int, h.lines_start + h.lines_len)
}

/// Whether the line numbers that a hunk's errors name fit in 32 bits.
pub open spec fn hunk_numbers_fit(hunk: Hunk, n_lines: int) -> bool {
    hunk.patch_line_num + 1 + n_lines <= u32::MAX
}

/// Whether every hunk of `p` names lines within it and its error line
/// numbers fit in 32 bits, and every binary fragment names data lines within it.
pub open spec fn patch_wf(p: PatchView) -> bool {
    &&& forall|i: int|
        0 <= i < p.hunks.len() ==> hunk_in_bounds(p, #[trigger] p.hunks[i]) && hunk_numbers_fit(
            p.hunks[i],
            p.hunks[i].lines_len as int,
        )
    &&& forall|i: int| 0 <= i < p.binary_fragments.len() ==> fragment_in_bounds(p, #[trigger] p.binary_fragments[i])
}

/// Whether the data lines that fragment `f` names lie within the patch.
pub open spec fn fragment_in_bounds<'a>(p: PatchView<'a>, f: BinaryFragment) -> bool {
    f.data_start + f.data_len <= p.binary_lines.len()
}

/// The data lines of fragment `f`.
pub open spec fn spec_fragment_data<'a>(p: PatchView<'a>, f: BinaryFragment) -> Seq<Seq<u8>> {
    p.binary_lines.subrange(f.data_start as int, f.data_start + f.data_len)
}

/// Whether the patch changes the contents of its file.
pub open spec fn spec_has_content_changes<'a>(p: PatchView<'a>) -> bool {
    p.hunks.len() != 0 || p.binary_fragments.len() != 0
}

/// The file that the patch reads: the copy source if there is one.
pub open spec fn spec_source_file<'a>(p: PatchView<'a>) -> Seq<u8> {
    match p.copy_from {
        Some(f) => f,
        None => p.old_file,
    }
}

/// The file that the patch is about: the new one, unless that is missing.
pub open spec fn spec_filename<'a>(p: PatchView<'a>) -> Seq<u8> {
    if p.new_file.len() != 0 && p.new_file != kw::dev_null() {
        p.new_file
    } else {
        p.old_file
    }
}

/// The patch `p` with `q` appended: the lines, hunks, data lines and
/// fragments of `q` after those of `p`, the hunks and fragments of `q`
/// moved past the lines of `p`.
pub open spec fn appended_patch<'a>(p: PatchView<'a>, q: PatchView<'a>) -> PatchView<'a> {
    PatchView {
        lines: p.lines + q.lines,
        hunks: p.hunks + q.hunks.map_values(
            |h: Hunk<'a>| Hunk { lines_start: (h.lines_start + p.lines.len()) as u32, ..h },
        ),
        binary_lines: p.binary_lines + q.binary_lines,
        binary_fragments: p.binary_fragments + q.binary_fragments.map_values(
            |f: BinaryFragment|
                BinaryFragment { data_start: (f.data_start + p.binary_lines.len()) as u32, ..f },
        ),
        ..p
    }
}

/// Whether appending `q` to `p` keeps every line index within 32 bits.
pub open spec fn can_append<'a>(p: PatchView<'a>, q: PatchView<'a>) -> bool {
    &&& p.lines.len() <= u32::MAX
    &&& p.binary_lines.len() <= u32::MAX
    &&& forall|i: int|
        0 <= i < q.hunks.len() ==> #[trigger] q.hunks[i].lines_start + p.lines.len() <= u32::MAX
    &&& forall|i: int|
        0 <= i < q.binary_fragments.len() ==> #[trigger] q.binary_fragments[i].data_start
            + p.binary_lines.len() <= u32::MAX
}

/// Whether every hunk of `p` names lines within it.
pub open spec fn hunks_in_bounds<'a>(p: PatchView<'a>) -> bool {
    forall|i: int| 0 <= i < p.hunks.len() ==> hunk_in_bounds(p, #[trigger] p.hunks[i])
}

/// A line of a hunk as the patch text writes it: its marker (none for a
/// gap), its text, a line break.
pub open spec fn render_line(l: LineV) -> Seq<u8> {
    let marker: Seq<u8> = match l.kind {
        LineKind::Addition => seq![43u8],
        LineKind::Deletion => seq![45u8],
        LineKind::Context => seq![32u8],
        LineKind::Gap => Seq::empty(),
    };
    marker + l.text + seq![10u8]
}

/// The lines `ls` as the patch text writes them.
pub open spec fn render_lines(ls: Seq<LineV>) -> Seq<u8>
    decreases ls.len(),
{
    if ls.len() == 0 {
        Seq::empty()
    } else {
        render_lines(ls.drop_last()) + render_line(ls.last())
    }
}

/// Hunk `i` of `p` as the patch text writes it: an empty line before it
/// (none before a first hunk with a label), its label line and an empty
/// line, then its lines.
pub open spec fn render_hunk<'a>(p: PatchView<'a>, i: int) -> Seq<u8> {
    let h = p.hunks[i];
    let sep: Seq<u8> = if i > 0 || h.label is None {
        seq![10u8]
    } else {
        Seq::empty()
    };
    let label: Seq<u8> = match h.label {
        Some(l) => kw::label_sp() + l@ + seq![10u8, 10u8],
        None => Seq::empty(),
    };
    sep + label + render_lines(spec_hunk_lines(p, h))
}

/// The first `n` hunks of `p` as the patch text writes them.
pub open spec fn render_hunks<'a>(p: PatchView<'a>, n: int) -> Seq<u8>
    decreases n,
{
    if n <= 0 {
        Seq::empty()
    } else {
        render_hunks(p, n - 1) + render_hunk(p, n - 1)
    }
}

/// The patch in the plain form that `write_to` writes: a `file` line with
/// its file name, then its hunks.
pub open spec fn spec_render<'a>(p: PatchView<'a>) -> Seq<u8> {
    kw::file_sp() + spec_filename(p) + seq![10u8] + render_hunks(p, p.hunks.len() as int)
}

impl<'a> Default for Patch<'a> {
    fn default() -> (r: Self)
        ensures
            r@ == empty_patch_view::<'a>(),
    {
        Patch {
            old_hash: None,
            new_hash: None,
            old_file: Vec::new(),
            new_file: Vec::new(),
            hunks: Vec::new(),
            copy_from: None,
            copy_to: None,
            rename_from: None,
            rename_to: None,
            new_mode: None,
            old_mode: None,
            similarity: None,
            dissimilarity: None,
            binary: false,
            old_file_no_newline: false,
            new_file_no_newline: false,
            binary_fragments: Vec::new(),
            lines: Vec::new(),
            binary_lines: Vec::new(),
        }
    }
}

impl<'a> Patch<'a> {
    /// Whether the patch names neither an old nor a new file.
    pub fn is_empty(&self) -> (r: bool)
        ensures
            r == (self@.old_file.len() == 0 && self@.new_file.len() == 0),
    {
        self.old_file.len() == 0 && self.new_file.len() == 0
    }

    /// The lines of `hunk`.
    pub fn hunk_lines(&self, hunk: &Hunk<'a>) -> (r: &[Line<'a>])
        requires
            hunk_in_bounds(self@, *hunk),
        ensures
            lines_view(r@) == spec_hunk_lines(self@, *hunk),
            r@ == self.lines@.subrange(hunk.lines_start as int, hunk.lines_start + hunk.lines_len),
    {
        let start = hunk.lines_start as usize;
        assert(start + hunk.lines_len <= self.lines.len());
        let end = start + hunk.lines_len as usize;
        let r = &self.lines.as_slice()[start..end];
        assert(lines_view(r@) =~= spec_hunk_lines(self@, *hunk));
        r
    }

    /// The data lines of `fragment`.
    pub fn binary_fragment_data(&self, fragment: &BinaryFragment) -> (r: &[&'a [u8]])
        requires
            fragment_in_bounds(self@, *fragment),
        ensures
            data_view(r@) == spec_fragment_data(self@, *fragment),
            r@ == self.binary_lines@.subrange(fragment.data_start as int, fragment.data_start + fragment.data_len),
    {
        let start = fragment.data_start as usize;
        assert(start + fragment.data_len <= self.binary_lines.len());
        let end = start + fragment.data_len as usize;
        let r = &self.binary_lines.as_slice()[start..end];
        assert(data_view(r@) =~= spec_fragment_data(self@, *fragment));
        r
    }

    /// The file that the patch reads: the copy source if there is one.
    pub fn source_file(&self) -> (r: &[u8])
        ensures
            r@ == spec_source_file(self@),
    {
        match &self.copy_from {
            Some(f) => f.as_slice(),
            None => self.old_file.as_slice(),
        }
    }

    /// Whether the patch changes the contents of its file.
    pub fn has_content_changes(&self) -> (r: bool)
        ensures
            r == spec_has_content_changes(self@),
    {
        self.hunks.len() != 0 || self.binary_fragments.len() != 0
    }

    /// The file that the patch is about: the new one, unless that is missing.
    pub fn filename(&self) -> (r: &[u8])
        ensures
            r@ == spec_filename(self@),
    {
        if self.new_file.len() != 0 && !is_dev_null(self.new_file.as_slice()) {
            self.new_file.as_slice()
        } else {
            self.old_file.as_slice()
        }
    }

    /// The patch that undoes this one.
    pub fn invert(self) -> (r: Self)
        ensures
            r@ == inverted_patch(self@),
    {
        let mut p = self;
        let Patch {
            old_hash,
            new_hash,
            old_file,
            new_file,
            hunks,
            copy_from,
            copy_to,
            rename_from,
            rename_to,
            new_mode,
            old_mode,
            similarity,
            dissimilarity,
            binary,
            old_file_no_newline,
            new_file_no_newline,
            binary_fragments,
            lines,
            binary_lines,
        } = p;
        let mut lines = lines;
        let mut i: usize = 0;
        let ghost orig_lines = lines@;
        while i < lines.len()
            invariant
                lines@.len() == orig_lines.len(),
                i <= lines@.len(),
                forall|k: int| 0 <= k < i ==> lines@[k] == inverted_line(orig_lines[k]),
                forall|k: int| i <= k < lines@.len() ==> lines@[k] == orig_lines[k],
            decreases lines@.len() - i,
        {
            let mut l = lines[i];
            l.kind.invert();
            lines.set(i, l);
            i += 1;
        }
        let mut hunks = hunks;
        let mut j: usize = 0;
        let ghost orig_hunks = hunks@;
        while j < hunks.len()
            invariant
                hunks@.len() == orig_hunks.len(),
                j <= hunks@.len(),
                forall|k: int| 0 <= k < j ==> hunks@[k] == inverted_hunk(orig_hunks[k]),
                forall|k: int| j <= k < hunks@.len() ==> hunks@[k] == orig_hunks[k],
            decreases hunks@.len() - j,
        {
            let mut h = hunks[j];
            h.invert();
            hunks.set(j, h);
            j += 1;
        }
        let r = Patch {
            old_hash: new_hash,
            new_hash: old_hash,
            old_file: new_file,
            new_file: old_file,
            hunks,
            copy_from: copy_to,
            copy_to: copy_from,
            rename_from: rename_to,
            rename_to: rename_from,
            new_mode: old_mode,
            old_mode: new_mode,
            similarity,
            dissimilarity,
            binary,
            old_file_no_newline: new_file_no_newline,
            new_file_no_newline: old_file_no_newline,
            binary_fragments,
            lines,
            binary_lines,
        };
        assert(r@.lines =~= lines_view(orig_lines).map_values(|l: LineV| inverted_linev(l)));
        assert(r@.hunks =~= orig_hunks.map_values(|h: Hunk<'a>| inverted_hunk(h)));
        r
    }

    /// Writes the patch in a plain form; see `spec_render`.
    pub fn write_to(&self) -> (r: Vec<u8>)
        requires
            hunks_in_bounds(self@),
        ensures
            r@ == spec_render(self@),
    {
        let mut out: Vec<u8> = Vec::new();
        let tag = kw::file_sp_bytes();
        extend_from(&mut out, &tag);
        extend_from(&mut out, self.filename());
        out.push(10u8);
        let ghost head = out@;
        let mut i: usize = 0;
        while i < self.hunks.len()
            invariant
                i <= self@.hunks.len(),
                hunks_in_bounds(self@),
                out@ == head + render_hunks(self@, i as int),
            decreases self@.hunks.len() - i,
        {
            let hunk = self.hunks[i];
            assert(hunk == self@.hunks[i as int]);
            let ghost before = out@;
            if i > 0 || hunk.label.is_none() {
                out.push(10u8);
            }
            if let Some(label) = hunk.label {
                let t = kw::label_sp_bytes();
                extend_from(&mut out, &t);
                extend_from(&mut out, label);
                out.push(10u8);
                out.push(10u8);
            }
            let ghost mid = out@;
            let lines = self.hunk_lines(&hunk);
            let ghost lv = lines_view(lines@);
            let mut k: usize = 0;
            while k < lines.len()
                invariant
                    k <= lines@.len(),
                    lv == lines_view(lines@),
                    out@ == mid + render_lines(lv.subrange(0, k as int)),
                decreases lines@.len() - k,
            {
                let l = lines[k];
                proof {
                    assert(lv.subrange(0, k + 1).drop_last() =~= lv.subrange(0, k as int));
                    assert(lv.subrange(0, k + 1).last() == line_view(l));
                }
                let ghost b2 = out@;
                match l.kind {
                    LineKind::Addition => out.push(43u8),
                    LineKind::Deletion => out.push(45u8),
                    LineKind::Context => out.push(32u8),
                    LineKind::Gap => {},
                }
                extend_from(&mut out, l.text);
                out.push(10u8);
                assert(out@ =~= b2 + render_line(line_view(l)));
                assert(out@ =~= mid + render_lines(lv.subrange(0, k + 1)));
                k += 1;
            }
            assert(lv.subrange(0, k as int) =~= lv);
            assert(out@ =~= before + render_hunk(self@, i as int));
            i += 1;
        }
        assert(out@ =~= spec_render(self@));
        out
    }

    /// Appends `other` to this patch: its lines, hunks, data lines and
    /// fragments come after these, renumbered to point at the same lines.
    pub fn append(&mut self, other: Self)
        requires
            can_append(old(self)@, other@),
        ensures
            final(self)@ == appended_patch(old(self)@, other@),
    {
        let lines_offset = self.lines.len() as u32;
        let binary_offset = self.binary_lines.len() as u32;
        let Patch { hunks: other_hunks, binary_fragments: other_frags, lines: other_lines, binary_lines: other_blines, .. } = other;
        let ghost old_self = self@;
        let mut i: usize = 0;
        while i < other_hunks.len()
            invariant
                i <= other_hunks@.len(),
                other_hunks@ == other@.hunks,
                lines_view(other_lines@) == other@.lines,
                data_view(other_blines@) == other@.binary_lines,
                other_frags@ == other@.binary_fragments,
                can_append(old_self, other@),
                lines_offset == old_self.lines.len(),
                binary_offset == old_self.binary_lines.len(),
                self.hunks@ == old_self.hunks + other@.hunks.subrange(0, i as int).map_values(
                    |h: Hunk<'a>| Hunk { lines_start: (h.lines_start + old_self.lines.len()) as u32, ..h },
                ),
                lines_view(self.lines@) == old_self.lines,
                data_view(self.binary_lines@) == old_self.binary_lines,
                self.binary_fragments@ == old_self.binary_fragments,
                self@ == (PatchView { hunks: self@.hunks, ..old_self }),
            decreases other_hunks@.len() - i,
        {
            let mut h = other_hunks[i];
            assert(h == other@.hunks[i as int]);
            assert(h.lines_start + lines_offset <= u32::MAX);
            h.lines_start = h.lines_start + lines_offset;
            self.hunks.push(h);
            i += 1;
            assert(other@.hunks.subrange(0, i as int) =~= other@.hunks.subrange(0, i - 1).push(other@.hunks[i - 1]));
        }
        assert(other@.hunks.subrange(0, other@.hunks.len() as int) =~= other@.hunks);
        let mut j: usize = 0;
        while j < other_frags.len()
            invariant
                self.hunks@ == old_self.hunks + other@.hunks.map_values(
                    |h: Hunk<'a>| Hunk { lines_start: (h.lines_start + old_self.lines.len()) as u32, ..h },
                ),
                j <= other_frags@.len(),
                other_frags@ == other@.binary_fragments,
                lines_view(other_lines@) == other@.lines,
                data_view(other_blines@) == other@.binary_lines,
                can_append(old_self, other@),
                binary_offset == old_self.binary_lines.len(),
                self.binary_fragments@ == old_self.binary_fragments + other@.binary_fragments.subrange(0, j as int).map_values(
                    |f: BinaryFragment| BinaryFragment { data_start: (f.data_start + old_self.binary_lines.len()) as u32, ..f },
                ),
                lines_view(self.lines@) == old_self.lines,
                data_view(self.binary_lines@) == old_self.binary_lines,
                self@ == (PatchView { hunks: self@.hunks, binary_fragments: self@.binary_fragments, ..old_self }),
            decreases other_frags@.len() - j,
        {
            let mut f = other_frags[j];
            assert(f == other@.binary_fragments[j as int]);
            assert(f.data_start + binary_offset <= u32::MAX);
            f.data_start = f.data_start + binary_offset;
            self.binary_fragments.push(f);
            j += 1;
            assert(other@.binary_fragments.subrange(0, j as int) =~= other@.binary_fragments.subrange(0, j - 1).push(other@.binary_fragments[j - 1]));
        }
        let mut other_lines = other_lines;
        self.lines.append(&mut other_lines);
        let mut other_blines = other_blines;
        self.binary_lines.append(&mut other_blines);
        assert(other@.hunks.subrange(0, other@.hunks.len() as int) =~= other@.hunks);
        assert(other@.binary_fragments.subrange(0, other@.binary_fragments.len() as int) =~= other@.binary_fragments);
        assert(self@.lines =~= appended_patch(old_self, other@).lines);
        assert(self@.binary_lines =~= appended_patch(old_self, other@).binary_lines);
        assert(self@.hunks =~= appended_patch(old_self, other@).hunks);
        assert(self@.binary_fragments =~= appended_patch(old_self, other@).binary_fragments);
    }
}

// ---------------------------------------------------------------------------
// Laws
// ---------------------------------------------------------------------------

/// Reversing a line kind twice gives it back.
pub proof fn lemma_invert_kind_twice(k: LineKind)
    ensures
        inverted_kind(inverted_kind(k)) == k,
{
}

/// Reversing a hunk twice gives it back.
pub proof fn lemma_invert_hunk_twice<'a>(h: Hunk<'a>)
    ensures
        inverted_hunk(inverted_hunk(h)) == h,
{
}

/// Reversing a patch twice gives it back.
pub proof fn lemma_invert_patch_twice<'a>(p: PatchView<'a>)
    ensures
        inverted_patch(inverted_patch(p)) == p,
{
    let q = inverted_patch(inverted_patch(p));
    assert(q.lines =~= p.lines) by {
        assert forall|i: int| 0 <= i < p.lines.len() implies q.lines[i] == p.lines[i] by {
            lemma_invert_kind_twice(p.lines[i].kind);
        }
    }
    assert(q.hunks =~= p.hunks);
}

/// Reversing a patch keeps its hunks' lines where they were: every hunk of
/// the reversed patch names the reversed lines of the hunk before reversal.
pub proof fn lemma_invert_keeps_hunk_lines<'a>(p: PatchView<'a>, i: int)
    requires
        0 <= i < p.hunks.len(),
        hunk_in_bounds(p, p.hunks[i]),
    ensures
        hunk_in_bounds(inverted_patch(p), inverted_patch(p).hunks[i]),
        spec_hunk_lines(inverted_patch(p), inverted_patch(p).hunks[i]) == spec_hunk_lines(
            p,
            p.hunks[i],
        ).map_values(|l: LineV| inverted_linev(l)),
{
    assert(spec_hunk_lines(inverted_patch(p), inverted_patch(p).hunks[i]) =~= spec_hunk_lines(
        p,
        p.hunks[i],
    ).map_values(|l: LineV| inverted_linev(l)));
}

/// Appending a patch keeps what every hunk and fragment of both patches
/// names: the hunks of the first keep their lines, and those of the second
/// name in the result the lines they named before; likewise for the data
/// lines of binary fragments.
pub proof fn lemma_append_keeps_contents<'a>(p: PatchView<'a>, q: PatchView<'a>)
    requires
        can_append(p, q),
    ensures
        forall|i: int|
            0 <= i < p.hunks.len() && hunk_in_bounds(p, #[trigger] p.hunks[i]) ==> hunk_in_bounds(
                appended_patch(p, q),
                appended_patch(p, q).hunks[i],
            ) && spec_hunk_lines(appended_patch(p, q), appended_patch(p, q).hunks[i])
                == spec_hunk_lines(p, p.hunks[i]),
        forall|i: int|
            0 <= i < q.hunks.len() && hunk_in_bounds(q, #[trigger] q.hunks[i]) ==> hunk_in_bounds(
                appended_patch(p, q),
                appended_patch(p, q).hunks[p.hunks.len() + i],
            ) && spec_hunk_lines(appended_patch(p, q), appended_patch(p, q).hunks[p.hunks.len() + i])
                == spec_hunk_lines(q, q.hunks[i]),
        forall|i: int|
            0 <= i < p.binary_fragments.len() && fragment_in_bounds(
                p,
                #[trigger] p.binary_fragments[i],
            ) ==> spec_fragment_data(appended_patch(p, q), appended_patch(p, q).binary_fragments[i])
                == spec_fragment_data(p, p.binary_fragments[i]),
        forall|i: int|
            0 <= i < q.binary_fragments.len() && fragment_in_bounds(
                q,
                #[trigger] q.binary_fragments[i],
            ) ==> spec_fragment_data(
                appended_patch(p, q),
                appended_patch(p, q).binary_fragments[p.binary_fragments.len() + i],
            ) == spec_fragment_data(q, q.binary_fragments[i]),
{
    let r = appended_patch(p, q);
    assert forall|i: int|
        0 <= i < p.hunks.len() && hunk_in_bounds(p, #[trigger] p.hunks[i]) implies hunk_in_bounds(
        r,
        r.hunks[i],
    ) && spec_hunk_lines(r, r.hunks[i]) == spec_hunk_lines(p, p.hunks[i]) by {
        assert(r.hunks[i] == p.hunks[i]);
        assert(spec_hunk_lines(r, r.hunks[i]) =~= spec_hunk_lines(p, p.hunks[i]));
    }
    assert forall|i: int|
        0 <= i < q.hunks.len() && hunk_in_bounds(q, #[trigger] q.hunks[i]) implies hunk_in_bounds(
        r,
        r.hunks[p.hunks.len() + i],
    ) && spec_hunk_lines(r, r.hunks[p.hunks.len() + i]) == spec_hunk_lines(q, q.hunks[i]) by {
        let h = r.hunks[p.hunks.len() + i];
        assert(h.lines_start == q.hunks[i].lines_start + p.lines.len());
        assert(spec_hunk_lines(r, h) =~= spec_hunk_lines(q, q.hunks[i]));
    }
    assert forall|i: int|
        0 <= i < p.binary_fragments.len() && fragment_in_bounds(
            p,
            #[trigger] p.binary_fragments[i],
        ) implies spec_fragment_data(r, r.binary_fragments[i]) == spec_fragment_data(
        p,
        p.binary_fragments[i],
    ) by {
        assert(r.binary_fragments[i] == p.binary_fragments[i]);
        assert(spec_fragment_data(r, r.binary_fragments[i]) =~= spec_fragment_data(
            p,
            p.binary_fragments[i],
        ));
    }
    assert forall|i: int|
        0 <= i < q.binary_fragments.len() && fragment_in_bounds(
            q,
            #[trigger] q.binary_fragments[i],
        ) implies spec_fragment_data(r, r.binary_fragments[p.binary_fragments.len() + i])
        == spec_fragment_data(q, q.binary_fragments[i]) by {
        let f = r.binary_fragments[p.binary_fragments.len() + i];
        assert(f.data_start == q.binary_fragments[i].data_start + p.binary_lines.len());
        assert(spec_fragment_data(r, f) =~= spec_fragment_data(q, q.binary_fragments[i]));
    }
}

} // verus!
