use vstd::prelude::*;

use crate::bytes::{byte_index_from, find_byte_from};
use crate::error::{Error, ErrorKind, IoKind};
use crate::outside::{inflate_stream, zlib_stream};

verus! {

// ---------------------------------------------------------------------------
// Git's base85 encoding
// ---------------------------------------------------------------------------

/// Git's base85 alphabet, in the order of the digit values.
pub open spec fn b85_alphabet() -> Seq<u8> {
    seq![
        48u8, 49, 50, 51, 52, 53, 54, 55, 56, 57,
        65, 66, 67, 68, 69, 70, 71, 72, 73, 74, 75, 76, 77, 78, 79, 80, 81, 82, 83, 84, 85, 86, 87, 88, 89, 90,
        97, 98, 99, 100, 101, 102, 103, 104, 105, 106, 107, 108, 109, 110, 111, 112, 113, 114, 115, 116, 117, 118, 119, 120, 121, 122,
        33, 35, 36, 37, 38, 40, 41, 42, 43, 45, 59, 60, 61, 62, 63, 64, 94, 95, 96, 123, 124, 125, 126
    ]
}

fn b85_alphabet_bytes() -> (r: [u8; 85])
    ensures
        r@ == b85_alphabet(),
{
    let r: [u8; 85] = [
        48u8, 49, 50, 51, 52, 53, 54, 55, 56, 57,
        65, 66, 67, 68, 69, 70, 71, 72, 73, 74, 75, 76, 77, 78, 79, 80, 81, 82, 83, 84, 85, 86, 87, 88, 89, 90,
        97, 98, 99, 100, 101, 102, 103, 104, 105, 106, 107, 108, 109, 110, 111, 112, 113, 114, 115, 116, 117, 118, 119, 120, 121, 122,
        33, 35, 36, 37, 38, 40, 41, 42, 43, 45, 59, 60, 61, 62, 63, 64, 94, 95, 96, 123, 124, 125, 126
    ];
    assert(r@ =~= b85_alphabet());
    r
}

/// The value of a base85 digit: its position in the alphabet.
pub open spec fn spec_decode_char(c: u8) -> Option<u8> {
    let i = byte_index_from(b85_alphabet(), c, 0);
    if i < 85 {
        Some(i as u8)
    } else {
        None
    }
}

/// The decoded length that the first byte of a binary data line announces:
/// `A`..`Z` stand for 1..26 and `a`..`z` for 27..52.
pub open spec fn spec_decode_len_char(c: u8) -> Option<usize> {
    if 65 <= c <= 90 {
        Some((c - 65 + 1) as usize)
    } else if 97 <= c <= 122 {
        Some((c - 97 + 27) as usize)
    } else {
        None
    }
}

/// The number that five base85 digits spell, if each is a digit and the
/// number fits in 32 bits.
#[verifier::opaque]
pub open spec fn spec_decode_group(g: Seq<u8>) -> Option<nat> {
    let d0 = spec_decode_char(g[0]);
    let d1 = spec_decode_char(g[1]);
    let d2 = spec_decode_char(g[2]);
    let d3 = spec_decode_char(g[3]);
    let d4 = spec_decode_char(g[4]);
    if d0 is None || d1 is None || d2 is None || d3 is None || d4 is None {
        None
    } else {
        let v = (((d0.unwrap() as nat * 85 + d1.unwrap() as nat) * 85 + d2.unwrap() as nat) * 85
            + d3.unwrap() as nat) * 85 + d4.unwrap() as nat;
        if v > u32::MAX {
            None
        } else {
            Some(v)
        }
    }
}

/// The four big-endian bytes of a 32-bit number.
#[verifier::opaque]
pub open spec fn be_bytes(v: nat) -> Seq<u8> {
    seq![(v / 16777216 % 256) as u8, (v / 65536 % 256) as u8, (v / 256 % 256) as u8, (v % 256) as u8]
}

/// The bytes that the complete five-digit groups of `data` from offset `i` on
/// decode to; a trailing incomplete group is ignored.
pub open spec fn spec_decode_groups(data: Seq<u8>, i: int) -> Option<Seq<u8>>
    decreases data.len() - i,
{
    if i < 0 || i + 5 > data.len() {
        Some(Seq::empty())
    } else {
        match spec_decode_group(data.subrange(i, i + 5)) {
            None => None,
            Some(v) => match spec_decode_groups(data, i + 5) {
                None => None,
                Some(rest) => Some(be_bytes(v) + rest),
            },
        }
    }
}

/// The bytes that one non-empty line of a git binary patch decodes to: its
/// groups, cut to the length that its first byte announces.
pub open spec fn spec_decode_line(line: Seq<u8>) -> Option<Seq<u8>> {
    match spec_decode_len_char(line[0]) {
        None => None,
        Some(len) => match spec_decode_groups(line.drop_first(), 0) {
            None => None,
            Some(g) => Some(
                if g.len() > len {
                    g.subrange(0, len as int)
                } else {
                    g
                },
            ),
        },
    }
}

/// The bytes that the lines from index `i` on decode to, empty lines skipped.
pub open spec fn spec_decode_lines(lines: Seq<Seq<u8>>, i: int) -> Option<Seq<u8>>
    decreases lines.len() - i,
{
    if i < 0 || i >= lines.len() {
        Some(Seq::empty())
    } else if lines[i].len() == 0 {
        spec_decode_lines(lines, i + 1)
    } else {
        match spec_decode_line(lines[i]) {
            None => None,
            Some(d) => match spec_decode_lines(lines, i + 1) {
                None => None,
                Some(rest) => Some(d + rest),
            },
        }
    }
}

/// One read from the lines at index `i` on: empty lines, and lines that
/// decode to nothing, are passed over; the first other line either fails to
/// decode (`Err`) or gives its bytes and the index after it. With no such
/// line left, nothing and the end of the lines.
pub open spec fn spec_read_from(lines: Seq<Seq<u8>>, i: int) -> Result<(Seq<u8>, int), ()>
    decreases lines.len() - i,
{
    if i < 0 || i >= lines.len() {
        Ok((Seq::empty(), lines.len() as int))
    } else if lines[i].len() == 0 {
        spec_read_from(lines, i + 1)
    } else {
        match spec_decode_line(lines[i]) {
            None => Err(()),
            Some(d) => if d.len() == 0 {
                spec_read_from(lines, i + 1)
            } else {
                Ok((d, i + 1))
            },
        }
    }
}

proof fn lemma_read_from_sub(lines: Seq<Seq<u8>>, k: int, j: int)
    requires
        0 <= k <= lines.len(),
        0 <= j <= lines.len() - k,
    ensures
        spec_read_from(lines.subrange(k, lines.len() as int), j) == match spec_read_from(lines, k + j) {
            Ok((b, m)) => Ok((b, m - k)),
            Err(()) => Err(()),
        },
    decreases lines.len() - k - j,
{
    let sub = lines.subrange(k, lines.len() as int);
    if k + j < lines.len() {
        lemma_read_from_sub(lines, k, j + 1);
        assert(sub[j] == lines[k + j]);
    }
}

/// The byte strings that a list of slices holds.
pub open spec fn lines_view(lines: Seq<&[u8]>) -> Seq<Seq<u8>> {
    lines.map_values(|l: &[u8]| l@)
}

/// The value of a base85 digit, or nothing for a byte outside the alphabet.
pub fn decode_char(c: u8) -> (r: Option<u8>)
    ensures
        r == spec_decode_char(c),
{
    let alphabet = b85_alphabet_bytes();
    let i = find_byte_from(alphabet.as_slice(), c, 0);
    if i < 85 {
        Some(i as u8)
    } else {
        None
    }
}

/// The decoded length that the first byte of a binary data line announces.
pub fn decode_len_char(c: u8) -> (r: Option<usize>)
    ensures
        r == spec_decode_len_char(c),
{
    if 65 <= c && c <= 90 {
        Some((c - 65 + 1) as usize)
    } else if 97 <= c && c <= 122 {
        Some((c - 97 + 27) as usize)
    } else {
        None
    }
}

fn decode_group(g: &[u8], at: usize) -> (r: Option<u32>)
    requires
        at + 5 <= g@.len(),
    ensures
        r matches Some(v) ==> spec_decode_group(g@.subrange(at as int, at + 5)) == Some(v as nat),
        r is None <==> spec_decode_group(g@.subrange(at as int, at + 5)) is None,
{
    reveal(spec_decode_group);
    let ghost s = g@.subrange(at as int, at + 5);
    assert(s[0] == g@[at as int] && s[1] == g@[at + 1] && s[2] == g@[at + 2] && s[3] == g@[at + 3]
        && s[4] == g@[at + 4]);
    let d0 = decode_char(g[at]);
    let d1 = decode_char(g[at + 1]);
    let d2 = decode_char(g[at + 2]);
    let d3 = decode_char(g[at + 3]);
    let d4 = decode_char(g[at + 4]);
    match (d0, d1, d2, d3, d4) {
        (Some(d0), Some(d1), Some(d2), Some(d3), Some(d4)) => {
            let v: u64 = (((d0 as u64 * 85 + d1 as u64) * 85 + d2 as u64) * 85 + d3 as u64) * 85
                + d4 as u64;
            if v > 0xffff_ffffu64 {
                None
            } else {
                Some(v as u32)
            }
        },
        _ => None,
    }
}

fn push_be_bytes(out: &mut Vec<u8>, v: u32)
    ensures
        final(out)@ == old(out)@ + be_bytes(v as nat),
{
    reveal(be_bytes);
    let ghost before = out@;
    out.push((v / 16777216 % 256) as u8);
    out.push((v / 65536 % 256) as u8);
    out.push((v / 256 % 256) as u8);
    out.push((v % 256) as u8);
    assert(out@ =~= before + be_bytes(v as nat));
}

/// Decodes one non-empty line of a git binary patch.
pub fn decode_line(line: &[u8]) -> (r: Option<Vec<u8>>)
    requires
        line@.len() > 0,
    ensures
        r matches Some(v) ==> spec_decode_line(line@) == Some(v@),
        r is None <==> spec_decode_line(line@) is None,
{
    let expected_len = match decode_len_char(line[0]) {
        Some(n) => n,
        None => return None,
    };
    let data = &line[1..line.len()];
    assert(data@ =~= line@.drop_first());
    let mut out: Vec<u8> = Vec::new();
    let mut i: usize = 0;
    while data.len() - i >= 5
        invariant
            i <= data@.len(),
            data@.len() == data.len(),
            data@ == line@.drop_first(),
            spec_decode_len_char(line@[0]) == Some(expected_len),
            spec_decode_groups(data@, 0) == match spec_decode_groups(data@, i as int) {
                None => None,
                Some(rest) => Some(out@ + rest),
            },
        decreases data@.len() - i,
    {
        let ghost before = out@;
        match decode_group(data, i) {
            Some(v) => {
                push_be_bytes(&mut out, v);
                proof {
                    match spec_decode_groups(data@, i + 5) {
                        None => {},
                        Some(rest) => {
                            assert(before + (be_bytes(v as nat) + rest) =~= out@ + rest);
                        },
                    }
                }
            },
            None => {
                assert(spec_decode_groups(data@, i as int) is None);
                assert(spec_decode_groups(data@, 0) is None);
                return None;
            },
        }
        i += 5;
    }
    assert(out@ + Seq::<u8>::empty() =~= out@);
    if out.len() > expected_len {
        out.truncate(expected_len);
    }
    Some(out)
}

/// The number that five base85 digits spell, each taken by its place in the
/// alphabet.
pub open spec fn digits_value(g: Seq<u8>) -> nat {
    let d = |j: int| spec_decode_char(g[j]).unwrap() as nat;
    (((d(0) * 85 + d(1)) * 85 + d(2)) * 85 + d(3)) * 85 + d(4)
}

/// A group of five bytes is invalid exactly when one of them is not a
/// base85 digit or the number they spell does not fit in 32 bits.
pub proof fn lemma_group_invalid(g: Seq<u8>)
    requires
        g.len() == 5,
    ensures
        spec_decode_group(g) is None <==> (exists|j: int| 0 <= j < 5 && (#[trigger] spec_decode_char(g[j])) is None)
            || digits_value(g) > u32::MAX,
        spec_decode_group(g) matches Some(v) ==> v == digits_value(g),
{
    reveal(spec_decode_group);
    if spec_decode_char(g[0]) is None {
        assert(spec_decode_char(g[0]) is None);
    }
    if spec_decode_char(g[1]) is None {
        assert(spec_decode_char(g[1]) is None);
    }
    if spec_decode_char(g[2]) is None {
        assert(spec_decode_char(g[2]) is None);
    }
    if spec_decode_char(g[3]) is None {
        assert(spec_decode_char(g[3]) is None);
    }
    if spec_decode_char(g[4]) is None {
        assert(spec_decode_char(g[4]) is None);
    }
}

/// The complete groups of `data` from `i` on decode when each does: to
/// four big-endian bytes per group, in order.
pub proof fn lemma_decode_groups(data: Seq<u8>, i: int)
    requires
        0 <= i <= data.len(),
    ensures
        spec_decode_groups(data, i) is None <==> exists|g: int|
            0 <= g < (data.len() - i) / 5 && (#[trigger] spec_decode_group(data.subrange(i + 5 * g, i + 5 * g + 5)))
                is None,
        spec_decode_groups(data, i) matches Some(b) ==> b.len() == 4 * ((data.len() - i) / 5) && forall|g: int|
            0 <= g < (data.len() - i) / 5 ==> (#[trigger] spec_decode_group(data.subrange(i + 5 * g, i + 5 * g + 5)))
                is Some && b.subrange(4 * g, 4 * g + 4) == be_bytes(
                spec_decode_group(data.subrange(i + 5 * g, i + 5 * g + 5)).unwrap(),
            ),
    decreases data.len() - i,
{
    reveal(be_bytes);
    if i + 5 <= data.len() {
        lemma_decode_groups(data, i + 5);
        assert((data.len() - i) / 5 == (data.len() - (i + 5)) / 5 + 1);
        let first = spec_decode_group(data.subrange(i, i + 5));
        assert(data.subrange(i + 5 * 0, i + 5 * 0 + 5) == data.subrange(i, i + 5));
        assert forall|g: int| 1 <= g < (data.len() - i) / 5 implies #[trigger] spec_decode_group(
            data.subrange(i + 5 * g, i + 5 * g + 5),
        ) == spec_decode_group(data.subrange((i + 5) + 5 * (g - 1), (i + 5) + 5 * (g - 1) + 5)) by {
            assert(i + 5 * g == (i + 5) + 5 * (g - 1));
        }
        match first {
            None => {},
            Some(v) => match spec_decode_groups(data, i + 5) {
                None => {
                    let g2 = choose|g: int|
                        0 <= g < (data.len() - (i + 5)) / 5 && (#[trigger] spec_decode_group(
                            data.subrange((i + 5) + 5 * g, (i + 5) + 5 * g + 5),
                        )) is None;
                    assert(spec_decode_group(data.subrange(i + 5 * (g2 + 1), i + 5 * (g2 + 1) + 5)) is None);
                },
                Some(rest) => {
                    let b = be_bytes(v) + rest;
                    assert forall|g: int| 0 <= g < (data.len() - i) / 5 implies (#[trigger] spec_decode_group(
                        data.subrange(i + 5 * g, i + 5 * g + 5),
                    )) is Some by {
                        if g > 0 {
                            assert(spec_decode_group(data.subrange((i + 5) + 5 * (g - 1), (i + 5) + 5 * (g - 1) + 5)) is Some);
                        }
                    }
                    assert forall|g: int| 0 <= g < (data.len() - i) / 5 implies (#[trigger] spec_decode_group(
                        data.subrange(i + 5 * g, i + 5 * g + 5),
                    )) is Some && b.subrange(4 * g, 4 * g + 4) == be_bytes(
                        spec_decode_group(data.subrange(i + 5 * g, i + 5 * g + 5)).unwrap(),
                    ) by {
                        if g == 0 {
                            assert(b.subrange(0, 4) =~= be_bytes(v));
                        } else {
                            assert(spec_decode_group(data.subrange((i + 5) + 5 * (g - 1), (i + 5) + 5 * (g - 1) + 5)) is Some);
                            assert(b.subrange(4 * g, 4 * g + 4) =~= rest.subrange(4 * (g - 1), 4 * (g - 1) + 4));
                        }
                    }
                },
            },
        }
    } else {
        assert((data.len() - i) / 5 == 0);
    }
}

/// A non-empty data line decodes when its first byte announces a length
/// and every complete group of the rest decodes; it then gives the bytes of
/// its groups (four per group, big-endian), cut to the announced length.
pub proof fn lemma_decode_line(l: Seq<u8>)
    requires
        l.len() > 0,
    ensures
        spec_decode_line(l) is None <==> spec_decode_len_char(l[0]) is None || exists|g: int|
            0 <= g < (l.len() - 1) / 5 && (#[trigger] spec_decode_group(l.subrange(1 + 5 * g, 1 + 5 * g + 5))) is None,
        spec_decode_line(l) matches Some(v) ==> (spec_decode_groups(l.drop_first(), 0) matches Some(b)
            && v == b.subrange(0, if b.len() > spec_decode_len_char(l[0]).unwrap() {
            spec_decode_len_char(l[0]).unwrap() as int
        } else {
            b.len() as int
        })),
{
    let data = l.drop_first();
    lemma_decode_groups(data, 0);
    assert forall|g: int| 0 <= g < (l.len() - 1) / 5 implies #[trigger] spec_decode_group(
        l.subrange(1 + 5 * g, 1 + 5 * g + 5),
    ) == spec_decode_group(data.subrange(0 + 5 * g, 0 + 5 * g + 5)) by {
        assert(l.subrange(1 + 5 * g, 1 + 5 * g + 5) =~= data.subrange(0 + 5 * g, 0 + 5 * g + 5));
    }
    if spec_decode_groups(data, 0) is None {
        let g = choose|g: int| 0 <= g < (data.len() - 0) / 5 && (#[trigger] spec_decode_group(data.subrange(0 + 5 * g, 0 + 5 * g + 5))) is None;
        assert(spec_decode_group(l.subrange(1 + 5 * g, 1 + 5 * g + 5)) is None);
    }
    match spec_decode_groups(data, 0) {
        Some(b) => {
            assert(b.subrange(0, b.len() as int) =~= b);
        },
        None => {},
    }
}

/// Reading the lines to their end meets no invalid line exactly when each
/// non-empty line decodes, and then gives their bytes one after another.
pub proof fn lemma_decode_prefix_all(lines: Seq<Seq<u8>>, i: int)
    requires
        0 <= i <= lines.len(),
    ensures
        !spec_decode_prefix(lines, i).1 <==> spec_decode_lines(lines, i) is Some,
        spec_decode_lines(lines, i) matches Some(v) ==> spec_decode_prefix(lines, i).0 == v,
    decreases lines.len() - i,
{
    if i < lines.len() {
        lemma_decode_prefix_all(lines, i + 1);
    }
}

/// A line of a binary fragment that is not valid base85: its length
/// character or one of its characters is outside the alphabet. It stands
/// for an `InvalidData` failure of the reader.
#[derive(Debug, Clone, Copy, PartialEq, Eq, Structural)]
pub struct InvalidBinaryLineError;

/// Reads the lines of a git binary patch in base85 and hands out what they
/// decode to, one non-empty line at a time.
pub struct Base85Reader<'a> {
    lines: &'a [&'a [u8]],
    next: usize,
}

impl<'a> Base85Reader<'a> {
    /// The lines that the reader has yet to decode.
    pub closed spec fn remaining(&self) -> Seq<Seq<u8>> {
        lines_view(self.lines@).subrange(self.next as int, self.lines@.len() as int)
    }

    pub closed spec fn wf(&self) -> bool {
        self.next <= self.lines@.len()
    }

    /// A reader at the first of `lines`.
    pub fn new(lines: &'a [&'a [u8]]) -> (r: Self)
        ensures
            r.wf(),
            r.remaining() == lines_view(lines@),
    {
        let r = Base85Reader { lines, next: 0 };
        assert(r.remaining() =~= lines_view(lines@));
        r
    }

    /// Appends to `out` what the next non-empty line decodes to and returns how
    /// many bytes that is, or 0 when no line is left; a line that is not valid
    /// base85 is an `InvalidBinaryLineError`. See `spec_read_from`.
    pub fn read(&mut self, out: &mut Vec<u8>) -> (r: Result<usize, InvalidBinaryLineError>)
        requires
            old(self).wf(),
        ensures
            final(self).wf(),
            r is Err <==> spec_read_from(old(self).remaining(), 0) is Err,
            r is Err ==> final(out)@ == old(out)@,
            r is Ok ==> (spec_read_from(old(self).remaining(), 0) matches Ok((b, k)) && {
                &&& final(out)@ == old(out)@ + b
                &&& final(self).remaining() == old(self).remaining().subrange(k, old(self).remaining().len() as int)
            }),
            r matches Ok(n) ==> {
                &&& final(out)@.len() == old(out)@.len() + n
                &&& final(out)@.subrange(0, old(out)@.len() as int) == old(out)@
                &&& spec_decode_lines(old(self).remaining(), 0) == match spec_decode_lines(final(self).remaining(), 0) {
                    None => None,
                    Some(rest) => Some(final(out)@.subrange(old(out)@.len() as int, final(out)@.len() as int) + rest),
                }
                &&& (n == 0 ==> final(self).remaining().len() == 0)
                &&& (n > 0 ==> final(self).remaining().len() < old(self).remaining().len())
            },
            r is Err ==> spec_decode_lines(
                old(self).remaining(),
                0,
            ) is None,
    {
        proof {
            lemma_decode_lines_shift(lines_view(self.lines@), self.next as int);
            lemma_read_from_sub(lines_view(self.lines@), self.next as int, 0);
        }
        let ghost lv = lines_view(self.lines@);
        while self.next < self.lines.len()
            invariant
                self.next <= self.lines@.len(),
                self.lines == old(self).lines,
                lv == lines_view(self.lines@),
                *out == *old(out),
                old(self).next <= self.next,
                spec_read_from(lv, old(self).next as int) == spec_read_from(lv, self.next as int),
                spec_decode_lines(old(self).remaining(), 0) == spec_decode_lines(
                    lines_view(self.lines@),
                    self.next as int,
                ),
            decreases self.lines@.len() - self.next,
        {
            let line = self.lines[self.next];
            assert(lines_view(self.lines@)[self.next as int] == line@);
            if line.len() == 0 {
                self.next += 1;
                continue;
            }
            self.next += 1;
            proof {
                lemma_decode_lines_shift(lines_view(self.lines@), self.next as int);
            }
            match decode_line(line) {
                Some(bytes) => {
                    if bytes.len() == 0 {
                        assert(Seq::<u8>::empty() + Seq::<u8>::empty() =~= Seq::<u8>::empty());
                        continue;
                    }
                    let ghost before = out@;
                    let n = bytes.len();
                    let mut j: usize = 0;
                    while j < bytes.len()
                        invariant
                            j <= bytes@.len(),
                            out@ == before + bytes@.subrange(0, j as int),
                        decreases bytes@.len() - j,
                    {
                        out.push(bytes[j]);
                        j += 1;
                        assert(out@ =~= before + bytes@.subrange(0, j as int));
                    }
                    assert(bytes@.subrange(0, j as int) =~= bytes@);
                    assert(out@.subrange(0, before.len() as int) =~= before);
                    assert(out@.subrange(before.len() as int, out@.len() as int) =~= bytes@);
                    assert(out@ =~= before + bytes@);
                    proof {
                        let on = old(self).next as int;
                        lemma_read_from_sub(lv, on, 0);
                        assert(old(self).remaining() == lv.subrange(on, lv.len() as int));
                        assert(self.remaining() =~= old(self).remaining().subrange(
                            self.next - on,
                            old(self).remaining().len() as int,
                        ));
                    }
                    return Ok(n);
                },
                None => {
                    proof {
                        lemma_read_from_sub(lv, old(self).next as int, 0);
                    }
                    return Err(InvalidBinaryLineError);
                },
            }
        }
        proof {
            let on = old(self).next as int;
            lemma_read_from_sub(lv, on, 0);
            assert(old(self).remaining() == lv.subrange(on, lv.len() as int));
            assert(out@ =~= old(out)@ + Seq::<u8>::empty());
            assert(self.remaining() =~= Seq::<Seq<u8>>::empty());
            assert(out@.subrange(0, out@.len() as int) =~= out@);
            assert(out@.subrange(out@.len() as int, out@.len() as int) + Seq::<u8>::empty() =~= Seq::<u8>::empty());
        }
        Ok(0)
    }
}

proof fn lemma_decode_lines_shift(lines: Seq<Seq<u8>>, k: int)
    requires
        0 <= k <= lines.len(),
    ensures
        spec_decode_lines(lines.subrange(k, lines.len() as int), 0) == spec_decode_lines(lines, k),
    decreases lines.len() - k,
{
    let sub = lines.subrange(k, lines.len() as int);
    if k < lines.len() {
        lemma_decode_lines_shift(lines, k + 1);
        lemma_decode_lines_sub(lines, k, 1);
    }
}

proof fn lemma_decode_lines_sub(lines: Seq<Seq<u8>>, k: int, j: int)
    requires
        0 <= k <= lines.len(),
        0 <= j <= lines.len() - k,
    ensures
        spec_decode_lines(lines.subrange(k, lines.len() as int), j) == spec_decode_lines(lines, k + j),
    decreases lines.len() - k - j,
{
    let sub = lines.subrange(k, lines.len() as int);
    if k + j < lines.len() {
        lemma_decode_lines_sub(lines, k, j + 1);
        assert(sub[j] == lines[k + j]);
    }
}

/// The bytes that the lines from index `i` on decode to, read up to the
/// first line that is not valid base85 (empty lines skipped), and whether
/// such a line stopped the reading.
pub open spec fn spec_decode_prefix(lines: Seq<Seq<u8>>, i: int) -> (Seq<u8>, bool)
    decreases lines.len() - i,
{
    if i < 0 || i >= lines.len() {
        (Seq::empty(), false)
    } else if lines[i].len() == 0 {
        spec_decode_prefix(lines, i + 1)
    } else {
        match spec_decode_line(lines[i]) {
            None => (Seq::empty(), true),
            Some(d) => {
                let (rest, bad) = spec_decode_prefix(lines, i + 1);
                (d + rest, bad)
            },
        }
    }
}

proof fn lemma_decode_prefix_sub(lines: Seq<Seq<u8>>, k: int, j: int)
    requires
        0 <= k <= lines.len(),
        0 <= j <= lines.len() - k,
    ensures
        spec_decode_prefix(lines.subrange(k, lines.len() as int), j) == spec_decode_prefix(lines, k + j),
    decreases lines.len() - k - j,
{
    let sub = lines.subrange(k, lines.len() as int);
    if k + j < lines.len() {
        lemma_decode_prefix_sub(lines, k, j + 1);
        assert(sub[j] == lines[k + j]);
    }
}

proof fn lemma_read_prefix(lines: Seq<Seq<u8>>, i: int)
    requires
        0 <= i <= lines.len(),
    ensures
        spec_read_from(lines, i) matches Err(()) ==> spec_decode_prefix(lines, i) == (Seq::<u8>::empty(), true),
        spec_read_from(lines, i) matches Ok((b, k)) ==> i <= k <= lines.len() && spec_decode_prefix(lines, i) == (
            b + spec_decode_prefix(lines, k).0,
            spec_decode_prefix(lines, k).1,
        ),
    decreases lines.len() - i,
{
    if i >= lines.len() {
        assert(Seq::<u8>::empty() + Seq::<u8>::empty() =~= Seq::<u8>::empty());
    } else if lines[i].len() == 0 {
        lemma_read_prefix(lines, i + 1);
    } else {
        match spec_decode_line(lines[i]) {
            None => {},
            Some(d) => {
                lemma_read_prefix(lines, i + 1);
                if d.len() == 0 {
                    let (rest, bad) = spec_decode_prefix(lines, i + 1);
                    assert(d + rest =~= rest);
                    match spec_read_from(lines, i + 1) {
                        Ok((b, k)) => {
                            assert(d + (b + spec_decode_prefix(lines, k).0) =~= b + spec_decode_prefix(lines, k).0);
                        },
                        Err(()) => {},
                    }
                }
            },
        }
    }
}

/// Decodes the lines of a git binary patch from base85 through a
/// `Base85Reader`, up to the first line that is not valid; see
/// `spec_decode_prefix`.
pub fn decode_lines(lines: &[&[u8]]) -> (r: (Vec<u8>, bool))
    ensures
        (r.0@, r.1) == spec_decode_prefix(lines_view(lines@), 0),
{
    let mut reader = Base85Reader::new(lines);
    let mut out: Vec<u8> = Vec::new();
    proof {
        assert(out@ + spec_decode_prefix(reader.remaining(), 0).0 =~= spec_decode_prefix(reader.remaining(), 0).0);
    }
    loop
        invariant
            reader.wf(),
            spec_decode_prefix(lines_view(lines@), 0) == (
                out@ + spec_decode_prefix(reader.remaining(), 0).0,
                spec_decode_prefix(reader.remaining(), 0).1,
            ),
        decreases reader.remaining().len(),
    {
        let ghost before = out@;
        let ghost rem = reader.remaining();
        proof {
            lemma_read_prefix(rem, 0);
        }
        match reader.read(&mut out) {
            Err(_) => {
                proof {
                    assert(before + Seq::<u8>::empty() =~= before);
                }
                return (out, true);
            },
            Ok(n) => {
                let ghost (b, k) = spec_read_from(rem, 0).unwrap();
                proof {
                    lemma_decode_prefix_sub(rem, k, 0);
                    assert(before + (b + spec_decode_prefix(rem, k).0) =~= out@ + spec_decode_prefix(
                        reader.remaining(),
                        0,
                    ).0);
                }
                if n == 0 {
                    proof {
                        assert(reader.remaining().len() == 0);
                        assert(spec_decode_prefix(reader.remaining(), 0) == (Seq::<u8>::empty(), false));
                        assert(out@ + Seq::<u8>::empty() =~= out@);
                    }
                    return (out, false);
                }
            },
        }
    }
}

/// What the data lines of a binary fragment yield when read as a stream:
/// the lines are decoded from base85 up to the first that is not valid, and
/// the bytes inflated as a zlib stream read a byte at a time. The stream
/// ends cleanly (`None`) or with the kind of the error that stopped it. A
/// line that is not valid base85 is read, and stops the stream with
/// `InvalidData`, only once the decoder has taken in every byte before it:
/// when it runs out of input (`UnexpectedEof`), or when the zlib stream
/// ends exactly there; a stream that broke earlier, or ended with input
/// left over, never reaches it.
pub open spec fn spec_fragment_stream(lines: Seq<Seq<u8>>) -> (Seq<u8>, Option<IoKind>) {
    let (z, bad) = spec_decode_prefix(lines, 0);
    let (s, e, used) = zlib_stream(z);
    (s, if bad && (e == Some(IoKind::UnexpectedEof) || (e is None && used == z.len())) {
        Some(IoKind::InvalidData)
    } else {
        e
    })
}

/// Reads the data lines of a binary fragment as a stream: base85, then
/// zlib; see `spec_fragment_stream`.
pub fn new_base85_decoder(lines: &[&[u8]]) -> (r: (Vec<u8>, Option<IoKind>))
    ensures
        (r.0@, r.1) == spec_fragment_stream(lines_view(lines@)),
{
    let (z, bad) = decode_lines(lines);
    let (s, e, used) = inflate_stream(z.as_slice());
    let e2 = if bad && (e == Some(IoKind::UnexpectedEof) || (e.is_none() && used == z.len())) {
        Some(IoKind::InvalidData)
    } else {
        e
    };
    (s, e2)
}

/// The bytes that a literal binary fragment stands for: the stream of its
/// lines read to its end. A line that is not valid base85 is an
/// `InvalidBinaryFilesLine` error, a broken zlib stream an I/O error.
pub open spec fn spec_decode_base85(lines: Seq<Seq<u8>>) -> Result<Seq<u8>, ErrorKind> {
    match spec_fragment_stream(lines) {
        (v, None) => Ok(v),
        (_, Some(IoKind::InvalidData)) => Err(ErrorKind::InvalidBinaryFilesLine),
        (_, Some(k)) => Err(ErrorKind::Io(k)),
    }
}

/// Decodes the lines of a literal binary fragment; see `spec_decode_base85`.
pub fn decode_base85(lines: &[&[u8]]) -> (r: Result<Vec<u8>, Error>)
    ensures
        match r {
            Ok(v) => spec_decode_base85(lines_view(lines@)) == Ok::<Seq<u8>, ErrorKind>(v@),
            Err(e) => e.line is None && spec_decode_base85(lines_view(lines@)) == Err::<Seq<u8>, ErrorKind>(e.kind),
        },
{
    match new_base85_decoder(lines) {
        (v, None) => Ok(v),
        (_, Some(IoKind::InvalidData)) => Err(Error::new(ErrorKind::InvalidBinaryFilesLine)),
        (_, Some(k)) => Err(Error::new(ErrorKind::Io(k))),
    }
}

// ---------------------------------------------------------------------------
// Git's binary delta format
// ---------------------------------------------------------------------------

/// Reads a little-endian base-128 number from `d` at `pos`, with `acc` the
/// bits read so far and `shift` where the next seven go. At most ten bytes
/// are read; a number that would need more is invalid.
pub open spec fn spec_varint_from(d: Seq<u8>, pos: int, acc: u64, shift: nat) -> Result<
    (u64, int),
    ErrorKind,
>
    decreases 70 - shift,
{
    if shift >= 64 {
        Err(ErrorKind::InvalidBinaryPatch)
    } else if pos < 0 || pos >= d.len() {
        Err(ErrorKind::Io(IoKind::UnexpectedEof))
    } else {
        let b = d[pos];
        let acc2 = acc | (((b & 0x7fu8) as u64) << (shift as u64));
        if b & 0x80u8 == 0 {
            Ok((acc2, pos + 1))
        } else {
            spec_varint_from(d, pos + 1, acc2, shift + 7)
        }
    }
}

/// Reads a variable-length number from `d` at `pos`: the value and the offset after it.
pub open spec fn spec_varint(d: Seq<u8>, pos: int) -> Result<(u64, int), ErrorKind> {
    spec_varint_from(d, pos, 0, 0)
}

/// One argument byte of a copy command: when the command has `bit` set, the
/// next byte of the delta, else zero; nothing when the delta has run out.
pub open spec fn copy_arg(d: Seq<u8>, cmd: u8, bit: u8, pos: int) -> Option<(nat, int)> {
    if cmd & bit == 0 {
        Some((0, pos))
    } else if 0 <= pos < d.len() {
        Some((d[pos] as nat, pos + 1))
    } else {
        None
    }
}

/// The offset and size of a copy command whose argument bytes start at
/// `pos`, and the offset after them. Bits 0..3 of the command select the
/// bytes of the offset, bits 4..6 those of the size, low byte first; a size
/// of zero stands for 0x10000.
pub open spec fn spec_copy_args(d: Seq<u8>, cmd: u8, pos: int) -> Option<(nat, nat, int)> {
    match copy_arg(d, cmd, 1, pos) {
        None => None,
        Some((o0, p1)) => match copy_arg(d, cmd, 2, p1) {
            None => None,
            Some((o1, p2)) => match copy_arg(d, cmd, 4, p2) {
                None => None,
                Some((o2, p3)) => match copy_arg(d, cmd, 8, p3) {
                    None => None,
                    Some((o3, p4)) => match copy_arg(d, cmd, 16, p4) {
                        None => None,
                        Some((s0, p5)) => match copy_arg(d, cmd, 32, p5) {
                            None => None,
                            Some((s1, p6)) => match copy_arg(d, cmd, 64, p6) {
                                None => None,
                                Some((s2, p7)) => {
                                    let size = s0 + s1 * 256 + s2 * 65536;
                                    Some(
                                        (
                                            o0 + o1 * 256 + o2 * 65536 + o3 * 16777216,
                                            if size == 0 {
                                                0x10000nat
                                            } else {
                                                size
                                            },
                                            p7,
                                        ),
                                    )
                                },
                            },
                        },
                    },
                },
            },
        },
    }
}

/// The kind of error that reading past the end of a stream gives: the error
/// that ended it, or `UnexpectedEof` when it ended cleanly.
pub open spec fn eof_kind(end: Option<IoKind>) -> IoKind {
    match end {
        Some(k) => k,
        None => IoKind::UnexpectedEof,
    }
}

/// The bit of a copy command that selects argument byte `k`: bits 0 to 3
/// the bytes of the offset, bits 4 to 6 those of the size.
pub open spec fn arg_bit(k: int) -> u8 {
    if k == 0 {
        1u8
    } else if k == 1 {
        2u8
    } else if k == 2 {
        4u8
    } else if k == 3 {
        8u8
    } else if k == 4 {
        16u8
    } else if k == 5 {
        32u8
    } else if k == 6 {
        64u8
    } else {
        0u8
    }
}

/// How many argument bytes a copy command selects before argument `k`.
pub open spec fn args_before(cmd: u8, k: int) -> int
    decreases k,
{
    if k <= 0 {
        0
    } else {
        args_before(cmd, k - 1) + if cmd & arg_bit(k - 1) != 0 {
            1int
        } else {
            0int
        }
    }
}

/// Argument byte `k` of a copy command whose argument bytes start at `pos`:
/// the next unread byte when the command selects it, else zero.
pub open spec fn arg_byte(d: Seq<u8>, cmd: u8, pos: int, k: int) -> nat {
    if cmd & arg_bit(k) != 0 {
        d[pos + args_before(cmd, k)] as nat
    } else {
        0
    }
}

/// The arguments of a copy command are the bytes it selects, read in order
/// after it and taken little-endian: the offset is `b0 + 256 b1 + 65536 b2 +
/// 16777216 b3` and the size `b4 + 256 b5 + 65536 b6` (zero meaning
/// 0x10000), where an unselected byte counts as zero. They are there
/// exactly when the delta holds every selected byte.
pub proof fn lemma_copy_args_little_endian(d: Seq<u8>, cmd: u8, pos: int)
    requires
        0 <= pos <= d.len(),
    ensures
        spec_copy_args(d, cmd, pos) is Some <==> pos + args_before(cmd, 7) <= d.len(),
        spec_copy_args(d, cmd, pos) matches Some((offset, size, next)) ==> {
            let raw = arg_byte(d, cmd, pos, 4) + 256 * arg_byte(d, cmd, pos, 5) + 65536 * arg_byte(d, cmd, pos, 6);
            &&& offset == arg_byte(d, cmd, pos, 0) + 256 * arg_byte(d, cmd, pos, 1) + 65536 * arg_byte(d, cmd, pos, 2)
                + 16777216 * arg_byte(d, cmd, pos, 3)
            &&& size == if raw == 0 { 0x10000nat } else { raw }
            &&& next == pos + args_before(cmd, 7)
        },
{
    reveal_with_fuel(args_before, 8);
    let p0 = pos;
    let p1 = pos + args_before(cmd, 1);
    let p2 = pos + args_before(cmd, 2);
    let p3 = pos + args_before(cmd, 3);
    let p4 = pos + args_before(cmd, 4);
    let p5 = pos + args_before(cmd, 5);
    let p6 = pos + args_before(cmd, 6);
    let p7 = pos + args_before(cmd, 7);
    assert(p0 <= p1 <= p2 <= p3 <= p4 <= p5 <= p6 <= p7);
    assert(copy_arg(d, cmd, 1, p0) == (if cmd & 1u8 == 0 { Some((0nat, p0)) } else if p0 < d.len() { Some((d[p0] as nat, p1)) } else { None }));
    assert(copy_arg(d, cmd, 2, p1) == (if cmd & 2u8 == 0 { Some((0nat, p1)) } else if p1 < d.len() { Some((d[p1] as nat, p2)) } else { None }));
    assert(copy_arg(d, cmd, 4, p2) == (if cmd & 4u8 == 0 { Some((0nat, p2)) } else if p2 < d.len() { Some((d[p2] as nat, p3)) } else { None }));
    assert(copy_arg(d, cmd, 8, p3) == (if cmd & 8u8 == 0 { Some((0nat, p3)) } else if p3 < d.len() { Some((d[p3] as nat, p4)) } else { None }));
    assert(copy_arg(d, cmd, 16, p4) == (if cmd & 16u8 == 0 { Some((0nat, p4)) } else if p4 < d.len() { Some((d[p4] as nat, p5)) } else { None }));
    assert(copy_arg(d, cmd, 32, p5) == (if cmd & 32u8 == 0 { Some((0nat, p5)) } else if p5 < d.len() { Some((d[p5] as nat, p6)) } else { None }));
    assert(copy_arg(d, cmd, 64, p6) == (if cmd & 64u8 == 0 { Some((0nat, p6)) } else if p6 < d.len() { Some((d[p6] as nat, p7)) } else { None }));
}

/// Runs the commands of a delta `d` (a stream that ends as `end` says) from
/// `pos` on: a command byte below 0x80 inserts that many following bytes of
/// the delta, one with bit 7 set copies a range of the source, and a zero
/// byte is invalid. Reading past the end of the stream stops at a command
/// byte; within a copy's arguments it fails with `eof_kind(end)`, and
/// within an insert with the error that ended the stream, while an insert
/// cut short by a clean end inserts the bytes that are left. `written`
/// counts the bytes the commands announce; at the end it must equal the
/// target size.
pub open spec fn spec_run_delta(
    d: Seq<u8>,
    end: Option<IoKind>,
    pos: int,
    src: Seq<u8>,
    out: Seq<u8>,
    written: int,
    target: u64,
) -> Result<Seq<u8>, ErrorKind>
    decreases d.len() - pos,
{
    if pos < 0 || pos >= d.len() {
        if written == target {
            Ok(out)
        } else {
            Err(ErrorKind::InvalidBinaryPatch)
        }
    } else {
        let cmd = d[pos];
        if cmd & 0x80u8 == 0 {
            if cmd == 0 {
                Err(ErrorKind::InvalidBinaryPatch)
            } else if pos + 1 + cmd > d.len() {
                match end {
                    Some(k) => Err(ErrorKind::Io(k)),
                    None => spec_run_delta(
                        d,
                        end,
                        d.len() as int,
                        src,
                        out + d.subrange(pos + 1, d.len() as int),
                        written + cmd,
                        target,
                    ),
                }
            } else {
                let stop = pos + 1 + cmd;
                spec_run_delta(d, end, stop, src, out + d.subrange(pos + 1, stop), written + cmd, target)
            }
        } else {
            match spec_copy_args(d, cmd, pos + 1) {
                None => Err(ErrorKind::Io(eof_kind(end))),
                Some((offset, size, next)) => if offset + size > src.len() {
                    Err(ErrorKind::InvalidBinaryPatch)
                } else {
                    spec_run_delta(
                        d,
                        end,
                        next,
                        src,
                        out + src.subrange(offset as int, (offset + size) as int),
                        written + size,
                        target,
                    )
                },
            }
        }
    }
}

/// What applying the delta stream `d` (which ends as `end` says) to `src`
/// yields. The delta starts with the source size and the target size; a
/// source size that the stream ends cleanly before, or that differs from
/// the source's, means the delta is not meant for this source.
pub open spec fn spec_apply_delta(d: Seq<u8>, end: Option<IoKind>, src: Seq<u8>) -> Result<Seq<u8>, ErrorKind> {
    match spec_varint(d, 0) {
        Err(ErrorKind::Io(IoKind::UnexpectedEof)) => if eof_kind(end) == IoKind::UnexpectedEof {
            Err(ErrorKind::BinaryPatchSourceMismatch)
        } else {
            Err(ErrorKind::Io(eof_kind(end)))
        },
        Err(k) => Err(k),
        Ok((source_size, p1)) => if source_size != src.len() {
            Err(ErrorKind::BinaryPatchSourceMismatch)
        } else {
            match spec_varint(d, p1) {
                Err(ErrorKind::Io(IoKind::UnexpectedEof)) => Err(ErrorKind::Io(eof_kind(end))),
                Err(k) => Err(k),
                Ok((target_size, p2)) => spec_run_delta(d, end, p2, src, Seq::empty(), 0, target_size),
            }
        }
    }
}

proof fn lemma_run_delta_len(
    d: Seq<u8>,
    end: Option<IoKind>,
    pos: int,
    src: Seq<u8>,
    out: Seq<u8>,
    written: int,
    target: u64,
)
    requires
        out.len() <= written,
    ensures
        spec_run_delta(d, end, pos, src, out, written, target) matches Ok(o) ==> o.len() <= target,
    decreases d.len() - pos,
{
    if 0 <= pos < d.len() {
        let cmd = d[pos];
        if cmd & 0x80u8 == 0 {
            if cmd != 0 {
                let stop = if pos + 1 + cmd > d.len() {
                    d.len() as int
                } else {
                    pos + 1 + cmd
                };
                lemma_run_delta_len(d, end, stop, src, out + d.subrange(pos + 1, stop), written + cmd, target);
            }
        } else {
            match spec_copy_args(d, cmd, pos + 1) {
                None => {},
                Some((offset, size, next)) => if offset + size <= src.len() {
                    lemma_run_delta_len(
                        d,
                        end,
                        next,
                        src,
                        out + src.subrange(offset as int, (offset + size) as int),
                        written + size,
                        target,
                    );
                },
            }
        }
    }
}

/// A delta that applies builds no more bytes than its target size, the
/// second number it starts with (fewer only when an insert runs past the
/// end of the delta).
pub proof fn lemma_apply_delta_len(d: Seq<u8>, end: Option<IoKind>, src: Seq<u8>)
    ensures
        spec_apply_delta(d, end, src) matches Ok(o) ==> (spec_varint(d, 0) matches Ok((_, p1)) && (spec_varint(d, p1) matches Ok((t, _)) && o.len() <= t)),
{
    match spec_varint(d, 0) {
        Ok((_, p1)) => match spec_varint(d, p1) {
            Ok((t, p2)) => lemma_run_delta_len(d, end, p2, src, Seq::empty(), 0, t),
            Err(_) => {},
        },
        Err(_) => {},
    }
}

proof fn lemma_varint_pos(d: Seq<u8>, pos: int, acc: u64, shift: nat)
    requires
        0 <= pos,
    ensures
        spec_varint_from(d, pos, acc, shift) matches Ok((_, p)) ==> pos < p <= d.len(),
    decreases 70 - shift,
{
    if shift < 64 && pos < d.len() && d[pos] & 0x80u8 != 0 {
        lemma_varint_pos(d, pos + 1, acc | (((d[pos] & 0x7fu8) as u64) << (shift as u64)), shift + 7);
    }
}

/// Reads a variable-length number from `d` at `pos`.
pub fn read_variable_length_int(d: &[u8], pos: usize) -> (r: Result<(u64, usize), Error>)
    ensures
        r matches Ok((v, p)) ==> spec_varint(d@, pos as int) == Ok::<(u64, int), ErrorKind>(
            (v, p as int),
        ),
        r matches Err(e) ==> e.line is None && spec_varint(d@, pos as int) == Err::<(u64, int), ErrorKind>(
            e.kind,
        ),
        r is Ok <==> spec_varint(d@, pos as int) is Ok,
{
    let mut result: u64 = 0;
    let mut shift: u64 = 0;
    let mut p = pos;
    proof {
        lemma_varint_pos(d@, pos as int, 0, 0);
    }
    while shift < 64
        invariant
            spec_varint(d@, pos as int) == spec_varint_from(d@, p as int, result, shift as nat),
            shift <= 70,
        decreases 70 - shift,
    {
        if p >= d.len() {
            return Err(Error::new(ErrorKind::Io(IoKind::UnexpectedEof)));
        }
        let byte = d[p];
        result = result | (((byte & 0x7fu8) as u64) << shift);
        p += 1;
        if byte & 0x80u8 == 0 {
            return Ok((result, p));
        }
        shift += 7;
    }
    Err(Error::new(ErrorKind::InvalidBinaryPatch))
}

fn read_copy_arg(d: &[u8], cmd: u8, bit: u8, pos: usize) -> (r: Option<(u8, usize)>)
    requires
        pos <= d@.len(),
    ensures
        r matches Some((b, p)) ==> copy_arg(d@, cmd, bit, pos as int) == Some((b as nat, p as int)),
        r is None <==> copy_arg(d@, cmd, bit, pos as int) is None,
        r matches Some((b, p)) ==> p <= d@.len(),
{
    if cmd & bit == 0 {
        Some((0, pos))
    } else if pos < d.len() {
        Some((d[pos], pos + 1))
    } else {
        None
    }
}

fn read_copy_args(d: &[u8], cmd: u8, pos: usize) -> (r: Option<(usize, usize, usize)>)
    requires
        pos <= d@.len(),
    ensures
        r matches Some((o, s, p)) ==> spec_copy_args(d@, cmd, pos as int) == Some(
            (o as nat, s as nat, p as int),
        ),
        r is None <==> spec_copy_args(d@, cmd, pos as int) is None,
        r matches Some((o, s, p)) ==> p <= d@.len() && s <= 0x1000000,
{
    let (o0, p1) = match read_copy_arg(d, cmd, 1, pos) {
        Some(x) => x,
        None => return None,
    };
    let (o1, p2) = match read_copy_arg(d, cmd, 2, p1) {
        Some(x) => x,
        None => return None,
    };
    let (o2, p3) = match read_copy_arg(d, cmd, 4, p2) {
        Some(x) => x,
        None => return None,
    };
    let (o3, p4) = match read_copy_arg(d, cmd, 8, p3) {
        Some(x) => x,
        None => return None,
    };
    let (s0, p5) = match read_copy_arg(d, cmd, 16, p4) {
        Some(x) => x,
        None => return None,
    };
    let (s1, p6) = match read_copy_arg(d, cmd, 32, p5) {
        Some(x) => x,
        None => return None,
    };
    let (s2, p7) = match read_copy_arg(d, cmd, 64, p6) {
        Some(x) => x,
        None => return None,
    };
    let offset: u64 = o0 as u64 + o1 as u64 * 256 + o2 as u64 * 65536 + o3 as u64 * 16777216;
    let mut size: usize = s0 as usize + s1 as usize * 256 + s2 as usize * 65536;
    if size == 0 {
        size = 0x10000;
    }
    Some((offset as usize, size, p7))
}

/// Applies the git binary delta `delta` to `source` and returns the bytes it
/// builds. A delta whose declared source size differs from `source` (or that
/// ends before stating it) is `BinaryPatchSourceMismatch`; a malformed one is
/// `InvalidBinaryPatch`.
pub fn apply_delta(delta: &[u8], end: Option<IoKind>, source: &[u8]) -> (r: Result<Vec<u8>, Error>)
    ensures
        r is Ok <==> spec_apply_delta(delta@, end, source@) is Ok,
        r matches Ok(v) ==> spec_apply_delta(delta@, end, source@) == Ok::<Seq<u8>, ErrorKind>(v@),
        r matches Err(e) ==> e.line is None && spec_apply_delta(delta@, end, source@) == Err::<
            Seq<u8>,
            ErrorKind,
        >(e.kind),
{
    let (source_size, p1) = match read_variable_length_int(delta, 0) {
        Ok(x) => x,
        Err(e) => {
            if e.kind == ErrorKind::Io(IoKind::UnexpectedEof) {
                return match end {
                    None | Some(IoKind::UnexpectedEof) => Err(Error::new(ErrorKind::BinaryPatchSourceMismatch)),
                    Some(k) => Err(Error::new(ErrorKind::Io(k))),
                };
            }
            return Err(e);
        },
    };
    if source_size != source.len() as u64 {
        return Err(Error::new(ErrorKind::BinaryPatchSourceMismatch));
    }
    proof {
        lemma_varint_pos(delta@, 0, 0, 0);
    }
    let (target_size, p2) = match read_variable_length_int(delta, p1) {
        Ok(x) => x,
        Err(e) => {
            if e.kind == ErrorKind::Io(IoKind::UnexpectedEof) {
                return match end {
                    None => Err(e),
                    Some(k) => Err(Error::new(ErrorKind::Io(k))),
                };
            }
            return Err(e);
        },
    };
    proof {
        lemma_varint_pos(delta@, p1 as int, 0, 0);
    }
    let mut out: Vec<u8> = Vec::new();
    let mut written: u128 = 0;
    let mut pos = p2;
    while pos < delta.len()
        invariant
            p2 <= pos <= delta@.len(),
            written <= pos * 0x1000000,
            pos <= usize::MAX,
            spec_apply_delta(delta@, end, source@) == spec_run_delta(
                delta@,
                end,
                pos as int,
                source@,
                out@,
                written as int,
                target_size,
            ),
        decreases delta@.len() - pos,
    {
        let cmd = delta[pos];
        if cmd & 0x80u8 == 0 {
            if cmd == 0 {
                return Err(Error::new(ErrorKind::InvalidBinaryPatch));
            }
            let size = cmd as usize;
            let end = if size > delta.len() - (pos + 1) {
                match end {
                    Some(k) => return Err(Error::new(ErrorKind::Io(k))),
                    None => delta.len(),
                }
            } else {
                pos + 1 + size
            };
            let ghost before = out@;
            let mut j = pos + 1;
            while j < end
                invariant
                    pos + 1 <= j <= end <= delta@.len(),
                    out@ == before + delta@.subrange(pos + 1, j as int),
                decreases end - j,
            {
                out.push(delta[j]);
                j += 1;
                assert(out@ =~= before + delta@.subrange(pos + 1, j as int));
            }
            written = written + size as u128;
            pos = end;
        } else {
            let (offset, size, next) = match read_copy_args(delta, cmd, pos + 1) {
                Some(x) => x,
                None => return Err(Error::new(ErrorKind::Io(match end {
                    Some(k) => k,
                    None => IoKind::UnexpectedEof,
                }))),
            };
            if offset > source.len() || size > source.len() - offset {
                return Err(Error::new(ErrorKind::InvalidBinaryPatch));
            }
            let ghost before = out@;
            let stop = offset + size;
            let mut j = offset;
            while j < stop
                invariant
                    stop == offset + size,
                    offset <= j <= offset + size <= source@.len(),
                    out@ == before + source@.subrange(offset as int, j as int),
                decreases stop - j,
            {
                out.push(source[j]);
                j += 1;
                assert(out@ =~= before + source@.subrange(offset as int, j as int));
            }
            written = written + size as u128;
            proof {
                assert(next > pos);
            }
            pos = next;
        }
    }
    if written != target_size as u128 {
        return Err(Error::new(ErrorKind::InvalidBinaryPatch));
    }
    Ok(out)
}

} // verus!
