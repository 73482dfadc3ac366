use vstd::prelude::*;

use crate::error::IoKind;

verus! {

// The calls into outside crates. Verus believes the contracts below without
// proof; each names the outside function it stands for.

/// The fields of `s` as `bstr`'s `ByteSlice::fields` yields them: the runs of
/// bytes between runs of Unicode whitespace.
pub uninterp spec fn bstr_fields(s: Seq<u8>) -> Seq<Seq<u8>>;

/// `s` without leading and trailing Unicode whitespace, as `bstr`'s `ByteSlice::trim` gives it.
pub uninterp spec fn bstr_trim(s: Seq<u8>) -> Seq<u8>;

/// `s` without leading Unicode whitespace, as `bstr`'s `ByteSlice::trim_start` gives it.
pub uninterp spec fn bstr_trim_start(s: Seq<u8>) -> Seq<u8>;

/// What `flate2`'s zlib decoder yields for the zlib stream `data` when it is
/// read one byte at a time: the bytes it gives before it stops, the kind of
/// the error that stopped it (none when it came to the stream's end), and how
/// many bytes of `data` it took in.
pub uninterp spec fn zlib_stream(data: Seq<u8>) -> (Seq<u8>, Option<IoKind>, nat);

/// The SHA-1 digest of `data`, as the `sha1` crate computes it.
pub uninterp spec fn sha1_digest(data: Seq<u8>) -> Seq<u8>;

/// Calls `bstr::ByteSlice::fields` and collects the fields it yields. The
/// contract claims only that the result is the list that `bstr_fields` names.
#[verifier::external_body]
pub(crate) fn fields<'a>(s: &'a [u8]) -> (r: Vec<&'a [u8]>)
    ensures
        r@.len() == bstr_fields(s@).len(),
        forall|i: int| 0 <= i < r@.len() ==> (#[trigger] r@[i])@ == bstr_fields(s@)[i],
{
    bstr::ByteSlice::fields(s).collect()
}

/// Calls `bstr::ByteSlice::trim`. The contract claims only that the result is
/// what `bstr_trim` names.
#[verifier::external_body]
pub(crate) fn trim<'a>(s: &'a [u8]) -> (r: &'a [u8])
    ensures
        r@ == bstr_trim(s@),
{
    bstr::ByteSlice::trim(s)
}

/// Calls `bstr::ByteSlice::trim_start`. The contract claims only that the
/// result is what `bstr_trim_start` names.
#[verifier::external_body]
pub(crate) fn trim_start<'a>(s: &'a [u8]) -> (r: &'a [u8])
    ensures
        r@ == bstr_trim_start(s@),
{
    bstr::ByteSlice::trim_start(s)
}

/// Reads the zlib stream `data` one byte at a time through
/// `flate2::read::ZlibDecoder` (`std::io::Read::bytes`), up to its end or the
/// first error, then asks the decoder how much input it took in
/// (`total_in`). The contract claims that the outcome is what `zlib_stream`
/// names, that an error is one of the two kinds that flate2's reader reports
/// over an in-memory input (an incomplete stream, `UnexpectedEof`, or a
/// corrupt one, `InvalidInput`), and that no more than `data` was taken in.
#[verifier::external_body]
pub(crate) fn inflate_stream(data: &[u8]) -> (r: (Vec<u8>, Option<IoKind>, usize))
    ensures
        (r.0@, r.1, r.2 as nat) == zlib_stream(data@),
        r.1 matches Some(k) ==> k == IoKind::UnexpectedEof || k == IoKind::InvalidInput,
        r.2 <= data@.len(),
{
    let mut decoder = flate2::read::ZlibDecoder::new(data);
    let mut out = Vec::new();
    for b in std::io::Read::bytes(&mut decoder) {
        match b {
            Ok(x) => out.push(x),
            Err(e) => return (out, Some(match e.kind() {
                std::io::ErrorKind::UnexpectedEof => IoKind::UnexpectedEof,
                std::io::ErrorKind::InvalidInput => IoKind::InvalidInput,
                _ => IoKind::Other,
            }), decoder.total_in() as usize),
        }
    }
    (out, None, decoder.total_in() as usize)
}

/// Computes the SHA-1 digest of `data` with `sha1::Sha1::digest`. The contract
/// claims that the digest is what `sha1_digest` names and that it is twenty
/// bytes long, the output size that the crate declares.
#[verifier::external_body]
pub(crate) fn sha1(data: &[u8]) -> (r: Vec<u8>)
    ensures
        r@ == sha1_digest(data@),
        r@.len() == 20,
{
    <sha1::Sha1 as sha1::Digest>::digest(data).to_vec()
}

} // verus!
