use vstd::prelude::*;

use crate::bytes::extend_from;

verus! {

/// What a `LineWriter` has written, and whether the last line it wrote still
/// waits for its line break.
#[verifier::ext_equal]
pub ghost struct WriterView {
    pub out: Seq<u8>,
    pub pending: bool,
}

/// The line break that a pending line still owes.
pub open spec fn owed(w: WriterView) -> Seq<u8> {
    if w.pending {
        seq![10u8]
    } else {
        Seq::empty()
    }
}

/// After writing the line `line`: the owed line break, then the line, whose
/// own line break is owed in turn.
pub open spec fn spec_write_line(w: WriterView, line: Seq<u8>) -> WriterView {
    WriterView { out: w.out + owed(w) + line, pending: true }
}

/// After writing the block `block` of whole lines: nothing for an empty
/// block; else the owed line break, then the block, which owes a line break
/// when it does not end with one.
pub open spec fn spec_write_block(w: WriterView, block: Seq<u8>) -> WriterView {
    if block.len() == 0 {
        w
    } else {
        WriterView { out: w.out + owed(w) + block, pending: block.last() != 10u8 }
    }
}

/// After ending the output with a line break: the owed one, if any.
pub open spec fn spec_ensure_newline(w: WriterView) -> WriterView {
    WriterView { out: w.out + owed(w), pending: false }
}

/// Writes lines and blocks of lines into a buffer, putting each line break
/// off until something follows the line, so that the output can end without
/// one.
pub struct LineWriter {
    out: Vec<u8>,
    pending: bool,
}

impl View for LineWriter {
    type V = WriterView;

    closed spec fn view(&self) -> WriterView {
        WriterView { out: self.out@, pending: self.pending }
    }
}

impl LineWriter {
    /// A writer that has written nothing.
    pub fn new() -> (r: Self)
        ensures
            r@ == (WriterView { out: Seq::empty(), pending: false }),
    {
        LineWriter { out: Vec::new(), pending: false }
    }

    /// What has been written so far.
    pub fn output(&self) -> (r: &[u8])
        ensures
            r@ == self@.out,
    {
        self.out.as_slice()
    }

    /// Appends `bytes` as they are, outside the line structure: no line break
    /// owed before is written, and none is owed after.
    pub fn write_bytes(&mut self, bytes: &[u8])
        ensures
            final(self)@ == (WriterView { out: old(self)@.out + bytes@, pending: old(self)@.pending }),
    {
        extend_from(&mut self.out, bytes);
    }

    /// The written bytes.
    pub fn into_output(self) -> (r: Vec<u8>)
        ensures
            r@ == self@.out,
    {
        self.out
    }

    fn pay_owed(&mut self)
        ensures
            final(self)@.out == old(self)@.out + owed(old(self)@),
            final(self)@.pending == old(self)@.pending,
    {
        if self.pending {
            self.out.push(10u8);
        } else {
            assert(self.out@ + Seq::<u8>::empty() =~= self.out@);
        }
    }

    /// Writes the line `line`, without its line break.
    pub fn write_line(&mut self, line: &[u8])
        ensures
            final(self)@ == spec_write_line(old(self)@, line@),
    {
        self.pay_owed();
        extend_from(&mut self.out, line);
        self.pending = true;
    }

    /// Writes the block `block` of whole lines.
    pub fn write_block(&mut self, block: &[u8])
        ensures
            final(self)@ == spec_write_block(old(self)@, block@),
    {
        if block.len() == 0 {
            return;
        }
        self.pay_owed();
        extend_from(&mut self.out, block);
        self.pending = block[block.len() - 1] != 10u8;
    }

    /// Writes the line break that the last line still owes, if any.
    pub fn ensure_newline(&mut self)
        ensures
            final(self)@ == spec_ensure_newline(old(self)@),
    {
        self.pay_owed();
        self.pending = false;
    }
}

} // verus!
