//! A writer that prefixes every non-empty line of the text written to it,
//! reassembling lines that arrive split across several writes.
//!
//! [`PrefixWriter`] wraps an in-memory byte sink. Bytes written to it are
//! decoded lossily, split at newline bytes, and each complete non-empty line
//! is forwarded as prefix, line, terminator; empty lines stay blank. The
//! segment after the last terminator is held back as the pending remainder
//! until a later write completes it or a flush forwards it. The
//! [`prefix_writer`] module holds an eager variant that prefixes empty lines
//! too.

use vstd::prelude::*;

pub mod lines;
pub mod prefix_writer;

verus! {

use crate::lines::{decode_lossy, effective, emitted, flushed, lossy_of, process, push_range,
    rem_after, rem_view};
use vstd::utf8::encode_utf8;

/// Scans lines and prefixes lines with a given prefix. Works even when a
/// write contains multiple lines or incomplete lines between writes. It will
/// not prefix empty lines.
pub struct PrefixWriter {
    prefix: Vec<u8>,
    writer: Vec<u8>,
    remainder: Option<Vec<u8>>,
}

impl PrefixWriter {
    /// The bytes of the configured prefix.
    pub closed spec fn prefix_bytes(self) -> Seq<u8> {
        self.prefix@
    }

    /// Everything forwarded to the wrapped sink so far.
    pub closed spec fn sink(self) -> Seq<u8> {
        self.writer@
    }

    /// The pending remainder: the bytes written since the most recent line
    /// terminator, not yet forwarded to the sink.
    pub closed spec fn pending(self) -> Option<Seq<u8>> {
        rem_view(self.remainder)
    }

    /// Between calls a pending line, when present, is never empty.
    pub open spec fn wf(self) -> bool {
        match self.pending() {
            Some(r) => r.len() > 0,
            None => true,
        }
    }

    /// Creates a new [`PrefixWriter`] using the prefix for prefixing lines
    /// and the writer as the sink the prefixed lines go to.
    pub fn new(prefix: String, writer: Vec<u8>) -> (w: Self)
        ensures
            w.prefix_bytes() == encode_utf8(prefix@),
            w.sink() == writer@,
            w.pending() is None,
            w.wf(),
    {
        let prefix_bytes = vstd::slice::slice_to_vec(prefix.as_str().as_bytes());
        PrefixWriter { prefix: prefix_bytes, writer, remainder: None }
    }

    /// Set a new prefix for [`PrefixWriter`], keeping sink and pending line.
    pub fn with_prefix(self, prefix: String) -> (w: Self)
        ensures
            w.prefix_bytes() == encode_utf8(prefix@),
            w.sink() == self.sink(),
            w.pending() == self.pending(),
    {
        let prefix_bytes = vstd::slice::slice_to_vec(prefix.as_str().as_bytes());
        PrefixWriter { prefix: prefix_bytes, ..self }
    }

    /// Set a new writer for [`PrefixWriter`], keeping prefix and pending line.
    pub fn with_writer(self, writer: Vec<u8>) -> (w: Self)
        ensures
            w.prefix_bytes() == self.prefix_bytes(),
            w.sink() == writer@,
            w.pending() == self.pending(),
    {
        PrefixWriter { writer, ..self }
    }

    /// Writes arbitrary bytes: they are decoded lossily, the pending
    /// remainder is put before the decoded text, every line the text
    /// completes goes to the sink (prefixed unless empty), and a trailing
    /// incomplete line is held back. The full input always counts as
    /// consumed, whatever was forwarded or buffered.
    pub fn write(&mut self, buf: &[u8]) -> (n: usize)
        ensures
            n == buf@.len(),
            final(self).prefix_bytes() == old(self).prefix_bytes(),
            final(self).sink() == old(self).sink() + emitted(
                old(self).prefix_bytes(),
                effective(old(self).pending(), lossy_of(buf@)),
                false,
            ),
            final(self).pending() == rem_after(effective(old(self).pending(), lossy_of(buf@))),
            final(self).wf(),
    {
        let decoded = decode_lossy(buf);
        self.write_decoded(decoded.as_slice());
        buf.len()
    }

    /// The verified write step on text that is already decoded: exactly
    /// [`Self::write`] after its lossy decoding.
    pub fn write_decoded(&mut self, text: &[u8])
        ensures
            final(self).prefix_bytes() == old(self).prefix_bytes(),
            final(self).sink() == old(self).sink() + emitted(
                old(self).prefix_bytes(),
                effective(old(self).pending(), text@),
                false,
            ),
            final(self).pending() == rem_after(effective(old(self).pending(), text@)),
            final(self).wf(),
    {
        let new_rem = process(&self.prefix, &self.remainder, text, false, &mut self.writer);
        self.remainder = new_rem;
    }

    /// Forwards the pending line to the sink, prefixed, unless it is absent
    /// or empty. The pending line itself is left untouched: the line is still
    /// open, a later write completes it and a later flush forwards it again.
    pub fn flush(&mut self)
        ensures
            final(self).prefix_bytes() == old(self).prefix_bytes(),
            final(self).pending() == old(self).pending(),
            final(self).sink() == old(self).sink() + flushed(
                old(self).prefix_bytes(),
                old(self).pending(),
                false,
            ),
    {
        match &self.remainder {
            Some(r) => {
                if r.len() > 0 {
                    push_range(&mut self.writer, self.prefix.as_slice(), 0, self.prefix.len());
                    push_range(&mut self.writer, r.as_slice(), 0, r.len());
                    proof {
                        assert(self.writer@ =~= old(self).writer@ + (old(self).prefix@ + r@));
                    }
                } else {
                    proof {
                        assert(old(self).writer@ + Seq::<u8>::empty() =~= old(self).writer@);
                    }
                }
            },
            None => {
                proof {
                    assert(old(self).writer@ + Seq::<u8>::empty() =~= old(self).writer@);
                }
            },
        }
        // The wrapped sink is an in-memory buffer; it has no flush of its own.
    }

    /// Borrows the sink: everything forwarded so far.
    pub fn writer(&self) -> (w: &Vec<u8>)
        ensures
            w@ == self.sink(),
    {
        &self.writer
    }

    /// Consumes the adapter and hands the sink back.
    pub fn into_writer(self) -> (w: Vec<u8>)
        ensures
            w@ == self.sink(),
    {
        self.writer
    }
}

} // verus!
