//! The streaming encoder: buffers what it is given and emits full chunks.

use crate::chunking::{
    full_chunks, leftover, lemma_chunk_count, lemma_cut, lemma_short_write, short_chunk,
    write_chunks, write_pending,
};
use crate::frame::{
    frame, frames, lemma_frames_concat, lemma_frames_single, send, terminator,
};
use crate::sink::{refused, took, Sink};
use vstd::arithmetic::div_mod::lemma_fundamental_div_mod_converse;
use vstd::prelude::*;

verus! {

/// The chunk size of an encoder that was not given one.
pub const DEFAULT_CHUNK_SIZE: usize = 8192;

/// An encoder as contracts see it.
pub struct EncoderView<W> {
    /// Where the frames go.
    pub sink: W,
    /// Bytes per emitted chunk.
    pub chunk_size: nat,
    /// Bytes taken in and not yet emitted.
    pub pending: Seq<u8>,
    /// Whether each write ends by emitting whatever is buffered.
    pub eager: bool,
}

/// Splits the incoming data into HTTP chunks.
///
/// Bytes given to `write` are buffered; whenever a full chunk has gathered it
/// is framed and handed to the sink. `finish` emits what is left and the
/// terminator, and gives the sink back. An encoder that is dropped without
/// `finish` leaves its stream unterminated.
pub struct Encoder<W: Sink> {
    // where the frames go
    output: W,
    // bytes per emitted chunk, at least one
    chunks_size: usize,
    // bytes taken in and not yet emitted
    buffer: Vec<u8>,
    // whether each write ends by emitting whatever is buffered, for
    // consumers that must see the data at once
    flush_after_write: bool,
}

impl<W: Sink> View for Encoder<W> {
    type V = EncoderView<W>;

    closed spec fn view(&self) -> EncoderView<W> {
        EncoderView {
            sink: self.output,
            chunk_size: self.chunks_size as nat,
            pending: self.buffer@,
            eager: self.flush_after_write,
        }
    }
}

impl<W: Sink> Encoder<W> {
    /// Well-formedness: the chunk size is at least one byte. The constructors
    /// establish it, and no method changes the chunk size.
    pub open spec fn wf(&self) -> bool {
        self@.chunk_size >= 1
    }

    /// An encoder with the default chunk size.
    pub fn new(output: W) -> (encoder: Encoder<W>)
        ensures
            encoder.wf(),
            encoder@ == (EncoderView {
                sink: output,
                chunk_size: DEFAULT_CHUNK_SIZE as nat,
                pending: Seq::empty(),
                eager: false,
            }),
    {
        Encoder::with_chunks_size(output, DEFAULT_CHUNK_SIZE)
    }

    /// An encoder that emits chunks of `chunks` bytes. A chunk size of zero
    /// is not accepted.
    pub fn with_chunks_size(output: W, chunks: usize) -> (encoder: Encoder<W>)
        requires
            chunks >= 1,
        ensures
            encoder.wf(),
            encoder@ == (EncoderView {
                sink: output,
                chunk_size: chunks as nat,
                pending: Seq::empty(),
                eager: false,
            }),
    {
        Encoder {
            output,
            chunks_size: chunks,
            buffer: Vec::with_capacity(0),
            flush_after_write: false,
        }
    }

    /// An encoder with the default chunk size that ends every write by
    /// emitting whatever is buffered, however short.
    pub fn with_flush_after_write(output: W) -> (encoder: Encoder<W>)
        ensures
            encoder.wf(),
            encoder@ == (EncoderView {
                sink: output,
                chunk_size: DEFAULT_CHUNK_SIZE as nat,
                pending: Seq::empty(),
                eager: true,
            }),
    {
        Encoder {
            output,
            chunks_size: DEFAULT_CHUNK_SIZE,
            buffer: Vec::with_capacity(0),
            flush_after_write: true,
        }
    }

    /// Takes all of `buf` into the buffer, then emits every full chunk that
    /// has gathered, oldest bytes first. Fewer bytes than a chunk stay
    /// buffered, unless the encoder flushes after each write: then they are
    /// emitted as one short chunk. Returns the number of bytes taken, which is
    /// the length of `buf`.
    ///
    /// A write that makes no chunk full and does not flush leaves the sink
    /// untouched and succeeds. The write fails when the sink does: it stops
    /// at the sink's first error and returns it. What the sink and the buffer
    /// hold after that is not specified.
    pub fn write(&mut self, buf: &[u8]) -> (r: Result<usize, W::Error>)
        requires
            old(self).wf(),
        ensures
            final(self)@.chunk_size == old(self)@.chunk_size,
            final(self)@.eager == old(self)@.eager,
            !old(self)@.eager && old(self)@.pending.len() + buf@.len() < old(self)@.chunk_size ==> {
                &&& r is Ok
                &&& final(self)@.sink == old(self)@.sink
                &&& final(self)@.pending == old(self)@.pending + buf@
            },
            old(self)@.sink.reliable() ==> r is Ok && final(self)@.sink.reliable(),
            match r {
                Ok(count) => {
                    let v = old(self)@;
                    &&& count == buf.len()
                    &&& final(self)@.pending.len() < v.chunk_size
                    &&& final(self)@.pending == write_pending(
                        v.chunk_size,
                        v.eager,
                        v.pending,
                        buf@,
                    )
                    &&& took(
                        v.sink,
                        final(self)@.sink,
                        frames(write_chunks(v.chunk_size, v.eager, v.pending, buf@)),
                    )
                },
                Err(error) => refused(old(self)@.sink, final(self)@.sink, error),
            },
    {
        self.buffer.extend_from_slice(buf);
        let n: usize = self.chunks_size;
        let ghost all = old(self)@.pending + buf@;
        let ghost chunks = full_chunks(n as nat, all);
        let ghost mut sent: nat = 0;
        let mut start: usize = 0;
        while self.buffer.len() - start >= n
            invariant
                n >= 1,
                n == self.chunks_size == old(self).chunks_size,
                self.flush_after_write == old(self).flush_after_write,
                all == old(self)@.pending + buf@,
                self.buffer@ == all,
                chunks == full_chunks(n as nat, all),
                start == sent * n,
                start <= all.len(),
                sent <= chunks.len(),
                sent == 0 ==> self.output == old(self).output,
                old(self).output.reliable() ==> self.output.reliable(),
                took(old(self).output, self.output, frames(chunks.take(sent as int))),
            decreases all.len() - start,
        {
            proof {
                lemma_chunk_count(n as nat, all.len(), sent);
                assert(chunks.take(sent as int + 1).drop_last() =~= chunks.take(sent as int));
            }
            let ghost before = self.output.written();
            match send(&mut self.output, &self.buffer[start..start + n]) {
                Ok(()) => {
                    start = start + n;
                    proof {
                        assert((sent + 1) * n == sent * n + n) by (nonlinear_arith);
                        assert(before + frame(chunks[sent as int]) =~= old(self).output.written()
                            + frames(chunks.take(sent as int + 1)));
                        sent = sent + 1;
                    }
                },
                Err(error) => {
                    // Keep what has not been sent, this chunk included.
                    let unsent = self.buffer.split_off(start);
                    self.buffer = unsent;
                    return Err(error);
                },
            }
        }
        proof {
            lemma_fundamental_div_mod_converse(
                all.len() as int,
                n as int,
                sent as int,
                all.len() - start,
            );
            assert(chunks.take(sent as int) =~= chunks);
        }
        if start > 0 {
            let unsent = self.buffer.split_off(start);
            self.buffer = unsent;
        }
        proof {
            if all.len() < n {
                lemma_short_write(n as nat, old(self)@.pending, buf@);
                assert(sent == 0) by (nonlinear_arith)
                    requires
                        sent * n < n,
                ;
            }
            lemma_cut(n as nat, all);
        }
        if self.flush_after_write {
            proof {
                lemma_frames_concat(chunks, short_chunk(self.buffer@));
                assert(old(self).output.written() + frames(chunks) + frames(
                    short_chunk(self.buffer@),
                ) =~= old(self).output.written() + (frames(chunks) + frames(
                    short_chunk(self.buffer@),
                )));
            }
            if let Err(error) = self.flush() {
                return Err(error);
            }
        }
        Ok(buf.len())
    }

    /// Emits whatever is buffered as one chunk, even if shorter than the
    /// chunk size. With nothing buffered it does nothing and succeeds. The
    /// sink's own buffering is not touched. The flush fails when the sink
    /// does, with the sink's error; the bytes then stay buffered.
    pub fn flush(&mut self) -> (r: Result<(), W::Error>)
        ensures
            final(self)@.chunk_size == old(self)@.chunk_size,
            final(self)@.eager == old(self)@.eager,
            old(self)@.pending.len() == 0 ==> r is Ok && final(self)@ == old(self)@,
            old(self)@.sink.reliable() ==> r is Ok && final(self)@.sink.reliable(),
            match r {
                Ok(()) => {
                    &&& final(self)@.pending == Seq::<u8>::empty()
                    &&& took(
                        old(self)@.sink,
                        final(self)@.sink,
                        frames(short_chunk(old(self)@.pending)),
                    )
                },
                Err(error) => {
                    &&& final(self)@.pending == old(self)@.pending
                    &&& refused(old(self)@.sink, final(self)@.sink, error)
                },
            },
    {
        if self.buffer.is_empty() {
            return Ok(());
        }
        proof {
            lemma_frames_single(self.buffer@);
        }
        if let Err(error) = send(&mut self.output, self.buffer.as_slice()) {
            return Err(error);
        }
        self.buffer.clear();
        Ok(())
    }

    /// Ends the stream and gives the sink back: emits whatever is buffered as
    /// one last chunk, then the terminator. This is best effort. The
    /// terminator is attempted even if the last chunk could not be written,
    /// and an error of the sink is dropped, not returned: a caller who needs
    /// to know that the last chunk went out calls `flush` first.
    ///
    /// The stream is complete if the sink reported no error, which is what
    /// its log of failures shows.
    pub fn finish(self) -> (sink: W)
        ensures
            self@.sink.reliable() ==> sink.reliable() && sink.failures() == self@.sink.failures(),
            self@.sink.failures().is_prefix_of(sink.failures()),
            sink.failures().len() <= self@.sink.failures().len() + 2,
            sink.failures() == self@.sink.failures() ==> took(
                self@.sink,
                sink,
                frames(short_chunk(self@.pending)) + terminator(),
            ),
    {
        let mut closing = self;
        let _ = closing.flush();
        let _ = send(&mut closing.output, &[]);
        proof {
            assert(self@.sink.written() + frames(short_chunk(self@.pending)) + terminator()
                =~= self@.sink.written() + (frames(short_chunk(self@.pending)) + terminator()));
        }
        closing.output
    }

    /// The sink, to look at what has been emitted so far.
    pub fn get_ref(&self) -> (sink: &W)
        ensures
            *sink == self@.sink,
    {
        &self.output
    }

    /// The sink, to take out or add to what it holds. The encoder goes on
    /// from whatever the sink holds when the borrow ends.
    pub fn get_mut(&mut self) -> (sink: &mut W)
        ensures
            *sink == old(self)@.sink,
            final(self)@ == (EncoderView { sink: *final(sink), ..old(self)@ }),
    {
        &mut self.output
    }

    /// The bytes taken in and not yet emitted.
    pub fn buffer(&self) -> (pending: &[u8])
        ensures
            pending@ == self@.pending,
    {
        self.buffer.as_slice()
    }

    /// The number of bytes per emitted chunk.
    pub fn chunk_size(&self) -> (n: usize)
        ensures
            n == self@.chunk_size,
    {
        self.chunks_size
    }

    /// Whether each write ends by emitting whatever is buffered.
    pub fn flushes_after_write(&self) -> (eager: bool)
        ensures
            eager == self@.eager,
    {
        self.flush_after_write
    }
}

} // verus!
