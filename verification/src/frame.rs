//! The chunk frame: a length line, the bytes, and a closing line break.

use crate::hex::{hex, to_hex};
use crate::sink::{refused, took, Sink};
use vstd::prelude::*;

verus! {

/// Carriage return and line feed, which end the length line and the body.
pub open spec fn crlf() -> Seq<u8> {
    seq![13u8, 10u8]
}

/// One chunk on the wire: the body's length in lowercase hexadecimal, a line
/// break, the body itself, and a line break.
pub open spec fn frame(body: Seq<u8>) -> Seq<u8> {
    hex(body.len()) + crlf() + body + crlf()
}

/// The frame of the empty chunk, which ends a stream.
pub open spec fn terminator() -> Seq<u8> {
    frame(Seq::empty())
}

/// The frames of several chunks, one after the other.
pub open spec fn frames(chunks: Seq<Seq<u8>>) -> Seq<u8>
    decreases chunks.len(),
{
    if chunks.len() == 0 {
        Seq::empty()
    } else {
        frames(chunks.drop_last()) + frame(chunks.last())
    }
}

/// The terminator is the five bytes `0\r\n\r\n`.
pub proof fn lemma_terminator_bytes()
    ensures
        terminator() == seq![48u8, 13u8, 10u8, 13u8, 10u8],
{
}

/// Framing distributes over concatenation of chunk sequences.
pub proof fn lemma_frames_concat(a: Seq<Seq<u8>>, b: Seq<Seq<u8>>)
    ensures
        frames(a + b) == frames(a) + frames(b),
    decreases b.len(),
{
    if b.len() > 0 {
        lemma_frames_concat(a, b.drop_last());
        assert((a + b).drop_last() =~= a + b.drop_last());
    }
}

/// The frames of a single chunk are its frame.
pub proof fn lemma_frames_single(body: Seq<u8>)
    ensures
        frames(seq![body]) == frame(body),
{
    assert(frames(seq![body].drop_last()) =~= Seq::<u8>::empty());
}

/// Writes `data` to `output` as one chunk frame, in three writes: the length
/// line, the bytes, the closing line break. An empty `data` gives the
/// terminator. The first write that fails ends the attempt, and its error is
/// the one returned.
pub fn send<W: Sink>(output: &mut W, data: &[u8]) -> (r: Result<(), W::Error>)
    ensures
        match r {
            Ok(()) => took(*old(output), *final(output), frame(data@)),
            Err(error) => refused(*old(output), *final(output), error),
        },
        (*old(output)).reliable() ==> r is Ok && (*final(output)).reliable(),
{
    let mut head: Vec<u8> = to_hex(data.len());
    head.push(13u8);
    head.push(10u8);
    let tail: [u8; 2] = [13u8, 10u8];
    if let Err(error) = output.write_all(head.as_slice()) {
        return Err(error);
    }
    if let Err(error) = output.write_all(data) {
        return Err(error);
    }
    if let Err(error) = output.write_all(tail.as_slice()) {
        return Err(error);
    }
    proof {
        assert((*old(output)).written() + head@ + data@ + tail@ =~= (*old(output)).written()
            + frame(data@));
    }
    Ok(())
}

} // verus!
