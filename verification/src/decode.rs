//! Reading a chunked stream back. Nothing here runs: the reader is a
//! specification, against which the frames that the encoder writes are held.

use crate::frame::{crlf, frame, frames, lemma_frames_concat, lemma_frames_single, terminator};
use crate::hex::{hex, hex_value, is_hex_digit, lemma_hex_canonical};
use vstd::prelude::*;

verus! {

/// How many hexadecimal characters `wire` starts with.
pub open spec fn digits_len(wire: Seq<u8>) -> nat
    decreases wire.len(),
{
    if wire.len() > 0 && is_hex_digit(wire[0]) {
        1 + digits_len(wire.skip(1))
    } else {
        0
    }
}

/// Reads one frame from the front of `wire`: the length line, as many bytes
/// as it announces, and the closing line break. Gives the frame's body and
/// what follows the frame, or nothing if `wire` does not start with a frame.
pub open spec fn read_frame(wire: Seq<u8>) -> Option<(Seq<u8>, Seq<u8>)> {
    let k = digits_len(wire) as int;
    let n = hex_value(wire.take(k)) as int;
    let end = k + 2 + n + 2;
    if k >= 1 && end <= wire.len() && wire.subrange(k, k + 2) == crlf() && wire.subrange(
        k + 2 + n,
        end,
    ) == crlf() {
        Some((wire.subrange(k + 2, k + 2 + n), wire.skip(end)))
    } else {
        None
    }
}

/// Reads a whole stream: frame after frame up to the terminator, behind which
/// nothing may follow. Gives the bodies of the chunks before the terminator,
/// in order, or nothing if `wire` is not such a stream.
pub open spec fn decode(wire: Seq<u8>) -> Option<Seq<Seq<u8>>>
    decreases wire.len(),
{
    match read_frame(wire) {
        Some((body, rest)) => {
            if body.len() == 0 {
                if rest.len() == 0 {
                    Some(Seq::empty())
                } else {
                    None
                }
            } else {
                match decode(rest) {
                    Some(more) => Some(seq![body] + more),
                    None => None,
                }
            }
        },
        None => None,
    }
}

/// Hexadecimal characters followed by a line break are counted in full.
proof fn lemma_digits_len(digits: Seq<u8>, rest: Seq<u8>)
    requires
        forall|i: int| 0 <= i < digits.len() ==> is_hex_digit(#[trigger] digits[i]),
        rest.len() == 0 || !is_hex_digit(rest[0]),
    ensures
        digits_len(digits + rest) == digits.len(),
    decreases digits.len(),
{
    let wire = digits + rest;
    if digits.len() > 0 {
        assert(wire.skip(1) =~= digits.skip(1) + rest);
        lemma_digits_len(digits.skip(1), rest);
    }
}

/// A frame is read back as its body, and the reader stops right behind it.
pub proof fn lemma_read_frame(body: Seq<u8>, rest: Seq<u8>)
    ensures
        read_frame(frame(body) + rest) == Some((body, rest)),
{
    let digits = hex(body.len());
    let wire = frame(body) + rest;
    let tail = crlf() + body + crlf() + rest;
    lemma_hex_canonical(body.len());
    assert(wire =~= digits + tail);
    lemma_digits_len(digits, tail);
    let k = digits.len() as int;
    let n = body.len() as int;
    assert(wire.take(k) =~= digits);
    assert(wire.subrange(k, k + 2) =~= crlf());
    assert(wire.subrange(k + 2 + n, k + 2 + n + 2) =~= crlf());
}

/// The frames of chunks start with the frame of the first chunk.
proof fn lemma_frames_first(chunks: Seq<Seq<u8>>)
    requires
        chunks.len() >= 1,
    ensures
        frames(chunks) == frame(chunks[0]) + frames(chunks.skip(1)),
{
    assert(chunks =~= seq![chunks[0]] + chunks.skip(1));
    lemma_frames_concat(seq![chunks[0]], chunks.skip(1));
    lemma_frames_single(chunks[0]);
}

/// Round trip: chunks that are framed one after the other and closed by the
/// terminator are read back as they were, provided none of them is empty.
pub proof fn lemma_decode_frames(chunks: Seq<Seq<u8>>)
    requires
        forall|i: int| 0 <= i < chunks.len() ==> (#[trigger] chunks[i]).len() >= 1,
    ensures
        decode(frames(chunks) + terminator()) == Some(chunks),
    decreases chunks.len(),
{
    let wire = frames(chunks) + terminator();
    if chunks.len() == 0 {
        lemma_read_frame(Seq::<u8>::empty(), Seq::<u8>::empty());
    } else {
        let first = chunks[0];
        let others = chunks.skip(1);
        let rest = frames(others) + terminator();
        lemma_frames_first(chunks);
        assert(wire =~= frame(first) + rest);
        lemma_read_frame(first, rest);
        lemma_decode_frames(others);
    }
}

} // verus!
