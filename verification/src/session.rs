//! Whole streams: what a run of calls on one encoder puts on the wire, and the
//! laws that hold of it.

use crate::chunking::{
    lemma_short_chunk, lemma_write_partition, short_chunk, sized_chunks, write_chunks,
    write_pending,
};
use crate::decode::{decode, lemma_decode_frames};
use crate::frame::{frames, terminator};
use vstd::prelude::*;
use vstd::seq_lib::lemma_flatten_concat;

verus! {

/// One call on an encoder.
pub enum Call {
    /// A write of these bytes.
    Write(Seq<u8>),
    /// A flush.
    Flush,
}

/// Where a stream stands between two calls.
pub struct Progress {
    /// The chunks emitted so far, oldest first.
    pub emitted: Seq<Seq<u8>>,
    /// The bytes taken in and not yet emitted.
    pub pending: Seq<u8>,
}

/// A stream before the first call: nothing emitted, nothing buffered.
pub open spec fn start() -> Progress {
    Progress { emitted: Seq::empty(), pending: Seq::empty() }
}

/// The effect of one successful call, on an encoder with chunk size `n` that
/// flushes after each write if `eager` is set.
pub open spec fn step(n: nat, eager: bool, before: Progress, call: Call) -> Progress {
    match call {
        Call::Write(data) => Progress {
            emitted: before.emitted + write_chunks(n, eager, before.pending, data),
            pending: write_pending(n, eager, before.pending, data),
        },
        Call::Flush => Progress {
            emitted: before.emitted + short_chunk(before.pending),
            pending: Seq::empty(),
        },
    }
}

/// Where a new encoder stands after `calls`, made in order, all successful.
pub open spec fn progress(n: nat, eager: bool, calls: Seq<Call>) -> Progress
    decreases calls.len(),
{
    if calls.len() == 0 {
        start()
    } else {
        step(n, eager, progress(n, eager, calls.drop_last()), calls.last())
    }
}

/// The chunks of the finished stream: those emitted by the calls, and one
/// more for what was still buffered at the end, if anything was.
pub open spec fn stream_chunks(n: nat, eager: bool, calls: Seq<Call>) -> Seq<Seq<u8>> {
    let end = progress(n, eager, calls);
    end.emitted + short_chunk(end.pending)
}

/// Every byte that a new encoder hands to its sink during `calls` and the
/// finish that follows them.
pub open spec fn stream(n: nat, eager: bool, calls: Seq<Call>) -> Seq<u8> {
    frames(stream_chunks(n, eager, calls)) + terminator()
}

/// The bytes that `calls` write, in order.
pub open spec fn payload(calls: Seq<Call>) -> Seq<u8>
    decreases calls.len(),
{
    if calls.len() == 0 {
        Seq::empty()
    } else {
        match calls.last() {
            Call::Write(data) => payload(calls.drop_last()) + data,
            Call::Flush => payload(calls.drop_last()),
        }
    }
}

/// Between calls nothing is lost or reordered: the emitted chunks, joined in
/// order, followed by the buffered bytes, are the bytes written so far. No
/// emitted chunk is empty or longer than the chunk size, and fewer bytes
/// than one chunk are buffered.
pub proof fn lemma_progress(n: nat, eager: bool, calls: Seq<Call>)
    requires
        n >= 1,
    ensures
        progress(n, eager, calls).emitted.flatten() + progress(n, eager, calls).pending == payload(
            calls,
        ),
        sized_chunks(n, progress(n, eager, calls).emitted),
        progress(n, eager, calls).pending.len() < n,
    decreases calls.len(),
{
    let now = progress(n, eager, calls);
    if calls.len() > 0 {
        let before = progress(n, eager, calls.drop_last());
        lemma_progress(n, eager, calls.drop_last());
        match calls.last() {
            Call::Write(data) => {
                let added = write_chunks(n, eager, before.pending, data);
                lemma_write_partition(n, eager, before.pending, data);
                lemma_flatten_concat(before.emitted, added);
                assert(now.emitted.flatten() + now.pending =~= before.emitted.flatten() + (
                    added.flatten() + now.pending));
            },
            Call::Flush => {
                let added = short_chunk(before.pending);
                lemma_short_chunk(before.pending);
                lemma_flatten_concat(before.emitted, added);
            },
        }
    }
}

/// Round trip. Whatever the chunk size, and however the input is spread over
/// writes and flushes, the finished stream is read back as the chunks that
/// were emitted, and their bodies joined in order are the input, byte for
/// byte. Every chunk before the terminator holds at least one byte and at
/// most a chunk size of them.
pub proof fn theorem_round_trip(n: nat, eager: bool, calls: Seq<Call>)
    requires
        n >= 1,
    ensures
        decode(stream(n, eager, calls)) == Some(stream_chunks(n, eager, calls)),
        stream_chunks(n, eager, calls).flatten() == payload(calls),
        sized_chunks(n, stream_chunks(n, eager, calls)),
{
    let end = progress(n, eager, calls);
    let chunks = stream_chunks(n, eager, calls);
    lemma_progress(n, eager, calls);
    lemma_short_chunk(end.pending);
    lemma_flatten_concat(end.emitted, short_chunk(end.pending));
    assert(sized_chunks(n, chunks)) by {
        assert forall|i: int| 0 <= i < chunks.len() implies 1 <= (#[trigger] chunks[i]).len()
            <= n by {
            if i < end.emitted.len() {
                assert(chunks[i] == end.emitted[i]);
            } else {
                assert(chunks[i] == short_chunk(end.pending)[i - end.emitted.len()]);
            }
        }
    }
    lemma_decode_frames(chunks);
}

/// A flush right after a flush emits nothing and changes nothing.
pub proof fn lemma_flush_twice(n: nat, eager: bool, before: Progress)
    ensures
        step(n, eager, step(n, eager, before, Call::Flush), Call::Flush) == step(
            n,
            eager,
            before,
            Call::Flush,
        ),
{
}

} // verus!
