//! How buffered bytes are cut into chunks.

use vstd::arithmetic::div_mod::{lemma_basic_div, lemma_fundamental_div_mod, lemma_small_mod};
use vstd::prelude::*;
use vstd::seq_lib::lemma_flatten_concat;

verus! {

/// The chunks of exactly `n` bytes that `bytes` holds, from its front, in
/// order.
pub open spec fn full_chunks(n: nat, bytes: Seq<u8>) -> Seq<Seq<u8>>
    recommends
        n >= 1,
{
    Seq::new(bytes.len() / n, |i: int| bytes.subrange(i * n, i * n + n))
}

/// What is left of `bytes` behind its full chunks: fewer than `n` bytes.
pub open spec fn leftover(n: nat, bytes: Seq<u8>) -> Seq<u8>
    recommends
        n >= 1,
{
    bytes.skip(bytes.len() - bytes.len() % n)
}

/// A buffer as chunks: one chunk that holds all of it, or none if it is empty.
pub open spec fn short_chunk(pending: Seq<u8>) -> Seq<Seq<u8>> {
    if pending.len() == 0 {
        Seq::empty()
    } else {
        seq![pending]
    }
}

/// The chunks that a write of `data` emits, with `pending` buffered before it.
pub open spec fn write_chunks(n: nat, eager: bool, pending: Seq<u8>, data: Seq<u8>) -> Seq<Seq<u8>>
    recommends
        n >= 1,
{
    let all = pending + data;
    if eager {
        full_chunks(n, all) + short_chunk(leftover(n, all))
    } else {
        full_chunks(n, all)
    }
}

/// What stays buffered after a write of `data`, with `pending` buffered
/// before it.
pub open spec fn write_pending(n: nat, eager: bool, pending: Seq<u8>, data: Seq<u8>) -> Seq<u8>
    recommends
        n >= 1,
{
    if eager {
        Seq::empty()
    } else {
        leftover(n, pending + data)
    }
}

/// Whether every chunk holds at least one byte and at most `n`.
pub open spec fn sized_chunks(n: nat, chunks: Seq<Seq<u8>>) -> bool {
    forall|i: int| 0 <= i < chunks.len() ==> 1 <= (#[trigger] chunks[i]).len() <= n
}

/// With `sent` chunks of `n` bytes taken from `len` bytes and at least `n`
/// bytes left, there is one more full chunk.
pub proof fn lemma_chunk_count(n: nat, len: nat, sent: nat)
    requires
        n >= 1,
        sent * n + n <= len,
    ensures
        sent < len / n,
{
    let q = len / n;
    let r = len % n;
    lemma_fundamental_div_mod(len as int, n as int);
    assert(sent < q) by (nonlinear_arith)
        requires
            sent * n + n <= n * q + r,
            r < n,
            n >= 1,
    ;
}

/// The first `m` full chunks, joined, are the first `m * n` bytes.
proof fn lemma_full_chunks_prefix(n: nat, bytes: Seq<u8>, m: nat)
    requires
        n >= 1,
        m <= bytes.len() / n,
    ensures
        m * n <= bytes.len(),
        full_chunks(n, bytes).take(m as int).flatten() == bytes.take((m * n) as int),
    decreases m,
{
    let chunks = full_chunks(n, bytes);
    lemma_fundamental_div_mod(bytes.len() as int, n as int);
    assert(m * n <= bytes.len()) by (nonlinear_arith)
        requires
            m <= bytes.len() / n,
            bytes.len() == n * (bytes.len() / n) + bytes.len() % n,
            bytes.len() % n >= 0,
            n >= 1,
    ;
    if m > 0 {
        let k = (m - 1) as nat;
        lemma_full_chunks_prefix(n, bytes, k);
        assert(k * n + n == m * n) by (nonlinear_arith)
            requires
                k + 1 == m,
        ;
        assert(chunks.take(m as int) =~= chunks.take(k as int).push(chunks[k as int]));
        chunks.take(k as int).lemma_flatten_push(chunks[k as int]);
    }
}

/// Cutting loses nothing and reorders nothing: every full chunk has exactly
/// `n` bytes, fewer than `n` bytes are left over, and the full chunks joined
/// in order, followed by what is left over, are the bytes that were cut.
pub proof fn lemma_cut(n: nat, bytes: Seq<u8>)
    requires
        n >= 1,
    ensures
        forall|i: int|
            0 <= i < full_chunks(n, bytes).len() ==> (#[trigger] full_chunks(n, bytes)[i]).len()
                == n,
        leftover(n, bytes).len() == bytes.len() % n,
        leftover(n, bytes).len() < n,
        full_chunks(n, bytes).flatten() + leftover(n, bytes) == bytes,
{
    let chunks = full_chunks(n, bytes);
    let q = bytes.len() / n;
    lemma_fundamental_div_mod(bytes.len() as int, n as int);
    lemma_full_chunks_prefix(n, bytes, q);
    assert(q * n == n * q) by (nonlinear_arith);
    assert(chunks.take(q as int) =~= chunks);
    assert forall|i: int| 0 <= i < chunks.len() implies (#[trigger] chunks[i]).len() == n by {
        lemma_chunk_bounds(n, bytes.len(), i as nat);
    }
}

/// The `i`-th full chunk lies within the bytes.
proof fn lemma_chunk_bounds(n: nat, len: nat, i: nat)
    requires
        n >= 1,
        i < len / n,
    ensures
        i * n + n <= len,
{
    lemma_fundamental_div_mod(len as int, n as int);
    assert(i * n + n <= len) by (nonlinear_arith)
        requires
            i + 1 <= len / n,
            len == n * (len / n) + len % n,
            len % n >= 0,
            n >= 1,
    ;
}

/// A write loses nothing and reorders nothing: the chunks it emits, joined in
/// order, followed by what it leaves buffered, are the bytes buffered before
/// it followed by the bytes written. No emitted chunk is empty, none is longer
/// than `n`, and fewer than `n` bytes stay buffered.
pub proof fn lemma_write_partition(n: nat, eager: bool, pending: Seq<u8>, data: Seq<u8>)
    requires
        n >= 1,
    ensures
        write_chunks(n, eager, pending, data).flatten() + write_pending(n, eager, pending, data)
            == pending + data,
        sized_chunks(n, write_chunks(n, eager, pending, data)),
        write_pending(n, eager, pending, data).len() < n,
{
    let all = pending + data;
    lemma_cut(n, all);
    if eager {
        let rest = leftover(n, all);
        lemma_flatten_concat(full_chunks(n, all), short_chunk(rest));
        lemma_short_chunk(rest);
    }
}

/// A buffer and its short chunk hold the same bytes, and the short chunk is
/// never an empty chunk.
pub proof fn lemma_short_chunk(pending: Seq<u8>)
    ensures
        short_chunk(pending).flatten() == pending,
        forall|i: int|
            0 <= i < short_chunk(pending).len() ==> (#[trigger] short_chunk(pending)[i])
                == pending && pending.len() >= 1,
{
    if pending.len() > 0 {
        seq![pending].lemma_flatten_one_element();
    }
}

/// In an encoder that does not flush after each write, a write that does not
/// fill a chunk emits nothing and keeps every byte buffered.
pub proof fn lemma_short_write(n: nat, pending: Seq<u8>, data: Seq<u8>)
    requires
        pending.len() + data.len() < n,
    ensures
        write_chunks(n, false, pending, data) == Seq::<Seq<u8>>::empty(),
        write_pending(n, false, pending, data) == pending + data,
{
    let all = pending + data;
    lemma_small_mod(all.len(), n);
    lemma_basic_div(all.len() as int, n as int);
}

} // verus!
