//! Facts about the SDES layout that the codec's proofs and the laws rest on.

use crate::octets::be32;
use crate::rtcp::wire::{
    chunks_bytes_at, chunks_fields_at, chunks_len_at, chunks_length, decode_items, items_bytes,
    items_fields, items_len, padding, prepend, zero_fields, zeros, ChunkView, ItemView,
};
use vstd::prelude::*;
use vstd::seq_lib::lemma_flatten_concat;

verus! {

/// Padding is at most three bytes, is none exactly at a multiple of four, and brings any
/// length up to one.
pub proof fn lemma_padding(n: int)
    ensures
        0 <= padding(n) <= 3,
        (n + padding(n)) % 4 == 0,
        padding(n) == 0 <==> n % 4 == 0,
        n % 4 != 0 ==> padding(n) == 4 - n % 4,
{
}

/// The items' layout holds two bytes and the value for each item, and is what their writes
/// lay down.
pub proof fn lemma_items_layout(items: Seq<ItemView>)
    ensures
        items_len(items) >= 0,
        items_bytes(items).len() == items_len(items),
        items_fields(items).flatten() == items_bytes(items),
    decreases items.len(),
{
    if items.len() > 0 {
        let rest = items.drop_first();
        lemma_items_layout(rest);
        lemma_flatten_concat(items[0].fields(), items_fields(rest));
        assert(items[0].fields().flatten() =~= items[0].bytes()) by {
            reveal_with_fuel(Seq::flatten, 4);
        }
    }
}

/// Writing `n` zero bytes one by one lays down `n` zero bytes.
pub proof fn lemma_zero_fields(n: int)
    requires
        0 <= n,
    ensures
        zero_fields(n).flatten() == zeros(n),
    decreases n,
{
    if n > 0 {
        lemma_zero_fields(n - 1);
        assert(zero_fields(n).drop_first() =~= zero_fields(n - 1));
        assert(zero_fields(n).flatten() =~= zeros(n));
    } else {
        assert(zero_fields(n).flatten() =~= zeros(n));
    }
}

/// A chunk laid down at `off` takes `len_at(off)` bytes, ends at a multiple of four, and is
/// what its writes lay down.
pub proof fn lemma_chunk_layout(chunk: ChunkView, off: int)
    ensures
        chunk.body().len() == chunk.body_len(),
        chunk.body_len() >= 5,
        0 <= chunk.pad_at(off) <= 3,
        chunk.bytes_at(off).len() == chunk.len_at(off),
        (off + chunk.len_at(off)) % 4 == 0,
        chunk.fields_at(off).flatten() == chunk.bytes_at(off),
{
    let head = seq![be32(chunk.ssrc)];
    let items = items_fields(chunk.items);
    let end = seq![seq![0u8]];
    let pad = zero_fields(chunk.pad_at(off));
    lemma_items_layout(chunk.items);
    lemma_zero_fields(chunk.pad_at(off));
    lemma_flatten_concat(head, items);
    lemma_flatten_concat(head + items, end);
    lemma_flatten_concat(head + items + end, pad);
    assert(head.flatten() =~= be32(chunk.ssrc)) by {
        reveal_with_fuel(Seq::flatten, 2);
    }
    assert(end.flatten() =~= seq![0u8]) by {
        reveal_with_fuel(Seq::flatten, 2);
    }
}

/// Chunks laid down from `off` take `chunks_len_at` bytes and are what their writes lay down.
pub proof fn lemma_chunks_layout(chunks: Seq<ChunkView>, off: int)
    ensures
        chunks_len_at(chunks, off) >= 0,
        chunks_bytes_at(chunks, off).len() == chunks_len_at(chunks, off),
        chunks_fields_at(chunks, off).flatten() == chunks_bytes_at(chunks, off),
    decreases chunks.len(),
{
    if chunks.len() > 0 {
        let next = off + chunks[0].len_at(off);
        lemma_chunk_layout(chunks[0], off);
        lemma_chunks_layout(chunks.drop_first(), next);
        lemma_flatten_concat(
            chunks[0].fields_at(off),
            chunks_fields_at(chunks.drop_first(), next),
        );
    } else {
        assert(chunks_fields_at(chunks, off).flatten() =~= chunks_bytes_at(chunks, off));
    }
}

/// Every chunk's size is a multiple of four and at least eight, and so is their sum.
pub proof fn lemma_chunks_length(chunks: Seq<ChunkView>)
    ensures
        chunks_length(chunks) >= 0,
        chunks_length(chunks) % 4 == 0,
        chunks.len() > 0 ==> 8 <= chunks[0].length() <= chunks_length(chunks),
    decreases chunks.len(),
{
    if chunks.len() > 0 {
        lemma_items_layout(chunks[0].items);
        lemma_chunks_length(chunks.drop_first());
    }
}

/// Items with values of at most 255 bytes take at most 257 bytes each.
pub proof fn lemma_items_len_bound(items: Seq<ItemView>)
    requires
        forall|i: int| 0 <= i < items.len() ==> (#[trigger] items[i]).wf(),
    ensures
        items_len(items) <= 257 * items.len(),
    decreases items.len(),
{
    if items.len() > 0 {
        let rest = items.drop_first();
        assert(items[0].wf());
        assert forall|i: int| 0 <= i < rest.len() implies (#[trigger] rest[i]).wf() by {
            assert(rest[i] == items[i + 1]);
        }
        lemma_items_len_bound(rest);
    }
}

/// Putting `a` in front of what has `b` in front has `a + b` in front, and putting nothing in
/// front changes nothing.
pub proof fn lemma_prepend<T>(a: Seq<T>, b: Seq<T>, tail: (Option<Seq<T>>, int))
    ensures
        prepend(a, prepend(b, tail)) == prepend(a + b, tail),
        prepend(Seq::empty(), tail) == tail,
        prepend(a, (Some(Seq::empty()), tail.1)) == (Some(a), tail.1),
{
    if let Some(rest) = tail.0 {
        assert(a + (b + rest) =~= a + b + rest);
        assert(Seq::<T>::empty() + rest =~= rest);
    }
    assert(a + Seq::<T>::empty() =~= a);
}

/// Where whole items with nonzero tags stand in `buf` at `pos`, reading items at `pos` gives
/// them, followed by what reading gives after them.
pub proof fn lemma_decode_items_prefix(buf: Seq<u8>, pos: int, items: Seq<ItemView>)
    requires
        0 <= pos,
        pos + items_len(items) <= buf.len(),
        buf.subrange(pos, pos + items_len(items)) == items_bytes(items),
        forall|i: int| 0 <= i < items.len() ==> (#[trigger] items[i]).wf(),
        forall|i: int| 0 <= i < items.len() ==> (#[trigger] items[i]).nonzero_tag(),
    ensures
        decode_items(buf, pos) == prepend(items, decode_items(buf, pos + items_len(items))),
    decreases items.len(),
{
    let after = decode_items(buf, pos + items_len(items));
    if items.len() == 0 {
        assert(items + after.0.unwrap() =~= after.0.unwrap());
    } else {
        let item = items[0];
        let rest = items.drop_first();
        let size = 2 + item.data.len() as int;
        let next = pos + size;
        let here = buf.subrange(pos, pos + items_len(items));
        lemma_items_layout(rest);
        assert(item.wf() && item.nonzero_tag());
        assert(buf[pos] == here[0] && buf[pos + 1] == here[1]);
        assert(buf.subrange(pos + 2, next) =~= here.subrange(2, size));
        assert(here.subrange(2, size) =~= item.data);
        assert(buf.subrange(next, next + items_len(rest)) =~= here.subrange(
            size,
            items_len(items),
        ));
        assert(here.subrange(size, items_len(items)) =~= items_bytes(rest));
        assert forall|i: int| 0 <= i < rest.len() implies (#[trigger] rest[i]).wf()
            && rest[i].nonzero_tag() by {
            assert(rest[i] == items[i + 1]);
        }
        lemma_decode_items_prefix(buf, next, rest);
        assert(seq![item] + rest =~= items);
        assert(seq![item] + (rest + after.0.unwrap()) =~= items + after.0.unwrap());
    }
}

} // verus!
