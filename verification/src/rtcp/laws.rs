//! What holds of the SDES codec, proved over the layout of [`crate::rtcp::wire`].
//!
//! The encoder and the decoder state their results through `bytes_at` and `decode_chunks`;
//! the laws here relate the two.

use crate::octets::{be32, lemma_be32_round_trip, lemma_from_be32_round_trip, OctetsView};
use crate::rtcp::lemmas::{
    lemma_chunk_layout, lemma_chunks_layout, lemma_chunks_length, lemma_decode_items_prefix,
    lemma_items_layout, lemma_items_len_bound, lemma_padding,
};
use crate::rtcp::wire::{
    chunks_bytes_at, chunks_len_at, decode_chunk, decode_chunks, decode_items, items_bytes,
    items_len, ChunkView, ItemView, PacketView,
};
use vstd::prelude::*;

verus! {

/// A packet body of at most 255 chunks, whose items have values of at most 255 bytes and
/// tags other than zero, written at a cursor and read back from the same offset with its own
/// count of chunks, comes back as it was, and reading stops where writing did.
pub proof fn lemma_round_trip(packet: PacketView, out: OctetsView)
    requires
        packet.wf(),
        packet.nonzero_tags(),
        packet.chunks.len() <= 255,
        out.wf(),
        packet.len_at(out.off) <= out.room(),
    ensures
        decode_chunks(
            out.put(packet.bytes_at(out.off)).buf,
            out.off,
            packet.chunk_count(),
        ) == (Some(packet.chunks), out.put(packet.bytes_at(out.off)).off),
{
    lemma_chunks_layout(packet.chunks, out.off);
    out.lemma_put_wf(packet.bytes_at(out.off));
    lemma_decode_encoded_chunks(out.put(packet.bytes_at(out.off)).buf, out.off, packet.chunks);
}

/// Where a chunk's body stands in `buf` at `off` and the buffer reaches to the end of its
/// padding, reading a chunk at `off` gives that chunk and stops after the padding.
pub proof fn lemma_decode_encoded_chunk(buf: Seq<u8>, off: int, chunk: ChunkView)
    requires
        chunk.wf(),
        chunk.nonzero_tags(),
        0 <= off,
        off + chunk.len_at(off) <= buf.len(),
        buf.subrange(off, off + chunk.body_len()) == chunk.body(),
    ensures
        decode_chunk(buf, off) == (Some(chunk), off + chunk.len_at(off)),
{
    let body = buf.subrange(off, off + chunk.body_len());
    let end = off + chunk.body_len();
    lemma_chunk_layout(chunk, off);
    lemma_items_layout(chunk.items);
    lemma_be32_round_trip(chunk.ssrc);
    assert(buf.subrange(off, off + 4) =~= body.subrange(0, 4));
    assert(body.subrange(0, 4) =~= be32(chunk.ssrc));
    assert(buf.subrange(off + 4, end - 1) =~= body.subrange(4, chunk.body_len() - 1));
    assert(body.subrange(4, chunk.body_len() - 1) =~= items_bytes(chunk.items));
    assert(buf[end - 1] == body[chunk.body_len() - 1]);
    lemma_decode_items_prefix(buf, off + 4, chunk.items);
    assert(chunk.items + Seq::<ItemView>::empty() =~= chunk.items);
}

/// Where chunks stand in `buf` as laid down from `off`, reading as many chunks at `off` gives
/// those chunks and stops after the last.
pub proof fn lemma_decode_encoded_chunks(buf: Seq<u8>, off: int, chunks: Seq<ChunkView>)
    requires
        forall|i: int| 0 <= i < chunks.len() ==> (#[trigger] chunks[i]).wf(),
        forall|i: int| 0 <= i < chunks.len() ==> (#[trigger] chunks[i]).nonzero_tags(),
        0 <= off,
        off + chunks_len_at(chunks, off) <= buf.len(),
        buf.subrange(off, off + chunks_len_at(chunks, off)) == chunks_bytes_at(chunks, off),
    ensures
        decode_chunks(buf, off, chunks.len()) == (Some(chunks), off + chunks_len_at(chunks, off)),
    decreases chunks.len(),
{
    if chunks.len() > 0 {
        let chunk = chunks[0];
        let rest = chunks.drop_first();
        let next = off + chunk.len_at(off);
        let all = buf.subrange(off, off + chunks_len_at(chunks, off));
        lemma_chunk_layout(chunk, off);
        lemma_chunks_layout(rest, next);
        assert(chunk.wf() && chunk.nonzero_tags());
        assert(buf.subrange(off, off + chunk.body_len()) =~= all.subrange(0, chunk.body_len()));
        assert(all.subrange(0, chunk.body_len()) =~= chunk.body());
        lemma_decode_encoded_chunk(buf, off, chunk);
        assert(buf.subrange(next, next + chunks_len_at(rest, next)) =~= all.subrange(
            chunk.len_at(off),
            chunks_len_at(chunks, off),
        ));
        assert(all.subrange(chunk.len_at(off), chunks_len_at(chunks, off)) =~= chunks_bytes_at(
            rest,
            next,
        ));
        assert forall|i: int| 0 <= i < rest.len() implies (#[trigger] rest[i]).wf()
            && rest[i].nonzero_tags() by {
            assert(rest[i] == chunks[i + 1]);
        }
        lemma_decode_encoded_chunks(buf, next, rest);
        assert(seq![chunk] + rest =~= chunks);
    }
}

/// At an offset that is a multiple of four, a chunk is laid down in exactly `length()` bytes;
/// and `length()` is a multiple of four.
pub proof fn lemma_chunk_length(chunk: ChunkView, off: int)
    requires
        off % 4 == 0,
    ensures
        chunk.bytes_at(off).len() == chunk.length(),
        chunk.len_at(off) == chunk.length(),
        chunk.length() % 4 == 0,
{
    lemma_chunk_layout(chunk, off);
}

/// At an offset that is a multiple of four, a packet body is laid down in exactly `length()`
/// bytes, the sum of its chunks' sizes.
pub proof fn lemma_packet_length(packet: PacketView, off: int)
    requires
        off % 4 == 0,
    ensures
        packet.bytes_at(off).len() == packet.length(),
        packet.len_at(off) == packet.length(),
        packet.length() % 4 == 0,
    decreases packet.chunks.len(),
{
    lemma_chunks_layout(packet.chunks, off);
    lemma_chunks_length(packet.chunks);
    if packet.chunks.len() > 0 {
        lemma_chunk_length(packet.chunks[0], off);
        lemma_packet_length(
            PacketView { chunks: packet.chunks.drop_first() },
            off + packet.chunks[0].len_at(off),
        );
    }
}

/// A chunk's size is within three bytes of what it takes at any offset, and a chunk of `n`
/// items with values of at most 255 bytes has a size of at most `257 * n + 8`.
pub proof fn lemma_chunk_length_bound(chunk: ChunkView, off: int)
    ensures
        chunk.len_at(off) - 3 <= chunk.length() <= chunk.len_at(off) + 3,
        chunk.wf() ==> chunk.length() <= 257 * chunk.items.len() + 8,
{
    lemma_chunk_layout(chunk, off);
    lemma_padding(chunk.body_len());
    if chunk.wf() {
        lemma_items_len_bound(chunk.items);
    }
}

/// A packet body of chunks whose sizes are at most `bound` has a size of at most `bound` for
/// each chunk.
pub proof fn lemma_packet_length_bound(packet: PacketView, bound: int)
    requires
        forall|i: int|
            0 <= i < packet.chunks.len() ==> (#[trigger] packet.chunks[i]).length() <= bound,
    ensures
        packet.length() <= packet.chunks.len() * bound,
    decreases packet.chunks.len(),
{
    if packet.chunks.len() > 0 {
        let rest = packet.chunks.drop_first();
        let n = packet.chunks.len() as int;
        assert(packet.chunks[0].length() <= bound);
        assert forall|i: int| 0 <= i < rest.len() implies (#[trigger] rest[i]).length()
            <= bound by {
            assert(rest[i] == packet.chunks[i + 1]);
        }
        lemma_packet_length_bound(PacketView { chunks: rest }, bound);
        assert((n - 1) * bound + bound == n * bound) by (nonlinear_arith);
    }
}

/// Where the buffer ends before a terminator, no chunk is read: that is, where the bytes
/// after the identifier, up to the end of the buffer, are whole items with tags other than
/// zero and then the first `cut` bytes of one more, short of all of it.
pub proof fn lemma_no_terminator(
    buf: Seq<u8>,
    off: int,
    items: Seq<ItemView>,
    last: ItemView,
    cut: int,
)
    requires
        0 <= off,
        off + 4 <= buf.len(),
        forall|i: int| 0 <= i < items.len() ==> (#[trigger] items[i]).wf(),
        forall|i: int| 0 <= i < items.len() ==> (#[trigger] items[i]).nonzero_tag(),
        last.wf(),
        last.nonzero_tag(),
        0 <= cut < last.bytes().len(),
        buf.subrange(off + 4, buf.len() as int) == items_bytes(items) + last.bytes().take(cut),
    ensures
        decode_chunk(buf, off).0 is None,
{
    let pos = off + 4;
    let rest = buf.subrange(pos, buf.len() as int);
    let stop = pos + items_len(items);
    lemma_items_layout(items);
    assert(last.bytes().take(cut).len() == cut);
    assert(rest.len() == items_len(items) + cut);
    assert(buf.subrange(pos, stop) =~= rest.subrange(0, items_len(items)));
    assert(rest.subrange(0, items_len(items)) =~= items_bytes(items));
    lemma_decode_items_prefix(buf, pos, items);
    if cut >= 1 {
        assert(buf[stop] == rest[items_len(items)]);
    }
    if cut >= 2 {
        assert(buf[stop + 1] == rest[items_len(items) + 1]);
    }
}

/// Where, after the identifier and whole items with tags other than zero, an item's tag and
/// length byte stand in the buffer and fewer bytes than that length follow, no chunk is read,
/// and reading stops after the length byte.
pub proof fn lemma_truncated_item(
    buf: Seq<u8>,
    off: int,
    items: Seq<ItemView>,
    item_type: u8,
    length: u8,
)
    requires
        0 <= off,
        off + 4 + items_len(items) + 2 <= buf.len(),
        forall|i: int| 0 <= i < items.len() ==> (#[trigger] items[i]).wf(),
        forall|i: int| 0 <= i < items.len() ==> (#[trigger] items[i]).nonzero_tag(),
        item_type != 0,
        buf.subrange(off + 4, off + 4 + items_len(items) + 2) == items_bytes(items) + seq![
            item_type,
            length,
        ],
        buf.len() - (off + 4 + items_len(items) + 2) < length,
    ensures
        decode_chunk(buf, off) == (None::<ChunkView>, off + 4 + items_len(items) + 2),
{
    let pos = off + 4;
    let stop = pos + items_len(items);
    let here = buf.subrange(pos, stop + 2);
    lemma_items_layout(items);
    assert(buf.subrange(pos, stop) =~= here.subrange(0, items_len(items)));
    assert(here.subrange(0, items_len(items)) =~= items_bytes(items));
    lemma_decode_items_prefix(buf, pos, items);
    assert(buf[stop] == here[items_len(items)]);
    assert(buf[stop + 1] == here[items_len(items) + 1]);
}

/// Items that were read stand in the buffer: each has a value of at most 255 bytes and a
/// tag other than zero, and from `pos` to where reading stopped the buffer holds their
/// layout and the terminator.
pub proof fn lemma_decoded_items(buf: Seq<u8>, pos: int)
    ensures
        decode_items(buf, pos) matches (Some(items), end) ==> {
            &&& forall|i: int| 0 <= i < items.len() ==> (#[trigger] items[i]).wf()
            &&& forall|i: int| 0 <= i < items.len() ==> (#[trigger] items[i]).nonzero_tag()
            &&& 0 <= pos
            &&& end == pos + items_len(items) + 1
            &&& end <= buf.len()
            &&& buf.subrange(pos, end) == items_bytes(items) + seq![0u8]
        },
    decreases buf.len() - pos,
{
    if let (Some(items), end) = decode_items(buf, pos) {
        if buf[pos] == 0 {
            assert(items =~= Seq::empty());
            assert(buf.subrange(pos, end) =~= items_bytes(items) + seq![0u8]);
        } else {
            let next = pos + 2 + buf[pos + 1];
            let item = ItemView { item_type: buf[pos], data: buf.subrange(pos + 2, next) };
            let rest = decode_items(buf, next).0.unwrap();
            lemma_decoded_items(buf, next);
            lemma_items_layout(rest);
            assert(items =~= seq![item] + rest);
            assert(items.drop_first() =~= rest);
            assert forall|i: int| 0 <= i < items.len() implies (#[trigger] items[i]).wf()
                && items[i].nonzero_tag() by {
                if i > 0 {
                    assert(items[i] == rest[i - 1]);
                }
            }
            assert(buf.subrange(pos, end) =~= item.bytes() + buf.subrange(next, end));
            assert(item.bytes() + (items_bytes(rest) + seq![0u8]) =~= items_bytes(items) + seq![
                0u8,
            ]);
        }
    }
}

/// A chunk that was read stands in the buffer: its items have values of at most 255 bytes
/// and tags other than zero, the buffer holds its body at `off`, and reading stopped within
/// the buffer, after the padding.
pub proof fn lemma_decoded_chunk(buf: Seq<u8>, off: int)
    ensures
        decode_chunk(buf, off) matches (Some(chunk), end) ==> {
            &&& chunk.wf()
            &&& chunk.nonzero_tags()
            &&& 0 <= off
            &&& end == off + chunk.len_at(off)
            &&& end <= buf.len()
            &&& buf.subrange(off, off + chunk.body_len()) == chunk.body()
        },
{
    if let (Some(chunk), end) = decode_chunk(buf, off) {
        let after = off + chunk.body_len();
        lemma_decoded_items(buf, off + 4);
        lemma_from_be32_round_trip(buf.subrange(off, off + 4));
        lemma_chunk_layout(chunk, off);
        assert(buf.subrange(off, after) =~= buf.subrange(off, off + 4) + buf.subrange(
            off + 4,
            after,
        ));
    }
}

/// Chunks that were read: there are `count` of them, their items have values of at most
/// 255 bytes and tags other than zero, and reading stopped where chunks of those sizes,
/// laid down one after the other from `off`, end.
pub proof fn lemma_decoded_chunks(buf: Seq<u8>, off: int, count: nat)
    ensures
        decode_chunks(buf, off, count) matches (Some(chunks), end) ==> {
            &&& chunks.len() == count
            &&& forall|i: int| 0 <= i < chunks.len() ==> (#[trigger] chunks[i]).wf()
            &&& forall|i: int| 0 <= i < chunks.len() ==> (#[trigger] chunks[i]).nonzero_tags()
            &&& end == off + chunks_len_at(chunks, off)
            &&& count > 0 ==> 0 <= off && end <= buf.len()
        },
    decreases count,
{
    if let (Some(chunks), end) = decode_chunks(buf, off, count) {
        if count > 0 {
            let (first, next) = decode_chunk(buf, off);
            let chunk = first.unwrap();
            let rest = decode_chunks(buf, next, (count - 1) as nat).0.unwrap();
            lemma_decoded_chunk(buf, off);
            lemma_decoded_chunks(buf, next, (count - 1) as nat);
            lemma_chunk_layout(chunk, off);
            assert(chunks =~= seq![chunk] + rest);
            assert(chunks.drop_first() =~= rest);
            assert forall|i: int| 0 <= i < chunks.len() implies (#[trigger] chunks[i]).wf()
                && chunks[i].nonzero_tags() by {
                if i > 0 {
                    assert(chunks[i] == rest[i - 1]);
                }
            }
        }
    }
}

} // verus!
