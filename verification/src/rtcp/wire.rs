//! The byte layout of the SDES packet body, as mathematics.
//!
//! A chunk is laid out as
//!
//! ```text
//! 4 bytes   SSRC/CSRC, most significant byte first
//! repeated: 1 byte  item type (not zero)
//!           1 byte  item length L
//!           L bytes item data
//! 1 byte    terminator (zero)
//! 0-3 bytes zero padding, up to the next offset that is a multiple of four
//! ```
//!
//! and a packet body is its chunks one after the other. The padding goes by the offset in the
//! buffer, so every layout here is taken at an offset.
//!
//! The encoder is specified by the bytes it lays down (`bytes_at`) and, for what is left in
//! the buffer when room runs out, by the single writes it makes (`fields_at`). The decoder is
//! specified by the functions `decode_*`, which walk a buffer the way the layout reads.

use crate::octets::{be32, from_be32};
use vstd::prelude::*;

verus! {

/// Number of zero bytes that bring a length or an offset of `n` up to the next multiple of four.
pub open spec fn padding(n: int) -> int {
    (4 - n % 4) % 4
}

/// `n` zero bytes.
pub open spec fn zeros(n: int) -> Seq<u8> {
    Seq::new(n as nat, |i: int| 0u8)
}

/// `n` writes of one zero byte each.
pub open spec fn zero_fields(n: int) -> Seq<Seq<u8>> {
    Seq::new(n as nat, |i: int| seq![0u8])
}

/// A description item: a type tag and the bytes of its value.
pub struct ItemView {
    pub item_type: u8,
    pub data: Seq<u8>,
}

impl ItemView {
    /// The value's length fits the one length byte of the layout.
    pub open spec fn wf(self) -> bool {
        self.data.len() <= 255
    }

    /// The tag is not the zero that ends a chunk.
    pub open spec fn nonzero_tag(self) -> bool {
        self.item_type != 0
    }

    /// Tag, length, value.
    pub open spec fn bytes(self) -> Seq<u8> {
        seq![self.item_type, self.data.len() as u8] + self.data
    }

    /// The three writes that lay the item down.
    pub open spec fn fields(self) -> Seq<Seq<u8>> {
        seq![seq![self.item_type], seq![self.data.len() as u8], self.data]
    }
}

/// The items' layouts, one after the other.
pub open spec fn items_bytes(items: Seq<ItemView>) -> Seq<u8>
    decreases items.len(),
{
    if items.len() == 0 {
        Seq::empty()
    } else {
        items[0].bytes() + items_bytes(items.drop_first())
    }
}

/// The writes that lay the items down, in order.
pub open spec fn items_fields(items: Seq<ItemView>) -> Seq<Seq<u8>>
    decreases items.len(),
{
    if items.len() == 0 {
        Seq::empty()
    } else {
        items[0].fields() + items_fields(items.drop_first())
    }
}

/// Number of bytes the items take: two and the value's length, for each.
pub open spec fn items_len(items: Seq<ItemView>) -> int
    decreases items.len(),
{
    if items.len() == 0 {
        0
    } else {
        2 + items[0].data.len() + items_len(items.drop_first())
    }
}

/// A chunk: a source identifier and its items in order.
pub struct ChunkView {
    pub ssrc: u32,
    pub items: Seq<ItemView>,
}

impl ChunkView {
    /// Every item's value fits its length byte.
    pub open spec fn wf(self) -> bool {
        forall|i: int| 0 <= i < self.items.len() ==> (#[trigger] self.items[i]).wf()
    }

    /// No item carries the terminator's tag.
    pub open spec fn nonzero_tags(self) -> bool {
        forall|i: int| 0 <= i < self.items.len() ==> (#[trigger] self.items[i]).nonzero_tag()
    }

    /// Number of bytes before the padding: identifier, items, terminator.
    pub open spec fn body_len(self) -> int {
        4 + items_len(self.items) + 1
    }

    /// Identifier, items, terminator.
    pub open spec fn body(self) -> Seq<u8> {
        be32(self.ssrc) + items_bytes(self.items) + seq![0u8]
    }

    /// Number of padding bytes of the chunk laid down at offset `off`.
    pub open spec fn pad_at(self, off: int) -> int {
        padding(off + self.body_len())
    }

    /// The chunk as laid down at offset `off`.
    pub open spec fn bytes_at(self, off: int) -> Seq<u8> {
        self.body() + zeros(self.pad_at(off))
    }

    /// Number of bytes of the chunk laid down at offset `off`.
    pub open spec fn len_at(self, off: int) -> int {
        self.body_len() + self.pad_at(off)
    }

    /// The writes that lay the chunk down at offset `off`; each padding byte is one write.
    pub open spec fn fields_at(self, off: int) -> Seq<Seq<u8>> {
        seq![be32(self.ssrc)] + items_fields(self.items) + seq![seq![0u8]] + zero_fields(
            self.pad_at(off),
        )
    }

    /// The chunk's encoded size: its body rounded up to a multiple of four.
    pub open spec fn length(self) -> int {
        self.body_len() + padding(self.body_len())
    }
}

/// The chunks as laid down one after the other, the first at offset `off`.
pub open spec fn chunks_bytes_at(chunks: Seq<ChunkView>, off: int) -> Seq<u8>
    decreases chunks.len(),
{
    if chunks.len() == 0 {
        Seq::empty()
    } else {
        chunks[0].bytes_at(off) + chunks_bytes_at(chunks.drop_first(), off + chunks[0].len_at(off))
    }
}

/// Number of bytes of the chunks laid down one after the other, the first at offset `off`.
pub open spec fn chunks_len_at(chunks: Seq<ChunkView>, off: int) -> int
    decreases chunks.len(),
{
    if chunks.len() == 0 {
        0
    } else {
        chunks[0].len_at(off) + chunks_len_at(chunks.drop_first(), off + chunks[0].len_at(off))
    }
}

/// The writes that lay the chunks down one after the other, the first at offset `off`.
pub open spec fn chunks_fields_at(chunks: Seq<ChunkView>, off: int) -> Seq<Seq<u8>>
    decreases chunks.len(),
{
    if chunks.len() == 0 {
        Seq::empty()
    } else {
        chunks[0].fields_at(off) + chunks_fields_at(
            chunks.drop_first(),
            off + chunks[0].len_at(off),
        )
    }
}

/// The sum of the chunks' encoded sizes.
pub open spec fn chunks_length(chunks: Seq<ChunkView>) -> int
    decreases chunks.len(),
{
    if chunks.len() == 0 {
        0
    } else {
        chunks[0].length() + chunks_length(chunks.drop_first())
    }
}

/// A packet body: its chunks in order.
pub struct PacketView {
    pub chunks: Seq<ChunkView>,
}

impl PacketView {
    /// Every item of every chunk has a value that fits its length byte.
    pub open spec fn wf(self) -> bool {
        forall|i: int| 0 <= i < self.chunks.len() ==> (#[trigger] self.chunks[i]).wf()
    }

    /// No item of any chunk carries the terminator's tag.
    pub open spec fn nonzero_tags(self) -> bool {
        forall|i: int| 0 <= i < self.chunks.len() ==> (#[trigger] self.chunks[i]).nonzero_tags()
    }

    /// The packet body as laid down at offset `off`.
    pub open spec fn bytes_at(self, off: int) -> Seq<u8> {
        chunks_bytes_at(self.chunks, off)
    }

    /// Number of bytes of the packet body laid down at offset `off`.
    pub open spec fn len_at(self, off: int) -> int {
        chunks_len_at(self.chunks, off)
    }

    /// The writes that lay the packet body down at offset `off`.
    pub open spec fn fields_at(self, off: int) -> Seq<Seq<u8>> {
        chunks_fields_at(self.chunks, off)
    }

    /// The packet body's encoded size: the sum of its chunks' sizes.
    pub open spec fn length(self) -> int {
        chunks_length(self.chunks)
    }

    /// The number of chunks as the eight-bit count of the packet header holds it.
    pub open spec fn chunk_count(self) -> nat {
        self.chunks.len() % 256
    }
}

/// `head` put in front of what a decoding step produced, if it produced anything.
pub open spec fn prepend<T>(head: Seq<T>, tail: (Option<Seq<T>>, int)) -> (Option<Seq<T>>, int) {
    (
        match tail.0 {
            Some(rest) => Some(head + rest),
            None => None,
        },
        tail.1,
    )
}

/// Reads items from `buf`, the first at `pos`, up to and including the terminator.
///
/// Gives the items, or `None` where the buffer ends before the terminator or inside an item,
/// and the offset where reading stopped: past the terminator, or at the read that did not fit.
pub open spec fn decode_items(buf: Seq<u8>, pos: int) -> (Option<Seq<ItemView>>, int)
    decreases buf.len() - pos,
{
    if pos < 0 || pos >= buf.len() {
        (None, pos)
    } else if buf[pos] == 0 {
        (Some(Seq::empty()), pos + 1)
    } else if pos + 1 >= buf.len() {
        (None, pos + 1)
    } else if pos + 2 + buf[pos + 1] > buf.len() {
        (None, pos + 2)
    } else {
        let next = pos + 2 + buf[pos + 1];
        let item = ItemView { item_type: buf[pos], data: buf.subrange(pos + 2, next) };
        prepend(seq![item], decode_items(buf, next))
    }
}

/// Reads one chunk from `buf` at `off`: identifier, items, terminator, then as many bytes of
/// any value as pad the offset to a multiple of four.
///
/// Gives the chunk, or `None` where the buffer ends first, and the offset where reading
/// stopped.
pub open spec fn decode_chunk(buf: Seq<u8>, off: int) -> (Option<ChunkView>, int) {
    if off < 0 || off + 4 > buf.len() {
        (None, off)
    } else {
        let (items, end) = decode_items(buf, off + 4);
        match items {
            Some(items) if end + padding(end) <= buf.len() => (
                Some(ChunkView { ssrc: from_be32(buf.subrange(off, off + 4)), items }),
                end + padding(end),
            ),
            _ => (None, end),
        }
    }
}

/// Reads `count` chunks from `buf`, the first at `off`.
///
/// Gives the chunks, or `None` where one of them cannot be read, and the offset where reading
/// stopped.
pub open spec fn decode_chunks(buf: Seq<u8>, off: int, count: nat) -> (Option<Seq<ChunkView>>, int)
    decreases count,
{
    if count == 0 {
        (Some(Seq::empty()), off)
    } else {
        match decode_chunk(buf, off) {
            (Some(chunk), end) => prepend(seq![chunk], decode_chunks(buf, end, (count - 1) as nat)),
            (None, end) => (None, end),
        }
    }
}

} // verus!
