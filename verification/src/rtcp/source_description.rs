//! The SDES packet body: chunks of typed description items (RFC 3550, section 6.5).
//!
//! ```text
//!         0                   1                   2                   3
//!         0 1 2 3 4 5 6 7 8 9 0 1 2 3 4 5 6 7 8 9 0 1 2 3 4 5 6 7 8 9 0 1
//!        +=+=+=+=+=+=+=+=+=+=+=+=+=+=+=+=+=+=+=+=+=+=+=+=+=+=+=+=+=+=+=+=+
//! chunk  |                          SSRC/CSRC_1                          |
//!   1    +-+-+-+-+-+-+-+-+-+-+-+-+-+-+-+-+-+-+-+-+-+-+-+-+-+-+-+-+-+-+-+-+
//!        |                           SDES items                          |
//!        |                              ...                              |
//!        +=+=+=+=+=+=+=+=+=+=+=+=+=+=+=+=+=+=+=+=+=+=+=+=+=+=+=+=+=+=+=+=+
//! chunk  |                          SSRC/CSRC_2                          |
//!   2    +-+-+-+-+-+-+-+-+-+-+-+-+-+-+-+-+-+-+-+-+-+-+-+-+-+-+-+-+-+-+-+-+
//!        |                           SDES items                          |
//!        |                              ...                              |
//!        +=+=+=+=+=+=+=+=+=+=+=+=+=+=+=+=+=+=+=+=+=+=+=+=+=+=+=+=+=+=+=+=+
//! ```
//!
//! The packet header, with its count of chunks, belongs to the caller.

use crate::octets::{be32, Octets, OctetsView};
use crate::rtcp::laws::{lemma_decoded_chunk, lemma_decoded_chunks};
use crate::rtcp::lemmas::{
    lemma_chunk_layout, lemma_chunks_layout, lemma_chunks_length, lemma_items_layout,
    lemma_padding, lemma_prepend,
};
use crate::rtcp::wire::{
    chunks_fields_at, chunks_len_at, chunks_length, decode_chunk, decode_chunks, decode_items,
    items_fields, items_len, padding, prepend, zero_fields, ChunkView, ItemView, PacketView,
};
use crate::rtcp::RtcpError;
use vstd::prelude::*;
use vstd::std_specs::cmp::PartialEqSpecImpl;

verus! {

/// Number of padding bytes that follow `len` bytes to reach a multiple of four.
pub fn get_padding(len: usize) -> (pad: usize)
    ensures
        pad == padding(len as int),
        pad <= 3,
        (len + pad) % 4 == 0,
{
    if len % 4 == 0 {
        return 0;
    }
    4 - (len % 4)
}

/// One description item: a type tag, which this codec does not interpret, and a value of at
/// most 255 bytes.
#[derive(Debug, Clone, Eq, Hash)]
pub struct RtcpSourceDescriptionItem {
    pub item_type: u8,
    pub data: Vec<u8>,
}

impl View for RtcpSourceDescriptionItem {
    type V = ItemView;

    open spec fn view(&self) -> ItemView {
        ItemView { item_type: self.item_type, data: self.data@ }
    }
}

impl PartialEq for RtcpSourceDescriptionItem {
    /// Items are equal by value: the same tag and the same bytes.
    fn eq(&self, other: &Self) -> (equal: bool) {
        if self.item_type != other.item_type || self.data.len() != other.data.len() {
            return false;
        }
        let mut i: usize = 0;
        while i < self.data.len()
            invariant
                i <= self.data.len(),
                self.data.len() == other.data.len(),
                self.data@.subrange(0, i as int) == other.data@.subrange(0, i as int),
            decreases self.data.len() - i,
        {
            if self.data[i] != other.data[i] {
                return false;
            }
            i += 1;
            assert(self.data@.subrange(0, i as int) =~= self.data@.subrange(0, i - 1).push(
                self.data@[i - 1],
            ));
            assert(other.data@.subrange(0, i as int) =~= other.data@.subrange(0, i - 1).push(
                other.data@[i - 1],
            ));
        }
        assert(self.data@ =~= self.data@.subrange(0, i as int));
        assert(other.data@ =~= other.data@.subrange(0, i as int));
        true
    }
}

impl PartialEqSpecImpl for RtcpSourceDescriptionItem {
    open spec fn obeys_eq_spec() -> bool {
        true
    }

    open spec fn eq_spec(&self, other: &Self) -> bool {
        self@ == other@
    }
}

/// The views of `items`, in order.
pub open spec fn items_view(items: Seq<RtcpSourceDescriptionItem>) -> Seq<ItemView> {
    items.map_values(|item: RtcpSourceDescriptionItem| item@)
}

/// One source's identifier and its description items, in order.
#[derive(Debug, Clone, Eq, Hash)]
pub struct RtcpSourceDescriptionChunk {
    ssrc: u32,
    items: Vec<RtcpSourceDescriptionItem>,
}

impl View for RtcpSourceDescriptionChunk {
    type V = ChunkView;

    closed spec fn view(&self) -> ChunkView {
        ChunkView { ssrc: self.ssrc, items: items_view(self.items@) }
    }
}

impl PartialEq for RtcpSourceDescriptionChunk {
    /// Chunks are equal by value: the same identifier and equal items in the same order.
    fn eq(&self, other: &Self) -> (equal: bool) {
        if self.ssrc != other.ssrc || self.items.len() != other.items.len() {
            assert(self@.ssrc != other@.ssrc || self@.items.len() != other@.items.len());
            return false;
        }
        let mut i: usize = 0;
        while i < self.items.len()
            invariant
                i <= self.items.len(),
                self.items.len() == other.items.len(),
                self@.items.subrange(0, i as int) == other@.items.subrange(0, i as int),
            decreases self.items.len() - i,
        {
            if self.items[i] != other.items[i] {
                assert(self@.items[i as int] != other@.items[i as int]);
                return false;
            }
            i += 1;
            assert(self@.items.subrange(0, i as int) =~= self@.items.subrange(0, i - 1).push(
                self@.items[i - 1],
            ));
            assert(other@.items.subrange(0, i as int) =~= other@.items.subrange(0, i - 1).push(
                other@.items[i - 1],
            ));
        }
        assert(self@.items =~= self@.items.subrange(0, i as int));
        assert(other@.items =~= other@.items.subrange(0, i as int));
        true
    }
}

impl PartialEqSpecImpl for RtcpSourceDescriptionChunk {
    open spec fn obeys_eq_spec() -> bool {
        true
    }

    open spec fn eq_spec(&self, other: &Self) -> bool {
        self@ == other@
    }
}

impl RtcpSourceDescriptionChunk {
    /// The chunk of source `ssrc` with `items`.
    pub fn new(ssrc: u32, items: Vec<RtcpSourceDescriptionItem>) -> (chunk: Self)
        ensures
            chunk@ == (ChunkView { ssrc, items: items_view(items@) }),
    {
        RtcpSourceDescriptionChunk { ssrc, items }
    }

    /// The chunk's encoded size in bytes: four for the identifier, two and the value's length
    /// for each item, one for the terminator, rounded up to a multiple of four.
    ///
    /// The size has to fit the result. It does for a chunk that was read from a buffer of less
    /// than four gigabytes, or that has fewer than sixteen million items of at most 255 bytes.
    pub fn get_length(&self) -> (len: u32)
        requires
            self@.length() <= u32::MAX,
        ensures
            len == self@.length(),
            len % 4 == 0,
    {
        let mut b_length: usize = 4;
        let mut i: usize = 0;
        proof {
            lemma_padding(self@.body_len());
            lemma_items_layout(self@.items);
            assert(self@.items.skip(0) =~= self@.items);
        }
        while i < self.items.len()
            invariant
                i <= self.items.len(),
                self@.length() <= u32::MAX,
                0 <= padding(self@.body_len()),
                b_length + items_len(self@.items.skip(i as int)) == 4 + items_len(self@.items),
            decreases self.items.len() - i,
        {
            proof {
                let rest = self@.items.skip(i as int);
                assert(rest.drop_first() =~= self@.items.skip(i + 1));
                lemma_items_layout(rest.drop_first());
            }
            b_length += 2 + self.items[i].data.len();
            i += 1;
        }
        b_length += 1;
        b_length += get_padding(b_length);
        b_length as u32
    }

    /// Writes the chunk at the cursor: the identifier, each item as tag, length and value,
    /// the terminator, and zero bytes up to the next offset that is a multiple of four.
    ///
    /// No item's value may be longer than 255 bytes: its length is written as one byte.
    ///
    /// Fails exactly when the chunk does not fit in the room that is left. The cursor then
    /// holds every write that went before the one that did not fit.
    #[verifier::loop_isolation(false)]
    pub fn to_bytes(&self, out: &mut Octets) -> (r: Result<(), RtcpError>)
        requires
            self@.wf(),
        ensures
            r is Ok <==> self@.len_at(old(out)@.off) <= old(out)@.room(),
            r is Ok ==> final(out)@ == old(out)@.put(self@.bytes_at(old(out)@.off)),
            r matches Err(e) ==> e == RtcpError::BoundsViolation,
            r is Err ==> final(out)@ == old(out)@.put_all(self@.fields_at(old(out)@.off)),
    {
        let ghost start = out@;
        let ghost chunk = self@;
        let ghost all = chunk.fields_at(start.off);
        let ghost size = chunk.len_at(start.off);
        let ghost tail = seq![seq![0u8]] + zero_fields(chunk.pad_at(start.off));
        proof {
            out.lemma_view_wf();
            lemma_chunk_layout(chunk, start.off);
            lemma_items_layout(chunk.items);
            start.lemma_put_all(all);
            assert(all =~= seq![be32(chunk.ssrc)] + (items_fields(chunk.items) + tail));
            start.lemma_put_all_first(be32(chunk.ssrc), items_fields(chunk.items) + tail);
            assert(chunk.items.skip(0) =~= chunk.items);
        }
        if out.put_u32(self.ssrc).is_err() {
            return Err(RtcpError::BoundsViolation);
        }
        proof {
            start.lemma_put_wf(be32(chunk.ssrc));
        }
        let mut i: usize = 0;
        while i < self.items.len()
            invariant
                i <= self.items.len(),
                out@.wf(),
                out@.buf.len() == start.buf.len(),
                out@.off + items_len(chunk.items.skip(i as int)) + 1 + chunk.pad_at(start.off)
                    == start.off + size,
                start.put_all(all) == out@.put_all(items_fields(chunk.items.skip(i as int)) + tail),
            decreases self.items.len() - i,
        {
            let item = &self.items[i];
            let ghost rest = items_fields(chunk.items.skip(i + 1)) + tail;
            let ghost tag = seq![item.item_type];
            let ghost len = seq![item.data.len() as u8];
            proof {
                let items = chunk.items.skip(i as int);
                assert(items[0] == item@);
                assert(items[0].wf());
                assert(items.drop_first() =~= chunk.items.skip(i + 1));
                lemma_items_layout(items.drop_first());
                assert(items_fields(items) + tail =~= seq![tag] + (seq![len] + (seq![item.data@]
                    + rest)));
                out@.lemma_put_all_first(tag, seq![len] + (seq![item.data@] + rest));
            }
            if out.put_u8(item.item_type).is_err() {
                return Err(RtcpError::BoundsViolation);
            }
            proof {
                out@.lemma_put_all_first(len, seq![item.data@] + rest);
            }
            if out.put_u8(item.data.len() as u8).is_err() {
                return Err(RtcpError::BoundsViolation);
            }
            proof {
                out@.lemma_put_all_first(item.data@, rest);
            }
            if out.put_bytes(item.data.as_slice()).is_err() {
                return Err(RtcpError::BoundsViolation);
            }
            i += 1;
        }
        proof {
            assert(items_fields(chunk.items.skip(i as int)) + tail =~= tail);
            out@.lemma_put_all_first(seq![0u8], zero_fields(chunk.pad_at(start.off)));
        }
        if out.put_u8(0).is_err() {
            return Err(RtcpError::BoundsViolation);
        }
        let pad = get_padding(out.off());
        if pad > 3 {
            // Never taken: `get_padding` gives at most three.
            return Err(RtcpError::InvalidPaddingSize);
        }
        let mut written: usize = 0;
        while written < pad
            invariant
                written <= pad,
                out@.wf(),
                out@.buf.len() == start.buf.len(),
                out@.off + (pad - written) == start.off + size,
                start.put_all(all) == out@.put_all(zero_fields(pad - written)),
            decreases pad - written,
        {
            proof {
                let left = zero_fields(pad - written);
                assert(left =~= seq![seq![0u8]] + zero_fields(pad - written - 1));
                out@.lemma_put_all_first(seq![0u8], zero_fields(pad - written - 1));
            }
            if out.put_u8(0).is_err() {
                return Err(RtcpError::BoundsViolation);
            }
            written += 1;
        }
        proof {
            let bytes = chunk.bytes_at(start.off);
            assert(bytes.take(size) =~= bytes);
        }
        Ok(())
    }

    /// Reads one chunk at the cursor: the identifier, then items up to the terminator, then
    /// the bytes, whatever they hold, that pad the offset to a multiple of four.
    ///
    /// Fails where the buffer ends before all of that was read. The cursor then stands at the
    /// read that did not fit. What is read is what `decode_chunk` gives; a chunk that was read
    /// has items that can be written again, and its body is what stood at the cursor.
    #[verifier::loop_isolation(false)]
    pub fn from_bytes(bytes: &mut Octets) -> (r: Result<RtcpSourceDescriptionChunk, RtcpError>)
        ensures
            ({
                let (chunk, end) = decode_chunk(old(bytes)@.buf, old(bytes)@.off);
                &&& final(bytes)@ == (OctetsView { buf: old(bytes)@.buf, off: end })
                &&& match r {
                    Ok(c) => chunk == Some(c@),
                    Err(e) => chunk is None && e == RtcpError::BoundsViolation,
                }
            }),
            r matches Ok(c) ==> {
                &&& c@.wf()
                &&& c@.nonzero_tags()
                &&& old(bytes)@.peek(c@.body_len()) == c@.body()
                &&& final(bytes)@ == old(bytes)@.skip(c@.len_at(old(bytes)@.off))
            },
    {
        let ghost start = bytes@;
        proof {
            bytes.lemma_view_wf();
            lemma_decoded_chunk(start.buf, start.off);
        }
        let ssrc = match bytes.get_u32() {
            Ok(ssrc) => ssrc,
            Err(_) => return Err(RtcpError::BoundsViolation),
        };
        let mut items: Vec<RtcpSourceDescriptionItem> = Vec::new();
        proof {
            assert(items_view(items@) =~= Seq::empty());
            lemma_prepend(items_view(items@), Seq::empty(), decode_items(start.buf, bytes@.off));
        }
        loop
            invariant
                bytes@.wf(),
                bytes@.buf == start.buf,
                start.off + 4 <= bytes@.off,
                decode_items(start.buf, start.off + 4) == prepend(
                    items_view(items@),
                    decode_items(start.buf, bytes@.off),
                ),
            decreases bytes@.buf.len() - bytes@.off,
        {
            let ghost seen = items_view(items@);
            let ghost here = bytes@.off;
            let item_type = match bytes.get_u8() {
                Ok(item_type) => item_type,
                Err(_) => return Err(RtcpError::BoundsViolation),
            };
            if item_type == 0 {
                proof {
                    lemma_prepend(seen, Seq::empty(), decode_items(start.buf, here));
                }
                let pad = get_padding(bytes.off());
                if pad > 0 {
                    if bytes.skip(pad).is_err() {
                        return Err(RtcpError::BoundsViolation);
                    }
                }
                return Ok(RtcpSourceDescriptionChunk { ssrc, items });
            }
            let length = match bytes.get_u8() {
                Ok(length) => length,
                Err(_) => return Err(RtcpError::BoundsViolation),
            };
            let data = match bytes.get_bytes(length as usize) {
                Ok(data) => data,
                Err(_) => return Err(RtcpError::BoundsViolation),
            };
            let item = RtcpSourceDescriptionItem { item_type, data };
            proof {
                assert(items_view(items@.push(item)) =~= seen + seq![item@]);
                lemma_prepend(seen, seq![item@], decode_items(start.buf, bytes@.off));
            }
            items.push(item);
        }
    }
}

/// The views of `chunks`, in order.
pub open spec fn chunks_view(chunks: Seq<RtcpSourceDescriptionChunk>) -> Seq<ChunkView> {
    chunks.map_values(|chunk: RtcpSourceDescriptionChunk| chunk@)
}

/// The body of an SDES packet: its chunks, in the order in which the sender lists its sources.
#[derive(Debug, Clone, Eq, Hash)]
pub struct RtcpSourceDescriptionPacket {
    chunks: Vec<RtcpSourceDescriptionChunk>,
}

impl View for RtcpSourceDescriptionPacket {
    type V = PacketView;

    closed spec fn view(&self) -> PacketView {
        PacketView { chunks: chunks_view(self.chunks@) }
    }
}

impl PartialEq for RtcpSourceDescriptionPacket {
    /// Packet bodies are equal by value: equal chunks in the same order.
    fn eq(&self, other: &Self) -> (equal: bool) {
        if self.chunks.len() != other.chunks.len() {
            return false;
        }
        let mut i: usize = 0;
        while i < self.chunks.len()
            invariant
                i <= self.chunks.len(),
                self.chunks.len() == other.chunks.len(),
                self@.chunks.subrange(0, i as int) == other@.chunks.subrange(0, i as int),
            decreases self.chunks.len() - i,
        {
            if self.chunks[i] != other.chunks[i] {
                assert(self@.chunks[i as int] != other@.chunks[i as int]);
                return false;
            }
            i += 1;
            assert(self@.chunks.subrange(0, i as int) =~= self@.chunks.subrange(0, i - 1).push(
                self@.chunks[i - 1],
            ));
            assert(other@.chunks.subrange(0, i as int) =~= other@.chunks.subrange(0, i - 1).push(
                other@.chunks[i - 1],
            ));
        }
        assert(self@.chunks =~= self@.chunks.subrange(0, i as int));
        assert(other@.chunks =~= other@.chunks.subrange(0, i as int));
        true
    }
}

impl PartialEqSpecImpl for RtcpSourceDescriptionPacket {
    open spec fn obeys_eq_spec() -> bool {
        true
    }

    open spec fn eq_spec(&self, other: &Self) -> bool {
        self@ == other@
    }
}

impl RtcpSourceDescriptionPacket {
    /// The packet body with `chunks`.
    pub fn new(chunks: Vec<RtcpSourceDescriptionChunk>) -> (packet: Self)
        ensures
            packet@ == (PacketView { chunks: chunks_view(chunks@) }),
    {
        Self { chunks }
    }

    /// The packet body's encoded size in bytes: the sum of its chunks' sizes.
    ///
    /// The size has to fit the result.
    pub fn get_length(&self) -> (len: u32)
        requires
            self@.length() <= u32::MAX,
        ensures
            len == self@.length(),
            len % 4 == 0,
    {
        let mut sum: u32 = 0;
        let mut i: usize = 0;
        proof {
            assert(self@.chunks.skip(0) =~= self@.chunks);
            lemma_chunks_length(self@.chunks);
        }
        while i < self.chunks.len()
            invariant
                i <= self.chunks.len(),
                self@.length() <= u32::MAX,
                sum + chunks_length(self@.chunks.skip(i as int)) == chunks_length(self@.chunks),
            decreases self.chunks.len() - i,
        {
            proof {
                let rest = self@.chunks.skip(i as int);
                assert(rest.drop_first() =~= self@.chunks.skip(i + 1));
                lemma_chunks_length(rest);
                lemma_chunks_length(rest.drop_first());
            }
            sum = sum + self.chunks[i].get_length();
            i += 1;
        }
        sum
    }

    /// The number of chunks, cut down to the eight bits of a count in the packet header.
    /// It is the number of chunks where there are at most 255.
    pub fn get_chunks_length(&self) -> (count: u8)
        ensures
            count == self@.chunk_count(),
    {
        let len = self.chunks.len();
        assert(len as u8 == len % 256) by (bit_vector);
        #[verifier::truncate]
        (len as u8)
    }

    /// Writes the chunks at the cursor, one after the other.
    ///
    /// No item's value may be longer than 255 bytes.
    ///
    /// Fails exactly when they do not all fit in the room that is left. The cursor then holds
    /// every write that went before the one that did not fit.
    #[verifier::loop_isolation(false)]
    pub fn to_bytes(&self, out: &mut Octets) -> (r: Result<(), RtcpError>)
        requires
            self@.wf(),
        ensures
            r is Ok <==> self@.len_at(old(out)@.off) <= old(out)@.room(),
            r is Ok ==> final(out)@ == old(out)@.put(self@.bytes_at(old(out)@.off)),
            r matches Err(e) ==> e == RtcpError::BoundsViolation,
            r is Err ==> final(out)@ == old(out)@.put_all(self@.fields_at(old(out)@.off)),
    {
        let ghost start = out@;
        let ghost packet = self@;
        let ghost all = packet.fields_at(start.off);
        let ghost size = packet.len_at(start.off);
        proof {
            out.lemma_view_wf();
            lemma_chunks_layout(packet.chunks, start.off);
            start.lemma_put_all(all);
            assert(packet.chunks.skip(0) =~= packet.chunks);
        }
        let mut i: usize = 0;
        while i < self.chunks.len()
            invariant
                i <= self.chunks.len(),
                out@.wf(),
                out@.buf.len() == start.buf.len(),
                out@.off + chunks_len_at(packet.chunks.skip(i as int), out@.off) == start.off
                    + size,
                start.put_all(all) == out@.put_all(
                    chunks_fields_at(packet.chunks.skip(i as int), out@.off),
                ),
            decreases self.chunks.len() - i,
        {
            let chunk = &self.chunks[i];
            proof {
                let here = out@;
                let chunks = packet.chunks.skip(i as int);
                let next = here.off + chunk@.len_at(here.off);
                assert(chunks[0] == chunk@);
                assert(packet.chunks[i as int].wf());
                assert(chunks.drop_first() =~= packet.chunks.skip(i + 1));
                lemma_chunk_layout(chunk@, here.off);
                lemma_chunks_layout(chunks.drop_first(), next);
                here.lemma_put_all(chunk@.fields_at(here.off));
                here.lemma_put_all_concat(
                    chunk@.fields_at(here.off),
                    chunks_fields_at(chunks.drop_first(), next),
                );
                assert(chunk@.bytes_at(here.off).take(chunk@.len_at(here.off))
                    =~= chunk@.bytes_at(here.off));
            }
            match chunk.to_bytes(out) {
                Ok(()) => {},
                Err(e) => return Err(e),
            }
            i += 1;
        }
        proof {
            let bytes = packet.bytes_at(start.off);
            assert(bytes.take(size) =~= bytes);
        }
        Ok(())
    }

    /// Reads `count` chunks at the cursor, one after the other.
    ///
    /// Fails where the buffer ends before all of them were read. The cursor then stands at
    /// the read that did not fit.
    #[verifier::loop_isolation(false)]
    pub fn from_bytes(bytes: &mut Octets, count: u8) -> (r: Result<
        RtcpSourceDescriptionPacket,
        RtcpError,
    >)
        ensures
            ({
                let (chunks, end) = decode_chunks(old(bytes)@.buf, old(bytes)@.off, count as nat);
                &&& final(bytes)@ == (OctetsView { buf: old(bytes)@.buf, off: end })
                &&& match r {
                    Ok(p) => chunks == Some(p@.chunks),
                    Err(e) => chunks is None && e == RtcpError::BoundsViolation,
                }
            }),
            r matches Ok(p) ==> {
                &&& p@.chunks.len() == count
                &&& p@.wf()
                &&& p@.nonzero_tags()
                &&& final(bytes)@ == old(bytes)@.skip(p@.len_at(old(bytes)@.off))
            },
    {
        let ghost start = bytes@;
        let mut chunks: Vec<RtcpSourceDescriptionChunk> = Vec::new();
        let mut i: u8 = 0;
        proof {
            bytes.lemma_view_wf();
            lemma_decoded_chunks(start.buf, start.off, count as nat);
            assert(chunks_view(chunks@) =~= Seq::empty());
            lemma_prepend(
                chunks_view(chunks@),
                Seq::empty(),
                decode_chunks(start.buf, start.off, count as nat),
            );
        }
        while i < count
            invariant
                i <= count,
                bytes@.buf == start.buf,
                decode_chunks(start.buf, start.off, count as nat) == prepend(
                    chunks_view(chunks@),
                    decode_chunks(start.buf, bytes@.off, (count - i) as nat),
                ),
            decreases count - i,
        {
            let ghost seen = chunks_view(chunks@);
            let chunk = match RtcpSourceDescriptionChunk::from_bytes(bytes) {
                Ok(chunk) => chunk,
                Err(e) => return Err(e),
            };
            proof {
                assert(chunks_view(chunks@.push(chunk)) =~= seen + seq![chunk@]);
                lemma_prepend(
                    seen,
                    seq![chunk@],
                    decode_chunks(start.buf, bytes@.off, (count - i - 1) as nat),
                );
            }
            chunks.push(chunk);
            i += 1;
        }
        proof {
            lemma_prepend(chunks_view(chunks@), Seq::empty(), (Some(Seq::empty()), bytes@.off));
        }
        Ok(RtcpSourceDescriptionPacket { chunks })
    }
}

} // verus!
