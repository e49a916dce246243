//! A bounds-checked cursor over a byte buffer of fixed size.
//!
//! Reads and writes start at the cursor's offset and move it forward. One that does not fit
//! between the offset and the end of the buffer fails and leaves the cursor as it was.

use vstd::prelude::*;

verus! {

/// Returned when a read or a write does not fit between the cursor's offset and the end of
/// its buffer.
#[derive(Debug, Clone, Copy, PartialEq, Eq, Structural)]
pub struct BufferTooShortError;

/// What a cursor is to a contract: the whole buffer and the offset of the next read or write.
pub struct OctetsView {
    pub buf: Seq<u8>,
    pub off: int,
}

impl OctetsView {
    /// The offset lies within the buffer, or just past its end.
    pub open spec fn wf(self) -> bool {
        0 <= self.off <= self.buf.len()
    }

    /// Number of bytes between the offset and the end of the buffer.
    pub open spec fn room(self) -> int {
        self.buf.len() - self.off
    }

    /// The next `n` bytes at the offset.
    pub open spec fn peek(self, n: int) -> Seq<u8> {
        self.buf.subrange(self.off, self.off + n)
    }

    /// The cursor moved `n` bytes forward over an unchanged buffer.
    pub open spec fn skip(self, n: int) -> OctetsView {
        OctetsView { buf: self.buf, off: self.off + n }
    }

    /// The cursor after `bytes` have replaced the bytes at its offset.
    pub open spec fn put(self, bytes: Seq<u8>) -> OctetsView {
        OctetsView {
            buf: self.buf.subrange(0, self.off) + bytes + self.buf.subrange(
                self.off + bytes.len(),
                self.buf.len() as int,
            ),
            off: self.off + bytes.len(),
        }
    }

    /// The cursor after `fields` have been written one after the other, each whole or not
    /// at all, up to the first that does not fit.
    pub open spec fn put_all(self, fields: Seq<Seq<u8>>) -> OctetsView
        decreases fields.len(),
    {
        if fields.len() == 0 || fields[0].len() > self.room() {
            self
        } else {
            self.put(fields[0]).put_all(fields.drop_first())
        }
    }
}

impl OctetsView {
    /// Writing `a` and then `b` is writing `a + b`.
    pub proof fn lemma_put_put(self, a: Seq<u8>, b: Seq<u8>)
        requires
            self.wf(),
            a.len() + b.len() <= self.room(),
        ensures
            self.put(a).put(b) == self.put(a + b),
    {
        assert(self.put(a).put(b).buf =~= self.put(a + b).buf);
    }

    /// Writing nothing changes nothing.
    pub proof fn lemma_put_empty(self)
        requires
            self.wf(),
        ensures
            self.put(Seq::empty()) == self,
    {
        assert(self.put(Seq::empty()).buf =~= self.buf);
    }

    /// A write that fits keeps the buffer's length and every byte before the offset.
    pub proof fn lemma_put_wf(self, bytes: Seq<u8>)
        requires
            self.wf(),
            bytes.len() <= self.room(),
        ensures
            self.put(bytes).wf(),
            self.put(bytes).buf.len() == self.buf.len(),
            self.put(bytes).buf.subrange(0, self.off) == self.buf.subrange(0, self.off),
            self.put(bytes).buf.subrange(self.off, self.off + bytes.len()) == bytes,
    {
        assert(self.put(bytes).buf.subrange(0, self.off) =~= self.buf.subrange(0, self.off));
        assert(self.put(bytes).buf.subrange(self.off, self.off + bytes.len()) =~= bytes);
    }

    /// The first of several writes either does not fit, and nothing is written, or is made
    /// and the others follow.
    pub proof fn lemma_put_all_first(self, first: Seq<u8>, others: Seq<Seq<u8>>)
        ensures
            self.put_all(seq![first] + others) == if first.len() > self.room() {
                self
            } else {
                self.put(first).put_all(others)
            },
    {
        assert((seq![first] + others).drop_first() =~= others);
    }

    /// The writes `a + b`: those of `a`, and then, if all of `a` fitted, those of `b`.
    pub proof fn lemma_put_all_concat(self, a: Seq<Seq<u8>>, b: Seq<Seq<u8>>)
        requires
            self.wf(),
        ensures
            self.put_all(a + b) == if a.flatten().len() <= self.room() {
                self.put_all(a).put_all(b)
            } else {
                self.put_all(a)
            },
        decreases a.len(),
    {
        if a.len() == 0 {
            assert(a + b =~= b);
        } else {
            assert((a + b).drop_first() =~= a.drop_first() + b);
            if a[0].len() <= self.room() {
                self.lemma_put_wf(a[0]);
                self.put(a[0]).lemma_put_all_concat(a.drop_first(), b);
            }
        }
    }

    /// What `put_all` leaves: the cursor stays within a buffer of the same length, and the
    /// bytes written are the start of the fields' bytes, all of them exactly when they fit.
    pub proof fn lemma_put_all(self, fields: Seq<Seq<u8>>)
        requires
            self.wf(),
        ensures
            ({
                let all = fields.flatten();
                let end = self.put_all(fields);
                &&& end.wf()
                &&& end.buf.len() == self.buf.len()
                &&& self.off <= end.off <= self.off + all.len()
                &&& end == self.put(all.take(end.off - self.off))
                &&& end.off == self.off + all.len() <==> all.len() <= self.room()
            }),
        decreases fields.len(),
    {
        let all = fields.flatten();
        if fields.len() == 0 || fields[0].len() > self.room() {
            assert(all.take(0) =~= Seq::empty());
            self.lemma_put_empty();
        } else {
            let first = fields[0];
            let next = self.put(first);
            let rest = fields.drop_first().flatten();
            self.lemma_put_wf(first);
            next.lemma_put_all(fields.drop_first());
            let end = next.put_all(fields.drop_first());
            let written = rest.take(end.off - next.off);
            self.lemma_put_put(first, written);
            assert(first + written =~= all.take(end.off - self.off));
        }
    }
}

/// The four bytes of `v`, most significant first.
pub open spec fn be32(v: u32) -> Seq<u8> {
    seq![
        (v / 0x100_0000) as u8,
        (v / 0x1_0000 % 0x100) as u8,
        (v / 0x100 % 0x100) as u8,
        (v % 0x100) as u8,
    ]
}

/// The number whose four bytes, most significant first, are `b`.
pub open spec fn from_be32(b: Seq<u8>) -> u32 {
    (b[0] * 0x100_0000 + b[1] * 0x1_0000 + b[2] * 0x100 + b[3]) as u32
}

/// Reading back the four bytes of a number gives the number.
pub proof fn lemma_be32_round_trip(v: u32)
    ensures
        be32(v).len() == 4,
        from_be32(be32(v)) == v,
{
}

/// The four bytes of the number that four bytes spell are those bytes.
pub proof fn lemma_from_be32_round_trip(b: Seq<u8>)
    requires
        b.len() == 4,
    ensures
        be32(from_be32(b)) == b,
{
    assert(be32(from_be32(b)) =~= b);
}

/// A cursor over a byte buffer that it owns. The buffer never grows or shrinks.
pub struct Octets {
    buf: Vec<u8>,
    off: usize,
}

impl View for Octets {
    type V = OctetsView;

    /// The buffer and the offset. The offset is never past the end of the buffer; the view
    /// says so of every value of the type, so that `lemma_view_wf` holds of each.
    closed spec fn view(&self) -> OctetsView {
        OctetsView {
            buf: self.buf@,
            off: if self.off <= self.buf.len() {
                self.off as int
            } else {
                self.buf.len() as int
            },
        }
    }
}

impl Octets {
    #[verifier::type_invariant]
    spec fn inv(self) -> bool {
        self.off <= self.buf.len()
    }

    /// A cursor's offset lies within its buffer, or just past its end.
    pub proof fn lemma_view_wf(&self)
        ensures
            self@.wf(),
    {
    }

    /// A cursor at the start of a copy of `buf`.
    pub fn with_slice(buf: &[u8]) -> (o: Octets)
        ensures
            o@ == (OctetsView { buf: buf@, off: 0 }),
    {
        let mut copy: Vec<u8> = Vec::new();
        let mut i: usize = 0;
        while i < buf.len()
            invariant
                i <= buf.len(),
                copy@ == buf@.subrange(0, i as int),
            decreases buf.len() - i,
        {
            copy.push(buf[i]);
            i += 1;
        }
        assert(copy@ == buf@);
        Octets { buf: copy, off: 0 }
    }

    /// A cursor at the start of `cap` zero bytes.
    pub fn with_capacity(cap: usize) -> (o: Octets)
        ensures
            o@ == (OctetsView { buf: Seq::new(cap as nat, |i: int| 0u8), off: 0 }),
    {
        let mut zeros: Vec<u8> = Vec::new();
        let mut i: usize = 0;
        while i < cap
            invariant
                i <= cap,
                zeros@ == Seq::new(i as nat, |i: int| 0u8),
            decreases cap - i,
        {
            zeros.push(0);
            i += 1;
        }
        Octets { buf: zeros, off: 0 }
    }

    /// The offset of the next read or write, counted from the start of the buffer.
    pub fn off(&self) -> (off: usize)
        ensures
            off == self@.off,
    {
        proof {
            use_type_invariant(self);
        }
        self.off
    }

    /// The number of bytes between the offset and the end of the buffer.
    pub fn cap(&self) -> (cap: usize)
        ensures
            cap == self@.room(),
    {
        proof {
            use_type_invariant(self);
        }
        self.buf.len() - self.off
    }

    /// The whole buffer, before and after the offset.
    pub fn buf(&self) -> (buf: &[u8])
        ensures
            buf@ == self@.buf,
    {
        self.buf.as_slice()
    }

    /// Reads one byte and moves past it.
    pub fn get_u8(&mut self) -> (r: Result<u8, BufferTooShortError>)
        ensures
            r is Ok <==> old(self)@.room() >= 1,
            r matches Ok(v) ==> v == old(self)@.buf[old(self)@.off] && final(self)@ == old(
                self,
            )@.skip(1),
            r is Err ==> final(self)@ == old(self)@,
    {
        proof {
            use_type_invariant(&*self);
        }
        if self.buf.len() - self.off < 1 {
            return Err(BufferTooShortError);
        }
        let v = self.buf[self.off];
        self.off = self.off + 1;
        Ok(v)
    }

    /// Reads four bytes as a number, most significant byte first, and moves past them.
    pub fn get_u32(&mut self) -> (r: Result<u32, BufferTooShortError>)
        ensures
            r is Ok <==> old(self)@.room() >= 4,
            r matches Ok(v) ==> v == from_be32(old(self)@.peek(4)) && final(self)@ == old(
                self,
            )@.skip(4),
            r is Err ==> final(self)@ == old(self)@,
    {
        proof {
            use_type_invariant(&*self);
        }
        if self.buf.len() - self.off < 4 {
            return Err(BufferTooShortError);
        }
        let b0 = self.buf[self.off] as u32;
        let b1 = self.buf[self.off + 1] as u32;
        let b2 = self.buf[self.off + 2] as u32;
        let b3 = self.buf[self.off + 3] as u32;
        self.off = self.off + 4;
        Ok(b0 * 0x100_0000 + b1 * 0x1_0000 + b2 * 0x100 + b3)
    }

    /// Reads `len` bytes into a vector of their own and moves past them.
    pub fn get_bytes(&mut self, len: usize) -> (r: Result<Vec<u8>, BufferTooShortError>)
        ensures
            r is Ok <==> old(self)@.room() >= len,
            r matches Ok(v) ==> v@ == old(self)@.peek(len as int) && final(self)@ == old(
                self,
            )@.skip(len as int),
            r is Err ==> final(self)@ == old(self)@,
    {
        proof {
            use_type_invariant(&*self);
        }
        if self.buf.len() - self.off < len {
            return Err(BufferTooShortError);
        }
        let mut v: Vec<u8> = Vec::new();
        let mut i: usize = 0;
        while i < len
            invariant
                i <= len,
                self.off + len <= self.buf.len(),
                v@ == self.buf@.subrange(self.off as int, self.off + i),
            decreases len - i,
        {
            v.push(self.buf[self.off + i]);
            i += 1;
        }
        self.off = self.off + len;
        Ok(v)
    }

    /// Moves past `len` bytes without reading them.
    pub fn skip(&mut self, len: usize) -> (r: Result<(), BufferTooShortError>)
        ensures
            r is Ok <==> old(self)@.room() >= len,
            r is Ok ==> final(self)@ == old(self)@.skip(len as int),
            r is Err ==> final(self)@ == old(self)@,
    {
        proof {
            use_type_invariant(&*self);
        }
        if self.buf.len() - self.off < len {
            return Err(BufferTooShortError);
        }
        self.off = self.off + len;
        Ok(())
    }

    /// Writes one byte and moves past it.
    pub fn put_u8(&mut self, v: u8) -> (r: Result<(), BufferTooShortError>)
        ensures
            r is Ok <==> old(self)@.room() >= 1,
            r is Ok ==> final(self)@ == old(self)@.put(seq![v]),
            r is Err ==> final(self)@ == old(self)@,
    {
        proof {
            use_type_invariant(&*self);
        }
        if self.buf.len() - self.off < 1 {
            return Err(BufferTooShortError);
        }
        self.buf[self.off] = v;
        self.off = self.off + 1;
        assert(self@.buf =~= old(self)@.put(seq![v]).buf);
        Ok(())
    }

    /// Writes `v` as four bytes, most significant first, and moves past them.
    pub fn put_u32(&mut self, v: u32) -> (r: Result<(), BufferTooShortError>)
        ensures
            r is Ok <==> old(self)@.room() >= 4,
            r is Ok ==> final(self)@ == old(self)@.put(be32(v)),
            r is Err ==> final(self)@ == old(self)@,
    {
        proof {
            use_type_invariant(&*self);
        }
        if self.buf.len() - self.off < 4 {
            return Err(BufferTooShortError);
        }
        self.buf[self.off] = (v / 0x100_0000) as u8;
        self.buf[self.off + 1] = (v / 0x1_0000 % 0x100) as u8;
        self.buf[self.off + 2] = (v / 0x100 % 0x100) as u8;
        self.buf[self.off + 3] = (v % 0x100) as u8;
        self.off = self.off + 4;
        assert(self@.buf =~= old(self)@.put(be32(v)).buf);
        Ok(())
    }

    /// Writes the bytes of `v` and moves past them.
    pub fn put_bytes(&mut self, v: &[u8]) -> (r: Result<(), BufferTooShortError>)
        ensures
            r is Ok <==> old(self)@.room() >= v@.len(),
            r is Ok ==> final(self)@ == old(self)@.put(v@),
            r is Err ==> final(self)@ == old(self)@,
    {
        proof {
            use_type_invariant(&*self);
        }
        if self.buf.len() - self.off < v.len() {
            return Err(BufferTooShortError);
        }
        let mut i: usize = 0;
        while i < v.len()
            invariant
                i <= v.len(),
                self.off == old(self).off,
                self.off + v.len() <= self.buf.len(),
                self.buf.len() == old(self).buf.len(),
                self.buf@ == old(self)@.put(v@.subrange(0, i as int)).buf,
            decreases v.len() - i,
        {
            self.buf[self.off + i] = v[i];
            i += 1;
            assert(self.buf@ =~= old(self)@.put(v@.subrange(0, i as int)).buf);
        }
        self.off = self.off + v.len();
        assert(v@.subrange(0, v@.len() as int) == v@);
        Ok(())
    }
}

} // verus!
