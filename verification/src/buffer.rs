//! The dual-purpose protocol byte buffer: a read cursor over accumulated
//! incoming bytes, and an independent write buffer for outgoing bytes.

use vstd::prelude::*;

verus! {

/// Why a buffer operation failed.
#[derive(Debug, Clone, Copy, PartialEq, Eq, Structural)]
pub enum ProtoError {
    /// A read asked for more bytes than are currently available.
    Underflow,
    /// The bytes are present but are not a valid encoding of the field.
    Decode,
    /// An outgoing field exceeds the one-byte length-prefix capacity.
    Oversize,
}

/// The eight bytes of a 64-bit signed integer in big-endian order.
pub open spec fn i64_to_be(v: i64) -> Seq<u8> {
    let x = v as u64;
    seq![
        (x >> 56) as u8,
        (x >> 48) as u8,
        (x >> 40) as u8,
        (x >> 32) as u8,
        (x >> 24) as u8,
        (x >> 16) as u8,
        (x >> 8) as u8,
        x as u8,
    ]
}

/// The 64-bit signed integer denoted by eight bytes in big-endian order.
pub open spec fn be_to_i64(s: Seq<u8>) -> i64
    recommends
        s.len() == 8,
{
    ((((s[0] as u64) << 56) | ((s[1] as u64) << 48) | ((s[2] as u64) << 40) | ((s[3] as u64)
        << 32) | ((s[4] as u64) << 24) | ((s[5] as u64) << 16) | ((s[6] as u64) << 8) | (
    s[7] as u64)) as i64)
}

/// Law: the integer field encoding is byte-for-byte symmetric — reading
/// back the eight written bytes yields the written value exactly.
pub proof fn lemma_i64_round_trip(v: i64)
    ensures
        be_to_i64(i64_to_be(v)) == v,
{
    let x = v as u64;
    assert(((((x >> 56) as u8) as u64) << 56) | ((((x >> 48) as u8) as u64) << 48) | ((((x
        >> 40) as u8) as u64) << 40) | ((((x >> 32) as u8) as u64) << 32) | ((((x >> 24) as u8)
        as u64) << 24) | ((((x >> 16) as u8) as u64) << 16) | ((((x >> 8) as u8) as u64) << 8)
        | ((x as u8) as u64) == x) by (bit_vector);
    assert(((v as u64) as i64) == v) by (bit_vector);
}

/// The UTF-8 encoding of a sequence of characters.
pub uninterp spec fn utf8_encode(s: Seq<char>) -> Seq<u8>;

/// The characters denoted by a byte sequence if it is valid UTF-8, or
/// nothing if it is not.
pub uninterp spec fn utf8_decode(bytes: Seq<u8>) -> Option<Seq<char>>;

/// Relies on String::as_bytes: the UTF-8 bytes of the string's characters.
#[verifier::external_body]
fn string_to_utf8(value: &String) -> (r: Vec<u8>)
    ensures
        r@ == utf8_encode(value@),
{
    value.as_bytes().to_vec()
}

/// Relies on String::from_utf8: Some exactly when the bytes are valid
/// UTF-8, and then the string whose encoding they are.
#[verifier::external_body]
fn utf8_to_string(bytes: Vec<u8>) -> (r: Option<String>)
    ensures
        match r {
            Some(s) => utf8_decode(bytes@) == Some(s@),
            None => utf8_decode(bytes@) is None,
        },
{
    String::from_utf8(bytes).ok()
}

/// A dual-purpose byte buffer: an append-only sequence of received bytes
/// with an advancing read position, and a separate append-only sequence of
/// bytes accumulated for output.
#[derive(Debug)]
pub struct ProtoBuf {
    data: Vec<u8>,
    pos: usize,
    write_buffer: Vec<u8>,
}

impl ProtoBuf {
    /// The read position never runs past the received bytes.
    pub closed spec fn wf(&self) -> bool {
        self.pos <= self.data@.len()
    }

    /// The bytes received but not yet consumed by reads.
    pub closed spec fn unread(&self) -> Seq<u8> {
        self.data@.skip(self.pos as int)
    }

    /// The bytes accumulated for output.
    pub closed spec fn written(&self) -> Seq<u8> {
        self.write_buffer@
    }

    pub fn new(bytes: Vec<u8>) -> (r: Self)
        ensures
            r.wf(),
            r.unread() == bytes@,
            r.written() == Seq::<u8>::empty(),
    {
        let r = Self { data: bytes, pos: 0, write_buffer: Vec::new() };
        proof {
            assert(r.unread() =~= r.data@);
            assert(r.written() =~= Seq::<u8>::empty());
        }
        r
    }

    /// Appends newly received bytes to the unread tail; never disturbs the
    /// read position or the write buffer.
    pub fn extend(&mut self, bytes: &[u8])
        requires
            old(self).wf(),
        ensures
            final(self).wf(),
            final(self).unread() == old(self).unread() + bytes@,
            final(self).written() == old(self).written(),
    {
        self.data.extend_from_slice(bytes);
        proof {
            assert(self.unread() =~= old(self).unread() + bytes@);
        }
    }

    /// How many received bytes have not yet been read.
    pub fn remaining(&self) -> (r: usize)
        requires
            self.wf(),
        ensures
            r == self.unread().len(),
    {
        self.data.len() - self.pos
    }

    /// The next unread byte, without consuming it.
    pub fn peek_u8(&self) -> (r: u8)
        requires
            self.wf(),
            self.unread().len() > 0,
        ensures
            r == self.unread()[0],
    {
        self.data[self.pos]
    }

    /// Consumes one byte from the current position; fails if none remain.
    pub fn read_u8(&mut self) -> (r: Result<u8, ProtoError>)
        requires
            old(self).wf(),
        ensures
            final(self).wf(),
            final(self).written() == old(self).written(),
            match r {
                Ok(b) => {
                    &&& old(self).unread().len() > 0
                    &&& b == old(self).unread()[0]
                    &&& final(self).unread() == old(self).unread().skip(1)
                },
                Err(e) => {
                    &&& e == ProtoError::Underflow
                    &&& old(self).unread().len() == 0
                    &&& *final(self) == *old(self)
                },
            },
    {
        if self.pos < self.data.len() {
            let b = self.data[self.pos];
            self.pos = self.pos + 1;
            proof {
                assert(self.unread() =~= old(self).unread().skip(1));
            }
            Ok(b)
        } else {
            Err(ProtoError::Underflow)
        }
    }

    /// Appends one byte to the write buffer.
    pub fn write_u8(&mut self, value: u8)
        requires
            old(self).wf(),
        ensures
            final(self).wf(),
            final(self).unread() == old(self).unread(),
            final(self).written() == old(self).written().push(value),
    {
        self.write_buffer.push(value);
    }

    /// Reads one byte and interprets the value `1` as true, every other
    /// value as false; out-of-range values are not an error.
    pub fn read_bool(&mut self) -> (r: Result<bool, ProtoError>)
        requires
            old(self).wf(),
        ensures
            final(self).wf(),
            final(self).written() == old(self).written(),
            match r {
                Ok(b) => {
                    &&& old(self).unread().len() > 0
                    &&& b == (old(self).unread()[0] == 1)
                    &&& final(self).unread() == old(self).unread().skip(1)
                },
                Err(e) => {
                    &&& e == ProtoError::Underflow
                    &&& old(self).unread().len() == 0
                    &&& *final(self) == *old(self)
                },
            },
    {
        match self.read_u8() {
            Ok(value) => Ok(value == 1),
            Err(e) => Err(e),
        }
    }

    /// Appends byte `1` for true, byte `0` for false.
    pub fn write_bool(&mut self, value: bool)
        requires
            old(self).wf(),
        ensures
            final(self).wf(),
            final(self).unread() == old(self).unread(),
            final(self).written() == old(self).written().push(if value { 1u8 } else { 0u8 }),
    {
        self.write_u8(if value { 1 } else { 0 });
    }

    /// Consumes exactly `size` bytes; fails, consuming nothing, if fewer
    /// remain.
    pub fn get_sized_vec(&mut self, size: usize) -> (r: Result<Vec<u8>, ProtoError>)
        requires
            old(self).wf(),
        ensures
            final(self).wf(),
            final(self).written() == old(self).written(),
            match r {
                Ok(v) => {
                    &&& old(self).unread().len() >= size
                    &&& v@ == old(self).unread().take(size as int)
                    &&& final(self).unread() == old(self).unread().skip(size as int)
                },
                Err(e) => {
                    &&& e == ProtoError::Underflow
                    &&& old(self).unread().len() < size
                    &&& *final(self) == *old(self)
                },
            },
    {
        if self.data.len() - self.pos < size {
            return Err(ProtoError::Underflow);
        }
        let dlen = self.data.len();
        let mut v: Vec<u8> = Vec::new();
        let mut i: usize = 0;
        while i < size
            invariant
                self.wf(),
                self == old(self),
                i <= size,
                dlen == self.data@.len(),
                self.pos + size <= dlen,
                self.unread().len() >= size,
                v@ =~= self.unread().take(i as int),
            decreases size - i,
        {
            v.push(self.data[self.pos + i]);
            i = i + 1;
            proof {
                assert(v@ =~= self.unread().take(i as int));
            }
        }
        self.pos = self.pos + size;
        proof {
            assert(self.unread() =~= old(self).unread().skip(size as int));
        }
        Ok(v)
    }

    /// Consumes exactly `size` bytes and returns them wrapped in a fresh
    /// buffer positioned at its start, so a packet body can be decoded
    /// independently of this buffer's cursor.
    pub fn get_sized_protobuf(&mut self, size: usize) -> (r: Result<ProtoBuf, ProtoError>)
        requires
            old(self).wf(),
        ensures
            final(self).wf(),
            final(self).written() == old(self).written(),
            match r {
                Ok(b) => {
                    &&& old(self).unread().len() >= size
                    &&& b.wf()
                    &&& b.unread() == old(self).unread().take(size as int)
                    &&& b.written() == Seq::<u8>::empty()
                    &&& final(self).unread() == old(self).unread().skip(size as int)
                },
                Err(e) => {
                    &&& e == ProtoError::Underflow
                    &&& old(self).unread().len() < size
                    &&& *final(self) == *old(self)
                },
            },
    {
        match self.get_sized_vec(size) {
            Ok(v) => Ok(ProtoBuf::new(v)),
            Err(e) => Err(e),
        }
    }

    /// Reads one length byte, then exactly that many bytes, and decodes
    /// them as UTF-8 text; fails, consuming nothing, on missing bytes or
    /// invalid UTF-8.
    pub fn read_string(&mut self) -> (r: Result<String, ProtoError>)
        requires
            old(self).wf(),
        ensures
            final(self).wf(),
            final(self).written() == old(self).written(),
            match r {
                Ok(s) => {
                    &&& old(self).unread().len() >= 1
                    &&& old(self).unread().len() >= 1 + old(self).unread()[0]
                    &&& utf8_decode(
                        old(self).unread().subrange(1, 1 + old(self).unread()[0]),
                    ) == Some(s@)
                    &&& final(self).unread() == old(self).unread().skip(
                        1 + old(self).unread()[0],
                    )
                },
                Err(e) => {
                    &&& *final(self) == *old(self)
                    &&& match e {
                        ProtoError::Underflow => old(self).unread().len() == 0 || old(
                            self,
                        ).unread().len() < 1 + old(self).unread()[0],
                        ProtoError::Decode => {
                            &&& old(self).unread().len() >= 1
                            &&& old(self).unread().len() >= 1 + old(self).unread()[0]
                            &&& utf8_decode(
                                old(self).unread().subrange(1, 1 + old(self).unread()[0]),
                            ) is None
                        },
                        ProtoError::Oversize => false,
                    }
                },
            },
    {
        if self.pos >= self.data.len() {
            return Err(ProtoError::Underflow);
        }
        let string_length = self.data[self.pos] as usize;
        if self.data.len() - self.pos - 1 < string_length {
            return Err(ProtoError::Underflow);
        }
        let dlen = self.data.len();
        let mut string_buffer: Vec<u8> = Vec::new();
        let mut i: usize = 0;
        while i < string_length
            invariant
                self.wf(),
                self == old(self),
                i <= string_length,
                dlen == self.data@.len(),
                self.pos + 1 + string_length <= dlen,
                string_buffer@ =~= self.unread().subrange(1, 1 + i),
            decreases string_length - i,
        {
            string_buffer.push(self.data[self.pos + 1 + i]);
            i = i + 1;
            proof {
                assert(string_buffer@ =~= self.unread().subrange(1, 1 + i));
            }
        }
        match utf8_to_string(string_buffer) {
            Some(s) => {
                self.pos = self.pos + 1 + string_length;
                proof {
                    assert(self.unread() =~= old(self).unread().skip(
                        1 + old(self).unread()[0],
                    ));
                }
                Ok(s)
            },
            None => Err(ProtoError::Decode),
        }
    }

    /// Appends one length byte, then the string's UTF-8 bytes; fails,
    /// writing nothing, when those bytes outnumber the one-byte length
    /// prefix's capacity of 255.
    pub fn write_string(&mut self, value: String) -> (r: Result<(), ProtoError>)
        requires
            old(self).wf(),
        ensures
            final(self).wf(),
            final(self).unread() == old(self).unread(),
            match r {
                Ok(_) => {
                    &&& utf8_encode(value@).len() <= 255
                    &&& final(self).written() == old(self).written() + seq![
                        utf8_encode(value@).len() as u8,
                    ] + utf8_encode(value@)
                },
                Err(e) => {
                    &&& e == ProtoError::Oversize
                    &&& utf8_encode(value@).len() > 255
                    &&& *final(self) == *old(self)
                },
            },
    {
        let bytes = string_to_utf8(&value);
        if bytes.len() > 255 {
            return Err(ProtoError::Oversize);
        }
        let length: u8 = bytes.len() as u8;
        self.write_buffer.push(length);
        self.write_buffer.extend_from_slice(bytes.as_slice());
        proof {
            assert(self.written() =~= old(self).written() + seq![
                utf8_encode(value@).len() as u8,
            ] + utf8_encode(value@));
        }
        Ok(())
    }

    /// Consumes eight bytes in big-endian order as a 64-bit signed
    /// integer; fails, consuming nothing, if fewer than eight remain.
    pub fn read_i64(&mut self) -> (r: Result<i64, ProtoError>)
        requires
            old(self).wf(),
        ensures
            final(self).wf(),
            final(self).written() == old(self).written(),
            match r {
                Ok(v) => {
                    &&& old(self).unread().len() >= 8
                    &&& v == be_to_i64(old(self).unread().take(8))
                    &&& final(self).unread() == old(self).unread().skip(8)
                },
                Err(e) => {
                    &&& e == ProtoError::Underflow
                    &&& old(self).unread().len() < 8
                    &&& *final(self) == *old(self)
                },
            },
    {
        if self.data.len() - self.pos < 8 {
            return Err(ProtoError::Underflow);
        }
        let b0 = self.data[self.pos];
        let b1 = self.data[self.pos + 1];
        let b2 = self.data[self.pos + 2];
        let b3 = self.data[self.pos + 3];
        let b4 = self.data[self.pos + 4];
        let b5 = self.data[self.pos + 5];
        let b6 = self.data[self.pos + 6];
        let b7 = self.data[self.pos + 7];
        let x: u64 = ((b0 as u64) << 56) | ((b1 as u64) << 48) | ((b2 as u64) << 40) | ((
        b3 as u64) << 32) | ((b4 as u64) << 24) | ((b5 as u64) << 16) | ((b6 as u64) << 8) | (
        b7 as u64);
        self.pos = self.pos + 8;
        proof {
            assert(self.unread() =~= old(self).unread().skip(8));
            assert(old(self).unread().take(8)[0] == b0);
            assert(old(self).unread().take(8)[1] == b1);
            assert(old(self).unread().take(8)[2] == b2);
            assert(old(self).unread().take(8)[3] == b3);
            assert(old(self).unread().take(8)[4] == b4);
            assert(old(self).unread().take(8)[5] == b5);
            assert(old(self).unread().take(8)[6] == b6);
            assert(old(self).unread().take(8)[7] == b7);
        }
        Ok(#[verifier::truncate] (x as i64))
    }

    /// Appends eight bytes: the integer in big-endian order.
    pub fn write_i64(&mut self, value: i64)
        requires
            old(self).wf(),
        ensures
            final(self).wf(),
            final(self).unread() == old(self).unread(),
            final(self).written() == old(self).written() + i64_to_be(value),
    {
        let x = #[verifier::truncate] (value as u64);
        self.write_buffer.push(#[verifier::truncate] ((x >> 56) as u8));
        self.write_buffer.push(#[verifier::truncate] ((x >> 48) as u8));
        self.write_buffer.push(#[verifier::truncate] ((x >> 40) as u8));
        self.write_buffer.push(#[verifier::truncate] ((x >> 32) as u8));
        self.write_buffer.push(#[verifier::truncate] ((x >> 24) as u8));
        self.write_buffer.push(#[verifier::truncate] ((x >> 16) as u8));
        self.write_buffer.push(#[verifier::truncate] ((x >> 8) as u8));
        self.write_buffer.push(#[verifier::truncate] (x as u8));
        proof {
            assert(self.written() =~= old(self).written() + i64_to_be(value));
        }
    }

    /// Appends another buffer's accumulated write bytes to this one's, for
    /// composing nested structures.
    pub fn write_all(&mut self, buffer: ProtoBuf)
        requires
            old(self).wf(),
        ensures
            final(self).wf(),
            final(self).unread() == old(self).unread(),
            final(self).written() == old(self).written() + buffer.written(),
    {
        let mut other = buffer;
        self.write_buffer.append(&mut other.write_buffer);
    }

    /// The bytes accumulated for output, for framing or inspection.
    pub fn written_bytes(&self) -> (r: &Vec<u8>)
        ensures
            r@ == self.written(),
    {
        &self.write_buffer
    }
}

/// A decoded unit: a numeric identifier, the declared body length, and a
/// buffer holding exactly the body's bytes for inbound packets, or an
/// accumulating write buffer for outbound packets.
#[derive(Debug)]
pub struct Packet {
    pub id: u8,
    pub length: u8,
    pub data: ProtoBuf,
}

} // verus!
