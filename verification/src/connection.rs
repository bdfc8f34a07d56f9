//! Connection-level framing: turning raw, arbitrarily chunked input into a
//! sequence of complete packets, dispatching each by its identifier, and
//! encoding reply packets back into wire frames.

use vstd::prelude::*;

use crate::buffer::{utf8_decode, Packet, ProtoBuf, ProtoError};

verus! {

/// The wire frame of a packet: one length byte, one id byte, then the body.
pub open spec fn frame_bytes(id: u8, body: Seq<u8>) -> Seq<u8> {
    seq![body.len() as u8, id] + body
}

/// The complete frames at the front of a byte stream, as (id, body) pairs:
/// framing stops at the first zero length byte (the end-of-run sentinel),
/// at exhaustion, or at a frame whose bytes have not all arrived.
pub open spec fn frames_of(s: Seq<u8>) -> Seq<(u8, Seq<u8>)>
    decreases s.len(),
{
    if s.len() == 0 {
        Seq::empty()
    } else if s[0] == 0 {
        Seq::empty()
    } else if s.len() < 2 + s[0] {
        Seq::empty()
    } else {
        seq![(s[1], s.subrange(2, 2 + s[0]))] + frames_of(s.skip(2 + s[0]))
    }
}

/// The bytes a byte stream keeps buffered once its complete frames are
/// extracted: everything after a consumed sentinel, or the whole partial
/// prefix of a frame still being received.
pub open spec fn rest_of(s: Seq<u8>) -> Seq<u8>
    decreases s.len(),
{
    if s.len() == 0 {
        s
    } else if s[0] == 0 {
        s.skip(1)
    } else if s.len() < 2 + s[0] {
        s
    } else {
        rest_of(s.skip(2 + s[0]))
    }
}

/// The packet holds exactly the frame's id and body, with its body buffer
/// positioned at the start and an empty write buffer.
pub open spec fn packet_is(p: Packet, f: (u8, Seq<u8>)) -> bool {
    &&& p.id == f.0
    &&& p.length == f.1.len()
    &&& p.data.wf()
    &&& p.data.unread() == f.1
    &&& p.data.written() == Seq::<u8>::empty()
}

/// The (id, body bytes) pairs a sequence of packets carries.
pub open spec fn packet_models(ps: Seq<Packet>) -> Seq<(u8, Seq<u8>)> {
    ps.map_values(|p: Packet| (p.id, p.data.unread()))
}

/// Every packet matches the frame at its position.
pub open spec fn packets_match(ps: Seq<Packet>, fs: Seq<(u8, Seq<u8>)>) -> bool {
    &&& ps.len() == fs.len()
    &&& forall|i: int| 0 <= i < ps.len() ==> packet_is(#[trigger] ps[i], fs[i])
}

/// The wire frame of the handshake reply: id `0x01`, empty body.
pub open spec fn handshake_reply_frame() -> Seq<u8> {
    seq![0u8, 1u8]
}

/// A handshake body decodes when it holds, in order, a length-prefixed
/// valid-UTF-8 string, one boolean byte, and eight integer bytes.
pub open spec fn handshake_parses(body: Seq<u8>) -> bool {
    &&& body.len() >= 1
    &&& 1 + body[0] + 1 + 8 <= body.len()
    &&& utf8_decode(body.subrange(1, 1 + body[0])) is Some
}

/// The reply frames owed to one decoded frame: a handshake whose body
/// decodes earns the handshake reply; every other packet — an unknown id,
/// or a malformed body, which is skipped rather than fatal — earns none.
pub open spec fn reply_of(f: (u8, Seq<u8>)) -> Seq<Seq<u8>> {
    if f.0 == 0 && handshake_parses(f.1) {
        seq![handshake_reply_frame()]
    } else {
        Seq::empty()
    }
}

/// The reply frames owed to a sequence of decoded frames, in order.
pub open spec fn replies_for(fs: Seq<(u8, Seq<u8>)>) -> Seq<Seq<u8>>
    decreases fs.len(),
{
    if fs.len() == 0 {
        Seq::empty()
    } else {
        replies_for(fs.drop_last()) + reply_of(fs.last())
    }
}

/// Packets that match a sequence of frames carry exactly those frames'
/// ids and bodies.
proof fn lemma_models_of_match(ps: Seq<Packet>, fs: Seq<(u8, Seq<u8>)>)
    requires
        packets_match(ps, fs),
    ensures
        packet_models(ps) == fs,
{
    assert forall|i: int| 0 <= i < ps.len() implies packet_models(ps)[i] == fs[i] by {
        assert(packet_is(ps[i], fs[i]));
        assert(packet_models(ps)[i] =~= fs[i]);
    }
    assert(packet_models(ps) =~= fs);
}

/// One live connection's decoding state: the inbound buffer accumulating
/// all bytes not yet consumed into complete packets. The transport stream
/// itself stays with the caller, which feeds received bytes in and sends
/// the returned reply frames out.
pub struct Connection {
    buffer: ProtoBuf,
}

impl Connection {
    /// The inbound buffer never loses already-consumed positions.
    pub closed spec fn wf(&self) -> bool {
        self.buffer.wf()
    }

    /// The received bytes not yet consumed into complete packets.
    pub closed spec fn inbound(&self) -> Seq<u8> {
        self.buffer.unread()
    }

    pub fn new() -> (r: Self)
        ensures
            r.wf(),
            r.inbound() == Seq::<u8>::empty(),
    {
        Connection { buffer: ProtoBuf::new(Vec::new()) }
    }

    /// Serializes a packet for the wire: its accumulated write-buffer
    /// bytes as the body, prefixed by the id byte and one length byte.
    /// Fails, producing nothing, when the body exceeds the one-byte length
    /// prefix's capacity of 255. The caller must put the whole frame on
    /// the transport in one operation.
    pub fn write(&mut self, packet: Packet) -> (r: Result<Vec<u8>, ProtoError>)
        requires
            old(self).wf(),
        ensures
            *final(self) == *old(self),
            match r {
                Ok(frame) => {
                    &&& packet.data.written().len() <= 255
                    &&& frame@ == frame_bytes(packet.id, packet.data.written())
                },
                Err(e) => {
                    &&& e == ProtoError::Oversize
                    &&& packet.data.written().len() > 255
                },
            },
    {
        let body = packet.data.written_bytes();
        if body.len() > 255 {
            return Err(ProtoError::Oversize);
        }
        let mut frame: Vec<u8> = Vec::new();
        frame.push(body.len() as u8);
        frame.push(packet.id);
        frame.extend_from_slice(body.as_slice());
        proof {
            assert(frame@ =~= frame_bytes(packet.id, packet.data.written()));
        }
        Ok(frame)
    }

    /// Extracts every complete packet from the front of the inbound
    /// buffer, in arrival order. Framing only consumes a frame once its
    /// length, id, and full body are present: an incomplete tail is kept
    /// for the next arrival, and a zero length byte is consumed as the
    /// end-of-run sentinel, leaving the bytes after it buffered.
    pub fn read(&mut self) -> (packets: Vec<Packet>)
        requires
            old(self).wf(),
        ensures
            final(self).wf(),
            final(self).inbound() == rest_of(old(self).inbound()),
            packets_match(packets@, frames_of(old(self).inbound())),
    {
        let ghost orig = old(self).inbound();
        let mut packets: Vec<Packet> = Vec::new();
        loop
            invariant_except_break
                self.wf(),
                packets_match(packets@, frames_of(orig).take(packets@.len() as int)),
                frames_of(orig) =~= frames_of(orig).take(packets@.len() as int) + frames_of(
                    self.inbound(),
                ),
                rest_of(self.inbound()) == rest_of(orig),
            ensures
                self.wf(),
                self.inbound() == rest_of(orig),
                packets_match(packets@, frames_of(orig)),
            decreases self.inbound().len(),
        {
            let ghost u = self.inbound();
            let remaining = self.buffer.remaining();
            if remaining == 0 {
                proof {
                    assert(frames_of(u) =~= Seq::<(u8, Seq<u8>)>::empty());
                    assert(frames_of(orig) =~= frames_of(orig).take(packets@.len() as int));
                    assert(rest_of(u) == u);
                }
                break;
            }
            let length = self.buffer.peek_u8();
            if length == 0 {
                let _ = self.buffer.read_u8();
                proof {
                    assert(frames_of(u) =~= Seq::<(u8, Seq<u8>)>::empty());
                    assert(frames_of(orig) =~= frames_of(orig).take(packets@.len() as int));
                    assert(rest_of(u) == u.skip(1));
                    assert(self.inbound() == rest_of(orig));
                }
                break;
            }
            if remaining < 2 + (length as usize) {
                proof {
                    assert(frames_of(u) =~= Seq::<(u8, Seq<u8>)>::empty());
                    assert(frames_of(orig) =~= frames_of(orig).take(packets@.len() as int));
                    assert(rest_of(u) == u);
                }
                break;
            }
            let _ = self.buffer.read_u8();
            let id = self.buffer.read_u8().unwrap();
            proof {
                assert(self.inbound() =~= u.skip(2));
                assert(id == u[1]);
            }
            let packet_buffer = self.buffer.get_sized_protobuf(length as usize).unwrap();
            let ghost n = packets@.len() as int;
            proof {
                assert(self.inbound() =~= u.skip(2 + u[0]));
                assert(packet_buffer.unread() =~= u.subrange(2, 2 + u[0]));
                assert(frames_of(u) == seq![(u[1], u.subrange(2, 2 + u[0]))] + frames_of(
                    u.skip(2 + u[0]),
                ));
                assert(frames_of(orig)[n] == (u[1], u.subrange(2, 2 + u[0])));
                assert(rest_of(u) == rest_of(u.skip(2 + u[0])));
            }
            packets.push(Packet { id, length, data: packet_buffer });
            proof {
                assert(frames_of(orig).take(n + 1) =~= frames_of(orig).take(n).push(
                    frames_of(orig)[n],
                ));
                assert(packets_match(packets@, frames_of(orig).take(packets@.len() as int)));
                assert(frames_of(orig) =~= frames_of(orig).take(packets@.len() as int)
                    + frames_of(self.inbound()));
            }
        }
        packets
    }

    /// Dispatches decoded packets synchronously, in arrival order: a
    /// handshake (id `0x00`) whose body decodes as version string,
    /// compression flag, and compression threshold earns the empty-bodied
    /// handshake reply frame; a malformed handshake body is skipped, and
    /// an unknown id is observed and skipped — neither is fatal. Returns
    /// the reply frames owed, in order, for the caller to send.
    pub fn process_packets(&mut self, packets: Vec<Packet>) -> (replies: Vec<Vec<u8>>)
        requires
            old(self).wf(),
            forall|i: int| 0 <= i < packets@.len() ==> (#[trigger] packets@[i]).data.wf(),
        ensures
            *final(self) == *old(self),
            replies.deep_view() == replies_for(packet_models(packets@)),
    {
        let ghost orig = packets@;
        let mut packets = packets;
        let mut replies: Vec<Vec<u8>> = Vec::new();
        proof {
            assert(replies.deep_view() =~~= replies_for(packet_models(orig.take(0))));
        }
        while packets.len() > 0
            invariant
                *self == *old(self),
                self.wf(),
                packets@.len() <= orig.len(),
                forall|i: int| 0 <= i < orig.len() ==> (#[trigger] orig[i]).data.wf(),
                packets@ =~= orig.skip(orig.len() - packets@.len()),
                replies.deep_view() =~~= replies_for(
                    packet_models(orig.take(orig.len() - packets@.len())),
                ),
            decreases packets@.len(),
        {
            let ghost k = orig.len() - packets@.len();
            let mut packet = packets.remove(0);
            proof {
                assert(packet == orig[k]);
                assert(packets@ =~= orig.skip(k + 1));
                assert(packet.data.wf());
            }
            let ghost body = packet.data.unread();
            if packet.id == 0x0 {
                match packet.data.read_string() {
                    Ok(_version) => {
                        match packet.data.read_bool() {
                            Ok(_enable_compression) => {
                                match packet.data.read_i64() {
                                    Ok(_compression_threshold) => {
                                        proof {
                                            assert(handshake_parses(body));
                                        }
                                        let reply = Packet {
                                            id: 0x01,
                                            length: 0,
                                            data: ProtoBuf::new(Vec::new()),
                                        };
                                        let frame = self.write(reply).unwrap();
                                        proof {
                                            assert(frame@ =~= handshake_reply_frame());
                                        }
                                        replies.push(frame);
                                    },
                                    Err(_) => {
                                        proof {
                                            assert(!handshake_parses(body));
                                        }
                                    },
                                }
                            },
                            Err(_) => {
                                proof {
                                    assert(!handshake_parses(body));
                                }
                            },
                        }
                    },
                    Err(_) => {
                        proof {
                            assert(!handshake_parses(body));
                        }
                    },
                }
            }
            proof {
                assert(orig.take(k + 1).drop_last() =~= orig.take(k));
                assert(orig.take(k + 1).last() == orig[k]);
                assert(packet_models(orig.take(k + 1)).drop_last() =~= packet_models(
                    orig.take(k),
                ));
                assert(packet_models(orig.take(k + 1)).last() == ((orig[k].id, body)));
                assert(replies.deep_view() =~~= replies_for(
                    packet_models(orig.take(orig.len() - packets@.len())),
                ));
            }
        }
        proof {
            assert(orig.take(orig.len() as int) =~= orig);
        }
        replies
    }

    /// Feeds newly received transport bytes: appends them to the inbound
    /// buffer, extracts every complete packet, dispatches each in arrival
    /// order, and returns the reply frames owed, in order, for the caller
    /// to put on the transport.
    pub fn extend_buffer(&mut self, bytes: &[u8]) -> (replies: Vec<Vec<u8>>)
        requires
            old(self).wf(),
        ensures
            final(self).wf(),
            final(self).inbound() == rest_of(old(self).inbound() + bytes@),
            replies.deep_view() == replies_for(frames_of(old(self).inbound() + bytes@)),
    {
        self.buffer.extend(bytes);
        let packets = self.read();
        proof {
            lemma_models_of_match(packets@, frames_of(old(self).inbound() + bytes@));
        }
        self.process_packets(packets)
    }
}

/// Law: a complete frame at the front of a stream decodes to exactly its
/// id and body, and framing then continues on the bytes after it — no
/// byte of the stream is skipped or consumed twice.
pub proof fn lemma_frame_complete(id: u8, body: Seq<u8>, rest: Seq<u8>)
    requires
        1 <= body.len() <= 255,
    ensures
        frames_of(frame_bytes(id, body) + rest) == seq![(id, body)] + frames_of(rest),
        rest_of(frame_bytes(id, body) + rest) == rest_of(rest),
{
    let s = frame_bytes(id, body) + rest;
    assert(s[0] == body.len() as u8);
    assert(s[1] == id);
    assert(s.len() == 2 + body.len() + rest.len());
    assert(s.subrange(2, 2 + s[0]) =~= body);
    assert(s.skip(2 + s[0]) =~= rest);
    assert(frames_of(s) =~= seq![(id, body)] + frames_of(rest));
}

/// Law (round trip): encoding any id with any body of 1 to 255 bytes and
/// then framing the resulting bytes yields exactly that one packet — the
/// same id and the same body bytes — with nothing left buffered.
pub proof fn lemma_round_trip(id: u8, body: Seq<u8>)
    requires
        1 <= body.len() <= 255,
    ensures
        frames_of(frame_bytes(id, body)) == seq![(id, body)],
        rest_of(frame_bytes(id, body)) == Seq::<u8>::empty(),
{
    lemma_frame_complete(id, body, Seq::empty());
    assert(frame_bytes(id, body) + Seq::<u8>::empty() =~= frame_bytes(id, body));
    assert(seq![(id, body)] + frames_of(Seq::<u8>::empty()) =~= seq![(id, body)]);
}

/// Law (batching): one feed holding two complete back-to-back frames
/// yields both packets, in order, with no bytes skipped or duplicated and
/// nothing left buffered.
pub proof fn lemma_batching(id1: u8, body1: Seq<u8>, id2: u8, body2: Seq<u8>)
    requires
        1 <= body1.len() <= 255,
        1 <= body2.len() <= 255,
    ensures
        frames_of(frame_bytes(id1, body1) + frame_bytes(id2, body2)) == seq![
            (id1, body1),
            (id2, body2),
        ],
        rest_of(frame_bytes(id1, body1) + frame_bytes(id2, body2)) == Seq::<u8>::empty(),
{
    lemma_frame_complete(id1, body1, frame_bytes(id2, body2));
    lemma_round_trip(id2, body2);
    assert(seq![(id1, body1)] + seq![(id2, body2)] =~= seq![(id1, body1), (id2, body2)]);
}

/// Law (sentinel termination): a buffered stream that begins with the
/// zero length byte stops framing right there — no packet is decoded, the
/// sentinel byte is consumed, and every byte after it stays buffered.
pub proof fn lemma_sentinel(s: Seq<u8>)
    requires
        s.len() >= 1,
        s[0] == 0,
    ensures
        frames_of(s) == Seq::<(u8, Seq<u8>)>::empty(),
        rest_of(s) == s.skip(1),
{
    assert(frames_of(s) =~= Seq::<(u8, Seq<u8>)>::empty());
}

/// Law (frames, then sentinel): after a complete frame, a sentinel still
/// stops framing and keeps the bytes after it buffered, untouched.
pub proof fn lemma_frame_then_sentinel(id: u8, body: Seq<u8>, tail: Seq<u8>)
    requires
        1 <= body.len() <= 255,
    ensures
        frames_of(frame_bytes(id, body) + (seq![0u8] + tail)) == seq![(id, body)],
        rest_of(frame_bytes(id, body) + (seq![0u8] + tail)) == tail,
{
    lemma_frame_complete(id, body, seq![0u8] + tail);
    lemma_sentinel(seq![0u8] + tail);
    assert((seq![0u8] + tail).skip(1) =~= tail);
    assert(seq![(id, body)] + frames_of(seq![0u8] + tail) =~= seq![(id, body)]);
}

/// Law (incomplete prefix): a strict prefix of a frame's bytes yields no
/// packet and consumes nothing — the partial frame waits, intact, for the
/// bytes still to arrive.
pub proof fn lemma_frame_prefix(id: u8, body: Seq<u8>, p: Seq<u8>)
    requires
        1 <= body.len() <= 255,
        p.len() < frame_bytes(id, body).len(),
        p == frame_bytes(id, body).take(p.len() as int),
    ensures
        frames_of(p) == Seq::<(u8, Seq<u8>)>::empty(),
        rest_of(p) == p,
{
    if p.len() > 0 {
        assert(p[0] == body.len() as u8);
        assert(p.len() < 2 + p[0]);
    }
    assert(frames_of(p) =~= Seq::<(u8, Seq<u8>)>::empty());
}

/// The concatenation of a sequence of chunks.
pub open spec fn concat_chunks(chunks: Seq<Seq<u8>>) -> Seq<u8>
    decreases chunks.len(),
{
    if chunks.len() == 0 {
        Seq::empty()
    } else {
        chunks.first() + concat_chunks(chunks.drop_first())
    }
}

/// The packets decoded, across all feeds, when a connection already
/// buffering `buffered` receives the chunks one feed at a time.
pub open spec fn feed_packets(buffered: Seq<u8>, chunks: Seq<Seq<u8>>) -> Seq<(u8, Seq<u8>)>
    decreases chunks.len(),
{
    if chunks.len() == 0 {
        Seq::empty()
    } else {
        frames_of(buffered + chunks.first()) + feed_packets(
            rest_of(buffered + chunks.first()),
            chunks.drop_first(),
        )
    }
}

/// The bytes still buffered after those feeds.
pub open spec fn feed_rest(buffered: Seq<u8>, chunks: Seq<Seq<u8>>) -> Seq<u8>
    decreases chunks.len(),
{
    if chunks.len() == 0 {
        buffered
    } else {
        feed_rest(rest_of(buffered + chunks.first()), chunks.drop_first())
    }
}

/// Chunks that concatenate to nothing feed nothing: no packet is decoded
/// and the buffer stays empty.
proof fn lemma_feed_empty_chunks(chunks: Seq<Seq<u8>>)
    requires
        concat_chunks(chunks) == Seq::<u8>::empty(),
    ensures
        feed_packets(Seq::empty(), chunks) == Seq::<(u8, Seq<u8>)>::empty(),
        feed_rest(Seq::empty(), chunks) == Seq::<u8>::empty(),
    decreases chunks.len(),
{
    if chunks.len() > 0 {
        assert(concat_chunks(chunks) == chunks.first() + concat_chunks(chunks.drop_first()));
        assert(chunks.first().len() + concat_chunks(chunks.drop_first()).len() == 0);
        assert(chunks.first() =~= Seq::<u8>::empty());
        assert(Seq::<u8>::empty() + chunks.first() =~= Seq::<u8>::empty());
        assert(frames_of(Seq::<u8>::empty()) =~= Seq::<(u8, Seq<u8>)>::empty());
        assert(rest_of(Seq::<u8>::empty()) == Seq::<u8>::empty());
        lemma_feed_empty_chunks(chunks.drop_first());
        assert(feed_packets(Seq::empty(), chunks) =~= Seq::<(u8, Seq<u8>)>::empty());
    }
}

/// The inductive heart of partial delivery: while the buffer holds a
/// strict prefix of one frame and the chunks complete exactly that frame,
/// feeding them one at a time decodes exactly that one packet.
proof fn lemma_feed_chunks_of_frame(id: u8, body: Seq<u8>, buffered: Seq<u8>, chunks: Seq<Seq<u8>>)
    requires
        1 <= body.len() <= 255,
        buffered.len() < frame_bytes(id, body).len(),
        buffered == frame_bytes(id, body).take(buffered.len() as int),
        buffered + concat_chunks(chunks) == frame_bytes(id, body),
    ensures
        feed_packets(buffered, chunks) == seq![(id, body)],
        feed_rest(buffered, chunks) == Seq::<u8>::empty(),
    decreases chunks.len(),
{
    let f = frame_bytes(id, body);
    if chunks.len() == 0 {
        assert(buffered + concat_chunks(chunks) =~= buffered);
        assert(false);
    } else {
        let b2 = buffered + chunks.first();
        assert(b2 + concat_chunks(chunks.drop_first()) =~= buffered + concat_chunks(chunks));
        assert(b2.len() <= f.len());
        assert(b2 =~= f.take(b2.len() as int));
        if b2.len() < f.len() {
            lemma_frame_prefix(id, body, b2);
            lemma_feed_chunks_of_frame(id, body, b2, chunks.drop_first());
            assert(feed_packets(buffered, chunks) =~= seq![(id, body)]);
        } else {
            assert(b2 =~= f);
            lemma_round_trip(id, body);
            assert(concat_chunks(chunks.drop_first()) =~= Seq::<u8>::empty());
            lemma_feed_empty_chunks(chunks.drop_first());
            assert(feed_packets(buffered, chunks) =~= seq![(id, body)]);
        }
    }
}

/// Law (partial delivery): however a frame's bytes are cut into chunks,
/// feeding the chunks one at a time decodes exactly the packet that
/// feeding the whole frame at once decodes, leaving nothing buffered.
pub proof fn lemma_partial_delivery(id: u8, body: Seq<u8>, chunks: Seq<Seq<u8>>)
    requires
        1 <= body.len() <= 255,
        concat_chunks(chunks) == frame_bytes(id, body),
    ensures
        feed_packets(Seq::empty(), chunks) == frames_of(frame_bytes(id, body)),
        feed_packets(Seq::empty(), chunks) == seq![(id, body)],
        feed_rest(Seq::empty(), chunks) == Seq::<u8>::empty(),
{
    assert(Seq::<u8>::empty() + concat_chunks(chunks) =~= frame_bytes(id, body));
    assert(Seq::<u8>::empty() =~= frame_bytes(id, body).take(0));
    lemma_feed_chunks_of_frame(id, body, Seq::empty(), chunks);
    lemma_round_trip(id, body);
}

} // verus!

