//! Frames: an eight-byte big-endian body length followed by the body, which
//! holds the sender and the message, each as a little-endian 64-bit byte
//! count followed by its UTF-8 bytes.
use vstd::prelude::*;
use vstd::utf8::*;
use vstd::string::*;

use std::collections::VecDeque;

use byteorder::ByteOrder;
use byteorder::NetworkEndian;

use crate::buffer::NetworkBuffer;
use crate::{MAX_PACKET_BODY_SIZE, PACKET_HEADER_SIZE};

verus! {

broadcast use vstd::utf8::group_utf8_lib;

/// One chat message and the name of whoever sent it.
#[derive(Debug)]
pub struct Packet {
    pub sender: String,
    pub message: String,
}

impl View for Packet {
    type V = (Seq<char>, Seq<char>);

    open spec fn view(&self) -> (Seq<char>, Seq<char>) {
        (self.sender@, self.message@)
    }
}

impl Clone for Packet {
    fn clone(&self) -> (r: Self)
        ensures
            r@ == self@,
    {
        Packet { sender: self.sender.clone(), message: self.message.clone() }
    }
}

/// `n` as `k` bytes, least significant first.
pub open spec fn le_bytes(n: nat, k: nat) -> Seq<u8>
    decreases k,
{
    if k == 0 {
        Seq::empty()
    } else {
        seq![(n % 256) as u8] + le_bytes(n / 256, (k - 1) as nat)
    }
}

/// The number that `b` spells, least significant byte first.
pub open spec fn le_value(b: Seq<u8>) -> nat
    decreases b.len(),
{
    if b.len() == 0 {
        0
    } else {
        b[0] as nat + 256 * le_value(b.drop_first())
    }
}

/// `n` as `k` bytes, most significant first.
pub open spec fn be_bytes(n: nat, k: nat) -> Seq<u8>
    decreases k,
{
    if k == 0 {
        Seq::empty()
    } else {
        be_bytes(n / 256, (k - 1) as nat).push((n % 256) as u8)
    }
}

/// The number that `b` spells, most significant byte first.
pub open spec fn be_value(b: Seq<u8>) -> nat
    decreases b.len(),
{
    if b.len() == 0 {
        0
    } else {
        256 * be_value(b.drop_last()) + b.last() as nat
    }
}

/// A string in the body: its UTF-8 byte count as eight little-endian bytes,
/// then those bytes.
pub open spec fn string_field(s: Seq<char>) -> Seq<u8> {
    le_bytes(encode_utf8(s).len(), 8) + encode_utf8(s)
}

/// The body of the frame that carries `p`.
pub open spec fn body_bytes(p: (Seq<char>, Seq<char>)) -> Seq<u8> {
    string_field(p.0) + string_field(p.1)
}

/// Length of the body of the frame that carries `p`.
pub open spec fn body_len(p: (Seq<char>, Seq<char>)) -> nat {
    16 + encode_utf8(p.0).len() + encode_utf8(p.1).len()
}

/// Whether the body for `p` stays under the protocol's bound.
pub open spec fn fits(p: (Seq<char>, Seq<char>)) -> bool {
    body_len(p) < MAX_PACKET_BODY_SIZE
}

/// The whole frame that carries `p`: header, then body.
pub open spec fn frame_bytes(p: (Seq<char>, Seq<char>)) -> Seq<u8> {
    be_bytes(body_len(p), 8) + body_bytes(p)
}

/// The body length that the header at the front of `f` declares.
pub open spec fn declared_len(f: Seq<u8>) -> nat {
    be_value(f.subrange(0, 8))
}

/// What the front of a run of buffered bytes holds.
pub enum FrameStatus {
    /// Not yet a whole frame: wait for more bytes.
    Incomplete,
    /// A header that declares too long a body, or a body that is no packet.
    Malformed,
    /// A whole frame carrying the packet, `consumed` bytes long.
    Complete { packet: (Seq<char>, Seq<char>), consumed: nat },
}

/// Whether some packet has exactly `b` as its body.
pub open spec fn is_body(b: Seq<u8>) -> bool {
    exists|p: (Seq<char>, Seq<char>)| body_bytes(p) == b
}

/// Reading one frame from the front of `f`.
pub open spec fn decode_frame(f: Seq<u8>) -> FrameStatus {
    if f.len() < PACKET_HEADER_SIZE {
        FrameStatus::Incomplete
    } else if declared_len(f) >= MAX_PACKET_BODY_SIZE {
        FrameStatus::Malformed
    } else if f.len() < PACKET_HEADER_SIZE + declared_len(f) {
        FrameStatus::Incomplete
    } else {
        let b = f.subrange(8, 8 + declared_len(f) as int);
        if is_body(b) {
            FrameStatus::Complete {
                packet: choose|p: (Seq<char>, Seq<char>)| body_bytes(p) == b,
                consumed: 8 + declared_len(f),
            }
        } else {
            FrameStatus::Malformed
        }
    }
}

pub proof fn lemma_le_bytes_len(n: nat, k: nat)
    ensures
        le_bytes(n, k).len() == k,
    decreases k,
{
    if k > 0 {
        lemma_le_bytes_len(n / 256, (k - 1) as nat);
    }
}

pub proof fn lemma_be_bytes_len(n: nat, k: nat)
    ensures
        be_bytes(n, k).len() == k,
    decreases k,
{
    if k > 0 {
        lemma_be_bytes_len(n / 256, (k - 1) as nat);
    }
}

proof fn lemma_le_zero(k: nat)
    ensures
        le_value(le_bytes(0, k)) == 0,
    decreases k,
{
    if k > 0 {
        lemma_le_zero((k - 1) as nat);
        assert(le_bytes(0, k).drop_first() =~= le_bytes(0, (k - 1) as nat));
    }
}

proof fn lemma_be_zero(k: nat)
    ensures
        be_value(be_bytes(0, k)) == 0,
    decreases k,
{
    if k > 0 {
        lemma_be_zero((k - 1) as nat);
        assert(be_bytes(0, k).drop_last() =~= be_bytes(0, (k - 1) as nat));
    }
}

/// A small number survives a trip through little-endian bytes.
pub proof fn lemma_le_round_trip(n: nat, k: nat)
    requires
        n < 256,
        k > 0,
    ensures
        le_value(le_bytes(n, k)) == n,
{
    lemma_le_zero((k - 1) as nat);
    assert(le_bytes(n, k).drop_first() =~= le_bytes(0, (k - 1) as nat));
}

/// A small number survives a trip through big-endian bytes.
pub proof fn lemma_be_round_trip(n: nat, k: nat)
    requires
        n < 256,
        k > 0,
    ensures
        be_value(be_bytes(n, k)) == n,
{
    lemma_be_zero((k - 1) as nat);
    assert(be_bytes(n, k).drop_last() =~= be_bytes(0, (k - 1) as nat));
}

pub proof fn lemma_body_len(p: (Seq<char>, Seq<char>))
    ensures
        body_bytes(p).len() == body_len(p),
{
    lemma_le_bytes_len(encode_utf8(p.0).len(), 8);
    lemma_le_bytes_len(encode_utf8(p.1).len(), 8);
}

pub proof fn lemma_frame_len(p: (Seq<char>, Seq<char>))
    ensures
        frame_bytes(p).len() == 8 + body_len(p),
{
    lemma_body_len(p);
    lemma_be_bytes_len(body_len(p), 8);
}

/// A string field of under 256 bytes can be read back from the front of
/// whatever follows it.
proof fn lemma_string_field_unique(s: Seq<char>, t: Seq<char>, rs: Seq<u8>, rt: Seq<u8>)
    requires
        string_field(s) + rs == string_field(t) + rt,
        encode_utf8(s).len() < 256,
        encode_utf8(t).len() < 256,
    ensures
        s == t,
        rs == rt,
{
    let es = encode_utf8(s);
    let et = encode_utf8(t);
    let x = string_field(s) + rs;
    lemma_le_bytes_len(es.len(), 8);
    lemma_le_bytes_len(et.len(), 8);
    assert(x.subrange(0, 8) =~= le_bytes(es.len(), 8));
    assert((string_field(t) + rt).subrange(0, 8) =~= le_bytes(et.len(), 8));
    lemma_le_round_trip(es.len(), 8);
    lemma_le_round_trip(et.len(), 8);
    assert(es.len() == et.len());
    assert(x.subrange(8, 8 + es.len() as int) =~= es);
    assert((string_field(t) + rt).subrange(8, 8 + et.len() as int) =~= et);
    assert(es == et);
    assert(s =~= decode_utf8(es));
    assert(t =~= decode_utf8(et));
    assert(x.skip(8 + es.len() as int) =~= rs);
    assert((string_field(t) + rt).skip(8 + et.len() as int) =~= rt);
}

/// Two packets whose bodies are equal and short are the same packet.
pub proof fn lemma_body_injective(p: (Seq<char>, Seq<char>), q: (Seq<char>, Seq<char>))
    requires
        body_bytes(p) == body_bytes(q),
        body_bytes(p).len() < MAX_PACKET_BODY_SIZE,
    ensures
        p == q,
{
    lemma_body_len(p);
    lemma_body_len(q);
    lemma_string_field_unique(p.0, q.0, string_field(p.1), string_field(q.1));
    assert(string_field(p.1) + Seq::<u8>::empty() =~= string_field(p.1));
    assert(string_field(q.1) + Seq::<u8>::empty() =~= string_field(q.1));
    lemma_string_field_unique(p.1, q.1, Seq::<u8>::empty(), Seq::<u8>::empty());
}


/// Decoding the bytes of a frame, whatever follows them, yields the packet it
/// was encoded from and consumes exactly that frame.
pub proof fn lemma_round_trip(p: (Seq<char>, Seq<char>), rest: Seq<u8>)
    requires
        fits(p),
    ensures
        decode_frame(frame_bytes(p) + rest) == (FrameStatus::Complete {
            packet: p,
            consumed: 8 + body_len(p),
        }),
{
    let f = frame_bytes(p) + rest;
    lemma_body_len(p);
    lemma_frame_len(p);
    lemma_be_bytes_len(body_len(p), 8);
    assert(f.subrange(0, 8) =~= be_bytes(body_len(p), 8));
    lemma_be_round_trip(body_len(p), 8);
    assert(declared_len(f) == body_len(p));
    let b = f.subrange(8, 8 + body_len(p) as int);
    assert(b =~= body_bytes(p));
    assert(is_body(b));
    let c = choose|q: (Seq<char>, Seq<char>)| body_bytes(q) == b;
    lemma_body_injective(c, p);
}

/// Relies on bincode::serialize with its default options: each string of the
/// pair becomes its byte count as a little-endian u64 followed by its UTF-8
/// bytes; writing into a `Vec` never fails.
#[verifier::external_body]
fn encode_body(sender: &str, message: &str) -> (r: Vec<u8>)
    ensures
        r@ == body_bytes((sender@, message@)),
{
    bincode::serialize(&(sender, message)).unwrap()
}

/// `r` holds the packet whose body starts `b`, if there is one.
pub open spec fn reads_any_body(b: Seq<u8>, r: Option<(String, String)>) -> bool {
    forall|p: (Seq<char>, Seq<char>)| #[trigger]
        body_bytes(p).is_prefix_of(b) ==> (r matches Some(q) && q.0@ == p.0 && q.1@ == p.1)
}

/// Relies on bincode::deserialize with its default options: it reads a pair of
/// strings laid out as `encode_body` writes them from the front of `b`, leaves
/// any bytes after them unread, and fails on a short or non-UTF-8 input.
#[verifier::external_body]
fn decode_body(b: &[u8]) -> (r: Option<(String, String)>)
    ensures
        r matches Some(q) ==> body_bytes((q.0@, q.1@)).is_prefix_of(b@),
        reads_any_body(b@, r),
{
    bincode::deserialize::<(String, String)>(b).ok()
}

/// Relies on byteorder's `NetworkEndian::write_u64`: the eight bytes of `n`,
/// most significant first.
#[verifier::external_body]
fn encode_header(n: u64) -> (r: Vec<u8>)
    ensures
        r@ == be_bytes(n as nat, 8),
{
    let mut header = vec![0u8; 8];
    NetworkEndian::write_u64(&mut header, n);
    header
}

/// Relies on byteorder's `NetworkEndian::read_u64`: the number that the first
/// eight bytes spell, most significant first; it panics on fewer bytes.
#[verifier::external_body]
fn decode_header(b: &[u8]) -> (r: u64)
    requires
        b@.len() >= 8,
    ensures
        r as nat == be_value(b@.subrange(0, 8)),
{
    NetworkEndian::read_u64(b)
}

impl Packet {
    pub fn new(sender: &str, message: &str) -> (r: Self)
        ensures
            r@ == (sender@, message@),
    {
        Packet { sender: sender.to_owned(), message: message.to_owned() }
    }

    /// Whether the packet's body stays under the protocol's bound, so that
    /// it can be framed.
    pub fn fits(&self) -> (r: bool)
        ensures
            r == fits(self@),
    {
        let n_sender = self.sender.as_str().as_bytes().len();
        let n_message = self.message.as_str().as_bytes().len();
        n_sender < MAX_PACKET_BODY_SIZE && n_message < MAX_PACKET_BODY_SIZE
            && 16 + n_sender + n_message < MAX_PACKET_BODY_SIZE
    }
}

/// Encodes a packet as one frame: the body length as eight big-endian bytes,
/// then the body.
pub fn serialize_packet(packet: Packet) -> (r: Vec<u8>)
    requires
        fits(packet@),
    ensures
        r@ == frame_bytes(packet@),
{
    let mut body = encode_body(packet.sender.as_str(), packet.message.as_str());
    proof {
        lemma_body_len(packet@);
    }
    let mut data = encode_header(body.len() as u64);
    data.append(&mut body);
    data
}

/// The outcome of reading one frame from a buffer.
#[derive(Debug)]
pub enum Decoded {
    /// A whole frame was read and removed from the front of the buffer.
    Packet(Packet),
    /// The buffer holds no whole frame yet; it was left as it was.
    NeedMoreData,
    /// The frame at the front is malformed; the connection must be closed.
    ProtocolViolation,
}

/// Reads the frame at the front of `buffer`, removing it when it is whole and
/// well formed.
pub fn deserialize_packet(buffer: &mut NetworkBuffer) -> (r: Decoded)
    requires
        old(buffer).wf(),
    ensures
        final(buffer).wf(),
        match decode_frame(old(buffer)@) {
            FrameStatus::Incomplete => r is NeedMoreData && final(buffer)@ == old(buffer)@,
            FrameStatus::Malformed => r is ProtocolViolation && final(buffer)@ == old(buffer)@,
            FrameStatus::Complete { packet, consumed } => {
                &&& r matches Decoded::Packet(p) && p@ == packet
                &&& final(buffer)@ == old(buffer)@.skip(consumed as int)
            },
        },
{
    let filled = buffer.filled();
    if filled < PACKET_HEADER_SIZE {
        return Decoded::NeedMoreData;
    }
    let declared = decode_header(buffer.as_slice());
    if declared >= MAX_PACKET_BODY_SIZE as u64 {
        return Decoded::ProtocolViolation;
    }
    let body_size = declared as usize;
    if filled < PACKET_HEADER_SIZE + body_size {
        return Decoded::NeedMoreData;
    }
    let frame_end = PACKET_HEADER_SIZE + body_size;
    let body = vstd::slice::slice_subrange(buffer.as_slice(), PACKET_HEADER_SIZE, frame_end);
    let ghost b = body@;
    assert(b == buffer@.subrange(8, 8 + declared_len(buffer@) as int));
    match decode_body(body) {
        Some((sender, message)) => {
            let n_sender = sender.as_str().as_bytes().len();
            let n_message = message.as_str().as_bytes().len();
            if n_sender >= MAX_PACKET_BODY_SIZE || n_message >= MAX_PACKET_BODY_SIZE || 16
                + n_sender + n_message != body_size {
                proof {
                    if is_body(b) {
                        let c = choose|q: (Seq<char>, Seq<char>)| body_bytes(q) == b;
                        lemma_body_len(c);
                        assert(body_bytes(c).is_prefix_of(b));
                    }
                }
                return Decoded::ProtocolViolation;
            }
            proof {
                let q = (sender@, message@);
                lemma_body_len(q);
                assert(body_bytes(q).is_prefix_of(b));
                assert(body_bytes(q) =~= b);
                assert(is_body(b));
                let c = choose|p: (Seq<char>, Seq<char>)| body_bytes(p) == b;
                lemma_body_injective(c, q);
            }
            buffer.drain(frame_end);
            Decoded::Packet(Packet { sender, message })
        },
        None => {
            proof {
                if is_body(b) {
                    let c = choose|q: (Seq<char>, Seq<char>)| body_bytes(q) == b;
                    assert(body_bytes(c).is_prefix_of(b));
                }
            }
            Decoded::ProtocolViolation
        },
    }
}

/// What each packet in `s` carries.
pub open spec fn views(s: Seq<Packet>) -> Seq<(Seq<char>, Seq<char>)> {
    s.map_values(|p: Packet| p@)
}

/// Reading frames from the front of `f` until none is whole: the packets
/// read, in order, the bytes left over, and whether a malformed frame
/// stopped the reading.
pub open spec fn drain_frames(f: Seq<u8>) -> (Seq<(Seq<char>, Seq<char>)>, Seq<u8>, bool)
    decreases f.len(),
{
    match decode_frame(f) {
        FrameStatus::Incomplete => (Seq::empty(), f, false),
        FrameStatus::Malformed => (Seq::empty(), f, true),
        FrameStatus::Complete { packet, consumed } => {
            if 0 < consumed <= f.len() {
                let rest = drain_frames(f.skip(consumed as int));
                (seq![packet] + rest.0, rest.1, rest.2)
            } else {
                (Seq::empty(), f, false)
            }
        },
    }
}

/// The frames for each packet of `ps`, one after another.
pub open spec fn concat_frames(ps: Seq<(Seq<char>, Seq<char>)>) -> Seq<u8>
    decreases ps.len(),
{
    if ps.len() == 0 {
        Seq::empty()
    } else {
        frame_bytes(ps[0]) + concat_frames(ps.drop_first())
    }
}

/// A frame whose whole packet is read off the front leaves exactly the bytes
/// that followed it.
pub proof fn lemma_drain_after_frame(p: (Seq<char>, Seq<char>), rest: Seq<u8>)
    requires
        fits(p),
    ensures
        drain_frames(frame_bytes(p) + rest) == (
            seq![p] + drain_frames(rest).0,
            drain_frames(rest).1,
            drain_frames(rest).2,
        ),
{
    lemma_round_trip(p, rest);
    lemma_frame_len(p);
    assert((frame_bytes(p) + rest).skip(8 + body_len(p) as int) =~= rest);
}

/// A buffer holding several whole frames, one after another, yields each of
/// their packets in order and is left empty.
pub proof fn lemma_batched_frames(ps: Seq<(Seq<char>, Seq<char>)>)
    requires
        forall|i: int| 0 <= i < ps.len() ==> fits(#[trigger] ps[i]),
    ensures
        drain_frames(concat_frames(ps)) == (ps, Seq::<u8>::empty(), false),
    decreases ps.len(),
{
    if ps.len() == 0 {
        assert(concat_frames(ps) =~= Seq::<u8>::empty());
    } else {
        let tail = ps.drop_first();
        assert forall|i: int| 0 <= i < tail.len() implies fits(#[trigger] tail[i]) by {
            assert(tail[i] == ps[i + 1]);
        }
        lemma_batched_frames(tail);
        assert(fits(ps[0]));
        lemma_drain_after_frame(ps[0], concat_frames(tail));
        assert(seq![ps[0]] + tail =~= ps);
    }
}

/// A whole frame followed by the start of another yields the first packet
/// and keeps the partial frame's bytes, untouched.
pub proof fn lemma_partial_frame_kept(p: (Seq<char>, Seq<char>), partial: Seq<u8>)
    requires
        fits(p),
        decode_frame(partial) is Incomplete,
    ensures
        drain_frames(frame_bytes(p) + partial) == (seq![p], partial, false),
{
    lemma_drain_after_frame(p, partial);
    assert(seq![p] + Seq::<(Seq<char>, Seq<char>)>::empty() =~= seq![p]);
}

/// A header that declares a body of 256 bytes or more yields no packet and
/// marks the bytes as malformed.
pub proof fn lemma_oversize_rejected(f: Seq<u8>)
    requires
        f.len() >= PACKET_HEADER_SIZE,
        declared_len(f) >= MAX_PACKET_BODY_SIZE,
    ensures
        drain_frames(f) == (Seq::<(Seq<char>, Seq<char>)>::empty(), f, true),
{
}

/// Every packet read from whole frames can be framed again.
pub proof fn lemma_drained_fit(f: Seq<u8>)
    ensures
        forall|i: int| 0 <= i < drain_frames(f).0.len() ==> fits(#[trigger] drain_frames(f).0[i]),
    decreases f.len(),
{
    match decode_frame(f) {
        FrameStatus::Complete { packet, consumed } => {
            if 0 < consumed <= f.len() {
                let rest = f.skip(consumed as int);
                lemma_drained_fit(rest);
                let b = f.subrange(8, 8 + declared_len(f) as int);
                lemma_body_len(packet);
                assert(body_bytes(packet) == b);
                assert forall|i: int| 0 <= i < drain_frames(f).0.len() implies fits(
                    #[trigger] drain_frames(f).0[i],
                ) by {
                    if i > 0 {
                        assert(drain_frames(f).0[i] == drain_frames(rest).0[i - 1]);
                    }
                }
            }
        },
        _ => {},
    }
}

/// Reads every whole frame at the front of `buffer` and appends its packet to
/// `incoming`, in order. Returns false when a malformed frame stopped it; the
/// bytes from that frame on stay in the buffer.
pub fn deserialize_all(buffer: &mut NetworkBuffer, incoming: &mut VecDeque<Packet>) -> (r: bool)
    requires
        old(buffer).wf(),
    ensures
        final(buffer).wf(),
        views(final(incoming)@) == views(old(incoming)@) + drain_frames(old(buffer)@).0,
        final(buffer)@ == drain_frames(old(buffer)@).1,
        r == !drain_frames(old(buffer)@).2,
{
    loop
        invariant
            buffer.wf(),
            drain_frames(old(buffer)@) == (
                views(incoming@).skip(old(incoming)@.len() as int) + drain_frames(buffer@).0,
                drain_frames(buffer@).1,
                drain_frames(buffer@).2,
            ),
            views(incoming@).take(old(incoming)@.len() as int) == views(old(incoming)@),
            incoming@.len() >= old(incoming)@.len(),
        decreases buffer@.len(),
    {
        let ghost before = buffer@;
        let ghost seen = incoming@;
        match deserialize_packet(buffer) {
            Decoded::Packet(p) => {
                proof {
                    let ghost consumed = 8 + declared_len(before);
                    assert(0 < consumed <= before.len());
                }
                incoming.push_back(p);
                proof {
                    let n = old(incoming)@.len() as int;
                    assert(views(incoming@) =~= views(seen).push(p@));
                    assert(views(incoming@).skip(n) =~= views(seen).skip(n).push(p@));
                    assert(views(incoming@).take(n) =~= views(seen).take(n));
                    assert(views(seen).skip(n) + drain_frames(before).0 =~= views(incoming@).skip(n)
                        + drain_frames(buffer@).0);
                }
            },
            Decoded::NeedMoreData => {
                proof {
                    assert(views(incoming@) =~= views(incoming@).take(old(incoming)@.len() as int)
                        + views(incoming@).skip(old(incoming)@.len() as int));
                    assert(drain_frames(buffer@).0 =~= Seq::<(Seq<char>, Seq<char>)>::empty());
                }
                return true;
            },
            Decoded::ProtocolViolation => {
                proof {
                    assert(views(incoming@) =~= views(incoming@).take(old(incoming)@.len() as int)
                        + views(incoming@).skip(old(incoming)@.len() as int));
                    assert(drain_frames(buffer@).0 =~= Seq::<(Seq<char>, Seq<char>)>::empty());
                }
                return false;
            },
        }
    }
}

} // verus!
