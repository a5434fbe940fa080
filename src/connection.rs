//! One peer's state on the server: its identifier, what it has sent that is
//! not yet decoded, and the packets and bytes still owed to it.
use vstd::prelude::*;

use std::collections::VecDeque;

use crate::buffer::NetworkBuffer;
use crate::codec::{
    deserialize_all, drain_frames, fits, frame_bytes, lemma_drained_fit, lemma_frame_len,
    serialize_packet, views, Packet,
};
use crate::MAX_BUFFER_SIZE;

verus! {

/// Name under which the server itself sends notices.
pub const SERVER_USERNAME: &'static str = "SERVER";

/// What a connection holds, as plain values.
pub struct ConnView {
    pub token: usize,
    pub disconnected: bool,
    /// Inbound bytes not yet decoded.
    pub inbound: Seq<u8>,
    /// Packets queued for the peer, oldest first.
    pub outgoing: Seq<(Seq<char>, Seq<char>)>,
    /// Bytes of the frame being written that the peer has not yet taken.
    pub unsent: Seq<u8>,
}

/// A peer connection. Sockets live outside; this is what decides what is
/// read, kept and written for it.
pub struct Connection {
    token: usize,
    is_disconnected: bool,
    buffer: NetworkBuffer,
    outgoing_packets: VecDeque<Packet>,
    in_flight: Vec<u8>,
    sent: usize,
}

impl View for Connection {
    type V = ConnView;

    closed spec fn view(&self) -> ConnView {
        ConnView {
            token: self.token,
            disconnected: self.is_disconnected,
            inbound: self.buffer@,
            outgoing: views(self.outgoing_packets@),
            unsent: self.in_flight@.skip(self.sent as int),
        }
    }
}

/// Every queued packet can be framed.
pub open spec fn queue_fits(q: Seq<(Seq<char>, Seq<char>)>) -> bool {
    forall|i: int| 0 <= i < q.len() ==> fits(#[trigger] q[i])
}

impl Connection {
    pub closed spec fn wf(&self) -> bool {
        &&& self.buffer.wf()
        &&& self.sent <= self.in_flight@.len()
        &&& queue_fits(views(self.outgoing_packets@))
    }

    pub fn new(token: usize) -> (r: Self)
        ensures
            r.wf(),
            r@ == (ConnView {
                token,
                disconnected: false,
                inbound: Seq::empty(),
                outgoing: Seq::empty(),
                unsent: Seq::empty(),
            }),
    {
        let r = Connection {
            token,
            is_disconnected: false,
            buffer: NetworkBuffer::new(),
            outgoing_packets: VecDeque::new(),
            in_flight: Vec::new(),
            sent: 0,
        };
        assert(r@.outgoing =~= Seq::empty());
        assert(r@.unsent =~= Seq::empty());
        r
    }

    pub fn token(&self) -> (r: usize)
        ensures
            r == self@.token,
    {
        self.token
    }

    pub fn is_disconnected(&self) -> (r: bool)
        ensures
            r == self@.disconnected,
    {
        self.is_disconnected
    }

    /// The packets queued for the peer, oldest first.
    pub fn outgoing(&self) -> (r: &VecDeque<Packet>)
        ensures
            views(r@) == self@.outgoing,
    {
        &self.outgoing_packets
    }

    /// The inbound bytes not yet decoded.
    pub fn buffer(&self) -> (r: &NetworkBuffer)
        requires
            self.wf(),
        ensures
            r.wf(),
            r@ == self@.inbound,
    {
        &self.buffer
    }

    /// Moves the connection to its closing state.
    pub fn mark_disconnected(&mut self)
        requires
            old(self).wf(),
        ensures
            final(self).wf(),
            final(self)@ == (ConnView { disconnected: true, ..old(self)@ }),
    {
        self.is_disconnected = true;
    }

    /// Takes the result of one read: no bytes means that the peer closed the
    /// connection; bytes that would overflow the buffer close it too.
    pub fn receive(&mut self, bytes: &[u8])
        requires
            old(self).wf(),
        ensures
            final(self).wf(),
            bytes@.len() == 0 ==> final(self)@ == (ConnView { disconnected: true, ..old(self)@ }),
            bytes@.len() > 0 && old(self)@.inbound.len() + bytes@.len() <= MAX_BUFFER_SIZE
                ==> final(self)@ == (ConnView { inbound: old(self)@.inbound + bytes@, ..old(self)@ }),
            old(self)@.inbound.len() + bytes@.len() > MAX_BUFFER_SIZE ==> final(self)@ == (ConnView {
                disconnected: true,
                ..old(self)@
            }),
    {
        if bytes.len() == 0 {
            self.is_disconnected = true;
        } else if !self.buffer.append(bytes) {
            self.is_disconnected = true;
        }
    }

    /// The bytes to write next. When the frame in flight is done, the oldest
    /// queued packet is framed and becomes the one in flight; empty when
    /// there is nothing left to write.
    pub fn pending_output(&mut self) -> (r: Vec<u8>)
        requires
            old(self).wf(),
        ensures
            final(self).wf(),
            old(self)@.unsent.len() > 0 ==> r@ == old(self)@.unsent && final(self)@ == old(self)@,
            old(self)@.unsent.len() == 0 && old(self)@.outgoing.len() > 0 ==> {
                &&& r@ == frame_bytes(old(self)@.outgoing[0])
                &&& final(self)@ == (ConnView {
                    outgoing: old(self)@.outgoing.drop_first(),
                    unsent: r@,
                    ..old(self)@
                })
            },
            old(self)@.unsent.len() == 0 && old(self)@.outgoing.len() == 0 ==> r@.len() == 0
                && final(self)@ == old(self)@,
    {
        if self.sent == self.in_flight.len() {
            match self.outgoing_packets.pop_front() {
                Some(packet) => {
                    proof {
                        assert(views(old(self).outgoing_packets@)[0] == packet@);
                        assert(views(self.outgoing_packets@) =~= views(
                            old(self).outgoing_packets@,
                        ).drop_first());
                        lemma_frame_len(packet@);
                    }
                    self.in_flight = serialize_packet(packet);
                    self.sent = 0;
                    assert(self.in_flight@.skip(0) =~= self.in_flight@);
                },
                None => {
                    return Vec::new();
                },
            }
        }
        let mut out: Vec<u8> = Vec::new();
        let mut i: usize = self.sent;
        while i < self.in_flight.len()
            invariant
                self.sent <= i <= self.in_flight@.len(),
                out@ == self.in_flight@.subrange(self.sent as int, i as int),
            decreases self.in_flight@.len() - i,
        {
            out.push(self.in_flight[i]);
            i += 1;
            assert(out@ =~= self.in_flight@.subrange(self.sent as int, i as int));
        }
        assert(out@ =~= self.in_flight@.skip(self.sent as int));
        out
    }

    /// Reads every whole frame from the inbound bytes and appends its packet
    /// to `incoming`; a malformed frame moves the connection to its closing
    /// state.
    pub fn decode_into(&mut self, incoming: &mut VecDeque<Packet>)
        requires
            old(self).wf(),
            queue_fits(views(old(incoming)@)),
        ensures
            final(self).wf(),
            queue_fits(views(final(incoming)@)),
            views(final(incoming)@) == views(old(incoming)@) + drain_frames(old(self)@.inbound).0,
            final(self)@ == (ConnView {
                inbound: drain_frames(old(self)@.inbound).1,
                disconnected: old(self)@.disconnected || drain_frames(old(self)@.inbound).2,
                ..old(self)@
            }),
    {
        let ok = deserialize_all(&mut self.buffer, incoming);
        if !ok {
            self.is_disconnected = true;
        }
        proof {
            lemma_drained_fit(old(self)@.inbound);
            let a = views(old(incoming)@);
            let b = drain_frames(old(self)@.inbound).0;
            assert forall|i: int| 0 <= i < views(incoming@).len() implies fits(
                #[trigger] views(incoming@)[i],
            ) by {
                if i < a.len() {
                    assert(views(incoming@)[i] == a[i]);
                } else {
                    assert(views(incoming@)[i] == b[i - a.len()]);
                }
            }
        }
    }

    /// Records that the peer took the first `count` bytes still unsent.
    pub fn record_sent(&mut self, count: usize)
        requires
            old(self).wf(),
            count <= old(self)@.unsent.len(),
        ensures
            final(self).wf(),
            final(self)@ == (ConnView { unsent: old(self)@.unsent.skip(count as int), ..old(self)@ }),
    {
        let total = self.in_flight.len();
        assert(self.sent + count <= total);
        self.sent = self.sent + count;
        assert(self.in_flight@.skip(self.sent as int) =~= old(self).in_flight@.skip(
            old(self).sent as int,
        ).skip(count as int));
    }
}

/// Queues a packet for one connection.
pub fn send(packet: Packet, connection: &mut Connection)
    requires
        old(connection).wf(),
        fits(packet@),
    ensures
        final(connection).wf(),
        final(connection)@ == (ConnView {
            outgoing: old(connection)@.outgoing.push(packet@),
            ..old(connection)@
        }),
{
    connection.outgoing_packets.push_back(packet);
    assert(views(connection.outgoing_packets@) =~= views(old(connection).outgoing_packets@).push(
        packet@,
    ));
}

/// Queues a notice from the server for one connection. Returns false, and
/// queues nothing, when the notice is too long to frame.
pub fn send_msg(message: &str, connection: &mut Connection) -> (r: bool)
    requires
        old(connection).wf(),
    ensures
        final(connection).wf(),
        r == fits((SERVER_USERNAME@, message@)),
        r ==> final(connection)@ == (ConnView {
            outgoing: old(connection)@.outgoing.push((SERVER_USERNAME@, message@)),
            ..old(connection)@
        }),
        !r ==> final(connection)@ == old(connection)@,
{
    let packet = Packet::new(SERVER_USERNAME, message);
    if packet.fits() {
        send(packet, connection);
        true
    } else {
        false
    }
}

} // verus!
