//! The server's connections, keyed by identifiers that are handed out in
//! increasing order and never reused, and the steps of each readiness cycle.
use vstd::prelude::*;

use std::collections::VecDeque;

use crate::codec::{
    declared_len, drain_frames, fits, frame_bytes, lemma_oversize_rejected, views, Packet,
};
use crate::{MAX_PACKET_BODY_SIZE, PACKET_HEADER_SIZE};
use crate::connection::{queue_fits, send, send_msg, ConnView, Connection, SERVER_USERNAME};
use crate::MAX_BUFFER_SIZE;

verus! {

/// Notice broadcast to the connections already there when a peer joins.
pub const JOIN_NOTICE: &'static str = "A client entered the room.";

/// Notice queued for a peer that has just joined.
pub const WELCOME_NOTICE: &'static str = "Welcome to Rustychat!";

/// Identifiers strictly increase along the table, so each is held once.
pub open spec fn tokens_ordered(cs: Seq<ConnView>) -> bool {
    forall|i: int, j: int| 0 <= i < j < cs.len() ==> cs[i].token < cs[j].token
}

/// Each connection with `ps` added to the end of its outgoing queue.
pub open spec fn with_queued(cs: Seq<ConnView>, ps: Seq<(Seq<char>, Seq<char>)>) -> Seq<ConnView> {
    Seq::new(cs.len(), |i: int| ConnView { outgoing: cs[i].outgoing + ps, ..cs[i] })
}

/// The connections that are not closing, in order.
pub open spec fn swept(cs: Seq<ConnView>) -> Seq<ConnView>
    decreases cs.len(),
{
    if cs.len() == 0 {
        Seq::empty()
    } else if cs.last().disconnected {
        swept(cs.drop_last())
    } else {
        swept(cs.drop_last()).push(cs.last())
    }
}

/// A server notice as queued: the notice itself, or nothing when it is too
/// long to frame.
pub open spec fn notice(message: Seq<char>) -> Seq<(Seq<char>, Seq<char>)> {
    if fits((SERVER_USERNAME@, message)) {
        seq![(SERVER_USERNAME@, message)]
    } else {
        Seq::empty()
    }
}

/// A connection after every whole frame has been read from its inbound bytes.
pub open spec fn decoded(c: ConnView) -> ConnView {
    ConnView {
        inbound: drain_frames(c.inbound).1,
        disconnected: c.disconnected || drain_frames(c.inbound).2,
        ..c
    }
}

/// Every connection after its whole frames have been read.
pub open spec fn decoded_all(cs: Seq<ConnView>) -> Seq<ConnView> {
    cs.map_values(|c: ConnView| decoded(c))
}

/// The packets read from the connections' inbound bytes, connection by
/// connection, in order.
pub open spec fn gathered(cs: Seq<ConnView>) -> Seq<(Seq<char>, Seq<char>)>
    decreases cs.len(),
{
    if cs.len() == 0 {
        Seq::empty()
    } else {
        gathered(cs.drop_last()) + drain_frames(cs.last().inbound).0
    }
}

/// The table after the decode step of a cycle: the closing connections are
/// swept, every whole frame is read, the connections that sent a malformed
/// frame are swept too, and each packet read is queued for every connection
/// left.
pub open spec fn after_cycle(cs: Seq<ConnView>) -> Seq<ConnView> {
    with_queued(swept(decoded_all(swept(cs))), gathered(swept(cs)))
}

/// Broadcasting a packet adds it exactly once, at the end, to the queue of
/// every connection, the sender's included, and changes nothing else.
pub proof fn lemma_fan_out(cs: Seq<ConnView>, p: (Seq<char>, Seq<char>))
    ensures
        with_queued(cs, seq![p]).len() == cs.len(),
        forall|j: int|
            0 <= j < cs.len() ==> #[trigger] with_queued(cs, seq![p])[j] == (ConnView {
                outgoing: cs[j].outgoing.push(p),
                ..cs[j]
            }),
{
    assert forall|j: int| 0 <= j < cs.len() implies #[trigger] with_queued(cs, seq![p])[j] == (
    ConnView { outgoing: cs[j].outgoing.push(p), ..cs[j] }) by {
        assert(cs[j].outgoing + seq![p] =~= cs[j].outgoing.push(p));
    }
}

/// Every connection left by a sweep was in the table and is not closing.
pub proof fn lemma_swept_members(cs: Seq<ConnView>)
    ensures
        forall|j: int|
            0 <= j < swept(cs).len() ==> cs.contains(#[trigger] swept(cs)[j]) && !swept(
                cs,
            )[j].disconnected,
    decreases cs.len(),
{
    if cs.len() > 0 {
        let init = cs.drop_last();
        lemma_swept_members(init);
        assert forall|j: int| 0 <= j < swept(cs).len() implies cs.contains(
            #[trigger] swept(cs)[j],
        ) && !swept(cs)[j].disconnected by {
            if j < swept(init).len() {
                assert(swept(cs)[j] == swept(init)[j]);
                let k = choose|k: int| 0 <= k < init.len() && init[k] == swept(init)[j];
                assert(cs[k] == init[k]);
            } else {
                assert(swept(cs)[j] == cs[cs.len() - 1]);
            }
        }
    }
}

/// A closing connection is gone after the next sweep, and after the next
/// cycle: no connection left holds its identifier.
pub proof fn lemma_closing_connection_removed(cs: Seq<ConnView>, i: int)
    requires
        tokens_ordered(cs),
        0 <= i < cs.len(),
        cs[i].disconnected,
    ensures
        forall|j: int| 0 <= j < swept(cs).len() ==> (#[trigger] swept(cs)[j]).token != cs[i].token,
        forall|j: int|
            0 <= j < after_cycle(cs).len() ==> (#[trigger] after_cycle(cs)[j]).token
                != cs[i].token,
{
    lemma_swept_members(cs);
    assert forall|j: int| 0 <= j < swept(cs).len() implies (#[trigger] swept(cs)[j]).token
        != cs[i].token by {
        let k = choose|k: int| 0 <= k < cs.len() && cs[k] == swept(cs)[j];
        if k != i {
            assert(cs[k].token != cs[i].token);
        }
    }
    lemma_cycle_drops_token(cs, cs[i].token);
}

/// When no connection left by the first sweep holds `token`, none is left
/// after the cycle either.
proof fn lemma_cycle_drops_token(cs: Seq<ConnView>, token: usize)
    requires
        forall|j: int| 0 <= j < swept(cs).len() ==> (#[trigger] swept(cs)[j]).token != token,
    ensures
        forall|j: int|
            0 <= j < after_cycle(cs).len() ==> (#[trigger] after_cycle(cs)[j]).token != token,
{
    let d = decoded_all(swept(cs));
    lemma_swept_members(d);
    assert forall|j: int| 0 <= j < after_cycle(cs).len() implies (#[trigger] after_cycle(
        cs,
    )[j]).token != token by {
        assert(after_cycle(cs)[j].token == swept(d)[j].token);
        let k = choose|k: int| 0 <= k < d.len() && d[k] == swept(d)[j];
        assert(d[k].token == swept(cs)[k].token);
    }
}

/// A connection whose inbound bytes start with a header that declares a body
/// of 256 bytes or more yields no packet, and is gone after the cycle.
pub proof fn lemma_oversize_connection_removed(cs: Seq<ConnView>, i: int)
    requires
        tokens_ordered(cs),
        0 <= i < cs.len(),
        cs[i].inbound.len() >= PACKET_HEADER_SIZE,
        declared_len(cs[i].inbound) >= MAX_PACKET_BODY_SIZE,
    ensures
        drain_frames(cs[i].inbound).0.len() == 0,
        forall|j: int|
            0 <= j < after_cycle(cs).len() ==> (#[trigger] after_cycle(cs)[j]).token
                != cs[i].token,
{
    lemma_oversize_rejected(cs[i].inbound);
    if cs[i].disconnected {
        lemma_closing_connection_removed(cs, i);
    } else {
        let live = swept(cs);
        let d = decoded_all(live);
        lemma_swept_members(cs);
        lemma_swept_members(d);
        assert forall|j: int| 0 <= j < after_cycle(cs).len() implies (#[trigger] after_cycle(
            cs,
        )[j]).token != cs[i].token by {
            assert(after_cycle(cs)[j].token == swept(d)[j].token);
            let k = choose|k: int| 0 <= k < d.len() && d[k] == swept(d)[j];
            let m = choose|m: int| 0 <= m < cs.len() && cs[m] == live[k];
            if m == i {
                assert(d[k] == decoded(cs[i]));
            } else {
                assert(cs[m].token != cs[i].token);
            }
        }
    }
}

/// The open connections of a server.
pub struct ConnectionTable {
    connections: Vec<Connection>,
    next_token: usize,
}

impl View for ConnectionTable {
    type V = Seq<ConnView>;

    closed spec fn view(&self) -> Seq<ConnView> {
        self.connections@.map_values(|c: Connection| c@)
    }
}

impl ConnectionTable {
    /// Every connection is well formed.
    pub closed spec fn connections_wf(&self) -> bool {
        forall|i: int| 0 <= i < self.connections@.len() ==> (#[trigger] self.connections@[i]).wf()
    }

    /// The last identifier handed out; zero before the first.
    pub closed spec fn last_token(&self) -> usize {
        self.next_token
    }

    pub open spec fn wf(&self) -> bool {
        &&& self.connections_wf()
        &&& tokens_ordered(self@)
        &&& forall|i: int| 0 <= i < self@.len() ==> 0 < #[trigger] self@[i].token <= self.last_token()
        &&& forall|i: int| 0 <= i < self@.len() ==> queue_fits(#[trigger] self@[i].outgoing)
    }

    pub fn new() -> (r: Self)
        ensures
            r.wf(),
            r@ == Seq::<ConnView>::empty(),
            r.last_token() == 0,
    {
        let r = ConnectionTable { connections: Vec::new(), next_token: 0 };
        assert(r@ =~= Seq::<ConnView>::empty());
        r
    }

    pub fn len(&self) -> (r: usize)
        ensures
            r == self@.len(),
    {
        self.connections.len()
    }

    /// The connection with identifier `token`, if it is in the table.
    pub fn get(&self, token: usize) -> (r: Option<&Connection>)
        requires
            self.wf(),
        ensures
            r matches Some(c) ==> c.wf() && exists|i: int|
                0 <= i < self@.len() && self@[i] == c@ && c@.token == token,
            r is None ==> forall|i: int| 0 <= i < self@.len() ==> self@[i].token != token,
    {
        match self.find(token) {
            Some(i) => Some(&self.connections[i]),
            None => None,
        }
    }

    fn find(&self, token: usize) -> (r: Option<usize>)
        requires
            self.wf(),
        ensures
            r matches Some(i) ==> i < self@.len() && self@[i as int].token == token,
            r is None ==> forall|i: int| 0 <= i < self@.len() ==> self@[i].token != token,
    {
        let mut i: usize = 0;
        while i < self.connections.len()
            invariant
                i <= self@.len(),
                self@.len() == self.connections@.len(),
                forall|j: int| 0 <= j < i ==> self@[j].token != token,
            decreases self@.len() - i,
        {
            if self.connections[i].token() == token {
                return Some(i);
            }
            i += 1;
        }
        None
    }

    fn take(&mut self, i: usize) -> (c: Connection)
        requires
            i < old(self).connections@.len(),
        ensures
            c == old(self).connections@[i as int],
            final(self).connections@ == old(self).connections@.remove(i as int),
            final(self).next_token == old(self).next_token,
    {
        self.connections.remove(i)
    }

    fn put(&mut self, i: usize, c: Connection)
        requires
            i <= old(self).connections@.len(),
        ensures
            final(self).connections@ == old(self).connections@.insert(i as int, c),
            final(self).next_token == old(self).next_token,
    {
        self.connections.insert(i, c);
    }

    /// Putting back a connection with its identifier and a queue that can be
    /// framed keeps the table well formed.
    proof fn lemma_updated(&self, prev: Self, i: int)
        requires
            prev.wf(),
            0 <= i < prev@.len(),
            self.next_token == prev.next_token,
            self.connections@ == prev.connections@.update(i, self.connections@[i]),
            self.connections@[i].wf(),
            self@[i].token == prev@[i].token,
            queue_fits(self@[i].outgoing),
        ensures
            self.wf(),
            self@ == prev@.update(i, self@[i]),
    {
        assert(self@ =~= prev@.update(i, self@[i]));
        assert forall|j: int| 0 <= j < self.connections@.len() implies (
        #[trigger] self.connections@[j]).wf() by {
            if j != i {
                assert(self.connections@[j] == prev.connections@[j]);
            }
        }
    }

    /// Moves the connection `token` to its closing state; nothing happens
    /// when no connection has that identifier.
    pub fn mark_disconnected(&mut self, token: usize)
        requires
            old(self).wf(),
        ensures
            final(self).wf(),
            final(self).last_token() == old(self).last_token(),
            final(self)@.len() == old(self)@.len(),
            forall|i: int|
                0 <= i < old(self)@.len() ==> #[trigger] final(self)@[i] == if old(self)@[i].token
                    == token {
                    ConnView { disconnected: true, ..old(self)@[i] }
                } else {
                    old(self)@[i]
                },
    {
        if let Some(i) = self.find(token) {
            let ghost prev = *self;
            let mut c = self.take(i);
            c.mark_disconnected();
            self.put(i, c);
            proof {
                assert(self.connections@ =~= prev.connections@.update(i as int, c));
                self.lemma_updated(prev, i as int);
            }
        }
    }

    /// Takes the result of one read from connection `token`: no bytes means
    /// that the peer closed it, bytes that would overflow its buffer close
    /// it too, other bytes are kept for decoding. Nothing happens when no
    /// connection has that identifier.
    pub fn receive(&mut self, token: usize, bytes: &[u8])
        requires
            old(self).wf(),
        ensures
            final(self).wf(),
            final(self).last_token() == old(self).last_token(),
            final(self)@.len() == old(self)@.len(),
            forall|i: int|
                0 <= i < old(self)@.len() ==> #[trigger] final(self)@[i] == if old(self)@[i].token
                    != token {
                    old(self)@[i]
                } else if bytes@.len() == 0 || old(self)@[i].inbound.len() + bytes@.len()
                    > MAX_BUFFER_SIZE {
                    ConnView { disconnected: true, ..old(self)@[i] }
                } else {
                    ConnView { inbound: old(self)@[i].inbound + bytes@, ..old(self)@[i] }
                },
    {
        if let Some(i) = self.find(token) {
            let ghost prev = *self;
            let mut c = self.take(i);
            c.receive(bytes);
            self.put(i, c);
            proof {
                assert(self.connections@ =~= prev.connections@.update(i as int, c));
                self.lemma_updated(prev, i as int);
            }
        }
    }

    /// The bytes to write next to connection `token` (see
    /// `Connection::pending_output`); empty when there is nothing to write or
    /// no such connection.
    pub fn pending_output(&mut self, token: usize) -> (r: Vec<u8>)
        requires
            old(self).wf(),
        ensures
            final(self).wf(),
            final(self).last_token() == old(self).last_token(),
            final(self)@.len() == old(self)@.len(),
            forall|i: int|
                0 <= i < old(self)@.len() && old(self)@[i].token != token
                    ==> #[trigger] final(self)@[i] == old(self)@[i],
            forall|i: int|
                0 <= i < old(self)@.len() && #[trigger] old(self)@[i].token == token ==> {
                    let c = old(self)@[i];
                    if c.unsent.len() > 0 {
                        r@ == c.unsent && final(self)@[i] == c
                    } else if c.outgoing.len() > 0 {
                        &&& r@ == frame_bytes(c.outgoing[0])
                        &&& final(self)@[i] == (ConnView {
                            outgoing: c.outgoing.drop_first(),
                            unsent: r@,
                            ..c
                        })
                    } else {
                        r@.len() == 0 && final(self)@[i] == c
                    }
                },
            (forall|i: int| 0 <= i < old(self)@.len() ==> old(self)@[i].token != token) ==> r@.len()
                == 0,
    {
        if let Some(i) = self.find(token) {
            let ghost prev = *self;
            let mut c = self.take(i);
            let out = c.pending_output();
            self.put(i, c);
            proof {
                assert(self.connections@ =~= prev.connections@.update(i as int, c));
                let q = prev@[i as int].outgoing;
                assert forall|k: int| 0 <= k < c@.outgoing.len() implies fits(
                    #[trigger] c@.outgoing[k],
                ) by {
                    if q.len() > 0 && prev@[i as int].unsent.len() == 0 {
                        assert(c@.outgoing[k] == q[k + 1]);
                    }
                }
                self.lemma_updated(prev, i as int);
            }
            out
        } else {
            Vec::new()
        }
    }

    /// Records that connection `token` took the first `count` bytes of those
    /// still unsent.
    pub fn record_sent(&mut self, token: usize, count: usize)
        requires
            old(self).wf(),
            forall|i: int|
                0 <= i < old(self)@.len() && #[trigger] old(self)@[i].token == token ==> count
                    <= old(self)@[i].unsent.len(),
        ensures
            final(self).wf(),
            final(self).last_token() == old(self).last_token(),
            final(self)@.len() == old(self)@.len(),
            forall|i: int|
                0 <= i < old(self)@.len() ==> #[trigger] final(self)@[i] == if old(self)@[i].token
                    == token {
                    ConnView { unsent: old(self)@[i].unsent.skip(count as int), ..old(self)@[i] }
                } else {
                    old(self)@[i]
                },
    {
        if let Some(i) = self.find(token) {
            let ghost prev = *self;
            let mut c = self.take(i);
            c.record_sent(count);
            self.put(i, c);
            proof {
                assert(self.connections@ =~= prev.connections@.update(i as int, c));
                self.lemma_updated(prev, i as int);
            }
        }
    }
}

/// Queues a copy of `packet` for every connection in the table, the sender's
/// own included.
pub fn send_all(packet: Packet, connections: &mut ConnectionTable)
    requires
        old(connections).wf(),
        fits(packet@),
    ensures
        final(connections).wf(),
        final(connections).last_token() == old(connections).last_token(),
        final(connections)@ == with_queued(old(connections)@, seq![packet@]),
{
    let n = connections.len();
    let mut i: usize = 0;
    while i < n
        invariant
            connections.wf(),
            fits(packet@),
            n == connections@.len(),
            n == old(connections)@.len(),
            i <= n,
            connections.last_token() == old(connections).last_token(),
            forall|j: int| 0 <= j < i ==> #[trigger] connections@[j] == (ConnView {
                outgoing: old(connections)@[j].outgoing.push(packet@),
                ..old(connections)@[j]
            }),
            forall|j: int| i <= j < n ==> #[trigger] connections@[j] == old(connections)@[j],
        decreases n - i,
    {
        let ghost prev = *connections;
        let mut c = connections.take(i);
        send(packet.clone(), &mut c);
        connections.put(i, c);
        proof {
            assert(connections.connections@ =~= prev.connections@.update(i as int, c));
            let q = prev@[i as int].outgoing;
            assert forall|k: int| 0 <= k < c@.outgoing.len() implies fits(
                #[trigger] c@.outgoing[k],
            ) by {
                if k < q.len() {
                    assert(c@.outgoing[k] == q[k]);
                }
            }
            connections.lemma_updated(prev, i as int);
        }
        i += 1;
    }
    assert forall|j: int| 0 <= j < n implies #[trigger] connections@[j] == with_queued(
        old(connections)@,
        seq![packet@],
    )[j] by {
        assert(old(connections)@[j].outgoing.push(packet@) =~= old(connections)@[j].outgoing
            + seq![packet@]);
    }
    assert(connections@ =~= with_queued(old(connections)@, seq![packet@]));
}

/// Queues a notice from the server for every connection in the table.
/// Returns false, and queues nothing, when the notice is too long to frame.
pub fn send_all_msg(message: &str, connections: &mut ConnectionTable) -> (r: bool)
    requires
        old(connections).wf(),
    ensures
        final(connections).wf(),
        final(connections).last_token() == old(connections).last_token(),
        r == fits((SERVER_USERNAME@, message@)),
        final(connections)@ == with_queued(old(connections)@, notice(message@)),
{
    let packet = Packet::new(SERVER_USERNAME, message);
    if packet.fits() {
        send_all(packet, connections);
        true
    } else {
        assert(connections@ =~= with_queued(old(connections)@, notice(message@)));
        false
    }
}

impl ConnectionTable {
    /// Registers a newly accepted peer under the next identifier: the
    /// connections already there are sent a join notice, and the newcomer
    /// alone a welcome. Returns `None`, and changes nothing, once every
    /// identifier has been handed out.
    pub fn accept(&mut self) -> (r: Option<usize>)
        requires
            old(self).wf(),
        ensures
            final(self).wf(),
            old(self).last_token() == usize::MAX ==> r is None && *final(self) == *old(self),
            old(self).last_token() < usize::MAX ==> {
                &&& r == Some((old(self).last_token() + 1) as usize)
                &&& final(self).last_token() == old(self).last_token() + 1
                &&& final(self)@ == with_queued(old(self)@, notice(JOIN_NOTICE@)).push(
                    ConnView {
                        token: (old(self).last_token() + 1) as usize,
                        disconnected: false,
                        inbound: Seq::empty(),
                        outgoing: notice(WELCOME_NOTICE@),
                        unsent: Seq::empty(),
                    },
                )
            },
    {
        if self.next_token == usize::MAX {
            return None;
        }
        let token = self.next_token + 1;
        send_all_msg(JOIN_NOTICE, self);
        let mut connection = Connection::new(token);
        send_msg(WELCOME_NOTICE, &mut connection);
        let ghost prev = *self;
        self.connections.push(connection);
        self.next_token = token;
        proof {
            assert(connection@.outgoing =~= notice(WELCOME_NOTICE@));
            assert(self@ =~= prev@.push(connection@));
            assert forall|j: int| 0 <= j < self.connections@.len() implies (
            #[trigger] self.connections@[j]).wf() by {
                if j < prev.connections@.len() {
                    assert(self.connections@[j] == prev.connections@[j]);
                }
            }
        }
        Some(token)
    }
}

impl ConnectionTable {
    /// Removes every connection in its closing state.
    pub fn sweep(&mut self)
        requires
            old(self).wf(),
        ensures
            final(self).wf(),
            final(self).last_token() == old(self).last_token(),
            final(self)@ == swept(old(self)@),
    {
        let ghost orig = self@;
        let mut i: usize = 0;
        let ghost mut k: int = 0;
        while i < self.connections.len()
            invariant
                self.wf(),
                self.last_token() == old(self).last_token(),
                orig == old(self)@,
                0 <= i <= k <= orig.len(),
                i <= self@.len(),
                self@.take(i as int) == swept(orig.take(k)),
                self@.skip(i as int) == orig.skip(k),
            decreases orig.len() - k,
        {
            let ghost prev = *self;
            assert(self@.len() == self.connections@.len());
            assert(self@.skip(i as int).len() > 0);
            assert(k < orig.len());
            assert(orig.take(k + 1).drop_last() =~= orig.take(k));
            assert(orig[k] == self@[i as int]) by {
                assert(self@.skip(i as int)[0] == orig.skip(k)[0]);
            }
            if self.connections[i].is_disconnected() {
                let _ = self.take(i);
                proof {
                    assert(self@ =~= prev@.remove(i as int));
                    assert(self@.take(i as int) =~= prev@.take(i as int));
                    assert(self@.skip(i as int) =~= prev@.skip(i as int).drop_first());
                    assert(orig.skip(k + 1) =~= orig.skip(k).drop_first());
                    assert forall|j: int| 0 <= j < self.connections@.len() implies (
                    #[trigger] self.connections@[j]).wf() by {
                        if j < i {
                            assert(self.connections@[j] == prev.connections@[j]);
                        } else {
                            assert(self.connections@[j] == prev.connections@[j + 1]);
                        }
                    }
                }
            } else {
                i += 1;
                proof {
                    assert(self@.take(i as int) =~= prev@.take(i - 1).push(prev@[i - 1]));
                    assert(self@.skip(i as int) =~= prev@.skip(i - 1).drop_first());
                    assert(orig.skip(k + 1) =~= orig.skip(k).drop_first());
                }
            }
            proof {
                k = k + 1;
            }
        }
        proof {
            assert(self@.len() == self.connections@.len());
            assert(self@.len() == i);
            assert(self@.skip(i as int) =~= Seq::<ConnView>::empty());
            assert(orig.skip(k).len() == 0);
            assert(orig.take(k) =~= orig);
            assert(self@.take(i as int) =~= self@);
        }
    }

    /// Reads every whole frame from each connection's inbound bytes, in
    /// table order, and appends its packet to `incoming`. Connections that
    /// sent a malformed frame move to their closing state.
    pub fn decode_incoming(&mut self, incoming: &mut VecDeque<Packet>)
        requires
            old(self).wf(),
            queue_fits(views(old(incoming)@)),
        ensures
            final(self).wf(),
            final(self).last_token() == old(self).last_token(),
            final(self)@ == decoded_all(old(self)@),
            views(final(incoming)@) == views(old(incoming)@) + gathered(old(self)@),
            queue_fits(views(final(incoming)@)),
    {
        let ghost orig = self@;
        let n = self.connections.len();
        let mut i: usize = 0;
        while i < n
            invariant
                self.wf(),
                self.last_token() == old(self).last_token(),
                orig == old(self)@,
                n == orig.len(),
                n == self@.len(),
                i <= n,
                forall|j: int| 0 <= j < i ==> #[trigger] self@[j] == decoded(orig[j]),
                forall|j: int| i <= j < n ==> #[trigger] self@[j] == orig[j],
                views(incoming@) == views(old(incoming)@) + gathered(orig.take(i as int)),
                queue_fits(views(incoming@)),
            decreases n - i,
        {
            let ghost prev = *self;
            let ghost before = incoming@;
            let mut c = self.take(i);
            let ghost c_old = c@;
            assert(c_old == prev@[i as int]);
            assert(c_old == orig[i as int]);
            assert(queue_fits(prev@[i as int].outgoing));
            c.decode_into(incoming);
            self.put(i, c);
            proof {
                assert(self.connections@ =~= prev.connections@.update(i as int, c));
                self.lemma_updated(prev, i as int);
                assert(orig.take(i + 1).drop_last() =~= orig.take(i as int));
                assert(orig.take(i + 1).last() == c_old);
                assert(gathered(orig.take(i + 1)) == gathered(orig.take(i as int)) + drain_frames(
                    c_old.inbound,
                ).0);
                assert(views(incoming@) =~= views(old(incoming)@) + gathered(orig.take(i + 1)));
            }
            i += 1;
        }
        assert(orig.take(n as int) =~= orig);
        assert(self@ =~= decoded_all(orig));
    }

    /// The step of a readiness cycle that follows the reads and writes: the
    /// closing connections are swept, every whole frame is read, the
    /// connections that sent a malformed frame are swept too, and each
    /// packet read is queued for every connection left, in order. Returns
    /// the packets read.
    pub fn process_incoming(&mut self) -> (r: Vec<Packet>)
        requires
            old(self).wf(),
        ensures
            final(self).wf(),
            final(self).last_token() == old(self).last_token(),
            final(self)@ == after_cycle(old(self)@),
            views(r@) == gathered(swept(old(self)@)),
    {
        self.sweep();
        let ghost live = self@;
        let mut incoming: VecDeque<Packet> = VecDeque::new();
        assert(views(incoming@) =~= Seq::<(Seq<char>, Seq<char>)>::empty());
        self.decode_incoming(&mut incoming);
        self.sweep();
        let ghost base = self@;
        let ghost all = views(incoming@);
        assert(all =~= gathered(live));
        let mut delivered: Vec<Packet> = Vec::new();
        assert(base =~= with_queued(base, views(delivered@)));
        loop
            invariant
                self.wf(),
                self.last_token() == old(self).last_token(),
                views(delivered@) + views(incoming@) == all,
                self@ == with_queued(base, views(delivered@)),
                queue_fits(views(incoming@)),
            ensures
                self.wf(),
                self.last_token() == old(self).last_token(),
                views(delivered@) == all,
                self@ == with_queued(base, all),
            decreases incoming@.len(),
        {
            let ghost seen = views(delivered@);
            let ghost rest = views(incoming@);
            match incoming.pop_front() {
                Some(packet) => {
                    proof {
                        assert(rest[0] == packet@);
                        assert(fits(rest[0]));
                        assert(views(incoming@) =~= rest.drop_first());
                    }
                    send_all(packet.clone(), self);
                    delivered.push(packet);
                    proof {
                        assert(views(delivered@) =~= seen.push(packet@));
                        assert(views(delivered@) + views(incoming@) =~= seen + rest);
                        assert forall|j: int| 0 <= j < base.len() implies #[trigger] (
                        base[j].outgoing + seen) + seq![packet@] == base[j].outgoing + views(
                            delivered@,
                        ) by {
                            assert((base[j].outgoing + seen) + seq![packet@] =~= base[j].outgoing
                                + views(delivered@));
                        }
                        assert(self@ =~= with_queued(base, views(delivered@)));
                        assert forall|k: int| 0 <= k < views(incoming@).len() implies fits(
                            #[trigger] views(incoming@)[k],
                        ) by {
                            assert(views(incoming@)[k] == rest[k + 1]);
                        }
                    }
                },
                None => {
                    proof {
                        assert(views(delivered@) =~= all);
                    }
                    break ;
                },
            }
        }
        delivered
    }
}

} // verus!
