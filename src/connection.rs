//! One peer's connection: the lifecycle state machine, the routing of
//! inbound datagrams to the channels, and the framing of outbound ones.
use crate::fragment::{fragment, needs_split, views, Reassembler, PACKET_SPLIT_THRESHOLD};
use crate::jitter::{jitter_wf, receive_spec, Arrival, JitterBuffer, JitterModel};
use crate::ordered::{inbox_wf, receive_step, OrderedInbox};
use crate::reliability::{after_acks, is_reliable, noted, numbering, reliability_wf, Reliability};
use crate::wire::{
    decode_acks, decode_datagram, encode_datagram, header_bytes, le_value, parse_datagram,
    read_le, tail_of, Datagram, CHANNEL_ACK, CHANNEL_CLIENT_ID, CHANNEL_FRAGMENT,
    CHANNEL_MESSAGE, CHANNEL_STATE, CHANNEL_SYNC, CHANNEL_VOICE,
};
use crate::bits::{Bits, MAX_BITS};
use crate::entity::{build_state_payload, joined_records};
use crate::scheduler::{Planned, PlannedPacket};
use vstd::prelude::*;

verus! {

/// The lifecycle of a connection.
#[derive(Clone, Copy, Debug, PartialEq, Eq, Structural)]
pub enum ClientState {
    /// Waiting for the peer to assign an identity.
    AwaitingID,
    /// Identity known; receiving the initial full sync.
    InitialSync,
    /// Live state is flowing.
    Connected,
    /// The transport lost the peer; nothing more is processed.
    Disconnected,
}

/// What an inbound datagram produced.
#[derive(Clone, Debug, PartialEq, Eq)]
pub enum Inbound {
    /// Shorter than its header, or than its channel's own header: dropped.
    Malformed,
    /// On a channel nobody handles: dropped.
    UnknownChannel(u16),
    /// Not legal in the current state, or a duplicate: dropped.
    Ignored,
    /// Live state whose latency was past the discard threshold: dropped.
    Stale,
    /// Live state placed in the jitter buffer.
    StateBuffered,
    /// Live state outside every jitter window: dropped and counted.
    JitterMiss,
    /// Initial-sync state placed in the bucket drained next.
    SyncBuffered,
    /// An application message, in order: its sequence number and payload.
    Message(u64, Vec<u8>),
    /// The identity the peer assigned.
    Identity(u16),
    /// A voice frame: its sequence number and encoded bytes.
    Voice(u64, Vec<u8>),
}

/// The state after a packet on `channel` whose payload is `len` bytes long.
pub open spec fn next_state(state: ClientState, channel: u16, len: nat) -> ClientState {
    if state == ClientState::Disconnected {
        state
    } else if channel == CHANNEL_STATE && state != ClientState::AwaitingID {
        ClientState::Connected
    } else if channel == CHANNEL_CLIENT_ID && len >= 8 && state != ClientState::Connected {
        ClientState::InitialSync
    } else {
        state
    }
}

/// The events for messages the ordered inbox released, in order.
pub open spec fn message_events(out: Seq<(u64, Vec<u8>)>) -> Seq<Inbound> {
    out.map_values(|d: (u64, Vec<u8>)| Inbound::Message(d.0, d.1))
}

/// The event a jitter-buffer outcome is reported as.
pub open spec fn arrival_event(a: Arrival) -> Inbound {
    match a {
        Arrival::Stale => Inbound::Stale,
        Arrival::Accepted(_) => Inbound::StateBuffered,
        Arrival::Missed => Inbound::JitterMiss,
    }
}

/// What the payload of a packet on channel `c`, numbered `q`, does to a
/// connection that is not disconnected, and the events it produces.
/// - Live state: ignored before an identity; otherwise the connection is
///   connected, and a payload with its 8-byte send stamp goes to the jitter
///   buffer (one too short is malformed).
/// - Initial sync: taken only during the initial sync, once per sequence
///   number, into the bucket drained next; once connected the record of
///   seen numbers is released; otherwise ignored.
/// - Messages: the ordered inbox takes it and its released messages come out.
/// - Voice frames are handed on.
/// - An identity (8 bytes, the low 16 bits taken) moves a connection not yet
///   connected to the initial sync; later ones are ignored.
/// - Any other channel is unknown. Nothing else changes.
pub open spec fn route_spec(
    pre: Connection,
    c: u16,
    q: u64,
    payload: Vec<u8>,
    now_ms: u64,
    tick_length_ms: u32,
    post: Connection,
    ev: Seq<Inbound>,
) -> bool {
    let p = payload@;
    if c == CHANNEL_STATE {
        if pre.state == ClientState::AwaitingID {
            post == pre && ev == seq![Inbound::Ignored]
        } else if p.len() < 8 {
            post == (Connection { state: ClientState::Connected, ..pre }) && ev == seq![
                Inbound::Malformed,
            ]
        } else {
            &&& post == (Connection { state: ClientState::Connected, jitter: post.jitter, ..pre })
            &&& exists|a: Arrival|
                receive_spec(
                    pre.jitter@,
                    p,
                    le_value(p.subrange(0, 8)) as u64,
                    now_ms,
                    tick_length_ms,
                    post.jitter@,
                    a,
                ) && ev == seq![arrival_event(a)]
        }
    } else if c == CHANNEL_SYNC {
        if pre.state == ClientState::InitialSync {
            if pre.sync_seen@.contains(q) {
                post == pre && ev == seq![Inbound::Ignored]
            } else {
                &&& ev == seq![Inbound::SyncBuffered]
                &&& post.sync_seen@ == pre.sync_seen@.push(q)
                &&& post.jitter@ == (JitterModel {
                    buckets: pre.jitter@.buckets.update(0, pre.jitter@.buckets[0].push(p)),
                    ..pre.jitter@
                })
                &&& post == (Connection { sync_seen: post.sync_seen, jitter: post.jitter, ..pre })
            }
        } else if pre.state == ClientState::Connected {
            &&& ev == seq![Inbound::Ignored]
            &&& post.sync_seen@.len() == 0
            &&& post == (Connection { sync_seen: post.sync_seen, ..pre })
        } else {
            post == pre && ev == seq![Inbound::Ignored]
        }
    } else if c == CHANNEL_MESSAGE {
        &&& post == (Connection { messages: post.messages, ..pre })
        &&& exists|out: Seq<(u64, Vec<u8>)>|
            receive_step(pre.messages@, q, payload, post.messages@, out) && ev
                == message_events(out)
    } else if c == CHANNEL_VOICE {
        post == pre && ev == seq![Inbound::Voice(q, payload)]
    } else if c == CHANNEL_CLIENT_ID {
        if p.len() < 8 {
            post == pre && ev == seq![Inbound::Malformed]
        } else if pre.state == ClientState::Connected {
            post == pre && ev == seq![Inbound::Ignored]
        } else {
            let id = (le_value(p.subrange(0, 8)) % 0x1_0000) as u16;
            post == (Connection { state: ClientState::InitialSync, id, ..pre }) && ev == seq![
                Inbound::Identity(id),
            ]
        }
    } else {
        post == pre && ev == seq![Inbound::UnknownChannel(c)]
    }
}

proof fn lemma_pushed(before: Seq<Inbound>, x: Inbound)
    ensures
        before.push(x).subrange(0, before.len() as int) == before,
        before.push(x).subrange(before.len() as int, before.len() + 1 as int) == seq![x],
{
    assert(before.push(x).subrange(0, before.len() as int) =~= before);
    assert(before.push(x).subrange(before.len() as int, before.len() + 1 as int) =~= seq![x]);
}

/// What a datagram put back together from fragments does: as if received
/// on its own channel, except that it owes no acknowledgement; a malformed
/// one, or one that is itself a fragment, is dropped and reported.
pub open spec fn reassembled_spec(
    pre: Connection,
    whole: Seq<u8>,
    now_ms: u64,
    tick_length_ms: u32,
    post: Connection,
    ev: Seq<Inbound>,
) -> bool {
    match parse_datagram(whole) {
        Err(_) => post == pre && ev == seq![Inbound::Malformed],
        Ok((c, q, p)) => if c == CHANNEL_ACK {
            &&& ev.len() == 0
            &&& post.reliability@ == (crate::reliability::ReliabilityModel {
                unacked: after_acks(pre.reliability@.unacked, crate::wire::parse_acks(p)),
                ..pre.reliability@
            })
            &&& post == (Connection { reliability: post.reliability, ..pre })
        } else if c == CHANNEL_FRAGMENT {
            post == pre && ev == seq![Inbound::UnknownChannel(c)]
        } else {
            exists|payload: Vec<u8>|
                payload@ == p && route_spec(
                    pre,
                    c,
                    q->Some_0,
                    payload,
                    now_ms,
                    tick_length_ms,
                    post,
                    ev,
                )
        },
    }
}

/// The datagrams a run of reassembly outcomes completed, in order.
pub open spec fn completed(os: Seq<Option<Seq<u8>>>) -> Seq<Seq<u8>>
    decreases os.len(),
{
    if os.len() == 0 {
        Seq::empty()
    } else {
        completed(os.drop_last()) + match os.last() {
            Some(w) => seq![w],
            None => Seq::empty(),
        }
    }
}

/// Reassembled datagrams handled one after another, as `reassembled_spec`
/// says, from `pre` to `post`, producing `ev`.
pub open spec fn handled_in_turn(
    pre: Connection,
    wholes: Seq<Seq<u8>>,
    now_ms: u64,
    tick_length_ms: u32,
    post: Connection,
    ev: Seq<Inbound>,
) -> bool
    decreases wholes.len(),
{
    if wholes.len() == 0 {
        post == pre && ev.len() == 0
    } else {
        exists|mid: Connection, e1: Seq<Inbound>, e2: Seq<Inbound>|
            handled_in_turn(pre, wholes.drop_last(), now_ms, tick_length_ms, mid, e1)
                && reassembled_spec(mid, wholes.last(), now_ms, tick_length_ms, post, e2) && ev
                == e1 + e2
    }
}

/// A connection with its reassembler set to `r`.
pub open spec fn with_reassembler(c: Connection, r: Reassembler) -> Connection {
    Connection { reassembler: r, ..c }
}

proof fn lemma_reassembled_detach(
    pre: Connection,
    whole: Seq<u8>,
    now_ms: u64,
    tick_length_ms: u32,
    post: Connection,
    ev: Seq<Inbound>,
    r: Reassembler,
)
    requires
        reassembled_spec(pre, whole, now_ms, tick_length_ms, post, ev),
        pre.reassembler == post.reassembler,
    ensures
        reassembled_spec(
            with_reassembler(pre, r),
            whole,
            now_ms,
            tick_length_ms,
            with_reassembler(post, r),
            ev,
        ),
{
    let dp = with_reassembler(pre, r);
    let dq = with_reassembler(post, r);
    match parse_datagram(whole) {
        Err(_) => {},
        Ok((c, q, p)) => {
            if c != CHANNEL_ACK && c != CHANNEL_FRAGMENT {
                let payload = choose|payload: Vec<u8>|
                    payload@ == p && route_spec(
                        pre,
                        c,
                        q->Some_0,
                        payload,
                        now_ms,
                        tick_length_ms,
                        post,
                        ev,
                    );
                if c == CHANNEL_STATE && pre.state != ClientState::AwaitingID && p.len() >= 8 {
                    let a = choose|a: Arrival|
                        receive_spec(
                            pre.jitter@,
                            p,
                            le_value(p.subrange(0, 8)) as u64,
                            now_ms,
                            tick_length_ms,
                            post.jitter@,
                            a,
                        ) && ev == seq![arrival_event(a)];
                    assert(route_spec(dp, c, q->Some_0, payload, now_ms, tick_length_ms, dq, ev));
                } else if c == CHANNEL_MESSAGE {
                    let out = choose|out: Seq<(u64, Vec<u8>)>|
                        receive_step(pre.messages@, q->Some_0, payload, post.messages@, out) && ev
                            == message_events(out);
                    assert(route_spec(dp, c, q->Some_0, payload, now_ms, tick_length_ms, dq, ev));
                } else {
                    assert(route_spec(dp, c, q->Some_0, payload, now_ms, tick_length_ms, dq, ev));
                }
            }
        },
    }
}

/// The payloads of released messages.
pub open spec fn payload_views(s: Seq<(u64, Vec<u8>)>) -> Seq<Seq<u8>> {
    s.map_values(|d: (u64, Vec<u8>)| d.1@)
}

/// The lifecycle only moves forward: once connected, no packet (a late
/// identity or initial-sync one included) takes a connection back, and a
/// disconnected one stays disconnected.
pub proof fn lemma_lifecycle_moves_forward(channel: u16, len: nat)
    ensures
        next_state(ClientState::Connected, channel, len) == ClientState::Connected,
        next_state(ClientState::Disconnected, channel, len) == ClientState::Disconnected,
        next_state(ClientState::InitialSync, channel, len) != ClientState::AwaitingID,
{
}

/// Datagrams that carry `payload` on `channel` as `send` frames it: one
/// datagram with the channel's header, or, over the split threshold, the
/// fragment-channel datagrams of the whole datagram's fragments.
pub open spec fn frames(channel: u16, payload: Seq<u8>, ds: Seq<Seq<u8>>, now_ms: u64) -> bool {
    if !crate::fragment::needs_split_spec(payload.len(), PACKET_SPLIT_THRESHOLD as nat) {
        exists|q: Option<u64>| ds == seq![header_bytes(channel, q) + payload]
    } else {
        exists|q: Option<u64>, counters: Seq<u64>|
            ds == fragment_framing(
                counters,
                crate::fragment::fragments_spec(
                    header_bytes(channel, q) + payload,
                    PACKET_SPLIT_THRESHOLD as nat,
                ),
                now_ms,
            ).0
    }
}

/// The channel a planned packet goes out on.
pub open spec fn planned_channel(p: Planned) -> u16 {
    match p {
        Planned::Identity => CHANNEL_CLIENT_ID,
        Planned::Acks(_) => CHANNEL_ACK,
        Planned::Message(_) => CHANNEL_MESSAGE,
        Planned::Sync(_, _) => CHANNEL_SYNC,
        Planned::State(_) => CHANNEL_STATE,
    }
}

/// The payload of a planned packet: the assigned identity as 8 bytes; a
/// backlog message; or a send stamp (zero for the initial sync) followed by
/// the listed entity records, packed into bytes. Acks are framed from what
/// is owed when they go out.
pub open spec fn planned_payload(
    p: Planned,
    records: Seq<Bits>,
    messages: Seq<Bits>,
    assigned_id: u16,
    now_ms: u64,
) -> Seq<u8> {
    match p {
        Planned::Identity => crate::wire::le_bytes(assigned_id as nat, 8),
        Planned::Message(i) => crate::bits::pack_bits(messages[i as int]@),
        Planned::Sync(a, b) => crate::bits::pack_bits(
            crate::bits::nat_to_bits(0, 64) + joined_records(records, index_seq(a, b)),
        ),
        Planned::State(list) => crate::bits::pack_bits(
            crate::bits::nat_to_bits(now_ms as nat, 64) + joined_records(records, list@),
        ),
        Planned::Acks(_) => Seq::empty(),
    }
}

/// Framing the payloads of a fragmented datagram, in turn, from channel
/// counters `counters`: the datagrams on the fragment channel, the counters
/// after, and the records kept until each is acknowledged.
pub open spec fn fragment_framing(counters: Seq<u64>, frags: Seq<Seq<u8>>, now_ms: u64) -> (
    Seq<Seq<u8>>,
    Seq<u64>,
    Seq<crate::reliability::UnackedModel>,
)
    decreases frags.len(),
{
    if frags.len() == 0 {
        (Seq::empty(), counters, Seq::empty())
    } else {
        let (ds, cs, recs) = fragment_framing(counters, frags.drop_last(), now_ms);
        let (q, cs2) = numbering(cs, CHANNEL_FRAGMENT);
        let d = header_bytes(CHANNEL_FRAGMENT, q) + frags.last();
        (
            ds.push(d),
            cs2,
            match q {
                Some(n) => recs.push(
                    crate::reliability::UnackedModel {
                        channel: CHANNEL_FRAGMENT,
                        sequence: n,
                        bytes: d,
                        sent_at: now_ms,
                    },
                ),
                None => recs,
            },
        )
    }
}

/// The connection to one peer.
pub struct Connection {
    pub state: ClientState,
    /// The identity the peer assigned to us (on a client).
    pub id: u16,
    pub reliability: Reliability,
    pub fragments: OrderedInbox,
    pub reassembler: Reassembler,
    pub messages: OrderedInbox,
    pub jitter: JitterBuffer,
    /// The initial-sync packets already taken, by sequence number.
    pub sync_seen: Vec<u64>,
}

impl Connection {
    pub open spec fn wf(&self) -> bool {
        &&& reliability_wf(self.reliability@)
        &&& inbox_wf(self.fragments@)
        &&& inbox_wf(self.messages@)
        &&& jitter_wf(self.jitter@)
    }

    /// A client's connection to its server, waiting for an identity.
    pub fn new_client() -> (r: Connection)
        ensures
            r.wf(),
            r.state == ClientState::AwaitingID,
    {
        Connection {
            state: ClientState::AwaitingID,
            id: 0,
            reliability: Reliability::new(),
            fragments: OrderedInbox::new(),
            reassembler: Reassembler::new(),
            messages: OrderedInbox::new(),
            jitter: JitterBuffer::new(),
            sync_seen: Vec::new(),
        }
    }

    /// A server's connection to a client; a server needs no identity or
    /// initial sync, so it starts connected.
    pub fn new_server_side() -> (r: Connection)
        ensures
            r.wf(),
            r.state == ClientState::Connected,
    {
        Connection {
            state: ClientState::Connected,
            id: 0,
            reliability: Reliability::new(),
            fragments: OrderedInbox::new(),
            reassembler: Reassembler::new(),
            messages: OrderedInbox::new(),
            jitter: JitterBuffer::new(),
            sync_seen: Vec::new(),
        }
    }

    /// The transport reported the peer gone: processing stops and the
    /// buffers are released.
    pub fn disconnect(&mut self)
        ensures
            final(self).wf(),
            final(self).state == ClientState::Disconnected,
    {
        self.state = ClientState::Disconnected;
        self.fragments = OrderedInbox::new();
        self.reassembler = Reassembler::new();
        self.messages = OrderedInbox::new();
        self.jitter = JitterBuffer::new();
        self.sync_seen = Vec::new();
        self.reliability = Reliability::new();
    }

    /// Handles the payload of a non-ack packet on `channel`, as the state
    /// allows, and moves the state as `next_state` says.
    fn route(
        &mut self,
        channel: u16,
        sequence: u64,
        payload: Vec<u8>,
        now_ms: u64,
        tick_length_ms: u32,
        out: &mut Vec<Inbound>,
    )
        requires
            old(self).wf(),
            old(self).state != ClientState::Disconnected,
        ensures
            final(self).wf(),
            final(self).state == next_state(old(self).state, channel, payload@.len()),
            final(self).reliability@ == old(self).reliability@,
            final(out)@.len() >= old(out)@.len(),
            final(out)@.subrange(0, old(out)@.len() as int) == old(out)@,
            route_spec(
                *old(self),
                channel,
                sequence,
                payload,
                now_ms,
                tick_length_ms,
                *final(self),
                final(out)@.subrange(old(out)@.len() as int, final(out)@.len() as int),
            ),
    {
        let ghost before = out@;
        if channel == CHANNEL_STATE {
            if self.state == ClientState::AwaitingID {
                out.push(Inbound::Ignored);
                proof {
                    lemma_pushed(before, out@.last());
                }
                return ;
            }
            self.state = ClientState::Connected;
            if payload.len() < 8 {
                out.push(Inbound::Malformed);
                proof {
                    lemma_pushed(before, out@.last());
                }
                return ;
            }
            let send_time = read_le(&payload, 0, 8);
            let a = self.jitter.receive(payload, send_time, now_ms, tick_length_ms);
            let e = match a {
                Arrival::Stale => Inbound::Stale,
                Arrival::Accepted(_) => Inbound::StateBuffered,
                Arrival::Missed => Inbound::JitterMiss,
            };
            out.push(e);
            proof {
                lemma_pushed(before, out@.last());
                assert(e == arrival_event(a));
            }
        } else if channel == CHANNEL_SYNC {
            if self.state == ClientState::InitialSync {
                let mut seen = false;
                let mut i: usize = 0;
                while i < self.sync_seen.len()
                    invariant
                        i <= self.sync_seen@.len(),
                        out@ == before,
                        seen == exists|j: int| 0 <= j < i && self.sync_seen@[j] == sequence,
                    decreases self.sync_seen@.len() - i,
                {
                    if self.sync_seen[i] == sequence {
                        seen = true;
                    }
                    i = i + 1;
                }
                if seen {
                    out.push(Inbound::Ignored);
                    proof {
                        lemma_pushed(before, out@.last());
                    }
                } else {
                    assert(!self.sync_seen@.contains(sequence));
                    self.sync_seen.push(sequence);
                    self.jitter.push_current(payload);
                    out.push(Inbound::SyncBuffered);
                    proof {
                        lemma_pushed(before, out@.last());
                    }
                }
            } else {
                if self.state == ClientState::Connected {
                    self.sync_seen = Vec::new();
                }
                out.push(Inbound::Ignored);
                proof {
                    lemma_pushed(before, out@.last());
                }
            }
        } else if channel == CHANNEL_MESSAGE {
            let ghost pv = payload;
            let delivered = self.messages.receive(sequence, payload);
            let ghost all = delivered@;
            let n = delivered.len();
            let mut rest = delivered;
            let mut k: usize = 0;
            assert(all.subrange(0, 0) =~= Seq::<(u64, Vec<u8>)>::empty());
            assert(out@ =~= before + message_events(all.subrange(0, 0)));
            while rest.len() > 0
                invariant
                    self.wf(),
                    *self == (Connection { messages: self.messages, ..*old(self) }),
                    receive_step(old(self).messages@, sequence, pv, self.messages@, all),
                    before == old(out)@,
                    k <= all.len() == n,
                    rest@.len() + k == n,
                    rest@ == all.subrange(k as int, all.len() as int),
                    out@ == before + message_events(all.subrange(0, k as int)),
                decreases rest@.len(),
            {
                let (q, m) = rest.remove(0);
                out.push(Inbound::Message(q, m));
                k = k + 1;
                assert(out@ =~= before + message_events(all.subrange(0, k as int)));
                assert(rest@ =~= all.subrange(k as int, all.len() as int));
            }
            assert(all.subrange(0, k as int) =~= all);
            assert(out@.subrange(0, before.len() as int) =~= before);
            assert(out@.subrange(before.len() as int, out@.len() as int) =~= message_events(all));
        } else if channel == CHANNEL_VOICE {
            out.push(Inbound::Voice(sequence, payload));
            proof {
                lemma_pushed(before, out@.last());
            }
        } else if channel == CHANNEL_CLIENT_ID {
            if payload.len() < 8 {
                out.push(Inbound::Malformed);
                proof {
                    lemma_pushed(before, out@.last());
                }
                return ;
            }
            if self.state == ClientState::Connected {
                out.push(Inbound::Ignored);
                proof {
                    lemma_pushed(before, out@.last());
                }
                return ;
            }
            let id = read_le(&payload, 0, 8);
            self.id = (id % 0x1_0000) as u16;
            self.state = ClientState::InitialSync;
            out.push(Inbound::Identity(self.id));
            proof {
                lemma_pushed(before, out@.last());
            }
        } else {
            out.push(Inbound::UnknownChannel(channel));
            proof {
                lemma_pushed(before, out@.last());
            }
        }
    }

    /// Applies each acknowledgement of an ack payload, in turn.
    fn acknowledge_all(&mut self, payload: &Vec<u8>)
        requires
            old(self).wf(),
        ensures
            final(self).wf(),
            final(self).reliability@ == (crate::reliability::ReliabilityModel {
                unacked: after_acks(
                    old(self).reliability@.unacked,
                    crate::wire::parse_acks(payload@),
                ),
                ..old(self).reliability@
            }),
            *final(self) == (Connection { reliability: final(self).reliability, ..*old(self) }),
    {
        let acks = decode_acks(payload);
        let mut i: usize = 0;
        assert(acks@.subrange(0, 0) =~= Seq::<(u16, u64)>::empty());
        while i < acks.len()
            invariant
                self.wf(),
                i <= acks@.len(),
                self.reliability@ == (crate::reliability::ReliabilityModel {
                    unacked: after_acks(old(self).reliability@.unacked, acks@.subrange(0, i as int)),
                    ..old(self).reliability@
                }),
                *self == (Connection { reliability: self.reliability, ..*old(self) }),
            decreases acks@.len() - i,
        {
            let (c, q) = acks[i];
            self.reliability.acknowledge(c, q);
            assert(acks@.subrange(0, i + 1).drop_last() =~= acks@.subrange(0, i as int));
            i = i + 1;
        }
        assert(acks@.subrange(0, acks@.len() as int) =~= acks@);
    }

    /// Handles a datagram put back together from fragments.
    fn handle_reassembled(
        &mut self,
        whole: Vec<u8>,
        now_ms: u64,
        tick_length_ms: u32,
        out: &mut Vec<Inbound>,
    )
        requires
            old(self).wf(),
            old(self).state != ClientState::Disconnected,
        ensures
            final(self).wf(),
            final(self).state != ClientState::Disconnected,
            final(self).fragments == old(self).fragments,
            final(self).reassembler == old(self).reassembler,
            final(self).reliability@.pending_acks == old(self).reliability@.pending_acks,
            final(out)@.len() >= old(out)@.len(),
            final(out)@.subrange(0, old(out)@.len() as int) == old(out)@,
            reassembled_spec(
                *old(self),
                whole@,
                now_ms,
                tick_length_ms,
                *final(self),
                final(out)@.subrange(old(out)@.len() as int, final(out)@.len() as int),
            ),
    {
        let ghost before = out@;
        match decode_datagram(&whole) {
            Err(_) => {
                out.push(Inbound::Malformed);
                proof {
                    lemma_pushed(before, out@.last());
                }
            },
            Ok(d) => {
                if d.channel == CHANNEL_ACK {
                    self.acknowledge_all(&d.payload);
                    assert(out@.subrange(0, before.len() as int) =~= before);
                    assert(out@.subrange(before.len() as int, out@.len() as int) =~= Seq::<
                        Inbound,
                    >::empty());
                } else if d.channel == CHANNEL_FRAGMENT {
                    out.push(Inbound::UnknownChannel(d.channel));
                    proof {
                        lemma_pushed(before, out@.last());
                    }
                } else {
                    match d.sequence {
                        Some(q) => {
                            let ghost pv = d.payload;
                            self.route(d.channel, q, d.payload, now_ms, tick_length_ms, out);
                            assert(pv@ == d@.2);
                        },
                        None => {
                            out.push(Inbound::Malformed);
                            proof {
                                lemma_pushed(before, out@.last());
                            }
                        },
                    }
                }
            },
        }
    }

    /// Handles one datagram from the peer, at `now_ms`. Nothing is done
    /// once disconnected. A datagram shorter than its header is dropped as
    /// malformed. An ack datagram drops the acknowledged packets. Any other
    /// is noted for acknowledgement, then either fed to reassembly (the
    /// fragment channel, in sequence order) or routed to its channel.
    pub fn receive_datagram(&mut self, bytes: Vec<u8>, now_ms: u64, tick_length_ms: u32) -> (r: Vec<
        Inbound,
    >)
        requires
            old(self).wf(),
        ensures
            final(self).wf(),
            old(self).state == ClientState::Disconnected ==> *final(self) == *old(self) && r@.len()
                == 0,
            old(self).state != ClientState::Disconnected ==> match parse_datagram(bytes@) {
                Err(_) => r@ == seq![Inbound::Malformed] && *final(self) == *old(self),
                Ok((c, q, p)) => if c == CHANNEL_ACK {
                    &&& r@.len() == 0
                    &&& final(self).reliability@ == (crate::reliability::ReliabilityModel {
                        unacked: after_acks(
                            old(self).reliability@.unacked,
                            crate::wire::parse_acks(p),
                        ),
                        ..old(self).reliability@
                    })
                    &&& *final(self) == (Connection {
                        reliability: final(self).reliability,
                        ..*old(self)
                    })
                } else if c == CHANNEL_FRAGMENT {
                    &&& final(self).state != ClientState::Disconnected
                    &&& final(self).reliability@.pending_acks == noted(
                        old(self).reliability@,
                        c,
                        q->Some_0,
                    ).pending_acks
                    &&& exists|m: Vec<u8>, out: Seq<(u64, Vec<u8>)>, mid: Connection|
                        m@ == p && receive_step(
                            old(self).fragments@,
                            q->Some_0,
                            m,
                            final(self).fragments@,
                            out,
                        ) && final(self).reassembler@ == crate::fragment::feed(
                            old(self).reassembler@,
                            payload_views(out),
                        ).0 && mid == (Connection {
                            reliability: mid.reliability,
                            fragments: final(self).fragments,
                            ..*old(self)
                        }) && mid.reliability@ == noted(old(self).reliability@, c, q->Some_0)
                            && handled_in_turn(
                            mid,
                            completed(
                                crate::fragment::feed(
                                    old(self).reassembler@,
                                    payload_views(out),
                                ).1,
                            ),
                            now_ms,
                            tick_length_ms,
                            with_reassembler(*final(self), old(self).reassembler),
                            r@,
                        )
                } else {
                    &&& final(self).state == next_state(old(self).state, c, p.len())
                    &&& exists|mid: Connection, payload: Vec<u8>|
                        payload@ == p && mid == (Connection {
                            reliability: mid.reliability,
                            ..*old(self)
                        }) && mid.reliability@ == noted(old(self).reliability@, c, q->Some_0)
                            && route_spec(
                            mid,
                            c,
                            q->Some_0,
                            payload,
                            now_ms,
                            tick_length_ms,
                            *final(self),
                            r@,
                        )
                },
            },
    {
        let mut out: Vec<Inbound> = Vec::new();
        if self.state == ClientState::Disconnected {
            return out;
        }
        match decode_datagram(&bytes) {
            Err(_) => {
                out.push(Inbound::Malformed);
            },
            Ok(d) => {
                if d.channel == CHANNEL_ACK {
                    self.acknowledge_all(&d.payload);
                    return out;
                }
                let q = match d.sequence {
                    Some(q) => q,
                    None => {
                        out.push(Inbound::Malformed);
                        return out;
                    },
                };
                let ghost pv = d.payload;
                self.reliability.note_received(d.channel, q);
                let ghost mid = *self;
                if d.channel == CHANNEL_FRAGMENT {
                    let delivered = self.fragments.receive(q, d.payload);
                    let ghost all = delivered@;
                    let ghost frag_after = self.fragments;
                    let ghost pending = self.reliability@.pending_acks;
                    let n = delivered.len();
                    let mut rest = delivered;
                    let mut k: usize = 0;
                    let ghost p0 = *self;
                    assert(payload_views(all.subrange(0, 0)) =~= Seq::<Seq<u8>>::empty());
                    assert(with_reassembler(*self, p0.reassembler) == p0);
                    assert(completed(Seq::<Option<Seq<u8>>>::empty()) =~= Seq::<Seq<u8>>::empty());
                    while rest.len() > 0
                        invariant
                            p0.reassembler == mid.reassembler,
                            handled_in_turn(
                                p0,
                                completed(
                                    crate::fragment::feed(
                                        mid.reassembler@,
                                        payload_views(all.subrange(0, k as int)),
                                    ).1,
                                ),
                                now_ms,
                                tick_length_ms,
                                with_reassembler(*self, p0.reassembler),
                                out@,
                            ),
                            self.wf(),
                            self.state != ClientState::Disconnected,
                            self.fragments == frag_after,
                            self.reliability@.pending_acks == pending,
                            k <= all.len() == n,
                            rest@.len() + k == n,
                            rest@ == all.subrange(k as int, all.len() as int),
                            self.reassembler@ == crate::fragment::feed(
                                mid.reassembler@,
                                payload_views(all.subrange(0, k as int)),
                            ).0,
                        decreases rest@.len(),
                    {
                        let (_, piece) = rest.remove(0);
                        let ghost pre_r = self.reassembler@;
                        proof {
                            crate::fragment::lemma_feed_push(
                                mid.reassembler@,
                                payload_views(all.subrange(0, k as int)),
                                piece@,
                            );
                            assert(payload_views(all.subrange(0, k as int)).push(piece@)
                                =~= payload_views(all.subrange(0, k + 1)));
                        }
                        let ghost prev_self = *self;
                        let ghost prev_out = out@;
                        let ghost prev_wholes = completed(
                            crate::fragment::feed(
                                mid.reassembler@,
                                payload_views(all.subrange(0, k as int)),
                            ).1,
                        );
                        let ghost os = crate::fragment::feed(
                            mid.reassembler@,
                            payload_views(all.subrange(0, k as int)),
                        ).1;
                        match self.reassembler.accept(piece) {
                            Some(whole) => {
                                let ghost s1 = *self;
                                assert(with_reassembler(s1, p0.reassembler) == with_reassembler(
                                    prev_self,
                                    p0.reassembler,
                                ));
                                self.handle_reassembled(whole, now_ms, tick_length_ms, &mut out);
                                proof {
                                    let e2 = out@.subrange(prev_out.len() as int, out@.len() as int);
                                    lemma_reassembled_detach(
                                        s1,
                                        whole@,
                                        now_ms,
                                        tick_length_ms,
                                        *self,
                                        e2,
                                        p0.reassembler,
                                    );
                                    assert(out@ =~= prev_out + e2);
                                    assert(os.push(Some(whole@)).drop_last() =~= os);
                                    let ws = completed(os.push(Some(whole@)));
                                    assert(ws == prev_wholes + seq![whole@]);
                                    assert(ws.drop_last() =~= prev_wholes);
                                    assert(ws.last() == whole@);
                                }
                            },
                            None => {
                                proof {
                                    assert(os.push(None).drop_last() =~= os);
                                    assert(completed(os.push(None)) == prev_wholes + Seq::<
                                        Seq<u8>,
                                    >::empty());
                                    assert(completed(os.push(None)) =~= prev_wholes);
                                    assert(with_reassembler(*self, p0.reassembler)
                                        == with_reassembler(prev_self, p0.reassembler));
                                }
                            },
                        }
                        k = k + 1;
                        assert(rest@ =~= all.subrange(k as int, all.len() as int));
                    }
                    assert(all.subrange(0, k as int) =~= all);
                } else {
                    self.route(d.channel, q, d.payload, now_ms, tick_length_ms, &mut out);
                    assert(out@.subrange(0, out@.len() as int) =~= out@);
                    assert(pv@ == d@.2);
                }
            },
        }
        out
    }

    /// Frames a payload for `channel` at `now_ms` and returns the datagrams
    /// to transmit. The packet takes the channel's next sequence number. A
    /// datagram over the split threshold goes out as fragments on the
    /// fragment channel: a chunk count, then the chunks. Reliable datagrams
    /// are kept until acknowledged.
    pub fn send(&mut self, channel: u16, payload: &Vec<u8>, now_ms: u64) -> (r: Vec<Vec<u8>>)
        requires
            old(self).wf(),
        ensures
            final(self).wf(),
            final(self).state == old(self).state,
            r@.len() >= 1,
            ({
                let (q, counters) = numbering(old(self).reliability@.counters, channel);
                let whole = header_bytes(channel, q) + payload@;
                if !crate::fragment::needs_split_spec(
                    payload@.len(),
                    PACKET_SPLIT_THRESHOLD as nat,
                ) {
                    &&& views(r@) == seq![whole]
                    &&& final(self).reliability@.counters == counters
                    &&& final(self).reliability@.unacked == if is_reliable(channel) && q is Some {
                        old(self).reliability@.unacked.push(
                            crate::reliability::UnackedModel {
                                channel,
                                sequence: q->Some_0,
                                bytes: whole,
                                sent_at: now_ms,
                            },
                        )
                    } else {
                        old(self).reliability@.unacked
                    }
                } else {
                    let (ds, cs, recs) = fragment_framing(
                        counters,
                        crate::fragment::fragments_spec(whole, PACKET_SPLIT_THRESHOLD as nat),
                        now_ms,
                    );
                    &&& views(r@) == ds
                    &&& final(self).reliability@.counters == cs
                    &&& final(self).reliability@.unacked == old(self).reliability@.unacked + recs
                }
            }),
            final(self).reliability@.pending_acks == old(self).reliability@.pending_acks,
            *final(self) == (Connection { reliability: final(self).reliability, ..*old(self) }),
            frames(channel, payload@, views(r@), now_ms),
    {
        let q = self.reliability.number(channel);
        let datagram = encode_datagram(channel, q, payload);
        let mut r: Vec<Vec<u8>> = Vec::new();
        if !needs_split(payload.len(), PACKET_SPLIT_THRESHOLD) {
            if channel == CHANNEL_SYNC || channel == CHANNEL_MESSAGE || channel == CHANNEL_FRAGMENT
                || channel == CHANNEL_CLIENT_ID {
                match q {
                    Some(s) => {
                        self.reliability.record(
                            channel,
                            s,
                            crate::reliability::copy_bytes(&datagram),
                            now_ms,
                        );
                    },
                    None => {},
                }
            }
            r.push(datagram);
            assert(views(r@) =~= seq![datagram@]);
            assert(views(r@) == seq![header_bytes(channel, q) + payload@]);
            return r;
        }
        let pieces = fragment(&datagram, PACKET_SPLIT_THRESHOLD);
        let ghost frags = views(pieces@);
        let ghost counters1 = self.reliability@.counters;
        let ghost pre = *old(self);
        let mut i: usize = 0;
        proof {
            assert(frags.subrange(0, 0) =~= Seq::<Seq<u8>>::empty());
            assert(pre.reliability@.unacked + Seq::<crate::reliability::UnackedModel>::empty()
                =~= pre.reliability@.unacked);
            assert(views(r@) =~= Seq::<Seq<u8>>::empty());
        }
        while i < pieces.len()
            invariant
                self.wf(),
                *self == (Connection { reliability: self.reliability, ..pre }),
                pre == *old(self),
                frags == views(pieces@),
                i <= pieces@.len(),
                self.reliability@.pending_acks == pre.reliability@.pending_acks,
                ({
                    let (ds, cs, recs) = fragment_framing(
                        counters1,
                        frags.subrange(0, i as int),
                        now_ms,
                    );
                    &&& views(r@) == ds
                    &&& self.reliability@.counters == cs
                    &&& self.reliability@.unacked == pre.reliability@.unacked + recs
                }),
            decreases pieces@.len() - i,
        {
            let ghost prev_r = views(r@);
            let ghost prev_unacked = self.reliability@.unacked;
            let fq = self.reliability.number(CHANNEL_FRAGMENT);
            let d = encode_datagram(CHANNEL_FRAGMENT, fq, &pieces[i]);
            match fq {
                Some(n) => {
                    self.reliability.record(
                        CHANNEL_FRAGMENT,
                        n,
                        crate::reliability::copy_bytes(&d),
                        now_ms,
                    );
                },
                None => {},
            }
            r.push(d);
            proof {
                assert(frags.subrange(0, i + 1).drop_last() =~= frags.subrange(0, i as int));
                assert(frags.subrange(0, i + 1).last() == frags[i as int]);
                assert(views(r@) =~= prev_r.push(d@));
                let (ds, cs, recs) = fragment_framing(counters1, frags.subrange(0, i as int), now_ms);
                match fq {
                    Some(n) => {
                        assert(pre.reliability@.unacked + recs.push(
                            crate::reliability::UnackedModel {
                                channel: CHANNEL_FRAGMENT,
                                sequence: n,
                                bytes: d@,
                                sent_at: now_ms,
                            },
                        ) =~= prev_unacked.push(
                            crate::reliability::UnackedModel {
                                channel: CHANNEL_FRAGMENT,
                                sequence: n,
                                bytes: d@,
                                sent_at: now_ms,
                            },
                        ));
                    },
                    None => {},
                }
            }
            i = i + 1;
        }
        assert(frags.subrange(0, i as int) =~= frags);
        assert(frags == crate::fragment::fragments_spec(
            datagram@,
            PACKET_SPLIT_THRESHOLD as nat,
        ));
        assert(views(r@) == fragment_framing(counters1, frags, now_ms).0);
        r
    }

    /// The datagrams due for retransmission at `now_ms`, by the smoothed
    /// latency of the live-state channel.
    pub fn poll_retransmissions(&mut self, now_ms: u64) -> (r: Vec<Vec<u8>>)
        requires
            old(self).wf(),
        ensures
            final(self).wf(),
            final(self).state == old(self).state,
            views(r@) == crate::reliability::due_entries(
                old(self).reliability@.unacked,
                now_ms,
                old(self).jitter@.smoothed,
            ).map_values(|e: crate::reliability::UnackedModel| e.bytes),
            final(self).reliability@.unacked == old(self).reliability@.unacked.map_values(
                |e: crate::reliability::UnackedModel|
                    crate::reliability::refreshed(e, now_ms, old(self).jitter@.smoothed),
            ),
            final(self).reliability@.counters == old(self).reliability@.counters,
            final(self).reliability@.pending_acks == old(self).reliability@.pending_acks,
            *final(self) == (Connection { reliability: final(self).reliability, ..*old(self) }),
    {
        let latency = self.jitter.smoothed_latency();
        self.reliability.retransmissions(now_ms, latency)
    }

    /// The payload of an ack datagram carrying the `n` oldest owed
    /// acknowledgements, which are then no longer owed.
    pub fn take_ack_payload(&mut self, n: usize) -> (r: Vec<u8>)
        requires
            old(self).wf(),
            n <= old(self).reliability@.pending_acks.len(),
        ensures
            final(self).wf(),
            final(self).state == old(self).state,
            r@ == crate::wire::ack_bytes(old(self).reliability@.pending_acks.subrange(0, n as int)),
    {
        let acks = self.reliability.take_acks(n);
        crate::wire::encode_acks(&acks)
    }

    /// Ends a tick: closes the jitter statistics, then drains the oldest
    /// bucket and returns the state payloads it held, oldest first.
    pub fn end_tick(&mut self) -> (r: Vec<Vec<u8>>)
        requires
            old(self).wf(),
        ensures
            final(self).wf(),
            views(r@) == old(self).jitter@.buckets[0],
            final(self).jitter@ == crate::jitter::after_drain(
                crate::jitter::after_end_tick(old(self).jitter@),
            ),
            *final(self) == (Connection { jitter: final(self).jitter, ..*old(self) }),
    {
        self.jitter.end_tick();
        self.jitter.drain_oldest()
    }

    /// Carries out a tick's plan: frames each planned packet and returns,
    /// for each, the datagrams to transmit. `records` holds each entity's
    /// current state record and `messages` the message backlog, as the plan
    /// indexes them. A planned packet that names something missing, or acks
    /// no longer owed, yields no datagram.
    pub fn transmit_plan(
        &mut self,
        plan: &Vec<PlannedPacket>,
        records: &Vec<Bits>,
        messages: &Vec<Bits>,
        assigned_id: u16,
        now_ms: u64,
    ) -> (r: Vec<Vec<Vec<u8>>>)
        requires
            old(self).wf(),
        ensures
            final(self).wf(),
            final(self).state == old(self).state,
            r@.len() == plan@.len(),
            forall|k: int|
                0 <= k < plan@.len() && carried(#[trigger] plan@[k].kind, records@, messages@.len())
                    ==> r@[k]@.len() >= 1 && frames(
                    planned_channel(plan@[k].kind),
                    planned_payload(plan@[k].kind, records@, messages@, assigned_id, now_ms),
                    views(r@[k]@),
                    now_ms,
                ),
    {
        let mut out: Vec<Vec<Vec<u8>>> = Vec::new();
        let mut k: usize = 0;
        while k < plan.len()
            invariant
                self.wf(),
                self.state == old(self).state,
                k <= plan@.len(),
                out@.len() == k,
                forall|j: int|
                    0 <= j < k && carried(#[trigger] plan@[j].kind, records@, messages@.len())
                        ==> out@[j]@.len() >= 1 && frames(
                        planned_channel(plan@[j].kind),
                        planned_payload(plan@[j].kind, records@, messages@, assigned_id, now_ms),
                        views(out@[j]@),
                        now_ms,
                    ),
            decreases plan@.len() - k,
        {
            let sent: Vec<Vec<u8>> = match &plan[k].kind {
                Planned::Identity => {
                    let mut payload: Vec<u8> = Vec::new();
                    crate::wire::write_le(&mut payload, assigned_id as u64, 8);
                    self.send(CHANNEL_CLIENT_ID, &payload, now_ms)
                },
                Planned::Acks(n) => {
                    if *n <= self.reliability.pending_ack_count() {
                        let payload = self.take_ack_payload(*n);
                        self.send(CHANNEL_ACK, &payload, now_ms)
                    } else {
                        Vec::new()
                    }
                },
                Planned::Message(i) => {
                    if *i < messages.len() {
                        let payload = crate::bits::to_bytes(&messages[*i]);
                        self.send(CHANNEL_MESSAGE, &payload, now_ms)
                    } else {
                        Vec::new()
                    }
                },
                Planned::Sync(a, b) => {
                    let order = index_range(*a, *b);
                    if *a < *b && records_fit(records, &order) {
                        let payload = build_state_payload(0, records, &order);
                        self.send(CHANNEL_SYNC, &payload, now_ms)
                    } else {
                        Vec::new()
                    }
                },
                Planned::State(list) => {
                    if records_fit(records, list) {
                        let payload = build_state_payload(now_ms, records, list);
                        self.send(CHANNEL_STATE, &payload, now_ms)
                    } else {
                        Vec::new()
                    }
                },
            };
            out.push(sent);
            k = k + 1;
        }
        out
    }
}

/// The numbers `a`, `a + 1`, ..., up to but not including `b`.
pub open spec fn index_seq(a: usize, b: usize) -> Seq<usize> {
    Seq::new((b - a) as nat, |i: int| (a + i) as usize)
}

/// Whether the listed records exist and fit after the stamp.
pub open spec fn records_fit_spec(records: Seq<Bits>, order: Seq<usize>) -> bool {
    &&& forall|k: int| 0 <= k < order.len() ==> #[trigger] order[k] < records.len()
    &&& 64 + joined_records(records, order).len() <= MAX_BITS
}

/// A planned packet that can be carried out whatever the acks owed.
pub open spec fn carried(p: Planned, records: Seq<Bits>, message_count: nat) -> bool {
    match p {
        Planned::Identity => true,
        Planned::Message(i) => i < message_count,
        Planned::State(list) => records_fit_spec(records, list@),
        Planned::Sync(a, b) => a < b && records_fit_spec(records, index_seq(a, b)),
        Planned::Acks(_) => false,
    }
}

fn index_range(a: usize, b: usize) -> (r: Vec<usize>)
    ensures
        a < b ==> r@ == index_seq(a, b),
{
    let mut r: Vec<usize> = Vec::new();
    if a >= b {
        return r;
    }
    let mut j: usize = a;
    while j < b
        invariant
            a <= j <= b,
            r@ == index_seq(a, j),
        decreases b - j,
    {
        r.push(j);
        j = j + 1;
        assert(r@ =~= index_seq(a, j));
    }
    r
}

/// Whether the listed records exist and fit in one buffer after the stamp.
fn records_fit(records: &Vec<Bits>, order: &Vec<usize>) -> (r: bool)
    ensures
        r == records_fit_spec(records@, order@),
{
    let mut total: u128 = 64;
    let mut k: usize = 0;
    assert(order@.subrange(0, 0) =~= Seq::<usize>::empty());
    while k < order.len()
        invariant
            k <= order@.len(),
            forall|j: int| 0 <= j < k ==> #[trigger] order@[j] < records@.len(),
            total == 64 + joined_records(records@, order@.subrange(0, k as int)).len(),
            total <= MAX_BITS,
        decreases order@.len() - k,
    {
        if order[k] >= records.len() {
            return false;
        }
        let n = records[order[k]].len();
        assert(order@.subrange(0, k + 1).drop_last() =~= order@.subrange(0, k as int));
        if n as u128 > MAX_BITS as u128 - total {
            proof {
                crate::entity::lemma_joined_prefix(records@, order@, k + 1);
            }
            return false;
        }
        total = total + n as u128;
        k = k + 1;
    }
    assert(order@.subrange(0, order@.len() as int) =~= order@);
    true
}

} // verus!
