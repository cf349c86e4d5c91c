//! Reliability: outbound sequence numbers, the packets sent reliably and
//! not yet acknowledged, their retransmission, and the acknowledgements
//! owed to the peer.
use crate::jitter::latency_of;
use crate::wire::{
    CHANNEL_ACK, CHANNEL_CLIENT_ID, CHANNEL_FRAGMENT, CHANNEL_MESSAGE, CHANNEL_SYNC, CHANNEL_VOICE,
};
use vstd::prelude::*;

verus! {

/// Added to the smoothed latency before it is tripled into the
/// retransmission timeout, in milliseconds.
pub const RESEND_SLACK_MS: u64 = 32;

/// Whether packets on `channel` are retransmitted until acknowledged.
pub open spec fn is_reliable(channel: u16) -> bool {
    channel == CHANNEL_SYNC || channel == CHANNEL_MESSAGE || channel == CHANNEL_FRAGMENT
        || channel == CHANNEL_CLIENT_ID
}

/// Whether `channel` numbers its packets from its own counter.
pub open spec fn is_counted(channel: u16) -> bool {
    1 <= channel <= CHANNEL_VOICE
}

/// A copy of a byte buffer.
pub fn copy_bytes(v: &Vec<u8>) -> (r: Vec<u8>)
    ensures
        r@ == v@,
{
    let r = v.clone();
    assert(r@ =~= v@);
    r
}

/// A packet sent reliably and not yet acknowledged.
pub struct Unacked {
    pub channel: u16,
    pub sequence: u64,
    /// The whole datagram, resent verbatim.
    pub bytes: Vec<u8>,
    /// When it was last sent, in milliseconds.
    pub sent_at: u64,
}

/// The model of an unacknowledged packet.
pub struct UnackedModel {
    pub channel: u16,
    pub sequence: u64,
    pub bytes: Seq<u8>,
    pub sent_at: u64,
}

impl View for Unacked {
    type V = UnackedModel;

    open spec fn view(&self) -> UnackedModel {
        UnackedModel {
            channel: self.channel,
            sequence: self.sequence,
            bytes: self.bytes@,
            sent_at: self.sent_at,
        }
    }
}

/// The retransmission timeout for a smoothed latency, in milliseconds.
pub open spec fn resend_timeout(latency: u64) -> nat {
    3 * (latency + RESEND_SLACK_MS) as nat
}

/// Whether a packet last sent at `sent_at` is due again at `now`.
pub open spec fn timed_out(e: UnackedModel, now: u64, latency: u64) -> bool {
    latency_of(e.sent_at, now) > resend_timeout(latency)
}

/// A packet after a poll at `now`: its send time is renewed when it timed out.
pub open spec fn refreshed(e: UnackedModel, now: u64, latency: u64) -> UnackedModel {
    if timed_out(e, now, latency) {
        UnackedModel { sent_at: now, ..e }
    } else {
        e
    }
}

/// Whether an unacknowledged packet is the one numbered `sequence` on `channel`.
pub open spec fn has_key(e: UnackedModel, channel: u16, sequence: u64) -> bool {
    e.channel == channel && e.sequence == sequence
}

/// The models of a list of unacknowledged packets.
pub open spec fn unacked_views(s: Seq<Unacked>) -> Seq<UnackedModel> {
    s.map_values(|e: Unacked| e@)
}

/// The reliability state of one connection.
pub struct Reliability {
    counters: Vec<u64>,
    unacked: Vec<Unacked>,
    pending_acks: Vec<(u16, u64)>,
}

/// The model of the reliability state.
pub struct ReliabilityModel {
    /// The next sequence number of each counted channel, by channel id.
    pub counters: Seq<u64>,
    /// Packets awaiting acknowledgement, oldest send first.
    pub unacked: Seq<UnackedModel>,
    /// Acknowledgements owed to the peer, in order of receipt, without repeats.
    pub pending_acks: Seq<(u16, u64)>,
}

impl View for Reliability {
    type V = ReliabilityModel;

    closed spec fn view(&self) -> ReliabilityModel {
        ReliabilityModel {
            counters: self.counters@,
            unacked: unacked_views(self.unacked@),
            pending_acks: self.pending_acks@,
        }
    }
}

/// A packet counted on `channel` with a number below its counter.
pub open spec fn issued(m: ReliabilityModel, channel: u16, sequence: u64) -> bool {
    is_counted(channel) && sequence < m.counters[channel as int]
}

/// Well-formed: one counter for each channel id up to the voice channel,
/// every unacknowledged packet on a counted channel was numbered from its
/// counter, and no acknowledgement is owed twice.
pub open spec fn reliability_wf(m: ReliabilityModel) -> bool {
    &&& m.counters.len() == CHANNEL_VOICE + 1
    &&& forall|i: int|
        0 <= i < m.unacked.len() && is_counted(#[trigger] m.unacked[i].channel) ==> issued(
            m,
            m.unacked[i].channel,
            m.unacked[i].sequence,
        )
    &&& m.pending_acks.no_duplicates()
}

/// Sending on `channel`: the sequence number it uses and the counters after.
pub open spec fn numbering(counters: Seq<u64>, channel: u16) -> (Option<u64>, Seq<u64>) {
    if is_counted(channel) && counters[channel as int] < u64::MAX {
        (
            Some(counters[channel as int]),
            counters.update(channel as int, (counters[channel as int] + 1) as u64),
        )
    } else if channel == CHANNEL_CLIENT_ID {
        (Some(0), counters)
    } else {
        (None, counters)
    }
}

/// The unacknowledged packets after an acknowledgement of `(channel, sequence)`.
pub open spec fn after_ack(s: Seq<UnackedModel>, channel: u16, sequence: u64) -> Seq<
    UnackedModel,
> {
    s.filter(other_than(channel, sequence))
}

/// The test an acknowledgement of `(channel, sequence)` keeps packets by.
pub open spec fn other_than(channel: u16, sequence: u64) -> spec_fn(UnackedModel) -> bool {
    |e: UnackedModel| !has_key(e, channel, sequence)
}

impl Reliability {
    pub fn new() -> (r: Reliability)
        ensures
            reliability_wf(r@),
            r@.counters == Seq::new(6, |i: int| 0u64),
            r@.unacked.len() == 0,
            r@.pending_acks.len() == 0,
    {
        let mut counters: Vec<u64> = Vec::new();
        let mut i: usize = 0;
        while i < 6
            invariant
                i <= 6,
                counters@ == Seq::new(i as nat, |k: int| 0u64),
            decreases 6 - i,
        {
            counters.push(0);
            i = i + 1;
            assert(counters@ =~= Seq::new(i as nat, |k: int| 0u64));
        }
        let r = Reliability { counters, unacked: Vec::new(), pending_acks: Vec::new() };
        assert(r@.unacked =~= Seq::<UnackedModel>::empty());
        r
    }

    /// Numbers the next packet on `channel`: counted channels take their
    /// counter and advance it, the identity channel always uses zero, and
    /// the ack channel (like any other) has no number.
    pub fn number(&mut self, channel: u16) -> (r: Option<u64>)
        requires
            reliability_wf(old(self)@),
        ensures
            reliability_wf(final(self)@),
            (r, final(self)@.counters) == numbering(old(self)@.counters, channel),
            final(self)@.unacked == old(self)@.unacked,
            final(self)@.pending_acks == old(self)@.pending_acks,
    {
        if 1 <= channel && channel <= CHANNEL_VOICE && self.counters[channel as usize] < u64::MAX {
            let s = self.counters[channel as usize];
            self.counters.set(channel as usize, s + 1);
            proof {
                let m = self@;
                assert forall|i: int|
                    0 <= i < m.unacked.len() && is_counted(#[trigger] m.unacked[i].channel)
                        implies issued(m, m.unacked[i].channel, m.unacked[i].sequence) by {
                    assert(m.unacked =~= old(self)@.unacked);
                    assert(is_counted(old(self)@.unacked[i].channel));
                    assert(issued(old(self)@, m.unacked[i].channel, m.unacked[i].sequence));
                }
            }
            Some(s)
        } else if channel == CHANNEL_CLIENT_ID {
            Some(0)
        } else {
            None
        }
    }

    /// Keeps a reliably sent datagram until it is acknowledged.
    pub fn record(&mut self, channel: u16, sequence: u64, bytes: Vec<u8>, now: u64)
        requires
            reliability_wf(old(self)@),
            is_counted(channel) ==> issued(old(self)@, channel, sequence),
        ensures
            reliability_wf(final(self)@),
            final(self)@.unacked == old(self)@.unacked.push(
                UnackedModel { channel, sequence, bytes: bytes@, sent_at: now },
            ),
            final(self)@.counters == old(self)@.counters,
            final(self)@.pending_acks == old(self)@.pending_acks,
    {
        let ghost pre = self@;
        self.unacked.push(Unacked { channel, sequence, bytes, sent_at: now });
        assert(self@.unacked =~= pre.unacked.push(
            UnackedModel { channel, sequence, bytes: bytes@, sent_at: now },
        ));
    }

    /// Handles an acknowledgement: the matching packet is dropped. An
    /// acknowledgement of nothing, or a repeated one, changes nothing.
    pub fn acknowledge(&mut self, channel: u16, sequence: u64)
        requires
            reliability_wf(old(self)@),
        ensures
            reliability_wf(final(self)@),
            final(self)@.unacked == after_ack(old(self)@.unacked, channel, sequence),
            final(self)@.counters == old(self)@.counters,
            final(self)@.pending_acks == old(self)@.pending_acks,
    {
        let ghost pre = self@;
        let ghost pred = other_than(channel, sequence);
        let mut rest: Vec<Unacked> = Vec::new();
        std::mem::swap(&mut rest, &mut self.unacked);
        let ghost src = unacked_views(rest@);
        assert(src == pre.unacked);
        let mut kept: Vec<Unacked> = Vec::new();
        let mut i: usize = 0;
        let n = rest.len();
        assert(src.subrange(0, 0) =~= Seq::<UnackedModel>::empty());
        while rest.len() > 0
            invariant
                pred == other_than(channel, sequence),
                n == src.len(),
                rest@.len() + i == n,
                forall|k: int| 0 <= k < rest@.len() ==> (#[trigger] rest@[k])@ == src[i + k],
                unacked_views(kept@) == src.subrange(0, i as int).filter(pred),
            decreases rest@.len(),
        {
            let e = rest.remove(0);
            proof {
                assert(e@ == src[i as int]);
                assert(src.subrange(0, i + 1).drop_last() =~= src.subrange(0, i as int));
            }
            let ghost before = unacked_views(kept@);
            let ghost ev = e@;
            proof {
                reveal(Seq::filter);
                assert(src.subrange(0, i + 1).last() == ev);
            }
            assert(src.subrange(0, i + 1).filter(pred) == if pred(ev) {
                src.subrange(0, i as int).filter(pred).push(ev)
            } else {
                src.subrange(0, i as int).filter(pred)
            });
            if e.channel == channel && e.sequence == sequence {
            } else {
                kept.push(e);
                assert(unacked_views(kept@) =~= before.push(ev));
            }
            i = i + 1;
        }
        assert(src.subrange(0, n as int) =~= src);
        self.unacked = kept;
        proof {
            let m = self@;
            assert forall|k: int|
                0 <= k < m.unacked.len() && is_counted(#[trigger] m.unacked[k].channel) implies issued(
                m,
                m.unacked[k].channel,
                m.unacked[k].sequence,
            ) by {
                let x = m.unacked[k];
                assert(src.filter(pred)[k] == x);
                assert(src.filter(pred).contains(x));
                src.lemma_filter_contains_rev(pred, x);
                let j = choose|j: int| 0 <= j < src.len() && src[j] == x;
                assert(is_counted(src[j].channel));
            }
        }
    }

    /// Polls for retransmission at `now`: every packet last sent longer ago
    /// than three times the smoothed latency plus slack is returned, in
    /// order, to be sent again verbatim, and its send time renewed.
    pub fn retransmissions(&mut self, now: u64, latency: u64) -> (r: Vec<Vec<u8>>)
        requires
            reliability_wf(old(self)@),
        ensures
            reliability_wf(final(self)@),
            crate::fragment::views(r@) == due_entries(old(self)@.unacked, now, latency).map_values(
                |e: UnackedModel| e.bytes,
            ),
            final(self)@.unacked == old(self)@.unacked.map_values(
                |e: UnackedModel| refreshed(e, now, latency),
            ),
            final(self)@.counters == old(self)@.counters,
            final(self)@.pending_acks == old(self)@.pending_acks,
    {
        let ghost pre = self@;
        let ghost pred = due_test(now, latency);
        let mut rest: Vec<Unacked> = Vec::new();
        std::mem::swap(&mut rest, &mut self.unacked);
        let ghost src = unacked_views(rest@);
        assert(src == pre.unacked);
        let mut kept: Vec<Unacked> = Vec::new();
        let mut out: Vec<Vec<u8>> = Vec::new();
        let timeout: u128 = 3 * (latency as u128 + RESEND_SLACK_MS as u128);
        let mut i: usize = 0;
        let n = rest.len();
        assert(src.subrange(0, 0) =~= Seq::<UnackedModel>::empty());
        while rest.len() > 0
            invariant
                pred == due_test(now, latency),
                timeout == resend_timeout(latency),
                n == src.len(),
                rest@.len() + i == n,
                forall|k: int| 0 <= k < rest@.len() ==> (#[trigger] rest@[k])@ == src[i + k],
                unacked_views(kept@) == src.subrange(0, i as int).map_values(
                    |e: UnackedModel| refreshed(e, now, latency),
                ),
                crate::fragment::views(out@) == src.subrange(0, i as int).filter(pred).map_values(
                    |e: UnackedModel| e.bytes,
                ),
            decreases rest@.len(),
        {
            let e = rest.remove(0);
            let ghost ev = e@;
            let ghost kept_before = unacked_views(kept@);
            let ghost out_before = crate::fragment::views(out@);
            proof {
                reveal(Seq::filter);
                assert(src.subrange(0, i + 1).drop_last() =~= src.subrange(0, i as int));
                assert(src.subrange(0, i + 1).last() == ev);
                assert(src.subrange(0, i + 1).filter(pred) == if pred(ev) {
                    src.subrange(0, i as int).filter(pred).push(ev)
                } else {
                    src.subrange(0, i as int).filter(pred)
                });
            }
            let age: u64 = if now >= e.sent_at {
                now - e.sent_at
            } else {
                0
            };
            if age as u128 > timeout {
                out.push(copy_bytes(&e.bytes));
                assert(crate::fragment::views(out@) =~= out_before.push(ev.bytes));
                kept.push(Unacked { sent_at: now, ..e });
            } else {
                kept.push(e);
            }
            proof {
                assert(unacked_views(kept@) =~= kept_before.push(refreshed(ev, now, latency)));
            }
            i = i + 1;
            proof {
                assert(src.subrange(0, i as int).map_values(
                    |e: UnackedModel| refreshed(e, now, latency),
                ) =~= src.subrange(0, i - 1).map_values(
                    |e: UnackedModel| refreshed(e, now, latency),
                ).push(refreshed(ev, now, latency)));
                assert(src.subrange(0, i as int).filter(pred).map_values(|e: UnackedModel| e.bytes)
                    =~= if pred(ev) {
                    src.subrange(0, i - 1).filter(pred).map_values(|e: UnackedModel| e.bytes).push(
                        ev.bytes,
                    )
                } else {
                    src.subrange(0, i - 1).filter(pred).map_values(|e: UnackedModel| e.bytes)
                });
            }
        }
        assert(src.subrange(0, n as int) =~= src);
        self.unacked = kept;
        proof {
            let m = self@;
            assert forall|k: int|
                0 <= k < m.unacked.len() && is_counted(#[trigger] m.unacked[k].channel) implies issued(
                m,
                m.unacked[k].channel,
                m.unacked[k].sequence,
            ) by {
                assert(m.unacked[k] == refreshed(src[k], now, latency));
                assert(is_counted(pre.unacked[k].channel));
            }
        }
        out
    }

    /// Notes a received packet for acknowledgement; the ack channel itself
    /// is never acknowledged, and a packet already owed an ack is not noted
    /// twice.
    pub fn note_received(&mut self, channel: u16, sequence: u64)
        requires
            reliability_wf(old(self)@),
        ensures
            reliability_wf(final(self)@),
            final(self)@.pending_acks == if channel == CHANNEL_ACK || old(
                self,
            )@.pending_acks.contains((channel, sequence)) {
                old(self)@.pending_acks
            } else {
                old(self)@.pending_acks.push((channel, sequence))
            },
            final(self)@.unacked == old(self)@.unacked,
            final(self)@.counters == old(self)@.counters,
            final(self)@ == noted(old(self)@, channel, sequence),
    {
        if channel == CHANNEL_ACK {
            return ;
        }
        let mut i: usize = 0;
        while i < self.pending_acks.len()
            invariant
                self@ == old(self)@,
                reliability_wf(self@),
                i <= self.pending_acks@.len(),
                forall|k: int| 0 <= k < i ==> self.pending_acks@[k] != (channel, sequence),
            decreases self.pending_acks@.len() - i,
        {
            let (c, q) = self.pending_acks[i];
            if c == channel && q == sequence {
                return ;
            }
            i = i + 1;
        }
        let ghost pre = self@;
        self.pending_acks.push((channel, sequence));
        proof {
            assert(self@.unacked == pre.unacked);
            assert forall|a: int, b: int|
                0 <= a < b < self.pending_acks@.len() implies self.pending_acks@[a]
                != self.pending_acks@[b] by {
                if b == self.pending_acks@.len() - 1 {
                    assert(self.pending_acks@[a] == pre.pending_acks[a]);
                }
            }
            let m = self@;
            assert forall|k: int|
                0 <= k < m.unacked.len() && is_counted(#[trigger] m.unacked[k].channel) implies issued(
                m,
                m.unacked[k].channel,
                m.unacked[k].sequence,
            ) by {
                assert(is_counted(pre.unacked[k].channel));
            }
        }
    }

    /// The number of acknowledgements owed.
    pub fn pending_ack_count(&self) -> (r: usize)
        ensures
            r == self@.pending_acks.len(),
    {
        self.pending_acks.len()
    }

    /// Takes the `n` oldest owed acknowledgements.
    pub fn take_acks(&mut self, n: usize) -> (r: Vec<(u16, u64)>)
        requires
            reliability_wf(old(self)@),
            n <= old(self)@.pending_acks.len(),
        ensures
            reliability_wf(final(self)@),
            r@ == old(self)@.pending_acks.subrange(0, n as int),
            final(self)@.pending_acks == old(self)@.pending_acks.subrange(
                n as int,
                old(self)@.pending_acks.len() as int,
            ),
            final(self)@.unacked == old(self)@.unacked,
            final(self)@.counters == old(self)@.counters,
    {
        let ghost pre = self@;
        let mut taken = self.pending_acks.split_off(n);
        std::mem::swap(&mut taken, &mut self.pending_acks);
        proof {
            let m = self@;
            assert(m.unacked == pre.unacked);
            assert forall|k: int|
                0 <= k < m.unacked.len() && is_counted(#[trigger] m.unacked[k].channel) implies issued(
                m,
                m.unacked[k].channel,
                m.unacked[k].sequence,
            ) by {
                assert(is_counted(pre.unacked[k].channel));
            }
            assert forall|a: int, b: int|
                0 <= a < b < m.pending_acks.len() implies m.pending_acks[a] != m.pending_acks[b] by {
                assert(m.pending_acks[a] == pre.pending_acks[a + n]);
                assert(m.pending_acks[b] == pre.pending_acks[b + n]);
            }
        }
        taken
    }
}

/// The state after a packet numbered `sequence` on `channel` arrives: an
/// acknowledgement is owed for it, unless it came on the ack channel or one
/// is already owed.
pub open spec fn noted(m: ReliabilityModel, channel: u16, sequence: u64) -> ReliabilityModel {
    ReliabilityModel {
        pending_acks: if channel == CHANNEL_ACK || m.pending_acks.contains((channel, sequence)) {
            m.pending_acks
        } else {
            m.pending_acks.push((channel, sequence))
        },
        ..m
    }
}

/// The unacknowledged packets after each acknowledgement of `acks`, in turn.
pub open spec fn after_acks(s: Seq<UnackedModel>, acks: Seq<(u16, u64)>) -> Seq<UnackedModel>
    decreases acks.len(),
{
    if acks.len() == 0 {
        s
    } else {
        after_ack(after_acks(s, acks.drop_last()), acks.last().0, acks.last().1)
    }
}

/// The test a poll at `now` picks packets for retransmission by.
pub open spec fn due_test(now: u64, latency: u64) -> spec_fn(UnackedModel) -> bool {
    |e: UnackedModel| timed_out(e, now, latency)
}

/// The packets a poll at `now` sends again.
pub open spec fn due_entries(s: Seq<UnackedModel>, now: u64, latency: u64) -> Seq<UnackedModel> {
    s.filter(due_test(now, latency))
}

/// One thing that happens to the reliability state.
pub enum ReliableEvent {
    /// A datagram of these bytes sent on this channel at this time.
    Send(u16, Seq<u8>, u64),
    /// An acknowledgement of this channel and sequence number.
    Ack(u16, u64),
    /// A retransmission poll at this time, with this smoothed latency.
    Poll(u64, u64),
}

/// How an event changes the state, as `number`, `record`, `acknowledge` and
/// `retransmissions` do it.
pub open spec fn event_step(pre: ReliabilityModel, ev: ReliableEvent, post: ReliabilityModel) -> bool {
    match ev {
        ReliableEvent::Send(channel, bytes, now) => {
            let (s, counters) = numbering(pre.counters, channel);
            &&& post.counters == counters
            &&& post.unacked == if is_reliable(channel) && s is Some {
                pre.unacked.push(
                    UnackedModel { channel, sequence: s->Some_0, bytes, sent_at: now },
                )
            } else {
                pre.unacked
            }
        },
        ReliableEvent::Ack(channel, sequence) => {
            &&& post.counters == pre.counters
            &&& post.unacked == after_ack(pre.unacked, channel, sequence)
        },
        ReliableEvent::Poll(now, latency) => {
            &&& post.counters == pre.counters
            &&& post.unacked == pre.unacked.map_values(
                |e: UnackedModel| refreshed(e, now, latency),
            )
        },
    }
}

/// Until it is acknowledged, a packet is sent again at every poll that
/// finds it older than the retransmission timeout.
pub proof fn lemma_unacked_is_resent(s: Seq<UnackedModel>, now: u64, latency: u64, i: int)
    requires
        0 <= i < s.len(),
        timed_out(s[i], now, latency),
    ensures
        due_entries(s, now, latency).contains(s[i]),
{
    s.lemma_filter_contains(due_test(now, latency), i);
}

/// After an acknowledgement there is no packet of that number left, and
/// none comes back: whatever is sent, acknowledged or polled afterwards,
/// no later state holds it and no later poll sends it again.
pub proof fn lemma_acked_never_resent(
    states: Seq<ReliabilityModel>,
    events: Seq<ReliableEvent>,
    channel: u16,
    sequence: u64,
)
    requires
        states.len() == events.len() + 1,
        forall|i: int|
            0 <= i < events.len() ==> event_step(#[trigger] states[i], events[i], states[i + 1]),
        states[0].counters.len() == CHANNEL_VOICE + 1,
        issued(states[0], channel, sequence),
        forall|k: int|
            0 <= k < states[0].unacked.len() ==> !has_key(
                #[trigger] states[0].unacked[k],
                channel,
                sequence,
            ),
    ensures
        forall|j: int, k: int|
            0 <= j < states.len() && 0 <= k < states[j].unacked.len() ==> !has_key(
                #[trigger] states[j].unacked[k],
                channel,
                sequence,
            ),
        forall|j: int, k: int|
            0 <= j < events.len() && events[j] is Poll && 0 <= k < due_entries(
                states[j].unacked,
                events[j]->Poll_0,
                events[j]->Poll_1,
            ).len() ==> !has_key(
                #[trigger] due_entries(states[j].unacked, events[j]->Poll_0, events[j]->Poll_1)[k],
                channel,
                sequence,
            ),
    decreases events.len(),
{
    if events.len() > 0 {
        let n = events.len() - 1;
        lemma_acked_never_resent(states.drop_last(), events.drop_last(), channel, sequence);
        assert forall|i: int| 0 <= i < n implies event_step(
            #[trigger] states.drop_last()[i],
            events.drop_last()[i],
            states.drop_last()[i + 1],
        ) by {
            assert(event_step(states[i], events[i], states[i + 1]));
        }
        lemma_still_issued(states, events, channel, sequence, n);
        let pre = states[n];
        let post = states[n + 1];
        assert(event_step(pre, events[n], post));
        assert forall|k: int| 0 <= k < pre.unacked.len() implies !has_key(
            #[trigger] pre.unacked[k],
            channel,
            sequence,
        ) by {
            assert(states.drop_last()[n] == pre);
        }
        match events[n] {
            ReliableEvent::Send(c, bytes, now) => {
                assert forall|k: int| 0 <= k < post.unacked.len() implies !has_key(
                    #[trigger] post.unacked[k],
                    channel,
                    sequence,
                ) by {
                    if k < pre.unacked.len() {
                        assert(post.unacked[k] == pre.unacked[k]);
                    }
                }
            },
            ReliableEvent::Ack(c, q) => {
                assert forall|k: int| 0 <= k < post.unacked.len() implies !has_key(
                    #[trigger] post.unacked[k],
                    channel,
                    sequence,
                ) by {
                    let x = post.unacked[k];
                    assert(after_ack(pre.unacked, c, q).contains(x));
                    pre.unacked.lemma_filter_contains_rev(other_than(c, q), x);
                }
            },
            ReliableEvent::Poll(now, latency) => {
                assert forall|k: int| 0 <= k < post.unacked.len() implies !has_key(
                    #[trigger] post.unacked[k],
                    channel,
                    sequence,
                ) by {
                    assert(post.unacked[k] == refreshed(pre.unacked[k], now, latency));
                }
                assert forall|k: int|
                    0 <= k < due_entries(pre.unacked, now, latency).len() implies !has_key(
                    #[trigger] due_entries(pre.unacked, now, latency)[k],
                    channel,
                    sequence,
                ) by {
                    let x = due_entries(pre.unacked, now, latency)[k];
                    assert(due_entries(pre.unacked, now, latency).contains(x));
                    pre.unacked.lemma_filter_contains_rev(due_test(now, latency), x);
                }
            },
        }
        assert forall|j: int, k: int|
            0 <= j < states.len() && 0 <= k < states[j].unacked.len() implies !has_key(
            #[trigger] states[j].unacked[k],
            channel,
            sequence,
        ) by {
            if j < states.len() - 1 {
                assert(states.drop_last()[j] == states[j]);
            }
        }
        assert forall|j: int, k: int|
            0 <= j < events.len() && events[j] is Poll && 0 <= k < due_entries(
                states[j].unacked,
                events[j]->Poll_0,
                events[j]->Poll_1,
            ).len() implies !has_key(
            #[trigger] due_entries(states[j].unacked, events[j]->Poll_0, events[j]->Poll_1)[k],
            channel,
            sequence,
        ) by {
            if j < n {
                assert(states.drop_last()[j] == states[j]);
                assert(events.drop_last()[j] == events[j]);
            }
        }
    }
}

/// Counters only grow, so a number once issued stays issued.
proof fn lemma_still_issued(
    states: Seq<ReliabilityModel>,
    events: Seq<ReliableEvent>,
    channel: u16,
    sequence: u64,
    j: int,
)
    requires
        states.len() == events.len() + 1,
        forall|i: int|
            0 <= i < events.len() ==> event_step(#[trigger] states[i], events[i], states[i + 1]),
        states[0].counters.len() == CHANNEL_VOICE + 1,
        issued(states[0], channel, sequence),
        0 <= j < states.len(),
    ensures
        states[j].counters.len() == CHANNEL_VOICE + 1,
        issued(states[j], channel, sequence),
    decreases j,
{
    if j > 0 {
        lemma_still_issued(states, events, channel, sequence, j - 1);
        assert(event_step(states[j - 1], events[j - 1], states[j]));
    }
}

/// After an ack datagram, no packet it lists is left, and every packet
/// left was there before.
pub proof fn lemma_acks_remove_listed(s: Seq<UnackedModel>, acks: Seq<(u16, u64)>)
    ensures
        forall|a: int, k: int|
            0 <= a < acks.len() && 0 <= k < after_acks(s, acks).len() ==> !has_key(
                #[trigger] after_acks(s, acks)[k],
                #[trigger] acks[a].0,
                acks[a].1,
            ),
        forall|k: int|
            0 <= k < after_acks(s, acks).len() ==> s.contains(#[trigger] after_acks(s, acks)[k]),
    decreases acks.len(),
{
    if acks.len() > 0 {
        let prev = after_acks(s, acks.drop_last());
        lemma_acks_remove_listed(s, acks.drop_last());
        let (c, q) = acks.last();
        let res = after_acks(s, acks);
        assert forall|k: int| 0 <= k < res.len() implies prev.contains(#[trigger] res[k]) && !has_key(
            res[k],
            c,
            q,
        ) by {
            prev.lemma_filter_pred(other_than(c, q), k);
            assert(res.contains(res[k]));
            prev.lemma_filter_contains_rev(other_than(c, q), res[k]);
        }
        assert forall|a: int, k: int|
            0 <= a < acks.len() && 0 <= k < res.len() implies !has_key(
            #[trigger] res[k],
            #[trigger] acks[a].0,
            acks[a].1,
        ) by {
            if a < acks.len() - 1 {
                let j = choose|j: int| 0 <= j < prev.len() && prev[j] == res[k];
                assert(acks.drop_last()[a] == acks[a]);
                assert(!has_key(prev[j], acks.drop_last()[a].0, acks.drop_last()[a].1));
            }
        }
        assert forall|k: int| 0 <= k < res.len() implies s.contains(#[trigger] res[k]) by {
            let j = choose|j: int| 0 <= j < prev.len() && prev[j] == res[k];
        }
    }
}

/// An acknowledgement of a packet that is not (or no longer) waiting changes
/// nothing, so a repeated acknowledgement is harmless.
pub proof fn lemma_ack_of_absent_is_noop(s: Seq<UnackedModel>, channel: u16, sequence: u64)
    requires
        forall|k: int| 0 <= k < s.len() ==> !has_key(#[trigger] s[k], channel, sequence),
    ensures
        after_ack(s, channel, sequence) == s,
    decreases s.len(),
{
    reveal(Seq::filter);
    if s.len() > 0 {
        lemma_ack_of_absent_is_noop(s.drop_last(), channel, sequence);
        assert(!has_key(s.last(), channel, sequence));
        assert(s.drop_last().push(s.last()) =~= s);
    }
}

} // verus!
