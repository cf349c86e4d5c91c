//! Exactly-once, in-order delivery over a channel whose packets may arrive
//! late, twice, or out of order.
use std::collections::HashMap;
use vstd::prelude::*;

verus! {

broadcast use vstd::std_specs::hash::group_hash_axioms;

/// The receiving end of an ordered channel.
pub struct OrderedInbox {
    next_expected: u64,
    buffered: HashMap<u64, Vec<u8>>,
}

/// The model of an inbox: the next sequence number owed to the application,
/// and the messages that arrived ahead of it.
pub struct InboxModel {
    pub next: u64,
    pub pending: Map<u64, Vec<u8>>,
}

impl View for OrderedInbox {
    type V = InboxModel;

    closed spec fn view(&self) -> InboxModel {
        InboxModel { next: self.next_expected, pending: self.buffered@ }
    }
}

/// Every buffered message is ahead of the next expected one; the last
/// sequence number is never used.
pub open spec fn inbox_wf(m: InboxModel) -> bool {
    forall|k: u64| #[trigger] m.pending.contains_key(k) ==> m.next < k < u64::MAX
}

/// What one arrival does: `out` is what the application receives, in order.
/// A message behind the expected one is dropped; one ahead of it is kept
/// (the first copy wins); the expected one is handed out together with the
/// run of kept messages that follows it.
pub open spec fn receive_step(
    pre: InboxModel,
    sequence: u64,
    message: Vec<u8>,
    post: InboxModel,
    out: Seq<(u64, Vec<u8>)>,
) -> bool {
    if sequence < pre.next || sequence == u64::MAX {
        post == pre && out.len() == 0
    } else if sequence > pre.next {
        &&& out.len() == 0
        &&& post.next == pre.next
        &&& post.pending == if pre.pending.contains_key(sequence) {
            pre.pending
        } else {
            pre.pending.insert(sequence, message)
        }
    } else {
        &&& out.len() >= 1
        &&& out[0] == (sequence, message)
        &&& forall|i: int| 0 <= i < out.len() ==> #[trigger] out[i].0 == pre.next + i
        &&& forall|i: int|
            1 <= i < out.len() ==> pre.pending.contains_key(#[trigger] out[i].0) && out[i].1
                == pre.pending[out[i].0]
        &&& post.next == pre.next + out.len()
        &&& !post.pending.contains_key(post.next)
        &&& post.pending == pre.pending.remove_keys(
            Set::new(|k: u64| pre.next < k < post.next),
        )
    }
}

impl OrderedInbox {
    /// An inbox that expects sequence number zero first.
    pub fn new() -> (r: OrderedInbox)
        ensures
            r@.next == 0,
            r@.pending == Map::<u64, Vec<u8>>::empty(),
            inbox_wf(r@),
    {
        OrderedInbox { next_expected: 0, buffered: HashMap::new() }
    }

    /// The next sequence number owed to the application.
    pub fn next_expected(&self) -> (r: u64)
        ensures
            r == self@.next,
    {
        self.next_expected
    }

    /// Takes one arrival and returns the messages now due, in order.
    pub fn receive(&mut self, sequence: u64, message: Vec<u8>) -> (out: Vec<(u64, Vec<u8>)>)
        requires
            inbox_wf(old(self)@),
        ensures
            inbox_wf(final(self)@),
            receive_step(old(self)@, sequence, message, final(self)@, out@),
    {
        let mut out: Vec<(u64, Vec<u8>)> = Vec::new();
        if sequence < self.next_expected || sequence == u64::MAX {
            return out;
        }
        if sequence > self.next_expected {
            if !self.buffered.contains_key(&sequence) {
                self.buffered.insert(sequence, message);
            }
            assert forall|k: u64| #[trigger] self@.pending.contains_key(k) implies self@.next < k
                < u64::MAX by {
                if k != sequence {
                    assert(old(self)@.pending.contains_key(k));
                }
            }
            return out;
        }
        let ghost pre = self@;
        out.push((sequence, message));
        self.next_expected = sequence + 1;
        assert(self.buffered@ =~= pre.pending.remove_keys(
            Set::new(|k: u64| pre.next < k < self.next_expected),
        ));
        loop
            invariant
                inbox_wf(pre),
                pre.next == sequence,
                out@.len() >= 1,
                out@[0] == (sequence, message),
                self.next_expected == pre.next + out@.len(),
                forall|i: int| 0 <= i < out@.len() ==> #[trigger] out@[i].0 == pre.next + i,
                forall|i: int|
                    1 <= i < out@.len() ==> pre.pending.contains_key(#[trigger] out@[i].0)
                        && out@[i].1 == pre.pending[out@[i].0],
                self.buffered@ == pre.pending.remove_keys(
                    Set::new(|k: u64| pre.next < k < self.next_expected),
                ),
            ensures
                !self.buffered@.contains_key(self.next_expected),
            decreases u64::MAX - self.next_expected,
        {
            let key = self.next_expected;
            match self.buffered.remove(&key) {
                Some(m) => {
                    out.push((key, m));
                    self.next_expected = key + 1;
                    assert(pre.pending.remove_keys(
                        Set::new(|k: u64| pre.next < k < self.next_expected),
                    ) =~= pre.pending.remove_keys(Set::new(|k: u64| pre.next < k < key)).remove(
                        key,
                    ));
                },
                None => {
                    assert(!self.buffered@.contains_key(key));
                    break ;
                },
            }
        }
        assert forall|k: u64| #[trigger] self@.pending.contains_key(k) implies self@.next < k
            < u64::MAX by {
            assert(pre.pending.contains_key(k));
        }
        out
    }
}

/// The sequence numbers handed to the application over a run of arrivals,
/// in the order it received them.
pub open spec fn delivered_sequences(outs: Seq<Seq<(u64, Vec<u8>)>>) -> Seq<u64>
    decreases outs.len(),
{
    if outs.len() == 0 {
        Seq::empty()
    } else {
        delivered_sequences(outs.drop_last()) + outs.last().map_values(
            |d: (u64, Vec<u8>)| d.0,
        )
    }
}

/// The numbers `from`, `from + 1`, ..., up to but not including `to`.
pub open spec fn consecutive(from: u64, to: u64) -> Seq<u64> {
    Seq::new((to - from) as nat, |i: int| (from + i) as u64)
}

/// Whatever the order of arrivals, duplicates and stale copies included, the
/// application receives consecutive sequence numbers starting at the first
/// expected one: strictly increasing, each exactly once, with no gap.
pub proof fn lemma_in_order_delivery(
    states: Seq<InboxModel>,
    arrivals: Seq<(u64, Vec<u8>)>,
    outs: Seq<Seq<(u64, Vec<u8>)>>,
)
    requires
        states.len() == arrivals.len() + 1,
        outs.len() == arrivals.len(),
        forall|i: int|
            0 <= i < arrivals.len() ==> receive_step(
                #[trigger] states[i],
                arrivals[i].0,
                arrivals[i].1,
                states[i + 1],
                outs[i],
            ),
    ensures
        states[0].next <= states.last().next,
        delivered_sequences(outs) == consecutive(states[0].next, states.last().next),
        forall|i: int, j: int|
            0 <= i < j < delivered_sequences(outs).len() ==> delivered_sequences(outs)[i]
                < delivered_sequences(outs)[j],
    decreases arrivals.len(),
{
    let n = arrivals.len();
    if n == 0 {
        assert(delivered_sequences(outs) =~= consecutive(states[0].next, states.last().next));
    } else {
        let k = (n - 1) as int;
        assert(receive_step(states[k], arrivals[k].0, arrivals[k].1, states[k + 1], outs[k]));
        lemma_in_order_delivery(states.drop_last(), arrivals.drop_last(), outs.drop_last());
        assert(outs.drop_last() == outs.subrange(0, k));
        let last = outs.last().map_values(|d: (u64, Vec<u8>)| d.0);
        assert(last =~= consecutive(states[k].next, states[k + 1].next));
        assert(delivered_sequences(outs) =~= consecutive(states[0].next, states.last().next));
    }
}


} // verus!
