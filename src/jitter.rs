//! The jitter buffer for live state: a ring of buckets, one drained per
//! tick, that absorbs the spread in arrival times of unreliable snapshots.
use crate::fragment::views;
use vstd::prelude::*;

verus! {

/// A snapshot whose latency exceeds this many milliseconds is dropped.
pub const LATENCY_DISCARD_THRESHOLD_MS: u64 = 1000;

/// How many recent latency samples the smoothed latency averages.
pub const LATENCY_SAMPLES: usize = 8;

/// How many ticks of hit and miss counts are remembered.
pub const HISTORY_LENGTH: usize = 128;

/// A bucket is added when more than one in this many snapshots missed.
pub const MISS_RATE_DIVISOR: u128 = 100;

/// The buckets a new buffer starts with.
pub const INITIAL_BUCKETS: usize = 2;

/// Whether `d` lies in window `i`, the closed range `[lo + i * t, lo + (i + 1) * t]`.
pub open spec fn in_window(d: int, lo: int, t: int, i: int) -> bool {
    lo + i * t <= d <= lo + (i + 1) * t
}

/// The first of windows `i`, `i + 1`, ..., `count - 1` that holds `d`.
pub open spec fn first_window(d: int, lo: int, t: int, i: int, count: int) -> Option<int>
    decreases count - i,
{
    if i >= count {
        None
    } else if in_window(d, lo, t, i) {
        Some(i)
    } else {
        first_window(d, lo, t, i + 1, count)
    }
}

/// The bucket a snapshot belongs in: the windows are one tick wide, tiled
/// from `-count * (tick / 2)` on, and the offset of the snapshot's latency
/// from the smoothed latency picks the first window that holds it. `None`
/// is a miss.
pub open spec fn bucket_spec(latency: u64, smoothed: u64, tick: u32, count: u32) -> Option<int> {
    first_window(
        latency - smoothed,
        -(count * (tick / 2)),
        tick as int,
        0,
        count as int,
    )
}

/// The assigned bucket is the first window that holds the offset, and a
/// miss means no window holds it.
pub proof fn lemma_bucket_is_first_window(latency: u64, smoothed: u64, tick: u32, count: u32)
    ensures
        ({
            let d = latency - smoothed;
            let lo = -(count * (tick / 2));
            match bucket_spec(latency, smoothed, tick, count) {
                Some(i) => 0 <= i < count && in_window(d, lo, tick as int, i) && forall|j: int|
                    0 <= j < i ==> !#[trigger] in_window(d, lo, tick as int, j),
                None => forall|j: int|
                    0 <= j < count ==> !#[trigger] in_window(d, lo, tick as int, j),
            }
        }),
{
    lemma_first_window(
        latency - smoothed,
        -(count * (tick / 2)),
        tick as int,
        0,
        count as int,
    );
}

proof fn lemma_first_window(d: int, lo: int, t: int, i: int, count: int)
    requires
        0 <= i,
    ensures
        match first_window(d, lo, t, i, count) {
            Some(k) => i <= k < count && in_window(d, lo, t, k) && forall|j: int|
                i <= j < k ==> !#[trigger] in_window(d, lo, t, j),
            None => forall|j: int| i <= j < count ==> !#[trigger] in_window(d, lo, t, j),
        },
    decreases count - i,
{
    if i < count && !in_window(d, lo, t, i) {
        lemma_first_window(d, lo, t, i + 1, count);
    }
}

/// Picks the bucket for a snapshot, or `None` when it falls outside every
/// window. The result depends on these four inputs alone.
pub fn assign_bucket(latency: u64, smoothed: u64, tick_length: u32, bucket_count: u32) -> (r:
    Option<u32>)
    ensures
        match r {
            Some(i) => bucket_spec(latency, smoothed, tick_length, bucket_count) == Some(i as int),
            None => bucket_spec(latency, smoothed, tick_length, bucket_count) is None,
        },
{
    let d: i128 = latency as i128 - smoothed as i128;
    let t: i128 = tick_length as i128;
    assert(bucket_count * (t / 2) <= 0xffff_ffff * 0xffff_ffff) by (nonlinear_arith)
        requires
            0 <= bucket_count <= 0xffff_ffff,
            0 <= t / 2 <= 0xffff_ffff,
    ;
    let lo: i128 = -(bucket_count as i128 * (t / 2));
    let mut i: u32 = 0;
    let mut min: i128 = lo;
    while i < bucket_count
        invariant
            i <= bucket_count,
            d == latency - smoothed,
            t == tick_length,
            lo == -(bucket_count * (tick_length / 2)),
            min == lo + i * t,
            first_window(d as int, lo as int, t as int, 0, bucket_count as int) == first_window(
                d as int,
                lo as int,
                t as int,
                i as int,
                bucket_count as int,
            ),
        decreases bucket_count - i,
    {
        proof {
            assert(i * t <= bucket_count * t) by (nonlinear_arith)
                requires
                    i <= bucket_count,
                    t >= 0,
            ;
            assert(bucket_count * t <= 0xffff_ffff * 0xffff_ffff) by (nonlinear_arith)
                requires
                    bucket_count <= 0xffff_ffff,
                    0 <= t <= 0xffff_ffff,
            ;
            assert(bucket_count * (tick_length / 2) <= 0xffff_ffff * 0xffff_ffff) by (
            nonlinear_arith)
                requires
                    bucket_count <= 0xffff_ffff,
                    0 <= tick_length / 2 <= 0xffff_ffff,
            ;
        }
        let max = min + t;
        if min <= d && d <= max {
            assert((i + 1) * t == i * t + t) by (nonlinear_arith);
            return Some(i);
        }
        assert((i + 1) * t == i * t + t) by (nonlinear_arith);
        min = max;
        i = i + 1;
    }
    None
}

/// The sum of a list of counts.
pub open spec fn seq_sum(s: Seq<u64>) -> nat
    decreases s.len(),
{
    if s.len() == 0 {
        0
    } else {
        seq_sum(s.drop_last()) + s.last() as nat
    }
}

/// The latency samples after one more: the oldest goes once there are eight.
pub open spec fn push_sample(s: Seq<u64>, l: u64) -> Seq<u64> {
    if s.len() >= LATENCY_SAMPLES {
        s.drop_first().push(l)
    } else {
        s.push(l)
    }
}

/// A count history after one more tick: the oldest goes past 128 ticks.
pub open spec fn push_history(s: Seq<u64>, c: u64) -> Seq<u64> {
    if s.push(c).len() > HISTORY_LENGTH {
        s.push(c).drop_first()
    } else {
        s.push(c)
    }
}

/// Grow when the history is at least half full and more than one
/// snapshot in a hundred missed.
pub open spec fn should_grow(hits: Seq<u64>, misses: Seq<u64>) -> bool {
    misses.len() >= HISTORY_LENGTH / 2 && MISS_RATE_DIVISOR * seq_sum(misses) > seq_sum(hits)
        + seq_sum(misses)
}

/// The buffer after a tick's counts are closed: a tick with neither hits
/// nor misses leaves it as it is; otherwise both counts join the history,
/// and when the history calls for it one empty bucket is added and the
/// history starts over.
pub open spec fn after_end_tick(pre: JitterModel) -> JitterModel {
    let h = push_history(pre.hits, pre.tick_hits);
    let m = push_history(pre.misses, pre.tick_misses);
    if pre.tick_hits == 0 && pre.tick_misses == 0 {
        pre
    } else if should_grow(h, m) && pre.buckets.len() < u32::MAX {
        JitterModel {
            buckets: pre.buckets.push(Seq::empty()),
            hits: Seq::empty(),
            misses: Seq::empty(),
            tick_hits: 0,
            tick_misses: 0,
            ..pre
        }
    } else {
        JitterModel { hits: h, misses: m, tick_hits: 0, tick_misses: 0, ..pre }
    }
}

/// The buffer after its oldest bucket is drained: that bucket goes and an
/// empty one is appended.
pub open spec fn after_drain(pre: JitterModel) -> JitterModel {
    JitterModel { buckets: pre.buckets.drop_first().push(Seq::empty()), ..pre }
}

/// How long a snapshot took, in milliseconds; a send time in the future
/// counts as no delay.
pub open spec fn latency_of(send_time_ms: u64, now_ms: u64) -> u64 {
    if now_ms >= send_time_ms {
        (now_ms - send_time_ms) as u64
    } else {
        0
    }
}

/// What became of an arriving snapshot.
#[derive(Clone, Copy, Debug, PartialEq, Eq, Structural)]
pub enum Arrival {
    /// Its latency was past the discard threshold; nothing changed.
    Stale,
    /// Placed in the bucket of this index.
    Accepted(u32),
    /// Outside every window: counted as a miss and dropped.
    Missed,
}

/// What taking a snapshot does: a stale one changes nothing; otherwise its
/// latency joins the samples, the smoothed latency becomes their mean, and
/// the snapshot goes into the bucket its offset selects, or counts as a miss.
pub open spec fn receive_spec(
    pre: JitterModel,
    packet: Seq<u8>,
    send_time_ms: u64,
    now_ms: u64,
    tick_length_ms: u32,
    post: JitterModel,
    r: Arrival,
) -> bool {
    let l = latency_of(send_time_ms, now_ms);
    if l > LATENCY_DISCARD_THRESHOLD_MS {
        r == Arrival::Stale && post == pre
    } else {
        &&& post.samples == push_sample(pre.samples, l)
        &&& post.smoothed == seq_sum(post.samples) / (post.samples.len() as nat)
        &&& post.hits == pre.hits
        &&& post.misses == pre.misses
        &&& match bucket_spec(
            l,
            post.smoothed,
            tick_length_ms,
            pre.buckets.len() as u32,
        ) {
            Some(i) => {
                &&& r == Arrival::Accepted(i as u32)
                &&& post.buckets == pre.buckets.update(i, pre.buckets[i].push(packet))
                &&& post.tick_hits == if pre.tick_hits < u64::MAX {
                    (pre.tick_hits + 1) as u64
                } else {
                    pre.tick_hits
                }
                &&& post.tick_misses == pre.tick_misses
            },
            None => {
                &&& r == Arrival::Missed
                &&& post.buckets == pre.buckets
                &&& post.tick_misses == if pre.tick_misses < u64::MAX {
                    (pre.tick_misses + 1) as u64
                } else {
                    pre.tick_misses
                }
                &&& post.tick_hits == pre.tick_hits
            },
        }
    }
}

/// The jitter buffer of one connection.
pub struct JitterBuffer {
    buckets: Vec<Vec<Vec<u8>>>,
    samples: Vec<u64>,
    smoothed: u64,
    hits: Vec<u64>,
    misses: Vec<u64>,
    tick_hits: u64,
    tick_misses: u64,
}

/// The model of a jitter buffer.
pub struct JitterModel {
    /// The buckets, oldest (next to be drained) first.
    pub buckets: Seq<Seq<Seq<u8>>>,
    /// Recent accepted latencies, oldest first.
    pub samples: Seq<u64>,
    /// The mean of the samples.
    pub smoothed: u64,
    /// Per-tick hit counts, oldest first.
    pub hits: Seq<u64>,
    /// Per-tick miss counts, oldest first.
    pub misses: Seq<u64>,
    /// Hits so far this tick.
    pub tick_hits: u64,
    /// Misses so far this tick.
    pub tick_misses: u64,
}

/// The contents of a list of buckets.
pub open spec fn bucket_views(b: Seq<Vec<Vec<u8>>>) -> Seq<Seq<Seq<u8>>> {
    b.map_values(|x: Vec<Vec<u8>>| views(x@))
}

impl View for JitterBuffer {
    type V = JitterModel;

    closed spec fn view(&self) -> JitterModel {
        JitterModel {
            buckets: bucket_views(self.buckets@),
            samples: self.samples@,
            smoothed: self.smoothed,
            hits: self.hits@,
            misses: self.misses@,
            tick_hits: self.tick_hits,
            tick_misses: self.tick_misses,
        }
    }
}

/// A well-formed jitter buffer: at least one bucket and at most `u32::MAX`,
/// at most eight samples, each within the discard threshold, and hit and
/// miss histories of one length, at most 128 ticks.
pub open spec fn jitter_wf(m: JitterModel) -> bool {
    &&& 1 <= m.buckets.len() <= u32::MAX
    &&& m.samples.len() <= LATENCY_SAMPLES
    &&& forall|i: int| 0 <= i < m.samples.len() ==> #[trigger] m.samples[i]
        <= LATENCY_DISCARD_THRESHOLD_MS
    &&& m.hits.len() == m.misses.len() <= HISTORY_LENGTH
}

/// The sum of at most 128 counts.
fn sum_counts(v: &Vec<u64>) -> (r: u128)
    requires
        v@.len() <= HISTORY_LENGTH,
    ensures
        r == seq_sum(v@),
        r <= v@.len() * 0xffff_ffff_ffff_ffffu128,
{
    let mut acc: u128 = 0;
    let mut i: usize = 0;
    while i < v.len()
        invariant
            i <= v@.len() <= HISTORY_LENGTH,
            acc == seq_sum(v@.subrange(0, i as int)),
            acc <= i * 0xffff_ffff_ffff_ffffu128,
        decreases v@.len() - i,
    {
        assert(v@.subrange(0, i + 1).drop_last() =~= v@.subrange(0, i as int));
        acc = acc + v[i] as u128;
        i = i + 1;
    }
    assert(v@.subrange(0, v@.len() as int) =~= v@);
    acc
}

proof fn lemma_samples_sum_bound(s: Seq<u64>)
    requires
        forall|i: int| 0 <= i < s.len() ==> #[trigger] s[i] <= LATENCY_DISCARD_THRESHOLD_MS,
    ensures
        seq_sum(s) <= s.len() * LATENCY_DISCARD_THRESHOLD_MS,
    decreases s.len(),
{
    if s.len() > 0 {
        lemma_samples_sum_bound(s.drop_last());
    }
}

impl JitterBuffer {
    /// A buffer with two empty buckets and no history.
    pub fn new() -> (r: JitterBuffer)
        ensures
            jitter_wf(r@),
            r@.buckets == seq![Seq::<Seq<u8>>::empty(), Seq::<Seq<u8>>::empty()],
            r@.samples.len() == 0,
            r@.smoothed == 0,
            r@.hits.len() == 0,
            r@.tick_hits == 0,
            r@.tick_misses == 0,
    {
        let mut buckets: Vec<Vec<Vec<u8>>> = Vec::new();
        let first: Vec<Vec<u8>> = Vec::new();
        let second: Vec<Vec<u8>> = Vec::new();
        assert(views(first@) =~= Seq::<Seq<u8>>::empty());
        assert(views(second@) =~= Seq::<Seq<u8>>::empty());
        buckets.push(first);
        buckets.push(second);
        let r = JitterBuffer {
            buckets,
            samples: Vec::new(),
            smoothed: 0,
            hits: Vec::new(),
            misses: Vec::new(),
            tick_hits: 0,
            tick_misses: 0,
        };
        assert(r@.buckets =~= seq![Seq::<Seq<u8>>::empty(), Seq::<Seq<u8>>::empty()]);
        r
    }

    /// The number of buckets.
    pub fn bucket_count(&self) -> (r: usize)
        ensures
            r == self@.buckets.len(),
    {
        self.buckets.len()
    }

    /// The smoothed latency, in milliseconds.
    pub fn smoothed_latency(&self) -> (r: u64)
        ensures
            r == self@.smoothed,
    {
        self.smoothed
    }

    /// Takes a live-state snapshot sent at `send_time_ms` and arriving at
    /// `now_ms`. A stale one changes nothing. Otherwise its latency joins
    /// the samples, the smoothed latency becomes their mean, and the
    /// snapshot goes into the bucket its offset from that mean selects, or
    /// counts as a miss.
    pub fn receive(&mut self, packet: Vec<u8>, send_time_ms: u64, now_ms: u64, tick_length_ms: u32) -> (r:
        Arrival)
        requires
            jitter_wf(old(self)@),
        ensures
            jitter_wf(final(self)@),
            receive_spec(
                old(self)@,
                packet@,
                send_time_ms,
                now_ms,
                tick_length_ms,
                final(self)@,
                r,
            ),
    {
        let latency = now_ms.saturating_sub(send_time_ms);
        if latency > LATENCY_DISCARD_THRESHOLD_MS {
            return Arrival::Stale;
        }
        let ghost pre = self@;
        if self.samples.len() >= LATENCY_SAMPLES {
            self.samples.remove(0);
        }
        self.samples.push(latency);
        assert(self.samples@ =~= push_sample(pre.samples, latency));
        let sum = sum_counts(&self.samples);
        proof {
            lemma_samples_sum_bound(self.samples@);
        }
        self.smoothed = (sum / self.samples.len() as u128) as u64;
        let count = self.buckets.len() as u32;
        proof {
            lemma_bucket_is_first_window(latency, self.smoothed, tick_length_ms, count);
        }
        match assign_bucket(latency, self.smoothed, tick_length_ms, count) {
            Some(i) => {
                let mut b = self.buckets.remove(i as usize);
                b.push(packet);
                self.buckets.insert(i as usize, b);
                proof {
                    assert(views(b@) =~= pre.buckets[i as int].push(packet@));
                    assert(self@.buckets =~= pre.buckets.update(
                        i as int,
                        pre.buckets[i as int].push(packet@),
                    ));
                }
                self.tick_hits = self.tick_hits.saturating_add(1);
                Arrival::Accepted(i)
            },
            None => {
                self.tick_misses = self.tick_misses.saturating_add(1);
                Arrival::Missed
            },
        }
    }

    /// Puts a packet into the bucket drained next.
    pub fn push_current(&mut self, packet: Vec<u8>)
        requires
            jitter_wf(old(self)@),
        ensures
            jitter_wf(final(self)@),
            final(self)@ == (JitterModel {
                buckets: old(self)@.buckets.update(0, old(self)@.buckets[0].push(packet@)),
                ..old(self)@
            }),
    {
        let ghost pre = self@;
        let mut b = self.buckets.remove(0);
        b.push(packet);
        self.buckets.insert(0, b);
        assert(views(b@) =~= pre.buckets[0].push(packet@));
        assert(self@.buckets =~= pre.buckets.update(0, pre.buckets[0].push(packet@)));
    }

    /// Closes the tick's hit and miss counts. A tick with neither leaves the
    /// history alone. Otherwise both counts join the history, and when the
    /// history calls for it one empty bucket is added and the history
    /// starts over. The bucket count never goes down.
    pub fn end_tick(&mut self)
        requires
            jitter_wf(old(self)@),
        ensures
            jitter_wf(final(self)@),
            final(self)@.buckets.len() >= old(self)@.buckets.len(),
            final(self)@ == after_end_tick(old(self)@),
    {
        let ghost pre = self@;
        if self.tick_hits == 0 && self.tick_misses == 0 {
            return ;
        }
        self.hits.push(self.tick_hits);
        self.misses.push(self.tick_misses);
        if self.hits.len() > HISTORY_LENGTH {
            self.hits.remove(0);
        }
        if self.misses.len() > HISTORY_LENGTH {
            self.misses.remove(0);
        }
        assert(self.hits@ =~= push_history(pre.hits, pre.tick_hits));
        assert(self.misses@ =~= push_history(pre.misses, pre.tick_misses));
        self.tick_hits = 0;
        self.tick_misses = 0;
        let hit_sum = sum_counts(&self.hits);
        let miss_sum = sum_counts(&self.misses);
        if self.misses.len() >= HISTORY_LENGTH / 2 && MISS_RATE_DIVISOR * miss_sum > hit_sum
            + miss_sum && self.buckets.len() < u32::MAX as usize {
            let fresh: Vec<Vec<u8>> = Vec::new();
            assert(views(fresh@) =~= Seq::<Seq<u8>>::empty());
            self.buckets.push(fresh);
            self.hits = Vec::new();
            self.misses = Vec::new();
            assert(self@.buckets =~= pre.buckets.push(Seq::empty()));
            assert(self@.hits =~= Seq::<u64>::empty());
            assert(self@.misses =~= Seq::<u64>::empty());
        }
    }

    /// Drains the oldest bucket: returns its packets, removes it and appends
    /// a fresh empty bucket.
    pub fn drain_oldest(&mut self) -> (r: Vec<Vec<u8>>)
        requires
            jitter_wf(old(self)@),
        ensures
            jitter_wf(final(self)@),
            views(r@) == old(self)@.buckets[0],
            final(self)@ == after_drain(old(self)@),
    {
        let ghost pre = self@;
        let r = self.buckets.remove(0);
        let fresh: Vec<Vec<u8>> = Vec::new();
        assert(views(fresh@) =~= Seq::<Seq<u8>>::empty());
        self.buckets.push(fresh);
        assert(self@.buckets =~= pre.buckets.drop_first().push(Seq::empty()));
        r
    }
}

} // verus!
