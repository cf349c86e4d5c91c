//! Fragmentation: a packet too large for one datagram is sent as a chunk
//! count followed by the chunks, and put back together on arrival.
use crate::wire::{le_bytes, le_value, read_le, write_le, HEADER_LEN};
use vstd::arithmetic::power2::{lemma2_to64, lemma2_to64_rest};
use vstd::prelude::*;

verus! {

/// The largest datagram sent whole, in bytes.
pub const PACKET_SPLIT_THRESHOLD: usize = 600;

/// The contents of a list of buffers.
pub open spec fn views(v: Seq<Vec<u8>>) -> Seq<Seq<u8>> {
    v.map_values(|b: Vec<u8>| b@)
}

/// Byte strings joined end to end.
pub open spec fn concat(cs: Seq<Seq<u8>>) -> Seq<u8>
    decreases cs.len(),
{
    if cs.len() == 0 {
        Seq::empty()
    } else {
        cs[0] + concat(cs.drop_first())
    }
}

/// A byte string cut into pieces of `size` bytes; the last may be shorter.
pub open spec fn split_spec(p: Seq<u8>, size: nat) -> Seq<Seq<u8>>
    recommends
        size > 0,
    decreases p.len(),
{
    if p.len() == 0 || size == 0 {
        Seq::empty()
    } else if p.len() <= size {
        seq![p]
    } else {
        seq![p.subrange(0, size as int)] + split_spec(p.subrange(size as int, p.len() as int), size)
    }
}

/// A datagram of this many payload bytes is sent in fragments.
pub open spec fn needs_split_spec(payload_len: nat, threshold: nat) -> bool {
    payload_len + HEADER_LEN > threshold
}

pub proof fn lemma_concat_split(p: Seq<u8>, size: nat)
    requires
        size > 0,
    ensures
        concat(split_spec(p, size)) == p,
    decreases p.len(),
{
    if p.len() == 0 {
        assert(concat(split_spec(p, size)) =~= p);
    } else if p.len() <= size {
        assert(split_spec(p, size).drop_first() =~= Seq::<Seq<u8>>::empty());
        assert(concat(Seq::<Seq<u8>>::empty()) =~= Seq::<u8>::empty());
        assert(concat(split_spec(p, size)) == p + concat(Seq::<Seq<u8>>::empty()));
        assert(concat(split_spec(p, size)) =~= p);
    } else {
        let rest = p.subrange(size as int, p.len() as int);
        lemma_concat_split(rest, size);
        assert(split_spec(p, size).drop_first() =~= split_spec(rest, size));
        assert(p.subrange(0, size as int) + rest =~= p);
    }
}

pub proof fn lemma_split_count(p: Seq<u8>, size: nat)
    requires
        size > 0,
    ensures
        split_spec(p, size).len() <= p.len(),
        p.len() > 0 ==> split_spec(p, size).len() >= 1,
    decreases p.len(),
{
    if p.len() > size {
        lemma_split_count(p.subrange(size as int, p.len() as int), size);
    }
}

proof fn lemma_concat_push(cs: Seq<Seq<u8>>, c: Seq<u8>)
    ensures
        concat(cs.push(c)) == concat(cs) + c,
    decreases cs.len(),
{
    if cs.len() == 0 {
        assert(cs.push(c).drop_first() =~= Seq::<Seq<u8>>::empty());
        assert(concat(Seq::<Seq<u8>>::empty()) =~= Seq::<u8>::empty());
        assert(concat(cs.push(c)) == c + concat(Seq::<Seq<u8>>::empty()));
        assert(concat(cs.push(c)) =~= c);
        assert(concat(cs) + c =~= c);
    } else {
        lemma_concat_push(cs.drop_first(), c);
        assert(cs.push(c).drop_first() =~= cs.drop_first().push(c));
        assert(concat(cs.push(c)) =~= concat(cs) + c);
    }
}

/// Whether a payload of this length must be fragmented.
pub fn needs_split(payload_len: usize, threshold: usize) -> (r: bool)
    ensures
        r == needs_split_spec(payload_len as nat, threshold as nat),
{
    payload_len as u128 + HEADER_LEN as u128 > threshold as u128
}

/// Cuts a packet into chunks of `size` bytes.
pub fn split_packet(packet: &Vec<u8>, size: usize) -> (r: Vec<Vec<u8>>)
    requires
        size > 0,
    ensures
        views(r@) == split_spec(packet@, size as nat),
{
    let len = packet.len();
    let mut r: Vec<Vec<u8>> = Vec::new();
    let mut start: usize = 0;
    assert(packet@.subrange(0, len as int) =~= packet@);
    while start < len
        invariant
            size > 0,
            len == packet@.len(),
            start <= len,
            views(r@) + split_spec(packet@.subrange(start as int, len as int), size as nat)
                == split_spec(packet@, size as nat),
        decreases len - start,
    {
        let end = if len - start > size {
            start + size
        } else {
            len
        };
        let mut chunk: Vec<u8> = Vec::new();
        let mut i: usize = start;
        while i < end
            invariant
                start <= i <= end <= len == packet@.len(),
                chunk@ == packet@.subrange(start as int, i as int),
            decreases end - i,
        {
            chunk.push(packet[i]);
            i = i + 1;
            assert(chunk@ =~= packet@.subrange(start as int, i as int));
        }
        let ghost rest = packet@.subrange(start as int, len as int);
        proof {
            assert(rest.subrange(0, (end - start) as int) =~= chunk@);
            if end < len {
                assert(rest.subrange(size as int, rest.len() as int) =~= packet@.subrange(
                    end as int,
                    len as int,
                ));
            }
            if end == len {
                assert(packet@.subrange(end as int, len as int) =~= Seq::<u8>::empty());
                assert(rest =~= chunk@);
            }
        }
        let ghost before = views(r@);
        r.push(chunk);
        proof {
            assert(views(r@) =~= before.push(chunk@));
        }
        start = end;
        proof {
            assert(views(r@) + split_spec(packet@.subrange(start as int, len as int), size as nat)
                =~= split_spec(packet@, size as nat));
        }
    }
    assert(split_spec(packet@.subrange(len as int, len as int), size as nat) =~= Seq::<
        Seq<u8>,
    >::empty());
    assert(views(r@) =~= split_spec(packet@, size as nat));
    r
}

/// The payload that announces how many chunks follow.
pub fn announce(count: u64) -> (r: Vec<u8>)
    ensures
        r@ == le_bytes(count as nat, 8),
{
    let mut r: Vec<u8> = Vec::new();
    write_le(&mut r, count, 8);
    assert(Seq::<u8>::empty() + le_bytes(count as nat, 8) =~= le_bytes(count as nat, 8));
    r
}

/// The payloads that carry an oversized datagram on the fragment channel:
/// the chunk count, then the chunks.
pub open spec fn fragments_spec(packet: Seq<u8>, threshold: nat) -> Seq<Seq<u8>> {
    let chunks = split_spec(packet, (threshold - HEADER_LEN) as nat);
    seq![le_bytes(chunks.len(), 8)] + chunks
}

/// Splits a whole datagram (header included) into the fragment channel's
/// payloads: a chunk count, then chunks that each fit under the threshold
/// once their own header is added.
pub fn fragment(packet: &Vec<u8>, threshold: usize) -> (r: Vec<Vec<u8>>)
    requires
        threshold > HEADER_LEN,
    ensures
        views(r@) == fragments_spec(packet@, threshold as nat),
        r@.len() >= 1,
{
    let chunks = split_packet(packet, threshold - HEADER_LEN);
    proof {
        lemma_split_count(packet@, (threshold - HEADER_LEN) as nat);
        assert(chunks@.len() == views(chunks@).len());
    }
    let mut chunks = chunks;
    let mut r: Vec<Vec<u8>> = Vec::new();
    r.push(announce(chunks.len() as u64));
    r.append(&mut chunks);
    assert(views(r@) =~= fragments_spec(packet@, threshold as nat));
    r
}

/// Puts fragmented datagrams back together, fed with the fragment
/// channel's payloads in sequence order.
pub struct Reassembler {
    remaining: u64,
    chunks: Vec<Vec<u8>>,
}

/// The model of a reassembler: chunks still owed, and those received.
pub struct ReassemblyModel {
    pub remaining: u64,
    pub chunks: Seq<Seq<u8>>,
}

impl View for Reassembler {
    type V = ReassemblyModel;

    closed spec fn view(&self) -> ReassemblyModel {
        ReassemblyModel { remaining: self.remaining, chunks: views(self.chunks@) }
    }
}

/// A reassembler between packets: nothing owed, nothing held.
pub open spec fn idle_reassembly() -> ReassemblyModel {
    ReassemblyModel { remaining: 0, chunks: Seq::empty() }
}

/// One payload of the fragment channel. Between packets a payload is a
/// chunk count (one shorter than eight bytes is dropped); otherwise it is
/// the next chunk, and the last chunk completes the datagram.
pub open spec fn accept_spec(pre: ReassemblyModel, payload: Seq<u8>) -> (
    ReassemblyModel,
    Option<Seq<u8>>,
) {
    if pre.remaining == 0 {
        if payload.len() < 8 {
            (pre, None)
        } else {
            (
                ReassemblyModel {
                    remaining: le_value(payload.subrange(0, 8)) as u64,
                    chunks: Seq::empty(),
                },
                None,
            )
        }
    } else if pre.remaining == 1 {
        (idle_reassembly(), Some(concat(pre.chunks.push(payload))))
    } else {
        (
            ReassemblyModel {
                remaining: (pre.remaining - 1) as u64,
                chunks: pre.chunks.push(payload),
            },
            None,
        )
    }
}

/// Feeding payloads one after another: the final state and what each
/// payload completed.
pub open spec fn feed(pre: ReassemblyModel, inputs: Seq<Seq<u8>>) -> (
    ReassemblyModel,
    Seq<Option<Seq<u8>>>,
)
    decreases inputs.len(),
{
    if inputs.len() == 0 {
        (pre, Seq::empty())
    } else {
        let (mid, o) = accept_spec(pre, inputs[0]);
        let (post, os) = feed(mid, inputs.drop_first());
        (post, seq![o] + os)
    }
}

/// Feeding one more payload continues from where the others left off.
pub proof fn lemma_feed_push(pre: ReassemblyModel, xs: Seq<Seq<u8>>, x: Seq<u8>)
    ensures
        feed(pre, xs.push(x)).0 == accept_spec(feed(pre, xs).0, x).0,
        feed(pre, xs.push(x)).1 == feed(pre, xs).1.push(accept_spec(feed(pre, xs).0, x).1),
    decreases xs.len(),
{
    if xs.len() == 0 {
        assert(xs.push(x).drop_first() =~= Seq::<Seq<u8>>::empty());
        assert(xs.push(x)[0] == x);
        let (mid, o) = accept_spec(pre, x);
        assert(feed(mid, Seq::<Seq<u8>>::empty()).0 == mid);
        assert(feed(pre, xs) == (pre, Seq::<Option<Seq<u8>>>::empty()));
        assert(seq![o] + Seq::<Option<Seq<u8>>>::empty() =~= Seq::<Option<Seq<u8>>>::empty().push(
            o,
        ));
    } else {
        let (mid, o) = accept_spec(pre, xs[0]);
        assert(xs.push(x)[0] == xs[0]);
        assert(xs.push(x).drop_first() =~= xs.drop_first().push(x));
        lemma_feed_push(mid, xs.drop_first(), x);
        let rest = feed(mid, xs.drop_first()).1;
        let y = accept_spec(feed(mid, xs.drop_first()).0, x).1;
        assert(seq![o] + rest.push(y) =~= (seq![o] + rest).push(y));
    }
}

/// Joins buffers end to end.
fn concat_all(cs: &Vec<Vec<u8>>) -> (r: Vec<u8>)
    ensures
        r@ == concat(views(cs@)),
{
    let mut r: Vec<u8> = Vec::new();
    let mut i: usize = 0;
    assert(views(cs@).subrange(0, 0) =~= Seq::<Seq<u8>>::empty());
    while i < cs.len()
        invariant
            i <= cs@.len(),
            r@ == concat(views(cs@).subrange(0, i as int)),
        decreases cs@.len() - i,
    {
        let c = &cs[i];
        let ghost before = r@;
        let mut j: usize = 0;
        while j < c.len()
            invariant
                j <= c@.len(),
                r@ == before + c@.subrange(0, j as int),
            decreases c@.len() - j,
        {
            r.push(c[j]);
            j = j + 1;
            assert(r@ =~= before + c@.subrange(0, j as int));
        }
        proof {
            lemma_concat_push(views(cs@).subrange(0, i as int), c@);
            assert(views(cs@).subrange(0, i as int).push(c@) =~= views(cs@).subrange(
                0,
                i + 1,
            ));
            assert(c@.subrange(0, c@.len() as int) =~= c@);
        }
        i = i + 1;
    }
    assert(views(cs@).subrange(0, cs@.len() as int) =~= views(cs@));
    r
}

impl Reassembler {
    pub fn new() -> (r: Reassembler)
        ensures
            r@ == idle_reassembly(),
    {
        let r = Reassembler { remaining: 0, chunks: Vec::new() };
        assert(r@.chunks =~= Seq::<Seq<u8>>::empty());
        r
    }

    /// Takes the next payload of the fragment channel; returns the whole
    /// datagram once its last chunk is in.
    pub fn accept(&mut self, payload: Vec<u8>) -> (r: Option<Vec<u8>>)
        ensures
            (final(self)@, match r {
                Some(v) => Some(v@),
                None => None,
            }) == accept_spec(old(self)@, payload@),
    {
        if self.remaining == 0 {
            if payload.len() < 8 {
                return None;
            }
            self.remaining = read_le(&payload, 0, 8);
            self.chunks = Vec::new();
            assert(self@.chunks =~= Seq::<Seq<u8>>::empty());
            return None;
        }
        let ghost pre = self@;
        self.chunks.push(payload);
        assert(views(self.chunks@) =~= pre.chunks.push(payload@));
        self.remaining = self.remaining - 1;
        if self.remaining == 0 {
            let whole = concat_all(&self.chunks);
            self.chunks = Vec::new();
            assert(self@.chunks =~= Seq::<Seq<u8>>::empty());
            Some(whole)
        } else {
            None
        }
    }
}

/// Once a chunk count is in, feeding exactly that many chunks yields the
/// chunks joined, on the last one, and nothing before it.
proof fn lemma_feed_chunks(acc: Seq<Seq<u8>>, rest: Seq<Seq<u8>>)
    requires
        1 <= rest.len() < 0x1_0000_0000_0000_0000,
    ensures
        feed(ReassemblyModel { remaining: rest.len() as u64, chunks: acc }, rest) == (
            idle_reassembly(),
            Seq::new(
                rest.len(),
                |i: int|
                    if i == rest.len() - 1 {
                        Some(concat(acc + rest))
                    } else {
                        None
                    },
            ),
        ),
    decreases rest.len(),
{
    let pre = ReassemblyModel { remaining: rest.len() as u64, chunks: acc };
    let (mid, o) = accept_spec(pre, rest[0]);
    if rest.len() == 1 {
        assert(acc.push(rest[0]) =~= acc + rest);
        assert(rest.drop_first() =~= Seq::<Seq<u8>>::empty());
        let (post, os) = feed(mid, rest.drop_first());
        assert(seq![o] + os =~= Seq::new(
            rest.len(),
            |i: int|
                if i == rest.len() - 1 {
                    Some(concat(acc + rest))
                } else {
                    None
                },
        ));
    } else {
        lemma_feed_chunks(acc.push(rest[0]), rest.drop_first());
        assert(acc.push(rest[0]) + rest.drop_first() =~= acc + rest);
        let (post, os) = feed(mid, rest.drop_first());
        assert(seq![o] + os =~= Seq::new(
            rest.len(),
            |i: int|
                if i == rest.len() - 1 {
                    Some(concat(acc + rest))
                } else {
                    None
                },
        ));
    }
}

/// Fragmentation round trip: the payloads that `fragment` makes of a
/// nonempty datagram, fed to an idle reassembler, give back exactly that
/// datagram on the last chunk, nothing before it, and leave the reassembler
/// idle; and there is at least one chunk.
pub proof fn lemma_fragment_round_trip(packet: Seq<u8>, threshold: nat)
    requires
        threshold > HEADER_LEN,
        1 <= packet.len() < 0x1_0000_0000_0000_0000,
    ensures
        split_spec(packet, (threshold - HEADER_LEN) as nat).len() >= 1,
        feed(idle_reassembly(), fragments_spec(packet, threshold)) == (
            idle_reassembly(),
            Seq::new(
                fragments_spec(packet, threshold).len(),
                |i: int|
                    if i == fragments_spec(packet, threshold).len() - 1 {
                        Some(packet)
                    } else {
                        None
                    },
            ),
        ),
{
    let size = (threshold - HEADER_LEN) as nat;
    let chunks = split_spec(packet, size);
    let n = chunks.len();
    lemma_split_count(packet, size);
    lemma_concat_split(packet, size);
    let inputs = fragments_spec(packet, threshold);
    crate::wire::lemma_le_bytes_len(n, 8);
    lemma2_to64();
    lemma2_to64_rest();
    crate::wire::lemma_le_round_trip(n, 8);
    assert(le_bytes(n, 8).subrange(0, 8) =~= le_bytes(n, 8));
    let (mid, o) = accept_spec(idle_reassembly(), inputs[0]);
    assert(mid == ReassemblyModel { remaining: n as u64, chunks: Seq::<Seq<u8>>::empty() });
    assert(inputs.drop_first() =~= chunks);
    lemma_feed_chunks(Seq::empty(), chunks);
    assert(Seq::<Seq<u8>>::empty() + chunks =~= chunks);
    let (post, os) = feed(mid, chunks);
    assert(seq![o] + os =~= Seq::new(
        inputs.len(),
        |i: int|
            if i == inputs.len() - 1 {
                Some(packet)
            } else {
                None
            },
    ));
}

} // verus!
