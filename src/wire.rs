//! The datagram header: a 16-bit channel id, then (on every channel but the
//! ack channel) a 64-bit sequence number, then the payload; all little-endian.
use vstd::arithmetic::power2::{lemma2_to64, lemma_pow2_adds, pow2};
use vstd::prelude::*;

verus! {

/// Live entity state: unreliable, jitter-buffered.
pub const CHANNEL_STATE: u16 = 1;

/// The initial full sync: reliable, unordered.
pub const CHANNEL_SYNC: u16 = 2;

/// Application messages: reliable, ordered.
pub const CHANNEL_MESSAGE: u16 = 3;

/// Fragments of oversized packets: reliable, ordered.
pub const CHANNEL_FRAGMENT: u16 = 4;

/// Encoded voice frames: unreliable.
pub const CHANNEL_VOICE: u16 = 5;

/// The identity a server assigns to a client.
pub const CHANNEL_CLIENT_ID: u16 = 0xfffe;

/// Acknowledgements; the only channel without a sequence number.
pub const CHANNEL_ACK: u16 = 0xffff;

/// The size of a header with a sequence number, in bytes.
pub const HEADER_LEN: usize = 10;

/// The size of one acknowledgement record, in bytes.
pub const ACK_RECORD_LEN: usize = 10;

/// Why a datagram could not be read.
#[derive(Clone, Copy, Debug, PartialEq, Eq, Structural)]
pub enum WireError {
    /// Shorter than its header.
    MalformedPacket,
}

/// A datagram taken apart.
#[derive(Clone, Debug, PartialEq, Eq)]
pub struct Datagram {
    pub channel: u16,
    pub sequence: Option<u64>,
    pub payload: Vec<u8>,
}

/// The `n` low bytes of `x`, least significant first.
pub open spec fn le_bytes(x: nat, n: nat) -> Seq<u8>
    decreases n,
{
    if n == 0 {
        Seq::empty()
    } else {
        seq![(x % 256) as u8] + le_bytes(x / 256, (n - 1) as nat)
    }
}

/// The number that little-endian bytes hold.
pub open spec fn le_value(s: Seq<u8>) -> nat
    decreases s.len(),
{
    if s.len() == 0 {
        0
    } else {
        s[0] as nat + 256 * le_value(s.drop_first())
    }
}

/// The header of a datagram on `channel`.
pub open spec fn header_bytes(channel: u16, sequence: Option<u64>) -> Seq<u8> {
    le_bytes(channel as nat, 2) + match sequence {
        Some(s) => le_bytes(s as nat, 8),
        None => Seq::empty(),
    }
}

/// A datagram's channel, sequence number and payload, or why it cannot be read.
pub open spec fn parse_datagram(s: Seq<u8>) -> Result<(u16, Option<u64>, Seq<u8>), WireError> {
    if s.len() < 2 {
        Err(WireError::MalformedPacket)
    } else if le_value(s.subrange(0, 2)) == CHANNEL_ACK {
        Ok((CHANNEL_ACK, None, s.subrange(2, s.len() as int)))
    } else if s.len() < 10 {
        Err(WireError::MalformedPacket)
    } else {
        Ok(
            (
                le_value(s.subrange(0, 2)) as u16,
                Some(le_value(s.subrange(2, 10)) as u64),
                s.subrange(10, s.len() as int),
            ),
        )
    }
}

impl View for Datagram {
    type V = (u16, Option<u64>, Seq<u8>);

    open spec fn view(&self) -> (u16, Option<u64>, Seq<u8>) {
        (self.channel, self.sequence, self.payload@)
    }
}

pub proof fn lemma_le_bytes_len(x: nat, n: nat)
    ensures
        #[trigger] le_bytes(x, n).len() == n,
    decreases n,
{
    if n > 0 {
        lemma_le_bytes_len(x / 256, (n - 1) as nat);
    }
}

pub proof fn lemma_le_value_bound(s: Seq<u8>)
    ensures
        le_value(s) < pow2(8 * s.len()),
    decreases s.len(),
{
    lemma2_to64();
    if s.len() > 0 {
        lemma_le_value_bound(s.drop_first());
        lemma_pow2_adds(8, 8 * (s.len() - 1) as nat);
        assert(8 * s.len() == 8 + 8 * (s.len() - 1));
    }
}

/// Writing the `n` low bytes of a number and reading them back gives the number.
pub proof fn lemma_le_round_trip(x: nat, n: nat)
    requires
        x < pow2(8 * n),
    ensures
        le_value(le_bytes(x, n)) == x,
    decreases n,
{
    lemma2_to64();
    if n > 0 {
        lemma_pow2_adds(8, 8 * (n - 1) as nat);
        assert(8 * n == 8 + 8 * (n - 1));
        let p = pow2(8 * (n - 1) as nat);
        assert(x / 256 < p) by (nonlinear_arith)
            requires
                x < 256 * p,
        ;
        lemma_le_round_trip(x / 256, (n - 1) as nat);
        assert(le_bytes(x, n).drop_first() =~= le_bytes(x / 256, (n - 1) as nat));
    }
}

proof fn lemma_le_value_step(s: Seq<u8>, lo: int, hi: int)
    requires
        0 <= lo < hi <= s.len(),
    ensures
        le_value(s.subrange(lo, hi)) == s[lo] as nat + 256 * le_value(s.subrange(lo + 1, hi)),
{
    assert(s.subrange(lo, hi).drop_first() =~= s.subrange(lo + 1, hi));
}

/// Reads `n` little-endian bytes from `pos` on.
pub fn read_le(b: &Vec<u8>, pos: usize, n: usize) -> (r: u64)
    requires
        n <= 8,
        pos + n <= b@.len(),
    ensures
        r == le_value(b@.subrange(pos as int, pos + n)),
{
    let len = b.len();
    let mut acc: u64 = 0;
    let mut i: usize = n;
    proof {
        lemma2_to64();
        assert(b@.subrange(pos + n, pos + n) =~= Seq::<u8>::empty());
    }
    while i > 0
        invariant
            i <= n <= 8,
            pos + n <= b@.len() == len,
            acc == le_value(b@.subrange(pos + i, pos + n)),
            acc < pow2((8 * (n - i)) as nat),
        decreases i,
    {
        i = i - 1;
        let ghost e = (8 * (n - i - 1)) as nat;
        proof {
            lemma_le_value_step(b@, pos + i, pos + n);
            lemma_pow2_adds(8, e);
            lemma2_to64();
            assert((8 * (n - i)) as nat == 8 + e);
            vstd::arithmetic::power2::lemma2_to64_rest();
            if e < 56 {
                vstd::arithmetic::power2::lemma_pow2_strictly_increases(e, 56);
            }
            assert(pow2(8 + e) == 256 * pow2(e));
        }
        acc = acc * 256 + b[pos + i] as u64;
    }
    acc
}

/// Appends the `n` low bytes of `x`, least significant first.
pub fn write_le(out: &mut Vec<u8>, x: u64, n: usize)
    ensures
        final(out)@ == old(out)@ + le_bytes(x as nat, n as nat),
{
    let mut y: u64 = x;
    let mut i: usize = 0;
    while i < n
        invariant
            i <= n,
            out@ + le_bytes(y as nat, (n - i) as nat) == old(out)@ + le_bytes(x as nat, n as nat),
        decreases n - i,
    {
        let ghost rest = le_bytes(y as nat / 256, (n - i - 1) as nat);
        proof {
            assert(out@.push((y % 256) as u8) + rest =~= out@ + (seq![(y % 256) as u8] + rest));
        }
        out.push((y % 256) as u8);
        y = y / 256;
        i = i + 1;
    }
    proof {
        assert(out@ + le_bytes(y as nat, 0) =~= out@);
    }
}

/// Builds a datagram: the header, then the payload.
pub fn encode_datagram(channel: u16, sequence: Option<u64>, payload: &Vec<u8>) -> (r: Vec<u8>)
    ensures
        r@ == header_bytes(channel, sequence) + payload@,
{
    let mut r: Vec<u8> = Vec::new();
    write_le(&mut r, channel as u64, 2);
    match sequence {
        Some(s) => write_le(&mut r, s, 8),
        None => {},
    }
    let mut i: usize = 0;
    let ghost head = r@;
    assert(head =~= header_bytes(channel, sequence));
    while i < payload.len()
        invariant
            i <= payload@.len(),
            r@ == head + payload@.subrange(0, i as int),
        decreases payload@.len() - i,
    {
        r.push(payload[i]);
        i = i + 1;
        assert(r@ =~= head + payload@.subrange(0, i as int));
    }
    assert(payload@.subrange(0, payload@.len() as int) =~= payload@);
    r
}

/// The bytes of `b` from `from` on.
pub fn tail_of(b: &Vec<u8>, from: usize) -> (r: Vec<u8>)
    requires
        from <= b@.len(),
    ensures
        r@ == b@.subrange(from as int, b@.len() as int),
{
    let mut r: Vec<u8> = Vec::new();
    let mut i: usize = from;
    while i < b.len()
        invariant
            from <= i <= b@.len(),
            r@ == b@.subrange(from as int, i as int),
        decreases b@.len() - i,
    {
        r.push(b[i]);
        i = i + 1;
        assert(r@ =~= b@.subrange(from as int, i as int));
    }
    r
}

/// Takes a datagram apart. Fails with `MalformedPacket` when it is shorter
/// than its header.
pub fn decode_datagram(bytes: &Vec<u8>) -> (r: Result<Datagram, WireError>)
    ensures
        match parse_datagram(bytes@) {
            Ok(d) => r is Ok && r->Ok_0@ == d,
            Err(e) => r == Err::<Datagram, WireError>(e),
        },
{
    if bytes.len() < 2 {
        return Err(WireError::MalformedPacket);
    }
    let channel = read_le(bytes, 0, 2);
    proof {
        lemma_le_value_bound(bytes@.subrange(0, 2));
        lemma2_to64();
    }
    if channel == CHANNEL_ACK as u64 {
        return Ok(Datagram { channel: CHANNEL_ACK, sequence: None, payload: tail_of(bytes, 2) });
    }
    if bytes.len() < HEADER_LEN {
        return Err(WireError::MalformedPacket);
    }
    let sequence = read_le(bytes, 2, 8);
    Ok(Datagram { channel: channel as u16, sequence: Some(sequence), payload: tail_of(bytes, 10) })
}

/// A datagram built by `encode_datagram` reads back as the channel, sequence
/// number and payload it was built from.
pub proof fn lemma_datagram_round_trip(channel: u16, sequence: Option<u64>, payload: Seq<u8>)
    requires
        (channel == CHANNEL_ACK) == (sequence is None),
    ensures
        parse_datagram(header_bytes(channel, sequence) + payload) == Ok::<
            (u16, Option<u64>, Seq<u8>),
            WireError,
        >((channel, sequence, payload)),
{
    let s = header_bytes(channel, sequence) + payload;
    lemma2_to64();
    vstd::arithmetic::power2::lemma2_to64_rest();
    lemma_le_bytes_len(channel as nat, 2);
    assert(s.subrange(0, 2) =~= le_bytes(channel as nat, 2));
    lemma_le_round_trip(channel as nat, 2);
    match sequence {
        Some(q) => {
            lemma_le_bytes_len(q as nat, 8);
            assert(s.subrange(2, 10) =~= le_bytes(q as nat, 8));
            lemma_le_round_trip(q as nat, 8);
            assert(s.subrange(10, s.len() as int) =~= payload);
        },
        None => {
            assert(s.subrange(2, s.len() as int) =~= payload);
        },
    }
}

/// One acknowledgement: the channel, then the sequence number.
pub open spec fn ack_record(a: (u16, u64)) -> Seq<u8> {
    le_bytes(a.0 as nat, 2) + le_bytes(a.1 as nat, 8)
}

/// The payload of an ack datagram: one record after another.
pub open spec fn ack_bytes(l: Seq<(u16, u64)>) -> Seq<u8>
    decreases l.len(),
{
    if l.len() == 0 {
        Seq::empty()
    } else {
        ack_bytes(l.drop_last()) + ack_record(l.last())
    }
}

/// The acknowledgements an ack payload holds; a partial record at the end
/// is ignored.
pub open spec fn parse_acks(s: Seq<u8>) -> Seq<(u16, u64)> {
    Seq::new(
        s.len() / 10,
        |k: int|
            (
                le_value(s.subrange(10 * k, 10 * k + 2)) as u16,
                le_value(s.subrange(10 * k + 2, 10 * k + 10)) as u64,
            ),
    )
}

proof fn lemma_ack_bytes_chunk(l: Seq<(u16, u64)>, k: int)
    requires
        0 <= k < l.len(),
    ensures
        ack_bytes(l).len() == 10 * l.len(),
        ack_bytes(l).subrange(10 * k, 10 * k + 10) == ack_record(l[k]),
    decreases l.len(),
{
    lemma_ack_bytes_len(l);
    lemma_ack_bytes_len(l.drop_last());
    lemma_le_bytes_len(l.last().0 as nat, 2);
    lemma_le_bytes_len(l.last().1 as nat, 8);
    let front = ack_bytes(l.drop_last());
    let back = ack_record(l.last());
    if k == l.len() - 1 {
        assert((front + back).subrange(10 * k, 10 * k + 10) =~= back);
    } else {
        lemma_ack_bytes_chunk(l.drop_last(), k);
        assert((front + back).subrange(10 * k, 10 * k + 10) =~= front.subrange(
            10 * k,
            10 * k + 10,
        ));
    }
}

proof fn lemma_ack_bytes_len(l: Seq<(u16, u64)>)
    ensures
        ack_bytes(l).len() == 10 * l.len(),
    decreases l.len(),
{
    if l.len() > 0 {
        lemma_ack_bytes_len(l.drop_last());
        lemma_le_bytes_len(l.last().0 as nat, 2);
        lemma_le_bytes_len(l.last().1 as nat, 8);
    }
}

/// An ack payload built from a list of acknowledgements reads back as that list.
pub proof fn lemma_acks_round_trip(l: Seq<(u16, u64)>)
    ensures
        parse_acks(ack_bytes(l)) == l,
{
    lemma_ack_bytes_len(l);
    lemma2_to64();
    vstd::arithmetic::power2::lemma2_to64_rest();
    let s = ack_bytes(l);
    assert forall|k: int| 0 <= k < l.len() implies #[trigger] parse_acks(s)[k] == l[k] by {
        lemma_ack_bytes_chunk(l, k);
        let r = ack_record(l[k]);
        lemma_le_bytes_len(l[k].0 as nat, 2);
        lemma_le_bytes_len(l[k].1 as nat, 8);
        assert(s.subrange(10 * k, 10 * k + 2) =~= r.subrange(0, 2));
        assert(r.subrange(0, 2) =~= le_bytes(l[k].0 as nat, 2));
        assert(s.subrange(10 * k + 2, 10 * k + 10) =~= r.subrange(2, 10));
        assert(r.subrange(2, 10) =~= le_bytes(l[k].1 as nat, 8));
        lemma_le_round_trip(l[k].0 as nat, 2);
        lemma_le_round_trip(l[k].1 as nat, 8);
    }
    assert(parse_acks(s) =~= l);
}

/// Builds the payload of an ack datagram.
pub fn encode_acks(acks: &Vec<(u16, u64)>) -> (r: Vec<u8>)
    ensures
        r@ == ack_bytes(acks@),
{
    let mut r: Vec<u8> = Vec::new();
    let mut i: usize = 0;
    assert(acks@.subrange(0, 0) =~= Seq::<(u16, u64)>::empty());
    while i < acks.len()
        invariant
            i <= acks@.len(),
            r@ == ack_bytes(acks@.subrange(0, i as int)),
        decreases acks@.len() - i,
    {
        let (c, q) = acks[i];
        write_le(&mut r, c as u64, 2);
        write_le(&mut r, q, 8);
        proof {
            assert(acks@.subrange(0, i + 1).drop_last() =~= acks@.subrange(0, i as int));
            assert(r@ =~= ack_bytes(acks@.subrange(0, i + 1)));
        }
        i = i + 1;
    }
    assert(acks@.subrange(0, acks@.len() as int) =~= acks@);
    r
}

/// Reads the acknowledgements of an ack payload.
pub fn decode_acks(payload: &Vec<u8>) -> (r: Vec<(u16, u64)>)
    ensures
        r@ == parse_acks(payload@),
{
    let len = payload.len();
    let n = len / ACK_RECORD_LEN;
    let mut r: Vec<(u16, u64)> = Vec::new();
    let mut k: usize = 0;
    while k < n
        invariant
            len == payload@.len(),
            n == payload@.len() / 10,
            k <= n,
            r@ =~= parse_acks(payload@).subrange(0, k as int),
        decreases n - k,
    {
        assert(10 * k + 10 <= payload@.len()) by (nonlinear_arith)
            requires
                k < n,
                n == payload@.len() / 10,
        ;
        let c = read_le(payload, 10 * k, 2);
        let q = read_le(payload, 10 * k + 2, 8);
        proof {
            lemma_le_value_bound(payload@.subrange(10 * k, 10 * k + 2));
            lemma2_to64();
        }
        r.push((c as u16, q));
        k = k + 1;
    }
    assert(parse_acks(payload@).subrange(0, n as int) =~= parse_acks(payload@));
    r
}

} // verus!
