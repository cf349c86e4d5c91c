//! Bit buffers: the little-endian, least-significant-bit-first layout that
//! every payload of the protocol is written in.
use bitvec::order::Lsb0;
use bitvec::vec::BitVec;
use vstd::arithmetic::power2::{lemma2_to64, lemma2_to64_rest, lemma_pow2_unfold, pow2};
use vstd::prelude::*;

verus! {

/// A growable buffer of bits, kept in a `bitvec` bit-vector. Verus does not
/// take `BitVec` as a declared type (its bounds are bitvec's own traits), so
/// the buffer holds it out of Verus's sight; `bits_of` names what it holds,
/// and the four methods below are the only ways in.
#[verifier::external_body]
pub struct Bits {
    inner: BitVec<u64, Lsb0>,
}

/// The bits held by a buffer, first bit first.
pub uninterp spec fn bits_of(b: Bits) -> Seq<bool>;

impl View for Bits {
    type V = Seq<bool>;

    open spec fn view(&self) -> Seq<bool> {
        bits_of(*self)
    }
}

impl Bits {
    /// Relies on `BitVec::new`: a new buffer holds no bits.
    #[verifier::external_body]
    pub fn new() -> (r: Bits)
        ensures
            bits_of(r) == Seq::<bool>::empty(),
    {
        Bits { inner: BitVec::new() }
    }

    /// Relies on `BitVec::push`: appends one bit; it panics only past
    /// `usize::MAX >> 3` bits.
    #[verifier::external_body]
    pub fn push(&mut self, bit: bool)
        requires
            old(self)@.len() < usize::MAX / 8,
        ensures
            bits_of(*final(self)) == bits_of(*old(self)).push(bit),
    {
        self.inner.push(bit)
    }

    /// Relies on `BitVec::len`: the number of bits held.
    #[verifier::external_body]
    pub fn len(&self) -> (r: usize)
        ensures
            r == bits_of(*self).len(),
    {
        self.inner.len()
    }

    /// Relies on indexing a `BitSlice` by position: the bit stored there.
    #[verifier::external_body]
    pub fn get(&self, i: usize) -> (r: bool)
        requires
            i < self@.len(),
        ensures
            r == bits_of(*self)[i as int],
    {
        self.inner[i]
    }
}

/// The largest number of bits a buffer may hold.
pub const MAX_BITS: usize = usize::MAX / 8;

/// One bit as a number.
pub open spec fn bit_value(b: bool) -> nat {
    if b {
        1
    } else {
        0
    }
}

/// The number that `s` holds, least significant bit first.
pub open spec fn bits_to_nat(s: Seq<bool>) -> nat
    decreases s.len(),
{
    if s.len() == 0 {
        0
    } else {
        bit_value(s[0]) + 2 * bits_to_nat(s.drop_first())
    }
}

/// The `n` lowest bits of `x`, least significant first.
pub open spec fn nat_to_bits(x: nat, n: nat) -> Seq<bool>
    decreases n,
{
    if n == 0 {
        Seq::empty()
    } else {
        seq![x % 2 == 1] + nat_to_bits(x / 2, (n - 1) as nat)
    }
}

/// The bits of a byte string: each byte in turn, least significant bit first.
pub open spec fn bytes_to_bits(b: Seq<u8>) -> Seq<bool>
    decreases b.len(),
{
    if b.len() == 0 {
        Seq::empty()
    } else {
        bytes_to_bits(b.drop_last()) + nat_to_bits(b.last() as nat, 8)
    }
}

/// The `n` bytes stored from bit `pos` on, eight bits each.
pub open spec fn bits_to_bytes(s: Seq<bool>, pos: int, n: nat) -> Seq<u8> {
    Seq::new(n, |k: int| bits_to_nat(s.subrange(pos + 8 * k, pos + 8 * k + 8)) as u8)
}

pub proof fn lemma_nat_to_bits_len(x: nat, n: nat)
    ensures
        #[trigger] nat_to_bits(x, n).len() == n,
    decreases n,
{
    if n > 0 {
        lemma_nat_to_bits_len(x / 2, (n - 1) as nat);
    }
}

pub proof fn lemma_bytes_to_bits_len(b: Seq<u8>)
    ensures
        #[trigger] bytes_to_bits(b).len() == 8 * b.len(),
    decreases b.len(),
{
    if b.len() > 0 {
        lemma_bytes_to_bits_len(b.drop_last());
        lemma_nat_to_bits_len(b.last() as nat, 8);
    }
}

/// A number held in `s` is below two to the length of `s`.
pub proof fn lemma_bits_to_nat_bound(s: Seq<bool>)
    ensures
        bits_to_nat(s) < pow2(s.len()),
    decreases s.len(),
{
    if s.len() == 0 {
        lemma2_to64();
    } else {
        lemma_bits_to_nat_bound(s.drop_first());
        lemma_pow2_unfold(s.len());
    }
}

/// Writing the `n` low bits of a number and reading them back gives the number.
pub proof fn lemma_bits_round_trip(x: nat, n: nat)
    requires
        x < pow2(n),
    ensures
        bits_to_nat(nat_to_bits(x, n)) == x,
    decreases n,
{
    if n == 0 {
        lemma2_to64();
    } else {
        lemma_pow2_unfold(n);
        lemma_bits_round_trip(x / 2, (n - 1) as nat);
        assert(nat_to_bits(x, n).drop_first() =~= nat_to_bits(x / 2, (n - 1) as nat));
    }
}

/// Peeling the first bit off a stretch of bits.
proof fn lemma_bits_to_nat_step(s: Seq<bool>, lo: int, hi: int)
    requires
        0 <= lo < hi <= s.len(),
    ensures
        bits_to_nat(s.subrange(lo, hi)) == bit_value(s[lo]) + 2 * bits_to_nat(
            s.subrange(lo + 1, hi),
        ),
{
    assert(s.subrange(lo, hi).drop_first() =~= s.subrange(lo + 1, hi));
}

/// Reads `width` bits from `pos` on as a little-endian number.
pub fn read_uint(b: &Bits, pos: usize, width: usize) -> (r: u64)
    requires
        width <= 64,
        pos + width <= b@.len(),
    ensures
        r == bits_to_nat(b@.subrange(pos as int, pos + width)),
{
    let len = b.len();
    let mut acc: u64 = 0;
    let mut i: usize = width;
    proof {
        lemma2_to64();
        assert(b@.subrange(pos + width, pos + width) =~= Seq::<bool>::empty());
    }
    while i > 0
        invariant
            i <= width <= 64,
            pos + width <= b@.len() == len,
            acc == bits_to_nat(b@.subrange(pos + i, pos + width)),
            acc < pow2((width - i) as nat),
        decreases i,
    {
        i = i - 1;
        let bit = b.get(pos + i);
        proof {
            lemma_bits_to_nat_step(b@, pos + i, pos + width);
            lemma_pow2_unfold((width - i) as nat);
            lemma2_to64();
            lemma2_to64_rest();
            if width - i - 1 < 63 {
                vstd::arithmetic::power2::lemma_pow2_strictly_increases(
                    (width - i - 1) as nat,
                    63,
                );
            }
        }
        acc = acc * 2 + if bit {
            1
        } else {
            0
        };
    }
    acc
}

/// Appends the `width` low bits of `v`, least significant first.
pub fn write_uint(b: &mut Bits, v: u64, width: usize)
    requires
        width <= 64,
        old(b)@.len() + width <= MAX_BITS,
    ensures
        final(b)@ == old(b)@ + nat_to_bits(v as nat, width as nat),
{
    let mut x: u64 = v;
    let mut i: usize = 0;
    while i < width
        invariant
            i <= width <= 64,
            b@.len() == old(b)@.len() + i,
            old(b)@.len() + width <= MAX_BITS,
            b@ + nat_to_bits(x as nat, (width - i) as nat) == old(b)@ + nat_to_bits(
                v as nat,
                width as nat,
            ),
        decreases width - i,
    {
        let ghost rest = nat_to_bits(x as nat / 2, (width - i - 1) as nat);
        proof {
            assert(nat_to_bits(x as nat, (width - i) as nat) == seq![x % 2 == 1] + rest);
            assert(b@.push(x % 2 == 1) + rest =~= b@ + (seq![x % 2 == 1] + rest));
        }
        b.push(x % 2 == 1);
        x = x / 2;
        i = i + 1;
    }
    proof {
        assert(b@ + nat_to_bits(x as nat, 0) =~= b@);
    }
}

/// The bits of byte `k` of a byte string are the eight bits at `8 * k`.
pub proof fn lemma_bytes_to_bits_chunk(b: Seq<u8>, k: int)
    requires
        0 <= k < b.len(),
    ensures
        bytes_to_bits(b).subrange(8 * k, 8 * k + 8) == nat_to_bits(b[k] as nat, 8),
    decreases b.len(),
{
    lemma_bytes_to_bits_len(b.drop_last());
    lemma_nat_to_bits_len(b.last() as nat, 8);
    let front = bytes_to_bits(b.drop_last());
    let back = nat_to_bits(b.last() as nat, 8);
    if k == b.len() - 1 {
        assert((front + back).subrange(8 * k, 8 * k + 8) =~= back);
    } else {
        lemma_bytes_to_bits_chunk(b.drop_last(), k);
        assert((front + back).subrange(8 * k, 8 * k + 8) =~= front.subrange(8 * k, 8 * k + 8));
    }
}

/// Bytes written as bits read back as the same bytes, wherever they stand.
pub proof fn lemma_bytes_round_trip(pre: Seq<bool>, b: Seq<u8>, post: Seq<bool>)
    ensures
        bits_to_bytes(pre + bytes_to_bits(b) + post, pre.len() as int, b.len()) == b,
{
    let s = pre + bytes_to_bits(b) + post;
    lemma_bytes_to_bits_len(b);
    assert forall|k: int| 0 <= k < b.len() implies #[trigger] bits_to_bytes(
        s,
        pre.len() as int,
        b.len(),
    )[k] == b[k] by {
        lemma_bytes_to_bits_chunk(b, k);
        assert(s.subrange(pre.len() + 8 * k, pre.len() + 8 * k + 8) =~= bytes_to_bits(b).subrange(
            8 * k,
            8 * k + 8,
        ));
        lemma2_to64();
        lemma_bits_round_trip(b[k] as nat, 8);
    }
    assert(bits_to_bytes(s, pre.len() as int, b.len()) =~= b);
}

/// Appends each byte of `bytes` in turn, least significant bit first.
pub fn write_bytes(b: &mut Bits, bytes: &Vec<u8>)
    requires
        old(b)@.len() + 8 * bytes@.len() <= MAX_BITS,
    ensures
        final(b)@ == old(b)@ + bytes_to_bits(bytes@),
{
    let mut i: usize = 0;
    proof {
        assert(bytes@.subrange(0, 0) =~= Seq::<u8>::empty());
        assert(b@ + bytes_to_bits(Seq::<u8>::empty()) =~= b@);
    }
    while i < bytes.len()
        invariant
            i <= bytes@.len(),
            old(b)@.len() + 8 * bytes@.len() <= MAX_BITS,
            b@ == old(b)@ + bytes_to_bits(bytes@.subrange(0, i as int)),
        decreases bytes@.len() - i,
    {
        proof {
            lemma_bytes_to_bits_len(bytes@.subrange(0, i as int));
            assert(bytes@.subrange(0, i + 1).drop_last() =~= bytes@.subrange(0, i as int));
        }
        write_uint(b, bytes[i] as u64, 8);
        proof {
            assert(old(b)@ + bytes_to_bits(bytes@.subrange(0, i as int)) + nat_to_bits(
                bytes@[i as int] as nat,
                8,
            ) =~= old(b)@ + bytes_to_bits(bytes@.subrange(0, i + 1)));
        }
        i = i + 1;
    }
    proof {
        assert(bytes@.subrange(0, bytes@.len() as int) =~= bytes@);
    }
}

/// Reads `n` bytes from bit `pos` on.
pub fn read_bytes(b: &Bits, pos: usize, n: usize) -> (r: Vec<u8>)
    requires
        pos + 8 * n <= b@.len(),
    ensures
        r@ == bits_to_bytes(b@, pos as int, n as nat),
{
    let len = b.len();
    let mut r: Vec<u8> = Vec::new();
    let mut k: usize = 0;
    while k < n
        invariant
            k <= n,
            pos + 8 * n <= b@.len() == len,
            r@ =~= bits_to_bytes(b@, pos as int, k as nat),
        decreases n - k,
    {
        let v = read_uint(b, pos + 8 * k, 8);
        proof {
            lemma_bits_to_nat_bound(b@.subrange(pos + 8 * k, pos + 8 * k + 8));
            lemma2_to64();
        }
        r.push(v as u8);
        k = k + 1;
    }
    r
}

/// Bits laid into bytes for the wire: eight bits a byte, the last byte
/// padded with zero bits.
pub open spec fn pack_bits(s: Seq<bool>) -> Seq<u8> {
    Seq::new(
        ((s.len() + 7) / 8) as nat,
        |k: int|
            bits_to_nat(s.subrange(8 * k, if 8 * k + 8 <= s.len() {
                8 * k + 8
            } else {
                s.len() as int
            })) as u8,
    )
}

/// Packs a bit buffer into bytes.
pub fn to_bytes(b: &Bits) -> (r: Vec<u8>)
    ensures
        r@ == pack_bits(b@),
{
    let len = b.len();
    let count = len / 8 + if len % 8 == 0 {
        0
    } else {
        1
    };
    let mut r: Vec<u8> = Vec::new();
    let mut k: usize = 0;
    while k < count
        invariant
            len == b@.len(),
            count == (len + 7) / 8,
            k <= count,
            r@ =~= pack_bits(b@).subrange(0, k as int),
        decreases count - k,
    {
        let start = 8 * k;
        let width = if len - start >= 8 {
            8
        } else {
            len - start
        };
        let v = read_uint(b, start, width);
        proof {
            lemma_bits_to_nat_bound(b@.subrange(start as int, start + width));
            lemma2_to64();
            if width < 8 {
                vstd::arithmetic::power2::lemma_pow2_strictly_increases(width as nat, 8);
            }
        }
        r.push(v as u8);
        k = k + 1;
    }
    proof {
        assert(pack_bits(b@).subrange(0, count as int) =~= pack_bits(b@));
    }
    r
}

/// Unpacks bytes into a bit buffer.
pub fn from_bytes(bytes: &Vec<u8>) -> (r: Bits)
    requires
        8 * bytes@.len() <= MAX_BITS,
    ensures
        r@ == bytes_to_bits(bytes@),
{
    let mut r = Bits::new();
    write_bytes(&mut r, bytes);
    proof {
        assert(Seq::<bool>::empty() + bytes_to_bits(bytes@) =~= bytes_to_bits(bytes@));
    }
    r
}

} // verus!
