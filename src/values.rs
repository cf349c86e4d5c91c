//! The field codecs: how each kind of networked value is laid out in bits.
use crate::bits::{
    bits_to_bytes, bits_to_nat, bytes_to_bits, nat_to_bits, read_bytes, read_uint, write_bytes,
    write_uint, Bits, MAX_BITS,
};
use vstd::arithmetic::power2::{lemma2_to64, lemma2_to64_rest, pow2};
use vstd::prelude::*;

verus! {

/// The kinds of value a networked field may hold.
#[derive(Clone, Copy, Debug, PartialEq, Eq, Structural)]
pub enum NetworkedValueTypes {
    Nil,
    Bool,
    Unsigned8,
    Unsigned16,
    Signed64,
    Float32,
    Vector3,
    String,
    ByteArray,
}

/// Why a numeric type code names no value type.
#[derive(Clone, Copy, Debug, PartialEq, Eq, Structural)]
pub enum TypeCodeError {
    /// The code `-1`, which marks the end of a type list.
    Invalid,
    /// A code that names nothing.
    Unknown(i64),
}

/// A networked value. Floating-point components are held as their IEEE-754
/// bit patterns; text is held as its UTF-8 bytes.
#[derive(Clone, Debug, PartialEq, Eq)]
pub enum NetworkedValue {
    Nil,
    Bool(bool),
    Unsigned8(u8),
    Unsigned16(u16),
    Signed64(i64),
    Float32(u32),
    Vector3(u32, u32, u32),
    String(Vec<u8>),
    ByteArray(Vec<u8>),
}

/// The mathematical model of a networked value.
pub enum ValueModel {
    Nil,
    Bool(bool),
    Unsigned8(u8),
    Unsigned16(u16),
    Signed64(i64),
    Float32(u32),
    Vector3(u32, u32, u32),
    String(Seq<u8>),
    ByteArray(Seq<u8>),
}

impl View for NetworkedValue {
    type V = ValueModel;

    open spec fn view(&self) -> ValueModel {
        match self {
            NetworkedValue::Nil => ValueModel::Nil,
            NetworkedValue::Bool(b) => ValueModel::Bool(*b),
            NetworkedValue::Unsigned8(x) => ValueModel::Unsigned8(*x),
            NetworkedValue::Unsigned16(x) => ValueModel::Unsigned16(*x),
            NetworkedValue::Signed64(x) => ValueModel::Signed64(*x),
            NetworkedValue::Float32(x) => ValueModel::Float32(*x),
            NetworkedValue::Vector3(x, y, z) => ValueModel::Vector3(*x, *y, *z),
            NetworkedValue::String(b) => ValueModel::String(b@),
            NetworkedValue::ByteArray(b) => ValueModel::ByteArray(b@),
        }
    }
}

/// The type code of each value type.
pub open spec fn type_code(t: NetworkedValueTypes) -> int {
    match t {
        NetworkedValueTypes::Nil => -2,
        NetworkedValueTypes::Bool => 0,
        NetworkedValueTypes::Unsigned8 => 1,
        NetworkedValueTypes::Unsigned16 => 2,
        NetworkedValueTypes::Signed64 => 3,
        NetworkedValueTypes::Float32 => 4,
        NetworkedValueTypes::Vector3 => 5,
        NetworkedValueTypes::String => 6,
        NetworkedValueTypes::ByteArray => 7,
    }
}

/// The type of a value.
pub open spec fn type_of(v: ValueModel) -> NetworkedValueTypes {
    match v {
        ValueModel::Nil => NetworkedValueTypes::Nil,
        ValueModel::Bool(_) => NetworkedValueTypes::Bool,
        ValueModel::Unsigned8(_) => NetworkedValueTypes::Unsigned8,
        ValueModel::Unsigned16(_) => NetworkedValueTypes::Unsigned16,
        ValueModel::Signed64(_) => NetworkedValueTypes::Signed64,
        ValueModel::Float32(_) => NetworkedValueTypes::Float32,
        ValueModel::Vector3(_, _, _) => NetworkedValueTypes::Vector3,
        ValueModel::String(_) => NetworkedValueTypes::String,
        ValueModel::ByteArray(_) => NetworkedValueTypes::ByteArray,
    }
}

/// The 64-bit two's complement pattern of a signed number.
pub open spec fn twos_complement(x: i64) -> nat {
    if x >= 0 {
        x as nat
    } else {
        (x + 0x1_0000_0000_0000_0000) as nat
    }
}

/// The signed number whose two's complement pattern is `n`.
pub open spec fn from_twos_complement(n: nat) -> i64 {
    if n < 0x8000_0000_0000_0000 {
        n as i64
    } else {
        (n - 0x1_0000_0000_0000_0000) as i64
    }
}

/// The bits of a value: fixed-width numbers little-endian, a boolean as one
/// bit, text and byte arrays as a 32-bit length followed by the bytes.
pub open spec fn encode_value(v: ValueModel) -> Seq<bool> {
    match v {
        ValueModel::Nil => Seq::empty(),
        ValueModel::Bool(b) => seq![b],
        ValueModel::Unsigned8(x) => nat_to_bits(x as nat, 8),
        ValueModel::Unsigned16(x) => nat_to_bits(x as nat, 16),
        ValueModel::Signed64(x) => nat_to_bits(twos_complement(x), 64),
        ValueModel::Float32(x) => nat_to_bits(x as nat, 32),
        ValueModel::Vector3(x, y, z) => nat_to_bits(x as nat, 32) + nat_to_bits(y as nat, 32)
            + nat_to_bits(z as nat, 32),
        ValueModel::String(b) => nat_to_bits(b.len(), 32) + bytes_to_bits(b),
        ValueModel::ByteArray(b) => nat_to_bits(b.len(), 32) + bytes_to_bits(b),
    }
}

/// A value can be written: its text or bytes are shorter than 2^32.
pub open spec fn value_fits(v: ValueModel) -> bool {
    match v {
        ValueModel::String(b) => b.len() < 0x1_0000_0000,
        ValueModel::ByteArray(b) => b.len() < 0x1_0000_0000,
        _ => true,
    }
}

/// The number held in the `width` bits at `pos`.
pub open spec fn field(s: Seq<bool>, pos: int, width: int) -> nat {
    bits_to_nat(s.subrange(pos, pos + width))
}

/// Reading a value of type `t` at bit `pos`: the value and the position
/// after it, or `None` where the bits run out.
pub open spec fn decode_value(s: Seq<bool>, pos: int, t: NetworkedValueTypes) -> Option<
    (ValueModel, int),
> {
    match t {
        NetworkedValueTypes::Nil => Some((ValueModel::Nil, pos)),
        NetworkedValueTypes::Bool => if pos + 1 <= s.len() {
            Some((ValueModel::Bool(s[pos]), pos + 1))
        } else {
            None
        },
        NetworkedValueTypes::Unsigned8 => if pos + 8 <= s.len() {
            Some((ValueModel::Unsigned8(field(s, pos, 8) as u8), pos + 8))
        } else {
            None
        },
        NetworkedValueTypes::Unsigned16 => if pos + 16 <= s.len() {
            Some((ValueModel::Unsigned16(field(s, pos, 16) as u16), pos + 16))
        } else {
            None
        },
        NetworkedValueTypes::Signed64 => if pos + 64 <= s.len() {
            Some((ValueModel::Signed64(from_twos_complement(field(s, pos, 64))), pos + 64))
        } else {
            None
        },
        NetworkedValueTypes::Float32 => if pos + 32 <= s.len() {
            Some((ValueModel::Float32(field(s, pos, 32) as u32), pos + 32))
        } else {
            None
        },
        NetworkedValueTypes::Vector3 => if pos + 96 <= s.len() {
            Some(
                (
                    ValueModel::Vector3(
                        field(s, pos, 32) as u32,
                        field(s, pos + 32, 32) as u32,
                        field(s, pos + 64, 32) as u32,
                    ),
                    pos + 96,
                ),
            )
        } else {
            None
        },
        NetworkedValueTypes::String => if pos + 32 <= s.len() && pos + 32 + 8 * field(s, pos, 32)
            <= s.len() {
            Some(
                (
                    ValueModel::String(bits_to_bytes(s, pos + 32, field(s, pos, 32))),
                    pos + 32 + 8 * field(s, pos, 32),
                ),
            )
        } else {
            None
        },
        NetworkedValueTypes::ByteArray => if pos + 32 <= s.len() && pos + 32 + 8 * field(
            s,
            pos,
            32,
        ) <= s.len() {
            Some(
                (
                    ValueModel::ByteArray(bits_to_bytes(s, pos + 32, field(s, pos, 32))),
                    pos + 32 + 8 * field(s, pos, 32),
                ),
            )
        } else {
            None
        },
    }
}

impl NetworkedValueTypes {
    /// The value type that a numeric code names.
    pub fn try_from(value: i64) -> (r: Result<NetworkedValueTypes, TypeCodeError>)
        ensures
            value == -1 ==> r == Err::<NetworkedValueTypes, TypeCodeError>(TypeCodeError::Invalid),
            (value < -2 || value > 7) ==> r == Err::<NetworkedValueTypes, TypeCodeError>(
                TypeCodeError::Unknown(value),
            ),
            r is Ok ==> type_code(r->Ok_0) == value,
            (value == -2 || 0 <= value <= 7) ==> r is Ok,
    {
        match value {
            -2 => Ok(NetworkedValueTypes::Nil),
            -1 => Err(TypeCodeError::Invalid),
            0 => Ok(NetworkedValueTypes::Bool),
            1 => Ok(NetworkedValueTypes::Unsigned8),
            2 => Ok(NetworkedValueTypes::Unsigned16),
            3 => Ok(NetworkedValueTypes::Signed64),
            4 => Ok(NetworkedValueTypes::Float32),
            5 => Ok(NetworkedValueTypes::Vector3),
            6 => Ok(NetworkedValueTypes::String),
            7 => Ok(NetworkedValueTypes::ByteArray),
            _ => Err(TypeCodeError::Unknown(value)),
        }
    }
}

/// The 64-bit two's complement pattern of `x`.
fn to_pattern(x: i64) -> (r: u64)
    ensures
        r as nat == twos_complement(x),
{
    if x >= 0 {
        x as u64
    } else {
        ((x + i64::MAX + 1) as u64) + 0x8000_0000_0000_0000u64
    }
}

/// The signed number whose 64-bit two's complement pattern is `n`.
fn from_pattern(n: u64) -> (r: i64)
    ensures
        r == from_twos_complement(n as nat),
{
    if n < 0x8000_0000_0000_0000u64 {
        n as i64
    } else {
        (n - 0x8000_0000_0000_0000u64) as i64 - i64::MAX - 1
    }
}

/// The number of bits a value takes.
pub proof fn lemma_encode_len(v: ValueModel)
    ensures
        encode_value(v).len() == match v {
            ValueModel::Nil => 0,
            ValueModel::Bool(_) => 1,
            ValueModel::Unsigned8(_) => 8,
            ValueModel::Unsigned16(_) => 16,
            ValueModel::Signed64(_) => 64,
            ValueModel::Float32(_) => 32,
            ValueModel::Vector3(_, _, _) => 96,
            ValueModel::String(b) => 32 + 8 * b.len(),
            ValueModel::ByteArray(b) => 32 + 8 * b.len(),
        },
{
    crate::bits::lemma_nat_to_bits_len(0, 0);
    match v {
        ValueModel::Unsigned8(x) => crate::bits::lemma_nat_to_bits_len(x as nat, 8),
        ValueModel::Unsigned16(x) => crate::bits::lemma_nat_to_bits_len(x as nat, 16),
        ValueModel::Signed64(x) => crate::bits::lemma_nat_to_bits_len(twos_complement(x), 64),
        ValueModel::Float32(x) => crate::bits::lemma_nat_to_bits_len(x as nat, 32),
        ValueModel::Vector3(x, y, z) => {
            crate::bits::lemma_nat_to_bits_len(x as nat, 32);
            crate::bits::lemma_nat_to_bits_len(y as nat, 32);
            crate::bits::lemma_nat_to_bits_len(z as nat, 32);
        },
        ValueModel::String(b) => {
            crate::bits::lemma_nat_to_bits_len(b.len(), 32);
            crate::bits::lemma_bytes_to_bits_len(b);
        },
        ValueModel::ByteArray(b) => {
            crate::bits::lemma_nat_to_bits_len(b.len(), 32);
            crate::bits::lemma_bytes_to_bits_len(b);
        },
        _ => {},
    }
}

/// A fixed-width number written at `pre.len()` reads back unchanged.
proof fn lemma_number_at(pre: Seq<bool>, x: nat, w: nat, post: Seq<bool>)
    requires
        x < pow2(w),
    ensures
        field(pre + nat_to_bits(x, w) + post, pre.len() as int, w as int) == x,
{
    crate::bits::lemma_nat_to_bits_len(x, w);
    assert((pre + nat_to_bits(x, w) + post).subrange(pre.len() as int, pre.len() + w as int)
        =~= nat_to_bits(x, w));
    crate::bits::lemma_bits_round_trip(x, w);
}

/// Writing a value and reading it back, at any position and with anything
/// after it, gives the value and the position just past it.
pub proof fn lemma_value_round_trip(pre: Seq<bool>, v: ValueModel, post: Seq<bool>)
    requires
        value_fits(v),
    ensures
        decode_value(pre + encode_value(v) + post, pre.len() as int, type_of(v)) == Some(
            (v, (pre.len() + encode_value(v).len()) as int),
        ),
{
    lemma_encode_len(v);
    lemma2_to64();
    lemma2_to64_rest();
    let s = pre + encode_value(v) + post;
    let p = pre.len() as int;
    match v {
        ValueModel::Nil => {},
        ValueModel::Bool(b) => {
            assert(s[p] == b);
        },
        ValueModel::Unsigned8(x) => lemma_number_at(pre, x as nat, 8, post),
        ValueModel::Unsigned16(x) => lemma_number_at(pre, x as nat, 16, post),
        ValueModel::Signed64(x) => lemma_number_at(pre, twos_complement(x), 64, post),
        ValueModel::Float32(x) => lemma_number_at(pre, x as nat, 32, post),
        ValueModel::Vector3(x, y, z) => {
            let bx = nat_to_bits(x as nat, 32);
            let by = nat_to_bits(y as nat, 32);
            let bz = nat_to_bits(z as nat, 32);
            crate::bits::lemma_nat_to_bits_len(x as nat, 32);
            crate::bits::lemma_nat_to_bits_len(y as nat, 32);
            crate::bits::lemma_nat_to_bits_len(z as nat, 32);
            assert(s =~= pre + bx + (by + bz + post));
            lemma_number_at(pre, x as nat, 32, by + bz + post);
            assert(s =~= (pre + bx) + by + (bz + post));
            lemma_number_at(pre + bx, y as nat, 32, bz + post);
            assert(s =~= (pre + bx + by) + bz + post);
            lemma_number_at(pre + bx + by, z as nat, 32, post);
        },
        ValueModel::String(b) => {
            let bl = nat_to_bits(b.len(), 32);
            crate::bits::lemma_nat_to_bits_len(b.len(), 32);
            assert(s =~= pre + bl + (bytes_to_bits(b) + post));
            lemma_number_at(pre, b.len(), 32, bytes_to_bits(b) + post);
            assert(s =~= (pre + bl) + bytes_to_bits(b) + post);
            crate::bits::lemma_bytes_round_trip(pre + bl, b, post);
        },
        ValueModel::ByteArray(b) => {
            let bl = nat_to_bits(b.len(), 32);
            crate::bits::lemma_nat_to_bits_len(b.len(), 32);
            assert(s =~= pre + bl + (bytes_to_bits(b) + post));
            lemma_number_at(pre, b.len(), 32, bytes_to_bits(b) + post);
            assert(s =~= (pre + bl) + bytes_to_bits(b) + post);
            crate::bits::lemma_bytes_round_trip(pre + bl, b, post);
        },
    }
}

/// Appends the bits of a value.
pub fn append_value(out: &mut Bits, v: &NetworkedValue)
    requires
        value_fits(v@),
        old(out)@.len() + encode_value(v@).len() <= MAX_BITS,
    ensures
        final(out)@ == old(out)@ + encode_value(v@),
{
    proof {
        lemma_encode_len(v@);
    }
    match v {
        NetworkedValue::Nil => {
            assert(out@ + encode_value(v@) =~= out@);
        },
        NetworkedValue::Bool(b) => {
            out.push(*b);
            assert(old(out)@.push(*b) =~= old(out)@ + seq![*b]);
        },
        NetworkedValue::Unsigned8(x) => write_uint(out, *x as u64, 8),
        NetworkedValue::Unsigned16(x) => write_uint(out, *x as u64, 16),
        NetworkedValue::Signed64(x) => write_uint(out, to_pattern(*x), 64),
        NetworkedValue::Float32(x) => write_uint(out, *x as u64, 32),
        NetworkedValue::Vector3(x, y, z) => {
            proof {
                crate::bits::lemma_nat_to_bits_len(*x as nat, 32);
                crate::bits::lemma_nat_to_bits_len(*y as nat, 32);
            }
            write_uint(out, *x as u64, 32);
            write_uint(out, *y as u64, 32);
            write_uint(out, *z as u64, 32);
            assert(out@ =~= old(out)@ + encode_value(v@));
        },
        NetworkedValue::String(b) => {
            proof {
                crate::bits::lemma_nat_to_bits_len(b@.len(), 32);
            }
            write_uint(out, b.len() as u64, 32);
            write_bytes(out, b);
            assert(out@ =~= old(out)@ + encode_value(v@));
        },
        NetworkedValue::ByteArray(b) => {
            proof {
                crate::bits::lemma_nat_to_bits_len(b@.len(), 32);
            }
            write_uint(out, b.len() as u64, 32);
            write_bytes(out, b);
            assert(out@ =~= old(out)@ + encode_value(v@));
        },
    }
}

/// The bits of a value of the given type.
pub fn encode_with_known_type(object: &NetworkedValue, object_type: &NetworkedValueTypes) -> (r:
    Bits)
    requires
        type_of(object@) == *object_type,
        value_fits(object@),
        encode_value(object@).len() <= MAX_BITS,
    ensures
        r@ == encode_value(object@),
{
    let mut r = Bits::new();
    append_value(&mut r, object);
    assert(Seq::<bool>::empty() + encode_value(object@) =~= encode_value(object@));
    r
}

/// Reads a value of the given type at `*pointer` and moves the pointer past
/// it. Where the bits run out it returns `None` and leaves the pointer.
pub fn decode_with_known_type(
    data: &Bits,
    pointer: &mut usize,
    object_type: &NetworkedValueTypes,
) -> (r: Option<NetworkedValue>)
    requires
        *old(pointer) <= data@.len(),
    ensures
        match decode_value(data@, *old(pointer) as int, *object_type) {
            Some((v, p)) => r is Some && r->Some_0@ == v && *final(pointer) == p,
            None => r is None && *final(pointer) == *old(pointer),
        },
{
    let len = data.len();
    let p = *pointer;
    let rest = len - p;
    match object_type {
        NetworkedValueTypes::Nil => Some(NetworkedValue::Nil),
        NetworkedValueTypes::Bool => {
            if rest < 1 {
                return None;
            }
            *pointer = p + 1;
            Some(NetworkedValue::Bool(data.get(p)))
        },
        NetworkedValueTypes::Unsigned8 => {
            if rest < 8 {
                return None;
            }
            let x = read_uint(data, p, 8);
            proof {
                crate::bits::lemma_bits_to_nat_bound(data@.subrange(p as int, p + 8));
                lemma2_to64();
            }
            *pointer = p + 8;
            Some(NetworkedValue::Unsigned8(x as u8))
        },
        NetworkedValueTypes::Unsigned16 => {
            if rest < 16 {
                return None;
            }
            let x = read_uint(data, p, 16);
            proof {
                crate::bits::lemma_bits_to_nat_bound(data@.subrange(p as int, p + 16));
                lemma2_to64();
            }
            *pointer = p + 16;
            Some(NetworkedValue::Unsigned16(x as u16))
        },
        NetworkedValueTypes::Signed64 => {
            if rest < 64 {
                return None;
            }
            let x = read_uint(data, p, 64);
            *pointer = p + 64;
            Some(NetworkedValue::Signed64(from_pattern(x)))
        },
        NetworkedValueTypes::Float32 => {
            if rest < 32 {
                return None;
            }
            let x = read_uint(data, p, 32);
            proof {
                crate::bits::lemma_bits_to_nat_bound(data@.subrange(p as int, p + 32));
                lemma2_to64();
            }
            *pointer = p + 32;
            Some(NetworkedValue::Float32(x as u32))
        },
        NetworkedValueTypes::Vector3 => {
            if rest < 96 {
                return None;
            }
            let x = read_uint(data, p, 32);
            let y = read_uint(data, p + 32, 32);
            let z = read_uint(data, p + 64, 32);
            proof {
                crate::bits::lemma_bits_to_nat_bound(data@.subrange(p as int, p + 32));
                crate::bits::lemma_bits_to_nat_bound(data@.subrange(p + 32, p + 64));
                crate::bits::lemma_bits_to_nat_bound(data@.subrange(p + 64, p + 96));
                lemma2_to64();
            }
            *pointer = p + 96;
            Some(NetworkedValue::Vector3(x as u32, y as u32, z as u32))
        },
        NetworkedValueTypes::String => {
            if rest < 32 {
                return None;
            }
            let n = read_uint(data, p, 32);
            proof {
                crate::bits::lemma_bits_to_nat_bound(data@.subrange(p as int, p + 32));
                lemma2_to64();
            }
            if ((rest - 32) as u64) < 8 * n {
                return None;
            }
            let b = read_bytes(data, p + 32, n as usize);
            *pointer = p + 32 + 8 * (n as usize);
            Some(NetworkedValue::String(b))
        },
        NetworkedValueTypes::ByteArray => {
            if rest < 32 {
                return None;
            }
            let n = read_uint(data, p, 32);
            proof {
                crate::bits::lemma_bits_to_nat_bound(data@.subrange(p as int, p + 32));
                lemma2_to64();
            }
            if ((rest - 32) as u64) < 8 * n {
                return None;
            }
            let b = read_bytes(data, p + 32, n as usize);
            *pointer = p + 32 + 8 * (n as usize);
            Some(NetworkedValue::ByteArray(b))
        },
    }
}

} // verus!
