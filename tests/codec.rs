use butteryfly::bits::{from_bytes, read_uint, to_bytes, write_uint, Bits};
use butteryfly::values::{
    decode_with_known_type, encode_with_known_type, NetworkedValue, NetworkedValueTypes,
    TypeCodeError,
};

fn round_trip(v: NetworkedValue, t: NetworkedValueTypes) {
    let bits = encode_with_known_type(&v, &t);
    let mut pointer: usize = 0;
    let back = decode_with_known_type(&bits, &mut pointer, &t);
    assert_eq!(back, Some(v));
    assert_eq!(pointer, bits.len());
}

#[test]
fn every_value_type_round_trips() {
    round_trip(NetworkedValue::Nil, NetworkedValueTypes::Nil);
    round_trip(NetworkedValue::Bool(true), NetworkedValueTypes::Bool);
    round_trip(NetworkedValue::Unsigned8(200), NetworkedValueTypes::Unsigned8);
    round_trip(NetworkedValue::Unsigned16(0xBEEF), NetworkedValueTypes::Unsigned16);
    round_trip(NetworkedValue::Signed64(-5), NetworkedValueTypes::Signed64);
    round_trip(NetworkedValue::Signed64(i64::MIN), NetworkedValueTypes::Signed64);
    round_trip(NetworkedValue::Float32(1.5f32.to_bits()), NetworkedValueTypes::Float32);
    round_trip(
        NetworkedValue::Vector3(1.0f32.to_bits(), 2.0f32.to_bits(), (-3.0f32).to_bits()),
        NetworkedValueTypes::Vector3,
    );
    round_trip(NetworkedValue::String(b"hello".to_vec()), NetworkedValueTypes::String);
    round_trip(NetworkedValue::ByteArray(vec![1, 2, 255]), NetworkedValueTypes::ByteArray);
}

#[test]
fn encodings_have_exact_sizes() {
    let b = encode_with_known_type(&NetworkedValue::Bool(false), &NetworkedValueTypes::Bool);
    assert_eq!(b.len(), 1);
    let s = encode_with_known_type(
        &NetworkedValue::String(b"abc".to_vec()),
        &NetworkedValueTypes::String,
    );
    assert_eq!(s.len(), 32 + 24);
    let v = encode_with_known_type(
        &NetworkedValue::Vector3(0, 0, 0),
        &NetworkedValueTypes::Vector3,
    );
    assert_eq!(v.len(), 96);
}

#[test]
fn unsigned16_is_little_endian_on_the_wire() {
    let bits = encode_with_known_type(
        &NetworkedValue::Unsigned16(0x0102),
        &NetworkedValueTypes::Unsigned16,
    );
    assert_eq!(to_bytes(&bits), vec![0x02, 0x01]);
}

#[test]
fn decoding_past_the_end_fails_and_keeps_the_pointer() {
    let bits = encode_with_known_type(
        &NetworkedValue::Unsigned8(7),
        &NetworkedValueTypes::Unsigned8,
    );
    let mut pointer: usize = 0;
    assert_eq!(
        decode_with_known_type(&bits, &mut pointer, &NetworkedValueTypes::Unsigned16),
        None
    );
    assert_eq!(pointer, 0);
    let text = encode_with_known_type(
        &NetworkedValue::String(b"abcd".to_vec()),
        &NetworkedValueTypes::String,
    );
    let short = from_bytes(&to_bytes(&text)[..6].to_vec());
    let mut p: usize = 0;
    assert_eq!(decode_with_known_type(&short, &mut p, &NetworkedValueTypes::String), None);
    assert_eq!(p, 0);
}

#[test]
fn type_codes_map_to_types() {
    assert_eq!(NetworkedValueTypes::try_from(-2), Ok(NetworkedValueTypes::Nil));
    assert_eq!(NetworkedValueTypes::try_from(0), Ok(NetworkedValueTypes::Bool));
    assert_eq!(NetworkedValueTypes::try_from(7), Ok(NetworkedValueTypes::ByteArray));
    assert_eq!(NetworkedValueTypes::try_from(-1), Err(TypeCodeError::Invalid));
    assert_eq!(NetworkedValueTypes::try_from(8), Err(TypeCodeError::Unknown(8)));
}

#[test]
fn integers_read_back_from_any_offset() {
    let mut b = Bits::new();
    b.push(true);
    write_uint(&mut b, 0x1234_5678_9abc_def0, 64);
    write_uint(&mut b, 5, 3);
    assert_eq!(b.len(), 68);
    assert_eq!(read_uint(&b, 1, 64), 0x1234_5678_9abc_def0);
    assert_eq!(read_uint(&b, 65, 3), 5);
    assert_eq!(read_uint(&b, 0, 1), 1);
}

#[test]
fn packing_pads_the_last_byte_with_zeros() {
    let mut b = Bits::new();
    write_uint(&mut b, 0b101, 3);
    assert_eq!(to_bytes(&b), vec![0b101]);
    let back = from_bytes(&vec![0xAB, 0xCD]);
    assert_eq!(back.len(), 16);
    assert_eq!(read_uint(&back, 0, 16), 0xCDAB);
}
