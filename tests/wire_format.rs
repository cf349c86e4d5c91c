use butteryfly::wire::{
    decode_acks, decode_datagram, encode_acks, encode_datagram, Datagram, WireError, CHANNEL_ACK,
    CHANNEL_MESSAGE,
};

#[test]
fn datagram_header_is_channel_then_sequence() {
    let d = encode_datagram(CHANNEL_MESSAGE, Some(0x0102), &vec![9, 8]);
    assert_eq!(d, vec![3, 0, 2, 1, 0, 0, 0, 0, 0, 0, 9, 8]);
    assert_eq!(
        decode_datagram(&d),
        Ok(Datagram { channel: CHANNEL_MESSAGE, sequence: Some(0x0102), payload: vec![9, 8] })
    );
}

#[test]
fn ack_datagrams_carry_no_sequence_number() {
    let d = encode_datagram(CHANNEL_ACK, None, &vec![1, 2, 3]);
    assert_eq!(d, vec![0xff, 0xff, 1, 2, 3]);
    assert_eq!(
        decode_datagram(&d),
        Ok(Datagram { channel: CHANNEL_ACK, sequence: None, payload: vec![1, 2, 3] })
    );
}

#[test]
fn short_datagrams_are_malformed() {
    assert_eq!(decode_datagram(&vec![]), Err(WireError::MalformedPacket));
    assert_eq!(decode_datagram(&vec![3]), Err(WireError::MalformedPacket));
    assert_eq!(decode_datagram(&vec![3, 0, 1, 2, 3]), Err(WireError::MalformedPacket));
    assert!(decode_datagram(&vec![0xff, 0xff]).is_ok());
}

#[test]
fn ack_lists_round_trip() {
    let acks = vec![(3u16, 7u64), (4, u64::MAX), (2, 0)];
    let bytes = encode_acks(&acks);
    assert_eq!(bytes.len(), 30);
    assert_eq!(&bytes[..10], &[3, 0, 7, 0, 0, 0, 0, 0, 0, 0]);
    assert_eq!(decode_acks(&bytes), acks);
    let mut partial = bytes.clone();
    partial.push(1);
    assert_eq!(decode_acks(&partial), acks);
}
