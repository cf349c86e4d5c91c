use butteryfly::bits::{from_bytes, Bits};
use butteryfly::connection::{ClientState, Connection, Inbound};
use butteryfly::entity::{
    build_state_payload, decode_state_payload, encode_message, get_networked_values_types,
    IdSync, MessageHandler, NetworkedNode, StateError,
};
use butteryfly::scheduler::{Entity, Scheduler};
use butteryfly::values::{NetworkedValue, NetworkedValueTypes, TypeCodeError};
use butteryfly::voice::VoiceBuffer;
use butteryfly::wire::{
    decode_datagram, encode_acks, encode_datagram, CHANNEL_ACK, CHANNEL_CLIENT_ID,
    CHANNEL_FRAGMENT, CHANNEL_MESSAGE, CHANNEL_STATE, CHANNEL_SYNC,
};

fn stamp(ms: u64) -> Vec<u8> {
    ms.to_le_bytes().to_vec()
}

#[test]
fn identity_then_live_state_connects_and_late_sync_is_ignored() {
    let mut c = Connection::new_client();
    assert_eq!(c.state, ClientState::AwaitingID);
    let early = c.receive_datagram(encode_datagram(CHANNEL_STATE, Some(0), &stamp(1000)), 1005, 16);
    assert_eq!(early, vec![Inbound::Ignored]);
    assert_eq!(c.state, ClientState::AwaitingID);

    let id = c.receive_datagram(encode_datagram(CHANNEL_CLIENT_ID, Some(0), &stamp(7)), 1005, 16);
    assert_eq!(id, vec![Inbound::Identity(7)]);
    assert_eq!(c.state, ClientState::InitialSync);
    assert_eq!(c.id, 7);

    let sync = c.receive_datagram(encode_datagram(CHANNEL_SYNC, Some(0), &stamp(0)), 1005, 16);
    assert_eq!(sync, vec![Inbound::SyncBuffered]);
    let again = c.receive_datagram(encode_datagram(CHANNEL_SYNC, Some(0), &stamp(0)), 1005, 16);
    assert_eq!(again, vec![Inbound::Ignored]);

    let live = c.receive_datagram(encode_datagram(CHANNEL_STATE, Some(1), &stamp(1000)), 1005, 16);
    assert_eq!(live, vec![Inbound::StateBuffered]);
    assert_eq!(c.state, ClientState::Connected);

    let late = c.receive_datagram(encode_datagram(CHANNEL_SYNC, Some(1), &stamp(0)), 1006, 16);
    assert_eq!(late, vec![Inbound::Ignored]);
    assert_eq!(c.state, ClientState::Connected);
}

#[test]
fn disconnected_connections_process_nothing() {
    let mut c = Connection::new_server_side();
    c.disconnect();
    assert_eq!(c.state, ClientState::Disconnected);
    let r = c.receive_datagram(encode_datagram(CHANNEL_MESSAGE, Some(0), &vec![1]), 0, 16);
    assert!(r.is_empty());
}

#[test]
fn malformed_and_unknown_datagrams_are_reported() {
    let mut c = Connection::new_server_side();
    assert_eq!(c.receive_datagram(vec![1, 0, 0], 0, 16), vec![Inbound::Malformed]);
    assert_eq!(
        c.receive_datagram(encode_datagram(9, Some(0), &vec![]), 0, 16),
        vec![Inbound::UnknownChannel(9)]
    );
    assert_eq!(
        c.receive_datagram(encode_datagram(CHANNEL_STATE, Some(0), &vec![1, 2]), 0, 16),
        vec![Inbound::Malformed]
    );
}

#[test]
fn messages_are_delivered_in_order() {
    let mut c = Connection::new_server_side();
    let r1 = c.receive_datagram(encode_datagram(CHANNEL_MESSAGE, Some(1), &vec![11]), 0, 16);
    assert!(r1.is_empty());
    let r0 = c.receive_datagram(encode_datagram(CHANNEL_MESSAGE, Some(0), &vec![10]), 0, 16);
    assert_eq!(r0, vec![Inbound::Message(0, vec![10]), Inbound::Message(1, vec![11])]);
    assert_eq!(c.reliability.pending_ack_count(), 2);
}

#[test]
fn oversized_sends_fragment_and_reassemble() {
    let mut sender = Connection::new_server_side();
    let payload: Vec<u8> = (0..2000u32).map(|i| (i % 7) as u8).collect();
    let datagrams = sender.send(CHANNEL_MESSAGE, &payload, 0);
    // 2010 bytes with the header, in chunks of 590: four chunks and the count
    assert_eq!(datagrams.len(), 5);
    for d in &datagrams {
        assert!(d.len() <= 600);
        assert_eq!(decode_datagram(d).unwrap().channel, CHANNEL_FRAGMENT);
    }
    let mut receiver = Connection::new_server_side();
    let mut got = Vec::new();
    for d in datagrams.into_iter().rev() {
        got.extend(receiver.receive_datagram(d, 0, 16));
    }
    assert_eq!(got, vec![Inbound::Message(0, payload)]);
}

#[test]
fn reliable_sends_are_resent_until_acked() {
    let mut c = Connection::new_server_side();
    let sent = c.send(CHANNEL_MESSAGE, &vec![5], 0);
    assert_eq!(sent, vec![encode_datagram(CHANNEL_MESSAGE, Some(0), &vec![5])]);
    assert_eq!(c.poll_retransmissions(200), sent);
    let ack = encode_datagram(CHANNEL_ACK, None, &encode_acks(&vec![(CHANNEL_MESSAGE, 0)]));
    assert!(c.receive_datagram(ack, 201, 16).is_empty());
    assert!(c.poll_retransmissions(1000).is_empty());
    let unreliable = c.send(CHANNEL_STATE, &vec![1], 0);
    assert_eq!(unreliable.len(), 1);
    assert!(c.poll_retransmissions(5000).is_empty());
}

#[test]
fn owed_acks_become_an_ack_payload() {
    let mut c = Connection::new_server_side();
    c.receive_datagram(encode_datagram(CHANNEL_MESSAGE, Some(0), &vec![1]), 0, 16);
    let payload = c.take_ack_payload(1);
    assert_eq!(payload, encode_acks(&vec![(CHANNEL_MESSAGE, 0)]));
    assert_eq!(c.reliability.pending_ack_count(), 0);
}

fn record(id: u16, values: &[NetworkedValue], types: &[NetworkedValueTypes]) -> Bits {
    NetworkedNode { objectid: id, owner_id: 0 }.get_byte_data(&values.to_vec(), &types.to_vec())
}

#[test]
fn state_payload_reads_records_until_an_unknown_entity() {
    let t = vec![NetworkedValueTypes::Bool, NetworkedValueTypes::Unsigned16];
    let records = vec![
        record(3, &[NetworkedValue::Bool(true), NetworkedValue::Unsigned16(500)], &t),
        record(4, &[NetworkedValue::Bool(false), NetworkedValue::Unsigned16(9)], &t),
        record(8, &[NetworkedValue::Bool(false), NetworkedValue::Unsigned16(1)], &t),
    ];
    let payload = build_state_payload(1234, &records, &vec![0, 1, 2]);
    let table = vec![(3u16, t.clone()), (4u16, t.clone())];
    let decoded = decode_state_payload(&from_bytes(&payload), &table);
    assert_eq!(
        decoded.records,
        vec![
            (3, vec![NetworkedValue::Bool(true), NetworkedValue::Unsigned16(500)]),
            (4, vec![NetworkedValue::Bool(false), NetworkedValue::Unsigned16(9)]),
        ]
    );
    assert_eq!(decoded.error, Some(StateError::MissingEntity(8)));
}

#[test]
fn state_payload_stops_on_a_decode_failure() {
    let short = vec![NetworkedValueTypes::Unsigned8];
    let long = vec![NetworkedValueTypes::Signed64];
    let records = vec![record(3, &[NetworkedValue::Unsigned8(1)], &short)];
    let payload = build_state_payload(0, &records, &vec![0]);
    let decoded = decode_state_payload(&from_bytes(&payload), &vec![(3u16, long)]);
    assert!(decoded.records.is_empty());
    assert_eq!(decoded.error, Some(StateError::DecodeFailure(3)));
    let decoded = decode_state_payload(&from_bytes(&payload), &vec![(3u16, short)]);
    assert_eq!(decoded.records, vec![(3, vec![NetworkedValue::Unsigned8(1)])]);
    assert_eq!(decoded.error, None);
}

#[test]
fn id_sync_messages_round_trip() {
    let bits = MessageHandler::create_id_sync_message(12, Some(3), &vec![0, 4, 1]);
    assert_eq!(bits.len(), 48 + 24);
    let mut pointer: usize = 16;
    let parsed = MessageHandler::handle_id_sync_message(&bits, &mut pointer);
    assert_eq!(parsed, Some(IdSync { id: 12, owner_id: 3, path: vec![0, 4, 1] }));
    assert_eq!(pointer, 72);
    let none_owner = MessageHandler::create_id_sync_message(12, None, &vec![]);
    let mut p: usize = 16;
    assert_eq!(
        MessageHandler::handle_id_sync_message(&none_owner, &mut p),
        Some(IdSync { id: 12, owner_id: 0, path: vec![] })
    );
}

#[test]
fn type_codes_are_read_up_to_the_end_mark() {
    assert_eq!(
        get_networked_values_types(&vec![0, 5, -1, 3]),
        Ok(vec![NetworkedValueTypes::Bool, NetworkedValueTypes::Vector3])
    );
    assert_eq!(get_networked_values_types(&vec![1, 42]), Err(TypeCodeError::Unknown(42)));
    assert_eq!(get_networked_values_types(&vec![]), Ok(vec![]));
}

#[test]
fn messages_are_checked_before_they_are_built() {
    let values = vec![NetworkedValue::Unsigned8(9), NetworkedValue::Bool(true)];
    let built = encode_message(77, &values, &vec![1, 0]).unwrap();
    assert_eq!(built.len(), 16 + 8 + 1);
    assert!(encode_message(77, &values, &vec![1]).is_none());
    assert!(encode_message(77, &values, &vec![1, 2]).is_none());
    assert!(encode_message(77, &values, &vec![1, -1]).is_none());
}

#[test]
fn object_ids_count_up_from_one() {
    let mut ids = butteryfly::entity::ObjectIds::new();
    assert_eq!(ids.get_next_object_id(), Some(1));
    assert_eq!(ids.get_next_object_id(), Some(2));
    ids.unregister_all();
    assert_eq!(ids.get_next_object_id(), Some(1));
}

#[test]
fn a_tick_plan_becomes_datagrams() {
    let t = vec![NetworkedValueTypes::Unsigned8];
    let records = vec![
        record(1, &[NetworkedValue::Unsigned8(10)], &t),
        record(2, &[NetworkedValue::Unsigned8(20)], &t),
    ];
    let mut ents: Vec<Entity> = records
        .iter()
        .enumerate()
        .map(|(i, r)| Entity { id: i as u16 + 1, owner: 0, priority: 1, cost: r.len() })
        .collect();
    let mut s = Scheduler::for_client();
    let mut c = Connection::new_server_side();
    let plan = s.plan_tick(5000, 0, &Vec::new(), &mut ents, 9, false);
    let out: Vec<Vec<u8>> =
        c.transmit_plan(&plan, &records, &Vec::new(), 9, 1000).into_iter().flatten().collect();
    assert_eq!(out, vec![encode_datagram(CHANNEL_CLIENT_ID, Some(0), &stamp(9))]);
    let plan = s.plan_tick(5000, 0, &Vec::new(), &mut ents, 9, false);
    let out: Vec<Vec<u8>> =
        c.transmit_plan(&plan, &records, &Vec::new(), 9, 1000).into_iter().flatten().collect();
    // the initial sync, then a state packet in priority order
    assert_eq!(out.len(), 2);
    let sync = decode_datagram(&out[0]).unwrap();
    assert_eq!(sync.channel, CHANNEL_SYNC);
    let state = decode_datagram(&out[1]).unwrap();
    assert_eq!(state.channel, CHANNEL_STATE);
    assert_eq!(&state.payload[..8], &stamp(1000)[..]);
    let table = vec![(1u16, t.clone()), (2u16, t.clone())];
    let decoded = decode_state_payload(&from_bytes(&state.payload), &table);
    assert_eq!(
        decoded.records,
        vec![(1, vec![NetworkedValue::Unsigned8(10)]), (2, vec![NetworkedValue::Unsigned8(20)])]
    );
}

#[test]
fn voice_frames_wait_then_play_in_turn() {
    let mut v = VoiceBuffer::new();
    v.receive(1, vec![1]);
    v.receive(0, vec![0]);
    assert_eq!(v.take_frame(), None);
    v.receive(3, vec![3]);
    assert_eq!(v.take_frame(), Some(vec![0]));
    v.receive(0, vec![9]);
    v.receive(4, vec![4]);
    assert_eq!(v.take_frame(), Some(vec![1]));
    assert_eq!(v.take_frame(), None);
    v.receive(5, vec![5]);
    assert_eq!(v.take_frame(), Some(vec![]));
    assert_eq!(v.take_frame(), Some(vec![3]));
}

#[test]
fn live_state_reports_stale_and_jitter_misses_and_voice_passes_through() {
    let mut c = Connection::new_server_side();
    let stale = c.receive_datagram(encode_datagram(CHANNEL_STATE, Some(0), &stamp(0)), 5000, 16);
    assert_eq!(stale, vec![Inbound::Stale]);
    let first = c.receive_datagram(encode_datagram(CHANNEL_STATE, Some(1), &stamp(5000)), 5000, 16);
    assert_eq!(first, vec![Inbound::StateBuffered]);
    // latency 900 against a smoothed 450: far outside two 16 ms windows
    let late = c.receive_datagram(encode_datagram(CHANNEL_STATE, Some(2), &stamp(4100)), 5000, 16);
    assert_eq!(late, vec![Inbound::JitterMiss]);
    let voice = c.receive_datagram(
        encode_datagram(butteryfly::wire::CHANNEL_VOICE, Some(4), &vec![1, 2]),
        5000,
        16,
    );
    assert_eq!(voice, vec![Inbound::Voice(4, vec![1, 2])]);
}
