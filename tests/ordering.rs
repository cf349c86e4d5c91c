use butteryfly::fragment::{fragment, split_packet, Reassembler};
use butteryfly::ordered::OrderedInbox;

#[test]
fn reordered_and_duplicated_messages_come_out_in_order_once() {
    let mut inbox = OrderedInbox::new();
    let mut seen: Vec<u64> = Vec::new();
    for (seq, body) in [(2u64, 20u8), (0, 0), (0, 0), (3, 30), (1, 10), (2, 20), (1, 10)] {
        for (q, m) in inbox.receive(seq, vec![body]) {
            assert_eq!(m, vec![(q * 10) as u8]);
            seen.push(q);
        }
    }
    assert_eq!(seen, vec![0, 1, 2, 3]);
    assert_eq!(inbox.next_expected(), 4);
}

#[test]
fn a_message_ahead_waits_for_its_predecessor() {
    let mut inbox = OrderedInbox::new();
    assert!(inbox.receive(1, vec![1]).is_empty());
    let out = inbox.receive(0, vec![0]);
    assert_eq!(out, vec![(0, vec![0]), (1, vec![1])]);
    assert!(inbox.receive(0, vec![0]).is_empty());
}

#[test]
fn large_packet_fragments_into_count_then_chunks() {
    let packet: Vec<u8> = (0..10_000u32).map(|i| (i % 251) as u8).collect();
    let pieces = fragment(&packet, 4800);
    assert_eq!(pieces.len(), 4);
    assert_eq!(pieces[0], vec![3, 0, 0, 0, 0, 0, 0, 0]);
    assert_eq!(pieces[1].len(), 4790);
    assert_eq!(pieces[2].len(), 4790);
    assert_eq!(pieces[3].len(), 420);
    let mut r = Reassembler::new();
    let mut out = Vec::new();
    for p in pieces {
        if let Some(whole) = r.accept(p) {
            out.push(whole);
        }
    }
    assert_eq!(out, vec![packet]);
}

#[test]
fn splitting_a_packet_that_fits_gives_one_chunk() {
    let packet = vec![1u8, 2, 3];
    assert_eq!(split_packet(&packet, 3), vec![vec![1, 2, 3]]);
    assert_eq!(split_packet(&packet, 2), vec![vec![1, 2], vec![3]]);
    assert!(split_packet(&Vec::new(), 2).is_empty());
}

#[test]
fn short_chunk_count_is_ignored() {
    let mut r = Reassembler::new();
    assert_eq!(r.accept(vec![1, 0]), None);
    assert_eq!(r.accept(vec![1, 0, 0, 0, 0, 0, 0, 0]), None);
    assert_eq!(r.accept(vec![42]), Some(vec![42]));
}

fn permutations(items: &[u64]) -> Vec<Vec<u64>> {
    if items.len() <= 1 {
        return vec![items.to_vec()];
    }
    let mut out = Vec::new();
    for i in 0..items.len() {
        let mut rest = items.to_vec();
        let first = rest.remove(i);
        for mut p in permutations(&rest) {
            p.insert(0, first);
            out.push(p);
        }
    }
    out
}

#[test]
fn every_arrival_order_delivers_each_message_once_in_order() {
    for order in permutations(&[0, 1, 2, 3, 1]) {
        let mut inbox = OrderedInbox::new();
        let mut seen: Vec<u64> = Vec::new();
        for seq in order {
            for (q, m) in inbox.receive(seq, vec![seq as u8]) {
                assert_eq!(m, vec![q as u8]);
                seen.push(q);
            }
        }
        assert_eq!(seen, vec![0, 1, 2, 3]);
    }
}

#[test]
fn fragments_round_trip_for_every_chunk_count() {
    for len in [1usize, 2, 589, 590, 591, 1180, 1181, 5000] {
        let packet: Vec<u8> = (0..len).map(|i| (i * 7 % 256) as u8).collect();
        let pieces = fragment(&packet, 600);
        let chunks = (len + 589) / 590;
        assert_eq!(pieces.len(), 1 + chunks);
        assert_eq!(pieces[0], (chunks as u64).to_le_bytes().to_vec());
        let mut r = Reassembler::new();
        let mut out = Vec::new();
        for p in pieces {
            out.push(r.accept(p));
        }
        let last = out.pop().unwrap();
        assert!(out.iter().all(|o| o.is_none()));
        assert_eq!(last, Some(packet));
    }
}
