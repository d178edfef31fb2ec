use stegshare::fragment::{
    announced_total, fits_positions, pad_packet, split_into_fragments, Fragment, FRAGMENT_SIZE,
    LAST_POSITION,
};
use stegshare::padding::remove_trailing_zeros;
use stegshare::reassembly::{assemble, ArrivalReassembly};
use std::collections::BTreeMap;

fn picture(len: usize) -> Vec<u8> {
    (0..len).map(|i| (i % 251) as u8 + 1).collect()
}

#[test]
fn trailing_zeros_are_removed() {
    let mut data = vec![1u8, 2, 0, 0];
    remove_trailing_zeros(&mut data);
    assert_eq!(data, vec![1, 2]);
}

#[test]
fn inner_zeros_are_kept() {
    let mut data = vec![0u8, 1, 0, 3, 0];
    remove_trailing_zeros(&mut data);
    assert_eq!(data, vec![0, 1, 0, 3]);
}

#[test]
fn all_zero_data_becomes_empty() {
    let mut data = vec![0u8; 5];
    remove_trailing_zeros(&mut data);
    assert!(data.is_empty());
    let mut empty: Vec<u8> = Vec::new();
    remove_trailing_zeros(&mut empty);
    assert!(empty.is_empty());
}

#[test]
fn stripping_twice_changes_nothing_more() {
    let mut data = vec![4u8, 0, 5, 0, 0];
    remove_trailing_zeros(&mut data);
    let once = data.clone();
    remove_trailing_zeros(&mut data);
    assert_eq!(data, once);
}

#[test]
fn picture_is_cut_into_announced_fragments() {
    let data = picture(40000);
    let frags = split_into_fragments(&data, FRAGMENT_SIZE, 4);
    assert_eq!(frags.len(), 3);
    let positions: Vec<i16> = frags.iter().map(|f| f.position).collect();
    assert_eq!(positions, vec![0, 1, LAST_POSITION]);
    assert!(frags.iter().all(|f| f.total_frags_number == 3 && f.views == 4));
    assert_eq!(frags[0].packet.len(), 16384);
    assert_eq!(frags[1].packet.len(), 16384);
    assert_eq!(frags[2].packet.len(), 7232);
    assert_eq!(frags[2].packet[..], data[32768..]);
}

#[test]
fn exact_multiple_announces_one_fragment_more() {
    let data = picture(16384);
    let frags = split_into_fragments(&data, FRAGMENT_SIZE, 0);
    assert_eq!(frags.len(), 1);
    assert_eq!(frags[0].total_frags_number, 2);
    assert_eq!(frags[0].position, 0);
}

#[test]
fn empty_picture_has_no_piece() {
    let frags = split_into_fragments(&[], FRAGMENT_SIZE, 0);
    assert!(frags.is_empty());
}

#[test]
fn small_pieces_for_small_chunk_size() {
    let data = vec![1u8, 2, 3, 4, 5];
    let frags = split_into_fragments(&data, 2, 7);
    let packets: Vec<Vec<u8>> = frags.iter().map(|f| f.packet.clone()).collect();
    assert_eq!(packets, vec![vec![1, 2], vec![3, 4], vec![5]]);
    let positions: Vec<i16> = frags.iter().map(|f| f.position).collect();
    assert_eq!(positions, vec![0, 1, -1]);
}

#[test]
fn packet_is_padded_with_zeros() {
    assert_eq!(pad_packet(&[7, 8], 5), vec![7, 8, 0, 0, 0]);
    assert_eq!(pad_packet(&[7, 8], 2), vec![7, 8]);
}

#[test]
fn in_order_arrival_gives_picture_back() {
    let data = picture(40000);
    let frags = split_into_fragments(&data, FRAGMENT_SIZE, 4);
    let mut receiver = ArrivalReassembly::new(1000);
    let mut accepted = 0;
    for frag in frags {
        assert!(receiver.is_awaiting());
        receiver.accept(frag);
        accepted += 1;
    }
    assert_eq!(accepted, 3);
    assert!(!receiver.is_awaiting());
    assert_eq!(receiver.finish(), data);
}

#[test]
fn last_arrival_is_keyed_by_total() {
    let mut receiver = ArrivalReassembly::new(3);
    receiver.accept(Fragment { total_frags_number: 3, position: 0, packet: vec![2], views: 0 });
    receiver.accept(Fragment { total_frags_number: 3, position: 1, packet: vec![1], views: 0 });
    receiver.accept(Fragment { total_frags_number: 3, position: -1, packet: vec![3, 0], views: 0 });
    assert_eq!(receiver.received(), 3);
    assert_eq!(receiver.finish(), vec![2, 1, 3]);
}

#[test]
fn last_arrival_key_sorts_before_larger_positions() {
    let mut receiver = ArrivalReassembly::new(3);
    receiver.accept(Fragment { total_frags_number: 3, position: 5, packet: vec![2], views: 0 });
    receiver.accept(Fragment { total_frags_number: 3, position: 9, packet: vec![1], views: 0 });
    receiver.accept(Fragment { total_frags_number: 3, position: -1, packet: vec![3, 0], views: 0 });
    assert_eq!(receiver.finish(), vec![3, 0, 2, 1]);
}

#[test]
fn restart_forgets_pieces_but_keeps_total() {
    let mut receiver = ArrivalReassembly::new(2);
    receiver.accept(Fragment { total_frags_number: 4, position: 0, packet: vec![9], views: 0 });
    receiver.restart();
    assert_eq!(receiver.received(), 0);
    assert!(receiver.is_awaiting());
    assert!(receiver.finish().is_empty());
}

#[test]
fn padded_pieces_lose_their_padding() {
    let data = vec![5u8, 6, 7];
    let frags = split_into_fragments(&data, 2, 0);
    let mut receiver = ArrivalReassembly::new(2);
    for frag in frags {
        let packet = pad_packet(&frag.packet, 2);
        receiver.accept(Fragment { packet, ..frag });
    }
    assert_eq!(receiver.finish(), data);
}

#[test]
fn assembly_follows_key_order() {
    let mut chunks: BTreeMap<i16, Vec<u8>> = BTreeMap::new();
    chunks.insert(3, vec![4]);
    chunks.insert(-2, vec![1]);
    chunks.insert(0, vec![2, 3]);
    assert_eq!(assemble(&chunks), vec![1, 2, 3, 4]);
}

#[test]
fn announced_total_counts_one_more_than_full_pieces() {
    assert_eq!(announced_total(40000, FRAGMENT_SIZE), 3);
    assert_eq!(announced_total(16384, FRAGMENT_SIZE), 2);
    assert_eq!(announced_total(0, FRAGMENT_SIZE), 1);
    assert!(fits_positions(32768 * 2, 2));
    assert!(fits_positions(32768 * 2 + 1, 2));
    assert!(!fits_positions(32769 * 2, 2));
}

#[test]
fn totals_that_break_the_arithmetic_are_refused() {
    let fresh = ArrivalReassembly::new(1);
    assert!(!fresh.can_accept(&Fragment { total_frags_number: 0, position: 0, packet: vec![1], views: 0 }));
    assert!(fresh.can_accept(&Fragment { total_frags_number: 1, position: -1, packet: vec![1], views: 0 }));
    assert!(fresh.can_accept(&Fragment { total_frags_number: 40000, position: 0, packet: vec![1], views: 0 }));
}

#[test]
fn last_fragment_with_oversized_total_is_refused() {
    let mut receiver = ArrivalReassembly::new(40000);
    for i in 0..32767 {
        receiver.accept(Fragment { total_frags_number: 40000, position: i as i16, packet: vec![1], views: 0 });
    }
    assert_eq!(receiver.received(), 32767);
    let last = Fragment { total_frags_number: 32768, position: -1, packet: vec![1], views: 0 };
    assert!(!receiver.can_accept(&last));
    let not_last = Fragment { total_frags_number: 40000, position: -1, packet: vec![1], views: 0 };
    assert!(receiver.can_accept(&not_last));
}

#[test]
fn padded_packets_are_data_then_zeros() {
    let data = vec![1u8, 2, 3, 4, 5];
    let packets: Vec<u8> = split_into_fragments(&data, 2, 0)
        .iter()
        .flat_map(|f| pad_packet(&f.packet, 2))
        .collect();
    assert_eq!(packets, vec![1, 2, 3, 4, 5, 0]);
    let mut stripped = packets.clone();
    remove_trailing_zeros(&mut stripped);
    assert_eq!(stripped, data);
}
