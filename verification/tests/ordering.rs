use gkd::packet::Packet;
use gkd::reorder::PacketOrderer;

fn ids(ps: &[Packet]) -> Vec<u32> {
    ps.iter().map(|p| p.packet_id).collect()
}

#[test]
fn in_order_packets_pass_straight_through() {
    let mut o = PacketOrderer::new();
    for i in 0..5u32 {
        let out = o.push(Packet::new_data(i, 1, vec![i as u8]));
        assert_eq!(ids(&out), vec![i]);
    }
    assert_eq!(o.next_id(), 5);
    assert_eq!(o.held_len(), 0);
}

#[test]
fn out_of_order_packets_are_held_then_released() {
    let mut o = PacketOrderer::new();
    assert!(o.push(Packet::new_data(2, 1, vec![2])).is_empty());
    assert!(o.push(Packet::new_data(1, 1, vec![1])).is_empty());
    assert_eq!(o.held_len(), 2);
    let out = o.push(Packet::new_data(0, 1, vec![0]));
    assert_eq!(ids(&out), vec![0, 1, 2]);
    assert_eq!(o.next_id(), 3);
    assert_eq!(o.held_len(), 0);
}

#[test]
fn release_stops_at_first_gap() {
    let mut o = PacketOrderer::new();
    o.push(Packet::new_data(1, 1, vec![]));
    o.push(Packet::new_data(3, 1, vec![]));
    let out = o.push(Packet::new_data(0, 1, vec![]));
    assert_eq!(ids(&out), vec![0, 1]);
    assert_eq!(o.next_id(), 2);
    assert_eq!(o.held_len(), 1);
    let out = o.push(Packet::new_data(2, 1, vec![]));
    assert_eq!(ids(&out), vec![2, 3]);
}

#[test]
fn duplicate_held_id_keeps_latest() {
    let mut o = PacketOrderer::new();
    o.push(Packet::new_data(1, 1, vec![10]));
    o.push(Packet::new_data(1, 1, vec![11]));
    assert_eq!(o.held_len(), 1);
    let out = o.push(Packet::new_data(0, 1, vec![0]));
    assert_eq!(out[1].data, Some(vec![11]));
}

#[test]
fn old_ids_are_held_forever() {
    let mut o = PacketOrderer::new();
    o.push(Packet::new_data(0, 1, vec![]));
    let out = o.push(Packet::new_data(0, 1, vec![]));
    assert!(out.is_empty());
    assert_eq!(o.held_len(), 1);
    assert_eq!(o.next_id(), 1);
}

#[test]
fn any_permutation_is_restored() {
    let order = [4u32, 0, 3, 1, 6, 5, 2, 7];
    let mut o = PacketOrderer::new();
    let mut delivered = Vec::new();
    for &i in order.iter() {
        delivered.extend(o.push(Packet::new_data(i, 9, vec![i as u8; 2])));
    }
    assert_eq!(ids(&delivered), (0..8).collect::<Vec<u32>>());
    for (k, p) in delivered.iter().enumerate() {
        assert_eq!(p.data, Some(vec![k as u8; 2]));
    }
    assert_eq!(o.held_len(), 0);
}

#[test]
fn can_push_allows_ids_far_from_the_limit() {
    let o = PacketOrderer::new();
    assert!(o.can_push(0));
    assert!(o.can_push(u32::MAX));
    assert!(o.can_push(17));
}

#[test]
fn arbitrary_arrivals_hand_out_a_gapless_prefix() {
    let arrivals = [3u32, 1, 1, 0, 5, 0, 2, 7];
    let mut o = PacketOrderer::new();
    let mut delivered = Vec::new();
    for &i in arrivals.iter() {
        delivered.extend(o.push(Packet::new_data(i, 2, vec![])));
    }
    assert_eq!(ids(&delivered), vec![0, 1, 2, 3]);
    assert_eq!(o.next_id(), 4);
    // 5 and 7 wait above the gap at 4; the repeated 0 stays held.
    assert_eq!(o.held_len(), 3);
}
