use gkd::packet::{Packet, PacketKind};
use gkd::recv::RecvBuffer;
use gkd::route::{ClientRoute, IdTable, ServerRoute};
use gkd::send::PacketNumbering;

#[test]
fn empty_buffer_reads_nothing() {
    let mut b = RecvBuffer::new();
    assert!(b.is_empty());
    assert_eq!(b.read_buffered(10), None);
}

#[test]
fn data_packet_read_splits_at_max() {
    let mut b = RecvBuffer::new();
    let got = b.read_packet(Packet::new_data(0, 1, vec![1, 2, 3, 4, 5]), 2);
    assert_eq!(got, vec![1, 2]);
    assert_eq!(b.len(), 3);
    assert_eq!(b.read_buffered(2), Some(vec![3, 4]));
    assert_eq!(b.read_buffered(10), Some(vec![5]));
    assert_eq!(b.read_buffered(10), None);
}

#[test]
fn data_packet_smaller_than_request_is_read_whole() {
    let mut b = RecvBuffer::new();
    let got = b.read_packet(Packet::new_data(0, 1, vec![7, 8]), 100);
    assert_eq!(got, vec![7, 8]);
    assert!(b.is_empty());
}

#[test]
fn connect_and_disconnect_read_zero_bytes() {
    let mut b = RecvBuffer::new();
    assert!(b.read_packet(Packet::new_connect(0, 1, "a:1"), 10).is_empty());
    assert!(b.read_packet(Packet::new_disconnect(1, 1), 10).is_empty());
    assert!(b.is_empty());
}

#[test]
fn read_of_zero_bytes_keeps_everything() {
    let mut b = RecvBuffer::new();
    assert!(b.read_packet(Packet::new_data(0, 1, vec![1, 2]), 0).is_empty());
    assert_eq!(b.len(), 2);
    assert_eq!(b.read_buffered(0), Some(vec![]));
    assert_eq!(b.len(), 2);
}

#[test]
fn stream_is_kept_across_reads() {
    let chunks: Vec<Vec<u8>> = vec![vec![1, 2, 3], vec![4], vec![5, 6, 7, 8]];
    let mut b = RecvBuffer::new();
    let mut got = Vec::new();
    for c in chunks.iter() {
        got.extend(b.read_packet(Packet::new_data(0, 0, c.clone()), 2));
        while let Some(more) = b.read_buffered(1) {
            got.extend(more);
        }
    }
    assert_eq!(got, vec![1, 2, 3, 4, 5, 6, 7, 8]);
}

#[test]
fn numbering_counts_packets() {
    let mut n = PacketNumbering::new(42);
    assert_eq!(n.connection_id(), 42);
    let c = n.connect_packet("host:1");
    let d = n.data_packet(vec![1]);
    let e = n.disconnect_packet();
    assert_eq!((c.packet_id, d.packet_id, e.packet_id), (0, 1, 2));
    assert_eq!(c.kind, PacketKind::Connect);
    assert_eq!(d.kind, PacketKind::Data);
    assert_eq!(e.kind, PacketKind::Disconnect);
    assert_eq!(c.connection_id, 42);
    assert_eq!(n.take_id(), 3);
}

#[test]
fn numbering_starts_at_zero_for_each_connection() {
    let mut a = PacketNumbering::new(1);
    let mut b = PacketNumbering::new(2);
    assert_eq!(a.take_id(), 0);
    assert_eq!(a.take_id(), 1);
    assert_eq!(b.take_id(), 0);
    assert_eq!(b.data_packet(vec![]).connection_id, 2);
}

#[test]
fn client_route_decisions() {
    let mut t: IdTable<&str> = IdTable::new();
    assert_eq!(t.route_client(1), ClientRoute::Ignore);
    t.insert(1, "conn");
    assert_eq!(t.route_client(1), ClientRoute::Deliver);
    assert_eq!(t.route_client(1), ClientRoute::Deliver);
    assert!(t.contains(1));
    assert_eq!(t.route_client(2), ClientRoute::Ignore);
    t.remove(1);
    assert_eq!(t.route_client(1), ClientRoute::Ignore);
}

#[test]
fn server_route_decisions() {
    let mut t: IdTable<u8> = IdTable::new();
    assert_eq!(t.route_server(5), ServerRoute::Open);
    assert_eq!(t.insert(5, 1), None);
    assert_eq!(t.route_server(5), ServerRoute::Forward);
    assert_eq!(t.insert(5, 2), Some(1));
    assert_eq!(t.get(5), Some(&2));
    assert_eq!(t.len(), 1);
    assert_eq!(t.remove(5), Some(2));
    assert_eq!(t.remove(5), None);
    assert_eq!(t.get(5), None);
}

#[test]
fn next_data_packet_waits_for_take_id() {
    let mut n = PacketNumbering::new(3);
    let p = n.next_data_packet(vec![1, 2]);
    let q = n.next_data_packet(vec![1, 2]);
    assert_eq!((p.packet_id, q.packet_id), (0, 0));
    assert_eq!(p.data_length, 2);
    assert_eq!(p.connection_id, 3);
    assert_eq!(n.take_id(), 0);
    assert_eq!(n.next_data_packet(vec![]).packet_id, 1);
}

#[test]
fn every_read_returns_bytes_while_data_remains() {
    let mut b = RecvBuffer::new();
    let packets = vec![vec![1u8, 2, 3], vec![4u8], vec![5u8, 6]];
    let mut next = 0;
    let mut got = Vec::new();
    loop {
        let r = match b.read_buffered(2) {
            Some(bytes) => bytes,
            None => {
                if next == packets.len() {
                    break;
                }
                next += 1;
                b.read_packet(Packet::new_data(0, 0, packets[next - 1].clone()), 2)
            }
        };
        assert!(!r.is_empty());
        got.extend(r);
    }
    assert_eq!(got, vec![1, 2, 3, 4, 5, 6]);
}
