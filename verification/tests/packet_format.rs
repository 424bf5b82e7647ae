use gkd::packet::{Packet, PacketHeader, PacketKind, PACKET_HEAD_SIZE};
use gkd::tunnel::{peer_id_bytes, peer_id_from_bytes, HANDSHAKE_SIZE};

#[test]
fn kind_bytes_are_one_two_three() {
    assert_eq!(PacketKind::Connect.to_byte(), 1);
    assert_eq!(PacketKind::Disconnect.to_byte(), 2);
    assert_eq!(PacketKind::Data.to_byte(), 3);
    assert_eq!(PacketKind::from_byte(1), Some(PacketKind::Connect));
    assert_eq!(PacketKind::from_byte(2), Some(PacketKind::Disconnect));
    assert_eq!(PacketKind::from_byte(3), Some(PacketKind::Data));
    assert_eq!(PacketKind::from_byte(0), None);
    assert_eq!(PacketKind::from_byte(4), None);
}

#[test]
fn pack_data_packet_exact_bytes() {
    let mut p = Packet::new_data(0x0102_0304, 0x0a0b_0c0d, vec![9, 8, 7]);
    let bytes = p.pack().to_vec();
    assert_eq!(
        bytes,
        vec![3, 0x0a, 0x0b, 0x0c, 0x0d, 0x01, 0x02, 0x03, 0x04, 0, 0, 0, 3, 9, 8, 7]
    );
    assert_eq!(bytes.len(), PACKET_HEAD_SIZE + 3);
}

#[test]
fn pack_disconnect_packet_is_header_only() {
    let mut p = Packet::new_disconnect(5, 7);
    let bytes = p.pack().to_vec();
    assert_eq!(bytes, vec![2, 0, 0, 0, 7, 0, 0, 0, 5, 0, 0, 0, 0]);
}

#[test]
fn pack_connect_packet_carries_address() {
    let mut p = Packet::new_connect(0, 1, "127.0.0.1:5555");
    assert_eq!(p.kind, PacketKind::Connect);
    assert_eq!(p.data_length, 14);
    let bytes = p.pack().to_vec();
    assert_eq!(&bytes[..PACKET_HEAD_SIZE], &[1, 0, 0, 0, 1, 0, 0, 0, 0, 0, 0, 0, 14]);
    assert_eq!(&bytes[PACKET_HEAD_SIZE..], "127.0.0.1:5555".as_bytes());
}

#[test]
fn pack_keeps_first_encoding() {
    let mut p = Packet::new_data(1, 2, vec![1, 2]);
    let first = p.pack().to_vec();
    p.packet_id = 99;
    let second = p.pack().to_vec();
    assert_eq!(first, second);
    assert_eq!(p.cache.bytes(), Some(&first[..]));
}

#[test]
fn pack_uses_data_length_field_as_given() {
    let mut p = Packet::new_data(0, 0, vec![5]);
    p.data_length = 0x0100_0000;
    let bytes = p.pack().to_vec();
    assert_eq!(&bytes[9..13], &[1, 0, 0, 0]);
    assert_eq!(&bytes[13..], &[5]);
}

#[test]
fn parse_header_reads_fields() {
    let h = PacketHeader::parse(&[3, 0, 0, 1, 0, 0xff, 0xff, 0xff, 0xff, 0, 0, 0, 2]).unwrap();
    assert_eq!(h.kind, PacketKind::Data);
    assert_eq!(h.connection_id, 256);
    assert_eq!(h.packet_id, u32::MAX);
    assert_eq!(h.data_length, 2);
}

#[test]
fn parse_header_refuses_unknown_kind() {
    assert_eq!(PacketHeader::parse(&[0; PACKET_HEAD_SIZE]), None);
    assert_eq!(PacketHeader::parse(&[7, 0, 0, 0, 0, 0, 0, 0, 0, 0, 0, 0, 0]), None);
}

#[test]
fn packet_roundtrips_through_wire() {
    let mut p = Packet::new_data(77, 0xdead_beef, vec![1, 2, 3, 4, 5]);
    let bytes = p.pack().to_vec();
    let h = PacketHeader::parse(&bytes[..PACKET_HEAD_SIZE]).unwrap();
    assert_eq!(h.kind, PacketKind::Data);
    assert_eq!(h.connection_id, 0xdead_beef);
    assert_eq!(h.packet_id, 77);
    assert_eq!(h.data_length, 5);
    let q = Packet::from_header(h, bytes[PACKET_HEAD_SIZE..].to_vec());
    assert_eq!(q.data, Some(vec![1, 2, 3, 4, 5]));
    assert_eq!(q.packet_id, 77);
    assert_eq!(q.cache.bytes(), None);
}

#[test]
fn connect_address_roundtrip() {
    let p = Packet::new_connect(0, 3, "example.org:80");
    assert_eq!(p.connect_address(), Some("example.org:80".to_string()));
    let u = Packet::new_connect(0, 3, "hôte:1");
    assert_eq!(u.connect_address(), Some("hôte:1".to_string()));
}

#[test]
fn connect_address_of_other_kinds_and_bad_utf8() {
    assert_eq!(Packet::new_data(0, 0, b"a:1".to_vec()).connect_address(), None);
    assert_eq!(Packet::new_disconnect(0, 0).connect_address(), None);
    let h = PacketHeader { kind: PacketKind::Connect, connection_id: 0, packet_id: 0, data_length: 2 };
    let bad = Packet::from_header(h, vec![0xff, 0xfe]);
    assert_eq!(bad.connect_address(), None);
}

#[test]
fn handshake_roundtrip() {
    let b = peer_id_bytes(0x1234_5678);
    assert_eq!(b, vec![0x12, 0x34, 0x56, 0x78]);
    assert_eq!(b.len(), HANDSHAKE_SIZE);
    assert_eq!(peer_id_from_bytes(&b), 0x1234_5678);
    assert_eq!(peer_id_from_bytes(&[0, 0, 0, 0]), 0);
    assert_eq!(peer_id_from_bytes(&[0xff, 0xff, 0xff, 0xff]), u32::MAX);
}
