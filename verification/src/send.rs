//! The send side of a connection: every packet it makes gets the next packet id.

use crate::packet::{Packet, PacketKind};
use vstd::prelude::*;
use vstd::string::StringSliceAdditionalSpecFns;

verus! {

/// The id that follows `id`; after `u32::MAX` the numbering starts again at 0.
pub open spec fn id_after(id: u32) -> u32 {
    if id == u32::MAX {
        0
    } else {
        (id + 1) as u32
    }
}

/// The packet numbering of one connection.
pub struct PacketNumbering {
    connection_id: u32,
    next_send_id: u32,
}

impl PacketNumbering {
    /// The connection whose packets are numbered.
    pub closed spec fn connection(&self) -> u32 {
        self.connection_id
    }

    /// The id that the next packet gets.
    pub closed spec fn next_send(&self) -> u32 {
        self.next_send_id
    }

    /// The numbering of a new connection: its first packet gets id 0.
    pub fn new(connection_id: u32) -> (n: PacketNumbering)
        ensures
            n.connection() == connection_id,
            n.next_send() == 0,
    {
        PacketNumbering { connection_id, next_send_id: 0 }
    }

    /// The connection whose packets are numbered.
    pub fn connection_id(&self) -> (id: u32)
        ensures
            id == self.connection(),
    {
        self.connection_id
    }

    /// Hands out the next packet id and moves on to the one after it.
    pub fn take_id(&mut self) -> (id: u32)
        ensures
            id == old(self).next_send(),
            final(self).next_send() == id_after(id),
            final(self).connection() == old(self).connection(),
    {
        let id = self.next_send_id;
        self.next_send_id = id.wrapping_add(1);
        id
    }

    /// The packet that opens the connection to `address`.
    pub fn connect_packet(&mut self, address: &str) -> (p: Packet)
        ensures
            p.kind == PacketKind::Connect,
            p.connection_id == old(self).connection(),
            p.packet_id == old(self).next_send(),
            p.data is Some,
            p.data_view() == address.spec_bytes(),
            p.data_length == address.spec_bytes().len() as u32,
            p.cached() is None,
            final(self).next_send() == id_after(old(self).next_send()),
            final(self).connection() == old(self).connection(),
    {
        let id = self.take_id();
        Packet::new_connect(id, self.connection_id, address)
    }

    /// The packet that carries `data` written to the connection.
    pub fn data_packet(&mut self, data: Vec<u8>) -> (p: Packet)
        ensures
            p.kind == PacketKind::Data,
            p.connection_id == old(self).connection(),
            p.packet_id == old(self).next_send(),
            p.data == Some(data),
            p.data_length == data@.len() as u32,
            p.cached() is None,
            final(self).next_send() == id_after(old(self).next_send()),
            final(self).connection() == old(self).connection(),
    {
        let id = self.take_id();
        Packet::new_data(id, self.connection_id, data)
    }

    /// The packet that would carry `data` as the next packet, without moving the
    /// numbering on: a writer whose send may not complete takes the id with
    /// `take_id` only once the packet is sent, so that no id is skipped.
    pub fn next_data_packet(&self, data: Vec<u8>) -> (p: Packet)
        ensures
            p.kind == PacketKind::Data,
            p.connection_id == self.connection(),
            p.packet_id == self.next_send(),
            p.data == Some(data),
            p.data_length == data@.len() as u32,
            p.cached() is None,
    {
        Packet::new_data(self.next_send_id, self.connection_id, data)
    }

    /// The packet that closes the connection.
    pub fn disconnect_packet(&mut self) -> (p: Packet)
        ensures
            p.kind == PacketKind::Disconnect,
            p.connection_id == old(self).connection(),
            p.packet_id == old(self).next_send(),
            p.data is None,
            p.data_length == 0,
            p.cached() is None,
            final(self).next_send() == id_after(old(self).next_send()),
            final(self).connection() == old(self).connection(),
    {
        let id = self.take_id();
        Packet::new_disconnect(id, self.connection_id)
    }
}

/// The `k`-th packet id handed out by a fresh numbering, counting from 0.
pub open spec fn nth_send_id(k: nat) -> u32 {
    (k % 0x1_0000_0000) as u32
}

proof fn lemma_mod_successor(k: nat)
    ensures
        nth_send_id(k + 1) == id_after(nth_send_id(k)),
{
    let x: int = k as int;
    let m: int = 0x1_0000_0000;
    let r: int = x % m;
    let q: int = x / m;
    assert(x == q * m + r && 0 <= r < m) by (nonlinear_arith)
        requires
            m == 0x1_0000_0000,
            r == x % m,
            q == x / m,
    ;
    if r == m - 1 {
        assert((x + 1) % m == 0) by (nonlinear_arith)
            requires
                x + 1 == (q + 1) * m,
                m > 0,
        ;
    } else {
        assert((x + 1) % m == r + 1) by (nonlinear_arith)
            requires
                x + 1 == q * m + (r + 1),
                0 <= r + 1 < m,
        ;
    }
}

/// A numbering counts its packets: after `k` ids have been handed out from a
/// fresh numbering, the `k`-th, counted from 0, is `k` modulo 2^32.
pub proof fn lemma_ids_count_packets(ids: Seq<u32>)
    requires
        ids.len() >= 1,
        ids[0] == 0,
        forall|k: int| 1 <= k < ids.len() ==> #[trigger] ids[k] == id_after(ids[k - 1]),
    ensures
        forall|k: int| 0 <= k < ids.len() ==> #[trigger] ids[k] == nth_send_id(k as nat),
    decreases ids.len(),
{
    if ids.len() > 1 {
        let prev = ids.drop_last();
        assert forall|k: int| 1 <= k < prev.len() implies #[trigger] prev[k] == id_after(
            prev[k - 1],
        ) by {
            assert(ids[k] == id_after(ids[k - 1]));
        }
        lemma_ids_count_packets(prev);
        let last = ids.len() - 1;
        assert(ids[last] == id_after(ids[last - 1]));
        assert(prev[last - 1] == nth_send_id((last - 1) as nat));
        lemma_mod_successor((last - 1) as nat);
        assert forall|k: int| 0 <= k < ids.len() implies #[trigger] ids[k] == nth_send_id(
            k as nat,
        ) by {
            if k < last {
                assert(prev[k] == ids[k]);
            }
        }
    }
}

/// The id after `id` is `id + 1` taken modulo 2^32.
pub proof fn lemma_id_after_wraps(id: u32)
    ensures
        id_after(id) as int == (id as int + 1) % 0x1_0000_0000,
{
}

} // verus!
