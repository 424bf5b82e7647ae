//! The tunnel handshake: the first bytes a client sends over a new tunnel name
//! the peer the tunnel belongs to.

use crate::wire::{append_u32_be, be_u32_bytes, be_u32_value, read_u32_be};
use vstd::prelude::*;

verus! {

/// The number of bytes of the handshake.
pub const HANDSHAKE_SIZE: usize = 4;

/// The handshake that a client sends to open a tunnel of peer `peer_id`: the id,
/// big-endian.
pub fn peer_id_bytes(peer_id: u32) -> (b: Vec<u8>)
    ensures
        b@ == be_u32_bytes(peer_id),
        b@.len() == HANDSHAKE_SIZE,
{
    let mut b: Vec<u8> = Vec::new();
    append_u32_be(&mut b, peer_id);
    assert(b@ =~= be_u32_bytes(peer_id));
    b
}

/// The peer id that a server reads from the `HANDSHAKE_SIZE` bytes of a handshake.
pub fn peer_id_from_bytes(buf: &[u8]) -> (peer_id: u32)
    requires
        buf@.len() == HANDSHAKE_SIZE,
    ensures
        peer_id == be_u32_value(buf@),
{
    read_u32_be(buf)
}

} // verus!
