//! Verified core of a multi-connection TCP accelerator: the packet wire format,
//! the reordering of packets that arrive over several tunnels, the buffering of
//! received data, packet numbering on the sending side, the tunnel handshake
//! and the routing decisions of a peer.

pub mod packet;
pub mod recv;
pub mod reorder;
pub mod reorder_laws;
pub mod route;
pub mod send;
pub mod tunnel;
pub mod wire;
