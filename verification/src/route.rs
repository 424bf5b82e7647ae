//! Where a peer sends the packets that come in over its tunnels.
//!
//! A peer keeps a table from connection ids to the channels of its connections
//! (and a server keeps one from peer ids to peers). On the client side a packet
//! for a known connection goes to its channel, waiting for room there if the
//! channel is full, and a packet for an unknown connection is ignored. On the
//! server side a packet for an unknown connection opens it.

use std::collections::HashMap;
use vstd::prelude::*;

verus! {

broadcast use vstd::std_specs::hash::group_hash_axioms;

/// A table keyed by 32-bit ids.
pub struct IdTable<V> {
    entries: HashMap<u32, V>,
}

/// What the client side does with a packet that came in.
#[derive(Clone, Copy, Debug, PartialEq, Eq, Structural)]
pub enum ClientRoute {
    /// Send it to the connection's channel, waiting for room there.
    Deliver,
    /// No connection has this id: nothing to do.
    Ignore,
}

/// What the server side does with a packet that came in.
#[derive(Clone, Copy, Debug, PartialEq, Eq, Structural)]
pub enum ServerRoute {
    /// Send it to the connection's channel.
    Forward,
    /// No connection has this id yet: open one, send it the packet and enter its
    /// channel in the table.
    Open,
}

impl<V> IdTable<V> {
    /// The entries, by id.
    pub closed spec fn entries(&self) -> Map<u32, V> {
        self.entries@
    }

    /// An empty table.
    pub fn new() -> (t: IdTable<V>)
        ensures
            t.entries() == Map::<u32, V>::empty(),
    {
        IdTable { entries: HashMap::new() }
    }

    /// The number of entries.
    pub fn len(&self) -> (n: usize)
        ensures
            n == self.entries().len(),
    {
        self.entries.len()
    }

    /// Whether an entry has id `id`.
    pub fn contains(&self, id: u32) -> (b: bool)
        ensures
            b == self.entries().contains_key(id),
    {
        self.entries.contains_key(&id)
    }

    /// The entry with id `id`, if there is one.
    pub fn get(&self, id: u32) -> (r: Option<&V>)
        ensures
            match r {
                Some(v) => self.entries().contains_key(id) && *v == self.entries()[id],
                None => !self.entries().contains_key(id),
            },
    {
        self.entries.get(&id)
    }

    /// Enters `v` under `id`, in place of any entry there, which is returned.
    pub fn insert(&mut self, id: u32, v: V) -> (r: Option<V>)
        ensures
            final(self).entries() == old(self).entries().insert(id, v),
            match r {
                Some(w) => old(self).entries().contains_key(id) && w == old(self).entries()[id],
                None => !old(self).entries().contains_key(id),
            },
    {
        self.entries.insert(id, v)
    }

    /// Takes out the entry with id `id`, if there is one.
    pub fn remove(&mut self, id: u32) -> (r: Option<V>)
        ensures
            final(self).entries() == old(self).entries().remove(id),
            match r {
                Some(w) => old(self).entries().contains_key(id) && w == old(self).entries()[id],
                None => !old(self).entries().contains_key(id),
            },
    {
        self.entries.remove(&id)
    }

    /// Decides, on the client side, what becomes of a packet for connection
    /// `connection_id`: a known connection gets it, whether or not its channel has
    /// room yet; the table stays as it is.
    pub fn route_client(&self, connection_id: u32) -> (r: ClientRoute)
        ensures
            r == if self.entries().contains_key(connection_id) {
                ClientRoute::Deliver
            } else {
                ClientRoute::Ignore
            },
    {
        if self.entries.contains_key(&connection_id) {
            ClientRoute::Deliver
        } else {
            ClientRoute::Ignore
        }
    }

    /// Decides, on the server side, what becomes of a packet for connection
    /// `connection_id`.
    pub fn route_server(&self, connection_id: u32) -> (r: ServerRoute)
        ensures
            r == if self.entries().contains_key(connection_id) {
                ServerRoute::Forward
            } else {
                ServerRoute::Open
            },
    {
        if self.entries.contains_key(&connection_id) {
            ServerRoute::Forward
        } else {
            ServerRoute::Open
        }
    }
}

} // verus!
