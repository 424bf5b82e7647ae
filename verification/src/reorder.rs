//! Restoring the order of one connection's packets.
//!
//! Packets of a connection travel over several tunnels and may arrive in any
//! order. The orderer hands them on by increasing packet id, starting at 0:
//! a packet whose id is the next one expected goes out at once, together with
//! the held packets that follow it without a gap; any other packet is held
//! until its turn comes.

use crate::packet::Packet;
use std::collections::HashMap;
use vstd::prelude::*;

verus! {

broadcast use vstd::std_specs::hash::group_hash_axioms;

/// The ids strictly between `lo` and `hi`.
pub open spec fn ids_between(lo: int, hi: int) -> Set<u32> {
    Set::new(|j: u32| lo < j < hi)
}

/// What one call of `PacketOrderer::push` does: from the state (`next`, `held`),
/// given `p`, it reaches the state (`next2`, `held2`) and hands out `out`.
///
/// A packet that is not the next one expected is held, in place of any held
/// packet with its id, and nothing goes out. The next one expected goes out,
/// followed by the held packets with the ids after it, up to the first id that
/// is not held, which becomes the next one expected.
pub open spec fn push_step(
    next: u32,
    held: Map<u32, Packet>,
    p: Packet,
    next2: u32,
    held2: Map<u32, Packet>,
    out: Seq<Packet>,
) -> bool {
    if p.packet_id != next {
        &&& next2 == next
        &&& held2 == held.insert(p.packet_id, p)
        &&& out == Seq::<Packet>::empty()
    } else {
        &&& out.len() >= 1
        &&& next2 == next + out.len()
        &&& out[0] == p
        &&& forall|i: int|
            1 <= i < out.len() ==> #[trigger] held.contains_key((next + i) as u32) && out[i]
                == held[(next + i) as u32]
        &&& !held.contains_key(next2)
        &&& held2 == held.remove_keys(ids_between(next as int, next2 as int))
    }
}

/// Whether a push of a packet with id `id` keeps the expected id within `u32`:
/// when `id` is the next one expected, some id after it up to `u32::MAX` must be
/// missing from the held packets, for the run handed out stops there.
pub open spec fn push_fits(next: u32, held: Map<u32, Packet>, id: u32) -> bool {
    id == next ==> exists|j: u32| next < j && !#[trigger] held.contains_key(j)
}

/// The state (`next`, `held`) of an orderer is sound: the packet that goes out
/// next is never held, and each held packet is held under its own id.
pub open spec fn held_wf(next: u32, held: Map<u32, Packet>) -> bool {
    &&& !held.contains_key(next)
    &&& forall|k: u32| #[trigger] held.contains_key(k) ==> held[k].packet_id == k
}

/// The state of the reordering of one connection's incoming packets.
pub struct PacketOrderer {
    next_id: u32,
    pending: HashMap<u32, Packet>,
}

impl PacketOrderer {
    /// The id of the packet that goes out next.
    pub closed spec fn next_expected(&self) -> u32 {
        self.next_id
    }

    /// The packets held until their turn, by id.
    pub closed spec fn held(&self) -> Map<u32, Packet> {
        self.pending@
    }

    /// Every orderer is sound: the packet that goes out next is never held, and
    /// each held packet is held under its own id.
    #[verifier::type_invariant]
    closed spec fn sound(self) -> bool {
        held_wf(self.next_id, self.pending@)
    }

    /// An orderer that expects packet 0 and holds nothing.
    pub fn new() -> (o: PacketOrderer)
        ensures
            o.next_expected() == 0,
            o.held() == Map::<u32, Packet>::empty(),
            held_wf(o.next_expected(), o.held()),
    {
        PacketOrderer { next_id: 0, pending: HashMap::new() }
    }

    /// The id of the packet that goes out next.
    pub fn next_id(&self) -> (id: u32)
        ensures
            id == self.next_expected(),
    {
        self.next_id
    }

    /// The number of packets held.
    pub fn held_len(&self) -> (n: usize)
        ensures
            n == self.held().len(),
    {
        self.pending.len()
    }

    /// Whether `push` may take a packet with id `id`: false only where handing
    /// out its run would carry the expected id past `u32::MAX`.
    pub fn can_push(&self, id: u32) -> (b: bool)
        ensures
            b == push_fits(self.next_expected(), self.held(), id),
            !b <==> (id == self.next_expected() && forall|k: u32|
                self.next_expected() < k ==> #[trigger] self.held().contains_key(k)),
    {
        if id != self.next_id {
            return true;
        }
        let mut j: u32 = self.next_id;
        while j < u32::MAX
            invariant
                self.next_id <= j <= u32::MAX,
                forall|k: u32| self.next_id < k <= j ==> #[trigger] self.pending@.contains_key(k),
            decreases u32::MAX - j,
        {
            j = j + 1;
            if !self.pending.contains_key(&j) {
                return true;
            }
        }
        false
    }

    /// Takes one incoming packet and returns the packets that go out now, in order.
    pub fn push(&mut self, packet: Packet) -> (out: Vec<Packet>)
        requires
            push_fits(old(self).next_expected(), old(self).held(), packet.packet_id),
        ensures
            held_wf(final(self).next_expected(), final(self).held()),
            push_step(
                old(self).next_expected(),
                old(self).held(),
                packet,
                final(self).next_expected(),
                final(self).held(),
                out@,
            ),
    {
        proof {
            use_type_invariant(&*self);
        }
        let mut out: Vec<Packet> = Vec::new();
        let ghost held0 = self.pending@;
        let mut pending: HashMap<u32, Packet> = HashMap::new();
        std::mem::swap(&mut pending, &mut self.pending);
        if packet.packet_id != self.next_id {
            pending.insert(packet.packet_id, packet);
            self.pending = pending;
            return out;
        }
        let ghost first = packet;
        let start = self.next_id;
        out.push(packet);
        assert(start < u32::MAX);
        let mut next = start + 1;
        assert(pending@ == held0.remove_keys(ids_between(start as int, next as int)));
        while pending.contains_key(&next)
            invariant
                start < next <= u32::MAX,
                out@.len() == next - start,
                out@[0] == first,
                forall|i: int|
                    1 <= i < out@.len() ==> #[trigger] held0.contains_key((start + i) as u32)
                        && out@[i] == held0[(start + i) as u32],
                pending@ == held0.remove_keys(ids_between(start as int, next as int)),
                exists|j: u32| next <= j && !#[trigger] held0.contains_key(j),
                !held0.contains_key(start),
            decreases u32::MAX - next,
        {
            let cur = next;
            let p = match pending.remove(&cur) {
                Some(p) => p,
                None => unreached(),
            };
            assert(held0.contains_key(cur) && p == held0[cur]);
            out.push(p);
            proof {
                if cur == u32::MAX {
                    let j = choose|j: u32| cur <= j && !#[trigger] held0.contains_key(j);
                    assert(j == cur);
                }
            }
            next = cur + 1;
            assert(pending@ =~= held0.remove_keys(ids_between(start as int, next as int)));
            assert(held0.contains_key((start + (out@.len() - 1)) as u32));
        }
        assert(!held0.contains_key(next));
        self.next_id = next;
        self.pending = pending;
        out
    }
}

} // verus!
