//! Laws of the orderer over single pushes and over whole runs.

use crate::packet::Packet;
use crate::reorder::{held_wf, ids_between, push_fits, push_step};
use vstd::prelude::*;

verus! {

/// A push from a sound state reaches a sound state, and the packets it hands out
/// carry the ids from the one expected on, one after another.
pub proof fn lemma_push_hands_out_consecutive_ids(
    next: u32,
    held: Map<u32, Packet>,
    p: Packet,
    next2: u32,
    held2: Map<u32, Packet>,
    out: Seq<Packet>,
)
    requires
        held_wf(next, held),
        push_step(next, held, p, next2, held2, out),
    ensures
        held_wf(next2, held2),
        forall|i: int| 0 <= i < out.len() ==> #[trigger] out[i].packet_id == next + i,
{
    if p.packet_id == next {
        assert forall|i: int| 0 <= i < out.len() implies #[trigger] out[i].packet_id == next + i by {
            if i > 0 {
                assert(held.contains_key((next + i) as u32));
            }
        }
    }
}

/// A push loses no packet: the ids held after it, together with the ids it hands
/// out, are the ids held before it together with the id of the packet pushed.
pub proof fn lemma_push_keeps_every_packet(
    next: u32,
    held: Map<u32, Packet>,
    p: Packet,
    next2: u32,
    held2: Map<u32, Packet>,
    out: Seq<Packet>,
)
    requires
        held_wf(next, held),
        push_step(next, held, p, next2, held2, out),
    ensures
        forall|k: u32|
            (held.contains_key(k) || k == p.packet_id) <==> (held2.contains_key(k) || exists|i: int|
                0 <= i < out.len() && #[trigger] out[i].packet_id == k),
{
    lemma_push_hands_out_consecutive_ids(next, held, p, next2, held2, out);
    assert forall|k: u32|
        (held.contains_key(k) || k == p.packet_id) <==> (held2.contains_key(k) || exists|i: int|
            0 <= i < out.len() && #[trigger] out[i].packet_id == k) by {
        if p.packet_id == next {
            if next < k < next2 {
                let i = k - next;
                assert(out[i].packet_id == k);
                assert(held.contains_key((next + i) as u32));
            }
            if k == next {
                assert(out[0].packet_id == k);
            }
            if exists|i: int| 0 <= i < out.len() && #[trigger] out[i].packet_id == k {
                let i = choose|i: int| 0 <= i < out.len() && #[trigger] out[i].packet_id == k;
                if i > 0 {
                    assert(held.contains_key((next + i) as u32));
                }
            }
        }
    }
}

/// A run of an orderer: `states[j]` is the state (expected id, held packets)
/// before the `j`-th push, `arrivals[j]` the packet pushed and `outs[j]` what the
/// push handed out.
pub open spec fn is_run(
    states: Seq<(u32, Map<u32, Packet>)>,
    arrivals: Seq<Packet>,
    outs: Seq<Seq<Packet>>,
) -> bool {
    &&& states.len() == arrivals.len() + 1
    &&& outs.len() == arrivals.len()
    &&& forall|j: int|
        0 <= j < arrivals.len() ==> push_step(
            states[j].0,
            states[j].1,
            #[trigger] arrivals[j],
            states[j + 1].0,
            states[j + 1].1,
            outs[j],
        )
}

/// `arrivals` holds each packet of `sent` once, in some order, where each packet
/// of `sent` has its position as its id.
pub open spec fn arrives_permuted(sent: Seq<Packet>, arrivals: Seq<Packet>) -> bool {
    &&& forall|i: int| 0 <= i < sent.len() ==> #[trigger] sent[i].packet_id == i
    &&& arrivals.len() == sent.len()
    &&& forall|j: int|
        0 <= j < arrivals.len() ==> #[trigger] arrivals[j].packet_id < sent.len() && arrivals[j]
            == sent[arrivals[j].packet_id as int]
    &&& forall|j1: int, j2: int|
        0 <= j1 < arrivals.len() && 0 <= j2 < arrivals.len() && j1 != j2
            ==> #[trigger] arrivals[j1].packet_id != #[trigger] arrivals[j2].packet_id
    &&& forall|i: int|
        0 <= i < sent.len() ==> #[trigger] arrived_before(arrivals, arrivals.len() as int, i)
}

/// Whether a packet with id `k` is among the first `j` arrivals.
pub open spec fn arrived_before(arrivals: Seq<Packet>, j: int, k: int) -> bool {
    exists|jj: int| 0 <= jj < j && #[trigger] arrivals[jj].packet_id == k
}

/// What holds after the first `j` pushes of a run fed with a permutation of `sent`.
spec fn run_prefix_inv(
    sent: Seq<Packet>,
    arrivals: Seq<Packet>,
    states: Seq<(u32, Map<u32, Packet>)>,
    outs: Seq<Seq<Packet>>,
    j: int,
) -> bool {
    let next = states[j].0;
    let held = states[j].1;
    &&& next <= sent.len()
    &&& outs.take(j).flatten_alt() == sent.take(next as int)
    &&& held_wf(next, held)
    &&& !arrived_before(arrivals, j, next as int)
    &&& forall|k: int| 0 <= k < next ==> arrived_before(arrivals, j, k)
    &&& forall|k: u32| #[trigger]
        held.contains_key(k) <==> (arrived_before(arrivals, j, k as int) && next < k)
    &&& forall|k: u32| #[trigger] held.contains_key(k) ==> k < sent.len() && held[k] == sent[k as int]
}

#[verifier::spinoff_prover]
proof fn lemma_run_prefix(
    sent: Seq<Packet>,
    arrivals: Seq<Packet>,
    states: Seq<(u32, Map<u32, Packet>)>,
    outs: Seq<Seq<Packet>>,
    j: int,
)
    requires
        arrives_permuted(sent, arrivals),
        is_run(states, arrivals, outs),
        states[0].0 == 0,
        states[0].1 == Map::<u32, Packet>::empty(),
        0 <= j <= arrivals.len(),
    ensures
        run_prefix_inv(sent, arrivals, states, outs, j),
    decreases j,
{
    if j == 0 {
        assert(outs.take(0) =~= Seq::<Seq<Packet>>::empty());
        assert(sent.take(0) =~= Seq::<Packet>::empty());
        return;
    }
    let i = j - 1;
    lemma_run_prefix(sent, arrivals, states, outs, i);
    let next = states[i].0;
    let held = states[i].1;
    let next2 = states[j].0;
    let held2 = states[j].1;
    let a = arrivals[i];
    let out = outs[i];
    assert(push_step(next, held, a, next2, held2, out));
    lemma_push_hands_out_consecutive_ids(next, held, a, next2, held2, out);
    assert(outs.take(j).drop_last() =~= outs.take(i));
    assert(outs.take(j).flatten_alt() == outs.take(i).flatten_alt() + out);
    // The arrival at `i` has an id that did not arrive before.
    assert(!arrived_before(arrivals, i, a.packet_id as int)) by {
        if arrived_before(arrivals, i, a.packet_id as int) {
            let jj = choose|jj: int| 0 <= jj < i && #[trigger] arrivals[jj].packet_id == a.packet_id;
            assert(arrivals[jj].packet_id != arrivals[i].packet_id);
        }
    }
    assert forall|k: int| arrived_before(arrivals, j, k) <==> (arrived_before(arrivals, i, k)
        || k == a.packet_id) by {
        if arrived_before(arrivals, j, k) {
            let jj = choose|jj: int| 0 <= jj < j && #[trigger] arrivals[jj].packet_id == k;
            if jj < i {
                assert(arrived_before(arrivals, i, k));
            }
        }
        if arrived_before(arrivals, i, k) {
            let jj = choose|jj: int| 0 <= jj < i && #[trigger] arrivals[jj].packet_id == k;
            assert(arrivals[jj].packet_id == k);
        }
        if k == a.packet_id {
            assert(arrivals[i].packet_id == k);
        }
    }
    assert(a.packet_id < sent.len() && a == sent[a.packet_id as int]);
    if a.packet_id != next {
        assert(out =~= Seq::<Packet>::empty());
        assert(outs.take(j).flatten_alt() =~= outs.take(i).flatten_alt());
        if a.packet_id < next {
            assert(arrived_before(arrivals, i, a.packet_id as int));
        }
        assert forall|k: u32| #[trigger]
            held2.contains_key(k) <==> (arrived_before(arrivals, j, k as int) && next2 < k) by {
            assert(arrived_before(arrivals, j, k as int) <==> (arrived_before(arrivals, i, k as int)
                || k == a.packet_id));
        }
        assert forall|k: int| 0 <= k < next2 implies arrived_before(arrivals, j, k) by {
            assert(arrived_before(arrivals, i, k));
        }
        assert(!arrived_before(arrivals, j, next2 as int)) by {
            assert(arrived_before(arrivals, j, next2 as int) <==> (arrived_before(arrivals, i, next2 as int)
                || next2 == a.packet_id));
        }
    } else {
        // The run handed out is the stretch of `sent` from `next` to `next2`.
        assert forall|t: int| 0 <= t < out.len() implies #[trigger] out[t] == sent[next + t] by {
            if t > 0 {
                assert(held.contains_key((next + t) as u32));
            }
        }
        assert(next2 <= sent.len()) by {
            let t = out.len() - 1;
            if t > 0 {
                assert(held.contains_key((next + t) as u32));
            }
        }
        assert(sent.take(next2 as int) =~= sent.take(next as int) + out) by {
            assert forall|t: int| 0 <= t < next2 implies #[trigger] sent.take(next2 as int)[t] == (
            sent.take(next as int) + out)[t] by {
                if t >= next {
                    assert(out[t - next] == sent[t]);
                }
            }
        }
        assert forall|k: u32| #[trigger]
            held2.contains_key(k) <==> (arrived_before(arrivals, j, k as int) && next2 < k) by {
            assert(arrived_before(arrivals, j, k as int) <==> (arrived_before(arrivals, i, k as int)
                || k == a.packet_id));
            if held.contains_key(k) {
                assert(arrived_before(arrivals, i, k as int));
            }
        }
        assert forall|k: int| 0 <= k < next2 implies arrived_before(arrivals, j, k) by {
            assert(arrived_before(arrivals, j, k) <==> (arrived_before(arrivals, i, k) || k
                == a.packet_id));
            if next < k {
                let t = k - next;
                assert(held.contains_key((next + t) as u32));
                assert(held.contains_key(k as u32));
            }
        }
        assert(!arrived_before(arrivals, j, next2 as int)) by {
            assert(arrived_before(arrivals, j, next2 as int) <==> (arrived_before(arrivals, i, next2 as int)
                || next2 == a.packet_id));
            if arrived_before(arrivals, i, next2 as int) {
                assert(held.contains_key(next2));
            }
        }
    }
}

/// Reordering restores the order of sending: when the packets of a connection,
/// numbered from 0 as they were sent, arrive in any order, each exactly once, an
/// orderer that starts afresh hands out all of them, in the order they were
/// sent, and holds nothing at the end.
#[verifier::spinoff_prover]
pub proof fn lemma_run_restores_sent_order(
    sent: Seq<Packet>,
    arrivals: Seq<Packet>,
    states: Seq<(u32, Map<u32, Packet>)>,
    outs: Seq<Seq<Packet>>,
)
    requires
        arrives_permuted(sent, arrivals),
        is_run(states, arrivals, outs),
        states[0].0 == 0,
        states[0].1 == Map::<u32, Packet>::empty(),
    ensures
        outs.flatten_alt() == sent,
        states.last().0 == sent.len(),
        states.last().1 == Map::<u32, Packet>::empty(),
{
    let n = arrivals.len() as int;
    lemma_run_prefix(sent, arrivals, states, outs, n);
    let next = states[n].0;
    let held = states[n].1;
    if next < sent.len() {
        assert(arrived_before(arrivals, n, next as int));
    }
    assert(outs.take(n) =~= outs);
    assert(sent.take(next as int) =~= sent);
    assert forall|k: u32| !#[trigger] held.contains_key(k) by {
        if held.contains_key(k) {
            let jj = choose|jj: int| 0 <= jj < n && #[trigger] arrivals[jj].packet_id == k;
        }
    }
    assert(held =~= Map::<u32, Packet>::empty());
}

/// Whether packet `p` is among the first `j` arrivals.
pub open spec fn was_pushed(arrivals: Seq<Packet>, j: int, p: Packet) -> bool {
    exists|jj: int| 0 <= jj < j && #[trigger] arrivals[jj] == p
}

/// Whether no two of the first `j` arrivals carry the same id.
pub open spec fn ids_distinct(arrivals: Seq<Packet>, j: int) -> bool {
    forall|j1: int, j2: int|
        0 <= j1 < j && 0 <= j2 < j && j1 != j2 ==> #[trigger] arrivals[j1].packet_id
            != #[trigger] arrivals[j2].packet_id
}

/// What holds after the first `j` pushes of a run fed with any packets, where
/// the orderer expects `next`, holds `held` and has handed out `flat`.
spec fn run_facts(
    arrivals: Seq<Packet>,
    j: int,
    next: u32,
    held: Map<u32, Packet>,
    flat: Seq<Packet>,
) -> bool {
    &&& held_wf(next, held)
    &&& flat.len() == next
    &&& forall|i: int| 0 <= i < flat.len() ==> (#[trigger] flat[i]).packet_id == i
    &&& forall|i: int| 0 <= i < flat.len() ==> was_pushed(arrivals, j, #[trigger] flat[i])
    &&& forall|k: u32| #[trigger]
        arrived_before(arrivals, j, k as int) && next <= k ==> held.contains_key(k)
    &&& forall|k: u32| #[trigger] held.contains_key(k) ==> was_pushed(arrivals, j, held[k])
    &&& ids_distinct(arrivals, j) ==> forall|k: u32| #[trigger] held.contains_key(k) ==> next < k
}

proof fn lemma_pushed_extends(arrivals: Seq<Packet>, i: int, p: Packet)
    requires
        0 <= i < arrivals.len(),
        was_pushed(arrivals, i, p) || p == arrivals[i],
    ensures
        was_pushed(arrivals, i + 1, p),
{
    if p == arrivals[i] {
        assert(arrivals[i] == p);
    } else {
        let jj = choose|jj: int| 0 <= jj < i && #[trigger] arrivals[jj] == p;
        assert(arrivals[jj] == p);
    }
}

proof fn lemma_arrived_last(arrivals: Seq<Packet>, i: int, k: int)
    requires
        0 <= i < arrivals.len(),
    ensures
        arrived_before(arrivals, i + 1, k) <==> (arrived_before(arrivals, i, k) || k
            == arrivals[i].packet_id),
{
    if arrived_before(arrivals, i + 1, k) {
        let jj = choose|jj: int| 0 <= jj < i + 1 && #[trigger] arrivals[jj].packet_id == k;
        if jj < i {
            assert(arrivals[jj].packet_id == k);
        }
    }
    if arrived_before(arrivals, i, k) {
        let jj = choose|jj: int| 0 <= jj < i && #[trigger] arrivals[jj].packet_id == k;
        assert(arrivals[jj].packet_id == k);
    }
    if k == arrivals[i].packet_id {
        assert(arrivals[i].packet_id == k);
    }
}

proof fn lemma_pushed_arrived(arrivals: Seq<Packet>, j: int, p: Packet)
    requires
        was_pushed(arrivals, j, p),
    ensures
        arrived_before(arrivals, j, p.packet_id as int),
{
    let jj = choose|jj: int| 0 <= jj < j && #[trigger] arrivals[jj] == p;
    assert(arrivals[jj].packet_id == p.packet_id);
}

proof fn lemma_distinct_prefix(arrivals: Seq<Packet>, i: int)
    requires
        0 <= i < arrivals.len(),
        ids_distinct(arrivals, i + 1),
    ensures
        ids_distinct(arrivals, i),
        !arrived_before(arrivals, i, arrivals[i].packet_id as int),
{
    assert forall|j1: int, j2: int|
        0 <= j1 < i && 0 <= j2 < i && j1 != j2 implies #[trigger] arrivals[j1].packet_id
        != #[trigger] arrivals[j2].packet_id by {
        assert(arrivals[j1].packet_id != arrivals[j2].packet_id);
    }
    if arrived_before(arrivals, i, arrivals[i].packet_id as int) {
        let jj = choose|jj: int|
            0 <= jj < i && #[trigger] arrivals[jj].packet_id == arrivals[i].packet_id;
        assert(arrivals[jj].packet_id != arrivals[i].packet_id);
    }
}

proof fn lemma_below_next_arrived(
    arrivals: Seq<Packet>,
    j: int,
    next: u32,
    held: Map<u32, Packet>,
    flat: Seq<Packet>,
    k: int,
)
    requires
        run_facts(arrivals, j, next, held, flat),
        0 <= k < next,
    ensures
        arrived_before(arrivals, j, k),
{
    assert(flat[k].packet_id == k);
    assert(was_pushed(arrivals, j, flat[k]));
    lemma_pushed_arrived(arrivals, j, flat[k]);
}

/// A push of a packet that is not the one expected keeps the run's facts.
#[verifier::spinoff_prover]
proof fn lemma_run_facts_hold(
    arrivals: Seq<Packet>,
    i: int,
    next: u32,
    held: Map<u32, Packet>,
    flat: Seq<Packet>,
    held2: Map<u32, Packet>,
)
    requires
        0 <= i < arrivals.len(),
        run_facts(arrivals, i, next, held, flat),
        arrivals[i].packet_id != next,
        held2 == held.insert(arrivals[i].packet_id, arrivals[i]),
    ensures
        run_facts(arrivals, i + 1, next, held2, flat),
{
    let a = arrivals[i];
    let id = a.packet_id;
    assert forall|t: int| 0 <= t < flat.len() implies was_pushed(arrivals, i + 1, #[trigger] flat[t]) by {
        lemma_pushed_extends(arrivals, i, flat[t]);
    }
    assert forall|k: u32| #[trigger]
        arrived_before(arrivals, i + 1, k as int) && next <= k implies held2.contains_key(k) by {
        lemma_arrived_last(arrivals, i, k as int);
    }
    assert forall|k: u32| #[trigger] held2.contains_key(k) implies was_pushed(arrivals, i + 1, held2[k]) by {
        if k == id {
            lemma_pushed_extends(arrivals, i, a);
        } else {
            lemma_pushed_extends(arrivals, i, held[k]);
        }
    }
    if ids_distinct(arrivals, i + 1) {
        lemma_distinct_prefix(arrivals, i);
        if id < next {
            lemma_below_next_arrived(arrivals, i, next, held, flat, id as int);
        }
        assert forall|k: u32| #[trigger] held2.contains_key(k) implies next < k by {
            if k != id {
                assert(held.contains_key(k));
            }
        }
    }
}

/// A push of the packet expected keeps the run's facts.
#[verifier::spinoff_prover]
proof fn lemma_run_facts_drain(
    arrivals: Seq<Packet>,
    i: int,
    next: u32,
    held: Map<u32, Packet>,
    flat: Seq<Packet>,
    next2: u32,
    held2: Map<u32, Packet>,
    out: Seq<Packet>,
)
    requires
        0 <= i < arrivals.len(),
        run_facts(arrivals, i, next, held, flat),
        arrivals[i].packet_id == next,
        push_step(next, held, arrivals[i], next2, held2, out),
    ensures
        run_facts(arrivals, i + 1, next2, held2, flat + out),
{
    let a = arrivals[i];
    let flat2 = flat + out;
    lemma_push_hands_out_consecutive_ids(next, held, a, next2, held2, out);
    assert forall|t: int| 0 <= t < flat2.len() implies (#[trigger] flat2[t]).packet_id == t by {
        if t < flat.len() {
            assert(flat2[t] == flat[t]);
        } else {
            assert(flat2[t] == out[t - flat.len()]);
            assert(out[t - flat.len()].packet_id == next + (t - flat.len()));
        }
    }
    assert forall|t: int| 0 <= t < flat2.len() implies was_pushed(arrivals, i + 1, #[trigger] flat2[t]) by {
        if t < flat.len() {
            assert(flat2[t] == flat[t]);
            lemma_pushed_extends(arrivals, i, flat[t]);
        } else {
            let u = t - flat.len();
            assert(flat2[t] == out[u]);
            if u == 0 {
                lemma_pushed_extends(arrivals, i, a);
            } else {
                assert(held.contains_key((next + u) as u32));
                lemma_pushed_extends(arrivals, i, held[(next + u) as u32]);
            }
        }
    }
    assert forall|k: u32| #[trigger]
        arrived_before(arrivals, i + 1, k as int) && next2 <= k implies held2.contains_key(k) by {
        lemma_arrived_last(arrivals, i, k as int);
        assert(held.contains_key(k));
        assert(!ids_between(next as int, next2 as int).contains(k));
    }
    assert forall|k: u32| #[trigger] held2.contains_key(k) implies was_pushed(arrivals, i + 1, held2[k]) by {
        assert(held.contains_key(k));
        lemma_pushed_extends(arrivals, i, held[k]);
    }
    if ids_distinct(arrivals, i + 1) {
        lemma_distinct_prefix(arrivals, i);
        assert forall|k: u32| #[trigger] held2.contains_key(k) implies next2 < k by {
            assert(held.contains_key(k));
            assert(!ids_between(next as int, next2 as int).contains(k));
        }
    }
}

proof fn lemma_run_inv(
    states: Seq<(u32, Map<u32, Packet>)>,
    arrivals: Seq<Packet>,
    outs: Seq<Seq<Packet>>,
    j: int,
)
    requires
        is_run(states, arrivals, outs),
        states[0].0 == 0,
        states[0].1 == Map::<u32, Packet>::empty(),
        0 <= j <= arrivals.len(),
    ensures
        run_facts(arrivals, j, states[j].0, states[j].1, outs.take(j).flatten_alt()),
    decreases j,
{
    if j == 0 {
        assert(outs.take(0) =~= Seq::<Seq<Packet>>::empty());
        return;
    }
    let i = j - 1;
    lemma_run_inv(states, arrivals, outs, i);
    let flat = outs.take(i).flatten_alt();
    assert(outs.take(j).drop_last() =~= outs.take(i));
    assert(outs.take(j).flatten_alt() == flat + outs[i]);
    assert(push_step(states[i].0, states[i].1, arrivals[i], states[j].0, states[j].1, outs[i]));
    if arrivals[i].packet_id != states[i].0 {
        assert(flat + outs[i] =~= flat);
        lemma_run_facts_hold(arrivals, i, states[i].0, states[i].1, flat, states[j].1);
    } else {
        lemma_run_facts_drain(
            arrivals,
            i,
            states[i].0,
            states[i].1,
            flat,
            states[j].0,
            states[j].1,
            outs[i],
        );
    }
}

/// What an orderer that starts afresh has done after any run, whatever packets
/// came in (ids missing, repeated or in any order): the packets it handed out, in
/// order, carry the ids 0, 1, 2, ... up to the one expected next, with no gap,
/// repeat or inversion, and each of them is a packet that came in; every id below
/// the expected one came in, and the expected one did not, so the orderer stands
/// at the first id that has not come in; every packet that came in with an id at
/// or above the expected one is held, under its id, so none is lost; and where
/// no id came in twice, every held id is above the expected one.
#[verifier::spinoff_prover]
pub proof fn lemma_run_hands_out_in_order(
    states: Seq<(u32, Map<u32, Packet>)>,
    arrivals: Seq<Packet>,
    outs: Seq<Seq<Packet>>,
)
    requires
        is_run(states, arrivals, outs),
        states[0].0 == 0,
        states[0].1 == Map::<u32, Packet>::empty(),
    ensures
        ({
            let n = arrivals.len() as int;
            let next = states.last().0;
            let held = states.last().1;
            let flat = outs.flatten_alt();
            &&& flat.len() == next
            &&& forall|i: int|
                0 <= i < flat.len() ==> #[trigger] flat[i].packet_id == i && was_pushed(
                    arrivals,
                    n,
                    flat[i],
                )
            &&& forall|k: int| 0 <= k < next ==> #[trigger] arrived_before(arrivals, n, k)
            &&& !arrived_before(arrivals, n, next as int)
            &&& forall|k: u32| #[trigger]
                arrived_before(arrivals, n, k as int) && next <= k ==> held.contains_key(k)
            &&& forall|k: u32| #[trigger]
                held.contains_key(k) ==> held[k].packet_id == k && was_pushed(arrivals, n, held[k])
            &&& ids_distinct(arrivals, n) ==> forall|k: u32| #[trigger]
                held.contains_key(k) ==> next < k
        }),
{
    let n = arrivals.len() as int;
    lemma_run_inv(states, arrivals, outs, n);
    let next = states[n].0;
    let held = states[n].1;
    let flat = outs.take(n).flatten_alt();
    assert(outs.take(n) =~= outs);
    assert(flat == outs.flatten_alt());
    assert(states.last() == states[n]);
    assert forall|k: int| 0 <= k < next implies #[trigger] arrived_before(arrivals, n, k) by {
        lemma_below_next_arrived(arrivals, n, next, held, flat, k);
    }
    assert forall|t: int| 0 <= t < flat.len() implies #[trigger] flat[t].packet_id == t
        && was_pushed(arrivals, n, flat[t]) by {
        assert(flat[t].packet_id == t);
        assert(was_pushed(arrivals, n, flat[t]));
    }
    if arrived_before(arrivals, n, next as int) {
        assert(held.contains_key(next));
    }
}

/// A push is refused only where it would carry the expected id past `u32::MAX`:
/// the packet pushed is the one expected and every id after it is held. Any
/// other packet may be pushed; in particular the expected one may be pushed
/// whenever some id after it is not held.
pub proof fn lemma_push_refused_only_at_the_limit(next: u32, held: Map<u32, Packet>, id: u32)
    ensures
        !push_fits(next, held, id) <==> (id == next && forall|k: u32|
            next < k ==> #[trigger] held.contains_key(k)),
        id != next ==> push_fits(next, held, id),
        next < u32::MAX && !held.contains_key((next + 1) as u32) ==> push_fits(next, held, next),
{
    if next < u32::MAX && !held.contains_key((next + 1) as u32) {
        let j = (next + 1) as u32;
        assert(next < j && !held.contains_key(j));
    }
}

} // verus!
