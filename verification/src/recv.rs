//! The receive side of a connection: bytes of data packets wait in a buffer
//! until a reader takes them.

use crate::packet::{Packet, PacketKind};
use crate::reorder_laws::{arrives_permuted, is_run, lemma_run_restores_sent_order};
use bytes::BytesMut;
use vstd::prelude::*;

verus! {

/// `bytes::BytesMut`, a growable byte buffer.
#[verifier::external_type_specification]
#[verifier::external_body]
pub struct ExBytesMut(bytes::BytesMut);

/// The bytes that a `BytesMut` holds, first to last.
pub uninterp spec fn bytes_mut_contents(b: BytesMut) -> Seq<u8>;

/// `BytesMut::new`: an empty buffer.
#[verifier::external_body]
fn bytes_mut_new() -> (b: BytesMut)
    ensures
        bytes_mut_contents(b) == Seq::<u8>::empty(),
{
    BytesMut::new()
}

/// `BytesMut::len`: the number of bytes held.
#[verifier::external_body]
fn bytes_mut_len(b: &BytesMut) -> (n: usize)
    ensures
        n == bytes_mut_contents(*b).len(),
{
    b.len()
}

/// `BytesMut::is_empty`: whether no byte is held.
#[verifier::external_body]
fn bytes_mut_is_empty(b: &BytesMut) -> (e: bool)
    ensures
        e == (bytes_mut_contents(*b).len() == 0),
{
    b.is_empty()
}

/// `BytesMut::extend_from_slice`: appends the bytes of `s`. The crate panics
/// where the new length overflows `usize`, which `requires` leaves out.
#[verifier::external_body]
fn bytes_mut_extend_from_slice(b: &mut BytesMut, s: &[u8])
    requires
        bytes_mut_contents(*old(b)).len() + s@.len() <= usize::MAX,
    ensures
        bytes_mut_contents(*final(b)) == bytes_mut_contents(*old(b)) + s@,
{
    b.extend_from_slice(s)
}

/// `BytesMut::split_to`: takes the first `at` bytes out into a buffer of their own
/// and keeps the rest. The crate panics where `at` exceeds the length, which
/// `requires` leaves out.
#[verifier::external_body]
fn bytes_mut_split_to(b: &mut BytesMut, at: usize) -> (front: BytesMut)
    requires
        at <= bytes_mut_contents(*old(b)).len(),
    ensures
        bytes_mut_contents(front) == bytes_mut_contents(*old(b)).subrange(0, at as int),
        bytes_mut_contents(*final(b)) == bytes_mut_contents(*old(b)).subrange(
            at as int,
            bytes_mut_contents(*old(b)).len() as int,
        ),
{
    b.split_to(at)
}

/// `From<BytesMut> for Vec<u8>`: the held bytes as a vector.
#[verifier::external_body]
fn bytes_mut_into_vec(b: BytesMut) -> (v: Vec<u8>)
    ensures
        v@ == bytes_mut_contents(b),
{
    Vec::from(b)
}

/// The smaller of two lengths.
pub open spec fn min_len(a: int, b: int) -> int {
    if a <= b {
        a
    } else {
        b
    }
}

/// A read step keeps the byte stream: what it returns, followed by what stays
/// waiting, is what waited before, followed by what arrived with it.
pub open spec fn keeps_stream(before: Seq<u8>, incoming: Seq<u8>, out: Seq<u8>, after: Seq<u8>) -> bool {
    out + after == before + incoming
}

/// The bytes that a packet brings to the reader: the data of a data packet,
/// nothing for the other kinds.
pub open spec fn incoming_bytes(packet: Packet) -> Seq<u8> {
    if packet.kind == PacketKind::Data {
        packet.data_view()
    } else {
        Seq::empty()
    }
}

/// A read of at most `max` bytes served from the waiting bytes `before`: the first
/// `min(max, waiting)` of them are returned as `out`, and the rest stay as `after`.
pub open spec fn buffered_read(before: Seq<u8>, max: usize, out: Seq<u8>, after: Seq<u8>) -> bool {
    let n = min_len(max as int, before.len() as int);
    &&& out == before.subrange(0, n)
    &&& after == before.subrange(n, before.len() as int)
}

/// A read of at most `max` bytes served by `packet`, with `before` waiting: a data
/// packet's bytes join the waiting ones and the first `min(max, its length)` of
/// them are returned; a packet of another kind returns nothing and changes
/// nothing.
pub open spec fn packet_read(before: Seq<u8>, packet: Packet, max: usize, out: Seq<u8>, after: Seq<u8>) -> bool {
    if packet.kind == PacketKind::Data {
        let all = before + packet.data_view();
        let n = min_len(max as int, packet.data_view().len() as int);
        &&& out == all.subrange(0, n)
        &&& after == all.subrange(n, all.len() as int)
    } else {
        &&& out == Seq::<u8>::empty()
        &&& after == before
    }
}

/// The bytes of a connection that arrived and were not read yet.
pub struct RecvBuffer {
    buf: BytesMut,
}

impl RecvBuffer {
    /// The bytes waiting to be read, first to last.
    pub closed spec fn contents(&self) -> Seq<u8> {
        bytes_mut_contents(self.buf)
    }

    /// A buffer that holds nothing.
    pub fn new() -> (r: RecvBuffer)
        ensures
            r.contents() == Seq::<u8>::empty(),
    {
        RecvBuffer { buf: bytes_mut_new() }
    }

    /// The number of bytes waiting.
    pub fn len(&self) -> (n: usize)
        ensures
            n == self.contents().len(),
    {
        bytes_mut_len(&self.buf)
    }

    /// Whether no byte is waiting.
    pub fn is_empty(&self) -> (e: bool)
        ensures
            e == (self.contents().len() == 0),
    {
        bytes_mut_is_empty(&self.buf)
    }

    /// Takes out the first `n` waiting bytes.
    fn take_front(&mut self, n: usize) -> (r: Vec<u8>)
        requires
            n <= old(self).contents().len(),
        ensures
            r@ == old(self).contents().subrange(0, n as int),
            final(self).contents() == old(self).contents().subrange(
                n as int,
                old(self).contents().len() as int,
            ),
    {
        let front = bytes_mut_split_to(&mut self.buf, n);
        bytes_mut_into_vec(front)
    }

    /// A read of at most `max` bytes served from what is waiting: `None` where
    /// nothing waits (the reader must then wait for a packet), else the first
    /// `min(max, waiting)` bytes, which leave the buffer.
    pub fn read_buffered(&mut self, max: usize) -> (r: Option<Vec<u8>>)
        ensures
            keeps_stream(
                old(self).contents(),
                Seq::empty(),
                match r {
                    Some(v) => v@,
                    None => Seq::empty(),
                },
                final(self).contents(),
            ),
            old(self).contents().len() == 0 ==> r is None && final(self).contents() == old(
                self,
            ).contents(),
            r matches Some(v) ==> v@.len() <= max && v@.len() <= old(self).contents().len() && (
            v@.len() == max || v@.len() == old(self).contents().len()),
            old(self).contents().len() > 0 ==> r is Some && buffered_read(
                old(self).contents(),
                max,
                r->Some_0@,
                final(self).contents(),
            ),
    {
        if self.is_empty() {
            assert(old(self).contents() + Seq::<u8>::empty() =~= old(self).contents());
            return None;
        }
        let waiting = self.len();
        let n = if max <= waiting {
            max
        } else {
            waiting
        };
        let r = self.take_front(n);
        assert(r@ + self.contents() =~= old(self).contents() + Seq::<u8>::empty());
        Some(r)
    }

    /// A read of at most `max` bytes served by a packet that arrived. Connect and
    /// disconnect packets give no bytes and leave the buffer as it is. A data
    /// packet's bytes join the buffer, and the first `min(max, its length)` bytes
    /// of the buffer leave it and are returned.
    pub fn read_packet(&mut self, packet: Packet, max: usize) -> (r: Vec<u8>)
        requires
            packet.kind == PacketKind::Data ==> packet.data is Some,
            packet.kind == PacketKind::Data ==> old(self).contents().len()
                + packet.data_view().len() <= usize::MAX,
        ensures
            keeps_stream(old(self).contents(), incoming_bytes(packet), r@, final(self).contents()),
            packet_read(old(self).contents(), packet, max, r@, final(self).contents()),
            r@.len() <= max,
            packet.kind == PacketKind::Data ==> r@.len() <= packet.data_view().len() && (r@.len()
                == max || r@.len() == packet.data_view().len()),
    {
        let ghost before = self.contents();
        let ghost incoming = incoming_bytes(packet);
        match packet.kind {
            PacketKind::Connect => {
                assert(Seq::<u8>::empty() + before =~= before + incoming);
                Vec::new()
            },
            PacketKind::Disconnect => {
                assert(Seq::<u8>::empty() + before =~= before + incoming);
                Vec::new()
            },
            PacketKind::Data => {
                let data = match packet.data {
                    Some(d) => d,
                    None => unreached(),
                };
                let n = if max <= data.len() {
                    max
                } else {
                    data.len()
                };
                bytes_mut_extend_from_slice(&mut self.buf, data.as_slice());
                let r = self.take_front(n);
                assert(r@ + self.contents() =~= before + incoming);
                r
            },
        }
    }
}

/// Reads keep the byte stream across any number of steps: all that the reads
/// returned, followed by what still waits, is what waited at the start followed by
/// all the bytes that arrived, in order; no byte is lost, repeated or moved.
pub proof fn lemma_reads_keep_stream(
    buffers: Seq<Seq<u8>>,
    incoming: Seq<Seq<u8>>,
    outs: Seq<Seq<u8>>,
)
    requires
        buffers.len() == incoming.len() + 1,
        outs.len() == incoming.len(),
        forall|j: int|
            0 <= j < incoming.len() ==> keeps_stream(
                buffers[j],
                #[trigger] incoming[j],
                outs[j],
                buffers[j + 1],
            ),
    ensures
        outs.flatten_alt() + buffers.last() == buffers[0] + incoming.flatten_alt(),
    decreases incoming.len(),
{
    let n = incoming.len() as int;
    if n == 0 {
        assert(outs.flatten_alt() + buffers.last() =~= buffers[0] + incoming.flatten_alt());
    } else {
        let b2 = buffers.drop_last();
        let i2 = incoming.drop_last();
        let o2 = outs.drop_last();
        assert forall|j: int| 0 <= j < i2.len() implies keeps_stream(
            b2[j],
            #[trigger] i2[j],
            o2[j],
            b2[j + 1],
        ) by {
            assert(keeps_stream(buffers[j], incoming[j], outs[j], buffers[j + 1]));
        }
        lemma_reads_keep_stream(b2, i2, o2);
        assert(keeps_stream(buffers[n - 1], incoming[n - 1], outs[n - 1], buffers[n]));
        assert(outs.flatten_alt() == o2.flatten_alt() + outs[n - 1]);
        assert(incoming.flatten_alt() == i2.flatten_alt() + incoming[n - 1]);
        assert(b2.last() == buffers[n - 1] && b2[0] == buffers[0]);
        let of = o2.flatten_alt();
        let inf = i2.flatten_alt();
        assert(of + outs[n - 1] + buffers[n] =~= of + (outs[n - 1] + buffers[n]));
        assert(of + (buffers[n - 1] + incoming[n - 1]) =~= (of + buffers[n - 1]) + incoming[n - 1]);
        assert((buffers[0] + inf) + incoming[n - 1] =~= buffers[0] + (inf + incoming[n - 1]));
    }
}

/// The bytes that a sequence of packets brings to the reader, in order.
pub open spec fn bytes_of(packets: Seq<Packet>) -> Seq<u8> {
    packets.map_values(|p: Packet| incoming_bytes(p)).flatten_alt()
}

/// One read of a connection as its reader makes it: from the waiting bytes
/// `buf` while there are any, else from the next of the `delivered` packets,
/// of which `consumed` have been taken; the read returns `out`, leaves `buf2`
/// waiting and `consumed2` packets taken.
pub open spec fn reader_step(
    delivered: Seq<Packet>,
    buf: Seq<u8>,
    consumed: int,
    max: usize,
    out: Seq<u8>,
    buf2: Seq<u8>,
    consumed2: int,
) -> bool {
    if buf.len() > 0 {
        &&& consumed2 == consumed
        &&& buffered_read(buf, max, out, buf2)
    } else {
        &&& 0 <= consumed < delivered.len()
        &&& consumed2 == consumed + 1
        &&& packet_read(buf, delivered[consumed], max, out, buf2)
    }
}

/// A sequence of reads of a connection fed with `delivered`: before the `j`-th
/// read, `bufs[j]` waits and `consumed[j]` packets have been taken; the read asks
/// for at most `maxes[j]` bytes and returns `reads[j]`.
pub open spec fn is_reading(
    delivered: Seq<Packet>,
    bufs: Seq<Seq<u8>>,
    consumed: Seq<int>,
    maxes: Seq<usize>,
    reads: Seq<Seq<u8>>,
) -> bool {
    &&& bufs.len() == reads.len() + 1
    &&& consumed.len() == reads.len() + 1
    &&& maxes.len() == reads.len()
    &&& forall|j: int|
        0 <= j < reads.len() ==> reader_step(
            delivered,
            bufs[j],
            consumed[j],
            maxes[j],
            #[trigger] reads[j],
            bufs[j + 1],
            consumed[j + 1],
        )
}

proof fn lemma_bytes_of_step(packets: Seq<Packet>, c: int)
    requires
        0 <= c < packets.len(),
    ensures
        bytes_of(packets.take(c + 1)) == bytes_of(packets.take(c)) + incoming_bytes(packets[c]),
{
    let m = packets.take(c + 1).map_values(|p: Packet| incoming_bytes(p));
    assert(m.drop_last() =~= packets.take(c).map_values(|p: Packet| incoming_bytes(p)));
    assert(m.last() == incoming_bytes(packets[c]));
}

proof fn lemma_reading_prefix(
    delivered: Seq<Packet>,
    bufs: Seq<Seq<u8>>,
    consumed: Seq<int>,
    maxes: Seq<usize>,
    reads: Seq<Seq<u8>>,
    j: int,
)
    requires
        is_reading(delivered, bufs, consumed, maxes, reads),
        bufs[0] == Seq::<u8>::empty(),
        consumed[0] == 0,
        0 <= j <= reads.len(),
    ensures
        0 <= consumed[j] <= delivered.len(),
        reads.take(j).flatten_alt() + bufs[j] == bytes_of(delivered.take(consumed[j])),
        (forall|i: int|
            0 <= i < delivered.len() ==> (#[trigger] delivered[i]).kind == PacketKind::Data
                && delivered[i].data_view().len() > 0) && (forall|t: int|
            0 <= t < maxes.len() ==> #[trigger] maxes[t] > 0) ==> forall|t: int|
            0 <= t < j ==> (#[trigger] reads[t]).len() > 0,
    decreases j,
{
    if j == 0 {
        assert(reads.take(0) =~= Seq::<Seq<u8>>::empty());
        assert(delivered.take(0) =~= Seq::<Packet>::empty());
        assert(bytes_of(delivered.take(0)) =~= Seq::<u8>::empty());
        assert(reads.take(0).flatten_alt() + bufs[0] =~= Seq::<u8>::empty());
        return;
    }
    let i = j - 1;
    lemma_reading_prefix(delivered, bufs, consumed, maxes, reads, i);
    let before = bufs[i];
    let after = bufs[j];
    let out = reads[i];
    let c = consumed[i];
    let f = reads.take(i).flatten_alt();
    assert(reader_step(delivered, before, c, maxes[i], out, after, consumed[j]));
    assert(reads.take(j).drop_last() =~= reads.take(i));
    assert(reads.take(j).flatten_alt() == f + out);
    if before.len() > 0 {
        assert(out + after =~= before);
        assert(f + out + after =~= f + (out + after));
    } else {
        lemma_bytes_of_step(delivered, c);
        let inc = incoming_bytes(delivered[c]);
        assert(out + after =~= before + inc);
        assert(f + before =~= f);
        assert(f + out + after =~= (f + before) + inc);
    }
}

/// Reading a connection returns the bytes of the packets it was fed, in order:
/// after any sequence of reads that starts with nothing waiting, all that the
/// reads returned, followed by what still waits, is the bytes of the packets
/// taken so far; none is lost, repeated or moved. Where every packet fed is a
/// data packet with some data and every read asks for at least one byte, no read
/// returns nothing.
pub proof fn lemma_reading_returns_delivered_bytes(
    delivered: Seq<Packet>,
    bufs: Seq<Seq<u8>>,
    consumed: Seq<int>,
    maxes: Seq<usize>,
    reads: Seq<Seq<u8>>,
)
    requires
        is_reading(delivered, bufs, consumed, maxes, reads),
        bufs[0] == Seq::<u8>::empty(),
        consumed[0] == 0,
    ensures
        0 <= consumed.last() <= delivered.len(),
        reads.flatten_alt() + bufs.last() == bytes_of(delivered.take(consumed.last())),
        (forall|i: int|
            0 <= i < delivered.len() ==> (#[trigger] delivered[i]).kind == PacketKind::Data
                && delivered[i].data_view().len() > 0) && (forall|t: int|
            0 <= t < maxes.len() ==> #[trigger] maxes[t] > 0) ==> forall|t: int|
            0 <= t < reads.len() ==> (#[trigger] reads[t]).len() > 0,
{
    let n = reads.len() as int;
    lemma_reading_prefix(delivered, bufs, consumed, maxes, reads, n);
    assert(reads.take(n) =~= reads);
}

/// A reader gets the bytes the writer wrote, in order: when the data packets of a
/// connection, each with some data and numbered from 0 as they were sent, arrive
/// in any order, each once, pass through an orderer that starts afresh, and are
/// read in turn by reads that each ask for at least one byte, then every read
/// returns some bytes; all that the reads returned, followed by what still waits,
/// is the data of the packets taken so far, in the order they were sent; and once
/// every packet is taken and nothing waits, the reads returned exactly the data
/// of all of them.
pub proof fn lemma_reader_gets_sent_bytes(
    sent: Seq<Packet>,
    arrivals: Seq<Packet>,
    states: Seq<(u32, Map<u32, Packet>)>,
    outs: Seq<Seq<Packet>>,
    bufs: Seq<Seq<u8>>,
    consumed: Seq<int>,
    maxes: Seq<usize>,
    reads: Seq<Seq<u8>>,
)
    requires
        arrives_permuted(sent, arrivals),
        is_run(states, arrivals, outs),
        states[0].0 == 0,
        states[0].1 == Map::<u32, Packet>::empty(),
        forall|i: int|
            0 <= i < sent.len() ==> (#[trigger] sent[i]).kind == PacketKind::Data
                && sent[i].data_view().len() > 0,
        is_reading(outs.flatten_alt(), bufs, consumed, maxes, reads),
        bufs[0] == Seq::<u8>::empty(),
        consumed[0] == 0,
        forall|t: int| 0 <= t < maxes.len() ==> #[trigger] maxes[t] > 0,
    ensures
        forall|t: int| 0 <= t < reads.len() ==> (#[trigger] reads[t]).len() > 0,
        0 <= consumed.last() <= sent.len(),
        reads.flatten_alt() + bufs.last() == bytes_of(sent.take(consumed.last())),
        consumed.last() == sent.len() && bufs.last().len() == 0 ==> reads.flatten_alt()
            == bytes_of(sent),
{
    lemma_run_restores_sent_order(sent, arrivals, states, outs);
    lemma_reading_returns_delivered_bytes(sent, bufs, consumed, maxes, reads);
    if consumed.last() == sent.len() && bufs.last().len() == 0 {
        assert(sent.take(sent.len() as int) =~= sent);
        assert(reads.flatten_alt() + bufs.last() =~= reads.flatten_alt());
    }
}

/// A read never returns more bytes than it asks for, nor more than are there to
/// read: from the waiting bytes it returns `max` of them, or all of them where
/// fewer wait; the rest stay waiting in order.
pub proof fn lemma_buffered_read_size(before: Seq<u8>, max: usize, out: Seq<u8>, after: Seq<u8>)
    requires
        buffered_read(before, max, out, after),
    ensures
        out.len() <= max,
        out.len() <= before.len(),
        out.len() == max || out.len() == before.len(),
        out + after == before,
{
    assert(out + after =~= before);
}

/// A read served by a data packet returns `max` of its bytes, or all of them where
/// the packet carries fewer, never more than asked; a packet of another kind
/// returns nothing. The bytes returned and the bytes left waiting are, in order,
/// the waiting bytes followed by the packet's data.
pub proof fn lemma_packet_read_size(
    before: Seq<u8>,
    packet: Packet,
    max: usize,
    out: Seq<u8>,
    after: Seq<u8>,
)
    requires
        packet_read(before, packet, max, out, after),
    ensures
        out.len() <= max,
        packet.kind == PacketKind::Data ==> out.len() <= packet.data_view().len() && (out.len()
            == max || out.len() == packet.data_view().len()) && out + after == before
            + packet.data_view(),
        packet.kind != PacketKind::Data ==> out.len() == 0 && after == before,
{
    if packet.kind == PacketKind::Data {
        assert(out + after =~= before + packet.data_view());
    }
}

} // verus!
