//! Per-endpoint session state of the non-blocking transport.
//!
//! The I/O shell around this module reads raw bytes from a stream and hands
//! every read here; it takes back either nothing, a decode failure, or one
//! completed logical message.  The client owns one reassembler for its
//! single server peer; the server owns one per accepted peer, keyed by a
//! caller-chosen peer identifier, created at accept time and never removed.

use vstd::prelude::*;

use crate::packet::add_transition;
use crate::packet::decoded_body;
use crate::packet::decoded_id;
use crate::packet::frag_count;
use crate::packet::fragment_body;
use crate::packet::frame_bytes;
use crate::packet::valid_id_byte;
use crate::packet::BigPacket;
use crate::packet::DecodeError;
use crate::packet::Packet;
use crate::packet::PacketID;
use crate::packet::MAX_MULTIPLE_PAYLOAD_SIZE;
use crate::packet::MAX_PACKED_SIZE;
use crate::packet::MULTIPLE_PACKET_HEADER_SIZE;

verus! {

/// What one raw read does to a reassembler and what it answers: nothing on
/// an empty read, a failure on an unknown kind byte, the decoded frame
/// directly for every kind but `Multiple`, and for a fragment the
/// reassembler's own step — a failure if the body cannot hold the fragment
/// header.  The reassembler changes only when a well-formed fragment
/// arrives.
pub open spec fn route_transition(
    before: Seq<Packet>,
    raw: Seq<u8>,
    len: int,
    r: Result<Option<Packet>, DecodeError>,
    after: Seq<Packet>,
) -> bool {
    if len == 0 {
        r == Ok::<Option<Packet>, DecodeError>(None) && after == before
    } else if !valid_id_byte(raw[0]) {
        r == Err::<Option<Packet>, DecodeError>(DecodeError::UnknownFrameKind) && after == before
    } else if decoded_id(raw) != PacketID::Multiple {
        (r matches Ok(op) && op matches Some(p) && p.id == decoded_id(raw) && p.data@
            == decoded_body(raw, len) && p.wf()) && after == before
    } else if decoded_body(raw, len).len() < 3 {
        r == Err::<Option<Packet>, DecodeError>(DecodeError::TruncatedFragment) && after == before
    } else {
        exists|p: Packet|
            {
                &&& p.id == PacketID::Multiple
                &&& p.data@ == decoded_body(raw, len)
                &&& #[trigger] add_transition(before, p, r, after)
            }
    }
}

/// The client's side of one connection: the reassembly state for the single
/// remote peer.
pub struct ClientSession {
    big_packet: BigPacket,
}

impl ClientSession {
    /// The fragments buffered for the oversized message in flight.
    pub closed spec fn fragments(self) -> Seq<Packet> {
        self.big_packet.fragments()
    }

    pub closed spec fn wf(self) -> bool {
        self.big_packet.wf()
    }

    /// A session with nothing in flight.
    pub fn new() -> (r: ClientSession)
        ensures
            r.wf(),
            r.fragments() == Seq::<Packet>::empty(),
    {
        ClientSession { big_packet: BigPacket::new() }
    }

    /// One poll step, given the raw bytes and length of one non-blocking
    /// read.  Decodes the frame and either surfaces it directly or routes a
    /// fragment through the reassembler, surfacing only a completed message.
    pub fn handle_raw(&mut self, buff: &[u8], len: usize) -> (r: Result<
        Option<Packet>,
        DecodeError,
    >)
        requires
            old(self).wf(),
            len <= buff@.len(),
        ensures
            final(self).wf(),
            route_transition(
                old(self).fragments(),
                buff@,
                len as int,
                r,
                final(self).fragments(),
            ),
    {
        route_raw(&mut self.big_packet, buff, len)
    }
}

/// The server's side of all accepted connections: one reassembler per peer,
/// in insertion (accept) order, keyed by a caller-chosen peer identifier.
/// Peers are never removed; a peer that goes silent mid-fragment keeps its
/// partial state indefinitely.
pub struct ServerSession {
    peers: Vec<(u64, BigPacket)>,
}

impl ServerSession {
    /// The registered peer identifiers, in accept order.
    pub closed spec fn peer_ids(self) -> Seq<u64> {
        self.peers@.map_values(|p: (u64, BigPacket)| p.0)
    }

    /// The reassembly state of the peer at position `i`.
    pub closed spec fn reassembler(self, i: int) -> BigPacket {
        self.peers@[i].1
    }

    /// Peer identifiers are distinct, and every reassembler is well formed.
    pub closed spec fn wf(self) -> bool {
        &&& forall|i: int, j: int|
            0 <= i < j < self.peers@.len() ==> (#[trigger] self.peers@[i].0) != (
            #[trigger] self.peers@[j].0)
        &&& forall|i: int| 0 <= i < self.peers@.len() ==> (#[trigger] self.peers@[i].1).wf()
    }

    /// A server session with no accepted peers.
    pub fn new() -> (r: ServerSession)
        ensures
            r.wf(),
            r.peer_ids() == Seq::<u64>::empty(),
    {
        let r = ServerSession { peers: Vec::new() };
        proof {
            assert(r.peer_ids() =~= Seq::<u64>::empty());
        }
        r
    }

    /// Registers every peer the accept loop drained this cycle, each with a
    /// fresh reassembler, after the peers already active.  Draining nothing
    /// leaves the session exactly as it was.
    pub fn poll_new_client(&mut self, accepted: &Vec<u64>)
        requires
            old(self).wf(),
            forall|i: int, j: int|
                0 <= i < j < accepted@.len() ==> (#[trigger] accepted@[i]) != (
                #[trigger] accepted@[j]),
            forall|i: int|
                0 <= i < accepted@.len() ==> !old(self).peer_ids().contains(#[trigger] accepted@[i]),
        ensures
            final(self).wf(),
            final(self).peer_ids() == old(self).peer_ids() + accepted@,
            accepted@.len() == 0 ==> final(self).peer_ids() == old(self).peer_ids(),
            forall|i: int|
                0 <= i < old(self).peer_ids().len() ==> final(self).reassembler(i)
                    == old(self).reassembler(i),
            forall|i: int|
                old(self).peer_ids().len() <= i < final(self).peer_ids().len()
                    ==> final(self).reassembler(i).fragments() == Seq::<Packet>::empty(),
    {
        let ghost orig: Seq<(u64, BigPacket)> = self.peers@;
        let mut k: usize = 0;
        while k < accepted.len()
            invariant
                k <= accepted@.len(),
                self.peers@.len() == orig.len() + k,
                self.peers@.subrange(0, orig.len() as int) =~= orig,
                forall|i: int|
                    orig.len() <= i < self.peers@.len() ==> (#[trigger] self.peers@[i]).0
                        == accepted@[i - orig.len()] && self.peers@[i].1.fragments() == Seq::<
                        Packet,
                    >::empty() && self.peers@[i].1.wf(),
                forall|i: int, j: int|
                    0 <= i < j < orig.len() ==> (#[trigger] orig[i].0) != (#[trigger] orig[j].0),
                forall|i: int| 0 <= i < orig.len() ==> (#[trigger] orig[i].1).wf(),
                forall|i: int, j: int|
                    0 <= i < j < accepted@.len() ==> (#[trigger] accepted@[i]) != (
                    #[trigger] accepted@[j]),
                forall|i: int|
                    0 <= i < accepted@.len() ==> !orig.map_values(|p: (u64, BigPacket)| p.0)
                        .contains(#[trigger] accepted@[i]),
            decreases accepted@.len() - k,
        {
            self.peers.push((accepted[k], BigPacket::new()));
            k += 1;
        }
        proof {
            let m = orig.len() as int;
            assert(self.peers@.subrange(0, m) == orig);
            assert forall|i: int| 0 <= i < m implies (#[trigger] self.peers@[i]) == orig[i] by {
                assert(self.peers@.subrange(0, m)[i] == self.peers@[i]);
            }
            assert(self.peer_ids() =~= orig.map_values(|p: (u64, BigPacket)| p.0) + accepted@);
            assert forall|i: int, j: int|
                0 <= i < j < self.peers@.len() implies (#[trigger] self.peers@[i].0) != (
            #[trigger] self.peers@[j].0) by {
                if i < m && j >= m {
                    assert(orig.map_values(|p: (u64, BigPacket)| p.0)[i] == orig[i].0);
                    assert(!orig.map_values(|p: (u64, BigPacket)| p.0).contains(
                        accepted@[j - m],
                    ));
                }
            }
        }
    }

    /// How many peers are active.
    pub fn num_clients(&self) -> (r: usize)
        ensures
            r == self.peer_ids().len(),
    {
        self.peers.len()
    }

    /// One poll step for the peer a non-blocking read came from: decodes the
    /// frame and either surfaces it directly or routes a fragment through
    /// that peer's own reassembler.  No other peer's state changes.
    pub fn handle_raw(&mut self, peer: u64, buff: &[u8], len: usize) -> (r: Result<
        Option<Packet>,
        DecodeError,
    >)
        requires
            old(self).wf(),
            old(self).peer_ids().contains(peer),
            len <= buff@.len(),
        ensures
            final(self).wf(),
            final(self).peer_ids() == old(self).peer_ids(),
            ({
                let idx = old(self).peer_ids().index_of(peer);
                &&& forall|i: int|
                    0 <= i < old(self).peer_ids().len() && i != idx ==> final(self).reassembler(i)
                        == old(self).reassembler(i)
                &&& route_transition(
                    old(self).reassembler(idx).fragments(),
                    buff@,
                    len as int,
                    r,
                    final(self).reassembler(idx).fragments(),
                )
            }),
    {
        let ghost ids = self.peer_ids();
        proof {
            let w = choose|i: int| 0 <= i < ids.len() && ids[i] == peer;
            assert(self.peers@[w].0 == peer);
        }
        let n = self.peers.len();
        let mut idx: usize = 0;
        while self.peers[idx].0 != peer
            invariant
                0 <= idx < n,
                n == self.peers@.len(),
                forall|j: int| 0 <= j < idx ==> (#[trigger] self.peers@[j]).0 != peer,
                exists|j: int| idx <= j < n && (#[trigger] self.peers@[j]).0 == peer,
            decreases n - idx,
        {
            idx += 1;
            proof {
                let w = choose|j: int| idx - 1 <= j < n && (#[trigger] self.peers@[j]).0 == peer;
                assert(idx <= w < n && self.peers@[w].0 == peer);
            }
        }
        proof {
            let chosen = ids.index_of(peer);
            assert(0 <= chosen < ids.len() && ids[chosen] == peer);
            assert(self.peers@[chosen].0 == peer);
            assert(chosen == idx as int);
        }
        let (id, mut big_packet) = self.peers.remove(idx);
        let r = route_raw(&mut big_packet, buff, len);
        self.peers.insert(idx, (id, big_packet));
        proof {
            assert(self.peer_ids() =~= ids);
        }
        r
    }
}

/// The raw frames one send of `packet` places on the wire, in order: the
/// single-frame encoding when the body fits under
/// `MAX_PACKED_SIZE - MULTIPLE_PACKET_HEADER_SIZE` bytes, otherwise the
/// encoding of every fragment frame of the split.  No frame exceeds
/// `MAX_PACKED_SIZE` bytes.  Client and server share this policy; the I/O
/// shell writes each frame whole to the stream(s).
pub fn wire_frames(packet: Packet) -> (r: Vec<Vec<u8>>)
    requires
        packet.wf(),
        packet.data@.len() <= MAX_MULTIPLE_PAYLOAD_SIZE,
    ensures
        packet.data@.len() < 252 ==> r@.len() == 1 && r@[0]@ == frame_bytes(
            packet.id,
            packet.data@,
        ),
        packet.data@.len() >= 252 ==> r@.len() == frag_count(packet.data@.len()) && forall|i: int|
            0 <= i < r@.len() ==> (#[trigger] r@[i])@ == frame_bytes(
                PacketID::Multiple,
                fragment_body(packet.id, packet.data@, i),
            ),
        forall|i: int| 0 <= i < r@.len() ==> (#[trigger] r@[i])@.len() <= MAX_PACKED_SIZE,
{
    let mut frames: Vec<Vec<u8>> = Vec::new();
    if packet.data.len() < MAX_PACKED_SIZE - MULTIPLE_PACKET_HEADER_SIZE {
        frames.push(packet.to_raw());
    } else {
        let ghost id = packet.id;
        let ghost body = packet.data@;
        let packets = Packet::create_multiple(packet);
        let mut i: usize = 0;
        while i < packets.len()
            invariant
                i <= packets@.len(),
                packets@.len() == frag_count(body.len()),
                frames@.len() == i,
                forall|k: int|
                    0 <= k < packets@.len() ==> (#[trigger] packets@[k]).id == PacketID::Multiple
                        && packets@[k].data@ == fragment_body(id, body, k)
                        && packets@[k].data@.len() + 1 <= MAX_PACKED_SIZE,
                forall|k: int|
                    0 <= k < i ==> (#[trigger] frames@[k])@ == frame_bytes(
                        PacketID::Multiple,
                        fragment_body(id, body, k),
                    ) && frames@[k]@.len() <= MAX_PACKED_SIZE,
            decreases packets@.len() - i,
        {
            frames.push(packets[i].to_raw());
            i += 1;
        }
    }
    frames
}

/// Decodes one raw read and routes it through the given reassembler: the
/// shared receive step of client and server.
fn route_raw(big_packet: &mut BigPacket, buff: &[u8], len: usize) -> (r: Result<
    Option<Packet>,
    DecodeError,
>)
    requires
        old(big_packet).wf(),
        len <= buff@.len(),
    ensures
        final(big_packet).wf(),
        route_transition(
            old(big_packet).fragments(),
            buff@,
            len as int,
            r,
            final(big_packet).fragments(),
        ),
{
    let packet = match Packet::from_raw(buff, len) {
        Ok(op) => {
            match op {
                Some(p) => p,
                None => {
                    return Ok(None);
                },
            }
        },
        Err(e) => {
            return Err(e);
        },
    };
    match packet.id {
        PacketID::Multiple => {
            if packet.data.len() < 3 {
                return Err(DecodeError::TruncatedFragment);
            }
            let ghost before = big_packet.fragments();
            let ghost arrival = packet;
            let r = big_packet.add(packet);
            proof {
                assert(add_transition(before, arrival, r, big_packet.fragments()));
            }
            r
        },
        _ => Ok(Some(packet)),
    }
}

} // verus!
