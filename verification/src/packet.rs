//! Wire format of one frame and of a fragmented ("multiple") message.
//!
//! A frame on the wire is one `kind` byte followed by a body of at most
//! `MAX_PACKED_SIZE - 1` bytes.  A logical message whose payload does not fit
//! is split into fragments: each fragment is a frame of kind
//! `PacketID::Multiple` whose body starts with a three-byte header (total
//! fragment count, this fragment's index, the original kind) followed by a
//! slice of the payload.

use vstd::prelude::*;

verus! {

/// Bytes of overhead per fragment frame: the outer kind byte plus the
/// three-byte fragment header (count, index, original kind).
pub const MULTIPLE_PACKET_HEADER_SIZE: usize = 4;

/// Largest number of bytes ever placed on the wire in one frame.
pub const MAX_PACKED_SIZE: usize = 256;

/// Semantic category of a frame's payload.  Exactly one byte on the wire.
#[derive(Clone, Copy, PartialEq, Eq, Structural, Debug)]
pub enum PacketID {
    Blank,
    Name,
    Start,
    Multiple,
    Data,
    MapData,
}

/// The wire encoding of a kind tag.
pub open spec fn id_byte(id: PacketID) -> u8 {
    match id {
        PacketID::Blank => 0,
        PacketID::Name => 1,
        PacketID::Start => 2,
        PacketID::Multiple => 3,
        PacketID::Data => 4,
        PacketID::MapData => 5,
    }
}

/// Which bytes decode to a kind tag.
pub open spec fn valid_id_byte(b: u8) -> bool {
    b <= 5
}

/// The kind tag a byte decodes to, defined for `valid_id_byte` bytes.
pub open spec fn id_of_byte(b: u8) -> PacketID {
    if b == 0 {
        PacketID::Blank
    } else if b == 1 {
        PacketID::Name
    } else if b == 2 {
        PacketID::Start
    } else if b == 3 {
        PacketID::Multiple
    } else if b == 4 {
        PacketID::Data
    } else {
        PacketID::MapData
    }
}

/// Failure of a decode step.
#[derive(Clone, Copy, PartialEq, Eq, Structural, Debug)]
pub enum DecodeError {
    /// The byte that should carry a kind tag is outside the known range.
    UnknownFrameKind,
    /// A fragment frame's body is too short to hold the three-byte fragment
    /// header.
    TruncatedFragment,
}

impl PacketID {
    /// The one-byte wire encoding of this kind.
    pub fn to_byte(self) -> (r: u8)
        ensures
            r == id_byte(self),
            valid_id_byte(r),
    {
        match self {
            PacketID::Blank => 0,
            PacketID::Name => 1,
            PacketID::Start => 2,
            PacketID::Multiple => 3,
            PacketID::Data => 4,
            PacketID::MapData => 5,
        }
    }

    /// Decodes a kind byte, rejecting bytes outside the known range.
    pub fn from_byte(b: u8) -> (r: Result<PacketID, DecodeError>)
        ensures
            valid_id_byte(b) ==> r == Ok::<PacketID, DecodeError>(id_of_byte(b)),
            !valid_id_byte(b) ==> r == Err::<PacketID, DecodeError>(DecodeError::UnknownFrameKind),
    {
        match b {
            0 => Ok(PacketID::Blank),
            1 => Ok(PacketID::Name),
            2 => Ok(PacketID::Start),
            3 => Ok(PacketID::Multiple),
            4 => Ok(PacketID::Data),
            5 => Ok(PacketID::MapData),
            _ => Err(DecodeError::UnknownFrameKind),
        }
    }
}

/// The fragment header as a value: the three bytes at the front of every
/// fragment frame's body, in wire order.
#[derive(Clone, Copy)]
pub struct MultiplePacketHeader {
    pub size: u8,
    pub index: u8,
    pub id: PacketID,
}

/// Payload bytes that fit in one fragment frame:
/// `MAX_PACKED_SIZE - MULTIPLE_PACKET_HEADER_SIZE`.
pub const FRAGMENT_PAYLOAD_SIZE: usize = 252;

/// Largest payload that fragmentation can carry: the fragment count must fit
/// in one byte, so at most 255 fragments of `FRAGMENT_PAYLOAD_SIZE` bytes.
pub const MAX_MULTIPLE_PAYLOAD_SIZE: usize = 64260;

/// Number of fragments an `n`-byte payload splits into: the least number of
/// `FRAGMENT_PAYLOAD_SIZE`-byte slices that cover it, i.e. `ceil(n / 252)`.
pub open spec fn frag_count(n: nat) -> nat {
    (n + 251) / 252
}

/// Where the `i`-th fragment's slice of an `n`-byte payload ends: a full
/// `FRAGMENT_PAYLOAD_SIZE` bytes past its start, or the payload's end.
pub open spec fn fragment_slice_end(n: int, i: int) -> int {
    if 252 * (i + 1) <= n {
        252 * (i + 1)
    } else {
        n
    }
}

/// The `i`-th fragment's body: the three-byte header (total count, this
/// index, the original kind) followed by the `i`-th slice of the payload.
pub open spec fn fragment_body(id: PacketID, body: Seq<u8>, i: int) -> Seq<u8> {
    seq![frag_count(body.len()) as u8, i as u8, id_byte(id)] + body.subrange(
        252 * i,
        fragment_slice_end(body.len() as int, i),
    )
}

/// The kind a raw frame decodes to: its first byte, as a tag.
pub open spec fn decoded_id(raw: Seq<u8>) -> PacketID {
    id_of_byte(raw[0])
}

/// The body a raw frame of `len` bytes decodes to: everything past the kind
/// byte, with an empty body coerced as on construction.
pub open spec fn decoded_body(raw: Seq<u8>, len: int) -> Seq<u8> {
    coerce_body(raw.subrange(1, len))
}

/// The payload slice a fragment frame carries: its body past the three-byte
/// header.
pub open spec fn fragment_payload(f: Packet) -> Seq<u8> {
    f.data@.subrange(3, f.data@.len() as int)
}

/// Payload bytes collected for target index `i` from the first `j` received
/// fragments: the slices of those whose declared index equals `i`, in
/// arrival order.  With well-formed fragments there is exactly one such
/// slice; the scan tolerates fragments that arrived out of order.
pub open spec fn gathered(frames: Seq<Packet>, i: int, j: int) -> Seq<u8>
    decreases j,
{
    if j <= 0 {
        Seq::empty()
    } else {
        gathered(frames, i, j - 1) + if frames[j - 1].data@[1] as int == i {
            fragment_payload(frames[j - 1])
        } else {
            Seq::empty()
        }
    }
}

/// The reassembled payload of a fragment sequence, up to target index `i`:
/// what is gathered for indices `0, 1, ..., i - 1`, concatenated in that
/// order.
pub open spec fn reassembled_body(frames: Seq<Packet>, i: int) -> Seq<u8>
    decreases i,
{
    if i <= 0 {
        Seq::empty()
    } else {
        reassembled_body(frames, i - 1) + gathered(frames, i - 1, frames.len() as int)
    }
}

/// The bytes of a single frame on the wire: the kind byte, then the body.
pub open spec fn frame_bytes(id: PacketID, body: Seq<u8>) -> Seq<u8> {
    seq![id_byte(id)] + body
}

/// A packet body as constructed: an empty body is coerced to a single zero
/// byte, so every packet's body is non-empty.
pub open spec fn coerce_body(data: Seq<u8>) -> Seq<u8> {
    if data.len() == 0 {
        seq![0u8]
    } else {
        data
    }
}

/// One frame: a kind tag and a non-empty body.
#[derive(Clone)]
pub struct Packet {
    pub id: PacketID,
    pub data: Vec<u8>,
}

impl Packet {
    /// A packet is well formed when its body is non-empty, as `new`
    /// guarantees by coercion.
    pub open spec fn wf(self) -> bool {
        self.data@.len() >= 1
    }

    /// Builds a packet, coercing an empty body to a single zero byte.
    pub fn new(id: PacketID, data: Vec<u8>) -> (r: Packet)
        ensures
            r.id == id,
            r.data@ == coerce_body(data@),
            r.wf(),
    {
        let mut data = data;
        if data.len() == 0 {
            data.push(0);
        }
        Packet { id, data }
    }

    /// The three-byte fragment header: total count, fragment index, the
    /// original message's kind.
    pub fn create_header(len: u8, index: u8, id: PacketID) -> (r: Vec<u8>)
        ensures
            r@ == seq![len, index, id_byte(id)],
    {
        let mut data = Vec::new();
        data.push(len);
        data.push(index);
        data.push(id.to_byte());
        proof {
            assert(data@ =~= seq![len, index, id_byte(id)]);
        }
        data
    }

    /// Splits an oversized packet into fragment frames.  Exactly
    /// `ceil(len / 252)` fragments come out; fragment `i` carries the
    /// three-byte header and the `i`-th 252-byte slice of the payload (the
    /// last slice may be shorter), so no fragment frame exceeds
    /// `MAX_PACKED_SIZE` bytes on the wire.
    pub fn create_multiple(packet: Packet) -> (r: Vec<Packet>)
        requires
            packet.wf(),
            packet.data@.len() <= MAX_MULTIPLE_PAYLOAD_SIZE,
        ensures
            r@.len() == frag_count(packet.data@.len()),
            1 <= r@.len() <= 255,
            forall|i: int|
                0 <= i < r@.len() ==> {
                    &&& (#[trigger] r@[i]).id == PacketID::Multiple
                    &&& r@[i].data@ == fragment_body(packet.id, packet.data@, i)
                    &&& r@[i].data@.len() + 1 <= MAX_PACKED_SIZE
                },
    {
        let len = packet.data.len();
        let num_frags: usize = (len + (FRAGMENT_PAYLOAD_SIZE - 1)) / FRAGMENT_PAYLOAD_SIZE;
        proof {
            assert(1 <= num_frags <= 255);
        }
        let count_byte: u8 = num_frags as u8;
        let mut packets: Vec<Packet> = Vec::new();
        let mut frag: usize = 0;
        while frag < num_frags
            invariant
                frag <= num_frags,
                num_frags == frag_count(packet.data@.len()),
                1 <= num_frags <= 255,
                count_byte == num_frags as u8,
                1 <= packet.data@.len() <= MAX_MULTIPLE_PAYLOAD_SIZE,
                len == packet.data@.len(),
                packets@.len() == frag,
                forall|i: int|
                    0 <= i < frag ==> {
                        &&& (#[trigger] packets@[i]).id == PacketID::Multiple
                        &&& packets@[i].data@ == fragment_body(packet.id, packet.data@, i)
                        &&& packets@[i].data@.len() + 1 <= MAX_PACKED_SIZE
                    },
            decreases num_frags - frag,
        {
            let mut data_piece = Packet::create_header(count_byte, frag as u8, packet.id);
            let start: usize = frag * FRAGMENT_PAYLOAD_SIZE;
            proof {
                assert(252 * frag < len) by {
                    assert(frag <= num_frags - 1);
                    assert(252 * (num_frags - 1) < len);
                }
            }
            let end: usize = if start + FRAGMENT_PAYLOAD_SIZE <= len {
                start + FRAGMENT_PAYLOAD_SIZE
            } else {
                len
            };
            proof {
                assert(end == fragment_slice_end(len as int, frag as int));
            }
            let ghost header: Seq<u8> = data_piece@;
            let mut k: usize = start;
            while k < end
                invariant
                    start <= k <= end <= packet.data@.len(),
                    start == 252 * frag,
                    end - start <= 252,
                    data_piece@ == header + packet.data@.subrange(start as int, k as int),
                    header.len() == 3,
                decreases end - k,
            {
                data_piece.push(packet.data[k]);
                k += 1;
                proof {
                    assert(data_piece@ =~= header + packet.data@.subrange(
                        start as int,
                        k as int,
                    ));
                }
            }
            proof {
                assert(data_piece@ =~= fragment_body(packet.id, packet.data@, frag as int));
            }
            packets.push(Packet::new(PacketID::Multiple, data_piece));
            frag += 1;
        }
        packets
    }

    /// Reconstructs the logical message from received fragment frames.  For
    /// each target index in turn it scans all fragments for those declaring
    /// that index and concatenates their payload slices, so fragments that
    /// arrived out of order still land in index order.  The kind comes from
    /// the first received fragment's header; a kind byte outside the known
    /// range is a decode failure.
    pub fn from_multiple(packets: &Vec<Packet>) -> (r: Result<Packet, DecodeError>)
        requires
            packets@.len() >= 1,
            forall|j: int| 0 <= j < packets@.len() ==> (#[trigger] packets@[j]).data@.len() >= 3,
        ensures
            !valid_id_byte(packets@[0].data@[2]) ==> r == Err::<Packet, DecodeError>(
                DecodeError::UnknownFrameKind,
            ),
            valid_id_byte(packets@[0].data@[2]) ==> (r matches Ok(p) && p.id == id_of_byte(
                packets@[0].data@[2],
            ) && p.data@ == coerce_body(reassembled_body(packets@, packets@.len() as int))
                && p.wf()),
    {
        let id = match PacketID::from_byte(packets[0].data[2]) {
            Ok(id) => id,
            Err(e) => {
                return Err(e);
            },
        };
        let n = packets.len();
        let mut data: Vec<u8> = Vec::new();
        let mut i: usize = 0;
        while i < n
            invariant
                i <= n,
                n == packets@.len(),
                forall|j: int| 0 <= j < packets@.len() ==> (#[trigger] packets@[j]).data@.len() >= 3,
                data@ == reassembled_body(packets@, i as int),
            decreases n - i,
        {
            let mut j: usize = 0;
            while j < n
                invariant
                    j <= n,
                    i < n,
                    n == packets@.len(),
                    forall|j: int|
                        0 <= j < packets@.len() ==> (#[trigger] packets@[j]).data@.len() >= 3,
                    data@ == reassembled_body(packets@, i as int) + gathered(
                        packets@,
                        i as int,
                        j as int,
                    ),
                decreases n - j,
            {
                if packets[j].data[1] as usize == i {
                    let ghost prefix: Seq<u8> = data@;
                    let piece_len = packets[j].data.len();
                    let mut l: usize = 3;
                    while l < piece_len
                        invariant
                            3 <= l <= piece_len,
                            i < n,
                            j < n,
                            n == packets@.len(),
                            piece_len == packets@[j as int].data@.len(),
                            piece_len >= 3,
                            data@ == prefix + packets@[j as int].data@.subrange(3, l as int),
                        decreases piece_len - l,
                    {
                        data.push(packets[j].data[l]);
                        l += 1;
                        proof {
                            assert(data@ =~= prefix + packets@[j as int].data@.subrange(
                                3,
                                l as int,
                            ));
                        }
                    }
                    proof {
                        assert(data@ =~= reassembled_body(packets@, i as int) + gathered(
                            packets@,
                            i as int,
                            j + 1,
                        ));
                    }
                } else {
                    proof {
                        assert(data@ =~= reassembled_body(packets@, i as int) + gathered(
                            packets@,
                            i as int,
                            j + 1,
                        ));
                    }
                }
                j += 1;
            }
            i += 1;
            proof {
                assert(data@ =~= reassembled_body(packets@, i as int));
            }
        }
        Ok(Packet::new(id, data))
    }

    /// Encodes this packet as one frame: the kind byte followed by the body.
    pub fn to_raw(&self) -> (r: Vec<u8>)
        ensures
            r@ == frame_bytes(self.id, self.data@),
    {
        let mut raw: Vec<u8> = Vec::new();
        raw.push(self.id.to_byte());
        let mut i: usize = 0;
        while i < self.data.len()
            invariant
                i <= self.data@.len(),
                raw@ == seq![id_byte(self.id)] + self.data@.subrange(0, i as int),
            decreases self.data@.len() - i,
        {
            raw.push(self.data[i]);
            i += 1;
            proof {
                assert(raw@ =~= seq![id_byte(self.id)] + self.data@.subrange(0, i as int));
            }
        }
        proof {
            assert(self.data@.subrange(0, self.data@.len() as int) =~= self.data@);
        }
        raw
    }

    /// Decodes one raw read of `len` bytes.  A zero-length read is "no data"
    /// (`Ok(None)`), never an error; a first byte outside the known kind
    /// range is a decode failure.
    pub fn from_raw(buff: &[u8], len: usize) -> (r: Result<Option<Packet>, DecodeError>)
        requires
            len <= buff@.len(),
        ensures
            len == 0 ==> r == Ok::<Option<Packet>, DecodeError>(None),
            len >= 1 && !valid_id_byte(buff@[0]) ==> r == Err::<Option<Packet>, DecodeError>(
                DecodeError::UnknownFrameKind,
            ),
            len >= 1 && valid_id_byte(buff@[0]) ==> (r matches Ok(op) && op matches Some(p)
                && p.id == decoded_id(buff@) && p.data@ == decoded_body(buff@, len as int)
                && p.wf()),
    {
        if len == 0 {
            return Ok(None);
        }
        let id = match PacketID::from_byte(buff[0]) {
            Ok(id) => id,
            Err(e) => {
                return Err(e);
            },
        };
        let mut data: Vec<u8> = Vec::with_capacity(len - 1);
        let mut i: usize = 1;
        while i < len
            invariant
                1 <= i <= len <= buff@.len(),
                data@ == buff@.subrange(1, i as int),
            decreases len - i,
        {
            data.push(buff[i]);
            i += 1;
            proof {
                assert(data@ =~= buff@.subrange(1, i as int));
            }
        }
        Ok(Some(Packet::new(id, data)))
    }
}

/// Round trip of a single frame: decoding the encoding of `(id, body)` gives
/// the same kind back, and the same body once the empty body is coerced to a
/// single zero byte.  Together with the contracts of `Packet::new`,
/// `Packet::to_raw` and `Packet::from_raw`, this pins the single-frame path:
/// `from_raw` on `to_raw` of `Packet::new(id, body)` returns that packet.
pub proof fn lemma_single_round_trip(id: PacketID, body: Seq<u8>)
    requires
        body.len() < 252,
    ensures
        ({
            let raw = frame_bytes(id, coerce_body(body));
            &&& raw.len() == coerce_body(body).len() + 1
            &&& valid_id_byte(raw[0])
            &&& id_of_byte(raw[0]) == id
            &&& coerce_body(raw.subrange(1, raw.len() as int)) == coerce_body(body)
        }),
{
    let raw = frame_bytes(id, coerce_body(body));
    assert(raw.subrange(1, raw.len() as int) =~= coerce_body(body));
}

/// Bounds on the fragment count of a non-empty payload: splitting covers the
/// whole payload, and every fragment before the last is full.
proof fn lemma_frag_count_bounds(n: nat)
    requires
        1 <= n,
    ensures
        1 <= frag_count(n),
        252 * (frag_count(n) - 1) < n,
        n <= 252 * frag_count(n),
{
    vstd::arithmetic::div_mod::lemma_fundamental_div_mod((n + 251) as int, 252);
}

/// With fragments that each declare their own position, the scan for target
/// index `i` over the first `j` fragments collects exactly the `i`-th
/// fragment's payload once `j` has passed it, and nothing before that.
proof fn lemma_gathered_unique(frames: Seq<Packet>, i: int, j: int)
    requires
        forall|k: int| 0 <= k < frames.len() ==> (#[trigger] frames[k]).data@[1] as int == k,
        0 <= i,
        0 <= j <= frames.len(),
    ensures
        gathered(frames, i, j) == if i < j {
            fragment_payload(frames[i])
        } else {
            Seq::<u8>::empty()
        },
    decreases j,
{
    if j > 0 {
        lemma_gathered_unique(frames, i, j - 1);
        if i == j - 1 {
            assert(Seq::<u8>::empty() + fragment_payload(frames[i]) =~= fragment_payload(
                frames[i],
            ));
        } else if i < j - 1 {
            assert(fragment_payload(frames[i]) + Seq::<u8>::empty() =~= fragment_payload(
                frames[i],
            ));
        } else {
            assert(Seq::<u8>::empty() + Seq::<u8>::empty() =~= Seq::<u8>::empty());
        }
    }
}

/// Reassembling the first `m` target indices of an in-order fragment
/// sequence rebuilds the first `min(252 * m, len)` payload bytes.
proof fn lemma_reassembled_prefix(body: Seq<u8>, frames: Seq<Packet>, m: int)
    requires
        1 <= body.len() <= MAX_MULTIPLE_PAYLOAD_SIZE,
        frames.len() == frag_count(body.len()),
        forall|k: int| 0 <= k < frames.len() ==> (#[trigger] frames[k]).data@[1] as int == k,
        forall|k: int|
            0 <= k < frames.len() ==> fragment_payload(#[trigger] frames[k]) == body.subrange(
                252 * k,
                fragment_slice_end(body.len() as int, k),
            ),
        0 <= m <= frames.len(),
    ensures
        reassembled_body(frames, m) == body.subrange(
            0,
            if 252 * m <= body.len() {
                252 * m
            } else {
                body.len() as int
            },
        ),
    decreases m,
{
    let len = body.len() as int;
    lemma_frag_count_bounds(body.len());
    if m == 0 {
        assert(body.subrange(0, 0) =~= Seq::<u8>::empty());
    } else {
        lemma_reassembled_prefix(body, frames, m - 1);
        lemma_gathered_unique(frames, m - 1, frames.len() as int);
        assert(252 * (m - 1) < len);
        let cut = fragment_slice_end(len, m - 1);
        assert(body.subrange(0, 252 * (m - 1)) + body.subrange(252 * (m - 1), cut)
            =~= body.subrange(0, cut));
    }
}

/// Fragmentation round trip: a sequence of frames shaped exactly as `split`
/// emits for `(id, body)` — `ceil(len / 252)` fragments, the `i`-th carrying
/// the header `[count, i, kind]` and the `i`-th payload slice — declares its
/// own length as the total count in every fragment, names the original kind
/// in a byte that decodes back to `id`, and reassembles to `body` exactly.
/// Through the contracts of `Packet::create_multiple` and `BigPacket::add`,
/// feeding the split of a packet into a fresh reassembler in order completes
/// on precisely the last fragment and yields the original kind and payload.
pub proof fn lemma_fragment_round_trip(id: PacketID, body: Seq<u8>, frames: Seq<Packet>)
    requires
        1 <= body.len() <= MAX_MULTIPLE_PAYLOAD_SIZE,
        frames.len() == frag_count(body.len()),
        forall|i: int|
            0 <= i < frames.len() ==> (#[trigger] frames[i]).data@ == fragment_body(id, body, i),
    ensures
        frames[0].data@[2] == id_byte(id),
        valid_id_byte(id_byte(id)),
        id_of_byte(id_byte(id)) == id,
        reassembled_body(frames, frames.len() as int) == body,
        forall|i: int| 0 <= i < frames.len() ==> (#[trigger] frames[i]).data@[0] as int == frames.len(),
{
    let n = frames.len() as int;
    let len = body.len() as int;
    lemma_frag_count_bounds(body.len());
    assert(frag_count(body.len()) <= 255) by {
        assert(body.len() + 251 <= 64511);
        assert((body.len() + 251) as nat / 252 <= 64511nat / 252) by (nonlinear_arith)
            requires
                body.len() + 251 <= 64511,
        ;
    }
    assert forall|k: int| 0 <= k < n implies (#[trigger] frames[k]).data@[1] as int == k
        && frames[k].data@[0] as int == n by {
        assert(frames[k].data@ == fragment_body(id, body, k));
    }
    assert forall|k: int|
        0 <= k < n implies fragment_payload(#[trigger] frames[k]) == body.subrange(
        252 * k,
        fragment_slice_end(len, k),
    ) by {
        assert(frames[k].data@ == fragment_body(id, body, k));
        assert(fragment_payload(frames[k]) =~= body.subrange(
            252 * k,
            fragment_slice_end(len, k),
        ));
    }
    lemma_reassembled_prefix(body, frames, n);
    assert(body.subrange(0, len) =~= body);
}

/// How one fragment arrival moves a reassembler from the buffered fragments
/// `before` to `after`, answering `r`.  The arrival completes the message
/// when the count it declares equals the number now accumulated; then the
/// buffer is cleared and the reconstruction (or its decode failure) comes
/// out.  Otherwise the fragment is only buffered.
pub open spec fn add_transition(
    before: Seq<Packet>,
    packet: Packet,
    r: Result<Option<Packet>, DecodeError>,
    after: Seq<Packet>,
) -> bool {
    let arrived = before.push(packet);
    if packet.data@[0] as int == arrived.len() {
        after == Seq::<Packet>::empty() && if valid_id_byte(arrived[0].data@[2]) {
            r matches Ok(op) && op matches Some(p) && p.id == id_of_byte(arrived[0].data@[2])
                && p.data@ == coerce_body(reassembled_body(arrived, arrived.len() as int))
                && p.wf()
        } else {
            r == Err::<Option<Packet>, DecodeError>(DecodeError::UnknownFrameKind)
        }
    } else {
        after == arrived && r == Ok::<Option<Packet>, DecodeError>(None)
    }
}

/// Accumulates the fragment frames of one oversized logical message until
/// the declared total arrives, then reconstructs the message.  One instance
/// serves one sender; only one oversized message may be in flight per sender
/// at a time.
pub struct BigPacket {
    packets: Vec<Packet>,
}

impl BigPacket {
    /// The fragments received so far for the message in flight.
    pub closed spec fn fragments(self) -> Seq<Packet> {
        self.packets@
    }

    /// Every buffered fragment carries at least the three-byte header, as
    /// `add` requires of each arrival.
    pub closed spec fn wf(self) -> bool {
        forall|j: int| 0 <= j < self.packets@.len() ==> (#[trigger] self.packets@[j]).data@.len() >= 3
    }

    /// A fresh reassembler with no fragments in flight.
    pub fn new() -> (r: BigPacket)
        ensures
            r.fragments() == Seq::<Packet>::empty(),
            r.wf(),
    {
        BigPacket { packets: Vec::new() }
    }

    /// Takes one received fragment.  When the fragment count the arriving
    /// fragment declares equals the number now accumulated, the message is
    /// complete: it is reconstructed, the buffer is cleared, and the message
    /// is returned.  Otherwise the fragment is only buffered.  A completed
    /// message whose declared original kind is unknown is a decode failure;
    /// the buffer is cleared all the same.
    pub fn add(&mut self, packet: Packet) -> (r: Result<Option<Packet>, DecodeError>)
        requires
            old(self).wf(),
            packet.data@.len() >= 3,
        ensures
            final(self).wf(),
            add_transition(old(self).fragments(), packet, r, final(self).fragments()),
    {
        let num_packets = packet.data[0] as usize;
        self.packets.push(packet);
        if self.packets.len() == num_packets {
            let p = Packet::from_multiple(&self.packets);
            self.packets.clear();
            match p {
                Ok(p) => Ok(Some(p)),
                Err(e) => Err(e),
            }
        } else {
            Ok(None)
        }
    }
}

} // verus!
