use packnet::wire_frames;
use packnet::ClientSession;
use packnet::DecodeError;
use packnet::Packet;
use packnet::PacketID;
use packnet::ServerSession;

/// Pads a frame out to the fixed read buffer size, the way a non-blocking
/// read into a `[0; 256]` buffer presents it, and returns the buffer with
/// the number of bytes the read produced.
fn as_read(frame: &[u8]) -> (Vec<u8>, usize) {
    let mut buff = frame.to_vec();
    let len = buff.len();
    buff.resize(256, 0);
    (buff, len)
}

#[test]
fn client_surfaces_a_single_frame_directly() {
    let mut session = ClientSession::new();
    let (buff, len) = as_read(&Packet::new(PacketID::Data, vec![1, 2, 3]).to_raw());
    let packet = session.handle_raw(&buff, len).unwrap().unwrap();
    assert_eq!(packet.id, PacketID::Data);
    assert_eq!(packet.data, vec![1, 2, 3]);
}

#[test]
fn client_treats_empty_read_as_no_data() {
    let mut session = ClientSession::new();
    let buff = [9u8; 256];
    assert!(matches!(session.handle_raw(&buff, 0), Ok(None)));
}

#[test]
fn client_reassembles_fragments_across_reads() {
    let body: Vec<u8> = vec![b'B'; 600];
    let frames = wire_frames(Packet::new(PacketID::MapData, body.clone()));
    assert_eq!(frames.len(), 3);

    let mut session = ClientSession::new();
    let mut completed = None;
    for (i, frame) in frames.iter().enumerate() {
        let (buff, len) = as_read(frame);
        let out = session.handle_raw(&buff, len).unwrap();
        if i < 2 {
            assert!(out.is_none());
        } else {
            completed = out;
        }
    }
    let message = completed.unwrap();
    assert_eq!(message.id, PacketID::MapData);
    assert_eq!(message.data, body);
}

#[test]
fn client_rejects_fragment_frame_without_header() {
    let mut session = ClientSession::new();
    // Kind byte 3 (fragment) with a single body byte: too short for the
    // three-byte fragment header.
    let (buff, len) = as_read(&[3, 1]);
    assert!(matches!(
        session.handle_raw(&buff, len),
        Err(DecodeError::TruncatedFragment)
    ));
}

#[test]
fn accepting_one_connection_makes_one_active_connection() {
    let mut server = ServerSession::new();
    assert_eq!(server.num_clients(), 0);
    server.poll_new_client(&vec![7]);
    assert_eq!(server.num_clients(), 1);
}

#[test]
fn accepting_nothing_changes_nothing() {
    let mut server = ServerSession::new();
    server.poll_new_client(&vec![1, 2]);
    assert_eq!(server.num_clients(), 2);
    server.poll_new_client(&Vec::new());
    assert_eq!(server.num_clients(), 2);
    // A poll cycle over both peers with empty reads surfaces nothing and
    // changes nothing either.
    let buff = [0u8; 256];
    assert!(matches!(server.handle_raw(1, &buff, 0), Ok(None)));
    assert!(matches!(server.handle_raw(2, &buff, 0), Ok(None)));
    assert_eq!(server.num_clients(), 2);
}

#[test]
fn interleaved_peers_lose_nothing() {
    let mut server = ServerSession::new();
    server.poll_new_client(&vec![10, 20]);

    let first = Packet::new(PacketID::Name, b"alice".to_vec()).to_raw();
    let second = Packet::new(PacketID::Name, b"bob".to_vec()).to_raw();
    let third = Packet::new(PacketID::Data, vec![1]).to_raw();
    let fourth = Packet::new(PacketID::Data, vec![2]).to_raw();

    // Each poll surfaces at most one frame; draining the peers in turn
    // surfaces every payload exactly once.
    let mut seen: Vec<(u64, Vec<u8>)> = Vec::new();
    let reads = [
        (10u64, &first),
        (20u64, &second),
        (10u64, &third),
        (20u64, &fourth),
    ];
    for (peer, frame) in reads {
        let (buff, len) = as_read(frame);
        if let Some(packet) = server.handle_raw(peer, &buff, len).unwrap() {
            seen.push((peer, packet.data));
        }
    }
    assert_eq!(
        seen,
        vec![
            (10, b"alice".to_vec()),
            (20, b"bob".to_vec()),
            (10, vec![1]),
            (20, vec![2]),
        ]
    );
}

#[test]
fn fragments_from_different_peers_stay_separate() {
    let mut server = ServerSession::new();
    server.poll_new_client(&vec![1, 2]);

    let body_a: Vec<u8> = vec![b'a'; 300];
    let body_b: Vec<u8> = vec![b'b'; 300];
    let frames_a = wire_frames(Packet::new(PacketID::Data, body_a.clone()));
    let frames_b = wire_frames(Packet::new(PacketID::MapData, body_b.clone()));
    assert_eq!(frames_a.len(), 2);
    assert_eq!(frames_b.len(), 2);

    // Interleave the two peers' fragment streams.
    let (buff, len) = as_read(&frames_a[0]);
    assert!(matches!(server.handle_raw(1, &buff, len), Ok(None)));
    let (buff, len) = as_read(&frames_b[0]);
    assert!(matches!(server.handle_raw(2, &buff, len), Ok(None)));

    let (buff, len) = as_read(&frames_a[1]);
    let message = server.handle_raw(1, &buff, len).unwrap().unwrap();
    assert_eq!(message.id, PacketID::Data);
    assert_eq!(message.data, body_a);

    let (buff, len) = as_read(&frames_b[1]);
    let message = server.handle_raw(2, &buff, len).unwrap().unwrap();
    assert_eq!(message.id, PacketID::MapData);
    assert_eq!(message.data, body_b);
}

#[test]
fn wire_frames_single_policy_under_threshold() {
    let body: Vec<u8> = vec![5; 251];
    let frames = wire_frames(Packet::new(PacketID::Data, body.clone()));
    assert_eq!(frames.len(), 1);
    assert_eq!(frames[0].len(), 252);
    assert_eq!(frames[0][0], 4);
    assert_eq!(&frames[0][1..], &body[..]);
}

#[test]
fn wire_frames_split_policy_at_threshold() {
    let body: Vec<u8> = vec![5; 252];
    let frames = wire_frames(Packet::new(PacketID::Data, body));
    assert_eq!(frames.len(), 1);
    // One fragment frame: outer kind 3, then count 1, index 0, kind 4.
    assert_eq!(frames[0].len(), 256);
    assert_eq!(&frames[0][..4], &[3, 1, 0, 4]);
    assert!(frames.iter().all(|f| f.len() <= 256));
}

#[test]
fn wire_frames_sizes_stay_within_one_frame() {
    let body: Vec<u8> = vec![9; 1000];
    let frames = wire_frames(Packet::new(PacketID::MapData, body));
    assert_eq!(frames.len(), 4);
    assert!(frames.iter().all(|f| f.len() <= 256));
    assert_eq!(frames[3].len(), 1 + 3 + 244);
}
