use packnet::BigPacket;
use packnet::DecodeError;
use packnet::Packet;
use packnet::PacketID;

#[test]
fn single_frame_round_trip() {
    let body: Vec<u8> = vec![10, 20, 30, 40];
    let packet = Packet::new(PacketID::Data, body.clone());
    let raw = packet.to_raw();
    assert_eq!(raw.len(), 5);
    assert_eq!(raw[0], 4);
    let decoded = Packet::from_raw(&raw, raw.len()).unwrap().unwrap();
    assert_eq!(decoded.id, PacketID::Data);
    assert_eq!(decoded.data, body);
}

#[test]
fn empty_body_is_coerced_to_one_zero_byte() {
    let packet = Packet::new(PacketID::Name, Vec::new());
    assert_eq!(packet.data, vec![0]);
    let raw = packet.to_raw();
    let decoded = Packet::from_raw(&raw, raw.len()).unwrap().unwrap();
    assert_eq!(decoded.id, PacketID::Name);
    assert_eq!(decoded.data, vec![0]);
}

#[test]
fn zero_length_read_decodes_to_absent() {
    let buff: Vec<u8> = vec![99, 98, 97];
    assert!(matches!(Packet::from_raw(&buff, 0), Ok(None)));
    let empty: Vec<u8> = Vec::new();
    assert!(matches!(Packet::from_raw(&empty, 0), Ok(None)));
}

#[test]
fn unknown_kind_byte_is_a_decode_failure() {
    let buff: Vec<u8> = vec![6, 1, 2];
    assert!(matches!(
        Packet::from_raw(&buff, buff.len()),
        Err(DecodeError::UnknownFrameKind)
    ));
    let buff: Vec<u8> = vec![255];
    assert!(matches!(
        Packet::from_raw(&buff, 1),
        Err(DecodeError::UnknownFrameKind)
    ));
}

#[test]
fn kind_bytes_round_trip() {
    let kinds = [
        PacketID::Blank,
        PacketID::Name,
        PacketID::Start,
        PacketID::Multiple,
        PacketID::Data,
        PacketID::MapData,
    ];
    for (expected, kind) in kinds.iter().enumerate() {
        assert_eq!(kind.to_byte() as usize, expected);
        assert_eq!(PacketID::from_byte(kind.to_byte()), Ok(*kind));
    }
    assert_eq!(PacketID::from_byte(6), Err(DecodeError::UnknownFrameKind));
}

#[test]
fn split_of_one_thousand_bytes_gives_four_frames() {
    let body: Vec<u8> = vec![b'A'; 1000];
    let packet = Packet::new(PacketID::Data, body.clone());
    let frames = Packet::create_multiple(packet);
    assert_eq!(frames.len(), 4);
    let payload_sizes = [252, 252, 252, 244];
    for (i, frame) in frames.iter().enumerate() {
        assert_eq!(frame.id, PacketID::Multiple);
        assert_eq!(frame.data.len(), 3 + payload_sizes[i]);
        assert_eq!(frame.data[0], 4);
        assert_eq!(frame.data[1], i as u8);
        assert_eq!(frame.data[2], 4);
        assert!(frame.data.len() + 1 <= 256);
        assert!(frame.data[3..].iter().all(|&b| b == b'A'));
    }

    let mut reassembler = BigPacket::new();
    for (i, frame) in frames.into_iter().enumerate() {
        let out = reassembler.add(frame).unwrap();
        if i < 3 {
            assert!(out.is_none());
        } else {
            let message = out.unwrap();
            assert_eq!(message.id, PacketID::Data);
            assert_eq!(message.data, body);
        }
    }
}

#[test]
fn split_round_trip_completes_only_on_last_fragment() {
    let body: Vec<u8> = (0..=255u8).cycle().take(300).collect();
    let packet = Packet::new(PacketID::MapData, body.clone());
    let frames = Packet::create_multiple(packet);
    assert_eq!(frames.len(), 2);

    let mut reassembler = BigPacket::new();
    let mut frames = frames.into_iter();
    assert!(matches!(reassembler.add(frames.next().unwrap()), Ok(None)));
    let message = reassembler.add(frames.next().unwrap()).unwrap().unwrap();
    assert_eq!(message.id, PacketID::MapData);
    assert_eq!(message.data, body);
}

#[test]
fn split_of_exactly_one_slice_gives_one_fragment() {
    let body: Vec<u8> = vec![7; 252];
    let packet = Packet::new(PacketID::Start, body.clone());
    let frames = Packet::create_multiple(packet);
    assert_eq!(frames.len(), 1);
    assert_eq!(frames[0].data.len(), 255);

    let mut reassembler = BigPacket::new();
    let message = reassembler
        .add(frames.into_iter().next().unwrap())
        .unwrap()
        .unwrap();
    assert_eq!(message.id, PacketID::Start);
    assert_eq!(message.data, body);
}

#[test]
fn reassembly_orders_fragments_by_declared_index() {
    // Two fragments arriving with their declared indices swapped relative to
    // arrival order: the payload still comes out in index order.
    let mut second = vec![2u8, 1, 2];
    second.extend_from_slice(b"world");
    let mut first = vec![2u8, 0, 2];
    first.extend_from_slice(b"hello ");

    let mut reassembler = BigPacket::new();
    assert!(matches!(
        reassembler.add(Packet::new(PacketID::Multiple, second)),
        Ok(None)
    ));
    let message = reassembler
        .add(Packet::new(PacketID::Multiple, first))
        .unwrap()
        .unwrap();
    assert_eq!(message.id, PacketID::Start);
    assert_eq!(message.data, b"hello world".to_vec());
}

#[test]
fn declared_total_is_read_from_each_arriving_fragment() {
    // The completion check reads the total from the fragment that just
    // arrived: here the second arrival declares 2, so two accumulated
    // fragments complete the message even though the first declared 5.
    let mut first = vec![5u8, 0, 4];
    first.extend_from_slice(b"ab");
    let mut second = vec![2u8, 1, 4];
    second.extend_from_slice(b"cd");

    let mut reassembler = BigPacket::new();
    assert!(matches!(
        reassembler.add(Packet::new(PacketID::Multiple, first)),
        Ok(None)
    ));
    let message = reassembler
        .add(Packet::new(PacketID::Multiple, second))
        .unwrap()
        .unwrap();
    assert_eq!(message.id, PacketID::Data);
    assert_eq!(message.data, b"abcd".to_vec());
}

#[test]
fn completed_message_with_unknown_kind_fails() {
    let fragment = Packet::new(PacketID::Multiple, vec![1, 0, 9, 5, 5]);
    let mut reassembler = BigPacket::new();
    assert!(matches!(
        reassembler.add(fragment),
        Err(DecodeError::UnknownFrameKind)
    ));
}
