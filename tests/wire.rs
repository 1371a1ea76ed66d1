use fish_torrent::file::OutputFile;
use fish_torrent::p2p::{
    build_handshake, check_handshake, pack_bitfield, parse_message, serialize, unpack_bitfield,
    HandshakeError, MessageType, Messages, PROTOCOL,
};
use fish_torrent::peers::{Peer, PeerAddr};
use fish_torrent::session::{complete_piece, handle_messages, handle_peer};
use fish_torrent::strategy::Strategy;
use fish_torrent::torrent::Torrent;

fn all_messages() -> Vec<MessageType> {
    vec![
        MessageType::Choke,
        MessageType::Unchoke,
        MessageType::Interested,
        MessageType::NotInterested,
        MessageType::Have { index: 0x01020304 },
        MessageType::Bitfield { field: vec![0b1010_0000, 0xff] },
        MessageType::Bitfield { field: vec![] },
        MessageType::Request { index: 1, begin: 16000, length: 16000 },
        MessageType::Piece { index: 7, begin: 32000, block: vec![1, 2, 3] },
        MessageType::Piece { index: 7, begin: 0, block: vec![] },
        MessageType::Cancel { index: 9, begin: 8, length: 7 },
        MessageType::KeepAlive,
    ]
}

#[test]
fn frames_are_bit_exact() {
    assert_eq!(serialize(&MessageType::KeepAlive), vec![0, 0, 0, 0]);
    assert_eq!(serialize(&MessageType::Choke), vec![0, 0, 0, 1, 0]);
    assert_eq!(serialize(&MessageType::NotInterested), vec![0, 0, 0, 1, 3]);
    assert_eq!(
        serialize(&MessageType::Have { index: 0x01020304 }),
        vec![0, 0, 0, 5, 4, 1, 2, 3, 4]
    );
    assert_eq!(
        serialize(&MessageType::Request { index: 1, begin: 2, length: 3 }),
        vec![0, 0, 0, 13, 6, 0, 0, 0, 1, 0, 0, 0, 2, 0, 0, 0, 3]
    );
    assert_eq!(
        serialize(&MessageType::Cancel { index: 1, begin: 2, length: 3 }),
        vec![0, 0, 0, 13, 8, 0, 0, 0, 1, 0, 0, 0, 2, 0, 0, 0, 3]
    );
    assert_eq!(
        serialize(&MessageType::Piece { index: 1, begin: 2, block: vec![9, 8] }),
        vec![0, 0, 0, 11, 7, 0, 0, 0, 1, 0, 0, 0, 2, 9, 8]
    );
    assert_eq!(
        serialize(&MessageType::Bitfield { field: vec![0xa0] }),
        vec![0, 0, 0, 2, 5, 0xa0]
    );
}

#[test]
fn round_trip_every_variant() {
    for m in all_messages() {
        let mut buf = serialize(&m);
        buf.extend_from_slice(&[0, 0]);
        assert_eq!(parse_message(&mut buf), Some(m));
        assert_eq!(buf, vec![0, 0]);
    }
}

#[test]
fn parse_is_resumable_byte_by_byte() {
    for m in all_messages() {
        let frame = serialize(&m);
        let mut buf = Vec::new();
        let mut got = None;
        for (i, b) in frame.iter().enumerate() {
            buf.push(*b);
            got = parse_message(&mut buf);
            if i + 1 < frame.len() {
                assert_eq!(got, None);
                assert_eq!(buf.len(), i + 1);
            }
        }
        let mut whole = frame.clone();
        assert_eq!(got, parse_message(&mut whole));
        assert_eq!(got, Some(m));
        assert!(buf.is_empty());
    }
}

#[test]
fn malformed_frame_discards_buffer() {
    // Unknown id 9.
    let mut buf = vec![0, 0, 0, 1, 9, 1, 2, 3];
    assert_eq!(parse_message(&mut buf), None);
    assert!(buf.is_empty());
    // A Have with the wrong length.
    let mut buf = vec![0, 0, 0, 2, 4, 1];
    assert_eq!(parse_message(&mut buf), None);
    assert!(buf.is_empty());
    // Choke with a payload.
    let mut buf = vec![0, 0, 0, 2, 0, 1];
    assert_eq!(parse_message(&mut buf), None);
    assert!(buf.is_empty());
}

#[test]
fn incomplete_frame_keeps_buffer() {
    let mut buf = vec![0, 0, 0, 5, 4, 0, 0];
    assert_eq!(parse_message(&mut buf), None);
    assert_eq!(buf, vec![0, 0, 0, 5, 4, 0, 0]);
}

#[test]
fn messages_are_sent_in_order() {
    let mut q = Messages::new();
    q.messages.push(MessageType::Unchoke);
    q.messages.push(MessageType::KeepAlive);
    let mut out = vec![7];
    q.send_messages(&mut out);
    assert_eq!(out, vec![7, 0, 0, 0, 1, 1, 0, 0, 0, 0]);
}

#[test]
fn handshake_round_trip_and_errors() {
    let info = [b'i'; 20];
    let id = [b'p'; 20];
    let hs = build_handshake(&info, &id);
    assert_eq!(hs.len(), 68);
    assert_eq!(hs[0], 19);
    assert_eq!(&hs[1..20], b"BitTorrent protocol");
    assert_eq!(&hs[1..20], &PROTOCOL[..]);
    assert_eq!(&hs[20..28], &[0u8; 8]);
    assert_eq!(check_handshake(&hs, &info), Ok(id));
    assert_eq!(check_handshake(&hs, &[b'x'; 20]), Err(HandshakeError::BadInfoHash));
    let mut bad = hs.clone();
    bad[0] = 18;
    assert_eq!(check_handshake(&bad, &info), Err(HandshakeError::BadLength));
    let mut bad = hs.clone();
    bad[5] = b'X';
    assert_eq!(check_handshake(&bad, &info), Err(HandshakeError::BadProtocol));
    assert_eq!(check_handshake(&hs[..67].to_vec(), &info), Err(HandshakeError::WrongSize));
}

#[test]
fn test_bitfield_drain() {
    let num_pieces = 3;
    // The bitfield is [1, 0, 1, 0, 0, 0, 0, 0].
    let field = vec![0b1010_0000u8];
    let bits = unpack_bitfield(&field, num_pieces);
    assert_eq!(bits.len(), num_pieces);
    assert_eq!(bits, vec![true, false, true]);
}

#[test]
fn test_bitfield_drain2() {
    let num_pieces = 10;
    // 1, 0, 1, 1, 0, 1, 1, 0, 1, 1, then six bits of padding.
    let field = vec![0b1011_0110u8, 0b1100_0000u8];
    assert_eq!(field.len() * 8, 16);
    let bits = unpack_bitfield(&field, num_pieces);
    assert_eq!(bits.len(), num_pieces);
    assert_eq!(
        bits,
        vec![true, false, true, true, false, true, true, false, true, true]
    );
}

#[test]
fn bitfield_pack_is_msb_first() {
    let bits = vec![true, false, true, true, false, true, true, false, true, true];
    assert_eq!(pack_bitfield(&bits), vec![0b1011_0110, 0b1100_0000]);
    assert_eq!(unpack_bitfield(&pack_bitfield(&bits), 10), bits);
    assert_eq!(pack_bitfield(&vec![]), Vec::<u8>::new());
}

fn addr() -> PeerAddr {
    PeerAddr { ip: 0x7f000001, port: 6881 }
}

#[test]
fn inbound_bytes_become_messages() {
    let mut peer = Peer::new(addr());
    let mut bytes = serialize(&MessageType::Unchoke);
    bytes.extend(serialize(&MessageType::Have { index: 3 }));
    bytes.extend(&serialize(&MessageType::KeepAlive)[..2]);
    let (msgs, bad) = handle_messages(&mut peer, &bytes);
    assert_eq!(msgs, vec![MessageType::Unchoke, MessageType::Have { index: 3 }]);
    assert!(!bad);
    assert_eq!(peer.recv_buffer, vec![0, 0]);
    let (msgs, bad) = handle_messages(&mut peer, &vec![0, 0]);
    assert_eq!(msgs, vec![MessageType::KeepAlive]);
    assert!(!bad);
    assert!(peer.recv_buffer.is_empty());
    let (msgs, bad) = handle_messages(&mut peer, &vec![0, 0, 0, 1, 42]);
    assert!(msgs.is_empty());
    assert!(bad);
}

fn abcde_torrent() -> Torrent {
    let mut pieces = vec![
        0x03, 0xde, 0x6c, 0x57, 0x0b, 0xfe, 0x24, 0xbf, 0xc3, 0x28, 0xcc, 0xd7, 0xca, 0x46, 0xb7,
        0x6e, 0xad, 0xaf, 0x43, 0x34,
    ];
    pieces.extend([0u8; 20]);
    Torrent::new(
        "http://tracker/announce".to_string(),
        "f".to_string(),
        10,
        5,
        pieces,
        b"d4:infoe",
        0,
    )
    .unwrap()
}

#[test]
fn received_piece_is_verified_and_announced() {
    let torrent = abcde_torrent();
    let mut file = OutputFile::new(10, 2, 5, 5).unwrap();
    let mut strategy = Strategy::new(2, 5);
    let mut peer = Peer::new(addr());
    let msgs = vec![
        MessageType::Unchoke,
        MessageType::Interested,
        MessageType::Bitfield { field: vec![0b1100_0000] },
        MessageType::Request { index: 1, begin: 0, length: 5 },
        MessageType::Piece { index: 0, begin: 0, block: b"abcde".to_vec() },
    ];
    handle_peer(addr(), &mut peer, msgs, &mut file, &mut strategy, &torrent);
    assert!(!peer.peer_choking);
    assert!(peer.peer_interested);
    assert_eq!(peer.check_piece_bitfield(1), Some(true));
    assert_eq!(peer.pop_request().map(|r| (r.index, r.begin, r.length)), Some((1, 0, 5)));
    assert_eq!(file.get_file_bitfield(), vec![true, false]);
    assert_eq!(strategy.updates.len(), 1);
    assert_eq!(strategy.updates[0].message, MessageType::Have { index: 0 });

    // A piece whose digest does not match is cleared again.
    let msgs = vec![MessageType::Piece { index: 1, begin: 0, block: b"vwxyz".to_vec() }];
    handle_peer(addr(), &mut peer, msgs, &mut file, &mut strategy, &torrent);
    assert_eq!(file.get_file_bitfield(), vec![true, false]);
    assert_eq!(file.is_block_finished(1, 0), Some(false));
    assert_eq!(strategy.updates.len(), 1);
}

#[test]
fn complete_piece_reports_match() {
    let mut file = OutputFile::new(5, 1, 5, 5).unwrap();
    let mut strategy = Strategy::new(1, 1);
    file.write_block(0, 0, b"abcde".to_vec()).unwrap();
    let wrong = [0u8; 20];
    assert!(!complete_piece(addr(), 0, &wrong, &mut file, &mut strategy));
    assert_eq!(file.get_file_bitfield(), vec![false]);
}
