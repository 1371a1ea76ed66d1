use fish_torrent::file::OutputFile;
use fish_torrent::p2p::MessageType;
use fish_torrent::peers::{Peer, PeerAddr, PeerError, Peers};
use fish_torrent::strategy::Strategy;

fn a(n: u16) -> PeerAddr {
    PeerAddr { ip: 0x0a000001, port: n }
}

#[test]
fn test_peer_piece_bit() {
    let mut p = Peer::new(a(1));
    p.set_piece_bit(0, true);
    assert_eq!(p.check_piece_bitfield(0), None);
    p.init_piece_bitfield(vec![false, false, false]);
    p.set_piece_bit(2, true);
    assert_eq!(p.check_piece_bitfield(2), Some(true));
    assert_eq!(p.check_piece_bitfield(1), Some(false));
    p.set_piece_bit(2, false);
    assert_eq!(p.check_piece_bitfield(2), Some(false));
}

#[test]
fn test_peer_interested_bit() {
    let p = Peer::new(a(1));
    assert!(p.am_choking && p.peer_choking);
    assert!(!p.am_interested && !p.peer_interested);
    assert!(!p.is_complete());
}

#[test]
fn test_peer_eq() {
    let p = Peer::new(a(1));
    let q = Peer::new(a(1));
    assert_eq!(p.get_addr(), q.get_addr());
    assert_eq!(p.get_peer_id(), q.get_peer_id());
    assert_ne!(p.get_addr(), Peer::new(a(2)).get_addr());
}

#[test]
fn test_peers_new() {
    let peers = Peers::new();
    assert!(peers.list.is_empty());
    assert!(peers.incomplete.is_empty());
    assert!(peers.find_peer(a(1)).is_none());
}

#[test]
fn test_peers_add_peer() {
    let mut peers = Peers::new();
    assert_eq!(peers.add_peer(a(1), None), Ok(()));
    assert_eq!(peers.add_peer(a(2), Some([7; 20])), Ok(()));
    assert_eq!(peers.add_peer(a(1), None), Err(PeerError::AlreadyPresent));
    assert_eq!(peers.add_peer(a(2), None), Err(PeerError::AlreadyPresent));
    assert_eq!(peers.incomplete.len(), 1);
    assert_eq!(peers.list.len(), 1);
}

#[test]
fn test_peers_remove_peer() {
    let mut peers = Peers::new();
    peers.add_peer(a(1), None).unwrap();
    peers.add_peer(a(2), Some([7; 20])).unwrap();
    assert_eq!(peers.remove_peer(a(2)).map(|p| p.get_addr()), Some(a(2)));
    assert_eq!(peers.remove_peer(a(1)).map(|p| p.get_addr()), Some(a(1)));
    assert!(peers.remove_peer(a(1)).is_none());
    assert!(peers.list.is_empty() && peers.incomplete.is_empty());
}

#[test]
fn test_peers_find_peer() {
    let mut peers = Peers::new();
    peers.add_peer(a(1), None).unwrap();
    assert_eq!(peers.find_peer(a(1)).map(|p| p.is_complete()), Some(false));
    peers.complete_peer(a(1), &[3; 20]).unwrap();
    assert_eq!(peers.find_peer(a(1)).map(|p| p.get_peer_id()), Some(Some([3; 20])));
    assert!(peers.find_peer(a(9)).is_none());
}

#[test]
fn add_then_complete_once() {
    let mut peers = Peers::new();
    peers.add_peer(a(1), None).unwrap();
    peers.add_peer(a(2), None).unwrap();
    assert_eq!(peers.complete_peer(a(1), &[1; 20]), Ok(()));
    assert_eq!(peers.list.len(), 1);
    assert_eq!(peers.incomplete.len(), 1);
    assert_eq!(peers.complete_peer(a(1), &[1; 20]), Err(PeerError::NotPending));
    assert_eq!(peers.complete_peer(a(5), &[1; 20]), Err(PeerError::NotPending));
    assert_eq!(peers.incomplete[0].get_addr(), a(2));
}

#[test]
fn requests_are_served_oldest_first() {
    let mut p = Peer::new(a(1));
    p.push_request(1, 0, 5);
    p.push_request(2, 5, 5);
    assert_eq!(p.pop_request().map(|r| r.index), Some(1));
    assert_eq!(p.pop_request().map(|r| r.index), Some(2));
    assert!(p.pop_request().is_none());
}

fn established(peers: &mut Peers, n: u16, has: Vec<bool>) {
    peers.add_peer(a(n), Some([n as u8; 20])).unwrap();
    let last = peers.list.len() - 1;
    peers.list[last].init_piece_bitfield(has);
}

#[test]
fn strategy_focus_is_bounded_and_have_unfocuses() {
    let mut file = OutputFile::new(50, 5, 10, 5).unwrap();
    let mut peers = Peers::new();
    established(&mut peers, 1, vec![true; 5]);
    let mut s = Strategy::new(5, 2);
    s.what_do(&mut peers, &file);
    assert_eq!(s.focused_pieces, vec![0, 1]);
    // The peer chokes us: we say we are interested in each piece it has, once,
    // and unchoke it.
    assert_eq!(
        peers.list[0].messages.messages,
        vec![MessageType::Interested, MessageType::Unchoke]
    );
    peers.list[0].reset_messages();

    // Piece 0 is verified and announced: it leaves the focus at the next tick.
    file.write_block(0, 0, vec![0; 5]).unwrap();
    file.write_block(0, 5, vec![0; 5]).unwrap();
    file.set_piece_finished(0).unwrap();
    s.push_update(None, MessageType::Have { index: 0 });
    peers.list[0].peer_choking = false;
    s.what_do(&mut peers, &file);
    assert_eq!(s.focused_pieces, vec![1, 2]);
    assert!(s.updates.is_empty());
    assert_eq!(
        peers.list[0].messages.messages,
        vec![
            MessageType::Have { index: 0 },
            MessageType::Request { index: 1, begin: 0, length: 5 },
            MessageType::Request { index: 2, begin: 0, length: 5 },
        ]
    );
    peers.list[0].reset_messages();

    // In-flight requests are not repeated; the next block is asked for.
    s.what_do(&mut peers, &file);
    assert_eq!(
        peers.list[0].messages.messages,
        vec![
            MessageType::Request { index: 1, begin: 5, length: 5 },
            MessageType::Request { index: 2, begin: 5, length: 5 },
        ]
    );
    assert!(s.focused_pieces.len() <= 2);

    // Clearing in-flight requests lets them be asked for again.
    s.rm_requests_for_piece(1);
    assert_eq!(s.rqs.len(), 2);
    s.rm_all_requests();
    assert!(s.rqs.is_empty());
}

#[test]
fn strategy_keepalive_and_serving() {
    let mut file = OutputFile::new(10, 2, 5, 5).unwrap();
    file.write_block(0, 0, b"abcde".to_vec()).unwrap();
    file.set_piece_finished(0).unwrap();
    let mut peers = Peers::new();
    established(&mut peers, 1, vec![false, false]);
    peers.list[0].am_choking = false;
    peers.list[0].push_request(0, 1, 3);
    peers.list[0].push_request(0, 0, 1);
    let mut s = Strategy::new(2, 1);
    s.push_update(None, MessageType::KeepAlive);
    s.what_do(&mut peers, &file);
    assert_eq!(s.focused_pieces, vec![1]);
    // One request is served per tick.
    assert_eq!(
        peers.list[0].messages.messages,
        vec![
            MessageType::KeepAlive,
            MessageType::Piece { index: 0, begin: 1, block: b"bcd".to_vec() },
        ]
    );
}

#[test]
fn peer_accessors() {
    let mut p = Peer::new(a(1));
    p.get_mut_recv_buffer().extend([1, 2, 3]);
    assert_eq!(p.recv_buffer, vec![1, 2, 3]);
    p.get_mut_messages().messages.push(MessageType::Have { index: 4 });
    p.queue(MessageType::Piece { index: 1, begin: 2, block: vec![9] });
    let copy = p.get_messages_clone();
    assert_eq!(copy.messages, p.messages.messages);
    assert_eq!(copy.messages[1].duplicate(), MessageType::Piece { index: 1, begin: 2, block: vec![9] });
    p.reset_messages();
    assert!(p.messages.messages.is_empty());
    p.set_messages(copy);
    assert_eq!(p.messages.messages.len(), 2);

    let mut peers = Peers::new();
    peers.add_peer(a(1), Some([1; 20])).unwrap();
    peers.get_peers_list()[0].am_choking = false;
    assert!(!peers.list[0].am_choking);
}
