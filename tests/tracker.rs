use fish_torrent::peers::PeerAddr;
use fish_torrent::timer::{Timer, Timers};
use fish_torrent::torrent::{
    get_file_length, get_file_name, get_info_hash, get_number_of_pieces, get_piece_hash,
    get_piece_length, get_pieces, get_tracker_url, Torrent, TorrentMode,
};
use fish_torrent::tracker::{
    bytes_to_urlencoding, parse_body_from_response, parse_compact_peers, Event, TrackerRequest,
    TrackerResponse, TrackerResponseBeta,
};

#[test]
fn test_construct_tracker_request() {
    let tr = TrackerRequest::new(
        "aaaaaaaaaaaaaaaaaaaa".as_bytes(),
        "bbbbbbbbbbbbbbbbbbbb".as_bytes(),
        6881,
        0,
        0,
        0,
        Event::STARTED,
    );
    let request = TrackerRequest::construct_tracker_request(&tr);

    assert!(request.contains("info_hash=aaaaaaaaaaaaaaaaaaaa"));
    assert!(request.contains("peer_id=bbbbbbbbbbbbbbbbbbbb"));
}

#[test]
fn test_send_tracker_request() {
    let tracker_request = TrackerRequest::new(
        "aaaaaaaaaaaaaaaaaaaa".as_bytes(),
        "bbbbbbbbbbbbbbbbbbbb".as_bytes(),
        6881,
        0,
        0,
        0,
        Event::STARTED,
    );
    let request = tracker_request.construct_tracker_request();
    assert!(request.starts_with("GET /announce?"));
    assert!(request.ends_with("\r\n\r\n"));
}

#[test]
fn test_bytes_to_urlencoding() {
    let res = bytes_to_urlencoding(&[0x05, 0x61, 0x61, 0x61, 0xc3, 0xb5]);
    assert_eq!("%05%61%61%61%C3%B5", res);
}

#[test]
fn request_text_is_exact() {
    let tr = TrackerRequest::new(&[0x12, b'a', 0xff, b'~'], b"id-1", 6881, 10, 20, 300, Event::PERIODIC);
    assert_eq!(tr.info_hash, "%12a%FF~");
    assert_eq!(
        tr.construct_tracker_request(),
        "GET /announce?info_hash=%12a%FF~&peer_id=id-1&port=6881&uploaded=10&downloaded=20&left=300&compact=1 HTTP/1.1\r\nHost: poole.cs.umd.edu\r\n\r\n"
    );
    let tr = TrackerRequest::new(b"x", b"y", 1, 0, 0, 0, Event::COMPLETED);
    assert!(tr.construct_tracker_request().contains("&left=0&event=completed&compact=1"));
    assert_eq!(Event::STOPPED.as_str(), Some("stopped"));
    assert_eq!(Event::PERIODIC.as_str(), None);
}

#[test]
fn body_follows_first_blank_line() {
    let resp = b"HTTP/1.1 200 OK\r\nA: b\r\n\r\nd8:intervali5ee\r\n\r\nx".to_vec();
    assert_eq!(
        parse_body_from_response(&resp),
        Some(b"d8:intervali5ee\r\n\r\nx".to_vec())
    );
    assert_eq!(parse_body_from_response(&b"HTTP/1.1 200 OK\r\n".to_vec()), None);
    assert_eq!(parse_body_from_response(&b"\r\n\r\n".to_vec()), Some(vec![]));
}

#[test]
fn compact_peer_list() {
    let peers = vec![127, 0, 0, 1, 0x1a, 0xe1, 10, 1, 2, 3, 0, 80, 9];
    assert_eq!(
        parse_compact_peers(&peers),
        vec![
            PeerAddr { ip: 0x7f000001, port: 6881 },
            PeerAddr { ip: 0x0a010203, port: 80 }
        ]
    );
    let r = TrackerResponse::from_beta(&TrackerResponseBeta { interval: 900, peers });
    assert_eq!(r.interval, 900);
    assert_eq!(r.socket_addr_list.len(), 2);
}

#[test]
fn torrent_accessors() {
    let mut pieces = vec![1u8; 20];
    pieces.extend(vec![2u8; 20]);
    let t = Torrent::new(
        "http://128.8.126.63:6969/announce".to_string(),
        "artofwar.txt".to_string(),
        63371,
        32768,
        pieces.clone(),
        b"abcde",
        0,
    )
    .unwrap();
    assert_eq!(
        get_info_hash(&t),
        [
            0x03, 0xde, 0x6c, 0x57, 0x0b, 0xfe, 0x24, 0xbf, 0xc3, 0x28, 0xcc, 0xd7, 0xca, 0x46,
            0xb7, 0x6e, 0xad, 0xaf, 0x43, 0x34
        ]
    );
    assert_eq!(get_tracker_url(&t), "http://128.8.126.63:6969/announce");
    assert_eq!(get_file_name(&t), "artofwar.txt");
    assert_eq!(get_piece_length(&t), 32768);
    assert_eq!(get_number_of_pieces(&t), 2);
    assert_eq!(get_pieces(&t), &pieces);
    assert_eq!(get_file_length(&t), 63371);
    assert_eq!(get_piece_hash(&t, 1), Some([2u8; 20]));
    assert_eq!(get_piece_hash(&t, 2), None);
    assert_eq!(t.torrent_mode, TorrentMode::SingleFile);
    assert_eq!(TorrentMode::default(), TorrentMode::SingleFile);
    let multi = Torrent::new(String::new(), String::new(), 0, 1, vec![], b"", 17).unwrap();
    assert_eq!(multi.torrent_mode, TorrentMode::MultipleFile);
    assert!(Torrent::new(String::new(), String::new(), 0, 1, vec![0; 19], b"", 0).is_none());
}

#[test]
fn timers() {
    let mut t = Timer { timeout: 500, instant: 1000 };
    assert!(!t.timeout_huh(1500));
    assert!(t.timeout_huh(1501));
    assert!(!t.timeout_huh(10));
    t.update_instant(2000);
    assert!(!t.timeout_huh(2400));
    assert_eq!(t.remaining(2400), 100);
    assert_eq!(t.remaining(9999), 0);
    let ts = Timers {
        strategy: Timer { timeout: 500, instant: 0 },
        tracker: Timer { timeout: u64::MAX, instant: 0 },
        keepalive: Timer { timeout: 10_000, instant: 0 },
        clear_requests: Timer { timeout: 300, instant: 100 },
    };
    assert_eq!(ts.min_remaining(200), 200);
    assert_eq!(ts.min_remaining(390), 10);
    assert_eq!(ts.min_remaining(1000), 0);
}
