//! What this client sends to the tracker, and what it reads from the
//! tracker's answer once the bencoded body has been decoded.
use vstd::prelude::*;
use vstd::string::StringExecFns;

use crate::peers::PeerAddr;

verus! {

/// The hexadecimal digits, upper case.
pub open spec fn hex_chars() -> Seq<char> {
    seq!['0', '1', '2', '3', '4', '5', '6', '7', '8', '9', 'A', 'B', 'C', 'D', 'E', 'F']
}

/// The decimal digits of `n`, most significant first.
pub open spec fn decimal(n: nat) -> Seq<char>
    decreases n,
{
    if n < 10 {
        seq![hex_chars()[n as int]]
    } else {
        decimal(n / 10) + seq![hex_chars()[(n % 10) as int]]
    }
}

/// `%` and the two upper-case hexadecimal digits of `b`.
pub open spec fn percent(b: u8) -> Seq<char> {
    seq!['%', hex_chars()[(b / 16) as int], hex_chars()[(b % 16) as int]]
}

/// Every byte of `bs` written as `%` and two hexadecimal digits.
pub open spec fn percent_all(bs: Seq<u8>) -> Seq<char>
    decreases bs.len(),
{
    if bs.len() == 0 {
        Seq::empty()
    } else {
        percent_all(bs.drop_last()) + percent(bs.last())
    }
}

/// A byte that a URL carries as it is: an ASCII letter or digit, `-`, `.`, `_` or `~`.
pub open spec fn unreserved(b: u8) -> bool {
    (48 <= b <= 57) || (65 <= b <= 90) || (97 <= b <= 122) || b == 45 || b == 46 || b == 95
        || b == 126
}

/// `bs` percent-encoded for a URL: unreserved bytes stay, every other byte
/// becomes `%` and two upper-case hexadecimal digits.
pub open spec fn url_encoded(bs: Seq<u8>) -> Seq<char>
    decreases bs.len(),
{
    if bs.len() == 0 {
        Seq::empty()
    } else {
        url_encoded(bs.drop_last()) + if unreserved(bs.last()) {
            seq![bs.last() as char]
        } else {
            percent(bs.last())
        }
    }
}

/// Relies on `urlencoding::encode_binary`: unreserved ASCII bytes (letters,
/// digits, `-`, `.`, `_`, `~`) are kept, every other byte becomes `%` and two
/// upper-case hexadecimal digits.
#[verifier::external_body]
fn url_encode(data: &[u8]) -> (r: String)
    ensures
        r@ == url_encoded(data@),
{
    urlencoding::encode_binary(data).into_owned()
}

/// The hexadecimal digit `d`.
fn hex_digit(d: u8) -> (r: &'static str)
    requires
        d < 16,
    ensures
        r@ == seq![hex_chars()[d as int]],
{
    match d {
        0 => { proof { reveal_strlit("0"); } "0" },
        1 => { proof { reveal_strlit("1"); } "1" },
        2 => { proof { reveal_strlit("2"); } "2" },
        3 => { proof { reveal_strlit("3"); } "3" },
        4 => { proof { reveal_strlit("4"); } "4" },
        5 => { proof { reveal_strlit("5"); } "5" },
        6 => { proof { reveal_strlit("6"); } "6" },
        7 => { proof { reveal_strlit("7"); } "7" },
        8 => { proof { reveal_strlit("8"); } "8" },
        9 => { proof { reveal_strlit("9"); } "9" },
        10 => { proof { reveal_strlit("A"); } "A" },
        11 => { proof { reveal_strlit("B"); } "B" },
        12 => { proof { reveal_strlit("C"); } "C" },
        13 => { proof { reveal_strlit("D"); } "D" },
        14 => { proof { reveal_strlit("E"); } "E" },
        _ => { proof { reveal_strlit("F"); } "F" },
    }
}

/// Appends the decimal digits of `n`.
fn push_decimal(s: &mut String, n: u64)
    ensures
        final(s)@ == old(s)@ + decimal(n as nat),
    decreases n,
{
    if n >= 10 {
        push_decimal(s, n / 10);
    }
    s.append(hex_digit((n % 10) as u8));
    assert(final(s)@ =~= old(s)@ + decimal(n as nat));
}

/// Every byte of `bytes` as `%` and two upper-case hexadecimal digits.
pub fn bytes_to_urlencoding(bytes: &[u8]) -> (r: String)
    ensures
        r@ == percent_all(bytes@),
{
    let mut res = String::new();
    let mut i: usize = 0;
    while i < bytes.len()
        invariant
            i <= bytes@.len(),
            res@ == percent_all(bytes@.take(i as int)),
        decreases bytes@.len() - i,
    {
        let b = bytes[i];
        proof {
            reveal_strlit("%");
        }
        res.append("%");
        res.append(hex_digit(b / 16));
        res.append(hex_digit(b % 16));
        proof {
            let t = bytes@.take(i + 1);
            assert(t.drop_last() =~= bytes@.take(i as int));
            assert(res@ =~= percent_all(t));
        }
        i = i + 1;
    }
    assert(bytes@.take(i as int) =~= bytes@);
    res
}

/// The event a tracker request reports.
#[derive(Debug, Clone, Copy, PartialEq, Eq, Structural)]
pub enum Event {
    STARTED,
    STOPPED,
    COMPLETED,
    PERIODIC,
}

/// The name of an event in a request; a periodic request names none.
pub open spec fn event_name(e: Event) -> Option<Seq<char>> {
    match e {
        Event::STARTED => Some("started"@),
        Event::STOPPED => Some("stopped"@),
        Event::COMPLETED => Some("completed"@),
        Event::PERIODIC => None,
    }
}

impl Event {
    pub fn as_str(&self) -> (r: Option<&'static str>)
        ensures
            r is Some <==> event_name(*self) is Some,
            r matches Some(s) ==> Some(s@) == event_name(*self),
    {
        match self {
            Event::STARTED => Some("started"),
            Event::STOPPED => Some("stopped"),
            Event::COMPLETED => Some("completed"),
            Event::PERIODIC => None,
        }
    }
}

/// An announce request to the tracker.
pub struct TrackerRequest {
    /// The info hash, percent-encoded.
    pub info_hash: String,
    /// This client's peer id, percent-encoded.
    pub peer_id: String,
    pub port: u16,
    pub uploaded: usize,
    pub downloaded: usize,
    pub left: usize,
    pub event: Event,
}

/// The HTTP request that announces `r` to the tracker.
pub open spec fn request_text(r: TrackerRequest) -> Seq<char> {
    "GET /announce?info_hash="@ + r.info_hash@ + "&peer_id="@ + r.peer_id@ + "&port="@ + decimal(
        r.port as nat,
    ) + "&uploaded="@ + decimal(r.uploaded as nat) + "&downloaded="@ + decimal(
        r.downloaded as nat,
    ) + "&left="@ + decimal(r.left as nat) + match event_name(r.event) {
        Some(name) => "&event="@ + name,
        None => Seq::empty(),
    } + "&compact=1 HTTP/1.1\r\nHost: poole.cs.umd.edu\r\n\r\n"@
}

impl TrackerRequest {
    /// A request for the torrent `info_hash` from the client `peer_id`, both
    /// percent-encoded for the URL.
    pub fn new(
        info_hash: &[u8],
        peer_id: &[u8],
        port: u16,
        uploaded: usize,
        downloaded: usize,
        left: usize,
        event: Event,
    ) -> (r: TrackerRequest)
        ensures
            r.info_hash@ == url_encoded(info_hash@),
            r.peer_id@ == url_encoded(peer_id@),
            r.port == port,
            r.uploaded == uploaded,
            r.downloaded == downloaded,
            r.left == left,
            r.event == event,
    {
        TrackerRequest {
            info_hash: url_encode(info_hash),
            peer_id: url_encode(peer_id),
            port,
            uploaded,
            downloaded,
            left,
            event,
        }
    }

    /// The HTTP GET request that announces this request to the tracker.
    pub fn construct_tracker_request(&self) -> (r: String)
        ensures
            r@ == request_text(*self),
    {
        let mut s = String::new();
        s.append("GET /announce?info_hash=");
        s.append(self.info_hash.as_str());
        s.append("&peer_id=");
        s.append(self.peer_id.as_str());
        s.append("&port=");
        push_decimal(&mut s, self.port as u64);
        s.append("&uploaded=");
        push_decimal(&mut s, self.uploaded as u64);
        s.append("&downloaded=");
        push_decimal(&mut s, self.downloaded as u64);
        s.append("&left=");
        push_decimal(&mut s, self.left as u64);
        match self.event.as_str() {
            Some(name) => {
                s.append("&event=");
                s.append(name);
            },
            None => {},
        }
        s.append("&compact=1 HTTP/1.1\r\nHost: poole.cs.umd.edu\r\n\r\n");
        assert(s@ =~= request_text(*self));
        s
    }
}

/// `\r\n\r\n` starts at position `p` of `s`.
pub open spec fn separator_at(s: Seq<u8>, p: int) -> bool {
    0 <= p && p + 4 <= s.len() && s[p] == 13 && s[p + 1] == 10 && s[p + 2] == 13 && s[p + 3] == 10
}

/// The body of an HTTP response: what follows the first blank line (`\r\n\r\n`);
/// `None` where there is none.
pub fn parse_body_from_response(response: &Vec<u8>) -> (r: Option<Vec<u8>>)
    ensures
        r is None <==> forall|p: int| !#[trigger] separator_at(response@, p),
        r matches Some(body) ==> exists|p: int|
            #[trigger] separator_at(response@, p) && (forall|q: int| 0 <= q < p ==> !#[trigger] separator_at(response@, q))
                && body@ == response@.subrange(p + 4, response@.len() as int),
{
    let n = response.len();
    let mut p: usize = 0;
    while p < n && n - p >= 4
        invariant
            n == response@.len(),
            p <= n,
            forall|q: int| 0 <= q < p ==> !#[trigger] separator_at(response@, q),
        decreases n - p,
    {
        if response[p] == 13 && response[p + 1] == 10 && response[p + 2] == 13 && response[p + 3]
            == 10 {
            let mut body: Vec<u8> = Vec::with_capacity(n - p - 4);
            let mut i: usize = p + 4;
            while i < n
                invariant
                    n == response@.len(),
                    p + 4 <= i <= n,
                    body@ == response@.subrange(p + 4, i as int),
                decreases n - i,
            {
                body.push(response[i]);
                i = i + 1;
                assert(body@ =~= response@.subrange(p + 4, i as int));
            }
            assert(separator_at(response@, p as int));
            return Some(body);
        }
        p = p + 1;
    }
    assert forall|q: int| !#[trigger] separator_at(response@, q) by {
        if 0 <= q < p {
        }
    }
    None
}

/// The address held in the six bytes at `at` of a compact peer list: four
/// bytes of IPv4 address and two of port, both big-endian.
pub open spec fn compact_addr(bs: Seq<u8>, at: int) -> PeerAddr {
    PeerAddr {
        ip: ((bs[at] as int) * 16777216 + (bs[at + 1] as int) * 65536 + (bs[at + 2] as int) * 256
            + (bs[at + 3] as int)) as u32,
        port: ((bs[at + 4] as int) * 256 + (bs[at + 5] as int)) as u16,
    }
}

/// The addresses of a compact peer list, six bytes each; trailing bytes that
/// make no whole entry are ignored.
pub fn parse_compact_peers(peers: &Vec<u8>) -> (r: Vec<PeerAddr>)
    ensures
        r@.len() == peers@.len() / 6,
        forall|i: int| 0 <= i < r@.len() ==> #[trigger] r@[i] == compact_addr(peers@, 6 * i),
{
    let n = peers.len();
    let mut r: Vec<PeerAddr> = Vec::new();
    let mut at: usize = 0;
    while n - at >= 6
        invariant
            n == peers@.len(),
            at == 6 * r@.len(),
            at <= n,
            forall|i: int| 0 <= i < r@.len() ==> #[trigger] r@[i] == compact_addr(peers@, 6 * i),
        decreases n - at,
    {
        let ip = (peers[at] as u32) * 16777216 + (peers[at + 1] as u32) * 65536 + (peers[at + 2]
            as u32) * 256 + (peers[at + 3] as u32);
        let port = (peers[at + 4] as u16) * 256 + (peers[at + 5] as u16);
        r.push(PeerAddr { ip, port });
        at = at + 6;
    }
    r
}

/// The tracker's answer as decoded from its bencoded body.
pub struct TrackerResponseBeta {
    pub interval: usize,
    /// The compact peer list.
    pub peers: Vec<u8>,
}

/// The tracker's answer: how long to wait before announcing again, in
/// seconds, and the peers to connect to.
pub struct TrackerResponse {
    pub interval: usize,
    pub socket_addr_list: Vec<PeerAddr>,
}

impl TrackerResponse {
    pub fn from_beta(trb: &TrackerResponseBeta) -> (r: TrackerResponse)
        ensures
            r.interval == trb.interval,
            r.socket_addr_list@.len() == trb.peers@.len() / 6,
            forall|i: int|
                0 <= i < r.socket_addr_list@.len() ==> #[trigger] r.socket_addr_list@[i]
                    == compact_addr(trb.peers@, 6 * i),
    {
        TrackerResponse { interval: trb.interval, socket_addr_list: parse_compact_peers(&trb.peers) }
    }
}

} // verus!
