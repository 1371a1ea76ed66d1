//! The piece-selection strategy: each tick it passes pending updates on to the
//! peers, keeps a bounded set of focused pieces, requests their missing blocks
//! from peers that have them, and answers one request per peer.
use vstd::prelude::*;

use crate::file::{ceil_div, OutputFile};
use crate::p2p::{encodable, views, Message, MessageType};
use crate::peers::{holds, same_record, Peer, PeerAddr, Peers};

verus! {

/// An event to pass on to every established peer at the next tick.
pub struct Update {
    pub peer_addr: Option<PeerAddr>,
    pub message: MessageType,
}

/// A block request in flight to a peer.
#[derive(Debug, Clone, Copy, PartialEq, Eq, Structural)]
pub struct Request {
    pub peer_addr: PeerAddr,
    pub index: usize,
    pub begin: usize,
    pub length: usize,
}

pub struct Strategy {
    pub max_simul_pieces: usize,
    pub updates: Vec<Update>,
    pub rqs: Vec<Request>,
    pub focused_pieces: Vec<usize>,
}

/// Update `u` announces that piece `x` was verified.
pub open spec fn announces(u: Update, x: usize) -> bool {
    match u.message {
        MessageType::Have { index } => index as usize == x,
        _ => false,
    }
}

/// Some update of `us` announces that piece `x` was verified.
pub open spec fn have_in(us: Seq<Update>, x: usize) -> bool {
    exists|i: int| 0 <= i < us.len() && #[trigger] announces(us[i], x)
}

/// The addresses and ids of the peers of `qs` are those of `ps`, position by position.
pub open spec fn same_keys(ps: Seq<Peer>, qs: Seq<Peer>) -> bool {
    &&& ps.len() == qs.len()
    &&& forall|i: int|
        0 <= i < ps.len() ==> (#[trigger] qs[i]).spec_addr() == ps[i].spec_addr()
            && qs[i].spec_peer_id() == ps[i].spec_peer_id()
}

/// Every queued message of `p` fits a frame.
pub open spec fn sendable(p: Peer) -> bool {
    forall|i: int|
        0 <= i < p.messages.messages@.len() ==> encodable(#[trigger] p.messages.messages@[i]@)
}

/// What update `u` sends to every established peer at the next tick.
pub open spec fn broadcast_of(u: Update) -> Seq<Message> {
    match u.message {
        MessageType::Have { index } => seq![Message::Have { index }],
        MessageType::KeepAlive => seq![Message::KeepAlive],
        _ => Seq::empty(),
    }
}

/// What the updates `us` send to every established peer, in order.
pub open spec fn broadcasts(us: Seq<Update>) -> Seq<Message>
    decreases us.len(),
{
    if us.len() == 0 {
        Seq::empty()
    } else {
        broadcasts(us.drop_last()) + broadcast_of(us.last())
    }
}

proof fn lemma_views_push(s: Seq<MessageType>, m: MessageType)
    ensures
        views(s.push(m)) == views(s).push(m@),
{
    assert(views(s.push(m)) =~= views(s).push(m@));
}

/// The block at offset `o` of `piece` is neither written nor in flight to `addr`.
pub open spec fn block_free(
    file: OutputFile,
    rqs: Seq<Request>,
    addr: PeerAddr,
    piece: usize,
    o: int,
) -> bool {
    &&& !file.block_done(piece as int, o / file.spec_block_size())
    &&& !rqs.contains(
        Request {
            peer_addr: addr,
            index: piece,
            begin: o as usize,
            length: file.spec_block_size() as usize,
        },
    )
}

/// `o` is the least block-aligned offset of `piece` whose block is free.
pub open spec fn is_first_missing(
    file: OutputFile,
    rqs: Seq<Request>,
    addr: PeerAddr,
    piece: usize,
    o: int,
) -> bool {
    &&& 0 <= o < file.piece_len(piece as int)
    &&& o % file.spec_block_size() == 0
    &&& block_free(file, rqs, addr, piece, o)
    &&& forall|o2: int|
        0 <= o2 < o && o2 % file.spec_block_size() == 0 ==> !#[trigger] block_free(
            file,
            rqs,
            addr,
            piece,
            o2,
        )
}

/// The least block-aligned offset of `piece` whose block is neither written
/// nor in flight to `addr`; `None` where every block is one or the other.
pub open spec fn first_missing(
    file: OutputFile,
    rqs: Seq<Request>,
    addr: PeerAddr,
    piece: usize,
) -> Option<int> {
    if exists|o: int| is_first_missing(file, rqs, addr, piece, o) {
        Some(choose|o: int| is_first_missing(file, rqs, addr, piece, o))
    } else {
        None
    }
}

/// The length asked for in a request for the block at `o` of `piece`.
pub open spec fn request_len(file: OutputFile, piece: usize, o: int) -> int {
    if file.piece_len(piece as int) - o < file.spec_block_size() {
        file.piece_len(piece as int) - o
    } else {
        file.spec_block_size()
    }
}

/// What a pass over the focused pieces has done for one peer so far: whether
/// we are interested, what was queued, and the requests in flight.
pub struct PassState {
    pub interested: bool,
    pub sent: Seq<Message>,
    pub rqs: Seq<Request>,
}

/// The pass for focused `piece`, for the peer at `addr` that has the pieces
/// `bits`: where it has the piece and chokes us, we say we are interested
/// (once); where it does not choke us, we request the first block that is
/// neither written nor in flight to it, and record the request in flight.
pub open spec fn piece_pass(
    st: PassState,
    addr: PeerAddr,
    choking: bool,
    bits: Seq<bool>,
    file: OutputFile,
    piece: usize,
) -> PassState {
    if !(piece < bits.len() && bits[piece as int]) {
        st
    } else if choking && !st.interested {
        PassState { interested: true, sent: st.sent.push(Message::Interested), rqs: st.rqs }
    } else if !choking && piece < file.spec_num_pieces() {
        match first_missing(file, st.rqs, addr, piece) {
            Some(o) => {
                let len = request_len(file, piece, o);
                if piece <= u32::MAX && o <= u32::MAX && len <= u32::MAX {
                    PassState {
                        interested: st.interested,
                        sent: st.sent.push(
                            Message::Request {
                                index: piece as u32,
                                begin: o as u32,
                                length: len as u32,
                            },
                        ),
                        rqs: st.rqs.push(
                            Request {
                                peer_addr: addr,
                                index: piece,
                                begin: o as usize,
                                length: file.spec_block_size() as usize,
                            },
                        ),
                    }
                } else {
                    st
                }
            },
            None => st,
        }
    } else {
        st
    }
}

/// The pass over the focused pieces `pieces`, in order.
pub open spec fn request_pass(
    st: PassState,
    addr: PeerAddr,
    choking: bool,
    bits: Seq<bool>,
    file: OutputFile,
    pieces: Seq<usize>,
) -> PassState
    decreases pieces.len(),
{
    if pieces.len() == 0 {
        st
    } else {
        piece_pass(
            request_pass(st, addr, choking, bits, file, pieces.drop_last()),
            addr,
            choking,
            bits,
            file,
            pieces.last(),
        )
    }
}

/// The pass for peer `p`, starting from the requests in flight `rqs`.
pub open spec fn pass_of(p: Peer, rqs: Seq<Request>, file: OutputFile, pieces: Seq<usize>) -> PassState {
    request_pass(
        PassState { interested: p.am_interested, sent: Seq::empty(), rqs },
        p.addr,
        p.peer_choking,
        p.bitfield(),
        file,
        pieces,
    )
}

/// The requests in flight once the peers `ps` have had their pass, in order.
pub open spec fn rqs_after(
    rqs: Seq<Request>,
    ps: Seq<Peer>,
    file: OutputFile,
    pieces: Seq<usize>,
) -> Seq<Request>
    decreases ps.len(),
{
    if ps.len() == 0 {
        rqs
    } else {
        pass_of(ps.last(), rqs_after(rqs, ps.drop_last(), file, pieces), file, pieces).rqs
    }
}

/// The answer to the oldest of the requests `reqs` that a peer made: the
/// block it asked for, where that block can be read and framed.
pub open spec fn answer_msg(reqs: Seq<crate::peers::Request>, file: OutputFile) -> Seq<Message> {
    if reqs.len() == 0 {
        Seq::empty()
    } else {
        let r = reqs[0];
        if r.index <= u32::MAX && r.begin <= u32::MAX && file.read_error(
            r.index as int,
            r.begin as int,
            r.length as int,
        ) is None && r.length <= 0xFFFF_0000 {
            seq![
                Message::Piece {
                    index: r.index as u32,
                    begin: r.begin as u32,
                    block: file.content().subrange(
                        file.piece_start(r.index as int) + r.begin,
                        file.piece_start(r.index as int) + r.begin + r.length,
                    ),
                },
            ]
        } else {
            Seq::empty()
        }
    }
}

/// An Unchoke where we were choking the peer.
pub open spec fn unchoke_of(am_choking: bool) -> Seq<Message> {
    if am_choking {
        seq![Message::Unchoke]
    } else {
        Seq::empty()
    }
}

/// The requests a peer made, less the oldest one, which is answered.
pub open spec fn popped(reqs: Seq<crate::peers::Request>) -> Seq<crate::peers::Request> {
    if reqs.len() == 0 {
        reqs
    } else {
        reqs.drop_first()
    }
}

/// A peer table whose rows have the keys of `before` keeps its invariant.
proof fn lemma_same_keys_wf(before: Peers, after: Peers)
    requires
        before.wf(),
        same_keys(before.list@, after.list@),
        after.incomplete@ == before.incomplete@,
    ensures
        after.wf(),
        forall|a: PeerAddr| #[trigger] holds(after.list@, a) == holds(before.list@, a),
{
    assert forall|a: PeerAddr| #[trigger] holds(after.list@, a) == holds(before.list@, a) by {
        if holds(after.list@, a) {
            let i = choose|i: int| 0 <= i < after.list@.len() && #[trigger] after.list@[i].spec_addr() == a;
            assert(before.list@[i].spec_addr() == a);
        }
        if holds(before.list@, a) {
            let i = choose|i: int| 0 <= i < before.list@.len() && #[trigger] before.list@[i].spec_addr() == a;
            assert(after.list@[i].spec_addr() == a);
        }
    }
    assert forall|i: int, j: int|
        0 <= i < after.list@.len() && 0 <= j < after.list@.len() && i != j implies #[trigger] after.list@[i].spec_addr()
        != #[trigger] after.list@[j].spec_addr() by {
        assert(before.list@[i].spec_addr() != before.list@[j].spec_addr());
    }
    assert forall|i: int| 0 <= i < after.list@.len() implies (#[trigger] after.list@[i]).spec_peer_id() is Some by {
        assert(before.list@[i].spec_peer_id() is Some);
    }
}

impl Strategy {
    /// Focused pieces are distinct and at most `max_simul_pieces` of them.
    pub open spec fn wf(&self) -> bool {
        &&& self.focused_pieces@.no_duplicates()
        &&& self.focused_pieces@.len() <= self.max_simul_pieces
    }

    /// A strategy that focuses on at most `max_simul_pieces` pieces at once.
    pub fn new(num_pieces: usize, max_simul_pieces: usize) -> (r: Self)
        ensures
            r.wf(),
            r.max_simul_pieces == max_simul_pieces,
            r.updates@.len() == 0,
            r.rqs@.len() == 0,
            r.focused_pieces@.len() == 0,
    {
        Strategy {
            max_simul_pieces,
            updates: Vec::new(),
            rqs: Vec::new(),
            focused_pieces: Vec::new(),
        }
    }

    /// Queues an update for the next tick.
    pub fn push_update(&mut self, peer_addr: Option<PeerAddr>, message: MessageType)
        ensures
            final(self).updates@ == old(self).updates@.push(Update { peer_addr, message }),
            final(self).rqs == old(self).rqs,
            final(self).focused_pieces == old(self).focused_pieces,
            final(self).max_simul_pieces == old(self).max_simul_pieces,
    {
        self.updates.push(Update { peer_addr, message });
    }

    /// Forgets every request in flight for piece `index`.
    pub fn rm_requests_for_piece(&mut self, index: usize)
        ensures
            final(self).rqs@ == old(self).rqs@.filter(|r: Request| r.index != index),
            final(self).updates == old(self).updates,
            final(self).focused_pieces == old(self).focused_pieces,
            final(self).max_simul_pieces == old(self).max_simul_pieces,
    {
        let mut kept: Vec<Request> = Vec::new();
        let mut i: usize = 0;
        while i < self.rqs.len()
            invariant
                i <= self.rqs@.len(),
                kept@ == self.rqs@.take(i as int).filter(|r: Request| r.index != index),
            decreases self.rqs@.len() - i,
        {
            let r = self.rqs[i];
            proof {
                let s = self.rqs@.take(i + 1);
                assert(s.drop_last() =~= self.rqs@.take(i as int));
                reveal(Seq::filter);
            }
            if r.index != index {
                kept.push(r);
            }
            i = i + 1;
        }
        assert(self.rqs@.take(i as int) =~= self.rqs@);
        self.rqs = kept;
    }

    /// Forgets every request in flight.
    pub fn rm_all_requests(&mut self)
        ensures
            final(self).rqs@.len() == 0,
            final(self).updates == old(self).updates,
            final(self).focused_pieces == old(self).focused_pieces,
            final(self).max_simul_pieces == old(self).max_simul_pieces,
    {
        self.rqs.clear();
    }

    /// Whether `r` is in flight.
    fn in_flight(&self, r: Request) -> (b: bool)
        ensures
            b == self.rqs@.contains(r),
    {
        let mut i: usize = 0;
        while i < self.rqs.len()
            invariant
                i <= self.rqs@.len(),
                forall|j: int| 0 <= j < i ==> self.rqs@[j] != r,
            decreases self.rqs@.len() - i,
        {
            if self.rqs[i] == r {
                return true;
            }
            i = i + 1;
        }
        false
    }

    /// Whether piece `x` is focused.
    fn is_focused(&self, x: usize) -> (b: bool)
        ensures
            b == self.focused_pieces@.contains(x),
    {
        let mut i: usize = 0;
        while i < self.focused_pieces.len()
            invariant
                i <= self.focused_pieces@.len(),
                forall|j: int| 0 <= j < i ==> self.focused_pieces@[j] != x,
            decreases self.focused_pieces@.len() - i,
        {
            if self.focused_pieces[i] == x {
                return true;
            }
            i = i + 1;
        }
        false
    }

    /// Stops focusing on piece `x`; the other focused pieces keep their order.
    fn unfocus(&mut self, x: usize)
        requires
            old(self).wf(),
        ensures
            final(self).wf(),
            final(self).focused_pieces@ == old(self).focused_pieces@.filter(other_than(x)),
            forall|y: usize| #[trigger]
                final(self).focused_pieces@.contains(y) <==> (old(self).focused_pieces@.contains(y)
                    && y != x),
            final(self).updates == old(self).updates,
            final(self).rqs == old(self).rqs,
            final(self).max_simul_pieces == old(self).max_simul_pieces,
    {
        let ghost old_f = self.focused_pieces@;
        let mut kept: Vec<usize> = Vec::new();
        let mut i: usize = 0;
        while i < self.focused_pieces.len()
            invariant
                i <= self.focused_pieces@.len(),
                self.focused_pieces@ == old_f,
                kept@ == old_f.take(i as int).filter(other_than(x)),
            decreases self.focused_pieces@.len() - i,
        {
            let y = self.focused_pieces[i];
            proof {
                let s = old_f.take(i + 1);
                assert(s.drop_last() =~= old_f.take(i as int));
                reveal(Seq::filter);
            }
            if y != x {
                kept.push(y);
            }
            i = i + 1;
        }
        assert(old_f.take(i as int) =~= old_f);
        proof {
            lemma_filter_ne(old_f, x);
        }
        self.focused_pieces = kept;
    }

    /// Sends `message` to every established peer.
    fn broadcast(peers: &mut Peers, message: &MessageType)
        requires
            old(peers).wf(),
            encodable(message@),
            forall|k: int| 0 <= k < old(peers).list@.len() ==> sendable(#[trigger] old(peers).list@[k]),
        ensures
            final(peers).wf(),
            same_keys(old(peers).list@, final(peers).list@),
            final(peers).incomplete@ == old(peers).incomplete@,
            forall|k: int| 0 <= k < final(peers).list@.len() ==> sendable(#[trigger] final(peers).list@[k]),
            forall|k: int|
                0 <= k < final(peers).list@.len() ==> views(
                    (#[trigger] final(peers).list@[k]).messages.messages@,
                ) == views(old(peers).list@[k].messages.messages@).push(message@),
            forall|k: int|
                0 <= k < final(peers).list@.len() ==> same_record(
                    old(peers).list@[k],
                    #[trigger] final(peers).list@[k],
                ),
    {
        let ghost start = *peers;
        let mut k: usize = 0;
        while k < peers.list.len()
            invariant
                start.wf(),
                encodable(message@),
                same_keys(start.list@, peers.list@),
                peers.incomplete@ == start.incomplete@,
                k <= peers.list@.len(),
                forall|j: int| 0 <= j < peers.list@.len() ==> sendable(#[trigger] peers.list@[j]),
                forall|j: int|
                    0 <= j < k ==> views((#[trigger] peers.list@[j]).messages.messages@) == views(
                        start.list@[j].messages.messages@,
                    ).push(message@),
                forall|j: int|
                    k <= j < peers.list@.len() ==> (#[trigger] peers.list@[j]).messages
                        == start.list@[j].messages,
                forall|j: int|
                    0 <= j < peers.list@.len() ==> same_record(
                        start.list@[j],
                        #[trigger] peers.list@[j],
                    ),
            decreases peers.list@.len() - k,
        {
            let m = message.duplicate();
            proof {
                lemma_views_push(peers.list@[k as int].messages.messages@, m);
            }
            peers.list[k].queue(m);
            k = k + 1;
        }
        proof {
            lemma_same_keys_wf(start, *peers);
        }
    }

    /// One tick: passes pending updates on, refills the focused set, requests
    /// missing blocks of focused pieces from peers that have them, answers at
    /// most one request per peer, and unchokes every established peer.
    pub fn what_do(&mut self, peers: &mut Peers, file: &OutputFile)
        requires
            old(self).wf(),
            old(peers).wf(),
            file.wf(),
            forall|k: int| 0 <= k < old(peers).list@.len() ==> sendable(#[trigger] old(peers).list@[k]),
            forall|i: int|
                0 <= i < old(self).updates@.len() ==> encodable((#[trigger] old(self).updates@[i]).message@),
        ensures
            final(self).wf(),
            final(self).max_simul_pieces == old(self).max_simul_pieces,
            final(self).updates@.len() == 0,
            forall|x: usize|
                #[trigger] final(self).focused_pieces@.contains(x) ==> ((old(self).focused_pieces@.contains(x)
                    && !have_in(old(self).updates@, x)) || (x < file.spec_num_pieces()
                    && !file.verified()[x as int])),
            forall|x: usize|
                old(self).focused_pieces@.contains(x) && !have_in(old(self).updates@, x)
                    ==> #[trigger] final(self).focused_pieces@.contains(x),
            final(self).focused_pieces@.len() < final(self).max_simul_pieces ==> forall|x: usize|
                x < file.spec_num_pieces() && !file.verified()[x as int]
                    ==> #[trigger] final(self).focused_pieces@.contains(x),
            final(peers).wf(),
            same_keys(old(peers).list@, final(peers).list@),
            final(peers).incomplete@ == old(peers).incomplete@,
            forall|k: int| 0 <= k < final(peers).list@.len() ==> !(#[trigger] final(peers).list@[k]).am_choking,
            forall|k: int| 0 <= k < final(peers).list@.len() ==> sendable(#[trigger] final(peers).list@[k]),
            final(self).focused_pieces@ == top_up(
                unfocus_all(old(self).focused_pieces@, old(self).updates@),
                file.verified(),
                old(self).max_simul_pieces as int,
                0,
            ),
            final(self).rqs@ == rqs_after(
                old(self).rqs@,
                old(peers).list@,
                *file,
                final(self).focused_pieces@,
            ),
            forall|k: int|
                0 <= k < final(peers).list@.len() ==> {
                    let p = old(peers).list@[k];
                    let st = pass_of(
                        p,
                        rqs_after(
                            old(self).rqs@,
                            old(peers).list@.take(k),
                            *file,
                            final(self).focused_pieces@,
                        ),
                        *file,
                        final(self).focused_pieces@,
                    );
                    let q = #[trigger] final(peers).list@[k];
                    &&& views(q.messages.messages@) == views(p.messages.messages@) + broadcasts(
                        old(self).updates@,
                    ) + st.sent + answer_msg(p.requests(), *file) + unchoke_of(p.am_choking)
                    &&& q.am_interested == st.interested
                    &&& q.requests() == popped(p.requests())
                    &&& q.peer_choking == p.peer_choking
                    &&& q.peer_interested == p.peer_interested
                    &&& q.piece_bitfield == p.piece_bitfield
                    &&& q.recv_buffer == p.recv_buffer
                },
    {
        let ghost old_focused = self.focused_pieces@;
        let ghost old_updates = self.updates@;
        let ghost start = *peers;
        // Pass the updates on.
        let mut u: usize = 0;
        while u < self.updates.len()
            invariant
                self.wf(),
                self.updates@ == old_updates,
                self.max_simul_pieces == old(self).max_simul_pieces,
                start.wf(),
                peers.wf(),
                same_keys(start.list@, peers.list@),
                peers.incomplete@ == start.incomplete@,
                forall|k: int| 0 <= k < peers.list@.len() ==> sendable(#[trigger] peers.list@[k]),
                forall|i: int| 0 <= i < old_updates.len() ==> encodable((#[trigger] old_updates[i]).message@),
                u <= old_updates.len(),
                forall|j: int|
                    0 <= j < peers.list@.len() ==> views(
                        (#[trigger] peers.list@[j]).messages.messages@,
                    ) == views(start.list@[j].messages.messages@) + broadcasts(
                        old_updates.take(u as int),
                    ),
                forall|j: int|
                    0 <= j < peers.list@.len() ==> same_record(
                        start.list@[j],
                        #[trigger] peers.list@[j],
                    ),
                self.rqs == old(self).rqs,
                self.focused_pieces@ == unfocus_all(old_focused, old_updates.take(u as int)),
                forall|x: usize|
                    #[trigger] self.focused_pieces@.contains(x) <==> (old_focused.contains(x)
                        && !have_in(old_updates.take(u as int), x)),
            decreases old_updates.len() - u,
        {
            let ghost before_f = self.focused_pieces@;
            let ghost before_peers_u = *peers;
            proof {
                assert(encodable(old_updates[u as int].message@));
            }
            match &self.updates[u].message {
                MessageType::Have { index } => {
                    let index = *index;
                    self.unfocus(index as usize);
                    let m = MessageType::Have { index };
                    Self::broadcast(peers, &m);
                },
                MessageType::KeepAlive => {
                    let m = MessageType::KeepAlive;
                    Self::broadcast(peers, &m);
                },
                _ => {},
            }
            proof {
                let t = old_updates.take(u + 1);
                assert(t.drop_last() =~= old_updates.take(u as int));
                assert(t.last() == old_updates[u as int]);
                match old_updates[u as int].message {
                    MessageType::Have { index } => {
                        assert(self.focused_pieces@ == before_f.filter(other_than(index as usize)));
                    },
                    _ => {
                        assert(self.focused_pieces@ == before_f);
                    },
                }
                assert(self.focused_pieces@ == unfocus_all(old_focused, t));
                assert forall|j: int| 0 <= j < peers.list@.len() implies views(
                    (#[trigger] peers.list@[j]).messages.messages@,
                ) == views(start.list@[j].messages.messages@) + broadcasts(t) by {
                    let b = views(before_peers_u.list@[j].messages.messages@);
                    assert(b == views(start.list@[j].messages.messages@) + broadcasts(
                        old_updates.take(u as int),
                    ));
                    match old_updates[u as int].message {
                        MessageType::Have { index } => {
                            assert(views(peers.list@[j].messages.messages@) =~= b + seq![
                                Message::Have { index },
                            ]);
                        },
                        MessageType::KeepAlive => {
                            assert(views(peers.list@[j].messages.messages@) =~= b + seq![
                                Message::KeepAlive,
                            ]);
                        },
                        _ => {
                            assert(views(peers.list@[j].messages.messages@) =~= b + Seq::<
                                Message,
                            >::empty());
                        },
                    }
                }
                assert forall|x: usize| #[trigger] self.focused_pieces@.contains(x) <==> (
                before_f.contains(x) && !announces(old_updates[u as int], x)) by {}
                let t = old_updates.take(u + 1);
                assert forall|x: usize| #[trigger] self.focused_pieces@.contains(x) <==> (
                old_focused.contains(x) && !have_in(t, x)) by {
                    lemma_have_step(old_updates, u as int, x);
                }
            }
            u = u + 1;
        }
        assert(old_updates.take(u as int) =~= old_updates);
        self.updates.clear();
        // Top up the focused set with the first pieces not yet verified.
        let ghost after_updates = self.focused_pieces@;
        let bitfield = file.get_file_bitfield();
        let n = file.get_num_pieces();
        let mut i: usize = 0;
        while i < n && self.focused_pieces.len() < self.max_simul_pieces
            invariant
                self.wf(),
                self.updates@.len() == 0,
                self.max_simul_pieces == old(self).max_simul_pieces,
                self.rqs == old(self).rqs,
                top_up(self.focused_pieces@, file.verified(), self.max_simul_pieces as int, i as int)
                    == top_up(after_updates, file.verified(), self.max_simul_pieces as int, 0),
                file.wf(),
                n == file.spec_num_pieces(),
                bitfield@ == file.verified(),
                file.verified().len() == n,
                i <= n,
                forall|x: usize| #[trigger]
                    after_updates.contains(x) ==> self.focused_pieces@.contains(x),
                forall|x: usize|
                    #[trigger] self.focused_pieces@.contains(x) ==> (after_updates.contains(x) || (x
                        < n && !file.verified()[x as int])),
                forall|x: usize|
                    x < i && !file.verified()[x as int] ==> #[trigger] self.focused_pieces@.contains(x),
            decreases n - i,
        {
            let ghost before_step = self.focused_pieces@;
            if !bitfield[i] && !self.is_focused(i) {
                let ghost before = self.focused_pieces@;
                self.focused_pieces.push(i);
                proof {
                    assert forall|x: usize| #[trigger]
                        before.contains(x) implies self.focused_pieces@.contains(x) by {
                        let j = before.index_of(x);
                        assert(self.focused_pieces@[j] == x);
                    }
                    assert(self.focused_pieces@[before.len() as int] == i);
                    assert forall|x: usize| #[trigger]
                        self.focused_pieces@.contains(x) implies (before.contains(x) || x == i) by {
                        let j = self.focused_pieces@.index_of(x);
                        if j < before.len() {
                            assert(before[j] == x);
                        }
                    }
                    assert(self.focused_pieces@.no_duplicates()) by {
                        assert forall|a: int, b: int|
                            0 <= a < self.focused_pieces@.len() && 0 <= b < self.focused_pieces@.len()
                                && a != b implies self.focused_pieces@[a] != self.focused_pieces@[b] by {
                            if a < before.len() && b < before.len() {
                            } else if a < before.len() {
                                assert(before.contains(before[a]));
                            } else {
                                assert(before.contains(before[b]));
                            }
                        }
                    }
                }
            }
            assert(!file.verified()[i as int] ==> self.focused_pieces@.contains(i));
            assert forall|x: usize|
                x < i && !file.verified()[x as int] implies #[trigger] self.focused_pieces@.contains(x) by {
                assert(before_step.contains(x));
            }
            i = i + 1;
        }
        // Requests and answers, peer by peer.
        proof {
            assert forall|x: usize|
                old_focused.contains(x) && !have_in(old_updates, x) implies #[trigger] self.focused_pieces@.contains(
                x,
            ) by {
                assert(after_updates.contains(x));
            }
        }
        let ghost before_peers = *peers;
        let ghost topped = self.focused_pieces@;
        let ghost rqs0 = self.rqs@;
        assert(start.list@.take(0) =~= Seq::<Peer>::empty());
        let mut k: usize = 0;
        while k < peers.list.len()
            invariant
                self.wf(),
                self.focused_pieces@ == topped,
                self.updates@.len() == 0,
                self.max_simul_pieces == old(self).max_simul_pieces,
                rqs0 == old(self).rqs@,
                file.wf(),
                start.wf(),
                before_peers.wf(),
                same_keys(start.list@, before_peers.list@),
                before_peers.incomplete@ == start.incomplete@,
                same_keys(before_peers.list@, peers.list@),
                peers.incomplete@ == before_peers.incomplete@,
                k <= peers.list@.len(),
                self.rqs@ == rqs_after(rqs0, start.list@.take(k as int), *file, topped),
                forall|j: int| 0 <= j < peers.list@.len() ==> sendable(#[trigger] peers.list@[j]),
                forall|j: int|
                    0 <= j < before_peers.list@.len() ==> same_record(
                        start.list@[j],
                        #[trigger] before_peers.list@[j],
                    ),
                forall|j: int|
                    0 <= j < before_peers.list@.len() ==> views(
                        (#[trigger] before_peers.list@[j]).messages.messages@,
                    ) == views(start.list@[j].messages.messages@) + broadcasts(old_updates),
                forall|j: int|
                    0 <= j < k ==> {
                        let p = start.list@[j];
                        let st = pass_of(
                            p,
                            rqs_after(rqs0, start.list@.take(j), *file, topped),
                            *file,
                            topped,
                        );
                        let q = #[trigger] peers.list@[j];
                        &&& views(q.messages.messages@) == views(p.messages.messages@)
                            + broadcasts(old_updates) + st.sent + answer_msg(p.requests(), *file)
                            + unchoke_of(p.am_choking)
                        &&& q.am_interested == st.interested
                        &&& q.requests() == popped(p.requests())
                        &&& q.peer_choking == p.peer_choking
                        &&& q.peer_interested == p.peer_interested
                        &&& q.piece_bitfield == p.piece_bitfield
                        &&& q.recv_buffer == p.recv_buffer
                        &&& !q.am_choking
                    },
                forall|j: int|
                    k <= j < peers.list@.len() ==> #[trigger] peers.list@[j] == before_peers.list@[j],
            decreases peers.list@.len() - k,
        {
            let addr = peers.list[k].get_addr();
            let ghost rq_before = self.rqs@;
            self.serve_peer(addr, &mut peers.list[k], file);
            proof {
                let t = start.list@.take(k + 1);
                assert(t.drop_last() =~= start.list@.take(k as int));
                assert(t.last() == start.list@[k as int]);
                assert(same_record(start.list@[k as int], before_peers.list@[k as int]));
            }
            k = k + 1;
        }
        proof {
            lemma_same_keys_wf(before_peers, *peers);
            assert(same_keys(start.list@, peers.list@));
            assert(start.list@.take(k as int) =~= start.list@);
        }
    }

    /// The tick's work for one established peer: the pass over the focused
    /// pieces, the answer to its oldest request, and an Unchoke where we
    /// were choking it.
    fn serve_peer(&mut self, addr: PeerAddr, peer: &mut Peer, file: &OutputFile)
        requires
            old(self).wf(),
            file.wf(),
            sendable(*old(peer)),
            addr == old(peer).addr,
        ensures
            final(self).wf(),
            final(self).focused_pieces == old(self).focused_pieces,
            final(self).updates == old(self).updates,
            final(self).max_simul_pieces == old(self).max_simul_pieces,
            final(peer).addr == old(peer).addr,
            final(peer).peer_id == old(peer).peer_id,
            final(peer).peer_choking == old(peer).peer_choking,
            final(peer).peer_interested == old(peer).peer_interested,
            final(peer).piece_bitfield == old(peer).piece_bitfield,
            final(peer).recv_buffer == old(peer).recv_buffer,
            final(peer).requests() == popped(old(peer).requests()),
            sendable(*final(peer)),
            !final(peer).am_choking,
            ({
                let st = pass_of(*old(peer), old(self).rqs@, *file, old(self).focused_pieces@);
                &&& final(self).rqs@ == st.rqs
                &&& final(peer).am_interested == st.interested
                &&& views(final(peer).messages.messages@) == views(old(peer).messages.messages@)
                    + st.sent + answer_msg(old(peer).requests(), *file) + unchoke_of(
                    old(peer).am_choking,
                )
            }),
    {
        let ghost p0 = *peer;
        let ghost init = PassState {
            interested: p0.am_interested,
            sent: Seq::empty(),
            rqs: old(self).rqs@,
        };
        let ghost focused = self.focused_pieces@;
        let mut f: usize = 0;
        assert(focused.take(0) =~= Seq::<usize>::empty());
        while f < self.focused_pieces.len()
            invariant
                self.wf(),
                file.wf(),
                self.focused_pieces == old(self).focused_pieces,
                self.focused_pieces@ == focused,
                self.updates == old(self).updates,
                self.max_simul_pieces == old(self).max_simul_pieces,
                peer.addr == p0.addr,
                addr == p0.addr,
                peer.peer_id == p0.peer_id,
                peer.am_choking == p0.am_choking,
                peer.peer_choking == p0.peer_choking,
                peer.peer_interested == p0.peer_interested,
                peer.piece_bitfield == p0.piece_bitfield,
                peer.piece_requests == p0.piece_requests,
                peer.recv_buffer == p0.recv_buffer,
                sendable(*peer),
                f <= focused.len(),
                ({
                    let st = request_pass(
                        init,
                        p0.addr,
                        p0.peer_choking,
                        p0.bitfield(),
                        *file,
                        focused.take(f as int),
                    );
                    &&& self.rqs@ == st.rqs
                    &&& peer.am_interested == st.interested
                    &&& views(peer.messages.messages@) == views(p0.messages.messages@) + st.sent
                }),
            decreases focused.len() - f,
        {
            let piece = self.focused_pieces[f];
            let ghost st = request_pass(
                init,
                p0.addr,
                p0.peer_choking,
                p0.bitfield(),
                *file,
                focused.take(f as int),
            );
            let ghost before = *peer;
            proof {
                assert(focused.take(f + 1).drop_last() =~= focused.take(f as int));
                assert(focused.take(f + 1).last() == piece);
            }
            if let Some(true) = peer.check_piece_bitfield(piece) {
                if peer.peer_choking && !peer.am_interested {
                    proof {
                        lemma_push_sendable(*peer, MessageType::Interested);
                        lemma_views_push(peer.messages.messages@, MessageType::Interested);
                    }
                    peer.queue(MessageType::Interested);
                    peer.am_interested = true;
                    proof {
                        assert(views(peer.messages.messages@) =~= views(p0.messages.messages@)
                            + st.sent.push(Message::Interested));
                    }
                } else if !peer.peer_choking && piece < file.get_num_pieces() {
                    self.request_block(addr, peer, file, piece);
                    proof {
                        let next = piece_pass(
                            st,
                            p0.addr,
                            p0.peer_choking,
                            p0.bitfield(),
                            *file,
                            piece,
                        );
                        if next.sent != st.sent {
                            assert(views(peer.messages.messages@) =~= views(
                                p0.messages.messages@,
                            ) + next.sent);
                        }
                    }
                }
            }
            f = f + 1;
        }
        assert(focused.take(f as int) =~= focused);
        let ghost mid = *peer;
        self.answer_request(peer, file);
        let ghost answered = *peer;
        if peer.am_choking {
            proof {
                lemma_push_sendable(*peer, MessageType::Unchoke);
                lemma_views_push(peer.messages.messages@, MessageType::Unchoke);
            }
            peer.queue(MessageType::Unchoke);
            peer.am_choking = false;
        }
        proof {
            let st = pass_of(p0, old(self).rqs@, *file, focused);
            assert(views(peer.messages.messages@) =~= views(p0.messages.messages@) + st.sent
                + answer_msg(p0.requests(), *file) + unchoke_of(p0.am_choking));
        }
    }

    /// Requests from `peer` the first block of `piece` that is neither
    /// written nor already in flight to it, if there is one, and records the
    /// request in flight.
    fn request_block(&mut self, addr: PeerAddr, peer: &mut Peer, file: &OutputFile, piece: usize)
        requires
            old(self).wf(),
            file.wf(),
            piece < file.spec_num_pieces(),
            sendable(*old(peer)),
        ensures
            final(self).wf(),
            final(self).focused_pieces == old(self).focused_pieces,
            final(self).updates == old(self).updates,
            final(self).max_simul_pieces == old(self).max_simul_pieces,
            same_record(*old(peer), *final(peer)),
            final(peer).peer_id == old(peer).peer_id,
            sendable(*final(peer)),
            match first_missing(*file, old(self).rqs@, addr, piece) {
                Some(o) => if piece <= u32::MAX && o <= u32::MAX && request_len(*file, piece, o)
                    <= u32::MAX {
                    &&& views(final(peer).messages.messages@) == views(
                        old(peer).messages.messages@,
                    ).push(
                        Message::Request {
                            index: piece as u32,
                            begin: o as u32,
                            length: request_len(*file, piece, o) as u32,
                        },
                    )
                    &&& final(self).rqs@ == old(self).rqs@.push(
                        Request {
                            peer_addr: addr,
                            index: piece,
                            begin: o as usize,
                            length: file.spec_block_size() as usize,
                        },
                    )
                } else {
                    final(peer).messages == old(peer).messages && final(self).rqs == old(self).rqs
                },
                None => final(peer).messages == old(peer).messages && final(self).rqs == old(
                    self,
                ).rqs,
            },
    {
        let plen = file.get_piece_len(piece);
        let bs = file.get_block_size();
        let ghost rqs0 = self.rqs@;
        let mut i: usize = 0;
        let mut found = false;
        loop
            invariant
                file.wf(),
                self.rqs@ == rqs0,
                plen == file.piece_len(piece as int),
                plen <= file.spec_piece_size(),
                bs == file.spec_block_size(),
                bs >= 1,
                piece < file.spec_num_pieces(),
                i <= plen,
                !found ==> (i as int) % (bs as int) == 0 || i == plen,
                found ==> i < plen && is_first_missing(*file, rqs0, addr, piece, i as int),
                forall|o2: int|
                    0 <= o2 < i && o2 % (bs as int) == 0 ==> !#[trigger] block_free(
                        *file,
                        rqs0,
                        addr,
                        piece,
                        o2,
                    ),
            ensures
                found ==> i < plen && is_first_missing(*file, rqs0, addr, piece, i as int),
                !found ==> forall|o2: int|
                    0 <= o2 < plen && o2 % (bs as int) == 0 ==> !#[trigger] block_free(
                        *file,
                        rqs0,
                        addr,
                        piece,
                        o2,
                    ),
            decreases plen - i,
        {
            if i >= plen {
                break;
            }
            proof {
                let ps = file.spec_piece_size();
                assert(plen <= ps);
                assert((i as int) / (bs as int) < ceil_div(ps, bs as int)) by (nonlinear_arith)
                    requires
                        i < ps,
                        bs >= 1,
                ;
            }
            let done = file.is_block_finished(piece, i);
            let r = Request { peer_addr: addr, index: piece, begin: i, length: bs };
            if done != Some(true) && !self.in_flight(r) {
                found = true;
                proof {
                    assert(block_free(*file, rqs0, addr, piece, i as int));
                }
                break;
            }
            proof {
                assert(!block_free(*file, rqs0, addr, piece, i as int));
            }
            if bs > plen - i {
                proof {
                    assert forall|o2: int|
                        0 <= o2 < plen && o2 % (bs as int) == 0 implies !#[trigger] block_free(
                        *file,
                        rqs0,
                        addr,
                        piece,
                        o2,
                    ) by {
                        if o2 >= i {
                            lemma_aligned_between(i as int, o2, bs as int);
                        }
                    }
                }
                i = plen;
            } else {
                proof {
                    assert forall|o2: int|
                        0 <= o2 < i + bs && o2 % (bs as int) == 0 implies !#[trigger] block_free(
                        *file,
                        rqs0,
                        addr,
                        piece,
                        o2,
                    ) by {
                        if o2 >= i {
                            lemma_aligned_between(i as int, o2, bs as int);
                        }
                    }
                    lemma_aligned_next(i as int, bs as int);
                }
                i = i + bs;
            }
        }
        proof {
            if found {
                lemma_first_missing_is(*file, rqs0, addr, piece, i as int);
            } else {
                assert(!exists|o: int| is_first_missing(*file, rqs0, addr, piece, o)) by {
                    if exists|o: int| is_first_missing(*file, rqs0, addr, piece, o) {
                        let o = choose|o: int| is_first_missing(*file, rqs0, addr, piece, o);
                        assert(block_free(*file, rqs0, addr, piece, o));
                    }
                }
            }
        }
        if found && piece <= u32::MAX as usize && i <= u32::MAX as usize {
            let len = if plen - i < bs {
                plen - i
            } else {
                bs
            };
            if len <= u32::MAX as usize {
                let m = MessageType::Request {
                    index: piece as u32,
                    begin: i as u32,
                    length: len as u32,
                };
                proof {
                    lemma_push_sendable(*peer, m);
                    lemma_views_push(peer.messages.messages@, m);
                }
                peer.queue(m);
                self.rqs.push(Request { peer_addr: addr, index: piece, begin: i, length: bs });
            }
        }
    }

    /// Answers the oldest request of `peer` with the block it asked for,
    /// where that block can be read; the request is taken off either way.
    fn answer_request(&mut self, peer: &mut Peer, file: &OutputFile)
        requires
            file.wf(),
            sendable(*old(peer)),
        ensures
            *final(self) == *old(self),
            final(peer).addr == old(peer).addr,
            final(peer).peer_id == old(peer).peer_id,
            final(peer).am_choking == old(peer).am_choking,
            final(peer).am_interested == old(peer).am_interested,
            final(peer).peer_choking == old(peer).peer_choking,
            final(peer).peer_interested == old(peer).peer_interested,
            final(peer).piece_bitfield == old(peer).piece_bitfield,
            final(peer).recv_buffer == old(peer).recv_buffer,
            final(peer).requests() == popped(old(peer).requests()),
            sendable(*final(peer)),
            views(final(peer).messages.messages@) == views(old(peer).messages.messages@)
                + answer_msg(old(peer).requests(), *file),
    {
        let ghost before = *peer;
        if let Some(req) = peer.pop_request() {
            proof {
                assert(peer.messages == before.messages);
            }
            if req.index <= u32::MAX as usize && req.begin <= u32::MAX as usize {
                match file.read_block(req.index, req.begin, req.length) {
                    Ok(block) => {
                        if block.len() <= 0xFFFF_0000usize {
                            let m = MessageType::Piece {
                                index: req.index as u32,
                                begin: req.begin as u32,
                                block,
                            };
                            proof {
                                lemma_push_sendable(*peer, m);
                                lemma_views_push(peer.messages.messages@, m);
                            }
                            peer.queue(m);
                        }
                    },
                    Err(_) => {},
                }
            }
            assert(views(peer.messages.messages@) =~= views(before.messages.messages@)
                + answer_msg(before.requests(), *file));
        } else {
            assert(views(peer.messages.messages@) =~= views(before.messages.messages@)
                + answer_msg(before.requests(), *file));
        }
    }
}

/// Two block-aligned offsets less than a block apart are the same.
proof fn lemma_aligned_between(i: int, o: int, bs: int)
    requires
        bs >= 1,
        i % bs == 0,
        o % bs == 0,
        i <= o < i + bs,
    ensures
        o == i,
{
    assert(o == i) by (nonlinear_arith)
        requires
            bs >= 1,
            i % bs == 0,
            o % bs == 0,
            i <= o < i + bs,
    ;
}

/// The next block-aligned offset is aligned.
proof fn lemma_aligned_next(i: int, bs: int)
    requires
        bs >= 1,
        i % bs == 0,
    ensures
        (i + bs) % bs == 0,
{
    assert((i + bs) % bs == 0) by (nonlinear_arith)
        requires
            bs >= 1,
            i % bs == 0,
    ;
}

/// There is one least free offset.
proof fn lemma_first_missing_is(
    file: OutputFile,
    rqs: Seq<Request>,
    addr: PeerAddr,
    piece: usize,
    o: int,
)
    requires
        is_first_missing(file, rqs, addr, piece, o),
    ensures
        first_missing(file, rqs, addr, piece) == Some(o),
{
    let c = choose|c: int| is_first_missing(file, rqs, addr, piece, c);
    assert(is_first_missing(file, rqs, addr, piece, c));
    if c < o {
        assert(block_free(file, rqs, addr, piece, c));
    } else if o < c {
        assert(block_free(file, rqs, addr, piece, o));
    }
}

/// An update more: announced is what was, or what the new update announces.
proof fn lemma_have_step(us: Seq<Update>, u: int, x: usize)
    requires
        0 <= u < us.len(),
    ensures
        have_in(us.take(u + 1), x) == (have_in(us.take(u), x) || announces(us[u], x)),
{
    let t = us.take(u + 1);
    let p = us.take(u);
    if have_in(t, x) {
        let i = choose|i: int| 0 <= i < t.len() && #[trigger] announces(t[i], x);
        if i < u {
            assert(p[i] == t[i]);
        }
    }
    if have_in(p, x) {
        let i = choose|i: int| 0 <= i < p.len() && #[trigger] announces(p[i], x);
        assert(t[i] == p[i]);
    }
    if announces(us[u], x) {
        assert(t[u] == us[u]);
    }
}



/// Every piece but `x`.
pub open spec fn other_than(x: usize) -> spec_fn(usize) -> bool {
    |y: usize| y != x
}

/// Dropping `x` from a sequence keeps the rest, shortens it at most, and
/// keeps it free of duplicates.
proof fn lemma_filter_ne(s: Seq<usize>, x: usize)
    ensures
        s.filter(other_than(x)).len() <= s.len(),
        forall|y: usize| #[trigger]
            s.filter(other_than(x)).contains(y) <==> (s.contains(y) && y != x),
        s.no_duplicates() ==> s.filter(other_than(x)).no_duplicates(),
    decreases s.len(),
{
    reveal(Seq::filter);
    if s.len() > 0 {
        let d = s.drop_last();
        lemma_filter_ne(d, x);
        let fd = d.filter(other_than(x));
        let fs = s.filter(other_than(x));
        let l = s.last();
        assert(fs == if l != x { fd.push(l) } else { fd });
        assert forall|y: usize| #[trigger] fs.contains(y) <==> (s.contains(y) && y != x) by {
            if s.contains(y) && y != x {
                let k = s.index_of(y);
                if k < d.len() {
                    assert(d[k] == y);
                    assert(fd.contains(y));
                    if l != x {
                        let m = fd.index_of(y);
                        assert(fs[m] == y);
                    }
                } else {
                    assert(fs[fs.len() - 1] == y);
                }
            }
            if fs.contains(y) {
                let m = fs.index_of(y);
                if m < fd.len() {
                    assert(fd[m] == y);
                    assert(fd.contains(y));
                    let k = d.index_of(y);
                    assert(s[k] == y);
                } else {
                    assert(s[s.len() - 1] == y);
                }
            }
        }
        if s.no_duplicates() && l != x {
            assert(d.no_duplicates());
            assert(!d.contains(l)) by {
                if d.contains(l) {
                    let k = d.index_of(l);
                    assert(s[k] == s[s.len() - 1]);
                }
            }
            assert(!fd.contains(l));
            assert forall|a: int, b: int|
                0 <= a < fs.len() && 0 <= b < fs.len() && a != b implies fs[a] != fs[b] by {
                if a < fd.len() && b < fd.len() {
                } else if a < fd.len() {
                    assert(fd.contains(fd[a]));
                } else {
                    assert(fd.contains(fd[b]));
                }
            }
        }
    }
}

/// The focused pieces once the updates `us` have been passed on: each Have
/// drops its piece, in order.
pub open spec fn unfocus_all(f: Seq<usize>, us: Seq<Update>) -> Seq<usize>
    decreases us.len(),
{
    if us.len() == 0 {
        f
    } else {
        let g = unfocus_all(f, us.drop_last());
        match us.last().message {
            MessageType::Have { index } => g.filter(other_than(index as usize)),
            _ => g,
        }
    }
}

/// First-fit top-up of the focused pieces `f` from piece `i` on: each piece
/// not verified and not yet focused is appended, lowest index first, until
/// `max` pieces are focused.
pub open spec fn top_up(f: Seq<usize>, verified: Seq<bool>, max: int, i: int) -> Seq<usize>
    decreases verified.len() - i,
{
    if i < 0 || i >= verified.len() || f.len() >= max {
        f
    } else if !verified[i] && !f.contains(i as usize) {
        top_up(f.push(i as usize), verified, max, i + 1)
    } else {
        top_up(f, verified, max, i + 1)
    }
}

/// Queueing a message that fits a frame keeps a peer sendable.
proof fn lemma_push_sendable(p: Peer, m: MessageType)
    requires
        sendable(p),
        encodable(m@),
    ensures
        forall|i: int|
            0 <= i < p.messages.messages@.push(m).len() ==> encodable(
                #[trigger] p.messages.messages@.push(m)[i]@,
            ),
{
    assert forall|i: int| 0 <= i < p.messages.messages@.push(m).len() implies encodable(
        #[trigger] p.messages.messages@.push(m)[i]@,
    ) by {
        if i < p.messages.messages@.len() {
            assert(p.messages.messages@.push(m)[i] == p.messages.messages@[i]);
        }
    }
}

} // verus!
