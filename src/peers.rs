//! Peers and the table that holds them: peers still waiting for their
//! handshake, and established peers, each address in at most one of the two.
use vstd::prelude::*;

use crate::p2p::{views, Messages, MessageType};

verus! {

/// A peer's socket address: an IPv4 address and a port.
#[derive(Debug, Clone, Copy, PartialEq, Eq, Hash, Structural)]
pub struct PeerAddr {
    pub ip: u32,
    pub port: u16,
}

/// A block that a peer asked us for.
#[derive(Debug, Clone, Copy, PartialEq, Eq, Structural)]
pub struct Request {
    pub index: usize,
    pub begin: usize,
    pub length: usize,
}

/// One connection's protocol state.
pub struct Peer {
    pub addr: PeerAddr,
    pub peer_id: Option<[u8; 20]>,
    pub am_choking: bool,
    pub am_interested: bool,
    pub peer_choking: bool,
    pub peer_interested: bool,
    /// The pieces the peer says it has.
    pub piece_bitfield: Vec<bool>,
    /// The blocks the peer asked for, oldest first.
    pub piece_requests: Vec<Request>,
    /// Bytes received and not yet parsed.
    pub recv_buffer: Vec<u8>,
    /// Messages waiting to be sent.
    pub messages: Messages,
}

impl Peer {
    pub open spec fn spec_addr(&self) -> PeerAddr {
        self.addr
    }

    pub open spec fn spec_peer_id(&self) -> Option<[u8; 20]> {
        self.peer_id
    }

    pub open spec fn bitfield(&self) -> Seq<bool> {
        self.piece_bitfield@
    }

    pub open spec fn requests(&self) -> Seq<Request> {
        self.piece_requests@
    }

    /// A new connection to `addr`, before the handshake: both sides choking,
    /// neither interested, nothing known of the peer's pieces.
    pub fn new(addr: PeerAddr) -> (r: Self)
        ensures
            r.spec_addr() == addr,
            r.spec_peer_id() is None,
            r.am_choking && r.peer_choking,
            !r.am_interested && !r.peer_interested,
            r.bitfield().len() == 0,
            r.requests().len() == 0,
            r.recv_buffer@.len() == 0,
            r.messages.messages@.len() == 0,
    {
        Peer {
            addr,
            peer_id: None,
            am_choking: true,
            am_interested: false,
            peer_choking: true,
            peer_interested: false,
            piece_bitfield: Vec::new(),
            piece_requests: Vec::new(),
            recv_buffer: Vec::new(),
            messages: Messages::new(),
        }
    }

    pub fn get_addr(&self) -> (r: PeerAddr)
        ensures
            r == self.spec_addr(),
    {
        self.addr
    }

    pub fn get_peer_id(&self) -> (r: Option<[u8; 20]>)
        ensures
            r == self.spec_peer_id(),
    {
        self.peer_id
    }

    /// Whether the handshake with this peer has completed.
    pub fn is_complete(&self) -> (r: bool)
        ensures
            r == self.spec_peer_id().is_some(),
    {
        self.peer_id.is_some()
    }

    /// Replaces what is known of the peer's pieces.
    pub fn init_piece_bitfield(&mut self, bitfield: Vec<bool>)
        ensures
            final(self).messages == old(self).messages,
            final(self).am_choking == old(self).am_choking,
            final(self).am_interested == old(self).am_interested,
            final(self).peer_choking == old(self).peer_choking,
            final(self).peer_interested == old(self).peer_interested,
            final(self).recv_buffer == old(self).recv_buffer,
            final(self).bitfield() == bitfield@,
            final(self).spec_addr() == old(self).spec_addr(),
            final(self).spec_peer_id() == old(self).spec_peer_id(),
            final(self).requests() == old(self).requests(),
    {
        self.piece_bitfield = bitfield;
    }

    /// Records whether the peer has piece `index`; an index beyond the known
    /// bitfield is ignored.
    pub fn set_piece_bit(&mut self, index: usize, status: bool)
        ensures
            final(self).messages == old(self).messages,
            final(self).am_choking == old(self).am_choking,
            final(self).am_interested == old(self).am_interested,
            final(self).peer_choking == old(self).peer_choking,
            final(self).peer_interested == old(self).peer_interested,
            final(self).recv_buffer == old(self).recv_buffer,
            final(self).bitfield() == if index < old(self).bitfield().len() {
                old(self).bitfield().update(index as int, status)
            } else {
                old(self).bitfield()
            },
            final(self).spec_addr() == old(self).spec_addr(),
            final(self).spec_peer_id() == old(self).spec_peer_id(),
            final(self).requests() == old(self).requests(),
    {
        if index < self.piece_bitfield.len() {
            self.piece_bitfield.set(index, status);
        }
    }

    /// Whether the peer says it has piece `index`; `None` beyond its bitfield.
    pub fn check_piece_bitfield(&self, index: usize) -> (r: Option<bool>)
        ensures
            r == if index < self.bitfield().len() {
                Some(self.bitfield()[index as int])
            } else {
                None
            },
    {
        if index < self.piece_bitfield.len() {
            Some(self.piece_bitfield[index])
        } else {
            None
        }
    }

    /// Queues a block that the peer asked for.
    pub fn push_request(&mut self, index: usize, begin: usize, length: usize)
        ensures
            final(self).messages == old(self).messages,
            final(self).am_choking == old(self).am_choking,
            final(self).am_interested == old(self).am_interested,
            final(self).peer_choking == old(self).peer_choking,
            final(self).peer_interested == old(self).peer_interested,
            final(self).recv_buffer == old(self).recv_buffer,
            final(self).requests() == old(self).requests().push(Request { index, begin, length }),
            final(self).spec_addr() == old(self).spec_addr(),
            final(self).spec_peer_id() == old(self).spec_peer_id(),
            final(self).bitfield() == old(self).bitfield(),
    {
        self.piece_requests.push(Request { index, begin, length });
    }

    /// Takes the oldest block that the peer asked for.
    pub fn pop_request(&mut self) -> (r: Option<Request>)
        ensures
            old(self).requests().len() == 0 ==> r is None && final(self).requests() == old(
                self,
            ).requests(),
            old(self).requests().len() > 0 ==> r == Some(old(self).requests()[0])
                && final(self).requests() == old(self).requests().drop_first(),
            final(self).spec_addr() == old(self).spec_addr(),
            final(self).spec_peer_id() == old(self).spec_peer_id(),
            final(self).bitfield() == old(self).bitfield(),
            final(self).messages == old(self).messages,
            final(self).am_choking == old(self).am_choking,
            final(self).am_interested == old(self).am_interested,
            final(self).peer_choking == old(self).peer_choking,
            final(self).peer_interested == old(self).peer_interested,
            final(self).recv_buffer == old(self).recv_buffer,
            final(self).piece_bitfield == old(self).piece_bitfield,
    {
        if self.piece_requests.len() == 0 {
            None
        } else {
            let r = self.piece_requests.remove(0);
            assert(self.piece_requests@ =~= old(self).requests().drop_first());
            Some(r)
        }
    }

    /// Queues a message to send.
    pub fn queue(&mut self, message: MessageType)
        ensures
            final(self).messages.messages@ == old(self).messages.messages@.push(message),
            same_record(*old(self), *final(self)),
            final(self).peer_id == old(self).peer_id,
    {
        self.messages.messages.push(message);
    }

    pub fn get_mut_recv_buffer(&mut self) -> (r: &mut Vec<u8>)
        ensures
            *r == old(self).recv_buffer,
            final(self).recv_buffer == *final(r),
            final(self).spec_addr() == old(self).spec_addr(),
            final(self).spec_peer_id() == old(self).spec_peer_id(),
            final(self).messages == old(self).messages,
    {
        &mut self.recv_buffer
    }

    pub fn get_mut_messages(&mut self) -> (r: &mut Messages)
        ensures
            *r == old(self).messages,
            final(self).messages == *final(r),
            final(self).spec_addr() == old(self).spec_addr(),
            final(self).spec_peer_id() == old(self).spec_peer_id(),
            final(self).recv_buffer == old(self).recv_buffer,
    {
        &mut self.messages
    }

    /// A copy of the queued messages.
    pub fn get_messages_clone(&self) -> (r: Messages)
        ensures
            views(r.messages@) == views(self.messages.messages@),
    {
        let mut out: Vec<MessageType> = Vec::with_capacity(self.messages.messages.len());
        let mut i: usize = 0;
        while i < self.messages.messages.len()
            invariant
                i <= self.messages.messages@.len(),
                views(out@) == views(self.messages.messages@.take(i as int)),
            decreases self.messages.messages@.len() - i,
        {
            let m = self.messages.messages[i].duplicate();
            let ghost before = out@;
            out.push(m);
            proof {
                let ms = self.messages.messages@;
                assert(views(out@) =~= views(before).push(m@));
                assert(ms.take(i + 1) =~= ms.take(i as int).push(ms[i as int]));
                assert(views(ms.take(i + 1)) =~= views(ms.take(i as int)).push(ms[i as int]@));
            }
            i = i + 1;
        }
        assert(self.messages.messages@.take(i as int) =~= self.messages.messages@);
        Messages { messages: out }
    }

    pub fn reset_messages(&mut self)
        ensures
            final(self).messages.messages@.len() == 0,
            same_record(*old(self), *final(self)),
            final(self).peer_id == old(self).peer_id,
    {
        self.messages = Messages::new();
    }

    pub fn set_messages(&mut self, messages: Messages)
        ensures
            final(self).messages == messages,
            same_record(*old(self), *final(self)),
            final(self).peer_id == old(self).peer_id,
    {
        self.messages = messages;
    }
}

/// `q` holds what `p` holds, the queued messages and the peer id aside.
pub open spec fn same_record(p: Peer, q: Peer) -> bool {
    &&& q.addr == p.addr
    &&& q.am_choking == p.am_choking
    &&& q.am_interested == p.am_interested
    &&& q.peer_choking == p.peer_choking
    &&& q.peer_interested == p.peer_interested
    &&& q.piece_bitfield == p.piece_bitfield
    &&& q.piece_requests == p.piece_requests
    &&& q.recv_buffer == p.recv_buffer
}

/// A peer just added at `addr` with `peer_id`: both sides choking, neither
/// interested, nothing known, nothing buffered or queued.
pub open spec fn fresh(p: Peer, addr: PeerAddr, peer_id: Option<[u8; 20]>) -> bool {
    &&& p.addr == addr
    &&& p.peer_id == peer_id
    &&& p.am_choking && p.peer_choking
    &&& !p.am_interested && !p.peer_interested
    &&& p.bitfield().len() == 0
    &&& p.requests().len() == 0
    &&& p.recv_buffer@.len() == 0
    &&& p.messages.messages@.len() == 0
}

/// Why a change to the peer table was refused.
#[derive(Debug, Clone, Copy, PartialEq, Eq, Structural)]
pub enum PeerError {
    /// The address is already in the table.
    AlreadyPresent,
    /// The address is not waiting for its handshake.
    NotPending,
}

/// All peers, by address: `list` holds the established ones, `incomplete`
/// those still waiting for their handshake.
pub struct Peers {
    pub list: Vec<Peer>,
    pub incomplete: Vec<Peer>,
}

/// Some peer of `ps` has address `a`.
pub open spec fn holds(ps: Seq<Peer>, a: PeerAddr) -> bool {
    exists|i: int| 0 <= i < ps.len() && #[trigger] ps[i].spec_addr() == a
}

/// No two peers of `ps` share an address.
pub open spec fn distinct_addrs(ps: Seq<Peer>) -> bool {
    forall|i: int, j: int|
        0 <= i < ps.len() && 0 <= j < ps.len() && i != j ==> #[trigger] ps[i].spec_addr()
            != #[trigger] ps[j].spec_addr()
}

/// Every peer of `ps` with address `a` is also in `qs`, and the other way round,
/// for every address but `a`.
pub open spec fn same_but(ps: Seq<Peer>, qs: Seq<Peer>, a: PeerAddr) -> bool {
    forall|b: PeerAddr| b != a ==> (holds(ps, b) <==> holds(qs, b))
}

impl Peers {
    /// Addresses are unique over both lists; established peers carry a peer
    /// id, pending ones do not.
    pub open spec fn wf(&self) -> bool {
        &&& distinct_addrs(self.list@)
        &&& distinct_addrs(self.incomplete@)
        &&& forall|a: PeerAddr| !(holds(self.list@, a) && holds(self.incomplete@, a))
        &&& forall|i: int| 0 <= i < self.list@.len() ==> (#[trigger] self.list@[i]).spec_peer_id() is Some
        &&& forall|i: int|
            0 <= i < self.incomplete@.len() ==> (#[trigger] self.incomplete@[i]).spec_peer_id() is None
    }

    pub open spec fn is_established(&self, a: PeerAddr) -> bool {
        holds(self.list@, a)
    }

    pub open spec fn is_pending(&self, a: PeerAddr) -> bool {
        holds(self.incomplete@, a)
    }

    pub fn new() -> (r: Self)
        ensures
            r.wf(),
            r.list@.len() == 0,
            r.incomplete@.len() == 0,
    {
        Peers { list: Vec::new(), incomplete: Vec::new() }
    }

    /// Position of the peer with address `a` in `ps`.
    fn position(ps: &Vec<Peer>, a: PeerAddr) -> (r: Option<usize>)
        ensures
            r is None <==> !holds(ps@, a),
            r matches Some(i) ==> i < ps@.len() && ps@[i as int].spec_addr() == a,
    {
        let mut i: usize = 0;
        while i < ps.len()
            invariant
                i <= ps@.len(),
                forall|j: int| 0 <= j < i ==> (#[trigger] ps@[j]).spec_addr() != a,
            decreases ps@.len() - i,
        {
            if ps[i].get_addr() == a {
                return Some(i);
            }
            i = i + 1;
        }
        None
    }

    /// Adds a new peer at `addr`: established where a peer id is given, else
    /// pending its handshake. Refused where the address is already in the
    /// table.
    pub fn add_peer(&mut self, addr: PeerAddr, peer_id: Option<[u8; 20]>) -> (r: Result<
        (),
        PeerError,
    >)
        requires
            old(self).wf(),
        ensures
            final(self).wf(),
            r is Err <==> (old(self).is_established(addr) || old(self).is_pending(addr)),
            r matches Err(e) ==> e == PeerError::AlreadyPresent && *final(self) == *old(self),
            r is Ok ==> {
                &&& final(self).is_established(addr) == peer_id.is_some()
                &&& final(self).is_pending(addr) == peer_id.is_none()
                &&& peer_id is None ==> final(self).list@ == old(self).list@
                    && final(self).incomplete@.drop_last() == old(self).incomplete@
                    && final(self).incomplete@.len() == old(self).incomplete@.len() + 1
                    && fresh(final(self).incomplete@.last(), addr, None)
                &&& peer_id is Some ==> final(self).incomplete@ == old(self).incomplete@
                    && final(self).list@.drop_last() == old(self).list@
                    && final(self).list@.len() == old(self).list@.len() + 1
                    && fresh(final(self).list@.last(), addr, peer_id)
                &&& same_but(final(self).list@, old(self).list@, addr)
                &&& same_but(final(self).incomplete@, old(self).incomplete@, addr)
            },
    {
        if Self::position(&self.list, addr).is_some() || Self::position(
            &self.incomplete,
            addr,
        ).is_some() {
            return Err(PeerError::AlreadyPresent);
        }
        let mut peer = Peer::new(addr);
        match peer_id {
            None => {
                let ghost before = self.incomplete@;
                self.incomplete.push(peer);
                proof {
                    lemma_push_holds(before, peer, addr);
                    assert(self.incomplete@.drop_last() =~= before);
                }
            },
            Some(id) => {
                peer.peer_id = Some(id);
                let ghost before = self.list@;
                self.list.push(peer);
                proof {
                    lemma_push_holds(before, peer, addr);
                    assert(self.list@.drop_last() =~= before);
                }
            },
        }
        Ok(())
    }

    /// Moves the pending peer at `addr` to the established peers, recording
    /// its peer id. Refused where `addr` is not pending.
    pub fn complete_peer(&mut self, addr: PeerAddr, peer_id: &[u8; 20]) -> (r: Result<
        (),
        PeerError,
    >)
        requires
            old(self).wf(),
        ensures
            final(self).wf(),
            r is Err <==> !old(self).is_pending(addr),
            r matches Err(e) ==> e == PeerError::NotPending && *final(self) == *old(self),
            r is Ok ==> {
                &&& final(self).is_established(addr)
                &&& !final(self).is_pending(addr)
                &&& exists|i: int|
                    0 <= i < old(self).incomplete@.len() && (#[trigger] old(self).incomplete@[i]).addr
                        == addr && final(self).incomplete@ == old(self).incomplete@.remove(i)
                        && final(self).list@.drop_last() == old(self).list@
                        && final(self).list@.len() == old(self).list@.len() + 1
                        && same_record(old(self).incomplete@[i], final(self).list@.last())
                        && final(self).list@.last().messages == old(self).incomplete@[i].messages
                        && final(self).list@.last().peer_id == Some(*peer_id)
                &&& same_but(final(self).list@, old(self).list@, addr)
                &&& same_but(final(self).incomplete@, old(self).incomplete@, addr)
            },
    {
        match Self::position(&self.incomplete, addr) {
            None => Err(PeerError::NotPending),
            Some(i) => {
                let ghost before = self.incomplete@;
                let mut peer = self.incomplete.remove(i);
                proof {
                    lemma_remove_holds(before, i as int);
                }
                let ghost moved = peer;
                peer.peer_id = Some(*peer_id);
                let ghost before_list = self.list@;
                self.list.push(peer);
                proof {
                    lemma_push_holds(before_list, peer, addr);
                    assert(!holds(before_list, addr));
                    assert(self.list@.drop_last() =~= before_list);
                    assert(moved == before[i as int]);
                    assert(before[i as int].addr == addr);
                    assert(self.incomplete@ == before.remove(i as int));
                    assert(self.list@.last() == peer);
                    assert(same_record(before[i as int], self.list@.last()));
                    assert(self.list@.last().messages == before[i as int].messages);
                    assert(self.list@.last().peer_id == Some(*peer_id));
                    assert(self.list@.len() == before_list.len() + 1);
                }
                Ok(())
            },
        }
    }

    /// Removes the peer at `addr`, established or pending, and hands it back.
    pub fn remove_peer(&mut self, addr: PeerAddr) -> (r: Option<Peer>)
        requires
            old(self).wf(),
        ensures
            final(self).wf(),
            r is Some <==> (old(self).is_established(addr) || old(self).is_pending(addr)),
            r matches Some(p) ==> p.spec_addr() == addr,
            r is None ==> *final(self) == *old(self),
            r is Some ==> exists|i: int|
                ({
                    ||| 0 <= i < old(self).list@.len() && r == Some(old(self).list@[i])
                        && final(self).list@ == old(self).list@.remove(i)
                        && final(self).incomplete@ == old(self).incomplete@
                    ||| 0 <= i < old(self).incomplete@.len() && r == Some(old(self).incomplete@[i])
                        && final(self).incomplete@ == old(self).incomplete@.remove(i)
                        && final(self).list@ == old(self).list@
                }),
            !final(self).is_established(addr),
            !final(self).is_pending(addr),
            same_but(final(self).list@, old(self).list@, addr),
            same_but(final(self).incomplete@, old(self).incomplete@, addr),
    {
        match Self::position(&self.list, addr) {
            Some(i) => {
                let ghost before = self.list@;
                let p = self.list.remove(i);
                proof {
                    lemma_remove_holds(before, i as int);
                    assert(self.list@ == before.remove(i as int));
                }
                Some(p)
            },
            None => match Self::position(&self.incomplete, addr) {
                Some(i) => {
                    let ghost before = self.incomplete@;
                    let p = self.incomplete.remove(i);
                    proof {
                        lemma_remove_holds(before, i as int);
                        assert(self.incomplete@ == before.remove(i as int));
                    }
                    Some(p)
                },
                None => None,
            },
        }
    }

    /// The established peers, to update in place. Their addresses and peer
    /// ids are what keeps the table well formed.
    pub fn get_peers_list(&mut self) -> (r: &mut Vec<Peer>)
        ensures
            *r == old(self).list,
            final(self).list == *final(r),
            final(self).incomplete == old(self).incomplete,
    {
        &mut self.list
    }

    /// The peer at `addr`: an established one first, else a pending one.
    pub fn find_peer(&self, addr: PeerAddr) -> (r: Option<&Peer>)
        requires
            self.wf(),
        ensures
            r is Some <==> (self.is_established(addr) || self.is_pending(addr)),
            r matches Some(p) ==> p.spec_addr() == addr && (p.spec_peer_id() is Some
                <==> self.is_established(addr)),
    {
        match Self::position(&self.list, addr) {
            Some(i) => Some(&self.list[i]),
            None => match Self::position(&self.incomplete, addr) {
                Some(i) => Some(&self.incomplete[i]),
                None => None,
            },
        }
    }
}

/// Pushing a peer with a fresh address keeps addresses distinct and adds
/// exactly that address.
proof fn lemma_push_holds(ps: Seq<Peer>, p: Peer, a: PeerAddr)
    requires
        distinct_addrs(ps),
        !holds(ps, a),
        p.spec_addr() == a,
    ensures
        distinct_addrs(ps.push(p)),
        holds(ps.push(p), a),
        same_but(ps.push(p), ps, a),
        forall|i: int| 0 <= i < ps.len() ==> ps.push(p)[i] == ps[i],
{
    let qs = ps.push(p);
    assert(qs[ps.len() as int].spec_addr() == a);
    assert forall|b: PeerAddr| b != a implies (holds(qs, b) <==> holds(ps, b)) by {
        if holds(qs, b) {
            let i = choose|i: int| 0 <= i < qs.len() && #[trigger] qs[i].spec_addr() == b;
            assert(ps[i].spec_addr() == b);
        }
        if holds(ps, b) {
            let i = choose|i: int| 0 <= i < ps.len() && #[trigger] ps[i].spec_addr() == b;
            assert(qs[i].spec_addr() == b);
        }
    }
    assert forall|i: int, j: int|
        0 <= i < qs.len() && 0 <= j < qs.len() && i != j implies #[trigger] qs[i].spec_addr()
        != #[trigger] qs[j].spec_addr() by {
        if i < ps.len() && j < ps.len() {
            assert(ps[i].spec_addr() != ps[j].spec_addr());
        } else if i < ps.len() {
            assert(ps[i].spec_addr() != a);
        } else {
            assert(ps[j].spec_addr() != a);
        }
    }
}

/// Removing the `i`th peer keeps addresses distinct and drops exactly its address.
proof fn lemma_remove_holds(ps: Seq<Peer>, i: int)
    requires
        distinct_addrs(ps),
        0 <= i < ps.len(),
    ensures
        distinct_addrs(ps.remove(i)),
        !holds(ps.remove(i), ps[i].spec_addr()),
        same_but(ps.remove(i), ps, ps[i].spec_addr()),
        forall|b: PeerAddr| holds(ps.remove(i), b) ==> holds(ps, b),
{
    let a = ps[i].spec_addr();
    let qs = ps.remove(i);
    assert forall|j: int| 0 <= j < qs.len() implies #[trigger] qs[j] == if j < i {
        ps[j]
    } else {
        ps[j + 1]
    } by {}
    if holds(qs, a) {
        let j = choose|j: int| 0 <= j < qs.len() && #[trigger] qs[j].spec_addr() == a;
        if j < i {
            assert(ps[j].spec_addr() != ps[i].spec_addr());
        } else {
            assert(ps[j + 1].spec_addr() != ps[i].spec_addr());
        }
    }
    assert forall|b: PeerAddr| holds(qs, b) implies holds(ps, b) by {
        let j = choose|j: int| 0 <= j < qs.len() && #[trigger] qs[j].spec_addr() == b;
        if j < i {
            assert(ps[j].spec_addr() == b);
        } else {
            assert(ps[j + 1].spec_addr() == b);
        }
    }
    assert forall|b: PeerAddr| b != a && holds(ps, b) implies holds(qs, b) by {
        let j = choose|j: int| 0 <= j < ps.len() && #[trigger] ps[j].spec_addr() == b;
        if j < i {
            assert(qs[j].spec_addr() == b);
        } else {
            assert(j != i);
            assert(qs[j - 1].spec_addr() == b);
        }
    }
    assert forall|x: int, y: int|
        0 <= x < qs.len() && 0 <= y < qs.len() && x != y implies #[trigger] qs[x].spec_addr()
        != #[trigger] qs[y].spec_addr() by {
        let x2 = if x < i { x } else { x + 1 };
        let y2 = if y < i { y } else { y + 1 };
        assert(ps[x2].spec_addr() != ps[y2].spec_addr());
    }
}

/// Adding a peer pending its handshake and then completing it moves exactly
/// its address from pending to established and leaves every other address
/// where it was; a second completion of it is then refused, since the
/// address is no longer pending. The states are those that the two calls'
/// contracts describe on success.
pub proof fn lemma_add_then_complete(before: Peers, added: Peers, completed: Peers, a: PeerAddr)
    requires
        before.wf(),
        !before.is_established(a),
        !before.is_pending(a),
        added.wf(),
        added.is_pending(a),
        !added.is_established(a),
        same_but(added.list@, before.list@, a),
        same_but(added.incomplete@, before.incomplete@, a),
        completed.wf(),
        completed.is_established(a),
        !completed.is_pending(a),
        same_but(completed.list@, added.list@, a),
        same_but(completed.incomplete@, added.incomplete@, a),
    ensures
        completed.is_established(a) && !completed.is_pending(a),
        forall|b: PeerAddr|
            b != a ==> (completed.is_established(b) == before.is_established(b)
                && completed.is_pending(b) == before.is_pending(b)),
{
    assert forall|b: PeerAddr| b != a implies (completed.is_established(b)
        == before.is_established(b) && completed.is_pending(b) == before.is_pending(b)) by {
        assert(holds(completed.list@, b) == holds(added.list@, b));
        assert(holds(added.list@, b) == holds(before.list@, b));
        assert(holds(completed.incomplete@, b) == holds(added.incomplete@, b));
        assert(holds(added.incomplete@, b) == holds(before.incomplete@, b));
    }
}

} // verus!
