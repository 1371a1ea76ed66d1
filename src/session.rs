//! What happens to a connection's inbound bytes: frames are taken off its
//! buffer, and each message updates the peer, the store and the strategy.
use vstd::prelude::*;

use crate::digest::sha1_of;
use crate::file::{splice, OutputFile};
use crate::p2p::{
    bit_of, copy_bytes, parse_frame, parse_message, push_bytes, unpack_bitfield, views, Message,
    MessageType, Parsed,
};
use crate::peers::{Peer, PeerAddr};
use crate::strategy::{Request, Strategy, Update};
use crate::torrent::{get_piece_hash, Torrent};

verus! {

/// The messages at the front of `buf`, frame after frame; whether parsing
/// stopped at a frame that matches no message; and the bytes left over.
pub open spec fn drain_frames(buf: Seq<u8>) -> (Seq<Message>, bool, Seq<u8>)
    decreases buf.len(),
{
    match parse_frame(buf) {
        Parsed::Incomplete => (Seq::empty(), false, buf),
        Parsed::Malformed => (Seq::empty(), true, Seq::empty()),
        Parsed::Frame { msg, len } => if 0 < len <= buf.len() {
            let rest = drain_frames(buf.subrange(len as int, buf.len() as int));
            (seq![msg] + rest.0, rest.1, rest.2)
        } else {
            (Seq::empty(), false, buf)
        },
    }
}

/// A frame takes at least its four-byte prefix and no more than the buffer.
proof fn lemma_frame_len(buf: Seq<u8>)
    ensures
        parse_frame(buf) matches Parsed::Frame { len, .. } ==> 4 <= len <= buf.len(),
{
}

/// Appends `incoming` to the peer's buffer and takes every whole message off
/// its front. Returns the messages in arrival order, and whether a frame
/// matched no message, in which case the buffer was discarded and the
/// connection is out of step and must be dropped.
pub fn handle_messages(peer: &mut Peer, incoming: &Vec<u8>) -> (r: (Vec<MessageType>, bool))
    ensures
        ({
            let d = drain_frames(old(peer).recv_buffer@ + incoming@);
            &&& views(r.0@) == d.0
            &&& r.1 == d.1
            &&& final(peer).recv_buffer@ == d.2
        }),
        final(peer).spec_addr() == old(peer).spec_addr(),
        final(peer).spec_peer_id() == old(peer).spec_peer_id(),
        final(peer).messages == old(peer).messages,
        final(peer).bitfield() == old(peer).bitfield(),
        final(peer).requests() == old(peer).requests(),
{
    push_bytes(&mut peer.recv_buffer, incoming);
    let ghost total = peer.recv_buffer@;
    let mut out: Vec<MessageType> = Vec::new();
    let mut malformed = false;
    loop
        invariant_except_break
            drain_frames(total).0 == views(out@) + drain_frames(peer.recv_buffer@).0,
            drain_frames(total).1 == drain_frames(peer.recv_buffer@).1,
            drain_frames(total).2 == drain_frames(peer.recv_buffer@).2,
        invariant
            peer.spec_addr() == old(peer).spec_addr(),
            peer.spec_peer_id() == old(peer).spec_peer_id(),
            peer.messages == old(peer).messages,
            peer.bitfield() == old(peer).bitfield(),
            peer.requests() == old(peer).requests(),
            total == old(peer).recv_buffer@ + incoming@,
        ensures
            drain_frames(total).0 == views(out@),
            drain_frames(total).1 == malformed,
            drain_frames(total).2 == peer.recv_buffer@,
        decreases peer.recv_buffer@.len(),
    {
        let ghost before = peer.recv_buffer@;
        let before_len = peer.recv_buffer.len();
        proof {
            lemma_frame_len(before);
        }
        match parse_message(&mut peer.recv_buffer) {
            Some(m) => {
                let ghost prev = out@;
                out.push(m);
                proof {
                    assert(views(out@) =~= views(prev) + seq![m@]);
                    let d = drain_frames(before);
                    assert(d.0 =~= seq![m@] + drain_frames(peer.recv_buffer@).0);
                    assert(views(prev) + d.0 =~= views(out@) + drain_frames(peer.recv_buffer@).0);
                }
            },
            None => {
                malformed = before_len > 0 && peer.recv_buffer.len() == 0;
                proof {
                    assert(views(out@) + Seq::<Message>::empty() =~= views(out@));
                }
                break;
            },
        }
    }
    (out, malformed)
}

/// After a write that completed piece `index`: where the piece's digest is
/// `expected`, marks it verified, forgets its requests in flight and queues a
/// Have for every peer; else clears it so that it is downloaded again, and
/// forgets its requests in flight. Returns whether the digest matched.
pub fn complete_piece(
    peer_addr: PeerAddr,
    index: u32,
    expected: &[u8; 20],
    file: &mut OutputFile,
    strategy_state: &mut Strategy,
) -> (matched: bool)
    requires
        old(file).wf(),
        index < old(file).spec_num_pieces(),
        old(file).byte_complete(index as int),
    ensures
        matched == (sha1_of(old(file).piece_content(index as int)) == expected@),
        final(file).same_geometry(*old(file)),
        final(file).content() == old(file).content(),
        final(file).verified() == old(file).verified().update(index as int, matched),
        final(strategy_state).rqs@ == old(strategy_state).rqs@.filter(
            |r: Request| r.index != index as usize,
        ),
        final(strategy_state).updates@ == if matched {
            old(strategy_state).updates@.push(
                Update { peer_addr: Some(peer_addr), message: MessageType::Have { index } },
            )
        } else {
            old(strategy_state).updates@
        },
        final(strategy_state).focused_pieces == old(strategy_state).focused_pieces,
        final(strategy_state).max_simul_pieces == old(strategy_state).max_simul_pieces,
        forall|i: int, k: int| #[trigger] final(file).byte_done(i, k) == old(file).byte_done(i, k),
        forall|i: int, j: int|
            0 <= i < old(file).spec_num_pieces() && 0 <= j < old(file).spec_blocks_per_piece()
                ==> #[trigger] final(file).block_done(i, j) == if !matched && i == index {
                false
            } else {
                old(file).block_done(i, j)
            },
{
    match file.compare_piece_hash(index as usize, expected) {
        Ok(true) => {
            let _ = file.set_piece_finished(index as usize);
            strategy_state.rm_requests_for_piece(index as usize);
            strategy_state.push_update(Some(peer_addr), MessageType::Have { index });
            true
        },
        _ => {
            let _ = file.clear_piece(index as usize);
            strategy_state.rm_requests_for_piece(index as usize);
            false
        },
    }
}

/// What piece `index` of `t` is expected to hash to, where `t` has it.
pub open spec fn expected_digest(t: Torrent, index: int) -> Option<Seq<u8>> {
    if 0 <= index < t.pieces@.len() / 20 {
        Some(t.pieces@.subrange(20 * index, 20 * index + 20))
    } else {
        None
    }
}

/// How one message changes the record of the peer that sent it, in a store
/// of `num_pieces` pieces.
pub open spec fn peer_step(p0: Peer, num_pieces: int, msg: MessageType, p1: Peer) -> bool {
    &&& p1.addr == p0.addr
    &&& p1.peer_id == p0.peer_id
    &&& p1.am_choking == p0.am_choking
    &&& p1.am_interested == p0.am_interested
    &&& p1.messages == p0.messages
    &&& p1.recv_buffer == p0.recv_buffer
    &&& p1.peer_choking == match msg {
        MessageType::Choke => true,
        MessageType::Unchoke => false,
        _ => p0.peer_choking,
    }
    &&& p1.peer_interested == match msg {
        MessageType::Interested => true,
        MessageType::NotInterested => false,
        _ => p0.peer_interested,
    }
    &&& p1.bitfield() == match msg {
        MessageType::Have { index } => if (index as int) < p0.bitfield().len() {
            p0.bitfield().update(index as int, true)
        } else {
            p0.bitfield()
        },
        MessageType::Bitfield { field } => Seq::new(
            num_pieces as nat,
            |i: int| i < 8 * field@.len() && bit_of(field@, i),
        ),
        _ => p0.bitfield(),
    }
    &&& p1.requests() == match msg {
        MessageType::Request { index, begin, length } => p0.requests().push(
            crate::peers::Request {
                index: index as usize,
                begin: begin as usize,
                length: length as usize,
            },
        ),
        _ => p0.requests(),
    }
}

/// How a Piece message `(index, begin, block)` from `addr` changes the store
/// and the strategy. A refused write changes nothing. An accepted one writes
/// the block (cut to one block size); where that completes the piece and the
/// torrent has a digest for it, the piece is hashed: on a match it is marked
/// verified and a Have update is queued, else its blocks are forgotten so
/// that it is downloaded again; either way its requests in flight are dropped.
pub open spec fn piece_step(
    f0: OutputFile,
    s0: Strategy,
    addr: PeerAddr,
    t: Torrent,
    index: u32,
    begin: u32,
    block: Seq<u8>,
    f1: OutputFile,
    s1: Strategy,
) -> bool {
    let i = index as int;
    let b = begin as int;
    if f0.write_error(i, b, block.len() as int) is Some {
        f1 == f0 && s1 == s0
    } else {
        let w = f0.accepted_len(block.len() as int);
        let content = splice(f0.content(), f0.piece_start(i) + b, block.take(w));
        let complete = forall|k: int|
            0 <= k < f0.piece_len(i) ==> (#[trigger] f0.byte_done(i, k) || (b <= k < b + w));
        let checked = complete && expected_digest(t, i) is Some;
        let matched = checked && sha1_of(
            content.subrange(f0.piece_start(i), f0.piece_start(i) + f0.piece_len(i)),
        ) == expected_digest(t, i).unwrap();
        &&& f1.same_geometry(f0)
        &&& f1.content() == content
        &&& forall|i2: int, k: int|
            0 <= i2 < f0.spec_num_pieces() && 0 <= k < f0.piece_len(i2) ==> #[trigger] f1.byte_done(
                i2,
                k,
            ) == (f0.byte_done(i2, k) || (i2 == i && b <= k < b + w))
        &&& forall|i2: int, j: int|
            0 <= i2 < f0.spec_num_pieces() && 0 <= j < f0.spec_blocks_per_piece()
                ==> #[trigger] f1.block_done(i2, j) == if checked && !matched && i2 == i {
                false
            } else {
                f0.block_done(i2, j) || (i2 == i && j == b / f0.spec_block_size())
            }
        &&& f1.verified() == if checked {
            f0.verified().update(i, matched)
        } else {
            f0.verified()
        }
        &&& s1.rqs@ == if checked {
            s0.rqs@.filter(|r: Request| r.index != index as usize)
        } else {
            s0.rqs@
        }
        &&& s1.updates@ == if matched {
            s0.updates@.push(
                Update { peer_addr: Some(addr), message: MessageType::Have { index } },
            )
        } else {
            s0.updates@
        }
        &&& s1.focused_pieces == s0.focused_pieces
        &&& s1.max_simul_pieces == s0.max_simul_pieces
    }
}

/// How one message from `addr` changes its peer record, the store and the
/// strategy: only a Piece message touches the store and the strategy.
pub open spec fn msg_step(
    p0: Peer,
    f0: OutputFile,
    s0: Strategy,
    addr: PeerAddr,
    t: Torrent,
    msg: MessageType,
    p1: Peer,
    f1: OutputFile,
    s1: Strategy,
) -> bool {
    &&& peer_step(p0, f0.spec_num_pieces(), msg, p1)
    &&& match msg {
        MessageType::Piece { index, begin, block } => piece_step(
            f0,
            s0,
            addr,
            t,
            index,
            begin,
            block@,
            f1,
            s1,
        ),
        _ => f1 == f0 && s1 == s0,
    }
}

/// `ps`, `fs`, `ss` are the peer records, stores and strategies met while
/// applying `msgs` one after another: entry `i + 1` is what message `i` makes
/// of entry `i`.
pub open spec fn is_trace(
    ps: Seq<Peer>,
    fs: Seq<OutputFile>,
    ss: Seq<Strategy>,
    addr: PeerAddr,
    t: Torrent,
    msgs: Seq<MessageType>,
) -> bool {
    &&& ps.len() == msgs.len() + 1
    &&& fs.len() == msgs.len() + 1
    &&& ss.len() == msgs.len() + 1
    &&& forall|i: int|
        0 <= i < msgs.len() ==> (#[trigger] fs[i]).wf() && msg_step(
            ps[i],
            fs[i],
            ss[i],
            addr,
            t,
            msgs[i],
            ps[i + 1],
            fs[i + 1],
            ss[i + 1],
        )
}

/// `(p1, f1, s1)` is what applying `msgs` in order to `(p0, f0, s0)` gives.
pub open spec fn applied(
    p0: Peer,
    f0: OutputFile,
    s0: Strategy,
    addr: PeerAddr,
    t: Torrent,
    msgs: Seq<MessageType>,
    p1: Peer,
    f1: OutputFile,
    s1: Strategy,
) -> bool {
    exists|ps: Seq<Peer>, fs: Seq<OutputFile>, ss: Seq<Strategy>|
        #[trigger] is_trace(ps, fs, ss, addr, t, msgs) && ps[0] == p0 && fs[0] == f0 && ss[0] == s0
            && ps.last() == p1 && fs.last() == f1 && ss.last() == s1
}

/// Applies one message received from the established peer at `peer_addr`.
pub fn apply_message(
    peer_addr: PeerAddr,
    peer: &mut Peer,
    msg: &MessageType,
    output_file: &mut OutputFile,
    strategy_state: &mut Strategy,
    torrent: &Torrent,
)
    requires
        old(output_file).wf(),
        torrent.wf(),
    ensures
        final(output_file).wf(),
        final(output_file).same_geometry(*old(output_file)),
        msg_step(
            *old(peer),
            *old(output_file),
            *old(strategy_state),
            peer_addr,
            *torrent,
            *msg,
            *final(peer),
            *final(output_file),
            *final(strategy_state),
        ),
{
    match msg {
        MessageType::Choke => {
            peer.peer_choking = true;
        },
        MessageType::Unchoke => {
            peer.peer_choking = false;
        },
        MessageType::Interested => {
            peer.peer_interested = true;
        },
        MessageType::NotInterested => {
            peer.peer_interested = false;
        },
        MessageType::Have { index } => {
            peer.set_piece_bit(*index as usize, true);
        },
        MessageType::Bitfield { field } => {
            let bits = unpack_bitfield(field, output_file.get_num_pieces());
            peer.init_piece_bitfield(bits);
            assert(peer.bitfield() =~= Seq::new(
                old(output_file).spec_num_pieces() as nat,
                |i: int| i < 8 * field@.len() && bit_of(field@, i),
            ));
        },
        MessageType::Request { index, begin, length } => {
            peer.push_request(*index as usize, *begin as usize, *length as usize);
        },
        MessageType::Piece { index, begin, block } => {
            let index = *index;
            let data = copy_bytes(block);
            let ghost f0 = *output_file;
            let written = output_file.write_block(index as usize, *begin as usize, data);
            let ghost fw = *output_file;
            proof {
                let i = index as int;
                let b = *begin as int;
                if f0.write_error(i, b, block@.len() as int) is None {
                    let w = f0.accepted_len(block@.len() as int);
                    assert(fw.byte_complete(i) == (forall|k: int|
                        0 <= k < f0.piece_len(i) ==> (#[trigger] f0.byte_done(i, k) || (b <= k
                            < b + w)))) by {
                        if fw.byte_complete(i) {
                            assert forall|k: int| 0 <= k < f0.piece_len(i) implies (
                            #[trigger] f0.byte_done(i, k) || (b <= k < b + w)) by {
                                assert(fw.byte_done(i, k));
                            }
                        }
                    }
                }
            }
            if let Ok(true) = written {
                if let Some(expected) = get_piece_hash(torrent, index as usize) {
                    complete_piece(peer_addr, index, &expected, output_file, strategy_state);
                }
            }
        },
        MessageType::Cancel { .. } => {},
        MessageType::KeepAlive => {},
    }
}

/// Applies the messages received from the established peer at `peer_addr`,
/// in arrival order: the final peer record, store and strategy are those
/// that `apply_message` gives message after message.
pub fn handle_peer(
    peer_addr: PeerAddr,
    peer: &mut Peer,
    messages: Vec<MessageType>,
    output_file: &mut OutputFile,
    strategy_state: &mut Strategy,
    torrent: &Torrent,
)
    requires
        old(output_file).wf(),
        torrent.wf(),
    ensures
        final(output_file).wf(),
        final(output_file).same_geometry(*old(output_file)),
        applied(
            *old(peer),
            *old(output_file),
            *old(strategy_state),
            peer_addr,
            *torrent,
            messages@,
            *final(peer),
            *final(output_file),
            *final(strategy_state),
        ),
{
    let mut i: usize = 0;
    let ghost mut ps: Seq<Peer> = seq![*peer];
    let ghost mut fs: Seq<OutputFile> = seq![*output_file];
    let ghost mut ss: Seq<Strategy> = seq![*strategy_state];
    while i < messages.len()
        invariant
            output_file.wf(),
            output_file.same_geometry(*old(output_file)),
            torrent.wf(),
            i <= messages@.len(),
            is_trace(ps, fs, ss, peer_addr, *torrent, messages@.take(i as int)),
            ps[0] == *old(peer),
            fs[0] == *old(output_file),
            ss[0] == *old(strategy_state),
            ps.last() == *peer,
            fs.last() == *output_file,
            ss.last() == *strategy_state,
        decreases messages@.len() - i,
    {
        let ghost p = *peer;
        let ghost f = *output_file;
        let ghost st = *strategy_state;
        apply_message(peer_addr, peer, &messages[i], output_file, strategy_state, torrent);
        proof {
            let ps0 = ps;
            let fs0 = fs;
            let ss0 = ss;
            ps = ps.push(*peer);
            fs = fs.push(*output_file);
            ss = ss.push(*strategy_state);
            let t = messages@.take(i + 1);
            assert forall|k: int| 0 <= k < t.len() implies (#[trigger] fs[k]).wf() && msg_step(
                ps[k],
                fs[k],
                ss[k],
                peer_addr,
                *torrent,
                t[k],
                ps[k + 1],
                fs[k + 1],
                ss[k + 1],
            ) by {
                if k < i {
                    assert(fs0[k].wf());
                    assert(messages@.take(i as int)[k] == t[k]);
                } else {
                    assert(ps[k] == p && fs[k] == f && ss[k] == st);
                }
            }
        }
        i = i + 1;
    }
    assert(messages@.take(i as int) =~= messages@);
}

} // verus!
