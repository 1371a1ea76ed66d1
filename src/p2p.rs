//! The peer wire protocol: length-prefixed message frames, parsed one at a
//! time from the front of a connection's byte buffer, and the fixed 68-byte
//! handshake.
use vstd::prelude::*;

verus! {

/// A wire message.
#[derive(Debug, Clone, PartialEq, Eq)]
pub enum MessageType {
    Choke,
    Unchoke,
    Interested,
    NotInterested,
    Have { index: u32 },
    /// Byte-packed piece bits, most significant bit first.
    Bitfield { field: Vec<u8> },
    Request { index: u32, begin: u32, length: u32 },
    Piece { index: u32, begin: u32, block: Vec<u8> },
    Cancel { index: u32, begin: u32, length: u32 },
    KeepAlive,
}

/// The mathematical value of a wire message.
pub enum Message {
    Choke,
    Unchoke,
    Interested,
    NotInterested,
    Have { index: u32 },
    Bitfield { field: Seq<u8> },
    Request { index: u32, begin: u32, length: u32 },
    Piece { index: u32, begin: u32, block: Seq<u8> },
    Cancel { index: u32, begin: u32, length: u32 },
    KeepAlive,
}

impl View for MessageType {
    type V = Message;

    open spec fn view(&self) -> Message {
        match self {
            MessageType::Choke => Message::Choke,
            MessageType::Unchoke => Message::Unchoke,
            MessageType::Interested => Message::Interested,
            MessageType::NotInterested => Message::NotInterested,
            MessageType::Have { index } => Message::Have { index: *index },
            MessageType::Bitfield { field } => Message::Bitfield { field: field@ },
            MessageType::Request { index, begin, length } => Message::Request {
                index: *index,
                begin: *begin,
                length: *length,
            },
            MessageType::Piece { index, begin, block } => Message::Piece {
                index: *index,
                begin: *begin,
                block: block@,
            },
            MessageType::Cancel { index, begin, length } => Message::Cancel {
                index: *index,
                begin: *begin,
                length: *length,
            },
            MessageType::KeepAlive => Message::KeepAlive,
        }
    }
}

/// The four big-endian bytes of `n`.
pub open spec fn be32(n: u32) -> Seq<u8> {
    seq![(n >> 24u32) as u8, (n >> 16u32) as u8, (n >> 8u32) as u8, n as u8]
}

/// The number held big-endian in the first four bytes of `b`.
pub open spec fn be_u32(b: Seq<u8>) -> u32 {
    ((b[0] as u32) << 24u32) | ((b[1] as u32) << 16u32) | ((b[2] as u32) << 8u32) | (b[3] as u32)
}

/// A message whose frame length fits the four-byte prefix.
pub open spec fn encodable(m: Message) -> bool {
    match m {
        Message::Bitfield { field } => field.len() + 1 <= u32::MAX,
        Message::Piece { block, .. } => block.len() + 9 <= u32::MAX,
        _ => true,
    }
}

/// The frame of message `m`: length prefix, id, payload.
pub open spec fn encode(m: Message) -> Seq<u8> {
    match m {
        Message::Choke => be32(1) + seq![0u8],
        Message::Unchoke => be32(1) + seq![1u8],
        Message::Interested => be32(1) + seq![2u8],
        Message::NotInterested => be32(1) + seq![3u8],
        Message::Have { index } => be32(5) + seq![4u8] + be32(index),
        Message::Bitfield { field } => be32((field.len() + 1) as u32) + seq![5u8] + field,
        Message::Request { index, begin, length } => be32(13) + seq![6u8] + be32(index) + be32(
            begin,
        ) + be32(length),
        Message::Piece { index, begin, block } => be32((block.len() + 9) as u32) + seq![7u8]
            + be32(index) + be32(begin) + block,
        Message::Cancel { index, begin, length } => be32(13) + seq![8u8] + be32(index) + be32(
            begin,
        ) + be32(length),
        Message::KeepAlive => be32(0),
    }
}

/// The frames of `ms`, one after another.
pub open spec fn encode_all(ms: Seq<Message>) -> Seq<u8>
    decreases ms.len(),
{
    if ms.len() == 0 {
        Seq::empty()
    } else {
        encode_all(ms.drop_last()) + encode(ms.last())
    }
}

/// What the front of a buffer holds.
pub enum Parsed {
    /// Fewer bytes than the frame declares: wait for more.
    Incomplete,
    /// A length and id that match no message: the connection is out of step.
    Malformed,
    /// A message, in the first `len` bytes.
    Frame { msg: Message, len: nat },
}

/// How the front of `buf` parses.
pub open spec fn parse_frame(buf: Seq<u8>) -> Parsed {
    if buf.len() < 4 {
        Parsed::Incomplete
    } else {
        let n = be_u32(buf) as int;
        if buf.len() < n + 4 {
            Parsed::Incomplete
        } else if n == 0 {
            Parsed::Frame { msg: Message::KeepAlive, len: 4 }
        } else {
            let id = buf[4];
            let body = buf.subrange(5, n + 4);
            if n == 1 && id == 0 {
                Parsed::Frame { msg: Message::Choke, len: 5 }
            } else if n == 1 && id == 1 {
                Parsed::Frame { msg: Message::Unchoke, len: 5 }
            } else if n == 1 && id == 2 {
                Parsed::Frame { msg: Message::Interested, len: 5 }
            } else if n == 1 && id == 3 {
                Parsed::Frame { msg: Message::NotInterested, len: 5 }
            } else if n == 5 && id == 4 {
                Parsed::Frame { msg: Message::Have { index: be_u32(body) }, len: 9 }
            } else if id == 5 {
                Parsed::Frame { msg: Message::Bitfield { field: body }, len: (n + 4) as nat }
            } else if n == 13 && id == 6 {
                Parsed::Frame {
                    msg: Message::Request {
                        index: be_u32(body),
                        begin: be_u32(body.subrange(4, 8)),
                        length: be_u32(body.subrange(8, 12)),
                    },
                    len: 17,
                }
            } else if n >= 9 && id == 7 {
                Parsed::Frame {
                    msg: Message::Piece {
                        index: be_u32(body),
                        begin: be_u32(body.subrange(4, 8)),
                        block: body.subrange(8, n - 1),
                    },
                    len: (n + 4) as nat,
                }
            } else if n == 13 && id == 8 {
                Parsed::Frame {
                    msg: Message::Cancel {
                        index: be_u32(body),
                        begin: be_u32(body.subrange(4, 8)),
                        length: be_u32(body.subrange(8, 12)),
                    },
                    len: 17,
                }
            } else {
                Parsed::Malformed
            }
        }
    }
}

/// Reads the big-endian number at `at .. at + 4` of `buf`.
fn read_u32_be(buf: &Vec<u8>, at: usize) -> (r: u32)
    requires
        at + 4 <= buf@.len(),
    ensures
        r == be_u32(buf@.subrange(at as int, at + 4)),
{
    let _ = buf.len();
    let b0 = buf[at] as u32;
    let b1 = buf[at + 1] as u32;
    let b2 = buf[at + 2] as u32;
    let b3 = buf[at + 3] as u32;
    (b0 << 24u32) | (b1 << 16u32) | (b2 << 8u32) | b3
}

/// Appends the four big-endian bytes of `n`.
fn push_u32_be(out: &mut Vec<u8>, n: u32)
    ensures
        final(out)@ == old(out)@ + be32(n),
{
    out.push((n >> 24u32) as u8);
    out.push((n >> 16u32) as u8);
    out.push((n >> 8u32) as u8);
    out.push(n as u8);
    assert(final(out)@ =~= old(out)@ + be32(n));
}

/// Appends `bytes`.
pub(crate) fn push_bytes(out: &mut Vec<u8>, bytes: &Vec<u8>)
    ensures
        final(out)@ == old(out)@ + bytes@,
{
    let ghost start = out@;
    let mut i: usize = 0;
    while i < bytes.len()
        invariant
            i <= bytes@.len(),
            out@ == start + bytes@.subrange(0, i as int),
        decreases bytes@.len() - i,
    {
        out.push(bytes[i]);
        i = i + 1;
        assert(out@ =~= start + bytes@.subrange(0, i as int));
    }
    assert(bytes@.subrange(0, bytes@.len() as int) =~= bytes@);
}

/// A copy of `v`.
pub(crate) fn copy_bytes(v: &Vec<u8>) -> (r: Vec<u8>)
    ensures
        r@ == v@,
{
    let r = copy_range(v, 0, v.len());
    assert(v@.subrange(0, v@.len() as int) =~= v@);
    r
}

/// The bytes of `buf` from `from` to `to`.
fn copy_range(buf: &Vec<u8>, from: usize, to: usize) -> (r: Vec<u8>)
    requires
        from <= to <= buf@.len(),
    ensures
        r@ == buf@.subrange(from as int, to as int),
{
    let mut r: Vec<u8> = Vec::with_capacity(to - from);
    let mut i: usize = from;
    while i < to
        invariant
            from <= i <= to,
            to <= buf@.len(),
            r@ == buf@.subrange(from as int, i as int),
        decreases to - i,
    {
        r.push(buf[i]);
        i = i + 1;
        assert(r@ =~= buf@.subrange(from as int, i as int));
    }
    r
}

/// Takes at most one message off the front of `buf`. Where the buffer holds
/// less than the frame its prefix declares, nothing is taken and `None` comes
/// back: call again once more bytes have arrived. Where the frame's length and
/// id match no message, the whole buffer is discarded and `None` comes back.
pub fn parse_message(buf: &mut Vec<u8>) -> (r: Option<MessageType>)
    ensures
        match parse_frame(old(buf)@) {
            Parsed::Incomplete => r is None && final(buf)@ == old(buf)@,
            Parsed::Malformed => r is None && final(buf)@.len() == 0,
            Parsed::Frame { msg, len } => {
                &&& r matches Some(m) && m@ == msg
                &&& final(buf)@ == old(buf)@.subrange(len as int, old(buf)@.len() as int)
            },
        },
{
    if buf.len() < 4 {
        return None;
    }
    let n = read_u32_be(buf, 0);
    assert(buf@.subrange(0, 4) =~= buf@.take(4));
    assert(be_u32(buf@.subrange(0, 4)) == be_u32(buf@)) by {
        assert(buf@.subrange(0, 4)[0] == buf@[0]);
        assert(buf@.subrange(0, 4)[1] == buf@[1]);
        assert(buf@.subrange(0, 4)[2] == buf@[2]);
        assert(buf@.subrange(0, 4)[3] == buf@[3]);
    }
    if (buf.len() as u64) < (n as u64) + 4 {
        return None;
    }
    let total: usize = n as usize + 4;
    let ghost body = buf@.subrange(5, total as int);
    let msg = if n == 0 {
        MessageType::KeepAlive
    } else {
        let id = buf[4];
        if n == 1 && id == 0 {
            MessageType::Choke
        } else if n == 1 && id == 1 {
            MessageType::Unchoke
        } else if n == 1 && id == 2 {
            MessageType::Interested
        } else if n == 1 && id == 3 {
            MessageType::NotInterested
        } else if n == 5 && id == 4 {
            let index = read_u32_be(buf, 5);
            assert(buf@.subrange(5, 9) =~= body.subrange(0, 4));
            assert(be_u32(body.subrange(0, 4)) == be_u32(body)) by {
                lemma_be_u32_prefix(body);
            }
            MessageType::Have { index }
        } else if id == 5 {
            MessageType::Bitfield { field: copy_range(buf, 5, total) }
        } else if n == 13 && (id == 6 || id == 8) {
            let index = read_u32_be(buf, 5);
            let begin = read_u32_be(buf, 9);
            let length = read_u32_be(buf, 13);
            assert(buf@.subrange(5, 9) =~= body.subrange(0, 4));
            assert(buf@.subrange(9, 13) =~= body.subrange(4, 8));
            assert(buf@.subrange(13, 17) =~= body.subrange(8, 12));
            assert(be_u32(body.subrange(0, 4)) == be_u32(body)) by {
                lemma_be_u32_prefix(body);
            }
            if id == 6 {
                MessageType::Request { index, begin, length }
            } else {
                MessageType::Cancel { index, begin, length }
            }
        } else if n >= 9 && id == 7 {
            let index = read_u32_be(buf, 5);
            let begin = read_u32_be(buf, 9);
            assert(buf@.subrange(5, 9) =~= body.subrange(0, 4));
            assert(buf@.subrange(9, 13) =~= body.subrange(4, 8));
            assert(be_u32(body.subrange(0, 4)) == be_u32(body)) by {
                lemma_be_u32_prefix(body);
            }
            let block = copy_range(buf, 13, total);
            assert(block@ =~= body.subrange(8, n - 1));
            MessageType::Piece { index, begin, block }
        } else {
            buf.clear();
            return None;
        }
    };
    let rest = copy_range(buf, total, buf.len());
    *buf = rest;
    Some(msg)
}

/// Appends a frame with length prefix `len` and message id `id`.
fn send_len_id(sendbuf: &mut Vec<u8>, len: u32, id: u8)
    ensures
        final(sendbuf)@ == old(sendbuf)@ + be32(len) + seq![id],
{
    push_u32_be(sendbuf, len);
    sendbuf.push(id);
}

fn send_have(buf: &mut Vec<u8>, index: u32)
    ensures
        final(buf)@ == old(buf)@ + encode(Message::Have { index }),
{
    send_len_id(buf, 5, 4);
    push_u32_be(buf, index);
    assert(final(buf)@ =~= old(buf)@ + encode(Message::Have { index }));
}

fn send_bitfield(buf: &mut Vec<u8>, field: &Vec<u8>)
    requires
        field@.len() + 1 <= u32::MAX,
    ensures
        final(buf)@ == old(buf)@ + encode(Message::Bitfield { field: field@ }),
{
    send_len_id(buf, field.len() as u32 + 1, 5);
    push_bytes(buf, field);
    assert(final(buf)@ =~= old(buf)@ + encode(Message::Bitfield { field: field@ }));
}

/// Appends a Request frame, or a Cancel frame where `is_request_message` is false.
fn send_request_or_cancel(
    buf: &mut Vec<u8>,
    is_request_message: bool,
    index: u32,
    begin: u32,
    length: u32,
)
    ensures
        final(buf)@ == old(buf)@ + if is_request_message {
            encode(Message::Request { index, begin, length })
        } else {
            encode(Message::Cancel { index, begin, length })
        },
{
    send_len_id(buf, 13, if is_request_message { 6 } else { 8 });
    push_u32_be(buf, index);
    push_u32_be(buf, begin);
    push_u32_be(buf, length);
    if is_request_message {
        assert(final(buf)@ =~= old(buf)@ + encode(Message::Request { index, begin, length }));
    } else {
        assert(final(buf)@ =~= old(buf)@ + encode(Message::Cancel { index, begin, length }));
    }
}

fn send_piece(buf: &mut Vec<u8>, index: u32, begin: u32, block: &Vec<u8>)
    requires
        block@.len() + 9 <= u32::MAX,
    ensures
        final(buf)@ == old(buf)@ + encode(Message::Piece { index, begin, block: block@ }),
{
    send_len_id(buf, block.len() as u32 + 9, 7);
    push_u32_be(buf, index);
    push_u32_be(buf, begin);
    push_bytes(buf, block);
    assert(final(buf)@ =~= old(buf)@ + encode(Message::Piece { index, begin, block: block@ }));
}

impl MessageType {
    /// Appends the frame of this message to `buf`.
    pub fn send(&self, buf: &mut Vec<u8>)
        requires
            encodable(self@),
        ensures
            final(buf)@ == old(buf)@ + encode(self@),
    {
        match self {
            MessageType::Choke => send_len_id(buf, 1, 0),
            MessageType::Unchoke => send_len_id(buf, 1, 1),
            MessageType::Interested => send_len_id(buf, 1, 2),
            MessageType::NotInterested => send_len_id(buf, 1, 3),
            MessageType::Have { index } => send_have(buf, *index),
            MessageType::Bitfield { field } => send_bitfield(buf, field),
            MessageType::Request { index, begin, length } => send_request_or_cancel(
                buf,
                true,
                *index,
                *begin,
                *length,
            ),
            MessageType::Piece { index, begin, block } => send_piece(buf, *index, *begin, block),
            MessageType::Cancel { index, begin, length } => send_request_or_cancel(
                buf,
                false,
                *index,
                *begin,
                *length,
            ),
            MessageType::KeepAlive => push_u32_be(buf, 0),
        }
    }
}

impl MessageType {
    /// A message built anew with the same value.
    pub fn duplicate(&self) -> (r: MessageType)
        ensures
            r@ == self@,
    {
        match self {
            MessageType::Choke => MessageType::Choke,
            MessageType::Unchoke => MessageType::Unchoke,
            MessageType::Interested => MessageType::Interested,
            MessageType::NotInterested => MessageType::NotInterested,
            MessageType::Have { index } => MessageType::Have { index: *index },
            MessageType::Bitfield { field } => MessageType::Bitfield { field: copy_bytes(field) },
            MessageType::Request { index, begin, length } => MessageType::Request {
                index: *index,
                begin: *begin,
                length: *length,
            },
            MessageType::Piece { index, begin, block } => MessageType::Piece {
                index: *index,
                begin: *begin,
                block: copy_bytes(block),
            },
            MessageType::Cancel { index, begin, length } => MessageType::Cancel {
                index: *index,
                begin: *begin,
                length: *length,
            },
            MessageType::KeepAlive => MessageType::KeepAlive,
        }
    }
}

/// The frame of `message`.
pub fn serialize(message: &MessageType) -> (r: Vec<u8>)
    requires
        encodable(message@),
    ensures
        r@ == encode(message@),
{
    let mut buf: Vec<u8> = Vec::new();
    message.send(&mut buf);
    assert(buf@ =~= encode(message@));
    buf
}

/// The outbound message queue of a connection.
#[derive(Debug, Clone)]
pub struct Messages {
    pub messages: Vec<MessageType>,
}

/// The values of a list of messages.
pub open spec fn views(ms: Seq<MessageType>) -> Seq<Message> {
    ms.map_values(|m: MessageType| m@)
}

impl Messages {
    pub fn new() -> (r: Self)
        ensures
            r.messages@.len() == 0,
    {
        Messages { messages: Vec::new() }
    }

    /// Appends the frames of all queued messages, in order, to `buf`.
    pub fn send_messages(&self, buf: &mut Vec<u8>)
        requires
            forall|i: int| 0 <= i < self.messages@.len() ==> encodable(#[trigger] self.messages@[i]@),
        ensures
            final(buf)@ == old(buf)@ + encode_all(views(self.messages@)),
    {
        let ghost start = buf@;
        let mut i: usize = 0;
        while i < self.messages.len()
            invariant
                i <= self.messages@.len(),
                forall|j: int| 0 <= j < self.messages@.len() ==> encodable(#[trigger] self.messages@[j]@),
                buf@ == start + encode_all(views(self.messages@.take(i as int))),
            decreases self.messages@.len() - i,
        {
            self.messages[i].send(buf);
            proof {
                let ms = views(self.messages@.take(i + 1));
                assert(ms.drop_last() =~= views(self.messages@.take(i as int)));
                assert(ms.last() == self.messages@[i as int]@);
            }
            i = i + 1;
        }
        assert(self.messages@.take(i as int) =~= self.messages@);
    }
}

/// The big-endian bytes of `n` read back give `n`.
proof fn lemma_be32_round(n: u32, rest: Seq<u8>)
    ensures
        be_u32(be32(n) + rest) == n,
{
    let b = be32(n) + rest;
    assert(b[0] == (n >> 24u32) as u8);
    assert(b[1] == (n >> 16u32) as u8);
    assert(b[2] == (n >> 8u32) as u8);
    assert(b[3] == n as u8);
    assert(((((n >> 24u32) as u8) as u32) << 24u32) | ((((n >> 16u32) as u8) as u32) << 16u32)
        | ((((n >> 8u32) as u8) as u32) << 8u32) | ((n as u8) as u32) == n) by (bit_vector);
}

/// Serialising then parsing gives back the same message: the frame of `m`,
/// followed by any bytes, parses as `m` and takes exactly the frame's bytes.
pub proof fn lemma_round_trip(m: Message, rest: Seq<u8>)
    requires
        encodable(m),
    ensures
        parse_frame(encode(m) + rest) == (Parsed::Frame { msg: m, len: encode(m).len() }),
{
    let e = encode(m);
    let b = e + rest;
    assert(b.subrange(0, e.len() as int) =~= e);
    match m {
        Message::Choke => {
            lemma_be32_round(1, seq![0u8] + rest);
            assert(b =~= be32(1) + (seq![0u8] + rest));
        },
        Message::Unchoke => {
            lemma_be32_round(1, seq![1u8] + rest);
            assert(b =~= be32(1) + (seq![1u8] + rest));
        },
        Message::Interested => {
            lemma_be32_round(1, seq![2u8] + rest);
            assert(b =~= be32(1) + (seq![2u8] + rest));
        },
        Message::NotInterested => {
            lemma_be32_round(1, seq![3u8] + rest);
            assert(b =~= be32(1) + (seq![3u8] + rest));
        },
        Message::KeepAlive => {
            lemma_be32_round(0, rest);
        },
        Message::Have { index } => {
            let tail = seq![4u8] + be32(index) + rest;
            lemma_be32_round(5, tail);
            assert(b =~= be32(5) + tail);
            lemma_be32_round(index, rest);
            assert(b.subrange(5, 9) + rest =~= be32(index) + rest);
            lemma_be_u32_prefix(b.subrange(5, 9) + rest);
            assert((b.subrange(5, 9) + rest).subrange(0, 4) =~= b.subrange(5, 9));
            lemma_be_u32_prefix(b.subrange(5, 9));
        },
        Message::Bitfield { field } => {
            let n = (field.len() + 1) as u32;
            let tail = seq![5u8] + field + rest;
            lemma_be32_round(n, tail);
            assert(b =~= be32(n) + tail);
            assert(b.subrange(5, n + 4) =~= field);
        },
        Message::Request { index, begin, length } => {
            lemma_fields3(6, index, begin, length, rest);
        },
        Message::Cancel { index, begin, length } => {
            lemma_fields3(8, index, begin, length, rest);
        },
        Message::Piece { index, begin, block } => {
            lemma_piece_fields(index, begin, block, rest);
        },
    }
}

/// The frame of a Piece message parses into its fields.
proof fn lemma_piece_fields(index: u32, begin: u32, block: Seq<u8>, rest: Seq<u8>)
    requires
        block.len() + 9 <= u32::MAX,
    ensures
        ({
            let m = Message::Piece { index, begin, block };
            parse_frame(encode(m) + rest) == (Parsed::Frame { msg: m, len: encode(m).len() })
        }),
{
    let m = Message::Piece { index, begin, block };
    let b = encode(m) + rest;
    let n = (block.len() + 9) as u32;
    let tail = seq![7u8] + be32(index) + be32(begin) + block + rest;
    lemma_be32_round(n, tail);
    assert(b =~= be32(n) + tail);
    let body = b.subrange(5, n + 4);
    assert(body =~= be32(index) + (be32(begin) + block));
    lemma_be32_round(index, be32(begin) + block);
    assert(body.subrange(4, 8) =~= be32(begin));
    lemma_be32_round(begin, Seq::empty());
    assert(be32(begin) + Seq::<u8>::empty() =~= be32(begin));
    assert(body.subrange(8, n - 1) =~= block);
}

/// The frame of a request-shaped message with id `id` parses into its three fields.
proof fn lemma_fields3(id: u8, index: u32, begin: u32, length: u32, rest: Seq<u8>)
    requires
        id == 6 || id == 8,
    ensures
        ({
            let b = be32(13) + seq![id] + be32(index) + be32(begin) + be32(length) + rest;
            let body = b.subrange(5, 17);
            &&& be_u32(b) == 13
            &&& b.len() >= 17
            &&& b[4] == id
            &&& be_u32(body) == index
            &&& be_u32(body.subrange(4, 8)) == begin
            &&& be_u32(body.subrange(8, 12)) == length
        }),
{
    let b = be32(13) + seq![id] + be32(index) + be32(begin) + be32(length) + rest;
    let body = b.subrange(5, 17);
    lemma_be32_round(13, seq![id] + be32(index) + be32(begin) + be32(length) + rest);
    assert(b =~= be32(13) + (seq![id] + be32(index) + be32(begin) + be32(length) + rest));
    assert(body =~= be32(index) + (be32(begin) + be32(length)));
    lemma_be32_round(index, be32(begin) + be32(length));
    assert(body.subrange(4, 8) =~= be32(begin) + Seq::<u8>::empty());
    lemma_be32_round(begin, Seq::empty());
    assert(body.subrange(8, 12) =~= be32(length) + Seq::<u8>::empty());
    lemma_be32_round(length, Seq::empty());
}

/// Parsing is resumable: any proper prefix of a frame parses as incomplete, so
/// a buffer fed a byte at a time yields nothing until the whole frame is there,
/// and then yields the message that the whole frame gives at once.
pub proof fn lemma_prefix_incomplete(m: Message, k: int)
    requires
        encodable(m),
        0 <= k < encode(m).len(),
    ensures
        parse_frame(encode(m).take(k)) == Parsed::Incomplete,
        parse_frame(encode(m)) == (Parsed::Frame { msg: m, len: encode(m).len() }),
{
    let e = encode(m);
    lemma_round_trip(m, Seq::empty());
    assert(e + Seq::<u8>::empty() =~= e);
    if k >= 4 {
        let p = e.take(k);
        assert(p[0] == e[0] && p[1] == e[1] && p[2] == e[2] && p[3] == e[3]);
        assert(be_u32(p) == be_u32(e));
    }
}

/// The protocol name that a handshake carries after its length byte.
pub const PROTOCOL: [u8; 19] = [
    66, 105, 116, 84, 111, 114, 114, 101, 110, 116, 32, 112, 114, 111, 116, 111, 99, 111, 108,
];

/// The handshake: 19, the protocol name, eight zero bytes, the info hash and
/// the sender's peer id.
pub open spec fn handshake_bytes(info_hash: Seq<u8>, peer_id: Seq<u8>) -> Seq<u8> {
    seq![19u8] + PROTOCOL@ + Seq::new(8, |i: int| 0u8) + info_hash + peer_id
}

/// Why a received handshake was refused.
#[derive(Debug, Clone, Copy, PartialEq, Eq, Structural)]
pub enum HandshakeError {
    /// It is not 68 bytes long.
    WrongSize,
    /// Its first byte is not 19.
    BadLength,
    /// It does not name the BitTorrent protocol.
    BadProtocol,
    /// It is for another torrent.
    BadInfoHash,
}

/// Why the handshake `buf` is refused, for a torrent with `info_hash`.
pub open spec fn handshake_error(buf: Seq<u8>, info_hash: Seq<u8>) -> Option<HandshakeError> {
    if buf.len() != 68 {
        Some(HandshakeError::WrongSize)
    } else if buf[0] != 19 {
        Some(HandshakeError::BadLength)
    } else if buf.subrange(1, 20) != PROTOCOL@ {
        Some(HandshakeError::BadProtocol)
    } else if buf.subrange(28, 48) != info_hash {
        Some(HandshakeError::BadInfoHash)
    } else {
        None
    }
}

/// The 68-byte handshake that opens a connection.
pub fn build_handshake(info_hash: &[u8; 20], peer_id: &[u8; 20]) -> (r: Vec<u8>)
    ensures
        r@ == handshake_bytes(info_hash@, peer_id@),
{
    let mut buf: Vec<u8> = Vec::with_capacity(68);
    buf.push(19);
    let mut i: usize = 0;
    while i < 19
        invariant
            i <= 19,
            buf@ == seq![19u8] + PROTOCOL@.take(i as int),
        decreases 19 - i,
    {
        buf.push(PROTOCOL[i]);
        i = i + 1;
        assert(buf@ =~= seq![19u8] + PROTOCOL@.take(i as int));
    }
    let mut z: usize = 0;
    while z < 8
        invariant
            z <= 8,
            buf@ == seq![19u8] + PROTOCOL@ + Seq::new(z as nat, |i: int| 0u8),
        decreases 8 - z,
    {
        buf.push(0);
        z = z + 1;
        assert(buf@ =~= seq![19u8] + PROTOCOL@ + Seq::new(z as nat, |i: int| 0u8));
    }
    let ghost head = buf@;
    let mut h: usize = 0;
    while h < 20
        invariant
            h <= 20,
            buf@ == head + info_hash@.take(h as int),
        decreases 20 - h,
    {
        buf.push(info_hash[h]);
        h = h + 1;
        assert(buf@ =~= head + info_hash@.take(h as int));
    }
    assert(info_hash@.take(20) =~= info_hash@);
    let ghost head2 = buf@;
    let mut p: usize = 0;
    while p < 20
        invariant
            p <= 20,
            buf@ == head2 + peer_id@.take(p as int),
        decreases 20 - p,
    {
        buf.push(peer_id[p]);
        p = p + 1;
        assert(buf@ =~= head2 + peer_id@.take(p as int));
    }
    assert(peer_id@.take(20) =~= peer_id@);
    buf
}

/// Checks a received handshake against the torrent's `info_hash` and gives
/// back the sender's peer id.
pub fn check_handshake(buf: &Vec<u8>, info_hash: &[u8; 20]) -> (r: Result<[u8; 20], HandshakeError>)
    ensures
        match r {
            Err(e) => handshake_error(buf@, info_hash@) == Some(e),
            Ok(id) => handshake_error(buf@, info_hash@) is None && id@ == buf@.subrange(48, 68),
        },
{
    if buf.len() != 68 {
        return Err(HandshakeError::WrongSize);
    }
    if buf[0] != 19 {
        return Err(HandshakeError::BadLength);
    }
    let mut i: usize = 0;
    while i < 19
        invariant
            buf@.len() == 68,
            buf@[0] == 19,
            i <= 19,
            forall|t: int| 0 <= t < i ==> buf@[1 + t] == PROTOCOL@[t],
        decreases 19 - i,
    {
        if buf[1 + i] != PROTOCOL[i] {
            assert(buf@.subrange(1, 20)[i as int] != PROTOCOL@[i as int]);
            assert(buf@.subrange(1, 20) != PROTOCOL@);
            return Err(HandshakeError::BadProtocol);
        }
        i = i + 1;
    }
    assert(buf@.subrange(1, 20) =~= PROTOCOL@);
    let mut h: usize = 0;
    while h < 20
        invariant
            buf@.len() == 68,
            buf@[0] == 19,
            buf@.subrange(1, 20) == PROTOCOL@,
            h <= 20,
            forall|t: int| 0 <= t < h ==> buf@[28 + t] == info_hash@[t],
        decreases 20 - h,
    {
        if buf[28 + h] != info_hash[h] {
            assert(buf@.subrange(28, 48)[h as int] != info_hash@[h as int]);
            assert(buf@.subrange(28, 48) != info_hash@);
            return Err(HandshakeError::BadInfoHash);
        }
        h = h + 1;
    }
    assert(buf@.subrange(28, 48) =~= info_hash@);
    let mut id: [u8; 20] = [0u8; 20];
    let mut p: usize = 0;
    while p < 20
        invariant
            buf@.len() == 68,
            p <= 20,
            id@.len() == 20,
            forall|t: int| 0 <= t < p ==> id@[t] == buf@[48 + t],
        decreases 20 - p,
    {
        id[p] = buf[48 + p];
        p = p + 1;
    }
    assert(id@ =~= buf@.subrange(48, 68));
    Ok(id)
}

/// Bit `i` of a byte-packed bitfield, most significant bit first.
pub open spec fn bit_of(bytes: Seq<u8>, i: int) -> bool {
    (bytes[i / 8] >> ((7 - i % 8) as u8)) & 1u8 == 1u8
}

/// The first `n` bits of the byte-packed bitfield `field`; bits that the
/// field does not hold are taken as unset.
pub fn unpack_bitfield(field: &Vec<u8>, n: usize) -> (r: Vec<bool>)
    ensures
        r@.len() == n,
        forall|i: int|
            0 <= i < n ==> #[trigger] r@[i] == (i < 8 * field@.len() && bit_of(field@, i)),
{
    let mut r: Vec<bool> = Vec::with_capacity(n);
    let mut i: usize = 0;
    while i < n
        invariant
            i <= n,
            r@.len() == i,
            forall|j: int|
                0 <= j < i ==> #[trigger] r@[j] == (j < 8 * field@.len() && bit_of(field@, j)),
        decreases n - i,
    {
        let bit = if i / 8 < field.len() {
            (field[i / 8] >> ((7 - i % 8) as u8)) & 1u8 == 1u8
        } else {
            false
        };
        r.push(bit);
        i = i + 1;
    }
    r
}

/// Setting bit `j` of a byte, most significant first, leaves the other bits.
proof fn lemma_set_bit(b: u8, j: u8, t: u8)
    requires
        j < 8,
        t < 8,
    ensures
        t == j ==> ((b | (1u8 << ((7 - j) as u8))) >> ((7 - t) as u8)) & 1u8 == 1u8,
        t != j ==> ((b | (1u8 << ((7 - j) as u8))) >> ((7 - t) as u8)) & 1u8 == (b >> ((7 - t) as u8)) & 1u8,
{
    assert(t == j ==> ((b | (1u8 << ((7 - j) as u8))) >> ((7 - t) as u8)) & 1u8 == 1u8) by (bit_vector)
        requires
            j < 8,
            t < 8,
    ;
    assert(t != j ==> ((b | (1u8 << ((7 - j) as u8))) >> ((7 - t) as u8)) & 1u8 == (b >> ((7 - t) as u8)) & 1u8)
        by (bit_vector)
        requires
            j < 8,
            t < 8,
    ;
}

/// Every bit of the zero byte is unset.
proof fn lemma_zero_bits(t: u8)
    requires
        t < 8,
    ensures
        (0u8 >> ((7 - t) as u8)) & 1u8 == 0u8,
{
    assert((0u8 >> ((7 - t) as u8)) & 1u8 == 0u8) by (bit_vector)
        requires
            t < 8,
    ;
}

/// Packs `bits` into bytes, most significant bit first, the bits beyond the
/// last padded with zeros.
pub fn pack_bitfield(bits: &Vec<bool>) -> (r: Vec<u8>)
    ensures
        r@.len() == (bits@.len() + 7) / 8,
        forall|i: int| 0 <= i < bits@.len() ==> #[trigger] bit_of(r@, i) == bits@[i],
        forall|i: int| bits@.len() <= i < 8 * r@.len() ==> !#[trigger] bit_of(r@, i),
{
    let n = bits.len();
    let nbytes: usize = n / 8 + if n % 8 == 0 { 0usize } else { 1usize };
    let mut r: Vec<u8> = Vec::with_capacity(nbytes);
    let mut q: usize = 0;
    while q < nbytes
        invariant
            n == bits@.len(),
            nbytes == (n + 7) / 8,
            q <= nbytes,
            r@.len() == q,
            forall|i: int| 0 <= i < 8 * q && i < n ==> #[trigger] bit_of(r@, i) == bits@[i],
            forall|i: int| n <= i < 8 * q ==> !#[trigger] bit_of(r@, i),
        decreases nbytes - q,
    {
        let mut b: u8 = 0;
        proof {
            assert forall|t: u8| t < 8 implies #[trigger] ((b >> ((7 - t) as u8)) & 1u8) == 0u8 by {
                lemma_zero_bits(t);
            }
        }
        let mut j: usize = 0;
        while j < 8
            invariant
                n == bits@.len(),
                q < nbytes,
                nbytes == (n + 7) / 8,
                j <= 8,
                forall|t: u8|
                    t < 8 ==> #[trigger] ((b >> ((7 - t) as u8)) & 1u8) == if (t as int) < j && 8 * q + t < n
                        && bits@[8 * q + t] {
                        1u8
                    } else {
                        0u8
                    },
            decreases 8 - j,
        {
            let idx = 8 * q + j;
            if idx < n && bits[idx] {
                let ghost old_b = b;
                b = b | (1u8 << (7 - j as u8));
                proof {
                    assert forall|t: u8| t < 8 implies #[trigger] ((b >> ((7 - t) as u8)) & 1u8) == if (t
                        as int) < j + 1 && 8 * q + t < n && bits@[8 * q + t] {
                        1u8
                    } else {
                        0u8
                    } by {
                        lemma_set_bit(old_b, j as u8, t);
                    }
                }
            }
            j = j + 1;
        }
        let ghost before = r@;
        r.push(b);
        proof {
            assert forall|i: int| 0 <= i < 8 * (q + 1) && i < n implies #[trigger] bit_of(r@, i)
                == bits@[i] by {
                if i < 8 * q {
                    assert(r@[i / 8] == before[i / 8]);
                    assert(bit_of(before, i) == bit_of(r@, i));
                } else {
                    let t = (i - 8 * q) as u8;
                    assert(i / 8 == q);
                    assert(i % 8 == t);
                    assert(8 * q + t == i);
                    assert(r@[q as int] == b);
                    assert(((b >> ((7 - t) as u8)) & 1u8) == if (t as int) < 8 && 8 * q + t < n
                        && bits@[8 * q + t] {
                        1u8
                    } else {
                        0u8
                    });
                }
            }
            assert forall|i: int| n <= i < 8 * (q + 1) implies !#[trigger] bit_of(r@, i) by {
                if i < 8 * q {
                    assert(r@[i / 8] == before[i / 8]);
                } else {
                    let t = (i - 8 * q) as u8;
                    assert(i / 8 == q);
                    assert(i % 8 == t);
                    assert(8 * q + t == i);
                    assert(r@[q as int] == b);
                    assert(((b >> ((7 - t) as u8)) & 1u8) == if (t as int) < 8 && 8 * q + t < n
                        && bits@[8 * q + t] {
                        1u8
                    } else {
                        0u8
                    });
                }
            }
        }
        q = q + 1;
    }
    r
}

/// `be_u32` reads only the first four bytes.
proof fn lemma_be_u32_prefix(b: Seq<u8>)
    requires
        b.len() >= 4,
    ensures
        be_u32(b.subrange(0, 4)) == be_u32(b),
{
    assert(b.subrange(0, 4)[0] == b[0]);
    assert(b.subrange(0, 4)[1] == b[1]);
    assert(b.subrange(0, 4)[2] == b[2]);
    assert(b.subrange(0, 4)[3] == b[3]);
}

} // verus!
