//! What nodes send each other: frames, and the messages in them.
use crate::bytes;
use crate::bytes::{append_bytes, copy_bytes, from_le, read32, to_le};
use crate::codec;
use crate::codec::{
    deserialize_block, deserialize_headers, deserialize_strings, deserialize_tx, serialize_block,
    serialize_headers, serialize_strings, serialize_tx,
};
use crate::errors::{invalid_block, other, ChainError, Fault};
use crate::params::{MAX_COMPRESSED_SIZE, MAX_MSG_DECOMPRESSED};
use crate::tx;
use crate::tx::{make_no_id, Block, BlockHeader, Transaction};
use vstd::prelude::*;

verus! {

/// The largest frame.
pub const MAX_MESSAGE_SIZE: usize = 4_194_304;

/// The largest message that is not compressed.
pub const MAX_PLAIN_SIZE: usize = 1024;

/// Names a transaction that the sender has.
pub const MSG_INV_TX: u32 = 1;

/// Names a block that the sender has.
pub const MSG_INV_BLOCK: u32 = 2;

/// Asks for a transaction or a block.
pub const MSG_GETDATA: u32 = 3;

/// Asks for headers.
pub const MSG_GETHEADERS: u32 = 4;

/// Brings a transaction.
pub const MSG_TX: u32 = 5;

/// Brings a block.
pub const MSG_BLOCK: u32 = 6;

/// Brings headers.
pub const MSG_HEADERS: u32 = 8;

/// Asks for the addresses of peers.
pub const MSG_GETADDR: u32 = 9;

/// Brings the addresses of peers.
pub const MSG_ADDR: u32 = 10;

/// Asks for a sign of life.
pub const MSG_PING: u32 = 11;

/// Gives a sign of life.
pub const MSG_PONG: u32 = 12;

// ---------------------------------------------------------------------------
// Frames
// ---------------------------------------------------------------------------

/// Whether a message of a length is compressed before it is sent.
pub fn is_compressed_when_sent(len: usize) -> (r: bool)
    ensures
        r == (len > MAX_PLAIN_SIZE),
{
    len > MAX_PLAIN_SIZE
}

/// A frame: a byte that says whether its content is compressed, and the
/// content.
pub open spec fn frame_of(compressed: bool, content: Seq<u8>) -> Seq<u8> {
    seq![if compressed {
        1u8
    } else {
        0u8
    }] + content
}

/// The frame with a content.
pub fn make_frame(compressed: bool, content: &[u8]) -> (r: Vec<u8>)
    ensures
        r@ == frame_of(compressed, content@),
{
    let mut frame: Vec<u8> = Vec::new();
    frame.push(
        if compressed {
            1
        } else {
            0
        },
    );
    append_bytes(&mut frame, content);
    assert(frame@ =~= frame_of(compressed, content@));
    frame
}

/// What bytes that came from a peer are.
#[derive(Debug, Clone, Copy, PartialEq, Eq, Structural)]
pub enum FrameKind {
    /// Nothing came: the peer is gone.
    Closed,
    /// More than a frame may hold.
    Oversized,
    /// A frame whose content is not compressed.
    Plain,
    /// A frame whose content is to be decompressed.
    Compressed,
    /// A frame with more compressed content than is allowed.
    Attack,
}

/// What bytes that came from a peer are.
pub open spec fn frame_kind(data: Seq<u8>) -> FrameKind {
    if data.len() == 0 {
        FrameKind::Closed
    } else if data.len() > MAX_MESSAGE_SIZE {
        FrameKind::Oversized
    } else if data[0] != 1 {
        FrameKind::Plain
    } else if data.len() - 1 > MAX_COMPRESSED_SIZE {
        FrameKind::Attack
    } else {
        FrameKind::Compressed
    }
}

/// What bytes that came from a peer are.
pub fn classify_frame(data: &[u8]) -> (r: FrameKind)
    ensures
        r == frame_kind(data@),
{
    if data.len() == 0 {
        FrameKind::Closed
    } else if data.len() > MAX_MESSAGE_SIZE {
        FrameKind::Oversized
    } else if data[0] != 1 {
        FrameKind::Plain
    } else if data.len() - 1 > MAX_COMPRESSED_SIZE {
        FrameKind::Attack
    } else {
        FrameKind::Compressed
    }
}

/// The message in a frame, given what decompressing its content gave where
/// that was tried.
pub open spec fn frame_message(data: Seq<u8>, inflated: Option<Seq<u8>>) -> Result<Seq<u8>, Fault> {
    let content = data.skip(1);
    match frame_kind(data) {
        FrameKind::Plain => if content.len() < 4 {
            Err(Fault::InvalidBlock("Message too short"@))
        } else {
            Ok(content)
        },
        FrameKind::Compressed => match inflated {
            None => Err(Fault::DecompressionFailed),
            Some(m) => if m.len() > MAX_MSG_DECOMPRESSED {
                Err(Fault::AttackDetected)
            } else if content.len() < 4 {
                Err(Fault::InvalidBlock("Message too short"@))
            } else {
                Ok(m)
            },
        },
        _ => Err(Fault::AttackDetected),
    }
}

/// What a result with bytes says.
pub open spec fn bytes_verdict(r: Result<Vec<u8>, ChainError>) -> Result<Seq<u8>, Fault> {
    match r {
        Ok(v) => Ok(v@),
        Err(e) => Err(e@),
    }
}

/// The message in a frame. What decompressing the content gave is handed in;
/// it is looked at only where the content is to be decompressed.
pub fn open_frame(data: &[u8], inflated: Option<Vec<u8>>) -> (r: Result<Vec<u8>, ChainError>)
    ensures
        bytes_verdict(r) == frame_message(data@, tx::opt_view(inflated)),
{
    match classify_frame(data) {
        FrameKind::Plain => {
            if data.len() - 1 < 4 {
                return Err(invalid_block("Message too short"));
            }
            Ok(copy_bytes(vstd::slice::slice_subrange(data, 1, data.len())))
        },
        FrameKind::Compressed => match inflated {
            None => Err(ChainError::DecompressionFailed),
            Some(m) => {
                if m.len() > MAX_MSG_DECOMPRESSED {
                    return Err(ChainError::AttackDetected);
                }
                if data.len() - 1 < 4 {
                    return Err(invalid_block("Message too short"));
                }
                Ok(m)
            },
        },
        _ => Err(ChainError::AttackDetected),
    }
}

/// A message that is sent without compression is the one that is read.
pub proof fn law_frame_reads_back(content: Seq<u8>, inflated: Option<Seq<u8>>)
    requires
        4 <= content.len() < MAX_MESSAGE_SIZE,
    ensures
        frame_message(frame_of(false, content), inflated) == Ok::<Seq<u8>, Fault>(content),
{
    assert(frame_of(false, content).skip(1) =~= content);
}

/// A message that is sent compressed is what decompressing gives.
pub proof fn law_compressed_frame_reads_back(packed: Seq<u8>, content: Seq<u8>)
    requires
        4 <= packed.len() < MAX_MESSAGE_SIZE,
        content.len() <= MAX_MSG_DECOMPRESSED,
    ensures
        frame_message(frame_of(true, packed), Some(content)) == Ok::<Seq<u8>, Fault>(content),
{
    assert(frame_of(true, packed).skip(1) =~= packed);
}

// ---------------------------------------------------------------------------
// Messages
// ---------------------------------------------------------------------------

/// A message.
pub enum Message {
    /// Names a transaction (1) or a block (2) that the sender has.
    Inv(u32, [u8; 32]),
    /// Asks for a transaction (1) or a block (2).
    GetData(u32, [u8; 32]),
    /// Asks for the headers after one, up to another.
    GetHeaders([u8; 32], [u8; 32]),
    /// Brings a transaction.
    Tx(Transaction),
    /// Brings a block.
    Block(Block),
    /// Brings headers.
    Headers(Vec<BlockHeader>),
    /// Asks for the addresses of peers.
    GetAddr,
    /// Brings the addresses of peers.
    Addr(Vec<String>),
    /// Asks for a sign of life, with a number to be given back.
    Ping([u8; 8]),
    /// Gives a sign of life.
    Pong,
}

/// What a message says.
pub enum MessageView {
    Inv(u32, Seq<u8>),
    GetData(u32, Seq<u8>),
    GetHeaders(Seq<u8>, Seq<u8>),
    Tx(tx::TxView),
    Block(tx::BlockView),
    Headers(Seq<BlockHeader>),
    GetAddr,
    Addr(Seq<Seq<char>>),
    Ping(Seq<u8>),
    Pong,
}

/// What a list of strings says.
pub open spec fn strings(v: Seq<String>) -> Seq<Seq<char>> {
    v.map_values(|s: String| s@)
}

/// A copy of a list of strings.
pub fn copy_texts(v: &Vec<String>) -> (r: Vec<String>)
    ensures
        strings(r@) == strings(v@),
{
    let mut out: Vec<String> = Vec::new();
    let mut i: usize = 0;
    while i < v.len()
        invariant
            i <= v@.len(),
            out@.len() == i,
            forall|j: int| 0 <= j < i ==> (#[trigger] out@[j])@ == v@[j]@,
        decreases v@.len() - i,
    {
        out.push(v[i].clone());
        i += 1;
    }
    assert(strings(out@) =~= strings(v@));
    out
}

impl View for Message {
    type V = MessageView;

    open spec fn view(&self) -> MessageView {
        match self {
            Message::Inv(k, h) => MessageView::Inv(*k, h@),
            Message::GetData(k, h) => MessageView::GetData(*k, h@),
            Message::GetHeaders(a, b) => MessageView::GetHeaders(a@, b@),
            Message::Tx(t) => MessageView::Tx(t@),
            Message::Block(b) => MessageView::Block(b@),
            Message::Headers(v) => MessageView::Headers(v@),
            Message::GetAddr => MessageView::GetAddr,
            Message::Addr(v) => MessageView::Addr(strings(v@)),
            Message::Ping(n) => MessageView::Ping(n@),
            Message::Pong => MessageView::Pong,
        }
    }
}

/// Why bytes are no message.
#[derive(Debug, Clone, PartialEq, Eq)]
pub enum MessageError {
    /// They break a rule.
    Refused(ChainError),
    /// They end before the message does.
    Truncated,
}

/// What a [`MessageError`] says.
pub enum MessageFault {
    Refused(Fault),
    Truncated,
}

impl View for MessageError {
    type V = MessageFault;

    open spec fn view(&self) -> MessageFault {
        match self {
            MessageError::Refused(e) => MessageFault::Refused(e@),
            MessageError::Truncated => MessageFault::Truncated,
        }
    }
}

/// What a result with a message says.
pub open spec fn message_verdict(r: Result<Message, MessageError>) -> Result<
    MessageView,
    MessageFault,
> {
    match r {
        Ok(m) => Ok(m@),
        Err(e) => Err(e@),
    }
}

/// What the content of a message gives, where it can be read.
pub open spec fn content_or<T>(o: Option<T>, why: Seq<char>) -> Result<T, MessageFault> {
    match o {
        Some(x) => Ok(x),
        None => Err(MessageFault::Refused(Fault::Other(why))),
    }
}

/// The type of a message, by its first four bytes.
pub open spec fn message_type(data: Seq<u8>) -> nat {
    bytes::le_value(data.take(4))
}

/// The message that bytes are.
pub open spec fn message_of(data: Seq<u8>) -> Result<MessageView, MessageFault> {
    let n = data.len();
    let kind = message_type(data);
    if n < 4 {
        Err(MessageFault::Refused(Fault::InvalidBlock("Message too short"@)))
    } else if kind == MSG_INV_TX || kind == MSG_INV_BLOCK {
        if n < 36 {
            Err(MessageFault::Truncated)
        } else {
            Ok(MessageView::Inv(kind as u32, data.subrange(4, 36)))
        }
    } else if kind == MSG_GETDATA {
        if n < 40 {
            Err(MessageFault::Truncated)
        } else {
            Ok(
                MessageView::GetData(
                    bytes::le_value(data.subrange(4, 8)) as u32,
                    data.subrange(8, 40),
                ),
            )
        }
    } else if kind == MSG_GETHEADERS {
        if n < 40 {
            Err(MessageFault::Refused(Fault::InvalidBlock("GETHEADERS too short"@)))
        } else {
            Ok(
                MessageView::GetHeaders(
                    data.subrange(4, 36),
                    if n >= 72 {
                        data.subrange(36, 68)
                    } else {
                        tx::zero_id()
                    },
                ),
            )
        }
    } else if kind == MSG_TX {
        match content_or(codec::read_tx(data.skip(4)), "Deserialize transaction failed"@) {
            Ok(t) => Ok(MessageView::Tx(t)),
            Err(e) => Err(e),
        }
    } else if kind == MSG_BLOCK {
        match content_or(codec::read_block(data.skip(4)), "Deserialize block failed"@) {
            Ok(b) => Ok(MessageView::Block(b)),
            Err(e) => Err(e),
        }
    } else if kind == MSG_HEADERS {
        match content_or(codec::read_headers(data.skip(4)), "Deserialize headers failed"@) {
            Ok(v) => Ok(MessageView::Headers(v)),
            Err(e) => Err(e),
        }
    } else if kind == MSG_GETADDR {
        Ok(MessageView::GetAddr)
    } else if kind == MSG_ADDR {
        match content_or(codec::read_strings(data.skip(4)), "Deserialize addresses failed"@) {
            Ok(v) => Ok(MessageView::Addr(v)),
            Err(e) => Err(e),
        }
    } else if kind == MSG_PING {
        if n < 12 {
            Err(MessageFault::Truncated)
        } else {
            Ok(MessageView::Ping(data.subrange(4, 12)))
        }
    } else if kind == MSG_PONG {
        Ok(MessageView::Pong)
    } else {
        Err(MessageFault::Refused(Fault::Other("Unknown message type"@)))
    }
}

/// Eight bytes of a slice.
pub fn read8(s: &[u8], at: usize) -> (r: [u8; 8])
    requires
        at + 8 <= s@.len(),
    ensures
        r@ == s@.subrange(at as int, at + 8),
{
    let r = [
        s[at],
        s[at + 1],
        s[at + 2],
        s[at + 3],
        s[at + 4],
        s[at + 5],
        s[at + 6],
        s[at + 7],
    ];
    assert(r@ =~= s@.subrange(at as int, at + 8));
    r
}

/// A number of four bytes in a slice, the least significant one first.
pub fn read_u32(s: &[u8], at: usize) -> (r: u32)
    requires
        at + 4 <= s@.len(),
    ensures
        r == bytes::le_value(s@.subrange(at as int, at + 4)),
{
    let n = s.len();
    assert(at + 4 <= n);
    let part = vstd::slice::slice_subrange(s, at, at + 4);
    proof {
        bytes::lemma_pow256_values();
        bytes::lemma_le_write_read(part@);
    }
    let x: u128 = from_le(part);
    x as u32
}

fn unreadable(why: &str) -> (r: MessageError)
    ensures
        r@ == MessageFault::Refused(Fault::Other(why@)),
{
    MessageError::Refused(other(why))
}

/// The message that bytes are.
pub fn parse_message(data: &[u8]) -> (r: Result<Message, MessageError>)
    ensures
        message_verdict(r) == message_of(data@),
{
    let n = data.len();
    if n < 4 {
        return Err(MessageError::Refused(invalid_block("Message too short")));
    }
    let kind: u32 = read_u32(data, 0);
    assert(data@.subrange(0, 4) =~= data@.take(4));
    let content = vstd::slice::slice_subrange(data, 4, n);
    assert(content@ =~= data@.skip(4));
    if kind == MSG_INV_TX || kind == MSG_INV_BLOCK {
        if n < 36 {
            return Err(MessageError::Truncated);
        }
        Ok(Message::Inv(kind, read32(data, 4)))
    } else if kind == MSG_GETDATA {
        if n < 40 {
            return Err(MessageError::Truncated);
        }
        Ok(Message::GetData(read_u32(data, 4), read32(data, 8)))
    } else if kind == MSG_GETHEADERS {
        if n < 40 {
            return Err(MessageError::Refused(invalid_block("GETHEADERS too short")));
        }
        let stop = if n >= 72 {
            read32(data, 36)
        } else {
            make_no_id()
        };
        Ok(Message::GetHeaders(read32(data, 4), stop))
    } else if kind == MSG_TX {
        match deserialize_tx(content) {
            Some(t) => Ok(Message::Tx(t)),
            None => Err(unreadable("Deserialize transaction failed")),
        }
    } else if kind == MSG_BLOCK {
        match deserialize_block(content) {
            Some(b) => Ok(Message::Block(b)),
            None => Err(unreadable("Deserialize block failed")),
        }
    } else if kind == MSG_HEADERS {
        match deserialize_headers(content) {
            Some(v) => Ok(Message::Headers(v)),
            None => Err(unreadable("Deserialize headers failed")),
        }
    } else if kind == MSG_GETADDR {
        Ok(Message::GetAddr)
    } else if kind == MSG_ADDR {
        match deserialize_strings(content) {
            Some(v) => Ok(Message::Addr(v)),
            None => Err(unreadable("Deserialize addresses failed")),
        }
    } else if kind == MSG_PING {
        if n < 12 {
            return Err(MessageError::Truncated);
        }
        Ok(Message::Ping(read8(data, 4)))
    } else if kind == MSG_PONG {
        Ok(Message::Pong)
    } else {
        Err(unreadable("Unknown message type"))
    }
}

// ---------------------------------------------------------------------------
// Writing messages
// ---------------------------------------------------------------------------

/// The bytes of a message that nodes send; of a request for headers, nothing
/// is said.
pub open spec fn message_bytes(m: MessageView) -> Seq<u8> {
    match m {
        MessageView::Inv(k, h) => codec::enc_u32(k) + h,
        MessageView::GetData(k, h) => codec::enc_u32(MSG_GETDATA) + codec::enc_u32(k) + h,
        MessageView::GetHeaders(_, _) => Seq::empty(),
        MessageView::Tx(t) => codec::enc_u32(MSG_TX) + codec::enc_tx(t),
        MessageView::Block(b) => codec::enc_u32(MSG_BLOCK) + codec::enc_block(b),
        MessageView::Headers(v) => codec::enc_u32(MSG_HEADERS) + codec::enc_headers(v),
        MessageView::GetAddr => codec::enc_u32(MSG_GETADDR),
        MessageView::Addr(v) => codec::enc_u32(MSG_ADDR) + codec::enc_strings(v),
        MessageView::Ping(n) => codec::enc_u32(MSG_PING) + n,
        MessageView::Pong => codec::enc_u32(MSG_PONG),
    }
}

/// Whether a message can be sent: what it names has the length of a name.
pub open spec fn sendable(m: MessageView) -> bool {
    match m {
        MessageView::Inv(k, h) => (k == MSG_INV_TX || k == MSG_INV_BLOCK) && h.len() == 32,
        MessageView::GetData(_, h) => h.len() == 32,
        MessageView::GetHeaders(_, _) => false,
        MessageView::Ping(n) => n.len() == 8,
        _ => true,
    }
}

/// The type of a message is told from its first bytes.
proof fn lemma_type(kind: u32, rest: Seq<u8>)
    ensures
        message_type(codec::enc_u32(kind) + rest) == kind,
        (codec::enc_u32(kind) + rest).skip(4) == rest,
        codec::enc_u32(kind).len() == 4,
{
    bytes::lemma_pow256_values();
    bytes::lemma_le_bytes_len(kind as nat, 4);
    bytes::lemma_le_read_write(kind as nat, 4);
    let data = codec::enc_u32(kind) + rest;
    assert(data.take(4) =~= codec::enc_u32(kind));
    assert(data.skip(4) =~= rest);
}

/// Every message that is sent is read as the one that it is.
pub proof fn law_message_reads_back(m: MessageView)
    requires
        sendable(m),
        message_bytes(m).len() < bytes::pow256(8),
    ensures
        message_of(message_bytes(m)) == Ok::<MessageView, MessageFault>(m),
{
    let data = message_bytes(m);
    match m {
        MessageView::Inv(k, h) => {
            lemma_type(k, h);
            assert(data.subrange(4, 36) =~= h);
        },
        MessageView::GetData(k, h) => {
            let rest = codec::enc_u32(k) + h;
            lemma_type(MSG_GETDATA, rest);
            lemma_type(k, h);
            assert(data =~= codec::enc_u32(MSG_GETDATA) + rest);
            assert(data.subrange(4, 8) =~= codec::enc_u32(k));
            assert(data.subrange(8, 40) =~= h);
            bytes::lemma_pow256_values();
            bytes::lemma_le_read_write(k as nat, 4);
        },
        MessageView::GetHeaders(_, _) => {},
        MessageView::Tx(t) => {
            lemma_type(MSG_TX, codec::enc_tx(t));
            assert(codec::enc_tx(t).is_prefix_of(codec::enc_tx(t)));
            codec::law_read_tx(t, codec::enc_tx(t));
        },
        MessageView::Block(b) => {
            lemma_type(MSG_BLOCK, codec::enc_block(b));
            assert(codec::enc_block(b).is_prefix_of(codec::enc_block(b)));
            codec::law_read_block(b, codec::enc_block(b));
        },
        MessageView::Headers(v) => {
            lemma_type(MSG_HEADERS, codec::enc_headers(v));
            assert(codec::enc_headers(v).is_prefix_of(codec::enc_headers(v)));
            codec::law_read_headers(v, codec::enc_headers(v));
        },
        MessageView::GetAddr => {
            lemma_type(MSG_GETADDR, Seq::empty());
            assert(data =~= data + Seq::<u8>::empty());
        },
        MessageView::Addr(v) => {
            lemma_type(MSG_ADDR, codec::enc_strings(v));
            assert(codec::enc_strings(v).is_prefix_of(codec::enc_strings(v)));
            codec::law_read_strings(v, codec::enc_strings(v));
        },
        MessageView::Ping(n) => {
            lemma_type(MSG_PING, n);
            assert(data.subrange(4, 12) =~= n);
        },
        MessageView::Pong => {
            lemma_type(MSG_PONG, Seq::empty());
            assert(data =~= data + Seq::<u8>::empty());
        },
    }
}

/// The bytes of a number of four bytes, and what follows it.
fn start_message(kind: u32) -> (r: Vec<u8>)
    ensures
        r@ == codec::enc_u32(kind),
{
    to_le(kind as u128, 4)
}

/// Names a transaction (1) or a block (2).
pub fn inv_message(kind: u32, hash: &[u8; 32]) -> (r: Vec<u8>)
    ensures
        r@ == message_bytes(MessageView::Inv(kind, hash@)),
{
    let mut msg = start_message(kind);
    append_bytes(&mut msg, hash.as_slice());
    msg
}

/// Asks for a transaction (1) or a block (2).
pub fn getdata_message(kind: u32, hash: &[u8; 32]) -> (r: Vec<u8>)
    ensures
        r@ == message_bytes(MessageView::GetData(kind, hash@)),
{
    let mut msg = start_message(MSG_GETDATA);
    let k = start_message(kind);
    append_bytes(&mut msg, k.as_slice());
    append_bytes(&mut msg, hash.as_slice());
    msg
}

/// Brings a transaction.
pub fn tx_message(t: &Transaction) -> (r: Vec<u8>)
    ensures
        r@ == message_bytes(MessageView::Tx(t@)),
{
    let mut msg = start_message(MSG_TX);
    let content = serialize_tx(t);
    append_bytes(&mut msg, content.as_slice());
    msg
}

/// Brings a block.
pub fn block_message(b: &Block) -> (r: Vec<u8>)
    ensures
        r@ == message_bytes(MessageView::Block(b@)),
{
    let mut msg = start_message(MSG_BLOCK);
    let content = serialize_block(b);
    append_bytes(&mut msg, content.as_slice());
    msg
}

/// Brings headers.
pub fn headers_message(v: &Vec<BlockHeader>) -> (r: Vec<u8>)
    ensures
        r@ == message_bytes(MessageView::Headers(v@)),
{
    let mut msg = start_message(MSG_HEADERS);
    let content = serialize_headers(v);
    append_bytes(&mut msg, content.as_slice());
    msg
}

/// Asks for the addresses of peers.
pub fn getaddr_message() -> (r: Vec<u8>)
    ensures
        r@ == message_bytes(MessageView::GetAddr),
{
    start_message(MSG_GETADDR)
}

/// Brings the addresses of peers.
pub fn addr_message(v: &Vec<String>) -> (r: Vec<u8>)
    ensures
        r@ == message_bytes(MessageView::Addr(strings(v@))),
{
    let mut msg = start_message(MSG_ADDR);
    let content = serialize_strings(v);
    append_bytes(&mut msg, content.as_slice());
    msg
}

/// Gives a sign of life, with the number that was asked for.
pub fn pong_message(nonce: &[u8; 8]) -> (r: Vec<u8>)
    ensures
        r@ == codec::enc_u32(MSG_PONG) + nonce@,
        message_of(r@) == Ok::<MessageView, MessageFault>(MessageView::Pong),
{
    let mut msg = start_message(MSG_PONG);
    append_bytes(&mut msg, nonce.as_slice());
    proof {
        lemma_type(MSG_PONG, nonce@);
    }
    msg
}

/// Tells the address of a new peer, with the time.
pub fn announcement(now: u128, addr: &str) -> (r: Vec<u8>)
    ensures
        r@ == codec::enc_u32(MSG_ADDR) + bytes::le_bytes(now as nat, 16) + codec::enc_strings(
            seq![addr@],
        ),
{
    let mut msg = start_message(MSG_ADDR);
    let time = to_le(now, 16);
    append_bytes(&mut msg, time.as_slice());
    let mut v: Vec<String> = Vec::new();
    v.push(addr.to_string());
    assert(strings(v@) =~= seq![addr@]);
    let content = serialize_strings(&v);
    append_bytes(&mut msg, content.as_slice());
    msg
}

/// The request for what a peer has named, if it is new: a transaction that is
/// neither in the pool nor in the chain, or a block that is not in the chain.
pub open spec fn wanted(kind: u32, hash: Seq<u8>, in_pool: bool, in_chain: bool) -> Option<
    MessageView,
> {
    if (kind == 1 && !in_pool && !in_chain) || (kind == 2 && !in_chain) {
        Some(MessageView::GetData(kind, hash))
    } else {
        None
    }
}

/// The request for what a peer has named, if it is new.
pub fn request_for(kind: u32, hash: &[u8; 32], in_pool: bool, in_chain: bool) -> (r: Option<
    Vec<u8>,
>)
    ensures
        match r {
            Some(msg) => wanted(kind, hash@, in_pool, in_chain) is Some && msg@ == message_bytes(
                wanted(kind, hash@, in_pool, in_chain)->0,
            ),
            None => wanted(kind, hash@, in_pool, in_chain) is None,
        },
{
    if (kind == 1 && !in_pool && !in_chain) || (kind == 2 && !in_chain) {
        Some(getdata_message(kind, hash))
    } else {
        None
    }
}

// ---------------------------------------------------------------------------
// Lists of headers
// ---------------------------------------------------------------------------

/// A walk over a list of headers, each of which must follow the one before.
pub struct HeaderRun {
    prev: [u8; 32],
}

impl HeaderRun {
    /// The hash that the next header must follow.
    pub closed spec fn expects(&self) -> Seq<u8> {
        self.prev@
    }

    /// The start of a walk: the first header follows whatever it names.
    pub fn start(first: &BlockHeader) -> (r: Self)
        ensures
            r.expects() == first.prev_hash@,
    {
        HeaderRun { prev: first.prev_hash }
    }

    /// Takes the next header with its hash, and gives a block without
    /// transactions for it.
    pub fn step(&mut self, header: &BlockHeader, hash: &[u8; 32]) -> (r: Result<Block, ChainError>)
        ensures
            match r {
                Ok(b) => {
                    &&& header.prev_hash@ == old(self).expects()
                    &&& b@ == (tx::BlockView { header: *header, txs: Seq::empty() })
                    &&& final(self).expects() == hash@
                },
                Err(e) => {
                    &&& header.prev_hash@ != old(self).expects()
                    &&& e@ == Fault::InvalidBlock("Discontinuous headers"@)
                    &&& final(self).expects() == old(self).expects()
                },
            },
    {
        proof {
            bytes::lemma_id_ext(header.prev_hash, self.prev);
        }
        if !bytes::same32(&header.prev_hash, &self.prev) {
            return Err(invalid_block("Discontinuous headers"));
        }
        self.prev = *hash;
        let b = Block { header: *header, txs: Vec::new() };
        assert(b@.txs =~= Seq::<tx::TxView>::empty());
        Ok(b)
    }
}

} // verus!
