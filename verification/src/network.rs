//! The peer protocol: frames, message payloads and the handshake rules.
use vstd::prelude::*;
use crate::block::{Block, BlockHeader};
use crate::bytes::{
    append_bytes, append_u16, append_u32, append_u64, bytes_eq, lemma_be_injective, read_u16, read_u32,
    read_u64, u16_be, u32_be, u64_be,
};
use crate::encoding::{
    header_preimage, lemma_header_preimage_injective, lemma_split_concat, lemma_unsigned_fields_injective,
    unsigned_fields, BLOCK_HEADER_DOMAIN,
};
use crate::transaction::{SignedTransaction, UnsignedTransaction};
use crate::types::{
    Address, Amount, BlockHash, BlockHeight, BlockTimestamp, BlockVersion, ChainId, Hash256, MerkleRoot,
    Nonce, PowNonce, PowTarget, PublicKeyBytes, SignatureBytes, StateRoot, TransactionVersion,
};

verus! {

/// `b"BGNW"`: the first bytes of every frame.
pub const MAGIC: [u8; 4] = [66, 71, 78, 87];

pub const PROTOCOL_VERSION: u16 = 2;

/// The largest payload a frame may carry.
pub const MAX_FRAME_SIZE: usize = 1048576;

/// The most transactions a block message may carry.
pub const MAX_BLOCK_TRANSACTIONS: usize = 4096;

/// The identity a node announces in its handshake.
pub type NodeId = [u8; 16];

/// The first message on every connection.
#[derive(Debug, Clone, Copy, PartialEq, Eq)]
pub struct Handshake {
    pub protocol_version: u16,
    pub chain_id: ChainId,
    pub genesis_hash: BlockHash,
    pub node_id: NodeId,
}

impl Handshake {
    /// A handshake of the current protocol version.
    pub fn new(chain_id: ChainId, genesis_hash: BlockHash, node_id: NodeId) -> (h: Self)
        ensures
            h == (Handshake { protocol_version: PROTOCOL_VERSION, chain_id, genesis_hash, node_id }),
    {
        Handshake { protocol_version: PROTOCOL_VERSION, chain_id, genesis_hash, node_id }
    }
}

/// A message between peers.
#[derive(Debug, Clone, PartialEq, Eq)]
pub enum Message {
    Handshake(Handshake),
    Transaction(SignedTransaction),
    Block(Block),
    Ping(u64),
    Pong(u64),
    GetTip,
    Tip { height: BlockHeight, block_hash: BlockHash },
    GetBlocks { start_height: BlockHeight },
}

/// A message as a value: a block is its header and its transactions.
pub ghost enum WireMessage {
    Handshake(Handshake),
    Transaction(SignedTransaction),
    Block(BlockHeader, Seq<SignedTransaction>),
    Ping(u64),
    Pong(u64),
    GetTip,
    Tip(BlockHeight, BlockHash),
    GetBlocks(BlockHeight),
}

impl View for Message {
    type V = WireMessage;

    open spec fn view(&self) -> WireMessage {
        match self {
            Message::Handshake(h) => WireMessage::Handshake(*h),
            Message::Transaction(t) => WireMessage::Transaction(*t),
            Message::Block(b) => WireMessage::Block(b.header, b.transactions@),
            Message::Ping(n) => WireMessage::Ping(*n),
            Message::Pong(n) => WireMessage::Pong(*n),
            Message::GetTip => WireMessage::GetTip,
            Message::Tip { height, block_hash } => WireMessage::Tip(*height, *block_hash),
            Message::GetBlocks { start_height } => WireMessage::GetBlocks(*start_height),
        }
    }
}

/// Why a frame, a payload or a handshake is refused.
#[derive(Debug, Clone, Copy, PartialEq, Eq)]
pub enum NetworkError {
    WrongMagic,
    UnsupportedVersion(u16),
    UnknownMessageType(u8),
    OversizedFrame(usize),
    TruncatedFrame,
    Malformed(&'static str),
    HandshakeRequired,
    WrongChainId,
    DifferentGenesis,
}

/// A transaction on the wire: its fields and its signature (139 bytes).
pub open spec fn tx_wire(t: SignedTransaction) -> Seq<u8> {
    unsigned_fields(t.payload) + t.signature@
}

/// Transactions on the wire, one after the other.
pub open spec fn txs_wire(s: Seq<SignedTransaction>) -> Seq<u8>
    decreases s.len(),
{
    if s.len() == 0 {
        Seq::empty()
    } else {
        txs_wire(s.drop_last()) + tx_wire(s.last())
    }
}

/// A header on the wire (158 bytes).
pub open spec fn header_wire(h: BlockHeader) -> Seq<u8> {
    u16_be(h.version.0) + u32_be(h.chain_id.0) + u64_be(h.height.0) + h.previous_block_hash@
        + h.transaction_root@ + h.state_root@ + h.pow_target@ + u64_be(h.timestamp.0) + u64_be(
        h.pow_nonce.0,
    )
}

/// The type byte of a message.
pub open spec fn kind_of(m: WireMessage) -> u8 {
    match m {
        WireMessage::Handshake(_) => 1,
        WireMessage::Transaction(_) => 2,
        WireMessage::Block(_, _) => 3,
        WireMessage::Ping(_) => 4,
        WireMessage::Pong(_) => 5,
        WireMessage::GetTip => 6,
        WireMessage::Tip(_, _) => 7,
        WireMessage::GetBlocks(_) => 8,
    }
}

/// The payload of a message.
pub open spec fn payload_of(m: WireMessage) -> Seq<u8> {
    match m {
        WireMessage::Handshake(h) => u16_be(h.protocol_version) + u32_be(h.chain_id.0) + h.genesis_hash@
            + h.node_id@,
        WireMessage::Transaction(t) => tx_wire(t),
        WireMessage::Block(h, txs) => header_wire(h) + u32_be(txs.len() as u32) + txs_wire(txs),
        WireMessage::Ping(n) => u64_be(n),
        WireMessage::Pong(n) => u64_be(n),
        WireMessage::GetTip => Seq::empty(),
        WireMessage::Tip(height, hash) => u64_be(height.0) + hash@,
        WireMessage::GetBlocks(start) => u64_be(start.0),
    }
}

/// A message a peer accepts: a block carries at most the allowed number of
/// transactions.
pub open spec fn decodable(m: WireMessage) -> bool {
    match m {
        WireMessage::Block(_, txs) => txs.len() <= MAX_BLOCK_TRANSACTIONS,
        _ => true,
    }
}

/// A frame: magic, protocol version, type, payload length and payload.
pub open spec fn frame_of(m: WireMessage) -> Seq<u8> {
    MAGIC@ + u16_be(PROTOCOL_VERSION) + seq![kind_of(m)] + u32_be(payload_of(m).len() as u32) + payload_of(m)
}

/// Transactions on the wire take 139 bytes each.
pub proof fn lemma_txs_wire_len(s: Seq<SignedTransaction>)
    ensures
        txs_wire(s).len() == 139 * s.len(),
    decreases s.len(),
{
    if s.len() > 0 {
        lemma_txs_wire_len(s.drop_last());
    }
}

/// The wire form of a transaction determines it.
pub proof fn lemma_tx_wire_injective(a: SignedTransaction, b: SignedTransaction)
    requires
        tx_wire(a) == tx_wire(b),
    ensures
        a == b,
{
    lemma_split_concat(unsigned_fields(a.payload), a.signature@, unsigned_fields(b.payload), b.signature@);
    lemma_unsigned_fields_injective(a.payload, b.payload);
    assert(a.signature.0 =~= b.signature.0);
}

/// The wire form of a list of transactions of known length determines it.
pub proof fn lemma_txs_wire_injective(a: Seq<SignedTransaction>, b: Seq<SignedTransaction>)
    requires
        txs_wire(a) == txs_wire(b),
        a.len() == b.len(),
    ensures
        a == b,
    decreases a.len(),
{
    if a.len() > 0 {
        lemma_txs_wire_len(a.drop_last());
        lemma_txs_wire_len(b.drop_last());
        lemma_split_concat(txs_wire(a.drop_last()), tx_wire(a.last()), txs_wire(b.drop_last()), tx_wire(b.last()));
        lemma_txs_wire_injective(a.drop_last(), b.drop_last());
        lemma_tx_wire_injective(a.last(), b.last());
        assert(a =~= a.drop_last().push(a.last()));
        assert(b =~= b.drop_last().push(b.last()));
    } else {
        assert(a =~= b);
    }
}

/// The wire form of a header determines it.
pub proof fn lemma_header_wire_injective(a: BlockHeader, b: BlockHeader)
    requires
        header_wire(a) == header_wire(b),
    ensures
        a == b,
{
    assert(header_preimage(a) =~= BLOCK_HEADER_DOMAIN@ + header_wire(a));
    assert(header_preimage(b) =~= BLOCK_HEADER_DOMAIN@ + header_wire(b));
    lemma_header_preimage_injective(a, b);
}


/// Two accepted messages of one type with the same payload are the same message.
pub proof fn lemma_payload_injective(a: WireMessage, b: WireMessage)
    requires
        kind_of(a) == kind_of(b),
        payload_of(a) == payload_of(b),
        decodable(a),
        decodable(b),
    ensures
        a == b,
{
    lemma_be_injective();
    match (a, b) {
        (WireMessage::Handshake(x), WireMessage::Handshake(y)) => {
            lemma_split_concat(
                u16_be(x.protocol_version) + u32_be(x.chain_id.0) + x.genesis_hash@,
                x.node_id@,
                u16_be(y.protocol_version) + u32_be(y.chain_id.0) + y.genesis_hash@,
                y.node_id@,
            );
            lemma_split_concat(
                u16_be(x.protocol_version) + u32_be(x.chain_id.0),
                x.genesis_hash@,
                u16_be(y.protocol_version) + u32_be(y.chain_id.0),
                y.genesis_hash@,
            );
            lemma_split_concat(u16_be(x.protocol_version), u32_be(x.chain_id.0), u16_be(y.protocol_version), u32_be(y.chain_id.0));
            assert(x.genesis_hash.0.0 =~= y.genesis_hash.0.0);
            assert(x.node_id =~= y.node_id);
        },
        (WireMessage::Transaction(x), WireMessage::Transaction(y)) => {
            lemma_tx_wire_injective(x, y);
        },
        (WireMessage::Block(hx, tx), WireMessage::Block(hy, ty)) => {
            lemma_split_concat(
                header_wire(hx) + u32_be(tx.len() as u32),
                txs_wire(tx),
                header_wire(hy) + u32_be(ty.len() as u32),
                txs_wire(ty),
            );
            lemma_split_concat(header_wire(hx), u32_be(tx.len() as u32), header_wire(hy), u32_be(ty.len() as u32));
            lemma_header_wire_injective(hx, hy);
            lemma_txs_wire_injective(tx, ty);
        },
        (WireMessage::Tip(hx, bx), WireMessage::Tip(hy, by)) => {
            lemma_split_concat(u64_be(hx.0), bx@, u64_be(hy.0), by@);
            assert(bx.0.0 =~= by.0.0);
        },
        _ => {},
    }
}

pub(crate) fn append_tx_wire(out: &mut Vec<u8>, t: &SignedTransaction)
    ensures
        final(out)@ == old(out)@ + tx_wire(*t),
{
    append_u16(out, t.payload.version.0);
    append_u32(out, t.payload.chain_id.0);
    append_bytes(out, t.payload.sender_public_key.as_bytes());
    append_bytes(out, t.payload.recipient.as_bytes());
    append_u64(out, t.payload.amount.0);
    append_u64(out, t.payload.nonce.0);
    append_bytes(out, t.signature.as_bytes());
    assert(out@ =~= old(out)@ + tx_wire(*t));
}

pub(crate) fn append_header_wire(out: &mut Vec<u8>, h: &BlockHeader)
    ensures
        final(out)@ == old(out)@ + header_wire(*h),
{
    append_u16(out, h.version.0);
    append_u32(out, h.chain_id.0);
    append_u64(out, h.height.0);
    append_bytes(out, h.previous_block_hash.as_bytes());
    append_bytes(out, h.transaction_root.as_bytes());
    append_bytes(out, h.state_root.as_bytes());
    append_bytes(out, h.pow_target.as_bytes());
    append_u64(out, h.timestamp.0);
    append_u64(out, h.pow_nonce.0);
    assert(out@ =~= old(out)@ + header_wire(*h));
}

/// The type byte and the payload of a message.
pub fn encode_payload(message: &Message) -> (r: (u8, Vec<u8>))
    ensures
        r.0 == kind_of(message@),
        r.1@ == payload_of(message@),
{
    let mut o: Vec<u8> = Vec::new();
    match message {
        Message::Handshake(h) => {
            append_u16(&mut o, h.protocol_version);
            append_u32(&mut o, h.chain_id.0);
            append_bytes(&mut o, h.genesis_hash.as_bytes());
            append_bytes(&mut o, &h.node_id);
            assert(o@ =~= payload_of(message@));
            (1, o)
        },
        Message::Transaction(t) => {
            append_tx_wire(&mut o, t);
            assert(o@ =~= payload_of(message@));
            (2, o)
        },
        Message::Block(b) => {
            append_header_wire(&mut o, &b.header);
            let n = b.transactions.len();
            append_u32(&mut o, n as u32);
            let ghost prefix = o@;
            let mut i: usize = 0;
            while i < n
                invariant
                    n == b.transactions@.len(),
                    i <= n,
                    o@ == prefix + txs_wire(b.transactions@.subrange(0, i as int)),
                decreases n - i,
            {
                append_tx_wire(&mut o, &b.transactions[i]);
                assert(b.transactions@.subrange(0, i + 1).drop_last() =~= b.transactions@.subrange(0, i as int));
                i += 1;
                assert(o@ =~= prefix + txs_wire(b.transactions@.subrange(0, i as int)));
            }
            assert(b.transactions@.subrange(0, n as int) =~= b.transactions@);
            assert(o@ =~= payload_of(message@));
            (3, o)
        },
        Message::Ping(n) => {
            append_u64(&mut o, *n);
            (4, o)
        },
        Message::Pong(n) => {
            append_u64(&mut o, *n);
            (5, o)
        },
        Message::GetTip => {
            assert(o@ =~= payload_of(message@));
            (6, o)
        },
        Message::Tip { height, block_hash } => {
            append_u64(&mut o, height.0);
            append_bytes(&mut o, block_hash.as_bytes());
            (7, o)
        },
        Message::GetBlocks { start_height } => {
            append_u64(&mut o, start_height.0);
            (8, o)
        },
    }
}

/// The frame of a message, unless its payload exceeds the frame limit.
pub fn encode_frame(message: &Message) -> (r: Result<Vec<u8>, NetworkError>)
    ensures
        payload_of(message@).len() > MAX_FRAME_SIZE ==> r == Err::<Vec<u8>, NetworkError>(
            NetworkError::OversizedFrame(payload_of(message@).len() as usize),
        ),
        payload_of(message@).len() <= MAX_FRAME_SIZE ==> (r matches Ok(f) && f@ == frame_of(message@)),
{
    let (kind, payload) = encode_payload(message);
    if payload.len() > MAX_FRAME_SIZE {
        return Err(NetworkError::OversizedFrame(payload.len()));
    }
    let mut out: Vec<u8> = Vec::new();
    append_bytes(&mut out, &MAGIC);
    append_u16(&mut out, PROTOCOL_VERSION);
    out.push(kind);
    append_u32(&mut out, payload.len() as u32);
    append_bytes(&mut out, payload.as_slice());
    assert(out@ =~= frame_of(message@));
    Ok(out)
}


/// `N` bytes of `b` from `pos` on.
fn read_array<const N: usize>(b: &[u8], pos: usize) -> (r: [u8; N])
    requires
        pos + N <= b@.len(),
    ensures
        r@ == b@.subrange(pos as int, pos + N),
{
    let mut r = [0u8; N];
    let blen = b.len();
    let mut i: usize = 0;
    while i < N
        invariant
            blen == b@.len(),
            pos + N <= b@.len(),
            r@.len() == N,
            i <= N,
            forall|j: int| 0 <= j < i ==> r@[j] == b@[pos + j],
        decreases N - i,
    {
        r[i] = b[pos + i];
        i += 1;
    }
    assert(r@ =~= b@.subrange(pos as int, pos + N));
    r
}

/// The transaction whose wire form starts at `pos`.
pub(crate) fn parse_tx(b: &[u8], pos: usize) -> (t: SignedTransaction)
    requires
        pos + 139 <= b@.len(),
    ensures
        tx_wire(t) == b@.subrange(pos as int, pos + 139),
{
    let _ = b.len();
    let version = read_u16(b, pos);
    let chain_id = read_u32(b, pos + 2);
    let sender: [u8; 33] = read_array(b, pos + 6);
    let recipient: [u8; 20] = read_array(b, pos + 39);
    let amount = read_u64(b, pos + 59);
    let nonce = read_u64(b, pos + 67);
    let signature: [u8; 64] = read_array(b, pos + 75);
    let t = SignedTransaction::new(
        UnsignedTransaction::new(
            TransactionVersion(version),
            ChainId(chain_id),
            PublicKeyBytes::from_bytes(sender),
            Address::from_bytes(recipient),
            Amount(amount),
            Nonce(nonce),
        ),
        SignatureBytes::from_bytes(signature),
    );
    assert(tx_wire(t) =~= b@.subrange(pos as int, pos + 139));
    t
}

/// The header whose wire form starts at `pos`.
pub(crate) fn parse_header(b: &[u8], pos: usize) -> (h: BlockHeader)
    requires
        pos + 158 <= b@.len(),
    ensures
        header_wire(h) == b@.subrange(pos as int, pos + 158),
{
    let _ = b.len();
    let version = read_u16(b, pos);
    let chain_id = read_u32(b, pos + 2);
    let height = read_u64(b, pos + 6);
    let previous: [u8; 32] = read_array(b, pos + 14);
    let merkle: [u8; 32] = read_array(b, pos + 46);
    let state_root: [u8; 32] = read_array(b, pos + 78);
    let target: [u8; 32] = read_array(b, pos + 110);
    let timestamp = read_u64(b, pos + 142);
    let pow_nonce = read_u64(b, pos + 150);
    let h = BlockHeader::new(
        BlockVersion(version),
        ChainId(chain_id),
        BlockHeight(height),
        BlockHash::from_hash(Hash256::from_bytes(previous)),
        MerkleRoot::from_hash(Hash256::from_bytes(merkle)),
        StateRoot::from_hash(Hash256::from_bytes(state_root)),
        PowTarget::from_bytes(target),
        BlockTimestamp(timestamp),
        PowNonce(pow_nonce),
    );
    assert(header_wire(h) =~= b@.subrange(pos as int, pos + 158));
    h
}

/// The payload of a block message: its length, its count field and the
/// count in range.
proof fn lemma_block_payload_shape(m: WireMessage, bytes: Seq<u8>)
    requires
        kind_of(m) == 3,
        payload_of(m) == bytes,
        decodable(m),
    ensures
        m is Block,
        bytes.len() == 162 + 139 * m->Block_1.len(),
        bytes.subrange(158, 162) == u32_be(m->Block_1.len() as u32),
        m->Block_1.len() <= MAX_BLOCK_TRANSACTIONS,
{
    let txs = m->Block_1;
    lemma_txs_wire_len(txs);
    let a = header_wire(m->Block_0);
    let c = u32_be(txs.len() as u32);
    assert(bytes =~= a + c + txs_wire(txs));
    assert(bytes.subrange(158, 162) =~= c);
}

/// The fixed payload length of the types other than a block.
pub open spec fn fixed_length(kind: u8) -> int {
    if kind == 1 {
        54
    } else if kind == 2 {
        139
    } else if kind == 6 {
        0
    } else if kind == 7 {
        40
    } else {
        8
    }
}

proof fn lemma_fixed_length(m: WireMessage)
    requires
        kind_of(m) != 3,
    ensures
        payload_of(m).len() == fixed_length(kind_of(m)),
{
}

/// Decodes the payload of a message of type `kind`. Every accepted message
/// decodes back from its payload; whatever decodes is an accepted message
/// with exactly this payload.
pub fn decode_payload(kind: u8, payload: &[u8]) -> (r: Result<Message, NetworkError>)
    ensures
        !(1 <= kind <= 8) ==> r == Err::<Message, NetworkError>(NetworkError::UnknownMessageType(kind)),
        r matches Ok(m) ==> kind_of(m@) == kind && payload_of(m@) == payload@ && decodable(m@),
        forall|m: WireMessage|
            kind_of(m) == kind && payload_of(m) == payload@ && decodable(m) ==> (r matches Ok(x) && x@ == m),
        r matches Err(e) ==> (e is UnknownMessageType || e is Malformed),
{
    let len = payload.len();
    if kind < 1 || kind > 8 {
        return Err(NetworkError::UnknownMessageType(kind));
    }
    if kind == 3 {
        if len < 162 {
            proof {
                assert forall|m: WireMessage| kind_of(m) == kind && payload_of(m) == payload@ && decodable(m) implies false by {
                    lemma_block_payload_shape(m, payload@);
                }
            }
            return Err(NetworkError::Malformed("truncated payload"));
        }
        let header = parse_header(payload, 0);
        let count = read_u32(payload, 158);
        let n = count as usize;
        if n > MAX_BLOCK_TRANSACTIONS {
            proof {
                assert forall|m: WireMessage| kind_of(m) == kind && payload_of(m) == payload@ && decodable(m) implies false by {
                    lemma_block_payload_shape(m, payload@);
                    lemma_be_injective();
                }
            }
            return Err(NetworkError::Malformed("too many block transactions"));
        }
        if n > (len - 162) / 139 {
            proof {
                assert forall|m: WireMessage| kind_of(m) == kind && payload_of(m) == payload@ && decodable(m) implies false by {
                    lemma_block_payload_shape(m, payload@);
                    lemma_be_injective();
                    assert(u32_be(count) == u32_be(m->Block_1.len() as u32));
                    assert(n == m->Block_1.len());
                    assert((len - 162) / 139 == n) by (nonlinear_arith)
                        requires
                            len - 162 == 139 * n,
                    ;
                }
            }
            return Err(NetworkError::Malformed("truncated block transactions"));
        }
        assert(162 + 139 * n <= len) by (nonlinear_arith)
            requires
                n <= (len - 162) / 139,
                len >= 162,
        ;
        let mut transactions: Vec<SignedTransaction> = Vec::new();
        let mut i: usize = 0;
        while i < n
            invariant
                n <= MAX_BLOCK_TRANSACTIONS,
                162 + 139 * n <= len,
                len == payload@.len(),
                i <= n,
                transactions@.len() == i,
                txs_wire(transactions@) == payload@.subrange(162, 162 + 139 * i),
            decreases n - i,
        {
            assert(162 + 139 * i + 139 <= 162 + 139 * n) by (nonlinear_arith)
                requires
                    i < n,
            ;
            let t = parse_tx(payload, 162 + 139 * i);
            let ghost before = transactions@;
            transactions.push(t);
            assert(transactions@.drop_last() == before);
            assert(payload@.subrange(162, 162 + 139 * (i + 1)) =~= payload@.subrange(162, 162 + 139 * i)
                + payload@.subrange(162 + 139 * i, 162 + 139 * i + 139));
            i += 1;
        }
        let end = 162 + 139 * n;
        if end != len {
            proof {
                assert forall|m: WireMessage| kind_of(m) == kind && payload_of(m) == payload@ && decodable(m) implies false by {
                    lemma_block_payload_shape(m, payload@);
                    lemma_be_injective();
                    assert(u32_be(count) == u32_be(m->Block_1.len() as u32));
                }
            }
            return Err(NetworkError::Malformed("trailing payload bytes"));
        }
        let block = Block::new(header, transactions);
        let message = Message::Block(block);
        proof {
            assert(payload_of(message@) =~= payload@.subrange(0, 158) + payload@.subrange(158, 162)
                + payload@.subrange(162, len as int));
            assert(payload_of(message@) =~= payload@);
            assert forall|m: WireMessage| kind_of(m) == kind && payload_of(m) == payload@ && decodable(m) implies message@ == m by {
                lemma_payload_injective(message@, m);
            }
        }
        return Ok(message);
    }
    let expected: usize = if kind == 1 {
        54
    } else if kind == 2 {
        139
    } else if kind == 6 {
        0
    } else if kind == 7 {
        40
    } else {
        8
    };
    if len < expected {
        proof {
            assert forall|m: WireMessage| kind_of(m) == kind && payload_of(m) == payload@ && decodable(m) implies false by {
                lemma_fixed_length(m);
            }
        }
        return Err(NetworkError::Malformed("truncated payload"));
    }
    if len > expected {
        proof {
            assert forall|m: WireMessage| kind_of(m) == kind && payload_of(m) == payload@ && decodable(m) implies false by {
                lemma_fixed_length(m);
            }
        }
        return Err(NetworkError::Malformed("trailing payload bytes"));
    }
    let message = if kind == 1 {
        let version = read_u16(payload, 0);
        let chain_id = read_u32(payload, 2);
        let genesis: [u8; 32] = read_array(payload, 6);
        let node_id: [u8; 16] = read_array(payload, 38);
        Message::Handshake(
            Handshake {
                protocol_version: version,
                chain_id: ChainId(chain_id),
                genesis_hash: BlockHash::from_hash(Hash256::from_bytes(genesis)),
                node_id,
            },
        )
    } else if kind == 2 {
        Message::Transaction(parse_tx(payload, 0))
    } else if kind == 4 {
        Message::Ping(read_u64(payload, 0))
    } else if kind == 5 {
        Message::Pong(read_u64(payload, 0))
    } else if kind == 6 {
        Message::GetTip
    } else if kind == 7 {
        let height = read_u64(payload, 0);
        let hash: [u8; 32] = read_array(payload, 8);
        Message::Tip { height: BlockHeight(height), block_hash: BlockHash::from_hash(Hash256::from_bytes(hash)) }
    } else {
        Message::GetBlocks { start_height: BlockHeight(read_u64(payload, 0)) }
    };
    proof {
        assert(payload_of(message@) =~= payload@);
        assert forall|m: WireMessage| kind_of(m) == kind && payload_of(m) == payload@ && decodable(m) implies message@ == m by {
            lemma_payload_injective(message@, m);
        }
    }
    Ok(message)
}


/// The number a big-endian 16-bit field holds.
pub open spec fn be16(hi: u8, lo: u8) -> u16 {
    (hi as nat * 256 + lo as nat) as u16
}

/// The number a big-endian 32-bit field holds.
pub open spec fn be32(b: Seq<u8>) -> nat {
    b[0] as nat * 16777216 + b[1] as nat * 65536 + b[2] as nat * 256 + b[3] as nat
}

/// What the 11 header bytes of a frame say: its type and payload length,
/// or why the frame is refused.
pub open spec fn frame_header_result(h: Seq<u8>) -> Result<(u8, nat), NetworkError> {
    if h.subrange(0, 4) != MAGIC@ {
        Err(NetworkError::WrongMagic)
    } else if be16(h[4], h[5]) != PROTOCOL_VERSION {
        Err(NetworkError::UnsupportedVersion(be16(h[4], h[5])))
    } else if !(1 <= h[6] <= 8) {
        Err(NetworkError::UnknownMessageType(h[6]))
    } else if be32(h.subrange(7, 11)) > MAX_FRAME_SIZE {
        Err(NetworkError::OversizedFrame(be32(h.subrange(7, 11)) as usize))
    } else {
        Ok((h[6], be32(h.subrange(7, 11))))
    }
}

proof fn lemma_be32_of_u32(x: u32)
    ensures
        be32(u32_be(x)) == x,
        be16(u16_be(PROTOCOL_VERSION)[0], u16_be(PROTOCOL_VERSION)[1]) == PROTOCOL_VERSION,
{
    assert(((x >> 24u32) as u8) as nat * 16777216 + ((x >> 16u32) as u8) as nat * 65536 + ((x >> 8u32) as u8) as nat
        * 256 + (x as u8) as nat == x) by (bit_vector);
    assert(((2u16 >> 8u16) as u8) as nat * 256 + (2u16 as u8) as nat == 2) by (bit_vector);
}

/// Checks the 11 header bytes of a frame and gives its type and payload length.
pub fn parse_frame_header(header: &[u8]) -> (r: Result<(u8, usize), NetworkError>)
    requires
        header@.len() == 11,
    ensures
        match frame_header_result(header@) {
            Ok((kind, len)) => r == Ok::<(u8, usize), NetworkError>((kind, len as usize)),
            Err(e) => r == Err::<(u8, usize), NetworkError>(e),
        },
{
    let magic: [u8; 4] = read_array(header, 0);
    if !bytes_eq(&magic, &MAGIC) {
        return Err(NetworkError::WrongMagic);
    }
    let hi = header[4];
    let lo = header[5];
    let version: u16 = (hi as u16) * 256 + (lo as u16);
    if version != PROTOCOL_VERSION {
        return Err(NetworkError::UnsupportedVersion(version));
    }
    let kind = header[6];
    if kind < 1 || kind > 8 {
        return Err(NetworkError::UnknownMessageType(kind));
    }
    let b7 = header[7];
    let b8 = header[8];
    let b9 = header[9];
    let b10 = header[10];
    let len: u64 = (b7 as u64) * 16777216 + (b8 as u64) * 65536 + (b9 as u64) * 256 + (b10 as u64);
    assert(header@.subrange(7, 11)[0] == b7 && header@.subrange(7, 11)[1] == b8);
    assert(header@.subrange(7, 11)[2] == b9 && header@.subrange(7, 11)[3] == b10);
    if len > MAX_FRAME_SIZE as u64 {
        return Err(NetworkError::OversizedFrame(len as usize));
    }
    Ok((kind, len as usize))
}

/// Reads one message from the front of a byte stream: the 11 header bytes,
/// then the payload they announce. A stream that ends early gives a
/// truncated frame. A stream that starts with the frame of an accepted
/// message within the size limit gives that message.
pub fn read_message(input: &[u8]) -> (r: Result<Message, NetworkError>)
    ensures
        input@.len() < 11 ==> r == Err::<Message, NetworkError>(NetworkError::TruncatedFrame),
        input@.len() >= 11 ==> match frame_header_result(input@.subrange(0, 11)) {
            Err(e) => r == Err::<Message, NetworkError>(e),
            Ok((kind, len)) => if input@.len() < 11 + len {
                r == Err::<Message, NetworkError>(NetworkError::TruncatedFrame)
            } else {
                let payload = input@.subrange(11, 11 + len as int);
                &&& (r matches Ok(x) ==> kind_of(x@) == kind && payload_of(x@) == payload && decodable(x@))
                &&& forall|m: WireMessage|
                    kind_of(m) == kind && payload_of(m) == payload && decodable(m) ==> (r matches Ok(x) && x@ == m)
                &&& (r matches Err(e) ==> (e is UnknownMessageType || e is Malformed))
            },
        },
        forall|m: WireMessage|
            decodable(m) && payload_of(m).len() <= MAX_FRAME_SIZE && frame_of(m).len() <= input@.len()
                && input@.subrange(0, frame_of(m).len() as int) == frame_of(m) ==> (r matches Ok(x) && x@ == m),
{
    let total = input.len();
    proof {
        assert forall|m: WireMessage|
            decodable(m) && payload_of(m).len() <= MAX_FRAME_SIZE && frame_of(m).len() <= input@.len()
                && input@.subrange(0, frame_of(m).len() as int) == frame_of(m) implies {
            let f = frame_of(m);
            &&& input@.len() >= 11
            &&& frame_header_result(input@.subrange(0, 11)) == Ok::<(u8, nat), NetworkError>((kind_of(m), payload_of(m).len()))
            &&& input@.subrange(11, 11 + payload_of(m).len() as int) == payload_of(m)
        } by {
            let f = frame_of(m);
            let p = payload_of(m);
            lemma_be32_of_u32(p.len() as u32);
            let h = input@.subrange(0, 11);
            assert(h =~= f.subrange(0, 11));
            assert(h.subrange(0, 4) =~= MAGIC@);
            assert(h.subrange(7, 11) =~= u32_be(p.len() as u32));
            assert(input@.subrange(11, 11 + p.len() as int) =~= f.subrange(11, f.len() as int));
            assert(f.subrange(11, f.len() as int) =~= p);
        }
    }
    if total < 11 {
        return Err(NetworkError::TruncatedFrame);
    }
    let header = vstd::slice::slice_subrange(input, 0, 11);
    let (kind, len) = match parse_frame_header(header) {
        Ok(x) => x,
        Err(e) => {
            return Err(e);
        },
    };
    if total - 11 < len {
        return Err(NetworkError::TruncatedFrame);
    }
    let payload = vstd::slice::slice_subrange(input, 11, 11 + len);
    decode_payload(kind, payload)
}

/// Checks a peer's handshake against ours: the protocol version, then the
/// chain, then the genesis block.
pub fn validate_handshake(local: &Handshake, remote: &Handshake) -> (r: Result<(), NetworkError>)
    ensures
        r == validate_handshake_result(*local, *remote),
{
    if remote.protocol_version != PROTOCOL_VERSION {
        return Err(NetworkError::UnsupportedVersion(remote.protocol_version));
    }
    if remote.chain_id.0 != local.chain_id.0 {
        return Err(NetworkError::WrongChainId);
    }
    if !(remote.genesis_hash == local.genesis_hash) {
        return Err(NetworkError::DifferentGenesis);
    }
    Ok(())
}

/// What our side concludes from the first message a peer sends: its
/// handshake, if the message is one that `validate_handshake` accepts.
pub fn accept_handshake(local: &Handshake, first: &Message) -> (r: Result<Handshake, NetworkError>)
    ensures
        match first {
            Message::Handshake(remote) => match validate_handshake_result(*local, *remote) {
                Ok(()) => r == Ok::<Handshake, NetworkError>(*remote),
                Err(e) => r == Err::<Handshake, NetworkError>(e),
            },
            _ => r == Err::<Handshake, NetworkError>(NetworkError::HandshakeRequired),
        },
{
    match first {
        Message::Handshake(remote) => match validate_handshake(local, remote) {
            Ok(()) => Ok(*remote),
            Err(e) => Err(e),
        },
        _ => Err(NetworkError::HandshakeRequired),
    }
}

/// The result `validate_handshake` gives.
pub open spec fn validate_handshake_result(local: Handshake, remote: Handshake) -> Result<(), NetworkError> {
    if remote.protocol_version != PROTOCOL_VERSION {
        Err(NetworkError::UnsupportedVersion(remote.protocol_version))
    } else if remote.chain_id != local.chain_id {
        Err(NetworkError::WrongChainId)
    } else if remote.genesis_hash@ != local.genesis_hash@ {
        Err(NetworkError::DifferentGenesis)
    } else {
        Ok(())
    }
}

} // verus!
