use crate::bitset::{
    bits_of, lemma_bits_of_pack, pack_bits, piece_set_elements, piece_set_nbits, piece_set_wf,
    PieceSet,
};
use crate::wire::{
    low32, low32_of, low32_sum, lemma_low32_small, be16, be16_value, be32, be32_value, get_u16, get_u32, lemma_be16_roundtrip,
    lemma_be32_roundtrip, put_u16, put_u32,
};
use vstd::prelude::*;

verus! {

/// A block of a piece: `length` bytes at `offset` within piece `piece`.
#[derive(Debug, PartialEq, Eq, Structural, Clone, Copy, Hash)]
pub struct Block {
    pub piece: usize,
    pub offset: usize,
    pub length: usize,
}

impl Block {
    pub fn new(piece: usize, offset: usize, length: usize) -> (b: Self)
        ensures
            b.piece == piece,
            b.offset == offset,
            b.length == length,
    {
        Self { piece, offset, length }
    }

    /// The block that some block data fills.
    pub fn of_data(value: &BlockData) -> (b: Self)
        ensures
            b == Block::new_spec(value.piece, value.offset, value.data@.len() as usize),
    {
        Self::new(value.piece, value.offset, value.data.len())
    }

    /// Where the block starts in the torrent's bytes, with pieces of
    /// `piece_size` bytes.
    pub fn global_offset(&self, piece_size: usize) -> (r: usize)
        requires
            self.piece * piece_size + self.offset <= usize::MAX,
        ensures
            r == self.piece * piece_size + self.offset,
    {
        proof {
            vstd::arithmetic::mul::lemma_mul_nonnegative(self.piece as int, piece_size as int);
        }
        self.piece * piece_size + self.offset
    }

    pub open spec fn new_spec(piece: usize, offset: usize, length: usize) -> Block {
        Block { piece, offset, length }
    }
}

/// The data of a block.
#[derive(Debug, PartialEq, Eq, Clone)]
pub struct BlockData {
    pub piece: usize,
    pub offset: usize,
    pub data: Vec<u8>,
}

/// Message ids of the peer wire protocol.
pub const ID_CHOKE: u8 = 0;
pub const ID_UNCHOKE: u8 = 1;
pub const ID_INTERESTED: u8 = 2;
pub const ID_NOT_INTERESTED: u8 = 3;
pub const ID_HAVE: u8 = 4;
pub const ID_BITFIELD: u8 = 5;
pub const ID_REQUEST: u8 = 6;
pub const ID_PIECE: u8 = 7;
pub const ID_CANCEL: u8 = 8;
pub const ID_PORT: u8 = 9;

/// The size of the length prefix of every message.
pub const LENGTH_SIZE: usize = 4;

/// A message of the peer wire protocol after the handshake: a four byte
/// big-endian length prefix, then (but for keep-alive) a one byte id and a
/// payload.
#[derive(PartialEq, Clone, Debug)]
pub enum Message {
    /// `<len=0000>`
    KeepAlive,
    /// `<len=0001><id=0>`
    Choke,
    /// `<len=0001><id=1>`
    Unchoke,
    /// `<len=0001><id=2>`
    Interested,
    /// `<len=0001><id=3>`
    NotInterested,
    /// `<len=0005><id=4><piece index>`
    Have(usize),
    /// `<len=0001+X><id=5><bitfield>`: the high bit of the first byte is
    /// piece 0.
    Bitfield(PieceSet),
    /// `<len=0013><id=6><index><begin><length>`
    Request(Block),
    /// `<len=0009+X><id=7><index><begin><block>`
    Piece(BlockData),
    /// `<len=0013><id=8><index><begin><length>`
    Cancel(Block),
    /// `<len=0003><id=9><listen-port>`
    Port(u16),
}

/// A length prefix, an id and a payload.
pub open spec fn frame(id: u8, payload: Seq<u8>) -> Seq<u8> {
    be32(low32(payload.len() + 1int)) + seq![id] + payload
}

/// The payload of a request or a cancel.
pub open spec fn block_payload(b: Block) -> Seq<u8> {
    be32(low32(b.piece as int)) + be32(low32(b.offset as int)) + be32(low32(b.length as int))
}

/// The bytes of a bitfield: one bit per bit of the set's bit vector.
pub open spec fn bitfield_payload(s: PieceSet) -> Seq<u8> {
    pack_bits(piece_set_elements(s), (piece_set_nbits(s) + 7) / 8)
}

/// The bytes that encode a message. Numbers are written as `u32`, keeping
/// their low 32 bits.
pub open spec fn message_encoding(m: Message) -> Seq<u8> {
    match m {
        Message::KeepAlive => be32(0),
        Message::Choke => frame(ID_CHOKE, seq![]),
        Message::Unchoke => frame(ID_UNCHOKE, seq![]),
        Message::Interested => frame(ID_INTERESTED, seq![]),
        Message::NotInterested => frame(ID_NOT_INTERESTED, seq![]),
        Message::Have(piece) => frame(ID_HAVE, be32(low32(piece as int))),
        Message::Bitfield(s) => frame(ID_BITFIELD, bitfield_payload(s)),
        Message::Request(b) => frame(ID_REQUEST, block_payload(b)),
        Message::Piece(d) => frame(
            ID_PIECE,
            be32(low32(d.piece as int)) + be32(low32(d.offset as int)) + d.data@,
        ),
        Message::Cancel(b) => frame(ID_CANCEL, block_payload(b)),
        Message::Port(port) => frame(ID_PORT, be16(port)),
    }
}

/// The number of bytes the payload of a message takes, with its id.
pub open spec fn payload_size(m: Message) -> nat {
    match m {
        Message::KeepAlive => 0,
        Message::Choke => 1,
        Message::Unchoke => 1,
        Message::Interested => 1,
        Message::NotInterested => 1,
        Message::Have(_) => 5,
        Message::Bitfield(s) => 1 + (piece_set_nbits(s) + 7) / 8,
        Message::Request(_) => 13,
        Message::Piece(d) => 9 + d.data@.len(),
        Message::Cancel(_) => 13,
        Message::Port(_) => 3,
    }
}

/// The number of bytes a message takes on the wire.
pub open spec fn message_size(m: Message) -> nat {
    LENGTH_SIZE as nat + payload_size(m)
}

/// Whether the numbers of a message fit the 32 bits that the wire gives them,
/// so that it is written without loss.
pub open spec fn fits_wire(m: Message) -> bool {
    &&& payload_size(m) <= u32::MAX
    &&& (match m {
        Message::Have(piece) => piece <= u32::MAX,
        Message::Bitfield(s) => piece_set_wf(s),
        Message::Request(b) => b.piece <= u32::MAX && b.offset <= u32::MAX && b.length <= u32::MAX,
        Message::Cancel(b) => b.piece <= u32::MAX && b.offset <= u32::MAX && b.length <= u32::MAX,
        Message::Piece(d) => d.piece <= u32::MAX && d.offset <= u32::MAX,
        _ => true,
    })
}

/// Whether the id and the length of a frame (its id and payload, without the
/// length prefix) name a message.
pub open spec fn known_frame(f: Seq<u8>) -> bool {
    &&& f.len() >= 1
    &&& {
        let id = f[0];
        let n = f.len();
        ||| (id == ID_CHOKE || id == ID_UNCHOKE || id == ID_INTERESTED || id == ID_NOT_INTERESTED) && n == 1
        ||| id == ID_HAVE && n == 5
        ||| id == ID_BITFIELD
        ||| (id == ID_REQUEST || id == ID_CANCEL) && n == 13
        ||| id == ID_PIECE && n >= 9
        ||| id == ID_PORT && n == 3
    }
}

/// Whether `b` is the block that the twelve bytes `s` write.
pub open spec fn reads_block(b: Block, s: Seq<u8>) -> bool {
    &&& b.piece == be32_value(s)
    &&& b.offset == be32_value(s.skip(4))
    &&& b.length == be32_value(s.skip(8))
}

/// Whether `m` is the message that the frame `f` (id and payload) writes.
pub open spec fn reads_as(f: Seq<u8>, m: Message) -> bool {
    let n = f.len();
    match m {
        Message::KeepAlive => false,
        Message::Choke => f =~= seq![ID_CHOKE],
        Message::Unchoke => f =~= seq![ID_UNCHOKE],
        Message::Interested => f =~= seq![ID_INTERESTED],
        Message::NotInterested => f =~= seq![ID_NOT_INTERESTED],
        Message::Have(piece) => n == 5 && f[0] == ID_HAVE && piece == be32_value(f.skip(1)),
        Message::Bitfield(s) => n >= 1 && f[0] == ID_BITFIELD && piece_set_elements(s) == bits_of(
            f.skip(1),
        ) && piece_set_nbits(s) == (n - 1) * 8 && piece_set_wf(s),
        Message::Request(b) => n == 13 && f[0] == ID_REQUEST && reads_block(b, f.skip(1)),
        Message::Piece(d) => n >= 9 && f[0] == ID_PIECE && d.piece == be32_value(f.skip(1))
            && d.offset == be32_value(f.skip(5)) && d.data@ == f.skip(9),
        Message::Cancel(b) => n == 13 && f[0] == ID_CANCEL && reads_block(b, f.skip(1)),
        Message::Port(port) => n == 3 && f[0] == ID_PORT && port == be16_value(f.skip(1)),
    }
}

/// Two messages say the same: a bitfield by the pieces it holds, a piece by
/// its bytes.
pub open spec fn same_message(a: Message, b: Message) -> bool {
    match a {
        Message::Bitfield(x) => b matches Message::Bitfield(y) && piece_set_elements(x)
            == piece_set_elements(y),
        Message::Piece(x) => b matches Message::Piece(y) && x.piece == y.piece && x.offset == y.offset
            && x.data@ == y.data@,
        _ => a == b,
    }
}

/// What the codec refuses.
#[derive(Debug, PartialEq, Eq, Structural, Clone, Copy)]
pub enum CodecError {
    /// The length prefix exceeds the codec's maximum.
    TooLong { length: usize, max_length: usize },
    /// The id is unknown or does not fit the length.
    Invalid { id: u8, length: usize },
}

/// Frames messages with a limit on their length.
pub struct MessageCodec {
    max_length: usize,
}

impl MessageCodec {
    pub fn new(max_length: usize) -> (c: Self)
        ensures
            c.limit() == max_length,
    {
        Self { max_length }
    }

    /// Whether every bitfield the codec accepts has a number of bits that
    /// fits a `usize`, as `BitSet::from_bytes` needs: always so where `usize`
    /// has 64 bits.
    pub open spec fn bitfields_fit(&self) -> bool {
        self.limit() <= usize::MAX / 8 || usize::MAX == u64::MAX
    }

    /// The longest frame (id and payload) the codec accepts.
    pub closed spec fn limit(&self) -> usize {
        self.max_length
    }

    /// Appends the encoding of a message.
    pub fn encode(&self, item: Message, dst: &mut Vec<u8>)
        ensures
            final(dst)@ == old(dst)@ + message_encoding(item),
    {
        let ghost start = dst@;
        match item {
            Message::KeepAlive => put_u32(dst, 0),
            Message::Choke => {
                put_u32(dst, 1);
                dst.push(ID_CHOKE);
            },
            Message::Unchoke => {
                put_u32(dst, 1);
                dst.push(ID_UNCHOKE);
            },
            Message::Interested => {
                put_u32(dst, 1);
                dst.push(ID_INTERESTED);
            },
            Message::NotInterested => {
                put_u32(dst, 1);
                dst.push(ID_NOT_INTERESTED);
            },
            Message::Have(piece) => {
                put_u32(dst, 5);
                dst.push(ID_HAVE);
                put_u32(dst, low32_of(piece));
            },
            Message::Bitfield(bitset) => {
                let mut bytes = bitset.bytes();
                put_u32(dst, low32_sum(bytes.len(), 1));
                dst.push(ID_BITFIELD);
                dst.append(&mut bytes);
            },
            Message::Request(block) => {
                put_u32(dst, 13);
                dst.push(ID_REQUEST);
                encode_block(block, dst);
            },
            Message::Piece(BlockData { piece, offset, data }) => {
                let mut data = data;
                put_u32(dst, low32_sum(data.len(), 9));
                dst.push(ID_PIECE);
                put_u32(dst, low32_of(piece));
                put_u32(dst, low32_of(offset));
                dst.append(&mut data);
            },
            Message::Cancel(block) => {
                put_u32(dst, 13);
                dst.push(ID_CANCEL);
                encode_block(block, dst);
            },
            Message::Port(port) => {
                put_u32(dst, 3);
                dst.push(ID_PORT);
                put_u16(dst, port);
            },
        }
        assert(dst@ =~= start + message_encoding(item));
    }

    /// Takes one message off the front of `src`, as the stream decoder of a
    /// framed connection does: nothing while the length prefix or the frame
    /// is incomplete; a keep-alive for a zero length; an error for a length
    /// over the limit (dropping the prefix) or for an unknown id or an id
    /// that does not fit the length (dropping the prefix and the id);
    /// otherwise the message, dropping its bytes.
    pub fn decode(&self, src: &mut Vec<u8>) -> (r: Result<Option<Message>, CodecError>)
        requires
            self.bitfields_fit(),
        ensures
            ({
                let b = old(src)@;
                let length = be32_value(b) as int;
                let f = b.subrange(4, 4 + length);
                if b.len() < 4 {
                    r == Ok::<Option<Message>, CodecError>(None) && final(src)@ == b
                } else if length == 0 {
                    r == Ok::<Option<Message>, CodecError>(Some(Message::KeepAlive))
                        && final(src)@ == b.skip(4)
                } else if length > self.limit() {
                    r == Err::<Option<Message>, CodecError>(
                        CodecError::TooLong { length: length as usize, max_length: self.limit() },
                    ) && final(src)@ == b.skip(4)
                } else if b.len() < 4 + length {
                    r == Ok::<Option<Message>, CodecError>(None) && final(src)@ == b
                } else if known_frame(f) {
                    (r matches Ok(Some(m)) && reads_as(f, m)) && final(src)@ == b.skip(4 + length)
                } else {
                    r == Err::<Option<Message>, CodecError>(
                        CodecError::Invalid { id: b[4], length: length as usize },
                    ) && final(src)@ == b.skip(5)
                }
            }),
    {
        let ghost b = src@;
        if src.len() < LENGTH_SIZE {
            return Ok(None);
        }
        let length = get_u32(src.as_slice(), 0) as usize;
        proof {
            assert(b.subrange(0, 4) =~= b.subrange(0, 4));
        }
        if length == 0 {
            let rest = src.split_off(LENGTH_SIZE);
            *src = rest;
            return Ok(Some(Message::KeepAlive));
        }
        if length > self.max_length {
            let rest = src.split_off(LENGTH_SIZE);
            *src = rest;
            return Err(CodecError::TooLong { length, max_length: self.max_length });
        }
        if src.len() - LENGTH_SIZE < length {
            return Ok(None);
        }
        let end = LENGTH_SIZE + length;
        let id = src[LENGTH_SIZE];
        let ghost f = b.subrange(4, 4 + length);
        proof {
            assert(f[0] == id);
            assert(f.len() == length);
        }
        let decoded: Option<Message> = if (id == ID_CHOKE || id == ID_UNCHOKE || id == ID_INTERESTED
            || id == ID_NOT_INTERESTED) && length == 1 {
            proof {
                assert(f =~= seq![id]);
            }
            if id == ID_CHOKE {
                Some(Message::Choke)
            } else if id == ID_UNCHOKE {
                Some(Message::Unchoke)
            } else if id == ID_INTERESTED {
                Some(Message::Interested)
            } else {
                Some(Message::NotInterested)
            }
        } else if id == ID_HAVE && length == 5 {
            let piece = get_u32(src.as_slice(), 5);
            proof {
                assert(f.skip(1).subrange(0, 4) =~= b.subrange(5, 9));
            }
            Some(Message::Have(piece as usize))
        } else if id == ID_BITFIELD {
            let bytes = vstd::slice::slice_subrange(src.as_slice(), 5, end);
            assert(bytes@ =~= f.skip(1));
            Some(Message::Bitfield(PieceSet::of_bytes(bytes)))
        } else if (id == ID_REQUEST || id == ID_CANCEL) && length == 13 {
            let block = decode_block(src.as_slice(), 5);
            proof {
                assert(f.skip(1) =~= b.skip(5).subrange(0, 12));
                assert(f.skip(1).subrange(0, 4) =~= b.skip(5).subrange(0, 4));
                assert(f.skip(1).skip(4).subrange(0, 4) =~= b.skip(5).skip(4).subrange(0, 4));
                assert(f.skip(1).skip(8).subrange(0, 4) =~= b.skip(5).skip(8).subrange(0, 4));
            }
            if id == ID_REQUEST {
                Some(Message::Request(block))
            } else {
                Some(Message::Cancel(block))
            }
        } else if id == ID_PIECE && length >= 9 {
            let piece = get_u32(src.as_slice(), 5);
            let offset = get_u32(src.as_slice(), 9);
            let data = vstd::slice::slice_to_vec(vstd::slice::slice_subrange(src.as_slice(), 13, end));
            proof {
                assert(f.skip(1).subrange(0, 4) =~= b.subrange(5, 9));
                assert(f.skip(5).subrange(0, 4) =~= b.subrange(9, 13));
                assert(data@ =~= f.skip(9));
            }
            Some(Message::Piece(BlockData { piece: piece as usize, offset: offset as usize, data }))
        } else if id == ID_PORT && length == 3 {
            let port = get_u16(src.as_slice(), 5);
            proof {
                assert(f.skip(1).subrange(0, 2) =~= b.subrange(5, 7));
            }
            Some(Message::Port(port))
        } else {
            None
        };
        match decoded {
            Some(m) => {
                let rest = src.split_off(end);
                *src = rest;
                Ok(Some(m))
            },
            None => {
                let rest = src.split_off(LENGTH_SIZE + 1);
                *src = rest;
                Err(CodecError::Invalid { id, length })
            },
        }
    }
}

/// Reads a request or a cancel payload at `pos`.
fn decode_block(src: &[u8], pos: usize) -> (b: Block)
    requires
        pos + 12 <= src@.len() <= usize::MAX,
    ensures
        reads_block(b, src@.skip(pos as int)),
{
    let piece = get_u32(src, pos);
    let offset = get_u32(src, pos + 4);
    let length = get_u32(src, pos + 8);
    let b = Block::new(piece as usize, offset as usize, length as usize);
    proof {
        let s = src@.skip(pos as int);
        assert(s.subrange(0, 4) =~= src@.subrange(pos as int, pos + 4));
        assert(s.skip(4).subrange(0, 4) =~= src@.subrange(pos + 4, pos + 8));
        assert(s.skip(8).subrange(0, 4) =~= src@.subrange(pos + 8, pos + 12));
    }
    b
}

fn encode_block(block: Block, dst: &mut Vec<u8>)
    ensures
        final(dst)@ == old(dst)@ + block_payload(block),
{
    let ghost start = dst@;
    put_u32(dst, low32_of(block.piece));
    put_u32(dst, low32_of(block.offset));
    put_u32(dst, low32_of(block.length));
    assert(dst@ =~= start + block_payload(block));
}

/// Messages whose size on the wire can be told before they are written.
pub trait TransportMessage {
    /// The number of bytes the message takes on the wire.
    spec fn wire_size(&self) -> nat;

    /// The number of bytes needed to transport the message, length prefix,
    /// id and payload included.
    fn transport_bytes(&self) -> (r: usize)
        requires
            self.wire_size() <= usize::MAX,
        ensures
            r == self.wire_size(),
    ;
}

impl TransportMessage for Message {
    open spec fn wire_size(&self) -> nat {
        message_size(*self)
    }

    fn transport_bytes(&self) -> (r: usize) {
        let payload: usize = match self {
            Message::KeepAlive => 0,
            Message::Choke => 1,
            Message::Unchoke => 1,
            Message::Interested => 1,
            Message::NotInterested => 1,
            Message::Have(_) => 5,
            Message::Bitfield(bitset) => 1 + bitset.bytes().len(),
            Message::Request(_) => 13,
            Message::Piece(block) => 9 + block.data.len(),
            Message::Cancel(_) => 13,
            Message::Port(_) => 3,
        };
        LENGTH_SIZE + payload
    }
}


/// A request and a cancel are written as a length prefix of thirteen, the
/// id (6 for a request, 8 for a cancel), then the piece index, the offset
/// within the piece (begin) and the length, each a big-endian `u32` keeping
/// the low 32 bits of the number.
pub proof fn lemma_block_message_layout(b: Block)
    ensures
        ({
            let r = message_encoding(Message::Request(b));
            let c = message_encoding(Message::Cancel(b));
            &&& r.len() == 17 && c.len() == 17
            &&& r[0] == 0 && r[1] == 0 && r[2] == 0 && r[3] == 13 && r[4] == 6
            &&& c[0] == 0 && c[1] == 0 && c[2] == 0 && c[3] == 13 && c[4] == 8
            &&& forall|i: int| 5 <= i < 17 ==> r[i] == c[i]
            &&& r[5] * 0x1000000 + r[6] * 0x10000 + r[7] * 0x100 + r[8] == (b.piece as int) % 0x1_0000_0000int
            &&& r[9] * 0x1000000 + r[10] * 0x10000 + r[11] * 0x100 + r[12] == (b.offset as int) % 0x1_0000_0000int
            &&& r[13] * 0x1000000 + r[14] * 0x10000 + r[15] * 0x100 + r[16] == (b.length as int) % 0x1_0000_0000int
        }),
{
    let r = message_encoding(Message::Request(b));
    let c = message_encoding(Message::Cancel(b));
    let p = block_payload(b);
    lemma_be32_roundtrip(low32(b.piece as int));
    lemma_be32_roundtrip(low32(b.offset as int));
    lemma_be32_roundtrip(low32(b.length as int));
    lemma_be32_roundtrip(13);
    lemma_low32_small(13);
    assert(p.len() == 12);
    assert(r == be32(13) + seq![ID_REQUEST] + p);
    assert(c == be32(13) + seq![ID_CANCEL] + p);
    assert(be32(13) =~= seq![0u8, 0, 0, 13]);
    let x = be32(low32(b.piece as int));
    let y = be32(low32(b.offset as int));
    let z = be32(low32(b.length as int));
    assert(p == x + y + z);
    assert(r[5] == x[0] && r[6] == x[1] && r[7] == x[2] && r[8] == x[3]);
    assert(r[9] == y[0] && r[10] == y[1] && r[11] == y[2] && r[12] == y[3]);
    assert(r[13] == z[0] && r[14] == z[1] && r[15] == z[2] && r[16] == z[3]);
}

/// A frame of thirteen bytes (id and payload, after the length prefix) with
/// id 6 reads as the request, and with id 8 as the cancel, of the block whose
/// piece index, offset (begin) and length are the big-endian `u32`s at bytes
/// 1 to 4, 5 to 8 and 9 to 12, in that order.
pub proof fn lemma_block_message_read(f: Seq<u8>, m: Message)
    requires
        f.len() == 13,
        f[0] == 6 || f[0] == 8,
        reads_as(f, m),
    ensures
        ({
            let b = Block {
                piece: (f[1] * 0x1000000 + f[2] * 0x10000 + f[3] * 0x100 + f[4]) as usize,
                offset: (f[5] * 0x1000000 + f[6] * 0x10000 + f[7] * 0x100 + f[8]) as usize,
                length: (f[9] * 0x1000000 + f[10] * 0x10000 + f[11] * 0x100 + f[12]) as usize,
            };
            &&& f[0] == 6 ==> m == Message::Request(b)
            &&& f[0] == 8 ==> m == Message::Cancel(b)
        }),
{
    let s = f.skip(1);
    assert(s[0] == f[1] && s[1] == f[2] && s[2] == f[3] && s[3] == f[4]);
    assert(s.skip(4)[0] == f[5] && s.skip(4)[1] == f[6] && s.skip(4)[2] == f[7] && s.skip(4)[3] == f[8]);
    assert(s.skip(8)[0] == f[9] && s.skip(8)[1] == f[10] && s.skip(8)[2] == f[11] && s.skip(8)[3] == f[12]);
}

/// The encoding of a message is as long as `transport_bytes` says.
pub proof fn lemma_encoding_size(m: Message)
    ensures
        message_encoding(m).len() == message_size(m),
{
}

/// A frame reads as one message at most, up to saying the same.
pub proof fn lemma_reads_as_unique(f: Seq<u8>, m: Message, m2: Message)
    requires
        reads_as(f, m),
        reads_as(f, m2),
    ensures
        same_message(m2, m),
{
    assert(f.len() >= 1);
    match m {
        Message::Request(x) => {
            assert(m2 is Request);
        },
        Message::Cancel(x) => {
            assert(m2 is Cancel);
        },
        Message::Choke => {
            assert(f[0] == ID_CHOKE);
        },
        Message::Unchoke => {
            assert(f[0] == ID_UNCHOKE);
        },
        Message::Interested => {
            assert(f[0] == ID_INTERESTED);
        },
        Message::NotInterested => {
            assert(f[0] == ID_NOT_INTERESTED);
        },
        _ => {},
    }
}

/// The parts of a frame.
proof fn lemma_frame_parts(id: u8, payload: Seq<u8>)
    requires
        payload.len() + 1 <= u32::MAX,
    ensures
        frame(id, payload).len() == 5 + payload.len(),
        be32_value(frame(id, payload)) == payload.len() + 1,
        frame(id, payload).skip(4) == seq![id] + payload,
        frame(id, payload).skip(5) == payload,
{
    let n = payload.len() + 1;
    lemma_be32_roundtrip(low32(n as int));
    lemma_low32_small(n as int);
    let e = frame(id, payload);
    assert(e.subrange(0, 4) =~= be32(low32(n as int)));
    assert(e.skip(4) =~= seq![id] + payload);
    assert(e.skip(5) =~= payload);
}

proof fn lemma_frame_reads_back_have(piece: usize)
    requires
        piece <= u32::MAX,
    ensures
        message_encoding(Message::Have(piece)).len() == 4 + payload_size(Message::Have(piece)),
        be32_value(message_encoding(Message::Have(piece))) == payload_size(Message::Have(piece)),
        known_frame(message_encoding(Message::Have(piece)).skip(4)),
        reads_as(message_encoding(Message::Have(piece)).skip(4), Message::Have(piece)),
{
    let e = message_encoding(Message::Have(piece));
    let f = e.skip(4);
    lemma_frame_parts(ID_HAVE, be32(low32(piece as int)));
    lemma_be32_roundtrip(low32(piece as int));
    lemma_low32_small(piece as int);
    assert(f.skip(1) =~= be32(low32(piece as int)));
}

proof fn lemma_frame_reads_back_bitfield(s: PieceSet)
    requires
        piece_set_wf(s), payload_size(Message::Bitfield(s)) <= u32::MAX,
    ensures
        message_encoding(Message::Bitfield(s)).len() == 4 + payload_size(Message::Bitfield(s)),
        be32_value(message_encoding(Message::Bitfield(s))) == payload_size(Message::Bitfield(s)),
        known_frame(message_encoding(Message::Bitfield(s)).skip(4)),
        forall|m2: Message|
            reads_as(message_encoding(Message::Bitfield(s)).skip(4), m2) ==> same_message(
                m2,
                Message::Bitfield(s),
            ),
{
    let e = message_encoding(Message::Bitfield(s));
    let f = e.skip(4);
    lemma_frame_parts(ID_BITFIELD, bitfield_payload(s));
    lemma_bitfield_reads_back(s);
    assert(f.skip(1) =~= bitfield_payload(s));
    assert(f[0] == ID_BITFIELD);
    assert forall|m2: Message| reads_as(f, m2) implies same_message(m2, Message::Bitfield(s)) by {
        match m2 {
            Message::Bitfield(x) => {},
            Message::Choke => { assert(f[0] == seq![ID_CHOKE][0]); },
            Message::Unchoke => { assert(f[0] == seq![ID_UNCHOKE][0]); },
            Message::Interested => { assert(f[0] == seq![ID_INTERESTED][0]); },
            Message::NotInterested => { assert(f[0] == seq![ID_NOT_INTERESTED][0]); },
            _ => {},
        }
    }
}

proof fn lemma_frame_reads_back_request(blk: Block)
    requires
        blk.piece <= u32::MAX, blk.offset <= u32::MAX, blk.length <= u32::MAX,
    ensures
        message_encoding(Message::Request(blk)).len() == 4 + payload_size(Message::Request(blk)),
        be32_value(message_encoding(Message::Request(blk))) == payload_size(Message::Request(blk)),
        known_frame(message_encoding(Message::Request(blk)).skip(4)),
        reads_as(message_encoding(Message::Request(blk)).skip(4), Message::Request(blk)),
{
    let e = message_encoding(Message::Request(blk));
    let f = e.skip(4);
    lemma_frame_parts(ID_REQUEST, block_payload(blk));
    lemma_block_reads_back(blk);
    assert(f.skip(1) =~= block_payload(blk));
}

proof fn lemma_frame_reads_back_cancel(blk: Block)
    requires
        blk.piece <= u32::MAX, blk.offset <= u32::MAX, blk.length <= u32::MAX,
    ensures
        message_encoding(Message::Cancel(blk)).len() == 4 + payload_size(Message::Cancel(blk)),
        be32_value(message_encoding(Message::Cancel(blk))) == payload_size(Message::Cancel(blk)),
        known_frame(message_encoding(Message::Cancel(blk)).skip(4)),
        reads_as(message_encoding(Message::Cancel(blk)).skip(4), Message::Cancel(blk)),
{
    let e = message_encoding(Message::Cancel(blk));
    let f = e.skip(4);
    lemma_frame_parts(ID_CANCEL, block_payload(blk));
    lemma_block_reads_back(blk);
    assert(f.skip(1) =~= block_payload(blk));
}

proof fn lemma_frame_reads_back_piece(d: BlockData)
    requires
        d.piece <= u32::MAX, d.offset <= u32::MAX, payload_size(Message::Piece(d)) <= u32::MAX,
    ensures
        message_encoding(Message::Piece(d)).len() == 4 + payload_size(Message::Piece(d)),
        be32_value(message_encoding(Message::Piece(d))) == payload_size(Message::Piece(d)),
        known_frame(message_encoding(Message::Piece(d)).skip(4)),
        reads_as(message_encoding(Message::Piece(d)).skip(4), Message::Piece(d)),
{
    let e = message_encoding(Message::Piece(d));
    let f = e.skip(4);
    let p = be32(low32(d.piece as int)) + be32(low32(d.offset as int)) + d.data@;
    lemma_frame_parts(ID_PIECE, p);
    lemma_piece_reads_back(d);
    assert(f.skip(1) =~= p);
    assert(f.skip(5) =~= p.skip(4));
    assert(f.skip(9) =~= p.skip(8));
}

proof fn lemma_frame_reads_back_port(port: u16)
    requires
        true,
    ensures
        message_encoding(Message::Port(port)).len() == 4 + payload_size(Message::Port(port)),
        be32_value(message_encoding(Message::Port(port))) == payload_size(Message::Port(port)),
        known_frame(message_encoding(Message::Port(port)).skip(4)),
        reads_as(message_encoding(Message::Port(port)).skip(4), Message::Port(port)),
{
    let e = message_encoding(Message::Port(port));
    let f = e.skip(4);
    lemma_frame_parts(ID_PORT, be16(port));
    lemma_be16_roundtrip(port);
    assert(f.skip(1) =~= be16(port));
}

proof fn lemma_frame_reads_back_bare(m: Message)
    requires
        m is Choke || m is Unchoke || m is Interested || m is NotInterested,
    ensures
        message_encoding(m).len() == 4 + payload_size(m),
        be32_value(message_encoding(m)) == payload_size(m),
        known_frame(message_encoding(m).skip(4)),
        reads_as(message_encoding(m).skip(4), m),
{
    let e = message_encoding(m);
    let f = e.skip(4);
    let id = e[4];
    lemma_frame_parts(id, seq![]);
    assert(f =~= seq![id]);
}

/// The frame of an encoded message (all but the length prefix) is a known
/// one, and the message written is what it reads as.
proof fn lemma_frame_reads_back(m: Message)
    requires
        fits_wire(m),
        !(m is KeepAlive),
    ensures
        message_encoding(m).len() == 4 + payload_size(m),
        be32_value(message_encoding(m)) == payload_size(m),
        known_frame(message_encoding(m).skip(4)),
        forall|m2: Message| reads_as(message_encoding(m).skip(4), m2) ==> same_message(m2, m),
{
    let f = message_encoding(m).skip(4);
    if m is Bitfield {
        lemma_frame_reads_back_bitfield(m->Bitfield_0);
    } else {
        match m {
            Message::Have(piece) => lemma_frame_reads_back_have(piece),
            Message::Request(blk) => lemma_frame_reads_back_request(blk),
            Message::Cancel(blk) => lemma_frame_reads_back_cancel(blk),
            Message::Piece(d) => lemma_frame_reads_back_piece(d),
            Message::Port(port) => lemma_frame_reads_back_port(port),
            _ => lemma_frame_reads_back_bare(m),
        }
        assert forall|m2: Message| reads_as(f, m2) implies same_message(m2, m) by {
            lemma_reads_as_unique(f, m, m2);
        }
    }
}

proof fn lemma_bitfield_reads_back(s: PieceSet)
    requires
        piece_set_wf(s),
    ensures
        bits_of(bitfield_payload(s)) == piece_set_elements(s),
{
    let k = (piece_set_nbits(s) + 7) / 8;
    lemma_bits_of_pack(piece_set_elements(s), k);
    assert(piece_set_elements(s).filter(|i: nat| i < 8 * k) =~= piece_set_elements(s));
}

proof fn lemma_piece_reads_back(d: BlockData)
    requires
        d.piece <= u32::MAX,
        d.offset <= u32::MAX,
    ensures
        ({
            let p = be32(low32(d.piece as int)) + be32(low32(d.offset as int)) + d.data@;
            &&& be32_value(p) == d.piece
            &&& be32_value(p.skip(4)) == d.offset
            &&& p.skip(8) == d.data@
        }),
{
    let p = be32(low32(d.piece as int)) + be32(low32(d.offset as int)) + d.data@;
    lemma_be32_roundtrip(low32(d.piece as int));
    lemma_be32_roundtrip(low32(d.offset as int));
    lemma_low32_small(d.piece as int);
    lemma_low32_small(d.offset as int);
    assert(p.skip(4) =~= be32(low32(d.offset as int)) + d.data@);
    assert(p.skip(8) =~= d.data@);
}

proof fn lemma_block_reads_back(blk: Block)
    requires
        blk.piece <= u32::MAX,
        blk.offset <= u32::MAX,
        blk.length <= u32::MAX,
    ensures
        reads_block(blk, block_payload(blk)),
        forall|b2: Block| reads_block(b2, block_payload(blk)) ==> b2 == blk,
{
    let p = block_payload(blk);
    lemma_be32_roundtrip(low32(blk.piece as int));
    lemma_low32_small(blk.piece as int);
    lemma_be32_roundtrip(low32(blk.offset as int));
    lemma_low32_small(blk.offset as int);
    lemma_be32_roundtrip(low32(blk.length as int));
    lemma_low32_small(blk.length as int);
    assert(p.skip(4) =~= be32(low32(blk.offset as int)) + be32(low32(blk.length as int)));
    assert(p.skip(8) =~= be32(low32(blk.length as int)));
}

/// Decoding reads back what encoding wrote, whatever follows it: for a
/// message whose numbers fit their 32 bits on the wire and whose frame is
/// within the codec's limit, the length prefix is the frame's length, the
/// frame is a known one, every message it reads as says the same as the
/// message written, and the bytes after it are left as they were.
pub proof fn lemma_decode_encode(codec: MessageCodec, m: Message, rest: Seq<u8>)
    requires
        fits_wire(m),
        m is KeepAlive || payload_size(m) <= codec.limit(),
    ensures
        ({
            let b = message_encoding(m) + rest;
            let length = be32_value(b) as int;
            &&& b.len() >= 4
            &&& length == payload_size(m)
            &&& m is KeepAlive <==> length == 0
            &&& length <= codec.limit() || length == 0
            &&& b.len() >= 4 + length
            &&& b.skip(4 + length) == rest
            &&& !(m is KeepAlive) ==> known_frame(b.subrange(4, 4 + length))
            &&& forall|m2: Message|
                reads_as(b.subrange(4, 4 + length), m2) ==> same_message(m2, m)
        }),
{
    let e = message_encoding(m);
    let b = e + rest;
    assert(b.skip(e.len() as int) =~= rest);
    if m is KeepAlive {
        lemma_be32_roundtrip(0);
        assert(b.subrange(0, 4) =~= be32(0));
    } else {
        lemma_frame_reads_back(m);
        assert(b.subrange(0, 4) =~= e.subrange(0, 4));
        assert(b.subrange(4, e.len() as int) =~= e.skip(4));

    }
}

} // verus!
