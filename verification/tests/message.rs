use bittorrent::bitset::PieceSet;
use bittorrent::crypto::Sha1;
use bittorrent::handshake::{Handshake, HandshakeError, PeerId};
use bittorrent::message::{Block, BlockData, CodecError, Message, MessageCodec};

fn verify_encode_decode(message: Message) {
    let codec = MessageCodec::new(1 << 20);
    let mut buffer = Vec::new();
    codec.encode(message.clone(), &mut buffer);
    let length = buffer.len();
    assert!(length >= 4);
    let message_read = codec.decode(&mut buffer).expect("error").expect("empty");
    assert_eq!(message_read, message);
    assert!(buffer.is_empty());
}

#[test]
fn mod_handshake() {
    let handshake = Handshake::new(Sha1([1; 20]), PeerId([2; 20]));

    let length = handshake.transport_bytes();
    let mut bytes = Vec::new();
    handshake.encode(&mut bytes);
    assert_eq!(length, bytes.len());

    let (handshake_read, used) = Handshake::decode(&bytes).expect("unable to decode");
    assert_eq!(used, length);
    assert_eq!(handshake, handshake_read);
}

#[test]
fn mod_keep_alive() {
    verify_encode_decode(Message::KeepAlive);
}

#[test]
fn mod_choke() {
    verify_encode_decode(Message::Choke);
}

#[test]
fn mod_unchoke() {
    verify_encode_decode(Message::Unchoke);
}

#[test]
fn mod_interested() {
    verify_encode_decode(Message::Interested);
}

#[test]
fn mod_not_interested() {
    verify_encode_decode(Message::NotInterested);
}

#[test]
fn mod_have() {
    verify_encode_decode(Message::Have(1234));
}

#[test]
fn mod_bitfield() {
    verify_encode_decode(Message::Bitfield(PieceSet::from_pieces(&[0, 1, 3])));
}

#[test]
fn mod_request() {
    verify_encode_decode(Message::Request(Block::new(1, 2, 3)));
}

#[test]
fn mod_piece() {
    verify_encode_decode(Message::Piece(BlockData { piece: 1, offset: 2, data: vec![1, 2, 3] }));
}

#[test]
fn verify_max_length() {
    let message = Message::Piece(BlockData { piece: 1, offset: 2, data: vec![1, 2, 3] });
    let mut buffer = Vec::new();
    MessageCodec::new(1 << 20).encode(message, &mut buffer);
    let codec = MessageCodec::new(5);
    assert!(codec.decode(&mut buffer).is_err());
}

#[test]
fn mod_cancel() {
    verify_encode_decode(Message::Cancel(Block::new(1, 2, 3)));
}

#[test]
fn mod_port() {
    verify_encode_decode(Message::Port(1234));
}

#[test]
fn frames_are_length_prefixed() {
    let codec = MessageCodec::new(1 << 20);
    let mut buffer = Vec::new();
    codec.encode(Message::Have(0x01020304), &mut buffer);
    assert_eq!(buffer, vec![0, 0, 0, 5, 4, 1, 2, 3, 4]);

    let mut buffer = Vec::new();
    codec.encode(Message::Bitfield(PieceSet::from_pieces(&[0, 1, 3])), &mut buffer);
    assert_eq!(buffer, vec![0, 0, 0, 2, 5, 0b1101_0000]);
}

#[test]
fn partial_frame_waits_for_more() {
    let codec = MessageCodec::new(1 << 20);
    let mut buffer = vec![0, 0, 0, 5, 4, 0];
    assert_eq!(codec.decode(&mut buffer), Ok(None));
    assert_eq!(buffer.len(), 6);
    buffer.extend_from_slice(&[0, 0, 9]);
    assert_eq!(codec.decode(&mut buffer), Ok(Some(Message::Have(9))));
}

#[test]
fn too_long_and_unknown_frames_are_errors() {
    let codec = MessageCodec::new(4);
    let mut buffer = vec![0, 0, 0, 5, 4, 0, 0, 0, 9];
    assert_eq!(codec.decode(&mut buffer), Err(CodecError::TooLong { length: 5, max_length: 4 }));

    let codec = MessageCodec::new(100);
    let mut buffer = vec![0, 0, 0, 1, 42];
    assert_eq!(codec.decode(&mut buffer), Err(CodecError::Invalid { id: 42, length: 1 }));
}

#[test]
fn two_frames_decode_one_after_the_other() {
    let codec = MessageCodec::new(1 << 20);
    let mut buffer = Vec::new();
    codec.encode(Message::Choke, &mut buffer);
    codec.encode(Message::Port(6881), &mut buffer);
    assert_eq!(codec.decode(&mut buffer), Ok(Some(Message::Choke)));
    assert_eq!(codec.decode(&mut buffer), Ok(Some(Message::Port(6881))));
    assert_eq!(codec.decode(&mut buffer), Ok(None));
}

#[test]
fn handshake_needs_all_its_bytes() {
    let handshake = Handshake::new(Sha1([3; 20]), PeerId([4; 20]));
    let mut bytes = Vec::new();
    handshake.encode(&mut bytes);
    assert_eq!(bytes.len(), 68);
    assert_eq!(bytes[0], 19);
    assert_eq!(Handshake::decode(&bytes[..67]), Err(HandshakeError::Incomplete));
    assert!(handshake.is_standard_protocol());
}

#[test]
fn sha1_from_hex() {
    let sha1 = Sha1::from_hex("e90cf5ec83e174d7dcb94821560dac201ae1f663").expect("valid hex");
    assert_eq!(sha1.0[0], 0xe9);
    assert_eq!(sha1.0[19], 0x63);
    assert!(Sha1::from_hex("e90c").is_none());
    assert!(Sha1::from_hex("zz0cf5ec83e174d7dcb94821560dac201ae1f663").is_none());
}

#[test]
fn block_global_offset() {
    let block = Block::new(3, 16384, 16384);
    assert_eq!(block.global_offset(32768), 3 * 32768 + 16384);
    assert_eq!(Block::new(0, 5, 1).global_offset(100), 5);
}
