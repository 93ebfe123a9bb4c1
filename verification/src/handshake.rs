use crate::crypto::Sha1;
use crate::text::string_from_utf8;
use vstd::prelude::*;
use vstd::string::StringSliceAdditionalSpecFns;
use vstd::utf8::{encode_utf8, valid_utf8};

verus! {

/// The 20-byte id a peer gives itself.
#[derive(PartialEq, Eq, Clone, Copy, Debug)]
pub struct PeerId(pub [u8; 20]);

/// The protocol string of version 1.0 of the BitTorrent protocol.
pub open spec fn standard_protocol() -> Seq<char> {
    "BitTorrent protocol"@
}

/// The first message of a connection:
/// `<pstrlen><pstr><reserved><info_hash><peer_id>`, with eight reserved bytes
/// that are all zero.
#[derive(PartialEq, Clone, Debug)]
pub struct Handshake {
    pub protocol: String,
    pub info_hash: Sha1,
    pub peer_id: PeerId,
}

/// What reading a handshake can meet.
#[derive(PartialEq, Eq, Structural, Clone, Copy, Debug)]
pub enum HandshakeError {
    /// The bytes end before the handshake does.
    Incomplete,
    /// The protocol string is not UTF-8.
    InvalidProtocol,
}

/// The bytes of a handshake with this protocol string, info hash and peer id.
pub open spec fn handshake_encoding(protocol: Seq<u8>, info_hash: Seq<u8>, peer_id: Seq<u8>) -> Seq<u8> {
    seq![protocol.len() as u8] + protocol + Seq::new(8, |i: int| 0u8) + info_hash + peer_id
}

/// The number of bytes a handshake with a protocol string of `n` bytes takes.
pub open spec fn handshake_size(n: nat) -> nat {
    1 + n + 8 + 20 + 20
}

impl Handshake {
    /// The UTF-8 bytes of the protocol string.
    pub open spec fn protocol_bytes(&self) -> Seq<u8> {
        encode_utf8(self.protocol@)
    }

    /// The bytes this handshake is written as.
    pub open spec fn encoding(&self) -> Seq<u8> {
        handshake_encoding(self.protocol_bytes(), self.info_hash.0@, self.peer_id.0@)
    }

    /// A handshake for the standard protocol.
    pub fn new(info_hash: Sha1, peer_id: PeerId) -> (h: Self)
        ensures
            h.protocol@ == standard_protocol(),
            h.info_hash == info_hash,
            h.peer_id == peer_id,
    {
        Self { protocol: "BitTorrent protocol".to_owned(), info_hash, peer_id }
    }

    /// Whether the protocol string is that of version 1.0.
    pub fn is_standard_protocol(&self) -> (r: bool)
        ensures
            r == (self.protocol@ == standard_protocol()),
    {
        self.protocol == "BitTorrent protocol".to_owned()
    }

    /// The number of bytes the handshake takes on the wire.
    pub fn transport_bytes(&self) -> (r: usize)
        requires
            handshake_size(self.protocol_bytes().len()) <= usize::MAX,
        ensures
            r == handshake_size(self.protocol_bytes().len()),
    {
        1 + self.protocol.as_str().as_bytes().len() + 8 + 20 + 20
    }

    /// Appends the handshake. The length of the protocol string must fit its
    /// one byte.
    pub fn encode(&self, out: &mut Vec<u8>)
        requires
            self.protocol_bytes().len() <= 255,
        ensures
            final(out)@ == old(out)@ + self.encoding(),
    {
        let ghost start = out@;
        let protocol = self.protocol.as_str().as_bytes();
        out.push(protocol.len() as u8);
        let mut i: usize = 0;
        while i < protocol.len()
            invariant
                i <= protocol@.len(),
                out@ == start + seq![protocol@.len() as u8] + protocol@.subrange(0, i as int),
            decreases protocol@.len() - i,
        {
            out.push(protocol[i]);
            i += 1;
            assert(out@ =~= start + seq![protocol@.len() as u8] + protocol@.subrange(0, i as int));
        }
        let mut k: usize = 0;
        while k < 8
            invariant
                k <= 8,
                out@ == start + seq![protocol@.len() as u8] + protocol@ + Seq::new(k as nat, |j: int| 0u8),
            decreases 8 - k,
        {
            out.push(0);
            k += 1;
            assert(out@ =~= start + seq![protocol@.len() as u8] + protocol@ + Seq::new(k as nat, |j: int| 0u8));
        }
        let mut j: usize = 0;
        while j < 20
            invariant
                j <= 20,
                out@ == start + seq![protocol@.len() as u8] + protocol@ + Seq::new(8, |j: int| 0u8)
                    + self.info_hash.0@.subrange(0, j as int),
            decreases 20 - j,
        {
            out.push(self.info_hash.0[j]);
            j += 1;
            assert(out@ =~= start + seq![protocol@.len() as u8] + protocol@ + Seq::new(8, |j: int| 0u8)
                + self.info_hash.0@.subrange(0, j as int));
        }
        let mut j: usize = 0;
        while j < 20
            invariant
                j <= 20,
                out@ == start + seq![protocol@.len() as u8] + protocol@ + Seq::new(8, |j: int| 0u8)
                    + self.info_hash.0@ + self.peer_id.0@.subrange(0, j as int),
            decreases 20 - j,
        {
            out.push(self.peer_id.0[j]);
            j += 1;
            assert(out@ =~= start + seq![protocol@.len() as u8] + protocol@ + Seq::new(8, |j: int| 0u8)
                + self.info_hash.0@ + self.peer_id.0@.subrange(0, j as int));
        }
        assert(self.info_hash.0@.subrange(0, 20) =~= self.info_hash.0@);
        assert(self.peer_id.0@.subrange(0, 20) =~= self.peer_id.0@);
        assert(protocol@.subrange(0, protocol@.len() as int) =~= protocol@);
    }

    /// Reads a handshake from the front of `bytes`, giving it and the number
    /// of bytes it took: an error where the bytes end before the handshake
    /// does, or where the protocol string is not UTF-8. The reserved bytes
    /// are skipped, whatever they hold.
    pub fn decode(bytes: &[u8]) -> (r: Result<(Handshake, usize), HandshakeError>)
        ensures
            ({
                let b = bytes@;
                let n = b[0] as int;
                if b.len() == 0 || b.len() < handshake_size(n as nat) {
                    r == Err::<(Handshake, usize), HandshakeError>(HandshakeError::Incomplete)
                } else if !valid_utf8(b.subrange(1, 1 + n)) {
                    r == Err::<(Handshake, usize), HandshakeError>(HandshakeError::InvalidProtocol)
                } else {
                    r matches Ok((h, used)) && used == handshake_size(n as nat)
                        && h.protocol_bytes() == b.subrange(1, 1 + n)
                        && h.info_hash.0@ == b.subrange(1 + n + 8, 1 + n + 28)
                        && h.peer_id.0@ == b.subrange(1 + n + 28, 1 + n + 48)
                }
            }),
    {
        if bytes.len() == 0 {
            return Err(HandshakeError::Incomplete);
        }
        let n = bytes[0] as usize;
        if bytes.len() < 1 + n + 8 + 20 + 20 {
            return Err(HandshakeError::Incomplete);
        }
        let protocol = vstd::slice::slice_to_vec(vstd::slice::slice_subrange(bytes, 1, 1 + n));
        let protocol = match string_from_utf8(protocol) {
            Some(protocol) => protocol,
            None => return Err(HandshakeError::InvalidProtocol),
        };
        let start = 1 + n + 8;
        let mut info_hash = [0u8; 20];
        let mut peer_id = [0u8; 20];
        let mut j: usize = 0;
        while j < 20
            invariant
                j <= 20,
                start + 40 <= bytes@.len(),
                forall|k: int| 0 <= k < j ==> info_hash@[k] == bytes@[start + k],
                forall|k: int| 0 <= k < j ==> peer_id@[k] == bytes@[start + 20 + k],
            decreases 20 - j,
        {
            info_hash[j] = bytes[start + j];
            peer_id[j] = bytes[start + 20 + j];
            j += 1;
        }
        assert(info_hash@ =~= bytes@.subrange(start as int, start + 20));
        assert(peer_id@ =~= bytes@.subrange(start + 20, start + 40));
        Ok((Handshake { protocol, info_hash: Sha1(info_hash), peer_id: PeerId(peer_id) }, start + 40))
    }
}

/// Reading back a written handshake gives the same handshake, and takes as
/// many bytes as `transport_bytes` says.
pub proof fn lemma_handshake_roundtrip(h: Handshake, rest: Seq<u8>)
    requires
        h.protocol_bytes().len() <= 255,
    ensures
        ({
            let b = h.encoding() + rest;
            let n = h.protocol_bytes().len() as int;
            &&& b[0] == n
            &&& b.len() >= handshake_size(n as nat)
            &&& h.encoding().len() == handshake_size(n as nat)
            &&& valid_utf8(b.subrange(1, 1 + n))
            &&& b.subrange(1, 1 + n) == h.protocol_bytes()
            &&& b.subrange(1 + n + 8, 1 + n + 28) == h.info_hash.0@
            &&& b.subrange(1 + n + 28, 1 + n + 48) == h.peer_id.0@
        }),
{
    let p = h.protocol_bytes();
    let n = p.len() as int;
    let e = h.encoding();
    let b = e + rest;
    assert(b.subrange(1, 1 + n) =~= p);
    assert(b.subrange(1 + n + 8, 1 + n + 28) =~= h.info_hash.0@);
    assert(b.subrange(1 + n + 28, 1 + n + 48) =~= h.peer_id.0@);
    vstd::utf8::encode_utf8_valid_utf8(h.protocol@);
}

} // verus!
