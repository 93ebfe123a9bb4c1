use bit_set::BitSet;
use vstd::prelude::*;

verus! {

/// A set of piece indices, kept in a `bit_set::BitSet` (one bit per piece).
#[verifier::external_body]
#[derive(PartialEq, Eq, Debug)]
pub struct PieceSet {
    bits: BitSet,
}

/// The indices a `PieceSet` holds.
pub uninterp spec fn piece_set_elements(s: PieceSet) -> Set<nat>;

/// The length of the bit vector under a `PieceSet`: `BitSet::from_bytes`
/// makes it eight per byte, `insert` grows it to hold the index, `remove`
/// keeps it.
pub uninterp spec fn piece_set_nbits(s: PieceSet) -> nat;

/// Bit `i` of a byte string, the most significant bit of each byte first, as
/// `BitSet::from_bytes` and `BitVec::to_bytes` read and write them.
pub open spec fn bit_at(bytes: Seq<u8>, i: nat) -> bool {
    ((bytes[(i / 8) as int] >> ((7 - i % 8) as u8)) & 1u8) == 1u8
}

/// The set of indices of the set bits of a byte string.
pub open spec fn bits_of(bytes: Seq<u8>) -> Set<nat> {
    Set::new(|i: nat| i < bytes.len() * 8 && bit_at(bytes, i))
}

/// The byte whose bits, most significant first, say which of `8 * k` ..
/// `8 * k + 7` belong to `e`.
pub open spec fn packed_byte(e: Set<nat>, k: nat) -> u8 {
    (if e.contains(8 * k) { 0x80u8 } else { 0u8 }) | (if e.contains(8 * k + 1) { 0x40u8 } else { 0u8 })
        | (if e.contains(8 * k + 2) { 0x20u8 } else { 0u8 }) | (if e.contains(8 * k + 3) { 0x10u8 } else { 0u8 })
        | (if e.contains(8 * k + 4) { 0x08u8 } else { 0u8 }) | (if e.contains(8 * k + 5) { 0x04u8 } else { 0u8 })
        | (if e.contains(8 * k + 6) { 0x02u8 } else { 0u8 }) | (if e.contains(8 * k + 7) { 0x01u8 } else { 0u8 })
}

/// `n` bytes that carry the members of `e` below `8 * n`, one bit each.
pub open spec fn pack_bits(e: Set<nat>, n: nat) -> Seq<u8> {
    Seq::new(n, |k: int| packed_byte(e, k as nat))
}

/// Every index of a set lies below the length of its bit vector.
pub open spec fn piece_set_wf(s: PieceSet) -> bool {
    forall|i: nat| piece_set_elements(s).contains(i) ==> i < piece_set_nbits(s)
}

proof fn lemma_byte_bits(c0: bool, c1: bool, c2: bool, c3: bool, c4: bool, c5: bool, c6: bool, c7: bool, b: u8)
    by (bit_vector)
    requires
        b == (if c0 { 0x80u8 } else { 0u8 }) | (if c1 { 0x40u8 } else { 0u8 }) | (if c2 { 0x20u8 } else { 0u8 })
            | (if c3 { 0x10u8 } else { 0u8 }) | (if c4 { 0x08u8 } else { 0u8 }) | (if c5 { 0x04u8 } else { 0u8 })
            | (if c6 { 0x02u8 } else { 0u8 }) | (if c7 { 0x01u8 } else { 0u8 }),
    ensures
        ((b >> 7u8) & 1u8 == 1u8) == c0,
        ((b >> 6u8) & 1u8 == 1u8) == c1,
        ((b >> 5u8) & 1u8 == 1u8) == c2,
        ((b >> 4u8) & 1u8 == 1u8) == c3,
        ((b >> 3u8) & 1u8 == 1u8) == c4,
        ((b >> 2u8) & 1u8 == 1u8) == c5,
        ((b >> 1u8) & 1u8 == 1u8) == c6,
        ((b >> 0u8) & 1u8 == 1u8) == c7,
{
}

/// The bits of packed bytes are the members of the set below `8 * n`.
pub proof fn lemma_bits_of_pack(e: Set<nat>, n: nat)
    ensures
        bits_of(pack_bits(e, n)) == e.filter(|i: nat| i < 8 * n),
{
    let p = pack_bits(e, n);
    assert forall|i: nat| bits_of(p).contains(i) <==> e.filter(|i: nat| i < 8 * n).contains(i) by {
        if i < 8 * n {
            let k = i / 8;
            let j = i % 8;
            assert(8 * k + j == i);
            lemma_byte_bits(
                e.contains(8 * k),
                e.contains(8 * k + 1),
                e.contains(8 * k + 2),
                e.contains(8 * k + 3),
                e.contains(8 * k + 4),
                e.contains(8 * k + 5),
                e.contains(8 * k + 6),
                e.contains(8 * k + 7),
                packed_byte(e, k),
            );
            assert(p[k as int] == packed_byte(e, k));
        }
    }
    assert(bits_of(p) =~= e.filter(|i: nat| i < 8 * n));
}

impl PieceSet {
    /// Calls `BitSet::new`: an empty set over no bits.
    #[verifier::external_body]
    pub(crate) fn empty() -> (s: PieceSet)
        ensures
            piece_set_elements(s) == Set::<nat>::empty(),
            piece_set_nbits(s) == 0,
            piece_set_wf(s),
    {
        PieceSet { bits: BitSet::new() }
    }

    /// Calls `BitSet::from_bytes`: eight bits per byte, the most significant
    /// bit of each byte first; the set holds the indices of the set bits.
    /// `BitVec::from_bytes` panics when the number of bits overflows `usize`.
    #[verifier::external_body]
    pub(crate) fn of_bytes(bytes: &[u8]) -> (s: PieceSet)
        requires
            bytes@.len() * 8 <= usize::MAX,
        ensures
            piece_set_nbits(s) == bytes@.len() * 8,
            piece_set_elements(s) == bits_of(bytes@),
            piece_set_wf(s),
    {
        PieceSet { bits: BitSet::from_bytes(bytes) }
    }

    /// Calls `BitVec::to_bytes` on the set's bit vector (`BitSet::get_ref`):
    /// one byte per eight bits, rounding up, the most significant bit of each
    /// byte first, a bit set exactly where the set holds its index.
    #[verifier::external_body]
    pub(crate) fn bytes(&self) -> (bytes: Vec<u8>)
        ensures
            bytes@ == pack_bits(piece_set_elements(*self), (piece_set_nbits(*self) + 7) / 8),
            forall|i: nat| piece_set_elements(*self).contains(i) ==> i < bytes@.len() * 8,
    {
        self.bits.get_ref().to_bytes()
    }

    /// Calls `BitSet::contains`.
    #[verifier::external_body]
    pub(crate) fn has(&self, value: usize) -> (r: bool)
        ensures
            r == piece_set_elements(*self).contains(value as nat),
    {
        self.bits.contains(value)
    }

    /// Calls `BitSet::is_empty`, which tells whether the set holds nothing.
    #[verifier::external_body]
    pub(crate) fn is_empty(&self) -> (r: bool)
        ensures
            r == (piece_set_elements(*self) == Set::<nat>::empty()),
    {
        self.bits.is_empty()
    }

    /// Calls `BitSet::insert`, which grows the bit vector to hold `value` and
    /// reports whether `value` was absent. Growing past `usize::MAX` bits
    /// panics.
    #[verifier::external_body]
    pub(crate) fn add(&mut self, value: usize) -> (r: bool)
        requires
            value < usize::MAX,
        ensures
            piece_set_elements(*final(self)) == piece_set_elements(*old(self)).insert(value as nat),
            piece_set_nbits(*final(self)) == if value as nat >= piece_set_nbits(*old(self)) {
                value as nat + 1
            } else {
                piece_set_nbits(*old(self))
            },
            r == !piece_set_elements(*old(self)).contains(value as nat),
    {
        self.bits.insert(value)
    }

    /// Calls `BitSet::remove`, which reports whether `value` was present.
    #[verifier::external_body]
    pub(crate) fn take(&mut self, value: usize) -> (r: bool)
        ensures
            piece_set_elements(*final(self)) == piece_set_elements(*old(self)).remove(value as nat),
            piece_set_nbits(*final(self)) == piece_set_nbits(*old(self)),
            r == piece_set_elements(*old(self)).contains(value as nat),
    {
        self.bits.remove(value)
    }

    /// Calls `BitSet::count`, which counts the set bits: the number of
    /// indices in the set.
    #[verifier::external_body]
    pub(crate) fn count(&self) -> (r: usize)
        ensures
            r == piece_set_elements(*self).len(),
    {
        self.bits.count()
    }

    /// The set of the given pieces.
    pub fn from_pieces(pieces: &[usize]) -> (s: PieceSet)
        requires
            forall|i: int| 0 <= i < pieces@.len() ==> pieces@[i] < usize::MAX,
        ensures
            piece_set_wf(s),
            forall|e: nat| piece_set_elements(s).contains(e) <==> exists|i: int| 0 <= i < pieces@.len() && pieces@[i] == e,
    {
        let mut s = PieceSet::empty();
        let mut i: usize = 0;
        while i < pieces.len()
            invariant
                i <= pieces@.len(),
                forall|j: int| 0 <= j < pieces@.len() ==> pieces@[j] < usize::MAX,
                piece_set_wf(s),
                forall|e: nat| piece_set_elements(s).contains(e) <==> exists|j: int| 0 <= j < i && pieces@[j] == e,
            decreases pieces@.len() - i,
        {
            s.add(pieces[i]);
            proof {
                assert forall|e: nat| piece_set_elements(s).contains(e) <==> exists|j: int|
                    0 <= j < i + 1 && pieces@[j] == e by {
                    if e == pieces@[i as int] {
                        assert(pieces@[i as int] == e);
                    }
                }
            }
            i += 1;
        }
        s
    }

    /// Collects `BitSet::iter`, which yields the elements once each, in
    /// increasing order.
    #[verifier::external_body]
    pub(crate) fn elements(&self) -> (r: Vec<usize>)
        ensures
            forall|i: int, j: int| 0 <= i < j < r@.len() ==> r@[i] < r@[j],
            forall|e: nat|
                piece_set_elements(*self).contains(e) <==> exists|i: int|
                    0 <= i < r@.len() && r@[i] == e,
    {
        self.bits.iter().collect()
    }
}

impl Clone for PieceSet {
    /// Calls `BitSet::clone`.
    #[verifier::external_body]
    fn clone(&self) -> (r: PieceSet)
        ensures
            piece_set_elements(r) == piece_set_elements(*self),
            piece_set_nbits(r) == piece_set_nbits(*self),
    {
        PieceSet { bits: self.bits.clone() }
    }
}

} // verus!
