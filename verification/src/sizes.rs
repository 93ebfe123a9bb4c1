use crate::blocks::{ceil_div, Blocks};
use vstd::prelude::*;

verus! {

/// The layout of a torrent's bytes: pieces of `piece_size` bytes (the last
/// may be shorter), cut into blocks of `block_size` bytes. Sizes are counts
/// of bytes.
#[derive(Debug, Clone, Copy, PartialEq, Eq, Structural)]
pub struct Sizes {
    pub piece_size: usize,
    pub total_size: usize,
    pub block_size: usize,
    pub total_pieces: usize,
}

/// The number of pieces of `piece_size` bytes that `total_size` bytes take,
/// rounding up; with a zero piece size, `usize::MAX` for a torrent with bytes
/// and zero for one without.
pub open spec fn piece_count(piece_size: nat, total_size: nat) -> nat {
    if piece_size == 0 {
        if total_size == 0 { 0 } else { usize::MAX as nat }
    } else {
        ceil_div(total_size, piece_size)
    }
}

/// The pieces lie end to end over the torrent's bytes: each starts within
/// the torrent and holds at least one byte; each but the last is a whole
/// piece and ends where the next starts; the last ends at the torrent's end.
pub proof fn lemma_pieces_tile(sizes: Sizes, p: nat)
    requires
        sizes.piece_size > 0,
        sizes.total_pieces == piece_count(sizes.piece_size as nat, sizes.total_size as nat),
        p < sizes.total_pieces,
    ensures
        sizes.offset_of(p) < sizes.total_size,
        sizes.size_of(p) > 0,
        p + 1 < sizes.total_pieces ==> sizes.size_of(p) == sizes.piece_size && sizes.offset_of(p) + sizes.size_of(p)
            == sizes.offset_of(p + 1),
        p + 1 == sizes.total_pieces ==> sizes.offset_of(p) + sizes.size_of(p) == sizes.total_size,
{
    let ps = sizes.piece_size as int;
    let t = sizes.total_size as int;
    let q = (t + ps - 1) / ps;
    assert(q == sizes.total_pieces);
    vstd::arithmetic::div_mod::lemma_fundamental_div_mod(t + ps - 1, ps);
    let r = (t + ps - 1) % ps;
    assert(0 <= r < ps) by {
        vstd::arithmetic::div_mod::lemma_mod_bound(t + ps - 1, ps);
    }
    assert(t + ps - 1 == ps * q + r);
    assert(ps * (p + 1) <= ps * q) by (nonlinear_arith)
        requires
            p + 1 <= q,
            ps > 0,
    ;
    assert(ps * (p + 1) == ps * p + ps) by (nonlinear_arith);
    assert(sizes.offset_of(p) == ps * p);
    if p + 1 < q {
        assert(ps * (p + 2) <= ps * q) by (nonlinear_arith)
            requires
                p + 2 <= q,
                ps > 0,
        ;
        assert(ps * (p + 2) == ps * (p + 1) + ps) by (nonlinear_arith);
        assert(sizes.offset_of(p + 1) == ps * (p + 1));
    } else {
        assert(ps * q == ps * p + ps) by (nonlinear_arith)
            requires
                q == p + 1,
        ;
    }
}

impl Sizes {
    /// The byte at which a piece starts.
    pub open spec fn offset_of(&self, piece: nat) -> nat {
        (self.piece_size * piece) as nat
    }

    /// The number of bytes of a piece: the piece size, or what is left of the
    /// torrent for the last piece.
    pub open spec fn size_of(&self, piece: nat) -> nat {
        let start = self.offset_of(piece);
        let end: nat = if start + self.piece_size < self.total_size {
            (start + self.piece_size) as nat
        } else {
            self.total_size as nat
        };
        (end - start) as nat
    }

    /// Whether a piece's bounds can be computed without overflow and the
    /// piece starts within the torrent.
    pub open spec fn piece_in_range(&self, piece: nat) -> bool {
        &&& self.piece_size * (piece + 1) <= usize::MAX
        &&& self.offset_of(piece) <= self.total_size
    }

    pub fn new(piece_size: usize, total_size: usize, block_size: usize) -> (s: Self)
        ensures
            s.piece_size == piece_size,
            s.total_size == total_size,
            s.block_size == block_size,
            s.total_pieces == piece_count(piece_size as nat, total_size as nat),
    {
        let total_pieces = if piece_size == 0 {
            if total_size == 0 {
                0
            } else {
                usize::MAX
            }
        } else if total_size == 0 {
            assert(ceil_div(0, piece_size as nat) == 0) by {
                vstd::arithmetic::div_mod::lemma_basic_div((piece_size - 1) as int, piece_size as int);
            }
            0
        } else {
            proof {
                vstd::arithmetic::div_mod::lemma_div_plus_one((total_size - 1) as int, piece_size as int);
            }
            (total_size - 1) / piece_size + 1
        };
        Self { piece_size, total_size, block_size, total_pieces }
    }

    /// The number of bytes of a piece.
    pub fn piece_size(&self, piece: usize) -> (r: usize)
        requires
            self.piece_in_range(piece as nat),
        ensures
            r == self.size_of(piece as nat),
    {
        proof {
            assert(self.piece_size * (piece + 1) == self.piece_size * piece + self.piece_size) by (nonlinear_arith);
            assert(self.piece_size * piece <= self.piece_size * (piece + 1)) by (nonlinear_arith);
        }
        let piece_start = self.piece_offset(piece);
        let end = piece_start + self.piece_size;
        let piece_end = if end < self.total_size { end } else { self.total_size };
        piece_end - piece_start
    }

    /// The byte at which a piece starts.
    pub fn piece_offset(&self, piece: usize) -> (r: usize)
        requires
            self.piece_size * piece <= usize::MAX,
        ensures
            r == self.offset_of(piece as nat),
    {
        self.piece_size * piece
    }
}

impl Blocks {
    /// The blocks of a piece of a torrent.
    pub fn for_piece(sizes: &Sizes, piece: usize) -> (b: Blocks)
        requires
            sizes.piece_in_range(piece as nat),
        ensures
            b == Blocks::fresh(piece, sizes.size_of(piece as nat) as usize, sizes.block_size),
            b.piece() == piece,
            b.offset() == 0,
            b.end() == sizes.size_of(piece as nat),
            b.block_size() == sizes.block_size,
    {
        Blocks::new(piece, sizes.piece_size(piece), sizes.block_size)
    }
}

} // verus!
