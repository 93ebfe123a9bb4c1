use crate::blocks::{ceil_div, Blocks};
use crate::crypto::{sha1_digest, sha1_of, Sha1};
use crate::joiner::{all_in, joined, no_blocks};
use crate::sizes::{piece_count, Sizes};
use vstd::prelude::*;

verus! {

/// What adding a block to its piece gives.
#[derive(Debug, PartialEq, Eq)]
pub enum Status {
    /// Some block of the piece is still missing.
    Incomplete,
    /// Every block is in, and the piece does not have the expected hash.
    Invalid,
    /// Every block is in, and the piece has the expected hash.
    Valid,
}

/// The blocks received so far of one piece.
struct PieceState {
    size: usize,
    offset: u64,
    sha1: Sha1,
    data: Vec<Option<Vec<u8>>>,
}

/// Keeps the blocks of pieces as they come and checks each complete piece
/// against its SHA-1 hash.
pub struct PieceAssembler {
    block_size: usize,
    pieces: Vec<PieceState>,
}

impl PieceAssembler {
    /// The size of the blocks.
    pub closed spec fn block_size(&self) -> usize {
        self.block_size
    }

    /// The number of pieces.
    pub closed spec fn piece_count(&self) -> nat {
        self.pieces@.len()
    }

    /// The hash a piece must have.
    pub closed spec fn digest(&self, piece: int) -> Sha1 {
        self.pieces@[piece].sha1
    }

    /// Where a piece starts in the torrent.
    pub closed spec fn offset(&self, piece: int) -> u64 {
        self.pieces@[piece].offset
    }

    /// The blocks of a piece received so far, by their index in the piece.
    pub closed spec fn slots(&self, piece: int) -> Seq<Option<Seq<u8>>> {
        self.pieces@[piece].data@.map_values(
            |o: Option<Vec<u8>>|
                match o {
                    Some(v) => Some(v@),
                    None => None,
                },
        )
    }

    /// An assembler for the pieces of a torrent with this layout, with their
    /// hashes in order; no block is in yet.
    pub fn new(sizes: &Sizes, hashes: Vec<Sha1>) -> (j: Self)
        requires
            sizes.total_pieces == hashes@.len(),
            sizes.total_pieces == piece_count(sizes.piece_size as nat, sizes.total_size as nat),
            sizes.total_size + sizes.piece_size <= usize::MAX + 1,
            sizes.block_size > 0,
        ensures
            j.block_size() == sizes.block_size,
            j.piece_count() == sizes.total_pieces,
            forall|p: int|
                0 <= p < sizes.total_pieces ==> {
                    &&& #[trigger] j.digest(p) == hashes@[p]
                    &&& j.offset(p) == sizes.offset_of(p as nat)
                    &&& j.slots(p) == no_blocks(ceil_div(sizes.size_of(p as nat), sizes.block_size as nat))
                },
    {
        let mut pieces: Vec<PieceState> = Vec::new();
        let mut piece: usize = 0;
        while piece < hashes.len()
            invariant
                piece <= hashes@.len(),
                sizes.total_pieces == hashes@.len(),
                sizes.total_pieces == piece_count(sizes.piece_size as nat, sizes.total_size as nat),
                sizes.total_size + sizes.piece_size <= usize::MAX + 1,
                sizes.block_size > 0,
                pieces@.len() == piece,
                forall|p: int|
                    0 <= p < piece ==> {
                        let s = #[trigger] pieces@[p];
                        &&& s.sha1 == hashes@[p]
                        &&& s.offset == sizes.offset_of(p as nat)
                        &&& s.data@.len() == ceil_div(sizes.size_of(p as nat), sizes.block_size as nat)
                        &&& forall|i: int| 0 <= i < s.data@.len() ==> s.data@[i] is None
                    },
            decreases hashes@.len() - piece,
        {
            proof {
                crate::scheduler::lemma_piece_in_range(*sizes, piece as nat);
            }
            let size = sizes.piece_size(piece);
            let offset = sizes.piece_offset(piece);
            let blocks = Blocks::for_piece(sizes, piece).len();
            let mut data: Vec<Option<Vec<u8>>> = Vec::new();
            let mut i: usize = 0;
            while i < blocks
                invariant
                    i <= blocks,
                    data@.len() == i,
                    forall|k: int| 0 <= k < i ==> data@[k] is None,
                decreases blocks - i,
            {
                data.push(None);
                i += 1;
            }
            pieces.push(PieceState { size, offset: offset as u64, sha1: hashes[piece], data });
            piece += 1;
        }
        let j = Self { block_size: sizes.block_size, pieces };
        proof {
            assert forall|p: int| 0 <= p < sizes.total_pieces implies j.slots(p) == no_blocks(
                ceil_div(sizes.size_of(p as nat), sizes.block_size as nat),
            ) by {
                assert(j.slots(p) =~= no_blocks(ceil_div(sizes.size_of(p as nat), sizes.block_size as nat)));
            }
        }
        j
    }

    /// Adds a block of a piece, at an offset in the piece; the block goes in
    /// at the offset divided by the block size. When every block of the piece
    /// is in, the blocks put together are checked against the piece's hash;
    /// they stay in.
    #[verifier::loop_isolation(false)]
    pub fn add(&mut self, piece: usize, offset: usize, data: Vec<u8>) -> (r: Status)
        requires
            piece < old(self).piece_count(),
            old(self).block_size() > 0,
            ((offset / old(self).block_size()) as int) < old(self).slots(piece as int).len(),
        ensures
            final(self).block_size() == old(self).block_size(),
            final(self).piece_count() == old(self).piece_count(),
            forall|p: int|
                0 <= p < old(self).piece_count() ==> #[trigger] final(self).digest(p) == old(self).digest(p)
                    && final(self).offset(p) == old(self).offset(p),
            forall|p: int|
                0 <= p < old(self).piece_count() && p != piece ==> #[trigger] final(self).slots(p) == old(self).slots(
                    p,
                ),
            ({
                let filled = old(self).slots(piece as int).update(
                    (offset / old(self).block_size()) as int,
                    Some(data@),
                );
                if !all_in(filled) {
                    &&& r == Status::Incomplete
                    &&& final(self).slots(piece as int) == filled
                } else {
                    &&& final(self).slots(piece as int) == filled
                    &&& r == if sha1_digest(joined(filled)) == old(self).digest(piece as int).0@ {
                        Status::Valid
                    } else {
                        Status::Invalid
                    }
                }
            }),
    {
        let block = offset / self.block_size;
        let ghost before = self.slots(piece as int);
        let ghost d = data@;
        self.pieces[piece].data.set(block, Some(data));
        let ghost filled = before.update(block as int, Some(d));
        proof {
            assert(self.slots(piece as int) =~= filled);
            assert forall|p: int| 0 <= p < self.pieces@.len() && p != piece implies #[trigger] self.pieces@[p] == old(self).pieces@[p] by {}
        }
        let ghost s1 = *self;
        let n = self.pieces[piece].data.len();
        let mut i: usize = 0;
        while i < n
            invariant
                piece < self.pieces@.len(),
                n == self.pieces@[piece as int].data@.len(),
                self.slots(piece as int) == filled,
                i <= n,
                forall|k: int| 0 <= k < i ==> #[trigger] filled[k] is Some,
                *self == s1,
            decreases n - i,
        {
            if self.pieces[piece].data[i].is_none() {
                proof {
                    assert(filled[i as int] is None);
                }
                return Status::Incomplete;
            }
            i += 1;
        }
        let mut piece_data: Vec<u8> = Vec::new();
        let mut k: usize = 0;
        while k < n
            invariant
                piece < self.pieces@.len(),
                n == self.pieces@[piece as int].data@.len(),
                self.slots(piece as int) == filled,
                all_in(filled),
                k <= n,
                piece_data@ == joined(filled.take(k as int)),
                *self == s1,
            decreases n - k,
        {
            let ghost before_k = piece_data@;
            match &self.pieces[piece].data[k] {
                Some(bytes) => {
                    piece_data.extend_from_slice(bytes.as_slice());
                    proof {
                        assert(filled[k as int] == Some(bytes@));
                        assert(piece_data@ =~= before_k + bytes@);
                    }
                },
                None => {
                    proof {
                        assert(filled[k as int] is Some);
                    }
                },
            }
            proof {
                let f = |o: Option<Seq<u8>>|
                    match o {
                        Some(b) => b,
                        None => Seq::<u8>::empty(),
                    };
                let t = filled.take(k + 1);
                assert(t.map_values(f) =~= filled.take(k as int).map_values(f).push(f(filled[k as int])));
                filled.take(k as int).map_values(f).lemma_flatten_push(f(filled[k as int]));
            }
            k += 1;
        }
        proof {
            assert(filled.take(n as int) =~= filled);
        }
        let digest = sha1_of(piece_data.as_slice());
        if crate::joiner::same_digest(&digest, &self.pieces[piece].sha1.0) {
            Status::Valid
        } else {
            Status::Invalid
        }
    }
}

} // verus!
