use crate::blocks::{ceil_div, Blocks};
use crate::crypto::{sha1_digest, sha1_of, Sha1};
use crate::sizes::{piece_count, Sizes};
use vstd::prelude::*;

verus! {

/// What adding a block to its piece gives.
#[derive(Debug, PartialEq, Eq)]
pub enum Status {
    /// Some block of the piece is still missing.
    Incomplete,
    /// Every block is in, and the piece does not have the expected hash; its
    /// blocks are dropped.
    Invalid,
    /// Every block is in and the piece has the expected hash: its bytes, and
    /// where they start in the torrent.
    Complete { offset: u64, data: Vec<u8> },
}

/// The blocks received so far of one piece.
struct PieceState {
    size: usize,
    offset: u64,
    sha1: Sha1,
    data: Vec<Option<Vec<u8>>>,
}

/// The bytes of blocks put together in order; a missing block counts as no
/// bytes.
pub open spec fn joined(slots: Seq<Option<Seq<u8>>>) -> Seq<u8> {
    slots.map_values(
        |o: Option<Seq<u8>>|
            match o {
                Some(b) => b,
                None => Seq::empty(),
            },
    ).flatten()
}

/// Whether every block is in.
pub open spec fn all_in(slots: Seq<Option<Seq<u8>>>) -> bool {
    forall|i: int| 0 <= i < slots.len() ==> #[trigger] slots[i] is Some
}

/// No block received yet, for `n` blocks.
pub open spec fn no_blocks(n: nat) -> Seq<Option<Seq<u8>>> {
    Seq::new(n, |i: int| None)
}

/// Puts the blocks of pieces together as they come and checks each complete
/// piece against its SHA-1 hash.
pub struct Joiner {
    block_size: usize,
    pieces: Vec<PieceState>,
}

impl Joiner {
    /// The size of the blocks.
    pub closed spec fn block_size(&self) -> usize {
        self.block_size
    }

    /// The number of pieces.
    pub closed spec fn piece_count(&self) -> nat {
        self.pieces@.len()
    }

    /// The hash a piece must have.
    pub closed spec fn digest(&self, piece: int) -> Sha1 {
        self.pieces@[piece].sha1
    }

    /// Where a piece starts in the torrent.
    pub closed spec fn offset(&self, piece: int) -> u64 {
        self.pieces@[piece].offset
    }

    /// The blocks of a piece received so far, by their index in the piece.
    pub closed spec fn slots(&self, piece: int) -> Seq<Option<Seq<u8>>> {
        self.pieces@[piece].data@.map_values(
            |o: Option<Vec<u8>>|
                match o {
                    Some(v) => Some(v@),
                    None => None,
                },
        )
    }

    /// A joiner for the pieces of a torrent with this layout, with their
    /// hashes in order; no block is in yet.
    pub fn new(sizes: &Sizes, hashes: Vec<Sha1>) -> (j: Self)
        requires
            sizes.total_pieces == hashes@.len(),
            sizes.total_pieces == piece_count(sizes.piece_size as nat, sizes.total_size as nat),
            sizes.total_size + sizes.piece_size <= usize::MAX + 1,
            sizes.block_size > 0,
        ensures
            j.block_size() == sizes.block_size,
            j.piece_count() == sizes.total_pieces,
            forall|p: int|
                0 <= p < sizes.total_pieces ==> {
                    &&& #[trigger] j.digest(p) == hashes@[p]
                    &&& j.offset(p) == sizes.offset_of(p as nat)
                    &&& j.slots(p) == no_blocks(ceil_div(sizes.size_of(p as nat), sizes.block_size as nat))
                },
    {
        let mut pieces: Vec<PieceState> = Vec::new();
        let mut piece: usize = 0;
        while piece < hashes.len()
            invariant
                piece <= hashes@.len(),
                sizes.total_pieces == hashes@.len(),
                sizes.total_pieces == piece_count(sizes.piece_size as nat, sizes.total_size as nat),
                sizes.total_size + sizes.piece_size <= usize::MAX + 1,
                sizes.block_size > 0,
                pieces@.len() == piece,
                forall|p: int|
                    0 <= p < piece ==> {
                        let s = #[trigger] pieces@[p];
                        &&& s.sha1 == hashes@[p]
                        &&& s.offset == sizes.offset_of(p as nat)
                        &&& s.data@.len() == ceil_div(sizes.size_of(p as nat), sizes.block_size as nat)
                        &&& forall|i: int| 0 <= i < s.data@.len() ==> s.data@[i] is None
                    },
            decreases hashes@.len() - piece,
        {
            proof {
                crate::scheduler::lemma_piece_in_range(*sizes, piece as nat);
            }
            let size = sizes.piece_size(piece);
            let offset = sizes.piece_offset(piece);
            let blocks = Blocks::for_piece(sizes, piece).len();
            let mut data: Vec<Option<Vec<u8>>> = Vec::new();
            let mut i: usize = 0;
            while i < blocks
                invariant
                    i <= blocks,
                    data@.len() == i,
                    forall|k: int| 0 <= k < i ==> data@[k] is None,
                decreases blocks - i,
            {
                data.push(None);
                i += 1;
            }
            pieces.push(PieceState { size, offset: offset as u64, sha1: hashes[piece], data });
            piece += 1;
        }
        let j = Self { block_size: sizes.block_size, pieces };
        proof {
            assert forall|p: int| 0 <= p < sizes.total_pieces implies j.slots(p) == no_blocks(
                ceil_div(sizes.size_of(p as nat), sizes.block_size as nat),
            ) by {
                assert(j.slots(p) =~= no_blocks(ceil_div(sizes.size_of(p as nat), sizes.block_size as nat)));
            }
        }
        j
    }

    /// Whether a block of a piece can be added at this offset: the piece is
    /// one of the torrent's, the offset is a multiple of the block size and
    /// falls within the piece.
    pub fn fits(&self, piece: usize, offset: usize) -> (r: bool)
        ensures
            r == (piece < self.piece_count() && self.block_size() > 0 && offset % self.block_size() == 0
                && ((offset / self.block_size()) as int) < self.slots(piece as int).len()),
    {
        piece < self.pieces.len() && self.block_size > 0 && offset % self.block_size == 0
            && offset / self.block_size < self.pieces[piece].data.len()
    }

    /// Adds a block of a piece, at an offset in the piece that is a multiple
    /// of the block size. When that makes the piece whole, its blocks are
    /// taken out, put together and checked against the piece's hash.
    #[verifier::loop_isolation(false)]
    pub fn add(&mut self, piece: usize, offset: usize, data: Vec<u8>) -> (r: Status)
        requires
            piece < old(self).piece_count(),
            old(self).block_size() > 0,
            offset % old(self).block_size() == 0,
            ((offset / old(self).block_size()) as int) < old(self).slots(piece as int).len(),
        ensures
            final(self).block_size() == old(self).block_size(),
            final(self).piece_count() == old(self).piece_count(),
            forall|p: int|
                0 <= p < old(self).piece_count() ==> #[trigger] final(self).digest(p) == old(self).digest(p)
                    && final(self).offset(p) == old(self).offset(p),
            forall|p: int|
                0 <= p < old(self).piece_count() && p != piece ==> #[trigger] final(self).slots(p) == old(self).slots(
                    p,
                ),
            ({
                let filled = old(self).slots(piece as int).update(
                    (offset / old(self).block_size()) as int,
                    Some(data@),
                );
                if !all_in(filled) {
                    &&& r == Status::Incomplete
                    &&& final(self).slots(piece as int) == filled
                } else {
                    &&& final(self).slots(piece as int) == no_blocks(filled.len())
                    &&& if sha1_digest(joined(filled)) == old(self).digest(piece as int).0@ {
                        r matches Status::Complete { offset: o, data: d } && o == old(self).offset(piece as int)
                            && d@ == joined(filled)
                    } else {
                        r == Status::Invalid
                    }
                }
            }),
    {
        let block = offset / self.block_size;
        let ghost before = self.slots(piece as int);
        let ghost d = data@;
        self.pieces[piece].data.set(block, Some(data));
        let ghost filled = before.update(block as int, Some(d));
        proof {
            assert(self.slots(piece as int) =~= filled);
            assert forall|p: int| 0 <= p < self.pieces@.len() && p != piece implies #[trigger] self.pieces@[p] == old(self).pieces@[p] by {}
        }
        let ghost s1 = *self;
        let n = self.pieces[piece].data.len();
        let mut i: usize = 0;
        while i < n
            invariant
                piece < self.pieces@.len(),
                n == self.pieces@[piece as int].data@.len(),
                self.slots(piece as int) == filled,
                i <= n,
                forall|k: int| 0 <= k < i ==> #[trigger] filled[k] is Some,
                *self == s1,
            decreases n - i,
        {
            if self.pieces[piece].data[i].is_none() {
                proof {
                    assert(filled[i as int] is None);
                }
                return Status::Incomplete;
            }
            i += 1;
        }
        let mut piece_data: Vec<u8> = Vec::new();
        let mut k: usize = 0;
        while k < n
            invariant
                piece < self.pieces@.len(),
                n == self.pieces@[piece as int].data@.len(),
                self.slots(piece as int) == filled,
                all_in(filled),
                k <= n,
                piece_data@ == joined(filled.take(k as int)),
                *self == s1,
            decreases n - k,
        {
            let ghost before_k = piece_data@;
            match &self.pieces[piece].data[k] {
                Some(bytes) => {
                    piece_data.extend_from_slice(bytes.as_slice());
                    proof {
                        assert(filled[k as int] == Some(bytes@));
                        assert(piece_data@ =~= before_k + bytes@);
                    }
                },
                None => {
                    proof {
                        assert(filled[k as int] is Some);
                    }
                },
            }
            proof {
                let f = |o: Option<Seq<u8>>|
                    match o {
                        Some(b) => b,
                        None => Seq::<u8>::empty(),
                    };
                let t = filled.take(k + 1);
                assert(t.map_values(f) =~= filled.take(k as int).map_values(f).push(f(filled[k as int])));
                filled.take(k as int).map_values(f).lemma_flatten_push(f(filled[k as int]));
            }
            k += 1;
        }
        proof {
            assert(filled.take(n as int) =~= filled);
        }
        let mut m: usize = 0;
        while m < n
            invariant
                piece < self.pieces@.len(),
                n == self.pieces@[piece as int].data@.len(),
                m <= n,
                forall|q: int| 0 <= q < m ==> #[trigger] self.pieces@[piece as int].data@[q] is None,
                forall|p: int| 0 <= p < self.pieces@.len() && p != piece ==> #[trigger] self.pieces@[p] == old(self).pieces@[p],
                self.block_size == old(self).block_size,
                self.pieces@.len() == old(self).pieces@.len(),
                self.pieces@[piece as int].sha1 == old(self).pieces@[piece as int].sha1,
                self.pieces@[piece as int].offset == old(self).pieces@[piece as int].offset,
            decreases n - m,
        {
            self.pieces[piece].data.set(m, None);
            m += 1;
        }
        proof {
            assert(self.slots(piece as int) =~= no_blocks(filled.len()));
        }
        let digest = sha1_of(piece_data.as_slice());
        if same_digest(&digest, &self.pieces[piece].sha1.0) {
            Status::Complete { offset: self.pieces[piece].offset, data: piece_data }
        } else {
            Status::Invalid
        }
    }
}

/// Whether two digests are the same.
pub(crate) fn same_digest(a: &[u8; 20], b: &[u8; 20]) -> (r: bool)
    ensures
        r == (a@ == b@),
{
    let mut i: usize = 0;
    while i < 20
        invariant
            i <= 20,
            a@.len() == 20,
            b@.len() == 20,
            forall|k: int| 0 <= k < i ==> a@[k] == b@[k],
        decreases 20 - i,
    {
        if a[i] != b[i] {
            return false;
        }
        i += 1;
    }
    assert(a@ =~= b@);
    true
}

} // verus!
