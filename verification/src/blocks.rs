use crate::message::Block;
use vstd::prelude::*;

verus! {

/// The blocks that cut the bytes `offset .. end` of a piece, in order, each
/// `block_size` bytes long but the last, which may be shorter.
pub open spec fn blocks_from(piece: usize, offset: nat, end: nat, block_size: nat) -> Seq<Block>
    decreases end - offset,
{
    if offset < end && block_size > 0 {
        let length = if block_size < end - offset { block_size } else { (end - offset) as nat };
        seq![Block { piece, offset: offset as usize, length: length as usize }]
            + blocks_from(piece, offset + length, end, block_size)
    } else {
        Seq::empty()
    }
}

/// The blocks that `k` calls of `next` give, and what they leave.
pub open spec fn take_blocks(b: Blocks, k: nat) -> (Seq<Block>, Blocks)
    decreases k,
{
    if k == 0 {
        (Seq::empty(), b)
    } else {
        match b.step() {
            None => (Seq::empty(), b),
            Some((block, rest)) => {
                let (more, left) = take_blocks(rest, (k - 1) as nat);
                (seq![block] + more, left)
            },
        }
    }
}

/// At most `k` blocks come of `k` calls.
pub proof fn lemma_take_blocks_len(b: Blocks, k: nat)
    ensures
        take_blocks(b, k).0.len() <= k,
    decreases k,
{
    if k > 0 {
        if let Some((block, rest)) = b.step() {
            lemma_take_blocks_len(rest, (k - 1) as nat);
        }
    }
}

/// The blocks of a whole piece start at its first byte, in that piece, cut
/// to the given size.
pub proof fn lemma_fresh(piece: usize, piece_size: usize, block_size: usize)
    ensures
        Blocks::fresh(piece, piece_size, block_size).piece() == piece,
        Blocks::fresh(piece, piece_size, block_size).offset() == 0,
        Blocks::fresh(piece, piece_size, block_size).end() == piece_size,
        Blocks::fresh(piece, piece_size, block_size).block_size() == block_size,
{
}

/// With a block size above zero, successive calls of `next` give blocks of
/// the same piece at offsets that grow strictly, from the current offset up
/// to, and not including, the offset they leave.
pub proof fn lemma_take_blocks_order(b: Blocks, k: nat)
    requires
        b.block_size() > 0,
    ensures
        ({
            let (out, left) = take_blocks(b, k);
            &&& left.piece() == b.piece()
            &&& left.block_size() == b.block_size()
            &&& left.end() == b.end()
            &&& b.offset() <= left.offset()
            &&& forall|i: int|
                0 <= i < out.len() ==> (#[trigger] out[i]).piece == b.piece() && b.offset() <= out[i].offset
                    && out[i].offset < left.offset()
            &&& forall|i: int, j: int| 0 <= i < j < out.len() ==> out[i].offset < out[j].offset
            &&& out.no_duplicates()
        }),
    decreases k,
{
    if k > 0 {
        if let Some((block, rest)) = b.step() {
            lemma_take_blocks_order(rest, (k - 1) as nat);
            let (more, left) = take_blocks(rest, (k - 1) as nat);
            let out = seq![block] + more;
            assert(take_blocks(b, k) == (out, left));
            assert(rest.offset() > b.offset());
            assert forall|i: int|
                0 <= i < out.len() implies (#[trigger] out[i]).piece == b.piece() && b.offset() <= out[i].offset
                    && out[i].offset < left.offset() by {
                if i > 0 {
                    assert(out[i] == more[i - 1]);
                }
            }
            assert forall|i: int, j: int| 0 <= i < j < out.len() implies out[i].offset < out[j].offset by {
                assert(out[j] == more[j - 1]);
                if i > 0 {
                    assert(out[i] == more[i - 1]);
                }
            }
        }
    }
}

/// Successive calls of `next` give the blocks still to come, in order: `k`
/// calls give the first `k` of them, and once all are given, nothing more;
/// what is left to come is the rest, so `len` counts it.
pub proof fn lemma_successive_blocks(b: Blocks, k: nat)
    requires
        b.block_size() > 0,
    ensures
        take_blocks(b, k).0 == b.remaining().take(
            if k < b.remaining().len() { k as int } else { b.remaining().len() as int },
        ),
        k >= b.remaining().len() ==> take_blocks(b, k).1.step() is None,
        take_blocks(b, k).1.remaining() == b.remaining().skip(
            if k < b.remaining().len() { k as int } else { b.remaining().len() as int },
        ),
        b.wf() ==> take_blocks(b, k).1.wf(),
    decreases k,
{
    let rem = b.remaining();
    if k == 0 {
        assert(rem.take(0) =~= Seq::<Block>::empty());
        assert(rem.skip(0) =~= rem);
    } else {
        match b.step() {
            None => {
                assert(rem.len() == 0);
                assert(rem.take(0) =~= Seq::<Block>::empty());
                assert(rem.skip(0) =~= rem);
            },
            Some((block, rest)) => {
                lemma_successive_blocks(rest, (k - 1) as nat);
                assert(rem == seq![block] + rest.remaining());
                let m = if k < rem.len() { k as int } else { rem.len() as int };
                assert(rem.take(m) =~= seq![block] + rest.remaining().take(m - 1));
                assert(rem.skip(m) =~= rest.remaining().skip(m - 1));
            },
        }
    }
}

/// The number of blocks of `block_size` bytes that `size` bytes take,
/// rounding up.
pub open spec fn ceil_div(size: nat, block_size: nat) -> nat
    recommends
        block_size > 0,
{
    ((size + block_size - 1) / block_size as int) as nat
}

/// The blocks of one piece, handed out in order.
#[derive(Debug)]
pub struct Blocks {
    block_size: usize,
    piece: usize,
    offset: usize,
    end: usize,
}

impl Blocks {
    pub closed spec fn piece(&self) -> usize {
        self.piece
    }

    pub closed spec fn offset(&self) -> nat {
        self.offset as nat
    }

    pub closed spec fn end(&self) -> nat {
        self.end as nat
    }

    pub closed spec fn block_size(&self) -> nat {
        self.block_size as nat
    }

    /// What `next` gives and leaves: the block at the current offset and the
    /// blocks after it, or nothing once the piece is covered.
    pub closed spec fn step(self) -> Option<(Block, Blocks)> {
        if self.offset < self.end {
            let remaining = (self.end - self.offset) as usize;
            let length = if self.block_size < remaining { self.block_size } else { remaining };
            Some(
                (
                    Block { piece: self.piece, offset: self.offset, length },
                    Blocks { offset: (self.offset + length) as usize, ..self },
                ),
            )
        } else {
            None
        }
    }

    /// The current offset lies within the piece, or at its end: `new`
    /// makes it so and `next` keeps it.
    pub open spec fn wf(&self) -> bool {
        self.offset() <= self.end()
    }

    /// The blocks still to come, in order; with a zero block size, none,
    /// though `next` keeps giving empty blocks while any bytes are left.
    pub open spec fn remaining(&self) -> Seq<Block> {
        blocks_from(self.piece(), self.offset(), self.end(), self.block_size())
    }

    /// The blocks of a whole piece of `piece_size` bytes, none handed out.
    pub closed spec fn fresh(piece: usize, piece_size: usize, block_size: usize) -> Blocks {
        Blocks { block_size, piece, offset: 0, end: piece_size }
    }

    pub fn new(piece: usize, piece_size: usize, block_size: usize) -> (b: Self)
        ensures
            b == Blocks::fresh(piece, piece_size, block_size),
            b.piece() == piece,
            b.offset() == 0,
            b.end() == piece_size,
            b.block_size() == block_size,
            b.wf(),
    {
        Self { block_size, piece, offset: 0, end: piece_size }
    }

    /// The next block: `block_size` bytes at the current offset, or fewer at
    /// the end of the piece; none once the piece is covered.
    pub fn next(&mut self) -> (r: Option<Block>)
        ensures
            final(self).piece() == old(self).piece(),
            final(self).end() == old(self).end(),
            final(self).block_size() == old(self).block_size(),
            old(self).offset() < old(self).end() ==> ({
                let length = if old(self).block_size() < old(self).end() - old(self).offset() {
                    old(self).block_size()
                } else {
                    (old(self).end() - old(self).offset()) as nat
                };
                &&& r == Some(Block::new_spec(old(self).piece(), old(self).offset() as usize, length as usize))
                &&& final(self).offset() == old(self).offset() + length
            }),
            old(self).offset() >= old(self).end() ==> r is None && final(self).offset() == old(self).offset(),
            match old(self).step() {
                Some((b, rest)) => r == Some(b) && *final(self) == rest,
                None => r is None && *final(self) == *old(self),
            },
            old(self).block_size() > 0 ==> (match r {
                Some(b) => old(self).remaining() == seq![b] + final(self).remaining(),
                None => old(self).remaining().len() == 0,
            }),
            old(self).wf() ==> final(self).wf(),
    {
        if self.offset < self.end {
            let remaining = self.end - self.offset;
            let block_size = if self.block_size < remaining { self.block_size } else { remaining };
            let block = Block::new(self.piece, self.offset, block_size);
            self.offset += block_size;
            Some(block)
        } else {
            None
        }
    }

    /// The number of blocks still to come, rounding up; with a zero block
    /// size, `usize::MAX` while bytes are left (as many as `next` keeps
    /// giving) and zero once none are.
    pub fn len(&self) -> (r: usize)
        ensures
            self.block_size() > 0 && self.wf() ==> r == ceil_div(
                (self.end() - self.offset()) as nat,
                self.block_size(),
            ),
            self.block_size() > 0 && self.wf() ==> r == self.remaining().len(),
            self.block_size() == 0 ==> r == if self.offset() >= self.end() { 0 } else { usize::MAX },
    {
        if self.offset >= self.end {
            proof {
                if self.block_size > 0 && self.offset == self.end {
                    vstd::arithmetic::div_mod::lemma_basic_div(
                        (self.block_size - 1) as int,
                        self.block_size as int,
                    );
                    lemma_blocks_cover(self.piece, self.offset as nat, self.end as nat, self.block_size as nat);
                }
            }
            0
        } else if self.block_size == 0 {
            usize::MAX
        } else {
            let left = self.end - self.offset;
            let r = (left - 1) / self.block_size + 1;
            proof {
                vstd::arithmetic::div_mod::lemma_div_plus_one((left - 1) as int, self.block_size as int);
                lemma_blocks_cover(self.piece, self.offset as nat, self.end as nat, self.block_size as nat);
            }
            r
        }
    }
}

/// The blocks of a piece cover it: they come one after another from its
/// start, each `block_size` bytes long but the last, and there are as many as
/// `len` says.
pub proof fn lemma_blocks_cover(piece: usize, offset: nat, end: nat, block_size: nat)
    requires
        block_size > 0,
        offset <= end <= usize::MAX,
    ensures
        blocks_from(piece, offset, end, block_size).len() == ceil_div((end - offset) as nat, block_size),
        forall|i: int|
            0 <= i < blocks_from(piece, offset, end, block_size).len() ==> {
                let b = #[trigger] blocks_from(piece, offset, end, block_size)[i];
                &&& b.piece == piece
                &&& b.offset == offset + i * block_size
                &&& 0 < b.length <= block_size
                &&& b.offset + b.length <= end
                &&& (b.length < block_size ==> b.offset + b.length == end)
            },
    decreases end - offset,
{
    let bs = blocks_from(piece, offset, end, block_size);
    if offset < end {
        let length = if block_size < end - offset { block_size } else { (end - offset) as nat };
        lemma_blocks_cover(piece, offset + length, end, block_size);
        let rest = blocks_from(piece, offset + length, end, block_size);
        let first = Block { piece, offset: offset as usize, length: length as usize };
        assert(bs == seq![first] + rest);
        if block_size < end - offset {
            assert(ceil_div((end - offset) as nat, block_size) == 1 + ceil_div(
                (end - offset - block_size) as nat,
                block_size,
            )) by {
                vstd::arithmetic::div_mod::lemma_div_plus_one(
                    (end - offset - block_size + block_size - 1) as int,
                    block_size as int,
                );
            }
        } else {
            assert(rest.len() == 0);
            assert(ceil_div((end - offset) as nat, block_size) == 1) by {
                vstd::arithmetic::div_mod::lemma_div_plus_one(
                    (end - offset - 1) as int,
                    block_size as int,
                );
                vstd::arithmetic::div_mod::lemma_basic_div((end - offset - 1) as int, block_size as int);
            }
        }
        assert forall|i: int| 0 <= i < bs.len() implies {
            let b = #[trigger] bs[i];
            &&& b.piece == piece
            &&& b.offset == offset + i * block_size
            &&& 0 < b.length <= block_size
            &&& b.offset + b.length <= end
            &&& (b.length < block_size ==> b.offset + b.length == end)
        } by {
            if i > 0 {
                assert(bs[i] == rest[i - 1]);
                assert(offset + length + (i - 1) * block_size == offset + i * block_size) by (nonlinear_arith)
                    requires
                        length == block_size,
                ;
            }
        }
    } else {
        assert(ceil_div(0, block_size) == 0) by {
            vstd::arithmetic::div_mod::lemma_basic_div((block_size - 1) as int, block_size as int);
        }
    }
}

} // verus!
