use crate::available_pieces::{
    add_peer, has_peer, remove_peer, AvailablePiece, PieceState,
};
use crate::blocks::{lemma_take_blocks_len, take_blocks, Blocks};
use crate::message::Block;
use vstd::prelude::*;

verus! {

/// A piece being downloaded: the blocks not handed out yet, and the blocks
/// handed out and given back, which go out again first.
#[derive(Debug)]
pub struct ActivePiece {
    pub index: usize,
    /// The peers that have the piece, each once.
    pub peers_with_piece: Vec<u64>,
    /// The blocks not handed out yet.
    pub unassigned_blocks: Blocks,
    /// The blocks handed out and given back, oldest first.
    pub released_blocks: Vec<Block>,
}

/// The smaller of two numbers.
pub open spec fn min_nat(a: nat, b: nat) -> nat {
    if a < b { a } else { b }
}

impl ActivePiece {
    /// The blocks not handed out yet.
    pub open spec fn unassigned(&self) -> Blocks {
        self.unassigned_blocks
    }

    /// The blocks given back, oldest first.
    pub open spec fn released(&self) -> Seq<Block> {
        self.released_blocks@
    }

    pub open spec fn wf(&self) -> bool {
        self.peers_with_piece@.no_duplicates()
    }

    /// The blocks that `try_assign_n(n, ..)` hands out: given-back blocks
    /// first, then fresh ones, `n` in all if there are that many.
    pub open spec fn take_spec(&self, n: nat) -> Seq<Block> {
        let k = min_nat(n, self.released().len());
        self.released().take(k as int) + take_blocks(self.unassigned(), (n - k) as nat).0
    }

    /// Whether `after` is this piece after `try_assign_n(n, ..)`.
    pub open spec fn taken_to(&self, after: ActivePiece, n: nat) -> bool {
        let k = min_nat(n, self.released().len());
        &&& after.index == self.index
        &&& after.peers_with_piece@ == self.peers_with_piece@
        &&& after.released() == self.released().skip(k as int)
        &&& after.unassigned() == take_blocks(self.unassigned(), (n - k) as nat).1
    }

    pub fn new(piece: AvailablePiece, blocks: Blocks) -> (a: Self)
        ensures
            a.index == piece.index,
            a.peers_with_piece@ == piece.peers_with_piece@,
            a.unassigned() == blocks,
            a.released() == Seq::<Block>::empty(),
    {
        Self {
            index: piece.index,
            unassigned_blocks: blocks,
            released_blocks: Vec::new(),
            peers_with_piece: piece.peers_with_piece,
        }
    }

    /// The peers that have the piece.
    pub fn peers(&self) -> (r: &[u64])
        ensures
            r@ == self.peers_with_piece@,
    {
        self.peers_with_piece.as_slice()
    }

    /// Gives a block back, to be handed out again before fresh ones.
    pub fn unassign(&mut self, block: Block)
        requires
            block.piece == old(self).index,
        ensures
            final(self).index == old(self).index,
            final(self).peers_with_piece@ == old(self).peers_with_piece@,
            final(self).unassigned() == old(self).unassigned(),
            final(self).released() == old(self).released().push(block),
    {
        self.released_blocks.push(block);
    }

    /// Hands out up to `n` blocks into `dest`, given-back blocks first, and
    /// reports how many.
    pub fn try_assign_n(&mut self, n: usize, dest: &mut Vec<Block>) -> (r: usize)
        ensures
            final(dest)@ == old(dest)@ + old(self).take_spec(n as nat),
            r == old(self).take_spec(n as nat).len(),
            r <= n,
            old(self).taken_to(*final(self), n as nat),
    {
        let ghost before = *self;
        let released_n = if n < self.released_blocks.len() { n } else { self.released_blocks.len() };
        let mut taken = self.released_blocks.split_off(released_n);
        std::mem::swap(&mut taken, &mut self.released_blocks);
        assert(taken@ == before.released().take(released_n as int));
        dest.append(&mut taken);
        let mut assigned = released_n;
        proof {
            lemma_take_blocks_len(before.unassigned(), (n - released_n) as nat);
        }
        while assigned < n
            invariant
                released_n <= assigned <= n,
                released_n == min_nat(n as nat, before.released().len()),
                before == *old(self),
                self.index == before.index,
                self.peers_with_piece@ == before.peers_with_piece@,
                self.released() == before.released().skip(released_n as int),
                take_blocks(before.unassigned(), (n - released_n) as nat) == ({
                    let (more, left) = take_blocks(self.unassigned(), (n - assigned) as nat);
                    (dest@.skip(old(dest)@.len() + released_n) + more, left)
                }),
                dest@.len() == old(dest)@.len() + assigned,
                dest@.take(old(dest)@.len() + released_n) == old(dest)@ + before.released().take(released_n as int),
            decreases n - assigned,
        {
            let ghost cur = self.unassigned();
            let ghost d = dest@;
            match self.unassigned_blocks.next() {
                Some(block) => {
                    dest.push(block);
                    assigned += 1;
                    proof {
                        assert(dest@.skip(old(dest)@.len() + released_n) =~= d.skip(old(dest)@.len() + released_n).push(block));
                        assert(dest@.take(old(dest)@.len() + released_n) =~= d.take(old(dest)@.len() + released_n));
                        let (more, left) = take_blocks(self.unassigned(), (n - assigned) as nat);
                        assert(take_blocks(cur, (n - assigned + 1) as nat) == (seq![block] + more, left));
                        assert(d.skip(old(dest)@.len() + released_n).push(block) + more =~= d.skip(old(dest)@.len() + released_n) + (seq![block] + more));
                    }
                },
                None => {
                    proof {
                        let o = old(dest)@.len() + released_n;
                        assert(take_blocks(cur, (n - assigned) as nat) == (Seq::<Block>::empty(), cur));
                        assert(d.skip(o) + Seq::<Block>::empty() =~= d.skip(o));
                        assert(take_blocks(before.unassigned(), (n - released_n) as nat).0 == d.skip(o));
                        assert(min_nat(n as nat, before.released().len()) == released_n);
                        assert(before.take_spec(n as nat) == before.released().take(released_n as int) + take_blocks(before.unassigned(), (n - released_n) as nat).0);
                        assert(before.take_spec(n as nat) == before.released().take(released_n as int) + d.skip(o));
                        assert(dest@ =~= dest@.take(o) + dest@.skip(o));
                        assert(dest@ =~= old(dest)@ + before.take_spec(n as nat));
                    }
                    return assigned;
                },
            }
        }
        proof {
            assert(take_blocks(self.unassigned(), 0) == (Seq::<Block>::empty(), self.unassigned()));
            assert(dest@.skip(old(dest)@.len() + released_n) + Seq::<Block>::empty() =~= dest@.skip(old(dest)@.len() + released_n));
            assert(dest@ =~= dest@.take(old(dest)@.len() + released_n) + dest@.skip(old(dest)@.len() + released_n));
        }
        assigned
    }
}

impl AvailablePiece {
    /// The piece of an active piece, with its peers, as it goes back to the
    /// available pieces.
    pub fn from(piece: ActivePiece) -> (p: Self)
        ensures
            p.index == piece.index,
            p.peers_with_piece@ == piece.peers_with_piece@,
    {
        Self { index: piece.index, peers_with_piece: piece.peers_with_piece }
    }
}

/// The blocks that the pieces `ps` hand out to a peer `addr` asking for `n`:
/// each piece that `addr` has in turn, until `n` are handed out.
pub open spec fn assign_out(ps: Seq<ActivePiece>, addr: u64, n: nat) -> Seq<Block>
    decreases ps.len(),
{
    if ps.len() == 0 || n == 0 {
        Seq::empty()
    } else if ps[0].peers_with_piece@.contains(addr) {
        let b = ps[0].take_spec(n);
        b + assign_out(ps.drop_first(), addr, (n - b.len()) as nat)
    } else {
        assign_out(ps.drop_first(), addr, n)
    }
}

/// Whether `qs` are the pieces `ps` after handing out the blocks of
/// `assign_out(ps, addr, n)`.
pub open spec fn assign_after(ps: Seq<ActivePiece>, qs: Seq<ActivePiece>, addr: u64, n: nat) -> bool
    decreases ps.len(),
{
    if ps.len() == 0 {
        qs.len() == 0
    } else if n == 0 {
        qs == ps
    } else {
        &&& qs.len() == ps.len()
        &&& if ps[0].peers_with_piece@.contains(addr) {
            &&& ps[0].taken_to(qs[0], n)
            &&& assign_after(
                ps.drop_first(),
                qs.drop_first(),
                addr,
                (n - ps[0].take_spec(n).len()) as nat,
            )
        } else {
            &&& qs[0] == ps[0]
            &&& assign_after(ps.drop_first(), qs.drop_first(), addr, n)
        }
    }
}

/// A piece hands out no more blocks than asked.
pub proof fn lemma_take_spec_len(p: ActivePiece, n: nat)
    ensures
        p.take_spec(n).len() <= n,
{
    let k = min_nat(n, p.released().len());
    lemma_take_blocks_len(p.unassigned(), (n - k) as nat);
}

/// The pieces hand out no more blocks than asked.
pub proof fn lemma_assign_out_len(ps: Seq<ActivePiece>, addr: u64, n: nat)
    ensures
        assign_out(ps, addr, n).len() <= n,
    decreases ps.len(),
{
    if ps.len() > 0 && n > 0 {
        lemma_take_spec_len(ps[0], n);
        if ps[0].peers_with_piece@.contains(addr) {
            lemma_assign_out_len(ps.drop_first(), addr, (n - ps[0].take_spec(n).len()) as nat);
        } else {
            lemma_assign_out_len(ps.drop_first(), addr, n);
        }
    }
}

/// Handing out blocks keeps each piece's index and peers, in order.
pub proof fn lemma_assign_after_keeps(ps: Seq<ActivePiece>, qs: Seq<ActivePiece>, addr: u64, n: nat)
    requires
        assign_after(ps, qs, addr, n),
    ensures
        qs.len() == ps.len(),
        forall|i: int|
            0 <= i < ps.len() ==> (#[trigger] qs[i]).index == ps[i].index && qs[i].peers_with_piece@
                == ps[i].peers_with_piece@,
    decreases ps.len(),
{
    if ps.len() > 0 && n > 0 {
        let m = if ps[0].peers_with_piece@.contains(addr) {
            (n - ps[0].take_spec(n).len()) as nat
        } else {
            n
        };
        lemma_assign_after_keeps(ps.drop_first(), qs.drop_first(), addr, m);
        assert forall|i: int| 0 <= i < ps.len() implies (#[trigger] qs[i]).index == ps[i].index
            && qs[i].peers_with_piece@ == ps[i].peers_with_piece@ by {
            if i > 0 {
                assert(qs[i] == qs.drop_first()[i - 1]);
                assert(ps[i] == ps.drop_first()[i - 1]);
            }
        }
    }
}

/// The pieces being downloaded, in the order they were started.
pub struct ActivePieces {
    pieces: Vec<ActivePiece>,
}

impl ActivePieces {
    /// The pieces, in the order they were started.
    pub closed spec fn pieces(&self) -> Seq<ActivePiece> {
        self.pieces@
    }

    /// Each piece once, with each of its peers once.
    pub open spec fn wf(&self) -> bool {
        &&& forall|i: int, j: int|
            0 <= i < j < self.pieces().len() ==> self.pieces()[i].index != self.pieces()[j].index
        &&& forall|i: int| 0 <= i < self.pieces().len() ==> (#[trigger] self.pieces()[i]).wf()
    }

    /// Whether a piece is being downloaded.
    pub open spec fn has(&self, index: usize) -> bool {
        exists|i: int| 0 <= i < self.pieces().len() && (#[trigger] self.pieces()[i]).index == index
    }

    /// Where a piece being downloaded stands.
    pub open spec fn position(&self, index: usize) -> int {
        choose|i: int| 0 <= i < self.pieces().len() && (#[trigger] self.pieces()[i]).index == index
    }

    pub fn new() -> (s: Self)
        ensures
            s.pieces() == Seq::<ActivePiece>::empty(),
            s.wf(),
    {
        Self { pieces: Vec::new() }
    }

    fn find(&self, index: usize) -> (r: Option<usize>)
        requires
            self.wf(),
        ensures
            r is Some <==> self.has(index),
            r matches Some(i) ==> i < self.pieces().len() && self.pieces()[i as int].index == index
                && self.position(index) == i,
    {
        let mut i: usize = 0;
        while i < self.pieces.len()
            invariant
                i <= self.pieces@.len(),
                self.wf(),
                forall|j: int| 0 <= j < i ==> self.pieces@[j].index != index,
            decreases self.pieces@.len() - i,
        {
            if self.pieces[i].index == index {
                proof {
                    let p = self.position(index);
                    assert(self.pieces()[i as int].index == index);
                    assert(self.pieces()[p].index == index);
                    assert(p == i);
                }
                return Some(i);
            }
            i += 1;
        }
        None
    }

    /// Whether a piece is being downloaded.
    pub fn contains(&self, piece: usize) -> (r: bool)
        requires
            self.wf(),
        ensures
            r == self.has(piece),
    {
        self.find(piece).is_some()
    }

    /// The peers that have a piece being downloaded, in the order they
    /// announced it.
    pub fn peers_of(&self, piece: usize) -> (r: Vec<u64>)
        requires
            self.wf(),
            self.has(piece),
        ensures
            r@ == self.pieces()[self.position(piece)].peers_with_piece@,
    {
        let i = self.find(piece).unwrap();
        let peers = self.pieces[i].peers();
        let mut out: Vec<u64> = Vec::new();
        let mut j: usize = 0;
        while j < peers.len()
            invariant
                j <= peers@.len(),
                out@ == peers@.take(j as int),
            decreases peers@.len() - j,
        {
            out.push(peers[j]);
            j += 1;
            assert(out@ =~= peers@.take(j as int));
        }
        assert(peers@.take(peers@.len() as int) =~= peers@);
        out
    }

    /// Starts downloading a piece, in place of any piece under its index.
    pub fn insert(&mut self, index: usize, piece: ActivePiece)
        requires
            old(self).wf(),
            piece.wf(),
            piece.index == index,
        ensures
            final(self).wf(),
            old(self).has(index) ==> final(self).pieces() == old(self).pieces().update(
                old(self).position(index),
                piece,
            ),
            !old(self).has(index) ==> final(self).pieces() == old(self).pieces().push(piece),
    {
        match self.find(index) {
            Some(i) => {
                self.pieces.set(i, piece);
                proof {
                    assert forall|a: int| 0 <= a < self.pieces().len() implies (#[trigger] self.pieces()[a]).wf() by {
                        if a != i {
                            assert(self.pieces()[a] == old(self).pieces()[a]);
                        }
                    }
                    assert forall|a: int, b: int|
                        0 <= a < b < self.pieces().len() implies self.pieces()[a].index != self.pieces()[b].index by {
                        assert(self.pieces()[a].index == old(self).pieces()[a].index);
                        assert(self.pieces()[b].index == old(self).pieces()[b].index);
                    }
                }
            },
            None => {
                self.pieces.push(piece);
                proof {
                    assert forall|a: int| 0 <= a < self.pieces().len() implies (#[trigger] self.pieces()[a]).wf() by {
                        if a < old(self).pieces().len() {
                            assert(self.pieces()[a] == old(self).pieces()[a]);
                        }
                    }
                    assert forall|i: int, j: int|
                        0 <= i < j < self.pieces().len() implies self.pieces()[i].index != self.pieces()[j].index by {
                        if j == self.pieces().len() - 1 {
                            assert(self.pieces()[i] == old(self).pieces()[i]);
                        }
                    }
                }
            },
        }
    }

    /// Records that a peer has a piece being downloaded.
    pub fn peer_has_piece(&mut self, piece: usize, addr: u64)
        requires
            old(self).wf(),
            old(self).has(piece),
        ensures
            final(self).wf(),
            ({
                let i = old(self).position(piece);
                let p = old(self).pieces()[i];
                let q = final(self).pieces()[i];
                &&& final(self).pieces().len() == old(self).pieces().len()
                &&& forall|j: int| 0 <= j < old(self).pieces().len() && j != i ==> final(self).pieces()[j]
                    == old(self).pieces()[j]
                &&& q.index == p.index
                &&& q.unassigned() == p.unassigned()
                &&& q.released() == p.released()
                &&& q.peers_with_piece@ == if p.peers_with_piece@.contains(addr) {
                    p.peers_with_piece@
                } else {
                    p.peers_with_piece@.push(addr)
                }
            }),
    {
        let i = self.find(piece).unwrap();
        add_peer(&mut self.pieces[i].peers_with_piece, addr);
        proof {
            assert forall|a: int, b: int|
                0 <= a < b < self.pieces().len() implies self.pieces()[a].index != self.pieces()[b].index by {
                assert(self.pieces()[a].index == old(self).pieces()[a].index);
                assert(self.pieces()[b].index == old(self).pieces()[b].index);
            }
        }
    }

    /// Records that a peer that had a piece being downloaded has gone; the
    /// piece is an orphan when no peer has it any more, and stays.
    pub fn peer_disconnected(&mut self, index: usize, addr: u64) -> (r: PieceState)
        requires
            old(self).wf(),
            old(self).has(index),
            old(self).pieces()[old(self).position(index)].peers_with_piece@.contains(addr),
        ensures
            final(self).wf(),
            ({
                let i = old(self).position(index);
                let p = old(self).pieces()[i];
                let q = final(self).pieces()[i];
                &&& final(self).pieces().len() == old(self).pieces().len()
                &&& forall|j: int| 0 <= j < old(self).pieces().len() && j != i ==> final(self).pieces()[j]
                    == old(self).pieces()[j]
                &&& q.index == p.index
                &&& q.unassigned() == p.unassigned()
                &&& q.released() == p.released()
                &&& q.peers_with_piece@.to_set() == p.peers_with_piece@.to_set().remove(addr)
                &&& q.peers_with_piece@.len() == p.peers_with_piece@.len() - 1
                &&& r == if q.peers_with_piece@.len() == 0 { PieceState::Orphan } else { PieceState::Active }
            }),
    {
        let i = self.find(index).unwrap();
        remove_peer(&mut self.pieces[i].peers_with_piece, addr);
        proof {
            assert forall|a: int, b: int|
                0 <= a < b < self.pieces().len() implies self.pieces()[a].index != self.pieces()[b].index by {
                assert(self.pieces()[a].index == old(self).pieces()[a].index);
                assert(self.pieces()[b].index == old(self).pieces()[b].index);
            }
        }
        if self.pieces[i].peers_with_piece.len() == 0 {
            PieceState::Orphan
        } else {
            PieceState::Active
        }
    }

    /// Stops downloading a piece and gives it back.
    pub fn remove(&mut self, piece: usize) -> (r: ActivePiece)
        requires
            old(self).wf(),
            old(self).has(piece),
        ensures
            final(self).wf(),
            r == old(self).pieces()[old(self).position(piece)],
            final(self).pieces() == old(self).pieces().remove(old(self).position(piece)),
    {
        let i = self.find(piece).unwrap();
        let r = self.pieces.remove(i);
        proof {
            old(self).pieces().remove_ensures(i as int);
            assert forall|a: int, b: int|
                0 <= a < b < self.pieces().len() implies self.pieces()[a].index != self.pieces()[b].index by {
                let a2 = if a < i { a } else { a + 1 };
                let b2 = if b < i { b } else { b + 1 };
                assert(self.pieces()[a] == old(self).pieces()[a2]);
                assert(self.pieces()[b] == old(self).pieces()[b2]);
            }
            assert forall|a: int| 0 <= a < self.pieces().len() implies (#[trigger] self.pieces()[a]).wf() by {
                let a2 = if a < i { a } else { a + 1 };
                assert(self.pieces()[a] == old(self).pieces()[a2]);
            }
        }
        r
    }

    /// Gives a block back to the piece it belongs to, if that piece is being
    /// downloaded; reports whether it was.
    pub fn unassign(&mut self, block: Block) -> (r: bool)
        requires
            old(self).wf(),
        ensures
            final(self).wf(),
            r == old(self).has(block.piece),
            !r ==> final(self).pieces() == old(self).pieces(),
            r ==> ({
                let i = old(self).position(block.piece);
                let p = old(self).pieces()[i];
                let q = final(self).pieces()[i];
                &&& final(self).pieces().len() == old(self).pieces().len()
                &&& forall|j: int| 0 <= j < old(self).pieces().len() && j != i ==> final(self).pieces()[j]
                    == old(self).pieces()[j]
                &&& q.index == p.index
                &&& q.peers_with_piece@ == p.peers_with_piece@
                &&& q.unassigned() == p.unassigned()
                &&& q.released() == p.released().push(block)
            }),
    {
        match self.find(block.piece) {
            Some(i) => {
                self.pieces[i].unassign(block);
                proof {
                    assert forall|a: int, b: int|
                        0 <= a < b < self.pieces().len() implies self.pieces()[a].index != self.pieces()[b].index by {
                        assert(self.pieces()[a].index == old(self).pieces()[a].index);
                        assert(self.pieces()[b].index == old(self).pieces()[b].index);
                    }
                }
                true
            },
            None => false,
        }
    }

    /// Hands out up to `n` blocks to peer `addr` from the pieces it has, in
    /// the order they were started, each piece its given-back blocks first;
    /// reports how many.
    pub fn try_assign_n(&mut self, addr: u64, n: usize, blocks: &mut Vec<Block>) -> (r: usize)
        requires
            old(self).wf(),
        ensures
            final(self).wf(),
            final(blocks)@ == old(blocks)@ + assign_out(old(self).pieces(), addr, n as nat),
            r == assign_out(old(self).pieces(), addr, n as nat).len(),
            r <= n,
            assign_after(old(self).pieces(), final(self).pieces(), addr, n as nat),
    {
        let ghost ps = self.pieces@;
        let ghost start = blocks@;
        let mut assigned: usize = 0;
        let mut i: usize = 0;
        proof {
            assert(ps.skip(0) =~= ps);
            assert(blocks@.skip(start.len() as int) =~= Seq::<Block>::empty());
            assert forall|qs: Seq<ActivePiece>| assign_after(ps.skip(0), qs, addr, n as nat) implies assign_after(
                ps,
                self.pieces@.take(0) + qs,
                addr,
                n as nat,
            ) by {
                assert(self.pieces@.take(0) + qs =~= qs);
            }
        }
        while i < self.pieces.len() && assigned < n
            invariant
                ps == old(self).pieces(),
                start == old(blocks)@,
                i <= ps.len(),
                self.pieces@.len() == ps.len(),
                self.pieces@.skip(i as int) == ps.skip(i as int),
                assigned <= n,
                blocks@.len() == start.len() + assigned,
                blocks@.take(start.len() as int) == start,
                assign_out(ps, addr, n as nat) == blocks@.skip(start.len() as int) + assign_out(
                    ps.skip(i as int),
                    addr,
                    (n - assigned) as nat,
                ),
                forall|qs: Seq<ActivePiece>|
                    assign_after(ps.skip(i as int), qs, addr, (n - assigned) as nat) ==> assign_after(
                        ps,
                        self.pieces@.take(i as int) + qs,
                        addr,
                        n as nat,
                    ),
            decreases ps.len() - i,
        {
            let ghost before = self.pieces@;
            let ghost b0 = blocks@;
            let ghost m = (n - assigned) as nat;
            let ghost rest = ps.skip(i as int);
            proof {
                assert(rest[0] == ps[i as int]);
                assert(rest.drop_first() =~= ps.skip(i + 1));
                assert(before[i as int] == ps[i as int]) by {
                    assert(before.skip(i as int)[0] == before[i as int]);
                }
            }
            if has_peer(&self.pieces[i].peers_with_piece, addr) {
                let got = self.pieces[i].try_assign_n(n - assigned, blocks);
                proof {
                    let p = ps[i as int];
                    let q = self.pieces@[i as int];
                    assert(p.take_spec(m).len() == got);
                    assert(self.pieces@ == before.update(i as int, q));
                    assert(self.pieces@.skip(i + 1) =~= before.skip(i + 1));
                    assert(blocks@.skip(start.len() as int) =~= b0.skip(start.len() as int) + p.take_spec(m));
                    assert(blocks@.take(start.len() as int) =~= b0.take(start.len() as int));
                    let m2 = (m - got) as nat;
                    assert forall|qs: Seq<ActivePiece>|
                        #[trigger] assign_after(ps.skip(i + 1), qs, addr, m2) implies assign_after(
                            ps,
                            self.pieces@.take(i + 1) + qs,
                            addr,
                            n as nat,
                        ) by {
                        let qs2 = seq![q] + qs;
                        assert(qs2.drop_first() =~= qs);
                        assert(qs2[0] == q);
                        assert(assign_after(rest, qs2, addr, m));
                        assert(self.pieces@.take(i + 1) + qs =~= before.take(i as int) + qs2);
                    }
                }
                assigned += got;
            } else {
                proof {
                    assert forall|qs: Seq<ActivePiece>|
                        #[trigger] assign_after(ps.skip(i + 1), qs, addr, m) implies assign_after(
                            ps,
                            self.pieces@.take(i + 1) + qs,
                            addr,
                            n as nat,
                        ) by {
                        let qs2 = seq![ps[i as int]] + qs;
                        assert(qs2.drop_first() =~= qs);
                        assert(assign_after(rest, qs2, addr, m));
                        assert(self.pieces@.take(i + 1) + qs =~= before.take(i as int) + qs2);
                    }
                }
            }
            i += 1;
        }
        proof {
            let rest = ps.skip(i as int);
            assert(assign_out(rest, addr, (n - assigned) as nat) =~= Seq::<Block>::empty());
            assert(assign_after(rest, rest, addr, (n - assigned) as nat));
            assert(self.pieces@.take(i as int) + rest =~= self.pieces@);
            assert(blocks@ =~= blocks@.take(start.len() as int) + blocks@.skip(start.len() as int));
            lemma_assign_out_len(ps, addr, n as nat);
            lemma_assign_after_keeps(ps, self.pieces@, addr, n as nat);
            assert forall|a: int, b: int|
                0 <= a < b < self.pieces().len() implies self.pieces()[a].index != self.pieces()[b].index by {
                assert(self.pieces()[a].index == ps[a].index);
                assert(self.pieces()[b].index == ps[b].index);
            }
            assert forall|a: int| 0 <= a < self.pieces().len() implies (#[trigger] self.pieces()[a]).wf() by {
                assert(self.pieces()[a].peers_with_piece@ == ps[a].peers_with_piece@);
                assert(ps[a].wf());
            }
        }
        assigned
    }
}

} // verus!
