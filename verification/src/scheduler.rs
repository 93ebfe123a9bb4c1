use std::collections::HashMap;

use crate::active_pieces::{ActivePiece, ActivePieces};
use crate::active_pieces::{assign_after, assign_out};
use crate::available_pieces::{
    any_for, lemma_next_for_exists, lemma_next_for_unique, next_for, next_piece, AvailablePiece,
    AvailablePieces, PieceState,
};
use crate::blocks::{take_blocks, Blocks};
use crate::bitset::{piece_set_elements, piece_set_wf, PieceSet};
use crate::flights::{
    flight_view, flights_apart, holds, lemma_announced_keeps, lemma_choked_keeps, lemma_completed_keeps,
    lemma_disconnected_keeps, lemma_downloaded_keeps, lemma_invalidated_keeps, lemma_released_keeps,
    lemma_unchoked_keeps, lemma_view, unique_indices,
};
use crate::message::Block;
use crate::sizes::{piece_count, Sizes};
use vstd::prelude::*;

verus! {

/// What the client should do after a peer announced a piece.
#[derive(Debug, PartialEq, Eq)]
pub enum PeerPieceResponse {
    /// Nothing: the client has the piece already, or the peer is choking.
    NoAction,
    /// Tell the peer the client is interested in its pieces.
    ExpressInterest,
    /// Tell the peer the client is interested, and request these blocks.
    ExpressInterestAndRequest(Vec<Block>),
    /// Request these blocks (the client already said it is interested).
    RequestBlocks(Vec<Block>),
}

/// What the scheduler knows of a connected peer.
#[derive(Debug)]
pub struct Peer {
    /// Whether the peer is choking the client.
    pub choking: bool,
    /// The blocks the peer has been asked for, each once.
    pub assigned_blocks: Vec<Block>,
    /// The pieces the peer has and the client does not.
    pub has_pieces: PieceSet,
}

impl Peer {
    /// A peer the scheduler has just heard of: choking, asked for nothing,
    /// known to have nothing.
    pub open spec fn is_fresh(&self) -> bool {
        &&& self.choking
        &&& self.assigned_blocks@.len() == 0
        &&& piece_set_elements(self.has_pieces) == Set::<nat>::empty()
        &&& piece_set_wf(self.has_pieces)
    }

    pub fn new() -> (p: Self)
        ensures
            p.is_fresh(),
    {
        Peer { choking: true, assigned_blocks: Vec::new(), has_pieces: PieceSet::empty() }
    }
}

/// Whether a block belongs to a piece.
pub open spec fn of_piece(index: usize) -> spec_fn(Block) -> bool {
    |b: Block| b.piece == index
}

/// Whether the pieces `qs` are the pieces `ps` with the blocks of `blocks`
/// given back, each to the piece it belongs to, in order.
pub open spec fn given_back(ps: Seq<ActivePiece>, qs: Seq<ActivePiece>, blocks: Seq<Block>) -> bool {
    &&& qs.len() == ps.len()
    &&& forall|j: int|
        0 <= j < ps.len() ==> {
            let p = ps[j];
            let q = #[trigger] qs[j];
            &&& q.index == p.index
            &&& q.peers_with_piece@ == p.peers_with_piece@
            &&& q.unassigned() == p.unassigned()
            &&& q.released() == p.released() + blocks.filter(of_piece(p.index))
        }
}

/// The blocks of a piece of the torrent, none handed out.
pub open spec fn fresh_blocks(sizes: Sizes, piece: usize) -> Blocks {
    Blocks::fresh(piece, sizes.size_of(piece as nat) as usize, sizes.block_size)
}

/// The pieces being downloaded once `q` is started, in place of a piece with
/// its index.
pub open spec fn insert_active(act: Seq<ActivePiece>, q: ActivePiece) -> Seq<ActivePiece> {
    if exists|j: int| 0 <= j < act.len() && (#[trigger] act[j]).index == q.index {
        act.update(choose|j: int| 0 <= j < act.len() && (#[trigger] act[j]).index == q.index, q)
    } else {
        act.push(q)
    }
}

/// The blocks that starting new pieces hands out to `addr` asking for `r`:
/// the piece that goes next, its blocks from the first, then the next, until
/// `r` are handed out or `addr` has no piece left.
pub open spec fn avail_out(avail: Map<usize, AvailablePiece>, addr: u64, r: nat, sizes: Sizes) -> Seq<Block>
    decreases avail.dom().len(),
    when avail.dom().finite() && (forall|k: usize| #[trigger] avail.contains_key(k) ==> avail[k].index == k)
{
    if r == 0 || !any_for(avail, addr) {
        Seq::empty()
    } else {
        proof {
            lemma_next_for_exists(avail, addr);
        }
        let p = next_piece(avail, addr);
        let bs = take_blocks(fresh_blocks(sizes, p.index), r).0;
        bs + avail_out(avail.remove(p.index), addr, (r - bs.len()) as nat, sizes)
    }
}

/// Whether `avail2` and `act2` are the available and active pieces after
/// `avail_out(avail, addr, r, sizes)` was handed out from `avail` and `act`.
pub open spec fn avail_after(
    avail: Map<usize, AvailablePiece>,
    act: Seq<ActivePiece>,
    addr: u64,
    r: nat,
    sizes: Sizes,
    avail2: Map<usize, AvailablePiece>,
    act2: Seq<ActivePiece>,
) -> bool
    decreases avail.dom().len(),
    when avail.dom().finite() && (forall|k: usize| #[trigger] avail.contains_key(k) ==> avail[k].index == k)
{
    if r == 0 || !any_for(avail, addr) {
        avail2 == avail && act2 == act
    } else {
        proof {
            lemma_next_for_exists(avail, addr);
        }
        let p = next_piece(avail, addr);
        let taken = take_blocks(fresh_blocks(sizes, p.index), r);
        exists|q: ActivePiece|
            {
                &&& q.index == p.index
                &&& q.peers_with_piece@ == p.peers_with_piece@
                &&& q.released() == Seq::<Block>::empty()
                &&& q.unassigned() == taken.1
                &&& avail_after(
                    avail.remove(p.index),
                    #[trigger] insert_active(act, q),
                    addr,
                    (r - taken.0.len()) as nat,
                    sizes,
                    avail2,
                    act2,
                )
            }
    }
}

/// Whether `out` is what a peer `addr` asking for `n` blocks is handed from
/// the pieces being downloaded `act` and the available pieces `avail`, and
/// `act2` and `avail2` are those pieces afterwards: the blocks of pieces
/// being downloaded come first, then those of new pieces.
pub open spec fn handed_out(
    act: Seq<ActivePiece>,
    avail: Map<usize, AvailablePiece>,
    sizes: Sizes,
    addr: u64,
    n: nat,
    out: Seq<Block>,
    act2: Seq<ActivePiece>,
    avail2: Map<usize, AvailablePiece>,
) -> bool {
    let out1 = assign_out(act, addr, n);
    let out2 = avail_out(avail, addr, (n - out1.len()) as nat, sizes);
    &&& out == out1 + out2
    &&& exists|mid: Seq<ActivePiece>|
        #[trigger] assign_after(act, mid, addr, n) && avail_after(
            avail,
            mid,
            addr,
            (n - out1.len()) as nat,
            sizes,
            avail2,
            act2,
        )
}

/// Whether the available pieces `a1` are `a0` with peer `addr` gone from the
/// pieces in `done`: a piece no other peer has is no longer available.
pub open spec fn dropped_available(
    a0: Map<usize, AvailablePiece>,
    a1: Map<usize, AvailablePiece>,
    addr: u64,
    done: Set<nat>,
) -> bool {
    &&& forall|k: usize| #[trigger] a1.contains_key(k) ==> a0.contains_key(k)
    &&& forall|k: usize|
        #[trigger] a0.contains_key(k) ==> if done.contains(k as nat) {
            if a0[k].peers().remove(addr).is_empty() {
                !a1.contains_key(k)
            } else {
                &&& a1.contains_key(k)
                &&& a1[k].index == k
                &&& a1[k].peers() == a0[k].peers().remove(addr)
            }
        } else {
            a1.contains_key(k) && a1[k] == a0[k]
        }
}

/// Whether the pieces being downloaded `p1` are `p0` with peer `addr` gone
/// from the pieces in `done` that are not among the available pieces `a0`.
pub open spec fn dropped_active(
    p0: Seq<ActivePiece>,
    p1: Seq<ActivePiece>,
    a0: Map<usize, AvailablePiece>,
    addr: u64,
    done: Set<nat>,
) -> bool {
    &&& p1.len() == p0.len()
    &&& forall|j: int|
        0 <= j < p0.len() ==> {
            let p = p0[j];
            let q = #[trigger] p1[j];
            &&& q.index == p.index
            &&& q.unassigned() == p.unassigned()
            &&& q.released() == p.released()
            &&& if done.contains(p.index as nat) && !a0.contains_key(p.index) {
                q.peers_with_piece@.to_set() == p.peers_with_piece@.to_set().remove(addr)
            } else {
                q.peers_with_piece@ == p.peers_with_piece@
            }
        }
}

/// The pieces in `done` that peer `addr` leaving makes orphans: no other
/// peer has them.
pub open spec fn orphaned(
    a0: Map<usize, AvailablePiece>,
    act: ActivePieces,
    addr: u64,
    done: Set<nat>,
) -> Set<nat> {
    Set::new(
        |e: nat|
            done.contains(e) && if a0.contains_key(e as usize) {
                a0[e as usize].peers().remove(addr).is_empty()
            } else {
                act.pieces()[act.position(e as usize)].peers_with_piece@.to_set().remove(addr).is_empty()
            },
    )
}

/// A piece below the number of pieces has bounds that can be computed.
pub proof fn lemma_piece_in_range(sizes: Sizes, piece: nat)
    requires
        piece < sizes.total_pieces,
        sizes.total_pieces == piece_count(sizes.piece_size as nat, sizes.total_size as nat),
        sizes.total_size + sizes.piece_size <= usize::MAX + 1,
    ensures
        sizes.piece_in_range(piece),
{
    let ps = sizes.piece_size as int;
    let t = sizes.total_size as int;
    if ps == 0 {
        assert(sizes.piece_size * (piece + 1) == 0);
        assert(sizes.piece_size * piece == 0);
    } else {
        let q = (t + ps - 1) / ps;
        assert(piece + 1 <= q);
        vstd::arithmetic::div_mod::lemma_fundamental_div_mod(t + ps - 1, ps);
        assert(ps * q <= t + ps - 1);
        assert(ps * (piece + 1) <= ps * q) by (nonlinear_arith)
            requires
                piece + 1 <= q,
                ps > 0,
        ;
        assert(ps * piece + ps == ps * (piece + 1)) by (nonlinear_arith);
        assert(sizes.piece_size * (piece + 1) <= usize::MAX);
        assert(sizes.piece_size * piece <= sizes.total_size);
    }
}

/// What a sequence with one more element holds.
pub proof fn lemma_contains_push<A>(s: Seq<A>, x: A, a: A)
    ensures
        s.push(x).contains(a) <==> (s.contains(a) || a == x),
{
    if s.push(x).contains(a) {
        let k = s.push(x).index_of(a);
        if k < s.len() {
            assert(s[k] == a);
        }
    }
    if s.contains(a) {
        let k = s.index_of(a);
        assert(s.push(x)[k] == a);
    }
    if a == x {
        assert(s.push(x)[s.len() as int] == a);
    }
}

/// Whether a block is in a sequence, by a scan.
fn contains_block(v: &Vec<Block>, b: Block) -> (r: bool)
    ensures
        r == v@.contains(b),
{
    let mut j: usize = 0;
    while j < v.len()
        invariant
            j <= v@.len(),
            forall|k: int| 0 <= k < j ==> v@[k] != b,
        decreases v@.len() - j,
    {
        if v[j] == b {
            assert(v@[j as int] == b);
            return true;
        }
        j += 1;
    }
    false
}

/// The set of a sequence with one more element.
proof fn lemma_to_set_push(s: Seq<Block>, b: Block)
    ensures
        s.push(b).to_set() == s.to_set().insert(b),
{
    s.lemma_push_to_set_commute(b);
}

/// Removes a block from a sequence that holds each block once.
fn remove_block(v: &mut Vec<Block>, b: Block) -> (r: bool)
    requires
        old(v)@.no_duplicates(),
    ensures
        r == old(v)@.contains(b),
        final(v)@.no_duplicates(),
        final(v)@.to_set() == old(v)@.to_set().remove(b),
        final(v)@.len() == if r { old(v)@.len() - 1 } else { old(v)@.len() as int },
{
    let mut i: usize = 0;
    while i < v.len()
        invariant
            i <= v@.len(),
            v@ == old(v)@,
            v@.no_duplicates(),
            forall|j: int| 0 <= j < i ==> v@[j] != b,
        decreases v@.len() - i,
    {
        if v[i] == b {
            proof {
                crate::available_pieces::lemma_remove_nodup(v@, i as int);
            }
            v.remove(i);
            return true;
        }
        i += 1;
    }
    proof {
        assert(!v@.contains(b));
        assert(v@.to_set() =~= v@.to_set().remove(b));
    }
    false
}

/// Adds the blocks that are not there yet, in order.
fn extend_unique(dst: &mut Vec<Block>, blocks: &Vec<Block>)
    requires
        old(dst)@.no_duplicates(),
    ensures
        final(dst)@.no_duplicates(),
        final(dst)@.to_set() == old(dst)@.to_set() + blocks@.to_set(),
        final(dst)@.len() <= old(dst)@.len() + blocks@.len(),
{
    let mut i: usize = 0;
    proof {
        assert(blocks@.take(0).to_set() =~= Set::<Block>::empty());
        assert(old(dst)@.to_set() + Set::<Block>::empty() =~= old(dst)@.to_set());
    }
    while i < blocks.len()
        invariant
            i <= blocks@.len(),
            dst@.no_duplicates(),
            dst@.to_set() == old(dst)@.to_set() + blocks@.take(i as int).to_set(),
            dst@.len() <= old(dst)@.len() + i,
        decreases blocks@.len() - i,
    {
        let b = blocks[i];
        let ghost before = dst@;
        proof {
            assert(blocks@.take(i + 1) =~= blocks@.take(i as int).push(b));
            lemma_to_set_push(blocks@.take(i as int), b);
        }
        if !contains_block(dst, b) {
            dst.push(b);
            proof {
                lemma_to_set_push(before, b);
                assert forall|x: int, y: int| 0 <= x < y < dst@.len() implies dst@[x] != dst@[y] by {
                    if y == dst@.len() - 1 {
                        assert(dst@[x] == before[x]);
                    }
                }
                assert(dst@.to_set() =~= old(dst)@.to_set() + blocks@.take(i + 1).to_set());
            }
        } else {
            proof {
                assert(dst@.to_set().contains(b));
                assert(dst@.to_set() =~= old(dst)@.to_set() + blocks@.take(i + 1).to_set());
            }
        }
        i += 1;
    }
    assert(blocks@.take(blocks@.len() as int) =~= blocks@);
}

/// Picks the pieces to download and hands out their blocks to peers: the
/// pieces that fewer peers have first, the blocks of pieces already started
/// before those of new ones, each peer up to a number of requests at a time.
pub struct Scheduler {
    sizes: Sizes,
    max_concurrent_requests_per_peer: usize,
    /// The peers that are connected.
    peers: HashMap<u64, Peer>,
    /// Pieces the client lacks that no peer has announced.
    orphan_pieces: PieceSet,
    /// Pieces that some peer has and that are not being downloaded.
    available_pieces: AvailablePieces,
    /// Pieces being downloaded.
    active_pieces: ActivePieces,
}

impl Scheduler {
    pub closed spec fn sizes(&self) -> Sizes {
        self.sizes
    }

    /// The most blocks a peer is asked for at a time.
    pub closed spec fn max_requests(&self) -> usize {
        self.max_concurrent_requests_per_peer
    }

    pub closed spec fn peers(&self) -> Map<u64, Peer> {
        self.peers@
    }

    pub closed spec fn orphan_set(&self) -> PieceSet {
        self.orphan_pieces
    }

    pub closed spec fn orphans(&self) -> Set<nat> {
        piece_set_elements(self.orphan_pieces)
    }

    pub closed spec fn available(&self) -> Map<usize, AvailablePiece> {
        self.available_pieces@
    }

    pub closed spec fn active(&self) -> Seq<ActivePiece> {
        self.active_pieces.pieces()
    }

    pub closed spec fn available_pieces(&self) -> AvailablePieces {
        self.available_pieces
    }

    pub closed spec fn active_pieces(&self) -> ActivePieces {
        self.active_pieces
    }

    /// Whether a piece is being downloaded.
    pub open spec fn is_active(&self, piece: usize) -> bool {
        self.active_pieces().has(piece)
    }

    /// Whether every piece the scheduler deals with is one of the torrent's
    /// pieces, so that its size can be computed.
    pub open spec fn pieces_in_range(&self) -> bool {
        &&& forall|k: usize| #[trigger] self.available().contains_key(k) ==> k < self.sizes().total_pieces
        &&& forall|j: int| 0 <= j < self.active().len() ==> (#[trigger] self.active()[j]).index < self.sizes().total_pieces
        &&& forall|e: nat| #[trigger] self.orphans().contains(e) ==> e < self.sizes().total_pieces
        &&& forall|a: u64, e: nat|
            #[trigger] self.peers().contains_key(a) && #[trigger] piece_set_elements(self.peers()[a].has_pieces).contains(e)
                ==> e < self.sizes().total_pieces
    }

    /// The layout is consistent: the number of pieces is what the sizes
    /// give, and the end of the last piece can be computed.
    pub open spec fn layout_ok(&self) -> bool {
        &&& self.sizes().total_pieces == piece_count(self.sizes().piece_size as nat, self.sizes().total_size as nat)
        &&& self.sizes().total_size + self.sizes().piece_size <= usize::MAX + 1
    }

    pub open spec fn wf(&self) -> bool {
        &&& self.available_pieces().wf()
        &&& self.active_pieces().wf()
        &&& self.layout_ok()
        &&& self.pieces_in_range()
        &&& piece_set_wf(self.orphan_set())
        &&& forall|a: u64| #[trigger] self.peers().contains_key(a) ==> {
            let p = self.peers()[a];
            &&& p.assigned_blocks@.len() <= self.max_requests()
            &&& p.assigned_blocks@.no_duplicates()
            &&& piece_set_wf(p.has_pieces)
        }
    }

    /// Whether the blocks in flight are kept apart (see `flights_apart`): no
    /// block is in flight to two peers, a peer that is choking the client
    /// has none, and each is of a piece being downloaded that the peer has,
    /// has gone out of it, and is not waiting there to go out again.
    pub open spec fn flights_ok(&self) -> bool {
        flights_apart(self.sizes().block_size, flight_view(self.peers()), self.orphans(), self.available(), self.active())
    }

    /// Whether no peer has a block of the piece in flight.
    pub open spec fn none_in_flight(&self, piece: usize) -> bool {
        forall|a: u64, b: Block|
            #[trigger] holds(flight_view(self.peers()), a, b) ==> b.piece != piece
    }

    /// The parts of a scheduler as its accessors give them.
    pub proof fn lemma_parts(&self)
        ensures
            self.active() == self.active_pieces().pieces(),
            self.available() == self.available_pieces()@,
            self.orphans() == piece_set_elements(self.orphan_set()),
            self.wf() ==> {
                &&& unique_indices(self.active())
                &&& self.available().dom().finite()
                &&& forall|k: usize| #[trigger] self.available().contains_key(k) ==> self.available()[k].index == k
            },
    {
        if self.wf() {
            assert forall|i: int, j: int|
                0 <= i < self.active().len() && 0 <= j < self.active().len() && i != j implies self.active()[i].index
                != self.active()[j].index by {
                if i > j {
                    assert(self.active_pieces().pieces()[j].index != self.active_pieces().pieces()[i].index);
                }
            }
        }
    }

    /// A scheduler for a torrent with this layout, of which the client has
    /// the pieces `has_pieces`: every other piece is an orphan until a peer
    /// announces it.
    pub fn new(sizes: Sizes, max_concurrent_requests_per_peer: usize, has_pieces: &PieceSet) -> (s: Self)
        requires
            sizes.total_pieces == piece_count(sizes.piece_size as nat, sizes.total_size as nat),
            sizes.total_size + sizes.piece_size <= usize::MAX + 1,
        ensures
            s.wf(),
            s.sizes() == sizes,
            s.max_requests() == max_concurrent_requests_per_peer,
            s.peers() == Map::<u64, Peer>::empty(),
            s.available() == Map::<usize, AvailablePiece>::empty(),
            s.active() == Seq::<ActivePiece>::empty(),
            s.orphans() == Set::new(
                |i: nat| i < sizes.total_pieces && !piece_set_elements(*has_pieces).contains(i),
            ),
            sizes.block_size > 0 ==> s.flights_ok(),
    {
        let total_pieces = sizes.total_pieces;
        let mut orphan_pieces = PieceSet::empty();
        let mut i: usize = 0;
        while i < total_pieces
            invariant
                i <= total_pieces,
                piece_set_wf(orphan_pieces),
                piece_set_elements(orphan_pieces) == Set::new(
                    |k: nat| k < i && !piece_set_elements(*has_pieces).contains(k),
                ),
            decreases total_pieces - i,
        {
            if !has_pieces.has(i) {
                orphan_pieces.add(i);
            }
            i += 1;
            assert(piece_set_elements(orphan_pieces) =~= Set::new(
                |k: nat| k < i && !piece_set_elements(*has_pieces).contains(k),
            ));
        }
        let s = Self {
            sizes,
            max_concurrent_requests_per_peer,
            peers: HashMap::new(),
            orphan_pieces,
            available_pieces: AvailablePieces::new(),
            active_pieces: ActivePieces::new(),
        };
        proof {
            broadcast use vstd::std_specs::hash::group_hash_axioms;
            assert(s.peers() == Map::<u64, Peer>::empty());
            lemma_view(s.peers());
        }
        s
    }

    /// Whether a peer's record fits the scheduler: no more requests than
    /// allowed, each once, and pieces of the torrent.
    pub open spec fn peer_ok(&self, p: Peer) -> bool {
        &&& p.assigned_blocks@.len() <= self.max_requests()
        &&& p.assigned_blocks@.no_duplicates()
        &&& piece_set_wf(p.has_pieces)
        &&& forall|e: nat| #[trigger] piece_set_elements(p.has_pieces).contains(e) ==> e < self.sizes().total_pieces
    }

    /// Whether two schedulers hold the same but for their peers.
    pub open spec fn same_but_peers(&self, other: &Self) -> bool {
        &&& self.sizes() == other.sizes()
        &&& self.max_requests() == other.max_requests()
        &&& self.orphan_set() == other.orphan_set()
        &&& self.available_pieces() == other.available_pieces()
        &&& self.active_pieces() == other.active_pieces()
    }

    /// Takes a peer's record out, or a fresh one for a peer not known yet.
    fn take_peer(&mut self, addr: u64) -> (p: Peer)
        requires
            old(self).wf(),
        ensures
            final(self).wf(),
            final(self).same_but_peers(old(self)),
            final(self).peers() == old(self).peers().remove(addr),
            old(self).peers().contains_key(addr) ==> p == old(self).peers()[addr],
            !old(self).peers().contains_key(addr) ==> p.is_fresh(),
            old(self).peer_ok(p),
    {
        broadcast use vstd::std_specs::hash::group_hash_axioms;
        let r = match self.peers.remove(&addr) {
            Some(p) => {
                assert(old(self).peers()[addr] == p);
                p
            },
            None => {
                let p = Peer::new();
                p
            },
        };
        proof {
            assert forall|a: u64| #[trigger] self.peers().contains_key(a) implies self.peers()[a] == old(self).peers()[a]
                && old(self).peers().contains_key(a) by {}
            assert(self.available() == old(self).available());
            assert(self.active() == old(self).active());
            assert(self.orphans() == old(self).orphans());
            assert(self.sizes() == old(self).sizes());
            assert forall|a: u64, e: nat|
                #[trigger] self.peers().contains_key(a) && #[trigger] piece_set_elements(self.peers()[a].has_pieces).contains(e)
                    implies e < self.sizes().total_pieces by {
                assert(old(self).peers().contains_key(a));
            }
        }
        r
    }

    /// Puts a peer's record back.
    fn put_peer(&mut self, addr: u64, p: Peer)
        requires
            old(self).wf(),
            old(self).peer_ok(p),
        ensures
            final(self).wf(),
            final(self).same_but_peers(old(self)),
            final(self).peers() == old(self).peers().insert(addr, p),
    {
        broadcast use vstd::std_specs::hash::group_hash_axioms;
        let ghost q = p;
        self.peers.insert(addr, p);
        proof {
            assert(self.peers() == old(self).peers().insert(addr, q));
            assert(self.available() == old(self).available());
            assert(self.active() == old(self).active());
            assert(self.orphans() == old(self).orphans());
            assert(self.sizes() == old(self).sizes());
            assert forall|a: u64, e: nat|
                #[trigger] self.peers().contains_key(a) && #[trigger] piece_set_elements(self.peers()[a].has_pieces).contains(e)
                    implies e < self.sizes().total_pieces by {
                if a != addr {
                    assert(old(self).peers().contains_key(a));
                }
            }
            assert forall|a: u64| #[trigger] self.peers().contains_key(a) implies old(self).peer_ok(self.peers()[a]) by {
                if a != addr {
                    assert(old(self).peers().contains_key(a));
                }
            }
        }
    }

    /// The peer is choking the client: every block it was asked for goes
    /// back to its piece, to be asked of another peer.
    pub fn peer_choked(&mut self, addr: u64)
        requires
            old(self).wf(),
            old(self).peers().contains_key(addr) ==> forall|i: int|
                0 <= i < old(self).peers()[addr].assigned_blocks@.len() ==> old(self).is_active(
                    #[trigger] old(self).peers()[addr].assigned_blocks@[i].piece,
                ),
        ensures
            final(self).wf(),
            old(self).choked_to(*final(self), addr),
            old(self).flights_ok() ==> final(self).flights_ok(),
    {
        let mut peer = self.take_peer(addr);
        peer.choking = true;
        let mut assigned: Vec<Block> = Vec::new();
        std::mem::swap(&mut assigned, &mut peer.assigned_blocks);
        self.give_back(&assigned);
        self.put_peer(addr, peer);
        proof {
            assert(self.peers().dom() =~= old(self).peers().dom().insert(addr));
            if old(self).flights_ok() {
                lemma_choked_keeps(*old(self), *self, addr);
            }
        }
    }

    /// Gives blocks back to the pieces they belong to.
    fn give_back(&mut self, blocks: &Vec<Block>)
        requires
            old(self).wf(),
            forall|i: int| 0 <= i < blocks@.len() ==> old(self).is_active(#[trigger] blocks@[i].piece),
        ensures
            final(self).wf(),
            final(self).peers() == old(self).peers(),
            final(self).sizes() == old(self).sizes(),
            final(self).max_requests() == old(self).max_requests(),
            final(self).orphan_set() == old(self).orphan_set(),
            final(self).available_pieces() == old(self).available_pieces(),
            given_back(old(self).active(), final(self).active(), blocks@),
    {
        let ghost ps = self.active();
        let mut i: usize = 0;
        proof {
            assert forall|j: int| 0 <= j < ps.len() implies ps[j].released() == ps[j].released()
                + blocks@.take(0).filter(of_piece(ps[j].index)) by {
                assert(blocks@.take(0).filter(of_piece(ps[j].index)) =~= Seq::<Block>::empty());
                assert(ps[j].released() + Seq::<Block>::empty() =~= ps[j].released());
            }
        }
        while i < blocks.len()
            invariant
                i <= blocks@.len(),
                self.wf(),
                ps == old(self).active(),
                self.peers() == old(self).peers(),
                self.sizes() == old(self).sizes(),
                self.max_requests() == old(self).max_requests(),
                self.orphan_set() == old(self).orphan_set(),
                self.available_pieces() == old(self).available_pieces(),
                given_back(ps, self.active(), blocks@.take(i as int)),
                forall|k: int| 0 <= k < blocks@.len() ==> old(self).is_active(#[trigger] blocks@[k].piece),
            decreases blocks@.len() - i,
        {
            let block = blocks[i];
            let ghost before = self.active();
            proof {
                assert(old(self).is_active(blocks@[i as int].piece));
                let w = choose|w: int| 0 <= w < ps.len() && (#[trigger] ps[w]).index == block.piece;
                assert(self.active()[w].index == block.piece);
                assert(self.is_active(block.piece));
            }
            let ghost s0 = *self;
            self.active_pieces.unassign(block);
            proof {
                assert(self.available() == s0.available());
                assert(self.orphans() == s0.orphans());
                assert(self.peers() == s0.peers());
                assert(self.sizes() == s0.sizes());
                let t = blocks@.take(i + 1);
                assert(t =~= blocks@.take(i as int).push(block));
                let pos = old(self).active_pieces().position(block.piece);
                assert forall|j: int| 0 <= j < ps.len() implies {
                    let p = ps[j];
                    let q = #[trigger] self.active()[j];
                    &&& q.index == p.index
                    &&& q.peers_with_piece@ == p.peers_with_piece@
                    &&& q.unassigned() == p.unassigned()
                    &&& q.released() == p.released() + t.filter(of_piece(p.index))
                } by {
                    let f = of_piece(ps[j].index);
                    blocks@.take(i as int).lemma_filter_push(block, f);
                    assert(t.filter(f) == if f(block) {
                        blocks@.take(i as int).filter(f).push(block)
                    } else {
                        blocks@.take(i as int).filter(f)
                    });
                    if j == pos {
                        assert(ps[j].index == block.piece);
                        assert(ps[j].released() + t.filter(f) =~= ps[j].released() + blocks@.take(i as int).filter(f) + seq![block]);
                    } else {
                        assert(before[j].index != block.piece);
                    }
                }
                assert forall|j: int| 0 <= j < self.active().len() implies (#[trigger] self.active()[j]).index < self.sizes().total_pieces by {
                    assert(self.active()[j].index == ps[j].index);
                    assert(old(self).active()[j].index < old(self).sizes().total_pieces);
                }
            }
            i += 1;
        }
        proof {
            assert(blocks@.take(blocks@.len() as int) =~= blocks@);
        }
    }

    /// Whether the pieces are as after handing out `out` to `addr` asking
    /// for `n`: first from the pieces being downloaded, then from new pieces.
    pub open spec fn assigned_to(&self, after: &Self, addr: u64, n: nat, out: Seq<Block>) -> bool {
        handed_out(self.active(), self.available(), self.sizes(), addr, n, out, after.active(), after.available())
    }

    /// Asks a peer that is not choking for as many blocks as it may still
    /// be asked for: first blocks of the pieces being downloaded that it has,
    /// then blocks of new pieces it has, rarest first.
    fn try_assign(&mut self, addr: u64) -> (r: Vec<Block>)
        requires
            old(self).wf(),
            old(self).peers().contains_key(addr),
        ensures
            final(self).wf(),
            final(self).sizes() == old(self).sizes(),
            final(self).max_requests() == old(self).max_requests(),
            final(self).orphans() == old(self).orphans(),
            final(self).peers().dom() == old(self).peers().dom(),
            forall|a: u64| a != addr ==> #[trigger] final(self).peers()[a] == old(self).peers()[a],
            final(self).peers()[addr].choking == old(self).peers()[addr].choking,
            final(self).peers()[addr].has_pieces == old(self).peers()[addr].has_pieces,
            final(self).peers()[addr].assigned_blocks@.to_set() == old(self).peers()[addr].assigned_blocks@.to_set()
                + r@.to_set(),
            old(self).peers()[addr].choking ==> r@.len() == 0 && final(self).available() == old(self).available()
                && final(self).active() == old(self).active(),
            !old(self).peers()[addr].choking ==> old(self).assigned_to(
                final(self),
                addr,
                (old(self).max_requests() - old(self).peers()[addr].assigned_blocks@.len()) as nat,
                r@,
            ),
    {
        broadcast use vstd::std_specs::hash::group_hash_axioms;
        let mut peer = self.take_peer(addr);
        if peer.choking {
            self.put_peer(addr, peer);
            assert(self.peers() =~= old(self).peers());
            return Vec::new();
        }
        let n = self.max_concurrent_requests_per_peer - peer.assigned_blocks.len();
        let mut blocks: Vec<Block> = Vec::new();
        let ghost a0 = self.available();
        let ghost act0 = self.active();
        let ghost s1 = *self;
        let got = self.active_pieces.try_assign_n(addr, n, &mut blocks);
        let ghost mid = self.active();
        let ghost out1 = blocks@;
        let mut remaining = n - got;
        proof {
            assert(blocks@ =~= Seq::<Block>::empty() + assign_out(act0, addr, n as nat));
            assert(blocks@.skip(out1.len() as int) =~= Seq::<Block>::empty());
            assert(self.available() == a0);
            assert(self.peers() == s1.peers());
            assert(self.orphans() == s1.orphans());
            assert(self.sizes() == s1.sizes());
            assert forall|j: int| 0 <= j < self.active().len() implies (#[trigger] self.active()[j]).index
                < self.sizes().total_pieces by {
                crate::active_pieces::lemma_assign_after_keeps(act0, mid, addr, n as nat);
                assert(self.active()[j].index == act0[j].index);
            }
            assert(self.wf());
        }
        while remaining > 0
            invariant
                self.wf(),
                self.peers() == old(self).peers().remove(addr),
                self.sizes() == old(self).sizes(),
                self.max_requests() == old(self).max_requests(),
                self.orphan_set() == old(self).orphan_set(),
                remaining <= n - got,
                blocks@.len() == out1.len() + (n - got - remaining),
                blocks@.take(out1.len() as int) == out1,
                a0 == old(self).available(),
                act0 == old(self).active(),
                avail_out(a0, addr, (n - got) as nat, self.sizes()) == blocks@.skip(out1.len() as int)
                    + avail_out(self.available(), addr, remaining as nat, self.sizes()),
                forall|a2: Map<usize, AvailablePiece>, act2: Seq<ActivePiece>|
                    #[trigger] avail_after(self.available(), self.active(), addr, remaining as nat, self.sizes(), a2, act2)
                        ==> avail_after(a0, mid, addr, (n - got) as nat, self.sizes(), a2, act2),
            ensures
                remaining == 0 || !any_for(self.available(), addr),
            decreases self.available().dom().len(),
        {
            let ghost av = self.available();
            let ghost ac = self.active();
            let ghost b0 = blocks@;
            let ghost s0 = *self;
            match self.available_pieces.take_next(addr) {
                Some(available_piece) => {
                    let ghost p = available_piece;
                    proof {
                        lemma_next_for_exists(av, addr);
                        lemma_next_for_unique(av, addr, p, next_piece(av, addr));
                        assert(p.index < self.sizes().total_pieces);
                        lemma_piece_in_range(self.sizes(), p.index as nat);
                    }
                    let piece_blocks = Blocks::for_piece(&self.sizes, available_piece.index);
                    let mut active_piece = ActivePiece::new(available_piece, piece_blocks);
                    let got2 = active_piece.try_assign_n(remaining, &mut blocks);
                    let ghost q = active_piece;
                    let index = active_piece.index;
                    proof {
                        assert(q.released() =~= Seq::<Block>::empty());
                        assert(p.wf());
                    }
                    self.active_pieces.insert(index, active_piece);
                    proof {
                        let taken = take_blocks(fresh_blocks(self.sizes(), p.index), remaining as nat);
                        assert(taken.0 == blocks@.skip(b0.len() as int)) by {
                            assert(blocks@.skip(b0.len() as int) =~= Seq::<Block>::empty().take(0) + taken.0);
                        }
                        assert(self.active() == insert_active(ac, q));
                        assert(blocks@.skip(out1.len() as int) =~= b0.skip(out1.len() as int) + taken.0);
                        assert(blocks@.take(out1.len() as int) =~= b0.take(out1.len() as int));
                        assert(self.available() == av.remove(p.index));
                        assert forall|a2: Map<usize, AvailablePiece>, act2: Seq<ActivePiece>|
                            #[trigger] avail_after(self.available(), self.active(), addr, (remaining - got2) as nat, self.sizes(), a2, act2)
                                implies avail_after(a0, mid, addr, (n - got) as nat, self.sizes(), a2, act2) by {
                            assert(q.index == p.index);
                            assert(q.peers_with_piece@ == p.peers_with_piece@);
                            assert(q.unassigned() == taken.1);
                            assert(avail_after(av.remove(p.index), insert_active(ac, q), addr, (remaining - taken.0.len()) as nat, self.sizes(), a2, act2));
                            assert(avail_after(av, ac, addr, remaining as nat, self.sizes(), a2, act2));
                        }
                        assert(self.orphan_set() == s0.orphan_set());
                        assert(self.orphans() == s0.orphans());
                        assert(self.sizes() == s0.sizes());
                        assert(self.peers() == s0.peers());
                        assert forall|k: usize| #[trigger] self.available().contains_key(k) implies k < self.sizes().total_pieces by {
                            assert(av.contains_key(k));
                        }
                        assert forall|j: int| 0 <= j < self.active().len() implies (#[trigger] self.active()[j]).index
                            < self.sizes().total_pieces by {
                            if j < ac.len() {
                                assert(self.active()[j] == ac[j] || self.active()[j] == q);
                            } else {
                                assert(self.active()[j] == q);
                            }
                        }
                    }
                    remaining = remaining - got2;
                },
                None => {
                    proof {
                        assert(self.available() == av);
                        assert(self.active() == s0.active());
                        assert(self.peers() == s0.peers());
                        assert(self.orphans() == s0.orphans());
                        assert(self.sizes() == s0.sizes());
                        assert(self.wf());
                        assert(avail_out(av, addr, remaining as nat, self.sizes()) =~= Seq::<Block>::empty());
                        assert(blocks@.skip(out1.len() as int) + Seq::<Block>::empty() =~= blocks@.skip(out1.len() as int));
                    }
                    break;
                },
            }
        }
        proof {
            assert(avail_after(self.available(), self.active(), addr, remaining as nat, self.sizes(), self.available(), self.active()));
            assert(blocks@ =~= blocks@.take(out1.len() as int) + blocks@.skip(out1.len() as int));
        }
        extend_unique(&mut peer.assigned_blocks, &blocks);
        self.put_peer(addr, peer);
        blocks
    }

    /// The peer stopped choking the client: it is asked for as many blocks
    /// as it may be. A peer that was not choking is left as it was.
    pub fn peer_unchoked(&mut self, addr: u64) -> (r: Vec<Block>)
        requires
            old(self).wf(),
        ensures
            final(self).wf(),
            old(self).unchoked_to(*final(self), addr, r@),
            old(self).flights_ok() ==> final(self).flights_ok(),
    {
        broadcast use vstd::std_specs::hash::group_hash_axioms;
        let mut peer = self.take_peer(addr);
        if !peer.choking {
            self.put_peer(addr, peer);
            proof {
                assert(self.peers() =~= old(self).peers());
                assert(self.peers().dom() =~= old(self).peers().dom().insert(addr));
                if old(self).flights_ok() {
                    lemma_unchoked_keeps(*old(self), *self, addr, Seq::empty());
                }
            }
            return Vec::new();
        }
        peer.choking = false;
        self.put_peer(addr, peer);
        let ghost s1 = *self;
        proof {
            assert(s1.active() == old(self).active());
            assert(s1.available() == old(self).available());
        }
        let r = self.try_assign(addr);
        proof {
            assert(self.peers().dom() =~= old(self).peers().dom().insert(addr));
            if old(self).flights_ok() {
                lemma_unchoked_keeps(*old(self), *self, addr, r@);
            }
        }
        r
    }

    /// The peer sent a block it was asked for: it is asked for more.
    pub fn block_downloaded(&mut self, addr: u64, block: &Block) -> (r: Vec<Block>)
        requires
            old(self).wf(),
            old(self).peers().contains_key(addr),
            old(self).peers()[addr].assigned_blocks@.contains(*block),
        ensures
            final(self).wf(),
            old(self).downloaded_to(*final(self), addr, *block, r@),
            old(self).flights_ok() ==> final(self).flights_ok(),
    {
        broadcast use vstd::std_specs::hash::group_hash_axioms;
        let mut peer = self.take_peer(addr);
        remove_block(&mut peer.assigned_blocks, *block);
        self.put_peer(addr, peer);
        let r = self.try_assign(addr);
        proof {
            if old(self).flights_ok() {
                lemma_downloaded_keeps(*old(self), *self, addr, *block, r@);
            }
        }
        r
    }

    /// A block the peer was asked for is given up on: it goes back to its
    /// piece, and the peer, if still connected, is asked for more.
    pub fn release(&mut self, addr: u64, block: Block) -> (r: Vec<Block>)
        requires
            old(self).wf(),
        ensures
            final(self).wf(),
            old(self).released_to(*final(self), addr, block, r@),
            old(self).flights_ok() && old(self).peers().contains_key(addr)
                && old(self).peers()[addr].assigned_blocks@.contains(block) ==> final(self).flights_ok(),
    {
        broadcast use vstd::std_specs::hash::group_hash_axioms;
        let mut blocks = Vec::new();
        blocks.push(block);
        proof {
            assert(blocks@ =~= seq![block]);
            if old(self).is_active(block.piece) {
            }
        }
        self.active_pieces.unassign(block);
        let ghost s1 = *self;
        proof {
            let ps = old(self).active();
            assert forall|j: int| 0 <= j < ps.len() implies {
                let p = ps[j];
                let q = #[trigger] self.active()[j];
                &&& q.index == p.index
                &&& q.peers_with_piece@ == p.peers_with_piece@
                &&& q.unassigned() == p.unassigned()
                &&& q.released() == p.released() + seq![block].filter(of_piece(p.index))
            } by {
                Seq::<Block>::empty().lemma_filter_push(block, of_piece(ps[j].index));
                assert(seq![block] =~= Seq::<Block>::empty().push(block));
                assert(Seq::<Block>::empty().filter(of_piece(ps[j].index)) =~= Seq::<Block>::empty());
                if ps[j].index == block.piece {
                    assert(old(self).is_active(block.piece));
                    let pos = old(self).active_pieces().position(block.piece);
                    assert(pos == j);
                } else {
                    assert(ps[j].released() + Seq::<Block>::empty() =~= ps[j].released());
                }
            }
            assert(given_back(old(self).active(), self.active(), seq![block]));
            assert(self.peers() == old(self).peers());
            assert(self.available() == old(self).available());
            assert(self.orphans() == old(self).orphans());
            assert forall|j: int| 0 <= j < self.active().len() implies (#[trigger] self.active()[j]).index
                < self.sizes().total_pieces by {
                assert(self.active()[j].index == old(self).active()[j].index);
            }
        }
        if self.peers.contains_key(&addr) {
            let mut peer = self.take_peer(addr);
            remove_block(&mut peer.assigned_blocks, block);
            self.put_peer(addr, peer);
            let ghost s2 = *self;
            proof {
                assert(s2.active() == s1.active());
                assert(s2.available() == old(self).available());
                assert(s2.sizes() == old(self).sizes());
            }
            let r = self.try_assign(addr);
            proof {
                assert(given_back(old(self).active(), s1.active(), seq![block]));
                if old(self).flights_ok() && old(self).peers()[addr].assigned_blocks@.contains(block) {
                    lemma_released_keeps(*old(self), *self, addr, block, r@);
                }
            }
            r
        } else {
            Vec::new()
        }
    }

    /// Whether the peer has been asked for the block and has not sent it.
    pub fn block_in_flight(&self, addr: u64, block: &Block) -> (r: bool)
        requires
            self.peers().contains_key(addr),
        ensures
            r == self.peers()[addr].assigned_blocks@.contains(*block),
    {
        broadcast use vstd::std_specs::hash::group_hash_axioms;
        let peer = self.peers.get(&addr).unwrap();
        contains_block(&peer.assigned_blocks, *block)
    }

    /// Whether `after` is this scheduler once `peer_choked` has run and returned `r`.
    pub open spec fn choked_to(&self, after: Self, addr: u64) -> bool {
        &&& after.peers().dom() == self.peers().dom().insert(addr)
        &&& forall|a: u64| a != addr ==> #[trigger] after.peers()[a] == self.peers()[a]
        &&& after.peers()[addr].choking
        &&& after.peers()[addr].assigned_blocks@.len() == 0
        &&& self.peers().contains_key(addr) ==> after.peers()[addr].has_pieces
                == self.peers()[addr].has_pieces
        &&& !self.peers().contains_key(addr) ==> after.peers()[addr].is_fresh()
        &&& given_back(
                self.active(),
                after.active(),
                if self.peers().contains_key(addr) {
                    self.peers()[addr].assigned_blocks@
                } else {
                    Seq::empty()
                },
            )
        &&& after.sizes() == self.sizes()
        &&& after.max_requests() == self.max_requests()
        &&& after.orphans() == self.orphans()
        &&& after.available() == self.available()
    }

    /// Whether `after` is this scheduler once `peer_unchoked` has run and returned `r`.
    pub open spec fn unchoked_to(&self, after: Self, addr: u64, r: Seq<Block>) -> bool {
        &&& after.sizes() == self.sizes()
        &&& after.max_requests() == self.max_requests()
        &&& after.orphans() == self.orphans()
        &&& after.peers().dom() == self.peers().dom().insert(addr)
        &&& forall|a: u64| a != addr ==> #[trigger] after.peers()[a] == self.peers()[a]
        &&& self.peers().contains_key(addr) && !self.peers()[addr].choking ==> {
                &&& r.len() == 0
                &&& after.peers()[addr] == self.peers()[addr]
                &&& after.available() == self.available()
                &&& after.active() == self.active()
            }
        &&& !(self.peers().contains_key(addr) && !self.peers()[addr].choking) ==> {
                let held = if self.peers().contains_key(addr) {
                    self.peers()[addr].assigned_blocks@
                } else {
                    Seq::empty()
                };
                &&& !after.peers()[addr].choking
                &&& self.peers().contains_key(addr) ==> after.peers()[addr].has_pieces
                    == self.peers()[addr].has_pieces
                &&& !self.peers().contains_key(addr) ==> piece_set_elements(after.peers()[addr].has_pieces)
                    == Set::<nat>::empty()
                &&& after.peers()[addr].assigned_blocks@.to_set() =~= held.to_set() + r.to_set()
                &&& self.assigned_to(&after, addr, (self.max_requests() - held.len()) as nat, r)
            }
    }

    /// Whether `after` is this scheduler once `block_downloaded` has run and returned `r`.
    pub open spec fn downloaded_to(&self, after: Self, addr: u64, block: Block, r: Seq<Block>) -> bool {
        &&& after.sizes() == self.sizes()
        &&& after.max_requests() == self.max_requests()
        &&& after.orphans() == self.orphans()
        &&& after.peers().dom() == self.peers().dom()
        &&& forall|a: u64| a != addr ==> #[trigger] after.peers()[a] == self.peers()[a]
        &&& after.peers()[addr].choking == self.peers()[addr].choking
        &&& after.peers()[addr].has_pieces == self.peers()[addr].has_pieces
        &&& after.peers()[addr].assigned_blocks@.to_set()
                == self.peers()[addr].assigned_blocks@.to_set().remove(block) + r.to_set()
        &&& self.peers()[addr].choking ==> r.len() == 0 && after.available() == self.available()
                && after.active() == self.active()
        &&& !self.peers()[addr].choking ==> self.assigned_to(
                &after,
                addr,
                (self.max_requests() - (self.peers()[addr].assigned_blocks@.len() - 1)) as nat,
                r,
            )
    }

    /// Whether `after` is this scheduler once `release` has run and returned `r`.
    pub open spec fn released_to(&self, after: Self, addr: u64, block: Block, r: Seq<Block>) -> bool {
        &&& after.sizes() == self.sizes()
        &&& after.max_requests() == self.max_requests()
        &&& after.orphans() == self.orphans()
        &&& after.peers().dom() == self.peers().dom()
        &&& forall|a: u64| a != addr ==> #[trigger] after.peers()[a] == self.peers()[a]
        &&& !self.peers().contains_key(addr) ==> r.len() == 0 && after.available() == self.available()
                && given_back(self.active(), after.active(), seq![block])
        &&& self.peers().contains_key(addr) ==> {
                let before = self.peers()[addr].assigned_blocks@;
                let held = before.to_set().remove(block);
                let held_len = if before.contains(block) { before.len() - 1 } else { before.len() as int };
                &&& after.peers()[addr].choking == self.peers()[addr].choking
                &&& after.peers()[addr].has_pieces == self.peers()[addr].has_pieces
                &&& after.peers()[addr].assigned_blocks@.to_set() =~= held + r.to_set()
                &&& exists|act1: Seq<ActivePiece>|
                    #[trigger] given_back(self.active(), act1, seq![block]) && if self.peers()[addr].choking {
                        r.len() == 0 && after.available() == self.available()
                            && after.active() == act1
                    } else {
                        handed_out(
                            act1,
                            self.available(),
                            self.sizes(),
                            addr,
                            (self.max_requests() - held_len) as nat,
                            r,
                            after.active(),
                            after.available(),
                        )
                    }
            }
    }

    /// Whether `after` is this scheduler once `peer_has_piece` has run and returned `r`.
    pub open spec fn announced_to(&self, after: Self, addr: u64, piece: usize, r: PeerPieceResponse) -> bool {
        &&& after.sizes() == self.sizes()
        &&& after.max_requests() == self.max_requests()
        &&& !self.orphans().contains(piece as nat) && !self.available().contains_key(piece)
                && !self.is_active(piece) ==> {
                &&& r == PeerPieceResponse::NoAction
                &&& after.peers() == self.peers()
                &&& after.orphans() == self.orphans()
                &&& after.available() == self.available()
                &&& after.active() == self.active()
            }
        &&& self.orphans().contains(piece as nat) || self.available().contains_key(piece)
                || self.is_active(piece) ==> {
                let known = self.peers().contains_key(addr);
                let choking = !known || self.peers()[addr].choking;
                let interested = !known || piece_set_elements(self.peers()[addr].has_pieces)
                    == Set::<nat>::empty();
                let held = if known { self.peers()[addr].assigned_blocks@ } else { Seq::empty() };
                &&& after.peers().dom() == self.peers().dom().insert(addr)
                &&& forall|a: u64| a != addr ==> #[trigger] after.peers()[a] == self.peers()[a]
                &&& after.peers()[addr].choking == choking
                &&& piece_set_elements(after.peers()[addr].has_pieces) =~= (if known {
                    piece_set_elements(self.peers()[addr].has_pieces)
                } else {
                    Set::<nat>::empty()
                }).insert(piece as nat)
                &&& exists|avail1: Map<usize, AvailablePiece>, act1: Seq<ActivePiece>|
                    #[trigger] self.registered(addr, piece, after.orphans(), avail1, act1) && if choking {
                        &&& r == if interested {
                            PeerPieceResponse::ExpressInterest
                        } else {
                            PeerPieceResponse::NoAction
                        }
                        &&& after.available() == avail1
                        &&& after.active() == act1
                        &&& after.peers()[addr].assigned_blocks@ =~= held
                    } else {
                        let blocks = match r {
                            PeerPieceResponse::ExpressInterestAndRequest(b) => b@,
                            PeerPieceResponse::RequestBlocks(b) => b@,
                            _ => Seq::empty(),
                        };
                        &&& if interested {
                            r is ExpressInterestAndRequest
                        } else {
                            r is RequestBlocks
                        }
                        &&& after.peers()[addr].assigned_blocks@.to_set() =~= held.to_set() + blocks.to_set()
                        &&& handed_out(
                            act1,
                            avail1,
                            self.sizes(),
                            addr,
                            (self.max_requests() - held.len()) as nat,
                            blocks,
                            after.active(),
                            after.available(),
                        )
                    }
            }
    }

    /// Whether `after` is this scheduler once `client_has_piece` has run and returned `r`.
    pub open spec fn completed_to(&self, after: Self, piece: usize, r: Seq<u64>) -> bool {
        &&& after.sizes() == self.sizes()
        &&& after.max_requests() == self.max_requests()
        &&& after.orphans() == self.orphans()
        &&& after.available() == self.available()
        &&& after.active() == self.active().remove(self.active_pieces().position(piece))
        &&& after.peers().dom() == self.peers().dom()
        &&& ({
                let had = self.active()[self.active_pieces().position(piece)].peers_with_piece@;
                &&& forall|a: u64|
                    #[trigger] after.peers().contains_key(a) ==> if had.contains(a) {
                        &&& after.peers()[a].choking == self.peers()[a].choking
                        &&& after.peers()[a].assigned_blocks == self.peers()[a].assigned_blocks
                        &&& piece_set_elements(after.peers()[a].has_pieces) == piece_set_elements(
                            self.peers()[a].has_pieces,
                        ).remove(piece as nat)
                    } else {
                        after.peers()[a] == self.peers()[a]
                    }
                &&& r.no_duplicates()
                &&& forall|a: u64|
                    r.contains(a) <==> had.contains(a) && piece_set_elements(after.peers()[a].has_pieces)
                        == Set::<nat>::empty()
            })
    }

    /// Whether `after` is this scheduler once `invalidate` has run and returned `r`.
    pub open spec fn invalidated_to(&self, after: Self, piece: usize) -> bool {
        &&& after.sizes() == self.sizes()
        &&& after.max_requests() == self.max_requests()
        &&& after.orphans() == self.orphans()
        &&& after.peers() == self.peers()
        &&& after.active() == self.active().remove(self.active_pieces().position(piece))
        &&& ({
                let p = self.active()[self.active_pieces().position(piece)];
                &&& after.available().dom() == self.available().dom().insert(piece)
                &&& forall|k: usize|
                    k != piece && self.available().contains_key(k) ==> #[trigger] after.available()[k]
                        == self.available()[k]
                &&& after.available()[piece].index == piece
                &&& after.available()[piece].peers_with_piece@ == p.peers_with_piece@
            })
    }

    /// Whether `after` is this scheduler once `peer_disconnected` has run and returned `r`.
    pub open spec fn disconnected_to(&self, after: Self, addr: u64) -> bool {
        &&& after.sizes() == self.sizes()
        &&& after.max_requests() == self.max_requests()
        &&& after.peers() == self.peers().remove(addr)
        &&& !self.peers().contains_key(addr) ==> {
                &&& after.orphans() == self.orphans()
                &&& after.available() == self.available()
                &&& after.active() == self.active()
            }
        &&& self.peers().contains_key(addr) ==> {
                let has = piece_set_elements(self.peers()[addr].has_pieces);
                exists|s1: Scheduler|
                    {
                        &&& given_back(self.active(), s1.active(), self.peers()[addr].assigned_blocks@)
                        &&& s1.active_pieces().wf()
                        &&& s1.available() == self.available()
                        &&& #[trigger] dropped_available(s1.available(), after.available(), addr, has)
                        &&& dropped_active(s1.active(), after.active(), s1.available(), addr, has)
                        &&& after.orphans() == self.orphans() + orphaned(
                            s1.available(),
                            s1.active_pieces(),
                            addr,
                            has,
                        )
                    }
            }
    }

    /// Whether the peer is known: it has choked, unchoked or announced a
    /// piece and has not disconnected since.
    pub fn knows_peer(&self, addr: u64) -> (r: bool)
        ensures
            r == self.peers().contains_key(addr),
    {
        broadcast use vstd::std_specs::hash::group_hash_axioms;
        self.peers.contains_key(&addr)
    }

    /// Whether a piece is being downloaded.
    pub fn is_downloading(&self, piece: usize) -> (r: bool)
        requires
            self.wf(),
        ensures
            r == self.is_active(piece),
    {
        self.active_pieces.contains(piece)
    }

    /// Whether every block the peer was asked for is of a piece being
    /// downloaded, as giving them back needs.
    pub fn assigned_active(&self, addr: u64) -> (r: bool)
        requires
            self.wf(),
        ensures
            r == (self.peers().contains_key(addr) ==> forall|i: int|
                0 <= i < self.peers()[addr].assigned_blocks@.len() ==> self.is_active(
                    #[trigger] self.peers()[addr].assigned_blocks@[i].piece,
                )),
    {
        broadcast use vstd::std_specs::hash::group_hash_axioms;
        match self.peers.get(&addr) {
            None => true,
            Some(peer) => {
                let blocks = &peer.assigned_blocks;
                let mut i: usize = 0;
                while i < blocks.len()
                    invariant
                        self.wf(),
                        self.peers().contains_key(addr),
                        blocks@ == self.peers()[addr].assigned_blocks@,
                        i <= blocks@.len(),
                        forall|j: int| 0 <= j < i ==> self.is_active(#[trigger] blocks@[j].piece),
                    decreases blocks@.len() - i,
                {
                    if !self.active_pieces.contains(blocks[i].piece) {
                        return false;
                    }
                    i += 1;
                }
                true
            },
        }
    }

    /// Whether each piece of a known peer is available or being downloaded
    /// with the peer among those that have it, as forgetting the peer needs.
    pub fn peer_pieces_known(&self, addr: u64) -> (r: bool)
        requires
            self.wf(),
            self.peers().contains_key(addr),
        ensures
            r == self.pieces_known(addr),
    {
        broadcast use vstd::std_specs::hash::group_hash_axioms;
        let peer = self.peers.get(&addr).unwrap();
        let pieces = peer.has_pieces.elements();
        let mut i: usize = 0;
        while i < pieces.len()
            invariant
                self.wf(),
                self.peers().contains_key(addr),
                forall|e: nat|
                    piece_set_elements(self.peers()[addr].has_pieces).contains(e) <==> exists|j: int|
                        0 <= j < pieces@.len() && pieces@[j] == e,
                i <= pieces@.len(),
                forall|j: int|
                    0 <= j < i ==> {
                        let k = #[trigger] pieces@[j];
                        if self.available().contains_key(k) {
                            self.available()[k].peers_with_piece@.contains(addr)
                        } else {
                            &&& self.is_active(k)
                            &&& self.active()[self.active_pieces().position(k)].peers_with_piece@.contains(addr)
                        }
                    },
            decreases pieces@.len() - i,
        {
            let k = pieces[i];
            if self.available_pieces.contains(k) {
                if !self.available_pieces.piece_has_peer(k, addr) {
                    proof {
                        assert(piece_set_elements(self.peers()[addr].has_pieces).contains(k as nat));
                        assert((k as nat) as usize == k);
                    }
                    return false;
                }
            } else if self.active_pieces.contains(k) {
                let peers = self.active_pieces.peers_of(k);
                if !crate::available_pieces::has_peer(&peers, addr) {
                    proof {
                        assert(piece_set_elements(self.peers()[addr].has_pieces).contains(k as nat));
                        assert((k as nat) as usize == k);
                    }
                    return false;
                }
            } else {
                proof {
                    assert(piece_set_elements(self.peers()[addr].has_pieces).contains(k as nat));
                    assert((k as nat) as usize == k);
                }
                return false;
            }
            i += 1;
        }
        proof {
            assert forall|e: nat| #[trigger] piece_set_elements(self.peers()[addr].has_pieces).contains(e) implies {
                let k = e as usize;
                if self.available().contains_key(k) {
                    self.available()[k].peers_with_piece@.contains(addr)
                } else {
                    &&& self.is_active(k)
                    &&& self.active()[self.active_pieces().position(k)].peers_with_piece@.contains(addr)
                }
            } by {
                let j = choose|j: int| 0 <= j < pieces@.len() && pieces@[j] == e;
                assert(pieces@[j] == e as usize);
            }
        }
        true
    }

    /// Whether every peer recorded for a piece being downloaded is known and
    /// has the piece, as completing the piece needs.
    pub fn completion_ready(&self, piece: usize) -> (r: bool)
        requires
            self.wf(),
        ensures
            r == (self.is_active(piece) && forall|a: u64|
                #[trigger] self.active()[self.active_pieces().position(piece)].peers_with_piece@.contains(a)
                    ==> self.peers().contains_key(a) && piece_set_elements(self.peers()[a].has_pieces).contains(
                    piece as nat,
                )),
    {
        broadcast use vstd::std_specs::hash::group_hash_axioms;
        if !self.active_pieces.contains(piece) {
            return false;
        }
        let peers = self.active_pieces.peers_of(piece);
        let mut i: usize = 0;
        while i < peers.len()
            invariant
                self.wf(),
                self.is_active(piece),
                peers@ == self.active()[self.active_pieces().position(piece)].peers_with_piece@,
                i <= peers@.len(),
                forall|j: int|
                    0 <= j < i ==> self.peers().contains_key(#[trigger] peers@[j]) && piece_set_elements(
                        self.peers()[peers@[j]].has_pieces,
                    ).contains(piece as nat),
            decreases peers@.len() - i,
        {
            let a = peers[i];
            match self.peers.get(&a) {
                None => {
                    proof {
                        assert(peers@.contains(a));
                    }
                    return false;
                },
                Some(peer) => {
                    if !peer.has_pieces.has(piece) {
                        proof {
                            assert(peers@.contains(a));
                        }
                        return false;
                    }
                },
            }
            i += 1;
        }
        proof {
            assert forall|a: u64| #[trigger] peers@.contains(a) implies self.peers().contains_key(a)
                && piece_set_elements(self.peers()[a].has_pieces).contains(piece as nat) by {
                let j = peers@.index_of(a);
                assert(peers@[j] == a);
            }
        }
        true
    }

    /// Whether `orphans1`, `avail1` and `act1` record that peer `addr` has
    /// `piece`: an orphan piece becomes available with that one peer; an
    /// available piece or a piece being downloaded gains the peer.
    pub open spec fn registered(
        &self,
        addr: u64,
        piece: usize,
        orphans1: Set<nat>,
        avail1: Map<usize, AvailablePiece>,
        act1: Seq<ActivePiece>,
    ) -> bool {
        if self.orphans().contains(piece as nat) {
            &&& orphans1 == self.orphans().remove(piece as nat)
            &&& avail1.dom() == self.available().dom().insert(piece)
            &&& forall|k: usize|
                k != piece && self.available().contains_key(k) ==> #[trigger] avail1[k] == self.available()[k]
            &&& avail1[piece].index == piece
            &&& avail1[piece].peers_with_piece@ == seq![addr]
            &&& act1 == self.active()
        } else if self.available().contains_key(piece) {
            let p = self.available()[piece];
            &&& orphans1 == self.orphans()
            &&& avail1.dom() == self.available().dom()
            &&& forall|k: usize|
                k != piece && self.available().contains_key(k) ==> #[trigger] avail1[k] == self.available()[k]
            &&& avail1[piece].index == piece
            &&& avail1[piece].peers_with_piece@ == if p.peers_with_piece@.contains(addr) {
                p.peers_with_piece@
            } else {
                p.peers_with_piece@.push(addr)
            }
            &&& act1 == self.active()
        } else {
            let i = self.active_pieces().position(piece);
            let p = self.active()[i];
            let q = act1[i];
            &&& self.is_active(piece)
            &&& orphans1 == self.orphans()
            &&& avail1 == self.available()
            &&& act1.len() == self.active().len()
            &&& forall|j: int| 0 <= j < act1.len() && j != i ==> #[trigger] act1[j] == self.active()[j]
            &&& q.index == p.index
            &&& q.unassigned() == p.unassigned()
            &&& q.released() == p.released()
            &&& q.peers_with_piece@ == if p.peers_with_piece@.contains(addr) {
                p.peers_with_piece@
            } else {
                p.peers_with_piece@.push(addr)
            }
        }
    }

    /// The peer announced a piece. A piece the client has or is not in the
    /// torrent is ignored. Otherwise the piece is recorded for the peer; the
    /// client says it is interested the first time the peer has a piece it
    /// wants, and asks for blocks when the peer is not choking.
    pub fn peer_has_piece(&mut self, addr: u64, piece: usize) -> (r: PeerPieceResponse)
        requires
            old(self).wf(),
        ensures
            final(self).wf(),
            old(self).announced_to(*final(self), addr, piece, r),
            old(self).flights_ok() ==> final(self).flights_ok(),
    {
        broadcast use vstd::std_specs::hash::group_hash_axioms;
        let ghost s0 = *self;
        if self.orphan_pieces.take(piece) {
            let ap = AvailablePiece::new(piece, addr);
            self.available_pieces.insert(ap);
            proof {
                assert(self.available() == s0.available().insert(piece, ap));
                assert(self.orphans() == s0.orphans().remove(piece as nat));
                assert(self.active() == s0.active());
                assert(self.available().dom() =~= s0.available().dom().insert(piece));
                assert(old(self).registered(addr, piece, self.orphans(), self.available(), self.active()));
            }
        } else if self.available_pieces.contains(piece) {
            self.available_pieces.peer_has_piece(piece, addr);
            proof {
                assert(self.orphans() == s0.orphans());
                assert(self.active() == s0.active());
                assert(old(self).registered(addr, piece, self.orphans(), self.available(), self.active()));
            }
        } else if self.active_pieces.contains(piece) {
            self.active_pieces.peer_has_piece(piece, addr);
            proof {
                assert(self.orphans() == s0.orphans());
                assert(self.available() == s0.available());
                assert(old(self).registered(addr, piece, self.orphans(), self.available(), self.active()));
            }
        } else {
            proof {
                assert(self.orphans() == s0.orphans());
                assert(self.available() == s0.available());
                assert(self.active() == s0.active());
                assert(self.peers() == s0.peers());
                assert(self.sizes() == s0.sizes());
            }
            return PeerPieceResponse::NoAction;
        }
        let ghost s1 = *self;
        proof {
            assert(s1.peers() == old(self).peers());
            assert forall|k: usize| #[trigger] s1.available().contains_key(k) implies k < s1.sizes().total_pieces by {
                if k != piece {
                    assert(old(self).available().contains_key(k));
                }
            }
            assert forall|j: int| 0 <= j < s1.active().len() implies (#[trigger] s1.active()[j]).index
                < s1.sizes().total_pieces by {
                assert(s1.active()[j].index == old(self).active()[j].index);
            }
            assert(piece < s1.sizes().total_pieces);
            assert(s1.wf());
        }
        let mut peer = self.take_peer(addr);
        let interested = peer.has_pieces.is_empty();
        peer.has_pieces.add(piece);
        let choking = peer.choking;
        self.put_peer(addr, peer);
        let ghost s2 = *self;
        proof {
            assert(s2.active() == s1.active());
            assert(s2.available() == s1.available());
            assert(s2.orphans() == s1.orphans());
        }
        let r = if choking {
            if interested {
                PeerPieceResponse::ExpressInterest
            } else {
                PeerPieceResponse::NoAction
            }
        } else if interested {
            PeerPieceResponse::ExpressInterestAndRequest(self.try_assign(addr))
        } else {
            PeerPieceResponse::RequestBlocks(self.try_assign(addr))
        };
        proof {
            assert(self.peers().dom() =~= old(self).peers().dom().insert(addr));
            assert(old(self).registered(addr, piece, self.orphans(), s1.available(), s1.active()));
            if old(self).flights_ok() {
                lemma_announced_keeps(*old(self), *self, addr, piece, r);
            }
        }
        r
    }

    /// The client has completed and checked a piece being downloaded: it is
    /// no longer downloaded, and is forgotten from the peers that have it.
    /// Gives the peers that have no other piece the client wants, to tell
    /// them it is not interested any more.
    pub fn client_has_piece(&mut self, piece: usize) -> (r: Vec<u64>)
        requires
            old(self).wf(),
            old(self).is_active(piece),
            forall|a: u64|
                #[trigger] old(self).active()[old(self).active_pieces().position(piece)].peers_with_piece@.contains(a)
                    ==> old(self).peers().contains_key(a) && piece_set_elements(old(self).peers()[a].has_pieces).contains(
                    piece as nat,
                ),
        ensures
            final(self).wf(),
            old(self).completed_to(*final(self), piece, r@),
            old(self).flights_ok() && old(self).none_in_flight(piece) ==> final(self).flights_ok(),
    {
        broadcast use vstd::std_specs::hash::group_hash_axioms;
        let ghost s0 = *self;
        let active_piece = self.active_pieces.remove(piece);
        let ghost had = active_piece.peers_with_piece@;
        let peers = active_piece.peers();
        let mut not_interested: Vec<u64> = Vec::new();
        proof {
            assert(self.peers() == s0.peers());
            assert(self.available() == s0.available());
            assert(self.orphans() == s0.orphans());
            old(self).active().remove_ensures(old(self).active_pieces().position(piece));
            assert forall|j: int| 0 <= j < self.active().len() implies (#[trigger] self.active()[j]).index
                < self.sizes().total_pieces by {
                let i = old(self).active_pieces().position(piece);
                if j < i {
                    assert(self.active()[j] == old(self).active()[j]);
                } else {
                    assert(self.active()[j] == old(self).active()[j + 1]);
                }
            }
            assert(had.no_duplicates()) by {
                assert(old(self).active()[old(self).active_pieces().position(piece)].wf());
            }
            assert(active_piece.index == piece);
        }
        let mut i: usize = 0;
        while i < peers.len()
            invariant
                i <= peers@.len(),
                peers@ == had,
                had.no_duplicates(),
                self.wf(),
                self.sizes() == old(self).sizes(),
                self.max_requests() == old(self).max_requests(),
                self.orphans() == old(self).orphans(),
                self.available() == old(self).available(),
                self.active() == old(self).active().remove(old(self).active_pieces().position(piece)),
                self.peers().dom() == old(self).peers().dom(),
                had == old(self).active()[old(self).active_pieces().position(piece)].peers_with_piece@,
                forall|a: u64|
                    #[trigger] had.contains(a) ==> old(self).peers().contains_key(a) && piece_set_elements(
                        old(self).peers()[a].has_pieces,
                    ).contains(piece as nat),
                forall|a: u64|
                    #[trigger] self.peers().contains_key(a) ==> if had.take(i as int).contains(a) {
                        &&& self.peers()[a].choking == old(self).peers()[a].choking
                        &&& self.peers()[a].assigned_blocks == old(self).peers()[a].assigned_blocks
                        &&& piece_set_elements(self.peers()[a].has_pieces) == piece_set_elements(
                            old(self).peers()[a].has_pieces,
                        ).remove(piece as nat)
                    } else {
                        self.peers()[a] == old(self).peers()[a]
                    },
                not_interested@.no_duplicates(),
                forall|a: u64|
                    not_interested@.contains(a) <==> had.take(i as int).contains(a) && piece_set_elements(
                        self.peers()[a].has_pieces,
                    ) == Set::<nat>::empty(),
            decreases peers@.len() - i,
        {
            let addr = peers[i];
            proof {
                assert(had.contains(addr));
                assert(!had.take(i as int).contains(addr)) by {
                    if had.take(i as int).contains(addr) {
                        let k = had.take(i as int).index_of(addr);
                        assert(had[k] == had[i as int]);
                    }
                }
                assert(had.take(i + 1) =~= had.take(i as int).push(addr));
            }
            let ghost sb = *self;
            let ghost ni = not_interested@;
            proof {
                assert(sb.peers().contains_key(addr));
                assert(sb.peers()[addr] == old(self).peers()[addr]);
            }
            let mut peer = self.take_peer(addr);
            peer.has_pieces.take(piece);
            let empty = peer.has_pieces.is_empty();
            let ghost pq = peer;
            self.put_peer(addr, peer);
            proof {
                assert(self.peers()[addr] == pq);
                assert(piece_set_elements(pq.has_pieces) == piece_set_elements(old(self).peers()[addr].has_pieces).remove(piece as nat));
                assert(!ni.contains(addr));
            }
            if empty {
                proof {
                    crate::available_pieces::lemma_push_nodup(not_interested@, addr);
                }
                not_interested.push(addr);
            }
            proof {
                assert forall|a: u64|
                    not_interested@.contains(a) <==> had.take(i + 1).contains(a) && piece_set_elements(
                        self.peers()[a].has_pieces,
                    ) == Set::<nat>::empty() by {
                    lemma_contains_push(had.take(i as int), addr, a);
                    if empty {
                        lemma_contains_push(ni, addr, a);
                    }
                    if a != addr {
                        assert(had.take(i + 1).contains(a) == had.take(i as int).contains(a));
                        assert(not_interested@.contains(a) == ni.contains(a));
                        if sb.peers().contains_key(a) {
                            assert(self.peers()[a] == sb.peers()[a]);
                        }
                    } else {
                        assert(had.take(i + 1).contains(addr));
                    }
                }
                assert forall|a: u64| #[trigger] self.peers().contains_key(a) implies if had.take(i + 1).contains(a) {
                    &&& self.peers()[a].choking == old(self).peers()[a].choking
                    &&& self.peers()[a].assigned_blocks == old(self).peers()[a].assigned_blocks
                    &&& piece_set_elements(self.peers()[a].has_pieces) == piece_set_elements(
                        old(self).peers()[a].has_pieces,
                    ).remove(piece as nat)
                } else {
                    self.peers()[a] == old(self).peers()[a]
                } by {
                    lemma_contains_push(had.take(i as int), addr, a);
                    if a != addr {
                        assert(had.take(i + 1).contains(a) == had.take(i as int).contains(a));
                        assert(sb.peers().contains_key(a));
                        assert(self.peers()[a] == sb.peers()[a]);
                    }
                }
            }
            i += 1;
        }
        proof {
            assert(had.take(had.len() as int) =~= had);
            if old(self).flights_ok() && old(self).none_in_flight(piece) {
                lemma_completed_keeps(*old(self), *self, piece, not_interested@);
            }
        }
        not_interested
    }

    /// A completed piece failed its check: it is no longer downloaded and
    /// becomes available again, with the peers that have it.
    pub fn invalidate(&mut self, piece: usize)
        requires
            old(self).wf(),
            old(self).is_active(piece),
        ensures
            final(self).wf(),
            old(self).invalidated_to(*final(self), piece),
            old(self).flights_ok() && old(self).none_in_flight(piece) ==> final(self).flights_ok(),
    {
        let ghost s0 = *self;
        let active_piece = self.active_pieces.remove(piece);
        proof {
            assert(active_piece.wf()) by {
                assert(old(self).active()[old(self).active_pieces().position(piece)].wf());
            }
            old(self).active().remove_ensures(old(self).active_pieces().position(piece));
        }
        let available_piece = AvailablePiece::from(active_piece);
        self.available_pieces.insert(available_piece);
        proof {
            assert(self.peers() == s0.peers());
            assert(self.orphans() == s0.orphans());
            assert(self.available().dom() =~= s0.available().dom().insert(piece));
            assert forall|k: usize| #[trigger] self.available().contains_key(k) implies k < self.sizes().total_pieces by {
                if k != piece {
                    assert(s0.available().contains_key(k));
                }
            }
            assert forall|j: int| 0 <= j < self.active().len() implies (#[trigger] self.active()[j]).index
                < self.sizes().total_pieces by {
                let i = old(self).active_pieces().position(piece);
                if j < i {
                    assert(self.active()[j] == old(self).active()[j]);
                } else {
                    assert(self.active()[j] == old(self).active()[j + 1]);
                }
            }
            if old(self).flights_ok() && old(self).none_in_flight(piece) {
                lemma_invalidated_keeps(*old(self), *self, piece);
            }
        }
    }

    /// Whether a peer's pieces are each available or being downloaded, with
    /// the peer among those that have it.
    pub open spec fn pieces_known(&self, addr: u64) -> bool {
        forall|e: nat|
            #[trigger] piece_set_elements(self.peers()[addr].has_pieces).contains(e) ==> {
                let k = e as usize;
                if self.available().contains_key(k) {
                    self.available()[k].peers_with_piece@.contains(addr)
                } else {
                    &&& self.is_active(k)
                    &&& self.active()[self.active_pieces().position(k)].peers_with_piece@.contains(addr)
                }
            }
    }

    /// The peer disconnected: the blocks it was asked for go back to their
    /// pieces, and it no longer counts among the peers of its pieces; a piece
    /// that no peer has any more becomes an orphan.
    pub fn peer_disconnected(&mut self, addr: u64)
        requires
            old(self).wf(),
            old(self).peers().contains_key(addr) ==> {
                &&& forall|i: int|
                    0 <= i < old(self).peers()[addr].assigned_blocks@.len() ==> old(self).is_active(
                        #[trigger] old(self).peers()[addr].assigned_blocks@[i].piece,
                    )
                &&& old(self).pieces_known(addr)
            },
        ensures
            final(self).wf(),
            old(self).disconnected_to(*final(self), addr),
            old(self).flights_ok() ==> final(self).flights_ok(),
    {
        broadcast use vstd::std_specs::hash::group_hash_axioms;
        if !self.peers.contains_key(&addr) {
            proof {
                assert(self.peers() =~= old(self).peers().remove(addr));
                if old(self).flights_ok() {
                    lemma_disconnected_keeps(*old(self), *self, addr);
                }
            }
            return;
        }
        let peer = self.take_peer(addr);
        let ghost has = piece_set_elements(peer.has_pieces);
        proof {
            assert forall|i: int| 0 <= i < peer.assigned_blocks@.len() implies self.is_active(
                #[trigger] peer.assigned_blocks@[i].piece,
            ) by {
                assert(old(self).is_active(peer.assigned_blocks@[i].piece));
            }
        }
        self.give_back(&peer.assigned_blocks);
        let ghost s1 = *self;
        proof {
            assert forall|e: nat| #[trigger] has.contains(e) implies {
                let k = e as usize;
                if s1.available().contains_key(k) {
                    s1.available()[k].peers_with_piece@.contains(addr)
                } else {
                    &&& s1.is_active(k)
                    &&& s1.active()[s1.active_pieces().position(k)].peers_with_piece@.contains(addr)
                }
            } by {
                let k = e as usize;
                assert(old(self).available() == s1.available());
                if !s1.available().contains_key(k) {
                    let j = old(self).active_pieces().position(k);
                    assert(s1.active()[j].index == k);
                    assert(s1.is_active(k));
                    let j2 = s1.active_pieces().position(k);
                    assert(j2 == j);
                }
            }
        }
        let pieces = peer.has_pieces.elements();
        let mut i: usize = 0;
        proof {
            assert(Set::<nat>::empty().filter(|e: nat| true) =~= Set::<nat>::empty());
        }
        while i < pieces.len()
            invariant
                i <= pieces@.len(),
                self.wf(),
                self.sizes() == old(self).sizes(),
                self.max_requests() == old(self).max_requests(),
                self.peers() == old(self).peers().remove(addr),
                forall|a: int, b: int| 0 <= a < b < pieces@.len() ==> pieces@[a] < pieces@[b],
                forall|e: nat| has.contains(e) <==> exists|j: int| 0 <= j < pieces@.len() && pieces@[j] == e,
                forall|e: nat| #[trigger] has.contains(e) ==> e < old(self).sizes().total_pieces,
                forall|e: nat|
                    #[trigger] has.contains(e) ==> {
                        let k = e as usize;
                        if s1.available().contains_key(k) {
                            s1.available()[k].peers_with_piece@.contains(addr)
                        } else {
                            &&& s1.is_active(k)
                            &&& s1.active()[s1.active_pieces().position(k)].peers_with_piece@.contains(addr)
                        }
                    },
                dropped_available(s1.available(), self.available(), addr, done_set(pieces@, i as int)),
                dropped_active(s1.active(), self.active(), s1.available(), addr, done_set(pieces@, i as int)),
                self.orphans() == s1.orphans() + orphaned(
                    s1.available(),
                    s1.active_pieces(),
                    addr,
                    done_set(pieces@, i as int),
                ),
            decreases pieces@.len() - i,
        {
            let piece = pieces[i];
            let ghost e = piece as nat;
            let ghost s2 = *self;
            let ghost done = done_set(pieces@, i as int);
            let ghost done2 = done_set(pieces@, i + 1);
            proof {
                assert(has.contains(e));
                assert(!done.contains(e)) by {
                    if done.contains(e) {
                        let j = choose|j: int| 0 <= j < i && pieces@[j] == e;
                        assert(pieces@[j] < pieces@[i as int]);
                    }
                }
                assert(done2 =~= done.insert(e)) by {
                    assert forall|x: nat| done2.contains(x) <==> done.insert(e).contains(x) by {
                        if done2.contains(x) && x != e {
                            let j = choose|j: int| 0 <= j < i + 1 && pieces@[j] == x;
                            assert(j < i);
                        }
                        if x == e {
                            assert(pieces@[i as int] == x);
                        }
                    }
                }
            }
            if self.available_pieces.contains(piece) {
                proof {
                    assert(s1.available().contains_key(piece));
                    assert(self.available()[piece] == s1.available()[piece]);
                }
                let st = self.available_pieces.peer_disconnected(piece, addr);
                if st == PieceState::Orphan {
                    proof {
                        assert(has.contains(piece as nat));
                    }
                    self.orphan_pieces.add(piece);
                }
                proof {
                    assert(self.active() == s2.active());
                    assert(self.peers() == s2.peers());
                    assert(dropped_available(s1.available(), self.available(), addr, done2)) by {
                        assert forall|k: usize| #[trigger] self.available().contains_key(k) implies s1.available().contains_key(k) by {
                            if k != piece {
                                assert(s2.available().contains_key(k));
                            }
                        }
                    }
                    assert(dropped_active(s1.active(), self.active(), s1.available(), addr, done2));
                    assert(self.orphans() =~= s1.orphans() + orphaned(s1.available(), s1.active_pieces(), addr, done2));
                    assert forall|k: usize| #[trigger] self.available().contains_key(k) implies k < self.sizes().total_pieces by {
                        assert(s2.available().contains_key(k));
                    }
                }
            } else if self.active_pieces.contains(piece) {
                proof {
                    assert(!s1.available().contains_key(piece));
                    assert(s1.is_active(piece));
                    let j = s1.active_pieces().position(piece);
                    assert(self.active()[j].index == piece);
                    assert(self.active_pieces().position(piece) == j);
                    assert(self.active()[j].peers_with_piece@ == s1.active()[j].peers_with_piece@);
                }
                let st = self.active_pieces.peer_disconnected(piece, addr);
                proof {
                    let j = s1.active_pieces().position(piece);
                    let q = self.active()[j];
                    assert(q.peers_with_piece@.len() == 0 <==> q.peers_with_piece@.to_set().is_empty()) by {
                        if q.peers_with_piece@.len() > 0 {
                            assert(q.peers_with_piece@.to_set().contains(q.peers_with_piece@[0]));
                        } else {
                            assert(q.peers_with_piece@.to_set() =~= Set::<u64>::empty());
                        }
                    }
                }
                if st == PieceState::Orphan {
                    proof {
                        assert(has.contains(piece as nat));
                    }
                    self.orphan_pieces.add(piece);
                }
                proof {
                    let j = s1.active_pieces().position(piece);
                    assert(self.available() == s2.available());
                    assert(self.peers() == s2.peers());
                    assert(dropped_available(s1.available(), self.available(), addr, done2));
                    assert(dropped_active(s1.active(), self.active(), s1.available(), addr, done2)) by {
                        assert forall|x: int| 0 <= x < s1.active().len() implies {
                            let p = s1.active()[x];
                            let q = #[trigger] self.active()[x];
                            &&& q.index == p.index
                            &&& q.unassigned() == p.unassigned()
                            &&& q.released() == p.released()
                            &&& if done2.contains(p.index as nat) && !s1.available().contains_key(p.index) {
                                q.peers_with_piece@.to_set() == p.peers_with_piece@.to_set().remove(addr)
                            } else {
                                q.peers_with_piece@ == p.peers_with_piece@
                            }
                        } by {
                            if x != j {
                                assert(self.active()[x] == s2.active()[x]);
                                assert(s1.active()[x].index != piece);
                            }
                        }
                    }
                    assert(self.orphans() =~= s1.orphans() + orphaned(s1.available(), s1.active_pieces(), addr, done2));
                    assert forall|x: int| 0 <= x < self.active().len() implies (#[trigger] self.active()[x]).index
                        < self.sizes().total_pieces by {
                        assert(self.active()[x].index == s2.active()[x].index);
                    }
                }
            } else {
                proof {
                    assert(!s1.available().contains_key(piece));
                    let j = s1.active_pieces().position(piece);
                    assert(self.active()[j].index == piece);
                    assert(false);
                }
            }
            i += 1;
        }
        proof {
            assert(done_set(pieces@, pieces@.len() as int) =~= has) by {
                assert forall|x: nat| has.contains(x) implies done_set(pieces@, pieces@.len() as int).contains(x) by {
                    let j = choose|j: int| 0 <= j < pieces@.len() && pieces@[j] == x;
                }
            }
            assert(dropped_available(s1.available(), self.available(), addr, has));
            if old(self).flights_ok() {
                lemma_disconnected_keeps(*old(self), *self, addr);
            }
        }
    }
}

/// The elements of the first `i` of a sequence, as numbers.
pub open spec fn done_set(s: Seq<usize>, i: int) -> Set<nat> {
    Set::new(|e: nat| exists|j: int| 0 <= j < i && s[j] == e)
}

} // verus!
