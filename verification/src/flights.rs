//! What keeps blocks in flight apart: each block handed out to one peer at a
//! time, and never both handed out and waiting to go out again.
use crate::active_pieces::{assign_after, assign_out, min_nat, ActivePiece};
use crate::bitset::piece_set_elements;
use crate::blocks::lemma_take_blocks_order;
use crate::available_pieces::{lemma_next_for_exists, next_piece, AvailablePiece};
use crate::blocks::{lemma_fresh, take_blocks};
use crate::message::Block;
use crate::scheduler::{
    dropped_active, dropped_available, orphaned, avail_after, PeerPieceResponse, avail_out, fresh_blocks, given_back, handed_out, insert_active, of_piece, Peer, Scheduler,
};
use crate::sizes::Sizes;
use vstd::prelude::*;

verus! {

/// Whether a block of a piece being downloaded has gone out of it: it lies
/// before the piece's next fresh block and is not among those given back.
pub open spec fn out_of(p: ActivePiece, b: Block) -> bool {
    &&& b.piece == p.index
    &&& (b.offset as nat) < p.unassigned().offset()
    &&& !p.released().contains(b)
}

/// Whether a piece being downloaded keeps its blocks apart: its fresh blocks
/// are its own and come one after another, and the blocks given back are its
/// own, each once, from before its next fresh block.
pub open spec fn piece_ok(p: ActivePiece) -> bool {
    &&& p.unassigned().piece() == p.index
    &&& p.unassigned().block_size() > 0
    &&& p.released().no_duplicates()
    &&& forall|i: int|
        0 <= i < p.released().len() ==> (#[trigger] p.released()[i]).piece == p.index
            && (p.released()[i].offset as nat) < p.unassigned().offset()
}

/// Whether no two pieces share an index.
pub open spec fn unique_indices(ps: Seq<ActivePiece>) -> bool {
    forall|i: int, j: int| 0 <= i < ps.len() && 0 <= j < ps.len() && i != j ==> ps[i].index != ps[j].index
}

/// Handing out blocks of a piece: what had gone out stays out, what is handed
/// out had not, and is out afterwards, each block once.
pub proof fn lemma_take_keeps(p: ActivePiece, q: ActivePiece, n: nat)
    requires
        piece_ok(p),
        p.taken_to(q, n),
    ensures
        piece_ok(q),
        q.index == p.index,
        q.peers_with_piece@ == p.peers_with_piece@,
        forall|b: Block| out_of(p, b) ==> out_of(q, b),
        forall|b: Block|
            #[trigger] p.take_spec(n).contains(b) ==> b.piece == p.index && !out_of(p, b) && out_of(q, b),
        p.take_spec(n).no_duplicates(),
{
    let k = min_nat(n, p.released().len());
    let rel = p.released();
    let u = p.unassigned();
    lemma_take_blocks_order(u, (n - k) as nat);
    let fresh = crate::blocks::take_blocks(u, (n - k) as nat).0;
    let front = rel.take(k as int);
    let back = rel.skip(k as int);
    assert(q.released() == back);
    assert forall|i: int| 0 <= i < back.len() implies (#[trigger] back[i]).piece == q.index
        && (back[i].offset as nat) < q.unassigned().offset() by {
        assert(back[i] == rel[i + k]);
    }
    assert(back.no_duplicates()) by {
        assert forall|i: int, j: int| 0 <= i < j < back.len() implies back[i] != back[j] by {
            assert(back[i] == rel[i + k]);
            assert(back[j] == rel[j + k]);
        }
    }
    assert forall|b: Block| out_of(p, b) implies out_of(q, b) by {
        if back.contains(b) {
            let i = back.index_of(b);
            assert(rel[i + k] == b);
        }
    }
    assert(front.no_duplicates()) by {
        assert forall|i: int, j: int| 0 <= i < j < front.len() implies front[i] != front[j] by {
            assert(front[i] == rel[i]);
            assert(front[j] == rel[j]);
        }
    }
    assert forall|i: int, j: int| 0 <= i < front.len() && 0 <= j < fresh.len() implies front[i] != fresh[j] by {
        assert(front[i] == rel[i]);
    }
    vstd::seq_lib::lemma_no_dup_in_concat(front, fresh);
    assert(p.take_spec(n) == front + fresh);
    assert forall|b: Block| #[trigger] p.take_spec(n).contains(b) implies b.piece == p.index && !out_of(p, b)
        && out_of(q, b) by {
        let t = p.take_spec(n);
        let i = t.index_of(b);
        if i < front.len() {
            assert(front[i] == rel[i]);
            assert(rel.contains(b));
            if back.contains(b) {
                let j = back.index_of(b);
                assert(rel[j + k] == b);
            }
        } else {
            assert(fresh[i - front.len()] == b);
            if rel.contains(b) {
                let j = rel.index_of(b);
                assert(rel[j] == b);
            }
            if back.contains(b) {
                let j = back.index_of(b);
                assert(rel[j + k] == b);
            }
        }
    }
}

/// Handing out blocks from the pieces being downloaded: what had gone out
/// stays out, and each block handed out had not gone out of a piece that the
/// peer has, and is out of it afterwards, each block once.
pub proof fn lemma_assign_keeps(ps: Seq<ActivePiece>, qs: Seq<ActivePiece>, addr: u64, n: nat)
    requires
        forall|j: int| 0 <= j < ps.len() ==> piece_ok(#[trigger] ps[j]),
        unique_indices(ps),
        assign_after(ps, qs, addr, n),
    ensures
        qs.len() == ps.len(),
        forall|j: int|
            0 <= j < ps.len() ==> {
                &&& (#[trigger] qs[j]).index == ps[j].index
                &&& qs[j].peers_with_piece@ == ps[j].peers_with_piece@
                &&& piece_ok(qs[j])
                &&& forall|b: Block| out_of(ps[j], b) ==> out_of(qs[j], b)
            },
        forall|b: Block|
            #[trigger] assign_out(ps, addr, n).contains(b) ==> exists|j: int|
                0 <= j < ps.len() && (#[trigger] ps[j]).index == b.piece && ps[j].peers_with_piece@.contains(addr)
                    && !out_of(ps[j], b) && out_of(qs[j], b),
        assign_out(ps, addr, n).no_duplicates(),
    decreases ps.len(),
{
    if ps.len() == 0 {
    } else if n == 0 {
    } else {
        let p = ps[0];
        let q = qs[0];
        let rest = ps.drop_first();
        let qrest = qs.drop_first();
        let takes = p.peers_with_piece@.contains(addr);
        let m = if takes { (n - p.take_spec(n).len()) as nat } else { n };
        assert(unique_indices(rest)) by {
            assert forall|i: int, j: int|
                0 <= i < rest.len() && 0 <= j < rest.len() && i != j implies rest[i].index != rest[j].index by {
                assert(rest[i] == ps[i + 1]);
                assert(rest[j] == ps[j + 1]);
            }
        }
        assert forall|j: int| 0 <= j < rest.len() implies piece_ok(#[trigger] rest[j]) by {
            assert(rest[j] == ps[j + 1]);
        }
        lemma_assign_keeps(rest, qrest, addr, m);
        if takes {
            lemma_take_keeps(p, q, n);
        }
        let head = if takes { p.take_spec(n) } else { Seq::<Block>::empty() };
        let tail = assign_out(rest, addr, m);
        assert(assign_out(ps, addr, n) == head + tail);
        assert forall|j: int| 0 <= j < ps.len() implies {
            &&& (#[trigger] qs[j]).index == ps[j].index
            &&& qs[j].peers_with_piece@ == ps[j].peers_with_piece@
            &&& piece_ok(qs[j])
            &&& forall|b: Block| out_of(ps[j], b) ==> out_of(qs[j], b)
        } by {
            if j > 0 {
                assert(qs[j] == qrest[j - 1]);
                assert(ps[j] == rest[j - 1]);
            }
        }
        assert forall|b: Block| #[trigger] (head + tail).contains(b) implies exists|j: int|
            0 <= j < ps.len() && (#[trigger] ps[j]).index == b.piece && ps[j].peers_with_piece@.contains(addr)
                && !out_of(ps[j], b) && out_of(qs[j], b) by {
            let i = (head + tail).index_of(b);
            if i < head.len() {
                assert(head[i] == b);
                assert(head.contains(b));
                assert(ps[0].index == b.piece);
            } else {
                assert(tail[i - head.len()] == b);
                assert(tail.contains(b));
                let j = choose|j: int|
                    0 <= j < rest.len() && (#[trigger] rest[j]).index == b.piece && rest[j].peers_with_piece@.contains(addr)
                        && !out_of(rest[j], b) && out_of(qrest[j], b);
                assert(ps[j + 1] == rest[j]);
                assert(qs[j + 1] == qrest[j]);
            }
        }
        assert forall|i: int, j: int| 0 <= i < head.len() && 0 <= j < tail.len() implies head[i] != tail[j] by {
            assert(head.contains(head[i]));
            assert(tail.contains(tail[j]));
            let b = tail[j];
            let w = choose|w: int|
                0 <= w < rest.len() && (#[trigger] rest[w]).index == b.piece && rest[w].peers_with_piece@.contains(addr)
                    && !out_of(rest[w], b) && out_of(qrest[w], b);
            assert(ps[w + 1] == rest[w]);
        }
        vstd::seq_lib::lemma_no_dup_in_concat(head, tail);
    }
}

/// Starting new pieces and handing out their blocks: each piece started was
/// available and is no longer, a piece being downloaded stays as it was or
/// gives way to the same piece started anew, and each block handed out is
/// out of a started piece that the peer has, each block once.
pub proof fn lemma_start_keeps(
    avail: Map<usize, AvailablePiece>,
    act: Seq<ActivePiece>,
    addr: u64,
    r: nat,
    sizes: Sizes,
    avail2: Map<usize, AvailablePiece>,
    act2: Seq<ActivePiece>,
)
    requires
        avail.dom().finite(),
        forall|k: usize| #[trigger] avail.contains_key(k) ==> avail[k].index == k,
        sizes.block_size > 0,
        forall|j: int| 0 <= j < act.len() ==> piece_ok(#[trigger] act[j]),
        unique_indices(act),
        avail_after(avail, act, addr, r, sizes, avail2, act2),
    ensures
        act2.len() >= act.len(),
        unique_indices(act2),
        forall|j: int| 0 <= j < act2.len() ==> piece_ok(#[trigger] act2[j]),
        forall|j: int|
            0 <= j < act.len() ==> (#[trigger] act2[j]).index == act[j].index && (act2[j] == act[j] || (
            avail.contains_key(act[j].index) && !avail2.contains_key(act[j].index))),
        forall|j: int|
            act.len() <= j < act2.len() ==> avail.contains_key((#[trigger] act2[j]).index) && !avail2.contains_key(
                act2[j].index,
            ),
        forall|b: Block|
            #[trigger] avail_out(avail, addr, r, sizes).contains(b) ==> avail.contains_key(b.piece) && exists|j: int|
                0 <= j < act2.len() && (#[trigger] act2[j]).index == b.piece && act2[j].peers_with_piece@.contains(addr)
                    && out_of(act2[j], b),
        avail_out(avail, addr, r, sizes).no_duplicates(),
        forall|k: usize| #[trigger] avail2.contains_key(k) ==> avail.contains_key(k) && avail2[k] == avail[k],
        forall|k: usize|
            #[trigger] avail.contains_key(k) && !avail2.contains_key(k) ==> avail[k].peers_with_piece@.contains(addr),
    decreases avail.dom().len(),
{
    if r == 0 || !crate::available_pieces::any_for(avail, addr) {
    } else {
        lemma_next_for_exists(avail, addr);
        let p = next_piece(avail, addr);
        let fb = fresh_blocks(sizes, p.index);
        lemma_fresh(p.index, sizes.size_of(p.index as nat) as usize, sizes.block_size);
        lemma_take_blocks_order(fb, r);
        let taken = take_blocks(fb, r);
        let avail1 = avail.remove(p.index);
        let r1 = (r - taken.0.len()) as nat;
        let q = choose|q: ActivePiece|
            {
                &&& q.index == p.index
                &&& q.peers_with_piece@ == p.peers_with_piece@
                &&& q.released() == Seq::<Block>::empty()
                &&& q.unassigned() == taken.1
                &&& avail_after(avail1, #[trigger] insert_active(act, q), addr, r1, sizes, avail2, act2)
            };
        let act1 = insert_active(act, q);
        let exists_at = exists|j: int| 0 <= j < act.len() && (#[trigger] act[j]).index == q.index;
        let at = if exists_at {
            choose|j: int| 0 <= j < act.len() && (#[trigger] act[j]).index == q.index
        } else {
            act.len() as int
        };
        assert(act1.len() == if exists_at { act.len() } else { act.len() + 1 });
        assert(act1[at] == q);
        assert(forall|j: int| 0 <= j < act1.len() && j != at ==> act1[j] == act[j]);
        assert(piece_ok(q));
        assert(avail1.dom().len() < avail.dom().len()) by {
            assert(avail.contains_key(p.index));
        }
        assert forall|j: int| 0 <= j < act1.len() implies piece_ok(#[trigger] act1[j]) by {
            if j != at {
                assert(act1[j] == act[j]);
            }
        }
        assert(unique_indices(act1)) by {
            assert forall|i: int, j: int|
                0 <= i < act1.len() && 0 <= j < act1.len() && i != j implies act1[i].index != act1[j].index by {
                if i != at {
                    assert(act1[i] == act[i]);
                }
                if j != at {
                    assert(act1[j] == act[j]);
                }
            }
        }
        lemma_start_keeps(avail1, act1, addr, r1, sizes, avail2, act2);
        let out = avail_out(avail, addr, r, sizes);
        let tail = avail_out(avail1, addr, r1, sizes);
        assert(out == taken.0 + tail);
        assert(act2[at].index == q.index);
        assert(act2[at] == q);
        assert forall|j: int|
            0 <= j < act.len() implies (#[trigger] act2[j]).index == act[j].index && (act2[j] == act[j] || (
            avail.contains_key(act[j].index) && !avail2.contains_key(act[j].index))) by {
            assert(act2[j].index == act1[j].index);
            if j != at {
                assert(act1[j] == act[j]);
            }
        }
        assert forall|j: int|
            act.len() <= j < act2.len() implies avail.contains_key((#[trigger] act2[j]).index) && !avail2.contains_key(
                act2[j].index,
            ) by {
            if j < act1.len() {
                assert(j == at);
            }
        }
        assert forall|b: Block| #[trigger] out.contains(b) implies avail.contains_key(b.piece) && exists|j: int|
            0 <= j < act2.len() && (#[trigger] act2[j]).index == b.piece && act2[j].peers_with_piece@.contains(addr)
                && out_of(act2[j], b) by {
            let i = out.index_of(b);
            if i < taken.0.len() {
                assert(taken.0[i] == b);
                assert(act2[at].index == b.piece);
            } else {
                assert(tail[i - taken.0.len()] == b);
                assert(tail.contains(b));
            }
        }
        assert forall|i: int, j: int| 0 <= i < taken.0.len() && 0 <= j < tail.len() implies taken.0[i] != tail[j] by {
            assert(tail.contains(tail[j]));
        }
        vstd::seq_lib::lemma_no_dup_in_concat(taken.0, tail);
        assert forall|k: usize|
            #[trigger] avail.contains_key(k) && !avail2.contains_key(k) implies avail[k].peers_with_piece@.contains(addr) by {
            if k != p.index {
                assert(avail1.contains_key(k));
            }
        }
    }
}

/// Of each peer, whether it is choking the client and the blocks it has
/// been asked for and has not sent.
pub open spec fn flight_view(peers: Map<u64, Peer>) -> Map<u64, (bool, Set<Block>)> {
    peers.map_values(|p: Peer| (p.choking, p.assigned_blocks@.to_set()))
}

/// Whether peer `a` has been asked for block `b` and has not sent it.
pub open spec fn holds(peers: Map<u64, (bool, Set<Block>)>, a: u64, b: Block) -> bool {
    peers.contains_key(a) && peers[a].1.contains(b)
}

/// Whether some piece being downloaded has this index.
pub open spec fn has_index(act: Seq<ActivePiece>, k: usize) -> bool {
    exists|j: int| 0 <= j < act.len() && (#[trigger] act[j]).index == k
}

/// Whether the blocks in flight are kept apart, over the parts of a
/// scheduler: its block size, its peers, its orphan, available and active
/// pieces.
pub open spec fn flights_apart(
    block_size: usize,
    peers: Map<u64, (bool, Set<Block>)>,
    orphans: Set<nat>,
    avail: Map<usize, AvailablePiece>,
    act: Seq<ActivePiece>,
) -> bool {
    &&& block_size > 0
    &&& forall|j: int| 0 <= j < act.len() ==> piece_ok(#[trigger] act[j])
    // a block in flight is of a piece being downloaded ...
    &&& forall|a: u64, b: Block| #[trigger] holds(peers, a, b) ==> has_index(act, b.piece)
    // ... that the peer has, and has gone out of that piece
    &&& forall|a: u64, b: Block, j: int|
        #![trigger holds(peers, a, b), act[j]]
        holds(peers, a, b) && 0 <= j < act.len() && act[j].index == b.piece ==> act[j].peers_with_piece@.contains(a)
            && out_of(act[j], b)
    // no block is in flight to two peers
    &&& forall|a1: u64, a2: u64, b: Block|
        #![trigger holds(peers, a1, b), holds(peers, a2, b)]
        holds(peers, a1, b) && holds(peers, a2, b) ==> a1 == a2
    // a peer that is choking the client has no block in flight
    &&& forall|a: u64| #[trigger] peers.contains_key(a) && peers[a].0 ==> peers[a].1 == Set::<Block>::empty()
    // a piece both available and being downloaded, or an orphan and being
    // downloaded, has no peer on the side of its download
    &&& forall|j: int|
        0 <= j < act.len() && avail.contains_key((#[trigger] act[j]).index) ==> act[j].peers_with_piece@.len() == 0
    &&& forall|j: int|
        0 <= j < act.len() && orphans.contains((#[trigger] act[j]).index as nat) ==> act[j].peers_with_piece@.len()
            == 0
    // a piece both available and an orphan has no peer
    &&& forall|k: usize|
        #[trigger] avail.contains_key(k) && orphans.contains(k as nat) ==> avail[k].peers_with_piece@.len() == 0
}

/// Handing out blocks to a peer keeps the blocks in flight apart.
pub proof fn lemma_handout_keeps(
    sizes: Sizes,
    peers0: Map<u64, (bool, Set<Block>)>,
    peers1: Map<u64, (bool, Set<Block>)>,
    orphans: Set<nat>,
    avail: Map<usize, AvailablePiece>,
    act: Seq<ActivePiece>,
    addr: u64,
    n: nat,
    out: Seq<Block>,
    act2: Seq<ActivePiece>,
    avail2: Map<usize, AvailablePiece>,
)
    requires
        flights_apart(sizes.block_size, peers0, orphans, avail, act),
        avail.dom().finite(),
        forall|k: usize| #[trigger] avail.contains_key(k) ==> avail[k].index == k,
        unique_indices(act),
        handed_out(act, avail, sizes, addr, n, out, act2, avail2),
        peers0.contains_key(addr),
        peers1.dom() == peers0.dom(),
        forall|a: u64| a != addr && peers0.contains_key(a) ==> #[trigger] peers1[a] == peers0[a],
        peers1[addr].0 == peers0[addr].0,
        peers0[addr].0 ==> out.len() == 0,
        peers1[addr].1 == peers0[addr].1 + out.to_set(),
    ensures
        flights_apart(sizes.block_size, peers1, orphans, avail2, act2),
        unique_indices(act2),
{
    let out1 = assign_out(act, addr, n);
    let r2 = (n - out1.len()) as nat;
    let out2 = avail_out(avail, addr, r2, sizes);
    let mid = choose|mid: Seq<ActivePiece>|
        #[trigger] assign_after(act, mid, addr, n) && avail_after(avail, mid, addr, r2, sizes, avail2, act2);
    lemma_assign_keeps(act, mid, addr, n);
    assert(unique_indices(mid)) by {
        assert forall|i: int, j: int| 0 <= i < mid.len() && 0 <= j < mid.len() && i != j implies mid[i].index
            != mid[j].index by {
            assert(mid[i].index == act[i].index);
            assert(mid[j].index == act[j].index);
        }
    }
    lemma_start_keeps(avail, mid, addr, r2, sizes, avail2, act2);
    assert(out == out1 + out2);
    assert forall|b: Block| #[trigger] out.contains(b) implies out1.contains(b) || out2.contains(b) by {
        let i = out.index_of(b);
        if i < out1.len() {
            assert(out1[i] == b);
        } else {
            assert(out2[i - out1.len()] == b);
        }
    }
    // where the pieces of the old blocks in flight stand afterwards
    assert forall|a: u64, b: Block, j: int|
        #![trigger holds(peers0, a, b), act[j]]
        holds(peers0, a, b) && 0 <= j < act.len() && act[j].index == b.piece implies act2[j] == mid[j]
            && act2[j].peers_with_piece@.contains(a) && out_of(act2[j], b) by {
        assert(act[j].peers_with_piece@.contains(a));
        if act2[j] != mid[j] {
            assert(avail.contains_key(act[j].index));
        }
    }
    assert forall|a: u64, b: Block| #[trigger] holds(peers1, a, b) implies has_index(act2, b.piece) by {
        if holds(peers0, a, b) {
            let j = choose|j: int| 0 <= j < act.len() && (#[trigger] act[j]).index == b.piece;
            assert(act2[j].index == b.piece);
        } else if out1.contains(b) {
            let j = choose|j: int|
                0 <= j < act.len() && (#[trigger] act[j]).index == b.piece && act[j].peers_with_piece@.contains(addr)
                    && !out_of(act[j], b) && out_of(mid[j], b);
            assert(act2[j].index == b.piece);
        } else {
            assert(out2.contains(b));
        }
    }
    assert forall|a: u64, b: Block, j: int|
        #![trigger holds(peers1, a, b), act2[j]]
        holds(peers1, a, b) && 0 <= j < act2.len() && act2[j].index == b.piece implies act2[j].peers_with_piece@.contains(
            a,
        ) && out_of(act2[j], b) by {
        if holds(peers0, a, b) {
            let j0 = choose|j0: int| 0 <= j0 < act.len() && (#[trigger] act[j0]).index == b.piece;
            assert(act2[j0].index == b.piece);
        } else if out1.contains(b) {
            let j1 = choose|j1: int|
                0 <= j1 < act.len() && (#[trigger] act[j1]).index == b.piece && act[j1].peers_with_piece@.contains(addr)
                    && !out_of(act[j1], b) && out_of(mid[j1], b);
            assert(act2[j1].index == b.piece);
            if act2[j1] != mid[j1] {
                assert(avail.contains_key(act[j1].index));
            }
        } else {
            assert(out2.contains(b));
            let j2 = choose|j2: int|
                0 <= j2 < act2.len() && (#[trigger] act2[j2]).index == b.piece && act2[j2].peers_with_piece@.contains(
                    addr,
                ) && out_of(act2[j2], b);
            assert(act2[j2].index == act2[j].index);
        }
    }
    assert forall|a1: u64, a2: u64, b: Block|
        #![trigger holds(peers1, a1, b), holds(peers1, a2, b)]
        holds(peers1, a1, b) && holds(peers1, a2, b) implies a1 == a2 by {
        if a1 != a2 {
            let (x, y) = if holds(peers0, a1, b) { (a2, a1) } else { (a1, a2) };
            if !holds(peers0, x, b) {
                assert(x == addr);
                assert(holds(peers0, y, b));
                let j0 = choose|j0: int| 0 <= j0 < act.len() && (#[trigger] act[j0]).index == b.piece;
                assert(act[j0].peers_with_piece@.contains(y) && out_of(act[j0], b));
                if out1.contains(b) {
                    let j1 = choose|j1: int|
                        0 <= j1 < act.len() && (#[trigger] act[j1]).index == b.piece && act[j1].peers_with_piece@.contains(
                            addr,
                        ) && !out_of(act[j1], b) && out_of(mid[j1], b);
                    assert(j1 == j0);
                } else {
                    assert(out2.contains(b));
                    assert(avail.contains_key(act[j0].index));
                }
            }
        }
    }
    assert forall|a: u64| #[trigger] peers1.contains_key(a) && peers1[a].0 implies peers1[a].1 == Set::<Block>::empty() by {
        if a == addr {
            assert(out.len() == 0);
            assert(out.to_set() =~= Set::<Block>::empty());
            assert(peers1[a].1 =~= Set::<Block>::empty());
        } else {
            assert(peers0.contains_key(a));
        }
    }
    assert forall|j: int|
        0 <= j < act2.len() && avail2.contains_key((#[trigger] act2[j]).index) implies act2[j].peers_with_piece@.len()
        == 0 by {
        assert(j < act.len());
        assert(act2[j] == mid[j]);
        assert(avail.contains_key(act[j].index));
    }
    assert forall|j: int|
        0 <= j < act2.len() && orphans.contains((#[trigger] act2[j]).index as nat) implies act2[j].peers_with_piece@.len()
        == 0 by {
        let k = act2[j].index;
        if j < act.len() && act2[j] == mid[j] {
            assert(orphans.contains(act[j].index as nat));
        } else {
            assert(avail.contains_key(k) && !avail2.contains_key(k));
            assert(avail[k].peers_with_piece@.contains(addr));
        }
    }
    assert forall|k: usize|
        #[trigger] avail2.contains_key(k) && orphans.contains(k as nat) implies avail2[k].peers_with_piece@.len() == 0 by {
        assert(avail.contains_key(k));
    }
}

/// Keeping the elements that meet a test keeps them each once.
pub proof fn lemma_filter_once(s: Seq<Block>, f: spec_fn(Block) -> bool)
    requires
        s.no_duplicates(),
    ensures
        s.filter(f).no_duplicates(),
        forall|b: Block| #[trigger] s.filter(f).contains(b) <==> s.contains(b) && f(b),
    decreases s.len(),
{
    broadcast use vstd::seq_lib::group_filter_ensures;

    if s.len() > 0 {
        let init = s.drop_last();
        let x = s.last();
        assert(init.no_duplicates()) by {
            assert forall|i: int, j: int| 0 <= i < j < init.len() implies init[i] != init[j] by {
                assert(init[i] == s[i] && init[j] == s[j]);
            }
        }
        lemma_filter_once(init, f);
        assert(s == init.push(x));
        init.lemma_filter_push(x, f);
        assert forall|b: Block| #[trigger] s.filter(f).contains(b) <==> s.contains(b) && f(b) by {
            crate::scheduler::lemma_contains_push(init, x, b);
            crate::scheduler::lemma_contains_push(init.filter(f), x, b);
            assert(init.filter(f).contains(b) <==> init.contains(b) && f(b));
        }
        if f(x) {
            assert(!init.contains(x)) by {
                if init.contains(x) {
                    let i = init.index_of(x);
                    assert(s[i] == x && s[s.len() - 1] == x);
                }
            }
            let t = init.filter(f);
            assert forall|i: int, j: int| 0 <= i < j < t.push(x).len() implies t.push(x)[i] != t.push(x)[j] by {
                if j == t.len() {
                    assert(t.contains(t[i]));
                }
            }
        }
    } else {
        assert(s.filter(f).len() == 0);
    }
}

/// Giving back blocks that had gone out of their pieces, each once: what
/// else had gone out stays out.
pub proof fn lemma_give_back_keeps(act: Seq<ActivePiece>, act1: Seq<ActivePiece>, blocks: Seq<Block>)
    requires
        forall|j: int| 0 <= j < act.len() ==> piece_ok(#[trigger] act[j]),
        unique_indices(act),
        given_back(act, act1, blocks),
        blocks.no_duplicates(),
        forall|b: Block| #[trigger] blocks.contains(b) ==> exists|j: int| 0 <= j < act.len() && out_of(#[trigger] act[j], b),
    ensures
        act1.len() == act.len(),
        unique_indices(act1),
        forall|j: int|
            0 <= j < act.len() ==> {
                &&& piece_ok(#[trigger] act1[j])
                &&& act1[j].index == act[j].index
                &&& act1[j].peers_with_piece@ == act[j].peers_with_piece@
                &&& forall|c: Block| out_of(act[j], c) && !blocks.contains(c) ==> out_of(act1[j], c)
            },
{
    assert forall|j: int| 0 <= j < act.len() implies {
        &&& piece_ok(#[trigger] act1[j])
        &&& act1[j].index == act[j].index
        &&& act1[j].peers_with_piece@ == act[j].peers_with_piece@
        &&& forall|c: Block| out_of(act[j], c) && !blocks.contains(c) ==> out_of(act1[j], c)
    } by {
        let p = act[j];
        let q = act1[j];
        let f = of_piece(p.index);
        let extra = blocks.filter(f);
        lemma_filter_once(blocks, f);
        assert(q.released() == p.released() + extra);
        assert forall|x: int, y: int| 0 <= x < p.released().len() && 0 <= y < extra.len() implies p.released()[x]
            != extra[y] by {
            let b = extra[y];
            assert(extra.contains(b));
            let w = choose|w: int| 0 <= w < act.len() && out_of(#[trigger] act[w], b);
            assert(w == j);
            assert(p.released().contains(p.released()[x]));
        }
        vstd::seq_lib::lemma_no_dup_in_concat(p.released(), extra);
        assert forall|i: int| 0 <= i < q.released().len() implies (#[trigger] q.released()[i]).piece == q.index
            && (q.released()[i].offset as nat) < q.unassigned().offset() by {
            if i >= p.released().len() {
                let b = extra[i - p.released().len()];
                assert(extra.contains(b));
                let w = choose|w: int| 0 <= w < act.len() && out_of(#[trigger] act[w], b);
                assert(w == j);
            }
        }
        assert forall|c: Block| out_of(p, c) && !blocks.contains(c) implies out_of(q, c) by {
            if q.released().contains(c) {
                let i = q.released().index_of(c);
                if i < p.released().len() {
                    assert(p.released()[i] == c);
                } else {
                    assert(extra[i - p.released().len()] == c);
                    assert(extra.contains(c));
                }
            }
        }
    }
    assert(unique_indices(act1)) by {
        assert forall|i: int, j: int| 0 <= i < act1.len() && 0 <= j < act1.len() && i != j implies act1[i].index
            != act1[j].index by {
            assert(act1[i].index == act[i].index);
            assert(act1[j].index == act[j].index);
        }
    }
}

/// What the view of the peers holds of each peer.
pub proof fn lemma_view(peers: Map<u64, Peer>)
    ensures
        forall|a: u64| #[trigger] flight_view(peers).contains_key(a) == peers.contains_key(a),
        forall|a: u64|
            peers.contains_key(a) ==> #[trigger] flight_view(peers)[a] == (
                peers[a].choking,
                peers[a].assigned_blocks@.to_set(),
            ),
        forall|a: u64, b: Block|
            #[trigger] holds(flight_view(peers), a, b) <==> peers.contains_key(a) && peers[a].assigned_blocks@.contains(b),
{
}

/// A block in flight has gone out of its piece.
pub proof fn lemma_in_flight_out(s: Scheduler, a: u64, b: Block)
    requires
        s.flights_ok(),
        holds(flight_view(s.peers()), a, b),
    ensures
        exists|j: int| 0 <= j < s.active().len() && out_of(#[trigger] s.active()[j], b),
        s.peers().contains_key(a) && !s.peers()[a].choking,
{
    lemma_view(s.peers());
    let fv = flight_view(s.peers());
    let j = choose|j: int| 0 <= j < s.active().len() && (#[trigger] s.active()[j]).index == b.piece;
    assert(out_of(s.active()[j], b));
    if s.peers()[a].choking {
        assert(fv[a].1.contains(b));
    }
}

/// A peer that chokes the client keeps the blocks in flight apart.
pub proof fn lemma_choked_keeps(s0: Scheduler, s1: Scheduler, addr: u64)
    requires
        s0.wf(),
        s0.flights_ok(),
        s0.choked_to(s1, addr),
    ensures
        s1.flights_ok(),
{
    s0.lemma_parts();
    lemma_view(s0.peers());
    lemma_view(s1.peers());
    let fv0 = flight_view(s0.peers());
    let fv1 = flight_view(s1.peers());
    let act0 = s0.active();
    let act1 = s1.active();
    let blocks = if s0.peers().contains_key(addr) { s0.peers()[addr].assigned_blocks@ } else { Seq::empty() };
    assert forall|b: Block| #[trigger] blocks.contains(b) implies exists|j: int| 0 <= j < act0.len() && out_of(#[trigger] act0[j], b) by {
        lemma_in_flight_out(s0, addr, b);
    }
    lemma_give_back_keeps(act0, act1, blocks);
    assert forall|a: u64, b: Block| #[trigger] holds(fv1, a, b) implies a != addr && holds(fv0, a, b) by {
        if a == addr {
            assert(s1.peers()[addr].assigned_blocks@.len() == 0);
        }
    }
    assert forall|a: u64, b: Block| #[trigger] holds(fv1, a, b) implies has_index(act1, b.piece) by {
        let j = choose|j: int| 0 <= j < act0.len() && (#[trigger] act0[j]).index == b.piece;
        assert(act1[j].index == b.piece);
    }
    assert forall|a: u64, b: Block, j: int|
        #![trigger holds(fv1, a, b), act1[j]]
        holds(fv1, a, b) && 0 <= j < act1.len() && act1[j].index == b.piece implies act1[j].peers_with_piece@.contains(a)
            && out_of(act1[j], b) by {
        assert(holds(fv0, a, b) && act0[j].index == b.piece);
        if blocks.contains(b) {
            assert(holds(fv0, addr, b));
        }
    }
    assert forall|a1: u64, a2: u64, b: Block|
        #![trigger holds(fv1, a1, b), holds(fv1, a2, b)]
        holds(fv1, a1, b) && holds(fv1, a2, b) implies a1 == a2 by {
        assert(holds(fv0, a1, b) && holds(fv0, a2, b));
    }
    assert forall|a: u64| #[trigger] fv1.contains_key(a) && fv1[a].0 implies fv1[a].1 == Set::<Block>::empty() by {
        if a == addr {
            lemma_nothing_in_set(s1.peers()[a].assigned_blocks@);
        } else {
            assert(fv0.contains_key(a) && fv0[a] == fv1[a]);
        }
    }
    assert forall|j: int|
        0 <= j < act1.len() && s1.available().contains_key((#[trigger] act1[j]).index) implies act1[j].peers_with_piece@.len()
        == 0 by {
        assert(act0[j].index == act1[j].index);
    }
    assert forall|j: int|
        0 <= j < act1.len() && s1.orphans().contains((#[trigger] act1[j]).index as nat) implies act1[j].peers_with_piece@.len()
        == 0 by {
        assert(act0[j].index == act1[j].index);
    }
}

/// An empty sequence has an empty set of elements.
pub proof fn lemma_nothing_in_set<A>(s: Seq<A>)
    requires
        s.len() == 0,
    ensures
        s.to_set() == Set::<A>::empty(),
{
    assert(s.to_set() =~= Set::<A>::empty());
}

/// A sequence whose set of elements is empty is empty.
pub proof fn lemma_empty_set_seq<A>(s: Seq<A>)
    requires
        s.to_set().is_empty(),
    ensures
        s.len() == 0,
{
    if s.len() > 0 {
        assert(s.to_set().contains(s[0]));
    }
}

/// A peer that disconnects keeps the blocks in flight apart.
pub proof fn lemma_disconnected_keeps(s0: Scheduler, s2: Scheduler, addr: u64)
    requires
        s0.wf(),
        s0.flights_ok(),
        s0.disconnected_to(s2, addr),
    ensures
        s2.flights_ok(),
{
    s0.lemma_parts();
    lemma_view(s0.peers());
    lemma_view(s2.peers());
    let fv0 = flight_view(s0.peers());
    let fv2 = flight_view(s2.peers());
    if !s0.peers().contains_key(addr) {
        assert(s2.peers() =~= s0.peers());
        return;
    }
    let act0 = s0.active();
    let act2 = s2.active();
    let avail0 = s0.available();
    let has = piece_set_elements(s0.peers()[addr].has_pieces);
    let blocks = s0.peers()[addr].assigned_blocks@;
    let s1 = choose|s1: Scheduler|
        {
            &&& given_back(s0.active(), s1.active(), blocks)
            &&& s1.active_pieces().wf()
            &&& s1.available() == s0.available()
            &&& #[trigger] dropped_available(s1.available(), s2.available(), addr, has)
            &&& dropped_active(s1.active(), s2.active(), s1.available(), addr, has)
            &&& s2.orphans() == s0.orphans() + orphaned(s1.available(), s1.active_pieces(), addr, has)
        };
    s1.lemma_parts();
    let act1 = s1.active();
    assert forall|b: Block| #[trigger] blocks.contains(b) implies exists|j: int| 0 <= j < act0.len() && out_of(#[trigger] act0[j], b) by {
        lemma_in_flight_out(s0, addr, b);
    }
    lemma_give_back_keeps(act0, act1, blocks);
    assert forall|a: u64, b: Block| #[trigger] holds(fv2, a, b) implies a != addr && holds(fv0, a, b) && !blocks.contains(b) by {
        assert(s2.peers().contains_key(a));
        assert(a != addr);
        assert(s0.peers()[a] == s2.peers()[a]);
        assert(holds(fv0, a, b));
        if blocks.contains(b) {
            assert(holds(fv0, addr, b));
        }
    }
    assert forall|j: int| 0 <= j < act2.len() implies piece_ok(#[trigger] act2[j]) by {
        assert(piece_ok(act1[j]));
    }
    assert forall|a: u64, b: Block| #[trigger] holds(fv2, a, b) implies has_index(act2, b.piece) by {
        let j = choose|j: int| 0 <= j < act0.len() && (#[trigger] act0[j]).index == b.piece;
        assert(act2[j].index == b.piece);
    }
    assert forall|a: u64, b: Block, j: int|
        #![trigger holds(fv2, a, b), act2[j]]
        holds(fv2, a, b) && 0 <= j < act2.len() && act2[j].index == b.piece implies act2[j].peers_with_piece@.contains(a)
            && out_of(act2[j], b) by {
        assert(holds(fv0, a, b) && act0[j].index == b.piece);
        assert(act0[j].peers_with_piece@.contains(a));
        assert(act1[j].peers_with_piece@.to_set().contains(a));
        assert(act2[j].peers_with_piece@.to_set().contains(a));
    }
    assert forall|a1: u64, a2: u64, b: Block|
        #![trigger holds(fv2, a1, b), holds(fv2, a2, b)]
        holds(fv2, a1, b) && holds(fv2, a2, b) implies a1 == a2 by {
        assert(holds(fv0, a1, b) && holds(fv0, a2, b));
    }
    assert forall|a: u64| #[trigger] fv2.contains_key(a) && fv2[a].0 implies fv2[a].1 == Set::<Block>::empty() by {
        assert(fv0.contains_key(a) && fv0[a] == fv2[a]);
    }
    // a piece whose peers were none has none left
    assert forall|j: int| 0 <= j < act2.len() && act0[j].peers_with_piece@.len() == 0 implies #[trigger] act2[j].peers_with_piece@.len()
        == 0 by {
        assert(act1[j].peers_with_piece@.to_set() =~= Set::<u64>::empty());
        if act2[j].peers_with_piece@.to_set() != act1[j].peers_with_piece@.to_set() {
            assert(act2[j].peers_with_piece@.to_set() =~= Set::<u64>::empty());
        }
        lemma_empty_set_seq(act2[j].peers_with_piece@);
    }
    assert forall|j: int|
        0 <= j < act2.len() && s2.available().contains_key((#[trigger] act2[j]).index) implies act2[j].peers_with_piece@.len()
        == 0 by {
        assert(avail0.contains_key(act2[j].index));
        assert(act0[j].index == act2[j].index);
    }
    assert forall|j: int|
        0 <= j < act2.len() && s2.orphans().contains((#[trigger] act2[j]).index as nat) implies act2[j].peers_with_piece@.len()
        == 0 by {
        let k = act2[j].index;
        assert(act0[j].index == k);
        if !s0.orphans().contains(k as nat) {
            assert(orphaned(avail0, s1.active_pieces(), addr, has).contains(k as nat));
            assert(has.contains(k as nat));
            if avail0.contains_key(k) {
                assert(act0[j].peers_with_piece@.len() == 0);
            } else {
                let w = s1.active_pieces().position(k);
                assert(act1[j].index == k);
                assert(w == j);
                assert(act1[j].peers_with_piece@.to_set().remove(addr).is_empty());
                lemma_empty_set_seq(act2[j].peers_with_piece@);
            }
        }
    }
    assert forall|k: usize|
        #[trigger] s2.available().contains_key(k) && s2.orphans().contains(k as nat) implies s2.available()[k].peers_with_piece@.len()
        == 0 by {
        assert(avail0.contains_key(k));
        if has.contains(k as nat) {
            if s0.orphans().contains(k as nat) {
                assert(avail0[k].peers_with_piece@.len() == 0);
                assert(avail0[k].peers() =~= Set::<u64>::empty());
                assert(avail0[k].peers().remove(addr) =~= Set::<u64>::empty());
            } else {
                assert(orphaned(avail0, s1.active_pieces(), addr, has).contains(k as nat));
            }
        } else {
            assert(s0.orphans().contains(k as nat));
        }
    }
}

/// Giving back a block in flight to a peer that is not choking, and taking
/// it from what the peer is asked for, keeps the blocks in flight apart.
pub proof fn lemma_release_parts(s0: Scheduler, addr: u64, block: Block, act1: Seq<ActivePiece>)
    requires
        s0.wf(),
        s0.flights_ok(),
        s0.peers().contains_key(addr),
        s0.peers()[addr].assigned_blocks@.contains(block),
        given_back(s0.active(), act1, seq![block]),
    ensures
        !s0.peers()[addr].choking,
        flights_apart(
            s0.sizes().block_size,
            flight_view(s0.peers()).insert(addr, (false, s0.peers()[addr].assigned_blocks@.to_set().remove(block))),
            s0.orphans(),
            s0.available(),
            act1,
        ),
        unique_indices(act1),
{
    s0.lemma_parts();
    lemma_view(s0.peers());
    let fv0 = flight_view(s0.peers());
    let fvm = fv0.insert(addr, (false, s0.peers()[addr].assigned_blocks@.to_set().remove(block)));
    let act0 = s0.active();
    let blocks = seq![block];
    assert(holds(fv0, addr, block));
    lemma_in_flight_out(s0, addr, block);
    assert forall|b: Block| #[trigger] blocks.contains(b) implies exists|j: int| 0 <= j < act0.len() && out_of(#[trigger] act0[j], b) by {
        assert(b == block);
    }
    lemma_give_back_keeps(act0, act1, blocks);
    assert forall|a: u64, b: Block| #[trigger] holds(fvm, a, b) implies holds(fv0, a, b) && b != block by {
        if a != addr {
            assert(holds(fv0, a, b));
            if b == block {
                assert(holds(fv0, addr, b));
            }
        }
    }
    assert forall|a: u64, b: Block| #[trigger] holds(fvm, a, b) implies has_index(act1, b.piece) by {
        assert(holds(fv0, a, b));
        let j = choose|j: int| 0 <= j < act0.len() && (#[trigger] act0[j]).index == b.piece;
        assert(act1[j].index == b.piece);
    }
    assert forall|a: u64, b: Block, j: int|
        #![trigger holds(fvm, a, b), act1[j]]
        holds(fvm, a, b) && 0 <= j < act1.len() && act1[j].index == b.piece implies act1[j].peers_with_piece@.contains(a)
            && out_of(act1[j], b) by {
        assert(holds(fv0, a, b) && act0[j].index == b.piece);
        assert(!blocks.contains(b));
    }
    assert forall|a1: u64, a2: u64, b: Block|
        #![trigger holds(fvm, a1, b), holds(fvm, a2, b)]
        holds(fvm, a1, b) && holds(fvm, a2, b) implies a1 == a2 by {
        assert(holds(fv0, a1, b) && holds(fv0, a2, b));
    }
    assert forall|a: u64| #[trigger] fvm.contains_key(a) && fvm[a].0 implies fvm[a].1 == Set::<Block>::empty() by {
        assert(a != addr);
        assert(fv0.contains_key(a) && fv0[a] == fvm[a]);
    }
    assert forall|j: int|
        0 <= j < act1.len() && s0.available().contains_key((#[trigger] act1[j]).index) implies act1[j].peers_with_piece@.len()
        == 0 by {
        assert(act0[j].index == act1[j].index);
    }
    assert forall|j: int|
        0 <= j < act1.len() && s0.orphans().contains((#[trigger] act1[j]).index as nat) implies act1[j].peers_with_piece@.len()
        == 0 by {
        assert(act0[j].index == act1[j].index);
    }
}

/// Giving back a block in flight to a peer keeps the blocks in flight apart.
pub proof fn lemma_released_keeps(s0: Scheduler, s2: Scheduler, addr: u64, block: Block, r: Seq<Block>)
    requires
        s0.wf(),
        s0.flights_ok(),
        s0.peers().contains_key(addr),
        s0.peers()[addr].assigned_blocks@.contains(block),
        s0.released_to(s2, addr, block, r),
    ensures
        s2.flights_ok(),
{
    s0.lemma_parts();
    lemma_view(s0.peers());
    lemma_view(s2.peers());
    let fv0 = flight_view(s0.peers());
    let fv2 = flight_view(s2.peers());
    let before = s0.peers()[addr].assigned_blocks@;
    let held = before.to_set().remove(block);
    let held_len = before.len() - 1;
    let act1 = choose|act1: Seq<ActivePiece>|
        #[trigger] given_back(s0.active(), act1, seq![block]) && if s0.peers()[addr].choking {
            r.len() == 0 && s2.available() == s0.available() && s2.active() == act1
        } else {
            handed_out(
                act1,
                s0.available(),
                s0.sizes(),
                addr,
                (s0.max_requests() - held_len) as nat,
                r,
                s2.active(),
                s2.available(),
            )
        };
    lemma_release_parts(s0, addr, block, act1);
    let fvm = fv0.insert(addr, (false, held));
    assert(fv2.dom() =~= fvm.dom());
    assert forall|a: u64| a != addr && fvm.contains_key(a) implies #[trigger] fv2[a] == fvm[a] by {
        if s0.peers().contains_key(a) {
            assert(s2.peers()[a] == s0.peers()[a]);
        }
    }
    lemma_handout_keeps(
        s0.sizes(),
        fvm,
        fv2,
        s0.orphans(),
        s0.available(),
        act1,
        addr,
        (s0.max_requests() - held_len) as nat,
        r,
        s2.active(),
        s2.available(),
    );
}

/// Fewer blocks in flight, or a peer with none, keep the blocks in flight
/// apart.
pub proof fn lemma_fewer_keeps(
    block_size: usize,
    p0: Map<u64, (bool, Set<Block>)>,
    p1: Map<u64, (bool, Set<Block>)>,
    orphans: Set<nat>,
    avail: Map<usize, AvailablePiece>,
    act: Seq<ActivePiece>,
)
    requires
        flights_apart(block_size, p0, orphans, avail, act),
        forall|a: u64|
            #[trigger] p1.contains_key(a) ==> if p0.contains_key(a) {
                p1[a].1.subset_of(p0[a].1) && (p1[a].0 ==> p1[a].1 == Set::<Block>::empty() || p1[a] == p0[a])
            } else {
                p1[a].1 == Set::<Block>::empty()
            },
    ensures
        flights_apart(block_size, p1, orphans, avail, act),
{
    assert forall|a: u64, b: Block| #[trigger] holds(p1, a, b) implies holds(p0, a, b) by {
        if !p0.contains_key(a) {
            assert(p1[a].1.contains(b));
        }
    }
    assert forall|a: u64, b: Block| #[trigger] holds(p1, a, b) implies has_index(act, b.piece) by {
        assert(holds(p0, a, b));
    }
    assert forall|a: u64, b: Block, j: int|
        #![trigger holds(p1, a, b), act[j]]
        holds(p1, a, b) && 0 <= j < act.len() && act[j].index == b.piece implies act[j].peers_with_piece@.contains(a)
            && out_of(act[j], b) by {
        assert(holds(p0, a, b));
    }
    assert forall|a1: u64, a2: u64, b: Block|
        #![trigger holds(p1, a1, b), holds(p1, a2, b)]
        holds(p1, a1, b) && holds(p1, a2, b) implies a1 == a2 by {
        assert(holds(p0, a1, b) && holds(p0, a2, b));
    }
}

/// A block sent by the peer it was asked of, and the blocks handed out to
/// that peer in its place, keep the blocks in flight apart.
pub proof fn lemma_downloaded_keeps(s0: Scheduler, s2: Scheduler, addr: u64, block: Block, r: Seq<Block>)
    requires
        s0.wf(),
        s0.flights_ok(),
        s0.peers().contains_key(addr),
        s0.peers()[addr].assigned_blocks@.contains(block),
        s0.downloaded_to(s2, addr, block, r),
    ensures
        s2.flights_ok(),
{
    s0.lemma_parts();
    lemma_view(s0.peers());
    lemma_view(s2.peers());
    let fv0 = flight_view(s0.peers());
    let fv2 = flight_view(s2.peers());
    assert(holds(fv0, addr, block));
    lemma_in_flight_out(s0, addr, block);
    let held = s0.peers()[addr].assigned_blocks@.to_set().remove(block);
    let fvm = fv0.insert(addr, (false, held));
    lemma_fewer_keeps(s0.sizes().block_size, fv0, fvm, s0.orphans(), s0.available(), s0.active());
    assert(fv2.dom() =~= fvm.dom());
    assert forall|a: u64| a != addr && fvm.contains_key(a) implies #[trigger] fv2[a] == fvm[a] by {
        assert(s2.peers()[a] == s0.peers()[a]);
    }
    lemma_handout_keeps(
        s0.sizes(),
        fvm,
        fv2,
        s0.orphans(),
        s0.available(),
        s0.active(),
        addr,
        (s0.max_requests() - (s0.peers()[addr].assigned_blocks@.len() - 1)) as nat,
        r,
        s2.active(),
        s2.available(),
    );
}

/// A peer that stops choking the client, and the blocks handed out to it,
/// keep the blocks in flight apart.
pub proof fn lemma_unchoked_keeps(s0: Scheduler, s2: Scheduler, addr: u64, r: Seq<Block>)
    requires
        s0.wf(),
        s0.flights_ok(),
        s0.unchoked_to(s2, addr, r),
    ensures
        s2.flights_ok(),
{
    s0.lemma_parts();
    lemma_view(s0.peers());
    lemma_view(s2.peers());
    let fv0 = flight_view(s0.peers());
    let fv2 = flight_view(s2.peers());
    let known = s0.peers().contains_key(addr);
    if known && !s0.peers()[addr].choking {
        assert(s2.peers().dom() =~= s0.peers().dom());
        assert(fv2 =~= fv0) by {
            assert forall|a: u64| #[trigger] fv2.contains_key(a) implies fv2[a] == fv0[a] by {
                if a != addr {
                    assert(s2.peers()[a] == s0.peers()[a]);
                }
            }
        }
        return;
    }
    let held = if known { s0.peers()[addr].assigned_blocks@ } else { Seq::empty() };
    if known {
        assert(fv0.contains_key(addr) && fv0[addr].0);
        assert(held.to_set() == fv0[addr].1);
    } else {
        lemma_nothing_in_set(held);
    }
    let fvm = fv0.insert(addr, (false, held.to_set()));
    lemma_fewer_keeps(s0.sizes().block_size, fv0, fvm, s0.orphans(), s0.available(), s0.active());
    assert(fv2.dom() =~= fvm.dom());
    assert forall|a: u64| a != addr && fvm.contains_key(a) implies #[trigger] fv2[a] == fvm[a] by {
        assert(s2.peers()[a] == s0.peers()[a]);
    }
    lemma_handout_keeps(
        s0.sizes(),
        fvm,
        fv2,
        s0.orphans(),
        s0.available(),
        s0.active(),
        addr,
        (s0.max_requests() - held.len()) as nat,
        r,
        s2.active(),
        s2.available(),
    );
}

/// Recording that a peer has a piece keeps the blocks in flight apart.
pub proof fn lemma_registered_keeps(
    s0: Scheduler,
    fv: Map<u64, (bool, Set<Block>)>,
    addr: u64,
    piece: usize,
    orphans1: Set<nat>,
    avail1: Map<usize, AvailablePiece>,
    act1: Seq<ActivePiece>,
)
    requires
        s0.wf(),
        flights_apart(s0.sizes().block_size, fv, s0.orphans(), s0.available(), s0.active()),
        s0.orphans().contains(piece as nat) || s0.available().contains_key(piece) || s0.is_active(piece),
        s0.registered(addr, piece, orphans1, avail1, act1),
    ensures
        flights_apart(s0.sizes().block_size, fv, orphans1, avail1, act1),
        unique_indices(act1),
        avail1.dom().finite(),
        forall|k: usize| #[trigger] avail1.contains_key(k) ==> avail1[k].index == k,
{
    s0.lemma_parts();
    let act0 = s0.active();
    let avail0 = s0.available();
    let orphans0 = s0.orphans();
    if orphans0.contains(piece as nat) {
        assert forall|j: int|
            0 <= j < act1.len() && avail1.contains_key((#[trigger] act1[j]).index) implies act1[j].peers_with_piece@.len()
            == 0 by {
            if act1[j].index != piece {
                assert(avail0.contains_key(act1[j].index));
            }
        }
        assert forall|j: int|
            0 <= j < act1.len() && orphans1.contains((#[trigger] act1[j]).index as nat) implies act1[j].peers_with_piece@.len()
            == 0 by {
            assert(orphans0.contains(act1[j].index as nat));
        }
        assert forall|k: usize|
            #[trigger] avail1.contains_key(k) && orphans1.contains(k as nat) implies avail1[k].peers_with_piece@.len() == 0 by {
            assert(k != piece);
            assert(avail0.contains_key(k));
        }
    } else if avail0.contains_key(piece) {
        assert(avail1.dom() =~= avail0.dom());
        assert forall|j: int|
            0 <= j < act1.len() && avail1.contains_key((#[trigger] act1[j]).index) implies act1[j].peers_with_piece@.len()
            == 0 by {
            assert(avail0.contains_key(act1[j].index));
        }
        assert forall|k: usize|
            #[trigger] avail1.contains_key(k) && orphans1.contains(k as nat) implies avail1[k].peers_with_piece@.len() == 0 by {
            assert(k != piece);
        }
    } else {
        let i = s0.active_pieces().position(piece);
        assert(act0[i].index == piece);
        assert forall|j: int| 0 <= j < act1.len() implies piece_ok(#[trigger] act1[j]) && act1[j].index == act0[j].index
            && (forall|b: Block| out_of(act0[j], b) ==> out_of(act1[j], b)) && (forall|a: u64|
            act0[j].peers_with_piece@.contains(a) ==> act1[j].peers_with_piece@.contains(a)) by {
            if j != i {
                assert(act1[j] == act0[j]);
            } else {
                assert(piece_ok(act0[j]));
                assert forall|a: u64| act0[j].peers_with_piece@.contains(a) implies act1[j].peers_with_piece@.contains(a) by {
                    crate::scheduler::lemma_contains_push(act0[j].peers_with_piece@, addr, a);
                }
            }
        }
        assert forall|a: u64, b: Block| #[trigger] holds(fv, a, b) implies has_index(act1, b.piece) by {
            let j = choose|j: int| 0 <= j < act0.len() && (#[trigger] act0[j]).index == b.piece;
            assert(act1[j].index == b.piece);
        }
        assert forall|a: u64, b: Block, j: int|
            #![trigger holds(fv, a, b), act1[j]]
            holds(fv, a, b) && 0 <= j < act1.len() && act1[j].index == b.piece implies act1[j].peers_with_piece@.contains(a)
                && out_of(act1[j], b) by {
            assert(act0[j].index == b.piece);
        }
        assert forall|j: int|
            0 <= j < act1.len() && avail1.contains_key((#[trigger] act1[j]).index) implies act1[j].peers_with_piece@.len()
            == 0 by {
            assert(act0[j].index == act1[j].index);
            assert(j != i);
            assert(act1[j] == act0[j]);
        }
        assert forall|j: int|
            0 <= j < act1.len() && orphans1.contains((#[trigger] act1[j]).index as nat) implies act1[j].peers_with_piece@.len()
            == 0 by {
            assert(act0[j].index == act1[j].index);
            assert(j != i);
            assert(act1[j] == act0[j]);
        }
        assert(unique_indices(act1)) by {
            assert forall|x: int, y: int| 0 <= x < act1.len() && 0 <= y < act1.len() && x != y implies act1[x].index
                != act1[y].index by {
                assert(act1[x].index == act0[x].index);
                assert(act1[y].index == act0[y].index);
            }
        }
    }
}

/// A peer announcing a piece, and the blocks handed out to it then, keep
/// the blocks in flight apart.
pub proof fn lemma_announced_keeps(s0: Scheduler, s2: Scheduler, addr: u64, piece: usize, r: PeerPieceResponse)
    requires
        s0.wf(),
        s0.flights_ok(),
        s0.announced_to(s2, addr, piece, r),
    ensures
        s2.flights_ok(),
{
    s0.lemma_parts();
    lemma_view(s0.peers());
    lemma_view(s2.peers());
    let fv0 = flight_view(s0.peers());
    let fv2 = flight_view(s2.peers());
    if !(s0.orphans().contains(piece as nat) || s0.available().contains_key(piece) || s0.is_active(piece)) {
        return;
    }
    let known = s0.peers().contains_key(addr);
    let choking = !known || s0.peers()[addr].choking;
    let held = if known { s0.peers()[addr].assigned_blocks@ } else { Seq::empty() };
    if !known {
        lemma_nothing_in_set(held);
    }
    let fvm = fv0.insert(addr, (choking, held.to_set()));
    lemma_fewer_keeps(s0.sizes().block_size, fv0, fvm, s0.orphans(), s0.available(), s0.active());
    let (avail1, act1) = choose|avail1: Map<usize, AvailablePiece>, act1: Seq<ActivePiece>|
        #[trigger] s0.registered(addr, piece, s2.orphans(), avail1, act1) && if choking {
            &&& r == if !known || piece_set_elements(s0.peers()[addr].has_pieces) == Set::<nat>::empty() {
                PeerPieceResponse::ExpressInterest
            } else {
                PeerPieceResponse::NoAction
            }
            &&& s2.available() == avail1
            &&& s2.active() == act1
            &&& s2.peers()[addr].assigned_blocks@ =~= held
        } else {
            let blocks = match r {
                PeerPieceResponse::ExpressInterestAndRequest(b) => b@,
                PeerPieceResponse::RequestBlocks(b) => b@,
                _ => Seq::empty(),
            };
            &&& if !known || piece_set_elements(s0.peers()[addr].has_pieces) == Set::<nat>::empty() {
                r is ExpressInterestAndRequest
            } else {
                r is RequestBlocks
            }
            &&& s2.peers()[addr].assigned_blocks@.to_set() =~= held.to_set() + blocks.to_set()
            &&& handed_out(
                act1,
                avail1,
                s0.sizes(),
                addr,
                (s0.max_requests() - held.len()) as nat,
                blocks,
                s2.active(),
                s2.available(),
            )
        };
    lemma_registered_keeps(s0, fvm, addr, piece, s2.orphans(), avail1, act1);
    assert(fv2.dom() =~= fvm.dom());
    assert forall|a: u64| a != addr && fvm.contains_key(a) implies #[trigger] fv2[a] == fvm[a] by {
        assert(s2.peers()[a] == s0.peers()[a]);
    }
    if choking {
        assert(fv2 =~= fvm);
    } else {
        let blocks = match r {
            PeerPieceResponse::ExpressInterestAndRequest(b) => b@,
            PeerPieceResponse::RequestBlocks(b) => b@,
            _ => Seq::empty(),
        };
        lemma_handout_keeps(
            s0.sizes(),
            fvm,
            fv2,
            s2.orphans(),
            avail1,
            act1,
            addr,
            (s0.max_requests() - held.len()) as nat,
            blocks,
            s2.active(),
            s2.available(),
        );
    }
}

/// Taking a piece out of the pieces being downloaded, when no block of it
/// is in flight, keeps the others as they stand.
pub proof fn lemma_remove_piece(s0: Scheduler, piece: usize)
    requires
        s0.wf(),
        s0.flights_ok(),
        s0.is_active(piece),
        s0.none_in_flight(piece),
    ensures
        ({
            let act2 = s0.active().remove(s0.active_pieces().position(piece));
            &&& unique_indices(act2)
            &&& forall|j: int| 0 <= j < act2.len() ==> piece_ok(#[trigger] act2[j])
            &&& forall|a: u64, b: Block| #[trigger] holds(flight_view(s0.peers()), a, b) ==> has_index(act2, b.piece)
            &&& forall|a: u64, b: Block, j: int|
                #![trigger holds(flight_view(s0.peers()), a, b), act2[j]]
                holds(flight_view(s0.peers()), a, b) && 0 <= j < act2.len() && act2[j].index == b.piece
                    ==> act2[j].peers_with_piece@.contains(a) && out_of(act2[j], b)
            &&& forall|j: int|
                0 <= j < act2.len() ==> (#[trigger] act2[j]).index != piece && (s0.available().contains_key(
                    act2[j].index,
                ) ==> act2[j].peers_with_piece@.len() == 0) && (s0.orphans().contains(act2[j].index as nat)
                    ==> act2[j].peers_with_piece@.len() == 0)
        }),
{
    s0.lemma_parts();
    let act0 = s0.active();
    let p = s0.active_pieces().position(piece);
    let act2 = act0.remove(p);
    let fv = flight_view(s0.peers());
    assert(act0[p].index == piece);
    assert forall|j: int| 0 <= j < act2.len() implies #[trigger] act2[j] == act0[if j < p { j } else { j + 1 }] by {}
    assert forall|j: int| 0 <= j < act2.len() implies (#[trigger] act2[j]).index != piece && (s0.available().contains_key(
        act2[j].index,
    ) ==> act2[j].peers_with_piece@.len() == 0) && (s0.orphans().contains(act2[j].index as nat)
        ==> act2[j].peers_with_piece@.len() == 0) by {
        let i = if j < p { j } else { j + 1 };
        assert(act2[j] == act0[i]);
        assert(act0[i].index != act0[p].index);
    }
    assert forall|a: u64, b: Block| #[trigger] holds(fv, a, b) implies has_index(act2, b.piece) by {
        let j = choose|j: int| 0 <= j < act0.len() && (#[trigger] act0[j]).index == b.piece;
        assert(b.piece != piece);
        assert(j != p);
        let k = if j < p { j } else { j - 1 };
        assert(act2[k] == act0[j]);
    }
    assert forall|a: u64, b: Block, j: int|
        #![trigger holds(fv, a, b), act2[j]]
        holds(fv, a, b) && 0 <= j < act2.len() && act2[j].index == b.piece implies act2[j].peers_with_piece@.contains(a)
            && out_of(act2[j], b) by {
        let i = if j < p { j } else { j + 1 };
        assert(act2[j] == act0[i]);
    }
    assert forall|j: int| 0 <= j < act2.len() implies piece_ok(#[trigger] act2[j]) by {
        let i = if j < p { j } else { j + 1 };
        assert(act2[j] == act0[i]);
    }
    assert(unique_indices(act2)) by {
        assert forall|x: int, y: int| 0 <= x < act2.len() && 0 <= y < act2.len() && x != y implies act2[x].index
            != act2[y].index by {
            let i = if x < p { x } else { x + 1 };
            let k = if y < p { y } else { y + 1 };
            assert(act2[x] == act0[i]);
            assert(act2[y] == act0[k]);
        }
    }
}

/// A piece completed when no block of it is in flight keeps the blocks in
/// flight apart.
pub proof fn lemma_completed_keeps(s0: Scheduler, s2: Scheduler, piece: usize, r: Seq<u64>)
    requires
        s0.wf(),
        s0.flights_ok(),
        s0.is_active(piece),
        s0.none_in_flight(piece),
        s0.completed_to(s2, piece, r),
    ensures
        s2.flights_ok(),
{
    lemma_view(s0.peers());
    lemma_view(s2.peers());
    let fv0 = flight_view(s0.peers());
    let fv2 = flight_view(s2.peers());
    assert(fv2 =~= fv0) by {
        assert forall|a: u64| #[trigger] fv2.contains_key(a) implies fv2[a] == fv0[a] by {
            assert(s2.peers()[a].choking == s0.peers()[a].choking);
            assert(s2.peers()[a].assigned_blocks == s0.peers()[a].assigned_blocks);
        }
    }
    lemma_remove_piece(s0, piece);
    let act2 = s2.active();
    assert forall|j: int|
        0 <= j < act2.len() && s2.available().contains_key((#[trigger] act2[j]).index) implies act2[j].peers_with_piece@.len()
        == 0 by {
    }
    assert forall|j: int|
        0 <= j < act2.len() && s2.orphans().contains((#[trigger] act2[j]).index as nat) implies act2[j].peers_with_piece@.len()
        == 0 by {
    }
}

/// A piece that failed its check, when no block of it is in flight, keeps
/// the blocks in flight apart.
pub proof fn lemma_invalidated_keeps(s0: Scheduler, s2: Scheduler, piece: usize)
    requires
        s0.wf(),
        s0.flights_ok(),
        s0.is_active(piece),
        s0.none_in_flight(piece),
        s0.invalidated_to(s2, piece),
    ensures
        s2.flights_ok(),
{
    s0.lemma_parts();
    lemma_remove_piece(s0, piece);
    let act0 = s0.active();
    let act2 = s2.active();
    let p = s0.active_pieces().position(piece);
    assert(act0[p].index == piece);
    assert forall|j: int|
        0 <= j < act2.len() && s2.available().contains_key((#[trigger] act2[j]).index) implies act2[j].peers_with_piece@.len()
        == 0 by {
        assert(act2[j].index != piece);
        assert(s0.available().contains_key(act2[j].index));
    }
    assert forall|j: int|
        0 <= j < act2.len() && s2.orphans().contains((#[trigger] act2[j]).index as nat) implies act2[j].peers_with_piece@.len()
        == 0 by {
    }
    assert forall|k: usize|
        #[trigger] s2.available().contains_key(k) && s2.orphans().contains(k as nat) implies s2.available()[k].peers_with_piece@.len()
        == 0 by {
        if k == piece {
            assert(act0[p].peers_with_piece@.len() == 0);
        } else {
            assert(s0.available().contains_key(k));
        }
    }
}

} // verus!
