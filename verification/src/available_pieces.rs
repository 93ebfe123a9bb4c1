use std::collections::HashMap;
use vstd::prelude::*;

verus! {

/// Where a piece stands once a peer that had it has gone.
#[derive(Debug, Clone, Copy, PartialEq, Eq, Structural)]
pub enum PieceState {
    /// No peer has the piece any more.
    Orphan,
    /// Some peer still has the piece, which is not being downloaded.
    Available,
    /// Some peer still has the piece, which is being downloaded.
    Active,
}

/// A piece that some peers have and that is not being downloaded yet.
#[derive(Debug, Clone, PartialEq, Eq)]
pub struct AvailablePiece {
    pub index: usize,
    /// The peers that have the piece, each once.
    pub peers_with_piece: Vec<u64>,
}

/// Whether `(count_a, index_a)` comes before `(count_b, index_b)`: fewer
/// peers first, then the lower index.
pub open spec fn rarer(count_a: nat, index_a: nat, count_b: nat, index_b: nat) -> bool {
    count_a < count_b || (count_a == count_b && index_a <= index_b)
}

impl AvailablePiece {
    pub open spec fn wf(&self) -> bool {
        self.peers_with_piece@.no_duplicates()
    }

    /// The set of peers that have the piece.
    pub open spec fn peers(&self) -> Set<u64> {
        self.peers_with_piece@.to_set()
    }

    /// The rarity of the piece, which orders the choice of the next piece.
    pub open spec fn priority_spec(&self) -> (nat, nat) {
        (self.peers_with_piece@.len(), self.index as nat)
    }

    /// A piece that one peer has.
    pub fn new(index: usize, addr: u64) -> (p: Self)
        ensures
            p.index == index,
            p.peers_with_piece@ == seq![addr],
            p.wf(),
    {
        let mut peers_with_piece = Vec::new();
        peers_with_piece.push(addr);
        Self { index, peers_with_piece }
    }

    /// The number of peers that have the piece and its index.
    pub fn priority(&self) -> (r: (usize, usize))
        ensures
            r.0 == self.peers_with_piece@.len(),
            r.1 == self.index,
    {
        (self.peers_with_piece.len(), self.index)
    }
}

/// Removing the element at `i` of a sequence without duplicates removes that
/// value and keeps the others.
pub proof fn lemma_remove_nodup<A>(s: Seq<A>, i: int)
    requires
        s.no_duplicates(),
        0 <= i < s.len(),
    ensures
        s.remove(i).no_duplicates(),
        forall|x: A| s.remove(i).contains(x) <==> (s.contains(x) && x != s[i]),
        s.remove(i).to_set() == s.to_set().remove(s[i]),
{
    let r = s.remove(i);
    s.remove_ensures(i);
    assert forall|x: A| r.contains(x) <==> (s.contains(x) && x != s[i]) by {
        if r.contains(x) {
            let k = r.index_of(x);
            if k < i {
                assert(s[k] == x);
            } else {
                assert(s[k + 1] == x);
            }
        }
        if s.contains(x) && x != s[i] {
            let k = s.index_of(x);
            if k < i {
                assert(r[k] == x);
            } else {
                assert(k != i);
                assert(r[k - 1] == x);
            }
        }
    }
    assert forall|a: int, b: int| 0 <= a < b < r.len() implies r[a] != r[b] by {
        let a2 = if a < i { a } else { a + 1 };
        let b2 = if b < i { b } else { b + 1 };
        assert(r[a] == s[a2]);
        assert(r[b] == s[b2]);
    }
    assert(r.to_set() =~= s.to_set().remove(s[i]));
}

/// Pushing a value that a sequence without duplicates lacks keeps it without
/// duplicates and adds the value.
pub proof fn lemma_push_nodup<A>(s: Seq<A>, a: A)
    requires
        s.no_duplicates(),
        !s.contains(a),
    ensures
        s.push(a).no_duplicates(),
        forall|x: A| s.push(a).contains(x) <==> (s.contains(x) || x == a),
        s.push(a).to_set() == s.to_set().insert(a),
{
    let r = s.push(a);
    assert forall|x: A| r.contains(x) <==> (s.contains(x) || x == a) by {
        if r.contains(x) {
            let k = r.index_of(x);
            if k < s.len() {
                assert(s[k] == x);
            }
        }
        if s.contains(x) {
            let k = s.index_of(x);
            assert(r[k] == x);
        }
        if x == a {
            assert(r[s.len() as int] == x);
        }
    }
    assert(r.to_set() =~= s.to_set().insert(a));
}

/// Removes a value from a sequence that holds it once.
pub(crate) fn remove_peer(peers: &mut Vec<u64>, addr: u64) -> (r: bool)
    requires
        old(peers)@.no_duplicates(),
    ensures
        r == old(peers)@.contains(addr),
        final(peers)@.no_duplicates(),
        final(peers)@.to_set() == old(peers)@.to_set().remove(addr),
        forall|x: u64| final(peers)@.contains(x) <==> (old(peers)@.contains(x) && x != addr),
        final(peers)@.len() == if r { old(peers)@.len() - 1 } else { old(peers)@.len() as int },
{
    let mut i: usize = 0;
    while i < peers.len()
        invariant
            i <= peers@.len(),
            peers@ == old(peers)@,
            peers@.no_duplicates(),
            forall|j: int| 0 <= j < i ==> peers@[j] != addr,
        decreases peers@.len() - i,
    {
        if peers[i] == addr {
            proof {
                lemma_remove_nodup(peers@, i as int);
            }
            peers.remove(i);
            return true;
        }
        i += 1;
    }
    proof {
        assert(!peers@.contains(addr));
        assert(peers@.to_set() =~= peers@.to_set().remove(addr));
    }
    false
}

/// Adds a value to a sequence that holds each value once, unless it is there.
pub(crate) fn add_peer(peers: &mut Vec<u64>, addr: u64)
    requires
        old(peers)@.no_duplicates(),
    ensures
        final(peers)@ == if old(peers)@.contains(addr) { old(peers)@ } else { old(peers)@.push(addr) },
        final(peers)@.no_duplicates(),
        final(peers)@.to_set() == old(peers)@.to_set().insert(addr),
        forall|x: u64| final(peers)@.contains(x) <==> (old(peers)@.contains(x) || x == addr),
{
    let mut i: usize = 0;
    while i < peers.len()
        invariant
            i <= peers@.len(),
            peers@ == old(peers)@,
            peers@.no_duplicates(),
            forall|j: int| 0 <= j < i ==> peers@[j] != addr,
        decreases peers@.len() - i,
    {
        if peers[i] == addr {
            assert(peers@.contains(addr));
            assert(peers@.to_set() =~= peers@.to_set().insert(addr));
            return;
        }
        i += 1;
    }
    proof {
        lemma_push_nodup(peers@, addr);
    }
    peers.push(addr);
}

/// Whether a sequence holds a value, by a scan.
pub(crate) fn has_peer(peers: &Vec<u64>, addr: u64) -> (r: bool)
    ensures
        r == peers@.contains(addr),
{
    let mut i: usize = 0;
    while i < peers.len()
        invariant
            i <= peers@.len(),
            forall|j: int| 0 <= j < i ==> peers@[j] != addr,
        decreases peers@.len() - i,
    {
        if peers[i] == addr {
            return true;
        }
        i += 1;
    }
    false
}

/// The pieces that peers have and that are not being downloaded, chosen
/// rarest first.
pub struct AvailablePieces {
    pieces: HashMap<usize, AvailablePiece>,
}

/// Whether `p` is the piece that goes next to `addr` among `pieces`: one that
/// `addr` has, with the fewest peers, the lowest index among those.
pub open spec fn next_for(pieces: Map<usize, AvailablePiece>, addr: u64, p: AvailablePiece) -> bool {
    &&& pieces.contains_key(p.index)
    &&& pieces[p.index] == p
    &&& p.peers_with_piece@.contains(addr)
    &&& forall|k: usize|
        #[trigger] pieces.contains_key(k) && pieces[k].peers_with_piece@.contains(addr) ==> rarer(
            p.peers_with_piece@.len(),
            p.index as nat,
            pieces[k].peers_with_piece@.len(),
            k as nat,
        )
}

/// Whether some piece among `pieces` is one that `addr` has.
pub open spec fn any_for(pieces: Map<usize, AvailablePiece>, addr: u64) -> bool {
    exists|k: usize| #[trigger] pieces.contains_key(k) && pieces[k].peers_with_piece@.contains(addr)
}

/// The piece that goes next to `addr` among `pieces`.
pub open spec fn next_piece(pieces: Map<usize, AvailablePiece>, addr: u64) -> AvailablePiece {
    choose|p: AvailablePiece| next_for(pieces, addr, p)
}

/// At most one piece goes next.
pub proof fn lemma_next_for_unique(pieces: Map<usize, AvailablePiece>, addr: u64, p: AvailablePiece, q: AvailablePiece)
    requires
        next_for(pieces, addr, p),
        next_for(pieces, addr, q),
    ensures
        p == q,
{
    assert(pieces.contains_key(q.index) && pieces[q.index].peers_with_piece@.contains(addr));
    assert(pieces.contains_key(p.index) && pieces[p.index].peers_with_piece@.contains(addr));
}

/// Among finitely many pieces, some that `addr` has, one goes next.
pub proof fn lemma_next_for_exists(pieces: Map<usize, AvailablePiece>, addr: u64)
    requires
        pieces.dom().finite(),
        any_for(pieces, addr),
        forall|k: usize| #[trigger] pieces.contains_key(k) ==> pieces[k].index == k,
    ensures
        next_for(pieces, addr, next_piece(pieces, addr)),
    decreases pieces.dom().len(),
{
    let k = choose|k: usize| #[trigger] pieces.contains_key(k) && pieces[k].peers_with_piece@.contains(addr);
    let rest = pieces.remove(k);
    let pk = pieces[k];
    if any_for(rest, addr) {
        lemma_next_for_exists(rest, addr);
        let q = next_piece(rest, addr);
        let best = if rarer(
            pk.peers_with_piece@.len(),
            k as nat,
            q.peers_with_piece@.len(),
            q.index as nat,
        ) {
            pk
        } else {
            q
        };
        assert forall|j: usize|
            #[trigger] pieces.contains_key(j) && pieces[j].peers_with_piece@.contains(addr) implies rarer(
            best.peers_with_piece@.len(),
            best.index as nat,
            pieces[j].peers_with_piece@.len(),
            j as nat,
        ) by {
            if j != k {
                assert(rest.contains_key(j));
            }
        }
        assert(next_for(pieces, addr, best));
    } else {
        assert forall|j: usize|
            #[trigger] pieces.contains_key(j) && pieces[j].peers_with_piece@.contains(addr) implies rarer(
            pk.peers_with_piece@.len(),
            pk.index as nat,
            pieces[j].peers_with_piece@.len(),
            j as nat,
        ) by {
            if j != k {
                assert(rest.contains_key(j) && rest[j].peers_with_piece@.contains(addr));
            }
        }
        assert(next_for(pieces, addr, pk));
    }
}

impl AvailablePieces {
    /// The pieces by index.
    pub closed spec fn view(&self) -> Map<usize, AvailablePiece> {
        self.pieces@
    }

    /// Each piece is held under its index, with each peer once.
    pub open spec fn wf(&self) -> bool {
        &&& self@.dom().finite()
        &&& forall|k: usize| #[trigger] self@.contains_key(k) ==> self@[k].index == k && self@[k].wf()
    }

    pub fn new() -> (s: Self)
        ensures
            s@ == Map::<usize, AvailablePiece>::empty(),
            s.wf(),
    {
        Self { pieces: HashMap::new() }
    }

    /// Holds a piece, in place of any held under its index.
    pub fn insert(&mut self, piece: AvailablePiece)
        requires
            old(self).wf(),
            piece.wf(),
        ensures
            final(self)@ == old(self)@.insert(piece.index, piece),
            final(self).wf(),
    {
        broadcast use vstd::std_specs::hash::group_hash_axioms;
        let ghost p = piece;
        self.pieces.insert(piece.index, piece);
        assert(self.pieces@ == old(self).pieces@.insert(p.index, p));
        assert forall|k: usize| #[trigger] self@.contains_key(k) implies self@[k].index == k && self@[k].wf() by {
            if k != p.index {
                assert(old(self)@.contains_key(k));
            }
        }
    }

    /// Whether a piece is held.
    pub fn contains(&self, piece: usize) -> (r: bool)
        ensures
            r == self@.contains_key(piece),
    {
        broadcast use vstd::std_specs::hash::group_hash_axioms;
        self.pieces.contains_key(&piece)
    }

    /// Whether a peer is among those that have a held piece.
    pub fn piece_has_peer(&self, index: usize, addr: u64) -> (r: bool)
        requires
            self@.contains_key(index),
        ensures
            r == self@[index].peers_with_piece@.contains(addr),
    {
        broadcast use vstd::std_specs::hash::group_hash_axioms;
        let piece = self.pieces.get(&index).unwrap();
        has_peer(&piece.peers_with_piece, addr)
    }

    /// Records that a peer has a held piece.
    pub fn peer_has_piece(&mut self, index: usize, addr: u64)
        requires
            old(self).wf(),
            old(self)@.contains_key(index),
        ensures
            final(self).wf(),
            final(self)@.dom() == old(self)@.dom(),
            forall|k: usize| k != index && old(self)@.contains_key(k) ==> final(self)@[k] == old(self)@[k],
            final(self)@[index].peers_with_piece@ == if old(self)@[index].peers_with_piece@.contains(addr) {
                old(self)@[index].peers_with_piece@
            } else {
                old(self)@[index].peers_with_piece@.push(addr)
            },
    {
        broadcast use vstd::std_specs::hash::group_hash_axioms;
        let mut piece = self.pieces.remove(&index).unwrap();
        add_peer(&mut piece.peers_with_piece, addr);
        self.pieces.insert(index, piece);
        assert(self@.dom() =~= old(self)@.dom());
    }

    /// Records that a peer that had a held piece has gone: the piece is an
    /// orphan, and no longer held, when no peer has it any more.
    pub fn peer_disconnected(&mut self, index: usize, addr: u64) -> (r: PieceState)
        requires
            old(self).wf(),
            old(self)@.contains_key(index),
            old(self)@[index].peers_with_piece@.contains(addr),
        ensures
            final(self).wf(),
            forall|k: usize| k != index ==> (final(self)@.contains_key(k) <==> old(self)@.contains_key(k)),
            forall|k: usize| k != index && old(self)@.contains_key(k) ==> final(self)@[k] == old(self)@[k],
            ({
                let peers = old(self)@[index].peers();
                if peers.remove(addr).is_empty() {
                    r == PieceState::Orphan && !final(self)@.contains_key(index)
                } else {
                    &&& r == PieceState::Available
                    &&& final(self)@.contains_key(index)
                    &&& final(self)@[index].peers() == peers.remove(addr)
                    &&& final(self)@[index].peers_with_piece@.len() == old(self)@[index].peers_with_piece@.len() - 1
                }
            }),
    {
        broadcast use vstd::std_specs::hash::group_hash_axioms;
        let mut piece = self.pieces.remove(&index).unwrap();
        let ghost before = piece.peers_with_piece@;
        let ghost peers = old(self)@[index].peers();
        assert(before.to_set() == peers);
        remove_peer(&mut piece.peers_with_piece, addr);
        assert(piece.peers_with_piece@.to_set() == peers.remove(addr));
        assert forall|k: usize| #[trigger] self@.contains_key(k) implies self@[k].index == k && self@[k].wf() by {
            assert(old(self)@.contains_key(k));
        }
        if piece.peers_with_piece.len() == 0 {
            assert(piece.peers_with_piece@.to_set() =~= Set::<u64>::empty());
            PieceState::Orphan
        } else {
            let ghost p = piece;
            assert(piece.peers_with_piece@.to_set().contains(piece.peers_with_piece@[0]));
            assert(!peers.remove(addr).is_empty());
            self.pieces.insert(index, piece);
            assert(self@[index] == p);
            assert forall|k: usize| #[trigger] self@.contains_key(k) implies self@[k].index == k && self@[k].wf() by {
                if k != index {
                    assert(old(self)@.contains_key(k));
                }
            }
            PieceState::Available
        }
    }

    /// Takes the piece to download next from `addr`: of the pieces that
    /// `addr` has, the one with the fewest peers, the lowest index among
    /// those; none where `addr` has none of them.
    pub fn take_next(&mut self, addr: u64) -> (r: Option<AvailablePiece>)
        requires
            old(self).wf(),
        ensures
            final(self).wf(),
            r is None <==> !any_for(old(self)@, addr),
            r is None ==> final(self)@ == old(self)@,
            r matches Some(p) ==> next_for(old(self)@, addr, p) && final(self)@ == old(self)@.remove(p.index),
    {
        broadcast use vstd::std_specs::hash::group_hash_axioms;
        let mut best: Option<(usize, usize)> = None;
        let ghost m = self.pieces@;
        let ghost mut seen: Set<usize> = Set::empty();
        for entry in it: self.pieces.iter()
            invariant
                m == self.pieces@,
                forall|i: int|
                    0 <= i < it.seq().len() ==> m.contains_key(*(#[trigger] it.seq()[i]).0) && m[*it.seq()[i].0]
                        == *it.seq()[i].1,
                forall|k: usize| #[trigger] m.contains_key(k) ==> it.seq().contains((&k, &m[k])),
                forall|j: int| 0 <= j < it.index() ==> seen.contains(*(#[trigger] it.seq()[j]).0),
                it.index() == it.seq().len() ==> forall|k: usize| #[trigger] m.contains_key(k) ==> seen.contains(k),
                forall|k: usize|
                    #[trigger] seen.contains(k) ==> m.contains_key(k) && (m[k].peers_with_piece@.contains(addr) ==> (
                        best matches Some(b) && rarer(b.0 as nat, b.1 as nat, m[k].peers_with_piece@.len(), k as nat))),
                best matches Some(b) ==> m.contains_key(b.1) && m[b.1].peers_with_piece@.contains(addr)
                    && m[b.1].peers_with_piece@.len() == b.0,
        {
            let (index, piece) = entry;
            proof {
                seen = seen.insert(*index);
            }
            if has_peer(&piece.peers_with_piece, addr) {
                let count = piece.peers_with_piece.len();
                let better = match best {
                    None => true,
                    Some((best_count, best_index)) => count < best_count || (count == best_count
                        && *index < best_index),
                };
                if better {
                    best = Some((count, *index));
                }
            }
            assert forall|k: usize|
                it.index() == it.seq().len() && #[trigger] m.contains_key(k) implies seen.contains(k) by {
                assert(it.seq().contains((&k, &m[k])));
                let j = it.seq().index_of((&k, &m[k]));
                assert(*it.seq()[j].0 == k);
            }
        }
        match best {
            Some((_, index)) => {
                let piece = self.pieces.remove(&index).unwrap();
                assert forall|k: usize| #[trigger] self@.contains_key(k) implies self@[k].index == k && self@[k].wf() by {
                    assert(old(self)@.contains_key(k));
                }
                Some(piece)
            },
            None => None,
        }
    }
}

} // verus!
