use std::collections::HashMap;

use rand::seq::IteratorRandom;

use crate::available_pieces::{add_peer, has_peer, lemma_push_nodup, remove_peer};
use crate::stats::{lemma_rate_not_lt_transitive, rate_lt, TransferRate};
use vstd::prelude::*;

verus! {

/// The number of peers unchoked for their transfer rate.
pub const TOP_PEERS: usize = 3;

/// Calls `IteratorRandom::choose` with the thread's random generator on the
/// peers, which picks one of them at random, or none when there are none.
#[verifier::external_body]
fn choose_peer(peers: &Vec<u64>) -> (r: Option<u64>)
    ensures
        r is None <==> peers@.len() == 0,
        r matches Some(p) ==> peers@.contains(p),
{
    peers.iter().choose(&mut rand::rng()).copied()
}

/// The rate recorded for a peer, or no bytes over no time.
pub open spec fn rate_of(rates: Map<u64, TransferRate>, addr: u64) -> TransferRate {
    if rates.contains_key(addr) {
        rates[addr]
    } else {
        TransferRate(0, 0)
    }
}

/// Whether `top` are the fastest peers of `peers` by their rates: as many as
/// `TOP_PEERS`, or all where there are fewer, none of the others faster than
/// one of them.
pub open spec fn is_top(top: Seq<u64>, peers: Seq<u64>, rates: Map<u64, TransferRate>) -> bool {
    &&& top.no_duplicates()
    &&& forall|p: u64| top.contains(p) ==> peers.contains(p)
    &&& top.len() == if peers.len() < TOP_PEERS { peers.len() } else { TOP_PEERS as nat }
    &&& forall|t: u64, u: u64|
        top.contains(t) && peers.contains(u) && !top.contains(u) ==> !rate_lt(
            rate_of(rates, t),
            rate_of(rates, u),
        )
}

/// A sequence without duplicates that holds only elements of another one
/// of the same length holds all of them.
proof fn lemma_same_len_subset(a: Seq<u64>, b: Seq<u64>)
    requires
        a.no_duplicates(),
        b.no_duplicates(),
        forall|x: u64| a.contains(x) ==> b.contains(x),
        a.len() == b.len(),
    ensures
        forall|x: u64| b.contains(x) ==> a.contains(x),
{
    a.unique_seq_to_set();
    b.unique_seq_to_set();
    vstd::seq_lib::seq_to_set_is_finite(a);
    vstd::seq_lib::seq_to_set_is_finite(b);
    assert(a.to_set().subset_of(b.to_set()));
    vstd::set_lib::lemma_subset_equality(a.to_set(), b.to_set());
    assert forall|x: u64| b.contains(x) implies a.contains(x) by {
        assert(b.to_set().contains(x));
    }
}

/// Whether `c1` is `c0` once it ran, deciding `d`: the fastest interested
/// peers (see `is_top`) are unchoked, and on every `cycle`-th run one more
/// interested peer; the decision chokes the peers no longer unchoked and
/// unchokes the new ones.
pub open spec fn choker_ran(c0: Choker, c1: Choker, d: ChokeDecision) -> bool {
    &&& c1.interested() == c0.interested()
    &&& c1.rates() == c0.rates()
    &&& c1.cycle() == c0.cycle()
    &&& c1.ticks() == c0.ticks() + 1
    &&& d.peers_to_choke@.no_duplicates()
    &&& d.peers_to_unchoke@.no_duplicates()
    &&& exists|top: Seq<u64>|
        #[trigger] is_top(top, c0.interested(), c0.rates()) && {
            let optimistic = c1.ticks() % c1.cycle() == 0 && exists|p: u64|
                c0.interested().contains(p) && !top.contains(p);
            let unchoked = c1.unchoked().to_set();
            &&& !optimistic ==> unchoked == top.to_set()
            &&& optimistic ==> exists|p: u64|
                c0.interested().contains(p) && !top.contains(p) && unchoked == top.to_set().insert(p)
            &&& d.peers_to_choke@.to_set() == c0.unchoked().to_set().difference(unchoked)
            &&& d.peers_to_unchoke@.to_set() == unchoked.difference(c0.unchoked().to_set())
        }
}

/// After a run, only interested peers are unchoked, at most `TOP_PEERS`
/// of them for their rate and one more at random; no peer is both choked
/// and unchoked.
pub proof fn lemma_run_bounds(c0: Choker, c1: Choker, d: ChokeDecision)
    requires
        choker_ran(c0, c1, d),
    ensures
        forall|p: u64| c1.unchoked().contains(p) ==> c0.interested().contains(p),
        c1.unchoked().to_set().len() <= TOP_PEERS + 1,
        d.peers_to_choke@.to_set().disjoint(d.peers_to_unchoke@.to_set()),
{
    let top = choose|top: Seq<u64>| #[trigger] is_top(top, c0.interested(), c0.rates()) && {
        let optimistic = c1.ticks() % c1.cycle() == 0 && exists|p: u64|
            c0.interested().contains(p) && !top.contains(p);
        let unchoked = c1.unchoked().to_set();
        &&& !optimistic ==> unchoked == top.to_set()
        &&& optimistic ==> exists|p: u64|
            c0.interested().contains(p) && !top.contains(p) && unchoked == top.to_set().insert(p)
        &&& d.peers_to_choke@.to_set() == c0.unchoked().to_set().difference(unchoked)
        &&& d.peers_to_unchoke@.to_set() == unchoked.difference(c0.unchoked().to_set())
    };
    let unchoked = c1.unchoked().to_set();
    top.unique_seq_to_set();
    vstd::seq_lib::seq_to_set_is_finite(top);
    assert forall|p: u64| c1.unchoked().contains(p) implies c0.interested().contains(p) by {
        assert(unchoked.contains(p));
        if top.to_set().contains(p) {
            assert(top.contains(p));
        }
    }
    let optimistic = c1.ticks() % c1.cycle() == 0 && exists|p: u64|
        c0.interested().contains(p) && !top.contains(p);
    if optimistic {
        let p = choose|p: u64| c0.interested().contains(p) && !top.contains(p) && unchoked == top.to_set().insert(p);
        assert(!top.to_set().contains(p));
        assert(unchoked.len() == top.to_set().len() + 1);
    }
    assert(d.peers_to_choke@.to_set().disjoint(d.peers_to_unchoke@.to_set()));
}

/// Which peers to choke and which to unchoke.
#[derive(Debug)]
pub struct ChokeDecision {
    pub peers_to_choke: Vec<u64>,
    pub peers_to_unchoke: Vec<u64>,
}

/// Decides which interested peers the client uploads to: the fastest few,
/// and now and then one more at random.
pub struct Choker {
    interested_peers: Vec<u64>,
    unchoked_peers: Vec<u64>,
    transfer_rates: HashMap<u64, TransferRate>,
    optimistic_choking_cycle: usize,
    tick: usize,
}

impl Choker {
    /// The peers interested in the client's pieces, each once.
    pub closed spec fn interested(&self) -> Seq<u64> {
        self.interested_peers@
    }

    /// The peers the client uploads to, each once.
    pub closed spec fn unchoked(&self) -> Seq<u64> {
        self.unchoked_peers@
    }

    /// The download rates recorded for peers.
    pub closed spec fn rates(&self) -> Map<u64, TransferRate> {
        self.transfer_rates@
    }

    /// Every how many runs one more peer is unchoked at random.
    pub closed spec fn cycle(&self) -> usize {
        self.optimistic_choking_cycle
    }

    /// The number of runs so far.
    pub closed spec fn ticks(&self) -> usize {
        self.tick
    }

    pub open spec fn wf(&self) -> bool {
        self.interested().no_duplicates() && self.unchoked().no_duplicates()
    }

    pub fn new(optimistic_choking_cycle: usize) -> (c: Self)
        ensures
            c.wf(),
            c.interested() == Seq::<u64>::empty(),
            c.unchoked() == Seq::<u64>::empty(),
            c.rates() == Map::<u64, TransferRate>::empty(),
            c.cycle() == optimistic_choking_cycle,
            c.ticks() == 0,
    {
        broadcast use vstd::std_specs::hash::group_hash_axioms;
        Self {
            interested_peers: Vec::new(),
            unchoked_peers: Vec::new(),
            transfer_rates: HashMap::new(),
            optimistic_choking_cycle,
            tick: 0,
        }
    }

    /// The peer is interested in the client's pieces.
    pub fn peer_interested(&mut self, addr: u64)
        requires
            old(self).wf(),
        ensures
            final(self).wf(),
            final(self).interested().to_set() == old(self).interested().to_set().insert(addr),
            final(self).unchoked() == old(self).unchoked(),
            final(self).rates() == old(self).rates(),
            final(self).cycle() == old(self).cycle(),
            final(self).ticks() == old(self).ticks(),
    {
        add_peer(&mut self.interested_peers, addr);
    }

    /// The peer is no longer interested in the client's pieces.
    pub fn peer_not_interested(&mut self, addr: u64)
        requires
            old(self).wf(),
        ensures
            final(self).wf(),
            final(self).interested().to_set() == old(self).interested().to_set().remove(addr),
            final(self).unchoked() == old(self).unchoked(),
            final(self).rates() == old(self).rates(),
            final(self).cycle() == old(self).cycle(),
            final(self).ticks() == old(self).ticks(),
    {
        remove_peer(&mut self.interested_peers, addr);
    }

    /// Adds to the download rate recorded for a peer.
    pub fn update_peer_transfer_rate(&mut self, addr: u64, transfer_rate: TransferRate)
        requires
            rate_of(old(self).rates(), addr).0 + transfer_rate.0 <= u64::MAX,
            rate_of(old(self).rates(), addr).1 + transfer_rate.1 <= u64::MAX,
        ensures
            final(self).rates() == old(self).rates().insert(
                addr,
                TransferRate(
                    (rate_of(old(self).rates(), addr).0 + transfer_rate.0) as u64,
                    (rate_of(old(self).rates(), addr).1 + transfer_rate.1) as u64,
                ),
            ),
            final(self).interested() == old(self).interested(),
            final(self).unchoked() == old(self).unchoked(),
            final(self).cycle() == old(self).cycle(),
            final(self).ticks() == old(self).ticks(),
    {
        broadcast use vstd::std_specs::hash::group_hash_axioms;
        let mut rate = match self.transfer_rates.get(&addr) {
            Some(r) => *r,
            None => TransferRate::empty(),
        };
        rate.add_assign(transfer_rate);
        self.transfer_rates.insert(addr, rate);
    }

    /// The peer disconnected: it is forgotten.
    pub fn peer_disconnected(&mut self, addr: u64)
        requires
            old(self).wf(),
        ensures
            final(self).wf(),
            final(self).interested().to_set() == old(self).interested().to_set().remove(addr),
            final(self).unchoked().to_set() == old(self).unchoked().to_set().remove(addr),
            final(self).rates() == old(self).rates().remove(addr),
            final(self).cycle() == old(self).cycle(),
            final(self).ticks() == old(self).ticks(),
    {
        broadcast use vstd::std_specs::hash::group_hash_axioms;
        remove_peer(&mut self.interested_peers, addr);
        remove_peer(&mut self.unchoked_peers, addr);
        self.transfer_rates.remove(&addr);
    }

    /// Whether the choker can run once more: its count of runs has room
    /// and its cycle is not zero.
    pub(crate) fn can_run(&self) -> (r: bool)
        ensures
            r == (self.ticks() < usize::MAX && self.cycle() > 0),
    {
        self.tick < usize::MAX && self.optimistic_choking_cycle > 0
    }

    /// Whether the client uploads to the peer.
    pub fn is_unchoked(&self, addr: u64) -> (r: bool)
        ensures
            r == self.unchoked().contains(addr),
    {
        has_peer(&self.unchoked_peers, addr)
    }

    /// The rate recorded for a peer.
    pub(crate) fn rate(&self, addr: u64) -> (r: TransferRate)
        ensures
            r == rate_of(self.rates(), addr),
    {
        broadcast use vstd::std_specs::hash::group_hash_axioms;
        match self.transfer_rates.get(&addr) {
            Some(r) => *r,
            None => TransferRate::empty(),
        }
    }

    /// The fastest interested peers, `TOP_PEERS` of them at most.
    fn top_peers_by_transfer_rate(&self) -> (r: Vec<u64>)
        requires
            self.wf(),
        ensures
            is_top(r@, self.interested(), self.rates()),
    {
        let mut top: Vec<u64> = Vec::new();
        let mut i: usize = 0;
        while i < self.interested_peers.len()
            invariant
                i <= self.interested().len(),
                self.wf(),
                is_top(top@, self.interested().take(i as int), self.rates()),
            decreases self.interested().len() - i,
        {
            let peer = self.interested_peers[i];
            let ghost before = top@;
            let ghost ps = self.interested().take(i as int);
            proof {
                assert(self.interested().take(i + 1) =~= ps.push(peer));
                assert(!ps.contains(peer)) by {
                    if ps.contains(peer) {
                        let k = ps.index_of(peer);
                        assert(self.interested()[k] == self.interested()[i as int]);
                    }
                }
                assert(!before.contains(peer));
                lemma_push_nodup(before, peer);
            }
            top.push(peer);
            if top.len() > TOP_PEERS {
                let mut m: usize = 0;
                let mut j: usize = 1;
                while j < top.len()
                    invariant
                        1 <= j <= top@.len(),
                        m < j,
                        forall|k: int| 0 <= k < j ==> !rate_lt(
                            rate_of(self.rates(), top@[k]),
                            rate_of(self.rates(), top@[m as int]),
                        ),
                    decreases top@.len() - j,
                {
                    if self.rate(top[j]).is_slower(&self.rate(top[m])) {
                        proof {
                            assert forall|k: int| 0 <= k < j + 1 implies !rate_lt(
                                rate_of(self.rates(), top@[k]),
                                rate_of(self.rates(), top@[j as int]),
                            ) by {
                                if k < j && rate_lt(rate_of(self.rates(), top@[k]), rate_of(self.rates(), top@[j as int])) {
                                    crate::stats::lemma_rate_lt_transitive(
                                        rate_of(self.rates(), top@[k]),
                                        rate_of(self.rates(), top@[j as int]),
                                        rate_of(self.rates(), top@[m as int]),
                                    );
                                }
                            }
                        }
                        m = j;
                    }
                    j += 1;
                }
                let ghost full = top@;
                let ghost gone = top@[m as int];
                proof {
                    crate::available_pieces::lemma_remove_nodup(full, m as int);
                }
                top.remove(m);
                proof {
                    let ps2 = self.interested().take(i + 1);
                    assert forall|t: u64, u: u64|
                        top@.contains(t) && ps2.contains(u) && !top@.contains(u) implies !rate_lt(
                        rate_of(self.rates(), t),
                        rate_of(self.rates(), u),
                    ) by {
                        crate::scheduler::lemma_contains_push(ps, peer, u);
                        let kt = full.index_of(t);
                        assert(!rate_lt(rate_of(self.rates(), full[kt]), rate_of(self.rates(), gone)));
                        if u == gone {
                        } else {
                            assert(!full.contains(u));
                            assert(ps.contains(u));
                            assert(before.contains(gone) || gone == peer);
                            if gone == peer {
                                assert(before.contains(t));
                            } else {
                                assert(!rate_lt(rate_of(self.rates(), gone), rate_of(self.rates(), u)));
                                lemma_rate_not_lt_transitive(
                                    rate_of(self.rates(), t),
                                    rate_of(self.rates(), gone),
                                    rate_of(self.rates(), u),
                                );
                            }
                        }
                    }
                    assert forall|p: u64| top@.contains(p) implies ps2.contains(p) by {
                        crate::scheduler::lemma_contains_push(ps, peer, p);
                        assert(full.contains(p));
                    }
                }
            } else {
                proof {
                    let ps2 = self.interested().take(i + 1);
                    assert forall|t: u64, u: u64|
                        top@.contains(t) && ps2.contains(u) && !top@.contains(u) implies !rate_lt(
                        rate_of(self.rates(), t),
                        rate_of(self.rates(), u),
                    ) by {
                        crate::scheduler::lemma_contains_push(ps, peer, u);
                        crate::scheduler::lemma_contains_push(before, peer, u);
                        crate::scheduler::lemma_contains_push(before, peer, t);
                        if ps.contains(u) && !before.contains(u) {
                            assert(before.len() == ps.len());
                            assert(ps.no_duplicates()) by {
                                assert forall|a: int, b: int| 0 <= a < b < ps.len() implies ps[a] != ps[b] by {
                                    assert(ps[a] == self.interested()[a]);
                                    assert(ps[b] == self.interested()[b]);
                                }
                            }
                            lemma_same_len_subset(before, ps);
                        }
                    }
                    assert forall|p: u64| top@.contains(p) implies ps2.contains(p) by {
                        crate::scheduler::lemma_contains_push(ps, peer, p);
                        crate::scheduler::lemma_contains_push(before, peer, p);
                    }
                }
            }
            i += 1;
        }
        proof {
            assert(self.interested().take(self.interested().len() as int) =~= self.interested());
        }
        top
    }

    /// An interested peer that is choked, picked at random; none when every
    /// interested peer is unchoked.
    fn random_interested_peer(&self) -> (r: Option<u64>)
        ensures
            r is None <==> forall|p: u64| self.interested().contains(p) ==> self.unchoked().contains(p),
            r matches Some(p) ==> self.interested().contains(p) && !self.unchoked().contains(p),
    {
        let mut remaining: Vec<u64> = Vec::new();
        let mut i: usize = 0;
        while i < self.interested_peers.len()
            invariant
                i <= self.interested().len(),
                forall|p: u64|
                    remaining@.contains(p) <==> self.interested().take(i as int).contains(p)
                        && !self.unchoked().contains(p),
            decreases self.interested().len() - i,
        {
            let peer = self.interested_peers[i];
            let ghost before = remaining@;
            proof {
                assert(self.interested().take(i + 1) =~= self.interested().take(i as int).push(peer));
            }
            if !has_peer(&self.unchoked_peers, peer) {
                remaining.push(peer);
            }
            proof {
                assert forall|p: u64|
                    remaining@.contains(p) <==> self.interested().take(i + 1).contains(p)
                        && !self.unchoked().contains(p) by {
                    crate::scheduler::lemma_contains_push(self.interested().take(i as int), peer, p);
                    crate::scheduler::lemma_contains_push(before, peer, p);
                }
            }
            i += 1;
        }
        proof {
            assert(self.interested().take(self.interested().len() as int) =~= self.interested());
            if remaining@.len() > 0 {
                assert(remaining@.contains(remaining@[0]));
            }
        }
        choose_peer(&remaining)
    }

    /// Decides which peers to choke and unchoke: the fastest interested
    /// peers are unchoked, and every `cycle` runs one more interested peer at
    /// random; the peers unchoked before and not now are choked.
    pub fn run(&mut self) -> (d: ChokeDecision)
        requires
            old(self).wf(),
            old(self).ticks() < usize::MAX,
            old(self).cycle() > 0,
        ensures
            final(self).wf(),
            choker_ran(*old(self), *final(self), d),
    {
        let mut peers_to_choke: Vec<u64> = Vec::new();
        std::mem::swap(&mut peers_to_choke, &mut self.unchoked_peers);
        let mut peers_to_unchoke: Vec<u64> = Vec::new();
        let ghost u0 = peers_to_choke@;
        let top = self.top_peers_by_transfer_rate();
        let mut i: usize = 0;
        proof {
            assert(self.unchoked().to_set() =~= Set::<u64>::empty());
        }
        while i < top.len()
            invariant
                i <= top@.len(),
                top@.no_duplicates(),
                u0 == old(self).unchoked(),
                u0.no_duplicates(),
                self.interested() == old(self).interested(),
                self.rates() == old(self).rates(),
                self.cycle() == old(self).cycle(),
                self.ticks() == old(self).ticks(),
                self.interested().no_duplicates(),
                self.unchoked().no_duplicates(),
                peers_to_choke@.no_duplicates(),
                peers_to_unchoke@.no_duplicates(),
                self.unchoked().to_set() == top@.take(i as int).to_set(),
                peers_to_choke@.to_set() == u0.to_set().difference(top@.take(i as int).to_set()),
                peers_to_unchoke@.to_set() == top@.take(i as int).to_set().difference(u0.to_set()),
            decreases top@.len() - i,
        {
            let peer = top[i];
            let ghost c0 = peers_to_choke@;
            let ghost n0 = peers_to_unchoke@;
            proof {
                assert(top@.take(i + 1) =~= top@.take(i as int).push(peer));
                top@.take(i as int).lemma_push_to_set_commute(peer);
                assert(!top@.take(i as int).contains(peer)) by {
                    if top@.take(i as int).contains(peer) {
                        let k = top@.take(i as int).index_of(peer);
                        assert(top@[k] == top@[i as int]);
                    }
                }
                assert(!top@.take(i as int).to_set().contains(peer));
            }
            add_peer(&mut self.unchoked_peers, peer);
            let was_choked = remove_peer(&mut peers_to_choke, peer);
            if !was_choked {
                add_peer(&mut peers_to_unchoke, peer);
            }
            proof {
                let t1 = top@.take(i + 1).to_set();
                assert(c0.to_set().contains(peer) == u0.to_set().contains(peer));
                assert forall|x: u64| peers_to_choke@.to_set().contains(x) <==> u0.to_set().difference(t1).contains(x) by {
                    assert(c0.to_set().contains(x) == c0.contains(x));
                }
                assert(peers_to_choke@.to_set() =~= u0.to_set().difference(t1));
                assert forall|x: u64| peers_to_unchoke@.to_set().contains(x) <==> t1.difference(u0.to_set()).contains(x) by {
                    assert(n0.to_set().contains(x) == n0.contains(x));
                    assert(c0.to_set().contains(x) == c0.contains(x));
                }
                assert(peers_to_unchoke@.to_set() =~= t1.difference(u0.to_set()));
            }
            i += 1;
        }
        proof {
            assert(top@.take(top@.len() as int) =~= top@);
        }
        self.tick += 1;
        if self.tick % self.optimistic_choking_cycle == 0 {
            let ghost u1 = self.unchoked();
            let ghost c1 = peers_to_choke@;
            let ghost n1 = peers_to_unchoke@;
            if let Some(peer) = self.random_interested_peer() {
                add_peer(&mut self.unchoked_peers, peer);
                if !remove_peer(&mut peers_to_choke, peer) {
                    add_peer(&mut peers_to_unchoke, peer);
                }
                proof {
                    assert(!top@.contains(peer)) by {
                        assert(!u1.to_set().contains(peer));
                    }
                    assert(!top@.to_set().contains(peer));
                    let t1 = top@.to_set().insert(peer);
                    assert(self.unchoked().to_set() == t1);
                    assert(c1.to_set().contains(peer) == u0.to_set().contains(peer));
                    assert forall|x: u64| peers_to_choke@.to_set().contains(x) <==> u0.to_set().difference(t1).contains(x) by {
                        assert(c1.to_set().contains(x) == c1.contains(x));
                    }
                    assert(peers_to_choke@.to_set() =~= u0.to_set().difference(t1));
                    assert forall|x: u64| peers_to_unchoke@.to_set().contains(x) <==> t1.difference(u0.to_set()).contains(x) by {
                        assert(n1.to_set().contains(x) == n1.contains(x));
                        assert(c1.to_set().contains(x) == c1.contains(x));
                    }
                    assert(peers_to_unchoke@.to_set() =~= t1.difference(u0.to_set()));
                }
            } else {
                proof {
                    assert forall|p: u64| old(self).interested().contains(p) implies top@.contains(p) by {
                        assert(u1.contains(p));
                        assert(u1.to_set().contains(p));
                    }
                }
            }
        }
        ChokeDecision { peers_to_choke, peers_to_unchoke }
    }
}

} // verus!
