use std::cmp::Reverse;

use priority_queue::PriorityQueue;

use crate::message::Block;
use vstd::prelude::*;

verus! {

#[verifier::external_type_specification]
#[verifier::external_body]
#[verifier::reject_recursive_types(I)]
#[verifier::reject_recursive_types(P)]
#[verifier::reject_recursive_types(H)]
pub struct ExPriorityQueue<I, P, H>(PriorityQueue<I, P, H>);

#[verifier::external_type_specification]
#[verifier::external_body]
#[verifier::reject_recursive_types(T)]
pub struct ExReverse<T>(Reverse<T>);

/// Peers by the time of their last activity, the earliest on top.
pub type ActivityQueue = PriorityQueue<u64, Reverse<u64>>;

/// Blocks asked of peers by the time they were asked for, the earliest on
/// top.
pub type FlightQueue = PriorityQueue<FlightKey, Reverse<u64>>;

/// A peer and a block it was asked for, as plain numbers: the peer, the
/// piece, the offset and the length.
pub type FlightKey = (u64, usize, usize, usize);

/// The key of a block asked of a peer.
pub open spec fn flight_key(addr: u64, block: Block) -> FlightKey {
    (addr, block.piece, block.offset, block.length)
}

/// The last time of activity of each peer in a queue of peers by time.
pub uninterp spec fn activity_times(q: ActivityQueue) -> Map<u64, u64>;

/// The time each block was asked for in a queue of blocks by time.
pub uninterp spec fn flight_times(q: FlightQueue) -> Map<FlightKey, u64>;

/// Whether a time that is `timeout` old is past at `now`: `then + timeout <=
/// now`, with a time beyond the clock's range never past.
pub fn expired(then: u64, timeout: u64, now: u64) -> (r: bool)
    ensures
        r == (then + timeout <= now),
{
    match then.checked_add(timeout) {
        Some(t) => t <= now,
        None => false,
    }
}

/// Whether `k` is held in `m` with the earliest time.
pub open spec fn is_earliest<K>(m: Map<K, u64>, k: K) -> bool {
    m.contains_key(k) && forall|j: K| #[trigger] m.contains_key(j) ==> m[k] <= m[j]
}

/// Calls `PriorityQueue::new`.
#[verifier::external_body]
fn activity_new() -> (q: ActivityQueue)
    ensures
        activity_times(q).dom() == Set::<u64>::empty(),
{
    PriorityQueue::new()
}

/// Calls `PriorityQueue::push_decrease` with the time reversed: the peer is
/// recorded at `time` unless it is recorded at a later time already.
#[verifier::external_body]
fn activity_push_decrease(q: &mut ActivityQueue, addr: u64, time: u64)
    ensures
        activity_times(*final(q)) == if activity_times(*old(q)).contains_key(addr) && activity_times(*old(q))[addr]
            >= time {
            activity_times(*old(q))
        } else {
            activity_times(*old(q)).insert(addr, time)
        },
{
    q.push_decrease(addr, Reverse(time));
}

/// Calls `PriorityQueue::remove`.
#[verifier::external_body]
fn activity_remove(q: &mut ActivityQueue, addr: u64)
    ensures
        activity_times(*final(q)) == activity_times(*old(q)).remove(addr),
{
    q.remove(&addr);
}

/// Calls `PriorityQueue::pop_if` with a test that the earliest time is
/// `timeout` old at `now`: the queue's top, the item of greatest reversed
/// time, is one with the earliest time, and it is taken out when the test
/// holds of it.
#[verifier::external_body]
fn activity_pop_expired(q: &mut ActivityQueue, timeout: u64, now: u64) -> (r: Option<u64>)
    ensures
        match r {
            Some(addr) => is_earliest(activity_times(*old(q)), addr) && activity_times(*old(q))[addr] + timeout
                <= now && activity_times(*final(q)) == activity_times(*old(q)).remove(addr),
            None => activity_times(*final(q)) == activity_times(*old(q)) && forall|a: u64|
                #[trigger] activity_times(*old(q)).contains_key(a) ==> !is_earliest(activity_times(*old(q)), a)
                    || activity_times(*old(q))[a] + timeout > now,
        },
{
    q.pop_if(|_, last| expired(last.0, timeout, now)).map(|(addr, _)| addr)
}

/// Calls `PriorityQueue::new`.
#[verifier::external_body]
fn flight_new() -> (q: FlightQueue)
    ensures
        flight_times(q).dom() == Set::<FlightKey>::empty(),
{
    PriorityQueue::new()
}

/// Calls `PriorityQueue::push`: the item is recorded at `time`, in place of
/// any time it had.
#[verifier::external_body]
fn flight_push(q: &mut FlightQueue, key: FlightKey, time: u64)
    ensures
        flight_times(*final(q)) == flight_times(*old(q)).insert(key, time),
{
    q.push(key, Reverse(time));
}

/// Calls `PriorityQueue::remove`, which reports whether the item was held.
#[verifier::external_body]
fn flight_remove(q: &mut FlightQueue, key: FlightKey) -> (r: bool)
    ensures
        r == flight_times(*old(q)).contains_key(key),
        flight_times(*final(q)) == flight_times(*old(q)).remove(key),
{
    q.remove(&key).is_some()
}

/// Calls `PriorityQueue::pop_if` with a test that the earliest time is
/// `timeout` old at `now`, as `activity_pop_expired` does.
#[verifier::external_body]
fn flight_pop_expired(q: &mut FlightQueue, timeout: u64, now: u64) -> (r: Option<FlightKey>)
    ensures
        match r {
            Some(key) => is_earliest(flight_times(*old(q)), key) && flight_times(*old(q))[key] + timeout
                <= now && flight_times(*final(q)) == flight_times(*old(q)).remove(key),
            None => flight_times(*final(q)) == flight_times(*old(q)) && forall|k: FlightKey|
                #[trigger] flight_times(*old(q)).contains_key(k) ==> !is_earliest(flight_times(*old(q)), k)
                    || flight_times(*old(q))[k] + timeout > now,
        },
{
    q.pop_if(|_, requested| expired(requested.0, timeout, now)).map(|(key, _)| key)
}

/// Whether a block asked for stays when peer `addr` goes.
pub fn other_peer(addr: u64, key: &FlightKey) -> (r: bool)
    ensures
        r == (key.0 != addr),
{
    key.0 != addr
}

/// Calls `PriorityQueue::retain_mut` with a test that keeps the blocks asked
/// of peers other than `addr`.
#[verifier::external_body]
fn flight_drop_peer(q: &mut FlightQueue, addr: u64)
    ensures
        flight_times(*final(q)) == flight_times(*old(q)).restrict(
            flight_times(*old(q)).dom().filter(|k: FlightKey| k.0 != addr),
        ),
{
    q.retain_mut(|key, _| other_peer(addr, key));
}

/// A finite map of times that holds something holds an earliest one.
pub proof fn lemma_earliest_exists<K>(m: Map<K, u64>)
    requires
        m.dom().finite(),
        m.dom().len() > 0,
    ensures
        exists|k: K| is_earliest(m, k),
    decreases m.dom().len(),
{
    let k = m.dom().choose();
    let rest = m.remove(k);
    if rest.dom().len() == 0 {
        assert forall|j: K| #[trigger] m.contains_key(j) implies m[k] <= m[j] by {
            if j != k {
                assert(rest.contains_key(j));
            }
        }
        assert(is_earliest(m, k));
    } else {
        lemma_earliest_exists(rest);
        let r = choose|r: K| is_earliest(rest, r);
        let best = if m[k] <= rest[r] { k } else { r };
        assert forall|j: K| #[trigger] m.contains_key(j) implies m[best] <= m[j] by {
            if j != k {
                assert(rest.contains_key(j));
            }
        }
        assert(is_earliest(m, best));
    }
}

/// Asking a peer for a block and then receiving the block leaves the blocks
/// in flight as they were, when that block was not in flight before: what
/// `block_requested` adds, `block_downloaded` takes out.
pub proof fn lemma_request_then_download(flights: Map<FlightKey, u64>, addr: u64, block: Block, instant: u64)
    requires
        !flights.contains_key(flight_key(addr, block)),
    ensures
        flights.insert(flight_key(addr, block), instant).remove(flight_key(addr, block)) == flights,
{
    assert(flights.insert(flight_key(addr, block), instant).remove(flight_key(addr, block)) =~= flights);
}

/// The peers idle for too long and the blocks asked for too long ago.
#[derive(Debug)]
pub struct SweepResult {
    pub peers: Vec<u64>,
    pub blocks: Vec<(u64, Block)>,
}

/// Keeps track of when peers were last active and when blocks were asked
/// for, to find idle peers and blocks given up on.
pub struct Sweeper {
    idle_peer_timeout: u64,
    block_timeout: u64,
    peer_activity: ActivityQueue,
    blocks_in_flight: FlightQueue,
}

/// The keys of `m` whose time is `timeout` old at `now`.
pub open spec fn expired_keys<K>(m: Map<K, u64>, timeout: u64, now: u64) -> Set<K> {
    m.dom().filter(|k: K| m[k] + timeout <= now)
}

impl Sweeper {
    /// The time of the last activity of each peer, in nanoseconds.
    pub closed spec fn activity(&self) -> Map<u64, u64> {
        activity_times(self.peer_activity)
    }

    /// The time each block in flight was asked for.
    pub closed spec fn flights(&self) -> Map<FlightKey, u64> {
        flight_times(self.blocks_in_flight)
    }

    /// How long a peer may be idle.
    pub closed spec fn idle_timeout(&self) -> u64 {
        self.idle_peer_timeout
    }

    /// How long a block may be in flight.
    pub closed spec fn block_timeout(&self) -> u64 {
        self.block_timeout
    }

    pub open spec fn wf(&self) -> bool {
        self.activity().dom().finite() && self.flights().dom().finite()
    }

    /// A sweeper with these timeouts, in nanoseconds.
    pub fn new(idle_peer_timeout: u64, block_timeout: u64) -> (s: Self)
        ensures
            s.wf(),
            s.activity().dom() == Set::<u64>::empty(),
            s.flights().dom() == Set::<FlightKey>::empty(),
            s.idle_timeout() == idle_peer_timeout,
            s.block_timeout() == block_timeout,
    {
        Self {
            idle_peer_timeout,
            block_timeout,
            peer_activity: activity_new(),
            blocks_in_flight: flight_new(),
        }
    }

    /// The peer was active at `instant`; an earlier instant than the one
    /// recorded is ignored.
    pub fn update_peer_activity(&mut self, addr: u64, instant: u64)
        requires
            old(self).wf(),
        ensures
            final(self).wf(),
            final(self).activity() == if old(self).activity().contains_key(addr) && old(self).activity()[addr]
                >= instant {
                old(self).activity()
            } else {
                old(self).activity().insert(addr, instant)
            },
            final(self).flights() == old(self).flights(),
            final(self).idle_timeout() == old(self).idle_timeout(),
            final(self).block_timeout() == old(self).block_timeout(),
    {
        activity_push_decrease(&mut self.peer_activity, addr, instant);
    }

    /// The peer was asked for the block at `instant`.
    pub fn block_requested(&mut self, addr: u64, block: Block, instant: u64)
        requires
            old(self).wf(),
        ensures
            final(self).wf(),
            final(self).flights() == old(self).flights().insert(flight_key(addr, block), instant),
            final(self).activity() == old(self).activity(),
            final(self).idle_timeout() == old(self).idle_timeout(),
            final(self).block_timeout() == old(self).block_timeout(),
    {
        flight_push(&mut self.blocks_in_flight, (addr, block.piece, block.offset, block.length), instant);
    }

    /// The peer sent a block it was asked for.
    pub fn block_downloaded(&mut self, addr: u64, block: Block)
        requires
            old(self).wf(),
            old(self).flights().contains_key(flight_key(addr, block)),
        ensures
            final(self).wf(),
            final(self).flights() == old(self).flights().remove(flight_key(addr, block)),
            final(self).activity() == old(self).activity(),
            final(self).idle_timeout() == old(self).idle_timeout(),
            final(self).block_timeout() == old(self).block_timeout(),
    {
        flight_remove(&mut self.blocks_in_flight, (addr, block.piece, block.offset, block.length));
    }

    /// The peer disconnected: it and the blocks asked of it are forgotten.
    pub fn peer_disconnected(&mut self, addr: u64)
        requires
            old(self).wf(),
        ensures
            final(self).wf(),
            final(self).activity() == old(self).activity().remove(addr),
            final(self).flights() == old(self).flights().restrict(
                old(self).flights().dom().filter(|k: FlightKey| k.0 != addr),
            ),
            final(self).idle_timeout() == old(self).idle_timeout(),
            final(self).block_timeout() == old(self).block_timeout(),
    {
        activity_remove(&mut self.peer_activity, addr);
        flight_drop_peer(&mut self.blocks_in_flight, addr);
        proof {
            let f = old(self).flights();
            let keep = f.dom().filter(|k: FlightKey| k.0 != addr);
            assert(self.flights().dom() =~= keep);
            vstd::set_lib::lemma_len_subset(keep, f.dom());
        }
    }

    /// Takes out the peers idle for the idle timeout at `now` and the blocks
    /// asked for the block timeout before `now`, each list earliest first.
    pub fn sweep(&mut self, now: u64) -> (r: SweepResult)
        requires
            old(self).wf(),
        ensures
            final(self).wf(),
            final(self).idle_timeout() == old(self).idle_timeout(),
            final(self).block_timeout() == old(self).block_timeout(),
            r.peers@.no_duplicates(),
            r.peers@.to_set() == expired_keys(old(self).activity(), old(self).idle_timeout(), now),
            forall|i: int, j: int|
                0 <= i < j < r.peers@.len() ==> old(self).activity()[r.peers@[i]] <= old(self).activity()[r.peers@[j]],
            final(self).activity() == old(self).activity().remove_keys(r.peers@.to_set()),
            r.blocks@.map_values(|e: (u64, Block)| flight_key(e.0, e.1)).no_duplicates(),
            r.blocks@.map_values(|e: (u64, Block)| flight_key(e.0, e.1)).to_set() == expired_keys(
                old(self).flights(),
                old(self).block_timeout(),
                now,
            ),
            forall|i: int, j: int|
                0 <= i < j < r.blocks@.len() ==> old(self).flights()[flight_key(r.blocks@[i].0, r.blocks@[i].1)]
                    <= old(self).flights()[flight_key(r.blocks@[j].0, r.blocks@[j].1)],
            final(self).flights() == old(self).flights().remove_keys(
                r.blocks@.map_values(|e: (u64, Block)| flight_key(e.0, e.1)).to_set(),
            ),
    {
        let mut peers: Vec<u64> = Vec::new();
        let ghost a0 = self.activity();
        loop
            invariant
                self.wf(),
                self.idle_timeout() == old(self).idle_timeout(),
                self.block_timeout() == old(self).block_timeout(),
                self.flights() == old(self).flights(),
                a0 == old(self).activity(),
                peers@.no_duplicates(),
                self.activity() == a0.remove_keys(peers@.to_set()),
                forall|a: u64| peers@.contains(a) ==> a0.contains_key(a) && a0[a] + self.idle_timeout() <= now,
                forall|i: int, j: int| 0 <= i < j < peers@.len() ==> a0[peers@[i]] <= a0[peers@[j]],
                forall|i: int, a: u64|
                    #![trigger peers@[i], self.activity().contains_key(a)]
                    0 <= i < peers@.len() && self.activity().contains_key(a) ==> a0[peers@[i]] <= a0[a],
            ensures
                self.wf(),
                self.idle_timeout() == old(self).idle_timeout(),
                self.block_timeout() == old(self).block_timeout(),
                self.flights() == old(self).flights(),
                peers@.no_duplicates(),
                self.activity() == a0.remove_keys(peers@.to_set()),
                forall|i: int, j: int| 0 <= i < j < peers@.len() ==> a0[peers@[i]] <= a0[peers@[j]],
                peers@.to_set() == expired_keys(a0, self.idle_timeout(), now),
            decreases self.activity().dom().len(),
        {
            let ghost cur = self.activity();
            match activity_pop_expired(&mut self.peer_activity, self.idle_peer_timeout, now) {
                Some(addr) => {
                    proof {
                        assert(!peers@.contains(addr));
                        crate::available_pieces::lemma_push_nodup(peers@, addr);
                        peers@.lemma_push_to_set_commute(addr);
                    }
                    peers.push(addr);
                    proof {
                        assert(self.activity() =~= a0.remove_keys(peers@.to_set()));
                        assert forall|i: int, a: u64|
                            #![trigger peers@[i], self.activity().contains_key(a)]
                            0 <= i < peers@.len() && self.activity().contains_key(a) implies a0[peers@[i]] <= a0[a] by {
                            assert(cur.contains_key(a));
                        }
                        assert forall|i: int, j: int| 0 <= i < j < peers@.len() implies a0[peers@[i]] <= a0[peers@[j]] by {
                            if j == peers@.len() - 1 && i < j {
                                assert(cur.contains_key(addr));
                            }
                        }
                    }
                },
                None => {
                    proof {
                        assert(peers@.to_set() =~= expired_keys(a0, self.idle_timeout(), now)) by {
                            assert forall|a: u64| expired_keys(a0, self.idle_timeout(), now).contains(a) implies peers@.to_set().contains(a) by {
                                if !peers@.contains(a) {
                                    assert(cur.contains_key(a));
                                    lemma_earliest_exists(cur);
                                    let e = choose|e: u64| is_earliest(cur, e);
                                    assert(cur[e] <= cur[a]);
                                }
                            }
                        }
                    }
                    break;
                },
            }
        }
        let mut blocks: Vec<(u64, Block)> = Vec::new();
        let ghost f0 = self.flights();
        loop
            invariant
                self.wf(),
                self.idle_timeout() == old(self).idle_timeout(),
                self.block_timeout() == old(self).block_timeout(),
                f0 == old(self).flights(),
                self.activity() == a0.remove_keys(peers@.to_set()),
                blocks@.map_values(|e: (u64, Block)| flight_key(e.0, e.1)).no_duplicates(),
                self.flights() == f0.remove_keys(blocks@.map_values(|e: (u64, Block)| flight_key(e.0, e.1)).to_set()),
                forall|i: int| 0 <= i < blocks@.len() ==> f0.contains_key(#[trigger] flight_key(blocks@[i].0, blocks@[i].1))
                    && f0[flight_key(blocks@[i].0, blocks@[i].1)] + self.block_timeout() <= now,
                forall|i: int, j: int|
                    0 <= i < j < blocks@.len() ==> f0[flight_key(blocks@[i].0, blocks@[i].1)] <= f0[flight_key(blocks@[j].0, blocks@[j].1)],
                forall|i: int, k: FlightKey|
                    #![trigger blocks@[i], self.flights().contains_key(k)]
                    0 <= i < blocks@.len() && self.flights().contains_key(k) ==> f0[flight_key(blocks@[i].0, blocks@[i].1)] <= f0[k],
            ensures
                self.wf(),
                self.idle_timeout() == old(self).idle_timeout(),
                self.block_timeout() == old(self).block_timeout(),
                self.activity() == a0.remove_keys(peers@.to_set()),
                blocks@.map_values(|e: (u64, Block)| flight_key(e.0, e.1)).no_duplicates(),
                self.flights() == f0.remove_keys(blocks@.map_values(|e: (u64, Block)| flight_key(e.0, e.1)).to_set()),
                forall|i: int, j: int|
                    0 <= i < j < blocks@.len() ==> f0[flight_key(blocks@[i].0, blocks@[i].1)] <= f0[flight_key(blocks@[j].0, blocks@[j].1)],
                blocks@.map_values(|e: (u64, Block)| flight_key(e.0, e.1)).to_set() == expired_keys(f0, self.block_timeout(), now),
            decreases self.flights().dom().len(),
        {
            let ghost cur = self.flights();
            let ghost keys = blocks@.map_values(|e: (u64, Block)| flight_key(e.0, e.1));
            match flight_pop_expired(&mut self.blocks_in_flight, self.block_timeout, now) {
                Some(key) => {
                    let entry = (key.0, Block::new(key.1, key.2, key.3));
                    proof {
                        assert(flight_key(entry.0, entry.1) == key);
                        assert(!keys.contains(key)) by {
                            if keys.contains(key) {
                                let k = keys.index_of(key);
                                assert(keys[k] == flight_key(blocks@[k].0, blocks@[k].1));
                            }
                        }
                        crate::available_pieces::lemma_push_nodup(keys, key);
                        keys.lemma_push_to_set_commute(key);
                    }
                    blocks.push(entry);
                    proof {
                        let keys2 = blocks@.map_values(|e: (u64, Block)| flight_key(e.0, e.1));
                        assert(keys2 =~= keys.push(key));
                        assert(self.flights() =~= f0.remove_keys(keys2.to_set()));
                        assert forall|i: int, k: FlightKey|
                            #![trigger blocks@[i], self.flights().contains_key(k)]
                            0 <= i < blocks@.len() && self.flights().contains_key(k) implies f0[flight_key(blocks@[i].0, blocks@[i].1)] <= f0[k] by {
                            assert(cur.contains_key(k));
                        }
                    }
                },
                None => {
                    proof {
                        assert(keys.to_set() =~= expired_keys(f0, self.block_timeout(), now)) by {
                            assert forall|k: FlightKey| expired_keys(f0, self.block_timeout(), now).contains(k) implies keys.to_set().contains(k) by {
                                if !keys.contains(k) {
                                    assert(cur.contains_key(k));
                                    lemma_earliest_exists(cur);
                                    let e = choose|e: FlightKey| is_earliest(cur, e);
                                    assert(cur[e] <= cur[k]);
                                }
                            }
                            assert forall|k: FlightKey| keys.to_set().contains(k) implies expired_keys(f0, self.block_timeout(), now).contains(k) by {
                                let i = keys.index_of(k);
                                assert(keys[i] == flight_key(blocks@[i].0, blocks@[i].1));
                            }
                        }
                    }
                    break;
                },
            }
        }
        SweepResult { peers, blocks }
    }
}

} // verus!
