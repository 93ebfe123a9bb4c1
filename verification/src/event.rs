use crate::bitset::{piece_set_elements, piece_set_nbits, piece_set_wf, PieceSet};
use crate::choke::{rate_of, ChokeDecision, Choker};
use crate::message::{Block, BlockData, Message};
use crate::scheduler::{lemma_piece_in_range, Peer, PeerPieceResponse, Scheduler};
use crate::sizes::{piece_count, Sizes};
use crate::stats::{GlobalStats, PeerStats, TransferRate};
use crate::sweeper::{expired_keys, flight_key, FlightKey, SweepResult, Sweeper};
use vstd::prelude::*;

verus! {

/// Something that happened, for the handler to act on. Peers are named by
/// numbers that the caller maps to their addresses; times are nanoseconds.
#[derive(Debug)]
pub enum Event {
    /// Time to send keep-alive messages.
    KeepAliveTicked,
    /// Time to run the choking algorithm.
    ChokeTicked,
    /// Time to report the statistics.
    StatsTicked,
    /// Time to look for idle peers and blocks given up on, at this instant.
    SweepTicked(u64),
    /// A peer sent a message.
    MessageReceived(u64, Message),
    /// New rates measured for a peer.
    StatsUpdated(u64, PeerStats),
    /// A piece was assembled and its hash checked.
    PieceCompleted(usize),
    /// A piece was assembled and its hash did not match.
    PieceVerificationFailed(usize),
    /// Connect to a peer.
    ConnectionRequested(u64),
    /// A peer connected to the client; the connection stays with the caller.
    ConnectionAccepted(u64),
    /// A peer's connection ended.
    Disconnected(u64),
    /// Shut everything down.
    ShutdownRequested,
}

/// Something for the caller to do.
#[derive(Debug, PartialEq)]
pub enum Command {
    /// Set up the connection with a peer: take over the one it opened, if it
    /// did, or open one.
    EstablishConnection(u64),
    /// Send a message to a peer.
    Send(u64, Message),
    /// Send a message to every peer.
    Broadcast(Message),
    /// Read a block from disk and send it to a peer.
    Upload(u64, Block),
    /// Write a downloaded block into its piece.
    IntegrateBlock(BlockData),
    /// Drop a peer.
    RemovePeer(u64),
    /// Report the statistics.
    UpdateStats(GlobalStats),
    /// Stop.
    Shutdown,
}

/// Whether the caller goes on after carrying out a command.
#[derive(Debug, Clone, Copy, PartialEq, Eq, Structural)]
pub enum ExecutionResult {
    Continue,
    /// The command was to stop.
    Stop,
}

/// The requests for blocks sent to a peer.
pub open spec fn requests_of(addr: u64, blocks: Seq<Block>) -> Seq<Command> {
    blocks.map_values(|b: Block| Command::Send(addr, Message::Request(b)))
}

/// The messages telling peers the client is no longer interested.
pub open spec fn not_interested_of(peers: Seq<u64>) -> Seq<Command> {
    peers.map_values(|a: u64| Command::Send(a, Message::NotInterested))
}

/// The times of the blocks in flight once `blocks` are asked of `addr` at
/// `now`, one after the other.
pub open spec fn flights_after(m: Map<FlightKey, u64>, addr: u64, blocks: Seq<Block>, now: u64) -> Map<FlightKey, u64>
    decreases blocks.len(),
{
    if blocks.len() == 0 {
        m
    } else {
        flights_after(m, addr, blocks.drop_last(), now).insert(flight_key(addr, blocks.last()), now)
    }
}

/// Blocks asked of a peer are in flight, and so is what was in flight.
proof fn lemma_flights_after(m: Map<FlightKey, u64>, addr: u64, blocks: Seq<Block>, now: u64)
    ensures
        forall|k: FlightKey| m.contains_key(k) ==> #[trigger] flights_after(m, addr, blocks, now).contains_key(k),
        forall|i: int|
            0 <= i < blocks.len() ==> flights_after(m, addr, blocks, now).contains_key(
                flight_key(addr, #[trigger] blocks[i]),
            ),
        m.dom().finite() ==> flights_after(m, addr, blocks, now).dom().finite(),
    decreases blocks.len(),
{
    if blocks.len() > 0 {
        lemma_flights_after(m, addr, blocks.drop_last(), now);
        assert forall|k: FlightKey| m.contains_key(k) implies #[trigger] flights_after(m, addr, blocks, now).contains_key(k) by {
            assert(flights_after(m, addr, blocks.drop_last(), now).contains_key(k));
        }
        assert forall|i: int| 0 <= i < blocks.len() implies flights_after(m, addr, blocks, now).contains_key(
            flight_key(addr, #[trigger] blocks[i]),
        ) by {
            if i < blocks.len() - 1 {
                assert(blocks.drop_last()[i] == blocks[i]);
            }
        }
    }
}

/// Whether `s1` is `s0` once the peer was active at `instant`.
pub open spec fn sweeper_noted(s0: Sweeper, s1: Sweeper, addr: u64, instant: u64) -> bool {
    &&& s1.activity() == if s0.activity().contains_key(addr) && s0.activity()[addr] >= instant {
        s0.activity()
    } else {
        s0.activity().insert(addr, instant)
    }
    &&& s1.flights() == s0.flights()
    &&& s1.idle_timeout() == s0.idle_timeout()
    &&& s1.block_timeout() == s0.block_timeout()
}

/// Whether `s1` is `s0` once `blocks` were asked of the peer at `now`.
pub open spec fn sweeper_requested(s0: Sweeper, s1: Sweeper, addr: u64, blocks: Seq<Block>, now: u64) -> bool {
    &&& s1.flights() == flights_after(s0.flights(), addr, blocks, now)
    &&& s1.activity() == s0.activity()
    &&& s1.idle_timeout() == s0.idle_timeout()
    &&& s1.block_timeout() == s0.block_timeout()
}

/// Whether `s1` is `s0` once the peer and its blocks are forgotten.
pub open spec fn sweeper_forgot(s0: Sweeper, s1: Sweeper, addr: u64) -> bool {
    &&& s1.activity() == s0.activity().remove(addr)
    &&& forall|k: FlightKey| #[trigger] s1.flights().contains_key(k) <==> s0.flights().contains_key(k) && k.0 != addr
    &&& forall|k: FlightKey| #[trigger] s1.flights().contains_key(k) ==> s1.flights()[k] == s0.flights()[k]
    &&& s1.idle_timeout() == s0.idle_timeout()
    &&& s1.block_timeout() == s0.block_timeout()
}

/// The keys of blocks asked of peers.
pub open spec fn block_keys(blocks: Seq<(u64, Block)>) -> Seq<FlightKey> {
    Seq::new(blocks.len(), |i: int| flight_key(blocks[i].0, blocks[i].1))
}

/// Past one more key of a list without duplicates, that key is no longer
/// among the rest.
proof fn lemma_skip_one(keys: Seq<FlightKey>, j: int)
    requires
        keys.no_duplicates(),
        0 <= j < keys.len(),
    ensures
        keys.skip(j).to_set().remove(keys[j]) == keys.skip(j + 1).to_set(),
{
    assert forall|x: FlightKey| keys.skip(j + 1).to_set().contains(x) <==> keys.skip(j).to_set().remove(keys[j]).contains(x) by {
        if keys.skip(j + 1).to_set().contains(x) {
            let m = keys.skip(j + 1).index_of(x);
            assert(keys[j + 1 + m] == x);
            assert(keys.skip(j)[m + 1] == x);
        }
        if keys.skip(j).to_set().remove(keys[j]).contains(x) {
            let m = keys.skip(j).index_of(x);
            assert(keys[j + m] == x);
            assert(m != 0);
            assert(keys.skip(j + 1)[m - 1] == x);
        }
    }
    assert(keys.skip(j + 1).to_set() =~= keys.skip(j).to_set().remove(keys[j]));
}

/// Whether `s1` is `s0` once swept at `now`, which gave `peers` and `blocks`.
pub open spec fn sweeper_swept(s0: Sweeper, s1: Sweeper, now: u64, peers: Seq<u64>, blocks: Seq<(u64, Block)>) -> bool {
    let keys = block_keys(blocks);
    &&& s1.idle_timeout() == s0.idle_timeout()
    &&& s1.block_timeout() == s0.block_timeout()
    &&& peers.no_duplicates()
    &&& peers.to_set() == expired_keys(s0.activity(), s0.idle_timeout(), now)
    &&& forall|i: int, j: int| 0 <= i < j < peers.len() ==> s0.activity()[peers[i]] <= s0.activity()[peers[j]]
    &&& s1.activity() == s0.activity().remove_keys(peers.to_set())
    &&& keys.no_duplicates()
    &&& keys.to_set() == expired_keys(s0.flights(), s0.block_timeout(), now)
    &&& forall|i: int, j: int|
        0 <= i < j < blocks.len() ==> s0.flights()[flight_key(blocks[i].0, blocks[i].1)] <= s0.flights()[flight_key(
            blocks[j].0,
            blocks[j].1,
        )]
    &&& s1.flights() == s0.flights().remove_keys(keys.to_set())
}

/// Whether `c1` is `c0` once the peer is forgotten.
pub open spec fn choker_forgot(c0: Choker, c1: Choker, addr: u64) -> bool {
    &&& c1.interested().to_set() == c0.interested().to_set().remove(addr)
    &&& c1.unchoked().to_set() == c0.unchoked().to_set().remove(addr)
    &&& c1.rates() == c0.rates().remove(addr)
    &&& c1.cycle() == c0.cycle()
    &&& c1.ticks() == c0.ticks()
}

/// Whether the scheduler can forget a peer: the blocks it was asked for are
/// of pieces being downloaded, and each of its pieces is recorded with it.
pub open spec fn can_forget(s: Scheduler, addr: u64) -> bool {
    s.peers().contains_key(addr) ==> {
        &&& forall|i: int|
            0 <= i < s.peers()[addr].assigned_blocks@.len() ==> s.is_active(
                #[trigger] s.peers()[addr].assigned_blocks@[i].piece,
            )
        &&& s.pieces_known(addr)
    }
}

/// Whether the scheduler can give back what the peer was asked for.
pub open spec fn can_choke(s: Scheduler, addr: u64) -> bool {
    s.peers().contains_key(addr) ==> forall|i: int|
        0 <= i < s.peers()[addr].assigned_blocks@.len() ==> s.is_active(
            #[trigger] s.peers()[addr].assigned_blocks@[i].piece,
        )
}

/// Whether the scheduler can complete a piece: it is being downloaded, and
/// each peer recorded for it is known and has it.
pub open spec fn can_complete(s: Scheduler, piece: usize) -> bool {
    &&& s.is_active(piece)
    &&& forall|a: u64|
        #[trigger] s.active()[s.active_pieces().position(piece)].peers_with_piece@.contains(a)
            ==> s.peers().contains_key(a) && piece_set_elements(s.peers()[a].has_pieces).contains(piece as nat)
}

/// The blocks a response to an announced piece asks for.
pub open spec fn response_blocks(r: PeerPieceResponse) -> Seq<Block> {
    match r {
        PeerPieceResponse::ExpressInterestAndRequest(b) => b@,
        PeerPieceResponse::RequestBlocks(b) => b@,
        _ => Seq::empty(),
    }
}

/// The commands that answer an announced piece.
pub open spec fn response_commands(addr: u64, r: PeerPieceResponse) -> Seq<Command> {
    match r {
        PeerPieceResponse::NoAction => Seq::empty(),
        PeerPieceResponse::ExpressInterest => seq![Command::Send(addr, Message::Interested)],
        PeerPieceResponse::ExpressInterestAndRequest(b) => seq![Command::Send(addr, Message::Interested)]
            + requests_of(addr, b@),
        PeerPieceResponse::RequestBlocks(b) => requests_of(addr, b@),
    }
}

/// Every block a peer was asked for is in flight.
pub open spec fn covers(peers: Map<u64, Peer>, flights: Map<FlightKey, u64>) -> bool {
    forall|a: u64, i: int|
        peers.contains_key(a) && 0 <= i < peers[a].assigned_blocks@.len() ==> flights.contains_key(
            flight_key(a, #[trigger] peers[a].assigned_blocks@[i]),
        )
}

/// Whether `ps` lists the members of `s` in increasing order.
pub open spec fn lists(ps: Seq<usize>, s: Set<nat>) -> bool {
    &&& forall|i: int, j: int| 0 <= i < j < ps.len() ==> ps[i] < ps[j]
    &&& forall|e: nat| s.contains(e) <==> exists|i: int| 0 <= i < ps.len() && ps[i] == e
}

/// A block asked of a peer once the blocks in flight are recorded is in
/// flight.
proof fn lemma_cover_requests(p1: Map<u64, Peer>, f0: Map<FlightKey, u64>, addr: u64, extra: Seq<Block>, now: u64)
    requires
        forall|a: u64, b: Block|
            p1.contains_key(a) && #[trigger] p1[a].assigned_blocks@.contains(b) ==> (a == addr && extra.contains(b))
                || f0.contains_key(flight_key(a, b)),
    ensures
        covers(p1, flights_after(f0, addr, extra, now)),
{
    lemma_flights_after(f0, addr, extra, now);
    assert forall|a: u64, i: int|
        p1.contains_key(a) && 0 <= i < p1[a].assigned_blocks@.len() implies flights_after(f0, addr, extra, now).contains_key(
        flight_key(a, #[trigger] p1[a].assigned_blocks@[i]),
    ) by {
        let b = p1[a].assigned_blocks@[i];
        assert(p1[a].assigned_blocks@.contains(b));
        if a == addr && extra.contains(b) {
            let j = extra.index_of(b);
            assert(extra[j] == b);
        }
    }
}

/// Blocks in flight stay covered when the only peer whose blocks changed
/// gained only blocks now asked of it.
proof fn lemma_cover_from(
    p0: Map<u64, Peer>,
    p1: Map<u64, Peer>,
    f0: Map<FlightKey, u64>,
    addr: u64,
    extra: Seq<Block>,
    now: u64,
)
    requires
        covers(p0, f0),
        forall|a: u64| #[trigger] p1.contains_key(a) && a != addr ==> p0.contains_key(a) && p1[a] == p0[a],
        p1.contains_key(addr) ==> forall|b: Block|
            #[trigger] p1[addr].assigned_blocks@.contains(b) ==> extra.contains(b) || (p0.contains_key(addr)
                && p0[addr].assigned_blocks@.contains(b)),
    ensures
        covers(p1, flights_after(f0, addr, extra, now)),
{
    assert forall|a: u64, b: Block|
        p1.contains_key(a) && #[trigger] p1[a].assigned_blocks@.contains(b) implies (a == addr && extra.contains(b))
            || f0.contains_key(flight_key(a, b)) by {
        let q = if a == addr { p0[addr] } else { p0[a] };
        if a != addr || !extra.contains(b) {
            assert(p0.contains_key(a) && q.assigned_blocks@.contains(b));
            let i = q.assigned_blocks@.index_of(b);
            assert(q.assigned_blocks@[i] == b);
        }
    }
    lemma_cover_requests(p1, f0, addr, extra, now);
}

/// Every block a peer was asked for is in flight, or its key is `pending`.
pub open spec fn covers_but(peers: Map<u64, Peer>, flights: Map<FlightKey, u64>, pending: Set<FlightKey>) -> bool {
    forall|a: u64, i: int|
        peers.contains_key(a) && 0 <= i < peers[a].assigned_blocks@.len() ==> {
            let k = flight_key(a, #[trigger] peers[a].assigned_blocks@[i]);
            flights.contains_key(k) || pending.contains(k)
        }
}

/// The messages that carry out a choking decision: the chokes, then the
/// unchokes.
pub open spec fn decision_commands(d: ChokeDecision) -> Seq<Command> {
    d.peers_to_choke@.map_values(|a: u64| Command::Send(a, Message::Choke)) + d.peers_to_unchoke@.map_values(
        |a: u64| Command::Send(a, Message::Unchoke),
    )
}

/// The commands that drop peers.
pub open spec fn removals_of(peers: Seq<u64>) -> Seq<Command> {
    peers.map_values(|a: u64| Command::RemovePeer(a))
}

/// Acts on what peers do and on the passing of time: chokes and unchokes
/// peers, schedules the download of pieces, drops idle peers and requests
/// given up on, and keeps the statistics.
pub struct EventHandler {
    choker: Choker,
    scheduler: Scheduler,
    sweeper: Sweeper,
    stats: GlobalStats,
    has_pieces: PieceSet,
    sizes: Sizes,
}

impl EventHandler {
    pub closed spec fn choker(&self) -> Choker {
        self.choker
    }

    pub closed spec fn scheduler(&self) -> Scheduler {
        self.scheduler
    }

    pub closed spec fn sweeper(&self) -> Sweeper {
        self.sweeper
    }

    pub closed spec fn stats(&self) -> GlobalStats {
        self.stats
    }

    /// The pieces the client has.
    pub closed spec fn has_pieces(&self) -> PieceSet {
        self.has_pieces
    }

    pub closed spec fn sizes(&self) -> Sizes {
        self.sizes
    }

    /// Every block a peer was asked for is in flight.
    pub open spec fn flights_cover(&self) -> bool {
        covers(self.scheduler().peers(), self.sweeper().flights())
    }

    /// The parts fit together.
    pub open spec fn inv(&self) -> bool {
        &&& self.choker().wf()
        &&& self.scheduler().wf()
        &&& self.sweeper().wf()
        &&& piece_set_wf(self.has_pieces())
        &&& self.scheduler().sizes() == self.sizes()
        &&& forall|e: nat| #[trigger] piece_set_elements(self.has_pieces()).contains(e) ==> e < self.sizes().total_pieces
        &&& self.flights_cover()
    }

    /// Whether `after` holds the same as this handler but for the sweeper.
    pub open spec fn same_but_sweeper(&self, after: Self) -> bool {
        &&& after.choker() == self.choker()
        &&& after.scheduler() == self.scheduler()
        &&& after.stats() == self.stats()
        &&& after.has_pieces() == self.has_pieces()
        &&& after.sizes() == self.sizes()
    }

    /// Whether `after` holds the same as this handler but for the scheduler
    /// and the sweeper.
    pub open spec fn same_but_scheduling(&self, after: Self) -> bool {
        &&& after.choker() == self.choker()
        &&& after.stats() == self.stats()
        &&& after.has_pieces() == self.has_pieces()
        &&& after.sizes() == self.sizes()
    }

    /// A handler for a torrent with this layout, of which the client has
    /// the pieces `has_pieces`. Times are in nanoseconds.
    pub fn new(
        sizes: Sizes,
        max_concurrent_requests_per_peer: usize,
        optimistic_choking_cycle: usize,
        idle_peer_timeout: u64,
        block_timeout: u64,
        has_pieces: PieceSet,
    ) -> (h: Self)
        requires
            sizes.total_pieces == piece_count(sizes.piece_size as nat, sizes.total_size as nat),
            sizes.total_size + sizes.piece_size <= usize::MAX + 1,
            piece_set_wf(has_pieces),
            forall|e: nat| #[trigger] piece_set_elements(has_pieces).contains(e) ==> e < sizes.total_pieces,
        ensures
            h.inv(),
            h.sizes() == sizes,
            h.has_pieces() == has_pieces,
            h.stats() == (GlobalStats {
                total_pieces: sizes.total_pieces,
                completed_pieces: piece_set_elements(has_pieces).len() as usize,
                connected_peers: 0,
                uploaded: 0,
                downloaded: 0,
                upload_rate: TransferRate(0, 0),
                download_rate: TransferRate(0, 0),
            }),
            h.choker().interested() == Seq::<u64>::empty(),
            h.choker().unchoked() == Seq::<u64>::empty(),
            h.choker().rates() == Map::<u64, TransferRate>::empty(),
            h.choker().cycle() == optimistic_choking_cycle,
            h.choker().ticks() == 0,
            h.scheduler().sizes() == sizes,
            h.scheduler().max_requests() == max_concurrent_requests_per_peer,
            h.scheduler().peers().dom() == Set::<u64>::empty(),
            h.scheduler().available().dom() == Set::<usize>::empty(),
            h.scheduler().active() == Seq::<crate::active_pieces::ActivePiece>::empty(),
            h.scheduler().orphans() == Set::new(
                |i: nat| i < sizes.total_pieces && !piece_set_elements(has_pieces).contains(i),
            ),
            h.sweeper().activity().dom() == Set::<u64>::empty(),
            h.sweeper().flights().dom() == Set::<FlightKey>::empty(),
            h.sweeper().idle_timeout() == idle_peer_timeout,
            h.sweeper().block_timeout() == block_timeout,
    {
        let stats = GlobalStats::new(sizes.total_pieces, has_pieces.count());
        let choker = Choker::new(optimistic_choking_cycle);
        let scheduler = Scheduler::new(sizes, max_concurrent_requests_per_peer, &has_pieces);
        let sweeper = Sweeper::new(idle_peer_timeout, block_timeout);
        let h = Self { choker, scheduler, sweeper, stats, has_pieces, sizes };
        proof {
            assert(h.scheduler().peers().dom() =~= Set::<u64>::empty());
        }
        h
    }

    /// Whether `after` is this handler once the peer announced `piece` at
    /// `now`, and `cmds` the answer.
    pub open spec fn had_to(&self, after: Self, addr: u64, piece: usize, now: u64, cmds: Seq<Command>) -> bool {
        &&& self.same_but_scheduling(after)
        &&& exists|r: PeerPieceResponse|
            #[trigger] self.scheduler().announced_to(after.scheduler(), addr, piece, r) && sweeper_requested(
                self.sweeper(),
                after.sweeper(),
                addr,
                response_blocks(r),
                now,
            ) && cmds == response_commands(addr, r)
    }

    /// Whether `states` are the handlers from this one on as the peer
    /// announces `pieces` one after the other at `now`, and `outs` the
    /// answers in turn.
    pub open spec fn had_chain(
        &self,
        states: Seq<Self>,
        outs: Seq<Seq<Command>>,
        addr: u64,
        pieces: Seq<usize>,
        now: u64,
    ) -> bool {
        &&& states.len() == pieces.len() + 1
        &&& outs.len() == pieces.len()
        &&& states[0] == *self
        &&& forall|i: int|
            0 <= i < pieces.len() ==> #[trigger] states[i].had_to(states[i + 1], addr, pieces[i], now, outs[i])
    }

    /// Whether `after` is this handler once the peer announced `pieces` one
    /// after the other at `now`, and `cmds` the answers in turn.
    pub open spec fn had_all_to(&self, after: Self, addr: u64, pieces: Seq<usize>, now: u64, cmds: Seq<Command>) -> bool {
        exists|states: Seq<Self>, outs: Seq<Seq<Command>>|
            #[trigger] self.had_chain(states, outs, addr, pieces, now) && states.last() == after && cmds
                == outs.flatten()
    }

    /// The peer announced a piece: the scheduler records it, and the peer is
    /// told the client is interested or asked for blocks, as the scheduler
    /// says.
    fn have(&mut self, addr: u64, piece: usize, now: u64) -> (r: Vec<Command>)
        requires
            old(self).inv(),
        ensures
            final(self).inv(),
            old(self).had_to(*final(self), addr, piece, now, r@),
            old(self).scheduler().flights_ok() ==> final(self).scheduler().flights_ok(),
    {
        let ghost p0 = self.scheduler().peers();
        let response = self.scheduler.peer_has_piece(addr, piece);
        let ghost resp = response;
        let ghost p1 = self.scheduler().peers();
        let ghost f0 = self.sweeper().flights();
        let mut commands: Vec<Command> = Vec::new();
        match response {
            PeerPieceResponse::NoAction => {},
            PeerPieceResponse::ExpressInterest => {
                commands.push(Command::Send(addr, Message::Interested));
            },
            PeerPieceResponse::ExpressInterestAndRequest(blocks) => {
                commands.push(Command::Send(addr, Message::Interested));
                self.request_all(addr, blocks, now, &mut commands);
            },
            PeerPieceResponse::RequestBlocks(blocks) => {
                self.request_all(addr, blocks, now, &mut commands);
            },
        }
        proof {
            let extra = response_blocks(resp);
            assert(sweeper_requested(old(self).sweeper(), self.sweeper(), addr, extra, now)) by {
                if extra.len() == 0 {
                    assert(flights_after(f0, addr, extra, now) == f0);
                }
            }
            assert(commands@ =~= response_commands(addr, resp));
            assert forall|a: u64| #[trigger] p1.contains_key(a) && a != addr implies p0.contains_key(a) && p1[a] == p0[a] by {
                if !(old(self).scheduler().orphans().contains(piece as nat) || old(self).scheduler().available().contains_key(piece)
                    || old(self).scheduler().is_active(piece)) {
                } else {
                    assert(p1.dom().contains(a));
                }
            }
            if p1.contains_key(addr) {
                assert forall|b: Block| #[trigger] p1[addr].assigned_blocks@.contains(b) implies extra.contains(b)
                    || (p0.contains_key(addr) && p0[addr].assigned_blocks@.contains(b)) by {
                    assert(p1[addr].assigned_blocks@.to_set().contains(b));
                }
            }
            lemma_cover_from(p0, p1, f0, addr, extra, now);
        }
        commands
    }

    /// Whether a message from a peer can be handled: a choke needs the
    /// blocks asked of the peer to be of pieces being downloaded, a block
    /// needs the peer known, and an upload must not overflow the count of
    /// bytes sent.
    pub open spec fn message_accepted(&self, addr: u64, message: Message) -> bool {
        match message {
            Message::Choke => can_choke(self.scheduler(), addr),
            Message::Request(block) => self.choker().unchoked().contains(addr) && piece_set_elements(
                self.has_pieces(),
            ).contains(block.piece as nat) ==> self.stats().uploaded + self.sizes().size_of(block.piece as nat)
                <= usize::MAX,
            Message::Piece(_) => self.scheduler().peers().contains_key(addr),
            _ => true,
        }
    }

    /// Whether `after` is this handler once it acted on a message from a
    /// peer at `now`, and `cmds` what it answered.
    pub open spec fn message_handled(&self, after: Self, addr: u64, message: Message, now: u64, cmds: Seq<Command>) -> bool {
        match message {
            Message::Choke => {
                &&& self.scheduler().choked_to(after.scheduler(), addr)
                &&& after.sweeper() == self.sweeper()
                &&& self.same_but_scheduling(after)
                &&& cmds == Seq::<Command>::empty()
            },
            Message::Unchoke => {
                &&& self.same_but_scheduling(after)
                &&& exists|r: Seq<Block>|
                    #[trigger] self.scheduler().unchoked_to(after.scheduler(), addr, r) && sweeper_requested(
                        self.sweeper(),
                        after.sweeper(),
                        addr,
                        r,
                        now,
                    ) && cmds == requests_of(addr, r)
            },
            Message::Interested => {
                &&& after.choker().interested().to_set() == self.choker().interested().to_set().insert(addr)
                &&& after.choker().unchoked() == self.choker().unchoked()
                &&& after.choker().rates() == self.choker().rates()
                &&& after.choker().cycle() == self.choker().cycle()
                &&& after.choker().ticks() == self.choker().ticks()
                &&& after.scheduler() == self.scheduler()
                &&& after.sweeper() == self.sweeper()
                &&& after.stats() == self.stats()
                &&& after.has_pieces() == self.has_pieces()
                &&& after.sizes() == self.sizes()
                &&& cmds == Seq::<Command>::empty()
            },
            Message::NotInterested => {
                &&& after.choker().interested().to_set() == self.choker().interested().to_set().remove(addr)
                &&& after.choker().unchoked() == self.choker().unchoked()
                &&& after.choker().rates() == self.choker().rates()
                &&& after.choker().cycle() == self.choker().cycle()
                &&& after.choker().ticks() == self.choker().ticks()
                &&& after.scheduler() == self.scheduler()
                &&& after.sweeper() == self.sweeper()
                &&& after.stats() == self.stats()
                &&& after.has_pieces() == self.has_pieces()
                &&& after.sizes() == self.sizes()
                &&& cmds == Seq::<Command>::empty()
            },
            Message::Have(piece) => self.had_to(after, addr, piece, now, cmds),
            Message::Bitfield(pieces) => exists|ps: Seq<usize>|
                #[trigger] lists(ps, piece_set_elements(pieces)) && self.had_all_to(after, addr, ps, now, cmds),
            Message::Request(block) => if self.choker().unchoked().contains(addr) && piece_set_elements(
                self.has_pieces(),
            ).contains(block.piece as nat) {
                &&& after.stats() == (GlobalStats {
                    uploaded: (self.stats().uploaded + self.sizes().size_of(block.piece as nat)) as usize,
                    ..self.stats()
                })
                &&& after.choker() == self.choker()
                &&& after.scheduler() == self.scheduler()
                &&& after.sweeper() == self.sweeper()
                &&& after.has_pieces() == self.has_pieces()
                &&& after.sizes() == self.sizes()
                &&& cmds == seq![Command::Upload(addr, block)]
            } else {
                after == *self && cmds == Seq::<Command>::empty()
            },
            Message::Piece(data) => {
                let block = Block::new_spec(data.piece, data.offset, data.data@.len() as usize);
                if self.scheduler().peers()[addr].assigned_blocks@.contains(block) {
                    &&& self.same_but_scheduling(after)
                    &&& exists|r: Seq<Block>, s1: Sweeper|
                        #![trigger self.scheduler().downloaded_to(after.scheduler(), addr, block, r), sweeper_requested(s1, after.sweeper(), addr, r, now)]
                        {
                            &&& s1.flights() == self.sweeper().flights().remove(flight_key(addr, block))
                            &&& s1.activity() == self.sweeper().activity()
                            &&& s1.idle_timeout() == self.sweeper().idle_timeout()
                            &&& s1.block_timeout() == self.sweeper().block_timeout()
                            &&& self.scheduler().downloaded_to(after.scheduler(), addr, block, r)
                            &&& sweeper_requested(s1, after.sweeper(), addr, r, now)
                            &&& cmds == seq![Command::IntegrateBlock(data)] + requests_of(addr, r)
                        }
                } else {
                    after == *self && cmds == Seq::<Command>::empty()
                }
            },
            _ => after == *self && cmds == Seq::<Command>::empty(),
        }
    }

    /// Acts on a message from a peer at `now`.
    fn handle_message(&mut self, addr: u64, message: Message, now: u64) -> (r: Vec<Command>)
        requires
            old(self).inv(),
            old(self).message_accepted(addr, message),
        ensures
            final(self).inv(),
            old(self).message_handled(*final(self), addr, message, now, r@),
            old(self).scheduler().flights_ok() ==> final(self).scheduler().flights_ok(),
    {
        let ghost m = message;
        let ghost p0 = self.scheduler().peers();
        let ghost f0 = self.sweeper().flights();
        match message {
            Message::Choke => {
                self.scheduler.peer_choked(addr);
                proof {
                    let p1 = self.scheduler().peers();
                    assert forall|a: u64| #[trigger] p1.contains_key(a) && a != addr implies p0.contains_key(a) && p1[a] == p0[a] by {
                        assert(p1.dom().contains(a));
                    }
                    lemma_cover_from(p0, p1, f0, addr, Seq::empty(), now);
                    assert(flights_after(f0, addr, Seq::empty(), now) == f0);
                }
                Vec::new()
            },
            Message::Unchoke => {
                let blocks = self.scheduler.peer_unchoked(addr);
                let ghost b = blocks@;
                let ghost p1 = self.scheduler().peers();
                let mut commands: Vec<Command> = Vec::new();
                self.request_all(addr, blocks, now, &mut commands);
                proof {
                    assert forall|a: u64| #[trigger] p1.contains_key(a) && a != addr implies p0.contains_key(a) && p1[a] == p0[a] by {
                        assert(p1.dom().contains(a));
                    }
                    assert forall|x: Block| #[trigger] p1[addr].assigned_blocks@.contains(x) implies b.contains(x)
                        || (p0.contains_key(addr) && p0[addr].assigned_blocks@.contains(x)) by {
                        assert(p1[addr].assigned_blocks@.to_set().contains(x));
                    }
                    lemma_cover_from(p0, p1, f0, addr, b, now);
                    assert(commands@ =~= requests_of(addr, b));
                }
                commands
            },
            Message::Interested => {
                self.choker.peer_interested(addr);
                Vec::new()
            },
            Message::NotInterested => {
                self.choker.peer_not_interested(addr);
                Vec::new()
            },
            Message::Have(piece) => self.have(addr, piece, now),
            Message::Bitfield(pieces) => {
                let ps = pieces.elements();
                let ghost h0 = *self;
                let ghost mut states: Seq<EventHandler> = seq![*self];
                let ghost mut outs: Seq<Seq<Command>> = Seq::empty();
                let mut commands: Vec<Command> = Vec::new();
                let mut i: usize = 0;
                while i < ps.len()
                    invariant
                        self.inv(),
                        i <= ps@.len(),
                        h0.had_chain(states, outs, addr, ps@.take(i as int), now),
                        states.last() == *self,
                        h0.scheduler().flights_ok() ==> self.scheduler().flights_ok(),
                        commands@ == outs.flatten(),
                    decreases ps@.len() - i,
                {
                    let ghost mid = *self;
                    let mut c = self.have(addr, ps[i], now);
                    let ghost c2 = c@;
                    proof {
                        outs.lemma_flatten_push(c2);
                    }
                    commands.append(&mut c);
                    proof {
                        let t = ps@.take(i + 1);
                        let states2 = states.push(*self);
                        let outs2 = outs.push(c2);
                        assert forall|j: int| 0 <= j < t.len() implies #[trigger] states2[j].had_to(
                            states2[j + 1],
                            addr,
                            t[j],
                            now,
                            outs2[j],
                        ) by {
                            if j < i {
                                assert(ps@.take(i as int)[j] == t[j]);
                                assert(states[j].had_to(states[j + 1], addr, ps@.take(i as int)[j], now, outs[j]));
                            } else {
                                assert(states2[j] == mid);
                                assert(t[j] == ps@[i as int]);
                            }
                        }
                        states = states2;
                        outs = outs2;
                    }
                    i += 1;
                }
                proof {
                    assert(ps@.take(ps@.len() as int) =~= ps@);
                    assert(lists(ps@, piece_set_elements(pieces)));
                    assert(h0.had_chain(states, outs, addr, ps@, now));
                }
                commands
            },
            Message::Request(block) => {
                if !self.choker.is_unchoked(addr) {
                    return Vec::new();
                }
                if !self.has_pieces.has(block.piece) {
                    return Vec::new();
                }
                proof {
                    lemma_piece_in_range(self.sizes, block.piece as nat);
                }
                self.stats.uploaded = self.stats.uploaded + self.sizes.piece_size(block.piece);
                let mut commands: Vec<Command> = Vec::new();
                commands.push(Command::Upload(addr, block));
                commands
            },
            Message::Piece(block_data) => {
                let block = Block::of_data(&block_data);
                if !self.scheduler.block_in_flight(addr, &block) {
                    return Vec::new();
                }
                proof {
                    let i = p0[addr].assigned_blocks@.index_of(block);
                    assert(p0[addr].assigned_blocks@[i] == block);
                }
                self.sweeper.block_downloaded(addr, block);
                let ghost s1 = self.sweeper();
                let next = self.scheduler.block_downloaded(addr, &block);
                let ghost b = next@;
                let ghost p1 = self.scheduler().peers();
                let mut commands: Vec<Command> = Vec::new();
                commands.push(Command::IntegrateBlock(block_data));
                let ghost c0 = commands@;
                self.request_all(addr, next, now, &mut commands);
                proof {
                    let f1 = s1.flights();
                    assert forall|a: u64, x: Block|
                        p1.contains_key(a) && #[trigger] p1[a].assigned_blocks@.contains(x) implies (a == addr && b.contains(x))
                            || f1.contains_key(flight_key(a, x)) by {
                        if a == addr {
                            assert(p1[addr].assigned_blocks@.to_set().contains(x));
                            if !b.contains(x) {
                                assert(p0[addr].assigned_blocks@.to_set().contains(x));
                                assert(x != block);
                                let i = p0[addr].assigned_blocks@.index_of(x);
                                assert(p0[addr].assigned_blocks@[i] == x);
                                assert(flight_key(a, x) != flight_key(addr, block));
                            }
                        } else {
                            assert(p1[a] == p0[a]);
                            let i = p0[a].assigned_blocks@.index_of(x);
                            assert(p0[a].assigned_blocks@[i] == x);
                            assert(flight_key(a, x) != flight_key(addr, block));
                        }
                    }
                    lemma_cover_requests(p1, f1, addr, b, now);
                    assert(commands@ =~= c0 + requests_of(addr, b));
                }
                commands
            },
            _ => Vec::new(),
        }
    }

    /// The parts fit together, but for blocks asked of peers whose keys are
    /// `pending`, which may be out of flight.
    pub open spec fn inv_but(&self, pending: Set<FlightKey>) -> bool {
        &&& self.choker().wf()
        &&& self.scheduler().wf()
        &&& self.sweeper().wf()
        &&& piece_set_wf(self.has_pieces())
        &&& self.scheduler().sizes() == self.sizes()
        &&& forall|e: nat| #[trigger] piece_set_elements(self.has_pieces()).contains(e) ==> e < self.sizes().total_pieces
        &&& covers_but(self.scheduler().peers(), self.sweeper().flights(), pending)
    }

    proof fn lemma_inv_but_empty(&self)
        ensures
            self.inv() <==> self.inv_but(Set::empty()),
    {
        if self.inv_but(Set::empty()) {
            assert forall|a: u64, i: int|
                self.scheduler().peers().contains_key(a) && 0 <= i < self.scheduler().peers()[a].assigned_blocks@.len()
                    implies self.sweeper().flights().contains_key(
                flight_key(a, #[trigger] self.scheduler().peers()[a].assigned_blocks@[i]),
            ) by {
                assert(!Set::<FlightKey>::empty().contains(flight_key(a, self.scheduler().peers()[a].assigned_blocks@[i])));
            }
        }
    }

    /// Whether `after` is this handler once the peer is dropped: the choker
    /// forgets it; the scheduler and the sweeper forget it too where the
    /// scheduler's records allow it (a peer dropped for being idle may hold a
    /// block of a piece no longer downloaded, which the scheduler cannot give
    /// back: its records then stay); one peer fewer is connected, the count
    /// stopping at zero.
    pub open spec fn forgot_to(&self, after: Self, addr: u64) -> bool {
        &&& choker_forgot(self.choker(), after.choker(), addr)
        &&& if can_forget(self.scheduler(), addr) {
            &&& self.scheduler().disconnected_to(after.scheduler(), addr)
            &&& sweeper_forgot(self.sweeper(), after.sweeper(), addr)
        } else {
            &&& after.scheduler() == self.scheduler()
            &&& after.sweeper() == self.sweeper()
        }
        &&& after.stats() == (GlobalStats {
            connected_peers: if self.stats().connected_peers == 0 {
                0
            } else {
                (self.stats().connected_peers - 1) as usize
            },
            ..self.stats()
        })
        &&& after.has_pieces() == self.has_pieces()
        &&& after.sizes() == self.sizes()
    }

    /// Drops a peer.
    fn disconnect(&mut self, addr: u64, Ghost(pending): Ghost<Set<FlightKey>>) -> (c: Command)
        requires
            old(self).inv_but(pending),
        ensures
            final(self).inv_but(pending),
            old(self).forgot_to(*final(self), addr),
            c == Command::RemovePeer(addr),
            old(self).scheduler().flights_ok() ==> final(self).scheduler().flights_ok(),
    {
        let ghost p0 = self.scheduler().peers();
        let ghost f0 = self.sweeper().flights();
        self.choker.peer_disconnected(addr);
        let forgettable = !self.scheduler.knows_peer(addr) || (self.scheduler.assigned_active(addr)
            && self.scheduler.peer_pieces_known(addr));
        if forgettable {
            self.scheduler.peer_disconnected(addr);
            self.sweeper.peer_disconnected(addr);
            proof {
                let p1 = self.scheduler().peers();
                let f1 = self.sweeper().flights();
                assert forall|k: FlightKey| #[trigger] f1.contains_key(k) <==> f0.contains_key(k) && k.0 != addr by {
                    if f0.contains_key(k) && k.0 != addr {
                        assert(f0.dom().filter(|x: FlightKey| x.0 != addr).contains(k));
                    }
                }
                assert forall|a: u64, i: int|
                    p1.contains_key(a) && 0 <= i < p1[a].assigned_blocks@.len() implies {
                    let k = flight_key(a, #[trigger] p1[a].assigned_blocks@[i]);
                    f1.contains_key(k) || pending.contains(k)
                } by {
                    let k = flight_key(a, p1[a].assigned_blocks@[i]);
                    assert(p0.contains_key(a) && p1[a] == p0[a]);
                    if f0.contains_key(k) {
                        assert(f0.dom().filter(|x: FlightKey| x.0 != addr).contains(k));
                    }
                }
            }
        }
        self.stats.connected_peers = self.stats.connected_peers.saturating_sub(1);
        Command::RemovePeer(addr)
    }

    /// Whether `after` is this handler once the block asked of the peer was
    /// given up on at `now`, and `cmds` the requests that follow.
    pub open spec fn released_one(&self, after: Self, addr: u64, block: Block, now: u64, cmds: Seq<Command>) -> bool {
        &&& self.same_but_scheduling(after)
        &&& exists|r: Seq<Block>|
            #[trigger] self.scheduler().released_to(after.scheduler(), addr, block, r) && sweeper_requested(
                self.sweeper(),
                after.sweeper(),
                addr,
                r,
                now,
            ) && cmds == requests_of(addr, r)
    }

    /// Whether `states` are the handlers from this one on as `peers` are
    /// dropped one after the other.
    pub open spec fn forgot_chain(&self, states: Seq<Self>, peers: Seq<u64>) -> bool {
        &&& states.len() == peers.len() + 1
        &&& states[0] == *self
        &&& forall|i: int| 0 <= i < peers.len() ==> #[trigger] states[i].forgot_to(states[i + 1], peers[i])
    }

    /// Whether `states` are the handlers from this one on as the blocks are
    /// given up on one after the other at `now`, and `outs` the requests that
    /// follow each.
    pub open spec fn released_chain(
        &self,
        states: Seq<Self>,
        outs: Seq<Seq<Command>>,
        blocks: Seq<(u64, Block)>,
        now: u64,
    ) -> bool {
        &&& states.len() == blocks.len() + 1
        &&& outs.len() == blocks.len()
        &&& states[0] == *self
        &&& forall|i: int|
            0 <= i < blocks.len() ==> #[trigger] states[i].released_one(states[i + 1], blocks[i].0, blocks[i].1, now, outs[i])
    }

    /// Whether `after` is this handler once swept at `instant` (and `now`),
    /// and `cmds` what follows: the idle peers are dropped, earliest first,
    /// then the blocks asked for too long ago are given up on, earliest
    /// first, each followed by the requests it makes room for.
    pub open spec fn swept_to(&self, after: Self, instant: u64, now: u64, cmds: Seq<Command>) -> bool {
        exists|peers: Seq<u64>, blocks: Seq<(u64, Block)>, fs: Seq<Self>, rs: Seq<Self>, outs: Seq<Seq<Command>>|
            #![trigger fs[0].forgot_chain(fs, peers), fs.last().released_chain(rs, outs, blocks, now)]
            {
                &&& sweeper_swept(self.sweeper(), fs[0].sweeper(), instant, peers, blocks)
                &&& self.same_but_sweeper(fs[0])
                &&& fs[0].forgot_chain(fs, peers)
                &&& fs.last().released_chain(rs, outs, blocks, now)
                &&& rs.last() == after
                &&& cmds == removals_of(peers) + outs.flatten()
            }
    }

    /// Gives up on a block asked of a peer at `now`.
    fn release_block(&mut self, addr: u64, block: Block, now: u64, Ghost(pending): Ghost<Set<FlightKey>>) -> (r: Vec<Command>)
        requires
            old(self).inv_but(pending),
        ensures
            final(self).inv_but(pending.remove(flight_key(addr, block))),
            old(self).released_one(*final(self), addr, block, now, r@),
    {
        let ghost p0 = self.scheduler().peers();
        let ghost f0 = self.sweeper().flights();
        let next = self.scheduler.release(addr, block);
        let ghost b = next@;
        let ghost p1 = self.scheduler().peers();
        let mut commands: Vec<Command> = Vec::new();
        self.request_all(addr, next, now, &mut commands);
        proof {
            lemma_flights_after(f0, addr, b, now);
            let f1 = self.sweeper().flights();
            let pend = pending.remove(flight_key(addr, block));
            assert forall|a: u64, i: int| p1.contains_key(a) && 0 <= i < p1[a].assigned_blocks@.len() implies {
                let k = flight_key(a, #[trigger] p1[a].assigned_blocks@[i]);
                f1.contains_key(k) || pend.contains(k)
            } by {
                let x = p1[a].assigned_blocks@[i];
                if a == addr {
                    assert(p1[addr].assigned_blocks@.to_set().contains(x));
                    if b.contains(x) {
                        let j = b.index_of(x);
                        assert(b[j] == x);
                    } else {
                        assert(p0[addr].assigned_blocks@.to_set().remove(block).contains(x));
                        let j = p0[addr].assigned_blocks@.index_of(x);
                        assert(p0[addr].assigned_blocks@[j] == x);
                    }
                } else {
                    assert(p1[a] == p0[a]);
                    assert(p0[a].assigned_blocks@[i] == x);
                }
            }
            assert(commands@ =~= requests_of(addr, b));
        }
        commands
    }

    /// Drops the idle peers and gives up on the blocks asked for too long
    /// ago.
    fn sweep(&mut self, instant: u64, now: u64) -> (r: Vec<Command>)
        requires
            old(self).inv(),
        ensures
            final(self).inv(),
            old(self).swept_to(*final(self), instant, now, r@),
    {
        let ghost h0 = *self;
        let ghost p0 = self.scheduler().peers();
        let ghost f0 = self.sweeper().flights();
        let result = self.sweeper.sweep(instant);
        let ghost keys = block_keys(result.blocks@);
        proof {
            assert(keys =~= result.blocks@.map_values(|e: (u64, Block)| flight_key(e.0, e.1)));
            let f1 = self.sweeper().flights();
            assert forall|a: u64, i: int| p0.contains_key(a) && 0 <= i < p0[a].assigned_blocks@.len() implies {
                let k = flight_key(a, #[trigger] p0[a].assigned_blocks@[i]);
                f1.contains_key(k) || keys.to_set().contains(k)
            } by {
                let k = flight_key(a, p0[a].assigned_blocks@[i]);
                assert(f0.contains_key(k));
            }
            assert(sweeper_swept(h0.sweeper(), self.sweeper(), instant, result.peers@, result.blocks@));
        }
        let ghost fstart = *self;
        let ghost mut fs: Seq<EventHandler> = seq![*self];
        let mut commands: Vec<Command> = Vec::new();
        let mut i: usize = 0;
        while i < result.peers.len()
            invariant
                self.inv_but(keys.to_set()),
                i <= result.peers@.len(),
                fstart.forgot_chain(fs, result.peers@.take(i as int)),
                fs.last() == *self,
                commands@ == removals_of(result.peers@.take(i as int)),
            decreases result.peers@.len() - i,
        {
            let c = self.disconnect(result.peers[i], Ghost(keys.to_set()));
            commands.push(c);
            proof {
                let t = result.peers@.take(i + 1);
                let fs2 = fs.push(*self);
                assert forall|j: int| 0 <= j < t.len() implies #[trigger] fs2[j].forgot_to(fs2[j + 1], t[j]) by {
                    if j < i {
                        assert(result.peers@.take(i as int)[j] == t[j]);
                        assert(fs[j].forgot_to(fs[j + 1], result.peers@.take(i as int)[j]));
                    } else {
                        assert(t[j] == result.peers@[i as int]);
                    }
                }
                fs = fs2;
                assert(removals_of(t) =~= removals_of(result.peers@.take(i as int)).push(c));
            }
            i += 1;
        }
        proof {
            assert(result.peers@.take(result.peers@.len() as int) =~= result.peers@);
            assert(keys.skip(0) =~= keys);
        }
        let ghost rstart = *self;
        let ghost mut rs: Seq<EventHandler> = seq![*self];
        let ghost mut outs: Seq<Seq<Command>> = Seq::empty();
        let ghost removed = commands@;
        let mut j: usize = 0;
        while j < result.blocks.len()
            invariant
                j <= result.blocks@.len(),
                keys == block_keys(result.blocks@),
                keys.no_duplicates(),
                self.inv_but(keys.skip(j as int).to_set()),
                rstart.released_chain(rs, outs, result.blocks@.take(j as int), now),
                rs.last() == *self,
                commands@ == removed + outs.flatten(),
            decreases result.blocks@.len() - j,
        {
            let (addr, block) = result.blocks[j];
            proof {
                assert(keys[j as int] == flight_key(addr, block));
                lemma_skip_one(keys, j as int);
            }
            let mut c = self.release_block(addr, block, now, Ghost(keys.skip(j as int).to_set()));
            let ghost c2 = c@;
            proof {
                outs.lemma_flatten_push(c2);
            }
            commands.append(&mut c);
            proof {
                let t = result.blocks@.take(j + 1);
                let rs2 = rs.push(*self);
                let outs2 = outs.push(c2);
                assert forall|k: int| 0 <= k < t.len() implies #[trigger] rs2[k].released_one(
                    rs2[k + 1],
                    t[k].0,
                    t[k].1,
                    now,
                    outs2[k],
                ) by {
                    if k < j {
                        assert(result.blocks@.take(j as int)[k] == t[k]);
                        assert(rs[k].released_one(
                            rs[k + 1],
                            result.blocks@.take(j as int)[k].0,
                            result.blocks@.take(j as int)[k].1,
                            now,
                            outs[k],
                        ));
                    } else {
                        assert(t[k] == result.blocks@[j as int]);
                    }
                }
                rs = rs2;
                outs = outs2;
            }
            j += 1;
        }
        proof {
            assert(result.blocks@.take(result.blocks@.len() as int) =~= result.blocks@);
            assert(keys.skip(keys.len() as int).to_set() =~= Set::<FlightKey>::empty());
            self.lemma_inv_but_empty();
            assert(fs[0] == fstart);
            assert(rs[0] == rstart);
            assert(h0.same_but_sweeper(fs[0]));
            assert(fs[0].forgot_chain(fs, result.peers@));
            assert(fs.last().released_chain(rs, outs, result.blocks@, now));
        }
        commands
    }

    /// Whether an event can be handled: no count overflows, the choker has a
    /// cycle, and the scheduler can do what the event asks of it (give back
    /// the blocks of a peer that chokes, forget a peer that disconnected,
    /// complete or drop a piece being downloaded, take a block from a known
    /// peer).
    pub open spec fn accepts(&self, event: Event) -> bool {
        match event {
            Event::ChokeTicked => self.choker().ticks() < usize::MAX && self.choker().cycle() > 0,
            Event::MessageReceived(addr, message) => self.message_accepted(addr, message),
            Event::StatsUpdated(addr, stats) => {
                &&& self.stats().upload_rate.0 + stats.upload.0 <= u64::MAX
                &&& self.stats().upload_rate.1 + stats.upload.1 <= u64::MAX
                &&& self.stats().download_rate.0 + stats.download.0 <= u64::MAX
                &&& self.stats().download_rate.1 + stats.download.1 <= u64::MAX
                &&& rate_of(self.choker().rates(), addr).0 + stats.download.0 <= u64::MAX
                &&& rate_of(self.choker().rates(), addr).1 + stats.download.1 <= u64::MAX
            },
            Event::PieceCompleted(piece) => {
                &&& piece < self.sizes().total_pieces
                &&& self.stats().completed_pieces < usize::MAX
                &&& self.stats().downloaded + self.sizes().size_of(piece as nat) <= usize::MAX
                &&& can_complete(self.scheduler(), piece)
            },
            Event::PieceVerificationFailed(piece) => self.scheduler().is_active(piece),
            Event::ConnectionRequested(_) => self.stats().connected_peers < usize::MAX,
            Event::ConnectionAccepted(_) => self.stats().connected_peers < usize::MAX,
            Event::Disconnected(addr) => can_forget(self.scheduler(), addr),
            _ => true,
        }
    }

    /// Whether `after` is this handler once it acted on `event` at `now`,
    /// and `cmds` what it asks the caller to do.
    pub open spec fn handled(&self, after: Self, event: Event, now: u64, cmds: Seq<Command>) -> bool {
        match event {
            Event::KeepAliveTicked => after == *self && cmds == seq![Command::Broadcast(Message::KeepAlive)],
            Event::StatsTicked => after == *self && cmds == seq![Command::UpdateStats(self.stats())],
            Event::ChokeTicked => {
                &&& exists|d: ChokeDecision|
                    #[trigger] crate::choke::choker_ran(self.choker(), after.choker(), d) && cmds == decision_commands(d)
                &&& after.scheduler() == self.scheduler()
                &&& after.sweeper() == self.sweeper()
                &&& after.stats() == self.stats()
                &&& after.has_pieces() == self.has_pieces()
                &&& after.sizes() == self.sizes()
            },
            Event::SweepTicked(instant) => self.swept_to(after, instant, now, cmds),
            Event::MessageReceived(addr, message) => exists|mid: Self|
                {
                    &&& self.same_but_sweeper(mid)
                    &&& sweeper_noted(self.sweeper(), mid.sweeper(), addr, now)
                    &&& #[trigger] mid.message_handled(after, addr, message, now, cmds)
                },
            Event::StatsUpdated(addr, stats) => {
                let old_rate = rate_of(self.choker().rates(), addr);
                &&& after.choker().rates() == self.choker().rates().insert(
                    addr,
                    TransferRate((old_rate.0 + stats.download.0) as u64, (old_rate.1 + stats.download.1) as u64),
                )
                &&& after.choker().interested() == self.choker().interested()
                &&& after.choker().unchoked() == self.choker().unchoked()
                &&& after.choker().cycle() == self.choker().cycle()
                &&& after.choker().ticks() == self.choker().ticks()
                &&& after.stats() == (GlobalStats {
                    upload_rate: TransferRate(
                        (self.stats().upload_rate.0 + stats.upload.0) as u64,
                        (self.stats().upload_rate.1 + stats.upload.1) as u64,
                    ),
                    download_rate: TransferRate(
                        (self.stats().download_rate.0 + stats.download.0) as u64,
                        (self.stats().download_rate.1 + stats.download.1) as u64,
                    ),
                    ..self.stats()
                })
                &&& after.scheduler() == self.scheduler()
                &&& after.sweeper() == self.sweeper()
                &&& after.has_pieces() == self.has_pieces()
                &&& after.sizes() == self.sizes()
                &&& cmds == Seq::<Command>::empty()
            },
            Event::PieceCompleted(piece) => {
                &&& exists|r: Seq<u64>|
                    #[trigger] self.scheduler().completed_to(after.scheduler(), piece, r) && cmds == seq![
                        Command::Broadcast(Message::Have(piece)),
                    ] + not_interested_of(r)
                &&& after.stats() == (GlobalStats {
                    completed_pieces: (self.stats().completed_pieces + 1) as usize,
                    downloaded: (self.stats().downloaded + self.sizes().size_of(piece as nat)) as usize,
                    ..self.stats()
                })
                &&& piece_set_elements(after.has_pieces()) == piece_set_elements(self.has_pieces()).insert(
                    piece as nat,
                )
                &&& piece_set_nbits(after.has_pieces()) == if piece as nat >= piece_set_nbits(self.has_pieces()) {
                    piece as nat + 1
                } else {
                    piece_set_nbits(self.has_pieces())
                }
                &&& after.choker() == self.choker()
                &&& after.sweeper() == self.sweeper()
                &&& after.sizes() == self.sizes()
            },
            Event::PieceVerificationFailed(piece) => {
                &&& self.scheduler().invalidated_to(after.scheduler(), piece)
                &&& after.choker() == self.choker()
                &&& after.sweeper() == self.sweeper()
                &&& after.stats() == self.stats()
                &&& after.has_pieces() == self.has_pieces()
                &&& after.sizes() == self.sizes()
                &&& cmds == Seq::<Command>::empty()
            },
            Event::ConnectionRequested(addr) => self.connected_to(after, addr, cmds),
            Event::ConnectionAccepted(addr) => self.connected_to(after, addr, cmds),
            Event::Disconnected(addr) => self.forgot_to(after, addr) && cmds == seq![Command::RemovePeer(addr)],
            Event::ShutdownRequested => after == *self && cmds == seq![Command::Shutdown],
        }
    }

    /// Whether `after` is this handler once a connection with the peer is
    /// set up, and `cmds` what follows: the connection, then the client's
    /// pieces if it has any.
    pub open spec fn connected_to(&self, after: Self, addr: u64, cmds: Seq<Command>) -> bool {
        &&& after.stats() == (GlobalStats { connected_peers: (self.stats().connected_peers + 1) as usize, ..self.stats() })
        &&& after.choker() == self.choker()
        &&& after.scheduler() == self.scheduler()
        &&& after.sweeper() == self.sweeper()
        &&& after.has_pieces() == self.has_pieces()
        &&& after.sizes() == self.sizes()
        &&& cmds.len() >= 1
        &&& cmds[0] == Command::EstablishConnection(addr)
        &&& piece_set_elements(self.has_pieces()) == Set::<nat>::empty() ==> cmds.len() == 1
        &&& piece_set_elements(self.has_pieces()) != Set::<nat>::empty() ==> {
            &&& cmds.len() == 2
            &&& match cmds[1] {
                Command::Send(b, Message::Bitfield(pieces)) => {
                    &&& b == addr
                    &&& piece_set_elements(pieces) == piece_set_elements(self.has_pieces())
                    &&& piece_set_nbits(pieces) == piece_set_nbits(self.has_pieces())
                },
                _ => false,
            }
        }
    }

    /// Whether handling `event` keeps the blocks in flight apart (see
    /// `Scheduler::flights_ok`): a sweep may give back a block that is no
    /// longer in flight to its peer (one asked of a peer that choked since),
    /// and a piece completed or failed must have no block in flight.
    pub open spec fn keeps_flights(&self, event: Event) -> bool {
        match event {
            Event::SweepTicked(_) => false,
            Event::PieceCompleted(piece) => self.scheduler().none_in_flight(piece),
            Event::PieceVerificationFailed(piece) => self.scheduler().none_in_flight(piece),
            _ => true,
        }
    }

    /// Whether the handler can act on `event`.
    pub fn can_handle(&self, event: &Event) -> (r: bool)
        requires
            self.inv(),
        ensures
            r == self.accepts(*event),
    {
        match event {
            Event::ChokeTicked => self.choker.can_run(),
            Event::MessageReceived(addr, message) => match message {
                Message::Choke => self.scheduler.assigned_active(*addr),
                Message::Request(block) => {
                    if self.choker.is_unchoked(*addr) && self.has_pieces.has(block.piece) {
                        proof {
                            lemma_piece_in_range(self.sizes, block.piece as nat);
                        }
                        self.sizes.piece_size(block.piece) <= usize::MAX - self.stats.uploaded
                    } else {
                        true
                    }
                },
                Message::Piece(_) => self.scheduler.knows_peer(*addr),
                _ => true,
            },
            Event::StatsUpdated(addr, stats) => {
                let rate = self.choker.rate(*addr);
                stats.upload.0 <= u64::MAX - self.stats.upload_rate.0 && stats.upload.1 <= u64::MAX
                    - self.stats.upload_rate.1 && stats.download.0 <= u64::MAX - self.stats.download_rate.0
                    && stats.download.1 <= u64::MAX - self.stats.download_rate.1 && stats.download.0 <= u64::MAX
                    - rate.0 && stats.download.1 <= u64::MAX - rate.1
            },
            Event::PieceCompleted(piece) => {
                if *piece >= self.sizes.total_pieces || self.stats.completed_pieces == usize::MAX {
                    return false;
                }
                proof {
                    lemma_piece_in_range(self.sizes, *piece as nat);
                }
                self.sizes.piece_size(*piece) <= usize::MAX - self.stats.downloaded
                    && self.scheduler.completion_ready(*piece)
            },
            Event::PieceVerificationFailed(piece) => self.scheduler.is_downloading(*piece),
            Event::ConnectionRequested(_) => self.stats.connected_peers < usize::MAX,
            Event::ConnectionAccepted(_) => self.stats.connected_peers < usize::MAX,
            Event::Disconnected(addr) => !self.scheduler.knows_peer(*addr) || (self.scheduler.assigned_active(*addr)
                && self.scheduler.peer_pieces_known(*addr)),
            _ => true,
        }
    }

    /// Acts on an event at `now`: updates the handler and says what the
    /// caller should do, in order.
    pub fn handle(&mut self, event: Event, now: u64) -> (r: Vec<Command>)
        requires
            old(self).inv(),
            old(self).accepts(event),
        ensures
            final(self).inv(),
            old(self).handled(*final(self), event, now, r@),
            old(self).scheduler().flights_ok() && old(self).keeps_flights(event) ==> final(self).scheduler().flights_ok(),
    {
        let ghost e = event;
        match event {
            Event::KeepAliveTicked => {
                let mut commands: Vec<Command> = Vec::new();
                commands.push(Command::Broadcast(Message::KeepAlive));
                commands
            },
            Event::StatsTicked => {
                let mut commands: Vec<Command> = Vec::new();
                commands.push(Command::UpdateStats(self.stats));
                commands
            },
            Event::ChokeTicked => {
                let decision = self.choker.run();
                let mut commands: Vec<Command> = Vec::new();
                let mut i: usize = 0;
                while i < decision.peers_to_choke.len()
                    invariant
                        i <= decision.peers_to_choke@.len(),
                        commands@ == decision.peers_to_choke@.take(i as int).map_values(
                            |a: u64| Command::Send(a, Message::Choke),
                        ),
                    decreases decision.peers_to_choke@.len() - i,
                {
                    commands.push(Command::Send(decision.peers_to_choke[i], Message::Choke));
                    i += 1;
                    proof {
                        assert(commands@ =~= decision.peers_to_choke@.take(i as int).map_values(
                            |a: u64| Command::Send(a, Message::Choke),
                        ));
                    }
                }
                let ghost chokes = commands@;
                let mut j: usize = 0;
                while j < decision.peers_to_unchoke.len()
                    invariant
                        j <= decision.peers_to_unchoke@.len(),
                        commands@ == chokes + decision.peers_to_unchoke@.take(j as int).map_values(
                            |a: u64| Command::Send(a, Message::Unchoke),
                        ),
                    decreases decision.peers_to_unchoke@.len() - j,
                {
                    commands.push(Command::Send(decision.peers_to_unchoke[j], Message::Unchoke));
                    j += 1;
                    proof {
                        assert(commands@ =~= chokes + decision.peers_to_unchoke@.take(j as int).map_values(
                            |a: u64| Command::Send(a, Message::Unchoke),
                        ));
                    }
                }
                proof {
                    assert(decision.peers_to_choke@.take(decision.peers_to_choke@.len() as int)
                        =~= decision.peers_to_choke@);
                    assert(decision.peers_to_unchoke@.take(decision.peers_to_unchoke@.len() as int)
                        =~= decision.peers_to_unchoke@);
                    assert(commands@ =~= decision_commands(decision));
                    assert(crate::choke::choker_ran(old(self).choker(), self.choker(), decision));
                }
                commands
            },
            Event::SweepTicked(instant) => self.sweep(instant, now),
            Event::MessageReceived(addr, message) => {
                self.sweeper.update_peer_activity(addr, now);
                let ghost mid = *self;
                proof {
                    assert(mid.flights_cover());
                }
                self.handle_message(addr, message, now)
            },
            Event::StatsUpdated(addr, stats) => {
                self.choker.update_peer_transfer_rate(addr, stats.download);
                self.stats.upload_rate.add_assign(stats.upload);
                self.stats.download_rate.add_assign(stats.download);
                Vec::new()
            },
            Event::PieceCompleted(piece) => {
                proof {
                    lemma_piece_in_range(self.sizes, piece as nat);
                }
                self.stats.completed_pieces = self.stats.completed_pieces + 1;
                self.has_pieces.add(piece);
                self.stats.downloaded = self.stats.downloaded + self.sizes.piece_size(piece);
                let mut commands: Vec<Command> = Vec::new();
                commands.push(Command::Broadcast(Message::Have(piece)));
                let ghost c0 = commands@;
                let ghost p0 = self.scheduler().peers();
                let not_interested = self.scheduler.client_has_piece(piece);
                let mut i: usize = 0;
                while i < not_interested.len()
                    invariant
                        i <= not_interested@.len(),
                        commands@ == c0 + not_interested_of(not_interested@.take(i as int)),
                    decreases not_interested@.len() - i,
                {
                    commands.push(Command::Send(not_interested[i], Message::NotInterested));
                    i += 1;
                    proof {
                        assert(commands@ =~= c0 + not_interested_of(not_interested@.take(i as int)));
                    }
                }
                proof {
                    assert(not_interested@.take(not_interested@.len() as int) =~= not_interested@);
                    let p1 = self.scheduler().peers();
                    assert forall|a: u64, k: int|
                        p1.contains_key(a) && 0 <= k < p1[a].assigned_blocks@.len() implies self.sweeper().flights().contains_key(
                        flight_key(a, #[trigger] p1[a].assigned_blocks@[k]),
                    ) by {
                        assert(p1[a].assigned_blocks == p0[a].assigned_blocks);
                        assert(p0[a].assigned_blocks@[k] == p1[a].assigned_blocks@[k]);
                    }
                }
                commands
            },
            Event::PieceVerificationFailed(piece) => {
                self.scheduler.invalidate(piece);
                Vec::new()
            },
            Event::ConnectionRequested(addr) => self.establish_connection(addr),
            Event::ConnectionAccepted(addr) => self.establish_connection(addr),
            Event::Disconnected(addr) => {
                proof {
                    self.lemma_inv_but_empty();
                }
                let c = self.disconnect(addr, Ghost(Set::empty()));
                proof {
                    self.lemma_inv_but_empty();
                }
                let mut commands: Vec<Command> = Vec::new();
                commands.push(c);
                commands
            },
            Event::ShutdownRequested => {
                let mut commands: Vec<Command> = Vec::new();
                commands.push(Command::Shutdown);
                commands
            },
        }
    }

    /// Sets up a connection with a peer, then sends it the client's pieces
    /// if it has any.
    fn establish_connection(&mut self, addr: u64) -> (r: Vec<Command>)
        requires
            old(self).inv(),
            old(self).stats().connected_peers < usize::MAX,
        ensures
            final(self).inv(),
            old(self).connected_to(*final(self), addr, r@),
    {
        self.stats.connected_peers = self.stats.connected_peers + 1;
        let mut commands: Vec<Command> = Vec::new();
        commands.push(Command::EstablishConnection(addr));
        if !self.has_pieces.is_empty() {
            let pieces = self.has_pieces.clone();
            commands.push(Command::Send(addr, Message::Bitfield(pieces)));
        }
        commands
    }

    /// Asks a peer for a block at `now`.
    fn request(&mut self, addr: u64, block: Block, now: u64) -> (c: Command)
        requires
            old(self).sweeper().wf(),
        ensures
            final(self).sweeper().wf(),
            c == Command::Send(addr, Message::Request(block)),
            old(self).same_but_sweeper(*final(self)),
            final(self).sweeper().flights() == old(self).sweeper().flights().insert(flight_key(addr, block), now),
            final(self).sweeper().activity() == old(self).sweeper().activity(),
            final(self).sweeper().idle_timeout() == old(self).sweeper().idle_timeout(),
            final(self).sweeper().block_timeout() == old(self).sweeper().block_timeout(),
    {
        self.sweeper.block_requested(addr, block, now);
        Command::Send(addr, Message::Request(block))
    }

    /// Asks a peer for blocks at `now`, one after the other.
    fn request_all(&mut self, addr: u64, blocks: Vec<Block>, now: u64, commands: &mut Vec<Command>)
        requires
            old(self).sweeper().wf(),
        ensures
            final(self).sweeper().wf(),
            final(commands)@ == old(commands)@ + requests_of(addr, blocks@),
            old(self).same_but_sweeper(*final(self)),
            sweeper_requested(old(self).sweeper(), final(self).sweeper(), addr, blocks@, now),
    {
        let ghost c0 = commands@;
        let mut i: usize = 0;
        while i < blocks.len()
            invariant
                i <= blocks@.len(),
                self.sweeper().wf(),
                commands@ == c0 + requests_of(addr, blocks@.take(i as int)),
                old(self).same_but_sweeper(*self),
                sweeper_requested(old(self).sweeper(), self.sweeper(), addr, blocks@.take(i as int), now),
            decreases blocks@.len() - i,
        {
            let c = self.request(addr, blocks[i], now);
            commands.push(c);
            proof {
                let t = blocks@.take(i + 1);
                assert(t.drop_last() =~= blocks@.take(i as int));
                assert(t.last() == blocks@[i as int]);
                assert(requests_of(addr, t) =~= requests_of(addr, blocks@.take(i as int)).push(c));
            }
            i += 1;
        }
        proof {
            assert(blocks@.take(blocks@.len() as int) =~= blocks@);
        }
    }
}

/// On a choke tick, the handler tells a peer it is choked exactly when the
/// choker had it unchoked and no longer has, and tells a peer it is unchoked
/// exactly when the choker had it choked and now has it unchoked; it sends
/// nothing else.
pub proof fn lemma_choke_tick_commands(h0: EventHandler, h1: EventHandler, now: u64, cmds: Seq<Command>)
    requires
        h0.handled(h1, Event::ChokeTicked, now, cmds),
    ensures
        forall|p: u64|
            #[trigger] cmds.contains(Command::Send(p, Message::Choke)) <==> h0.choker().unchoked().contains(p)
                && !h1.choker().unchoked().contains(p),
        forall|p: u64|
            #[trigger] cmds.contains(Command::Send(p, Message::Unchoke)) <==> !h0.choker().unchoked().contains(p)
                && h1.choker().unchoked().contains(p),
        forall|i: int|
            0 <= i < cmds.len() ==> exists|p: u64|
                #[trigger] cmds[i] == Command::Send(p, Message::Choke) || cmds[i] == Command::Send(p, Message::Unchoke),
{
    let d = choose|d: ChokeDecision|
        #[trigger] crate::choke::choker_ran(h0.choker(), h1.choker(), d) && cmds == decision_commands(d);
    let c0 = h0.choker().unchoked().to_set();
    let c1 = h1.choker().unchoked().to_set();
    let chokes = d.peers_to_choke@.map_values(|a: u64| Command::Send(a, Message::Choke));
    let unchokes = d.peers_to_unchoke@.map_values(|a: u64| Command::Send(a, Message::Unchoke));
    assert(cmds == chokes + unchokes);
    assert(d.peers_to_choke@.to_set() == c0.difference(c1) && d.peers_to_unchoke@.to_set() == c1.difference(c0)) by {
        let top = choose|top: Seq<u64>| #[trigger] crate::choke::is_top(top, h0.choker().interested(), h0.choker().rates()) && {
            let optimistic = h1.choker().ticks() % h1.choker().cycle() == 0 && exists|p: u64|
                h0.choker().interested().contains(p) && !top.contains(p);
            let unchoked = h1.choker().unchoked().to_set();
            &&& !optimistic ==> unchoked == top.to_set()
            &&& optimistic ==> exists|p: u64|
                h0.choker().interested().contains(p) && !top.contains(p) && unchoked == top.to_set().insert(p)
            &&& d.peers_to_choke@.to_set() == h0.choker().unchoked().to_set().difference(unchoked)
            &&& d.peers_to_unchoke@.to_set() == unchoked.difference(h0.choker().unchoked().to_set())
        };
    }
    assert forall|i: int| 0 <= i < cmds.len() implies exists|p: u64|
        #[trigger] cmds[i] == Command::Send(p, Message::Choke) || cmds[i] == Command::Send(p, Message::Unchoke) by {
        if i < chokes.len() {
            assert(cmds[i] == Command::Send(d.peers_to_choke@[i], Message::Choke));
        } else {
            assert(cmds[i] == Command::Send(d.peers_to_unchoke@[i - chokes.len()], Message::Unchoke));
        }
    }
    assert forall|p: u64| #[trigger] cmds.contains(Command::Send(p, Message::Choke)) <==> h0.choker().unchoked().contains(p)
        && !h1.choker().unchoked().contains(p) by {
        if cmds.contains(Command::Send(p, Message::Choke)) {
            let i = cmds.index_of(Command::Send(p, Message::Choke));
            if i < chokes.len() {
                assert(d.peers_to_choke@[i] == p);
                assert(d.peers_to_choke@.to_set().contains(p));
            } else {
                assert(cmds[i] == Command::Send(d.peers_to_unchoke@[i - chokes.len()], Message::Unchoke));
            }
        }
        if h0.choker().unchoked().contains(p) && !h1.choker().unchoked().contains(p) {
            assert(c0.contains(p) && !c1.contains(p));
            assert(d.peers_to_choke@.to_set().contains(p));
            let j = d.peers_to_choke@.index_of(p);
            assert(cmds[j] == Command::Send(p, Message::Choke));
        }
    }
    assert forall|p: u64| #[trigger] cmds.contains(Command::Send(p, Message::Unchoke)) <==> !h0.choker().unchoked().contains(p)
        && h1.choker().unchoked().contains(p) by {
        if cmds.contains(Command::Send(p, Message::Unchoke)) {
            let i = cmds.index_of(Command::Send(p, Message::Unchoke));
            if i < chokes.len() {
                assert(cmds[i] == Command::Send(d.peers_to_choke@[i], Message::Choke));
            } else {
                assert(d.peers_to_unchoke@[i - chokes.len()] == p);
                assert(d.peers_to_unchoke@.to_set().contains(p));
            }
        }
        if !h0.choker().unchoked().contains(p) && h1.choker().unchoked().contains(p) {
            assert(!c0.contains(p) && c1.contains(p));
            assert(d.peers_to_unchoke@.to_set().contains(p));
            let j = d.peers_to_unchoke@.index_of(p);
            assert(cmds[chokes.len() + j] == Command::Send(p, Message::Unchoke));
        }
    }
}

} // verus!
