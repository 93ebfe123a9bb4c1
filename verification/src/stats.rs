use vstd::prelude::*;

verus! {

/// An amount of bytes moved over a span of time, in nanoseconds.
#[derive(Debug, PartialEq, Eq, Structural, Clone, Copy, Default)]
pub struct TransferRate(pub u64, pub u64);

/// How a rate ranks: a rate of no bytes over no time (not a number) below
/// every other, then rates over some time by bytes per nanosecond, then
/// rates of some bytes over no time (infinite) above every other.
pub open spec fn rate_rank(r: TransferRate) -> int {
    if r.1 == 0 {
        if r.0 == 0 { 0 } else { 2 }
    } else {
        1
    }
}

/// Whether rate `a` is lower than rate `b`, by bytes per unit of time.
pub open spec fn rate_lt(a: TransferRate, b: TransferRate) -> bool {
    rate_rank(a) < rate_rank(b) || (rate_rank(a) == 1 && rate_rank(b) == 1 && a.0 * b.1 < b.0 * a.1)
}

/// Whether rate `a` is as fast as rate `b`.
pub open spec fn rate_eq(a: TransferRate, b: TransferRate) -> bool {
    !rate_lt(a, b) && !rate_lt(b, a)
}

/// `a * b` for rates, without overflow.
fn cross(a: u64, b: u64) -> (r: u128)
    ensures
        r == a * b,
{
    proof {
        assert(a * b <= u64::MAX * u64::MAX) by (nonlinear_arith);
    }
    (a as u128) * (b as u128)
}

impl TransferRate {
    /// No bytes over no time.
    pub fn empty() -> (r: Self)
        ensures
            r == TransferRate(0, 0),
    {
        TransferRate(0, 0)
    }

    /// The bytes and the times added up.
    pub fn add(self, rhs: Self) -> (r: Self)
        requires
            self.0 + rhs.0 <= u64::MAX,
            self.1 + rhs.1 <= u64::MAX,
        ensures
            r == TransferRate((self.0 + rhs.0) as u64, (self.1 + rhs.1) as u64),
    {
        TransferRate(self.0 + rhs.0, self.1 + rhs.1)
    }

    /// Adds another rate's bytes and time to this one.
    pub fn add_assign(&mut self, rhs: Self)
        requires
            old(self).0 + rhs.0 <= u64::MAX,
            old(self).1 + rhs.1 <= u64::MAX,
        ensures
            *final(self) == TransferRate((old(self).0 + rhs.0) as u64, (old(self).1 + rhs.1) as u64),
    {
        self.0 = self.0 + rhs.0;
        self.1 = self.1 + rhs.1;
    }

    /// Whether this rate is lower than another.
    pub fn is_slower(&self, other: &Self) -> (r: bool)
        ensures
            r == rate_lt(*self, *other),
    {
        let a = if self.1 == 0 { if self.0 == 0 { 0u8 } else { 2u8 } } else { 1u8 };
        let b = if other.1 == 0 { if other.0 == 0 { 0u8 } else { 2u8 } } else { 1u8 };
        if a != b {
            a < b
        } else if a == 1 {
            cross(self.0, other.1) < cross(other.0, self.1)
        } else {
            false
        }
    }

    /// How this rate compares with another, by bytes per unit of time.
    pub fn rate_cmp(&self, other: &Self) -> (r: std::cmp::Ordering)
        ensures
            (r == std::cmp::Ordering::Less) == rate_lt(*self, *other),
            (r == std::cmp::Ordering::Greater) == rate_lt(*other, *self),
    {
        if self.is_slower(other) {
            std::cmp::Ordering::Less
        } else if other.is_slower(self) {
            std::cmp::Ordering::Greater
        } else {
            std::cmp::Ordering::Equal
        }
    }
}

/// The rates of one peer.
#[derive(Debug, Clone, Copy, Default, PartialEq, Eq, Structural)]
pub struct PeerStats {
    pub upload: TransferRate,
    pub download: TransferRate,
}

impl PeerStats {
    /// Adds another peer's rates to these.
    pub fn add_assign(&mut self, rhs: Self)
        requires
            old(self).upload.0 + rhs.upload.0 <= u64::MAX,
            old(self).upload.1 + rhs.upload.1 <= u64::MAX,
            old(self).download.0 + rhs.download.0 <= u64::MAX,
            old(self).download.1 + rhs.download.1 <= u64::MAX,
        ensures
            final(self).upload == TransferRate(
                (old(self).upload.0 + rhs.upload.0) as u64,
                (old(self).upload.1 + rhs.upload.1) as u64,
            ),
            final(self).download == TransferRate(
                (old(self).download.0 + rhs.download.0) as u64,
                (old(self).download.1 + rhs.download.1) as u64,
            ),
    {
        self.upload.add_assign(rhs.upload);
        self.download.add_assign(rhs.download);
    }
}

/// The state of a download as a whole.
#[derive(Debug, PartialEq, Eq, Structural, Clone, Copy)]
pub struct GlobalStats {
    pub total_pieces: usize,
    pub completed_pieces: usize,
    pub connected_peers: usize,
    pub uploaded: usize,
    pub downloaded: usize,
    pub upload_rate: TransferRate,
    pub download_rate: TransferRate,
}

impl GlobalStats {
    /// The state at the start of a download: no peers, nothing moved.
    pub fn new(total_pieces: usize, completed_pieces: usize) -> (s: Self)
        ensures
            s == (GlobalStats {
                total_pieces,
                completed_pieces,
                connected_peers: 0,
                uploaded: 0,
                downloaded: 0,
                upload_rate: TransferRate(0, 0),
                download_rate: TransferRate(0, 0),
            }),
    {
        Self {
            total_pieces,
            completed_pieces,
            connected_peers: 0,
            uploaded: 0,
            downloaded: 0,
            upload_rate: TransferRate::empty(),
            download_rate: TransferRate::empty(),
        }
    }

    /// Whether every piece is complete.
    pub fn download_complete(&self) -> (r: bool)
        ensures
            r == (self.completed_pieces == self.total_pieces),
    {
        self.completed_pieces == self.total_pieces
    }
}

/// No rate is lower than itself.
pub proof fn lemma_rate_lt_irreflexive(a: TransferRate)
    ensures
        !rate_lt(a, a),
{
}

/// Comparing rates is transitive: "not lower" chains, so rates rank as a
/// total preorder.
pub proof fn lemma_rate_not_lt_transitive(a: TransferRate, b: TransferRate, c: TransferRate)
    requires
        !rate_lt(a, b),
        !rate_lt(b, c),
    ensures
        !rate_lt(a, c),
{
    if rate_rank(a) == 1 && rate_rank(b) == 1 && rate_rank(c) == 1 {
        let (a0, a1, b0, b1, c0, c1) = (a.0 as int, a.1 as int, b.0 as int, b.1 as int, c.0 as int, c.1 as int);
        assert(a0 * c1 >= c0 * a1) by (nonlinear_arith)
            requires
                a0 * b1 >= b0 * a1,
                b0 * c1 >= c0 * b1,
                a1 > 0,
                b1 > 0,
                c1 > 0,
                a0 >= 0,
                b0 >= 0,
                c0 >= 0,
        {
            assert(a0 * b1 * c1 >= b0 * a1 * c1);
            assert(b0 * c1 * a1 >= c0 * b1 * a1);
            assert(a0 * c1 * b1 >= c0 * a1 * b1);
        }
    }
}

/// A lower rate is lower than every rate it is not above.
pub proof fn lemma_rate_lt_transitive(a: TransferRate, b: TransferRate, c: TransferRate)
    requires
        rate_lt(a, b),
        rate_lt(b, c),
    ensures
        rate_lt(a, c),
{
    if rate_rank(a) == 1 && rate_rank(b) == 1 && rate_rank(c) == 1 {
        let (a0, a1, b0, b1, c0, c1) = (a.0 as int, a.1 as int, b.0 as int, b.1 as int, c.0 as int, c.1 as int);
        assert(a0 * c1 < c0 * a1) by (nonlinear_arith)
            requires
                a0 * b1 < b0 * a1,
                b0 * c1 < c0 * b1,
                a1 > 0,
                b1 > 0,
                c1 > 0,
                a0 >= 0,
                b0 >= 0,
                c0 >= 0,
        {
            assert(a0 * b1 * c1 < b0 * a1 * c1);
            assert(b0 * c1 * a1 < c0 * b1 * a1);
            assert(a0 * c1 * b1 < c0 * a1 * b1);
        }
    }
}

} // verus!
