//! Server-assigned timestamps of remote changesets and the progress marker
//! that the work loop uses to decide when a barrier may be acknowledged.
use vstd::prelude::*;

verus! {

/// The authoritative time of a remote changeset: the server's milliseconds and
/// the event's unique identifier.
pub struct Timestamp {
    /// The relative timestamp order of the event.
    pub ts_ms: u64,
    /// A unique identifier for that event.
    pub unique: String,
}

/// Mathematical value of a timestamp.
pub struct TimestampV {
    pub ts_ms: u64,
    pub unique: Seq<char>,
}

impl View for Timestamp {
    type V = TimestampV;

    open spec fn view(&self) -> TimestampV {
        TimestampV { ts_ms: self.ts_ms, unique: self.unique@ }
    }
}

/// `a ≤ b` for remote timestamps: an earlier server time, or the very same event.
/// Two different events at the same millisecond are incomparable.
pub open spec fn ts_le(a: TimestampV, b: TimestampV) -> bool {
    a.ts_ms < b.ts_ms || a == b
}

/// `a ≤ b` for optional remote progress: nothing precedes everything.
pub open spec fn remote_le(a: Option<TimestampV>, b: Option<TimestampV>) -> bool {
    match (a, b) {
        (None, _) => true,
        (Some(_), None) => false,
        (Some(x), Some(y)) => ts_le(x, y),
    }
}

impl Timestamp {
    /// Copies the timestamp.
    pub fn duplicate(&self) -> (r: Timestamp)
        ensures
            r@ == self@,
    {
        Timestamp { ts_ms: self.ts_ms, unique: self.unique.clone() }
    }

    /// Whether two timestamps name the same event.
    pub fn same(&self, other: &Timestamp) -> (r: bool)
        ensures
            r == (self@ == other@),
    {
        self.ts_ms == other.ts_ms && self.unique == other.unique
    }

    /// The partial order of remote timestamps, see [`ts_le`].
    pub fn le(&self, other: &Timestamp) -> (r: bool)
        ensures
            r == ts_le(self@, other@),
    {
        self.ts_ms < other.ts_ms || self.same(other)
    }
}

/// Copies an optional timestamp.
pub fn duplicate_opt(t: &Option<Timestamp>) -> (r: Option<Timestamp>)
    ensures
        opt_view(r) == opt_view(*t),
{
    match t {
        None => None,
        Some(x) => Some(x.duplicate()),
    }
}

/// The view of an optional timestamp.
pub open spec fn opt_view(t: Option<Timestamp>) -> Option<TimestampV> {
    match t {
        None => None,
        Some(x) => Some(x@),
    }
}

/// Executable form of [`remote_le`].
pub fn opt_le(a: &Option<Timestamp>, b: &Option<Timestamp>) -> (r: bool)
    ensures
        r == remote_le(opt_view(*a), opt_view(*b)),
{
    match (a, b) {
        (None, _) => true,
        (Some(_), None) => false,
        (Some(x), Some(y)) => x.le(y),
    }
}

/// Progress marker: a count of local changesets and the latest remote timestamp.
pub struct AwaitTs {
    pub local: u64,
    pub remote: Option<Timestamp>,
}

/// Mathematical value of a progress marker.
pub struct AwaitTsV {
    pub local: u64,
    pub remote: Option<TimestampV>,
}

impl View for AwaitTs {
    type V = AwaitTsV;

    open spec fn view(&self) -> AwaitTsV {
        AwaitTsV { local: self.local, remote: opt_view(self.remote) }
    }
}

/// `a ≤ b` componentwise; pairs that fail both ways are incomparable.
pub open spec fn await_le(a: AwaitTsV, b: AwaitTsV) -> bool {
    a.local <= b.local && remote_le(a.remote, b.remote)
}

/// Strict progress: `a ≠ b` and `a ≤ b`.
pub open spec fn await_lt(a: AwaitTsV, b: AwaitTsV) -> bool {
    a != b && await_le(a, b)
}

/// Neither marker precedes or equals the other.
pub open spec fn incomparable(a: AwaitTsV, b: AwaitTsV) -> bool {
    !await_le(a, b) && !await_le(b, a)
}

impl AwaitTs {
    /// The marker before any progress.
    pub fn start() -> (r: AwaitTs)
        ensures
            r@ == (AwaitTsV { local: 0, remote: None }),
    {
        AwaitTs { local: 0, remote: None }
    }

    /// Copies the marker.
    pub fn duplicate(&self) -> (r: AwaitTs)
        ensures
            r@ == self@,
    {
        AwaitTs { local: self.local, remote: duplicate_opt(&self.remote) }
    }

    /// Whether `self` strictly precedes `other`, see [`await_lt`].
    pub fn lt(&self, other: &AwaitTs) -> (r: bool)
        ensures
            r == await_lt(self@, other@),
    {
        let same_remote = match (&self.remote, &other.remote) {
            (None, None) => true,
            (Some(x), Some(y)) => x.same(y),
            _ => false,
        };
        let equal = self.local == other.local && same_remote;
        !equal && self.local <= other.local && opt_le(&self.remote, &other.remote)
    }
}

/// Incomparable markers never stand in strict progress of one another.
pub proof fn lemma_incomparable_not_lt(a: AwaitTsV, b: AwaitTsV)
    requires
        incomparable(a, b),
    ensures
        !await_lt(a, b),
        !await_lt(b, a),
{
}

} // verus!
