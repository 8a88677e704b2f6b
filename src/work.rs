//! The single-owner work loop: it stages local and remote changesets, absorbs
//! them into the database under the file lock, and acknowledges each
//! producer's barrier once everything the producer sent before it is on disk.
use vstd::prelude::*;
use crate::db::{apply_all, diffs_view, refresh_spec, times_view, DbError, DbV, PwsafeDb, Rewrite};
use crate::diff::{diff_wf, edits_view, ids_view, Diff, DiffV, RecordEdit};
use crate::timestamp::{await_lt, incomparable, remote_le, lemma_incomparable_not_lt, AwaitTs, AwaitTsV, Timestamp, TimestampV};

verus! {

/// A changeset as received, before it is paired with the local pepper.
pub struct DiffPayload {
    pub delete: Vec<Vec<u8>>,
    pub edit: Vec<RecordEdit>,
}

/// What producers send to the work loop. A payload is `None` where it could
/// not be decoded.
pub enum Message {
    /// A locally-authored changeset.
    Diff(Option<DiffPayload>),
    /// A changeset observed on the transport, with its server timestamp.
    Remote(Option<DiffPayload>, Timestamp),
    /// A barrier of producer `id` at sync point `point`.
    Sync(u64, u64),
    /// The external lock may have been released.
    Rebase,
}

/// The changeset a payload stands for, under the database's pepper.
pub open spec fn payload_diff(db: DbV, p: DiffPayload) -> DiffV {
    DiffV { pepper: db.base.pepper, delete: ids_view(p.delete@), edit: edits_view(p.edit@) }
}

/// A barrier waiting for progress: who asked, what must be on disk, and the
/// sync point to acknowledge.
pub struct Waiter {
    pub id: u64,
    pub need: AwaitTs,
    pub point: u64,
}

/// Mathematical value of a barrier.
pub struct WaiterV {
    pub id: u64,
    pub need: AwaitTsV,
    pub point: u64,
}

impl View for Waiter {
    type V = WaiterV;

    open spec fn view(&self) -> WaiterV {
        WaiterV { id: self.id, need: self.need@, point: self.point }
    }
}

/// An acknowledgement: producer `id` may proceed past sync point `point`.
#[derive(Clone, Copy, Debug, PartialEq, Eq)]
pub struct Ack {
    pub id: u64,
    pub point: u64,
}

/// Mathematical value of an acknowledgement.
pub struct AckV {
    pub id: u64,
    pub point: u64,
}

impl View for Ack {
    type V = AckV;

    open spec fn view(&self) -> AckV {
        AckV { id: self.id, point: self.point }
    }
}

/// The values of a list of barriers.
pub open spec fn waiters_view(v: Seq<Waiter>) -> Seq<WaiterV> {
    v.map_values(|w: Waiter| w@)
}

/// The values of a list of acknowledgements.
pub open spec fn acks_view(v: Seq<Ack>) -> Seq<AckV> {
    v.map_values(|a: Ack| a@)
}

/// Index of the first entry of producer `id` at or after `i`, or the length.
pub open spec fn ack_index(v: Seq<AckV>, id: u64, i: nat) -> nat
    decreases v.len() - i,
{
    if i >= v.len() {
        v.len()
    } else if v[i as int].id == id {
        i
    } else {
        ack_index(v, id, i + 1)
    }
}

/// The sync point recorded for producer `id`, if any.
pub open spec fn point_of(v: Seq<AckV>, id: u64) -> Option<u64> {
    let k = ack_index(v, id, 0);
    if k < v.len() { Some(v[k as int].point) } else { None }
}

proof fn lemma_ack_index(v: Seq<AckV>, id: u64, i: nat)
    ensures
        i <= v.len() ==> i <= ack_index(v, id, i) <= v.len(),
        ack_index(v, id, i) < v.len() ==> v[ack_index(v, id, i) as int].id == id,
        forall|j: int| i <= j < ack_index(v, id, i) ==> v[j].id != id,
    decreases v.len() - i,
{
    if i < v.len() && v[i as int].id != id {
        lemma_ack_index(v, id, i + 1);
    }
}

/// Lists with the same producers in the same places look up alike.
proof fn lemma_ack_index_same_ids(v: Seq<AckV>, w: Seq<AckV>, id: u64, i: nat)
    requires
        v.len() == w.len(),
        forall|j: int| 0 <= j < v.len() ==> v[j].id == w[j].id,
    ensures
        ack_index(v, id, i) == ack_index(w, id, i),
    decreases v.len() - i,
{
    if i < v.len() && v[i as int].id != id {
        lemma_ack_index_same_ids(v, w, id, i + 1);
    }
}

/// Appending an entry for a producer not yet listed leaves the others' lookups alone.
proof fn lemma_ack_index_push(v: Seq<AckV>, a: AckV, id: u64, i: nat)
    requires
        i <= v.len(),
    ensures
        ack_index(v, id, i) < v.len() ==> ack_index(v.push(a), id, i) == ack_index(v, id, i),
        ack_index(v, id, i) >= v.len() && a.id != id ==> ack_index(v.push(a), id, i) == v.len() + 1,
        ack_index(v, id, i) >= v.len() && a.id == id ==> ack_index(v.push(a), id, i) == v.len(),
    decreases v.len() - i,
{
    if i < v.len() && v[i as int].id != id {
        lemma_ack_index_push(v, a, id, i + 1);
    } else if i == v.len() {
        assert(v.push(a)[i as int] == a);
        assert(ack_index(v.push(a), id, i + 1) == v.len() + 1);
    } else {
        assert(v.push(a)[i as int] == v[i as int]);
    }
}

/// The recorded sync point of producer `id`.
fn get_point(v: &Vec<Ack>, id: u64) -> (r: Option<u64>)
    ensures
        r == point_of(acks_view(v@), id),
{
    let mut k: usize = 0;
    while k < v.len() && v[k].id != id
        invariant
            0 <= k <= v@.len(),
            ack_index(acks_view(v@), id, 0) == ack_index(acks_view(v@), id, k as nat),
        decreases v@.len() - k,
    {
        k = k + 1;
    }
    if k < v.len() { Some(v[k].point) } else { None }
}

/// At most one entry per producer.
pub open spec fn producers_distinct(v: Seq<AckV>) -> bool {
    forall|i: int, j: int| 0 <= i < j < v.len() ==> v[i].id != v[j].id
}

/// Records sync point `p` for producer `id`.
fn set_point(v: &mut Vec<Ack>, id: u64, p: u64)
    ensures
        forall|x: u64| #[trigger] point_of(acks_view(final(v)@), x) == if x == id { Some(p) } else { point_of(acks_view(old(v)@), x) },
        producers_distinct(acks_view(old(v)@)) ==> producers_distinct(acks_view(final(v)@)),
{
    let ghost ov = acks_view(v@);
    let mut k: usize = 0;
    while k < v.len() && v[k].id != id
        invariant
            0 <= k <= v@.len(),
            ov == acks_view(v@),
            ack_index(ov, id, 0) == ack_index(ov, id, k as nat),
        decreases v@.len() - k,
    {
        k = k + 1;
    }
    proof { lemma_ack_index(ov, id, 0); }
    if k < v.len() {
        v.set(k, Ack { id, point: p });
        proof {
            let nv = acks_view(v@);
            assert(nv =~= ov.update(k as int, AckV { id, point: p }));
            assert forall|i: int, j: int| 0 <= i < j < nv.len() && producers_distinct(ov) implies nv[i].id != nv[j].id by {
                assert(nv[i].id == ov[i].id && nv[j].id == ov[j].id);
            }
            assert forall|x: u64| #[trigger] point_of(nv, x) == if x == id { Some(p) } else { point_of(ov, x) } by {
                lemma_ack_index_same_ids(nv, ov, x, 0);
                lemma_ack_index(ov, x, 0);
                if x != id && ack_index(ov, x, 0) < ov.len() {
                    assert(ack_index(ov, x, 0) != k);
                }
            }
        }
    } else {
        v.push(Ack { id, point: p });
        proof {
            let nv = acks_view(v@);
            assert(nv =~= ov.push(AckV { id, point: p }));
            assert forall|i: int, j: int| 0 <= i < j < nv.len() && producers_distinct(ov) implies nv[i].id != nv[j].id by {
                if j == nv.len() - 1 {
                    assert(nv[i] == ov[i]);
                }
            }
            assert forall|x: u64| #[trigger] point_of(nv, x) == if x == id { Some(p) } else { point_of(ov, x) } by {
                lemma_ack_index(ov, x, 0);
                lemma_ack_index_push(ov, AckV { id, point: p }, x, 0);
            }
        }
    }
}

/// The barriers whose need is met against progress `applied`, and those that
/// still wait: taking the barriers in order, one is met when no earlier
/// barrier of its producer still waits and its need strictly precedes `applied`.
pub open spec fn select(ws: Seq<WaiterV>, applied: AwaitTsV) -> (Seq<WaiterV>, Seq<WaiterV>)
    decreases ws.len(),
{
    if ws.len() == 0 {
        (Seq::empty(), Seq::empty())
    } else {
        let (met, kept) = select(ws.drop_last(), applied);
        let w = ws.last();
        if !blocked(kept, w.id) && await_lt(w.need, applied) {
            (met.push(w), kept)
        } else {
            (met, kept.push(w))
        }
    }
}

/// Whether a barrier of producer `id` is among `ws`.
pub open spec fn blocked(ws: Seq<WaiterV>, id: u64) -> bool {
    exists|i: int| 0 <= i < ws.len() && (#[trigger] ws[i]).id == id
}

/// The latest sync point acknowledged to producer `x` in `out`, else `dflt`.
pub open spec fn newest(out: Seq<AckV>, x: u64, dflt: Option<u64>) -> Option<u64>
    decreases out.len(),
{
    if out.len() == 0 {
        dflt
    } else if out.last().id == x {
        Some(out.last().point)
    } else {
        newest(out.drop_last(), x, dflt)
    }
}

/// The acknowledgements published for met barriers: only those that raise
/// the producer's acknowledged sync point.
pub open spec fn publish(met: Seq<WaiterV>, acked: Seq<AckV>) -> Seq<AckV>
    decreases met.len(),
{
    if met.len() == 0 {
        Seq::empty()
    } else {
        let prev = publish(met.drop_last(), acked);
        let w = met.last();
        if newest(prev, w.id, point_of(acked, w.id)) matches Some(p) && p >= w.point {
            prev
        } else {
            prev.push(AckV { id: w.id, point: w.point })
        }
    }
}

/// Why the work loop stops.
#[derive(Debug, PartialEq, Eq)]
pub enum LoopError {
    /// A remote changeset could not be decoded.
    RemoteDecode,
    /// A remote timestamp went back in time.
    NonCausal,
    /// The count of local changesets reached its limit.
    Overflow,
}

/// State of the work loop across iterations.
pub struct WorkLoop {
    applied: AwaitTs,
    pending: AwaitTs,
    in_db: AwaitTs,
    waiters: Vec<Waiter>,
    acked: Vec<Ack>,
    locals: Vec<Diff>,
    remotes: Vec<Diff>,
    remote_ts: Vec<Timestamp>,
    lock_exists: bool,
}

/// Mathematical value of the work loop.
pub struct LoopV {
    /// Progress durably in the file.
    pub applied: AwaitTsV,
    /// Progress observed.
    pub pending: AwaitTsV,
    /// Progress taken into the database, on disk after the next rewrite.
    pub in_db: AwaitTsV,
    pub waiters: Seq<WaiterV>,
    /// The highest sync point acknowledged to each producer.
    pub acked: Seq<AckV>,
    pub locals: Seq<crate::diff::DiffV>,
    pub remotes: Seq<crate::diff::DiffV>,
    pub remote_ts: Seq<TimestampV>,
    pub lock_exists: bool,
}

impl View for WorkLoop {
    type V = LoopV;

    closed spec fn view(&self) -> LoopV {
        LoopV {
            applied: self.applied@,
            pending: self.pending@,
            in_db: self.in_db@,
            waiters: waiters_view(self.waiters@),
            acked: acks_view(self.acked@),
            locals: diffs_view(self.locals@),
            remotes: diffs_view(self.remotes@),
            remote_ts: times_view(self.remote_ts@),
            lock_exists: self.lock_exists,
        }
    }
}

/// The invariant of the loop's state.
pub open spec fn loop_wf(l: LoopV) -> bool {
    &&& producers_distinct(l.acked)
    &&& l.remotes.len() == l.remote_ts.len()
    &&& l.pending.local == l.in_db.local + l.locals.len()
    &&& l.remotes.len() == 0 ==> l.pending.remote == l.in_db.remote
    &&& l.remotes.len() > 0 ==> l.pending.remote == Some(l.remote_ts.last())
}

impl WorkLoop {
    /// The invariant holds.
    pub closed spec fn wf(&self) -> bool {
        loop_wf(self@)
    }

    /// A loop that has seen nothing.
    pub fn new() -> (r: WorkLoop)
        ensures
            r.wf(),
            r@.applied == (AwaitTsV { local: 0, remote: None }),
            r@.pending == r@.applied,
            r@.in_db == r@.applied,
            r@.waiters.len() == 0,
            r@.acked.len() == 0,
            r@.locals.len() == 0,
            r@.remotes.len() == 0,
            !r@.lock_exists,
    {
        let r = WorkLoop {
            applied: AwaitTs::start(),
            pending: AwaitTs::start(),
            in_db: AwaitTs::start(),
            waiters: Vec::new(),
            acked: Vec::new(),
            locals: Vec::new(),
            remotes: Vec::new(),
            remote_ts: Vec::new(),
            lock_exists: false,
        };
        proof {
            assert(r@.waiters =~= Seq::empty());
            assert(r@.acked =~= Seq::empty());
            assert(r@.remotes =~= Seq::empty());
            assert(r@.remote_ts =~= Seq::empty());
            assert(r@.locals =~= Seq::empty());
        }
        r
    }

    /// Whether a rewrite should be attempted: the external lock was not seen
    /// held since the last rebase hint.
    pub fn wants_lock(&self) -> (r: bool)
        ensures
            r == !self@.lock_exists,
    {
        !self.lock_exists
    }

    /// Records that the external editor holds the lock.
    pub fn lock_busy(&mut self)
        ensures
            final(self)@ == (LoopV { lock_exists: true, ..old(self)@ }),
            final(self).wf() == old(self).wf(),
    {
        self.lock_exists = true;
    }

    /// Progress durably in the file.
    pub fn applied(&self) -> (r: AwaitTs)
        ensures
            r@ == self@.applied,
    {
        self.applied.duplicate()
    }

    /// Progress observed.
    pub fn pending(&self) -> (r: AwaitTs)
        ensures
            r@ == self@.pending,
    {
        self.pending.duplicate()
    }

    /// Takes one message in receipt order.
    pub fn receive(&mut self, db: &PwsafeDb, msg: Message) -> (r: Result<(), LoopError>)
        requires
            old(self).wf(),
        ensures
            final(self).wf(),
            match msg {
                Message::Diff(None) => r is Ok && final(self)@ == old(self)@,
                Message::Diff(Some(p)) => if !diff_wf(payload_diff(db@, p)) {
                    r is Ok && final(self)@ == old(self)@
                } else if old(self)@.pending.local == u64::MAX {
                    r == Err::<(), LoopError>(LoopError::Overflow) && final(self)@ == old(self)@
                } else {
                    r is Ok && final(self)@ == (LoopV {
                        pending: AwaitTsV { local: (old(self)@.pending.local + 1) as u64, ..old(self)@.pending },
                        locals: old(self)@.locals.push(payload_diff(db@, p)),
                        ..old(self)@
                    })
                },
                Message::Remote(None, _) => r == Err::<(), LoopError>(LoopError::RemoteDecode) && final(self)@ == old(self)@,
                Message::Remote(Some(p), ts) => if old(self)@.pending.remote matches Some(prev) && prev.ts_ms > ts.ts_ms {
                    r == Err::<(), LoopError>(LoopError::NonCausal) && final(self)@ == old(self)@
                } else if !diff_wf(payload_diff(db@, p)) {
                    r == Err::<(), LoopError>(LoopError::RemoteDecode) && final(self)@ == old(self)@
                } else {
                    r is Ok && final(self)@ == (LoopV {
                        pending: AwaitTsV { remote: Some(ts@), ..old(self)@.pending },
                        remotes: old(self)@.remotes.push(payload_diff(db@, p)),
                        remote_ts: old(self)@.remote_ts.push(ts@),
                        ..old(self)@
                    })
                },
                Message::Sync(id, point) => r is Ok && final(self)@ == (LoopV {
                    waiters: old(self)@.waiters.push(WaiterV { id, need: old(self)@.pending, point }),
                    ..old(self)@
                }),
                Message::Rebase => r is Ok && final(self)@ == (LoopV { lock_exists: false, ..old(self)@ }),
            },
    {
        match msg {
            Message::Diff(None) => Ok(()),
            Message::Diff(Some(p)) => {
                let d = match db.diff(p.delete, p.edit) {
                    Some(d) => d,
                    None => {
                        return Ok(());
                    },
                };
                if self.pending.local == u64::MAX {
                    return Err(LoopError::Overflow);
                }
                self.pending.local = self.pending.local + 1;
                let ghost prev = self.locals@;
                self.locals.push(d);
                assert(diffs_view(self.locals@) =~= diffs_view(prev).push(d@));
                Ok(())
            },
            Message::Remote(None, _) => Err(LoopError::RemoteDecode),
            Message::Remote(Some(p), ts) => {
                match &self.pending.remote {
                    Some(prev) => {
                        if prev.ts_ms > ts.ts_ms {
                            return Err(LoopError::NonCausal);
                        }
                    },
                    None => {},
                }
                let d = match db.diff(p.delete, p.edit) {
                    Some(d) => d,
                    None => {
                        return Err(LoopError::RemoteDecode);
                    },
                };
                self.pending.remote = Some(ts.duplicate());
                let ghost prev_r = self.remotes@;
                let ghost prev_t = self.remote_ts@;
                self.remotes.push(d);
                self.remote_ts.push(ts);
                assert(diffs_view(self.remotes@) =~= diffs_view(prev_r).push(d@));
                assert(times_view(self.remote_ts@) =~= times_view(prev_t).push(ts@));
                Ok(())
            },
            Message::Sync(id, point) => {
                let ghost old_ws = waiters_view(self.waiters@);
                let w = Waiter { id, need: self.pending.duplicate(), point };
                self.waiters.push(w);
                assert(waiters_view(self.waiters@) =~= old_ws.push(WaiterV { id, need: self@.pending, point }));
                Ok(())
            },
            Message::Rebase => {
                self.lock_exists = false;
                Ok(())
            },
        }
    }

    /// The work under the file lock: re-read the file, move the staged local
    /// changesets into the database and absorb the staged remote changesets
    /// into the remote base. Where the file cannot be read nothing changes and
    /// the staged changesets wait for the next try. The caller then renders
    /// the database, with its state as it now stands, by
    /// [`PwsafeDb::prepare_rewrite`].
    pub fn absorb(&mut self, db: &mut PwsafeDb, file: &[u8]) -> (r: Result<(), DbError>)
        requires
            old(self).wf(),
            old(db).wf(),
        ensures
            final(self).wf(),
            final(db).wf(),
            match refresh_spec(old(db)@, file@) {
                None => r is Err && final(self)@ == old(self)@ && final(db)@ == old(db)@,
                Some(d1) => {
                    &&& r is Ok
                    &&& final(db)@ == (DbV {
                        locals: d1.locals + old(self)@.locals,
                        remote: apply_all(d1.remote, old(self)@.remotes),
                        remote_until: if old(self)@.remote_ts.len() == 0 { d1.remote_until } else { Some(old(self)@.remote_ts.last()) },
                        ..d1
                    })
                    &&& final(self)@ == (LoopV {
                        in_db: old(self)@.pending,
                        locals: Seq::empty(),
                        remotes: Seq::empty(),
                        remote_ts: Seq::empty(),
                        ..old(self)@
                    })
                },
            },
    {
        match db.refresh(file) {
            Ok(_) => {},
            Err(e) => {
                return Err(e);
            },
        }
        let ghost d1 = db@;
        let mut taken: Vec<Diff> = Vec::new();
        std::mem::swap(&mut taken, &mut self.locals);
        let ghost lv = diffs_view(taken@);
        let mut i: usize = 0;
        while i < taken.len()
            invariant
                lv == diffs_view(taken@),
                0 <= i <= taken@.len(),
                db.wf(),
                db@ == (DbV { locals: d1.locals + lv.subrange(0, i as int), ..d1 }),
            decreases taken@.len() - i,
        {
            let d = taken[i].duplicate();
            db.apply(d);
            assert(d1.locals + lv.subrange(0, i + 1) =~= (d1.locals + lv.subrange(0, i as int)).push(lv[i as int]));
            i = i + 1;
        }
        assert(lv.subrange(0, taken@.len() as int) =~= lv);
        db.rebase(&self.remotes, &self.remote_ts);
        self.in_db = self.pending.duplicate();
        self.remotes = Vec::new();
        self.remote_ts = Vec::new();
        proof {
            assert(self@.locals =~= Seq::empty());
            assert(self@.remotes =~= Seq::empty());
            assert(self@.remote_ts =~= Seq::empty());
        }
        Ok(())
    }

    /// Records that a rewrite reached the disk: the database adopts its
    /// fingerprint and everything taken into the database is now applied.
    pub fn rewrite_done(&mut self, db: &mut PwsafeDb, rw: Rewrite)
        requires
            rw.wf(),
        ensures
            final(db).wf(),
            final(db)@ == (DbV { base: rw.base(), ..old(db)@ }),
            final(self)@ == (LoopV { applied: old(self)@.in_db, ..old(self)@ }),
            final(self).wf() == old(self).wf(),
    {
        db.finish_rewrite(rw);
        self.applied = self.in_db.duplicate();
    }

    /// Pops every barrier whose need is met and publishes the acknowledgements
    /// that raise a producer's acknowledged sync point.
    pub fn take_acks(&mut self) -> (r: Vec<Ack>)
        requires
            old(self).wf(),
        ensures
            final(self).wf(),
            final(self)@ == (LoopV { waiters: select(old(self)@.waiters, old(self)@.applied).1, acked: final(self)@.acked, ..old(self)@ }),
            acks_view(r@) == publish(select(old(self)@.waiters, old(self)@.applied).0, old(self)@.acked),
            forall|x: u64| #[trigger] point_of(final(self)@.acked, x) == newest(acks_view(r@), x, point_of(old(self)@.acked, x)),
            // Each producer's acknowledgements strictly increase, starting above its last one.
            forall|i: int, j: int| 0 <= i < j < r@.len() && r@[i].id == r@[j].id ==> #[trigger] r@[i].point < #[trigger] r@[j].point,
            forall|i: int| 0 <= i < r@.len() ==> (point_of(old(self)@.acked, (#[trigger] r@[i]).id) matches Some(p) ==> p < r@[i].point),
            // An acknowledgement answers a barrier whose need strictly precedes the applied
            // progress, as do the needs of all earlier barriers of its producer.
            forall|i: int| 0 <= i < r@.len() ==> exists|j: int| 0 <= j < old(self)@.waiters.len()
                && (#[trigger] old(self)@.waiters[j]).id == (#[trigger] r@[i]).id && old(self)@.waiters[j].point == r@[i].point
                && await_lt(old(self)@.waiters[j].need, old(self)@.applied)
                && forall|j2: int| 0 <= j2 < j && (#[trigger] old(self)@.waiters[j2]).id == r@[i].id ==>
                    await_lt(old(self)@.waiters[j2].need, old(self)@.applied),
            // A barrier whose need does not strictly precede the applied progress keeps waiting.
            forall|j: int| 0 <= j < old(self)@.waiters.len() && !await_lt((#[trigger] old(self)@.waiters[j]).need, old(self)@.applied) ==>
                exists|k: int| 0 <= k < final(self)@.waiters.len() && final(self)@.waiters[k] == old(self)@.waiters[j],
    {
        let ghost ws = waiters_view(self.waiters@);
        let ghost applied = self.applied@;
        let ghost acked0 = acks_view(self.acked@);
        let ghost l0 = self@;
        let mut kept: Vec<Waiter> = Vec::new();
        let mut out: Vec<Ack> = Vec::new();
        let ghost mut met: Seq<WaiterV> = Seq::empty();
        let mut i: usize = 0;
        while i < self.waiters.len()
            invariant
                ws == waiters_view(self.waiters@),
                applied == self.applied@,
                0 <= i <= ws.len(),
                select(ws.subrange(0, i as int), applied) == (met, waiters_view(kept@)),
                acks_view(out@) == publish(met, acked0),
                forall|x: u64| #[trigger] point_of(acks_view(self.acked@), x) == newest(acks_view(out@), x, point_of(acked0, x)),
                forall|a: int, b: int| 0 <= a < b < out@.len() && out@[a].id == out@[b].id ==> #[trigger] out@[a].point < #[trigger] out@[b].point,
                forall|a: int| 0 <= a < out@.len() ==> (point_of(acked0, (#[trigger] out@[a]).id) matches Some(p) ==> p < out@[a].point),
                forall|a: int| 0 <= a < out@.len() ==> (newest(acks_view(out@), (#[trigger] out@[a]).id, point_of(acked0, out@[a].id)) matches Some(p) && out@[a].point <= p),
                forall|a: int| 0 <= a < out@.len() ==> exists|j: int| 0 <= j < i
                    && (#[trigger] ws[j]).id == (#[trigger] out@[a]).id && ws[j].point == out@[a].point && await_lt(ws[j].need, applied)
                    && forall|j2: int| 0 <= j2 < j && (#[trigger] ws[j2]).id == out@[a].id ==> await_lt(ws[j2].need, applied),
                forall|j: int| 0 <= j < i && !await_lt((#[trigger] ws[j]).need, applied) ==>
                    exists|k: int| 0 <= k < kept@.len() && waiters_view(kept@)[k] == ws[j],
                self.wf(),
                self@ == (LoopV { acked: self@.acked, ..l0 }),
            decreases ws.len() - i,
        {
            let ghost pre = ws.subrange(0, i + 1);
            assert(pre.drop_last() =~= ws.subrange(0, i as int));
            assert(pre.last() == ws[i as int]);
            let w = &self.waiters[i];
            let mut is_blocked = false;
            let mut k: usize = 0;
            while k < kept.len()
                invariant
                    0 <= k <= kept@.len(),
                    is_blocked ==> exists|m: int| 0 <= m < k && (#[trigger] waiters_view(kept@)[m]).id == w.id,
                    !is_blocked ==> forall|m: int| 0 <= m < k ==> (#[trigger] waiters_view(kept@)[m]).id != w.id,
                decreases kept@.len() - k,
            {
                if kept[k].id == w.id {
                    is_blocked = true;
                    assert(waiters_view(kept@)[k as int].id == w.id);
                }
                k = k + 1;
            }
            assert(is_blocked == blocked(waiters_view(kept@), w.id));
            let ghost old_met = met;
            if !is_blocked && w.need.lt(&self.applied) {
                proof {
                    met = met.push(ws[i as int]);
                    assert(met.drop_last() =~= old_met);
                }
                let cur = get_point(&self.acked, w.id);
                let raises = match cur {
                    Some(p) => p < w.point,
                    None => true,
                };
                if raises {
                    let a = Ack { id: w.id, point: w.point };
                    let ghost prev_out = acks_view(out@);
                    let ghost prev_acked = acks_view(self.acked@);
                    out.push(a);
                    set_point(&mut self.acked, a.id, a.point);
                    proof {
                        let ov = acks_view(out@);
                        assert(ov =~= prev_out.push(a@));
                        assert(ov.drop_last() =~= prev_out);
                        assert forall|x: u64| #[trigger] point_of(acks_view(self.acked@), x) == newest(ov, x, point_of(acked0, x)) by {
                            assert(point_of(prev_acked, x) == newest(prev_out, x, point_of(acked0, x)));
                        }
                        assert forall|a1: int, b1: int| 0 <= a1 < b1 < out@.len() && out@[a1].id == out@[b1].id implies #[trigger] out@[a1].point < #[trigger] out@[b1].point by {
                            if b1 == out@.len() - 1 {
                                assert(out@[a1]@ == prev_out[a1]);
                                assert(point_of(prev_acked, w.id) == newest(prev_out, w.id, point_of(acked0, w.id)));
                            }
                        }
                        assert forall|a1: int| 0 <= a1 < out@.len() implies (point_of(acked0, (#[trigger] out@[a1]).id) matches Some(p) ==> p < out@[a1].point) by {
                            if a1 == out@.len() - 1 {
                                lemma_newest_above_default(prev_out, w.id, point_of(acked0, w.id));
                                assert(point_of(prev_acked, w.id) == newest(prev_out, w.id, point_of(acked0, w.id)));
                            }
                        }
                        assert forall|a1: int| 0 <= a1 < out@.len() implies (newest(ov, (#[trigger] out@[a1]).id, point_of(acked0, out@[a1].id)) matches Some(p) && out@[a1].point <= p) by {
                            if a1 < out@.len() - 1 {
                                assert(out@[a1]@ == prev_out[a1]);
                                if out@[a1].id != a.id {
                                    assert(newest(ov, out@[a1].id, point_of(acked0, out@[a1].id)) == newest(prev_out, out@[a1].id, point_of(acked0, out@[a1].id)));
                                }
                            }
                        }
                        assert forall|j2: int| 0 <= j2 < i && (#[trigger] ws[j2]).id == ws[i as int].id implies await_lt(ws[j2].need, applied) by {
                            if !await_lt(ws[j2].need, applied) {
                                let k2 = choose|k2: int| 0 <= k2 < kept@.len() && waiters_view(kept@)[k2] == ws[j2];
                                assert(waiters_view(kept@)[k2].id == w.id);
                            }
                        }
                        assert forall|a1: int| 0 <= a1 < out@.len() implies exists|j: int| 0 <= j < i + 1
                            && (#[trigger] ws[j]).id == (#[trigger] out@[a1]).id && ws[j].point == out@[a1].point && await_lt(ws[j].need, applied)
                            && forall|j2: int| 0 <= j2 < j && (#[trigger] ws[j2]).id == out@[a1].id ==> await_lt(ws[j2].need, applied) by {
                            if a1 == out@.len() - 1 {
                                assert(ws[i as int].id == out@[a1].id);
                            } else {
                                assert(out@[a1]@ == prev_out[a1]);
                            }
                        }
                        assert(point_of(prev_acked, w.id) == newest(prev_out, w.id, point_of(acked0, w.id)));
                        assert(publish(met, acked0) == ov);
                    }
                } else {
                    proof {
                        assert(point_of(acks_view(self.acked@), w.id) == newest(acks_view(out@), w.id, point_of(acked0, w.id)));
                        assert(publish(met, acked0) == acks_view(out@));
                    }
                }
            } else {
                let nw = Waiter { id: w.id, need: w.need.duplicate(), point: w.point };
                let ghost prev_kept = waiters_view(kept@);
                kept.push(nw);
                proof {
                    assert(waiters_view(kept@) =~= prev_kept.push(ws[i as int]));
                    assert forall|j: int| 0 <= j < i + 1 && !await_lt((#[trigger] ws[j]).need, applied) implies
                        exists|k2: int| 0 <= k2 < kept@.len() && waiters_view(kept@)[k2] == ws[j] by {
                        if j == i {
                            assert(waiters_view(kept@)[kept@.len() - 1] == ws[j]);
                        } else {
                            let k2 = choose|k2: int| 0 <= k2 < prev_kept.len() && prev_kept[k2] == ws[j];
                            assert(waiters_view(kept@)[k2] == ws[j]);
                        }
                    }
                }
            }
            i = i + 1;
        }
        assert(ws.subrange(0, ws.len() as int) =~= ws);
        let ghost kv = waiters_view(kept@);
        self.waiters = kept;
        proof {
            assert(self@.waiters == kv);
            assert forall|j: int| 0 <= j < ws.len() && !await_lt((#[trigger] ws[j]).need, applied) implies
                exists|k: int| 0 <= k < kv.len() && kv[k] == ws[j] by {
                let k = choose|k: int| 0 <= k < kv.len() && kv[k] == ws[j];
                assert(kv[k] == ws[j]);
            }
        }
        out
    }
}

/// A producer's latest acknowledgement never falls below the one it had.
proof fn lemma_newest_above_default(out: Seq<AckV>, x: u64, dflt: Option<u64>)
    requires
        forall|a: int| 0 <= a < out.len() && (#[trigger] out[a]).id == x ==> (dflt matches Some(p) ==> p < out[a].point),
    ensures
        dflt matches Some(p) ==> (newest(out, x, dflt) matches Some(q) && p <= q),
    decreases out.len(),
{
    if out.len() > 0 {
        lemma_newest_above_default(out.drop_last(), x, dflt);
    }
}

/// Incomparable progress acknowledges nothing: a barrier whose need is
/// incomparable with the applied progress is not met.
pub proof fn lemma_incomparable_keeps_waiting(w: WaiterV, applied: AwaitTsV)
    requires
        incomparable(w.need, applied),
    ensures
        !await_lt(w.need, applied),
{
    lemma_incomparable_not_lt(w.need, applied);
}

/// Met barriers are barriers of the queue whose need strictly precedes `applied`.
proof fn lemma_select_met(ws: Seq<WaiterV>, applied: AwaitTsV)
    ensures
        forall|k: int| 0 <= k < select(ws, applied).0.len() ==> exists|j: int| 0 <= j < ws.len()
            && #[trigger] select(ws, applied).0[k] == ws[j] && await_lt(ws[j].need, applied),
    decreases ws.len(),
{
    if ws.len() > 0 {
        let pre = ws.drop_last();
        lemma_select_met(pre, applied);
        let met = select(ws, applied).0;
        let mp = select(pre, applied).0;
        assert forall|k: int| 0 <= k < met.len() implies exists|j: int| 0 <= j < ws.len()
            && #[trigger] met[k] == ws[j] && await_lt(ws[j].need, applied) by {
            if k < mp.len() {
                let j = choose|j: int| 0 <= j < pre.len() && #[trigger] mp[k] == pre[j] && await_lt(pre[j].need, applied);
                assert(met[k] == mp[k]);
                assert(ws[j] == pre[j]);
            } else {
                assert(met[k] == ws[ws.len() - 1]);
            }
        }
    }
}

/// Published acknowledgements answer met barriers.
proof fn lemma_publish_from(met: Seq<WaiterV>, acked: Seq<AckV>)
    ensures
        forall|i: int| 0 <= i < publish(met, acked).len() ==> exists|k: int| 0 <= k < met.len()
            && met[k].id == (#[trigger] publish(met, acked)[i]).id && met[k].point == publish(met, acked)[i].point,
    decreases met.len(),
{
    if met.len() > 0 {
        let pre = met.drop_last();
        lemma_publish_from(pre, acked);
        let out = publish(met, acked);
        let op = publish(pre, acked);
        assert forall|i: int| 0 <= i < out.len() implies exists|k: int| 0 <= k < met.len()
            && met[k].id == (#[trigger] out[i]).id && met[k].point == out[i].point by {
            if i < op.len() {
                assert(out[i] == op[i]);
                let k = choose|k: int| 0 <= k < pre.len() && pre[k].id == (#[trigger] op[i]).id && pre[k].point == op[i].point;
                assert(met[k] == pre[k]);
            } else {
                assert(met[met.len() - 1].id == out[i].id);
            }
        }
    }
}

/// No acknowledgement before durability: each acknowledgement that
/// [`WorkLoop::take_acks`] publishes answers a barrier of its producer whose
/// need is covered by the progress on disk. The need is the progress observed
/// when the barrier arrived: the count of local changesets received and the
/// latest remote timestamp. The progress on disk is what the last successful
/// rewrite held: everything [`WorkLoop::absorb`] had taken into the database.
pub proof fn lemma_ack_after_durability(l: LoopV, i: int)
    requires
        0 <= i < publish(select(l.waiters, l.applied).0, l.acked).len(),
    ensures ({
        let a = publish(select(l.waiters, l.applied).0, l.acked)[i];
        exists|j: int| 0 <= j < l.waiters.len() && (#[trigger] l.waiters[j]).id == a.id && l.waiters[j].point == a.point
            && l.waiters[j].need.local <= l.applied.local && remote_le(l.waiters[j].need.remote, l.applied.remote)
    }),
{
    let met = select(l.waiters, l.applied).0;
    let out = publish(met, l.acked);
    lemma_publish_from(met, l.acked);
    lemma_select_met(l.waiters, l.applied);
    let k = choose|k: int| 0 <= k < met.len() && met[k].id == (#[trigger] out[i]).id && met[k].point == out[i].point;
    let j = choose|j: int| 0 <= j < l.waiters.len() && #[trigger] met[k] == l.waiters[j] && await_lt(l.waiters[j].need, l.applied);
    assert(l.waiters[j].id == out[i].id);
}

} // verus!
