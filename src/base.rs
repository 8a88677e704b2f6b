//! Fingerprint of a database snapshot: a peppered digest of every field,
//! grouped by record, from which the changeset to a newer snapshot is computed.
use vstd::prelude::*;
use crate::bytes::{append_bytes, bytes_eq, copy_range};
use crate::crypto::{random_bytes, sha256, sha256_of};
use crate::diff::{
    check_edit_ids_distinct, check_ids_distinct, diff_wf, edit_ids_distinct, ids_distinct, contains_byte, diff_is_empty, edits_view, has_type, ids_view, state_uuid, state_uuid_bytes,
    Diff, DiffEdit, DiffEditV, DiffV, RecordEdit, RecordEditV,
};
use crate::fields::{fields_view, Field, FieldV, FIELD_UUID};
use crate::stream::{copy_fields, find_field, records_view, RecordDescriptor, RecordV, Stream, StreamV};

verus! {

/// The digest of one field: its type and a peppered hash of type and data.
pub struct FieldMark {
    pub ty: u8,
    pub hash: Vec<u8>,
}

/// Mathematical value of a field's digest.
pub type MarkV = (u8, Seq<u8>);

impl View for FieldMark {
    type V = MarkV;

    open spec fn view(&self) -> MarkV {
        (self.ty, self.hash@)
    }
}

/// The values of a list of digests.
pub open spec fn marks_view(v: Seq<FieldMark>) -> Seq<MarkV> {
    v.map_values(|m: FieldMark| m@)
}

/// What is hashed for a field: pepper, 0x00, type, 0x01, data.
pub open spec fn mark_input(pepper: Seq<u8>, f: FieldV) -> Seq<u8> {
    pepper + seq![0u8, f.0, 1u8] + f.1
}

/// The digest of a field under a pepper.
pub open spec fn mark_of(pepper: Seq<u8>, f: FieldV) -> MarkV {
    (f.0, sha256_of(mark_input(pepper, f)))
}

/// The digests of a record's fields.
pub open spec fn marks_of(pepper: Seq<u8>, fs: Seq<FieldV>) -> Seq<MarkV> {
    fs.map_values(|f: FieldV| mark_of(pepper, f))
}

/// Where a record's digests lie in the base.
pub struct Entry {
    pub uuid: Vec<u8>,
    pub start: usize,
    pub end: usize,
}

/// Mathematical value of an entry.
pub struct EntryV {
    pub uuid: Seq<u8>,
    pub start: nat,
    pub end: nat,
}

impl View for Entry {
    type V = EntryV;

    open spec fn view(&self) -> EntryV {
        EntryV { uuid: self.uuid@, start: self.start as nat, end: self.end as nat }
    }
}

/// The values of a list of entries.
pub open spec fn entries_view(v: Seq<Entry>) -> Seq<EntryV> {
    v.map_values(|e: Entry| e@)
}

/// Index of the first entry of record `id` at or after `i`, or the length.
pub open spec fn entry_index(es: Seq<EntryV>, id: Seq<u8>, i: nat) -> nat
    decreases es.len() - i,
{
    if i >= es.len() {
        es.len()
    } else if es[i as int].uuid == id {
        i
    } else {
        entry_index(es, id, i + 1)
    }
}

/// A found entry carries the identifier looked for.
pub proof fn lemma_entry_index_found(es: Seq<EntryV>, id: Seq<u8>, i: nat)
    ensures
        i <= es.len() ==> i <= entry_index(es, id, i) <= es.len(),
        entry_index(es, id, i) < es.len() ==> es[entry_index(es, id, i) as int].uuid == id,
        forall|j: int| i <= j < entry_index(es, id, i) ==> es[j].uuid != id,
    decreases es.len() - i,
{
    if i < es.len() && es[i as int].uuid != id {
        lemma_entry_index_found(es, id, i + 1);
    }
}

/// Fingerprint of a snapshot.
pub struct DiffableBase {
    pepper: Vec<u8>,
    fields: Vec<FieldMark>,
    entries: Vec<Entry>,
}

/// Mathematical value of a fingerprint: pepper, digests, and the range of
/// digests of each record.
pub struct BaseV {
    pub pepper: Seq<u8>,
    pub marks: Seq<MarkV>,
    pub entries: Seq<EntryV>,
}

/// Every entry's range lies within the digests, and no entry is the state record's.
pub open spec fn base_wf(b: BaseV) -> bool {
    &&& forall|i: int| 0 <= i < b.entries.len() ==> (#[trigger] b.entries[i]).start <= b.entries[i].end <= b.marks.len()
    &&& forall|i: int| 0 <= i < b.entries.len() ==> (#[trigger] b.entries[i]).uuid != state_uuid()
    &&& forall|i: int, j: int| 0 <= i < j < b.entries.len() ==> b.entries[i].uuid != b.entries[j].uuid
}

/// Deleted identifiers come from the old entries.
pub proof fn lemma_deleted_from_old(old: Seq<EntryV>, new: Seq<EntryV>)
    ensures
        forall|x: Seq<u8>| #[trigger] deleted_ids(old, new).contains(x) ==> exists|k: int| 0 <= k < old.len() && (#[trigger] old[k]).uuid == x,
    decreases old.len(),
{
    if old.len() > 0 {
        let pre = old.drop_last();
        lemma_deleted_from_old(pre, new);
        let d = deleted_ids(old, new);
        let dp = deleted_ids(pre, new);
        assert forall|x: Seq<u8>| #[trigger] d.contains(x) implies exists|k: int| 0 <= k < old.len() && (#[trigger] old[k]).uuid == x by {
            if dp.contains(x) {
                let k = choose|k: int| 0 <= k < pre.len() && (#[trigger] pre[k]).uuid == x;
                assert(old[k].uuid == x);
            } else {
                let i = choose|i: int| 0 <= i < d.len() && d[i] == x;
                assert(d == dp.push(old.last().uuid));
                assert(i == dp.len());
                assert(old[old.len() - 1].uuid == x);
            }
        }
    }
}

/// Some entry carries identifier `id`.
pub open spec fn entries_hold(es: Seq<EntryV>, id: Seq<u8>) -> bool {
    exists|k: int| 0 <= k < es.len() && (#[trigger] es[k]).uuid == id
}

/// Each edit gathered by a visit is for a record with an entry, and no record
/// has two edits.
pub proof fn lemma_visit_edits_distinct(b: BaseV, rs: Seq<RecordV>)
    requires
        visit_acc(b, rs) is Some,
    ensures
        edit_ids_distinct(visit_acc(b, rs).unwrap().edits),
        forall|m: int| 0 <= m < visit_acc(b, rs).unwrap().edits.len() ==>
            entries_hold(visit_acc(b, rs).unwrap().entries, (#[trigger] visit_acc(b, rs).unwrap().edits[m]).uuid),
    decreases rs.len(),
{
    if rs.len() > 0 {
        let pre = rs.drop_last();
        lemma_visit_edits_distinct(b, pre);
        let a0 = visit_acc(b, pre).unwrap();
        let acc = visit_acc(b, rs).unwrap();
        let r = rs.last();
        if r.uuid != state_uuid() {
            lemma_entry_index_found(a0.entries, r.uuid, 0);
            let ms = marks_of(b.pepper, r.fields);
            let entry = EntryV { uuid: r.uuid, start: a0.marks.len(), end: a0.marks.len() + ms.len() };
            let e = edit_for(b, r);
            assert(acc.entries == a0.entries.push(entry));
            if edit_is_empty(e) && !is_new(b, r) {
                assert(acc.edits == a0.edits);
            } else {
                assert(acc.edits == a0.edits.push(RecordEditV { uuid: r.uuid, edit: e }));
            }
            assert forall|m: int| 0 <= m < acc.edits.len() implies entries_hold(acc.entries, (#[trigger] acc.edits[m]).uuid) by {
                if m < a0.edits.len() {
                    assert(acc.edits[m] == a0.edits[m]);
                    assert(entries_hold(a0.entries, a0.edits[m].uuid));
                    let k = choose|k: int| 0 <= k < a0.entries.len() && (#[trigger] a0.entries[k]).uuid == a0.edits[m].uuid;
                    assert(acc.entries[k] == a0.entries[k]);
                } else {
                    assert(acc.entries[a0.entries.len() as int].uuid == r.uuid);
                }
            }
            assert forall|i: int, j: int| 0 <= i < j < acc.edits.len() implies acc.edits[i].uuid != acc.edits[j].uuid by {
                if j >= a0.edits.len() {
                    assert(acc.edits[i] == a0.edits[i]);
                    assert(entries_hold(a0.entries, a0.edits[i].uuid));
                    let k = choose|k: int| 0 <= k < a0.entries.len() && (#[trigger] a0.entries[k]).uuid == a0.edits[i].uuid;
                    assert(acc.edits[j].uuid == r.uuid);
                } else {
                    assert(acc.edits[i] == a0.edits[i] && acc.edits[j] == a0.edits[j]);
                }
            }
        } else {
            assert(acc.edits == a0.edits && acc.entries == a0.entries);
        }
    }
}

/// Deleted identifiers of entries with distinct identifiers are distinct.
pub proof fn lemma_deleted_distinct(old: Seq<EntryV>, new: Seq<EntryV>)
    requires
        forall|i: int, j: int| 0 <= i < j < old.len() ==> old[i].uuid != old[j].uuid,
    ensures
        ids_distinct(deleted_ids(old, new)),
    decreases old.len(),
{
    if old.len() > 0 {
        let pre = old.drop_last();
        assert forall|i: int, j: int| 0 <= i < j < pre.len() implies pre[i].uuid != pre[j].uuid by {
            assert(pre[i] == old[i] && pre[j] == old[j]);
        }
        lemma_deleted_distinct(pre, new);
        lemma_deleted_from_old(pre, new);
        let d = deleted_ids(old, new);
        let dp = deleted_ids(pre, new);
        if d != dp {
            assert(d == dp.push(old.last().uuid));
            assert forall|i: int, j: int| 0 <= i < j < d.len() implies d[i] != d[j] by {
                if j == d.len() - 1 {
                    assert(dp.contains(d[i]));
                    let k = choose|k: int| 0 <= k < pre.len() && (#[trigger] pre[k]).uuid == d[i];
                    assert(old[k].uuid == d[i]);
                } else {
                    assert(d[i] == dp[i] && d[j] == dp[j]);
                }
            }
        }
    }
}

/// The edits gathered by a visit are never the state record's.
pub proof fn lemma_visit_edits_not_state(b: BaseV, rs: Seq<RecordV>)
    requires
        visit_acc(b, rs) is Some,
    ensures
        forall|m: int| 0 <= m < visit_acc(b, rs).unwrap().edits.len() ==> (#[trigger] visit_acc(b, rs).unwrap().edits[m]).uuid != state_uuid(),
    decreases rs.len(),
{
    if rs.len() > 0 {
        lemma_visit_edits_not_state(b, rs.drop_last());
    }
}

impl View for DiffableBase {
    type V = BaseV;

    closed spec fn view(&self) -> BaseV {
        BaseV { pepper: self.pepper@, marks: marks_view(self.fields@), entries: entries_view(self.entries@) }
    }
}

/// The fields of the new record whose digest the old record lacks.
pub open spec fn changed_fields(pepper: Seq<u8>, old: Seq<MarkV>, fs: Seq<FieldV>) -> Seq<FieldV>
    decreases fs.len(),
{
    if fs.len() == 0 {
        Seq::empty()
    } else {
        let prev = changed_fields(pepper, old, fs.drop_last());
        if old.contains(mark_of(pepper, fs.last())) { prev } else { prev.push(fs.last()) }
    }
}

/// Field types of the old record that the new record lacks, each once, in order.
pub open spec fn dropped_types(old: Seq<MarkV>, fs: Seq<FieldV>) -> Seq<u8>
    decreases old.len(),
{
    if old.len() == 0 {
        Seq::empty()
    } else {
        let prev = dropped_types(old.drop_last(), fs);
        let t = old.last().0;
        if has_type(fs, t) || prev.contains(t) { prev } else { prev.push(t) }
    }
}

/// A record's fields other than identifier fields, in order.
pub open spec fn without_uuid(fs: Seq<FieldV>) -> Seq<FieldV>
    decreases fs.len(),
{
    if fs.len() == 0 {
        Seq::empty()
    } else {
        let prev = without_uuid(fs.drop_last());
        if fs.last().0 == FIELD_UUID { prev } else { prev.push(fs.last()) }
    }
}

/// Whether the base has no entry for the record.
pub open spec fn is_new(b: BaseV, r: RecordV) -> bool {
    entry_index(b.entries, r.uuid, 0) >= b.entries.len()
}

/// The edit that turns the base's record into `r`: changed fields and dropped
/// types for a known record; for a new one, every field but the identifier
/// field, which applying the edit writes first.
pub open spec fn edit_for(b: BaseV, r: RecordV) -> DiffEditV {
    let k = entry_index(b.entries, r.uuid, 0);
    if k < b.entries.len() {
        let old = b.marks.subrange(b.entries[k as int].start as int, b.entries[k as int].end as int);
        DiffEditV { set: changed_fields(b.pepper, old, r.fields), delete: dropped_types(old, r.fields) }
    } else {
        DiffEditV { set: without_uuid(r.fields), delete: Seq::empty() }
    }
}

/// An edit that changes nothing.
pub open spec fn edit_is_empty(e: DiffEditV) -> bool {
    e.set.len() == 0 && e.delete.len() == 0
}

/// What a visit has gathered after some records.
pub struct VisitV {
    pub marks: Seq<MarkV>,
    pub entries: Seq<EntryV>,
    pub edits: Seq<RecordEditV>,
    pub state: Option<RecordV>,
}

/// The visit of records against base `b`; `None` where a record identifier
/// (other than the state record's) occurs twice.
pub open spec fn visit_acc(b: BaseV, rs: Seq<RecordV>) -> Option<VisitV>
    decreases rs.len(),
{
    if rs.len() == 0 {
        Some(VisitV { marks: Seq::empty(), entries: Seq::empty(), edits: Seq::empty(), state: None })
    } else {
        match visit_acc(b, rs.drop_last()) {
            None => None,
            Some(acc) => {
                let r = rs.last();
                if r.uuid == state_uuid() {
                    Some(VisitV { state: Some(r), ..acc })
                } else if entry_index(acc.entries, r.uuid, 0) < acc.entries.len() {
                    None
                } else {
                    let ms = marks_of(b.pepper, r.fields);
                    let entry = EntryV { uuid: r.uuid, start: acc.marks.len(), end: acc.marks.len() + ms.len() };
                    let e = edit_for(b, r);
                    Some(VisitV {
                        marks: acc.marks + ms,
                        entries: acc.entries.push(entry),
                        edits: if edit_is_empty(e) && !is_new(b, r) { acc.edits } else { acc.edits.push(RecordEditV { uuid: r.uuid, edit: e }) },
                        state: acc.state,
                    })
                }
            },
        }
    }
}

/// Identifiers of the old entries that the new entries lack, in order.
pub open spec fn deleted_ids(old: Seq<EntryV>, new: Seq<EntryV>) -> Seq<Seq<u8>>
    decreases old.len(),
{
    if old.len() == 0 {
        Seq::empty()
    } else {
        let prev = deleted_ids(old.drop_last(), new);
        if entry_index(new, old.last().uuid, 0) < new.len() { prev } else { prev.push(old.last().uuid) }
    }
}

/// The outcome of visiting a parsed database against base `b`: the new
/// fingerprint, the changeset from `b`, and the state record if any.
pub open spec fn visit_spec(b: BaseV, s: StreamV) -> Option<(BaseV, DiffV, Option<RecordV>)> {
    match visit_acc(b, s.records) {
        None => None,
        Some(acc) => Some((
            BaseV { pepper: b.pepper, marks: acc.marks, entries: acc.entries },
            DiffV { pepper: b.pepper, delete: deleted_ids(b.entries, acc.entries), edit: acc.edits },
            acc.state,
        )),
    }
}

/// The result of visiting a snapshot.
pub struct Update {
    pub new_base: DiffableBase,
    pub diff: Diff,
    /// The internal state record, which the diff leaves alone.
    pub state_record: Option<RecordDescriptor>,
}

/// Why a snapshot could not be visited.
#[derive(Debug, PartialEq, Eq)]
pub enum VisitError {
    /// Two records share an identifier.
    DuplicateRecord,
}

/// The view of an optional record.
pub open spec fn opt_record_view(r: Option<RecordDescriptor>) -> Option<RecordV> {
    match r {
        Some(x) => Some(x@),
        None => None,
    }
}

/// A record's fields other than identifier fields.
fn other_fields(fs: &Vec<Field>) -> (r: Vec<Field>)
    ensures
        fields_view(r@) == without_uuid(fields_view(fs@)),
{
    let mut out: Vec<Field> = Vec::new();
    let mut i: usize = 0;
    while i < fs.len()
        invariant
            0 <= i <= fs@.len(),
            fields_view(out@) == without_uuid(fields_view(fs@.subrange(0, i as int))),
        decreases fs@.len() - i,
    {
        let ghost pre = fields_view(fs@.subrange(0, i + 1));
        assert(pre.drop_last() =~= fields_view(fs@.subrange(0, i as int)));
        assert(pre.last() == fs@[i as int]@);
        if fs[i].ty != FIELD_UUID {
            let ghost prev = out@;
            out.push(fs[i].duplicate());
            assert(fields_view(out@) =~= fields_view(prev).push(fs@[i as int]@));
        }
        i = i + 1;
    }
    assert(fs@.subrange(0, fs@.len() as int) =~= fs@);
    out
}

/// The digest of one field.
fn mark(pepper: &[u8], f: &Field) -> (r: FieldMark)
    ensures
        r@ == mark_of(pepper@, f@),
{
    let mut input = copy_range(pepper, 0, pepper.len());
    input.push(0u8);
    input.push(f.ty);
    input.push(1u8);
    append_bytes(&mut input, f.data.as_slice());
    assert(input@ =~= mark_input(pepper@, f@));
    FieldMark { ty: f.ty, hash: sha256(input.as_slice()) }
}

/// Index of the first entry of record `id`.
fn find_entry(es: &Vec<Entry>, id: &[u8]) -> (r: usize)
    ensures
        r == entry_index(entries_view(es@), id@, 0),
        r <= es@.len(),
{
    let mut k: usize = 0;
    while k < es.len() && !bytes_eq(es[k].uuid.as_slice(), id)
        invariant
            0 <= k <= es@.len(),
            entry_index(entries_view(es@), id@, 0) == entry_index(entries_view(es@), id@, k as nat),
        decreases es@.len() - k,
    {
        k = k + 1;
    }
    k
}

/// Whether `ms[start..end]` holds the digest `m`.
fn marks_contain(ms: &Vec<FieldMark>, start: usize, end: usize, m: &FieldMark) -> (r: bool)
    requires
        start <= end <= ms@.len(),
    ensures
        r == marks_view(ms@).subrange(start as int, end as int).contains(m@),
{
    let ghost sub = marks_view(ms@).subrange(start as int, end as int);
    let mut i: usize = start;
    while i < end
        invariant
            start <= i <= end <= ms@.len(),
            sub == marks_view(ms@).subrange(start as int, end as int),
            forall|j: int| 0 <= j < i - start ==> sub[j] != m@,
        decreases end - i,
    {
        if ms[i].ty == m.ty && bytes_eq(ms[i].hash.as_slice(), m.hash.as_slice()) {
            assert(sub[i - start] == m@);
            return true;
        }
        i = i + 1;
    }
    false
}

impl DiffableBase {
    /// Every entry's range lies within the digests.
    pub closed spec fn wf(&self) -> bool {
        base_wf(self@)
    }

    /// An empty fingerprint under the given pepper.
    pub fn with_pepper(pepper: Vec<u8>) -> (r: DiffableBase)
        ensures
            r.wf(),
            r@ == (BaseV { pepper: pepper@, marks: Seq::empty(), entries: Seq::empty() }),
    {
        let r = DiffableBase { pepper, fields: Vec::new(), entries: Vec::new() };
        assert(r@.marks =~= Seq::<MarkV>::empty());
        assert(r@.entries =~= Seq::<EntryV>::empty());
        r
    }

    /// An empty fingerprint under a fresh random 16-byte pepper.
    pub fn fresh() -> (r: DiffableBase)
        ensures
            r.wf(),
            r@.pepper.len() == 16,
            r@.marks.len() == 0,
            r@.entries.len() == 0,
    {
        DiffableBase::with_pepper(random_bytes(16))
    }

    /// The pepper.
    pub fn pepper(&self) -> (r: Vec<u8>)
        ensures
            r@ == self@.pepper,
    {
        let r = copy_range(self.pepper.as_slice(), 0, self.pepper.len());
        assert(self.pepper@.subrange(0, self.pepper@.len() as int) =~= self.pepper@);
        r
    }

    /// Pairs a changeset received without pepper with this base's pepper;
    /// `None` where it deletes or edits a record twice.
    pub fn deserialize(&self, delete: Vec<Vec<u8>>, edit: Vec<RecordEdit>) -> (r: Option<Diff>)
        ensures
            match r {
                Some(d) => d@ == (DiffV { pepper: self@.pepper, delete: ids_view(delete@), edit: edits_view(edit@) }) && diff_wf(d@),
                None => !diff_wf(DiffV { pepper: self@.pepper, delete: ids_view(delete@), edit: edits_view(edit@) }),
            },
    {
        if check_ids_distinct(&delete) && check_edit_ids_distinct(&edit) {
            Some(Diff { pepper: self.pepper(), delete, edit })
        } else {
            None
        }
    }

    /// The fields of `fs` whose digest `self.fields[start..end]` lacks.
    fn changed(&self, start: usize, end: usize, fs: &Vec<Field>) -> (r: Vec<Field>)
        requires
            start <= end <= self.fields@.len(),
        ensures
            fields_view(r@) == changed_fields(self.pepper@, marks_view(self.fields@).subrange(start as int, end as int), fields_view(fs@)),
    {
        let ghost old = marks_view(self.fields@).subrange(start as int, end as int);
        let mut out: Vec<Field> = Vec::new();
        let mut i: usize = 0;
        while i < fs.len()
            invariant
                start <= end <= self.fields@.len(),
                old == marks_view(self.fields@).subrange(start as int, end as int),
                0 <= i <= fs@.len(),
                fields_view(out@) == changed_fields(self.pepper@, old, fields_view(fs@.subrange(0, i as int))),
            decreases fs@.len() - i,
        {
            let ghost pre = fields_view(fs@.subrange(0, i + 1));
            assert(pre.drop_last() =~= fields_view(fs@.subrange(0, i as int)));
            assert(pre.last() == fs@[i as int]@);
            let m = mark(self.pepper.as_slice(), &fs[i]);
            if !marks_contain(&self.fields, start, end, &m) {
                let ghost prev = out@;
                out.push(fs[i].duplicate());
                assert(fields_view(out@) =~= fields_view(prev).push(fs@[i as int]@));
            }
            i = i + 1;
        }
        assert(fs@.subrange(0, fs@.len() as int) =~= fs@);
        out
    }

    /// Types of `self.fields[start..end]` that `fs` lacks, each once.
    fn dropped(&self, start: usize, end: usize, fs: &Vec<Field>) -> (r: Vec<u8>)
        requires
            start <= end <= self.fields@.len(),
        ensures
            r@ == dropped_types(marks_view(self.fields@).subrange(start as int, end as int), fields_view(fs@)),
    {
        let ghost all = marks_view(self.fields@);
        let mut out: Vec<u8> = Vec::new();
        let mut i: usize = start;
        while i < end
            invariant
                start <= i <= end <= self.fields@.len(),
                all == marks_view(self.fields@),
                out@ == dropped_types(all.subrange(start as int, i as int), fields_view(fs@)),
            decreases end - i,
        {
            assert(all.subrange(start as int, i + 1).drop_last() =~= all.subrange(start as int, i as int));
            assert(all.subrange(start as int, i + 1).last() == all[i as int]);
            let t = self.fields[i].ty;
            if !(find_field(fs, t, 0) < fs.len()) && !contains_byte(&out, t) {
                out.push(t);
            }
            i = i + 1;
        }
        out
    }

    /// The edit that turns this base's record into `r`.
    fn edit_for(&self, r: &RecordDescriptor) -> (e: DiffEdit)
        requires
            self.wf(),
        ensures
            e@ == edit_for(self@, r@),
    {
        let k = find_entry(&self.entries, r.uuid.as_slice());
        if k < self.entries.len() {
            let start = self.entries[k].start;
            let end = self.entries[k].end;
            assert(self@.entries[k as int] == self.entries@[k as int]@);
            DiffEdit { set: self.changed(start, end, &r.fields), delete: self.dropped(start, end, &r.fields) }
        } else {
            let e = DiffEdit { set: other_fields(&r.fields), delete: Vec::new() };
            assert(e@.delete =~= Seq::<u8>::empty());
            e
        }
    }

    /// Fingerprints a parsed snapshot and computes the changeset from this base.
    pub fn visit(&self, s: &Stream) -> (r: Result<Update, VisitError>)
        requires
            self.wf(),
        ensures
            match r {
                Ok(u) => u.new_base.wf() && visit_spec(self@, s@) == Some((u.new_base@, u.diff@, opt_record_view(u.state_record)))
                    && diff_wf(u.diff@)
                    && !u.diff@.delete.contains(state_uuid())
                    && forall|m: int| 0 <= m < u.diff@.edit.len() ==> (#[trigger] u.diff@.edit[m]).uuid != state_uuid(),
                Err(_) => visit_spec(self@, s@) is None,
            },
    {
        let sid = state_uuid_bytes();
        let mut marks: Vec<FieldMark> = Vec::new();
        let mut entries: Vec<Entry> = Vec::new();
        let mut edits: Vec<RecordEdit> = Vec::new();
        let mut state: Option<RecordDescriptor> = None;
        let mut i: usize = 0;
        assert(marks_view(marks@) =~= Seq::<MarkV>::empty());
        assert(entries_view(entries@) =~= Seq::<EntryV>::empty());
        assert(edits_view(edits@) =~= Seq::<RecordEditV>::empty());
        while i < s.records.len()
            invariant
                self.wf(),
                sid@ == state_uuid(),
                0 <= i <= s.records@.len(),
                visit_acc(self@, records_view(s.records@.subrange(0, i as int))) == Some(VisitV {
                    marks: marks_view(marks@),
                    entries: entries_view(entries@),
                    edits: edits_view(edits@),
                    state: opt_record_view(state),
                }),
                base_wf(BaseV { pepper: self@.pepper, marks: marks_view(marks@), entries: entries_view(entries@) }),
            decreases s.records@.len() - i,
        {
            let ghost pre = records_view(s.records@.subrange(0, i + 1));
            assert(pre.drop_last() =~= records_view(s.records@.subrange(0, i as int)));
            assert(pre.last() == s.records@[i as int]@);
            let r = &s.records[i];
            if bytes_eq(r.uuid.as_slice(), sid.as_slice()) {
                state = Some(r.duplicate());
            } else if find_entry(&entries, r.uuid.as_slice()) < entries.len() {
                proof {
                    assert(r@.uuid != state_uuid());
                    assert(visit_acc(self@, pre) is None);
                    assert(records_view(s.records@).subrange(0, i + 1) =~= pre);
                    lemma_visit_acc_prefix_none(self@, records_view(s.records@), (i + 1) as nat);
                    assert(records_view(s.records@) =~= records_view(s.records@.subrange(0, s.records@.len() as int)));
                }
                return Err(VisitError::DuplicateRecord);
            } else {
                let start = marks.len();
                let ghost prev_marks = marks@;
                let ghost prev_entries0 = entries@;
                let ghost b0 = BaseV { pepper: self@.pepper, marks: marks_view(prev_marks), entries: entries_view(prev_entries0) };
                assert(base_wf(b0));
                let mut j: usize = 0;
                while j < r.fields.len()
                    invariant
                        0 <= j <= r.fields@.len(),
                        marks_view(marks@) == marks_view(prev_marks) + marks_of(self.pepper@, fields_view(r.fields@.subrange(0, j as int))),
                    decreases r.fields@.len() - j,
                {
                    let m = mark(self.pepper.as_slice(), &r.fields[j]);
                    let ghost before = marks@;
                    marks.push(m);
                    assert(marks_view(marks@) =~= marks_view(before).push(m@));
                    assert(marks_of(self.pepper@, fields_view(r.fields@.subrange(0, j + 1))) =~= marks_of(self.pepper@, fields_view(r.fields@.subrange(0, j as int))).push(m@));
                    j = j + 1;
                }
                assert(r.fields@.subrange(0, r.fields@.len() as int) =~= r.fields@);
                let end = marks.len();
                let uuid = copy_range(r.uuid.as_slice(), 0, r.uuid.len());
                assert(r.uuid@.subrange(0, r.uuid@.len() as int) =~= r.uuid@);
                let ghost prev_entries = entries@;
                entries.push(Entry { uuid, start, end });
                assert(entries_view(entries@) =~= entries_view(prev_entries).push(entries@.last()@));
                let known = find_entry(&self.entries, r.uuid.as_slice()) < self.entries.len();
                let e = self.edit_for(r);
                if !known || e.set.len() > 0 || e.delete.len() > 0 {
                    let uuid2 = copy_range(r.uuid.as_slice(), 0, r.uuid.len());
                    let ghost prev_edits = edits@;
                    edits.push(RecordEdit { uuid: uuid2, edit: e });
                    assert(edits_view(edits@) =~= edits_view(prev_edits).push(edits@.last()@));
                }
                assert(r@.uuid != state_uuid());
                proof { lemma_entry_index_found(entries_view(prev_entries0), r@.uuid, 0); }
                assert forall|i: int, j: int| 0 <= i < j < entries_view(entries@).len() implies
                    entries_view(entries@)[i].uuid != entries_view(entries@)[j].uuid by {
                    assert(entries_view(entries@)[i] == entries_view(prev_entries0)[i]);
                    if j < entries@.len() - 1 {
                        assert(entries_view(entries@)[j] == entries_view(prev_entries0)[j]);
                    } else {
                        assert(entries_view(entries@)[j] == entries@.last()@);
                    }
                }
                assert forall|x: int| 0 <= x < entries_view(entries@).len() implies
                    (#[trigger] entries_view(entries@)[x]).start <= entries_view(entries@)[x].end <= marks_view(marks@).len()
                    && entries_view(entries@)[x].uuid != state_uuid() by {
                    if x < entries@.len() - 1 {
                        assert(entries_view(entries@)[x] == entries_view(prev_entries0)[x]);
                        assert(b0.entries[x].start <= b0.entries[x].end <= b0.marks.len());
                        assert(b0.entries[x].uuid != state_uuid());
                        assert(marks_view(marks@).len() >= marks_view(prev_marks).len());
                    } else {
                        assert(entries_view(entries@)[x] == entries@.last()@);
                    }
                }
                assert(base_wf(BaseV { pepper: self@.pepper, marks: marks_view(marks@), entries: entries_view(entries@) }));
            }
            i = i + 1;
        }
        assert(s.records@.subrange(0, s.records@.len() as int) =~= s.records@);
        let mut delete: Vec<Vec<u8>> = Vec::new();
        let mut k: usize = 0;
        assert(ids_view(delete@) =~= Seq::<Seq<u8>>::empty());
        while k < self.entries.len()
            invariant
                0 <= k <= self.entries@.len(),
                ids_view(delete@) == deleted_ids(entries_view(self.entries@.subrange(0, k as int)), entries_view(entries@)),
            decreases self.entries@.len() - k,
        {
            let ghost pre = entries_view(self.entries@.subrange(0, k + 1));
            assert(pre.drop_last() =~= entries_view(self.entries@.subrange(0, k as int)));
            assert(pre.last() == self.entries@[k as int]@);
            if find_entry(&entries, self.entries[k].uuid.as_slice()) == entries.len() {
                let id = copy_range(self.entries[k].uuid.as_slice(), 0, self.entries[k].uuid.len());
                assert(self.entries@[k as int].uuid@.subrange(0, self.entries@[k as int].uuid@.len() as int) =~= self.entries@[k as int].uuid@);
                let ghost prev = delete@;
                delete.push(id);
                assert(ids_view(delete@) =~= ids_view(prev).push(id@));
            }
            k = k + 1;
        }
        assert(self.entries@.subrange(0, self.entries@.len() as int) =~= self.entries@);
        proof {
            lemma_deleted_from_old(self@.entries, entries_view(entries@));
            lemma_deleted_distinct(self@.entries, entries_view(entries@));
            lemma_visit_edits_distinct(self@, records_view(s.records@));
            lemma_visit_edits_not_state(self@, records_view(s.records@));
            if ids_view(delete@).contains(state_uuid()) {
                let k = choose|k: int| 0 <= k < self@.entries.len() && (#[trigger] self@.entries[k]).uuid == state_uuid();
            }
        }
        let new_base = DiffableBase { pepper: self.pepper(), fields: marks, entries };
        let diff = Diff { pepper: self.pepper(), delete, edit: edits };
        Ok(Update { new_base, diff, state_record: state })
    }
}

/// Where a prefix of the records holds a duplicate, so do all of them.
proof fn lemma_visit_acc_prefix_none(b: BaseV, rs: Seq<RecordV>, k: nat)
    requires
        k <= rs.len(),
        visit_acc(b, rs.subrange(0, k as int)) is None,
    ensures
        visit_acc(b, rs) is None,
    decreases rs.len() - k,
{
    if k < rs.len() {
        assert(rs.subrange(0, (k + 1) as int).drop_last() =~= rs.subrange(0, k as int));
        lemma_visit_acc_prefix_none(b, rs, k + 1);
    } else {
        assert(rs.subrange(0, k as int) =~= rs);
    }
}

impl Diff {
    /// The changeset that changes nothing, against `base`.
    pub fn empty(base: &DiffableBase) -> (r: Diff)
        ensures
            r@.pepper == base@.pepper,
            diff_is_empty(r@),
            diff_wf(r@),
    {
        Diff::empty_with(base.pepper.as_slice())
    }
}

/// Two visits of the same records fail alike, and agree on the identifiers
/// of their entries, whatever the bases.
pub proof fn lemma_visit_acc_entries_ids(b1: BaseV, b2: BaseV, rs: Seq<RecordV>)
    ensures
        (visit_acc(b1, rs) is None) == (visit_acc(b2, rs) is None),
        visit_acc(b1, rs) is Some ==> visit_acc(b1, rs).unwrap().entries.len() == visit_acc(b2, rs).unwrap().entries.len()
            && forall|i: int| 0 <= i < visit_acc(b1, rs).unwrap().entries.len() ==>
                (#[trigger] visit_acc(b1, rs).unwrap().entries[i]).uuid == visit_acc(b2, rs).unwrap().entries[i].uuid,
    decreases rs.len(),
{
    if rs.len() > 0 {
        lemma_visit_acc_entries_ids(b1, b2, rs.drop_last());
        if visit_acc(b1, rs.drop_last()) is Some {
            let a1 = visit_acc(b1, rs.drop_last()).unwrap();
            let a2 = visit_acc(b2, rs.drop_last()).unwrap();
            lemma_entry_index_found(a1.entries, rs.last().uuid, 0);
            lemma_entry_index_found(a2.entries, rs.last().uuid, 0);
            if entry_index(a1.entries, rs.last().uuid, 0) < a1.entries.len() {
                let k = entry_index(a1.entries, rs.last().uuid, 0);
                assert(a2.entries[k as int].uuid == rs.last().uuid);
            }
            if entry_index(a2.entries, rs.last().uuid, 0) < a2.entries.len() {
                let k = entry_index(a2.entries, rs.last().uuid, 0);
                assert(a1.entries[k as int].uuid == rs.last().uuid);
            }
        }
    }
}

} // verus!
