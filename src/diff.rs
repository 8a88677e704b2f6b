//! Changesets between two snapshots of a database and their application to a
//! parsed database.
use vstd::prelude::*;
use vstd::utf8::encode_utf8;
use crate::bytes::{bytes_eq, copy_range};
use crate::fields::{fields_view, Field, FieldV, FIELD_NOTES, FIELD_UUID};
use crate::stream::{copy_fields, find_field, find_type, records_view, RecordDescriptor, RecordV, Stream, StreamV};

verus! {

/// Identifier of the record that carries the engine's own state
/// (02e4d75b-5fde-582e-b10d-409f041c3d34); it is never diffed.
pub open spec fn state_uuid() -> Seq<u8> {
    seq![0x02u8, 0xe4, 0xd7, 0x5b, 0x5f, 0xde, 0x58, 0x2e, 0xb1, 0x0d, 0x40, 0x9f, 0x04, 0x1c, 0x3d, 0x34]
}

/// The identifier of the state record.
pub fn state_uuid_bytes() -> (r: Vec<u8>)
    ensures
        r@ == state_uuid(),
{
    let r = vec![0x02u8, 0xe4, 0xd7, 0x5b, 0x5f, 0xde, 0x58, 0x2e, 0xb1, 0x0d, 0x40, 0x9f, 0x04, 0x1c, 0x3d, 0x34];
    assert(r@ =~= state_uuid());
    r
}

/// One edit of a record: fields to set, by type, and field types to delete.
pub struct DiffEdit {
    pub set: Vec<Field>,
    pub delete: Vec<u8>,
}

/// Mathematical value of an edit.
pub struct DiffEditV {
    pub set: Seq<FieldV>,
    pub delete: Seq<u8>,
}

impl View for DiffEdit {
    type V = DiffEditV;

    open spec fn view(&self) -> DiffEditV {
        DiffEditV { set: fields_view(self.set@), delete: self.delete@ }
    }
}

/// The edit of the record with identifier `uuid`.
pub struct RecordEdit {
    pub uuid: Vec<u8>,
    pub edit: DiffEdit,
}

/// Mathematical value of a record's edit.
pub struct RecordEditV {
    pub uuid: Seq<u8>,
    pub edit: DiffEditV,
}

impl View for RecordEdit {
    type V = RecordEditV;

    open spec fn view(&self) -> RecordEditV {
        RecordEditV { uuid: self.uuid@, edit: self.edit@ }
    }
}

/// The values of a list of record edits.
pub open spec fn edits_view(v: Seq<RecordEdit>) -> Seq<RecordEditV> {
    v.map_values(|e: RecordEdit| e@)
}

/// The values of a list of identifiers.
pub open spec fn ids_view(v: Seq<Vec<u8>>) -> Seq<Seq<u8>> {
    v.map_values(|x: Vec<u8>| x@)
}

/// A changeset: the pepper of the base it was computed against, the records
/// to delete and the edits of records, in order.
pub struct Diff {
    pub pepper: Vec<u8>,
    pub delete: Vec<Vec<u8>>,
    pub edit: Vec<RecordEdit>,
}

/// Mathematical value of a changeset.
pub struct DiffV {
    pub pepper: Seq<u8>,
    pub delete: Seq<Seq<u8>>,
    pub edit: Seq<RecordEditV>,
}

impl View for Diff {
    type V = DiffV;

    open spec fn view(&self) -> DiffV {
        DiffV { pepper: self.pepper@, delete: ids_view(self.delete@), edit: edits_view(self.edit@) }
    }
}

/// Index of the first edit of record `id` at or after `i`, or the length.
pub open spec fn edit_index(es: Seq<RecordEditV>, id: Seq<u8>, i: nat) -> nat
    decreases es.len() - i,
{
    if i >= es.len() {
        es.len()
    } else if es[i as int].uuid == id {
        i
    } else {
        edit_index(es, id, i + 1)
    }
}

/// A found edit carries the identifier looked for, and none before it does.
pub proof fn lemma_edit_index_found(es: Seq<RecordEditV>, id: Seq<u8>, i: nat)
    ensures
        i <= es.len() ==> i <= edit_index(es, id, i) <= es.len(),
        edit_index(es, id, i) < es.len() ==> es[edit_index(es, id, i) as int].uuid == id,
        forall|j: int| i <= j < edit_index(es, id, i) ==> es[j].uuid != id,
    decreases es.len() - i,
{
    if i < es.len() && es[i as int].uuid != id {
        lemma_edit_index_found(es, id, i + 1);
    }
}

/// Whether some field has type `t`.
pub open spec fn has_type(fs: Seq<FieldV>, t: u8) -> bool {
    find_type(fs, t, 0) < fs.len()
}

/// A field of the record as the edit leaves it, substituted where the edit sets its type.
pub open spec fn substitute(e: DiffEditV, f: FieldV) -> FieldV {
    let k = find_type(e.set, f.0, 0);
    if k < e.set.len() { (f.0, e.set[k as int].1) } else { f }
}

/// The record's fields that the edit keeps, in order, each substituted.
pub open spec fn kept_fields(e: DiffEditV, fs: Seq<FieldV>) -> Seq<FieldV>
    decreases fs.len(),
{
    if fs.len() == 0 {
        Seq::empty()
    } else {
        let prev = kept_fields(e, fs.drop_last());
        if e.delete.contains(fs.last().0) { prev } else { prev.push(substitute(e, fs.last())) }
    }
}

/// Whether a field of type `t` was written while the edit ran over `fs`.
pub open spec fn seen(e: DiffEditV, fs: Seq<FieldV>, t: u8) -> bool {
    has_type(fs, t) && !e.delete.contains(t)
}

/// The fields the edit sets whose type was not seen: added after the others.
pub open spec fn added_fields(e: DiffEditV, set: Seq<FieldV>, fs: Seq<FieldV>) -> Seq<FieldV>
    decreases set.len(),
{
    if set.len() == 0 {
        Seq::empty()
    } else {
        let prev = added_fields(e, set.drop_last(), fs);
        if seen(e, fs, set.last().0) { prev } else { prev.push(set.last()) }
    }
}

/// The fields of a record after an edit.
pub open spec fn edit_fields(e: DiffEditV, fs: Seq<FieldV>) -> Seq<FieldV> {
    kept_fields(e, fs) + added_fields(e, e.set, fs)
}

/// What becomes of one existing record: deleted, edited or kept.
pub open spec fn apply_record(d: DiffV, r: RecordV) -> Option<RecordV> {
    let k = edit_index(d.edit, r.uuid, 0);
    if d.delete.contains(r.uuid) {
        None
    } else if k < d.edit.len() {
        Some(RecordV { uuid: r.uuid, fields: edit_fields(d.edit[k as int].edit, r.fields) })
    } else {
        Some(r)
    }
}

/// The existing records after the changeset, in their order.
pub open spec fn apply_records(d: DiffV, rs: Seq<RecordV>) -> Seq<RecordV>
    decreases rs.len(),
{
    if rs.len() == 0 {
        Seq::empty()
    } else {
        let prev = apply_records(d, rs.drop_last());
        match apply_record(d, rs.last()) {
            Some(r) => prev.push(r),
            None => prev,
        }
    }
}

/// Whether some record has identifier `id`.
pub open spec fn has_record(rs: Seq<RecordV>, id: Seq<u8>) -> bool {
    exists|i: int| 0 <= i < rs.len() && (#[trigger] rs[i]).uuid == id
}

/// The record created by an edit of an identifier that the stream lacks:
/// its identifier field first, then every entry the edit sets, in order.
pub open spec fn new_record(e: RecordEditV) -> RecordV {
    RecordV { uuid: e.uuid, fields: seq![(FIELD_UUID, e.uuid)] + e.edit.set }
}

/// Records created by the edits of identifiers that `rs` lacks, in edit order.
pub open spec fn new_records(es: Seq<RecordEditV>, rs: Seq<RecordV>) -> Seq<RecordV>
    decreases es.len(),
{
    if es.len() == 0 {
        Seq::empty()
    } else {
        let prev = new_records(es.drop_last(), rs);
        if has_record(rs, es.last().uuid) { prev } else { prev.push(new_record(es.last())) }
    }
}

/// A parsed database after the changeset: header unchanged, existing records
/// deleted, edited or kept, then the new records.
pub open spec fn apply_stream(d: DiffV, s: StreamV) -> StreamV {
    StreamV { header: s.header, records: apply_records(d, s.records) + new_records(d.edit, s.records) }
}

/// The changeset that also sets the state record's notes field to `st`:
/// the state record's edit is changed in place, or appended if there is none.
pub open spec fn with_state(d: DiffV, st: Seq<u8>) -> DiffV {
    let k = edit_index(d.edit, state_uuid(), 0);
    let e = if k < d.edit.len() { d.edit[k as int].edit } else { DiffEditV { set: Seq::empty(), delete: Seq::empty() } };
    let j = find_type(e.set, FIELD_NOTES, 0);
    let set = if j < e.set.len() { e.set.update(j as int, (FIELD_NOTES, st)) } else { e.set.push((FIELD_NOTES, st)) };
    let ne = RecordEditV { uuid: state_uuid(), edit: DiffEditV { set, delete: e.delete } };
    DiffV { edit: if k < d.edit.len() { d.edit.update(k as int, ne) } else { d.edit.push(ne) }, ..d }
}

/// No identifier occurs twice.
pub open spec fn ids_distinct(v: Seq<Seq<u8>>) -> bool {
    forall|i: int, j: int| 0 <= i < j < v.len() ==> v[i] != v[j]
}

/// No record has two edits.
pub open spec fn edit_ids_distinct(es: Seq<RecordEditV>) -> bool {
    forall|i: int, j: int| 0 <= i < j < es.len() ==> es[i].uuid != es[j].uuid
}

/// A valid changeset: each record is deleted at most once and edited at most
/// once, as the maps it travels as allow.
pub open spec fn diff_wf(d: DiffV) -> bool {
    ids_distinct(d.delete) && edit_ids_distinct(d.edit)
}

/// Whether no identifier occurs twice.
pub fn check_ids_distinct(v: &Vec<Vec<u8>>) -> (r: bool)
    ensures
        r == ids_distinct(ids_view(v@)),
{
    let ghost iv = ids_view(v@);
    let mut j: usize = 0;
    while j < v.len()
        invariant
            iv == ids_view(v@),
            0 <= j <= v@.len(),
            forall|a: int, b: int| 0 <= a < b < j ==> iv[a] != iv[b],
        decreases v@.len() - j,
    {
        let mut i: usize = 0;
        while i < j
            invariant
                iv == ids_view(v@),
                0 <= i <= j < v@.len(),
                forall|a: int| 0 <= a < i ==> iv[a] != iv[j as int],
            decreases j - i,
        {
            if bytes_eq(v[i].as_slice(), v[j].as_slice()) {
                assert(iv[i as int] == iv[j as int]);
                return false;
            }
            i = i + 1;
        }
        j = j + 1;
    }
    true
}

/// Whether no record has two edits.
pub fn check_edit_ids_distinct(v: &Vec<RecordEdit>) -> (r: bool)
    ensures
        r == edit_ids_distinct(edits_view(v@)),
{
    let ghost ev = edits_view(v@);
    let mut j: usize = 0;
    while j < v.len()
        invariant
            ev == edits_view(v@),
            0 <= j <= v@.len(),
            forall|a: int, b: int| 0 <= a < b < j ==> ev[a].uuid != ev[b].uuid,
        decreases v@.len() - j,
    {
        let mut i: usize = 0;
        while i < j
            invariant
                ev == edits_view(v@),
                0 <= i <= j < v@.len(),
                forall|a: int| 0 <= a < i ==> ev[a].uuid != ev[j as int].uuid,
            decreases j - i,
        {
            if bytes_eq(v[i].uuid.as_slice(), v[j].uuid.as_slice()) {
                assert(ev[i as int].uuid == ev[j as int].uuid);
                return false;
            }
            i = i + 1;
        }
        j = j + 1;
    }
    true
}

/// A changeset without deletions or edits.
pub open spec fn diff_is_empty(d: DiffV) -> bool {
    d.delete.len() == 0 && d.edit.len() == 0
}

/// Whether a list of bytes holds `t`.
pub fn contains_byte(v: &Vec<u8>, t: u8) -> (r: bool)
    ensures
        r == v@.contains(t),
{
    let mut i: usize = 0;
    while i < v.len()
        invariant
            0 <= i <= v@.len(),
            forall|j: int| 0 <= j < i ==> v@[j] != t,
        decreases v@.len() - i,
    {
        if v[i] == t {
            return true;
        }
        i = i + 1;
    }
    false
}

/// Whether a list of identifiers holds `id`.
pub fn contains_id(v: &Vec<Vec<u8>>, id: &[u8]) -> (r: bool)
    ensures
        r == ids_view(v@).contains(id@),
{
    let mut i: usize = 0;
    while i < v.len()
        invariant
            0 <= i <= v@.len(),
            forall|j: int| 0 <= j < i ==> ids_view(v@)[j] != id@,
        decreases v@.len() - i,
    {
        if bytes_eq(v[i].as_slice(), id) {
            assert(ids_view(v@)[i as int] == id@);
            return true;
        }
        i = i + 1;
    }
    false
}

/// Index of the first edit of record `id`.
pub fn find_edit(es: &Vec<RecordEdit>, id: &[u8]) -> (r: usize)
    ensures
        r == edit_index(edits_view(es@), id@, 0),
        r <= es@.len(),
{
    let mut k: usize = 0;
    while k < es.len() && !bytes_eq(es[k].uuid.as_slice(), id)
        invariant
            0 <= k <= es@.len(),
            edit_index(edits_view(es@), id@, 0) == edit_index(edits_view(es@), id@, k as nat),
        decreases es@.len() - k,
    {
        k = k + 1;
    }
    k
}

/// Whether some record has identifier `id`.
pub fn contains_record(rs: &Vec<RecordDescriptor>, id: &[u8]) -> (r: bool)
    ensures
        r == has_record(records_view(rs@), id@),
{
    let mut i: usize = 0;
    while i < rs.len()
        invariant
            0 <= i <= rs@.len(),
            forall|j: int| 0 <= j < i ==> records_view(rs@)[j].uuid != id@,
        decreases rs@.len() - i,
    {
        if bytes_eq(rs[i].uuid.as_slice(), id) {
            assert(records_view(rs@)[i as int].uuid == id@);
            return true;
        }
        i = i + 1;
    }
    false
}

impl DiffEdit {
    /// The fields of a record after this edit.
    pub fn apply_to(&self, fs: &Vec<Field>) -> (r: Vec<Field>)
        ensures
            fields_view(r@) == edit_fields(self@, fields_view(fs@)),
    {
        let ghost e = self@;
        let mut out: Vec<Field> = Vec::new();
        let mut i: usize = 0;
        while i < fs.len()
            invariant
                e == self@,
                0 <= i <= fs@.len(),
                fields_view(out@) == kept_fields(e, fields_view(fs@.subrange(0, i as int))),
            decreases fs@.len() - i,
        {
            let ghost pre = fields_view(fs@.subrange(0, i + 1));
            assert(pre.drop_last() =~= fields_view(fs@.subrange(0, i as int)));
            assert(pre.last() == fs@[i as int]@);
            let f = &fs[i];
            if !contains_byte(&self.delete, f.ty) {
                let k = find_field(&self.set, f.ty, 0);
                let g = if k < self.set.len() {
                    Field { ty: f.ty, data: copy_range(self.set[k].data.as_slice(), 0, self.set[k].data.len()) }
                } else {
                    f.duplicate()
                };
                assert(self.set@[k as int].data@.subrange(0, self.set@[k as int].data@.len() as int) =~= self.set@[k as int].data@);
                let ghost prev = out@;
                out.push(g);
                assert(fields_view(out@) =~= fields_view(prev).push(g@));
            }
            i = i + 1;
        }
        assert(fs@.subrange(0, fs@.len() as int) =~= fs@);
        let ghost kept = out@;
        let mut j: usize = 0;
        while j < self.set.len()
            invariant
                e == self@,
                0 <= j <= self.set@.len(),
                fields_view(kept) == kept_fields(e, fields_view(fs@)),
                fields_view(out@) == fields_view(kept) + added_fields(e, fields_view(self.set@.subrange(0, j as int)), fields_view(fs@)),
            decreases self.set@.len() - j,
        {
            let ghost pre = fields_view(self.set@.subrange(0, j + 1));
            assert(pre.drop_last() =~= fields_view(self.set@.subrange(0, j as int)));
            assert(pre.last() == self.set@[j as int]@);
            let t = self.set[j].ty;
            let was_seen = find_field(fs, t, 0) < fs.len() && !contains_byte(&self.delete, t);
            if !was_seen {
                let ghost prev = out@;
                out.push(self.set[j].duplicate());
                assert(fields_view(out@) =~= fields_view(prev).push(self.set@[j as int]@));
            }
            j = j + 1;
        }
        assert(self.set@.subrange(0, self.set@.len() as int) =~= self.set@);
        out
    }
}

impl Diff {
    /// The changeset that changes nothing, under the given pepper.
    pub fn empty_with(pepper: &[u8]) -> (r: Diff)
        ensures
            r@.pepper == pepper@,
            diff_is_empty(r@),
    {
        let r = Diff { pepper: copy_range(pepper, 0, pepper.len()), delete: Vec::new(), edit: Vec::new() };
        assert(pepper@.subrange(0, pepper@.len() as int) =~= pepper@);
        r
    }

    /// Whether the changeset neither deletes nor edits anything.
    pub fn is_empty(&self) -> (r: bool)
        ensures
            r == diff_is_empty(self@),
    {
        self.delete.len() == 0 && self.edit.len() == 0
    }

    /// Applies the changeset to a parsed database.
    pub fn apply(&self, s: &Stream) -> (r: Stream)
        ensures
            r@ == apply_stream(self@, s@),
    {
        let ghost d = self@;
        let header = copy_fields(&s.header);
        let mut records: Vec<RecordDescriptor> = Vec::new();
        let mut i: usize = 0;
        while i < s.records.len()
            invariant
                d == self@,
                0 <= i <= s.records@.len(),
                records_view(records@) == apply_records(d, records_view(s.records@.subrange(0, i as int))),
            decreases s.records@.len() - i,
        {
            let ghost pre = records_view(s.records@.subrange(0, i + 1));
            assert(pre.drop_last() =~= records_view(s.records@.subrange(0, i as int)));
            assert(pre.last() == s.records@[i as int]@);
            let r = &s.records[i];
            if !contains_id(&self.delete, r.uuid.as_slice()) {
                let k = find_edit(&self.edit, r.uuid.as_slice());
                let nr = if k < self.edit.len() {
                    let fields = self.edit[k].edit.apply_to(&r.fields);
                    let uuid = copy_range(r.uuid.as_slice(), 0, r.uuid.len());
                    assert(r.uuid@.subrange(0, r.uuid@.len() as int) =~= r.uuid@);
                    RecordDescriptor { uuid, fields }
                } else {
                    r.duplicate()
                };
                let ghost prev = records@;
                records.push(nr);
                assert(records_view(records@) =~= records_view(prev).push(nr@));
            }
            i = i + 1;
        }
        assert(s.records@.subrange(0, s.records@.len() as int) =~= s.records@);
        let ghost existing = records@;
        let mut j: usize = 0;
        while j < self.edit.len()
            invariant
                d == self@,
                0 <= j <= self.edit@.len(),
                records_view(existing) == apply_records(d, records_view(s.records@)),
                records_view(records@) == records_view(existing) + new_records(edits_view(self.edit@.subrange(0, j as int)), records_view(s.records@)),
            decreases self.edit@.len() - j,
        {
            let ghost pre = edits_view(self.edit@.subrange(0, j + 1));
            assert(pre.drop_last() =~= edits_view(self.edit@.subrange(0, j as int)));
            assert(pre.last() == self.edit@[j as int]@);
            let e = &self.edit[j];
            if !contains_record(&s.records, e.uuid.as_slice()) {
                let nr = new_record_of(e);
                let ghost prev = records@;
                records.push(nr);
                assert(records_view(records@) =~= records_view(prev).push(nr@));
            }
            j = j + 1;
        }
        assert(self.edit@.subrange(0, self.edit@.len() as int) =~= self.edit@);
        Stream { header, records }
    }

    /// Sets the notes field of the state record to `state`, creating the
    /// record's edit where there is none.
    pub fn add_state(&mut self, state: String)
        ensures
            final(self)@ == with_state(old(self)@, encode_utf8(state@)),
            diff_wf(old(self)@) ==> diff_wf(final(self)@),
    {
        let sid = state_uuid_bytes();
        let raw = state.as_str().as_bytes();
        let bytes = copy_range(raw, 0, raw.len());
        assert(raw@.subrange(0, raw@.len() as int) =~= encode_utf8(state@));
        let ghost note: FieldV = (FIELD_NOTES, encode_utf8(state@));
        let ghost olde = old(self)@.edit;
        let k = find_edit(&self.edit, sid.as_slice());
        let ghost e = if k < olde.len() { olde[k as int].edit } else { DiffEditV { set: Seq::empty(), delete: Seq::empty() } };
        if k == self.edit.len() {
            let fresh = RecordEdit { uuid: sid, edit: DiffEdit { set: Vec::new(), delete: Vec::new() } };
            assert(fresh@.edit.set =~= Seq::<FieldV>::empty());
            assert(fresh@.edit.delete =~= Seq::<u8>::empty());
            self.edit.push(fresh);
            assert(edits_view(self.edit@) =~= olde.push(fresh@));
        }
        assert(edits_view(self.edit@)[k as int].edit == e);
        let ghost mid = edits_view(self.edit@);
        let mut rec = self.edit.remove(k);
        assert(rec@ == mid[k as int]);
        let j = find_field(&rec.edit.set, FIELD_NOTES, 0);
        if j < rec.edit.set.len() {
            rec.edit.set.set(j, Field { ty: FIELD_NOTES, data: bytes });
        } else {
            rec.edit.set.push(Field { ty: FIELD_NOTES, data: bytes });
        }
        let ghost set = if j < e.set.len() { e.set.update(j as int, note) } else { e.set.push(note) };
        assert(rec@.edit.set =~= set);
        proof {
            if k < olde.len() {
                lemma_edit_index_found(olde, state_uuid(), 0);
            }
        }
        assert(rec@.uuid == state_uuid());
        let ghost ne = RecordEditV { uuid: state_uuid(), edit: DiffEditV { set, delete: e.delete } };
        assert(rec@ == ne);
        let ghost pre_insert = self.edit@;
        self.edit.insert(k, rec);
        assert(edits_view(self.edit@) =~= mid.update(k as int, ne));
        proof {
            lemma_edit_index_found(olde, state_uuid(), 0);
            if k < olde.len() {
                assert(mid =~= olde);
            } else {
                assert(mid.update(k as int, ne) =~= olde.push(ne));
            }
            let fe = edits_view(self.edit@);
            if edit_ids_distinct(olde) {
                assert forall|a: int, b: int| 0 <= a < b < fe.len() implies fe[a].uuid != fe[b].uuid by {
                    if k < olde.len() {
                        assert(fe[a].uuid == olde[a].uuid && fe[b].uuid == olde[b].uuid);
                    } else if b < olde.len() {
                        assert(fe[a] == olde[a] && fe[b] == olde[b]);
                    } else {
                        assert(fe[a] == olde[a]);
                    }
                }
            }
        }
    }
}

/// The record that an edit of a missing identifier creates.
fn new_record_of(e: &RecordEdit) -> (r: RecordDescriptor)
    ensures
        r@ == new_record(e@),
{
    let uuid = copy_range(e.uuid.as_slice(), 0, e.uuid.len());
    assert(e.uuid@.subrange(0, e.uuid@.len() as int) =~= e.uuid@);
    let mut fields: Vec<Field> = Vec::new();
    fields.push(Field { ty: FIELD_UUID, data: copy_range(e.uuid.as_slice(), 0, e.uuid.len()) });
    assert(fields_view(fields@) =~= seq![(FIELD_UUID, e.uuid@)]);
    let mut i: usize = 0;
    while i < e.edit.set.len()
        invariant
            0 <= i <= e.edit.set@.len(),
            e.uuid@ == uuid@,
            fields_view(fields@) == seq![(FIELD_UUID, e.uuid@)] + fields_view(e.edit.set@.subrange(0, i as int)),
        decreases e.edit.set@.len() - i,
    {
        let ghost prev = fields@;
        fields.push(e.edit.set[i].duplicate());
        assert(fields_view(fields@) =~= fields_view(prev).push(e.edit.set@[i as int]@));
        assert(fields_view(e.edit.set@.subrange(0, i + 1)) =~= fields_view(e.edit.set@.subrange(0, i as int)).push(e.edit.set@[i as int]@));
        i = i + 1;
    }
    assert(e.edit.set@.subrange(0, e.edit.set@.len() as int) =~= e.edit.set@);
    RecordDescriptor { uuid, fields }
}

/// Applying a changeset that neither deletes nor edits gives the database back.
pub proof fn lemma_empty_diff_identity(d: DiffV, s: StreamV)
    requires
        diff_is_empty(d),
    ensures
        apply_stream(d, s) == s,
{
    lemma_apply_records_empty(d, s.records);
    assert(new_records(d.edit, s.records) =~= Seq::<RecordV>::empty());
    assert(apply_records(d, s.records) + new_records(d.edit, s.records) =~= s.records);
}

proof fn lemma_apply_records_empty(d: DiffV, rs: Seq<RecordV>)
    requires
        diff_is_empty(d),
    ensures
        apply_records(d, rs) == rs,
    decreases rs.len(),
{
    if rs.len() > 0 {
        lemma_apply_records_empty(d, rs.drop_last());
        assert(!d.delete.contains(rs.last().uuid));
        assert(rs.drop_last().push(rs.last()) =~= rs);
    }
}

} // verus!
