//! A database's fields grouped into the header and the records that follow it.
use vstd::prelude::*;
use crate::bytes::copy_range;
use crate::fields::{fields_view, Field, FieldV, FIELD_END, FIELD_UUID};

verus! {

/// One record: its identifier and its fields, the end-of-record field excluded.
pub struct RecordDescriptor {
    pub uuid: Vec<u8>,
    pub fields: Vec<Field>,
}

/// Mathematical value of a record.
pub struct RecordV {
    pub uuid: Seq<u8>,
    pub fields: Seq<FieldV>,
}

impl View for RecordDescriptor {
    type V = RecordV;

    open spec fn view(&self) -> RecordV {
        RecordV { uuid: self.uuid@, fields: fields_view(self.fields@) }
    }
}

/// The values of a sequence of records.
pub open spec fn records_view(v: Seq<RecordDescriptor>) -> Seq<RecordV> {
    v.map_values(|r: RecordDescriptor| r@)
}

/// A parsed database: header fields (end-of-header excluded) and records.
pub struct Stream {
    pub header: Vec<Field>,
    pub records: Vec<RecordDescriptor>,
}

/// Mathematical value of a parsed database.
pub struct StreamV {
    pub header: Seq<FieldV>,
    pub records: Seq<RecordV>,
}

impl View for Stream {
    type V = StreamV;

    open spec fn view(&self) -> StreamV {
        StreamV { header: fields_view(self.header@), records: records_view(self.records@) }
    }
}

/// Why fields could not be grouped into records.
#[derive(Debug, PartialEq, Eq)]
pub enum StreamError {
    /// A record lacks a 16-byte identifier field.
    MissingUuid,
}

/// Index of the first field of type `t` at or after `i`, or the length.
pub open spec fn find_type(fs: Seq<FieldV>, t: u8, i: nat) -> nat
    decreases fs.len() - i,
{
    if i >= fs.len() {
        fs.len()
    } else if fs[i as int].0 == t {
        i
    } else {
        find_type(fs, t, i + 1)
    }
}

/// The fields after the header, split at each end-of-record field: the closed
/// groups and the group still open at the end.
pub open spec fn chunks(fs: Seq<FieldV>) -> (Seq<Seq<FieldV>>, Seq<FieldV>)
    decreases fs.len(),
{
    if fs.len() == 0 {
        (Seq::empty(), Seq::empty())
    } else {
        let (done, open) = chunks(fs.drop_last());
        if fs.last().0 == FIELD_END {
            (done.push(open), Seq::empty())
        } else {
            (done, open.push(fs.last()))
        }
    }
}

/// The groups of fields that make up records.
pub open spec fn groups(body: Seq<FieldV>) -> Seq<Seq<FieldV>> {
    let (done, open) = chunks(body);
    if open.len() == 0 { done } else { done.push(open) }
}

/// The identifier of a group: the data of its first identifier field, which
/// must be 16 bytes long.
pub open spec fn uuid_of(g: Seq<FieldV>) -> Option<Seq<u8>> {
    let k = find_type(g, FIELD_UUID, 0);
    if k < g.len() && g[k as int].1.len() == 16 { Some(g[k as int].1) } else { None }
}

/// Records of the groups, or `None` where one lacks an identifier.
pub open spec fn records_of(gs: Seq<Seq<FieldV>>) -> Option<Seq<RecordV>>
    decreases gs.len(),
{
    if gs.len() == 0 {
        Some(Seq::empty())
    } else {
        match (records_of(gs.drop_last()), uuid_of(gs.last())) {
            (Some(rs), Some(id)) => Some(rs.push(RecordV { uuid: id, fields: gs.last() })),
            _ => None,
        }
    }
}

/// The header and records of a field sequence.
pub open spec fn stream_of(fs: Seq<FieldV>) -> Option<StreamV> {
    let h = find_type(fs, FIELD_END, 0);
    let body = if h < fs.len() { fs.subrange((h + 1) as int, fs.len() as int) } else { Seq::empty() };
    match records_of(groups(body)) {
        Some(rs) => Some(StreamV { header: fs.subrange(0, h as int), records: rs }),
        None => None,
    }
}

/// The end-of-record (or end-of-header) field.
pub open spec fn end_field() -> FieldV {
    (FIELD_END, Seq::empty())
}

/// A record's fields followed by its end-of-record field.
pub open spec fn record_fields(r: RecordV) -> Seq<FieldV> {
    r.fields.push(end_field())
}

/// The fields of records, one after the other.
pub open spec fn flatten_records(rs: Seq<RecordV>) -> Seq<FieldV>
    decreases rs.len(),
{
    if rs.len() == 0 {
        Seq::empty()
    } else {
        flatten_records(rs.drop_last()) + record_fields(rs.last())
    }
}

/// The fields that a parsed database is written as.
pub open spec fn flatten(s: StreamV) -> Seq<FieldV> {
    s.header.push(end_field()) + flatten_records(s.records)
}

/// Index of the first field of type `t` at or after `i`.
pub fn find_field(fs: &Vec<Field>, t: u8, i: usize) -> (r: usize)
    requires
        i <= fs@.len(),
    ensures
        r == find_type(fields_view(fs@), t, i as nat),
        i <= r <= fs@.len(),
{
    let mut k = i;
    while k < fs.len() && fs[k].ty != t
        invariant
            i <= k <= fs@.len(),
            find_type(fields_view(fs@), t, i as nat) == find_type(fields_view(fs@), t, k as nat),
        decreases fs@.len() - k,
    {
        k = k + 1;
    }
    k
}

/// Copies a list of fields.
pub fn copy_fields(fs: &Vec<Field>) -> (r: Vec<Field>)
    ensures
        fields_view(r@) == fields_view(fs@),
{
    let mut r: Vec<Field> = Vec::new();
    let mut i: usize = 0;
    while i < fs.len()
        invariant
            0 <= i <= fs@.len(),
            fields_view(r@) == fields_view(fs@.subrange(0, i as int)),
        decreases fs@.len() - i,
    {
        r.push(fs[i].duplicate());
        assert(fields_view(fs@.subrange(0, i + 1)) =~= fields_view(fs@.subrange(0, i as int)).push(fs@[i as int]@));
        assert(fields_view(r@) =~= fields_view(fs@.subrange(0, i as int)).push(fs@[i as int]@));
        i = i + 1;
    }
    assert(fs@.subrange(0, fs@.len() as int) =~= fs@);
    r
}

impl RecordDescriptor {
    /// Copies the record.
    pub fn duplicate(&self) -> (r: RecordDescriptor)
        ensures
            r@ == self@,
    {
        let uuid = copy_range(self.uuid.as_slice(), 0, self.uuid.len());
        assert(self.uuid@.subrange(0, self.uuid@.len() as int) =~= self.uuid@);
        RecordDescriptor { uuid, fields: copy_fields(&self.fields) }
    }
}

/// Builds the record of one group of fields.
fn record_of_group(g: Vec<Field>) -> (r: Result<RecordDescriptor, StreamError>)
    ensures
        match r {
            Ok(rec) => uuid_of(fields_view(g@)) == Some(rec@.uuid) && rec@.fields == fields_view(g@),
            Err(_) => uuid_of(fields_view(g@)) is None,
        },
{
    let k = find_field(&g, FIELD_UUID, 0);
    if k < g.len() && g[k].data.len() == 16 {
        let uuid = copy_range(g[k].data.as_slice(), 0, 16);
        assert(g@[k as int].data@.subrange(0, 16) =~= g@[k as int].data@);
        Ok(RecordDescriptor { uuid, fields: g })
    } else {
        Err(StreamError::MissingUuid)
    }
}

/// Groups a field sequence into its header and records.
pub fn parse_stream(fs: &Vec<Field>) -> (r: Result<Stream, StreamError>)
    ensures
        match r {
            Ok(s) => stream_of(fields_view(fs@)) == Some(s@),
            Err(_) => stream_of(fields_view(fs@)) is None,
        },
{
    let ghost fv = fields_view(fs@);
    let h = find_field(fs, FIELD_END, 0);
    let mut header: Vec<Field> = Vec::new();
    let mut i: usize = 0;
    while i < h
        invariant
            h <= fs@.len(),
            0 <= i <= h,
            fv == fields_view(fs@),
            fields_view(header@) == fv.subrange(0, i as int),
        decreases h - i,
    {
        header.push(fs[i].duplicate());
        assert(fv.subrange(0, i + 1) =~= fv.subrange(0, i as int).push(fv[i as int]));
        i = i + 1;
    }
    let ghost body = if h < fs@.len() { fv.subrange(h + 1, fv.len() as int) } else { Seq::<FieldV>::empty() };
    let start: usize = if h < fs.len() { h + 1 } else { fs.len() };
    let mut done: Vec<Vec<Field>> = Vec::new();
    let mut open: Vec<Field> = Vec::new();
    let mut j: usize = start;
    assert(body =~= fv.subrange(start as int, fv.len() as int));
    while j < fs.len()
        invariant
            start <= j <= fs@.len(),
            body == fv.subrange(start as int, fv.len() as int),
            h == find_type(fv, FIELD_END, 0),
            body == (if h < fs@.len() { fv.subrange(h + 1, fv.len() as int) } else { Seq::<FieldV>::empty() }),
            fields_view(header@) == fv.subrange(0, h as int),
            fv == fields_view(fs@),
            chunks(fv.subrange(start as int, j as int)).0 == done@.map_values(|g: Vec<Field>| fields_view(g@)),
            chunks(fv.subrange(start as int, j as int)).1 == fields_view(open@),
        decreases fs@.len() - j,
    {
        let ghost pre = fv.subrange(start as int, j as int);
        assert(fv.subrange(start as int, j + 1).drop_last() =~= pre);
        assert(fv.subrange(start as int, j + 1).last() == fv[j as int]);
        if fs[j].ty == FIELD_END {
            let mut g: Vec<Field> = Vec::new();
            std::mem::swap(&mut g, &mut open);
            done.push(g);
            assert(fields_view(open@) =~= Seq::<FieldV>::empty());
        } else {
            open.push(fs[j].duplicate());
            assert(fields_view(open@) =~= chunks(pre).1.push(fv[j as int]));
        }
        assert(done@.map_values(|g: Vec<Field>| fields_view(g@)) =~= chunks(fv.subrange(start as int, j + 1)).0);
        j = j + 1;
    }
    if open.len() > 0 {
        done.push(open);
    }
    assert(done@.map_values(|g: Vec<Field>| fields_view(g@)) =~= groups(body));
    let mut records: Vec<RecordDescriptor> = Vec::new();
    let mut k: usize = 0;
    let n = done.len();
    let ghost gs = groups(body);
    while k < n
        invariant
            n == gs.len(),
            fv == fields_view(fs@),
            h == find_type(fv, FIELD_END, 0),
            body == (if h < fs@.len() { fv.subrange(h + 1, fv.len() as int) } else { Seq::<FieldV>::empty() }),
            gs == groups(body),
            fields_view(header@) == fv.subrange(0, h as int),
            0 <= k <= n,
            done@.len() == n - k,
            forall|x: int| 0 <= x < n - k ==> fields_view((#[trigger] done@[x])@) == gs[k + x],
            records_of(gs.subrange(0, k as int)) == Some(records_view(records@)),
        decreases n - k,
    {
        let g = done.remove(0);
        assert(fields_view(g@) == gs[k as int]);
        assert(gs.subrange(0, k + 1).drop_last() =~= gs.subrange(0, k as int));
        match record_of_group(g) {
            Ok(rec) => {
                records.push(rec);
                assert(records_view(records@) =~= records_view(records@.drop_last()).push(records@.last()@));
            },
            Err(e) => {
                proof { lemma_records_of_prefix_none(gs, (k + 1) as nat); }
                return Err(e);
            },
        }
        k = k + 1;
    }
    assert(gs.subrange(0, n as int) =~= gs);
    Ok(Stream { header, records })
}

/// Where a prefix has a record without identifier, so has the whole.
proof fn lemma_records_of_prefix_none(gs: Seq<Seq<FieldV>>, k: nat)
    requires
        k <= gs.len(),
        records_of(gs.subrange(0, k as int)) is None,
    ensures
        records_of(gs) is None,
    decreases gs.len() - k,
{
    if k < gs.len() {
        assert(gs.subrange(0, (k + 1) as int).drop_last() =~= gs.subrange(0, k as int));
        lemma_records_of_prefix_none(gs, k + 1);
    } else {
        assert(gs.subrange(0, k as int) =~= gs);
    }
}

/// Appends a record's fields and its end-of-record field to `out`.
pub fn push_record_fields(out: &mut Vec<Field>, r: &RecordDescriptor)
    ensures
        fields_view(final(out)@) == fields_view(old(out)@) + record_fields(r@),
{
    let mut i: usize = 0;
    while i < r.fields.len()
        invariant
            0 <= i <= r.fields@.len(),
            fields_view(out@) == fields_view(old(out)@) + fields_view(r.fields@.subrange(0, i as int)),
        decreases r.fields@.len() - i,
    {
        let ghost prev = out@;
        out.push(r.fields[i].duplicate());
        assert(fields_view(out@) =~= fields_view(prev).push(r.fields@[i as int]@));
        assert(fields_view(r.fields@.subrange(0, i + 1)) =~= fields_view(r.fields@.subrange(0, i as int)).push(r.fields@[i as int]@));
        assert(fields_view(out@) =~= fields_view(old(out)@) + fields_view(r.fields@.subrange(0, i + 1)));
        i = i + 1;
    }
    let ghost prev = out@;
    out.push(Field { ty: FIELD_END, data: Vec::new() });
    assert(fields_view(out@) =~= fields_view(prev).push(end_field()));
    assert(r.fields@.subrange(0, r.fields@.len() as int) =~= r.fields@);
    assert(fields_view(out@) =~= fields_view(old(out)@) + record_fields(r@));
}

impl Stream {
    /// The fields this database is written as: header, end-of-header, then each
    /// record followed by its end-of-record field.
    pub fn to_fields(&self) -> (r: Vec<Field>)
        ensures
            fields_view(r@) == flatten(self@),
    {
        let mut out = copy_fields(&self.header);
        out.push(Field { ty: FIELD_END, data: Vec::new() });
        assert(fields_view(out@) =~= self@.header.push(end_field()));
        let mut i: usize = 0;
        while i < self.records.len()
            invariant
                0 <= i <= self.records@.len(),
                fields_view(out@) == self@.header.push(end_field()) + flatten_records(records_view(self.records@.subrange(0, i as int))),
            decreases self.records@.len() - i,
        {
            push_record_fields(&mut out, &self.records[i]);
            assert(records_view(self.records@.subrange(0, i + 1)).drop_last() =~= records_view(self.records@.subrange(0, i as int)));
            assert(fields_view(out@) =~= self@.header.push(end_field()) + flatten_records(records_view(self.records@.subrange(0, i + 1))));
            i = i + 1;
        }
        assert(self.records@.subrange(0, self.records@.len() as int) =~= self.records@);
        out
    }
}

} // verus!
