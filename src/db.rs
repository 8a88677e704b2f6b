//! The database façade: the shared remote base, the FIFO of local changesets
//! layered on it, the fingerprint of the file as last seen, and the engine's
//! persisted state.
use vstd::prelude::*;
use crate::base::{opt_record_view, visit_spec, BaseV, DiffableBase, Update, VisitError};
use crate::codec::{decode_file, encode_file, fields_fit, is_container_of, CodecError, EncodeError, PwsafeKey, PwsafeReader};
use crate::diff::{apply_stream, diff_is_empty, diff_wf, edits_view, ids_view, with_state, Diff, DiffV, RecordEdit};
use crate::fields::{fields_view, Field, FIELD_NOTES};
use crate::stream::{copy_fields, find_field, find_type, flatten, parse_stream, stream_of, RecordV, Stream, StreamError, StreamV};
use crate::timestamp::{duplicate_opt, opt_view, Timestamp, TimestampV};
use vstd::utf8::encode_utf8;

verus! {

/// The engine's persisted state, kept in the state record's notes.
pub struct State {
    /// The transport session, as its serialized text.
    pub session: Option<String>,
    /// The room identifier.
    pub room: Option<String>,
    /// The latest remote changeset absorbed into the remote base.
    pub remote_until: Option<Timestamp>,
}

impl State {
    /// No session, no room, nothing absorbed.
    pub fn new() -> (r: State)
        ensures
            r.session is None,
            r.room is None,
            r.remote_until is None,
    {
        State { session: None, room: None, remote_until: None }
    }
}

/// Why a database operation failed.
#[derive(Debug, PartialEq, Eq)]
pub enum DbError {
    /// The file could not be opened or decrypted.
    Codec(CodecError),
    /// The fields do not form records.
    Stream(StreamError),
    /// The records cannot be fingerprinted.
    Visit(VisitError),
    /// A field is too long to be written.
    Encode(EncodeError),
}

/// The parsed database held in the bytes of a file, if it opens.
pub open spec fn snapshot_of(file: Seq<u8>, pw: Seq<u8>) -> Option<StreamV> {
    match decode_file(file, pw) {
        Ok((_, fs)) => stream_of(fs),
        Err(_) => None,
    }
}

/// The database after re-reading `file`: the changes found become a local
/// changeset and the fingerprint follows the file; `None` where it cannot be read.
pub open spec fn refresh_spec(d: DbV, file: Seq<u8>) -> Option<DbV> {
    match snapshot_of(file, d.secret) {
        None => None,
        Some(s) => match visit_spec(d.base, s) {
            None => None,
            Some((nb, df, _)) => Some(DbV { base: nb, locals: if diff_is_empty(df) { d.locals } else { d.locals.push(df) }, ..d }),
        },
    }
}

/// Why the bytes of a file do not open as records: the container's own
/// error, or fields that do not form records.
pub open spec fn open_error(file: Seq<u8>, pw: Seq<u8>, e: DbError) -> bool {
    match decode_file(file, pw) {
        Err(ce) => e == DbError::Codec(ce),
        Ok((_, fs)) => stream_of(fs) is None && e == DbError::Stream(StreamError::MissingUuid),
    }
}

/// The data of the state record's first notes field.
pub open spec fn notes_of(r: Option<RecordV>) -> Option<Seq<u8>> {
    match r {
        Some(rec) => {
            let k = find_type(rec.fields, FIELD_NOTES, 0);
            if k < rec.fields.len() { Some(rec.fields[k as int].1) } else { None }
        },
        None => None,
    }
}

/// A parsed database after each changeset in turn.
pub open spec fn apply_all(s: StreamV, ds: Seq<DiffV>) -> StreamV
    decreases ds.len(),
{
    if ds.len() == 0 {
        s
    } else {
        apply_stream(ds.last(), apply_all(s, ds.drop_last()))
    }
}

/// What is written to disk: the remote base with every local changeset
/// applied, the last one also setting the state record's notes to `st`.
pub open spec fn render_spec(remote: StreamV, locals: Seq<DiffV>, pepper: Seq<u8>, st: Seq<u8>) -> StreamV {
    if locals.len() == 0 {
        apply_stream(with_state(DiffV { pepper, delete: Seq::empty(), edit: Seq::empty() }, st), remote)
    } else {
        apply_stream(with_state(locals.last(), st), apply_all(remote, locals.drop_last()))
    }
}

/// The database.
pub struct PwsafeDb {
    state: State,
    remote: Stream,
    local_diff: Vec<Diff>,
    key: PwsafeKey,
    iter: u32,
    local_diff_base: DiffableBase,
}

/// Mathematical value of the database.
pub struct DbV {
    pub remote: StreamV,
    pub locals: Seq<DiffV>,
    pub base: BaseV,
    pub remote_until: Option<TimestampV>,
    pub session: Option<String>,
    pub room: Option<String>,
    pub secret: Seq<u8>,
    pub iter: u32,
}

/// The values of a list of changesets.
pub open spec fn diffs_view(v: Seq<Diff>) -> Seq<DiffV> {
    v.map_values(|d: Diff| d@)
}

/// The values of a list of timestamps.
pub open spec fn times_view(v: Seq<Timestamp>) -> Seq<TimestampV> {
    v.map_values(|t: Timestamp| t@)
}

impl View for PwsafeDb {
    type V = DbV;

    closed spec fn view(&self) -> DbV {
        DbV {
            remote: self.remote@,
            locals: diffs_view(self.local_diff@),
            base: self.local_diff_base@,
            remote_until: opt_view(self.state.remote_until),
            session: self.state.session,
            room: self.state.room,
            secret: self.key.secret(),
            iter: self.iter,
        }
    }
}

/// A rendered file ready to replace the one on disk, with the fingerprint
/// the database adopts once it is written.
pub struct Rewrite {
    bytes: Vec<u8>,
    base: DiffableBase,
    rendered: Ghost<StreamV>,
}

impl Rewrite {
    /// The fingerprint of what was rendered.
    pub closed spec fn base(&self) -> BaseV {
        self.base@
    }

    /// The database that was rendered.
    pub closed spec fn rendered(&self) -> StreamV {
        self.rendered@
    }

    /// The fingerprint is well formed.
    pub closed spec fn wf(&self) -> bool {
        self.base.wf()
    }

    /// The bytes of the new file.
    pub closed spec fn file(&self) -> Seq<u8> {
        self.bytes@
    }

    /// The bytes of the new file.
    pub fn bytes(&self) -> (r: &[u8])
        ensures
            r@ == self.file(),
    {
        self.bytes.as_slice()
    }
}

/// Opens and parses a file's bytes.
pub fn read_snapshot(file: &[u8], key: &PwsafeKey) -> (r: Result<(Stream, u32), DbError>)
    ensures
        match r {
            Ok((s, iter)) => snapshot_of(file@, key.secret()) == Some(s@)
                && decode_file(file@, key.secret()) is Ok && decode_file(file@, key.secret()).unwrap().0 == iter as nat,
            Err(e) => snapshot_of(file@, key.secret()) is None && open_error(file@, key.secret(), e),
        },
{
    let mut reader = match PwsafeReader::new(file, key) {
        Ok(rd) => rd,
        Err(e) => {
            return Err(DbError::Codec(e));
        },
    };
    let mut fields: Vec<Field> = Vec::new();
    let n = reader.len();
    let mut i: usize = 0;
    let ghost r0 = reader@;
    while i < n
        invariant
            reader.wf(),
            reader@.fields == r0.fields,
            reader@.iter == r0.iter,
            n == reader@.fields.len(),
            reader@.pos == i,
            0 <= i <= n,
            fields_view(fields@) == reader@.fields.subrange(0, i as int),
        decreases n - i,
    {
        match reader.read_field() {
            Some(f) => {
                let ghost prev = fields@;
                fields.push(f);
                assert(fields_view(fields@) =~= fields_view(prev).push(f@));
                assert(reader@.fields.subrange(0, i + 1) =~= reader@.fields.subrange(0, i as int).push(reader@.fields[i as int]));
            },
            None => {},
        }
        i = i + 1;
    }
    assert(reader@.fields.subrange(0, n as int) =~= reader@.fields);
    match parse_stream(&fields) {
        Ok(s) => Ok((s, reader.get_iter())),
        Err(e) => Err(DbError::Stream(e)),
    }
}

/// The data of the state record's first notes field.
fn state_notes(r: &Option<crate::stream::RecordDescriptor>) -> (n: Option<Vec<u8>>)
    ensures
        match n {
            Some(v) => notes_of(opt_record_view(*r)) == Some(v@),
            None => notes_of(opt_record_view(*r)) is None,
        },
{
    match r {
        Some(rec) => {
            let k = find_field(&rec.fields, FIELD_NOTES, 0);
            if k < rec.fields.len() {
                let d = crate::bytes::copy_all(rec.fields[k].data.as_slice());
                Some(d)
            } else {
                None
            }
        },
        None => None,
    }
}

impl PwsafeDb {
    /// The fingerprint is well formed.
    pub closed spec fn wf(&self) -> bool {
        self.local_diff_base.wf()
    }

    /// Opens a database file: the remote base starts with the file's header
    /// and no records, the whole content becomes the first local changeset
    /// against a fresh fingerprint. Returns the state record's notes, if any.
    pub fn open(file: &[u8], password: &[u8]) -> (r: Result<(PwsafeDb, Option<Vec<u8>>), DbError>)
        ensures
            match r {
                Ok((db, notes)) => db.wf() && db@.secret == password@ && db@.remote_until is None
                    && db@.session is None && db@.room is None
                    && db@.base.pepper.len() == 16
                    && (match snapshot_of(file@, password@) {
                        Some(s) => {
                            &&& db@.remote == (StreamV { header: s.header, records: Seq::empty() })
                            &&& visit_spec(BaseV { pepper: db@.base.pepper, marks: Seq::empty(), entries: Seq::empty() }, s) matches Some((nb, d, st))
                            &&& db@.base == nb && db@.locals == seq![d]
                            &&& match notes { Some(v) => notes_of(st) == Some(v@), None => notes_of(st) is None }
                        },
                        None => false,
                    }),
                Err(e) => match snapshot_of(file@, password@) {
                    None => open_error(file@, password@, e),
                    Some(s) => e == DbError::Visit(VisitError::DuplicateRecord) && forall|p: Seq<u8>| p.len() == 16 ==>
                        #[trigger] visit_spec(BaseV { pepper: p, marks: Seq::empty(), entries: Seq::empty() }, s) is None,
                },
            },
    {
        let key = PwsafeKey::new(password);
        let (s, iter) = read_snapshot(file, &key)?;
        let base0 = DiffableBase::fresh();
        proof {
            assert(base0@.marks =~= Seq::empty());
            assert(base0@.entries =~= Seq::empty());
        }
        let update = match base0.visit(&s) {
            Ok(u) => u,
            Err(e) => {
                proof { lemma_visit_ignores_pepper_on_duplicates(s@, base0@.pepper); }
                return Err(DbError::Visit(e));
            },
        };
        let Update { new_base, diff, state_record } = update;
        let notes = state_notes(&state_record);
        let remote = Stream { header: copy_fields(&s.header), records: Vec::new() };
        assert(remote@.records =~= Seq::empty());
        let mut local_diff: Vec<Diff> = Vec::new();
        local_diff.push(diff);
        assert(diffs_view(local_diff@) =~= seq![local_diff@[0]@]);
        let db = PwsafeDb { state: State::new(), remote, local_diff, key, iter, local_diff_base: new_base };
        Ok((db, notes))
    }

    /// Layers a changeset on top of the local FIFO.
    pub fn apply(&mut self, diff: Diff)
        ensures
            final(self)@ == (DbV { locals: old(self)@.locals.push(diff@), ..old(self)@ }),
            final(self).wf() == old(self).wf(),
    {
        let ghost prev = self.local_diff@;
        self.local_diff.push(diff);
        assert(diffs_view(self.local_diff@) =~= diffs_view(prev).push(diff@));
    }

    /// Drops the oldest local changeset, once it is published and absorbed.
    pub fn pop_diff(&mut self)
        ensures
            final(self)@ == (DbV { locals: if old(self)@.locals.len() > 0 { old(self)@.locals.drop_first() } else { old(self)@.locals }, ..old(self)@ }),
            final(self).wf() == old(self).wf(),
    {
        if self.local_diff.len() > 0 {
            let ghost prev = self.local_diff@;
            self.local_diff.remove(0);
            assert(diffs_view(self.local_diff@) =~= diffs_view(prev).drop_first());
        }
    }

    /// Number of local changesets not yet published.
    pub fn pending_locals(&self) -> (r: usize)
        ensures
            r == self@.locals.len(),
    {
        self.local_diff.len()
    }

    /// Pairs a received changeset with this database's pepper; `None` where
    /// it deletes or edits a record twice.
    pub fn diff(&self, delete: Vec<Vec<u8>>, edit: Vec<RecordEdit>) -> (r: Option<Diff>)
        ensures
            match r {
                Some(d) => d@ == (DiffV { pepper: self@.base.pepper, delete: ids_view(delete@), edit: edits_view(edit@) }) && diff_wf(d@),
                None => !diff_wf(DiffV { pepper: self@.base.pepper, delete: ids_view(delete@), edit: edits_view(edit@) }),
            },
    {
        self.local_diff_base.deserialize(delete, edit)
    }

    /// The latest absorbed remote timestamp.
    pub fn remote_until(&self) -> (r: Option<Timestamp>)
        ensures
            opt_view(r) == self@.remote_until,
    {
        duplicate_opt(&self.state.remote_until)
    }

    /// The stored transport session.
    pub fn session(&self) -> (r: &Option<String>)
        ensures
            *r == self@.session,
    {
        &self.state.session
    }

    /// Stores the transport session.
    pub fn set_session(&mut self, session: String)
        ensures
            final(self)@ == (DbV { session: Some(session), ..old(self)@ }),
            final(self).wf() == old(self).wf(),
    {
        self.state.session = Some(session);
    }

    /// The stored room identifier.
    pub fn room(&self) -> (r: &Option<String>)
        ensures
            *r == self@.room,
    {
        &self.state.room
    }

    /// Stores the room identifier.
    pub fn set_room(&mut self, room: String)
        ensures
            final(self)@ == (DbV { room: Some(room), ..old(self)@ }),
            final(self).wf() == old(self).wf(),
    {
        self.state.room = Some(room);
    }

    /// The stored state.
    pub fn state(&self) -> (r: &State)
        ensures
            opt_view(r.remote_until) == self@.remote_until,
            r.session == self@.session,
            r.room == self@.room,
    {
        &self.state
    }

    /// Replaces the stored state, as read back from the state record.
    pub fn set_state(&mut self, state: State)
        ensures
            final(self)@ == (DbV { remote_until: opt_view(state.remote_until), session: state.session, room: state.room, ..old(self)@ }),
            final(self).wf() == old(self).wf(),
    {
        self.state = state;
    }

    /// Re-reads the file: the changes of whoever edited it since it was last
    /// seen become a new local changeset, and the fingerprint follows the file.
    /// Returns whether a changeset was added.
    pub fn refresh(&mut self, file: &[u8]) -> (r: Result<bool, DbError>)
        requires
            old(self).wf(),
        ensures
            final(self).wf(),
            match refresh_spec(old(self)@, file@) {
                Some(d) => r is Ok && final(self)@ == d && r.unwrap() == (d.locals.len() > old(self)@.locals.len()),
                None => r is Err && final(self)@ == old(self)@,
            },
    {
        let (s, _) = read_snapshot(file, &self.key)?;
        let update = match self.local_diff_base.visit(&s) {
            Ok(u) => u,
            Err(e) => {
                return Err(DbError::Visit(e));
            },
        };
        let Update { new_base, diff, state_record: _ } = update;
        let added = !diff.is_empty();
        if added {
            self.apply(diff);
        }
        self.local_diff_base = new_base;
        Ok(added)
    }

    /// Absorbs remote changesets into the remote base, in order, each one's
    /// timestamp becoming the latest absorbed.
    pub fn rebase(&mut self, diffs: &Vec<Diff>, times: &Vec<Timestamp>)
        requires
            diffs@.len() == times@.len(),
        ensures
            final(self).wf() == old(self).wf(),
            final(self)@ == (DbV {
                remote: apply_all(old(self)@.remote, diffs_view(diffs@)),
                remote_until: if times@.len() == 0 { old(self)@.remote_until } else { Some(times@.last()@) },
                ..old(self)@
            }),
    {
        let ghost dv = diffs_view(diffs@);
        let mut i: usize = 0;
        while i < diffs.len()
            invariant
                diffs@.len() == times@.len(),
                dv == diffs_view(diffs@),
                0 <= i <= diffs@.len(),
                self.wf() == old(self).wf(),
                self@ == (DbV {
                    remote: apply_all(old(self)@.remote, dv.subrange(0, i as int)),
                    remote_until: if i == 0 { old(self)@.remote_until } else { Some(times@[i - 1]@) },
                    ..old(self)@
                }),
            decreases diffs@.len() - i,
        {
            let next = diffs[i].apply(&self.remote);
            self.remote = next;
            self.state.remote_until = Some(times[i].duplicate());
            assert(dv.subrange(0, i + 1).drop_last() =~= dv.subrange(0, i as int));
            i = i + 1;
        }
        assert(dv.subrange(0, diffs@.len() as int) =~= dv);
    }

    /// The remote base with every local changeset applied, the last one also
    /// setting the state record's notes to `state`.
    pub fn render(&self, state: String) -> (r: Stream)
        ensures
            r@ == render_spec(self@.remote, self@.locals, self@.base.pepper, encode_utf8(state@)),
    {
        let n = self.local_diff.len();
        let ghost lv = diffs_view(self.local_diff@);
        if n == 0 {
            let mut d = Diff::empty(&self.local_diff_base);
            assert(d@.delete =~= Seq::empty());
            assert(d@.edit =~= Seq::empty());
            d.add_state(state);
            return d.apply(&self.remote);
        }
        let mut cur = self.remote.duplicate();
        let mut i: usize = 0;
        while i + 1 < n
            invariant
                n == self.local_diff@.len(),
                lv == diffs_view(self.local_diff@),
                n > 0,
                0 <= i < n,
                cur@ == apply_all(self@.remote, lv.subrange(0, i as int)),
            decreases n - i,
        {
            cur = self.local_diff[i].apply(&cur);
            assert(lv.subrange(0, i + 1).drop_last() =~= lv.subrange(0, i as int));
            i = i + 1;
        }
        assert(lv.subrange(0, (n - 1) as int) =~= lv.drop_last());
        let mut last = self.local_diff[n - 1].duplicate();
        last.add_state(state);
        last.apply(&cur)
    }

    /// Renders the database into the bytes of a new file under the same
    /// passphrase and iteration count, with the fingerprint of what was rendered.
    pub fn prepare_rewrite(&self, state: String) -> (r: Result<Rewrite, DbError>)
        requires
            self.wf(),
        ensures
            match r {
                Ok(rw) => {
                    &&& rw.wf()
                    &&& rw.rendered() == render_spec(self@.remote, self@.locals, self@.base.pepper, encode_utf8(state@))
                    &&& is_container_of(rw.file(), self@.secret, self@.iter, flatten(rw.rendered()))
                    &&& visit_spec(self@.base, rw.rendered()) matches Some((nb, _, _))
                    &&& rw.base() == nb
                },
                Err(_) => visit_spec(self@.base, render_spec(self@.remote, self@.locals, self@.base.pepper, encode_utf8(state@))) is None
                    || !fields_fit(flatten(render_spec(self@.remote, self@.locals, self@.base.pepper, encode_utf8(state@)))),
            },
    {
        let rendered = self.render(state);
        let update = match self.local_diff_base.visit(&rendered) {
            Ok(u) => u,
            Err(e) => {
                return Err(DbError::Visit(e));
            },
        };
        let fields = rendered.to_fields();
        let bytes = match encode_file(self.iter, &self.key, &fields) {
            Ok(b) => b,
            Err(e) => {
                return Err(DbError::Encode(e));
            },
        };
        Ok(Rewrite { bytes, base: update.new_base, rendered: Ghost(rendered@) })
    }

    /// Adopts the fingerprint of a rewrite once its bytes are on disk.
    pub fn finish_rewrite(&mut self, rw: Rewrite)
        requires
            rw.wf(),
        ensures
            final(self).wf(),
            final(self)@ == (DbV { base: rw.base(), ..old(self)@ }),
    {
        self.local_diff_base = rw.base;
    }
}

impl Diff {
    /// Copies the changeset.
    pub fn duplicate(&self) -> (r: Diff)
        ensures
            r@ == self@,
    {
        let mut delete: Vec<Vec<u8>> = Vec::new();
        let mut i: usize = 0;
        while i < self.delete.len()
            invariant
                0 <= i <= self.delete@.len(),
                ids_view(delete@) == ids_view(self.delete@.subrange(0, i as int)),
            decreases self.delete@.len() - i,
        {
            let id = crate::bytes::copy_all(self.delete[i].as_slice());
            let ghost prev = delete@;
            delete.push(id);
            assert(ids_view(delete@) =~= ids_view(prev).push(id@));
            assert(ids_view(self.delete@.subrange(0, i + 1)) =~= ids_view(self.delete@.subrange(0, i as int)).push(self.delete@[i as int]@));
            i = i + 1;
        }
        let mut edit: Vec<RecordEdit> = Vec::new();
        let mut j: usize = 0;
        while j < self.edit.len()
            invariant
                0 <= j <= self.edit@.len(),
                edits_view(edit@) == edits_view(self.edit@.subrange(0, j as int)),
            decreases self.edit@.len() - j,
        {
            let e = &self.edit[j];
            let ne = RecordEdit {
                uuid: crate::bytes::copy_all(e.uuid.as_slice()),
                edit: crate::diff::DiffEdit { set: copy_fields(&e.edit.set), delete: crate::bytes::copy_all(e.edit.delete.as_slice()) },
            };
            assert(ne@ == e@);
            let ghost prev = edit@;
            edit.push(ne);
            assert(edits_view(edit@) =~= edits_view(prev).push(ne@));
            assert(edits_view(self.edit@.subrange(0, j + 1)) =~= edits_view(self.edit@.subrange(0, j as int)).push(self.edit@[j as int]@));
            j = j + 1;
        }
        assert(self.delete@.subrange(0, self.delete@.len() as int) =~= self.delete@);
        assert(self.edit@.subrange(0, self.edit@.len() as int) =~= self.edit@);
        Diff { pepper: crate::bytes::copy_all(self.pepper.as_slice()), delete, edit }
    }
}

impl Stream {
    /// Copies the parsed database.
    pub fn duplicate(&self) -> (r: Stream)
        ensures
            r@ == self@,
    {
        let header = copy_fields(&self.header);
        let mut records: Vec<crate::stream::RecordDescriptor> = Vec::new();
        let mut i: usize = 0;
        while i < self.records.len()
            invariant
                0 <= i <= self.records@.len(),
                crate::stream::records_view(records@) == crate::stream::records_view(self.records@.subrange(0, i as int)),
            decreases self.records@.len() - i,
        {
            let r = self.records[i].duplicate();
            let ghost prev = records@;
            records.push(r);
            assert(crate::stream::records_view(records@) =~= crate::stream::records_view(prev).push(r@));
            assert(crate::stream::records_view(self.records@.subrange(0, i + 1)) =~= crate::stream::records_view(self.records@.subrange(0, i as int)).push(self.records@[i as int]@));
            i = i + 1;
        }
        assert(self.records@.subrange(0, self.records@.len() as int) =~= self.records@);
        Stream { header, records }
    }
}

/// Whether records repeat an identifier does not depend on the pepper.
proof fn lemma_visit_ignores_pepper_on_duplicates(s: StreamV, p: Seq<u8>)
    requires
        visit_spec(BaseV { pepper: p, marks: Seq::empty(), entries: Seq::empty() }, s) is None,
    ensures
        forall|q: Seq<u8>| q.len() == 16 ==>
            #[trigger] visit_spec(BaseV { pepper: q, marks: Seq::empty(), entries: Seq::empty() }, s) is None,
{
    assert forall|q: Seq<u8>| q.len() == 16 implies
        #[trigger] visit_spec(BaseV { pepper: q, marks: Seq::empty(), entries: Seq::empty() }, s) is None by {
        crate::base::lemma_visit_acc_entries_ids(BaseV { pepper: p, marks: Seq::empty(), entries: Seq::empty() },
            BaseV { pepper: q, marks: Seq::empty(), entries: Seq::empty() }, s.records);
    }
}

} // verus!
