use pwsafe_matrix::codec::{encode_file, PwsafeKey, PwsafeReader};
use pwsafe_matrix::db::{DbError, PwsafeDb};
use pwsafe_matrix::diff::{DiffEdit, RecordEdit};
use pwsafe_matrix::fields::Field;
use pwsafe_matrix::stream::{parse_stream, RecordDescriptor, Stream};
use pwsafe_matrix::timestamp::{AwaitTs, Timestamp};
use pwsafe_matrix::work::{Ack, DiffPayload, LoopError, Message, WorkLoop};

const PW: &[u8] = b"password";
const STATE: [u8; 16] = [
    0x02, 0xe4, 0xd7, 0x5b, 0x5f, 0xde, 0x58, 0x2e, 0xb1, 0x0d, 0x40, 0x9f, 0x04, 0x1c, 0x3d, 0x34,
];

fn file_with(records: &[(&[u8], &[u8])]) -> Vec<u8> {
    let mut fields = vec![Field::new(0x00, vec![0x0e, 0x03]), Field::new(0xff, vec![])];
    for (id, pw) in records {
        fields.push(Field::new(0x01, id.to_vec()));
        fields.push(Field::new(0x06, pw.to_vec()));
        fields.push(Field::new(0xff, vec![]));
    }
    encode_file(16, &PwsafeKey::new(PW), &fields).ok().unwrap()
}

fn read_back(bytes: &[u8]) -> Stream {
    let mut reader = PwsafeReader::new(bytes, &PwsafeKey::new(PW)).ok().unwrap();
    let mut fields = vec![];
    while let Some(f) = reader.read_field() {
        fields.push(f);
    }
    parse_stream(&fields).ok().unwrap()
}

fn field(s: &Stream, id: &[u8], ty: u8) -> Option<Vec<u8>> {
    let r: &RecordDescriptor = s.records.iter().find(|r| r.uuid == id)?;
    r.fields.iter().find(|f| f.ty == ty).map(|f| f.data.clone())
}

fn set_pw(id: &[u8], pw: &[u8]) -> DiffPayload {
    DiffPayload {
        delete: vec![],
        edit: vec![RecordEdit { uuid: id.to_vec(), edit: DiffEdit { set: vec![Field::new(0x06, pw.to_vec())], delete: vec![] } }],
    }
}

fn ts(ms: u64, unique: &str) -> Timestamp {
    Timestamp { ts_ms: ms, unique: unique.to_string() }
}

/// The state as the engine stores it: only the latest absorbed remote change.
fn state_json(db: &PwsafeDb) -> String {
    match db.remote_until() {
        Some(t) => format!("{{\"remote_until\":{{\"ts_ms\":{},\"unique\":\"{}\"}}}}", t.ts_ms, t.unique),
        None => "{}".to_string(),
    }
}

/// One pass under the lock: absorb, render, write, and record the rewrite.
fn lock_scope(work: &mut WorkLoop, db: &mut PwsafeDb, disk: &mut Vec<u8>) {
    work.absorb(db, disk).unwrap();
    let rw = db.prepare_rewrite(state_json(db)).ok().unwrap();
    *disk = rw.bytes().to_vec();
    work.rewrite_done(db, rw);
}

#[test]
fn single_local_edit_reaches_the_file() {
    let u = [0x11u8; 16];
    let mut disk = file_with(&[(&u, b"a")]);
    let (mut db, notes) = PwsafeDb::open(&disk, PW).ok().unwrap();
    assert!(notes.is_none());
    let mut work = WorkLoop::new();

    work.receive(&db, Message::Diff(Some(set_pw(&u, b"b")))).unwrap();
    work.receive(&db, Message::Sync(1, 0)).unwrap();
    assert!(work.wants_lock());
    lock_scope(&mut work, &mut db, &mut disk);

    let s = read_back(&disk);
    assert_eq!(field(&s, &u, 0x06), Some(b"b".to_vec()));
    assert_eq!(field(&s, &STATE, 0x05), Some(b"{}".to_vec()));
    assert_eq!(work.applied().local, 1);
    // Strict progress: the barrier waits until something beyond it is applied.
    assert!(work.take_acks().is_empty());

    work.receive(&db, Message::Diff(Some(set_pw(&u, b"c")))).unwrap();
    lock_scope(&mut work, &mut db, &mut disk);
    assert_eq!(work.take_acks(), vec![Ack { id: 1, point: 0 }]);
}

#[test]
fn remote_only_change_is_absorbed() {
    let u = [0x11u8; 16];
    let v = [0x22u8; 16];
    let mut disk = file_with(&[(&u, b"a")]);
    let (mut db, _) = PwsafeDb::open(&disk, PW).ok().unwrap();
    let mut work = WorkLoop::new();
    let add = DiffPayload {
        delete: vec![],
        edit: vec![RecordEdit {
            uuid: v.to_vec(),
            edit: DiffEdit { set: vec![Field::new(0x01, v.to_vec()), Field::new(0x06, b"x".to_vec())], delete: vec![] },
        }],
    };
    work.receive(&db, Message::Remote(Some(add), ts(1000, "$e1"))).unwrap();
    lock_scope(&mut work, &mut db, &mut disk);

    let until = db.remote_until().unwrap();
    assert_eq!(until.ts_ms, 1000);
    assert_eq!(until.unique, "$e1");
    let s = read_back(&disk);
    assert_eq!(field(&s, &STATE, 0x05), Some(b"{\"remote_until\":{\"ts_ms\":1000,\"unique\":\"$e1\"}}".to_vec()));
    assert_eq!(field(&s, &v, 0x06), Some(b"x".to_vec()));
    assert_eq!(field(&s, &u, 0x06), Some(b"a".to_vec()));
}

#[test]
fn local_edit_stacks_on_top_of_remote() {
    let u = [0x11u8; 16];
    let mut disk = file_with(&[(&u, b"a")]);
    let (mut db, _) = PwsafeDb::open(&disk, PW).ok().unwrap();
    let mut work = WorkLoop::new();
    work.receive(&db, Message::Diff(Some(set_pw(&u, b"b")))).unwrap();
    work.receive(&db, Message::Remote(Some(set_pw(&u, b"c")), ts(2000, "$e2"))).unwrap();
    lock_scope(&mut work, &mut db, &mut disk);
    let s = read_back(&disk);
    assert_eq!(field(&s, &u, 0x06), Some(b"b".to_vec()));
}

#[test]
fn lock_contention_delays_the_ack() {
    let u = [0x11u8; 16];
    let mut disk = file_with(&[(&u, b"a")]);
    let (mut db, _) = PwsafeDb::open(&disk, PW).ok().unwrap();
    let mut work = WorkLoop::new();
    work.receive(&db, Message::Diff(Some(set_pw(&u, b"b")))).unwrap();
    lock_scope(&mut work, &mut db, &mut disk);

    work.receive(&db, Message::Diff(Some(set_pw(&u, b"c")))).unwrap();
    work.receive(&db, Message::Sync(7, 0)).unwrap();
    work.lock_busy();
    assert!(!work.wants_lock());
    assert!(work.take_acks().is_empty());

    work.receive(&db, Message::Rebase).unwrap();
    assert!(work.wants_lock());
    work.receive(&db, Message::Diff(Some(set_pw(&u, b"d")))).unwrap();
    lock_scope(&mut work, &mut db, &mut disk);
    assert_eq!(work.take_acks(), vec![Ack { id: 7, point: 0 }]);
    assert_eq!(field(&read_back(&disk), &u, 0x06), Some(b"d".to_vec()));
}

#[test]
fn malformed_local_diff_is_discarded() {
    let u = [0x11u8; 16];
    let disk = file_with(&[(&u, b"a")]);
    let (mut db, _) = PwsafeDb::open(&disk, PW).ok().unwrap();
    let mut work = WorkLoop::new();
    let mut unreadable = disk.clone();
    unreadable[0] = b'X';
    assert!(work.absorb(&mut db, &unreadable).is_err());
    assert_eq!(work.receive(&db, Message::Diff(None)), Ok(()));
    assert_eq!(work.pending().local, 0);
    work.receive(&db, Message::Sync(3, 0)).unwrap();
    assert!(work.take_acks().is_empty());
}

#[test]
fn malformed_or_noncausal_remote_stops_the_loop() {
    let u = [0x11u8; 16];
    let disk = file_with(&[(&u, b"a")]);
    let (db, _) = PwsafeDb::open(&disk, PW).ok().unwrap();
    let mut work = WorkLoop::new();
    assert_eq!(work.receive(&db, Message::Remote(None, ts(5, "$a"))), Err(LoopError::RemoteDecode));
    work.receive(&db, Message::Remote(Some(set_pw(&u, b"x")), ts(50, "$b"))).unwrap();
    assert_eq!(work.receive(&db, Message::Remote(Some(set_pw(&u, b"y")), ts(40, "$c"))), Err(LoopError::NonCausal));
    assert_eq!(work.receive(&db, Message::Remote(Some(set_pw(&u, b"z")), ts(50, "$d"))), Ok(()));
}

#[test]
fn acks_rise_per_producer_and_skip_stale_points() {
    let u = [0x11u8; 16];
    let mut disk = file_with(&[(&u, b"a")]);
    let (mut db, _) = PwsafeDb::open(&disk, PW).ok().unwrap();
    let mut work = WorkLoop::new();
    work.receive(&db, Message::Sync(1, 0)).unwrap();
    work.receive(&db, Message::Sync(2, 5)).unwrap();
    work.receive(&db, Message::Sync(1, 1)).unwrap();
    work.receive(&db, Message::Sync(1, 1)).unwrap();
    work.receive(&db, Message::Diff(Some(set_pw(&u, b"b")))).unwrap();
    lock_scope(&mut work, &mut db, &mut disk);
    let acks = work.take_acks();
    assert_eq!(acks, vec![Ack { id: 1, point: 0 }, Ack { id: 2, point: 5 }, Ack { id: 1, point: 1 }]);
    assert!(work.take_acks().is_empty());
}

#[test]
fn incomparable_progress_does_not_ack() {
    let u = [0x11u8; 16];
    let mut disk = file_with(&[(&u, b"a")]);
    let (mut db, _) = PwsafeDb::open(&disk, PW).ok().unwrap();
    let mut work = WorkLoop::new();
    work.receive(&db, Message::Remote(Some(set_pw(&u, b"x")), ts(100, "$a"))).unwrap();
    work.receive(&db, Message::Sync(4, 0)).unwrap();
    lock_scope(&mut work, &mut db, &mut disk);
    // A different event at the same millisecond is incomparable with the barrier's need.
    work.receive(&db, Message::Remote(Some(set_pw(&u, b"y")), ts(100, "$b"))).unwrap();
    work.receive(&db, Message::Diff(Some(set_pw(&u, b"z")))).unwrap();
    lock_scope(&mut work, &mut db, &mut disk);
    let need = AwaitTs { local: 0, remote: Some(ts(100, "$a")) };
    let applied = work.applied();
    assert!(!need.lt(&applied));
    assert!(work.take_acks().is_empty());
}

#[test]
fn rebase_records_the_last_timestamp() {
    let u = [0x11u8; 16];
    let disk = file_with(&[(&u, b"a")]);
    let (mut db, _) = PwsafeDb::open(&disk, PW).ok().unwrap();
    let d1 = db.diff(vec![], set_pw(&u, b"x").edit).unwrap();
    let d2 = db.diff(vec![], set_pw(&u, b"y").edit).unwrap();
    db.rebase(&vec![d1, d2], &vec![ts(10, "$1"), ts(20, "$2")]);
    let until = db.remote_until().unwrap();
    assert_eq!((until.ts_ms, until.unique.as_str()), (20, "$2"));
    db.rebase(&vec![], &vec![]);
    assert_eq!(db.remote_until().unwrap().ts_ms, 20);
}

#[test]
fn refresh_turns_external_edits_into_a_local_diff() {
    let u = [0x11u8; 16];
    let mut disk = file_with(&[(&u, b"a")]);
    let (mut db, _) = PwsafeDb::open(&disk, PW).ok().unwrap();
    let mut work = WorkLoop::new();
    lock_scope(&mut work, &mut db, &mut disk);
    let before = db.pending_locals();
    assert_eq!(db.refresh(&disk), Ok(false));
    assert_eq!(db.pending_locals(), before);

    // The native editor rewrites the file.
    let edited = file_with(&[(&u, b"edited")]);
    assert_eq!(db.refresh(&edited), Ok(true));
    assert_eq!(db.pending_locals(), before + 1);
    let rw = db.prepare_rewrite("{}".to_string()).ok().unwrap();
    assert_eq!(field(&read_back(rw.bytes()), &u, 0x06), Some(b"edited".to_vec()));
}

#[test]
fn open_reads_state_notes_and_rejects_wrong_passphrase() {
    let u = [0x11u8; 16];
    let mut fields = vec![Field::new(0x00, vec![0x0e, 0x03]), Field::new(0xff, vec![])];
    fields.push(Field::new(0x01, STATE.to_vec()));
    fields.push(Field::new(0x05, b"{\"room\":\"!r:example.org\"}".to_vec()));
    fields.push(Field::new(0xff, vec![]));
    fields.push(Field::new(0x01, u.to_vec()));
    fields.push(Field::new(0xff, vec![]));
    let disk = encode_file(4, &PwsafeKey::new(PW), &fields).ok().unwrap();
    let (_, notes) = PwsafeDb::open(&disk, PW).ok().unwrap();
    assert_eq!(notes, Some(b"{\"room\":\"!r:example.org\"}".to_vec()));
    match PwsafeDb::open(&disk, b"wrong") {
        Err(e) => assert_eq!(e, DbError::Codec(pwsafe_matrix::codec::CodecError::InvalidPassword)),
        Ok(_) => panic!("wrong passphrase accepted"),
    }
}

#[test]
fn session_and_room_are_kept() {
    let disk = file_with(&[]);
    let (mut db, _) = PwsafeDb::open(&disk, PW).ok().unwrap();
    assert!(db.session().is_none());
    db.set_session("{\"token\":\"t\"}".to_string());
    db.set_room("!room:example.org".to_string());
    assert_eq!(db.session().as_deref(), Some("{\"token\":\"t\"}"));
    assert_eq!(db.room().as_deref(), Some("!room:example.org"));
    assert!(db.remote_until().is_none());
}

#[test]
fn published_diffs_leave_the_fifo() {
    let u = [0x11u8; 16];
    let disk = file_with(&[(&u, b"a")]);
    let (mut db, _) = PwsafeDb::open(&disk, PW).ok().unwrap();
    assert_eq!(db.pending_locals(), 1);
    let d = db.diff(vec![], set_pw(&u, b"b").edit).unwrap();
    db.apply(d);
    assert_eq!(db.pending_locals(), 2);
    db.pop_diff();
    db.pop_diff();
    assert_eq!(db.pending_locals(), 0);
    db.pop_diff();
    assert_eq!(db.pending_locals(), 0);
    // With no local changes only the state record is rendered on the header.
    let rw = db.prepare_rewrite("{}".to_string()).ok().unwrap();
    let s = read_back(rw.bytes());
    assert_eq!(s.records.len(), 1);
    assert_eq!(s.records[0].uuid, STATE.to_vec());
}

#[test]
fn changesets_that_repeat_a_record_are_rejected() {
    let u = [0x11u8; 16];
    let disk = file_with(&[(&u, b"a")]);
    let (db, _) = PwsafeDb::open(&disk, PW).ok().unwrap();
    let mut work = WorkLoop::new();
    let twice = DiffPayload { delete: vec![u.to_vec(), u.to_vec()], edit: vec![] };
    assert_eq!(work.receive(&db, Message::Diff(Some(twice))), Ok(()));
    assert_eq!(work.pending().local, 0);
    let twice = DiffPayload { delete: vec![u.to_vec(), u.to_vec()], edit: vec![] };
    assert_eq!(work.receive(&db, Message::Remote(Some(twice), ts(1, "$x"))), Err(LoopError::RemoteDecode));
}
