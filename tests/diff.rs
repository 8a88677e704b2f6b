use pwsafe_matrix::base::{DiffableBase, VisitError};
use pwsafe_matrix::diff::{Diff, DiffEdit, RecordEdit};
use pwsafe_matrix::fields::Field;
use pwsafe_matrix::stream::{parse_stream, RecordDescriptor, Stream, StreamError};

const STATE: [u8; 16] = [
    0x02, 0xe4, 0xd7, 0x5b, 0x5f, 0xde, 0x58, 0x2e, 0xb1, 0x0d, 0x40, 0x9f, 0x04, 0x1c, 0x3d, 0x34,
];

fn record(id: &[u8], rest: &[(u8, &[u8])]) -> RecordDescriptor {
    let mut fields = vec![Field::new(0x01, id.to_vec())];
    for (t, d) in rest {
        fields.push(Field::new(*t, d.to_vec()));
    }
    RecordDescriptor { uuid: id.to_vec(), fields }
}

fn stream(records: Vec<RecordDescriptor>) -> Stream {
    Stream { header: vec![Field::new(0x00, vec![0x0e, 0x03])], records }
}

fn fields_of(r: &RecordDescriptor) -> Vec<(u8, Vec<u8>)> {
    let mut v: Vec<(u8, Vec<u8>)> = r.fields.iter().map(|f| (f.ty, f.data.clone())).collect();
    v.sort();
    v
}

fn find<'a>(s: &'a Stream, id: &[u8]) -> Option<&'a RecordDescriptor> {
    s.records.iter().find(|r| r.uuid == id)
}

fn edit(id: &[u8], set: &[(u8, &[u8])], delete: &[u8]) -> RecordEdit {
    RecordEdit {
        uuid: id.to_vec(),
        edit: DiffEdit {
            set: set.iter().map(|(t, d)| Field::new(*t, d.to_vec())).collect(),
            delete: delete.to_vec(),
        },
    }
}

#[test]
fn apply_substitutes_deletes_and_appends_fields() {
    let u = [0x11u8; 16];
    let s = stream(vec![record(&u, &[(0x06, b"a"), (0x04, b"user")])]);
    let d = Diff { pepper: vec![0; 16], delete: vec![], edit: vec![edit(&u, &[(0x06, b"b"), (0x05, b"note")], &[0x04])] };
    let out = d.apply(&s);
    assert_eq!(out.header.len(), 1);
    assert_eq!(out.records.len(), 1);
    let got: Vec<(u8, Vec<u8>)> = out.records[0].fields.iter().map(|f| (f.ty, f.data.clone())).collect();
    assert_eq!(got, vec![(0x01, u.to_vec()), (0x06, b"b".to_vec()), (0x05, b"note".to_vec())]);
}

#[test]
fn apply_deletes_records_and_creates_missing_ones() {
    let u = [0x11u8; 16];
    let v = [0x22u8; 16];
    let s = stream(vec![record(&u, &[(0x06, b"a")])]);
    let d = Diff {
        pepper: vec![0; 16],
        delete: vec![u.to_vec()],
        edit: vec![edit(&v, &[(0x01, &v), (0x06, b"x")], &[])],
    };
    let out = d.apply(&s);
    assert_eq!(out.records.len(), 1);
    assert_eq!(out.records[0].uuid, v.to_vec());
    let got: Vec<(u8, Vec<u8>)> = out.records[0].fields.iter().map(|f| (f.ty, f.data.clone())).collect();
    assert_eq!(got, vec![(0x01, v.to_vec()), (0x01, v.to_vec()), (0x06, b"x".to_vec())]);
}

#[test]
fn created_record_holds_identifier_then_every_set_entry() {
    let v = [0x22u8; 16];
    let s = stream(vec![]);
    let d = Diff { pepper: vec![0; 16], delete: vec![], edit: vec![edit(&v, &[(0x06, b"x"), (0x04, b"u")], &[])] };
    let out = d.apply(&s);
    let got: Vec<(u8, Vec<u8>)> = out.records[0].fields.iter().map(|f| (f.ty, f.data.clone())).collect();
    assert_eq!(got, vec![(0x01, v.to_vec()), (0x06, b"x".to_vec()), (0x04, b"u".to_vec())]);
}

#[test]
fn visit_leaves_the_identifier_out_of_a_new_record() {
    let w = [0x33u8; 16];
    let base = DiffableBase::fresh().visit(&stream(vec![])).ok().unwrap().new_base;
    let update = base.visit(&stream(vec![record(&w, &[])])).ok().unwrap();
    assert_eq!(update.diff.edit.len(), 1);
    assert!(update.diff.edit[0].edit.set.is_empty());
    let out = update.diff.apply(&stream(vec![]));
    assert_eq!(out.records.len(), 1);
    assert_eq!(out.records[0].fields.len(), 1);
}

#[test]
fn empty_diff_keeps_every_record() {
    let u = [0x11u8; 16];
    let v = [0x22u8; 16];
    let s = stream(vec![record(&u, &[(0x06, b"a")]), record(&v, &[(0x04, b"b")])]);
    let d = Diff::empty_with(&[1u8; 16]);
    assert!(d.is_empty());
    let out = d.apply(&s);
    assert_eq!(out.records.len(), 2);
    for (a, b) in out.records.iter().zip(s.records.iter()) {
        assert_eq!(a.uuid, b.uuid);
        assert_eq!(fields_of(a), fields_of(b));
    }
}

#[test]
fn visit_then_apply_reproduces_the_new_snapshot() {
    let u = [0x11u8; 16];
    let v = [0x22u8; 16];
    let w = [0x33u8; 16];
    let old = stream(vec![record(&u, &[(0x06, b"a"), (0x04, b"user")]), record(&v, &[(0x06, b"keep")])]);
    let new = stream(vec![
        record(&u, &[(0x06, b"b"), (0x05, b"added")]),
        record(&w, &[(0x06, b"fresh")]),
    ]);

    let base = DiffableBase::fresh();
    let first = base.visit(&old).ok().unwrap();
    let update = first.new_base.visit(&new).ok().unwrap();
    assert_eq!(update.diff.delete, vec![v.to_vec()]);

    let out = update.diff.apply(&old);
    assert!(find(&out, &v).is_none());
    for id in [&u, &w] {
        let got = find(&out, id).unwrap();
        let want = find(&new, id).unwrap();
        assert_eq!(fields_of(got), fields_of(want));
    }
    assert_eq!(out.records.len(), 2);
}

#[test]
fn visit_of_unchanged_snapshot_is_empty() {
    let u = [0x11u8; 16];
    let s = stream(vec![record(&u, &[(0x06, b"a")])]);
    let first = DiffableBase::fresh().visit(&s).ok().unwrap();
    assert_eq!(first.diff.edit.len(), 1);
    let again = first.new_base.visit(&s).ok().unwrap();
    assert!(again.diff.is_empty());
}

#[test]
fn visit_leaves_the_state_record_out() {
    let u = [0x11u8; 16];
    let s = stream(vec![record(&STATE, &[(0x05, b"{}")]), record(&u, &[(0x06, b"a")])]);
    let update = DiffableBase::fresh().visit(&s).ok().unwrap();
    assert_eq!(update.diff.edit.len(), 1);
    assert_eq!(update.diff.edit[0].uuid, u.to_vec());
    let state = update.state_record.unwrap();
    assert_eq!(state.uuid, STATE.to_vec());
}

#[test]
fn visit_rejects_duplicate_records() {
    let u = [0x11u8; 16];
    let s = stream(vec![record(&u, &[(0x06, b"a")]), record(&u, &[(0x06, b"b")])]);
    match DiffableBase::fresh().visit(&s) {
        Err(e) => assert_eq!(e, VisitError::DuplicateRecord),
        Ok(_) => panic!("duplicate accepted"),
    }
}

#[test]
fn add_state_sets_the_notes_of_the_state_record() {
    let mut d = Diff::empty_with(&[0u8; 16]);
    d.add_state("{\"room\":null}".to_string());
    assert_eq!(d.edit.len(), 1);
    assert_eq!(d.edit[0].uuid, STATE.to_vec());
    assert_eq!(d.edit[0].edit.set[0].ty, 0x05);
    assert_eq!(d.edit[0].edit.set[0].data, b"{\"room\":null}".to_vec());
    d.add_state("{}".to_string());
    assert_eq!(d.edit.len(), 1);
    assert_eq!(d.edit[0].edit.set.len(), 1);
    assert_eq!(d.edit[0].edit.set[0].data, b"{}".to_vec());
}

#[test]
fn parse_groups_records_and_requires_identifiers() {
    let u = [0x11u8; 16];
    let fields = vec![
        Field::new(0x00, vec![0x0e, 0x03]),
        Field::new(0xff, vec![]),
        Field::new(0x01, u.to_vec()),
        Field::new(0x06, b"a".to_vec()),
        Field::new(0xff, vec![]),
    ];
    let s = parse_stream(&fields).ok().unwrap();
    assert_eq!(s.header.len(), 1);
    assert_eq!(s.records.len(), 1);
    assert_eq!(s.records[0].uuid, u.to_vec());
    assert_eq!(s.to_fields().len(), fields.len());

    let bad = vec![Field::new(0xff, vec![]), Field::new(0x06, b"a".to_vec()), Field::new(0xff, vec![])];
    assert_eq!(parse_stream(&bad).err(), Some(StreamError::MissingUuid));
    let short_id = vec![Field::new(0xff, vec![]), Field::new(0x01, vec![1, 2, 3]), Field::new(0xff, vec![])];
    assert_eq!(parse_stream(&short_id).err(), Some(StreamError::MissingUuid));
}

#[test]
fn empty_diff_carries_the_base_pepper() {
    let base = DiffableBase::fresh();
    let other = DiffableBase::fresh();
    let d = Diff::empty(&base);
    assert!(d.is_empty());
    assert_eq!(d.pepper, base.pepper());
    assert_eq!(d.pepper.len(), 16);
    assert_ne!(base.pepper(), other.pepper());
    let received = base.deserialize(vec![vec![1u8; 16]], vec![]).unwrap();
    assert_eq!(received.pepper, base.pepper());
    assert_eq!(received.delete, vec![vec![1u8; 16]]);
    assert!(base.deserialize(vec![vec![1u8; 16], vec![1u8; 16]], vec![]).is_none());
    let twice = vec![edit(&[2u8; 16], &[(0x06, b"a")], &[]), edit(&[2u8; 16], &[(0x06, b"b")], &[])];
    assert!(base.deserialize(vec![], twice).is_none());
}
