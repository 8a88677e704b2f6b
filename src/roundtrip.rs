//! Why a changeset computed from fingerprints rebuilds the newer snapshot:
//! applied to the older snapshot it gives every record the fields, by type,
//! that the newer snapshot holds.
use vstd::prelude::*;
use crate::base::{
    changed_fields, deleted_ids, dropped_types, edit_for, edit_is_empty, entry_index, is_new, lemma_entry_index_found, without_uuid,
    mark_of, marks_of, visit_acc, visit_spec, BaseV, EntryV, MarkV, VisitV,
};
use crate::diff::{
    apply_record, apply_records, apply_stream, edit_index, has_record, lemma_edit_index_found, new_record,
    new_records, state_uuid, RecordEditV,
};
use crate::stream::{RecordV, StreamV};
use crate::diff::DiffV;
use crate::diff::{added_fields, edit_fields, has_type, kept_fields, seen, substitute, DiffEditV};
use crate::fields::{FieldV, FIELD_UUID};
use crate::stream::find_type;

verus! {

/// A record's fields as a map from type to data (a later field of a type wins).
pub open spec fn fmap(fs: Seq<FieldV>) -> Map<u8, Seq<u8>>
    decreases fs.len(),
{
    if fs.len() == 0 {
        Map::empty()
    } else {
        fmap(fs.drop_last()).insert(fs.last().0, fs.last().1)
    }
}

/// No two fields share a type.
pub open spec fn types_unique(fs: Seq<FieldV>) -> bool {
    forall|i: int, j: int| 0 <= i < j < fs.len() ==> fs[i].0 != fs[j].0
}

/// Whether some field has type `t`, by position.
pub open spec fn holds_type(fs: Seq<FieldV>, t: u8) -> bool {
    exists|i: int| 0 <= i < fs.len() && (#[trigger] fs[i]).0 == t
}

/// The keys of the map are the types present; with unique types each maps to its field's data.
pub proof fn lemma_fmap(fs: Seq<FieldV>)
    ensures
        forall|t: u8| #[trigger] fmap(fs).contains_key(t) <==> holds_type(fs, t),
        forall|t: u8| #[trigger] fmap(fs).contains_key(t) ==> exists|i: int| 0 <= i < fs.len() && fs[i].0 == t && #[trigger] fs[i].1 == fmap(fs)[t],
        types_unique(fs) ==> forall|i: int| 0 <= i < fs.len() ==> #[trigger] fmap(fs)[fs[i].0] == fs[i].1,
    decreases fs.len(),
{
    if fs.len() > 0 {
        let pre = fs.drop_last();
        lemma_fmap(pre);
        let last = fs.last();
        assert forall|t: u8| #[trigger] fmap(fs).contains_key(t) <==> holds_type(fs, t) by {
            if t == last.0 {
                assert(fs[fs.len() - 1].0 == t);
            } else {
                assert(fmap(fs).contains_key(t) == fmap(pre).contains_key(t));
                if holds_type(pre, t) {
                    let i = choose|i: int| 0 <= i < pre.len() && (#[trigger] pre[i]).0 == t;
                    assert(fs[i].0 == t);
                }
                if holds_type(fs, t) {
                    let i = choose|i: int| 0 <= i < fs.len() && (#[trigger] fs[i]).0 == t;
                    assert(pre[i].0 == t);
                }
            }
        }
        assert forall|t: u8| #[trigger] fmap(fs).contains_key(t) implies exists|i: int| 0 <= i < fs.len() && fs[i].0 == t && #[trigger] fs[i].1 == fmap(fs)[t] by {
            if t == last.0 {
                assert(fs[fs.len() - 1].1 == fmap(fs)[t]);
            } else {
                assert(fmap(pre).contains_key(t));
                let i = choose|i: int| 0 <= i < pre.len() && pre[i].0 == t && #[trigger] pre[i].1 == fmap(pre)[t];
                assert(fs[i].1 == fmap(fs)[t]);
            }
        }
        if types_unique(fs) {
            assert(types_unique(pre));
            assert forall|i: int| 0 <= i < fs.len() implies #[trigger] fmap(fs)[fs[i].0] == fs[i].1 by {
                if i < fs.len() - 1 {
                    assert(pre[i] == fs[i]);
                    assert(fs[i].0 != last.0);
                    assert(fmap(pre)[pre[i].0] == pre[i].1);
                }
            }
        }
    }
}

/// The map of a concatenation: the right side's types win.
pub proof fn lemma_fmap_concat(a: Seq<FieldV>, b: Seq<FieldV>)
    ensures
        fmap(a + b) == fmap(a).union_prefer_right(fmap(b)),
    decreases b.len(),
{
    if b.len() == 0 {
        assert(a + b =~= a);
        assert(fmap(a).union_prefer_right(fmap(b)) =~= fmap(a));
    } else {
        lemma_fmap_concat(a, b.drop_last());
        assert((a + b).drop_last() =~= a + b.drop_last());
        assert(fmap(a + b) =~= fmap(a).union_prefer_right(fmap(b)));
    }
}

/// `find_type` finds the first field of a type, if there is one.
pub proof fn lemma_find_type(fs: Seq<FieldV>, t: u8, i: nat)
    ensures
        i <= fs.len() ==> i <= find_type(fs, t, i) <= fs.len(),
        find_type(fs, t, i) < fs.len() ==> fs[find_type(fs, t, i) as int].0 == t,
        forall|j: int| i <= j < fs.len() && fs[j].0 == t ==> find_type(fs, t, i) <= j,
    decreases fs.len() - i,
{
    if i < fs.len() && fs[i as int].0 != t {
        lemma_find_type(fs, t, i + 1);
    }
}

/// `has_type` is presence of a field of that type.
pub proof fn lemma_has_type(fs: Seq<FieldV>, t: u8)
    ensures
        has_type(fs, t) <==> holds_type(fs, t),
{
    lemma_find_type(fs, t, 0);
    if holds_type(fs, t) {
        let j = choose|j: int| 0 <= j < fs.len() && (#[trigger] fs[j]).0 == t;
        assert(find_type(fs, t, 0) <= j);
    }
    if has_type(fs, t) {
        let k = find_type(fs, t, 0) as int;
        assert(fs[k].0 == t);
    }
}

/// The kept fields: every type of the record not deleted, each substituted.
pub proof fn lemma_kept(e: DiffEditV, fs: Seq<FieldV>)
    ensures
        forall|t: u8| #[trigger] fmap(kept_fields(e, fs)).contains_key(t) <==> (holds_type(fs, t) && !e.delete.contains(t)),
        types_unique(fs) ==> forall|i: int| 0 <= i < fs.len() && !e.delete.contains(fs[i].0) ==>
            #[trigger] fmap(kept_fields(e, fs))[fs[i].0] == substitute(e, fs[i]).1,
    decreases fs.len(),
{
    lemma_fmap(kept_fields(e, fs));
    if fs.len() > 0 {
        let pre = fs.drop_last();
        lemma_kept(e, pre);
        lemma_fmap(pre);
        lemma_fmap(fs);
        let last = fs.last();
        assert(substitute(e, last).0 == last.0);
        let kp = kept_fields(e, pre);
        if e.delete.contains(last.0) {
            assert(kept_fields(e, fs) == kp);
        } else {
            let y = substitute(e, last);
            assert(kept_fields(e, fs) == kp.push(y));
            assert(kp.push(y).drop_last() =~= kp);
            assert(fmap(kept_fields(e, fs)) == fmap(kp).insert(y.0, y.1));
        }
        assert forall|t: u8| #[trigger] fmap(kept_fields(e, fs)).contains_key(t) <==> (holds_type(fs, t) && !e.delete.contains(t)) by {
            assert(fmap(kept_fields(e, pre)).contains_key(t) <==> (holds_type(pre, t) && !e.delete.contains(t)));
            if holds_type(pre, t) {
                let i = choose|i: int| 0 <= i < pre.len() && (#[trigger] pre[i]).0 == t;
                assert(fs[i].0 == t);
            }
            if holds_type(fs, t) && t != last.0 {
                let i = choose|i: int| 0 <= i < fs.len() && (#[trigger] fs[i]).0 == t;
                assert(pre[i].0 == t);
            }
            if t == last.0 {
                assert(fs[fs.len() - 1].0 == t);
            }
        }
        if types_unique(fs) {
            assert(types_unique(pre));
            assert forall|i: int| 0 <= i < fs.len() && !e.delete.contains(fs[i].0) implies
                #[trigger] fmap(kept_fields(e, fs))[fs[i].0] == substitute(e, fs[i]).1 by {
                if i < fs.len() - 1 {
                    assert(pre[i] == fs[i]);
                    assert(fs[i].0 != last.0);
                    assert(fmap(kept_fields(e, pre))[pre[i].0] == substitute(e, pre[i]).1);
                }
            }
        }
    }
}

/// The added fields: the set entries of types not seen, each with the data of
/// some set entry of that type.
pub proof fn lemma_added(e: DiffEditV, set: Seq<FieldV>, fs: Seq<FieldV>)
    ensures
        forall|t: u8| #[trigger] fmap(added_fields(e, set, fs)).contains_key(t) <==> (holds_type(set, t) && !seen(e, fs, t)),
        forall|t: u8| #[trigger] fmap(added_fields(e, set, fs)).contains_key(t) ==>
            exists|k: int| 0 <= k < set.len() && set[k].0 == t && #[trigger] set[k].1 == fmap(added_fields(e, set, fs))[t],
    decreases set.len(),
{
    if set.len() > 0 {
        let pre = set.drop_last();
        lemma_added(e, pre, fs);
        let last = set.last();
        let a = added_fields(e, set, fs);
        let ap = added_fields(e, pre, fs);
        if seen(e, fs, last.0) {
            assert(a == ap);
        } else {
            assert(a == ap.push(last));
            assert(ap.push(last).drop_last() =~= ap);
            assert(fmap(a) == fmap(ap).insert(last.0, last.1));
        }
        assert forall|t: u8| #[trigger] fmap(a).contains_key(t) <==> (holds_type(set, t) && !seen(e, fs, t)) by {
            assert(fmap(ap).contains_key(t) <==> (holds_type(pre, t) && !seen(e, fs, t)));
            if holds_type(pre, t) {
                let i = choose|i: int| 0 <= i < pre.len() && (#[trigger] pre[i]).0 == t;
                assert(set[i].0 == t);
            }
            if holds_type(set, t) && t != last.0 {
                let i = choose|i: int| 0 <= i < set.len() && (#[trigger] set[i]).0 == t;
                assert(pre[i].0 == t);
            }
            if t == last.0 {
                assert(set[set.len() - 1].0 == t);
            }
        }
        assert forall|t: u8| #[trigger] fmap(a).contains_key(t) implies
            exists|k: int| 0 <= k < set.len() && set[k].0 == t && #[trigger] set[k].1 == fmap(a)[t] by {
            if !seen(e, fs, last.0) && t == last.0 {
                assert(set[set.len() - 1].1 == fmap(a)[t]);
            } else {
                assert(fmap(ap).contains_key(t));
                let k = choose|k: int| 0 <= k < pre.len() && pre[k].0 == t && #[trigger] pre[k].1 == fmap(ap)[t];
                assert(set[k].1 == fmap(a)[t]);
            }
        }
    }
}

/// The changed fields are exactly the fields whose digest the old record lacks.
pub proof fn lemma_changed(p: Seq<u8>, old: Seq<MarkV>, r: Seq<FieldV>)
    ensures
        forall|k: int| 0 <= k < changed_fields(p, old, r).len() ==> exists|j: int| 0 <= j < r.len()
            && #[trigger] changed_fields(p, old, r)[k] == r[j] && !old.contains(mark_of(p, r[j])),
        forall|j: int| 0 <= j < r.len() && !old.contains(mark_of(p, r[j])) ==> exists|k: int| 0 <= k < changed_fields(p, old, r).len()
            && #[trigger] changed_fields(p, old, r)[k] == #[trigger] r[j],
    decreases r.len(),
{
    if r.len() > 0 {
        let pre = r.drop_last();
        lemma_changed(p, old, pre);
        let c = changed_fields(p, old, r);
        let cp = changed_fields(p, old, pre);
        assert forall|k: int| 0 <= k < c.len() implies exists|j: int| 0 <= j < r.len()
            && #[trigger] c[k] == r[j] && !old.contains(mark_of(p, r[j])) by {
            if k < cp.len() {
                let j = choose|j: int| 0 <= j < pre.len() && #[trigger] cp[k] == pre[j] && !old.contains(mark_of(p, pre[j]));
                assert(c[k] == r[j]);
            } else {
                assert(c[k] == r[r.len() - 1]);
            }
        }
        assert forall|j: int| 0 <= j < r.len() && !old.contains(mark_of(p, r[j])) implies exists|k: int| 0 <= k < c.len()
            && #[trigger] c[k] == #[trigger] r[j] by {
            if j < r.len() - 1 {
                assert(pre[j] == r[j]);
                let k = choose|k: int| 0 <= k < cp.len() && #[trigger] cp[k] == #[trigger] pre[j];
                assert(c[k] == r[j]);
            } else {
                assert(c[c.len() - 1] == r[j]);
            }
        }
    }
}

/// A type is dropped exactly when the old record has it and the new one lacks it.
pub proof fn lemma_dropped(old: Seq<MarkV>, r: Seq<FieldV>)
    ensures
        forall|t: u8| #[trigger] dropped_types(old, r).contains(t) <==>
            ((exists|a: int| 0 <= a < old.len() && (#[trigger] old[a]).0 == t) && !has_type(r, t)),
    decreases old.len(),
{
    if old.len() > 0 {
        let pre = old.drop_last();
        lemma_dropped(pre, r);
        let d = dropped_types(old, r);
        let dp = dropped_types(pre, r);
        assert forall|t: u8| #[trigger] d.contains(t) <==>
            ((exists|a: int| 0 <= a < old.len() && (#[trigger] old[a]).0 == t) && !has_type(r, t)) by {
            assert(dp.contains(t) <==> ((exists|a: int| 0 <= a < pre.len() && (#[trigger] pre[a]).0 == t) && !has_type(r, t)));
            if exists|a: int| 0 <= a < pre.len() && (#[trigger] pre[a]).0 == t {
                let a = choose|a: int| 0 <= a < pre.len() && (#[trigger] pre[a]).0 == t;
                assert(old[a].0 == t);
            }
            if exists|a: int| 0 <= a < old.len() && (#[trigger] old[a]).0 == t {
                let a = choose|a: int| 0 <= a < old.len() && (#[trigger] old[a]).0 == t;
                if a < old.len() - 1 {
                    assert(pre[a].0 == t);
                }
            }
            let last_t = old.last().0;
            if d.contains(t) && !dp.contains(t) {
                let i = choose|i: int| 0 <= i < d.len() && d[i] == t;
                assert(d == dp.push(last_t));
                assert(i == dp.len());
                assert(old[old.len() - 1].0 == t);
            }
            if dp.contains(t) {
                let i = choose|i: int| 0 <= i < dp.len() && dp[i] == t;
                assert(d[i] == t);
            }
            if t == last_t && !has_type(r, t) && !dp.contains(t) {
                assert(d == dp.push(last_t));
                assert(d[dp.len() as int] == t);
            }
        }
    }
}

/// The edit computed between two versions of a record: the fields whose
/// digest the old version lacks, and the types the new version lacks.
pub open spec fn edit_between(p: Seq<u8>, r0: Seq<FieldV>, r: Seq<FieldV>) -> DiffEditV {
    let old = marks_of(p, r0);
    DiffEditV { set: changed_fields(p, old, r), delete: dropped_types(old, r) }
}

/// Equal digests under the pepper mean equal fields, for the fields of two records.
pub open spec fn marks_separate(p: Seq<u8>, r0: Seq<FieldV>, r: Seq<FieldV>) -> bool {
    forall|a: int, b: int| 0 <= a < r0.len() && 0 <= b < r.len() && #[trigger] mark_of(p, r[b]) == #[trigger] mark_of(p, r0[a]) ==> r[b] == r0[a]
}

/// The map of a record with unique types, at one of its fields.
proof fn lemma_fmap_at(fs: Seq<FieldV>, j: int)
    requires
        types_unique(fs),
        0 <= j < fs.len(),
    ensures
        fmap(fs).contains_key(fs[j].0),
        fmap(fs)[fs[j].0] == fs[j].1,
{
    lemma_fmap(fs);
    assert(holds_type(fs, fs[j].0));
}

/// A type no field has is not in the map.
proof fn lemma_fmap_absent(fs: Seq<FieldV>, t: u8)
    requires
        !holds_type(fs, t),
    ensures
        !fmap(fs).contains_key(t),
{
    lemma_fmap(fs);
}

/// The kept fields at a type of the old record that is not deleted.
proof fn lemma_kept_at(e: DiffEditV, fs: Seq<FieldV>, a: int)
    requires
        types_unique(fs),
        0 <= a < fs.len(),
        !e.delete.contains(fs[a].0),
    ensures
        fmap(kept_fields(e, fs)).contains_key(fs[a].0),
        fmap(kept_fields(e, fs))[fs[a].0] == substitute(e, fs[a]).1,
{
    lemma_kept(e, fs);
    assert(holds_type(fs, fs[a].0));
}

/// The kept fields lack a type that is absent or deleted.
proof fn lemma_kept_absent(e: DiffEditV, fs: Seq<FieldV>, t: u8)
    requires
        !holds_type(fs, t) || e.delete.contains(t),
    ensures
        !fmap(kept_fields(e, fs)).contains_key(t),
{
    lemma_kept(e, fs);
}

/// The added fields lack a type that the set lacks or that was seen.
proof fn lemma_added_absent(e: DiffEditV, set: Seq<FieldV>, fs: Seq<FieldV>, t: u8)
    requires
        !holds_type(set, t) || seen(e, fs, t),
    ensures
        !fmap(added_fields(e, set, fs)).contains_key(t),
{
    lemma_added(e, set, fs);
}

/// The added fields at a type not seen, whose set entries all equal `f`.
proof fn lemma_added_at(e: DiffEditV, set: Seq<FieldV>, fs: Seq<FieldV>, f: FieldV)
    requires
        holds_type(set, f.0),
        !seen(e, fs, f.0),
        forall|k: int| 0 <= k < set.len() && (#[trigger] set[k]).0 == f.0 ==> set[k] == f,
    ensures
        fmap(added_fields(e, set, fs)).contains_key(f.0),
        fmap(added_fields(e, set, fs))[f.0] == f.1,
{
    lemma_added(e, set, fs);
    let t = f.0;
    let a = added_fields(e, set, fs);
    assert(fmap(a).contains_key(t));
    let k = choose|k: int| 0 <= k < set.len() && set[k].0 == t && #[trigger] set[k].1 == fmap(a)[t];
    assert(set[k] == f);
}

/// Every set entry of the new field's type is the new field; where the old
/// record lacks its digest, it is in the set.
proof fn lemma_set_of_type(p: Seq<u8>, r0: Seq<FieldV>, r: Seq<FieldV>, j: int)
    requires
        types_unique(r),
        0 <= j < r.len(),
    ensures
        forall|k: int| 0 <= k < edit_between(p, r0, r).set.len() && (#[trigger] edit_between(p, r0, r).set[k]).0 == r[j].0 ==>
            edit_between(p, r0, r).set[k] == r[j] && !marks_of(p, r0).contains(mark_of(p, r[j])),
        !marks_of(p, r0).contains(mark_of(p, r[j])) ==> holds_type(edit_between(p, r0, r).set, r[j].0),
{
    let old = marks_of(p, r0);
    let set = edit_between(p, r0, r).set;
    lemma_changed(p, old, r);
    assert forall|k: int| 0 <= k < set.len() && (#[trigger] set[k]).0 == r[j].0 implies set[k] == r[j] && !old.contains(mark_of(p, r[j])) by {
        let j2 = choose|j2: int| 0 <= j2 < r.len() && #[trigger] set[k] == r[j2] && !old.contains(mark_of(p, r[j2]));
        assert(j2 == j);
    }
    if !old.contains(mark_of(p, r[j])) {
        let k = choose|k: int| 0 <= k < set.len() && #[trigger] set[k] == #[trigger] r[j];
        assert(set[k].0 == r[j].0);
    }
}

/// No set entry has a type the new record lacks.
proof fn lemma_set_types(p: Seq<u8>, r0: Seq<FieldV>, r: Seq<FieldV>, t: u8)
    requires
        !holds_type(r, t),
    ensures
        !holds_type(edit_between(p, r0, r).set, t),
{
    let set = edit_between(p, r0, r).set;
    lemma_changed(p, marks_of(p, r0), r);
    if holds_type(set, t) {
        let k = choose|k: int| 0 <= k < set.len() && (#[trigger] set[k]).0 == t;
        let j = choose|j: int| 0 <= j < r.len() && #[trigger] set[k] == r[j] && !marks_of(p, r0).contains(mark_of(p, r[j]));
        assert(r[j].0 == t);
    }
}

/// Whether a type is deleted: the old record has it and the new one lacks it.
proof fn lemma_deleted_type(p: Seq<u8>, r0: Seq<FieldV>, r: Seq<FieldV>, t: u8)
    ensures
        edit_between(p, r0, r).delete.contains(t) <==> (holds_type(r0, t) && !holds_type(r, t)),
{
    let old = marks_of(p, r0);
    lemma_dropped(old, r);
    lemma_has_type(r, t);
    if holds_type(r0, t) {
        let a = choose|a: int| 0 <= a < r0.len() && (#[trigger] r0[a]).0 == t;
        assert(old[a].0 == t);
    }
    if exists|a: int| 0 <= a < old.len() && (#[trigger] old[a]).0 == t {
        let a = choose|a: int| 0 <= a < old.len() && (#[trigger] old[a]).0 == t;
        assert(r0[a].0 == t);
    }
}

/// The substitution of an old field whose type has a set entry takes that entry's data.
proof fn lemma_substitute(e: DiffEditV, f: FieldV, g: FieldV)
    requires
        holds_type(e.set, f.0),
        g.0 == f.0,
        forall|k: int| 0 <= k < e.set.len() && (#[trigger] e.set[k]).0 == f.0 ==> e.set[k] == g,
    ensures
        substitute(e, f) == g,
{
    lemma_find_type(e.set, f.0, 0);
    let k0 = choose|k: int| 0 <= k < e.set.len() && (#[trigger] e.set[k]).0 == f.0;
    assert(find_type(e.set, f.0, 0) <= k0);
}

/// The substitution of an old field whose type has no set entry keeps it.
proof fn lemma_substitute_none(e: DiffEditV, f: FieldV)
    requires
        !holds_type(e.set, f.0),
    ensures
        substitute(e, f) == f,
{
    lemma_find_type(e.set, f.0, 0);
    if find_type(e.set, f.0, 0) < e.set.len() {
        assert(e.set[find_type(e.set, f.0, 0) as int].0 == f.0);
    }
}

/// The round trip of one record, for one field type.
proof fn lemma_rebuild_type(p: Seq<u8>, r0: Seq<FieldV>, r: Seq<FieldV>, t: u8)
    requires
        types_unique(r0),
        types_unique(r),
        marks_separate(p, r0, r),
    ensures ({
        let e = edit_between(p, r0, r);
        let out = fmap(kept_fields(e, r0)).union_prefer_right(fmap(added_fields(e, e.set, r0)));
        out.contains_key(t) == fmap(r).contains_key(t) && (out.contains_key(t) ==> out[t] == fmap(r)[t])
    }),
{
    let e = edit_between(p, r0, r);
    let old = marks_of(p, r0);
    lemma_deleted_type(p, r0, r, t);
    lemma_has_type(r0, t);
    if holds_type(r, t) {
        let j = choose|j: int| 0 <= j < r.len() && (#[trigger] r[j]).0 == t;
        lemma_fmap_at(r, j);
        lemma_set_of_type(p, r0, r, j);
        if old.contains(mark_of(p, r[j])) {
            let a = choose|a: int| 0 <= a < old.len() && old[a] == mark_of(p, r[j]);
            assert(mark_of(p, r0[a]) == old[a]);
            assert(r[j] == r0[a]);
            assert(holds_type(r0, t));
            lemma_kept_at(e, r0, a);
            assert(!holds_type(e.set, t));
            lemma_substitute_none(e, r0[a]);
            lemma_added_absent(e, e.set, r0, t);
        } else if holds_type(r0, t) {
            let a = choose|a: int| 0 <= a < r0.len() && (#[trigger] r0[a]).0 == t;
            lemma_kept_at(e, r0, a);
            lemma_substitute(e, r0[a], r[j]);
            assert(seen(e, r0, t));
            lemma_added_absent(e, e.set, r0, t);
        } else {
            lemma_kept_absent(e, r0, t);
            assert(!seen(e, r0, t));
            lemma_added_at(e, e.set, r0, r[j]);
        }
    } else {
        lemma_fmap_absent(r, t);
        lemma_kept_absent(e, r0, t);
        lemma_set_types(p, r0, r, t);
        lemma_added_absent(e, e.set, r0, t);
    }
}

/// Applying the edit computed between two versions of a record to the old
/// version gives the new version's fields, type by type.
pub proof fn lemma_edit_rebuilds_record(p: Seq<u8>, r0: Seq<FieldV>, r: Seq<FieldV>)
    requires
        types_unique(r0),
        types_unique(r),
        marks_separate(p, r0, r),
    ensures
        fmap(edit_fields(edit_between(p, r0, r), r0)) == fmap(r),
{
    let e = edit_between(p, r0, r);
    let kept = kept_fields(e, r0);
    let added = added_fields(e, e.set, r0);
    lemma_fmap_concat(kept, added);
    let out = fmap(kept).union_prefer_right(fmap(added));
    assert forall|t: u8| #[trigger] out.contains_key(t) == fmap(r).contains_key(t) && (out.contains_key(t) ==> out[t] == fmap(r)[t]) by {
        lemma_rebuild_type(p, r0, r, t);
    }
    assert(out =~= fmap(r));
}

/// No two records share an identifier.
pub open spec fn ids_unique(rs: Seq<RecordV>) -> bool {
    forall|i: int, j: int| 0 <= i < j < rs.len() ==> rs[i].uuid != rs[j].uuid
}

/// What the visit of records gathered, record by record: an entry for each
/// record but the state record, covering the digests of its fields, and the
/// record's edit where it is not empty.
pub open spec fn visit_facts(b: BaseV, rs: Seq<RecordV>, acc: VisitV) -> bool {
    &&& forall|x: Seq<u8>| #[trigger] entry_index(acc.entries, x, 0) < acc.entries.len() <==> (x != state_uuid() && has_record(rs, x))
    &&& forall|k: int| 0 <= k < acc.entries.len() ==> (#[trigger] acc.entries[k]).start <= acc.entries[k].end <= acc.marks.len()
    &&& forall|k: int| 0 <= k < acc.entries.len() ==> exists|i: int| 0 <= i < rs.len() && rs[i].uuid == (#[trigger] acc.entries[k]).uuid
        && acc.marks.subrange(acc.entries[k].start as int, acc.entries[k].end as int) == marks_of(b.pepper, rs[i].fields)
    &&& forall|m: int| 0 <= m < acc.edits.len() ==> exists|i: int| 0 <= i < rs.len() && rs[i].uuid == (#[trigger] acc.edits[m]).uuid
        && rs[i].uuid != state_uuid() && acc.edits[m].edit == edit_for(b, rs[i])
    &&& forall|i: int| 0 <= i < rs.len() && (#[trigger] rs[i]).uuid != state_uuid() && (is_new(b, rs[i]) || !edit_is_empty(edit_for(b, rs[i]))) ==>
        exists|m: int| 0 <= m < acc.edits.len() && (#[trigger] acc.edits[m]).uuid == rs[i].uuid
}

/// The visit gathers what [`visit_facts`] says.
proof fn lemma_visit_facts(b: BaseV, rs: Seq<RecordV>)
    requires
        visit_acc(b, rs) is Some,
    ensures
        visit_facts(b, rs, visit_acc(b, rs).unwrap()),
    decreases rs.len(),
{
    let acc = visit_acc(b, rs).unwrap();
    if rs.len() == 0 {
        assert forall|x: Seq<u8>| #[trigger] entry_index(acc.entries, x, 0) < acc.entries.len() <==> (x != state_uuid() && has_record(rs, x)) by {}
    } else {
        let pre = rs.drop_last();
        let r = rs.last();
        lemma_visit_facts(b, pre);
        let a0 = visit_acc(b, pre).unwrap();
        if r.uuid == state_uuid() {
            assert(acc.edits == a0.edits);
            assert(acc.entries == a0.entries);
            assert(acc.marks == a0.marks);
            assert forall|x: Seq<u8>| #[trigger] entry_index(acc.entries, x, 0) < acc.entries.len() <==> (x != state_uuid() && has_record(rs, x)) by {
                assert(entry_index(a0.entries, x, 0) < a0.entries.len() <==> (x != state_uuid() && has_record(pre, x)));
                if has_record(pre, x) {
                    let i = choose|i: int| 0 <= i < pre.len() && (#[trigger] pre[i]).uuid == x;
                    assert(rs[i].uuid == x);
                }
                if has_record(rs, x) && x != state_uuid() {
                    let i = choose|i: int| 0 <= i < rs.len() && (#[trigger] rs[i]).uuid == x;
                    assert(pre[i].uuid == x);
                }
            }
            assert forall|k: int| 0 <= k < acc.entries.len() implies exists|i: int| 0 <= i < rs.len() && rs[i].uuid == (#[trigger] acc.entries[k]).uuid
                && acc.marks.subrange(acc.entries[k].start as int, acc.entries[k].end as int) == marks_of(b.pepper, rs[i].fields) by {
                let i = choose|i: int| 0 <= i < pre.len() && pre[i].uuid == (#[trigger] a0.entries[k]).uuid
                    && a0.marks.subrange(a0.entries[k].start as int, a0.entries[k].end as int) == marks_of(b.pepper, pre[i].fields);
                assert(rs[i] == pre[i]);
            }
            assert forall|m: int| 0 <= m < acc.edits.len() implies exists|i: int| 0 <= i < rs.len() && rs[i].uuid == (#[trigger] acc.edits[m]).uuid
                && rs[i].uuid != state_uuid() && acc.edits[m].edit == edit_for(b, rs[i]) by {
                let i = choose|i: int| 0 <= i < pre.len() && pre[i].uuid == (#[trigger] a0.edits[m]).uuid
                    && pre[i].uuid != state_uuid() && a0.edits[m].edit == edit_for(b, pre[i]);
                assert(rs[i] == pre[i]);
            }
            assert forall|i: int| 0 <= i < rs.len() && (#[trigger] rs[i]).uuid != state_uuid() && (is_new(b, rs[i]) || !edit_is_empty(edit_for(b, rs[i]))) implies
                exists|m: int| 0 <= m < acc.edits.len() && (#[trigger] acc.edits[m]).uuid == rs[i].uuid by {
                assert(i < pre.len());
                assert(pre[i] == rs[i]);
                let m = choose|m: int| 0 <= m < a0.edits.len() && (#[trigger] a0.edits[m]).uuid == pre[i].uuid;
                assert(acc.edits[m] == a0.edits[m]);
            }
        } else {
            let ms = marks_of(b.pepper, r.fields);
            let entry = EntryV { uuid: r.uuid, start: a0.marks.len(), end: a0.marks.len() + ms.len() };
            let e = edit_for(b, r);
            assert(acc.entries == a0.entries.push(entry));
            assert(acc.marks == a0.marks + ms);
            lemma_entry_index_found(a0.entries, r.uuid, 0);
            assert forall|x: Seq<u8>| #[trigger] entry_index(acc.entries, x, 0) < acc.entries.len() <==> (x != state_uuid() && has_record(rs, x)) by {
                assert(entry_index(a0.entries, x, 0) < a0.entries.len() <==> (x != state_uuid() && has_record(pre, x)));
                lemma_entry_index_found(a0.entries, x, 0);
                lemma_entry_index_push(a0.entries, entry, x, 0);
                if has_record(pre, x) {
                    let i = choose|i: int| 0 <= i < pre.len() && (#[trigger] pre[i]).uuid == x;
                    assert(rs[i].uuid == x);
                }
                if has_record(rs, x) && x != r.uuid {
                    let i = choose|i: int| 0 <= i < rs.len() && (#[trigger] rs[i]).uuid == x;
                    assert(pre[i].uuid == x);
                }
                if x == r.uuid {
                    assert(rs[rs.len() - 1].uuid == x);
                }
            }
            assert forall|k: int| 0 <= k < acc.entries.len() implies (#[trigger] acc.entries[k]).start <= acc.entries[k].end <= acc.marks.len() by {
                if k < a0.entries.len() {
                    assert(acc.entries[k] == a0.entries[k]);
                }
            }
            assert forall|k: int| 0 <= k < acc.entries.len() implies exists|i: int| 0 <= i < rs.len() && rs[i].uuid == (#[trigger] acc.entries[k]).uuid
                && acc.marks.subrange(acc.entries[k].start as int, acc.entries[k].end as int) == marks_of(b.pepper, rs[i].fields) by {
                if k < a0.entries.len() {
                    assert(acc.entries[k] == a0.entries[k]);
                    let i = choose|i: int| 0 <= i < pre.len() && pre[i].uuid == (#[trigger] a0.entries[k]).uuid
                        && a0.marks.subrange(a0.entries[k].start as int, a0.entries[k].end as int) == marks_of(b.pepper, pre[i].fields);
                    assert(a0.entries[k].end <= a0.marks.len());
                    assert(acc.marks.subrange(a0.entries[k].start as int, a0.entries[k].end as int) =~= a0.marks.subrange(a0.entries[k].start as int, a0.entries[k].end as int));
                    assert(rs[i] == pre[i]);
                } else {
                    assert(acc.marks.subrange(entry.start as int, entry.end as int) =~= ms);
                    assert(rs[rs.len() - 1] == r);
                }
            }
            assert forall|m: int| 0 <= m < acc.edits.len() implies exists|i: int| 0 <= i < rs.len() && rs[i].uuid == (#[trigger] acc.edits[m]).uuid
                && rs[i].uuid != state_uuid() && acc.edits[m].edit == edit_for(b, rs[i]) by {
                if m < a0.edits.len() {
                    assert(acc.edits[m] == a0.edits[m]);
                    let i = choose|i: int| 0 <= i < pre.len() && pre[i].uuid == (#[trigger] a0.edits[m]).uuid
                        && pre[i].uuid != state_uuid() && a0.edits[m].edit == edit_for(b, pre[i]);
                    assert(rs[i] == pre[i]);
                } else {
                    assert(rs[rs.len() - 1] == r);
                }
            }
            assert forall|i: int| 0 <= i < rs.len() && (#[trigger] rs[i]).uuid != state_uuid() && (is_new(b, rs[i]) || !edit_is_empty(edit_for(b, rs[i]))) implies
                exists|m: int| 0 <= m < acc.edits.len() && (#[trigger] acc.edits[m]).uuid == rs[i].uuid by {
                if i < pre.len() {
                    assert(pre[i] == rs[i]);
                    let m = choose|m: int| 0 <= m < a0.edits.len() && (#[trigger] a0.edits[m]).uuid == pre[i].uuid;
                    assert(acc.edits[m] == a0.edits[m]);
                } else {
                    assert(rs[i] == r);
                    assert(acc.edits[acc.edits.len() - 1].uuid == r.uuid);
                }
            }
        }
    }
}

/// Looking up an identifier after an entry was appended.
proof fn lemma_entry_index_push(es: Seq<EntryV>, e: EntryV, x: Seq<u8>, i: nat)
    requires
        i <= es.len(),
    ensures
        entry_index(es, x, i) < es.len() ==> entry_index(es.push(e), x, i) == entry_index(es, x, i),
        entry_index(es, x, i) >= es.len() ==> (entry_index(es.push(e), x, i) < es.len() + 1 <==> e.uuid == x),
    decreases es.len() - i,
{
    if i < es.len() && es[i as int].uuid != x {
        lemma_entry_index_push(es, e, x, i + 1);
    } else if i == es.len() {
        assert(es.push(e)[i as int] == e);
        if e.uuid != x {
            assert(entry_index(es.push(e), x, i + 1) == es.len() + 1);
        }
    } else {
        assert(es.push(e)[i as int] == es[i as int]);
    }
}

/// An identifier is found among entries exactly when some entry carries it.
proof fn lemma_entry_found(es: Seq<EntryV>, x: Seq<u8>)
    ensures
        entry_index(es, x, 0) < es.len() <==> exists|k: int| 0 <= k < es.len() && (#[trigger] es[k]).uuid == x,
{
    lemma_entry_index_found(es, x, 0);
    if exists|k: int| 0 <= k < es.len() && (#[trigger] es[k]).uuid == x {
        let k = choose|k: int| 0 <= k < es.len() && (#[trigger] es[k]).uuid == x;
        assert(entry_index(es, x, 0) <= k);
    }
}

/// The deleted identifiers: those of old entries that the new entries lack.
proof fn lemma_deleted_ids(old: Seq<EntryV>, new: Seq<EntryV>)
    ensures
        forall|x: Seq<u8>| #[trigger] deleted_ids(old, new).contains(x) <==>
            ((exists|k: int| 0 <= k < old.len() && (#[trigger] old[k]).uuid == x) && entry_index(new, x, 0) >= new.len()),
    decreases old.len(),
{
    if old.len() > 0 {
        let pre = old.drop_last();
        lemma_deleted_ids(pre, new);
        let d = deleted_ids(old, new);
        let dp = deleted_ids(pre, new);
        let last = old.last().uuid;
        assert forall|x: Seq<u8>| #[trigger] d.contains(x) <==>
            ((exists|k: int| 0 <= k < old.len() && (#[trigger] old[k]).uuid == x) && entry_index(new, x, 0) >= new.len()) by {
            assert(dp.contains(x) <==> ((exists|k: int| 0 <= k < pre.len() && (#[trigger] pre[k]).uuid == x) && entry_index(new, x, 0) >= new.len()));
            if exists|k: int| 0 <= k < pre.len() && (#[trigger] pre[k]).uuid == x {
                let k = choose|k: int| 0 <= k < pre.len() && (#[trigger] pre[k]).uuid == x;
                assert(old[k].uuid == x);
            }
            if exists|k: int| 0 <= k < old.len() && (#[trigger] old[k]).uuid == x {
                let k = choose|k: int| 0 <= k < old.len() && (#[trigger] old[k]).uuid == x;
                if k < old.len() - 1 {
                    assert(pre[k].uuid == x);
                }
            }
            if entry_index(new, last, 0) >= new.len() {
                assert(d == dp.push(last));
                if d.contains(x) && !dp.contains(x) {
                    let i = choose|i: int| 0 <= i < d.len() && d[i] == x;
                    assert(i == dp.len());
                    assert(old[old.len() - 1].uuid == x);
                }
                if dp.contains(x) {
                    let i = choose|i: int| 0 <= i < dp.len() && dp[i] == x;
                    assert(d[i] == x);
                }
                if x == last {
                    assert(d[dp.len() as int] == x);
                }
            } else {
                assert(d == dp);
            }
        }
    }
}

/// The existing records after a changeset: those not deleted, each as the
/// changeset leaves it.
proof fn lemma_apply_records(d: DiffV, rs: Seq<RecordV>)
    ensures
        forall|x: Seq<u8>| #[trigger] has_record(apply_records(d, rs), x) <==> (has_record(rs, x) && !d.delete.contains(x)),
        forall|k: int| 0 <= k < apply_records(d, rs).len() ==> exists|i: int| 0 <= i < rs.len()
            && rs[i].uuid == (#[trigger] apply_records(d, rs)[k]).uuid && apply_record(d, rs[i]) == Some(apply_records(d, rs)[k]),
    decreases rs.len(),
{
    if rs.len() > 0 {
        let pre = rs.drop_last();
        lemma_apply_records(d, pre);
        let out = apply_records(d, rs);
        let op = apply_records(d, pre);
        let r = rs.last();
        if d.delete.contains(r.uuid) {
            assert(out == op);
        } else {
            assert(out == op.push(apply_record(d, r).unwrap()));
            assert(apply_record(d, r).unwrap().uuid == r.uuid);
        }
        assert forall|x: Seq<u8>| #[trigger] has_record(out, x) <==> (has_record(rs, x) && !d.delete.contains(x)) by {
            assert(has_record(op, x) <==> (has_record(pre, x) && !d.delete.contains(x)));
            if has_record(op, x) {
                let k = choose|k: int| 0 <= k < op.len() && (#[trigger] op[k]).uuid == x;
                assert(out[k].uuid == x);
            }
            if has_record(pre, x) {
                let i = choose|i: int| 0 <= i < pre.len() && (#[trigger] pre[i]).uuid == x;
                assert(rs[i].uuid == x);
            }
            if has_record(rs, x) && x != r.uuid {
                let i = choose|i: int| 0 <= i < rs.len() && (#[trigger] rs[i]).uuid == x;
                assert(pre[i].uuid == x);
            }
            if has_record(out, x) && !has_record(op, x) {
                let k = choose|k: int| 0 <= k < out.len() && (#[trigger] out[k]).uuid == x;
                assert(k == op.len());
                assert(rs[rs.len() - 1].uuid == x);
            }
            if x == r.uuid && !d.delete.contains(x) {
                assert(out[op.len() as int].uuid == x);
            }
        }
        assert forall|k: int| 0 <= k < out.len() implies exists|i: int| 0 <= i < rs.len()
            && rs[i].uuid == (#[trigger] out[k]).uuid && apply_record(d, rs[i]) == Some(out[k]) by {
            if k < op.len() {
                let i = choose|i: int| 0 <= i < pre.len() && pre[i].uuid == (#[trigger] op[k]).uuid && apply_record(d, pre[i]) == Some(op[k]);
                assert(rs[i] == pre[i]);
                assert(out[k] == op[k]);
            } else {
                assert(rs[rs.len() - 1] == r);
            }
        }
    }
}

/// The created records: one for each edit of an identifier the records lack.
proof fn lemma_new_records(es: Seq<RecordEditV>, rs: Seq<RecordV>)
    ensures
        forall|x: Seq<u8>| #[trigger] has_record(new_records(es, rs), x) <==>
            ((exists|m: int| 0 <= m < es.len() && (#[trigger] es[m]).uuid == x) && !has_record(rs, x)),
        forall|k: int| 0 <= k < new_records(es, rs).len() ==> exists|m: int| 0 <= m < es.len()
            && es[m].uuid == (#[trigger] new_records(es, rs)[k]).uuid && new_records(es, rs)[k] == new_record(es[m]),
    decreases es.len(),
{
    if es.len() > 0 {
        let pre = es.drop_last();
        lemma_new_records(pre, rs);
        let out = new_records(es, rs);
        let op = new_records(pre, rs);
        let e = es.last();
        if has_record(rs, e.uuid) {
            assert(out == op);
        } else {
            assert(out == op.push(new_record(e)));
        }
        assert forall|x: Seq<u8>| #[trigger] has_record(out, x) <==>
            ((exists|m: int| 0 <= m < es.len() && (#[trigger] es[m]).uuid == x) && !has_record(rs, x)) by {
            assert(has_record(op, x) <==> ((exists|m: int| 0 <= m < pre.len() && (#[trigger] pre[m]).uuid == x) && !has_record(rs, x)));
            if has_record(op, x) {
                let k = choose|k: int| 0 <= k < op.len() && (#[trigger] op[k]).uuid == x;
                assert(out[k].uuid == x);
            }
            if exists|m: int| 0 <= m < pre.len() && (#[trigger] pre[m]).uuid == x {
                let m = choose|m: int| 0 <= m < pre.len() && (#[trigger] pre[m]).uuid == x;
                assert(es[m].uuid == x);
            }
            if exists|m: int| 0 <= m < es.len() && (#[trigger] es[m]).uuid == x {
                let m = choose|m: int| 0 <= m < es.len() && (#[trigger] es[m]).uuid == x;
                if m < es.len() - 1 {
                    assert(pre[m].uuid == x);
                } else if !has_record(rs, x) {
                    assert(out[op.len() as int].uuid == x);
                }
            }
            if has_record(out, x) && !has_record(op, x) {
                let k = choose|k: int| 0 <= k < out.len() && (#[trigger] out[k]).uuid == x;
                assert(k == op.len());
                assert(es[es.len() - 1].uuid == x);
            }
        }
        assert forall|k: int| 0 <= k < out.len() implies exists|m: int| 0 <= m < es.len()
            && es[m].uuid == (#[trigger] out[k]).uuid && out[k] == new_record(es[m]) by {
            if k < op.len() {
                let m = choose|m: int| 0 <= m < pre.len() && pre[m].uuid == (#[trigger] op[k]).uuid && op[k] == new_record(pre[m]);
                assert(es[m] == pre[m]);
                assert(out[k] == op[k]);
            } else {
                assert(es[es.len() - 1] == e);
            }
        }
    }
}

/// A record's fields other than identifier fields: every other type.
proof fn lemma_without_uuid(fs: Seq<FieldV>)
    ensures
        forall|t: u8| #[trigger] fmap(without_uuid(fs)).contains_key(t) <==> (holds_type(fs, t) && t != FIELD_UUID),
        types_unique(fs) ==> forall|i: int| 0 <= i < fs.len() && fs[i].0 != FIELD_UUID ==>
            #[trigger] fmap(without_uuid(fs))[fs[i].0] == fs[i].1,
    decreases fs.len(),
{
    if fs.len() > 0 {
        let pre = fs.drop_last();
        lemma_without_uuid(pre);
        let w = without_uuid(fs);
        let wp = without_uuid(pre);
        let last = fs.last();
        if last.0 == FIELD_UUID {
            assert(w == wp);
        } else {
            assert(w == wp.push(last));
            assert(wp.push(last).drop_last() =~= wp);
            assert(fmap(w) == fmap(wp).insert(last.0, last.1));
        }
        assert forall|t: u8| #[trigger] fmap(w).contains_key(t) <==> (holds_type(fs, t) && t != FIELD_UUID) by {
            assert(fmap(wp).contains_key(t) <==> (holds_type(pre, t) && t != FIELD_UUID));
            if holds_type(pre, t) {
                let i = choose|i: int| 0 <= i < pre.len() && (#[trigger] pre[i]).0 == t;
                assert(fs[i].0 == t);
            }
            if holds_type(fs, t) && t != last.0 {
                let i = choose|i: int| 0 <= i < fs.len() && (#[trigger] fs[i]).0 == t;
                assert(pre[i].0 == t);
            }
            if t == last.0 {
                assert(fs[fs.len() - 1].0 == t);
            }
        }
        if types_unique(fs) {
            assert(types_unique(pre));
            assert forall|i: int| 0 <= i < fs.len() && fs[i].0 != FIELD_UUID implies
                #[trigger] fmap(w)[fs[i].0] == fs[i].1 by {
                if i < fs.len() - 1 {
                    assert(pre[i] == fs[i]);
                    assert(fs[i].0 != last.0);
                    assert(fmap(wp)[pre[i].0] == pre[i].1);
                }
            }
        }
    }
}

/// A created record has the fields, type by type, of the record it came from.
proof fn lemma_new_record_map(r: RecordV)
    requires
        types_unique(r.fields),
        r.fields.contains((FIELD_UUID, r.uuid)),
    ensures
        fmap(seq![(FIELD_UUID, r.uuid)] + without_uuid(r.fields)) == fmap(r.fields),
{
    let fs = r.fields;
    let head = seq![(FIELD_UUID, r.uuid)];
    lemma_fmap_concat(head, without_uuid(fs));
    lemma_without_uuid(fs);
    lemma_fmap(fs);
    assert(head.drop_last() =~= Seq::<FieldV>::empty());
    assert(fmap(Seq::<FieldV>::empty()) == Map::<u8, Seq<u8>>::empty());
    assert(head.last() == (FIELD_UUID, r.uuid));
    assert(fmap(head) == fmap(head.drop_last()).insert(FIELD_UUID, r.uuid));
    assert(fmap(head) == Map::<u8, Seq<u8>>::empty().insert(FIELD_UUID, r.uuid));
    let j = choose|j: int| 0 <= j < fs.len() && fs[j] == (FIELD_UUID, r.uuid);
    lemma_fmap_at(fs, j);
    let out = fmap(head).union_prefer_right(fmap(without_uuid(fs)));
    assert forall|t: u8| #[trigger] out.contains_key(t) == fmap(fs).contains_key(t) && (out.contains_key(t) ==> out[t] == fmap(fs)[t]) by {
        if t != FIELD_UUID && holds_type(fs, t) {
            let i = choose|i: int| 0 <= i < fs.len() && (#[trigger] fs[i]).0 == t;
            lemma_fmap_at(fs, i);
        }
    }
    assert(out =~= fmap(fs));
}

/// An edit that neither sets nor deletes leaves the fields as they are.
proof fn lemma_empty_edit(e: DiffEditV, fs: Seq<FieldV>)
    requires
        edit_is_empty(e),
    ensures
        edit_fields(e, fs) == fs,
    decreases fs.len(),
{
    lemma_empty_kept(e, fs);
    assert(added_fields(e, e.set, fs) == Seq::<FieldV>::empty());
    assert(fs + Seq::<FieldV>::empty() =~= fs);
}

proof fn lemma_empty_kept(e: DiffEditV, fs: Seq<FieldV>)
    requires
        edit_is_empty(e),
    ensures
        kept_fields(e, fs) == fs,
    decreases fs.len(),
{
    if fs.len() > 0 {
        lemma_empty_kept(e, fs.drop_last());
        lemma_substitute_none(e, fs.last());
        assert(!e.delete.contains(fs.last().0));
        assert(fs.drop_last().push(fs.last()) =~= fs);
    }
}

/// Records with distinct identifiers, each with fields of distinct types that
/// include its identifier field.
pub open spec fn records_ok(rs: Seq<RecordV>) -> bool {
    &&& ids_unique(rs)
    &&& forall|i: int| 0 <= i < rs.len() ==> types_unique((#[trigger] rs[i]).fields) && rs[i].fields.contains((FIELD_UUID, rs[i].uuid))
}

/// The fingerprint before any snapshot: a pepper and nothing else.
pub open spec fn empty_base(p: Seq<u8>) -> BaseV {
    BaseV { pepper: p, marks: Seq::empty(), entries: Seq::empty() }
}

/// The fingerprint of snapshot `s0` under pepper `p`.
pub open spec fn base_after(p: Seq<u8>, s0: StreamV) -> BaseV {
    visit_spec(empty_base(p), s0).unwrap().0
}

/// Records of the two snapshots with the same identifier have fields whose
/// digests differ unless the fields are equal.
pub open spec fn digests_separate(p: Seq<u8>, s0: Seq<RecordV>, s: Seq<RecordV>) -> bool {
    forall|i: int, j: int| 0 <= i < s0.len() && 0 <= j < s.len() && (#[trigger] s0[i]).uuid == (#[trigger] s[j]).uuid ==>
        marks_separate(p, s0[i].fields, s[j].fields)
}

/// The edit computed for a record the old snapshot has.
proof fn lemma_edit_for_known(p: Seq<u8>, s0: StreamV, r: RecordV, i0: int)
    requires
        visit_acc(empty_base(p), s0.records) is Some,
        ids_unique(s0.records),
        0 <= i0 < s0.records.len(),
        s0.records[i0].uuid == r.uuid,
        r.uuid != state_uuid(),
    ensures
        edit_for(base_after(p, s0), r) == edit_between(p, s0.records[i0].fields, r.fields),
{
    let acc0 = visit_acc(empty_base(p), s0.records).unwrap();
    lemma_visit_facts(empty_base(p), s0.records);
    let x = r.uuid;
    assert(has_record(s0.records, x));
    assert(entry_index(acc0.entries, x, 0) < acc0.entries.len());
    lemma_entry_index_found(acc0.entries, x, 0);
    let k = entry_index(acc0.entries, x, 0) as int;
    let i = choose|i: int| 0 <= i < s0.records.len() && s0.records[i].uuid == (#[trigger] acc0.entries[k]).uuid
        && acc0.marks.subrange(acc0.entries[k].start as int, acc0.entries[k].end as int) == marks_of(p, s0.records[i].fields);
    assert(i == i0);
}

/// The edit computed for a record the old snapshot lacks.
proof fn lemma_edit_for_unknown(p: Seq<u8>, s0: StreamV, r: RecordV)
    requires
        visit_acc(empty_base(p), s0.records) is Some,
        !has_record(s0.records, r.uuid),
    ensures
        is_new(base_after(p, s0), r),
        edit_for(base_after(p, s0), r) == (DiffEditV { set: without_uuid(r.fields), delete: Seq::empty() }),
{
    lemma_visit_facts(empty_base(p), s0.records);
    let acc0 = visit_acc(empty_base(p), s0.records).unwrap();
    assert(!(entry_index(acc0.entries, r.uuid, 0) < acc0.entries.len()));
}

/// The changeset from the fingerprint of `s0` to `s`.
pub open spec fn diff_between(p: Seq<u8>, s0: StreamV, s: StreamV) -> DiffV {
    visit_spec(base_after(p, s0), s).unwrap().1
}

/// Which identifiers the changeset deletes: those of `s0` that `s` lacks.
proof fn lemma_deletes(p: Seq<u8>, s0: StreamV, s: StreamV, x: Seq<u8>)
    requires
        visit_acc(empty_base(p), s0.records) is Some,
        visit_acc(base_after(p, s0), s.records) is Some,
        x != state_uuid(),
    ensures
        diff_between(p, s0, s).delete.contains(x) <==> (has_record(s0.records, x) && !has_record(s.records, x)),
{
    let b = base_after(p, s0);
    let acc1 = visit_acc(b, s.records).unwrap();
    lemma_visit_facts(empty_base(p), s0.records);
    lemma_visit_facts(b, s.records);
    lemma_deleted_ids(b.entries, acc1.entries);
    lemma_entry_found(b.entries, x);
    assert(entry_index(b.entries, x, 0) < b.entries.len() <==> has_record(s0.records, x));
    assert(entry_index(acc1.entries, x, 0) < acc1.entries.len() <==> has_record(s.records, x));
}

/// Which identifiers have an edit: those of `s` that `s0` lacks or whose record changed.
proof fn lemma_edit_of(p: Seq<u8>, s0: StreamV, s: StreamV, m: int)
    requires
        visit_acc(empty_base(p), s0.records) is Some,
        visit_acc(base_after(p, s0), s.records) is Some,
        0 <= m < diff_between(p, s0, s).edit.len(),
    ensures
        exists|j: int| 0 <= j < s.records.len() && (#[trigger] s.records[j]).uuid == diff_between(p, s0, s).edit[m].uuid
            && s.records[j].uuid != state_uuid() && diff_between(p, s0, s).edit[m].edit == edit_for(base_after(p, s0), s.records[j]),
{
    lemma_visit_facts(base_after(p, s0), s.records);
    let acc1 = visit_acc(base_after(p, s0), s.records).unwrap();
    assert(diff_between(p, s0, s).edit == acc1.edits);
    let j = choose|j: int| 0 <= j < s.records.len() && s.records[j].uuid == (#[trigger] acc1.edits[m]).uuid
        && s.records[j].uuid != state_uuid() && acc1.edits[m].edit == edit_for(base_after(p, s0), s.records[j]);
    assert(s.records[j].uuid == diff_between(p, s0, s).edit[m].uuid);
}

/// A record of `s` whose edit is not empty has one in the changeset.
proof fn lemma_edit_present(p: Seq<u8>, s0: StreamV, s: StreamV, j: int)
    requires
        visit_acc(empty_base(p), s0.records) is Some,
        visit_acc(base_after(p, s0), s.records) is Some,
        0 <= j < s.records.len(),
        s.records[j].uuid != state_uuid(),
        is_new(base_after(p, s0), s.records[j]) || !edit_is_empty(edit_for(base_after(p, s0), s.records[j])),
    ensures
        exists|m: int| 0 <= m < diff_between(p, s0, s).edit.len() && (#[trigger] diff_between(p, s0, s).edit[m]).uuid == s.records[j].uuid,
{
    lemma_visit_facts(base_after(p, s0), s.records);
    let acc1 = visit_acc(base_after(p, s0), s.records).unwrap();
    assert(diff_between(p, s0, s).edit == acc1.edits);
    let m = choose|m: int| 0 <= m < acc1.edits.len() && (#[trigger] acc1.edits[m]).uuid == s.records[j].uuid;
    assert(diff_between(p, s0, s).edit[m].uuid == s.records[j].uuid);
}

/// An existing record after the changeset matches its version in `s`.
proof fn lemma_out_existing(p: Seq<u8>, s0: StreamV, s: StreamV, i: int, out: RecordV)
    requires
        visit_acc(empty_base(p), s0.records) is Some,
        visit_acc(base_after(p, s0), s.records) is Some,
        records_ok(s0.records),
        records_ok(s.records),
        digests_separate(p, s0.records, s.records),
        0 <= i < s0.records.len(),
        s0.records[i].uuid != state_uuid(),
        apply_record(diff_between(p, s0, s), s0.records[i]) == Some(out),
    ensures
        exists|j: int| 0 <= j < s.records.len() && (#[trigger] s.records[j]).uuid == out.uuid && fmap(out.fields) == fmap(s.records[j].fields),
{
    let d = diff_between(p, s0, s);
    let r0 = s0.records[i];
    let x = r0.uuid;
    lemma_deletes(p, s0, s, x);
    assert(has_record(s0.records, x));
    assert(!d.delete.contains(x));
    let j = choose|j: int| 0 <= j < s.records.len() && (#[trigger] s.records[j]).uuid == x;
    let r = s.records[j];
    lemma_edit_for_known(p, s0, r, i);
    assert(types_unique(r0.fields) && types_unique(r.fields));
    assert(marks_separate(p, r0.fields, r.fields));
    lemma_edit_rebuilds_record(p, r0.fields, r.fields);
    lemma_edit_index_found(d.edit, x, 0);
    let m = edit_index(d.edit, x, 0);
    if m < d.edit.len() {
        lemma_edit_of(p, s0, s, m as int);
        let j2 = choose|j2: int| 0 <= j2 < s.records.len() && (#[trigger] s.records[j2]).uuid == d.edit[m as int].uuid
            && s.records[j2].uuid != state_uuid() && d.edit[m as int].edit == edit_for(base_after(p, s0), s.records[j2]);
        assert(j2 == j);
        assert(out.fields == edit_fields(edit_between(p, r0.fields, r.fields), r0.fields));
    } else {
        if !edit_is_empty(edit_for(base_after(p, s0), r)) {
            lemma_edit_present(p, s0, s, j);
            let m2 = choose|m2: int| 0 <= m2 < d.edit.len() && (#[trigger] d.edit[m2]).uuid == r.uuid;
            assert(false);
        }
        lemma_empty_edit(edit_between(p, r0.fields, r.fields), r0.fields);
        assert(out == r0);
    }
}

/// A created record matches its version in `s`.
proof fn lemma_out_new(p: Seq<u8>, s0: StreamV, s: StreamV, m: int)
    requires
        visit_acc(empty_base(p), s0.records) is Some,
        visit_acc(base_after(p, s0), s.records) is Some,
        records_ok(s.records),
        0 <= m < diff_between(p, s0, s).edit.len(),
        !has_record(s0.records, diff_between(p, s0, s).edit[m].uuid),
    ensures ({
        let out = new_record(diff_between(p, s0, s).edit[m]);
        exists|j: int| 0 <= j < s.records.len() && (#[trigger] s.records[j]).uuid == out.uuid && fmap(out.fields) == fmap(s.records[j].fields)
    }),
{
    let d = diff_between(p, s0, s);
    lemma_edit_of(p, s0, s, m);
    let j = choose|j: int| 0 <= j < s.records.len() && (#[trigger] s.records[j]).uuid == d.edit[m].uuid
        && s.records[j].uuid != state_uuid() && d.edit[m].edit == edit_for(base_after(p, s0), s.records[j]);
    let r = s.records[j];
    lemma_edit_for_unknown(p, s0, r);
    lemma_new_record_map(r);
}

/// Applying the changeset computed from the fingerprint of an older snapshot
/// `s0` to a newer snapshot `s` back to `s0` gives every record of `s`, and
/// no other, with the same fields type by type (their order may differ). The
/// state record is left out on both sides. This holds where identifiers and
/// field types do not repeat, each record holds its identifier field, and
/// fields of a record present in both snapshots have distinct digests unless
/// they are equal.
pub proof fn lemma_round_trip(p: Seq<u8>, s0: StreamV, s: StreamV)
    requires
        visit_spec(empty_base(p), s0) is Some,
        visit_spec(base_after(p, s0), s) is Some,
        records_ok(s0.records),
        records_ok(s.records),
        digests_separate(p, s0.records, s.records),
    ensures
        forall|x: Seq<u8>| x != state_uuid() ==>
            (#[trigger] has_record(apply_stream(diff_between(p, s0, s), s0).records, x) <==> has_record(s.records, x)),
        forall|k: int| 0 <= k < apply_stream(diff_between(p, s0, s), s0).records.len()
            && (#[trigger] apply_stream(diff_between(p, s0, s), s0).records[k]).uuid != state_uuid() ==>
            exists|j: int| 0 <= j < s.records.len() && (#[trigger] s.records[j]).uuid == apply_stream(diff_between(p, s0, s), s0).records[k].uuid
                && fmap(apply_stream(diff_between(p, s0, s), s0).records[k].fields) == fmap(s.records[j].fields),
{
    let d = diff_between(p, s0, s);
    let ex = apply_records(d, s0.records);
    let nw = new_records(d.edit, s0.records);
    let out = apply_stream(d, s0).records;
    assert(out == ex + nw);
    lemma_apply_records(d, s0.records);
    lemma_new_records(d.edit, s0.records);
    assert forall|x: Seq<u8>| x != state_uuid() implies (#[trigger] has_record(out, x) <==> has_record(s.records, x)) by {
        lemma_deletes(p, s0, s, x);
        if has_record(out, x) {
            let k = choose|k: int| 0 <= k < out.len() && (#[trigger] out[k]).uuid == x;
            if k < ex.len() {
                assert(ex[k].uuid == x);
                assert(has_record(ex, x));
            } else {
                assert(nw[k - ex.len()].uuid == x);
                assert(has_record(nw, x));
                let m = choose|m: int| 0 <= m < d.edit.len() && (#[trigger] d.edit[m]).uuid == x;
                lemma_edit_of(p, s0, s, m);
            }
        }
        if has_record(s.records, x) {
            let j = choose|j: int| 0 <= j < s.records.len() && (#[trigger] s.records[j]).uuid == x;
            if has_record(s0.records, x) {
                assert(has_record(ex, x));
                let k = choose|k: int| 0 <= k < ex.len() && (#[trigger] ex[k]).uuid == x;
                assert(out[k].uuid == x);
            } else {
                lemma_edit_for_unknown(p, s0, s.records[j]);
                lemma_edit_present(p, s0, s, j);
                assert(has_record(nw, x));
                let k = choose|k: int| 0 <= k < nw.len() && (#[trigger] nw[k]).uuid == x;
                assert(out[ex.len() + k].uuid == x);
            }
        }
    }
    assert forall|k: int| 0 <= k < out.len() && (#[trigger] out[k]).uuid != state_uuid() implies
        exists|j: int| 0 <= j < s.records.len() && (#[trigger] s.records[j]).uuid == out[k].uuid && fmap(out[k].fields) == fmap(s.records[j].fields) by {
        if k < ex.len() {
            assert(out[k] == ex[k]);
            let i = choose|i: int| 0 <= i < s0.records.len() && s0.records[i].uuid == (#[trigger] ex[k]).uuid && apply_record(d, s0.records[i]) == Some(ex[k]);
            lemma_out_existing(p, s0, s, i, ex[k]);
        } else {
            let k2 = k - ex.len();
            assert(out[k] == nw[k2]);
            let m = choose|m: int| 0 <= m < d.edit.len() && d.edit[m].uuid == (#[trigger] nw[k2]).uuid && nw[k2] == new_record(d.edit[m]);
            assert(has_record(nw, nw[k2].uuid));
            lemma_out_new(p, s0, s, m);
        }
    }
}

} // verus!
