//! The credential companion's logic: which unit asks, from the abstract socket
//! address systemd connects from, and the password stored for an identifier.
use vstd::prelude::*;
use vstd::utf8::{encode_utf8, valid_utf8};
use crate::bytes::copy_range;
use crate::fields::{fields_view, Field, FieldV, FIELD_PASSWORD, FIELD_UUID};

verus! {

/// The unit and credential name a connecting peer asks for.
pub struct SystemdUnitSource {
    pub service: String,
    /// ASCII.
    pub credential: String,
}

/// Relies on std::str::from_utf8: it succeeds exactly on valid UTF-8 and the
/// string then holds those bytes.
#[verifier::external_body]
fn utf8_string(b: &[u8]) -> (r: Option<String>)
    ensures
        r is Some <==> valid_utf8(b@),
        r matches Some(s) ==> encode_utf8(s@) == b@,
{
    match std::str::from_utf8(b) {
        Ok(s) => Some(s.to_owned()),
        Err(_) => None,
    }
}

/// Index of the first byte `b` at or after `i`, or the length.
pub open spec fn find_byte(t: Seq<u8>, b: u8, i: nat) -> nat
    decreases t.len() - i,
{
    if i >= t.len() {
        t.len()
    } else if t[i as int] == b {
        i
    } else {
        find_byte(t, b, i + 1)
    }
}

proof fn lemma_find_byte(t: Seq<u8>, b: u8, i: nat)
    ensures
        i <= t.len() ==> i <= find_byte(t, b, i) <= t.len(),
        i > t.len() ==> find_byte(t, b, i) == t.len(),
        find_byte(t, b, i) < t.len() ==> t[find_byte(t, b, i) as int] == b,
    decreases t.len() - i,
{
    if i < t.len() && t[i as int] != b {
        lemma_find_byte(t, b, i + 1);
    }
}

/// Every byte is ASCII.
pub open spec fn all_ascii(t: Seq<u8>) -> bool {
    forall|i: int| 0 <= i < t.len() ==> t[i] < 128
}

/// The bytes `unit`.
pub open spec fn unit_word() -> Seq<u8> {
    seq![0x75u8, 0x6e, 0x69, 0x74]
}

/// The four `/`-separated parts of `t`, where there are exactly four.
pub open spec fn four_parts(t: Seq<u8>) -> Option<(Seq<u8>, Seq<u8>, Seq<u8>, Seq<u8>)> {
    let s1 = find_byte(t, 0x2f, 0);
    let s2 = find_byte(t, 0x2f, s1 + 1);
    let s3 = find_byte(t, 0x2f, s2 + 1);
    if s1 >= t.len() || s2 >= t.len() || s3 >= t.len() || find_byte(t, 0x2f, s3 + 1) < t.len() {
        None
    } else {
        Some((t.subrange(0, s1 as int), t.subrange((s1 + 1) as int, s2 as int), t.subrange((s2 + 1) as int, s3 as int), t.subrange((s3 + 1) as int, t.len() as int)))
    }
}

/// The service and credential bytes named by an abstract socket address
/// `\0<random>/unit/<service>/<credential>`, the credential cut at its first
/// NUL; `None` where the address has another shape.
pub open spec fn peer_spec(a: Seq<u8>) -> Option<(Seq<u8>, Seq<u8>)> {
    if a.len() == 0 || a[0] != 0 {
        None
    } else {
        match four_parts(a.subrange(1, a.len() as int)) {
            None => None,
            Some((random, unit, service, credential)) => {
                let cut = credential.subrange(0, find_byte(credential, 0, 0) as int);
                if all_ascii(random) && unit == unit_word() && valid_utf8(service) && all_ascii(credential) && valid_utf8(cut) {
                    Some((service, cut))
                } else {
                    None
                }
            },
        }
    }
}

/// Index of the first byte `b` in `t` at or after `i`.
fn find(t: &[u8], b: u8, i: usize) -> (r: usize)
    requires
        i <= t@.len(),
    ensures
        r == find_byte(t@, b, i as nat),
        i <= r <= t@.len(),
{
    let mut k = i;
    while k < t.len() && t[k] != b
        invariant
            i <= k <= t@.len(),
            find_byte(t@, b, i as nat) == find_byte(t@, b, k as nat),
        decreases t@.len() - k,
    {
        k = k + 1;
    }
    k
}

/// Whether every byte is ASCII.
fn is_ascii(t: &[u8]) -> (r: bool)
    ensures
        r == all_ascii(t@),
{
    let mut i: usize = 0;
    while i < t.len()
        invariant
            0 <= i <= t@.len(),
            forall|j: int| 0 <= j < i ==> t@[j] < 128,
        decreases t@.len() - i,
    {
        if t[i] >= 128 {
            return false;
        }
        i = i + 1;
    }
    true
}

/// Parses the abstract socket address systemd connects from when it asks for
/// a credential.
pub fn parse_peer_addr(abstract_addr: &[u8]) -> (r: Option<SystemdUnitSource>)
    ensures
        match r {
            Some(src) => peer_spec(abstract_addr@) == Some((encode_utf8(src.service@), encode_utf8(src.credential@))),
            None => peer_spec(abstract_addr@) is None,
        },
{
    let n = abstract_addr.len();
    if n == 0 || abstract_addr[0] != 0 {
        return None;
    }
    let t = copy_range(abstract_addr, 1, n);
    let s1 = find(t.as_slice(), 0x2f, 0);
    if s1 >= t.len() {
        return None;
    }
    let s2 = find(t.as_slice(), 0x2f, s1 + 1);
    if s2 >= t.len() {
        return None;
    }
    let s3 = find(t.as_slice(), 0x2f, s2 + 1);
    if s3 >= t.len() {
        return None;
    }
    let s4 = find(t.as_slice(), 0x2f, s3 + 1);
    if s4 < t.len() {
        return None;
    }
    let random = copy_range(t.as_slice(), 0, s1);
    let unit = copy_range(t.as_slice(), s1 + 1, s2);
    let service = copy_range(t.as_slice(), s2 + 1, s3);
    let credential = copy_range(t.as_slice(), s3 + 1, t.len());
    if !is_ascii(random.as_slice()) {
        return None;
    }
    if !(unit.len() == 4 && unit[0] == 0x75 && unit[1] == 0x6e && unit[2] == 0x69 && unit[3] == 0x74) {
        proof {
            if unit@.len() == 4 {
                assert(unit@ != unit_word()) by {
                    if unit@ == unit_word() {
                        assert(unit@[0] == 0x75 && unit@[1] == 0x6e && unit@[2] == 0x69 && unit@[3] == 0x74);
                    }
                }
            }
        }
        return None;
    }
    assert(unit@ =~= unit_word());
    let service_str = match utf8_string(service.as_slice()) {
        Some(s) => s,
        None => {
            return None;
        },
    };
    if !is_ascii(credential.as_slice()) {
        return None;
    }
    let z = find(credential.as_slice(), 0, 0);
    let cut = copy_range(credential.as_slice(), 0, z);
    let credential_str = match utf8_string(cut.as_slice()) {
        Some(s) => s,
        None => {
            return None;
        },
    };
    Some(SystemdUnitSource { service: service_str, credential: credential_str })
}

/// The password stored for record `id` in a run of fields: the first password
/// field that follows an identifier field equal to `id`, with no other
/// identifier field between.
pub open spec fn search_spec(fs: Seq<FieldV>, id: Seq<u8>) -> Option<Seq<u8>>
    decreases fs.len(),
{
    if fs.len() == 0 {
        None
    } else {
        match search_spec(fs.drop_last(), id) {
            Some(found) => Some(found),
            None => if fs.last().0 == FIELD_PASSWORD && in_match(fs.drop_last(), id) { Some(fs.last().1) } else { None },
        }
    }
}

/// Whether the latest identifier field among `fs` equals `id`.
pub open spec fn in_match(fs: Seq<FieldV>, id: Seq<u8>) -> bool
    decreases fs.len(),
{
    if fs.len() == 0 {
        false
    } else if fs.last().0 == FIELD_UUID {
        fs.last().1 == id
    } else {
        in_match(fs.drop_last(), id)
    }
}

/// Looks up the password of record `id`.
pub fn search_by_uuid(fs: &Vec<Field>, id: &[u8]) -> (r: Option<Vec<u8>>)
    ensures
        match r {
            Some(v) => search_spec(fields_view(fs@), id@) == Some(v@),
            None => search_spec(fields_view(fs@), id@) is None,
        },
{
    let ghost fv = fields_view(fs@);
    let mut matching = false;
    let mut i: usize = 0;
    while i < fs.len()
        invariant
            fv == fields_view(fs@),
            0 <= i <= fs@.len(),
            search_spec(fv.subrange(0, i as int), id@) is None,
            matching == in_match(fv.subrange(0, i as int), id@),
        decreases fs@.len() - i,
    {
        let ghost pre = fv.subrange(0, i + 1);
        assert(pre.drop_last() =~= fv.subrange(0, i as int));
        assert(pre.last() == fv[i as int]);
        let f = &fs[i];
        if f.ty == FIELD_UUID {
            matching = crate::bytes::bytes_eq(f.data.as_slice(), id);
        }
        if f.ty == FIELD_PASSWORD && matching {
            proof {
                lemma_search_prefix(fv, (i + 1) as nat, id@);
            }
            return Some(crate::bytes::copy_all(f.data.as_slice()));
        }
        i = i + 1;
    }
    assert(fv.subrange(0, fs@.len() as int) =~= fv);
    None
}

/// A password found among the first fields stays the answer for all of them.
proof fn lemma_search_prefix(fs: Seq<FieldV>, k: nat, id: Seq<u8>)
    requires
        k <= fs.len(),
        search_spec(fs.subrange(0, k as int), id) is Some,
    ensures
        search_spec(fs, id) == search_spec(fs.subrange(0, k as int), id),
    decreases fs.len() - k,
{
    if k < fs.len() {
        assert(fs.subrange(0, (k + 1) as int).drop_last() =~= fs.subrange(0, k as int));
        lemma_search_prefix(fs, k + 1, id);
    } else {
        assert(fs.subrange(0, k as int) =~= fs);
    }
}

} // verus!
