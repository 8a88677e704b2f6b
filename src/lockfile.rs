//! The advisory lock file shared with the native editor: where it lives and
//! what it says about its holder.
use vstd::prelude::*;
use vstd::utf8::encode_utf8;
use crate::bytes::{append_bytes, copy_range};

verus! {

/// Who holds the lock: user name, host name and process id.
pub struct UserInfo {
    pub user: String,
    pub host: String,
    pub pid: u64,
}

/// The decimal digits of `n`.
pub open spec fn decimal(n: nat) -> Seq<u8>
    decreases n,
{
    if n < 10 {
        seq![(48 + n) as u8]
    } else {
        decimal(n / 10) + seq![(48 + n % 10) as u8]
    }
}

/// The decimal digits of `n`.
pub fn decimal_bytes(n: u64) -> (r: Vec<u8>)
    ensures
        r@ == decimal(n as nat),
{
    let mut acc: Vec<u8> = Vec::new();
    let mut m = n;
    while m >= 10
        invariant
            decimal(n as nat) == decimal(m as nat) + acc@,
        decreases m,
    {
        let d = (m % 10) as u8;
        let ghost prev = acc@;
        acc.insert(0, 48 + d);
        assert(acc@ =~= seq![(48 + m % 10) as u8] + prev);
        assert(decimal(m as nat) == decimal((m / 10) as nat) + seq![(48 + m % 10) as u8]);
        assert(decimal(m as nat) + prev =~= decimal((m / 10) as nat) + acc@);
        m = m / 10;
    }
    let ghost prev = acc@;
    acc.insert(0, 48 + m as u8);
    assert(acc@ =~= decimal(m as nat) + prev);
    acc
}

impl UserInfo {
    /// The holder's description.
    pub fn new(user: String, host: String, pid: u64) -> (r: UserInfo)
        ensures
            r.user == user,
            r.host == host,
            r.pid == pid,
    {
        UserInfo { user, host, pid }
    }

    /// What the lock file holds: `<user>@<host>:<pid>`.
    pub fn contents(&self) -> (r: Vec<u8>)
        ensures
            r@ == encode_utf8(self.user@) + seq![0x40u8] + encode_utf8(self.host@) + seq![0x3au8] + decimal(self.pid as nat),
    {
        let mut out: Vec<u8> = Vec::new();
        append_bytes(&mut out, self.user.as_str().as_bytes());
        out.push(0x40);
        append_bytes(&mut out, self.host.as_str().as_bytes());
        out.push(0x3a);
        let digits = decimal_bytes(self.pid);
        append_bytes(&mut out, digits.as_slice());
        assert(out@ =~= encode_utf8(self.user@) + seq![0x40u8] + encode_utf8(self.host@) + seq![0x3au8] + decimal(self.pid as nat));
        out
    }
}

/// Index of the last byte `b` in `p`.
pub open spec fn last_byte(p: Seq<u8>, b: u8) -> Option<nat>
    decreases p.len(),
{
    if p.len() == 0 {
        None
    } else if p.last() == b {
        Some((p.len() - 1) as nat)
    } else {
        last_byte(p.drop_last(), b)
    }
}

/// The bytes `cfg`.
pub open spec fn cfg_word() -> Seq<u8> {
    seq![0x63u8, 0x66, 0x67]
}

/// The bytes `.plk`.
pub open spec fn plk_suffix() -> Seq<u8> {
    seq![0x2eu8, 0x70, 0x6c, 0x6b]
}

/// Where the extension's dot stands: the last dot of the final path
/// component that is not the component's first byte.
pub open spec fn ext_dot(p: Seq<u8>) -> Option<nat> {
    let start: nat = match last_byte(p, 0x2f) { Some(s) => s + 1, None => 0 };
    match last_byte(p, 0x2e) {
        Some(d) => if d > start { Some(d) } else { None },
        None => None,
    }
}

/// The lock file of database `p`: its extension replaced by `plk`, or by
/// `cfg.plk` where it was `cfg`; `.plk` appended where it has none.
pub open spec fn lock_path(p: Seq<u8>) -> Seq<u8> {
    match ext_dot(p) {
        Some(d) => if p.subrange((d + 1) as int, p.len() as int) == cfg_word() {
            p.subrange(0, d as int) + seq![0x2eu8] + cfg_word() + plk_suffix()
        } else {
            p.subrange(0, d as int) + plk_suffix()
        },
        None => p + plk_suffix(),
    }
}

/// Index of the last byte `b` in `p`.
fn find_last(p: &[u8], b: u8) -> (r: Option<usize>)
    ensures
        match r {
            Some(i) => last_byte(p@, b) == Some(i as nat),
            None => last_byte(p@, b) is None,
        },
        r matches Some(i) ==> i < p@.len(),
{
    proof { lemma_last_byte_bound(p@, b); }
    let mut last: Option<usize> = None;
    let mut i: usize = 0;
    while i < p.len()
        invariant
            0 <= i <= p@.len(),
            match last {
                Some(k) => last_byte(p@.subrange(0, i as int), b) == Some(k as nat),
                None => last_byte(p@.subrange(0, i as int), b) is None,
            },
        decreases p@.len() - i,
    {
        assert(p@.subrange(0, i + 1).drop_last() =~= p@.subrange(0, i as int));
        if p[i] == b {
            last = Some(i);
        }
        i = i + 1;
    }
    assert(p@.subrange(0, p@.len() as int) =~= p@);
    last
}

/// An advisory lock file, by path.
pub struct LockFile {
    path: Vec<u8>,
}

impl LockFile {
    /// The lock file that guards database `db_path`.
    pub fn for_database(db_path: &[u8]) -> (r: LockFile)
        ensures
            r.path_view() == lock_path(db_path@),
    {
        LockFile { path: lock_file_name(db_path) }
    }

    /// The path of the lock file.
    pub closed spec fn path_view(&self) -> Seq<u8> {
        self.path@
    }

    /// The path of the lock file.
    pub fn path(&self) -> (r: &[u8])
        ensures
            r@ == self.path_view(),
    {
        self.path.as_slice()
    }
}

/// The lock file path of database `p`, see [`lock_path`].
pub fn lock_file_name(p: &[u8]) -> (r: Vec<u8>)
    ensures
        r@ == lock_path(p@),
{
    let slash = find_last(p, 0x2f);
    let start: usize = match slash {
        Some(s) => {
            let n = p.len();
            assert(s < n);
            s + 1
        },
        None => 0,
    };
    proof {
        if last_byte(p@, 0x2f) is Some {
            lemma_last_byte_bound(p@, 0x2f);
        }
        lemma_last_byte_bound(p@, 0x2e);
    }
    let dot: Option<usize> = match find_last(p, 0x2e) {
        Some(d) => if d > start { Some(d) } else { None },
        None => None,
    };
    let mut out: Vec<u8>;
    match dot {
        Some(d) => {
            out = copy_range(p, 0, d);
            let n = p.len();
            let is_cfg = n - d == 4 && p[d + 1] == 0x63 && p[d + 2] == 0x66 && p[d + 3] == 0x67;
            proof {
                let ext = p@.subrange(d + 1, n as int);
                if ext == cfg_word() {
                    assert(ext[0] == 0x63 && ext[1] == 0x66 && ext[2] == 0x67);
                }
                if is_cfg {
                    assert(ext =~= cfg_word());
                }
            }
            if is_cfg {
                out.push(0x2e);
                out.push(0x63);
                out.push(0x66);
                out.push(0x67);
            }
            out.push(0x2e);
            out.push(0x70);
            out.push(0x6c);
            out.push(0x6b);
            proof {
                if is_cfg {
                    assert(out@ =~= p@.subrange(0, d as int) + seq![0x2eu8] + cfg_word() + plk_suffix());
                } else {
                    assert(out@ =~= p@.subrange(0, d as int) + plk_suffix());
                }
            }
        },
        None => {
            out = copy_range(p, 0, p.len());
            out.push(0x2e);
            out.push(0x70);
            out.push(0x6c);
            out.push(0x6b);
            assert(out@ =~= p@ + plk_suffix());
        },
    }
    out
}

proof fn lemma_last_byte_bound(p: Seq<u8>, b: u8)
    ensures
        last_byte(p, b) matches Some(i) ==> i < p.len() && p[i as int] == b,
    decreases p.len(),
{
    if p.len() > 0 && p.last() != b {
        lemma_last_byte_bound(p.drop_last(), b);
    }
}

} // verus!
