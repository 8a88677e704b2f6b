//! The encrypted container of a database: a stretched passphrase unlocks two
//! wrapped keys, one for the CBC-encrypted body of framed fields and one for the
//! HMAC over the fields' data.
use vstd::prelude::*;
use crate::bytes::{append_bytes, bytes_eq, copy_range, le32, le32_bytes, push_le32, read_le32};
use crate::crypto::{
    cbc_dec_of, cbc_decrypt, cbc_enc_of, cbc_encrypt, hmac_sha256, hmac_sha256_of, random_bytes,
    sha256, sha256_of, twofish_dec_of, twofish_decrypt_block, twofish_enc_of,
    twofish_encrypt_block,
};
use crate::fields::{
    decode_fields, encode_field, eof_mark, eof_mark_bytes, fields_view, frame, pad_len,
    parse_fields, parse_from, span, Field, FieldV,
};
use crate::bytes::lemma_le32_round_trip;

verus! {

/// Why a database could not be opened.
#[derive(Debug, PartialEq, Eq)]
pub enum CodecError {
    /// The file does not carry the container's signature or layout.
    InvalidTag,
    /// The passphrase does not match the file.
    InvalidPassword,
    /// The leading version field is missing or malformed.
    InvalidHeader,
    /// The file, or a field inside it, ends early.
    Truncated,
    /// The authentication tag does not match the fields.
    MacMismatch,
}

/// Offset of the encrypted body: signature, salt, iterations, key check,
/// two wrapped keys and the initial vector come first.
pub const BODY_START: usize = 152;

/// The passphrase from which keys are stretched. It, like the decrypted
/// fields, is held in ordinary heap memory: nothing here pins or zeroes it.
pub struct PwsafeKey {
    password: Vec<u8>,
}

/// The key stretched from a passphrase and salt: one digest of both, then
/// `n` further digests.
pub open spec fn stretched(pw: Seq<u8>, salt: Seq<u8>, n: nat) -> Seq<u8>
    decreases n,
{
    if n == 0 {
        sha256_of(pw + salt)
    } else {
        sha256_of(stretched(pw, salt, (n - 1) as nat))
    }
}

impl PwsafeKey {
    /// The passphrase.
    pub closed spec fn secret(&self) -> Seq<u8> {
        self.password@
    }

    /// A key for the given passphrase.
    pub fn new(password: &[u8]) -> (r: PwsafeKey)
        ensures
            r.secret() == password@,
    {
        PwsafeKey { password: copy_range(password, 0, password.len()) }
    }

    /// Stretches the passphrase with `salt` over `iter` rounds.
    pub fn hash(&self, salt: &[u8], iter: u32) -> (r: Vec<u8>)
        ensures
            r@ == stretched(self.secret(), salt@, iter as nat),
            r@.len() == 32,
    {
        let mut input = copy_range(self.password.as_slice(), 0, self.password.len());
        append_bytes(&mut input, salt);
        assert(self.password@.subrange(0, self.password@.len() as int) =~= self.password@);
        let mut h = sha256(input.as_slice());
        let mut i: u32 = 0;
        while i < iter
            invariant
                i <= iter,
                h@ == stretched(self.secret(), salt@, i as nat),
                h@.len() == 32,
            decreases iter - i,
        {
            h = sha256(h.as_slice());
            i = i + 1;
        }
        h
    }
}

/// The container's signature `PWS3`.
pub open spec fn tag() -> Seq<u8> {
    seq![0x50u8, 0x57, 0x53, 0x33]
}

pub open spec fn salt_of(b: Seq<u8>) -> Seq<u8> {
    b.subrange(4, 36)
}

pub open spec fn iter_of(b: Seq<u8>) -> nat {
    le32(b.subrange(36, 40))
}

pub open spec fn check_of(b: Seq<u8>) -> Seq<u8> {
    b.subrange(40, 72)
}

pub open spec fn wrapped_k_of(b: Seq<u8>) -> Seq<u8> {
    b.subrange(72, 104)
}

pub open spec fn wrapped_l_of(b: Seq<u8>) -> Seq<u8> {
    b.subrange(104, 136)
}

pub open spec fn iv_of(b: Seq<u8>) -> Seq<u8> {
    b.subrange(136, 152)
}

/// A 32-byte key unwrapped block by block under the stretched key.
pub open spec fn unwrap_key(sk: Seq<u8>, w: Seq<u8>) -> Seq<u8> {
    twofish_dec_of(sk, w.subrange(0, 16)) + twofish_dec_of(sk, w.subrange(16, 32))
}

/// A 32-byte key wrapped block by block under the stretched key.
pub open spec fn wrap_key(sk: Seq<u8>, k: Seq<u8>) -> Seq<u8> {
    twofish_enc_of(sk, k.subrange(0, 16)) + twofish_enc_of(sk, k.subrange(16, 32))
}

/// The data of all fields, one after the other: what the tag authenticates.
pub open spec fn data_concat(fs: Seq<FieldV>) -> Seq<u8>
    decreases fs.len(),
{
    if fs.len() == 0 {
        Seq::empty()
    } else {
        data_concat(fs.drop_last()) + fs.last().1
    }
}

/// Whether the passphrase fails the container's key check.
pub open spec fn wrong_passphrase(b: Seq<u8>, pw: Seq<u8>) -> bool {
    sha256_of(stretched(pw, salt_of(b), iter_of(b))) != check_of(b)
}

/// What opening the bytes `b` with passphrase `pw` gives: the iteration count
/// and the fields, or the first error met.
pub open spec fn decode_file(b: Seq<u8>, pw: Seq<u8>) -> Result<(nat, Seq<FieldV>), CodecError> {
    let n = b.len();
    if n < 4 || b.subrange(0, 4) != tag() {
        Err(CodecError::InvalidTag)
    } else if n < BODY_START {
        Err(CodecError::Truncated)
    } else if wrong_passphrase(b, pw) {
        Err(CodecError::InvalidPassword)
    } else if n < BODY_START + 48 || (n - BODY_START - 48) % 16 != 0
        || b.subrange(n - 48, n - 32) != eof_mark() {
        Err(CodecError::InvalidTag)
    } else {
        let sk = stretched(pw, salt_of(b), iter_of(b));
        let plain = cbc_dec_of(unwrap_key(sk, wrapped_k_of(b)), iv_of(b), b.subrange(BODY_START as int, n - 48));
        match parse_fields(plain) {
            None => Err(CodecError::Truncated),
            Some(fs) => if hmac_sha256_of(unwrap_key(sk, wrapped_l_of(b)), data_concat(fs)) != b.subrange(n - 32, n as int) {
                Err(CodecError::MacMismatch)
            } else {
                Ok((iter_of(b), fs))
            },
        }
    }
}

/// A wrong passphrase is reported as such, and nothing decrypted comes back.
pub proof fn lemma_wrong_passphrase(b: Seq<u8>, pw: Seq<u8>)
    requires
        b.len() >= BODY_START,
        b.subrange(0, 4) == tag(),
        wrong_passphrase(b, pw),
    ensures
        decode_file(b, pw) == Err::<(nat, Seq<FieldV>), CodecError>(CodecError::InvalidPassword),
{
}

/// Unwraps a 32-byte key under the stretched key.
fn unwrap(sk: &[u8], w: &[u8]) -> (r: Vec<u8>)
    requires
        sk@.len() == 32,
        w@.len() == 32,
    ensures
        r@ == unwrap_key(sk@, w@),
        r@.len() == 32,
{
    let lo = copy_range(w, 0, 16);
    let hi = copy_range(w, 16, 32);
    let mut r = twofish_decrypt_block(sk, lo.as_slice());
    let r2 = twofish_decrypt_block(sk, hi.as_slice());
    append_bytes(&mut r, r2.as_slice());
    r
}

/// Wraps a 32-byte key under the stretched key.
fn wrap(sk: &[u8], k: &[u8]) -> (r: Vec<u8>)
    requires
        sk@.len() == 32,
        k@.len() == 32,
    ensures
        r@ == wrap_key(sk@, k@),
        r@.len() == 32,
{
    let lo = copy_range(k, 0, 16);
    let hi = copy_range(k, 16, 32);
    let mut r = twofish_encrypt_block(sk, lo.as_slice());
    let r2 = twofish_encrypt_block(sk, hi.as_slice());
    append_bytes(&mut r, r2.as_slice());
    r
}

/// The data of all fields, one after the other.
pub fn concat_data(fs: &Vec<Field>) -> (r: Vec<u8>)
    ensures
        r@ == data_concat(fields_view(fs@)),
{
    let mut r: Vec<u8> = Vec::new();
    let mut i: usize = 0;
    while i < fs.len()
        invariant
            0 <= i <= fs@.len(),
            r@ == data_concat(fields_view(fs@.subrange(0, i as int))),
        decreases fs@.len() - i,
    {
        append_bytes(&mut r, fs[i].data.as_slice());
        assert(fields_view(fs@.subrange(0, i + 1)).drop_last() =~= fields_view(fs@.subrange(0, i as int)));
        i = i + 1;
    }
    assert(fs@.subrange(0, fs@.len() as int) =~= fs@);
    r
}

/// A decrypted database: its fields and a read position.
pub struct PwsafeReader {
    fields: Vec<Field>,
    pos: usize,
    iter: u32,
}

/// Mathematical value of a reader.
pub struct ReaderV {
    pub fields: Seq<FieldV>,
    pub pos: nat,
    pub iter: u32,
}

impl View for PwsafeReader {
    type V = ReaderV;

    closed spec fn view(&self) -> ReaderV {
        ReaderV { fields: fields_view(self.fields@), pos: self.pos as nat, iter: self.iter }
    }
}

impl PwsafeReader {
    /// The read position lies within the fields.
    pub closed spec fn wf(&self) -> bool {
        self.pos <= self.fields@.len()
    }

    /// Opens and decrypts a database file's bytes.
    pub fn new(b: &[u8], key: &PwsafeKey) -> (r: Result<PwsafeReader, CodecError>)
        ensures
            match r {
                Ok(rd) => rd.wf() && rd@.pos == 0
                    && decode_file(b@, key.secret()) == Ok::<(nat, Seq<FieldV>), CodecError>((rd@.iter as nat, rd@.fields)),
                Err(e) => decode_file(b@, key.secret()) == Err::<(nat, Seq<FieldV>), CodecError>(e),
            },
    {
        let n = b.len();
        if n < 4 || b[0] != 0x50 || b[1] != 0x57 || b[2] != 0x53 || b[3] != 0x33 {
            proof {
                if n >= 4 {
                    assert(b@.subrange(0, 4) != tag()) by {
                        assert(b@.subrange(0, 4)[0] == b@[0]);
                        assert(b@.subrange(0, 4)[1] == b@[1]);
                        assert(b@.subrange(0, 4)[2] == b@[2]);
                        assert(b@.subrange(0, 4)[3] == b@[3]);
                    }
                }
            }
            return Err(CodecError::InvalidTag);
        }
        assert(b@.subrange(0, 4) =~= tag());
        if n < BODY_START {
            return Err(CodecError::Truncated);
        }
        let salt = copy_range(b, 4, 36);
        let iter = read_le32(b, 36);
        let check = copy_range(b, 40, 72);
        let sk = key.hash(salt.as_slice(), iter);
        let h = sha256(sk.as_slice());
        if !bytes_eq(h.as_slice(), check.as_slice()) {
            return Err(CodecError::InvalidPassword);
        }
        let eof = eof_mark_bytes();
        if n < BODY_START + 48 || (n - BODY_START - 48) % 16 != 0 {
            return Err(CodecError::InvalidTag);
        }
        let tail = copy_range(b, n - 48, n - 32);
        if !bytes_eq(tail.as_slice(), eof.as_slice()) {
            return Err(CodecError::InvalidTag);
        }
        let wk = copy_range(b, 72, 104);
        let wl = copy_range(b, 104, 136);
        let iv = copy_range(b, 136, 152);
        let k = unwrap(sk.as_slice(), wk.as_slice());
        let l = unwrap(sk.as_slice(), wl.as_slice());
        let body = copy_range(b, BODY_START, n - 48);
        let plain = cbc_decrypt(k.as_slice(), iv.as_slice(), body.as_slice());
        let fields = match decode_fields(plain.as_slice()) {
            Ok(fs) => fs,
            Err(_) => {
                return Err(CodecError::Truncated);
            },
        };
        let msg = concat_data(&fields);
        let mac = hmac_sha256(l.as_slice(), msg.as_slice());
        let expected = copy_range(b, n - 32, n);
        if !bytes_eq(mac.as_slice(), expected.as_slice()) {
            return Err(CodecError::MacMismatch);
        }
        Ok(PwsafeReader { fields, pos: 0, iter })
    }

    /// Moves the read position back to the first field.
    pub fn restart(&mut self)
        requires
            old(self).wf(),
        ensures
            final(self).wf(),
            final(self)@ == (ReaderV { pos: 0, ..old(self)@ }),
    {
        self.pos = 0;
    }

    /// The iteration count of the key stretching.
    pub fn get_iter(&self) -> (r: u32)
        ensures
            r == self@.iter,
    {
        self.iter
    }

    /// Number of fields held.
    pub fn len(&self) -> (r: usize)
        ensures
            r == self@.fields.len(),
    {
        self.fields.len()
    }

    /// Reads the next field, or `None` after the last one.
    pub fn read_field(&mut self) -> (r: Option<Field>)
        requires
            old(self).wf(),
        ensures
            final(self).wf(),
            final(self)@.fields == old(self)@.fields,
            final(self)@.iter == old(self)@.iter,
            old(self)@.pos < old(self)@.fields.len() ==> r == Some(r.unwrap()) && r.unwrap()@ == old(self)@.fields[old(self)@.pos as int]
                && final(self)@.pos == old(self)@.pos + 1,
            old(self)@.pos >= old(self)@.fields.len() ==> r is None && final(self)@.pos == old(self)@.pos,
    {
        if self.pos < self.fields.len() {
            let f = self.fields[self.pos].duplicate();
            self.pos = self.pos + 1;
            Some(f)
        } else {
            None
        }
    }

    /// Reads the leading version field: type 0x00 holding a little-endian `u16`.
    pub fn read_version(&mut self) -> (r: Result<u16, CodecError>)
        requires
            old(self).wf(),
        ensures
            final(self).wf(),
            final(self)@.fields == old(self)@.fields,
            match r {
                Ok(v) => old(self)@.pos < old(self)@.fields.len()
                    && old(self)@.fields[old(self)@.pos as int].0 == 0
                    && old(self)@.fields[old(self)@.pos as int].1.len() == 2
                    && v == old(self)@.fields[old(self)@.pos as int].1[0] + 256 * old(self)@.fields[old(self)@.pos as int].1[1],
                Err(e) => e == CodecError::InvalidHeader && !(old(self)@.pos < old(self)@.fields.len()
                    && old(self)@.fields[old(self)@.pos as int].0 == 0
                    && old(self)@.fields[old(self)@.pos as int].1.len() == 2),
            },
    {
        match self.read_field() {
            Some(f) => {
                if f.ty == 0 && f.data.len() == 2 {
                    Ok(f.data[0] as u16 + 256 * (f.data[1] as u16))
                } else {
                    Err(CodecError::InvalidHeader)
                }
            },
            None => Err(CodecError::InvalidHeader),
        }
    }
}

/// Writer of a new encrypted database: fresh salt, keys and initial vector.
pub struct PwsafeWriter {
    header: Vec<u8>,
    buffer: Vec<u8>,
    mac_data: Vec<u8>,
    k: Vec<u8>,
    l: Vec<u8>,
    iv: Vec<u8>,
}

/// Mathematical value of a writer.
pub struct WriterV {
    /// Everything before the encrypted body.
    pub header: Seq<u8>,
    /// The framed fields, not yet encrypted.
    pub buffer: Seq<u8>,
    /// The data of the fields written, which the tag authenticates.
    pub mac_data: Seq<u8>,
    pub k: Seq<u8>,
    pub l: Seq<u8>,
    pub iv: Seq<u8>,
}

impl View for PwsafeWriter {
    type V = WriterV;

    closed spec fn view(&self) -> WriterV {
        WriterV {
            header: self.header@,
            buffer: self.buffer@,
            mac_data: self.mac_data@,
            k: self.k@,
            l: self.l@,
            iv: self.iv@,
        }
    }
}

/// The bytes before the body of a container, given its random parts.
pub open spec fn header_bytes(pw: Seq<u8>, salt: Seq<u8>, iter: u32, k: Seq<u8>, l: Seq<u8>, iv: Seq<u8>) -> Seq<u8> {
    let sk = stretched(pw, salt, iter as nat);
    tag() + salt + le32_bytes(iter) + sha256_of(sk) + wrap_key(sk, k) + wrap_key(sk, l) + iv
}

impl PwsafeWriter {
    /// Key and block sizes hold and the body is made of whole blocks.
    pub closed spec fn wf(&self) -> bool {
        &&& self.k@.len() == 32
        &&& self.l@.len() == 32
        &&& self.iv@.len() == 16
        &&& self.buffer@.len() % 16 == 0
    }

    /// Starts a container under `key`, stretched over `iter` rounds.
    pub fn new(iter: u32, key: &PwsafeKey) -> (r: PwsafeWriter)
        ensures
            r.wf(),
            r@.header.len() == BODY_START,
            r@.k.len() == 32,
            r@.l.len() == 32,
            r@.iv.len() == 16,
            r@.buffer.len() == 0,
            r@.mac_data.len() == 0,
            exists|salt: Seq<u8>| salt.len() == 32
                && #[trigger] header_bytes(key.secret(), salt, iter, r@.k, r@.l, r@.iv) == r@.header,
    {
        let salt = random_bytes(32);
        let k = random_bytes(32);
        let l = random_bytes(32);
        let iv = random_bytes(16);
        let sk = key.hash(salt.as_slice(), iter);
        let mut header: Vec<u8> = vec![0x50u8, 0x57, 0x53, 0x33];
        append_bytes(&mut header, salt.as_slice());
        push_le32(&mut header, iter);
        let check = sha256(sk.as_slice());
        append_bytes(&mut header, check.as_slice());
        let wk = wrap(sk.as_slice(), k.as_slice());
        append_bytes(&mut header, wk.as_slice());
        let wl = wrap(sk.as_slice(), l.as_slice());
        append_bytes(&mut header, wl.as_slice());
        append_bytes(&mut header, iv.as_slice());
        assert(header@ =~= header_bytes(key.secret(), salt@, iter, k@, l@, iv@));
        let r = PwsafeWriter { header, buffer: Vec::new(), mac_data: Vec::new(), k, l, iv };
        assert(header_bytes(key.secret(), salt@, iter, r@.k, r@.l, r@.iv) == r@.header);
        r
    }

    /// Adds one field.
    pub fn write_field(&mut self, ty: u8, data: &[u8])
        requires
            old(self).wf(),
            data@.len() <= u32::MAX,
        ensures
            final(self).wf(),
            final(self)@.header == old(self)@.header,
            final(self)@.k == old(self)@.k,
            final(self)@.l == old(self)@.l,
            final(self)@.iv == old(self)@.iv,
            final(self)@.mac_data == old(self)@.mac_data + data@,
            exists|pad: Seq<u8>| pad.len() == pad_len(data@.len())
                && final(self)@.buffer == old(self)@.buffer + #[trigger] frame(ty, data@, pad),
    {
        let pad = random_bytes(16);
        proof {
            let len = data@.len();
            assert(pad_len(len) <= 16);
        }
        encode_field(&mut self.buffer, ty, data, pad.as_slice());
        append_bytes(&mut self.mac_data, data);
        proof {
            let len = data@.len();
            let p = pad@.subrange(0, pad_len(len) as int);
            assert(frame(ty, data@, p).len() == 5 + len + pad_len(len));
            assert((5 + len + pad_len(len)) % 16 == 0);
        }
    }

    /// The complete file: header, encrypted body, end marker and tag.
    pub fn finish(&self) -> (r: Vec<u8>)
        requires
            self.wf(),
        ensures
            r@ == self@.header + cbc_enc_of(self@.k, self@.iv, self@.buffer) + eof_mark()
                + hmac_sha256_of(self@.l, self@.mac_data),
    {
        let mut out = copy_range(self.header.as_slice(), 0, self.header.len());
        let body = cbc_encrypt(self.k.as_slice(), self.iv.as_slice(), self.buffer.as_slice());
        append_bytes(&mut out, body.as_slice());
        let eof = eof_mark_bytes();
        append_bytes(&mut out, eof.as_slice());
        let mac = hmac_sha256(self.l.as_slice(), self.mac_data.as_slice());
        append_bytes(&mut out, mac.as_slice());
        assert(self.header@.subrange(0, self.header@.len() as int) =~= self.header@);
        out
    }
}

/// Fields framed one after the other, field `i` followed by filler `pads[i]`.
pub open spec fn framed(fs: Seq<FieldV>, pads: Seq<Seq<u8>>) -> Seq<u8>
    decreases fs.len(),
{
    if fs.len() == 0 || pads.len() != fs.len() {
        Seq::empty()
    } else {
        framed(fs.drop_last(), pads.drop_last()) + frame(fs.last().0, fs.last().1, pads.last())
    }
}

/// Each filler has the length its field's framing needs.
pub open spec fn pads_fit(fs: Seq<FieldV>, pads: Seq<Seq<u8>>) -> bool {
    pads.len() == fs.len() && forall|i: int| 0 <= i < fs.len() ==> (#[trigger] pads[i]).len() == pad_len(fs[i].1.len())
}

/// Every field's data fits the 32-bit length of its framing.
pub open spec fn fields_fit(fs: Seq<FieldV>) -> bool {
    forall|i: int| 0 <= i < fs.len() ==> (#[trigger] fs[i]).1.len() <= u32::MAX
}

/// Whether `b` is a container of the fields `fs` under passphrase `pw`, for some
/// salt, keys, initial vector and filler.
pub open spec fn is_container_of(b: Seq<u8>, pw: Seq<u8>, iter: u32, fs: Seq<FieldV>) -> bool {
    exists|salt: Seq<u8>, k: Seq<u8>, l: Seq<u8>, iv: Seq<u8>, pads: Seq<Seq<u8>>|
        #![trigger header_bytes(pw, salt, iter, k, l, iv), cbc_enc_of(k, iv, framed(fs, pads))]
        salt.len() == 32 && pads_fit(fs, pads) && header_bytes(pw, salt, iter, k, l, iv) + cbc_enc_of(k, iv, framed(fs, pads))
            + eof_mark() + hmac_sha256_of(l, data_concat(fs)) == b
}

/// Why fields could not be written.
#[derive(Debug, PartialEq, Eq)]
pub enum EncodeError {
    /// A field holds more data than a 32-bit length can state.
    FieldTooLong,
}

/// Encrypts `fields` into a new container under `key`.
pub fn encode_file(iter: u32, key: &PwsafeKey, fields: &Vec<Field>) -> (r: Result<Vec<u8>, EncodeError>)
    ensures
        match r {
            Ok(b) => is_container_of(b@, key.secret(), iter, fields_view(fields@)),
            Err(_) => !fields_fit(fields_view(fields@)),
        },
{
    let ghost fv = fields_view(fields@);
    let mut w = PwsafeWriter::new(iter, key);
    let ghost salt = choose|salt: Seq<u8>| salt.len() == 32
        && #[trigger] header_bytes(key.secret(), salt, iter, w@.k, w@.l, w@.iv) == w@.header;
    let ghost w0 = w@;
    let ghost mut pads: Seq<Seq<u8>> = Seq::empty();
    let mut i: usize = 0;
    assert(fv.subrange(0, 0) =~= Seq::<FieldV>::empty());
    while i < fields.len()
        invariant
            fv == fields_view(fields@),
            0 <= i <= fields@.len(),
            w.wf(),
            w@.header == w0.header,
            w@.k == w0.k,
            w@.l == w0.l,
            w@.iv == w0.iv,
            pads_fit(fv.subrange(0, i as int), pads),
            w@.buffer == framed(fv.subrange(0, i as int), pads),
            w@.mac_data == data_concat(fv.subrange(0, i as int)),
            fields_fit(fv.subrange(0, i as int)),
        decreases fields@.len() - i,
    {
        let f = &fields[i];
        if f.data.len() > 0xffff_ffff {
            assert(fv[i as int].1.len() > u32::MAX);
            return Err(EncodeError::FieldTooLong);
        }
        let ghost before = w@;
        w.write_field(f.ty, f.data.as_slice());
        proof {
            let pad = choose|pad: Seq<u8>| pad.len() == pad_len(f.data@.len())
                && w@.buffer == before.buffer + #[trigger] frame(f.ty, f.data@, pad);
            let pre = fv.subrange(0, i + 1);
            assert(pre.drop_last() =~= fv.subrange(0, i as int));
            assert(pre.last() == fv[i as int]);
            let npads = pads.push(pad);
            assert(npads.drop_last() =~= pads);
            assert(pads_fit(pre, npads));
            assert(w@.buffer == framed(pre, npads));
            pads = npads;
            assert(fields_fit(pre));
        }
        i = i + 1;
    }
    assert(fv.subrange(0, fields@.len() as int) =~= fv);
    let b = w.finish();
    assert(header_bytes(key.secret(), salt, iter, w@.k, w@.l, w@.iv) + cbc_enc_of(w@.k, w@.iv, framed(fv, pads))
        + eof_mark() + hmac_sha256_of(w@.l, data_concat(fv)) == b@);
    Ok(b)
}

/// A field whose framing cannot be taken for the end marker: its length
/// fits the 32-bit length, and is not the marker's first four bytes read as one.
pub open spec fn frame_ok(f: FieldV) -> bool {
    f.1.len() <= u32::MAX && f.1.len() != 0x3353_5750
}

/// Parsing from a position past a prefix is parsing the rest.
proof fn lemma_parse_shift(x: Seq<u8>, y: Seq<u8>, i: nat)
    ensures
        parse_from(x + y, x.len() + i) == parse_from(y, i),
    decreases y.len() - i,
{
    let z = x + y;
    let pos: int = (x.len() + i) as int;
    let ii: int = i as int;
    if ii < y.len() && ii + 16 <= y.len() {
        assert(z.subrange(pos, pos + 16) =~= y.subrange(ii, ii + 16));
        assert(z.subrange(pos, pos + 4) =~= y.subrange(ii, ii + 4));
        let len: int = crate::bytes::le32(y.subrange(ii, ii + 4)) as int;
        let next: int = ii + span(len as nat);
        if next <= y.len() {
            lemma_parse_shift(x, y, next as nat);
            assert(z[pos + 4] == y[ii + 4]);
            assert(z.subrange(pos + 5, pos + 5 + len) =~= y.subrange(ii + 5, ii + 5 + len));
        }
    }
}

/// One framed field followed by more bytes parses as that field, then the rest.
proof fn lemma_parse_frame(f: FieldV, pad: Seq<u8>, y: Seq<u8>)
    requires
        frame_ok(f),
        pad.len() == pad_len(f.1.len()),
    ensures
        parse_from(frame(f.0, f.1, pad) + y, 0) == match parse_from(y, 0) {
            Some(r) => Some(seq![f] + r),
            None => None::<Seq<FieldV>>,
        },
{
    let len: int = f.1.len() as int;
    let fr = frame(f.0, f.1, pad);
    let z = fr + y;
    assert(span(len as nat) >= len + 5 && span(len as nat) >= 16);
    assert(fr.len() == span(len as nat));
    lemma_le32_round_trip(len as u32);
    assert(z.subrange(0, 4) =~= crate::bytes::le32_bytes(len as u32));
    assert(crate::bytes::le32(z.subrange(0, 4)) == len);
    if z.subrange(0, 16) == eof_mark() {
        assert(z.subrange(0, 4) =~= eof_mark().subrange(0, 4));
        assert(eof_mark().subrange(0, 4) =~= seq![0x50u8, 0x57, 0x53, 0x33]);
        assert(false);
    }
    lemma_parse_shift(fr, y, 0);
    assert(z[4] == f.0);
    assert(z.subrange(5, 5 + len) =~= f.1);
    match parse_from(y, 0) {
        Some(r) => {
            assert(seq![(z[4], z.subrange(5, 5 + len))] + r == seq![f] + r);
        },
        None => {},
    }
}

proof fn lemma_parse_framed_then(fs: Seq<FieldV>, pads: Seq<Seq<u8>>, y: Seq<u8>)
    requires
        pads_fit(fs, pads),
        forall|i: int| 0 <= i < fs.len() ==> frame_ok(#[trigger] fs[i]),
    ensures
        parse_from(framed(fs, pads) + y, 0) == match parse_from(y, 0) {
            Some(r) => Some(fs + r),
            None => None::<Seq<FieldV>>,
        },
    decreases fs.len(),
{
    if fs.len() == 0 {
        assert(framed(fs, pads) + y =~= y);
        match parse_from(y, 0) {
            Some(r) => { assert(fs + r =~= r); },
            None => {},
        }
    } else {
        let pre = fs.drop_last();
        let pp = pads.drop_last();
        let last = fs.last();
        let fr = frame(last.0, last.1, pads.last());
        assert(pads_fit(pre, pp));
        assert(frame_ok(fs[fs.len() - 1]));
        assert(pads[pads.len() - 1].len() == pad_len(fs[fs.len() - 1].1.len()));
        lemma_parse_frame(last, pads.last(), y);
        lemma_parse_framed_then(pre, pp, fr + y);
        assert(framed(fs, pads) + y =~= framed(pre, pp) + (fr + y));
        match parse_from(y, 0) {
            Some(r) => { assert(pre + (seq![last] + r) =~= fs + r); },
            None => {},
        }
    }
}

/// Fields framed one after the other, each with the filler its framing
/// needs, parse back to exactly those fields.
pub proof fn lemma_decode_framed(fs: Seq<FieldV>, pads: Seq<Seq<u8>>)
    requires
        pads_fit(fs, pads),
        forall|i: int| 0 <= i < fs.len() ==> frame_ok(#[trigger] fs[i]),
    ensures
        parse_fields(framed(fs, pads)) == Some(fs),
{
    lemma_parse_framed_then(fs, pads, Seq::empty());
    assert(framed(fs, pads) + Seq::<u8>::empty() =~= framed(fs, pads));
    assert(fs + Seq::<FieldV>::empty() =~= fs);
}

} // verus!
