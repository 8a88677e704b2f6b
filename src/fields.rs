//! Framing of typed fields inside the decrypted body of a database: each field
//! is a little-endian length, a type byte and the data, padded with filler up
//! to the next 16-byte block.
use vstd::prelude::*;
use crate::bytes::{append_bytes, bytes_eq, copy_range, le32, le32_bytes, push_le32, read_le32};

verus! {

/// Type code of a record's identifier field.
pub const FIELD_UUID: u8 = 0x01;
/// Type code of a record's notes field.
pub const FIELD_NOTES: u8 = 0x05;
/// Type code of a record's password field.
pub const FIELD_PASSWORD: u8 = 0x06;
/// Type code that ends the header and each record.
pub const FIELD_END: u8 = 0xff;

/// One typed field of a database.
pub struct Field {
    pub ty: u8,
    pub data: Vec<u8>,
}

/// Mathematical value of a field: its type and data.
pub type FieldV = (u8, Seq<u8>);

impl View for Field {
    type V = FieldV;

    open spec fn view(&self) -> FieldV {
        (self.ty, self.data@)
    }
}

/// The values of a sequence of fields.
pub open spec fn fields_view(v: Seq<Field>) -> Seq<FieldV> {
    v.map_values(|f: Field| f@)
}

impl Field {
    /// Builds a field from its type and data.
    pub fn new(ty: u8, data: Vec<u8>) -> (r: Field)
        ensures
            r@ == (ty, data@),
    {
        Field { ty, data }
    }

    /// Copies the field.
    pub fn duplicate(&self) -> (r: Field)
        ensures
            r@ == self@,
    {
        Field { ty: self.ty, data: copy_range(self.data.as_slice(), 0, self.data.len()) }
    }
}

/// The bytes of the marker block that ends the encrypted body.
pub open spec fn eof_mark() -> Seq<u8> {
    seq![0x50u8, 0x57, 0x53, 0x33, 0x2d, 0x45, 0x4f, 0x46, 0x50, 0x57, 0x53, 0x33, 0x2d, 0x45, 0x4f, 0x46]
}

/// The marker block `PWS3-EOFPWS3-EOF`.
pub fn eof_mark_bytes() -> (r: Vec<u8>)
    ensures
        r@ == eof_mark(),
{
    let r = vec![0x50u8, 0x57, 0x53, 0x33, 0x2d, 0x45, 0x4f, 0x46, 0x50, 0x57, 0x53, 0x33, 0x2d, 0x45, 0x4f, 0x46];
    assert(r@ =~= eof_mark());
    r
}

/// Bytes taken by a field with `len` bytes of data: length, type and data,
/// rounded up to whole blocks.
pub open spec fn span(len: nat) -> nat {
    ((len + 20) / 16) * 16
}

/// The fields framed in `plain` from `pos` on, up to its end or to a marker
/// block; `None` where a field runs past the end.
pub open spec fn parse_from(plain: Seq<u8>, pos: nat) -> Option<Seq<FieldV>>
    decreases plain.len() - pos,
{
    if pos >= plain.len() {
        Some(Seq::empty())
    } else if pos + 16 > plain.len() {
        None
    } else if plain.subrange(pos as int, (pos + 16) as int) == eof_mark() {
        Some(Seq::empty())
    } else {
        let len = le32(plain.subrange(pos as int, (pos + 4) as int));
        let next = pos + span(len);
        if next > plain.len() {
            None
        } else {
            match parse_from(plain, next) {
                Some(rest) => Some(
                    seq![(plain[(pos + 4) as int], plain.subrange((pos + 5) as int, pos + 5 + len as int))] + rest,
                ),
                None => None,
            }
        }
    }
}

/// The fields framed in a decrypted body.
pub open spec fn parse_fields(plain: Seq<u8>) -> Option<Seq<FieldV>> {
    parse_from(plain, 0)
}

/// Error of the field framing: a field claims more data than the body holds.
#[derive(Debug, PartialEq, Eq)]
pub enum FrameError {
    Truncated,
}

/// Reads every field framed in a decrypted body.
pub fn decode_fields(plain: &[u8]) -> (r: Result<Vec<Field>, FrameError>)
    ensures
        match r {
            Ok(v) => parse_fields(plain@) == Some(fields_view(v@)),
            Err(_) => parse_fields(plain@) is None,
        },
{
    let eof = eof_mark_bytes();
    let mut out: Vec<Field> = Vec::new();
    let mut pos: usize = 0;
    loop
        invariant
            eof@ == eof_mark(),
            pos <= plain@.len(),
            match parse_from(plain@, pos as nat) {
                Some(rest) => parse_fields(plain@) == Some(fields_view(out@) + rest),
                None => parse_fields(plain@) is None,
            },
        decreases plain@.len() - pos,
    {
        if pos >= plain.len() {
            assert(fields_view(out@) + Seq::<FieldV>::empty() =~= fields_view(out@));
            return Ok(out);
        }
        if plain.len() - pos < 16 {
            return Err(FrameError::Truncated);
        }
        let block = copy_range(plain, pos, pos + 16);
        if bytes_eq(block.as_slice(), eof.as_slice()) {
            assert(fields_view(out@) + Seq::<FieldV>::empty() =~= fields_view(out@));
            return Ok(out);
        }
        let len = read_le32(plain, pos);
        assert(plain@.subrange(pos as int, pos + 4) =~= plain@.subrange(pos as int, pos + 4));
        let total: u64 = (((len as u64) + 20) / 16) * 16;
        if total > (plain.len() - pos) as u64 {
            return Err(FrameError::Truncated);
        }
        let next: usize = pos + total as usize;
        let data = copy_range(plain, pos + 5, pos + 5 + len as usize);
        let f = Field { ty: plain[pos + 4], data };
        proof {
            let rest = parse_from(plain@, next as nat);
            if rest is Some {
                assert(fields_view(out@.push(f)) + rest.unwrap() =~= fields_view(out@) + (seq![f@] + rest.unwrap()));
            }
        }
        out.push(f);
        pos = next;
    }
}

/// The bytes of one framed field: length, type, data and filler.
pub open spec fn frame(ty: u8, data: Seq<u8>, pad: Seq<u8>) -> Seq<u8> {
    le32_bytes(data.len() as u32) + seq![ty] + data + pad
}

/// Number of filler bytes after a field with `len` bytes of data.
pub open spec fn pad_len(len: nat) -> nat {
    (span(len) - 5 - len) as nat
}

/// Appends one framed field to `dst`; `pad` supplies the filler bytes.
pub fn encode_field(dst: &mut Vec<u8>, ty: u8, data: &[u8], pad: &[u8])
    requires
        data@.len() <= u32::MAX,
        pad@.len() >= pad_len(data@.len()),
    ensures
        final(dst)@ == old(dst)@ + frame(ty, data@, pad@.subrange(0, pad_len(data@.len()) as int)),
{
    let len = data.len() as u32;
    let n: usize = ((((len as u64) + 20) / 16) * 16 - 5 - len as u64) as usize;
    push_le32(dst, len);
    dst.push(ty);
    append_bytes(dst, data);
    let filler = copy_range(pad, 0, n);
    append_bytes(dst, filler.as_slice());
    assert(final(dst)@ =~= old(dst)@ + frame(ty, data@, pad@.subrange(0, pad_len(data@.len()) as int)));
}

} // verus!
