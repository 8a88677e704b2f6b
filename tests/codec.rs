use twofish::cipher::{BlockDecrypt, BlockDecryptMut, KeyInit, KeyIvInit};
use pwsafe_matrix::codec::{encode_file, CodecError, PwsafeKey, PwsafeReader, PwsafeWriter};
use pwsafe_matrix::fields::{decode_fields, encode_field, Field};

#[test]
fn roundtrip() {
    let key = PwsafeKey::new(b"password");

    const DUMMY_FIELD: u8 = 0x42;
    const DUMMY_DATA: &[u8] = b"dummy";

    let mut writer = PwsafeWriter::new(32, &key);
    writer.write_field(DUMMY_FIELD, DUMMY_DATA);
    let bytes = writer.finish();

    let mut reader = PwsafeReader::new(&bytes, &key).unwrap();
    let field = reader.read_field().unwrap();

    assert_eq!(field.ty, DUMMY_FIELD);
    assert_eq!(field.data, DUMMY_DATA);
    assert_eq!(reader.get_iter(), 32);
    assert!(reader.read_field().is_none());
}

#[test]
fn wrong_passphrase_is_reported() {
    let key = PwsafeKey::new(b"password");
    let mut writer = PwsafeWriter::new(8, &key);
    writer.write_field(0x06, b"secret");
    let bytes = writer.finish();

    let wrong = PwsafeKey::new(b"not-the-right-password");
    match PwsafeReader::new(&bytes, &wrong) {
        Err(e) => assert_eq!(e, CodecError::InvalidPassword),
        Ok(_) => panic!("opened with a wrong passphrase"),
    }
}

#[test]
fn bad_signature_is_invalid_tag() {
    let key = PwsafeKey::new(b"password");
    let mut writer = PwsafeWriter::new(1, &key);
    writer.write_field(0x01, &[7u8; 16]);
    let mut bytes = writer.finish();
    bytes[0] = b'X';
    assert_eq!(PwsafeReader::new(&bytes, &key).err(), Some(CodecError::InvalidTag));
    assert_eq!(PwsafeReader::new(b"PW", &key).err(), Some(CodecError::InvalidTag));
}

#[test]
fn short_file_is_truncated() {
    let key = PwsafeKey::new(b"password");
    let mut bytes = b"PWS3".to_vec();
    bytes.extend_from_slice(&[0u8; 40]);
    assert_eq!(PwsafeReader::new(&bytes, &key).err(), Some(CodecError::Truncated));
}

#[test]
fn tampered_tag_is_mac_mismatch() {
    let key = PwsafeKey::new(b"password");
    let mut writer = PwsafeWriter::new(2, &key);
    writer.write_field(0x04, b"user");
    let mut bytes = writer.finish();
    let n = bytes.len();
    bytes[n - 1] ^= 0xff;
    assert_eq!(PwsafeReader::new(&bytes, &key).err(), Some(CodecError::MacMismatch));
}

#[test]
fn missing_end_marker_is_invalid_tag() {
    let key = PwsafeKey::new(b"password");
    let writer = PwsafeWriter::new(2, &key);
    let mut bytes = writer.finish();
    let n = bytes.len();
    bytes[n - 40] ^= 0x01;
    assert_eq!(PwsafeReader::new(&bytes, &key).err(), Some(CodecError::InvalidTag));
}

#[test]
fn long_fields_survive_the_container() {
    let key = PwsafeKey::new(b"pw");
    let long: Vec<u8> = (0u8..=200).collect();
    let fields = vec![
        Field::new(0x00, vec![0x0e, 0x03]),
        Field::new(0xff, vec![]),
        Field::new(0x05, long.clone()),
        Field::new(0x06, vec![]),
        Field::new(0x04, vec![1u8; 11]),
        Field::new(0x04, vec![2u8; 12]),
    ];
    let bytes = encode_file(5, &key, &fields).unwrap();
    let mut reader = PwsafeReader::new(&bytes, &key).unwrap();
    assert_eq!(reader.read_version(), Ok(0x030e));
    let mut got = vec![];
    while let Some(f) = reader.read_field() {
        got.push((f.ty, f.data));
    }
    assert_eq!(got.len(), 5);
    assert_eq!(got[1], (0x05, long));
    assert_eq!(got[2], (0x06, vec![]));
    assert_eq!(got[3], (0x04, vec![1u8; 11]));
    assert_eq!(got[4], (0x04, vec![2u8; 12]));
}

#[test]
fn framing_pads_to_whole_blocks() {
    let mut out = vec![];
    encode_field(&mut out, 0x06, b"abc", &[9u8; 16]);
    assert_eq!(out.len(), 16);
    assert_eq!(&out[..4], &[3, 0, 0, 0]);
    assert_eq!(out[4], 0x06);
    assert_eq!(&out[5..8], b"abc");
    assert_eq!(&out[8..], &[9u8; 8]);

    let mut long = vec![];
    encode_field(&mut long, 0x05, &[1u8; 12], &[0u8; 16]);
    assert_eq!(long.len(), 32);

    let fields = decode_fields(&[out.clone(), long].concat()).ok().unwrap();
    assert_eq!(fields.len(), 2);
    assert_eq!(fields[0].data, b"abc");
    assert_eq!(fields[1].data, vec![1u8; 12]);

    assert!(decode_fields(&out[..8]).is_err());
    let mut eof = b"PWS3-EOFPWS3-EOF".to_vec();
    let mut with_eof = out.clone();
    with_eof.append(&mut eof);
    assert_eq!(decode_fields(&with_eof).ok().unwrap().len(), 1);
}

#[test]
fn stretched_key_differs_by_salt_and_rounds() {
    let key = PwsafeKey::new(b"password");
    let a = key.hash(&[0u8; 32], 3);
    let b = key.hash(&[1u8; 32], 3);
    let c = key.hash(&[0u8; 32], 4);
    assert_eq!(a.len(), 32);
    assert_ne!(a, b);
    assert_ne!(a, c);
    assert_eq!(a, key.hash(&[0u8; 32], 3));
}

#[test]
fn container_decrypts_with_the_cipher_crates() {
    let key = PwsafeKey::new(b"password");
    let mut writer = PwsafeWriter::new(3, &key);
    writer.write_field(0x42, b"dummy");
    let bytes = writer.finish();
    let n = bytes.len();

    let stretched = key.hash(&bytes[4..36], 3);
    let cipher = twofish::Twofish::new_from_slice(&stretched).unwrap();
    let mut k = bytes[72..104].to_vec();
    for block in k.chunks_exact_mut(16) {
        cipher.decrypt_block(twofish::cipher::Block::<twofish::Twofish>::from_mut_slice(block));
    }
    assert_ne!(k, bytes[72..104].to_vec());

    let iv = &bytes[136..152];
    let mut body = bytes[152..n - 48].to_vec();
    assert_eq!(body.len(), 16);
    cbc::Decryptor::<twofish::Twofish>::new_from_slices(&k, iv)
        .unwrap()
        .decrypt_padded_mut::<block_padding::NoPadding>(&mut body)
        .unwrap();
    assert_eq!(&body[..5], &[5, 0, 0, 0, 0x42]);
    assert_eq!(&body[5..10], b"dummy");
    assert_ne!(body, bytes[152..n - 48].to_vec());
}

#[test]
fn reader_restarts_from_the_first_field() {
    let key = PwsafeKey::new(b"password");
    let mut writer = PwsafeWriter::new(1, &key);
    writer.write_field(0x00, &[0x0e, 0x03]);
    writer.write_field(0x06, b"x");
    let bytes = writer.finish();
    let mut reader = PwsafeReader::new(&bytes, &key).unwrap();
    assert_eq!(reader.len(), 2);
    assert_eq!(reader.read_field().unwrap().ty, 0x00);
    assert_eq!(reader.read_field().unwrap().ty, 0x06);
    assert!(reader.read_field().is_none());
    reader.restart();
    assert_eq!(reader.read_version(), Ok(0x030e));
    assert_eq!(reader.read_version(), Err(CodecError::InvalidHeader));
}
