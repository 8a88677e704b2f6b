use pwsafe_matrix::credentials::{parse_peer_addr, search_by_uuid};
use pwsafe_matrix::fields::Field;

const INFO: &[u8] = &[
    0, 53, 101, 101, 97, 55, 55, 100, 56, 48, 99, 48, 97, 55, 52, 56, 98, 47, 117, 110, 105,
    116, 47, 109, 121, 45, 116, 105, 109, 101, 114, 45, 105, 115, 45, 97, 119, 101, 115, 111,
    109, 101, 46, 115, 101, 114, 118, 105, 99, 101, 47, 119, 97, 116, 0, 0, 0, 0, 0, 0, 0, 0,
    0, 0, 0, 0, 0, 0, 0, 0, 0, 0, 0, 0, 0, 0, 0, 0, 0, 0, 0, 0, 0, 0, 0, 0, 0, 0, 0, 0, 0, 0,
    0, 0, 0, 0, 0, 0, 0, 0, 0, 0, 0, 0, 0, 0, 0, 0,
];

#[test]
fn parse() {
    let info = parse_peer_addr(INFO).expect("Valid address information from systemd");
    assert_eq!(info.service, "my-timer-is-awesome.service");
    assert_eq!(info.credential, "wat");
}

#[test]
fn tests_parse() {
    let info = parse_peer_addr(INFO).expect("Valid address information from systemd");
    assert_eq!(info.service, "my-timer-is-awesome.service");
    assert_eq!(info.credential, "wat");
}

#[test]
fn parse_rejects_other_shapes() {
    assert!(parse_peer_addr(b"").is_none());
    assert!(parse_peer_addr(b"/abc/unit/x.service/cred").is_none());
    assert!(parse_peer_addr(b"\0abc/unit/x.service").is_none());
    assert!(parse_peer_addr(b"\0abc/unit/x.service/cred/more").is_none());
    assert!(parse_peer_addr(b"\0abc/unix/x.service/cred").is_none());
    assert!(parse_peer_addr(b"\0ab\xffc/unit/x.service/cred").is_none());
    assert!(parse_peer_addr(b"\0abc/unit/x.service/cr\xc3\xa9d").is_none());
    assert!(parse_peer_addr(b"\0abc/unit/\xff.service/cred").is_none());
    let ok = parse_peer_addr(b"\0abc/unit/x.service/cred").unwrap();
    assert_eq!(ok.service, "x.service");
    assert_eq!(ok.credential, "cred");
}

#[test]
fn search_finds_password_of_record() {
    let a = vec![0x11u8; 16];
    let b = vec![0x22u8; 16];
    let fields = vec![
        Field::new(0x01, a.clone()),
        Field::new(0x06, b"first".to_vec()),
        Field::new(0xff, vec![]),
        Field::new(0x01, b.clone()),
        Field::new(0x04, b"user".to_vec()),
        Field::new(0x06, b"test".to_vec()),
        Field::new(0xff, vec![]),
    ];
    assert_eq!(search_by_uuid(&fields, &b), Some(b"test".to_vec()));
    assert_eq!(search_by_uuid(&fields, &a), Some(b"first".to_vec()));
    assert_eq!(search_by_uuid(&fields, &[0x33u8; 16]), None);
}
