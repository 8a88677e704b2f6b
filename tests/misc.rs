use pwsafe_matrix::lockfile::{lock_file_name, LockFile, UserInfo};
use pwsafe_matrix::sync::{sync_reached, Producer};
use pwsafe_matrix::timestamp::{AwaitTs, Timestamp};

fn ts(ms: u64, unique: &str) -> Option<Timestamp> {
    Some(Timestamp { ts_ms: ms, unique: unique.to_string() })
}

#[test]
fn lock_file_sits_beside_the_database() {
    assert_eq!(lock_file_name(b"/home/a/pw.psafe3"), b"/home/a/pw.plk".to_vec());
    assert_eq!(lock_file_name(b"/home/a/pw.cfg"), b"/home/a/pw.cfg.plk".to_vec());
    assert_eq!(lock_file_name(b"/home/a.b/pw"), b"/home/a.b/pw.plk".to_vec());
    assert_eq!(lock_file_name(b"/home/a/.hidden"), b"/home/a/.hidden.plk".to_vec());
    assert_eq!(LockFile::for_database(b"db.psafe3").path(), b"db.plk");
}

#[test]
fn lock_file_names_its_holder() {
    let info = UserInfo::new("alice".to_string(), "host".to_string(), 4021);
    assert_eq!(info.contents(), b"alice@host:4021".to_vec());
    let zero = UserInfo::new("u".to_string(), "h".to_string(), 0);
    assert_eq!(zero.contents(), b"u@h:0".to_vec());
    let max = UserInfo::new("u".to_string(), "h".to_string(), u64::MAX);
    assert_eq!(max.contents(), b"u@h:18446744073709551615".to_vec());
}

#[test]
fn producers_number_their_barriers() {
    let mut p = Producer::new(9);
    assert_eq!(p.id(), 9);
    assert_eq!(p.next_sync_point(), 0);
    assert_eq!(p.next_sync_point(), 1);
    assert!(sync_reached(1, Some(1)));
    assert!(sync_reached(0, Some(1)));
    assert!(!sync_reached(2, Some(1)));
    assert!(!sync_reached(0, None));
    assert!(sync_reached(u64::MAX, Some(0)));
    assert!(!sync_reached(0, Some(u64::MAX)));
    assert!(sync_reached(u64::MAX, Some(u64::MAX)));
}

#[test]
fn progress_order_is_partial() {
    let a = AwaitTs { local: 1, remote: ts(10, "$x") };
    let b = AwaitTs { local: 2, remote: ts(20, "$y") };
    let c = AwaitTs { local: 2, remote: ts(10, "$z") };
    assert!(a.lt(&b));
    assert!(!b.lt(&a));
    assert!(!a.lt(&a.duplicate()));
    assert!(!a.lt(&c));
    assert!(!c.lt(&a));
    let none = AwaitTs { local: 0, remote: None };
    assert!(none.lt(&a));
    assert!(!a.lt(&AwaitTs { local: 5, remote: None }));
    let same = Timestamp { ts_ms: 10, unique: "$x".to_string() };
    assert!(same.le(&Timestamp { ts_ms: 10, unique: "$x".to_string() }));
    assert!(!same.le(&Timestamp { ts_ms: 10, unique: "$w".to_string() }));
    assert!(same.le(&Timestamp { ts_ms: 11, unique: "$a".to_string() }));
}
