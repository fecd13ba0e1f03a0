use mini_redis::cmd::{Command, Get};
use mini_redis::db::State;
use mini_redis::frame::{decode_frame, encode_frame, Frame, Progress};
use mini_redis::server::Backoff;

fn run(db: &mut State, request: &[u8], now: u64) -> Vec<u8> {
    let frame = match decode_frame(request) {
        Progress::Complete((f, _)) => f,
        other => panic!("{:?}", other),
    };
    let reply = match Command::from_frame(frame).unwrap() {
        Command::Get(g) => g.apply(db),
        Command::SetCmd(s) => s.apply(db, now).0,
        other => panic!("{:?}", other),
    };
    encode_frame(&reply)
}

#[test]
fn set_then_get() {
    let mut db = State::new();
    assert_eq!(run(&mut db, b"*3\r\n$3\r\nset\r\n$3\r\nfoo\r\n$3\r\nbar\r\n", 0), b"+OK\r\n".to_vec());
    assert_eq!(run(&mut db, b"*2\r\n$3\r\nget\r\n$3\r\nfoo\r\n", 0), b"$3\r\nbar\r\n".to_vec());
    assert_eq!(run(&mut db, b"*2\r\n$3\r\nget\r\n$7\r\nmissing\r\n", 0), b"$-1\r\n".to_vec());
}

#[test]
fn set_with_px_and_expiry() {
    let mut db = State::new();
    let set = b"*5\r\n$3\r\nset\r\n$3\r\nfoo\r\n$3\r\nbar\r\n$2\r\nPX\r\n$3\r\n100\r\n";
    assert_eq!(run(&mut db, set, 1_000), b"+OK\r\n".to_vec());
    assert_eq!(run(&mut db, b"*2\r\n$3\r\nget\r\n$3\r\nfoo\r\n", 1_000), b"$3\r\nbar\r\n".to_vec());
    assert_eq!(db.purge_expired_keys(1_099), Some(1_100));
    assert_eq!(db.get("foo"), Some(b"bar".to_vec()));
    assert_eq!(db.purge_expired_keys(1_250), None);
    assert_eq!(run(&mut db, b"*2\r\n$3\r\nget\r\n$3\r\nfoo\r\n", 1_250), b"$-1\r\n".to_vec());
}

#[test]
fn get_after_set_until_next_set() {
    let mut db = State::new();
    db.set("k".to_string(), b"v1".to_vec(), None, 0);
    db.set("other".to_string(), b"x".to_vec(), None, 0);
    assert_eq!(db.get("k"), Some(b"v1".to_vec()));
    db.set("k".to_string(), b"v2".to_vec(), None, 0);
    assert_eq!(db.get("k"), Some(b"v2".to_vec()));
    assert_eq!(Get::new("other").apply(&db), Frame::Bulk(b"x".to_vec()));
}

#[test]
fn replacing_a_ttl_entry_drops_its_old_deadline() {
    let mut db = State::new();
    assert!(db.set("k".to_string(), b"v".to_vec(), Some(10), 0));
    assert_eq!(db.next_expiration(), Some(10));
    assert!(!db.set("k".to_string(), b"w".to_vec(), None, 0));
    assert_eq!(db.next_expiration(), None);
    assert_eq!(db.purge_expired_keys(100), None);
    assert_eq!(db.get("k"), Some(b"w".to_vec()));
}

#[test]
fn sweeper_is_woken_only_for_an_earlier_deadline() {
    let mut db = State::new();
    assert!(db.set("a".to_string(), b"1".to_vec(), Some(50), 0));
    assert!(!db.set("b".to_string(), b"2".to_vec(), Some(80), 0));
    assert!(db.set("c".to_string(), b"3".to_vec(), Some(20), 0));
    assert!(!db.set("d".to_string(), b"4".to_vec(), Some(20), 0));
    assert_eq!(db.purge_expired_keys(20), Some(50));
    assert_eq!(db.get("c"), None);
    assert_eq!(db.get("d"), None);
    assert_eq!(db.get("a"), Some(b"1".to_vec()));
}

#[test]
fn deadline_saturates() {
    let mut db = State::new();
    db.set("k".to_string(), b"v".to_vec(), Some(u64::MAX), 5);
    assert_eq!(db.next_expiration(), Some(u64::MAX));
}

#[test]
fn shutdown_stops_the_purge() {
    let mut db = State::new();
    db.set("k".to_string(), b"v".to_vec(), Some(1), 0);
    assert!(!db.is_shutdown());
    db.shutdown_purge_task();
    assert!(db.is_shutdown());
    assert_eq!(db.purge_expired_keys(100), None);
    assert_eq!(db.get("k"), Some(b"v".to_vec()));
}

#[test]
fn accept_backoff_doubles_then_gives_up() {
    let mut b = Backoff::new();
    let mut waits = Vec::new();
    while let Some(w) = b.on_failure() {
        waits.push(w);
    }
    assert_eq!(waits, vec![1, 2, 4, 8, 16, 32, 64]);
}
