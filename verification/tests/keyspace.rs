use minikv::command::Command;
use minikv::rdb::{length_encode, serialize_kv};
use minikv::resp::{encode_reply, Reply};
use minikv::server::execute_command;
use minikv::store::{Config, Database};

fn empty_db() -> Database {
    Database::new(Config::new())
}

#[test]
fn test_ttl_zero_expires_immediately() {
    let mut db = empty_db();
    let now: u64 = 1_000_000;
    db.set_with_expire(&b"k".to_vec(), &b"v".to_vec(), 0, now);
    assert_eq!(db.get(&b"k".to_vec(), now), None);

    db.set_with_expire(&b"k".to_vec(), &b"v".to_vec(), 100_000, now);
    assert_eq!(db.get(&b"k".to_vec(), now), Some(b"v".to_vec()));
}

#[test]
fn test_expired_key_not_listed_after_get() {
    let mut db = empty_db();
    let now: u64 = 1_000;
    db.set(&b"stay".to_vec(), &b"1".to_vec());
    db.set_with_expire(&b"gone".to_vec(), &b"2".to_vec(), 50, now);
    let later = now + 50;
    assert_eq!(db.get(&b"gone".to_vec(), later), None);
    let listed = db.keys(&b"*".to_vec(), later);
    assert_eq!(listed, vec![b"stay".to_vec()]);
}

#[test]
fn test_keys_scan_removes_expired() {
    let mut db = empty_db();
    let now: u64 = 1_000;
    db.set_with_expire(&b"a".to_vec(), &b"1".to_vec(), 10, now);
    db.set(&b"b".to_vec(), &b"2".to_vec());
    let listed = db.keys(&b"*".to_vec(), now + 10);
    assert_eq!(listed, vec![b"b".to_vec()]);
    // the expired entry was removed in the scan's batch phase
    assert_eq!(db.get(&b"b".to_vec(), now + 10), Some(b"2".to_vec()));
    assert_eq!(db.get(&b"a".to_vec(), now + 10), None);
}

#[test]
fn test_overwrite_last_write_wins() {
    let mut db = empty_db();
    db.set(&b"k".to_vec(), &b"a".to_vec());
    db.set(&b"k".to_vec(), &b"b".to_vec());
    assert_eq!(db.get(&b"k".to_vec(), 0), Some(b"b".to_vec()));

    // a plain write clears the time-to-live set by an earlier write
    let now: u64 = 5_000;
    db.set_with_expire(&b"t".to_vec(), &b"x".to_vec(), 10, now);
    db.set(&b"t".to_vec(), &b"y".to_vec());
    assert_eq!(db.get(&b"t".to_vec(), now + 1_000_000), Some(b"y".to_vec()));
}

#[test]
fn test_keys_sorted_and_non_wildcard_empty() {
    let mut db = empty_db();
    db.set(&b"banana".to_vec(), &b"1".to_vec());
    db.set(&b"apple".to_vec(), &b"2".to_vec());
    db.set(&b"cherry".to_vec(), &b"3".to_vec());
    let listed = db.keys(&b"*".to_vec(), 0);
    assert_eq!(
        listed,
        vec![b"apple".to_vec(), b"banana".to_vec(), b"cherry".to_vec()]
    );
    // a non-wildcard pattern matches nothing, even if keys would match
    let listed = db.keys(&b"apple".to_vec(), 0);
    assert_eq!(listed, Vec::<Vec<u8>>::new());
}

#[test]
fn test_config_get() {
    let config = Config::from_parts(Some(b"/tmp/data".to_vec()), Some(b"dump.rdb".to_vec()));
    assert_eq!(config.get(&b"dir".to_vec()), Some(b"/tmp/data".to_vec()));
    assert_eq!(config.get(&b"DIR".to_vec()), Some(b"/tmp/data".to_vec()));
    assert_eq!(config.get(&b"dbfilename".to_vec()), Some(b"dump.rdb".to_vec()));
    assert_eq!(config.get(&b"other".to_vec()), None);
    assert_eq!(config.get_file_path(), Some(b"/tmp/data/dump.rdb".to_vec()));

    let unset = Config::new();
    assert_eq!(unset.get(&b"dir".to_vec()), None);
    assert_eq!(unset.get_file_path(), None);
}

#[test]
fn test_config_from_args() {
    let args = vec![
        b"server".to_vec(),
        b"--dir".to_vec(),
        b"/tmp/data".to_vec(),
        b"--DBFILENAME".to_vec(),
        b"dump.rdb".to_vec(),
    ];
    let mut config = Config::new();
    config.from_args(&args);
    assert_eq!(config.get(&b"dir".to_vec()), Some(b"/tmp/data".to_vec()));
    assert_eq!(config.get(&b"dbfilename".to_vec()), Some(b"dump.rdb".to_vec()));

    // a flag consumes the next argument, and a trailing flag clears
    let args = vec![b"--dir".to_vec(), b"--dbfilename".to_vec(), b"x".to_vec()];
    let mut config = Config::new();
    config.from_args(&args);
    assert_eq!(config.get(&b"dir".to_vec()), Some(b"--dbfilename".to_vec()));
    assert_eq!(config.get(&b"dbfilename".to_vec()), None);
    let args = vec![b"--dir".to_vec()];
    let mut config = Config::from_parts(Some(b"old".to_vec()), None);
    config.from_args(&args);
    assert_eq!(config.get(&b"dir".to_vec()), None);
}

#[test]
fn test_config_get_reply() {
    let config = Config::from_parts(Some(b"/tmp/data".to_vec()), None);
    let mut db = Database::new(config);
    let reply = execute_command(&mut db, Command::ConfigGet(b"dir".to_vec()), 0);
    assert_eq!(
        encode_reply(&reply),
        b"*2\r\n$3\r\ndir\r\n$9\r\n/tmp/data\r\n".to_vec()
    );
    // a setting never set gives the null reply
    let reply = execute_command(&mut db, Command::ConfigGet(b"dbfilename".to_vec()), 0);
    assert_eq!(encode_reply(&reply), b"$-1\r\n".to_vec());
}

#[test]
fn test_execute_command_replies() {
    let mut db = empty_db();
    let now: u64 = 100;
    let reply = execute_command(&mut db, Command::Ping, now);
    assert_eq!(encode_reply(&reply), b"+PONG\r\n".to_vec());
    let reply = execute_command(&mut db, Command::Echo(b"hey".to_vec()), now);
    assert_eq!(encode_reply(&reply), b"+hey\r\n".to_vec());
    let reply = execute_command(
        &mut db,
        Command::SetValue(b"k".to_vec(), b"v".to_vec(), None),
        now,
    );
    assert_eq!(encode_reply(&reply), b"+OK\r\n".to_vec());
    let reply = execute_command(&mut db, Command::Get(b"k".to_vec()), now);
    assert_eq!(encode_reply(&reply), b"+v\r\n".to_vec());
    let reply = execute_command(&mut db, Command::Get(b"missing".to_vec()), now);
    assert_eq!(encode_reply(&reply), b"$-1\r\n".to_vec());
    let reply = execute_command(&mut db, Command::Keys(b"*".to_vec()), now);
    assert_eq!(encode_reply(&reply), b"*1\r\n$1\r\nk\r\n".to_vec());
    let reply = execute_command(&mut db, Command::Unknown, now);
    assert_eq!(encode_reply(&reply), b"-ERR unknown command\r\n".to_vec());
}

#[test]
fn test_varint_forms() {
    assert_eq!(length_encode(&[0x2A]), Some((42, 1)));
    assert_eq!(length_encode(&[0x41, 0x00]), Some((256, 2)));
    assert_eq!(length_encode(&[0x42, 0xBC]), Some((700, 2)));
    assert_eq!(length_encode(&[0x80, 0x00, 0x01, 0x00, 0x00]), Some((65536, 5)));
    assert_eq!(length_encode(&[0xC0]), None);
    assert_eq!(length_encode(&[]), None);
    // truncated wider forms
    assert_eq!(length_encode(&[0x41]), None);
    assert_eq!(length_encode(&[0x80, 0x00]), None);
}

#[test]
fn test_serialize_kv_records() {
    // plain record: type byte, then "foo" -> "bar"
    let buf = [0x00, 0x03, b'f', b'o', b'o', 0x03, b'b', b'a', b'r'];
    let (key, entry, consumed) = serialize_kv(&buf).unwrap();
    assert_eq!(key, b"foo".to_vec());
    assert_eq!(entry.value, b"bar".to_vec());
    assert_eq!(entry.expires_at, None);
    assert_eq!(consumed, 9);

    // record with an expiry prefix: 0xFC, timestamp 1000 little-endian,
    // type byte, then "k" -> "v"
    let buf = [
        0xFC, 0xE8, 0x03, 0x00, 0x00, 0x00, 0x00, 0x00, 0x00, 0x00, 0x01, b'k', 0x01, b'v',
    ];
    let (key, entry, consumed) = serialize_kv(&buf).unwrap();
    assert_eq!(key, b"k".to_vec());
    assert_eq!(entry.value, b"v".to_vec());
    assert_eq!(entry.expires_at, Some(1000));
    assert_eq!(consumed, 14);

    // truncated record
    assert!(serialize_kv(&[0x00, 0x03, b'f']).is_none());
    assert!(serialize_kv(&[]).is_none());
}

#[test]
fn test_snapshot_round_trip() {
    // a minimal image: some header bytes, the hash-table marker, two size
    // fields (two records, one with an expiry), one live record and one
    // record already expired at load time
    let mut buf: Vec<u8> = Vec::new();
    buf.extend_from_slice(b"REDIS0011");
    buf.push(0xFB);
    buf.push(0x02); // hash-table size: two records
    buf.push(0x01); // expire-table size
    // live record: "fresh" -> "keep", expires far in the future
    buf.push(0xFC);
    buf.extend_from_slice(&2_000_000u64.to_le_bytes());
    buf.push(0x00);
    buf.push(0x05);
    buf.extend_from_slice(b"fresh");
    buf.push(0x04);
    buf.extend_from_slice(b"keep");
    // expired record: "stale" -> "drop", expiry in the past
    buf.push(0xFC);
    buf.extend_from_slice(&500u64.to_le_bytes());
    buf.push(0x00);
    buf.push(0x05);
    buf.extend_from_slice(b"stale");
    buf.push(0x04);
    buf.extend_from_slice(b"drop");

    let now: u64 = 1_000_000;
    let mut db = Database::from_snapshot(Config::new(), &buf, now);
    assert_eq!(db.get(&b"fresh".to_vec(), now), Some(b"keep".to_vec()));
    assert_eq!(db.get(&b"stale".to_vec(), now), None);
    assert_eq!(db.keys(&b"*".to_vec(), now), vec![b"fresh".to_vec()]);
}

#[test]
fn test_snapshot_failures_yield_empty_store() {
    let now: u64 = 1_000;
    // no hash-table marker at all
    let mut db = Database::from_snapshot(Config::new(), b"REDIS0011", now);
    assert_eq!(db.keys(&b"*".to_vec(), now), Vec::<Vec<u8>>::new());
    // marker present but the records are truncated
    let buf = [0xFB, 0x02, 0x00, 0x00, 0x03, b'f'];
    let mut db = Database::from_snapshot(Config::new(), &buf, now);
    assert_eq!(db.keys(&b"*".to_vec(), now), Vec::<Vec<u8>>::new());
    // an unsupported length form aborts the load
    let buf = [0xFB, 0xC0, 0x00];
    let mut db = Database::from_snapshot(Config::new(), &buf, now);
    assert_eq!(db.keys(&b"*".to_vec(), now), Vec::<Vec<u8>>::new());
}

#[test]
fn test_distinct_writers_then_readers() {
    // writes to distinct keys land regardless of order, and each reader
    // sees its own write; either order of same-key writes leaves exactly
    // the later write's value
    let mut db1 = empty_db();
    db1.set(&b"w1".to_vec(), &b"a".to_vec());
    db1.set(&b"w2".to_vec(), &b"b".to_vec());
    let mut db2 = empty_db();
    db2.set(&b"w2".to_vec(), &b"b".to_vec());
    db2.set(&b"w1".to_vec(), &b"a".to_vec());
    for db in [&mut db1, &mut db2] {
        assert_eq!(db.get(&b"w1".to_vec(), 0), Some(b"a".to_vec()));
        assert_eq!(db.get(&b"w2".to_vec(), 0), Some(b"b".to_vec()));
    }

    let mut db = empty_db();
    db.set(&b"same".to_vec(), &b"first".to_vec());
    db.set(&b"same".to_vec(), &b"second".to_vec());
    assert_eq!(db.get(&b"same".to_vec(), 0), Some(b"second".to_vec()));
}
