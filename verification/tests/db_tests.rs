use fluxdb::db::{Database, DbError, WriteCommand};
use fluxdb::event::{Document, Event};
use fluxdb::json::{Number, Value};
use fluxdb::kv::Store;
use fluxdb::lsn::Lsn;
use fluxdb::segment::Segment;
use fluxdb::snapshot::{replay_start, Snapshot};
use fluxdb::replay::ReplayStep;
use fluxdb::wal::{Wal, WalError};

fn num(n: u64) -> Value {
    Value::Number(Number::PosInt(n))
}

fn fresh(limit: u64) -> Database {
    Database::open(None, Wal::open(&Vec::new(), Vec::new(), limit).unwrap(), Vec::new())
}

/// Records and applies one assignment; the payload stands for the event's
/// encoding.
fn set(db: &mut Database, key: &str, value: Value, log: &mut Vec<(Vec<u8>, Event)>) {
    let event = db.put(key.to_string(), value).unwrap();
    let payload = format!("\"{} v{}\"", key, event.version).into_bytes();
    let lsn = db.execute_pre_durability(&payload).unwrap();
    log.push((payload, event.clone()));
    db.fsync_wal(true).unwrap();
    db.execute_post_durability(event, lsn).unwrap();
}

fn decode(payload: &[u8], log: &[(Vec<u8>, Event)]) -> Event {
    log.iter().find(|(p, _)| p.as_slice() == payload).map(|(_, e)| e.clone()).unwrap()
}

#[test]
fn open_without_snapshot_replays_events() {
    let events = vec![
        Event { key: "a".to_string(), old: Value::Null, new: num(1), version: 1 },
        Event { key: "b".to_string(), old: Value::Null, new: num(2), version: 1 },
        Event { key: "a".to_string(), old: num(1), new: Value::Null, version: 2 },
    ];
    let db = Database::open(None, Wal::open(&Vec::new(), Vec::new(), 64).unwrap(), events);
    assert_eq!(db.get("a"), None);
    assert_eq!(db.get("b"), Some(Document { value: num(2), version: 1 }));
}

#[test]
fn put_derives_without_changing_anything() {
    let db = fresh(1024);
    let event = db.put("x".to_string(), num(1)).unwrap();
    assert_eq!(event, Event { key: "x".to_string(), old: Value::Null, new: num(1), version: 1 });
    assert_eq!(db.get("x"), None);
    assert_eq!(db.wal().current_lsn(), Lsn::zero());
}

#[test]
fn derive_dispatches_on_the_command() {
    let mut db = fresh(1024);
    let mut log = Vec::new();
    set(&mut db, "k", num(1), &mut log);
    assert_eq!(
        db.derive(WriteCommand::Put { key: "k".to_string(), value: num(2) }),
        db.put("k".to_string(), num(2))
    );
    assert_eq!(db.derive(WriteCommand::Del { key: "k".to_string() }), db.delete("k"));
    assert_eq!(
        db.derive(WriteCommand::Patch { key: "k".to_string(), delta: num(3) }),
        db.patch("k", num(3))
    );
    assert_eq!(db.delete("k").unwrap().version, 2);
}

#[test]
fn version_exhaustion_is_refused() {
    let events = vec![Event { key: "a".to_string(), old: Value::Null, new: num(1), version: u64::MAX }];
    let db = Database::open(None, Wal::open(&Vec::new(), Vec::new(), 64).unwrap(), events);
    assert_eq!(db.put("a".to_string(), num(2)), Err(DbError::VersionExhausted));
    assert_eq!(db.delete("a"), Err(DbError::VersionExhausted));
    assert_eq!(db.patch("a", num(2)), Err(DbError::VersionExhausted));
    assert!(db.put("b".to_string(), num(2)).is_ok());
}

#[test]
fn an_event_is_applied_only_when_durable() {
    let mut db = fresh(1024);
    let event = db.put("x".to_string(), num(1)).unwrap();
    let lsn = db.execute_pre_durability(b"\"12345\"").unwrap();
    assert_eq!(lsn, Lsn::zero());
    assert_eq!(db.execute_post_durability(event.clone(), lsn), Err(DbError::NotDurable));
    assert_eq!(db.get("x"), None);
    db.fsync_wal(true).unwrap();
    assert_eq!(db.execute_post_durability(event, lsn), Ok(()));
    assert_eq!(db.get("x"), Some(Document { value: num(1), version: 1 }));
}

#[test]
fn injected_failure_fails_one_barrier() {
    let mut db = fresh(1024);
    db.execute_pre_durability(b"\"12345\"").unwrap();
    db.inject_failure();
    assert_eq!(db.fsync_wal(true), Err(DbError::InjectedFsyncFailure));
    assert_eq!(db.wal().durable_lsn(), Lsn::zero());
    assert_eq!(db.fsync_wal(true), Ok(()));
    assert_eq!(db.wal().durable_lsn(), Lsn::new(0, 11));
}

#[test]
fn failed_flush_fails_the_barrier() {
    let mut db = fresh(1024);
    db.execute_pre_durability(b"\"12345\"").unwrap();
    assert_eq!(db.fsync_wal(false), Err(DbError::FlushFailed));
    assert_eq!(db.wal().durable_lsn(), Lsn::zero());
}

#[test]
fn log_errors_are_passed_on() {
    let mut db = fresh(10);
    db.execute_pre_durability(b"\"0000\"").unwrap();
    assert_eq!(db.execute_pre_durability(b"\"0000\""), Err(DbError::Log(WalError::SealUnsynced)));
    assert_eq!(db.wal().current_lsn(), Lsn::new(0, 10));
}

#[test]
fn checkpoint_payload_captures_store_and_lsn() {
    let mut db = fresh(1024);
    let mut log = Vec::new();
    set(&mut db, "a", num(1), &mut log);
    set(&mut db, "b", num(2), &mut log);
    let snapshot = db.checkpoint_payload();
    assert_eq!(snapshot.lsn, db.wal().current_lsn());
    assert_eq!(snapshot.data.get("a"), Some(&Document { value: num(1), version: 1 }));
    assert_eq!(snapshot.data.get("b"), Some(&Document { value: num(2), version: 1 }));
    set(&mut db, "a", num(5), &mut log);
    assert_eq!(snapshot.data.get("a"), Some(&Document { value: num(1), version: 1 }));
}

#[test]
fn recovery_with_snapshot_and_suffix() {
    let mut db = fresh(1024);
    let mut log = Vec::new();
    set(&mut db, "a", num(1), &mut log);
    set(&mut db, "b", num(2), &mut log);
    let snapshot = db.checkpoint_payload();
    set(&mut db, "c", num(3), &mut log);

    // The crash leaves the snapshot and the flushed bytes of the log.
    let disk = db.wal().active_segment().bytes().clone();
    let snapshot = Some(Snapshot { data: snapshot.data.clone(), lsn: snapshot.lsn });
    let wal = Wal::open(&vec!["0.log".to_string()], disk.clone(), 1024).unwrap();
    let start = replay_start(&snapshot);
    let mut iter = wal.replay_from(start, Segment::open(start.segment, disk)).unwrap();
    let mut events = Vec::new();
    loop {
        match iter.next_event().unwrap() {
            ReplayStep::Record(p) => events.push(decode(&p, &log)),
            ReplayStep::NextSegment(_) => unreachable!(),
            ReplayStep::End => break,
        }
    }
    assert_eq!(events.len(), 1);
    let recovered = Database::open(snapshot, wal, events);
    assert_eq!(recovered.get("a"), Some(Document { value: num(1), version: 1 }));
    assert_eq!(recovered.get("b"), Some(Document { value: num(2), version: 1 }));
    assert_eq!(recovered.get("c"), Some(Document { value: num(3), version: 1 }));
}

#[test]
fn recovery_without_snapshot_equals_recovery_with_it() {
    let mut db = fresh(1024);
    let mut log = Vec::new();
    set(&mut db, "a", num(1), &mut log);
    set(&mut db, "a", num(2), &mut log);
    let snapshot = db.checkpoint_payload();
    set(&mut db, "b", num(3), &mut log);
    set(&mut db, "a", Value::Null, &mut log);

    let all: Vec<Event> = log.iter().map(|(_, e)| e.clone()).collect();
    let from_log =
        Database::open(None, Wal::open(&Vec::new(), Vec::new(), 64).unwrap(), all.clone());
    let from_snapshot = Database::open(
        Some(snapshot),
        Wal::open(&Vec::new(), Vec::new(), 64).unwrap(),
        all[2..].to_vec(),
    );
    for key in ["a", "b", "c"] {
        assert_eq!(from_log.get(key), from_snapshot.get(key));
        assert_eq!(from_log.get(key), db.get(key));
    }
}

#[test]
fn recovery_after_a_torn_tail() {
    let mut db = fresh(1024);
    let mut log = Vec::new();
    set(&mut db, "a", num(1), &mut log);
    let event = db.put("b".to_string(), num(2)).unwrap();
    db.execute_pre_durability(b"\"never flushed\"").unwrap();
    log.push((b"\"never flushed\"".to_vec(), event));

    // The crash keeps the flushed record and half of the next.
    let durable = db.wal().durable_lsn().offset as usize;
    let disk = db.wal().active_segment().bytes()[..durable + 9].to_vec();
    let wal = Wal::open(&vec!["0.log".to_string()], disk.clone(), 1024).unwrap();
    let mut iter = wal.replay_all(Segment::open(0, disk)).unwrap();
    let mut events = Vec::new();
    while let Ok(ReplayStep::Record(p)) = iter.next_event() {
        events.push(decode(&p, &log));
    }
    let recovered = Database::open(None, wal, events);
    assert_eq!(recovered.get("a"), Some(Document { value: num(1), version: 1 }));
    assert_eq!(recovered.get("b"), None);
}

#[test]
fn gc_hands_back_the_segments_to_delete() {
    let mut db = fresh(20);
    for i in 0..5u8 {
        db.fsync_wal(true).unwrap();
        db.execute_pre_durability(format!("\"{:04}\"", i).as_bytes()).unwrap();
    }
    assert_eq!(db.wal().active_segment_id(), 2);
    assert_eq!(db.gc(Lsn::new(1, 0)), vec![0]);
    assert_eq!(db.wal().sealed_segments(), &vec![1]);
}

#[test]
fn store_is_read_through_the_database() {
    let mut db = fresh(1024);
    let mut log = Vec::new();
    set(&mut db, "a", num(1), &mut log);
    let store: &Store = db.store();
    assert_eq!(store.len(), 1);
}

#[test]
fn db_errors_have_words() {
    assert_eq!(DbError::InjectedFsyncFailure.message(), "injected fsync failure");
    assert_eq!(DbError::FlushFailed.message(), "fsync failed");
    assert_eq!(DbError::VersionExhausted.message(), "version numbers exhausted");
    assert_eq!(DbError::NotDurable.message(), "record is not durable");
    assert_eq!(DbError::Log(WalError::RecordTooLarge).message(), "record too large");
    assert_eq!(DbError::Log(WalError::NotJson).message(), "payload is no JSON text");
}
