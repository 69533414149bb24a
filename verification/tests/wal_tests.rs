use fluxdb::lsn::Lsn;
use fluxdb::segment::Segment;
use fluxdb::replay::{ReplayStep, WalIterator};
use fluxdb::wal::{Wal, WalError};

/// A JSON text of six bytes that spells `i`.
fn six(i: u8) -> Vec<u8> {
    format!("\"{:04}\"", i).into_bytes()
}

/// A JSON text of `n` bytes.
fn js(n: usize) -> Vec<u8> {
    let mut out = vec![b'"'];
    out.extend(std::iter::repeat(b'x').take(n - 2));
    out.push(b'"');
    out
}

fn names(list: &[&str]) -> Vec<String> {
    list.iter().map(|s| s.to_string()).collect()
}

fn drain(iter: &mut WalIterator, segments: &[Segment]) -> Vec<Vec<u8>> {
    let mut out = Vec::new();
    loop {
        match iter.next_event().unwrap() {
            ReplayStep::Record(p) => out.push(p),
            ReplayStep::NextSegment(id) => {
                let bytes = segments
                    .iter()
                    .find(|s| s.id() == id)
                    .map(|s| s.bytes().clone())
                    .unwrap_or_default();
                iter.enter(Segment::open(id, bytes)).unwrap();
            }
            ReplayStep::End => return out,
        }
    }
}

#[test]
fn open_on_empty_directory_creates_segment_zero() {
    assert_eq!(Wal::active_id_of(&names(&[])), None);
    let wal = Wal::open(&names(&["notes.txt", "fluxdb.snapshot"]), vec![1, 2, 3], 64).unwrap();
    assert_eq!(wal.active_segment_id(), 0);
    assert_eq!(wal.current_lsn(), Lsn::new(0, 0));
    assert!(wal.sealed_segments().is_empty());
    assert!(wal.is_synced());
}

#[test]
fn open_takes_highest_segment_as_active() {
    let listing = names(&["1.log", "10.log", "2.log", "x.log", "10.log.tmp"]);
    assert_eq!(Wal::segment_ids(&listing), vec![1, 10, 2]);
    assert_eq!(Wal::active_id_of(&listing), Some(10));
    let wal = Wal::open(&listing, vec![0, 0, 0, 1, b'9'], 64).unwrap();
    assert_eq!(wal.active_segment_id(), 10);
    assert_eq!(wal.sealed_segments(), &vec![1, 2]);
    assert_eq!(wal.current_lsn(), Lsn::new(10, 5));
    assert_eq!(wal.durable_lsn(), Lsn::new(10, 5));
}

#[test]
fn open_refuses_the_last_segment_number() {
    let listing = names(&["18446744073709551615.log"]);
    assert_eq!(Wal::open(&listing, Vec::new(), 64).err(), Some(WalError::SegmentIdsExhausted));
}

#[test]
fn append_returns_the_start_of_each_record() {
    let mut wal = Wal::open(&names(&[]), Vec::new(), 1024).unwrap();
    assert_eq!(wal.append(b"[1]"), Ok(Lsn::new(0, 0)));
    assert_eq!(wal.current_lsn(), Lsn::new(0, 7));
    assert_eq!(wal.append(b"2"), Ok(Lsn::new(0, 7)));
    assert_eq!(wal.append(b"\"34\""), Ok(Lsn::new(0, 12)));
    assert_eq!(wal.current_lsn(), Lsn::new(0, 20));
    assert_eq!(wal.durable_lsn(), Lsn::new(0, 0));
    wal.fsync();
    assert_eq!(wal.durable_lsn(), Lsn::new(0, 20));
}

#[test]
fn lsns_grow_across_rotation() {
    let mut wal = Wal::open(&names(&[]), Vec::new(), 20).unwrap();
    let mut lsns = Vec::new();
    for i in 0..7u8 {
        wal.fsync();
        lsns.push(wal.append(&six(i)).unwrap());
    }
    assert_eq!(
        lsns,
        vec![
            Lsn::new(0, 0),
            Lsn::new(0, 10),
            Lsn::new(1, 0),
            Lsn::new(1, 10),
            Lsn::new(2, 0),
            Lsn::new(2, 10),
            Lsn::new(3, 0),
        ]
    );
    for pair in lsns.windows(2) {
        assert!(pair[0].precedes(&pair[1]));
    }
}

#[test]
fn rotation_and_gc() {
    let mut wal = Wal::open(&names(&[]), Vec::new(), 20).unwrap();
    for i in 0..7u8 {
        wal.fsync();
        wal.append(&six(i)).unwrap();
    }
    assert_eq!(wal.active_segment_id(), 3);
    assert_eq!(wal.sealed_segments(), &vec![0, 1, 2]);
    let removed = wal.gc(Lsn::new(2, 10));
    assert_eq!(removed, vec![0, 1]);
    assert_eq!(wal.sealed_segments(), &vec![2]);
    assert_eq!(wal.active_segment_id(), 3);
    // Collecting again finds nothing more.
    assert!(wal.gc(Lsn::new(2, 10)).is_empty());
    assert_eq!(wal.sealed_segments(), &vec![2]);
}

#[test]
fn gc_never_takes_the_active_segment() {
    let mut wal = Wal::open(&names(&["0.log", "1.log", "2.log"]), Vec::new(), 64).unwrap();
    let removed = wal.gc(Lsn::new(100, 0));
    assert_eq!(removed, vec![0, 1]);
    assert_eq!(wal.active_segment_id(), 2);
    assert!(wal.sealed_segments().is_empty());
    assert!(wal.gc(Lsn::zero()).is_empty());
}

#[test]
fn a_full_segment_is_sealed_only_when_flushed() {
    let mut wal = Wal::open(&names(&[]), Vec::new(), 20).unwrap();
    wal.append(&six(1)).unwrap();
    wal.append(&six(2)).unwrap();
    assert!(wal.needs_rotation(6));
    assert!(!wal.is_synced());
    assert_eq!(wal.append(&six(3)), Err(WalError::SealUnsynced));
    // A refused append changes nothing.
    assert_eq!(wal.current_lsn(), Lsn::new(0, 20));
    assert_eq!(wal.active_segment_id(), 0);
    wal.fsync();
    assert_eq!(wal.append(&six(3)), Ok(Lsn::new(1, 0)));
    assert_eq!(wal.sealed_segments(), &vec![0]);
}

#[test]
fn a_record_above_the_limit_opens_its_own_segment() {
    let mut wal = Wal::open(&names(&[]), Vec::new(), 8).unwrap();
    assert!(wal.needs_rotation(100));
    assert_eq!(wal.append(&js(100)), Ok(Lsn::new(1, 0)));
    assert_eq!(wal.sealed_segments(), &vec![0]);
    assert_eq!(wal.current_lsn(), Lsn::new(1, 104));
}

#[test]
fn exact_fit_does_not_rotate() {
    let mut wal = Wal::open(&names(&[]), Vec::new(), 10).unwrap();
    assert!(!wal.needs_rotation(6));
    assert!(wal.needs_rotation(7));
    assert_eq!(wal.append(&six(0)), Ok(Lsn::new(0, 0)));
    assert_eq!(wal.active_segment_id(), 0);
}

#[test]
fn replay_reads_all_segments_in_order() {
    let mut wal = Wal::open(&names(&[]), Vec::new(), 20).unwrap();
    let mut sealed: Vec<Segment> = Vec::new();
    let mut written: Vec<Vec<u8>> = Vec::new();
    for i in 0..7u8 {
        wal.fsync();
        if wal.needs_rotation(6) {
            let s = wal.active_segment();
            sealed.push(Segment::open(s.id(), s.bytes().clone()));
        }
        wal.append(&six(i)).unwrap();
        written.push(six(i));
    }
    let active = wal.active_segment();
    sealed.push(Segment::open(active.id(), active.bytes().clone()));

    let first = Segment::open(0, sealed[0].bytes().clone());
    let mut all = wal.replay_all(first).unwrap();
    assert_eq!(drain(&mut all, &sealed), written);

    let first = Segment::open(1, sealed[1].bytes().clone());
    let mut suffix = wal.replay_from(Lsn::new(1, 10), first).unwrap();
    assert_eq!(drain(&mut suffix, &sealed), written[3..].to_vec());

    let first = Segment::open(3, sealed[3].bytes().clone());
    let mut end = wal.replay_from(wal.current_lsn(), first).unwrap();
    assert!(drain(&mut end, &sealed).is_empty());
}

#[test]
fn replay_skips_a_torn_tail() {
    let mut wal = Wal::open(&names(&[]), Vec::new(), 1024).unwrap();
    wal.append(b"\"first\"").unwrap();
    wal.append(b"\"second\"").unwrap();
    let mut bytes = wal.active_segment().bytes().clone();
    bytes.extend_from_slice(&[0, 0, 0, 50, b'p', b'a', b'r', b't']);
    let reopened = Wal::open(&names(&["0.log"]), bytes.clone(), 1024).unwrap();
    let mut iter = reopened.replay_all(Segment::open(0, bytes)).unwrap();
    assert_eq!(drain(&mut iter, &[]), vec![b"\"first\"".to_vec(), b"\"second\"".to_vec()]);
}

#[test]
fn replay_wants_the_segment_of_its_start() {
    let wal = Wal::open(&names(&["0.log", "1.log"]), Vec::new(), 64).unwrap();
    assert_eq!(
        wal.replay_from(Lsn::new(1, 0), Segment::create(0)).err(),
        Some(WalError::WrongSegment)
    );
    assert_eq!(wal.replay_all(Segment::create(1)).err(), Some(WalError::WrongSegment));
}

#[test]
fn enter_wants_the_next_segment() {
    let wal = Wal::open(&names(&["0.log", "1.log", "2.log"]), Vec::new(), 64).unwrap();
    let mut iter = wal.replay_all(Segment::create(0)).unwrap();
    assert!(matches!(iter.next_event(), Ok(ReplayStep::NextSegment(1))));
    assert!(matches!(iter.next_event(), Ok(ReplayStep::NextSegment(1))));
    assert_eq!(iter.enter(Segment::create(2)), Err(WalError::WrongSegment));
    assert_eq!(iter.enter(Segment::create(1)), Ok(()));
    assert!(matches!(iter.next_event(), Ok(ReplayStep::NextSegment(2))));
    assert_eq!(iter.enter(Segment::create(2)), Ok(()));
    assert!(matches!(iter.next_event(), Ok(ReplayStep::End)));
    assert_eq!(iter.enter(Segment::create(3)), Err(WalError::WrongSegment));
}

#[test]
fn wal_errors_have_words() {
    assert_eq!(WalError::RecordTooLarge.message(), "record too large");
    assert_eq!(WalError::SealUnsynced.message(), "active segment is full and not flushed");
    assert_eq!(WalError::SegmentIdsExhausted.message(), "segment numbers exhausted");
    assert_eq!(WalError::WrongSegment.message(), "wrong segment");
    assert_eq!(WalError::NotJson.message(), "payload is no JSON text");
    assert_eq!(WalError::Corrupt.message(), "corrupt WAL record");
}

#[test]
fn replay_segments_yields_the_whole_suffix() {
    let mut wal = Wal::open(&names(&[]), Vec::new(), 20).unwrap();
    let mut images: Vec<Vec<u8>> = Vec::new();
    let mut written: Vec<Vec<u8>> = Vec::new();
    for i in 0..7u8 {
        wal.fsync();
        if wal.needs_rotation(6) {
            images.push(wal.active_segment().bytes().clone());
        }
        wal.append(&six(i)).unwrap();
        written.push(six(i));
    }
    images.push(wal.active_segment().bytes().clone());
    let open_from = |first: usize| -> Vec<Segment> {
        images[first..].iter().enumerate().map(|(i, b)| Segment::open((first + i) as u64, b.clone())).collect()
    };
    assert_eq!(wal.replay_segments(Lsn::zero(), open_from(0)), Ok(written.clone()));
    assert_eq!(wal.replay_segments(Lsn::new(1, 10), open_from(1)), Ok(written[3..].to_vec()));
    assert_eq!(wal.replay_segments(Lsn::new(3, 0), open_from(3)), Ok(written[6..].to_vec()));
    assert_eq!(wal.replay_segments(Lsn::new(3, 10), open_from(3)), Ok(Vec::new()));
    // A position inside a record finds no record there or behind it.
    assert_eq!(wal.replay_segments(Lsn::new(3, 9999), open_from(3)), Ok(Vec::new()));
}

#[test]
fn replay_segments_wants_every_segment_once() {
    let wal = Wal::open(&names(&["0.log", "1.log", "2.log"]), Vec::new(), 64).unwrap();
    let seg = |id: u64| Segment::create(id);
    assert_eq!(wal.replay_segments(Lsn::zero(), vec![seg(0), seg(1), seg(2)]), Ok(Vec::new()));
    assert_eq!(wal.replay_segments(Lsn::zero(), Vec::new()), Err(WalError::WrongSegment));
    assert_eq!(wal.replay_segments(Lsn::zero(), vec![seg(0), seg(1)]), Err(WalError::WrongSegment));
    assert_eq!(
        wal.replay_segments(Lsn::zero(), vec![seg(0), seg(2), seg(1)]),
        Err(WalError::WrongSegment)
    );
    assert_eq!(
        wal.replay_segments(Lsn::new(1, 0), vec![seg(0), seg(1), seg(2)]),
        Err(WalError::WrongSegment)
    );
    assert_eq!(wal.replay_segments(Lsn::new(3, 0), vec![seg(3)]), Err(WalError::WrongSegment));
    assert_eq!(wal.replay_segments(Lsn::new(2, 0), vec![seg(2)]), Ok(Vec::new()));
}

#[test]
fn wal_append_refuses_what_is_no_json() {
    let mut wal = Wal::open(&names(&[]), Vec::new(), 20).unwrap();
    wal.append(&six(1)).unwrap();
    wal.append(&six(2)).unwrap();
    // Refused before the full segment is looked at.
    assert_eq!(wal.append(b"not json"), Err(WalError::NotJson));
    assert_eq!(wal.current_lsn(), Lsn::new(0, 20));
    assert!(wal.sealed_segments().is_empty());
}

#[test]
fn replay_fails_on_a_corrupt_record() {
    let mut bytes = vec![0, 0, 0, 1, b'1'];
    bytes.extend_from_slice(&[0, 0, 0, 2, b'{', b'{']);
    bytes.extend_from_slice(&[0, 0, 0, 1, b'3']);
    let wal = Wal::open(&names(&["0.log"]), bytes.clone(), 64).unwrap();
    let mut iter = wal.replay_all(Segment::open(0, bytes.clone())).unwrap();
    assert!(matches!(iter.next_event(), Ok(ReplayStep::Record(p)) if p == b"1"));
    assert!(matches!(iter.next_event(), Err(WalError::Corrupt)));
    assert_eq!(
        wal.replay_segments(Lsn::zero(), vec![Segment::open(0, bytes.clone())]),
        Err(WalError::Corrupt)
    );
    // Behind the corrupt record the log reads on.
    assert_eq!(
        wal.replay_segments(Lsn::new(0, 11), vec![Segment::open(0, bytes)]),
        Ok(vec![b"3".to_vec()])
    );
}

#[test]
fn append_refuses_to_seal_the_last_numbered_segment() {
    let listing = names(&["18446744073709551614.log"]);
    let mut wal = Wal::open(&listing, Vec::new(), 10).unwrap();
    assert_eq!(wal.active_segment_id(), u64::MAX - 1);
    assert_eq!(wal.append(&six(1)), Ok(Lsn::new(u64::MAX - 1, 0)));
    wal.fsync();
    assert_eq!(wal.append(&six(2)), Err(WalError::SegmentIdsExhausted));
    assert_eq!(wal.current_lsn(), Lsn::new(u64::MAX - 1, 10));
}

#[test]
fn gc_keeps_what_a_replay_from_the_snapshot_needs() {
    let mut wal = Wal::open(&names(&[]), Vec::new(), 20).unwrap();
    let mut images: Vec<Vec<u8>> = Vec::new();
    for i in 0..7u8 {
        wal.fsync();
        if wal.needs_rotation(6) {
            images.push(wal.active_segment().bytes().clone());
        }
        wal.append(&six(i)).unwrap();
    }
    images.push(wal.active_segment().bytes().clone());
    let upto = Lsn::new(2, 10);
    let open_from = |first: usize, images: &Vec<Vec<u8>>| -> Vec<Segment> {
        images[first..].iter().enumerate().map(|(i, b)| Segment::open((first + i) as u64, b.clone())).collect()
    };
    let before = wal.replay_segments(upto, open_from(2, &images)).unwrap();
    for id in wal.gc(upto) {
        images[id as usize].clear();
    }
    assert!(images[0].is_empty() && images[1].is_empty());
    let after = wal.replay_segments(upto, open_from(2, &images)).unwrap();
    assert_eq!(before, after);
    assert_eq!(after, vec![six(5), six(6)]);
}
