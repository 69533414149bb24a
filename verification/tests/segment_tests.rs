use fluxdb::segment::{Segment, SegmentError, MAX_PAYLOAD};

/// A JSON text of `n` bytes: a string of `n - 2` letters.
fn js(n: usize) -> Vec<u8> {
    let mut out = vec![b'"'];
    out.extend(std::iter::repeat(b'x').take(n - 2));
    out.push(b'"');
    out
}

fn framed(payload: &[u8]) -> Vec<u8> {
    let mut out = (payload.len() as u32).to_be_bytes().to_vec();
    out.extend_from_slice(payload);
    out
}

#[test]
fn create_is_empty() {
    let segment = Segment::create(4);
    assert_eq!(segment.id(), 4);
    assert_eq!(segment.size(), 0);
    assert_eq!(segment.synced_len(), 0);
    assert!(segment.bytes().is_empty());
}

#[test]
fn append_frames_with_big_endian_length() {
    let mut segment = Segment::create(0);
    assert_eq!(segment.append(b"12"), Ok(0));
    assert_eq!(segment.bytes(), &vec![0, 0, 0, 2, b'1', b'2']);
    assert_eq!(segment.append(&js(300)), Ok(6));
    assert_eq!(segment.size(), 6 + 4 + 300);
    assert_eq!(&segment.bytes()[6..10], &[0, 0, 1, 44]);
    assert_eq!(segment.append(b"0"), Ok(310));
    assert_eq!(&segment.bytes()[310..], &[0, 0, 0, 1, b'0']);
}

#[test]
fn segment_append_refuses_what_is_no_json() {
    let mut segment = Segment::create(0);
    segment.append(b"{\"a\":1}").unwrap();
    let before = segment.bytes().clone();
    for bad in [&b""[..], b"hi", b"{", b"{\"a\":}", b"[1,2", b"01", b"1 2", b"\xff"] {
        assert_eq!(segment.append(bad), Err(SegmentError::NotJson));
    }
    assert_eq!(segment.bytes(), &before);
    for good in [&b"null"[..], b"true", b" 1 ", b"-0.5e3", b"\"s\"", b"[]", b"{\"k\":[1,{\"n\":null}]}"] {
        assert!(segment.append(good).is_ok());
    }
}

#[test]
fn append_refuses_json_that_nests_too_deep() {
    let mut segment = Segment::create(0);
    let deep = |depth: usize| -> Vec<u8> {
        let mut text = vec![b'['; depth];
        text.extend(vec![b']'; depth]);
        text
    };
    assert!(segment.append(&deep(100)).is_ok());
    assert_eq!(segment.append(&deep(200)), Err(SegmentError::NotJson));
}

#[test]
fn append_does_not_sync() {
    let mut segment = Segment::create(0);
    segment.append(b"123").unwrap();
    assert_eq!(segment.synced_len(), 0);
    segment.fsync();
    assert_eq!(segment.synced_len(), 7);
    segment.append(b"4").unwrap();
    assert_eq!(segment.synced_len(), 7);
    assert_eq!(segment.size(), 12);
}

#[test]
fn read_next_returns_records_in_order() {
    let mut segment = Segment::create(0);
    segment.append(b"\"one\"").unwrap();
    segment.append(b"2").unwrap();
    segment.append(b"[3,3,3]").unwrap();
    segment.seek(0);
    assert_eq!(segment.read_next(), Ok(Some(b"\"one\"".to_vec())));
    assert_eq!(segment.read_next(), Ok(Some(b"2".to_vec())));
    assert_eq!(segment.read_next(), Ok(Some(b"[3,3,3]".to_vec())));
    assert_eq!(segment.read_next(), Ok(None));
    assert_eq!(segment.read_next(), Ok(None));
}

#[test]
fn open_reads_what_was_written() {
    let mut written = Segment::create(9);
    written.append(b"\"alpha\"").unwrap();
    written.append(b"\"beta\"").unwrap();
    let mut reopened = Segment::open(9, written.bytes().clone());
    assert_eq!(reopened.id(), 9);
    assert_eq!(reopened.synced_len(), reopened.size());
    assert_eq!(reopened.read_next(), Ok(Some(b"\"alpha\"".to_vec())));
    assert_eq!(reopened.read_next(), Ok(Some(b"\"beta\"".to_vec())));
    assert_eq!(reopened.read_next(), Ok(None));
}

#[test]
fn seek_positions_the_cursor() {
    let mut segment = Segment::create(0);
    let first = segment.append(b"11").unwrap();
    let second = segment.append(b"222").unwrap();
    assert_eq!((first, second), (0, 6));
    segment.seek(second);
    assert_eq!(segment.read_next(), Ok(Some(b"222".to_vec())));
    segment.seek(first);
    assert_eq!(segment.read_next(), Ok(Some(b"11".to_vec())));
}

#[test]
fn seek_beyond_the_end_reads_nothing() {
    let mut segment = Segment::create(0);
    segment.append(b"11").unwrap();
    segment.seek(1000);
    assert_eq!(segment.read_next(), Ok(None));
}

#[test]
fn torn_length_prefix_is_discarded() {
    let mut bytes = framed(b"\"kept\"");
    bytes.extend_from_slice(&[0, 0]);
    let mut torn = Segment::open(0, bytes);
    assert_eq!(torn.read_next(), Ok(Some(b"\"kept\"".to_vec())));
    assert_eq!(torn.read_next(), Ok(None));
}

#[test]
fn torn_payload_is_discarded() {
    let mut whole = Segment::create(0);
    whole.append(b"\"kept\"").unwrap();
    whole.append(b"\"lost in the crash\"").unwrap();
    let cut = whole.bytes().len() - 5;
    let mut torn = Segment::open(0, whole.bytes()[..cut].to_vec());
    assert_eq!(torn.read_next(), Ok(Some(b"\"kept\"".to_vec())));
    assert_eq!(torn.read_next(), Ok(None));
}

#[test]
fn every_cut_keeps_a_prefix_of_the_records() {
    let mut whole = Segment::create(0);
    let payloads: Vec<&[u8]> = vec![b"1", b"[2]", b"\"\"", b"{\"k\":4}"];
    let mut ends = Vec::new();
    for p in &payloads {
        whole.append(p).unwrap();
        ends.push(whole.size() as usize);
    }
    for cut in 0..=whole.bytes().len() {
        let mut torn = Segment::open(0, whole.bytes()[..cut].to_vec());
        let mut read = Vec::new();
        while let Some(p) = torn.read_next().unwrap() {
            read.push(p);
        }
        let expected = ends.iter().filter(|e| **e <= cut).count();
        assert_eq!(read.len(), expected);
        for (i, p) in read.iter().enumerate() {
            assert_eq!(p.as_slice(), payloads[i]);
        }
    }
}

#[test]
fn length_that_overshoots_ends_the_segment() {
    let mut segment = Segment::open(0, vec![0, 0, 0, 9, 1, 2, 3]);
    assert_eq!(segment.read_next(), Ok(None));
}

#[test]
fn a_whole_record_that_is_no_json_is_corrupt() {
    let mut bytes = framed(b"{\"ok\":true}");
    bytes.extend(framed(b"{\"ok\":tru?}"));
    bytes.extend(framed(b"1"));
    let mut segment = Segment::open(0, bytes);
    assert_eq!(segment.read_next(), Ok(Some(b"{\"ok\":true}".to_vec())));
    assert_eq!(segment.read_next(), Err(SegmentError::Corrupt));
    // The cursor is behind the corrupt record.
    assert_eq!(segment.read_next(), Ok(Some(b"1".to_vec())));
}

#[test]
fn an_empty_record_is_corrupt() {
    let mut segment = Segment::open(0, vec![0, 0, 0, 0]);
    assert_eq!(segment.read_next(), Err(SegmentError::Corrupt));
    assert_eq!(segment.read_next(), Ok(None));
}

#[test]
fn max_payload_is_four_bytes_of_length() {
    assert_eq!(MAX_PAYLOAD, u32::MAX as u64);
}
