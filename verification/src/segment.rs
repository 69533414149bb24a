//! One segment of the log: an append-only run of length-prefixed records.
//!
//! A record is a four-byte big-endian length followed by that many bytes of
//! payload. A [`Segment`] is the image of a segment file: the caller reads the
//! file into it and writes its bytes back, and tells it when they are on
//! stable storage.

use vstd::prelude::*;

verus! {

/// The largest payload that a record can frame.
pub const MAX_PAYLOAD: u64 = 0xFFFF_FFFF;

/// The largest number of bytes that a segment's image can hold: what a
/// vector can hold.
pub open spec fn max_image_len() -> int {
    isize::MAX as int
}

/// The four bytes of `n`, most significant first.
pub open spec fn be32(n: int) -> Seq<u8> {
    seq![
        (n / 0x100_0000) as u8,
        ((n / 0x1_0000) % 0x100) as u8,
        ((n / 0x100) % 0x100) as u8,
        (n % 0x100) as u8,
    ]
}

/// The number that four bytes spell, most significant first.
pub open spec fn be32_value(b: Seq<u8>) -> int {
    b[0] * 0x100_0000 + b[1] * 0x1_0000 + b[2] * 0x100 + b[3]
}

/// The record that carries `payload`.
pub open spec fn frame(payload: Seq<u8>) -> Seq<u8> {
    be32(payload.len() as int) + payload
}

/// The record that starts at `pos`: its payload and the position after it.
/// There is none where fewer than four bytes follow `pos`, or fewer bytes
/// than the length announces: the end of the segment, clean or torn.
pub open spec fn record_at(bytes: Seq<u8>, pos: int) -> Option<(Seq<u8>, int)> {
    if pos < 0 || pos + 4 > bytes.len() {
        None
    } else {
        let n = be32_value(bytes.subrange(pos, pos + 4));
        if pos + 4 + n > bytes.len() {
            None
        } else {
            Some((bytes.subrange(pos + 4, pos + 4 + n), pos + 4 + n))
        }
    }
}

/// The payloads of the records that can be read one after the other from
/// `pos` on.
pub open spec fn records_from(bytes: Seq<u8>, pos: int) -> Seq<Seq<u8>>
    decreases bytes.len() - pos,
{
    match record_at(bytes, pos) {
        None => Seq::empty(),
        Some((payload, next)) => seq![payload] + records_from(bytes, next),
    }
}

/// The position at which reading from `pos` stops: the start of the first
/// record that is not whole.
pub open spec fn end_of_records(bytes: Seq<u8>, pos: int) -> int
    decreases bytes.len() - pos,
{
    match record_at(bytes, pos) {
        None => pos,
        Some((payload, next)) => end_of_records(bytes, next),
    }
}

/// Whether the records from `pos` on fill the segment exactly: no byte is
/// left over after the last whole record.
pub open spec fn clean_from(bytes: Seq<u8>, pos: int) -> bool {
    end_of_records(bytes, pos) == bytes.len()
}

/// A length below 2^32 is the number that its four bytes spell.
pub proof fn lemma_be32_round_trip(n: int)
    requires
        0 <= n <= MAX_PAYLOAD,
    ensures
        be32(n).len() == 4,
        be32_value(be32(n)) == n,
{
    let m = n as u32;
    assert(m / 0x100_0000 < 0x100) by (bit_vector);
    assert((m / 0x1_0000) % 0x100 < 0x100) by (bit_vector);
    assert((m / 0x100) % 0x100 < 0x100) by (bit_vector);
    assert(m % 0x100 < 0x100) by (bit_vector);
    assert((m / 0x100_0000) * 0x100_0000 + ((m / 0x1_0000) % 0x100) * 0x1_0000 + ((m / 0x100)
        % 0x100) * 0x100 + (m % 0x100) == m) by (bit_vector);
    let b = be32(n);
    assert(b[0] == m / 0x100_0000);
    assert(b[1] == (m / 0x1_0000) % 0x100);
    assert(b[2] == (m / 0x100) % 0x100);
    assert(b[3] == m % 0x100);
}

/// A whole record stays the record that it is when bytes are added behind
/// the segment.
pub proof fn lemma_record_at_extend(bytes: Seq<u8>, more: Seq<u8>, pos: int)
    requires
        record_at(bytes, pos) is Some,
    ensures
        record_at(bytes + more, pos) == record_at(bytes, pos),
{
    let n = be32_value(bytes.subrange(pos, pos + 4));
    assert((bytes + more).subrange(pos, pos + 4) =~= bytes.subrange(pos, pos + 4));
    assert((bytes + more).subrange(pos + 4, pos + 4 + n) =~= bytes.subrange(pos + 4, pos + 4 + n));
}

/// The record that was framed behind `bytes` is read back at the offset where
/// it starts, whatever follows it.
pub proof fn lemma_record_at_frame(bytes: Seq<u8>, payload: Seq<u8>, more: Seq<u8>)
    requires
        payload.len() <= MAX_PAYLOAD,
    ensures
        record_at(bytes + frame(payload) + more, bytes.len() as int) == Some(
            (payload, (bytes.len() + 4 + payload.len()) as int),
        ),
{
    let all = bytes + frame(payload) + more;
    let pos = bytes.len() as int;
    lemma_be32_round_trip(payload.len() as int);
    assert(all.subrange(pos, pos + 4) =~= be32(payload.len() as int));
    assert(all.subrange(pos + 4, pos + 4 + payload.len()) =~= payload);
}

/// No record starts where a proper prefix of a record is all that follows:
/// a torn tail ends the segment.
pub proof fn lemma_record_at_torn(bytes: Seq<u8>, payload: Seq<u8>, kept: int)
    requires
        payload.len() <= MAX_PAYLOAD,
        0 <= kept < frame(payload).len(),
    ensures
        record_at(bytes + frame(payload).take(kept), bytes.len() as int) is None,
{
    let all = bytes + frame(payload).take(kept);
    let pos = bytes.len() as int;
    lemma_be32_round_trip(payload.len() as int);
    if kept >= 4 {
        assert(all.subrange(pos, pos + 4) =~= be32(payload.len() as int));
    }
}

/// Reading a segment with bytes added behind it yields what the segment held,
/// and then what reading goes on to find from the place where it stopped.
pub proof fn lemma_records_extend(bytes: Seq<u8>, more: Seq<u8>, pos: int)
    requires
        0 <= pos,
    ensures
        records_from(bytes + more, pos) == records_from(bytes, pos) + records_from(
            bytes + more,
            end_of_records(bytes, pos),
        ),
        end_of_records(bytes + more, pos) == end_of_records(
            bytes + more,
            end_of_records(bytes, pos),
        ),
        pos <= end_of_records(bytes, pos),
    decreases bytes.len() - pos,
{
    match record_at(bytes, pos) {
        None => {
            assert(records_from(bytes, pos) + records_from(bytes + more, pos) =~= records_from(
                bytes + more,
                pos,
            ));
        },
        Some((payload, next)) => {
            lemma_record_at_extend(bytes, more, pos);
            lemma_records_extend(bytes, more, next);
            assert(seq![payload] + (records_from(bytes, next) + records_from(
                bytes + more,
                end_of_records(bytes, next),
            )) =~= (seq![payload] + records_from(bytes, next)) + records_from(
                bytes + more,
                end_of_records(bytes, next),
            ));
        },
    }
}

/// Appending a record to a clean segment adds its payload to what the
/// segment yields, and leaves the segment clean.
pub proof fn lemma_records_append(bytes: Seq<u8>, payload: Seq<u8>, pos: int)
    requires
        0 <= pos,
        clean_from(bytes, pos),
        payload.len() <= MAX_PAYLOAD,
    ensures
        records_from(bytes + frame(payload), pos) == records_from(bytes, pos).push(payload),
        clean_from(bytes + frame(payload), pos),
{
    let all = bytes + frame(payload);
    let end = bytes.len() as int;
    lemma_records_extend(bytes, frame(payload), pos);
    lemma_record_at_frame(bytes, payload, Seq::empty());
    assert(bytes + frame(payload) + Seq::<u8>::empty() =~= all);
    lemma_be32_round_trip(payload.len() as int);
    let after = end + 4 + payload.len();
    assert(after == all.len());
    assert(record_at(all, after) is None);
    assert(records_from(all, after) =~= Seq::<Seq<u8>>::empty());
    assert(records_from(all, end) =~= seq![payload]);
    assert(end_of_records(all, end) == after) by {
        assert(end_of_records(all, after) == after);
    }
    assert(records_from(bytes, pos) + seq![payload] =~= records_from(bytes, pos).push(payload));
}

/// A partial record behind a clean segment is discarded: reading yields what
/// the segment held before it, and stops where the partial record starts.
pub proof fn lemma_records_torn_tail(bytes: Seq<u8>, payload: Seq<u8>, kept: int, pos: int)
    requires
        0 <= pos,
        clean_from(bytes, pos),
        payload.len() <= MAX_PAYLOAD,
        0 <= kept < frame(payload).len(),
    ensures
        records_from(bytes + frame(payload).take(kept), pos) == records_from(bytes, pos),
        end_of_records(bytes + frame(payload).take(kept), pos) == bytes.len(),
{
    let tail = frame(payload).take(kept);
    lemma_records_extend(bytes, tail, pos);
    lemma_record_at_torn(bytes, payload, kept);
    assert(records_from(bytes, pos) + Seq::<Seq<u8>>::empty() =~= records_from(bytes, pos));
}

/// A crash keeps what was durable. Of a segment of which `durable` bytes were
/// flushed, a crash leaves some `kept >= durable` bytes. Reading what is left
/// yields first all that the durable part yields, in order, and yields
/// nothing that the whole segment would not have yielded at that place.
pub proof fn lemma_crash_keeps_durable(bytes: Seq<u8>, durable: int, kept: int, pos: int)
    requires
        0 <= pos,
        0 <= durable <= kept <= bytes.len(),
    ensures
        records_from(bytes.take(kept), pos) == records_from(bytes.take(durable), pos)
            + records_from(bytes.take(kept), end_of_records(bytes.take(durable), pos)),
        records_from(bytes, pos) == records_from(bytes.take(kept), pos) + records_from(
            bytes,
            end_of_records(bytes.take(kept), pos),
        ),
{
    assert(bytes.take(durable) + bytes.subrange(durable, kept) =~= bytes.take(kept));
    lemma_records_extend(bytes.take(durable), bytes.subrange(durable, kept), pos);
    assert(bytes.take(kept) + bytes.skip(kept) =~= bytes);
    lemma_records_extend(bytes.take(kept), bytes.skip(kept), pos);
}

/// A whole record stays the record that it is when the segment is cut
/// behind it: a crash that keeps all of a record keeps it readable.
pub proof fn lemma_record_at_cut(bytes: Seq<u8>, pos: int, kept: int)
    requires
        record_at(bytes, pos) matches Some((payload, next)) && next <= kept <= bytes.len(),
    ensures
        record_at(bytes.take(kept), pos) == record_at(bytes, pos),
{
    let n = be32_value(bytes.subrange(pos, pos + 4));
    assert(bytes.take(kept).subrange(pos, pos + 4) =~= bytes.subrange(pos, pos + 4));
    assert(bytes.take(kept).subrange(pos + 4, pos + 4 + n) =~= bytes.subrange(
        pos + 4,
        pos + 4 + n,
    ));
}

/// Whether `bytes` are one JSON text: what `serde_json::from_slice` accepts
/// as a `serde_json::Value`.
pub uninterp spec fn is_json_text(bytes: Seq<u8>) -> bool;

/// `serde_json::from_slice`, asked for a `serde_json::Value`: whether the
/// call accepts `bytes`. The call reads nothing but its argument, and nests
/// no deeper than a fixed bound, so the answer is a function of the bytes.
#[verifier::external_body]
pub(crate) fn parses_as_json(bytes: &[u8]) -> (ok: bool)
    ensures
        ok == is_json_text(bytes@),
{
    serde_json::from_slice::<serde_json::Value>(bytes).is_ok()
}

/// What is wrong with a record.
#[derive(Copy, Clone, Debug, PartialEq, Eq, Structural)]
pub enum SegmentError {
    /// The payload to append is no JSON text.
    NotJson,
    /// The payload's length does not fit the four-byte prefix, or the segment
    /// would grow past what memory can address.
    RecordTooLarge,
    /// A record that is whole holds no JSON text: the segment is corrupt.
    Corrupt,
}

/// The image of one segment file.
#[derive(Debug)]
pub struct Segment {
    id: u64,
    bytes: Vec<u8>,
    cursor: u64,
    synced: usize,
}

impl Segment {
    /// The number that names the segment.
    pub closed spec fn segment_id(&self) -> u64 {
        self.id
    }

    /// The segment's bytes.
    pub closed spec fn contents(&self) -> Seq<u8> {
        self.bytes@
    }

    /// The read cursor.
    pub closed spec fn position(&self) -> u64 {
        self.cursor
    }

    /// The number of leading bytes that are known to be on stable storage.
    pub closed spec fn durable_len(&self) -> int {
        self.synced as int
    }

    /// No more bytes are durable than there are.
    pub open spec fn wf(&self) -> bool {
        0 <= self.durable_len() <= self.contents().len()
    }

    /// A new, empty segment.
    pub fn create(id: u64) -> (segment: Self)
        ensures
            segment.wf(),
            segment.segment_id() == id,
            segment.contents() == Seq::<u8>::empty(),
            segment.position() == 0,
            segment.durable_len() == 0,
    {
        Segment { id, bytes: Vec::new(), cursor: 0, synced: 0 }
    }

    /// The segment whose file held `bytes` when it was read. What was read
    /// from the file counts as durable; the cursor is at the start.
    pub fn open(id: u64, bytes: Vec<u8>) -> (segment: Self)
        ensures
            segment.wf(),
            segment.segment_id() == id,
            segment.contents() == bytes@,
            segment.position() == 0,
            segment.durable_len() == bytes@.len(),
    {
        let synced = bytes.len();
        Segment { id, bytes, cursor: 0, synced }
    }

    /// Whether a record with a payload of `payload_len` bytes can be appended.
    pub open spec fn accepts(&self, payload_len: int) -> bool {
        payload_len <= MAX_PAYLOAD && self.contents().len() + 4 + payload_len <= max_image_len()
    }

    /// Why an append of `payload` is refused, if it is: the payload is no JSON
    /// text, or its record does not fit.
    pub open spec fn append_error(&self, payload: Seq<u8>) -> Option<SegmentError> {
        if !is_json_text(payload) {
            Some(SegmentError::NotJson)
        } else if !self.accepts(payload.len() as int) {
            Some(SegmentError::RecordTooLarge)
        } else {
            None
        }
    }

    /// Appends the record that carries `payload` and returns the offset at
    /// which the record starts. The cursor moves to the end. Nothing becomes
    /// durable. A refused append changes nothing.
    pub fn append(&mut self, payload: &[u8]) -> (result: Result<u64, SegmentError>)
        requires
            old(self).wf(),
        ensures
            final(self).wf(),
            final(self).segment_id() == old(self).segment_id(),
            final(self).durable_len() == old(self).durable_len(),
            match result {
                Ok(offset) => {
                    &&& old(self).append_error(payload@) is None
                    &&& offset == old(self).contents().len()
                    &&& final(self).contents() == old(self).contents() + frame(payload@)
                    &&& final(self).position() == final(self).contents().len()
                },
                Err(e) => {
                    &&& old(self).append_error(payload@) == Some(e)
                    &&& *final(self) == *old(self)
                },
            },
    {
        if !parses_as_json(payload) {
            return Err(SegmentError::NotJson);
        }
        let n = payload.len();
        let room: usize = isize::MAX as usize;
        if n as u64 > MAX_PAYLOAD || n > room - 4 || self.bytes.len() > room - 4 - n {
            return Err(SegmentError::RecordTooLarge);
        }
        Ok(self.write_record(payload))
    }

    /// Appends the record that carries `payload`, which is known to be
    /// acceptable, and returns the offset at which the record starts.
    pub(crate) fn write_record(&mut self, payload: &[u8]) -> (offset: u64)
        requires
            old(self).wf(),
            old(self).append_error(payload@) is None,
        ensures
            final(self).wf(),
            final(self).segment_id() == old(self).segment_id(),
            final(self).durable_len() == old(self).durable_len(),
            offset == old(self).contents().len(),
            final(self).contents() == old(self).contents() + frame(payload@),
            final(self).position() == final(self).contents().len(),
    {
        let n = payload.len();
        let start = self.bytes.len();
        let len = n as u64;
        self.bytes.push((len / 0x100_0000) as u8);
        self.bytes.push(((len / 0x1_0000) % 0x100) as u8);
        self.bytes.push(((len / 0x100) % 0x100) as u8);
        self.bytes.push((len % 0x100) as u8);
        assert(self.bytes@ =~= old(self).bytes@ + be32(n as int));
        let mut i: usize = 0;
        while i < n
            invariant
                i <= n,
                n == payload@.len(),
                start + 4 + n <= max_image_len(),
                self.synced == old(self).synced,
                self.id == old(self).id,
                self.cursor == old(self).cursor,
                self.bytes@ == old(self).bytes@ + be32(n as int) + payload@.take(i as int),
                start == old(self).bytes@.len(),
            decreases n - i,
        {
            self.bytes.push(payload[i]);
            assert(payload@.take(i + 1) =~= payload@.take(i as int).push(payload@[i as int]));
            assert(self.bytes@ =~= old(self).bytes@ + be32(n as int) + payload@.take(i + 1));
            i += 1;
        }
        assert(payload@.take(n as int) =~= payload@);
        assert(self.bytes@ =~= old(self).bytes@ + frame(payload@));
        self.cursor = self.bytes.len() as u64;
        start as u64
    }

    /// Reads the record at the cursor and moves the cursor past it. Where no
    /// whole record starts at the cursor, the result is `None` and the cursor
    /// moves to the end of the segment, unless it was beyond it: the end of
    /// the segment, clean or torn, is no error. A whole record that holds no
    /// JSON text is one.
    pub fn read_next(&mut self) -> (result: Result<Option<Vec<u8>>, SegmentError>)
        requires
            old(self).wf(),
        ensures
            final(self).wf(),
            final(self).segment_id() == old(self).segment_id(),
            final(self).contents() == old(self).contents(),
            final(self).durable_len() == old(self).durable_len(),
            match record_at(old(self).contents(), old(self).position() as int) {
                Some((p, next)) => {
                    &&& final(self).position() == next
                    &&& if is_json_text(p) {
                        result matches Ok(Some(v)) && v@ == p
                    } else {
                        result == Err::<Option<Vec<u8>>, SegmentError>(SegmentError::Corrupt)
                    }
                },
                None => {
                    &&& result == Ok::<Option<Vec<u8>>, SegmentError>(None)
                    &&& final(self).position() == if old(self).position()
                        < old(self).contents().len() {
                        old(self).contents().len() as int
                    } else {
                        old(self).position() as int
                    }
                },
            },
    {
        let len = self.bytes.len();
        if self.cursor > len as u64 {
            return Ok(None);
        }
        let pos = self.cursor as usize;
        if len - pos < 4 {
            self.cursor = len as u64;
            return Ok(None);
        }
        let ghost prefix = self.bytes@.subrange(pos as int, pos + 4);
        assert(prefix[0] == self.bytes@[pos as int]);
        assert(prefix[1] == self.bytes@[pos + 1]);
        assert(prefix[2] == self.bytes@[pos + 2]);
        assert(prefix[3] == self.bytes@[pos + 3]);
        let n: u64 = self.bytes[pos] as u64 * 0x100_0000 + self.bytes[pos + 1] as u64 * 0x1_0000
            + self.bytes[pos + 2] as u64 * 0x100 + self.bytes[pos + 3] as u64;
        if n > (len - pos - 4) as u64 {
            self.cursor = len as u64;
            return Ok(None);
        }
        let start = pos + 4;
        let count = n as usize;
        let mut out: Vec<u8> = Vec::new();
        let mut i: usize = 0;
        while i < count
            invariant
                i <= count,
                start + count <= self.bytes.len(),
                out@ == self.bytes@.subrange(start as int, start + i),
            decreases count - i,
        {
            out.push(self.bytes[start + i]);
            assert(self.bytes@.subrange(start as int, start + i + 1) =~= self.bytes@.subrange(
                start as int,
                start + i,
            ).push(self.bytes@[start + i]));
            i += 1;
        }
        self.cursor = (start + count) as u64;
        if !parses_as_json(out.as_slice()) {
            return Err(SegmentError::Corrupt);
        }
        Ok(Some(out))
    }

    /// The number that names the segment.
    pub fn id(&self) -> (id: u64)
        ensures
            id == self.segment_id(),
    {
        self.id
    }

    /// Moves the cursor to `offset`, counted from the start of the segment.
    pub fn seek(&mut self, offset: u64)
        ensures
            final(self).segment_id() == old(self).segment_id(),
            final(self).contents() == old(self).contents(),
            final(self).durable_len() == old(self).durable_len(),
            final(self).wf() == old(self).wf(),
            final(self).position() == offset,
    {
        self.cursor = offset;
    }

    /// The segment's length in bytes.
    pub fn size(&self) -> (n: u64)
        ensures
            n == self.contents().len(),
    {
        self.bytes.len() as u64
    }

    /// Marks every byte of the segment as durable. The caller has written the
    /// bytes to the file and flushed it.
    pub fn fsync(&mut self)
        ensures
            final(self).wf(),
            final(self).segment_id() == old(self).segment_id(),
            final(self).contents() == old(self).contents(),
            final(self).position() == old(self).position(),
            final(self).durable_len() == final(self).contents().len(),
    {
        self.synced = self.bytes.len();
    }

    /// The number of leading bytes that are durable.
    pub fn synced_len(&self) -> (n: u64)
        ensures
            n == self.durable_len(),
    {
        self.synced as u64
    }

    /// The segment's bytes, for the caller to write out.
    pub fn bytes(&self) -> (bytes: &Vec<u8>)
        ensures
            bytes@ == self.contents(),
    {
        &self.bytes
    }
}

} // verus!
