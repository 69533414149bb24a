//! The write-ahead log: a run of segments, of which the last one is active.
//!
//! The log holds the image of its active segment and the numbers of the
//! sealed ones. An append goes to the active segment; when the segment would
//! grow past its limit, it is sealed and a new one takes its place. A segment
//! is sealed only when all of it is durable.

use vstd::prelude::*;
use vstd::string::*;
use crate::lsn::Lsn;
use crate::names::{parse_segment_name, segment_id_of};
use crate::segment::{
    frame, is_json_text, max_image_len, record_at, records_from, Segment, MAX_PAYLOAD,
};

verus! {

/// Why the log refused an operation.
#[derive(Copy, Clone, Debug, PartialEq, Eq, Structural)]
pub enum WalError {
    /// The payload to append is no JSON text.
    NotJson,
    /// The payload does not fit a record, or the segment would outgrow memory.
    RecordTooLarge,
    /// The active segment is full and holds bytes that are not durable yet:
    /// it cannot be sealed before it is flushed.
    SealUnsynced,
    /// No number is left for a new segment.
    SegmentIdsExhausted,
    /// The segment that was handed over is not the one that was asked for.
    WrongSegment,
    /// A record that is whole holds no JSON text: the log is corrupt.
    Corrupt,
}

impl WalError {
    /// The error in words, as a value of specifications.
    pub open spec fn text(self) -> Seq<char> {
        match self {
            WalError::NotJson => "payload is no JSON text"@,
            WalError::RecordTooLarge => "record too large"@,
            WalError::SealUnsynced => "active segment is full and not flushed"@,
            WalError::SegmentIdsExhausted => "segment numbers exhausted"@,
            WalError::WrongSegment => "wrong segment"@,
            WalError::Corrupt => "corrupt WAL record"@,
        }
    }

    /// The error in words.
    pub fn message(&self) -> (text: String)
        ensures
            text@ == self.text(),
    {
        match self {
            WalError::NotJson => String::from_str("payload is no JSON text"),
            WalError::RecordTooLarge => String::from_str("record too large"),
            WalError::SealUnsynced => String::from_str("active segment is full and not flushed"),
            WalError::SegmentIdsExhausted => String::from_str("segment numbers exhausted"),
            WalError::WrongSegment => String::from_str("wrong segment"),
            WalError::Corrupt => String::from_str("corrupt WAL record"),
        }
    }
}

/// The segments that a list of file names stands for, in the list's order.
pub open spec fn ids_of(names: Seq<Seq<char>>) -> Seq<u64>
    decreases names.len(),
{
    if names.len() == 0 {
        Seq::empty()
    } else {
        match segment_id_of(names.last()) {
            Some(id) => ids_of(names.drop_last()).push(id),
            None => ids_of(names.drop_last()),
        }
    }
}

/// The largest of `ids`, or 0 where there is none.
pub open spec fn max_id(ids: Seq<u64>) -> u64
    decreases ids.len(),
{
    if ids.len() == 0 {
        0
    } else if ids.last() > max_id(ids.drop_last()) {
        ids.last()
    } else {
        max_id(ids.drop_last())
    }
}

/// Those of `ids` that are below `bound`, in their order.
pub open spec fn ids_below(ids: Seq<u64>, bound: u64) -> Seq<u64> {
    ids.filter(|id: u64| id < bound)
}

/// Those of `ids` that are not below `bound`, in their order.
pub open spec fn ids_from(ids: Seq<u64>, bound: u64) -> Seq<u64> {
    ids.filter(|id: u64| id >= bound)
}

/// The views of a list of names.
pub open spec fn names_view(names: Seq<String>) -> Seq<Seq<char>> {
    Seq::new(names.len(), |i: int| names[i]@)
}

/// Whether a record of `payload_len` bytes of payload no longer fits a
/// segment of `size` bytes that may hold `limit`.
pub open spec fn exceeds_limit(size: int, payload_len: int, limit: int) -> bool {
    size + 4 + payload_len > limit
}

/// No member of `ids` is above their maximum.
pub proof fn lemma_max_id_bounds(ids: Seq<u64>, i: int)
    requires
        0 <= i < ids.len(),
    ensures
        ids[i] <= max_id(ids),
    decreases ids.len(),
{
    if i < ids.len() - 1 {
        lemma_max_id_bounds(ids.drop_last(), i);
    }
}

/// The maximum of a list that is not empty is one of its members.
pub proof fn lemma_max_id_member(ids: Seq<u64>)
    requires
        ids.len() > 0,
    ensures
        ids.contains(max_id(ids)),
    decreases ids.len(),
{
    if ids.last() > max_id(ids.drop_last()) || ids.len() == 1 {
        if ids.len() == 1 {
            assert(max_id(ids.drop_last()) == 0);
        }
        if max_id(ids) == ids.last() {
            assert(ids[ids.len() - 1] == max_id(ids));
        } else {
            assert(ids.len() == 1);
            assert(ids.last() == 0);
            assert(ids[0] == max_id(ids));
        }
    } else {
        lemma_max_id_member(ids.drop_last());
        let j = choose|j: int| 0 <= j < ids.drop_last().len() && ids.drop_last()[j] == max_id(
            ids.drop_last(),
        );
        assert(ids[j] == max_id(ids));
    }
}

/// The log.
#[derive(Debug)]
pub struct Wal {
    active_segment: Segment,
    next_segment_id: u64,
    segment_size_limit: u64,
    sealed: Vec<u64>,
}

impl Wal {
    /// The active segment.
    pub closed spec fn active(&self) -> Segment {
        self.active_segment
    }

    /// The number of the active segment.
    pub open spec fn active_id(&self) -> u64 {
        self.active().segment_id()
    }

    /// The number that the next segment will get.
    pub closed spec fn next_id(&self) -> u64 {
        self.next_segment_id
    }

    /// The number of bytes that a segment may hold.
    pub closed spec fn limit(&self) -> u64 {
        self.segment_size_limit
    }

    /// The numbers of the sealed segments.
    pub closed spec fn sealed_ids(&self) -> Seq<u64> {
        self.sealed@
    }

    /// The active segment is the last one, and the next number is free.
    pub open spec fn wf(&self) -> bool {
        &&& self.active().wf()
        &&& self.active_id() < self.next_id()
        &&& forall|i: int|
            0 <= i < self.sealed_ids().len() ==> (#[trigger] self.sealed_ids()[i])
                < self.active_id()
    }

    /// Whether every byte of the active segment is durable.
    pub open spec fn all_durable(&self) -> bool {
        self.active().durable_len() == self.active().contents().len()
    }

    /// The address of the next append.
    pub open spec fn current(&self) -> Lsn {
        Lsn { segment: self.active_id(), offset: self.active().contents().len() as u64 }
    }

    /// The address that an accepted append of `payload_len` bytes of payload
    /// gets: the end of the active segment, or the start of the next segment
    /// where the record seals the active one.
    pub open spec fn current_after(&self, payload_len: int) -> Lsn {
        if exceeds_limit(
            self.active().contents().len() as int,
            payload_len,
            self.limit() as int,
        ) {
            Lsn { segment: self.next_id(), offset: 0 }
        } else {
            self.current()
        }
    }

    /// What an accepted append of `payload` does: `after` is the log that it
    /// leaves and `lsn` the address that it returns.
    pub open spec fn appends(&self, after: Wal, payload: Seq<u8>, lsn: Lsn) -> bool {
        let n = payload.len() as int;
        &&& self.append_error(payload) is None
        &&& lsn == self.current_after(n)
        &&& after.wf()
        &&& after.limit() == self.limit()
        &&& after.active_id() == lsn.segment
        &&& after.active().position() == after.active().contents().len()
        &&& if exceeds_limit(self.active().contents().len() as int, n, self.limit() as int) {
            &&& after.next_id() == self.next_id() + 1
            &&& after.sealed_ids() == self.sealed_ids().push(self.active_id())
            &&& after.active().contents() == frame(payload)
            &&& after.active().durable_len() == 0
        } else {
            &&& after.next_id() == self.next_id()
            &&& after.sealed_ids() == self.sealed_ids()
            &&& after.active().contents() == self.active().contents() + frame(payload)
            &&& after.active().durable_len() == self.active().durable_len()
        }
    }

    /// The address up to which the log is durable: what lies before it
    /// survives a crash.
    pub open spec fn durable(&self) -> Lsn {
        Lsn { segment: self.active_id(), offset: self.active().durable_len() as u64 }
    }

    /// Why an append of `payload` is refused, if it is. The payload must be a
    /// JSON text; its record must fit its length prefix and memory; a full
    /// segment is sealed only when it is durable and a number is left for the
    /// next one.
    pub open spec fn append_error(&self, payload: Seq<u8>) -> Option<WalError> {
        let payload_len = payload.len() as int;
        let size = self.active().contents().len() as int;
        let rotate = exceeds_limit(size, payload_len, self.limit() as int);
        if !is_json_text(payload) {
            Some(WalError::NotJson)
        } else if payload_len > MAX_PAYLOAD || (rotate && 4 + payload_len > max_image_len()) || (
        !rotate && size + 4 + payload_len > max_image_len()) {
            Some(WalError::RecordTooLarge)
        } else if rotate && self.active().durable_len() < size {
            Some(WalError::SealUnsynced)
        } else if rotate && self.next_id() == u64::MAX {
            Some(WalError::SegmentIdsExhausted)
        } else {
            None
        }
    }

    /// The segment that is or becomes the active one among the files named
    /// `names`: the highest-numbered one, or none where no name is a
    /// segment's.
    pub fn active_id_of(names: &Vec<String>) -> (id: Option<u64>)
        ensures
            match id {
                Some(id) => ids_of(names_view(names@)).len() > 0 && id == max_id(
                    ids_of(names_view(names@)),
                ),
                None => ids_of(names_view(names@)).len() == 0,
            },
    {
        let ids = Self::segment_ids(names);
        if ids.len() == 0 {
            None
        } else {
            Some(Self::largest(&ids))
        }
    }

    /// The segments that the file names `names` stand for.
    pub fn segment_ids(names: &Vec<String>) -> (ids: Vec<u64>)
        ensures
            ids@ == ids_of(names_view(names@)),
    {
        let mut ids: Vec<u64> = Vec::new();
        let mut i: usize = 0;
        let ghost all = names_view(names@);
        assert(all.take(0) =~= Seq::<Seq<char>>::empty());
        while i < names.len()
            invariant
                i <= names.len(),
                all == names_view(names@),
                ids@ == ids_of(all.take(i as int)),
            decreases names.len() - i,
        {
            assert(all.take(i + 1).drop_last() =~= all.take(i as int));
            assert(all.take(i + 1).last() == names[i as int]@);
            match parse_segment_name(names[i].as_str()) {
                Some(id) => {
                    ids.push(id);
                },
                None => {},
            }
            i += 1;
        }
        assert(all.take(names.len() as int) =~= all);
        ids
    }

    fn largest(ids: &Vec<u64>) -> (max: u64)
        ensures
            max == max_id(ids@),
    {
        let mut max: u64 = 0;
        let mut i: usize = 0;
        assert(ids@.take(0) =~= Seq::<u64>::empty());
        while i < ids.len()
            invariant
                i <= ids.len(),
                max == max_id(ids@.take(i as int)),
            decreases ids.len() - i,
        {
            assert(ids@.take(i + 1).drop_last() =~= ids@.take(i as int));
            if ids[i] > max {
                max = ids[i];
            }
            i += 1;
        }
        assert(ids@.take(ids.len() as int) =~= ids@);
        max
    }

    /// Opens the log over the files named `names`. The highest-numbered
    /// segment becomes the active one, with `active_bytes` as its contents;
    /// where no name is a segment's, segment 0 is created empty and
    /// `active_bytes` is not looked at. The other segments are sealed.
    pub fn open(names: &Vec<String>, active_bytes: Vec<u8>, segment_size_limit: u64) -> (result:
        Result<Self, WalError>)
        ensures
            match result {
                Ok(wal) => {
                    let ids = ids_of(names_view(names@));
                    &&& wal.wf()
                    &&& max_id(ids) < u64::MAX
                    &&& wal.active_id() == max_id(ids)
                    &&& ids.len() > 0 ==> ids.contains(wal.active_id())
                    &&& forall|i: int| 0 <= i < ids.len() ==> (#[trigger] ids[i]) <= wal.active_id()
                    &&& wal.next_id() == max_id(ids) + 1
                    &&& wal.limit() == segment_size_limit
                    &&& wal.sealed_ids() == ids_below(ids, max_id(ids))
                    &&& wal.active().contents() == if ids.len() == 0 {
                        Seq::<u8>::empty()
                    } else {
                        active_bytes@
                    }
                    &&& wal.active().position() == 0
                    &&& wal.active().durable_len() == wal.active().contents().len()
                },
                Err(e) => e == WalError::SegmentIdsExhausted && max_id(
                    ids_of(names_view(names@)),
                ) == u64::MAX,
            },
    {
        let ids = Self::segment_ids(names);
        let active_id = Self::largest(&ids);
        if active_id == u64::MAX {
            return Err(WalError::SegmentIdsExhausted);
        }
        let mut sealed: Vec<u64> = Vec::new();
        let mut i: usize = 0;
        let ghost below = |id: u64| id < active_id;
        assert(ids@.take(0) =~= Seq::<u64>::empty());
        while i < ids.len()
            invariant
                i <= ids.len(),
                below == (|id: u64| id < active_id),
                sealed@ == ids@.take(i as int).filter(below),
                forall|j: int| 0 <= j < sealed.len() ==> (#[trigger] sealed[j]) < active_id,
            decreases ids.len() - i,
        {
            assert(ids@.take(i + 1).drop_last() =~= ids@.take(i as int));
            proof {
                reveal(Seq::filter);
            }
            if ids[i] < active_id {
                sealed.push(ids[i]);
            }
            i += 1;
        }
        assert(ids@.take(ids.len() as int) =~= ids@);
        let active_segment = if ids.len() == 0 {
            Segment::create(active_id)
        } else {
            Segment::open(active_id, active_bytes)
        };
        proof {
            if ids.len() > 0 {
                lemma_max_id_member(ids@);
            }
            assert forall|i: int| 0 <= i < ids.len() implies (#[trigger] ids@[i]) <= active_id by {
                lemma_max_id_bounds(ids@, i);
            }
        }
        Ok(Wal { active_segment, next_segment_id: active_id + 1, segment_size_limit, sealed })
    }

    /// The active segment.
    pub fn active_segment(&self) -> (segment: &Segment)
        ensures
            *segment == self.active(),
    {
        &self.active_segment
    }

    /// The number of the active segment.
    pub fn active_segment_id(&self) -> (id: u64)
        ensures
            id == self.active_id(),
    {
        self.active_segment.id()
    }

    /// The numbers of the sealed segments.
    pub fn sealed_segments(&self) -> (ids: &Vec<u64>)
        ensures
            ids@ == self.sealed_ids(),
    {
        &self.sealed
    }

    /// The address of the next append.
    pub fn current_lsn(&self) -> (lsn: Lsn)
        ensures
            lsn == self.current(),
    {
        Lsn::new(self.active_segment.id(), self.active_segment.size())
    }

    /// The address up to which the log is durable.
    pub fn durable_lsn(&self) -> (lsn: Lsn)
        ensures
            lsn == self.durable(),
    {
        Lsn::new(self.active_segment.id(), self.active_segment.synced_len())
    }

    /// Whether every byte of the active segment is durable.
    pub fn is_synced(&self) -> (b: bool)
        ensures
            b == self.all_durable(),
    {
        self.active_segment.synced_len() == self.active_segment.size()
    }

    /// Whether a record of `payload_len` bytes of payload seals the active
    /// segment: with it the segment would outgrow its limit.
    pub fn needs_rotation(&self, payload_len: usize) -> (b: bool)
        ensures
            b == exceeds_limit(
                self.active().contents().len() as int,
                payload_len as int,
                self.limit() as int,
            ),
    {
        let size = self.active_segment.size();
        let limit = self.segment_size_limit;
        size > limit || limit - size < 4 || (limit - size - 4) < payload_len as u64
    }

    /// Marks the active segment as durable. The caller has written its bytes
    /// to the file and flushed it.
    pub fn fsync(&mut self)
        requires
            old(self).wf(),
        ensures
            final(self).wf(),
            final(self).active_id() == old(self).active_id(),
            final(self).next_id() == old(self).next_id(),
            final(self).limit() == old(self).limit(),
            final(self).sealed_ids() == old(self).sealed_ids(),
            final(self).active().contents() == old(self).active().contents(),
            final(self).active().position() == old(self).active().position(),
            final(self).all_durable(),
            final(self).durable() == final(self).current(),
    {
        self.active_segment.fsync();
        proof {
            assert forall|i: int| 0 <= i < self.sealed_ids().len() implies (
            #[trigger] self.sealed_ids()[i]) < self.active_id() by {
                assert(old(self).sealed_ids()[i] < old(self).active_id());
            }
        }
    }

    fn rotate(&mut self)
        requires
            old(self).wf(),
            old(self).next_id() < u64::MAX,
            old(self).all_durable(),
        ensures
            final(self).wf(),
            final(self).active_id() == old(self).next_id(),
            final(self).next_id() == old(self).next_id() + 1,
            final(self).limit() == old(self).limit(),
            final(self).sealed_ids() == old(self).sealed_ids().push(old(self).active_id()),
            final(self).active().contents() == Seq::<u8>::empty(),
            final(self).active().position() == 0,
            final(self).active().durable_len() == 0,
    {
        let new_id = self.next_segment_id;
        self.sealed.push(self.active_segment.id());
        self.next_segment_id = new_id + 1;
        self.active_segment = Segment::create(new_id);
        proof {
            assert forall|i: int| 0 <= i < self.sealed_ids().len() implies (
            #[trigger] self.sealed_ids()[i]) < self.active_id() by {
                if i < old(self).sealed_ids().len() {
                    assert(old(self).sealed_ids()[i] < old(self).active_id());
                }
            }
        }
    }

    /// Appends the record that carries `payload` and returns its address.
    /// Where the record would take the active segment past its limit, the
    /// segment is sealed first and the record opens a new one. Nothing
    /// becomes durable. A refused append changes nothing.
    pub fn append(&mut self, payload: &[u8]) -> (result: Result<Lsn, WalError>)
        requires
            old(self).wf(),
        ensures
            final(self).wf(),
            match result {
                Ok(lsn) => old(self).appends(*final(self), payload@, lsn),
                Err(e) => {
                    &&& old(self).append_error(payload@) == Some(e)
                    &&& *final(self) == *old(self)
                },
            },
    {
        if !crate::segment::parses_as_json(payload) {
            return Err(WalError::NotJson);
        }
        let n = payload.len();
        let rotate = self.needs_rotation(n);
        let size = self.active_segment.size();
        let room: usize = isize::MAX as usize;
        if n as u64 > MAX_PAYLOAD || n > room - 4 || (!rotate && size > (room - 4 - n) as u64) {
            return Err(WalError::RecordTooLarge);
        }
        if rotate {
            if !self.is_synced() {
                return Err(WalError::SealUnsynced);
            }
            if self.next_segment_id == u64::MAX {
                return Err(WalError::SegmentIdsExhausted);
            }
            self.rotate();
        }
        let ghost sealed_now = self.sealed_ids();
        let ghost active_now = self.active_id();
        let offset = self.active_segment.write_record(payload);
        proof {
            assert forall|i: int| 0 <= i < self.sealed_ids().len() implies (
            #[trigger] self.sealed_ids()[i]) < self.active_id() by {
                assert(sealed_now[i] < active_now);
            }
        }
        Ok(Lsn::new(self.active_segment.id(), offset))
    }

    /// Drops the sealed segments that lie wholly before `upto` and returns
    /// their numbers: the files that the caller may now delete. The active
    /// segment is never among them.
    pub fn gc(&mut self, upto: Lsn) -> (removed: Vec<u64>)
        requires
            old(self).wf(),
        ensures
            final(self).wf(),
            final(self).active() == old(self).active(),
            final(self).next_id() == old(self).next_id(),
            final(self).limit() == old(self).limit(),
            removed@ == ids_below(old(self).sealed_ids(), upto.segment),
            final(self).sealed_ids() == ids_from(old(self).sealed_ids(), upto.segment),
            forall|i: int|
                0 <= i < removed.len() ==> (#[trigger] removed[i]) < upto.segment && removed[i]
                    < final(self).active_id(),
            forall|i: int|
                0 <= i < final(self).sealed_ids().len() ==> (#[trigger] final(self).sealed_ids()[i])
                    >= upto.segment,
    {
        let mut removed: Vec<u64> = Vec::new();
        let mut kept: Vec<u64> = Vec::new();
        let bound = upto.segment;
        let ghost below = |id: u64| id < bound;
        let ghost from = |id: u64| id >= bound;
        let ghost all = self.sealed@;
        let ghost active_id = self.active_id();
        let mut i: usize = 0;
        assert(all.take(0) =~= Seq::<u64>::empty());
        assert forall|j: int| 0 <= j < all.len() implies (#[trigger] all[j]) < active_id by {
            assert(self.sealed_ids()[j] < self.active_id());
        }
        while i < self.sealed.len()
            invariant
                i <= self.sealed.len(),
                all == self.sealed@,
                below == (|id: u64| id < bound),
                from == (|id: u64| id >= bound),
                forall|j: int| 0 <= j < all.len() ==> (#[trigger] all[j]) < active_id,
                removed@ == all.take(i as int).filter(below),
                kept@ == all.take(i as int).filter(from),
                forall|j: int|
                    0 <= j < removed.len() ==> (#[trigger] removed[j]) < bound && removed[j]
                        < active_id,
                forall|j: int|
                    0 <= j < kept.len() ==> (#[trigger] kept[j]) >= bound && kept[j] < active_id,
            decreases self.sealed.len() - i,
        {
            assert(all.take(i + 1).drop_last() =~= all.take(i as int));
            proof {
                reveal(Seq::filter);
            }
            let id = self.sealed[i];
            if id < bound {
                removed.push(id);
            } else {
                kept.push(id);
            }
            i += 1;
        }
        assert(all.take(all.len() as int) =~= all);
        self.sealed = kept;
        removed
    }
}

/// An accepted append returns an address at or after the one that was
/// current before it, and before the one that is current after it.
pub proof fn lemma_append_advances(before: Wal, after: Wal, payload: Seq<u8>, lsn: Lsn)
    requires
        before.wf(),
        before.appends(after, payload, lsn),
    ensures
        before.current().le(lsn),
        lsn.lt(after.current()),
{
    crate::segment::lemma_be32_round_trip(payload.len() as int);
    assert(frame(payload).len() == 4 + payload.len());
}

/// The addresses of appends grow: of any two accepted appends in a run of
/// them, the earlier one returns the smaller address.
pub proof fn lemma_lsn_monotonic(
    states: Seq<Wal>,
    payloads: Seq<Seq<u8>>,
    lsns: Seq<Lsn>,
    i: int,
    j: int,
)
    requires
        states.len() == lsns.len() + 1,
        payloads.len() == lsns.len(),
        states[0].wf(),
        forall|k: int|
            0 <= k < lsns.len() ==> (#[trigger] states[k]).appends(
                states[k + 1],
                payloads[k],
                lsns[k],
            ),
        0 <= i < j < lsns.len(),
    ensures
        lsns[i].lt(lsns[j]),
    decreases j - i,
{
    assert forall|k: int| 0 <= k <= lsns.len() implies (#[trigger] states[k]).wf() by {
        if k > 0 {
            assert(states[k - 1].appends(states[k], payloads[k - 1], lsns[k - 1]));
        }
    }
    assert(states[j].appends(states[j + 1], payloads[j], lsns[j]));
    lemma_append_advances(states[j], states[j + 1], payloads[j], lsns[j]);
    if j == i + 1 {
        assert(states[i].appends(states[i + 1], payloads[i], lsns[i]));
        lemma_append_advances(states[i], states[i + 1], payloads[i], lsns[i]);
    } else {
        lemma_lsn_monotonic(states, payloads, lsns, i, j - 1);
        assert(states[j - 1].appends(states[j], payloads[j - 1], lsns[j - 1]));
        lemma_append_advances(states[j - 1], states[j], payloads[j - 1], lsns[j - 1]);
    }
}

/// An appended record is read back at the address that the append returned,
/// in the segment that is active after it.
pub proof fn lemma_appended_record_is_read(before: Wal, after: Wal, payload: Seq<u8>, lsn: Lsn)
    requires
        before.wf(),
        before.appends(after, payload, lsn),
    ensures
        lsn.segment == after.active_id(),
        record_at(after.active().contents(), lsn.offset as int) == Some(
            (payload, (lsn.offset + 4 + payload.len()) as int),
        ),
{
    let size = before.active().contents().len() as int;
    if exceeds_limit(size, payload.len() as int, before.limit() as int) {
        crate::segment::lemma_record_at_frame(Seq::empty(), payload, Seq::empty());
        assert(Seq::<u8>::empty() + frame(payload) + Seq::<u8>::empty() =~= frame(payload));
    } else {
        crate::segment::lemma_record_at_frame(before.active().contents(), payload, Seq::empty());
        assert(before.active().contents() + frame(payload) + Seq::<u8>::empty()
            =~= before.active().contents() + frame(payload));
    }
}

/// A flushed record survives a crash. Let a record be appended to a clean
/// segment, and more bytes behind it; let a crash leave `kept` bytes of the
/// segment, at least all of the record. Then the record is still read at its
/// address, and a replay of what is left yields all that the segment yielded
/// before the record, then the record's payload, and only then what it finds
/// behind the record.
pub proof fn lemma_flushed_record_survives_crash(
    bytes: Seq<u8>,
    payload: Seq<u8>,
    later: Seq<u8>,
    kept: int,
    pos: int,
)
    requires
        0 <= pos,
        crate::segment::clean_from(bytes, pos),
        payload.len() <= MAX_PAYLOAD,
        bytes.len() + 4 + payload.len() <= kept <= (bytes + frame(payload) + later).len(),
    ensures
        record_at((bytes + frame(payload) + later).take(kept), bytes.len() as int) == Some(
            (payload, (bytes.len() + 4 + payload.len()) as int),
        ),
        records_from((bytes + frame(payload) + later).take(kept), pos) == records_from(
            bytes,
            pos,
        ).push(payload) + records_from(
            (bytes + frame(payload) + later).take(kept),
            (bytes.len() + 4 + payload.len()) as int,
        ),
{
    let whole = bytes + frame(payload);
    let left = (whole + later).take(kept);
    crate::segment::lemma_be32_round_trip(payload.len() as int);
    let rest = later.take(kept - whole.len());
    assert(left =~= whole + rest);
    crate::segment::lemma_record_at_frame(bytes, payload, rest);
    crate::segment::lemma_records_append(bytes, payload, pos);
    crate::segment::lemma_records_extend(whole, rest, pos);
}

proof fn lemma_filter_settled(ids: Seq<u64>, bound: u64)
    requires
        forall|i: int| 0 <= i < ids.len() ==> (#[trigger] ids[i]) >= bound,
    ensures
        ids_below(ids, bound) == Seq::<u64>::empty(),
        ids_from(ids, bound) == ids,
    decreases ids.len(),
{
    reveal(Seq::filter);
    if ids.len() > 0 {
        lemma_filter_settled(ids.drop_last(), bound);
        assert(ids.last() >= bound);
        assert(ids.drop_last().push(ids.last()) =~= ids);
    } else {
        assert(ids =~= Seq::<u64>::empty());
    }
}

/// Collecting twice is collecting once: behind a collection up to `bound`,
/// a second one up to the same bound finds nothing to delete and keeps what
/// was kept.
pub proof fn lemma_gc_idempotent(ids: Seq<u64>, bound: u64)
    ensures
        ids_below(ids_from(ids, bound), bound) == Seq::<u64>::empty(),
        ids_from(ids_from(ids, bound), bound) == ids_from(ids, bound),
{
    let kept = ids_from(ids, bound);
    assert forall|i: int| 0 <= i < kept.len() implies (#[trigger] kept[i]) >= bound by {
        ids.lemma_filter_pred(|id: u64| id >= bound, i);
    }
    lemma_filter_settled(kept, bound);
}

} // verus!
