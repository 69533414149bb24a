//! Replay: reading the log back, record by record and segment by segment.

use vstd::prelude::*;
use crate::lsn::Lsn;
use crate::segment::{
    clean_from, frame, is_json_text, lemma_records_extend, lemma_records_torn_tail, record_at,
    records_from, Segment, MAX_PAYLOAD,
};
use crate::sequence::{holds_rest, reversed, take_next};
use crate::wal::{Wal, WalError};

verus! {

/// The bytes of the log's segments, by their numbers.
pub type Disk = Map<u64, Seq<u8>>;

/// The payloads that a replay yields which starts at `from` and ends with
/// segment `last`: what the segment of `from` holds from that offset on, and
/// then each later segment from its start. A segment that is missing yields
/// nothing.
pub open spec fn replay(disk: Disk, from: Lsn, last: u64) -> Seq<Seq<u8>>
    decreases last - from.segment,
{
    if from.segment > last {
        Seq::empty()
    } else {
        let here = if disk.contains_key(from.segment) {
            records_from(disk[from.segment], from.offset as int)
        } else {
            Seq::empty()
        };
        if from.segment == last {
            here
        } else {
            here + replay(disk, Lsn { segment: (from.segment + 1) as u64, offset: 0 }, last)
        }
    }
}

/// Whether `segments` are the segments from `first` up to `last`, each once
/// and in order.
pub open spec fn spans(segments: Seq<Segment>, first: u64, last: u64) -> bool {
    &&& segments.len() > 0
    &&& first + segments.len() == last + 1
    &&& consecutive_from(segments, first)
}

/// Whether `segments` are the segments `first`, `first + 1`, ... in order.
pub open spec fn consecutive_from(segments: Seq<Segment>, first: u64) -> bool {
    forall|i: int| 0 <= i < segments.len() ==> (#[trigger] segments[i]).segment_id() == first + i
}

/// The bytes of consecutive segments, by their numbers.
pub open spec fn disk_of(segments: Seq<Segment>, first: u64) -> Disk {
    Map::new(
        |id: u64| first <= id < first + segments.len(),
        |id: u64| segments[id - first].contents(),
    )
}

/// The views of a list of payloads.
pub open spec fn payloads_view(payloads: Seq<Vec<u8>>) -> Seq<Seq<u8>> {
    Seq::new(payloads.len(), |i: int| payloads[i]@)
}

/// What a replay does next.
#[derive(Debug)]
pub enum ReplayStep {
    /// The payload of the next record.
    Record(Vec<u8>),
    /// The current segment is read to its end, clean or torn; the replay goes
    /// on in the segment with this number, which the caller hands over.
    NextSegment(u64),
    /// The active segment is read to its end: the replay is over.
    End,
}

/// A replay of the log: finite, and read once from front to back.
#[derive(Debug)]
pub struct WalIterator {
    current_segment: Segment,
    last_segment_id: u64,
}

impl WalIterator {
    /// The segment that is being read.
    pub closed spec fn segment(&self) -> Segment {
        self.current_segment
    }

    /// The number of the segment that is being read.
    pub open spec fn segment_id(&self) -> u64 {
        self.segment().segment_id()
    }

    /// The number of the last segment of the replay.
    pub closed spec fn last_id(&self) -> u64 {
        self.last_segment_id
    }

    /// The segment that is being read is well formed.
    pub open spec fn wf(&self) -> bool {
        self.segment().wf()
    }

    /// Reads the next record. At the end of a segment that is not the last,
    /// the step names the segment to go on with; it names it again on every
    /// call until that segment is handed over.
    pub fn next_event(&mut self) -> (result: Result<ReplayStep, WalError>)
        requires
            old(self).wf(),
        ensures
            final(self).wf(),
            final(self).last_id() == old(self).last_id(),
            final(self).segment().segment_id() == old(self).segment().segment_id(),
            final(self).segment().contents() == old(self).segment().contents(),
            match record_at(
                old(self).segment().contents(),
                old(self).segment().position() as int,
            ) {
                Some((payload, next)) => {
                    &&& final(self).segment().position() == next
                    &&& if is_json_text(payload) {
                        result matches Ok(ReplayStep::Record(p)) && p@ == payload
                    } else {
                        result matches Err(e) && e == WalError::Corrupt
                    }
                },
                None => {
                    &&& result matches Ok(step)
                    &&& record_at(
                        final(self).segment().contents(),
                        final(self).segment().position() as int,
                    ) is None
                    &&& if old(self).segment().segment_id() < old(self).last_id() {
                        step matches ReplayStep::NextSegment(id) && id == old(self).segment_id()
                            + 1
                    } else {
                        step is End
                    }
                },
            },
    {
        match self.current_segment.read_next() {
            Ok(Some(payload)) => Ok(ReplayStep::Record(payload)),
            Ok(None) => {
                if self.current_segment.id() >= self.last_segment_id {
                    Ok(ReplayStep::End)
                } else {
                    Ok(ReplayStep::NextSegment(self.current_segment.id() + 1))
                }
            },
            Err(_) => Err(WalError::Corrupt),
        }
    }

    /// Goes on in `segment`, from its start. It must be the segment after the
    /// current one, and not beyond the last; else nothing changes.
    pub fn enter(&mut self, segment: Segment) -> (result: Result<(), WalError>)
        requires
            old(self).wf(),
            segment.wf(),
        ensures
            final(self).wf(),
            final(self).last_id() == old(self).last_id(),
            match result {
                Ok(()) => {
                    &&& old(self).segment().segment_id() < old(self).last_id()
                    &&& segment.segment_id() == old(self).segment().segment_id() + 1
                    &&& final(self).segment().segment_id() == segment.segment_id()
                    &&& final(self).segment().contents() == segment.contents()
                    &&& final(self).segment().position() == 0
                },
                Err(e) => {
                    &&& e == WalError::WrongSegment
                    &&& !(old(self).segment().segment_id() < old(self).last_id()
                        && segment.segment_id() == old(self).segment().segment_id() + 1)
                    &&& *final(self) == *old(self)
                },
            },
    {
        let current = self.current_segment.id();
        if current >= self.last_segment_id || segment.id() != current + 1 {
            return Err(WalError::WrongSegment);
        }
        let mut segment = segment;
        segment.seek(0);
        self.current_segment = segment;
        Ok(())
    }
}

impl Wal {
    /// Starts a replay at `lsn`. `first` is the segment that `lsn` lies in;
    /// the replay reads it from `lsn`'s offset on and goes on through the
    /// segments after it, up to the active one.
    pub fn replay_from(&self, lsn: Lsn, first: Segment) -> (result: Result<WalIterator, WalError>)
        requires
            first.wf(),
        ensures
            match result {
                Ok(iter) => {
                    &&& first.segment_id() == lsn.segment
                    &&& iter.wf()
                    &&& iter.segment().segment_id() == lsn.segment
                    &&& iter.segment().contents() == first.contents()
                    &&& iter.segment().position() == lsn.offset
                    &&& iter.last_id() == self.active_id()
                },
                Err(e) => e == WalError::WrongSegment && first.segment_id() != lsn.segment,
            },
    {
        if first.id() != lsn.segment {
            return Err(WalError::WrongSegment);
        }
        let mut segment = first;
        segment.seek(lsn.offset);
        Ok(WalIterator { current_segment: segment, last_segment_id: self.active_segment_id() })
    }

    /// Starts a replay at the start of the log. `first` is segment 0.
    pub fn replay_all(&self, first: Segment) -> (result: Result<WalIterator, WalError>)
        requires
            first.wf(),
        ensures
            match result {
                Ok(iter) => {
                    &&& first.segment_id() == 0
                    &&& iter.wf()
                    &&& iter.segment().segment_id() == 0
                    &&& iter.segment().contents() == first.contents()
                    &&& iter.segment().position() == 0
                    &&& iter.last_id() == self.active_id()
                },
                Err(e) => e == WalError::WrongSegment && first.segment_id() != 0,
            },
    {
        self.replay_from(Lsn::zero(), first)
    }

    /// Replays the log from `lsn` on, over the images of its segments:
    /// `segments` holds the segment of `lsn` and every segment after it up
    /// to the active one, in order. The result is what the replay yields; a
    /// whole record that holds no JSON text fails the replay.
    pub fn replay_segments(&self, lsn: Lsn, segments: Vec<Segment>) -> (result: Result<
        Vec<Vec<u8>>,
        WalError,
    >)
        requires
            forall|i: int| 0 <= i < segments.len() ==> (#[trigger] segments[i]).wf(),
        ensures
            match result {
                Ok(payloads) => {
                    &&& spans(segments@, lsn.segment, self.active_id())
                    &&& payloads_view(payloads@) == replay(
                        disk_of(segments@, lsn.segment),
                        lsn,
                        self.active_id(),
                    )
                    &&& forall|i: int|
                        0 <= i < payloads.len() ==> is_json_text((#[trigger] payloads[i])@)
                },
                Err(e) => if spans(segments@, lsn.segment, self.active_id()) {
                    &&& e == WalError::Corrupt
                    &&& exists|i: int|
                        0 <= i < replay(
                            disk_of(segments@, lsn.segment),
                            lsn,
                            self.active_id(),
                        ).len() && !is_json_text(
                            #[trigger] replay(
                                disk_of(segments@, lsn.segment),
                                lsn,
                                self.active_id(),
                            )[i],
                        )
                } else {
                    e == WalError::WrongSegment
                },
            },
    {
        let last = self.active_segment_id();
        if lsn.segment > last || segments.len() == 0 || (segments.len() - 1) as u64 != last
            - lsn.segment {
            return Err(WalError::WrongSegment);
        }
        let ghost all = segments@;
        let ghost disk = disk_of(all, lsn.segment);
        let mut k: usize = 0;
        while k < segments.len()
            invariant
                k <= segments.len(),
                lsn.segment + segments.len() == last + 1,
                forall|i: int|
                    0 <= i < k ==> (#[trigger] segments[i]).segment_id() == lsn.segment + i,
            decreases segments.len() - k,
        {
            if segments[k].id() != lsn.segment + k as u64 {
                return Err(WalError::WrongSegment);
            }
            k += 1;
        }
        assert(spans(segments@, lsn.segment, last));
        let mut rest = reversed(segments);
        let first = take_next(&mut rest, Ghost(all), Ghost(0));
        let mut iter = match self.replay_from(lsn, first) {
            Ok(iter) => iter,
            Err(e) => {
                assert(false);
                return Err(e);
            },
        };
        let mut payloads: Vec<Vec<u8>> = Vec::new();
        assert(payloads_view(payloads@) =~= Seq::<Seq<u8>>::empty());
        assert(Seq::<Seq<u8>>::empty() + replay(disk, lsn, last) =~= replay(disk, lsn, last));
        loop
            invariant
                all == segments@,
                spans(all, lsn.segment, last),
                iter.wf(),
                iter.last_id() == last,
                last == self.active_id(),
                disk == disk_of(all, lsn.segment),
                forall|i: int| 0 <= i < all.len() ==> (#[trigger] all[i]).wf(),
                rest.len() < all.len(),
                holds_rest(rest@, all, all.len() - rest.len()),
                iter.segment().segment_id() == lsn.segment + (all.len() - 1 - rest.len()),
                iter.segment().contents() == all[all.len() - 1 - rest.len()].contents(),
                forall|i: int| 0 <= i < payloads.len() ==> is_json_text((#[trigger] payloads[i])@),
                payloads_view(payloads@) + replay(
                    disk,
                    Lsn {
                        segment: iter.segment().segment_id(),
                        offset: iter.segment().position(),
                    },
                    last,
                ) == replay(disk, lsn, last),
            decreases rest.len(), iter.segment().contents().len() - iter.segment().position(),
        {
            let ghost here = Lsn {
                segment: iter.segment().segment_id(),
                offset: iter.segment().position(),
            };
            let ghost before = payloads_view(payloads@);
            proof {
                assert(disk.contains_key(here.segment));
                assert(disk[here.segment] == iter.segment().contents());
                lemma_replay_step(disk, here, last);
            }
            match iter.next_event() {
                Ok(ReplayStep::Record(payload)) => {
                    payloads.push(payload);
                    proof {
                        let next = Lsn {
                            segment: iter.segment().segment_id(),
                            offset: iter.segment().position(),
                        };
                        assert(payloads_view(payloads@) =~= before + seq![payload@]);
                        assert((before + seq![payload@]) + replay(disk, next, last) =~= before + (
                        seq![payload@] + replay(disk, next, last)));
                    }
                },
                Ok(ReplayStep::NextSegment(id)) => {
                    if rest.len() == 0 {
                        assert(false);
                        return Err(WalError::WrongSegment);
                    }
                    let ghost index = all.len() - rest.len();
                    let segment = take_next(&mut rest, Ghost(all), Ghost(index));
                    match iter.enter(segment) {
                        Ok(()) => {},
                        Err(e) => {
                            assert(false);
                            return Err(e);
                        },
                    }
                },
                Ok(ReplayStep::End) => {
                    assert(rest.len() == 0);
                    assert(before + Seq::<Seq<u8>>::empty() =~= before);
                    return Ok(payloads);
                },
                Err(e) => {
                    proof {
                        let whole = replay(disk, lsn, last);
                        let bad = record_at(disk[here.segment], here.offset as int)->Some_0.0;
                        let after = Lsn {
                            segment: iter.segment().segment_id(),
                            offset: iter.segment().position(),
                        };
                        assert(whole == before + (seq![bad] + replay(disk, after, last)));
                        assert(whole[before.len() as int] == bad);
                        assert(!is_json_text(whole[before.len() as int]));
                    }
                    return Err(e);
                },
            }
        }
    }
}

/// Deleting segments that lie wholly before an address takes nothing from a
/// replay that starts at that address.
pub proof fn lemma_gc_keeps_replay(disk: Disk, removed: Set<u64>, from: Lsn, last: u64)
    requires
        forall|id: u64| removed.contains(id) ==> id < from.segment,
    ensures
        replay(disk.remove_keys(removed), from, last) == replay(disk, from, last),
    decreases last - from.segment,
{
    if from.segment < last {
        lemma_gc_keeps_replay(
            disk,
            removed,
            Lsn { segment: (from.segment + 1) as u64, offset: 0 },
            last,
        );
    }
}

/// One step of a replay. Where a record starts at the replay's position, the
/// replay yields its payload and goes on behind it. Where none does, the
/// replay goes on at the start of the next segment, or has ended in the last.
pub proof fn lemma_replay_step(disk: Disk, from: Lsn, last: u64)
    requires
        from.segment <= last,
        disk.contains_key(from.segment),
    ensures
        match record_at(disk[from.segment], from.offset as int) {
            Some((payload, next)) => next <= u64::MAX ==> replay(disk, from, last) == seq![
                payload,
            ] + replay(disk, Lsn { segment: from.segment, offset: next as u64 }, last),
            None => replay(disk, from, last) == if from.segment < last {
                replay(disk, Lsn { segment: (from.segment + 1) as u64, offset: 0 }, last)
            } else {
                Seq::empty()
            },
        },
{
    let bytes = disk[from.segment];
    match record_at(bytes, from.offset as int) {
        Some((payload, next)) => {
            if next <= u64::MAX {
                let behind = Lsn { segment: (from.segment + 1) as u64, offset: 0 };
                let rest = replay(disk, behind, last);
                if from.segment < last {
                    assert((seq![payload] + records_from(bytes, next)) + rest =~= seq![payload]
                        + (records_from(bytes, next) + rest));
                }
            }
        },
        None => {
            if from.segment < last {
                let behind = Lsn { segment: (from.segment + 1) as u64, offset: 0 };
                let rest = replay(disk, behind, last);
                assert(Seq::<Seq<u8>>::empty() + rest =~= rest);
            }
        },
    }
}

/// A replay through several segments is the replay up to one of them,
/// followed by the replay from the start of the next.
pub proof fn lemma_replay_concat(disk: Disk, from: Lsn, mid: u64, last: u64)
    requires
        from.segment <= mid < last,
    ensures
        replay(disk, from, last) == replay(disk, from, mid) + replay(
            disk,
            Lsn { segment: (mid + 1) as u64, offset: 0 },
            last,
        ),
    decreases mid - from.segment,
{
    let tail = replay(disk, Lsn { segment: (mid + 1) as u64, offset: 0 }, last);
    if from.segment < mid {
        let next = Lsn { segment: (from.segment + 1) as u64, offset: 0 };
        lemma_replay_concat(disk, next, mid, last);
        let here = if disk.contains_key(from.segment) {
            records_from(disk[from.segment], from.offset as int)
        } else {
            Seq::empty()
        };
        assert(here + (replay(disk, next, mid) + tail) =~= (here + replay(disk, next, mid)) + tail);
    }
}

/// A partial record at the end of the last segment is discarded: the replay
/// yields what it yields without it.
pub proof fn lemma_replay_torn_tail(
    disk: Disk,
    from: Lsn,
    last: u64,
    payload: Seq<u8>,
    kept: int,
)
    requires
        from.segment <= last,
        disk.contains_key(last),
        clean_from(
            disk[last],
            if from.segment == last {
                from.offset as int
            } else {
                0
            },
        ),
        payload.len() <= MAX_PAYLOAD,
        0 <= kept < frame(payload).len(),
    ensures
        replay(disk.insert(last, disk[last] + frame(payload).take(kept)), from, last) == replay(
            disk,
            from,
            last,
        ),
    decreases last - from.segment,
{
    let torn = disk.insert(last, disk[last] + frame(payload).take(kept));
    if from.segment == last {
        lemma_records_torn_tail(disk[last], payload, kept, from.offset as int);
    } else {
        lemma_replay_torn_tail(
            disk,
            Lsn { segment: (from.segment + 1) as u64, offset: 0 },
            last,
            payload,
            kept,
        );
        assert(torn.contains_key(from.segment) == disk.contains_key(from.segment));
    }
}

/// The log splits at a snapshot's address. Let the log have been clean when
/// the snapshot was taken at `at`, the end of the segment that was active
/// then, and let it have grown since: nothing changed before `at`. Then a
/// replay of the whole log is the replay of the log as it was then, followed
/// by the replay from `at` on.
pub proof fn lemma_replay_splits_at_snapshot(
    then: Disk,
    now: Disk,
    more: Seq<u8>,
    from: Lsn,
    at: Lsn,
    last: u64,
)
    requires
        from.segment <= at.segment <= last,
        then.contains_key(at.segment),
        now.contains_key(at.segment),
        at.offset == then[at.segment].len(),
        now[at.segment] == then[at.segment] + more,
        clean_from(
            then[at.segment],
            if from.segment == at.segment {
                from.offset as int
            } else {
                0
            },
        ),
        forall|id: u64|
            #![trigger now.contains_key(id)]
            id < at.segment ==> now.contains_key(id) == then.contains_key(id) && (
            then.contains_key(id) ==> now[id] == then[id]),
    ensures
        replay(now, from, last) == replay(then, from, at.segment) + replay(now, at, last),
    decreases at.segment - from.segment,
{
    let tail = if at.segment < last {
        replay(now, Lsn { segment: (at.segment + 1) as u64, offset: 0 }, last)
    } else {
        Seq::empty()
    };
    if from.segment == at.segment {
        let seg = then[at.segment];
        lemma_records_extend(seg, more, from.offset as int);
        let a = records_from(seg, from.offset as int);
        let b = records_from(now[at.segment], at.offset as int);
        assert((a + b) + tail =~= a + (b + tail));
        assert(b + Seq::<Seq<u8>>::empty() =~= b);
        assert(a + b + Seq::<Seq<u8>>::empty() =~= a + b);
    } else {
        let next = Lsn { segment: (from.segment + 1) as u64, offset: 0 };
        lemma_replay_splits_at_snapshot(then, now, more, next, at, last);
        assert(now.contains_key(from.segment) == then.contains_key(from.segment));
        let here = if then.contains_key(from.segment) {
            records_from(then[from.segment], from.offset as int)
        } else {
            Seq::empty()
        };
        assert(here + (replay(then, next, at.segment) + replay(now, at, last)) =~= (here + replay(
            then,
            next,
            at.segment,
        )) + replay(now, at, last));
    }
}

} // verus!
