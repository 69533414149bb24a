//! The single writer: the queue of writes that wait for durability, and the
//! group commit that acknowledges them.
//!
//! A write is recorded in the log and queued with the handle on which its
//! client waits. At each tick the log is flushed once for the whole queue.
//! Where the flush succeeds, each queued write is applied to the index and
//! acknowledged, in the order of arrival; where it fails, each is refused and
//! the index stays as it is. `R` is the type of the reply handles.

use vstd::prelude::*;
use crate::db::{command_event, command_key, Database, DbError, WriteCommand};
use crate::event::{events_view, Document, Event, EventView};
use crate::kv::{apply_all, Index};
use crate::lsn::Lsn;
use crate::segment::{lemma_record_at_extend, record_at};
use crate::sequence::{holds_rest, reversed, take_next};
use crate::snapshot::Snapshot;
use crate::wal::{lemma_append_advances, lemma_appended_record_is_read, Wal};

verus! {

/// A write that is recorded in the log and waits for durability.
pub struct PendingWrite<R> {
    pub event: Event,
    pub lsn: Lsn,
    pub resp: R,
    /// The bytes that were recorded for the event.
    pub payload: Ghost<Seq<u8>>,
}

impl<R> PendingWrite<R> {
    /// Whether the write's payload is a JSON text and its record is whole in
    /// `log`, at the write's address. Nothing is said of a record in a sealed
    /// segment: the log does not hold that segment's bytes.
    pub open spec fn recorded_in(self, log: Wal) -> bool {
        &&& crate::segment::is_json_text(self.payload@)
        &&& self.lsn.segment == log.active_id() ==> record_at(
            log.active().contents(),
            self.lsn.offset as int,
        ) == Some((self.payload@, (self.lsn.offset + 4 + self.payload@.len()) as int))
    }
}

/// The answer to one write: the handle to answer on, and the answer.
pub struct Reply<R> {
    pub resp: R,
    pub result: Result<(), DbError>,
}

/// What a tick did: the answers to send, the events to hand to the
/// subscribers, and how often a snapshot is to be triggered.
pub struct TickReport<R> {
    pub replies: Vec<Reply<R>>,
    pub events: Vec<Event>,
    pub snapshot_triggers: u64,
}

/// The events of a queue of writes, in the queue's order.
pub open spec fn pending_events<R>(pending: Seq<PendingWrite<R>>) -> Seq<EventView> {
    Seq::new(pending.len(), |i: int| pending[i].event@)
}

/// Why the durability barrier fails, if it does: a failure was asked for, or
/// the flush failed.
pub open spec fn barrier_error(db: Database, flushed: bool) -> Option<DbError> {
    if db.failure_armed() {
        Some(DbError::InjectedFsyncFailure)
    } else if !flushed {
        Some(DbError::FlushFailed)
    } else {
        None
    }
}

/// Whether `n` more acknowledged writes take the count of writes from
/// `before` to `after` and trigger `triggers` snapshots. The count goes up by
/// one with each write, and back to zero with a trigger whenever it reaches
/// the threshold; with a threshold of zero every write triggers.
pub open spec fn counted(before: u64, n: nat, threshold: u64, triggers: u64, after: u64) -> bool {
    if threshold == 0 {
        triggers == n && after == 0
    } else {
        after < threshold && before + n == triggers * threshold + after
    }
}

/// The writer.
pub struct Writer<R> {
    db: Database,
    pending: Vec<PendingWrite<R>>,
    writes_since_snapshot: u64,
    snapshot_every: u64,
}

impl<R> Writer<R> {
    /// The database.
    pub closed spec fn database(&self) -> Database {
        self.db
    }

    /// The log.
    pub open spec fn log(&self) -> Wal {
        self.database().log()
    }

    /// The index, as a map.
    pub open spec fn index(&self) -> Index {
        self.database().index()@
    }

    /// Whether the next flush is to fail.
    pub open spec fn failure_armed(&self) -> bool {
        self.database().failure_armed()
    }

    /// The queue of writes that wait for durability, oldest first.
    pub closed spec fn queue(&self) -> Seq<PendingWrite<R>> {
        self.pending@
    }

    /// The number of writes that were acknowledged since a snapshot was last
    /// triggered.
    pub closed spec fn since_snapshot(&self) -> u64 {
        self.writes_since_snapshot
    }

    /// The number of acknowledged writes after which a snapshot is triggered.
    pub closed spec fn threshold(&self) -> u64 {
        self.snapshot_every
    }

    /// The queued writes lie in the log, in the order of their addresses, and
    /// the count of writes is below the threshold.
    pub open spec fn wf(&self) -> bool {
        &&& self.database().wf()
        &&& forall|i: int|
            0 <= i < self.queue().len() ==> (#[trigger] self.queue()[i]).recorded_in(
                self.log(),
            )
        &&& forall|i: int|
            0 <= i < self.queue().len() ==> (#[trigger] self.queue()[i]).lsn.lt(
                self.log().current(),
            )
        &&& forall|i: int, j: int|
            0 <= i < j < self.queue().len() ==> (#[trigger] self.queue()[i]).lsn.lt(
                (#[trigger] self.queue()[j]).lsn,
            )
        &&& if self.threshold() == 0 {
            self.since_snapshot() == 0
        } else {
            self.since_snapshot() < self.threshold()
        }
    }

    /// A writer over `db` with an empty queue. A snapshot is triggered after
    /// every `snapshot_every` acknowledged writes.
    pub fn new(db: Database, snapshot_every: u64) -> (writer: Self)
        requires
            db.wf(),
        ensures
            writer.wf(),
            writer.database() == db,
            writer.queue().len() == 0,
            writer.since_snapshot() == 0,
            writer.threshold() == snapshot_every,
    {
        Writer { db, pending: Vec::new(), writes_since_snapshot: 0, snapshot_every }
    }

    /// The database, for reading.
    pub fn db(&self) -> (db: &Database)
        ensures
            *db == self.database(),
    {
        &self.db
    }

    /// Whether any write waits for durability.
    pub fn has_pending(&self) -> (b: bool)
        ensures
            b == (self.queue().len() > 0),
    {
        self.pending.len() > 0
    }

    /// The number of writes that wait for durability.
    pub fn pending_len(&self) -> (n: usize)
        ensures
            n == self.queue().len(),
    {
        self.pending.len()
    }

    /// A copy of the document of `key`, if the key is present.
    pub fn get(&self, key: &str) -> (doc: Option<Document>)
        requires
            self.wf(),
        ensures
            match doc {
                Some(d) => self.index().contains_key(key@)
                    && self.index()[key@] == d@,
                None => !self.index().contains_key(key@),
            },
    {
        self.db.get(key)
    }

    /// The event of `command` against the index as it is. Nothing is
    /// changed.
    pub fn stage(&self, command: WriteCommand) -> (result: Result<Event, DbError>)
        requires
            self.wf(),
        ensures
            match result {
                Ok(event) => self.database().index().can_advance(command_key(command))
                    && event@ == command_event(self.index(), command),
                Err(e) => !self.database().index().can_advance(command_key(command)) && e
                    == DbError::VersionExhausted,
            },
    {
        self.db.derive(command)
    }

    /// Records `event`, whose encoding is `payload`, in the log and queues it
    /// with its reply handle. Nothing is answered yet: the result is `None`.
    /// Where the log refuses the record, nothing changes and the result is
    /// the refusal, to be sent at once.
    pub fn enqueue(&mut self, event: Event, payload: &[u8], resp: R) -> (refusal: Option<Reply<R>>)
        requires
            old(self).wf(),
        ensures
            final(self).wf(),
            final(self).since_snapshot() == old(self).since_snapshot(),
            final(self).threshold() == old(self).threshold(),
            final(self).database().index() == old(self).database().index(),
            final(self).failure_armed() == old(self).failure_armed(),
            match old(self).log().append_error(payload@) {
                None => {
                    &&& refusal is None
                    &&& final(self).queue().len() == old(self).queue().len() + 1
                    &&& final(self).queue().drop_last() == old(self).queue()
                    &&& final(self).queue().last().event == event
                    &&& final(self).queue().last().resp == resp
                    &&& final(self).queue().last().payload@ == payload@
                    &&& old(self).log().appends(
                        final(self).log(),
                        payload@,
                        final(self).queue().last().lsn,
                    )
                },
                Some(w) => {
                    &&& refusal matches Some(reply)
                    &&& reply.resp == resp
                    &&& reply.result == Err::<(), DbError>(DbError::Log(w))
                    &&& final(self).queue() == old(self).queue()
                    &&& final(self).database() == old(self).database()
                },
            },
    {
        let ghost before = self.db.log();
        match self.db.execute_pre_durability(payload) {
            Ok(lsn) => {
                proof {
                    let after = self.db.log();
                    lemma_append_advances(before, after, payload@, lsn);
                    lemma_appended_record_is_read(before, after, payload@, lsn);
                    assert forall|i: int| 0 <= i < self.queue().len() implies (
                    #[trigger] self.queue()[i]).lsn.lt(lsn) && self.queue()[i].recorded_in(
                        after,
                    ) by {
                        let p = old(self).queue()[i];
                        assert(p.lsn.lt(before.current()));
                        assert(p.recorded_in(before));
                        if p.lsn.segment == after.active_id() {
                            lemma_record_at_extend(
                                before.active().contents(),
                                crate::segment::frame(payload@),
                                p.lsn.offset as int,
                            );
                        }
                    }
                }
                self.pending.push(PendingWrite { event, lsn, resp, payload: Ghost(payload@) });
                assert(self.queue().drop_last() =~= old(self).queue());
                None
            },
            Err(e) => Some(Reply { resp, result: Err(e) }),
        }
    }

    /// Makes the next durability barrier fail.
    pub fn inject_failure(&mut self)
        requires
            old(self).wf(),
        ensures
            final(self).wf(),
            final(self).queue() == old(self).queue(),
            final(self).since_snapshot() == old(self).since_snapshot(),
            final(self).threshold() == old(self).threshold(),
            final(self).database().index() == old(self).database().index(),
            final(self).log() == old(self).log(),
            final(self).failure_armed(),
    {
        self.db.inject_failure();
    }

    /// Captures a snapshot: see [`Database::checkpoint_payload`].
    pub fn checkpoint_payload(&self) -> (snapshot: Snapshot)
        requires
            self.wf(),
        ensures
            snapshot.data.wf(),
            snapshot.data@ == self.index(),
            snapshot.lsn == self.log().current(),
    {
        self.db.checkpoint_payload()
    }

    /// Passes the durability barrier without answering anyone: the queue
    /// stays as it is, and its writes are answered at the next tick. This is
    /// for a full segment that has to be flushed before it can be sealed.
    /// See [`Database::fsync_wal`] for `flushed` and for the failures.
    pub fn sync_log(&mut self, flushed: bool) -> (result: Result<(), DbError>)
        requires
            old(self).wf(),
        ensures
            final(self).wf(),
            final(self).queue() == old(self).queue(),
            final(self).since_snapshot() == old(self).since_snapshot(),
            final(self).threshold() == old(self).threshold(),
            final(self).database().index() == old(self).database().index(),
            !final(self).failure_armed(),
            final(self).log().current() == old(self).log().current(),
            final(self).log().sealed_ids() == old(self).log().sealed_ids(),
            final(self).log().active().contents() == old(self).log().active().contents(),
            match result {
                Ok(()) => {
                    &&& barrier_error(old(self).database(), flushed) is None
                    &&& final(self).log().all_durable()
                    &&& final(self).log().durable() == final(self).log().current()
                },
                Err(e) => {
                    &&& barrier_error(old(self).database(), flushed) == Some(e)
                    &&& final(self).log() == old(self).log()
                },
            },
    {
        let result = self.db.fsync_wal(flushed);
        proof {
            assert forall|i: int| 0 <= i < self.queue().len() implies (
            #[trigger] self.queue()[i]).recorded_in(self.log()) by {
                assert(old(self).queue()[i].recorded_in(old(self).log()));
            }
            assert forall|i: int| 0 <= i < self.queue().len() implies (
            #[trigger] self.queue()[i]).lsn.lt(self.log().current()) by {
                assert(old(self).queue()[i].lsn.lt(old(self).log().current()));
            }
        }
        result
    }

    /// Collects the log behind a durable snapshot that was taken at `upto`:
    /// see [`Database::gc`]. The queue is not touched.
    pub fn gc(&mut self, upto: Lsn) -> (removed: Vec<u64>)
        requires
            old(self).wf(),
        ensures
            final(self).wf(),
            final(self).queue() == old(self).queue(),
            final(self).since_snapshot() == old(self).since_snapshot(),
            final(self).threshold() == old(self).threshold(),
            final(self).database().index() == old(self).database().index(),
            final(self).failure_armed() == old(self).failure_armed(),
            final(self).log().active() == old(self).log().active(),
            final(self).log().next_id() == old(self).log().next_id(),
            final(self).log().limit() == old(self).log().limit(),
            removed@ == crate::wal::ids_below(
                old(self).log().sealed_ids(),
                upto.segment,
            ),
            final(self).log().sealed_ids() == crate::wal::ids_from(
                old(self).log().sealed_ids(),
                upto.segment,
            ),
    {
        let removed = self.db.gc(upto);
        proof {
            assert forall|i: int| 0 <= i < self.queue().len() implies (
            #[trigger] self.queue()[i]).recorded_in(self.log()) by {
                assert(old(self).queue()[i].recorded_in(old(self).log()));
            }
            assert forall|i: int| 0 <= i < self.queue().len() implies (
            #[trigger] self.queue()[i]).lsn.lt(self.log().current()) by {
                assert(old(self).queue()[i].lsn.lt(old(self).log().current()));
            }
        }
        removed
    }

    /// The tick of the group commit. `flushed` says whether the caller has
    /// brought the log's bytes to stable storage just before; it is not
    /// looked at while the queue is empty, and then nothing happens.
    ///
    /// Otherwise the durability barrier is passed once for the whole queue.
    /// Behind a barrier that holds, each queued write is applied to the index
    /// and answered with `Ok`, oldest first; its event goes to the
    /// subscribers, and a snapshot is triggered whenever the count of writes
    /// reaches the threshold. Behind a barrier that fails, each queued write
    /// is answered with the error, and the index stays as it was. Either way
    /// the queue is empty afterwards.
    pub fn on_tick(&mut self, flushed: bool) -> (report: TickReport<R>)
        requires
            old(self).wf(),
        ensures
            final(self).wf(),
            final(self).threshold() == old(self).threshold(),
            final(self).queue().len() == 0,
            report.replies.len() == old(self).queue().len(),
            forall|i: int|
                0 <= i < report.replies.len() ==> old(self).queue()[i].resp
                    == (#[trigger] report.replies[i]).resp,
            if old(self).queue().len() == 0 {
                &&& *final(self) == *old(self)
                &&& report.events.len() == 0
                &&& report.snapshot_triggers == 0
            } else {
                match barrier_error(old(self).database(), flushed) {
                    Some(e) => {
                        &&& forall|i: int|
                            0 <= i < report.replies.len() ==> (#[trigger] report.replies[i]).result
                                == Err::<(), DbError>(e)
                        &&& report.events.len() == 0
                        &&& report.snapshot_triggers == 0
                        &&& final(self).database().index() == old(self).database().index()
                        &&& final(self).log() == old(self).log()
                        &&& !final(self).failure_armed()
                        &&& final(self).since_snapshot() == old(self).since_snapshot()
                    },
                    None => {
                        &&& forall|i: int|
                            0 <= i < report.replies.len() ==> (#[trigger] report.replies[i]).result
                                == Ok::<(), DbError>(())
                        &&& events_view(report.events@) == pending_events(old(self).queue())
                        &&& final(self).index() == apply_all(
                            old(self).index(),
                            pending_events(old(self).queue()),
                        )
                        &&& final(self).log().durable() == final(self).log().current()
                        &&& final(self).log().current() == old(self).log().current()
                        &&& final(self).log().all_durable()
                        &&& forall|i: int|
                            0 <= i < old(self).queue().len() ==> final(self).database().is_durable(
                                (#[trigger] old(self).queue()[i]).lsn,
                            ) && old(self).queue()[i].recorded_in(final(self).log())
                        &&& !final(self).failure_armed()
                        &&& counted(
                            old(self).since_snapshot(),
                            old(self).queue().len(),
                            old(self).threshold(),
                            report.snapshot_triggers,
                            final(self).since_snapshot(),
                        )
                    },
                }
            },
    {
        let mut replies: Vec<Reply<R>> = Vec::new();
        let mut events: Vec<Event> = Vec::new();
        let mut triggers: u64 = 0;
        if self.pending.len() == 0 {
            return TickReport { replies, events, snapshot_triggers: triggers };
        }
        let ghost all = self.pending@;
        let ghost base = self.db.index()@;
        let ghost count_before = self.writes_since_snapshot;
        let mut queue: Vec<PendingWrite<R>> = Vec::new();
        std::mem::swap(&mut self.pending, &mut queue);
        let n = queue.len();
        let mut rest = reversed(queue);
        match self.db.fsync_wal(flushed) {
            Err(e) => {
                while replies.len() < n
                    invariant
                        n == all.len(),
                        replies.len() <= n,
                        holds_rest(rest@, all, replies.len() as int),
                        forall|i: int|
                            0 <= i < replies.len() ==> (#[trigger] replies[i]).resp == all[i].resp
                                && replies[i].result == Err::<(), DbError>(e),
                    decreases n - replies.len(),
                {
                    let p = take_next(&mut rest, Ghost(all), Ghost(replies.len() as int));
                    replies.push(Reply { resp: p.resp, result: Err(e) });
                }
            },
            Ok(()) => {
                let ghost log_after = self.db.log();
                let ghost planned = pending_events(all);
                assert(planned.take(0) =~= Seq::<EventView>::empty());
                assert(events_view(events@) =~= planned.take(0));
                assert(count_before + 0 == 0 * self.snapshot_every + self.writes_since_snapshot);
                while replies.len() < n
                    invariant
                        n == all.len(),
                        replies.len() <= n,
                        holds_rest(rest@, all, replies.len() as int),
                        events.len() == replies.len(),
                        planned == pending_events(all),
                        forall|i: int|
                            0 <= i < replies.len() ==> (#[trigger] replies[i]).resp == all[i].resp
                                && replies[i].result == Ok::<(), DbError>(()),
                        forall|i: int|
                            0 <= i < all.len() ==> (#[trigger] all[i]).lsn.lt(log_after.durable()),
                        self.db.wf(),
                        self.db.log() == log_after,
                        !self.db.failure_armed(),
                        self.snapshot_every == old(self).snapshot_every,
                        self.pending@.len() == 0,
                        events_view(events@) == planned.take(replies.len() as int),
                        self.db.index()@ == apply_all(base, planned.take(replies.len() as int)),
                        triggers <= replies.len(),
                        if self.snapshot_every == 0 {
                            triggers == replies.len() && self.writes_since_snapshot == 0
                        } else {
                            &&& self.writes_since_snapshot < self.snapshot_every
                            &&& count_before + replies.len() == triggers * self.snapshot_every
                                + self.writes_since_snapshot
                        },
                    decreases n - replies.len(),
                {
                    let ghost done = replies.len() as int;
                    let p = take_next(&mut rest, Ghost(all), Ghost(done));
                    let PendingWrite { event, lsn, resp, payload: _ } = p;
                    let copy = event.clone();
                    let applied = self.db.execute_post_durability(event, lsn);
                    assert(applied is Ok);
                    assert(planned.take(done + 1).drop_last() =~= planned.take(done));
                    assert(planned.take(done + 1).last() == all[done].event@);
                    events.push(copy);
                    assert(events_view(events@) =~= planned.take(done + 1));
                    replies.push(Reply { resp, result: Ok(()) });
                    if self.snapshot_every == 0 || self.writes_since_snapshot + 1
                        >= self.snapshot_every {
                        assert((triggers + 1) * self.snapshot_every == triggers
                            * self.snapshot_every + self.snapshot_every) by (nonlinear_arith);
                        assert(triggers <= done < replies.len() <= usize::MAX);
                        triggers = triggers + 1;
                        self.writes_since_snapshot = 0;
                    } else {
                        self.writes_since_snapshot = self.writes_since_snapshot + 1;
                    }
                }
                assert(planned.take(all.len() as int) =~= planned);
            },
        }
        TickReport { replies, events, snapshot_triggers: triggers }
    }
}

/// An acknowledged write survives a crash. `at_ack` is the log as the tick
/// that acknowledged `write` left it: all of its active segment is durable, and
/// the write's record is whole in it. Let `more` bytes be appended since, and
/// let a crash leave `kept` bytes of the segment, at least those that were
/// durable. Then recovery still reads the write's payload at the write's
/// address, and does not take it for corrupt.
pub proof fn lemma_acknowledged_write_survives_crash<R>(
    write: PendingWrite<R>,
    at_ack: Wal,
    more: Seq<u8>,
    kept: int,
)
    requires
        write.lsn.segment == at_ack.active_id(),
        write.recorded_in(at_ack),
        at_ack.all_durable(),
        at_ack.active().durable_len() <= kept <= (at_ack.active().contents() + more).len(),
    ensures
        record_at((at_ack.active().contents() + more).take(kept), write.lsn.offset as int) == Some(
            (write.payload@, (write.lsn.offset + 4 + write.payload@.len()) as int),
        ),
        crate::segment::is_json_text(write.payload@),
{
    let bytes = at_ack.active().contents();
    lemma_record_at_extend(bytes, more, write.lsn.offset as int);
    crate::segment::lemma_record_at_cut(bytes + more, write.lsn.offset as int, kept);
}

} // verus!
