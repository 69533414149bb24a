//! The database: the index and the log together, in the two halves of a
//! write. Before durability an event is derived and recorded in the log;
//! after durability it is applied to the index.

use vstd::prelude::*;
use vstd::string::*;
use crate::event::{Document, Event, EventView};
use crate::json::Value;
use crate::kv::{apply, apply_all, delete_event, patch_event, put_event, Index, Store};
use crate::lsn::Lsn;
use crate::snapshot::Snapshot;
use crate::wal::{Wal, WalError};

verus! {

/// Why the database refused an operation.
#[derive(Copy, Clone, Debug, PartialEq, Eq, Structural)]
pub enum DbError {
    /// The log refused the record.
    Log(WalError),
    /// The key's version is the largest that 64 bits hold.
    VersionExhausted,
    /// A failure of the flush was asked for, and this is it.
    InjectedFsyncFailure,
    /// The log's bytes could not be brought to stable storage.
    FlushFailed,
    /// The event's record is not durable yet.
    NotDurable,
}

impl DbError {
    /// The error in words, as a value of specifications.
    pub open spec fn text(self) -> Seq<char> {
        match self {
            DbError::Log(e) => e.text(),
            DbError::VersionExhausted => "version numbers exhausted"@,
            DbError::InjectedFsyncFailure => "injected fsync failure"@,
            DbError::FlushFailed => "fsync failed"@,
            DbError::NotDurable => "record is not durable"@,
        }
    }

    /// The error in words.
    pub fn message(&self) -> (text: String)
        ensures
            text@ == self.text(),
    {
        match self {
            DbError::Log(e) => e.message(),
            DbError::VersionExhausted => String::from_str("version numbers exhausted"),
            DbError::InjectedFsyncFailure => String::from_str("injected fsync failure"),
            DbError::FlushFailed => String::from_str("fsync failed"),
            DbError::NotDurable => String::from_str("record is not durable"),
        }
    }
}

/// A write, as a client asks for it.
#[derive(Debug)]
pub enum WriteCommand {
    Put { key: String, value: Value },
    Del { key: String },
    Patch { key: String, delta: Value },
}

/// The key that a write concerns.
pub open spec fn command_key(command: WriteCommand) -> Seq<char> {
    match command {
        WriteCommand::Put { key, value } => key@,
        WriteCommand::Del { key } => key@,
        WriteCommand::Patch { key, delta } => key@,
    }
}

/// The event of a write against an index.
pub open spec fn command_event(index: Index, command: WriteCommand) -> EventView {
    match command {
        WriteCommand::Put { key, value } => put_event(index, key@, value@),
        WriteCommand::Del { key } => delete_event(index, key@),
        WriteCommand::Patch { key, delta } => patch_event(index, key@, delta@),
    }
}

/// The database.
#[derive(Debug)]
pub struct Database {
    store: Store,
    wal: Wal,
    fail_next_fsync: bool,
}

impl Database {
    /// The index.
    pub closed spec fn index(&self) -> Store {
        self.store
    }

    /// The log.
    pub closed spec fn log(&self) -> Wal {
        self.wal
    }

    /// Whether the next flush is to fail.
    pub closed spec fn failure_armed(&self) -> bool {
        self.fail_next_fsync
    }

    /// The index and the log are well formed.
    pub open spec fn wf(&self) -> bool {
        self.index().wf() && self.log().wf()
    }

    /// Whether the record at `lsn` is durable: it lies in a sealed segment,
    /// or before the address up to which the active segment is flushed.
    pub open spec fn is_durable(&self, lsn: Lsn) -> bool {
        lsn.lt(self.log().durable())
    }

    /// Recovers the database: the index starts as the snapshot's, or empty
    /// where there is none, and takes `events`, the log's events from the
    /// snapshot's address on, in their order.
    pub fn open(snapshot: Option<Snapshot>, wal: Wal, events: Vec<Event>) -> (db: Self)
        requires
            wal.wf(),
            snapshot matches Some(s) ==> s.data.wf(),
        ensures
            db.wf(),
            db.log() == wal,
            !db.failure_armed(),
            db.index()@ == apply_all(
                match snapshot {
                    Some(s) => s.data@,
                    None => Index::empty(),
                },
                crate::event::events_view(events@),
            ),
    {
        let mut store = match snapshot {
            Some(s) => s.data,
            None => Store::new(),
        };
        let ghost base = store@;
        let ghost all = crate::event::events_view(events@);
        let mut i: usize = 0;
        assert(all.take(0) =~= Seq::<EventView>::empty());
        while i < events.len()
            invariant
                i <= events.len(),
                store.wf(),
                all == crate::event::events_view(events@),
                store@ == apply_all(base, all.take(i as int)),
            decreases events.len() - i,
        {
            assert(all.take(i + 1).drop_last() =~= all.take(i as int));
            assert(all.take(i + 1).last() == events[i as int]@);
            store.apply_event(events[i].clone());
            i += 1;
        }
        assert(all.take(events.len() as int) =~= all);
        Database { store, wal, fail_next_fsync: false }
    }

    /// The index, for reading.
    pub fn store(&self) -> (store: &Store)
        ensures
            *store == self.index(),
    {
        &self.store
    }

    /// The log, for reading.
    pub fn wal(&self) -> (wal: &Wal)
        ensures
            *wal == self.log(),
    {
        &self.wal
    }

    /// A copy of the document of `key`, if the key is present.
    pub fn get(&self, key: &str) -> (doc: Option<Document>)
        requires
            self.wf(),
        ensures
            match doc {
                Some(d) => self.index()@.contains_key(key@) && self.index()@[key@] == d@,
                None => !self.index()@.contains_key(key@),
            },
    {
        match self.store.get(key) {
            Some(d) => Some(d.clone()),
            None => None,
        }
    }

    /// The event of assigning `value` to `key`. Nothing is changed: the
    /// event is recorded by [`Database::execute_pre_durability`].
    pub fn put(&self, key: String, value: Value) -> (result: Result<Event, DbError>)
        requires
            self.wf(),
        ensures
            match result {
                Ok(event) => self.index().can_advance(key@) && event@ == put_event(
                    self.index()@,
                    key@,
                    value@,
                ),
                Err(e) => !self.index().can_advance(key@) && e == DbError::VersionExhausted,
            },
    {
        if !self.store.has_room(key.as_str()) {
            return Err(DbError::VersionExhausted);
        }
        Ok(self.store.put(key, value))
    }

    /// The event of deleting `key`. Nothing is changed.
    pub fn delete(&self, key: &str) -> (result: Result<Event, DbError>)
        requires
            self.wf(),
        ensures
            match result {
                Ok(event) => self.index().can_advance(key@) && event@ == delete_event(
                    self.index()@,
                    key@,
                ),
                Err(e) => !self.index().can_advance(key@) && e == DbError::VersionExhausted,
            },
    {
        if !self.store.has_room(key) {
            return Err(DbError::VersionExhausted);
        }
        Ok(self.store.delete(key))
    }

    /// The event of merging `delta` into the value of `key`. Nothing is
    /// changed.
    pub fn patch(&self, key: &str, delta: Value) -> (result: Result<Event, DbError>)
        requires
            self.wf(),
        ensures
            match result {
                Ok(event) => self.index().can_advance(key@) && event@ == patch_event(
                    self.index()@,
                    key@,
                    delta@,
                ),
                Err(e) => !self.index().can_advance(key@) && e == DbError::VersionExhausted,
            },
    {
        if !self.store.has_room(key) {
            return Err(DbError::VersionExhausted);
        }
        Ok(self.store.patch(key, delta))
    }

    /// The event of `command`. Nothing is changed.
    pub fn derive(&self, command: WriteCommand) -> (result: Result<Event, DbError>)
        requires
            self.wf(),
        ensures
            match result {
                Ok(event) => self.index().can_advance(command_key(command)) && event@
                    == command_event(self.index()@, command),
                Err(e) => !self.index().can_advance(command_key(command)) && e
                    == DbError::VersionExhausted,
            },
    {
        match command {
            WriteCommand::Put { key, value } => self.put(key, value),
            WriteCommand::Del { key } => self.delete(key.as_str()),
            WriteCommand::Patch { key, delta } => self.patch(key.as_str(), delta),
        }
    }

    /// Records an event in the log: `payload` is the event's encoding. The
    /// index is not changed, and nothing becomes durable.
    pub fn execute_pre_durability(&mut self, payload: &[u8]) -> (result: Result<Lsn, DbError>)
        requires
            old(self).wf(),
        ensures
            final(self).wf(),
            final(self).index() == old(self).index(),
            final(self).failure_armed() == old(self).failure_armed(),
            match result {
                Ok(lsn) => old(self).log().appends(final(self).log(), payload@, lsn),
                Err(e) => {
                    &&& old(self).log().append_error(payload@) matches Some(w)
                    &&& e == DbError::Log(w)
                    &&& *final(self) == *old(self)
                },
            },
    {
        match self.wal.append(payload) {
            Ok(lsn) => Ok(lsn),
            Err(e) => Err(DbError::Log(e)),
        }
    }

    /// Applies an event whose record starts at `lsn` to the index, if that
    /// record is durable. The index never takes an event that a crash could
    /// still lose.
    pub fn execute_post_durability(&mut self, event: Event, lsn: Lsn) -> (result: Result<
        (),
        DbError,
    >)
        requires
            old(self).wf(),
        ensures
            final(self).wf(),
            final(self).log() == old(self).log(),
            final(self).failure_armed() == old(self).failure_armed(),
            match result {
                Ok(()) => old(self).is_durable(lsn) && final(self).index()@ == apply(
                    old(self).index()@,
                    event@,
                ),
                Err(e) => {
                    &&& !old(self).is_durable(lsn)
                    &&& e == DbError::NotDurable
                    &&& *final(self) == *old(self)
                },
            },
    {
        if !lsn.precedes(&self.wal.durable_lsn()) {
            return Err(DbError::NotDurable);
        }
        self.store.apply_event(event);
        Ok(())
    }

    /// The durability barrier. `flushed` says whether the caller has brought
    /// the active segment's bytes to stable storage. Where a failure was asked
    /// for, this call fails and disarms it, whatever `flushed` says; where
    /// the flush failed, this call fails. Else all of the log is durable.
    pub fn fsync_wal(&mut self, flushed: bool) -> (result: Result<(), DbError>)
        requires
            old(self).wf(),
        ensures
            final(self).wf(),
            final(self).index() == old(self).index(),
            !final(self).failure_armed(),
            final(self).log().active_id() == old(self).log().active_id(),
            final(self).log().next_id() == old(self).log().next_id(),
            final(self).log().limit() == old(self).log().limit(),
            final(self).log().sealed_ids() == old(self).log().sealed_ids(),
            final(self).log().active().contents() == old(self).log().active().contents(),
            final(self).log().active().position() == old(self).log().active().position(),
            match result {
                Ok(()) => {
                    &&& !old(self).failure_armed()
                    &&& flushed
                    &&& final(self).log().durable() == final(self).log().current()
                    &&& final(self).log().all_durable()
                },
                Err(e) => {
                    &&& final(self).log() == old(self).log()
                    &&& if old(self).failure_armed() {
                        e == DbError::InjectedFsyncFailure
                    } else {
                        !flushed && e == DbError::FlushFailed
                    }
                },
            },
    {
        if self.fail_next_fsync {
            self.fail_next_fsync = false;
            return Err(DbError::InjectedFsyncFailure);
        }
        if !flushed {
            return Err(DbError::FlushFailed);
        }
        self.wal.fsync();
        Ok(())
    }

    /// Makes the next durability barrier fail.
    pub fn inject_failure(&mut self)
        ensures
            final(self).index() == old(self).index(),
            final(self).log() == old(self).log(),
            final(self).failure_armed(),
    {
        self.fail_next_fsync = true;
    }

    /// Captures a snapshot: a copy of the index, and the address of the next
    /// append.
    pub fn checkpoint_payload(&self) -> (snapshot: Snapshot)
        requires
            self.wf(),
        ensures
            snapshot.data.wf(),
            snapshot.data@ == self.index()@,
            snapshot.lsn == self.log().current(),
    {
        Snapshot { data: self.store.clone(), lsn: self.wal.current_lsn() }
    }

    /// Collects the log behind a snapshot that was taken at `upto` and is
    /// durable: returns the numbers of the segments to delete.
    pub fn gc(&mut self, upto: Lsn) -> (removed: Vec<u64>)
        requires
            old(self).wf(),
        ensures
            final(self).wf(),
            final(self).index() == old(self).index(),
            final(self).failure_armed() == old(self).failure_armed(),
            final(self).log().active() == old(self).log().active(),
            final(self).log().next_id() == old(self).log().next_id(),
            final(self).log().limit() == old(self).log().limit(),
            removed@ == crate::wal::ids_below(old(self).log().sealed_ids(), upto.segment),
            final(self).log().sealed_ids() == crate::wal::ids_from(
                old(self).log().sealed_ids(),
                upto.segment,
            ),
    {
        self.wal.gc(upto)
    }
}

} // verus!
