//! Snapshots: the index together with the place in the log from which a
//! replay completes it, and the steps by which a snapshot is installed.

use vstd::prelude::*;
use crate::kv::Store;
use crate::lsn::Lsn;

verus! {

/// The index at one moment, and the address of the next append at that
/// moment: replaying the log from `lsn` on over `data` brings the index up to
/// date.
#[derive(Debug)]
pub struct Snapshot {
    pub data: Store,
    pub lsn: Lsn,
}

/// The address at which recovery starts its replay: that of the snapshot,
/// or the start of the log where there is no snapshot.
pub open spec fn replay_start_of(snapshot: Option<Snapshot>) -> Lsn {
    match snapshot {
        Some(s) => s.lsn,
        None => Lsn::zero(),
    }
}

/// The address at which recovery starts its replay.
pub fn replay_start(snapshot: &Option<Snapshot>) -> (lsn: Lsn)
    ensures
        lsn == replay_start_of(*snapshot),
{
    match snapshot {
        Some(s) => s.lsn,
        None => Lsn::zero(),
    }
}

/// The steps of installing a snapshot, in their order. The bytes are written
/// to a temporary file, which is flushed; the file is renamed over the
/// snapshot, and the directory is flushed; only then the log is collected.
#[derive(Copy, Clone, Debug, PartialEq, Eq, Structural)]
pub enum InstallStep {
    WriteTemp,
    SyncTemp,
    Rename,
    SyncDirectory,
    CollectLog,
}

/// Where an installation stands.
#[derive(Copy, Clone, Debug, PartialEq, Eq, Structural)]
pub enum InstallState {
    /// This step is to be done next.
    Next(InstallStep),
    /// Every step was done.
    Installed,
    /// This step failed. No later step was or will be done.
    Failed(InstallStep),
}

impl InstallState {
    /// The state of an installation of which no step was done yet.
    pub open spec fn start_spec() -> InstallState {
        InstallState::Next(InstallStep::WriteTemp)
    }

    /// The state of an installation of which no step was done yet.
    #[verifier::when_used_as_spec(start_spec)]
    pub fn start() -> (state: InstallState)
        ensures
            state == InstallState::start_spec(),
    {
        InstallState::Next(InstallStep::WriteTemp)
    }

    /// The state after the step that was due succeeded (`ok`) or failed.
    pub open spec fn after(self, ok: bool) -> InstallState {
        match self {
            InstallState::Next(step) => if !ok {
                InstallState::Failed(step)
            } else {
                match step {
                    InstallStep::WriteTemp => InstallState::Next(InstallStep::SyncTemp),
                    InstallStep::SyncTemp => InstallState::Next(InstallStep::Rename),
                    InstallStep::Rename => InstallState::Next(InstallStep::SyncDirectory),
                    InstallStep::SyncDirectory => InstallState::Next(InstallStep::CollectLog),
                    InstallStep::CollectLog => InstallState::Installed,
                }
            },
            InstallState::Installed => InstallState::Installed,
            InstallState::Failed(step) => InstallState::Failed(step),
        }
    }

    /// The state after each of `outcomes` in turn.
    pub open spec fn after_all(self, outcomes: Seq<bool>) -> InstallState
        decreases outcomes.len(),
    {
        if outcomes.len() == 0 {
            self
        } else {
            self.after_all(outcomes.drop_last()).after(outcomes.last())
        }
    }

    /// The state after the step that was due succeeded (`ok`) or failed.
    pub fn advance(self, ok: bool) -> (next: InstallState)
        ensures
            next == self.after(ok),
    {
        match self {
            InstallState::Next(step) => {
                if !ok {
                    InstallState::Failed(step)
                } else {
                    match step {
                        InstallStep::WriteTemp => InstallState::Next(InstallStep::SyncTemp),
                        InstallStep::SyncTemp => InstallState::Next(InstallStep::Rename),
                        InstallStep::Rename => InstallState::Next(InstallStep::SyncDirectory),
                        InstallStep::SyncDirectory => InstallState::Next(InstallStep::CollectLog),
                        InstallStep::CollectLog => InstallState::Installed,
                    }
                }
            },
            InstallState::Installed => InstallState::Installed,
            InstallState::Failed(step) => InstallState::Failed(step),
        }
    }

    /// The step to do next, if the installation goes on.
    pub fn due(&self) -> (step: Option<InstallStep>)
        ensures
            step == match *self {
                InstallState::Next(s) => Some(s),
                _ => None::<InstallStep>,
            },
    {
        match self {
            InstallState::Next(s) => Some(*s),
            _ => None,
        }
    }
}

/// The log is collected only behind a durable snapshot: where an
/// installation has come to collect the log, exactly four steps were done
/// before, and each of them succeeded.
pub proof fn lemma_collect_after_durable(outcomes: Seq<bool>)
    requires
        InstallState::start().after_all(outcomes) == InstallState::Next(InstallStep::CollectLog),
    ensures
        outcomes.len() == 4,
        forall|i: int| 0 <= i < outcomes.len() ==> outcomes[i],
{
    lemma_run_shape(outcomes);
}

/// How far an installation has come after `outcomes`: behind `n` successes
/// and nothing else it is at step `n`; behind a failure it has failed.
proof fn lemma_run_shape(outcomes: Seq<bool>)
    ensures
        match InstallState::start().after_all(outcomes) {
            InstallState::Next(step) => outcomes.len() == step_index(step) && forall|i: int|
                0 <= i < outcomes.len() ==> outcomes[i],
            InstallState::Installed => outcomes.len() >= 5,
            InstallState::Failed(step) => exists|i: int| 0 <= i < outcomes.len() && !outcomes[i],
        },
    decreases outcomes.len(),
{
    if outcomes.len() > 0 {
        lemma_run_shape(outcomes.drop_last());
        let before = InstallState::start().after_all(outcomes.drop_last());
        match before {
            InstallState::Next(step) => {
                if outcomes.last() {
                    assert forall|i: int| 0 <= i < outcomes.len() implies outcomes[i] by {
                        if i < outcomes.len() - 1 {
                            assert(outcomes.drop_last()[i]);
                        }
                    }
                } else {
                    assert(!outcomes[outcomes.len() - 1]);
                }
            },
            InstallState::Installed => {},
            InstallState::Failed(step) => {
                let earlier = outcomes.drop_last();
                let i = choose|i: int| 0 <= i < earlier.len() && !earlier[i];
                assert(!outcomes[i]);
            },
        }
    }
}

/// The number of steps that come before `step`.
pub open spec fn step_index(step: InstallStep) -> nat {
    match step {
        InstallStep::WriteTemp => 0,
        InstallStep::SyncTemp => 1,
        InstallStep::Rename => 2,
        InstallStep::SyncDirectory => 3,
        InstallStep::CollectLog => 4,
    }
}

} // verus!
