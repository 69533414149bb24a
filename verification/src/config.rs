//! The engine's settings.

use vstd::prelude::*;

verus! {

/// What can be set of the engine.
#[derive(Copy, Clone, Debug, PartialEq, Eq, Structural)]
pub struct Config {
    /// The number of bytes that a segment of the log may hold.
    pub segment_size_limit: u64,
    /// The time between two ticks of the group commit, in milliseconds.
    pub fsync_interval_ms: u64,
    /// The time between two periodic snapshots, in seconds.
    pub snapshot_period_secs: u64,
    /// The number of acknowledged writes after which a snapshot is triggered.
    pub snapshot_every: u64,
    /// The number of commands that a command channel holds.
    pub command_capacity: usize,
    /// The number of events that a subscriber's channel holds.
    pub subscriber_capacity: usize,
}

impl Config {
    /// The settings that hold where nothing else is asked for: segments of
    /// 64 MiB, a tick every 5 ms, a snapshot every 30 s and after every 1000
    /// writes, 32 commands and 100 events in flight.
    pub open spec fn standard() -> Config {
        Config {
            segment_size_limit: 67_108_864,
            fsync_interval_ms: 5,
            snapshot_period_secs: 30,
            snapshot_every: 1000,
            command_capacity: 32,
            subscriber_capacity: 100,
        }
    }

    /// Whether the channels can be made: a channel has room for one message
    /// at least, and for no more than an eighth of the address space.
    pub open spec fn wf(self) -> bool {
        &&& 0 < self.command_capacity <= usize::MAX / 8
        &&& 0 < self.subscriber_capacity <= usize::MAX / 8
    }

    /// Whether the channels can be made.
    pub fn is_valid(&self) -> (b: bool)
        ensures
            b == self.wf(),
    {
        0 < self.command_capacity && self.command_capacity <= usize::MAX / 8 && 0
            < self.subscriber_capacity && self.subscriber_capacity <= usize::MAX / 8
    }
}

impl Default for Config {
    fn default() -> (config: Self)
        ensures
            config == Config::standard(),
            config.wf(),
    {
        Config {
            segment_size_limit: 67_108_864,
            fsync_interval_ms: 5,
            snapshot_period_secs: 30,
            snapshot_every: 1000,
            command_capacity: 32,
            subscriber_capacity: 100,
        }
    }
}

} // verus!
