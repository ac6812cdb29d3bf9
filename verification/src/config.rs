//! Deployment settings of a grain type, and of a node.
use vstd::prelude::*;
use vstd::string::*;

use crate::error::NodeId;
use crate::file_store::store_dir;
use crate::file_store::store_path;

verus! {

/// The settings of one grain type. Durations are in nanoseconds.
#[derive(Clone, Debug, PartialEq, Eq)]
pub struct GranaryConfig {
    /// How many shards the type's namespace is founded with.
    pub shards: usize,
    /// Replicas per shard.
    pub replication_factor: usize,
    /// Split a shard once it holds more than this many bytes; 0 never splits.
    pub shard_target_bytes: u64,
    /// Hibernate a grain after this long without a command; 0 never does.
    pub idle_after: u64,
    /// Persist a snapshot every this many committed records; 0 never does.
    pub snapshot_every: u64,
    /// How long an append, snapshot or blob put waits for its quorum.
    pub quorum_timeout: u64,
    /// How long a recovery read waits for its quorum.
    pub recover_timeout: u64,
    /// How many host handles a node caches per generation.
    pub host_cache_capacity: usize,
    /// Where facets materialize; the system's temporary directory if not set.
    pub data_dir: Option<String>,
    /// The root of the stores that keep records across a restart; in memory if not set.
    pub grain_store: Option<String>,
}

impl Default for GranaryConfig {
    fn default() -> (r: GranaryConfig)
        ensures
            r.shards == 4,
            r.replication_factor == 3,
            r.shard_target_bytes == 0,
            r.idle_after == 300_000_000_000,
            r.snapshot_every == 4096,
            r.quorum_timeout == 2_000_000_000,
            r.recover_timeout == 2_000_000_000,
            r.host_cache_capacity == 65536,
            r.data_dir is None,
            r.grain_store is None,
    {
        GranaryConfig {
            shards: 4,
            replication_factor: 3,
            shard_target_bytes: 0,
            idle_after: 300_000_000_000,
            snapshot_every: 4096,
            quorum_timeout: 2_000_000_000,
            recover_timeout: 2_000_000_000,
            host_cache_capacity: 65536,
            data_dir: None,
            grain_store: None,
        }
    }
}

/// How a grain type is hosted: at least one shard, at least one replica.
#[derive(Clone, Copy, Debug, PartialEq, Eq, Structural)]
pub struct Hosting {
    pub shards: usize,
    pub replicas: usize,
    pub shard_target_bytes: u64,
    pub quorum_timeout: u64,
    pub recover_timeout: u64,
    pub host_cache_capacity: usize,
}

/// At least one.
pub open spec fn at_least_one(n: usize) -> usize {
    if n == 0 {
        1
    } else {
        n
    }
}

pub fn clamp_to_one(n: usize) -> (r: usize)
    ensures
        r == at_least_one(n),
{
    if n == 0 {
        1
    } else {
        n
    }
}

impl GranaryConfig {
    /// Where facets materialize: the configured directory, or `granary` below the
    /// system's temporary directory.
    pub fn scratch_dir(&self, temp_dir: &str) -> (r: String)
        ensures
            r@ == match self.data_dir {
                Some(dir) => dir@,
                None => temp_dir@ + "/granary"@,
            },
    {
        match &self.data_dir {
            Some(dir) => dir.clone(),
            None => {
                let mut out = temp_dir.to_owned();
                out.append("/granary");
                out
            },
        }
    }

    /// Where a grain type's store on a node is kept, if not in memory: each type and node
    /// has a directory of its own.
    pub fn store_dir(&self, grain_type: &str, node: NodeId) -> (r: Option<String>)
        ensures
            match self.grain_store {
                Some(root) => r is Some && r->0@ == store_path(root@, grain_type@, node),
                None => r is None,
            },
    {
        match &self.grain_store {
            Some(root) => Some(store_dir(root.as_str(), grain_type, node)),
            None => None,
        }
    }

    /// What hosting a type takes from its settings.
    pub fn hosting(&self) -> (r: Hosting)
        ensures
            r == (Hosting {
                shards: at_least_one(self.shards),
                replicas: at_least_one(self.replication_factor),
                shard_target_bytes: self.shard_target_bytes,
                quorum_timeout: self.quorum_timeout,
                recover_timeout: self.recover_timeout,
                host_cache_capacity: self.host_cache_capacity,
            }),
    {
        Hosting {
            shards: clamp_to_one(self.shards),
            replicas: clamp_to_one(self.replication_factor),
            shard_target_bytes: self.shard_target_bytes,
            quorum_timeout: self.quorum_timeout,
            recover_timeout: self.recover_timeout,
            host_cache_capacity: self.host_cache_capacity,
        }
    }
}

/// How many workers a pool asked for `threads` gets: at least one.
pub fn pool_width(threads: usize) -> (r: usize)
    ensures
        r == at_least_one(threads),
{
    clamp_to_one(threads)
}

/// The width of a pool sized to the machine: between two and eight workers, four
/// where the number of cores is not known.
pub fn host_pool_width(cores: Option<usize>) -> (r: usize)
    ensures
        r == match cores {
            None => 4,
            Some(n) => if n < 2 {
                2
            } else if n > 8 {
                8
            } else {
                n
            },
        },
{
    match cores {
        None => 4,
        Some(n) => if n < 2 {
            2
        } else if n > 8 {
            8
        } else {
            n
        },
    }
}

/// A count is at least one, and otherwise as it was set.
pub proof fn law_counts_are_at_least_one(n: usize)
    ensures
        at_least_one(n) >= 1,
        n >= 1 ==> at_least_one(n) == n,
        at_least_one(0) == 1,
{
}

} // verus!
