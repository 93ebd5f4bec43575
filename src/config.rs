//! Node configuration. Durations are whole seconds.
use vstd::prelude::*;

verus! {

/// Configuration of a node.
#[derive(Debug, Clone)]
pub struct DhtConfig {
    pub replication: ReplicationConfig,
    /// Capacity of each k-bucket.
    pub kbucket_size: usize,
    pub connection_pool: ConnectionPoolConfig,
    pub storage: StorageConfig,
    /// Deadline of one request to another node, in seconds.
    pub operation_timeout: u64,
    /// Period of the maintenance task, in seconds.
    pub maintenance_interval: u64,
    pub health_check: HealthCheckConfig,
}

/// Connection pool settings.
#[derive(Debug, Clone)]
pub struct ConnectionPoolConfig {
    /// Connections open at once to one peer.
    pub max_connections_per_peer: usize,
    /// How long an idle connection is kept, in seconds.
    pub max_idle_time: u64,
    /// Deadline of a connection attempt, in seconds.
    pub connect_timeout: u64,
}

/// Storage settings.
#[derive(Debug, Clone)]
pub struct StorageConfig {
    /// Keys held at most.
    pub max_entries: usize,
    /// Time to live of a stored value, in seconds.
    pub default_ttl: u64,
    /// Period of the expiry sweep, in seconds.
    pub expiration_check_interval: u64,
}

/// Peer health check settings.
#[derive(Debug, Clone)]
pub struct HealthCheckConfig {
    /// Period of the checks, in seconds.
    pub interval: u64,
    /// Deadline of one check, in seconds.
    pub timeout: u64,
    /// Failed checks in a row after which a peer is dropped.
    pub max_failures: u8,
}

/// Replication settings.
#[derive(Debug, Clone)]
pub struct ReplicationConfig {
    /// Peers each value is sent to.
    pub factor: usize,
    /// Period of the replication refresh, in seconds.
    pub check_interval: u64,
    /// Replication requests in flight at once.
    pub parallelism: usize,
}

/// The default configuration.
pub open spec fn default_config() -> DhtConfig {
    DhtConfig {
        replication: ReplicationConfig { factor: 5, check_interval: 60, parallelism: 3 },
        kbucket_size: 20,
        connection_pool: ConnectionPoolConfig {
            max_connections_per_peer: 3,
            max_idle_time: 300,
            connect_timeout: 3,
        },
        storage: StorageConfig { max_entries: 10_000, default_ttl: 3600, expiration_check_interval: 60 },
        operation_timeout: 3,
        maintenance_interval: 30,
        health_check: HealthCheckConfig { interval: 30, timeout: 3, max_failures: 2 },
    }
}

impl Default for DhtConfig {
    fn default() -> (r: DhtConfig)
        ensures
            r == default_config(),
    {
        DhtConfig {
            replication: ReplicationConfig { factor: 5, check_interval: 60, parallelism: 3 },
            kbucket_size: 20,
            connection_pool: ConnectionPoolConfig {
                max_connections_per_peer: 3,
                max_idle_time: 300,
                connect_timeout: 3,
            },
            storage: StorageConfig {
                max_entries: 10_000,
                default_ttl: 3600,
                expiration_check_interval: 60,
            },
            operation_timeout: 3,
            maintenance_interval: 30,
            health_check: HealthCheckConfig { interval: 30, timeout: 3, max_failures: 2 },
        }
    }
}

} // verus!
