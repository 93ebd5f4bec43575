//! The wall clock, and a node set up for trying things out.
use vstd::prelude::*;
use crate::config::{DhtConfig, ReplicationConfig, StorageConfig, default_config};
use crate::metrics::DhtMetrics;
use crate::node::{DhtNode, id_of_addr};
use crate::peer::NetAddr;
use crate::routing::total_len;

verus! {

/// Relies on `std::time::SystemTime::elapsed` from the unix epoch: the
/// current unix time in whole seconds, or 0 on a clock set before 1970.
#[verifier::external_body]
pub fn now() -> (r: u64) {
    std::time::UNIX_EPOCH.elapsed().map(|d| d.as_secs()).unwrap_or(0)
}

/// A node at `127.0.0.1:port` whose values live one second, with room for
/// 2048 keys and replication to 5 peers; the rest of its configuration is
/// the default. It knows no peers, stores nothing and has counted nothing.
pub fn create_test_node(port: u16) -> (r: DhtNode)
    ensures
        r.wf(),
        r.addr == NetAddr::localhost_spec(port),
        r.id@ == id_of_addr(NetAddr::localhost_spec(port)),
        r.config == (DhtConfig {
            replication: ReplicationConfig { factor: 5, check_interval: 60, parallelism: 3 },
            storage: StorageConfig { max_entries: 2048, default_ttl: 1, expiration_check_interval: 1 },
            ..default_config()
        }),
        r.storage@.len() == 0,
        total_len(r.routing_table@) == 0,
        r.metrics == DhtMetrics::new_spec(),
{
    let base = DhtConfig::default();
    let config = DhtConfig {
        replication: ReplicationConfig { factor: 5, check_interval: 60, parallelism: 3 },
        storage: StorageConfig { max_entries: 2048, default_ttl: 1, expiration_check_interval: 1 },
        ..base
    };
    DhtNode::new(NetAddr::localhost(port), Some(config))
}

} // verus!
