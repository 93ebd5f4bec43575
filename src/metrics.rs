//! Operation counters.
use vstd::prelude::*;

verus! {

/// Counters of the node's operations. Each saturates at `u64::MAX`.
#[derive(Debug, Default)]
pub struct DhtMetrics {
    /// Store operations started.
    pub store_ops: u64,
    /// Store operations that succeeded.
    pub store_success: u64,
    /// Find operations started.
    pub find_value_ops: u64,
    /// Find operations that found a value.
    pub find_value_success: u64,
    /// Requests sent to other nodes.
    pub rpc_requests: u64,
    /// Requests that failed.
    pub rpc_failures: u64,
    /// Peers in the routing table.
    pub known_peers: u64,
}

/// `x + 1`, held at `u64::MAX`.
pub open spec fn bump(x: u64) -> u64 {
    if x < u64::MAX {
        (x + 1) as u64
    } else {
        x
    }
}

/// A snapshot of the counters with the number of stored keys.
#[derive(Clone, Debug)]
pub struct DhtStats {
    pub store_ops: u64,
    pub store_success: u64,
    pub find_value_ops: u64,
    pub find_value_success: u64,
    pub rpc_requests: u64,
    pub rpc_failures: u64,
    pub known_peers: u64,
    pub storage_size: u64,
}

impl DhtMetrics {
    /// No more successes than attempts, for stores and for finds.
    pub open spec fn wf(&self) -> bool {
        self.store_success <= self.store_ops && self.find_value_success <= self.find_value_ops
    }

    /// All counters at zero.
    pub open spec fn new_spec() -> DhtMetrics {
        DhtMetrics {
            store_ops: 0,
            store_success: 0,
            find_value_ops: 0,
            find_value_success: 0,
            rpc_requests: 0,
            rpc_failures: 0,
            known_peers: 0,
        }
    }

    /// All counters at zero.
    pub fn new() -> (r: DhtMetrics)
        ensures
            r == DhtMetrics::new_spec(),
            r.wf(),
    {
        DhtMetrics {
            store_ops: 0,
            store_success: 0,
            find_value_ops: 0,
            find_value_success: 0,
            rpc_requests: 0,
            rpc_failures: 0,
            known_peers: 0,
        }
    }

    pub fn inc_store_ops(&mut self)
        ensures
            *final(self) == (DhtMetrics { store_ops: bump(old(self).store_ops), ..*old(self) }),
    {
        self.store_ops = self.store_ops.saturating_add(1);
    }

    pub fn inc_store_success(&mut self)
        ensures
            *final(self) == (DhtMetrics { store_success: bump(old(self).store_success), ..*old(self) }),
    {
        self.store_success = self.store_success.saturating_add(1);
    }

    pub fn inc_find_value_ops(&mut self)
        ensures
            *final(self) == (DhtMetrics { find_value_ops: bump(old(self).find_value_ops), ..*old(self) }),
    {
        self.find_value_ops = self.find_value_ops.saturating_add(1);
    }

    pub fn inc_find_value_success(&mut self)
        ensures
            *final(self) == (DhtMetrics {
                find_value_success: bump(old(self).find_value_success),
                ..*old(self)
            }),
    {
        self.find_value_success = self.find_value_success.saturating_add(1);
    }

    pub fn inc_rpc_requests(&mut self)
        ensures
            *final(self) == (DhtMetrics { rpc_requests: bump(old(self).rpc_requests), ..*old(self) }),
    {
        self.rpc_requests = self.rpc_requests.saturating_add(1);
    }

    pub fn inc_rpc_failures(&mut self)
        ensures
            *final(self) == (DhtMetrics { rpc_failures: bump(old(self).rpc_failures), ..*old(self) }),
    {
        self.rpc_failures = self.rpc_failures.saturating_add(1);
    }

    pub fn set_known_peers(&mut self, count: u64)
        ensures
            *final(self) == (DhtMetrics { known_peers: count, ..*old(self) }),
    {
        self.known_peers = count;
    }

    /// The counters now, with `storage_size` stored keys.
    pub fn snapshot(&self, storage_size: u64) -> (r: DhtStats)
        ensures
            r.store_ops == self.store_ops && r.store_success == self.store_success
                && r.find_value_ops == self.find_value_ops && r.find_value_success
                == self.find_value_success && r.rpc_requests == self.rpc_requests
                && r.rpc_failures == self.rpc_failures && r.known_peers == self.known_peers
                && r.storage_size == storage_size,
    {
        DhtStats {
            store_ops: self.store_ops,
            store_success: self.store_success,
            find_value_ops: self.find_value_ops,
            find_value_success: self.find_value_success,
            rpc_requests: self.rpc_requests,
            rpc_failures: self.rpc_failures,
            known_peers: self.known_peers,
            storage_size,
        }
    }
}

/// Counts a store operation, and its success if it succeeded. Attempts never
/// fall behind successes.
pub fn record_store_attempt(metrics: &mut DhtMetrics, success: bool)
    ensures
        final(metrics).store_ops == bump(old(metrics).store_ops),
        final(metrics).store_success == if success {
            bump(old(metrics).store_success)
        } else {
            old(metrics).store_success
        },
        (DhtMetrics { store_ops: 0, store_success: 0, ..*final(metrics) }) == (DhtMetrics {
            store_ops: 0,
            store_success: 0,
            ..*old(metrics)
        }),
        old(metrics).wf() ==> final(metrics).wf(),
{
    metrics.inc_store_ops();
    if success {
        metrics.inc_store_success();
    }
}

/// Counts a find operation, and its success if it found a value. Attempts
/// never fall behind successes.
pub fn record_find_attempt(metrics: &mut DhtMetrics, success: bool)
    ensures
        final(metrics).find_value_ops == bump(old(metrics).find_value_ops),
        final(metrics).find_value_success == if success {
            bump(old(metrics).find_value_success)
        } else {
            old(metrics).find_value_success
        },
        (DhtMetrics { find_value_ops: 0, find_value_success: 0, ..*final(metrics) }) == (
        DhtMetrics { find_value_ops: 0, find_value_success: 0, ..*old(metrics) }),
        old(metrics).wf() ==> final(metrics).wf(),
{
    metrics.inc_find_value_ops();
    if success {
        metrics.inc_find_value_success();
    }
}

} // verus!
