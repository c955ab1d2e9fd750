//! Accounting of I/O activity, as a store wrapper records it.
//!
//! The wrapper that watches an object store delegates every call and records
//! what it saw; the arithmetic of that record lives here, so the wrapper
//! itself only forwards values.

use vstd::prelude::*;

verus! {

/// One recorded read request.
#[derive(Debug)]
pub struct IoRequestRecord {
    pub method: String,
    pub path: String,
    pub range: Option<(u64, u64)>,
}

/// Counters of the I/O a store has served.
#[derive(Debug)]
pub struct IoStats {
    pub read_iops: u64,
    pub read_bytes: u64,
    pub write_iops: u64,
    pub write_bytes: u64,
    /// Number of disjoint periods where at least one request is in flight.
    pub num_hops: u64,
    pub requests: Vec<IoRequestRecord>,
}

impl IoStats {
    /// Fresh counters: everything zero, nothing recorded.
    pub fn new() -> (r: IoStats)
        ensures
            r.read_iops == 0,
            r.read_bytes == 0,
            r.write_iops == 0,
            r.write_bytes == 0,
            r.num_hops == 0,
            r.requests@.len() == 0,
    {
        IoStats {
            read_iops: 0,
            read_bytes: 0,
            write_iops: 0,
            write_bytes: 0,
            num_hops: 0,
            requests: Vec::new(),
        }
    }

    /// Record one read of `num_bytes` bytes: one more read operation, the
    /// bytes added, and the request remembered. Counters saturate at their
    /// width rather than wrap.
    pub fn record_read(
        &mut self,
        method: String,
        path: String,
        num_bytes: u64,
        range: Option<(u64, u64)>,
    ) -> (nothing: ())
        ensures
            final(self).read_iops == (if old(self).read_iops < u64::MAX {
                old(self).read_iops + 1
            } else {
                u64::MAX as int
            }),
            final(self).read_bytes == (if old(self).read_bytes + num_bytes <= u64::MAX {
                old(self).read_bytes + num_bytes
            } else {
                u64::MAX as int
            }),
            final(self).write_iops == old(self).write_iops,
            final(self).write_bytes == old(self).write_bytes,
            final(self).num_hops == old(self).num_hops,
            final(self).requests@.len() == old(self).requests@.len() + 1,
            final(self).requests@.last().method@ == method@,
            final(self).requests@.last().path@ == path@,
            final(self).requests@.last().range == range,
            forall|i: int|
                0 <= i < old(self).requests@.len() ==> final(self).requests@[i] == old(
                    self,
                ).requests@[i],
    {
        if self.read_iops < u64::MAX {
            self.read_iops = self.read_iops + 1;
        }
        if num_bytes <= u64::MAX - self.read_bytes {
            self.read_bytes = self.read_bytes + num_bytes;
        } else {
            self.read_bytes = u64::MAX;
        }
        self.requests.push(IoRequestRecord { method, path, range });
    }

    /// Record one write of `num_bytes` bytes. Counters saturate rather than
    /// wrap.
    pub fn record_write(&mut self, num_bytes: u64) -> (nothing: ())
        ensures
            final(self).write_iops == (if old(self).write_iops < u64::MAX {
                old(self).write_iops + 1
            } else {
                u64::MAX as int
            }),
            final(self).write_bytes == (if old(self).write_bytes + num_bytes <= u64::MAX {
                old(self).write_bytes + num_bytes
            } else {
                u64::MAX as int
            }),
            final(self).read_iops == old(self).read_iops,
            final(self).read_bytes == old(self).read_bytes,
            final(self).num_hops == old(self).num_hops,
            final(self).requests@ == old(self).requests@,
    {
        if self.write_iops < u64::MAX {
            self.write_iops = self.write_iops + 1;
        }
        if num_bytes <= u64::MAX - self.write_bytes {
            self.write_bytes = self.write_bytes + num_bytes;
        } else {
            self.write_bytes = u64::MAX;
        }
    }

    /// Record the end of a hop: a period during which at least one request
    /// was in flight has just drained. Called when the last in-flight
    /// request completes.
    pub fn record_hop(&mut self) -> (nothing: ())
        ensures
            final(self).num_hops == (if old(self).num_hops < u64::MAX {
                old(self).num_hops + 1
            } else {
                u64::MAX as int
            }),
            final(self).read_iops == old(self).read_iops,
            final(self).read_bytes == old(self).read_bytes,
            final(self).write_iops == old(self).write_iops,
            final(self).write_bytes == old(self).write_bytes,
            final(self).requests@ == old(self).requests@,
    {
        if self.num_hops < u64::MAX {
            self.num_hops = self.num_hops + 1;
        }
    }
}

impl Default for IoStats {
    /// Fresh counters.
    fn default() -> (r: IoStats)
        ensures
            r.read_iops == 0,
            r.read_bytes == 0,
            r.write_iops == 0,
            r.write_bytes == 0,
            r.num_hops == 0,
            r.requests@.len() == 0,
    {
        IoStats::new()
    }
}

} // verus!
