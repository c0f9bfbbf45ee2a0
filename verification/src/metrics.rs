//! Cumulative operation counters maintained by the engine plus a plain-value
//! snapshot type for observability.
use vstd::prelude::*;

verus! {

/// Cumulative operation counters. Counters wrap around on overflow.
#[derive(Clone, Debug)]
pub struct Metrics {
    commits: u64,
    commit_failures: u64,
    puts: u64,
    deletes: u64,
    gets: u64,
    refreshes: u64,
}

/// A point-in-time, plain-value snapshot of the counters and storage state.
#[derive(Debug, Clone, Copy, PartialEq, Eq)]
pub struct MetricsSnapshot {
    /// Commit attempts that passed the writer gate and entered the commit
    /// pipeline (a journal PUT failure is still counted here).
    pub commits: u64,
    /// Strict-mode journal-object PUT failures: the write was not acknowledged.
    pub commit_failures: u64,
    pub puts: u64,
    pub deletes: u64,
    pub gets: u64,
    /// Follower snapshot refreshes (always 0 for a writer).
    pub refreshes: u64,
    pub journal_count: usize,
    pub journal_bytes: u64,
    pub segments: usize,
    pub segment_bytes: u64,
    pub memtable_bytes: u64,
}

/// Counter increment with wrap-around.
pub open spec fn bump(c: u64, n: u64) -> u64 {
    ((c + n) % 0x1_0000_0000_0000_0000) as u64
}

impl Metrics {
    /// The counters as a snapshot with the storage fields at zero.
    pub closed spec fn spec_counters(&self) -> MetricsSnapshot {
        MetricsSnapshot {
            commits: self.commits,
            commit_failures: self.commit_failures,
            puts: self.puts,
            deletes: self.deletes,
            gets: self.gets,
            refreshes: self.refreshes,
            journal_count: 0,
            journal_bytes: 0,
            segments: 0,
            segment_bytes: 0,
            memtable_bytes: 0,
        }
    }

    /// All counters at zero.
    pub open spec fn new_counters() -> MetricsSnapshot {
        MetricsSnapshot {
            commits: 0,
            commit_failures: 0,
            puts: 0,
            deletes: 0,
            gets: 0,
            refreshes: 0,
            journal_count: 0,
            journal_bytes: 0,
            segments: 0,
            segment_bytes: 0,
            memtable_bytes: 0,
        }
    }

    pub fn new() -> (m: Metrics)
        ensures
            m.spec_counters() == (MetricsSnapshot {
                commits: 0,
                commit_failures: 0,
                puts: 0,
                deletes: 0,
                gets: 0,
                refreshes: 0,
                journal_count: 0,
                journal_bytes: 0,
                segments: 0,
                segment_bytes: 0,
                memtable_bytes: 0,
            }),
    {
        Metrics { commits: 0, commit_failures: 0, puts: 0, deletes: 0, gets: 0, refreshes: 0 }
    }

    pub fn bump_commit(&mut self)
        ensures
            final(self).spec_counters() == (MetricsSnapshot {
                commits: bump(old(self).spec_counters().commits, 1),
                ..old(self).spec_counters()
            }),
    {
        self.commits = self.commits.wrapping_add(1);
    }

    pub fn bump_commit_failure(&mut self)
        ensures
            final(self).spec_counters() == (MetricsSnapshot {
                commit_failures: bump(old(self).spec_counters().commit_failures, 1),
                ..old(self).spec_counters()
            }),
    {
        self.commit_failures = self.commit_failures.wrapping_add(1);
    }

    pub fn bump_puts(&mut self, n: u64)
        ensures
            final(self).spec_counters() == (MetricsSnapshot {
                puts: bump(old(self).spec_counters().puts, n),
                ..old(self).spec_counters()
            }),
    {
        self.puts = self.puts.wrapping_add(n);
    }

    pub fn bump_deletes(&mut self, n: u64)
        ensures
            final(self).spec_counters() == (MetricsSnapshot {
                deletes: bump(old(self).spec_counters().deletes, n),
                ..old(self).spec_counters()
            }),
    {
        self.deletes = self.deletes.wrapping_add(n);
    }

    pub fn bump_get(&mut self)
        ensures
            final(self).spec_counters() == (MetricsSnapshot {
                gets: bump(old(self).spec_counters().gets, 1),
                ..old(self).spec_counters()
            }),
    {
        self.gets = self.gets.wrapping_add(1);
    }

    pub fn bump_refresh(&mut self)
        ensures
            final(self).spec_counters() == (MetricsSnapshot {
                refreshes: bump(old(self).spec_counters().refreshes, 1),
                ..old(self).spec_counters()
            }),
    {
        self.refreshes = self.refreshes.wrapping_add(1);
    }

    /// Counter part of the snapshot; the storage-derived fields are zero and
    /// filled in by the engine, which owns the authoritative state.
    pub fn counters(&self) -> (s: MetricsSnapshot)
        ensures
            s == self.spec_counters(),
    {
        MetricsSnapshot {
            commits: self.commits,
            commit_failures: self.commit_failures,
            puts: self.puts,
            deletes: self.deletes,
            gets: self.gets,
            refreshes: self.refreshes,
            journal_count: 0,
            journal_bytes: 0,
            segments: 0,
            segment_bytes: 0,
            memtable_bytes: 0,
        }
    }
}

} // verus!
