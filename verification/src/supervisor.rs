//! Minimal failover supervisor: a standby that promotes this process to writer
//! whenever the shared bucket prefix has no active lease. The embedding
//! application runs the standby loop (polling, sleeping and serving one
//! leadership term per promotion); each poll is one [`Supervisor::try_promote`].
use vstd::prelude::*;

use crate::config::Config;
use crate::error::Error;
use crate::lease::{spec_effective_ttl, spec_lease_key, HeldLease, LeaseOptions};
use crate::lsm::ObjectLsm;
use crate::manifest::ManifestCodec;
use crate::store::Store;

verus! {

/// Minimum standby poll interval in ms (prevents a zero-delay busy loop).
pub const MIN_POLL_MS: u64 = 10;

/// A standby supervisor over one shared prefix.
pub struct Supervisor<S: Store> {
    pub store: S,
    pub cfg: Config,
    pub opts: LeaseOptions,
    /// How often a standby re-checks the lease while another writer is
    /// healthy, in ms.
    pub poll_ms: u64,
}

impl<S: Store> Supervisor<S> {
    /// A supervisor polling every `poll_ms`; values below [`MIN_POLL_MS`] are
    /// raised to it.
    pub fn new(store: S, cfg: Config, opts: LeaseOptions, poll_ms: u64) -> (s: Self)
        ensures
            s.store == store,
            s.cfg == cfg,
            s.opts == opts,
            s.poll_ms == (if poll_ms < MIN_POLL_MS {
                MIN_POLL_MS
            } else {
                poll_ms
            }),
    {
        let poll_ms = if poll_ms < MIN_POLL_MS {
            MIN_POLL_MS
        } else {
            poll_ms
        };
        Supervisor { store, cfg, opts, poll_ms }
    }

    /// One standby poll at `now_ms`: try to win the lease under `epoch` and
    /// open the engine as the fenced writer. `Ok(None)` while another writer
    /// is healthy.
    pub fn try_promote<C: ManifestCodec>(&self, codec: C, now_ms: u128, epoch: u128) -> (r: Result<
        Option<(ObjectLsm<S, C>, HeldLease)>,
        Error,
    >)
        where S: Clone,
        requires
            now_ms + u64::MAX <= u128::MAX,
        ensures
            r matches Ok(Some((e, l))) ==> {
                &&& e.wf()
                &&& e.st.fence_epoch == epoch
                &&& !e.read_only
                &&& !e.lease_lost
                &&& l.key@ == spec_lease_key(self.cfg.prefix@)
                &&& l.owner@ == self.opts.owner@
                &&& l.ttl_ms == spec_effective_ttl(self.opts.ttl_ms)
                &&& l.epoch == epoch
                &&& !l.lost
            },
    {
        let cfg = self.cfg.clone_config();
        ObjectLsm::try_open_leased(self.store.clone(), codec, cfg, &self.opts, now_ms, epoch)
    }
}

} // verus!
