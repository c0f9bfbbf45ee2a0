use wedb_object_lsm::lease::{
    acquire_step, held_by_owner, lease_key, lease_payload, parse_payload, renew_step,
    AcquireStep, HeldLease, LeaseOptions, RenewStep,
};
use wedb_object_lsm::store::{MemoryStore, Store};

fn opts(owner: &str, ttl_ms: u64) -> LeaseOptions {
    LeaseOptions { owner: owner.to_string(), ttl_ms, timeout_ms: 0, heartbeat: false }
}

fn owner_of(bytes: &[u8]) -> String {
    parse_payload(bytes).unwrap().0.into_iter().collect()
}

#[test]
fn lease_key_appends_lease() {
    assert_eq!(lease_key("bucket/shard0"), "bucket/shard0/lease");
}

#[test]
fn default_options_match_the_documented_values() {
    let o = LeaseOptions::default();
    assert_eq!(o.owner, "writer");
    assert_eq!(o.ttl_ms, 30_000);
    assert_eq!(o.timeout_ms, 5_000);
    assert!(o.heartbeat);
}

#[test]
fn payload_round_trips_through_the_parser() {
    let b = lease_payload("node-a", 1_000, 250, 77);
    assert_eq!(b, b"node-a\n1250\n77".to_vec());
    let (o, exp, ep) = parse_payload(&b).unwrap();
    assert_eq!(o.into_iter().collect::<String>(), "node-a");
    assert_eq!(exp, 1250);
    assert_eq!(ep, 77);
}

#[test]
fn parser_trims_fields_and_defaults_the_epoch() {
    let (o, exp, ep) = parse_payload(b"w\n 42 \n").unwrap();
    assert_eq!(o.into_iter().collect::<String>(), "w");
    assert_eq!(exp, 42);
    assert_eq!(ep, 0);
    let (_, exp, ep) = parse_payload(b"w\n7").unwrap();
    assert_eq!((exp, ep), (7, 0));
    let (_, _, ep) = parse_payload(b"w\n7\nnot-a-number").unwrap();
    assert_eq!(ep, 0);
    let (_, _, ep) = parse_payload(b"w\n7\n9\nextra").unwrap();
    assert_eq!(ep, 9);
}

#[test]
fn parser_reports_corruption() {
    let e = parse_payload(b"only-owner").unwrap_err();
    assert_eq!(e.message(), "corrupted object data: lease payload malformed");
    let e = parse_payload(b"w\nsoon").unwrap_err();
    assert_eq!(e.message(), "corrupted object data: lease expiry malformed");
    let e = parse_payload(&[0xff, 0xfe]).unwrap_err();
    assert_eq!(e.message(), "corrupted object data: lease not utf-8");
}

#[test]
fn acquire_step_follows_the_record() {
    assert_eq!(acquire_step(&None, 10), AcquireStep::Create);
    let rec = lease_payload("a", 0, 100, 1);
    assert_eq!(acquire_step(&Some(rec.clone()), 99), AcquireStep::Busy);
    assert_eq!(acquire_step(&Some(rec.clone()), 100), AcquireStep::TakeOver);
    assert_eq!(acquire_step(&Some(b"garbage".to_vec()), 1000), AcquireStep::Busy);
}

#[test]
fn renew_step_checks_the_owner() {
    assert_eq!(renew_step(&None, "a").unwrap(), RenewStep::Lost);
    let rec = lease_payload("a", 0, 100, 1);
    assert_eq!(renew_step(&Some(rec.clone()), "a").unwrap(), RenewStep::Swap);
    assert_eq!(renew_step(&Some(rec.clone()), "b").unwrap(), RenewStep::Lost);
    assert!(renew_step(&Some(b"x".to_vec()), "a").is_err());
    assert!(held_by_owner(&Some(rec.clone()), "a"));
    assert!(!held_by_owner(&Some(rec), "ab"));
    assert!(!held_by_owner(&None, "a"));
}

#[test]
fn acquire_release_handoff() {
    let mut s = MemoryStore::new();
    let a = HeldLease::try_acquire_once(&mut s, "l/handoff", &opts("a", 120), 0, 1).unwrap().unwrap();
    assert_eq!(a.owner(), "a");
    assert!(!a.is_lost());
    a.release(&mut s);

    let b = HeldLease::try_acquire_once(&mut s, "l/handoff", &opts("b", 120), 0, 2).unwrap().unwrap();
    assert_eq!(b.owner(), "b");
    b.release(&mut s);
}

#[test]
fn stale_lease_can_be_taken_over() {
    let mut s = MemoryStore::new();
    // No heartbeat: lease expires on its own.
    let mut a = HeldLease::try_acquire_once(&mut s, "l/stale", &opts("a", 120), 0, 1).unwrap().unwrap();
    let b = HeldLease::try_acquire_once(&mut s, "l/stale", &opts("b", 120), 200, 2).unwrap().unwrap();
    assert_eq!(b.owner(), "b");
    // The first owner's renewal now fails (it lost the lease).
    assert!(!a.renew(&mut s, 210).unwrap());
}

#[test]
fn acquire_handoff_checks_the_record() {
    let mut store = MemoryStore::new();
    let a = HeldLease::try_acquire_once(&mut store, "t/lease", &opts("a", 60_000), 1_000, 1)
        .unwrap()
        .expect("first writer wins");
    assert_eq!(a.owner(), "a");
    assert_eq!(a.epoch(), 1);
    assert_eq!(a.key, "t/lease/lease");
    // a live lease keeps the second writer out
    assert!(HeldLease::try_acquire_once(&mut store, "t/lease", &opts("b", 60_000), 2_000, 2)
        .unwrap()
        .is_none());
    a.release(&mut store);
    assert_eq!(store.get("t/lease/lease").unwrap(), None);
    let b = HeldLease::try_acquire_once(&mut store, "t/lease", &opts("b", 60_000), 3_000, 3)
        .unwrap()
        .expect("free lease");
    assert_eq!(b.owner(), "b");
    assert_eq!(owner_of(&store.get("t/lease/lease").unwrap().unwrap()), "b");
}

#[test]
fn expired_lease_is_taken_over_and_the_old_holder_loses_it() {
    let mut store = MemoryStore::new();
    let mut a = HeldLease::try_acquire_once(&mut store, "p", &opts("a", 100), 1_000, 1)
        .unwrap()
        .unwrap();
    // before expiry (1_100) nobody else gets in
    assert!(HeldLease::try_acquire_once(&mut store, "p", &opts("b", 100), 1_099, 2)
        .unwrap()
        .is_none());
    let b = HeldLease::try_acquire_once(&mut store, "p", &opts("b", 100), 1_100, 2)
        .unwrap()
        .expect("stale lease taken over");
    assert_eq!(b.epoch(), 2);
    assert!(!a.renew(&mut store, 1_150).unwrap());
    assert!(a.is_lost());
    // releasing a lease we no longer hold leaves the successor's record alone
    a.release(&mut store);
    assert_eq!(owner_of(&store.get("p/lease").unwrap().unwrap()), "b");
}

#[test]
fn renew_extends_the_expiry() {
    let mut store = MemoryStore::new();
    let mut a = HeldLease::try_acquire_once(&mut store, "p", &opts("a", 100), 1_000, 5)
        .unwrap()
        .unwrap();
    assert!(a.renew(&mut store, 1_050).unwrap());
    assert!(!a.is_lost());
    let (_, exp, ep) = parse_payload(&store.get("p/lease").unwrap().unwrap()).unwrap();
    assert_eq!((exp, ep), (1_150, 5));
    assert!(a.heartbeat_renew(&mut store, 1_120));
    store.delete("p/lease").unwrap();
    assert!(!a.heartbeat_renew(&mut store, 1_130));
    assert!(a.is_lost());
}

#[test]
fn zero_ttl_is_raised_to_one_ms_and_heartbeat_interval_has_a_floor() {
    let mut store = MemoryStore::new();
    let a = HeldLease::try_acquire_once(&mut store, "z", &opts("a", 0), 10, 0)
        .unwrap()
        .unwrap();
    assert_eq!(a.ttl_ms, 1);
    assert_eq!(a.heartbeat_interval_ms(), 50);
    let (_, exp, _) = parse_payload(&store.get("z/lease").unwrap().unwrap()).unwrap();
    assert_eq!(exp, 11);
    let b = HeldLease { key: "k".to_string(), owner: "o".to_string(), ttl_ms: 30_000, epoch: 0, lost: false };
    assert_eq!(b.heartbeat_interval_ms(), 10_000);
}

#[test]
fn shard_prefix_leases_are_independent() {
    let mut store = MemoryStore::new();
    let a = HeldLease::try_acquire_once(&mut store, "db/shard0", &opts("a", 60_000), 0, 1).unwrap();
    let b = HeldLease::try_acquire_once(&mut store, "db/shard1", &opts("b", 60_000), 0, 2).unwrap();
    assert!(a.is_some());
    assert!(b.is_some());
}

#[test]
fn try_acquire_once_is_nonblocking_and_release_handoff() {
    let mut s = MemoryStore::new();
    let a = HeldLease::try_acquire_once(&mut s, "ha/t1", &opts("a", 60_000), 0, 1).unwrap().unwrap();
    assert_eq!(a.owner(), "a");
    let b = HeldLease::try_acquire_once(&mut s, "ha/t1", &opts("b", 60_000), 1, 2).unwrap();
    assert!(b.is_none(), "held lease must not be acquirable");
    a.release(&mut s);
    let c = HeldLease::try_acquire_once(&mut s, "ha/t1", &opts("c", 60_000), 2, 3).unwrap();
    assert!(c.is_some(), "released lease must be acquirable");
}

#[test]
fn three_way_stale_takeover_yields_single_owner() {
    let mut s = MemoryStore::new();
    let prefix = "rf/three";
    s.put(&lease_key(prefix), b"old-owner\n1").unwrap(); // expired long ago
    let mut winners = Vec::new();
    for i in 0..3 {
        let owner = format!("w{i}");
        if let Some(l) = HeldLease::try_acquire_once(&mut s, prefix, &opts(&owner, 30_000), 1_000, i as u128 + 1).unwrap() {
            winners.push(l);
        }
    }
    assert_eq!(winners.len(), 1, "exactly one contender must win with CAS takeover");
    let owner = owner_of(&s.get(&lease_key(prefix)).unwrap().expect("lease present"));
    assert_eq!(owner, winners[0].owner());
    assert!(owner == "w0" || owner == "w1" || owner == "w2");
}

#[test]
fn heartbeat_then_release_leaves_no_lease() {
    let mut s = MemoryStore::new();
    let mut lease = HeldLease::try_acquire_once(&mut s, "rf/release", &opts("w", 1_000), 0, 1).unwrap().unwrap();
    assert!(lease.heartbeat_renew(&mut s, 80)); // the heartbeat renews at least once
    lease.release(&mut s);
    assert_eq!(s.get(&lease_key("rf/release")).unwrap(), None, "release must delete the lease");
    let next = HeldLease::try_acquire_once(&mut s, "rf/release", &opts("next", 30_000), 100, 2).unwrap().unwrap();
    assert_eq!(next.owner(), "next");
}
