use std::cell::{Cell, RefCell};
use std::collections::BTreeMap;
use std::rc::Rc;

use wedb_object_lsm::codec::{put_bytes, put_str, put_u32, put_u64, Reader};
use wedb_object_lsm::config::Config;
use wedb_object_lsm::cursor::{BackCursor, FwdCursor, ObjectLsmIter};
use wedb_object_lsm::scan::Bounds;
use wedb_object_lsm::error::Error;
use wedb_object_lsm::handle::{ObjectLsmBatch, ObjectLsmEntry, ObjectLsmPartition};
use wedb_object_lsm::lease::LeaseOptions;
use wedb_object_lsm::keys::{journal_prefix, manifest_prefix, segment_key, segment_root};
use wedb_object_lsm::lsm::ObjectLsm;
use wedb_object_lsm::cache::IndexCache;
use wedb_object_lsm::journal::{encode_group, Group, Op};
use wedb_object_lsm::keys::journal_key_epoch;
use wedb_object_lsm::manifest::{Manifest, ManifestCodec, PartitionMeta};
use wedb_object_lsm::scan::KeyBound;
use wedb_object_lsm::segment::{BlockMeta, SegmentIndex, SegmentMeta};
use wedb_object_lsm::store::{MemoryStore, Store};
use wedb_object_lsm::supervisor::Supervisor;

/// A compact binary manifest encoding, enough for the engine to publish and
/// recover its state in these tests.
struct TestCodec;

impl ManifestCodec for TestCodec {
    fn encode_manifest(&self, m: &Manifest) -> Result<Vec<u8>, Error> {
        let mut out = Vec::new();
        put_u64(&mut out, m.seq);
        put_u64(&mut out, m.next_segment_id);
        put_u64(&mut out, m.next_journal_seq);
        put_u64(&mut out, (m.fence_epoch >> 64) as u64);
        put_u64(&mut out, m.fence_epoch as u64);
        put_u32(&mut out, m.partitions.len() as u32);
        for (name, pm) in &m.partitions {
            put_str(&mut out, name)?;
            put_u64(&mut out, pm.watermark);
            out.push(pm.dropped as u8);
            put_u32(&mut out, pm.segments.len() as u32);
            for s in &pm.segments {
                put_u64(&mut out, s.id);
                put_u64(&mut out, s.seq);
                put_bytes(&mut out, &s.first)?;
                put_bytes(&mut out, &s.last)?;
                put_u64(&mut out, s.count);
                put_u64(&mut out, s.tombstones);
                put_u64(&mut out, s.bytes);
                put_u64(&mut out, s.blocks);
                match &s.index {
                    None => out.push(0),
                    Some(ix) => {
                        out.push(1);
                        put_u32(&mut out, ix.blocks.len() as u32);
                        for b in &ix.blocks {
                            put_u32(&mut out, b.offset);
                            put_u32(&mut out, b.len);
                            put_bytes(&mut out, &b.first)?;
                        }
                    }
                }
            }
        }
        Ok(out)
    }

    fn decode_manifest(&self, bytes: &[u8]) -> Result<Manifest, Error> {
        let mut r = Reader::new(bytes);
        let seq = r.u64()?;
        let next_segment_id = r.u64()?;
        let next_journal_seq = r.u64()?;
        let hi = r.u64()? as u128;
        let lo = r.u64()? as u128;
        let np = r.u32()?;
        let mut partitions = Vec::new();
        for _ in 0..np {
            let name = r.str()?;
            let watermark = r.u64()?;
            let dropped = r.u8()? != 0;
            let ns = r.u32()?;
            let mut segments = Vec::new();
            for _ in 0..ns {
                let id = r.u64()?;
                let seq = r.u64()?;
                let first = r.bytes()?;
                let last = r.bytes()?;
                let count = r.u64()?;
                let tombstones = r.u64()?;
                let bytes = r.u64()?;
                let blocks = r.u64()?;
                let index = if r.u8()? == 0 {
                    None
                } else {
                    let nb = r.u32()?;
                    let mut bs = Vec::new();
                    for _ in 0..nb {
                        let offset = r.u32()?;
                        let len = r.u32()?;
                        let first = r.bytes()?;
                        bs.push(BlockMeta { offset, len, first });
                    }
                    Some(SegmentIndex { blocks: bs })
                };
                segments.push(SegmentMeta {
                    id,
                    seq,
                    first,
                    last,
                    count,
                    tombstones,
                    bytes,
                    blocks,
                    index,
                });
            }
            partitions.push((name, PartitionMeta { segments, watermark, dropped }));
        }
        Ok(Manifest {
            seq,
            next_segment_id,
            next_journal_seq,
            partitions,
            fence_epoch: (hi << 64) | lo,
        })
    }
}

type Db = ObjectLsm<MemoryStore, TestCodec>;

fn cfg(prefix: &str, max_memtable: u64) -> Config {
    Config::new(prefix.to_string()).max_memtable_bytes(max_memtable)
}

fn open(prefix: &str, max_memtable: u64) -> Db {
    ObjectLsm::open(MemoryStore::new(), TestCodec, cfg(prefix, max_memtable)).unwrap()
}

fn reopen(db: Db, prefix: &str, max_memtable: u64) -> Db {
    let store = db.store;
    ObjectLsm::open(store, TestCodec, cfg(prefix, max_memtable)).unwrap()
}

fn part(db: &mut Db, name: &str) -> ObjectLsmPartition {
    ObjectLsmPartition::open(db, name).unwrap()
}

fn entries(p: &ObjectLsmPartition, db: &mut Db) -> Vec<ObjectLsmEntry> {
    p.iter(db).unwrap()
}

fn keys_of(p: &ObjectLsmPartition, db: &mut Db) -> Vec<Vec<u8>> {
    entries(p, db).into_iter().map(|e| e.key().clone()).collect()
}

fn len_of(p: &ObjectLsmPartition, db: &mut Db) -> usize {
    entries(p, db).len()
}

#[test]
fn put_get_rm_basic() {
    let mut db = open("t/basic", 1 << 20);
    let p = part(&mut db, "data");
    assert!(p.get(&mut db, b"a").unwrap().is_none());
    p.insert(&mut db, b"a", b"1").unwrap();
    p.insert(&mut db, b"b", b"2").unwrap();
    assert_eq!(p.get(&mut db, b"a").unwrap().unwrap(), b"1");
    assert_eq!(p.get(&mut db, b"a").unwrap().map(|v| v.len()), Some(1));
    assert!(p.get(&mut db, b"a").unwrap().is_some());
    assert_eq!(len_of(&p, &mut db), 2);
    p.rm(&mut db, b"a").unwrap();
    assert_eq!(p.get(&mut db, b"a").unwrap(), None);
    assert_eq!(len_of(&p, &mut db), 1);
    p.clear(&mut db).unwrap();
    assert!(entries(&p, &mut db).is_empty());
}

#[test]
fn journal_replay_survives_without_flush() {
    // Large memtable budget: no segment flush; durability comes from journal.
    let mut db = open("t/replay", 1 << 20);
    let p = part(&mut db, "data");
    for i in 0..100u32 {
        p.insert(&mut db, format!("k{i:03}").as_bytes(), b"v").unwrap();
    }
    let mut db2 = reopen(db, "t/replay", 1 << 20);
    let p2 = part(&mut db2, "data");
    assert_eq!(len_of(&p2, &mut db2), 100);
    assert_eq!(p2.get(&mut db2, b"k042").unwrap().unwrap(), b"v");
}

#[test]
fn segment_flush_survives_reopen() {
    // Tiny memtable budget forces flush into immutable segments.
    let mut db = open("t/flush", 32);
    let p = part(&mut db, "data");
    for i in 0..50u32 {
        p.insert(&mut db, format!("key{i:03}").as_bytes(), format!("val{i}").as_bytes())
            .unwrap();
    }
    assert!(
        p.table_count(&db) >= 2,
        "expected multiple segments, got {}",
        p.table_count(&db)
    );
    let mut db2 = reopen(db, "t/flush", 32);
    let p2 = part(&mut db2, "data");
    assert_eq!(len_of(&p2, &mut db2), 50);
    for i in (0..50u32).step_by(7) {
        assert_eq!(
            p2.get(&mut db2, format!("key{i:03}").as_bytes()).unwrap().unwrap(),
            format!("val{i}").as_bytes()
        );
    }
}

#[test]
fn tombstone_shadows_older_segment_after_reopen() {
    let mut db = open("t/tomb", 32);
    let p = part(&mut db, "data");
    p.insert(&mut db, b"k", b"v1").unwrap(); // flush seg1
    p.rm(&mut db, b"k").unwrap(); // flush seg2 with tombstone
    assert_eq!(p.get(&mut db, b"k").unwrap(), None);
    assert!(entries(&p, &mut db).is_empty());
    let mut db2 = reopen(db, "t/tomb", 32);
    let p2 = part(&mut db2, "data");
    assert_eq!(
        p2.get(&mut db2, b"k").unwrap(),
        None,
        "tombstone must shadow old segment value"
    );
    assert!(entries(&p2, &mut db2).is_empty());
}

#[test]
fn cross_partition_batch_is_atomic() {
    let mut db = open("t/batch", 32);
    let a = part(&mut db, "a");
    let m = part(&mut db, "m");
    let mut b = ObjectLsmBatch::new();
    b.insert(&a, b"k", b"va");
    b.insert(&m, b"meta", b"vm");
    assert_eq!(b.len(), 2);
    b.commit(&mut db).unwrap();

    let mut db2 = reopen(db, "t/batch", 32);
    let a2 = part(&mut db2, "a");
    let m2 = part(&mut db2, "m");
    assert_eq!(a2.get(&mut db2, b"k").unwrap().unwrap(), b"va");
    assert_eq!(m2.get(&mut db2, b"meta").unwrap().unwrap(), b"vm");
}

#[test]
fn iteration_order_range_prefix_double_ended() {
    let mut db = open("t/iter", 1 << 20);
    let p = part(&mut db, "data");
    for (k, v) in [("3", "c"), ("1", "a"), ("2", "b"), ("user:1", "u1"), ("user:2", "u2")] {
        p.insert(&mut db, k.as_bytes(), v.as_bytes()).unwrap();
    }
    let all = keys_of(&p, &mut db);
    let expect: Vec<&[u8]> = vec![b"1", b"2", b"3", b"user:1", b"user:2"];
    assert_eq!(all, expect);

    // double-ended from the back
    let mut it = ObjectLsmIter::new(p.iter(&mut db).unwrap());
    let last = it.next_back().unwrap();
    assert_eq!(last.key().to_vec(), b"user:2");

    // prefix scan
    let prefixed: Vec<Vec<u8>> =
        p.prefix(&mut db, b"user:").unwrap().into_iter().map(|e| e.key().to_vec()).collect();
    assert_eq!(prefixed, vec![b"user:1".to_vec(), b"user:2".to_vec()]);

    // range scan [2, user:1]
    let ranged: Vec<Vec<u8>> = p
        .range(&mut db, KeyBound::Included(b"2".to_vec()), KeyBound::Included(b"user:1".to_vec()))
        .unwrap()
        .into_iter()
        .map(|e| e.key().to_vec())
        .collect();
    assert_eq!(ranged, vec![b"2".to_vec(), b"3".to_vec(), b"user:1".to_vec()]);

    // first / last entry
    let all = entries(&p, &mut db);
    assert_eq!(all.first().unwrap().key().to_vec(), b"1");
    assert_eq!(all.last().unwrap().key().to_vec(), b"user:2");
}

#[test]
fn rm_partition_and_recreate() {
    let mut db = open("t/rmpart", 32);
    let p = part(&mut db, "data");
    p.insert(&mut db, b"k", b"v").unwrap();
    assert!(db.partition_exists("data"));
    db.rm_partition("data").unwrap();
    assert!(!db.partition_exists("data"));

    // Reopen: partition entry survives (dropped) so stale journal groups never
    // resurrect; a fresh partition() recreates it empty.
    let mut db2 = reopen(db, "t/rmpart", 32);
    assert!(!db2.partition_exists("data"));
    let p2 = part(&mut db2, "data");
    assert!(db2.partition_exists("data"));
    assert!(entries(&p2, &mut db2).is_empty());
    assert_eq!(p2.get(&mut db2, b"k").unwrap(), None, "dropped data must not resurrect");
}

#[test]
fn disk_space_and_metrics() {
    let mut db = open("t/metrics", 32);
    let p = part(&mut db, "data");
    for i in 0..20u32 {
        p.insert(&mut db, format!("k{i}").as_bytes(), b"payload-payload").unwrap();
    }
    assert!(db.disk_space().unwrap() > 0);
    assert!(db.write_buffer_size() <= 32);
}

#[test]
fn multi_block_segment_reads_via_range() {
    // One flush with many small blocks: point lookups and scans must hit the
    // right block via the block index (Range GET path), not full-object reads.
    let c = Config::new("t/blocks".to_string()).max_memtable_bytes(1 << 20).block_size(64);
    let mut db = ObjectLsm::open(MemoryStore::new(), TestCodec, c).unwrap();
    let p = part(&mut db, "data");
    for i in 0..2000u32 {
        p.insert(&mut db, format!("key{i:05}").as_bytes(), format!("value-{i}").as_bytes())
            .unwrap();
    }
    db.compact_all().unwrap(); // single segment, many blocks
    assert_eq!(p.table_count(&db), 1);
    for i in (0..2000u32).step_by(13) {
        assert_eq!(
            p.get(&mut db, format!("key{i:05}").as_bytes()).unwrap().unwrap(),
            format!("value-{i}").as_bytes()
        );
    }
    assert!(db.cache_size() > 0, "block cache should be populated by reads");
    let prefixed: Vec<Vec<u8>> =
        p.prefix(&mut db, b"key01").unwrap().into_iter().map(|e| e.key().to_vec()).collect();
    assert_eq!(prefixed.len(), 1000);
    assert_eq!(prefixed.first().unwrap(), b"key01000");

    let mut db2 = reopen(db, "t/blocks", 1 << 20);
    let p2 = part(&mut db2, "data");
    assert_eq!(p2.get(&mut db2, b"key01999").unwrap().unwrap(), b"value-1999");
    assert_eq!(len_of(&p2, &mut db2), 2000);
}

const N: u32 = 60;

fn key(i: u32) -> Vec<u8> {
    format!("k{i:03}").into_bytes()
}

fn no_auto_cfg(prefix: &str) -> Config {
    // max_segments very high disables auto compaction so tests control it.
    Config::new(prefix.to_string())
        .max_memtable_bytes(40)
        .block_size(64)
        .max_segments_before_compact(1_000_000)
}

fn open_no_auto(prefix: &str) -> Db {
    ObjectLsm::open(MemoryStore::new(), TestCodec, no_auto_cfg(prefix)).unwrap()
}

fn collect_map(p: &ObjectLsmPartition, db: &mut Db) -> BTreeMap<Vec<u8>, Vec<u8>> {
    entries(p, db).into_iter().map(|e| (e.key().to_vec(), e.value().to_vec())).collect()
}

#[test]
fn compaction_merges_segments_and_reclaims() {
    let mut db = open_no_auto("m3/merge");
    let p = part(&mut db, "data");
    let mut expect: BTreeMap<Vec<u8>, Vec<u8>> = BTreeMap::new();
    for i in 0..N {
        let (k, v) = (key(i), format!("v{i}-0").into_bytes());
        p.insert(&mut db, &k, &v).unwrap();
        expect.insert(k, v);
    }
    // overwrite every 3rd, delete every 7th -> many small segments
    for i in 0..N {
        let k = key(i);
        if i % 7 == 0 {
            p.rm(&mut db, &k).unwrap();
            expect.remove(&k);
        } else if i % 3 == 0 {
            let v = format!("v{i}-1").into_bytes();
            p.insert(&mut db, &k, &v).unwrap();
            expect.insert(k, v);
        }
    }
    assert!(
        p.table_count(&db) > 4,
        "expected many pre-compaction segments, got {}",
        p.table_count(&db)
    );

    let completed_before = db.compactions_completed();
    db.compact_all().unwrap();
    assert_eq!(p.table_count(&db), 1, "compaction must merge to a single segment");
    assert!(db.compactions_completed() > completed_before);
    assert_eq!(collect_map(&p, &mut db), expect, "merged view must equal live map");

    // old segment objects must be deleted from the store
    let seg_objects = db.store.list(&segment_root("m3/merge")).unwrap();
    assert_eq!(seg_objects.len(), 1, "only the merged segment should remain");

    // and survive a reopen
    let store = db.store;
    let mut db2 = ObjectLsm::open(store, TestCodec, no_auto_cfg("m3/merge")).unwrap();
    let p2 = part(&mut db2, "data");
    assert_eq!(collect_map(&p2, &mut db2), expect);
    assert_eq!(p2.table_count(&db2), 1);
}

#[test]
fn compaction_empty_partition_drops_all_segments() {
    let mut db = open_no_auto("m3/empty");
    let p = part(&mut db, "data");
    for i in 0..20u32 {
        p.insert(&mut db, &key(i), b"v").unwrap();
    }
    for i in 0..20u32 {
        p.rm(&mut db, &key(i)).unwrap();
    }
    assert!(p.table_count(&db) >= 2);
    db.compact_all().unwrap();
    assert_eq!(p.table_count(&db), 0);
    assert!(entries(&p, &mut db).is_empty());
    let store = db.store;
    let mut db2 = ObjectLsm::open(store, TestCodec, no_auto_cfg("m3/empty")).unwrap();
    let p2 = part(&mut db2, "data");
    assert!(entries(&p2, &mut db2).is_empty());
    assert_eq!(p2.table_count(&db2), 0);
}

#[test]
fn auto_compaction_respects_segment_limit() {
    let c = || {
        Config::new("m3/auto".to_string())
            .max_memtable_bytes(40)
            .block_size(64)
            .max_segments_before_compact(4)
    };
    let mut db = ObjectLsm::open(MemoryStore::new(), TestCodec, c()).unwrap();
    let p = part(&mut db, "data");
    for i in 0..N {
        p.insert(&mut db, &key(i), format!("v{i}").as_bytes()).unwrap();
    }
    assert!(
        p.table_count(&db) <= 4,
        "auto compaction must keep segments <= 4, got {}",
        p.table_count(&db)
    );
    assert!(db.compactions_completed() >= 1, "auto compaction should have run");
    assert_eq!(len_of(&p, &mut db), N as usize);
    let store = db.store;
    let mut db2 = ObjectLsm::open(store, TestCodec, c()).unwrap();
    let p2 = part(&mut db2, "data");
    assert_eq!(len_of(&p2, &mut db2), N as usize);
}

#[test]
fn journal_gc_removes_folded_groups() {
    let mut db = open_no_auto("m3/jgc");
    let p = part(&mut db, "data");
    for i in 0..N {
        p.insert(&mut db, &key(i), format!("v{i}").as_bytes()).unwrap();
    }
    // Every insert flushed + advanced the partition watermark, so applied
    // journal groups should have been deleted eagerly.
    let journals = db.store.list(&journal_prefix("m3/jgc")).unwrap();
    assert!(journals.len() < N as usize / 2, "journal GC lagging: {} objects left", journals.len());
    let store = db.store;
    let mut db2 = ObjectLsm::open(store, TestCodec, no_auto_cfg("m3/jgc")).unwrap();
    let p2 = part(&mut db2, "data");
    assert_eq!(len_of(&p2, &mut db2), N as usize);
    // Startup GC should also have run on any leftovers.
    let journals2 = db2.store.list(&journal_prefix("m3/jgc")).unwrap();
    assert!(journals2.is_empty(), "leftover journal objects: {journals2:?}");
}

#[test]
fn orphan_objects_gc_at_open() {
    let mut db = open_no_auto("m3/orphan");
    let p = part(&mut db, "data");
    for i in 0..10u32 {
        p.insert(&mut db, &key(i), b"v").unwrap();
    }
    let mut store = db.store;

    // Inject orphan objects that no manifest references.
    store.put(&segment_key("m3/orphan", "data", 424_242), b"orphan segment").unwrap();
    store.put(&segment_key("m3/orphan", "ghost", 1), b"ghost partition segment").unwrap();
    store
        .put(&format!("{}/manifest/{:020}", "m3/orphan", 999_999_999u64), b"orphan manifest")
        .unwrap();
    store
        .put(&format!("{}/manifest/{:020}", "m3/orphan", 999_999_998u64), b"orphan manifest2")
        .unwrap();

    let mut db2 = ObjectLsm::open(store, TestCodec, no_auto_cfg("m3/orphan")).unwrap();
    let p2 = part(&mut db2, "data");
    assert_eq!(len_of(&p2, &mut db2), 10);

    let segs = db2.store.list(&segment_root("m3/orphan")).unwrap();
    assert!(
        segs.iter().all(|k| !k.ends_with("424242") && !k.contains("ghost")),
        "orphans not removed: {segs:?}"
    );
    assert_eq!(segs.len(), p2.table_count(&db2));

    let mans = db2.store.list(&manifest_prefix("m3/orphan")).unwrap();
    let numeric: Vec<&str> =
        mans.iter().filter(|k| !k.ends_with("/current")).map(|s| s.as_str()).collect();
    assert_eq!(numeric.len(), 1, "only the current manifest should survive, got {numeric:?}");
}

// ----- streaming scans over merged segments -----

const SN: u32 = 600;

fn val(i: u32, g: u32) -> Vec<u8> {
    format!("v{i:03}-{g}").into_bytes()
}

fn open_stream(prefix: &str) -> Db {
    let c = Config::new(prefix.to_string()).max_memtable_bytes(1 << 20).block_size(64);
    ObjectLsm::open(MemoryStore::new(), TestCodec, c).unwrap()
}

/// Build 3 segments with overwrites + deletes; returns the expected live map.
fn build(db: &mut Db) -> BTreeMap<Vec<u8>, Vec<u8>> {
    let p = part(db, "data");
    let mut expect: BTreeMap<Vec<u8>, Vec<u8>> = BTreeMap::new();

    // segment 1: all keys, gen 0
    for i in 0..SN {
        let k = key(i);
        let v = val(i, 0);
        p.insert(db, &k, &v).unwrap();
        expect.insert(k, v);
    }
    db.compact_all().unwrap();

    // segment 2: overwrite i%3==0, delete i%7==0
    for i in 0..SN {
        let k = key(i);
        if i % 7 == 0 {
            p.rm(db, &k).unwrap();
            expect.remove(&k);
        } else if i % 3 == 0 {
            let v = val(i, 1);
            p.insert(db, &k, &v).unwrap();
            expect.insert(k.clone(), v);
        }
    }
    db.compact_all().unwrap();

    // segment 3: overwrite i%5==0 (and not deleted), delete i%11==0
    for i in 0..SN {
        let k = key(i);
        if i % 11 == 0 {
            p.rm(db, &k).unwrap();
            expect.remove(&k);
        } else if i % 5 == 0 {
            let v = val(i, 2);
            p.insert(db, &k, &v).unwrap();
            expect.insert(k.clone(), v);
        }
    }
    db.compact_all().unwrap();
    expect
}

fn pairs(items: Vec<ObjectLsmEntry>) -> Vec<(Vec<u8>, Vec<u8>)> {
    items.into_iter().map(|e| (e.key().to_vec(), e.value().to_vec())).collect()
}

fn collect_fwd(p: &ObjectLsmPartition, db: &mut Db) -> Vec<(Vec<u8>, Vec<u8>)> {
    pairs(entries(p, db))
}

fn expect_vec(map: &BTreeMap<Vec<u8>, Vec<u8>>) -> Vec<(Vec<u8>, Vec<u8>)> {
    map.iter().map(|(k, v)| (k.clone(), v.clone())).collect()
}

fn pair_of(e: ObjectLsmEntry) -> (Vec<u8>, Vec<u8>) {
    (e.key().to_vec(), e.value().to_vec())
}

#[test]
fn forward_scan_merges_segments_and_shadows_deletes() {
    let mut db = open_stream("s/fwd");
    let p = part(&mut db, "data");
    let expect = build(&mut db);
    let got = collect_fwd(&p, &mut db);
    assert_eq!(got, expect_vec(&expect));
    // every point read must match the simulated live map
    for i in 0..SN {
        let k = key(i);
        assert_eq!(p.get(&mut db, &k).unwrap(), expect.get(&k).cloned(), "key {i}");
    }
}

#[test]
fn backward_scan_matches_reversed_forward() {
    let mut db = open_stream("s/back");
    let p = part(&mut db, "data");
    let expect = build(&mut db);
    let fwd = collect_fwd(&p, &mut db);
    let mut it = ObjectLsmIter::new(p.iter(&mut db).unwrap());
    let mut back = Vec::new();
    while let Some(e) = it.next_back() {
        back.push(pair_of(e));
    }
    let mut rev = fwd.clone();
    rev.reverse();
    assert_eq!(back, rev);
    assert_eq!(fwd, expect_vec(&expect));
}

#[test]
fn mixed_direction_no_overlap_no_dup() {
    let mut db = open_stream("s/mixed");
    let p = part(&mut db, "data");
    let expect = build(&mut db);
    let full = expect_vec(&expect);

    let mut it = ObjectLsmIter::new(p.iter(&mut db).unwrap());
    let mut head = Vec::new();
    for _ in 0..5 {
        head.push(pair_of(it.next().unwrap()));
    }
    let mut tail = Vec::new();
    for _ in 0..7 {
        tail.push(pair_of(it.next_back().unwrap()));
    }
    let mut rest = Vec::new();
    while let Some(e) = it.next() {
        rest.push(pair_of(e));
    }

    assert_eq!(head, full[..5]);
    let mut exp_tail = full[full.len() - 7..].to_vec();
    exp_tail.reverse();
    assert_eq!(tail, exp_tail);
    assert_eq!(rest, full[5..full.len() - 7]);
}

#[test]
fn streaming_range_and_prefix_bounds() {
    let mut db = open_stream("s/range");
    let p = part(&mut db, "data");
    let expect = build(&mut db);

    let ranged: Vec<Vec<u8>> = p
        .range(&mut db, KeyBound::Included(key(150)), KeyBound::Excluded(key(170)))
        .unwrap()
        .into_iter()
        .map(|e| e.key().to_vec())
        .collect();
    let exp: Vec<Vec<u8>> = expect.range(key(150)..key(170)).map(|(k, _)| k.clone()).collect();
    assert_eq!(ranged, exp);

    let prefixed: Vec<Vec<u8>> =
        p.prefix(&mut db, b"k12").unwrap().into_iter().map(|e| e.key().to_vec()).collect();
    let exp_pre: Vec<Vec<u8>> = expect.keys().filter(|k| k.starts_with(b"k12")).cloned().collect();
    assert_eq!(prefixed, exp_pre);
    assert!(!prefixed.is_empty());
}

#[test]
fn reopen_streaming_matches_forward() {
    let mut db = open_stream("s/reopen");
    let expect = build(&mut db);
    let store = db.store;
    let c = Config::new("s/reopen".to_string()).max_memtable_bytes(1 << 20).block_size(64);
    let mut db2 = ObjectLsm::open(store, TestCodec, c).unwrap();
    let p2 = part(&mut db2, "data");
    assert_eq!(collect_fwd(&p2, &mut db2), expect_vec(&expect));
}

#[test]
fn mixed_direction_interleaved_matches_full() {
    let mut db = open_stream("s/mixed-interleaved");
    let p = part(&mut db, "data");
    let expect = build(&mut db);
    let full = expect_vec(&expect);

    let mut it = ObjectLsmIter::new(p.iter(&mut db).unwrap());
    let mut got = Vec::new();
    let mut front_done = false;
    let mut back_done = false;
    while !front_done || !back_done {
        if !front_done {
            match it.next() {
                Some(e) => got.push(pair_of(e)),
                None => front_done = true,
            }
        }
        if !back_done {
            match it.next_back() {
                Some(e) => got.push(pair_of(e)),
                None => back_done = true,
            }
        }
    }

    let mut sorted = got.clone();
    sorted.sort();
    assert_eq!(sorted, full);

    let mut seen = std::collections::BTreeSet::new();
    for (k, _) in &got {
        assert!(seen.insert(k.clone()), "duplicate key {}", String::from_utf8_lossy(k));
    }
}

#[test]
fn mixed_direction_boundary_duplicate_and_tombstone() {
    let mut db = open_stream("s/mixed-boundary");
    let p = part(&mut db, "data");
    let mut expect: BTreeMap<Vec<u8>, Vec<u8>> = BTreeMap::new();

    // Two segments: the first contains every key, the second overwrites k012
    // and deletes k013.
    for i in 0..26 {
        let k = key(i);
        let v = val(i, 0);
        p.insert(&mut db, &k, &v).unwrap();
        expect.insert(k, v);
    }
    db.compact_all().unwrap();

    let k_dup = key(12);
    let v_new = val(12, 1);
    p.insert(&mut db, &k_dup, &v_new).unwrap();
    expect.insert(k_dup.clone(), v_new.clone());
    let k_tomb = key(13);
    p.rm(&mut db, &k_tomb).unwrap();
    expect.remove(&k_tomb);
    db.compact_all().unwrap();

    let full = expect_vec(&expect);
    let mut it = ObjectLsmIter::new(p.iter(&mut db).unwrap());

    let mut head = Vec::new();
    for _ in 0..13 {
        head.push(pair_of(it.next().unwrap()));
    }
    let mut tail = Vec::new();
    for _ in 0..5 {
        tail.push(pair_of(it.next_back().unwrap()));
    }
    let mut rest = Vec::new();
    while let Some(e) = it.next() {
        rest.push(pair_of(e));
    }

    assert_eq!(head, full[..13]);
    let mut exp_tail = full[full.len() - 5..].to_vec();
    exp_tail.reverse();
    assert_eq!(tail, exp_tail);
    assert_eq!(rest, full[13..full.len() - 5]);
    assert!(!head.iter().any(|(k, _)| *k == k_tomb));
    assert!(!rest.iter().any(|(k, _)| *k == k_tomb));
    assert!(head.iter().any(|(k, v)| *k == key(12) && *v == val(12, 1)));
}

// ----- reliability -----

#[test]
fn approximate_len_is_fast_and_overcounts_duplicates() {
    let c = Config::new("rel/approx".to_string())
        .max_memtable_bytes(40) // each insert spills its own segment
        .max_segments_before_compact(1_000_000); // keep duplicates across segments
    let mut db = ObjectLsm::open(MemoryStore::new(), TestCodec, c).unwrap();
    let p = part(&mut db, "data");
    p.insert(&mut db, b"k", b"v0").unwrap();
    p.insert(&mut db, b"k", b"v1").unwrap();
    p.insert(&mut db, b"other", b"x").unwrap();

    // Live view has 2 keys, but segments hold 3 raw live entries (k twice).
    assert_eq!(len_of(&p, &mut db), 2);
    assert_eq!(p.approximate_len(&db).unwrap(), 3);
    // And it must never be less than the exact live count.
    assert!(p.approximate_len(&db).unwrap() >= len_of(&p, &mut db));
}

#[test]
fn prefix_with_trailing_ff_returns_only_matching_keys() {
    let mut db = open("rel/prefix-ff", 1 << 20);
    let p = part(&mut db, "data");
    for k in [&b"a\xff0"[..], b"a\xff1", b"a\xff", b"b", b"c"] {
        p.insert(&mut db, k, b"v").unwrap();
    }
    let got: Vec<Vec<u8>> =
        p.prefix(&mut db, b"a\xff").unwrap().into_iter().map(|e| e.key().to_vec()).collect();
    let mut want = vec![b"a\xff".to_vec(), b"a\xff0".to_vec(), b"a\xff1".to_vec()];
    want.sort();
    assert_eq!(got, want, "prefix ending in 0xFF must not leak b/c keys");
}

#[test]
fn disk_space_includes_journal_and_manifest() {
    let c = Config::new("rel/disk".to_string())
        .max_memtable_bytes(1 << 20)
        .journal_window_ms(Some(60_000));
    let mut db = ObjectLsm::open(MemoryStore::new(), TestCodec, c).unwrap();
    let p = part(&mut db, "data");
    for i in 0..10u32 {
        p.insert(&mut db, format!("k{i}").as_bytes(), b"v").unwrap();
    }
    db.persist().unwrap(); // flush pending journal (memtable not yet flushed)
    assert!(db.journal_disk_space().unwrap() > 0, "journal object should be counted");
    assert!(db.disk_space().unwrap() > 0);
}

#[test]
fn graceful_drop_flushes_pending_windowed_journal() {
    let c = || {
        Config::new("rel/drop".to_string())
            .max_memtable_bytes(1 << 20)
            .journal_window_ms(Some(60_000)) // long window: nothing auto-flushes
    };
    let mut db = ObjectLsm::open(MemoryStore::new(), TestCodec, c()).unwrap();
    let p = part(&mut db, "data");
    for i in 0..30u32 {
        p.insert(&mut db, format!("k{i:03}").as_bytes(), format!("v{i}").as_bytes()).unwrap();
    }
    assert!(
        db.store.list(&journal_prefix("rel/drop")).unwrap().is_empty(),
        "long window must not auto-flush yet"
    );
    // the graceful close flushes the pending journal
    db.flush_journal_window().unwrap();
    let store = db.store;
    let objs = store.list(&journal_prefix("rel/drop")).unwrap();
    assert!(!objs.is_empty(), "close should flush buffered journal groups");

    let mut db2 = ObjectLsm::open(store, TestCodec, c()).unwrap();
    let p2 = part(&mut db2, "data");
    assert_eq!(len_of(&p2, &mut db2), 30);
    assert_eq!(p2.get(&mut db2, b"k029").unwrap().unwrap(), b"v29");
}

// ----- group commit -----

fn window_cfg(prefix: &str, window_ms: u64) -> Config {
    Config::new(prefix.to_string())
        .max_memtable_bytes(1 << 20)
        .block_size(1024)
        .journal_window_ms(Some(window_ms))
}

#[test]
fn grouped_window_batches_many_commits_into_one_object() {
    let mut db = ObjectLsm::open(MemoryStore::new(), TestCodec, window_cfg("gc/batch", 60_000)).unwrap();
    let p = part(&mut db, "data");
    for i in 0..50u32 {
        p.insert(&mut db, format!("k{i:03}").as_bytes(), format!("v{i}").as_bytes()).unwrap();
    }
    // Nothing flushed yet (window is long).
    assert!(db.store.list(&journal_prefix("gc/batch")).unwrap().is_empty());
    // persist() forces one synchronous journal object for all 50 groups.
    db.persist().unwrap();
    let objs = db.store.list(&journal_prefix("gc/batch")).unwrap();
    assert_eq!(objs.len(), 1, "expected 1 batched journal object, got {objs:?}");
    let bytes = db.store.get(&objs[0]).unwrap().unwrap();
    let groups = wedb_object_lsm::journal::decode_group_stream(&bytes).unwrap();
    assert_eq!(groups.len(), 50);
    assert_eq!(groups[0].seq, 1);
    assert_eq!(groups[49].seq, 50);
    let store = db.store;
    let mut db2 = ObjectLsm::open(store, TestCodec, window_cfg("gc/batch", 60_000)).unwrap();
    let p2 = part(&mut db2, "data");
    assert_eq!(len_of(&p2, &mut db2), 50);
    assert_eq!(p2.get(&mut db2, b"k049").unwrap().unwrap(), b"v49");
}

#[test]
fn grouped_journal_survives_memtable_flush_and_reopen() {
    let c = || window_cfg("gc/flush", 5).max_memtable_bytes(512);
    let mut db = ObjectLsm::open(MemoryStore::new(), TestCodec, c()).unwrap();
    let a = part(&mut db, "a");
    let b = part(&mut db, "b");
    for i in 0..80u32 {
        a.insert(&mut db, format!("a{i:03}").as_bytes(), format!("va{i}").as_bytes()).unwrap();
    }
    for i in 0..10u32 {
        b.insert(&mut db, format!("b{i:03}").as_bytes(), format!("vb{i}").as_bytes()).unwrap();
    }
    db.persist().unwrap();
    assert!(a.table_count(&db) >= 1, "partition a should have flushed to segments");
    let store = db.store;
    let mut db2 = ObjectLsm::open(store, TestCodec, c()).unwrap();
    let a2 = part(&mut db2, "a");
    let b2 = part(&mut db2, "b");
    assert_eq!(len_of(&a2, &mut db2), 80);
    assert_eq!(len_of(&b2, &mut db2), 10);
    assert_eq!(a2.get(&mut db2, b"a042").unwrap().unwrap(), b"va42");
    assert_eq!(b2.get(&mut db2, b"b007").unwrap().unwrap(), b"vb7");
}

#[test]
fn strict_mode_keeps_one_object_per_commit() {
    let c = Config::new("gc/strict".to_string()).max_memtable_bytes(1 << 20).journal_window_ms(None);
    let mut db = ObjectLsm::open(MemoryStore::new(), TestCodec, c).unwrap();
    let p = part(&mut db, "data");
    for i in 0..5u32 {
        p.insert(&mut db, format!("k{i}").as_bytes(), b"v").unwrap();
    }
    let objs = db.store.list(&journal_prefix("gc/strict")).unwrap();
    assert_eq!(objs.len(), 5, "strict mode writes one durable object per commit");
}

// ----- object deletion policy -----

fn lazy_cfg(prefix: &str, eager: bool) -> Config {
    Config::new(prefix.to_string())
        .max_memtable_bytes(40)
        .block_size(64)
        .max_segments_before_compact(1_000_000)
        .eager_object_delete(eager)
}

fn seed(p: &ObjectLsmPartition, db: &mut Db) {
    for i in 0..N {
        p.insert(db, &key(i), format!("v{i}-0").as_bytes()).unwrap();
    }
    for i in 0..N {
        let k = key(i);
        if i % 7 == 0 {
            p.rm(db, &k).unwrap();
        } else if i % 3 == 0 {
            p.insert(db, &k, format!("v{i}-1").as_bytes()).unwrap();
        }
    }
}

fn assert_expected_data(p: &ObjectLsmPartition, db: &mut Db) {
    let mut expect = 0usize;
    for i in 0..N {
        let k = key(i);
        if i % 7 == 0 {
            assert_eq!(p.get(db, &k).unwrap(), None, "deleted key {k:?} should be absent");
        } else {
            expect += 1;
            let want = if i % 3 == 0 { format!("v{i}-1") } else { format!("v{i}-0") };
            assert_eq!(p.get(db, &k).unwrap().unwrap(), want.into_bytes());
        }
    }
    assert_eq!(len_of(p, db), expect);
}

#[test]
fn lazy_compaction_keeps_replaced_segments_and_recovers() {
    let mut db = ObjectLsm::open(MemoryStore::new(), TestCodec, lazy_cfg("lazy/merge", false)).unwrap();
    let p = part(&mut db, "data");
    seed(&p, &mut db);
    assert!(p.table_count(&db) > 1, "expected multiple pre-compaction segments, got {}", p.table_count(&db));
    let before = db.store.list(&segment_root("lazy/merge")).unwrap();
    assert_eq!(before.len(), p.table_count(&db));
    db.compact_all().unwrap();
    assert_eq!(p.table_count(&db), 1, "compaction must merge to one segment");
    let after = db.store.list(&segment_root("lazy/merge")).unwrap();
    assert!(
        after.len() > before.len(),
        "replaced segment objects must not be deleted (before={}, after={})",
        before.len(),
        after.len()
    );
    for old in &before {
        assert!(after.contains(old), "old segment object {old} missing after lazy compaction");
    }
    let store = db.store;
    let mut db2 = ObjectLsm::open(store, TestCodec, lazy_cfg("lazy/merge", false)).unwrap();
    let p2 = part(&mut db2, "data");
    assert_expected_data(&p2, &mut db2);
    assert_eq!(p2.table_count(&db2), 1);
}

#[test]
fn eager_compaction_deletes_replaced_segments() {
    let mut db = ObjectLsm::open(MemoryStore::new(), TestCodec, lazy_cfg("lazy/merge-eager", true)).unwrap();
    let p = part(&mut db, "data");
    seed(&p, &mut db);
    assert!(p.table_count(&db) > 1);
    let before = db.store.list(&segment_root("lazy/merge-eager")).unwrap();
    db.compact_all().unwrap();
    assert_eq!(p.table_count(&db), 1);
    let after = db.store.list(&segment_root("lazy/merge-eager")).unwrap();
    assert_eq!(after.len(), 1, "only the merged segment should remain, got {after:?}");
    for old in &before {
        assert!(!after.contains(old), "old segment object {old} should be deleted eagerly");
    }
    let store = db.store;
    let mut db2 = ObjectLsm::open(store, TestCodec, lazy_cfg("lazy/merge-eager", true)).unwrap();
    let p2 = part(&mut db2, "data");
    assert_expected_data(&p2, &mut db2);
}

#[test]
fn lazy_clear_keeps_segment_objects() {
    let mut db = ObjectLsm::open(MemoryStore::new(), TestCodec, lazy_cfg("lazy/clear", false)).unwrap();
    let p = part(&mut db, "data");
    for i in 0..20u32 {
        p.insert(&mut db, &key(i), b"v").unwrap();
    }
    assert!(p.table_count(&db) >= 2);
    let before = db.store.list(&segment_root("lazy/clear")).unwrap();
    p.clear(&mut db).unwrap();
    assert!(entries(&p, &mut db).is_empty());
    assert_eq!(p.table_count(&db), 0);
    let after = db.store.list(&segment_root("lazy/clear")).unwrap();
    assert_eq!(before.len(), after.len(), "clear must keep segment objects when eager_object_delete is false");
    let store = db.store;
    let mut db2 = ObjectLsm::open(store, TestCodec, lazy_cfg("lazy/clear", false)).unwrap();
    let p2 = part(&mut db2, "data");
    assert!(entries(&p2, &mut db2).is_empty());
}

#[test]
fn lazy_rm_partition_keeps_segment_objects() {
    let mut db = ObjectLsm::open(MemoryStore::new(), TestCodec, lazy_cfg("lazy/rm", false)).unwrap();
    let p = part(&mut db, "data");
    for i in 0..20u32 {
        p.insert(&mut db, &key(i), b"v").unwrap();
    }
    assert!(p.table_count(&db) >= 2);
    let before = db.store.list(&segment_root("lazy/rm")).unwrap();
    db.rm_partition("data").unwrap();
    assert!(!db.partition_exists("data"));
    let after = db.store.list(&segment_root("lazy/rm")).unwrap();
    assert_eq!(before.len(), after.len(), "rm_partition must keep segment objects when eager_object_delete is false");
    let store = db.store;
    let mut db2 = ObjectLsm::open(store, TestCodec, lazy_cfg("lazy/rm", false)).unwrap();
    assert!(!db2.partition_exists("data"));
    let p2 = part(&mut db2, "data");
    assert!(entries(&p2, &mut db2).is_empty());
}

// ----- followers over a shared bucket -----


/// One in-memory bucket shared by several engines of a test.
#[derive(Clone)]
struct Bucket(Rc<RefCell<MemoryStore>>);

impl Bucket {
    fn new() -> Self {
        Bucket(Rc::new(RefCell::new(MemoryStore::new())))
    }

    fn keys(&self) -> Vec<String> {
        let mut all = self.0.borrow().list("").unwrap();
        all.sort();
        all
    }
}

impl Store for Bucket {
    fn get(&self, key: &str) -> Result<Option<Vec<u8>>, Error> {
        self.0.borrow().get(key)
    }
    fn get_range(&self, key: &str, offset: u64, len: u64) -> Result<Option<Vec<u8>>, Error> {
        self.0.borrow().get_range(key, offset, len)
    }
    fn put(&mut self, key: &str, data: &[u8]) -> Result<(), Error> {
        self.0.borrow_mut().put(key, data)
    }
    fn delete(&mut self, key: &str) -> Result<(), Error> {
        self.0.borrow_mut().delete(key)
    }
    fn create(&mut self, key: &str, data: &[u8]) -> Result<bool, Error> {
        self.0.borrow_mut().create(key, data)
    }
    fn put_if_matches(&mut self, key: &str, expected: &[u8], new: &[u8]) -> Result<bool, Error> {
        self.0.borrow_mut().put_if_matches(key, expected, new)
    }
    fn list(&self, prefix: &str) -> Result<Vec<String>, Error> {
        self.0.borrow().list(prefix)
    }
}

type BDb = ObjectLsm<Bucket, TestCodec>;

fn fcfg(prefix: &str) -> Config {
    Config::new(prefix.to_string()).max_memtable_bytes(1 << 20).max_segments_before_compact(1_000_000)
}

fn bpart(db: &mut BDb, name: &str) -> ObjectLsmPartition {
    ObjectLsmPartition::open(db, name).unwrap()
}

fn blen(p: &ObjectLsmPartition, db: &mut BDb) -> usize {
    p.iter(db).unwrap().len()
}

fn leased_opts(owner: &str, ttl_ms: u64) -> LeaseOptions {
    LeaseOptions { owner: owner.to_string(), ttl_ms, timeout_ms: 2_000, heartbeat: false }
}

fn is_read_only(e: Error) -> bool {
    e.message().contains("read-only")
}

#[test]
fn follower_reads_published_state_and_tracks_new_commits() {
    let s = Bucket::new();
    let mut leader = ObjectLsm::open(s.clone(), TestCodec, fcfg("fo/t1")).unwrap();
    let p = bpart(&mut leader, "data");
    for i in 0..5u32 {
        p.insert(&mut leader, format!("k{i:03}").as_bytes(), format!("v{i}").as_bytes()).unwrap();
    }
    // A follower opened before anything is published sees an empty prefix.
    let mut follower = ObjectLsm::open_follower(s.clone(), TestCodec, fcfg("fo/t1")).unwrap();
    assert!(!follower.partition_exists("data"));

    // Fold everything into a manifest; the follower picks it up on refresh.
    leader.compact_all().unwrap();
    follower.refresh().unwrap();
    let pf = bpart(&mut follower, "data");
    assert_eq!(blen(&pf, &mut follower), 5, "follower sees published segments");
    assert_eq!(pf.get(&mut follower, b"k004").unwrap().unwrap(), b"v4");

    // Strict-mode commits that are NOT yet folded stay visible through the
    // durable journal tail above the manifest watermark.
    p.insert(&mut leader, b"k005", b"v5").unwrap();
    p.insert(&mut leader, b"k006", b"v6").unwrap();
    p.rm(&mut leader, b"k000").unwrap();
    follower.refresh().unwrap();
    assert_eq!(blen(&pf, &mut follower), 6, "follower replays unflushed journals");
    assert_eq!(pf.get(&mut follower, b"k006").unwrap().unwrap(), b"v6");
    assert_eq!(pf.get(&mut follower, b"k000").unwrap(), None, "follower observes the delete tombstone");

    // After the leader folds again the follower still agrees.
    leader.compact_all().unwrap();
    follower.refresh().unwrap();
    assert_eq!(blen(&pf, &mut follower), 6);
    assert_eq!(pf.get(&mut follower, b"k005").unwrap().unwrap(), b"v5");
    assert_eq!(pf.get(&mut follower, b"k000").unwrap(), None);
}

#[test]
fn follower_never_writes_to_the_store() {
    let s = Bucket::new();
    let mut leader = ObjectLsm::open(s.clone(), TestCodec, fcfg("fo/t2")).unwrap();
    let p = bpart(&mut leader, "data");
    for i in 0..10u32 {
        p.insert(&mut leader, format!("k{i:02}").as_bytes(), b"v").unwrap();
    }
    leader.compact_all().unwrap();
    let before = s.keys();

    let mut follower = ObjectLsm::open_follower(s.clone(), TestCodec, fcfg("fo/t2")).unwrap();
    let pf = bpart(&mut follower, "data");
    for _ in 0..3 {
        follower.refresh().unwrap();
        let _ = pf.get(&mut follower, b"k00").unwrap();
        let _ = blen(&pf, &mut follower);
    }
    assert_eq!(s.keys(), before, "opening/refreshing/reading a follower must not add or remove objects");
}

#[test]
fn follower_rejects_all_mutations() {
    let s = Bucket::new();
    let mut leader = ObjectLsm::open(s.clone(), TestCodec, fcfg("fo/t3")).unwrap();
    let p = bpart(&mut leader, "data");
    p.insert(&mut leader, b"k", b"v").unwrap();
    leader.compact_all().unwrap();

    let mut follower = ObjectLsm::open_follower(s.clone(), TestCodec, fcfg("fo/t3")).unwrap();
    let pf = bpart(&mut follower, "data");
    assert!(pf.insert(&mut follower, b"x", b"y").unwrap_err().message().contains("read-only"));
    assert!(is_read_only(pf.rm(&mut follower, b"k").unwrap_err()));
    assert!(is_read_only(pf.clear(&mut follower).unwrap_err()));
    assert!(is_read_only(pf.compact(&mut follower).unwrap_err()));
    assert!(is_read_only(follower.persist().unwrap_err()));
    assert!(is_read_only(follower.compact_all().unwrap_err()));
    assert!(is_read_only(follower.rm_partition("data").unwrap_err()));
}

#[test]
fn follower_observes_partition_removal() {
    let s = Bucket::new();
    let mut leader = ObjectLsm::open(s.clone(), TestCodec, fcfg("fo/t5")).unwrap();
    let pa = bpart(&mut leader, "a");
    let pb = bpart(&mut leader, "b");
    pa.insert(&mut leader, b"k", b"a").unwrap();
    pb.insert(&mut leader, b"k", b"b").unwrap();
    leader.compact_all().unwrap();

    let mut follower = ObjectLsm::open_follower(s.clone(), TestCodec, fcfg("fo/t5")).unwrap();
    follower.refresh().unwrap();
    assert!(follower.partition_exists("a"));
    assert!(follower.partition_exists("b"));

    leader.rm_partition("b").unwrap();
    follower.refresh().unwrap();
    assert!(follower.partition_exists("a"));
    assert!(!follower.partition_exists("b"), "removed partition disappears from the follower");
    let fpa = bpart(&mut follower, "a");
    assert_eq!(fpa.get(&mut follower, b"k").unwrap().unwrap(), b"a");
}

#[test]
fn refresh_is_a_noop_on_a_writer() {
    let s = Bucket::new();
    let mut db = ObjectLsm::open(s.clone(), TestCodec, fcfg("fo/t6")).unwrap();
    let p = bpart(&mut db, "data");
    p.insert(&mut db, b"k", b"v").unwrap();
    // refresh() on a writer must not clobber live in-memory state.
    db.refresh().unwrap();
    assert_eq!(
        p.get(&mut db, b"k").unwrap().unwrap(),
        b"v",
        "writer refresh must not drop unflushed memtable data"
    );
}

#[test]
fn follower_opens_empty_prefix_and_then_sees_first_publish() {
    let s = Bucket::new();
    // Follower opens before the leader has ever published a manifest.
    let mut follower = ObjectLsm::open_follower(s.clone(), TestCodec, fcfg("fo/t7")).unwrap();
    assert!(!follower.partition_exists("data"));

    let mut leader = ObjectLsm::open(s.clone(), TestCodec, fcfg("fo/t7")).unwrap();
    let p = bpart(&mut leader, "data");
    p.insert(&mut leader, b"k", b"v").unwrap();
    follower.refresh().unwrap(); // journal only, no manifest yet -> still empty
    assert!(!follower.partition_exists("data"));

    leader.compact_all().unwrap();
    follower.refresh().unwrap();
    let pf = bpart(&mut follower, "data");
    assert_eq!(pf.get(&mut follower, b"k").unwrap().unwrap(), b"v");
}

#[test]
fn follower_partition_handle_refused_for_unpublished_or_removed_partitions() {
    let s = Bucket::new();
    let mut leader = ObjectLsm::open(s.clone(), TestCodec, fcfg("fo/t9")).unwrap();
    let pa = bpart(&mut leader, "a");
    let pb = bpart(&mut leader, "b");
    pa.insert(&mut leader, b"k", b"a").unwrap();
    pb.insert(&mut leader, b"k", b"b").unwrap();
    leader.compact_all().unwrap();

    let mut follower = ObjectLsm::open_follower(s.clone(), TestCodec, fcfg("fo/t9")).unwrap();
    follower.refresh().unwrap();

    leader.rm_partition("b").unwrap();
    follower.refresh().unwrap();
    let before = s.keys();

    // Removed partition: handle refused, nothing written.
    let err = match ObjectLsmPartition::open(&mut follower, "b") {
        Ok(_) => panic!("removed partition must be refused"),
        Err(e) => e.message(),
    };
    assert!(err.contains("read-only"), "removed partition must be refused: {err}");
    // Never-published partition: handle refused, nothing written.
    let err2 = match ObjectLsmPartition::open(&mut follower, "never") {
        Ok(_) => panic!("unknown partition must be refused"),
        Err(e) => e.message(),
    };
    assert!(err2.contains("read-only"), "unknown partition must be refused: {err2}");
    // Live partition: handle still granted and readable.
    let fpa = bpart(&mut follower, "a");
    assert_eq!(fpa.get(&mut follower, b"k").unwrap().unwrap(), b"a");

    assert_eq!(s.keys(), before, "follower handle lookups must not write objects");
}

#[test]
fn follower_stale_read_errors_after_leader_deletes_segment() {
    let s = Bucket::new();
    let c = || {
        Config::new("fo/t11".to_string())
            .max_memtable_bytes(1 << 20)
            .block_size(64)
            .max_segments_before_compact(2)
    };
    let mut leader = ObjectLsm::open(s.clone(), TestCodec, c()).unwrap();
    let p = bpart(&mut leader, "data");
    for i in 0..4u32 {
        p.insert(&mut leader, format!("k{i:03}").as_bytes(), format!("v{i}").as_bytes()).unwrap();
    }
    leader.compact_all().unwrap(); // manifest references segment S1

    // Follower loads S1 but does NOT warm any block.
    let mut follower = ObjectLsm::open_follower(s.clone(), TestCodec, c()).unwrap();
    follower.refresh().unwrap();
    let pf = bpart(&mut follower, "data");
    assert_eq!(pf.table_count(&follower), 1, "follower references the first segment");

    // Leader writes more and compacts: S1 is merged away and its object deleted.
    for i in 4..8u32 {
        p.insert(&mut leader, format!("k{i:03}").as_bytes(), format!("v{i}").as_bytes()).unwrap();
    }
    leader.compact_all().unwrap();

    // The follower still points at S1; reading a not-yet-cached key of it
    // must error loudly instead of silently returning None or stale data.
    let res = pf.get(&mut follower, b"k001");
    assert!(res.is_err(), "stale segment read must surface an error, got {res:?}");

    follower.refresh().unwrap();
    assert_eq!(pf.get(&mut follower, b"k001").unwrap().unwrap(), b"v1");
    assert_eq!(pf.get(&mut follower, b"k007").unwrap().unwrap(), b"v7");
}

fn open_leased(s: &Bucket, c: Config, owner: &str, now_ms: u128, epoch: u128) -> BDb {
    let (db, _lease) =
        ObjectLsm::try_open_leased(s.clone(), TestCodec, c, &leased_opts(owner, 60_000), now_ms, epoch)
            .unwrap()
            .expect("lease is free");
    db
}

#[test]
fn two_writers_share_bucket_with_cross_read_consistency() {
    let s = Bucket::new();
    let mk = |shard: u64| {
        Config::for_shard("tp/base".to_string(), shard)
            .max_memtable_bytes(1 << 20)
            .max_segments_before_compact(1_000_000)
    };

    // Process A and process B both open leased writers on the SAME bucket but
    // on disjoint prefixes.
    let mut a = open_leased(&s, mk(0), "procA", 1_000, 1);
    let mut b = open_leased(&s, mk(1), "procB", 1_000, 2);

    let pa = bpart(&mut a, "data");
    let pb = bpart(&mut b, "data");
    for i in 0..25u32 {
        pa.insert(&mut a, format!("a-{i:02}").as_bytes(), format!("va{i}").as_bytes()).unwrap();
        pb.insert(&mut b, format!("b-{i:02}").as_bytes(), format!("vb{i}").as_bytes()).unwrap();
    }
    a.compact_all().unwrap();
    b.compact_all().unwrap();

    // Each process reads the other's published data through a follower.
    let mut fb = ObjectLsm::open_follower(s.clone(), TestCodec, mk(1)).unwrap();
    fb.refresh().unwrap();
    let pfb = bpart(&mut fb, "data");
    assert_eq!(blen(&pfb, &mut fb), 25, "A sees B's 25 keys");
    for i in (0..25u32).step_by(5) {
        assert_eq!(
            pfb.get(&mut fb, format!("b-{i:02}").as_bytes()).unwrap().unwrap(),
            format!("vb{i}").into_bytes()
        );
    }

    let mut fa = ObjectLsm::open_follower(s.clone(), TestCodec, mk(0)).unwrap();
    fa.refresh().unwrap();
    let pfa = bpart(&mut fa, "data");
    assert_eq!(blen(&pfa, &mut fa), 25, "B sees A's 25 keys");
    assert_eq!(pfa.get(&mut fa, b"a-00").unwrap().unwrap(), b"va0");

    // A keeps writing while B's follower keeps reading: the reader converges.
    for i in 25..30u32 {
        pa.insert(&mut a, format!("a-{i:02}").as_bytes(), format!("va{i}").as_bytes()).unwrap();
    }
    a.compact_all().unwrap();
    fa.refresh().unwrap();
    assert_eq!(blen(&pfa, &mut fa), 30, "B's follower converges on A's new keys");

    // No cross-shard leakage.
    assert_eq!(pfb.get(&mut fb, b"a-00").unwrap(), None, "shards must not leak into each other");
}

#[test]
fn try_open_leased_returns_none_while_held_then_promotes() {
    let s = Bucket::new();
    let c = || fcfg("ha/t2");
    let (leader, lease) = ObjectLsm::try_open_leased(s.clone(), TestCodec, c(), &leased_opts("w0", 60_000), 1_000, 1)
        .unwrap()
        .expect("first writer wins");
    let second = ObjectLsm::try_open_leased(s.clone(), TestCodec, c(), &leased_opts("w1", 60_000), 1_001, 2).unwrap();
    assert!(second.is_none(), "second writer must be refused while held");
    let mut st = leader.store;
    lease.release(&mut st);
    let next = ObjectLsm::try_open_leased(s.clone(), TestCodec, c(), &leased_opts("w1", 60_000), 1_002, 3).unwrap();
    assert!(next.is_some(), "standby must promote after the leader releases");
}

#[test]
fn expired_leader_is_replaced_under_the_next_epoch() {
    let s = Bucket::new();
    let c = || fcfg("fo/lease");
    let opts = leased_opts("w0", 250);
    let (mut l1, _lease1) =
        ObjectLsm::try_open_leased(s.clone(), TestCodec, c(), &opts, 10_000, 7).unwrap().unwrap();
    assert_eq!(l1.fence_epoch(), 7);
    let p1 = bpart(&mut l1, "data");
    p1.insert(&mut l1, b"w0-key", b"v").unwrap();
    // While the lease is live a contender gets nothing.
    assert!(ObjectLsm::try_open_leased(s.clone(), TestCodec, c(), &leased_opts("w1", 60_000), 10_100, 8)
        .unwrap()
        .is_none());
    // Once it expires the contender is promoted under the next epoch and sees
    // the acknowledged write.
    let (mut l2, lease2) =
        ObjectLsm::try_open_leased(s.clone(), TestCodec, c(), &leased_opts("w1", 60_000), 10_250, 8)
            .unwrap()
            .expect("expired lease is taken over");
    assert_eq!(lease2.epoch(), 8);
    assert_eq!(l2.fence_epoch(), 8);
    let p2 = bpart(&mut l2, "data");
    assert_eq!(p2.get(&mut l2, b"w0-key").unwrap().unwrap(), b"v");
}

// ----- injected store faults -----


/// A bucket view whose writes can be made to fail on demand.
#[derive(Clone)]
struct Faulty {
    inner: Bucket,
    fail_delete: Rc<Cell<bool>>,
    fail_segment_put: Rc<Cell<bool>>,
    /// Journal-object PUT ordinals (1-based) that fail.
    fail_journal_at: Rc<RefCell<Vec<usize>>>,
    journal_puts: Rc<Cell<usize>>,
    /// Fail the next PUT of a key ending with this suffix.
    fail_once_suffix: Rc<RefCell<Option<String>>>,
    /// Fail every n-th PUT of any key (0 = never).
    fail_every: Rc<Cell<usize>>,
    puts: Rc<Cell<usize>>,
}

impl Faulty {
    fn new(inner: Bucket) -> Self {
        Faulty {
            inner,
            fail_delete: Rc::new(Cell::new(false)),
            fail_segment_put: Rc::new(Cell::new(false)),
            fail_journal_at: Rc::new(RefCell::new(Vec::new())),
            journal_puts: Rc::new(Cell::new(0)),
            fail_once_suffix: Rc::new(RefCell::new(None)),
            fail_every: Rc::new(Cell::new(0)),
            puts: Rc::new(Cell::new(0)),
        }
    }
}

impl Store for Faulty {
    fn get(&self, key: &str) -> Result<Option<Vec<u8>>, Error> {
        self.inner.get(key)
    }
    fn get_range(&self, key: &str, offset: u64, len: u64) -> Result<Option<Vec<u8>>, Error> {
        self.inner.get_range(key, offset, len)
    }
    fn put(&mut self, key: &str, data: &[u8]) -> Result<(), Error> {
        let n = self.puts.get() + 1;
        self.puts.set(n);
        if self.fail_every.get() > 0 && n % self.fail_every.get() == 0 {
            return Err(Error::store("injected transient PUT failure"));
        }
        if key.contains("/seg/") && self.fail_segment_put.get() {
            return Err(Error::store("injected segment put failure"));
        }
        if key.contains("/journal/") {
            let i = self.journal_puts.get() + 1;
            self.journal_puts.set(i);
            if self.fail_journal_at.borrow().contains(&i) {
                return Err(Error::store("injected journal put failure"));
            }
        }
        let hit = matches!(&*self.fail_once_suffix.borrow(), Some(sfx) if key.ends_with(sfx.as_str()));
        if hit {
            *self.fail_once_suffix.borrow_mut() = None;
            return Err(Error::store("injected put failure"));
        }
        self.inner.put(key, data)
    }
    fn delete(&mut self, key: &str) -> Result<(), Error> {
        if self.fail_delete.get() {
            return Err(Error::store("injected delete failure"));
        }
        self.inner.delete(key)
    }
    fn create(&mut self, key: &str, data: &[u8]) -> Result<bool, Error> {
        self.inner.create(key, data)
    }
    fn put_if_matches(&mut self, key: &str, expected: &[u8], new: &[u8]) -> Result<bool, Error> {
        self.inner.put_if_matches(key, expected, new)
    }
    fn list(&self, prefix: &str) -> Result<Vec<String>, Error> {
        self.inner.list(prefix)
    }
}

type FDb = ObjectLsm<Faulty, TestCodec>;

fn fpart(db: &mut FDb, name: &str) -> ObjectLsmPartition {
    ObjectLsmPartition::open(db, name).unwrap()
}

fn flen(p: &ObjectLsmPartition, db: &mut FDb) -> usize {
    p.iter(db).unwrap().len()
}

#[test]
fn clear_publishes_manifest_even_when_delete_fails() {
    let bucket = Bucket::new();
    let store = Faulty::new(bucket.clone());
    store.fail_delete.set(true);
    let c = Config::new("inj/clear".to_string()).max_memtable_bytes(40).max_segments_before_compact(1_000_000);
    let mut db = ObjectLsm::open(store, TestCodec, c).unwrap();
    let p = fpart(&mut db, "data");
    for i in 0..20u32 {
        p.insert(&mut db, format!("k{i:03}").as_bytes(), b"v").unwrap();
    }
    assert!(p.table_count(&db) >= 2);
    // clear publishes the cleared manifest first; the injected delete
    // failures are ignored, leaving orphan segment objects behind.
    p.clear(&mut db).unwrap();
    assert!(p.iter(&mut db).unwrap().is_empty());
    assert!(
        !bucket.list(&segment_root("inj/clear")).unwrap().is_empty(),
        "orphans must remain when delete fails"
    );
}

#[test]
fn compaction_upload_failure_keeps_old_run() {
    let bucket = Bucket::new();
    // Build several segments with a normal store first.
    {
        let c = Config::new("inj/compact".to_string()).max_memtable_bytes(40).max_segments_before_compact(1_000_000);
        let mut db = ObjectLsm::open(bucket.clone(), TestCodec, c).unwrap();
        let p = bpart(&mut db, "data");
        for i in 0..20u32 {
            p.insert(&mut db, format!("k{i:03}").as_bytes(), format!("v{i}").as_bytes()).unwrap();
        }
        assert!(p.table_count(&db) > 1);
    }
    // Reopen through a store whose segment PUT always fails.
    let failing = Faulty::new(bucket.clone());
    failing.fail_segment_put.set(true);
    let c = Config::new("inj/compact".to_string()).max_memtable_bytes(1 << 20).max_segments_before_compact(1_000_000);
    let mut db = ObjectLsm::open(failing, TestCodec, c).unwrap();
    let p = fpart(&mut db, "data");
    assert!(db.compact_all().is_err(), "merged segment upload should fail");
    // The old run must remain readable (compaction uploads before swapping).
    assert_eq!(p.get(&mut db, b"k007").unwrap().unwrap(), b"v7");
    assert_eq!(flen(&p, &mut db), 20);
}

#[test]
fn journal_put_failure_never_exposes_partial_state() {
    let bucket = Bucket::new();
    let store = Faulty::new(bucket.clone());
    store.fail_journal_at.borrow_mut().push(1);
    let mut db = ObjectLsm::open(store, TestCodec, fcfg("ha/t6")).unwrap();
    let p = fpart(&mut db, "data");

    assert!(p.insert(&mut db, b"k1", b"v1").is_err(), "first journal PUT is injected to fail");
    assert_eq!(p.get(&mut db, b"k1").unwrap(), None, "failed commit must not be visible");

    p.insert(&mut db, b"k2", b"v2").unwrap();
    assert_eq!(p.get(&mut db, b"k1").unwrap(), None);
    assert_eq!(p.get(&mut db, b"k2").unwrap().unwrap(), b"v2");

    let mut db2 = ObjectLsm::open(bucket, TestCodec, fcfg("ha/t6")).unwrap();
    let p2 = bpart(&mut db2, "data");
    assert_eq!(p2.get(&mut db2, b"k1").unwrap(), None);
    assert_eq!(p2.get(&mut db2, b"k2").unwrap().unwrap(), b"v2");
}

#[test]
fn failed_manifest_publish_keeps_journals_for_recovery() {
    let bucket = Bucket::new();
    let store = Faulty::new(bucket.clone());
    // A one-byte budget forces a flush on the very first commit, so the segment
    // upload happens and the manifest publish fails in the same commit.
    let c = || Config::new("ha/t9".to_string()).max_memtable_bytes(1).max_segments_before_compact(1_000_000);
    let mut db = ObjectLsm::open(store.clone(), TestCodec, c()).unwrap();
    let p = fpart(&mut db, "data");
    *store.fail_once_suffix.borrow_mut() = Some("/manifest/00000000000000000002".to_string());
    // The journal PUT succeeds; the maintenance flush fails on manifest
    // publish and that error is swallowed by the commit path.
    p.insert(&mut db, b"k1", b"v1").unwrap();

    let mut db2 = ObjectLsm::open(bucket, TestCodec, c()).unwrap();
    let p2 = bpart(&mut db2, "data");
    assert_eq!(
        p2.get(&mut db2, b"k1").unwrap().unwrap(),
        b"v1",
        "acked write must survive a failed manifest publish (journal kept)"
    );
}

#[test]
fn fenced_current_flip_failure_preserves_journals() {
    let bucket = Bucket::new();
    let store = Faulty::new(bucket.clone());
    let mut db = ObjectLsm::open(store.clone(), TestCodec, fcfg("ha/t14")).unwrap();
    let p = fpart(&mut db, "data");
    for i in 0..5u32 {
        p.insert(&mut db, format!("k{i:02}").as_bytes(), format!("v{i}").as_bytes()).unwrap();
    }
    *store.fail_once_suffix.borrow_mut() = Some("/manifest/current".to_string());
    assert!(db.compact_all().is_err(), "injected current-pointer failure must fail the publish");

    let mut db2 = ObjectLsm::open(bucket, TestCodec, fcfg("ha/t14")).unwrap();
    let p2 = bpart(&mut db2, "data");
    assert_eq!(blen(&p2, &mut db2), 5, "reopen recovers via journals");
    assert_eq!(p2.get(&mut db2, b"k04").unwrap().unwrap(), b"v4");
}

#[test]
fn repeated_journal_put_failures_need_success_before_ack() {
    let bucket = Bucket::new();
    let store = Faulty::new(bucket.clone());
    store.fail_journal_at.borrow_mut().extend([2, 4]);
    let mut db = ObjectLsm::open(store, TestCodec, fcfg("ha/t15")).unwrap();
    let p = fpart(&mut db, "data");

    // A failed commit returns Err and is invisible; the caller retries until
    // success. No acknowledged write may ever be lost or duplicated.
    for i in 1..=5u32 {
        let key = format!("k{i}");
        let value = format!("v{i}");
        while p.insert(&mut db, key.as_bytes(), value.as_bytes()).is_err() {}
        assert_eq!(
            p.get(&mut db, key.as_bytes()).unwrap().unwrap(),
            value.into_bytes(),
            "acked write must be immediately visible"
        );
    }
    assert_eq!(flen(&p, &mut db), 5);

    let mut db2 = ObjectLsm::open(bucket, TestCodec, fcfg("ha/t15")).unwrap();
    let p2 = bpart(&mut db2, "data");
    assert_eq!(blen(&p2, &mut db2), 5, "no holes or duplicates after reopen");
    for i in 1..=5u32 {
        assert_eq!(
            p2.get(&mut db2, format!("k{i}").as_bytes()).unwrap().unwrap(),
            format!("v{i}").into_bytes()
        );
    }
}

#[test]
fn successor_recovers_pre_manifest_journals_after_clean_drop() {
    let s = Bucket::new();
    let (mut leader, lease) =
        ObjectLsm::try_open_leased(s.clone(), TestCodec, fcfg("ha/t4"), &leased_opts("w0", 60_000), 1_000, 1)
            .unwrap()
            .expect("leader");
    let p = bpart(&mut leader, "data");
    for i in 0..30u32 {
        p.insert(&mut leader, format!("k{i:03}").as_bytes(), format!("v{i}").as_bytes()).unwrap();
    }
    // a clean stop releases the lease
    let mut st = leader.store;
    lease.release(&mut st);

    let (mut next, _l2) =
        ObjectLsm::try_open_leased(s.clone(), TestCodec, fcfg("ha/t4"), &leased_opts("w1", 60_000), 2_000, 2)
            .unwrap()
            .expect("clean handoff");
    let p2 = bpart(&mut next, "data");
    assert_eq!(blen(&p2, &mut next), 30);
    assert_eq!(p2.get(&mut next, b"k029").unwrap().unwrap(), b"v29");
}

#[test]
fn takeover_gc_superseded_epoch_journals() {
    let s = Bucket::new();
    let (mut l1, _lease1) =
        ObjectLsm::try_open_leased(s.clone(), TestCodec, fcfg("ha/t11"), &leased_opts("w0", 250), 1_000, 1)
            .unwrap()
            .expect("first writer");
    let p1 = bpart(&mut l1, "data");
    for i in 0..5u32 {
        p1.insert(&mut l1, format!("k{i:02}").as_bytes(), format!("v{i}").as_bytes()).unwrap();
    }
    // Crash: the lease is left to expire.
    let (mut l2, _lease2) =
        ObjectLsm::try_open_leased(s.clone(), TestCodec, fcfg("ha/t11"), &leased_opts("w1", 60_000), 2_000, 2)
            .unwrap()
            .expect("w1 promoted");
    let p2 = bpart(&mut l2, "data");
    assert_eq!(blen(&p2, &mut l2), 5, "successor must recover the crashed leader");
    let left = s.list(&journal_prefix("ha/t11")).unwrap();
    assert!(left.is_empty(), "superseded-epoch journals must be GC'd after takeover, left: {left:?}");
    assert_eq!(p2.get(&mut l2, b"k04").unwrap().unwrap(), b"v4");
}

#[test]
fn dropped_partition_does_not_pin_journal_gc() {
    let s = Bucket::new();
    let mut db = ObjectLsm::open(s.clone(), TestCodec, fcfg("ha/t12")).unwrap();
    // Create and remove an empty partition BEFORE any commit.
    let _trash = bpart(&mut db, "trash");
    db.rm_partition("trash").unwrap();

    // A live partition then commits and folds everything.
    let p = bpart(&mut db, "data");
    for i in 0..5u32 {
        p.insert(&mut db, format!("k{i:02}").as_bytes(), format!("v{i}").as_bytes()).unwrap();
    }
    db.compact_all().unwrap();
    assert!(
        s.list(&journal_prefix("ha/t12")).unwrap().is_empty(),
        "folded journals must be GC'd even with a dropped wm=0 partition present"
    );

    let mut db2 = ObjectLsm::open(s.clone(), TestCodec, fcfg("ha/t12")).unwrap();
    let p2 = bpart(&mut db2, "data");
    assert_eq!(blen(&p2, &mut db2), 5);
    assert_eq!(p2.get(&mut db2, b"k04").unwrap().unwrap(), b"v4");
    assert!(!db2.partition_exists("trash"));
}

#[test]
fn open_gc_superseded_epoch_journals_at_recover() {
    let s = Bucket::new();
    let (mut l1, _lease1) =
        ObjectLsm::try_open_leased(s.clone(), TestCodec, fcfg("ha/t13"), &leased_opts("w0", 250), 1_000, 11)
            .unwrap()
            .expect("first writer");
    let e1_epoch = l1.fence_epoch();
    let p1 = bpart(&mut l1, "data");
    for i in 0..5u32 {
        p1.insert(&mut l1, format!("k{i:02}").as_bytes(), format!("v{i}").as_bytes()).unwrap();
    }
    // Takeover folds epoch-1 journals into an epoch-2 anchor and cleans them.
    let (_l2, _lease2) =
        ObjectLsm::try_open_leased(s.clone(), TestCodec, fcfg("ha/t13"), &leased_opts("w1", 60_000), 2_000, 12)
            .unwrap()
            .expect("w1 promoted");

    // Re-inject a folded epoch-1 journal object by hand, then a plain
    // (writer) open must remove it.
    let key = wedb_object_lsm::keys::journal_key_epoch("ha/t13", 3, e1_epoch);
    let mut w = s.clone();
    w.put(&key, b"stale").unwrap();

    let mut db = ObjectLsm::open(s.clone(), TestCodec, fcfg("ha/t13")).unwrap();
    let p = bpart(&mut db, "data");
    assert_eq!(blen(&p, &mut db), 5, "recover still sees the folded data");
    assert_eq!(s.get(&key).unwrap(), None, "folded superseded-epoch journal removed by the recover()-tail GC");
}

// ----- leased writers -----

#[test]
fn leased_engine_is_exclusive_writer() {
    let s = Bucket::new();
    let c = || Config::new("l/eng".to_string());
    let opts = |owner: &str| LeaseOptions { owner: owner.to_string(), ttl_ms: 120, timeout_ms: 300, heartbeat: true };
    let (mut e1, lease1) =
        ObjectLsm::try_open_leased(s.clone(), TestCodec, c(), &opts("w1"), 1_000, 1).unwrap().unwrap();
    let p1 = bpart(&mut e1, "data");
    p1.insert(&mut e1, b"k", b"v1").unwrap();

    assert!(
        ObjectLsm::try_open_leased(s.clone(), TestCodec, c(), &opts("w2"), 1_010, 2).unwrap().is_none(),
        "second writer must be rejected"
    );

    // With epoch fencing, only manifest-published state survives a writer
    // handoff; flush the memtable first.
    e1.compact_all().unwrap();
    let mut st = e1.store;
    lease1.release(&mut st);
    let (mut e3, _l3) =
        ObjectLsm::try_open_leased(s.clone(), TestCodec, c(), &opts("w3"), 1_020, 3).unwrap().unwrap();
    let p3 = bpart(&mut e3, "data");
    assert_eq!(p3.get(&mut e3, b"k").unwrap(), Some(b"v1".to_vec()), "data persists across writer handoff");
}

#[test]
fn shard_prefixes_allow_parallel_writers() {
    let s = Bucket::new();
    let c0 = Config::for_shard("l/shard".to_string(), 0);
    let c1 = Config::for_shard("l/shard".to_string(), 1);
    assert_ne!(c0.prefix, c1.prefix);

    let mut e0 = open_leased(&s, c0, "w0", 1_000, 1);
    let mut e1 = open_leased(&s, c1, "w1", 1_000, 2);
    let p0 = bpart(&mut e0, "data");
    let p1 = bpart(&mut e1, "data");
    p0.insert(&mut e0, b"k", b"shard0").unwrap();
    p1.insert(&mut e1, b"k", b"shard1").unwrap();
    assert_eq!(p0.get(&mut e0, b"k").unwrap().unwrap(), b"shard0");
    assert_eq!(p1.get(&mut e1, b"k").unwrap().unwrap(), b"shard1");
}

// ----- metrics -----

#[test]
fn metrics_track_ops_errors_and_storage() {
    let bucket = Bucket::new();
    let store = Faulty::new(bucket);
    let mut db = ObjectLsm::open(store.clone(), TestCodec, fcfg("mt/1")).unwrap();
    let p = fpart(&mut db, "data");

    assert_eq!(p.get(&mut db, b"none").unwrap(), None); // gets = 1
    p.insert(&mut db, b"k1", b"v1").unwrap(); // commit ok, put = 1
    let next = store.journal_puts.get() + 1;
    store.fail_journal_at.borrow_mut().push(next);
    assert!(p.insert(&mut db, b"k2", b"v2").is_err()); // commit error, no put counted
    p.insert(&mut db, b"k2", b"v2").unwrap(); // retry ok, put = 2
    assert_eq!(p.get(&mut db, b"k1").unwrap().unwrap(), b"v1"); // gets = 2
    p.rm(&mut db, b"k1").unwrap(); // delete = 1

    let m = db.metrics();
    assert_eq!(m.commits, 4);
    assert_eq!(m.commit_failures, 1);
    assert_eq!(m.puts, 2);
    assert_eq!(m.deletes, 1);
    assert_eq!(m.gets, 2);
    assert!(m.memtable_bytes > 0);
    assert!(m.journal_bytes > 0);
    assert_eq!(m.segments, 0);

    db.compact_all().unwrap();
    let m2 = db.metrics();
    assert!(m2.segments >= 1);
    assert!(m2.segment_bytes > 0);
    assert!(m2.journal_count <= m.journal_count, "compact folds journals");
}

#[test]
fn follower_metrics_count_refresh_and_reads() {
    let s = Bucket::new();
    let mut leader = ObjectLsm::open(s.clone(), TestCodec, fcfg("mt/2")).unwrap();
    let p = bpart(&mut leader, "data");
    p.insert(&mut leader, b"k", b"v").unwrap();
    leader.compact_all().unwrap();

    let mut follower = ObjectLsm::open_follower(s.clone(), TestCodec, fcfg("mt/2")).unwrap();
    assert_eq!(follower.metrics().refreshes, 0);
    follower.refresh().unwrap();
    assert_eq!(follower.metrics().refreshes, 1);
    let pf = bpart(&mut follower, "data");
    assert_eq!(pf.get(&mut follower, b"k").unwrap().unwrap(), b"v");
    let m = follower.metrics();
    assert_eq!(m.refreshes, 1);
    assert_eq!(m.gets, 1);
    assert_eq!(m.commits, 0, "follower never commits");
}

// ----- cold reads and failover -----

/// A bucket view that records every ranged read.
#[derive(Clone)]
struct RangeCounting {
    inner: Bucket,
    ranges: Rc<RefCell<Vec<(String, u64, u64)>>>,
}

impl Store for RangeCounting {
    fn get(&self, key: &str) -> Result<Option<Vec<u8>>, Error> {
        self.inner.get(key)
    }
    fn get_range(&self, key: &str, offset: u64, len: u64) -> Result<Option<Vec<u8>>, Error> {
        self.ranges.borrow_mut().push((key.to_string(), offset, len));
        self.inner.get_range(key, offset, len)
    }
    fn put(&mut self, key: &str, data: &[u8]) -> Result<(), Error> {
        self.inner.put(key, data)
    }
    fn delete(&mut self, key: &str) -> Result<(), Error> {
        self.inner.delete(key)
    }
    fn list(&self, prefix: &str) -> Result<Vec<String>, Error> {
        self.inner.list(prefix)
    }
}

#[test]
fn cold_read_after_open_only_fetches_block_range() {
    let prefix = "t/cold-read";
    let c = || {
        Config::new(prefix.to_string())
            .max_memtable_bytes(48)
            .block_size(64)
            .max_segments_before_compact(1_000_000)
    };
    let k = |i: u32| format!("key{i:03}").into_bytes();
    let v = |i: u32| format!("v{i}").into_bytes();

    // Phase 1: create durable segments without the counting wrapper.
    let mem = Bucket::new();
    {
        let mut db = ObjectLsm::open(mem.clone(), TestCodec, c()).unwrap();
        let p = bpart(&mut db, "data");
        for i in 0..20 {
            p.insert(&mut db, &k(i), &v(i)).unwrap();
        }
        assert!(p.table_count(&db) >= 1);
    }

    // Phase 2: reopen through the counting store and clear open-time noise.
    let counting = RangeCounting { inner: mem.clone(), ranges: Rc::new(RefCell::new(Vec::new())) };
    let ranges = counting.ranges.clone();
    let mut db = ObjectLsm::open(counting, TestCodec, c()).unwrap();
    ranges.borrow_mut().clear();

    let p = ObjectLsmPartition::open(&mut db, "data").unwrap();
    assert_eq!(p.get(&mut db, &k(7)).unwrap().unwrap(), v(7));

    let calls = ranges.borrow().clone();
    assert_eq!(calls.len(), 1, "cold point read should perform exactly one block Range GET, got {calls:?}");
    let (key, offset, len) = &calls[0];
    assert!(key.starts_with(&format!("{prefix}/seg/data/")), "unexpected range key: {key}");
    assert!(*offset < 1_000_000 && *len > 20, "expected a data-block range near the object start");
}

#[test]
fn successor_recovers_pre_manifest_journals_after_crash() {
    let s = Bucket::new();
    let (mut leader, _lease) =
        ObjectLsm::try_open_leased(s.clone(), TestCodec, fcfg("ha/t3"), &leased_opts("w0", 300), 1_000, 21)
            .unwrap()
            .expect("leader");
    let p = bpart(&mut leader, "data");
    for i in 0..50u32 {
        p.insert(&mut leader, format!("k{i:03}").as_bytes(), format!("v{i}").as_bytes()).unwrap();
    }
    assert!(leader.fence_epoch() != 0, "leased engine must carry a fencing epoch");
    // Crash: the lease object stays until it expires (ttl 300 ms).
    assert!(ObjectLsm::try_open_leased(s.clone(), TestCodec, fcfg("ha/t3"), &leased_opts("w1", 60_000), 1_200, 22)
        .unwrap()
        .is_none());
    let (mut standby, _l2) =
        ObjectLsm::try_open_leased(s.clone(), TestCodec, fcfg("ha/t3"), &leased_opts("w1", 60_000), 1_600, 22)
            .unwrap()
            .expect("standby promoted");

    let p2 = bpart(&mut standby, "data");
    assert_eq!(blen(&p2, &mut standby), 50, "successor must recover acked pre-manifest journals");
    for i in (0..50u32).step_by(7) {
        assert_eq!(p2.get(&mut standby, format!("k{i:03}").as_bytes()).unwrap(), Some(format!("v{i}").into_bytes()));
    }

    // The successor keeps writing under its own (new) epoch.
    p2.insert(&mut standby, b"k050", b"v50").unwrap();
    standby.compact_all().unwrap();

    let mut db = ObjectLsm::open(s.clone(), TestCodec, fcfg("ha/t3")).unwrap();
    let p3 = bpart(&mut db, "data");
    assert_eq!(blen(&p3, &mut db), 51);
    assert_eq!(p3.get(&mut db, b"k049").unwrap().unwrap(), b"v49");
    assert_eq!(p3.get(&mut db, b"k050").unwrap().unwrap(), b"v50");
}

#[test]
fn takeover_anchor_preserves_successor_acks_across_handoff() {
    let s = Bucket::new();
    // Tiny budget so the successor's replay exceeds it and recovery flushes.
    let c = || Config::new("ha/t8".to_string()).max_memtable_bytes(2048).max_segments_before_compact(1_000_000);
    let (mut l1, _lease1) =
        ObjectLsm::try_open_leased(s.clone(), TestCodec, c(), &leased_opts("w0", 250), 1_000, 31)
            .unwrap()
            .expect("first writer");
    let p1 = bpart(&mut l1, "data");
    for i in 0..50u32 {
        p1.insert(&mut l1, format!("k{i:03}").as_bytes(), &vec![b'x'; 96]).unwrap();
    }
    // l1 crashes; its lease expires.
    let (mut l2, lease2) =
        ObjectLsm::try_open_leased(s.clone(), TestCodec, c(), &leased_opts("w1", 60_000), 2_000, 32)
            .unwrap()
            .expect("l2 promoted");
    let p2 = bpart(&mut l2, "data");
    assert_eq!(blen(&p2, &mut l2), 50, "l2 must recover the crashed l1");

    // l2 acks three more writes under its OWN epoch, then hands off cleanly
    // WITHOUT flushing them to a manifest.
    for i in 50..53u32 {
        p2.insert(&mut l2, format!("k{i:03}").as_bytes(), &vec![b'y'; 96]).unwrap();
    }
    let mut st = l2.store;
    lease2.release(&mut st);

    let (mut l3, _lease3) =
        ObjectLsm::try_open_leased(s.clone(), TestCodec, c(), &leased_opts("w2", 60_000), 3_000, 33)
            .unwrap()
            .expect("third writer promotes");
    let p3 = bpart(&mut l3, "data");
    assert_eq!(blen(&p3, &mut l3), 53, "l2's acked journals must survive the handoff");
    assert_eq!(p3.get(&mut l3, b"k052").unwrap().unwrap(), vec![b'y'; 96]);
}

#[test]
fn supervisor_clamps_poll_and_promotes_when_the_lease_is_free() {
    let s = Bucket::new();
    let a = Supervisor::new(s.clone(), fcfg("sv/1"), leased_opts("a", 60_000), 0);
    assert_eq!(a.poll_ms, 10);
    let b = Supervisor::new(s.clone(), fcfg("sv/1"), leased_opts("b", 60_000), 250);
    assert_eq!(b.poll_ms, 250);
    let (mut e, lease) = a.try_promote(TestCodec, 1_000, 5).unwrap().expect("free lease");
    assert_eq!(e.fence_epoch(), 5);
    assert_eq!(lease.owner(), "a");
    assert!(b.try_promote(TestCodec, 1_001, 6).unwrap().is_none(), "standby waits while a leads");
    let p = bpart(&mut e, "data");
    p.insert(&mut e, b"k", b"v").unwrap();
    let mut st = e.store;
    lease.release(&mut st);
    let (mut e2, _l2) = b.try_promote(TestCodec, 1_002, 6).unwrap().expect("promoted after release");
    let p2 = bpart(&mut e2, "data");
    assert_eq!(p2.get(&mut e2, b"k").unwrap().unwrap(), b"v");
}

#[test]
fn intermittent_put_failures_never_lose_acked_writes() {
    let bucket = Bucket::new();
    let store = Faulty::new(bucket.clone());
    store.fail_every.set(5);
    let mut db = ObjectLsm::open(store.clone(), TestCodec, fcfg("jit/1")).unwrap();
    let p = fpart(&mut db, "data");

    // Strict-mode commits: a transient journal PUT returns Err (not acked);
    // the caller retries until success.
    let mut injected = 0usize;
    for i in 0..200u32 {
        let key = format!("k{i:03}");
        let value = format!("v{i}");
        while p.insert(&mut db, key.as_bytes(), value.as_bytes()).is_err() {
            injected += 1;
        }
    }
    assert!(injected > 0, "jitter must have injected at least one failure");
    assert_eq!(flen(&p, &mut db), 200, "every acked write is visible");

    let mut db2 = ObjectLsm::open(bucket, TestCodec, fcfg("jit/1")).unwrap();
    let p2 = bpart(&mut db2, "data");
    assert_eq!(blen(&p2, &mut db2), 200, "reopen recovers every acked write");
    for i in (0..200u32).step_by(13) {
        assert_eq!(
            p2.get(&mut db2, format!("k{i:03}").as_bytes()).unwrap().unwrap(),
            format!("v{i}").into_bytes()
        );
    }
}

#[test]
fn windowed_commit_is_durable_after_drop_flush() {
    let c = || Config::new("rf/ack".to_string()).max_memtable_bytes(1 << 20).journal_window_ms(Some(60_000));
    let mut db = ObjectLsm::open(MemoryStore::new(), TestCodec, c()).unwrap();
    let p = part(&mut db, "data");
    for i in 0..20u32 {
        p.insert(&mut db, format!("k{i:03}").as_bytes(), format!("v{i}").as_bytes()).unwrap();
    }
    assert!(db.store.list(&journal_prefix("rf/ack")).unwrap().is_empty(), "ack does not mean flushed yet");
    // closing flushes the pending journal buffer
    db.flush_journal_window().unwrap();
    let store = db.store;
    assert!(!store.list(&journal_prefix("rf/ack")).unwrap().is_empty(), "close must flush buffered journal groups");

    let mut db2 = ObjectLsm::open(store, TestCodec, c()).unwrap();
    let p2 = part(&mut db2, "data");
    assert_eq!(len_of(&p2, &mut db2), 20);
    assert_eq!(p2.get(&mut db2, b"k019").unwrap().unwrap(), b"v19");
}

#[test]
fn lost_lease_blocks_writes() {
    let s = Bucket::new();
    let (mut db, mut lease) = ObjectLsm::try_open_leased(
        s.clone(),
        TestCodec,
        Config::new("rf/fence".to_string()).max_memtable_bytes(1 << 20),
        &LeaseOptions { owner: "w".to_string(), ttl_ms: 120, timeout_ms: 500, heartbeat: true },
        1_000,
        1,
    )
    .unwrap()
    .unwrap();
    let p = bpart(&mut db, "data");
    p.insert(&mut db, b"k", b"v").unwrap();

    // The lease record disappears: the next heartbeat marks the lease lost
    // and the engine is fenced.
    let mut w = s.clone();
    w.delete("rf/fence/lease").unwrap();
    assert!(!lease.heartbeat_renew(&mut w, 1_040));
    db.lease_lost = lease.is_lost();
    let e = p.insert(&mut db, b"k2", b"v2").unwrap_err();
    assert!(e.message().contains("lease lost"));
}

#[test]
fn follower_tracks_epoch_change_across_failover() {
    let s = Bucket::new();
    let (mut l1, _lease1) =
        ObjectLsm::try_open_leased(s.clone(), TestCodec, fcfg("fo/t4"), &leased_opts("w0", 250), 1_000, 41)
            .unwrap()
            .unwrap();
    let p1 = bpart(&mut l1, "data");
    for i in 0..5u32 {
        p1.insert(&mut l1, format!("w0-{i:02}").as_bytes(), b"v").unwrap();
    }
    l1.compact_all().unwrap();

    let mut follower = ObjectLsm::open_follower(s.clone(), TestCodec, fcfg("fo/t4")).unwrap();
    follower.refresh().unwrap();
    let pf = bpart(&mut follower, "data");
    assert_eq!(blen(&pf, &mut follower), 5);

    // Leader crashes (lease left to expire) and a new epoch takes over.
    let (mut l2, _lease2) =
        ObjectLsm::try_open_leased(s.clone(), TestCodec, fcfg("fo/t4"), &leased_opts("w1", 60_000), 1_600, 42)
            .unwrap()
            .expect("w1 promoted");
    let p2 = bpart(&mut l2, "data");
    for i in 0..5u32 {
        p2.insert(&mut l2, format!("w1-{i:02}").as_bytes(), b"v").unwrap();
    }
    l2.compact_all().unwrap();

    // The follower crosses the epoch boundary.
    follower.refresh().unwrap();
    assert_eq!(blen(&pf, &mut follower), 10, "follower tracks the failover");
    assert_eq!(pf.get(&mut follower, b"w0-04").unwrap().unwrap(), b"v");
    assert_eq!(pf.get(&mut follower, b"w1-00").unwrap().unwrap(), b"v");
}

#[test]
fn stale_leader_is_fenced_after_takeover_and_successor_keeps_its_acks() {
    let s = Bucket::new();
    let opts = |owner: &str, ttl_ms: u64| LeaseOptions { owner: owner.to_string(), ttl_ms, timeout_ms: 2_000, heartbeat: true };
    let (mut w0, mut lease0) =
        ObjectLsm::try_open_leased(s.clone(), TestCodec, fcfg("ha/t5"), &opts("w0", 300), 1_000, 51)
            .unwrap()
            .unwrap();
    let p0 = bpart(&mut w0, "data");
    for i in 0..5u32 {
        p0.insert(&mut w0, format!("w0-{i:02}").as_bytes(), b"v").unwrap();
    }

    // w0 stops renewing; the lease expires and a standby takes it over.
    let (mut w1, _lease1) =
        ObjectLsm::try_open_leased(s.clone(), TestCodec, fcfg("ha/t5"), &opts("w1", 60_000), 1_400, 52)
            .unwrap()
            .expect("standby takes over the expired lease");

    // w1 sees w0's acked (never-flushed) writes.
    let p1 = bpart(&mut w1, "data");
    assert_eq!(blen(&p1, &mut w1), 5);
    assert_eq!(p1.get(&mut w1, b"w0-04").unwrap().unwrap(), b"v");

    // w0 is fenced once its heartbeat notices the loss.
    let mut view = s.clone();
    assert!(!lease0.heartbeat_renew(&mut view, 1_450));
    w0.lease_lost = lease0.is_lost();
    let e = p0.insert(&mut w0, b"w0-late", b"v").unwrap_err();
    assert!(e.message().contains("lease lost"));
}

#[test]
fn journal_tail_lists_numbered_keys_by_sequence() {
    let mut st = wedb_object_lsm::state::EngineState::new(Config::new("p".to_string()));
    let keys = vec!["p/j/7".to_string(), "p/j/x".to_string(), "p/j/3".to_string()];
    let pending = wedb_object_lsm::recovery::collect_journal_tail(&mut st, &keys, None);
    assert_eq!(pending, vec![("p/j/3".to_string(), 3), ("p/j/7".to_string(), 7)]);
    assert_eq!(st.journal_seq, 7);
    assert_eq!(st.journal_seqs, vec![3, 7]);
}

// ----- crash consistency: the writer's in-memory state is lost (the engine
// is dropped without closing) and a fresh engine recovers from the bucket -----

fn crash_reopen(bucket: &Bucket) -> ObjectLsm<Bucket, TestCodec> {
    let c = Config::new("crash".to_string()).max_memtable_bytes(1 << 20);
    ObjectLsm::open(bucket.clone(), TestCodec, c).unwrap()
}

fn crash_writes(db: &mut FDb) {
    let p = fpart(db, "data");
    for i in 0..20u32 {
        p.insert(db, format!("k{i:03}").as_bytes(), format!("v{i}").as_bytes()).unwrap();
    }
}

#[test]
fn journal_recovery_after_crash() {
    let bucket = Bucket::new();
    {
        let c = Config::new("crash".to_string()).max_memtable_bytes(1 << 20);
        let mut db = ObjectLsm::open(Faulty::new(bucket.clone()), TestCodec, c).unwrap();
        crash_writes(&mut db);
    }
    let mut db = crash_reopen(&bucket);
    let p = bpart(&mut db, "data");
    assert_eq!(p.iter(&mut db).unwrap().len(), 20);
    assert_eq!(p.get(&mut db, b"k019").unwrap().unwrap(), b"v19");
}

#[test]
fn flush_recovery_after_crash() {
    let bucket = Bucket::new();
    {
        let c = Config::new("crash".to_string()).max_memtable_bytes(1 << 20);
        let mut db = ObjectLsm::open(Faulty::new(bucket.clone()), TestCodec, c).unwrap();
        crash_writes(&mut db);
        db.compact_all().unwrap();
    }
    let mut db = crash_reopen(&bucket);
    let p = bpart(&mut db, "data");
    assert_eq!(p.iter(&mut db).unwrap().len(), 20);
    assert_eq!(p.get(&mut db, b"k019").unwrap().unwrap(), b"v19");
}

#[test]
fn segment_put_crash_recovers_from_journal() {
    let bucket = Bucket::new();
    {
        let store = Faulty::new(bucket.clone());
        let c = Config::new("crash".to_string()).max_memtable_bytes(1 << 20);
        let mut db = ObjectLsm::open(store, TestCodec, c).unwrap();
        crash_writes(&mut db);
        // the segment upload dies before the manifest is published
        db.store.fail_segment_put.set(true);
        let _ = db.compact_all();
    }
    let mut db = crash_reopen(&bucket);
    let p = bpart(&mut db, "data");
    assert_eq!(p.iter(&mut db).unwrap().len(), 20);
}

#[test]
fn clear_crash_keeps_state_consistent() {
    let bucket = Bucket::new();
    {
        let store = Faulty::new(bucket.clone());
        // the old segment objects are never deleted: the process dies there
        store.fail_delete.set(true);
        let c = Config::new("crash".to_string()).max_memtable_bytes(40).max_segments_before_compact(1_000_000);
        let mut db = ObjectLsm::open(store, TestCodec, c).unwrap();
        let p = fpart(&mut db, "data");
        for i in 0..20u32 {
            p.insert(&mut db, format!("k{i:03}").as_bytes(), b"v").unwrap();
        }
        p.clear(&mut db).unwrap();
    }
    let mut db = crash_reopen(&bucket);
    let p = bpart(&mut db, "data");
    assert!(p.iter(&mut db).unwrap().is_empty(), "cleared state must remain cleared after crash");
}

#[test]
fn compact_crash_keeps_state_consistent() {
    let bucket = Bucket::new();
    {
        let store = Faulty::new(bucket.clone());
        // the superseded segments are never deleted: the process dies there
        store.fail_delete.set(true);
        let c = Config::new("crash".to_string()).max_memtable_bytes(40).max_segments_before_compact(1_000_000);
        let mut db = ObjectLsm::open(store, TestCodec, c).unwrap();
        crash_writes(&mut db);
        db.compact_all().unwrap();
    }
    let mut db = crash_reopen(&bucket);
    let p = bpart(&mut db, "data");
    assert_eq!(p.iter(&mut db).unwrap().len(), 20);
    assert_eq!(p.get(&mut db, b"k007").unwrap().unwrap(), b"v7");
}

#[test]
fn back_cursor_reads_a_segment_in_descending_order() {
    let c = Config::new("bk".to_string()).max_memtable_bytes(1 << 20).block_size(64);
    let mut db: Db = ObjectLsm::open(MemoryStore::new(), TestCodec, c).unwrap();
    let p = part(&mut db, "data");
    for i in 0..20u32 {
        p.insert(&mut db, format!("k{i:03}").as_bytes(), format!("v{i}").as_bytes()).unwrap();
    }
    db.compact_all().unwrap();
    let seg = db.parts[0].1.meta.segments[0].copy_meta();
    let index = db.load_index("bk", "data", &seg).unwrap();
    assert!(index.blocks.len() > 1, "several blocks");
    let b = Bounds {
        lower: KeyBound::Included(b"k003".to_vec()),
        upper: KeyBound::Excluded(b"k017".to_vec()),
    };
    let mut back = BackCursor::over_segment(seg.copy_meta(), SegmentIndex { blocks: index.blocks.iter().map(|m| m.copy_meta()).collect() });
    let mut got = Vec::new();
    while let Some((k, _)) = back.next_entry(&mut db, "data", "bk", &b).unwrap() {
        got.push(String::from_utf8(k).unwrap());
    }
    let mut fwd = FwdCursor::over_segment(seg.copy_meta(), index);
    let mut forward = Vec::new();
    while let Some((k, _)) = fwd.next_entry(&mut db, "data", "bk", &b).unwrap() {
        forward.push(String::from_utf8(k).unwrap());
    }
    let expected: Vec<String> = (3..17u32).rev().map(|i| format!("k{i:03}")).collect();
    assert_eq!(got, expected);
    forward.reverse();
    assert_eq!(forward, got, "backward equals reversed forward");
    assert_eq!(back.next_entry(&mut db, "data", "bk", &b).unwrap(), None);
}

#[test]
fn recovery_without_manifest_replays_every_epoch_in_order() {
    let mut s = MemoryStore::new();
    let g1 = Group { seq: 1, epoch: 9, ops: vec![Op::put("data".to_string(), b"k".to_vec(), b"v1".to_vec())] };
    let g2 = Group { seq: 2, epoch: 10, ops: vec![Op::put("data".to_string(), b"k".to_vec(), b"v2".to_vec())] };
    s.put(&journal_key_epoch("p", 1, 9), &encode_group(&g1).unwrap()).unwrap();
    s.put(&journal_key_epoch("p", 2, 10), &encode_group(&g2).unwrap()).unwrap();
    let mut cache = IndexCache::new(16);
    let mut t = Vec::new();
    let st = wedb_object_lsm::recovery::recover(&mut s, &TestCodec, Config::new("p".to_string()), &mut cache, &mut t)
        .unwrap();
    assert_eq!(st.journal_seq, 2);
    assert_eq!(st.fence_epoch, 0);
    assert_eq!(t.len(), 1);
    assert_eq!(t[0].0, "data");
    assert_eq!(t[0].1.get(b"k").map(|e| matches!(e, wedb_object_lsm::state::MemEntry::Value(v) if v == b"v2")), Some(true));
}
