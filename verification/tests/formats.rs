use wedb_object_lsm::cache::{BlockCache, IndexCache};
use wedb_object_lsm::codec::{put_bytes, put_str, put_u32, put_u64, Reader};
use wedb_object_lsm::config::Config;
use wedb_object_lsm::engine::{current_payload, parse_current};
use wedb_object_lsm::error::Error;
use wedb_object_lsm::journal::{decode_group, decode_group_stream, encode_group, Group, Op};
use wedb_object_lsm::keys::{
    current_key, journal_key, journal_key_epoch, journal_prefix, journal_prefix_epoch,
    manifest_key, manifest_prefix, parse_journal_tail, parse_tail_seq, segment_key, segment_root,
    str_chars,
};
use wedb_object_lsm::merge::merge_entries;
use wedb_object_lsm::metrics::Metrics;
use wedb_object_lsm::scan::{prefix_successor, KeyBound};
use wedb_object_lsm::store::{MemoryStore, Store};
use wedb_object_lsm::segment::{decode_framed, encode_segment, SegmentEntries, SegmentIndex};

#[test]
fn object_keys_have_fixed_layouts() {
    assert_eq!(current_key("p"), "p/manifest/current");
    assert_eq!(manifest_key("p", 7), "p/manifest/00000000000000000007");
    assert_eq!(journal_key("p", 42), "p/journal/00000000000000000042");
    assert_eq!(journal_key_epoch("p", 42, 0), "p/journal/00000000000000000042");
    assert_eq!(journal_key_epoch("p", 42, 9), "p/journal/9/00000000000000000042");
    assert_eq!(segment_key("p", "data", 3), "p/seg/data/00000000000000000003");
    assert_eq!(segment_root("p"), "p/seg/");
    assert_eq!(journal_prefix("p"), "p/journal/");
    assert_eq!(journal_prefix_epoch("p", 0), "p/journal/");
    assert_eq!(journal_prefix_epoch("p", 5), "p/journal/5/");
    assert_eq!(manifest_prefix("p"), "p/manifest/");
    assert_eq!(manifest_key("p", u64::MAX), "p/manifest/18446744073709551615");
}

#[test]
fn journal_keys_parse_back() {
    assert_eq!(parse_tail_seq(&journal_key("p", 42)), Some(42));
    assert_eq!(parse_tail_seq("p/journal/abc"), None);
    assert_eq!(parse_tail_seq("p/journal/"), None);
    assert_eq!(parse_journal_tail(&journal_key_epoch("p", 7, 0), "p/journal/"), Some((0, 7)));
    assert_eq!(parse_journal_tail(&journal_key_epoch("p", 7, 3), "p/journal/"), Some((3, 7)));
    assert_eq!(parse_journal_tail("q/journal/00000000000000000007", "p/journal/"), None);
}

#[test]
fn str_chars_lists_characters() {
    assert_eq!(str_chars("aé/"), vec!['a', 'é', '/']);
}

#[test]
fn current_pointer_round_trips() {
    assert_eq!(current_payload(12, 0), b"12".to_vec());
    assert_eq!(current_payload(12, 5), b"12\n5".to_vec());
    assert_eq!(parse_current(&current_payload(12, 5)).unwrap(), (12, 5));
    assert_eq!(parse_current(&current_payload(u64::MAX, u128::MAX)).unwrap(), (u64::MAX, u128::MAX));
    assert_eq!(parse_current(b" 7 \n 3 ").unwrap(), (7, 3));
    assert_eq!(parse_current(b"+7").unwrap(), (7, 0));
    assert!(parse_current(b"18446744073709551616").is_err());
    assert!(parse_current(b"7\nx").is_err());
    assert!(parse_current(b"").is_err());
    assert!(parse_current(&[0xc3]).is_err());
}

fn group(seq: u64, epoch: u128) -> Group {
    Group {
        seq,
        epoch,
        ops: vec![
            Op::put("a".to_string(), b"k1".to_vec(), b"v1".to_vec()),
            Op::delete("m".to_string(), b"k2".to_vec()),
        ],
    }
}

#[test]
fn journal_groups_round_trip() {
    let g = group(5, 77);
    let b = encode_group(&g).unwrap();
    assert_eq!(decode_group(&b).unwrap(), g);
    let mut stream = b.clone();
    stream.extend(encode_group(&group(6, 77)).unwrap());
    let gs = decode_group_stream(&stream).unwrap();
    assert_eq!(gs, vec![group(5, 77), group(6, 77)]);
    assert_eq!(decode_group_stream(&[]).unwrap(), Vec::<Group>::new());
}

#[test]
fn damaged_journal_groups_are_corrupt() {
    let b = encode_group(&group(1, 0)).unwrap();
    let mut trailing = b.clone();
    trailing.push(0);
    assert!(matches!(decode_group(&trailing), Err(Error::Corrupt(_))));
    assert!(matches!(decode_group(&b[..b.len() - 1]), Err(Error::Corrupt(_))));
    let mut bad_magic = b.clone();
    bad_magic[0] ^= 0xff;
    assert!(matches!(decode_group(&bad_magic), Err(Error::Corrupt(_))));
}

#[test]
fn codec_primitives_round_trip() {
    let mut out = Vec::new();
    put_u32(&mut out, 0xdead_beef);
    put_u64(&mut out, 1 << 40);
    put_bytes(&mut out, b"xyz").unwrap();
    put_str(&mut out, "név").unwrap();
    assert_eq!(&out[..4], &[0xef, 0xbe, 0xad, 0xde]);
    let mut r = Reader::new(&out);
    assert_eq!(r.u32().unwrap(), 0xdead_beef);
    assert_eq!(r.u64().unwrap(), 1 << 40);
    assert_eq!(r.bytes().unwrap(), b"xyz".to_vec());
    assert_eq!(r.str().unwrap(), "név");
    assert_eq!(r.remaining(), 0);
    assert!(matches!(r.u8(), Err(Error::Corrupt(_))));
}

#[test]
fn reader_refuses_invalid_utf8_strings() {
    let mut out = Vec::new();
    put_bytes(&mut out, &[0xff]).unwrap();
    let mut r = Reader::new(&out);
    assert!(matches!(r.str(), Err(Error::Corrupt(_))));
}

#[test]
fn config_builders_and_shards() {
    let c = Config::new("x".to_string()).max_memtable_bytes(5).block_size(9).journal_window_ms(Some(3));
    assert_eq!(c.prefix, "x");
    assert_eq!(c.max_memtable_bytes, 5);
    assert_eq!(c.block_size, 9);
    assert_eq!(c.journal_window_ms, Some(3));
    assert_eq!(Config::for_shard("base".to_string(), 12).prefix, "base/shard-12");
    assert_eq!(Config::default().prefix, "wedb/objectlsm");
}

#[test]
fn prefix_successor_carries_trailing_ff() {
    assert_eq!(prefix_successor(b"ab"), KeyBound::Excluded(b"ac".to_vec()));
    assert_eq!(prefix_successor(b"a\xff"), KeyBound::Excluded(b"b".to_vec()));
    assert_eq!(prefix_successor(b"\xff\xff"), KeyBound::Unbounded);
    assert_eq!(prefix_successor(b""), KeyBound::Unbounded);
}

#[test]
fn merge_prefers_newer_runs_and_drops_tombstones() {
    let old: SegmentEntries = vec![
        (b"a".to_vec(), Some(b"1".to_vec())),
        (b"b".to_vec(), Some(b"2".to_vec())),
        (b"c".to_vec(), Some(b"3".to_vec())),
    ];
    let new: SegmentEntries = vec![(b"b".to_vec(), None), (b"c".to_vec(), Some(b"30".to_vec())), (b"d".to_vec(), Some(b"4".to_vec()))];
    let merged = merge_entries(vec![old, new]);
    assert_eq!(
        merged,
        vec![
            (b"a".to_vec(), Some(b"1".to_vec())),
            (b"c".to_vec(), Some(b"30".to_vec())),
            (b"d".to_vec(), Some(b"4".to_vec())),
        ]
    );
}

#[test]
fn block_cache_evicts_oldest_over_capacity() {
    let mut c = BlockCache::new(10);
    c.insert(1, 0, vec![(b"k".to_vec(), None)], 6);
    c.insert(1, 64, vec![(b"j".to_vec(), None)], 6);
    assert!(c.get(1, 0).is_none(), "oldest block evicted");
    assert!(c.get(1, 64).is_some());
    assert_eq!(c.used(), 6);
    assert_eq!(c.capacity(), 10);
    let mut off = BlockCache::new(0);
    off.insert(1, 0, vec![], 1);
    assert!(off.get(1, 0).is_none(), "capacity 0 caches nothing");
}

#[test]
fn block_cache_refresh_stays_within_capacity() {
    let mut c = BlockCache::new(10);
    c.insert(1, 0, vec![(b"k".to_vec(), None)], 5);
    c.insert(2, 0, vec![(b"j".to_vec(), None)], 4);
    c.insert(2, 0, vec![(b"j".to_vec(), None)], 8);
    assert!(c.used() <= c.capacity());
    assert!(c.get(1, 0).is_none(), "older block evicted after the refresh grew");
    assert!(c.get(2, 0).is_some());
    assert_eq!(c.used(), 8);
    c.insert(2, 0, vec![(b"j".to_vec(), None)], 20);
    assert_eq!(c.used(), 0, "a block larger than the capacity is not kept");
}

#[test]
fn index_cache_holds_indexes_by_segment() {
    let mut c = IndexCache::new(2);
    c.insert(1, SegmentIndex { blocks: vec![] });
    assert!(c.get(1).is_some());
    assert!(c.get(2).is_none());
    c.remove(1);
    assert!(c.get(1).is_none());
}

#[test]
fn metrics_count_operations() {
    let mut m = Metrics::new();
    m.bump_commit();
    m.bump_puts(3);
    m.bump_deletes(2);
    m.bump_get();
    m.bump_refresh();
    m.bump_commit_failure();
    let s = m.counters();
    assert_eq!((s.commits, s.commit_failures, s.puts, s.deletes, s.gets, s.refreshes), (1, 1, 3, 2, 1, 1));
}

#[test]
fn framed_block_checks_the_supplied_checksum() {
    let mut e = SegmentEntries::new();
    e.push((b"k".to_vec(), Some(b"v".to_vec())));
    let encoded = encode_segment(&e, 64).unwrap();
    let len = u32::from_le_bytes([encoded[4], encoded[5], encoded[6], encoded[7]]) as usize;
    let raw = &encoded[..8 + len];
    let crc = crc32fast::hash(&raw[8..]);
    assert_eq!(decode_framed(raw, crc).unwrap(), e);
    assert!(matches!(decode_framed(raw, crc ^ 1), Err(Error::Corrupt(_))));
}

#[test]
fn error_messages_carry_their_kind() {
    assert_eq!(Error::store("x").message(), "object store error: x");
    assert_eq!(Error::corrupt("y").message(), "corrupted object data: y");
    assert_eq!(Error::encode("z").message(), "encoding error: z");
    assert_eq!(Error::Io("w".to_string()).message(), "i/o error: w");
}

#[test]
fn padded_keys_list_in_numeric_order() {
    let mut s = MemoryStore::new();
    for seq in [10u64, 9, 100, 1] {
        s.put(&journal_key("p", seq), b"").unwrap();
        s.put(&manifest_key("p", seq), b"").unwrap();
    }
    let journals: Vec<Option<u64>> =
        s.list("p/journal/").unwrap().iter().map(|k| parse_tail_seq(k)).collect();
    assert_eq!(journals, vec![Some(1), Some(9), Some(10), Some(100)]);
    let manifests: Vec<Option<u64>> =
        s.list("p/manifest/").unwrap().iter().map(|k| parse_tail_seq(k)).collect();
    assert_eq!(manifests, vec![Some(1), Some(9), Some(10), Some(100)]);
}
