use wedb_object_lsm::segment::{
    build_segment_meta, decode_block, decode_index, encode_segment, find_block, parse_tail,
    SegmentEntries, TAIL_LEN,
};

fn sample() -> SegmentEntries {
    let mut e = SegmentEntries::new();
    e.push((b"gone".to_vec(), None));
    for i in 0..500u32 {
        e.push((
            format!("key{i:05}").into_bytes(),
            Some(format!("value-{i}").into_bytes()),
        ));
    }
    e
}

#[test]
fn roundtrip_block_format() {
    let entries = sample();
    let encoded = encode_segment(&entries, 64).unwrap();
    let tail = parse_tail(&encoded[encoded.len() - TAIL_LEN..]).unwrap();
    assert_eq!(tail.count, entries.len() as u64);
    assert!(tail.index_len > 0);
    let idx = decode_index(
        &encoded[tail.index_offset as usize..(tail.index_offset + tail.index_len) as usize],
    )
    .unwrap();
    assert!(idx.blocks.len() >= 2, "expected multiple blocks");
    // each block decodes & concatenated equals full list
    let mut all = SegmentEntries::new();
    for b in &idx.blocks {
        let raw = &encoded[b.offset as usize..(b.offset + b.len) as usize];
        all.extend(decode_block(raw).unwrap());
    }
    assert_eq!(all, entries);
    let meta = build_segment_meta(7, 3, &encoded, &entries, true).unwrap();
    assert_eq!(meta.count, entries.len() as u64);
    assert_eq!(meta.blocks, idx.blocks.len() as u64);
    assert_eq!(meta.first, b"gone".to_vec());
    assert_eq!(meta.last, b"key00499".to_vec());
}

#[test]
fn find_block_targets_correct_block() {
    let entries = sample();
    let encoded = encode_segment(&entries, 64).unwrap();
    let tail = parse_tail(&encoded[encoded.len() - TAIL_LEN..]).unwrap();
    let idx = decode_index(
        &encoded[tail.index_offset as usize..(tail.index_offset + tail.index_len) as usize],
    )
    .unwrap();
    for (k, v) in &entries {
        let bi = find_block(&idx, k).unwrap();
        let raw = &encoded
            [idx.blocks[bi].offset as usize..(idx.blocks[bi].offset + idx.blocks[bi].len) as usize];
        let block = decode_block(raw).unwrap();
        let pos = block.partition_point(|(kk, _)| kk.as_slice() < k.as_slice());
        assert_eq!(
            block.get(pos).map(|(_, vv)| vv),
            Some(v),
            "key {k:?} not found in its block"
        );
    }
    assert_eq!(find_block(&idx, b"aaa"), None);
}

#[test]
fn corrupted_block_fails_its_checksum() {
    let entries = sample();
    let encoded = encode_segment(&entries, 64).unwrap();
    let tail = parse_tail(&encoded[encoded.len() - TAIL_LEN..]).unwrap();
    let idx = decode_index(
        &encoded[tail.index_offset as usize..(tail.index_offset + tail.index_len) as usize],
    )
    .unwrap();
    let b = &idx.blocks[0];
    let mut raw = encoded[b.offset as usize..(b.offset + b.len) as usize].to_vec();
    let last = raw.len() - 1;
    raw[last] ^= 0x01;
    assert!(decode_block(&raw).is_err());
}

#[test]
fn block_checksum_is_crc32_ieee() {
    // a single-entry segment: the first block's header carries the CRC-32 of its payload
    let mut e = SegmentEntries::new();
    e.push((b"k".to_vec(), Some(b"v".to_vec())));
    let encoded = encode_segment(&e, 64).unwrap();
    let crc = u32::from_le_bytes([encoded[0], encoded[1], encoded[2], encoded[3]]);
    let len = u32::from_le_bytes([encoded[4], encoded[5], encoded[6], encoded[7]]) as usize;
    let payload = &encoded[8..8 + len];
    assert_eq!(crc, crc32fast::hash(payload));
    assert_ne!(crc, 0);
}

#[test]
fn truncated_tail_is_refused() {
    assert!(parse_tail(&[0u8; 3]).is_err());
}
