use wedb_object_lsm::delta::{decode_delta_ints, delta_range, eval_delta_benefit, unpack_at, DecodeError};

#[test]
fn delta_block_decodes_packed_offsets() {
    // offsets 1 and 2 at 3 bits each, lowest bit first: 0b0001_0001
    let v = decode_delta_ints(10, -1, &[0x11], 3, 3).unwrap();
    assert_eq!(v, vec![10, 10, 11]);
    assert_eq!(unpack_at(&[0x11], 3, 0), 1);
    assert_eq!(unpack_at(&[0x11], 3, 1), 2);
}

#[test]
fn delta_block_of_width_zero_steps_by_min_delta() {
    let v = decode_delta_ints(1, 5, &[], 4, 0).unwrap();
    assert_eq!(v, vec![1, 6, 11, 16]);
    assert_eq!(decode_delta_ints(7, 5, &[], 0, 3).unwrap(), Vec::<i64>::new());
    assert_eq!(decode_delta_ints(7, 5, &[], 1, 3).unwrap(), vec![7]);
}

#[test]
fn delta_block_wraps_around() {
    let v = decode_delta_ints(i64::MAX, 1, &[], 2, 0).unwrap();
    assert_eq!(v, vec![i64::MAX, i64::MIN]);
}

#[test]
fn short_delta_payload_is_unexpected_eof() {
    let e = decode_delta_ints(0, 0, &[0xff], 3, 8).unwrap_err();
    assert_eq!(e, DecodeError::UnexpectedEof { needed: 2, available: 1 });
}

#[test]
fn delta_range_finds_min_and_width() {
    assert_eq!(delta_range(10, &[10, 11, 15]), (0, 3));
    assert_eq!(delta_range(10, &[]), (0, 0));
    assert_eq!(delta_range(0, &[-4, -4]), (-4, 3));
}

#[test]
fn delta_benefit_only_when_narrower() {
    assert_eq!(eval_delta_benefit(10, &[10, 11, 15], 4), Some((0, 3)));
    assert_eq!(eval_delta_benefit(10, &[10, 11, 15], 3), None);
    assert_eq!(eval_delta_benefit(10, &[], 8), None);
}
