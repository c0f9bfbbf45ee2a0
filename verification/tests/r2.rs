use wedb_object_lsm::r2::{etag_of, r2_range, to_hex, R2Config};

fn s(v: &str) -> Option<String> {
    Some(v.to_string())
}

#[test]
fn explicit_endpoint_is_used() {
    let c = R2Config::from_values(s("b"), s("https://x.example"), None, s("k"), s("secret")).unwrap();
    assert_eq!(c.bucket, "b");
    assert_eq!(c.endpoint, "https://x.example");
    assert_eq!(c.access_key_id, "k");
    assert_eq!(c.secret_access_key, "secret");
}

#[test]
fn account_endpoint_is_the_default() {
    let c = R2Config::from_values(s("b"), s(""), s("acct"), s("k"), s("secret")).unwrap();
    assert_eq!(c.endpoint, "https://acct.r2.cloudflarestorage.com");
    let c = R2Config::from_values(s("b"), None, s("acct"), s("k"), s("secret")).unwrap();
    assert_eq!(c.endpoint, "https://acct.r2.cloudflarestorage.com");
}

#[test]
fn missing_settings_are_named_in_lookup_order() {
    let e = R2Config::from_values(None, None, None, None, None).unwrap_err();
    assert_eq!(e.message(), "object store error: missing env R2_BUCKET");
    let e = R2Config::from_values(s("b"), s(""), None, s("k"), s("x")).unwrap_err();
    assert_eq!(e.message(), "object store error: missing env R2_ACCOUNT_ID");
    let e = R2Config::from_values(s("b"), s("e"), None, None, s("x")).unwrap_err();
    assert_eq!(e.message(), "object store error: missing env R2_ACCESS_KEY_ID");
    let e = R2Config::from_values(s("b"), s("e"), None, s("k"), None).unwrap_err();
    assert_eq!(e.message(), "object store error: missing env R2_SECRET_ACCESS_KEY");
}

#[test]
fn etag_is_the_lowercase_md5_hex() {
    let t: String = etag_of(b"").into_iter().collect();
    assert_eq!(t, "d41d8cd98f00b204e9800998ecf8427e");
    let t: String = etag_of(b"abc").into_iter().collect();
    assert_eq!(t, "900150983cd24fb0d6963f7d28e17f72");
}

#[test]
fn hex_rendering_pads_each_byte() {
    let t: String = to_hex(&[0x00, 0x0f, 0xa0, 0xff]).into_iter().collect();
    assert_eq!(t, "000fa0ff");
}

#[test]
fn ranged_reads_saturate_the_end() {
    assert_eq!(r2_range(10, 5).unwrap(), (10, 15));
    assert_eq!(r2_range(1, u64::MAX).unwrap(), (1, usize::MAX));
}
