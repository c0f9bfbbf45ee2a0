//! Cloudflare R2 (S3-compatible) connection settings and the pieces of the R2
//! store's request logic that compute on plain values: the endpoint default,
//! the ranged-read bounds and the ETag that turns a byte-level
//! compare-and-swap into an `If-Match` condition. The HTTP client itself lives
//! with the embedding application.
use vstd::prelude::*;

use crate::error::Error;
use vstd::string::StringExecFns;

verus! {

/// R2 connection parameters.
#[derive(Clone, Debug)]
pub struct R2Config {
    pub bucket: String,
    pub endpoint: String,
    pub access_key_id: String,
    pub secret_access_key: String,
}

/// The default endpoint of an R2 account.
pub open spec fn spec_account_endpoint(account: Seq<char>) -> Seq<char> {
    "https://"@ + account + ".r2.cloudflarestorage.com"@
}

/// Whether an explicit endpoint setting is usable (present and non-empty).
pub open spec fn endpoint_given(endpoint: Option<Seq<char>>) -> bool {
    endpoint matches Some(e) && e.len() > 0
}

/// The first setting missing, in the order they are looked up: the bucket,
/// then the account (only needed without an endpoint), then the two keys.
pub open spec fn first_missing(
    bucket: bool,
    endpoint: Option<Seq<char>>,
    account: bool,
    access: bool,
    secret: bool,
) -> Option<Seq<char>> {
    if !bucket {
        Some("R2_BUCKET"@)
    } else if !endpoint_given(endpoint) && !account {
        Some("R2_ACCOUNT_ID"@)
    } else if !access {
        Some("R2_ACCESS_KEY_ID"@)
    } else if !secret {
        Some("R2_SECRET_ACCESS_KEY"@)
    } else {
        None
    }
}

/// An optional string's view.
pub open spec fn opt_view(o: Option<String>) -> Option<Seq<char>> {
    match o {
        Some(s) => Some(s@),
        None => None,
    }
}

/// The error for a missing setting `name`.
fn missing(name: &str) -> (e: Error)
    ensures
        e matches Error::Store(m) && m@ == "missing env "@ + name@,
{
    let mut m = String::from_str("missing env ");
    m.append(name);
    Error::Store(m)
}

impl R2Config {
    /// Build the configuration from the looked-up values of `R2_BUCKET`,
    /// `R2_ENDPOINT`, `R2_ACCOUNT_ID`, `R2_ACCESS_KEY_ID` and
    /// `R2_SECRET_ACCESS_KEY`. Without a non-empty endpoint the account's
    /// default endpoint is used.
    pub fn from_values(
        bucket: Option<String>,
        endpoint: Option<String>,
        account: Option<String>,
        access_key_id: Option<String>,
        secret_access_key: Option<String>,
    ) -> (r: Result<R2Config, Error>)
        ensures
            match first_missing(
                bucket is Some,
                opt_view(endpoint),
                account is Some,
                access_key_id is Some,
                secret_access_key is Some,
            ) {
                Some(name) => r matches Err(e) && e matches Error::Store(m) && m@ == "missing env "@
                    + name,
                None => r matches Ok(c) && {
                    &&& c.bucket@ == bucket.unwrap()@
                    &&& c.endpoint@ == (if endpoint_given(opt_view(endpoint)) {
                        endpoint.unwrap()@
                    } else {
                        spec_account_endpoint(account.unwrap()@)
                    })
                    &&& c.access_key_id@ == access_key_id.unwrap()@
                    &&& c.secret_access_key@ == secret_access_key.unwrap()@
                },
            },
    {
        let bucket = match bucket {
            Some(b) => b,
            None => {
                return Err(missing("R2_BUCKET"));
            },
        };
        let given = match &endpoint {
            Some(e) => !e.as_str().is_empty(),
            None => false,
        };
        let endpoint = if given {
            endpoint.unwrap()
        } else {
            let account = match account {
                Some(a) => a,
                None => {
                    return Err(missing("R2_ACCOUNT_ID"));
                },
            };
            let mut e = String::from_str("https://");
            e.append(account.as_str());
            e.append(".r2.cloudflarestorage.com");
            e
        };
        let access_key_id = match access_key_id {
            Some(a) => a,
            None => {
                return Err(missing("R2_ACCESS_KEY_ID"));
            },
        };
        let secret_access_key = match secret_access_key {
            Some(s) => s,
            None => {
                return Err(missing("R2_SECRET_ACCESS_KEY"));
            },
        };
        Ok(R2Config { bucket, endpoint, access_key_id, secret_access_key })
    }
}

/// The `[start, end)` byte range of a ranged read of `len` bytes at `offset`:
/// the end saturates at `u64::MAX`, and both bounds must fit in `usize`.
pub fn r2_range(offset: u64, len: u64) -> (r: Result<(usize, usize), Error>)
    ensures
        ({
            let end: int = if offset + len > u64::MAX {
                u64::MAX as int
            } else {
                offset + len
            };
            match r {
                Ok((s, e)) => offset <= usize::MAX && end <= usize::MAX && s == offset && e == end,
                Err(err) => err is Store && (offset > usize::MAX || end > usize::MAX),
            }
        }),
{
    if offset as u128 > usize::MAX as u128 {
        return Err(Error::store("range offset exceeds platform usize"));
    }
    let end = offset.saturating_add(len);
    if end as u128 > usize::MAX as u128 {
        return Err(Error::store("range end exceeds platform usize"));
    }
    Ok((offset as usize, end as usize))
}

/// Names the MD5 digest of `data` (RFC 1321).
pub uninterp spec fn md5_of(data: Seq<u8>) -> Seq<u8>;

/// Computes `Md5::digest(data)` (the `md-5` crate) and returns its bytes: the
/// digest of `data`, always 16 bytes long.
#[verifier::external_body]
fn md5_digest(data: &[u8]) -> (d: Vec<u8>)
    ensures
        d@ == md5_of(data@),
        d@.len() == 16,
{
    <md5::Md5 as md5::Digest>::digest(data).to_vec()
}

/// The lowercase hexadecimal digit for `v < 16`.
pub open spec fn hex_digit(v: nat) -> char {
    if v < 10 {
        (48 + v) as char
    } else {
        (87 + v) as char
    }
}

/// Each byte as two lowercase hexadecimal digits, high nibble first (what
/// `{:x}` prints for a digest).
pub open spec fn hex_lower(bytes: Seq<u8>) -> Seq<char>
    decreases bytes.len(),
{
    if bytes.len() == 0 {
        Seq::empty()
    } else {
        hex_lower(bytes.drop_last()) + seq![
            hex_digit((bytes.last() / 16) as nat),
            hex_digit((bytes.last() % 16) as nat),
        ]
    }
}

/// The lowercase hexadecimal digit for `v < 16`.
fn hex_char(v: u8) -> (c: char)
    requires
        v < 16,
    ensures
        c == hex_digit(v as nat),
{
    if v < 10 {
        (48u8 + v) as char
    } else {
        (87u8 + v) as char
    }
}

/// Render `bytes` in lowercase hexadecimal, two digits per byte.
pub fn to_hex(bytes: &[u8]) -> (s: Vec<char>)
    ensures
        s@ == hex_lower(bytes@),
{
    let mut out: Vec<char> = Vec::new();
    let mut i: usize = 0;
    while i < bytes.len()
        invariant
            0 <= i <= bytes@.len(),
            out@ == hex_lower(bytes@.take(i as int)),
        decreases bytes@.len() - i,
    {
        let b = bytes[i];
        let hi = hex_char(b / 16);
        let lo = hex_char(b % 16);
        proof {
            assert(bytes@.take(i + 1).drop_last() =~= bytes@.take(i as int));
            assert(bytes@.take(i + 1).last() == b);
        }
        out.push(hi);
        out.push(lo);
        proof {
            assert(out@ =~= hex_lower(bytes@.take(i + 1)));
        }
        i = i + 1;
    }
    proof {
        assert(bytes@.take(i as int) =~= bytes@);
    }
    out
}

/// The ETag R2 reports for a single-part object holding `data`: its MD5
/// digest in lowercase hexadecimal.
pub fn etag_of(data: &[u8]) -> (s: Vec<char>)
    ensures
        s@ == hex_lower(md5_of(data@)),
        s@.len() == 32,
{
    let d = md5_digest(data);
    let s = to_hex(d.as_slice());
    proof {
        lemma_hex_len(d@);
    }
    s
}

/// Hexadecimal rendering doubles the length.
pub proof fn lemma_hex_len(bytes: Seq<u8>)
    ensures
        hex_lower(bytes).len() == 2 * bytes.len(),
    decreases bytes.len(),
{
    if bytes.len() > 0 {
        lemma_hex_len(bytes.drop_last());
    }
}

} // verus!
