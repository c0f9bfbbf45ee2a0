//! Writer lease for sharing one bucket prefix between instances.
//!
//! A lease is an object at `<prefix>/lease` whose payload is
//! `owner\n<expiry-ms>\n<epoch>`. Acquisition goes through the store's atomic
//! create-if-absent; a stale lease (past its expiry) is taken over with a
//! compare-and-swap so two contenders can never both win. The owner renews by
//! swapping in a later expiry; failing to renew marks the lease lost. Clocks,
//! timers and threads belong to the embedding application, which hands the
//! current time in as plain numbers.
use vstd::prelude::*;

use crate::codec::utf8_to_string;
use crate::engine::lemma_find_first;
use crate::error::Error;
use crate::keys::{
    all_digits, dec_digits, find_char, fmt_u128, is_digit, lemma_dec_digits, lemma_parse_dec_pad,
    parse_uint, parse_uint_range, str_chars,
};
use crate::store::Store;
use crate::text::{trim, trim_end, trim_range, trim_start};
use vstd::string::StringExecFns;
use vstd::utf8::{decode_utf8, encode_utf8, valid_utf8};

verus! {

/// Key of the lease object under `prefix`.
pub open spec fn spec_lease_key(prefix: Seq<char>) -> Seq<char> {
    prefix + "/lease"@
}

/// Object key holding the lease record.
pub fn lease_key(prefix: &str) -> (k: String)
    ensures
        k@ == spec_lease_key(prefix@),
{
    let mut k = String::from_str(prefix);
    k.append("/lease");
    k
}

/// Lease acquisition parameters (durations in milliseconds).
#[derive(Clone, Debug)]
pub struct LeaseOptions {
    pub owner: String,
    /// How long a lease lives without renewal.
    pub ttl_ms: u64,
    /// How long to keep retrying acquisition before giving up.
    pub timeout_ms: u64,
    /// Whether to run a background heartbeat renewal thread.
    pub heartbeat: bool,
}

impl Default for LeaseOptions {
    fn default() -> (o: Self)
        ensures
            o.owner@ == "writer"@,
            o.ttl_ms == 30_000,
            o.timeout_ms == 5_000,
            o.heartbeat,
    {
        LeaseOptions {
            owner: String::from_str("writer"),
            ttl_ms: 30_000,
            timeout_ms: 5_000,
            heartbeat: true,
        }
    }
}

/// The lifetime a lease is written with: the configured ttl, at least 1 ms.
pub open spec fn spec_effective_ttl(ttl_ms: u64) -> u64 {
    if ttl_ms == 0 {
        1
    } else {
        ttl_ms
    }
}

/// Text of a lease record held by `owner` until `expiry_ms` under `epoch`.
pub open spec fn lease_text(owner: Seq<char>, expiry_ms: u128, epoch: u128) -> Seq<char> {
    owner + seq!['\n'] + dec_digits(expiry_ms as nat) + seq!['\n'] + dec_digits(epoch as nat)
}

/// The part of `s` before its first newline (all of `s` without one).
pub open spec fn first_field(s: Seq<char>) -> Seq<char> {
    match find_char(s, '\n') {
        Some(i) => s.take(i),
        None => s,
    }
}

/// What follows the first newline of `s`, when there is one.
pub open spec fn after_first(s: Seq<char>) -> Option<Seq<char>> {
    match find_char(s, '\n') {
        Some(i) => Some(s.skip(i + 1)),
        None => None,
    }
}

/// The owner, expiry and epoch a lease text names, reading its lines the way
/// `split('\n')` hands them out: the owner line verbatim, the expiry line
/// trimmed and required to be a number, the epoch line trimmed and `0` when
/// missing or not a number.
pub open spec fn spec_parse_lease(text: Seq<char>) -> Option<(Seq<char>, u128, u128)> {
    match after_first(text) {
        None => None,
        Some(rest) => match parse_uint(trim(first_field(rest)), u128::MAX as nat) {
            None => None,
            Some(e) => {
                let ep: nat = match after_first(rest) {
                    None => 0,
                    Some(t) => match parse_uint(trim(first_field(t)), u128::MAX as nat) {
                        Some(v) => v,
                        None => 0,
                    },
                };
                Some((first_field(text), e as u128, ep as u128))
            },
        },
    }
}

/// The record a lease object's bytes hold: none unless they are UTF-8 text
/// that parses.
pub open spec fn lease_record(bytes: Seq<u8>) -> Option<(Seq<char>, u128, u128)> {
    if valid_utf8(bytes) {
        spec_parse_lease(decode_utf8(bytes))
    } else {
        None
    }
}

/// Whether the lease object (if any) is a record held by `owner`.
pub open spec fn held_by(current: Option<Seq<u8>>, owner: Seq<char>) -> bool {
    &&& current matches Some(b)
    &&& lease_record(b) matches Some(rec)
    &&& rec.0 == owner
}

/// Trimming leaves a nonempty digit string as it is.
pub proof fn lemma_trim_digits(d: Seq<char>)
    requires
        d.len() >= 1,
        all_digits(d),
    ensures
        trim(d) == d,
{
    assert(is_digit(d[0]) && is_digit(d.last()));
    assert(trim_start(d) == d);
    assert(trim_end(d) == d);
}

/// A lease record reads back as the owner, expiry and epoch it was written
/// with, as long as the owner name holds no newline.
pub proof fn lemma_lease_roundtrip(owner: Seq<char>, expiry_ms: u128, epoch: u128)
    requires
        !owner.contains('\n'),
    ensures
        spec_parse_lease(lease_text(owner, expiry_ms, epoch)) == Some((owner, expiry_ms, epoch)),
        lease_record(encode_utf8(lease_text(owner, expiry_ms, epoch))) == Some(
            (owner, expiry_ms, epoch),
        ),
{
    let de = dec_digits(expiry_ms as nat);
    let dp = dec_digits(epoch as nat);
    let text = lease_text(owner, expiry_ms, epoch);
    lemma_dec_digits(expiry_ms as nat);
    lemma_dec_digits(epoch as nat);
    lemma_parse_dec_pad(expiry_ms as nat, 0, u128::MAX as nat);
    lemma_parse_dec_pad(epoch as nat, 0, u128::MAX as nat);
    lemma_trim_digits(de);
    lemma_trim_digits(dp);
    assert forall|j: int| 0 <= j < owner.len() implies text[j] != '\n' by {
        assert(text[j] == owner[j]);
    }
    assert(text[owner.len() as int] == '\n');
    lemma_find_first(text, '\n', owner.len() as int);
    let rest = text.skip(owner.len() as int + 1);
    assert(rest =~= de + seq!['\n'] + dp);
    assert forall|j: int| 0 <= j < de.len() implies rest[j] != '\n' by {
        assert(rest[j] == de[j]);
        assert(is_digit(de[j]));
    }
    assert(rest[de.len() as int] == '\n');
    lemma_find_first(rest, '\n', de.len() as int);
    assert(first_field(rest) =~= de);
    let t = rest.skip(de.len() as int + 1);
    assert(t =~= dp);
    assert forall|j: int| 0 <= j < dp.len() implies t[j] != '\n' by {
        assert(is_digit(dp[j]));
    }
    lemma_find_first(t, '\n', dp.len() as int);
    assert(first_field(t) =~= dp);
    assert(first_field(text) =~= owner);
    vstd::utf8::encode_utf8_valid_utf8(text);
    vstd::utf8::encode_utf8_decode_utf8(text);
}

/// A written lease record is busy for every contender until its expiry and
/// may be taken over from then on, and it counts as held by its owner and by
/// nobody else.
pub proof fn lemma_lease_lifecycle(
    owner: Seq<char>,
    other: Seq<char>,
    expiry_ms: u128,
    epoch: u128,
    now_ms: u128,
)
    requires
        !owner.contains('\n'),
    ensures
        spec_acquire_step(Some(encode_utf8(lease_text(owner, expiry_ms, epoch))), now_ms) == (if expiry_ms
            <= now_ms {
            AcquireStep::TakeOver
        } else {
            AcquireStep::Busy
        }),
        held_by(Some(encode_utf8(lease_text(owner, expiry_ms, epoch))), other) == (other == owner),
{
    lemma_lease_roundtrip(owner, expiry_ms, epoch);
}

/// The bytes of a lease record for `owner` expiring `ttl_ms` after `now_ms`.
pub fn lease_payload(owner: &str, now_ms: u128, ttl_ms: u128, epoch: u128) -> (b: Vec<u8>)
    requires
        now_ms + ttl_ms <= u128::MAX,
    ensures
        b@ == encode_utf8(lease_text(owner@, (now_ms + ttl_ms) as u128, epoch)),
{
    let mut s = String::from_str(owner);
    proof {
        reveal_strlit("\n");
    }
    s.append("\n");
    let e = fmt_u128(now_ms + ttl_ms);
    s.append(e.as_str());
    s.append("\n");
    let p = fmt_u128(epoch);
    s.append(p.as_str());
    assert(s@ =~= lease_text(owner@, (now_ms + ttl_ms) as u128, epoch));
    let t = s.as_str();
    vstd::slice::slice_to_vec(t.as_bytes())
}

/// Index of the first newline in `cs[from..]`, or `cs.len()` when none.
fn field_end(cs: &Vec<char>, from: usize) -> (i: usize)
    requires
        from <= cs@.len(),
    ensures
        from <= i <= cs@.len(),
        find_char(cs@.skip(from as int), '\n') == (if i < cs@.len() {
            Some(i - from)
        } else {
            None::<int>
        }),
{
    let n = cs.len();
    let mut i = from;
    while i < n && cs[i] != '\n'
        invariant
            from <= i <= n,
            n == cs@.len(),
            forall|j: int| from <= j < i ==> cs@[j] != '\n',
        decreases n - i,
    {
        i = i + 1;
    }
    proof {
        let s = cs@.skip(from as int);
        assert forall|j: int| 0 <= j < i - from implies s[j] != '\n' by {
            assert(s[j] == cs@[from + j]);
        }
        if i < n {
            assert(s[i - from] == cs@[i as int]);
        }
        lemma_find_first(s, '\n', i - from);
    }
    i
}

/// Parse a lease record into its owner (as characters), expiry and epoch.
pub fn parse_payload(bytes: &[u8]) -> (r: Result<(Vec<char>, u128, u128), Error>)
    ensures
        match r {
            Ok((o, e, ep)) => lease_record(bytes@) == Some((o@, e, ep)),
            Err(err) => err is Corrupt && lease_record(bytes@) is None,
        },
{
    let text = match utf8_to_string(vstd::slice::slice_to_vec(bytes)) {
        Some(t) => t,
        None => {
            return Err(Error::corrupt("lease not utf-8"));
        },
    };
    proof {
        vstd::utf8::encode_utf8_decode_utf8(text@);
        assert(decode_utf8(bytes@) == text@);
    }
    let cs = str_chars(text.as_str());
    let n = cs.len();
    let i = field_end(&cs, 0);
    proof {
        assert(cs@.skip(0) =~= cs@);
    }
    if i == n {
        return Err(Error::corrupt("lease payload malformed"));
    }
    let ghost rest = cs@.skip(i + 1);
    proof {
        assert(first_field(cs@) =~= cs@.subrange(0, i as int));
        assert(after_first(cs@) == Some(rest));
    }
    let j = field_end(&cs, i + 1);
    proof {
        if j < n {
            assert(first_field(rest) =~= cs@.subrange(i + 1, j as int));
            assert(after_first(rest) == Some(cs@.skip(j + 1))) by {
                assert(rest.skip(j - (i + 1) + 1) =~= cs@.skip(j + 1));
            }
        } else {
            assert(first_field(rest) =~= cs@.subrange(i + 1, n as int));
        }
    }
    let (a, b) = trim_range(&cs, i + 1, j);
    let expiry = match parse_uint_range(&cs, a, b) {
        Some(v) => v,
        None => {
            return Err(Error::corrupt("lease expiry malformed"));
        },
    };
    let mut epoch: u128 = 0;
    if j < n {
        let k = field_end(&cs, j + 1);
        proof {
            let t = cs@.skip(j + 1);
            if k < n {
                assert(first_field(t) =~= cs@.subrange(j + 1, k as int));
            } else {
                assert(first_field(t) =~= cs@.subrange(j + 1, n as int));
            }
        }
        let (c, d) = trim_range(&cs, j + 1, k);
        epoch = match parse_uint_range(&cs, c, d) {
            Some(v) => v,
            None => 0,
        };
    }
    let mut owner = cs;
    owner.truncate(i);
    proof {
        assert(owner@ =~= first_field(text@));
    }
    Ok((owner, expiry, epoch))
}

/// Whether the characters `a` spell `b`.
fn chars_match(a: &Vec<char>, b: &str) -> (r: bool)
    ensures
        r == (a@ == b@),
{
    let bs = str_chars(b);
    if a.len() != bs.len() {
        return false;
    }
    let mut i: usize = 0;
    while i < a.len()
        invariant
            0 <= i <= a@.len(),
            a@.len() == bs@.len(),
            bs@ == b@,
            forall|j: int| 0 <= j < i ==> a@[j] == bs@[j],
        decreases a@.len() - i,
    {
        if a[i] != bs[i] {
            return false;
        }
        i = i + 1;
    }
    assert(a@ =~= bs@);
    true
}

/// Whether the fetched lease object is a record held by `owner`.
pub fn held_by_owner(current: &Option<Vec<u8>>, owner: &str) -> (r: bool)
    ensures
        r == held_by(
            match current {
                Some(b) => Some(b@),
                None => None,
            },
            owner@,
        ),
{
    match current {
        None => false,
        Some(b) => match parse_payload(b.as_slice()) {
            Ok((o, _, _)) => chars_match(&o, owner),
            Err(_) => false,
        },
    }
}

/// What an acquisition attempt does after reading the lease object.
#[derive(Debug, Clone, Copy, PartialEq, Eq, Structural)]
pub enum AcquireStep {
    /// No lease exists: create one.
    Create,
    /// The lease expired: replace exactly the bytes read.
    TakeOver,
    /// Someone else holds a live lease (or the record does not parse).
    Busy,
}

/// The step an acquisition takes on the lease object it read at `now_ms`.
pub open spec fn spec_acquire_step(current: Option<Seq<u8>>, now_ms: u128) -> AcquireStep {
    match current {
        None => AcquireStep::Create,
        Some(b) => match lease_record(b) {
            Some(rec) => if rec.1 <= now_ms {
                AcquireStep::TakeOver
            } else {
                AcquireStep::Busy
            },
            None => AcquireStep::Busy,
        },
    }
}

/// Decide how to acquire given the lease object read at `now_ms`.
pub fn acquire_step(current: &Option<Vec<u8>>, now_ms: u128) -> (s: AcquireStep)
    ensures
        s == spec_acquire_step(
            match current {
                Some(b) => Some(b@),
                None => None,
            },
            now_ms,
        ),
{
    match current {
        None => AcquireStep::Create,
        Some(b) => match parse_payload(b.as_slice()) {
            Ok((_, expiry, _)) => if expiry <= now_ms {
                AcquireStep::TakeOver
            } else {
                AcquireStep::Busy
            },
            Err(_) => AcquireStep::Busy,
        },
    }
}

/// What a renewal does after reading the lease object.
#[derive(Debug, Clone, Copy, PartialEq, Eq, Structural)]
pub enum RenewStep {
    /// The record is gone or belongs to another owner: the lease is lost.
    Lost,
    /// The record is ours: swap in a fresh expiry.
    Swap,
}

/// Decide how to renew `owner`'s lease given the lease object read; a record
/// that does not parse is a corruption error.
pub fn renew_step(current: &Option<Vec<u8>>, owner: &str) -> (r: Result<RenewStep, Error>)
    ensures
        match current {
            None => r == Ok::<RenewStep, Error>(RenewStep::Lost),
            Some(b) => match lease_record(b@) {
                None => r matches Err(e) && e is Corrupt,
                Some(rec) => r == Ok::<RenewStep, Error>(
                    if rec.0 == owner@ {
                        RenewStep::Swap
                    } else {
                        RenewStep::Lost
                    },
                ),
            },
        },
{
    match current {
        None => Ok(RenewStep::Lost),
        Some(b) => {
            let (o, _, _) = parse_payload(b.as_slice())?;
            if chars_match(&o, owner) {
                Ok(RenewStep::Swap)
            } else {
                Ok(RenewStep::Lost)
            }
        },
    }
}

/// A lease this instance won: its key, owner, lifetime, fencing epoch and
/// whether it has since been lost.
pub struct HeldLease {
    pub key: String,
    pub owner: String,
    pub ttl_ms: u64,
    pub epoch: u128,
    pub lost: bool,
}

impl HeldLease {
    /// One non-blocking acquisition attempt at `now_ms` under fencing `epoch`.
    ///
    /// `Ok(Some(lease))` when this instance won the lease, `Ok(None)` when
    /// another owner holds it (or a concurrent contender won the race), `Err`
    /// only on a store failure. A missing lease is created with the store's
    /// create-if-absent and then read back to confirm the record is ours; an
    /// expired one is replaced with a compare-and-swap against the exact bytes
    /// read, so two contenders can never both win.
    pub fn try_acquire_once<S: Store>(
        store: &mut S,
        prefix: &str,
        opts: &LeaseOptions,
        now_ms: u128,
        epoch: u128,
    ) -> (r: Result<Option<HeldLease>, Error>)
        requires
            now_ms + u64::MAX <= u128::MAX,
        ensures
            r matches Ok(Some(l)) ==> {
                &&& l.key@ == spec_lease_key(prefix@)
                &&& l.owner@ == opts.owner@
                &&& l.ttl_ms == spec_effective_ttl(opts.ttl_ms)
                &&& l.epoch == epoch
                &&& !l.lost
            },
    {
        let key = lease_key(prefix);
        let ttl_ms: u64 = if opts.ttl_ms == 0 {
            1
        } else {
            opts.ttl_ms
        };
        let current = store.get(key.as_str())?;
        let held = HeldLease { key, owner: opts.owner.clone(), ttl_ms, epoch, lost: false };
        match acquire_step(&current, now_ms) {
            AcquireStep::Create => {
                let data = lease_payload(opts.owner.as_str(), now_ms, ttl_ms as u128, epoch);
                if store.create(held.key.as_str(), data.as_slice())? {
                    let after = store.get(held.key.as_str())?;
                    if held_by_owner(&after, opts.owner.as_str()) {
                        return Ok(Some(held));
                    }
                }
                Ok(None)
            },
            AcquireStep::TakeOver => {
                let data = lease_payload(opts.owner.as_str(), now_ms, ttl_ms as u128, epoch);
                match current {
                    Some(old) => {
                        if store.put_if_matches(
                            held.key.as_str(),
                            old.as_slice(),
                            data.as_slice(),
                        )? {
                            Ok(Some(held))
                        } else {
                            Ok(None)
                        }
                    },
                    None => Ok(None),
                }
            },
            AcquireStep::Busy => Ok(None),
        }
    }

    /// The owner this lease was taken for.
    pub fn owner(&self) -> (o: &str)
        ensures
            o@ == self.owner@,
    {
        self.owner.as_str()
    }

    /// Whether renewal has failed since acquisition.
    pub fn is_lost(&self) -> (b: bool)
        ensures
            b == self.lost,
    {
        self.lost
    }

    /// Fencing epoch of this acquisition.
    pub fn epoch(&self) -> (e: u128)
        ensures
            e == self.epoch,
    {
        self.epoch
    }

    /// Interval between heartbeat renewals: a third of the ttl, at least 50 ms.
    pub fn heartbeat_interval_ms(&self) -> (ms: u64)
        ensures
            ms == (if self.ttl_ms / 3 < 50 {
                50
            } else {
                self.ttl_ms / 3
            }),
    {
        let t = self.ttl_ms / 3;
        if t < 50 {
            50
        } else {
            t
        }
    }

    /// Renew at `now_ms` by swapping in a later expiry, provided the record
    /// still belongs to us. `Ok(false)` (and the lease marked lost) when the
    /// record is gone, names another owner, or changed under the swap; an
    /// unreadable record or a store failure is an error.
    pub fn renew<S: Store>(&mut self, store: &mut S, now_ms: u128) -> (r: Result<bool, Error>)
        requires
            now_ms + u64::MAX <= u128::MAX,
        ensures
            final(self).key == old(self).key,
            final(self).owner == old(self).owner,
            final(self).ttl_ms == old(self).ttl_ms,
            final(self).epoch == old(self).epoch,
            match r {
                Ok(true) => final(self).lost == old(self).lost,
                Ok(false) => final(self).lost,
                Err(_) => final(self).lost == old(self).lost,
            },
    {
        let current = store.get(self.key.as_str())?;
        match renew_step(&current, self.owner.as_str())? {
            RenewStep::Lost => {
                self.lost = true;
                Ok(false)
            },
            RenewStep::Swap => {
                let data = lease_payload(
                    self.owner.as_str(),
                    now_ms,
                    self.ttl_ms as u128,
                    self.epoch,
                );
                let renewed = match current {
                    Some(old) => store.put_if_matches(
                        self.key.as_str(),
                        old.as_slice(),
                        data.as_slice(),
                    )?,
                    None => false,
                };
                if !renewed {
                    self.lost = true;
                }
                Ok(renewed)
            },
        }
    }

    /// One heartbeat at `now_ms`: renew, treating any failure as losing the
    /// lease. Returns whether the heartbeat should keep running.
    pub fn heartbeat_renew<S: Store>(&mut self, store: &mut S, now_ms: u128) -> (keep: bool)
        requires
            now_ms + u64::MAX <= u128::MAX,
        ensures
            final(self).key == old(self).key,
            final(self).owner == old(self).owner,
            final(self).ttl_ms == old(self).ttl_ms,
            final(self).epoch == old(self).epoch,
            keep ==> final(self).lost == old(self).lost,
            !keep ==> final(self).lost,
    {
        let ok = match store.get(self.key.as_str()) {
            Ok(current) => {
                if held_by_owner(&current, self.owner.as_str()) {
                    let data = lease_payload(
                        self.owner.as_str(),
                        now_ms,
                        self.ttl_ms as u128,
                        self.epoch,
                    );
                    match current {
                        Some(old) => match store.put_if_matches(
                            self.key.as_str(),
                            old.as_slice(),
                            data.as_slice(),
                        ) {
                            Ok(b) => b,
                            Err(_) => false,
                        },
                        None => false,
                    }
                } else {
                    false
                }
            },
            Err(_) => false,
        };
        if !ok {
            self.lost = true;
        }
        ok
    }

    /// Delete the lease object if it still holds our record; failures are
    /// ignored.
    pub fn release<S: Store>(&self, store: &mut S) {
        if let Ok(current) = store.get(self.key.as_str()) {
            if held_by_owner(&current, self.owner.as_str()) {
                let _ = store.delete(self.key.as_str());
            }
        }
    }
}

} // verus!
