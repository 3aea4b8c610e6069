//! Response rate limiting.
//!
//! An authoritative server that synthesizes an unbounded number of records is an
//! attractive reflection amplifier: a small forged query yields a larger answer,
//! and there is no cache to exhaust.
//!
//! Clients are aggregated by address prefix (a /24 or /64 by default) because a
//! single attacker trivially controls every address in their own /64. Answers and
//! negative responses are limited separately: the negative path is the one an
//! attacker can drive with random names, so it deserves its own budget.
//!
//! TCP is never limited: completing a handshake already proves the source
//! address, so there is nothing to amplify.

use core::num::NonZeroU32;

use governor::clock::DefaultClock;
use governor::state::keyed::DefaultKeyedStateStore;
use governor::{Quota, RateLimiter};
use vstd::prelude::*;

use crate::config::RrlParams;
use crate::net::IpAddr;
use crate::nibble;

verus! {

/// A client bucket key: the client address masked to the configured prefix.
#[derive(Debug, Clone, Copy, PartialEq, Eq, Hash, PartialOrd, Ord, Structural)]
pub enum ClientKey {
    V4(u32),
    V6(u64),
}

/// A number of `width` bits with all but its first `prefix` bits cleared.
pub open spec fn leading_bits(bits: nat, width: nat, prefix: nat) -> int {
    let low = if prefix < width {
        (width - prefix) as nat
    } else {
        0
    };
    bits - bits % nibble::pow2(low)
}

/// The bucket of a client address. Of an IPv6 address at most the first 64 bits
/// count.
pub open spec fn bucket(addr: IpAddr, ipv4_prefix: u8, ipv6_prefix: u8) -> ClientKey {
    match addr {
        IpAddr::V4(a) => ClientKey::V4(leading_bits(a as nat, 32, ipv4_prefix as nat) as u32),
        IpAddr::V6(a) => ClientKey::V6(
            leading_bits(a as nat / 0x1_0000_0000_0000_0000, 64, ipv6_prefix as nat) as u64,
        ),
    }
}

/// The first `prefix` bits of a 64-bit number.
fn keep_leading(bits: u64, prefix: u64) -> (r: u64)
    requires
        prefix <= 64,
    ensures
        r == leading_bits(bits as nat, 64, prefix as nat),
{
    let shift: u64 = 64 - prefix;
    proof {
        vstd::arithmetic::power2::lemma2_to64();
        vstd::arithmetic::power2::lemma2_to64_rest();
    }
    if shift >= 64 {
        proof {
            vstd::arithmetic::div_mod::lemma_small_mod(bits as nat, nibble::pow2(64));
        }
        return 0;
    }
    proof {
        let p = nibble::pow2(shift as nat);
        nibble::lemma_pow2_positive(shift as nat);
        vstd::bits::lemma_u64_shr_is_div(bits, shift);
        vstd::arithmetic::div_mod::lemma_fundamental_div_mod(bits as int, p as int);
        vstd::arithmetic::mul::lemma_mul_is_commutative(p as int, bits as int / p as int);
        vstd::bits::lemma_u64_shl_is_mul(bits >> shift, shift);
    }
    (bits >> shift) << shift
}

impl ClientKey {
    /// Aggregate `addr` to the configured prefix length.
    pub fn new(addr: IpAddr, ipv4_prefix: u8, ipv6_prefix: u8) -> (r: Self)
        ensures
            r == bucket(addr, ipv4_prefix, ipv6_prefix),
    {
        match addr {
            IpAddr::V4(a) => {
                let prefix: u64 = if ipv4_prefix < 32 {
                    ipv4_prefix as u64
                } else {
                    32
                };
                // The 32 bits of the address are the last of 64.
                ClientKey::V4(keep_leading(a as u64, 32 + prefix) as u32)
            },
            IpAddr::V6(a) => {
                let high: u64 = (a / 0x1_0000_0000_0000_0000) as u64;
                let prefix: u64 = if ipv6_prefix < 64 {
                    ipv6_prefix as u64
                } else {
                    64
                };
                ClientKey::V6(keep_leading(high, prefix))
            },
        }
    }

    /// The key as a pair of integers: the address family and the bits.
    pub open spec fn as_slot(self) -> (u8, u64) {
        match self {
            ClientKey::V4(bits) => (4, bits as u64),
            ClientKey::V6(bits) => (6, bits),
        }
    }

    fn slot(self) -> (r: (u8, u64))
        ensures
            r == self.as_slot(),
    {
        match self {
            ClientKey::V4(bits) => (4, bits as u64),
            ClientKey::V6(bits) => (6, bits),
        }
    }
}

/// Which budget a response draws from.
#[derive(Debug, Clone, Copy, PartialEq, Eq, Structural)]
pub enum Kind {
    /// A real answer with records.
    Answer,
    /// NXDOMAIN, NODATA or REFUSED: an attacker can drive this path with arbitrary
    /// random names.
    Negative,
}

/// What the limiter decided.
#[derive(Debug, Clone, Copy, PartialEq, Eq, Structural)]
pub enum Decision {
    /// Send the response.
    Allow,
    /// Send nothing at all.
    Drop,
    /// Send an empty truncated response, so a legitimate resolver retries over
    /// TCP (BIND calls this "slip").
    Truncate,
}

/// Token buckets, one per client key, behind `governor::RateLimiter`.
#[verifier::external_body]
pub struct Limiter {
    inner: RateLimiter<(u8, u64), DefaultKeyedStateStore<(u8, u64)>, DefaultClock>,
}

/// The buckets of a limiter: for each key that has one, the nanosecond since the
/// limiter was made at which the bucket has filled up again. The longer a client
/// has been quiet, the further in the past that is.
pub uninterp spec fn buckets(limiter: Limiter) -> Map<(u8, u64), nat>;

/// No bucket at all.
pub open spec fn no_buckets() -> Map<(u8, u64), nat> {
    Map::empty()
}

/// The rate per second and the burst that a limiter was made with.
pub uninterp spec fn limiter_quota(limiter: Limiter) -> (u32, u32);

/// Calls `governor::RateLimiter::keyed`, with the quota that
/// `governor::Quota::per_second` and `governor::Quota::allow_burst` make.
///
/// Claimed of it: the limiter has that quota and holds no bucket yet.
#[verifier::external_body]
fn new_limiter(rate: u32, burst: u32) -> (r: Limiter)
    requires
        rate >= 1,
        burst >= 1,
    ensures
        buckets(r) == no_buckets(),
        limiter_quota(r) == (rate, burst),
{
    let rate = NonZeroU32::new(rate).unwrap_or(NonZeroU32::MIN);
    let burst = NonZeroU32::new(burst).unwrap_or(NonZeroU32::MIN);
    Limiter { inner: RateLimiter::keyed(Quota::per_second(rate).allow_burst(burst)) }
}

/// How long one response takes to fill up again, in nanoseconds, at least one.
pub open spec fn interval(quota: (u32, u32)) -> nat {
    let even = 1_000_000_000nat / (quota.0 as nat);
    if even == 0 {
        1
    } else {
        even
    }
}

/// How far from full a bucket may be for one more response to be within budget: all
/// but one of the burst.
pub open spec fn tolerance(quota: (u32, u32)) -> nat {
    if quota.1 == 0 {
        0
    } else {
        interval(quota) * (quota.1 - 1) as nat
    }
}

/// When the bucket of `key` is full, at `now` or later.
pub open spec fn full_at(buckets: Map<(u8, u64), nat>, key: (u8, u64), now: nat) -> nat {
    if buckets.contains_key(key) && buckets[key] > now {
        buckets[key]
    } else {
        now
    }
}

/// One more response to `key` at `now`: it is within budget if its bucket is not too
/// far from full, and then it draws one response from that bucket and from no other.
pub open spec fn drawn_at(
    before: Map<(u8, u64), nat>,
    after: Map<(u8, u64), nat>,
    key: (u8, u64),
    within: bool,
    quota: (u32, u32),
    now: nat,
) -> bool {
    &&& within == (full_at(before, key, now) <= now + tolerance(quota))
    &&& after == (if within {
        before.insert(key, full_at(before, key, now) + interval(quota))
    } else {
        before
    })
}

/// One more response to `key` at some point in time.
pub open spec fn drawn(
    before: Map<(u8, u64), nat>,
    after: Map<(u8, u64), nat>,
    key: (u8, u64),
    within: bool,
    quota: (u32, u32),
) -> bool {
    exists|now: nat| #[trigger] drawn_at(before, after, key, within, quota, now)
}

/// The buckets that have not filled up again by `cut`.
pub open spec fn recent(buckets: Map<(u8, u64), nat>, cut: nat) -> Map<(u8, u64), nat> {
    buckets.filter_keys(|key: (u8, u64)| buckets[key] > cut)
}

/// What is left of buckets after a sweep: exactly those that had not filled up
/// again by some point in time, as they were.
pub open spec fn swept(before: Map<(u8, u64), nat>, after: Map<(u8, u64), nat>) -> bool {
    exists|cut: nat| after == #[trigger] recent(before, cut)
}

/// Calls `governor::RateLimiter::check_key`: is one more response to this key
/// within its budget?
///
/// Claimed of it: there is a point in time, in nanoseconds since the limiter was
/// made, at which the key is within budget if its bucket is at most the tolerance of
/// the quota away from full, as one that does not exist yet is; if it is within
/// budget, its bucket takes one interval of the quota longer to be full, and
/// otherwise it stays as it is. All other buckets stay as they are. Which point in
/// time that is, is left open.
#[verifier::external_body]
fn check_key(limiter: &mut Limiter, key: (u8, u64)) -> (r: bool)
    ensures
        drawn(
            buckets(*old(limiter)),
            buckets(*final(limiter)),
            key,
            r,
            limiter_quota(*old(limiter)),
        ),
        limiter_quota(*final(limiter)) == limiter_quota(*old(limiter)),
{
    limiter.inner.check_key(&key).is_ok()
}

/// Calls `governor::RateLimiter::retain_recent`.
///
/// Claimed of it: it removes exactly the buckets that had filled up again by some
/// point in time, and leaves the others as they are. Which point that is depends on
/// the time and is left open.
#[verifier::external_body]
fn retain_recent(limiter: &mut Limiter)
    ensures
        swept(buckets(*old(limiter)), buckets(*final(limiter))),
        limiter_quota(*final(limiter)) == limiter_quota(*old(limiter)),
{
    limiter.inner.retain_recent();
}

/// Calls `governor::RateLimiter::len`.
///
/// Claimed of it: it counts the buckets.
#[verifier::external_body]
fn bucket_count(limiter: &Limiter) -> (r: usize)
    ensures
        r == buckets(*limiter).len(),
{
    limiter.inner.len()
}

/// What happens to a response that is over budget, given how many were before it:
/// every `slip`th is truncated, starting with the first, and `slip` 0 drops all.
pub open spec fn over_budget(suppressed: u64, slip: u32) -> Decision {
    if slip != 0 && suppressed % slip as u64 == 0 {
        Decision::Truncate
    } else {
        Decision::Drop
    }
}

/// The state of the rate limit: the quota and the buckets of both budgets, and how
/// many responses were suppressed (modulo 2 to the power of 64).
pub struct RrlView {
    pub params: RrlParams,
    pub answers_quota: (u32, u32),
    pub negatives_quota: (u32, u32),
    pub answers: Map<(u8, u64), nat>,
    pub negatives: Map<(u8, u64), nat>,
    pub suppressed: u64,
}

/// Keyed token-bucket limiter with separate answer and negative budgets.
pub struct Rrl {
    params: RrlParams,
    answers: Limiter,
    negatives: Limiter,
    /// Counts suppressed responses, to implement `slip` deterministically.
    suppressed: u64,
}

impl View for Rrl {
    type V = RrlView;

    closed spec fn view(&self) -> RrlView {
        RrlView {
            params: self.params,
            answers_quota: limiter_quota(self.answers),
            negatives_quota: limiter_quota(self.negatives),
            answers: buckets(self.answers),
            negatives: buckets(self.negatives),
            suppressed: self.suppressed,
        }
    }
}

impl RrlView {
    /// The buckets of one budget.
    pub open spec fn budget(self, kind: Kind) -> Map<(u8, u64), nat> {
        match kind {
            Kind::Answer => self.answers,
            Kind::Negative => self.negatives,
        }
    }

    /// The rate per second and the burst of one budget.
    pub open spec fn quota(self, kind: Kind) -> (u32, u32) {
        match kind {
            Kind::Answer => self.answers_quota,
            Kind::Negative => self.negatives_quota,
        }
    }

    /// Both budgets have the quota that the parameters ask for.
    pub open spec fn wf(self) -> bool {
        self.answers_quota == quota_of(self.params) && self.negatives_quota == quota_of(
            self.params,
        )
    }

    /// The bucket that a client address falls into.
    pub open spec fn slot_of(self, addr: IpAddr) -> (u8, u64) {
        bucket(addr, self.params.ipv4_prefix, self.params.ipv6_prefix).as_slot()
    }
}

/// What a decision on a response of `kind` to `addr` may be, and what it leaves
/// behind.
///
/// Where the limit is off, or over TCP, the response is allowed and nothing
/// changes. Otherwise the client draws one response from its bucket in the budget of
/// that kind, and the other budget stays as it is; and whoever is not within budget
/// is dropped or truncated, in turn.
pub open spec fn decided(
    before: RrlView,
    after: RrlView,
    addr: IpAddr,
    kind: Kind,
    is_tcp: bool,
    r: Decision,
) -> bool {
    let slot = before.slot_of(addr);
    if !before.params.enabled || is_tcp {
        r == Decision::Allow && after == before
    } else {
        &&& after.params == before.params
        &&& after.answers_quota == before.answers_quota
        &&& after.negatives_quota == before.negatives_quota
        &&& drawn(
            before.budget(kind),
            after.budget(kind),
            slot,
            r == Decision::Allow,
            before.quota(kind),
        )
        &&& forall|other: Kind|
            other != kind ==> #[trigger] after.budget(other) == before.budget(other)
        &&& r == Decision::Allow ==> after.suppressed == before.suppressed
        &&& r != Decision::Allow ==> {
            &&& r == over_budget(before.suppressed, before.params.slip)
            &&& after.suppressed as int == (before.suppressed + 1) % (u64::MAX + 1)
        }
    }
}

/// The rate per second and the burst that parameters ask for: at least one per
/// second, and where no burst is given, as much as the rate.
pub open spec fn quota_of(params: RrlParams) -> (u32, u32) {
    let rate = if params.responses_per_second == 0 {
        1
    } else {
        params.responses_per_second
    };
    let burst = if params.burst == 0 {
        rate
    } else {
        params.burst
    };
    (rate, burst)
}

impl Rrl {
    pub fn new(params: RrlParams) -> (r: Self)
        ensures
            r@.wf(),
            r@.params == params,
            r@.answers == no_buckets(),
            r@.negatives == no_buckets(),
            r@.suppressed == 0,
    {
        let (rate, burst) = Self::quota(&params);
        Rrl {
            params,
            answers: new_limiter(rate, burst),
            negatives: new_limiter(rate, burst),
            suppressed: 0,
        }
    }

    fn quota(params: &RrlParams) -> (r: (u32, u32))
        ensures
            r == quota_of(*params),
            r.0 >= 1,
            r.1 >= 1,
    {
        let rate: u32 = if params.responses_per_second == 0 {
            1
        } else {
            params.responses_per_second
        };
        let burst: u32 = if params.burst == 0 {
            rate
        } else {
            params.burst
        };
        (rate, burst)
    }

    /// Decide whether to send a response of `kind` to `addr`.
    ///
    /// `is_tcp` short-circuits to [`Decision::Allow`]: a completed TCP handshake
    /// already proves the source address.
    pub fn decide(&mut self, addr: IpAddr, kind: Kind, is_tcp: bool) -> (r: Decision)
        ensures
            decided(old(self)@, final(self)@, addr, kind, is_tcp, r),
            old(self)@.wf() ==> final(self)@.wf(),
    {
        if !self.params.enabled || is_tcp {
            return Decision::Allow;
        }
        let key = ClientKey::new(addr, self.params.ipv4_prefix, self.params.ipv6_prefix);
        let within: bool = match kind {
            Kind::Answer => check_key(&mut self.answers, key.slot()),
            Kind::Negative => check_key(&mut self.negatives, key.slot()),
        };
        self.settle(within)
    }

    /// What to do with a response, once its budget has been consulted.
    pub fn settle(&mut self, within_budget: bool) -> (r: Decision)
        ensures
            final(self)@.params == old(self)@.params,
            final(self)@.answers_quota == old(self)@.answers_quota,
            final(self)@.negatives_quota == old(self)@.negatives_quota,
            final(self)@.answers == old(self)@.answers,
            final(self)@.negatives == old(self)@.negatives,
            old(self)@.wf() ==> final(self)@.wf(),
            within_budget ==> r == Decision::Allow && final(self)@.suppressed == old(
                self,
            )@.suppressed,
            !within_budget ==> {
                &&& r == over_budget(old(self)@.suppressed, old(self)@.params.slip)
                &&& final(self)@.suppressed as int == (old(self)@.suppressed + 1) % (u64::MAX + 1)
            },
    {
        if within_budget {
            return Decision::Allow;
        }
        // Every `slip`th suppressed response becomes a truncated reply so a real
        // resolver can fall back to TCP.
        let n: u64 = self.suppressed;
        self.suppressed = n.wrapping_add(1);
        if self.params.slip == 0 {
            Decision::Drop
        } else if n % (self.params.slip as u64) == 0 {
            Decision::Truncate
        } else {
            Decision::Drop
        }
    }

    /// Drop bucket state for clients that have gone quiet: in each budget, exactly
    /// the buckets that had filled up again by some point in time.
    ///
    /// The buckets grow without bound between sweeps, so this must be called
    /// periodically.
    pub fn sweep(&mut self)
        ensures
            final(self)@.params == old(self)@.params,
            final(self)@.answers_quota == old(self)@.answers_quota,
            final(self)@.negatives_quota == old(self)@.negatives_quota,
            old(self)@.wf() ==> final(self)@.wf(),
            swept(old(self)@.answers, final(self)@.answers),
            swept(old(self)@.negatives, final(self)@.negatives),
            final(self)@.suppressed == old(self)@.suppressed,
    {
        retain_recent(&mut self.answers);
        retain_recent(&mut self.negatives);
    }

    /// Number of client buckets.
    pub fn tracked_clients(&self) -> (r: usize)
        ensures
            self@.answers.len() + self@.negatives.len() <= usize::MAX ==> r == self@.answers.len()
                + self@.negatives.len(),
            self@.answers.len() + self@.negatives.len() > usize::MAX ==> r == usize::MAX,
    {
        bucket_count(&self.answers).saturating_add(bucket_count(&self.negatives))
    }

    pub fn enabled(&self) -> (r: bool)
        ensures
            r == self@.params.enabled,
    {
        self.params.enabled
    }
}

// ---- laws ------------------------------------------------------------------

/// A response that was put to the rate limit.
pub struct Asked {
    pub addr: IpAddr,
    pub kind: Kind,
    pub is_tcp: bool,
}

/// The states that the rate limit goes through as responses are put to it.
pub open spec fn states_of(states: Seq<RrlView>, asked: Seq<Asked>, decisions: Seq<Decision>) -> bool {
    &&& states.len() == asked.len() + 1
    &&& decisions.len() == asked.len()
    &&& forall|i: int|
        0 <= i < asked.len() ==> decided(
            states[i],
            states[i + 1],
            (#[trigger] asked[i]).addr,
            asked[i].kind,
            asked[i].is_tcp,
            decisions[i],
        )
}

/// The budgets are independent: however many responses go to other clients, or are
/// of the other kind, a client without a bucket is still answered.
pub proof fn law_budgets_are_independent(
    states: Seq<RrlView>,
    asked: Seq<Asked>,
    decisions: Seq<Decision>,
    after: RrlView,
    client: IpAddr,
    kind: Kind,
    is_tcp: bool,
    r: Decision,
)
    requires
        states_of(states, asked, decisions),
        forall|i: int|
            0 <= i < asked.len() ==> (#[trigger] asked[i]).kind != kind || states[0].slot_of(
                asked[i].addr,
            ) != states[0].slot_of(client),
        !states[0].budget(kind).contains_key(states[0].slot_of(client)),
        decided(states.last(), after, client, kind, is_tcp, r),
    ensures
        r == Decision::Allow,
{
    lemma_no_bucket(states, asked, decisions, client, kind, asked.len() as int);
}

proof fn lemma_no_bucket(
    states: Seq<RrlView>,
    asked: Seq<Asked>,
    decisions: Seq<Decision>,
    client: IpAddr,
    kind: Kind,
    n: int,
)
    requires
        states_of(states, asked, decisions),
        forall|i: int|
            0 <= i < asked.len() ==> (#[trigger] asked[i]).kind != kind || states[0].slot_of(
                asked[i].addr,
            ) != states[0].slot_of(client),
        !states[0].budget(kind).contains_key(states[0].slot_of(client)),
        0 <= n <= asked.len(),
    ensures
        states[n].params == states[0].params,
        !states[n].budget(kind).contains_key(states[n].slot_of(client)),
    decreases n,
{
    if n > 0 {
        lemma_no_bucket(states, asked, decisions, client, kind, n - 1);
        let step = asked[n - 1];
        assert(states[n].budget(kind) == states[n].budget(kind));
    }
}

/// How many more responses to `key` are within budget at `now`, if nothing fills up
/// meanwhile.
pub open spec fn left(
    buckets: Map<(u8, u64), nat>,
    key: (u8, u64),
    quota: (u32, u32),
    now: nat,
) -> nat {
    let missing = full_at(buckets, key, now) - now;
    if missing > tolerance(quota) {
        0
    } else {
        ((tolerance(quota) - missing) / interval(quota) as int + 1) as nat
    }
}

/// A response draws one unit from the bucket of its client, if there is one left at
/// that time, and nothing otherwise. No other client loses anything by it, then or
/// later.
pub proof fn law_a_response_spends_one_unit(
    before: Map<(u8, u64), nat>,
    after: Map<(u8, u64), nat>,
    key: (u8, u64),
    within: bool,
    quota: (u32, u32),
    now: nat,
)
    requires
        drawn_at(before, after, key, within, quota, now),
    ensures
        within <==> left(before, key, quota, now) > 0,
        within ==> left(after, key, quota, now) == left(before, key, quota, now) - 1,
        !within ==> after == before,
        forall|other: (u8, u64), later: nat|
            other != key ==> #[trigger] left(after, other, quota, later) == left(
                before,
                other,
                quota,
                later,
            ),
{
    let t = interval(quota) as int;
    let missing = full_at(before, key, now) - now;
    let rest = tolerance(quota) - missing;
    if within {
        vstd::arithmetic::div_mod::lemma_div_pos_is_pos(rest, t);
        if rest < t {
            vstd::arithmetic::div_mod::lemma_basic_div(rest, t);
        } else {
            vstd::arithmetic::div_mod::lemma_div_minus_one(rest, t);
            vstd::arithmetic::div_mod::lemma_div_pos_is_pos(rest - t, t);
        }
    }
}

/// A client without a bucket has a whole burst left.
pub proof fn law_a_new_client_has_a_whole_burst(
    buckets: Map<(u8, u64), nat>,
    key: (u8, u64),
    quota: (u32, u32),
    now: nat,
)
    requires
        quota.1 >= 1,
        !buckets.contains_key(key),
    ensures
        left(buckets, key, quota, now) == quota.1,
{
    let t = interval(quota) as int;
    vstd::arithmetic::div_mod::lemma_div_multiples_vanish((quota.1 - 1) as int, t);
}

/// Budgets fill up with time, to a whole burst at most.
pub proof fn law_budgets_fill_up(
    buckets: Map<(u8, u64), nat>,
    key: (u8, u64),
    quota: (u32, u32),
    now: nat,
    later: nat,
)
    requires
        quota.1 >= 1,
        now <= later,
    ensures
        left(buckets, key, quota, now) <= left(buckets, key, quota, later) <= quota.1,
{
    let t = interval(quota) as int;
    let early = tolerance(quota) - (full_at(buckets, key, now) - now);
    let late = tolerance(quota) - (full_at(buckets, key, later) - later);
    vstd::arithmetic::div_mod::lemma_div_multiples_vanish((quota.1 - 1) as int, t);
    if early >= 0 {
        vstd::arithmetic::div_mod::lemma_div_is_ordered(early, late, t);
        vstd::arithmetic::div_mod::lemma_div_pos_is_pos(early, t);
    }
    if late >= 0 {
        vstd::arithmetic::div_mod::lemma_div_is_ordered(late, tolerance(quota) as int, t);
        vstd::arithmetic::div_mod::lemma_div_pos_is_pos(late, t);
    }
}

/// A burst is allowed: as long as the clock does not go back, the first responses to
/// a client without a bucket are within budget, as many as the burst has. If no time
/// passes between them, those that follow are not.
pub proof fn law_a_burst_is_allowed(
    states: Seq<Map<(u8, u64), nat>>,
    key: (u8, u64),
    within: Seq<bool>,
    quota: (u32, u32),
    times: Seq<nat>,
    i: int,
)
    requires
        quota.1 >= 1,
        states.len() == times.len() + 1,
        within.len() == times.len(),
        forall|k: int|
            0 <= k < times.len() ==> drawn_at(
                states[k],
                states[k + 1],
                key,
                #[trigger] within[k],
                quota,
                times[k],
            ),
        forall|j: int, k: int|
            0 <= j <= k < times.len() ==> #[trigger] times[j] <= #[trigger] times[k],
        !states[0].contains_key(key),
        0 <= i < times.len(),
    ensures
        i < quota.1 ==> within[i],
        i >= quota.1 && times[0] == times[i] ==> !within[i],
{
    lemma_left_in_a_burst(states, key, within, quota, times, i);
    law_a_response_spends_one_unit(states[i], states[i + 1], key, within[i], quota, times[i]);
}

proof fn lemma_left_in_a_burst(
    states: Seq<Map<(u8, u64), nat>>,
    key: (u8, u64),
    within: Seq<bool>,
    quota: (u32, u32),
    times: Seq<nat>,
    i: int,
)
    requires
        quota.1 >= 1,
        states.len() == times.len() + 1,
        within.len() == times.len(),
        forall|k: int|
            0 <= k < times.len() ==> drawn_at(
                states[k],
                states[k + 1],
                key,
                #[trigger] within[k],
                quota,
                times[k],
            ),
        forall|j: int, k: int|
            0 <= j <= k < times.len() ==> #[trigger] times[j] <= #[trigger] times[k],
        !states[0].contains_key(key),
        0 <= i < times.len(),
    ensures
        left(states[i], key, quota, times[i]) >= quota.1 - i,
        times[0] == times[i] ==> left(states[i], key, quota, times[i]) == (if i < quota.1 {
            quota.1 - i
        } else {
            0
        }),
    decreases i,
{
    if i == 0 {
        law_a_new_client_has_a_whole_burst(states[0], key, quota, times[0]);
    } else {
        lemma_left_in_a_burst(states, key, within, quota, times, i - 1);
        assert(times[0] <= times[i - 1] && times[i - 1] <= times[i]);
        let b = within[i - 1];
        law_a_response_spends_one_unit(states[i - 1], states[i], key, b, quota, times[i - 1]);
        law_budgets_fill_up(states[i], key, quota, times[i - 1], times[i]);
    }
}

/// A decision spends at most one unit, and only from the budget of that kind and of
/// that client: what any other client has left, or the same client in the other
/// budget, is the same before and after, at every time. Where the limit is off, and
/// over TCP, nothing is spent.
pub proof fn law_a_decision_spends_one_unit(
    before: RrlView,
    after: RrlView,
    addr: IpAddr,
    kind: Kind,
    is_tcp: bool,
    r: Decision,
) -> (now: nat)
    requires
        decided(before, after, addr, kind, is_tcp, r),
    ensures
        !before.params.enabled || is_tcp ==> r == Decision::Allow && after == before,
        before.params.enabled && !is_tcp ==> {
            let slot = before.slot_of(addr);
            let had = left(before.budget(kind), slot, before.quota(kind), now);
            let has = left(after.budget(kind), slot, after.quota(kind), now);
            &&& r == Decision::Allow <==> had > 0
            &&& r == Decision::Allow ==> has == had - 1
            &&& r != Decision::Allow ==> has == had
        },
        forall|other: Kind, client: IpAddr, later: nat|
            other != kind || before.slot_of(client) != before.slot_of(addr) ==> #[trigger] left(
                after.budget(other),
                after.slot_of(client),
                after.quota(other),
                later,
            ) == left(before.budget(other), before.slot_of(client), before.quota(other), later),
{
    if !before.params.enabled || is_tcp {
        0
    } else {
        let slot = before.slot_of(addr);
        let (x, y) = (before.budget(kind), after.budget(kind));
        let allowed = r == Decision::Allow;
        let quota = before.quota(kind);
        let now = choose|now: nat| #[trigger] drawn_at(x, y, slot, allowed, quota, now);
        law_a_response_spends_one_unit(x, y, slot, allowed, quota, now);
        assert forall|other: Kind, client: IpAddr, later: nat|
            other != kind || before.slot_of(client) != slot implies #[trigger] left(
            after.budget(other),
            after.slot_of(client),
            after.quota(other),
            later,
        ) == left(before.budget(other), before.slot_of(client), before.quota(other), later) by {
            if other != kind {
                assert(after.budget(other) == before.budget(other));
            }
        }
        now
    }
}

/// The smaller of a prefix length and the longest that counts.
pub open spec fn capped(prefix: u8, most: nat) -> nat {
    if prefix < most {
        prefix as nat
    } else {
        most
    }
}

/// Two IPv4 clients share a bucket exactly if they agree on the prefix, of which at
/// most 32 bits count.
pub proof fn law_ipv4_clients_share_a_prefix(a: u32, b: u32, ipv4_prefix: u8, ipv6_prefix: u8)
    ensures
        ({
            let below = nibble::pow2((32 - capped(ipv4_prefix, 32)) as nat);
            bucket(IpAddr::V4(a), ipv4_prefix, ipv6_prefix) == bucket(
                IpAddr::V4(b),
                ipv4_prefix,
                ipv6_prefix,
            ) <==> a as nat / below == b as nat / below
        }),
{
    let k = (32 - capped(ipv4_prefix, 32)) as nat;
    nibble::lemma_pow2_positive(k);
    lemma_same_leading(a as nat, b as nat, nibble::pow2(k));
}

/// Two IPv6 clients share a bucket exactly if they agree on the prefix, of which at
/// most 64 bits count.
pub proof fn law_ipv6_clients_share_a_prefix(a: u128, b: u128, ipv4_prefix: u8, ipv6_prefix: u8)
    ensures
        ({
            let below = nibble::pow2((128 - capped(ipv6_prefix, 64)) as nat);
            bucket(IpAddr::V6(a), ipv4_prefix, ipv6_prefix) == bucket(
                IpAddr::V6(b),
                ipv4_prefix,
                ipv6_prefix,
            ) <==> a as nat / below == b as nat / below
        }),
{
    let k = (64 - capped(ipv6_prefix, 64)) as nat;
    let p = nibble::pow2(k);
    let half = 0x1_0000_0000_0000_0000nat;
    nibble::lemma_pow2_positive(k);
    vstd::arithmetic::power2::lemma2_to64_rest();
    vstd::arithmetic::power2::lemma_pow2_adds(64, k);
    vstd::arithmetic::div_mod::lemma_div_denominator(a as int, half as int, p as int);
    vstd::arithmetic::div_mod::lemma_div_denominator(b as int, half as int, p as int);
    lemma_same_leading(a as nat / half, b as nat / half, p);
}

proof fn lemma_same_leading(a: nat, b: nat, p: nat)
    requires
        p > 0,
    ensures
        a - a % p == b - b % p <==> a / p == b / p,
        0 <= a - a % p <= a,
        0 <= b - b % p <= b,
{
    vstd::arithmetic::div_mod::lemma_mod_decreases(a, p);
    vstd::arithmetic::div_mod::lemma_mod_decreases(b, p);
    vstd::arithmetic::div_mod::lemma_fundamental_div_mod(a as int, p as int);
    vstd::arithmetic::div_mod::lemma_fundamental_div_mod(b as int, p as int);
    let x = a as int / p as int;
    let y = b as int / p as int;
    if p * x == p * y {
        assert(x == y) by (nonlinear_arith)
            requires
                p * x == p * y,
                p > 0,
        ;
    }
}

/// With a slip of `n`, one of any `n` suppressed responses in a row is truncated.
pub proof fn law_slip_is_periodic(suppressed: u64, slip: u32) -> (at: u64)
    requires
        slip > 0,
        suppressed + slip <= u64::MAX,
    ensures
        suppressed <= at < suppressed + slip,
        over_budget(at, slip) == Decision::Truncate,
        forall|other: u64|
            suppressed <= other < suppressed + slip && other != at ==> #[trigger] over_budget(
                other,
                slip,
            ) == Decision::Drop,
{
    let s = slip as int;
    let rest = suppressed as int % s;
    let at = if rest == 0 {
        suppressed as int
    } else {
        suppressed + s - rest
    };
    let q = suppressed as int / s;
    vstd::arithmetic::div_mod::lemma_fundamental_div_mod(suppressed as int, s);
    let k = if rest == 0 {
        q
    } else {
        q + 1
    };
    assert(at == k * s + 0) by (nonlinear_arith)
        requires
            suppressed == s * q + rest,
            at == (if rest == 0 {
                suppressed as int
            } else {
                suppressed + s - rest
            }),
            k == (if rest == 0 {
                q
            } else {
                q + 1
            }),
    ;
    vstd::arithmetic::div_mod::lemma_fundamental_div_mod_converse(at, s, k, 0);
    assert forall|other: u64|
        suppressed <= other < suppressed + slip && other != at implies #[trigger] over_budget(
        other,
        slip,
    ) == Decision::Drop by {
        if other < at {
            vstd::arithmetic::div_mod::lemma_fundamental_div_mod_converse(
                other as int,
                s,
                k - 1,
                other - at + s,
            );
        } else {
            vstd::arithmetic::div_mod::lemma_fundamental_div_mod_converse(
                other as int,
                s,
                k,
                other - at,
            );
        }
    }
    at as u64
}

/// A response over budget is truncated exactly if the count of those before it is a
/// multiple of the slip, and dropped otherwise; with a slip of 0 all are dropped. It is
/// counted, and a response within budget is not.
pub proof fn law_every_slip_th_suppressed_response_is_truncated(
    before: RrlView,
    after: RrlView,
    addr: IpAddr,
    kind: Kind,
    is_tcp: bool,
    r: Decision,
)
    requires
        decided(before, after, addr, kind, is_tcp, r),
        before.suppressed < u64::MAX,
    ensures
        r == Decision::Allow ==> after.suppressed == before.suppressed,
        r != Decision::Allow ==> after.suppressed == before.suppressed + 1,
        r == Decision::Truncate ==> before.params.slip > 0 && before.suppressed as int
            % before.params.slip as int == 0,
        r == Decision::Drop ==> before.params.slip == 0 || before.suppressed as int
            % before.params.slip as int != 0,
        before.params.slip == 0 ==> r != Decision::Truncate,
        after.params == before.params,
{
}

/// A decision draws from the bucket of the client, in the budget of that kind, alone: all
/// other buckets and the other budget are the same before and after.
pub proof fn law_a_decision_touches_one_bucket(
    before: RrlView,
    after: RrlView,
    addr: IpAddr,
    kind: Kind,
    is_tcp: bool,
    r: Decision,
    other: Kind,
    key: (u8, u64),
)
    requires
        decided(before, after, addr, kind, is_tcp, r),
        other != kind || key != before.slot_of(addr),
    ensures
        before.budget(other).contains_key(key) == after.budget(other).contains_key(key),
        before.budget(other).contains_key(key) ==> before.budget(other)[key] == after.budget(
            other,
        )[key],
{
    if before.params.enabled && !is_tcp && other != kind {
        assert(after.budget(other) == before.budget(other));
    }
}

/// The slot of a client tells its address family, and within it the leading bits.
pub proof fn law_slots_tell_clients_apart(a: ClientKey, b: ClientKey)
    ensures
        a.as_slot() == b.as_slot() <==> a == b,
{
}

/// A sweep keeps a bucket exactly if it is still filling up at the cut, and as it is.
pub proof fn law_a_sweep_keeps_what_still_fills_up(
    before: Map<(u8, u64), nat>,
    cut: nat,
    key: (u8, u64),
)
    ensures
        recent(before, cut).contains_key(key) <==> before.contains_key(key) && before[key] > cut,
        recent(before, cut).contains_key(key) ==> recent(before, cut)[key] == before[key],
{
}

/// A budget has the rate and the burst that are configured. Where a rate of 0 is, it is
/// 1, and where a burst of 0 is, it is the rate.
pub proof fn law_quotas_are_as_configured(params: RrlParams)
    ensures
        params.responses_per_second >= 1 ==> quota_of(params).0 == params.responses_per_second,
        params.responses_per_second == 0 ==> quota_of(params).0 == 1,
        params.burst >= 1 ==> quota_of(params).1 == params.burst,
        params.burst == 0 ==> quota_of(params).1 == quota_of(params).0,
{
}

/// A second holds as many intervals as the rate says, the rest being less than one
/// nanosecond for each; and the tolerance is one interval short of the burst.
pub proof fn law_the_rate_is_per_second(rate: u32, burst: u32)
    requires
        1 <= rate <= 1_000_000_000,
        burst >= 1,
    ensures
        interval((rate, burst)) * rate <= 1_000_000_000 < (interval((rate, burst)) + 1) * rate,
        tolerance((rate, burst)) + interval((rate, burst)) == interval((rate, burst)) * burst,
{
    let t = 1_000_000_000int / (rate as int);
    vstd::arithmetic::div_mod::lemma_fundamental_div_mod(1_000_000_000, rate as int);
    vstd::arithmetic::div_mod::lemma_mod_bound(1_000_000_000, rate as int);
    vstd::arithmetic::div_mod::lemma_div_non_zero(1_000_000_000, rate as int);
    assert(t * rate <= 1_000_000_000 < (t + 1) * rate) by (nonlinear_arith)
        requires
            1_000_000_000 == rate * t + 1_000_000_000int % (rate as int),
            0 <= 1_000_000_000int % (rate as int) < rate,
    ;
    assert(t * (burst - 1) + t == t * burst) by (nonlinear_arith);
}

/// Two clients fall into one slot of a rate limit exactly if they are of one family and
/// agree on as many bits as the limit has configured for that family.
pub proof fn law_slots_go_by_the_prefix_of_the_family(state: RrlView, a: u32, b: u32, x: u128, y: u128)
    ensures
        ({
            let below4 = nibble::pow2((32 - capped(state.params.ipv4_prefix, 32)) as nat);
            let below6 = nibble::pow2((128 - capped(state.params.ipv6_prefix, 64)) as nat);
            &&& state.slot_of(IpAddr::V4(a)) == state.slot_of(IpAddr::V4(b)) <==> a as nat / below4
                == b as nat / below4
            &&& state.slot_of(IpAddr::V6(x)) == state.slot_of(IpAddr::V6(y)) <==> x as nat / below6
                == y as nat / below6
            &&& state.slot_of(IpAddr::V4(a)) != state.slot_of(IpAddr::V6(x))
        }),
{
    let (p4, p6) = (state.params.ipv4_prefix, state.params.ipv6_prefix);
    law_ipv4_clients_share_a_prefix(a, b, p4, p6);
    law_ipv6_clients_share_a_prefix(x, y, p4, p6);
    law_slots_tell_clients_apart(bucket(IpAddr::V4(a), p4, p6), bucket(IpAddr::V4(b), p4, p6));
    law_slots_tell_clients_apart(bucket(IpAddr::V6(x), p4, p6), bucket(IpAddr::V6(y), p4, p6));
}

} // verus!
