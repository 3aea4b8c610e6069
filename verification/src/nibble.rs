//! Conversions between IPv6 addresses and `ip6.arpa` names, at nibble
//! granularity.
//!
//! Everything here is a total function: hostile input yields `None`, never a
//! partially-parsed value.

use vstd::prelude::*;

use crate::name::Name;
use crate::text;

verus! {

/// Nibbles in a full IPv6 address (128 bits / 4 bits per nibble).
pub const ADDR_NIBBLES: u8 = 32;

/// Labels in a `<32 nibbles>.ip6.arpa` name.
pub const PTR_QUERY_LABELS: usize = 34;

/// 2 to the power of `e`.
pub open spec fn pow2(e: nat) -> nat {
    vstd::arithmetic::power2::pow2(e)
}

/// 16 to the power of `n`: one more nibble is one more factor of 16.
pub open spec fn pow16(n: nat) -> nat
    decreases n,
{
    if n == 0 {
        1
    } else {
        16 * pow16((n - 1) as nat)
    }
}

/// Nibble `i` of a number, the least significant being nibble 0.
pub open spec fn nibble(v: nat, i: nat) -> nat {
    (v / pow16(i)) % 16
}

/// The value of an ASCII hex digit, in either case.
pub open spec fn hex_digit(b: u8) -> Option<nat> {
    if 0x30 <= b && b <= 0x39 {
        Some((b - 0x30) as nat)
    } else if 0x61 <= b && b <= 0x66 {
        Some((b - 0x61 + 10) as nat)
    } else if 0x41 <= b && b <= 0x46 {
        Some((b - 0x41 + 10) as nat)
    } else {
        None
    }
}

/// The lowercase ASCII hex digit of a nibble.
pub open spec fn hex_byte(v: nat) -> u8 {
    if v < 10 {
        (0x30 + v) as u8
    } else {
        (0x61 + v - 10) as u8
    }
}

/// Every byte is a hex digit.
pub open spec fn all_hex(digits: Seq<u8>) -> bool {
    forall|i: int| 0 <= i < digits.len() ==> hex_digit(#[trigger] digits[i]) is Some
}

/// The number that hex digits denote, most significant digit first.
pub open spec fn hex_value(digits: Seq<u8>) -> nat
    decreases digits.len(),
{
    if digits.len() == 0 {
        0
    } else {
        hex_value(digits.drop_last()) * 16 + hex_digit(digits.last())->0
    }
}

/// The low `n` nibbles of a number as `n` lowercase hex digits, most significant
/// first.
pub open spec fn low_digits(v: nat, n: nat) -> Seq<u8> {
    Seq::new(n, |j: int| hex_byte(nibble(v, (n - 1 - j) as nat)))
}

/// The host part that exactly `n` hex digits denote, cut to the 128 bits of an
/// address.
pub open spec fn host_of_digits(digits: Seq<u8>, n: nat) -> Option<u128> {
    if digits.len() == n && all_hex(digits) {
        Some((hex_value(digits) % pow2(128)) as u128)
    } else {
        None
    }
}

/// How many bits of an address lie below a prefix of `mask` bits.
pub open spec fn host_bits(mask: u8) -> nat {
    if mask >= 128 {
        0
    } else {
        (128 - mask) as nat
    }
}

/// An address with the bits below a prefix of `mask` bits cleared.
pub open spec fn network_part(addr: u128, mask: u8) -> int {
    addr - addr as int % pow2(host_bits(mask)) as int
}

/// The label `ip6`.
pub open spec fn ip6_label() -> Seq<u8> {
    seq![0x69u8, 0x70u8, 0x36u8]
}

/// The label `arpa`.
pub open spec fn arpa_label() -> Seq<u8> {
    seq![0x61u8, 0x72u8, 0x70u8, 0x61u8]
}

/// The labels name one full address: 32 labels of one hex digit each, then
/// `ip6.arpa`.
pub open spec fn is_ptr_name(labels: Seq<Seq<u8>>) -> bool {
    &&& labels.len() == 34
    &&& forall|i: int|
        0 <= i < 32 ==> (#[trigger] labels[i]).len() == 1 && hex_digit(labels[i][0]) is Some
    &&& text::same_bytes(labels[32], ip6_label())
    &&& text::same_bytes(labels[33], arpa_label())
}

/// The digits of a reverse name, most significant first: label 0 carries the
/// least significant one.
pub open spec fn ptr_digits(labels: Seq<Seq<u8>>) -> Seq<u8> {
    Seq::new(32, |k: int| labels[31 - k][0])
}

/// The address that a reverse name denotes.
pub open spec fn ptr_addr(labels: Seq<Seq<u8>>) -> Option<u128> {
    if is_ptr_name(labels) {
        Some(hex_value(ptr_digits(labels)) as u128)
    } else {
        None
    }
}

/// The labels of the `ip6.arpa` zone of a prefix of `mask` bits: the nibbles of
/// the network part, least significant first, then `ip6.arpa`.
pub open spec fn ptr_zone_labels(prefix: u128, mask: u8) -> Seq<Seq<u8>> {
    Seq::new(
        (mask / 4) as nat,
        |i: int| seq![hex_byte(nibble(prefix as nat, (32 - mask as int / 4 + i) as nat))],
    ) + seq![ip6_label(), arpa_label()]
}

/// How long `n` items become with a separator between groups of four.
pub open spec fn dashed_len(n: nat) -> nat {
    if n == 0 {
        0
    } else {
        n + (n - 1) as nat / 4
    }
}

/// Items in groups of four, with `sep` between the groups.
pub open spec fn dashed<T>(d: Seq<T>, sep: T) -> Seq<T> {
    Seq::new(
        dashed_len(d.len()),
        |j: int|
            if j % 5 == 4 {
                sep
            } else {
                d[j - j / 5]
            },
    )
}

/// The `n` digits that were grouped in fours by hyphens, if the bytes have that
/// form.
pub open spec fn undashed(m: Seq<u8>, n: nat) -> Option<Seq<u8>> {
    if m.len() == dashed_len(n) && forall|j: int|
        0 <= j < m.len() && j % 5 == 4 ==> #[trigger] m[j] == 0x2d {
        Some(Seq::new(n, |i: int| m[i + i / 4]))
    } else {
        None
    }
}

// ---- arithmetic ------------------------------------------------------------

proof fn lemma_pow16_is_pow2(n: nat)
    ensures
        pow16(n) == pow2(4 * n),
    decreases n,
{
    if n == 0 {
        vstd::arithmetic::power2::lemma2_to64();
    } else {
        lemma_pow16_is_pow2((n - 1) as nat);
        vstd::arithmetic::power2::lemma_pow2_adds(4, (4 * n - 4) as nat);
        vstd::arithmetic::power2::lemma2_to64();
    }
}

pub proof fn lemma_pow16_positive(n: nat)
    ensures
        pow16(n) > 0,
    decreases n,
{
    if n > 0 {
        lemma_pow16_positive((n - 1) as nat);
    }
}

/// 2 to the power of 128 is one more than the largest address.
pub proof fn lemma_pow2_128()
    ensures
        pow2(128) == u128::MAX + 1,
        pow16(32) == u128::MAX + 1,
{
    vstd::arithmetic::power2::lemma2_to64();
    vstd::arithmetic::power2::lemma2_to64_rest();
    vstd::arithmetic::power2::lemma_pow2_adds(64, 64);
    lemma_pow16_is_pow2(32);
}

pub proof fn lemma_pow2_positive(e: nat)
    ensures
        pow2(e) > 0,
{
    vstd::arithmetic::power2::lemma_pow2_pos(e);
}

proof fn lemma_pow2_step(e: nat)
    requires
        e > 0,
    ensures
        pow2(e) == 2 * pow2((e - 1) as nat),
{
    vstd::arithmetic::power2::lemma_pow2_unfold(e);
}

/// The bits that a shift by `m` leaves of the all-ones address.
proof fn lemma_ones_shifted(m: u128)
    requires
        0 <= m < 128,
    ensures
        (u128::MAX >> m) == pow2((128 - m) as nat) - 1,
{
    vstd::bits::lemma_u128_shr_is_div(u128::MAX, m);
    lemma_pow2_128();
    lemma_pow2_positive(m as nat);
    lemma_pow2_positive((128 - m) as nat);
    vstd::arithmetic::power2::lemma_pow2_adds((128 - m) as nat, m as nat);
    let a = pow2((128 - m) as nat) as int;
    let b = pow2(m as nat) as int;
    assert(a * b - 1 == (a - 1) * b + (b - 1)) by (nonlinear_arith);
    vstd::arithmetic::div_mod::lemma_fundamental_div_mod_converse(a * b - 1, b, a - 1, b - 1);
}

/// Bitmask selecting the network part of a `mask`-bit prefix.
///
/// Values above 128 saturate to the full mask.
pub fn mask_bits(mask: u8) -> (r: u128)
    ensures
        r == pow2(128) - pow2(host_bits(mask)),
{
    proof {
        lemma_pow2_128();
        vstd::arithmetic::power2::lemma2_to64();
    }
    if mask == 0 {
        0
    } else if mask >= 128 {
        u128::MAX
    } else {
        let low: u128 = u128::MAX >> (mask as u128);
        proof {
            lemma_ones_shifted(mask as u128);
        }
        assert(!low == u128::MAX - low) by (bit_vector);
        !low
    }
}

proof fn lemma_low_ones(a: u128, low: u128, k: nat)
    requires
        k <= 128,
        low == pow2(k) - 1,
    ensures
        (a & low) == a as nat % pow2(k),
    decreases k,
{
    vstd::arithmetic::power2::lemma2_to64();
    if k == 0 {
        assert(a & 0 == 0) by (bit_vector);
    } else {
        lemma_pow2_step(k);
        let p = pow2((k - 1) as nat);
        lemma_pow2_positive((k - 1) as nat);
        assert(low % 2 == 1 && low / 2 == p - 1);
        lemma_low_ones(a / 2, low / 2, (k - 1) as nat);
        assert((a & low) / 2 == (a / 2) & (low / 2)) by (bit_vector);
        assert(low % 2 == 1 ==> (a & low) % 2 == a % 2) by (bit_vector);
        vstd::arithmetic::div_mod::lemma_mod_breakdown(a as int, 2, p as int);
    }
}

/// Masking an address keeps exactly its network part.
pub proof fn law_mask_selects_network(addr: u128, mask: u8)
    ensures
        (addr & ((pow2(128) - pow2(host_bits(mask))) as u128)) == network_part(addr, mask),
{
    let m = (pow2(128) - pow2(host_bits(mask))) as u128;
    lemma_pow2_128();
    lemma_pow2_positive(host_bits(mask));
    vstd::arithmetic::power2::lemma2_to64();
    if host_bits(mask) < 128 {
        vstd::arithmetic::power2::lemma_pow2_strictly_increases(host_bits(mask), 128);
    }
    let low = (pow2(host_bits(mask)) - 1) as u128;
    lemma_low_ones(addr, low, host_bits(mask));
    assert(m == u128::MAX - low);
    assert(m == u128::MAX - low ==> addr & m == addr - (addr & low)) by (bit_vector);
}

/// Joining a network part and a host part by `|` is adding them.
pub proof fn lemma_or_is_sum(p: u128, h: u128, k: nat)
    requires
        p as nat % pow2(k) == 0,
        h < pow2(k),
    ensures
        (p | h) == p + h,
    decreases k,
{
    vstd::arithmetic::power2::lemma2_to64();
    if k == 0 {
        assert(p | 0 == p) by (bit_vector);
    } else {
        lemma_pow2_step(k);
        let q = pow2((k - 1) as nat);
        lemma_pow2_positive((k - 1) as nat);
        vstd::arithmetic::div_mod::lemma_mod_breakdown(p as int, 2, q as int);
        assert(p % 2 == 0 && (p / 2) as nat % q == 0);
        lemma_or_is_sum(p / 2, h / 2, (k - 1) as nat);
        assert((p | h) / 2 == (p / 2) | (h / 2)) by (bit_vector);
        assert(p % 2 == 0 ==> (p | h) % 2 == h % 2) by (bit_vector);
    }
}

/// The network part of `addr` under a prefix of `mask` bits.
pub fn network_of(addr: u128, mask: u8) -> (r: u128)
    ensures
        r == network_part(addr, mask),
{
    proof {
        law_mask_selects_network(addr, mask);
        lemma_pow2_128();
    }
    addr & mask_bits(mask)
}

// ---- hex digits ------------------------------------------------------------

proof fn lemma_nibble_shift(v: nat, i: nat)
    ensures
        nibble(v, i + 1) == nibble(v / 16, i),
{
    lemma_pow16_positive(i);
    vstd::arithmetic::div_mod::lemma_div_denominator(v as int, 16, pow16(i) as int);
}

proof fn lemma_nibble_zero(v: nat)
    ensures
        v / pow16(0) == v,
        nibble(v, 0) == v % 16,
{
    assert(pow16(0) == 1);
    vstd::arithmetic::div_mod::lemma_div_basics_3(v as int);
}

/// The low digits of a number denote that number, cut to as many nibbles.
pub proof fn lemma_low_digits_value(v: nat, n: nat)
    ensures
        all_hex(low_digits(v, n)),
        hex_value(low_digits(v, n)) == v % pow16(n),
    decreases n,
{
    let d = low_digits(v, n);
    if n > 0 {
        let m = (n - 1) as nat;
        assert(d.drop_last() =~= low_digits(v / 16, m)) by {
            assert forall|j: int| 0 <= j < m implies #[trigger] d[j] == low_digits(v / 16, m)[j] by {
                lemma_nibble_shift(v, (m - 1 - j) as nat);
            }
        }
        lemma_low_digits_value(v / 16, m);
        lemma_nibble_zero(v);
        assert(d.last() == hex_byte(v % 16));
        lemma_pow16_positive(m);
        vstd::arithmetic::div_mod::lemma_mod_breakdown(v as int, 16, pow16(m) as int);
        assert forall|i: int| 0 <= i < d.len() implies hex_digit(#[trigger] d[i]) is Some by {
            if i < m {
                assert(d[i] == d.drop_last()[i]);
            }
        }
    }
}

/// Hex digits denote less than 16 to the power of their number.
proof fn lemma_hex_value_bound(d: Seq<u8>)
    requires
        all_hex(d),
    ensures
        hex_value(d) < pow16(d.len()),
    decreases d.len(),
{
    if d.len() > 0 {
        assert forall|i: int| 0 <= i < d.drop_last().len() implies hex_digit(
            #[trigger] d.drop_last()[i],
        ) is Some by {
            assert(d.drop_last()[i] == d[i]);
        }
        lemma_hex_value_bound(d.drop_last());
        assert(hex_digit(d[d.len() - 1]) is Some);
    }
}

/// A host part read from digits is no wider than they are.
pub proof fn lemma_host_bound(d: Seq<u8>, n: u8)
    requires
        n <= 32,
        host_of_digits(d, n as nat) is Some,
    ensures
        host_of_digits(d, n as nat)->0 < pow2((4 * n) as nat),
{
    lemma_hex_value_bound(d);
    lemma_pow16_is_pow2(n as nat);
    lemma_pow2_128();
    if n < 32 {
        vstd::arithmetic::power2::lemma_pow2_strictly_increases((4 * n) as nat, 128);
    }
    vstd::arithmetic::div_mod::lemma_small_mod(hex_value(d), pow2(128));
}

/// Nibble `i` of what hex digits denote is the value of digit `i` from the
/// right.
proof fn lemma_hex_value_nibble(d: Seq<u8>, i: nat)
    requires
        all_hex(d),
        i < d.len(),
    ensures
        Some(nibble(hex_value(d), i)) == hex_digit(d[d.len() - 1 - i]),
    decreases d.len(),
{
    let v = hex_value(d);
    let rest = d.drop_last();
    assert(hex_digit(d[d.len() - 1]) is Some);
    assert forall|k: int| 0 <= k < rest.len() implies hex_digit(#[trigger] rest[k]) is Some by {
        assert(rest[k] == d[k]);
    }
    assert(v / 16 == hex_value(rest));
    lemma_nibble_zero(v);
    if i > 0 {
        lemma_nibble_shift(v, (i - 1) as nat);
        lemma_hex_value_nibble(rest, (i - 1) as nat);
    }
}

/// Decode one ASCII hex digit. Upper and lower case both decode: DNS names are
/// case-insensitive.
fn hex_val(b: u8) -> (r: Option<u8>)
    ensures
        match r {
            Some(v) => hex_digit(b) == Some(v as nat) && v < 16,
            None => hex_digit(b) is None,
        },
{
    if 0x30 <= b && b <= 0x39 {
        Some(b - 0x30)
    } else if 0x61 <= b && b <= 0x66 {
        Some(b - 0x61 + 10)
    } else if 0x41 <= b && b <= 0x46 {
        Some(b - 0x41 + 10)
    } else {
        None
    }
}

/// The lowercase hex digit of a nibble.
fn hex_lower(v: u8) -> (r: u8)
    requires
        v < 16,
    ensures
        r == hex_byte(v as nat),
{
    if v < 10 {
        0x30 + v
    } else {
        0x61 + (v - 10)
    }
}

/// All 32 nibbles of an address, least significant first.
fn nibbles(addr: u128) -> (r: Vec<u8>)
    ensures
        r@.len() == 32,
        forall|i: int| 0 <= i < 32 ==> #[trigger] r@[i] == nibble(addr as nat, i as nat),
{
    let mut out: Vec<u8> = Vec::new();
    let mut rest: u128 = addr;
    proof {
        lemma_nibble_zero(addr as nat);
    }
    for i in 0..32usize
        invariant
            out@.len() == i,
            rest as nat == addr as nat / pow16(i as nat),
            forall|k: int| 0 <= k < i ==> #[trigger] out@[k] == nibble(addr as nat, k as nat),
    {
        out.push((rest % 16) as u8);
        proof {
            lemma_pow16_positive(i as nat);
            vstd::arithmetic::div_mod::lemma_div_denominator(
                addr as int,
                pow16(i as nat) as int,
                16,
            );
        }
        rest = rest / 16;
    }
    out
}

/// Decode exactly `host_nibbles` hex digits into the host part of an address.
///
/// `None` on any non-hex byte or on a length mismatch. Digits beyond the 32nd
/// from the right do not fit an address and are shifted out of it.
pub fn digits_to_host(digits: &[u8], host_nibbles: u8) -> (r: Option<u128>)
    ensures
        r == host_of_digits(digits@, host_nibbles as nat),
{
    if digits.len() != host_nibbles as usize {
        return None;
    }
    let mut host: u128 = 0;
    proof {
        lemma_pow2_128();
    }
    for i in 0..digits.len()
        invariant
            pow2(128) == 0x1_0000_0000_0000_0000_0000_0000_0000_0000int,
            forall|k: int| 0 <= k < i ==> hex_digit(#[trigger] digits@[k]) is Some,
            host as nat == hex_value(digits@.take(i as int)) % pow2(128),
    {
        match hex_val(digits[i]) {
            Some(value) => {
                let ghost before = hex_value(digits@.take(i as int)) as int;
                let kept: u128 = host % 0x1000_0000_0000_0000_0000_0000_0000_0000;
                let next: u128 = kept * 16 + value as u128;
                proof {
                    assert(digits@.take(i + 1).drop_last() =~= digits@.take(i as int));
                    let q = before / pow2(128) as int;
                    let p = host as int / 0x1000_0000_0000_0000_0000_0000_0000_0000;
                    vstd::arithmetic::div_mod::lemma_fundamental_div_mod_converse(
                        before * 16 + value,
                        pow2(128) as int,
                        16 * q + p,
                        next as int,
                    );
                }
                host = next;
            },
            None => {
                return None;
            },
        }
    }
    assert(digits@.take(digits@.len() as int) =~= digits@);
    Some(host)
}

/// Render the host part of `addr`, its low `host_nibbles` nibbles, as lowercase
/// hex, zero-padded to exactly `host_nibbles` digits.
///
/// `None` if `host_nibbles` exceeds [`ADDR_NIBBLES`].
pub fn host_digits(addr: u128, host_nibbles: u8) -> (r: Option<String>)
    ensures
        match r {
            Some(digits) => {
                &&& host_nibbles <= 32
                &&& digits@ == text::ascii(low_digits(addr as nat, host_nibbles as nat))
            },
            None => host_nibbles > 32,
        },
{
    if host_nibbles > ADDR_NIBBLES {
        return None;
    }
    let all = nibbles(addr);
    let n: usize = host_nibbles as usize;
    let ghost want = text::ascii(low_digits(addr as nat, n as nat));
    let mut out: String = String::new();
    for j in 0..n
        invariant
            n == host_nibbles,
            n <= 32,
            all@.len() == 32,
            forall|i: int| 0 <= i < 32 ==> #[trigger] all@[i] == nibble(addr as nat, i as nat),
            want == text::ascii(low_digits(addr as nat, n as nat)),
            out@ == want.take(j as int),
    {
        let digit: u8 = hex_lower(all[n - 1 - j]);
        out.push(digit as char);
        assert(want.take(j + 1) =~= want.take(j as int).push(digit as char));
    }
    assert(want.take(n as int) =~= want);
    Some(out)
}

// ---- names -----------------------------------------------------------------

/// Strictly parse a `<32 nibbles>.ip6.arpa` query name into the address it
/// denotes.
///
/// `None` unless the name is *exactly* a single /128 address: 32 single-byte hex
/// labels followed by `ip6.arpa`.
pub fn ptr_name_to_addr(name: &Name) -> (r: Option<u128>)
    ensures
        r == ptr_addr(name@.labels),
{
    if name.num_labels() != PTR_QUERY_LABELS {
        return None;
    }
    let ghost labels = name@.labels;
    let mut digits: Vec<u8> = Vec::new();
    for k in 0..32usize
        invariant
            labels == text::views(name.labels@),
            labels.len() == 34,
            digits@ == ptr_digits(labels).take(k as int),
            forall|i: int|
                32 - k <= i < 32 ==> (#[trigger] labels[i]).len() == 1 && hex_digit(
                    labels[i][0],
                ) is Some,
    {
        let label = &name.labels[31 - k];
        assert(labels[31 - k] == label@);
        if label.len() != 1 {
            return None;
        }
        if hex_val(label[0]).is_none() {
            return None;
        }
        digits.push(label[0]);
        assert(ptr_digits(labels).take(k + 1) =~= ptr_digits(labels).take(k as int).push(label@[0]));
    }
    assert(ptr_digits(labels).take(32) =~= ptr_digits(labels));
    let ip6: Vec<u8> = vec![0x69, 0x70, 0x36];
    let arpa: Vec<u8> = vec![0x61, 0x72, 0x70, 0x61];
    assert(ip6@ =~= ip6_label());
    assert(arpa@ =~= arpa_label());
    assert(labels[32] == name.labels@[32]@ && labels[33] == name.labels@[33]@);
    if !text::eq_bytes_ci(&name.labels[32], &ip6) || !text::eq_bytes_ci(&name.labels[33], &arpa) {
        return None;
    }
    proof {
        assert forall|i: int| 0 <= i < 32 implies hex_digit(
            #[trigger] ptr_digits(labels)[i],
        ) is Some by {
            assert(hex_digit(labels[31 - i][0]) is Some);
        }
        lemma_hex_value_bound(ptr_digits(labels));
        lemma_pow2_128();
        vstd::arithmetic::div_mod::lemma_small_mod(hex_value(ptr_digits(labels)), pow2(128));
    }
    digits_to_host(&digits, ADDR_NIBBLES)
}

/// Build the `ip6.arpa` zone name that a network prefix delegates to.
///
/// ```text
/// (2001:4d88:100e:ccc0::, 64) -> 0.c.c.c.e.0.0.1.8.8.d.4.1.0.0.2.ip6.arpa
/// ```
///
/// `None` if `mask` exceeds 128 or is not nibble-aligned: one `ip6.arpa` label
/// carries exactly one nibble.
pub fn netmask_to_ptr_name(prefix: u128, mask: u8) -> (r: Option<Name>)
    ensures
        match r {
            Some(name) => {
                &&& mask <= 128 && mask % 4 == 0
                &&& name@.fqdn
                &&& name@.labels == ptr_zone_labels(prefix, mask)
            },
            None => mask > 128 || mask % 4 != 0,
        },
{
    if mask > 128 || mask % 4 != 0 {
        return None;
    }
    let count: usize = (mask / 4) as usize;
    let all = nibbles(prefix);
    let ghost want = ptr_zone_labels(prefix, mask);
    let mut labels: Vec<Vec<u8>> = Vec::new();
    for i in 0..count
        invariant
            mask <= 128,
            count == mask / 4,
            all@.len() == 32,
            forall|k: int| 0 <= k < 32 ==> #[trigger] all@[k] == nibble(prefix as nat, k as nat),
            want == ptr_zone_labels(prefix, mask),
            text::views(labels@) == want.take(i as int),
            labels@.len() == i,
            forall|k: int| 0 <= k < i ==> (#[trigger] text::views(labels@)[k]).len() == 1,
            crate::name::wire_len(text::views(labels@)) == 1 + 2 * i,
    {
        let value: u8 = all[32 - count + i];
        let digit: Vec<u8> = vec![hex_lower(value)];
        assert(digit@ =~= want[i as int]);
        let ghost before = labels@;
        labels.push(digit);
        proof {
            text::lemma_views_push(before, digit);
            assert(want.take(i + 1) =~= want.take(i as int).push(digit@));
            assert(text::views(labels@).drop_last() =~= text::views(before));
            assert forall|k: int| 0 <= k < i + 1 implies (#[trigger] text::views(
                labels@,
            )[k]).len() == 1 by {
                if k < i {
                    assert(text::views(labels@)[k] == text::views(before)[k]);
                }
            }
        }
    }
    let ghost nibs = labels@;
    let ip6: Vec<u8> = vec![0x69, 0x70, 0x36];
    let arpa: Vec<u8> = vec![0x61, 0x72, 0x70, 0x61];
    labels.push(ip6);
    labels.push(arpa);
    proof {
        assert(ip6@ =~= ip6_label());
        assert(arpa@ =~= arpa_label());
        text::lemma_views_push(nibs, ip6);
        text::lemma_views_push(nibs.push(ip6), arpa);
        let v = text::views(labels@);
        assert(v =~= want);
        assert(v.drop_last() =~= text::views(nibs).push(ip6@));
        assert(v.drop_last().drop_last() =~= text::views(nibs));
        reveal_with_fuel(crate::name::wire_len, 3);
        assert(crate::name::wire_len(v) == 1 + 2 * count + 4 + 5);
        assert forall|i: int| 0 <= i < v.len() implies 1 <= (#[trigger] v[i]).len() <= 63 by {
            if i < count {
                assert(v[i] == text::views(nibs)[i]);
            }
        }
    }
    match Name::from_labels(labels) {
        Ok(name) => Some(name),
        Err(_) => None,
    }
}

/// Group digits in fours, separated by `-`.
pub fn dash_group(digits: &str) -> (r: String)
    ensures
        r@ == dashed(digits@, '-'),
{
    let d = text::to_chars(digits);
    let mut out: String = String::new();
    for i in 0..d.len()
        invariant
            d@ == digits@,
            out@ == dashed(d@.take(i as int), '-'),
    {
        let ghost before = out@;
        if i > 0 && i % 4 == 0 {
            out.push('-');
        }
        out.push(d[i]);
        assert(out@ =~= dashed(d@.take(i + 1), '-'));
    }
    assert(d@.take(d@.len() as int) =~= d@);
    out
}

/// Undo [`dash_group`] on label bytes: the digits of `n` digits grouped in fours
/// by `-`, or `None` if the bytes are not of that form.
pub fn undash_group(bytes: &[u8], n: u8) -> (r: Option<Vec<u8>>)
    ensures
        undashed(bytes@, n as nat) == (match r {
            Some(digits) => Some(digits@),
            None => None,
        }),
{
    let want: usize = if n == 0 {
        0
    } else {
        n as usize + (n as usize - 1) / 4
    };
    if bytes.len() != want {
        return None;
    }
    let mut out: Vec<u8> = Vec::new();
    for j in 0..bytes.len()
        invariant
            bytes@.len() == dashed_len(n as nat),
            out@.len() == j - j / 5,
            forall|i: int| 0 <= i < j - j / 5 ==> #[trigger] out@[i] == bytes@[i + i / 4],
            forall|k: int| 0 <= k < j && k % 5 == 4 ==> #[trigger] bytes@[k] == 0x2d,
    {
        if j % 5 == 4 {
            if bytes[j] != 0x2d {
                return None;
            }
        } else {
            out.push(bytes[j]);
        }
    }
    assert(out@ =~= Seq::new(n as nat, |i: int| bytes@[i + i / 4]));
    Some(out)
}

// ---- laws ------------------------------------------------------------------

/// An address survives the trip out to its `ip6.arpa` name and back unchanged.
pub proof fn law_ptr_name_round_trip(addr: u128)
    ensures
        ptr_addr(ptr_zone_labels(addr, 128)) == Some(addr),
{
    let labels = ptr_zone_labels(addr, 128);
    let v = addr as nat;
    lemma_low_digits_value(v, 32);
    assert forall|i: int| 0 <= i < 32 implies (#[trigger] labels[i]).len() == 1 && hex_digit(
        labels[i][0],
    ) is Some by {
        assert(labels[i] == seq![hex_byte(nibble(v, i as nat))]);
        assert(hex_digit(low_digits(v, 32)[31 - i]) is Some);
    }
    assert(ptr_digits(labels) =~= low_digits(v, 32)) by {
        assert forall|k: int| 0 <= k < 32 implies #[trigger] ptr_digits(labels)[k] == low_digits(
            v,
            32,
        )[k] by {
            assert(labels[31 - k] == seq![hex_byte(nibble(v, (31 - k) as nat))]);
        }
    }
    assert(labels[32] == ip6_label() && labels[33] == arpa_label());
    lemma_pow2_128();
}

/// Whatever is accepted as a reverse name is, ignoring case, the name of the
/// address it was read as.
pub proof fn law_accepted_ptr_name_rebuilds(labels: Seq<Seq<u8>>)
    requires
        is_ptr_name(labels),
    ensures
        ptr_addr(labels) is Some,
        crate::name::same_labels(ptr_zone_labels(ptr_addr(labels)->0, 128), labels),
{
    let d = ptr_digits(labels);
    assert forall|k: int| 0 <= k < d.len() implies hex_digit(#[trigger] d[k]) is Some by {
        assert(hex_digit(labels[31 - k][0]) is Some);
    }
    lemma_hex_value_bound(d);
    lemma_pow2_128();
    let addr = hex_value(d) as u128;
    let rebuilt = ptr_zone_labels(addr, 128);
    assert forall|i: int| 0 <= i < rebuilt.len() implies text::same_bytes(
        #[trigger] rebuilt[i],
        labels[i],
    ) by {
        if i < 32 {
            lemma_hex_value_nibble(d, i as nat);
            assert(d[31 - i] == labels[i][0]);
            assert(rebuilt[i] == seq![hex_byte(nibble(addr as nat, i as nat))]);
            assert(text::lowered_bytes(rebuilt[i]) =~= text::lowered_bytes(labels[i]));
        } else {
            assert(rebuilt[32] == ip6_label() && rebuilt[33] == arpa_label());
        }
    }
}

/// A zone name carries exactly one label per network nibble, plus `ip6.arpa`.
pub proof fn law_ptr_zone_label_count(prefix: u128, mask: u8)
    ensures
        ptr_zone_labels(prefix, mask).len() == mask / 4 + 2,
{
}

/// Host digits decode to the host part they were rendered from, and always
/// occupy the advertised number of characters.
pub proof fn law_host_digits_round_trip(addr: u128, n: u8)
    requires
        n <= 32,
    ensures
        low_digits(addr as nat, n as nat).len() == n,
        all_hex(low_digits(addr as nat, n as nat)),
        hex_value(low_digits(addr as nat, n as nat)) == addr as nat % pow2((4 * n) as nat),
        addr - network_part(addr, (128 - 4 * n) as u8) == addr as nat % pow2((4 * n) as nat),
        text::utf8(text::ascii(low_digits(addr as nat, n as nat))) == low_digits(
            addr as nat,
            n as nat,
        ),
{
    lemma_low_digits_value(addr as nat, n as nat);
    lemma_pow16_is_pow2(n as nat);
    lemma_low_digits_ascii(addr as nat, n as nat);
    lemma_pow2_128();
}

proof fn lemma_low_digits_ascii(v: nat, n: nat)
    ensures
        text::utf8(text::ascii(low_digits(v, n))) == low_digits(v, n),
{
    assert forall|i: int| 0 <= i < n implies #[trigger] low_digits(v, n)[i] < 128 by {}
    text::lemma_ascii_bytes(low_digits(v, n));
}

/// Grouping digits in fours loses nothing: the groups give the digits back.
pub proof fn law_dash_group_round_trip(digits: Seq<u8>)
    ensures
        undashed(dashed(digits, 0x2d), digits.len()) == Some(digits),
{
    let m = dashed(digits, 0x2du8);
    assert(Seq::new(digits.len(), |i: int| m[i + i / 4]) =~= digits) by {
        assert forall|i: int| 0 <= i < digits.len() implies m[#[trigger] (i + i / 4)] == digits[i] by {
            assert((i + i / 4) / 5 == i / 4);
            assert((i + i / 4) % 5 == i % 4);
        }
    }
}

/// The nibbles of the network part of an address are those of the address.
pub proof fn lemma_network_nibble(addr: u128, mask: u8, i: nat)
    requires
        mask <= 128,
        mask % 4 == 0,
        i >= (128 - mask) / 4,
    ensures
        network_part(addr, mask) >= 0,
        nibble(addr as nat, i) == nibble(network_part(addr, mask) as nat, i),
{
    let h = ((128 - mask) / 4) as nat;
    let p = pow16(h) as int;
    let q = pow16((i - h) as nat) as int;
    let net = network_part(addr, mask);
    lemma_pow16_positive(h);
    lemma_pow16_positive((i - h) as nat);
    lemma_pow16_is_pow2(h);
    lemma_pow16_adds(h, (i - h) as nat);
    vstd::arithmetic::div_mod::lemma_fundamental_div_mod(addr as int, p);
    vstd::arithmetic::mul::lemma_mul_is_commutative(p, addr as int / p);
    vstd::arithmetic::div_mod::lemma_mod_decreases(addr as nat, p as nat);
    assert(net == (addr as int / p) * p + 0);
    vstd::arithmetic::div_mod::lemma_fundamental_div_mod_converse(net, p, addr as int / p, 0);
    vstd::arithmetic::div_mod::lemma_div_denominator(addr as int, p, q);
    vstd::arithmetic::div_mod::lemma_div_denominator(net, p, q);
}

proof fn lemma_pow16_adds(a: nat, b: nat)
    ensures
        pow16(a + b) == pow16(a) * pow16(b),
    decreases b,
{
    if b == 0 {
        assert(pow16(a) * 1 == pow16(a));
    } else {
        lemma_pow16_adds(a, (b - 1) as nat);
        let x = pow16(a) as int;
        let y = pow16((b - 1) as nat) as int;
        assert(16 * (x * y) == x * (16 * y)) by (nonlinear_arith);
    }
}

/// An address put together from a network and host digits has that network as
/// its network part, and the digits as its host part.
pub proof fn law_synthesized_address_stays_in_prefix(prefix: u128, mask: u8, host: u128)
    requires
        mask <= 128,
        mask % 4 == 0,
        network_part(prefix, mask) == prefix,
        host < pow2(host_bits(mask)),
    ensures
        (prefix | host) == prefix + host,
        network_part(prefix | host, mask) == prefix,
        hex_value(low_digits((prefix | host) as nat, ((128 - mask) / 4) as nat)) == host,
{
    let k = host_bits(mask);
    let n = ((128 - mask) / 4) as nat;
    lemma_pow2_positive(k);
    lemma_or_is_sum(prefix, host, k);
    lemma_pow16_is_pow2(n);
    let p = pow2(k) as int;
    let q = prefix as int / p;
    vstd::arithmetic::div_mod::lemma_fundamental_div_mod(prefix as int, p);
    assert(prefix == p * q);
    assert(p * q == q * p) by (nonlinear_arith);
    vstd::arithmetic::div_mod::lemma_fundamental_div_mod_converse(
        (prefix | host) as int,
        p,
        q,
        host as int,
    );
    lemma_low_digits_value((prefix | host) as nat, n);
}

// ---- what the digits say ---------------------------------------------------

/// The byte is the ASCII hex digit of `v`, in either case.
pub open spec fn denotes(b: u8, v: int) -> bool {
    ||| 0 <= v < 10 && b == 0x30 + v
    ||| 10 <= v < 16 && (b == 0x61 + v - 10 || b == 0x41 + v - 10)
}

/// Four bits of a number, `i` groups of four from its end.
pub open spec fn four_bits(v: nat, i: nat) -> int {
    (v / vstd::arithmetic::power2::pow2(4 * i)) as int % 16
}

proof fn lemma_four_bits(v: nat, i: nat)
    ensures
        four_bits(v, i) == nibble(v, i),
        0 <= four_bits(v, i) < 16,
{
    lemma_pow16_is_pow2(i);
    lemma_pow16_positive(i);
}

proof fn lemma_denotes(b: u8, v: int)
    ensures
        denotes(b, v) <==> hex_digit(b) == Some(v as nat) && v >= 0,
{
}

/// Numbers with the same last `n` nibbles leave the same rest.
proof fn lemma_same_nibbles(a: nat, b: nat, n: nat)
    requires
        forall|i: nat| i < n ==> #[trigger] nibble(a, i) == nibble(b, i),
    ensures
        a % pow16(n) == b % pow16(n),
{
    lemma_low_digits_value(a, n);
    lemma_low_digits_value(b, n);
    assert(low_digits(a, n) =~= low_digits(b, n)) by {
        assert forall|j: int| 0 <= j < n implies #[trigger] low_digits(a, n)[j] == low_digits(
            b,
            n,
        )[j] by {
            assert(nibble(a, (n - 1 - j) as nat) == nibble(b, (n - 1 - j) as nat));
        }
    }
}

/// The labels are `ip6` and `arpa`, but for the case of letters.
pub open spec fn is_ip6_arpa(labels: Seq<Seq<u8>>, i: int) -> bool {
    &&& labels[i].len() == 3
    &&& text::alike(labels[i][0], 0x69) && text::alike(labels[i][1], 0x70)
    &&& labels[i][2] == 0x36
    &&& labels[i + 1].len() == 4
    &&& text::alike(labels[i + 1][0], 0x61) && text::alike(labels[i + 1][1], 0x72)
    &&& text::alike(labels[i + 1][2], 0x70) && text::alike(labels[i + 1][3], 0x61)
}

proof fn lemma_is_ip6_arpa(labels: Seq<Seq<u8>>, i: int)
    ensures
        is_ip6_arpa(labels, i) <==> text::same_bytes(labels[i], ip6_label()) && text::same_bytes(
            labels[i + 1],
            arpa_label(),
        ),
{
    let (a, b) = (labels[i], labels[i + 1]);
    text::law_equal_labels_differ_in_case_only(a, ip6_label());
    text::law_equal_labels_differ_in_case_only(b, arpa_label());
    if text::same_bytes(a, ip6_label()) {
        assert(text::alike(a[0], ip6_label()[0]) && text::alike(a[1], ip6_label()[1])
            && text::alike(a[2], ip6_label()[2]));
    }
    if text::same_bytes(b, arpa_label()) {
        assert(text::alike(b[0], arpa_label()[0]) && text::alike(b[1], arpa_label()[1])
            && text::alike(b[2], arpa_label()[2]) && text::alike(b[3], arpa_label()[3]));
    }
    if is_ip6_arpa(labels, i) {
        assert forall|k: int| 0 <= k < 3 implies text::alike(#[trigger] a[k], ip6_label()[k]) by {
            assert(k == 0 || k == 1 || k == 2);
        }
        assert forall|k: int| 0 <= k < 4 implies text::alike(#[trigger] b[k], arpa_label()[k]) by {
            assert(k == 0 || k == 1 || k == 2 || k == 3);
        }
    }
}

/// A reverse name denotes an address exactly if it has 32 labels of one hex digit
/// each, the first for the last four bits of the address and so on, and then `ip6`
/// and `arpa`.
pub proof fn law_reverse_name_spells_the_address(labels: Seq<Seq<u8>>, addr: u128)
    ensures
        ptr_addr(labels) == Some(addr) <==> {
            &&& labels.len() == 34
            &&& forall|i: int|
                0 <= i < 32 ==> (#[trigger] labels[i]).len() == 1 && denotes(
                    labels[i][0],
                    four_bits(addr as nat, i as nat),
                )
            &&& is_ip6_arpa(labels, 32)
        },
{
    lemma_is_ip6_arpa(labels, 32);
    lemma_pow2_128();
    if is_ptr_name(labels) {
        let d = ptr_digits(labels);
        assert(all_hex(d)) by {
            assert forall|k: int| 0 <= k < d.len() implies hex_digit(#[trigger] d[k]) is Some by {
                assert(labels[31 - k].len() == 1);
            }
        }
        lemma_hex_value_bound(d);
        let found = hex_value(d) as u128;
        assert(ptr_addr(labels) == Some(found));
        assert forall|i: int| 0 <= i < 32 implies (#[trigger] labels[i]).len() == 1 && denotes(
            labels[i][0],
            four_bits(found as nat, i as nat),
        ) by {
            lemma_hex_value_nibble(d, i as nat);
            lemma_four_bits(found as nat, i as nat);
            lemma_denotes(labels[i][0], four_bits(found as nat, i as nat));
            assert(d[31 - i] == labels[i][0]);
        }
        if forall|i: int|
            0 <= i < 32 ==> (#[trigger] labels[i]).len() == 1 && denotes(
                labels[i][0],
                four_bits(addr as nat, i as nat),
            ) {
            assert forall|i: nat| i < 32 implies #[trigger] nibble(addr as nat, i) == nibble(
                found as nat,
                i,
            ) by {
                lemma_four_bits(addr as nat, i);
                lemma_four_bits(found as nat, i);
                assert(labels[i as int].len() == 1);
                lemma_denotes(labels[i as int][0], four_bits(addr as nat, i));
                lemma_denotes(labels[i as int][0], four_bits(found as nat, i));
            }
            lemma_same_nibbles(addr as nat, found as nat, 32);
            vstd::arithmetic::div_mod::lemma_small_mod(addr as nat, pow16(32));
            vstd::arithmetic::div_mod::lemma_small_mod(found as nat, pow16(32));
        }
    } else if labels.len() == 34 && is_ip6_arpa(labels, 32) && forall|i: int|
        0 <= i < 32 ==> (#[trigger] labels[i]).len() == 1 && denotes(
            labels[i][0],
            four_bits(addr as nat, i as nat),
        ) {
        assert forall|i: int| 0 <= i < 32 implies (#[trigger] labels[i]).len() == 1
            && hex_digit(labels[i][0]) is Some by {
            lemma_denotes(labels[i][0], four_bits(addr as nat, i as nat));
        }
    }
}

/// The digits of a host part: as many as asked for, lowercase, with leading zeros,
/// the first for the highest four bits.
pub proof fn law_host_digits_spell_the_host(v: nat, n: nat, j: int)
    requires
        0 <= j < n,
    ensures
        low_digits(v, n).len() == n,
        denotes(low_digits(v, n)[j], four_bits(v, (n - 1 - j) as nat)),
        0x30 <= low_digits(v, n)[j] <= 0x39 || 0x61 <= low_digits(v, n)[j] <= 0x66,
{
    lemma_four_bits(v, (n - 1 - j) as nat);
}

/// A host part read from digits: exactly as many as asked for, each a hex digit in
/// either case, the first for the highest four bits.
pub proof fn law_digits_spell_the_host(digits: Seq<u8>, n: nat, host: u128)
    requires
        n <= 32,
    ensures
        host_of_digits(digits, n) == Some(host) <==> {
            &&& digits.len() == n
            &&& forall|j: int|
                0 <= j < n ==> denotes(
                    #[trigger] digits[j],
                    four_bits(host as nat, (n - 1 - j) as nat),
                )
            &&& host < vstd::arithmetic::power2::pow2(4 * n)
        },
{
    lemma_pow16_is_pow2(n);
    lemma_pow2_128();
    if digits.len() == n && all_hex(digits) {
        lemma_hex_value_bound(digits);
        lemma_pow16_grows(n, 32);
        vstd::arithmetic::div_mod::lemma_small_mod(hex_value(digits), pow2(128));
        let found = hex_value(digits) as u128;
        assert forall|j: int| 0 <= j < n implies denotes(
            #[trigger] digits[j],
            four_bits(found as nat, (n - 1 - j) as nat),
        ) by {
            let i = (n - 1 - j) as nat;
            lemma_hex_value_nibble(digits, i);
            lemma_four_bits(found as nat, i);
            lemma_denotes(digits[j], four_bits(found as nat, i));
        }
        if host < pow2(4 * n) && forall|j: int|
            0 <= j < n ==> denotes(
                #[trigger] digits[j],
                four_bits(host as nat, (n - 1 - j) as nat),
            ) {
            assert forall|i: nat| i < n implies #[trigger] nibble(host as nat, i) == nibble(
                found as nat,
                i,
            ) by {
                let j = n - 1 - i;
                lemma_four_bits(host as nat, i);
                lemma_four_bits(found as nat, i);
                assert(denotes(digits[j], four_bits(host as nat, (n - 1 - j) as nat)));
                lemma_denotes(digits[j], four_bits(host as nat, i));
                lemma_denotes(digits[j], four_bits(found as nat, i));
            }
            lemma_same_nibbles(host as nat, found as nat, n);
            vstd::arithmetic::div_mod::lemma_small_mod(host as nat, pow16(n));
            vstd::arithmetic::div_mod::lemma_small_mod(found as nat, pow16(n));
        }
    } else if digits.len() == n && forall|j: int|
        0 <= j < n ==> denotes(#[trigger] digits[j], four_bits(host as nat, (n - 1 - j) as nat)) {
        assert forall|j: int| 0 <= j < digits.len() implies hex_digit(
            #[trigger] digits[j],
        ) is Some by {
            lemma_denotes(digits[j], four_bits(host as nat, (n - 1 - j) as nat));
        }
    }
}

proof fn lemma_pow16_grows(a: nat, b: nat)
    requires
        a <= b,
    ensures
        pow16(a) <= pow16(b),
    decreases b - a,
{
    if a < b {
        lemma_pow16_grows(a, (b - 1) as nat);
    }
}

/// The reverse zone of a network: one label per four bits of its prefix, the last
/// four bits of the prefix first, then `ip6` and `arpa`.
pub proof fn law_reverse_zone_spells_the_prefix(prefix: u128, mask: u8, i: int)
    requires
        mask <= 128,
        mask % 4 == 0,
        0 <= i < mask / 4,
    ensures
        ({
            let labels = ptr_zone_labels(prefix, mask);
            let below = (128 - mask) / 4;
            &&& labels.len() == mask / 4 + 2
            &&& labels[i].len() == 1
            &&& denotes(labels[i][0], four_bits(prefix as nat, (below + i) as nat))
            &&& is_ip6_arpa(labels, mask as int / 4)
        }),
{
    let below = (128 - mask) / 4;
    lemma_four_bits(prefix as nat, (below + i) as nat);
}

proof fn lemma_grouped_item<T>(head: Seq<T>, rest: Seq<T>, sep: T, j: int)
    requires
        head.len() == 4,
        rest.len() > 0,
        0 <= j < 5 + dashed_len(rest.len()),
    ensures
        dashed(head + rest, sep)[j] == (head + seq![sep] + dashed(rest, sep))[j],
{
    assert(dashed_len((head + rest).len()) == 5 + dashed_len(rest.len()));
    if j >= 5 {
        let k = j - 5;
        assert(k % 5 == j % 5);
        assert(k / 5 == j / 5 - 1);
        assert((head + seq![sep] + dashed(rest, sep))[j] == dashed(rest, sep)[k]);
        if k % 5 != 4 {
            assert(0 <= k - k / 5 < rest.len());
            assert((head + rest)[4 + (k - k / 5)] == rest[k - k / 5]);
        }
    } else if j < 4 {
        assert(j / 5 == 0 && j % 5 == j);
    }
}

/// Grouping puts one separator behind every four items that are followed by more.
pub proof fn law_groups_of_four<T>(head: Seq<T>, rest: Seq<T>, sep: T)
    requires
        head.len() == 4,
        rest.len() > 0,
    ensures
        dashed(head, sep) == head,
        rest.len() <= 4 ==> dashed(rest, sep) == rest,
        dashed(head + rest, sep) == head + seq![sep] + dashed(rest, sep),
{
    let all = head + rest;
    assert forall|j: int| 0 <= j < 4 implies j / 5 == 0 && #[trigger] (j % 5) == j by {}
    assert(dashed(head, sep) =~= head);
    if rest.len() <= 4 {
        assert(dashed(rest, sep) =~= rest);
    }
    let want = head + seq![sep] + dashed(rest, sep);
    assert(dashed_len(all.len()) == want.len());
    assert forall|j: int| 0 <= j < want.len() implies #[trigger] dashed(all, sep)[j]
        == want[j] by {
        lemma_grouped_item(head, rest, sep, j);
    }
    assert(dashed(all, sep) =~= want);
}

/// The network part of an address keeps the bits of the prefix and clears all others.
pub proof fn law_network_part_keeps_the_prefix(addr: u128, mask: u8)
    requires
        mask <= 128,
    ensures
        ({
            let p = vstd::arithmetic::power2::pow2((128 - mask) as nat);
            network_part(addr, mask) == (addr as nat / p) * p
        }),
{
    let p = pow2(host_bits(mask));
    lemma_pow2_positive(host_bits(mask));
    vstd::arithmetic::div_mod::lemma_fundamental_div_mod(addr as int, p as int);
    vstd::arithmetic::mul::lemma_mul_is_commutative(p as int, addr as int / p as int);
}

/// Digits are read from groups of four with hyphens between them exactly if grouping
/// them gives those very bytes.
pub proof fn law_ungrouping_is_exact(m: Seq<u8>, digits: Seq<u8>)
    ensures
        undashed(m, digits.len()) == Some(digits) <==> m == dashed(digits, 0x2d),
{
    let n = digits.len();
    if undashed(m, n) == Some(digits) {
        let shown = dashed(digits, 0x2du8);
        assert forall|j: int| 0 <= j < m.len() implies #[trigger] m[j] == shown[j] by {
            if j % 5 != 4 {
                let i = j - j / 5;
                assert(i + i / 4 == j);
                assert(0 <= i < n);
                assert(digits[i] == m[i + i / 4]);
            }
        }
        assert(m =~= shown);
    }
    if m == dashed(digits, 0x2d) {
        law_dash_group_round_trip(digits);
    }
}

} // verus!
