//! What holds of reverse and forward resolution together.

use vstd::prelude::*;

use super::lookup;
use super::lookup::LabelMatch;
use super::synth;
use super::OutcomeView;
use crate::config::{ConfigView, FwdLabelView, ZoneView};
use crate::name::NameView;
use crate::nibble;
use crate::record::{DNSClass, RDataView, RecordType, RecordView};
use crate::text;

verus! {

// ---- case ------------------------------------------------------------------

proof fn lemma_hex_ignores_case(a: u8, b: u8)
    requires
        text::fold_u8(a) == text::fold_u8(b),
    ensures
        nibble::hex_digit(a) == nibble::hex_digit(b),
        a == 0x2d <==> b == 0x2d,
{
}

proof fn lemma_same_at(a: Seq<u8>, b: Seq<u8>)
    requires
        text::same_bytes(a, b),
    ensures
        a.len() == b.len(),
        forall|i: int| 0 <= i < a.len() ==> text::fold_u8(#[trigger] a[i]) == text::fold_u8(b[i]),
{
    assert(text::lowered_bytes(a).len() == text::lowered_bytes(b).len());
    assert forall|i: int| 0 <= i < a.len() implies text::fold_u8(#[trigger] a[i])
        == text::fold_u8(b[i]) by {
        assert(text::lowered_bytes(a)[i] == text::lowered_bytes(b)[i]);
    }
}

proof fn lemma_hex_value_ignores_case(a: Seq<u8>, b: Seq<u8>)
    requires
        text::same_bytes(a, b),
    ensures
        nibble::all_hex(a) == nibble::all_hex(b),
        nibble::hex_value(a) == nibble::hex_value(b),
    decreases a.len(),
{
    lemma_same_at(a, b);
    assert forall|i: int| 0 <= i < a.len() implies nibble::hex_digit(#[trigger] a[i])
        == nibble::hex_digit(b[i]) by {
        lemma_hex_ignores_case(a[i], b[i]);
    }
    if nibble::all_hex(a) {
        assert forall|i: int| 0 <= i < b.len() implies nibble::hex_digit(
            #[trigger] b[i],
        ) is Some by {
            assert(nibble::hex_digit(a[i]) is Some);
        }
    }
    if nibble::all_hex(b) {
        assert forall|i: int| 0 <= i < a.len() implies nibble::hex_digit(
            #[trigger] a[i],
        ) is Some by {
            assert(nibble::hex_digit(b[i]) is Some);
        }
    }
    if a.len() > 0 {
        assert(text::lowered_bytes(a.drop_last()) =~= text::lowered_bytes(a).drop_last());
        assert(text::lowered_bytes(b.drop_last()) =~= text::lowered_bytes(b).drop_last());
        lemma_hex_value_ignores_case(a.drop_last(), b.drop_last());
        assert(nibble::hex_digit(a[a.len() - 1]) == nibble::hex_digit(b[b.len() - 1]));
    }
}

proof fn lemma_host_ignores_case(a: Seq<u8>, b: Seq<u8>, dashed: bool, n: u8)
    requires
        text::same_bytes(a, b),
    ensures
        lookup::host_in(a, dashed, n) == lookup::host_in(b, dashed, n),
{
    lemma_same_at(a, b);
    if dashed {
        assert forall|i: int| 0 <= i < a.len() implies (#[trigger] a[i] == 0x2d <==> b[i]
            == 0x2d) by {
            lemma_hex_ignores_case(a[i], b[i]);
        }
        let x = Seq::new(n as nat, |i: int| a[i + i / 4]);
        let y = Seq::new(n as nat, |i: int| b[i + i / 4]);
        if a.len() == nibble::dashed_len(n as nat) {
            assert forall|i: int| 0 <= i < n implies text::fold_u8(#[trigger] x[i])
                == text::fold_u8(y[i]) by {
                assert(0 <= i + i / 4 < a.len());
                assert(text::fold_u8(a[i + i / 4]) == text::fold_u8(b[i + i / 4]));
            }
            assert(text::lowered_bytes(x) =~= text::lowered_bytes(y));
            lemma_hex_value_ignores_case(x, y);
        }
        let da = nibble::undashed(a, n as nat);
        let db = nibble::undashed(b, n as nat);
        assert(da is Some <==> db is Some) by {
            if da is Some {
                assert forall|j: int| 0 <= j < b.len() && j % 5 == 4 implies #[trigger] b[j]
                    == 0x2d by {
                    assert(a[j] == 0x2d);
                }
            }
            if db is Some {
                assert forall|j: int| 0 <= j < a.len() && j % 5 == 4 implies #[trigger] a[j]
                    == 0x2d by {
                    assert(b[j] == 0x2d);
                }
            }
        }
    } else {
        lemma_hex_value_ignores_case(a, b);
    }
}

proof fn lemma_label_ignores_case(template: FwdLabelView, a: Seq<u8>, b: Seq<u8>, n: u8)
    requires
        text::same_bytes(a, b),
    ensures
        lookup::match_label(template, a, n) == lookup::match_label(template, b, n),
{
    lemma_same_at(a, b);
    if let FwdLabelView::Digits { pre_lower, post_lower, dashed, .. } = template {
        if a.len() >= pre_lower.len() + post_lower.len() {
            let p = pre_lower.len() as int;
            let q = a.len() - post_lower.len();
            assert(text::lowered_bytes(a.take(p)) =~= text::lowered_bytes(a).take(p));
            assert(text::lowered_bytes(b.take(p)) =~= text::lowered_bytes(b).take(p));
            assert(text::lowered_bytes(a.skip(q)) =~= text::lowered_bytes(a).skip(q));
            assert(text::lowered_bytes(b.skip(q)) =~= text::lowered_bytes(b).skip(q));
            assert(text::lowered_bytes(a.subrange(p, q)) =~= text::lowered_bytes(a).subrange(p, q));
            assert(text::lowered_bytes(b.subrange(p, q)) =~= text::lowered_bytes(b).subrange(p, q));
            lemma_host_ignores_case(a.subrange(p, q), b.subrange(p, q), dashed, n);
        }
    }
}

proof fn lemma_labels_ignore_case(
    template: Seq<FwdLabelView>,
    a: Seq<Seq<u8>>,
    b: Seq<Seq<u8>>,
    n: u8,
)
    requires
        crate::name::same_labels(a, b),
        a.len() == template.len(),
    ensures
        lookup::match_labels(template, a, n) == lookup::match_labels(template, b, n),
    decreases template.len(),
{
    if template.len() > 0 {
        assert forall|i: int| 0 <= i < a.drop_last().len() implies text::same_bytes(
            #[trigger] a.drop_last()[i],
            b.drop_last()[i],
        ) by {
            assert(text::same_bytes(a[i], b[i]));
        }
        lemma_labels_ignore_case(template.drop_last(), a.drop_last(), b.drop_last(), n);
        assert(text::same_bytes(a[a.len() - 1], b[a.len() - 1]));
        lemma_label_ignores_case(template.last(), a.last(), b.last(), n);
    }
}

/// Forward names that differ in case only encode the same address.
pub proof fn law_forward_match_ignores_case(zone: ZoneView, a: Seq<Seq<u8>>, b: Seq<Seq<u8>>)
    requires
        crate::name::same_labels(a, b),
    ensures
        lookup::forward_addr(zone, a) == lookup::forward_addr(zone, b),
{
    if a.len() == zone.fwd.labels.len() {
        lemma_labels_ignore_case(zone.fwd.labels, a, b, zone.host_nibbles);
    }
}

/// Reverse names that differ in case only denote the same address.
pub proof fn law_reverse_match_ignores_case(a: Seq<Seq<u8>>, b: Seq<Seq<u8>>)
    requires
        crate::name::same_labels(a, b),
    ensures
        nibble::ptr_addr(a) == nibble::ptr_addr(b),
{
    lemma_ptr_name_ignores_case(a, b);
    assert forall|i: int| 0 <= i < b.len() implies text::same_bytes(#[trigger] b[i], a[i]) by {
        assert(text::same_bytes(a[i], b[i]));
    }
    lemma_ptr_name_ignores_case(b, a);
    if nibble::is_ptr_name(a) {
        let x = nibble::ptr_digits(a);
        let y = nibble::ptr_digits(b);
        assert(text::lowered_bytes(x) =~= text::lowered_bytes(y)) by {
            assert forall|k: int| 0 <= k < 32 implies text::fold_u8(#[trigger] x[k])
                == text::fold_u8(y[k]) by {
                assert(text::same_bytes(a[31 - k], b[31 - k]));
                lemma_same_at(a[31 - k], b[31 - k]);
                assert(a[31 - k].len() == 1);
                assert(text::fold_u8(a[31 - k][0]) == text::fold_u8(b[31 - k][0]));
            }
        }
        lemma_hex_value_ignores_case(x, y);
    }
}

proof fn lemma_ptr_name_ignores_case(a: Seq<Seq<u8>>, b: Seq<Seq<u8>>)
    requires
        crate::name::same_labels(a, b),
    ensures
        nibble::is_ptr_name(a) ==> nibble::is_ptr_name(b),
{
    if nibble::is_ptr_name(a) {
        assert forall|i: int| 0 <= i < 32 implies (#[trigger] b[i]).len() == 1
            && nibble::hex_digit(b[i][0]) is Some by {
            assert(text::same_bytes(a[i], b[i]));
            lemma_same_at(a[i], b[i]);
            assert(a[i].len() == 1);
            lemma_hex_ignores_case(a[i][0], b[i][0]);
        }
        assert(text::same_bytes(a[32], b[32]) && text::same_bytes(a[33], b[33]));
    }
}

// ---- the round trip --------------------------------------------------------

/// The host part of an address of a zone.
pub open spec fn host_of(zone: ZoneView, addr: u128) -> nat {
    addr as nat % nibble::pow2(nibble::host_bits(zone.mask))
}

proof fn lemma_own_label_matches(template: FwdLabelView, digits: Seq<u8>, n: u8)
    requires
        template.wf(),
        nibble::all_hex(digits),
        digits.len() == n,
    ensures
        lookup::match_label(template, template.filled(text::ascii(digits)), n) == (
        if template is Digits {
            LabelMatch::Host(nibble::host_of_digits(digits, n as nat)->0)
        } else {
            LabelMatch::Fixed
        }),
{
    let shown = text::ascii(digits);
    let label = template.filled(shown);
    match template {
        FwdLabelView::Literal { verbatim, .. } => {
            text::lemma_lowered_bytes_twice(verbatim);
        },
        FwdLabelView::Digits { pre, pre_lower, post, post_lower, dashed } => {
            let grouped = nibble::dashed(digits, 0x2du8);
            assert forall|i: int| 0 <= i < digits.len() implies #[trigger] digits[i] < 128 by {
                assert(nibble::hex_digit(digits[i]) is Some);
            }
            text::lemma_ascii_bytes(digits);
            assert forall|j: int| 0 <= j < grouped.len() implies #[trigger] grouped[j] < 128 by {
                if j % 5 != 4 {
                    assert(grouped[j] == digits[j - j / 5]);
                }
            }
            text::lemma_ascii_bytes(grouped);
            assert(nibble::dashed(shown, '-') =~= text::ascii(grouped)) by {
                assert forall|j: int| 0 <= j < grouped.len() implies #[trigger] nibble::dashed(
                    shown,
                    '-',
                )[j] == text::ascii(grouped)[j] by {
                    if j % 5 != 4 {
                        assert(grouped[j] == digits[j - j / 5]);
                        assert(0 <= j - j / 5 < digits.len());
                    }
                }
            }
            let body = if dashed {
                grouped
            } else {
                digits
            };
            assert(label == pre + body + post);
            assert(label.take(pre.len() as int) =~= pre);
            assert(label.skip(label.len() - post.len()) =~= post);
            assert(label.subrange(pre.len() as int, label.len() - post.len()) =~= body);
            text::lemma_lowered_bytes_twice(pre);
            text::lemma_lowered_bytes_twice(post);
            nibble::law_dash_group_round_trip(digits);
        },
    }
}

proof fn lemma_own_labels_match(zone: ZoneView, digits: Seq<u8>, k: int)
    requires
        zone.wf(),
        nibble::all_hex(digits),
        digits.len() == zone.host_nibbles,
        0 <= k <= zone.fwd.labels.len(),
    ensures
        ({
            let labels = zone.fwd.rendered(text::ascii(digits));
            lookup::match_labels(zone.fwd.labels.take(k), labels.take(k), zone.host_nibbles) == (
            if zone.fwd.digits_at < k {
                LabelMatch::Host(
                    nibble::host_of_digits(digits, zone.host_nibbles as nat)->0,
                )
            } else {
                LabelMatch::Fixed
            })
        }),
    decreases k,
{
    let labels = zone.fwd.rendered(text::ascii(digits));
    if k > 0 {
        lemma_own_labels_match(zone, digits, k - 1);
        assert(zone.fwd.labels.take(k).drop_last() =~= zone.fwd.labels.take(k - 1));
        assert(labels.take(k).drop_last() =~= labels.take(k - 1));
        assert(zone.fwd.labels[k - 1].wf());
        lemma_own_label_matches(zone.fwd.labels[k - 1], digits, zone.host_nibbles);
    }
}

/// Synthesis never fails: every address has a forward name under a well-formed
/// zone.
pub proof fn law_every_address_has_a_name(zone: ZoneView, addr: u128)
    requires
        zone.wf(),
    ensures
        synth::forward_of(zone, addr) == Some(
            NameView { labels: synth::forward_labels(zone, addr), fqdn: true },
        ),
{
    nibble::law_host_digits_round_trip(addr, zone.host_nibbles);
}

/// An address of a zone becomes a name, and the name becomes the same address
/// again.
pub proof fn law_forward_round_trip(zone: ZoneView, addr: u128)
    requires
        zone.wf(),
        lookup::contains(zone, addr),
    ensures
        lookup::forward_addr(zone, synth::forward_labels(zone, addr)) == Some(addr),
{
    let n = zone.host_nibbles;
    let digits = nibble::low_digits(addr as nat, n as nat);
    let labels = synth::forward_labels(zone, addr);
    nibble::law_host_digits_round_trip(addr, n);
    lemma_own_labels_match(zone, digits, zone.fwd.labels.len() as int);
    assert(zone.fwd.labels.take(zone.fwd.labels.len() as int) =~= zone.fwd.labels);
    assert(labels.take(labels.len() as int) =~= labels);
    let k = nibble::host_bits(zone.mask);
    assert(k == 4 * n);
    let host = host_of(zone, addr);
    nibble::lemma_pow2_128();
    nibble::lemma_pow2_positive(k);
    vstd::arithmetic::div_mod::lemma_mod_decreases(addr as nat, nibble::pow2(k));
    vstd::arithmetic::div_mod::lemma_small_mod(host, nibble::pow2(128));
    assert(nibble::host_of_digits(digits, n as nat) == Some(host as u128));
    assert(zone.prefix as nat % nibble::pow2(k) == 0);
    nibble::lemma_or_is_sum(zone.prefix, host as u128, k);
}

/// An address read from a forward name lies in the network of the zone.
pub proof fn law_forward_address_is_in_the_network(zone: ZoneView, labels: Seq<Seq<u8>>)
    requires
        zone.wf(),
        lookup::forward_addr(zone, labels) is Some,
    ensures
        lookup::contains(zone, lookup::forward_addr(zone, labels)->0),
{
    let host = lemma_matched_host(zone.fwd.labels, labels, zone.host_nibbles);
    nibble::law_synthesized_address_stays_in_prefix(zone.prefix, zone.mask, host);
}

/// A matched host part is as wide as the digits allow.
proof fn lemma_matched_host(template: Seq<FwdLabelView>, labels: Seq<Seq<u8>>, n: u8) -> (host:
    u128)
    requires
        n <= 32,
        lookup::match_labels(template, labels, n) is Host,
    ensures
        lookup::match_labels(template, labels, n) == LabelMatch::Host(host),
        host < nibble::pow2((4 * n) as nat),
    decreases template.len(),
{
    let found = lookup::match_labels(template, labels, n)->Host_0;
    let last = lookup::match_label(template.last(), labels.last(), n);
    if last is Host {
        if let FwdLabelView::Digits { pre_lower, post_lower, dashed, .. } = template.last() {
            let body = lookup::middle(labels.last(), pre_lower, post_lower)->0;
            let digits = if dashed {
                nibble::undashed(body, n as nat)->0
            } else {
                body
            };
            nibble::lemma_host_bound(digits, n);
        }
        found
    } else {
        lemma_matched_host(template.drop_last(), labels.drop_last(), n)
    }
}

/// A name with labels before or behind a forward name never matches: matching is a
/// full match.
pub proof fn law_added_labels_never_match(
    zone: ZoneView,
    front: Seq<Seq<u8>>,
    labels: Seq<Seq<u8>>,
    back: Seq<Seq<u8>>,
)
    requires
        lookup::forward_addr(zone, labels) is Some,
        front.len() + back.len() > 0,
    ensures
        lookup::forward_addr(zone, front + labels + back) is None,
{
}

// ---- zone selection --------------------------------------------------------

/// The first zone that contains an address has the longest prefix of all that do.
pub proof fn law_longest_prefix_wins(zones: Seq<ZoneView>, addr: u128, i: int)
    requires
        crate::config::sorted_by_mask(zones),
        0 <= i < zones.len(),
        lookup::contains(zones[i], addr),
    ensures
        lookup::zone_of_addr(zones, addr) is Some,
        lookup::contains(lookup::zone_of_addr(zones, addr)->0, addr),
        lookup::zone_of_addr(zones, addr)->0.mask >= zones[i].mask,
    decreases zones.len(),
{
    if !lookup::contains(zones[0], addr) {
        let rest = zones.drop_first();
        assert forall|a: int, b: int| 0 <= a <= b < rest.len() implies (
        #[trigger] rest[a]).mask >= (#[trigger] rest[b]).mask by {
            assert(zones[a + 1].mask >= zones[b + 1].mask);
        }
        assert(rest[i - 1] == zones[i]);
        law_longest_prefix_wins(rest, addr, i - 1);
    } else {
        assert(zones[0].mask >= zones[i].mask);
    }
}

proof fn lemma_found_zone(zones: Seq<ZoneView>, addr: u128)
    requires
        lookup::zone_of_addr(zones, addr) is Some,
    ensures
        zones.contains(lookup::zone_of_addr(zones, addr)->0),
        lookup::contains(lookup::zone_of_addr(zones, addr)->0, addr),
    decreases zones.len(),
{
    if lookup::contains(zones[0], addr) {
        assert(zones.contains(zones[0]));
    } else {
        let rest = zones.drop_first();
        lemma_found_zone(rest, addr);
        let z = lookup::zone_of_addr(rest, addr)->0;
        let k = rest.index_of(z);
        assert(zones[k + 1] == z);
    }
}

proof fn lemma_first_forward_match(zones: Seq<ZoneView>, labels: Seq<Seq<u8>>, k: int)
    requires
        0 <= k < zones.len(),
        lookup::forward_addr(zones[k], labels) is Some,
        forall|i: int|
            0 <= i < k ==> lookup::forward_addr(#[trigger] zones[i], labels) is None,
    ensures
        lookup::forward_zone(zones, labels) == Some(
            (zones[k], lookup::forward_addr(zones[k], labels)->0),
        ),
    decreases k,
{
    if k > 0 {
        assert(lookup::forward_addr(zones[0], labels) is None);
        let rest = zones.drop_first();
        assert forall|i: int| 0 <= i < k - 1 implies lookup::forward_addr(
            #[trigger] rest[i],
            labels,
        ) is None by {
            assert(rest[i] == zones[i + 1]);
        }
        lemma_first_forward_match(rest, labels, k - 1);
    }
}

/// The full round trip in a configuration: a PTR query for an address of one of
/// its networks is answered with exactly one PTR record; and an AAAA query for the
/// name in it is answered with exactly one AAAA record, which holds the address
/// again, unless the template of a zone further up in the list matches that name
/// too.
pub proof fn law_ptr_to_aaaa_round_trip(config: ConfigView, qname: NameView, k: int)
    requires
        config.wf(),
        0 <= k < config.zones.len(),
        nibble::ptr_addr(qname.labels) is Some,
        lookup::zone_of_addr(config.zones, nibble::ptr_addr(qname.labels)->0) == Some(
            config.zones[k],
        ),
        forall|i: int|
            0 <= i < k ==> lookup::forward_addr(
                #[trigger] config.zones[i],
                synth::forward_labels(config.zones[k], nibble::ptr_addr(qname.labels)->0),
            ) is None,
    ensures
        ({
            let zone = config.zones[k];
            let addr = nibble::ptr_addr(qname.labels)->0;
            let target = NameView { labels: synth::forward_labels(zone, addr), fqdn: true };
            &&& super::outcome(config, qname, RecordType::PTR) == (OutcomeView::Answer {
                zone,
                records: seq![
                    crate::record::internet_record(qname, zone.ttl, RDataView::PTR(target)),
                ],
            })
            &&& super::outcome(config, target, RecordType::AAAA) == (OutcomeView::Answer {
                zone,
                records: seq![
                    crate::record::internet_record(target, zone.ttl, RDataView::AAAA(addr)),
                ],
            })
        }),
{
    let zone = config.zones[k];
    let addr = nibble::ptr_addr(qname.labels)->0;
    assert(zone.wf());
    lemma_found_zone(config.zones, addr);
    law_every_address_has_a_name(zone, addr);
    law_forward_round_trip(zone, addr);
    lemma_first_forward_match(config.zones, synth::forward_labels(zone, addr), k);
}

/// A name that a template matches exists whatever type is asked for: a query for a
/// type it does not hold gets an empty answer, not a denial.
pub proof fn law_other_types_get_no_data(config: ConfigView, qname: NameView, qtype: RecordType)
    requires
        lookup::forward_zone(config.zones, qname.labels) is Some,
        qtype != RecordType::PTR,
        qtype != RecordType::AAAA,
        qtype != RecordType::ANY,
    ensures
        super::outcome(config, qname, qtype) == (OutcomeView::Answer {
            zone: (lookup::forward_zone(config.zones, qname.labels)->0).0,
            records: Seq::empty(),
        }),
{
}

proof fn lemma_each_label_matches(
    template: Seq<FwdLabelView>,
    labels: Seq<Seq<u8>>,
    n: u8,
    i: int,
)
    requires
        template.len() == labels.len(),
        !(lookup::match_labels(template, labels, n) is No),
        0 <= i < template.len(),
    ensures
        !(lookup::match_label(template[i], labels[i], n) is No),
    decreases template.len(),
{
    if i < template.len() - 1 {
        lemma_each_label_matches(template.drop_last(), labels.drop_last(), n, i);
    }
}

/// A name that a template matches lies under the forward apex of the zone.
pub proof fn law_forward_names_lie_under_the_apex(zone: ZoneView, name: NameView)
    requires
        zone.wf(),
        lookup::forward_addr(zone, name.labels) is Some,
    ensures
        crate::name::encloses(zone.fwd_parent, name),
{
    let apex = zone.fwd.apex();
    let skip = name.labels.len() - apex.len();
    assert(skip == zone.fwd.digits_at + 1);
    assert forall|i: int| 0 <= i < apex.len() implies text::same_bytes(
        #[trigger] apex[i],
        name.labels.skip(skip)[i],
    ) by {
        let k = skip + i;
        lemma_each_label_matches(zone.fwd.labels, name.labels, zone.host_nibbles, k);
        assert(zone.fwd.labels[k].wf() && !(zone.fwd.labels[k] is Digits));
        if let FwdLabelView::Literal { verbatim, .. } = zone.fwd.labels[k] {
            text::lemma_lowered_bytes_twice(verbatim);
        }
    }
}

proof fn lemma_forward_zone_found(zones: Seq<ZoneView>, labels: Seq<Seq<u8>>)
    requires
        lookup::forward_zone(zones, labels) is Some,
    ensures
        ({
            let (zone, addr) = lookup::forward_zone(zones, labels)->0;
            zones.contains(zone) && lookup::forward_addr(zone, labels) == Some(addr)
        }),
    decreases zones.len(),
{
    if lookup::forward_addr(zones[0], labels) is Some {
        assert(zones.contains(zones[0]));
    } else {
        let rest = zones.drop_first();
        lemma_forward_zone_found(rest, labels);
        let zone = (lookup::forward_zone(rest, labels)->0).0;
        let k = rest.index_of(zone);
        assert(zones[k + 1] == zone);
    }
}

/// An empty answer is one to a forward name, so the name lies in a zone.
pub proof fn lemma_empty_answer_is_forward(config: ConfigView, qname: NameView, qtype: RecordType)
    requires
        config.wf(),
        super::outcome(config, qname, qtype) matches OutcomeView::Answer { records, .. }
            && records.len() == 0,
    ensures
        exists|i: int|
            0 <= i < config.zones.len() && lookup::holds_name(#[trigger] config.zones[i], qname),
{
    if qtype == RecordType::PTR || qtype == RecordType::ANY {
        if let Some((zone, addr)) = super::reverse_match(config.zones, qname) {
            lemma_found_zone(config.zones, addr);
            assert(zone.wf());
            law_every_address_has_a_name(zone, addr);
        }
    }
    lemma_forward_zone_found(config.zones, qname.labels);
    let (zone, addr) = lookup::forward_zone(config.zones, qname.labels)->0;
    let k = config.zones.index_of(zone);
    assert(config.zones[k] == zone);
    assert(config.zones[k].wf());
    law_forward_names_lie_under_the_apex(zone, qname);
    assert(lookup::holds_name(config.zones[k], qname));
}

/// The reverse name of an address lies under the reverse zone of every network
/// that contains the address.
pub proof fn law_reverse_names_lie_under_the_zone(zone: ZoneView, name: NameView)
    requires
        zone.wf(),
        nibble::ptr_addr(name.labels) is Some,
        lookup::contains(zone, nibble::ptr_addr(name.labels)->0),
    ensures
        crate::name::encloses(zone.ptr_zone, name),
{
    let addr = nibble::ptr_addr(name.labels)->0;
    let full = nibble::ptr_zone_labels(addr, 128);
    let tail = nibble::ptr_zone_labels(zone.prefix, zone.mask);
    let skip = zone.host_nibbles as int;
    nibble::law_accepted_ptr_name_rebuilds(name.labels);
    assert(tail.len() + skip == 34);
    assert forall|i: int| 0 <= i < tail.len() implies text::same_bytes(
        #[trigger] tail[i],
        name.labels.skip(skip)[i],
    ) by {
        assert(text::same_bytes(full[skip + i], name.labels[skip + i]));
        if i < zone.mask as int / 4 {
            nibble::lemma_network_nibble(addr, zone.mask, (skip + i) as nat);
            assert(full[skip + i] == tail[i]);
        } else {
            assert(full[skip + i] == tail[i]);
        }
    }
}

/// Records are served for names in our own zones only.
pub proof fn law_answers_lie_in_a_zone(config: ConfigView, qname: NameView, qtype: RecordType)
    requires
        config.wf(),
        super::outcome(config, qname, qtype) is Answer,
    ensures
        ({
            let zone = super::outcome(config, qname, qtype)->Answer_zone;
            config.zones.contains(zone) && lookup::holds_name(zone, qname)
        }),
{
    let zone = super::outcome(config, qname, qtype)->Answer_zone;
    let reverse = super::reverse_match(config.zones, qname);
    if (qtype == RecordType::PTR || qtype == RecordType::ANY) && reverse is Some {
        lemma_found_zone(config.zones, (reverse->0).1);
        let k = config.zones.index_of(zone);
        assert(config.zones[k].wf());
        law_reverse_names_lie_under_the_zone(zone, qname);
    } else {
        lemma_forward_zone_found(config.zones, qname.labels);
        let k = config.zones.index_of(zone);
        assert(config.zones[k].wf());
        law_forward_names_lie_under_the_apex(zone, qname);
    }
}

/// Query names never become record data: however the name of an address is
/// written, the answers hold the same data, and only their owner is the name that
/// was asked for.
pub proof fn law_answers_do_not_depend_on_spelling(config: ConfigView, a: NameView, b: NameView)
    requires
        super::reverse_match(config.zones, a) is Some,
        nibble::ptr_addr(a.labels) == nibble::ptr_addr(b.labels),
    ensures
        ({
            let x = super::outcome(config, a, RecordType::PTR)->records;
            let y = super::outcome(config, b, RecordType::PTR)->records;
            &&& x.len() == y.len()
            &&& forall|i: int|
                0 <= i < x.len() ==> {
                    &&& (#[trigger] x[i]).data == y[i].data
                    &&& x[i].ttl == y[i].ttl
                    &&& x[i].name == a
                    &&& y[i].name == b
                }
        }),
{
}

// ---- the converse of the round trip ----------------------------------------

/// The digits of a host part as a label shows them: in one run, or in groups of four
/// with hyphens between them.
pub open spec fn shown_digits(digits: Seq<u8>, grouped: bool) -> Seq<u8> {
    if grouped {
        nibble::dashed(digits, 0x2du8)
    } else {
        digits
    }
}

proof fn lemma_filled(template: FwdLabelView, digits: Seq<u8>)
    requires
        nibble::all_hex(digits),
    ensures
        match template {
            FwdLabelView::Literal { verbatim, .. } => template.filled(text::ascii(digits))
                == verbatim,
            FwdLabelView::Digits { pre, post, dashed, .. } => template.filled(text::ascii(digits))
                == pre + shown_digits(digits, dashed) + post,
        },
{
    if let FwdLabelView::Digits { pre, post, dashed, .. } = template {
        let shown = text::ascii(digits);
        let grouped = nibble::dashed(digits, 0x2du8);
        assert forall|i: int| 0 <= i < digits.len() implies #[trigger] digits[i] < 128 by {
            assert(nibble::hex_digit(digits[i]) is Some);
        }
        text::lemma_ascii_bytes(digits);
        assert forall|j: int| 0 <= j < grouped.len() implies #[trigger] grouped[j] < 128 by {
            if j % 5 != 4 {
                assert(grouped[j] == digits[j - j / 5]);
            }
        }
        text::lemma_ascii_bytes(grouped);
        assert(nibble::dashed(shown, '-') =~= text::ascii(grouped)) by {
            assert forall|j: int| 0 <= j < grouped.len() implies #[trigger] nibble::dashed(
                shown,
                '-',
            )[j] == text::ascii(grouped)[j] by {
                if j % 5 != 4 {
                    assert(grouped[j] == digits[j - j / 5]);
                    assert(0 <= j - j / 5 < digits.len());
                }
            }
        }
    }
}

/// The forward name of an address is the template with the last digits of the
/// address in the place of its placeholder, and nothing else changed.
pub proof fn law_forward_name_is_the_template(zone: ZoneView, addr: u128, i: int)
    requires
        zone.wf(),
        0 <= i < zone.fwd.labels.len(),
    ensures
        synth::forward_labels(zone, addr).len() == zone.fwd.labels.len(),
        match zone.fwd.labels[i] {
            FwdLabelView::Literal { verbatim, .. } => synth::forward_labels(zone, addr)[i]
                == verbatim,
            FwdLabelView::Digits { pre, post, dashed, .. } => synth::forward_labels(zone, addr)[i]
                == pre + shown_digits(
                nibble::low_digits(addr as nat, ((128 - zone.mask) / 4) as nat),
                dashed,
            ) + post,
        },
{
    let digits = nibble::low_digits(addr as nat, zone.host_nibbles as nat);
    nibble::law_host_digits_round_trip(addr, zone.host_nibbles);
    lemma_filled(zone.fwd.labels[i], digits);
}

/// With digits in one label only, that label is where the host part comes from.
proof fn lemma_host_comes_from(
    template: Seq<FwdLabelView>,
    labels: Seq<Seq<u8>>,
    n: u8,
    at: int,
    host: u128,
)
    requires
        template.len() == labels.len(),
        0 <= at < template.len(),
        forall|i: int| 0 <= i < template.len() ==> (#[trigger] template[i] is Digits <==> i == at),
        lookup::match_labels(template, labels, n) == LabelMatch::Host(host),
    ensures
        lookup::match_label(template[at], labels[at], n) == LabelMatch::Host(host),
    decreases template.len(),
{
    if at < template.len() - 1 {
        assert(!(template[template.len() - 1] is Digits));
        assert forall|i: int| 0 <= i < template.drop_last().len() implies (
        #[trigger] template.drop_last()[i] is Digits <==> i == at) by {
            assert(template[i] is Digits <==> i == at);
        }
        lemma_host_comes_from(template.drop_last(), labels.drop_last(), n, at, host);
    } else {
        assert(template[at] is Digits);
        assert(lookup::match_label(template.last(), labels.last(), n) !is Fixed);
    }
}

proof fn lemma_same_parts(a: Seq<u8>, b: Seq<u8>, p: int, q: int)
    requires
        0 <= p <= q <= a.len(),
        a.len() == b.len(),
        text::same_bytes(a.take(p), b.take(p)),
        text::same_bytes(a.subrange(p, q), b.subrange(p, q)),
        text::same_bytes(a.skip(q), b.skip(q)),
    ensures
        text::same_bytes(a, b),
{
    text::law_equal_labels_differ_in_case_only(a.take(p), b.take(p));
    text::law_equal_labels_differ_in_case_only(a.subrange(p, q), b.subrange(p, q));
    text::law_equal_labels_differ_in_case_only(a.skip(q), b.skip(q));
    text::law_equal_labels_differ_in_case_only(a, b);
    assert forall|i: int| 0 <= i < a.len() implies text::alike(#[trigger] a[i], b[i]) by {
        if i < p {
            assert(text::alike(a.take(p)[i], b.take(p)[i]));
        } else if i < q {
            assert(text::alike(a.subrange(p, q)[i - p], b.subrange(p, q)[i - p]));
        } else {
            assert(text::alike(a.skip(q)[i - q], b.skip(q)[i - q]));
        }
    }
}

/// Digits that denote the same host part differ in case only.
proof fn lemma_same_digits(a: Seq<u8>, b: Seq<u8>, n: nat, host: u128)
    requires
        n <= 32,
        nibble::host_of_digits(a, n) == Some(host),
        nibble::host_of_digits(b, n) == Some(host),
    ensures
        text::same_bytes(a, b),
{
    nibble::law_digits_spell_the_host(a, n, host);
    nibble::law_digits_spell_the_host(b, n, host);
    text::law_equal_labels_differ_in_case_only(a, b);
    assert forall|j: int| 0 <= j < a.len() implies text::alike(#[trigger] a[j], b[j]) by {
        let v = nibble::four_bits(host as nat, (n - 1 - j) as nat);
        assert(nibble::denotes(a[j], v));
        assert(nibble::denotes(b[j], v));
    }
}

proof fn lemma_same_shown_digits(m: Seq<u8>, low: Seq<u8>, grouped: bool, n: u8, host: u128)
    requires
        n <= 32,
        lookup::host_in(m, grouped, n) == Some(host),
        nibble::host_of_digits(low, n as nat) == Some(host),
    ensures
        text::same_bytes(shown_digits(low, grouped), m),
{
    if grouped {
        let d = nibble::undashed(m, n as nat)->0;
        let shown = nibble::dashed(low, 0x2du8);
        lemma_same_digits(low, d, n as nat, host);
        text::law_equal_labels_differ_in_case_only(low, d);
        text::law_equal_labels_differ_in_case_only(shown, m);
        assert forall|j: int| 0 <= j < shown.len() implies text::alike(
            #[trigger] shown[j],
            m[j],
        ) by {
            if j % 5 != 4 {
                let i = j - j / 5;
                assert(i + i / 4 == j);
                assert(0 <= i < n);
                assert(text::alike(low[i], d[i]));
            }
        }
    } else {
        lemma_same_digits(low, m, n as nat, host);
    }
}

proof fn lemma_matched_label(template: FwdLabelView, label: Seq<u8>, low: Seq<u8>, n: u8)
    requires
        template.wf(),
        n <= 32,
        nibble::all_hex(low),
        low.len() == n,
        match lookup::match_label(template, label, n) {
            LabelMatch::No => false,
            LabelMatch::Fixed => true,
            LabelMatch::Host(host) => nibble::host_of_digits(low, n as nat) == Some(host),
        },
    ensures
        text::same_bytes(template.filled(text::ascii(low)), label),
{
    lemma_filled(template, low);
    match template {
        FwdLabelView::Literal { verbatim, .. } => {
            text::lemma_lowered_bytes_twice(verbatim);
        },
        FwdLabelView::Digits { pre, pre_lower, post, post_lower, dashed } => {
            let host = nibble::host_of_digits(low, n as nat)->0;
            let m = lookup::middle(label, pre_lower, post_lower)->0;
            let body = shown_digits(low, dashed);
            let full = pre + body + post;
            lemma_same_shown_digits(m, low, dashed, n, host);
            text::law_equal_labels_differ_in_case_only(body, m);
            let p = pre.len() as int;
            let q = label.len() - post.len();
            assert(full.len() == label.len());
            assert(full.take(p) =~= pre);
            assert(full.subrange(p, q) =~= body);
            assert(full.skip(q) =~= post);
            text::lemma_lowered_bytes_twice(pre);
            text::lemma_lowered_bytes_twice(post);
            lemma_same_parts(full, label, p, q);
        },
    }
}

/// A template matches a name only if it makes that very name, but for the case of
/// letters, of the address that is read from it: nothing in the name is passed over.
/// The address lies in the network of the zone.
pub proof fn law_forward_match_is_exact(zone: ZoneView, labels: Seq<Seq<u8>>, addr: u128)
    requires
        zone.wf(),
        lookup::forward_addr(zone, labels) == Some(addr),
    ensures
        crate::name::same_labels(synth::forward_labels(zone, addr), labels),
        labels.len() == zone.fwd.labels.len(),
        crate::name::ends_in(labels, synth::forward_labels(zone, addr)),
        addr / vstd::arithmetic::power2::pow2((128 - zone.mask) as nat) as u128 == zone.prefix
            / vstd::arithmetic::power2::pow2((128 - zone.mask) as nat) as u128,
{
    let n = zone.host_nibbles;
    let host = lemma_matched_host(zone.fwd.labels, labels, n);
    assert(addr == zone.prefix | host);
    let low = nibble::low_digits(addr as nat, n as nat);
    nibble::law_host_digits_round_trip(addr, n);
    nibble::law_synthesized_address_stays_in_prefix(zone.prefix, zone.mask, host);
    nibble::lemma_pow2_128();
    vstd::arithmetic::div_mod::lemma_small_mod(host as nat, nibble::pow2(128));
    assert(nibble::host_of_digits(low, n as nat) == Some(host));
    assert forall|i: int| 0 <= i < zone.fwd.labels.len() implies (
    #[trigger] zone.fwd.labels[i] is Digits <==> i == zone.fwd.digits_at) by {
        assert(zone.fwd.labels[i].wf());
    }
    lemma_host_comes_from(zone.fwd.labels, labels, n, zone.fwd.digits_at, host);
    let made = synth::forward_labels(zone, addr);
    assert forall|i: int| 0 <= i < made.len() implies text::same_bytes(
        #[trigger] made[i],
        labels[i],
    ) by {
        let t = zone.fwd.labels[i];
        assert(t.wf());
        lemma_each_label_matches(zone.fwd.labels, labels, n, i);
        if i == zone.fwd.digits_at {
            assert(lookup::match_label(t, labels[i], n) == LabelMatch::Host(host));
        } else {
            assert(!(t is Digits));
        }
        lemma_matched_label(t, labels[i], low, n);
    }
    let (x, y) = (
        NameView { labels: made, fqdn: true },
        NameView { labels, fqdn: true },
    );
    assert(labels.skip(0) =~= labels);
    assert(crate::name::encloses(x, y));
    crate::name::law_enclosed_names_end_in_all_labels(x, y);
    law_network_of_a_zone_is_its_prefix(zone, addr);
}

/// An address lies in the network of a zone exactly if it agrees with its prefix, as
/// far as that goes.
pub proof fn law_network_of_a_zone_is_its_prefix(zone: ZoneView, addr: u128)
    requires
        zone.wf(),
    ensures
        ({
            let below = vstd::arithmetic::power2::pow2((128 - zone.mask) as nat) as u128;
            lookup::contains(zone, addr) <==> addr / below == zone.prefix / below
        }),
{
    let k = (128 - zone.mask) as nat;
    let p = nibble::pow2(k);
    nibble::lemma_pow2_positive(k);
    nibble::lemma_pow2_128();
    vstd::arithmetic::power2::lemma_pow2_strictly_increases(k, 128);
    nibble::law_network_part_keeps_the_prefix(addr, zone.mask);
    nibble::law_network_part_keeps_the_prefix(zone.prefix, zone.mask);
    let (x, y) = (addr as nat / p, zone.prefix as nat / p);
    assert(addr / p as u128 == x);
    assert(zone.prefix / p as u128 == y);
    if x * p == y * p {
        assert(x == y) by (nonlinear_arith)
            requires
                x * p == y * p,
                p > 0,
        ;
    }
}

/// The zone of an address is one that contains it, and only an address that no zone
/// contains has none.
pub proof fn law_zone_of_an_address_contains_it(zones: Seq<ZoneView>, addr: u128)
    ensures
        match lookup::zone_of_addr(zones, addr) {
            Some(zone) => zones.contains(zone) && lookup::contains(zone, addr),
            None => forall|i: int|
                0 <= i < zones.len() ==> !lookup::contains(#[trigger] zones[i], addr),
        },
    decreases zones.len(),
{
    if lookup::zone_of_addr(zones, addr) is Some {
        lemma_found_zone(zones, addr);
    } else if zones.len() > 0 {
        let rest = zones.drop_first();
        law_zone_of_an_address_contains_it(rest, addr);
        assert forall|i: int| 0 <= i < zones.len() implies !lookup::contains(
            #[trigger] zones[i],
            addr,
        ) by {
            if i > 0 {
                assert(zones[i] == rest[i - 1]);
            }
        }
    }
}

/// Of the zones whose template matches a name, the first in the list answers, with
/// the address that its template reads.
pub proof fn law_first_template_answers(zones: Seq<ZoneView>, labels: Seq<Seq<u8>>) -> (k: int)
    ensures
        match lookup::forward_zone(zones, labels) {
            Some((zone, addr)) => {
                &&& 0 <= k < zones.len()
                &&& zone == zones[k]
                &&& lookup::forward_addr(zones[k], labels) == Some(addr)
                &&& forall|i: int|
                    0 <= i < k ==> lookup::forward_addr(#[trigger] zones[i], labels) is None
            },
            None => forall|i: int|
                0 <= i < zones.len() ==> lookup::forward_addr(#[trigger] zones[i], labels) is None,
        },
    decreases zones.len(),
{
    if zones.len() == 0 || lookup::forward_addr(zones[0], labels) is Some {
        0
    } else {
        let rest = zones.drop_first();
        let k = law_first_template_answers(rest, labels);
        assert forall|i: int| 1 <= i < zones.len() implies #[trigger] zones[i] == rest[i - 1] by {}
        k + 1
    }
}

/// The name ends in all labels of the reverse zone or of the forward apex of a zone.
pub open spec fn is_under(zone: ZoneView, name: NameView) -> bool {
    crate::name::ends_in(name.labels, zone.ptr_zone.labels) || crate::name::ends_in(
        name.labels,
        zone.fwd_parent.labels,
    )
}

proof fn lemma_is_under(zone: ZoneView, name: NameView)
    ensures
        lookup::holds_name(zone, name) <==> is_under(zone, name),
{
    crate::name::law_enclosed_names_end_in_all_labels(zone.ptr_zone, name);
    crate::name::law_enclosed_names_end_in_all_labels(zone.fwd_parent, name);
}

proof fn lemma_around(zones: Seq<ZoneView>, name: NameView)
    ensures
        match lookup::zone_around(zones, name) {
            Some(zone) => zones.contains(zone) && is_under(zone, name),
            None => forall|i: int| 0 <= i < zones.len() ==> !is_under(#[trigger] zones[i], name),
        },
    decreases zones.len(),
{
    if zones.len() > 0 {
        lemma_is_under(zones[0], name);
        let rest = zones.drop_first();
        lemma_around(rest, name);
        if lookup::holds_name(zones[0], name) {
            assert(zones.contains(zones[0]));
        } else if let Some(zone) = lookup::zone_around(rest, name) {
            let k = rest.index_of(zone);
            assert(zones[k + 1] == zone);
        } else {
            assert forall|i: int| 0 <= i < zones.len() implies !is_under(
                #[trigger] zones[i],
                name,
            ) by {
                if i > 0 {
                    assert(zones[i] == rest[i - 1]);
                }
            }
        }
    }
}

/// A name is not ours exactly if it ends in the labels of no reverse zone and of no
/// forward apex; whatever is said of a name is said by a zone that it lies under.
pub proof fn law_only_names_under_a_zone_are_ours(
    config: ConfigView,
    qname: NameView,
    qtype: RecordType,
)
    requires
        config.wf(),
    ensures
        super::outcome(config, qname, qtype) is NoZone <==> forall|i: int|
            0 <= i < config.zones.len() ==> !is_under(#[trigger] config.zones[i], qname),
        match super::outcome(config, qname, qtype) {
            OutcomeView::Answer { zone, .. } => config.zones.contains(zone) && is_under(
                zone,
                qname,
            ),
            OutcomeView::NoName { zone } => config.zones.contains(zone) && is_under(zone, qname),
            OutcomeView::NoZone => true,
        },
{
    lemma_around(config.zones, qname);
    match super::outcome(config, qname, qtype) {
        OutcomeView::Answer { zone, .. } => {
            law_answers_lie_in_a_zone(config, qname, qtype);
            lemma_is_under(zone, qname);
            let k = config.zones.index_of(zone);
            assert(is_under(config.zones[k], qname));
        },
        OutcomeView::NoName { zone } => {
            let k = config.zones.index_of(zone);
            assert(is_under(config.zones[k], qname));
        },
        OutcomeView::NoZone => {},
    }
}

/// A query for the PTR, or for everything, of an address in one of our networks is
/// answered by the network with the longest prefix: with one PTR record of class IN
/// and of that zone's TTL, owned by the name asked for, to the forward name of the
/// address.
pub proof fn law_reverse_queries_get_the_forward_name(
    config: ConfigView,
    qname: NameView,
    qtype: RecordType,
    addr: u128,
    i: int,
)
    requires
        config.wf(),
        qtype == RecordType::PTR || qtype == RecordType::ANY,
        nibble::ptr_addr(qname.labels) == Some(addr),
        0 <= i < config.zones.len(),
        lookup::contains(config.zones[i], addr),
    ensures
        super::outcome(config, qname, qtype) matches OutcomeView::Answer { zone, records } && {
            &&& config.zones.contains(zone)
            &&& lookup::contains(zone, addr)
            &&& zone.mask >= config.zones[i].mask
            &&& records == seq![
                RecordView {
                    name: qname,
                    ttl: zone.ttl,
                    dns_class: DNSClass::IN,
                    data: RDataView::PTR(
                        NameView { labels: synth::forward_labels(zone, addr), fqdn: true },
                    ),
                },
            ]
        },
{
    law_longest_prefix_wins(config.zones, addr, i);
    lemma_found_zone(config.zones, addr);
    let zone = lookup::zone_of_addr(config.zones, addr)->0;
    let k = config.zones.index_of(zone);
    assert(config.zones[k].wf());
    law_every_address_has_a_name(zone, addr);
}

/// A query for the AAAA of a name that a template makes is answered with one AAAA
/// record of class IN and of that zone's TTL, owned by the name asked for, and with
/// the address that the first matching template reads. A query for anything but
/// AAAA, PTR or everything is answered with no record.
pub proof fn law_forward_queries_get_the_address(
    config: ConfigView,
    qname: NameView,
    qtype: RecordType,
    k: int,
    addr: u128,
)
    requires
        0 <= k < config.zones.len(),
        lookup::forward_addr(config.zones[k], qname.labels) == Some(addr),
        forall|i: int|
            0 <= i < k ==> lookup::forward_addr(#[trigger] config.zones[i], qname.labels) is None,
        qtype != RecordType::PTR,
        qtype == RecordType::ANY ==> nibble::ptr_addr(qname.labels) is None,
    ensures
        super::outcome(config, qname, qtype) == (OutcomeView::Answer {
            zone: config.zones[k],
            records: if qtype == RecordType::AAAA || qtype == RecordType::ANY {
                seq![
                    RecordView {
                        name: qname,
                        ttl: config.zones[k].ttl,
                        dns_class: DNSClass::IN,
                        data: RDataView::AAAA(addr),
                    },
                ]
            } else {
                Seq::empty()
            },
        }),
{
    lemma_first_forward_match(config.zones, qname.labels, k);
}

/// Records that are served are of the type asked for, or any where everything was
/// asked for; and there are PTR and AAAA records only.
pub proof fn law_records_are_of_the_type_asked_for(
    config: ConfigView,
    qname: NameView,
    qtype: RecordType,
)
    ensures
        super::outcome(config, qname, qtype) matches OutcomeView::Answer { records, .. } ==> {
            &&& records.len() <= 1
            &&& records.len() == 1 ==> {
                &&& records[0].name == qname
                &&& records[0].dns_class == DNSClass::IN
                &&& records[0].data is PTR && (qtype == RecordType::PTR || qtype
                    == RecordType::ANY) || records[0].data is AAAA && (qtype == RecordType::AAAA
                    || qtype == RecordType::ANY)
            }
        },
{
}

} // verus!
