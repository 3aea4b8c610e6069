//! Matching a query name against the configured zones.
//!
//! Both directions are exact by construction. Reverse: the name is parsed into an
//! address first, then matched arithmetically. Forward: a label-count check makes
//! the match total, and the digit count is validated in the same place the zone
//! is chosen.

use vstd::prelude::*;

use crate::config::{Config, ConfigView, FwdLabel, FwdLabelView, Zone, ZoneView};
use crate::name::{Name, NameView};
use crate::nibble;
use crate::text;

verus! {

/// The network of a zone contains an address.
pub open spec fn contains(zone: ZoneView, addr: u128) -> bool {
    nibble::network_part(addr, zone.mask) == zone.prefix
}

/// The first zone that contains an address.
pub open spec fn zone_of_addr(zones: Seq<ZoneView>, addr: u128) -> Option<ZoneView>
    decreases zones.len(),
{
    if zones.len() == 0 {
        None
    } else if contains(zones[0], addr) {
        Some(zones[0])
    } else {
        zone_of_addr(zones.drop_first(), addr)
    }
}

/// What a label says about the host part of an address.
pub enum LabelMatch {
    /// The label does not match the template.
    No,
    /// The label matches and carries no digits.
    Fixed,
    /// The label matches and carries the digits of this host part.
    Host(u128),
}

/// What stands between `pre` and `post` in a label, ignoring case.
pub open spec fn middle(label: Seq<u8>, pre: Seq<u8>, post: Seq<u8>) -> Option<Seq<u8>> {
    if label.len() >= pre.len() + post.len() && text::same_bytes(
        label.take(pre.len() as int),
        pre,
    ) && text::same_bytes(label.skip(label.len() - post.len()), post) {
        Some(label.subrange(pre.len() as int, label.len() - post.len()))
    } else {
        None
    }
}

/// The host part that digits stand for, grouped or not.
pub open spec fn host_in(digits: Seq<u8>, dashed: bool, host_nibbles: u8) -> Option<u128> {
    if dashed {
        match nibble::undashed(digits, host_nibbles as nat) {
            Some(plain) => nibble::host_of_digits(plain, host_nibbles as nat),
            None => None,
        }
    } else {
        nibble::host_of_digits(digits, host_nibbles as nat)
    }
}

/// How a label matches one label of a template.
pub open spec fn match_label(template: FwdLabelView, label: Seq<u8>, host_nibbles: u8) -> LabelMatch {
    match template {
        FwdLabelView::Literal { lower, .. } => if text::same_bytes(label, lower) {
            LabelMatch::Fixed
        } else {
            LabelMatch::No
        },
        FwdLabelView::Digits { pre_lower, post_lower, dashed, .. } => match middle(
            label,
            pre_lower,
            post_lower,
        ) {
            Some(digits) => match host_in(digits, dashed, host_nibbles) {
                Some(host) => LabelMatch::Host(host),
                None => LabelMatch::No,
            },
            None => LabelMatch::No,
        },
    }
}

/// How labels match the labels of a template: not at all, or with the host part
/// of the last label that carries digits.
pub open spec fn match_labels(
    template: Seq<FwdLabelView>,
    labels: Seq<Seq<u8>>,
    host_nibbles: u8,
) -> LabelMatch
    decreases template.len(),
{
    if template.len() == 0 || labels.len() == 0 {
        LabelMatch::Fixed
    } else {
        match (
            match_labels(template.drop_last(), labels.drop_last(), host_nibbles),
            match_label(template.last(), labels.last(), host_nibbles),
        ) {
            (LabelMatch::No, _) => LabelMatch::No,
            (_, LabelMatch::No) => LabelMatch::No,
            (before, LabelMatch::Fixed) => before,
            (_, LabelMatch::Host(host)) => LabelMatch::Host(host),
        }
    }
}

/// The address that a forward name encodes under a zone's template. The number of
/// labels must match exactly.
pub open spec fn forward_addr(zone: ZoneView, labels: Seq<Seq<u8>>) -> Option<u128> {
    if labels.len() != zone.fwd.labels.len() {
        None
    } else {
        match match_labels(zone.fwd.labels, labels, zone.host_nibbles) {
            LabelMatch::Host(host) => Some(zone.prefix | host),
            _ => None,
        }
    }
}

/// The first zone whose template a name matches, with the address it encodes.
pub open spec fn forward_zone(zones: Seq<ZoneView>, labels: Seq<Seq<u8>>) -> Option<
    (ZoneView, u128),
>
    decreases zones.len(),
{
    if zones.len() == 0 {
        None
    } else {
        match forward_addr(zones[0], labels) {
            Some(addr) => Some((zones[0], addr)),
            None => forward_zone(zones.drop_first(), labels),
        }
    }
}

/// The namespace of a zone contains a name: its reverse zone or its forward apex
/// does.
pub open spec fn holds_name(zone: ZoneView, name: NameView) -> bool {
    crate::name::encloses(zone.ptr_zone, name) || crate::name::encloses(zone.fwd_parent, name)
}

/// The first zone whose namespace contains a name.
pub open spec fn zone_around(zones: Seq<ZoneView>, name: NameView) -> Option<ZoneView>
    decreases zones.len(),
{
    if zones.len() == 0 {
        None
    } else if holds_name(zones[0], name) {
        Some(zones[0])
    } else {
        zone_around(zones.drop_first(), name)
    }
}

/// Case-insensitively strip `prefix`.
fn strip_prefix_ci<'a>(label: &'a [u8], prefix: &[u8]) -> (r: Option<&'a [u8]>)
    ensures
        match r {
            Some(rest) => {
                &&& label.len() >= prefix.len()
                &&& text::same_bytes(label@.take(prefix@.len() as int), prefix@)
                &&& rest@ == label@.skip(prefix@.len() as int)
            },
            None => label.len() < prefix.len() || !text::same_bytes(
                label@.take(prefix@.len() as int),
                prefix@,
            ),
        },
{
    if label.len() < prefix.len() {
        return None;
    }
    let head = vstd::slice::slice_subrange(label, 0, prefix.len());
    assert(head@ =~= label@.take(prefix@.len() as int));
    if !text::eq_bytes_ci(head, prefix) {
        return None;
    }
    let rest = vstd::slice::slice_subrange(label, prefix.len(), label.len());
    assert(rest@ =~= label@.skip(prefix@.len() as int));
    Some(rest)
}

/// Case-insensitively strip `suffix`.
fn strip_suffix_ci<'a>(label: &'a [u8], suffix: &[u8]) -> (r: Option<&'a [u8]>)
    ensures
        match r {
            Some(rest) => {
                &&& label.len() >= suffix.len()
                &&& text::same_bytes(label@.skip(label@.len() - suffix@.len()), suffix@)
                &&& rest@ == label@.take(label@.len() - suffix@.len())
            },
            None => label.len() < suffix.len() || !text::same_bytes(
                label@.skip(label@.len() - suffix@.len()),
                suffix@,
            ),
        },
{
    if label.len() < suffix.len() {
        return None;
    }
    let at: usize = label.len() - suffix.len();
    let tail = vstd::slice::slice_subrange(label, at, label.len());
    assert(tail@ =~= label@.skip(at as int));
    if !text::eq_bytes_ci(tail, suffix) {
        return None;
    }
    let rest = vstd::slice::slice_subrange(label, 0, at);
    assert(rest@ =~= label@.take(at as int));
    Some(rest)
}

/// Find the zone containing `addr`, longest prefix first.
///
/// `Config::zones` is pre-sorted by prefix length descending, so the first hit is
/// the most specific one regardless of the order the operator wrote them in.
pub fn zone_for_addr(config: &Config, addr: u128) -> (r: Option<&Zone>)
    ensures
        zone_of_addr(config@.zones, addr) == (match r {
            Some(zone) => Some(zone@),
            None => None,
        }),
{
    let ghost zones = config@.zones;
    assert(zones.skip(0) =~= zones);
    for i in 0..config.zones.len()
        invariant
            zones == config@.zones,
            zone_of_addr(zones, addr) == zone_of_addr(zones.skip(i as int), addr),
    {
        let zone = &config.zones[i];
        assert(zones.skip(i as int)[0] == zone@);
        if nibble::network_of(addr, zone.mask) == zone.prefix {
            return Some(zone);
        }
        assert(zones.skip(i as int).drop_first() =~= zones.skip(i + 1));
    }
    None
}

/// Match a reverse-DNS query name.
///
/// Returns the zone and the address the name denotes, or `None` if the name is
/// not a well-formed full `ip6.arpa` address or falls outside every network.
pub fn match_ptr<'a>(config: &'a Config, qname: &Name) -> (r: Option<(&'a Zone, u128)>)
    ensures
        match r {
            Some((zone, addr)) => {
                &&& nibble::ptr_addr(qname@.labels) == Some(addr)
                &&& zone_of_addr(config@.zones, addr) == Some(zone@)
            },
            None => match nibble::ptr_addr(qname@.labels) {
                Some(addr) => zone_of_addr(config@.zones, addr) is None,
                None => true,
            },
        },
{
    match nibble::ptr_name_to_addr(qname) {
        Some(addr) => match zone_for_addr(config, addr) {
            Some(zone) => Some((zone, addr)),
            None => None,
        },
        None => None,
    }
}

/// The host part that digits stand for, grouped or not.
fn read_host(digits: &[u8], dashed: bool, host_nibbles: u8) -> (r: Option<u128>)
    ensures
        r == host_in(digits@, dashed, host_nibbles),
{
    if dashed {
        match nibble::undash_group(digits, host_nibbles) {
            Some(plain) => nibble::digits_to_host(&plain, host_nibbles),
            None => None,
        }
    } else {
        nibble::digits_to_host(digits, host_nibbles)
    }
}

/// Match one label against one label of a template.
fn check_label(template: &FwdLabel, label: &[u8], host_nibbles: u8) -> (r: LabelMatch)
    ensures
        r == match_label(template@, label@, host_nibbles),
{
    match template {
        FwdLabel::Literal { lower, .. } => {
            if text::eq_bytes_ci(label, lower) {
                LabelMatch::Fixed
            } else {
                LabelMatch::No
            }
        },
        FwdLabel::Digits { pre_lower, post_lower, dashed, .. } => {
            let rest = match strip_prefix_ci(label, pre_lower) {
                Some(rest) => rest,
                None => {
                    return LabelMatch::No;
                },
            };
            proof {
                if label@.len() >= pre_lower@.len() + post_lower@.len() {
                    assert(rest@.skip(rest@.len() - post_lower@.len()) =~= label@.skip(
                        label@.len() - post_lower@.len(),
                    ));
                    assert(rest@.take(rest@.len() - post_lower@.len()) =~= label@.subrange(
                        pre_lower@.len() as int,
                        label@.len() - post_lower@.len(),
                    ));
                }
            }
            match strip_suffix_ci(rest, post_lower) {
                Some(digits) => match read_host(digits, *dashed, host_nibbles) {
                    Some(host) => LabelMatch::Host(host),
                    None => LabelMatch::No,
                },
                None => LabelMatch::No,
            }
        },
    }
}

/// Match `qname` against one zone's forward template.
///
/// Returns the address the name encodes. The label count must match exactly, so
/// this can never succeed on a mere suffix.
pub fn match_zone_forward(zone: &Zone, qname: &Name) -> (r: Option<u128>)
    ensures
        r == forward_addr(zone@, qname@.labels),
{
    if qname.num_labels() != zone.fwd.label_count() {
        return None;
    }
    let ghost template = zone@.fwd.labels;
    let ghost labels = qname@.labels;
    let n: u8 = zone.host_nibbles;
    let mut host: Option<u128> = None;
    for i in 0..zone.fwd.labels.len()
        invariant
            n == zone.host_nibbles,
            template == text::views(zone.fwd.labels@),
            labels == text::views(qname.labels@),
            labels.len() == template.len(),
            match_labels(template.take(i as int), labels.take(i as int), n) == (match host {
                Some(host) => LabelMatch::Host(host),
                None => LabelMatch::Fixed,
            }),
    {
        let label = &qname.labels[i];
        proof {
            assert(template[i as int] == zone.fwd.labels@[i as int]@);
            assert(labels[i as int] == label@);
            assert(template.take(i + 1).drop_last() =~= template.take(i as int));
            assert(labels.take(i + 1).drop_last() =~= labels.take(i as int));
            lemma_mismatch_stays(template, labels, n, i + 1);
        }
        match check_label(&zone.fwd.labels[i], label, n) {
            LabelMatch::No => {
                return None;
            },
            LabelMatch::Fixed => {},
            LabelMatch::Host(value) => {
                host = Some(value);
            },
        }
    }
    proof {
        assert(template.take(template.len() as int) =~= template);
        assert(labels.take(labels.len() as int) =~= labels);
    }
    // `prefix` is already masked, so this OR cannot corrupt the network part.
    match host {
        Some(host) => Some(zone.prefix | host),
        None => None,
    }
}

/// A mismatch in the first labels is a mismatch of the whole.
proof fn lemma_mismatch_stays(template: Seq<FwdLabelView>, labels: Seq<Seq<u8>>, n: u8, k: int)
    requires
        0 <= k <= template.len(),
        labels.len() == template.len(),
    ensures
        match_labels(template.take(k), labels.take(k), n) == LabelMatch::No ==> match_labels(
            template,
            labels,
            n,
        ) == LabelMatch::No,
    decreases template.len() - k,
{
    if k == template.len() {
        assert(template.take(k) =~= template);
        assert(labels.take(k) =~= labels);
    } else {
        lemma_mismatch_stays(template, labels, n, k + 1);
        assert(template.take(k + 1).drop_last() =~= template.take(k));
        assert(labels.take(k + 1).drop_last() =~= labels.take(k));
    }
}

/// Match a forward query name against every zone.
pub fn match_forward<'a>(config: &'a Config, qname: &Name) -> (r: Option<(&'a Zone, u128)>)
    ensures
        forward_zone(config@.zones, qname@.labels) == (match r {
            Some((zone, addr)) => Some((zone@, addr)),
            None => None,
        }),
{
    let ghost zones = config@.zones;
    assert(zones.skip(0) =~= zones);
    for i in 0..config.zones.len()
        invariant
            zones == config@.zones,
            forward_zone(zones, qname@.labels) == forward_zone(
                zones.skip(i as int),
                qname@.labels,
            ),
    {
        let zone = &config.zones[i];
        assert(zones.skip(i as int)[0] == zone@);
        if let Some(addr) = match_zone_forward(zone, qname) {
            return Some((zone, addr));
        }
        assert(zones.skip(i as int).drop_first() =~= zones.skip(i + 1));
    }
    None
}

/// The zone whose namespace contains `qname`, if any.
///
/// Used to answer "inside a zone we are authoritative for, but there is no such
/// record" with a SOA so resolvers can cache the negative.
pub fn zone_containing<'a>(config: &'a Config, qname: &Name) -> (r: Option<&'a Zone>)
    ensures
        zone_around(config@.zones, qname@) == (match r {
            Some(zone) => Some(zone@),
            None => None,
        }),
{
    let ghost zones = config@.zones;
    assert(zones.skip(0) =~= zones);
    for i in 0..config.zones.len()
        invariant
            zones == config@.zones,
            zone_around(zones, qname@) == zone_around(zones.skip(i as int), qname@),
    {
        let zone = &config.zones[i];
        assert(zones.skip(i as int)[0] == zone@);
        if zone.ptr_zone.zone_of(qname) || zone.fwd_parent.zone_of(qname) {
            return Some(zone);
        }
        assert(zones.skip(i as int).drop_first() =~= zones.skip(i + 1));
    }
    None
}

} // verus!
