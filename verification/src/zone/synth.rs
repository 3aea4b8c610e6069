//! Building the records we answer with.
//!
//! Every record here is constructed from typed values: a name built out of
//! config-supplied labels plus digits we generated from an address, and that same
//! address. Nothing is ever formatted into, or parsed out of, presentation text.

use vstd::prelude::*;

use crate::config::{Zone, ZoneView};
use crate::name::{Name, NameView};
use crate::nibble;
use crate::record::{RData, RDataView, Record, RecordType, RecordView};
use crate::text;

verus! {

/// The labels of the forward name of an address.
pub open spec fn forward_labels(zone: ZoneView, addr: u128) -> Seq<Seq<u8>> {
    zone.fwd.rendered(
        text::ascii(nibble::low_digits(addr as nat, zone.host_nibbles as nat)),
    )
}

/// The forward name of an address, if it is a name at all.
pub open spec fn forward_of(zone: ZoneView, addr: u128) -> Option<NameView> {
    if zone.host_nibbles <= 32 && crate::name::labels_fit(forward_labels(zone, addr)) {
        Some(NameView { labels: forward_labels(zone, addr), fqdn: true })
    } else {
        None
    }
}

/// The PTR record that answers a reverse query.
pub open spec fn ptr_answer(zone: ZoneView, qname: NameView, addr: u128) -> Option<RecordView> {
    match forward_of(zone, addr) {
        Some(target) => Some(
            crate::record::internet_record(qname, zone.ttl, RDataView::PTR(target)),
        ),
        None => None,
    }
}

/// The AAAA record that answers a forward query.
pub open spec fn aaaa_answer(zone: ZoneView, qname: NameView, addr: u128) -> RecordView {
    crate::record::internet_record(qname, zone.ttl, RDataView::AAAA(addr))
}

/// The forward name that `addr` reverse-resolves to, e.g.
/// `ipv6-0219dbfffe432ec7-blah.nutzer.raumzeitlabor.de.`
///
/// `None` only if the template cannot render, which is ruled out at startup by
/// rendering the widest possible name.
pub fn forward_name(zone: &Zone, addr: u128) -> (r: Option<Name>)
    ensures
        forward_of(zone@, addr) == (match r {
            Some(name) => Some(name@),
            None => None,
        }),
{
    match nibble::host_digits(addr, zone.host_nibbles) {
        Some(digits) => match zone.fwd.render(digits.as_str()) {
            Ok(name) => Some(name),
            Err(_) => None,
        },
        None => None,
    }
}

/// Build the PTR record answering a reverse query for `addr`.
///
/// Echoing the query name back verbatim also preserves DNS-0x20 case
/// randomisation for free.
pub fn ptr_record(zone: &Zone, qname: &Name, addr: u128) -> (r: Option<Record>)
    ensures
        ptr_answer(zone@, qname@, addr) == (match r {
            Some(record) => Some(record@),
            None => None,
        }),
{
    match forward_name(zone, addr) {
        Some(target) => Some(Record::from_rdata(qname.clone(), zone.ttl, RData::PTR(target))),
        None => None,
    }
}

/// Build the AAAA record for a synthesized forward name.
pub fn aaaa_record(zone: &Zone, qname: &Name, addr: u128) -> (r: Record)
    ensures
        r@ == aaaa_answer(zone@, qname@, addr),
{
    Record::from_rdata(qname.clone(), zone.ttl, RData::AAAA(addr))
}

/// Does this zone hold records of `qtype` for a forward name?
///
/// Only AAAA. An `A` query for a name the template *does* match is answered
/// NOERROR with zero records, because the name demonstrably exists, it just has
/// no IPv4 address.
pub fn forward_has_type(qtype: RecordType) -> (r: bool)
    ensures
        r == (qtype == RecordType::AAAA || qtype == RecordType::ANY),
{
    qtype == RecordType::AAAA || qtype == RecordType::ANY
}

/// Does this zone hold records of `qtype` for a reverse name? Only PTR.
pub fn reverse_has_type(qtype: RecordType) -> (r: bool)
    ensures
        r == (qtype == RecordType::PTR || qtype == RecordType::ANY),
{
    qtype == RecordType::PTR || qtype == RecordType::ANY
}

} // verus!
