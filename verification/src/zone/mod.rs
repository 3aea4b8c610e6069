//! Pure zone resolution: query name in, records out.
//!
//! This module is the whole behavioural specification of the server, and it
//! touches no sockets and no clock.

pub mod laws;
pub mod lookup;
pub mod synth;

use vstd::prelude::*;

use crate::config::{Config, ConfigView, Zone, ZoneView};
use crate::name::{Name, NameView};
use crate::nibble;
use crate::record;
use crate::record::{Record, RecordType, RecordView};
use crate::text;

verus! {

/// What the configuration says about a query.
#[derive(Debug)]
pub enum Outcome<'a> {
    /// Records to return, authoritatively. May be empty, which means NODATA:
    /// the name exists but holds nothing of the requested type.
    Answer { zone: &'a Zone, records: Vec<Record> },
    /// The name lies inside a zone we serve but denotes nothing at all.
    NoName { zone: &'a Zone },
    /// Not our namespace.
    NoZone,
}

#[verifier::ext_equal]
pub enum OutcomeView {
    Answer { zone: ZoneView, records: Seq<RecordView> },
    NoName { zone: ZoneView },
    NoZone,
}

impl<'a> View for Outcome<'a> {
    type V = OutcomeView;

    open spec fn view(&self) -> OutcomeView {
        match *self {
            Outcome::Answer { zone, records } => OutcomeView::Answer {
                zone: zone@,
                records: text::views(records@),
            },
            Outcome::NoName { zone } => OutcomeView::NoName { zone: zone@ },
            Outcome::NoZone => OutcomeView::NoZone,
        }
    }
}

/// The zone and address of a reverse name.
pub open spec fn reverse_match(zones: Seq<ZoneView>, qname: NameView) -> Option<(ZoneView, u128)> {
    match nibble::ptr_addr(qname.labels) {
        Some(addr) => match lookup::zone_of_addr(zones, addr) {
            Some(zone) => Some((zone, addr)),
            None => None,
        },
        None => None,
    }
}

/// The outcome of a query that is no reverse match: the forward templates are
/// tried whatever the query type.
pub open spec fn forward_outcome(zones: Seq<ZoneView>, qname: NameView, qtype: RecordType) ->
    OutcomeView {
    match lookup::forward_zone(zones, qname.labels) {
        // The name exists. If the type does not match it is NODATA.
        Some((zone, addr)) => OutcomeView::Answer {
            zone,
            records: if qtype == RecordType::AAAA || qtype == RecordType::ANY {
                seq![synth::aaaa_answer(zone, qname, addr)]
            } else {
                Seq::empty()
            },
        },
        None => match lookup::zone_around(zones, qname) {
            Some(zone) => OutcomeView::NoName { zone },
            None => OutcomeView::NoZone,
        },
    }
}

/// The outcome of a query: a PTR query is matched against the reverse zones
/// first.
pub open spec fn outcome(config: ConfigView, qname: NameView, qtype: RecordType) -> OutcomeView {
    let reverse = if qtype == RecordType::PTR || qtype == RecordType::ANY {
        reverse_match(config.zones, qname)
    } else {
        None
    };
    match reverse {
        Some((zone, addr)) => OutcomeView::Answer {
            zone,
            records: match synth::ptr_answer(zone, qname, addr) {
                Some(record) => seq![record],
                None => Seq::empty(),
            },
        },
        None => forward_outcome(config.zones, qname, qtype),
    }
}

/// Resolve a query against the configuration.
///
/// A PTR query is matched against the reverse zones first, then the name is tried
/// against the forward templates regardless of query type.
pub fn resolve<'a>(config: &'a Config, qname: &Name, qtype: RecordType) -> (r: Outcome<'a>)
    ensures
        r@ == outcome(config@, qname@, qtype),
{
    if synth::reverse_has_type(qtype) {
        if let Some((zone, addr)) = lookup::match_ptr(config, qname) {
            let records = match synth::ptr_record(zone, qname, addr) {
                Some(record) => record::one_record(record),
                None => record::no_records(),
            };
            return Outcome::Answer { zone, records };
        }
    }
    if let Some((zone, addr)) = lookup::match_forward(config, qname) {
        let records = if synth::forward_has_type(qtype) {
            record::one_record(synth::aaaa_record(zone, qname, addr))
        } else {
            record::no_records()
        };
        return Outcome::Answer { zone, records };
    }
    // A reverse name inside one of our zones that is not a well-formed address,
    // or a forward name under one of our apexes that no template produces.
    match lookup::zone_containing(config, qname) {
        Some(zone) => Outcome::NoName { zone },
        None => Outcome::NoZone,
    }
}

} // verus!
