//! What holds of requests, replies and responses.

use vstd::prelude::*;

use super::bind;
use super::handler;
use super::handler::{
    HandlingView, ReplyView, RequestView, ResponseCode, StepView, ZonesView,
};
use crate::config::{compile, ConfigView, ListenAddr, OutOfZonePolicy, SoaView, ZoneView};
use crate::name::NameView;
use crate::net;
use crate::net::IpAddr;
use crate::record::{DNSClass, RDataView, RecordType, RecordView};
use crate::rrl::{Decision, Kind};
use crate::text;
use crate::zone;
use crate::zone::OutcomeView;

verus! {

// ---- apexes ----------------------------------------------------------------

/// The two names are one and the same, but for the case of letters.
pub open spec fn is_name(a: NameView, b: NameView) -> bool {
    &&& a.fqdn == b.fqdn
    &&& a.labels.len() == b.labels.len()
    &&& crate::name::ends_in(a.labels, b.labels)
}

/// The name is the reverse zone or the forward apex of a zone.
pub open spec fn is_apex_of(zone: ZoneView, qname: NameView) -> bool {
    is_name(zone.ptr_zone, qname) || is_name(zone.fwd_parent, qname)
}

proof fn lemma_same_name_steps(a: NameView, b: NameView, c: NameView)
    requires
        crate::name::same_name(a, b),
        crate::name::same_name(b, c),
    ensures
        crate::name::same_name(a, c),
        crate::name::same_name(b, a),
{
    assert forall|i: int| 0 <= i < a.labels.len() implies text::same_bytes(
        #[trigger] a.labels[i],
        c.labels[i],
    ) && text::same_bytes(b.labels[i], a.labels[i]) by {
        assert(text::same_bytes(a.labels[i], b.labels[i]));
        assert(text::same_bytes(b.labels[i], c.labels[i]));
    }
    assert forall|i: int| 0 <= i < b.labels.len() implies text::same_bytes(
        #[trigger] b.labels[i],
        a.labels[i],
    ) by {
        assert(text::same_bytes(a.labels[i], b.labels[i]));
    }
}

proof fn lemma_with_name(names: Seq<NameView>, name: NameView)
    ensures
        exists|k: int|
            0 <= k < crate::config::with_name(names, name).len() && crate::name::same_name(
                #[trigger] crate::config::with_name(names, name)[k],
                name,
            ),
        forall|k: int|
            0 <= k < names.len() ==> crate::config::with_name(names, name)[k] == #[trigger] names[k],
        forall|k: int|
            0 <= k < crate::config::with_name(names, name).len() ==> (
            #[trigger] crate::config::with_name(names, name)[k] == name || names.contains(
                crate::config::with_name(names, name)[k],
            )),
        crate::config::with_name(names, name).len() >= names.len(),
{
    let all = crate::config::with_name(names, name);
    if exists|i: int|
        0 <= i < names.len() && crate::name::same_name(#[trigger] names[i], name) {
        let i = choose|i: int|
            0 <= i < names.len() && crate::name::same_name(#[trigger] names[i], name);
        assert(crate::name::same_name(all[i], name));
    } else {
        assert(all[names.len() as int] == name);
        assert forall|i: int| 0 <= i < name.labels.len() implies text::same_bytes(
            #[trigger] name.labels[i],
            name.labels[i],
        ) by {}
        assert(crate::name::same_name(all[names.len() as int], name));
    }
    assert forall|k: int| 0 <= k < all.len() implies (#[trigger] all[k] == name
        || names.contains(all[k])) by {
        if k < names.len() {
            assert(all[k] == names[k]);
        }
    }
}

/// Both names of every zone are among the apexes.
proof fn lemma_apexes_of_a_zone(zones: Seq<ZoneView>, i: int) -> (at: (int, int))
    requires
        0 <= i < zones.len(),
    ensures
        ({
            let all = crate::config::apexes_of(zones);
            &&& 0 <= at.0 < all.len()
            &&& 0 <= at.1 < all.len()
            &&& crate::name::same_name(all[at.0], zones[i].ptr_zone)
            &&& crate::name::same_name(all[at.1], zones[i].fwd_parent)
        }),
    decreases zones.len(),
{
    let rest = zones.drop_last();
    let z = zones.last();
    let before = crate::config::apexes_of(rest);
    let mid = crate::config::with_name(before, z.ptr_zone);
    let all = crate::config::with_name(mid, z.fwd_parent);
    lemma_with_name(before, z.ptr_zone);
    lemma_with_name(mid, z.fwd_parent);
    if i < rest.len() {
        let at = lemma_apexes_of_a_zone(rest, i);
        assert(mid[at.0] == before[at.0] && mid[at.1] == before[at.1]);
        assert(all[at.0] == mid[at.0] && all[at.1] == mid[at.1]);
        at
    } else {
        let p = choose|k: int|
            0 <= k < mid.len() && crate::name::same_name(#[trigger] mid[k], z.ptr_zone);
        let q = choose|k: int|
            0 <= k < all.len() && crate::name::same_name(#[trigger] all[k], z.fwd_parent);
        assert(all[p] == mid[p]);
        (p, q)
    }
}

/// Every apex is a name of a zone.
proof fn lemma_zone_of_an_apex(zones: Seq<ZoneView>, apex: NameView) -> (i: int)
    requires
        crate::config::apexes_of(zones).contains(apex),
    ensures
        0 <= i < zones.len(),
        apex == zones[i].ptr_zone || apex == zones[i].fwd_parent,
    decreases zones.len(),
{
    let rest = zones.drop_last();
    let z = zones.last();
    let before = crate::config::apexes_of(rest);
    let mid = crate::config::with_name(before, z.ptr_zone);
    let all = crate::config::with_name(mid, z.fwd_parent);
    lemma_with_name(before, z.ptr_zone);
    lemma_with_name(mid, z.fwd_parent);
    if apex == z.ptr_zone || apex == z.fwd_parent {
        zones.len() - 1
    } else {
        let k = all.index_of(apex);
        assert(all[k] == apex);
        let m = mid.index_of(apex);
        assert(mid[m] == apex);
        let i = lemma_zone_of_an_apex(rest, apex);
        assert(rest[i] == zones[i]);
        i
    }
}

proof fn lemma_find_name(names: Seq<NameView>, name: NameView)
    ensures
        match handler::find_name(names, name) {
            Some(found) => names.contains(found) && crate::name::same_name(found, name),
            None => forall|i: int|
                0 <= i < names.len() ==> !crate::name::same_name(#[trigger] names[i], name),
        },
    decreases names.len(),
{
    if names.len() > 0 {
        let rest = names.drop_first();
        lemma_find_name(rest, name);
        if crate::name::same_name(names[0], name) {
            assert(names.contains(names[0]));
        } else if let Some(found) = handler::find_name(rest, name) {
            let k = rest.index_of(found);
            assert(names[k + 1] == found);
        } else {
            assert forall|i: int| 0 <= i < names.len() implies !crate::name::same_name(
                #[trigger] names[i],
                name,
            ) by {
                if i > 0 {
                    assert(names[i] == rest[i - 1]);
                }
            }
        }
    }
}

/// A query for SOA, NS or everything is one for an apex exactly if the name is the
/// reverse zone or the forward apex of one of our zones, and no other query is.
pub proof fn law_apexes_are_the_names_of_the_zones(
    config: ConfigView,
    qname: NameView,
    qtype: RecordType,
)
    ensures
        handler::asked_apex(config, qname, qtype) is Some <==> (qtype == RecordType::SOA || qtype
            == RecordType::NS || qtype == RecordType::ANY) && exists|i: int|
            0 <= i < config.zones.len() && is_apex_of(#[trigger] config.zones[i], qname),
        handler::asked_apex(config, qname, qtype) matches Some(apex) ==> is_name(apex, qname),
{
    let zones = config.zones;
    let apexes = crate::config::apexes_of(zones);
    lemma_find_name(apexes, qname);
    if let Some(apex) = handler::find_name(apexes, qname) {
        crate::name::law_equal_names_have_equal_labels(apex, qname);
        let i = lemma_zone_of_an_apex(zones, apex);
        assert(is_apex_of(zones[i], qname));
    }
    if exists|i: int| 0 <= i < zones.len() && is_apex_of(#[trigger] zones[i], qname) {
        let i = choose|i: int| 0 <= i < zones.len() && is_apex_of(#[trigger] zones[i], qname);
        crate::name::law_equal_names_have_equal_labels(zones[i].ptr_zone, qname);
        crate::name::law_equal_names_have_equal_labels(zones[i].fwd_parent, qname);
        let at = lemma_apexes_of_a_zone(zones, i);
        if is_name(zones[i].ptr_zone, qname) {
            lemma_same_name_steps(apexes[at.0], zones[i].ptr_zone, qname);
        } else {
            lemma_same_name_steps(apexes[at.1], zones[i].fwd_parent, qname);
        }
    }
}

/// The record is an SOA record of class IN with the configured data: the intervals as
/// far as they fit 31 bits, and a TTL that is the smaller of `ttl` and the minimum.
pub open spec fn is_soa(record: RecordView, soa: SoaView, ttl: u32) -> bool {
    &&& record.dns_class == DNSClass::IN
    &&& record.ttl == (if ttl <= soa.minimum {
        ttl
    } else {
        soa.minimum
    })
    &&& record.data matches RDataView::SOA(data) && {
        &&& data.mname == soa.primary
        &&& data.rname == soa.hostmaster
        &&& data.serial == soa.serial
        &&& data.refresh == (if soa.refresh <= 0x7fff_ffff {
            soa.refresh as int
        } else {
            0x7fff_ffff
        })
        &&& data.retry == (if soa.retry <= 0x7fff_ffff {
            soa.retry as int
        } else {
            0x7fff_ffff
        })
        &&& data.expire == (if soa.expire <= 0x7fff_ffff {
            soa.expire as int
        } else {
            0x7fff_ffff
        })
        &&& data.minimum == soa.minimum
    }
}

/// An apex serves exactly what is configured: the SOA record where it was asked for
/// and there is one, then one NS record for every nameserver, in order, where those
/// were asked for, and nothing else. All are of class IN, owned by the apex, and of
/// the TTL of our zones. The reply is authoritative.
pub proof fn law_apexes_serve_the_soa_and_every_nameserver(
    zones: ZonesView,
    qname: NameView,
    qtype: RecordType,
    qclass: DNSClass,
    z: int,
)
    requires
        qclass == DNSClass::IN || qclass == DNSClass::ANY,
        qtype == RecordType::SOA || qtype == RecordType::NS || qtype == RecordType::ANY,
        0 <= z < zones.config.zones.len(),
        is_apex_of(zones.config.zones[z], qname),
    ensures
        handler::step(zones, qname, qtype, qclass) matches StepView::Answer(reply) && {
            let config = zones.config;
            let ttl = config.zones[0].ttl;
            let soas: int = if qtype != RecordType::NS && config.soa is Some {
                1
            } else {
                0
            };
            let servers: int = if qtype != RecordType::SOA {
                config.nameservers.len() as int
            } else {
                0
            };
            &&& reply.code == ResponseCode::NoError
            &&& reply.authoritative
            &&& reply.answers.len() == soas + servers
            &&& forall|i: int|
                0 <= i < reply.answers.len() ==> is_name((#[trigger] reply.answers[i]).name, qname)
            &&& soas == 1 ==> is_soa(reply.answers[0], config.soa->0, ttl)
            &&& forall|i: int| #![trigger config.nameservers[i]]
                0 <= i < servers ==> {
                    let r = reply.answers[soas + i];
                    &&& r.data == RDataView::NS(config.nameservers[i])
                    &&& r.ttl == ttl
                    &&& r.dns_class == DNSClass::IN
                }
            &&& reply.answers.len() == 0 && config.soa is Some ==> {
                &&& reply.authority.len() == 1
                &&& is_name(reply.authority[0].name, qname)
                &&& is_soa(reply.authority[0], config.soa->0, ttl)
            }
            &&& reply.answers.len() > 0 || config.soa is None ==> reply.authority.len() == 0
            &&& reply.kind == Kind::Answer <==> reply.answers.len() > 0
        },
{
    law_apexes_are_the_names_of_the_zones(zones.config, qname, qtype);
    assert(is_apex_of(zones.config.zones[z], qname));
}

// ---- what is ours and what is not ------------------------------------------

proof fn lemma_apex_is_under(zone: ZoneView, qname: NameView)
    requires
        is_apex_of(zone, qname),
    ensures
        zone::laws::is_under(zone, qname),
{
    crate::name::law_equal_names_have_equal_labels(zone.ptr_zone, qname);
    crate::name::law_equal_names_have_equal_labels(zone.fwd_parent, qname);
    crate::name::law_enclosed_names_end_in_all_labels(zone.ptr_zone, qname);
    crate::name::law_enclosed_names_end_in_all_labels(zone.fwd_parent, qname);
    assert(qname.labels.skip(0) =~= qname.labels);
}

/// We answer with authority, or consult an upstream, only about names that end in all
/// labels of the reverse zone or of the forward apex of one of our zones.
pub proof fn law_authority_ends_at_our_zones(
    zones: ZonesView,
    qname: NameView,
    qtype: RecordType,
    qclass: DNSClass,
) -> (z: int)
    requires
        zones.config.wf(),
        match handler::step(zones, qname, qtype, qclass) {
            StepView::Answer(reply) => reply.authoritative,
            StepView::Consult { .. } => true,
        },
    ensures
        0 <= z < zones.config.zones.len(),
        zone::laws::is_under(zones.config.zones[z], qname),
{
    let config = zones.config;
    law_apexes_are_the_names_of_the_zones(config, qname, qtype);
    zone::laws::law_only_names_under_a_zone_are_ours(config, qname, qtype);
    if handler::asked_apex(config, qname, qtype) is Some {
        let z = choose|i: int|
            0 <= i < config.zones.len() && is_apex_of(#[trigger] config.zones[i], qname);
        lemma_apex_is_under(config.zones[z], qname);
        z
    } else {
        choose|i: int|
            0 <= i < config.zones.len() && zone::laws::is_under(
                #[trigger] config.zones[i],
                qname,
            )
    }
}

/// A name that ends in the labels of none of our zones gets what the configuration
/// says about such names, REFUSED or NXDOMAIN, without authority and without records;
/// so does nothing else.
pub proof fn law_foreign_names_get_the_policy(
    zones: ZonesView,
    qname: NameView,
    qtype: RecordType,
    qclass: DNSClass,
)
    requires
        zones.config.wf(),
        qclass == DNSClass::IN || qclass == DNSClass::ANY,
        qtype != RecordType::AXFR && qtype != RecordType::IXFR,
    ensures
        ({
            let foreign = forall|i: int|
                0 <= i < zones.config.zones.len() ==> !zone::laws::is_under(
                    #[trigger] zones.config.zones[i],
                    qname,
                );
            match handler::step(zones, qname, qtype, qclass) {
                StepView::Answer(reply) => {
                    &&& foreign <==> !reply.authoritative
                    &&& foreign ==> reply.code == (match zones.config.params.out_of_zone {
                        OutOfZonePolicy::Refused => ResponseCode::Refused,
                        OutOfZonePolicy::NxDomain => ResponseCode::NXDomain,
                    })
                    &&& foreign ==> reply.answers.len() == 0 && reply.authority.len() == 0
                    &&& foreign ==> reply.kind == Kind::Negative
                    &&& !foreign ==> reply.code == ResponseCode::NoError || reply.code
                        == ResponseCode::NXDomain
                },
                StepView::Consult { .. } => !foreign,
            }
        }),
{
    let config = zones.config;
    law_apexes_are_the_names_of_the_zones(config, qname, qtype);
    zone::laws::law_only_names_under_a_zone_are_ours(config, qname, qtype);
    if handler::asked_apex(config, qname, qtype) is Some {
        let z = choose|i: int|
            0 <= i < config.zones.len() && is_apex_of(#[trigger] config.zones[i], qname);
        lemma_apex_is_under(config.zones[z], qname);
        assert(zone::laws::is_under(config.zones[z], qname));
    }
}

/// Zone transfers, and every class but IN, are refused: without authority and without
/// records.
pub proof fn law_refusals_are_bare(
    zones: ZonesView,
    qname: NameView,
    qtype: RecordType,
    qclass: DNSClass,
)
    requires
        qtype == RecordType::AXFR || qtype == RecordType::IXFR || qclass is Other,
    ensures
        handler::step(zones, qname, qtype, qclass) == StepView::Answer(
            ReplyView {
                code: ResponseCode::Refused,
                authoritative: false,
                answers: Seq::empty(),
                authority: Seq::empty(),
                kind: Kind::Negative,
            },
        ),
{
}

// ---- what the zones say goes through ---------------------------------------

/// What the zones answer is answered, with authority: the records as they are, and
/// without an SOA where there are any; or no record, as a negative reply. Only the PTR
/// of a zone with an upstream is put to that upstream first, and its records are kept.
pub proof fn law_zone_answers_go_through(
    zones: ZonesView,
    qname: NameView,
    qtype: RecordType,
    qclass: DNSClass,
    zone: ZoneView,
    records: Seq<RecordView>,
)
    requires
        qclass == DNSClass::IN || qclass == DNSClass::ANY,
        qtype != RecordType::AXFR && qtype != RecordType::IXFR,
        handler::asked_apex(zones.config, qname, qtype) is None,
        zone::outcome(zones.config, qname, qtype) == (OutcomeView::Answer { zone, records }),
        zones.config.zones.contains(zone),
        zones.upstreams == handler::upstreams_of(zones.config.zones),
    ensures
        ({
            let put = qtype == RecordType::PTR && records.len() > 0 && zone.upstream is Some;
            match handler::step(zones, qname, qtype, qclass) {
                StepView::Answer(reply) => {
                    &&& !put
                    &&& reply.code == ResponseCode::NoError
                    &&& reply.authoritative
                    &&& reply.answers == records
                    &&& records.len() > 0 ==> reply.authority.len() == 0
                    &&& reply.kind == Kind::Answer <==> records.len() > 0
                },
                StepView::Consult { upstream, synthesized } => {
                    &&& put
                    &&& synthesized == records
                    &&& 0 <= upstream < zones.upstreams.len()
                    &&& zones.upstreams[upstream] == zone.upstream->0
                },
            }
        }),
{
    if let Some(addr) = zone.upstream {
        let k = zones.config.zones.index_of(zone);
        handler::law_every_upstream_is_collected_once(zones.config.zones);
        assert(zones.config.zones[k].upstream is Some);
        let u = zones.upstreams.index_of(addr);
        assert(zones.upstreams[u] == addr);
        handler::lemma_place(zones.upstreams, addr, 0);
    }
}

/// Every address that is collected is the upstream of a zone.
pub proof fn law_only_upstreams_of_zones_are_collected(zones: Seq<ZoneView>, k: int) -> (i: int)
    requires
        0 <= k < handler::upstreams_of(zones).len(),
    ensures
        0 <= i < zones.len(),
        zones[i].upstream == Some(handler::upstreams_of(zones)[k]),
    decreases zones.len(),
{
    let before = handler::upstreams_of(zones.drop_last());
    if k < before.len() {
        let i = law_only_upstreams_of_zones_are_collected(zones.drop_last(), k);
        assert(zones.drop_last()[i] == zones[i]);
        i
    } else {
        zones.len() - 1
    }
}

/// Once an upstream was heard, its records are the answer if it has any, and ours
/// otherwise; either way the reply is a positive one with authority.
pub proof fn law_upstream_records_take_precedence(
    config: ConfigView,
    qname: NameView,
    synthesized: Seq<RecordView>,
    relayed: Seq<RecordView>,
)
    requires
        synthesized.len() > 0,
    ensures
        handler::zone_reply(config, qname, handler::overridden(synthesized, relayed)) == (
        ReplyView {
            code: ResponseCode::NoError,
            authoritative: true,
            answers: if relayed.len() > 0 {
                relayed
            } else {
                synthesized
            },
            authority: Seq::empty(),
            kind: Kind::Answer,
        }),
{
}

/// A name under one of our zones that nothing matches is denied with authority, as a
/// negative reply, and with the SOA of that zone where one is configured: of its
/// reverse zone if the name lies there, else of its forward apex.
pub proof fn law_denials_are_authoritative(
    zones: ZonesView,
    qname: NameView,
    qtype: RecordType,
    qclass: DNSClass,
    zone: ZoneView,
)
    requires
        qclass == DNSClass::IN || qclass == DNSClass::ANY,
        qtype != RecordType::AXFR && qtype != RecordType::IXFR,
        handler::asked_apex(zones.config, qname, qtype) is None,
        zone::outcome(zones.config, qname, qtype) == (OutcomeView::NoName { zone }),
    ensures
        handler::step(zones, qname, qtype, qclass) matches StepView::Answer(reply) && {
            &&& reply.code == ResponseCode::NXDomain
            &&& reply.authoritative
            &&& reply.answers.len() == 0
            &&& reply.kind == Kind::Negative
            &&& zones.config.soa is None ==> reply.authority.len() == 0
            &&& zones.config.soa matches Some(soa) ==> {
                &&& reply.authority.len() == 1
                &&& is_soa(reply.authority[0], soa, zone.ttl)
                &&& reply.authority[0].name == (if crate::name::ends_in(
                    qname.labels,
                    zone.ptr_zone.labels,
                ) {
                    zone.ptr_zone
                } else {
                    zone.fwd_parent
                })
            }
        },
{
    crate::name::law_enclosed_names_end_in_all_labels(zone.ptr_zone, qname);
}

// ---- requests and responses ------------------------------------------------

/// What is no query is answered NOTIMP and what speaks a later EDNS version BADVERS,
/// without authority and without records; everything else is looked into.
pub proof fn law_what_we_do_not_speak_is_declined(request: RequestView)
    ensures
        match handler::screened(request) {
            Some(reply) => {
                &&& !request.is_query || request.edns is Some && request.edns->0.version >= 1
                &&& reply.code == (if !request.is_query {
                    ResponseCode::NotImp
                } else {
                    ResponseCode::BADVERS
                })
                &&& !reply.authoritative
                &&& reply.answers.len() == 0
                &&& reply.authority.len() == 0
            },
            None => request.is_query && (request.edns is None || request.edns->0.version == 0),
        },
{
}

/// A response says what its reply says, never offers recursion and never claims
/// validation. It carries an OPT record exactly if the request did: with our ceiling
/// over TCP, and else with the client's size, but at least 512 and at most the ceiling.
pub proof fn law_responses_say_what_replies_say(
    reply: ReplyView,
    request: RequestView,
    max: u16,
)
    requires
        max >= 512,
    ensures
        ({
            let response = handler::response_with(reply, request, max);
            &&& response.code == reply.code
            &&& response.authoritative == reply.authoritative
            &&& response.answers == reply.answers
            &&& response.authority == reply.authority
            &&& !response.truncated
            &&& !response.recursion_available
            &&& !response.authentic_data
            &&& response.edns_payload is Some <==> request.edns is Some
            &&& request.edns matches Some(edns) ==> {
                let size = response.edns_payload->0;
                &&& request.is_tcp ==> size == max
                &&& !request.is_tcp ==> {
                    &&& 512 <= size <= max
                    &&& 512 <= edns.max_payload <= max ==> size == edns.max_payload
                    &&& edns.max_payload < 512 ==> size == 512
                    &&& edns.max_payload > max ==> size == max
                }
            }
        }),
{
}

/// What the rate limit decides is done: an allowed reply is sent in full, a dropped one
/// not at all, and a truncated one without records and marked as such.
pub proof fn law_decisions_are_carried_out(reply: ReplyView, request: RequestView, max: u16)
    ensures
        handler::disposal(reply, Decision::Allow, request, max) == HandlingView::Respond(
            handler::response_with(reply, request, max),
        ),
        handler::disposal(reply, Decision::Drop, request, max) == HandlingView::Silence,
        handler::disposal(reply, Decision::Truncate, request, max) matches HandlingView::Respond(
            response,
        ) && {
            &&& response.truncated
            &&& response.answers.len() == 0
            &&& response.authority.len() == 0
            &&& response.code == ResponseCode::NoError
            &&& !response.authoritative
            &&& !response.recursion_available
            &&& !response.authentic_data
            &&& response.edns_payload is None
        },
{
}

/// Replies draw from the budget of answers exactly if they have any.
pub proof fn law_empty_replies_draw_from_the_negative_budget(answers: Seq<RecordView>)
    ensures
        handler::kind_of(answers) == (if answers.len() == 0 {
            Kind::Negative
        } else {
            Kind::Answer
        }),
{
}

// ---- listen addresses ------------------------------------------------------

/// Every value of the command line counts, in order: if each denotes an address, those
/// are listened on, and else none is. Whitespace around a value plays no part.
pub proof fn law_every_listen_value_counts(values: Seq<Seq<char>>)
    ensures
        match bind::cli_addrs(values) {
            Ok(addrs) => {
                &&& addrs.len() == values.len()
                &&& forall|i: int|
                    0 <= i < values.len() ==> compile::listen_of_text(
                        text::trimmed(#[trigger] values[i]),
                    ) == Some(addrs[i])
            },
            Err(_) => exists|i: int|
                0 <= i < values.len() && compile::listen_of_text(
                    text::trimmed(#[trigger] values[i]),
                ) is None,
        },
    decreases values.len(),
{
    if values.len() > 0 {
        let rest = values.drop_last();
        law_every_listen_value_counts(rest);
        let last = values.len() - 1;
        match bind::cli_addrs(rest) {
            Ok(_) => {
                if compile::listen_of_text(text::trimmed(values[last])) is Some {
                    assert forall|i: int| 0 <= i < values.len() implies compile::listen_of_text(
                        text::trimmed(#[trigger] values[i]),
                    ) == Some(bind::cli_addrs(values)->Ok_0[i]) by {
                        if i < last {
                            assert(rest[i] == values[i]);
                        }
                    }
                }
            },
            Err(_) => {
                let i = choose|i: int|
                    0 <= i < rest.len() && compile::listen_of_text(
                        text::trimmed(#[trigger] rest[i]),
                    ) is None;
                assert(rest[i] == values[i]);
            },
        }
    }
}

/// Where nothing is said we listen on all IPv4 and all IPv6 addresses, at the port
/// given and nowhere else.
pub proof fn law_wildcards_cover_both_families(port: u16, at: ListenAddr)
    ensures
        bind::wildcards(port).contains(at) <==> at.port == port && (at.addr == IpAddr::V4(0)
            || at.addr == IpAddr::V6(0)),
        bind::wildcards(port).len() == 2,
{
    let w = bind::wildcards(port);
    assert(w[0] == ListenAddr { addr: IpAddr::V4(0), port });
    assert(w[1] == ListenAddr { addr: IpAddr::V6(0), port });
}

/// What an address with a port denotes: of a text without a colon in it that is an IPv4
/// address, a colon and decimal digits, that address and port; likewise of an IPv6
/// address in brackets. A bare address gets port 53.
pub proof fn law_listen_values_denote_address_and_port(
    host: Seq<char>,
    port: nat,
    v4: u32,
    v6: u128,
)
    requires
        port <= 0xffff,
    ensures
        net::ipv4_text(host) == Some(v4) && !host.contains(':') && !host.contains('[') ==> {
            &&& compile::listen_of_text(host + seq![':'] + text::decimal(port)) == Some(
                ListenAddr { addr: IpAddr::V4(v4), port: port as u16 },
            )
            &&& compile::listen_of_text(host) == Some(
                ListenAddr { addr: IpAddr::V4(v4), port: 53 },
            )
        },
        net::ipv6_text(host) == Some(v6) && !host.contains(']') && !host.contains('%')
            ==> compile::listen_of_text(
            seq!['['] + host + seq![']'] + seq![':'] + text::decimal(port),
        ) == Some(ListenAddr { addr: IpAddr::V6(v6), port: port as u16 }),
{
    let digits = text::decimal(port);
    text::law_decimal_reads_back(port, 0xffff);
    if net::ipv4_text(host) == Some(v4) && !host.contains(':') && !host.contains('[') {
        let s = host + seq![':'] + digits;
        text::lemma_index_behind(host, ':', digits);
        text::law_first_place_of_a_character(host, ':');
        if s[0] == '[' {
            assert(host.len() > 0 ==> host[0] == '[');
        }
        if host.len() > 0 && host[0] == '[' {
            assert(host.contains('['));
        }
    }
    if net::ipv6_text(host) == Some(v6) && !host.contains(']') && !host.contains('%') {
        let tail = seq![':'] + digits;
        let open = seq!['['] + host;
        let s = seq!['['] + host + seq![']'] + seq![':'] + digits;
        assert(s =~= open + seq![']'] + tail);
        assert(!open.contains(']')) by {
            if open.contains(']') {
                let i = open.index_of(']');
                assert(open[i] == ']');
                if i > 0 {
                    assert(host[i - 1] == ']');
                }
            }
        }
        text::lemma_index_behind(open, ']', tail);
        let close = open.len() as int;
        let inner = s.subrange(1, close);
        assert(inner =~= host);
        text::law_first_place_of_a_character(host, '%');
        assert(host.take(host.len() as int) =~= host);
        assert(s[close + 1] == ':');
        assert(s.skip(close + 2) =~= digits);
    }
}

/// A reply that is put to the rate limit draws from the budget of its kind, for the client
/// that asked, and from nothing else; and the first reply to a client is sent in full.
pub proof fn law_replies_draw_from_their_own_budget(
    before: crate::rrl::RrlView,
    after: crate::rrl::RrlView,
    reply: ReplyView,
    request: RequestView,
    max: u16,
    handling: HandlingView,
    other: Kind,
    key: (u8, u64),
)
    requires
        handler::limited(before, after, reply, request, max, handling),
    ensures
        other != reply.kind || key != before.slot_of(request.src) ==> {
            &&& before.budget(other).contains_key(key) == after.budget(other).contains_key(key)
            &&& before.budget(other).contains_key(key) ==> before.budget(other)[key]
                == after.budget(other)[key]
        },
        !before.budget(reply.kind).contains_key(before.slot_of(request.src)) ==> handling
            == HandlingView::Respond(handler::response_with(reply, request, max)),
        !(handling is Consult),
{
    let decision = choose|decision: Decision|
        {
            &&& #[trigger] crate::rrl::decided(
                before,
                after,
                request.src,
                reply.kind,
                request.is_tcp,
                decision,
            )
            &&& handling == handler::disposal(reply, decision, request, max)
        };
    if other != reply.kind || key != before.slot_of(request.src) {
        crate::rrl::law_a_decision_touches_one_bucket(
            before,
            after,
            request.src,
            reply.kind,
            request.is_tcp,
            decision,
            other,
            key,
        );
    }
}

/// There is advice for a port below 1024 that may not be bound and for an address that is
/// not there, and for nothing else.
pub proof fn law_advice_is_given_where_there_is_any(port: u16, failure: bind::BindFailure)
    ensures
        bind::bind_hint(port, failure).len() > 0 <==> failure
            == bind::BindFailure::PermissionDenied && port < 1024 || failure
            == bind::BindFailure::AddrNotAvailable,
        bind::bind_hint(80, bind::BindFailure::PermissionDenied) != bind::bind_hint(
            80,
            bind::BindFailure::AddrNotAvailable,
        ),
{
    reveal_strlit("");
    reveal_strlit(
        " (binding a port below 1024 needs CAP_NET_BIND_SERVICE, or run with --sysctl net.ipv4.ip_unprivileged_port_start=0, or pick a high port and publish it)",
    );
    reveal_strlit(
        " (the address does not exist on this host — a config copied from elsewhere often hardcodes addresses; override with --listen)",
    );
    assert(bind::bind_hint(80, bind::BindFailure::PermissionDenied)[2] == 'b');
    assert(bind::bind_hint(80, bind::BindFailure::AddrNotAvailable)[2] == 't');
}

} // verus!
