//! What to answer, decided without sockets.
//!
//! A request becomes a [`Handling`]: a response, silence, or an upstream to
//! consult first. The rate limit is applied to the *response*, after we know
//! whether it is an answer or a negative, because the two have separate budgets.

use vstd::prelude::*;

use crate::config::{
    Config, ConfigErrors, ConfigView, OutOfZonePolicy, SoaParams, SoaView, ZoneView,
};
use crate::name::{Name, NameView};
use crate::net::IpAddr;
use crate::record;
use crate::record::{
    DNSClass, RData, RDataView, Record, RecordType, RecordView, SoaData, SoaDataView,
};
use crate::rrl;
use crate::rrl::{Decision, Kind, Rrl};
use crate::text;
use crate::zone;
use crate::zone::{resolve, Outcome, OutcomeView};

verus! {

/// The response codes this server gives.
#[derive(Debug, Clone, Copy, PartialEq, Eq, Structural)]
pub enum ResponseCode {
    NoError,
    NXDomain,
    NotImp,
    Refused,
    BADVERS,
}

/// The configuration, with the distinct upstream addresses it names.
#[derive(Debug, Clone, PartialEq, Eq)]
pub struct Zones {
    pub config: Config,
    pub upstreams: Vec<IpAddr>,
}

#[verifier::ext_equal]
pub struct ZonesView {
    pub config: ConfigView,
    pub upstreams: Seq<IpAddr>,
}

impl View for Zones {
    type V = ZonesView;

    open spec fn view(&self) -> ZonesView {
        ZonesView { config: self.config@, upstreams: self.upstreams@ }
    }
}

/// The distinct upstream addresses of zones, in order.
pub open spec fn upstreams_of(zones: Seq<ZoneView>) -> Seq<IpAddr>
    decreases zones.len(),
{
    if zones.len() == 0 {
        Seq::empty()
    } else {
        let before = upstreams_of(zones.drop_last());
        match zones.last().upstream {
            Some(addr) => if before.contains(addr) {
                before
            } else {
                before.push(addr)
            },
            None => before,
        }
    }
}

/// Where an address stands in a list, from `i` on.
pub open spec fn place_of(addrs: Seq<IpAddr>, addr: IpAddr, i: int) -> Option<int>
    decreases addrs.len() - i,
{
    if i < 0 || i >= addrs.len() {
        None
    } else if addrs[i] == addr {
        Some(i)
    } else {
        place_of(addrs, addr, i + 1)
    }
}

fn find_addr(addrs: &Vec<IpAddr>, addr: IpAddr) -> (r: Option<usize>)
    ensures
        place_of(addrs@, addr, 0) == (match r {
            Some(i) => Some(i as int),
            None => None,
        }),
        r matches Some(i) ==> i < addrs.len() && addrs@[i as int] == addr,
        r is None ==> !addrs@.contains(addr),
{
    for i in 0..addrs.len()
        invariant
            place_of(addrs@, addr, 0) == place_of(addrs@, addr, i as int),
            forall|k: int| 0 <= k < i ==> addrs@[k] != addr,
    {
        if addrs[i] == addr {
            return Some(i);
        }
    }
    None
}

impl Zones {
    /// Collect the upstreams a config calls for.
    pub fn new(config: Config) -> (r: Self)
        ensures
            r@.config == config@,
            r@.upstreams == upstreams_of(config@.zones),
    {
        let ghost zones = config@.zones;
        let mut upstreams: Vec<IpAddr> = Vec::new();
        for i in 0..config.zones.len()
            invariant
                zones == config@.zones,
                upstreams@ == upstreams_of(zones.take(i as int)),
        {
            proof {
                assert(zones.take(i + 1).drop_last() =~= zones.take(i as int));
                assert(zones[i as int] == config.zones@[i as int]@);
            }
            if let Some(addr) = config.zones[i].upstream {
                if find_addr(&upstreams, addr).is_none() {
                    upstreams.push(addr);
                }
            }
        }
        assert(zones.take(zones.len() as int) =~= zones);
        Zones { config, upstreams }
    }
}

/// The zones in force after a reload from a file with this body, and what was wrong
/// with the file, if anything.
///
/// A file with a problem leaves the running configuration in force: a typo must not
/// take the service down.
pub fn reload(active: Zones, body: &str) -> (r: (Zones, Option<ConfigErrors>))
    ensures
        crate::config::compile::errors_in(body@).len() == 0 ==> {
            &&& r.0@.config == crate::config::compile::config_in(body@)
            &&& r.0@.config.wf()
            &&& r.0@.upstreams == upstreams_of(r.0@.config.zones)
            &&& r.1 is None
        },
        crate::config::compile::errors_in(body@).len() > 0 ==> {
            &&& r.0@ == active@
            &&& r.1 matches Some(e) && e@.errors == crate::config::compile::errors_in(body@)
                && e@.path is None
        },
{
    match Config::parse(body) {
        Ok(config) => (Zones::new(config), None),
        Err(errors) => (active, Some(errors)),
    }
}

/// What we decided to answer, before it is serialised.
#[derive(Debug, PartialEq, Eq)]
pub struct Reply {
    pub code: ResponseCode,
    pub authoritative: bool,
    pub answers: Vec<Record>,
    /// The SOA of a negative answer.
    pub authority: Vec<Record>,
    pub kind: Kind,
}

#[verifier::ext_equal]
pub struct ReplyView {
    pub code: ResponseCode,
    pub authoritative: bool,
    pub answers: Seq<RecordView>,
    pub authority: Seq<RecordView>,
    pub kind: Kind,
}

impl View for Reply {
    type V = ReplyView;

    open spec fn view(&self) -> ReplyView {
        ReplyView {
            code: self.code,
            authoritative: self.authoritative,
            answers: text::views(self.answers@),
            authority: text::views(self.authority@),
            kind: self.kind,
        }
    }
}

/// A negative reply without any record.
pub open spec fn bare_reply(code: ResponseCode) -> ReplyView {
    ReplyView {
        code,
        authoritative: false,
        answers: Seq::empty(),
        authority: Seq::empty(),
        kind: Kind::Negative,
    }
}

/// The budget that a reply with these answers draws from.
pub open spec fn kind_of(answers: Seq<RecordView>) -> Kind {
    if answers.len() == 0 {
        Kind::Negative
    } else {
        Kind::Answer
    }
}

impl Reply {
    pub fn refused() -> (r: Self)
        ensures
            r@ == bare_reply(ResponseCode::Refused),
    {
        Self::error(ResponseCode::Refused)
    }

    pub fn error(code: ResponseCode) -> (r: Self)
        ensures
            r@ == bare_reply(code),
    {
        Reply {
            code,
            authoritative: false,
            answers: record::no_records(),
            authority: record::no_records(),
            kind: Kind::Negative,
        }
    }
}

/// An interval as SOA records carry it: a signed number.
pub open spec fn signed(n: u32) -> i32 {
    if n <= i32::MAX {
        n as i32
    } else {
        i32::MAX
    }
}

fn to_signed(n: u32) -> (r: i32)
    ensures
        r == signed(n),
{
    if n <= 0x7fff_ffff {
        n as i32
    } else {
        0x7fff_ffff
    }
}

/// The SOA record of an apex. The negative-caching TTL is min(SOA TTL, SOA
/// MINIMUM) per RFC 2308.
pub open spec fn soa_answer(apex: NameView, soa: SoaView, ttl: u32) -> RecordView {
    record::internet_record(
        apex,
        if ttl < soa.minimum {
            ttl
        } else {
            soa.minimum
        },
        RDataView::SOA(
            SoaDataView {
                mname: soa.primary,
                rname: soa.hostmaster,
                serial: soa.serial,
                refresh: signed(soa.refresh),
                retry: signed(soa.retry),
                expire: signed(soa.expire),
                minimum: soa.minimum,
            },
        ),
    )
}

/// Build the SOA record for a zone apex, used to make negative answers cacheable.
pub fn soa_record(apex: &Name, soa: &SoaParams, ttl: u32) -> (r: Record)
    ensures
        r@ == soa_answer(apex@, soa@, ttl),
{
    let data = SoaData {
        mname: soa.primary.clone(),
        rname: soa.hostmaster.clone(),
        serial: soa.serial,
        refresh: to_signed(soa.refresh),
        retry: to_signed(soa.retry),
        expire: to_signed(soa.expire),
        minimum: soa.minimum,
    };
    let ttl: u32 = if ttl < soa.minimum {
        ttl
    } else {
        soa.minimum
    };
    Record::from_rdata(apex.clone(), ttl, RData::SOA(data))
}

/// The NS records of an apex.
pub open spec fn ns_answers(apex: NameView, config: ConfigView, ttl: u32) -> Seq<RecordView> {
    Seq::new(
        config.nameservers.len(),
        |i: int| record::internet_record(apex, ttl, RDataView::NS(config.nameservers[i])),
    )
}

pub fn ns_records(apex: &Name, config: &Config, ttl: u32) -> (r: Vec<Record>)
    ensures
        text::views(r@) == ns_answers(apex@, config@, ttl),
{
    let ghost want = ns_answers(apex@, config@, ttl);
    let mut out: Vec<Record> = Vec::new();
    assert(text::views(out@) =~= want.take(0));
    for i in 0..config.nameservers.len()
        invariant
            want == ns_answers(apex@, config@, ttl),
            text::views(out@) == want.take(i as int),
    {
        let ns = config.nameservers[i].clone();
        let ns_record = Record::from_rdata(apex.clone(), ttl, RData::NS(ns));
        proof {
            assert(config@.nameservers[i as int] == config.nameservers@[i as int]@);
            text::lemma_views_push(out@, ns_record);
            assert(want.take(i + 1) =~= want.take(i as int).push(ns_record@));
        }
        out.push(ns_record);
    }
    assert(want.take(want.len() as int) =~= want);
    out
}

// ---- apexes ----------------------------------------------------------------

/// The first name in a list that equals `name`.
pub open spec fn find_name(names: Seq<NameView>, name: NameView) -> Option<NameView>
    decreases names.len(),
{
    if names.len() == 0 {
        None
    } else if crate::name::same_name(names[0], name) {
        Some(names[0])
    } else {
        find_name(names.drop_first(), name)
    }
}

/// The TTL of apex records.
pub open spec fn apex_ttl(config: ConfigView) -> u32 {
    if config.zones.len() > 0 {
        config.zones[0].ttl
    } else {
        3600
    }
}

/// The SOA record of an apex, where SOA data is configured.
pub open spec fn soa_answers(apex: NameView, config: ConfigView, ttl: u32) -> Seq<RecordView> {
    match config.soa {
        Some(soa) => seq![soa_answer(apex, soa, ttl)],
        None => Seq::empty(),
    }
}

/// The SOA and NS records an apex is asked for.
pub open spec fn apex_answers(apex: NameView, config: ConfigView, qtype: RecordType) -> Seq<
    RecordView,
> {
    let ttl = apex_ttl(config);
    (if qtype == RecordType::SOA || qtype == RecordType::ANY {
        soa_answers(apex, config, ttl)
    } else {
        Seq::empty()
    }) + (if qtype == RecordType::NS || qtype == RecordType::ANY {
        ns_answers(apex, config, ttl)
    } else {
        Seq::empty()
    })
}

/// The reply to a query for an apex. Where it holds nothing that was asked for, the
/// SOA makes the negative answer cacheable.
pub open spec fn apex_reply(apex: NameView, config: ConfigView, qtype: RecordType) -> ReplyView {
    let answers = apex_answers(apex, config, qtype);
    ReplyView {
        code: ResponseCode::NoError,
        authoritative: true,
        answers,
        authority: if answers.len() == 0 {
            soa_answers(apex, config, apex_ttl(config))
        } else {
            Seq::empty()
        },
        kind: kind_of(answers),
    }
}

/// The apex that a query for SOA, NS or everything names.
pub open spec fn asked_apex(config: ConfigView, qname: NameView, qtype: RecordType) -> Option<
    NameView,
> {
    if qtype == RecordType::SOA || qtype == RecordType::NS || qtype == RecordType::ANY {
        find_name(crate::config::apexes_of(config.zones), qname)
    } else {
        None
    }
}

fn find_apex(apexes: &Vec<Name>, qname: &Name) -> (r: Option<usize>)
    ensures
        match r {
            Some(i) => i < apexes.len() && find_name(text::views(apexes@), qname@) == Some(
                apexes@[i as int]@,
            ),
            None => find_name(text::views(apexes@), qname@) is None,
        },
{
    let ghost all = text::views(apexes@);
    assert(all.skip(0) =~= all);
    for i in 0..apexes.len()
        invariant
            all == text::views(apexes@),
            find_name(all, qname@) == find_name(all.skip(i as int), qname@),
    {
        assert(all.skip(i as int)[0] == apexes@[i as int]@);
        if apexes[i].same(qname) {
            return Some(i);
        }
        assert(all.skip(i as int).drop_first() =~= all.skip(i + 1));
    }
    None
}

/// The answer to a query for an apex we serve.
fn answer_apex(apex: &Name, config: &Config, qtype: RecordType) -> (r: Reply)
    ensures
        r@ == apex_reply(apex@, config@, qtype),
{
    let ttl: u32 = if config.zones.len() > 0 {
        config.zones[0].ttl
    } else {
        3600
    };
    assert(ttl == apex_ttl(config@));
    let mut answers = record::no_records();
    if qtype == RecordType::SOA || qtype == RecordType::ANY {
        if let Some(soa) = &config.soa {
            answers = record::one_record(soa_record(apex, soa, ttl));
        }
    }
    let ghost head = text::views(answers@);
    let ghost first = answers@;
    if qtype == RecordType::NS || qtype == RecordType::ANY {
        let mut more = ns_records(apex, config, ttl);
        let ghost second = more@;
        answers.append(&mut more);
        assert(text::views(answers@) =~= head + text::views(second));
    } else {
        assert(head + Seq::<RecordView>::empty() =~= head);
    }
    assert(text::views(answers@) =~= apex_answers(apex@, config@, qtype));
    assert(text::views(answers@).len() == answers@.len());
    if answers.len() > 0 {
        return Reply {
            code: ResponseCode::NoError,
            authoritative: true,
            answers,
            authority: record::no_records(),
            kind: Kind::Answer,
        };
    }
    let authority = match &config.soa {
        Some(soa) => record::one_record(soa_record(apex, soa, ttl)),
        None => record::no_records(),
    };
    Reply { code: ResponseCode::NoError, authoritative: true, answers, authority, kind: Kind::Negative }
}

// ---- negative answers ------------------------------------------------------

/// The apex of a zone that a name lies under: the reverse one first.
pub open spec fn apex_above(zone: ZoneView, qname: NameView) -> NameView {
    if crate::name::encloses(zone.ptr_zone, qname) {
        zone.ptr_zone
    } else {
        zone.fwd_parent
    }
}

/// The SOA for the authority section of a NODATA answer: that of the first zone
/// the name lies in.
pub open spec fn nodata_authority(config: ConfigView, qname: NameView) -> Seq<RecordView> {
    match zone::lookup::zone_around(config.zones, qname) {
        Some(zone) => soa_answers(apex_above(zone, qname), config, zone.ttl),
        None => Seq::empty(),
    }
}

/// The SOA for the authority section of a NODATA answer.
pub fn negative_authority(config: &Config, qname: &Name, kind: Kind) -> (r: Vec<Record>)
    ensures
        text::views(r@) == (if kind == Kind::Negative {
            nodata_authority(config@, qname@)
        } else {
            Seq::empty()
        }),
{
    if kind != Kind::Negative {
        return record::no_records();
    }
    match &config.soa {
        Some(soa) => match zone::lookup::zone_containing(config, qname) {
            Some(zone) => {
                let apex = if zone.ptr_zone.zone_of(qname) {
                    &zone.ptr_zone
                } else {
                    &zone.fwd_parent
                };
                record::one_record(soa_record(apex, soa, zone.ttl))
            },
            None => record::no_records(),
        },
        None => record::no_records(),
    }
}

// ---- the decision ----------------------------------------------------------

/// What to do about a query.
#[derive(Debug, PartialEq, Eq)]
pub enum Step {
    /// This is the reply.
    Answer(Reply),
    /// Ask the upstream with this index whether it overrides the PTR; these are
    /// the records where it does not.
    Consult { upstream: usize, synthesized: Vec<Record> },
}

#[verifier::ext_equal]
pub enum StepView {
    Answer(ReplyView),
    Consult { upstream: int, synthesized: Seq<RecordView> },
}

impl View for Step {
    type V = StepView;

    open spec fn view(&self) -> StepView {
        match *self {
            Step::Answer(reply) => StepView::Answer(reply@),
            Step::Consult { upstream, synthesized } => StepView::Consult {
                upstream: upstream as int,
                synthesized: text::views(synthesized@),
            },
        }
    }
}

/// The reply with records of a zone. We hold the delegation, so answers *and*
/// NODATA are authoritative.
pub open spec fn zone_reply(config: ConfigView, qname: NameView, records: Seq<RecordView>) ->
    ReplyView {
    ReplyView {
        code: ResponseCode::NoError,
        authoritative: true,
        answers: records,
        authority: if records.len() == 0 {
            nodata_authority(config, qname)
        } else {
            Seq::empty()
        },
        kind: kind_of(records),
    }
}

/// The upstream to consult about an answer: that of the zone, if the query is for
/// a PTR and there is something to override.
pub open spec fn consulted(zones: ZonesView, zone: ZoneView, qtype: RecordType, records: Seq<
    RecordView,
>) -> Option<int> {
    if records.len() > 0 && qtype == RecordType::PTR {
        match zone.upstream {
            Some(addr) => place_of(zones.upstreams, addr, 0),
            None => None,
        }
    } else {
        None
    }
}

/// What the zones say about a query.
pub open spec fn zone_step(zones: ZonesView, qname: NameView, qtype: RecordType) -> StepView {
    let config = zones.config;
    match zone::outcome(config, qname, qtype) {
        OutcomeView::Answer { zone, records } => match consulted(zones, zone, qtype, records) {
            Some(upstream) => StepView::Consult { upstream, synthesized: records },
            None => StepView::Answer(zone_reply(config, qname, records)),
        },
        // Inside our namespace but nothing there: NXDOMAIN with the SOA so the
        // negative answer is cacheable.
        OutcomeView::NoName { zone } => StepView::Answer(
            ReplyView {
                code: ResponseCode::NXDomain,
                authoritative: true,
                answers: Seq::empty(),
                authority: soa_answers(apex_above(zone, qname), config, zone.ttl),
                kind: Kind::Negative,
            },
        ),
        OutcomeView::NoZone => StepView::Answer(
            bare_reply(
                match config.params.out_of_zone {
                    OutOfZonePolicy::Refused => ResponseCode::Refused,
                    OutOfZonePolicy::NxDomain => ResponseCode::NXDomain,
                },
            ),
        ),
    }
}

/// What to do about a query.
pub open spec fn step(zones: ZonesView, qname: NameView, qtype: RecordType, qclass: DNSClass) ->
    StepView {
    let config = zones.config;
    if qclass != DNSClass::IN && qclass != DNSClass::ANY {
        StepView::Answer(bare_reply(ResponseCode::Refused))
    } else if qtype == RecordType::AXFR || qtype == RecordType::IXFR {
        StepView::Answer(bare_reply(ResponseCode::Refused))
    } else {
        match asked_apex(config, qname, qtype) {
            Some(apex) => StepView::Answer(apex_reply(apex, config, qtype)),
            None => zone_step(zones, qname, qtype),
        }
    }
}

/// The reply with records of a zone.
fn reply_with(config: &Config, qname: &Name, records: Vec<Record>) -> (r: Reply)
    ensures
        r@ == zone_reply(config@, qname@, text::views(records@)),
{
    let kind = if records.len() == 0 {
        Kind::Negative
    } else {
        Kind::Answer
    };
    assert(text::views(records@).len() == records@.len());
    let authority = negative_authority(config, qname, kind);
    Reply { code: ResponseCode::NoError, authoritative: true, answers: records, authority, kind }
}

/// Decide what to answer, up to asking an upstream.
pub fn decide(zones: &Zones, qname: &Name, qtype: RecordType, qclass: DNSClass) -> (r: Step)
    ensures
        r@ == step(zones@, qname@, qtype, qclass),
        r matches Step::Consult { upstream, .. } ==> upstream < zones.upstreams.len(),
{
    let config = &zones.config;
    // Authoritative-only: we never serve anything outside class IN.
    if qclass != DNSClass::IN && qclass != DNSClass::ANY {
        return Step::Answer(Reply::refused());
    }
    // A /64 cannot be transferred and we hold no zone data, so decline rather than
    // pretend.
    if qtype == RecordType::AXFR || qtype == RecordType::IXFR {
        return Step::Answer(Reply::refused());
    }
    // Apex queries: SOA and NS for a zone origin we serve.
    if qtype == RecordType::SOA || qtype == RecordType::NS || qtype == RecordType::ANY {
        let apexes = config.apexes();
        if let Some(i) = find_apex(&apexes, qname) {
            return Step::Answer(answer_apex(&apexes[i], config, qtype));
        }
    }
    match resolve(config, qname, qtype) {
        Outcome::Answer { zone, records } => {
            assert(text::views(records@).len() == records@.len());
            // An upstream may override a PTR with a real hostname. Only ever
            // consulted for a name our own zones already matched, so this can
            // never become an open forwarder.
            if records.len() > 0 && qtype == RecordType::PTR {
                if let Some(addr) = zone.upstream {
                    if let Some(upstream) = find_addr(&zones.upstreams, addr) {
                        return Step::Consult { upstream, synthesized: records };
                    }
                }
            }
            Step::Answer(reply_with(config, qname, records))
        },
        Outcome::NoName { zone } => {
            let apex = if zone.ptr_zone.zone_of(qname) {
                &zone.ptr_zone
            } else {
                &zone.fwd_parent
            };
            let authority = match &config.soa {
                Some(soa) => record::one_record(soa_record(apex, soa, zone.ttl)),
                None => record::no_records(),
            };
            Step::Answer(
                Reply {
                    code: ResponseCode::NXDomain,
                    authoritative: true,
                    answers: record::no_records(),
                    authority,
                    kind: Kind::Negative,
                },
            )
        },
        Outcome::NoZone => match config.params.out_of_zone {
            // Not our namespace: declining is both correct and smaller than a
            // synthesized NXDOMAIN, which matters for amplification.
            OutOfZonePolicy::Refused => Step::Answer(Reply::refused()),
            OutOfZonePolicy::NxDomain => Step::Answer(Reply::error(ResponseCode::NXDomain)),
        },
    }
}

/// The records to answer with, once an upstream was consulted: its own, if it has
/// any.
pub open spec fn overridden(synthesized: Seq<RecordView>, relayed: Seq<RecordView>) -> Seq<
    RecordView,
> {
    if relayed.len() > 0 {
        relayed
    } else {
        synthesized
    }
}

/// The reply once an upstream was consulted.
pub fn conclude(
    zones: &Zones,
    qname: &Name,
    synthesized: Vec<Record>,
    relayed: Vec<Record>,
) -> (r: Reply)
    ensures
        r@ == zone_reply(
            zones@.config,
            qname@,
            overridden(text::views(synthesized@), text::views(relayed@)),
        ),
{
    assert(text::views(relayed@).len() == relayed@.len());
    if relayed.len() > 0 {
        reply_with(&zones.config, qname, relayed)
    } else {
        reply_with(&zones.config, qname, synthesized)
    }
}

// ---- requests and responses ------------------------------------------------

/// The EDNS options of a request.
#[derive(Debug, Clone, Copy, PartialEq, Eq, Structural)]
pub struct EdnsRequest {
    pub version: u8,
    /// The largest UDP response the client takes.
    pub max_payload: u16,
}

/// What matters of a request.
#[derive(Debug, PartialEq, Eq)]
pub struct Request {
    /// Whether this is a standard query, rather than a NOTIFY, an UPDATE or the
    /// like.
    pub is_query: bool,
    pub edns: Option<EdnsRequest>,
    pub qname: Name,
    pub qtype: RecordType,
    pub qclass: DNSClass,
    pub src: IpAddr,
    pub is_tcp: bool,
}

#[verifier::ext_equal]
pub struct RequestView {
    pub is_query: bool,
    pub edns: Option<EdnsRequest>,
    pub qname: NameView,
    pub qtype: RecordType,
    pub qclass: DNSClass,
    pub src: IpAddr,
    pub is_tcp: bool,
}

impl View for Request {
    type V = RequestView;

    open spec fn view(&self) -> RequestView {
        RequestView {
            is_query: self.is_query,
            edns: self.edns,
            qname: self.qname@,
            qtype: self.qtype,
            qclass: self.qclass,
            src: self.src,
            is_tcp: self.is_tcp,
        }
    }
}

/// A response, before it is serialised.
#[derive(Debug, PartialEq, Eq)]
pub struct Response {
    pub code: ResponseCode,
    pub authoritative: bool,
    pub truncated: bool,
    pub recursion_available: bool,
    pub authentic_data: bool,
    /// The UDP payload size to advertise in an OPT record of version 0; without
    /// it there is no OPT record.
    pub edns_payload: Option<u16>,
    pub answers: Vec<Record>,
    pub authority: Vec<Record>,
}

#[verifier::ext_equal]
pub struct ResponseView {
    pub code: ResponseCode,
    pub authoritative: bool,
    pub truncated: bool,
    pub recursion_available: bool,
    pub authentic_data: bool,
    pub edns_payload: Option<u16>,
    pub answers: Seq<RecordView>,
    pub authority: Seq<RecordView>,
}

impl View for Response {
    type V = ResponseView;

    open spec fn view(&self) -> ResponseView {
        ResponseView {
            code: self.code,
            authoritative: self.authoritative,
            truncated: self.truncated,
            recursion_available: self.recursion_available,
            authentic_data: self.authentic_data,
            edns_payload: self.edns_payload,
            answers: text::views(self.answers@),
            authority: text::views(self.authority@),
        }
    }
}

/// The payload size to advertise: an OPT is echoed if the client sent one, with
/// its size brought between 512 and our ceiling; over TCP the ceiling itself.
pub open spec fn advertised(edns: Option<EdnsRequest>, is_tcp: bool, max: u16) -> Option<u16> {
    match edns {
        Some(edns) => Some(
            if is_tcp || edns.max_payload > max {
                max
            } else if edns.max_payload < 512 {
                512
            } else {
                edns.max_payload
            },
        ),
        None => None,
    }
}

/// The response that carries a reply. Authoritative-only server: we never offer
/// recursion, and we never assert DNSSEC validation we did not do.
pub open spec fn response_with(reply: ReplyView, request: RequestView, max: u16) -> ResponseView {
    ResponseView {
        code: reply.code,
        authoritative: reply.authoritative,
        truncated: false,
        recursion_available: false,
        authentic_data: false,
        edns_payload: advertised(request.edns, request.is_tcp, max),
        answers: reply.answers,
        authority: reply.authority,
    }
}

/// An empty truncated response.
pub open spec fn truncated_response() -> ResponseView {
    ResponseView {
        code: ResponseCode::NoError,
        authoritative: false,
        truncated: true,
        recursion_available: false,
        authentic_data: false,
        edns_payload: None,
        answers: Seq::empty(),
        authority: Seq::empty(),
    }
}

/// Put a reply into a response.
///
/// A ceiling below 512 bytes cannot be configured.
pub fn send(reply: Reply, request: &Request, max_udp_payload: u16) -> (r: Response)
    requires
        max_udp_payload >= 512,
    ensures
        r@ == response_with(reply@, request@, max_udp_payload),
{
    let edns_payload: Option<u16> = match request.edns {
        Some(edns) => Some(
            if request.is_tcp || edns.max_payload > max_udp_payload {
                max_udp_payload
            } else if edns.max_payload < 512 {
                512
            } else {
                edns.max_payload
            },
        ),
        None => None,
    };
    Response {
        code: reply.code,
        authoritative: reply.authoritative,
        truncated: false,
        recursion_available: false,
        authentic_data: false,
        edns_payload,
        answers: reply.answers,
        authority: reply.authority,
    }
}

/// How a request is handled.
#[derive(Debug, PartialEq, Eq)]
pub enum Handling {
    /// Send this response.
    Respond(Response),
    /// Send nothing: a dropped response is what makes us useless as a reflector.
    Silence,
    /// Consult the upstream with this index about the PTR of the query, and come
    /// back to [`finish`] with what it said.
    Consult { upstream: usize, synthesized: Vec<Record> },
}

#[verifier::ext_equal]
pub enum HandlingView {
    Respond(ResponseView),
    Silence,
    Consult { upstream: int, synthesized: Seq<RecordView> },
}

impl View for Handling {
    type V = HandlingView;

    open spec fn view(&self) -> HandlingView {
        match *self {
            Handling::Respond(response) => HandlingView::Respond(response@),
            Handling::Silence => HandlingView::Silence,
            Handling::Consult { upstream, synthesized } => HandlingView::Consult {
                upstream: upstream as int,
                synthesized: text::views(synthesized@),
            },
        }
    }
}

/// How a reply is handled, given what the rate limit says.
pub open spec fn disposal(
    reply: ReplyView,
    decision: Decision,
    request: RequestView,
    max: u16,
) -> HandlingView {
    match decision {
        Decision::Allow => HandlingView::Respond(response_with(reply, request, max)),
        Decision::Drop => HandlingView::Silence,
        Decision::Truncate => HandlingView::Respond(truncated_response()),
    }
}

/// The reply to a request that is no query we understand: NOTIFY and UPDATE are
/// not implemented, and we speak EDNS version 0 only.
pub open spec fn screened(request: RequestView) -> Option<ReplyView> {
    if !request.is_query {
        Some(bare_reply(ResponseCode::NotImp))
    } else if request.edns is Some && request.edns->0.version > 0 {
        Some(bare_reply(ResponseCode::BADVERS))
    } else {
        None
    }
}

/// A reply handled under the rate limit: whatever the limit decided, it was a
/// decision on a response of that kind to that client, and it was followed.
pub open spec fn limited(
    before: rrl::RrlView,
    after: rrl::RrlView,
    reply: ReplyView,
    request: RequestView,
    max: u16,
    handling: HandlingView,
) -> bool {
    exists|decision: Decision|
        {
            &&& #[trigger] rrl::decided(
                before,
                after,
                request.src,
                reply.kind,
                request.is_tcp,
                decision,
            )
            &&& handling == disposal(reply, decision, request, max)
        }
}

/// Handle a reply as the rate limit decided.
pub fn dispose(reply: Reply, decision: Decision, request: &Request, max_udp_payload: u16) -> (r:
    Handling)
    requires
        max_udp_payload >= 512,
    ensures
        r@ == disposal(reply@, decision, request@, max_udp_payload),
{
    match decision {
        Decision::Allow => Handling::Respond(send(reply, request, max_udp_payload)),
        Decision::Drop => Handling::Silence,
        Decision::Truncate => Handling::Respond(
            Response {
                code: ResponseCode::NoError,
                authoritative: false,
                truncated: true,
                recursion_available: false,
                authentic_data: false,
                edns_payload: None,
                answers: record::no_records(),
                authority: record::no_records(),
            },
        ),
    }
}

/// Put a reply to the rate limit and handle it as decided.
fn limit(zones: &Zones, rrl: &mut Rrl, request: &Request, reply: Reply) -> (r: Handling)
    requires
        zones@.config.params.max_udp_payload >= 512,
    ensures
        limited(
            old(rrl)@,
            final(rrl)@,
            reply@,
            request@,
            zones@.config.params.max_udp_payload,
            r@,
        ),
        old(rrl)@.wf() ==> final(rrl)@.wf(),
{
    let decision = rrl.decide(request.src, reply.kind, request.is_tcp);
    dispose(reply, decision, request, zones.config.params.max_udp_payload)
}

/// Handle a request, up to consulting an upstream.
pub fn handle(zones: &Zones, rrl: &mut Rrl, request: &Request) -> (r: Handling)
    requires
        zones@.config.params.max_udp_payload >= 512,
    ensures
        ({
            let max = zones@.config.params.max_udp_payload;
            match screened(request@) {
                Some(reply) => {
                    &&& r@ == HandlingView::Respond(response_with(reply, request@, max))
                    &&& final(rrl)@ == old(rrl)@
                },
                None => match step(zones@, request@.qname, request@.qtype, request@.qclass) {
                    StepView::Consult { upstream, synthesized } => {
                        &&& r@ == HandlingView::Consult { upstream, synthesized }
                        &&& final(rrl)@ == old(rrl)@
                    },
                    StepView::Answer(reply) => limited(
                        old(rrl)@,
                        final(rrl)@,
                        reply,
                        request@,
                        max,
                        r@,
                    ),
                },
            }
        }),
        r matches Handling::Consult { upstream, .. } ==> upstream < zones.upstreams.len(),
        old(rrl)@.wf() ==> final(rrl)@.wf(),
{
    let max: u16 = zones.config.params.max_udp_payload;
    // Only standard queries. NOTIFY and UPDATE are not implemented.
    if !request.is_query {
        return Handling::Respond(send(Reply::error(ResponseCode::NotImp), request, max));
    }
    // EDNS version negotiation: we speak version 0 only.
    if let Some(edns) = request.edns {
        if edns.version > 0 {
            return Handling::Respond(send(Reply::error(ResponseCode::BADVERS), request, max));
        }
    }
    match decide(zones, &request.qname, request.qtype, request.qclass) {
        Step::Consult { upstream, synthesized } => Handling::Consult { upstream, synthesized },
        Step::Answer(reply) => limit(zones, rrl, request, reply),
    }
}

/// Handle a request once an upstream was consulted about it.
pub fn finish(
    zones: &Zones,
    rrl: &mut Rrl,
    request: &Request,
    synthesized: Vec<Record>,
    relayed: Vec<Record>,
) -> (r: Handling)
    requires
        zones@.config.params.max_udp_payload >= 512,
    ensures
        limited(
            old(rrl)@,
            final(rrl)@,
            zone_reply(
                zones@.config,
                request@.qname,
                overridden(text::views(synthesized@), text::views(relayed@)),
            ),
            request@,
            zones@.config.params.max_udp_payload,
            r@,
        ),
        old(rrl)@.wf() ==> final(rrl)@.wf(),
{
    let reply = conclude(zones, &request.qname, synthesized, relayed);
    limit(zones, rrl, request, reply)
}

// ---- laws ------------------------------------------------------------------

/// Zone transfers are refused, and so is every class but IN.
pub proof fn law_transfers_and_other_classes_are_refused(
    zones: ZonesView,
    qname: NameView,
    qtype: RecordType,
    qclass: DNSClass,
)
    requires
        ({
            ||| qtype == RecordType::AXFR
            ||| qtype == RecordType::IXFR
            ||| qclass != DNSClass::IN && qclass != DNSClass::ANY
        }),
    ensures
        step(zones, qname, qtype, qclass) == StepView::Answer(bare_reply(ResponseCode::Refused)),
{
}

/// A name outside every zone is refused by default, without authority and without
/// any record.
pub proof fn law_out_of_zone_is_refused(
    zones: ZonesView,
    qname: NameView,
    qtype: RecordType,
    qclass: DNSClass,
)
    requires
        zone::outcome(zones.config, qname, qtype) is NoZone,
        asked_apex(zones.config, qname, qtype) is None,
        zones.config.params.out_of_zone == OutOfZonePolicy::Refused,
    ensures
        step(zones, qname, qtype, qclass) == StepView::Answer(bare_reply(ResponseCode::Refused)),
{
}

/// An upstream is consulted only about the PTR of a reverse name that one of our
/// own networks contains, and only the upstream of that network: this is no open
/// forwarder.
pub proof fn law_only_own_names_reach_an_upstream(
    zones: ZonesView,
    qname: NameView,
    qtype: RecordType,
    qclass: DNSClass,
)
    requires
        step(zones, qname, qtype, qclass) is Consult,
    ensures
        qtype == RecordType::PTR,
        zone::reverse_match(zones.config.zones, qname) is Some,
        ({
            let (zone, addr) = zone::reverse_match(zones.config.zones, qname)->0;
            let upstream = step(zones, qname, qtype, qclass)->upstream;
            &&& 0 <= upstream < zones.upstreams.len()
            &&& zone.upstream == Some(zones.upstreams[upstream])
        }),
{
    let (zone, addr) = zone::reverse_match(zones.config.zones, qname)->0;
    if let Some(up) = zone.upstream {
        lemma_place(zones.upstreams, up, 0);
    }
}

pub proof fn lemma_place(addrs: Seq<IpAddr>, addr: IpAddr, i: int)
    requires
        0 <= i,
    ensures
        place_of(addrs, addr, i) matches Some(k) ==> i <= k < addrs.len() && addrs[k] == addr,
        place_of(addrs, addr, i) is None ==> forall|k: int|
            i <= k < addrs.len() ==> #[trigger] addrs[k] != addr,
    decreases addrs.len() - i,
{
    if i < addrs.len() && addrs[i] != addr {
        lemma_place(addrs, addr, i + 1);
    }
}

/// Every upstream that a zone names is collected, and none twice.
pub proof fn law_every_upstream_is_collected_once(zones: Seq<ZoneView>)
    ensures
        upstreams_of(zones).no_duplicates(),
        forall|i: int|
            0 <= i < zones.len() && (#[trigger] zones[i]).upstream is Some
                ==> upstreams_of(zones).contains(zones[i].upstream->0),
    decreases zones.len(),
{
    if zones.len() > 0 {
        let rest = zones.drop_last();
        law_every_upstream_is_collected_once(rest);
        let before = upstreams_of(rest);
        let after = upstreams_of(zones);
        assert forall|i: int|
            0 <= i < zones.len() && (#[trigger] zones[i]).upstream is Some implies after.contains(
            zones[i].upstream->0,
        ) by {
            if i < rest.len() {
                assert(rest[i] == zones[i]);
                let k = before.index_of(zones[i].upstream->0);
                assert(after[k] == zones[i].upstream->0);
            } else if !before.contains(zones[i].upstream->0) {
                assert(after[before.len() as int] == zones[i].upstream->0);
            }
        }
    }
}

/// Whatever is relayed, a reply to a name of ours is authoritative and has records:
/// those of the upstream if it has any, ours otherwise.
pub proof fn law_consulting_never_loses_the_answer(
    zones: ZonesView,
    qname: NameView,
    qclass: DNSClass,
    relayed: Seq<RecordView>,
)
    requires
        step(zones, qname, RecordType::PTR, qclass) is Consult,
    ensures
        ({
            let synthesized = step(zones, qname, RecordType::PTR, qclass)->synthesized;
            let reply = zone_reply(zones.config, qname, overridden(synthesized, relayed));
            &&& reply.code == ResponseCode::NoError
            &&& reply.authoritative
            &&& reply.answers.len() > 0
            &&& reply.answers == relayed || relayed.len() == 0
        }),
{
}

/// Over TCP, and where the limit is off, every reply is sent as it is.
pub proof fn law_tcp_is_never_limited(
    before: rrl::RrlView,
    after: rrl::RrlView,
    reply: ReplyView,
    request: RequestView,
    max: u16,
    handling: HandlingView,
)
    requires
        limited(before, after, reply, request, max, handling),
        request.is_tcp || !before.params.enabled,
    ensures
        handling == HandlingView::Respond(response_with(reply, request, max)),
        after == before,
{
}

/// The advertised payload size is between 512 and the ceiling, and an OPT record
/// is sent exactly where one was received.
pub proof fn law_advertised_payload_is_bounded(edns: Option<EdnsRequest>, is_tcp: bool, max: u16)
    requires
        max >= 512,
    ensures
        advertised(edns, is_tcp, max) is Some <==> edns is Some,
        advertised(edns, is_tcp, max) matches Some(size) ==> 512 <= size <= max,
{
}

/// The authority section is one SOA record, of a zone that the name lies in.
pub open spec fn carries_the_soa(reply: ReplyView, qname: NameView) -> bool {
    &&& reply.authority.len() == 1
    &&& reply.authority[0].data is SOA
    &&& crate::name::encloses(reply.authority[0].name, qname)
}

/// A name that lies in one of our zones but denotes nothing is denied with the SOA
/// of that zone, where one is configured, so that resolvers can cache the denial.
/// An apex we serve is never denied to a query for its own records.
pub proof fn law_denials_carry_the_soa(
    zones: ZonesView,
    qname: NameView,
    qtype: RecordType,
    qclass: DNSClass,
)
    requires
        zones.config.soa is Some,
        zone::outcome(zones.config, qname, qtype) is NoName,
        qclass == DNSClass::IN || qclass == DNSClass::ANY,
        qtype != RecordType::AXFR,
        qtype != RecordType::IXFR,
    ensures
        step(zones, qname, qtype, qclass) matches StepView::Answer(reply) && {
            &&& reply.authoritative
            &&& asked_apex(zones.config, qname, qtype) is None ==> {
                &&& reply.code == ResponseCode::NXDomain
                &&& reply.answers.len() == 0
                &&& carries_the_soa(reply, qname)
            }
            &&& asked_apex(zones.config, qname, qtype) is Some ==> {
                &&& reply.code == ResponseCode::NoError
                &&& reply.answers.len() == 0 ==> carries_the_soa(reply, qname)
            }
        },
{
    lemma_zone_around(zones.config.zones, qname);
    lemma_asked_apex(zones.config, qname, qtype);
}

/// An apex found is the name asked for.
proof fn lemma_asked_apex(config: ConfigView, qname: NameView, qtype: RecordType)
    ensures
        asked_apex(config, qname, qtype) matches Some(apex) ==> crate::name::encloses(apex, qname),
{
    lemma_found_name(crate::config::apexes_of(config.zones), qname);
    if let Some(apex) = asked_apex(config, qname, qtype) {
        assert(qname.labels.skip(qname.labels.len() - apex.labels.len()) =~= qname.labels);
    }
}

proof fn lemma_found_name(names: Seq<NameView>, name: NameView)
    ensures
        find_name(names, name) matches Some(found) ==> crate::name::same_name(found, name),
    decreases names.len(),
{
    if names.len() > 0 {
        lemma_found_name(names.drop_first(), name);
    }
}

proof fn lemma_zone_around(zones: Seq<ZoneView>, qname: NameView)
    ensures
        zone::lookup::zone_around(zones, qname) matches Some(zone) ==> zone::lookup::holds_name(
            zone,
            qname,
        ),
        zone::lookup::zone_around(zones, qname) is None ==> forall|i: int|
            0 <= i < zones.len() ==> !zone::lookup::holds_name(#[trigger] zones[i], qname),
    decreases zones.len(),
{
    if zones.len() > 0 && !zone::lookup::holds_name(zones[0], qname) {
        let rest = zones.drop_first();
        lemma_zone_around(rest, qname);
        if zone::lookup::zone_around(zones, qname) is None {
            assert forall|i: int| 0 <= i < zones.len() implies !zone::lookup::holds_name(
                #[trigger] zones[i],
                qname,
            ) by {
                if i > 0 {
                    assert(zones[i] == rest[i - 1]);
                }
            }
        }
    }
}

/// Every empty authoritative answer, to whatever name and at an apex too, carries
/// the SOA of a zone that the name lies in, where one is configured.
pub proof fn law_empty_answers_carry_the_soa(
    zones: ZonesView,
    qname: NameView,
    qtype: RecordType,
    qclass: DNSClass,
)
    requires
        zones.config.wf(),
        zones.config.soa is Some,
        step(zones, qname, qtype, qclass) matches StepView::Answer(reply) && reply.authoritative
            && reply.answers.len() == 0,
    ensures
        step(zones, qname, qtype, qclass) matches StepView::Answer(reply) && carries_the_soa(
            reply,
            qname,
        ),
{
    let config = zones.config;
    lemma_zone_around(config.zones, qname);
    lemma_asked_apex(config, qname, qtype);
    if asked_apex(config, qname, qtype) is None && zone::outcome(config, qname, qtype) is Answer {
        zone::laws::lemma_empty_answer_is_forward(config, qname, qtype);
    }
}

} // verus!
