//! Configuration model and parser.
//!
//! [`Config`] is immutable once built and cheap to share across threads.

pub mod compile;
pub mod error;
pub mod laws;
pub mod parse;

pub use error::{ConfigError, ConfigErrorKind, ConfigErrors};

use vstd::prelude::*;

use crate::name::{Name, NameView};
use crate::net::IpAddr;
use crate::nibble;
use crate::text;

verus! {

/// TTL of synthesized records.
pub const DEFAULT_TTL: u32 = 3600;

/// Default DNS port, used when a `listen` directive omits one.
pub const DEFAULT_PORT: u16 = 53;

/// An address the server should bind.
#[derive(Debug, Clone, Copy, PartialEq, Eq, Structural)]
pub struct ListenAddr {
    pub addr: IpAddr,
    pub port: u16,
}

/// One label of a forward-name template.
///
/// Both a verbatim and a lowercased form are kept: matching an incoming query
/// must be case-insensitive, but the name we *emit* preserves the operator's
/// capitalisation.
#[derive(Debug, Clone, PartialEq, Eq)]
pub enum FwdLabel {
    Literal { verbatim: Vec<u8>, lower: Vec<u8> },
    /// The label that carries `%DIGITS%` or `%DIGITS-DASHED%`, split around the
    /// placeholder.
    Digits {
        pre: Vec<u8>,
        pre_lower: Vec<u8>,
        post: Vec<u8>,
        post_lower: Vec<u8>,
        /// Whether the placeholder was `%DIGITS-DASHED%`: group hex digits in
        /// 4s, separated by `-`, instead of one contiguous run.
        dashed: bool,
    },
}

#[verifier::ext_equal]
pub enum FwdLabelView {
    Literal { verbatim: Seq<u8>, lower: Seq<u8> },
    Digits {
        pre: Seq<u8>,
        pre_lower: Seq<u8>,
        post: Seq<u8>,
        post_lower: Seq<u8>,
        dashed: bool,
    },
}

impl View for FwdLabel {
    type V = FwdLabelView;

    open spec fn view(&self) -> FwdLabelView {
        match *self {
            FwdLabel::Literal { verbatim, lower } => FwdLabelView::Literal {
                verbatim: verbatim@,
                lower: lower@,
            },
            FwdLabel::Digits { pre, pre_lower, post, post_lower, dashed } => FwdLabelView::Digits {
                pre: pre@,
                pre_lower: pre_lower@,
                post: post@,
                post_lower: post_lower@,
                dashed,
            },
        }
    }
}

impl FwdLabelView {
    /// The label with digits in the place of the placeholder.
    pub open spec fn filled(self, digits: Seq<char>) -> Seq<u8> {
        match self {
            FwdLabelView::Literal { verbatim, .. } => verbatim,
            FwdLabelView::Digits { pre, post, dashed, .. } => pre + text::utf8(
                if dashed {
                    nibble::dashed(digits, '-')
                } else {
                    digits
                },
            ) + post,
        }
    }

    /// The label without a placeholder.
    pub open spec fn bare(self) -> Seq<u8> {
        match self {
            FwdLabelView::Literal { verbatim, .. } => verbatim,
            FwdLabelView::Digits { pre, post, .. } => pre + post,
        }
    }
}

/// A `resolves to` template, pre-split at label boundaries.
///
/// Storing the template as labels is what makes matching a *full* match by
/// construction.
#[derive(Debug, Clone, PartialEq, Eq)]
pub struct FwdTemplate {
    pub labels: Vec<FwdLabel>,
    /// Index into `labels` of the [`FwdLabel::Digits`] entry.
    pub digits_at: usize,
}

#[verifier::ext_equal]
pub struct TemplateView {
    pub labels: Seq<FwdLabelView>,
    pub digits_at: int,
}

impl View for FwdTemplate {
    type V = TemplateView;

    open spec fn view(&self) -> TemplateView {
        TemplateView { labels: text::views(self.labels@), digits_at: self.digits_at as int }
    }
}

impl TemplateView {
    /// The labels with digits in the place of the placeholder.
    pub open spec fn rendered(self, digits: Seq<char>) -> Seq<Seq<u8>> {
        Seq::new(self.labels.len(), |i: int| self.labels[i].filled(digits))
    }

    /// The labels to the right of the one that carries the digits.
    pub open spec fn apex(self) -> Seq<Seq<u8>> {
        if self.digits_at + 1 >= self.labels.len() {
            Seq::empty()
        } else {
            Seq::new(
                (self.labels.len() - self.digits_at - 1) as nat,
                |i: int| self.labels[self.digits_at + 1 + i].bare(),
            )
        }
    }
}

impl FwdLabelView {
    /// The lowercased forms are those of the verbatim ones.
    pub open spec fn wf(self) -> bool {
        match self {
            FwdLabelView::Literal { verbatim, lower } => lower == text::lowered_bytes(verbatim),
            FwdLabelView::Digits { pre, pre_lower, post, post_lower, .. } => {
                &&& pre_lower == text::lowered_bytes(pre)
                &&& post_lower == text::lowered_bytes(post)
            },
        }
    }
}

impl TemplateView {
    /// Exactly one label carries digits, and every name that the template makes
    /// of `host_nibbles` digits is within the DNS limits.
    pub open spec fn wf(self, host_nibbles: u8) -> bool {
        &&& 0 <= self.digits_at < self.labels.len()
        &&& forall|i: int|
            0 <= i < self.labels.len() ==> (#[trigger] self.labels[i]).wf() && (self.labels[i]
                is Digits <==> i == self.digits_at)
        &&& self.labels[self.digits_at]->dashed ==> host_nibbles % 4 == 0
        &&& forall|digits: Seq<u8>|
            nibble::all_hex(digits) && digits.len() == host_nibbles ==> crate::name::labels_fit(
                #[trigger] self.rendered(text::ascii(digits)),
            )
    }
}

/// The label with digits in the place of the placeholder.
fn fill_label(label: &FwdLabel, digits: &str) -> (r: Vec<u8>)
    ensures
        r@ == label@.filled(digits@),
{
    match label {
        FwdLabel::Literal { verbatim, .. } => text::copy_bytes(verbatim),
        FwdLabel::Digits { pre, post, dashed, .. } => {
            let mut joined = text::copy_bytes(pre);
            let mut middle: Vec<u8> = if *dashed {
                text::to_bytes(nibble::dash_group(digits).as_str())
            } else {
                text::to_bytes(digits)
            };
            joined.append(&mut middle);
            let mut end = text::copy_bytes(post);
            joined.append(&mut end);
            joined
        },
    }
}

/// The label without a placeholder.
fn bare_label(label: &FwdLabel) -> (r: Vec<u8>)
    ensures
        r@ == label@.bare(),
{
    match label {
        FwdLabel::Literal { verbatim, .. } => text::copy_bytes(verbatim),
        FwdLabel::Digits { pre, post, .. } => {
            let mut joined = text::copy_bytes(pre);
            let mut end = text::copy_bytes(post);
            joined.append(&mut end);
            joined
        },
    }
}

impl FwdTemplate {
    /// Number of labels a matching query name must have.
    pub fn label_count(&self) -> (r: usize)
        ensures
            r == self@.labels.len(),
    {
        self.labels.len()
    }

    /// The apex: everything to the right of the digits label.
    pub fn parent(&self) -> (r: Result<Name, String>)
        ensures
            r is Ok <==> crate::name::labels_fit(self@.apex()),
            r matches Ok(name) ==> name@ == (NameView { labels: self@.apex(), fqdn: true }),
            r matches Err(reason) ==> reason@ == crate::name::label_error(self@.apex()),
    {
        let mut tail: Vec<Vec<u8>> = Vec::new();
        if self.digits_at < self.labels.len() {
            let first: usize = self.digits_at + 1;
            for i in first..self.labels.len()
                invariant
                    first == self.digits_at + 1,
                    first <= self.labels.len(),
                    text::views(tail@).len() == i - first,
                    forall|k: int|
                        0 <= k < i - first ==> #[trigger] text::views(tail@)[k]
                            == self@.labels[first + k].bare(),
            {
                let label = bare_label(&self.labels[i]);
                let ghost before = tail@;
                tail.push(label);
                proof {
                    text::lemma_views_push(before, label);
                    assert(self@.labels[i as int] == self.labels@[i as int]@);
                }
            }
        }
        assert(text::views(tail@) =~= self@.apex());
        Name::from_labels(tail)
    }

    /// Render the template with `digits` substituted, as a fully-qualified name.
    pub fn render(&self, digits: &str) -> (r: Result<Name, String>)
        ensures
            r is Ok <==> crate::name::labels_fit(self@.rendered(digits@)),
            r matches Ok(name) ==> name@ == (NameView {
                labels: self@.rendered(digits@),
                fqdn: true,
            }),
            r matches Err(reason) ==> reason@ == crate::name::label_error(
                self@.rendered(digits@),
            ),
    {
        let mut labels: Vec<Vec<u8>> = Vec::new();
        for i in 0..self.labels.len()
            invariant
                text::views(labels@) == self@.rendered(digits@).take(i as int),
        {
            let label = fill_label(&self.labels[i], digits);
            let ghost before = labels@;
            labels.push(label);
            proof {
                text::lemma_views_push(before, label);
                assert(self@.labels[i as int] == self.labels@[i as int]@);
                assert(self@.rendered(digits@).take(i + 1) =~= self@.rendered(digits@).take(
                    i as int,
                ).push(label@));
            }
        }
        assert(self@.rendered(digits@).take(self@.labels.len() as int) =~= self@.rendered(
            digits@,
        ));
        Name::from_labels(labels)
    }
}

/// A configured network and the forward names it maps to.
#[derive(Debug, Clone, PartialEq, Eq)]
pub struct Zone {
    /// Line of the `network` directive, for diagnostics.
    pub src_line: u32,
    /// Network address, already masked, so `prefix | host` needs no further
    /// masking.
    pub prefix: u128,
    /// Prefix length; always `<= 128` and a multiple of 4.
    pub mask: u8,
    /// `(128 - mask) / 4`: how many hex digits `%DIGITS%` expands to.
    pub host_nibbles: u8,
    /// The `ip6.arpa` zone this network delegates to.
    pub ptr_zone: Name,
    /// The `resolves to` value verbatim, for diagnostics.
    pub resolves_to: String,
    pub fwd: FwdTemplate,
    /// The forward apex: the labels to the right of the digits label. Needed to
    /// tell "inside a zone we are authoritative for, but no such record" apart
    /// from "not our namespace at all".
    pub fwd_parent: Name,
    pub ttl: u32,
    pub upstream: Option<IpAddr>,
}

#[verifier::ext_equal]
pub struct ZoneView {
    pub src_line: u32,
    pub prefix: u128,
    pub mask: u8,
    pub host_nibbles: u8,
    pub ptr_zone: NameView,
    pub resolves_to: Seq<char>,
    pub fwd: TemplateView,
    pub fwd_parent: NameView,
    pub ttl: u32,
    pub upstream: Option<IpAddr>,
}

impl View for Zone {
    type V = ZoneView;

    open spec fn view(&self) -> ZoneView {
        ZoneView {
            src_line: self.src_line,
            prefix: self.prefix,
            mask: self.mask,
            host_nibbles: self.host_nibbles,
            ptr_zone: self.ptr_zone@,
            resolves_to: self.resolves_to@,
            fwd: self.fwd@,
            fwd_parent: self.fwd_parent@,
            ttl: self.ttl,
            upstream: self.upstream,
        }
    }
}

impl ZoneView {
    /// What validation guarantees of a zone.
    pub open spec fn wf(self) -> bool {
        // Neither the whole address space nor a single address, and on a nibble
        // boundary.
        &&& 4 <= self.mask <= 124
        &&& self.mask % 4 == 0
        &&& nibble::network_part(self.prefix, self.mask) == self.prefix
        &&& self.host_nibbles == (128 - self.mask) / 4
        &&& self.ptr_zone == (NameView {
            labels: nibble::ptr_zone_labels(self.prefix, self.mask),
            fqdn: true,
        })
        &&& self.fwd.wf(self.host_nibbles)
        &&& self.fwd_parent == (NameView { labels: self.fwd.apex(), fqdn: true })
    }
}

/// What to answer for a name outside every configured zone.
#[derive(Debug, Clone, Copy, PartialEq, Eq, Structural)]
pub enum OutOfZonePolicy {
    /// RFC-correct for an authoritative server, and the default: we are not
    /// authoritative for that name, so we decline rather than assert it does not
    /// exist.
    Refused,
    /// Deny that the name exists.
    NxDomain,
}

impl Default for OutOfZonePolicy {
    fn default() -> (r: Self)
        ensures
            r == OutOfZonePolicy::Refused,
    {
        OutOfZonePolicy::Refused
    }
}

/// SOA parameters for the zone apexes.
#[derive(Debug, Clone, PartialEq, Eq)]
pub struct SoaParams {
    /// MNAME — the primary server for these zones.
    pub primary: Name,
    /// RNAME — the responsible mailbox.
    pub hostmaster: Name,
    pub serial: u32,
    pub refresh: u32,
    pub retry: u32,
    pub expire: u32,
    /// Also the negative-caching TTL (RFC 2308).
    pub minimum: u32,
}

#[verifier::ext_equal]
pub struct SoaView {
    pub primary: NameView,
    pub hostmaster: NameView,
    pub serial: u32,
    pub refresh: u32,
    pub retry: u32,
    pub expire: u32,
    pub minimum: u32,
}

impl View for SoaParams {
    type V = SoaView;

    open spec fn view(&self) -> SoaView {
        SoaView {
            primary: self.primary@,
            hostmaster: self.hostmaster@,
            serial: self.serial,
            refresh: self.refresh,
            retry: self.retry,
            expire: self.expire,
            minimum: self.minimum,
        }
    }
}

/// Response-rate-limiting parameters.
///
/// A server that synthesizes an unbounded number of records is an attractive
/// reflection amplifier, so this is on by default.
#[derive(Debug, Clone, Copy, PartialEq, Eq, Structural)]
pub struct RrlParams {
    pub enabled: bool,
    /// Sustained responses per second, per client prefix.
    pub responses_per_second: u32,
    /// Burst allowance above the sustained rate.
    pub burst: u32,
    /// Every Nth suppressed response is answered truncated instead of dropped,
    /// so a legitimate resolver can retry over TCP. 0 means always drop.
    pub slip: u32,
    /// Client-address aggregation prefix lengths.
    pub ipv4_prefix: u8,
    pub ipv6_prefix: u8,
}

/// The rate limit where none is configured.
pub open spec fn default_rrl() -> RrlParams {
    RrlParams {
        enabled: true,
        responses_per_second: 20,
        burst: 50,
        slip: 2,
        ipv4_prefix: 24,
        ipv6_prefix: 64,
    }
}

impl Default for RrlParams {
    fn default() -> (r: Self)
        ensures
            r == default_rrl(),
    {
        RrlParams {
            enabled: true,
            responses_per_second: 20,
            burst: 50,
            slip: 2,
            ipv4_prefix: 24,
            ipv6_prefix: 64,
        }
    }
}

/// Server-wide knobs.
#[derive(Debug, Clone, Copy, PartialEq, Eq, Structural)]
pub struct ServerParams {
    pub out_of_zone: OutOfZonePolicy,
    /// Upper bound on the UDP response size we advertise and emit. 1232 avoids
    /// IPv6 fragmentation (RFC 9715).
    pub max_udp_payload: u16,
    /// Hard deadline for an upstream lookup, in milliseconds.
    pub upstream_timeout: u64,
    pub rrl: RrlParams,
}

/// The knobs where none is set.
pub open spec fn default_params() -> ServerParams {
    ServerParams {
        out_of_zone: OutOfZonePolicy::Refused,
        max_udp_payload: 1232,
        upstream_timeout: 300,
        rrl: default_rrl(),
    }
}

impl Default for ServerParams {
    fn default() -> (r: Self)
        ensures
            r == default_params(),
    {
        ServerParams {
            out_of_zone: OutOfZonePolicy::default(),
            max_udp_payload: 1232,
            upstream_timeout: 300,
            rrl: RrlParams::default(),
        }
    }
}

/// A validated configuration.
#[derive(Debug, Clone, PartialEq, Eq)]
pub struct Config {
    pub listen: Vec<ListenAddr>,
    /// Sorted by `mask` descending, so a linear scan yields longest-prefix match.
    pub zones: Vec<Zone>,
    /// Apex SOA/NS data, if `primary` and `hostmaster` were configured. Without it
    /// we cannot put a SOA in the authority section, so resolvers cannot cache
    /// negative answers.
    pub soa: Option<SoaParams>,
    /// Apex NS records, if configured.
    pub nameservers: Vec<Name>,
    pub params: ServerParams,
}

#[verifier::ext_equal]
pub struct ConfigView {
    pub listen: Seq<ListenAddr>,
    pub zones: Seq<ZoneView>,
    pub soa: Option<SoaView>,
    pub nameservers: Seq<NameView>,
    pub params: ServerParams,
}

/// Two zones differ in their network, and in their pattern even ignoring case.
pub open spec fn unlike(a: ZoneView, b: ZoneView) -> bool {
    &&& a.prefix != b.prefix || a.mask != b.mask
    &&& text::lowered(a.resolves_to) != text::lowered(b.resolves_to)
}

/// Longest prefix first.
pub open spec fn sorted_by_mask(zones: Seq<ZoneView>) -> bool {
    forall|i: int, j: int|
        0 <= i <= j < zones.len() ==> (#[trigger] zones[i]).mask >= (#[trigger] zones[j]).mask
}

impl ConfigView {
    /// What validation guarantees of a configuration.
    pub open spec fn wf(self) -> bool {
        &&& forall|i: int| 0 <= i < self.zones.len() ==> (#[trigger] self.zones[i]).wf()
        &&& sorted_by_mask(self.zones)
        &&& forall|i: int, j: int|
            0 <= i < self.zones.len() && 0 <= j < self.zones.len() && i != j ==> unlike(
                #[trigger] self.zones[i],
                #[trigger] self.zones[j],
            )
        &&& self.params.max_udp_payload >= 512
        &&& 1 <= self.params.upstream_timeout <= 10_000
        &&& self.params.rrl.responses_per_second >= 1
        &&& self.params.rrl.burst >= 1
    }
}

pub open spec fn soa_view(soa: Option<SoaParams>) -> Option<SoaView> {
    match soa {
        Some(soa) => Some(soa@),
        None => None,
    }
}

impl View for Config {
    type V = ConfigView;

    open spec fn view(&self) -> ConfigView {
        ConfigView {
            listen: self.listen@,
            zones: text::views(self.zones@),
            soa: soa_view(self.soa),
            nameservers: text::views(self.nameservers@),
            params: self.params,
        }
    }
}

impl Default for Config {
    fn default() -> (r: Self)
        ensures
            r@ == (ConfigView {
                listen: Seq::empty(),
                zones: Seq::empty(),
                soa: None,
                nameservers: Seq::empty(),
                params: default_params(),
            }),
    {
        Config {
            listen: Vec::new(),
            zones: Vec::new(),
            soa: None,
            nameservers: Vec::new(),
            params: ServerParams::default(),
        }
    }
}

/// The names with one more, unless an equal name is there already.
pub open spec fn with_name(names: Seq<NameView>, name: NameView) -> Seq<NameView> {
    if exists|i: int| 0 <= i < names.len() && crate::name::same_name(#[trigger] names[i], name) {
        names
    } else {
        names.push(name)
    }
}

/// The distinct apexes of zones: the `ip6.arpa` origin and the forward parent of
/// each, in order.
pub open spec fn apexes_of(zones: Seq<ZoneView>) -> Seq<NameView>
    decreases zones.len(),
{
    if zones.len() == 0 {
        Seq::empty()
    } else {
        with_name(
            with_name(apexes_of(zones.drop_last()), zones.last().ptr_zone),
            zones.last().fwd_parent,
        )
    }
}

/// Add a copy of `name`, unless an equal name is there already.
fn add_name(names: &mut Vec<Name>, name: &Name)
    ensures
        text::views(final(names)@) == with_name(text::views(old(names)@), name@),
{
    let ghost all = text::views(names@);
    for i in 0..names.len()
        invariant
            all == text::views(names@),
            *names == *old(names),
            forall|k: int| 0 <= k < i ==> !crate::name::same_name(#[trigger] all[k], name@),
    {
        if names[i].same(name) {
            assert(crate::name::same_name(all[i as int], name@));
            return;
        }
        assert(all[i as int] == names@[i as int]@);
    }
    let copy = name.clone();
    proof {
        text::lemma_views_push(names@, copy);
    }
    names.push(copy);
}

impl Config {
    pub fn has_zones(&self) -> (r: bool)
        ensures
            r == (self@.zones.len() > 0),
    {
        self.zones.len() > 0
    }

    /// Warnings that do not prevent startup but that the operator should see.
    pub fn warnings(&self) -> (r: Vec<String>)
        ensures
            text::views(r@) == warnings_on(self@),
    {
        let mut out: Vec<String> = Vec::new();
        assert(text::views(out@) =~= Seq::empty());
        if self.soa.is_none() {
            let w = "no `primary`/`hostmaster` configured: serving without apex SOA/NS records, so resolvers cannot cache negative answers (set both to fix)".to_owned();
            proof {
                text::lemma_views_push(out@, w);
            }
            out.push(w);
        }
        assert(text::views(out@) =~= soa_warning(self@));
        if !self.params.rrl.enabled {
            let w = "response rate limiting is disabled".to_owned();
            proof {
                text::lemma_views_push(out@, w);
            }
            out.push(w);
        }
        assert(text::views(out@) =~= soa_warning(self@) + rrl_warning(self@));
        if self.zones.len() == 0 {
            let w = "no `network` configured: every query will be declined".to_owned();
            proof {
                text::lemma_views_push(out@, w);
            }
            out.push(w);
        }
        assert(text::views(out@) =~= warnings_on(self@));
        out
    }

    /// Every distinct apex we are authoritative for: each zone's `ip6.arpa`
    /// origin and each forward parent, deduplicated.
    pub fn apexes(&self) -> (r: Vec<Name>)
        ensures
            text::views(r@) == apexes_of(self@.zones),
    {
        let mut out: Vec<Name> = Vec::new();
        let ghost zones = self@.zones;
        assert(text::views(out@) =~= apexes_of(zones.take(0)));
        for i in 0..self.zones.len()
            invariant
                zones == self@.zones,
                text::views(out@) == apexes_of(zones.take(i as int)),
        {
            proof {
                assert(zones.take(i + 1).drop_last() =~= zones.take(i as int));
                assert(zones[i as int] == self.zones@[i as int]@);
            }
            add_name(&mut out, &self.zones[i].ptr_zone);
            add_name(&mut out, &self.zones[i].fwd_parent);
        }
        assert(zones.take(zones.len() as int) =~= zones);
        out
    }
}

pub open spec fn soa_warning(config: ConfigView) -> Seq<Seq<char>> {
    if config.soa is None {
        seq!["no `primary`/`hostmaster` configured: serving without apex SOA/NS records, so resolvers cannot cache negative answers (set both to fix)"@]
    } else {
        Seq::empty()
    }
}

pub open spec fn rrl_warning(config: ConfigView) -> Seq<Seq<char>> {
    if !config.params.rrl.enabled {
        seq!["response rate limiting is disabled"@]
    } else {
        Seq::empty()
    }
}

pub open spec fn zones_warning(config: ConfigView) -> Seq<Seq<char>> {
    if config.zones.len() == 0 {
        seq!["no `network` configured: every query will be declined"@]
    } else {
        Seq::empty()
    }
}

/// What the operator should know about a configuration.
pub open spec fn warnings_on(config: ConfigView) -> Seq<Seq<char>> {
    soa_warning(config) + rrl_warning(config) + zones_warning(config)
}

} // verus!
