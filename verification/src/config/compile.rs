//! Validation: raw directives to a checked [`Config`].
//!
//! Everything that could make answering a query fail is decided here, at startup.
//! In particular the widest name a template can produce is built once and checked
//! against the DNS length limits, which is why synthesis never has to handle an
//! error.

use vstd::prelude::*;
use vstd::string::*;

use super::error::{ConfigError, ConfigErrorKind, ErrorView, KindView};
use super::parse::{
    GlobalKey, ParsedView, RawConfig, RawConfigView, RawGlobal, RawGlobalView, RawValue, RawZone,
    RawZoneView, ValueView,
};
use super::{
    Config, ConfigView, FwdLabel, FwdLabelView, FwdTemplate, ListenAddr, OutOfZonePolicy,
    ServerParams, SoaParams, SoaView, TemplateView, Zone, ZoneView, DEFAULT_PORT, DEFAULT_TTL,
};
use crate::name::{Name, NameView};
use crate::net;
use crate::net::IpAddr;
use crate::nibble;
use crate::text;

verus! {

// ---- networks --------------------------------------------------------------

/// What `<ipv6>/<prefixlen>` denotes, or what is wrong with it.
pub open spec fn network_of_value(v: ValueView) -> Result<(u128, u8), ErrorView> {
    let slash = text::index_of_char(v.value, '/');
    let addr_part = v.value.take(slash);
    let mask_part = v.value.skip(slash + 1);
    // The slash is underlined together with the prefix length.
    let at_mask = |kind: KindView|
        v.error_at(
            text::utf8(addr_part).len() as int,
            (text::utf8(mask_part).len() + 1) as int,
            kind,
        );
    if slash >= v.value.len() {
        Err(v.error(KindView::NetworkMissingPrefixLen))
    } else {
        match (net::ipv6_text(addr_part), text::u32_text(mask_part)) {
            (None, _) => Err(
                v.error_at(
                    0,
                    text::utf8(addr_part).len() as int,
                    KindView::NetworkInvalidAddress,
                ),
            ),
            (Some(_), None) => Err(at_mask(KindView::NetworkPrefixLenNotANumber)),
            (Some(addr), Some(mask)) => if mask > 128 {
                Err(at_mask(KindView::NetworkPrefixLenOutOfRange { mask: mask as u32 }))
            } else if mask % 4 != 0 {
                Err(at_mask(KindView::NetworkPrefixNotNibbleAligned { mask: mask as u8 }))
            } else if mask == 0 {
                Err(at_mask(KindView::NetworkPrefixTooShort { mask: 0 }))
            } else if mask == 128 {
                Err(v.error(KindView::NetworkIsSingleAddress))
            } else if addr != nibble::network_part(addr, mask as u8) {
                Err(
                    v.error(
                        KindView::NetworkHostBitsSet {
                            suggestion: net::ipv6_shown(
                                nibble::network_part(addr, mask as u8) as u128,
                            ) + "/"@ + text::decimal(mask),
                        },
                    ),
                )
            } else {
                Ok((addr, mask as u8))
            },
        }
    }
}

/// Parse `<ipv6>/<prefixlen>` with every failure mode reported distinctly.
pub fn compile_network(v: &RawValue) -> (r: Result<(u128, u8), ConfigError>)
    ensures
        network_of_value(v@) == (match r {
            Ok(network) => Ok(network),
            Err(e) => Err(e@),
        }),
{
    let value = text::to_chars(v.value.as_str());
    let slash: usize = text::find_char(&value, '/');
    if slash == value.len() {
        return Err(v.error(ConfigErrorKind::NetworkMissingPrefixLen));
    }
    let addr_part = text::to_text(text::head_of(&value, slash));
    let mask_chars = text::rest_of(&value, slash + 1);
    let mask_part = text::to_text(mask_chars);
    let addr_len: usize = addr_part.as_str().as_bytes().len();
    // The slash is underlined together with the prefix length.
    let mask_len: usize = mask_part.as_str().as_bytes().len().saturating_add(1);

    let addr: u128 = match net::parse_ipv6(addr_part.as_str()) {
        Some(addr) => addr,
        None => {
            return Err(v.error_at(0, addr_len, ConfigErrorKind::NetworkInvalidAddress));
        },
    };
    let wide: u32 = match text::parse_u32(mask_chars) {
        Some(mask) => mask,
        None => {
            return Err(
                v.error_at(addr_len, mask_len, ConfigErrorKind::NetworkPrefixLenNotANumber),
            );
        },
    };
    if wide > 128 {
        return Err(
            v.error_at(
                addr_len,
                mask_len,
                ConfigErrorKind::NetworkPrefixLenOutOfRange { mask: wide },
            ),
        );
    }
    let mask: u8 = wide as u8;
    if mask % 4 != 0 {
        return Err(
            v.error_at(
                addr_len,
                mask_len,
                ConfigErrorKind::NetworkPrefixNotNibbleAligned { mask },
            ),
        );
    }
    if mask == 0 {
        return Err(
            v.error_at(addr_len, mask_len, ConfigErrorKind::NetworkPrefixTooShort { mask }),
        );
    }
    if mask == 128 {
        return Err(v.error(ConfigErrorKind::NetworkIsSingleAddress));
    }
    let prefix: u128 = nibble::network_of(addr, mask);
    if addr != prefix {
        let suggestion = text::join3(
            net::show_ipv6(prefix).as_str(),
            "/",
            text::decimal_text(mask as u64).as_str(),
        );
        return Err(v.error(ConfigErrorKind::NetworkHostBitsSet { suggestion }));
    }
    Ok((prefix, mask))
}

// ---- templates -------------------------------------------------------------

/// The placeholders, in lower case: templates are searched ignoring case.
pub open spec fn placeholder(dashed: bool) -> Seq<char> {
    if dashed {
        "%digits-dashed%"@
    } else {
        "%digits%"@
    }
}

fn placeholder_chars(dashed: bool) -> (r: Vec<char>)
    ensures
        r@ == placeholder(dashed),
        r.len() > 0,
{
    proof {
        reveal_strlit("%digits-dashed%");
        reveal_strlit("%digits%");
    }
    text::to_chars(
        if dashed {
            "%digits-dashed%"
        } else {
            "%digits%"
        },
    )
}

/// One label of a template, split around the placeholder if it has one.
pub open spec fn label_of_segment(segment: Seq<char>, dashed: bool) -> FwdLabelView {
    match text::find(text::lowered(segment), placeholder(dashed)) {
        Some(at) => {
            let pre = text::utf8(segment.take(at));
            let post = text::utf8(segment.skip(at + placeholder(dashed).len()));
            FwdLabelView::Digits {
                pre,
                pre_lower: text::lowered_bytes(pre),
                post,
                post_lower: text::lowered_bytes(post),
                dashed,
            }
        },
        None => FwdLabelView::Literal {
            verbatim: text::utf8(segment),
            lower: text::lowered_bytes(text::utf8(segment)),
        },
    }
}

/// The labels of segments.
pub open spec fn labels_of_segments(segments: Seq<Seq<char>>, dashed: bool) -> Seq<FwdLabelView> {
    Seq::new(segments.len(), |i: int| label_of_segment(segments[i], dashed))
}

/// The place of the last label that carries digits.
pub open spec fn digits_label(labels: Seq<FwdLabelView>) -> Option<int>
    decreases labels.len(),
{
    if labels.len() == 0 {
        None
    } else if labels.last() is Digits {
        Some(labels.len() - 1)
    } else {
        digits_label(labels.drop_last())
    }
}

/// The number of digits in the widest name: as many as the host part has, at
/// most those of a whole address.
pub open spec fn widest(host_nibbles: u8) -> Seq<char> {
    text::repeated(
        'f',
        if host_nibbles < 32 {
            host_nibbles as nat
        } else {
            32
        },
    )
}

/// What a `resolves to` value denotes, or what is wrong with it.
pub open spec fn template_of_value(v: ValueView, host_nibbles: u8) -> Result<
    TemplateView,
    ErrorView,
> {
    let lower = text::lowered(v.value);
    let plain_hits = text::occurrences(lower, placeholder(false));
    let dashed_hits = text::occurrences(lower, placeholder(true));
    let dashed = dashed_hits == 1;
    // A single trailing dot just marks the name as absolute, which it always is.
    let segments = text::pieces(text::without_last(v.value, '.'), '.');
    let labels = labels_of_segments(segments, dashed);
    if plain_hits + dashed_hits == 0 {
        Err(v.error(KindView::PlaceholderMissing))
    } else if plain_hits + dashed_hits > 1 {
        Err(v.error(KindView::PlaceholderRepeated { count: plain_hits + dashed_hits }))
    } else if dashed && host_nibbles % 4 != 0 {
        Err(v.error(KindView::DashedDigitsNotNibbleMultipleOfFour { host_nibbles }))
    } else if exists|i: int| 0 <= i < segments.len() && (#[trigger] segments[i]).len() == 0 {
        Err(v.error(KindView::ResolvesToInvalidName { reason: "empty label"@ }))
    } else {
        match digits_label(labels) {
            None => Err(
                v.error(
                    KindView::ResolvesToInvalidName {
                        reason: "placeholder does not lie within a single label"@,
                    },
                ),
            ),
            Some(digits_at) => {
                let template = TemplateView { labels, digits_at };
                let names = template.rendered(widest(host_nibbles));
                if crate::name::labels_fit(names) {
                    Ok(template)
                } else {
                    Err(
                        v.error(
                            KindView::ForwardNameTooLong { reason: crate::name::label_error(names) },
                        ),
                    )
                }
            },
        }
    }
}

/// One label of a template, split around the placeholder if it has one.
fn compile_segment(segment: &[char], dashed: bool) -> (r: FwdLabel)
    ensures
        r@ == label_of_segment(segment@, dashed),
{
    let pattern = placeholder_chars(dashed);
    let lower = text::lowercase(segment);
    match text::find_text(&lower, &pattern) {
        Some(at) => {
            let pre = text::to_bytes(text::to_text(text::head_of(segment, at)).as_str());
            let post = text::to_bytes(
                text::to_text(text::rest_of(segment, at + pattern.len())).as_str(),
            );
            let pre_lower = text::lowercase_bytes(&pre);
            let post_lower = text::lowercase_bytes(&post);
            FwdLabel::Digits { pre, pre_lower, post, post_lower, dashed }
        },
        None => {
            let verbatim = text::to_bytes(text::to_text(segment).as_str());
            let lower = text::lowercase_bytes(&verbatim);
            FwdLabel::Literal { verbatim, lower }
        },
    }
}

/// Split a `resolves to` template at label boundaries around the placeholder.
pub fn compile_template(v: &RawValue, host_nibbles: u8) -> (r: Result<FwdTemplate, ConfigError>)
    ensures
        template_of_value(v@, host_nibbles) == (match r {
            Ok(template) => Ok(template@),
            Err(e) => Err(e@),
        }),
{
    let value = text::to_chars(v.value.as_str());
    let lower = text::lowercase(&value);
    let plain = placeholder_chars(false);
    let grouped = placeholder_chars(true);
    let plain_hits: usize = text::count_occurrences(&lower, &plain);
    let dashed_hits: usize = text::count_occurrences(&lower, &grouped);
    proof {
        reveal_strlit("%digits-dashed%");
        reveal_strlit("%digits%");
        assert(plain_hits + dashed_hits <= lower.len()) by (nonlinear_arith)
            requires
                plain_hits * plain.len() <= lower.len(),
                dashed_hits * grouped.len() <= lower.len(),
                plain.len() >= 2,
                grouped.len() >= 2,
        ;
    }
    let count: usize = plain_hits + dashed_hits;
    if count == 0 {
        return Err(v.error(ConfigErrorKind::PlaceholderMissing));
    }
    if count > 1 {
        return Err(v.error(ConfigErrorKind::PlaceholderRepeated { count }));
    }
    let dashed: bool = dashed_hits == 1;
    if dashed && host_nibbles % 4 != 0 {
        return Err(
            v.error(ConfigErrorKind::DashedDigitsNotNibbleMultipleOfFour { host_nibbles }),
        );
    }
    let segments = text::split_on(text::strip_last(&value, '.'), '.');
    let ghost pieces = text::views(segments@);
    let ghost want = labels_of_segments(pieces, dashed);
    let mut labels: Vec<FwdLabel> = Vec::new();
    let mut digits_at: Option<usize> = None;
    #[verifier::loop_isolation(false)]
    for i in 0..segments.len()
        invariant
            pieces == text::views(segments@),
            want == labels_of_segments(pieces, dashed),
            text::views(labels@) == want.take(i as int),
            labels.len() == i,
            forall|k: int| 0 <= k < i ==> (#[trigger] pieces[k]).len() > 0,
            digits_label(want.take(i as int)) == (match digits_at {
                Some(at) => Some(at as int),
                None => None,
            }),
    {
        assert(pieces[i as int] == segments@[i as int]@);
        if segments[i].len() == 0 {
            return Err(
                v.error(
                    ConfigErrorKind::ResolvesToInvalidName { reason: "empty label".to_owned() },
                ),
            );
        }
        let label = compile_segment(&segments[i], dashed);
        proof {
            assert(want.take(i + 1).drop_last() =~= want.take(i as int));
            assert(want.take(i + 1) =~= want.take(i as int).push(label@));
            text::lemma_views_push(labels@, label);
        }
        if let FwdLabel::Digits { .. } = &label {
            digits_at = Some(i);
        }
        labels.push(label);
    }
    assert(want.take(want.len() as int) =~= want);
    match digits_at {
        None => Err(
            v.error(
                ConfigErrorKind::ResolvesToInvalidName {
                    reason: "placeholder does not lie within a single label".to_owned(),
                },
            ),
        ),
        Some(digits_at) => {
            let template = FwdTemplate { labels, digits_at };
            // Prove the worst case is representable, so that synthesis cannot
            // fail: hex digits are one byte each, so any other digits make a
            // name of exactly the same length.
            let n: usize = if host_nibbles < 32 {
                host_nibbles as usize
            } else {
                32
            };
            match template.render(text::repeat_char('f', n).as_str()) {
                Ok(_) => Ok(template),
                Err(reason) => Err(v.error(ConfigErrorKind::ForwardNameTooLong { reason })),
            }
        },
    }
}

// ---- zones -----------------------------------------------------------------

/// What an accepted zone has taken: its network and its forward pattern, with the
/// lines they stand on. A repeated network or pattern is always a mistake, and
/// would silently shadow the later zone.
pub struct Taken {
    pub prefix: u128,
    pub mask: u8,
    pub network_line: u32,
    pub pattern: Vec<char>,
    pub pattern_line: u32,
}

#[verifier::ext_equal]
pub struct TakenView {
    pub prefix: u128,
    pub mask: u8,
    pub network_line: u32,
    pub pattern: Seq<char>,
    pub pattern_line: u32,
}

impl View for Taken {
    type V = TakenView;

    open spec fn view(&self) -> TakenView {
        TakenView {
            prefix: self.prefix,
            mask: self.mask,
            network_line: self.network_line,
            pattern: self.pattern@,
            pattern_line: self.pattern_line,
        }
    }
}

/// The line on which a network was configured first.
pub open spec fn network_taken(taken: Seq<TakenView>, prefix: u128, mask: u8) -> Option<u32>
    decreases taken.len(),
{
    if taken.len() == 0 {
        None
    } else if taken[0].prefix == prefix && taken[0].mask == mask {
        Some(taken[0].network_line)
    } else {
        network_taken(taken.drop_first(), prefix, mask)
    }
}

/// The line on which a pattern was used first.
pub open spec fn pattern_taken(taken: Seq<TakenView>, pattern: Seq<char>) -> Option<u32>
    decreases taken.len(),
{
    if taken.len() == 0 {
        None
    } else if taken[0].pattern == pattern {
        Some(taken[0].pattern_line)
    } else {
        pattern_taken(taken.drop_first(), pattern)
    }
}

/// How many nibbles lie below a prefix.
pub open spec fn nibbles_below(mask: u8) -> u8 {
    if mask >= 128 {
        0
    } else {
        ((128 - mask) / 4) as u8
    }
}

/// What a `network` block denotes given what earlier blocks have taken, or what
/// is wrong with it.
pub open spec fn zone_of_block(raw: RawZoneView, taken: Seq<TakenView>, ttl: u32) -> Result<
    ZoneView,
    ErrorView,
> {
    match network_of_value(raw.network) {
        Err(e) => Err(e),
        Ok((prefix, mask)) => match (network_taken(taken, prefix, mask), raw.resolves_to) {
            (Some(first_line), _) => Err(
                raw.network.error(KindView::DuplicateNetwork { first_line }),
            ),
            (None, None) => Err(raw.network.error(KindView::MissingResolvesTo)),
            (None, Some(resolves_to)) => zone_of_parts(prefix, mask, raw, resolves_to, taken, ttl),
        },
    }
}

/// The part of [`zone_of_block`] that follows a usable network.
pub open spec fn zone_of_parts(
    prefix: u128,
    mask: u8,
    raw: RawZoneView,
    resolves_to: ValueView,
    taken: Seq<TakenView>,
    ttl: u32,
) -> Result<ZoneView, ErrorView> {
    let upstream = match raw.upstream {
        Some(v) => net::ip_text(v.value),
        None => None,
    };
    match template_of_value(resolves_to, nibbles_below(mask)) {
        Err(e) => Err(e),
        Ok(fwd) => match pattern_taken(taken, text::lowered(resolves_to.value)) {
            Some(first_line) => Err(
                resolves_to.error(KindView::DuplicateForwardPattern { first_line }),
            ),
            None => if raw.upstream is Some && upstream is None {
                Err(raw.upstream->0.error(KindView::InvalidUpstreamAddress))
            } else if !crate::name::labels_fit(fwd.apex()) {
                Err(
                    resolves_to.error(
                        KindView::ResolvesToInvalidName {
                            reason: crate::name::label_error(fwd.apex()),
                        },
                    ),
                )
            } else {
                Ok(
                    ZoneView {
                        src_line: raw.network.line,
                        prefix,
                        mask,
                        host_nibbles: nibbles_below(mask),
                        ptr_zone: NameView {
                            labels: nibble::ptr_zone_labels(prefix, mask),
                            fqdn: true,
                        },
                        resolves_to: resolves_to.value,
                        fwd,
                        fwd_parent: NameView { labels: fwd.apex(), fqdn: true },
                        ttl,
                        upstream,
                    },
                )
            },
        },
    }
}

fn line_of_network(taken: &Vec<Taken>, prefix: u128, mask: u8) -> (r: Option<u32>)
    ensures
        r == network_taken(text::views(taken@), prefix, mask),
{
    let ghost all = text::views(taken@);
    assert(all.skip(0) =~= all);
    for i in 0..taken.len()
        invariant
            all == text::views(taken@),
            network_taken(all, prefix, mask) == network_taken(all.skip(i as int), prefix, mask),
    {
        assert(all.skip(i as int)[0] == taken@[i as int]@);
        if taken[i].prefix == prefix && taken[i].mask == mask {
            return Some(taken[i].network_line);
        }
        assert(all.skip(i as int).drop_first() =~= all.skip(i + 1));
    }
    None
}

fn line_of_pattern(taken: &Vec<Taken>, pattern: &[char]) -> (r: Option<u32>)
    ensures
        r == pattern_taken(text::views(taken@), pattern@),
{
    let ghost all = text::views(taken@);
    assert(all.skip(0) =~= all);
    for i in 0..taken.len()
        invariant
            all == text::views(taken@),
            pattern_taken(all, pattern@) == pattern_taken(all.skip(i as int), pattern@),
    {
        assert(all.skip(i as int)[0] == taken@[i as int]@);
        if text::eq_chars(&taken[i].pattern, pattern) {
            return Some(taken[i].pattern_line);
        }
        assert(all.skip(i as int).drop_first() =~= all.skip(i + 1));
    }
    None
}

/// Check a `network` block, given what earlier blocks have taken.
pub fn compile_zone(raw: &RawZone, taken: &Vec<Taken>, ttl: u32) -> (r: Result<Zone, ConfigError>)
    ensures
        zone_of_block(raw@, text::views(taken@), ttl) == (match r {
            Ok(zone) => Ok(zone@),
            Err(e) => Err(e@),
        }),
{
    let (prefix, mask) = match compile_network(&raw.network) {
        Ok(network) => network,
        Err(e) => {
            return Err(e);
        },
    };
    if let Some(first_line) = line_of_network(taken, prefix, mask) {
        return Err(raw.network.error(ConfigErrorKind::DuplicateNetwork { first_line }));
    }
    let resolves_to = match &raw.resolves_to {
        Some(v) => v,
        None => {
            return Err(raw.network.error(ConfigErrorKind::MissingResolvesTo));
        },
    };
    let host_nibbles: u8 = (128u8.saturating_sub(mask)) / 4;
    let fwd = match compile_template(resolves_to, host_nibbles) {
        Ok(fwd) => fwd,
        Err(e) => {
            return Err(e);
        },
    };
    // A repeated pattern would make the earlier zone shadow this one forever.
    let pattern = text::lowercase(&text::to_chars(resolves_to.value.as_str()));
    if let Some(first_line) = line_of_pattern(taken, &pattern) {
        return Err(resolves_to.error(ConfigErrorKind::DuplicateForwardPattern { first_line }));
    }
    let upstream: Option<IpAddr> = match &raw.upstream {
        Some(v) => match net::parse_ip(v.value.as_str()) {
            Some(addr) => Some(addr),
            None => {
                return Err(v.error(ConfigErrorKind::InvalidUpstreamAddress));
            },
        },
        None => None,
    };
    let ptr_zone = match nibble::netmask_to_ptr_name(prefix, mask) {
        Some(name) => name,
        None => {
            // A network that passed its checks is nibble-aligned.
            assert(false);
            return Err(
                raw.network.error(ConfigErrorKind::NetworkPrefixNotNibbleAligned { mask }),
            );
        },
    };
    match fwd.parent() {
        Ok(fwd_parent) => Ok(
            Zone {
                src_line: raw.network.line,
                prefix,
                mask,
                host_nibbles,
                ptr_zone,
                resolves_to: resolves_to.value.clone(),
                fwd,
                fwd_parent,
                ttl,
                upstream,
            },
        ),
        Err(reason) => Err(
            resolves_to.error(ConfigErrorKind::ResolvesToInvalidName { reason }),
        ),
    }
}

// ---- listen addresses ------------------------------------------------------

/// What a `listen` value denotes: an address with a port, or a bare address,
/// which takes the default port.
pub open spec fn listen_of_text(s: Seq<char>) -> Option<ListenAddr> {
    match net::socket_text(s) {
        Some((addr, port)) => Some(ListenAddr { addr, port }),
        None => match net::ip_text(s) {
            Some(addr) => Some(ListenAddr { addr, port: DEFAULT_PORT }),
            None => None,
        },
    }
}

/// The addresses that `listen` values denote, in order.
pub open spec fn listen_addrs(values: Seq<ValueView>) -> Seq<ListenAddr>
    decreases values.len(),
{
    if values.len() == 0 {
        Seq::empty()
    } else {
        match listen_of_text(values.last().value) {
            Some(addr) => listen_addrs(values.drop_last()).push(addr),
            None => listen_addrs(values.drop_last()),
        }
    }
}

/// The errors of the `listen` values that denote no address, in order.
pub open spec fn listen_errors(values: Seq<ValueView>) -> Seq<ErrorView>
    decreases values.len(),
{
    if values.len() == 0 {
        Seq::empty()
    } else {
        match listen_of_text(values.last().value) {
            Some(_) => listen_errors(values.drop_last()),
            None => listen_errors(values.drop_last()).push(
                values.last().error(KindView::InvalidListenAddress),
            ),
        }
    }
}

/// Read a `listen` value.
pub fn read_listen(s: &str) -> (r: Option<ListenAddr>)
    ensures
        r == listen_of_text(s@),
{
    match net::parse_socket(s) {
        Some((addr, port)) => Some(ListenAddr { addr, port }),
        None => match net::parse_ip(s) {
            Some(addr) => Some(ListenAddr { addr, port: DEFAULT_PORT }),
            None => None,
        },
    }
}

fn add_error(errors: &mut Vec<ConfigError>, error: ConfigError)
    ensures
        text::views(final(errors)@) == text::views(old(errors)@).push(error@),
{
    proof {
        text::lemma_views_push(errors@, error);
    }
    errors.push(error);
}

fn compile_listen(values: &Vec<RawValue>, errors: &mut Vec<ConfigError>) -> (r: Vec<ListenAddr>)
    ensures
        r@ == listen_addrs(text::views(values@)),
        text::views(final(errors)@) == text::views(old(errors)@) + listen_errors(
            text::views(values@),
        ),
{
    let ghost all = text::views(values@);
    let ghost before = text::views(errors@);
    let mut out: Vec<ListenAddr> = Vec::new();
    assert(before + listen_errors(all.take(0)) =~= before);
    for i in 0..values.len()
        invariant
            all == text::views(values@),
            out@ == listen_addrs(all.take(i as int)),
            text::views(errors@) == before + listen_errors(all.take(i as int)),
    {
        proof {
            assert(all.take(i + 1).drop_last() =~= all.take(i as int));
            assert(all[i as int] == values@[i as int]@);
        }
        let v = &values[i];
        match read_listen(v.value.as_str()) {
            Some(addr) => {
                out.push(addr);
            },
            None => {
                add_error(errors, v.error(ConfigErrorKind::InvalidListenAddress));
                assert(text::views(errors@) =~= before + listen_errors(all.take(i + 1)));
            },
        }
    }
    assert(all.take(all.len() as int) =~= all);
    out
}

// ---- global settings -------------------------------------------------------

/// What the global settings add up to, part-way through them.
#[verifier::ext_equal]
pub struct SettingsView {
    pub ttl: u32,
    pub params: ServerParams,
    pub primary: Option<NameView>,
    pub hostmaster: Option<NameView>,
    pub nameservers: Seq<NameView>,
    pub errors: Seq<ErrorView>,
}

/// No setting read yet.
pub open spec fn no_settings() -> SettingsView {
    SettingsView {
        ttl: DEFAULT_TTL,
        params: super::default_params(),
        primary: None,
        hostmaster: None,
        nameservers: Seq::empty(),
        errors: Seq::empty(),
    }
}

/// The absolute name a text denotes.
pub open spec fn name_of_text(s: Seq<char>) -> Option<NameView> {
    match crate::name::relaxed_labels(s) {
        Some(labels) => Some(NameView { labels, fqdn: true }),
        None => None,
    }
}

impl SettingsView {
    pub open spec fn fail(self, error: ErrorView) -> SettingsView {
        SettingsView { errors: self.errors.push(error), ..self }
    }

    pub open spec fn bad_number(
        self,
        v: ValueView,
        what: Seq<char>,
        allowed: Seq<char>,
    ) -> SettingsView {
        self.fail(v.error(KindView::InvalidNumber { what, allowed }))
    }

    pub open spec fn bad_name(self, v: ValueView, what: Seq<char>) -> SettingsView {
        self.fail(v.error(KindView::InvalidDnsName { what }))
    }

    /// The effect of one global setting.
    pub open spec fn set(self, global: RawGlobalView) -> SettingsView {
        let v = global.value;
        let number = text::u32_text(v.value);
        let name = name_of_text(v.value);
        let rrl = self.params.rrl;
        match global.key {
            GlobalKey::Primary => match name {
                Some(_) => SettingsView { primary: name, ..self },
                None => SettingsView { primary: None, ..self.bad_name(v, "primary"@) },
            },
            GlobalKey::Hostmaster => match name {
                Some(_) => SettingsView { hostmaster: name, ..self },
                None => SettingsView { hostmaster: None, ..self.bad_name(v, "hostmaster"@) },
            },
            GlobalKey::Ns => match name {
                Some(name) => SettingsView { nameservers: self.nameservers.push(name), ..self },
                None => self.bad_name(v, "ns"@),
            },
            // RFC 2181: the top bit of a TTL must be clear.
            GlobalKey::Ttl => if number is Some && number->0 <= 0x7fff_ffff {
                SettingsView { ttl: number->0 as u32, ..self }
            } else {
                self.bad_number(v, "ttl"@, "a TTL in seconds (0-2147483647)"@)
            },
            GlobalKey::OutOfZone => if v.value == "refused"@ {
                self.with_params(
                    ServerParams { out_of_zone: OutOfZonePolicy::Refused, ..self.params },
                )
            } else if v.value == "nxdomain"@ {
                self.with_params(
                    ServerParams { out_of_zone: OutOfZonePolicy::NxDomain, ..self.params },
                )
            } else {
                self.fail(
                    v.error(
                        KindView::InvalidChoice {
                            what: "out-of-zone"@,
                            allowed: "`refused` or `nxdomain`"@,
                        },
                    ),
                )
            },
            GlobalKey::MaxUdpPayload => if number is Some && 512 <= number->0 <= u16::MAX {
                self.with_params(
                    ServerParams { max_udp_payload: number->0 as u16, ..self.params },
                )
            } else {
                self.bad_number(v, "max-udp-payload"@, "512-65535 bytes"@)
            },
            GlobalKey::UpstreamTimeout => if number is Some && 1 <= number->0 <= 10_000 {
                self.with_params(
                    ServerParams { upstream_timeout: number->0 as u64, ..self.params },
                )
            } else {
                self.bad_number(v, "upstream-timeout"@, "1-10000 milliseconds"@)
            },
            GlobalKey::RrlOff => self.with_rrl(super::RrlParams { enabled: false, ..rrl }),
            GlobalKey::RrlRps => if number is Some && number->0 >= 1 {
                self.with_rrl(
                    super::RrlParams { responses_per_second: number->0 as u32, ..rrl },
                )
            } else {
                self.bad_number(v, "rrl responses-per-second"@, "at least 1"@)
            },
            GlobalKey::RrlBurst => if number is Some && number->0 >= 1 {
                self.with_rrl(super::RrlParams { burst: number->0 as u32, ..rrl })
            } else {
                self.bad_number(v, "rrl burst"@, "at least 1"@)
            },
            GlobalKey::RrlSlip => if number is Some {
                self.with_rrl(super::RrlParams { slip: number->0 as u32, ..rrl })
            } else {
                self.bad_number(v, "rrl slip"@, "0 (always drop) or more"@)
            },
        }
    }

    pub open spec fn with_params(self, params: ServerParams) -> SettingsView {
        SettingsView { params, ..self }
    }

    pub open spec fn with_rrl(self, rrl: super::RrlParams) -> SettingsView {
        self.with_params(ServerParams { rrl, ..self.params })
    }
}

/// The effect of global settings in order.
pub open spec fn settings(globals: Seq<RawGlobalView>) -> SettingsView
    decreases globals.len(),
{
    if globals.len() == 0 {
        no_settings()
    } else {
        settings(globals.drop_last()).set(globals.last())
    }
}

/// The first setting of `primary` or `hostmaster`.
pub open spec fn soa_anchor(globals: Seq<RawGlobalView>) -> Option<ValueView>
    decreases globals.len(),
{
    if globals.len() == 0 {
        None
    } else if globals[0].key == GlobalKey::Primary || globals[0].key == GlobalKey::Hostmaster {
        Some(globals[0].value)
    } else {
        soa_anchor(globals.drop_first())
    }
}

/// The error for one half of the SOA data without the other, anchored at
/// whichever of the two was set first.
pub open spec fn missing_pair(
    globals: Seq<RawGlobalView>,
    missing: Seq<char>,
    present: Seq<char>,
) -> ErrorView {
    let kind = KindView::MissingCompanionDirective { missing, present };
    match soa_anchor(globals) {
        Some(v) => v.error(kind),
        None => ErrorView { line: 1, snippet: Seq::empty(), span: None, kind },
    }
}

/// The SOA data, where both halves are set.
pub open spec fn soa_of(primary: Option<NameView>, hostmaster: Option<NameView>) -> Option<SoaView> {
    match (primary, hostmaster) {
        (Some(primary), Some(hostmaster)) => Some(
            SoaView {
                primary,
                hostmaster,
                serial: 1,
                refresh: 604_800,
                retry: 86_400,
                expire: 2_419_200,
                minimum: 60,
            },
        ),
        _ => None,
    }
}

/// The error where only one half of the SOA data is set.
pub open spec fn soa_errors(
    globals: Seq<RawGlobalView>,
    primary: Option<NameView>,
    hostmaster: Option<NameView>,
) -> Seq<ErrorView> {
    match (primary, hostmaster) {
        (Some(_), None) => seq![missing_pair(globals, "hostmaster"@, "primary"@)],
        (None, Some(_)) => seq![missing_pair(globals, "primary"@, "hostmaster"@)],
        _ => Seq::empty(),
    }
}

/// What the global settings add up to, part-way through them.
struct Settings {
    ttl: u32,
    params: ServerParams,
    primary: Option<Name>,
    hostmaster: Option<Name>,
    nameservers: Vec<Name>,
    errors: Vec<ConfigError>,
}

pub open spec fn name_view(name: Option<Name>) -> Option<NameView> {
    match name {
        Some(name) => Some(name@),
        None => None,
    }
}

impl View for Settings {
    type V = SettingsView;

    closed spec fn view(&self) -> SettingsView {
        SettingsView {
            ttl: self.ttl,
            params: self.params,
            primary: name_view(self.primary),
            hostmaster: name_view(self.hostmaster),
            nameservers: text::views(self.nameservers@),
            errors: text::views(self.errors@),
        }
    }
}

fn parse_u32(v: &RawValue) -> (r: Option<u32>)
    ensures
        text::u32_text(v@.value) == (match r {
            Some(n) => Some(n as nat),
            None => None,
        }),
{
    text::parse_u32(&text::to_chars(v.value.as_str()))
}

impl Settings {
    fn fail(&mut self, error: ConfigError)
        ensures
            final(self)@ == old(self)@.fail(error@),
    {
        proof {
            text::lemma_views_push(self.errors@, error);
        }
        self.errors.push(error);
    }

    fn bad_number(&mut self, v: &RawValue, what: &'static str, allowed: &'static str)
        ensures
            final(self)@ == old(self)@.bad_number(v@, what@, allowed@),
    {
        self.fail(v.error(ConfigErrorKind::InvalidNumber { what, allowed }));
    }

    fn bad_name(&mut self, v: &RawValue, what: &'static str)
        ensures
            final(self)@ == old(self)@.bad_name(v@, what@),
    {
        self.fail(v.error(ConfigErrorKind::InvalidDnsName { what }));
    }

    /// Take in one of the settings that hold a name.
    fn set_name(&mut self, global: &RawGlobal)
        requires
            global@.key == GlobalKey::Primary || global@.key == GlobalKey::Hostmaster
                || global@.key == GlobalKey::Ns,
        ensures
            final(self)@ == old(self)@.set(global@),
    {
        let v = &global.value;
        let name = Name::from_str_relaxed(v.value.as_str());
        assert(name_view(name) =~= name_of_text(v@.value));
        match global.key {
            GlobalKey::Primary => {
                if name.is_none() {
                    self.bad_name(v, "primary");
                }
                self.primary = name;
            },
            GlobalKey::Hostmaster => {
                if name.is_none() {
                    self.bad_name(v, "hostmaster");
                }
                self.hostmaster = name;
            },
            _ => {
                match name {
                    Some(name) => {
                        proof {
                            text::lemma_views_push(self.nameservers@, name);
                        }
                        self.nameservers.push(name);
                    },
                    None => self.bad_name(v, "ns"),
                }
            },
        }
    }

    /// Take in one setting.
    fn set(&mut self, global: &RawGlobal)
        ensures
            final(self)@ == old(self)@.set(global@),
    {
        let v = &global.value;
        let number: Option<u32> = parse_u32(v);
        match global.key {
            GlobalKey::Primary => self.set_name(global),
            GlobalKey::Hostmaster => self.set_name(global),
            GlobalKey::Ns => self.set_name(global),
            GlobalKey::Ttl => {
                // RFC 2181: the top bit of a TTL must be clear.
                match number {
                    Some(n) if n <= 0x7fff_ffff => {
                        self.ttl = n;
                    },
                    _ => self.bad_number(v, "ttl", "a TTL in seconds (0-2147483647)"),
                }
            },
            GlobalKey::OutOfZone => {
                let value = text::to_chars(v.value.as_str());
                if text::eq_chars(&value, &text::to_chars("refused")) {
                    self.params.out_of_zone = OutOfZonePolicy::Refused;
                } else if text::eq_chars(&value, &text::to_chars("nxdomain")) {
                    self.params.out_of_zone = OutOfZonePolicy::NxDomain;
                } else {
                    self.fail(
                        v.error(
                            ConfigErrorKind::InvalidChoice {
                                what: "out-of-zone",
                                allowed: "`refused` or `nxdomain`",
                            },
                        ),
                    );
                }
            },
            GlobalKey::MaxUdpPayload => {
                match number {
                    Some(n) if 512 <= n && n <= 0xffff => {
                        self.params.max_udp_payload = n as u16;
                    },
                    _ => self.bad_number(v, "max-udp-payload", "512-65535 bytes"),
                }
            },
            GlobalKey::UpstreamTimeout => {
                match number {
                    Some(n) if 1 <= n && n <= 10_000 => {
                        self.params.upstream_timeout = n as u64;
                    },
                    _ => self.bad_number(v, "upstream-timeout", "1-10000 milliseconds"),
                }
            },
            GlobalKey::RrlOff => {
                self.params.rrl.enabled = false;
            },
            GlobalKey::RrlRps => {
                match number {
                    Some(n) if n >= 1 => {
                        self.params.rrl.responses_per_second = n;
                    },
                    _ => self.bad_number(v, "rrl responses-per-second", "at least 1"),
                }
            },
            GlobalKey::RrlBurst => {
                match number {
                    Some(n) if n >= 1 => {
                        self.params.rrl.burst = n;
                    },
                    _ => self.bad_number(v, "rrl burst", "at least 1"),
                }
            },
            GlobalKey::RrlSlip => {
                match number {
                    Some(n) => {
                        self.params.rrl.slip = n;
                    },
                    None => self.bad_number(v, "rrl slip", "0 (always drop) or more"),
                }
            },
        }
    }
}

/// Everything the global directives produce.
pub struct Globals {
    pub ttl: u32,
    pub soa: Option<SoaParams>,
    pub nameservers: Vec<Name>,
    pub params: ServerParams,
}

/// The first setting of `primary` or `hostmaster`.
fn first_soa_setting(globals: &Vec<RawGlobal>) -> (r: Option<&RawValue>)
    ensures
        soa_anchor(text::views(globals@)) == (match r {
            Some(v) => Some(v@),
            None => None,
        }),
{
    let ghost all = text::views(globals@);
    assert(all.skip(0) =~= all);
    for i in 0..globals.len()
        invariant
            all == text::views(globals@),
            soa_anchor(all) == soa_anchor(all.skip(i as int)),
    {
        assert(all.skip(i as int)[0] == globals@[i as int]@);
        if globals[i].key == GlobalKey::Primary || globals[i].key == GlobalKey::Hostmaster {
            return Some(&globals[i].value);
        }
        assert(all.skip(i as int).drop_first() =~= all.skip(i + 1));
    }
    None
}

/// Anchor a "you set X but not Y" error at whichever of the two was present.
fn missing_pair_error(globals: &Vec<RawGlobal>, missing: &'static str, present: &str) -> (r:
    ConfigError)
    ensures
        r@ == missing_pair(text::views(globals@), missing@, present@),
{
    let kind = ConfigErrorKind::MissingCompanionDirective { missing, present: present.to_owned() };
    match first_soa_setting(globals) {
        Some(v) => v.error(kind),
        None => {
            let snippet = String::new();
            assert(snippet@ =~= Seq::empty());
            ConfigError { line: 1, snippet, span: None, kind }
        },
    }
}

/// Check the global settings.
pub fn compile_globals(globals: &Vec<RawGlobal>, errors: &mut Vec<ConfigError>) -> (r: Globals)
    ensures
        ({
            let all = text::views(globals@);
            let set = settings(all);
            &&& r.ttl == set.ttl
            &&& r.params == set.params
            &&& text::views(r.nameservers@) == set.nameservers
            &&& super::soa_view(r.soa) == soa_of(set.primary, set.hostmaster)
            &&& text::views(final(errors)@) == text::views(old(errors)@) + set.errors + soa_errors(
                all,
                set.primary,
                set.hostmaster,
            )
        }),
{
    let ghost all = text::views(globals@);
    let ghost before = errors@;
    let mut set = Settings {
        ttl: DEFAULT_TTL,
        params: ServerParams::default(),
        primary: None,
        hostmaster: None,
        nameservers: Vec::new(),
        errors: Vec::new(),
    };
    assert(set@ =~= no_settings());
    for i in 0..globals.len()
        invariant
            all == text::views(globals@),
            set@ == settings(all.take(i as int)),
    {
        proof {
            assert(all.take(i + 1).drop_last() =~= all.take(i as int));
            assert(all[i as int] == globals@[i as int]@);
        }
        set.set(&globals[i]);
    }
    assert(all.take(all.len() as int) =~= all);
    let ghost found = set.errors@;
    let mut own = set.errors;
    errors.append(&mut own);
    assert(text::views(errors@) =~= text::views(before) + text::views(found));
    let ghost so_far = text::views(errors@);
    assert(so_far + Seq::<ErrorView>::empty() =~= so_far);
    // SOA needs both halves; one without the other is a mistake worth naming.
    let soa: Option<SoaParams> = match (set.primary, set.hostmaster) {
        (Some(primary), Some(hostmaster)) => Some(
            SoaParams {
                primary,
                hostmaster,
                // A serial only matters for zone transfers, which this server
                // does not offer, so a fixed value is honest and reproducible.
                serial: 1,
                refresh: 604_800,
                retry: 86_400,
                expire: 2_419_200,
                // Negative-cache TTL: deliberately short, because a network's
                // contents change without us being told.
                minimum: 60,
            },
        ),
        (Some(_), None) => {
            add_error(errors, missing_pair_error(globals, "hostmaster", "primary"));
            None
        },
        (None, Some(_)) => {
            add_error(errors, missing_pair_error(globals, "primary", "hostmaster"));
            None
        },
        (None, None) => None,
    };
    Globals { ttl: set.ttl, soa, nameservers: set.nameservers, params: set.params }
}

// ---- zones, together -------------------------------------------------------

/// Zones accepted so far, in the order of the file, with what they have taken and
/// the problems found.
#[verifier::ext_equal]
pub struct ZonesView {
    pub zones: Seq<ZoneView>,
    pub taken: Seq<TakenView>,
    pub errors: Seq<ErrorView>,
}

/// The effect of `network` blocks in order.
pub open spec fn zones_of_blocks(blocks: Seq<RawZoneView>, ttl: u32) -> ZonesView
    decreases blocks.len(),
{
    if blocks.len() == 0 {
        ZonesView { zones: Seq::empty(), taken: Seq::empty(), errors: Seq::empty() }
    } else {
        let st = zones_of_blocks(blocks.drop_last(), ttl);
        let raw = blocks.last();
        match zone_of_block(raw, st.taken, ttl) {
            Ok(zone) => ZonesView {
                zones: st.zones.push(zone),
                taken: st.taken.push(
                    TakenView {
                        prefix: zone.prefix,
                        mask: zone.mask,
                        network_line: raw.network.line,
                        pattern: text::lowered(zone.resolves_to),
                        pattern_line: raw.resolves_to->0.line,
                    },
                ),
                errors: st.errors,
            },
            Err(e) => ZonesView { errors: st.errors.push(e), ..st },
        }
    }
}

/// The zones with a prefix of `mask` bits, in their order.
pub open spec fn zones_with_mask(zones: Seq<ZoneView>, mask: int) -> Seq<ZoneView> {
    zones.filter(|z: ZoneView| z.mask == mask)
}

/// The zones with prefixes from `hi` down to `lo` bits, longest prefix first;
/// zones with equally long prefixes keep their order.
pub open spec fn longest_first(zones: Seq<ZoneView>, hi: int, lo: int) -> Seq<ZoneView>
    decreases hi - lo + 1,
{
    if hi < lo {
        Seq::empty()
    } else {
        zones_with_mask(zones, hi) + longest_first(zones, hi - 1, lo)
    }
}

/// All zones, longest prefix first, ties in their order.
pub open spec fn sorted_zones(zones: Seq<ZoneView>) -> Seq<ZoneView> {
    longest_first(zones, 255, 0)
}

proof fn lemma_longest_first_split(zones: Seq<ZoneView>, hi: int, k: int, lo: int)
    requires
        lo <= k <= hi + 1,
    ensures
        longest_first(zones, hi, lo) == longest_first(zones, hi, k) + longest_first(
            zones,
            k - 1,
            lo,
        ),
    decreases hi - k + 1,
{
    if k <= hi {
        lemma_longest_first_split(zones, hi - 1, k, lo);
        assert(longest_first(zones, hi, lo) =~= longest_first(zones, hi, k) + longest_first(
            zones,
            k - 1,
            lo,
        ));
    } else {
        assert(longest_first(zones, hi, lo) =~= longest_first(zones, hi, k) + longest_first(
            zones,
            k - 1,
            lo,
        ));
    }
}

proof fn lemma_longest_first_masks(zones: Seq<ZoneView>, hi: int, lo: int)
    ensures
        forall|i: int|
            0 <= i < longest_first(zones, hi, lo).len() ==> lo <= (#[trigger] longest_first(
                zones,
                hi,
                lo,
            )[i]).mask <= hi,
    decreases hi - lo + 1,
{
    if hi >= lo {
        lemma_longest_first_masks(zones, hi - 1, lo);
        let head = zones_with_mask(zones, hi);
        assert forall|i: int| 0 <= i < longest_first(zones, hi, lo).len() implies lo <= (
        #[trigger] longest_first(zones, hi, lo)[i]).mask <= hi by {
            if i < head.len() {
                zones.lemma_filter_pred(|z: ZoneView| z.mask == hi, i);
            } else {
                assert(longest_first(zones, hi, lo)[i] == longest_first(zones, hi - 1, lo)[i
                    - head.len()]);
            }
        }
    }
}

/// A zone with another prefix length changes nothing.
proof fn lemma_longest_first_other(zones: Seq<ZoneView>, z: ZoneView, hi: int, lo: int)
    requires
        z.mask < lo || z.mask > hi,
    ensures
        longest_first(zones.push(z), hi, lo) == longest_first(zones, hi, lo),
    decreases hi - lo + 1,
{
    if hi >= lo {
        lemma_longest_first_other(zones, z, hi - 1, lo);
        lemma_filter_push(zones, z, hi);
    }
}

proof fn lemma_filter_push(zones: Seq<ZoneView>, z: ZoneView, mask: int)
    ensures
        zones_with_mask(zones.push(z), mask) == (if z.mask == mask {
            zones_with_mask(zones, mask).push(z)
        } else {
            zones_with_mask(zones, mask)
        }),
{
    let all = zones.push(z);
    reveal(Seq::filter);
    assert(all.drop_last() =~= zones);
}

/// One more zone goes behind all zones with a prefix at least as long.
proof fn lemma_sorted_insert(zones: Seq<ZoneView>, z: ZoneView, at: int)
    requires
        0 <= at <= sorted_zones(zones).len(),
        forall|i: int| 0 <= i < at ==> (#[trigger] sorted_zones(zones)[i]).mask >= z.mask,
        at < sorted_zones(zones).len() ==> sorted_zones(zones)[at].mask < z.mask,
    ensures
        sorted_zones(zones.push(z)) == sorted_zones(zones).insert(at, z),
{
    let k = z.mask as int;
    let s = sorted_zones(zones);
    let upper = longest_first(zones, 255, k);
    let lower = longest_first(zones, k - 1, 0);
    lemma_longest_first_split(zones, 255, k, 0);
    lemma_longest_first_masks(zones, 255, k);
    lemma_longest_first_masks(zones, k - 1, 0);
    assert(s == upper + lower);
    assert(at == upper.len()) by {
        if at < upper.len() {
            assert(s[at] == upper[at]);
        } else if at > upper.len() {
            assert(s[upper.len() as int] == lower[0]);
        }
    }
    // The same, with the new zone.
    let all = zones.push(z);
    lemma_longest_first_split(all, 255, k, 0);
    lemma_longest_first_other(zones, z, k - 1, 0);
    lemma_longest_first_split(all, 255, k + 1, k);
    lemma_longest_first_split(zones, 255, k + 1, k);
    lemma_longest_first_other(zones, z, 255, k + 1);
    lemma_filter_push(zones, z, k);
    let top = longest_first(zones, 255, k + 1);
    assert(longest_first(zones, k - 1, k) =~= Seq::empty());
    assert(longest_first(all, k - 1, k) =~= Seq::empty());
    assert(longest_first(zones, k, k) =~= zones_with_mask(zones, k));
    assert(longest_first(all, k, k) =~= zones_with_mask(zones, k).push(z));
    assert(longest_first(all, 255, k) =~= upper.push(z));
    assert(sorted_zones(all) =~= s.insert(at, z));
}

/// Put a zone behind all zones with a prefix at least as long.
fn insert_zone(zones: &mut Vec<Zone>, zone: Zone, Ghost(all): Ghost<Seq<ZoneView>>)
    requires
        text::views(old(zones)@) == sorted_zones(all),
    ensures
        text::views(final(zones)@) == sorted_zones(all.push(zone@)),
{
    let ghost before = text::views(zones@);
    let mut at: usize = 0;
    while at < zones.len() && zones[at].mask >= zone.mask
        invariant
            before == text::views(zones@),
            at <= zones.len(),
            forall|i: int| 0 <= i < at ==> (#[trigger] before[i]).mask >= zone.mask,
        decreases zones.len() - at,
    {
        assert(before[at as int] == zones@[at as int]@);
        at = at + 1;
    }
    proof {
        if at < zones.len() {
            assert(before[at as int] == zones@[at as int]@);
        }
        lemma_sorted_insert(all, zone@, at as int);
    }
    zones.insert(at, zone);
    assert(text::views(zones@) =~= before.insert(at as int, zone@));
}

/// Check the `network` blocks.
fn compile_zones(blocks: &Vec<RawZone>, ttl: u32, errors: &mut Vec<ConfigError>) -> (r: Vec<Zone>)
    ensures
        ({
            let st = zones_of_blocks(text::views(blocks@), ttl);
            &&& text::views(r@) == sorted_zones(st.zones)
            &&& text::views(final(errors)@) == text::views(old(errors)@) + st.errors
        }),
{
    let ghost all = text::views(blocks@);
    let ghost before = text::views(errors@);
    let mut zones: Vec<Zone> = Vec::new();
    let mut taken: Vec<Taken> = Vec::new();
    proof {
        lemma_no_zones(255);
        assert(text::views(zones@) =~= sorted_zones(Seq::empty()));
        assert(text::views(taken@) =~= Seq::empty());
        assert(before + zones_of_blocks(all.take(0), ttl).errors =~= before);
    }
    for i in 0..blocks.len()
        invariant
            all == text::views(blocks@),
            text::views(zones@) == sorted_zones(zones_of_blocks(all.take(i as int), ttl).zones),
            text::views(taken@) == zones_of_blocks(all.take(i as int), ttl).taken,
            text::views(errors@) == before + zones_of_blocks(all.take(i as int), ttl).errors,
    {
        let ghost st = zones_of_blocks(all.take(i as int), ttl);
        proof {
            assert(all.take(i + 1).drop_last() =~= all.take(i as int));
            assert(all[i as int] == blocks@[i as int]@);
        }
        let raw = &blocks[i];
        match compile_zone(raw, &taken, ttl) {
            Ok(zone) => {
                let pattern_line: u32 = match &raw.resolves_to {
                    Some(v) => v.line,
                    None => 0,
                };
                let entry = Taken {
                    prefix: zone.prefix,
                    mask: zone.mask,
                    network_line: raw.network.line,
                    pattern: text::lowercase(&text::to_chars(zone.resolves_to.as_str())),
                    pattern_line,
                };
                proof {
                    text::lemma_views_push(taken@, entry);
                }
                taken.push(entry);
                insert_zone(&mut zones, zone, Ghost(st.zones));
            },
            Err(e) => {
                add_error(errors, e);
                assert(text::views(errors@) =~= before + zones_of_blocks(
                    all.take(i + 1),
                    ttl,
                ).errors);
            },
        }
    }
    assert(all.take(all.len() as int) =~= all);
    zones
}

proof fn lemma_no_zones(hi: int)
    requires
        hi >= -1,
    ensures
        longest_first(Seq::empty(), hi, 0) == Seq::<ZoneView>::empty(),
    decreases hi + 1,
{
    if hi >= 0 {
        lemma_no_zones(hi - 1);
        reveal(Seq::filter);
        assert(longest_first(Seq::empty(), hi, 0) =~= Seq::<ZoneView>::empty());
    }
}

/// The configuration that directives denote. It is only meant where there are no
/// errors.
pub open spec fn compiled_config(raw: RawConfigView) -> ConfigView {
    let set = settings(raw.globals);
    ConfigView {
        listen: listen_addrs(raw.listen),
        zones: sorted_zones(zones_of_blocks(raw.zones, set.ttl).zones),
        soa: soa_of(set.primary, set.hostmaster),
        nameservers: set.nameservers,
        params: set.params,
    }
}

/// Everything that is wrong with directives.
pub open spec fn compile_errors(raw: RawConfigView) -> Seq<ErrorView> {
    let set = settings(raw.globals);
    listen_errors(raw.listen) + set.errors + soa_errors(raw.globals, set.primary, set.hostmaster)
        + zones_of_blocks(raw.zones, set.ttl).errors
}

/// Check all directives, adding what is wrong with them to `errors`.
pub fn compile(raw: &RawConfig, errors: &mut Vec<ConfigError>) -> (r: Config)
    ensures
        r@ == compiled_config(raw@),
        text::views(final(errors)@) == text::views(old(errors)@) + compile_errors(raw@),
{
    let ghost before = text::views(errors@);
    let listen = compile_listen(&raw.listen, errors);
    let globals = compile_globals(&raw.globals, errors);
    let zones = compile_zones(&raw.zones, globals.ttl, errors);
    assert(text::views(errors@) =~= before + compile_errors(raw@));
    Config {
        listen,
        zones,
        soa: globals.soa,
        nameservers: globals.nameservers,
        params: globals.params,
    }
}

/// Everything that is wrong with a configuration file body.
pub open spec fn errors_in(input: Seq<char>) -> Seq<ErrorView> {
    let read = super::parse::read_lines(text::lines(input));
    read.errors + compile_errors(read.cfg)
}

/// The configuration that a file body denotes. It is only meant where there are
/// no errors.
pub open spec fn config_in(input: Seq<char>) -> ConfigView {
    compiled_config(super::parse::read_lines(text::lines(input)).cfg)
}

impl Config {
    /// Parse and validate a configuration file body.
    ///
    /// Every problem in the file is reported at once rather than one per run.
    pub fn parse(input: &str) -> (r: Result<Config, super::error::ConfigErrors>)
        ensures
            match r {
                Ok(config) => {
                    &&& errors_in(input@).len() == 0
                    &&& config@ == config_in(input@)
                    &&& config@.wf()
                },
                Err(errors) => {
                    &&& errors_in(input@).len() > 0
                    &&& errors@.path is None
                    &&& errors@.errors == errors_in(input@)
                },
            },
    {
        let (raw, mut errors) = super::parse::parse(input);
        let config = compile(&raw, &mut errors);
        if errors.len() == 0 {
            proof {
                assert(text::views(errors@).len() == 0);
                law_config_is_well_formed(input@);
            }
            Ok(config)
        } else {
            Err(super::error::ConfigErrors::new(errors))
        }
    }
}

// ---- laws ------------------------------------------------------------------

/// Digits render to as many bytes whatever they are.
proof fn lemma_rendered_length(template: TemplateView, a: Seq<char>, b: Seq<char>)
    requires
        a.len() == b.len(),
        vstd::utf8::is_ascii_chars(a),
        vstd::utf8::is_ascii_chars(b),
    ensures
        crate::name::labels_fit(template.rendered(a)) == crate::name::labels_fit(
            template.rendered(b),
        ),
{
    let x = template.rendered(a);
    let y = template.rendered(b);
    lemma_ascii_len(a);
    lemma_ascii_len(b);
    lemma_ascii_len(nibble::dashed(a, '-'));
    lemma_ascii_len(nibble::dashed(b, '-'));
    assert forall|i: int| 0 <= i < x.len() implies (#[trigger] x[i]).len() == y[i].len() by {
        assert(x[i] == template.labels[i].filled(a));
        assert(y[i] == template.labels[i].filled(b));
    }
    crate::name::lemma_fit_by_length(x, y);
}

/// ASCII text has one byte per character.
proof fn lemma_ascii_len(s: Seq<char>)
    requires
        vstd::utf8::is_ascii_chars(s),
    ensures
        text::utf8(s).len() == s.len(),
{
    vstd::utf8::is_ascii_chars_encode_utf8(s);
}

proof fn lemma_digits_label(labels: Seq<FwdLabelView>, at: int)
    requires
        0 <= at < labels.len(),
        forall|i: int| 0 <= i < labels.len() ==> (#[trigger] labels[i] is Digits <==> i == at),
    ensures
        digits_label(labels) == Some(at),
    decreases labels.len(),
{
    if at < labels.len() - 1 {
        assert(!(labels[labels.len() - 1] is Digits));
        assert forall|i: int| 0 <= i < labels.drop_last().len() implies (
        #[trigger] labels.drop_last()[i] is Digits <==> i == at) by {
            assert(labels.drop_last()[i] == labels[i]);
        }
        lemma_digits_label(labels.drop_last(), at);
    } else {
        assert(labels[at] is Digits);
    }
}

/// An accepted template has exactly one label with digits, knows its labels in
/// lower case, and makes a valid name of any digits that fill the host part.
pub proof fn law_template_is_well_formed(v: ValueView, host_nibbles: u8)
    requires
        host_nibbles <= 32,
        template_of_value(v, host_nibbles) is Ok,
    ensures
        template_of_value(v, host_nibbles)->Ok_0.wf(host_nibbles),
{
    let template = template_of_value(v, host_nibbles)->Ok_0;
    let lower = text::lowered(v.value);
    let dashed = text::occurrences(lower, placeholder(true)) == 1;
    let pat = placeholder(dashed);
    let cut = text::without_last(v.value, '.');
    let segments = text::pieces(cut, '.');
    reveal_strlit("%digits%");
    reveal_strlit("%digits-dashed%");
    assert(!pat.contains('.'));
    assert(pat.len() > 0);
    assert(text::occurrences(lower, pat) == 1);
    // The dot at the end plays no part.
    if cut != v.value {
        assert(v.value =~= cut + seq!['.'] + Seq::empty());
        assert(lower =~= text::lowered(cut) + seq!['.'] + Seq::empty());
        text::lemma_occurrences_split(text::lowered(cut), '.', Seq::empty(), pat);
    }
    text::lemma_occurrences_pieces(cut, '.', pat);
    let at = text::lemma_one_piece(segments, pat);
    let labels = template.labels;
    assert forall|i: int| 0 <= i < labels.len() implies (#[trigger] labels[i]).wf() && (labels[i]
        is Digits <==> i == at) by {
        text::lemma_find_occurs(text::lowered(segments[i]), pat);
        assert(labels[i] == label_of_segment(segments[i], dashed));
    }
    lemma_digits_label(labels, at);
    assert(labels[at] == label_of_segment(segments[at], dashed));
    assert forall|digits: Seq<u8>|
        nibble::all_hex(digits) && digits.len() == host_nibbles implies crate::name::labels_fit(
        #[trigger] template.rendered(text::ascii(digits)),
    ) by {
        let shown = text::ascii(digits);
        assert forall|i: int| 0 <= i < shown.len() implies '\0' <= #[trigger] shown[i] <= '\u{7f}' by {
            assert(nibble::hex_digit(digits[i]) is Some);
        }
        lemma_rendered_length(template, shown, widest(host_nibbles));
    }
}

/// An accepted zone is well-formed. In particular it never claims the whole
/// reverse namespace.
pub proof fn law_zone_is_well_formed(raw: RawZoneView, taken: Seq<TakenView>, ttl: u32)
    requires
        zone_of_block(raw, taken, ttl) is Ok,
    ensures
        zone_of_block(raw, taken, ttl)->Ok_0.wf(),
        zone_of_block(raw, taken, ttl)->Ok_0.ptr_zone.labels.len() > 2,
{
    let zone = zone_of_block(raw, taken, ttl)->Ok_0;
    law_template_is_well_formed(raw.resolves_to->0, nibbles_below(zone.mask));
}

/// The forward apex of an accepted template is always a name.
pub proof fn law_apex_fits(v: ValueView, host_nibbles: u8)
    requires
        host_nibbles <= 32,
        template_of_value(v, host_nibbles) is Ok,
    ensures
        crate::name::labels_fit(template_of_value(v, host_nibbles)->Ok_0.apex()),
{
    let template = template_of_value(v, host_nibbles)->Ok_0;
    law_template_is_well_formed(v, host_nibbles);
    let names = template.rendered(widest(host_nibbles));
    let k = template.digits_at + 1;
    crate::name::lemma_fit_suffix(names, k);
    assert(names.skip(k) =~= template.apex());
}

/// Zones that are pairwise unlike.
pub open spec fn all_unlike(zones: Seq<ZoneView>) -> bool {
    forall|i: int, j: int|
        0 <= i < zones.len() && 0 <= j < zones.len() && i != j ==> super::unlike(
            #[trigger] zones[i],
            #[trigger] zones[j],
        )
}

/// What has been taken is what the accepted zones have.
pub proof fn lemma_taken(blocks: Seq<RawZoneView>, ttl: u32)
    ensures
        ({
            let st = zones_of_blocks(blocks, ttl);
            &&& st.taken.len() == st.zones.len()
            &&& forall|i: int|
                0 <= i < st.zones.len() ==> {
                    &&& (#[trigger] st.zones[i]).wf()
                    &&& st.zones[i].ttl == ttl
                    &&& st.taken[i].prefix == st.zones[i].prefix
                    &&& st.taken[i].mask == st.zones[i].mask
                    &&& st.taken[i].pattern == text::lowered(st.zones[i].resolves_to)
                }
            &&& all_unlike(st.zones)
        }),
    decreases blocks.len(),
{
    if blocks.len() > 0 {
        lemma_taken(blocks.drop_last(), ttl);
        let st = zones_of_blocks(blocks.drop_last(), ttl);
        let raw = blocks.last();
        if zone_of_block(raw, st.taken, ttl) is Ok {
            let zone = zone_of_block(raw, st.taken, ttl)->Ok_0;
            law_zone_is_well_formed(raw, st.taken, ttl);
            lemma_not_taken(st.taken, zone.prefix, zone.mask, text::lowered(zone.resolves_to));
        }
    }
}

/// What is not taken differs from everything that is.
proof fn lemma_not_taken(taken: Seq<TakenView>, prefix: u128, mask: u8, pattern: Seq<char>)
    requires
        network_taken(taken, prefix, mask) is None,
        pattern_taken(taken, pattern) is None,
    ensures
        forall|i: int|
            0 <= i < taken.len() ==> {
                &&& (#[trigger] taken[i]).prefix != prefix || taken[i].mask != mask
                &&& taken[i].pattern != pattern
            },
    decreases taken.len(),
{
    if taken.len() > 0 {
        let rest = taken.drop_first();
        lemma_not_taken(rest, prefix, mask, pattern);
        assert forall|i: int| 0 <= i < taken.len() implies {
            &&& (#[trigger] taken[i]).prefix != prefix || taken[i].mask != mask
            &&& taken[i].pattern != pattern
        } by {
            if i > 0 {
                assert(taken[i] == rest[i - 1]);
            }
        }
    }
}

/// Sorting keeps the zones and what holds of them.
pub proof fn lemma_sorted(zones: Seq<ZoneView>)
    requires
        all_unlike(zones),
    ensures
        sorted_zones(zones).len() == zones.len(),
        forall|i: int|
            0 <= i < sorted_zones(zones).len() ==> zones.contains(
                #[trigger] sorted_zones(zones)[i],
            ),
        super::sorted_by_mask(sorted_zones(zones)),
        all_unlike(sorted_zones(zones)),
    decreases zones.len(),
{
    if zones.len() == 0 {
        assert(zones =~= Seq::empty());
        lemma_no_zones(255);
    } else {
        let rest = zones.drop_last();
        let z = zones.last();
        assert forall|i: int, j: int|
            0 <= i < rest.len() && 0 <= j < rest.len() && i != j implies super::unlike(
            #[trigger] rest[i],
            #[trigger] rest[j],
        ) by {
            assert(super::unlike(zones[i], zones[j]));
        }
        lemma_sorted(rest);
        let s = sorted_zones(rest);
        let at = longest_first(rest, 255, z.mask as int).len() as int;
        lemma_longest_first_split(rest, 255, z.mask as int, 0);
        lemma_longest_first_masks(rest, 255, z.mask as int);
        lemma_longest_first_masks(rest, z.mask - 1, 0);
        let upper = longest_first(rest, 255, z.mask as int);
        let lower = longest_first(rest, z.mask - 1, 0);
        assert forall|i: int| 0 <= i < at implies (#[trigger] s[i]).mask >= z.mask by {
            assert(s[i] == upper[i]);
        }
        if at < s.len() {
            assert(s[at] == lower[0]);
        }
        lemma_sorted_insert(rest, z, at);
        assert(rest.push(z) =~= zones);
        let t = sorted_zones(zones);
        assert(t == s.insert(at, z));
        assert forall|i: int| 0 <= i < t.len() implies zones.contains(#[trigger] t[i]) by {
            if i == at {
                assert(zones[zones.len() - 1] == t[i]);
            } else {
                let k = if i < at {
                    i
                } else {
                    i - 1
                };
                assert(t[i] == s[k]);
                let m = rest.index_of(s[k]);
                assert(rest.contains(s[k]));
                assert(zones[m] == s[k]);
            }
        }
        assert forall|i: int| 0 <= i < s.len() implies super::unlike(#[trigger] s[i], z)
            && super::unlike(z, s[i]) by {
            assert(rest.contains(s[i]));
            let m = rest.index_of(s[i]);
            assert(zones[m] == s[i] && zones[zones.len() - 1] == z);
            assert(super::unlike(zones[m], zones[zones.len() - 1]));
        }
        assert forall|i: int, j: int|
            0 <= i < t.len() && 0 <= j < t.len() && i != j implies super::unlike(
            #[trigger] t[i],
            #[trigger] t[j],
        ) by {
            let a = if i < at {
                i
            } else {
                i - 1
            };
            let b = if j < at {
                j
            } else {
                j - 1
            };
            if i != at {
                assert(t[i] == s[a]);
            }
            if j != at {
                assert(t[j] == s[b]);
            }
        }
        assert forall|i: int, j: int| 0 <= i <= j < t.len() implies (#[trigger] t[i]).mask >= (
        #[trigger] t[j]).mask by {
            let a = if i < at {
                i
            } else {
                i - 1
            };
            let b = if j < at {
                j
            } else {
                j - 1
            };
            if i != at {
                assert(t[i] == s[a]);
            }
            if j != at {
                assert(t[j] == s[b]);
            }
            if j > at {
                assert(s[at].mask >= s[b].mask);
            }
        }
    }
}

proof fn lemma_settings(globals: Seq<RawGlobalView>)
    ensures
        ({
            let set = settings(globals);
            &&& set.ttl <= 0x7fff_ffff
            &&& set.params.max_udp_payload >= 512
            &&& 1 <= set.params.upstream_timeout <= 10_000
            &&& set.params.rrl.responses_per_second >= 1
            &&& set.params.rrl.burst >= 1
        }),
    decreases globals.len(),
{
    if globals.len() > 0 {
        lemma_settings(globals.drop_last());
    }
}

/// Every configuration that a file denotes is well-formed: its zones are, they are
/// sorted longest prefix first, no two share a network or a pattern, and the knobs
/// are within their bounds.
pub proof fn law_config_is_well_formed(input: Seq<char>)
    ensures
        config_in(input).wf(),
        forall|i: int|
            0 <= i < config_in(input).zones.len() ==> (#[trigger] config_in(input).zones[i]).ttl
                <= 0x7fff_ffff,
{
    let raw = super::parse::read_lines(text::lines(input)).cfg;
    let set = settings(raw.globals);
    lemma_settings(raw.globals);
    lemma_taken(raw.zones, set.ttl);
    let zones = zones_of_blocks(raw.zones, set.ttl).zones;
    lemma_sorted(zones);
    let sorted = sorted_zones(zones);
    assert forall|i: int| 0 <= i < sorted.len() implies (#[trigger] sorted[i]).wf()
        && sorted[i].ttl == set.ttl by {
        assert(zones.contains(sorted[i]));
    }
}

/// Every `network` block becomes a zone or an error, and every `listen` value an
/// address or an error: nothing is passed over.
pub proof fn law_nothing_is_passed_over(
    blocks: Seq<RawZoneView>,
    ttl: u32,
    values: Seq<ValueView>,
)
    ensures
        zones_of_blocks(blocks, ttl).zones.len() + zones_of_blocks(blocks, ttl).errors.len()
            == blocks.len(),
        listen_addrs(values).len() + listen_errors(values).len() == values.len(),
    decreases blocks.len(), values.len(),
{
    if blocks.len() > 0 {
        law_nothing_is_passed_over(blocks.drop_last(), ttl, values);
    } else if values.len() > 0 {
        law_nothing_is_passed_over(blocks, ttl, values.drop_last());
    }
}

} // verus!
