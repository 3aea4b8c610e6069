//! IP addresses and the texts that denote them.

use core::str::FromStr;

use vstd::prelude::*;

use crate::text;

verus! {

/// An IP address, as the number its bits spell.
#[derive(Debug, Clone, Copy, PartialEq, Eq, Hash, Structural)]
pub enum IpAddr {
    V4(u32),
    V6(u128),
}

/// The address that `hickory_proto::rr::rdata::A` reads from a text, if it
/// accepts it.
pub uninterp spec fn ipv4_text(s: Seq<char>) -> Option<u32>;

/// The address that `hickory_proto::rr::rdata::AAAA` reads from a text, if it
/// accepts it.
pub uninterp spec fn ipv6_text(s: Seq<char>) -> Option<u128>;

/// The text that `hickory_proto::rr::rdata::AAAA` prints for an address.
pub uninterp spec fn ipv6_shown(addr: u128) -> Seq<char>;

/// Calls `<hickory_proto::rr::rdata::A as FromStr>::from_str`.
///
/// Claimed of it: whether it accepts a text, and the address it then reads,
/// depend on the text alone.
#[verifier::external_body]
pub(crate) fn parse_ipv4(s: &str) -> (r: Option<u32>)
    ensures
        r == ipv4_text(s@),
{
    hickory_proto::rr::rdata::A::from_str(s).ok().map(|a| u32::from(a.0))
}

/// Calls `<hickory_proto::rr::rdata::AAAA as FromStr>::from_str`.
///
/// Claimed of it: whether it accepts a text, and the address it then reads,
/// depend on the text alone.
#[verifier::external_body]
pub(crate) fn parse_ipv6(s: &str) -> (r: Option<u128>)
    ensures
        r == ipv6_text(s@),
{
    hickory_proto::rr::rdata::AAAA::from_str(s).ok().map(|a| u128::from(a.0))
}

/// Calls `<hickory_proto::rr::rdata::AAAA as Display>::fmt`.
///
/// Claimed of it: the text depends on the address alone.
#[verifier::external_body]
pub(crate) fn show_ipv6(addr: u128) -> (r: String)
    ensures
        r@ == ipv6_shown(addr),
{
    hickory_proto::rr::rdata::AAAA(addr.into()).to_string()
}

/// The address a text denotes: IPv4 or IPv6.
pub open spec fn ip_text(s: Seq<char>) -> Option<IpAddr> {
    match ipv4_text(s) {
        Some(a) => Some(IpAddr::V4(a)),
        None => match ipv6_text(s) {
            Some(a) => Some(IpAddr::V6(a)),
            None => None,
        },
    }
}

/// The address and port a text denotes: `ADDR:PORT` for IPv4, `[ADDR]:PORT` or
/// `[ADDR%SCOPE]:PORT` for IPv6. The scope is a number; it is not kept.
pub open spec fn socket_text(s: Seq<char>) -> Option<(IpAddr, u16)> {
    if s.len() > 0 && s[0] == '[' {
        let close = text::index_of_char(s, ']');
        let inner = s.subrange(1, close);
        let percent = text::index_of_char(inner, '%');
        if close + 1 >= s.len() || s[close + 1] != ':' {
            None
        } else if percent < inner.len() && text::number(inner.skip(percent + 1), u32::MAX as nat) is None {
            None
        } else {
            match (
                ipv6_text(inner.take(percent)),
                text::number(s.skip(close + 2), u16::MAX as nat),
            ) {
                (Some(a), Some(port)) => Some((IpAddr::V6(a), port as u16)),
                _ => None,
            }
        }
    } else {
        let colon = text::index_of_char(s, ':');
        if colon >= s.len() {
            None
        } else {
            match (ipv4_text(s.take(colon)), text::number(s.skip(colon + 1), u16::MAX as nat)) {
                (Some(a), Some(port)) => Some((IpAddr::V4(a), port as u16)),
                _ => None,
            }
        }
    }
}

/// Read an IP address of either family.
pub fn parse_ip(s: &str) -> (r: Option<IpAddr>)
    ensures
        r == ip_text(s@),
{
    match parse_ipv4(s) {
        Some(a) => Some(IpAddr::V4(a)),
        None => match parse_ipv6(s) {
            Some(a) => Some(IpAddr::V6(a)),
            None => None,
        },
    }
}

/// Read an address with a port.
pub fn parse_socket(s: &str) -> (r: Option<(IpAddr, u16)>)
    ensures
        r == socket_text(s@),
{
    let c = text::to_chars(s);
    if c.len() > 0 && c[0] == '[' {
        let close: usize = text::find_char(&c, ']');
        if close >= c.len() || close + 1 >= c.len() || c[close + 1] != ':' {
            return None;
        }
        let inner = vstd::slice::slice_subrange(c.as_slice(), 1, close);
        let percent: usize = text::find_char(inner, '%');
        if percent < inner.len() {
            if text::parse_number(text::rest_of(inner, percent + 1), 0xffff_ffff).is_none() {
                return None;
            }
        }
        let addr = parse_ipv6(text::to_text(text::head_of(inner, percent)).as_str());
        let port = text::parse_number(text::rest_of(&c, close + 2), 0xffff);
        match (addr, port) {
            (Some(a), Some(port)) => Some((IpAddr::V6(a), port as u16)),
            _ => None,
        }
    } else {
        let colon: usize = text::find_char(&c, ':');
        if colon >= c.len() {
            return None;
        }
        let addr = parse_ipv4(text::to_text(text::head_of(&c, colon)).as_str());
        let port = text::parse_number(text::rest_of(&c, colon + 1), 0xffff);
        match (addr, port) {
            (Some(a), Some(port)) => Some((IpAddr::V4(a), port as u16)),
            _ => None,
        }
    }
}

/// A text denotes an IPv4 address where it is one, and an IPv6 address only where it is
/// one and no IPv4 address.
pub proof fn law_an_address_is_of_the_family_it_is_written_in(s: Seq<char>)
    ensures
        match ip_text(s) {
            Some(IpAddr::V4(a)) => ipv4_text(s) == Some(a),
            Some(IpAddr::V6(a)) => ipv4_text(s) is None && ipv6_text(s) == Some(a),
            None => ipv4_text(s) is None && ipv6_text(s) is None,
        },
{
}

/// What is read as an address with a port is one: an IPv4 address up to the first colon,
/// or an IPv6 address in brackets, with a scope behind a percent sign at most; and
/// decimal digits of a number below 65536 behind the colon.
pub proof fn law_socket_addresses_have_address_and_port(s: Seq<char>, addr: IpAddr, port: u16)
    requires
        socket_text(s) == Some((addr, port)),
    ensures
        match addr {
            IpAddr::V4(a) => exists|n: int|
                {
                    &&& 0 <= n < s.len()
                    &&& #[trigger] s[n] == ':'
                    &&& ipv4_text(s.take(n)) == Some(a)
                    &&& text::number(s.skip(n + 1), 0xffff) == Some(port as nat)
                },
            IpAddr::V6(a) => exists|n: int|
                {
                    &&& 1 <= n < s.len() - 1
                    &&& s[0] == '['
                    &&& #[trigger] s[n] == ']'
                    &&& s[n + 1] == ':'
                    &&& text::number(s.skip(n + 2), 0xffff) == Some(port as nat)
                    &&& ipv6_text(s.subrange(1, n)) == Some(a) || s.subrange(1, n).contains('%')
                },
        },
{
    if s.len() > 0 && s[0] == '[' {
        text::law_first_place_of_a_character(s, ']');
        let n = text::index_of_char(s, ']');
        let inner = s.subrange(1, n);
        text::law_first_place_of_a_character(inner, '%');
        let p = text::index_of_char(inner, '%');
        if p < inner.len() {
            assert(inner[p] == '%');
        } else {
            assert(inner.take(p) =~= inner);
        }
        assert(s[n] == ']');
    } else {
        text::law_first_place_of_a_character(s, ':');
        let n = text::index_of_char(s, ':');
        assert(s[n] == ':');
    }
}

} // verus!
