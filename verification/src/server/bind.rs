//! Where to listen, and what to say when that fails.

use vstd::prelude::*;
use vstd::string::*;

use crate::config::compile;
use crate::config::{Config, ListenAddr, DEFAULT_PORT};
use crate::net::IpAddr;
use crate::text;

verus! {

/// Why an address could not be bound, as far as there is advice to give.
#[derive(Debug, Clone, Copy, PartialEq, Eq, Structural)]
pub enum BindFailure {
    PermissionDenied,
    AddrNotAvailable,
    Other,
}

/// The advice that goes with a bind failure.
pub open spec fn bind_hint(port: u16, failure: BindFailure) -> Seq<char> {
    match failure {
        BindFailure::PermissionDenied => if port < 1024 {
            " (binding a port below 1024 needs CAP_NET_BIND_SERVICE, or run with --sysctl net.ipv4.ip_unprivileged_port_start=0, or pick a high port and publish it)"@
        } else {
            ""@
        },
        BindFailure::AddrNotAvailable => {
            " (the address does not exist on this host — a config copied from elsewhere often hardcodes addresses; override with --listen)"@
        },
        BindFailure::Other => ""@,
    }
}

/// Turn a bind failure into something an operator can act on. `addr` is the text
/// of the address with its port, `reason` what the system said.
pub fn bind_error(addr: &str, port: u16, failure: BindFailure, reason: &str) -> (r: String)
    ensures
        r@ == "cannot bind "@ + addr@ + ": "@ + reason@ + bind_hint(port, failure),
{
    let hint: &str = match failure {
        BindFailure::PermissionDenied => {
            if port < 1024 {
                " (binding a port below 1024 needs CAP_NET_BIND_SERVICE, or run with --sysctl net.ipv4.ip_unprivileged_port_start=0, or pick a high port and publish it)"
            } else {
                ""
            }
        },
        BindFailure::AddrNotAvailable => {
            " (the address does not exist on this host — a config copied from elsewhere often hardcodes addresses; override with --listen)"
        },
        BindFailure::Other => "",
    };
    let mut out = text::join3("cannot bind ", addr, ": ");
    out.append(reason);
    out.append(hint);
    out
}

/// Both wildcards at `port`.
pub open spec fn wildcards(port: u16) -> Seq<ListenAddr> {
    seq![ListenAddr { addr: IpAddr::V4(0), port }, ListenAddr { addr: IpAddr::V6(0), port }]
}

/// The default bind set when neither the config nor the command line names one:
/// both wildcards, which is what a container almost always wants.
pub fn default_listen(port: u16) -> (r: Vec<ListenAddr>)
    ensures
        r@ == wildcards(port),
{
    let r: Vec<ListenAddr> = vec![
        ListenAddr { addr: IpAddr::V4(0), port },
        ListenAddr { addr: IpAddr::V6(0), port },
    ];
    assert(r@ =~= wildcards(port));
    r
}

/// What is wrong with a `--listen` value that denotes no address.
pub open spec fn listen_complaint(s: Seq<char>) -> Seq<char> {
    "--listen "@ + s + ": not an IP address or address:port"@
}

/// Read one `--listen` value.
pub fn parse_listen(s: &str) -> (r: Result<ListenAddr, String>)
    ensures
        match r {
            Ok(addr) => compile::listen_of_text(s@) == Some(addr),
            Err(e) => compile::listen_of_text(s@) is None && e@ == listen_complaint(s@),
        },
{
    match compile::read_listen(s) {
        Some(addr) => Ok(addr),
        None => Err(text::join3("--listen ", s, ": not an IP address or address:port")),
    }
}

/// The addresses that `--listen` values denote, whitespace around them ignored, or
/// the complaint about the first that denotes none.
pub open spec fn cli_addrs(values: Seq<Seq<char>>) -> Result<Seq<ListenAddr>, Seq<char>>
    decreases values.len(),
{
    if values.len() == 0 {
        Ok(Seq::empty())
    } else {
        match cli_addrs(values.drop_last()) {
            Err(e) => Err(e),
            Ok(before) => {
                let s = text::trimmed(values.last());
                match compile::listen_of_text(s) {
                    Some(addr) => Ok(before.push(addr)),
                    None => Err(listen_complaint(s)),
                }
            },
        }
    }
}

proof fn lemma_complaint_stays(values: Seq<Seq<char>>, k: int)
    requires
        0 <= k <= values.len(),
    ensures
        cli_addrs(values.take(k)) is Err ==> cli_addrs(values) == cli_addrs(values.take(k)),
    decreases values.len() - k,
{
    if k == values.len() {
        assert(values.take(k) =~= values);
    } else {
        lemma_complaint_stays(values, k + 1);
        assert(values.take(k + 1).drop_last() =~= values.take(k));
    }
}

/// Resolve the effective bind set: the command line wins over the config file, and
/// if neither says anything we take both wildcards on port 53.
pub fn effective_listen(cli: &Vec<String>, config: &Config) -> (r: Result<Vec<ListenAddr>, String>)
    ensures
        ({
            let want = if cli@.len() > 0 {
                cli_addrs(text::views(cli@))
            } else if config@.listen.len() > 0 {
                Ok(config@.listen)
            } else {
                Ok(wildcards(DEFAULT_PORT))
            };
            want == (match r {
                Ok(addrs) => Ok(addrs@),
                Err(e) => Err(e@),
            })
        }),
{
    if cli.len() > 0 {
        let ghost all = text::views(cli@);
        let mut out: Vec<ListenAddr> = Vec::new();
        for i in 0..cli.len()
            invariant
                all == text::views(cli@),
                cli_addrs(all.take(i as int)) == Ok::<_, Seq<char>>(out@),
        {
            proof {
                assert(all.take(i + 1).drop_last() =~= all.take(i as int));
                assert(all[i as int] == cli@[i as int]@);
                lemma_complaint_stays(all, i + 1);
            }
            let value = text::to_chars(cli[i].as_str());
            match parse_listen(text::to_text(text::trim(&value)).as_str()) {
                Ok(addr) => {
                    out.push(addr);
                },
                Err(e) => {
                    assert(cli@.len() > 0);
                    return Err(e);
                },
            }
        }
        assert(all.take(all.len() as int) =~= all);
        return Ok(out);
    }
    if config.listen.len() > 0 {
        return Ok(vstd::slice::slice_to_vec(config.listen.as_slice()));
    }
    Ok(default_listen(DEFAULT_PORT))
}

} // verus!
