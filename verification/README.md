# PanoptiDNS

A small authoritative DNS server that synthesizes IPv6 reverse (PTR) and matching
forward (AAAA) records on the fly. The mapping between an address and a hostname is
a pure function, so no zone file for a /64 is ever written: it is computed per
query, in both directions.

```
network 2001:db8:100e:ccc0::/64
    resolves to ipv6-%DIGITS%.nutzer.example.net
    with upstream 2001:db8:100e:1::2
```

## Layout

- `src/` is the library. What each function returns or changes is stated in its
  contract and proved by Verus; proof functions named `law_…` state what holds of
  several functions together.
  - `text`, `name`, `net`, `record`: characters, domain names, addresses, records
  - `nibble`: addresses as hex digits and as reverse names
  - `config`: reading and validating the configuration file, with diagnostics
  - `zone`: matching a query name and synthesizing records
  - `upstream`: relaying PTR records of an upstream, and its circuit breaker
  - `rrl`: response rate limiting
  - `server`: which reply a request gets, which addresses to listen on, and what a
    reload leaves in force
- `app/` is the program: command line, sockets, signals, and the conversions
  between the library's values and those of hickory.
- `tests/` are the tests of the library.

## What is taken on trust

Domain names are checked and read, and addresses are read and printed, by
`hickory-proto`; token buckets are those of `governor`. Each call stands in a small
function marked `external_body`, whose comment says what is claimed of it. Times are
left open throughout: a rate-limit decision is stated for some point in time, and so
is a sweep, but not for which.
