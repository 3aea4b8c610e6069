//! Line-numbered configuration diagnostics.
//!
//! Every problem points at the offending line, and all of them are reported at
//! once rather than one per run.

use core::ops::Range;

use vstd::prelude::*;
use vstd::string::*;

use crate::text;

verus! {

/// A single configuration problem, anchored to the line that caused it.
#[derive(Debug, Clone, PartialEq, Eq)]
pub struct ConfigError {
    /// 1-based line number.
    pub line: u32,
    /// The offending line, verbatim (whitespace preserved, so carets line up).
    pub snippet: String,
    /// Byte range within `snippet` to underline, if known.
    pub span: Option<Range<usize>>,
    pub kind: ConfigErrorKind,
}

/// What specifically was wrong.
#[derive(Debug, Clone, PartialEq, Eq)]
pub enum ConfigErrorKind {
    NotUtf8,
    UnknownDirective { keyword: String },
    /// A recognised keyword with nothing after it.
    MissingValue { keyword: &'static str },
    /// A zone-scoped directive appeared before any `network` line.
    DirectiveBeforeNetwork { keyword: &'static str },
    /// A global setting appeared after a `network`. Indentation carries no
    /// meaning in this format, so position is the only unambiguous scope rule.
    GlobalAfterNetwork { keyword: &'static str },
    /// A numeric directive value did not parse, or was out of range.
    InvalidNumber { what: &'static str, allowed: &'static str },
    /// A directive expecting a DNS name got something else.
    InvalidDnsName { what: &'static str },
    /// An enumerated directive value was not one of the permitted words.
    InvalidChoice { what: &'static str, allowed: &'static str },
    /// Two directives only make sense together (SOA needs both halves).
    MissingCompanionDirective { missing: &'static str, present: String },
    DuplicateDirective { keyword: &'static str, first_line: u32 },
    MissingResolvesTo,
    NetworkMissingPrefixLen,
    NetworkInvalidAddress,
    NetworkPrefixLenNotANumber,
    NetworkPrefixLenOutOfRange { mask: u32 },
    /// One `ip6.arpa` label carries exactly one nibble, so a prefix that does
    /// not end on a nibble boundary cannot map onto a zone.
    NetworkPrefixNotNibbleAligned { mask: u8 },
    /// Bits below the prefix length were set, e.g. `2a00:15a0::192:/64`.
    NetworkHostBitsSet { suggestion: String },
    /// `/0` would claim the entire IPv6 reverse namespace.
    NetworkPrefixTooShort { mask: u8 },
    /// `/128` leaves no digits for `%DIGITS%` to vary.
    NetworkIsSingleAddress,
    DuplicateNetwork { first_line: u32 },
    PlaceholderMissing,
    PlaceholderRepeated { count: usize },
    /// `%DIGITS-DASHED%` groups hex digits in 4s; a host part that is not a
    /// multiple of 4 digits wide would leave the last group's width ambiguous
    /// to invert when matching a forward query.
    DashedDigitsNotNibbleMultipleOfFour { host_nibbles: u8 },
    /// The template cannot produce a valid DNS name even before digits are
    /// substituted.
    ResolvesToInvalidName { reason: String },
    /// The widest possible synthesized name (all-`f` digits) would exceed a DNS
    /// limit. Checked once at startup so that synthesis cannot fail.
    ForwardNameTooLong { reason: String },
    DuplicateForwardPattern { first_line: u32 },
    InvalidListenAddress,
    InvalidUpstreamAddress,
}

/// What a [`ConfigErrorKind`] says.
#[verifier::ext_equal]
pub enum KindView {
    NotUtf8,
    UnknownDirective { keyword: Seq<char> },
    MissingValue { keyword: Seq<char> },
    DirectiveBeforeNetwork { keyword: Seq<char> },
    GlobalAfterNetwork { keyword: Seq<char> },
    InvalidNumber { what: Seq<char>, allowed: Seq<char> },
    InvalidDnsName { what: Seq<char> },
    InvalidChoice { what: Seq<char>, allowed: Seq<char> },
    MissingCompanionDirective { missing: Seq<char>, present: Seq<char> },
    DuplicateDirective { keyword: Seq<char>, first_line: u32 },
    MissingResolvesTo,
    NetworkMissingPrefixLen,
    NetworkInvalidAddress,
    NetworkPrefixLenNotANumber,
    NetworkPrefixLenOutOfRange { mask: u32 },
    NetworkPrefixNotNibbleAligned { mask: u8 },
    NetworkHostBitsSet { suggestion: Seq<char> },
    NetworkPrefixTooShort { mask: u8 },
    NetworkIsSingleAddress,
    DuplicateNetwork { first_line: u32 },
    PlaceholderMissing,
    PlaceholderRepeated { count: nat },
    DashedDigitsNotNibbleMultipleOfFour { host_nibbles: u8 },
    ResolvesToInvalidName { reason: Seq<char> },
    ForwardNameTooLong { reason: Seq<char> },
    DuplicateForwardPattern { first_line: u32 },
    InvalidListenAddress,
    InvalidUpstreamAddress,
}

/// What a [`ConfigError`] says. The span is a pair of byte offsets.
#[verifier::ext_equal]
pub struct ErrorView {
    pub line: u32,
    pub snippet: Seq<char>,
    pub span: Option<(int, int)>,
    pub kind: KindView,
}

impl View for ConfigErrorKind {
    type V = KindView;

    open spec fn view(&self) -> KindView {
        match *self {
            ConfigErrorKind::NotUtf8 => KindView::NotUtf8,
            ConfigErrorKind::UnknownDirective { keyword } => KindView::UnknownDirective {
                keyword: keyword@,
            },
            ConfigErrorKind::MissingValue { keyword } => KindView::MissingValue {
                keyword: keyword@,
            },
            ConfigErrorKind::DirectiveBeforeNetwork { keyword } => {
                KindView::DirectiveBeforeNetwork { keyword: keyword@ }
            },
            ConfigErrorKind::GlobalAfterNetwork { keyword } => KindView::GlobalAfterNetwork {
                keyword: keyword@,
            },
            ConfigErrorKind::InvalidNumber { what, allowed } => KindView::InvalidNumber {
                what: what@,
                allowed: allowed@,
            },
            ConfigErrorKind::InvalidDnsName { what } => KindView::InvalidDnsName { what: what@ },
            ConfigErrorKind::InvalidChoice { what, allowed } => KindView::InvalidChoice {
                what: what@,
                allowed: allowed@,
            },
            ConfigErrorKind::MissingCompanionDirective { missing, present } => {
                KindView::MissingCompanionDirective { missing: missing@, present: present@ }
            },
            ConfigErrorKind::DuplicateDirective { keyword, first_line } => {
                KindView::DuplicateDirective { keyword: keyword@, first_line }
            },
            ConfigErrorKind::MissingResolvesTo => KindView::MissingResolvesTo,
            ConfigErrorKind::NetworkMissingPrefixLen => KindView::NetworkMissingPrefixLen,
            ConfigErrorKind::NetworkInvalidAddress => KindView::NetworkInvalidAddress,
            ConfigErrorKind::NetworkPrefixLenNotANumber => KindView::NetworkPrefixLenNotANumber,
            ConfigErrorKind::NetworkPrefixLenOutOfRange { mask } => {
                KindView::NetworkPrefixLenOutOfRange { mask }
            },
            ConfigErrorKind::NetworkPrefixNotNibbleAligned { mask } => {
                KindView::NetworkPrefixNotNibbleAligned { mask }
            },
            ConfigErrorKind::NetworkHostBitsSet { suggestion } => KindView::NetworkHostBitsSet {
                suggestion: suggestion@,
            },
            ConfigErrorKind::NetworkPrefixTooShort { mask } => KindView::NetworkPrefixTooShort {
                mask,
            },
            ConfigErrorKind::NetworkIsSingleAddress => KindView::NetworkIsSingleAddress,
            ConfigErrorKind::DuplicateNetwork { first_line } => KindView::DuplicateNetwork {
                first_line,
            },
            ConfigErrorKind::PlaceholderMissing => KindView::PlaceholderMissing,
            ConfigErrorKind::PlaceholderRepeated { count } => KindView::PlaceholderRepeated {
                count: count as nat,
            },
            ConfigErrorKind::DashedDigitsNotNibbleMultipleOfFour { host_nibbles } => {
                KindView::DashedDigitsNotNibbleMultipleOfFour { host_nibbles }
            },
            ConfigErrorKind::ResolvesToInvalidName { reason } => KindView::ResolvesToInvalidName {
                reason: reason@,
            },
            ConfigErrorKind::ForwardNameTooLong { reason } => KindView::ForwardNameTooLong {
                reason: reason@,
            },
            ConfigErrorKind::DuplicateForwardPattern { first_line } => {
                KindView::DuplicateForwardPattern { first_line }
            },
            ConfigErrorKind::InvalidListenAddress => KindView::InvalidListenAddress,
            ConfigErrorKind::InvalidUpstreamAddress => KindView::InvalidUpstreamAddress,
        }
    }
}

/// The byte offsets of a span.
pub open spec fn span_view(span: Option<Range<usize>>) -> Option<(int, int)> {
    match span {
        Some(range) => Some((range.start as int, range.end as int)),
        None => None,
    }
}

impl View for ConfigError {
    type V = ErrorView;

    open spec fn view(&self) -> ErrorView {
        ErrorView {
            line: self.line,
            snippet: self.snippet@,
            span: span_view(self.span),
            kind: self.kind@,
        }
    }
}

impl KindView {
    /// The headline message.
    pub open spec fn message(self) -> Seq<char> {
        match self {
            KindView::NotUtf8 => "line is not valid UTF-8"@,
            KindView::UnknownDirective { keyword } => "unknown directive `"@ + keyword + "`"@,
            KindView::MissingValue { keyword } => "`"@ + keyword + "` requires a value"@,
            KindView::DirectiveBeforeNetwork { keyword } => "`"@ + keyword
                + "` appears before any `network` directive"@,
            KindView::GlobalAfterNetwork { keyword } => "`"@ + keyword
                + "` is a global setting and must appear before the first `network`"@,
            KindView::InvalidNumber { what, .. } => "`"@ + what + "` is not a valid number"@,
            KindView::InvalidDnsName { what } => "`"@ + what + "` is not a valid DNS name"@,
            KindView::InvalidChoice { what, .. } => "invalid value for `"@ + what + "`"@,
            KindView::MissingCompanionDirective { missing, present } => "`"@ + present
                + "` is set but `"@ + missing + "` is missing; a SOA record needs both"@,
            KindView::DuplicateDirective { keyword, first_line } => "duplicate `"@ + keyword
                + "` for this network (first set on line "@ + text::decimal(first_line as nat)
                + ")"@,
            KindView::MissingResolvesTo => "this `network` has no `resolves to` directive"@,
            KindView::NetworkMissingPrefixLen => {
                "network is missing a prefix length, e.g. `/64`"@
            },
            KindView::NetworkInvalidAddress => "not a valid IPv6 address"@,
            KindView::NetworkPrefixLenNotANumber => "prefix length is not a number"@,
            KindView::NetworkPrefixLenOutOfRange { mask } => "prefix length /"@ + text::decimal(
                mask as nat,
            ) + " is out of range (0-128)"@,
            KindView::NetworkPrefixNotNibbleAligned { mask } => "prefix length /"@ + text::decimal(
                mask as nat,
            ) + " is not nibble-aligned (must be a multiple of 4)"@,
            KindView::NetworkHostBitsSet { .. } => {
                "network has bits set below its prefix length"@
            },
            KindView::NetworkPrefixTooShort { mask } => "prefix length /"@ + text::decimal(
                mask as nat,
            ) + " would make this server authoritative for all of ip6.arpa"@,
            KindView::NetworkIsSingleAddress => {
                "/128 is a single address, leaving no digits for %DIGITS%"@
            },
            KindView::DuplicateNetwork { first_line } => "network is already configured on line "@
                + text::decimal(first_line as nat),
            KindView::PlaceholderMissing => {
                "`resolves to` must contain %DIGITS% or %DIGITS-DASHED%"@
            },
            KindView::PlaceholderRepeated { count } => {
                "`resolves to` contains %DIGITS%/%DIGITS-DASHED% "@ + text::decimal(count)
                    + " times, expected exactly once"@
            },
            KindView::DashedDigitsNotNibbleMultipleOfFour { host_nibbles } => {
                "%DIGITS-DASHED% needs a host part that is a multiple of 4 hex digits wide, but this network's is "@
                    + text::decimal(host_nibbles as nat)
            },
            KindView::ResolvesToInvalidName { reason } => {
                "`resolves to` is not a valid DNS name: "@ + reason
            },
            KindView::ForwardNameTooLong { reason } => {
                "the widest name this template can produce is invalid: "@ + reason
            },
            KindView::DuplicateForwardPattern { first_line } => {
                "this `resolves to` pattern is already used on line "@ + text::decimal(
                    first_line as nat,
                )
            },
            KindView::InvalidListenAddress => "not a valid IP address or address:port"@,
            KindView::InvalidUpstreamAddress => "not a valid IP address"@,
        }
    }

    /// An optional actionable hint printed under the caret.
    pub open spec fn hint(self) -> Option<Seq<char>> {
        match self {
            KindView::NetworkMissingPrefixLen => Some(
                "a `network` without a prefix length is what made AllKnowingDNS claim the whole ip6.arpa namespace"@,
            ),
            KindView::NetworkPrefixNotNibbleAligned { .. } => Some(
                "expected /0, /4, /8, … /128"@,
            ),
            KindView::NetworkHostBitsSet { suggestion } => Some(
                "did you mean `"@ + suggestion + "`?"@,
            ),
            KindView::PlaceholderMissing => Some(
                "e.g. `resolves to ipv6-%DIGITS%.example.net`"@,
            ),
            KindView::DashedDigitsNotNibbleMultipleOfFour { .. } => Some(
                "prefix length must leave a multiple of 4 hex digits, e.g. /48, /96"@,
            ),
            KindView::InvalidListenAddress => Some(
                "e.g. `listen 2001:db8::1`, `listen 0.0.0.0`, `listen [::]:5353`"@,
            ),
            KindView::InvalidNumber { allowed, .. } => Some("expected "@ + allowed),
            KindView::InvalidChoice { allowed, .. } => Some("expected "@ + allowed),
            KindView::InvalidDnsName { .. } => Some(
                "e.g. `ns1.example.net.` (a trailing dot is optional)"@,
            ),
            KindView::GlobalAfterNetwork { .. } => Some(
                "indentation is decorative in this format, so globals are recognised by position"@,
            ),
            _ => None,
        }
    }
}

impl ConfigErrorKind {
    /// The headline message.
    pub fn message(&self) -> (r: String)
        ensures
            r@ == self@.message(),
    {
        match self {
            ConfigErrorKind::NotUtf8 => "line is not valid UTF-8".to_owned(),
            ConfigErrorKind::UnknownDirective { keyword } => {
                text::join3("unknown directive `", keyword.as_str(), "`")
            },
            ConfigErrorKind::MissingValue { keyword } => {
                text::join3("`", keyword, "` requires a value")
            },
            ConfigErrorKind::DirectiveBeforeNetwork { keyword } => {
                text::join3("`", keyword, "` appears before any `network` directive")
            },
            ConfigErrorKind::GlobalAfterNetwork { keyword } => {
                text::join3(
                    "`",
                    keyword,
                    "` is a global setting and must appear before the first `network`",
                )
            },
            ConfigErrorKind::InvalidNumber { what, .. } => {
                text::join3("`", what, "` is not a valid number")
            },
            ConfigErrorKind::InvalidDnsName { what } => {
                text::join3("`", what, "` is not a valid DNS name")
            },
            ConfigErrorKind::InvalidChoice { what, .. } => {
                text::join3("invalid value for `", what, "`")
            },
            ConfigErrorKind::MissingCompanionDirective { missing, present } => {
                let mut out = text::join3("`", present.as_str(), "` is set but `");
                out.append(missing);
                out.append("` is missing; a SOA record needs both");
                out
            },
            ConfigErrorKind::DuplicateDirective { keyword, first_line } => {
                let mut out = text::join3(
                    "duplicate `",
                    keyword,
                    "` for this network (first set on line ",
                );
                out.append(text::decimal_text(*first_line as u64).as_str());
                out.append(")");
                out
            },
            ConfigErrorKind::MissingResolvesTo => {
                "this `network` has no `resolves to` directive".to_owned()
            },
            ConfigErrorKind::NetworkMissingPrefixLen => {
                "network is missing a prefix length, e.g. `/64`".to_owned()
            },
            ConfigErrorKind::NetworkInvalidAddress => "not a valid IPv6 address".to_owned(),
            ConfigErrorKind::NetworkPrefixLenNotANumber => {
                "prefix length is not a number".to_owned()
            },
            ConfigErrorKind::NetworkPrefixLenOutOfRange { mask } => {
                text::join3(
                    "prefix length /",
                    text::decimal_text(*mask as u64).as_str(),
                    " is out of range (0-128)",
                )
            },
            ConfigErrorKind::NetworkPrefixNotNibbleAligned { mask } => {
                text::join3(
                    "prefix length /",
                    text::decimal_text(*mask as u64).as_str(),
                    " is not nibble-aligned (must be a multiple of 4)",
                )
            },
            ConfigErrorKind::NetworkHostBitsSet { .. } => {
                "network has bits set below its prefix length".to_owned()
            },
            ConfigErrorKind::NetworkPrefixTooShort { mask } => {
                text::join3(
                    "prefix length /",
                    text::decimal_text(*mask as u64).as_str(),
                    " would make this server authoritative for all of ip6.arpa",
                )
            },
            ConfigErrorKind::NetworkIsSingleAddress => {
                "/128 is a single address, leaving no digits for %DIGITS%".to_owned()
            },
            ConfigErrorKind::DuplicateNetwork { first_line } => {
                text::join2(
                    "network is already configured on line ",
                    text::decimal_text(*first_line as u64).as_str(),
                )
            },
            ConfigErrorKind::PlaceholderMissing => {
                "`resolves to` must contain %DIGITS% or %DIGITS-DASHED%".to_owned()
            },
            ConfigErrorKind::PlaceholderRepeated { count } => {
                text::join3(
                    "`resolves to` contains %DIGITS%/%DIGITS-DASHED% ",
                    text::decimal_text(*count as u64).as_str(),
                    " times, expected exactly once",
                )
            },
            ConfigErrorKind::DashedDigitsNotNibbleMultipleOfFour { host_nibbles } => {
                text::join2(
                    "%DIGITS-DASHED% needs a host part that is a multiple of 4 hex digits wide, but this network's is ",
                    text::decimal_text(*host_nibbles as u64).as_str(),
                )
            },
            ConfigErrorKind::ResolvesToInvalidName { reason } => {
                text::join2("`resolves to` is not a valid DNS name: ", reason.as_str())
            },
            ConfigErrorKind::ForwardNameTooLong { reason } => {
                text::join2(
                    "the widest name this template can produce is invalid: ",
                    reason.as_str(),
                )
            },
            ConfigErrorKind::DuplicateForwardPattern { first_line } => {
                text::join2(
                    "this `resolves to` pattern is already used on line ",
                    text::decimal_text(*first_line as u64).as_str(),
                )
            },
            ConfigErrorKind::InvalidListenAddress => {
                "not a valid IP address or address:port".to_owned()
            },
            ConfigErrorKind::InvalidUpstreamAddress => "not a valid IP address".to_owned(),
        }
    }

    /// An optional actionable hint printed under the caret.
    pub fn hint(&self) -> (r: Option<String>)
        ensures
            self@.hint() == (match r {
                Some(hint) => Some(hint@),
                None => None,
            }),
    {
        match self {
            ConfigErrorKind::NetworkMissingPrefixLen => Some(
                "a `network` without a prefix length is what made AllKnowingDNS claim the whole ip6.arpa namespace".to_owned(),
            ),
            ConfigErrorKind::NetworkPrefixNotNibbleAligned { .. } => Some(
                "expected /0, /4, /8, … /128".to_owned(),
            ),
            ConfigErrorKind::NetworkHostBitsSet { suggestion } => Some(
                text::join3("did you mean `", suggestion.as_str(), "`?"),
            ),
            ConfigErrorKind::PlaceholderMissing => Some(
                "e.g. `resolves to ipv6-%DIGITS%.example.net`".to_owned(),
            ),
            ConfigErrorKind::DashedDigitsNotNibbleMultipleOfFour { .. } => Some(
                "prefix length must leave a multiple of 4 hex digits, e.g. /48, /96".to_owned(),
            ),
            ConfigErrorKind::InvalidListenAddress => Some(
                "e.g. `listen 2001:db8::1`, `listen 0.0.0.0`, `listen [::]:5353`".to_owned(),
            ),
            ConfigErrorKind::InvalidNumber { allowed, .. } => Some(
                text::join2("expected ", allowed),
            ),
            ConfigErrorKind::InvalidChoice { allowed, .. } => Some(
                text::join2("expected ", allowed),
            ),
            ConfigErrorKind::InvalidDnsName { .. } => Some(
                "e.g. `ns1.example.net.` (a trailing dot is optional)".to_owned(),
            ),
            ConfigErrorKind::GlobalAfterNetwork { .. } => Some(
                "indentation is decorative in this format, so globals are recognised by position".to_owned(),
            ),
            _ => None,
        }
    }
}

impl ConfigError {
    /// The headline message, without the place.
    pub fn to_string(&self) -> (r: String)
        ensures
            r@ == self@.kind.message(),
    {
        self.kind.message()
    }
}

/// The blanks that put a caret under byte `start` of a line. Tabs are mirrored,
/// so that the caret lines up whatever their width.
pub open spec fn caret_pad(snippet: Seq<char>, start: int) -> Seq<char> {
    let bytes = text::utf8(snippet);
    let n = if start < bytes.len() {
        start
    } else {
        bytes.len() as int
    };
    bytes.take(n).map_values(
        |b: u8|
            if b == 9 {
                '\t'
            } else {
                ' '
            },
    )
}

/// The larger of a length and 1.
pub open spec fn at_least_one(n: int) -> nat {
    if n >= 1 {
        n as nat
    } else {
        1
    }
}

impl ErrorView {
    /// The blanks and carets under the offending line.
    pub open spec fn marks(self) -> Seq<char> {
        match self.span {
            Some((start, end)) => caret_pad(self.snippet, start) + text::repeated(
                '^',
                at_least_one(end - start),
            ),
            None => text::repeated('^', at_least_one(text::utf8(self.snippet).len() as int)),
        }
    }

    /// What follows the carets.
    pub open spec fn tail(self) -> Seq<char> {
        match self.kind.hint() {
            Some(hint) => " "@ + hint,
            None => Seq::empty(),
        }
    }

    /// The report on one problem, five lines of it.
    pub open spec fn report(self, path: Seq<char>) -> Seq<char> {
        let number = text::decimal(self.line as nat);
        let gutter = text::repeated(' ', number.len());
        "error: "@ + self.kind.message() + "\n"@ + gutter + "--> "@ + path + ":"@ + number
            + "\n"@ + gutter + " |\n"@ + number + " | "@ + self.snippet + "\n"@ + gutter + " | "@
            + self.marks() + self.tail() + "\n"@
    }
}

/// The reports on all problems, with a blank line between two of them.
pub open spec fn reports(errors: Seq<ErrorView>, path: Seq<char>) -> Seq<char>
    decreases errors.len(),
{
    if errors.len() == 0 {
        Seq::empty()
    } else if errors.len() == 1 {
        errors[0].report(path)
    } else {
        reports(errors.drop_last(), path) + "\n"@ + errors.last().report(path)
    }
}

/// The closing line.
pub open spec fn verdict(count: nat) -> Seq<char> {
    "\naborting due to "@ + text::decimal(count) + " configuration "@ + (if count == 1 {
        "error"@
    } else {
        "errors"@
    })
}

/// The text that stands for the path of the file.
pub open spec fn shown_path(path: Option<Seq<char>>) -> Seq<char> {
    match path {
        Some(path) => path,
        None => "<config>"@,
    }
}

/// All problems found in one configuration file, rendered together.
#[derive(Debug, Clone, PartialEq, Eq)]
pub struct ConfigErrors {
    pub path: Option<String>,
    pub errors: Vec<ConfigError>,
}

/// What [`ConfigErrors`] hold.
#[verifier::ext_equal]
pub struct ErrorsView {
    pub path: Option<Seq<char>>,
    pub errors: Seq<ErrorView>,
}

impl View for ConfigErrors {
    type V = ErrorsView;

    open spec fn view(&self) -> ErrorsView {
        ErrorsView {
            path: match self.path {
                Some(path) => Some(path@),
                None => None,
            },
            errors: text::views(self.errors@),
        }
    }
}

/// The blanks that put a caret under byte `start` of `snippet`.
fn pad_to(snippet: &str, start: usize) -> (r: String)
    ensures
        r@ == caret_pad(snippet@, start as int),
{
    let bytes = snippet.as_bytes();
    let n: usize = if start < bytes.len() {
        start
    } else {
        bytes.len()
    };
    let ghost want = caret_pad(snippet@, start as int);
    let mut out: String = String::new();
    for i in 0..n
        invariant
            bytes@ == text::utf8(snippet@),
            n <= bytes@.len(),
            want == caret_pad(snippet@, start as int),
            want.len() == n,
            out@ == want.take(i as int),
    {
        if bytes[i] == 9 {
            out.push('\t');
        } else {
            out.push(' ');
        }
        assert(out@ =~= want.take(i + 1));
    }
    assert(want.take(n as int) =~= want);
    out
}

impl ConfigError {
    /// The report on this problem.
    fn report(&self, path: &str) -> (r: String)
        ensures
            r@ == self@.report(path@),
    {
        let number = text::decimal_text(self.line as u64);
        let digits: usize = text::to_chars(number.as_str()).len();
        let gutter = text::repeat_char(' ', digits);
        let mut out = text::join3("error: ", self.kind.message().as_str(), "\n");
        out.append(gutter.as_str());
        out.append("--> ");
        out.append(path);
        out.append(":");
        out.append(number.as_str());
        out.append("\n");
        out.append(gutter.as_str());
        out.append(" |\n");
        out.append(number.as_str());
        out.append(" | ");
        out.append(self.snippet.as_str());
        out.append("\n");
        out.append(gutter.as_str());
        out.append(" | ");
        let marks = self.marks();
        out.append(marks.as_str());
        if let Some(hint) = self.kind.hint() {
            let tail = text::join2(" ", hint.as_str());
            out.append(tail.as_str());
        } else {
            assert(out@ + Seq::<char>::empty() =~= out@);
        }
        out.append("\n");
        out
    }

    /// The blanks and carets under the offending line.
    fn marks(&self) -> (r: String)
        ensures
            r@ == self@.marks(),
    {
        match &self.span {
            Some(span) => {
                let width: usize = if span.end > span.start {
                    span.end - span.start
                } else {
                    1
                };
                let mut out = pad_to(self.snippet.as_str(), span.start);
                out.append(text::repeat_char('^', width).as_str());
                out
            },
            None => {
                let len: usize = self.snippet.as_str().as_bytes().len();
                text::repeat_char(
                    '^',
                    if len >= 1 {
                        len
                    } else {
                        1
                    },
                )
            },
        }
    }
}

impl ConfigErrors {
    /// These problems, found in a file whose path is not known.
    pub fn new(errors: Vec<ConfigError>) -> (r: Self)
        ensures
            r@.path is None,
            r@.errors == text::views(errors@),
    {
        ConfigErrors { path: None, errors }
    }

    /// Attach the source path so diagnostics can point at it.
    pub fn with_path(self, path: &str) -> (r: Self)
        ensures
            r@.path == Some(path@),
            r@.errors == self@.errors,
    {
        ConfigErrors { path: Some(path.to_owned()), errors: self.errors }
    }

    pub fn is_empty(&self) -> (r: bool)
        ensures
            r == (self@.errors.len() == 0),
    {
        self.errors.len() == 0
    }

    pub fn len(&self) -> (r: usize)
        ensures
            r == self@.errors.len(),
    {
        self.errors.len()
    }

    /// All problems, rustc-style, because operators already know how to read it:
    ///
    /// ```text
    /// error: prefix length /63 is not nibble-aligned (must be a multiple of 4)
    ///   --> /etc/panoptidns/panoptidns.conf:12
    ///    |
    /// 12 |     network 2001:db8::/63
    ///    |                       ^^^ expected /0, /4, /8, … /128
    /// ```
    pub fn to_string(&self) -> (r: String)
        ensures
            r@ == reports(self@.errors, shown_path(self@.path)) + verdict(self@.errors.len()),
    {
        let path: String = match &self.path {
            Some(path) => path.clone(),
            None => "<config>".to_owned(),
        };
        let mut out: String = String::new();
        assert(reports(self@.errors.take(0), path@) =~= Seq::empty());
        for i in 0..self.errors.len()
            invariant
                out@ == reports(self@.errors.take(i as int), path@),
        {
            proof {
                assert(self@.errors.take(i + 1).drop_last() =~= self@.errors.take(i as int));
                assert(self@.errors[i as int] == self.errors@[i as int]@);
            }
            if i > 0 {
                out.append("\n");
            } else {
                assert(Seq::<char>::empty() + self.errors@[0]@.report(path@)
                    =~= self.errors@[0]@.report(path@));
            }
            out.append(self.errors[i].report(path.as_str()).as_str());
        }
        assert(self@.errors.take(self@.errors.len() as int) =~= self@.errors);
        let n: usize = self.errors.len();
        let mut end = text::join3(
            "\naborting due to ",
            text::decimal_text(n as u64).as_str(),
            " configuration ",
        );
        end.append(
            if n == 1 {
                "error"
            } else {
                "errors"
            },
        );
        out.append(end.as_str());
        out
    }
}

} // verus!
