//! Line-oriented parser for the configuration format.
//!
//! Grammar (keywords case-insensitive, leading indentation decorative):
//!
//! ```text
//! # global settings — must precede the first `network`
//! listen <addr>[:port]
//! primary <name>            # SOA MNAME
//! hostmaster <name>         # SOA RNAME
//! ns <name>                 # repeatable
//! ttl <seconds>
//! out-of-zone refused|nxdomain
//! max-udp-payload <bytes>
//! upstream-timeout <milliseconds>
//! rrl off | rrl responses-per-second <n> | rrl burst <n> | rrl slip <n>
//!
//! network <ipv6>/<prefixlen>
//!     resolves to <template containing %DIGITS%>
//!     with upstream <addr>
//! ```
//!
//! `#` starts a comment, but only as the first non-whitespace character of a
//! line. Global directives must appear before the first `network`: indentation
//! carries no meaning, so position is the only unambiguous scope rule.
//!
//! This stage only splits directives from values. All semantic validation
//! happens in [`super::compile`].

use core::ops::Range;

use vstd::prelude::*;

use super::error::{ConfigError, ConfigErrorKind, ErrorView, KindView};
use crate::text;

verus! {

/// A directive value together with enough provenance to point a caret at it.
#[derive(Debug, PartialEq, Eq)]
pub struct RawValue {
    pub line: u32,
    pub raw_line: String,
    /// Byte range of the value within `raw_line`.
    pub span: Range<usize>,
    pub value: String,
}

/// What a [`RawValue`] holds; `start` and `end` are byte offsets.
#[verifier::ext_equal]
pub struct ValueView {
    pub line: u32,
    pub raw_line: Seq<char>,
    pub start: int,
    pub end: int,
    pub value: Seq<char>,
}

impl View for RawValue {
    type V = ValueView;

    open spec fn view(&self) -> ValueView {
        ValueView {
            line: self.line,
            raw_line: self.raw_line@,
            start: self.span.start as int,
            end: self.span.end as int,
            value: self.value@,
        }
    }
}

/// The smaller of two offsets.
pub open spec fn least(a: int, b: int) -> int {
    if a < b {
        a
    } else {
        b
    }
}

impl ValueView {
    /// An error anchored at this value.
    pub open spec fn error(self, kind: KindView) -> ErrorView {
        ErrorView {
            line: self.line,
            snippet: self.raw_line,
            span: Some((self.start, self.end)),
            kind,
        }
    }

    /// An error anchored at `len` bytes of this value from `offset` on, as far as
    /// they lie within it.
    pub open spec fn error_at(self, offset: int, len: int, kind: KindView) -> ErrorView {
        let start = least(self.start + offset, self.end);
        let end = least(
            start + len,
            if self.end > start {
                self.end
            } else {
                start
            },
        );
        ErrorView { line: self.line, snippet: self.raw_line, span: Some((start, end)), kind }
    }
}

impl RawValue {
    /// Build an error anchored at this value.
    pub fn error(&self, kind: ConfigErrorKind) -> (r: ConfigError)
        ensures
            r@ == self@.error(kind@),
    {
        ConfigError {
            line: self.line,
            snippet: self.raw_line.clone(),
            span: Some(self.span.start..self.span.end),
            kind,
        }
    }

    /// Build an error anchored at a sub-range of this value.
    pub fn error_at(&self, offset: usize, len: usize, kind: ConfigErrorKind) -> (r: ConfigError)
        ensures
            r@ == self@.error_at(offset as int, len as int, kind@),
    {
        let sum: usize = self.span.start.saturating_add(offset);
        let start: usize = if sum < self.span.end {
            sum
        } else {
            self.span.end
        };
        let sum: usize = start.saturating_add(len);
        let limit: usize = if self.span.end > start {
            self.span.end
        } else {
            start
        };
        let end: usize = if sum < limit {
            sum
        } else {
            limit
        };
        ConfigError {
            line: self.line,
            snippet: self.raw_line.clone(),
            span: Some(start..end),
            kind,
        }
    }
}

/// One `network` block, before validation.
#[derive(Debug, PartialEq, Eq)]
pub struct RawZone {
    pub network: RawValue,
    pub resolves_to: Option<RawValue>,
    pub upstream: Option<RawValue>,
}

#[verifier::ext_equal]
pub struct RawZoneView {
    pub network: ValueView,
    pub resolves_to: Option<ValueView>,
    pub upstream: Option<ValueView>,
}

pub open spec fn value_view(v: Option<RawValue>) -> Option<ValueView> {
    match v {
        Some(v) => Some(v@),
        None => None,
    }
}

impl View for RawZone {
    type V = RawZoneView;

    open spec fn view(&self) -> RawZoneView {
        RawZoneView {
            network: self.network@,
            resolves_to: value_view(self.resolves_to),
            upstream: value_view(self.upstream),
        }
    }
}

/// A global setting, before validation.
#[derive(Debug, Clone, Copy, PartialEq, Eq, Structural)]
pub enum GlobalKey {
    Primary,
    Hostmaster,
    Ns,
    Ttl,
    OutOfZone,
    MaxUdpPayload,
    UpstreamTimeout,
    RrlOff,
    RrlRps,
    RrlBurst,
    RrlSlip,
}

#[derive(Debug, PartialEq, Eq)]
pub struct RawGlobal {
    pub key: GlobalKey,
    pub value: RawValue,
}

#[verifier::ext_equal]
pub struct RawGlobalView {
    pub key: GlobalKey,
    pub value: ValueView,
}

impl View for RawGlobal {
    type V = RawGlobalView;

    open spec fn view(&self) -> RawGlobalView {
        RawGlobalView { key: self.key, value: self.value@ }
    }
}

/// The whole file, before validation.
#[derive(Debug, PartialEq, Eq)]
pub struct RawConfig {
    pub listen: Vec<RawValue>,
    pub zones: Vec<RawZone>,
    pub globals: Vec<RawGlobal>,
}

#[verifier::ext_equal]
pub struct RawConfigView {
    pub listen: Seq<ValueView>,
    pub zones: Seq<RawZoneView>,
    pub globals: Seq<RawGlobalView>,
}

impl View for RawConfig {
    type V = RawConfigView;

    open spec fn view(&self) -> RawConfigView {
        RawConfigView {
            listen: text::views(self.listen@),
            zones: text::views(self.zones@),
            globals: text::views(self.globals@),
        }
    }
}

/// Where a directive may appear.
#[derive(Debug, Clone, Copy, PartialEq, Eq, Structural)]
pub enum Scope {
    /// Before the first `network`.
    Global,
    /// Attaches to the current `network`.
    Zone,
    /// Valid anywhere.
    Anywhere,
}

/// What to do with the parsed value.
#[derive(Debug, Clone, Copy, PartialEq, Eq, Structural)]
pub enum Target {
    Listen,
    Network,
    ResolvesTo,
    Upstream,
    Global(GlobalKey),
}

/// The directives that take a value.
#[derive(Debug, Clone, Copy, PartialEq, Eq, Structural)]
pub enum Directive {
    ResolvesTo,
    WithUpstream,
    RrlRps,
    RrlBurst,
    RrlSlip,
    UpstreamTimeout,
    MaxUdpPayload,
    OutOfZone,
    Hostmaster,
    Primary,
    Network,
    Listen,
    Ttl,
    Ns,
}

/// The order in which directives are tried: longest keywords first.
pub open spec fn directives() -> Seq<Directive> {
    seq![
        Directive::ResolvesTo,
        Directive::WithUpstream,
        Directive::RrlRps,
        Directive::RrlBurst,
        Directive::RrlSlip,
        Directive::UpstreamTimeout,
        Directive::MaxUdpPayload,
        Directive::OutOfZone,
        Directive::Hostmaster,
        Directive::Primary,
        Directive::Network,
        Directive::Listen,
        Directive::Ttl,
        Directive::Ns,
    ]
}

fn all_directives() -> (r: Vec<Directive>)
    ensures
        r@ == directives(),
{
    let r: Vec<Directive> = vec![
        Directive::ResolvesTo,
        Directive::WithUpstream,
        Directive::RrlRps,
        Directive::RrlBurst,
        Directive::RrlSlip,
        Directive::UpstreamTimeout,
        Directive::MaxUdpPayload,
        Directive::OutOfZone,
        Directive::Hostmaster,
        Directive::Primary,
        Directive::Network,
        Directive::Listen,
        Directive::Ttl,
        Directive::Ns,
    ];
    assert(r@ =~= directives());
    r
}

impl Directive {
    /// Keyword words, matched case-insensitively with flexible whitespace
    /// between them.
    pub open spec fn keyword(self) -> Seq<Seq<char>> {
        match self {
            Directive::ResolvesTo => seq!["resolves"@, "to"@],
            Directive::WithUpstream => seq!["with"@, "upstream"@],
            Directive::RrlRps => seq!["rrl"@, "responses-per-second"@],
            Directive::RrlBurst => seq!["rrl"@, "burst"@],
            Directive::RrlSlip => seq!["rrl"@, "slip"@],
            Directive::UpstreamTimeout => seq!["upstream-timeout"@],
            Directive::MaxUdpPayload => seq!["max-udp-payload"@],
            Directive::OutOfZone => seq!["out-of-zone"@],
            Directive::Hostmaster => seq!["hostmaster"@],
            Directive::Primary => seq!["primary"@],
            Directive::Network => seq!["network"@],
            Directive::Listen => seq!["listen"@],
            Directive::Ttl => seq!["ttl"@],
            Directive::Ns => seq!["ns"@],
        }
    }

    /// The keyword as diagnostics show it.
    pub open spec fn shown(self) -> Seq<char> {
        match self {
            Directive::ResolvesTo => "resolves to"@,
            Directive::WithUpstream => "with upstream"@,
            Directive::RrlRps => "rrl responses-per-second"@,
            Directive::RrlBurst => "rrl burst"@,
            Directive::RrlSlip => "rrl slip"@,
            Directive::UpstreamTimeout => "upstream-timeout"@,
            Directive::MaxUdpPayload => "max-udp-payload"@,
            Directive::OutOfZone => "out-of-zone"@,
            Directive::Hostmaster => "hostmaster"@,
            Directive::Primary => "primary"@,
            Directive::Network => "network"@,
            Directive::Listen => "listen"@,
            Directive::Ttl => "ttl"@,
            Directive::Ns => "ns"@,
        }
    }

    /// What the value is for.
    pub open spec fn use_of_value(self) -> Target {
        match self {
            Directive::ResolvesTo => Target::ResolvesTo,
            Directive::WithUpstream => Target::Upstream,
            Directive::RrlRps => Target::Global(GlobalKey::RrlRps),
            Directive::RrlBurst => Target::Global(GlobalKey::RrlBurst),
            Directive::RrlSlip => Target::Global(GlobalKey::RrlSlip),
            Directive::UpstreamTimeout => Target::Global(GlobalKey::UpstreamTimeout),
            Directive::MaxUdpPayload => Target::Global(GlobalKey::MaxUdpPayload),
            Directive::OutOfZone => Target::Global(GlobalKey::OutOfZone),
            Directive::Hostmaster => Target::Global(GlobalKey::Hostmaster),
            Directive::Primary => Target::Global(GlobalKey::Primary),
            Directive::Network => Target::Network,
            Directive::Listen => Target::Listen,
            Directive::Ttl => Target::Global(GlobalKey::Ttl),
            Directive::Ns => Target::Global(GlobalKey::Ns),
        }
    }

    /// Where the directive may stand.
    pub open spec fn place(self) -> Scope {
        match self.use_of_value() {
            Target::Global(_) => Scope::Global,
            Target::ResolvesTo => Scope::Zone,
            Target::Upstream => Scope::Zone,
            Target::Listen => Scope::Anywhere,
            Target::Network => Scope::Anywhere,
        }
    }

    fn words(self) -> (r: Vec<&'static str>)
        ensures
            text::views(r@) == self.keyword(),
    {
        let r: Vec<&'static str> = match self {
            Directive::ResolvesTo => vec!["resolves", "to"],
            Directive::WithUpstream => vec!["with", "upstream"],
            Directive::RrlRps => vec!["rrl", "responses-per-second"],
            Directive::RrlBurst => vec!["rrl", "burst"],
            Directive::RrlSlip => vec!["rrl", "slip"],
            Directive::UpstreamTimeout => vec!["upstream-timeout"],
            Directive::MaxUdpPayload => vec!["max-udp-payload"],
            Directive::OutOfZone => vec!["out-of-zone"],
            Directive::Hostmaster => vec!["hostmaster"],
            Directive::Primary => vec!["primary"],
            Directive::Network => vec!["network"],
            Directive::Listen => vec!["listen"],
            Directive::Ttl => vec!["ttl"],
            Directive::Ns => vec!["ns"],
        };
        assert(text::views(r@) =~= self.keyword());
        r
    }

    fn display(self) -> (r: &'static str)
        ensures
            r@ == self.shown(),
    {
        match self {
            Directive::ResolvesTo => "resolves to",
            Directive::WithUpstream => "with upstream",
            Directive::RrlRps => "rrl responses-per-second",
            Directive::RrlBurst => "rrl burst",
            Directive::RrlSlip => "rrl slip",
            Directive::UpstreamTimeout => "upstream-timeout",
            Directive::MaxUdpPayload => "max-udp-payload",
            Directive::OutOfZone => "out-of-zone",
            Directive::Hostmaster => "hostmaster",
            Directive::Primary => "primary",
            Directive::Network => "network",
            Directive::Listen => "listen",
            Directive::Ttl => "ttl",
            Directive::Ns => "ns",
        }
    }

    fn target(self) -> (r: Target)
        ensures
            r == self.use_of_value(),
    {
        match self {
            Directive::ResolvesTo => Target::ResolvesTo,
            Directive::WithUpstream => Target::Upstream,
            Directive::RrlRps => Target::Global(GlobalKey::RrlRps),
            Directive::RrlBurst => Target::Global(GlobalKey::RrlBurst),
            Directive::RrlSlip => Target::Global(GlobalKey::RrlSlip),
            Directive::UpstreamTimeout => Target::Global(GlobalKey::UpstreamTimeout),
            Directive::MaxUdpPayload => Target::Global(GlobalKey::MaxUdpPayload),
            Directive::OutOfZone => Target::Global(GlobalKey::OutOfZone),
            Directive::Hostmaster => Target::Global(GlobalKey::Hostmaster),
            Directive::Primary => Target::Global(GlobalKey::Primary),
            Directive::Network => Target::Network,
            Directive::Listen => Target::Listen,
            Directive::Ttl => Target::Global(GlobalKey::Ttl),
            Directive::Ns => Target::Global(GlobalKey::Ns),
        }
    }

    fn scope(self) -> (r: Scope)
        ensures
            r == self.place(),
    {
        match self.target() {
            Target::Global(_) => Scope::Global,
            Target::ResolvesTo => Scope::Zone,
            Target::Upstream => Scope::Zone,
            Target::Listen => Scope::Anywhere,
            Target::Network => Scope::Anywhere,
        }
    }
}

// ---- keywords --------------------------------------------------------------

/// How many characters the keyword words take at the start of a line, or `None`
/// if the line does not start with them. Whitespace must separate the words;
/// with `gap` it must come before the first one too.
pub open spec fn words_len(line: Seq<char>, words: Seq<Seq<char>>, gap: bool) -> Option<int>
    decreases words.len(),
{
    if words.len() == 0 {
        Some(0)
    } else {
        let skip = if gap {
            text::leading_spaces(line)
        } else {
            0
        };
        let rest = line.skip(skip);
        if gap && skip == 0 {
            None
        } else if !text::starts_with_ci(rest, words[0]) {
            None
        } else {
            match words_len(rest.skip(words[0].len() as int), words.drop_first(), true) {
                Some(n) => Some(skip + words[0].len() + n),
                None => None,
            }
        }
    }
}

/// The value after a keyword: where it starts, and the value without the
/// whitespace at its end. There must be whitespace before it, and it must not be
/// empty.
pub open spec fn keyword_value(line: Seq<char>, words: Seq<Seq<char>>) -> Option<(int, Seq<char>)> {
    match words_len(line, words, false) {
        Some(n) => {
            let skip = text::leading_spaces(line.skip(n));
            let value = text::trimmed_end(line.skip(n + skip));
            if skip == 0 || value.len() == 0 {
                None
            } else {
                Some((n + skip, value))
            }
        },
        None => None,
    }
}

/// The whole line is exactly these keyword words.
pub open spec fn is_flag(line: Seq<char>, words: Seq<Seq<char>>) -> bool {
    match words_len(line, words, false) {
        Some(n) => text::leading_spaces(line.skip(n)) == line.len() - n,
        None => false,
    }
}

/// The line's first word is `word`.
pub open spec fn first_word_is(line: Seq<char>, word: Seq<char>) -> bool {
    text::starts_with_ci(line, word) && (line.len() == word.len() || text::space(
        line[word.len() as int],
    ))
}

/// The words of the one directive that takes no value.
pub open spec fn rrl_off_words() -> Seq<Seq<char>> {
    seq!["rrl"@, "off"@]
}

/// The first directive, from number `i` on, that a line is an instance of, with
/// where its value starts and the value.
pub open spec fn find_directive(line: Seq<char>, i: int) -> Option<(Directive, int, Seq<char>)>
    decreases directives().len() - i,
{
    if i < 0 || i >= directives().len() {
        None
    } else {
        match keyword_value(line, directives()[i].keyword()) {
            Some((offset, value)) => Some((directives()[i], offset, value)),
            None => find_directive(line, i + 1),
        }
    }
}

/// The keyword, from number `i` on, that starts with the line's first word.
pub open spec fn known_keyword(line: Seq<char>, i: int) -> Option<Seq<char>>
    decreases directives().len() - i,
{
    if i < 0 || i >= directives().len() {
        if first_word_is(line, rrl_off_words()[0]) {
            Some("rrl off"@)
        } else {
            None
        }
    } else if first_word_is(line, directives()[i].keyword()[0]) {
        Some(directives()[i].shown())
    } else {
        known_keyword(line, i + 1)
    }
}

/// Match the keyword words, returning how many characters they take.
fn match_words(line: &[char], words: &[&'static str], gap: bool) -> (r: Option<usize>)
    ensures
        words_len(line@, text::views(words@), gap) == (match r {
            Some(n) => Some(n as int),
            None => None,
        }),
        r matches Some(n) ==> n <= line.len(),
    decreases words@.len(),
{
    if words.len() == 0 {
        return Some(0);
    }
    let skip: usize = if gap {
        text::count_leading_spaces(line)
    } else {
        0
    };
    if gap && skip == 0 {
        return None;
    }
    let rest = text::rest_of(line, skip);
    let word = text::to_chars(words[0]);
    assert(word@ == text::views(words@)[0]);
    if !text::has_prefix_ci(rest, &word) {
        return None;
    }
    let more = vstd::slice::slice_subrange(words, 1, words.len());
    assert(text::views(more@) =~= text::views(words@).drop_first());
    match match_words(text::rest_of(rest, word.len()), more, true) {
        Some(n) => Some(skip + word.len() + n),
        None => None,
    }
}

/// Case-insensitively match a keyword, returning where the value starts and how
/// long it is.
fn strip_keyword(line: &[char], words: &[&'static str]) -> (r: Option<(usize, usize)>)
    ensures
        match r {
            Some((offset, len)) => {
                &&& offset + len <= line.len()
                &&& keyword_value(line@, text::views(words@)) == Some(
                    (offset as int, line@.subrange(offset as int, offset + len)),
                )
            },
            None => keyword_value(line@, text::views(words@)) is None,
        },
{
    match match_words(line, words, false) {
        Some(n) => {
            let skip: usize = text::count_leading_spaces(text::rest_of(line, n));
            if skip == 0 {
                return None;
            }
            let rest = text::rest_of(line, n + skip);
            let len: usize = text::trimmed_end_len(rest);
            if len == 0 {
                return None;
            }
            assert(rest@.take(len as int) =~= line@.subrange(n + skip, n + skip + len));
            Some((n + skip, len))
        },
        None => None,
    }
}

/// True if the whole line is exactly these keyword words.
fn matches_flag(line: &[char], words: &[&'static str]) -> (r: bool)
    ensures
        r == is_flag(line@, text::views(words@)),
{
    match match_words(line, words, false) {
        Some(n) => text::count_leading_spaces(text::rest_of(line, n)) == line.len() - n,
        None => false,
    }
}

/// True if the line's first word is `word`.
fn starts_with_word(line: &[char], word: &str) -> (r: bool)
    ensures
        r == first_word_is(line@, word@),
{
    let w = text::to_chars(word);
    text::has_prefix_ci(line, &w) && (line.len() == w.len() || text::is_space(line[w.len()]))
}

// ---- the parser ------------------------------------------------------------

/// What has been read so far: the directives, and the problems.
#[verifier::ext_equal]
pub struct ParsedView {
    pub cfg: RawConfigView,
    pub errors: Seq<ErrorView>,
}

/// Nothing read yet.
pub open spec fn nothing_read() -> ParsedView {
    ParsedView {
        cfg: RawConfigView { listen: Seq::empty(), zones: Seq::empty(), globals: Seq::empty() },
        errors: Seq::empty(),
    }
}

/// The line of the first setting of `key`.
pub open spec fn first_line_of(globals: Seq<RawGlobalView>, key: GlobalKey) -> Option<u32>
    decreases globals.len(),
{
    if globals.len() == 0 {
        None
    } else if globals[0].key == key {
        Some(globals[0].value.line)
    } else {
        first_line_of(globals.drop_first(), key)
    }
}

/// The characters `from` to `to` of a line as a value.
pub open spec fn value_at(
    line: u32,
    raw: Seq<char>,
    from: int,
    to: int,
    value: Seq<char>,
) -> ValueView {
    ValueView {
        line,
        raw_line: raw,
        start: text::byte_offset(raw, from),
        end: text::byte_offset(raw, to),
        value,
    }
}

/// The error for a line that is no directive with a value: a known keyword
/// lacks its value, or the keyword is unknown. It underlines the first word.
pub open spec fn unmatched_line(line: u32, raw: Seq<char>, indent: int) -> ErrorView {
    let body = raw.skip(indent);
    let n = text::word_len(body);
    value_at(line, raw, indent, indent + n, Seq::empty()).error(
        match known_keyword(body, 0) {
            Some(keyword) => KindView::MissingValue { keyword },
            None => KindView::UnknownDirective { keyword: body.take(n) },
        },
    )
}

impl ParsedView {
    /// One more problem.
    pub open spec fn fail(self, error: ErrorView) -> ParsedView {
        ParsedView { errors: self.errors.push(error), ..self }
    }

    /// One more global setting.
    pub open spec fn with_global(self, key: GlobalKey, value: ValueView) -> ParsedView {
        ParsedView {
            cfg: RawConfigView {
                globals: self.cfg.globals.push(RawGlobalView { key, value }),
                ..self.cfg
            },
            ..self
        }
    }

    /// The last zone replaced.
    pub open spec fn with_last_zone(self, zone: RawZoneView) -> ParsedView {
        ParsedView {
            cfg: RawConfigView { zones: self.cfg.zones.drop_last().push(zone), ..self.cfg },
            ..self
        }
    }

    /// The effect of a directive with a value.
    pub open spec fn accept(self, d: Directive, v: ValueView) -> ParsedView {
        let duplicate = |first_line: u32|
            self.fail(v.error(KindView::DuplicateDirective { keyword: d.shown(), first_line }));
        if d.place() == Scope::Global && self.cfg.zones.len() > 0 {
            self.fail(v.error(KindView::GlobalAfterNetwork { keyword: d.shown() }))
        } else if d.place() == Scope::Zone && self.cfg.zones.len() == 0 {
            self.fail(v.error(KindView::DirectiveBeforeNetwork { keyword: d.shown() }))
        } else {
            match d.use_of_value() {
                Target::Listen => ParsedView {
                    cfg: RawConfigView { listen: self.cfg.listen.push(v), ..self.cfg },
                    ..self
                },
                Target::Network => ParsedView {
                    cfg: RawConfigView {
                        zones: self.cfg.zones.push(
                            RawZoneView { network: v, resolves_to: None, upstream: None },
                        ),
                        ..self.cfg
                    },
                    ..self
                },
                Target::ResolvesTo => match self.cfg.zones.last().resolves_to {
                    Some(first) => duplicate(first.line),
                    None => self.with_last_zone(
                        RawZoneView { resolves_to: Some(v), ..self.cfg.zones.last() },
                    ),
                },
                Target::Upstream => match self.cfg.zones.last().upstream {
                    Some(first) => duplicate(first.line),
                    None => self.with_last_zone(
                        RawZoneView { upstream: Some(v), ..self.cfg.zones.last() },
                    ),
                },
                Target::Global(key) => match first_line_of(self.cfg.globals, key) {
                    Some(first_line) => if key == GlobalKey::Ns {
                        self.with_global(key, v)
                    } else {
                        duplicate(first_line)
                    },
                    None => self.with_global(key, v),
                },
            }
        }
    }

    /// The effect of one line.
    pub open spec fn read_line(self, line: u32, raw: Seq<char>) -> ParsedView {
        let indent = text::leading_spaces(raw);
        let body = raw.skip(indent);
        if body.len() == 0 || body[0] == '#' {
            self
        } else if is_flag(body, rrl_off_words()) {
            let v = value_at(line, raw, indent, raw.len() as int, Seq::empty());
            if self.cfg.zones.len() > 0 {
                self.fail(v.error(KindView::GlobalAfterNetwork { keyword: "rrl off"@ }))
            } else {
                self.with_global(GlobalKey::RrlOff, v)
            }
        } else {
            match find_directive(body, 0) {
                None => self.fail(unmatched_line(line, raw, indent)),
                Some((d, offset, value)) => self.accept(
                    d,
                    value_at(
                        line,
                        raw,
                        indent + offset,
                        indent + offset + value.len(),
                        if d == Directive::ResolvesTo {
                            value
                        } else {
                            text::lowered(value)
                        },
                    ),
                ),
            }
        }
    }
}

/// The number of the line at index `i`, as far as numbers go.
pub open spec fn line_number(i: int) -> u32 {
    if i + 1 <= u32::MAX {
        (i + 1) as u32
    } else {
        u32::MAX
    }
}

/// The effect of reading lines in order.
pub open spec fn read_lines(lines: Seq<Seq<char>>) -> ParsedView
    decreases lines.len(),
{
    if lines.len() == 0 {
        nothing_read()
    } else {
        read_lines(lines.drop_last()).read_line(line_number(lines.len() - 1), lines.last())
    }
}

/// A parser part-way through a file.
struct Parser {
    cfg: RawConfig,
    errors: Vec<ConfigError>,
}

impl View for Parser {
    type V = ParsedView;

    closed spec fn view(&self) -> ParsedView {
        ParsedView { cfg: self.cfg@, errors: text::views(self.errors@) }
    }
}

/// The first directive that a line is an instance of, with where its value starts
/// and how long it is.
fn match_directive(line: &[char]) -> (r: Option<(Directive, usize, usize)>)
    ensures
        match r {
            Some((d, offset, len)) => {
                &&& offset + len <= line.len()
                &&& find_directive(line@, 0) == Some(
                    (d, offset as int, line@.subrange(offset as int, offset + len)),
                )
            },
            None => find_directive(line@, 0) is None,
        },
{
    let all = all_directives();
    for i in 0..all.len()
        invariant
            all@ == directives(),
            find_directive(line@, 0) == find_directive(line@, i as int),
    {
        let d = all[i];
        let words = d.words();
        if let Some((offset, len)) = strip_keyword(line, &words) {
            return Some((d, offset, len));
        }
    }
    None
}

/// The keyword that starts with the line's first word.
fn keyword_of(line: &[char]) -> (r: Option<&'static str>)
    ensures
        known_keyword(line@, 0) == (match r {
            Some(keyword) => Some(keyword@),
            None => None,
        }),
{
    let all = all_directives();
    for i in 0..all.len()
        invariant
            all@ == directives(),
            known_keyword(line@, 0) == known_keyword(line@, i as int),
    {
        let d = all[i];
        let words = d.words();
        assert(text::views(words@).len() == d.keyword().len() > 0);
        assert(text::views(words@)[0] == words@[0]@);
        if starts_with_word(line, words[0]) {
            return Some(d.display());
        }
    }
    if starts_with_word(line, "rrl") {
        return Some("rrl off");
    }
    None
}

/// The characters `from` to `to` of a line as a value.
fn raw_value(line: u32, raw: &[char], from: usize, to: usize, value: String) -> (r: RawValue)
    requires
        from <= raw.len(),
        to <= raw.len(),
    ensures
        r@ == value_at(line, raw@, from as int, to as int, value@),
{
    RawValue {
        line,
        raw_line: text::to_text(raw),
        span: text::byte_offset_of(raw, from)..text::byte_offset_of(raw, to),
        value,
    }
}

/// Distinguish a known keyword missing its value from an unknown directive,
/// because the fixes differ.
fn unmatched_line_error(line: u32, raw: &[char], indent: usize) -> (r: ConfigError)
    requires
        indent <= raw.len(),
    ensures
        r@ == unmatched_line(line, raw@, indent as int),
{
    let body = text::rest_of(raw, indent);
    let n: usize = text::first_word_len(body);
    let anchor = raw_value(line, raw, indent, indent + n, String::new());
    assert(anchor@.value =~= Seq::empty());
    match keyword_of(body) {
        Some(keyword) => anchor.error(ConfigErrorKind::MissingValue { keyword }),
        None => anchor.error(
            ConfigErrorKind::UnknownDirective { keyword: text::to_text(text::head_of(body, n)) },
        ),
    }
}

impl Parser {
    fn fail(&mut self, error: ConfigError)
        ensures
            final(self)@ == old(self)@.fail(error@),
    {
        proof {
            text::lemma_views_push(self.errors@, error);
        }
        self.errors.push(error);
    }

    fn add_global(&mut self, key: GlobalKey, value: RawValue)
        ensures
            final(self)@ == old(self)@.with_global(key, value@),
    {
        let global = RawGlobal { key, value };
        proof {
            text::lemma_views_push(self.cfg.globals@, global);
        }
        self.cfg.globals.push(global);
    }

    fn set_global(&mut self, d: Directive, key: GlobalKey, value: RawValue)
        requires
            d.use_of_value() == Target::Global(key),
            old(self)@.cfg.zones.len() == 0,
        ensures
            final(self)@ == old(self)@.accept(d, value@),
    {
        // `ns` is repeatable; everything else is single-valued.
        if key != GlobalKey::Ns {
            if let Some(first_line) = line_of_global(&self.cfg.globals, key) {
                let error = value.error(
                    ConfigErrorKind::DuplicateDirective { keyword: d.display(), first_line },
                );
                self.fail(error);
                return;
            }
        }
        self.add_global(key, value);
    }

    fn set_in_zone(&mut self, d: Directive, value: RawValue)
        requires
            d.place() == Scope::Zone,
            old(self)@.cfg.zones.len() > 0,
        ensures
            final(self)@ == old(self)@.accept(d, value@),
    {
        let ghost before = *self;
        let ghost zones = self.cfg.zones@;
        assert(self@.cfg.zones.last() == zones.last()@);
        if let Some(mut zone) = self.cfg.zones.pop() {
            let taken: Option<u32> = if d == Directive::ResolvesTo {
                match &zone.resolves_to {
                    Some(first) => Some(first.line),
                    None => None,
                }
            } else {
                match &zone.upstream {
                    Some(first) => Some(first.line),
                    None => None,
                }
            };
            let mut error: Option<ConfigError> = None;
            match taken {
                Some(first_line) => {
                    error = Some(
                        value.error(
                            ConfigErrorKind::DuplicateDirective {
                                keyword: d.display(),
                                first_line,
                            },
                        ),
                    );
                },
                None => {
                    if d == Directive::ResolvesTo {
                        zone.resolves_to = Some(value);
                    } else {
                        zone.upstream = Some(value);
                    }
                },
            }
            proof {
                text::lemma_views_push(zones.drop_last(), zone);
                assert(text::views(zones.drop_last()) =~= text::views(zones).drop_last());
                assert(zones.drop_last().push(zones.last()) =~= zones);
            }
            self.cfg.zones.push(zone);
            if let Some(error) = error {
                assert(self@ =~= before@);
                self.fail(error);
            }
        }
    }

    /// Take in a directive with its value.
    fn accept(&mut self, d: Directive, value: RawValue)
        ensures
            final(self)@ == old(self)@.accept(d, value@),
    {
        let in_zone: bool = self.cfg.zones.len() > 0;
        if d.scope() == Scope::Global && in_zone {
            let error = value.error(ConfigErrorKind::GlobalAfterNetwork { keyword: d.display() });
            self.fail(error);
            return;
        }
        if d.scope() == Scope::Zone && !in_zone {
            let error = value.error(
                ConfigErrorKind::DirectiveBeforeNetwork { keyword: d.display() },
            );
            self.fail(error);
            return;
        }
        match d.target() {
            Target::Listen => {
                proof {
                    text::lemma_views_push(self.cfg.listen@, value);
                }
                self.cfg.listen.push(value);
            },
            Target::Network => {
                let zone = RawZone { network: value, resolves_to: None, upstream: None };
                proof {
                    text::lemma_views_push(self.cfg.zones@, zone);
                }
                self.cfg.zones.push(zone);
            },
            Target::ResolvesTo => self.set_in_zone(d, value),
            Target::Upstream => self.set_in_zone(d, value),
            Target::Global(key) => self.set_global(d, key, value),
        }
    }

    /// Take in one line.
    fn read_line(&mut self, line: u32, raw: &[char])
        ensures
            final(self)@ == old(self)@.read_line(line, raw@),
    {
        let indent: usize = text::count_leading_spaces(raw);
        let body = text::rest_of(raw, indent);
        if body.len() == 0 || body[0] == '#' {
            return;
        }
        // Value-less flags first, so `rrl off` is not read as `rrl` + value.
        let off: Vec<&'static str> = vec!["rrl", "off"];
        assert(text::views(off@) =~= rrl_off_words());
        if matches_flag(body, &off) {
            let value = raw_value(line, raw, indent, raw.len(), String::new());
            assert(value@.value =~= Seq::empty());
            if self.cfg.zones.len() > 0 {
                let error = value.error(
                    ConfigErrorKind::GlobalAfterNetwork { keyword: "rrl off" },
                );
                self.fail(error);
            } else {
                self.add_global(GlobalKey::RrlOff, value);
            }
            return;
        }
        match match_directive(body) {
            None => {
                let error = unmatched_line_error(line, raw, indent);
                self.fail(error);
            },
            Some((d, offset, len)) => {
                let start: usize = indent + offset;
                let value = vstd::slice::slice_subrange(body, offset, offset + len);
                let shown = if d == Directive::ResolvesTo {
                    text::to_text(value)
                } else {
                    text::to_text(&text::lowercase(value))
                };
                let value = raw_value(line, raw, start, start + len, shown);
                self.accept(d, value);
            },
        }
    }
}

/// The line of the first setting of `key`.
fn line_of_global(globals: &Vec<RawGlobal>, key: GlobalKey) -> (r: Option<u32>)
    ensures
        r == first_line_of(text::views(globals@), key),
{
    let ghost all = text::views(globals@);
    assert(all.skip(0) =~= all);
    for i in 0..globals.len()
        invariant
            all == text::views(globals@),
            first_line_of(all, key) == first_line_of(all.skip(i as int), key),
    {
        assert(all.skip(i as int)[0] == globals@[i as int]@);
        if globals[i].key == key {
            return Some(globals[i].value.line);
        }
        assert(all.skip(i as int).drop_first() =~= all.skip(i + 1));
    }
    None
}

/// Split a configuration file body into directives, and collect the lines that
/// are none.
pub fn parse(input: &str) -> (r: (RawConfig, Vec<ConfigError>))
    ensures
        ({
            let read = read_lines(text::lines(input@));
            r.0@ == read.cfg && text::views(r.1@) == read.errors
        }),
{
    let lines = text::split_lines(&text::to_chars(input));
    let ghost all = text::views(lines@);
    let mut parser = Parser {
        cfg: RawConfig { listen: Vec::new(), zones: Vec::new(), globals: Vec::new() },
        errors: Vec::new(),
    };
    assert(parser@ =~= nothing_read());
    for i in 0..lines.len()
        invariant
            all == text::views(lines@),
            parser@ == read_lines(all.take(i as int)),
    {
        let number: u32 = if i < 0xffff_ffff {
            (i + 1) as u32
        } else {
            0xffff_ffff
        };
        proof {
            assert(all.take(i + 1).drop_last() =~= all.take(i as int));
            assert(all[i as int] == lines@[i as int]@);
        }
        parser.read_line(number, &lines[i]);
    }
    assert(all.take(all.len() as int) =~= all);
    (parser.cfg, parser.errors)
}

// ---- laws ------------------------------------------------------------------

proof fn lemma_spaces_ignore_case(a: Seq<char>, b: Seq<char>)
    requires
        text::same_text(a, b),
    ensures
        a.len() == b.len(),
        text::leading_spaces(a) == text::leading_spaces(b),
        0 <= text::leading_spaces(a) <= a.len(),
    decreases a.len(),
{
    assert(text::lowered(a).len() == text::lowered(b).len());
    if a.len() > 0 {
        assert(text::lowered(a)[0] == text::lowered(b)[0]);
        lemma_tail_ignores_case(a, b, 1);
        lemma_spaces_ignore_case(a.skip(1), b.skip(1));
    }
}

proof fn lemma_tail_ignores_case(a: Seq<char>, b: Seq<char>, n: int)
    requires
        text::same_text(a, b),
        0 <= n <= a.len(),
    ensures
        text::same_text(a.skip(n), b.skip(n)),
        text::same_text(a.take(n), b.take(n)),
{
    assert(text::lowered(a).len() == text::lowered(b).len());
    assert(text::lowered(a.skip(n)) =~= text::lowered(a).skip(n));
    assert(text::lowered(b.skip(n)) =~= text::lowered(b).skip(n));
    assert(text::lowered(a.take(n)) =~= text::lowered(a).take(n));
    assert(text::lowered(b.take(n)) =~= text::lowered(b).take(n));
}

proof fn lemma_words_ignore_case(a: Seq<char>, b: Seq<char>, words: Seq<Seq<char>>, gap: bool)
    requires
        text::same_text(a, b),
    ensures
        words_len(a, words, gap) == words_len(b, words, gap),
        words_len(a, words, gap) matches Some(n) ==> 0 <= n <= a.len(),
    decreases words.len(),
{
    lemma_spaces_ignore_case(a, b);
    if words.len() > 0 {
        let skip = if gap {
            text::leading_spaces(a)
        } else {
            0
        };
        lemma_tail_ignores_case(a, b, skip);
        let x = a.skip(skip);
        let y = b.skip(skip);
        let n = words[0].len() as int;
        if n <= x.len() {
            lemma_tail_ignores_case(x, y, n);
            lemma_words_ignore_case(x.skip(n), y.skip(n), words.drop_first(), true);
        }
    }
}

proof fn lemma_trim_ignores_case(a: Seq<char>, b: Seq<char>)
    requires
        text::same_text(a, b),
    ensures
        text::same_text(text::trimmed_end(a), text::trimmed_end(b)),
        text::trimmed_end(a).len() == text::trimmed_end(b).len(),
    decreases a.len(),
{
    assert(text::lowered(a).len() == text::lowered(b).len());
    if a.len() > 0 {
        assert(text::lowered(a)[a.len() - 1] == text::lowered(b)[a.len() - 1]);
        assert(text::lowered(a.drop_last()) =~= text::lowered(a).drop_last());
        assert(text::lowered(b.drop_last()) =~= text::lowered(b).drop_last());
        lemma_trim_ignores_case(a.drop_last(), b.drop_last());
    }
}

/// Keywords ignore case: lines that differ in case only are the same directive,
/// with the value in the same place and the same but for case.
pub proof fn law_keywords_ignore_case(a: Seq<char>, b: Seq<char>, i: int)
    requires
        text::same_text(a, b),
        0 <= i,
    ensures
        match (find_directive(a, i), find_directive(b, i)) {
            (Some((d, offset, value)), Some((e, other_offset, other_value))) => {
                &&& d == e
                &&& offset == other_offset
                &&& text::same_text(value, other_value)
            },
            (None, None) => true,
            _ => false,
        },
    decreases directives().len() - i,
{
    if i < directives().len() {
        let words = directives()[i].keyword();
        lemma_words_ignore_case(a, b, words, false);
        if let Some(n) = words_len(a, words, false) {
            lemma_tail_ignores_case(a, b, n);
            lemma_spaces_ignore_case(a.skip(n), b.skip(n));
            let skip = text::leading_spaces(a.skip(n));
            lemma_tail_ignores_case(a, b, n + skip);
            lemma_trim_ignores_case(a.skip(n + skip), b.skip(n + skip));
        }
        law_keywords_ignore_case(a, b, i + 1);
    }
}

/// Indentation is decorative: whitespace before a line moves its first word and
/// changes nothing else about it.
pub proof fn law_indentation_is_decorative(indent: Seq<char>, line: Seq<char>)
    requires
        forall|i: int| 0 <= i < indent.len() ==> text::space(#[trigger] indent[i]),
    ensures
        text::leading_spaces(indent + line) == indent.len() + text::leading_spaces(line),
        (indent + line).skip(text::leading_spaces(indent + line)) == line.skip(
            text::leading_spaces(line),
        ),
    decreases indent.len(),
{
    let all = indent + line;
    if indent.len() == 0 {
        assert(all =~= line);
    } else {
        assert(text::space(indent[0]));
        let rest = indent.skip(1);
        assert forall|i: int| 0 <= i < rest.len() implies text::space(#[trigger] rest[i]) by {
            assert(text::space(indent[i + 1]));
        }
        law_indentation_is_decorative(rest, line);
        assert(all.skip(1) =~= rest + line);
        lemma_spaces_ignore_case(line, line);
        let n = text::leading_spaces(line);
        assert(all.skip(indent.len() + n) =~= line.skip(n));
    }
}

/// Blank lines and comments have no effect.
pub proof fn law_comments_have_no_effect(read: ParsedView, number: u32, line: Seq<char>)
    requires
        ({
            let body = line.skip(text::leading_spaces(line));
            body.len() == 0 || body[0] == '#'
        }),
    ensures
        read.read_line(number, line) == read,
{
}

/// How many values the blocks of a file hold.
pub open spec fn block_values(zones: Seq<RawZoneView>) -> nat
    decreases zones.len(),
{
    if zones.len() == 0 {
        0
    } else {
        let last = zones.last();
        block_values(zones.drop_last()) + 1 + (if last.resolves_to is Some {
            1nat
        } else {
            0
        }) + (if last.upstream is Some {
            1nat
        } else {
            0
        })
    }
}

impl ParsedView {
    /// How many lines have left a value or a problem.
    pub open spec fn traces(self) -> nat {
        self.cfg.listen.len() + self.cfg.globals.len() + block_values(self.cfg.zones)
            + self.errors.len()
    }
}

/// A line says something: it is neither blank nor a comment.
pub open spec fn speaks(line: Seq<char>) -> bool {
    let body = line.skip(text::leading_spaces(line));
    body.len() > 0 && body[0] != '#'
}

/// No line is silently ignored: each that is neither blank nor a comment leaves
/// exactly one value or exactly one problem behind.
pub proof fn law_no_line_is_ignored(lines: Seq<Seq<char>>)
    ensures
        read_lines(lines).traces() == lines.filter(|line: Seq<char>| speaks(line)).len(),
    decreases lines.len(),
{
    let pred = |line: Seq<char>| speaks(line);
    reveal(Seq::filter);
    if lines.len() > 0 {
        law_no_line_is_ignored(lines.drop_last());
        let before = read_lines(lines.drop_last());
        let after = read_lines(lines);
        let zones = before.cfg.zones;
        if after.cfg.zones.len() > zones.len() {
            assert(after.cfg.zones.drop_last() =~= zones);
        } else if zones.len() > 0 {
            assert(zones.drop_last().push(after.cfg.zones.last()).drop_last()
                =~= zones.drop_last());
        }
    }
}

} // verus!
