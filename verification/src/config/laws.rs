//! What the lines of a configuration file mean for the configuration.

use vstd::prelude::*;

use super::compile;
use super::compile::SettingsView;
use super::error::{ErrorView, KindView};
use super::parse;
use super::parse::{
    Directive, GlobalKey, ParsedView, RawGlobalView, RawZoneView, Target, ValueView,
};
use super::{ConfigView, FwdLabelView, OutOfZonePolicy, ZoneView};
use crate::net;
use crate::nibble;
use crate::text;

verus! {

// ---- lines as they are written ---------------------------------------------

/// Nothing but spaces.
pub open spec fn blank(s: Seq<char>) -> bool {
    forall|i: int| 0 <= i < s.len() ==> text::space(#[trigger] s[i])
}

/// A line as someone wrote it: one keyword of one or two words, and a value.
pub struct Written {
    pub lead: Seq<char>,
    pub first: Seq<char>,
    pub between: Seq<char>,
    pub second: Seq<char>,
    pub gap: Seq<char>,
    pub value: Seq<char>,
    pub trail: Seq<char>,
}

impl Written {
    /// From the keyword on.
    pub open spec fn body(self) -> Seq<char> {
        self.first + (self.between + (self.second + (self.gap + (self.value + self.trail))))
    }

    /// The whole line.
    pub open spec fn line(self) -> Seq<char> {
        self.lead + self.body()
    }

    /// There are spaces, and only spaces, around the value, which neither starts nor
    /// ends with one.
    pub open spec fn spaced(self) -> bool {
        &&& blank(self.lead)
        &&& blank(self.gap)
        &&& blank(self.trail)
        &&& self.gap.len() > 0
        &&& self.value.len() > 0
        &&& !text::space(self.value[0])
        &&& !text::space(self.value.last())
    }

    /// The keyword is this word, in whatever case.
    pub open spec fn one_word(self, word: Seq<char>) -> bool {
        &&& self.spaced()
        &&& text::same_text(self.first, word)
        &&& self.between.len() == 0
        &&& self.second.len() == 0
    }

    /// The keyword is these two words, in whatever case, with spaces between them.
    pub open spec fn two_words(self, a: Seq<char>, b: Seq<char>) -> bool {
        &&& self.spaced()
        &&& text::same_text(self.first, a)
        &&& blank(self.between)
        &&& self.between.len() > 0
        &&& text::same_text(self.second, b)
    }

    spec fn spells(self, words: Seq<Seq<char>>) -> bool {
        ||| words.len() == 1 && self.one_word(words[0])
        ||| words.len() == 2 && self.two_words(words[0], words[1])
    }

    /// Where the value stands, counted from the keyword on.
    spec fn offset(self) -> int {
        (self.first.len() + self.between.len() + self.second.len() + self.gap.len()) as int
    }
}

proof fn lemma_skip_blank(blanks: Seq<char>, rest: Seq<char>)
    requires
        blank(blanks),
        rest.len() > 0 ==> !text::space(rest[0]),
    ensures
        text::leading_spaces(blanks + rest) == blanks.len(),
        (blanks + rest).skip(blanks.len() as int) == rest,
{
    parse::law_indentation_is_decorative(blanks, rest);
    assert((blanks + rest).skip(blanks.len() as int) =~= rest);
}

proof fn lemma_trim(value: Seq<char>, blanks: Seq<char>)
    requires
        blank(blanks),
        value.len() > 0,
        !text::space(value.last()),
    ensures
        text::trimmed_end(value + blanks) == value,
    decreases blanks.len(),
{
    if blanks.len() == 0 {
        assert(value + blanks =~= value);
    } else {
        let less = blanks.drop_last();
        assert forall|i: int| 0 <= i < less.len() implies text::space(#[trigger] less[i]) by {
            assert(text::space(blanks[i]));
        }
        assert(text::space(blanks[blanks.len() - 1]));
        lemma_trim(value, less);
        assert((value + blanks).drop_last() =~= value + less);
    }
}

proof fn lemma_same_start(a: Seq<char>, w: Seq<char>, rest: Seq<char>)
    requires
        text::same_text(a, w),
        w.len() > 0,
        !text::space(w[0]),
    ensures
        a.len() == w.len(),
        !text::space(a[0]),
        text::starts_with_ci(a + rest, w),
        (a + rest).skip(w.len() as int) == rest,
{
    assert(text::lowered(a).len() == text::lowered(w).len());
    assert(text::lowered(a)[0] == text::lowered(w)[0]);
    assert((a + rest).take(w.len() as int) =~= a);
    assert((a + rest).skip(w.len() as int) =~= rest);
}

proof fn lemma_one_word(first: Seq<char>, rest: Seq<char>, words: Seq<Seq<char>>)
    requires
        words.len() == 1,
        text::same_text(first, words[0]),
        words[0].len() > 0,
        !text::space(words[0][0]),
    ensures
        parse::words_len(first + rest, words, false) == Some(first.len() as int),
{
    lemma_same_start(first, words[0], rest);
    assert((first + rest).skip(0) =~= first + rest);
    assert(parse::words_len(rest, words.drop_first(), true) == Some(0int));
}

proof fn lemma_next_word(
    between: Seq<char>,
    second: Seq<char>,
    rest: Seq<char>,
    words: Seq<Seq<char>>,
)
    requires
        words.len() == 1,
        blank(between),
        between.len() > 0,
        text::same_text(second, words[0]),
        words[0].len() > 0,
        !text::space(words[0][0]),
    ensures
        parse::words_len(between + (second + rest), words, true) == Some(
            (between.len() + second.len()) as int,
        ),
{
    lemma_same_start(second, words[0], rest);
    assert((second + rest)[0] == second[0]);
    lemma_skip_blank(between, second + rest);
    assert(parse::words_len(rest, words.drop_first(), true) == Some(0int));
}

proof fn lemma_two_words(
    first: Seq<char>,
    between: Seq<char>,
    second: Seq<char>,
    rest: Seq<char>,
    words: Seq<Seq<char>>,
)
    requires
        words.len() == 2,
        text::same_text(first, words[0]),
        words[0].len() > 0,
        !text::space(words[0][0]),
        blank(between),
        between.len() > 0,
        text::same_text(second, words[1]),
        words[1].len() > 0,
        !text::space(words[1][0]),
    ensures
        parse::words_len(first + (between + (second + rest)), words, false) == Some(
            (first.len() + between.len() + second.len()) as int,
        ),
{
    let tail = between + (second + rest);
    lemma_same_start(first, words[0], tail);
    assert((first + tail).skip(0) =~= first + tail);
    let more = words.drop_first();
    assert(more[0] == words[1]);
    lemma_next_word(between, second, rest, more);
}

proof fn lemma_after_words(head: Seq<char>, gap: Seq<char>, value: Seq<char>, trail: Seq<char>)
    requires
        blank(gap),
        blank(trail),
        value.len() > 0,
        !text::space(value[0]),
        !text::space(value.last()),
    ensures
        ({
            let body = head + (gap + (value + trail));
            let n = head.len() as int;
            &&& text::leading_spaces(body.skip(n)) == gap.len()
            &&& text::trimmed_end(body.skip(n + gap.len())) == value
        }),
{
    let tail = value + trail;
    let body = head + (gap + tail);
    assert(tail[0] == value[0]);
    lemma_skip_blank(gap, tail);
    lemma_trim(value, trail);
    assert(body.skip(head.len() as int) =~= gap + tail);
    assert(body.skip(head.len() as int + gap.len()) =~= tail);
}

proof fn lemma_value(w: Written, words: Seq<Seq<char>>)
    requires
        w.spells(words),
        forall|i: int|
            0 <= i < words.len() ==> (#[trigger] words[i]).len() > 0 && !text::space(words[i][0]),
    ensures
        text::leading_spaces(w.line()) == w.lead.len(),
        w.line().skip(w.lead.len() as int) == w.body(),
        w.body().len() > 0,
        !text::space(w.body()[0]),
        parse::keyword_value(w.body(), words) == Some((w.offset(), w.value)),
{
    let from_gap = w.gap + (w.value + w.trail);
    let body = w.body();
    assert(words[0].len() > 0 && !text::space(words[0][0]));
    lemma_same_start(w.first, words[0], w.between + (w.second + from_gap));
    assert(body[0] == w.first[0]);
    lemma_skip_blank(w.lead, body);
    let head = w.first + w.between + w.second;
    assert(head + from_gap =~= body);
    lemma_after_words(head, w.gap, w.value, w.trail);
    if words.len() == 1 {
        assert(w.first + from_gap =~= body);
        lemma_one_word(w.first, from_gap, words);
    } else {
        assert(words[1].len() > 0 && !text::space(words[1][0]));
        lemma_two_words(w.first, w.between, w.second, from_gap, words);
    }
    assert(parse::words_len(body, words, false) == Some(head.len() as int));
}

/// A line whose first word is another one.
proof fn lemma_other_first(w: Written, words: Seq<Seq<char>>, p: int)
    requires
        words.len() > 0,
        0 <= p < w.first.len(),
        p < words[0].len(),
        text::fold(w.first[p]) != text::fold(words[0][p]),
    ensures
        parse::keyword_value(w.body(), words) is None,
        !parse::is_flag(w.body(), words),
        !text::starts_with_ci(w.body(), words[0]),
{
    let body = w.body();
    assert(body.skip(0) =~= body);
    assert(body[p] == w.first[p]);
    if text::starts_with_ci(body, words[0]) {
        let head = body.take(words[0].len() as int);
        assert(text::lowered(head)[p] == text::lowered(words[0])[p]);
    }
}

/// A line whose second word is another one.
proof fn lemma_other_second(w: Written, words: Seq<Seq<char>>)
    requires
        words.len() == 2,
        text::same_text(w.first, words[0]),
        words[0].len() > 0,
        !text::space(words[0][0]),
        blank(w.between),
        w.second.len() > 0,
        !text::space(w.second[0]),
        words[1].len() > 0,
        text::fold(w.second[0]) != text::fold(words[1][0]),
    ensures
        parse::keyword_value(w.body(), words) is None,
        !parse::is_flag(w.body(), words),
{
    let body = w.body();
    let from_second = w.second + (w.gap + (w.value + w.trail));
    let from_between = w.between + from_second;
    lemma_same_start(w.first, words[0], from_between);
    assert(body.skip(0) =~= body);
    assert(from_second[0] == w.second[0]);
    lemma_skip_blank(w.between, from_second);
    assert(words.drop_first()[0] == words[1]);
    if text::starts_with_ci(from_second, words[1]) {
        let head = from_second.take(words[1].len() as int);
        assert(text::lowered(head)[0] == text::lowered(words[1])[0]);
    }
    reveal_with_fuel(parse::words_len, 2);
}

spec fn initials(d: Directive) -> (char, char) {
    match d {
        Directive::ResolvesTo => ('r', 'e'),
        Directive::WithUpstream => ('w', 'i'),
        Directive::RrlRps => ('r', 'r'),
        Directive::RrlBurst => ('r', 'r'),
        Directive::RrlSlip => ('r', 'r'),
        Directive::UpstreamTimeout => ('u', 'p'),
        Directive::MaxUdpPayload => ('m', 'a'),
        Directive::OutOfZone => ('o', 'u'),
        Directive::Hostmaster => ('h', 'o'),
        Directive::Primary => ('p', 'r'),
        Directive::Network => ('n', 'e'),
        Directive::Listen => ('l', 'i'),
        Directive::Ttl => ('t', 't'),
        Directive::Ns => ('n', 's'),
    }
}

spec fn second_initial(d: Directive) -> char {
    match d {
        Directive::ResolvesTo => 't',
        Directive::WithUpstream => 'u',
        Directive::RrlRps => 'r',
        Directive::RrlBurst => 'b',
        _ => 's',
    }
}

spec fn rank(d: Directive) -> int {
    match d {
        Directive::ResolvesTo => 0,
        Directive::WithUpstream => 1,
        Directive::RrlRps => 2,
        Directive::RrlBurst => 3,
        Directive::RrlSlip => 4,
        Directive::UpstreamTimeout => 5,
        Directive::MaxUdpPayload => 6,
        Directive::OutOfZone => 7,
        Directive::Hostmaster => 8,
        Directive::Primary => 9,
        Directive::Network => 10,
        Directive::Listen => 11,
        Directive::Ttl => 12,
        Directive::Ns => 13,
    }
}

spec fn is_rrl(d: Directive) -> bool {
    d == Directive::RrlRps || d == Directive::RrlBurst || d == Directive::RrlSlip
}

proof fn lemma_keyword(d: Directive)
    ensures
        ({
            let words = d.keyword();
            &&& 1 <= words.len() <= 2
            &&& forall|i: int|
                0 <= i < words.len() ==> (#[trigger] words[i]).len() > 1 && !text::space(
                    words[i][0],
                )
            &&& words[0][0] == initials(d).0
            &&& words[0][1] == initials(d).1
            &&& words.len() == 2 ==> words[1][0] == second_initial(d)
            &&& is_rrl(d) ==> words.len() == 2 && words[0] == "rrl"@
        }),
        0 <= rank(d) < parse::directives().len(),
        parse::directives()[rank(d)] == d,
        parse::rrl_off_words().len() == 2,
        parse::rrl_off_words()[0] == "rrl"@,
        parse::rrl_off_words()[0][0] == 'r',
        parse::rrl_off_words()[0][1] == 'r',
        parse::rrl_off_words()[1][0] == 'o',
        parse::rrl_off_words()[0].len() == 3,
        parse::rrl_off_words()[1].len() == 3,
{
    reveal_strlit("resolves");
    reveal_strlit("to");
    reveal_strlit("with");
    reveal_strlit("upstream");
    reveal_strlit("rrl");
    reveal_strlit("off");
    reveal_strlit("responses-per-second");
    reveal_strlit("burst");
    reveal_strlit("slip");
    reveal_strlit("upstream-timeout");
    reveal_strlit("max-udp-payload");
    reveal_strlit("out-of-zone");
    reveal_strlit("hostmaster");
    reveal_strlit("primary");
    reveal_strlit("network");
    reveal_strlit("listen");
    reveal_strlit("ttl");
    reveal_strlit("ns");
}

proof fn lemma_find_from(
    body: Seq<char>,
    d: Directive,
    offset: int,
    value: Seq<char>,
    i: int,
)
    requires
        0 <= i <= rank(d),
        parse::keyword_value(body, d.keyword()) == Some((offset, value)),
        forall|k: int|
            0 <= k < rank(d) ==> parse::keyword_value(
                body,
                (#[trigger] parse::directives()[k]).keyword(),
            ) is None,
    ensures
        parse::find_directive(body, i) == Some((d, offset, value)),
    decreases rank(d) - i,
{
    lemma_keyword(d);
    if i < rank(d) {
        assert(parse::keyword_value(body, parse::directives()[i].keyword()) is None);
        lemma_find_from(body, d, offset, value, i + 1);
    }
}

proof fn lemma_not_spelled(w: Written, d: Directive, e: Directive)
    requires
        w.spells(d.keyword()),
        e != d,
    ensures
        parse::keyword_value(w.body(), e.keyword()) is None,
{
    lemma_keyword(d);
    lemma_keyword(e);
    let (x, y) = (d.keyword(), e.keyword());
    assert(x[0].len() > 1 && y[0].len() > 1);
    assert(text::lowered(w.first).len() == text::lowered(x[0]).len());
    assert(text::lowered(w.first)[0] == text::lowered(x[0])[0]);
    assert(text::lowered(w.first)[1] == text::lowered(x[0])[1]);
    if initials(d).0 != initials(e).0 {
        lemma_other_first(w, y, 0);
    } else if initials(d).1 != initials(e).1 {
        lemma_other_first(w, y, 1);
    } else {
        assert(x[1].len() > 1 && y[1].len() > 1);
        assert(!text::space(y[0][0]));
        assert(text::lowered(w.second).len() == text::lowered(x[1]).len());
        assert(text::lowered(w.second)[0] == text::lowered(x[1])[0]);
        assert(!text::space(x[1][0]));
        lemma_other_second(w, y);
    }
}

/// A line that spells a directive is that directive with that value.
proof fn lemma_directive(w: Written, d: Directive)
    requires
        w.spells(d.keyword()),
    ensures
        text::leading_spaces(w.line()) == w.lead.len(),
        w.line().skip(w.lead.len() as int) == w.body(),
        w.body().len() > 0,
        w.body()[0] != '#',
        !parse::is_flag(w.body(), parse::rrl_off_words()),
        parse::find_directive(w.body(), 0) == Some((d, w.offset(), w.value)),
{
    lemma_keyword(d);
    let words = d.keyword();
    lemma_value(w, words);
    assert(words[0].len() > 1);
    assert(text::lowered(w.first).len() == text::lowered(words[0]).len());
    assert(text::lowered(w.first)[0] == text::lowered(words[0])[0]);
    assert(text::lowered(w.first)[1] == text::lowered(words[0])[1]);
    assert(w.body()[0] == w.first[0]);
    assert forall|k: int| 0 <= k < rank(d) implies parse::keyword_value(
        w.body(),
        (#[trigger] parse::directives()[k]).keyword(),
    ) is None by {
        let e = parse::directives()[k];
        lemma_keyword(e);
        assert(e != d);
        lemma_not_spelled(w, d, e);
    }
    lemma_find_from(w.body(), d, w.offset(), w.value, 0);
    let off = parse::rrl_off_words();
    if initials(d).0 != 'r' {
        lemma_other_first(w, off, 0);
    } else if initials(d).1 != 'r' {
        lemma_other_first(w, off, 1);
    } else {
        assert(words[1].len() > 1);
        assert(text::lowered(w.second).len() == text::lowered(words[1]).len());
        assert(text::lowered(w.second)[0] == text::lowered(words[1])[0]);
        assert(!text::space(words[1][0]));
        lemma_other_second(w, off);
    }
}

// ---- from lines to directives ----------------------------------------------

/// A line adds to what was read and takes nothing back.
spec fn extends(before: ParsedView, after: ParsedView) -> bool {
    let (a, b) = (before.cfg, after.cfg);
    &&& before.errors.len() <= after.errors.len()
    &&& a.globals.len() <= b.globals.len()
    &&& b.globals.take(a.globals.len() as int) == a.globals
    &&& a.listen.len() <= b.listen.len()
    &&& b.listen.take(a.listen.len() as int) == a.listen
    &&& a.zones.len() <= b.zones.len()
    &&& forall|i: int|
        0 <= i < a.zones.len() ==> {
            &&& (#[trigger] b.zones[i]).network == a.zones[i].network
            &&& a.zones[i].resolves_to is Some ==> b.zones[i].resolves_to
                == a.zones[i].resolves_to
            &&& a.zones[i].upstream is Some ==> b.zones[i].upstream == a.zones[i].upstream
        }
}

proof fn lemma_extends_self(st: ParsedView)
    ensures
        extends(st, st),
{
    assert(st.cfg.globals.take(st.cfg.globals.len() as int) =~= st.cfg.globals);
    assert(st.cfg.listen.take(st.cfg.listen.len() as int) =~= st.cfg.listen);
}

proof fn lemma_extends_accept(st: ParsedView, d: Directive, v: ValueView)
    ensures
        extends(st, st.accept(d, v)),
{
    let after = st.accept(d, v);
    assert(after.cfg.globals.take(st.cfg.globals.len() as int) =~= st.cfg.globals);
    assert(after.cfg.listen.take(st.cfg.listen.len() as int) =~= st.cfg.listen);
}

proof fn lemma_extends_line(st: ParsedView, n: u32, raw: Seq<char>)
    ensures
        extends(st, st.read_line(n, raw)),
{
    let indent = text::leading_spaces(raw);
    let body = raw.skip(indent);
    let after = st.read_line(n, raw);
    lemma_extends_self(st);
    if let Some((d, offset, value)) = parse::find_directive(body, 0) {
        lemma_extends_accept(
            st,
            d,
            parse::value_at(
                n,
                raw,
                indent + offset,
                indent + offset + value.len(),
                if d == Directive::ResolvesTo {
                    value
                } else {
                    text::lowered(value)
                },
            ),
        );
    }
    assert(after.cfg.globals.take(st.cfg.globals.len() as int) =~= st.cfg.globals);
    assert(after.cfg.listen.take(st.cfg.listen.len() as int) =~= st.cfg.listen);
}

proof fn lemma_extends_steps(a: ParsedView, b: ParsedView, c: ParsedView)
    requires
        extends(a, b),
        extends(b, c),
    ensures
        extends(a, c),
{
    let n = a.cfg.globals.len() as int;
    let m = a.cfg.listen.len() as int;
    assert(c.cfg.globals.take(n) =~= c.cfg.globals.take(b.cfg.globals.len() as int).take(n));
    assert(c.cfg.listen.take(m) =~= c.cfg.listen.take(b.cfg.listen.len() as int).take(m));
    assert forall|i: int| 0 <= i < a.cfg.zones.len() implies {
        &&& (#[trigger] c.cfg.zones[i]).network == a.cfg.zones[i].network
        &&& a.cfg.zones[i].resolves_to is Some ==> c.cfg.zones[i].resolves_to
            == a.cfg.zones[i].resolves_to
        &&& a.cfg.zones[i].upstream is Some ==> c.cfg.zones[i].upstream == a.cfg.zones[i].upstream
    } by {
        assert(b.cfg.zones[i].network == a.cfg.zones[i].network);
    }
}

/// What the first lines say stays said.
proof fn lemma_first_lines(lines: Seq<Seq<char>>, k: int)
    requires
        0 <= k <= lines.len(),
    ensures
        extends(parse::read_lines(lines.take(k)), parse::read_lines(lines)),
    decreases lines.len() - k,
{
    if k == lines.len() {
        assert(lines.take(k) =~= lines);
        lemma_extends_self(parse::read_lines(lines));
    } else {
        lemma_first_lines(lines, k + 1);
        assert(lines.take(k + 1).drop_last() =~= lines.take(k));
        let a = parse::read_lines(lines.take(k));
        lemma_extends_line(a, parse::line_number(k), lines[k]);
        lemma_extends_steps(a, parse::read_lines(lines.take(k + 1)), parse::read_lines(lines));
    }
}

/// The value of a written line, as the parser passes it on.
spec fn passed_on(w: Written, d: Directive, number: u32) -> ValueView {
    parse::value_at(
        number,
        w.line(),
        w.lead.len() + w.offset(),
        w.lead.len() + w.offset() + w.value.len(),
        if d == Directive::ResolvesTo {
            w.value
        } else {
            text::lowered(w.value)
        },
    )
}

/// In a file without problems, line `k` has its effect.
proof fn lemma_line_is_accepted(lines: Seq<Seq<char>>, k: int, w: Written, d: Directive)
    requires
        parse::read_lines(lines).errors.len() == 0,
        0 <= k < lines.len(),
        lines[k] == w.line(),
        w.spells(d.keyword()),
    ensures
        ({
            let before = parse::read_lines(lines.take(k));
            let after = parse::read_lines(lines.take(k + 1));
            &&& after == before.accept(d, passed_on(w, d, parse::line_number(k)))
            &&& before.errors.len() == 0
            &&& after.errors.len() == 0
            &&& extends(after, parse::read_lines(lines))
        }),
{
    lemma_directive(w, d);
    lemma_first_lines(lines, k);
    lemma_first_lines(lines, k + 1);
    assert(lines.take(k + 1).drop_last() =~= lines.take(k));
}

/// A global setting of a file without problems is among its settings.
proof fn lemma_global_is_read(
    lines: Seq<Seq<char>>,
    k: int,
    w: Written,
    d: Directive,
    key: GlobalKey,
) -> (i: int)
    requires
        parse::read_lines(lines).errors.len() == 0,
        0 <= k < lines.len(),
        lines[k] == w.line(),
        w.spells(d.keyword()),
        d.use_of_value() == Target::Global(key),
    ensures
        i == parse::read_lines(lines.take(k)).cfg.globals.len(),
        0 <= i < parse::read_lines(lines).cfg.globals.len(),
        parse::read_lines(lines).cfg.globals[i].key == key,
        parse::read_lines(lines).cfg.globals[i].value.value == text::lowered(w.value),
{
    lemma_line_is_accepted(lines, k, w, d);
    let before = parse::read_lines(lines.take(k));
    let after = parse::read_lines(lines.take(k + 1));
    let all = parse::read_lines(lines);
    let i = before.cfg.globals.len() as int;
    assert(after.cfg.globals[i].key == key);
    assert(all.cfg.globals.take(after.cfg.globals.len() as int)[i] == all.cfg.globals[i]);
    i
}

proof fn lemma_first_line_of(globals: Seq<RawGlobalView>, key: GlobalKey)
    ensures
        parse::first_line_of(globals, key) is None <==> forall|i: int|
            0 <= i < globals.len() ==> (#[trigger] globals[i]).key != key,
    decreases globals.len(),
{
    if globals.len() > 0 {
        let rest = globals.drop_first();
        lemma_first_line_of(rest, key);
        if globals[0].key != key {
            if forall|i: int| 0 <= i < rest.len() ==> (#[trigger] rest[i]).key != key {
                assert forall|i: int| 0 <= i < globals.len() implies (
                #[trigger] globals[i]).key != key by {
                    if i > 0 {
                        assert(globals[i] == rest[i - 1]);
                    }
                }
            } else {
                let i = choose|i: int| 0 <= i < rest.len() && (#[trigger] rest[i]).key == key;
                assert(globals[i + 1] == rest[i]);
            }
        }
    }
}

/// In a file without problems, no setting but `ns` and `rrl off` is given twice.
proof fn lemma_settings_once(lines: Seq<Seq<char>>, i: int, j: int)
    requires
        parse::read_lines(lines).errors.len() == 0,
        0 <= i < j < parse::read_lines(lines).cfg.globals.len(),
        parse::read_lines(lines).cfg.globals[i].key == parse::read_lines(lines).cfg.globals[j].key,
    ensures
        parse::read_lines(lines).cfg.globals[i].key == GlobalKey::Ns || parse::read_lines(
            lines,
        ).cfg.globals[i].key == GlobalKey::RrlOff,
    decreases lines.len(),
{
    if lines.len() > 0 {
        let before = parse::read_lines(lines.drop_last());
        let after = parse::read_lines(lines);
        let raw = lines.last();
        lemma_extends_line(before, parse::line_number(lines.len() - 1), raw);
        let n = before.cfg.globals.len() as int;
        assert(after.cfg.globals.take(n)[i] == after.cfg.globals[i] || i >= n);
        if j < n {
            assert(after.cfg.globals.take(n)[j] == after.cfg.globals[j]);
            lemma_settings_once(lines.drop_last(), i, j);
        } else {
            lemma_first_line_of(before.cfg.globals, after.cfg.globals[j].key);
            assert(before.cfg.globals[i].key == after.cfg.globals[i].key);
        }
    }
}

// ---- from directives to settings -------------------------------------------

/// The two agree on what `key` sets.
spec fn agree(key: GlobalKey, a: SettingsView, b: SettingsView) -> bool {
    match key {
        GlobalKey::Primary => a.primary == b.primary,
        GlobalKey::Hostmaster => a.hostmaster == b.hostmaster,
        GlobalKey::Ns => a.nameservers == b.nameservers,
        GlobalKey::Ttl => a.ttl == b.ttl,
        GlobalKey::OutOfZone => a.params.out_of_zone == b.params.out_of_zone,
        GlobalKey::MaxUdpPayload => a.params.max_udp_payload == b.params.max_udp_payload,
        GlobalKey::UpstreamTimeout => a.params.upstream_timeout == b.params.upstream_timeout,
        GlobalKey::RrlOff => a.params.rrl.enabled == b.params.rrl.enabled,
        GlobalKey::RrlRps => a.params.rrl.responses_per_second
            == b.params.rrl.responses_per_second,
        GlobalKey::RrlBurst => a.params.rrl.burst == b.params.rrl.burst,
        GlobalKey::RrlSlip => a.params.rrl.slip == b.params.rrl.slip,
    }
}

/// A setting changes what it sets and nothing else.
proof fn lemma_set_one(st: SettingsView, g: RawGlobalView, key: GlobalKey)
    ensures
        g.key != key ==> agree(key, st.set(g), st),
        st.errors.len() <= st.set(g).errors.len() <= st.errors.len() + 1,
        st.set(g).params.rrl.ipv4_prefix == st.params.rrl.ipv4_prefix,
        st.set(g).params.rrl.ipv6_prefix == st.params.rrl.ipv6_prefix,
{
}

proof fn lemma_setting(globals: Seq<RawGlobalView>, i: int)
    requires
        0 <= i < globals.len(),
        forall|j: int| i < j < globals.len() ==> (#[trigger] globals[j]).key != globals[i].key,
    ensures
        agree(
            globals[i].key,
            compile::settings(globals),
            compile::settings(globals.take(i)).set(globals[i]),
        ),
        compile::settings(globals.take(i)).set(globals[i]).errors.len() <= compile::settings(
            globals,
        ).errors.len(),
    decreases globals.len(),
{
    let rest = globals.drop_last();
    if i == globals.len() - 1 {
        assert(globals.take(i) =~= rest);
    } else {
        assert forall|j: int| i < j < rest.len() implies (#[trigger] rest[j]).key
            != rest[i].key by {
            assert(globals[j].key != globals[i].key);
        }
        lemma_setting(rest, i);
        assert(rest.take(i) =~= globals.take(i));
        lemma_set_one(compile::settings(rest), globals.last(), globals[i].key);
        assert(globals[globals.len() - 1].key != globals[i].key);
    }
}

/// A setting that is given nowhere is as it was.
proof fn lemma_no_setting(globals: Seq<RawGlobalView>, key: GlobalKey)
    requires
        forall|i: int| 0 <= i < globals.len() ==> (#[trigger] globals[i]).key != key,
    ensures
        agree(key, compile::settings(globals), compile::no_settings()),
    decreases globals.len(),
{
    if globals.len() > 0 {
        let rest = globals.drop_last();
        assert forall|i: int| 0 <= i < rest.len() implies (#[trigger] rest[i]).key != key by {
            assert(globals[i].key != key);
        }
        lemma_no_setting(rest, key);
        assert(globals[globals.len() - 1].key != key);
        lemma_set_one(compile::settings(rest), globals.last(), key);
    }
}

/// A file without any problem.
pub open spec fn is_sound(input: Seq<char>) -> bool {
    compile::errors_in(input).len() == 0
}

/// The global settings of a file.
spec fn globals_in(input: Seq<char>) -> Seq<RawGlobalView> {
    parse::read_lines(text::lines(input)).cfg.globals
}

proof fn lemma_sound(input: Seq<char>)
    requires
        is_sound(input),
    ensures
        ({
            let read = parse::read_lines(text::lines(input));
            let set = compile::settings(read.cfg.globals);
            &&& read.errors.len() == 0
            &&& set.errors.len() == 0
            &&& compile::listen_errors(read.cfg.listen).len() == 0
            &&& compile::soa_errors(read.cfg.globals, set.primary, set.hostmaster).len() == 0
            &&& compile::zones_of_blocks(read.cfg.zones, set.ttl).errors.len() == 0
        }),
{
}

/// In a file without problems, the one line that gives a setting decides it.
proof fn lemma_effect(input: Seq<char>, k: int, w: Written, d: Directive, key: GlobalKey) -> (r: (
    SettingsView,
    RawGlobalView,
))
    requires
        is_sound(input),
        0 <= k < text::lines(input).len(),
        text::lines(input)[k] == w.line(),
        w.spells(d.keyword()),
        d.use_of_value() == Target::Global(key),
        key != GlobalKey::Ns && key != GlobalKey::RrlOff,
    ensures
        r.1.key == key,
        r.1.value.value == text::lowered(w.value),
        agree(key, compile::settings(globals_in(input)), r.0.set(r.1)),
        r.0.set(r.1).errors.len() == 0,
{
    let lines = text::lines(input);
    let globals = globals_in(input);
    lemma_sound(input);
    let i = lemma_global_is_read(lines, k, w, d, key);
    assert forall|j: int| i < j < globals.len() implies (#[trigger] globals[j]).key
        != globals[i].key by {
        if globals[j].key == globals[i].key {
            lemma_settings_once(lines, i, j);
        }
    }
    lemma_setting(globals, i);
    (compile::settings(globals.take(i)), globals[i])
}

proof fn lemma_lowered_digits(n: nat)
    ensures
        text::lowered(text::decimal(n)) == text::decimal(n),
{
    text::law_decimal_reads_back(n, 0);
    let d = text::decimal(n);
    assert forall|i: int| 0 <= i < d.len() implies #[trigger] text::lowered(d)[i] == d[i] by {
        assert(0x30 <= d[i] as u32 <= 0x39);
    }
    assert(text::lowered(d) =~= d);
}

// ---- laws: what a line sets ------------------------------------------------

/// In a file without problems, a line `out-of-zone refused` or `out-of-zone nxdomain`
/// makes that the policy for foreign names, and no other value can stand there.
pub proof fn law_out_of_zone_lines_set_the_policy(input: Seq<char>, k: int, w: Written)
    requires
        is_sound(input),
        0 <= k < text::lines(input).len(),
        text::lines(input)[k] == w.line(),
        w.one_word("out-of-zone"@),
    ensures
        text::same_text(w.value, "refused"@) || text::same_text(w.value, "nxdomain"@),
        text::same_text(w.value, "refused"@) ==> compile::config_in(input).params.out_of_zone
            == OutOfZonePolicy::Refused,
        text::same_text(w.value, "nxdomain"@) ==> compile::config_in(input).params.out_of_zone
            == OutOfZonePolicy::NxDomain,
{
    let d = Directive::OutOfZone;
    assert(w.spells(d.keyword()));
    let (st, g) = lemma_effect(input, k, w, d, GlobalKey::OutOfZone);
    reveal_strlit("refused");
    reveal_strlit("nxdomain");
    assert(text::lowered("refused"@) =~= "refused"@);
    assert(text::lowered("nxdomain"@) =~= "nxdomain"@);
    assert("refused"@.len() != "nxdomain"@.len());
}

/// In a file without problems, a line `ttl N` gives every zone the TTL N, which has its
/// top bit clear.
pub proof fn law_ttl_lines_set_the_ttl(input: Seq<char>, k: int, w: Written, n: nat)
    requires
        is_sound(input),
        0 <= k < text::lines(input).len(),
        text::lines(input)[k] == w.line(),
        w.one_word("ttl"@),
        w.value == text::decimal(n),
    ensures
        n <= 0x7fff_ffff,
        forall|i: int|
            0 <= i < compile::config_in(input).zones.len() ==> (#[trigger] compile::config_in(
                input,
            ).zones[i]).ttl == n,
{
    let d = Directive::Ttl;
    assert(w.spells(d.keyword()));
    let (st, g) = lemma_effect(input, k, w, d, GlobalKey::Ttl);
    lemma_lowered_digits(n);
    text::law_decimal_reads_back(n, 0xffff_ffff);
    lemma_ttl(input);
}

proof fn lemma_ttl(input: Seq<char>)
    ensures
        forall|i: int|
            0 <= i < compile::config_in(input).zones.len() ==> (#[trigger] compile::config_in(
                input,
            ).zones[i]).ttl == compile::settings(globals_in(input)).ttl,
{
    let raw = parse::read_lines(text::lines(input)).cfg;
    let ttl = compile::settings(raw.globals).ttl;
    let zones = compile::zones_of_blocks(raw.zones, ttl).zones;
    compile::lemma_taken(raw.zones, ttl);
    compile::lemma_sorted(zones);
    assert forall|i: int| 0 <= i < compile::config_in(input).zones.len() implies (
    #[trigger] compile::config_in(input).zones[i]).ttl == ttl by {
        assert(zones.contains(compile::sorted_zones(zones)[i]));
    }
}

/// In a file without problems, a line `max-udp-payload N` makes N the ceiling, which is
/// between 512 and 65535.
pub proof fn law_max_udp_payload_lines_set_the_ceiling(
    input: Seq<char>,
    k: int,
    w: Written,
    n: nat,
)
    requires
        is_sound(input),
        0 <= k < text::lines(input).len(),
        text::lines(input)[k] == w.line(),
        w.one_word("max-udp-payload"@),
        w.value == text::decimal(n),
    ensures
        512 <= n <= 65535,
        compile::config_in(input).params.max_udp_payload == n,
{
    let d = Directive::MaxUdpPayload;
    assert(w.spells(d.keyword()));
    let (st, g) = lemma_effect(input, k, w, d, GlobalKey::MaxUdpPayload);
    lemma_lowered_digits(n);
    text::law_decimal_reads_back(n, 0xffff_ffff);
}

/// In a file without problems, a line `upstream-timeout N` makes N milliseconds the
/// deadline, which is between 1 and 10000.
pub proof fn law_upstream_timeout_lines_set_the_deadline(
    input: Seq<char>,
    k: int,
    w: Written,
    n: nat,
)
    requires
        is_sound(input),
        0 <= k < text::lines(input).len(),
        text::lines(input)[k] == w.line(),
        w.one_word("upstream-timeout"@),
        w.value == text::decimal(n),
    ensures
        1 <= n <= 10000,
        compile::config_in(input).params.upstream_timeout == n,
{
    let d = Directive::UpstreamTimeout;
    assert(w.spells(d.keyword()));
    let (st, g) = lemma_effect(input, k, w, d, GlobalKey::UpstreamTimeout);
    lemma_lowered_digits(n);
    text::law_decimal_reads_back(n, 0xffff_ffff);
}

/// In a file without problems, a line `rrl responses-per-second N` makes N the rate, a
/// line `rrl burst N` makes it the burst, both at least 1, and a line `rrl slip N` makes
/// it the slip.
pub proof fn law_rrl_lines_set_rate_burst_and_slip(
    input: Seq<char>,
    k: int,
    w: Written,
    n: nat,
)
    requires
        is_sound(input),
        0 <= k < text::lines(input).len(),
        text::lines(input)[k] == w.line(),
        w.value == text::decimal(n),
    ensures
        w.two_words("rrl"@, "responses-per-second"@) ==> n >= 1 && compile::config_in(
            input,
        ).params.rrl.responses_per_second == n,
        w.two_words("rrl"@, "burst"@) ==> n >= 1 && compile::config_in(input).params.rrl.burst
            == n,
        w.two_words("rrl"@, "slip"@) ==> compile::config_in(input).params.rrl.slip == n,
{
    lemma_lowered_digits(n);
    text::law_decimal_reads_back(n, 0xffff_ffff);
    if w.two_words("rrl"@, "responses-per-second"@) {
        let d = Directive::RrlRps;
        assert(w.spells(d.keyword()));
        let (st, g) = lemma_effect(input, k, w, d, GlobalKey::RrlRps);
    }
    if w.two_words("rrl"@, "burst"@) {
        let d = Directive::RrlBurst;
        assert(w.spells(d.keyword()));
        let (st, g) = lemma_effect(input, k, w, d, GlobalKey::RrlBurst);
    }
    if w.two_words("rrl"@, "slip"@) {
        let d = Directive::RrlSlip;
        assert(w.spells(d.keyword()));
        let (st, g) = lemma_effect(input, k, w, d, GlobalKey::RrlSlip);
    }
}

/// In a file without problems, a line `primary NAME` and a line `hostmaster NAME` name
/// the primary server and the mailbox of the SOA, whose numbers are fixed; and where one
/// of the two lines is, there is an SOA.
pub proof fn law_soa_lines_name_primary_and_hostmaster(input: Seq<char>, k: int, w: Written)
    requires
        is_sound(input),
        0 <= k < text::lines(input).len(),
        text::lines(input)[k] == w.line(),
        w.one_word("primary"@) || w.one_word("hostmaster"@),
    ensures
        compile::config_in(input).soa matches Some(soa) && {
            &&& w.one_word("primary"@) ==> soa.primary.fqdn && crate::name::relaxed_labels(
                text::lowered(w.value),
            ) == Some(soa.primary.labels)
            &&& w.one_word("hostmaster"@) ==> soa.hostmaster.fqdn && crate::name::relaxed_labels(
                text::lowered(w.value),
            ) == Some(soa.hostmaster.labels)
            &&& soa.serial == 1
            &&& soa.refresh == 604800
            &&& soa.retry == 86400
            &&& soa.expire == 2419200
            &&& soa.minimum == 60
        },
{
    lemma_sound(input);
    if w.one_word("primary"@) {
        let d = Directive::Primary;
        assert(w.spells(d.keyword()));
        let (st, g) = lemma_effect(input, k, w, d, GlobalKey::Primary);
    }
    if w.one_word("hostmaster"@) {
        let d = Directive::Hostmaster;
        assert(w.spells(d.keyword()));
        let (st, g) = lemma_effect(input, k, w, d, GlobalKey::Hostmaster);
    }
}

/// In a file without problems, `listen` values and addresses correspond one to one.
proof fn lemma_listen(values: Seq<ValueView>, i: int)
    requires
        compile::listen_errors(values).len() == 0,
        0 <= i < values.len(),
    ensures
        compile::listen_addrs(values).len() == values.len(),
        compile::listen_of_text(values[i].value) == Some(compile::listen_addrs(values)[i]),
    decreases values.len(),
{
    let rest = values.drop_last();
    if i < rest.len() {
        lemma_listen(rest, i);
        assert(rest[i] == values[i]);
    } else if rest.len() > 0 {
        lemma_listen(rest, 0);
    } else {
        assert(compile::listen_addrs(rest).len() == 0);
    }
}

/// In a file without problems, every line `listen VALUE` names an address to listen on,
/// and the addresses come in the order of the lines.
pub proof fn law_listen_lines_name_addresses(
    input: Seq<char>,
    j: int,
    v: Written,
    k: int,
    w: Written,
) -> (at: (int, int))
    requires
        is_sound(input),
        0 <= j < k < text::lines(input).len(),
        text::lines(input)[j] == v.line(),
        text::lines(input)[k] == w.line(),
        v.one_word("listen"@),
        w.one_word("listen"@),
    ensures
        0 <= at.0 < at.1 < compile::config_in(input).listen.len(),
        compile::listen_of_text(text::lowered(v.value)) == Some(
            compile::config_in(input).listen[at.0],
        ),
        compile::listen_of_text(text::lowered(w.value)) == Some(
            compile::config_in(input).listen[at.1],
        ),
{
    let p = law_a_listen_line_names_an_address(input, j, v);
    let q = law_a_listen_line_names_an_address(input, k, w);
    let lines = text::lines(input);
    lemma_sound(input);
    lemma_line_is_accepted(lines, j, v, Directive::Listen);
    lemma_first_lines(lines.take(k), j + 1);
    assert(lines.take(k).take(j + 1) =~= lines.take(j + 1));
    (p, q)
}

/// In a file without problems, a line `listen VALUE` names an address to listen on.
pub proof fn law_a_listen_line_names_an_address(input: Seq<char>, k: int, w: Written) -> (i: int)
    requires
        is_sound(input),
        0 <= k < text::lines(input).len(),
        text::lines(input)[k] == w.line(),
        w.one_word("listen"@),
    ensures
        0 <= i < compile::config_in(input).listen.len(),
        compile::listen_of_text(text::lowered(w.value)) == Some(
            compile::config_in(input).listen[i],
        ),
        i == parse::read_lines(text::lines(input).take(k)).cfg.listen.len(),
{
    let lines = text::lines(input);
    let d = Directive::Listen;
    assert(w.spells(d.keyword()));
    lemma_sound(input);
    lemma_line_is_accepted(lines, k, w, d);
    let before = parse::read_lines(lines.take(k)).cfg.listen;
    let after = parse::read_lines(lines.take(k + 1)).cfg.listen;
    let all = parse::read_lines(lines).cfg.listen;
    let i = before.len() as int;
    assert(all.take(after.len() as int)[i] == all[i]);
    lemma_listen(all, i);
    i
}

proof fn lemma_nameservers(globals: Seq<RawGlobalView>, i: int)
    requires
        0 <= i <= globals.len(),
    ensures
        ({
            let a = compile::settings(globals.take(i));
            let b = compile::settings(globals);
            &&& a.errors.len() <= b.errors.len()
            &&& a.nameservers.len() <= b.nameservers.len()
            &&& b.nameservers.take(a.nameservers.len() as int) == a.nameservers
        }),
    decreases globals.len() - i,
{
    if i == globals.len() {
        assert(globals.take(i) =~= globals);
        let b = compile::settings(globals).nameservers;
        assert(b.take(b.len() as int) =~= b);
    } else {
        lemma_nameservers(globals, i + 1);
        assert(globals.take(i + 1).drop_last() =~= globals.take(i));
        let a = compile::settings(globals.take(i));
        let m = compile::settings(globals.take(i + 1));
        let b = compile::settings(globals);
        lemma_set_one(a, globals[i], GlobalKey::Ns);
        assert(m.nameservers.take(a.nameservers.len() as int) =~= a.nameservers);
        assert(b.nameservers.take(a.nameservers.len() as int) =~= b.nameservers.take(
            m.nameservers.len() as int,
        ).take(a.nameservers.len() as int));
    }
}

/// In a file without problems, a line `ns NAME` names a nameserver.
pub proof fn law_an_ns_line_names_a_nameserver(input: Seq<char>, k: int, w: Written) -> (i: int)
    requires
        is_sound(input),
        0 <= k < text::lines(input).len(),
        text::lines(input)[k] == w.line(),
        w.one_word("ns"@),
    ensures
        0 <= i < compile::config_in(input).nameservers.len(),
        compile::config_in(input).nameservers[i].fqdn,
        crate::name::relaxed_labels(text::lowered(w.value)) == Some(
            compile::config_in(input).nameservers[i].labels,
        ),
        i == compile::settings(
            parse::read_lines(text::lines(input).take(k)).cfg.globals,
        ).nameservers.len(),
{
    let lines = text::lines(input);
    let d = Directive::Ns;
    assert(w.spells(d.keyword()));
    lemma_sound(input);
    let globals = globals_in(input);
    let g = lemma_global_is_read(lines, k, w, d, GlobalKey::Ns);
    lemma_nameservers(globals, g);
    lemma_nameservers(globals, g + 1);
    assert(globals.take(g + 1).drop_last() =~= globals.take(g));
    let a = compile::settings(globals.take(g));
    let m = compile::settings(globals.take(g + 1));
    let b = compile::settings(globals);
    let i = a.nameservers.len() as int;
    assert(b.nameservers.take(m.nameservers.len() as int)[i] == b.nameservers[i]);
    lemma_first_lines(lines, k);
    i
}

/// In a file without problems, the nameservers come in the order of their lines, and no
/// line names the same place in the list as another.
pub proof fn law_nameservers_keep_their_order(
    input: Seq<char>,
    j: int,
    v: Written,
    k: int,
    w: Written,
) -> (at: (int, int))
    requires
        is_sound(input),
        0 <= j < k < text::lines(input).len(),
        text::lines(input)[j] == v.line(),
        text::lines(input)[k] == w.line(),
        v.one_word("ns"@),
        w.one_word("ns"@),
    ensures
        0 <= at.0 < at.1 < compile::config_in(input).nameservers.len(),
        crate::name::relaxed_labels(text::lowered(v.value)) == Some(
            compile::config_in(input).nameservers[at.0].labels,
        ),
        crate::name::relaxed_labels(text::lowered(w.value)) == Some(
            compile::config_in(input).nameservers[at.1].labels,
        ),
{
    let p = law_an_ns_line_names_a_nameserver(input, j, v);
    let q = law_an_ns_line_names_a_nameserver(input, k, w);
    let lines = text::lines(input);
    lemma_sound(input);
    let d = Directive::Ns;
    assert(v.spells(d.keyword()));
    lemma_line_is_accepted(lines, j, v, d);
    lemma_first_lines(lines, k);
    lemma_first_lines(lines.take(k), j + 1);
    assert(lines.take(k).take(j + 1) =~= lines.take(j + 1));
    let early = parse::read_lines(lines.take(j)).cfg.globals;
    let mid = parse::read_lines(lines.take(j + 1)).cfg.globals;
    let late = parse::read_lines(lines.take(k)).cfg.globals;
    let all = globals_in(input);
    lemma_nameservers(late, mid.len() as int);
    assert(mid.drop_last() =~= early);
    lemma_nameservers(all, mid.len() as int);
    lemma_first_lines(lines, j + 1);
    (p, q)
}

/// In a file without problems, a line `rrl off` turns the rate limit off.
pub proof fn law_rrl_off_turns_the_limit_off(
    input: Seq<char>,
    k: int,
    lead: Seq<char>,
    first: Seq<char>,
    between: Seq<char>,
    second: Seq<char>,
    trail: Seq<char>,
)
    requires
        is_sound(input),
        0 <= k < text::lines(input).len(),
        text::lines(input)[k] == lead + (first + (between + (second + trail))),
        blank(lead),
        blank(between),
        between.len() > 0,
        blank(trail),
        text::same_text(first, "rrl"@),
        text::same_text(second, "off"@),
    ensures
        !compile::config_in(input).params.rrl.enabled,
{
    let lines = text::lines(input);
    lemma_sound(input);
    lemma_rrl_off_flag(lead, first, between, second, trail);
    lemma_first_lines(lines, k);
    lemma_first_lines(lines, k + 1);
    assert(lines.take(k + 1).drop_last() =~= lines.take(k));
    let before = parse::read_lines(lines.take(k));
    let after = parse::read_lines(lines.take(k + 1));
    let all = globals_in(input);
    let i = before.cfg.globals.len() as int;
    assert(after.cfg.globals[i].key == GlobalKey::RrlOff);
    assert(all.take(after.cfg.globals.len() as int)[i] == all[i]);
    lemma_rrl_off(all, i);
}

proof fn lemma_flag_words(
    first: Seq<char>,
    between: Seq<char>,
    second: Seq<char>,
    trail: Seq<char>,
    words: Seq<Seq<char>>,
)
    requires
        words.len() == 2,
        blank(between),
        between.len() > 0,
        blank(trail),
        text::same_text(first, words[0]),
        words[0].len() > 0,
        !text::space(words[0][0]),
        text::same_text(second, words[1]),
        words[1].len() > 0,
        !text::space(words[1][0]),
    ensures
        parse::is_flag(first + (between + (second + trail)), words),
{
    let body = first + (between + (second + trail));
    lemma_two_words(first, between, second, trail, words);
    let n = (first.len() + between.len() + second.len()) as int;
    assert(body.skip(n) =~= trail);
    assert(trail + Seq::<char>::empty() =~= trail);
    lemma_skip_blank(trail, Seq::empty());
}

proof fn lemma_rrl_off_flag(
    lead: Seq<char>,
    first: Seq<char>,
    between: Seq<char>,
    second: Seq<char>,
    trail: Seq<char>,
)
    requires
        blank(lead),
        blank(between),
        between.len() > 0,
        blank(trail),
        text::same_text(first, "rrl"@),
        text::same_text(second, "off"@),
    ensures
        ({
            let body = first + (between + (second + trail));
            &&& text::leading_spaces(lead + body) == lead.len()
            &&& (lead + body).skip(lead.len() as int) == body
            &&& body.len() > 0
            &&& body[0] != '#'
            &&& parse::is_flag(body, parse::rrl_off_words())
        }),
{
    let body = first + (between + (second + trail));
    let words = parse::rrl_off_words();
    reveal_strlit("off");
    reveal_strlit("rrl");
    lemma_same_start(first, words[0], between + (second + trail));
    assert(body[0] == first[0]);
    assert(text::lowered(first)[0] == text::lowered("rrl"@)[0]);
    lemma_skip_blank(lead, body);
    lemma_flag_words(first, between, second, trail, words);
}

proof fn lemma_rrl_off(globals: Seq<RawGlobalView>, i: int)
    requires
        0 <= i < globals.len(),
        globals[i].key == GlobalKey::RrlOff,
    ensures
        !compile::settings(globals).params.rrl.enabled,
    decreases globals.len(),
{
    if i < globals.len() - 1 {
        lemma_rrl_off(globals.drop_last(), i);
    }
}

// ---- laws: what holds where nothing is said --------------------------------

/// A line begins with a word, after any spaces and in whatever case.
pub open spec fn begins(line: Seq<char>, word: Seq<char>) -> bool {
    text::starts_with_ci(line.skip(text::leading_spaces(line)), word)
}

proof fn lemma_begins(line: Seq<char>, words: Seq<Seq<char>>)
    requires
        words.len() > 0,
        parse::words_len(line, words, false) is Some,
    ensures
        text::starts_with_ci(line, words[0]),
{
    assert(line.skip(0) =~= line);
}

proof fn lemma_found_begins(body: Seq<char>, i: int)
    requires
        0 <= i,
    ensures
        parse::find_directive(body, i) matches Some((d, _, _)) ==> text::starts_with_ci(
            body,
            d.keyword()[0],
        ),
    decreases parse::directives().len() - i,
{
    if i < parse::directives().len() {
        let d = parse::directives()[i];
        lemma_keyword(d);
        if parse::keyword_value(body, d.keyword()) is Some {
            lemma_begins(body, d.keyword());
        } else {
            lemma_found_begins(body, i + 1);
        }
    }
}

spec fn word_of(key: GlobalKey) -> Seq<char> {
    match key {
        GlobalKey::Primary => "primary"@,
        GlobalKey::Hostmaster => "hostmaster"@,
        GlobalKey::Ns => "ns"@,
        GlobalKey::Ttl => "ttl"@,
        GlobalKey::OutOfZone => "out-of-zone"@,
        GlobalKey::MaxUdpPayload => "max-udp-payload"@,
        GlobalKey::UpstreamTimeout => "upstream-timeout"@,
        _ => "rrl"@,
    }
}

proof fn lemma_key_is_absent(lines: Seq<Seq<char>>, key: GlobalKey)
    requires
        forall|k: int| 0 <= k < lines.len() ==> !begins(#[trigger] lines[k], word_of(key)),
    ensures
        forall|i: int|
            0 <= i < parse::read_lines(lines).cfg.globals.len() ==> (#[trigger] parse::read_lines(
                lines,
            ).cfg.globals[i]).key != key,
    decreases lines.len(),
{
    if lines.len() > 0 {
        let rest = lines.drop_last();
        assert forall|k: int| 0 <= k < rest.len() implies !begins(
            #[trigger] rest[k],
            word_of(key),
        ) by {
            assert(lines[k] == rest[k]);
        }
        lemma_key_is_absent(rest, key);
        let raw = lines[lines.len() - 1];
        assert(!begins(raw, word_of(key)));
        let body = raw.skip(text::leading_spaces(raw));
        lemma_found_begins(body, 0);
        lemma_keyword(Directive::RrlRps);
        lemma_keyword(Directive::RrlBurst);
        lemma_keyword(Directive::RrlSlip);
        if parse::is_flag(body, parse::rrl_off_words()) {
            lemma_begins(body, parse::rrl_off_words());
        }
        let before = parse::read_lines(rest);
        let after = parse::read_lines(lines);
        lemma_extends_line(before, parse::line_number(lines.len() - 1), raw);
        let n = before.cfg.globals.len() as int;
        assert forall|i: int| 0 <= i < after.cfg.globals.len() implies (
        #[trigger] after.cfg.globals[i]).key != key by {
            if i < n {
                assert(after.cfg.globals.take(n)[i] == after.cfg.globals[i]);
                assert(before.cfg.globals[i].key != key);
            }
        }
    }
}

proof fn lemma_default(input: Seq<char>, key: GlobalKey)
    requires
        forall|k: int|
            0 <= k < text::lines(input).len() ==> !begins(
                #[trigger] text::lines(input)[k],
                word_of(key),
            ),
    ensures
        agree(key, compile::settings(globals_in(input)), compile::no_settings()),
{
    lemma_key_is_absent(text::lines(input), key);
    lemma_no_setting(globals_in(input), key);
}

/// No line of the file begins with this word.
pub open spec fn says_nothing_of(input: Seq<char>, word: Seq<char>) -> bool {
    forall|k: int|
        0 <= k < text::lines(input).len() ==> !begins(#[trigger] text::lines(input)[k], word)
}

/// What holds where a file says nothing: foreign names are refused, the ceiling is 1232
/// bytes, the deadline 300 milliseconds, the TTL an hour; the rate limit is on, with 20
/// responses a second, a burst of 50 and a slip of 2; and there is neither an SOA nor a
/// nameserver. Clients are always told apart by 24 and by 64 bits.
pub proof fn law_defaults(input: Seq<char>)
    ensures
        ({
            let config = compile::config_in(input);
            &&& says_nothing_of(input, "out-of-zone"@) ==> config.params.out_of_zone
                == OutOfZonePolicy::Refused
            &&& says_nothing_of(input, "max-udp-payload"@) ==> config.params.max_udp_payload
                == 1232
            &&& says_nothing_of(input, "upstream-timeout"@) ==> config.params.upstream_timeout
                == 300
            &&& says_nothing_of(input, "ttl"@) ==> forall|i: int|
                0 <= i < config.zones.len() ==> (#[trigger] config.zones[i]).ttl == 3600
            &&& says_nothing_of(input, "rrl"@) ==> {
                &&& config.params.rrl.enabled
                &&& config.params.rrl.responses_per_second == 20
                &&& config.params.rrl.burst == 50
                &&& config.params.rrl.slip == 2
            }
            &&& says_nothing_of(input, "primary"@) ==> config.soa is None
            &&& says_nothing_of(input, "hostmaster"@) ==> config.soa is None
            &&& says_nothing_of(input, "ns"@) ==> config.nameservers.len() == 0
            &&& config.params.rrl.ipv4_prefix == 24
            &&& config.params.rrl.ipv6_prefix == 64
        }),
{
    lemma_ttl(input);
    lemma_prefixes(globals_in(input));
    if says_nothing_of(input, "out-of-zone"@) {
        lemma_default(input, GlobalKey::OutOfZone);
    }
    if says_nothing_of(input, "max-udp-payload"@) {
        lemma_default(input, GlobalKey::MaxUdpPayload);
    }
    if says_nothing_of(input, "upstream-timeout"@) {
        lemma_default(input, GlobalKey::UpstreamTimeout);
    }
    if says_nothing_of(input, "ttl"@) {
        lemma_default(input, GlobalKey::Ttl);
    }
    if says_nothing_of(input, "rrl"@) {
        lemma_default(input, GlobalKey::RrlOff);
        lemma_default(input, GlobalKey::RrlRps);
        lemma_default(input, GlobalKey::RrlBurst);
        lemma_default(input, GlobalKey::RrlSlip);
    }
    if says_nothing_of(input, "primary"@) {
        lemma_default(input, GlobalKey::Primary);
    }
    if says_nothing_of(input, "hostmaster"@) {
        lemma_default(input, GlobalKey::Hostmaster);
    }
    if says_nothing_of(input, "ns"@) {
        lemma_default(input, GlobalKey::Ns);
    }
}

proof fn lemma_prefixes(globals: Seq<RawGlobalView>)
    ensures
        compile::settings(globals).params.rrl.ipv4_prefix == 24,
        compile::settings(globals).params.rrl.ipv6_prefix == 64,
    decreases globals.len(),
{
    if globals.len() > 0 {
        lemma_prefixes(globals.drop_last());
        lemma_set_one(
            compile::settings(globals.drop_last()),
            globals.last(),
            GlobalKey::Ttl,
        );
    }
}

// ---- laws: what is accepted ------------------------------------------------

/// A setting is refused, with one problem, exactly if its value is not one it can have:
/// a name for `primary`, `hostmaster` and `ns`; `refused` or `nxdomain` for
/// `out-of-zone`; and a number within bounds for all others.
pub proof fn law_settings_are_refused_by_their_values_only(st: SettingsView, g: RawGlobalView)
    ensures
        ({
            let v = g.value.value;
            let n = text::u32_text(v);
            let valid = match g.key {
                GlobalKey::Primary => crate::name::relaxed_labels(v) is Some,
                GlobalKey::Hostmaster => crate::name::relaxed_labels(v) is Some,
                GlobalKey::Ns => crate::name::relaxed_labels(v) is Some,
                GlobalKey::Ttl => n is Some && n->0 <= 0x7fff_ffff,
                GlobalKey::OutOfZone => v == "refused"@ || v == "nxdomain"@,
                GlobalKey::MaxUdpPayload => n is Some && 512 <= n->0 <= 65535,
                GlobalKey::UpstreamTimeout => n is Some && 1 <= n->0 <= 10000,
                GlobalKey::RrlOff => true,
                GlobalKey::RrlRps => n is Some && n->0 >= 1,
                GlobalKey::RrlBurst => n is Some && n->0 >= 1,
                GlobalKey::RrlSlip => n is Some,
            };
            &&& valid ==> st.set(g).errors == st.errors
            &&& !valid ==> st.set(g).errors.len() == st.errors.len() + 1 && {
                let e = st.set(g).errors.last();
                &&& e.line == g.value.line
                &&& e.snippet == g.value.raw_line
                &&& e.span == Some((g.value.start, g.value.end))
            }
        }),
{
}

/// What a well-written line adds: before the first network, a global setting that was
/// not given yet, or an `ns`, is read without a problem, with its value in lower case;
/// everywhere a `listen` and a `network` are; and in a block a first `resolves to`, with
/// its value as it is written, and a first `with upstream`. Such a line notes where its
/// value stands.
pub proof fn law_well_written_lines_are_read(st: ParsedView, number: u32, w: Written)
    ensures
        ({
            let after = st.read_line(number, w.line());
            let outside = st.cfg.zones.len() == 0;
            let last = st.cfg.zones.last();
            &&& w.one_word("listen"@) ==> {
                &&& after.errors == st.errors
                &&& after.cfg.zones == st.cfg.zones
                &&& after.cfg.globals == st.cfg.globals
                &&& after.cfg.listen.len() == st.cfg.listen.len() + 1
                &&& after.cfg.listen.drop_last() == st.cfg.listen
                &&& noted(after.cfg.listen.last(), number, w, text::lowered(w.value))
            }
            &&& w.one_word("network"@) ==> {
                &&& after.errors == st.errors
                &&& after.cfg.listen == st.cfg.listen
                &&& after.cfg.globals == st.cfg.globals
                &&& after.cfg.zones.len() == st.cfg.zones.len() + 1
                &&& after.cfg.zones.drop_last() == st.cfg.zones
                &&& noted(after.cfg.zones.last().network, number, w, text::lowered(w.value))
                &&& after.cfg.zones.last().resolves_to is None
                &&& after.cfg.zones.last().upstream is None
            }
            &&& w.two_words("resolves"@, "to"@) && !outside && last.resolves_to is None ==> {
                &&& after.errors == st.errors
                &&& after.cfg.zones.len() == st.cfg.zones.len()
                &&& after.cfg.zones.drop_last() == st.cfg.zones.drop_last()
                &&& after.cfg.zones.last().resolves_to matches Some(v) && noted(
                    v,
                    number,
                    w,
                    w.value,
                )
                &&& after.cfg.zones.last().network == last.network
                &&& after.cfg.zones.last().upstream == last.upstream
            }
            &&& w.two_words("with"@, "upstream"@) && !outside && last.upstream is None ==> {
                &&& after.errors == st.errors
                &&& after.cfg.zones.len() == st.cfg.zones.len()
                &&& after.cfg.zones.drop_last() == st.cfg.zones.drop_last()
                &&& after.cfg.zones.last().upstream matches Some(v) && noted(
                    v,
                    number,
                    w,
                    text::lowered(w.value),
                )
                &&& after.cfg.zones.last().network == last.network
                &&& after.cfg.zones.last().resolves_to == last.resolves_to
            }
            &&& w.two_words("resolves"@, "to"@) && (outside || last.resolves_to is Some)
                ==> after.errors.len() == st.errors.len() + 1
            &&& w.two_words("with"@, "upstream"@) && (outside || last.upstream is Some)
                ==> after.errors.len() == st.errors.len() + 1
        }),
{
    if w.one_word("listen"@) {
        let d = Directive::Listen;
        assert(w.spells(d.keyword()));
        lemma_directive(w, d);
        let after = st.read_line(number, w.line());
        assert(after.cfg.listen.drop_last() =~= st.cfg.listen);
        lemma_noted(w, d, number);
    }
    if w.one_word("network"@) {
        let d = Directive::Network;
        assert(w.spells(d.keyword()));
        lemma_directive(w, d);
        let after = st.read_line(number, w.line());
        assert(after.cfg.zones.drop_last() =~= st.cfg.zones);
        lemma_noted(w, d, number);
    }
    if w.two_words("resolves"@, "to"@) {
        let d = Directive::ResolvesTo;
        assert(w.spells(d.keyword()));
        lemma_directive(w, d);
        let after = st.read_line(number, w.line());
        if st.cfg.zones.len() > 0 {
            assert(after.cfg.zones.drop_last() =~= st.cfg.zones.drop_last());
        }
        lemma_noted(w, d, number);
    }
    if w.two_words("with"@, "upstream"@) {
        let d = Directive::WithUpstream;
        assert(w.spells(d.keyword()));
        lemma_directive(w, d);
        let after = st.read_line(number, w.line());
        if st.cfg.zones.len() > 0 {
            assert(after.cfg.zones.drop_last() =~= st.cfg.zones.drop_last());
        }
        lemma_noted(w, d, number);
    }
}

/// A value with the line it stands on and the bytes it takes there.
pub open spec fn noted(v: ValueView, number: u32, w: Written, value: Seq<char>) -> bool {
    let before = w.lead + w.first + w.between + w.second + w.gap;
    &&& v.line == number
    &&& v.raw_line == w.line()
    &&& v.value == value
    &&& v.start == text::utf8(before).len()
    &&& v.end == text::utf8(before + w.value).len()
}

proof fn lemma_noted(w: Written, d: Directive, number: u32)
    ensures
        noted(passed_on(w, d, number), number, w, passed_on(w, d, number).value),
{
    let before = w.lead + w.first + w.between + w.second + w.gap;
    let line = w.line();
    let n = w.lead.len() + w.offset();
    assert(line.take(n) =~= before);
    assert(line.take(n + w.value.len()) =~= before + w.value);
}

/// A global setting is read without a problem before the first network, unless it was
/// given before; behind a network, and a second time, it is a problem.
pub proof fn law_global_settings_stand_before_networks(
    st: ParsedView,
    number: u32,
    w: Written,
    key: GlobalKey,
)
    requires
        match key {
            GlobalKey::Primary => w.one_word("primary"@),
            GlobalKey::Hostmaster => w.one_word("hostmaster"@),
            GlobalKey::Ns => w.one_word("ns"@),
            GlobalKey::Ttl => w.one_word("ttl"@),
            GlobalKey::OutOfZone => w.one_word("out-of-zone"@),
            GlobalKey::MaxUdpPayload => w.one_word("max-udp-payload"@),
            GlobalKey::UpstreamTimeout => w.one_word("upstream-timeout"@),
            GlobalKey::RrlOff => false,
            GlobalKey::RrlRps => w.two_words("rrl"@, "responses-per-second"@),
            GlobalKey::RrlBurst => w.two_words("rrl"@, "burst"@),
            GlobalKey::RrlSlip => w.two_words("rrl"@, "slip"@),
        },
    ensures
        ({
            let after = st.read_line(number, w.line());
            let fits = st.cfg.zones.len() == 0 && (key == GlobalKey::Ns || forall|i: int|
                0 <= i < st.cfg.globals.len() ==> (#[trigger] st.cfg.globals[i]).key != key);
            &&& after.cfg.zones == st.cfg.zones
            &&& after.cfg.listen == st.cfg.listen
            &&& fits ==> {
                &&& after.errors == st.errors
                &&& after.cfg.globals.len() == st.cfg.globals.len() + 1
                &&& after.cfg.globals.drop_last() == st.cfg.globals
                &&& after.cfg.globals.last().key == key
                &&& noted(
                    after.cfg.globals.last().value,
                    number,
                    w,
                    text::lowered(w.value),
                )
            }
            &&& !fits ==> {
                &&& after.errors.len() == st.errors.len() + 1
                &&& after.cfg.globals == st.cfg.globals
            }
        }),
{
    let d = match key {
        GlobalKey::Primary => Directive::Primary,
        GlobalKey::Hostmaster => Directive::Hostmaster,
        GlobalKey::Ns => Directive::Ns,
        GlobalKey::Ttl => Directive::Ttl,
        GlobalKey::OutOfZone => Directive::OutOfZone,
        GlobalKey::MaxUdpPayload => Directive::MaxUdpPayload,
        GlobalKey::UpstreamTimeout => Directive::UpstreamTimeout,
        GlobalKey::RrlRps => Directive::RrlRps,
        GlobalKey::RrlBurst => Directive::RrlBurst,
        _ => Directive::RrlSlip,
    };
    assert(w.spells(d.keyword()));
    lemma_directive(w, d);
    lemma_noted(w, d, number);
    lemma_first_line_of(st.cfg.globals, key);
    let after = st.read_line(number, w.line());
    if after.cfg.globals.len() > st.cfg.globals.len() {
        assert(after.cfg.globals.drop_last() =~= st.cfg.globals);
    }
}

/// A line that is neither blank nor a comment, and begins with no keyword, is a problem
/// and nothing else.
pub proof fn law_unknown_directives_are_problems(st: ParsedView, number: u32, line: Seq<char>)
    requires
        parse::speaks(line),
        !begins(line, "resolves"@) && !begins(line, "with"@) && !begins(line, "rrl"@),
        !begins(line, "upstream-timeout"@) && !begins(line, "max-udp-payload"@),
        !begins(line, "out-of-zone"@) && !begins(line, "hostmaster"@) && !begins(line, "primary"@),
        !begins(line, "network"@) && !begins(line, "listen"@) && !begins(line, "ttl"@),
        !begins(line, "ns"@),
    ensures
        st.read_line(number, line).cfg == st.cfg,
        st.read_line(number, line).errors.len() == st.errors.len() + 1,
        st.read_line(number, line).errors.last().line == number,
        st.read_line(number, line).errors.last().kind is UnknownDirective,
{
    let body = line.skip(text::leading_spaces(line));
    lemma_found_begins(body, 0);
    if parse::is_flag(body, parse::rrl_off_words()) {
        lemma_begins(body, parse::rrl_off_words());
    }
    lemma_unknown(body, 0);
}

proof fn lemma_unknown(body: Seq<char>, i: int)
    requires
        0 <= i,
        forall|d: Directive| !text::starts_with_ci(body, #[trigger] d.keyword()[0]),
        !text::starts_with_ci(body, "rrl"@),
    ensures
        parse::known_keyword(body, i) is None,
    decreases parse::directives().len() - i,
{
    if i < parse::directives().len() {
        assert(!text::starts_with_ci(body, parse::directives()[i].keyword()[0]));
        lemma_unknown(body, i + 1);
    }
}

proof fn lemma_known(body: Seq<char>, i: int, j: int)
    requires
        0 <= i <= j < parse::directives().len(),
        parse::first_word_is(body, parse::directives()[j].keyword()[0]),
    ensures
        parse::known_keyword(body, i) is Some,
    decreases j - i,
{
    if i < j {
        lemma_known(body, i + 1, j);
    }
}

proof fn lemma_word(word: Seq<char>, rest: Seq<char>)
    requires
        forall|i: int| 0 <= i < word.len() ==> !text::space(#[trigger] word[i]),
        rest.len() == 0 || text::space(rest[0]),
    ensures
        text::word_len(word + rest) == word.len(),
    decreases word.len(),
{
    let all = word + rest;
    if word.len() > 0 {
        assert(all[0] == word[0]);
        assert(all.skip(1) =~= word.skip(1) + rest);
        lemma_word(word.skip(1), rest);
    } else {
        assert(all =~= rest);
    }
}

spec fn number_of(d: Directive) -> int {
    match d {
        Directive::ResolvesTo => 0,
        Directive::WithUpstream => 1,
        Directive::RrlRps => 2,
        Directive::RrlBurst => 3,
        Directive::RrlSlip => 4,
        Directive::UpstreamTimeout => 5,
        Directive::MaxUdpPayload => 6,
        Directive::OutOfZone => 7,
        Directive::Hostmaster => 8,
        Directive::Primary => 9,
        Directive::Network => 10,
        Directive::Listen => 11,
        Directive::Ttl => 12,
        Directive::Ns => 13,
    }
}

/// Only a line whose first word is no keyword is called unknown, by that word. Where it is
/// the first word of a keyword, whatever is wrong is something else.
pub proof fn law_known_words_are_not_unknown(
    st: ParsedView,
    number: u32,
    lead: Seq<char>,
    word: Seq<char>,
    rest: Seq<char>,
    d: Directive,
)
    requires
        blank(lead),
        word.len() > 0,
        forall|i: int| 0 <= i < word.len() ==> !text::space(#[trigger] word[i]),
        rest.len() == 0 || text::space(rest[0]),
        st.read_line(number, lead + word + rest).errors.len() > st.errors.len(),
    ensures
        ({
            let e = st.read_line(number, lead + word + rest).errors.last();
            &&& text::same_text(word, d.keyword()[0]) ==> !(e.kind is UnknownDirective)
            &&& e.kind matches KindView::UnknownDirective { keyword } ==> keyword == word
        }),
{
    let line = lead + word + rest;
    let body = word + rest;
    assert(line =~= lead + body);
    assert(body[0] == word[0]);
    text::law_leading_spaces_are_all_there_are(line);
    let n = text::leading_spaces(line);
    assert(line[lead.len() as int] == word[0]);
    if n < lead.len() {
        assert(line[n] == lead[n]);
    }
    assert(n == lead.len());
    assert(line.skip(lead.len() as int) =~= body);
    lemma_word(word, rest);
    assert(body.take(word.len() as int) =~= word);
    let kw = d.keyword()[0];
    if text::same_text(word, kw) {
        assert(text::lowered(word).len() == text::lowered(kw).len());
        if rest.len() > 0 {
            assert(body[word.len() as int] == rest[0]);
        }
        assert(parse::first_word_is(body, kw));
        assert(parse::directives()[number_of(d)] == d);
        lemma_known(body, 0, number_of(d));
    }
}

// ---- laws: networks and templates ------------------------------------------

/// A network is an address, a slash and a prefix length: a multiple of 4 from 4 to 124,
/// below which the address has no bit set. Nothing else of that form is a network, and
/// each way to miss it is told apart.
pub proof fn law_networks_are_addresses_with_prefix_lengths(
    v: ValueView,
    a: Seq<char>,
    m: nat,
    addr: u128,
)
    requires
        v.value == a + seq!['/'] + text::decimal(m),
        !a.contains('/'),
        net::ipv6_text(a) == Some(addr),
    ensures
        ({
            let r = compile::network_of_value(v);
            let below = vstd::arithmetic::power2::pow2((128 - m) as nat);
            &&& r is Ok <==> 4 <= m <= 124 && m % 4 == 0 && addr as nat % below == 0
            &&& r is Ok ==> r->Ok_0 == (addr, m as u8)
            &&& r matches Err(e) ==> {
                &&& e.line == v.line
                &&& e.snippet == v.raw_line
                &&& m > 0xffff_ffff ==> e.kind is NetworkPrefixLenNotANumber
                &&& 128 < m <= 0xffff_ffff ==> e.kind is NetworkPrefixLenOutOfRange
                &&& m < 128 && m % 4 != 0 ==> e.kind is NetworkPrefixNotNibbleAligned
                &&& m == 0 ==> e.kind is NetworkPrefixTooShort
                &&& m == 128 ==> e.kind is NetworkIsSingleAddress
                &&& 4 <= m <= 124 && m % 4 == 0 ==> e.kind is NetworkHostBitsSet
            }
        }),
{
    let digits = text::decimal(m);
    text::lemma_index_behind(a, '/', digits);
    text::law_decimal_reads_back(m, 0xffff_ffff);
    assert(v.value.take(a.len() as int) == a);
    assert(v.value.skip(a.len() as int + 1) == digits);
    if 4 <= m <= 124 {
        let p = vstd::arithmetic::power2::pow2((128 - m) as nat);
        nibble::lemma_pow2_positive((128 - m) as nat);
        assert(nibble::host_bits(m as u8) == 128 - m);
        assert(0 <= addr as int % p as int);
    }
}

/// A value without a slash is no network, nor is one without an address before it.
pub proof fn law_networks_need_a_slash_and_an_address(v: ValueView, a: Seq<char>, b: Seq<char>)
    requires
        !a.contains('/'),
    ensures
        v.value == a ==> (compile::network_of_value(v) matches Err(e)
            && e.kind is NetworkMissingPrefixLen),
        v.value == a + seq!['/'] + b && net::ipv6_text(a) is None ==> (
        compile::network_of_value(v) matches Err(e) && e.kind is NetworkInvalidAddress),
{
    text::law_first_place_of_a_character(a, '/');
    text::lemma_index_behind(a, '/', b);
}

/// Whatever is accepted as a network is masked, and its prefix length is a multiple of 4
/// from 4 to 124.
pub proof fn law_accepted_networks_are_masked(v: ValueView)
    requires
        compile::network_of_value(v) is Ok,
    ensures
        ({
            let (addr, mask) = compile::network_of_value(v)->Ok_0;
            &&& 4 <= mask <= 124
            &&& mask % 4 == 0
            &&& addr as nat % vstd::arithmetic::power2::pow2((128 - mask) as nat) == 0
        }),
{
    let (addr, mask) = compile::network_of_value(v)->Ok_0;
    nibble::lemma_pow2_positive((128 - mask) as nat);
}

/// The label is this part of a template: as it is, or cut around its placeholder.
pub open spec fn is_label_of(label: FwdLabelView, part: Seq<char>) -> bool {
    match label {
        FwdLabelView::Literal { verbatim, .. } => verbatim == text::utf8(part),
        FwdLabelView::Digits { pre, post, dashed, .. } => exists|n: int|
            {
                let mark = if dashed {
                    "%digits-dashed%"@
                } else {
                    "%digits%"@
                };
                &&& 0 <= n && n + mark.len() <= part.len()
                &&& pre == text::utf8(#[trigger] part.take(n))
                &&& text::same_text(part.subrange(n, n + mark.len()), mark)
                &&& post == text::utf8(part.skip(n + mark.len()))
            },
    }
}

/// A template is its value, cut at the dots, with a dot at the end left out: label by
/// label, and the label with the placeholder cut around it.
pub proof fn law_templates_are_their_values(v: ValueView, host_nibbles: u8, i: int)
    requires
        compile::template_of_value(v, host_nibbles) is Ok,
    ensures
        ({
            let t = compile::template_of_value(v, host_nibbles)->Ok_0;
            let name = if v.value.len() > 0 && v.value.last() == '.' {
                v.value.drop_last()
            } else {
                v.value
            };
            let parts = text::pieces(name, '.');
            &&& t.labels.len() == parts.len()
            &&& 0 <= i < parts.len() ==> is_label_of(t.labels[i], parts[i]) && parts[i].len() > 0
            &&& 0 <= t.digits_at < t.labels.len() && t.labels[t.digits_at] is Digits
        }),
{
    let t = compile::template_of_value(v, host_nibbles)->Ok_0;
    let parts = text::pieces(text::without_last(v.value, '.'), '.');
    lemma_digits_at(t.labels);
    if 0 <= i < parts.len() {
        let dashed = text::occurrences(
            text::lowered(v.value),
            compile::placeholder(true),
        ) == 1;
        let mark = compile::placeholder(dashed);
        let part = parts[i];
        lemma_find_lowered(part, mark);
        reveal_strlit("%digits%");
        reveal_strlit("%digits-dashed%");
        assert(text::lowered("%digits%"@) =~= "%digits%"@);
        assert(text::lowered("%digits-dashed%"@) =~= "%digits-dashed%"@);
        assert(t.labels[i] == compile::label_of_segment(part, dashed));
        if let Some(n) = text::find(text::lowered(part), mark) {
            assert(part.take(n) == part.take(n));
        }
    }
}

proof fn lemma_find_lowered(part: Seq<char>, mark: Seq<char>)
    ensures
        text::find(text::lowered(part), mark) matches Some(n) ==> {
            &&& 0 <= n && n + mark.len() <= part.len()
            &&& text::lowered(part.subrange(n, n + mark.len())) == mark
        },
{
    text::law_find_gives_the_first_place(text::lowered(part), mark);
    if let Some(n) = text::find(text::lowered(part), mark) {
        assert(text::lowered(part.subrange(n, n + mark.len())) =~= text::lowered(part).subrange(
            n,
            n + mark.len(),
        ));
    }
}

proof fn lemma_digits_at(labels: Seq<FwdLabelView>)
    ensures
        compile::digits_label(labels) matches Some(at) ==> 0 <= at < labels.len()
            && labels[at] is Digits,
    decreases labels.len(),
{
    if labels.len() > 0 {
        lemma_digits_at(labels.drop_last());
    }
}

/// A `resolves to` value without a placeholder is refused, and so is one with two.
pub proof fn law_templates_need_one_placeholder(
    v: ValueView,
    host_nibbles: u8,
    i: int,
    j: int,
)
    ensures
        (forall|k: int|
            #![trigger text::lowered(v.value)[k]]
            0 <= k < v.value.len() ==> text::lowered(v.value)[k] != '%') ==> (
        compile::template_of_value(v, host_nibbles) matches Err(e) && e.kind is PlaceholderMissing),
        0 <= i && i + 8 <= j && j + 8 <= v.value.len() && text::same_text(
            v.value.subrange(i, i + 8),
            "%digits%"@,
        ) && text::same_text(v.value.subrange(j, j + 8), "%digits%"@) ==> (
        compile::template_of_value(v, host_nibbles) matches Err(e)
            && e.kind is PlaceholderRepeated),
{
    let lower = text::lowered(v.value);
    reveal_strlit("%digits%");
    reveal_strlit("%digits-dashed%");
    assert(text::lowered("%digits%"@) =~= "%digits%"@);
    if forall|k: int|
        #![trigger text::lowered(v.value)[k]]
        0 <= k < v.value.len() ==> text::lowered(v.value)[k] != '%' {
        assert forall|d: bool| text::occurrences(lower, #[trigger] compile::placeholder(d)) == 0 by {
            let mark = compile::placeholder(d);
            text::law_find_gives_the_first_place(lower, mark);
            if let Some(n) = text::find(lower, mark) {
                assert(lower.subrange(n, n + mark.len())[0] == lower[n]);
            }
            text::lemma_find_occurs(lower, mark);
        }
        assert(text::occurrences(lower, compile::placeholder(true)) == 0);
        assert(text::occurrences(lower, compile::placeholder(false)) == 0);
    }
    if 0 <= i && i + 8 <= j && j + 8 <= v.value.len() && text::same_text(
        v.value.subrange(i, i + 8),
        "%digits%"@,
    ) && text::same_text(v.value.subrange(j, j + 8), "%digits%"@) {
        assert(lower.subrange(i, i + 8) =~= text::lowered(v.value.subrange(i, i + 8)));
        assert(lower.subrange(j, j + 8) =~= text::lowered(v.value.subrange(j, j + 8)));
        text::law_separate_occurrences_count(lower, compile::placeholder(false), i, j);
    }
}

/// A zone is what its block says: the network with the line it stands on, the forward
/// names as they are written, the labels behind the digits as the apex, and the upstream
/// where one is named.
pub proof fn law_zones_are_what_their_blocks_say(
    raw: RawZoneView,
    taken: Seq<compile::TakenView>,
    ttl: u32,
    i: int,
)
    requires
        compile::zone_of_block(raw, taken, ttl) is Ok,
    ensures
        ({
            let zone = compile::zone_of_block(raw, taken, ttl)->Ok_0;
            &&& compile::network_of_value(raw.network) == Ok::<_, ErrorView>(
                (zone.prefix, zone.mask),
            )
            &&& zone.src_line == raw.network.line
            &&& zone.host_nibbles == (128 - zone.mask) / 4
            &&& zone.ttl == ttl
            &&& raw.resolves_to matches Some(v) && zone.resolves_to == v.value
                && compile::template_of_value(v, zone.host_nibbles) == Ok::<_, ErrorView>(zone.fwd)
            &&& raw.upstream is None ==> zone.upstream is None
            &&& raw.upstream matches Some(v) ==> zone.upstream is Some && net::ip_text(v.value)
                == zone.upstream
            &&& zone.ptr_zone.fqdn
            &&& zone.fwd_parent.fqdn
            &&& zone.fwd_parent.labels.len() == zone.fwd.labels.len() - zone.fwd.digits_at - 1
            &&& 0 <= i < zone.fwd_parent.labels.len() ==> (zone.fwd.labels[zone.fwd.digits_at + 1
                + i] matches FwdLabelView::Literal { verbatim, .. } && verbatim
                == zone.fwd_parent.labels[i])
        }),
{
    compile::law_zone_is_well_formed(raw, taken, ttl);
    let zone = compile::zone_of_block(raw, taken, ttl)->Ok_0;
    if 0 <= i < zone.fwd_parent.labels.len() {
        let k = zone.fwd.digits_at + 1 + i;
        assert(zone.fwd.labels[k].wf() && !(zone.fwd.labels[k] is Digits));
    }
}

proof fn lemma_block(blocks: Seq<RawZoneView>, ttl: u32, i: int) -> (taken: Seq<
    compile::TakenView,
>)
    requires
        compile::zones_of_blocks(blocks, ttl).errors.len() == 0,
        0 <= i < blocks.len(),
    ensures
        compile::zones_of_blocks(blocks, ttl).zones.len() == blocks.len(),
        compile::zone_of_block(blocks[i], taken, ttl) == Ok::<_, ErrorView>(
            compile::zones_of_blocks(blocks, ttl).zones[i],
        ),
    decreases blocks.len(),
{
    let rest = blocks.drop_last();
    compile::law_nothing_is_passed_over(blocks, ttl, Seq::empty());
    compile::law_nothing_is_passed_over(rest, ttl, Seq::empty());
    if i < rest.len() {
        let taken = lemma_block(rest, ttl, i);
        assert(rest[i] == blocks[i]);
        taken
    } else {
        compile::zones_of_blocks(rest, ttl).taken
    }
}

proof fn lemma_filter_all<A>(s: Seq<A>, f: spec_fn(A) -> bool)
    requires
        forall|i: int| 0 <= i < s.len() ==> f(#[trigger] s[i]),
    ensures
        s.filter(f) == s,
    decreases s.len(),
{
    reveal(Seq::filter);
    if s.len() > 0 {
        assert forall|i: int| 0 <= i < s.drop_last().len() implies f(
            #[trigger] s.drop_last()[i],
        ) by {
            assert(f(s[i]));
        }
        lemma_filter_all(s.drop_last(), f);
        assert(f(s[s.len() - 1]));
        assert(s.filter(f) =~= s);
    }
}

proof fn lemma_filter_none<A>(s: Seq<A>, f: spec_fn(A) -> bool)
    requires
        forall|i: int| 0 <= i < s.len() ==> !f(#[trigger] s[i]),
    ensures
        s.filter(f).len() == 0,
    decreases s.len(),
{
    reveal(Seq::filter);
    if s.len() > 0 {
        assert forall|i: int| 0 <= i < s.drop_last().len() implies !f(
            #[trigger] s.drop_last()[i],
        ) by {
            assert(!f(s[i]));
        }
        lemma_filter_none(s.drop_last(), f);
        assert(!f(s[s.len() - 1]));
    }
}

proof fn lemma_filter_sorted(zones: Seq<ZoneView>, hi: int, lo: int, m: u8)
    ensures
        compile::longest_first(zones, hi, lo).filter(|z: ZoneView| z.mask == m) == (if lo <= m
            <= hi {
            zones.filter(|z: ZoneView| z.mask == m)
        } else {
            Seq::empty()
        }),
    decreases hi - lo + 1,
{
    let f = |z: ZoneView| z.mask == m;
    if hi < lo {
        lemma_filter_none(Seq::<ZoneView>::empty(), f);
        assert(compile::longest_first(zones, hi, lo).filter(f) =~= Seq::empty());
    } else {
        lemma_filter_sorted(zones, hi - 1, lo, m);
        let g = |z: ZoneView| z.mask == hi;
        let head = compile::zones_with_mask(zones, hi);
        let tail = compile::longest_first(zones, hi - 1, lo);
        assert(head == zones.filter(g));
        assert forall|i: int| 0 <= i < head.len() implies (#[trigger] head[i]).mask == hi by {
            zones.lemma_filter_pred(g, i);
        }
        Seq::filter_distributes_over_add(head, tail, f);
        if m == hi {
            lemma_filter_all(head, f);
            assert(f =~= g);
            assert(head + Seq::<ZoneView>::empty() =~= head);
        } else {
            lemma_filter_none(head, f);
            assert(head.filter(f) =~= Seq::empty());
            assert(Seq::<ZoneView>::empty() + tail.filter(f) =~= tail.filter(f));
        }
    }
}

/// Sorting changes the order of zones of different prefix lengths only: the zones of each
/// length are the same before and after, and in the same order.
pub proof fn law_sorting_keeps_the_zones_of_each_length(zones: Seq<ZoneView>, m: u8)
    ensures
        compile::sorted_zones(zones).filter(|z: ZoneView| z.mask == m) == zones.filter(
            |z: ZoneView| z.mask == m,
        ),
{
    lemma_filter_sorted(zones, 255, 0, m);
}

proof fn lemma_sorted_has(zones: Seq<ZoneView>, i: int)
    requires
        0 <= i < zones.len(),
    ensures
        compile::sorted_zones(zones).contains(zones[i]),
{
    let m = zones[i].mask;
    let f = |z: ZoneView| z.mask == m;
    law_sorting_keeps_the_zones_of_each_length(zones, m);
    zones.lemma_filter_contains(f, i);
    let sorted = compile::sorted_zones(zones);
    let z = zones[i];
    sorted.lemma_filter_contains_rev(f, z);
}

proof fn lemma_lowered_network(a: Seq<char>, m: nat)
    ensures
        text::lowered(a + seq!['/'] + text::decimal(m)) == text::lowered(a) + seq!['/']
            + text::decimal(m),
{
    lemma_lowered_digits(m);
    let d = text::decimal(m);
    assert(text::lowered(a + seq!['/'] + d) =~= text::lowered(a) + text::lowered(seq!['/'])
        + text::lowered(d));
    assert(text::lowered(seq!['/']) =~= seq!['/']);
}

proof fn lemma_no_slash(a: Seq<char>)
    requires
        !a.contains('/'),
    ensures
        !text::lowered(a).contains('/'),
{
    if text::lowered(a).contains('/') {
        let i = text::lowered(a).index_of('/');
        assert(text::lowered(a)[i] == '/');
        assert(a[i] == '/');
    }
}

/// In a file without problems, every line `network ADDR/LEN` is a zone of that network,
/// which remembers its line.
pub proof fn law_network_lines_are_zones(
    input: Seq<char>,
    k: int,
    w: Written,
    a: Seq<char>,
    m: nat,
    addr: u128,
) -> (zone: ZoneView)
    requires
        is_sound(input),
        0 <= k < text::lines(input).len(),
        k < 0xffff_ffff,
        text::lines(input)[k] == w.line(),
        w.one_word("network"@),
        w.value == a + seq!['/'] + text::decimal(m),
        !a.contains('/'),
        net::ipv6_text(text::lowered(a)) == Some(addr),
    ensures
        compile::config_in(input).zones.contains(zone),
        zone.prefix == addr,
        zone.mask == m,
        zone.src_line == k + 1,
{
    let lines = text::lines(input);
    let d = Directive::Network;
    assert(w.spells(d.keyword()));
    lemma_sound(input);
    lemma_line_is_accepted(lines, k, w, d);
    let read = parse::read_lines(lines).cfg;
    let i = parse::read_lines(lines.take(k)).cfg.zones.len() as int;
    let after = parse::read_lines(lines.take(k + 1)).cfg.zones;
    assert(after[i].network == passed_on(w, d, parse::line_number(k)));
    assert(read.zones[i].network == after[i].network);
    let ttl = compile::settings(read.globals).ttl;
    let zones = compile::zones_of_blocks(read.zones, ttl).zones;
    let taken = lemma_block(read.zones, ttl, i);
    law_zones_are_what_their_blocks_say(read.zones[i], taken, ttl, 0);
    lemma_lowered_network(a, m);
    lemma_no_slash(a);
    law_networks_are_addresses_with_prefix_lengths(
        read.zones[i].network,
        text::lowered(a),
        m,
        addr,
    );
    lemma_sorted_has(zones, i);
    zones[i]
}

/// No `network` line stands between two places.
proof fn lemma_same_block(lines: Seq<Seq<char>>, k: int, j: int)
    requires
        0 <= k <= j <= lines.len(),
        forall|m: int| k <= m < j ==> !begins(#[trigger] lines[m], "network"@),
    ensures
        parse::read_lines(lines.take(j)).cfg.zones.len() == parse::read_lines(
            lines.take(k),
        ).cfg.zones.len(),
    decreases j - k,
{
    if k < j {
        lemma_same_block(lines, k, j - 1);
        assert(lines.take(j).drop_last() =~= lines.take(j - 1));
        let raw = lines[j - 1];
        let body = raw.skip(text::leading_spaces(raw));
        assert(!begins(raw, "network"@));
        lemma_found_begins(body, 0);
    }
}

/// A `network` line of a file without problems opens a block of its own.
proof fn lemma_network_line(lines: Seq<Seq<char>>, k: int, w: Written) -> (i: int)
    requires
        parse::read_lines(lines).errors.len() == 0,
        0 <= k < lines.len(),
        lines[k] == w.line(),
        w.one_word("network"@),
    ensures
        i + 1 == parse::read_lines(lines.take(k + 1)).cfg.zones.len(),
        0 <= i < parse::read_lines(lines).cfg.zones.len(),
        parse::read_lines(lines).cfg.zones[i].network == passed_on(
            w,
            Directive::Network,
            parse::line_number(k),
        ),
{
    let d = Directive::Network;
    assert(w.spells(d.keyword()));
    lemma_line_is_accepted(lines, k, w, d);
    let i = parse::read_lines(lines.take(k)).cfg.zones.len() as int;
    let after = parse::read_lines(lines.take(k + 1)).cfg.zones;
    assert(after[i].network == passed_on(w, d, parse::line_number(k)));
    assert(parse::read_lines(lines).cfg.zones[i].network == after[i].network);
    i
}

/// A line on a block, in a file without problems, is noted in the block last opened.
proof fn lemma_block_line(lines: Seq<Seq<char>>, j: int, v: Written, e: Directive)
    requires
        parse::read_lines(lines).errors.len() == 0,
        0 <= j < lines.len(),
        lines[j] == v.line(),
        v.spells(e.keyword()),
        e == Directive::ResolvesTo || e == Directive::WithUpstream,
    ensures
        ({
            let i = parse::read_lines(lines.take(j)).cfg.zones.len() - 1;
            let raw = parse::read_lines(lines).cfg.zones[i];
            let value = passed_on(v, e, parse::line_number(j));
            &&& 0 <= i < parse::read_lines(lines).cfg.zones.len()
            &&& e == Directive::ResolvesTo ==> raw.resolves_to == Some(value)
            &&& e == Directive::WithUpstream ==> raw.upstream == Some(value)
        }),
{
    lemma_line_is_accepted(lines, j, v, e);
    let i = parse::read_lines(lines.take(j)).cfg.zones.len() - 1;
    let value = passed_on(v, e, parse::line_number(j));
    let after = parse::read_lines(lines.take(j + 1)).cfg.zones;
    if e == Directive::ResolvesTo {
        assert(after[i].resolves_to == Some(value));
        assert(parse::read_lines(lines).cfg.zones[i].resolves_to == after[i].resolves_to);
    } else {
        assert(after[i].upstream == Some(value));
        assert(parse::read_lines(lines).cfg.zones[i].upstream == after[i].upstream);
    }
}

/// Each block of a file without problems is a zone of the configuration.
proof fn lemma_zone_of_a_block(input: Seq<char>, i: int) -> (zone: ZoneView)
    requires
        is_sound(input),
        0 <= i < parse::read_lines(text::lines(input)).cfg.zones.len(),
    ensures
        ({
            let raw = parse::read_lines(text::lines(input)).cfg.zones[i];
            &&& compile::config_in(input).zones.contains(zone)
            &&& zone.src_line == raw.network.line
            &&& raw.resolves_to matches Some(v) && zone.resolves_to == v.value
            &&& raw.upstream matches Some(v) ==> zone.upstream is Some && net::ip_text(v.value)
                == zone.upstream
        }),
{
    lemma_sound(input);
    let read = parse::read_lines(text::lines(input)).cfg;
    let ttl = compile::settings(read.globals).ttl;
    let zones = compile::zones_of_blocks(read.zones, ttl).zones;
    let taken = lemma_block(read.zones, ttl, i);
    law_zones_are_what_their_blocks_say(read.zones[i], taken, ttl, 0);
    lemma_sorted_has(zones, i);
    zones[i]
}

/// In a file without problems, the lines `resolves to NAME` and `with upstream ADDR` that
/// follow a `network` line, with no other `network` line between, say of that zone what
/// its names are and which upstream it has.
pub proof fn law_block_lines_belong_to_their_network(
    input: Seq<char>,
    k: int,
    w: Written,
    j: int,
    v: Written,
) -> (zone: ZoneView)
    requires
        is_sound(input),
        0 <= k < j < text::lines(input).len(),
        k < 0xffff_ffff,
        text::lines(input)[k] == w.line(),
        w.one_word("network"@),
        text::lines(input)[j] == v.line(),
        v.two_words("resolves"@, "to"@) || v.two_words("with"@, "upstream"@),
        forall|m: int|
            k < m < j ==> !begins(#[trigger] text::lines(input)[m], "network"@),
    ensures
        compile::config_in(input).zones.contains(zone),
        zone.src_line == k + 1,
        v.two_words("resolves"@, "to"@) ==> zone.resolves_to == v.value,
        v.two_words("with"@, "upstream"@) ==> zone.upstream is Some && net::ip_text(
            text::lowered(v.value),
        ) == zone.upstream,
{
    let lines = text::lines(input);
    lemma_sound(input);
    let i = lemma_network_line(lines, k, w);
    lemma_same_block(lines, k + 1, j);
    if v.two_words("resolves"@, "to"@) {
        assert(v.spells(Directive::ResolvesTo.keyword()));
        lemma_block_line(lines, j, v, Directive::ResolvesTo);
    }
    if v.two_words("with"@, "upstream"@) {
        assert(v.spells(Directive::WithUpstream.keyword()));
        lemma_block_line(lines, j, v, Directive::WithUpstream);
    }
    lemma_zone_of_a_block(input, i)
}

/// There are as many zones as `network` lines: each zone comes from a line of its own.
pub proof fn law_every_zone_has_its_block(input: Seq<char>)
    requires
        is_sound(input),
    ensures
        compile::config_in(input).zones.len() == parse::read_lines(
            text::lines(input),
        ).cfg.zones.len(),
        compile::config_in(input).listen.len() == parse::read_lines(
            text::lines(input),
        ).cfg.listen.len(),
{
    lemma_sound(input);
    let read = parse::read_lines(text::lines(input)).cfg;
    let ttl = compile::settings(read.globals).ttl;
    compile::law_nothing_is_passed_over(read.zones, ttl, read.listen);
    compile::lemma_taken(read.zones, ttl);
    compile::lemma_sorted(compile::zones_of_blocks(read.zones, ttl).zones);
}

// ---- laws: reports ---------------------------------------------------------

/// The carets stand under the bytes they point at: blanks up to the start, tabs where the
/// line has tabs, and then as many carets as there are bytes, at least one.
pub proof fn law_carets_underline_the_span(e: ErrorView, start: int, end: int, i: int)
    requires
        e.span == Some((start, end)),
        0 <= start <= end <= text::utf8(e.snippet).len(),
    ensures
        e.marks().len() == start + (if end > start {
            end - start
        } else {
            1
        }),
        0 <= i < start ==> e.marks()[i] == (if text::utf8(e.snippet)[i] == 9 {
            '\t'
        } else {
            ' '
        }),
        start <= i < e.marks().len() ==> e.marks()[i] == '^',
{
}

/// A prefix length that is wrong is underlined together with the slash before it, up to
/// the end of the value.
pub proof fn law_bad_prefix_lengths_are_underlined(v: ValueView, a: Seq<char>, m: Seq<char>)
    requires
        v.value == a + seq!['/'] + m,
        !a.contains('/'),
        net::ipv6_text(a) is Some,
        v.end == v.start + text::utf8(a).len() + 1 + text::utf8(m).len(),
    ensures
        compile::network_of_value(v) matches Err(e) ==> {
            &&& e.span == Some((v.start + text::utf8(a).len(), v.end)) || e.kind
                is NetworkIsSingleAddress || e.kind is NetworkHostBitsSet
            &&& e.kind is NetworkIsSingleAddress || e.kind is NetworkHostBitsSet ==> e.span
                == Some((v.start, v.end))
        },
{
    text::lemma_index_behind(a, '/', m);
}

/// The suggestion for a network with bits set below its prefix is the network itself, and
/// is accepted where it reads back as the address it was printed for.
pub proof fn law_suggested_networks_are_masked(v: ValueView, a: Seq<char>, m: nat, addr: u128)
    requires
        v.value == a + seq!['/'] + text::decimal(m),
        !a.contains('/'),
        net::ipv6_text(a) == Some(addr),
        compile::network_of_value(v) is Err,
        4 <= m <= 124,
        m % 4 == 0,
    ensures
        ({
            let p = vstd::arithmetic::power2::pow2((128 - m) as nat);
            let network = ((addr as nat / p) * p) as u128;
            compile::network_of_value(v)->Err_0.kind == (KindView::NetworkHostBitsSet {
                suggestion: net::ipv6_shown(network) + seq!['/'] + text::decimal(m),
            })
        }),
{
    law_networks_are_addresses_with_prefix_lengths(v, a, m, addr);
    text::lemma_index_behind(a, '/', text::decimal(m));
    text::law_decimal_reads_back(m, 0xffff_ffff);
    nibble::law_network_part_keeps_the_prefix(addr, m as u8);
    reveal_strlit("/");
    assert("/"@ =~= seq!['/']);
}

/// The line that a problem with a repeated setting points back to is that of the first
/// setting of that kind.
pub proof fn law_the_first_setting_is_pointed_at(globals: Seq<RawGlobalView>, key: GlobalKey) -> (i:
    int)
    requires
        parse::first_line_of(globals, key) is Some,
    ensures
        0 <= i < globals.len(),
        globals[i].key == key,
        parse::first_line_of(globals, key) == Some(globals[i].value.line),
        forall|j: int| 0 <= j < i ==> (#[trigger] globals[j]).key != key,
    decreases globals.len(),
{
    if globals[0].key == key {
        0
    } else {
        let rest = globals.drop_first();
        let i = law_the_first_setting_is_pointed_at(rest, key);
        assert forall|j: int| 0 <= j < i + 1 implies (#[trigger] globals[j]).key != key by {
            if j > 0 {
                assert(globals[j] == rest[j - 1]);
            }
        }
        i + 1
    }
}

/// A network or a pattern that a zone before has taken is refused, with the line where it
/// was used first; one that none has taken is not refused for that.
pub proof fn law_networks_and_patterns_are_used_once(
    taken: Seq<compile::TakenView>,
    prefix: u128,
    mask: u8,
    pattern: Seq<char>,
    i: int,
)
    requires
        0 <= i < taken.len(),
    ensures
        taken[i].prefix == prefix && taken[i].mask == mask && (forall|j: int|
            0 <= j < i ==> (#[trigger] taken[j]).prefix != prefix || taken[j].mask != mask)
            ==> compile::network_taken(taken, prefix, mask) == Some(taken[i].network_line),
        taken[i].pattern == pattern && (forall|j: int|
            0 <= j < i ==> (#[trigger] taken[j]).pattern != pattern) ==> compile::pattern_taken(
            taken,
            pattern,
        ) == Some(taken[i].pattern_line),
        (forall|j: int|
            0 <= j < taken.len() ==> (#[trigger] taken[j]).prefix != prefix || taken[j].mask
                != mask) ==> compile::network_taken(taken, prefix, mask) is None,
        (forall|j: int| 0 <= j < taken.len() ==> (#[trigger] taken[j]).pattern != pattern)
            ==> compile::pattern_taken(taken, pattern) is None,
    decreases taken.len(),
{
    let rest = taken.drop_first();
    assert forall|j: int| 0 <= j < rest.len() implies #[trigger] rest[j] == taken[j + 1] by {}
    if rest.len() > 0 {
        law_networks_and_patterns_are_used_once(
            rest,
            prefix,
            mask,
            pattern,
            if i > 0 {
                i - 1
            } else {
                0
            },
        );
    }
    if i > 0 {
        assert(rest[i - 1] == taken[i]);
    }
}

/// Two zones of an accepted file differ in their network and, but for case, in their
/// pattern.
pub proof fn law_zones_of_a_file_differ(input: Seq<char>, i: int, j: int)
    requires
        0 <= i < j < compile::config_in(input).zones.len(),
    ensures
        ({
            let (a, b) = (compile::config_in(input).zones[i], compile::config_in(input).zones[j]);
            &&& a.prefix != b.prefix || a.mask != b.mask
            &&& !text::same_text(a.resolves_to, b.resolves_to)
            &&& a.mask >= b.mask
        }),
{
    compile::law_config_is_well_formed(input);
    let zones = compile::config_in(input).zones;
    assert(super::unlike(zones[i], zones[j]));
}

/// A warning for each of three things: no SOA, no rate limit, no network.
pub proof fn law_warnings_tell_what_is_missing(config: ConfigView)
    ensures
        ({
            let a: int = if config.soa is None {
                1
            } else {
                0
            };
            let b: int = if !config.params.rrl.enabled {
                1
            } else {
                0
            };
            let c: int = if config.zones.len() == 0 {
                1
            } else {
                0
            };
            let all = super::warnings_on(config);
            &&& all.len() == a + b + c
            &&& b == 1 ==> all[a] == "response rate limiting is disabled"@
            &&& c == 1 ==> all[a + b] == "no `network` configured: every query will be declined"@
        }),
{
}

/// Names that an apex list holds are all different.
pub proof fn law_apexes_are_distinct(zones: Seq<ZoneView>, i: int, j: int)
    requires
        0 <= i < j < super::apexes_of(zones).len(),
    ensures
        !crate::name::same_name(super::apexes_of(zones)[i], super::apexes_of(zones)[j]),
    decreases zones.len(),
{
    let before = super::apexes_of(zones.drop_last());
    let mid = super::with_name(before, zones.last().ptr_zone);
    let all = super::apexes_of(zones);
    assert(all == super::with_name(mid, zones.last().fwd_parent));
    if j < before.len() {
        law_apexes_are_distinct(zones.drop_last(), i, j);
        assert(mid[i] == before[i] && mid[j] == before[j]);
        assert(all[i] == mid[i] && all[j] == mid[j]);
    } else if j < mid.len() {
        assert(mid[i] == before[i]);
        assert(all[i] == mid[i] && all[j] == mid[j]);
    } else {
        assert(all[i] == mid[i]);
    }
}

} // verus!
