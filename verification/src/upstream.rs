//! Optional upstream PTR lookups (`with upstream`).
//!
//! Before synthesizing a PTR, the configured upstream is asked for
//! `<qname>.upstream`, so an operator can override individual addresses with real
//! hostnames.
//!
//! Upstream trouble degrades to the synthesized answer, never to an error for the
//! client: a lookup that is skipped, fails or times out yields no records, and a
//! hostile answer is cut down by [`filter_upstream`], an allowlist.

use vstd::prelude::*;

use crate::name::{Name, NameView};
use crate::net::IpAddr;
use crate::record;
use crate::record::{DNSClass, RData, RDataView, Record, RecordView};
use crate::text;

verus! {

/// Cap on relayed records, so a hostile upstream cannot inflate our response.
pub const MAX_RELAYED_RECORDS: usize = 8;

/// TTL clamp for relayed records.
pub const MIN_RELAY_TTL: u32 = 30;

pub const MAX_RELAY_TTL: u32 = 3600;

/// Concurrent in-flight upstream queries. Beyond this we synthesize instead of
/// waiting, which is what makes a black-holed upstream harmless.
pub const MAX_INFLIGHT: usize = 64;

/// Consecutive failures before the upstream is skipped entirely for a while.
pub const BREAKER_THRESHOLD: u32 = 8;

/// How long it is then skipped, in nanoseconds.
pub const BREAKER_COOLDOWN: u64 = 10_000_000_000;

/// The label appended to a query before asking the upstream: `upstream`.
pub open spec fn upstream_label() -> Seq<u8> {
    seq![0x75u8, 0x70u8, 0x73u8, 0x74u8, 0x72u8, 0x65u8, 0x61u8, 0x6du8]
}

/// The name the upstream is asked for, if there is one.
pub open spec fn asked_name(qname: NameView) -> Option<NameView> {
    let labels = qname.labels.push(upstream_label());
    if crate::name::labels_fit(labels) {
        Some(NameView { labels, fqdn: qname.fqdn })
    } else {
        None
    }
}

/// A record we are willing to serve as our own authoritative data: class IN, type
/// PTR, and owned by exactly the name we asked for.
pub open spec fn relayable(record: RecordView, up_qname: NameView) -> bool {
    &&& record.dns_class == DNSClass::IN
    &&& record.data is PTR
    &&& crate::name::same_name(record.name, up_qname)
}

/// A TTL within the bounds for relayed records.
pub open spec fn relay_ttl(ttl: u32) -> u32 {
    if ttl < MIN_RELAY_TTL {
        MIN_RELAY_TTL
    } else if ttl > MAX_RELAY_TTL {
        MAX_RELAY_TTL
    } else {
        ttl
    }
}

/// A record rebuilt with our own owner name.
pub open spec fn rebuilt(record: RecordView, qname: NameView) -> RecordView {
    crate::record::internet_record(qname, relay_ttl(record.ttl), record.data)
}

/// The first relayable records, rebuilt.
pub open spec fn relayed(
    qname: NameView,
    up_qname: NameView,
    answers: Seq<RecordView>,
) -> Seq<RecordView> {
    let kept = answers.filter(|r: RecordView| relayable(r, up_qname));
    Seq::new(
        if kept.len() < MAX_RELAYED_RECORDS {
            kept.len()
        } else {
            MAX_RELAYED_RECORDS as nat
        },
        |i: int| rebuilt(kept[i], qname),
    )
}

proof fn lemma_relayed_push(
    qname: NameView,
    up_qname: NameView,
    answers: Seq<RecordView>,
    record: RecordView,
)
    ensures
        relayed(qname, up_qname, answers.push(record)) == (if relayable(record, up_qname)
            && relayed(qname, up_qname, answers).len() < MAX_RELAYED_RECORDS {
            relayed(qname, up_qname, answers).push(rebuilt(record, qname))
        } else {
            relayed(qname, up_qname, answers)
        }),
{
    let pred = |r: RecordView| relayable(r, up_qname);
    answers.lemma_filter_push(record, pred);
    let before = relayed(qname, up_qname, answers);
    let after = relayed(qname, up_qname, answers.push(record));
    if relayable(record, up_qname) && before.len() < MAX_RELAYED_RECORDS {
        assert(after =~= before.push(rebuilt(record, qname)));
    } else {
        assert(after =~= before);
    }
}

/// Keep only records we are willing to serve as our own authoritative data.
///
/// This is an allowlist: anything not explicitly permitted is dropped. Survivors
/// are rebuilt with `qname` as the owner, their TTL is clamped, and their number
/// is capped.
pub fn filter_upstream(qname: &Name, up_qname: &Name, answers: &[Record]) -> (r: Vec<Record>)
    ensures
        text::views(r@) == relayed(qname@, up_qname@, text::views(answers@)),
{
    let ghost all = text::views(answers@);
    let mut out: Vec<Record> = Vec::new();
    proof {
        reveal(Seq::filter);
        assert(text::views(out@) =~= relayed(qname@, up_qname@, all.take(0)));
    }
    for i in 0..answers.len()
        invariant
            all == text::views(answers@),
            text::views(out@) == relayed(qname@, up_qname@, all.take(i as int)),
    {
        let record = &answers[i];
        proof {
            assert(all[i as int] == record@);
            assert(all.take(i + 1) =~= all.take(i as int).push(record@));
            lemma_relayed_push(qname@, up_qname@, all.take(i as int), record@);
            assert(text::views(out@).len() == out@.len());
        }
        if let RData::PTR(target) = &record.data {
            if record.dns_class == DNSClass::IN && record.name.same(up_qname) && out.len()
                < MAX_RELAYED_RECORDS {
                let ttl: u32 = if record.ttl < MIN_RELAY_TTL {
                    MIN_RELAY_TTL
                } else if record.ttl > MAX_RELAY_TTL {
                    MAX_RELAY_TTL
                } else {
                    record.ttl
                };
                // Rebuild rather than mutate: the owner is ours, the target is
                // theirs, and no upstream flag survives.
                let kept = Record::from_rdata(qname.clone(), ttl, RData::PTR(target.clone()));
                proof {
                    text::lemma_views_push(out@, kept);
                }
                out.push(kept);
            }
        }
    }
    assert(all.take(all.len() as int) =~= all);
    out
}

/// Append the `upstream` label.
///
/// A full reverse name is 34 short labels (~77 bytes), so this stays comfortably
/// inside the 255-byte limit; a name that would not is declined.
pub fn upstream_qname(qname: &Name) -> (r: Option<Name>)
    ensures
        asked_name(qname@) == (match r {
            Some(name) => Some(name@),
            None => None,
        }),
{
    let mut labels = text::copy_labels(&qname.labels);
    let label: Vec<u8> = vec![0x75, 0x70, 0x73, 0x74, 0x72, 0x65, 0x61, 0x6d];
    proof {
        text::lemma_views_push(labels@, label);
        assert(label@ =~= upstream_label());
    }
    labels.push(label);
    match Name::from_labels(labels) {
        Ok(mut name) => {
            name.fqdn = qname.fqdn;
            Some(name)
        },
        Err(_) => None,
    }
}

/// Simple consecutive-failure circuit breaker. Times are nanoseconds on a clock
/// that never goes back.
#[derive(Debug, Clone, Copy, PartialEq, Eq, Structural)]
pub struct Breaker {
    pub consecutive_failures: u32,
    pub open_until: Option<u64>,
}

impl Breaker {
    /// A breaker that has seen no failure.
    pub open spec fn closed_breaker() -> Breaker {
        Breaker { consecutive_failures: 0, open_until: None }
    }

    /// The upstream is to be skipped at `now`.
    pub open spec fn skips(self, now: u64) -> bool {
        match self.open_until {
            Some(until) => now < until,
            None => false,
        }
    }

    /// The breaker after it was asked at `now`: a cooldown that is over is
    /// forgotten.
    pub open spec fn after_check(self, now: u64) -> Breaker {
        if self.open_until is Some && !self.skips(now) {
            Breaker::closed_breaker()
        } else {
            self
        }
    }

    /// One failure more trips the breaker.
    pub open spec fn trips(self) -> bool {
        self.consecutive_failures + 1 >= BREAKER_THRESHOLD && self.open_until is None
    }

    /// The breaker after a failure at `now`.
    pub open spec fn after_failure(self, now: u64) -> Breaker {
        Breaker {
            consecutive_failures: if self.consecutive_failures < u32::MAX {
                (self.consecutive_failures + 1) as u32
            } else {
                u32::MAX
            },
            open_until: if self.trips() {
                if now <= u64::MAX - BREAKER_COOLDOWN {
                    Some((now + BREAKER_COOLDOWN) as u64)
                } else {
                    Some(u64::MAX)
                }
            } else {
                self.open_until
            },
        }
    }

    /// True if the upstream should be skipped right now.
    pub fn is_open(&mut self, now: u64) -> (r: bool)
        ensures
            r == old(self).skips(now),
            *final(self) == old(self).after_check(now),
    {
        match self.open_until {
            Some(until) => {
                if now < until {
                    true
                } else {
                    self.open_until = None;
                    self.consecutive_failures = 0;
                    false
                }
            },
            None => false,
        }
    }

    pub fn record_success(&mut self)
        ensures
            *final(self) == Breaker::closed_breaker(),
    {
        self.consecutive_failures = 0;
        self.open_until = None;
    }

    /// Returns true if this failure tripped the breaker.
    pub fn record_failure(&mut self, now: u64) -> (r: bool)
        ensures
            r == old(self).trips(),
            *final(self) == old(self).after_failure(now),
    {
        self.consecutive_failures = self.consecutive_failures.saturating_add(1);
        if self.consecutive_failures >= BREAKER_THRESHOLD && self.open_until.is_none() {
            self.open_until = Some(now.saturating_add(BREAKER_COOLDOWN));
            return true;
        }
        false
    }
}

impl Default for Breaker {
    fn default() -> (r: Self)
        ensures
            r == Breaker::closed_breaker(),
    {
        Breaker { consecutive_failures: 0, open_until: None }
    }
}

/// What happened last in an upstream lookup.
#[derive(Debug, PartialEq, Eq)]
pub enum LookupEvent {
    /// The lookup begins.
    Start,
    /// A permit for one more query in flight was asked for, and granted or not.
    Permit(bool),
    /// The upstream answered with these records.
    Found(Vec<Record>),
    /// The upstream answered that there is nothing, or could not be asked.
    NotFound,
    /// The deadline passed.
    TimedOut,
}

/// What to do next in an upstream lookup.
#[derive(Debug, PartialEq, Eq)]
pub enum LookupAction {
    /// Ask for a permit, without waiting for one.
    Acquire,
    /// Ask the upstream for the PTR records of this name.
    Ask(Name),
    /// The lookup is over and yields these records.
    Done(Vec<Record>),
}

#[verifier::ext_equal]
pub enum EventView {
    Start,
    Permit(bool),
    Found(Seq<RecordView>),
    NotFound,
    TimedOut,
}

#[verifier::ext_equal]
pub enum ActionView {
    Acquire,
    Ask(NameView),
    Done(Seq<RecordView>),
}

impl View for LookupEvent {
    type V = EventView;

    open spec fn view(&self) -> EventView {
        match *self {
            LookupEvent::Start => EventView::Start,
            LookupEvent::Permit(granted) => EventView::Permit(granted),
            LookupEvent::Found(records) => EventView::Found(text::views(records@)),
            LookupEvent::NotFound => EventView::NotFound,
            LookupEvent::TimedOut => EventView::TimedOut,
        }
    }
}

impl View for LookupAction {
    type V = ActionView;

    open spec fn view(&self) -> ActionView {
        match *self {
            LookupAction::Acquire => ActionView::Acquire,
            LookupAction::Ask(name) => ActionView::Ask(name@),
            LookupAction::Done(records) => ActionView::Done(text::views(records@)),
        }
    }
}

/// The lookup is over and yields nothing.
pub open spec fn nothing() -> ActionView {
    ActionView::Done(Seq::empty())
}

/// What to do next in a lookup for `qname`.
pub open spec fn next_action(
    breaker: Breaker,
    qname: NameView,
    now: u64,
    event: EventView,
) -> ActionView {
    match event {
        EventView::Start => if breaker.skips(now) {
            nothing()
        } else {
            ActionView::Acquire
        },
        // No permit means the upstream is already saturated. Skip it rather than
        // queue.
        EventView::Permit(granted) => match asked_name(qname) {
            Some(name) if granted => ActionView::Ask(name),
            _ => nothing(),
        },
        EventView::Found(records) => match asked_name(qname) {
            Some(name) => ActionView::Done(relayed(qname, name, records)),
            None => nothing(),
        },
        EventView::NotFound => nothing(),
        EventView::TimedOut => nothing(),
    }
}

/// The breaker after an event. A negative answer is the normal case for an address
/// with no override, so it is not a failure of the upstream.
pub open spec fn next_breaker(breaker: Breaker, now: u64, event: EventView) -> Breaker {
    match event {
        EventView::Start => breaker.after_check(now),
        EventView::Permit(_) => breaker,
        EventView::Found(_) => Breaker::closed_breaker(),
        EventView::NotFound => Breaker::closed_breaker(),
        EventView::TimedOut => breaker.after_failure(now),
    }
}

/// A configured upstream, and how it has been doing.
#[derive(Debug, PartialEq, Eq)]
pub struct Upstream {
    pub addr: IpAddr,
    /// Deadline for one lookup, in milliseconds.
    pub timeout: u64,
    pub breaker: Breaker,
}

impl Upstream {
    /// An upstream at `addr` that has seen no failure.
    pub fn new(addr: IpAddr, timeout: u64) -> (r: Self)
        ensures
            r.addr == addr,
            r.timeout == timeout,
            r.breaker == Breaker::closed_breaker(),
    {
        Upstream { addr, timeout, breaker: Breaker::default() }
    }

    pub fn addr(&self) -> (r: IpAddr)
        ensures
            r == self.addr,
    {
        self.addr
    }

    /// Advance a lookup that asks the upstream to override the PTR of `qname`.
    ///
    /// The lookup yields no records for every failure mode — timeout, refusal,
    /// hostile content, saturation, open breaker — so the caller simply falls
    /// through to synthesis.
    pub fn lookup_ptr(&mut self, qname: &Name, now: u64, event: LookupEvent) -> (r: LookupAction)
        ensures
            r@ == next_action(old(self).breaker, qname@, now, event@),
            final(self).breaker == next_breaker(old(self).breaker, now, event@),
            final(self).addr == old(self).addr,
            final(self).timeout == old(self).timeout,
    {
        match event {
            LookupEvent::Start => {
                if self.breaker.is_open(now) {
                    LookupAction::Done(record::no_records())
                } else {
                    LookupAction::Acquire
                }
            },
            LookupEvent::Permit(granted) => {
                if !granted {
                    return LookupAction::Done(record::no_records());
                }
                match upstream_qname(qname) {
                    Some(name) => LookupAction::Ask(name),
                    None => LookupAction::Done(record::no_records()),
                }
            },
            LookupEvent::Found(records) => {
                self.breaker.record_success();
                match upstream_qname(qname) {
                    Some(name) => LookupAction::Done(filter_upstream(qname, &name, &records)),
                    None => LookupAction::Done(record::no_records()),
                }
            },
            LookupEvent::NotFound => {
                self.breaker.record_success();
                LookupAction::Done(record::no_records())
            },
            LookupEvent::TimedOut => {
                let _ = self.breaker.record_failure(now);
                LookupAction::Done(record::no_records())
            },
        }
    }
}

// ---- laws ------------------------------------------------------------------

/// Whatever an upstream answers, at most eight records are relayed, and each is a
/// PTR record of class IN, owned by the name the client asked about, with a TTL
/// within bounds and a target that the upstream gave for exactly the name it was
/// asked for.
pub proof fn law_relayed_records_are_ours(
    qname: NameView,
    up_qname: NameView,
    answers: Seq<RecordView>,
    i: int,
) -> (from: int)
    requires
        0 <= i < relayed(qname, up_qname, answers).len(),
    ensures
        relayed(qname, up_qname, answers).len() <= 8,
        ({
            let r = relayed(qname, up_qname, answers)[i];
            &&& r.name == qname
            &&& r.dns_class == DNSClass::IN
            &&& r.data is PTR
            &&& 30 <= r.ttl <= 3600
            &&& 0 <= from < answers.len()
            &&& r.data == answers[from].data
            &&& crate::name::same_name(answers[from].name, up_qname)
        }),
{
    let pred = |r: RecordView| relayable(r, up_qname);
    let kept = answers.filter(pred);
    answers.lemma_filter_pred(pred, i);
    answers.lemma_filter_contains_rev(pred, kept[i]);
    answers.index_of(kept[i])
}

/// A lookup that is skipped, declined, answered negatively or timed out yields no
/// records.
pub proof fn law_trouble_yields_nothing(breaker: Breaker, qname: NameView, now: u64)
    ensures
        breaker.skips(now) ==> next_action(breaker, qname, now, EventView::Start) == nothing(),
        next_action(breaker, qname, now, EventView::Permit(false)) == nothing(),
        next_action(breaker, qname, now, EventView::NotFound) == nothing(),
        next_action(breaker, qname, now, EventView::TimedOut) == nothing(),
{
}

/// A breaker after failures at these times, in order.
pub open spec fn after_failures(times: Seq<u64>) -> Breaker
    decreases times.len(),
{
    if times.len() == 0 {
        Breaker::closed_breaker()
    } else {
        after_failures(times.drop_last()).after_failure(times.last())
    }
}

/// The breaker stays closed below the threshold, the failure that reaches the
/// threshold trips it, and from then on the upstream is skipped until the cooldown
/// is over.
pub proof fn law_breaker_opens_at_the_threshold(times: Seq<u64>)
    requires
        times.len() <= BREAKER_THRESHOLD,
    ensures
        after_failures(times).consecutive_failures == times.len(),
        times.len() < BREAKER_THRESHOLD ==> after_failures(times).open_until is None,
        times.len() == BREAKER_THRESHOLD ==> {
            &&& after_failures(times.drop_last()).trips()
            &&& forall|now: u64|
                now < times.last() + BREAKER_COOLDOWN && now < u64::MAX
                    ==> #[trigger] after_failures(times).skips(now)
            &&& forall|now: u64|
                now >= times.last() + BREAKER_COOLDOWN ==> !(#[trigger] after_failures(
                    times,
                ).skips(now))
        },
    decreases times.len(),
{
    if times.len() > 0 {
        law_breaker_opens_at_the_threshold(times.drop_last());
    }
}

/// An open breaker does not trip again, and once its cooldown is over it starts
/// afresh.
pub proof fn law_open_breaker(breaker: Breaker, now: u64)
    requires
        breaker.open_until is Some,
    ensures
        !breaker.trips(),
        breaker.after_failure(now).open_until == breaker.open_until,
        !breaker.skips(now) ==> breaker.after_check(now) == Breaker::closed_breaker(),
        breaker.skips(now) ==> breaker.after_check(now) == breaker,
{
}

/// Only a timeout counts as a failure: after any answer, negative or not, the breaker
/// has no failures and no cooldown; asking for a permit leaves it as it is; and the
/// start of a lookup at most forgets a cooldown that is over.
pub proof fn law_only_timeouts_count_as_failures(
    breaker: Breaker,
    now: u64,
    records: Seq<RecordView>,
    granted: bool,
)
    ensures
        ({
            let after = next_breaker(breaker, now, EventView::NotFound);
            after.consecutive_failures == 0 && after.open_until is None
        }),
        ({
            let after = next_breaker(breaker, now, EventView::Found(records));
            after.consecutive_failures == 0 && after.open_until is None
        }),
        next_breaker(breaker, now, EventView::Permit(granted)) == breaker,
        ({
            let after = next_breaker(breaker, now, EventView::Start);
            match breaker.open_until {
                Some(until) => if now < until {
                    after == breaker
                } else {
                    after.consecutive_failures == 0 && after.open_until is None
                },
                None => after == breaker,
            }
        }),
        ({
            let after = next_breaker(breaker, now, EventView::TimedOut);
            &&& breaker.consecutive_failures < u32::MAX ==> after.consecutive_failures
                == breaker.consecutive_failures + 1
            &&& breaker.open_until is Some ==> after.open_until == breaker.open_until
            &&& breaker.open_until is None && breaker.consecutive_failures < 7
                ==> after.open_until is None
            &&& breaker.open_until is None && breaker.consecutive_failures >= 7 && now
                <= u64::MAX - 10_000_000_000 ==> after.open_until == Some(
                (now + 10_000_000_000) as u64,
            )
        }),
{
}

/// The breaker after these events at these times, in order.
pub open spec fn after_events(breaker: Breaker, events: Seq<EventView>, times: Seq<u64>) -> Breaker
    decreases events.len(),
{
    if events.len() == 0 {
        breaker
    } else {
        next_breaker(
            after_events(breaker, events.drop_last(), times),
            times[events.len() - 1],
            events.last(),
        )
    }
}

/// As long as nothing times out, an upstream that has not been skipped is not going to
/// be: every lookup begins by asking for a permit, and with one the upstream is asked.
pub proof fn law_answers_never_open_the_breaker(
    breaker: Breaker,
    events: Seq<EventView>,
    times: Seq<u64>,
    qname: NameView,
    now: u64,
)
    requires
        breaker.open_until is None,
        forall|i: int| 0 <= i < events.len() ==> !(#[trigger] events[i] is TimedOut),
    ensures
        after_events(breaker, events, times).open_until is None,
        after_events(breaker, events, times).consecutive_failures <= breaker.consecutive_failures,
        next_action(after_events(breaker, events, times), qname, now, EventView::Start)
            == ActionView::Acquire,
    decreases events.len(),
{
    if events.len() > 0 {
        assert forall|i: int| 0 <= i < events.drop_last().len() implies !(
        #[trigger] events.drop_last()[i] is TimedOut) by {
            assert(!(events[i] is TimedOut));
        }
        assert(!(events[events.len() - 1] is TimedOut));
        law_answers_never_open_the_breaker(breaker, events.drop_last(), times, qname, now);
    }
}

/// What a lookup does: it asks for a permit unless the breaker's cooldown lasts; with a
/// permit it asks the upstream, without one it ends empty-handed; and what the upstream
/// answers ends it, with nothing in all cases but an answer with records.
pub proof fn law_course_of_a_lookup(
    breaker: Breaker,
    qname: NameView,
    now: u64,
    records: Seq<RecordView>,
    asked: NameView,
)
    requires
        asked_name(qname) == Some(asked),
    ensures
        next_action(breaker, qname, now, EventView::Start) == (if breaker.open_until is Some && now
            < breaker.open_until->0 {
            ActionView::Done(Seq::empty())
        } else {
            ActionView::Acquire
        }),
        next_action(breaker, qname, now, EventView::Permit(true)) == ActionView::Ask(asked),
        next_action(breaker, qname, now, EventView::Permit(false)) == ActionView::Done(
            Seq::empty(),
        ),
        next_action(breaker, qname, now, EventView::Found(records)) == ActionView::Done(
            relayed(qname, asked, records),
        ),
        next_action(breaker, qname, now, EventView::NotFound) == ActionView::Done(Seq::empty()),
        next_action(breaker, qname, now, EventView::TimedOut) == ActionView::Done(Seq::empty()),
{
}

/// The upstream is asked for the name with one more label, `upstream`, behind it; only
/// where that is no name is it not asked.
pub proof fn law_upstream_is_asked_for_the_name_below_upstream(qname: NameView)
    ensures
        match asked_name(qname) {
            Some(asked) => {
                &&& asked.fqdn == qname.fqdn
                &&& asked.labels.len() == qname.labels.len() + 1
                &&& asked.labels.drop_last() == qname.labels
                &&& text::ascii(asked.labels.last()) == "upstream"@
            },
            None => !crate::name::labels_fit(qname.labels.push(text::utf8("upstream"@))),
        },
{
    let labels = qname.labels.push(upstream_label());
    assert(labels.drop_last() =~= qname.labels);
    reveal_strlit("upstream");
    assert(text::ascii(upstream_label()) =~= "upstream"@);
    text::lemma_ascii_bytes(upstream_label());
}

/// Every record of an upstream's answer counts, in order: it is relayed exactly if it
/// is a PTR of class IN, owned by the name that was asked for, and fewer than eight
/// were relayed before it. What is relayed is owned by the client's name, keeps its
/// target, and has its TTL brought between 30 and 3600.
pub proof fn law_every_fitting_record_is_relayed(
    qname: NameView,
    up_qname: NameView,
    answers: Seq<RecordView>,
    record: RecordView,
)
    ensures
        relayed(qname, up_qname, Seq::empty()) == Seq::<RecordView>::empty(),
        relayed(qname, up_qname, answers.push(record)) == (if record.dns_class == DNSClass::IN
            && record.data is PTR && record.name.fqdn == up_qname.fqdn && record.name.labels.len()
            == up_qname.labels.len() && crate::name::ends_in(record.name.labels, up_qname.labels)
            && relayed(qname, up_qname, answers).len() < 8 {
            relayed(qname, up_qname, answers).push(
                RecordView {
                    name: qname,
                    ttl: if record.ttl < 30 {
                        30
                    } else if record.ttl > 3600 {
                        3600
                    } else {
                        record.ttl
                    },
                    dns_class: DNSClass::IN,
                    data: record.data,
                },
            )
        } else {
            relayed(qname, up_qname, answers)
        }),
{
    reveal(Seq::filter);
    assert(relayed(qname, up_qname, Seq::empty()) =~= Seq::empty());
    lemma_relayed_push(qname, up_qname, answers, record);
    crate::name::law_equal_names_have_equal_labels(record.name, up_qname);
}

} // verus!
