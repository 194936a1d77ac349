//! Tracker announce scheduling.
//!
//! Trackers are tried in order; one that fails falls through to the next and
//! backs off quadratically, one that succeeds moves to the front and is asked
//! again after its (bounded) interval. Lifecycle transitions (completed,
//! endpoint correction, stopped) preempt periodic work, and stopped is only
//! sent to trackers that acknowledged a start. All times are milliseconds.
use vstd::prelude::*;
use vstd::string::StringSliceAdditionalSpecFns;
use vstd::string::StringExecFns;
use vstd::utf8::{encode_utf8, is_char_boundary};

verus! {

/// Parts per hundred of the retry minimum added per squared failure.
pub const TRACKER_BACKOFF_RATIO: u64 = 250;

/// Shortest retry delay, in seconds.
pub const TRACKER_RETRY_MIN_SECS: u64 = 5;

/// Longest retry delay, in seconds.
pub const TRACKER_RETRY_MAX_SECS: u64 = 3_600;

/// Shortest announce interval, in milliseconds.
pub const TRACKER_ANNOUNCE_MIN: u64 = 300_000;

/// Longest announce interval, in milliseconds.
pub const TRACKER_ANNOUNCE_MAX: u64 = 86_400_000;

/// Consecutive failures are counted up to this many.
pub const MAX_TRACKER_FAILURES: u8 = 127;

/// Longest kept tracker error, in bytes.
pub const MAX_TRACKER_ERROR_LENGTH: usize = 256;

/// Longest retry delay, in milliseconds.
pub const TRACKER_RETRY_MAX: u64 = 3_600_000;

/// A parsed URL, with what the tracker logic reads of it.
#[verifier::external_type_specification]
#[verifier::external_body]
pub struct ExUrl(url::Url);

/// Whether `url::Url::parse` accepts the text.
pub uninterp spec fn url_accepts(text: Seq<char>) -> bool;

/// Whether the URL that `url::Url::parse` makes of the text has a host.
pub uninterp spec fn url_has_host(text: Seq<char>) -> bool;

/// Whether the URL that `url::Url::parse` makes of the text has a fragment.
pub uninterp spec fn url_has_fragment(text: Seq<char>) -> bool;

/// The scheme of the URL that `url::Url::parse` makes of the text.
pub uninterp spec fn url_scheme(text: Seq<char>) -> Seq<char>;

/// A URL and the parts of it that decide whether it names an HTTP tracker.
#[derive(Debug)]
pub struct ParsedUrl {
    pub target: url::Url,
    pub has_host: bool,
    pub has_fragment: bool,
    pub scheme: String,
}

/// Calls `url::Url::parse` on `value` and, when it succeeds, reads the
/// parsed URL's `host`, `fragment` and `scheme`. The contract claims that
/// the outcome and each part depend on the text alone; what they are is not
/// stated.
#[verifier::external_body]
fn parse_url(value: &str) -> (parsed: Option<ParsedUrl>)
    ensures
        parsed is Some <==> url_accepts(value@),
        parsed matches Some(p) ==> p.has_host == url_has_host(value@) && p.has_fragment
            == url_has_fragment(value@) && p.scheme@ == url_scheme(value@),
{
    match url::Url::parse(value) {
        Ok(target) => {
            let has_host = target.host().is_some();
            let has_fragment = target.fragment().is_some();
            let scheme = target.scheme().to_owned();
            Some(ParsedUrl { target, has_host, has_fragment, scheme })
        },
        Err(_) => None,
    }
}

/// `Clone` of `url::Url`, which copies the URL's serialization and its
/// component offsets, so the copy equals its source.
pub assume_specification[ <url::Url as Clone>::clone ](target: &url::Url) -> (copy: url::Url)
    ensures
        copy == *target,
;

/// Where a tracker came from.
#[derive(Clone, Copy, Debug, PartialEq, Eq, Structural)]
pub enum TrackerSource {
    Magnet,
    Metainfo,
}

/// How a tracker is reached.
#[derive(Clone, Copy, Debug, PartialEq, Eq, Structural)]
pub enum TrackerTransport {
    Udp,
    Http,
    Https,
}

/// A UDP tracker address.
#[derive(Debug, PartialEq, Eq)]
pub struct UdpTrackerUrl {
    pub host: String,
    pub port: u16,
}

impl Clone for UdpTrackerUrl {
    fn clone(&self) -> (copy: Self)
        ensures
            copy == *self,
    {
        UdpTrackerUrl { host: self.host.clone(), port: self.port }
    }
}

/// The event an announce carries on the wire.
#[derive(Clone, Copy, Debug, PartialEq, Eq, Structural)]
pub enum AnnounceEvent {
    /// A regular announce with no event.
    NoEvent,
    Completed,
    Started,
    Stopped,
}

/// Where announces for one tracker go.
#[derive(Debug, PartialEq, Eq)]
pub enum TrackerEndpoint {
    Udp(UdpTrackerUrl),
    Http { target: url::Url, transport: TrackerTransport },
}

impl Clone for TrackerEndpoint {
    fn clone(&self) -> (copy: Self)
        ensures
            copy == *self,
    {
        match self {
            TrackerEndpoint::Udp(address) => TrackerEndpoint::Udp(address.clone()),
            TrackerEndpoint::Http { target, transport } => TrackerEndpoint::Http {
                target: target.clone(),
                transport: *transport,
            },
        }
    }
}

/// Whether a scheme names plain HTTP.
pub open spec fn is_http(scheme: Seq<char>) -> bool {
    scheme == "http"@
}

/// Whether a scheme names HTTPS.
pub open spec fn is_https(scheme: Seq<char>) -> bool {
    scheme == "https"@
}

impl TrackerEndpoint {
    /// An HTTP or HTTPS tracker: the text must parse as a URL with a host,
    /// no fragment and one of the two schemes.
    pub fn from_http_url(value: &str) -> (endpoint: Option<Self>)
        ensures
            endpoint is Some <==> url_accepts(value@) && url_has_host(value@) && !url_has_fragment(
                value@,
            ) && (is_http(url_scheme(value@)) || is_https(url_scheme(value@))),
            endpoint matches Some(e) ==> e matches TrackerEndpoint::Http { transport, .. } && (
            transport == if is_http(url_scheme(value@)) {
                TrackerTransport::Http
            } else {
                TrackerTransport::Https
            }),
    {
        let parsed = match parse_url(value) {
            Some(parsed) => parsed,
            None => {
                return None;
            },
        };
        if !parsed.has_host || parsed.has_fragment {
            return None;
        }
        let http: String = "http".to_owned();
        let https: String = "https".to_owned();
        proof {
            reveal_strlit("http");
            reveal_strlit("https");
        }
        let transport = if parsed.scheme == http {
            TrackerTransport::Http
        } else if parsed.scheme == https {
            TrackerTransport::Https
        } else {
            return None;
        };
        Some(TrackerEndpoint::Http { target: parsed.target, transport })
    }

    /// The transport the endpoint uses.
    pub fn transport(&self) -> (transport: TrackerTransport)
        ensures
            transport == match self {
                TrackerEndpoint::Udp(_) => TrackerTransport::Udp,
                TrackerEndpoint::Http { transport, .. } => *transport,
            },
    {
        match self {
            TrackerEndpoint::Udp(_) => TrackerTransport::Udp,
            TrackerEndpoint::Http { transport, .. } => *transport,
        }
    }
}

/// The retry delay after `failures` consecutive failures, in seconds:
/// five seconds plus 12.5 seconds per squared failure, at most an hour.
pub open spec fn failure_delay_secs(failures: u8) -> int {
    let f = failures as int;
    let grown = 5 + (5 * 250 * f * f) / 100;
    if grown > 3_600 {
        3_600
    } else {
        grown
    }
}

/// The retry delay after `failures` consecutive failures, in milliseconds.
pub fn tracker_failure_delay(failures: u8) -> (delay: u64)
    ensures
        delay == failure_delay_secs(failures) * 1_000,
{
    let f = failures as u64;
    proof {
        assert(f * f <= 255 * 255) by (nonlinear_arith)
            requires
                f <= 255,
        ;
    }
    let squared = f * f;
    let grown = TRACKER_RETRY_MIN_SECS + TRACKER_RETRY_MIN_SECS * TRACKER_BACKOFF_RATIO * squared / 100;
    assert(TRACKER_RETRY_MIN_SECS * TRACKER_BACKOFF_RATIO * squared == 5 * 250 * (f as int) * (f as int))
        by (nonlinear_arith)
        requires
            squared == f * f,
    ;
    let secs = if grown > TRACKER_RETRY_MAX_SECS {
        TRACKER_RETRY_MAX_SECS
    } else {
        grown
    };
    secs * 1_000
}

/// The largest character boundary of `bytes` at or below `limit`.
pub open spec fn boundary_below(bytes: Seq<u8>, limit: int) -> int
    decreases limit,
{
    if limit <= 0 {
        0
    } else if is_char_boundary(bytes, limit) {
        limit
    } else {
        boundary_below(bytes, limit - 1)
    }
}

/// The bytes of a tracker error that are kept: the longest run of whole
/// characters from the start that fits in 256 bytes.
pub open spec fn bounded_error_bytes(detail: Seq<char>) -> Seq<u8> {
    let bytes = encode_utf8(detail);
    let length = (bytes.len() as usize) as int;
    let limit = if length < MAX_TRACKER_ERROR_LENGTH {
        length
    } else {
        MAX_TRACKER_ERROR_LENGTH as int
    };
    bytes.subrange(0, boundary_below(bytes, limit))
}

/// The first 256 bytes of `detail` or fewer, cut at a character boundary.
pub fn bounded_tracker_error(detail: &str) -> (bounded: String)
    ensures
        encode_utf8(bounded@) == bounded_error_bytes(detail@),
{
    let ghost bytes = encode_utf8(detail@);
    proof {
        vstd::utf8::encode_utf8_valid_utf8(detail@);
    }
    let length = detail.len();
    let limit = if length < MAX_TRACKER_ERROR_LENGTH {
        length
    } else {
        MAX_TRACKER_ERROR_LENGTH
    };
    let mut end = limit;
    while end > 0 && !detail.is_char_boundary(end)
        invariant
            end <= limit,
            boundary_below(bytes, limit as int) == boundary_below(bytes, end as int),
            bytes == detail.spec_bytes(),
        decreases end,
    {
        end -= 1;
    }
    assert(end == boundary_below(bytes, end as int));
    let (head, _) = detail.split_at(end);
    let kept: String = head.to_owned();
    assert(encode_utf8(kept@) == head.spec_bytes());
    kept
}

/// Identifies a tracker within one schedule.
#[derive(Clone, Copy, Debug, PartialEq, Eq, PartialOrd, Ord, Structural)]
pub struct TrackerId(pub u32);

/// What a tracker is doing, as a snapshot reports it.
#[derive(Clone, Copy, Debug, PartialEq, Eq, Structural)]
pub enum TrackerRuntimeStatus {
    Inactive,
    Idle,
    Announcing,
    RetryWait,
    ReannounceWait,
}

/// What a tracker does next, as a snapshot reports it.
#[derive(Clone, Copy, Debug, PartialEq, Eq, Structural)]
pub enum TrackerNextAction {
    Announce,
    Retry,
    Reannounce,
}

/// The event of an announce in flight, as a snapshot reports it.
#[derive(Clone, Copy, Debug, PartialEq, Eq, Structural)]
pub enum TrackerAnnounceEvent {
    Started,
    Update,
    Completed,
    Stopped,
}

/// A lifecycle announce that preempts periodic work.
#[derive(Clone, Copy, Debug, PartialEq, Eq, Structural)]
pub enum TrackerPriorityEvent {
    Update,
    Completed,
    Stopped,
}

impl TrackerPriorityEvent {
    pub open spec fn wire(self) -> AnnounceEvent {
        match self {
            TrackerPriorityEvent::Update => AnnounceEvent::NoEvent,
            TrackerPriorityEvent::Completed => AnnounceEvent::Completed,
            TrackerPriorityEvent::Stopped => AnnounceEvent::Stopped,
        }
    }

    /// The wire event the lifecycle announce carries.
    pub fn wire_event(self) -> (event: AnnounceEvent)
        ensures
            event == self.wire(),
    {
        match self {
            TrackerPriorityEvent::Update => AnnounceEvent::NoEvent,
            TrackerPriorityEvent::Completed => AnnounceEvent::Completed,
            TrackerPriorityEvent::Stopped => AnnounceEvent::Stopped,
        }
    }
}

/// Why the schedule waits.
#[derive(Clone, Copy, Debug, PartialEq, Eq, Structural)]
pub enum TrackerWaitKind {
    FailureRetry,
    Reannounce,
}

/// One configured tracker.
#[derive(Debug)]
pub struct TrackerConfig {
    pub url: String,
    pub endpoint: TrackerEndpoint,
    pub tier: u32,
    pub position: u32,
    pub source: TrackerSource,
}

/// One tracker's schedule state.
#[derive(Debug)]
pub struct TrackerRecord {
    pub id: TrackerId,
    pub endpoint: TrackerEndpoint,
    pub display_url: String,
    pub tier: u32,
    pub position: u32,
    pub source: TrackerSource,
    pub failures: u8,
    pub total_attempts: u32,
    pub start_acknowledged: bool,
    pub pending_event: Option<TrackerPriorityEvent>,
    pub inflight_event: Option<AnnounceEvent>,
    pub stopped: bool,
    pub updating: bool,
    pub last_success: Option<u64>,
    pub last_failure: Option<u64>,
    pub next_announce: u64,
    pub interval: Option<u64>,
    pub last_peer_count: Option<u32>,
    pub seeders: Option<u32>,
    pub leechers: Option<u32>,
    pub last_error: Option<String>,
}

/// What the schedule asks its caller to do.
#[derive(Debug, PartialEq, Eq)]
pub enum TrackerAction {
    Announce {
        id: TrackerId,
        url: String,
        endpoint: TrackerEndpoint,
        tier: u32,
        source: TrackerSource,
        event: AnnounceEvent,
        attempt: u32,
        fallback: bool,
    },
    Wait { delay: u64, url: String, endpoint: TrackerEndpoint, kind: TrackerWaitKind },
    Pending,
    Exhausted,
}

/// A failed announce's outcome.
#[derive(Clone, Copy, Debug, PartialEq, Eq, Structural)]
pub struct TrackerFailure {
    pub failures: u8,
    /// Milliseconds.
    pub retry_in: u64,
}

/// A successful announce's outcome.
#[derive(Clone, Copy, Debug, PartialEq, Eq, Structural)]
pub struct TrackerSuccess {
    /// Milliseconds.
    pub interval: u64,
}

/// The abstract state of a schedule.
pub struct ScheduleView {
    pub records: Seq<TrackerRecord>,
    pub attempted: Seq<TrackerId>,
    pub round_not_before: u64,
    pub round_tracker: Option<TrackerId>,
    pub round_wait_kind: Option<TrackerWaitKind>,
    pub stopping: bool,
}

/// The trackers of one torrent and where the current round stands.
#[derive(Debug)]
pub struct TrackerSchedule {
    records: Vec<TrackerRecord>,
    attempted: Vec<TrackerId>,
    round_not_before: u64,
    round_tracker: Option<TrackerId>,
    round_wait_kind: Option<TrackerWaitKind>,
    stopping: bool,
}

impl View for TrackerSchedule {
    type V = ScheduleView;

    closed spec fn view(&self) -> ScheduleView {
        ScheduleView {
            records: self.records@,
            attempted: self.attempted@,
            round_not_before: self.round_not_before,
            round_tracker: self.round_tracker,
            round_wait_kind: self.round_wait_kind,
            stopping: self.stopping,
        }
    }
}

/// The first index in `[from, n)` that satisfies `pred`.
pub open spec fn first_index(n: int, pred: spec_fn(int) -> bool, from: int) -> Option<int>
    decreases n - from,
{
    if from < 0 || from >= n {
        None
    } else if pred(from) {
        Some(from)
    } else {
        first_index(n, pred, from + 1)
    }
}

/// Among the first `n` records that satisfy `pred`, the first one with the
/// earliest next announce.
pub open spec fn earliest(records: Seq<TrackerRecord>, pred: spec_fn(int) -> bool, n: int) -> Option<int>
    decreases n,
{
    if n <= 0 {
        None
    } else {
        let best = earliest(records, pred, n - 1);
        if !pred(n - 1) {
            best
        } else {
            match best {
                None => Some(n - 1),
                Some(b) => if records[n - 1].next_announce < records[b].next_announce {
                    Some(n - 1)
                } else {
                    Some(b)
                },
            }
        }
    }
}

/// Every record qualifies.
pub open spec fn every_record() -> spec_fn(int) -> bool {
    |i: int| true
}

/// A position as a `usize`.
pub open spec fn as_position(index: Option<int>) -> Option<usize> {
    match index {
        Some(i) => Some(i as usize),
        None => None,
    }
}

/// `value + 1`, held at `u32::MAX`.
pub open spec fn saturating_inc(value: u32) -> u32 {
    if value == u32::MAX {
        u32::MAX
    } else {
        (value + 1) as u32
    }
}

impl ScheduleView {
    /// Record ids are distinct, the attempted set has no repeats, and a
    /// scheduled round wait names an installed tracker and its reason.
    pub open spec fn wf(&self) -> bool {
        &&& forall|i: int, j: int|
            #![trigger self.records[i], self.records[j]]
            0 <= i < j < self.records.len() ==> self.records[i].id != self.records[j].id
        &&& self.attempted.no_duplicates()
        &&& self.round_not_before > 0 ==> self.round_tracker is Some && self.round_wait_kind is Some
        &&& self.round_tracker matches Some(t) ==> exists|i: int|
            0 <= i < self.records.len() && #[trigger] self.records[i].id == t
    }

    /// Record `i` has `id`.
    pub open spec fn has_id(&self, id: TrackerId) -> spec_fn(int) -> bool {
        |i: int| self.records[i].id == id
    }

    /// Position of the record with `id`.
    pub open spec fn position(&self, id: TrackerId) -> Option<int> {
        first_index(self.records.len() as int, self.has_id(id), 0)
    }

    /// A lifecycle announce is due on record `i` and not tried this round.
    pub open spec fn priority_ready(&self) -> spec_fn(int) -> bool {
        |i: int|
            !self.records[i].updating && !self.records[i].stopped && self.records[i].pending_event
                is Some && !self.attempted.contains(self.records[i].id)
    }

    /// Record `i` is due at `now` and not tried this round.
    pub open spec fn due(&self, now: u64) -> spec_fn(int) -> bool {
        |i: int| !self.attempted.contains(self.records[i].id) && self.records[i].next_announce <= now
    }

    /// Record `i` is not tried this round.
    pub open spec fn untried(&self) -> spec_fn(int) -> bool {
        |i: int| !self.attempted.contains(self.records[i].id)
    }

    pub open spec fn any_updating(&self) -> bool {
        exists|i: int| 0 <= i < self.records.len() && #[trigger] self.records[i].updating
    }

    /// Record `i` announces `event`: its attempt count grows, it is in
    /// flight, and it joins this round's attempted set.
    pub open spec fn announce(&self, i: int, event: AnnounceEvent) -> (TrackerAction, ScheduleView) {
        let r = self.records[i];
        let attempt = saturating_inc(r.total_attempts);
        (
            TrackerAction::Announce {
                id: r.id,
                url: r.display_url,
                endpoint: r.endpoint,
                tier: r.tier,
                source: r.source,
                event,
                attempt,
                fallback: self.attempted.len() > 0,
            },
            ScheduleView {
                records: self.records.update(
                    i,
                    TrackerRecord {
                        total_attempts: attempt,
                        updating: true,
                        inflight_event: Some(event),
                        ..r
                    },
                ),
                attempted: self.attempted.push(r.id),
                ..*self
            },
        )
    }

    /// One pass of the decision, or `None` when every tracker was tried this
    /// round and none is in flight.
    pub open spec fn pass(&self, now: u64) -> Option<(TrackerAction, ScheduleView)> {
        let n = self.records.len() as int;
        if n == 0 {
            Some((TrackerAction::Exhausted, *self))
        } else if let Some(i) = first_index(n, self.priority_ready(), 0) {
            Some(self.announce(i, self.records[i].pending_event.unwrap().wire()))
        } else if self.stopping {
            Some((if self.any_updating() { TrackerAction::Pending } else { TrackerAction::Exhausted }, *self))
        } else if now < self.round_not_before {
            let t = self.position(self.round_tracker.unwrap()).unwrap();
            Some((
                TrackerAction::Wait {
                    delay: (self.round_not_before - now) as u64,
                    url: self.records[t].display_url,
                    endpoint: self.records[t].endpoint,
                    kind: self.round_wait_kind.unwrap(),
                },
                *self,
            ))
        } else if let Some(i) = first_index(n, self.due(now), 0) {
            Some(self.announce(i, if self.records[i].start_acknowledged {
                AnnounceEvent::NoEvent
            } else {
                AnnounceEvent::Started
            }))
        } else if self.any_updating() {
            Some((TrackerAction::Pending, *self))
        } else if let Some(i) = earliest(self.records, self.untried(), n) {
            Some((
                TrackerAction::Wait {
                    delay: if self.records[i].next_announce > now {
                        (self.records[i].next_announce - now) as u64
                    } else {
                        0
                    },
                    url: self.records[i].display_url,
                    endpoint: self.records[i].endpoint,
                    kind: TrackerWaitKind::FailureRetry,
                },
                *self,
            ))
        } else {
            None
        }
    }

    /// A new round that waits for the earliest tracker.
    pub open spec fn new_round(&self) -> ScheduleView {
        let e = earliest(self.records, every_record(), self.records.len() as int).unwrap();
        ScheduleView {
            attempted: Seq::empty(),
            round_not_before: self.records[e].next_announce,
            round_tracker: Some(self.records[e].id),
            round_wait_kind: Some(TrackerWaitKind::FailureRetry),
            ..*self
        }
    }

    /// What `next_action` does: one pass, or a new round and a second pass.
    pub open spec fn next(&self, now: u64) -> (TrackerAction, ScheduleView) {
        match self.pass(now) {
            Some(outcome) => outcome,
            None => self.new_round().pass(now).unwrap(),
        }
    }
}

/// A first match at `found`, with none before it from `from` on.
proof fn lemma_first_index_at(n: int, pred: spec_fn(int) -> bool, from: int, found: int)
    requires
        0 <= from <= found < n,
        pred(found),
        forall|k: int| from <= k < found ==> !#[trigger] pred(k),
    ensures
        first_index(n, pred, from) == Some(found),
    decreases found - from,
{
    if from < found {
        lemma_first_index_at(n, pred, from + 1, found);
    }
}

/// No match from `from` on.
proof fn lemma_first_index_none(n: int, pred: spec_fn(int) -> bool, from: int)
    requires
        0 <= from <= n,
        forall|k: int| from <= k < n ==> !#[trigger] pred(k),
    ensures
        first_index(n, pred, from) is None,
    decreases n - from,
{
    if from < n {
        lemma_first_index_none(n, pred, from + 1);
    }
}

/// A first match is in range and matches.
proof fn lemma_first_index_range(n: int, pred: spec_fn(int) -> bool, from: int)
    ensures
        first_index(n, pred, from) matches Some(i) ==> 0 <= from <= i < n && pred(i),
    decreases n - from,
{
    if 0 <= from < n {
        lemma_first_index_range(n, pred, from + 1);
    }
}

/// A witness means there is a first match.
proof fn lemma_first_index_some(n: int, pred: spec_fn(int) -> bool, from: int, witness: int)
    requires
        0 <= from <= witness < n,
        pred(witness),
    ensures
        first_index(n, pred, from) is Some,
    decreases witness - from,
{
    if from < witness && !pred(from) {
        lemma_first_index_some(n, pred, from + 1, witness);
    }
}

/// The earliest match is in range and matches.
proof fn lemma_earliest_range(records: Seq<TrackerRecord>, pred: spec_fn(int) -> bool, n: int)
    ensures
        earliest(records, pred, n) matches Some(i) ==> 0 <= i < n && pred(i),
    decreases n,
{
    if n > 0 {
        lemma_earliest_range(records, pred, n - 1);
    }
}

/// Some match means there is an earliest one.
proof fn lemma_earliest_some(records: Seq<TrackerRecord>, pred: spec_fn(int) -> bool, n: int, witness: int)
    requires
        0 <= witness < n,
        pred(witness),
    ensures
        earliest(records, pred, n) is Some,
    decreases n,
{
    if witness < n - 1 {
        lemma_earliest_some(records, pred, n - 1, witness);
    }
}

/// With distinct ids, the record at `i` is the one `position` names.
proof fn lemma_position(v: ScheduleView, i: int)
    requires
        v.wf(),
        0 <= i < v.records.len(),
    ensures
        v.position(v.records[i].id) == Some(i),
{
    let id = v.records[i].id;
    let pred = v.has_id(id);
    assert forall|k: int| 0 <= k < i implies !#[trigger] pred(k) by {
        assert(v.records[k].id != v.records[i].id);
    }
    lemma_first_index_at(v.records.len() as int, pred, 0, i);
}

/// Moving a record, with its id kept, to the front keeps ids distinct.
proof fn lemma_front_move_distinct(before: Seq<TrackerRecord>, p: int, moved: TrackerRecord)
    requires
        0 <= p < before.len(),
        moved.id == before[p].id,
        forall|i: int, j: int|
            #![trigger before[i], before[j]]
            0 <= i < j < before.len() ==> before[i].id != before[j].id,
    ensures
        ({
            let after = seq![moved] + before.remove(p);
            forall|a: int, b: int|
                #![trigger after[a], after[b]]
                0 <= a < b < after.len() ==> after[a].id != after[b].id
        }),
{
    let after = seq![moved] + before.remove(p);
    assert forall|a: int, b: int|
        #![trigger after[a], after[b]]
        0 <= a < b < after.len() implies after[a].id != after[b].id by {
        let ob = if b - 1 < p { b - 1 } else { b };
        assert(after[b] == before[ob]);
        if a == 0 {
            assert(before[ob].id != before[p].id);
        } else {
            let oa = if a - 1 < p { a - 1 } else { a };
            assert(after[a] == before[oa]);
            assert(before[oa].id != before[ob].id);
        }
    }
}

/// The decimal digit `d`.
pub open spec fn digit(d: nat) -> char {
    (48 + d) as char
}

/// The decimal digits of `n`, zero-padded on the left to at least `width`.
pub open spec fn padded_decimal(n: nat, width: nat) -> Seq<char>
    decreases n + width,
{
    if n < 10 && width <= 1 {
        seq![digit(n)]
    } else {
        padded_decimal(
            n / 10,
            if width > 0 {
                (width - 1) as nat
            } else {
                0
            },
        ) + seq![digit(n % 10)]
    }
}

/// A tracker's stable label, `tier:position`, each zero-padded to six
/// digits.
pub open spec fn tracker_id_label(tier: u32, position: u32) -> Seq<char> {
    padded_decimal(tier as nat, 6) + seq![':'] + padded_decimal(position as nat, 6)
}

/// The text of one decimal digit.
fn digit_text(d: u32) -> (text: &'static str)
    requires
        d < 10,
    ensures
        text@ == seq![digit(d as nat)],
{
    match d {
        1 => {
            proof {
                reveal_strlit("1");
            }
            "1"
        },
        2 => {
            proof {
                reveal_strlit("2");
            }
            "2"
        },
        3 => {
            proof {
                reveal_strlit("3");
            }
            "3"
        },
        4 => {
            proof {
                reveal_strlit("4");
            }
            "4"
        },
        5 => {
            proof {
                reveal_strlit("5");
            }
            "5"
        },
        6 => {
            proof {
                reveal_strlit("6");
            }
            "6"
        },
        7 => {
            proof {
                reveal_strlit("7");
            }
            "7"
        },
        8 => {
            proof {
                reveal_strlit("8");
            }
            "8"
        },
        9 => {
            proof {
                reveal_strlit("9");
            }
            "9"
        },
        _ => {
            proof {
                reveal_strlit("0");
            }
            "0"
        },
    }
}

/// Appends `n` in decimal, zero-padded on the left to at least `width`
/// digits.
fn append_padded(out: &mut String, n: u32, width: u32)
    ensures
        final(out)@ == old(out)@ + padded_decimal(n as nat, width as nat),
    decreases n + width,
{
    if n < 10 && width <= 1 {
        out.append(digit_text(n));
    } else {
        let narrower: u32 = if width > 0 {
            width - 1
        } else {
            0
        };
        append_padded(out, n / 10, narrower);
        out.append(digit_text(n % 10));
        assert(final(out)@ == old(out)@ + padded_decimal(n as nat, width as nat)) by {
            assert(padded_decimal(n as nat, width as nat) == padded_decimal((n / 10) as nat, narrower as nat) + seq![
                digit((n % 10) as nat),
            ]);
        }
    }
}

/// A tracker's label: both numbers in decimal, zero-padded to at least six
/// digits, joined by a colon.
fn tracker_label(tier: u32, position: u32) -> (label: String)
    ensures
        label@ == tracker_id_label(tier, position),
{
    let mut label = String::new();
    append_padded(&mut label, tier, 6);
    proof {
        reveal_strlit(":");
    }
    label.append(":");
    append_padded(&mut label, position, 6);
    assert(label@ =~= tracker_id_label(tier, position));
    label
}

/// A snapshot of one tracker.
#[derive(Clone, Debug, PartialEq, Eq)]
pub struct TrackerRuntimeRecordSnapshot {
    pub tracker_id: String,
    pub url: String,
    pub tier: u32,
    pub source: TrackerSource,
    pub transport: TrackerTransport,
    pub status: TrackerRuntimeStatus,
    pub announce_event: Option<TrackerAnnounceEvent>,
    pub total_attempts: u32,
    pub consecutive_failures: u8,
    pub last_peer_count: Option<u32>,
    pub seeders: Option<u32>,
    pub leechers: Option<u32>,
    /// Milliseconds.
    pub interval: Option<u64>,
    pub next_action: Option<TrackerNextAction>,
    /// Milliseconds.
    pub next_action_in: Option<u64>,
    /// Milliseconds.
    pub last_success_age: Option<u64>,
    /// Milliseconds.
    pub last_failure_age: Option<u64>,
    pub last_error: Option<String>,
}

/// A snapshot of every tracker.
#[derive(Clone, Debug, PartialEq, Eq)]
pub struct TrackerRuntimeSnapshot {
    /// Milliseconds.
    pub captured_at: u64,
    pub active: bool,
    pub records: Vec<TrackerRuntimeRecordSnapshot>,
}

/// `later - earlier`, or zero.
pub open spec fn age(later: u64, earlier: u64) -> u64 {
    if later > earlier {
        (later - earlier) as u64
    } else {
        0
    }
}

/// What a snapshot reports of record `r` at `now`.
pub open spec fn snapshot_of(s: TrackerRuntimeRecordSnapshot, r: TrackerRecord, now: u64, active: bool) -> bool {
    &&& s.tracker_id@ == tracker_id_label(r.tier, r.position)
    &&& s.url@ == r.display_url@
    &&& s.tier == r.tier
    &&& s.source == r.source
    &&& s.transport == match r.endpoint {
        TrackerEndpoint::Udp(_) => TrackerTransport::Udp,
        TrackerEndpoint::Http { transport, .. } => transport,
    }
    &&& (s.status, s.next_action, s.next_action_in) == if !active {
        (TrackerRuntimeStatus::Inactive, None, None)
    } else if r.updating {
        (TrackerRuntimeStatus::Announcing, None, None)
    } else if r.next_announce > now {
        if r.failures != 0 {
            (TrackerRuntimeStatus::RetryWait, Some(TrackerNextAction::Retry), Some(age(r.next_announce, now)))
        } else {
            (TrackerRuntimeStatus::ReannounceWait, Some(TrackerNextAction::Reannounce), Some(age(r.next_announce, now)))
        }
    } else {
        (TrackerRuntimeStatus::Idle, Some(TrackerNextAction::Announce), Some(0u64))
    }
    &&& s.announce_event == if active && r.updating {
        Some(match r.inflight_event {
            Some(AnnounceEvent::Started) => TrackerAnnounceEvent::Started,
            Some(AnnounceEvent::Completed) => TrackerAnnounceEvent::Completed,
            Some(AnnounceEvent::Stopped) => TrackerAnnounceEvent::Stopped,
            _ => TrackerAnnounceEvent::Update,
        })
    } else {
        None
    }
    &&& s.total_attempts == r.total_attempts
    &&& s.consecutive_failures == r.failures
    &&& s.last_peer_count == r.last_peer_count
    &&& s.seeders == r.seeders
    &&& s.leechers == r.leechers
    &&& s.interval == r.interval
    &&& s.last_success_age == match r.last_success {
        Some(t) => Some(age(now, t)),
        None => None,
    }
    &&& s.last_failure_age == match r.last_failure {
        Some(t) => Some(age(now, t)),
        None => None,
    }
    &&& s.last_error == r.last_error
}

/// What a successful announce makes of record `r`.
pub open spec fn succeeded_record(
    r: TrackerRecord,
    now: u64,
    interval: u64,
    peer_count: u32,
    seeders: u32,
    leechers: u32,
    stopping: bool,
) -> TrackerRecord {
    let (start_acknowledged, pending_event, stopped) = match r.inflight_event {
        Some(AnnounceEvent::Started) => (
            true,
            if stopping {
                Some(TrackerPriorityEvent::Stopped)
            } else {
                r.pending_event
            },
            r.stopped,
        ),
        Some(AnnounceEvent::Stopped) => (false, None, true),
        Some(event) => (
            r.start_acknowledged,
            if r.pending_event matches Some(p) && p.wire() == event {
                None
            } else {
                r.pending_event
            },
            r.stopped,
        ),
        None => (r.start_acknowledged, r.pending_event, r.stopped),
    };
    TrackerRecord {
        updating: false,
        failures: 0,
        inflight_event: None,
        start_acknowledged,
        pending_event,
        stopped,
        last_success: Some(now),
        interval: Some(interval),
        last_peer_count: Some(peer_count),
        seeders: Some(seeders),
        leechers: Some(leechers),
        last_error: None,
        next_announce: if now + interval > u64::MAX {
            u64::MAX
        } else {
            (now + interval) as u64
        },
        ..r
    }
}

/// A successful announce that carried the wire event of the tracker's pending
/// lifecycle event (an update, completion or stop) settles it: the record is
/// left with no pending event, so the schedule does not announce it again, and
/// nothing is left in flight.
pub proof fn lemma_success_settles_carried_event(
    r: TrackerRecord,
    now: u64,
    interval: u64,
    peer_count: u32,
    seeders: u32,
    leechers: u32,
    stopping: bool,
)
    requires
        r.pending_event matches Some(p) && r.inflight_event == Some(p.wire()),
    ensures
        ({
            let s = succeeded_record(r, now, interval, peer_count, seeders, leechers, stopping);
            &&& s.pending_event is None
            &&& s.inflight_event is None
            &&& s.failures == 0
        }),
{
}

/// A successful `started` announce acknowledges the start and keeps any other
/// pending event (a stop when the session is stopping); a successful
/// `stopped` announce marks the tracker stopped with nothing pending; any
/// success records the reply and schedules the next announce `interval` later.
pub proof fn lemma_success_acknowledges_lifecycle(
    r: TrackerRecord,
    now: u64,
    interval: u64,
    peer_count: u32,
    seeders: u32,
    leechers: u32,
    stopping: bool,
)
    ensures
        ({
            let s = succeeded_record(r, now, interval, peer_count, seeders, leechers, stopping);
            &&& r.inflight_event == Some(AnnounceEvent::Started) ==> s.start_acknowledged && s.pending_event
                == (if stopping {
                Some(TrackerPriorityEvent::Stopped)
            } else {
                r.pending_event
            })
            &&& r.inflight_event == Some(AnnounceEvent::Stopped) ==> s.stopped && !s.start_acknowledged
                && s.pending_event is None
            &&& r.inflight_event is None ==> s.pending_event == r.pending_event
            &&& s.last_success == Some(now)
            &&& s.interval == Some(interval)
            &&& s.last_peer_count == Some(peer_count)
            &&& s.seeders == Some(seeders)
            &&& s.leechers == Some(leechers)
            &&& s.last_error is None
            &&& !s.updating
            &&& s.next_announce == (if now + interval > u64::MAX {
                u64::MAX as int
            } else {
                now + interval
            })
        }),
{
}

/// The announce interval a tracker asked for, bounded to five minutes and
/// a day, in milliseconds.
pub open spec fn bounded_interval(interval_seconds: u32) -> u64 {
    let asked = interval_seconds * 1_000;
    if asked < TRACKER_ANNOUNCE_MIN {
        TRACKER_ANNOUNCE_MIN
    } else if asked > TRACKER_ANNOUNCE_MAX {
        TRACKER_ANNOUNCE_MAX
    } else {
        asked as u64
    }
}

/// A lifecycle announce for a record that started or is starting.
pub open spec fn with_lifecycle(r: TrackerRecord, event: TrackerPriorityEvent) -> TrackerRecord {
    if !r.stopped && (r.start_acknowledged || r.inflight_event == Some(AnnounceEvent::Started)) {
        TrackerRecord { pending_event: Some(event), next_announce: 0, ..r }
    } else {
        r
    }
}

/// A stop for every record: stopped is due only where a start was
/// acknowledged.
pub open spec fn with_stop(r: TrackerRecord) -> TrackerRecord {
    TrackerRecord {
        pending_event: if r.start_acknowledged {
            Some(TrackerPriorityEvent::Stopped)
        } else {
            None
        },
        next_announce: 0,
        ..r
    }
}

/// The retry count after one more failure, held at 127.
pub open spec fn next_failures(failures: u8) -> u8 {
    if failures >= MAX_TRACKER_FAILURES {
        MAX_TRACKER_FAILURES
    } else {
        (failures + 1) as u8
    }
}

impl TrackerRecord {
    /// A fresh record for a configured tracker.
    pub fn new(id: TrackerId, config: TrackerConfig) -> (record: Self)
        ensures
            record.id == id,
            record.endpoint == config.endpoint,
            record.display_url == config.url,
            record.tier == config.tier,
            record.position == config.position,
            record.source == config.source,
            record.failures == 0,
            record.total_attempts == 0,
            !record.start_acknowledged,
            record.pending_event is None,
            record.inflight_event is None,
            !record.stopped,
            !record.updating,
            record.last_success is None,
            record.last_failure is None,
            record.next_announce == 0,
            record.interval is None,
            record.last_peer_count is None,
            record.seeders is None,
            record.leechers is None,
            record.last_error is None,
    {
        TrackerRecord {
            id,
            endpoint: config.endpoint,
            display_url: config.url,
            tier: config.tier,
            position: config.position,
            source: config.source,
            failures: 0,
            total_attempts: 0,
            start_acknowledged: false,
            pending_event: None,
            inflight_event: None,
            stopped: false,
            updating: false,
            last_success: None,
            last_failure: None,
            next_announce: 0,
            interval: None,
            last_peer_count: None,
            seeders: None,
            leechers: None,
            last_error: None,
        }
    }

    /// What a snapshot reports of this record at `now`.
    pub fn snapshot(&self, now: u64, active: bool) -> (s: TrackerRuntimeRecordSnapshot)
        ensures
            snapshot_of(s, *self, now, active),
    {
        let (status, next_action, next_action_in) = if !active {
            (TrackerRuntimeStatus::Inactive, None, None)
        } else if self.updating {
            (TrackerRuntimeStatus::Announcing, None, None)
        } else if self.next_announce > now {
            if self.failures != 0 {
                (TrackerRuntimeStatus::RetryWait, Some(TrackerNextAction::Retry), Some(self.next_announce - now))
            } else {
                (
                    TrackerRuntimeStatus::ReannounceWait,
                    Some(TrackerNextAction::Reannounce),
                    Some(self.next_announce - now),
                )
            }
        } else {
            (TrackerRuntimeStatus::Idle, Some(TrackerNextAction::Announce), Some(0u64))
        };
        let announce_event = if active && self.updating {
            Some(
                match self.inflight_event {
                    Some(AnnounceEvent::Started) => TrackerAnnounceEvent::Started,
                    Some(AnnounceEvent::Completed) => TrackerAnnounceEvent::Completed,
                    Some(AnnounceEvent::Stopped) => TrackerAnnounceEvent::Stopped,
                    _ => TrackerAnnounceEvent::Update,
                },
            )
        } else {
            None
        };
        let last_success_age = match self.last_success {
            Some(t) => Some(now.saturating_sub(t)),
            None => None,
        };
        let last_failure_age = match self.last_failure {
            Some(t) => Some(now.saturating_sub(t)),
            None => None,
        };
        let last_error = match &self.last_error {
            Some(text) => Some(text.clone()),
            None => None,
        };
        TrackerRuntimeRecordSnapshot {
            tracker_id: tracker_label(self.tier, self.position),
            url: self.display_url.clone(),
            tier: self.tier,
            source: self.source,
            transport: self.endpoint.transport(),
            status,
            announce_event,
            total_attempts: self.total_attempts,
            consecutive_failures: self.failures,
            last_peer_count: self.last_peer_count,
            seeders: self.seeders,
            leechers: self.leechers,
            interval: self.interval,
            next_action,
            next_action_in,
            last_success_age,
            last_failure_age,
            last_error,
        }
    }
}

impl TrackerSchedule {
    /// A schedule over the configured trackers, in order, with ids
    /// `0, 1, 2, ...`.
    pub fn from_configs(configs: Vec<TrackerConfig>) -> (schedule: Self)
        requires
            configs@.len() <= u32::MAX + 1,
        ensures
            schedule@.wf(),
            schedule@.records.len() == configs@.len(),
            forall|i: int|
                0 <= i < configs@.len() ==> {
                    let r = #[trigger] schedule@.records[i];
                    let c = configs@[i];
                    &&& r.id == TrackerId(i as u32)
                    &&& r.endpoint == c.endpoint && r.display_url == c.url && r.tier == c.tier
                    &&& r.position == c.position && r.source == c.source
                    &&& r.failures == 0 && r.total_attempts == 0 && !r.start_acknowledged
                    &&& r.pending_event is None && r.inflight_event is None && !r.stopped
                    &&& !r.updating && r.last_success is None && r.last_failure is None
                    &&& r.next_announce == 0 && r.interval is None && r.last_peer_count is None
                    &&& r.seeders is None && r.leechers is None && r.last_error is None
                },
            schedule@.attempted.len() == 0,
            schedule@.round_not_before == 0,
            schedule@.round_tracker is None,
            schedule@.round_wait_kind is None,
            !schedule@.stopping,
    {
        let total = configs.len();
        let ghost initial = configs@;
        let mut configs = configs;
        let mut records: Vec<TrackerRecord> = Vec::new();
        let mut index: usize = 0;
        while configs.len() > 0
            invariant
                initial.len() <= u32::MAX + 1,
                initial.len() == total,
                index == records@.len(),
                index + configs@.len() == initial.len(),
                configs@ == initial.subrange(index as int, initial.len() as int),
                forall|i: int|
                    0 <= i < index ==> {
                        let r = #[trigger] records@[i];
                        let c = initial[i];
                        &&& r.id == TrackerId(i as u32)
                        &&& r.endpoint == c.endpoint && r.display_url == c.url && r.tier == c.tier
                        &&& r.position == c.position && r.source == c.source
                        &&& r.failures == 0 && r.total_attempts == 0 && !r.start_acknowledged
                        &&& r.pending_event is None && r.inflight_event is None && !r.stopped
                        &&& !r.updating && r.last_success is None && r.last_failure is None
                        &&& r.next_announce == 0 && r.interval is None && r.last_peer_count is None
                        &&& r.seeders is None && r.leechers is None && r.last_error is None
                    },
            decreases configs@.len(),
        {
            let config = configs.remove(0);
            let record = TrackerRecord::new(TrackerId(index as u32), config);
            records.push(record);
            index += 1;
        }
        let schedule = TrackerSchedule {
            records,
            attempted: Vec::new(),
            round_not_before: 0,
            round_tracker: None,
            round_wait_kind: None,
            stopping: false,
        };
        proof {
            assert forall|i: int, j: int|
                #![trigger schedule@.records[i], schedule@.records[j]]
                0 <= i < j < schedule@.records.len() implies schedule@.records[i].id
                != schedule@.records[j].id by {
                assert(schedule@.records[i].id == TrackerId(i as u32));
                assert(schedule@.records[j].id == TrackerId(j as u32));
            }
        }
        schedule
    }

    fn reset_round(&mut self)
        requires
            old(self)@.wf(),
        ensures
            final(self)@ == (ScheduleView {
                attempted: Seq::empty(),
                round_not_before: 0,
                round_tracker: None,
                round_wait_kind: None,
                ..old(self)@
            }),
            final(self)@.wf(),
    {
        self.attempted.clear();
        self.round_not_before = 0;
        self.round_tracker = None;
        self.round_wait_kind = None;
    }

    /// Asks every started or starting tracker for `event` at once and
    /// begins a new round; nothing changes once stopping.
    fn request_lifecycle(&mut self, event: TrackerPriorityEvent)
        requires
            old(self)@.wf(),
        ensures
            final(self)@.wf(),
            old(self)@.stopping ==> final(self)@ == old(self)@,
            !old(self)@.stopping ==> final(self)@ == (ScheduleView {
                records: old(self)@.records.map_values(|r: TrackerRecord| with_lifecycle(r, event)),
                attempted: Seq::empty(),
                round_not_before: 0,
                round_tracker: None,
                round_wait_kind: None,
                ..old(self)@
            }),
    {
        if self.stopping {
            return;
        }
        let ghost before = self.records@;
        let mut i: usize = 0;
        while i < self.records.len()
            invariant
                old(self)@.wf(),
                !self.stopping,
                self.records@.len() == before.len(),
                before == old(self)@.records,
                i <= before.len(),
                forall|k: int| 0 <= k < i ==> #[trigger] self.records@[k] == with_lifecycle(before[k], event),
                forall|k: int| i <= k < before.len() ==> #[trigger] self.records@[k] == before[k],
                self.attempted@ == old(self)@.attempted,
                self.round_not_before == old(self)@.round_not_before,
                self.round_tracker == old(self)@.round_tracker,
                self.round_wait_kind == old(self)@.round_wait_kind,
            decreases before.len() - i,
        {
            let started = self.records[i].start_acknowledged || matches!(
                self.records[i].inflight_event,
                Some(AnnounceEvent::Started)
            );
            if !self.records[i].stopped && started {
                self.records[i].pending_event = Some(event);
                self.records[i].next_announce = 0;
            }
            i += 1;
        }
        self.attempted.clear();
        self.round_not_before = 0;
        self.round_tracker = None;
        self.round_wait_kind = None;
        proof {
            assert(self@.records =~= before.map_values(|r: TrackerRecord| with_lifecycle(r, event)));
        }
    }

    /// An endpoint correction for every started tracker.
    pub fn request_update(&mut self)
        requires
            old(self)@.wf(),
        ensures
            final(self)@.wf(),
            old(self)@.stopping ==> final(self)@ == old(self)@,
            !old(self)@.stopping ==> final(self)@ == (ScheduleView {
                records: old(self)@.records.map_values(
                    |r: TrackerRecord| with_lifecycle(r, TrackerPriorityEvent::Update),
                ),
                attempted: Seq::empty(),
                round_not_before: 0,
                round_tracker: None,
                round_wait_kind: None,
                ..old(self)@
            }),
    {
        self.request_lifecycle(TrackerPriorityEvent::Update);
    }

    /// A completion announce for every started tracker.
    pub fn request_completed(&mut self)
        requires
            old(self)@.wf(),
        ensures
            final(self)@.wf(),
            old(self)@.stopping ==> final(self)@ == old(self)@,
            !old(self)@.stopping ==> final(self)@ == (ScheduleView {
                records: old(self)@.records.map_values(
                    |r: TrackerRecord| with_lifecycle(r, TrackerPriorityEvent::Completed),
                ),
                attempted: Seq::empty(),
                round_not_before: 0,
                round_tracker: None,
                round_wait_kind: None,
                ..old(self)@
            }),
    {
        self.request_lifecycle(TrackerPriorityEvent::Completed);
    }

    /// Stops the schedule: a stopped announce is due at each tracker that
    /// acknowledged a start, and nothing else is.
    pub fn request_stop(&mut self)
        requires
            old(self)@.wf(),
        ensures
            final(self)@.wf(),
            final(self)@ == (ScheduleView {
                records: old(self)@.records.map_values(|r: TrackerRecord| with_stop(r)),
                attempted: Seq::empty(),
                round_not_before: 0,
                round_tracker: None,
                round_wait_kind: None,
                stopping: true,
                ..old(self)@
            }),
    {
        self.stopping = true;
        let ghost before = self.records@;
        let mut i: usize = 0;
        while i < self.records.len()
            invariant
                old(self)@.wf(),
                self.stopping,
                self.records@.len() == before.len(),
                before == old(self)@.records,
                i <= before.len(),
                forall|k: int| 0 <= k < i ==> #[trigger] self.records@[k] == with_stop(before[k]),
                forall|k: int| i <= k < before.len() ==> #[trigger] self.records@[k] == before[k],
            decreases before.len() - i,
        {
            self.records[i].pending_event = if self.records[i].start_acknowledged {
                Some(TrackerPriorityEvent::Stopped)
            } else {
                None
            };
            self.records[i].next_announce = 0;
            i += 1;
        }
        self.attempted.clear();
        self.round_not_before = 0;
        self.round_tracker = None;
        self.round_wait_kind = None;
        proof {
            assert(self@.records =~= before.map_values(|r: TrackerRecord| with_stop(r)));
        }
    }

    /// Stopping has finished: nothing is in flight and nothing is due.
    pub fn stop_complete(&self) -> (complete: bool)
        ensures
            complete <==> self@.stopping && forall|i: int|
                0 <= i < self@.records.len() ==> !(#[trigger] self@.records[i]).updating
                    && self@.records[i].pending_event is None,
    {
        if !self.stopping {
            return false;
        }
        let mut i: usize = 0;
        while i < self.records.len()
            invariant
                i <= self.records@.len(),
                forall|k: int|
                    0 <= k < i ==> !(#[trigger] self.records@[k]).updating
                        && self.records@[k].pending_event is None,
            decreases self.records@.len() - i,
        {
            if self.records[i].updating || self.records[i].pending_event.is_some() {
                return false;
            }
            i += 1;
        }
        true
    }

    /// The position of the tracker with `id`.
    fn find(&self, id: TrackerId) -> (position: Option<usize>)
        ensures
            match position {
                Some(p) => self@.position(id) == Some(p as int),
                None => self@.position(id) is None,
            },
    {
        let ghost pred = self@.has_id(id);
        let mut i: usize = 0;
        while i < self.records.len()
            invariant
                i <= self.records@.len(),
                pred == self@.has_id(id),
                forall|k: int| 0 <= k < i ==> !#[trigger] pred(k),
            decreases self.records@.len() - i,
        {
            if self.records[i].id == id {
                proof {
                    lemma_first_index_at(self@.records.len() as int, pred, 0, i as int);
                }
                return Some(i);
            }
            i += 1;
        }
        proof {
            lemma_first_index_none(self@.records.len() as int, pred, 0);
        }
        None
    }

    /// Whether `id` was tried this round.
    fn was_attempted(&self, id: TrackerId) -> (attempted: bool)
        ensures
            attempted == self@.attempted.contains(id),
    {
        let mut i: usize = 0;
        while i < self.attempted.len()
            invariant
                i <= self.attempted@.len(),
                forall|k: int| 0 <= k < i ==> #[trigger] self.attempted@[k] != id,
            decreases self.attempted@.len() - i,
        {
            if self.attempted[i] == id {
                return true;
            }
            i += 1;
        }
        false
    }

    fn any_updating(&self) -> (updating: bool)
        ensures
            updating == self@.any_updating(),
    {
        let mut i: usize = 0;
        while i < self.records.len()
            invariant
                i <= self.records@.len(),
                forall|k: int| 0 <= k < i ==> !(#[trigger] self.records@[k]).updating,
            decreases self.records@.len() - i,
        {
            if self.records[i].updating {
                return true;
            }
            i += 1;
        }
        false
    }

    /// The first record ready for a lifecycle announce.
    fn first_priority(&self) -> (found: Option<usize>)
        ensures
            match found {
                Some(i) => first_index(self@.records.len() as int, self@.priority_ready(), 0) == Some(
                    i as int,
                ),
                None => first_index(self@.records.len() as int, self@.priority_ready(), 0) is None,
            },
    {
        let ghost pred = self@.priority_ready();
        let mut i: usize = 0;
        while i < self.records.len()
            invariant
                i <= self.records@.len(),
                pred == self@.priority_ready(),
                forall|k: int| 0 <= k < i ==> !#[trigger] pred(k),
            decreases self.records@.len() - i,
        {
            let ready = !self.records[i].updating && !self.records[i].stopped
                && self.records[i].pending_event.is_some() && !self.was_attempted(self.records[i].id);
            if ready {
                proof {
                    lemma_first_index_at(self@.records.len() as int, pred, 0, i as int);
                }
                return Some(i);
            }
            i += 1;
        }
        proof {
            lemma_first_index_none(self@.records.len() as int, pred, 0);
        }
        None
    }

    /// The first record due at `now` and not tried this round.
    fn first_due(&self, now: u64) -> (found: Option<usize>)
        ensures
            match found {
                Some(i) => first_index(self@.records.len() as int, self@.due(now), 0) == Some(i as int),
                None => first_index(self@.records.len() as int, self@.due(now), 0) is None,
            },
    {
        let ghost pred = self@.due(now);
        let mut i: usize = 0;
        while i < self.records.len()
            invariant
                i <= self.records@.len(),
                pred == self@.due(now),
                forall|k: int| 0 <= k < i ==> !#[trigger] pred(k),
            decreases self.records@.len() - i,
        {
            if !self.was_attempted(self.records[i].id) && self.records[i].next_announce <= now {
                proof {
                    lemma_first_index_at(self@.records.len() as int, pred, 0, i as int);
                }
                return Some(i);
            }
            i += 1;
        }
        proof {
            lemma_first_index_none(self@.records.len() as int, pred, 0);
        }
        None
    }

    /// The earliest record, among those not tried this round when
    /// `untried_only`.
    fn earliest_record(&self, untried_only: bool) -> (found: Option<usize>)
        ensures
            untried_only ==> found == as_position(earliest(self@.records, self@.untried(), self@.records.len() as int)),
            !untried_only ==> found == as_position(earliest(self@.records, every_record(), self@.records.len() as int)),
            found matches Some(i) ==> i < self@.records.len(),
    {
        let ghost pred = if untried_only {
            self@.untried()
        } else {
            every_record()
        };
        let mut best: Option<usize> = None;
        let mut i: usize = 0;
        while i < self.records.len()
            invariant
                i <= self.records@.len(),
                pred == if untried_only {
                    self@.untried()
                } else {
                    every_record()
                },
                best == as_position(earliest(self@.records, pred, i as int)),
                best matches Some(b) ==> b < i,
            decreases self.records@.len() - i,
        {
            proof {
                lemma_earliest_range(self@.records, pred, i as int);
            }
            let eligible = !untried_only || !self.was_attempted(self.records[i].id);
            assert(eligible == pred(i as int));
            if eligible {
                best = match best {
                    None => Some(i),
                    Some(b) => if self.records[i].next_announce < self.records[b].next_announce {
                        Some(i)
                    } else {
                        Some(b)
                    },
                };
            }
            i += 1;
        }
        best
    }

    /// Record `i` announces `event`.
    fn announce_at(&mut self, i: usize, event: AnnounceEvent) -> (action: TrackerAction)
        requires
            old(self)@.wf(),
            i < old(self)@.records.len(),
            !old(self)@.attempted.contains(old(self)@.records[i as int].id),
        ensures
            (action, final(self)@) == old(self)@.announce(i as int, event),
            final(self)@.wf(),
    {
        let fallback = self.attempted.len() > 0;
        let attempt = self.records[i].total_attempts.saturating_add(1);
        self.records[i].total_attempts = attempt;
        self.records[i].updating = true;
        self.records[i].inflight_event = Some(event);
        let id = self.records[i].id;
        self.attempted.push(id);
        let action = TrackerAction::Announce {
            id,
            url: self.records[i].display_url.clone(),
            endpoint: self.records[i].endpoint.clone(),
            tier: self.records[i].tier,
            source: self.records[i].source,
            event,
            attempt,
            fallback,
        };
        proof {
            let (expected, view) = old(self)@.announce(i as int, event);
            assert(self@.records =~= view.records);
            assert(self@.attempted =~= view.attempted);
            assert forall|a: int, b: int|
                #![trigger self@.records[a], self@.records[b]]
                0 <= a < b < self@.records.len() implies self@.records[a].id != self@.records[b].id by {
                assert(old(self)@.records[a].id != old(self)@.records[b].id);
            }
            if let Some(t) = self.round_tracker {
                let w = choose|w: int| 0 <= w < old(self)@.records.len() && #[trigger] old(self)@.records[w].id == t;
                assert(self@.records[w].id == t);
            }
        }
        action
    }

    /// One pass of the decision.
    fn pass(&mut self, now: u64) -> (action: Option<TrackerAction>)
        requires
            old(self)@.wf(),
        ensures
            final(self)@.wf(),
            match old(self)@.pass(now) {
                Some((a, v)) => action == Some(a) && final(self)@ == v,
                None => action is None && final(self)@ == old(self)@,
            },
    {
        let n = self.records.len();
        if n == 0 {
            return Some(TrackerAction::Exhausted);
        }
        proof {
            lemma_first_index_range(n as int, self@.priority_ready(), 0);
            lemma_first_index_range(n as int, self@.due(now), 0);
        }
        if let Some(i) = self.first_priority() {
            let event = match self.records[i].pending_event {
                Some(pending) => pending.wire_event(),
                None => AnnounceEvent::NoEvent,
            };
            return Some(self.announce_at(i, event));
        }
        if self.stopping {
            return Some(if self.any_updating() {
                TrackerAction::Pending
            } else {
                TrackerAction::Exhausted
            });
        }
        if now < self.round_not_before {
            let tracker = match self.round_tracker {
                Some(t) => t,
                None => TrackerId(0),
            };
            proof {
                let w = choose|w: int| 0 <= w < self@.records.len() && #[trigger] self@.records[w].id == tracker;
                lemma_position(self@, w);
            }
            let t = match self.find(tracker) {
                Some(t) => t,
                None => 0,
            };
            let kind = match self.round_wait_kind {
                Some(kind) => kind,
                None => TrackerWaitKind::FailureRetry,
            };
            return Some(
                TrackerAction::Wait {
                    delay: self.round_not_before - now,
                    url: self.records[t].display_url.clone(),
                    endpoint: self.records[t].endpoint.clone(),
                    kind,
                },
            );
        }
        if let Some(i) = self.first_due(now) {
            let event = if self.records[i].start_acknowledged {
                AnnounceEvent::NoEvent
            } else {
                AnnounceEvent::Started
            };
            return Some(self.announce_at(i, event));
        }
        if self.any_updating() {
            return Some(TrackerAction::Pending);
        }
        match self.earliest_record(true) {
            Some(i) => {
                proof {
                    lemma_earliest_range(self@.records, self@.untried(), n as int);
                }
                Some(
                    TrackerAction::Wait {
                        delay: self.records[i].next_announce.saturating_sub(now),
                        url: self.records[i].display_url.clone(),
                        endpoint: self.records[i].endpoint.clone(),
                        kind: TrackerWaitKind::FailureRetry,
                    },
                )
            },
            None => None,
        }
    }

    /// What to do next at `now`: a lifecycle announce first, then, unless
    /// stopping, a scheduled wait, an announce of the next due tracker not
    /// yet tried this round (a fallback when one was), a wait for trackers
    /// in flight, or a wait for the earliest untried tracker. When every
    /// tracker was tried, a new round begins that waits for the earliest.
    pub fn next_action(&mut self, now: u64) -> (action: TrackerAction)
        requires
            old(self)@.wf(),
        ensures
            final(self)@.wf(),
            (action, final(self)@) == old(self)@.next(now),
    {
        if let Some(action) = self.pass(now) {
            return action;
        }
        let count = self.records.len();
        assert(count == self@.records.len());
        let earliest_index = match self.earliest_record(false) {
            Some(e) => e,
            None => 0,
        };
        proof {
            lemma_earliest_some(self@.records, every_record(), self@.records.len() as int, 0);
            lemma_earliest_range(self@.records, every_record(), self@.records.len() as int);
        }
        self.attempted.clear();
        self.round_not_before = self.records[earliest_index].next_announce;
        self.round_tracker = Some(self.records[earliest_index].id);
        self.round_wait_kind = Some(TrackerWaitKind::FailureRetry);
        proof {
            let e = earliest(old(self)@.records, every_record(), old(self)@.records.len() as int).unwrap();
            assert(self@.records == old(self)@.records);
            assert(earliest_index == e);
            assert(self@.attempted =~= Seq::<TrackerId>::empty());
            assert(self@.round_not_before == old(self)@.records[e].next_announce);
            assert(self@.stopping == old(self)@.stopping);
            assert(self@ == old(self)@.new_round());
            assert(self@.untried()(0));
            lemma_earliest_some(self@.records, self@.untried(), self@.records.len() as int, 0);
        }
        match self.pass(now) {
            Some(action) => action,
            None => TrackerAction::Exhausted,
        }
    }
}

impl TrackerSchedule {
    /// A failed announce of tracker `id`: it is no longer in flight, its
    /// failure count grows (up to 127), the error is kept (at most 256
    /// bytes), and it is retried after the backoff delay.
    pub fn failed(&mut self, id: TrackerId, now: u64, detail: &str) -> (failure: TrackerFailure)
        requires
            old(self)@.wf(),
            old(self)@.position(id) is Some,
        ensures
            final(self)@.wf(),
            ({
                let p = old(self)@.position(id).unwrap();
                let r = old(self)@.records[p];
                let failures = next_failures(r.failures);
                let retry_in = (failure_delay_secs(failures) * 1_000) as u64;
                &&& failure == TrackerFailure { failures, retry_in }
                &&& final(self)@ == (ScheduleView {
                    records: old(self)@.records.update(
                        p,
                        TrackerRecord {
                            updating: false,
                            inflight_event: None,
                            failures,
                            last_failure: Some(now),
                            last_error: final(self)@.records[p].last_error,
                            next_announce: if now + retry_in > u64::MAX {
                                u64::MAX
                            } else {
                                (now + retry_in) as u64
                            },
                            ..r
                        },
                    ),
                    ..old(self)@
                })
                &&& final(self)@.records[p].last_error matches Some(e) && encode_utf8(e@)
                    == bounded_error_bytes(detail@)
            }),
    {
        proof {
            lemma_first_index_range(self@.records.len() as int, self@.has_id(id), 0);
        }
        let p = match self.find(id) {
            Some(p) => p,
            None => 0,
        };
        let failures = if self.records[p].failures >= MAX_TRACKER_FAILURES {
            MAX_TRACKER_FAILURES
        } else {
            self.records[p].failures + 1
        };
        let retry_in = tracker_failure_delay(failures);
        let error = bounded_tracker_error(detail);
        self.records[p].updating = false;
        self.records[p].inflight_event = None;
        self.records[p].failures = failures;
        self.records[p].last_failure = Some(now);
        self.records[p].last_error = Some(error);
        self.records[p].next_announce = now.saturating_add(retry_in);
        proof {
            let r = old(self)@.records[p as int];
            assert(self@.records =~= old(self)@.records.update(
                p as int,
                TrackerRecord {
                    updating: false,
                    inflight_event: None,
                    failures,
                    last_failure: Some(now),
                    last_error: self@.records[p as int].last_error,
                    next_announce: if now + retry_in > u64::MAX {
                        u64::MAX
                    } else {
                        (now + retry_in) as u64
                    },
                    ..r
                },
            ));
            assert forall|a: int, b: int|
                #![trigger self@.records[a], self@.records[b]]
                0 <= a < b < self@.records.len() implies self@.records[a].id != self@.records[b].id by {
                assert(old(self)@.records[a].id != old(self)@.records[b].id);
            }
            if let Some(t) = self.round_tracker {
                let w = choose|w: int| 0 <= w < old(self)@.records.len() && #[trigger] old(self)@.records[w].id == t;
                assert(self@.records[w].id == t);
            }
        }
        TrackerFailure { failures, retry_in }
    }

    /// An announce of tracker `id` that was overtaken: it is no longer in
    /// flight, is due again at once (with an update where it had started,
    /// unless stopping), and a new round begins.
    pub fn supersede(&mut self, id: TrackerId)
        requires
            old(self)@.wf(),
            old(self)@.position(id) is Some,
        ensures
            final(self)@.wf(),
            ({
                let p = old(self)@.position(id).unwrap();
                let r = old(self)@.records[p];
                final(self)@ == (ScheduleView {
                    records: old(self)@.records.update(
                        p,
                        TrackerRecord {
                            updating: false,
                            inflight_event: None,
                            next_announce: 0,
                            pending_event: if r.start_acknowledged && !old(self)@.stopping {
                                Some(TrackerPriorityEvent::Update)
                            } else {
                                r.pending_event
                            },
                            ..r
                        },
                    ),
                    attempted: Seq::empty(),
                    round_not_before: 0,
                    round_tracker: None,
                    round_wait_kind: None,
                    ..old(self)@
                })
            }),
    {
        proof {
            lemma_first_index_range(self@.records.len() as int, self@.has_id(id), 0);
        }
        let p = match self.find(id) {
            Some(p) => p,
            None => 0,
        };
        let stopping = self.stopping;
        self.records[p].updating = false;
        self.records[p].inflight_event = None;
        self.records[p].next_announce = 0;
        if self.records[p].start_acknowledged && !stopping {
            self.records[p].pending_event = Some(TrackerPriorityEvent::Update);
        }
        self.attempted.clear();
        self.round_not_before = 0;
        self.round_tracker = None;
        self.round_wait_kind = None;
        proof {
            let r = old(self)@.records[p as int];
            assert(self@.attempted =~= Seq::<TrackerId>::empty());
            assert(self@.records =~= old(self)@.records.update(
                p as int,
                TrackerRecord {
                    updating: false,
                    inflight_event: None,
                    next_announce: 0,
                    pending_event: if r.start_acknowledged && !old(self)@.stopping {
                        Some(TrackerPriorityEvent::Update)
                    } else {
                        r.pending_event
                    },
                    ..r
                },
            ));
            assert forall|a: int, b: int|
                #![trigger self@.records[a], self@.records[b]]
                0 <= a < b < self@.records.len() implies self@.records[a].id != self@.records[b].id by {
                assert(old(self)@.records[a].id != old(self)@.records[b].id);
            }
        }
    }

    /// A successful announce of tracker `id`: its counters reset, the
    /// lifecycle event it carried is settled, the reply is recorded, the
    /// tracker moves to the front, and the next round waits the bounded
    /// interval.
    #[verifier::rlimit(40)]
    pub fn succeeded(
        &mut self,
        id: TrackerId,
        now: u64,
        interval_seconds: u32,
        peer_count: u32,
        seeders: u32,
        leechers: u32,
    ) -> (success: TrackerSuccess)
        requires
            old(self)@.wf(),
            old(self)@.position(id) is Some,
        ensures
            final(self)@.wf(),
            success.interval == bounded_interval(interval_seconds),
            ({
                let p = old(self)@.position(id).unwrap();
                let r = old(self)@.records[p];
                let interval = bounded_interval(interval_seconds);
                final(self)@ == (ScheduleView {
                    records: seq![
                        succeeded_record(
                            r,
                            now,
                            interval,
                            peer_count,
                            seeders,
                            leechers,
                            old(self)@.stopping,
                        ),
                    ] + old(self)@.records.remove(p),
                    attempted: Seq::empty(),
                    round_not_before: if now + interval > u64::MAX {
                        u64::MAX
                    } else {
                        (now + interval) as u64
                    },
                    round_tracker: Some(id),
                    round_wait_kind: Some(TrackerWaitKind::Reannounce),
                    ..old(self)@
                })
            }),
    {
        proof {
            lemma_first_index_range(self@.records.len() as int, self@.has_id(id), 0);
        }
        let asked = interval_seconds as u64 * 1_000;
        let interval = if asked < TRACKER_ANNOUNCE_MIN {
            TRACKER_ANNOUNCE_MIN
        } else if asked > TRACKER_ANNOUNCE_MAX {
            TRACKER_ANNOUNCE_MAX
        } else {
            asked
        };
        let p = match self.find(id) {
            Some(p) => p,
            None => 0,
        };
        let stopping = self.stopping;
        let inflight = self.records[p].inflight_event;
        self.records[p].updating = false;
        self.records[p].failures = 0;
        self.records[p].inflight_event = None;
        match inflight {
            Some(AnnounceEvent::Started) => {
                self.records[p].start_acknowledged = true;
                if stopping {
                    self.records[p].pending_event = Some(TrackerPriorityEvent::Stopped);
                }
            },
            Some(AnnounceEvent::Stopped) => {
                self.records[p].pending_event = None;
                self.records[p].start_acknowledged = false;
                self.records[p].stopped = true;
            },
            Some(event) => {
                let settled = match self.records[p].pending_event {
                    Some(pending) => pending.wire_event() == event,
                    None => false,
                };
                if settled {
                    self.records[p].pending_event = None;
                }
            },
            None => {},
        }
        self.records[p].last_success = Some(now);
        self.records[p].interval = Some(interval);
        self.records[p].last_peer_count = Some(peer_count);
        self.records[p].seeders = Some(seeders);
        self.records[p].leechers = Some(leechers);
        self.records[p].last_error = None;
        self.records[p].next_announce = now.saturating_add(interval);
        let ghost updated = self@.records[p as int];
        let ghost before = old(self)@.records;
        assert(updated == succeeded_record(
            before[p as int],
            now,
            interval,
            peer_count,
            seeders,
            leechers,
            stopping,
        ));
        assert(self@.records =~= before.update(p as int, updated));
        if p != 0 {
            let record = self.records.remove(p);
            self.records.insert(0, record);
        }
        assert(self@.records =~= seq![updated] + before.remove(p as int));
        self.attempted.clear();
        self.round_not_before = now.saturating_add(interval);
        self.round_tracker = Some(id);
        self.round_wait_kind = Some(TrackerWaitKind::Reannounce);
        proof {
            lemma_front_move_distinct(before, p as int, updated);
            assert(self@.records[0].id == id);
            if let Some(t) = old(self)@.round_tracker {
                assert(self@.records[0].id == id);
            }
        }
        TrackerSuccess { interval }
    }

    /// A snapshot of every tracker at `now`.
    pub fn snapshot(&self, now: u64, active: bool) -> (snapshot: TrackerRuntimeSnapshot)
        ensures
            snapshot.captured_at == now,
            snapshot.active == active,
            snapshot.records@.len() == self@.records.len(),
            forall|i: int|
                0 <= i < self@.records.len() ==> snapshot_of(
                    #[trigger] snapshot.records@[i],
                    self@.records[i],
                    now,
                    active,
                ),
    {
        let mut records: Vec<TrackerRuntimeRecordSnapshot> = Vec::new();
        let mut i: usize = 0;
        while i < self.records.len()
            invariant
                i <= self@.records.len(),
                records@.len() == i,
                forall|k: int|
                    0 <= k < i ==> snapshot_of(#[trigger] records@[k], self@.records[k], now, active),
            decreases self@.records.len() - i,
        {
            records.push(self.records[i].snapshot(now, active));
            i += 1;
        }
        TrackerRuntimeSnapshot { captured_at: now, active, records }
    }

    /// The consecutive failures of the tracker at position `index`.
    pub fn failures_at(&self, index: usize) -> (failures: Option<u8>)
        ensures
            index < self@.records.len() ==> failures == Some(self@.records[index as int].failures),
            index >= self@.records.len() ==> failures is None,
    {
        if index < self.records.len() {
            Some(self.records[index].failures)
        } else {
            None
        }
    }
}

} // verus!
