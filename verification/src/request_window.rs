//! Per-connection request pipelining: slow start, a steady rate target, stall
//! recovery, and an adaptive request timeout from recent response times.
//!
//! Times are milliseconds since an origin the caller chooses.
use vstd::prelude::*;
use crate::swarm_types::{
    SwarmConfig, MAX_REQUEST_BLOCK_LENGTH, MAX_REQUEST_TIME_SAMPLES, MIN_ADAPTIVE_REQUEST_TIMEOUT,
    MIN_HEALTHY_REQUESTS_PER_CONNECTION, REQUEST_RATE_SAMPLE_INTERVAL, SLOW_START_RATE_SLACK_BYTES,
};

verus! {

#[derive(Clone, Copy, Debug, PartialEq, Eq, Structural)]
pub enum RequestWindowPhase {
    SlowStart,
    Steady,
    Stalled,
}

/// `x` limited to `lo..=hi`.
pub open spec fn clamp(x: int, lo: int, hi: int) -> int {
    if x < lo {
        lo
    } else if x > hi {
        hi
    } else {
        x
    }
}

/// Requests per connection that keep `request_queue_time` of payload in flight
/// at `payload_rate` bytes per second, within the healthy range.
pub open spec fn rate_target_spec(payload_rate: usize, config: SwarmConfig) -> int {
    let target_bytes = (payload_rate as int * config.request_queue_time as int) / 1000;
    let block = MAX_REQUEST_BLOCK_LENGTH as int;
    let requests = (target_bytes + block - 1) / block;
    clamp(
        if requests > usize::MAX as int { usize::MAX as int } else { requests },
        MIN_HEALTHY_REQUESTS_PER_CONNECTION as int,
        config.max_requests_per_connection as int,
    )
}

pub fn rate_target(payload_rate: usize, config: SwarmConfig) -> (r: usize)
    requires
        config.max_requests_per_connection >= MIN_HEALTHY_REQUESTS_PER_CONNECTION,
    ensures
        r == rate_target_spec(payload_rate, config),
{
    let rate = payload_rate as u128;
    let queue = config.request_queue_time as u128;
    assert(rate * queue <= u128::MAX) by (nonlinear_arith)
        requires
            rate <= u64::MAX,
            queue <= u64::MAX,
    ;
    let target_bytes = rate * queue / 1000;
    let block = MAX_REQUEST_BLOCK_LENGTH as u128;
    let requests = (target_bytes + (block - 1)) / block;
    let requests = if requests > usize::MAX as u128 {
        usize::MAX
    } else {
        requests as usize
    };
    if requests < MIN_HEALTHY_REQUESTS_PER_CONNECTION {
        MIN_HEALTHY_REQUESTS_PER_CONNECTION
    } else if requests > config.max_requests_per_connection {
        config.max_requests_per_connection
    } else {
        requests
    }
}

/// Sum of the samples.
pub open spec fn sum(s: Seq<u64>) -> nat
    decreases s.len(),
{
    if s.len() == 0 {
        0
    } else {
        sum(s.drop_last()) + s.last() as nat
    }
}

/// Sum of the distances of the samples from `center`.
pub open spec fn spread(s: Seq<u64>, center: int) -> nat
    decreases s.len(),
{
    if s.len() == 0 {
        0
    } else {
        let d = s.last() - center;
        spread(s.drop_last(), center) + (if d < 0 { -d } else { d }) as nat
    }
}

/// The timeout that response-time samples suggest: the mean plus a fifth of it
/// for one sample, else the mean plus four mean deviations; rounded up to a
/// whole second and kept between two seconds (or the limit, if smaller) and
/// the configured request timeout.
pub open spec fn timeout_spec(samples: Seq<u64>, limit: u64) -> int {
    if samples.len() == 0 {
        limit as int
    } else {
        let n = samples.len() as int;
        let average = sum(samples) as int / n;
        let raw = if n == 1 {
            average + average / 5
        } else {
            average + (spread(samples, average) as int / n) * 4
        };
        let rounded = ((raw + 999) / 1000) * 1000;
        let minimum = if MIN_ADAPTIVE_REQUEST_TIMEOUT < limit {
            MIN_ADAPTIVE_REQUEST_TIMEOUT as int
        } else {
            limit as int
        };
        clamp(rounded, minimum, limit as int)
    }
}

/// Rounding `raw` up to a whole second and clamping it to `minimum..=limit`
/// gives a value no smaller than `raw` where the limit allows, less than a
/// second above it unless the floor applies, and on a whole second between
/// the bounds.
proof fn lemma_round_and_clamp(raw: int, minimum: int, limit: int)
    requires
        0 <= raw,
        0 <= minimum <= limit,
    ensures
        ({
            let t = clamp(((raw + 999) / 1000) * 1000, minimum, limit);
            &&& minimum <= t <= limit
            &&& raw <= limit ==> raw <= t
            &&& t > minimum ==> t < raw + 1000
            &&& minimum < t < limit ==> t % 1000 == 0
            &&& raw >= limit ==> t == limit
        }),
{
    let q = (raw + 999) / 1000;
    assert(q * 1000 <= raw + 999 < q * 1000 + 1000);
    assert((q * 1000) % 1000 == 0);
}

/// The adaptive request timeout covers the mean response time plus four mean
/// absolute deviations (a fifth of the mean for a single sample): it is never
/// below that where the configured limit allows it, exceeds it by less than a
/// second unless the two-second floor applies, lies on a whole second between
/// the floor and the limit, and stays within `min(2 s, limit)..=limit`.
pub proof fn lemma_timeout_covers_response_spread(samples: Seq<u64>, limit: u64)
    requires
        samples.len() > 0,
    ensures
        ({
            let n = samples.len() as int;
            let mean = sum(samples) as int / n;
            let mean_deviation = spread(samples, mean) as int / n;
            let covered = if n == 1 {
                mean + mean / 5
            } else {
                mean + 4 * mean_deviation
            };
            let floor = if limit < MIN_ADAPTIVE_REQUEST_TIMEOUT {
                limit as int
            } else {
                MIN_ADAPTIVE_REQUEST_TIMEOUT as int
            };
            let t = timeout_spec(samples, limit);
            &&& floor <= t <= limit
            &&& covered <= limit ==> covered <= t
            &&& t > floor ==> t < covered + 1000
            &&& floor < t < limit ==> t % 1000 == 0
            &&& covered >= limit ==> t == limit
        }),
{
    let n = samples.len() as int;
    let mean = sum(samples) as int / n;
    assert(mean >= 0) by (nonlinear_arith)
        requires
            n > 0,
            sum(samples) >= 0,
            mean == sum(samples) as int / n,
    ;
    let mean_deviation = spread(samples, mean) as int / n;
    assert(mean_deviation >= 0) by (nonlinear_arith)
        requires
            n > 0,
            spread(samples, mean) >= 0,
            mean_deviation == spread(samples, mean) as int / n,
    ;
    let covered = if n == 1 {
        mean + mean / 5
    } else {
        mean + 4 * mean_deviation
    };
    let floor = if limit < MIN_ADAPTIVE_REQUEST_TIMEOUT {
        limit as int
    } else {
        MIN_ADAPTIVE_REQUEST_TIMEOUT as int
    };
    lemma_round_and_clamp(covered, floor, limit as int);
}

/// Payload bytes per second over `elapsed` milliseconds.
pub open spec fn payload_rate(bytes: usize, elapsed: u64) -> int {
    let e = if elapsed < 1 { 1 } else { elapsed as int };
    let r = (bytes as int * 1000) / e;
    if r > usize::MAX as int { usize::MAX as int } else { r }
}

#[derive(Debug)]
pub struct RequestWindow {
    pub target: usize,
    pub phase: RequestWindowPhase,
    pub sample_started_at: u64,
    pub sample_payload_bytes: usize,
    pub previous_payload_rate: Option<usize>,
    pub observed_payload_rate: usize,
    pub useful_payload_bytes: usize,
    pub last_payload_at: Option<u64>,
    pub request_time_samples: Vec<u64>,
}

impl RequestWindow {
    pub open spec fn wf(&self) -> bool {
        self.request_time_samples@.len() <= MAX_REQUEST_TIME_SAMPLES
    }

    pub fn new(now: u64, initial_target: usize) -> (r: Self)
        ensures
            r.wf(),
            r.target == initial_target,
            r.phase == RequestWindowPhase::SlowStart,
            r.sample_started_at == now,
            r.sample_payload_bytes == 0,
            r.previous_payload_rate is None,
            r.observed_payload_rate == 0,
            r.useful_payload_bytes == 0,
            r.last_payload_at is None,
            r.request_time_samples@.len() == 0,
    {
        RequestWindow {
            target: initial_target,
            phase: RequestWindowPhase::SlowStart,
            sample_started_at: now,
            sample_payload_bytes: 0,
            previous_payload_rate: None,
            observed_payload_rate: 0,
            useful_payload_bytes: 0,
            last_payload_at: None,
            request_time_samples: Vec::new(),
        }
    }

    /// Closes a rate sample once a second has passed: records the observed
    /// rate, leaves slow start when the rate stopped growing, and retargets a
    /// steady window.
    pub fn refresh(&mut self, now: u64, config: SwarmConfig)
        requires
            old(self).wf(),
            config.max_requests_per_connection >= MIN_HEALTHY_REQUESTS_PER_CONNECTION,
        ensures
            final(self).wf(),
            final(self).request_time_samples@ == old(self).request_time_samples@,
            final(self).useful_payload_bytes == old(self).useful_payload_bytes,
            final(self).last_payload_at == old(self).last_payload_at,
            now.saturating_sub(old(self).sample_started_at) < REQUEST_RATE_SAMPLE_INTERVAL ==> {
                &&& final(self).target == old(self).target
                &&& final(self).phase == old(self).phase
                &&& final(self).sample_started_at == old(self).sample_started_at
                &&& final(self).sample_payload_bytes == old(self).sample_payload_bytes
                &&& final(self).previous_payload_rate == old(self).previous_payload_rate
                &&& final(self).observed_payload_rate == old(self).observed_payload_rate
            },
            now.saturating_sub(old(self).sample_started_at) >= REQUEST_RATE_SAMPLE_INTERVAL ==> {
                let rate = payload_rate(
                    old(self).sample_payload_bytes,
                    now.saturating_sub(old(self).sample_started_at),
                );
                let settles = old(self).phase == RequestWindowPhase::SlowStart
                    && (old(self).previous_payload_rate matches Some(p) && p > 0 && rate
                    <= p.saturating_add(SLOW_START_RATE_SLACK_BYTES as usize));
                let phase = if settles {
                    RequestWindowPhase::Steady
                } else {
                    old(self).phase
                };
                &&& final(self).observed_payload_rate == rate
                &&& final(self).phase == phase
                &&& final(self).previous_payload_rate == if old(self).phase
                    == RequestWindowPhase::SlowStart {
                    Some(rate as usize)
                } else {
                    old(self).previous_payload_rate
                }
                &&& final(self).target == if phase == RequestWindowPhase::Steady {
                    rate_target_spec(rate as usize, config)
                } else {
                    old(self).target as int
                }
                &&& final(self).sample_started_at == now
                &&& final(self).sample_payload_bytes == 0
            },
    {
        let elapsed = now.saturating_sub(self.sample_started_at);
        if elapsed < REQUEST_RATE_SAMPLE_INTERVAL {
            return ;
        }
        let divisor = if elapsed < 1 {
            1
        } else {
            elapsed
        };
        let scaled = self.sample_payload_bytes as u128 * 1000;
        let quotient = scaled / divisor as u128;
        let rate = if quotient > usize::MAX as u128 {
            usize::MAX
        } else {
            quotient as usize
        };
        self.observed_payload_rate = rate;
        if self.phase == RequestWindowPhase::SlowStart {
            let settles = match self.previous_payload_rate {
                Some(previous) => previous > 0 && rate <= previous.saturating_add(
                    SLOW_START_RATE_SLACK_BYTES,
                ),
                None => false,
            };
            if settles {
                self.phase = RequestWindowPhase::Steady;
            }
            self.previous_payload_rate = Some(rate);
        }
        if self.phase == RequestWindowPhase::Steady {
            self.target = rate_target(rate, config);
        }
        self.sample_started_at = now;
        self.sample_payload_bytes = 0;
    }

    /// Keeps the most recent response times, at most twenty.
    pub fn record_request_time(&mut self, request_time: u64)
        requires
            old(self).wf(),
        ensures
            final(self).wf(),
            final(self).request_time_samples@ == if old(self).request_time_samples@.len()
                == MAX_REQUEST_TIME_SAMPLES {
                old(self).request_time_samples@.drop_first().push(request_time)
            } else {
                old(self).request_time_samples@.push(request_time)
            },
            final(self).target == old(self).target,
            final(self).phase == old(self).phase,
            final(self).sample_started_at == old(self).sample_started_at,
            final(self).sample_payload_bytes == old(self).sample_payload_bytes,
            final(self).previous_payload_rate == old(self).previous_payload_rate,
            final(self).observed_payload_rate == old(self).observed_payload_rate,
            final(self).useful_payload_bytes == old(self).useful_payload_bytes,
            final(self).last_payload_at == old(self).last_payload_at,
    {
        if self.request_time_samples.len() == MAX_REQUEST_TIME_SAMPLES {
            self.request_time_samples.remove(0);
            assert(self.request_time_samples@ =~= old(self).request_time_samples@.drop_first());
        }
        self.request_time_samples.push(request_time);
    }

    /// Accounts one useful block of `length` bytes at `now`; a response to an
    /// active request also samples its response time.
    pub fn accepted_payload(
        &mut self,
        now: u64,
        length: usize,
        request_issued_at: Option<u64>,
        config: SwarmConfig,
    )
        requires
            old(self).wf(),
            config.max_requests_per_connection >= MIN_HEALTHY_REQUESTS_PER_CONNECTION,
        ensures
            final(self).wf(),
            final(self).last_payload_at == Some(now),
            final(self).useful_payload_bytes == old(self).useful_payload_bytes.saturating_add(
                length,
            ),
            final(self).request_time_samples@.len() == if request_issued_at is Some {
                if old(self).request_time_samples@.len() == MAX_REQUEST_TIME_SAMPLES {
                    MAX_REQUEST_TIME_SAMPLES as int
                } else {
                    old(self).request_time_samples@.len() + 1int
                }
            } else {
                old(self).request_time_samples@.len() as int
            },
            request_issued_at matches Some(issued) ==> final(self).request_time_samples@.last()
                == now.saturating_sub(
                match old(self).last_payload_at {
                    Some(last) => if last > issued {
                        last
                    } else {
                        issued
                    },
                    None => issued,
                },
            ),
            final(self).phase != RequestWindowPhase::Stalled,
            old(self).phase == RequestWindowPhase::Stalled ==> final(self).phase
                == RequestWindowPhase::Steady && final(self).target
                == MIN_HEALTHY_REQUESTS_PER_CONNECTION,
            old(self).phase == RequestWindowPhase::SlowStart && now.saturating_sub(
                old(self).sample_started_at,
            ) < REQUEST_RATE_SAMPLE_INTERVAL ==> final(self).phase == RequestWindowPhase::SlowStart
                && final(self).target == if old(self).target < config.max_requests_per_connection {
                old(self).target + 1
            } else {
                config.max_requests_per_connection as int
            },
    {
        self.refresh(now, config);
        let ghost refreshed_phase = self.phase;
        if let Some(issued_at) = request_issued_at {
            let previous = match self.last_payload_at {
                Some(last) => last,
                None => issued_at,
            };
            let started = if previous > issued_at {
                previous
            } else {
                issued_at
            };
            self.record_request_time(now.saturating_sub(started));
        }
        self.last_payload_at = Some(now);
        self.sample_payload_bytes = self.sample_payload_bytes.saturating_add(length);
        self.useful_payload_bytes = self.useful_payload_bytes.saturating_add(length);
        match self.phase {
            RequestWindowPhase::SlowStart => {
                let grown = self.target.saturating_add(1);
                self.target = if grown < config.max_requests_per_connection {
                    grown
                } else {
                    config.max_requests_per_connection
                };
            },
            RequestWindowPhase::Steady => {},
            RequestWindowPhase::Stalled => {
                self.phase = RequestWindowPhase::Steady;
                self.target = MIN_HEALTHY_REQUESTS_PER_CONNECTION;
                self.previous_payload_rate = None;
            },
        }
    }

    /// A stalled connection probes with a single request.
    pub fn stalled(&mut self, now: u64)
        requires
            old(self).wf(),
        ensures
            final(self).wf(),
            final(self).target == 1,
            final(self).phase == RequestWindowPhase::Stalled,
            final(self).sample_started_at == now,
            final(self).sample_payload_bytes == 0,
            final(self).previous_payload_rate is None,
            final(self).observed_payload_rate == 0,
            final(self).last_payload_at is None,
            final(self).useful_payload_bytes == old(self).useful_payload_bytes,
            final(self).request_time_samples@ == old(self).request_time_samples@,
    {
        self.target = 1;
        self.phase = RequestWindowPhase::Stalled;
        self.sample_started_at = now;
        self.sample_payload_bytes = 0;
        self.previous_payload_rate = None;
        self.observed_payload_rate = 0;
        self.last_payload_at = None;
    }

    pub fn request_timeout(&self, config: SwarmConfig) -> (r: u64)
        requires
            self.wf(),
        ensures
            r == timeout_spec(self.request_time_samples@, config.request_timeout),
    {
        let samples = &self.request_time_samples;
        let n = samples.len();
        if n == 0 {
            return config.request_timeout;
        }
        let mut total: u128 = 0;
        let mut i: usize = 0;
        while i < n
            invariant
                n == samples@.len(),
                n <= MAX_REQUEST_TIME_SAMPLES,
                i <= n,
                total == sum(samples@.subrange(0, i as int)),
                total <= i * (u64::MAX as int),
            decreases n - i,
        {
            proof {
                assert(samples@.subrange(0, i as int + 1).drop_last() =~= samples@.subrange(0, i as int));
            }
            total = total + samples[i] as u128;
            i += 1;
        }
        assert(samples@.subrange(0, n as int) =~= samples@);
        let average = total / n as u128;
        let raw: u128 = if n == 1 {
            average + average / 5
        } else {
            let mut deviation: u128 = 0;
            let mut j: usize = 0;
            assert(average <= u64::MAX) by (nonlinear_arith)
                requires
                    total <= n * (u64::MAX as int),
                    n >= 1,
                    average == total / n as u128,
            ;
            while j < n
                invariant
                    n == samples@.len(),
                    n <= MAX_REQUEST_TIME_SAMPLES,
                    j <= n,
                    average <= u64::MAX,
                    deviation == spread(samples@.subrange(0, j as int), average as int),
                    deviation <= j * (u64::MAX as int),
                decreases n - j,
            {
                proof {
                    assert(samples@.subrange(0, j as int + 1).drop_last() =~= samples@.subrange(0, j as int));
                }
                let s = samples[j] as u128;
                let d = if s > average {
                    s - average
                } else {
                    average - s
                };
                deviation = deviation + d;
                j += 1;
            }
            assert(samples@.subrange(0, n as int) =~= samples@);
            let mean_deviation = deviation / n as u128;
            assert(mean_deviation <= u64::MAX) by (nonlinear_arith)
                requires
                    deviation <= n * (u64::MAX as int),
                    n >= 1,
                    mean_deviation == deviation / n as u128,
            ;
            average + mean_deviation * 4
        };
        let rounded = (raw + 999) / 1000 * 1000;
        let limit = config.request_timeout as u128;
        let minimum = if (MIN_ADAPTIVE_REQUEST_TIMEOUT as u128) < limit {
            MIN_ADAPTIVE_REQUEST_TIMEOUT as u128
        } else {
            limit
        };
        let bounded = if rounded < minimum {
            minimum
        } else if rounded > limit {
            limit
        } else {
            rounded
        };
        bounded as u64
    }

    /// When a connection whose oldest request was issued at `oldest_request`
    /// counts as stalled.
    pub fn stall_deadline(&self, oldest_request: u64, config: SwarmConfig) -> (r: u64)
        requires
            self.wf(),
        ensures
            r == ({
                let start = match self.last_payload_at {
                    Some(t) => t,
                    None => oldest_request,
                };
                let d = start + timeout_spec(self.request_time_samples@, config.request_timeout);
                if d > u64::MAX {
                    u64::MAX as int
                } else {
                    d
                }
            }),
    {
        let start = match self.last_payload_at {
            Some(t) => t,
            None => oldest_request,
        };
        start.saturating_add(self.request_timeout(config))
    }
}

} // verus!
