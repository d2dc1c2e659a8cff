//! The dispatch loop of the transport, as an explicit state machine.
//!
//! The two suspension points of a logical call — executing the request on the
//! wire and sleeping out a backoff — are outside work; everything the
//! transport decides between them is here. A driver asks `Dispatcher::start`
//! for the first connection, performs the exchange, and hands the outcome of
//! each attempt to `on_outcome`, which updates the pool's liveness
//! bookkeeping and answers with the next step: retry after a backoff on a
//! freshly selected connection, deliver the response verbatim, or give up
//! with `MaxRetriesExceeded`.

use crate::LastFailure;
use crate::TransportError;
use crate::auth::all_ascii;
use crate::auth::canonical_query_append;
use crate::auth::canonical_query_bytes;
use crate::auth::lemma_canonical_query_ascii;
use crate::encoding::ascii_chars;
use crate::encoding::ascii_to_string;
use crate::parts::append_bytes;
use crate::body::Body;
use crate::pool::Connection;
use crate::pool::ConnectionPool;
use crate::pool::resurrect_timeout_millis;
use vstd::prelude::*;
use vstd::string::StringSliceAdditionalSpecFns;

verus! {

/// The cap on one backoff sleep.
pub const MAX_BACKOFF_MILLIS: u64 = 30_000;

/// How a retry policy classifies outcomes and paces retries.
pub struct RetryPolicy {
    /// How many retries may follow the first attempt.
    pub max_retries: u64,
    /// The statuses treated as transient infrastructure trouble
    /// (typically 502, 503 and 504); every other status is delivered
    /// verbatim, client errors and successes alike.
    pub retry_statuses: Vec<u16>,
    /// The sleep before the first retry, in milliseconds; it doubles with
    /// every further retry, capped at the backoff maximum.
    pub base_backoff_millis: u64,
}

/// The backoff before retry number `retry` (counted from 0): the base
/// doubled `retry` times, capped.
pub open spec fn backoff_of(base: u64, retry: u64) -> u64
    decreases retry,
{
    if base > MAX_BACKOFF_MILLIS {
        MAX_BACKOFF_MILLIS
    } else if retry == 0 {
        base
    } else {
        let prev = backoff_of(base, (retry - 1) as u64);
        if 2 * prev >= MAX_BACKOFF_MILLIS {
            MAX_BACKOFF_MILLIS
        } else {
            (2 * prev) as u64
        }
    }
}

proof fn lemma_backoff_capped_from(base: u64, i: u64, j: u64)
    requires
        i <= j,
        backoff_of(base, i) == MAX_BACKOFF_MILLIS,
    ensures
        backoff_of(base, j) == MAX_BACKOFF_MILLIS,
    decreases j - i,
{
    if j > i {
        lemma_backoff_capped_from(base, i, (j - 1) as u64);
    }
}

impl RetryPolicy {
    /// Whether the policy retries this status.
    pub open spec fn spec_retryable(self, status: u16) -> bool {
        self.retry_statuses@.contains(status)
    }

    /// Whether the policy retries this status.
    pub fn retryable_status(&self, status: u16) -> (r: bool)
        ensures
            r == self.spec_retryable(status),
    {
        let n = self.retry_statuses.len();
        let mut i: usize = 0;
        while i < n
            invariant
                n == self.retry_statuses@.len(),
                i <= n,
                forall|m: int| 0 <= m < i ==> self.retry_statuses@[m] != status,
            decreases n - i,
        {
            if self.retry_statuses[i] == status {
                return true;
            }
            i = i + 1;
        }
        false
    }

    /// The backoff before retry number `retry`, computed.
    pub fn backoff_millis(&self, retry: u64) -> (r: u64)
        ensures
            r == backoff_of(self.base_backoff_millis, retry),
    {
        let base = self.base_backoff_millis;
        if base > MAX_BACKOFF_MILLIS {
            return MAX_BACKOFF_MILLIS;
        }
        let mut t: u64 = base;
        let mut i: u64 = 0;
        while i < retry
            invariant
                base == self.base_backoff_millis,
                base <= MAX_BACKOFF_MILLIS,
                i <= retry,
                t == backoff_of(base, i),
            decreases retry - i,
        {
            if t >= MAX_BACKOFF_MILLIS / 2 {
                proof {
                    assert(backoff_of(base, (i + 1) as u64) == MAX_BACKOFF_MILLIS);
                    lemma_backoff_capped_from(base, (i + 1) as u64, retry);
                }
                return MAX_BACKOFF_MILLIS;
            }
            t = 2 * t;
            i = i + 1;
        }
        t
    }
}

/// The outcome of one execution attempt, as the HTTP primitive reports it.
#[derive(Clone, Copy, Debug, PartialEq, Eq, Structural)]
pub enum AttemptOutcome {
    /// A connection-level failure: timeout, refused, TLS or DNS trouble.
    /// No response was received.
    Failed,
    /// A response was received with this status code.
    Status(u16),
}

/// What the driver must do after handing an outcome to the dispatcher.
#[derive(Clone, Copy, Debug, PartialEq, Eq, Structural)]
pub enum Step {
    /// Sleep this many milliseconds, then execute the request once more
    /// against the pool node with this index.
    Backoff { millis: u64, connection: usize },
    /// Deliver the response (it carried this status) verbatim to the caller.
    Deliver(u16),
    /// The call is over; hand this error to the caller.
    Fail(TransportError),
}

/// How a call ends in the dispatch model.
#[derive(Clone, Copy, Debug, PartialEq, Eq, Structural)]
pub enum CallEnd {
    /// The response is the caller's, status and all.
    Delivered(u16),
    /// Retries ran out; this was the last failure.
    GaveUp(LastFailure),
}

/// The transport's decision once `done` executions have completed and the
/// last one ended in `outcome`: a non-retryable status is delivered at once;
/// a retryable outcome is retried while `done <= max_retries` (so at most
/// `max_retries + 1` executions happen), else the call gives up wrapping the
/// last failure.
pub open spec fn spec_decide(policy: RetryPolicy, done: int, outcome: AttemptOutcome) -> Option<
    CallEnd,
> {
    match outcome {
        AttemptOutcome::Failed => if done <= policy.max_retries {
            Option::None
        } else {
            Option::Some(CallEnd::GaveUp(LastFailure::Connection))
        },
        AttemptOutcome::Status(code) => if !policy.spec_retryable(code) {
            Option::Some(CallEnd::Delivered(code))
        } else if done <= policy.max_retries {
            Option::None
        } else {
            Option::Some(CallEnd::GaveUp(LastFailure::Status(code)))
        },
    }
}

/// The whole call in the model: attempt `k` (counted from `done`) receives
/// `outcomes[k]`; the result is how many executions ran in all and how the
/// call ended (`None` when the outcome list ran out first).
pub open spec fn spec_run(policy: RetryPolicy, outcomes: Seq<AttemptOutcome>, done: int) -> Option<
    (int, CallEnd),
>
    decreases outcomes.len(),
{
    if outcomes.len() == 0 {
        Option::None
    } else {
        match spec_decide(policy, done + 1, outcomes[0]) {
            Option::Some(end) => Option::Some((done + 1, end)),
            Option::None => spec_run(policy, outcomes.drop_first(), done + 1),
        }
    }
}

/// Against a backend whose every outcome is retryable, the transport performs
/// exactly `max_retries + 1` executions and then gives up with
/// `MaxRetriesExceeded` wrapping the last failure.
pub proof fn lemma_retries_exhausted(policy: RetryPolicy, outcomes: Seq<AttemptOutcome>, done: int)
    requires
        0 <= done <= policy.max_retries,
        outcomes.len() >= policy.max_retries + 1 - done,
        forall|i: int|
            0 <= i < outcomes.len() ==> match #[trigger] outcomes[i] {
                AttemptOutcome::Failed => true,
                AttemptOutcome::Status(code) => policy.spec_retryable(code),
            },
    ensures
        spec_run(policy, outcomes, done) == Option::Some(
            (
                policy.max_retries + 1,
                CallEnd::GaveUp(
                    match outcomes[policy.max_retries - done] {
                        AttemptOutcome::Failed => LastFailure::Connection,
                        AttemptOutcome::Status(code) => LastFailure::Status(code),
                    },
                ),
            ),
        ),
    decreases policy.max_retries + 1 - done,
{
    if done < policy.max_retries {
        lemma_retries_exhausted(policy, outcomes.drop_first(), done + 1);
        assert(outcomes.drop_first()[policy.max_retries - (done + 1)] == outcomes[policy.max_retries
            - done]);
    }
}

/// A backend that answers the first attempt with a non-retryable status (a
/// 4xx, or any success) causes exactly one execution, delivered verbatim.
pub proof fn lemma_first_answer_delivered(policy: RetryPolicy, outcomes: Seq<AttemptOutcome>)
    requires
        outcomes.len() >= 1,
        outcomes[0] is Status,
        !policy.spec_retryable(outcomes[0]->Status_0),
    ensures
        spec_run(policy, outcomes, 0) == Option::Some((1int, CallEnd::Delivered(outcomes[0]->Status_0))),
{
}

/// The dispatch state of one logical call.
pub struct Dispatcher {
    /// The policy the call runs under.
    pub policy: RetryPolicy,
    /// How many executions have completed.
    pub attempts: u64,
    /// The pool index of the node the in-flight attempt runs against.
    pub current: usize,
}

impl Dispatcher {
    /// Begins a call: selects the first connection from the pool. The driver
    /// executes the request against it and reports the outcome.
    pub fn start(policy: RetryPolicy, pool: &mut ConnectionPool, now: u64) -> (d: Dispatcher)
        requires
            old(pool).wf(),
            policy.max_retries < u64::MAX,
        ensures
            final(pool).wf(),
            final(pool).connections@.len() == old(pool).connections@.len(),
            d.policy == policy,
            d.attempts == 0u64,
            d.current < old(pool).connections@.len(),
            old(pool).some_eligible(now) ==> old(pool).connections@[d.current as int].spec_eligible(
                now,
            ),
    {
        let idx = pool.next(now);
        Dispatcher { policy, attempts: 0, current: idx }
    }

    /// Takes the outcome of the attempt in flight, updates the node's
    /// liveness (a connection-level failure marks it dead; any response marks
    /// it alive), and decides: deliver, give up, or retry on a freshly
    /// selected connection after a backoff. The decision matches
    /// `spec_decide`, so the model lemmas speak about this function.
    pub fn on_outcome(&mut self, pool: &mut ConnectionPool, outcome: AttemptOutcome, now: u64) -> (step: Step)
        requires
            old(pool).wf(),
            old(self).current < old(pool).connections@.len(),
            old(self).attempts <= old(self).policy.max_retries,
            old(self).policy.max_retries < u64::MAX,
        ensures
            final(pool).wf(),
            final(pool).connections@.len() == old(pool).connections@.len(),
            final(self).policy == old(self).policy,
            final(self).attempts == old(self).attempts + 1,
            final(self).current < old(pool).connections@.len(),
            // the decision is the model's decision
            match spec_decide(old(self).policy, old(self).attempts + 1, outcome) {
                Option::Some(CallEnd::Delivered(code)) => step == Step::Deliver(code),
                Option::Some(CallEnd::GaveUp(last)) => step == Step::Fail(
                    TransportError::MaxRetriesExceeded(last),
                ),
                Option::None => step == (Step::Backoff {
                    millis: backoff_of(old(self).policy.base_backoff_millis, old(self).attempts),
                    connection: final(self).current,
                }),
            },
            // a connection-level failure marks the node dead as of now
            outcome is Failed ==> final(pool).connections@[old(self).current as int].dead_since
                == Some(now) || (step is Backoff && final(self).current == old(self).current),
            // a retry never reuses the node that just failed while another is eligible
            (outcome is Failed && step is Backoff && (exists|i: int|
                0 <= i < old(pool).connections@.len() && i != old(self).current && (#[trigger] old(
                    pool,
                ).connections@[i]).spec_eligible(now))) ==> final(self).current != old(
                self,
            ).current,
    {
        self.attempts = self.attempts + 1;
        match outcome {
            AttemptOutcome::Failed => {
                pool.report_failure(self.current, now);
                if self.attempts <= self.policy.max_retries {
                    let ghost marked = *pool;
                    let millis = self.policy.backoff_millis(self.attempts - 1);
                    let fresh = pool.next(now);
                    proof {
                        lemma_timeout_ge_base(
                            marked.connections@[old(self).current as int].failed_attempts,
                        );
                        if exists|i: int|
                            0 <= i < old(pool).connections@.len() && i != old(self).current && (
                            #[trigger] old(pool).connections@[i]).spec_eligible(now) {
                            let i = choose|i: int|
                                0 <= i < old(pool).connections@.len() && i != old(self).current && (
                                #[trigger] old(pool).connections@[i]).spec_eligible(now);
                            assert(marked.connections@[i].spec_eligible(now));
                            assert(marked.some_eligible(now));
                            assert(!marked.connections@[old(self).current as int].spec_eligible(
                                now,
                            ));
                        }
                    }
                    self.current = fresh;
                    Step::Backoff { millis, connection: fresh }
                } else {
                    Step::Fail(TransportError::MaxRetriesExceeded(LastFailure::Connection))
                }
            },
            AttemptOutcome::Status(code) => {
                pool.report_success(self.current);
                if self.policy.retryable_status(code) {
                    if self.attempts <= self.policy.max_retries {
                        let millis = self.policy.backoff_millis(self.attempts - 1);
                        let fresh = pool.next(now);
                        self.current = fresh;
                        Step::Backoff { millis, connection: fresh }
                    } else {
                        Step::Fail(TransportError::MaxRetriesExceeded(LastFailure::Status(code)))
                    }
                } else {
                    Step::Deliver(code)
                }
            },
        }
    }
}

/// The resurrect cooldown never undercuts its base: a node marked dead at
/// `now` is not eligible again at `now`.
proof fn lemma_timeout_ge_base(attempts: u64)
    ensures
        resurrect_timeout_millis(attempts) >= crate::pool::BASE_RESURRECT_MILLIS,
    decreases attempts,
{
    if attempts > 0 {
        lemma_timeout_ge_base((attempts - 1) as u64);
    }
}


pub const QUESTION_MARK: u8 = 63;

/// The request target put on the wire: the URL path, then `?` and the query
/// pairs in the order given, keys and values percent-encoded; the bare path
/// when there is no query.
pub open spec fn target_bytes(path: Seq<u8>, query: Seq<(String, String)>) -> Seq<u8> {
    if query.len() == 0 {
        path
    } else {
        path + seq![QUESTION_MARK] + canonical_query_bytes(query)
    }
}

/// Builds the request target from the path and the query pairs.
pub fn request_target(path: &str, query: &Vec<(String, String)>) -> (t: String)
    requires
        all_ascii(path.spec_bytes()),
    ensures
        t@ == ascii_chars(target_bytes(path.spec_bytes(), query@)),
{
    let mut out: Vec<u8> = Vec::new();
    append_bytes(&mut out, path.as_bytes());
    if query.len() > 0 {
        out.push(QUESTION_MARK);
        canonical_query_append(&mut out, query);
    }
    proof {
        lemma_canonical_query_ascii(query@);
        assert(out@ =~= target_bytes(path.spec_bytes(), query@));
    }
    ascii_to_string(out)
}

/// One logical API call's request, assembled once. A request is immutable
/// across retries: only the chosen connection (and so the headers the
/// connection itself contributes) varies per attempt.
pub struct Request {
    /// The HTTP method.
    pub method: String,
    /// The URL path, already percent-encoded.
    pub path: String,
    /// The query parameters, keys unique; their order does not change the
    /// meaning but is kept, so signing stays deterministic.
    pub query: Vec<(String, String)>,
    /// The caller's headers.
    pub headers: Vec<(String, String)>,
    /// The body, if the call carries one.
    pub body: Option<Body>,
}

impl Request {
    /// The request target this request puts on the wire line.
    pub fn target(&self) -> (t: String)
        requires
            all_ascii(crate::auth::string_bytes(self.path)),
        ensures
            t@ == ascii_chars(target_bytes(crate::auth::string_bytes(self.path), self.query@)),
    {
        request_target(self.path.as_str(), &self.query)
    }
}

/// The headers of one attempt: what the chosen connection contributes, then
/// the request's own.
pub fn attempt_headers(conn: &Connection, request: &Request) -> (r: Vec<(String, String)>)
    ensures
        r@ == conn.headers@ + request.headers@,
{
    let mut out: Vec<(String, String)> = Vec::new();
    let mut i: usize = 0;
    while i < conn.headers.len()
        invariant
            i <= conn.headers@.len(),
            out@ == conn.headers@.take(i as int),
        decreases conn.headers@.len() - i,
    {
        let name = conn.headers[i].0.clone();
        let value = conn.headers[i].1.clone();
        proof {
            assert((name, value) == conn.headers@[i as int]);
            assert(conn.headers@.take(i + 1) =~= conn.headers@.take(i as int).push(
                conn.headers@[i as int],
            ));
        }
        out.push((name, value));
        i = i + 1;
    }
    let mut j: usize = 0;
    proof {
        assert(conn.headers@.take(conn.headers@.len() as int) =~= conn.headers@);
    }
    while j < request.headers.len()
        invariant
            j <= request.headers@.len(),
            out@ == conn.headers@ + request.headers@.take(j as int),
        decreases request.headers@.len() - j,
    {
        let name = request.headers[j].0.clone();
        let value = request.headers[j].1.clone();
        proof {
            assert((name, value) == request.headers@[j as int]);
            assert(request.headers@.take(j + 1) =~= request.headers@.take(j as int).push(
                request.headers@[j as int],
            ));
        }
        out.push((name, value));
        proof {
            assert(out@ =~= conn.headers@ + request.headers@.take(j + 1));
        }
        j = j + 1;
    }
    proof {
        assert(request.headers@.take(request.headers@.len() as int) =~= request.headers@);
    }
    out
}

/// How a delivered response surfaces to a caller that treats non-success as
/// an error: a success status passes through, every other status becomes
/// `HttpStatus`, verbatim — the transport never interprets the body.
pub fn error_for_status(code: u16) -> (r: Result<u16, TransportError>)
    ensures
        200 <= code < 300 ==> r == Ok::<u16, TransportError>(code),
        !(200 <= code < 300) ==> r == Err::<u16, TransportError>(TransportError::HttpStatus(code)),
{
    if 200 <= code && code < 300 {
        Ok(code)
    } else {
        Err(TransportError::HttpStatus(code))
    }
}
} // verus!
