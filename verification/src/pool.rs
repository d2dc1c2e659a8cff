//! The connection pool: node liveness tracking, round-robin selection with
//! dead-node skipping and resurrection, and membership refresh.
//!
//! Time enters every function as a caller-supplied millisecond timestamp, so
//! the selection and resurrection rules are pure functions of pool state and
//! clock value. Every operation takes the pool from one consistent state to
//! the next in a single call, so an embedding that shares the pool between
//! in-flight calls serializes them with a lock around these calls and never
//! sees a partial liveness update.

use crate::TransportError;
use vstd::arithmetic::div_mod::lemma_basic_div;
use vstd::arithmetic::div_mod::lemma_hoist_over_denominator;
use vstd::pervasive::VecAdditionalExecFns;
use vstd::pervasive::unreached;
use vstd::prelude::*;

verus! {

/// The cooldown before a node that has failed once is offered again.
pub const BASE_RESURRECT_MILLIS: u64 = 60_000;

/// The cap on the resurrect cooldown however often a node has failed.
pub const MAX_RESURRECT_MILLIS: u64 = 1_800_000;

/// The resurrect cooldown after a number of consecutive failures: it starts
/// at the base and doubles with each further failure, capped at the maximum
/// (the least of the cap and base * 2^failures).
pub open spec fn resurrect_timeout_millis(attempts: u64) -> u64
    decreases attempts,
{
    if attempts == 0 {
        BASE_RESURRECT_MILLIS
    } else {
        let prev = resurrect_timeout_millis((attempts - 1) as u64);
        if 2 * prev >= MAX_RESURRECT_MILLIS {
            MAX_RESURRECT_MILLIS
        } else {
            (2 * prev) as u64
        }
    }
}

proof fn lemma_timeout_capped(i: u64, j: u64)
    requires
        i <= j,
        resurrect_timeout_millis(i) == MAX_RESURRECT_MILLIS,
    ensures
        resurrect_timeout_millis(j) == MAX_RESURRECT_MILLIS,
    decreases j - i,
{
    if j > i {
        lemma_timeout_capped(i, (j - 1) as u64);
    }
}

/// The resurrect cooldown, computed.
pub fn resurrect_timeout(attempts: u64) -> (r: u64)
    ensures
        r == resurrect_timeout_millis(attempts),
{
    let mut t: u64 = BASE_RESURRECT_MILLIS;
    let mut i: u64 = 0;
    while i < attempts
        invariant
            i <= attempts,
            t == resurrect_timeout_millis(i),
        decreases attempts - i,
    {
        if t >= MAX_RESURRECT_MILLIS / 2 {
            proof {
                assert(resurrect_timeout_millis((i + 1) as u64) == MAX_RESURRECT_MILLIS);
                lemma_timeout_capped((i + 1) as u64, attempts);
            }
            return MAX_RESURRECT_MILLIS;
        }
        t = 2 * t;
        i = i + 1;
    }
    t
}

/// One reachable node of the cluster.
pub struct Connection {
    /// The node's base URL.
    pub url: String,
    /// Extra headers attached to every request sent to this node.
    pub headers: Vec<(String, String)>,
    /// The node's selection priority, recorded with it.
    pub weight: u64,
    /// When the node was marked dead, if it is dead.
    pub dead_since: Option<u64>,
    /// How many times in a row the node has failed.
    pub failed_attempts: u64,
}

impl Connection {
    /// A connection that may be handed out at `now`: alive, or dead with its
    /// resurrect cooldown over.
    pub open spec fn spec_eligible(self, now: u64) -> bool {
        match self.dead_since {
            Option::None => true,
            Option::Some(t) => now >= t + resurrect_timeout_millis(self.failed_attempts),
        }
    }

    /// A fresh, alive connection to the given URL.
    pub fn new(url: String) -> (c: Connection)
        ensures
            c.url == url,
            c.headers@.len() == 0,
            c.weight == 1u64,
            c.dead_since is None,
            c.failed_attempts == 0u64,
    {
        Connection { url, headers: Vec::new(), weight: 1, dead_since: None, failed_attempts: 0 }
    }

    /// Whether the connection may be handed out at `now`.
    pub fn eligible(&self, now: u64) -> (r: bool)
        ensures
            r == self.spec_eligible(now),
    {
        match &self.dead_since {
            None => true,
            Some(t) => {
                if now >= *t {
                    now - *t >= resurrect_timeout(self.failed_attempts)
                } else {
                    false
                }
            },
        }
    }
}

/// One cursor step of round-robin selection over `n` slots.
pub open spec fn rr_step(c: int, n: int) -> int {
    if c + 1 < n {
        c + 1
    } else {
        0
    }
}

/// The slot `k` places after `c`, wrapping at `n` (for `c < n`, `k <= n`).
pub open spec fn wrap_add(c: int, k: int, n: int) -> int {
    if c + k < n {
        c + k
    } else {
        c + k - n
    }
}

/// How many slots round-robin passes from cursor `c` before reaching `i`.
pub open spec fn cyc_dist(c: int, i: int, n: int) -> int {
    if i >= c {
        i - c
    } else {
        n - c + i
    }
}

/// The cursor after `k` selections from a pool whose nodes are all eligible.
pub open spec fn rr_at(c: int, k: nat, n: int) -> int
    decreases k,
{
    if k == 0 {
        c
    } else {
        rr_at(rr_step(c, n), (k - 1) as nat, n)
    }
}

/// How many of `k` consecutive selections from cursor `c` pick slot `j`,
/// when all nodes are eligible (each selection returns the cursor, then
/// advances it one step).
pub open spec fn rr_count(c: int, k: nat, j: int, n: int) -> int
    decreases k,
{
    if k == 0 {
        0
    } else {
        (if c == j {
            1int
        } else {
            0int
        }) + rr_count(rr_step(c, n), (k - 1) as nat, j, n)
    }
}

proof fn lemma_rr_count_nonneg(c: int, k: nat, j: int, n: int)
    ensures
        rr_count(c, k, j, n) >= 0,
    decreases k,
{
    if k > 0 {
        lemma_rr_count_nonneg(rr_step(c, n), (k - 1) as nat, j, n);
    }
}

proof fn lemma_rr_count_add(c: int, a: nat, b: nat, j: int, n: int)
    ensures
        rr_count(c, a + b, j, n) == rr_count(c, a, j, n) + rr_count(rr_at(c, a, n), b, j, n),
    decreases a,
{
    if a > 0 {
        lemma_rr_count_add(rr_step(c, n), (a - 1) as nat, b, j, n);
    }
}

proof fn lemma_rr_at_small(c: int, m: nat, n: int)
    requires
        0 <= c < n,
        m <= n,
    ensures
        rr_at(c, m, n) == wrap_add(c, m as int, n),
    decreases m,
{
    if m > 0 {
        lemma_rr_at_small(rr_step(c, n), (m - 1) as nat, n);
    }
}

/// A full window of `n` consecutive selections picks slot `j` exactly once.
proof fn lemma_rr_window(c: int, m: nat, j: int, n: int)
    requires
        0 <= c < n,
        0 <= j < n,
        m <= n,
    ensures
        rr_count(c, m, j, n) == if cyc_dist(c, j, n) < m {
            1int
        } else {
            0int
        },
    decreases m,
{
    if m > 0 {
        lemma_rr_window(rr_step(c, n), (m - 1) as nat, j, n);
    }
}

/// Round-robin fairness: over `calls` consecutive selections from a pool of
/// `n` nodes that stay eligible throughout, every slot is picked at least
/// `calls / n` times (and a full window of `n` picks each exactly once).
pub proof fn lemma_round_robin_fair(c: int, calls: nat, j: int, n: int)
    requires
        0 <= c < n,
        0 <= j < n,
    ensures
        rr_count(c, calls, j, n) >= calls as int / n,
        rr_count(c, n as nat, j, n) == 1,
    decreases calls,
{
    lemma_rr_window(c, n as nat, j, n);
    assert(cyc_dist(c, j, n) < n);
    if calls < n {
        lemma_rr_count_nonneg(c, calls, j, n);
        lemma_basic_div(calls as int, n);
    } else {
        lemma_rr_count_add(c, n as nat, (calls - n) as nat, j, n);
        lemma_rr_at_small(c, n as nat, n);
        assert(rr_at(c, n as nat, n) == c);
        lemma_round_robin_fair(c, (calls - n) as nat, j, n);
        lemma_hoist_over_denominator((calls - n) as int, 1, n as nat);
        assert((calls - n) as int / n + 1 == ((calls - n) + 1 * n) / n);
    }
}

/// Whether connection `c`'s liveness bookkeeping is carried over from the
/// connections `olds`: if some old connection had `c`'s URL, `c` holds that
/// one's liveness; a genuinely new URL starts alive with no failures.
pub open spec fn liveness_carried(olds: Seq<Connection>, c: Connection) -> bool {
    if exists|j: int| 0 <= j < olds.len() && (#[trigger] olds[j]).url@ == c.url@ {
        exists|j: int|
            0 <= j < olds.len() && (#[trigger] olds[j]).url@ == c.url@ && c.dead_since
                == olds[j].dead_since && c.failed_attempts == olds[j].failed_attempts
    } else {
        c.dead_since is None && c.failed_attempts == 0
    }
}

/// The pool of connections a transport selects from.
pub struct ConnectionPool {
    /// The nodes, in pool order. Never empty after construction.
    pub connections: Vec<Connection>,
    /// Where the next selection scan starts; persists across calls so that
    /// selection is fair in the long run.
    pub cursor: usize,
    /// When membership was last refreshed, if it ever was.
    pub last_sniff: Option<u64>,
    /// How often membership should be refreshed, if at all.
    pub sniff_interval: Option<u64>,
}

impl ConnectionPool {
    /// Pool well-formedness: at least one connection, cursor in range.
    pub open spec fn wf(self) -> bool {
        self.connections@.len() > 0 && (self.cursor as int) < self.connections@.len()
    }

    /// Whether some connection may be handed out at `now`.
    pub open spec fn some_eligible(self, now: u64) -> bool {
        exists|i: int|
            0 <= i < self.connections@.len() && self.connections@[i].spec_eligible(now)
    }

    /// A pool over the given node URLs, all alive. An empty list is a
    /// configuration defect: `NoConnections`.
    pub fn new(urls: Vec<String>, sniff_interval: Option<u64>) -> (r: Result<
        ConnectionPool,
        TransportError,
    >)
        ensures
            urls@.len() == 0 <==> r is Err,
            r is Err ==> r->Err_0 == TransportError::NoConnections,
            r is Ok ==> {
                let p = r->Ok_0;
                &&& p.wf()
                &&& p.connections@.len() == urls@.len()
                &&& forall|i: int|
                    0 <= i < urls@.len() ==> (#[trigger] p.connections@[i]).url == urls@[i]
                        && p.connections@[i].dead_since is None
                        && p.connections@[i].failed_attempts == 0u64
                &&& p.cursor == 0usize
                &&& p.last_sniff is None
                &&& p.sniff_interval == sniff_interval
            },
    {
        if urls.len() == 0 {
            return Err(TransportError::NoConnections);
        }
        let mut connections: Vec<Connection> = Vec::new();
        let mut i: usize = 0;
        let n = urls.len();
        let mut urls = urls;
        // consume from the back to avoid cloning; then restore order
        // by building in reverse
        let ghost all = urls@;
        let mut rev: Vec<Connection> = Vec::new();
        while urls.len() > 0
            invariant
                urls@ == all.take(urls@.len() as int),
                rev@.len() + urls@.len() == all.len(),
                forall|k: int|
                    0 <= k < rev@.len() ==> (#[trigger] rev@[k]).url == all[all.len() - 1 - k]
                        && rev@[k].dead_since is None && rev@[k].failed_attempts == 0u64,
            decreases urls@.len(),
        {
            let u = urls.pop().unwrap();
            proof {
                assert(u == all[urls@.len() as int]);
                assert(urls@ =~= all.take(urls@.len() as int));
            }
            rev.push(Connection::new(u));
        }
        while rev.len() > 0
            invariant
                rev@.len() + connections@.len() == all.len(),
                forall|k: int|
                    0 <= k < rev@.len() ==> (#[trigger] rev@[k]).url == all[all.len() - 1 - k]
                        && rev@[k].dead_since is None && rev@[k].failed_attempts == 0u64,
                forall|k: int|
                    0 <= k < connections@.len() ==> (#[trigger] connections@[k]).url == all[k]
                        && connections@[k].dead_since is None && connections@[k].failed_attempts
                        == 0u64,
            decreases rev@.len(),
        {
            let c = rev.pop().unwrap();
            connections.push(c);
        }
        Ok(ConnectionPool { connections, cursor: 0, last_sniff: None, sniff_interval })
    }

    /// A pool of exactly one node.
    pub fn single_node(url: String) -> (p: ConnectionPool)
        ensures
            p.wf(),
            p.connections@.len() == 1,
            p.connections@[0].url == url,
            p.connections@[0].dead_since is None,
            p.cursor == 0usize,
            p.sniff_interval is None,
    {
        let mut connections: Vec<Connection> = Vec::new();
        connections.push(Connection::new(url));
        ConnectionPool { connections, cursor: 0, last_sniff: None, sniff_interval: None }
    }

    /// How many nodes the pool holds.
    pub fn len(&self) -> (n: usize)
        ensures
            n == self.connections@.len(),
    {
        self.connections.len()
    }

    /// Selects the connection for the next attempt and advances the cursor.
    ///
    /// Round-robin from the cursor, skipping every node whose resurrect
    /// cooldown still runs: the first eligible node in cyclic order wins and
    /// is handed out alive (a dead node whose cooldown is over is resurrected
    /// by being selected). Only when no node at all is eligible is the
    /// least-recently-dead node force-selected and given one more chance, so
    /// the pool always returns something.
    pub fn next(&mut self, now: u64) -> (idx: usize)
        requires
            old(self).wf(),
        ensures
            final(self).wf(),
            idx < old(self).connections@.len(),
            final(self).connections@.len() == old(self).connections@.len(),
            final(self).cursor == rr_step(idx as int, old(self).connections@.len() as int),
            final(self).last_sniff == old(self).last_sniff,
            final(self).sniff_interval == old(self).sniff_interval,
            // only the selected node changes, and only by coming (back) alive
            forall|j: int|
                0 <= j < old(self).connections@.len() && j != idx ==> final(self).connections@[j] == old(self).connections@[j],
            final(self).connections@[idx as int].url == old(self).connections@[idx as int].url,
            final(self).connections@[idx as int].headers == old(self).connections@[idx as int].headers,
            final(self).connections@[idx as int].weight == old(self).connections@[idx as int].weight,
            final(self).connections@[idx as int].failed_attempts == old(self).connections@[idx as int].failed_attempts,
            final(self).connections@[idx as int].dead_since is None,
            // a node in cooldown is never selected while any node is eligible
            old(self).some_eligible(now) ==> old(self).connections@[idx as int].spec_eligible(
                now,
            ),
            // round robin: nothing eligible stands between the cursor and the pick
            old(self).some_eligible(now) ==> forall|k: int|
                0 <= k < cyc_dist(
                    old(self).cursor as int,
                    idx as int,
                    old(self).connections@.len() as int,
                ) ==> !old(self).connections@[wrap_add(
                    old(self).cursor as int,
                    k,
                    old(self).connections@.len() as int,
                )].spec_eligible(now),
            // a fully healthy scan returns the cursor itself
            old(self).connections@[old(self).cursor as int].spec_eligible(now) ==> idx == old(
                self,
            ).cursor,
            // all dead: force-select the least-recently-dead node
            !old(self).some_eligible(now) ==> old(self).connections@[idx as int].dead_since
                is Some && forall|j: int|
                0 <= j < old(self).connections@.len() ==> old(self).connections@[idx as int].dead_since->0 <= (#[trigger] old(self).connections@[j]).dead_since->0,
    {
        let n = self.connections.len();
        let choice = match self.scan_eligible(now) {
            Some(i) => i,
            None => {
                proof {
                    assert forall|j: int|
                        0 <= j < self.connections@.len() implies (#[trigger] self.connections@[j]).dead_since is Some by {
                        assert(!self.connections@[j].spec_eligible(now));
                    }
                }
                self.least_recently_dead()
            },
        };
        proof {
            if self.connections@[self.cursor as int].spec_eligible(now) && choice != self.cursor {
                assert(wrap_add(self.cursor as int, 0, n as int) == self.cursor as int);
                assert(cyc_dist(self.cursor as int, choice as int, n as int) > 0);
                assert(false);
            }
        }
        let mut picked = Connection::new(String::new());
        self.connections.set_and_swap(choice, &mut picked);
        picked.dead_since = None;
        self.connections.set_and_swap(choice, &mut picked);
        self.cursor = if choice + 1 < n {
            choice + 1
        } else {
            0
        };
        choice
    }

    /// The first eligible node in cyclic order from the cursor, if any.
    fn scan_eligible(&self, now: u64) -> (r: Option<usize>)
        requires
            self.wf(),
        ensures
            r is Some ==> {
                &&& r->0 < self.connections@.len()
                &&& self.connections@[r->0 as int].spec_eligible(now)
                &&& forall|k: int|
                    0 <= k < cyc_dist(
                        self.cursor as int,
                        r->0 as int,
                        self.connections@.len() as int,
                    ) ==> !self.connections@[wrap_add(
                        self.cursor as int,
                        k,
                        self.connections@.len() as int,
                    )].spec_eligible(now)
            },
            r is None ==> forall|j: int|
                0 <= j < self.connections@.len() ==> !(#[trigger] self.connections@[j]).spec_eligible(now),
            r is None ==> !self.some_eligible(now),
            r is Some ==> self.some_eligible(now),
    {
        let n = self.connections.len();
        let c = self.cursor;
        let mut k: usize = 0;
        while k < n
            invariant
                n == self.connections@.len(),
                c == self.cursor,
                self.wf(),
                k <= n,
                forall|m: int|
                    0 <= m < k ==> !self.connections@[wrap_add(
                        c as int,
                        m,
                        n as int,
                    )].spec_eligible(now),
            decreases n - k,
        {
            let pos = if k < n - c {
                c + k
            } else {
                k - (n - c)
            };
            proof {
                assert(pos == wrap_add(c as int, k as int, n as int));
            }
            if self.connections[pos].eligible(now) {
                proof {
                    assert(cyc_dist(c as int, pos as int, n as int) == k as int);
                }
                return Some(pos);
            }
            k = k + 1;
        }
        proof {
            // every slot was scanned: nothing is eligible
            assert forall|j: int| 0 <= j < n implies !self.connections@[j].spec_eligible(now) by {
                let m = cyc_dist(c as int, j, n as int);
                assert(wrap_add(c as int, m, n as int) == j);
            }
        }
        None
    }

    /// The node that has been dead the longest, when every node is dead.
    fn least_recently_dead(&self) -> (idx: usize)
        requires
            self.wf(),
            forall|j: int|
                0 <= j < self.connections@.len() ==> (#[trigger] self.connections@[j]).dead_since is Some,
        ensures
            idx < self.connections@.len(),
            forall|j: int|
                0 <= j < self.connections@.len() ==> self.connections@[idx as int].dead_since->0
                    <= (#[trigger] self.connections@[j]).dead_since->0,
    {
        let n = self.connections.len();
        let mut best: usize = 0;
        let mut best_t: u64 = match &self.connections[0].dead_since {
            Some(t) => *t,
            None => unreached(),
        };
        let mut j: usize = 1;
        while j < n
            invariant
                n == self.connections@.len(),
                self.wf(),
                forall|m: int|
                    0 <= m < n ==> (#[trigger] self.connections@[m]).dead_since is Some,
                1 <= j <= n,
                best < j,
                self.connections@[best as int].dead_since == Some(best_t),
                forall|m: int|
                    0 <= m < j ==> best_t <= (#[trigger] self.connections@[m]).dead_since->0,
            decreases n - j,
        {
            let t = match &self.connections[j].dead_since {
                Some(t) => *t,
                None => unreached(),
            };
            if t < best_t {
                best = j;
                best_t = t;
            }
            j = j + 1;
        }
        best
    }

    /// Records a successful exchange on the node: it is alive and its failure
    /// streak is over.
    pub fn report_success(&mut self, idx: usize)
        requires
            old(self).wf(),
            idx < old(self).connections@.len(),
        ensures
            final(self).wf(),
            final(self).connections@.len() == old(self).connections@.len(),
            final(self).cursor == old(self).cursor,
            final(self).last_sniff == old(self).last_sniff,
            final(self).sniff_interval == old(self).sniff_interval,
            forall|j: int|
                0 <= j < old(self).connections@.len() && j != idx ==> final(self).connections@[j] == old(self).connections@[j],
            final(self).connections@[idx as int].url == old(self).connections@[idx as int].url,
            final(self).connections@[idx as int].headers == old(self).connections@[idx as int].headers,
            final(self).connections@[idx as int].weight == old(self).connections@[idx as int].weight,
            final(self).connections@[idx as int].dead_since is None,
            final(self).connections@[idx as int].failed_attempts == 0u64,
    {
        let mut conn = Connection::new(String::new());
        self.connections.set_and_swap(idx, &mut conn);
        conn.dead_since = None;
        conn.failed_attempts = 0;
        self.connections.set_and_swap(idx, &mut conn);
    }

    /// Records a connection-level failure on the node: it is dead as of
    /// `now`, and its failure streak grows (the resurrect cooldown doubles).
    pub fn report_failure(&mut self, idx: usize, now: u64)
        requires
            old(self).wf(),
            idx < old(self).connections@.len(),
        ensures
            final(self).wf(),
            final(self).connections@.len() == old(self).connections@.len(),
            final(self).cursor == old(self).cursor,
            final(self).last_sniff == old(self).last_sniff,
            final(self).sniff_interval == old(self).sniff_interval,
            forall|j: int|
                0 <= j < old(self).connections@.len() && j != idx ==> final(self).connections@[j] == old(self).connections@[j],
            final(self).connections@[idx as int].url == old(self).connections@[idx as int].url,
            final(self).connections@[idx as int].headers == old(self).connections@[idx as int].headers,
            final(self).connections@[idx as int].weight == old(self).connections@[idx as int].weight,
            final(self).connections@[idx as int].dead_since == Some(now),
            final(self).connections@[idx as int].failed_attempts == if old(self).connections@[idx as int].failed_attempts == u64::MAX {
                u64::MAX
            } else {
                (old(self).connections@[idx as int].failed_attempts + 1) as u64
            },
    {
        let mut conn = Connection::new(String::new());
        self.connections.set_and_swap(idx, &mut conn);
        conn.dead_since = Some(now);
        if conn.failed_attempts < u64::MAX {
            conn.failed_attempts = conn.failed_attempts + 1;
        }
        self.connections.set_and_swap(idx, &mut conn);
    }

    /// Whether a membership refresh is due at `now`: never without a sniff
    /// interval; otherwise once the interval has passed since the last one
    /// (or at once, if none ever ran).
    pub open spec fn spec_due_for_sniff(self, now: u64) -> bool {
        match self.sniff_interval {
            Option::None => false,
            Option::Some(iv) => match self.last_sniff {
                Option::None => true,
                Option::Some(t) => now >= t + iv,
            },
        }
    }

    /// Whether a membership refresh is due at `now`.
    pub fn due_for_sniff(&self, now: u64) -> (r: bool)
        ensures
            r == self.spec_due_for_sniff(now),
    {
        match &self.sniff_interval {
            None => false,
            Some(iv) => match &self.last_sniff {
                None => true,
                Some(t) => now >= *t && now - *t >= *iv,
            },
        }
    }

    /// Whether some node already carries this URL, and where.
    fn find_url(&self, url: &String) -> (r: Option<usize>)
        ensures
            r is Some ==> r->0 < self.connections@.len() && self.connections@[r->0 as int].url@
                == url@,
            r is None ==> forall|j: int|
                0 <= j < self.connections@.len() ==> (#[trigger] self.connections@[j]).url@
                    != url@,
    {
        let n = self.connections.len();
        let mut j: usize = 0;
        while j < n
            invariant
                n == self.connections@.len(),
                j <= n,
                forall|m: int|
                    0 <= m < j ==> (#[trigger] self.connections@[m]).url@ != url@,
            decreases n - j,
        {
            if self.connections[j].url.eq(url) {
                return Some(j);
            }
            j = j + 1;
        }
        None
    }

    /// Replaces the membership with the sniffed node list, preserving the
    /// liveness bookkeeping of every URL that persists across the refresh and
    /// treating genuinely new URLs as alive. An empty sniffed list is a
    /// failed refresh and changes nothing but the sniff clock: the existing
    /// set is retained (never an empty pool).
    pub fn refresh(&mut self, urls: Vec<String>, now: u64)
        requires
            old(self).wf(),
        ensures
            final(self).wf(),
            final(self).last_sniff == Some(now),
            final(self).sniff_interval == old(self).sniff_interval,
            urls@.len() == 0 ==> final(self).connections@ == old(self).connections@ && final(self).cursor == old(self).cursor,
            urls@.len() > 0 ==> {
                &&& final(self).connections@.len() == urls@.len()
                &&& final(self).cursor == 0usize
                &&& forall|i: int|
                    0 <= i < urls@.len() ==> (#[trigger] final(self).connections@[i]).url@
                        == urls@[i]@
                &&& forall|i: int|
                    0 <= i < urls@.len() ==> liveness_carried(
                        old(self).connections@,
                        #[trigger] final(self).connections@[i],
                    )
            },
    {
        if urls.len() == 0 {
            self.last_sniff = Some(now);
            return ;
        }
        let fresh = self.carried_connections(&urls);
        self.connections = fresh;
        self.cursor = 0;
        self.last_sniff = Some(now);
    }

    /// The refreshed connection list for the sniffed URLs, carrying over the
    /// liveness bookkeeping of every URL already in the pool.
    fn carried_connections(&self, urls: &Vec<String>) -> (fresh: Vec<Connection>)
        ensures
            fresh@.len() == urls@.len(),
            forall|m: int| 0 <= m < urls@.len() ==> (#[trigger] fresh@[m]).url@ == urls@[m]@,
            forall|m: int|
                0 <= m < urls@.len() ==> liveness_carried(self.connections@, #[trigger] fresh@[m]),
    {
        let mut fresh: Vec<Connection> = Vec::new();
        let mut i: usize = 0;
        let n = urls.len();
        while i < n
            invariant
                n == urls@.len(),
                i <= n,
                fresh@.len() == i,
                forall|m: int| 0 <= m < i ==> (#[trigger] fresh@[m]).url@ == urls@[m]@,
                forall|m: int|
                    0 <= m < i ==> liveness_carried(self.connections@, #[trigger] fresh@[m]),
            decreases n - i,
        {
            let url = urls[i].clone();
            let mut conn = Connection::new(url);
            match self.find_url(&urls[i]) {
                Some(j) => {
                    conn.dead_since = match &self.connections[j].dead_since {
                        Some(t) => Some(*t),
                        None => None,
                    };
                    conn.failed_attempts = self.connections[j].failed_attempts;
                },
                None => {},
            }
            proof {
                assert(liveness_carried(self.connections@, conn));
            }
            fresh.push(conn);
            i = i + 1;
        }
        fresh
    }
}

} // verus!
