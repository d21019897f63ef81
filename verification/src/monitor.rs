//! Coalescing of hotplug notifications into descriptor scans.
//!
//! At most one scan is in flight. Changes that arrive while a scan runs are
//! remembered as a single pending follow-up, and results from scans that were
//! superseded (by an offline snapshot) are rejected by generation number.
use vstd::prelude::*;

verus! {

/// The abstract state of a [`ScanGate`].
pub struct GateState {
    pub generation: nat,
    pub active: bool,
    pub pending: bool,
}

/// The state after a scan request, and what the request returns.
pub open spec fn after_request(s: GateState) -> (GateState, Option<nat>) {
    if s.active {
        (GateState { pending: true, ..s }, None)
    } else {
        (GateState { generation: s.generation + 1, active: true, pending: s.pending }, Some(s.generation + 1))
    }
}

/// The state after a scan with the given generation reports back, and what
/// the report returns: `None` for a stale result, otherwise whether a
/// follow-up scan is owed.
pub open spec fn after_complete(s: GateState, generation: nat) -> (GateState, Option<bool>) {
    if !s.active || s.generation != generation {
        (s, None)
    } else {
        (GateState { generation: s.generation, active: false, pending: false }, Some(s.pending))
    }
}

/// The state after in-flight and queued work is invalidated.
pub open spec fn after_invalidate(s: GateState) -> GateState {
    GateState { generation: s.generation + 1, active: false, pending: false }
}

/// The state after `n` further requests.
pub open spec fn after_requests(s: GateState, n: nat) -> GateState
    decreases n,
{
    if n == 0 {
        s
    } else {
        after_request(after_requests(s, (n - 1) as nat)).0
    }
}

/// A follow-up scan is owed only while a scan is in flight.
pub open spec fn consistent(s: GateState) -> bool {
    s.pending ==> s.active
}

/// The state of a gate that was just created.
pub open spec fn initial_gate() -> GateState {
    GateState { generation: 0, active: false, pending: false }
}

/// Keep one scan in flight and remember changes that arrive during it.
pub struct ScanGate {
    generation: u64,
    active: bool,
    pending: bool,
}

impl ScanGate {
    #[verifier::type_invariant]
    spec fn owed_only_while_scanning(self) -> bool {
        self.pending ==> self.active
    }
}

impl View for ScanGate {
    type V = GateState;

    closed spec fn view(&self) -> GateState {
        GateState { generation: self.generation as nat, active: self.active, pending: self.pending }
    }
}

impl Default for ScanGate {
    fn default() -> (gate: Self)
        ensures
            gate@ == initial_gate(),
    {
        ScanGate { generation: 0, active: false, pending: false }
    }
}

impl ScanGate {
    /// The number of the latest scan started or invalidated.
    pub fn generation(&self) -> (generation: u64)
        ensures
            generation == self@.generation,
            consistent(self@),
    {
        proof {
            use_type_invariant(self);
        }
        self.generation
    }

    pub fn is_scanning(&self) -> (scanning: bool)
        ensures
            scanning == self@.active,
            consistent(self@),
    {
        proof {
            use_type_invariant(self);
        }
        self.active
    }

    /// Start a scan unless one is in flight; a refused request is remembered
    /// as one pending follow-up.
    pub fn request(&mut self) -> (started: Option<u64>)
        requires
            old(self)@.active || old(self)@.generation < u64::MAX,
        ensures
            final(self)@ == after_request(old(self)@).0,
            consistent(final(self)@),
            started matches Some(g) ==> after_request(old(self)@).1 == Some(g as nat),
            started is None ==> after_request(old(self)@).1 is None,
    {
        if self.active {
            self.pending = true;
            return None;
        }
        self.active = true;
        self.generation = self.generation + 1;
        Some(self.generation)
    }

    /// `None` rejects a stale result; `Some(true)` requests one follow-up scan.
    pub fn complete(&mut self, generation: u64) -> (outcome: Option<bool>)
        ensures
            (final(self)@, outcome) == after_complete(old(self)@, generation as nat),
            consistent(final(self)@),
    {
        proof {
            use_type_invariant(&*self);
        }
        if !self.active || self.generation != generation {
            return None;
        }
        let followup = self.pending;
        self.pending = false;
        self.active = false;
        Some(followup)
    }

    /// Entering an offline snapshot invalidates both in-flight and queued work.
    pub fn invalidate(&mut self)
        requires
            old(self)@.generation < u64::MAX,
        ensures
            final(self)@ == after_invalidate(old(self)@),
            consistent(final(self)@),
    {
        self.pending = false;
        self.active = false;
        self.generation = self.generation + 1;
    }
}

/// While a scan is in flight, a request never starts a second one: it only
/// records that a follow-up is owed.
pub proof fn law_single_scan_in_flight(s: GateState)
    requires
        s.active,
    ensures
        after_request(s).1 is None,
        after_request(s).0 == (GateState { pending: true, ..s }),
{
}

/// A result is accepted only from the scan of the current generation, and
/// only once.
pub proof fn law_only_current_result_accepted(s: GateState, g: nat)
    ensures
        after_complete(s, g).1 is Some ==> s.active && g == s.generation,
        after_complete(s, g).1 is Some ==> after_complete(after_complete(s, g).0, g).1 is None,
{
}

/// One call made on a gate.
pub enum GateCall {
    Request,
    /// A scan of the given generation reports back.
    Complete(nat),
    Invalidate,
}

/// The state after one call.
pub open spec fn apply_call(s: GateState, c: GateCall) -> GateState {
    match c {
        GateCall::Request => after_request(s).0,
        GateCall::Complete(g) => after_complete(s, g).0,
        GateCall::Invalidate => after_invalidate(s),
    }
}

/// The state after a sequence of calls.
pub open spec fn run(s: GateState, calls: Seq<GateCall>) -> GateState
    decreases calls.len(),
{
    if calls.len() == 0 {
        s
    } else {
        apply_call(run(s, calls.drop_last()), calls.last())
    }
}

/// The state of a new gate after the first `j` of the calls.
pub open spec fn state_before(calls: Seq<GateCall>, j: int) -> GateState {
    run(initial_gate(), calls.take(j))
}

/// Whether call `i` is a request that starts a scan.
pub open spec fn starts_scan(calls: Seq<GateCall>, i: int) -> bool {
    0 <= i < calls.len() && calls[i] is Request && !state_before(calls, i).active
}

/// The generation number that call `i` hands out when it starts a scan.
pub open spec fn token(calls: Seq<GateCall>, i: int) -> nat {
    state_before(calls, i).generation + 1
}

/// Whether call `j` ends the scan of generation `t`: an invalidation, or the
/// report of that scan being accepted.
pub open spec fn ends_scan(calls: Seq<GateCall>, j: int, t: nat) -> bool {
    calls[j] is Invalidate || (calls[j] == GateCall::Complete(t) && after_complete(state_before(calls, j), t).1 is Some)
}

/// Whether the scan started by call `i` is still running after all the calls.
pub open spec fn still_running(calls: Seq<GateCall>, i: int) -> bool {
    &&& starts_scan(calls, i)
    &&& forall|j: int| i < j < calls.len() ==> !#[trigger] ends_scan(calls, j, token(calls, i))
}

/// Whether a scan result of generation `t` can no longer be accepted.
pub open spec fn stale(s: GateState, t: nat) -> bool {
    t < s.generation || (t == s.generation && !s.active)
}

proof fn lemma_run_last(s: GateState, calls: Seq<GateCall>, j: int)
    requires
        0 < j <= calls.len(),
    ensures
        run(s, calls.take(j)) == apply_call(run(s, calls.take(j - 1)), calls[j - 1]),
{
    assert(calls.take(j).drop_last() =~= calls.take(j - 1));
}

proof fn lemma_prefix_of_prefix(calls: Seq<GateCall>, j: int)
    requires
        0 <= j < calls.len(),
    ensures
        state_before(calls, j) == state_before(calls.drop_last(), j),
        state_before(calls, calls.len() - 1) == run(initial_gate(), calls.drop_last()),
        run(initial_gate(), calls) == apply_call(run(initial_gate(), calls.drop_last()), calls.last()),
{
    assert(calls.take(j) =~= calls.drop_last().take(j));
    assert(calls.take(calls.len() - 1) =~= calls.drop_last());
}

/// Every gate state reached by calls keeps a follow-up owed only while a scan
/// is in flight.
pub proof fn law_calls_keep_consistency(s: GateState, calls: Seq<GateCall>)
    requires
        consistent(s),
    ensures
        consistent(run(s, calls)),
    decreases calls.len(),
{
    if calls.len() > 0 {
        law_calls_keep_consistency(s, calls.drop_last());
    }
}

proof fn lemma_generation_grows(calls: Seq<GateCall>, k: int, m: int)
    requires
        0 <= k <= m <= calls.len(),
    ensures
        state_before(calls, k).generation <= state_before(calls, m).generation,
    decreases m - k,
{
    if k < m {
        lemma_generation_grows(calls, k, m - 1);
        lemma_run_last(initial_gate(), calls, m);
    }
}

/// The generation handed out by a started scan is at most the generation of
/// every later state, so each request that starts a scan hands out a number
/// larger than every number handed out before it.
pub proof fn law_tokens_increase(calls: Seq<GateCall>, i: int, m: int)
    requires
        starts_scan(calls, i),
        i < m <= calls.len(),
    ensures
        token(calls, i) <= state_before(calls, m).generation,
        after_request(state_before(calls, m)).1 matches Some(n) ==> token(calls, i) < n,
        starts_scan(calls, m) ==> token(calls, i) < token(calls, m),
{
    lemma_run_last(initial_gate(), calls, i + 1);
    lemma_generation_grows(calls, i + 1, m);
}

proof fn lemma_stale_persists(s: GateState, t: nat, calls: Seq<GateCall>)
    requires
        stale(s, t),
    ensures
        stale(run(s, calls), t),
    decreases calls.len(),
{
    if calls.len() > 0 {
        lemma_stale_persists(s, t, calls.drop_last());
    }
}

/// Once a scan was invalidated, or its result was accepted, a result for it
/// is rejected and changes nothing, whatever calls come in between.
pub proof fn law_stale_results_rejected(s: GateState, t: nat, c: GateCall, later: Seq<GateCall>)
    requires
        t <= s.generation,
        c is Invalidate || (c == GateCall::Complete(t) && after_complete(s, t).1 is Some),
    ensures
        after_complete(run(apply_call(s, c), later), t) == (run(apply_call(s, c), later), None::<bool>),
{
    assert(stale(apply_call(s, c), t));
    lemma_stale_persists(apply_call(s, c), t, later);
}

/// A new gate is scanning exactly when some request started a scan that no
/// later call ended (see `ends_scan`), and its generation number is then the
/// number of that scan.
pub proof fn law_scanning_history(calls: Seq<GateCall>)
    ensures
        run(initial_gate(), calls).active <==> exists|i: int| #[trigger] still_running(calls, i),
        forall|i: int|
            #[trigger] still_running(calls, i) ==> run(initial_gate(), calls).generation == token(calls, i),
    decreases calls.len(),
{
    if calls.len() > 0 {
        let n = calls.len() as int;
        let p = calls.drop_last();
        let c = calls.last();
        law_scanning_history(p);
        let s = run(initial_gate(), p);
        lemma_prefix_of_prefix(calls, n - 1);
        assert(calls[n - 1] == c);
        assert forall|i: int| 0 <= i < n - 1 implies (#[trigger] still_running(calls, i)) == (still_running(p, i)
            && !ends_scan(calls, n - 1, token(calls, i))) by {
            lemma_prefix_of_prefix(calls, i);
            assert(calls[i] == p[i]);
            if still_running(p, i) && !ends_scan(calls, n - 1, token(calls, i)) {
                assert forall|j: int| i < j < n implies !#[trigger] ends_scan(calls, j, token(calls, i)) by {
                    if j < n - 1 {
                        lemma_prefix_of_prefix(calls, j);
                        assert(calls[j] == p[j]);
                        assert(!ends_scan(p, j, token(p, i)));
                    }
                }
            }
            if still_running(calls, i) {
                assert forall|j: int| i < j < n - 1 implies !#[trigger] ends_scan(p, j, token(p, i)) by {
                    lemma_prefix_of_prefix(calls, j);
                    assert(calls[j] == p[j]);
                    assert(!ends_scan(calls, j, token(calls, i)));
                }
            }
        }
        assert(still_running(calls, n - 1) == (c is Request && !s.active));
        if c is Request && !s.active {
            assert(still_running(calls, n - 1));
            assert forall|i: int| #[trigger] still_running(calls, i) implies i == n - 1 by {
                if i < n - 1 {
                    assert(still_running(p, i));
                }
            }
        } else if c is Request {
            let i = choose|i: int| #[trigger] still_running(p, i);
            assert(still_running(calls, i));
        } else if c is Invalidate {
            assert forall|i: int| !#[trigger] still_running(calls, i) by {
                if 0 <= i < n - 1 {
                    assert(ends_scan(calls, n - 1, token(calls, i)));
                }
            }
        } else {
            let g = c->Complete_0;
            if s.active && s.generation == g {
                assert forall|i: int| !#[trigger] still_running(calls, i) by {
                    if 0 <= i < n - 1 && still_running(p, i) {
                        lemma_prefix_of_prefix(calls, i);
                        assert(token(calls, i) == g);
                        assert(ends_scan(calls, n - 1, token(calls, i)));
                    }
                }
            } else if s.active {
                let i = choose|i: int| #[trigger] still_running(p, i);
                assert(!ends_scan(calls, n - 1, token(calls, i)));
                assert(still_running(calls, i));
            }
        }
        assert forall|i: int| #[trigger] still_running(calls, i) implies run(initial_gate(), calls).generation
            == token(calls, i) by {
            if i < n - 1 {
                lemma_prefix_of_prefix(calls, i);
                assert(still_running(p, i));
            }
        }
    }
}

/// Any burst of changes during a scan is answered by exactly one follow-up
/// scan, and a scan without changes during it by none; when the follow-up
/// finishes without further changes, no more work is scheduled.
pub proof fn law_burst_yields_one_followup(s: GateState, burst: nat)
    requires
        !s.active,
        consistent(s),
    ensures
        ({
            let (started, g) = after_request(s);
            let during = after_requests(started, burst);
            let (done, followup) = after_complete(during, g.unwrap());
            let (again, g2) = after_request(done);
            let (idle, second) = after_complete(again, g2.unwrap());
            &&& followup == Some(burst > 0)
            &&& !done.active
            &&& !done.pending
            &&& second == Some(false)
            &&& !idle.active
            &&& !idle.pending
        }),
{
    let (started, g) = after_request(s);
    lemma_requests_while_active(started, burst);
}

proof fn lemma_requests_while_active(s: GateState, n: nat)
    requires
        s.active,
    ensures
        after_requests(s, n).active,
        after_requests(s, n).generation == s.generation,
        n >= 1 ==> after_requests(s, n).pending,
        n == 0 ==> after_requests(s, n).pending == s.pending,
    decreases n,
{
    if n > 0 {
        lemma_requests_while_active(s, (n - 1) as nat);
    }
}

/// When no device change arrives during a scan, its completion leaves the
/// gate idle: no periodic work follows, and a repeated report is rejected.
pub proof fn law_finished_scan_is_idle(s: GateState)
    requires
        !s.active,
        !s.pending,
    ensures
        ({
            let (started, g) = after_request(s);
            let (done, followup) = after_complete(started, g.unwrap());
            &&& followup == Some(false)
            &&& !done.active
            &&& after_complete(done, g.unwrap()).1 is None
        }),
{
}

} // verus!
