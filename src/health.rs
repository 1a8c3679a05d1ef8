use vstd::prelude::*;

use crate::config::Backend;

verus! {

/// The outcome of probing one backend during one probe cycle.
pub struct HealthResult {
    pub backend: Backend,
    pub healthy: bool,
}

/// A probe answer means "alive" exactly when its status is a success (2xx).
pub open spec fn is_success_status(status: u16) -> bool {
    200 <= status && status < 300
}

/// A probe outcome: `Some(status)` when the backend answered, `None` when the
/// probe failed to connect or timed out.
pub open spec fn probe_ok(outcome: Option<u16>) -> bool {
    match outcome {
        Some(status) => is_success_status(status),
        None => false,
    }
}

impl HealthResult {
    pub fn new(backend: Backend, healthy: bool) -> (r: Self)
        ensures
            r.backend == backend,
            r.healthy == healthy,
    {
        HealthResult { backend, healthy }
    }

    pub fn is_healthy(&self) -> (r: bool)
        ensures
            r == self.healthy,
    {
        self.healthy
    }
}

/// Whether a status code is in the success class.
pub fn is_success(status: u16) -> (r: bool)
    ensures
        r == is_success_status(status),
{
    200 <= status && status < 300
}

/// Whether a probe outcome counts as alive: an answer with a 2xx status.
/// Connection failures, timeouts and every other status count as dead.
pub fn is_healthy(outcome: Option<u16>) -> (r: bool)
    ensures
        r == probe_ok(outcome),
{
    match outcome {
        Some(status) => is_success(status),
        None => false,
    }
}

/// Pairs each backend with the outcome of its probe, in order; the result is
/// as long as the shorter of the two lists.
pub open spec fn probe_results_len(backends: Seq<Backend>, outcomes: Seq<Option<u16>>) -> int {
    if backends.len() <= outcomes.len() {
        backends.len() as int
    } else {
        outcomes.len() as int
    }
}

pub fn health_results(backends: &Vec<Backend>, outcomes: &Vec<Option<u16>>) -> (r: Vec<HealthResult>)
    ensures
        r@.len() == probe_results_len(backends@, outcomes@),
        forall|i: int|
            0 <= i < r@.len() ==> #[trigger] r@[i].backend == backends@[i] && r@[i].healthy
                == probe_ok(outcomes@[i]),
{
    let mut r: Vec<HealthResult> = Vec::new();
    let mut i: usize = 0;
    while i < backends.len() && i < outcomes.len()
        invariant
            i <= backends@.len(),
            i <= outcomes@.len(),
            r@.len() == i,
            forall|j: int|
                0 <= j < i ==> #[trigger] r@[j].backend == backends@[j] && r@[j].healthy
                    == probe_ok(outcomes@[j]),
        decreases backends.len() - i,
    {
        let outcome = outcomes[i];
        assert(outcome == outcomes@[i as int]);
        let healthy = is_healthy(outcome);
        let b = backends[i].clone();
        assert(b == backends@[i as int]);
        r.push(HealthResult::new(b, healthy));
        assert(r@[i as int].backend == backends@[i as int]);
        assert(r@[i as int].healthy == probe_ok(outcomes@[i as int]));
        i = i + 1;
    }
    r
}

/// The backends of a probe cycle that answered as alive, in probe order.
pub open spec fn healthy_backends_of(results: Seq<HealthResult>) -> Seq<Backend>
    decreases results.len(),
{
    if results.len() == 0 {
        Seq::empty()
    } else {
        let before = healthy_backends_of(results.drop_last());
        if results.last().healthy {
            before.push(results.last().backend)
        } else {
            before
        }
    }
}

pub fn healthy_backends(results: &Vec<HealthResult>) -> (r: Vec<Backend>)
    ensures
        r@ == healthy_backends_of(results@),
{
    let mut r: Vec<Backend> = Vec::new();
    let mut i: usize = 0;
    while i < results.len()
        invariant
            i <= results@.len(),
            r@ == healthy_backends_of(results@.subrange(0, i as int)),
        decreases results.len() - i,
    {
        assert(results@.subrange(0, i + 1).drop_last() =~= results@.subrange(0, i as int));
        if results[i].is_healthy() {
            r.push(results[i].backend.clone());
        }
        i = i + 1;
    }
    assert(results@.subrange(0, i as int) =~= results@);
    r
}

/// A backend is in the healthy set of a cycle exactly when one of the cycle's
/// results names it and says it answered as alive.
pub proof fn lemma_healthy_backends_contains(results: Seq<HealthResult>, b: Backend)
    ensures
        healthy_backends_of(results).contains(b) <==> exists|i: int|
            0 <= i < results.len() && #[trigger] results[i].backend == b
                && results[i].healthy,
    decreases results.len(),
{
    if results.len() > 0 {
        let init = results.drop_last();
        lemma_healthy_backends_contains(init, b);
        if healthy_backends_of(results).contains(b) {
            if !(results.last().healthy && results.last().backend == b) {
                assert(healthy_backends_of(init).contains(b)) by {
                    let k = choose|k: int|
                        0 <= k < healthy_backends_of(results).len()
                            && healthy_backends_of(results)[k] == b;
                    if results.last().healthy {
                        assert(healthy_backends_of(init)[k] == b);
                    }
                }
                let i = choose|i: int|
                    0 <= i < init.len() && #[trigger] init[i].backend == b && init[i].healthy;
                assert(results[i] == init[i]);
            } else {
                assert(results[results.len() - 1].backend == b);
            }
        }
        if exists|i: int|
            0 <= i < results.len() && #[trigger] results[i].backend == b
                && results[i].healthy {
            let i = choose|i: int|
                0 <= i < results.len() && #[trigger] results[i].backend == b
                    && results[i].healthy;
            if i == results.len() - 1 {
                assert(healthy_backends_of(results).last() == b);
            } else {
                assert(init[i] == results[i]);
                let k = choose|k: int|
                    0 <= k < healthy_backends_of(init).len() && healthy_backends_of(init)[k] == b;
                assert(healthy_backends_of(results)[k] == b);
            }
        }
    }
}

/// One probe cycle over `backends` with the given outcomes leaves a backend
/// eligible for routing exactly when one of its probes answered with a 2xx
/// status: a backend that answered otherwise, or not at all, is left out, and
/// one that answered 2xx is kept.
pub proof fn lemma_probe_cycle_membership(
    backends: Seq<Backend>,
    outcomes: Seq<Option<u16>>,
    results: Seq<HealthResult>,
    b: Backend,
)
    requires
        results.len() == probe_results_len(backends, outcomes),
        forall|i: int|
            0 <= i < results.len() ==> #[trigger] results[i].backend == backends[i]
                && results[i].healthy == probe_ok(outcomes[i]),
    ensures
        healthy_backends_of(results).contains(b) <==> exists|i: int|
            0 <= i < probe_results_len(backends, outcomes) && #[trigger] backends[i] == b
                && probe_ok(outcomes[i]),
{
    lemma_healthy_backends_contains(results, b);
    if healthy_backends_of(results).contains(b) {
        let i = choose|i: int|
            0 <= i < results.len() && #[trigger] results[i].backend == b
                && results[i].healthy;
        assert(backends[i] == b && probe_ok(outcomes[i]));
    }
    if exists|i: int|
        0 <= i < probe_results_len(backends, outcomes) && #[trigger] backends[i] == b
            && probe_ok(outcomes[i]) {
        let i = choose|i: int|
            0 <= i < probe_results_len(backends, outcomes) && #[trigger] backends[i] == b
                && probe_ok(outcomes[i]);
        assert(results[i].backend == backends[i]);
        assert(results[i].healthy == probe_ok(outcomes[i]));
        assert(results[i].backend == b && results[i].healthy);
    }
}

} // verus!
