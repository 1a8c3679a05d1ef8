use vstd::prelude::*;

use crate::config::{Backend, Config};
use crate::error::LBError;
use crate::health::{healthy_backends, healthy_backends_of, HealthResult};

verus! {

/// The cursor that follows `c`: one more, wrapping to zero past the largest
/// value.
pub open spec fn next_cursor(c: usize) -> usize {
    if c == usize::MAX {
        0
    } else {
        (c + 1) as usize
    }
}

/// The cursor after `n` selections that started at `c0`.
pub open spec fn cursor_after(c0: usize, n: nat) -> usize
    decreases n,
{
    if n == 0 {
        c0
    } else {
        next_cursor(cursor_after(c0, (n - 1) as nat))
    }
}

/// Round-robin routing: a cursor that every selection advances, and the
/// registry of backends currently eligible for routing. The registry is only
/// ever replaced whole.
pub struct RoundRobinPolicy {
    idx: usize,
    backends: Vec<Backend>,
}

impl RoundRobinPolicy {
    pub closed spec fn cursor(&self) -> usize {
        self.idx
    }

    pub closed spec fn registry(&self) -> Seq<Backend> {
        self.backends@
    }

    /// A policy whose registry holds the configured backends, with the cursor
    /// at zero.
    pub fn new(config: &Config) -> (r: Self)
        ensures
            r.cursor() == 0,
            r.registry() == config.backends@,
    {
        let backends = config.backends.clone();
        assert(backends@ =~= config.backends@);
        RoundRobinPolicy { idx: 0, backends }
    }

    /// A copy of the current registry, in order.
    pub fn snapshot(&self) -> (r: Vec<Backend>)
        ensures
            r@ == self.registry(),
    {
        let r = self.backends.clone();
        assert(r@ =~= self.backends@);
        r
    }

    /// Swaps in a whole new registry; the cursor is left as it was.
    pub fn replace(&mut self, new: Vec<Backend>)
        ensures
            final(self).registry() == new@,
            final(self).cursor() == old(self).cursor(),
    {
        self.backends = new;
    }

    /// Picks the backend at the cursor, taken modulo the snapshot's length,
    /// and advances the cursor. An empty snapshot is refused and leaves the
    /// cursor where it was.
    pub fn select(&mut self, snapshot: &Vec<Backend>) -> (r: Result<Backend, LBError>)
        ensures
            final(self).registry() == old(self).registry(),
            snapshot@.len() == 0 ==> r == Err::<Backend, LBError>(LBError::NoBackendsAvailable)
                && final(self).cursor() == old(self).cursor(),
            snapshot@.len() > 0 ==> r == Ok::<Backend, LBError>(
                snapshot@[(old(self).cursor() as int) % (snapshot@.len() as int)],
            ) && final(self).cursor() == next_cursor(old(self).cursor()),
    {
        if snapshot.len() == 0 {
            return Err(LBError::NoBackendsAvailable);
        }
        let i = self.idx % snapshot.len();
        self.idx = if self.idx == usize::MAX {
            0
        } else {
            self.idx + 1
        };
        Ok(snapshot[i].clone())
    }

    /// Routes one request: the address of the backend that the cursor picks
    /// from the current registry.
    pub fn next(&mut self) -> (r: Result<String, LBError>)
        ensures
            final(self).registry() == old(self).registry(),
            old(self).registry().len() == 0 ==> r == Err::<String, LBError>(
                LBError::NoBackendsAvailable,
            ) && final(self).cursor() == old(self).cursor(),
            old(self).registry().len() > 0 ==> r == Ok::<String, LBError>(
                old(self).registry()[(old(self).cursor() as int) % (old(self).registry().len() as int)].url,
            ) && final(self).cursor() == next_cursor(old(self).cursor()),
    {
        let snapshot = self.snapshot();
        match self.select(&snapshot) {
            Ok(b) => Ok(b.url),
            Err(e) => Err(e),
        }
    }

    /// Takes in the results of one probe cycle: the registry becomes the
    /// backends that answered as alive, in probe order.
    pub fn health_results(&mut self, results: Vec<HealthResult>)
        ensures
            final(self).registry() == healthy_backends_of(results@),
            final(self).cursor() == old(self).cursor(),
    {
        let healthy = healthy_backends(&results);
        self.replace(healthy);
    }
}

impl Default for RoundRobinPolicy {
    fn default() -> (r: Self)
        ensures
            r.cursor() == 0,
            r.registry().len() == 0,
    {
        RoundRobinPolicy { idx: 0, backends: Vec::new() }
    }
}

/// Round-robin coverage: as long as the cursor does not wrap, `n` selections
/// in a row that start from cursor `c0` over a stable set of `k` backends pick
/// the indices `c0 % k, (c0 + 1) % k, ..., (c0 + n - 1) % k`.
pub proof fn lemma_round_robin_cycle(c0: usize, k: int, n: nat)
    requires
        k >= 1,
        c0 + n <= usize::MAX + 1,
    ensures
        forall|i: nat| i < n ==> #[trigger] (cursor_after(c0, i) as int) % k == (c0 + i) % k,
{
    assert forall|i: nat| i < n implies #[trigger] (cursor_after(c0, i) as int) % k == (c0 + i)
        % k by {
        lemma_cursor_after_no_wrap(c0, i);
    }
}

/// Round-robin coverage, stated over the policy itself: when each state of
/// a run is what `select` (or `next`) leaves after the one before it picked
/// from a non-empty snapshot, and the cursor does not wrap, the `i`-th pick
/// takes index `(c0 + i) % k`, where `c0` is the first state's cursor and `k`
/// the snapshot's length.
pub proof fn lemma_round_robin_run(states: Seq<RoundRobinPolicy>, k: int)
    requires
        k >= 1,
        states.len() >= 1,
        states[0].cursor() + states.len() <= usize::MAX + 1,
        forall|i: int|
            0 <= i < states.len() - 1 ==> #[trigger] states[i + 1].cursor() == next_cursor(
                states[i].cursor(),
            ),
    ensures
        forall|i: int|
            0 <= i < states.len() ==> (#[trigger] states[i].cursor() as int) % k == (
            states[0].cursor() + i) % k,
{
    let c0 = states[0].cursor();
    assert forall|i: int| 0 <= i < states.len() implies states[i].cursor() == cursor_after(
        c0,
        i as nat,
    ) by {
        lemma_run_cursor(states, i);
    }
    lemma_round_robin_cycle(c0, k, states.len());
    assert forall|i: int| 0 <= i < states.len() implies (#[trigger] states[i].cursor() as int) % k
        == (c0 + i) % k by {
        assert(cursor_after(c0, i as nat) as int % k == (c0 + i as nat) % k);
    }
}

proof fn lemma_run_cursor(states: Seq<RoundRobinPolicy>, i: int)
    requires
        0 <= i < states.len(),
        forall|j: int|
            0 <= j < states.len() - 1 ==> #[trigger] states[j + 1].cursor() == next_cursor(
                states[j].cursor(),
            ),
    ensures
        states[i].cursor() == cursor_after(states[0].cursor(), i as nat),
    decreases i,
{
    if i > 0 {
        lemma_run_cursor(states, i - 1);
        assert(states[(i - 1) + 1].cursor() == next_cursor(states[i - 1].cursor()));
    }
}

proof fn lemma_cursor_after_no_wrap(c0: usize, i: nat)
    requires
        c0 + i <= usize::MAX,
    ensures
        cursor_after(c0, i) == c0 + i,
    decreases i,
{
    if i > 0 {
        lemma_cursor_after_no_wrap(c0, (i - 1) as nat);
    }
}

/// Once the registry has been replaced by `new` (what `replace` leaves), the
/// next snapshot (what `snapshot` returns) is exactly `new`, entry for entry:
/// never the old sequence, nor a mix of old and new entries.
pub proof fn lemma_replace_then_snapshot(after: RoundRobinPolicy, new: Seq<Backend>, snap: Seq<Backend>)
    requires
        after.registry() == new,
        snap == after.registry(),
    ensures
        snap == new,
        snap.len() == new.len(),
        forall|i: int| 0 <= i < snap.len() ==> snap[i] == new[i],
{
}

} // verus!
