//! Bounded retrying of an operation that may fail for a while (a node that
//! is still booting): a pause follows every failed attempt, and the
//! operation is given up after a fixed number of attempts.
use vstd::prelude::*;

verus! {

/// How many times the cluster bootstrap is attempted.
pub const BOOTSTRAP_ATTEMPTS: u32 = 20;

/// How many times the Talos API of a node is probed before giving up.
pub const TALOS_API_ATTEMPTS: u32 = 30;

/// What to do after an attempt.
#[derive(Debug, Clone, Copy, PartialEq, Eq, Structural)]
pub enum RetryStep {
    /// The attempt succeeded: stop, successfully.
    Done,
    /// The attempt failed: pause, then attempt again.
    RetryAfterPause,
    /// The attempt failed and it was the last one: pause, then give up.
    GiveUpAfterPause,
}

/// The progress of a bounded retry.
#[derive(Debug, Clone, Copy, PartialEq, Eq, Structural)]
pub struct Retry {
    pub attempts: u32,
    pub max_attempts: u32,
}

/// The step after an attempt with outcome `ok`, when `attempts` attempts
/// (this one included) have been made out of `max`.
pub open spec fn step_after(attempts: int, max: int, ok: bool) -> RetryStep {
    if ok {
        RetryStep::Done
    } else if attempts < max {
        RetryStep::RetryAfterPause
    } else {
        RetryStep::GiveUpAfterPause
    }
}

/// Where a retry ends when its attempts have the outcomes `outcomes`, having
/// made `done` attempts before them: `Some(true)` on success, `Some(false)`
/// when it gives up, `None` when the outcomes run out first.
pub open spec fn run_from(done: int, max: int, outcomes: Seq<bool>) -> Option<bool>
    decreases outcomes.len(),
{
    if outcomes.len() == 0 {
        None
    } else {
        match step_after(done + 1, max, outcomes[0]) {
            RetryStep::Done => Some(true),
            RetryStep::GiveUpAfterPause => Some(false),
            RetryStep::RetryAfterPause => run_from(done + 1, max, outcomes.drop_first()),
        }
    }
}

impl Retry {
    /// A retry that allows `max_attempts` attempts.
    pub fn new(max_attempts: u32) -> (r: Retry)
        ensures
            r.attempts == 0,
            r.max_attempts == max_attempts,
    {
        Retry { attempts: 0, max_attempts }
    }

    /// Records the outcome of one more attempt and says what to do next.
    pub fn record(&mut self, ok: bool) -> (r: RetryStep)
        requires
            old(self).attempts < old(self).max_attempts,
        ensures
            final(self).attempts == old(self).attempts + 1,
            final(self).max_attempts == old(self).max_attempts,
            r == step_after(final(self).attempts as int, final(self).max_attempts as int, ok),
    {
        self.attempts = self.attempts + 1;
        if ok {
            RetryStep::Done
        } else if self.attempts < self.max_attempts {
            RetryStep::RetryAfterPause
        } else {
            RetryStep::GiveUpAfterPause
        }
    }
}

/// A retry that allows `max` attempts (at least one) succeeds exactly when
/// one of its first `max` attempts succeeds, gives up exactly when its first
/// `max` attempts all fail, and never makes more than `max` attempts.
pub proof fn lemma_retry_outcome(max: int, outcomes: Seq<bool>)
    requires
        max >= 1,
    ensures
        run_from(0, max, outcomes) == Some(true) <==> exists|i: int|
            0 <= i < max && i < outcomes.len() && #[trigger] outcomes[i],
        run_from(0, max, outcomes) == Some(false) <==> (outcomes.len() >= max && forall|i: int|
            0 <= i < max ==> !#[trigger] outcomes[i]),
        outcomes.len() >= max ==> run_from(0, max, outcomes.take(max)) == run_from(0, max, outcomes),
{
    lemma_run_from(0, max, outcomes);
    if outcomes.len() >= max {
        lemma_run_from(0, max, outcomes.take(max));
        assert forall|i: int| 0 <= i < max implies outcomes.take(max)[i] == outcomes[i] by {}
        if exists|i: int| 0 <= i < max && i < outcomes.len() && #[trigger] outcomes[i] {
            let i = choose|i: int| 0 <= i < max && i < outcomes.len() && #[trigger] outcomes[i];
            assert(outcomes.take(max)[i]);
        }
    }
}

proof fn lemma_run_from(done: int, max: int, outcomes: Seq<bool>)
    requires
        0 <= done < max,
    ensures
        run_from(done, max, outcomes) == Some(true) <==> exists|i: int|
            0 <= i < max - done && i < outcomes.len() && #[trigger] outcomes[i],
        run_from(done, max, outcomes) == Some(false) <==> (outcomes.len() >= max - done
            && forall|i: int| 0 <= i < max - done ==> !#[trigger] outcomes[i]),
    decreases outcomes.len(),
{
    if outcomes.len() > 0 && !outcomes[0] && done + 1 < max {
        let rest = outcomes.drop_first();
        lemma_run_from(done + 1, max, rest);
        if exists|i: int| 0 <= i < max - done && i < outcomes.len() && #[trigger] outcomes[i] {
            let i = choose|i: int| 0 <= i < max - done && i < outcomes.len() && #[trigger] outcomes[i];
            assert(rest[i - 1]);
        }
        if exists|i: int| 0 <= i < max - done - 1 && i < rest.len() && #[trigger] rest[i] {
            let i = choose|i: int| 0 <= i < max - done - 1 && i < rest.len() && #[trigger] rest[i];
            assert(outcomes[i + 1]);
        }
        if outcomes.len() >= max - done && forall|i: int| 0 <= i < max - done ==> !#[trigger] outcomes[i] {
            assert forall|i: int| 0 <= i < max - done - 1 implies !#[trigger] rest[i] by {
                assert(!outcomes[i + 1]);
            }
        }
        if rest.len() >= max - done - 1 && forall|i: int| 0 <= i < max - done - 1 ==> !#[trigger] rest[i] {
            assert forall|i: int| 0 <= i < max - done implies !#[trigger] outcomes[i] by {
                if i > 0 {
                    assert(!rest[i - 1]);
                }
            }
        }
    } else if outcomes.len() > 0 && !outcomes[0] {
        assert(done + 1 == max);
        if exists|i: int| 0 <= i < max - done && i < outcomes.len() && #[trigger] outcomes[i] {
            let i = choose|i: int| 0 <= i < max - done && i < outcomes.len() && #[trigger] outcomes[i];
            assert(i == 0);
        }
    } else if outcomes.len() > 0 {
        assert(outcomes[0]);
    }
}

} // verus!
