//! The integer core of the retry policy: how many attempts a policy allows,
//! what follows a failed attempt, and the FNV-1a hash of a few words that
//! seeds the deterministic jitter of a retry delay.
use crate::replay_ledger::{fnv1a, fnv1a_spec, le_bytes, push_le};
use vstd::prelude::*;

verus! {

/// Schema version of the retry surface.
pub const SCHEMA_VERSION: &'static str = "1.0.0";

/// The little-endian bytes of `words`, one after another.
pub open spec fn words_le(words: Seq<u64>) -> Seq<u8>
    decreases words.len(),
{
    if words.len() == 0 {
        Seq::empty()
    } else {
        words_le(words.drop_last()) + le_bytes(words.last())
    }
}

/// FNV-1a over the little-endian bytes of `words`.
pub fn fnv1a_words(words: &[u64]) -> (h: u64)
    ensures
        h == fnv1a_spec(words_le(words@)),
{
    let mut buf: Vec<u8> = Vec::new();
    let mut i: usize = 0;
    while i < words.len()
        invariant
            i <= words@.len(),
            buf@ == words_le(words@.take(i as int)),
        decreases words@.len() - i,
    {
        proof {
            assert(words@.take(i + 1).drop_last() =~= words@.take(i as int));
        }
        push_le(&mut buf, words[i]);
        i += 1;
    }
    proof {
        assert(words@.take(words@.len() as int) =~= words@);
    }
    fnv1a(buf.as_slice())
}

/// The attempts a policy allows when asked for `max_attempts`: at least one.
pub open spec fn allowed_attempts(max_attempts: usize) -> usize {
    if max_attempts == 0 {
        1
    } else {
        max_attempts
    }
}

/// The attempts a policy allows when asked for `max_attempts`: at least one.
pub fn attempts_allowed(max_attempts: usize) -> (r: usize)
    ensures
        r == allowed_attempts(max_attempts),
        r >= 1,
{
    if max_attempts == 0 {
        1
    } else {
        max_attempts
    }
}

/// Whether another attempt is allowed after attempt number `attempt`
/// (1-based) failed.
pub fn should_retry(max_attempts: usize, attempt: usize) -> (r: bool)
    ensures
        r == (attempt < max_attempts),
{
    attempt < max_attempts
}

/// What follows a failed attempt.
#[derive(Debug, Clone, Copy, PartialEq, Eq, Structural)]
pub enum RetryStep {
    /// No attempt is left: report the last error.
    GiveUp,
    /// Wait out the delay of retry `retry_index` (0-based), then run attempt
    /// `next_attempt`.
    RetryAfter {
        /// Which retry this is, from 0.
        retry_index: usize,
        /// The attempt to run next (1-based).
        next_attempt: usize,
    },
}

/// The step after attempt number `attempt` (1-based) failed under a policy
/// allowing `max_attempts` attempts.
pub open spec fn step_after(max_attempts: usize, attempt: usize) -> RetryStep {
    if attempt < max_attempts {
        RetryStep::RetryAfter { retry_index: (attempt - 1) as usize, next_attempt: (attempt + 1) as usize }
    } else {
        RetryStep::GiveUp
    }
}

/// The step after attempt number `attempt` (1-based) failed: retry while
/// attempts remain, with the delay of the retry numbered from 0, else give up.
pub fn after_failure(max_attempts: usize, attempt: usize) -> (r: RetryStep)
    requires
        attempt >= 1,
    ensures
        r == step_after(max_attempts, attempt),
{
    if should_retry(max_attempts, attempt) {
        RetryStep::RetryAfter { retry_index: attempt - 1, next_attempt: attempt + 1 }
    } else {
        RetryStep::GiveUp
    }
}

/// The attempts that failing every time runs: starting from attempt `from`,
/// how many attempts are made before the policy gives up.
pub open spec fn attempts_until_give_up(max_attempts: usize, from: usize) -> nat
    decreases max_attempts - from,
{
    if from >= 1 && from < max_attempts {
        1 + attempts_until_give_up(max_attempts, (from + 1) as usize)
    } else {
        1
    }
}

/// An operation that always fails is attempted exactly as many times as the
/// policy allows, its retries numbered 0, 1, ... in turn.
pub proof fn law_always_failing_runs_every_attempt(max_attempts: usize)
    ensures
        attempts_until_give_up(allowed_attempts(max_attempts), 1) == allowed_attempts(max_attempts),
{
    lemma_attempts_from(allowed_attempts(max_attempts), 1);
}

proof fn lemma_attempts_from(max_attempts: usize, from: usize)
    requires
        1 <= from <= max_attempts,
    ensures
        attempts_until_give_up(max_attempts, from) == max_attempts - from + 1,
    decreases max_attempts - from,
{
    if from < max_attempts {
        lemma_attempts_from(max_attempts, (from + 1) as usize);
    }
}

} // verus!
