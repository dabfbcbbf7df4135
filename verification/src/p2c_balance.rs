//! Power-of-two-choices load balancing: the seeded draw of two distinct
//! candidate backends. Which of the two is less loaded is decided by the
//! caller from the backends' weights.
use crate::reservoir::{mix, splitmix_mix, SPLITMIX_GAMMA};
use vstd::prelude::*;
use vstd::wrapping::u64_specs::wrapping_add;

verus! {

/// Schema version of the p2c-balance surface.
pub const SCHEMA_VERSION: &'static str = "1.0.0";

/// The generator state a balancer seeded with `seed` starts from.
pub fn initial_state(seed: u64) -> (r: u64)
    ensures
        r == seed | 1,
{
    seed | 1
}

/// One splitmix64 draw: the advanced state and its output.
pub fn next_rand(state: u64) -> (r: (u64, u64))
    ensures
        r.0 == wrapping_add(state, SPLITMIX_GAMMA),
        r.1 == splitmix_mix(r.0),
{
    let s = state.wrapping_add(SPLITMIX_GAMMA);
    (s, mix(s))
}

/// The pair of distinct candidates drawn from two outputs `x`, `y` among
/// `n` backends: `x mod n`, and `y mod (n - 1)` skipping over the first.
pub open spec fn pair_of(x: u64, y: u64, n: nat) -> (nat, nat) {
    let a = x as nat % n;
    let b = y as nat % ((n - 1) as nat);
    (a, if b >= a {
        b + 1
    } else {
        b
    })
}

/// Two distinct candidate backends out of `n`, drawn from `state`: the
/// state after both draws and the pair.
pub fn sample_pair(state: u64, n: usize) -> (r: (u64, usize, usize))
    requires
        n >= 2,
    ensures
        r.0 == wrapping_add(wrapping_add(state, SPLITMIX_GAMMA), SPLITMIX_GAMMA),
        (r.1 as nat, r.2 as nat) == pair_of(
            splitmix_mix(wrapping_add(state, SPLITMIX_GAMMA)),
            splitmix_mix(r.0),
            n as nat,
        ),
        r.1 < n,
        r.2 < n,
        r.1 != r.2,
{
    let (s1, x) = next_rand(state);
    let (s2, y) = next_rand(s1);
    let a = (x % (n as u64)) as usize;
    let mut b = (y % (n as u64 - 1)) as usize;
    if b >= a {
        b = b + 1;
    }
    (s2, a, b)
}

} // verus!
