//! The decisions of waiting for a child process with a timeout: poll, give
//! up once the timeout has passed, and otherwise sleep for a time that
//! doubles from one millisecond up to a ceiling of a tenth of a second.
use vstd::prelude::*;

use crate::text::{decimal, push_decimal, push_str};

verus! {

/// The first pause between two polls, in nanoseconds (one millisecond).
pub const INITIAL_SLEEP_NANOS: u64 = 1_000_000;

/// The longest pause between two polls, in nanoseconds (100 milliseconds).
pub const MAX_SLEEP_NANOS: u64 = 100_000_000;

/// What to do after one poll of the child.
#[derive(Debug, PartialEq, Eq, Structural)]
pub enum WaitDecision {
    /// The child has exited: hand back its status.
    Exited,
    /// The timeout has passed: kill the child, reap it and fail.
    TimedOut,
    /// Sleep, then poll again.
    Sleep,
}

/// The decision after a poll that found the child `exited` or not, with
/// `elapsed_nanos` since the start and a timeout of `timeout_nanos`.
/// An exited child wins over a passed timeout; the timeout has passed only
/// when strictly more time than it has elapsed.
pub open spec fn spec_wait_decision(exited: bool, elapsed_nanos: u128, timeout_nanos: u128) -> WaitDecision {
    if exited {
        WaitDecision::Exited
    } else if elapsed_nanos > timeout_nanos {
        WaitDecision::TimedOut
    } else {
        WaitDecision::Sleep
    }
}

pub fn wait_decision(exited: bool, elapsed_nanos: u128, timeout_nanos: u128) -> (r: WaitDecision)
    ensures
        r == spec_wait_decision(exited, elapsed_nanos, timeout_nanos),
{
    if exited {
        WaitDecision::Exited
    } else if elapsed_nanos > timeout_nanos {
        WaitDecision::TimedOut
    } else {
        WaitDecision::Sleep
    }
}

/// The pause after one of `current` nanoseconds: twice as long, but no more
/// than the ceiling.
pub open spec fn spec_next_sleep(current: nat) -> nat {
    if 2 * current <= MAX_SLEEP_NANOS { 2 * current } else { MAX_SLEEP_NANOS as nat }
}

pub fn next_sleep_nanos(current: u64) -> (r: u64)
    ensures
        r == spec_next_sleep(current as nat),
{
    if current <= MAX_SLEEP_NANOS / 2 {
        current * 2
    } else {
        MAX_SLEEP_NANOS
    }
}

/// The pause before poll `k + 1`, counting from the first pause.
pub open spec fn sleep_after(k: nat) -> nat
    decreases k,
{
    if k == 0 {
        INITIAL_SLEEP_NANOS as nat
    } else {
        spec_next_sleep(sleep_after((k - 1) as nat))
    }
}

/// Every pause of a wait lies between one millisecond and the ceiling, and
/// no pause is shorter than the one before it.
pub proof fn lemma_sleep_bounded_and_growing(k: nat)
    ensures
        INITIAL_SLEEP_NANOS <= sleep_after(k) <= MAX_SLEEP_NANOS,
        sleep_after(k) <= sleep_after(k + 1),
    decreases k,
{
    if k > 0 {
        lemma_sleep_bounded_and_growing((k - 1) as nat);
    }
}

/// Once the ceiling is reached, every later pause stays at it.
pub proof fn lemma_sleep_stays_at_ceiling(k: nat, j: nat)
    requires
        sleep_after(k) == MAX_SLEEP_NANOS,
        k <= j,
    ensures
        sleep_after(j) == MAX_SLEEP_NANOS,
    decreases j - k,
{
    if k < j {
        lemma_sleep_stays_at_ceiling(k, (j - 1) as nat);
    }
}

/// The error text of a wait that ran past a timeout of `secs` whole
/// seconds.
pub open spec fn spec_timeout_message(secs: u64) -> Seq<char> {
    "command exceeded "@ + decimal(secs as nat) + " seconds"@
}

pub fn timeout_message(secs: u64) -> (r: String)
    ensures
        r@ == spec_timeout_message(secs),
{
    let mut r = String::new();
    push_str(&mut r, "command exceeded ");
    push_decimal(&mut r, secs as u128);
    push_str(&mut r, " seconds");
    r
}

} // verus!
