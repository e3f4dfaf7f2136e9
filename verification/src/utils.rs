//! Utility helpers: message rate limiting, plus the hashing and UTF-8-safe
//! truncation helpers under their usual names.

use std::time::Instant;
use vstd::prelude::*;

use crate::clock::{nanos_between, now};

pub use crate::hashing::{compute_message_hash, compute_payload_hash, MAX_HASH_BYTES};
pub use crate::preview::{safe_truncate_index, MAX_UI_DISPLAY_SIZE, PAYLOAD_PREVIEW_SIZE};

verus! {

/// What one rate check does to a window holding `count` accepted messages:
/// a window that has lasted a second restarts with this message in it;
/// otherwise the message is accepted while the count is under `max`.
/// Returns the new count and whether the message is accepted.
pub open spec fn rate_step(count: nat, max: nat, window_over: bool) -> (nat, bool) {
    if window_over {
        (1, true)
    } else if count < max {
        (count + 1, true)
    } else {
        (count, false)
    }
}

/// Tracks message rate to prevent flooding.
pub struct RateLimiter {
    pub window_start: Instant,
    pub message_count: usize,
    pub max_messages_per_second: usize,
}

impl RateLimiter {
    /// A limiter admitting `max_messages_per_second` messages per second,
    /// with a window starting now and nothing counted yet.
    pub fn new(max_messages_per_second: usize) -> (res: RateLimiter)
        ensures
            res.message_count == 0,
            res.max_messages_per_second == max_messages_per_second,
    {
        RateLimiter { window_start: now(), message_count: 0, max_messages_per_second }
    }

    /// Checks whether a message arriving at `at` is accepted, where
    /// `window_over` says whether a second or more passed since the window
    /// started; a window that is over restarts at `at`.
    pub fn check_and_update_at(&mut self, at: Instant, window_over: bool) -> (res: bool)
        ensures
            (final(self).message_count as nat, res) == rate_step(
                old(self).message_count as nat,
                old(self).max_messages_per_second as nat,
                window_over,
            ),
            final(self).max_messages_per_second == old(self).max_messages_per_second,
            window_over ==> final(self).window_start == at,
            !window_over ==> final(self).window_start == old(self).window_start,
    {
        if window_over {
            self.window_start = at;
            self.message_count = 1;
            true
        } else if self.message_count < self.max_messages_per_second {
            self.message_count = self.message_count + 1;
            true
        } else {
            false
        }
    }

    /// Checks whether a message can be accepted now, and counts it: the
    /// window restarts once it has lasted a second.
    pub fn check_and_update(&mut self) -> (res: bool)
        ensures
            exists|over: bool, at: Instant| #[trigger] rate_checked(*old(self), *final(self), res, over, at),
            final(self).window_start == old(self).window_start ==> (final(self).message_count as nat, res)
                == rate_step(old(self).message_count as nat, old(self).max_messages_per_second as nat, false),
    {
        let at = now();
        let elapsed = nanos_between(&self.window_start, &at);
        let over = elapsed >= 1_000_000_000;
        let ghost before = *self;
        let res = self.check_and_update_at(at, over);
        proof {
            assert(rate_checked(before, *self, res, over, at));
        }
        res
    }
}

/// A check of `old` answered `res` and left `new`, the clock read as `at`
/// and the window over or not (`over`): the count and the answer follow
/// `rate_step`; a window that is over restarts at `at`, a later instant than
/// its start; otherwise the window's start stays.
pub open spec fn rate_checked(old: RateLimiter, new: RateLimiter, res: bool, over: bool, at: Instant) -> bool {
    &&& (new.message_count as nat, res) == rate_step(
        old.message_count as nat,
        old.max_messages_per_second as nat,
        over,
    )
    &&& new.max_messages_per_second == old.max_messages_per_second
    &&& if over {
        new.window_start == at && at != old.window_start
    } else {
        new.window_start == old.window_start
    }
}

/// A window's start moves only when the window restarts: a check that
/// leaves the start as it was found its window not over, so it counted
/// within that window (see `law_window_admits_at_most_max`).
pub proof fn law_window_start_moves_on_restart(old: RateLimiter, new: RateLimiter, res: bool, over: bool, at: Instant)
    requires
        rate_checked(old, new, res, over, at),
        new.window_start == old.window_start,
    ensures
        !over,
        (new.message_count as nat, res) == rate_step(old.message_count as nat, old.max_messages_per_second as nat, false),
{
}

/// Messages accepted by `k` checks within one window that starts with
/// `count` messages accepted.
pub open spec fn accepted_in_window(count: nat, max: nat, k: nat) -> nat
    decreases k,
{
    if k == 0 {
        0
    } else {
        let (c, ok) = rate_step(count, max, false);
        (if ok {
            1nat
        } else {
            0nat
        }) + accepted_in_window(c, max, (k - 1) as nat)
    }
}

/// A window admits at most its limit: `k` checks within one window that
/// starts with `count <= max` messages accept exactly
/// `min(k, max - count)` of them.
pub proof fn law_window_admits_at_most_max(count: nat, max: nat, k: nat)
    requires
        count <= max,
    ensures
        accepted_in_window(count, max, k) == if k < max - count {
            k
        } else {
            (max - count) as nat
        },
    decreases k,
{
    if k > 0 {
        if count < max {
            law_window_admits_at_most_max(count + 1, max, (k - 1) as nat);
        } else {
            law_window_admits_at_most_max(count, max, (k - 1) as nat);
        }
    }
}

/// How many of `answers` are `true`.
pub open spec fn count_true(answers: Seq<bool>) -> nat
    decreases answers.len(),
{
    if answers.len() == 0 {
        0
    } else {
        count_true(answers.drop_last()) + if answers.last() {
            1nat
        } else {
            0nat
        }
    }
}

/// `answers` are the answers of checks made one after another, leading
/// from `states[0]` through `states[i + 1]` after the `i`-th check, the
/// clock read as it may be (see `RateLimiter::check_and_update`).
pub open spec fn rate_checks(states: Seq<RateLimiter>, answers: Seq<bool>) -> bool {
    &&& states.len() == answers.len() + 1
    &&& forall|i: int| 0 <= i < answers.len() ==> #[trigger] rate_check_at(states, answers, i)
}

/// The `i`-th check of a run answered `answers[i]` and led from
/// `states[i]` to `states[i + 1]`, for some reading of the clock.
pub open spec fn rate_check_at(states: Seq<RateLimiter>, answers: Seq<bool>, i: int) -> bool {
    exists|over: bool, at: Instant| #[trigger] rate_checked(states[i], states[i + 1], answers[i], over, at)
}

/// Along a run of checks in which only the first may open a new window,
/// the window's count is what it started with (nothing, when the first
/// check opened it) plus the messages accepted, and stays within the limit.
proof fn lemma_window_run(states: Seq<RateLimiter>, answers: Seq<bool>, j: int)
    requires
        rate_checks(states, answers),
        forall|i: int| 1 <= i < answers.len() ==> #[trigger] states[i + 1].window_start == states[i].window_start,
        states[0].max_messages_per_second >= 1,
        1 <= j <= answers.len(),
    ensures
        ({
            let opened = states[1].window_start != states[0].window_start;
            let c = states[0].message_count as nat;
            let max = states[0].max_messages_per_second as nat;
            &&& states[j].max_messages_per_second == states[0].max_messages_per_second
            &&& (opened || c <= max) ==> {
                &&& states[j].message_count == (if opened { 0 } else { c }) + count_true(answers.take(j))
                &&& states[j].message_count <= max
            }
            &&& !(opened || c <= max) ==> count_true(answers.take(j)) == 0 && states[j].message_count == c
        }),
    decreases j,
{
    assert(answers.take(j).drop_last() =~= answers.take(j - 1));
    let i = j - 1;
    assert(rate_check_at(states, answers, i));
    let (over, at) = choose|over: bool, at: Instant| #[trigger] rate_checked(states[i], states[i + 1], answers[i], over, at);
    assert(rate_checked(states[i], states[i + 1], answers[i], over, at));
    if j == 1 {
        assert(answers.take(0) =~= Seq::<bool>::empty());
    } else {
        lemma_window_run(states, answers, j - 1);
        law_window_start_moves_on_restart(states[i], states[i + 1], answers[i], over, at);
    }
}

/// A window admits at most its limit, over any run of checks: along checks
/// made one after another in which only the first may open a new window
/// (so that they all count in one window), at most `max` messages are
/// accepted, and, when the first check found its window still open with
/// `c <= max` messages in it, at most `max - c`. A limiter fresh from
/// `RateLimiter::new` has `c == 0`; every window of a longer run is such a
/// stretch, from the check that opened it to the check before the next
/// one that does.
pub proof fn law_window_run_admits_at_most_max(states: Seq<RateLimiter>, answers: Seq<bool>)
    requires
        rate_checks(states, answers),
        forall|i: int| 1 <= i < answers.len() ==> #[trigger] states[i + 1].window_start == states[i].window_start,
        states[0].max_messages_per_second >= 1,
    ensures
        count_true(answers) <= states[0].max_messages_per_second,
        answers.len() > 0 && states[1].window_start == states[0].window_start && states[0].message_count
            <= states[0].max_messages_per_second ==> count_true(answers) + states[0].message_count
            <= states[0].max_messages_per_second,
{
    if answers.len() > 0 {
        lemma_window_run(states, answers, answers.len() as int);
        assert(answers.take(answers.len() as int) =~= answers);
    }
}

/// The count of a window never exceeds the limit (or one, for the message
/// that opens a window): every check keeps `count <= max(max, 1)`.
pub proof fn law_count_stays_bounded(count: nat, max: nat, window_over: bool)
    requires
        count <= max || count <= 1,
    ensures
        rate_step(count, max, window_over).0 <= max || rate_step(count, max, window_over).0 <= 1,
{
}

} // verus!
