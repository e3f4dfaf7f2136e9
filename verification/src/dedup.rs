//! Content-based message deduplication over a sliding time window. Checking
//! and recording are separate, so that a message dropped after the check
//! (by the rate limiter) does not make its own retransmission a duplicate.

use std::collections::hash_map::DefaultHasher;
use std::hash::Hasher;
use std::time::Instant;
use vstd::prelude::*;
use vstd::std_specs::hash::DefaultHasherAdditionalSpecFns;
use vstd::string::StringSliceAdditionalSpecFns;

use crate::clock::{nanos_between, now};

verus! {

/// The hashes in a list of (hash, time recorded) pairs.
pub open spec fn hashes_of(entries: Seq<(u64, Instant)>) -> Set<u64> {
    Set::new(|h: u64| exists|i: int| 0 <= i < entries.len() && (#[trigger] entries[i]).0 == h)
}

/// The entries (with their ages) that a check keeps, among the first `n`:
/// all of them, or when `sweep`, those younger than `ttl`.
pub open spec fn check_pairs(
    entries: Seq<(u64, Instant)>,
    ages: Seq<u128>,
    ttl: u128,
    sweep: bool,
    n: nat,
) -> Seq<((u64, Instant), u128)>
    decreases n,
{
    if n == 0 {
        Seq::empty()
    } else {
        let r = check_pairs(entries, ages, ttl, sweep, (n - 1) as nat);
        if !sweep || ages[n - 1] < ttl {
            r.push((entries[n - 1], ages[n - 1]))
        } else {
            r
        }
    }
}

/// Whether the first entry of `hash` from position `i` on is younger than
/// `ttl` (false when there is none).
pub open spec fn answer_from(pairs: Seq<((u64, Instant), u128)>, hash: u64, ttl: u128, i: int) -> bool
    decreases pairs.len() - i,
{
    if i < 0 || i >= pairs.len() {
        false
    } else if pairs[i].0.0 == hash {
        pairs[i].1 < ttl
    } else {
        answer_from(pairs, hash, ttl, i + 1)
    }
}

/// A check of `hash` on `old`, with the clock read as `at`, `since_sweep`
/// nanoseconds after the last sweep and `ages` (one per recorded entry),
/// answered `res` and left `new`: the entries kept are those of
/// `check_pairs` (a sweep when more than a window passed since the last
/// one, then done at `at`), and the answer is `answer_from` over them.
pub open spec fn checked(
    old: Deduper,
    new: Deduper,
    hash: u64,
    res: bool,
    at: Instant,
    since_sweep: u128,
    ages: Seq<u128>,
) -> bool {
    let pairs = check_pairs(old.hashes@, ages, old.ttl_nanos, since_sweep > old.ttl_nanos, ages.len());
    &&& ages.len() == old.hashes@.len()
    &&& new.hashes@ == pairs.map_values(|p: ((u64, Instant), u128)| p.0)
    &&& new.last_sweep == if since_sweep > old.ttl_nanos {
        at
    } else {
        old.last_sweep
    }
    &&& new.ttl_nanos == old.ttl_nanos
    &&& new.enabled == old.enabled
    &&& res == answer_from(pairs, hash, old.ttl_nanos, 0)
}

/// Content-based message deduplication over a sliding time window.
pub struct Deduper {
    /// Recorded hashes with the time each was recorded.
    pub hashes: Vec<(u64, Instant)>,
    /// When hashes older than the window were last forgotten.
    pub last_sweep: Instant,
    /// How long a recorded hash counts as recent, in nanoseconds.
    pub ttl_nanos: u128,
    pub enabled: bool,
}

impl Deduper {
    /// The hashes recorded and not yet swept away.
    pub open spec fn recorded(&self) -> Set<u64> {
        hashes_of(self.hashes@)
    }

    /// An enabled deduper with nothing recorded and the given window.
    pub fn new(ttl_nanos: u128) -> (res: Deduper)
        ensures
            res.recorded() == Set::<u64>::empty(),
            res.ttl_nanos == ttl_nanos,
            res.enabled,
    {
        let res = Deduper { hashes: Vec::new(), last_sweep: now(), ttl_nanos, enabled: true };
        proof {
            assert(res.recorded() =~= Set::<u64>::empty());
        }
        res
    }

    /// Hash of a message's full content: the key's bytes, a `0xFF`
    /// separator (so `("ab", "c")` and `("a", "bc")` differ), then the
    /// payload bytes.
    pub fn hash_message(key: &str, payload: &[u8]) -> (res: u64)
        ensures
            res == DefaultHasher::spec_finish(seq![key.spec_bytes(), seq![0xFFu8], payload@]),
    {
        let mut h = DefaultHasher::new();
        h.write(key.as_bytes());
        let sep: [u8; 1] = [0xFFu8];
        let sep_slice = sep.as_slice();
        proof {
            assert(sep_slice@ =~= seq![0xFFu8]);
        }
        h.write(sep_slice);
        h.write(payload);
        proof {
            assert(h@ =~= seq![key.spec_bytes(), seq![0xFFu8], payload@]);
        }
        h.finish()
    }

    /// Whether `hash` was recorded within the window, given the clock's
    /// readings: `at` now, `since_sweep` nanoseconds since the last sweep and
    /// `ages[i]` nanoseconds since entry `i` was recorded. Records nothing;
    /// once more than a window has passed since the last sweep, first forgets
    /// the entries whose age is not below the window (and the sweep happens
    /// at `at`). The answer is whether the first remaining entry of `hash`
    /// is younger than the window.
    pub fn seen_recently_at(&mut self, hash: u64, at: Instant, since_sweep: u128, ages: &Vec<u128>) -> (res: bool)
        requires
            ages@.len() == old(self).hashes@.len(),
        ensures
            checked(*old(self), *final(self), hash, res, at, since_sweep, ages@),
            final(self).recorded().subset_of(old(self).recorded()),
            res ==> final(self).recorded().contains(hash),
            final(self).ttl_nanos == old(self).ttl_nanos,
            final(self).enabled == old(self).enabled,
    {
        let ttl = self.ttl_nanos;
        let sweep = since_sweep > ttl;
        let n = self.hashes.len();
        let ghost old_hashes = self.hashes@;
        let mut kept: Vec<(u64, Instant)> = Vec::new();
        let mut kept_ages: Vec<u128> = Vec::new();
        let mut i: usize = 0;
        while i < n
            invariant
                n == old_hashes.len(),
                ages@.len() == n,
                i <= n,
                self.hashes@ == old_hashes,
                self.ttl_nanos == ttl,
                self.enabled == old(self).enabled,
                self.last_sweep == old(self).last_sweep,
                kept@.len() == kept_ages@.len(),
                forall|j: int| 0 <= j < kept@.len() ==> (#[trigger] kept@[j]) == check_pairs(old_hashes, ages@, ttl, sweep, i as nat)[j].0,
                forall|j: int| 0 <= j < kept_ages@.len() ==> (#[trigger] kept_ages@[j]) == check_pairs(old_hashes, ages@, ttl, sweep, i as nat)[j].1,
                kept@.len() == check_pairs(old_hashes, ages@, ttl, sweep, i as nat).len(),
                hashes_of(kept@).subset_of(hashes_of(old_hashes)),
            decreases n - i,
        {
            let e = self.hashes[i];
            let a = ages[i];
            let ghost prev = check_pairs(old_hashes, ages@, ttl, sweep, i as nat);
            proof {
                assert(check_pairs(old_hashes, ages@, ttl, sweep, (i + 1) as nat) == if !sweep || a < ttl {
                    prev.push((e, a))
                } else {
                    prev
                });
            }
            if !sweep || a < ttl {
                let ghost before = kept@;
                kept.push(e);
                kept_ages.push(a);
                proof {
                    assert forall|x: u64| hashes_of(kept@).contains(x) implies hashes_of(old_hashes).contains(x) by {
                        let j = choose|j: int| 0 <= j < kept@.len() && (#[trigger] kept@[j]).0 == x;
                        if j < before.len() {
                            assert(before[j] == kept@[j]);
                            assert(hashes_of(before).contains(x));
                        } else {
                            assert(old_hashes[i as int].0 == x);
                        }
                    }
                }
            }
            i = i + 1;
        }
        let ghost pairs = check_pairs(old_hashes, ages@, ttl, sweep, n as nat);
        proof {
            assert(kept@ =~= pairs.map_values(|p: ((u64, Instant), u128)| p.0));
        }
        self.hashes = kept;
        if sweep {
            self.last_sweep = at;
        }
        let ghost mid = *self;
        proof {
            assert(checked(*old(self), mid, hash, answer_from(pairs, hash, ttl, 0), at, since_sweep, ages@));
        }
        let mut j: usize = 0;
        while j < self.hashes.len()
            invariant
                *self == mid,
                checked(*old(self), mid, hash, answer_from(pairs, hash, ttl, 0), at, since_sweep, ages@),
                hashes_of(mid.hashes@).subset_of(hashes_of(old(self).hashes@)),
                pairs == check_pairs(old(self).hashes@, ages@, ttl, sweep, ages@.len()),
                ttl == old(self).ttl_nanos,
                j <= self.hashes@.len(),
                self.hashes@.len() == kept_ages@.len(),
                self.hashes@ == pairs.map_values(|p: ((u64, Instant), u128)| p.0),
                forall|k: int| 0 <= k < kept_ages@.len() ==> #[trigger] kept_ages@[k] == pairs[k].1,
                answer_from(pairs, hash, ttl, 0) == answer_from(pairs, hash, ttl, j as int),
                self.ttl_nanos == ttl,
            decreases self.hashes.len() - j,
        {
            let (h, _t) = self.hashes[j];
            if h == hash {
                proof {
                    assert(pairs[j as int].0.0 == hash);
                    assert(self.hashes@[j as int].0 == hash);
                }
                return kept_ages[j] < ttl;
            }
            proof {
                assert(pairs[j as int].0.0 != hash);
            }
            j = j + 1;
        }
        false
    }

    /// Whether `hash` was recorded within the window, by the clock (see
    /// `seen_recently_at`, which this calls with the current readings).
    /// Records nothing.
    pub fn seen_recently(&mut self, hash: u64) -> (res: bool)
        ensures
            exists|at: Instant, since_sweep: u128, ages: Seq<u128>|
                #[trigger] checked(*old(self), *final(self), hash, res, at, since_sweep, ages),
            final(self).recorded().subset_of(old(self).recorded()),
            res ==> final(self).recorded().contains(hash),
            final(self).ttl_nanos == old(self).ttl_nanos,
            final(self).enabled == old(self).enabled,
    {
        let at = now();
        let since_sweep = nanos_between(&self.last_sweep, &at);
        let mut ages: Vec<u128> = Vec::new();
        let mut i: usize = 0;
        while i < self.hashes.len()
            invariant
                i <= self.hashes@.len(),
                ages@.len() == i,
            decreases self.hashes.len() - i,
        {
            ages.push(nanos_between(&self.hashes[i].1, &at));
            i = i + 1;
        }
        self.seen_recently_at(hash, at, since_sweep, &ages)
    }

    /// Records `hash` as seen at `at`: its entry takes the time `at` where
    /// it has one (the first, in place), else the entry is appended. The
    /// other entries, the last sweep and the settings stay as they were.
    pub fn record_at(&mut self, hash: u64, at: Instant)
        ensures
            recorded_at(*old(self), *final(self), hash, at),
            final(self).recorded() == old(self).recorded().insert(hash),
    {
        let mut i: usize = 0;
        while i < self.hashes.len()
            invariant
                i <= self.hashes@.len(),
                first_hash_index(self.hashes@, hash, 0) == first_hash_index(self.hashes@, hash, i as int),
                self.hashes@ == old(self).hashes@,
                *self == *old(self),
            decreases self.hashes.len() - i,
        {
            if self.hashes[i].0 == hash {
                let ghost before = self.hashes@;
                self.hashes.set(i, (hash, at));
                proof {
                    lemma_hashes_of_update(before, i as int, hash, at);
                }
                return;
            }
            i = i + 1;
        }
        let ghost before = self.hashes@;
        self.hashes.push((hash, at));
        proof {
            lemma_hashes_of_push(before, hash, at);
        }
    }

    /// Records `hash` as seen now (see `record_at`). Call only once the
    /// message is accepted.
    pub fn record(&mut self, hash: u64)
        ensures
            exists|at: Instant| #[trigger] recorded_at(*old(self), *final(self), hash, at),
            final(self).recorded() == old(self).recorded().insert(hash),
            final(self).ttl_nanos == old(self).ttl_nanos,
            final(self).enabled == old(self).enabled,
    {
        let at = now();
        self.record_at(hash, at);
    }
}

/// The position of the first entry of `hash` from `i` on.
pub open spec fn first_hash_index(entries: Seq<(u64, Instant)>, hash: u64, i: int) -> Option<int>
    decreases entries.len() - i,
{
    if i < 0 || i >= entries.len() {
        None
    } else if entries[i].0 == hash {
        Some(i)
    } else {
        first_hash_index(entries, hash, i + 1)
    }
}

/// Recording `hash` at `at` led from `old` to `new`: the first entry of
/// `hash` now holds the time `at`, or a new entry `(hash, at)` is appended
/// when there was none; nothing else changes.
pub open spec fn recorded_at(old: Deduper, new: Deduper, hash: u64, at: Instant) -> bool {
    &&& new.hashes@ == match first_hash_index(old.hashes@, hash, 0) {
        Some(i) => old.hashes@.update(i, (hash, at)),
        None => old.hashes@.push((hash, at)),
    }
    &&& new.last_sweep == old.last_sweep
    &&& new.ttl_nanos == old.ttl_nanos
    &&& new.enabled == old.enabled
}

/// Giving an entry of `hash` a new time keeps the set of hashes.
proof fn lemma_hashes_of_update(before: Seq<(u64, Instant)>, i: int, hash: u64, at: Instant)
    requires
        0 <= i < before.len(),
        before[i].0 == hash,
    ensures
        hashes_of(before.update(i, (hash, at))) == hashes_of(before).insert(hash),
{
    let after = before.update(i, (hash, at));
    assert forall|x: u64| hashes_of(before).insert(hash).contains(x) implies hashes_of(after).contains(x) by {
        if x != hash {
            let j = choose|j: int| 0 <= j < before.len() && (#[trigger] before[j]).0 == x;
            assert(after[j].0 == x);
        } else {
            assert(after[i].0 == x);
        }
    }
    assert forall|x: u64| hashes_of(after).contains(x) implies hashes_of(before).insert(hash).contains(x) by {
        let j = choose|j: int| 0 <= j < after.len() && (#[trigger] after[j]).0 == x;
        if j != i {
            assert(before[j].0 == x);
        }
    }
    assert(hashes_of(after) =~= hashes_of(before).insert(hash));
}

/// Appending an entry of `hash` adds `hash` to the set of hashes.
proof fn lemma_hashes_of_push(before: Seq<(u64, Instant)>, hash: u64, at: Instant)
    ensures
        hashes_of(before.push((hash, at))) == hashes_of(before).insert(hash),
{
    let after = before.push((hash, at));
    assert forall|x: u64| hashes_of(before).insert(hash).contains(x) implies hashes_of(after).contains(x) by {
        if x != hash {
            let j = choose|j: int| 0 <= j < before.len() && (#[trigger] before[j]).0 == x;
            assert(after[j].0 == x);
        } else {
            assert(after[before.len() as int].0 == x);
        }
    }
    assert forall|x: u64| hashes_of(after).contains(x) implies hashes_of(before).insert(hash).contains(x) by {
        let j = choose|j: int| 0 <= j < after.len() && (#[trigger] after[j]).0 == x;
        if j < before.len() {
            assert(before[j].0 == x);
        }
    }
    assert(hashes_of(after) =~= hashes_of(before).insert(hash));
}

/// Checking a message records nothing: when `after` is what a check of
/// `hash` (answered `seen`) left of `before`, a hash not recorded before the
/// check is reported unseen and is still not recorded.
pub proof fn law_check_records_nothing(before: Deduper, after: Deduper, hash: u64, seen: bool)
    requires
        after.recorded().subset_of(before.recorded()),
        seen ==> after.recorded().contains(hash),
        !before.recorded().contains(hash),
    ensures
        !after.recorded().contains(hash),
        !seen,
{
}

} // verus!
