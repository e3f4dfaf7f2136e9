//! Byte-string search used by key parsing.

use vstd::prelude::*;

verus! {

/// `pat` occurs in `b` starting at byte `i`.
pub open spec fn occurs_at(b: Seq<u8>, pat: Seq<u8>, i: int) -> bool {
    0 <= i && i + pat.len() <= b.len() && b.subrange(i, i + pat.len()) == pat
}

/// The first position at or after `i` where `pat` occurs in `b`.
pub open spec fn find_from(b: Seq<u8>, pat: Seq<u8>, i: int) -> Option<int>
    decreases b.len() + 1 - i,
{
    if i < 0 || i + pat.len() > b.len() {
        None
    } else if occurs_at(b, pat, i) {
        Some(i)
    } else {
        find_from(b, pat, i + 1)
    }
}

/// `find_from` finds an occurrence, and no earlier one after `i`.
pub proof fn lemma_find_from(b: Seq<u8>, pat: Seq<u8>, i: int)
    requires
        i >= 0,
    ensures
        match find_from(b, pat, i) {
            Some(j) => i <= j && occurs_at(b, pat, j) && forall|k: int|
                i <= k < j ==> !occurs_at(b, pat, k),
            None => forall|k: int| i <= k ==> !occurs_at(b, pat, k),
        },
    decreases b.len() + 1 - i,
{
    if i + pat.len() > b.len() {
    } else if occurs_at(b, pat, i) {
    } else {
        lemma_find_from(b, pat, i + 1);
        assert forall|k: int| i <= k < i + 1 implies !occurs_at(b, pat, k) by {}
    }
}

/// Whether `pat` occurs in `b` at position `i`.
pub fn matches_at(b: &[u8], pat: &[u8], i: usize) -> (res: bool)
    ensures
        res == occurs_at(b@, pat@, i as int),
{
    if pat.len() > b.len() || i > b.len() - pat.len() {
        return false;
    }
    let mut j: usize = 0;
    while j < pat.len()
        invariant
            i + pat@.len() <= b@.len(),
            i + pat.len() <= b.len(),
            j <= pat@.len(),
            forall|k: int| 0 <= k < j ==> b@[i + k] == pat@[k],
        decreases pat.len() - j,
    {
        if b[i + j] != pat[j] {
            proof {
                assert(b@.subrange(i as int, i + pat@.len())[j as int] != pat@[j as int]);
            }
            return false;
        }
        j = j + 1;
    }
    proof {
        assert(b@.subrange(i as int, i + pat@.len()) =~= pat@);
    }
    true
}

/// The first position at or after `from` where `pat` occurs in `b`.
pub fn find(b: &[u8], pat: &[u8], from: usize) -> (res: Option<usize>)
    ensures
        match find_from(b@, pat@, from as int) {
            Some(j) => res == Some(j as usize),
            None => res is None,
        },
{
    if pat.len() == 0 {
        proof {
            if from <= b.len() {
                assert(b@.subrange(from as int, from as int) =~= pat@);
            }
        }
        return if from <= b.len() {
            Some(from)
        } else {
            None
        };
    }
    let mut i: usize = from;
    while pat.len() <= b.len() && i <= b.len() - pat.len()
        invariant
            from <= i,
            pat@.len() > 0,
            find_from(b@, pat@, from as int) == find_from(b@, pat@, i as int),
        decreases b.len() - i,
    {
        if matches_at(b, pat, i) {
            return Some(i);
        }
        i = i + 1;
    }
    None
}

} // verus!
