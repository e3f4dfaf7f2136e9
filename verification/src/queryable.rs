//! The local key/value store of published payloads and how the queryable
//! answers a query from it: an exact key first, else the keys the query's
//! wildcard pattern matches.

use vstd::prelude::*;
use vstd::string::{StrSliceExecFns, StringExecFns};

use crate::connection::{split_all, split_on};
use crate::payload_store::str_equal;

verus! {

broadcast use vstd::string::group_string_axioms;

/// A pattern segment matches a key segment: it is `*` or equal to it.
pub open spec fn segment_matches(p: Seq<char>, k: Seq<char>) -> bool {
    p == seq!['*'] || p == k
}

/// The pattern's segments from `i` on match the key's segments from `j` on:
/// `**` matches any number of segments (none included), `*` exactly one,
/// any other segment only itself.
pub open spec fn segments_match_from(ps: Seq<Seq<char>>, ks: Seq<Seq<char>>, i: int, j: int) -> bool
    decreases ps.len() - i, ks.len() - j,
{
    if i < 0 || j < 0 || i >= ps.len() {
        i >= ps.len() && j >= ks.len()
    } else if ps[i] == seq!['*', '*'] {
        segments_match_from(ps, ks, i + 1, j) || (j < ks.len() && segments_match_from(ps, ks, i, j + 1))
    } else {
        j < ks.len() && segment_matches(ps[i], ks[j]) && segments_match_from(ps, ks, i + 1, j + 1)
    }
}

/// The query pattern matches a stored key, as key expressions match: their
/// `/`-separated segments correspond, a `**` segment standing for any
/// number of segments and a `*` segment for exactly one. So `demo/**`
/// matches `demo` and every key under `demo/`, and `telemetry/**/cpu`
/// matches `cpu` at any depth under `telemetry/`.
pub open spec fn query_matches(pattern: Seq<char>, key: Seq<char>) -> bool {
    segments_match_from(split_all(pattern, '/'), split_all(key, '/'), 0, 0)
}

/// No segment of `ps` from `i` on is `**`.
pub open spec fn no_double_star_from(ps: Seq<Seq<char>>, i: int) -> bool {
    forall|t: int| i <= t < ps.len() ==> #[trigger] ps[t] != seq!['*', '*']
}

/// The segments of `ps` from `i` on and of `ks` from `j` on are as many,
/// and each segment of `ps` is `*` or the corresponding one of `ks`.
pub open spec fn segmentwise_match(ps: Seq<Seq<char>>, ks: Seq<Seq<char>>, i: int, j: int) -> bool {
    &&& ps.len() - i == ks.len() - j
    &&& forall|t: int| 0 <= t < ps.len() - i ==> #[trigger] ps[i + t] == seq!['*'] || ps[i + t] == ks[j + t]
}

/// Without `**`, segments match exactly one for one.
proof fn lemma_match_without_double_star(ps: Seq<Seq<char>>, ks: Seq<Seq<char>>, i: int, j: int)
    requires
        0 <= i <= ps.len(),
        0 <= j <= ks.len(),
        no_double_star_from(ps, i),
    ensures
        segments_match_from(ps, ks, i, j) <==> segmentwise_match(ps, ks, i, j),
    decreases ps.len() - i,
{
    if i < ps.len() {
        assert(ps[i] != seq!['*', '*']);
        if j < ks.len() {
            lemma_match_without_double_star(ps, ks, i + 1, j + 1);
            if segmentwise_match(ps, ks, i, j) {
                assert(ps[i + 0] == seq!['*'] || ps[i + 0] == ks[j + 0]);
                assert forall|t: int| 0 <= t < ps.len() - (i + 1) implies #[trigger] ps[(i + 1) + t] == seq!['*']
                    || ps[(i + 1) + t] == ks[(j + 1) + t] by {
                    assert(ps[i + (t + 1)] == seq!['*'] || ps[i + (t + 1)] == ks[j + (t + 1)]);
                }
            }
            if segments_match_from(ps, ks, i, j) {
                assert forall|t: int| 0 <= t < ps.len() - i implies #[trigger] ps[i + t] == seq!['*'] || ps[i + t]
                    == ks[j + t] by {
                    if t > 0 {
                        assert(ps[(i + 1) + (t - 1)] == seq!['*'] || ps[(i + 1) + (t - 1)] == ks[(j + 1) + (t - 1)]);
                    }
                }
            }
        }
    }
}

/// A pattern without a `**` segment matches a key exactly when both have
/// as many `/`-separated segments and each segment of the pattern is `*`
/// or the key's segment at that place: a `*` stands for exactly one
/// segment.
pub proof fn law_single_star_matches_one_segment(pattern: Seq<char>, key: Seq<char>)
    requires
        no_double_star_from(split_all(pattern, '/'), 0),
    ensures
        query_matches(pattern, key) <==> {
            let ps = split_all(pattern, '/');
            let ks = split_all(key, '/');
            &&& ps.len() == ks.len()
            &&& forall|t: int| 0 <= t < ps.len() ==> #[trigger] ps[t] == seq!['*'] || ps[t] == ks[t]
        },
{
    let ps = split_all(pattern, '/');
    let ks = split_all(key, '/');
    lemma_match_without_double_star(ps, ks, 0, 0);
    if segmentwise_match(ps, ks, 0, 0) {
        assert forall|t: int| 0 <= t < ps.len() implies #[trigger] ps[t] == seq!['*'] || ps[t] == ks[t] by {
            assert(ps[0 + t] == seq!['*'] || ps[0 + t] == ks[0 + t]);
        }
    }
    if ps.len() == ks.len() && forall|t: int| 0 <= t < ps.len() ==> #[trigger] ps[t] == seq!['*'] || ps[t] == ks[t] {
        assert forall|t: int| 0 <= t < ps.len() - 0 implies #[trigger] ps[0 + t] == seq!['*'] || ps[0 + t] == ks[0 + t] by {
            assert(ps[t] == seq!['*'] || ps[t] == ks[t]);
        }
    }
}

/// A stored publication: key, payload text and encoding.
pub open spec fn entry_view(e: (String, String, String)) -> (Seq<char>, Seq<char>, Seq<char>) {
    (e.0@, e.1@, e.2@)
}

/// The keys of a list of entries are distinct.
pub open spec fn distinct_keys(s: Seq<(String, String, String)>) -> bool {
    forall|i: int, j: int| 0 <= i < j < s.len() ==> (#[trigger] s[i]).0@ != (#[trigger] s[j]).0@
}

/// No two entries share a key.
pub open spec fn view_keys_distinct(s: Seq<(Seq<char>, Seq<char>, Seq<char>)>) -> bool {
    forall|i: int, j: int| 0 <= i < j < s.len() ==> (#[trigger] s[i]).0 != (#[trigger] s[j]).0
}

/// The answer to a query on `pattern`: the entry stored under `pattern`
/// itself when there is one; otherwise every entry whose key the pattern
/// matches, in store order.
pub open spec fn spec_answer(entries: Seq<(Seq<char>, Seq<char>, Seq<char>)>, pattern: Seq<char>) -> Seq<
    (Seq<char>, Seq<char>, Seq<char>),
> {
    if exists|j: int| 0 <= j < entries.len() && (#[trigger] entries[j]).0 == pattern {
        seq![entries[choose|j: int| 0 <= j < entries.len() && (#[trigger] entries[j]).0 == pattern]]
    } else {
        entries.filter(|e: (Seq<char>, Seq<char>, Seq<char>)| query_matches(pattern, e.0))
    }
}

/// Distinct keys have distinct views.
proof fn lemma_distinct_view(s: Seq<(String, String, String)>)
    requires
        distinct_keys(s),
    ensures
        view_keys_distinct(s.map_values(|e: (String, String, String)| entry_view(e))),
{
}

/// The payloads published by this instance, answered to queries: key to
/// (payload text, encoding), in order of first publication.
pub struct LocalKvStore {
    entries: Vec<(String, String, String)>,
}

impl LocalKvStore {
    #[verifier::type_invariant]
    spec fn keys_unique(self) -> bool {
        distinct_keys(self.entries@)
    }

    /// The stored entries, in order of first publication.
    pub closed spec fn spec_entries(self) -> Seq<(Seq<char>, Seq<char>, Seq<char>)> {
        self.entries@.map_values(|e: (String, String, String)| entry_view(e))
    }

    /// An empty store.
    pub fn new() -> (res: LocalKvStore)
        ensures
            res.spec_entries().len() == 0,
    {
        LocalKvStore { entries: Vec::new() }
    }

    /// The position of `key`.
    fn position(&self, key: &str) -> (res: Option<usize>)
        ensures
            match res {
                Some(i) => i < self.spec_entries().len() && self.spec_entries()[i as int].0 == key@,
                None => forall|j: int| 0 <= j < self.spec_entries().len() ==> (#[trigger] self.spec_entries()[j]).0 != key@,
            },
    {
        let mut i: usize = 0;
        while i < self.entries.len()
            invariant
                i <= self.entries@.len(),
                forall|j: int| 0 <= j < i ==> (#[trigger] self.entries@[j]).0@ != key@,
            decreases self.entries.len() - i,
        {
            if str_equal(self.entries[i].0.as_str(), key) {
                return Some(i);
            }
            i = i + 1;
        }
        None
    }

    /// Stores a publication: replaces the entry of `key`, or adds one.
    pub fn insert(&mut self, key: String, payload: String, encoding: String)
        ensures
            ({
                let old_e = old(self).spec_entries();
                let new_e = final(self).spec_entries();
                if exists|j: int| 0 <= j < old_e.len() && (#[trigger] old_e[j]).0 == key@ {
                    exists|j: int|
                        0 <= j < old_e.len() && (#[trigger] old_e[j]).0 == key@ && new_e == old_e.update(
                            j,
                            (key@, payload@, encoding@),
                        )
                } else {
                    new_e == old_e.push((key@, payload@, encoding@))
                }
            }),
            view_keys_distinct(final(self).spec_entries()),
    {
        proof {
            use_type_invariant(&*self);
        }
        let ghost old_e = self.spec_entries();
        match self.position(key.as_str()) {
            Some(i) => {
                let mut entries = Vec::new();
                std::mem::swap(&mut entries, &mut self.entries);
                let ghost before = entries@;
                entries.set(i, (key, payload, encoding));
                proof {
                    assert(distinct_keys(entries@)) by {
                        assert forall|a: int, b: int| 0 <= a < b < entries@.len() implies (#[trigger] entries@[a]).0@
                            != (#[trigger] entries@[b]).0@ by {
                            assert(before[a].0@ != before[b].0@);
                        }
                    }
                    assert(entries@.map_values(|e: (String, String, String)| entry_view(e)) =~= old_e.update(
                        i as int,
                        (key@, payload@, encoding@),
                    ));
                }
                self.entries = entries;
                proof {
                    lemma_distinct_view(self.entries@);
                }
            },
            None => {
                let mut entries = Vec::new();
                std::mem::swap(&mut entries, &mut self.entries);
                let ghost before = entries@;
                entries.push((key, payload, encoding));
                proof {
                    assert(distinct_keys(entries@)) by {
                        assert forall|a: int, b: int| 0 <= a < b < entries@.len() implies (#[trigger] entries@[a]).0@
                            != (#[trigger] entries@[b]).0@ by {
                            if b < before.len() {
                                assert(before[a].0@ != before[b].0@);
                            } else {
                                assert(old_e[a].0 != key@);
                            }
                        }
                    }
                    assert(entries@.map_values(|e: (String, String, String)| entry_view(e)) =~= old_e.push(
                        (key@, payload@, encoding@),
                    ));
                }
                self.entries = entries;
                proof {
                    lemma_distinct_view(self.entries@);
                }
            },
        }
    }

    /// The entries that answer a query on `pattern`: the entry stored under
    /// `pattern` itself when there is one; otherwise every entry whose key
    /// the pattern matches (`query_matches`), in store order.
    pub fn answer(&self, pattern: &str) -> (res: Vec<(String, String, String)>)
        ensures
            res@.map_values(|e: (String, String, String)| entry_view(e)) == spec_answer(self.spec_entries(), pattern@),
    {
        proof {
            use_type_invariant(self);
        }
        let ghost ents = self.spec_entries();
        if let Some(i) = self.position(pattern) {
            let e = &self.entries[i];
            let mut res: Vec<(String, String, String)> = Vec::new();
            res.push((e.0.clone(), e.1.clone(), e.2.clone()));
            proof {
                let j = choose|j: int| 0 <= j < ents.len() && (#[trigger] ents[j]).0 == pattern@;
                if j != i {
                    assert(self.entries@[j].0@ == self.entries@[i as int].0@);
                    if j < i {
                        assert(self.entries@[j].0@ != self.entries@[i as int].0@);
                    } else {
                        assert(self.entries@[i as int].0@ != self.entries@[j].0@);
                    }
                }
                assert(res@.map_values(|e: (String, String, String)| entry_view(e)) =~= seq![ents[i as int]]);
            }
            return res;
        }
        let ghost keep = |e: (Seq<char>, Seq<char>, Seq<char>)| query_matches(pattern@, e.0);
        let pattern_parts = split_on(pattern, '/');
        let mut res: Vec<(String, String, String)> = Vec::new();
        let mut i: usize = 0;
        proof {
            assert(ents.take(0).filter(keep) =~= Seq::<(Seq<char>, Seq<char>, Seq<char>)>::empty()) by {
                reveal_with_fuel(Seq::filter, 1);
            }
        }
        while i < self.entries.len()
            invariant
                ents == self.spec_entries(),
                i <= ents.len(),
                res@.map_values(|e: (String, String, String)| entry_view(e)) == ents.take(i as int).filter(keep),
                forall|e: (Seq<char>, Seq<char>, Seq<char>)| #[trigger] keep(e) == query_matches(pattern@, e.0),
                pattern_parts@.map_values(|p: String| p@) == split_all(pattern@, '/'),
            decreases self.entries.len() - i,
        {
            let e = &self.entries[i];
            let key_parts = split_on(e.0.as_str(), '/');
            let matched = segments_match_at(&pattern_parts, &key_parts, 0, 0);
            proof {
                assert(ents[i as int] == entry_view(self.entries@[i as int]));
                assert(matched == query_matches(pattern@, ents[i as int].0));
                assert(ents.take(i + 1).drop_last() =~= ents.take(i as int));
                assert(ents.take(i + 1).last() == ents[i as int]);
                reveal_with_fuel(Seq::filter, 1);
            }
            if matched {
                let ghost before = res@;
                res.push((e.0.clone(), e.1.clone(), e.2.clone()));
                proof {
                    assert(res@.map_values(|e: (String, String, String)| entry_view(e)) =~= before.map_values(
                        |e: (String, String, String)| entry_view(e),
                    ).push(ents[i as int]));
                }
            }
            i = i + 1;
        }
        proof {
            assert(ents.take(ents.len() as int) =~= ents);
        }
        res
    }
}

/// Whether the pattern's segments from `i` on match the key's from `j` on
/// (see `segments_match_from`).
fn segments_match_at(ps: &Vec<String>, ks: &Vec<String>, i: usize, j: usize) -> (res: bool)
    requires
        i <= ps@.len(),
        j <= ks@.len(),
    ensures
        res == segments_match_from(ps@.map_values(|p: String| p@), ks@.map_values(|k: String| k@), i as int, j as int),
    decreases ps@.len() - i, ks@.len() - j,
{
    let ghost pv = ps@.map_values(|p: String| p@);
    let ghost kv = ks@.map_values(|k: String| k@);
    if i == ps.len() {
        return j == ks.len();
    }
    proof {
        reveal_strlit("**");
        reveal_strlit("*");
        assert("**"@ =~= seq!['*', '*']);
        assert("*"@ =~= seq!['*']);
        assert(pv[i as int] == ps@[i as int]@);
    }
    if str_equal(ps[i].as_str(), "**") {
        if segments_match_at(ps, ks, i + 1, j) {
            return true;
        }
        if j < ks.len() {
            return segments_match_at(ps, ks, i, j + 1);
        }
        return false;
    }
    if j == ks.len() {
        return false;
    }
    proof {
        assert(kv[j as int] == ks@[j as int]@);
    }
    let seg = str_equal(ps[i].as_str(), "*") || str_equal(ps[i].as_str(), ks[j].as_str());
    seg && segments_match_at(ps, ks, i + 1, j + 1)
}

/// What a read gives back of a write: after a publication is stored under
/// `key`, a query on exactly `key` is answered with that publication alone.
pub proof fn law_query_answers_published(
    old_entries: Seq<(Seq<char>, Seq<char>, Seq<char>)>,
    new_entries: Seq<(Seq<char>, Seq<char>, Seq<char>)>,
    key: Seq<char>,
    payload: Seq<char>,
    encoding: Seq<char>,
)
    requires
        view_keys_distinct(new_entries),
        if exists|j: int| 0 <= j < old_entries.len() && (#[trigger] old_entries[j]).0 == key {
            exists|j: int|
                0 <= j < old_entries.len() && (#[trigger] old_entries[j]).0 == key && new_entries
                    == old_entries.update(j, (key, payload, encoding))
        } else {
            new_entries == old_entries.push((key, payload, encoding))
        },
    ensures
        spec_answer(new_entries, key) == seq![(key, payload, encoding)],
{
    let w = if exists|j: int| 0 <= j < old_entries.len() && (#[trigger] old_entries[j]).0 == key {
        choose|j: int|
            0 <= j < old_entries.len() && (#[trigger] old_entries[j]).0 == key && new_entries == old_entries.update(
                j,
                (key, payload, encoding),
            )
    } else {
        old_entries.len() as int
    };
    assert(new_entries[w] == (key, payload, encoding));
    let c = choose|j: int| 0 <= j < new_entries.len() && (#[trigger] new_entries[j]).0 == key;
    if c != w {
        if c < w {
            assert(new_entries[c].0 != new_entries[w].0);
        } else {
            assert(new_entries[w].0 != new_entries[c].0);
        }
    }
}

} // verus!
