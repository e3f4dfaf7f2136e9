//! The export store: full raw payloads keyed by topic (or chunk) key, with
//! receive metadata.

use vstd::prelude::*;
use vstd::string::StringSliceAdditionalSpecFns;

verus! {

/// A point in time as seconds and nanoseconds since the Unix epoch, ordered
/// as time is (seconds first, then nanoseconds).
#[derive(Debug, Clone, Copy, PartialEq, Eq, Structural)]
pub struct Timestamp {
    pub secs: i64,
    pub nanos: u32,
}

/// `a` is no later than `b`.
pub open spec fn ts_le(a: Timestamp, b: Timestamp) -> bool {
    a.secs < b.secs || (a.secs == b.secs && a.nanos <= b.nanos)
}

impl Timestamp {
    /// The instant `secs` seconds after the epoch.
    pub fn from_secs(secs: i64) -> (res: Timestamp)
        ensures
            res == (Timestamp { secs, nanos: 0 }),
    {
        Timestamp { secs, nanos: 0 }
    }

    /// The instant `secs` seconds and `nanos` nanoseconds after the epoch.
    pub fn new(secs: i64, nanos: u32) -> (res: Timestamp)
        ensures
            res == (Timestamp { secs, nanos }),
    {
        Timestamp { secs, nanos }
    }

    /// Whether `self` is no later than `other`.
    pub fn le(&self, other: &Timestamp) -> (res: bool)
        ensures
            res == ts_le(*self, *other),
    {
        self.secs < other.secs || (self.secs == other.secs && self.nanos <= other.nanos)
    }
}

/// A stored payload: full raw bytes plus receive metadata.
#[derive(Debug, Clone)]
pub struct PayloadEntry {
    pub bytes: Vec<u8>,
    /// When this payload was received from the network.
    pub received_at: Timestamp,
    /// Original filename transmitted by the sender, if any.
    pub filename: Option<String>,
}

/// Mathematical value of a stored payload.
pub struct EntryView {
    pub bytes: Seq<u8>,
    pub received_at: Timestamp,
    pub filename: Option<Seq<char>>,
}

/// View of an optional string.
pub open spec fn opt_str_view(o: Option<String>) -> Option<Seq<char>> {
    match o {
        Some(s) => Some(s@),
        None => None,
    }
}

impl View for PayloadEntry {
    type V = EntryView;

    open spec fn view(&self) -> EntryView {
        EntryView {
            bytes: self.bytes@,
            received_at: self.received_at,
            filename: opt_str_view(self.filename),
        }
    }
}

/// Copies an optional string.
pub fn clone_opt_string(o: &Option<String>) -> (res: Option<String>)
    ensures
        opt_str_view(res) == opt_str_view(*o),
{
    match o {
        Some(s) => Some(s.clone()),
        None => None,
    }
}

/// No key occurs twice in the entry list.
pub open spec fn keys_distinct(s: Seq<(Seq<char>, EntryView)>) -> bool {
    forall|i: int, j: int| 0 <= i < j < s.len() ==> s[i].0 != s[j].0
}

/// The key occurs in the entry list.
pub open spec fn has_key(s: Seq<(Seq<char>, EntryView)>, k: Seq<char>) -> bool {
    exists|i: int| 0 <= i < s.len() && s[i].0 == k
}

/// The map that an entry list denotes.
pub open spec fn model_map(s: Seq<(Seq<char>, EntryView)>) -> Map<Seq<char>, EntryView> {
    Map::new(
        |k: Seq<char>| has_key(s, k),
        |k: Seq<char>| s[choose|i: int| 0 <= i < s.len() && s[i].0 == k].1,
    )
}

/// In a list with distinct keys, the map holds each listed entry.
pub proof fn lemma_model_map_at(s: Seq<(Seq<char>, EntryView)>, i: int)
    requires
        keys_distinct(s),
        0 <= i < s.len(),
    ensures
        model_map(s).contains_key(s[i].0),
        model_map(s)[s[i].0] == s[i].1,
{
    assert(has_key(s, s[i].0));
    let j = choose|j: int| 0 <= j < s.len() && s[j].0 == s[i].0;
    if j != i {
        if j < i {
            assert(s[j].0 != s[i].0);
        } else {
            assert(s[i].0 != s[j].0);
        }
    }
}

/// The map of a list with distinct keys has exactly as many keys as the
/// list has entries.
pub proof fn lemma_model_map_len(s: Seq<(Seq<char>, EntryView)>)
    requires
        keys_distinct(s),
    ensures
        model_map(s).dom().finite(),
        model_map(s).dom().len() == s.len(),
{
    let ks = s.map_values(|p: (Seq<char>, EntryView)| p.0);
    assert(ks.no_duplicates()) by {
        assert forall|i: int, j: int| 0 <= i < ks.len() && 0 <= j < ks.len() && i != j implies ks[i]
            != ks[j] by {
            if i < j {
                assert(s[i].0 != s[j].0);
            } else {
                assert(s[j].0 != s[i].0);
            }
        }
    }
    assert(model_map(s).dom() =~= ks.to_set()) by {
        assert forall|k: Seq<char>| model_map(s).dom().contains(k) implies ks.to_set().contains(k) by {
            let i = choose|i: int| 0 <= i < s.len() && s[i].0 == k;
            assert(ks[i] == k);
        }
        assert forall|k: Seq<char>| ks.to_set().contains(k) implies model_map(s).dom().contains(k) by {
            let i = choose|i: int| 0 <= i < ks.len() && ks[i] == k;
            assert(s[i].0 == k);
        }
    }
    ks.unique_seq_to_set();
}

/// Appending an entry with a new key adds that key to the map.
pub proof fn lemma_model_map_push(s: Seq<(Seq<char>, EntryView)>, x: (Seq<char>, EntryView))
    requires
        keys_distinct(s),
        !has_key(s, x.0),
    ensures
        keys_distinct(s.push(x)),
        model_map(s.push(x)) =~= model_map(s).insert(x.0, x.1),
{
    let t = s.push(x);
    assert(keys_distinct(t)) by {
        assert forall|i: int, j: int| 0 <= i < j < t.len() implies t[i].0 != t[j].0 by {
            if j == s.len() {
                assert(t[i].0 == s[i].0);
            } else {
                assert(t[i] == s[i] && t[j] == s[j]);
            }
        }
    }
    assert forall|k: Seq<char>| #[trigger] has_key(t, k) == (has_key(s, k) || k == x.0) by {
        if has_key(s, k) {
            let j = choose|j: int| 0 <= j < s.len() && s[j].0 == k;
            assert(t[j].0 == k);
        }
        if k == x.0 {
            assert(t[s.len() as int].0 == k);
        }
        if has_key(t, k) && k != x.0 {
            let j = choose|j: int| 0 <= j < t.len() && t[j].0 == k;
            assert(s[j].0 == k);
        }
    }
    assert forall|k: Seq<char>| #[trigger] model_map(t).contains_key(k) implies model_map(t)[k]
        == model_map(s).insert(x.0, x.1)[k] by {
        let j = choose|j: int| 0 <= j < t.len() && t[j].0 == k;
        lemma_model_map_at(t, j);
        if k != x.0 {
            lemma_model_map_at(s, j);
        }
    }
}

/// Removing the `i`-th entry removes its key from the map.
pub proof fn lemma_model_map_remove(s: Seq<(Seq<char>, EntryView)>, i: int)
    requires
        keys_distinct(s),
        0 <= i < s.len(),
    ensures
        keys_distinct(s.remove(i)),
        model_map(s.remove(i)) =~= model_map(s).remove(s[i].0),
{
    let t = s.remove(i);
    assert(keys_distinct(t)) by {
        assert forall|a: int, b: int| 0 <= a < b < t.len() implies t[a].0 != t[b].0 by {
            let a0 = if a < i { a } else { a + 1 };
            let b0 = if b < i { b } else { b + 1 };
            assert(t[a] == s[a0] && t[b] == s[b0]);
        }
    }
    assert forall|k: Seq<char>| #[trigger] has_key(t, k) == (has_key(s, k) && k != s[i].0) by {
        if has_key(s, k) && k != s[i].0 {
            let j = choose|j: int| 0 <= j < s.len() && s[j].0 == k;
            if j < i {
                assert(t[j].0 == k);
            } else {
                assert(j != i);
                assert(t[j - 1].0 == k);
            }
        }
        if has_key(t, k) {
            let j = choose|j: int| 0 <= j < t.len() && t[j].0 == k;
            let j0 = if j < i { j } else { j + 1 };
            assert(s[j0].0 == k);
            if j0 < i {
                assert(s[j0].0 != s[i].0);
            } else {
                assert(s[i].0 != s[j0].0);
            }
        }
    }
    assert forall|k: Seq<char>| #[trigger] model_map(t).contains_key(k) implies model_map(t)[k]
        == model_map(s).remove(s[i].0)[k] by {
        let j = choose|j: int| 0 <= j < t.len() && t[j].0 == k;
        lemma_model_map_at(t, j);
        let j0 = if j < i { j } else { j + 1 };
        assert(t[j] == s[j0]);
        lemma_model_map_at(s, j0);
    }
}

/// Keeping the entries whose key satisfies `p` restricts the map to those
/// keys.
pub proof fn lemma_model_map_filter(
    s: Seq<(Seq<char>, EntryView)>,
    p: spec_fn(Seq<char>) -> bool,
    pp: spec_fn((Seq<char>, EntryView)) -> bool,
)
    requires
        keys_distinct(s),
        forall|x: (Seq<char>, EntryView)| #[trigger] pp(x) == p(x.0),
    ensures
        keys_distinct(s.filter(pp)),
        model_map(s.filter(pp)) =~= model_map(s).restrict(model_map(s).dom().filter(p)),
        model_map(s).dom().filter(p).finite(),
        model_map(s).dom().filter(p).len() == s.filter(pp).len(),
        forall|k: Seq<char>| has_key(s.filter(pp), k) ==> #[trigger] has_key(s, k),
    decreases s.len(),
{
    lemma_model_map_filter_map(s, p, pp);
    lemma_model_map_len(s.filter(pp));
    assert(model_map(s.filter(pp)).dom() =~= model_map(s).dom().filter(p));
}

proof fn lemma_model_map_filter_map(
    s: Seq<(Seq<char>, EntryView)>,
    p: spec_fn(Seq<char>) -> bool,
    pp: spec_fn((Seq<char>, EntryView)) -> bool,
)
    requires
        keys_distinct(s),
        forall|x: (Seq<char>, EntryView)| #[trigger] pp(x) == p(x.0),
    ensures
        keys_distinct(s.filter(pp)),
        model_map(s.filter(pp)) =~= model_map(s).restrict(model_map(s).dom().filter(p)),
        forall|k: Seq<char>| has_key(s.filter(pp), k) ==> #[trigger] has_key(s, k),
    decreases s.len(),
{
    reveal_with_fuel(Seq::filter, 1);
    if s.len() == 0 {
        assert(s.filter(pp) =~= s);
        assert(model_map(s).dom() =~= Set::empty());
    } else {
        let s0 = s.drop_last();
        let x = s.last();
        assert(keys_distinct(s0));
        lemma_model_map_filter_map(s0, p, pp);
        assert(!has_key(s0, x.0)) by {
            if has_key(s0, x.0) {
                let j = choose|j: int| 0 <= j < s0.len() && s0[j].0 == x.0;
                assert(s[j].0 == s[s.len() - 1].0);
            }
        }
        assert(s0.push(x) =~= s);
        lemma_model_map_push(s0, x);
        let f0 = s0.filter(pp);
        if p(x.0) {
            assert(s.filter(pp) == f0.push(x));
            assert(!has_key(f0, x.0));
            lemma_model_map_push(f0, x);
            assert forall|k: Seq<char>| has_key(s.filter(pp), k) implies #[trigger] has_key(s, k) by {
                if k != x.0 {
                    let j = choose|j: int| 0 <= j < f0.push(x).len() && f0.push(x)[j].0 == k;
                    assert(f0[j].0 == k);
                    assert(has_key(s0, k));
                    let i = choose|i: int| 0 <= i < s0.len() && s0[i].0 == k;
                    assert(s[i].0 == k);
                } else {
                    assert(s[s.len() - 1].0 == k);
                }
            }
        } else {
            assert(s.filter(pp) == f0);
            assert forall|k: Seq<char>| has_key(s.filter(pp), k) implies #[trigger] has_key(s, k) by {
                assert(has_key(s0, k));
                let i = choose|i: int| 0 <= i < s0.len() && s0[i].0 == k;
                assert(s[i].0 == k);
            }
        }
    }
}

/// Full payloads keyed by topic or chunk key. No key is stored twice.
pub struct PayloadStoreMap {
    entries: Vec<(String, PayloadEntry)>,
}

/// View of one stored pair.
pub open spec fn pair_view(p: (String, PayloadEntry)) -> (Seq<char>, EntryView) {
    (p.0@, p.1@)
}

/// Views of a list of stored pairs.
pub open spec fn model_of(v: Seq<(String, PayloadEntry)>) -> Seq<(Seq<char>, EntryView)> {
    v.map_values(|p: (String, PayloadEntry)| pair_view(p))
}

impl PayloadStoreMap {
    /// The stored pairs, in storage order.
    pub closed spec fn model(&self) -> Seq<(Seq<char>, EntryView)> {
        model_of(self.entries@)
    }

    #[verifier::type_invariant]
    closed spec fn inv(&self) -> bool {
        keys_distinct(self.model())
    }

    /// Number of stored pairs (whose keys are distinct).
    pub fn count(&self) -> (res: usize)
        ensures
            res == self.model().len(),
            keys_distinct(self.model()),
    {
        proof {
            use_type_invariant(self);
        }
        self.entries.len()
    }

    /// Key of the `i`-th stored pair.
    pub fn key_at(&self, i: usize) -> (res: &String)
        requires
            i < self.model().len(),
        ensures
            res@ == self.model()[i as int].0,
    {
        &self.entries[i].0
    }

    /// Payload of the `i`-th stored pair.
    pub fn entry_at(&self, i: usize) -> (res: &PayloadEntry)
        requires
            i < self.model().len(),
        ensures
            res@ == self.model()[i as int].1,
    {
        &self.entries[i].1
    }

    /// Removes the `i`-th stored pair.
    pub fn remove_at(&mut self, i: usize)
        requires
            i < old(self).model().len(),
        ensures
            final(self).model() == old(self).model().remove(i as int),
    {
        proof {
            use_type_invariant(&*self);
        }
        let ghost old_model = self.model();
        let mut es: Vec<(String, PayloadEntry)> = Vec::new();
        std::mem::swap(&mut es, &mut self.entries);
        assert(model_of(es@) == old_model);
        es.remove(i);
        proof {
            assert(model_of(es@) =~= old_model.remove(i as int));
            assert(keys_distinct(model_of(es@))) by {
                let t = model_of(es@);
                assert forall|a: int, b: int| 0 <= a < b < t.len() implies t[a].0 != t[b].0 by {
                    let a0 = if a < i { a } else { a + 1 };
                    let b0 = if b < i { b } else { b + 1 };
                    assert(t[a] == old_model[a0] && t[b] == old_model[b0]);
                }
            }
        }
        self.entries = es;
    }

    /// Keys of all stored payloads, each once.
    pub fn keys(&self) -> (res: Vec<String>)
        ensures
            res@.len() == self.model().len(),
            forall|i: int| 0 <= i < res@.len() ==> #[trigger] res@[i]@ == self.model()[i].0,
    {
        let mut res: Vec<String> = Vec::new();
        let mut i: usize = 0;
        while i < self.entries.len()
            invariant
                i <= self.entries@.len(),
                res@.len() == i,
                forall|j: int| 0 <= j < i ==> #[trigger] res@[j]@ == self.model()[j].0,
            decreases self.entries.len() - i,
        {
            res.push(self.entries[i].0.clone());
            i = i + 1;
        }
        res
    }

    /// An empty store.
    pub fn new() -> (res: PayloadStoreMap)
        ensures
            res@ == Map::<Seq<char>, EntryView>::empty(),
    {
        let res = PayloadStoreMap { entries: Vec::new() };
        proof {
            assert(res@ =~= Map::<Seq<char>, EntryView>::empty());
        }
        res
    }

    /// Position of `key` in storage, if stored.
    fn position(&self, key: &str) -> (res: Option<usize>)
        ensures
            match res {
                Some(i) => i < self.model().len() && self.model()[i as int].0 == key@,
                None => !has_key(self.model(), key@),
            },
    {
        let mut i: usize = 0;
        while i < self.entries.len()
            invariant
                i <= self.entries@.len(),
                forall|j: int| 0 <= j < i ==> self.model()[j].0 != key@,
            decreases self.entries.len() - i,
        {
            if str_equal(self.entries[i].0.as_str(), key) {
                return Some(i);
            }
            i = i + 1;
        }
        None
    }

    /// Number of stored payloads.
    pub fn len(&self) -> (res: usize)
        ensures
            self@.dom().finite(),
            res == self@.dom().len(),
    {
        proof {
            use_type_invariant(self);
            lemma_model_map_len(self.model());
        }
        self.entries.len()
    }

    /// Whether nothing is stored.
    pub fn is_empty(&self) -> (res: bool)
        ensures
            res == (self@.dom().len() == 0),
    {
        self.len() == 0
    }

    /// Whether a payload is stored under `key`.
    pub fn contains_key(&self, key: &str) -> (res: bool)
        ensures
            res == self@.contains_key(key@),
    {
        self.position(key).is_some()
    }

    /// The payload stored under `key`, if any.
    pub fn get(&self, key: &str) -> (res: Option<&PayloadEntry>)
        ensures
            match res {
                Some(e) => self@.contains_key(key@) && self@[key@] == e@,
                None => !self@.contains_key(key@),
            },
    {
        proof {
            use_type_invariant(self);
        }
        match self.position(key) {
            Some(i) => {
                proof {
                    lemma_model_map_at(self.model(), i as int);
                }
                Some(&self.entries[i].1)
            },
            None => None,
        }
    }

    /// Stores `entry` under `key`, replacing and returning any payload that
    /// was stored under it.
    pub fn insert(&mut self, key: String, entry: PayloadEntry) -> (res: Option<PayloadEntry>)
        ensures
            final(self)@ == old(self)@.insert(key@, entry@),
            match res {
                Some(e) => old(self)@.contains_key(key@) && old(self)@[key@] == e@,
                None => !old(self)@.contains_key(key@),
            },
    {
        proof {
            use_type_invariant(&*self);
        }
        let ghost old_model = self.model();
        let ghost kv = key@;
        let ghost ev = entry@;
        let pos = self.position(key.as_str());
        let mut es: Vec<(String, PayloadEntry)> = Vec::new();
        std::mem::swap(&mut es, &mut self.entries);
        assert(model_of(es@) == old_model);
        match pos {
            Some(i) => {
                proof {
                    lemma_model_map_at(old_model, i as int);
                }
                let mut pair = (key, entry);
                es.set_and_swap(i, &mut pair);
                let ghost new_model = model_of(es@);
                proof {
                    assert(new_model =~= old_model.update(i as int, (kv, ev)));
                    assert(keys_distinct(new_model));
                    assert(model_map(new_model) =~= model_map(old_model).insert(kv, ev)) by {
                        assert forall|k: Seq<char>| #[trigger] has_key(new_model, k) == has_key(old_model, k) by {
                            if has_key(old_model, k) {
                                let j = choose|j: int| 0 <= j < old_model.len() && old_model[j].0 == k;
                                assert(new_model[j].0 == k);
                            }
                            if has_key(new_model, k) {
                                let j = choose|j: int| 0 <= j < new_model.len() && new_model[j].0 == k;
                                if j != i {
                                    assert(old_model[j].0 == k);
                                } else {
                                    assert(old_model[j].0 == k);
                                }
                            }
                        }
                        assert forall|k: Seq<char>| #[trigger] model_map(new_model).contains_key(k) implies
                            model_map(new_model)[k] == model_map(old_model).insert(kv, ev)[k] by {
                            let j = choose|j: int| 0 <= j < new_model.len() && new_model[j].0 == k;
                            lemma_model_map_at(new_model, j);
                            if k != kv {
                                lemma_model_map_at(old_model, j);
                            }
                        }
                    }
                }
                self.entries = es;
                Some(pair.1)
            },
            None => {
                es.push((key, entry));
                let ghost new_model = model_of(es@);
                proof {
                    assert(new_model =~= old_model.push((kv, ev)));
                    assert(keys_distinct(new_model));
                    assert(model_map(new_model) =~= model_map(old_model).insert(kv, ev)) by {
                        assert forall|k: Seq<char>| #[trigger] has_key(new_model, k) == (has_key(old_model, k)
                            || k == kv) by {
                            if has_key(old_model, k) {
                                let j = choose|j: int| 0 <= j < old_model.len() && old_model[j].0 == k;
                                assert(new_model[j].0 == k);
                            }
                            if k == kv {
                                assert(new_model[old_model.len() as int].0 == k);
                            }
                            if has_key(new_model, k) && k != kv {
                                let j = choose|j: int| 0 <= j < new_model.len() && new_model[j].0 == k;
                                assert(old_model[j].0 == k);
                            }
                        }
                        assert forall|k: Seq<char>| #[trigger] model_map(new_model).contains_key(k) implies
                            model_map(new_model)[k] == model_map(old_model).insert(kv, ev)[k] by {
                            let j = choose|j: int| 0 <= j < new_model.len() && new_model[j].0 == k;
                            lemma_model_map_at(new_model, j);
                            if k != kv {
                                lemma_model_map_at(old_model, j);
                            }
                        }
                    }
                }
                self.entries = es;
                None
            },
        }
    }
}

impl View for PayloadStoreMap {
    type V = Map<Seq<char>, EntryView>;

    open spec fn view(&self) -> Map<Seq<char>, EntryView> {
        model_map(self.model())
    }
}

/// Whether two string slices hold the same characters.
pub fn str_equal(a: &str, b: &str) -> (res: bool)
    ensures
        res == (a@ == b@),
{
    let x = a.as_bytes();
    let y = b.as_bytes();
    proof {
        vstd::utf8::encode_utf8_decode_utf8(a@);
        vstd::utf8::encode_utf8_decode_utf8(b@);
    }
    if x.len() != y.len() {
        proof {
            if a@ == b@ {
                assert(x@ == y@);
            }
        }
        return false;
    }
    let mut i: usize = 0;
    while i < x.len()
        invariant
            x@ == a.spec_bytes(),
            y@ == b.spec_bytes(),
            x@.len() == y@.len(),
            i <= x@.len(),
            forall|j: int| 0 <= j < i ==> x@[j] == y@[j],
        decreases x.len() - i,
    {
        if x[i] != y[i] {
            proof {
                if a@ == b@ {
                    assert(x@ == y@);
                }
            }
            return false;
        }
        i = i + 1;
    }
    proof {
        assert(x@ =~= y@);
        assert(a.spec_bytes() == b.spec_bytes());
    }
    true
}

} // verus!
