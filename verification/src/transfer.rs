//! File transfer pipeline: chunk keys, the payload export store with its
//! eviction policy, chunk progress, validated reassembly for export,
//! suggested export filenames and human-readable sizes.
//!
//! Chunk key format: `{topic}/__chunk/{total_size}/{total_chunks}/{chunk_index}`.

use vstd::prelude::*;
use vstd::string::{StrSliceExecFns, StringExecFns};
use vstd::string::StringSliceAdditionalSpecFns;
use vstd::utf8::*;

use crate::bytes::{find, find_from, lemma_find_from, occurs_at};
use crate::payload_store::{
    has_key, keys_distinct, lemma_model_map_at, lemma_model_map_filter, lemma_model_map_remove,
    model_map, opt_str_view, clone_opt_string, ts_le, EntryView, PayloadEntry, PayloadStoreMap,
};
use crate::text::{dec_digits, parse_bounded, push_decimal, spec_parse_bounded};

verus! {

broadcast use vstd::string::group_string_axioms;

/// Publish-side chunk size (64 MiB).
pub const CHUNK_SIZE: usize = 67108864;

/// Cap on non-chunk entries in the export store. Chunk entries are exempt:
/// they are bounded per topic by their own `total_chunks` and purged by
/// generation.
pub const MAX_PLAIN_ENTRIES: usize = 500;

/// The reserved infix `/__chunk/` that separates a topic from chunk metadata.
pub open spec fn chunk_infix() -> Seq<u8> {
    seq![47u8, 95u8, 95u8, 99u8, 104u8, 117u8, 110u8, 107u8, 47u8]
}

/// The byte `/`.
pub open spec fn slash() -> Seq<u8> {
    seq![47u8]
}

/// Metadata parsed from a chunk key.
#[derive(Debug, Clone, Copy, PartialEq, Eq, Structural)]
pub struct ChunkMeta {
    pub total_size: usize,
    pub total_chunks: usize,
    pub index: usize,
}

/// Metadata that cannot drive an absurd allocation or an out-of-range index:
/// at least one chunk, the index within range, and no more bytes than the
/// chunks can carry.
pub open spec fn spec_is_sane(m: ChunkMeta) -> bool {
    &&& m.total_chunks > 0
    &&& m.index < m.total_chunks
    &&& m.total_size <= m.total_chunks * CHUNK_SIZE
}

impl ChunkMeta {
    /// Values come from a network-controlled key string: reject anything
    /// that could drive an absurd allocation or an out-of-range index.
    pub fn is_sane(&self) -> (res: bool)
        ensures
            res == spec_is_sane(*self),
    {
        // The product saturates: past usize::MAX any total_size fits.
        let fits = match self.total_chunks.checked_mul(CHUNK_SIZE) {
            Some(cap) => self.total_size <= cap,
            None => true,
        };
        self.total_chunks > 0 && self.index < self.total_chunks && fits
    }
}

/// Splits a byte string at its `/` bytes when there are exactly three
/// segments.
pub open spec fn split3(s: Seq<u8>) -> Option<(Seq<u8>, Seq<u8>, Seq<u8>)> {
    match find_from(s, slash(), 0) {
        None => None,
        Some(a) => match find_from(s, slash(), a + 1) {
            None => None,
            Some(c) => match find_from(s, slash(), c + 1) {
                Some(_) => None,
                None => Some((s.subrange(0, a), s.subrange(a + 1, c), s.subrange(c + 1, s.len() as int))),
            },
        },
    }
}

/// Parse of a `usize` field of a chunk key.
pub open spec fn parse_field(s: Seq<u8>) -> Option<nat> {
    spec_parse_bounded(s, usize::MAX as nat)
}

/// Chunk key parse over the key's UTF-8 bytes: the topic is everything
/// before the first `/__chunk/`, and the rest must be exactly three `/`
/// separated unsigned numbers (size, chunk count, index).
pub open spec fn spec_parse_chunk_key(k: Seq<u8>) -> Option<(Seq<u8>, ChunkMeta)> {
    match find_from(k, chunk_infix(), 0) {
        None => None,
        Some(i) => match split3(k.subrange(i + 9, k.len() as int)) {
            None => None,
            Some((a, b, c)) => match (parse_field(a), parse_field(b), parse_field(c)) {
                (Some(x), Some(y), Some(z)) => Some(
                    (
                        k.subrange(0, i),
                        ChunkMeta { total_size: x as usize, total_chunks: y as usize, index: z as usize },
                    ),
                ),
                _ => None,
            },
        },
    }
}

/// Parses one `usize` field.
fn parse_usize_field(s: &[u8]) -> (res: Option<usize>)
    ensures
        match parse_field(s@) {
            Some(v) => res == Some(v as usize),
            None => res is None,
        },
{
    match parse_bounded(s, usize::MAX as u64) {
        Some(v) => Some(v as usize),
        None => None,
    }
}

/// Splits a chunk key into (topic, meta). Returns `None` for keys that are
/// not well-formed chunk keys.
pub fn parse_chunk_key(key: &str) -> (res: Option<(&str, ChunkMeta)>)
    ensures
        match spec_parse_chunk_key(key.spec_bytes()) {
            None => res is None,
            Some((t, m)) => res matches Some((topic, meta)) && topic.spec_bytes() == t && meta == m,
        },
{
    let b = key.as_bytes();
    let blen = b.len();
    let infix: [u8; 9] = [47u8, 95u8, 95u8, 99u8, 104u8, 117u8, 110u8, 107u8, 47u8];
    let pat = infix.as_slice();
    proof {
        assert(pat@ =~= chunk_infix());
    }
    let found = find(b, pat, 0);
    let i = match found {
        Some(i) => i,
        None => return None,
    };
    proof {
        lemma_find_from(b@, chunk_infix(), 0);
        assert(pat@ == chunk_infix());
        assert(found == Some(i));
        assert(find_from(b@, chunk_infix(), 0) is Some);
        let j = find_from(b@, chunk_infix(), 0)->0;
        assert(occurs_at(b@, chunk_infix(), j));
        assert(i == j as usize);
        assert(find_from(b@, chunk_infix(), 0) == Some(i as int));
        assert(occurs_at(b@, chunk_infix(), i as int));
    }
    let suffix = &b[i + 9..b.len()];
    let sl: [u8; 1] = [47u8];
    let sp = sl.as_slice();
    proof {
        assert(sp@ =~= slash());
        assert(suffix@ =~= b@.subrange(i + 9, b@.len() as int));
    }
    let a = match find(suffix, sp, 0) {
        Some(a) => a,
        None => return None,
    };
    proof {
        lemma_find_from(suffix@, slash(), 0);
    }
    let c = match find(suffix, sp, a + 1) {
        Some(c) => c,
        None => return None,
    };
    proof {
        lemma_find_from(suffix@, slash(), a + 1);
    }
    if find(suffix, sp, c + 1).is_some() {
        return None;
    }
    let f1 = &suffix[0..a];
    let f2 = &suffix[a + 1..c];
    let f3 = &suffix[c + 1..suffix.len()];
    let total_size = match parse_usize_field(f1) {
        Some(v) => v,
        None => return None,
    };
    let total_chunks = match parse_usize_field(f2) {
        Some(v) => v,
        None => return None,
    };
    let index = match parse_usize_field(f3) {
        Some(v) => v,
        None => return None,
    };
    proof {
        encode_utf8_valid_utf8(key@);
        assert(b@[i as int] == 47u8) by {
            assert(b@.subrange(i as int, i + 9)[0] == 47u8);
        }
        is_char_boundary_iff_not_is_continuation_byte(b@, i as int);
    }
    let (topic, _rest) = key.split_at(i);
    Some((topic, ChunkMeta { total_size, total_chunks, index }))
}

/// The key contains the reserved `/__chunk/` infix.
pub open spec fn has_chunk_infix(k: Seq<char>) -> bool {
    find_from(encode_utf8(k), chunk_infix(), 0) is Some
}

/// A plain (non-chunk) store key: one without the `/__chunk/` infix.
pub open spec fn is_plain_key(k: Seq<char>) -> bool {
    !has_chunk_infix(k)
}

/// Number of plain keys in a store.
pub open spec fn plain_count(m: Map<Seq<char>, EntryView>) -> nat {
    m.dom().filter(|k: Seq<char>| is_plain_key(k)).len()
}

/// `k` is a plain key of `m` received no later than any other plain key.
pub open spec fn is_oldest_plain(m: Map<Seq<char>, EntryView>, k: Seq<char>) -> bool {
    &&& m.contains_key(k)
    &&& is_plain_key(k)
    &&& forall|j: Seq<char>|
        m.contains_key(j) && is_plain_key(j) ==> ts_le(m[k].received_at, #[trigger] m[j].received_at)
}

/// A chunk key of `topic` from another generation than `meta`: it starts
/// with `{topic}/__chunk/` and either fails to parse or carries another
/// (size, chunk count) pair.
pub open spec fn is_stale_chunk(k: Seq<char>, topic: Seq<u8>, meta: ChunkMeta) -> bool {
    let kb = encode_utf8(k);
    let prefix = topic + chunk_infix();
    &&& prefix.len() <= kb.len()
    &&& kb.subrange(0, prefix.len() as int) == prefix
    &&& match spec_parse_chunk_key(kb) {
        Some((_, m)) => m.total_size != meta.total_size || m.total_chunks != meta.total_chunks,
        None => true,
    }
}

/// Whether `k` contains `/__chunk/`.
fn key_has_chunk_infix(k: &str) -> (res: bool)
    ensures
        res == has_chunk_infix(k@),
{
    let infix: [u8; 9] = [47u8, 95u8, 95u8, 99u8, 104u8, 117u8, 110u8, 107u8, 47u8];
    let pat = infix.as_slice();
    proof {
        assert(pat@ =~= chunk_infix());
    }
    find(k.as_bytes(), pat, 0).is_some()
}

/// Whether the first `n` bytes of `a` and `b` agree.
fn prefix_equal(a: &[u8], b: &[u8], n: usize) -> (res: bool)
    requires
        n <= a@.len(),
        n <= b@.len(),
    ensures
        res == (a@.subrange(0, n as int) == b@.subrange(0, n as int)),
{
    let mut i: usize = 0;
    while i < n
        invariant
            i <= n,
            n <= a@.len(),
            n <= b@.len(),
            forall|j: int| 0 <= j < i ==> a@[j] == b@[j],
        decreases n - i,
    {
        if a[i] != b[i] {
            proof {
                assert(a@.subrange(0, n as int)[i as int] != b@.subrange(0, n as int)[i as int]);
            }
            return false;
        }
        i = i + 1;
    }
    proof {
        assert(a@.subrange(0, n as int) =~= b@.subrange(0, n as int));
    }
    true
}

/// Whether stored key `k` is a chunk of another generation of the topic
/// whose chunk prefix is the first `plen` bytes of `key_b`.
fn stale_chunk_key(k: &str, key_b: &[u8], plen: usize, meta: ChunkMeta) -> (res: bool)
    requires
        9 <= plen <= key_b@.len(),
        key_b@.subrange(plen - 9, plen as int) == chunk_infix(),
    ensures
        res == is_stale_chunk(k@, key_b@.subrange(0, plen - 9), meta),
{
    let kb = k.as_bytes();
    proof {
        assert(key_b@.subrange(0, plen - 9) + chunk_infix() =~= key_b@.subrange(0, plen as int));
    }
    if kb.len() < plen {
        return false;
    }
    if !prefix_equal(kb, key_b, plen) {
        return false;
    }
    match parse_chunk_key(k) {
        Some((_, m)) => m.total_size != meta.total_size || m.total_chunks != meta.total_chunks,
        None => true,
    }
}

/// Purges every stored chunk of the topic (the first `plen - 9` bytes of
/// `key`) that belongs to another generation than `meta`.
fn purge_stale_chunks(store: &mut PayloadStoreMap, key: &str, plen: usize, meta: ChunkMeta)
    requires
        9 <= plen <= key.spec_bytes().len(),
        key.spec_bytes().subrange(plen - 9, plen as int) == chunk_infix(),
    ensures
        final(store)@ == old(store)@.restrict(
            old(store)@.dom().filter(
                |k: Seq<char>| !is_stale_chunk(k, key.spec_bytes().subrange(0, plen - 9), meta),
            ),
        ),
{
    let kb = key.as_bytes();
    let n0 = store.count();
    let ghost old_model = store.model();
    let ghost topic = kb@.subrange(0, plen - 9);
    let ghost p = |k: Seq<char>| !is_stale_chunk(k, topic, meta);
    let ghost pp = |x: (Seq<char>, EntryView)| p(x.0);
    let mut i: usize = 0;
    let ghost mut j: int = 0;
    proof {
        assert(old_model.take(0).filter(pp) =~= Seq::<(Seq<char>, EntryView)>::empty()) by {
            reveal_with_fuel(Seq::filter, 1);
        }
        assert(store.model() =~= old_model.take(0).filter(pp) + old_model.skip(0));
    }
    while i < store.count()
        invariant
            0 <= j <= old_model.len(),
            store.model() == old_model.take(j).filter(pp) + old_model.skip(j),
            i == old_model.take(j).filter(pp).len(),
            9 <= plen <= kb@.len(),
            kb@.subrange(plen - 9, plen as int) == chunk_infix(),
            topic == kb@.subrange(0, plen - 9),
            forall|x: (Seq<char>, EntryView)| #[trigger] pp(x) == p(x.0),
            forall|k: Seq<char>| #[trigger] p(k) == !is_stale_chunk(k, topic, meta),
        decreases old_model.len() - j,
    {
        let ghost cur = store.model();
        proof {
            assert(cur.len() == i + old_model.len() - j);
            assert(cur[i as int] == old_model[j]);
        }
        let stale = stale_chunk_key(store.key_at(i).as_str(), kb, plen, meta);
        proof {
            let x = old_model[j];
            assert(old_model.take(j + 1).drop_last() =~= old_model.take(j));
            assert(old_model.take(j + 1).last() == x);
            reveal_with_fuel(Seq::filter, 1);
            if p(x.0) {
                assert(old_model.take(j + 1).filter(pp) == old_model.take(j).filter(pp).push(x));
            } else {
                assert(old_model.take(j + 1).filter(pp) == old_model.take(j).filter(pp));
            }
        }
        if stale {
            store.remove_at(i);
            proof {
                assert(store.model() =~= old_model.take(j + 1).filter(pp) + old_model.skip(j + 1));
            }
        } else {
            proof {
                assert(store.model() =~= old_model.take(j + 1).filter(pp) + old_model.skip(j + 1));
            }
            i = i + 1;
        }
        proof {
            j = j + 1;
        }
    }
    proof {
        assert(old_model.take(j) =~= old_model);
        assert(store.model() =~= old_model.filter(pp));
        lemma_model_map_filter(old_model, p, pp);
        assert(model_map(old_model).dom().filter(p) =~= model_map(old_model).dom().filter(
            |k: Seq<char>| !is_stale_chunk(k, key.spec_bytes().subrange(0, plen - 9), meta),
        ));
    }
}

/// When the store holds `MAX_PLAIN_ENTRIES` or more plain entries and `key`
/// is not stored yet, evicts the oldest plain entry.
fn evict_oldest_plain_if_full(store: &mut PayloadStoreMap, key: &str)
    ensures
        if plain_count(old(store)@) >= MAX_PLAIN_ENTRIES && !old(store)@.contains_key(key@) {
            exists|v: Seq<char>|
                is_oldest_plain(old(store)@, v) && final(store)@ == old(store)@.remove(v)
        } else {
            final(store)@ == old(store)@
        },
{
    let n = store.count();
    let ghost old_model = store.model();
    let ghost pl = |k: Seq<char>| is_plain_key(k);
    let ghost ppl = |x: (Seq<char>, EntryView)| pl(x.0);
    let mut count: usize = 0;
    let mut best: Option<usize> = None;
    let mut i: usize = 0;
    proof {
        assert(old_model.take(0).filter(ppl) =~= Seq::<(Seq<char>, EntryView)>::empty()) by {
            reveal_with_fuel(Seq::filter, 1);
        }
    }
    while i < n
        invariant
            n == old_model.len(),
            store.model() == old_model,
            i <= n,
            count == old_model.take(i as int).filter(ppl).len(),
            count <= i,
            forall|x: (Seq<char>, EntryView)| #[trigger] ppl(x) == pl(x.0),
            forall|k: Seq<char>| #[trigger] pl(k) == is_plain_key(k),
            count > 0 ==> best is Some,
            best is None ==> forall|j: int| 0 <= j < i ==> !is_plain_key(#[trigger] old_model[j].0),
            match best {
                Some(b) => b < i && is_plain_key(old_model[b as int].0) && forall|j: int|
                    0 <= j < i && is_plain_key(#[trigger] old_model[j].0) ==> ts_le(
                        old_model[b as int].1.received_at,
                        old_model[j].1.received_at,
                    ),
                None => true,
            },
        decreases n - i,
    {
        let plain = !key_has_chunk_infix(store.key_at(i).as_str());
        proof {
            let x = old_model[i as int];
            assert(old_model.take(i + 1).drop_last() =~= old_model.take(i as int));
            assert(old_model.take(i + 1).last() == x);
            reveal_with_fuel(Seq::filter, 1);
            if pl(x.0) {
                assert(old_model.take(i + 1).filter(ppl) == old_model.take(i as int).filter(ppl).push(x));
            } else {
                assert(old_model.take(i + 1).filter(ppl) == old_model.take(i as int).filter(ppl));
            }
        }
        if plain {
            count = count + 1;
            match best {
                None => {
                    best = Some(i);
                },
                Some(b) => {
                    if !store.entry_at(b).received_at.le(&store.entry_at(i).received_at) {
                        best = Some(i);
                    }
                },
            }
        }
        i = i + 1;
    }
    proof {
        assert(old_model.take(n as int) =~= old_model);
        lemma_model_map_filter(old_model, pl, ppl);
        assert(model_map(old_model).dom().filter(pl) =~= model_map(old_model).dom().filter(
            |k: Seq<char>| is_plain_key(k),
        ));
    }
    if count >= MAX_PLAIN_ENTRIES && !store.contains_key(key) {
        let b = best.unwrap();
        proof {
            lemma_model_map_at(old_model, b as int);
            lemma_model_map_remove(old_model, b as int);
            let m = model_map(old_model);
            let v = old_model[b as int].0;
            assert forall|k: Seq<char>| m.contains_key(k) && is_plain_key(k) implies ts_le(
                m[v].received_at,
                #[trigger] m[k].received_at,
            ) by {
                let idx = choose|idx: int| 0 <= idx < old_model.len() && old_model[idx].0 == k;
                lemma_model_map_at(old_model, idx);
            }
            assert(is_oldest_plain(m, v));
        }
        store.remove_at(b);
    }
}

/// What inserting `entry` under `key` makes of the export store `old`:
/// - a chunk key with insane metadata leaves the store as it is;
/// - a sane chunk key purges the stored chunks of its topic from other
///   generations, then is stored, evicting nothing else;
/// - a plain key is stored, after evicting the oldest plain entry when
///   `MAX_PLAIN_ENTRIES` plain entries are stored and the key is new.
pub open spec fn insert_payload_result(
    old: Map<Seq<char>, EntryView>,
    key: Seq<char>,
    entry: EntryView,
    new: Map<Seq<char>, EntryView>,
) -> bool {
    match spec_parse_chunk_key(encode_utf8(key)) {
        Some((topic, meta)) => if !spec_is_sane(meta) {
            new == old
        } else {
            new == old.restrict(old.dom().filter(|k: Seq<char>| !is_stale_chunk(k, topic, meta))).insert(
                key,
                entry,
            )
        },
        None => if plain_count(old) >= MAX_PLAIN_ENTRIES && !old.contains_key(key) {
            exists|v: Seq<char>| is_oldest_plain(old, v) && new == old.remove(v).insert(key, entry)
        } else {
            new == old.insert(key, entry)
        },
    }
}

/// Inserts a payload into the export store, enforcing the eviction policy:
/// - chunk keys: entries with insane metadata are dropped; otherwise every
///   stored chunk of the same topic from another generation is purged, and
///   no other entry is evicted;
/// - plain keys: once the store holds `MAX_PLAIN_ENTRIES` plain entries, a
///   new key evicts the oldest plain entry.
///
/// Assumes `/__chunk/` is a reserved infix never used in plain topic names.
pub fn insert_payload(store: &mut PayloadStoreMap, key: String, entry: PayloadEntry)
    ensures
        insert_payload_result(old(store)@, key@, entry@, final(store)@),
{
    match parse_chunk_key(key.as_str()) {
        Some((topic, meta)) => {
            if !meta.is_sane() {
                return;
            }
            let key_len = key.as_str().as_bytes().len();
            proof {
                let kb = encode_utf8(key@);
                lemma_find_from(kb, chunk_infix(), 0);
                let i = find_from(kb, chunk_infix(), 0)->0;
                assert(topic.spec_bytes() == kb.subrange(0, i));
                assert(occurs_at(kb, chunk_infix(), i));
            }
            let plen = topic.len() + 9;
            purge_stale_chunks(store, key.as_str(), plen, meta);
            store.insert(key, entry);
        },
        None => {
            evict_oldest_plain_if_full(store, key.as_str());
            store.insert(key, entry);
        },
    }
}

/// Metadata of key `k` when it is a sane chunk key of `topic`.
pub open spec fn member_meta(k: Seq<char>, topic: Seq<u8>) -> Option<ChunkMeta> {
    match spec_parse_chunk_key(encode_utf8(k)) {
        Some((t, meta)) => if t == topic && spec_is_sane(meta) {
            Some(meta)
        } else {
            None
        },
        None => None,
    }
}

/// `k` is a stored sane chunk of `topic`.
pub open spec fn is_member(m: Map<Seq<char>, EntryView>, k: Seq<char>, topic: Seq<u8>) -> bool {
    m.contains_key(k) && member_meta(k, topic) is Some
}

/// `k` is a stored sane chunk of `topic` in the (size, chunk count) group.
pub open spec fn in_group(
    m: Map<Seq<char>, EntryView>,
    k: Seq<char>,
    topic: Seq<u8>,
    size: usize,
    chunks: usize,
) -> bool {
    is_member(m, k, topic) && member_meta(k, topic)->0.total_size == size && member_meta(
        k,
        topic,
    )->0.total_chunks == chunks
}

/// The chunk indices stored for a group.
pub open spec fn group_indices(
    m: Map<Seq<char>, EntryView>,
    topic: Seq<u8>,
    size: usize,
    chunks: usize,
) -> Set<usize> {
    Set::new(
        |i: usize|
            exists|k: Seq<char>| #[trigger]
                in_group(m, k, topic, size, chunks) && member_meta(k, topic)->0.index == i,
    )
}

/// The group holds a chunk of `topic` received no earlier than any other
/// stored chunk of `topic`.
pub open spec fn is_newest_group(
    m: Map<Seq<char>, EntryView>,
    topic: Seq<u8>,
    size: usize,
    chunks: usize,
) -> bool {
    exists|k: Seq<char>|
        #![trigger in_group(m, k, topic, size, chunks)]
        in_group(m, k, topic, size, chunks) && forall|k2: Seq<char>|
            is_member(m, k2, topic) ==> ts_le(m[k2].received_at, #[trigger] m[k].received_at)
}

/// The metadata is that of chunk `x` of the (size, chunk count) group.
pub open spec fn meta_in_group(mo: Option<ChunkMeta>, size: usize, chunks: usize, x: usize) -> bool {
    match mo {
        Some(mm) => mm.total_size == size && mm.total_chunks == chunks && mm.index == x,
        None => false,
    }
}

/// Whether two byte strings are equal.
fn bytes_equal(a: &[u8], b: &[u8]) -> (res: bool)
    ensures
        res == (a@ == b@),
{
    if a.len() != b.len() {
        return false;
    }
    let r = prefix_equal(a, b, a.len());
    proof {
        assert(a@.subrange(0, a@.len() as int) =~= a@);
        assert(b@.subrange(0, b@.len() as int) =~= b@);
    }
    r
}

/// Metadata of `k` when it is a sane chunk key of `topic`.
fn member_meta_of(k: &str, topic: &str) -> (res: Option<ChunkMeta>)
    ensures
        res == member_meta(k@, topic.spec_bytes()),
{
    match parse_chunk_key(k) {
        Some((t, meta)) => {
            if bytes_equal(t.as_bytes(), topic.as_bytes()) && meta.is_sane() {
                Some(meta)
            } else {
                None
            }
        },
        None => None,
    }
}

/// The newest sane chunk of `topic` among the first `n` stored pairs, as
/// (position, metadata): a later chunk received no earlier than the one
/// found so far replaces it, so of chunks received at the same time the
/// last stored one is taken.
pub open spec fn newest_upto(model: Seq<(Seq<char>, EntryView)>, topic: Seq<u8>, n: nat) -> Option<(int, ChunkMeta)>
    decreases n,
{
    if n == 0 {
        None
    } else {
        let prev = newest_upto(model, topic, (n - 1) as nat);
        match member_meta(model[n - 1].0, topic) {
            Some(meta) => match prev {
                None => Some(((n - 1) as int, meta)),
                Some(bm) => if ts_le(model[bm.0].1.received_at, model[n - 1].1.received_at) {
                    Some(((n - 1) as int, meta))
                } else {
                    prev
                },
            },
            None => prev,
        }
    }
}

/// The (size, chunk count) group that export and progress both follow:
/// that of the newest sane chunk of `topic` (see `newest_upto`).
pub open spec fn chosen_group(store: PayloadStoreMap, topic: Seq<u8>) -> Option<(usize, usize)> {
    match newest_upto(store.model(), topic, store.model().len()) {
        Some(bm) => Some((bm.1.total_size, bm.1.total_chunks)),
        None => None,
    }
}

/// The (size, chunk count) group holding the newest stored chunk of `topic`.
fn newest_group(store: &PayloadStoreMap, topic: &str) -> (res: Option<(usize, usize)>)
    ensures
        res == chosen_group(*store, topic.spec_bytes()),
        match res {
            Some((size, chunks)) => is_newest_group(store@, topic.spec_bytes(), size, chunks),
            None => forall|k: Seq<char>| !is_member(store@, k, topic.spec_bytes()),
        },
{
    let n = store.count();
    let ghost model = store.model();
    let ghost tb = topic.spec_bytes();
    let mut best: Option<(usize, ChunkMeta)> = None;
    let mut i: usize = 0;
    while i < n
        invariant
            n == model.len(),
            model == store.model(),
            keys_distinct(model),
            tb == topic.spec_bytes(),
            i <= n,
            match best {
                Some((b, meta)) => newest_upto(model, tb, i as nat) == Some((b as int, meta)),
                None => newest_upto(model, tb, i as nat) is None,
            },
            match best {
                Some((b, meta)) => b < i && member_meta(model[b as int].0, tb) == Some(meta)
                    && forall|j: int|
                    0 <= j < i && (#[trigger] member_meta(model[j].0, tb)) is Some ==> ts_le(
                        model[j].1.received_at,
                        model[b as int].1.received_at,
                    ),
                None => forall|j: int| 0 <= j < i ==> (#[trigger] member_meta(model[j].0, tb)) is None,
            },
        decreases n - i,
    {
        let mm = member_meta_of(store.key_at(i).as_str(), topic);
        if let Some(meta) = mm {
            match best {
                None => {
                    best = Some((i, meta));
                },
                Some((b, _)) => {
                    if store.entry_at(b).received_at.le(&store.entry_at(i).received_at) {
                        best = Some((i, meta));
                    }
                },
            }
        }
        i = i + 1;
    }
    match best {
        None => {
            proof {
                assert forall|k: Seq<char>| !is_member(store@, k, tb) by {
                    if store@.contains_key(k) {
                        let j = choose|j: int| 0 <= j < model.len() && model[j].0 == k;
                        assert(member_meta(model[j].0, tb) is None);
                    }
                }
            }
            None
        },
        Some((b, meta)) => {
            proof {
                let m = store@;
                let kb = model[b as int].0;
                lemma_model_map_at(model, b as int);
                assert(in_group(m, kb, tb, meta.total_size, meta.total_chunks));
                assert forall|k2: Seq<char>| is_member(m, k2, tb) implies ts_le(
                    m[k2].received_at,
                    #[trigger] m[kb].received_at,
                ) by {
                    let j = choose|j: int| 0 <= j < model.len() && model[j].0 == k2;
                    lemma_model_map_at(model, j);
                    assert(member_meta(model[j].0, tb) is Some);
                }
            }
            Some((meta.total_size, meta.total_chunks))
        },
    }
}

/// The distinct chunk indices stored for a group.
fn group_distinct_indices(store: &PayloadStoreMap, topic: &str, size: usize, chunks: usize) -> (res: Vec<usize>)
    ensures
        res@.no_duplicates(),
        res@.to_set() == group_indices(store@, topic.spec_bytes(), size, chunks),
        group_indices(store@, topic.spec_bytes(), size, chunks).finite(),
        group_indices(store@, topic.spec_bytes(), size, chunks).len() == res@.len(),
{
    let n = store.count();
    let ghost model = store.model();
    let ghost tb = topic.spec_bytes();
    let mut idxs: Vec<usize> = Vec::new();
    let mut i: usize = 0;
    while i < n
        invariant
            n == model.len(),
            model == store.model(),
            keys_distinct(model),
            tb == topic.spec_bytes(),
            i <= n,
            idxs@.no_duplicates(),
            forall|x: usize|
                idxs@.contains(x) <==> exists|j: int|
                    0 <= j < i && meta_in_group(#[trigger] member_meta(model[j].0, tb), size, chunks, x),
        decreases n - i,
    {
        let ghost old_idxs = idxs@;
        let mm = member_meta_of(store.key_at(i).as_str(), topic);
        let ghost cur = member_meta(model[i as int].0, tb);
        if let Some(meta) = mm {
            if meta.total_size == size && meta.total_chunks == chunks {
                let mut seen = false;
                let mut q: usize = 0;
                while q < idxs.len()
                    invariant
                        q <= idxs@.len(),
                        seen == exists|r: int| 0 <= r < q && idxs@[r] == meta.index,
                    decreases idxs.len() - q,
                {
                    if idxs[q] == meta.index {
                        seen = true;
                    }
                    q = q + 1;
                }
                if !seen {
                    proof {
                        assert(!idxs@.contains(meta.index));
                    }
                    idxs.push(meta.index);
                    proof {
                        assert forall|r: int, t: int| 0 <= r < idxs@.len() && 0 <= t < idxs@.len() && r != t
                            implies idxs@[r] != idxs@[t] by {
                            if r < old_idxs.len() && t < old_idxs.len() {
                                assert(old_idxs[r] != old_idxs[t]);
                            } else if r == old_idxs.len() {
                                assert(old_idxs.contains(old_idxs[t]));
                            } else {
                                assert(old_idxs.contains(old_idxs[r]));
                            }
                        }
                    }
                } else {
                    proof {
                        assert(idxs@.contains(meta.index));
                    }
                }
            }
        }
        proof {
            assert forall|x: usize| #[trigger] idxs@.contains(x) <==> (old_idxs.contains(x)
                || meta_in_group(cur, size, chunks, x)) by {
                if idxs@ != old_idxs {
                    assert(idxs@ == old_idxs.push(cur->0.index));
                    if idxs@.contains(x) && !old_idxs.contains(x) {
                        let r = choose|r: int| 0 <= r < idxs@.len() && idxs@[r] == x;
                        assert(r == old_idxs.len());
                    }
                    if old_idxs.contains(x) {
                        let r = choose|r: int| 0 <= r < old_idxs.len() && old_idxs[r] == x;
                        assert(idxs@[r] == x);
                    }
                    if meta_in_group(cur, size, chunks, x) {
                        assert(idxs@[old_idxs.len() as int] == x);
                    }
                }
            }
            assert forall|x: usize|
                idxs@.contains(x) <==> exists|j: int|
                    0 <= j < i + 1 && meta_in_group(#[trigger] member_meta(model[j].0, tb), size, chunks, x) by {
                if meta_in_group(cur, size, chunks, x) {
                    assert(meta_in_group(member_meta(model[i as int].0, tb), size, chunks, x));
                }
                if exists|j: int|
                    0 <= j < i + 1 && meta_in_group(#[trigger] member_meta(model[j].0, tb), size, chunks, x) {
                    let j = choose|j: int|
                        0 <= j < i + 1 && meta_in_group(#[trigger] member_meta(model[j].0, tb), size, chunks, x);
                    if j < i {
                        assert(old_idxs.contains(x));
                    }
                }
            }
        }
        i = i + 1;
    }
    proof {
        let m = store@;
        let g = group_indices(m, tb, size, chunks);
        assert(idxs@.to_set() =~= g) by {
            assert forall|x: usize| idxs@.to_set().contains(x) implies g.contains(x) by {
                let j = choose|j: int|
                    0 <= j < n && meta_in_group(#[trigger] member_meta(model[j].0, tb), size, chunks, x);
                lemma_model_map_at(model, j);
                assert(in_group(m, model[j].0, tb, size, chunks));
            }
            assert forall|x: usize| g.contains(x) implies idxs@.to_set().contains(x) by {
                let k = choose|k: Seq<char>| #[trigger]
                    in_group(m, k, tb, size, chunks) && member_meta(k, tb)->0.index == x;
                let j = choose|j: int| 0 <= j < model.len() && model[j].0 == k;
                assert(member_meta(model[j].0, tb) is Some);
            }
        }
        idxs@.unique_seq_to_set();
    }
    idxs
}

/// Progress of the newest chunk group for a topic.
#[derive(Debug, Clone, Copy, PartialEq, Eq, Structural)]
pub struct ChunkProgress {
    pub received: usize,
    pub total_chunks: usize,
    pub total_size: usize,
}

/// Scans the store for sane chunks of `topic`, grouped by (total_size,
/// total_chunks), and reports the group holding the newest chunk: stale
/// generations never inflate the count.
pub fn chunk_progress(store: &PayloadStoreMap, topic: &str) -> (res: Option<ChunkProgress>)
    ensures
        res is None <==> forall|k: Seq<char>| !is_member(store@, k, topic.spec_bytes()),
        res matches Some(p) ==> {
            &&& chosen_group(*store, topic.spec_bytes()) == Some((p.total_size, p.total_chunks))
            &&& is_newest_group(store@, topic.spec_bytes(), p.total_size, p.total_chunks)
            &&& p.received == group_indices(
                store@,
                topic.spec_bytes(),
                p.total_size,
                p.total_chunks,
            ).len()
        },
{
    match newest_group(store, topic) {
        None => None,
        Some((total_size, total_chunks)) => {
            let idxs = group_distinct_indices(store, topic, total_size, total_chunks);
            proof {
                let k = choose|k: Seq<char>|
                    #![trigger in_group(store@, k, topic.spec_bytes(), total_size, total_chunks)]
                    in_group(store@, k, topic.spec_bytes(), total_size, total_chunks) && forall|k2: Seq<char>|
                        is_member(store@, k2, topic.spec_bytes()) ==> ts_le(
                            store@[k2].received_at,
                            #[trigger] store@[k].received_at,
                        );
                assert(is_member(store@, k, topic.spec_bytes()));
            }
            Some(ChunkProgress { received: idxs.len(), total_chunks, total_size })
        },
    }
}

/// Concatenation of the stored payloads of `ks`, in order.
pub open spec fn concat_payloads(m: Map<Seq<char>, EntryView>, ks: Seq<Seq<char>>) -> Seq<u8>
    decreases ks.len(),
{
    if ks.len() == 0 {
        Seq::empty()
    } else {
        concat_payloads(m, ks.drop_last()) + m[ks.last()].bytes
    }
}

/// The first transmitted filename among the payloads of `ks`, in order.
pub open spec fn first_filename(m: Map<Seq<char>, EntryView>, ks: Seq<Seq<char>>) -> Option<Seq<char>>
    decreases ks.len(),
{
    if ks.len() == 0 {
        None
    } else {
        let f = first_filename(m, ks.drop_last());
        if f is Some {
            f
        } else {
            m[ks.last()].filename
        }
    }
}

/// `ks` lists, for each index `i` of the group, a stored chunk with index `i`.
pub open spec fn is_reassembly(
    m: Map<Seq<char>, EntryView>,
    topic: Seq<u8>,
    size: usize,
    chunks: usize,
    ks: Seq<Seq<char>>,
) -> bool {
    &&& ks.len() == chunks
    &&& forall|i: int|
        0 <= i < ks.len() ==> #[trigger] in_group(m, ks[i], topic, size, chunks) && member_meta(
            ks[i],
            topic,
        )->0.index == i
}

/// Error text when nothing is stored for a topic.
pub open spec fn nothing_stored_message(topic: Seq<char>) -> Seq<char> {
    "No payload stored for '"@ + topic + "'"@
}

/// Error text for a transfer with missing chunks.
pub open spec fn incomplete_message(have: nat, total: nat) -> Seq<char> {
    "Incomplete transfer: have "@ + dec_digits(have) + " of "@ + dec_digits(total) + " chunks"@
}

/// Error text for chunks whose lengths do not add up to the announced size.
pub open spec fn size_mismatch_message(got: nat, expected: nat) -> Seq<char> {
    "Reassembled size mismatch: got "@ + dec_digits(got) + " bytes, expected "@ + dec_digits(
        expected,
    )
}

/// A payload ready for export.
#[derive(Debug)]
pub struct ExportPayload {
    pub bytes: Vec<u8>,
    pub filename: Option<String>,
}

/// The set of indices below `n`.
pub open spec fn indices_below(n: usize) -> Set<usize> {
    Set::new(|x: usize| x < n)
}

pub(crate) proof fn lemma_indices_below(n: usize)
    ensures
        indices_below(n).finite(),
        indices_below(n).len() == n,
    decreases n,
{
    if n == 0 {
        assert(indices_below(n) =~= Set::empty());
    } else {
        lemma_indices_below((n - 1) as usize);
        assert(indices_below((n - 1) as usize).insert((n - 1) as usize) =~= indices_below(n));
    }
}

/// Position of a stored chunk of the group with index `idx`.
fn find_group_member(store: &PayloadStoreMap, topic: &str, size: usize, chunks: usize, idx: usize) -> (res: Option<usize>)
    ensures
        match res {
            Some(p) => p < store.model().len() && member_meta(store.model()[p as int].0, topic.spec_bytes())
                == Some(ChunkMeta { total_size: size, total_chunks: chunks, index: idx }),
            None => !group_indices(store@, topic.spec_bytes(), size, chunks).contains(idx),
        },
{
    let n = store.count();
    let ghost model = store.model();
    let mut i: usize = 0;
    while i < n
        invariant
            n == model.len(),
            model == store.model(),
            keys_distinct(model),
            i <= n,
            forall|j: int| 0 <= j < i ==> #[trigger] member_meta(model[j].0, topic.spec_bytes()) != Some(
                ChunkMeta { total_size: size, total_chunks: chunks, index: idx },
            ),
        decreases n - i,
    {
        let mm = member_meta_of(store.key_at(i).as_str(), topic);
        if let Some(meta) = mm {
            if meta.total_size == size && meta.total_chunks == chunks && meta.index == idx {
                return Some(i);
            }
        }
        i = i + 1;
    }
    proof {
        let m = store@;
        let tb = topic.spec_bytes();
        if group_indices(m, tb, size, chunks).contains(idx) {
            let k = choose|k: Seq<char>| #[trigger]
                in_group(m, k, tb, size, chunks) && member_meta(k, tb)->0.index == idx;
            let j = choose|j: int| 0 <= j < model.len() && model[j].0 == k;
            assert(member_meta(model[j].0, tb) == Some(ChunkMeta { total_size: size, total_chunks: chunks, index: idx }));
        }
    }
    None
}

/// Builds an error text from its parts.
fn message3(a: &str, x: u128, b: &str, y: u128, c: &str) -> (res: String)
    ensures
        res@ == a@ + dec_digits(x as nat) + b@ + dec_digits(y as nat) + c@,
{
    let mut v = String::from_str(a);
    push_decimal(&mut v, x);
    v.append(b);
    push_decimal(&mut v, y);
    v.append(c);
    v
}

/// Retrieves and validates a payload for export:
/// 1. a payload stored under the topic key itself is exported as is;
/// 2. otherwise the newest chunk group of the topic is reassembled: its
///    index set must be exactly `0..total_chunks` and the reassembled length
///    must equal `total_size`.
///
/// Errors carry a human-readable reason.
pub fn get_payload_for_export(store: &PayloadStoreMap, topic: &str) -> (res: Result<ExportPayload, String>)
    ensures
        ({
            let m = store@;
            let tb = topic.spec_bytes();
            if m.contains_key(topic@) {
                res matches Ok(p) && p.bytes@ == m[topic@].bytes && opt_str_view(p.filename)
                    == m[topic@].filename
            } else if forall|k: Seq<char>| !is_member(m, k, tb) {
                res matches Err(e) && e@ == nothing_stored_message(topic@)
            } else {
                exists|size: usize, chunks: usize|
                    #![trigger group_indices(m, tb, size, chunks)]
                    {
                        &&& chosen_group(*store, tb) == Some((size, chunks))
                        &&& is_newest_group(m, tb, size, chunks)
                        &&& group_indices(m, tb, size, chunks).finite()
                        &&& if group_indices(m, tb, size, chunks).len() != chunks {
                            res matches Err(e) && e@ == incomplete_message(
                                group_indices(m, tb, size, chunks).len(),
                                chunks as nat,
                            )
                        } else {
                            exists|ks: Seq<Seq<char>>|
                                #[trigger] is_reassembly(m, tb, size, chunks, ks) && if concat_payloads(
                                    m,
                                    ks,
                                ).len() != size {
                                    res matches Err(e) && e@ == size_mismatch_message(
                                        concat_payloads(m, ks).len(),
                                        size as nat,
                                    )
                                } else {
                                    res matches Ok(p) && p.bytes@ == concat_payloads(m, ks)
                                        && opt_str_view(p.filename) == first_filename(m, ks)
                                }
                        }
                    }
            }
        }),
{
    if let Some(e) = store.get(topic) {
        return Ok(ExportPayload { bytes: e.bytes.clone(), filename: clone_opt_string(&e.filename) });
    }
    let ghost m = store@;
    let ghost tb = topic.spec_bytes();
    let (size, chunks) = match newest_group(store, topic) {
        Some(g) => g,
        None => {
            let mut v = String::from_str("No payload stored for '");
            v.append(topic);
            v.append("'");
            return Err(v);
        },
    };
    let idxs = group_distinct_indices(store, topic, size, chunks);
    if idxs.len() != chunks {
        return Err(
            message3(
                "Incomplete transfer: have ",
                idxs.len() as u128,
                " of ",
                chunks as u128,
                " chunks",
            ),
        );
    }
    proof {
        let g = group_indices(m, tb, size, chunks);
        assert(g.subset_of(indices_below(chunks))) by {
            assert forall|x: usize| g.contains(x) implies indices_below(chunks).contains(x) by {
                let k = choose|k: Seq<char>| #[trigger]
                    in_group(m, k, tb, size, chunks) && member_meta(k, tb)->0.index == x;
            }
        }
        lemma_indices_below(chunks);
        vstd::set_lib::lemma_subset_equality(g, indices_below(chunks));
    }
    // Locate one stored chunk per index, adding up their lengths.
    let _ = store.count();
    let ghost model = store.model();
    let mut positions: Vec<usize> = Vec::new();
    let mut total: u128 = 0;
    let mut idx: usize = 0;
    while idx < chunks
        invariant
            model == store.model(),
            keys_distinct(model),
            m == model_map(model),
            tb == topic.spec_bytes(),
            idx <= chunks,
            group_indices(m, tb, size, chunks) == indices_below(chunks),
            positions@.len() == idx,
            forall|i: int| 0 <= i < idx ==> #[trigger] positions@[i] < model.len() && member_meta(
                model[positions@[i] as int].0,
                tb,
            ) == Some(ChunkMeta { total_size: size, total_chunks: chunks, index: i as usize }),
            total as int == concat_payloads(m, positions@.map_values(|q: usize| model[q as int].0)).len(),
            total as int <= idx as int * 18446744073709551616,
        decreases chunks - idx,
    {
        let found = find_group_member(store, topic, size, chunks, idx);
        proof {
            assert(indices_below(chunks).contains(idx));
        }
        let q = found.unwrap();
        let len = store.entry_at(q).bytes.len();
        proof {
            let ks0 = positions@.map_values(|q: usize| model[q as int].0);
            let ks1 = positions@.push(q).map_values(|q: usize| model[q as int].0);
            assert(ks1.drop_last() =~= ks0);
            lemma_model_map_at(model, q as int);
        }
        positions.push(q);
        total = total + len as u128;
        idx = idx + 1;
    }
    let ghost ks = positions@.map_values(|q: usize| model[q as int].0);
    proof {
        assert forall|i: int| 0 <= i < ks.len() implies #[trigger] in_group(m, ks[i], tb, size, chunks)
            && member_meta(ks[i], tb)->0.index == i by {
            lemma_model_map_at(model, positions@[i] as int);
        }
        assert(is_reassembly(m, tb, size, chunks, ks));
    }
    if total != size as u128 {
        proof {
            reveal_strlit("");
            let g = group_indices(m, tb, size, chunks);
            assert(g.len() == chunks);
            assert(concat_payloads(m, ks).len() == total);
        }
        return Err(
            message3(
                "Reassembled size mismatch: got ",
                total,
                " bytes, expected ",
                size as u128,
                "",
            ),
        );
    }
    let mut bytes: Vec<u8> = Vec::new();
    let mut filename: Option<String> = None;
    let mut i: usize = 0;
    while i < chunks
        invariant
            model == store.model(),
            keys_distinct(model),
            m == model_map(model),
            i <= chunks,
            positions@.len() == chunks,
            forall|j: int| 0 <= j < chunks ==> #[trigger] positions@[j] < model.len(),
            ks == positions@.map_values(|q: usize| model[q as int].0),
            bytes@ == concat_payloads(m, ks.take(i as int)),
            opt_str_view(filename) == first_filename(m, ks.take(i as int)),
        decreases chunks - i,
    {
        let q = positions[i];
        let e = store.entry_at(q);
        proof {
            lemma_model_map_at(model, q as int);
            assert(ks.take(i + 1).drop_last() =~= ks.take(i as int));
            assert(ks.take(i + 1).last() == ks[i as int]);
        }
        bytes.extend_from_slice(e.bytes.as_slice());
        if filename.is_none() {
            filename = clone_opt_string(&e.filename);
        }
        proof {
            assert(bytes@ =~= concat_payloads(m, ks.take(i as int)) + m[ks[i as int]].bytes);
        }
        i = i + 1;
    }
    proof {
        assert(ks.take(chunks as int) =~= ks);
    }
    Ok(ExportPayload { bytes, filename })
}


/// Bytes in a gibibyte.
pub const GIB: usize = 1073741824;

/// Bytes in a mebibyte.
pub const MIB: usize = 1048576;

/// Integers below this bound are exactly representable as `f64`.
pub open spec fn f64_exact_bound() -> nat {
    9007199254740992
}

/// Spacing of the `f64` values around `n`: the power of two by which `n`
/// must be divided to fit the 53 significand bits of an `f64`.
pub open spec fn f64_unit(n: nat) -> nat
    decreases n,
{
    if n < f64_exact_bound() {
        1
    } else {
        2 * f64_unit(n / 2)
    }
}

/// `x / d` rounded to the nearest integer, ties to the even one.
pub open spec fn div_round_even(x: nat, d: nat) -> nat {
    let q = x / d;
    let r = x % d;
    if r * 2 > d || (r * 2 == d && q % 2 == 1) {
        q + 1
    } else {
        q
    }
}

/// `n` as an `f64`: rounded to the nearest multiple of its unit, ties to
/// the even multiple (the conversion `n as f64`).
pub open spec fn round_to_f64(n: nat) -> nat {
    div_round_even(n, f64_unit(n)) * f64_unit(n)
}

/// A number of hundredths written with two decimals, as `{:.2}` writes it.
pub open spec fn two_decimals(h: nat) -> Seq<char> {
    dec_digits(h / 100) + seq!['.'] + dec_digits((h % 100) / 10) + dec_digits(h % 10)
}

/// Human-readable size: gibibytes or mebibytes with two decimals (the
/// exact value of the size as an `f64`, divided by the unit, rounded to
/// hundredths with ties to even), or the plain number of bytes.
pub open spec fn spec_format_size(size: nat) -> Seq<char> {
    if size >= GIB {
        two_decimals(div_round_even(round_to_f64(size) * 100, GIB as nat)) + " GB"@
    } else if size >= MIB {
        two_decimals(div_round_even(size * 100, MIB as nat)) + " MB"@
    } else {
        dec_digits(size) + " bytes"@
    }
}

/// `x / d` rounded to the nearest integer, ties to the even one.
fn div_round_even_exec(x: u128, d: u128) -> (res: u128)
    requires
        d > 0,
        d < 0x1000_0000_0000_0000_0000_0000_0000_0000,
        x < 0x1000_0000_0000_0000_0000_0000_0000_0000,
    ensures
        res == div_round_even(x as nat, d as nat),
{
    let q = x / d;
    let r = x % d;
    proof {
        assert(q <= x) by (nonlinear_arith)
            requires
                q == x / d,
                d > 0,
        ;
        assert(r < d);
    }
    if r * 2 > d || (r * 2 == d && q % 2 == 1) {
        q + 1
    } else {
        q
    }
}

/// `n` rounded to the nearest `f64`.
fn round_to_f64_exec(n: u64) -> (res: u128)
    ensures
        res == round_to_f64(n as nat),
        res <= 2 * n + 1,
{
    let mut m: u64 = n;
    let mut p: u128 = 1;
    while m >= 9007199254740992
        invariant
            p >= 1,
            p <= n + 1,
            m as nat == n as nat / p as nat,
            p * f64_unit(m as nat) == f64_unit(n as nat),
            m >= 9007199254740992 ==> p * 2 <= n,
        decreases m,
    {
        proof {
            vstd::arithmetic::div_mod::lemma_div_denominator(n as int, p as int, 2);
            assert(f64_unit(m as nat) == 2 * f64_unit((m / 2) as nat));
            assert(p * (2 * f64_unit((m / 2) as nat)) == (p * 2) * f64_unit((m / 2) as nat)) by (nonlinear_arith);
            let (ni, pi, mi) = (n as int, p as int, m as int);
            assert(mi / 2 >= 9007199254740992 ==> pi * 4 <= ni) by (nonlinear_arith)
                requires
                    mi == ni / pi,
                    pi >= 1,
            ;
        }
        m = m / 2;
        p = p * 2;
    }
    proof {
        let u = f64_unit(m as nat);
        let f = f64_unit(n as nat);
        assert(u == 1);
        assert(p == f) by (nonlinear_arith)
            requires
                p * u == f,
                u == 1,
        ;
    }
    let q = div_round_even_exec(n as u128, p);
    proof {
        assert(q == div_round_even(n as nat, f64_unit(n as nat)));
    }
    proof {
        assert(q <= n as nat / p as nat + 1);
        let (ni, pi, qi) = (n as int, p as int, q as int);
        assert(qi * pi <= 2 * ni + 1) by (nonlinear_arith)
            requires
                qi <= ni / pi + 1,
                pi >= 1,
                pi <= ni + 1,
                ni >= 0,
        ;
    }
    q * p
}

/// Appends `h` hundredths written with two decimals.
fn push_two_decimals(out: &mut String, h: u128)
    ensures
        final(out)@ == old(out)@ + two_decimals(h as nat),
{
    push_decimal(out, h / 100);
    out.append(".");
    push_decimal(out, (h % 100) / 10);
    push_decimal(out, h % 10);
    proof {
        reveal_strlit(".");
    }
}

/// Formats a byte size into a human-readable string (GB/MB/bytes).
pub fn format_size(size: usize) -> (res: String)
    ensures
        res@ == spec_format_size(size as nat),
{
    let mut out = String::new();
    if size >= GIB {
        let s = round_to_f64_exec(size as u64);
        let h = div_round_even_exec(s * 100, GIB as u128);
        push_two_decimals(&mut out, h);
        out.append(" GB");
    } else if size >= MIB {
        let h = div_round_even_exec(size as u128 * 100, MIB as u128);
        push_two_decimals(&mut out, h);
        out.append(" MB");
    } else {
        push_decimal(&mut out, size as u128);
        out.append(" bytes");
    }
    proof {
        assert(out@ =~= spec_format_size(size as nat));
    }
    out
}


/// A Unicode `White_Space` character, the set `str::trim` removes.
pub open spec fn is_white_space(c: char) -> bool {
    let v = c as u32;
    ||| 0x9 <= v <= 0xD
    ||| v == 0x20
    ||| v == 0x85
    ||| v == 0xA0
    ||| v == 0x1680
    ||| 0x2000 <= v <= 0x200A
    ||| v == 0x2028
    ||| v == 0x2029
    ||| v == 0x202F
    ||| v == 0x205F
    ||| v == 0x3000
}

/// The text is empty once trimmed: every character is white space.
pub open spec fn is_blank(s: Seq<char>) -> bool {
    forall|i: int| 0 <= i < s.len() ==> is_white_space(#[trigger] s[i])
}

/// An ASCII letter or digit.
pub open spec fn is_ascii_alnum(c: char) -> bool {
    ||| '0' <= c <= '9'
    ||| 'A' <= c <= 'Z'
    ||| 'a' <= c <= 'z'
}

/// Index of the last occurrence of `c` in `t`, or -1.
pub open spec fn rfind_char(t: Seq<char>, c: char) -> int
    decreases t.len(),
{
    if t.len() == 0 {
        -1
    } else if t.last() == c {
        t.len() - 1
    } else {
        rfind_char(t.drop_last(), c)
    }
}

/// The part of a topic after its last `/` (all of it when it has none).
pub open spec fn last_segment(t: Seq<char>) -> Seq<char> {
    t.subrange(rfind_char(t, '/') + 1, t.len() as int)
}

/// The name ends in a plausible extension: split at its last `.`, the stem
/// is not empty and the extension has one to eight ASCII letters or digits.
pub open spec fn has_real_ext(name: Seq<char>) -> bool {
    let d = rfind_char(name, '.');
    let ext = name.subrange(d + 1, name.len() as int);
    &&& d > 0
    &&& 0 < ext.len() <= 8
    &&& forall|i: int| 0 <= i < ext.len() ==> is_ascii_alnum(#[trigger] ext[i])
}

/// The topic with every `/` replaced by `_`.
pub open spec fn flatten_topic(t: Seq<char>) -> Seq<char> {
    t.map_values(|c: char| if c == '/' { '_' } else { c })
}

/// Suggested save-dialog filename: the transmitted name unless it is blank;
/// else the topic's last segment when it carries a plausible extension;
/// else the topic with `/` replaced by `_` plus `.bin` (`payload.bin` for an
/// empty topic).
pub open spec fn spec_suggested_export_filename(topic: Seq<char>, transmitted: Option<Seq<char>>) -> Seq<char> {
    if transmitted is Some && !is_blank(transmitted->0) {
        transmitted->0
    } else if has_real_ext(last_segment(topic)) {
        last_segment(topic)
    } else if topic.len() == 0 {
        "payload.bin"@
    } else {
        flatten_topic(topic) + ".bin"@
    }
}

/// Whether `c` is Unicode white space.
pub(crate) fn white_space_char(c: char) -> (res: bool)
    ensures
        res == is_white_space(c),
{
    let v = c as u32;
    (0x9 <= v && v <= 0xD) || v == 0x20 || v == 0x85 || v == 0xA0 || v == 0x1680 || (0x2000 <= v
        && v <= 0x200A) || v == 0x2028 || v == 0x2029 || v == 0x202F || v == 0x205F || v == 0x3000
}

/// Whether every character of `s` is white space.
fn blank(s: &str) -> (res: bool)
    ensures
        res == is_blank(s@),
{
    let n = s.unicode_len();
    let mut i: usize = 0;
    while i < n
        invariant
            n == s@.len(),
            i <= n,
            forall|j: int| 0 <= j < i ==> is_white_space(#[trigger] s@[j]),
        decreases n - i,
    {
        if !white_space_char(s.get_char(i)) {
            return false;
        }
        i = i + 1;
    }
    true
}

/// Index of the last occurrence of `c` in `s`, or `None`.
fn rfind(s: &str, c: char) -> (res: Option<usize>)
    ensures
        match res {
            Some(i) => i == rfind_char(s@, c) && i < s@.len(),
            None => rfind_char(s@, c) == -1,
        },
{
    let mut i: usize = s.unicode_len();
    proof {
        assert(s@.take(i as int) =~= s@);
    }
    while i > 0
        invariant
            i <= s@.len(),
            rfind_char(s@, c) == rfind_char(s@.take(i as int), c),
        decreases i,
    {
        proof {
            assert(s@.take(i as int).drop_last() =~= s@.take(i - 1));
        }
        if s.get_char(i - 1) == c {
            return Some(i - 1);
        }
        i = i - 1;
    }
    None
}

/// Suggests the save-dialog filename for exporting the payload of `topic`:
/// 1. the transmitted original filename, if any and not blank;
/// 2. the topic's last segment, when it carries a plausible extension;
/// 3. otherwise the topic with `/` replaced by `_` plus `.bin`
///    (`payload.bin` for an empty topic).
pub fn suggested_export_filename(topic: &str, transmitted: Option<&str>) -> (res: String)
    ensures
        res@ == spec_suggested_export_filename(
            topic@,
            match transmitted {
                Some(n) => Some(n@),
                None => None,
            },
        ),
{
    if let Some(name) = transmitted {
        if !blank(name) {
            return String::from_str(name);
        }
    }
    let n = topic.unicode_len();
    let start = match rfind(topic, '/') {
        Some(i) => i + 1,
        None => 0,
    };
    let last = topic.substring_char(start, n);
    proof {
        assert(last@ == last_segment(topic@));
    }
    let ext_ok = match rfind(last, '.') {
        Some(d) => {
            let m = last.unicode_len();
            let mut ok = d > 0 && m - (d + 1) > 0 && m - (d + 1) <= 8;
            let mut j: usize = d + 1;
            while j < m
                invariant
                    m == last@.len(),
                    d < m,
                    d + 1 <= j <= m,
                    ok ==> forall|i: int| d + 1 <= i < j ==> is_ascii_alnum(#[trigger] last@[i]),
                    !ok ==> !has_real_ext(last@),
                    d == rfind_char(last@, '.'),
                    ok ==> (d > 0 && 0 < m - (d + 1) <= 8),
                decreases m - j,
            {
                let c = last.get_char(j);
                if !(('0' <= c && c <= '9') || ('A' <= c && c <= 'Z') || ('a' <= c && c <= 'z')) {
                    proof {
                        let ext = last@.subrange(d + 1, m as int);
                        assert(ext[j - (d + 1)] == c);
                    }
                    ok = false;
                }
                j = j + 1;
            }
            proof {
                if ok {
                    let ext = last@.subrange(d + 1, m as int);
                    assert forall|i: int| 0 <= i < ext.len() implies is_ascii_alnum(#[trigger] ext[i]) by {
                        assert(ext[i] == last@[d + 1 + i]);
                    }
                }
            }
            ok
        },
        None => false,
    };
    if ext_ok {
        return String::from_str(last);
    }
    if n == 0 {
        proof {
            reveal_strlit("payload.bin");
        }
        return String::from_str("payload.bin");
    }
    let mut out = String::new();
    let mut i: usize = 0;
    proof {
        reveal_strlit("_");
    }
    while i < n
        invariant
            n == topic@.len(),
            i <= n,
            out@ == flatten_topic(topic@.take(i as int)),
            "_"@ == seq!['_'],
        decreases n - i,
    {
        let c = topic.get_char(i);
        proof {
            assert(topic@.take(i + 1) =~= topic@.take(i as int).push(c));
        }
        if c == '/' {
            out.append("_");
        } else {
            out.append(topic.substring_char(i, i + 1));
        }
        proof {
            assert(out@ =~= flatten_topic(topic@.take(i + 1)));
        }
        i = i + 1;
    }
    proof {
        assert(topic@.take(n as int) =~= topic@);
    }
    out.append(".bin");
    out
}


/// What a read gives back of a write: once an entry is inserted under a
/// plain key or a sane chunk key, the store holds exactly that entry under
/// that key.
pub proof fn law_insert_is_read_back(
    old: Map<Seq<char>, EntryView>,
    key: Seq<char>,
    entry: EntryView,
    new: Map<Seq<char>, EntryView>,
)
    requires
        insert_payload_result(old, key, entry, new),
        spec_parse_chunk_key(encode_utf8(key)) matches Some((t, m)) ==> spec_is_sane(m),
    ensures
        new.contains_key(key),
        new[key] == entry,
{
    if spec_parse_chunk_key(encode_utf8(key)) is None {
        if plain_count(old) >= MAX_PLAIN_ENTRIES && !old.contains_key(key) {
            let v = choose|v: Seq<char>| is_oldest_plain(old, v) && new == old.remove(v).insert(key, entry);
            assert(new == old.remove(v).insert(key, entry));
        }
    }
}

/// A chunk key's bytes contain the reserved infix.
proof fn lemma_chunk_key_has_infix(k: Seq<char>)
    requires
        spec_parse_chunk_key(encode_utf8(k)) is Some,
    ensures
        has_chunk_infix(k),
{
}

/// A key starting with `{topic}/__chunk/` contains the reserved infix.
proof fn lemma_stale_has_infix(k: Seq<char>, topic: Seq<u8>, meta: ChunkMeta)
    requires
        is_stale_chunk(k, topic, meta),
    ensures
        has_chunk_infix(k),
{
    let kb = encode_utf8(k);
    let p = topic + chunk_infix();
    let t = topic.len() as int;
    assert(kb.subrange(t, t + 9) =~= p.subrange(t, t + 9));
    assert(p.subrange(t, t + 9) =~= chunk_infix());
    assert(occurs_at(kb, chunk_infix(), t));
    lemma_find_from(kb, chunk_infix(), 0);
}

/// The topic a chunk key parses to is one in which the reserved infix
/// occurs only where the key's infix stands.
proof fn lemma_parsed_topic_is_chunkable(kb: Seq<u8>)
    requires
        spec_parse_chunk_key(kb) is Some,
    ensures
        spec_parse_chunk_key(kb) matches Some((t, _)) && crate::chunking::is_chunkable_topic(t),
{
    let (t, _) = spec_parse_chunk_key(kb)->0;
    lemma_chunk_key_prefix(kb);
    lemma_find_from(kb, chunk_infix(), 0);
    let i = find_from(kb, chunk_infix(), 0)->0;
    assert(t.len() == i);
    assert forall|j: int| 0 <= j < t.len() implies !occurs_at(t + chunk_infix(), chunk_infix(), j) by {
        if occurs_at(t + chunk_infix(), chunk_infix(), j) {
            let p = t + chunk_infix();
            assert(p.len() == t.len() + 9);
            assert(kb.subrange(0, p.len() as int) == p);
            assert(kb.subrange(j, j + 9) =~= p.subrange(j, j + 9));
            assert(occurs_at(kb, chunk_infix(), j));
        }
    }
}

/// A chunk key that starts with `{topic}/__chunk/`, for a topic in which
/// the infix occurs only there, parses to that topic.
proof fn lemma_prefixed_chunk_key_topic(kb: Seq<u8>, topic: Seq<u8>)
    requires
        crate::chunking::is_chunkable_topic(topic),
        topic.len() + 9 <= kb.len(),
        kb.subrange(0, (topic.len() + 9) as int) == topic + chunk_infix(),
        spec_parse_chunk_key(kb) is Some,
    ensures
        spec_parse_chunk_key(kb) matches Some((t, _)) && t == topic,
{
    let p = topic + chunk_infix();
    let tl = topic.len() as int;
    lemma_find_from(kb, chunk_infix(), 0);
    assert(kb.subrange(tl, tl + 9) =~= p.subrange(tl, tl + 9));
    assert(p.subrange(tl, tl + 9) =~= chunk_infix());
    assert(occurs_at(kb, chunk_infix(), tl));
    let i = find_from(kb, chunk_infix(), 0)->0;
    if i < tl {
        assert(kb.subrange(i, i + 9) =~= p.subrange(i, i + 9));
        assert(occurs_at(p, chunk_infix(), i));
    }
    assert(i == tl);
    assert(kb.subrange(0, tl) =~= p.subrange(0, tl));
    assert(p.subrange(0, tl) =~= topic);
}

/// Inserting a chunk purges only stale generations of its own topic: with
/// the new chunk on `topic` (generation `meta`), a stored chunk `k` of
/// another topic stays as it was, one of the same topic and generation
/// stays as it was, and one of the same topic but another generation is
/// removed.
pub proof fn law_chunk_insert_purges_only_own_stale_chunks(
    old: Map<Seq<char>, EntryView>,
    key: Seq<char>,
    entry: EntryView,
    new: Map<Seq<char>, EntryView>,
    topic: Seq<u8>,
    meta: ChunkMeta,
    k: Seq<char>,
    other_topic: Seq<u8>,
    other_meta: ChunkMeta,
)
    requires
        insert_payload_result(old, key, entry, new),
        spec_parse_chunk_key(encode_utf8(key)) == Some((topic, meta)),
        spec_is_sane(meta),
        old.contains_key(k),
        k != key,
        spec_parse_chunk_key(encode_utf8(k)) == Some((other_topic, other_meta)),
    ensures
        other_topic != topic ==> new.contains_key(k) && new[k] == old[k],
        other_topic == topic && other_meta.total_size == meta.total_size && other_meta.total_chunks == meta.total_chunks ==> new.contains_key(k)
            && new[k] == old[k],
        other_topic == topic && (other_meta.total_size != meta.total_size || other_meta.total_chunks != meta.total_chunks)
            ==> !new.contains_key(k),
{
    let kb = encode_utf8(k);
    lemma_chunk_key_prefix(kb);
    let kept = old.dom().filter(|j: Seq<char>| !is_stale_chunk(j, topic, meta));
    if other_topic != topic {
        if is_stale_chunk(k, topic, meta) {
            lemma_parsed_topic_is_chunkable(encode_utf8(key));
            lemma_prefixed_chunk_key_topic(kb, topic);
        }
        assert(kept.contains(k));
    } else if other_meta.total_size == meta.total_size && other_meta.total_chunks == meta.total_chunks {
        assert(kept.contains(k));
    } else {
        assert(is_stale_chunk(k, topic, meta));
        assert(!kept.contains(k));
    }
}

/// Chunk entries never displace plain entries: inserting under a chunk key
/// keeps every stored plain entry as it was.
pub proof fn law_chunk_insert_keeps_plain_entries(
    old: Map<Seq<char>, EntryView>,
    key: Seq<char>,
    entry: EntryView,
    new: Map<Seq<char>, EntryView>,
    k: Seq<char>,
)
    requires
        insert_payload_result(old, key, entry, new),
        spec_parse_chunk_key(encode_utf8(key)) is Some,
        old.contains_key(k),
        is_plain_key(k),
    ensures
        new.contains_key(k),
        new[k] == old[k],
{
    lemma_chunk_key_has_infix(key);
    let (topic, meta) = spec_parse_chunk_key(encode_utf8(key))->0;
    if spec_is_sane(meta) {
        if is_stale_chunk(k, topic, meta) {
            lemma_stale_has_infix(k, topic, meta);
        }
        assert(old.dom().filter(|j: Seq<char>| !is_stale_chunk(j, topic, meta)).contains(k));
    }
}

/// The plain entries stay within their cap: an insertion into a store with
/// at most `MAX_PLAIN_ENTRIES` plain entries leaves at most that many.
pub proof fn law_plain_count_capped(
    old: Map<Seq<char>, EntryView>,
    key: Seq<char>,
    entry: EntryView,
    new: Map<Seq<char>, EntryView>,
)
    requires
        insert_payload_result(old, key, entry, new),
        old.dom().finite(),
        plain_count(old) <= MAX_PLAIN_ENTRIES,
    ensures
        plain_count(new) <= MAX_PLAIN_ENTRIES,
{
    let pl = |k: Seq<char>| is_plain_key(k);
    let old_plain = old.dom().filter(pl);
    assert(old_plain.finite());
    match spec_parse_chunk_key(encode_utf8(key)) {
        Some((topic, meta)) => {
            if spec_is_sane(meta) {
                lemma_chunk_key_has_infix(key);
                let new_plain = new.dom().filter(pl);
                assert(new_plain.subset_of(old_plain));
                vstd::set_lib::lemma_len_subset(new_plain, old_plain);
            } else {
                assert(new.dom().filter(pl) =~= old_plain);
            }
        },
        None => {
            if plain_count(old) >= MAX_PLAIN_ENTRIES && !old.contains_key(key) {
                let v = choose|v: Seq<char>| is_oldest_plain(old, v) && new == old.remove(v).insert(key, entry);
                assert(old_plain.contains(v));
                if is_plain_key(key) {
                    assert(new.dom().filter(pl) =~= old_plain.remove(v).insert(key));
                    assert(!old_plain.remove(v).contains(key));
                } else {
                    assert(new.dom().filter(pl) =~= old_plain.remove(v));
                }
            } else if old.contains_key(key) {
                assert(new.dom().filter(pl) =~= old_plain);
            } else if is_plain_key(key) {
                assert(new.dom().filter(pl) =~= old_plain.insert(key));
            } else {
                assert(new.dom().filter(pl) =~= old_plain);
            }
        },
    }
}


/// The extension of a file name as `std::path::Path::extension` reads it
/// (the part of the last path component after its last `.`, none for a
/// component without a `.` or with only a leading one).
pub uninterp spec fn path_extension(name: Seq<char>) -> Option<Seq<char>>;

/// The extension of a file name, from `Path::extension` (as text): depends
/// on the name alone.
#[verifier::external_body]
fn file_extension(name: &str) -> (res: Option<String>)
    ensures
        opt_str_view(res) == path_extension(name@),
{
    std::path::Path::new(name).extension().and_then(|e| e.to_str()).map(|e| e.to_string())
}

/// The upper-case form of a text, as `str::to_uppercase` maps it.
pub uninterp spec fn upper_case(text: Seq<char>) -> Seq<char>;

/// The upper-case form of a text, from `str::to_uppercase`: depends on the
/// text alone.
#[verifier::external_body]
fn to_upper_case(text: &str) -> (res: String)
    ensures
        res@ == upper_case(text@),
{
    text.to_uppercase()
}

/// A file-type filter of the save dialog: a label and the extensions it
/// admits.
pub struct DialogFilter {
    pub label: String,
    pub extensions: Vec<String>,
}

/// The save dialog's filters for a file name with extension `ext` (whose
/// upper-case form is `ext_upper`): first `{EXT} files` admitting that
/// extension when there is one, then `All files`. No `.bin` filter leads,
/// which platforms would use to append `.bin`.
pub fn dialog_filters(ext: Option<String>, ext_upper: Option<String>) -> (res: Vec<DialogFilter>)
    requires
        ext is Some == ext_upper is Some,
    ensures
        res@.len() == if ext is Some {
            2int
        } else {
            1int
        },
        res@.last().label@ == "All files"@,
        res@.last().extensions@.len() == 1 && res@.last().extensions@[0]@ == "*"@,
        ext matches Some(e) ==> res@[0].label@ == ext_upper->0@ + " files"@ && res@[0].extensions@.len() == 1
            && res@[0].extensions@[0]@ == e@,
{
    let mut filters: Vec<DialogFilter> = Vec::new();
    if let Some(e) = ext {
        let mut label = ext_upper.unwrap();
        label.append(" files");
        let mut exts: Vec<String> = Vec::new();
        exts.push(e);
        filters.push(DialogFilter { label, extensions: exts });
    }
    let mut all: Vec<String> = Vec::new();
    all.push(String::from_str("*"));
    filters.push(DialogFilter { label: String::from_str("All files"), extensions: all });
    filters
}

/// The save dialog's filters for the suggested file name: its own
/// extension's filter first (see `dialog_filters`).
pub fn export_dialog_filters(suggested_name: &str) -> (res: Vec<DialogFilter>)
    ensures
        res@.len() == if path_extension(suggested_name@) is Some {
            2int
        } else {
            1int
        },
        res@.last().label@ == "All files"@,
        res@.last().extensions@.len() == 1 && res@.last().extensions@[0]@ == "*"@,
        path_extension(suggested_name@) matches Some(e) ==> res@[0].label@ == upper_case(e) + " files"@
            && res@[0].extensions@.len() == 1 && res@[0].extensions@[0]@ == e,
{
    let ext = file_extension(suggested_name);
    let upper = match &ext {
        Some(e) => Some(to_upper_case(e.as_str())),
        None => None,
    };
    dialog_filters(ext, upper)
}



/// Two stored keys that parse as chunks of one topic carry the same total
/// size and chunk count.
pub open spec fn same_group_if_same_topic(k1: Seq<char>, k2: Seq<char>) -> bool {
    match (spec_parse_chunk_key(encode_utf8(k1)), spec_parse_chunk_key(encode_utf8(k2))) {
        (Some((t1, m1)), Some((t2, m2))) => t1 == t2 ==> m1.total_size == m2.total_size && m1.total_chunks
            == m2.total_chunks,
        _ => true,
    }
}

/// The chunks stored for each topic belong to one transfer generation.
pub open spec fn one_group_per_topic(m: Map<Seq<char>, EntryView>) -> bool {
    forall|k1: Seq<char>, k2: Seq<char>|
        #![trigger m.contains_key(k1), m.contains_key(k2)]
        m.contains_key(k1) && m.contains_key(k2) ==> same_group_if_same_topic(k1, k2)
}

/// A chunk key starts with its topic followed by `/__chunk/`.
proof fn lemma_chunk_key_prefix(kb: Seq<u8>)
    ensures
        spec_parse_chunk_key(kb) matches Some((t, m)) ==> t.len() + chunk_infix().len() <= kb.len()
            && kb.subrange(0, (t.len() + chunk_infix().len()) as int) == t + chunk_infix(),
{
    lemma_find_from(kb, chunk_infix(), 0);
    if let Some((t, m)) = spec_parse_chunk_key(kb) {
        let i = find_from(kb, chunk_infix(), 0)->0;
        assert(t == kb.subrange(0, i));
        assert(kb.subrange(i, i + 9) == chunk_infix());
        assert(kb.subrange(0, i + 9) =~= t + chunk_infix());
    }
}

/// At most one transfer generation per topic is stored: inserting into a
/// store where each topic's chunks belong to one generation keeps it so
/// (a chunk of a new generation purges the chunks of the old one).
pub proof fn law_one_chunk_group_per_topic(
    old: Map<Seq<char>, EntryView>,
    key: Seq<char>,
    entry: EntryView,
    new: Map<Seq<char>, EntryView>,
)
    requires
        one_group_per_topic(old),
        insert_payload_result(old, key, entry, new),
    ensures
        one_group_per_topic(new),
{
    assert forall|k1: Seq<char>, k2: Seq<char>| new.contains_key(k1) && new.contains_key(k2) implies same_group_if_same_topic(
        k1,
        k2,
    ) by {
        if k1 != key && k2 != key {
            assert(old.contains_key(k1) && old.contains_key(k2));
        } else {
            match spec_parse_chunk_key(encode_utf8(key)) {
                Some((topic, meta)) => {
                    if spec_is_sane(meta) {
                        let other = if k1 == key { k2 } else { k1 };
                        if other != key {
                            assert(old.contains_key(other));
                            assert(!is_stale_chunk(other, topic, meta));
                            lemma_chunk_key_prefix(encode_utf8(other));
                        }
                    }
                },
                None => {},
            }
        }
    }
}

} // verus!
