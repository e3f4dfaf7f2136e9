//! The browse tree: key paths split into segments, one node per segment,
//! children kept in key order. Recording a message creates the nodes of its
//! path as needed and updates the last one.

use vstd::prelude::*;
use vstd::utf8::encode_utf8;
use vstd::string::{StrSliceExecFns, StringExecFns, StringSliceAdditionalSpecFns};

use crate::bytes::{find, find_from};
use crate::payload_store::opt_str_view;
use crate::transfer::ChunkMeta;
use crate::types::{transfer_view, TransferState, ZenohNode};

verus! {

broadcast use vstd::string::group_string_axioms;

/// `a` sorts strictly before `b` in byte-wise lexicographic order (the
/// order of `str`).
pub open spec fn bytes_lt(a: Seq<u8>, b: Seq<u8>) -> bool
    decreases a.len(),
{
    if a.len() == 0 {
        b.len() > 0
    } else if b.len() == 0 {
        false
    } else if a[0] != b[0] {
        a[0] < b[0]
    } else {
        bytes_lt(a.drop_first(), b.drop_first())
    }
}

/// The byte-wise order is a strict total order.
proof fn lemma_bytes_lt_total(a: Seq<u8>, b: Seq<u8>)
    ensures
        a != b ==> bytes_lt(a, b) || bytes_lt(b, a),
        !(bytes_lt(a, b) && bytes_lt(b, a)),
        !bytes_lt(a, a),
    decreases a.len(),
{
    if a.len() > 0 && b.len() > 0 && a[0] == b[0] {
        lemma_bytes_lt_total(a.drop_first(), b.drop_first());
        if a.drop_first() == b.drop_first() {
            assert(a =~= seq![a[0]] + a.drop_first());
            assert(b =~= seq![b[0]] + b.drop_first());
        }
    }
    if a.len() > 0 {
        lemma_bytes_lt_total(a.drop_first(), a.drop_first());
    }
    if a.len() == 0 && b.len() == 0 {
        assert(a =~= b);
    }
}

/// The byte-wise order is transitive.
proof fn lemma_bytes_lt_trans(a: Seq<u8>, b: Seq<u8>, c: Seq<u8>)
    requires
        bytes_lt(a, b),
        bytes_lt(b, c),
    ensures
        bytes_lt(a, c),
    decreases a.len(),
{
    if a.len() > 0 && b.len() > 0 && c.len() > 0 && a[0] == b[0] && b[0] == c[0] {
        lemma_bytes_lt_trans(a.drop_first(), b.drop_first(), c.drop_first());
    }
}

/// Whether `a` sorts strictly before `b`, byte-wise.
fn str_lt(a: &str, b: &str) -> (res: bool)
    ensures
        res == bytes_lt(a.spec_bytes(), b.spec_bytes()),
{
    let x = a.as_bytes();
    let y = b.as_bytes();
    let mut i: usize = 0;
    proof {
        assert(x@.skip(0) =~= x@);
        assert(y@.skip(0) =~= y@);
    }
    while i < x.len() && i < y.len() && x[i] == y[i]
        invariant
            i <= x@.len(),
            i <= y@.len(),
            x@ == a.spec_bytes(),
            y@ == b.spec_bytes(),
            bytes_lt(x@, y@) == bytes_lt(x@.skip(i as int), y@.skip(i as int)),
        decreases x.len() - i,
    {
        proof {
            assert(x@.skip(i as int).drop_first() =~= x@.skip(i + 1));
            assert(y@.skip(i as int).drop_first() =~= y@.skip(i + 1));
        }
        i = i + 1;
    }
    if i == x.len() {
        i < y.len()
    } else if i == y.len() {
        false
    } else {
        x[i] < y[i]
    }
}

/// The first child named `k`.
pub open spec fn child_named(children: Seq<ZenohNode>, k: Seq<char>) -> Option<ZenohNode>
    decreases children.len(),
{
    if children.len() == 0 {
        None
    } else if children[0].key@ == k {
        Some(children[0])
    } else {
        child_named(children.drop_first(), k)
    }
}

/// Children are in strictly increasing key order (so no key occurs twice).
pub open spec fn keys_sorted(children: Seq<ZenohNode>) -> bool {
    forall|i: int, j: int|
        0 <= i < j < children.len() ==> bytes_lt(
            encode_utf8(#[trigger] children[i].key@),
            encode_utf8(#[trigger] children[j].key@),
        )
}

/// The node reached from `node` by following `path`, one child per segment.
pub open spec fn node_at(node: ZenohNode, path: Seq<Seq<char>>) -> Option<ZenohNode>
    decreases path.len(),
{
    if path.len() == 0 {
        Some(node)
    } else {
        match child_named(node.children@, path[0]) {
            Some(c) => node_at(c, path.drop_first()),
            None => None,
        }
    }
}

/// What the tree shows of a node: its key, message count, last payload and
/// encoding, whether it is local, and its transfer.
pub open spec fn node_data(n: ZenohNode) -> (
    Seq<char>,
    usize,
    Option<Seq<char>>,
    Option<Seq<char>>,
    bool,
    Option<(usize, usize, Seq<usize>)>,
) {
    (
        n.key@,
        n.message_count,
        opt_str_view(n.last_payload),
        opt_str_view(n.last_encoding),
        n.is_local,
        transfer_view(n.transfer),
    )
}

/// Every node of the tree keeps its children in key order.
pub open spec fn tree_sorted(n: ZenohNode) -> bool {
    forall|path: Seq<Seq<char>>|
        #[trigger] node_at(n, path) is Some ==> keys_sorted(node_at(n, path)->0.children@)
}

/// The segments of a key split at `/` with empty segments dropped, as
/// completed segments and the segment being read.
pub open spec fn parts_acc(s: Seq<char>) -> (Seq<Seq<char>>, Seq<char>)
    decreases s.len(),
{
    if s.len() == 0 {
        (Seq::empty(), Seq::empty())
    } else {
        let (ps, cur) = parts_acc(s.drop_last());
        if s.last() == '/' {
            (
                if cur.len() > 0 {
                    ps.push(cur)
                } else {
                    ps
                },
                Seq::empty(),
            )
        } else {
            (ps, cur.push(s.last()))
        }
    }
}

/// The non-empty `/`-separated segments of a key, in order.
pub open spec fn path_parts(s: Seq<char>) -> Seq<Seq<char>> {
    let (ps, cur) = parts_acc(s);
    if cur.len() > 0 {
        ps.push(cur)
    } else {
        ps
    }
}

/// The views of a list of strings.
pub open spec fn strings_view(v: Seq<String>) -> Seq<Seq<char>> {
    v.map_values(|s: String| s@)
}

/// Splits a key into its non-empty `/`-separated segments.
pub fn split_path(key: &str) -> (res: Vec<String>)
    ensures
        strings_view(res@) == path_parts(key@),
{
    let n = key.unicode_len();
    let mut parts: Vec<String> = Vec::new();
    let mut cur = String::new();
    let mut i: usize = 0;
    while i < n
        invariant
            n == key@.len(),
            i <= n,
            (strings_view(parts@), cur@) == parts_acc(key@.take(i as int)),
        decreases n - i,
    {
        let c = key.get_char(i);
        proof {
            assert(key@.take(i + 1).drop_last() =~= key@.take(i as int));
            assert(key@.take(i + 1).last() == c);
        }
        if c == '/' {
            if cur.unicode_len() > 0 {
                let ghost before = parts@;
                parts.push(cur);
                proof {
                    assert(strings_view(parts@) =~= strings_view(before).push(cur@));
                }
            }
            cur = String::new();
        } else {
            cur.append(key.substring_char(i, i + 1));
        }
        i = i + 1;
    }
    proof {
        assert(key@.take(n as int) =~= key@);
    }
    if cur.unicode_len() > 0 {
        let ghost before = parts@;
        parts.push(cur);
        proof {
            assert(strings_view(parts@) =~= strings_view(before).push(cur@));
        }
    }
    parts
}


/// `child_named` finds the first child with the key.
proof fn lemma_child_named_first(s: Seq<ZenohNode>, k: Seq<char>, i: int)
    requires
        0 <= i < s.len(),
        s[i].key@ == k,
        forall|j: int| 0 <= j < i ==> (#[trigger] s[j]).key@ != k,
    ensures
        child_named(s, k) == Some(s[i]),
    decreases i,
{
    if i > 0 {
        lemma_child_named_first(s.drop_first(), k, i - 1);
        assert(s[0].key@ != k);
    }
}

/// No child has the key.
proof fn lemma_child_named_none(s: Seq<ZenohNode>, k: Seq<char>)
    requires
        forall|j: int| 0 <= j < s.len() ==> (#[trigger] s[j]).key@ != k,
    ensures
        child_named(s, k) is None,
    decreases s.len(),
{
    if s.len() > 0 {
        assert(s[0].key@ != k);
        lemma_child_named_none(s.drop_first(), k);
    }
}

/// Replacing a child by one with the same key leaves the lookup of other
/// keys unchanged.
proof fn lemma_child_named_update(s: Seq<ZenohNode>, i: int, x: ZenohNode, k: Seq<char>)
    requires
        0 <= i < s.len(),
        s[i].key@ == x.key@,
        x.key@ != k,
    ensures
        child_named(s.update(i, x), k) == child_named(s, k),
    decreases s.len(),
{
    if i > 0 {
        assert(s.update(i, x).drop_first() =~= s.drop_first().update(i - 1, x));
        lemma_child_named_update(s.drop_first(), i - 1, x, k);
    } else {
        assert(s.update(i, x).drop_first() =~= s.drop_first());
    }
}

/// Inserting a child leaves the lookup of other keys unchanged.
proof fn lemma_child_named_insert(s: Seq<ZenohNode>, p: int, x: ZenohNode, k: Seq<char>)
    requires
        0 <= p <= s.len(),
        x.key@ != k,
    ensures
        child_named(s.insert(p, x), k) == child_named(s, k),
    decreases s.len(),
{
    if p > 0 {
        assert(s.insert(p, x).drop_first() =~= s.drop_first().insert(p - 1, x));
        lemma_child_named_insert(s.drop_first(), p - 1, x, k);
    } else {
        assert(s.insert(p, x).drop_first() =~= s);
    }
}

/// A child found by `child_named` is one of the children.
proof fn lemma_child_named_member(s: Seq<ZenohNode>, k: Seq<char>)
    ensures
        child_named(s, k) matches Some(c) ==> exists|j: int| 0 <= j < s.len() && s[j] == c && c.key@ == k,
    decreases s.len(),
{
    if s.len() > 0 && s[0].key@ != k {
        lemma_child_named_member(s.drop_first(), k);
        if child_named(s, k) is Some {
            let j = choose|j: int| 0 <= j < s.drop_first().len() && s.drop_first()[j] == child_named(s, k)->0 && child_named(s, k)->0.key@ == k;
            assert(s[j + 1] == s.drop_first()[j]);
        }
    } else if s.len() > 0 {
        assert(s[0] == s[0]);
    }
}

/// Keys in byte order are distinct.
proof fn lemma_sorted_distinct(s: Seq<ZenohNode>, i: int, j: int)
    requires
        keys_sorted(s),
        0 <= i < s.len(),
        0 <= j < s.len(),
        i != j,
    ensures
        s[i].key@ != s[j].key@,
{
    if i < j {
        lemma_bytes_lt_total(encode_utf8(s[i].key@), encode_utf8(s[j].key@));
    } else {
        lemma_bytes_lt_total(encode_utf8(s[j].key@), encode_utf8(s[i].key@));
    }
}

/// Where the child named `k` is, or where one belongs.
fn locate_child(children: &Vec<ZenohNode>, k: &str) -> (res: (bool, usize))
    requires
        keys_sorted(children@),
    ensures
        res.0 ==> res.1 < children@.len() && children@[res.1 as int].key@ == k@ && child_named(
            children@,
            k@,
        ) == Some(children@[res.1 as int]),
        !res.0 ==> {
            &&& res.1 <= children@.len()
            &&& child_named(children@, k@) is None
            &&& forall|j: int|
                0 <= j < res.1 ==> bytes_lt(encode_utf8(#[trigger] children@[j].key@), encode_utf8(k@))
            &&& forall|j: int|
                res.1 <= j < children@.len() ==> bytes_lt(encode_utf8(k@), encode_utf8(#[trigger] children@[j].key@))
        },
{
    let n = children.len();
    let mut i: usize = 0;
    while i < n
        invariant
            n == children@.len(),
            i <= n,
            keys_sorted(children@),
            forall|j: int| 0 <= j < i ==> bytes_lt(encode_utf8(#[trigger] children@[j].key@), encode_utf8(k@)),
        decreases n - i,
    {
        let ck = children[i].key.as_str();
        if crate::payload_store::str_equal(ck, k) {
            proof {
                assert forall|j: int| 0 <= j < i implies (#[trigger] children@[j]).key@ != k@ by {
                    lemma_bytes_lt_total(encode_utf8(children@[j].key@), encode_utf8(k@));
                }
                lemma_child_named_first(children@, k@, i as int);
            }
            return (true, i);
        }
        if str_lt(k, ck) {
            proof {
                assert forall|j: int| i <= j < n implies bytes_lt(
                    encode_utf8(k@),
                    encode_utf8(#[trigger] children@[j].key@),
                ) by {
                    if j > i {
                        lemma_bytes_lt_trans(encode_utf8(k@), encode_utf8(children@[i as int].key@), encode_utf8(children@[j].key@));
                    }
                }
                assert forall|j: int| 0 <= j < n implies (#[trigger] children@[j]).key@ != k@ by {
                    if j < i {
                        lemma_bytes_lt_total(encode_utf8(children@[j].key@), encode_utf8(k@));
                    } else {
                        lemma_bytes_lt_total(encode_utf8(k@), encode_utf8(children@[j].key@));
                    }
                }
                lemma_child_named_none(children@, k@);
            }
            return (false, i);
        }
        proof {
            vstd::utf8::encode_utf8_decode_utf8(k@);
            vstd::utf8::encode_utf8_decode_utf8(children@[i as int].key@);
            lemma_bytes_lt_total(encode_utf8(k@), encode_utf8(children@[i as int].key@));
        }
        i = i + 1;
    }
    proof {
        assert forall|j: int| 0 <= j < n implies (#[trigger] children@[j]).key@ != k@ by {
            lemma_bytes_lt_total(encode_utf8(children@[j].key@), encode_utf8(k@));
        }
        lemma_child_named_none(children@, k@);
    }
    (false, n)
}


/// The message count after one more message (saturating).
pub open spec fn count_after(c: usize) -> usize {
    if c < usize::MAX {
        (c + 1) as usize
    } else {
        c
    }
}

/// The node at `path` holds the message just recorded: counted once more
/// than before (starting from zero for a node the message created), with
/// the message's payload and encoding, and local once a local message came.
pub open spec fn holds_recorded(
    before: Option<ZenohNode>,
    after: Option<ZenohNode>,
    payload: Seq<char>,
    encoding: Seq<char>,
    is_local: bool,
) -> bool {
    after matches Some(n) && n.message_count == count_after(
        match before {
            Some(o) => o.message_count,
            None => 0,
        },
    ) && opt_str_view(n.last_payload) == Some(payload) && opt_str_view(n.last_encoding) == Some(encoding)
        && n.is_local == ((before matches Some(o) && o.is_local) || is_local) && transfer_view(n.transfer) == match before {
        Some(o) => transfer_view(o.transfer),
        None => None,
    }
}

/// The transfer after chunk `meta` arrived: a transfer of the same size
/// and chunk count gains the chunk's index unless it holds it already; any
/// other transfer, or none, is replaced by one holding only that index.
pub open spec fn transfer_after(t: Option<(usize, usize, Seq<usize>)>, meta: ChunkMeta) -> (usize, usize, Seq<usize>) {
    match t {
        Some(v) => if v.0 == meta.total_size && v.1 == meta.total_chunks {
            (v.0, v.1, if v.2.contains(meta.index) { v.2 } else { v.2.push(meta.index) })
        } else {
            (meta.total_size, meta.total_chunks, seq![meta.index])
        },
        None => (meta.total_size, meta.total_chunks, seq![meta.index]),
    }
}

/// The node at a topic's path holds the chunk just recorded: its transfer
/// is updated (see `transfer_after`) and everything else is as it was (as a
/// new node has it, for a node the chunk created).
pub open spec fn holds_chunk(before: Option<ZenohNode>, after: Option<ZenohNode>, meta: ChunkMeta) -> bool {
    after matches Some(n) && match before {
        Some(o) => n.message_count == o.message_count && opt_str_view(n.last_payload) == opt_str_view(
            o.last_payload,
        ) && opt_str_view(n.last_encoding) == opt_str_view(o.last_encoding) && n.is_local == o.is_local
            && transfer_view(n.transfer) == Some(transfer_after(transfer_view(o.transfer), meta)),
        None => n.message_count == 0 && n.last_payload is None && n.last_encoding is None && !n.is_local
            && transfer_view(n.transfer) == Some(transfer_after(None, meta)),
    }
}

/// What is recorded on a node of the tree.
pub enum Record {
    /// A message: its payload preview, its encoding, and whether it is a
    /// local publication.
    Message { payload: String, encoding: String, is_local: bool },
    /// A chunk of a transfer on the node's topic.
    Chunk { meta: ChunkMeta },
}

/// The node at the recorded path holds what was recorded.
pub open spec fn recorded_as(before: Option<ZenohNode>, after: Option<ZenohNode>, r: Record) -> bool {
    match r {
        Record::Message { payload, encoding, is_local } => holds_recorded(
            before,
            after,
            payload@,
            encoding@,
            is_local,
        ),
        Record::Chunk { meta } => holds_chunk(before, after, meta),
    }
}

/// The indices of a transfer are distinct and below its chunk count.
pub open spec fn indices_valid(t: (usize, usize, Seq<usize>)) -> bool {
    t.2.no_duplicates() && forall|i: int| 0 <= i < t.2.len() ==> #[trigger] t.2[i] < t.1
}

/// A transfer only ever holds each chunk once, and only chunks it has: a
/// sane chunk recorded on a transfer whose indices are valid (or on none)
/// leaves valid indices that include the chunk's.
pub proof fn law_transfer_indices_valid(t: Option<(usize, usize, Seq<usize>)>, meta: ChunkMeta)
    requires
        crate::transfer::spec_is_sane(meta),
        t matches Some(v) ==> indices_valid(v),
    ensures
        indices_valid(transfer_after(t, meta)),
        transfer_after(t, meta).2.contains(meta.index),
{
    let r = transfer_after(t, meta);
    if let Some(v) = t {
        if v.0 == meta.total_size && v.1 == meta.total_chunks && !v.2.contains(meta.index) {
            assert(r.2 == v.2.push(meta.index));
            assert(r.2[v.2.len() as int] == meta.index);
            assert forall|i: int, j: int| 0 <= i < r.2.len() && 0 <= j < r.2.len() && i != j implies r.2[i] != r.2[j] by {
                if i < v.2.len() && j < v.2.len() {
                    assert(r.2[i] == v.2[i] && r.2[j] == v.2[j]);
                } else if i < v.2.len() {
                    assert(r.2[i] == v.2[i]);
                } else if j < v.2.len() {
                    assert(r.2[j] == v.2[j]);
                }
            }
        } else if v.0 == meta.total_size && v.1 == meta.total_chunks {
        } else {
            assert(r.2[0] == meta.index);
        }
    } else {
        assert(r.2[0] == meta.index);
    }
}

/// A chunk sets the generation of its topic's transfer: once a chunk of
/// generation `meta` (total size and chunk count) is recorded on a node,
/// the node's transfer is of that generation and holds the chunk. A chunk
/// of another generation than the node's (or on a node with no transfer)
/// starts the transfer over with that chunk alone; one of the same
/// generation adds its index to those received. The node's other data
/// stays.
pub proof fn law_chunk_sets_transfer_generation(before: Option<ZenohNode>, after: Option<ZenohNode>, meta: ChunkMeta)
    requires
        holds_chunk(before, after, meta),
    ensures
        after matches Some(n) && transfer_view(n.transfer) matches Some(v) && {
            &&& v.0 == meta.total_size
            &&& v.1 == meta.total_chunks
            &&& v.2.contains(meta.index)
            &&& match before {
                Some(o) => match transfer_view(o.transfer) {
                    Some(w) => if w.0 == meta.total_size && w.1 == meta.total_chunks {
                        v.2.to_set() == w.2.to_set().insert(meta.index)
                    } else {
                        v.2 == seq![meta.index]
                    },
                    None => v.2 == seq![meta.index],
                },
                None => v.2 == seq![meta.index],
            }
        },
{
    let n = after->0;
    let t = match before {
        Some(o) => transfer_view(o.transfer),
        None => None,
    };
    let v = transfer_after(t, meta);
    assert(transfer_view(n.transfer) == Some(v));
    if let Some(w) = t {
        if w.0 == meta.total_size && w.1 == meta.total_chunks {
            if w.2.contains(meta.index) {
                assert(v.2.to_set() =~= w.2.to_set().insert(meta.index));
            } else {
                assert(v.2[w.2.len() as int] == meta.index);
                assert(v.2.to_set() =~= w.2.to_set().insert(meta.index)) by {
                    assert forall|x: usize| v.2.to_set().contains(x) implies w.2.to_set().insert(meta.index).contains(x) by {
                        let i = choose|i: int| 0 <= i < v.2.len() && v.2[i] == x;
                        if i < w.2.len() {
                            assert(w.2[i] == x);
                        }
                    }
                    assert forall|x: usize| w.2.to_set().insert(meta.index).contains(x) implies v.2.to_set().contains(x) by {
                        if x != meta.index {
                            let i = choose|i: int| 0 <= i < w.2.len() && w.2[i] == x;
                            assert(v.2[i] == x);
                        }
                    }
                }
            }
        } else {
            assert(v.2[0] == meta.index);
        }
    } else {
        assert(v.2[0] == meta.index);
    }
}

/// A transfer with valid indices and as many of them as chunks holds every
/// chunk.
pub proof fn law_full_transfer_has_every_chunk(t: (usize, usize, Seq<usize>))
    requires
        indices_valid(t),
        t.2.len() == t.1,
    ensures
        forall|k: usize| k < t.1 ==> #[trigger] t.2.contains(k),
{
    let got = t.2.to_set();
    let all = crate::transfer::indices_below(t.1);
    crate::transfer::lemma_indices_below(t.1);
    t.2.unique_seq_to_set();
    assert(got.subset_of(all)) by {
        assert forall|x: usize| got.contains(x) implies all.contains(x) by {
            let i = choose|i: int| 0 <= i < t.2.len() && t.2[i] == x;
            assert(t.2[i] < t.1);
        }
    }
    vstd::set_lib::lemma_len_subset(got, all);
    vstd::set_lib::lemma_subset_equality(got, all);
    assert forall|k: usize| k < t.1 implies #[trigger] t.2.contains(k) by {
        assert(all.contains(k));
        assert(got.contains(k));
    }
}

/// Whether `v` holds `x`.
fn holds_index(v: &Vec<usize>, x: usize) -> (res: bool)
    ensures
        res == v@.contains(x),
{
    let mut i: usize = 0;
    while i < v.len()
        invariant
            i <= v@.len(),
            forall|j: int| 0 <= j < i ==> v@[j] != x,
        decreases v.len() - i,
    {
        if v[i] == x {
            proof {
                assert(v@[i as int] == x);
            }
            return true;
        }
        i = i + 1;
    }
    false
}

/// The transfer after chunk `meta` arrived (see `transfer_after`).
fn next_transfer(t: Option<TransferState>, meta: ChunkMeta) -> (res: TransferState)
    ensures
        transfer_view(Some(res)) == Some(transfer_after(transfer_view(t), meta)),
{
    match t {
        Some(mut s) => {
            if s.total_size == meta.total_size && s.total_chunks == meta.total_chunks {
                if !holds_index(&s.received, meta.index) {
                    s.received.push(meta.index);
                }
                s.last_activity = crate::clock::now();
                s
            } else {
                let received = vec![meta.index];
                proof {
                    assert(received@ =~= seq![meta.index]);
                }
                TransferState {
                    total_size: meta.total_size,
                    total_chunks: meta.total_chunks,
                    received,
                    last_activity: crate::clock::now(),
                }
            }
        },
        None => {
            let received = vec![meta.index];
            proof {
                assert(received@ =~= seq![meta.index]);
            }
            TransferState {
                total_size: meta.total_size,
                total_chunks: meta.total_chunks,
                received,
                last_activity: crate::clock::now(),
            }
        },
    }
}

/// Every node that existed before, other than the one at `target`, still
/// exists and shows the same data.
pub open spec fn others_unchanged(before: ZenohNode, after: ZenohNode, target: Seq<Seq<char>>) -> bool {
    forall|q: Seq<Seq<char>>|
        q != target && #[trigger] node_at(before, q) is Some ==> node_at(after, q) is Some && node_data(
            node_at(after, q)->0,
        ) == node_data(node_at(before, q)->0)
}

/// `q` is a prefix of the path `target`.
pub open spec fn is_path_prefix(q: Seq<Seq<char>>, target: Seq<Seq<char>>) -> bool {
    q.len() <= target.len() && target.subrange(0, q.len() as int) == q
}

/// The node holds nothing received: no message, payload, encoding, local
/// mark or transfer, as `ZenohNode::new` makes it.
pub open spec fn holds_nothing(n: ZenohNode) -> bool {
    &&& n.message_count == 0
    &&& n.last_payload is None
    &&& n.last_encoding is None
    &&& !n.is_local
    &&& n.transfer is None
}

/// Every node of `after` that `before` lacks lies on the path `target`,
/// and those other than the one at `target` hold nothing.
pub open spec fn created_on_path(before: ZenohNode, after: ZenohNode, target: Seq<Seq<char>>) -> bool {
    forall|q: Seq<Seq<char>>|
        #[trigger] node_at(after, q) is Some && node_at(before, q) is None ==> is_path_prefix(q, target) && (q
            != target ==> holds_nothing(node_at(after, q)->0))
}

/// The subtree of a sorted tree is sorted.
proof fn lemma_tree_sorted_child(parent: ZenohNode, k: Seq<char>)
    requires
        tree_sorted(parent),
        child_named(parent.children@, k) is Some,
    ensures
        tree_sorted(child_named(parent.children@, k)->0),
{
    let c = child_named(parent.children@, k)->0;
    assert forall|r: Seq<Seq<char>>| #[trigger] node_at(c, r) is Some implies keys_sorted(node_at(c, r)->0.children@) by {
        let q = seq![k] + r;
        assert(q[0] == k);
        assert(q.drop_first() =~= r);
        assert(node_at(parent, q) == node_at(c, r));
    }
}

/// A node without children is a sorted tree.
proof fn lemma_leaf_sorted(n: ZenohNode)
    requires
        n.children@.len() == 0,
    ensures
        tree_sorted(n),
        forall|r: Seq<Seq<char>>| r.len() > 0 ==> #[trigger] node_at(n, r) is None,
{
    assert forall|r: Seq<Seq<char>>| r.len() > 0 implies #[trigger] node_at(n, r) is None by {
        lemma_child_named_none(n.children@, r[0]);
    }
    assert forall|r: Seq<Seq<char>>| #[trigger] node_at(n, r) is Some implies keys_sorted(node_at(n, r)->0.children@) by {
        if r.len() > 0 {
            lemma_child_named_none(n.children@, r[0]);
        }
    }
}

impl ZenohNode {
    /// Records on this node: a message is counted (saturating) with its
    /// payload and encoding kept; a chunk updates the node's transfer.
    fn record_here(&mut self, rec: Record)
        ensures
            recorded_as(Some(*old(self)), Some(*final(self)), rec),
            final(self).key == old(self).key,
            final(self).children == old(self).children,
    {
        match rec {
            Record::Message { payload, encoding, is_local } => {
                if self.message_count < usize::MAX {
                    self.update_data(payload, encoding, is_local);
                } else {
                    self.last_seen = crate::clock::now();
                    self.last_payload = Some(payload);
                    self.last_encoding = Some(encoding);
                    if is_local {
                        self.is_local = true;
                    }
                }
            },
            Record::Chunk { meta } => {
                let mut t: Option<TransferState> = None;
                std::mem::swap(&mut t, &mut self.transfer);
                let next = next_transfer(t, meta);
                self.transfer = Some(next);
            },
        }
    }

    /// Records on the node at path `parts[from..]` below this node,
    /// creating the nodes of the path that are missing (in key order among
    /// their siblings). No other node changes.
    fn record_path(&mut self, parts: &Vec<String>, from: usize, rec: Record)
        requires
            from <= parts@.len(),
            tree_sorted(*old(self)),
        ensures
            tree_sorted(*final(self)),
            final(self).key == old(self).key,
            recorded_as(
                node_at(*old(self), strings_view(parts@).skip(from as int)),
                node_at(*final(self), strings_view(parts@).skip(from as int)),
                rec,
            ),
            others_unchanged(*old(self), *final(self), strings_view(parts@).skip(from as int)),
            created_on_path(*old(self), *final(self), strings_view(parts@).skip(from as int)),
        decreases parts@.len() - from,
    {
        let ghost before = *self;
        let ghost target = strings_view(parts@).skip(from as int);
        if from == parts.len() {
            self.record_here(rec);
            proof {
                assert(target =~= Seq::<Seq<char>>::empty());
                assert forall|q: Seq<Seq<char>>| #[trigger] node_at(*self, q) is Some implies keys_sorted(
                    node_at(*self, q)->0.children@,
                ) by {
                    if q.len() > 0 {
                        assert(node_at(*self, q) == node_at(before, q));
                    } else {
                        assert(node_at(before, q) is Some);
                    }
                }
                assert forall|q: Seq<Seq<char>>| q != target && #[trigger] node_at(before, q) is Some implies node_at(
                    *self,
                    q,
                ) is Some && node_data(node_at(*self, q)->0) == node_data(node_at(before, q)->0) by {
                    if q.len() == 0 {
                        assert(q =~= target);
                    }
                    assert(node_at(*self, q) == node_at(before, q));
                }
                assert forall|q: Seq<Seq<char>>| #[trigger] node_at(*self, q) is Some implies node_at(before, q) is Some by {
                    if q.len() > 0 {
                        assert(node_at(*self, q) == node_at(before, q));
                    }
                }
            }
            return;
        }
        let part = &parts[from];
        proof {
            assert(target[0] == part@);
            assert(target.drop_first() =~= strings_view(parts@).skip(from + 1));
            assert(node_at(before, Seq::empty()) is Some);
        }
        let (found, i) = locate_child(&self.children, part.as_str());
        if found {
            let ghost old_c = self.children@;
            let mut child = self.children.remove(i);
            proof {
                assert(child == old_c[i as int]);
                lemma_tree_sorted_child(before, part@);
            }
            child.record_path(parts, from + 1, rec);
            self.children.insert(i, child);
            proof {
                let c0 = old_c[i as int];
                let n = self.children@;
                assert(n =~= old_c.update(i as int, child));
                assert forall|j: int| 0 <= j < i implies (#[trigger] n[j]).key@ != part@ by {
                    lemma_sorted_distinct(old_c, j, i as int);
                }
                lemma_child_named_first(n, part@, i as int);
                assert(keys_sorted(n)) by {
                    assert forall|a: int, b: int| 0 <= a < b < n.len() implies bytes_lt(
                        encode_utf8(#[trigger] n[a].key@),
                        encode_utf8(#[trigger] n[b].key@),
                    ) by {
                        assert(old_c[a].key@ == n[a].key@);
                        assert(old_c[b].key@ == n[b].key@);
                    }
                }
                assert forall|q: Seq<Seq<char>>| #[trigger] node_at(*self, q) is Some implies keys_sorted(
                    node_at(*self, q)->0.children@,
                ) by {
                    if q.len() > 0 {
                        if q[0] == part@ {
                            assert(node_at(*self, q) == node_at(child, q.drop_first()));
                        } else {
                            lemma_child_named_update(old_c, i as int, child, q[0]);
                            assert(node_at(*self, q) == node_at(before, q));
                        }
                    }
                }
                assert forall|q: Seq<Seq<char>>| q != target && #[trigger] node_at(before, q) is Some implies node_at(
                    *self,
                    q,
                ) is Some && node_data(node_at(*self, q)->0) == node_data(node_at(before, q)->0) by {
                    if q.len() > 0 {
                        if q[0] == part@ {
                            assert(node_at(before, q) == node_at(c0, q.drop_first()));
                            assert(node_at(*self, q) == node_at(child, q.drop_first()));
                            if q.drop_first() == target.drop_first() {
                                assert(q =~= seq![q[0]] + q.drop_first());
                                assert(target =~= seq![target[0]] + target.drop_first());
                            }
                        } else {
                            lemma_child_named_update(old_c, i as int, child, q[0]);
                            assert(node_at(*self, q) == node_at(before, q));
                        }
                    }
                }
                assert(node_at(*self, target) == node_at(child, target.drop_first()));
                assert(node_at(before, target) == node_at(c0, target.drop_first()));
                assert forall|q: Seq<Seq<char>>| #[trigger] node_at(*self, q) is Some && node_at(before, q) is None implies is_path_prefix(q, target) && (q != target ==> holds_nothing(node_at(*self, q)->0)) by {
                    assert(q.len() > 0);
                    if q[0] == part@ {
                        let r = q.drop_first();
                        assert(node_at(before, q) == node_at(c0, r));
                        assert(node_at(*self, q) == node_at(child, r));
                        assert(node_at(child, r) is Some);
                        assert(is_path_prefix(r, target.drop_first()));
                        assert(q =~= seq![q[0]] + r);
                        assert(target =~= seq![target[0]] + target.drop_first());
                        assert(target.subrange(0, q.len() as int) =~= seq![target[0]] + target.drop_first().subrange(0, r.len() as int));
                    } else {
                        lemma_child_named_update(old_c, i as int, child, q[0]);
                        assert(node_at(*self, q) == node_at(before, q));
                    }
                }
            }
        } else {
            let mut child = ZenohNode::new(part.clone());
            let ghost fresh = child;
            proof {
                lemma_leaf_sorted(child);
            }
            child.record_path(parts, from + 1, rec);
            let ghost old_c = self.children@;
            self.children.insert(i, child);
            proof {
                let n = self.children@;
                assert(n =~= old_c.insert(i as int, child));
                assert forall|j: int| 0 <= j < i implies (#[trigger] n[j]).key@ != part@ by {
                    lemma_bytes_lt_total(encode_utf8(old_c[j].key@), encode_utf8(part@));
                }
                lemma_child_named_first(n, part@, i as int);
                assert(keys_sorted(n)) by {
                    assert forall|a: int, b: int| 0 <= a < b < n.len() implies bytes_lt(
                        encode_utf8(#[trigger] n[a].key@),
                        encode_utf8(#[trigger] n[b].key@),
                    ) by {
                        if b < i {
                        } else if a < i && b == i {
                        } else if a < i && b > i {
                            assert(n[b] == old_c[b - 1]);
                        } else if a == i {
                            assert(n[b] == old_c[b - 1]);
                        } else {
                            assert(n[a] == old_c[a - 1]);
                            assert(n[b] == old_c[b - 1]);
                        }
                    }
                }
                assert forall|q: Seq<Seq<char>>| #[trigger] node_at(*self, q) is Some implies keys_sorted(
                    node_at(*self, q)->0.children@,
                ) by {
                    if q.len() > 0 {
                        if q[0] == part@ {
                            assert(node_at(*self, q) == node_at(child, q.drop_first()));
                        } else {
                            lemma_child_named_insert(old_c, i as int, child, q[0]);
                            assert(node_at(*self, q) == node_at(before, q));
                        }
                    }
                }
                assert forall|q: Seq<Seq<char>>| q != target && #[trigger] node_at(before, q) is Some implies node_at(
                    *self,
                    q,
                ) is Some && node_data(node_at(*self, q)->0) == node_data(node_at(before, q)->0) by {
                    if q.len() > 0 {
                        if q[0] == part@ {
                            assert(node_at(before, q) is None);
                        } else {
                            lemma_child_named_insert(old_c, i as int, child, q[0]);
                            assert(node_at(*self, q) == node_at(before, q));
                        }
                    }
                }
                assert(node_at(*self, target) == node_at(child, target.drop_first()));
                assert(node_at(before, target) is None);
                if target.drop_first().len() > 0 {
                    assert(node_at(fresh, target.drop_first()) is None);
                } else {
                    assert(node_at(fresh, target.drop_first()) == Some(fresh));
                }
                assert forall|q: Seq<Seq<char>>| #[trigger] node_at(*self, q) is Some && node_at(before, q) is None implies is_path_prefix(q, target) && (q != target ==> holds_nothing(node_at(*self, q)->0)) by {
                    assert(q.len() > 0);
                    if q[0] == part@ {
                        let r = q.drop_first();
                        assert(node_at(*self, q) == node_at(child, r));
                        assert(q =~= seq![q[0]] + r);
                        assert(target =~= seq![target[0]] + target.drop_first());
                        if r.len() == 0 {
                            assert(node_at(child, r) == Some(child));
                            assert(node_at(fresh, r) == Some(fresh));
                            if target.drop_first().len() > 0 {
                                assert(r != target.drop_first());
                                assert(node_data(child) == node_data(fresh));
                            } else {
                                assert(q =~= target);
                            }
                            assert(target.subrange(0, 1) =~= seq![target[0]]);
                        } else {
                            assert(node_at(fresh, r) is None);
                            assert(node_at(child, r) is Some);
                            assert(is_path_prefix(r, target.drop_first()));
                            assert(target.subrange(0, q.len() as int) =~= seq![target[0]] + target.drop_first().subrange(0, r.len() as int));
                        }
                    } else {
                        lemma_child_named_insert(old_c, i as int, child, q[0]);
                        assert(node_at(*self, q) == node_at(before, q));
                    }
                }
            }
        }
    }

    /// Records a message received on `key`: creates the nodes of the key's
    /// path that are missing and updates the last one with the payload
    /// preview, the encoding and the local mark. No other node changes.
    pub fn insert_path(&mut self, key: &str, payload: String, encoding: String, is_local: bool)
        requires
            tree_sorted(*old(self)),
        ensures
            tree_sorted(*final(self)),
            final(self).key == old(self).key,
            holds_recorded(
                node_at(*old(self), path_parts(key@)),
                node_at(*final(self), path_parts(key@)),
                payload@,
                encoding@,
                is_local,
            ),
            others_unchanged(*old(self), *final(self), path_parts(key@)),
            created_on_path(*old(self), *final(self), path_parts(key@)),
    {
        let parts = split_path(key);
        proof {
            assert(strings_view(parts@).skip(0) =~= path_parts(key@));
        }
        self.record_path(&parts, 0, Record::Message { payload, encoding, is_local });
    }

    /// Records a chunk of a transfer on `topic`: creates the nodes of the
    /// topic's path that are missing and updates the transfer of the last
    /// one. No other node changes.
    pub fn record_chunk(&mut self, topic: &str, meta: ChunkMeta)
        requires
            tree_sorted(*old(self)),
        ensures
            tree_sorted(*final(self)),
            final(self).key == old(self).key,
            holds_chunk(node_at(*old(self), path_parts(topic@)), node_at(*final(self), path_parts(topic@)), meta),
            others_unchanged(*old(self), *final(self), path_parts(topic@)),
            created_on_path(*old(self), *final(self), path_parts(topic@)),
    {
        let parts = split_path(topic);
        proof {
            assert(strings_view(parts@).skip(0) =~= path_parts(topic@));
        }
        self.record_path(&parts, 0, Record::Chunk { meta });
    }
}


/// `needle` occurs in `hay` (as `str::contains` finds it, on the bytes).
pub open spec fn contains_text(hay: Seq<char>, needle: Seq<char>) -> bool {
    find_from(encode_utf8(hay), encode_utf8(needle), 0) is Some
}

/// Whether `needle` occurs in `hay`.
pub fn str_contains(hay: &str, needle: &str) -> (res: bool)
    ensures
        res == contains_text(hay@, needle@),
{
    find(hay.as_bytes(), needle.as_bytes(), 0).is_some()
}

/// The path of a child: the parent's path, `/`, the child's key.
pub open spec fn child_path(path: Seq<char>, key: Seq<char>) -> Seq<char> {
    path + seq!['/'] + key
}

/// The full path of a node under `parent`: its key alone at the top level.
pub open spec fn full_path(parent: Seq<char>, key: Seq<char>) -> Seq<char> {
    if parent.len() == 0 {
        key
    } else {
        child_path(parent, key)
    }
}

/// The lower-case form of a text, as `str::to_lowercase` maps it.
pub uninterp spec fn lower_case(text: Seq<char>) -> Seq<char>;

/// The lower-case form of a text, from `str::to_lowercase`: depends on the
/// text alone.
#[verifier::external_body]
fn to_lower_case(text: &str) -> (res: String)
    ensures
        res@ == lower_case(text@),
{
    text.to_lowercase()
}

/// A path matches the filter: it contains the filter, compared as it is or,
/// when `fold`, with the path in lower case (the filter being given in
/// lower case).
pub open spec fn path_matches(path: Seq<char>, filter: Seq<char>, fold: bool) -> bool {
    if fold {
        contains_text(lower_case(path), filter)
    } else {
        contains_text(path, filter)
    }
}

/// The path of the node, or of a node below it, matches the filter.
pub open spec fn subtree_matches(node: ZenohNode, filter: Seq<char>, path: Seq<char>, fold: bool) -> bool
    decreases node, 0nat,
{
    path_matches(path, filter, fold) || {
        proof {
            assert(decreases_to!(node => node.children));
        }
        children_match(node.children@, filter, path, fold, node.children@.len())
    }
}

/// One of the first `n` children's subtrees matches the filter.
pub open spec fn children_match(children: Seq<ZenohNode>, filter: Seq<char>, path: Seq<char>, fold: bool, n: nat) -> bool
    decreases children, n,
{
    if n == 0 || n > children.len() {
        false
    } else {
        children_match(children, filter, path, fold, (n - 1) as nat) || subtree_matches(
            children[n - 1],
            filter,
            child_path(path, children[n - 1].key@),
            fold,
        )
    }
}

/// A match among the first `m` children is a match among the first `n`.
proof fn lemma_children_match_mono(
    children: Seq<ZenohNode>,
    filter: Seq<char>,
    path: Seq<char>,
    fold: bool,
    m: nat,
    n: nat,
)
    requires
        m <= n <= children.len(),
        children_match(children, filter, path, fold, m),
    ensures
        children_match(children, filter, path, fold, n),
    decreases n,
{
    if m < n {
        lemma_children_match_mono(children, filter, path, fold, m, (n - 1) as nat);
    }
}

/// The first `n` children match exactly when one of them does.
proof fn lemma_children_match_any(children: Seq<ZenohNode>, filter: Seq<char>, path: Seq<char>, fold: bool, n: nat)
    requires
        n <= children.len(),
    ensures
        children_match(children, filter, path, fold, n) <==> exists|i: int|
            0 <= i < n && #[trigger] subtree_matches(children[i], filter, child_path(path, children[i].key@), fold),
    decreases n,
{
    if n > 0 {
        lemma_children_match_any(children, filter, path, fold, (n - 1) as nat);
        let last = (n - 1) as int;
        if subtree_matches(children[last], filter, child_path(path, children[last].key@), fold) {
            assert(exists|i: int|
                0 <= i < n && #[trigger] subtree_matches(children[i], filter, child_path(path, children[i].key@), fold));
        }
    }
}

/// The tree filter keeps a node exactly when its own path matches or the
/// subtree of any of its children (each under its path, the node's path,
/// `/`, its key) matches: a match below any child, not only the first,
/// keeps the node.
pub proof fn law_subtree_matches_iff_any_child(node: ZenohNode, filter: Seq<char>, path: Seq<char>, fold: bool)
    ensures
        subtree_matches(node, filter, path, fold) <==> path_matches(path, filter, fold) || exists|i: int|
            0 <= i < node.children@.len() && #[trigger] subtree_matches(
                node.children@[i],
                filter,
                child_path(path, node.children@[i].key@),
                fold,
            ),
{
    lemma_children_match_any(node.children@, filter, path, fold, node.children@.len());
}

/// Whether the path of `node` (`current_path`) or of any node below it
/// matches `filter` (see `path_matches`).
fn subtree_search(node: &ZenohNode, filter: &str, current_path: &str, fold: bool) -> (res: bool)
    ensures
        res == subtree_matches(*node, filter@, current_path@, fold),
    decreases node,
{
    let here = if fold {
        let lower = to_lower_case(current_path);
        str_contains(lower.as_str(), filter)
    } else {
        str_contains(current_path, filter)
    };
    if here {
        return true;
    }
    let n = node.children.len();
    let mut i: usize = 0;
    while i < n
        invariant
            n == node.children@.len(),
            i <= n,
            !children_match(node.children@, filter@, current_path@, fold, i as nat),
        decreases n - i,
    {
        let child = &node.children[i];
        let mut path = String::from_str(current_path);
        path.append("/");
        path.append(child.key.as_str());
        proof {
            reveal_strlit("/");
            assert(path@ =~= child_path(current_path@, child.key@));
            assert(decreases_to!(*node => node.children));
        }
        if subtree_search(child, filter, path.as_str(), fold) {
            proof {
                lemma_children_match_mono(node.children@, filter@, current_path@, fold, (i + 1) as nat, n as nat);
            }
            return true;
        }
        i = i + 1;
    }
    false
}

/// Whether the path of `node` (`current_path`) or of any node below it
/// contains `filter`, ignoring case (both compared in lower case).
pub fn has_matching_descendant(node: &ZenohNode, filter: &str, current_path: &str) -> (res: bool)
    ensures
        res == subtree_matches(*node, lower_case(filter@), current_path@, true),
{
    let lower = to_lower_case(filter);
    subtree_search(node, lower.as_str(), current_path, true)
}

/// The full path of a node: its key at the top level, else the parent's
/// path, `/`, its key.
pub fn node_full_path(parent_path: &str, key: &str) -> (res: String)
    ensures
        res@ == full_path(parent_path@, key@),
{
    if parent_path.unicode_len() == 0 {
        return String::from_str(key);
    }
    let mut path = String::from_str(parent_path);
    path.append("/");
    path.append(key);
    proof {
        reveal_strlit("/");
        assert(path@ =~= child_path(parent_path@, key@));
    }
    path
}

/// Whether a node is shown under the tree filter: always with an empty
/// filter, otherwise when its path or a path below it contains the filter,
/// ignoring case (both are compared in lower case).
pub fn tree_node_visible(node: &ZenohNode, filter: &str, path: &str) -> (res: bool)
    ensures
        res == (filter@.len() == 0 || subtree_matches(*node, lower_case(filter@), path@, true)),
{
    if filter.unicode_len() == 0 {
        return true;
    }
    has_matching_descendant(node, filter, path)
}

impl ZenohNode {
    /// The node at `path` below this one (its non-empty `/`-separated
    /// segments followed one child at a time), if there is one.
    pub fn find_node(&self, path: &str) -> (res: Option<&ZenohNode>)
        ensures
            match res {
                Some(n) => node_at(*self, path_parts(path@)) == Some(*n),
                None => node_at(*self, path_parts(path@)) is None,
            },
    {
        let parts = split_path(path);
        let ghost ps = strings_view(parts@);
        let mut current: &ZenohNode = self;
        let mut k: usize = 0;
        proof {
            assert(ps.skip(0) =~= ps);
        }
        while k < parts.len()
            invariant
                ps == strings_view(parts@),
                ps == path_parts(path@),
                k <= parts@.len(),
                node_at(*self, ps) == node_at(*current, ps.skip(k as int)),
            decreases parts.len() - k,
        {
            let part = parts[k].as_str();
            let children = &current.children;
            let m = children.len();
            let mut j: usize = 0;
            let mut found: Option<usize> = None;
            while j < m
                invariant
                    m == children@.len(),
                    j <= m,
                    found is None ==> forall|t: int| 0 <= t < j ==> (#[trigger] children@[t]).key@ != part@,
                    found matches Some(f) ==> f < m && children@[f as int].key@ == part@ && forall|t: int|
                        0 <= t < f ==> (#[trigger] children@[t]).key@ != part@,
                decreases m - j,
            {
                if found.is_none() && crate::payload_store::str_equal(children[j].key.as_str(), part) {
                    found = Some(j);
                }
                j = j + 1;
            }
            let ghost rest = ps.skip(k as int);
            proof {
                assert(rest[0] == part@);
                assert(rest.drop_first() =~= ps.skip(k + 1));
            }
            match found {
                Some(f) => {
                    proof {
                        lemma_child_named_first(children@, part@, f as int);
                    }
                    current = &children[f];
                },
                None => {
                    proof {
                        lemma_child_named_none(children@, part@);
                    }
                    return None;
                },
            }
            k = k + 1;
        }
        proof {
            assert(ps.skip(k as int) =~= Seq::<Seq<char>>::empty());
        }
        Some(current)
    }
}


/// What a read gives back of a write: after a message is recorded on
/// `key`, the node found at `key` holds its payload and encoding, and every
/// node that existed before still exists.
pub proof fn law_recorded_message_is_found(
    before: ZenohNode,
    after: ZenohNode,
    key: Seq<char>,
    payload: Seq<char>,
    encoding: Seq<char>,
    is_local: bool,
)
    requires
        holds_recorded(node_at(before, path_parts(key)), node_at(after, path_parts(key)), payload, encoding, is_local),
        others_unchanged(before, after, path_parts(key)),
    ensures
        node_at(after, path_parts(key)) matches Some(n) && opt_str_view(n.last_payload) == Some(payload)
            && opt_str_view(n.last_encoding) == Some(encoding),
        forall|q: Seq<Seq<char>>| #[trigger] node_at(before, q) is Some ==> node_at(after, q) is Some,
{
    assert forall|q: Seq<Seq<char>>| #[trigger] node_at(before, q) is Some implies node_at(after, q) is Some by {
        if q != path_parts(key) {
        }
    }
}

} // verus!
