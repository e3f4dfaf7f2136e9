//! Publish side of the chunked transfer: which route a publication takes,
//! how a payload too large for one message is cut into chunks, and the keys
//! the chunks are published under.

use vstd::prelude::*;
use vstd::string::StringExecFns;
use vstd::utf8::*;

use crate::bytes::{find_from, lemma_find_from, occurs_at};
use crate::payload_store::EntryView;
use crate::text::{
    dec_bytes, dec_digits, lemma_dec_bytes, lemma_encode_ascii_char, lemma_encode_dec_digits,
    lemma_encode_utf8_concat, lemma_parse_dec_bytes, push_decimal,
};
use crate::transfer::{
    chunk_infix, concat_payloads, in_group, is_reassembly, member_meta, slash, spec_is_sane,
    spec_parse_chunk_key, split3, ChunkMeta, CHUNK_SIZE,
};

verus! {

/// Largest payload published as a single message (`u32::MAX` bytes): the
/// wire format bounds a put's payload length by a `u32`.
pub const MAX_SINGLE_PAYLOAD: usize = 4294967295;

/// Payloads above this size are published without a local echo.
pub const NO_ECHO_THRESHOLD: usize = 104857600;

/// Largest payload kept in the local key/value store that answers queries.
pub const MAX_KVSTORE_PAYLOAD: usize = 10485760;

/// Number of chunks a payload of `len` bytes is cut into: `len / CHUNK_SIZE`
/// rounded up.
pub open spec fn spec_chunk_count(len: nat) -> nat {
    ((len + CHUNK_SIZE - 1) / (CHUNK_SIZE as int)) as nat
}

/// End (exclusive) of chunk `i` of a payload of `len` bytes.
pub open spec fn chunk_end(len: nat, i: nat) -> nat {
    prefix_end(len, i + 1)
}

/// Chunk `i` of a payload: the bytes from `i * CHUNK_SIZE` up to the next
/// chunk boundary or the end of the payload.
pub open spec fn spec_chunk(payload: Seq<u8>, i: nat) -> Seq<u8> {
    payload.subrange(i * CHUNK_SIZE, chunk_end(payload.len(), i) as int)
}

/// The `/__chunk/` infix as characters.
pub open spec fn chunk_infix_chars() -> Seq<char> {
    seq!['/', '_', '_', 'c', 'h', 'u', 'n', 'k', '/']
}

/// The key chunk `index` of a transfer on `topic` is published under:
/// `{topic}/__chunk/{total_size}/{total_chunks}/{index}`.
pub open spec fn chunk_key_text(topic: Seq<char>, total_size: nat, total_chunks: nat, index: nat) -> Seq<char> {
    topic + chunk_infix_chars() + dec_digits(total_size) + seq!['/'] + dec_digits(total_chunks) + seq!['/']
        + dec_digits(index)
}

/// The reserved infix occurs in `topic + "/__chunk/"` only at its end: the
/// topic neither contains `/__chunk/` nor ends in a part of it that the
/// infix would complete.
pub open spec fn is_chunkable_topic(topic: Seq<u8>) -> bool {
    forall|j: int| 0 <= j < topic.len() ==> !occurs_at(topic + chunk_infix(), chunk_infix(), j)
}

/// How a publication is sent.
#[derive(Debug, Clone, Copy, PartialEq, Eq, Structural)]
pub enum PublishRoute {
    /// Cut into chunks published one after another.
    Chunked,
    /// One message, without a local echo (too large to echo).
    LargeNoEcho,
    /// One message, without storage or echo (an imported file).
    ImportNoEcho,
    /// One message, echoed back to the message list.
    Echo,
}

/// The route a publication of `payload_len` bytes takes.
pub open spec fn spec_publish_route(payload_len: nat, from_import: bool) -> PublishRoute {
    if payload_len > MAX_SINGLE_PAYLOAD {
        PublishRoute::Chunked
    } else if payload_len > NO_ECHO_THRESHOLD {
        PublishRoute::LargeNoEcho
    } else if from_import {
        PublishRoute::ImportNoEcho
    } else {
        PublishRoute::Echo
    }
}

/// Chooses how a publication of `payload_len` bytes is sent: in chunks
/// above `MAX_SINGLE_PAYLOAD`, without echo above `NO_ECHO_THRESHOLD` or for
/// an imported file, and echoed otherwise.
pub fn publish_route(payload_len: usize, from_import: bool) -> (res: PublishRoute)
    ensures
        res == spec_publish_route(payload_len as nat, from_import),
        res is Chunked <==> payload_len > MAX_SINGLE_PAYLOAD,
{
    if payload_len > MAX_SINGLE_PAYLOAD {
        PublishRoute::Chunked
    } else if payload_len > NO_ECHO_THRESHOLD {
        PublishRoute::LargeNoEcho
    } else if from_import {
        PublishRoute::ImportNoEcho
    } else {
        PublishRoute::Echo
    }
}

/// A payload that one message cannot carry (more than `MAX_SINGLE_PAYLOAD`
/// bytes, the most a message's length field holds) is always chunked,
/// whether typed in or imported; any payload one message can carry is sent
/// as one message, and only those of at most `NO_ECHO_THRESHOLD` bytes
/// typed in are echoed.
pub proof fn law_oversized_payloads_are_chunked(payload_len: nat, from_import: bool)
    ensures
        spec_publish_route(payload_len, from_import) is Chunked <==> payload_len > MAX_SINGLE_PAYLOAD,
        spec_publish_route(payload_len, from_import) is Echo <==> payload_len <= NO_ECHO_THRESHOLD && !from_import,
{
}

/// Whether a published payload is kept in the local key/value store that
/// answers queries: only payloads typed in (not imported) of at most
/// `MAX_KVSTORE_PAYLOAD` bytes.
pub fn stores_locally(payload_len: usize, from_import: bool) -> (res: bool)
    ensures
        res == (!from_import && payload_len <= MAX_KVSTORE_PAYLOAD),
{
    !from_import && payload_len <= MAX_KVSTORE_PAYLOAD
}

/// Number of chunks a payload of `len` bytes is cut into.
pub fn chunk_count(len: usize) -> (n: usize)
    ensures
        n == spec_chunk_count(len as nat),
        n <= len,
{
    let q = len / CHUNK_SIZE;
    let r = len % CHUNK_SIZE;
    proof {
        let c = CHUNK_SIZE as int;
        let l = len as int;
        let qi = q as int;
        let ri = r as int;
        assert(l == qi * c + ri) by (nonlinear_arith)
            requires
                qi == l / c,
                ri == l % c,
                c > 0,
        ;
        if r == 0 {
            assert((l + c - 1) / c == qi) by (nonlinear_arith)
                requires
                    l == qi * c,
                    c > 0,
                    qi >= 0,
            ;
        } else {
            assert((l + c - 1) / c == qi + 1) by (nonlinear_arith)
                requires
                    l == qi * c + ri,
                    0 < ri < c,
                    qi >= 0,
            ;
            assert(qi + 1 <= l) by (nonlinear_arith)
                requires
                    l == qi * c + ri,
                    0 < ri < c,
                    qi >= 0,
                    c > 1,
            ;
        }
        assert(qi <= l) by (nonlinear_arith)
            requires
                l == qi * c + ri,
                0 <= ri,
                qi >= 0,
                c > 1,
        ;
    }
    if r == 0 {
        q
    } else {
        q + 1
    }
}

/// Byte range `[start, end)` of chunk `index` of a payload of `len` bytes.
pub fn chunk_bounds(len: usize, index: usize) -> (res: (usize, usize))
    requires
        index < spec_chunk_count(len as nat),
    ensures
        res.0 == index * CHUNK_SIZE,
        res.1 == chunk_end(len as nat, index as nat),
        res.0 < res.1 <= len,
{
    proof {
        let c = CHUNK_SIZE as int;
        assert(index * c < len) by (nonlinear_arith)
            requires
                index < (len + c - 1) / c,
                c > 0,
                index >= 0,
        ;
    }
    let start = index * CHUNK_SIZE;
    let end = if len - start > CHUNK_SIZE {
        start + CHUNK_SIZE
    } else {
        len
    };
    proof {
        assert((index + 1) * CHUNK_SIZE == index * CHUNK_SIZE + CHUNK_SIZE) by (nonlinear_arith);
    }
    (start, end)
}

/// The key chunk `index` of a transfer on `topic` is published under.
pub fn chunk_key(topic: &str, total_size: usize, total_chunks: usize, index: usize) -> (res: String)
    ensures
        res@ == chunk_key_text(topic@, total_size as nat, total_chunks as nat, index as nat),
{
    let mut v = String::from_str(topic);
    v.append("/__chunk/");
    push_decimal(&mut v, total_size as u128);
    v.append("/");
    push_decimal(&mut v, total_chunks as u128);
    v.append("/");
    push_decimal(&mut v, index as u128);
    proof {
        reveal_strlit("/__chunk/");
        reveal_strlit("/");
        assert(v@ =~= chunk_key_text(topic@, total_size as nat, total_chunks as nat, index as nat));
    }
    v
}

/// The bytes of a chunk key.
pub open spec fn chunk_key_bytes(topic: Seq<u8>, total_size: nat, total_chunks: nat, index: nat) -> Seq<u8> {
    topic + chunk_infix() + dec_bytes(total_size) + slash() + dec_bytes(total_chunks) + slash()
        + dec_bytes(index)
}

/// The first occurrence of `pat` at or after `i` is at `p` when it occurs
/// there and nowhere in between.
proof fn lemma_find_first(b: Seq<u8>, pat: Seq<u8>, i: int, p: int)
    requires
        0 <= i <= p,
        occurs_at(b, pat, p),
        forall|k: int| i <= k < p ==> !occurs_at(b, pat, k),
    ensures
        find_from(b, pat, i) == Some(p),
{
    lemma_find_from(b, pat, i);
}

/// `pat` does not occur at or after `i`.
proof fn lemma_find_none(b: Seq<u8>, pat: Seq<u8>, i: int)
    requires
        0 <= i,
        forall|k: int| i <= k ==> !occurs_at(b, pat, k),
    ensures
        find_from(b, pat, i) is None,
{
    lemma_find_from(b, pat, i);
}

/// A decimal rendering holds no `/`.
proof fn lemma_no_slash_in_digits(b: Seq<u8>, d: Seq<u8>, start: int, n: nat)
    requires
        d == dec_bytes(n),
        0 <= start,
        start + d.len() <= b.len(),
        b.subrange(start, start + d.len()) == d,
    ensures
        forall|k: int| start <= k < start + d.len() ==> !occurs_at(b, slash(), k),
{
    lemma_dec_bytes(n);
    assert forall|k: int| start <= k < start + d.len() implies !occurs_at(b, slash(), k) by {
        assert(b[k] == d[k - start]);
        assert(crate::text::is_digit_byte(d[k - start]));
        if occurs_at(b, slash(), k) {
            assert(b.subrange(k, k + 1)[0] == slash()[0]);
        }
    }
}

/// Splitting `a/b/c` of three decimal renderings gives the three back.
proof fn lemma_split3_digits(x: nat, y: nat, z: nat)
    ensures
        split3(dec_bytes(x) + slash() + dec_bytes(y) + slash() + dec_bytes(z)) == Some(
            (dec_bytes(x), dec_bytes(y), dec_bytes(z)),
        ),
{
    let (a, b, c) = (dec_bytes(x), dec_bytes(y), dec_bytes(z));
    let s = a + slash() + b + slash() + c;
    let p1 = a.len() as int;
    let p2 = p1 + 1 + b.len();
    assert(s.subrange(0, p1) =~= a);
    assert(s.subrange(p1 + 1, p2) =~= b);
    assert(s.subrange(p2 + 1, s.len() as int) =~= c);
    assert(s.subrange(p1, p1 + 1) =~= slash());
    assert(s.subrange(p2, p2 + 1) =~= slash());
    lemma_no_slash_in_digits(s, a, 0, x);
    lemma_no_slash_in_digits(s, b, p1 + 1, y);
    lemma_no_slash_in_digits(s, c, p2 + 1, z);
    lemma_find_first(s, slash(), 0, p1);
    lemma_find_first(s, slash(), p1 + 1, p2);
    assert forall|k: int| p2 + 1 <= k implies !occurs_at(s, slash(), k) by {
        if k >= s.len() {
        }
    }
    lemma_find_none(s, slash(), p2 + 1);
}

/// The bytes of a chunk key parse back to its topic and metadata.
proof fn lemma_parse_chunk_key_bytes(topic: Seq<u8>, total_size: usize, total_chunks: usize, index: usize)
    requires
        is_chunkable_topic(topic),
    ensures
        spec_parse_chunk_key(chunk_key_bytes(topic, total_size as nat, total_chunks as nat, index as nat))
            == Some((topic, ChunkMeta { total_size, total_chunks, index })),
{
    let rest = dec_bytes(total_size as nat) + slash() + dec_bytes(total_chunks as nat) + slash()
        + dec_bytes(index as nat);
    let k = chunk_key_bytes(topic, total_size as nat, total_chunks as nat, index as nat);
    let t = topic.len() as int;
    assert(k =~= topic + chunk_infix() + rest);
    assert(k.subrange(t, t + 9) =~= chunk_infix());
    assert forall|j: int| 0 <= j < t implies !occurs_at(k, chunk_infix(), j) by {
        if occurs_at(k, chunk_infix(), j) {
            assert(k.subrange(j, j + 9) =~= (topic + chunk_infix()).subrange(j, j + 9));
            assert(occurs_at(topic + chunk_infix(), chunk_infix(), j));
        }
    }
    lemma_find_first(k, chunk_infix(), 0, t);
    assert(k.subrange(t + 9, k.len() as int) =~= rest);
    assert(k.subrange(0, t) =~= topic);
    lemma_split3_digits(total_size as nat, total_chunks as nat, index as nat);
    lemma_parse_dec_bytes(total_size as nat, usize::MAX as nat);
    lemma_parse_dec_bytes(total_chunks as nat, usize::MAX as nat);
    lemma_parse_dec_bytes(index as nat, usize::MAX as nat);
}

/// A chunk key encodes as the bytes of its parts.
proof fn lemma_encode_chunk_key(topic: Seq<char>, total_size: nat, total_chunks: nat, index: nat)
    ensures
        encode_utf8(chunk_key_text(topic, total_size, total_chunks, index)) == chunk_key_bytes(
            encode_utf8(topic),
            total_size,
            total_chunks,
            index,
        ),
{
    let inf = chunk_infix_chars();
    let sl = seq!['/'];
    let d1 = dec_digits(total_size);
    let d2 = dec_digits(total_chunks);
    let d3 = dec_digits(index);
    lemma_encode_ascii_char('/');
    assert(encode_utf8(inf) == chunk_infix()) by {
        reveal_with_fuel(encode_utf8, 10);
        lemma_encode_ascii_char('/');
        lemma_encode_ascii_char('_');
        lemma_encode_ascii_char('c');
        lemma_encode_ascii_char('h');
        lemma_encode_ascii_char('u');
        lemma_encode_ascii_char('n');
        lemma_encode_ascii_char('k');
        assert(encode_utf8(inf) =~= chunk_infix());
    }
    lemma_encode_dec_digits(total_size);
    lemma_encode_dec_digits(total_chunks);
    lemma_encode_dec_digits(index);
    lemma_encode_utf8_concat(topic, inf);
    lemma_encode_utf8_concat(topic + inf, d1);
    lemma_encode_utf8_concat(topic + inf + d1, sl);
    lemma_encode_utf8_concat(topic + inf + d1 + sl, d2);
    lemma_encode_utf8_concat(topic + inf + d1 + sl + d2, sl);
    lemma_encode_utf8_concat(topic + inf + d1 + sl + d2 + sl, d3);
    assert(slash() =~= seq![('/' as u32) as u8]);
}

/// Chunk keys parse back: the key chunk `index` of a transfer on `topic` is
/// published under yields that topic and that metadata, for every topic in
/// which the reserved `/__chunk/` infix does not already occur.
pub proof fn law_chunk_key_round_trip(topic: Seq<char>, total_size: usize, total_chunks: usize, index: usize)
    requires
        is_chunkable_topic(encode_utf8(topic)),
    ensures
        spec_parse_chunk_key(
            encode_utf8(chunk_key_text(topic, total_size as nat, total_chunks as nat, index as nat)),
        ) == Some((encode_utf8(topic), ChunkMeta { total_size, total_chunks, index })),
{
    lemma_encode_chunk_key(topic, total_size as nat, total_chunks as nat, index as nat);
    lemma_parse_chunk_key_bytes(encode_utf8(topic), total_size, total_chunks, index);
}

/// Every chunk of a planned transfer is sane: the receiving store keeps it.
pub proof fn law_planned_chunks_are_sane(len: usize, index: usize)
    requires
        0 < len,
        index < spec_chunk_count(len as nat),
    ensures
        spec_chunk_count(len as nat) <= len,
        spec_is_sane(
            ChunkMeta { total_size: len, total_chunks: spec_chunk_count(len as nat) as usize, index },
        ),
{
    let c = CHUNK_SIZE as int;
    let n = spec_chunk_count(len as nat);
    assert(n <= len) by (nonlinear_arith)
        requires
            n == (len + c - 1) / c,
            c > 1,
            len > 0,
    ;
    assert(len <= n * c) by (nonlinear_arith)
        requires
            n == (len + c - 1) / c,
            c > 0,
            len >= 0,
    ;
}

/// The first `min(k * CHUNK_SIZE, len)` bytes: where chunk `k` starts.
pub open spec fn prefix_end(len: nat, k: nat) -> nat {
    if k * CHUNK_SIZE < len {
        (k * CHUNK_SIZE) as nat
    } else {
        len
    }
}

/// The first `k` chunks of a payload, concatenated, are its first
/// `prefix_end(len, k)` bytes.
proof fn lemma_chunks_prefix(m: Map<Seq<char>, EntryView>, ks: Seq<Seq<char>>, payload: Seq<u8>, k: nat)
    requires
        k <= ks.len(),
        forall|i: int| 0 <= i < ks.len() ==> (#[trigger] m[ks[i]]).bytes == spec_chunk(payload, i as nat),
        ks.len() <= spec_chunk_count(payload.len()),
    ensures
        concat_payloads(m, ks.take(k as int)) == payload.subrange(0, prefix_end(payload.len(), k) as int),
    decreases k,
{
    let c = CHUNK_SIZE as int;
    let len = payload.len();
    if k == 0 {
        assert(ks.take(0) =~= Seq::<Seq<char>>::empty());
        assert(payload.subrange(0, 0) =~= Seq::<u8>::empty());
    } else {
        let j = (k - 1) as nat;
        lemma_chunks_prefix(m, ks, payload, j);
        assert(ks.take(k as int).drop_last() =~= ks.take(j as int));
        assert(ks.take(k as int).last() == ks[j as int]);
        assert(j * c < len) by (nonlinear_arith)
            requires
                j < (len + c - 1) / c,
                c > 0,
        ;
        assert(k * c == j * c + c) by (nonlinear_arith)
            requires
                k == j + 1,
        ;
        assert(prefix_end(len, j) == j * c);
        assert(chunk_end(len, j) == prefix_end(len, k));
        assert(payload.subrange(0, j * c) + spec_chunk(payload, j) =~= payload.subrange(
            0,
            prefix_end(len, k) as int,
        ));
    }
}

/// A planned transfer reassembles to its payload: when the entry under
/// `ks[i]` holds chunk `i` of `payload` for every index of the plan, the
/// entries concatenated in index order are `payload` itself.
pub proof fn law_planned_chunks_reassemble(m: Map<Seq<char>, EntryView>, ks: Seq<Seq<char>>, payload: Seq<u8>)
    requires
        ks.len() == spec_chunk_count(payload.len()),
        forall|i: int| 0 <= i < ks.len() ==> (#[trigger] m[ks[i]]).bytes == spec_chunk(payload, i as nat),
    ensures
        concat_payloads(m, ks) == payload,
{
    let c = CHUNK_SIZE as int;
    let len = payload.len();
    let n = ks.len();
    lemma_chunks_prefix(m, ks, payload, n);
    assert(ks.take(n as int) =~= ks);
    assert(len <= n * c) by (nonlinear_arith)
        requires
            n == (len + c - 1) / c,
            c > 0,
    ;
    assert(payload.subrange(0, len as int) =~= payload);
}

/// Exporting a complete transfer gives back the published payload: when
/// every stored chunk of the transfer's group carries the bytes of its chunk
/// of `payload`, each reassembly of the group (the chunks of the group in
/// index order, as export builds it) is `payload`, and its length is the
/// announced total size.
pub proof fn law_complete_transfer_exports_payload(
    m: Map<Seq<char>, EntryView>,
    topic: Seq<u8>,
    payload: Seq<u8>,
    ks: Seq<Seq<char>>,
)
    requires
        0 < payload.len() <= usize::MAX,
        forall|k: Seq<char>|
            #[trigger] in_group(m, k, topic, payload.len() as usize, spec_chunk_count(payload.len()) as usize)
                ==> m[k].bytes == spec_chunk(payload, member_meta(k, topic)->0.index as nat),
        is_reassembly(m, topic, payload.len() as usize, spec_chunk_count(payload.len()) as usize, ks),
    ensures
        concat_payloads(m, ks) == payload,
        concat_payloads(m, ks).len() == payload.len(),
{
    let len = payload.len() as usize;
    law_planned_chunks_are_sane(len, 0);
    let n = spec_chunk_count(payload.len()) as usize;
    assert forall|i: int| 0 <= i < ks.len() implies (#[trigger] m[ks[i]]).bytes == spec_chunk(payload, i as nat) by {
        assert(in_group(m, ks[i], topic, len, n));
    }
    law_planned_chunks_reassemble(m, ks, payload);
}

} // verus!
