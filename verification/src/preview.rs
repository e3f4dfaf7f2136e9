//! Text shown for payloads: UTF-8-safe truncation, hex previews of binary
//! payloads, previews of published payloads and human-readable sizes.

use vstd::prelude::*;
use vstd::string::StringExecFns;
use vstd::string::StringSliceAdditionalSpecFns;
use vstd::utf8::*;

use crate::text::{dec_digits, push_decimal};

verus! {

broadcast use vstd::string::group_string_axioms;

/// UI preview size for browse tree nodes.
pub const PAYLOAD_PREVIEW_SIZE: usize = 10240;

/// Payload size above which the message list shows a truncated payload.
pub const MAX_STORED_PAYLOAD: usize = 10240;

/// Largest text shown as formatted JSON.
pub const MAX_UI_DISPLAY_SIZE: usize = 51200;

/// Number of leading payload bytes shown in a preview.
pub const PREVIEW_BYTES: usize = 256;

/// `max_len` when it is at or past the end of `b`; otherwise the greatest
/// character boundary of `b` at or before `max_len`.
pub open spec fn is_safe_truncation(b: Seq<u8>, max_len: nat, res: nat) -> bool {
    if max_len >= b.len() {
        res == b.len()
    } else {
        &&& res <= max_len
        &&& is_char_boundary(b, res as int)
        &&& forall|j: int| res < j <= max_len ==> !is_char_boundary(b, j)
    }
}

/// Finds the greatest UTF-8 character boundary of `s` at or before
/// `max_len`, or the length of `s` when `max_len` reaches past its end.
pub fn safe_truncate_index(s: &str, max_len: usize) -> (res: usize)
    ensures
        is_safe_truncation(s.spec_bytes(), max_len as nat, res as nat),
        res <= s.spec_bytes().len(),
        is_char_boundary(s.spec_bytes(), res as int),
{
    let bytes = s.as_bytes();
    proof {
        encode_utf8_valid_utf8(s@);
        is_char_boundary_start_end_of_seq(bytes@);
    }
    if max_len >= bytes.len() {
        return bytes.len();
    }
    let mut end = max_len;
    while end > 0 && end < bytes.len() && (bytes[end] & 0xC0u8) == 0x80u8
        invariant
            bytes@ == s.spec_bytes(),
            valid_utf8(bytes@),
            end <= max_len < bytes@.len(),
            forall|j: int| end < j <= max_len ==> !is_char_boundary(bytes@, j),
        decreases end,
    {
        proof {
            let b = bytes@[end as int];
            assert(is_continuation_byte(b)) by {
                assert((b & 0xC0u8) == 0x80u8 ==> 0x80 <= b <= 0xBF) by (bit_vector);
            }
            is_char_boundary_iff_not_is_continuation_byte(bytes@, end as int);
        }
        end = end - 1;
    }
    proof {
        if end > 0 {
            let b = bytes@[end as int];
            assert(!is_continuation_byte(b)) by {
                assert(0x80 <= b <= 0xBF ==> (b & 0xC0u8) == 0x80u8) by (bit_vector);
            }
            is_char_boundary_iff_not_is_continuation_byte(bytes@, end as int);
        }
    }
    end
}

/// There is one safe truncation of a byte string at a given length.
pub proof fn lemma_safe_truncation_unique(b: Seq<u8>, max_len: nat, r1: nat, r2: nat)
    requires
        is_safe_truncation(b, max_len, r1),
        is_safe_truncation(b, max_len, r2),
    ensures
        r1 == r2,
{
}

/// The text whose UTF-8 encoding is the first `n` bytes of `s`.
pub open spec fn byte_prefix(s: Seq<char>, n: nat) -> Seq<char> {
    decode_utf8(encode_utf8(s).subrange(0, n as int))
}

/// The prefix of `s` that ends at byte `n`, a character boundary.
fn prefix_at(s: &str, n: usize) -> (res: &str)
    requires
        n <= s.spec_bytes().len(),
        is_char_boundary(s.spec_bytes(), n as int),
    ensures
        res@ == byte_prefix(s@, n as nat),
        res.spec_bytes() == s.spec_bytes().subrange(0, n as int),
{
    let (head, _tail) = s.split_at(n);
    proof {
        encode_utf8_decode_utf8(head@);
    }
    head
}

/// `s` cut at its greatest character boundary at or before `max_len` (all
/// of `s` when it is that short), and the number of bytes cut off.
pub open spec fn cut_at(s: Seq<char>, max_len: nat, cut: nat) -> bool {
    is_safe_truncation(encode_utf8(s), max_len, cut)
}

/// Appends the text of `s` up to its greatest character boundary at or
/// before `max_len`; returns that boundary.
fn push_truncated(out: &mut String, s: &str, max_len: usize) -> (end: usize)
    ensures
        is_safe_truncation(s.spec_bytes(), max_len as nat, end as nat),
        end <= s.spec_bytes().len(),
        final(out)@ == old(out)@ + byte_prefix(s@, end as nat),
{
    let end = safe_truncate_index(s, max_len);
    let head = prefix_at(s, end);
    out.append(head);
    end
}

/// Preview of a payload for the browse tree: payloads longer than
/// `PAYLOAD_PREVIEW_SIZE` bytes are cut at the last character boundary
/// within that size and get a note with the number of bytes left out.
pub fn tree_preview(payload: &str) -> (res: String)
    ensures
        payload.spec_bytes().len() <= PAYLOAD_PREVIEW_SIZE ==> res@ == payload@,
        payload.spec_bytes().len() > PAYLOAD_PREVIEW_SIZE ==> exists|end: nat|
            #[trigger] cut_at(payload@, PAYLOAD_PREVIEW_SIZE as nat, end) && res@ == byte_prefix(payload@, end)
                + "\n... [+"@ + dec_digits((payload.spec_bytes().len() - end) as nat)
                + " bytes - use Export for full]"@,
{
    let len = payload.as_bytes().len();
    if len <= PAYLOAD_PREVIEW_SIZE {
        return payload.to_owned();
    }
    let mut v = String::new();
    let end = push_truncated(&mut v, payload, PAYLOAD_PREVIEW_SIZE);
    v.append("\n... [+");
    push_decimal(&mut v, (len - end) as u128);
    v.append(" bytes - use Export for full]");
    proof {
        assert(cut_at(payload@, PAYLOAD_PREVIEW_SIZE as nat, end as nat));
    }
    v
}

/// Payload text for the message list: payloads longer than
/// `MAX_STORED_PAYLOAD` bytes are cut at the last character boundary within
/// that size and marked as truncated.
pub fn list_payload(payload: &str) -> (res: String)
    ensures
        payload.spec_bytes().len() <= MAX_STORED_PAYLOAD ==> res@ == payload@,
        payload.spec_bytes().len() > MAX_STORED_PAYLOAD ==> exists|end: nat|
            #[trigger] cut_at(payload@, MAX_STORED_PAYLOAD as nat, end) && res@ == byte_prefix(payload@, end)
                + "... [truncated - use Export for full]"@,
{
    let len = payload.as_bytes().len();
    if len <= MAX_STORED_PAYLOAD {
        return payload.to_owned();
    }
    let mut v = String::new();
    let end = push_truncated(&mut v, payload, MAX_STORED_PAYLOAD);
    v.append("... [truncated - use Export for full]");
    proof {
        assert(cut_at(payload@, MAX_STORED_PAYLOAD as nat, end as nat));
    }
    v
}

/// Formatted JSON for display: texts longer than `MAX_UI_DISPLAY_SIZE` bytes
/// are cut at the last character boundary within that size and get a note
/// with the number of bytes hidden.
pub fn json_display(pretty: &str) -> (res: String)
    ensures
        pretty.spec_bytes().len() <= MAX_UI_DISPLAY_SIZE ==> res@ == pretty@,
        pretty.spec_bytes().len() > MAX_UI_DISPLAY_SIZE ==> exists|end: nat|
            #[trigger] cut_at(pretty@, MAX_UI_DISPLAY_SIZE as nat, end) && res@ == byte_prefix(pretty@, end)
                + "\n... [+"@ + dec_digits((pretty.spec_bytes().len() - end) as nat)
                + " bytes of JSON hidden]"@,
{
    let len = pretty.as_bytes().len();
    if len <= MAX_UI_DISPLAY_SIZE {
        return pretty.to_owned();
    }
    let mut v = String::new();
    let end = push_truncated(&mut v, pretty, MAX_UI_DISPLAY_SIZE);
    v.append("\n... [+");
    push_decimal(&mut v, (len - end) as u128);
    v.append(" bytes of JSON hidden]");
    proof {
        assert(cut_at(pretty@, MAX_UI_DISPLAY_SIZE as nat, end as nat));
    }
    v
}

/// Lower-case hexadecimal digit of `d < 16`.
pub open spec fn hex_digit(d: nat) -> char {
    if d < 10 {
        ((d + 48) as u32) as char
    } else {
        ((d + 87) as u32) as char
    }
}

/// Two lower-case hexadecimal digits of a byte.
pub open spec fn hex_byte(b: u8) -> Seq<char> {
    seq![hex_digit((b / 16) as nat), hex_digit((b % 16) as nat)]
}

/// Hex digits of the bytes, each byte as two digits, separated by spaces.
pub open spec fn hex_joined(bs: Seq<u8>) -> Seq<char>
    decreases bs.len(),
{
    if bs.len() == 0 {
        Seq::empty()
    } else if bs.len() == 1 {
        hex_byte(bs[0])
    } else {
        hex_joined(bs.drop_last()) + seq![' '] + hex_byte(bs.last())
    }
}

/// The first `PREVIEW_BYTES` bytes (all of them when there are fewer).
pub open spec fn preview_prefix(bs: Seq<u8>) -> Seq<u8> {
    if bs.len() > PREVIEW_BYTES {
        bs.subrange(0, PREVIEW_BYTES as int)
    } else {
        bs
    }
}

/// Hex preview of a binary payload: its length, then its first
/// `PREVIEW_BYTES` bytes in hex, with `...` when there are more.
pub open spec fn binary_preview(bs: Seq<u8>) -> Seq<char> {
    "[binary "@ + dec_digits(bs.len()) + " bytes] "@ + hex_joined(preview_prefix(bs)) + if bs.len()
        > PREVIEW_BYTES {
        "..."@
    } else {
        Seq::empty()
    }
}

/// The one-character text of the lower-case hexadecimal digit `d < 16`.
fn hex_digit_str(d: u8) -> (res: &'static str)
    requires
        d < 16,
    ensures
        res@ == seq![hex_digit(d as nat)],
{
    proof {
        reveal_strlit("0");
        reveal_strlit("1");
        reveal_strlit("2");
        reveal_strlit("3");
        reveal_strlit("4");
        reveal_strlit("5");
        reveal_strlit("6");
        reveal_strlit("7");
        reveal_strlit("8");
        reveal_strlit("9");
        reveal_strlit("a");
        reveal_strlit("b");
        reveal_strlit("c");
        reveal_strlit("d");
        reveal_strlit("e");
        reveal_strlit("f");
    }
    match d {
        0 => "0",
        1 => "1",
        2 => "2",
        3 => "3",
        4 => "4",
        5 => "5",
        6 => "6",
        7 => "7",
        8 => "8",
        9 => "9",
        10 => "a",
        11 => "b",
        12 => "c",
        13 => "d",
        14 => "e",
        _ => "f",
    }
}

/// Hex preview of a binary payload: `[binary {len} bytes] ` followed by the
/// first `PREVIEW_BYTES` bytes as two lower-case hex digits each, separated
/// by spaces, and `...` when the payload is longer.
pub fn format_binary_preview(bytes: &[u8]) -> (res: String)
    ensures
        res@ == binary_preview(bytes@),
{
    let mut v = String::new();
    v.append("[binary ");
    push_decimal(&mut v, bytes.len() as u128);
    v.append(" bytes] ");
    let n = if bytes.len() > PREVIEW_BYTES {
        PREVIEW_BYTES
    } else {
        bytes.len()
    };
    let prefix = &bytes[0..n];
    proof {
        assert(prefix@ =~= preview_prefix(bytes@));
    }
    let joined = format_hex_joined(prefix);
    v.append(joined.as_str());
    if bytes.len() > PREVIEW_BYTES {
        v.append("...");
    }
    proof {
        reveal_strlit("");
        assert(v@ =~= binary_preview(bytes@));
    }
    v
}

/// Checks the bytes as UTF-8 with `std::str::from_utf8`, which returns the
/// text when the bytes are valid UTF-8 and an error otherwise.
#[verifier::external_body]
fn utf8_text(bytes: &[u8]) -> (res: Option<&str>)
    ensures
        match res {
            Some(s) => valid_utf8(bytes@) && s.spec_bytes() == bytes@,
            None => !valid_utf8(bytes@),
        },
{
    std::str::from_utf8(bytes).ok()
}

/// Display text of a received payload: the payload as text when it is
/// valid UTF-8, its hex preview otherwise.
pub fn payload_display(bytes: &[u8]) -> (res: String)
    ensures
        valid_utf8(bytes@) ==> res@ == decode_utf8(bytes@),
        !valid_utf8(bytes@) ==> res@ == binary_preview(bytes@),
{
    match utf8_text(bytes) {
        Some(s) => {
            proof {
                encode_utf8_decode_utf8(s@);
            }
            s.to_owned()
        },
        None => format_binary_preview(bytes),
    }
}

/// Preview of a payload being published: when its first `PREVIEW_BYTES`
/// bytes are valid UTF-8, that text (followed by the number of bytes left
/// out when the payload is longer); otherwise the hex preview of the
/// payload.
pub fn publish_preview(payload: &[u8]) -> (res: String)
    ensures
        valid_utf8(preview_prefix(payload@)) && payload@.len() <= PREVIEW_BYTES ==> res@ == decode_utf8(
            payload@,
        ),
        valid_utf8(preview_prefix(payload@)) && payload@.len() > PREVIEW_BYTES ==> res@ == decode_utf8(
            preview_prefix(payload@),
        ) + "... [+"@ + dec_digits((payload@.len() - PREVIEW_BYTES) as nat) + " bytes]"@,
        !valid_utf8(preview_prefix(payload@)) ==> res@ == binary_preview(payload@),
{
    let len = payload.len();
    let n = if len > PREVIEW_BYTES {
        PREVIEW_BYTES
    } else {
        len
    };
    let head = &payload[0..n];
    proof {
        assert(head@ =~= preview_prefix(payload@));
    }
    match utf8_text(head) {
        Some(text) => {
            proof {
                encode_utf8_decode_utf8(text@);
            }
            let mut v = text.to_owned();
            if len > PREVIEW_BYTES {
                v.append("... [+");
                push_decimal(&mut v, (len - n) as u128);
                v.append(" bytes]");
            }
            v
        },
        None => format_binary_preview(payload),
    }
}


/// `payload` shortened for display: when longer than `max_len` bytes, cut
/// at its last character boundary within `max_len` bytes and followed by
/// `...`; else as it is.
pub fn short_payload(payload: &str, max_len: usize) -> (res: String)
    ensures
        payload.spec_bytes().len() <= max_len ==> res@ == payload@,
        payload.spec_bytes().len() > max_len ==> exists|end: nat|
            #[trigger] cut_at(payload@, max_len as nat, end) && res@ == byte_prefix(payload@, end) + "..."@,
{
    if payload.as_bytes().len() <= max_len {
        return payload.to_owned();
    }
    let mut v = String::new();
    let end = push_truncated(&mut v, payload, max_len);
    v.append("...");
    proof {
        assert(cut_at(payload@, max_len as nat, end as nat));
    }
    v
}


/// Preview lengths of an imported file: collapsed and expanded.
pub const IMPORT_PREVIEW_COLLAPSED: usize = 256;

/// Preview length of an imported file when expanded.
pub const IMPORT_PREVIEW_EXPANDED: usize = 4096;

/// Hex digits of the bytes, each byte as two digits followed by a space.
pub open spec fn hex_spaced(bs: Seq<u8>) -> Seq<char>
    decreases bs.len(),
{
    if bs.len() == 0 {
        Seq::empty()
    } else {
        hex_spaced(bs.drop_last()) + hex_byte(bs.last()) + seq![' ']
    }
}

/// Preview of an imported file's bytes, over its first `n` bytes (`n` is at
/// most 256 collapsed, 4096 expanded): the text, cut at a character
/// boundary within `n` bytes and followed by the number of bytes left out,
/// when the whole file is UTF-8; else the hex of the first `n` bytes, with
/// what is left out and the total when the file is longer.
pub open spec fn spec_import_preview(bytes: Seq<u8>, n: nat) -> Seq<char> {
    if valid_utf8(bytes) {
        let text = decode_utf8(bytes);
        if bytes.len() > n {
            let end = choose|end: nat| is_safe_truncation(bytes, n, end);
            byte_prefix(text, end) + "... [+"@ + dec_digits((bytes.len() - end) as nat) + " bytes]"@
        } else {
            text
        }
    } else if bytes.len() > n {
        hex_joined(bytes.subrange(0, n as int)) + "... [+"@ + dec_digits((bytes.len() - n) as nat)
            + " bytes, "@ + dec_digits(bytes.len()) + " total]"@
    } else {
        hex_spaced(bytes)
    }
}

/// Appends the hex of the first `n` bytes, each followed by a space.
fn push_hex_spaced(out: &mut String, bytes: &[u8], n: usize)
    requires
        n <= bytes@.len(),
    ensures
        final(out)@ == old(out)@ + hex_spaced(bytes@.subrange(0, n as int)),
{
    let ghost head = out@;
    let mut i: usize = 0;
    proof {
        assert(bytes@.subrange(0, 0) =~= Seq::<u8>::empty());
        reveal_strlit(" ");
    }
    while i < n
        invariant
            i <= n <= bytes@.len(),
            out@ == head + hex_spaced(bytes@.subrange(0, i as int)),
            " "@ == seq![' '],
        decreases n - i,
    {
        let b = bytes[i];
        proof {
            assert(bytes@.subrange(0, i + 1).drop_last() =~= bytes@.subrange(0, i as int));
            assert(bytes@.subrange(0, i + 1).last() == b);
        }
        out.append(hex_digit_str(b / 16));
        out.append(hex_digit_str(b % 16));
        out.append(" ");
        proof {
            assert(out@ =~= head + hex_spaced(bytes@.subrange(0, i + 1)));
        }
        i = i + 1;
    }
}

/// Preview of an imported file's bytes, collapsed (first 256 bytes) or
/// expanded (first 4096 bytes); see `spec_import_preview`.
pub fn import_preview(bytes: &[u8], expanded: bool) -> (res: String)
    ensures
        res@ == spec_import_preview(
            bytes@,
            if expanded {
                if bytes@.len() < IMPORT_PREVIEW_EXPANDED {
                    bytes@.len()
                } else {
                    IMPORT_PREVIEW_EXPANDED as nat
                }
            } else {
                if bytes@.len() < IMPORT_PREVIEW_COLLAPSED {
                    bytes@.len()
                } else {
                    IMPORT_PREVIEW_COLLAPSED as nat
                }
            },
        ),
{
    let total = bytes.len();
    let limit = if expanded {
        IMPORT_PREVIEW_EXPANDED
    } else {
        IMPORT_PREVIEW_COLLAPSED
    };
    let n = if total < limit {
        total
    } else {
        limit
    };
    match utf8_text(bytes) {
        Some(text) => {
            proof {
                encode_utf8_decode_utf8(text@);
            }
            if total > n {
                let mut v = String::new();
                let end = push_truncated(&mut v, text, n);
                v.append("... [+");
                push_decimal(&mut v, (total - end) as u128);
                v.append(" bytes]");
                proof {
                    assert(is_safe_truncation(bytes@, n as nat, end as nat));
                    let e = choose|e: nat| is_safe_truncation(bytes@, n as nat, e);
                    lemma_safe_truncation_unique(bytes@, n as nat, e, end as nat);
                }
                v
            } else {
                text.to_owned()
            }
        },
        None => {
            if total > n {
                let mut t = String::new();
                let prefix = &bytes[0..n];
                proof {
                    assert(prefix@ =~= bytes@.subrange(0, n as int));
                }
                let joined = format_hex_joined(prefix);
                t.append(joined.as_str());
                t.append("... [+");
                push_decimal(&mut t, (total - n) as u128);
                t.append(" bytes, ");
                push_decimal(&mut t, total as u128);
                t.append(" total]");
                t
            } else {
                let mut v = String::new();
                push_hex_spaced(&mut v, bytes, n);
                proof {
                    assert(bytes@.subrange(0, n as int) =~= bytes@);
                }
                v
            }
        },
    }
}

/// Hex digits of the bytes joined by spaces.
fn format_hex_joined(bytes: &[u8]) -> (res: String)
    ensures
        res@ == hex_joined(bytes@),
{
    let mut v = String::new();
    let n = bytes.len();
    let mut i: usize = 0;
    proof {
        reveal_strlit(" ");
        assert(bytes@.take(0) =~= Seq::<u8>::empty());
    }
    while i < n
        invariant
            n == bytes@.len(),
            i <= n,
            v@ == hex_joined(bytes@.take(i as int)),
            " "@ == seq![' '],
        decreases n - i,
    {
        let b = bytes[i];
        proof {
            assert(bytes@.take(i + 1).drop_last() =~= bytes@.take(i as int));
            assert(bytes@.take(i + 1).last() == b);
            if i == 0 {
                assert(bytes@.take(1) =~= seq![b]);
            }
        }
        if i > 0 {
            v.append(" ");
        }
        v.append(hex_digit_str(b / 16));
        v.append(hex_digit_str(b % 16));
        proof {
            assert(v@ =~= hex_joined(bytes@.take(i + 1)));
        }
        i = i + 1;
    }
    proof {
        assert(bytes@.take(n as int) =~= bytes@);
    }
    v
}

} // verus!
