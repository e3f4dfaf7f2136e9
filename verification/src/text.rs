//! Text building blocks: decimal rendering and parsing of numbers, and
//! what the UTF-8 encoding of decimal text is.

use vstd::prelude::*;
use vstd::string::StringExecFns;
use vstd::utf8::*;

verus! {

/// The character of a decimal digit `d < 10`.
pub open spec fn digit_char(d: nat) -> char {
    ((d + 48) as u32) as char
}

/// Decimal rendering of a natural number, most significant digit first,
/// without sign or leading zeros (`0` renders as `"0"`).
pub open spec fn dec_digits(n: nat) -> Seq<char>
    decreases n,
{
    if n < 10 {
        seq![digit_char(n)]
    } else {
        dec_digits(n / 10).push(digit_char(n % 10))
    }
}

/// An ASCII decimal digit byte.
pub open spec fn is_digit_byte(b: u8) -> bool {
    48 <= b <= 57
}

/// Value of a string of decimal digit bytes (most significant first).
pub open spec fn digits_value(s: Seq<u8>) -> nat
    decreases s.len(),
{
    if s.len() == 0 {
        0
    } else {
        digits_value(s.drop_last()) * 10 + (s.last() - 48) as nat
    }
}

/// The digits that an unsigned decimal parse looks at: an optional single
/// leading `+` is skipped.
pub open spec fn unsigned_digits(s: Seq<u8>) -> Seq<u8> {
    if s.len() > 0 && s[0] == 43u8 {
        s.drop_first()
    } else {
        s
    }
}

/// Unsigned decimal parse bounded by `max`, as `u16`/`usize` `FromStr` do:
/// an optional `+`, then one or more ASCII digits, value at most `max`.
pub open spec fn spec_parse_bounded(s: Seq<u8>, max: nat) -> Option<nat> {
    let d = unsigned_digits(s);
    if d.len() > 0 && (forall|i: int| 0 <= i < d.len() ==> is_digit_byte(#[trigger] d[i]))
        && digits_value(d) <= max {
        Some(digits_value(d))
    } else {
        None
    }
}

/// The one-character text of a decimal digit `d < 10`.
fn digit_str(d: u8) -> (res: &'static str)
    requires
        d < 10,
    ensures
        res@ == seq![digit_char(d as nat)],
{
    proof {
        reveal_strlit("0");
        reveal_strlit("1");
        reveal_strlit("2");
        reveal_strlit("3");
        reveal_strlit("4");
        reveal_strlit("5");
        reveal_strlit("6");
        reveal_strlit("7");
        reveal_strlit("8");
        reveal_strlit("9");
    }
    match d {
        0 => "0",
        1 => "1",
        2 => "2",
        3 => "3",
        4 => "4",
        5 => "5",
        6 => "6",
        7 => "7",
        8 => "8",
        _ => "9",
    }
}

/// Appends the decimal rendering of `n` to `out`.
pub fn push_decimal(out: &mut String, n: u128)
    ensures
        final(out)@ == old(out)@ + dec_digits(n as nat),
    decreases n,
{
    if n >= 10 {
        push_decimal(out, n / 10);
    }
    let d: u8 = (n % 10) as u8;
    out.append(digit_str(d));
    proof {
        if n < 10 {
            assert(dec_digits(n as nat) == seq![digit_char(n as nat)]);
        }
    }
}

/// Parses the bytes as an unsigned decimal number no greater than `max`.
pub fn parse_bounded(s: &[u8], max: u64) -> (res: Option<u64>)
    ensures
        match spec_parse_bounded(s@, max as nat) {
            Some(v) => res == Some(v as u64),
            None => res is None,
        },
{
    let ghost d = unsigned_digits(s@);
    let mut start: usize = 0;
    if s.len() > 0 && s[0] == 43u8 {
        start = 1;
    }
    if start >= s.len() {
        return None;
    }
    proof {
        assert(d =~= s@.subrange(start as int, s@.len() as int));
    }
    let mut acc: u64 = 0;
    let mut over: bool = false;
    let mut i: usize = start;
    while i < s.len()
        invariant
            start <= i <= s.len(),
            d =~= s@.subrange(start as int, s@.len() as int),
            d == unsigned_digits(s@),
            forall|j: int| start <= j < i ==> is_digit_byte(#[trigger] s@[j]),
            !over ==> acc as nat == digits_value(s@.subrange(start as int, i as int)),
            !over ==> acc <= max,
            over ==> digits_value(s@.subrange(start as int, i as int)) > max,
        decreases s.len() - i,
    {
        let b = s[i];
        if b < 48u8 || b > 57u8 {
            proof {
                let k = i - start;
                assert(d[k as int] == b);
                assert(!is_digit_byte(d[k as int]));
                assert(!(forall|j: int| 0 <= j < d.len() ==> is_digit_byte(#[trigger] d[j])));
                assert(unsigned_digits(s@) == d);
                assert(d.len() > 0);
                assert(spec_parse_bounded(s@, max as nat) is None);
            }
            return None;
        }
        let ghost pre = s@.subrange(start as int, i as int);
        let ghost next = s@.subrange(start as int, i + 1);
        proof {
            assert(next.drop_last() =~= pre);
            assert(next.last() == b);
            assert(digits_value(next) == digits_value(pre) * 10 + (b - 48) as nat);
        }
        if !over {
            let dv: u64 = (b - 48u8) as u64;
            if dv > max || acc > (max - dv) / 10 {
                over = true;
                proof {
                    if dv <= max {
                        assert(acc * 10 + dv > max) by (nonlinear_arith)
                            requires acc > (max - dv) / 10, dv <= max;
                    }
                }
            } else {
                proof {
                    assert(acc * 10 + dv <= max) by (nonlinear_arith)
                        requires acc <= (max - dv) / 10, dv <= max;
                }
                acc = acc * 10 + dv;
            }
        }
        i = i + 1;
    }
    proof {
        assert(s@.subrange(start as int, s@.len() as int) =~= d);
        assert forall|j: int| 0 <= j < d.len() implies is_digit_byte(#[trigger] d[j]) by {
            assert(d[j] == s@[start + j]);
        }
    }
    if over {
        None
    } else {
        Some(acc)
    }
}

/// The byte of a decimal digit `d < 10`.
pub open spec fn digit_byte(d: nat) -> u8 {
    (d + 48) as u8
}

/// Decimal rendering of a natural number as ASCII bytes.
pub open spec fn dec_bytes(n: nat) -> Seq<u8>
    decreases n,
{
    if n < 10 {
        seq![digit_byte(n)]
    } else {
        dec_bytes(n / 10).push(digit_byte(n % 10))
    }
}

/// UTF-8 encoding distributes over concatenation.
pub proof fn lemma_encode_utf8_concat(a: Seq<char>, b: Seq<char>)
    ensures
        encode_utf8(a + b) == encode_utf8(a) + encode_utf8(b),
    decreases a.len(),
{
    if a.len() == 0 {
        assert(a + b =~= b);
        assert(encode_utf8(a) =~= Seq::<u8>::empty());
        assert(encode_utf8(a) + encode_utf8(b) =~= encode_utf8(b));
    } else {
        assert((a + b).drop_first() =~= a.drop_first() + b);
        assert((a + b)[0] == a[0]);
        lemma_encode_utf8_concat(a.drop_first(), b);
        assert(encode_utf8(a + b) =~= encode_scalar(a[0] as u32) + encode_utf8(a.drop_first()) + encode_utf8(b));
    }
}

/// An ASCII character encodes as the single byte of its code.
pub proof fn lemma_encode_ascii_char(c: char)
    requires
        (c as u32) < 128,
    ensures
        encode_utf8(seq![c]) == seq![(c as u32) as u8],
{
    let v = c as u32;
    assert((v & 0x7F) as u8 == v as u8) by (bit_vector)
        requires
            v < 128,
    ;
    assert(seq![c].drop_first() =~= Seq::<char>::empty());
    assert(encode_utf8(seq![c]) =~= encode_scalar(v) + encode_utf8(Seq::<char>::empty()));
    assert(encode_utf8(seq![c]) =~= seq![(c as u32) as u8]);
}

/// The characters of a decimal rendering encode as its digit bytes.
pub proof fn lemma_encode_dec_digits(n: nat)
    ensures
        encode_utf8(dec_digits(n)) == dec_bytes(n),
    decreases n,
{
    if n < 10 {
        lemma_encode_ascii_char(digit_char(n));
    } else {
        lemma_encode_dec_digits(n / 10);
        lemma_encode_ascii_char(digit_char(n % 10));
        lemma_encode_utf8_concat(dec_digits(n / 10), seq![digit_char(n % 10)]);
        assert(dec_digits(n / 10).push(digit_char(n % 10)) =~= dec_digits(n / 10) + seq![digit_char(n % 10)]);
        assert(dec_bytes(n / 10).push(digit_byte(n % 10)) =~= dec_bytes(n / 10) + seq![digit_byte(n % 10)]);
    }
}

/// A decimal rendering is a non-empty string of digit bytes whose value is
/// the number.
pub proof fn lemma_dec_bytes(n: nat)
    ensures
        dec_bytes(n).len() > 0,
        forall|i: int| 0 <= i < dec_bytes(n).len() ==> is_digit_byte(#[trigger] dec_bytes(n)[i]),
        digits_value(dec_bytes(n)) == n,
    decreases n,
{
    if n < 10 {
        assert(dec_bytes(n).drop_last() =~= Seq::<u8>::empty());
        assert(digits_value(Seq::<u8>::empty()) == 0);
        assert(digit_byte(n) as int == n + 48);
        assert(digits_value(dec_bytes(n)) == digits_value(dec_bytes(n).drop_last()) * 10 + (dec_bytes(n).last() - 48) as nat);
    } else {
        lemma_dec_bytes(n / 10);
        let d = dec_bytes(n);
        assert(d.drop_last() =~= dec_bytes(n / 10));
        assert(d.last() == digit_byte(n % 10));
        assert((n / 10) * 10 + n % 10 == n) by (nonlinear_arith);
        assert(digit_byte(n % 10) as int == n % 10 + 48);
        assert(digits_value(d) == digits_value(d.drop_last()) * 10 + (d.last() - 48) as nat);
        assert forall|i: int| 0 <= i < d.len() implies is_digit_byte(#[trigger] d[i]) by {
            if i < d.len() - 1 {
                assert(d[i] == dec_bytes(n / 10)[i]);
            }
        }
    }
}

/// Parsing a decimal rendering gives the number back.
pub proof fn lemma_parse_dec_bytes(n: nat, max: nat)
    requires
        n <= max,
    ensures
        spec_parse_bounded(dec_bytes(n), max) == Some(n),
{
    lemma_dec_bytes(n);
    let d = dec_bytes(n);
    assert(is_digit_byte(d[0]));
    assert(unsigned_digits(d) == d);
}

} // verus!
