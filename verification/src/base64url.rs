//! Unpadded base64url (RFC 4648 §5) over bytes, as cursors use it.

use vstd::prelude::*;
use crate::text::push_char;
use vstd::string::*;

verus! {

/// The base64url digit of a 6-bit value.
pub open spec fn b64_digit(v: int) -> u8 {
    if v < 26 {
        (65 + v) as u8
    } else if v < 52 {
        (97 + v - 26) as u8
    } else if v < 62 {
        (48 + v - 52) as u8
    } else if v == 62 {
        45u8
    } else {
        95u8
    }
}

/// The 6-bit value of a base64url digit.
pub open spec fn b64_value(c: u8) -> Option<int> {
    if 65 <= c <= 90 {
        Some(c - 65)
    } else if 97 <= c <= 122 {
        Some(c - 97 + 26)
    } else if 48 <= c <= 57 {
        Some(c - 48 + 52)
    } else if c == 45 {
        Some(62)
    } else if c == 95 {
        Some(63)
    } else {
        None
    }
}

/// Encoding: each group of three bytes becomes four digits; a final group
/// of one or two bytes becomes two or three digits, without padding.
pub open spec fn b64_encode(b: Seq<u8>) -> Seq<u8>
    decreases b.len(),
{
    if b.len() >= 3 {
        let n = b[0] * 65536 + b[1] * 256 + b[2];
        seq![b64_digit(n / 262144), b64_digit((n / 4096) % 64), b64_digit((n / 64) % 64), b64_digit(n % 64)]
            + b64_encode(b.skip(3))
    } else if b.len() == 2 {
        let n = b[0] * 65536 + b[1] * 256;
        seq![b64_digit(n / 262144), b64_digit((n / 4096) % 64), b64_digit((n / 64) % 64)]
    } else if b.len() == 1 {
        let n = b[0] * 65536;
        seq![b64_digit(n / 262144), b64_digit((n / 4096) % 64)]
    } else {
        seq![]
    }
}

/// Decoding of the complete groups of four digits at the front of `s`; the
/// remainder (fewer than four digits) is decoded by `b64_decode_tail`.
pub open spec fn b64_decode(s: Seq<u8>) -> Result<Seq<u8>, Seq<char>>
    decreases s.len(),
{
    if s.len() >= 4 {
        match (b64_value(s[0]), b64_value(s[1]), b64_value(s[2]), b64_value(s[3])) {
            (Some(a), Some(b), Some(c), Some(d)) => {
                let n = a * 262144 + b * 4096 + c * 64 + d;
                match b64_decode(s.skip(4)) {
                    Ok(rest) => Ok(seq![(n / 65536) as u8, ((n / 256) % 256) as u8, (n % 256) as u8] + rest),
                    Err(m) => Err(m),
                }
            },
            _ => Err("非法 base64url 字符"@),
        }
    } else {
        b64_decode_tail(s)
    }
}

/// Decoding of a final group of fewer than four digits.
pub open spec fn b64_decode_tail(s: Seq<u8>) -> Result<Seq<u8>, Seq<char>> {
    if s.len() == 0 {
        Ok(seq![])
    } else if s.len() == 2 {
        match (b64_value(s[0]), b64_value(s[1])) {
            (Some(a), Some(b)) => {
                let n = a * 262144 + b * 4096;
                Ok(seq![(n / 65536) as u8])
            },
            _ => Err("非法字符"@),
        }
    } else if s.len() == 3 {
        match (b64_value(s[0]), b64_value(s[1]), b64_value(s[2])) {
            (Some(a), Some(b), Some(c)) => {
                let n = a * 262144 + b * 4096 + c * 64;
                Ok(seq![(n / 65536) as u8, ((n / 256) % 256) as u8])
            },
            _ => Err("非法字符"@),
        }
    } else {
        Err("base64url 长度非法"@)
    }
}

/// The text whose characters are the given ASCII bytes.
pub open spec fn ascii_chars(b: Seq<u8>) -> Seq<char> {
    b.map_values(|x: u8| x as char)
}

fn digit_of(v: u32) -> (c: u8)
    requires
        v < 64,
    ensures
        c == b64_digit(v as int),
{
    if v < 26 {
        (65 + v) as u8
    } else if v < 52 {
        (97 + v - 26) as u8
    } else if v < 62 {
        (48 + v - 52) as u8
    } else if v == 62 {
        45u8
    } else {
        95u8
    }
}

fn value_of(c: u8) -> (r: Option<u32>)
    ensures
        r matches Some(v) ==> b64_value(c) == Some(v as int) && v < 64,
        r is None <==> b64_value(c) is None,
{
    if 65 <= c && c <= 90 {
        Some((c - 65) as u32)
    } else if 97 <= c && c <= 122 {
        Some((c - 97 + 26) as u32)
    } else if 48 <= c && c <= 57 {
        Some((c - 48 + 52) as u32)
    } else if c == 45 {
        Some(62)
    } else if c == 95 {
        Some(63)
    } else {
        None
    }
}

fn push_digit(out: &mut String, v: u32, Ghost(acc): Ghost<Seq<u8>>) -> (r: Ghost<Seq<u8>>)
    requires
        v < 64,
        old(out)@ == ascii_chars(acc),
    ensures
        r@ == acc.push(b64_digit(v as int)),
        final(out)@ == ascii_chars(r@),
{
    let d = digit_of(v);
    push_char(out, d as char);
    let ghost next = acc.push(d);
    proof {
        assert(out@ =~= ascii_chars(next));
    }
    Ghost(next)
}

/// The digits of one group of three bytes.
pub open spec fn full_group_digits(b0: u8, b1: u8, b2: u8) -> Seq<u8> {
    let n = b0 * 65536 + b1 * 256 + b2;
    seq![b64_digit(n / 262144), b64_digit((n / 4096) % 64), b64_digit((n / 64) % 64), b64_digit(n % 64)]
}

fn push_full_group(out: &mut String, b0: u8, b1: u8, b2: u8, Ghost(acc): Ghost<Seq<u8>>) -> (r: Ghost<Seq<u8>>)
    requires
        old(out)@ == ascii_chars(acc),
    ensures
        r@ == acc + full_group_digits(b0, b1, b2),
        final(out)@ == ascii_chars(r@),
{
    let n: u32 = (b0 as u32) * 65536 + (b1 as u32) * 256 + (b2 as u32);
    let Ghost(a1) = push_digit(out, n / 262144, Ghost(acc));
    let Ghost(a2) = push_digit(out, (n / 4096) % 64, Ghost(a1));
    let Ghost(a3) = push_digit(out, (n / 64) % 64, Ghost(a2));
    let Ghost(a4) = push_digit(out, n % 64, Ghost(a3));
    proof {
        assert(a4 =~= acc + full_group_digits(b0, b1, b2));
    }
    Ghost(a4)
}

proof fn lemma_encode_step(s: Seq<u8>)
    requires
        s.len() >= 3,
    ensures
        b64_encode(s) == full_group_digits(s[0], s[1], s[2]) + b64_encode(s.skip(3)),
{
}

/// Encodes bytes as unpadded base64url text.
pub fn b64url_encode(bytes: &[u8]) -> (r: String)
    ensures
        r@ == ascii_chars(b64_encode(bytes@)),
{
    let mut out = String::new();
    let ghost mut acc: Seq<u8> = Seq::empty();
    let len = bytes.len();
    let mut i: usize = 0;
    proof {
        assert(out@ =~= ascii_chars(acc));
        assert(bytes@.skip(0) =~= bytes@);
    }
    while len - i >= 3
        invariant
            len == bytes@.len(),
            i <= len,
            out@ == ascii_chars(acc),
            acc + b64_encode(bytes@.skip(i as int)) == b64_encode(bytes@),
        decreases len - i,
    {
        let ghost s = bytes@.skip(i as int);
        proof {
            lemma_encode_step(s);
            assert(s[0] == bytes@[i as int] && s[1] == bytes@[i + 1] && s[2] == bytes@[i + 2]);
            assert(s.skip(3) =~= bytes@.skip(i + 3));
        }
        let Ghost(a4) = push_full_group(&mut out, bytes[i], bytes[i + 1], bytes[i + 2], Ghost(acc));
        proof {
            assert(a4 + b64_encode(bytes@.skip(i + 3)) =~= acc + b64_encode(s));
            acc = a4;
        }
        i = i + 3;
    }
    let ghost s = bytes@.skip(i as int);
    if len - i == 1 {
        let n: u32 = (bytes[i] as u32) * 65536;
        proof {
            assert(s[0] == bytes@[i as int]);
        }
        let Ghost(a1) = push_digit(&mut out, n / 262144, Ghost(acc));
        let Ghost(a2) = push_digit(&mut out, (n / 4096) % 64, Ghost(a1));
        proof {
            assert(a2 =~= acc + b64_encode(s));
        }
    } else if len - i == 2 {
        let n: u32 = (bytes[i] as u32) * 65536 + (bytes[i + 1] as u32) * 256;
        proof {
            assert(s[0] == bytes@[i as int] && s[1] == bytes@[i + 1]);
        }
        let Ghost(a1) = push_digit(&mut out, n / 262144, Ghost(acc));
        let Ghost(a2) = push_digit(&mut out, (n / 4096) % 64, Ghost(a1));
        let Ghost(a3) = push_digit(&mut out, (n / 64) % 64, Ghost(a2));
        proof {
            assert(a3 =~= acc + b64_encode(s));
        }
    } else {
        proof {
            assert(acc + b64_encode(s) =~= acc);
        }
    }
    out
}

/// Decodes unpadded base64url; the error names what is wrong.
pub fn b64url_decode(s: &str) -> (r: Result<Vec<u8>, String>)
    ensures
        match r {
            Ok(v) => b64_decode(s.spec_bytes()) == Ok::<Seq<u8>, Seq<char>>(v@),
            Err(m) => b64_decode(s.spec_bytes()) == Err::<Seq<u8>, Seq<char>>(m@),
        },
{
    let bytes = s.as_bytes();
    let len = bytes.len();
    let mut out: Vec<u8> = Vec::new();
    let mut i: usize = 0;
    proof {
        assert(bytes@.skip(0) =~= bytes@);
    }
    while len - i >= 4
        invariant
            len == bytes@.len(),
            bytes@ == s.spec_bytes(),
            i <= len,
            match b64_decode(bytes@.skip(i as int)) {
                Ok(rest) => b64_decode(bytes@) == Ok::<Seq<u8>, Seq<char>>(out@ + rest),
                Err(m) => b64_decode(bytes@) == Err::<Seq<u8>, Seq<char>>(m),
            },
        decreases len - i,
    {
        let ghost t = bytes@.skip(i as int);
        proof {
            assert(t[0] == bytes@[i as int] && t[1] == bytes@[i + 1] && t[2] == bytes@[i + 2] && t[3] == bytes@[i + 3]);
            assert(t.skip(4) =~= bytes@.skip(i + 4));
        }
        let a = value_of(bytes[i]);
        let b = value_of(bytes[i + 1]);
        let c = value_of(bytes[i + 2]);
        let d = value_of(bytes[i + 3]);
        match (a, b, c, d) {
            (Some(a), Some(b), Some(c), Some(d)) => {
                let n: u32 = a * 262144 + b * 4096 + c * 64 + d;
                let ghost before = out@;
                out.push((n / 65536) as u8);
                out.push(((n / 256) % 256) as u8);
                out.push((n % 256) as u8);
                proof {
                    assert(out@ =~= before + seq![(n / 65536) as u8, ((n / 256) % 256) as u8, (n % 256) as u8]);
                    match b64_decode(bytes@.skip(i + 4)) {
                        Ok(rest) => {
                            assert(out@ + rest =~= before + (seq![(n / 65536) as u8, ((n / 256) % 256) as u8, (n % 256) as u8] + rest));
                        },
                        Err(m) => {},
                    }
                }
            },
            _ => {
                return Err("非法 base64url 字符".to_owned());
            },
        }
        i = i + 4;
    }
    let ghost t = bytes@.skip(i as int);
    let rem = len - i;
    if rem == 0 {
        proof {
            assert(out@ + Seq::<u8>::empty() =~= out@);
        }
        Ok(out)
    } else if rem == 2 {
        proof {
            assert(t[0] == bytes@[i as int] && t[1] == bytes@[i + 1]);
        }
        match (value_of(bytes[i]), value_of(bytes[i + 1])) {
            (Some(a), Some(b)) => {
                let n: u32 = a * 262144 + b * 4096;
                let ghost before = out@;
                out.push((n / 65536) as u8);
                proof {
                    assert(out@ =~= before + seq![(n / 65536) as u8]);
                }
                Ok(out)
            },
            _ => Err("非法字符".to_owned()),
        }
    } else if rem == 3 {
        proof {
            assert(t[0] == bytes@[i as int] && t[1] == bytes@[i + 1] && t[2] == bytes@[i + 2]);
        }
        match (value_of(bytes[i]), value_of(bytes[i + 1]), value_of(bytes[i + 2])) {
            (Some(a), Some(b), Some(c)) => {
                let n: u32 = a * 262144 + b * 4096 + c * 64;
                let ghost before = out@;
                out.push((n / 65536) as u8);
                out.push(((n / 256) % 256) as u8);
                proof {
                    assert(out@ =~= before + seq![(n / 65536) as u8, ((n / 256) % 256) as u8]);
                }
                Ok(out)
            },
            _ => Err("非法字符".to_owned()),
        }
    } else {
        Err("base64url 长度非法".to_owned())
    }
}

// ------------------------------------------------------------------ round trip

proof fn lemma_digit_value(v: int)
    requires
        0 <= v < 64,
    ensures
        b64_value(b64_digit(v)) == Some(v),
{
}

proof fn lemma_group_round_trip(b0: u8, b1: u8, b2: u8)
    ensures
        ({
            let n = b0 * 65536 + b1 * 256 + b2;
            let m = (n / 262144) * 262144 + ((n / 4096) % 64) * 4096 + ((n / 64) % 64) * 64 + n % 64;
            &&& m == n
            &&& (m / 65536) as u8 == b0
            &&& ((m / 256) % 256) as u8 == b1
            &&& (m % 256) as u8 == b2
        }),
{
    let n: int = b0 * 65536 + b1 * 256 + b2;
    assert(0 <= n < 16777216);
    assert((n / 262144) * 262144 + ((n / 4096) % 64) * 4096 + ((n / 64) % 64) * 64 + n % 64 == n) by (nonlinear_arith)
        requires
            0 <= n < 16777216,
    ;
    assert(n / 65536 == b0 as int) by (nonlinear_arith)
        requires
            n == b0 * 65536 + b1 * 256 + b2,
            0 <= b0 < 256,
            0 <= b1 < 256,
            0 <= b2 < 256,
    ;
    assert((n / 256) % 256 == b1 as int) by (nonlinear_arith)
        requires
            n == b0 * 65536 + b1 * 256 + b2,
            0 <= b0 < 256,
            0 <= b1 < 256,
            0 <= b2 < 256,
    ;
    assert(n % 256 == b2 as int) by (nonlinear_arith)
        requires
            n == b0 * 65536 + b1 * 256 + b2,
            0 <= b0 < 256,
            0 <= b1 < 256,
            0 <= b2 < 256,
    ;
}

proof fn lemma_digits_in_range(n: int)
    requires
        0 <= n < 16777216,
    ensures
        0 <= n / 262144 < 64,
        0 <= (n / 4096) % 64 < 64,
        0 <= (n / 64) % 64 < 64,
        0 <= n % 64 < 64,
{
}

proof fn lemma_group_decodes(b0: u8, b1: u8, b2: u8)
    ensures
        ({
            let g = full_group_digits(b0, b1, b2);
            let n = b0 * 65536 + b1 * 256 + b2;
            &&& b64_value(g[0]) == Some(n / 262144)
            &&& b64_value(g[1]) == Some((n / 4096) % 64)
            &&& b64_value(g[2]) == Some((n / 64) % 64)
            &&& b64_value(g[3]) == Some(n % 64)
        }),
{
    let n: int = b0 * 65536 + b1 * 256 + b2;
    lemma_digits_in_range(n);
    lemma_digit_value(n / 262144);
    lemma_digit_value((n / 4096) % 64);
    lemma_digit_value((n / 64) % 64);
    lemma_digit_value(n % 64);
}

proof fn lemma_decode_step(b: Seq<u8>)
    requires
        b.len() >= 3,
        b64_decode(b64_encode(b.skip(3))) == Ok::<Seq<u8>, Seq<char>>(b.skip(3)),
    ensures
        b64_decode(b64_encode(b)) == Ok::<Seq<u8>, Seq<char>>(b),
{
    let e = b64_encode(b);
    let g = full_group_digits(b[0], b[1], b[2]);
    lemma_encode_step(b);
    lemma_group_decodes(b[0], b[1], b[2]);
    lemma_group_round_trip(b[0], b[1], b[2]);
    assert(e[0] == g[0] && e[1] == g[1] && e[2] == g[2] && e[3] == g[3]);
    assert(e.skip(4) =~= b64_encode(b.skip(3)));
    assert(seq![b[0], b[1], b[2]] + b.skip(3) =~= b);
}

proof fn lemma_decode_two(b: Seq<u8>)
    requires
        b.len() == 2,
    ensures
        b64_decode(b64_encode(b)) == Ok::<Seq<u8>, Seq<char>>(b),
{
    let n: int = b[0] * 65536 + b[1] * 256;
    lemma_group_decodes(b[0], b[1], 0);
    lemma_group_round_trip(b[0], b[1], 0);
    let m = (n / 262144) * 262144 + ((n / 4096) % 64) * 4096 + ((n / 64) % 64) * 64;
    assert(n % 64 == 0);
    assert(seq![(m / 65536) as u8, ((m / 256) % 256) as u8] =~= b);
}

proof fn lemma_decode_one(b: Seq<u8>)
    requires
        b.len() == 1,
    ensures
        b64_decode(b64_encode(b)) == Ok::<Seq<u8>, Seq<char>>(b),
{
    let n: int = b[0] * 65536;
    lemma_group_decodes(b[0], 0, 0);
    lemma_group_round_trip(b[0], 0, 0);
    assert((n / 64) % 64 == 0 && n % 64 == 0);
    let m = (n / 262144) * 262144 + ((n / 4096) % 64) * 4096;
    assert(seq![(m / 65536) as u8] =~= b);
}

/// Decoding what encoding produced gives the bytes back.
pub proof fn lemma_b64_round_trip(b: Seq<u8>)
    ensures
        b64_decode(b64_encode(b)) == Ok::<Seq<u8>, Seq<char>>(b),
    decreases b.len(),
{
    if b.len() >= 3 {
        lemma_b64_round_trip(b.skip(3));
        lemma_decode_step(b);
    } else if b.len() == 2 {
        lemma_decode_two(b);
    } else if b.len() == 1 {
        lemma_decode_one(b);
    } else {
        assert(b =~= Seq::<u8>::empty());
    }
}

} // verus!
