//! Compact JSON text: string literals as serde_json writes them, arrays,
//! and the writers that the canonical forms are built from.

use vstd::prelude::*;
use crate::text::{dec_text, fmt_i64, fmt_u64};

verus! {

/// Lower-case hexadecimal digit of a value below 16.
pub open spec fn hex_digit(v: int) -> char {
    if v < 10 {
        (48 + v) as char
    } else {
        (97 + v - 10) as char
    }
}

/// How one character appears inside a JSON string literal: quote, backslash
/// and control characters are escaped, everything else stands as it is.
pub open spec fn json_escape(c: char) -> Seq<char> {
    if c == '"' {
        seq!['\\', '"']
    } else if c == '\\' {
        seq!['\\', '\\']
    } else if c == '\u{8}' {
        seq!['\\', 'b']
    } else if c == '\t' {
        seq!['\\', 't']
    } else if c == '\n' {
        seq!['\\', 'n']
    } else if c == '\u{c}' {
        seq!['\\', 'f']
    } else if c == '\r' {
        seq!['\\', 'r']
    } else if (c as int) < 32 {
        seq!['\\', 'u', '0', '0', hex_digit((c as int) / 16), hex_digit((c as int) % 16)]
    } else {
        seq![c]
    }
}

/// The escaped characters of a string.
pub open spec fn json_escaped(s: Seq<char>) -> Seq<char>
    decreases s.len(),
{
    if s.len() == 0 {
        Seq::empty()
    } else {
        json_escaped(s.drop_last()) + json_escape(s.last())
    }
}

/// A JSON string literal.
pub open spec fn json_quote(s: Seq<char>) -> Seq<char> {
    seq!['"'] + json_escaped(s) + seq!['"']
}

/// `serde_json`'s compact writer (`Display` of `Value::String`): the JSON
/// string literal of `s`, with the escapes of its `ESCAPE` table.
#[verifier::external_body]
pub(crate) fn json_string(s: &str) -> (r: String)
    ensures
        r@ == json_quote(s@),
{
    serde_json::Value::String(s.to_owned()).to_string()
}

/// Items separated by commas.
pub open spec fn join(items: Seq<Seq<char>>) -> Seq<char>
    decreases items.len(),
{
    if items.len() == 0 {
        Seq::empty()
    } else if items.len() == 1 {
        items[0]
    } else {
        join(items.drop_last()) + ","@ + items.last()
    }
}

/// A JSON array of already written items.
pub open spec fn json_array(items: Seq<Seq<char>>) -> Seq<char> {
    "["@ + join(items) + "]"@
}

/// The views of a vector's strings.
pub open spec fn string_views(s: Seq<String>) -> Seq<Seq<char>> {
    s.map_values(|x: String| x@)
}

/// String literals of each text.
pub open spec fn quoted_all(s: Seq<Seq<char>>) -> Seq<Seq<char>> {
    s.map_values(|t: Seq<char>| json_quote(t))
}

/// A JSON array of strings.
pub open spec fn string_array_json(s: Seq<Seq<char>>) -> Seq<char> {
    json_array(quoted_all(s))
}

/// A JSON array of signed numbers.
pub open spec fn i32_array_json(s: Seq<i32>) -> Seq<char> {
    json_array(s.map_values(|d: i32| dec_text(d as int)))
}

/// A JSON array of unsigned numbers.
pub open spec fn u32_array_json(s: Seq<u32>) -> Seq<char> {
    json_array(s.map_values(|d: u32| dec_text(d as int)))
}

/// Appending an item to a comma-separated list.
pub proof fn lemma_join_push(items: Seq<Seq<char>>, x: Seq<char>)
    ensures
        join(items.push(x)) == (if items.len() == 0 {
            x
        } else {
            join(items) + ","@ + x
        }),
{
    assert(items.push(x).drop_last() =~= items);
}

/// Appends a JSON number.
pub fn write_int(out: &mut String, v: i64)
    ensures
        final(out)@ == old(out)@ + dec_text(v as int),
{
    let t = fmt_i64(v);
    out.append(t.as_str());
}

/// Appends a JSON string literal.
pub fn write_str(out: &mut String, s: &str)
    ensures
        final(out)@ == old(out)@ + json_quote(s@),
{
    let t = json_string(s);
    out.append(t.as_str());
}

/// Appends a JSON array of strings.
pub fn write_str_array(out: &mut String, v: &Vec<String>)
    ensures
        final(out)@ == old(out)@ + string_array_json(string_views(v@)),
{
    let ghost base = out@;
    out.append("[");
    let n = v.len();
    let mut i: usize = 0;
    proof {
        assert(quoted_all(string_views(v@.take(0))) =~= Seq::<Seq<char>>::empty());
        assert(out@ =~= base + "["@ + join(quoted_all(string_views(v@.take(0)))));
    }
    while i < n
        invariant
            n == v@.len(),
            i <= n,
            out@ == base + "["@ + join(quoted_all(string_views(v@.take(i as int)))),
        decreases n - i,
    {
        let ghost items = quoted_all(string_views(v@.take(i as int)));
        proof {
            assert(quoted_all(string_views(v@.take(i + 1))) =~= items.push(json_quote(v@[i as int]@)));
            lemma_join_push(items, json_quote(v@[i as int]@));
        }
        if i > 0 {
            out.append(",");
        }
        write_str(out, v[i].as_str());
        proof {
            if i > 0 {
                assert(out@ =~= base + "["@ + (join(items) + ","@ + json_quote(v@[i as int]@)));
            } else {
                assert(out@ =~= base + "["@ + json_quote(v@[i as int]@));
            }
        }
        i = i + 1;
    }
    proof {
        assert(v@.take(n as int) =~= v@);
    }
    out.append("]");
    proof {
        assert(out@ =~= base + string_array_json(string_views(v@)));
    }
}

/// Appends a JSON array of signed numbers.
pub fn write_i32_array(out: &mut String, v: &Vec<i32>)
    ensures
        final(out)@ == old(out)@ + i32_array_json(v@),
{
    let ghost base = out@;
    out.append("[");
    let n = v.len();
    let mut i: usize = 0;
    proof {
        assert(v@.take(0).map_values(|d: i32| dec_text(d as int)) =~= Seq::<Seq<char>>::empty());
        assert(out@ =~= base + "["@ + join(v@.take(0).map_values(|d: i32| dec_text(d as int))));
    }
    while i < n
        invariant
            n == v@.len(),
            i <= n,
            out@ == base + "["@ + join(v@.take(i as int).map_values(|d: i32| dec_text(d as int))),
        decreases n - i,
    {
        let ghost items = v@.take(i as int).map_values(|d: i32| dec_text(d as int));
        proof {
            assert(v@.take(i + 1).map_values(|d: i32| dec_text(d as int)) =~= items.push(
                dec_text(v@[i as int] as int),
            ));
            lemma_join_push(items, dec_text(v@[i as int] as int));
        }
        if i > 0 {
            out.append(",");
        }
        write_int(out, v[i] as i64);
        proof {
            if i > 0 {
                assert(out@ =~= base + "["@ + (join(items) + ","@ + dec_text(v@[i as int] as int)));
            } else {
                assert(out@ =~= base + "["@ + dec_text(v@[i as int] as int));
            }
        }
        i = i + 1;
    }
    proof {
        assert(v@.take(n as int) =~= v@);
    }
    out.append("]");
    proof {
        assert(out@ =~= base + i32_array_json(v@));
    }
}

/// Appends a JSON array of unsigned numbers.
pub fn write_u32_array(out: &mut String, v: &Vec<u32>)
    ensures
        final(out)@ == old(out)@ + u32_array_json(v@),
{
    let ghost base = out@;
    out.append("[");
    let n = v.len();
    let mut i: usize = 0;
    proof {
        assert(v@.take(0).map_values(|d: u32| dec_text(d as int)) =~= Seq::<Seq<char>>::empty());
        assert(out@ =~= base + "["@ + join(v@.take(0).map_values(|d: u32| dec_text(d as int))));
    }
    while i < n
        invariant
            n == v@.len(),
            i <= n,
            out@ == base + "["@ + join(v@.take(i as int).map_values(|d: u32| dec_text(d as int))),
        decreases n - i,
    {
        let ghost items = v@.take(i as int).map_values(|d: u32| dec_text(d as int));
        proof {
            assert(v@.take(i + 1).map_values(|d: u32| dec_text(d as int)) =~= items.push(
                dec_text(v@[i as int] as int),
            ));
            lemma_join_push(items, dec_text(v@[i as int] as int));
        }
        if i > 0 {
            out.append(",");
        }
        write_int(out, v[i] as i64);
        proof {
            if i > 0 {
                assert(out@ =~= base + "["@ + (join(items) + ","@ + dec_text(v@[i as int] as int)));
            } else {
                assert(out@ =~= base + "["@ + dec_text(v@[i as int] as int));
            }
        }
        i = i + 1;
    }
    proof {
        assert(v@.take(n as int) =~= v@);
    }
    out.append("]");
    proof {
        assert(out@ =~= base + u32_array_json(v@));
    }
}

/// A JSON array of 64-bit numbers.
pub open spec fn i64_array_json(s: Seq<i64>) -> Seq<char> {
    json_array(s.map_values(|d: i64| dec_text(d as int)))
}

/// An optional number: the number, or `null`.
pub open spec fn opt_int_json(o: Option<i64>) -> Seq<char> {
    match o {
        Some(e) => dec_text(e as int),
        None => "null"@,
    }
}

/// An optional string: its literal, or `null`.
pub open spec fn opt_str_json(o: Option<Seq<char>>) -> Seq<char> {
    match o {
        Some(t) => json_quote(t),
        None => "null"@,
    }
}

/// The view of an optional string.
pub open spec fn opt_text(o: Option<String>) -> Option<Seq<char>> {
    match o {
        Some(s) => Some(s@),
        None => None,
    }
}

/// Appends a JSON number from an unsigned value.
pub fn write_uint(out: &mut String, v: u64)
    ensures
        final(out)@ == old(out)@ + dec_text(v as int),
{
    let t = fmt_u64(v);
    out.append(t.as_str());
}

/// Appends an optional number.
pub fn write_opt_int(out: &mut String, o: Option<i64>)
    ensures
        final(out)@ == old(out)@ + opt_int_json(o),
{
    match o {
        Some(e) => write_int(out, e),
        None => out.append("null"),
    }
}

/// Appends an optional string.
pub fn write_opt_str(out: &mut String, o: &Option<String>)
    ensures
        final(out)@ == old(out)@ + opt_str_json(opt_text(*o)),
{
    match o {
        Some(t) => write_str(out, t.as_str()),
        None => out.append("null"),
    }
}

/// Appends a JSON array of 64-bit numbers.
pub fn write_i64_array(out: &mut String, v: &Vec<i64>)
    ensures
        final(out)@ == old(out)@ + i64_array_json(v@),
{
    let ghost base = out@;
    out.append("[");
    let n = v.len();
    let mut i: usize = 0;
    proof {
        assert(v@.take(0).map_values(|d: i64| dec_text(d as int)) =~= Seq::<Seq<char>>::empty());
        assert(out@ =~= base + "["@ + join(v@.take(0).map_values(|d: i64| dec_text(d as int))));
    }
    while i < n
        invariant
            n == v@.len(),
            i <= n,
            out@ == base + "["@ + join(v@.take(i as int).map_values(|d: i64| dec_text(d as int))),
        decreases n - i,
    {
        let ghost items = v@.take(i as int).map_values(|d: i64| dec_text(d as int));
        proof {
            assert(v@.take(i + 1).map_values(|d: i64| dec_text(d as int)) =~= items.push(
                dec_text(v@[i as int] as int),
            ));
            lemma_join_push(items, dec_text(v@[i as int] as int));
        }
        if i > 0 {
            out.append(",");
        }
        write_int(out, v[i]);
        proof {
            if i > 0 {
                assert(out@ =~= base + "["@ + (join(items) + ","@ + dec_text(v@[i as int] as int)));
            } else {
                assert(out@ =~= base + "["@ + dec_text(v@[i as int] as int));
            }
        }
        i = i + 1;
    }
    proof {
        assert(v@.take(n as int) =~= v@);
    }
    out.append("]");
    proof {
        assert(out@ =~= base + i64_array_json(v@));
    }
}

} // verus!
