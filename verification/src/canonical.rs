//! The canonical rule JSON reads back uniquely: each piece of it (string
//! literal, number, array, object) delimits itself, so two equal texts come
//! from rules that agree on every field.

use vstd::prelude::*;
use crate::json::{
    hex_digit, i32_array_json, i64_array_json, opt_int_json, opt_str_json, opt_text, join, json_array, json_escape, json_escaped, json_quote, quoted_all,
    string_array_json, string_views, u32_array_json,
};
use crate::fingerprint::{
    direction_text, exclusion_json, exclusions_json, fold_json, gap_json, holiday_member_json, holidays_json,
    hms_json, inclusion_json, inclusions_json, rule_json, rule_json_head, rule_json_tail,
};
use crate::model::{Direction, ExclusionWindow, FoldPolicy, GapPolicy, InclusionRule, RuleVersion};
use crate::storage::{queries_json, query_json, session_json, QueryRecord, SessionRecord};
use crate::text::{dec_text, digit_char, nat_digits};

verus! {

/// A decimal digit character.
pub open spec fn is_digit(c: char) -> bool {
    '0' <= c && c <= '9'
}

/// Equal texts after a common prefix.
pub proof fn lemma_drop_prefix(p: Seq<char>, x: Seq<char>, y: Seq<char>)
    requires
        p + x == p + y,
    ensures
        x == y,
{
    assert(x =~= (p + x).skip(p.len() as int));
    assert(y =~= (p + y).skip(p.len() as int));
}

/// Equal concatenations with parts of equal length have equal parts.
pub proof fn lemma_split_equal(a1: Seq<char>, b1: Seq<char>, a2: Seq<char>, b2: Seq<char>)
    requires
        a1 + b1 == a2 + b2,
        a1.len() == a2.len(),
    ensures
        a1 == a2,
        b1 == b2,
{
    assert(a1 =~= (a1 + b1).take(a1.len() as int));
    assert(a2 =~= (a2 + b2).take(a2.len() as int));
    assert(b1 =~= (a1 + b1).skip(a1.len() as int));
    assert(b2 =~= (a2 + b2).skip(a2.len() as int));
}

proof fn lemma_hex_digit(v: int, w: int)
    requires
        0 <= v < 16,
        0 <= w < 16,
        hex_digit(v) == hex_digit(w),
    ensures
        v == w,
{
}

/// One character's escape never begins with a bare quote, and the escape
/// determines the character and its own length.
proof fn lemma_escape_unique(c1: char, c2: char, r1: Seq<char>, r2: Seq<char>)
    requires
        json_escape(c1) + r1 == json_escape(c2) + r2,
    ensures
        c1 == c2,
        r1 == r2,
{
    let e1 = json_escape(c1);
    let e2 = json_escape(c2);
    let s = e1 + r1;
    assert(s[0] == e1[0]);
    assert(s[0] == e2[0]);
    if e1.len() >= 2 {
        assert(s[1] == e1[1]);
    }
    if e2.len() >= 2 {
        assert(s[1] == e2[1]);
    }
    if e1.len() == 6 {
        assert(s[4] == e1[4] && s[5] == e1[5]);
    }
    if e2.len() == 6 {
        assert(s[4] == e2[4] && s[5] == e2[5]);
    }
    assert(e1.len() == e2.len());
    lemma_split_equal(e1, r1, e2, r2);
    if e1.len() == 6 {
        assert(e1[4] == e2[4] && e1[5] == e2[5]);
        lemma_hex_digit((c1 as int) / 16, (c2 as int) / 16);
        lemma_hex_digit((c1 as int) % 16, (c2 as int) % 16);
    }
}

/// Escapes of a string, read from its first character.
pub proof fn lemma_escaped_cons(c: char, s: Seq<char>)
    ensures
        json_escaped(seq![c] + s) == json_escape(c) + json_escaped(s),
    decreases s.len(),
{
    let t = seq![c] + s;
    if s.len() == 0 {
        assert(t.drop_last() =~= Seq::<char>::empty());
        assert(t.last() == c);
        assert(json_escaped(t) == json_escaped(t.drop_last()) + json_escape(t.last()));
        assert(json_escaped(t) =~= json_escape(c) + json_escaped(s));
    } else {
        assert(t.drop_last() =~= seq![c] + s.drop_last());
        assert(t.last() == s.last());
        lemma_escaped_cons(c, s.drop_last());
        assert(json_escaped(t) == json_escaped(t.drop_last()) + json_escape(t.last()));
        assert(json_escaped(s) == json_escaped(s.drop_last()) + json_escape(s.last()));
        assert(json_escaped(t) =~= json_escape(c) + json_escaped(s));
    }
}

proof fn lemma_escaped_first(s: Seq<char>)
    requires
        s.len() > 0,
    ensures
        json_escaped(s) == json_escape(s[0]) + json_escaped(s.drop_first()),
        json_escaped(s)[0] != '"',
{
    assert(s =~= seq![s[0]] + s.drop_first());
    lemma_escaped_cons(s[0], s.drop_first());
    let e = json_escape(s[0]);
    assert(json_escaped(s)[0] == e[0]);
}

proof fn lemma_escaped_unique(x: Seq<char>, y: Seq<char>, r1: Seq<char>, r2: Seq<char>)
    requires
        json_escaped(x) + (seq!['"'] + r1) == json_escaped(y) + (seq!['"'] + r2),
    ensures
        x == y,
        r1 == r2,
    decreases x.len(),
{
    let q1 = seq!['"'] + r1;
    let q2 = seq!['"'] + r2;
    if x.len() == 0 {
        if y.len() > 0 {
            lemma_escaped_first(y);
            assert((json_escaped(y) + q2)[0] == json_escaped(y)[0]);
            assert((json_escaped(x) + q1)[0] == '"');
        }
        assert(json_escaped(x) + q1 =~= q1);
        assert(json_escaped(y) + q2 =~= q2);
        lemma_drop_prefix(seq!['"'], r1, r2);
    } else if y.len() == 0 {
        lemma_escaped_first(x);
        assert((json_escaped(x) + q1)[0] == json_escaped(x)[0]);
        assert((json_escaped(y) + q2)[0] == '"');
    } else {
        lemma_escaped_first(x);
        lemma_escaped_first(y);
        let xt = json_escaped(x.drop_first()) + q1;
        let yt = json_escaped(y.drop_first()) + q2;
        assert(json_escaped(x) + q1 =~= json_escape(x[0]) + xt);
        assert(json_escaped(y) + q2 =~= json_escape(y[0]) + yt);
        lemma_escape_unique(x[0], y[0], xt, yt);
        lemma_escaped_unique(x.drop_first(), y.drop_first(), r1, r2);
        assert(x =~= seq![x[0]] + x.drop_first());
        assert(y =~= seq![y[0]] + y.drop_first());
    }
}

/// A JSON string literal ends where its closing quote stands: what follows
/// it, and the string, are determined by the text.
pub proof fn lemma_quote_unique(x: Seq<char>, y: Seq<char>, r1: Seq<char>, r2: Seq<char>)
    requires
        json_quote(x) + r1 == json_quote(y) + r2,
    ensures
        x == y,
        r1 == r2,
{
    let q = seq!['"'];
    assert(json_quote(x) + r1 =~= q + (json_escaped(x) + (q + r1)));
    assert(json_quote(y) + r2 =~= q + (json_escaped(y) + (q + r2)));
    lemma_drop_prefix(q, json_escaped(x) + (q + r1), json_escaped(y) + (q + r2));
    lemma_escaped_unique(x, y, r1, r2);
}

/// A string literal begins with a quote.
pub proof fn lemma_quote_first(x: Seq<char>)
    ensures
        json_quote(x).len() >= 2,
        json_quote(x)[0] == '"',
{
}

// ------------------------------------------------------------ numbers

proof fn lemma_digit_char(d: int)
    requires
        0 <= d < 10,
    ensures
        is_digit(digit_char(d)),
        digit_char(d) as int == d + 48,
{
}

proof fn lemma_nat_digits_shape(n: nat)
    ensures
        nat_digits(n).len() >= 1,
        n >= 10 ==> nat_digits(n).len() >= 2,
        forall|i: int| 0 <= i < nat_digits(n).len() ==> is_digit(#[trigger] nat_digits(n)[i]),
    decreases n,
{
    if n < 10 {
        lemma_digit_char(n as int);
    } else {
        lemma_nat_digits_shape(n / 10);
        lemma_digit_char((n % 10) as int);
    }
}

proof fn lemma_nat_digits_injective(n: nat, m: nat)
    requires
        nat_digits(n) == nat_digits(m),
    ensures
        n == m,
    decreases n,
{
    lemma_nat_digits_shape(n);
    lemma_nat_digits_shape(m);
    if n < 10 && m < 10 {
        lemma_digit_char(n as int);
        lemma_digit_char(m as int);
        assert(nat_digits(n) == seq![digit_char(n as int)]);
        assert(nat_digits(m) == seq![digit_char(m as int)]);
        assert(nat_digits(n)[0] == digit_char(n as int));
        assert(nat_digits(m)[0] == digit_char(m as int));
        assert(digit_char(n as int) == digit_char(m as int));
        assert(digit_char(n as int) as int == digit_char(m as int) as int);
    } else if n >= 10 && m >= 10 {
        let a = nat_digits(n);
        let b = nat_digits(m);
        assert(a.last() == b.last());
        assert(a.drop_last() =~= nat_digits(n / 10));
        assert(b.drop_last() =~= nat_digits(m / 10));
        lemma_nat_digits_injective(n / 10, m / 10);
        lemma_digit_char((n % 10) as int);
        lemma_digit_char((m % 10) as int);
        assert(a.last() == digit_char((n % 10) as int));
        assert(b.last() == digit_char((m % 10) as int));
        assert(n % 10 == m % 10);
        assert(n == 10 * (n / 10) + n % 10);
        assert(m == 10 * (m / 10) + m % 10);
        assert(n == m);
    } else {
        assert(nat_digits(n).len() == nat_digits(m).len());
    }
}

/// A number-shaped token: a digit or `-` first, digits after it.
pub open spec fn number_shaped(t: Seq<char>) -> bool {
    &&& t.len() >= 1
    &&& (is_digit(t[0]) || t[0] == '-')
    &&& forall|i: int| 1 <= i < t.len() ==> is_digit(#[trigger] t[i])
}

pub proof fn lemma_dec_shape(a: int)
    ensures
        number_shaped(dec_text(a)),
        dec_text(a)[0] != '"' && dec_text(a)[0] != ']' && dec_text(a)[0] != '}',
{
    if a < 0 {
        lemma_nat_digits_shape((-a) as nat);
        let d = nat_digits((-a) as nat);
        assert forall|i: int| 1 <= i < dec_text(a).len() implies is_digit(#[trigger] dec_text(a)[i]) by {
            assert(dec_text(a)[i] == d[i - 1]);
        }
    } else {
        lemma_nat_digits_shape(a as nat);
    }
}

/// Number-shaped tokens followed by a non-digit end at that non-digit.
pub proof fn lemma_number_tokens(t: Seq<char>, u: Seq<char>, r1: Seq<char>, r2: Seq<char>)
    requires
        number_shaped(t),
        number_shaped(u),
        t + r1 == u + r2,
        r1.len() > 0 && !is_digit(r1[0]) && r1[0] != '-',
        r2.len() > 0 && !is_digit(r2[0]) && r2[0] != '-',
    ensures
        t == u,
        r1 == r2,
{
    let s = t + r1;
    if t.len() < u.len() {
        assert(s[t.len() as int] == r1[0]);
        assert(s[t.len() as int] == u[t.len() as int]);
    } else if u.len() < t.len() {
        assert(s[u.len() as int] == r2[0]);
        assert(s[u.len() as int] == t[u.len() as int]);
    }
    lemma_split_equal(t, r1, u, r2);
}

/// Decimal text determines the integer.
pub proof fn lemma_dec_injective(a: int, b: int)
    requires
        dec_text(a) == dec_text(b),
    ensures
        a == b,
{
    lemma_dec_shape(a);
    lemma_dec_shape(b);
    if a < 0 && b < 0 {
        lemma_drop_prefix(seq!['-'], nat_digits((-a) as nat), nat_digits((-b) as nat));
        lemma_nat_digits_injective((-a) as nat, (-b) as nat);
    } else if a >= 0 && b >= 0 {
        lemma_nat_digits_injective(a as nat, b as nat);
    } else if a < 0 {
        lemma_nat_digits_shape(b as nat);
        assert(is_digit(nat_digits(b as nat)[0]));
    } else {
        lemma_nat_digits_shape(a as nat);
        assert(is_digit(nat_digits(a as nat)[0]));
    }
}

/// A number followed by a non-digit: the number and what follows are
/// determined by the text.
pub proof fn lemma_dec_unique(a: int, b: int, r1: Seq<char>, r2: Seq<char>)
    requires
        dec_text(a) + r1 == dec_text(b) + r2,
        r1.len() > 0 && !is_digit(r1[0]) && r1[0] != '-',
        r2.len() > 0 && !is_digit(r2[0]) && r2[0] != '-',
    ensures
        a == b,
        r1 == r2,
{
    lemma_dec_shape(a);
    lemma_dec_shape(b);
    lemma_number_tokens(dec_text(a), dec_text(b), r1, r2);
    lemma_dec_injective(a, b);
}

// ------------------------------------------------------------ lists

/// A family of tokens each of which ends by itself when a `,` or `close`
/// follows it, and none of which begins with `,` or `close`.
pub open spec fn self_delimiting(fam: spec_fn(Seq<char>) -> bool, close: char) -> bool {
    &&& forall|t: Seq<char>, u: Seq<char>, s1: Seq<char>, s2: Seq<char>|
        #![trigger fam(t), fam(u), t.add(s1), u.add(s2)]
        fam(t) && fam(u) && t.add(s1) == u.add(s2) && s1.len() > 0 && (s1[0] == ',' || s1[0] == close)
            && s2.len() > 0 && (s2[0] == ',' || s2[0] == close) ==> t == u && s1 == s2
    &&& forall|t: Seq<char>| #[trigger] fam(t) ==> t.len() > 0 && t[0] != close && t[0] != ','
}

/// Every token of a list belongs to the family.
pub open spec fn all_in(fam: spec_fn(Seq<char>) -> bool, ts: Seq<Seq<char>>) -> bool {
    forall|i: int| 0 <= i < ts.len() ==> fam(#[trigger] ts[i])
}

/// Items between an opening and a closing bracket, separated by commas.
pub open spec fn bracketed(open: char, ts: Seq<Seq<char>>, close: char) -> Seq<char> {
    seq![open] + join(ts) + seq![close]
}

/// A list, read from its first item.
pub proof fn lemma_join_cons(x: Seq<char>, rest: Seq<Seq<char>>)
    ensures
        join(seq![x] + rest) == (if rest.len() == 0 {
            x
        } else {
            x + (seq![','] + join(rest))
        }),
    decreases rest.len(),
{
    reveal_strlit(",");
    assert(","@ =~= seq![',']);
    let t = seq![x] + rest;
    if rest.len() == 0 {
        assert(t =~= seq![x]);
    } else if rest.len() == 1 {
        assert(t.drop_last() =~= seq![x]);
        assert(t.last() == rest[0]);
        assert(join(t) == join(t.drop_last()) + ","@ + t.last());
        assert(join(rest) == rest[0]);
        assert(join(t) =~= x + (seq![','] + join(rest)));
    } else {
        assert(t.drop_last() =~= seq![x] + rest.drop_last());
        lemma_join_cons(x, rest.drop_last());
        assert(join(t) == join(t.drop_last()) + ","@ + t.last());
        assert(join(rest) == join(rest.drop_last()) + ","@ + rest.last());
        assert(t.last() == rest.last());
        assert(join(t) =~= x + (seq![','] + join(rest)));
    }
}

proof fn lemma_join_first(ts: Seq<Seq<char>>, fam: spec_fn(Seq<char>) -> bool, close: char, r: Seq<char>)
    requires
        self_delimiting(fam, close),
        all_in(fam, ts),
        ts.len() > 0,
    ensures
        (join(ts) + r)[0] == ts[0][0],
        ts[0][0] != close,
{
    assert(ts =~= seq![ts[0]] + ts.drop_first());
    lemma_join_cons(ts[0], ts.drop_first());
    assert(fam(ts[0]));
}

proof fn lemma_join_unique(
    fam: spec_fn(Seq<char>) -> bool,
    close: char,
    ts: Seq<Seq<char>>,
    us: Seq<Seq<char>>,
    r1: Seq<char>,
    r2: Seq<char>,
)
    requires
        self_delimiting(fam, close),
        close != ',',
        all_in(fam, ts),
        all_in(fam, us),
        join(ts) + (seq![close] + r1) == join(us) + (seq![close] + r2),
    ensures
        ts == us,
        r1 == r2,
    decreases ts.len(),
{
    let c1 = seq![close] + r1;
    let c2 = seq![close] + r2;
    if ts.len() == 0 || us.len() == 0 {
        if ts.len() > 0 {
            lemma_join_first(ts, fam, close, c1);
            assert((join(us) + c2) =~= c2);
        } else if us.len() > 0 {
            lemma_join_first(us, fam, close, c2);
            assert((join(ts) + c1) =~= c1);
        } else {
            assert((join(ts) + c1) =~= c1);
            assert((join(us) + c2) =~= c2);
            lemma_drop_prefix(seq![close], r1, r2);
            assert(ts =~= us);
        }
    } else {
        let t0 = ts[0];
        let u0 = us[0];
        let tr = ts.drop_first();
        let ur = us.drop_first();
        assert(ts =~= seq![t0] + tr);
        assert(us =~= seq![u0] + ur);
        lemma_join_cons(t0, tr);
        lemma_join_cons(u0, ur);
        let s1 = if tr.len() == 0 { c1 } else { seq![','] + (join(tr) + c1) };
        let s2 = if ur.len() == 0 { c2 } else { seq![','] + (join(ur) + c2) };
        assert(join(ts) + c1 =~= t0 + s1);
        assert(join(us) + c2 =~= u0 + s2);
        assert(fam(t0));
        assert(fam(u0));
        assert(t0.add(s1) == u0.add(s2));
        assert(t0 == u0 && s1 == s2);
        if tr.len() == 0 && ur.len() == 0 {
            lemma_drop_prefix(seq![close], r1, r2);
            assert(ts =~= us);
        } else if tr.len() == 0 {
            assert(s1[0] == close);
            assert(s2[0] == ',');
        } else if ur.len() == 0 {
            assert(s2[0] == close);
            assert(s1[0] == ',');
        } else {
            lemma_drop_prefix(seq![','], join(tr) + c1, join(ur) + c2);
            assert forall|i: int| 0 <= i < tr.len() implies fam(#[trigger] tr[i]) by {
                assert(tr[i] == ts[i + 1]);
            }
            assert forall|i: int| 0 <= i < ur.len() implies fam(#[trigger] ur[i]) by {
                assert(ur[i] == us[i + 1]);
            }
            lemma_join_unique(fam, close, tr, ur, r1, r2);
            assert(ts =~= us);
        }
    }
}

/// A bracketed list of self-delimiting tokens ends at its closing bracket:
/// the tokens, and what follows, are determined by the text.
pub proof fn lemma_bracketed_unique(
    fam: spec_fn(Seq<char>) -> bool,
    open: char,
    close: char,
    ts: Seq<Seq<char>>,
    us: Seq<Seq<char>>,
    r1: Seq<char>,
    r2: Seq<char>,
)
    requires
        self_delimiting(fam, close),
        close != ',',
        all_in(fam, ts),
        all_in(fam, us),
        bracketed(open, ts, close) + r1 == bracketed(open, us, close) + r2,
    ensures
        ts == us,
        r1 == r2,
{
    assert(bracketed(open, ts, close) + r1 =~= seq![open] + (join(ts) + (seq![close] + r1)));
    assert(bracketed(open, us, close) + r2 =~= seq![open] + (join(us) + (seq![close] + r2)));
    lemma_drop_prefix(seq![open], join(ts) + (seq![close] + r1), join(us) + (seq![close] + r2));
    lemma_join_unique(fam, close, ts, us, r1, r2);
}

/// A JSON array is its items in square brackets.
pub proof fn lemma_array_bracketed(ts: Seq<Seq<char>>)
    ensures
        json_array(ts) == bracketed('[', ts, ']'),
{
    reveal_strlit("[");
    reveal_strlit("]");
    assert(json_array(ts) =~= bracketed('[', ts, ']'));
}

/// A string literal token.
pub open spec fn quoted_token(t: Seq<char>) -> bool {
    exists|x: Seq<char>| json_quote(x) == t
}

pub proof fn lemma_quoted_family(close: char)
    requires
        close != '"',
    ensures
        self_delimiting(|t: Seq<char>| quoted_token(t), close),
{
    let fam = |t: Seq<char>| quoted_token(t);
    assert forall|t: Seq<char>, u: Seq<char>, s1: Seq<char>, s2: Seq<char>|
        fam(t) && fam(u) && t.add(s1) == u.add(s2) implies t == u && s1 == s2 by {
        let x = choose|x: Seq<char>| json_quote(x) == t;
        let y = choose|y: Seq<char>| json_quote(y) == u;
        lemma_quote_unique(x, y, s1, s2);
    }
    assert forall|t: Seq<char>| #[trigger] fam(t) implies t.len() > 0 && t[0] != close && t[0] != ',' by {
        let x = choose|x: Seq<char>| json_quote(x) == t;
        lemma_quote_first(x);
    }
}

pub proof fn lemma_number_family(close: char)
    requires
        !is_digit(close),
        close != '-',
    ensures
        self_delimiting(|t: Seq<char>| number_shaped(t), close),
{
    let fam = |t: Seq<char>| number_shaped(t);
    assert forall|t: Seq<char>, u: Seq<char>, s1: Seq<char>, s2: Seq<char>|
        fam(t) && fam(u) && t.add(s1) == u.add(s2) && s1.len() > 0 && (s1[0] == ',' || s1[0] == close)
            && s2.len() > 0 && (s2[0] == ',' || s2[0] == close) implies t == u && s1 == s2 by {
        lemma_number_tokens(t, u, s1, s2);
    }
}

// ------------------------------------------------------------ typed arrays

/// An array of `i32` numbers ends at its bracket and gives back its numbers.
pub proof fn lemma_i32_array_unique(a: Seq<i32>, b: Seq<i32>, r1: Seq<char>, r2: Seq<char>)
    requires
        i32_array_json(a) + r1 == i32_array_json(b) + r2,
    ensures
        a == b,
        r1 == r2,
{
    let f = |d: i32| dec_text(d as int);
    let ts = a.map_values(f);
    let us = b.map_values(f);
    let fam = |t: Seq<char>| number_shaped(t);
    lemma_number_family(']');
    assert forall|i: int| 0 <= i < ts.len() implies fam(#[trigger] ts[i]) by {
        lemma_dec_shape(a[i] as int);
    }
    assert forall|i: int| 0 <= i < us.len() implies fam(#[trigger] us[i]) by {
        lemma_dec_shape(b[i] as int);
    }
    lemma_array_bracketed(ts);
    lemma_array_bracketed(us);
    lemma_bracketed_unique(fam, '[', ']', ts, us, r1, r2);
    assert forall|i: int| 0 <= i < a.len() implies a[i] == b[i] by {
        assert(ts[i] == us[i]);
        lemma_dec_injective(a[i] as int, b[i] as int);
    }
    assert(a =~= b);
}

/// An array of `u32` numbers ends at its bracket and gives back its numbers.
pub proof fn lemma_u32_array_unique(a: Seq<u32>, b: Seq<u32>, r1: Seq<char>, r2: Seq<char>)
    requires
        u32_array_json(a) + r1 == u32_array_json(b) + r2,
    ensures
        a == b,
        r1 == r2,
{
    let f = |d: u32| dec_text(d as int);
    let ts = a.map_values(f);
    let us = b.map_values(f);
    let fam = |t: Seq<char>| number_shaped(t);
    lemma_number_family(']');
    assert forall|i: int| 0 <= i < ts.len() implies fam(#[trigger] ts[i]) by {
        lemma_dec_shape(a[i] as int);
    }
    assert forall|i: int| 0 <= i < us.len() implies fam(#[trigger] us[i]) by {
        lemma_dec_shape(b[i] as int);
    }
    lemma_array_bracketed(ts);
    lemma_array_bracketed(us);
    lemma_bracketed_unique(fam, '[', ']', ts, us, r1, r2);
    assert forall|i: int| 0 <= i < a.len() implies a[i] == b[i] by {
        assert(ts[i] == us[i]);
        lemma_dec_injective(a[i] as int, b[i] as int);
    }
    assert(a =~= b);
}

/// An array of strings ends at its bracket and gives back its strings.
pub proof fn lemma_string_array_unique(a: Seq<Seq<char>>, b: Seq<Seq<char>>, r1: Seq<char>, r2: Seq<char>)
    requires
        string_array_json(a) + r1 == string_array_json(b) + r2,
    ensures
        a == b,
        r1 == r2,
{
    let ts = quoted_all(a);
    let us = quoted_all(b);
    let fam = |t: Seq<char>| quoted_token(t);
    lemma_quoted_family(']');
    assert forall|i: int| 0 <= i < ts.len() implies fam(#[trigger] ts[i]) by {
        assert(json_quote(a[i]) == ts[i]);
    }
    assert forall|i: int| 0 <= i < us.len() implies fam(#[trigger] us[i]) by {
        assert(json_quote(b[i]) == us[i]);
    }
    lemma_array_bracketed(ts);
    lemma_array_bracketed(us);
    lemma_bracketed_unique(fam, '[', ']', ts, us, r1, r2);
    assert forall|i: int| 0 <= i < a.len() implies a[i] == b[i] by {
        assert(ts[i] == us[i]);
        assert(json_quote(a[i]) + Seq::<char>::empty() =~= json_quote(b[i]) + Seq::<char>::empty());
        lemma_quote_unique(a[i], b[i], Seq::<char>::empty(), Seq::<char>::empty());
    }
    assert(a =~= b);
}

/// `[hour,minute,second]` ends at its bracket and gives back its numbers.
#[verifier::spinoff_prover]
pub proof fn lemma_hms_unique(h: [u32; 3], k: [u32; 3], r1: Seq<char>, r2: Seq<char>)
    requires
        hms_json(h) + r1 == hms_json(k) + r2,
    ensures
        h[0] == k[0] && h[1] == k[1] && h[2] == k[2],
        r1 == r2,
{
    reveal_strlit("[");
    reveal_strlit(",");
    reveal_strlit("]");
    let o = seq!['['];
    let c = seq![','];
    let e = seq![']'];
    assert(hms_json(h) + r1 =~= o + (dec_text(h[0] as int) + (c + (dec_text(h[1] as int) + (c + (
    dec_text(h[2] as int) + (e + r1)))))));
    assert(hms_json(k) + r2 =~= o + (dec_text(k[0] as int) + (c + (dec_text(k[1] as int) + (c + (
    dec_text(k[2] as int) + (e + r2)))))));
    lemma_drop_prefix(
        o,
        dec_text(h[0] as int) + (c + (dec_text(h[1] as int) + (c + (dec_text(h[2] as int) + (e
            + r1))))),
        dec_text(k[0] as int) + (c + (dec_text(k[1] as int) + (c + (dec_text(k[2] as int) + (e
            + r2))))),
    );
    lemma_dec_unique(
        h[0] as int,
        k[0] as int,
        c + (dec_text(h[1] as int) + (c + (dec_text(h[2] as int) + (e + r1)))),
        c + (dec_text(k[1] as int) + (c + (dec_text(k[2] as int) + (e + r2)))),
    );
    lemma_drop_prefix(
        c,
        dec_text(h[1] as int) + (c + (dec_text(h[2] as int) + (e + r1))),
        dec_text(k[1] as int) + (c + (dec_text(k[2] as int) + (e + r2))),
    );
    lemma_dec_unique(
        h[1] as int,
        k[1] as int,
        c + (dec_text(h[2] as int) + (e + r1)),
        c + (dec_text(k[2] as int) + (e + r2)),
    );
    lemma_drop_prefix(c, dec_text(h[2] as int) + (e + r1), dec_text(k[2] as int) + (e + r2));
    lemma_dec_unique(h[2] as int, k[2] as int, e + r1, e + r2);
    lemma_drop_prefix(e, r1, r2);
}

// ------------------------------------------------------------ objects

/// Two exclusion windows agree on every field.
pub open spec fn same_exclusion(x: ExclusionWindow, y: ExclusionWindow) -> bool {
    &&& x.id@ == y.id@
    &&& x.start_epoch == y.start_epoch
    &&& x.end_epoch == y.end_epoch
    &&& x.note@ == y.note@
}

#[verifier::spinoff_prover]
proof fn lemma_exclusion_parts(x: ExclusionWindow, r: Seq<char>)
    ensures
        exclusion_json(x) + r == "{\"end_epoch\":"@ + (dec_text(x.end_epoch as int) + (",\"id\":"@ + (
        json_quote(x.id@) + (",\"note\":"@ + (json_quote(x.note@) + (",\"start_epoch\":"@ + (
        dec_text(x.start_epoch as int) + ("}"@ + r)))))))),
{
    assert(exclusion_json(x) + r =~= "{\"end_epoch\":"@ + (dec_text(x.end_epoch as int) + (
    ",\"id\":"@ + (json_quote(x.id@) + (",\"note\":"@ + (json_quote(x.note@) + (
    ",\"start_epoch\":"@ + (dec_text(x.start_epoch as int) + ("}"@ + r)))))))));
}

/// An exclusion window's object ends at its brace and gives back the window.
#[verifier::spinoff_prover]
pub proof fn lemma_exclusion_unique(x: ExclusionWindow, y: ExclusionWindow, r1: Seq<char>, r2: Seq<char>)
    requires
        exclusion_json(x) + r1 == exclusion_json(y) + r2,
    ensures
        same_exclusion(x, y),
        r1 == r2,
{
    let l1 = "{\"end_epoch\":"@;
    let l2 = ",\"id\":"@;
    let l3 = ",\"note\":"@;
    let l4 = ",\"start_epoch\":"@;
    let l5 = "}"@;
    let a5 = l5 + r1;
    let a4 = dec_text(x.start_epoch as int) + a5;
    let a3 = l4 + a4;
    let a2 = json_quote(x.note@) + a3;
    let a1 = l3 + a2;
    let a0 = json_quote(x.id@) + a1;
    let am = l2 + a0;
    let aa = dec_text(x.end_epoch as int) + am;
    let b5 = l5 + r2;
    let b4 = dec_text(y.start_epoch as int) + b5;
    let b3 = l4 + b4;
    let b2 = json_quote(y.note@) + b3;
    let b1 = l3 + b2;
    let b0 = json_quote(y.id@) + b1;
    let bm = l2 + b0;
    let bb = dec_text(y.end_epoch as int) + bm;
    lemma_exclusion_parts(x, r1);
    lemma_exclusion_parts(y, r2);
    lemma_drop_prefix(l1, aa, bb);
    assert(am.len() > 0 && bm.len() > 0 && am[0] == ',' && bm[0] == ',') by {
        reveal_strlit(",\"id\":");
    }
    lemma_dec_unique(x.end_epoch as int, y.end_epoch as int, am, bm);
    lemma_drop_prefix(l2, a0, b0);
    lemma_quote_unique(x.id@, y.id@, a1, b1);
    lemma_drop_prefix(l3, a2, b2);
    lemma_quote_unique(x.note@, y.note@, a3, b3);
    lemma_drop_prefix(l4, a4, b4);
    assert(a5.len() > 0 && b5.len() > 0 && a5[0] == '}' && b5[0] == '}') by {
        reveal_strlit("}");
    }
    lemma_dec_unique(x.start_epoch as int, y.start_epoch as int, a5, b5);
    lemma_drop_prefix(l5, r1, r2);
}

/// Two inclusion rules are of one kind and agree on every field.
pub open spec fn same_inclusion(x: InclusionRule, y: InclusionRule) -> bool {
    match (x, y) {
        (InclusionRule::Monthly(a), InclusionRule::Monthly(b)) => {
            &&& a.id@ == b.id@
            &&& a.days_of_month@ == b.days_of_month@
            &&& a.hms[0] == b.hms[0] && a.hms[1] == b.hms[1] && a.hms[2] == b.hms[2]
        },
        (InclusionRule::Weekly(a), InclusionRule::Weekly(b)) => {
            &&& a.id@ == b.id@
            &&& a.days_of_week@ == b.days_of_week@
            &&& a.hms[0] == b.hms[0] && a.hms[1] == b.hms[1] && a.hms[2] == b.hms[2]
        },
        (InclusionRule::Holiday(a), InclusionRule::Holiday(b)) => {
            &&& a.id@ == b.id@
            &&& string_views(a.holidays@) == string_views(b.holidays@)
            &&& a.hms[0] == b.hms[0] && a.hms[1] == b.hms[1] && a.hms[2] == b.hms[2]
        },
        _ => false,
    }
}

/// The opening literal of an inclusion rule's object, which names its first key.
spec fn inclusion_head(x: InclusionRule) -> Seq<char> {
    match x {
        InclusionRule::Monthly(_) => "{\"days_of_month\":"@,
        InclusionRule::Weekly(_) => "{\"days_of_week\":"@,
        InclusionRule::Holiday(_) => "{\"hms\":"@,
    }
}

#[verifier::spinoff_prover]
proof fn lemma_inclusion_prefix(x: InclusionRule, r: Seq<char>)
    ensures
        inclusion_head(x).len() <= (inclusion_json(x) + r).len(),
        forall|i: int| 0 <= i < inclusion_head(x).len() ==> #[trigger] (inclusion_json(x) + r)[i] == inclusion_head(x)[i],
{
    lemma_inclusion_parts(x, r);
    let h = inclusion_head(x);
    let s = inclusion_json(x) + r;
    assert(exists|rest: Seq<char>| s == h + rest);
    let rest = choose|rest: Seq<char>| s == h + rest;
    assert forall|i: int| 0 <= i < h.len() implies #[trigger] s[i] == h[i] by {
        assert((h + rest)[i] == h[i]);
    }
}

#[verifier::spinoff_prover]
proof fn lemma_inclusion_kind(x: InclusionRule, y: InclusionRule, r1: Seq<char>, r2: Seq<char>)
    requires
        inclusion_json(x) + r1 == inclusion_json(y) + r2,
    ensures
        inclusion_head(x) == inclusion_head(y),
{
    lemma_inclusion_prefix(x, r1);
    lemma_inclusion_prefix(y, r2);
    let hx = inclusion_head(x);
    let hy = inclusion_head(y);
    let s = inclusion_json(x) + r1;
    reveal_strlit("{\"days_of_month\":");
    reveal_strlit("{\"days_of_week\":");
    reveal_strlit("{\"hms\":");
    assert(s[2] == hx[2] && s[2] == hy[2]);
    if hx.len() > 10 && hy.len() > 10 {
        assert(s[10] == hx[10] && s[10] == hy[10]);
    }
}

#[verifier::spinoff_prover]
proof fn lemma_inclusion_parts(x: InclusionRule, r: Seq<char>)
    ensures
        match x {
            InclusionRule::Monthly(a) => inclusion_json(x) + r == "{\"days_of_month\":"@ + (
            i32_array_json(a.days_of_month@) + (",\"hms\":"@ + (hms_json(a.hms) + (",\"id\":"@ + (
            json_quote(a.id@) + (",\"kind\":\"monthly\"}"@ + r)))))),
            InclusionRule::Weekly(a) => inclusion_json(x) + r == "{\"days_of_week\":"@ + (
            u32_array_json(a.days_of_week@) + (",\"hms\":"@ + (hms_json(a.hms) + (",\"id\":"@ + (
            json_quote(a.id@) + (",\"kind\":\"weekly\"}"@ + r)))))),
            InclusionRule::Holiday(a) => inclusion_json(x) + r == "{\"hms\":"@ + (hms_json(a.hms) + (
            ",\"holidays\":"@ + (string_array_json(string_views(a.holidays@)) + (",\"id\":"@ + (
            json_quote(a.id@) + (",\"kind\":\"holiday\"}"@ + r)))))),
        },
{
    match x {
        InclusionRule::Monthly(a) => {
            assert(inclusion_json(x) + r =~= "{\"days_of_month\":"@ + (i32_array_json(a.days_of_month@)
                + (",\"hms\":"@ + (hms_json(a.hms) + (",\"id\":"@ + (json_quote(a.id@) + (
            ",\"kind\":\"monthly\"}"@ + r)))))));
        },
        InclusionRule::Weekly(a) => {
            assert(inclusion_json(x) + r =~= "{\"days_of_week\":"@ + (u32_array_json(a.days_of_week@)
                + (",\"hms\":"@ + (hms_json(a.hms) + (",\"id\":"@ + (json_quote(a.id@) + (
            ",\"kind\":\"weekly\"}"@ + r)))))));
        },
        InclusionRule::Holiday(a) => {
            assert(inclusion_json(x) + r =~= "{\"hms\":"@ + (hms_json(a.hms) + (",\"holidays\":"@ + (
            string_array_json(string_views(a.holidays@)) + (",\"id\":"@ + (json_quote(a.id@) + (
            ",\"kind\":\"holiday\"}"@ + r)))))));
        },
    }
}

/// An inclusion rule's object ends at its brace and gives back the rule.
#[verifier::spinoff_prover]
pub proof fn lemma_inclusion_unique(x: InclusionRule, y: InclusionRule, r1: Seq<char>, r2: Seq<char>)
    requires
        inclusion_json(x) + r1 == inclusion_json(y) + r2,
    ensures
        same_inclusion(x, y),
        r1 == r2,
{
    lemma_inclusion_kind(x, y, r1, r2);
    lemma_inclusion_parts(x, r1);
    lemma_inclusion_parts(y, r2);
    let lid = ",\"id\":"@;
    match (x, y) {
        (InclusionRule::Monthly(a), InclusionRule::Monthly(b)) => {
            let l1 = "{\"days_of_month\":"@;
            let l2 = ",\"hms\":"@;
            let l4 = ",\"kind\":\"monthly\"}"@;
            let a3 = l4 + r1;
            let a2 = json_quote(a.id@) + a3;
            let a1 = lid + a2;
            let a0 = hms_json(a.hms) + a1;
            let am = l2 + a0;
            let b3 = l4 + r2;
            let b2 = json_quote(b.id@) + b3;
            let b1 = lid + b2;
            let b0 = hms_json(b.hms) + b1;
            let bm = l2 + b0;
            lemma_drop_prefix(l1, i32_array_json(a.days_of_month@) + am, i32_array_json(b.days_of_month@) + bm);
            lemma_i32_array_unique(a.days_of_month@, b.days_of_month@, am, bm);
            lemma_drop_prefix(l2, a0, b0);
            lemma_hms_unique(a.hms, b.hms, a1, b1);
            lemma_drop_prefix(lid, a2, b2);
            lemma_quote_unique(a.id@, b.id@, a3, b3);
            lemma_drop_prefix(l4, r1, r2);
        },
        (InclusionRule::Weekly(a), InclusionRule::Weekly(b)) => {
            let l1 = "{\"days_of_week\":"@;
            let l2 = ",\"hms\":"@;
            let l4 = ",\"kind\":\"weekly\"}"@;
            let a3 = l4 + r1;
            let a2 = json_quote(a.id@) + a3;
            let a1 = lid + a2;
            let a0 = hms_json(a.hms) + a1;
            let am = l2 + a0;
            let b3 = l4 + r2;
            let b2 = json_quote(b.id@) + b3;
            let b1 = lid + b2;
            let b0 = hms_json(b.hms) + b1;
            let bm = l2 + b0;
            lemma_drop_prefix(l1, u32_array_json(a.days_of_week@) + am, u32_array_json(b.days_of_week@) + bm);
            lemma_u32_array_unique(a.days_of_week@, b.days_of_week@, am, bm);
            lemma_drop_prefix(l2, a0, b0);
            lemma_hms_unique(a.hms, b.hms, a1, b1);
            lemma_drop_prefix(lid, a2, b2);
            lemma_quote_unique(a.id@, b.id@, a3, b3);
            lemma_drop_prefix(l4, r1, r2);
        },
        (InclusionRule::Holiday(a), InclusionRule::Holiday(b)) => {
            let l1 = "{\"hms\":"@;
            let l2 = ",\"holidays\":"@;
            let l4 = ",\"kind\":\"holiday\"}"@;
            let a3 = l4 + r1;
            let a2 = json_quote(a.id@) + a3;
            let a1 = lid + a2;
            let a0 = string_array_json(string_views(a.holidays@)) + a1;
            let am = l2 + a0;
            let b3 = l4 + r2;
            let b2 = json_quote(b.id@) + b3;
            let b1 = lid + b2;
            let b0 = string_array_json(string_views(b.holidays@)) + b1;
            let bm = l2 + b0;
            lemma_drop_prefix(l1, hms_json(a.hms) + am, hms_json(b.hms) + bm);
            lemma_hms_unique(a.hms, b.hms, am, bm);
            lemma_drop_prefix(l2, a0, b0);
            lemma_string_array_unique(string_views(a.holidays@), string_views(b.holidays@), a1, b1);
            lemma_drop_prefix(lid, a2, b2);
            lemma_quote_unique(a.id@, b.id@, a3, b3);
            lemma_drop_prefix(l4, r1, r2);
        },
        _ => {
            reveal_strlit("{\"days_of_month\":");
            reveal_strlit("{\"days_of_week\":");
            reveal_strlit("{\"hms\":");
            assert(inclusion_head(x).len() != inclusion_head(y).len());
        },
    }
}

// ------------------------------------------------------------ lists of objects

/// An exclusion window's object token.
pub open spec fn exclusion_token(t: Seq<char>) -> bool {
    exists|x: ExclusionWindow| exclusion_json(x) == t
}

/// An inclusion rule's object token.
pub open spec fn inclusion_token(t: Seq<char>) -> bool {
    exists|x: InclusionRule| inclusion_json(x) == t
}

/// A holiday set's member token (`"name":[dates]`).
pub open spec fn member_token(t: Seq<char>) -> bool {
    exists|e: (Seq<char>, Seq<Seq<char>>)| holiday_member_json(e) == t
}

#[verifier::spinoff_prover]
proof fn lemma_exclusion_family()
    ensures
        self_delimiting(|t: Seq<char>| exclusion_token(t), ']'),
{
    let fam = |t: Seq<char>| exclusion_token(t);
    assert forall|t: Seq<char>, u: Seq<char>, s1: Seq<char>, s2: Seq<char>|
        fam(t) && fam(u) && t.add(s1) == u.add(s2) implies t == u && s1 == s2 by {
        let x = choose|x: ExclusionWindow| exclusion_json(x) == t;
        let y = choose|y: ExclusionWindow| exclusion_json(y) == u;
        lemma_exclusion_unique(x, y, s1, s2);
    }
    assert forall|t: Seq<char>| #[trigger] fam(t) implies t.len() > 0 && t[0] != ']' && t[0] != ',' by {
        let x = choose|x: ExclusionWindow| exclusion_json(x) == t;
        let e = Seq::<char>::empty();
        let l1 = "{\"end_epoch\":"@;
        lemma_exclusion_parts(x, e);
        assert(exists|rest: Seq<char>| t + e == l1 + rest);
        let rest = choose|rest: Seq<char>| t + e == l1 + rest;
        assert(l1.len() > 0 && l1[0] == '{') by {
            reveal_strlit("{\"end_epoch\":");
        }
        assert((l1 + rest)[0] == l1[0]);
        assert(t =~= t + e);
    }
}

#[verifier::spinoff_prover]
proof fn lemma_inclusion_family()
    ensures
        self_delimiting(|t: Seq<char>| inclusion_token(t), ']'),
{
    let fam = |t: Seq<char>| inclusion_token(t);
    assert forall|t: Seq<char>, u: Seq<char>, s1: Seq<char>, s2: Seq<char>|
        fam(t) && fam(u) && t.add(s1) == u.add(s2) implies t == u && s1 == s2 by {
        let x = choose|x: InclusionRule| inclusion_json(x) == t;
        let y = choose|y: InclusionRule| inclusion_json(y) == u;
        lemma_inclusion_unique(x, y, s1, s2);
    }
    assert forall|t: Seq<char>| #[trigger] fam(t) implies t.len() > 0 && t[0] != ']' && t[0] != ',' by {
        let x = choose|x: InclusionRule| inclusion_json(x) == t;
        let e = Seq::<char>::empty();
        lemma_inclusion_prefix(x, e);
        assert(inclusion_head(x).len() > 0 && inclusion_head(x)[0] == '{') by {
            reveal_strlit("{\"days_of_month\":");
            reveal_strlit("{\"days_of_week\":");
            reveal_strlit("{\"hms\":");
        }
        assert((t + e)[0] == inclusion_head(x)[0]);
        assert(t =~= t + e);
    }
}

/// A holiday set's member ends with its array and gives back the set.
proof fn lemma_member_unique(
    e1: (Seq<char>, Seq<Seq<char>>),
    e2: (Seq<char>, Seq<Seq<char>>),
    r1: Seq<char>,
    r2: Seq<char>,
)
    requires
        holiday_member_json(e1) + r1 == holiday_member_json(e2) + r2,
    ensures
        e1 == e2,
        r1 == r2,
{
    let colon = ":"@;
    let a = colon + (string_array_json(e1.1) + r1);
    let b = colon + (string_array_json(e2.1) + r2);
    assert(holiday_member_json(e1) + r1 =~= json_quote(e1.0) + a);
    assert(holiday_member_json(e2) + r2 =~= json_quote(e2.0) + b);
    lemma_quote_unique(e1.0, e2.0, a, b);
    lemma_drop_prefix(colon, string_array_json(e1.1) + r1, string_array_json(e2.1) + r2);
    lemma_string_array_unique(e1.1, e2.1, r1, r2);
}

proof fn lemma_member_family()
    ensures
        self_delimiting(|t: Seq<char>| member_token(t), '}'),
{
    let fam = |t: Seq<char>| member_token(t);
    assert forall|t: Seq<char>, u: Seq<char>, s1: Seq<char>, s2: Seq<char>|
        fam(t) && fam(u) && t.add(s1) == u.add(s2) implies t == u && s1 == s2 by {
        let x = choose|x: (Seq<char>, Seq<Seq<char>>)| holiday_member_json(x) == t;
        let y = choose|y: (Seq<char>, Seq<Seq<char>>)| holiday_member_json(y) == u;
        lemma_member_unique(x, y, s1, s2);
    }
    assert forall|t: Seq<char>| #[trigger] fam(t) implies t.len() > 0 && t[0] != '}' && t[0] != ',' by {
        let x = choose|x: (Seq<char>, Seq<Seq<char>>)| holiday_member_json(x) == t;
        lemma_quote_first(x.0);
        assert(t[0] == json_quote(x.0)[0]);
    }
}

/// The exclusion windows' array ends at its bracket and gives back the windows.
pub proof fn lemma_exclusions_unique(a: Seq<ExclusionWindow>, b: Seq<ExclusionWindow>, r1: Seq<char>, r2: Seq<char>)
    requires
        exclusions_json(a) + r1 == exclusions_json(b) + r2,
    ensures
        a.len() == b.len(),
        forall|i: int| 0 <= i < a.len() ==> same_exclusion(#[trigger] a[i], b[i]),
        r1 == r2,
{
    let ts = a.map_values(|x: ExclusionWindow| exclusion_json(x));
    let us = b.map_values(|x: ExclusionWindow| exclusion_json(x));
    let fam = |t: Seq<char>| exclusion_token(t);
    lemma_exclusion_family();
    assert forall|i: int| 0 <= i < ts.len() implies fam(#[trigger] ts[i]) by {
        assert(exclusion_json(a[i]) == ts[i]);
    }
    assert forall|i: int| 0 <= i < us.len() implies fam(#[trigger] us[i]) by {
        assert(exclusion_json(b[i]) == us[i]);
    }
    lemma_array_bracketed(ts);
    lemma_array_bracketed(us);
    lemma_bracketed_unique(fam, '[', ']', ts, us, r1, r2);
    assert forall|i: int| 0 <= i < a.len() implies same_exclusion(#[trigger] a[i], b[i]) by {
        assert(ts[i] == us[i]);
        assert(exclusion_json(a[i]) + Seq::<char>::empty() =~= exclusion_json(b[i]) + Seq::<char>::empty());
        lemma_exclusion_unique(a[i], b[i], Seq::<char>::empty(), Seq::<char>::empty());
    }
}

/// The inclusion rules' array ends at its bracket and gives back the rules.
pub proof fn lemma_inclusions_unique(a: Seq<InclusionRule>, b: Seq<InclusionRule>, r1: Seq<char>, r2: Seq<char>)
    requires
        inclusions_json(a) + r1 == inclusions_json(b) + r2,
    ensures
        a.len() == b.len(),
        forall|i: int| 0 <= i < a.len() ==> same_inclusion(#[trigger] a[i], b[i]),
        r1 == r2,
{
    let ts = a.map_values(|x: InclusionRule| inclusion_json(x));
    let us = b.map_values(|x: InclusionRule| inclusion_json(x));
    let fam = |t: Seq<char>| inclusion_token(t);
    lemma_inclusion_family();
    assert forall|i: int| 0 <= i < ts.len() implies fam(#[trigger] ts[i]) by {
        assert(inclusion_json(a[i]) == ts[i]);
    }
    assert forall|i: int| 0 <= i < us.len() implies fam(#[trigger] us[i]) by {
        assert(inclusion_json(b[i]) == us[i]);
    }
    lemma_array_bracketed(ts);
    lemma_array_bracketed(us);
    lemma_bracketed_unique(fam, '[', ']', ts, us, r1, r2);
    assert forall|i: int| 0 <= i < a.len() implies same_inclusion(#[trigger] a[i], b[i]) by {
        assert(ts[i] == us[i]);
        assert(inclusion_json(a[i]) + Seq::<char>::empty() =~= inclusion_json(b[i]) + Seq::<char>::empty());
        lemma_inclusion_unique(a[i], b[i], Seq::<char>::empty(), Seq::<char>::empty());
    }
}

/// The holiday sets' object ends at its brace and gives back the sets.
pub proof fn lemma_holidays_unique(
    a: Seq<(Seq<char>, Seq<Seq<char>>)>,
    b: Seq<(Seq<char>, Seq<Seq<char>>)>,
    r1: Seq<char>,
    r2: Seq<char>,
)
    requires
        holidays_json(a) + r1 == holidays_json(b) + r2,
    ensures
        a == b,
        r1 == r2,
{
    let f = |e: (Seq<char>, Seq<Seq<char>>)| holiday_member_json(e);
    let ts = a.map_values(f);
    let us = b.map_values(f);
    let fam = |t: Seq<char>| member_token(t);
    lemma_member_family();
    assert forall|i: int| 0 <= i < ts.len() implies fam(#[trigger] ts[i]) by {
        assert(holiday_member_json(a[i]) == ts[i]);
    }
    assert forall|i: int| 0 <= i < us.len() implies fam(#[trigger] us[i]) by {
        assert(holiday_member_json(b[i]) == us[i]);
    }
    assert(holidays_json(a) =~= bracketed('{', ts, '}')) by {
        reveal_strlit("{");
        reveal_strlit("}");
    }
    assert(holidays_json(b) =~= bracketed('{', us, '}')) by {
        reveal_strlit("{");
        reveal_strlit("}");
    }
    lemma_bracketed_unique(fam, '{', '}', ts, us, r1, r2);
    assert forall|i: int| 0 <= i < a.len() implies a[i] == b[i] by {
        assert(ts[i] == us[i]);
        assert(holiday_member_json(a[i]) + Seq::<char>::empty() =~= holiday_member_json(b[i]) + Seq::<char>::empty());
        lemma_member_unique(a[i], b[i], Seq::<char>::empty(), Seq::<char>::empty());
    }
    assert(a =~= b);
}

/// The fold policy's literal gives back the policy.
#[verifier::spinoff_prover]
proof fn lemma_fold_unique(f: FoldPolicy, g: FoldPolicy, r1: Seq<char>, r2: Seq<char>)
    requires
        fold_json(f) + r1 == fold_json(g) + r2,
    ensures
        f == g,
        r1 == r2,
{
    reveal_strlit("\"early\"");
    reveal_strlit("\"late\"");
    reveal_strlit("\"both\"");
    let s = fold_json(f) + r1;
    assert(s[1] == fold_json(f)[1]);
    assert(s[1] == fold_json(g)[1]);
    lemma_drop_prefix(fold_json(f), r1, r2);
}

/// The gap policy's literal gives back the policy.
#[verifier::spinoff_prover]
proof fn lemma_gap_unique(f: GapPolicy, g: GapPolicy, r1: Seq<char>, r2: Seq<char>)
    requires
        gap_json(f) + r1 == gap_json(g) + r2,
    ensures
        f == g,
        r1 == r2,
{
    reveal_strlit("\"skip\"");
    reveal_strlit("\"shift_forward\"");
    let s = gap_json(f) + r1;
    assert(s[2] == gap_json(f)[2]);
    assert(s[2] == gap_json(g)[2]);
    lemma_drop_prefix(gap_json(f), r1, r2);
}

// ------------------------------------------------------------ the rule

/// Two rules agree on every field (strings and lists by their contents).
pub open spec fn same_rule(a: RuleVersion, b: RuleVersion) -> bool {
    &&& a.rule_id@ == b.rule_id@
    &&& a.version == b.version
    &&& a.timezone@ == b.timezone@
    &&& a.start_epoch == b.start_epoch
    &&& a.end_epoch == b.end_epoch
    &&& a.holidays@ == b.holidays@
    &&& a.inclusions@.len() == b.inclusions@.len()
    &&& forall|i: int| 0 <= i < a.inclusions@.len() ==> same_inclusion(#[trigger] a.inclusions@[i], b.inclusions@[i])
    &&& a.exclusions@.len() == b.exclusions@.len()
    &&& forall|i: int| 0 <= i < a.exclusions@.len() ==> same_exclusion(#[trigger] a.exclusions@[i], b.exclusions@[i])
    &&& a.min_gap_seconds == b.min_gap_seconds
    &&& a.gap_policy == b.gap_policy
    &&& a.fold_policy == b.fold_policy
}

/// The rule's members from `gap_policy` on, before `t`.
spec fn head_rest(r: RuleVersion, t: Seq<char>) -> Seq<char> {
    ",\"gap_policy\":"@ + (gap_json(r.gap_policy) + (",\"holidays\":"@ + (holidays_json(r.holidays@) + t)))
}

/// The rule's members from `start_epoch` on, before `t`.
spec fn tail_from_start(r: RuleVersion, t: Seq<char>) -> Seq<char> {
    ",\"start_epoch\":"@ + (dec_text(r.start_epoch as int) + (",\"timezone\":"@ + (json_quote(r.timezone@)
        + (",\"version\":"@ + (dec_text(r.version as int) + ("}"@ + t))))))
}

/// The rule's members from `rule_id` on, before `t`.
spec fn tail_from_id(r: RuleVersion, t: Seq<char>) -> Seq<char> {
    ",\"rule_id\":"@ + (json_quote(r.rule_id@) + tail_from_start(r, t))
}

#[verifier::spinoff_prover]
#[verifier::rlimit(40)]
proof fn lemma_head_parts(r: RuleVersion, t: Seq<char>)
    ensures
        rule_json_head(r) + t == "{\"end_epoch\":"@ + (dec_text(r.end_epoch as int) + (",\"exclusions\":"@ + (
        exclusions_json(r.exclusions@) + (",\"fold_policy\":"@ + (fold_json(r.fold_policy) + head_rest(r, t)))))),
{
    assert(rule_json_head(r) + t =~= "{\"end_epoch\":"@ + (dec_text(r.end_epoch as int) + (
    ",\"exclusions\":"@ + (exclusions_json(r.exclusions@) + (",\"fold_policy\":"@ + (fold_json(
        r.fold_policy,
    ) + head_rest(r, t)))))));
}

#[verifier::spinoff_prover]
#[verifier::rlimit(40)]
proof fn lemma_tail_parts(r: RuleVersion, t: Seq<char>)
    ensures
        rule_json_tail(r) + t == ",\"inclusions\":"@ + (inclusions_json(r.inclusions@) + (
        ",\"min_gap_seconds\":"@ + (dec_text(r.min_gap_seconds as int) + tail_from_id(r, t)))),
{
    assert(rule_json_tail(r) + t =~= ",\"inclusions\":"@ + (inclusions_json(r.inclusions@) + (
    ",\"min_gap_seconds\":"@ + (dec_text(r.min_gap_seconds as int) + tail_from_id(r, t)))));
}

#[verifier::spinoff_prover]
proof fn lemma_head_unique(a: RuleVersion, b: RuleVersion, r1: Seq<char>, r2: Seq<char>)
    requires
        rule_json_head(a) + (rule_json_tail(a) + r1) == rule_json_head(b) + (rule_json_tail(b) + r2),
    ensures
        a.end_epoch == b.end_epoch,
        a.exclusions@.len() == b.exclusions@.len(),
        forall|i: int| 0 <= i < a.exclusions@.len() ==> same_exclusion(#[trigger] a.exclusions@[i], b.exclusions@[i]),
        a.fold_policy == b.fold_policy,
        a.gap_policy == b.gap_policy,
        a.holidays@ == b.holidays@,
        rule_json_tail(a) + r1 == rule_json_tail(b) + r2,
{
    let ta = rule_json_tail(a) + r1;
    let tb = rule_json_tail(b) + r2;
    lemma_head_parts(a, ta);
    lemma_head_parts(b, tb);
    let l1 = "{\"end_epoch\":"@;
    let l2 = ",\"exclusions\":"@;
    let l3 = ",\"fold_policy\":"@;
    let l4 = ",\"gap_policy\":"@;
    let l5 = ",\"holidays\":"@;
    let a5 = holidays_json(a.holidays@) + ta;
    let a4 = l5 + a5;
    let a3 = gap_json(a.gap_policy) + a4;
    let a2 = l4 + a3;
    let a1 = fold_json(a.fold_policy) + a2;
    let a0 = l3 + a1;
    let am = exclusions_json(a.exclusions@) + a0;
    let an = l2 + am;
    let b5 = holidays_json(b.holidays@) + tb;
    let b4 = l5 + b5;
    let b3 = gap_json(b.gap_policy) + b4;
    let b2 = l4 + b3;
    let b1 = fold_json(b.fold_policy) + b2;
    let b0 = l3 + b1;
    let bm = exclusions_json(b.exclusions@) + b0;
    let bn = l2 + bm;
    lemma_drop_prefix(l1, dec_text(a.end_epoch as int) + an, dec_text(b.end_epoch as int) + bn);
    assert(an.len() > 0 && bn.len() > 0 && an[0] == ',' && bn[0] == ',') by {
        reveal_strlit(",\"exclusions\":");
    }
    lemma_dec_unique(a.end_epoch as int, b.end_epoch as int, an, bn);
    lemma_drop_prefix(l2, am, bm);
    lemma_exclusions_unique(a.exclusions@, b.exclusions@, a0, b0);
    lemma_drop_prefix(l3, a1, b1);
    lemma_fold_unique(a.fold_policy, b.fold_policy, a2, b2);
    lemma_drop_prefix(l4, a3, b3);
    lemma_gap_unique(a.gap_policy, b.gap_policy, a4, b4);
    lemma_drop_prefix(l5, a5, b5);
    lemma_holidays_unique(a.holidays@, b.holidays@, ta, tb);
}

#[verifier::spinoff_prover]
proof fn lemma_tail_unique(a: RuleVersion, b: RuleVersion, r1: Seq<char>, r2: Seq<char>)
    requires
        rule_json_tail(a) + r1 == rule_json_tail(b) + r2,
    ensures
        a.inclusions@.len() == b.inclusions@.len(),
        forall|i: int| 0 <= i < a.inclusions@.len() ==> same_inclusion(#[trigger] a.inclusions@[i], b.inclusions@[i]),
        a.min_gap_seconds == b.min_gap_seconds,
        a.rule_id@ == b.rule_id@,
        a.start_epoch == b.start_epoch,
        a.timezone@ == b.timezone@,
        a.version == b.version,
        r1 == r2,
{
    lemma_tail_parts(a, r1);
    lemma_tail_parts(b, r2);
    let l6 = ",\"inclusions\":"@;
    let l7 = ",\"min_gap_seconds\":"@;
    let l8 = ",\"rule_id\":"@;
    let l9 = ",\"start_epoch\":"@;
    let l10 = ",\"timezone\":"@;
    let l11 = ",\"version\":"@;
    let close = "}"@;
    let c1 = close + r1;
    let c2 = close + r2;
    let a9 = dec_text(a.version as int) + c1;
    let a8 = l11 + a9;
    let a7 = json_quote(a.timezone@) + a8;
    let a6 = l10 + a7;
    let a5 = dec_text(a.start_epoch as int) + a6;
    let a4 = l9 + a5;
    let a3 = json_quote(a.rule_id@) + a4;
    let a2 = l8 + a3;
    let a1 = dec_text(a.min_gap_seconds as int) + a2;
    let a0 = l7 + a1;
    let b9 = dec_text(b.version as int) + c2;
    let b8 = l11 + b9;
    let b7 = json_quote(b.timezone@) + b8;
    let b6 = l10 + b7;
    let b5 = dec_text(b.start_epoch as int) + b6;
    let b4 = l9 + b5;
    let b3 = json_quote(b.rule_id@) + b4;
    let b2 = l8 + b3;
    let b1 = dec_text(b.min_gap_seconds as int) + b2;
    let b0 = l7 + b1;
    lemma_drop_prefix(l6, inclusions_json(a.inclusions@) + a0, inclusions_json(b.inclusions@) + b0);
    lemma_inclusions_unique(a.inclusions@, b.inclusions@, a0, b0);
    lemma_drop_prefix(l7, a1, b1);
    assert(a2.len() > 0 && b2.len() > 0 && a2[0] == ',' && b2[0] == ',') by {
        reveal_strlit(",\"rule_id\":");
    }
    lemma_dec_unique(a.min_gap_seconds as int, b.min_gap_seconds as int, a2, b2);
    lemma_drop_prefix(l8, a3, b3);
    lemma_quote_unique(a.rule_id@, b.rule_id@, a4, b4);
    lemma_drop_prefix(l9, a5, b5);
    assert(a6.len() > 0 && b6.len() > 0 && a6[0] == ',' && b6[0] == ',') by {
        reveal_strlit(",\"timezone\":");
    }
    lemma_dec_unique(a.start_epoch as int, b.start_epoch as int, a6, b6);
    lemma_drop_prefix(l10, a7, b7);
    lemma_quote_unique(a.timezone@, b.timezone@, a8, b8);
    lemma_drop_prefix(l11, a9, b9);
    assert(c1.len() > 0 && c2.len() > 0 && c1[0] == '}' && c2[0] == '}') by {
        reveal_strlit("}");
    }
    lemma_dec_unique(a.version as int, b.version as int, c1, c2);
    lemma_drop_prefix(close, r1, r2);
}

/// A rule's canonical JSON ends at its closing brace: the rule (field by
/// field) and what follows are determined by the text.
pub proof fn lemma_rule_json_unique(a: RuleVersion, b: RuleVersion, r1: Seq<char>, r2: Seq<char>)
    requires
        rule_json(a) + r1 == rule_json(b) + r2,
    ensures
        same_rule(a, b),
        r1 == r2,
{
    assert(rule_json(a) + r1 =~= rule_json_head(a) + (rule_json_tail(a) + r1));
    assert(rule_json(b) + r2 =~= rule_json_head(b) + (rule_json_tail(b) + r2));
    lemma_head_unique(a, b, r1, r2);
    lemma_tail_unique(a, b, r1, r2);
}

/// The canonical JSON of a rule determines the rule: two rules with the same
/// canonical text agree on every field. The fingerprint hashes exactly this
/// text, so a rule changed in any field gives the hash another input.
pub proof fn lemma_rule_json_injective(a: RuleVersion, b: RuleVersion)
    requires
        rule_json(a) == rule_json(b),
    ensures
        same_rule(a, b),
{
    let e = Seq::<char>::empty();
    assert(rule_json(a) + e =~= rule_json(b) + e);
    lemma_rule_json_unique(a, b, e, e);
}

// ------------------------------------------------------------ sessions

/// An array of `i64` numbers ends at its bracket and gives back its numbers.
pub proof fn lemma_i64_array_unique(a: Seq<i64>, b: Seq<i64>, r1: Seq<char>, r2: Seq<char>)
    requires
        i64_array_json(a) + r1 == i64_array_json(b) + r2,
    ensures
        a == b,
        r1 == r2,
{
    let f = |d: i64| dec_text(d as int);
    let ts = a.map_values(f);
    let us = b.map_values(f);
    let fam = |t: Seq<char>| number_shaped(t);
    lemma_number_family(']');
    assert forall|i: int| 0 <= i < ts.len() implies fam(#[trigger] ts[i]) by {
        lemma_dec_shape(a[i] as int);
    }
    assert forall|i: int| 0 <= i < us.len() implies fam(#[trigger] us[i]) by {
        lemma_dec_shape(b[i] as int);
    }
    lemma_array_bracketed(ts);
    lemma_array_bracketed(us);
    lemma_bracketed_unique(fam, '[', ']', ts, us, r1, r2);
    assert forall|i: int| 0 <= i < a.len() implies a[i] == b[i] by {
        assert(ts[i] == us[i]);
        lemma_dec_injective(a[i] as int, b[i] as int);
    }
    assert(a =~= b);
}

/// An optional number (`null` or the number) before a non-digit gives back
/// the option and what follows.
pub proof fn lemma_opt_int_unique(a: Option<i64>, b: Option<i64>, r1: Seq<char>, r2: Seq<char>)
    requires
        opt_int_json(a) + r1 == opt_int_json(b) + r2,
        r1.len() > 0 && !is_digit(r1[0]) && r1[0] != '-',
        r2.len() > 0 && !is_digit(r2[0]) && r2[0] != '-',
    ensures
        a == b,
        r1 == r2,
{
    let null = "null"@;
    assert(null.len() == 4 && null[0] == 'n') by {
        reveal_strlit("null");
    }
    match (a, b) {
        (Some(x), Some(y)) => {
            lemma_dec_unique(x as int, y as int, r1, r2);
        },
        (None, None) => {
            lemma_drop_prefix(null, r1, r2);
        },
        (Some(x), None) => {
            lemma_dec_shape(x as int);
            assert((dec_text(x as int) + r1)[0] == dec_text(x as int)[0]);
            assert((null + r2)[0] == 'n');
        },
        (None, Some(y)) => {
            lemma_dec_shape(y as int);
            assert((dec_text(y as int) + r2)[0] == dec_text(y as int)[0]);
            assert((null + r1)[0] == 'n');
        },
    }
}

/// An optional string (`null` or its literal) gives back the option and what follows.
pub proof fn lemma_opt_str_unique(a: Option<Seq<char>>, b: Option<Seq<char>>, r1: Seq<char>, r2: Seq<char>)
    requires
        opt_str_json(a) + r1 == opt_str_json(b) + r2,
    ensures
        a == b,
        r1 == r2,
{
    let null = "null"@;
    assert(null.len() == 4 && null[0] == 'n') by {
        reveal_strlit("null");
    }
    match (a, b) {
        (Some(x), Some(y)) => {
            lemma_quote_unique(x, y, r1, r2);
        },
        (None, None) => {
            lemma_drop_prefix(null, r1, r2);
        },
        (Some(x), None) => {
            lemma_quote_first(x);
            assert((json_quote(x) + r1)[0] == '"');
            assert((null + r2)[0] == 'n');
        },
        (None, Some(y)) => {
            lemma_quote_first(y);
            assert((json_quote(y) + r2)[0] == '"');
            assert((null + r1)[0] == 'n');
        },
    }
}

proof fn lemma_direction_text_injective(d: Direction, e: Direction)
    requires
        direction_text(d) == direction_text(e),
    ensures
        d == e,
{
    reveal_strlit("forward");
    reveal_strlit("backward");
    assert(direction_text(Direction::Forward).len() == 7);
    assert(direction_text(Direction::Backward).len() == 8);
    assert(direction_text(d).len() == direction_text(e).len());
}

/// Two page queries agree on every field.
pub open spec fn same_query(p: QueryRecord, q: QueryRecord) -> bool {
    &&& p.direction == q.direction
    &&& p.limit == q.limit
    &&& opt_text(p.cursor) == opt_text(q.cursor)
    &&& p.returned_epochs@ == q.returned_epochs@
    &&& opt_text(p.next_cursor) == opt_text(q.next_cursor)
    &&& p.anchor_epoch == q.anchor_epoch
}

/// A query's members from `limit` on, given their written values, before `r`.
spec fn query_rest_of(lim: Seq<char>, next: Seq<char>, epochs: Seq<char>, r: Seq<char>) -> Seq<char> {
    ",\"limit\":"@ + (lim + (",\"next_cursor\":"@ + (next + (",\"returned_epochs\":"@ + (epochs + ("}"@ + r))))))
}

/// A query's members from `limit` on, before `r`.
spec fn query_rest(q: QueryRecord, r: Seq<char>) -> Seq<char> {
    query_rest_of(
        dec_text(q.limit as int),
        opt_str_json(opt_text(q.next_cursor)),
        i64_array_json(q.returned_epochs@),
        r,
    )
}

/// A query's object read member by member, its written values held apart.
proof fn lemma_query_shape(
    anchor: Seq<char>,
    cursor: Seq<char>,
    dir: Seq<char>,
    lim: Seq<char>,
    next: Seq<char>,
    epochs: Seq<char>,
    r: Seq<char>,
)
    ensures
        "{\"anchor_epoch\":"@ + anchor + ",\"cursor\":"@ + cursor + ",\"direction\":"@ + dir + ",\"limit\":"@ + lim
            + ",\"next_cursor\":"@ + next + ",\"returned_epochs\":"@ + epochs + "}"@ + r == "{\"anchor_epoch\":"@ + (
        anchor + (",\"cursor\":"@ + (cursor + (",\"direction\":"@ + (dir + query_rest_of(lim, next, epochs, r)))))),
{
    assert("{\"anchor_epoch\":"@ + anchor + ",\"cursor\":"@ + cursor + ",\"direction\":"@ + dir + ",\"limit\":"@
        + lim + ",\"next_cursor\":"@ + next + ",\"returned_epochs\":"@ + epochs + "}"@ + r =~= "{\"anchor_epoch\":"@
        + (anchor + (",\"cursor\":"@ + (cursor + (",\"direction\":"@ + (dir + query_rest_of(lim, next, epochs, r)))))));
}

proof fn lemma_query_parts(q: QueryRecord, r: Seq<char>)
    ensures
        query_json(q) + r == "{\"anchor_epoch\":"@ + (opt_int_json(q.anchor_epoch) + (",\"cursor\":"@ + (
        opt_str_json(opt_text(q.cursor)) + (",\"direction\":"@ + (json_quote(direction_text(q.direction))
            + query_rest(q, r)))))),
{
    lemma_query_shape(
        opt_int_json(q.anchor_epoch),
        opt_str_json(opt_text(q.cursor)),
        json_quote(direction_text(q.direction)),
        dec_text(q.limit as int),
        opt_str_json(opt_text(q.next_cursor)),
        i64_array_json(q.returned_epochs@),
        r,
    );
}

/// A query's object ends at its brace and gives back the query.
#[verifier::spinoff_prover]
pub proof fn lemma_query_unique(p: QueryRecord, q: QueryRecord, r1: Seq<char>, r2: Seq<char>)
    requires
        query_json(p) + r1 == query_json(q) + r2,
    ensures
        same_query(p, q),
        r1 == r2,
{
    lemma_query_parts(p, r1);
    lemma_query_parts(q, r2);
    let l1 = "{\"anchor_epoch\":"@;
    let l2 = ",\"cursor\":"@;
    let l3 = ",\"direction\":"@;
    let l4 = ",\"limit\":"@;
    let l5 = ",\"next_cursor\":"@;
    let l6 = ",\"returned_epochs\":"@;
    let close = "}"@;
    let a7 = close + r1;
    let a6 = i64_array_json(p.returned_epochs@) + a7;
    let a5 = l6 + a6;
    let a4 = opt_str_json(opt_text(p.next_cursor)) + a5;
    let a3 = l5 + a4;
    let a2 = query_rest(p, r1);
    let a1 = json_quote(direction_text(p.direction)) + a2;
    let a0 = l3 + a1;
    let am = opt_str_json(opt_text(p.cursor)) + a0;
    let an = l2 + am;
    let b7 = close + r2;
    let b6 = i64_array_json(q.returned_epochs@) + b7;
    let b5 = l6 + b6;
    let b4 = opt_str_json(opt_text(q.next_cursor)) + b5;
    let b3 = l5 + b4;
    let b2 = query_rest(q, r2);
    let b1 = json_quote(direction_text(q.direction)) + b2;
    let b0 = l3 + b1;
    let bm = opt_str_json(opt_text(q.cursor)) + b0;
    let bn = l2 + bm;
    lemma_drop_prefix(l1, opt_int_json(p.anchor_epoch) + an, opt_int_json(q.anchor_epoch) + bn);
    assert(an.len() > 0 && bn.len() > 0 && an[0] == ',' && bn[0] == ',') by {
        reveal_strlit(",\"cursor\":");
    }
    lemma_opt_int_unique(p.anchor_epoch, q.anchor_epoch, an, bn);
    lemma_drop_prefix(l2, am, bm);
    lemma_opt_str_unique(opt_text(p.cursor), opt_text(q.cursor), a0, b0);
    lemma_drop_prefix(l3, a1, b1);
    lemma_quote_unique(direction_text(p.direction), direction_text(q.direction), a2, b2);
    lemma_direction_text_injective(p.direction, q.direction);
    lemma_drop_prefix(l4, dec_text(p.limit as int) + a3, dec_text(q.limit as int) + b3);
    assert(a3.len() > 0 && b3.len() > 0 && a3[0] == ',' && b3[0] == ',') by {
        reveal_strlit(",\"next_cursor\":");
    }
    lemma_dec_unique(p.limit as int, q.limit as int, a3, b3);
    lemma_drop_prefix(l5, a4, b4);
    lemma_opt_str_unique(opt_text(p.next_cursor), opt_text(q.next_cursor), a5, b5);
    lemma_drop_prefix(l6, a6, b6);
    lemma_i64_array_unique(p.returned_epochs@, q.returned_epochs@, a7, b7);
    lemma_drop_prefix(close, r1, r2);
}

/// A query's object token.
pub open spec fn query_token(t: Seq<char>) -> bool {
    exists|q: QueryRecord| query_json(q) == t
}

proof fn lemma_query_family()
    ensures
        self_delimiting(|t: Seq<char>| query_token(t), ']'),
{
    let fam = |t: Seq<char>| query_token(t);
    assert forall|t: Seq<char>, u: Seq<char>, s1: Seq<char>, s2: Seq<char>|
        fam(t) && fam(u) && t.add(s1) == u.add(s2) implies t == u && s1 == s2 by {
        let x = choose|x: QueryRecord| query_json(x) == t;
        let y = choose|y: QueryRecord| query_json(y) == u;
        lemma_query_unique(x, y, s1, s2);
    }
    assert forall|t: Seq<char>| #[trigger] fam(t) implies t.len() > 0 && t[0] != ']' && t[0] != ',' by {
        let x = choose|x: QueryRecord| query_json(x) == t;
        let e = Seq::<char>::empty();
        let l1 = "{\"anchor_epoch\":"@;
        lemma_query_parts(x, e);
        assert(exists|rest: Seq<char>| t + e == l1 + rest);
        let rest = choose|rest: Seq<char>| t + e == l1 + rest;
        assert(l1.len() > 0 && l1[0] == '{') by {
            reveal_strlit("{\"anchor_epoch\":");
        }
        assert((l1 + rest)[0] == l1[0]);
        assert(t =~= t + e);
    }
}

/// The queries' array ends at its bracket and gives back the queries.
pub proof fn lemma_queries_unique(a: Seq<QueryRecord>, b: Seq<QueryRecord>, r1: Seq<char>, r2: Seq<char>)
    requires
        queries_json(a) + r1 == queries_json(b) + r2,
    ensures
        a.len() == b.len(),
        forall|i: int| 0 <= i < a.len() ==> same_query(#[trigger] a[i], b[i]),
        r1 == r2,
{
    let ts = a.map_values(|q: QueryRecord| query_json(q));
    let us = b.map_values(|q: QueryRecord| query_json(q));
    let fam = |t: Seq<char>| query_token(t);
    lemma_query_family();
    assert forall|i: int| 0 <= i < ts.len() implies fam(#[trigger] ts[i]) by {
        assert(query_json(a[i]) == ts[i]);
    }
    assert forall|i: int| 0 <= i < us.len() implies fam(#[trigger] us[i]) by {
        assert(query_json(b[i]) == us[i]);
    }
    lemma_array_bracketed(ts);
    lemma_array_bracketed(us);
    lemma_bracketed_unique(fam, '[', ']', ts, us, r1, r2);
    assert forall|i: int| 0 <= i < a.len() implies same_query(#[trigger] a[i], b[i]) by {
        assert(ts[i] == us[i]);
        assert(query_json(a[i]) + Seq::<char>::empty() =~= query_json(b[i]) + Seq::<char>::empty());
        lemma_query_unique(a[i], b[i], Seq::<char>::empty(), Seq::<char>::empty());
    }
}

/// Two sessions agree on every field, their rule snapshots and each of their
/// queries included.
pub open spec fn same_session(a: SessionRecord, b: SessionRecord) -> bool {
    &&& a.session_id@ == b.session_id@
    &&& a.rule_id@ == b.rule_id@
    &&& a.rule_fingerprint@ == b.rule_fingerprint@
    &&& a.tzdb@ == b.tzdb@
    &&& same_rule(a.rule_snapshot, b.rule_snapshot)
    &&& a.created_unix == b.created_unix
    &&& a.queries@.len() == b.queries@.len()
    &&& forall|i: int| 0 <= i < a.queries@.len() ==> same_query(#[trigger] a.queries@[i], b.queries@[i])
}

/// The last members of a session's object, from `rule_snapshot` on, given
/// their written values.
spec fn session_tail_of(rj: Seq<char>, sid: Seq<char>, tz: Seq<char>) -> Seq<char> {
    ",\"rule_snapshot\":"@ + (rj + (",\"session_id\":"@ + (sid + (",\"tzdb\":"@ + (tz + "}"@)))))
}

/// A session's object read member by member, its written values held apart.
proof fn lemma_session_shape(
    c: Seq<char>,
    q: Seq<char>,
    fp: Seq<char>,
    rid: Seq<char>,
    rj: Seq<char>,
    sid: Seq<char>,
    tz: Seq<char>,
)
    ensures
        "{\"created_unix\":"@ + c + ",\"queries\":"@ + q + ",\"rule_fingerprint\":"@ + fp + ",\"rule_id\":"@ + rid
            + ",\"rule_snapshot\":"@ + rj + ",\"session_id\":"@ + sid + ",\"tzdb\":"@ + tz + "}"@
            == "{\"created_unix\":"@ + (c + (",\"queries\":"@ + (q + (",\"rule_fingerprint\":"@ + (fp + (
        ",\"rule_id\":"@ + (rid + session_tail_of(rj, sid, tz)))))))),
{
    assert("{\"created_unix\":"@ + c + ",\"queries\":"@ + q + ",\"rule_fingerprint\":"@ + fp + ",\"rule_id\":"@
        + rid + ",\"rule_snapshot\":"@ + rj + ",\"session_id\":"@ + sid + ",\"tzdb\":"@ + tz + "}"@
        =~= "{\"created_unix\":"@ + (c + (",\"queries\":"@ + (q + (",\"rule_fingerprint\":"@ + (fp + (
    ",\"rule_id\":"@ + (rid + session_tail_of(rj, sid, tz)))))))));
}

/// The canonical JSON of a session determines the session: two sessions
/// with the same canonical text agree on every field, down to each query's
/// anchor, cursors and returned instants and the rule snapshot. The export
/// digest hashes exactly this text, so an envelope whose session differs
/// from the exported one gives the digest check another input.
#[verifier::spinoff_prover]
pub proof fn lemma_session_json_injective(a: SessionRecord, b: SessionRecord)
    requires
        session_json(a) == session_json(b),
    ensures
        same_session(a, b),
{
    let rja = rule_json(a.rule_snapshot);
    let rjb = rule_json(b.rule_snapshot);
    lemma_session_shape(
        dec_text(a.created_unix as int),
        queries_json(a.queries@),
        json_quote(a.rule_fingerprint@),
        json_quote(a.rule_id@),
        rja,
        json_quote(a.session_id@),
        json_quote(a.tzdb@),
    );
    lemma_session_shape(
        dec_text(b.created_unix as int),
        queries_json(b.queries@),
        json_quote(b.rule_fingerprint@),
        json_quote(b.rule_id@),
        rjb,
        json_quote(b.session_id@),
        json_quote(b.tzdb@),
    );
    let l1 = "{\"created_unix\":"@;
    let l2 = ",\"queries\":"@;
    let l3 = ",\"rule_fingerprint\":"@;
    let l4 = ",\"rule_id\":"@;
    let l5 = ",\"rule_snapshot\":"@;
    let l6 = ",\"session_id\":"@;
    let l7 = ",\"tzdb\":"@;
    let close = "}"@;
    let a8 = json_quote(a.tzdb@) + close;
    let a7 = l7 + a8;
    let a6 = json_quote(a.session_id@) + a7;
    let a5 = l6 + a6;
    let a4 = rja + a5;
    let a3 = session_tail_of(rja, json_quote(a.session_id@), json_quote(a.tzdb@));
    let a2 = json_quote(a.rule_id@) + a3;
    let a1 = l4 + a2;
    let a0 = l3 + (json_quote(a.rule_fingerprint@) + a1);
    let am = queries_json(a.queries@) + a0;
    let an = l2 + am;
    let b8 = json_quote(b.tzdb@) + close;
    let b7 = l7 + b8;
    let b6 = json_quote(b.session_id@) + b7;
    let b5 = l6 + b6;
    let b4 = rjb + b5;
    let b3 = session_tail_of(rjb, json_quote(b.session_id@), json_quote(b.tzdb@));
    let b2 = json_quote(b.rule_id@) + b3;
    let b1 = l4 + b2;
    let b0 = l3 + (json_quote(b.rule_fingerprint@) + b1);
    let bm = queries_json(b.queries@) + b0;
    let bn = l2 + bm;
    lemma_drop_prefix(l1, dec_text(a.created_unix as int) + an, dec_text(b.created_unix as int) + bn);
    assert(an.len() > 0 && bn.len() > 0 && an[0] == ',' && bn[0] == ',') by {
        reveal_strlit(",\"queries\":");
    }
    lemma_dec_unique(a.created_unix as int, b.created_unix as int, an, bn);
    lemma_drop_prefix(l2, am, bm);
    lemma_queries_unique(a.queries@, b.queries@, a0, b0);
    lemma_drop_prefix(l3, json_quote(a.rule_fingerprint@) + a1, json_quote(b.rule_fingerprint@) + b1);
    lemma_quote_unique(a.rule_fingerprint@, b.rule_fingerprint@, a1, b1);
    lemma_drop_prefix(l4, a2, b2);
    lemma_quote_unique(a.rule_id@, b.rule_id@, a3, b3);
    lemma_drop_prefix(l5, a4, b4);
    lemma_rule_json_unique(a.rule_snapshot, b.rule_snapshot, a5, b5);
    lemma_drop_prefix(l6, a6, b6);
    lemma_quote_unique(a.session_id@, b.session_id@, a7, b7);
    lemma_drop_prefix(l7, a8, b8);
    lemma_quote_unique(a.tzdb@, b.tzdb@, close, close);
}

} // verus!
