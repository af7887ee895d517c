//! The persisted line format: one record per line, as a JSON object
//! `{"text": <string>, "spans": [{"start": <uint>, "end": <uint>}, ...]}`.
//!
//! The serializer emits exactly the canonical form given by [`record_json`]:
//! no extra whitespace, object keys in the order above, string escapes as
//! [`escape_char`] writes them, numbers in plain decimal.  The parser
//! accepts exactly that canonical form, in both directions: a line it
//! accepts is proved equal to the serialization of the record it returns,
//! and a line it rejects is the serialization of no well-formed record.

use crate::mark::spans_wf;
use crate::record::Record;
use crate::span::Span;
use vstd::prelude::*;
use vstd::string::{StrSliceExecFns, StringExecFns};

verus! {

/// The sixteen lowercase hexadecimal digit characters; decimal digits are
/// the first ten of them.
pub open spec fn hex_char(d: nat) -> char {
    if d == 0 {
        '0'
    } else if d == 1 {
        '1'
    } else if d == 2 {
        '2'
    } else if d == 3 {
        '3'
    } else if d == 4 {
        '4'
    } else if d == 5 {
        '5'
    } else if d == 6 {
        '6'
    } else if d == 7 {
        '7'
    } else if d == 8 {
        '8'
    } else if d == 9 {
        '9'
    } else if d == 10 {
        'a'
    } else if d == 11 {
        'b'
    } else if d == 12 {
        'c'
    } else if d == 13 {
        'd'
    } else if d == 14 {
        'e'
    } else {
        'f'
    }
}

/// The decimal digits of `n`, most significant first, with no sign and no
/// leading zero.
pub open spec fn digits(n: nat) -> Seq<char>
    decreases n,
{
    if n < 10 {
        seq![hex_char(n)]
    } else {
        digits(n / 10) + seq![hex_char(n % 10)]
    }
}

/// How one character is written inside a JSON string: quote and backslash
/// escaped, the five control characters with short escapes written so,
/// any other control character as a four-digit escape, everything else
/// as itself.
pub open spec fn escape_char(c: char) -> Seq<char> {
    if c == '"' {
        "\\\""@
    } else if c == '\\' {
        "\\\\"@
    } else if c == '\u{8}' {
        "\\b"@
    } else if c == '\u{c}' {
        "\\f"@
    } else if c == '\n' {
        "\\n"@
    } else if c == '\r' {
        "\\r"@
    } else if c == '\t' {
        "\\t"@
    } else if (c as u32) < 0x20 {
        "\\u00"@ + seq![hex_char(((c as u32) / 16) as nat), hex_char(((c as u32) % 16) as nat)]
    } else {
        seq![c]
    }
}

/// A string's characters, each escaped.
pub open spec fn escape_string(s: Seq<char>) -> Seq<char>
    decreases s.len(),
{
    if s.len() == 0 {
        Seq::<char>::empty()
    } else {
        escape_char(s[0]) + escape_string(s.drop_first())
    }
}

/// A JSON string literal: the escaped characters between quotes.
pub open spec fn json_string(s: Seq<char>) -> Seq<char> {
    "\""@ + escape_string(s) + "\""@
}

/// One span as a JSON object.
pub open spec fn span_json(s: Span) -> Seq<char> {
    "{\"start\":"@ + digits(s.start as nat) + ",\"end\":"@ + digits(s.end as nat) + "}"@
}

/// The comma-separated span objects of a record's span list.
pub open spec fn spans_json_items(spans: Seq<Span>) -> Seq<char>
    decreases spans.len(),
{
    if spans.len() == 0 {
        Seq::<char>::empty()
    } else if spans.len() == 1 {
        span_json(spans[0])
    } else {
        spans_json_items(spans.drop_last()) + ","@ + span_json(spans.last())
    }
}

/// The canonical serialized form of a record.
pub open spec fn record_json(text: Seq<char>, spans: Seq<Span>) -> Seq<char> {
    "{\"text\":"@ + json_string(text) + ",\"spans\":["@ + spans_json_items(spans) + "]}"@
}

/// Escaping a string character by character appends one escape at a time.
pub proof fn lemma_escape_string_push(s: Seq<char>, c: char)
    ensures
        escape_string(s.push(c)) == escape_string(s) + escape_char(c),
    decreases s.len(),
{
    if s.len() == 0 {
        reveal_with_fuel(escape_string, 2);
        assert(s.push(c)[0] == c);
        assert(s.push(c).drop_first() =~= Seq::<char>::empty());
        assert(escape_string(s.push(c)) == escape_char(c) + escape_string(
            s.push(c).drop_first(),
        ));
        assert(escape_string(Seq::<char>::empty()) =~= Seq::<char>::empty());
        assert(escape_char(c) + Seq::<char>::empty() =~= escape_char(c));
        assert(Seq::<char>::empty() + escape_char(c) =~= escape_char(c));
    } else {
        assert(s.push(c)[0] == s[0]);
        assert(s.push(c).drop_first() =~= s.drop_first().push(c));
        lemma_escape_string_push(s.drop_first(), c);
        assert(escape_char(s[0]) + (escape_string(s.drop_first()) + escape_char(c)) =~= (
        escape_char(s[0]) + escape_string(s.drop_first())) + escape_char(c));
    }
}

/// A decimal digit character.
pub open spec fn is_digit(c: char) -> bool {
    48 <= c as u32 <= 57
}

/// The sequence `tok` stands in `l` at position `p`.
pub open spec fn token_at(l: Seq<char>, p: int, tok: Seq<char>) -> bool {
    0 <= p && p + tok.len() <= l.len() && l.subrange(p, p + tok.len() as int) == tok
}

/// The decimal digits of `v` stand in `l` at position `p`, ended by the
/// end of `l` or by something that is not a digit.
pub open spec fn number_at(l: Seq<char>, p: int, v: nat) -> bool {
    &&& token_at(l, p, digits(v))
    &&& (p + digits(v).len() == l.len() || !is_digit(l[p + digits(v).len() as int]))
}

/// The JSON string literal of `t` stands in `l` at position `p`.
pub open spec fn string_at(l: Seq<char>, p: int, t: Seq<char>) -> bool {
    token_at(l, p, json_string(t))
}

/// A token made of two parts stands at `p` exactly when the parts stand
/// one after the other.
proof fn lemma_token_at_concat(l: Seq<char>, p: int, a: Seq<char>, b: Seq<char>)
    ensures
        token_at(l, p, a + b) <==> (token_at(l, p, a) && token_at(l, p + a.len(), b)),
{
    if token_at(l, p, a + b) {
        assert(l.subrange(p, p + a.len() as int) =~= a);
        assert forall|i: int| 0 <= i < b.len() implies l.subrange(
            p + a.len(),
            p + a.len() + b.len() as int,
        )[i] == b[i] by {
            assert((a + b)[a.len() + i] == b[i]);
            assert(l.subrange(p, p + (a + b).len() as int)[a.len() + i] == (a + b)[a.len() + i]);
        }
        assert(l.subrange(p + a.len(), p + a.len() + b.len() as int) =~= b);
    }
    if token_at(l, p, a) && token_at(l, p + a.len(), b) {
        assert(l.subrange(p, p + (a + b).len() as int) =~= a + b);
    }
}

/// A decimal numeral is at least one character, made of digits, and does
/// not begin with a zero unless it is the single digit zero.
proof fn lemma_digits_shape(v: nat)
    ensures
        digits(v).len() >= 1,
        digits(v).len() == 1 <==> v < 10,
        forall|i: int| 0 <= i < digits(v).len() ==> is_digit(#[trigger] digits(v)[i]),
        1 <= v ==> digits(v)[0] != '0',
    decreases v,
{
    if v < 10 {
        assert(48 <= hex_char(v) as u32 <= 57);
        assert(1 <= v ==> hex_char(v) != '0');
    } else {
        assert(v / 10 >= 1) by (nonlinear_arith)
            requires
                v >= 10,
        ;
        lemma_digits_shape(v / 10);
        assert(48 <= hex_char(v % 10) as u32 <= 57);
        assert(forall|i: int|
            0 <= i < digits(v / 10).len() ==> #[trigger] digits(v)[i] == digits(v / 10)[i]);
        assert(digits(v)[digits(v).len() - 1] == hex_char(v % 10));
    }
}

/// Two equal numerals name the same number.
proof fn lemma_digits_injective(v1: nat, v2: nat)
    requires
        digits(v1) == digits(v2),
    ensures
        v1 == v2,
    decreases v1,
{
    lemma_digits_shape(v1);
    lemma_digits_shape(v2);
    if v1 < 10 && v2 < 10 {
        assert(digits(v1)[0] == hex_char(v1) && digits(v2)[0] == hex_char(v2));
        assert(v1 == v2);
    } else if v1 < 10 || v2 < 10 {
        assert(digits(v1).len() == digits(v2).len());
        assert(false);
    } else {
        assert(digits(v1).last() == hex_char(v1 % 10) && digits(v2).last() == hex_char(v2 % 10));
        assert(v1 % 10 == v2 % 10);
        assert(digits(v1).drop_last() =~= digits(v1 / 10));
        assert(digits(v2).drop_last() =~= digits(v2 / 10));
        assert(v1 / 10 < v1) by (nonlinear_arith)
            requires
                v1 >= 10,
        ;
        lemma_digits_injective(v1 / 10, v2 / 10);
        vstd::arithmetic::div_mod::lemma_fundamental_div_mod(v1 as int, 10);
        vstd::arithmetic::div_mod::lemma_fundamental_div_mod(v2 as int, 10);
    }
}

/// A numeral that extends another numeral by at least the digit `d` names
/// a number at least ten times as large, plus `d`.
proof fn lemma_digits_extend(v: nat, w: nat, tail: Seq<char>, d: nat)
    requires
        digits(v) == digits(w) + tail,
        tail.len() >= 1,
        tail[0] == hex_char(d),
        d < 10,
    ensures
        v >= 10 * w + d,
    decreases tail.len(),
{
    lemma_digits_shape(v);
    lemma_digits_shape(w);
    assert(digits(v).len() >= 2);
    assert(v >= 10) by {
        if v < 10 {
            assert(digits(v).len() == 1);
        }
    }
    vstd::arithmetic::div_mod::lemma_fundamental_div_mod(v as int, 10);
    assert(digits(v).drop_last() =~= digits(v / 10));
    if tail.len() == 1 {
        assert(digits(v).drop_last() =~= digits(w));
        lemma_digits_injective(v / 10, w);
        assert(digits(v).last() == hex_char(v % 10) && digits(v).last() == tail[0]);
        assert(v % 10 == d);
    } else {
        assert(digits(v).drop_last() =~= digits(w) + tail.drop_last());
        assert(tail.drop_last()[0] == tail[0]);
        lemma_digits_extend(v / 10, w, tail.drop_last(), d);
        assert(v >= 10 * (v / 10)) by (nonlinear_arith)
            requires
                v == 10 * (v / 10) + v % 10,
                v % 10 >= 0,
        ;
        assert(10 * (v / 10) >= 10 * (10 * w + d)) by (nonlinear_arith)
            requires
                v / 10 >= 10 * w + d,
        ;
        assert(10 * (10 * w + d) >= 10 * w + d) by (nonlinear_arith);
    }
}

/// Escaping a concatenation escapes the parts one after the other.
proof fn lemma_escape_concat(a: Seq<char>, b: Seq<char>)
    ensures
        escape_string(a + b) == escape_string(a) + escape_string(b),
    decreases a.len(),
{
    if a.len() == 0 {
        assert(a + b =~= b);
        assert(escape_string(a) =~= Seq::<char>::empty());
        assert(Seq::<char>::empty() + escape_string(b) =~= escape_string(b));
    } else {
        assert((a + b)[0] == a[0]);
        assert((a + b).drop_first() =~= a.drop_first() + b);
        lemma_escape_concat(a.drop_first(), b);
        assert(escape_char(a[0]) + (escape_string(a.drop_first()) + escape_string(b)) =~= (
        escape_char(a[0]) + escape_string(a.drop_first())) + escape_string(b));
    }
}

/// The shape of one escaped character: one, two or six characters, never
/// starting with a quote, starting with a backslash exactly when the
/// character needed escaping, and each escape identifying its character.
proof fn lemma_escape_char_shape(c: char)
    ensures
        1 <= escape_char(c).len(),
        escape_char(c).len() == 1 || escape_char(c).len() == 2 || escape_char(c).len() == 6,
        escape_char(c)[0] != '"',
        escape_char(c).len() == 1 ==> escape_char(c) == seq![c] && c != '"' && c != '\\' && (
        c as u32) >= 0x20,
        escape_char(c).len() > 1 ==> escape_char(c)[0] == '\\',
        escape_char(c).len() == 2 ==> ((escape_char(c)[1] == '"' && c == '"') || (escape_char(
            c,
        )[1] == '\\' && c == '\\') || (escape_char(c)[1] == 'b' && c == '\u{8}') || (escape_char(
            c,
        )[1] == 'f' && c == '\u{c}') || (escape_char(c)[1] == 'n' && c == '\n') || (escape_char(
            c,
        )[1] == 'r' && c == '\r') || (escape_char(c)[1] == 't' && c == '\t')),
        escape_char(c).len() == 6 ==> escape_char(c)[1] == 'u' && escape_char(c)[2] == '0'
            && escape_char(c)[3] == '0' && escape_char(c)[4] == hex_char(
            ((c as u32) / 16) as nat,
        ) && escape_char(c)[5] == hex_char(((c as u32) % 16) as nat) && (c as u32) < 0x20 && (
        c as u32) != 8 && (c as u32) != 9 && (c as u32) != 10 && (c as u32) != 12 && (c as u32)
            != 13,
{
    reveal_strlit("\\\"");
    reveal_strlit("\\\\");
    reveal_strlit("\\b");
    reveal_strlit("\\f");
    reveal_strlit("\\n");
    reveal_strlit("\\r");
    reveal_strlit("\\t");
    reveal_strlit("\\u00");
    if c != '"' && c != '\\' && c != '\u{8}' && c != '\u{c}' && c != '\n' && c != '\r' && c != '\t'
        && (c as u32) < 0x20 {
        vstd::utf8::char_u32_cast(c, c as u32);
        vstd::utf8::char_u32_cast('\u{8}', 8);
        vstd::utf8::char_u32_cast('\t', 9);
        vstd::utf8::char_u32_cast('\n', 10);
        vstd::utf8::char_u32_cast('\u{c}', 12);
        vstd::utf8::char_u32_cast('\r', 13);
    }
}

/// The characters that a JSON string literal standing at `p` puts in the
/// line: an opening quote, the escaped text, a closing quote.
proof fn lemma_string_at_chars(l: Seq<char>, p: int, t: Seq<char>)
    requires
        string_at(l, p, t),
    ensures
        p + 2 + escape_string(t).len() <= l.len(),
        l[p] == '"',
        forall|q: int|
            0 <= q < escape_string(t).len() ==> l[p + 1 + q] == #[trigger] escape_string(t)[q],
        l[p + 1 + escape_string(t).len()] == '"',
{
    reveal_strlit("\"");
    let json = json_string(t);
    let e = escape_string(t);
    assert(json.len() == e.len() + 2);
    assert(l.subrange(p, p + json.len() as int) == json);
    assert(l[p] == l.subrange(p, p + json.len() as int)[0]);
    assert(json[0] == ("\""@ + e)[0]);
    assert forall|q: int| 0 <= q < e.len() implies l[p + 1 + q] == e[q] by {
        assert(l[p + 1 + q] == l.subrange(p, p + json.len() as int)[1 + q]);
        assert(json[1 + q] == ("\""@ + e)[1 + q]);
    }
    assert(l[p + 1 + e.len()] == l.subrange(p, p + json.len() as int)[1 + e.len() as int]);
}

/// No two characters share an escape.
proof fn lemma_escape_char_injective(c1: char, c2: char)
    requires
        escape_char(c1) == escape_char(c2),
    ensures
        c1 == c2,
{
    lemma_escape_char_shape(c1);
    lemma_escape_char_shape(c2);
    if escape_char(c1).len() == 6 {
        let u1 = c1 as u32;
        let u2 = c2 as u32;
        assert(0 <= u1 % 16 < 16 && 0 <= u2 % 16 < 16) by (nonlinear_arith);
        assert(u1 / 16 < 16 && u2 / 16 < 16) by (nonlinear_arith)
            requires
                u1 < 0x20 && u2 < 0x20,
        ;
        lemma_hex_char_injective((u1 / 16) as nat, (u2 / 16) as nat);
        lemma_hex_char_injective((u1 % 16) as nat, (u2 % 16) as nat);
        vstd::arithmetic::div_mod::lemma_fundamental_div_mod(u1 as int, 16);
        vstd::arithmetic::div_mod::lemma_fundamental_div_mod(u2 as int, 16);
        vstd::utf8::char_u32_cast(c1, u1);
        vstd::utf8::char_u32_cast(c2, u2);
    }
}

/// What the line holds at the scan position `i`, for any string literal
/// standing at `p` whose text extends the characters decoded so far: either
/// the text is spent and the closing quote is next, or the next escape unit
/// of the text stands at `i` with room before the closing quote.
proof fn lemma_string_at_step(l: Seq<char>, p: int, t: Seq<char>, acc: Seq<char>, i: int)
    requires
        string_at(l, p, t),
        acc.len() <= t.len(),
        t.take(acc.len() as int) == acc,
        i == p + 1 + escape_string(acc).len(),
    ensures
        i + 1 <= l.len(),
        acc.len() == t.len() ==> l[i] == '"' && i == p + 1 + escape_string(t).len(),
        acc.len() < t.len() ==> i + escape_char(t[acc.len() as int]).len() <= p + 1
            + escape_string(t).len() && p + 1 + escape_string(t).len() < l.len() && (forall|mm: int|
            0 <= mm < escape_char(t[acc.len() as int]).len() ==> l[i + mm] == #[trigger] escape_char(
                t[acc.len() as int],
            )[mm]),
{
    let k = acc.len() as int;
    lemma_string_at_chars(l, p, t);
    assert(t =~= t.take(k) + t.skip(k));
    lemma_escape_concat(t.take(k), t.skip(k));
    assert(escape_string(t) == escape_string(acc) + escape_string(t.skip(k)));
    if k == t.len() {
        assert(t.skip(k) =~= Seq::<char>::empty());
        assert(escape_string(t.skip(k)) =~= Seq::<char>::empty());
        assert(escape_string(t) =~= escape_string(acc));
    } else {
        assert(t.skip(k)[0] == t[k]);
        assert(t.skip(k).drop_first() =~= t.skip(k + 1));
        assert(escape_string(t.skip(k)) == escape_char(t[k]) + escape_string(t.skip(k + 1)));
        lemma_escape_char_shape(t[k]);
        let u = escape_char(t[k]);
        assert forall|mm: int| 0 <= mm < u.len() implies l[i + mm] == u[mm] by {
            let q = escape_string(acc).len() + mm;
            assert(escape_string(t)[q] == escape_string(t.skip(k))[mm]);
            assert(escape_string(t.skip(k))[mm] == u[mm]);
            assert(l[p + 1 + q] == escape_string(t)[q]);
        }
    }
}

/// The sixteen digit characters are pairwise distinct.
proof fn lemma_hex_char_injective(d1: nat, d2: nat)
    requires
        d1 < 16,
        d2 < 16,
        hex_char(d1) == hex_char(d2),
    ensures
        d1 == d2,
{
}

/// A numeral ended by a non-digit is the only numeral that stands at its
/// position with such an ending.
proof fn lemma_number_at_unique(l: Seq<char>, p: int, w: nat, m: int)
    requires
        0 <= p,
        p + m <= l.len(),
        m == digits(w).len(),
        l.subrange(p, p + m) == digits(w),
        p + m == l.len() || !is_digit(l[p + m]),
    ensures
        number_at(l, p, w),
        forall|v: nat| number_at(l, p, v) ==> v == w,
{
    lemma_digits_shape(w);
    assert forall|v: nat| number_at(l, p, v) implies v == w by {
        lemma_digits_shape(v);
        let lv = digits(v).len() as int;
        assert(l.subrange(p, p + lv) == digits(v));
        if lv < m {
            assert(l.subrange(p, p + m)[lv] == digits(w)[lv]);
            assert(is_digit(l[p + lv]));
        } else if lv == m {
            assert(digits(v) == digits(w));
            lemma_digits_injective(v, w);
        } else {
            assert(l.subrange(p, p + lv)[m] == digits(v)[m]);
            assert(is_digit(l[p + m]));
        }
    }
}

/// One lowercase hexadecimal digit as a string slice.
fn hex_str(d: u32) -> (r: &'static str)
    requires
        d < 16,
    ensures
        r@ == seq![hex_char(d as nat)],
{
    let r = if d == 0 {
        "0"
    } else if d == 1 {
        "1"
    } else if d == 2 {
        "2"
    } else if d == 3 {
        "3"
    } else if d == 4 {
        "4"
    } else if d == 5 {
        "5"
    } else if d == 6 {
        "6"
    } else if d == 7 {
        "7"
    } else if d == 8 {
        "8"
    } else if d == 9 {
        "9"
    } else if d == 10 {
        "a"
    } else if d == 11 {
        "b"
    } else if d == 12 {
        "c"
    } else if d == 13 {
        "d"
    } else if d == 14 {
        "e"
    } else {
        "f"
    };
    proof {
        reveal_strlit("0");
        reveal_strlit("1");
        reveal_strlit("2");
        reveal_strlit("3");
        reveal_strlit("4");
        reveal_strlit("5");
        reveal_strlit("6");
        reveal_strlit("7");
        reveal_strlit("8");
        reveal_strlit("9");
        reveal_strlit("a");
        reveal_strlit("b");
        reveal_strlit("c");
        reveal_strlit("d");
        reveal_strlit("e");
        reveal_strlit("f");
        assert(r@ =~= seq![hex_char(d as nat)]);
    }
    r
}

/// Appends the decimal digits of `n`.
fn append_digits(out: &mut String, n: usize)
    ensures
        final(out)@ == old(out)@ + digits(n as nat),
    decreases n,
{
    if n < 10 {
        out.append(hex_str(n as u32));
    } else {
        append_digits(out, n / 10);
        out.append(hex_str((n % 10) as u32));
        proof {
            assert((old(out)@ + digits(n as nat / 10)) + seq![hex_char(n as nat % 10)] =~= old(
                out,
            )@ + (digits(n as nat / 10) + seq![hex_char(n as nat % 10)]));
        }
    }
}

/// Appends `text` with every character escaped.
#[verifier::loop_isolation(false)]
fn append_escaped(out: &mut String, text: &str)
    ensures
        final(out)@ == old(out)@ + escape_string(text@),
{
    let n = text.unicode_len();
    let mut i: usize = 0;
    proof {
        assert(text@.take(0) =~= Seq::<char>::empty());
        assert(escape_string(Seq::<char>::empty()) =~= Seq::<char>::empty());
        assert(out@ + Seq::<char>::empty() =~= out@);
    }
    while i < n
        invariant
            i <= n,
            out@ == old(out)@ + escape_string(text@.take(i as int)),
        decreases n - i,
    {
        let c = text.get_char(i);
        let ghost prev = out@;
        if c == '"' {
            out.append("\\\"");
        } else if c == '\\' {
            out.append("\\\\");
        } else if c == '\u{8}' {
            out.append("\\b");
        } else if c == '\u{c}' {
            out.append("\\f");
        } else if c == '\n' {
            out.append("\\n");
        } else if c == '\r' {
            out.append("\\r");
        } else if c == '\t' {
            out.append("\\t");
        } else if (c as u32) < 0x20 {
            let u = c as u32;
            out.append("\\u00");
            out.append(hex_str(u / 16));
            out.append(hex_str(u % 16));
            proof {
                assert(out@ =~= prev + escape_char(c));
            }
        } else {
            out.append(text.substring_char(i, i + 1));
            proof {
                assert(text@.subrange(i as int, i + 1) =~= seq![c]);
                assert(escape_char(c) == seq![c]);
            }
        }
        proof {
            assert(out@ == prev + escape_char(c));
            assert(text@.take(i + 1) =~= text@.take(i as int).push(c));
            lemma_escape_string_push(text@.take(i as int), c);
            assert((old(out)@ + escape_string(text@.take(i as int))) + escape_char(c) =~= old(
                out,
            )@ + escape_string(text@.take(i + 1)));
        }
        i = i + 1;
    }
    proof {
        assert(text@.take(n as int) =~= text@);
    }
}

/// Appends `s` as a JSON string literal.
fn append_json_string(out: &mut String, s: &str)
    ensures
        final(out)@ == old(out)@ + json_string(s@),
{
    out.append("\"");
    append_escaped(out, s);
    out.append("\"");
    proof {
        assert(((old(out)@ + "\""@) + escape_string(s@)) + "\""@ =~= old(out)@ + json_string(s@));
    }
}

/// Serializes a string value to a line of its own, as the masking output
/// uses: just the JSON string literal.
pub fn to_json_string(s: &str) -> (out: String)
    ensures
        out@ == json_string(s@),
{
    let mut out = String::new();
    append_json_string(&mut out, s);
    proof {
        assert(Seq::<char>::empty() + json_string(s@) =~= json_string(s@));
    }
    out
}

/// Appends one span as a JSON object.
fn append_span_json(out: &mut String, s: &Span)
    ensures
        final(out)@ == old(out)@ + span_json(*s),
{
    out.append("{\"start\":");
    append_digits(out, s.start);
    out.append(",\"end\":");
    append_digits(out, s.end);
    out.append("}");
    proof {
        assert(((((old(out)@ + "{\"start\":"@) + digits(s.start as nat)) + ",\"end\":"@) + digits(
            s.end as nat,
        )) + "}"@ =~= old(out)@ + span_json(*s));
    }
}

/// Serializes a record to its canonical single-line form.
#[verifier::loop_isolation(false)]
pub fn to_json(r: &Record) -> (out: String)
    ensures
        out@ == record_json(r.text@, r.spans@),
{
    let mut out = String::from_str("{\"text\":");
    append_json_string(&mut out, r.text.as_str());
    out.append(",\"spans\":[");
    let ghost head = "{\"text\":"@ + json_string(r.text@) + ",\"spans\":["@;
    proof {
        assert(out@ =~= head);
        assert(spans_json_items(r.spans@.take(0)) =~= Seq::<char>::empty());
        assert(head + Seq::<char>::empty() =~= head);
    }
    let n = r.spans.len();
    let mut i: usize = 0;
    while i < n
        invariant
            i <= n,
            out@ == head + spans_json_items(r.spans@.take(i as int)),
        decreases n - i,
    {
        let ghost prev = out@;
        if i > 0 {
            out.append(",");
        }
        append_span_json(&mut out, &r.spans[i]);
        proof {
            let taken = r.spans@.take(i + 1);
            assert(taken.last() == r.spans@[i as int]);
            assert(taken.drop_last() =~= r.spans@.take(i as int));
            if i == 0 {
                assert(spans_json_items(taken) == span_json(r.spans@[0]));
                assert(out@ =~= head + spans_json_items(taken));
            } else {
                assert(spans_json_items(taken) == spans_json_items(r.spans@.take(i as int)) + ","@
                    + span_json(r.spans@[i as int]));
                assert(out@ =~= head + spans_json_items(taken));
            }
        }
        i = i + 1;
    }
    out.append("]}");
    proof {
        assert(r.spans@.take(n as int) =~= r.spans@);
        assert((head + spans_json_items(r.spans@)) + "]}"@ =~= record_json(r.text@, r.spans@));
    }
    out
}

/// Relies on String::push: appends exactly the one character.
#[verifier::external_body]
fn push_char(out: &mut String, c: char)
    ensures
        final(out)@ == old(out)@ + seq![c],
{
    out.push(c);
}

/// Consumes `tok` at `start`, reporting the position after it.
#[verifier::loop_isolation(false)]
fn expect(line: &str, start: usize, tok: &str) -> (r: Option<usize>)
    requires
        start <= line@.len(),
    ensures
        r matches Some(j) ==> j == start + tok@.len() && j <= line@.len() && line@.subrange(
            start as int,
            j as int,
        ) == tok@,
        r is None ==> !token_at(line@, start as int, tok@),
{
    let n = line.unicode_len();
    let t = tok.unicode_len();
    if n - start < t {
        return None;
    }
    let mut k: usize = 0;
    while k < t
        invariant
            k <= t,
            forall|p: int| 0 <= p < k ==> line@[start + p] == tok@[p],
        decreases t - k,
    {
        if line.get_char(start + k) != tok.get_char(k) {
            proof {
                if token_at(line@, start as int, tok@) {
                    assert(line@.subrange(start as int, start + tok@.len() as int)[k as int]
                        == tok@[k as int]);
                }
            }
            return None;
        }
        k = k + 1;
    }
    proof {
        assert(line@.subrange(start as int, (start + t) as int) =~= tok@);
    }
    Some(start + t)
}

/// The value of a lowercase hexadecimal digit character.
fn hex_val(c: char) -> (r: Option<u32>)
    ensures
        r matches Some(d) ==> d < 16 && hex_char(d as nat) == c,
        r matches Some(d) ==> (d < 10 <==> is_digit(c)),
        r is None ==> !(48 <= c as u32 <= 57 || 97 <= c as u32 <= 102),
{
    let u = c as u32;
    if 48 <= u && u <= 57 {
        proof {
            vstd::utf8::char_u32_cast(c, u);
            assert(hex_char((u - 48) as nat) as u32 == u);
            vstd::utf8::char_u32_cast(hex_char((u - 48) as nat), u);
        }
        Some(u - 48)
    } else if 97 <= u && u <= 102 {
        proof {
            vstd::utf8::char_u32_cast(c, u);
            assert(hex_char((u - 87) as nat) as u32 == u);
            vstd::utf8::char_u32_cast(hex_char((u - 87) as nat), u);
        }
        Some(u - 87)
    } else {
        None
    }
}

/// Parses a plain decimal number without sign or leading zero, exactly as
/// [`digits`] writes one.
#[verifier::loop_isolation(false)]
fn parse_number(line: &str, start: usize) -> (r: Option<(usize, usize)>)
    requires
        start <= line@.len(),
    ensures
        r matches Some((v, j)) ==> start < j <= line@.len() && line@.subrange(
            start as int,
            j as int,
        ) == digits(v as nat),
        forall|v: usize|
            number_at(line@, start as int, v as nat) ==> (r matches Some(p) && p.0 == v && p.1
                == start + digits(v as nat).len()),
{
    let n = line.unicode_len();
    if start >= n {
        proof {
            assert forall|v: usize| !number_at(line@, start as int, v as nat) by {
                lemma_digits_shape(v as nat);
            }
        }
        return None;
    }
    let c0 = line.get_char(start);
    let h0 = hex_val(c0);
    let d0 = match h0 {
        Some(d) if d < 10 => d,
        _ => {
            proof {
                assert forall|v: usize| !number_at(line@, start as int, v as nat) by {
                    lemma_digits_shape(v as nat);
                    if number_at(line@, start as int, v as nat) {
                        assert(line@.subrange(
                            start as int,
                            start + digits(v as nat).len() as int,
                        )[0] == digits(v as nat)[0]);
                        assert(is_digit(c0));
                    }
                }
            }
            return None;
        },
    };
    proof {
        assert(line@.subrange(start as int, start + 1) =~= seq![c0]);
    }
    if d0 == 0 {
        // A canonical numeral has no leading zero, so after the single
        // digit zero no further digit may follow.
        if start + 1 < n {
            let c1 = line.get_char(start + 1);
            let h1 = hex_val(c1);
            let next_digit = match h1 {
                Some(d) => d < 10,
                None => false,
            };
            if next_digit {
                proof {
                    assert forall|v: usize| !number_at(line@, start as int, v as nat) by {
                        lemma_digits_shape(v as nat);
                        if number_at(line@, start as int, v as nat) {
                            assert(line@.subrange(
                                start as int,
                                start + digits(v as nat).len() as int,
                            )[0] == digits(v as nat)[0]);
                            assert(v == 0);
                            assert(is_digit(line@[start + 1]));
                        }
                    }
                }
                return None;
            }
        }
        proof {
            lemma_number_at_unique(line@, start as int, 0, 1);
        }
        return Some((0, start + 1));
    }
    let mut v: usize = d0 as usize;
    let mut i: usize = start + 1;
    while i < n
        invariant
            start < i <= n,
            1 <= v,
            line@.subrange(start as int, i as int) == digits(v as nat),
        decreases n - i,
    {
        let c = line.get_char(i);
        let h = hex_val(c);
        let d = match h {
            Some(d) if d < 10 => d,
            _ => {
                proof {
                    lemma_number_at_unique(line@, start as int, v as nat, i - start);
                }
                return Some((v, i));
            },
        };
        let nv = match v.checked_mul(10) {
            Some(x) => match x.checked_add(d as usize) {
                Some(y) => y,
                None => {
                    proof {
                        lemma_overflow_impossible(line@, start as int, v as nat, i - start, d as nat);
                    }
                    return None;
                },
            },
            None => {
                proof {
                    lemma_overflow_impossible(line@, start as int, v as nat, i - start, d as nat);
                }
                return None;
            },
        };
        proof {
            assert(nv as nat / 10 == v as nat && nv as nat % 10 == d as nat) by (nonlinear_arith)
                requires
                    nv == v * 10 + d,
                    1 <= v,
                    d < 10,
            ;
            assert(digits(nv as nat) == digits(v as nat) + seq![hex_char(d as nat)]);
            assert(line@.subrange(start as int, i + 1) =~= line@.subrange(start as int, i as int)
                + seq![c]);
        }
        v = nv;
        i = i + 1;
    }
    proof {
        lemma_number_at_unique(line@, start as int, v as nat, i - start);
    }
    Some((v, i))
}

/// A digit run that a machine word cannot hold is no numeral of a machine
/// word: any numeral here extends the overflowing prefix, so its value is
/// already too large.
proof fn lemma_overflow_impossible(l: Seq<char>, p: int, w: nat, m: int, d: nat)
    requires
        0 <= p,
        0 <= p + m < l.len(),
        m == digits(w).len(),
        l.subrange(p, p + m) == digits(w),
        l[p + m] == hex_char(d),
        d < 10,
        10 * w + d > usize::MAX,
    ensures
        forall|v: usize| !number_at(l, p, v as nat),
{
    lemma_digits_shape(w);
    assert forall|v: usize| !number_at(l, p, v as nat) by {
        lemma_digits_shape(v as nat);
        if number_at(l, p, v as nat) {
            let lv = digits(v as nat).len() as int;
            assert(l.subrange(p, p + lv) == digits(v as nat));
            if lv < m {
                assert(l.subrange(p, p + m)[lv] == digits(w)[lv]);
                assert(is_digit(l[p + lv]));
            } else if lv == m {
                lemma_digits_injective(v as nat, w);
                assert(is_digit(l[p + m]));
            } else {
                let dv = digits(v as nat);
                assert(dv.take(m) =~= digits(w)) by {
                    assert(forall|q: int|
                        0 <= q < m ==> #[trigger] l.subrange(p, p + lv)[q] == l.subrange(
                            p,
                            p + m,
                        )[q]);
                }
                assert(dv =~= dv.take(m) + dv.skip(m));
                assert(dv.skip(m)[0] == dv[m]);
                assert(dv[m] == l.subrange(p, p + lv)[m]);
                lemma_digits_extend(v as nat, w, dv.skip(m), d);
            }
        }
    }
}

/// Under a string hypothesis, a backslash at the scan position means the
/// text has a next character, whose escape unit stands there with its two
/// possible widths and with room before the closing quote.
proof fn lemma_step_escape(l: Seq<char>, p: int, t: Seq<char>, acc: Seq<char>, i: int)
    requires
        string_at(l, p, t),
        acc.len() <= t.len(),
        t.take(acc.len() as int) == acc,
        i == p + 1 + escape_string(acc).len(),
        0 <= i < l.len(),
        l[i] == '\\',
    ensures
        acc.len() < t.len(),
        ({
            let u = escape_char(t[acc.len() as int]);
            &&& u[0] == '\\'
            &&& (u.len() == 2 || u.len() == 6)
            &&& i + u.len() <= p + 1 + escape_string(t).len()
            &&& p + 1 + escape_string(t).len() < l.len()
            &&& (forall|mm: int| 0 <= mm < u.len() ==> l[i + mm] == #[trigger] u[mm])
        }),
{
    lemma_string_at_step(l, p, t, acc, i);
    let k = acc.len() as int;
    if k < t.len() {
        lemma_escape_char_shape(t[k]);
        assert(l[i] == escape_char(t[k])[0]);
    }
}

/// Parses a JSON string literal written exactly as [`json_string`] writes
/// one; anything else, including a raw control character or an escape the
/// serializer would not choose, is rejected.
#[verifier::loop_isolation(false)]
fn parse_string(line: &str, start: usize) -> (r: Option<(String, usize)>)
    requires
        start <= line@.len(),
    ensures
        r matches Some((s, j)) ==> start < j <= line@.len() && line@.subrange(
            start as int,
            j as int,
        ) == json_string(s@),
        forall|t: Seq<char>|
            string_at(line@, start as int, t) ==> (r matches Some(p) && p.0@ == t && p.1 == start
                + json_string(t).len()),
{
    proof {
        reveal_strlit("\"");
        reveal_strlit("\\\"");
        reveal_strlit("\\\\");
        reveal_strlit("\\b");
        reveal_strlit("\\f");
        reveal_strlit("\\n");
        reveal_strlit("\\r");
        reveal_strlit("\\t");
        reveal_strlit("\\u00");
    }
    let n = line.unicode_len();
    if start >= n || line.get_char(start) != '"' {
        proof {
            assert forall|t: Seq<char>| !string_at(line@, start as int, t) by {
                if string_at(line@, start as int, t) {
                    lemma_string_at_chars(line@, start as int, t);
                }
            }
        }
        return None;
    }
    let mut acc = String::new();
    let mut i: usize = start + 1;
    proof {
        assert(escape_string(acc@) =~= Seq::<char>::empty());
        assert(line@.subrange(start + 1, start + 1) =~= Seq::<char>::empty());
        assert forall|t: Seq<char>| string_at(line@, start as int, t) implies acc@.len() <= t.len()
            && t.take(acc@.len() as int) == acc@ by {
            assert(t.take(0) =~= Seq::<char>::empty());
            assert(acc@ =~= Seq::<char>::empty());
        }
    }
    while i < n
        invariant
            start < i <= n,
            line@.subrange(start + 1, i as int) == escape_string(acc@),
            forall|t: Seq<char>|
                string_at(line@, start as int, t) ==> acc@.len() <= t.len() && t.take(
                    acc@.len() as int,
                ) == acc@,
        decreases n - i,
    {
        let c = line.get_char(i);
        let ghost consumed = line@.subrange(start + 1, i as int);
        if c == '"' {
            proof {
                assert(line@.subrange(start as int, i + 1) =~= "\""@ + escape_string(acc@)
                    + "\""@);
                assert forall|t: Seq<char>| string_at(line@, start as int, t) implies acc@ == t && i
                    + 1 == start + json_string(t).len() by {
                    lemma_string_at_step(line@, start as int, t, acc@, i as int);
                    let k = acc@.len() as int;
                    if k < t.len() {
                        lemma_escape_char_shape(t[k]);
                        assert(line@[i as int] == escape_char(t[k])[0]);
                    }
                    assert(k == t.len());
                    assert(t.take(k) =~= t);
                }
            }
            return Some((acc, i + 1));
        } else if c == '\\' {
            if n - i < 2 {
                proof {
                    assert forall|t: Seq<char>| !string_at(line@, start as int, t) by {
                        if string_at(line@, start as int, t) {
                            lemma_step_escape(line@, start as int, t, acc@, i as int);
                        }
                    }
                }
                return None;
            }
            let e = line.get_char(i + 1);
            let (step, decoded): (usize, char) = if e == '"' {
                (2, '"')
            } else if e == '\\' {
                (2, '\\')
            } else if e == 'b' {
                (2, '\u{8}')
            } else if e == 'f' {
                (2, '\u{c}')
            } else if e == 'n' {
                (2, '\n')
            } else if e == 'r' {
                (2, '\r')
            } else if e == 't' {
                (2, '\t')
            } else if e == 'u' {
                proof {
                    assert forall|t: Seq<char>| string_at(line@, start as int, t) implies ({
                        let u = escape_char(t[acc@.len() as int]);
                        let w = t[acc@.len() as int] as u32;
                        &&& acc@.len() < t.len()
                        &&& u.len() == 6
                        &&& i + 6 < n
                        &&& line@[i + 2] == '0' && line@[i + 3] == '0'
                        &&& line@[i + 4] == hex_char((w / 16) as nat)
                        &&& line@[i + 5] == hex_char((w % 16) as nat)
                        &&& w < 0x20 && w != 8 && w != 9 && w != 10 && w != 12 && w != 13
                        &&& w / 16 < 16 && w % 16 < 16
                    }) by {
                        lemma_step_escape(line@, start as int, t, acc@, i as int);
                        let k = acc@.len() as int;
                        lemma_escape_char_shape(t[k]);
                        let u = escape_char(t[k]);
                        assert(u[1] == line@[i + 1]);
                        assert(u.len() == 6);
                        assert(u[2] == line@[i + 2] && u[3] == line@[i + 3]);
                        assert(u[4] == line@[i + 4] && u[5] == line@[i + 5]);
                        let w = t[k] as u32;
                        assert(w / 16 < 16 && 0 <= w % 16 < 16) by (nonlinear_arith)
                            requires
                                w < 0x20,
                        ;
                    }
                }
                if n - i < 6 {
                    return None;
                }
                if line.get_char(i + 2) != '0' || line.get_char(i + 3) != '0' {
                    return None;
                }
                let h1 = line.get_char(i + 4);
                let h2 = line.get_char(i + 5);
                let d1 = match hex_val(h1) {
                    Some(d) => d,
                    None => {
                        proof {
                            assert forall|t: Seq<char>| !string_at(line@, start as int, t) by {
                                if string_at(line@, start as int, t) {
                                    let w = t[acc@.len() as int] as u32;
                                    assert(48 <= hex_char((w / 16) as nat) as u32 <= 57 || 97
                                        <= hex_char((w / 16) as nat) as u32 <= 102);
                                }
                            }
                        }
                        return None;
                    },
                };
                let d2 = match hex_val(h2) {
                    Some(d) => d,
                    None => {
                        proof {
                            assert forall|t: Seq<char>| !string_at(line@, start as int, t) by {
                                if string_at(line@, start as int, t) {
                                    let w = t[acc@.len() as int] as u32;
                                    assert(48 <= hex_char((w % 16) as nat) as u32 <= 57 || 97
                                        <= hex_char((w % 16) as nat) as u32 <= 102);
                                }
                            }
                        }
                        return None;
                    },
                };
                let v = d1 * 16 + d2;
                // Only the escapes the serializer itself writes are accepted.
                if v >= 0x20 || v == 0x8 || v == 0x9 || v == 0xa || v == 0xc || v == 0xd {
                    proof {
                        assert forall|t: Seq<char>| !string_at(line@, start as int, t) by {
                            if string_at(line@, start as int, t) {
                                let w = t[acc@.len() as int] as u32;
                                lemma_hex_char_injective(d1 as nat, (w / 16) as nat);
                                lemma_hex_char_injective(d2 as nat, (w % 16) as nat);
                                vstd::arithmetic::div_mod::lemma_fundamental_div_mod(w as int, 16);
                            }
                        }
                    }
                    return None;
                }
                let ch = (v as u8) as char;
                proof {
                    assert(ch as u32 == v);
                    assert(v / 16 == d1 && v % 16 == d2) by (nonlinear_arith)
                        requires
                            v == d1 * 16 + d2,
                            d1 < 16,
                            d2 < 16,
                    ;
                    assert(escape_char(ch) =~= seq!['\\', 'u', '0', '0', h1, h2]);
                    assert(line@.subrange(i as int, i + 6) =~= seq!['\\', 'u', '0', '0', h1, h2]);
                }
                (6, ch)
            } else {
                proof {
                    assert forall|t: Seq<char>| !string_at(line@, start as int, t) by {
                        if string_at(line@, start as int, t) {
                            lemma_step_escape(line@, start as int, t, acc@, i as int);
                            let k = acc@.len() as int;
                            lemma_escape_char_shape(t[k]);
                            assert(escape_char(t[k])[1] == line@[i + 1]);
                        }
                    }
                }
                return None;
            };
            let ghost prev_acc = acc@;
            proof {
                assert(line@.subrange(i as int, i + step) =~= escape_char(decoded));
                lemma_escape_string_push(prev_acc, decoded);
                assert(line@.subrange(start + 1, i + step as int) =~= consumed + escape_char(
                    decoded,
                ));
                lemma_escape_char_shape(decoded);
                assert forall|t: Seq<char>| string_at(line@, start as int, t) implies prev_acc.len()
                    + 1 <= t.len() && t.take(prev_acc.len() as int + 1) == prev_acc.push(decoded) by {
                    lemma_step_escape(line@, start as int, t, prev_acc, i as int);
                    let k = prev_acc.len() as int;
                    lemma_escape_char_shape(t[k]);
                    let u = escape_char(t[k]);
                    let ud = escape_char(decoded);
                    assert(ud.len() == step);
                    assert(ud[0] == line@[i as int]);
                    assert forall|mm: int| 0 <= mm < step implies line@[i + mm] == #[trigger] ud[mm] by {
                        assert(line@.subrange(i as int, i + step)[mm] == line@[i + mm]);
                    }
                    assert(u[1] == line@[i + 1] && ud[1] == line@[i + 1]);
                    assert(u.len() == ud.len());
                    assert(u =~= ud);
                    lemma_escape_char_injective(t[k], decoded);
                    assert(t.take(k + 1) =~= t.take(k).push(t[k]));
                }
            }
            push_char(&mut acc, decoded);
            proof {
                assert(acc@ =~= prev_acc.push(decoded));
            }
            i = i + step;
        } else {
            proof {
                assert forall|t: Seq<char>| string_at(line@, start as int, t) implies acc@.len()
                    < t.len() && t[acc@.len() as int] == c && (c as u32) >= 0x20 by {
                    lemma_string_at_step(line@, start as int, t, acc@, i as int);
                    let k = acc@.len() as int;
                    if k < t.len() {
                        lemma_escape_char_shape(t[k]);
                        assert(line@[i as int] == escape_char(t[k])[0]);
                        assert(escape_char(t[k]).len() == 1);
                    }
                }
            }
            if (c as u32) < 0x20 {
                return None;
            }
            let ghost prev_acc = acc@;
            proof {
                assert(escape_char(c) =~= seq![c]);
                lemma_escape_string_push(prev_acc, c);
                assert(line@.subrange(start + 1, i + 1) =~= consumed + escape_char(c));
                assert forall|t: Seq<char>| string_at(line@, start as int, t) implies t.take(prev_acc.len() as int + 1) == prev_acc.push(c) by {
                    assert(t.take(prev_acc.len() as int + 1) =~= t.take(prev_acc.len() as int).push(
                        t[prev_acc.len() as int],
                    ));
                }
            }
            push_char(&mut acc, c);
            proof {
                assert(acc@ =~= prev_acc.push(c));
            }
            i = i + 1;
        }
    }
    proof {
        assert forall|t: Seq<char>| !string_at(line@, start as int, t) by {
            if string_at(line@, start as int, t) {
                lemma_string_at_step(line@, start as int, t, acc@, i as int);
            }
        }
    }
    None
}

/// Splits the hypothesis that a whole span object stands at `p` into its
/// five parts, with the numerals ended by the following punctuation.
proof fn lemma_span_at_parts(l: Seq<char>, p: int, s: Span)
    requires
        token_at(l, p, span_json(s)),
    ensures
        token_at(l, p, "{\"start\":"@),
        number_at(l, p + "{\"start\":"@.len(), s.start as nat),
        token_at(l, p + "{\"start\":"@.len() + digits(s.start as nat).len(), ",\"end\":"@),
        number_at(
            l,
            p + "{\"start\":"@.len() + digits(s.start as nat).len() + ",\"end\":"@.len(),
            s.end as nat,
        ),
        token_at(
            l,
            p + "{\"start\":"@.len() + digits(s.start as nat).len() + ",\"end\":"@.len() + digits(
                s.end as nat,
            ).len(),
            "}"@,
        ),
{
    reveal_strlit("{\"start\":");
    reveal_strlit(",\"end\":");
    reveal_strlit("}");
    let a1 = "{\"start\":"@;
    let d1 = digits(s.start as nat);
    let a2 = ",\"end\":"@;
    let d2 = digits(s.end as nat);
    let a3 = "}"@;
    lemma_token_at_concat(l, p, a1 + d1 + a2 + d2, a3);
    lemma_token_at_concat(l, p, a1 + d1 + a2, d2);
    lemma_token_at_concat(l, p, a1 + d1, a2);
    lemma_token_at_concat(l, p, a1, d1);
    // Each numeral is ended by the punctuation that follows it.
    assert(l[p + a1.len() + d1.len()] == a2[0]) by {
        assert(l.subrange(p + a1.len() + d1.len(), p + a1.len() + d1.len() + a2.len() as int)[0]
            == a2[0]);
    }
    assert(l[p + a1.len() + d1.len() + a2.len() + d2.len()] == a3[0]) by {
        assert(l.subrange(
            p + a1.len() + d1.len() + a2.len() + d2.len(),
            p + a1.len() + d1.len() + a2.len() + d2.len() + a3.len() as int,
        )[0] == a3[0]);
    }
}

/// Parses one span object written exactly as [`span_json`] writes one,
/// rejecting an interval whose end precedes its start.
fn parse_span(line: &str, start: usize) -> (r: Option<(Span, usize)>)
    requires
        start <= line@.len(),
    ensures
        r matches Some((s, j)) ==> start < j <= line@.len() && line@.subrange(
            start as int,
            j as int,
        ) == span_json(s) && s.start <= s.end,
        forall|s: Span|
            token_at(line@, start as int, span_json(s)) && s.start <= s.end ==> (r matches Some(p)
                && p.0 == s && p.1 == start + span_json(s).len()),
{
    let i1 = match expect(line, start, "{\"start\":") {
        Some(j) => j,
        None => {
            proof {
                assert forall|s: Span|
                    !(token_at(line@, start as int, span_json(s)) && s.start <= s.end) by {
                    if token_at(line@, start as int, span_json(s)) {
                        lemma_span_at_parts(line@, start as int, s);
                    }
                }
            }
            return None;
        },
    };
    let (v1, i2) = match parse_number(line, i1) {
        Some(p) => p,
        None => {
            proof {
                assert forall|s: Span|
                    !(token_at(line@, start as int, span_json(s)) && s.start <= s.end) by {
                    if token_at(line@, start as int, span_json(s)) {
                        lemma_span_at_parts(line@, start as int, s);
                    }
                }
            }
            return None;
        },
    };
    let i3 = match expect(line, i2, ",\"end\":") {
        Some(j) => j,
        None => {
            proof {
                assert forall|s: Span|
                    !(token_at(line@, start as int, span_json(s)) && s.start <= s.end) by {
                    if token_at(line@, start as int, span_json(s)) {
                        lemma_span_at_parts(line@, start as int, s);
                    }
                }
            }
            return None;
        },
    };
    let (v2, i4) = match parse_number(line, i3) {
        Some(p) => p,
        None => {
            proof {
                assert forall|s: Span|
                    !(token_at(line@, start as int, span_json(s)) && s.start <= s.end) by {
                    if token_at(line@, start as int, span_json(s)) {
                        lemma_span_at_parts(line@, start as int, s);
                    }
                }
            }
            return None;
        },
    };
    let i5 = match expect(line, i4, "}") {
        Some(j) => j,
        None => {
            proof {
                assert forall|s: Span|
                    !(token_at(line@, start as int, span_json(s)) && s.start <= s.end) by {
                    if token_at(line@, start as int, span_json(s)) {
                        lemma_span_at_parts(line@, start as int, s);
                    }
                }
            }
            return None;
        },
    };
    if v1 > v2 {
        proof {
            assert forall|s: Span|
                !(token_at(line@, start as int, span_json(s)) && s.start <= s.end) by {
                if token_at(line@, start as int, span_json(s)) {
                    lemma_span_at_parts(line@, start as int, s);
                }
            }
        }
        return None;
    }
    let s = Span { start: v1, end: v2 };
    proof {
        assert(line@.subrange(start as int, i5 as int) =~= line@.subrange(start as int, i1 as int)
            + line@.subrange(i1 as int, i2 as int) + line@.subrange(i2 as int, i3 as int)
            + line@.subrange(i3 as int, i4 as int) + line@.subrange(i4 as int, i5 as int));
        assert(line@.subrange(start as int, i5 as int) =~= span_json(s));
        assert forall|o: Span|
            token_at(line@, start as int, span_json(o)) && o.start <= o.end implies o == s && i5
            == start + span_json(o).len() by {
            lemma_span_at_parts(line@, start as int, o);
        }
    }
    Some((s, i5))
}

/// Prepending a span to a non-empty list prepends its object and a comma.
proof fn lemma_items_prepend(s: Span, tail: Seq<Span>)
    requires
        tail.len() >= 1,
    ensures
        spans_json_items(seq![s] + tail) == span_json(s) + ","@ + spans_json_items(tail),
    decreases tail.len(),
{
    let whole = seq![s] + tail;
    if tail.len() == 1 {
        assert(whole.drop_last() =~= seq![s]);
        assert(whole.last() == tail[0]);
        assert(spans_json_items(seq![s]) == span_json(s));
        assert(spans_json_items(tail) == span_json(tail[0]));
        assert(span_json(s) + ","@ + span_json(tail[0]) =~= spans_json_items(whole));
    } else {
        assert(whole.drop_last() =~= seq![s] + tail.drop_last());
        assert(whole.last() == tail.last());
        lemma_items_prepend(s, tail.drop_last());
        assert((span_json(s) + ","@ + spans_json_items(tail.drop_last())) + ","@ + span_json(
            tail.last(),
        ) =~= span_json(s) + ","@ + (spans_json_items(tail.drop_last()) + ","@ + span_json(
            tail.last(),
        )));
    }
}

/// The hypothesis that the span-list parser answers: a non-empty
/// well-formed span list, starting at or after `lower`, whose rendering
/// and the closing bracket stand at `p`.
spec fn tail_hyp(l: Seq<char>, p: int, tlen: nat, lower: nat, sp: Seq<Span>) -> bool {
    sp.len() >= 1 && spans_wf(sp, tlen) && lower <= sp[0].start && token_at(
        l,
        p,
        spans_json_items(sp) + "]}"@,
    )
}

/// Splits the hypothesis that a non-empty span list and its closing
/// bracket stand at `p`: the first span object stands at `p`, followed
/// either by the close alone or by a comma and the rest of the list.
proof fn lemma_tail_at_parts(l: Seq<char>, p: int, tlen: nat, sp: Seq<Span>)
    requires
        sp.len() >= 1,
        spans_wf(sp, tlen),
        token_at(l, p, spans_json_items(sp) + "]}"@),
    ensures
        token_at(l, p, span_json(sp[0])),
        sp[0].start <= sp[0].end <= tlen,
        sp.len() == 1 ==> token_at(l, p + span_json(sp[0]).len(), "]}"@),
        sp.len() >= 2 ==> token_at(l, p + span_json(sp[0]).len(), ","@) && token_at(
            l,
            p + span_json(sp[0]).len() + ","@.len(),
            spans_json_items(sp.drop_first()) + "]}"@,
        ) && spans_wf(sp.drop_first(), tlen) && sp[0].end <= sp.drop_first()[0].start,
{
    if sp.len() == 1 {
        assert(spans_json_items(sp) == span_json(sp[0]));
        lemma_token_at_concat(l, p, span_json(sp[0]), "]}"@);
    } else {
        let rest = sp.drop_first();
        assert(sp =~= seq![sp[0]] + rest);
        lemma_items_prepend(sp[0], rest);
        let x = span_json(sp[0]) + ","@;
        assert(spans_json_items(sp) + "]}"@ =~= x + (spans_json_items(rest) + "]}"@));
        lemma_token_at_concat(l, p, x, spans_json_items(rest) + "]}"@);
        lemma_token_at_concat(l, p, span_json(sp[0]), ","@);
        assert(forall|q: int| 0 <= q < rest.len() ==> #[trigger] rest[q] == sp[q + 1]);
    }
}

/// Parses `span ("," span)* "]}"`: the rest of a non-empty span list.  The
/// spans must ascend without overlap, starting at or after `lower`, and
/// stay inside a text of `tlen` characters, as a well-formed record has
/// them.
fn parse_spans_tail(line: &str, start: usize, tlen: usize, lower: usize) -> (r: Option<
    (Vec<Span>, usize),
>)
    requires
        start <= line@.len(),
    ensures
        r matches Some((spans, j)) ==> {
            &&& start < j <= line@.len()
            &&& spans@.len() >= 1
            &&& line@.subrange(start as int, j as int) == spans_json_items(spans@) + "]}"@
            &&& spans_wf(spans@, tlen as nat)
            &&& lower <= spans@[0].start
        },
        forall|sp: Seq<Span>|
            tail_hyp(line@, start as int, tlen as nat, lower as nat, sp) ==> (r matches Some(p)
                && p.0@ == sp && p.1 == start + (spans_json_items(sp) + "]}"@).len()),
    decreases line@.len() - start,
{
    let (s, i) = match parse_span(line, start) {
        Some(p) => p,
        None => {
            proof {
                assert forall|sp: Seq<Span>| !tail_hyp(line@, start as int, tlen as nat, lower as nat, sp) by {
                    if tail_hyp(line@, start as int, tlen as nat, lower as nat, sp) {
                        lemma_tail_at_parts(line@, start as int, tlen as nat, sp);
                    }
                }
            }
            return None;
        },
    };
    if s.start < lower || s.end > tlen {
        proof {
            assert forall|sp: Seq<Span>| !tail_hyp(line@, start as int, tlen as nat, lower as nat, sp) by {
                if tail_hyp(line@, start as int, tlen as nat, lower as nat, sp) {
                    lemma_tail_at_parts(line@, start as int, tlen as nat, sp);
                }
            }
        }
        return None;
    }
    match expect(line, i, "]}") {
        Some(j) => {
            let mut spans: Vec<Span> = Vec::new();
            spans.push(s);
            proof {
                reveal_strlit("]}");
                reveal_strlit(",");
                reveal_strlit("{\"start\":");
                assert(spans@ =~= seq![s]);
                assert(spans_json_items(spans@) == span_json(s));
                assert(line@.subrange(start as int, j as int) =~= spans_json_items(spans@)
                    + "]}"@);
                assert forall|sp: Seq<Span>| tail_hyp(line@, start as int, tlen as nat, lower as nat, sp) implies spans@ == sp && j == start + (
                spans_json_items(sp) + "]}"@).len() by {
                    lemma_tail_at_parts(line@, start as int, tlen as nat, sp);
                    if sp.len() >= 2 {
                        assert(line@[i as int] == ',') by {
                            assert(line@.subrange(i as int, i + 1)[0] == ","@[0]);
                        }
                        assert(line@[i as int] == ']') by {
                            assert(line@.subrange(i as int, j as int)[0] == "]}"@[0]);
                        }
                    }
                    assert(sp =~= seq![sp[0]]);
                }
            }
            return Some((spans, j));
        },
        None => {},
    }
    let i2 = match expect(line, i, ",") {
        Some(j) => j,
        None => {
            proof {
                assert forall|sp: Seq<Span>| !tail_hyp(line@, start as int, tlen as nat, lower as nat, sp) by {
                    if tail_hyp(line@, start as int, tlen as nat, lower as nat, sp) {
                        lemma_tail_at_parts(line@, start as int, tlen as nat, sp);
                        assert(s == sp[0] && i == start + span_json(sp[0]).len());
                    }
                }
            }
            return None;
        },
    };
    let (mut spans, j) = match parse_spans_tail(line, i2, tlen, s.end) {
        Some(p) => p,
        None => {
            proof {
                assert forall|sp: Seq<Span>| !tail_hyp(line@, start as int, tlen as nat, lower as nat, sp) by {
                    if tail_hyp(line@, start as int, tlen as nat, lower as nat, sp) {
                        lemma_tail_at_parts(line@, start as int, tlen as nat, sp);
                        assert(s == sp[0] && i == start + span_json(sp[0]).len());
                        assert(sp.len() >= 2);
                        assert(tail_hyp(
                            line@,
                            i2 as int,
                            tlen as nat,
                            s.end as nat,
                            sp.drop_first(),
                        ));
                    }
                }
            }
            return None;
        },
    };
    let ghost tail = spans@;
    spans.insert(0, s);
    proof {
        assert(spans@ =~= seq![s] + tail);
        lemma_items_prepend(s, tail);
        assert(line@.subrange(start as int, j as int) =~= line@.subrange(start as int, i as int)
            + line@.subrange(i as int, i2 as int) + line@.subrange(i2 as int, j as int));
        assert(line@.subrange(start as int, j as int) =~= (span_json(s) + ","@
            + spans_json_items(tail)) + "]}"@);
        assert(line@.subrange(start as int, j as int) =~= spans_json_items(spans@) + "]}"@);
        assert(spans_wf(spans@, tlen as nat)) by {
            assert(forall|k: int| 0 <= k < tail.len() ==> #[trigger] spans@[k + 1] == tail[k]);
            assert forall|p: int, q: int|
                #![trigger spans@[p], spans@[q]]
                0 <= p < q < spans@.len() implies spans@[p].end <= spans@[q].start by {
                if p == 0 {
                    assert(spans@[q] == tail[q - 1]);
                    if q == 1 {
                        assert(s.end <= tail[0].start);
                    } else {
                        assert(tail[0].end <= tail[q - 1].start);
                        assert(s.end <= tail[0].start <= tail[0].end);
                    }
                }
            }
        }
        assert forall|sp: Seq<Span>| tail_hyp(line@, start as int, tlen as nat, lower as nat, sp) implies spans@ == sp && j == start + (
        spans_json_items(sp) + "]}"@).len() by {
            lemma_tail_at_parts(line@, start as int, tlen as nat, sp);
            assert(s == sp[0] && i == start + span_json(sp[0]).len());
            assert(sp.len() >= 2);
            assert(tail_hyp(line@, i2 as int, tlen as nat, s.end as nat, sp.drop_first()));
            assert(tail == sp.drop_first());
            assert(spans@ =~= sp);
            lemma_items_prepend(sp[0], sp.drop_first());
        }
    }
    Some((spans, j))
}

/// A rendered span list opens with the first span's brace.
proof fn lemma_items_first(sp: Seq<Span>)
    requires
        sp.len() >= 1,
    ensures
        spans_json_items(sp).len() >= 1,
        spans_json_items(sp)[0] == '{',
{
    reveal_strlit("{\"start\":");
    if sp.len() >= 2 {
        assert(sp =~= seq![sp[0]] + sp.drop_first());
        lemma_items_prepend(sp[0], sp.drop_first());
    }
    assert(span_json(sp[0])[0] == "{\"start\":"@[0]);
}

/// Splits the hypothesis that a whole line is a record object into the
/// text key, the text's string literal, the spans key, and the span list
/// with the closing bracket.
proof fn lemma_record_at_parts(l: Seq<char>, t: Seq<char>, sp: Seq<Span>)
    requires
        l == record_json(t, sp),
    ensures
        token_at(l, 0, "{\"text\":"@),
        string_at(l, "{\"text\":"@.len() as int, t),
        token_at(l, "{\"text\":"@.len() as int + json_string(t).len(), ",\"spans\":["@),
        token_at(
            l,
            "{\"text\":"@.len() as int + json_string(t).len() + ",\"spans\":["@.len(),
            spans_json_items(sp) + "]}"@,
        ),
        l.len() == "{\"text\":"@.len() + json_string(t).len() + ",\"spans\":["@.len()
            + spans_json_items(sp).len() + "]}"@.len(),
{
    let a1 = "{\"text\":"@;
    let js = json_string(t);
    let a2 = ",\"spans\":["@;
    let items = spans_json_items(sp);
    let a3 = "]}"@;
    assert(l.subrange(0, l.len() as int) =~= l);
    assert(token_at(l, 0, (((a1 + js) + a2) + items) + a3));
    lemma_token_at_concat(l, 0, ((a1 + js) + a2) + items, a3);
    lemma_token_at_concat(l, 0, (a1 + js) + a2, items);
    lemma_token_at_concat(l, 0, a1 + js, a2);
    lemma_token_at_concat(l, 0, a1, js);
    lemma_token_at_concat(l, a1.len() as int + js.len() + a2.len(), items, a3);
}

/// Reads a record back from one line of the persisted form.  Exactly the
/// canonical serialization of a well-formed record is accepted, and every
/// such line is accepted: a parsed record proves its line equal to
/// [`record_json`] of what was parsed, and a rejected line is the
/// serialization of no well-formed record.
pub fn parse_record(line: &str) -> (r: Option<Record>)
    ensures
        r matches Some(rec) ==> rec.wf() && line@ == record_json(rec.text@, rec.spans@),
        r is None ==> !(exists|t: Seq<char>, sp: Seq<Span>|
            spans_wf(sp, t.len()) && line@ == record_json(t, sp)),
{
    let n = line.unicode_len();
    let i0 = match expect(line, 0, "{\"text\":") {
        Some(j) => j,
        None => {
            proof {
                assert forall|t: Seq<char>, sp: Seq<Span>|
                    !(spans_wf(sp, t.len()) && line@ == record_json(t, sp)) by {
                    if line@ == record_json(t, sp) {
                        lemma_record_at_parts(line@, t, sp);
                    }
                }
            }
            return None;
        },
    };
    let (text, i1) = match parse_string(line, i0) {
        Some(p) => p,
        None => {
            proof {
                assert forall|t: Seq<char>, sp: Seq<Span>|
                    !(spans_wf(sp, t.len()) && line@ == record_json(t, sp)) by {
                    if line@ == record_json(t, sp) {
                        lemma_record_at_parts(line@, t, sp);
                    }
                }
            }
            return None;
        },
    };
    let i2 = match expect(line, i1, ",\"spans\":[") {
        Some(j) => j,
        None => {
            proof {
                assert forall|t: Seq<char>, sp: Seq<Span>|
                    !(spans_wf(sp, t.len()) && line@ == record_json(t, sp)) by {
                    if line@ == record_json(t, sp) {
                        lemma_record_at_parts(line@, t, sp);
                        assert(text@ == t && i1 == i0 + json_string(t).len());
                    }
                }
            }
            return None;
        },
    };
    let tlen = text.as_str().unicode_len();
    match expect(line, i2, "]}") {
        Some(j) => {
            if j != n {
                proof {
                    reveal_strlit("]}");
                    assert forall|t: Seq<char>, sp: Seq<Span>|
                        !(spans_wf(sp, t.len()) && line@ == record_json(t, sp)) by {
                        if line@ == record_json(t, sp) {
                            lemma_record_at_parts(line@, t, sp);
                            assert(text@ == t && i1 == i0 + json_string(t).len());
                            if sp.len() >= 1 {
                                lemma_items_first(sp);
                                assert(line@[i2 as int] == '{') by {
                                    assert(line@.subrange(
                                        i2 as int,
                                        i2 + (spans_json_items(sp) + "]}"@).len() as int,
                                    )[0] == (spans_json_items(sp) + "]}"@)[0]);
                                }
                                assert(line@[i2 as int] == ']') by {
                                    assert(line@.subrange(i2 as int, j as int)[0] == "]}"@[0]);
                                }
                            }
                            assert(spans_json_items(sp) =~= Seq::<char>::empty());
                        }
                    }
                }
                return None;
            }
            let rec = Record { text, spans: Vec::new() };
            proof {
                assert(rec.spans@ =~= Seq::<Span>::empty());
                assert(spans_json_items(rec.spans@) =~= Seq::<char>::empty());
                assert(line@ =~= line@.subrange(0, i0 as int) + line@.subrange(i0 as int, i1 as int)
                    + line@.subrange(i1 as int, i2 as int) + line@.subrange(i2 as int, n as int));
                assert(line@ =~= record_json(rec.text@, rec.spans@));
            }
            return Some(rec);
        },
        None => {},
    }
    let (spans, j) = match parse_spans_tail(line, i2, tlen, 0) {
        Some(p) => p,
        None => {
            proof {
                assert forall|t: Seq<char>, sp: Seq<Span>|
                    !(spans_wf(sp, t.len()) && line@ == record_json(t, sp)) by {
                    if spans_wf(sp, t.len()) && line@ == record_json(t, sp) {
                        lemma_record_at_parts(line@, t, sp);
                        assert(text@ == t && i1 == i0 + json_string(t).len());
                        if sp.len() == 0 {
                            assert(spans_json_items(sp) + "]}"@ =~= "]}"@);
                        } else {
                            assert(tail_hyp(line@, i2 as int, tlen as nat, 0, sp));
                        }
                    }
                }
            }
            return None;
        },
    };
    if j != n {
        proof {
            assert forall|t: Seq<char>, sp: Seq<Span>|
                !(spans_wf(sp, t.len()) && line@ == record_json(t, sp)) by {
                if spans_wf(sp, t.len()) && line@ == record_json(t, sp) {
                    lemma_record_at_parts(line@, t, sp);
                    assert(text@ == t && i1 == i0 + json_string(t).len());
                    if sp.len() == 0 {
                        assert(spans_json_items(sp) + "]}"@ =~= "]}"@);
                    } else {
                        assert(tail_hyp(line@, i2 as int, tlen as nat, 0, sp));
                        assert(spans@ == sp);
                    }
                }
            }
        }
        return None;
    }
    let rec = Record { text, spans };
    proof {
        assert(line@ =~= line@.subrange(0, i0 as int) + line@.subrange(i0 as int, i1 as int)
            + line@.subrange(i1 as int, i2 as int) + line@.subrange(i2 as int, n as int));
        assert(line@ =~= record_json(rec.text@, rec.spans@));
    }
    Some(rec)
}

/// Round trip of import: a record freshly imported from a raw line and
/// serialized with no further processing is exactly the object that holds
/// the line as its text and an empty span list.
pub proof fn lemma_import_round_trip(text: Seq<char>)
    ensures
        record_json(text, Seq::<Span>::empty()) == "{\"text\":"@ + json_string(text)
            + ",\"spans\":[]}"@,
{
    reveal_strlit(",\"spans\":[");
    reveal_strlit("]}");
    reveal_strlit(",\"spans\":[]}");
    assert(record_json(text, Seq::<Span>::empty()) =~= "{\"text\":"@ + json_string(text)
        + ",\"spans\":[]}"@);
}

} // verus!
