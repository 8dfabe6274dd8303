//! What reading gives back of writing: the JSON text of a value reads back as the value.
use vstd::prelude::*;
use vstd::utf8::{encode_utf8, decode_utf8, encode_scalar, is_scalar, leading_byte_width_1};
use crate::gql::value::{escape_char, escape_text, string_body, simple_escape, unicode_escape, hex_value_of, hex_run,
    hex_digit, hex_char, digit_char, byte_at, nat_text, int_text, join, Json, json_text, quoted, read_value,
    read_array, read_object, number_scan, number_json, float_ok, float_text, ascii_chars, is_dec, is_json_ws, skip_ws,
    ws_from, clamp, lit_end, utf8_or_empty_text, item_texts, field_texts, parse_json, parse_json_ok};
use crate::runtime::{parse_i64_spec, digits_value, digit_value, all_digits, is_digit};
use crate::gql::{gql_escape_text, gql_string_literal};
use crate::gql::parser::{read_aval, quote_end, unescape, escaped_byte, gap_end};
use crate::runtime::utf8_text;

verus! {

broadcast use vstd::utf8::char_is_scalar, vstd::utf8::char_u32_cast;

/// `encode_utf8` of a concatenation.
pub proof fn lemma_enc_concat(a: Seq<char>, b: Seq<char>)
    ensures
        encode_utf8(a + b) == encode_utf8(a) + encode_utf8(b),
    decreases a.len(),
{
    if a.len() == 0 {
        assert(a + b =~= b);
        assert(encode_utf8(a) =~= Seq::<u8>::empty());
        assert(encode_utf8(a) + encode_utf8(b) =~= encode_utf8(b));
    } else {
        lemma_enc_concat(a.drop_first(), b);
        assert((a + b).drop_first() =~= a.drop_first() + b);
        assert((a + b)[0] == a[0]);
        assert(encode_utf8(a + b) =~= encode_scalar(a[0] as u32) + (encode_utf8(a.drop_first()) + encode_utf8(b)));
    }
}

/// An ASCII character encodes as its code.
pub proof fn lemma_enc_ascii(c: char)
    requires
        (c as u32) < 0x80,
    ensures
        encode_utf8(seq![c]) == seq![(c as u32) as u8],
{
    let u = c as u32;
    assert(seq![c].drop_first() =~= Seq::<char>::empty());
    assert(leading_byte_width_1(u) == u as u8) by (bit_vector)
        requires
            u < 0x80,
    ;
    assert(encode_utf8(seq![c]) =~= encode_scalar(u) + encode_utf8(Seq::<char>::empty()));
}

/// A non-ASCII character encodes as bytes that are all at least 0x80.
pub proof fn lemma_enc_high(c: char)
    requires
        (c as u32) >= 0x80,
    ensures
        encode_utf8(seq![c]).len() >= 1,
        forall|k: int| 0 <= k < encode_utf8(seq![c]).len() ==> #[trigger] encode_utf8(seq![c])[k] >= 0x80,
{
    let u = c as u32;
    assert(seq![c].drop_first() =~= Seq::<char>::empty());
    assert(encode_utf8(Seq::<char>::empty()) =~= Seq::<u8>::empty());
    assert(encode_utf8(seq![c]) =~= encode_scalar(u) + encode_utf8(Seq::<char>::empty()));
    assert(encode_utf8(seq![c]) =~= encode_scalar(u));
    assert(forall|x: u32| #![auto] (0xC0u8 | ((x >> 6u32) & 0x1Fu32) as u8) >= 0x80u8) by (bit_vector);
    assert(forall|x: u32| #![auto] (0xE0u8 | ((x >> 12u32) & 0x0Fu32) as u8) >= 0x80u8) by (bit_vector);
    assert(forall|x: u32| #![auto] (0xF0u8 | ((x >> 18u32) & 0x7u32) as u8) >= 0x80u8) by (bit_vector);
    assert(forall|x: u32| #![auto] (0x80u8 | (x & 0x3Fu32) as u8) >= 0x80u8) by (bit_vector);
    assert(forall|x: u32| #![auto] (0x80u8 | ((x >> 6u32) & 0x3Fu32) as u8) >= 0x80u8) by (bit_vector);
    assert(forall|x: u32| #![auto] (0x80u8 | ((x >> 12u32) & 0x3Fu32) as u8) >= 0x80u8) by (bit_vector);
}

/// `escape_text` of a sequence with a first character.
pub proof fn lemma_escape_front(c: char, s: Seq<char>)
    ensures
        escape_text(seq![c] + s) == escape_char(c) + escape_text(s),
    decreases s.len(),
{
    if s.len() == 0 {
        assert(seq![c] + s =~= seq![c]);
        assert(seq![c].drop_last() =~= Seq::<char>::empty());
        assert(escape_text(seq![c]) =~= escape_text(Seq::<char>::empty()) + escape_char(c));
        assert(escape_char(c) + escape_text(s) =~= escape_char(c));
    } else {
        lemma_escape_front(c, s.drop_last());
        assert((seq![c] + s).drop_last() =~= seq![c] + s.drop_last());
        assert((seq![c] + s).last() == s.last());
    }
}

/// A run of bytes other than quote and backslash is copied as is.
pub proof fn lemma_plain_run(b: Seq<u8>, i: int, n: int, buf: Seq<u8>)
    requires
        0 <= i,
        0 <= n,
        i + n <= b.len(),
        forall|k: int| i <= k < i + n ==> #[trigger] b[k] != 0x22 && b[k] != 0x5c,
    ensures
        string_body(b, i, buf) == string_body(b, i + n, buf + b.subrange(i, i + n)),
    decreases n,
{
    if n == 0 {
        assert(buf + b.subrange(i, i) =~= buf);
    } else {
        lemma_plain_run(b, i + 1, n - 1, buf.push(b[i]));
        assert(buf.push(b[i]) + b.subrange(i + 1, i + n) =~= buf + b.subrange(i, i + n));
    }
}

/// The bytes of an ASCII text are its codes.
pub open spec fn ascii_codes(t: Seq<char>) -> Seq<u8> {
    Seq::new(t.len(), |i: int| (t[i] as u32) as u8)
}

pub open spec fn all_ascii(t: Seq<char>) -> bool {
    forall|i: int| 0 <= i < t.len() ==> (#[trigger] t[i] as u32) < 0x80
}

pub proof fn lemma_enc_ascii_text(t: Seq<char>)
    requires
        all_ascii(t),
    ensures
        encode_utf8(t) == ascii_codes(t),
    decreases t.len(),
{
    if t.len() > 0 {
        assert(all_ascii(t.drop_first())) by {
            assert forall|i: int| 0 <= i < t.drop_first().len() implies (#[trigger] t.drop_first()[i] as u32) < 0x80 by {
                assert(t.drop_first()[i] == t[i + 1]);
            }
        }
        lemma_enc_ascii_text(t.drop_first());
        assert(t[0] as u32 <= 0x7f);
        lemma_enc_ascii(t[0]);
        assert(seq![t[0]].drop_first() =~= Seq::<char>::empty());
        assert(encode_scalar(t[0] as u32) =~= encode_utf8(seq![t[0]]));
        assert(encode_utf8(t) =~= ascii_codes(t));
    }
}

/// The bytes `e` stand in `b` from `i` on.
pub open spec fn matches_at(b: Seq<u8>, i: int, e: Seq<u8>) -> bool {
    0 <= i && i + e.len() <= b.len() && b.subrange(i, i + e.len()) == e
}

/// A match of a concatenation is a match of each part, one after the other.
pub proof fn lemma_match_split(b: Seq<u8>, i: int, x: Seq<u8>, y: Seq<u8>)
    requires
        matches_at(b, i, x + y),
    ensures
        matches_at(b, i, x),
        matches_at(b, i + x.len(), y),
{
    assert(b.subrange(i, i + x.len()) =~= (x + y).subrange(0, x.len() as int));
    assert((x + y).subrange(0, x.len() as int) =~= x);
    assert(b.subrange(i + x.len(), i + x.len() + y.len()) =~= (x + y).subrange(x.len() as int, (x + y).len() as int));
    assert((x + y).subrange(x.len() as int, (x + y).len() as int) =~= y);
}

/// The bytes of a match.
pub proof fn lemma_match_at(b: Seq<u8>, i: int, e: Seq<u8>, k: int)
    requires
        matches_at(b, i, e),
        0 <= k < e.len(),
    ensures
        b[i + k] == e[k],
{
    assert(b.subrange(i, i + e.len())[k] == b[i + k]);
}

/// `join` read from the front.
pub proof fn lemma_join_front(parts: Seq<Seq<char>>, sep: Seq<char>)
    requires
        parts.len() >= 2,
    ensures
        join(parts, sep) == parts[0] + sep + join(parts.drop_first(), sep),
    decreases parts.len(),
{
    let q = parts.drop_first();
    if parts.len() == 2 {
        assert(parts.drop_last().len() == 1);
        assert(join(parts.drop_last(), sep) == parts[0]);
        assert(q.len() == 1);
        assert(join(q, sep) == q[0]);
    } else {
        let d = parts.drop_last();
        lemma_join_front(d, sep);
        assert(d.drop_first() =~= q.drop_last());
        assert(q.last() == parts.last());
        assert(join(q, sep) == join(q.drop_last(), sep) + sep + q.last());
        assert(join(parts, sep) == join(d, sep) + sep + parts.last());
        assert(join(parts, sep) =~= parts[0] + sep + join(parts.drop_first(), sep));
    }
}

/// A decimal digit character has its value.
pub proof fn lemma_digit_char(d: int)
    requires
        0 <= d < 10,
    ensures
        digit_value(digit_char(d)) == d,
        is_digit(digit_char(d)),
        (digit_char(d) as u32) == 0x30 + d,
{
}

/// The decimal text of a natural number: digits, not empty, of that value.
pub proof fn lemma_nat_text(n: nat)
    ensures
        nat_text(n).len() >= 1,
        all_digits(nat_text(n)),
        digits_value(nat_text(n)) == n,
        all_ascii(nat_text(n)),
    decreases n,
{
    if n < 10 {
        lemma_digit_char(n as int);
        assert(nat_text(n) == seq![digit_char(n as int)]);
        assert(seq![digit_char(n as int)].drop_last() =~= Seq::<char>::empty());
        assert(digits_value(nat_text(n)) == digits_value(Seq::<char>::empty()) * 10 + digit_value(digit_char(n as int)));
    } else {
        lemma_nat_text(n / 10);
        let t = nat_text(n);
        let d = digit_char((n % 10) as int);
        assert(t == nat_text(n / 10) + seq![d]);
        assert(t.drop_last() =~= nat_text(n / 10));
        assert(t.last() == d);
        lemma_digit_char((n % 10) as int);
        assert(digits_value(t) == digits_value(t.drop_last()) * 10 + digit_value(t.last()));
        assert((n / 10) * 10 + n % 10 == n) by (nonlinear_arith);
        assert(all_digits(t)) by {
            assert forall|i: int| 0 <= i < t.len() implies #[trigger] is_digit(t[i]) by {
                if i < t.len() - 1 {
                    assert(t[i] == nat_text(n / 10)[i]);
                }
            }
        }
        assert(all_ascii(t)) by {
            assert forall|i: int| 0 <= i < t.len() implies (#[trigger] t[i] as u32) < 0x80 by {
                if i < t.len() - 1 {
                    assert(t[i] == nat_text(n / 10)[i]);
                }
            }
        }
    }
}

/// The decimal text of an `i64` reads back as it.
pub proof fn lemma_int_text_parse(n: int)
    requires
        i64::MIN <= n <= i64::MAX,
    ensures
        parse_i64_spec(int_text(n)) == Some(n as i64),
        int_text(n).len() >= 1,
        all_ascii(int_text(n)),
        forall|k: int| 0 <= k < int_text(n).len() ==> #[trigger] is_digit(int_text(n)[k]) || int_text(n)[k] == '-',
        is_digit(int_text(n)[0]) || int_text(n)[0] == '-',
{
    let s = int_text(n);
    if n < 0 {
        let m = (-n) as nat;
        lemma_nat_text(m);
        assert(s == seq!['-'] + nat_text(m));
        assert(s.drop_first() =~= nat_text(m));
        assert(s[0] == '-');
        assert forall|k: int| 0 <= k < s.len() implies #[trigger] is_digit(s[k]) || s[k] == '-' by {
            if k > 0 {
                assert(s[k] == nat_text(m)[k - 1]);
            }
        }
        assert(all_ascii(s)) by {
            assert forall|k: int| 0 <= k < s.len() implies (#[trigger] s[k] as u32) < 0x80 by {
                if k > 0 {
                    assert(s[k] == nat_text(m)[k - 1]);
                }
            }
        }
    } else {
        lemma_nat_text(n as nat);
        assert(is_digit(s[0]));
    }
}

/// A lowercase hex digit character is ASCII and reads back as its value.
pub proof fn lemma_hex_char(d: int)
    requires
        0 <= d < 16,
    ensures
        (hex_char(d) as u32) < 0x80,
        hex_digit(((hex_char(d) as u32) as u8)) == Some(d as u32),
{
}

/// Four hex digits `0`, `0`, `h`, `l` read as `h * 16 + l`.
pub proof fn lemma_hex_window(w: Seq<u8>, h: u32, l: u32)
    requires
        w.len() == 4,
        w[0] == 0x30,
        w[1] == 0x30,
        hex_digit(w[2]) == Some(h),
        hex_digit(w[3]) == Some(l),
        h < 16,
        l < 16,
    ensures
        hex_value_of(w) == Some((h * 16 + l) as u32),
{
    let w3 = w.drop_last();
    let w2 = w3.drop_last();
    let w1 = w2.drop_last();
    let w0 = w1.drop_last();
    assert(w0.len() == 0);
    assert(hex_run(w0) == Some(0u32));
    assert(w1.last() == w[0]);
    assert(hex_digit(w[0]) == Some(0u32));
    assert(hex_run(w1) == Some(0u32));
    assert(w2.last() == w[1]);
    assert(hex_run(w2) == Some(0u32));
    assert(w3.last() == w[2]);
    assert(hex_run(w3) == Some(h));
    assert(w.last() == w[3]);
    assert(hex_run(w) == Some((h * 16 + l) as u32));
}

/// The UTF-8 bytes of an ASCII text.
pub proof fn lemma_enc_ascii_at(t: Seq<char>, k: int)
    requires
        all_ascii(t),
        0 <= k < t.len(),
    ensures
        encode_utf8(t).len() == t.len(),
        encode_utf8(t)[k] == (t[k] as u32) as u8,
{
    lemma_enc_ascii_text(t);
}

/// One escaped character read by the string scanner: its bytes are consumed and the
/// character's UTF-8 bytes are appended.
pub proof fn lemma_escape_one(b: Seq<u8>, i: int, c: char, buf: Seq<u8>)
    requires
        matches_at(b, i, encode_utf8(escape_char(c))),
        i + encode_utf8(escape_char(c)).len() < b.len(),
    ensures
        string_body(b, i, buf) == string_body(b, i + encode_utf8(escape_char(c)).len(), buf + encode_utf8(seq![c])),
{
    let e = escape_char(c);
    let eb = encode_utf8(e);
    let u = c as u32;
    if c == '"' || c == '\\' || c == '\n' || c == '\r' || c == '\t' {
        assert(all_ascii(e));
        lemma_enc_ascii_at(e, 0);
        lemma_enc_ascii_at(e, 1);
        lemma_match_at(b, i, eb, 0);
        lemma_match_at(b, i, eb, 1);
        lemma_enc_ascii(c);
        assert(b[i] == 0x5c);
        assert(buf.push(u as u8) =~= buf + encode_utf8(seq![c]));
    } else if u < 0x20 {
        let hi = (u / 16) as int;
        let lo = (u % 16) as int;
        lemma_hex_char(hi);
        lemma_hex_char(lo);
        assert(all_ascii(e));
        assert(e.len() == 6);
        lemma_enc_ascii_text(e);
        assert forall|k: int| 0 <= k < 6 implies b[i + k] == #[trigger] eb[k] by {
            lemma_match_at(b, i, eb, k);
        }
        assert(eb[0] == 0x5c);
        assert(eb[1] == 0x75);
        let j = i + 2;
        let w = b.subrange(j, j + 4);
        assert(w[0] == eb[2]);
        assert(w[1] == eb[3]);
        assert(w[2] == eb[4]);
        assert(w[3] == eb[5]);
        lemma_hex_window(w, hi as u32, lo as u32);
        assert(hi * 16 + lo == u);
        assert(leading_byte_width_1(u) == u as u8) by (bit_vector)
            requires
                u < 0x20,
        ;
        assert(unicode_escape(w) =~= seq![u as u8]);
        lemma_enc_ascii(c);
        assert(string_body(b, i, buf) == string_body(b, j + 4, buf + unicode_escape(w)));
    } else {
        assert(e == seq![c]);
        let n = eb.len() as int;
        if u < 0x80 {
            lemma_enc_ascii(c);
        } else {
            lemma_enc_high(c);
        }
        assert forall|k: int| i <= k < i + n implies #[trigger] b[k] != 0x22 && b[k] != 0x5c by {
            lemma_match_at(b, i, eb, k - i);
        }
        lemma_plain_run(b, i, n, buf);
        assert(b.subrange(i, i + n) == eb);
    }
}

/// The body of a string literal reads as the UTF-8 bytes of the string it escapes,
/// ending after the closing quote.
pub proof fn lemma_string_body(b: Seq<u8>, i: int, s: Seq<char>, buf: Seq<u8>)
    requires
        matches_at(b, i, encode_utf8(escape_text(s) + seq!['"'])),
    ensures
        string_body(b, i, buf) == (buf + encode_utf8(s), i + encode_utf8(escape_text(s)).len() + 1),
    decreases s.len(),
{
    lemma_enc_concat(escape_text(s), seq!['"']);
    lemma_enc_ascii('"');
    if s.len() == 0 {
        assert(escape_text(s) =~= Seq::<char>::empty());
        lemma_match_split(b, i, encode_utf8(escape_text(s)), encode_utf8(seq!['"']));
        lemma_match_at(b, i, encode_utf8(seq!['"']), 0);
        assert(encode_utf8(s) =~= Seq::<u8>::empty());
        assert(buf + encode_utf8(s) =~= buf);
    } else {
        let c = s[0];
        let r = s.drop_first();
        assert(s =~= seq![c] + r);
        lemma_escape_front(c, r);
        let e1 = escape_char(c);
        let tail = escape_text(r) + seq!['"'];
        assert(escape_text(s) + seq!['"'] =~= e1 + tail);
        lemma_enc_concat(e1, tail);
        lemma_match_split(b, i, encode_utf8(e1), encode_utf8(tail));
        lemma_enc_concat(escape_text(r), seq!['"']);
        let n1 = encode_utf8(e1).len() as int;
        lemma_escape_one(b, i, c, buf);
        lemma_string_body(b, i + n1, r, buf + encode_utf8(seq![c]));
        lemma_enc_concat(seq![c], r);
        lemma_enc_concat(e1, escape_text(r));
        assert(buf + encode_utf8(seq![c]) + encode_utf8(r) =~= buf + encode_utf8(s));
    }
}

/// A byte the number scanner takes.
pub open spec fn num_byte(c: u8) -> bool {
    is_dec(c) || c == 0x2d || c == 0x2b || c == 0x2e || c == 0x65 || c == 0x45
}

/// A byte that makes a scanned number a float.
pub open spec fn float_byte(c: u8) -> bool {
    c == 0x2e || c == 0x65 || c == 0x45
}

/// What may follow a value inside JSON text: the end, a comma, or a closing bracket.
pub open spec fn ends_value(b: Seq<u8>, p: int) -> bool {
    p == b.len() || (0 <= p < b.len() && (b[p] == 0x2c || b[p] == 0x5d || b[p] == 0x7d))
}

/// Float literal text that reads back as itself: ASCII number characters, one of them a
/// `.`, `e` or `E`, in the shape `f64::from_str` accepts.
pub open spec fn float_literal(t: Seq<char>) -> bool {
    &&& t.len() > 0
    &&& all_ascii(t)
    &&& forall|k: int| 0 <= k < t.len() ==> num_byte(#[trigger] ascii_codes(t)[k])
    &&& exists|k: int| 0 <= k < t.len() && float_byte(#[trigger] ascii_codes(t)[k])
    &&& float_ok(ascii_codes(t))
}

/// Whitespace skipping stops at once on a byte that is not whitespace.
pub proof fn lemma_no_ws(b: Seq<u8>, i: int)
    requires
        0 <= i < b.len(),
        !is_json_ws(b[i]),
    ensures
        ws_from(b, i) == i,
{
}

/// ASCII codes read back as the characters.
pub proof fn lemma_ascii_back(t: Seq<char>)
    requires
        all_ascii(t),
    ensures
        ascii_chars(ascii_codes(t)) == t,
{
    assert forall|k: int| 0 <= k < t.len() implies #[trigger] ascii_chars(ascii_codes(t))[k] == t[k] by {
        let u = t[k] as u32;
        let v = u as u8;
        assert(v == u);
        vstd::utf8::char_u32_cast(t[k], u);
        assert(v as char == u as char);
    }
    assert(ascii_chars(ascii_codes(t)) =~= t);
}

/// The number scan over number bytes up to a value end.
pub proof fn lemma_number_scan(b: Seq<u8>, i: int, p: int, f: bool)
    requires
        0 <= i <= p <= b.len(),
        forall|k: int| i <= k < p ==> num_byte(#[trigger] b[k]),
        ends_value(b, p),
    ensures
        number_scan(b, i, f).0 == p,
        number_scan(b, i, f).1 == (f || exists|k: int| i <= k < p && float_byte(#[trigger] b[k])),
    decreases p - i,
{
    if i < p {
        assert(num_byte(b[i]));
        if float_byte(b[i]) {
            lemma_number_scan(b, i + 1, p, true);
        } else {
            lemma_number_scan(b, i + 1, p, f);
            if exists|k: int| i <= k < p && float_byte(#[trigger] b[k]) {
                let k = choose|k: int| i <= k < p && float_byte(#[trigger] b[k]);
                assert(k != i);
                assert(i + 1 <= k < p && float_byte(b[k]));
            }
        }
    }
}

/// An `i64` reads back from its decimal text.
pub proof fn lemma_read_int(b: Seq<u8>, i: int, n: int)
    requires
        i64::MIN <= n <= i64::MAX,
        matches_at(b, i, encode_utf8(int_text(n))),
        ends_value(b, i + encode_utf8(int_text(n)).len()),
    ensures
        read_value(b, i) == (Json::Int(n), i + encode_utf8(int_text(n)).len(), true),
{
    let t = int_text(n);
    lemma_int_text_parse(n);
    lemma_enc_ascii_text(t);
    let tb = encode_utf8(t);
    let p = i + tb.len();
    assert forall|k: int| i <= k < p implies num_byte(#[trigger] b[k]) && !float_byte(b[k]) by {
        lemma_match_at(b, i, tb, k - i);
        assert(is_digit(t[k - i]) || t[k - i] == '-');
    }
    lemma_match_at(b, i, tb, 0);
    lemma_no_ws(b, i);
    lemma_number_scan(b, i, p, false);
    assert(b.subrange(i, p) == tb);
    lemma_ascii_back(t);
}

/// A float literal reads back as itself.
pub proof fn lemma_read_float(b: Seq<u8>, i: int, t: Seq<char>)
    requires
        float_literal(t),
        matches_at(b, i, encode_utf8(t)),
        ends_value(b, i + encode_utf8(t).len()),
    ensures
        read_value(b, i) == (Json::Float(t), i + encode_utf8(t).len(), true),
{
    lemma_enc_ascii_text(t);
    let tb = encode_utf8(t);
    let p = i + tb.len();
    assert forall|k: int| i <= k < p implies num_byte(#[trigger] b[k]) by {
        lemma_match_at(b, i, tb, k - i);
    }
    let q = choose|k: int| 0 <= k < t.len() && float_byte(#[trigger] ascii_codes(t)[k]);
    lemma_match_at(b, i, tb, q);
    assert(float_byte(b[i + q]));
    lemma_match_at(b, i, tb, 0);
    lemma_no_ws(b, i);
    lemma_number_scan(b, i, p, false);
    assert(b.subrange(i, p) == tb);
    lemma_ascii_back(t);
}

/// A literal word reads back.
pub proof fn lemma_read_word(b: Seq<u8>, i: int, j: Json)
    requires
        j is Null || j is Bool,
        matches_at(b, i, encode_utf8(json_text(j))),
    ensures
        read_value(b, i) == (j, i + encode_utf8(json_text(j)).len(), true),
{
    let t = json_text(j);
    assert(all_ascii(t));
    lemma_enc_ascii_text(t);
    let tb = encode_utf8(t);
    assert forall|k: int| 0 <= k < t.len() implies b[i + k] == #[trigger] tb[k] by {
        lemma_match_at(b, i, tb, k);
    }
    assert(b.subrange(i, i + tb.len()) == tb);
    if j is Null {
        assert(tb =~= seq![0x6eu8, 0x75, 0x6c, 0x6c]);
    } else if j == Json::Bool(true) {
        assert(tb =~= seq![0x74u8, 0x72, 0x75, 0x65]);
    } else {
        assert(tb =~= seq![0x66u8, 0x61, 0x6c, 0x73, 0x65]);
    }
    assert(b[i] == tb[0]);
    lemma_no_ws(b, i);
}

/// The bytes of a string literal: quote, escaped body, quote.
pub proof fn lemma_quoted_bytes(s: Seq<char>)
    ensures
        encode_utf8(quoted(s)) == seq![0x22u8] + encode_utf8(escape_text(s) + seq!['"']),
        encode_utf8(escape_text(s) + seq!['"']) == encode_utf8(escape_text(s)) + seq![0x22u8],
{
    lemma_enc_ascii('"');
    assert(quoted(s) =~= seq!['"'] + (escape_text(s) + seq!['"']));
    lemma_enc_concat(seq!['"'], escape_text(s) + seq!['"']);
    lemma_enc_concat(escape_text(s), seq!['"']);
}

/// A string literal reads back as the string, from its opening quote.
pub proof fn lemma_read_quoted(b: Seq<u8>, i: int, s: Seq<char>)
    requires
        matches_at(b, i, encode_utf8(quoted(s))),
    ensures
        b[i] == 0x22,
        string_body(b, i + 1, Seq::empty()).0 == encode_utf8(s),
        string_body(b, i + 1, Seq::empty()).1 == i + encode_utf8(quoted(s)).len(),
        utf8_or_empty_text(encode_utf8(s)) == s,
{
    broadcast use vstd::utf8::encode_utf8_valid_utf8, vstd::utf8::encode_utf8_decode_utf8;
    lemma_quoted_bytes(s);
    lemma_match_split(b, i, seq![0x22u8], encode_utf8(escape_text(s) + seq!['"']));
    lemma_match_at(b, i, seq![0x22u8], 0);
    lemma_string_body(b, i + 1, s, Seq::empty());
    assert(Seq::<u8>::empty() + encode_utf8(s) =~= encode_utf8(s));
}

/// Values whose JSON text reads back as the value: integers within `i64`, float literals
/// of the shape above, and lists and objects of such values.
pub open spec fn printable(j: Json) -> bool
    decreases j,
{
    match j {
        Json::Int(n) => i64::MIN <= n <= i64::MAX,
        Json::Float(t) => float_literal(t),
        Json::List(xs) => forall|k: int| 0 <= k < xs.len() ==> printable(#[trigger] xs[k]),
        Json::Object(fs) => forall|k: int| 0 <= k < fs.len() ==> printable(#[trigger] fs[k].1),
        _ => true,
    }
}

/// The text between the brackets of a list.
pub open spec fn items_text(xs: Seq<Json>) -> Seq<char> {
    join(item_texts(xs), seq![','])
}

/// The text between the braces of an object.
pub open spec fn fields_text(fs: Seq<(Seq<char>, Json)>) -> Seq<char> {
    join(field_texts(fs), seq![','])
}

/// The text of one field.
pub open spec fn field_text(f: (Seq<char>, Json)) -> Seq<char> {
    quoted(f.0) + seq![':'] + json_text(f.1)
}

pub proof fn lemma_enc3(a: Seq<char>, m: Seq<char>, c: Seq<char>)
    ensures
        encode_utf8(a + m + c) == encode_utf8(a) + encode_utf8(m) + encode_utf8(c),
{
    lemma_enc_concat(a + m, c);
    lemma_enc_concat(a, m);
}

/// The items of a list from the `k`-th on, read from the front.
pub proof fn lemma_items_front(l: Seq<Json>, k: int)
    requires
        0 <= k < l.len(),
    ensures
        items_text(l.skip(k)) == if k == l.len() - 1 {
            json_text(l[k])
        } else {
            json_text(l[k]) + seq![','] + items_text(l.skip(k + 1))
        },
{
    let xs = l.skip(k);
    let p = item_texts(xs);
    assert(p[0] == json_text(l[k]));
    if k < l.len() - 1 {
        lemma_join_front(p, seq![',']);
        assert(p.drop_first() =~= item_texts(l.skip(k + 1)));
    }
}

/// The fields of an object from the `k`-th on, read from the front.
pub proof fn lemma_fields_front(fs: Seq<(Seq<char>, Json)>, k: int)
    requires
        0 <= k < fs.len(),
    ensures
        fields_text(fs.skip(k)) == if k == fs.len() - 1 {
            field_text(fs[k])
        } else {
            field_text(fs[k]) + seq![','] + fields_text(fs.skip(k + 1))
        },
{
    let xs = fs.skip(k);
    let p = field_texts(xs);
    assert(p[0] == field_text(fs[k]));
    if k < fs.len() - 1 {
        lemma_join_front(p, seq![',']);
        assert(p.drop_first() =~= field_texts(fs.skip(k + 1)));
    }
}

/// Every value's JSON text reads back as the value, from its first byte to the byte after
/// its last, when what follows it may follow a value.
pub proof fn lemma_read_json(b: Seq<u8>, i: int, j: Json)
    requires
        printable(j),
        matches_at(b, i, encode_utf8(json_text(j))),
        ends_value(b, i + encode_utf8(json_text(j)).len()),
    ensures
        read_value(b, i) == (j, i + encode_utf8(json_text(j)).len(), true),
        encode_utf8(json_text(j)).len() >= 1,
        b[i] != 0x5d && !is_json_ws(b[i]),
    decreases j, 1int, 0int,
{
    let t = json_text(j);
    match j {
        Json::Null => {
            lemma_read_word(b, i, j);
            lemma_enc_ascii_text(t);
            lemma_match_at(b, i, encode_utf8(t), 0);
        },
        Json::Bool(_) => {
            lemma_read_word(b, i, j);
            lemma_enc_ascii_text(t);
            lemma_match_at(b, i, encode_utf8(t), 0);
        },
        Json::Int(n) => {
            lemma_read_int(b, i, n);
            lemma_int_text_parse(n);
            lemma_enc_ascii_text(t);
            lemma_match_at(b, i, encode_utf8(t), 0);
        },
        Json::Float(f) => {
            lemma_read_float(b, i, f);
            lemma_enc_ascii_text(t);
            lemma_match_at(b, i, encode_utf8(t), 0);
            assert(num_byte(ascii_codes(f)[0]));
        },
        Json::Str(s) => {
            lemma_read_quoted(b, i, s);
            lemma_quoted_bytes(s);
            lemma_no_ws(b, i);
        },
        Json::List(xs) => {
            let body = items_text(xs);
            lemma_enc3(seq!['['], body, seq![']']);
            lemma_enc_ascii('[');
            lemma_enc_ascii(']');
            let eb = encode_utf8(body);
            lemma_match_split(b, i, seq![0x5bu8] + eb, seq![0x5du8]);
            lemma_match_split(b, i, seq![0x5bu8], eb);
            lemma_match_at(b, i, seq![0x5bu8], 0);
            lemma_match_at(b, i + 1 + eb.len(), seq![0x5du8], 0);
            lemma_no_ws(b, i);
            if xs.len() == 0 {
                assert(item_texts(xs) =~= Seq::<Seq<char>>::empty());
                assert(eb.len() == 0);
                lemma_no_ws(b, i + 1);
                assert(xs =~= Seq::<Json>::empty());
            } else {
                assert(xs.skip(0) =~= xs);
                assert(matches_at(b, i + 1, eb + seq![0x5du8])) by {
                    assert(b.subrange(i + 1, i + 1 + eb.len() + 1) =~= eb + seq![0x5du8]);
                }
                lemma_items(b, i + 1, xs, 0, Seq::empty());
                assert(Seq::<Json>::empty() + xs =~= xs);
            }
        },
        Json::Object(fs) => {
            let body = fields_text(fs);
            lemma_enc3(seq!['{'], body, seq!['}']);
            lemma_enc_ascii('{');
            lemma_enc_ascii('}');
            let eb = encode_utf8(body);
            lemma_match_split(b, i, seq![0x7bu8] + eb, seq![0x7du8]);
            lemma_match_split(b, i, seq![0x7bu8], eb);
            lemma_match_at(b, i, seq![0x7bu8], 0);
            lemma_match_at(b, i + 1 + eb.len(), seq![0x7du8], 0);
            lemma_no_ws(b, i);
            if fs.len() == 0 {
                assert(field_texts(fs) =~= Seq::<Seq<char>>::empty());
                assert(eb.len() == 0);
                lemma_no_ws(b, i + 1);
                assert(fs =~= Seq::<(Seq<char>, Json)>::empty());
            } else {
                assert(fs.skip(0) =~= fs);
                assert(matches_at(b, i + 1, eb + seq![0x7du8])) by {
                    assert(b.subrange(i + 1, i + 1 + eb.len() + 1) =~= eb + seq![0x7du8]);
                }
                lemma_fields(b, i + 1, fs, 0, Seq::empty());
                assert(Seq::<(Seq<char>, Json)>::empty() + fs =~= fs);
            }
        },
    }
}

/// The items of a list from the `k`-th on read back, followed by the closing bracket.
pub proof fn lemma_items(b: Seq<u8>, i: int, l: Seq<Json>, k: int, acc: Seq<Json>)
    requires
        0 <= k < l.len(),
        forall|m: int| 0 <= m < l.len() ==> printable(#[trigger] l[m]),
        matches_at(b, i, encode_utf8(items_text(l.skip(k))) + seq![0x5du8]),
    ensures
        read_array(b, i, acc) == (Json::List(acc + l.skip(k)), i + encode_utf8(items_text(l.skip(k))).len() + 1, true),
    decreases l, 0int, l.len() - k,
{
    let x = l[k];
    let ex = encode_utf8(json_text(x));
    lemma_items_front(l, k);
    assert(printable(x));
    if k == l.len() - 1 {
        lemma_match_split(b, i, ex, seq![0x5du8]);
        lemma_match_at(b, i + ex.len(), seq![0x5du8], 0);
        lemma_read_json(b, i, x);
        lemma_no_ws(b, i);
        lemma_no_ws(b, i + ex.len());
        assert(acc.push(x) =~= acc + l.skip(k));
    } else {
        let rest = items_text(l.skip(k + 1));
        let er = encode_utf8(rest);
        lemma_enc3(json_text(x), seq![','], rest);
        lemma_enc_ascii(',');
        assert(ex + seq![0x2cu8] + er + seq![0x5du8] =~= ex + (seq![0x2cu8] + (er + seq![0x5du8])));
        lemma_match_split(b, i, ex, seq![0x2cu8] + (er + seq![0x5du8]));
        lemma_match_split(b, i + ex.len(), seq![0x2cu8], er + seq![0x5du8]);
        lemma_match_at(b, i + ex.len(), seq![0x2cu8], 0);
        lemma_read_json(b, i, x);
        lemma_no_ws(b, i);
        lemma_no_ws(b, i + ex.len());
        lemma_items(b, i + ex.len() + 1, l, k + 1, acc.push(x));
        assert(acc.push(x) + l.skip(k + 1) =~= acc + l.skip(k));
    }
}

/// The fields of an object from the `k`-th on read back, followed by the closing brace.
pub proof fn lemma_fields(b: Seq<u8>, i: int, fs: Seq<(Seq<char>, Json)>, k: int, acc: Seq<(Seq<char>, Json)>)
    requires
        0 <= k < fs.len(),
        forall|m: int| 0 <= m < fs.len() ==> printable(#[trigger] fs[m].1),
        matches_at(b, i, encode_utf8(fields_text(fs.skip(k))) + seq![0x7du8]),
    ensures
        read_object(b, i, acc) == (Json::Object(acc + fs.skip(k)), i + encode_utf8(fields_text(fs.skip(k))).len() + 1, true),
    decreases fs, 0int, fs.len() - k,
{
    let f = fs[k];
    let eq = encode_utf8(quoted(f.0));
    let ev = encode_utf8(json_text(f.1));
    let ef = encode_utf8(field_text(f));
    lemma_enc3(quoted(f.0), seq![':'], json_text(f.1));
    lemma_enc_ascii(':');
    assert(ef == eq + seq![0x3au8] + ev);
    lemma_fields_front(fs, k);
    assert(printable(f.1));
    assert(decreases_to!(fs => fs[k]));
    assert(decreases_to!(fs[k] => fs[k].1));
    let close: Seq<u8> = if k == fs.len() - 1 {
        seq![0x7du8]
    } else {
        seq![0x2cu8] + encode_utf8(fields_text(fs.skip(k + 1))) + seq![0x7du8]
    };
    if k == fs.len() - 1 {
        assert(encode_utf8(fields_text(fs.skip(k))) + seq![0x7du8] =~= eq + (seq![0x3au8] + (ev + close)));
    } else {
        let rest = fields_text(fs.skip(k + 1));
        lemma_enc3(field_text(f), seq![','], rest);
        lemma_enc_ascii(',');
        assert(encode_utf8(fields_text(fs.skip(k))) + seq![0x7du8] =~= eq + (seq![0x3au8] + (ev + close)));
    }
    lemma_match_split(b, i, eq, seq![0x3au8] + (ev + close));
    lemma_match_split(b, i + eq.len(), seq![0x3au8], ev + close);
    lemma_match_split(b, i + eq.len() + 1, ev, close);
    lemma_match_at(b, i + eq.len(), seq![0x3au8], 0);
    lemma_match_at(b, i + eq.len() + 1 + ev.len(), close, 0);
    lemma_read_quoted(b, i, f.0);
    lemma_no_ws(b, i);
    lemma_no_ws(b, i + eq.len());
    lemma_read_json(b, i + eq.len() + 1, f.1);
    lemma_no_ws(b, i + eq.len() + 1 + ev.len());
    assert((f.0, f.1) == f);
    if k == fs.len() - 1 {
        assert(acc.push(f) =~= acc + fs.skip(k));
    } else {
        let rest = fields_text(fs.skip(k + 1));
        assert(close =~= seq![0x2cu8] + (encode_utf8(rest) + seq![0x7du8]));
        lemma_match_split(b, i + eq.len() + 1 + ev.len(), seq![0x2cu8], encode_utf8(rest) + seq![0x7du8]);
        lemma_fields(b, i + eq.len() + 1 + ev.len() + 1, fs, k + 1, acc.push(f));
        assert(acc.push(f) + fs.skip(k + 1) =~= acc + fs.skip(k));
    }
}

/// Reading the JSON text that a value writes gives the value back, and the reader stays in
/// bounds on it: for every value whose integers fit `i64` and whose float texts are float
/// literals with a `.`, `e` or `E`.
pub proof fn law_json_roundtrip(j: Json)
    requires
        printable(j),
    ensures
        parse_json(json_text(j)) == j,
        parse_json_ok(json_text(j)),
{
    let b = encode_utf8(json_text(j));
    assert(b.subrange(0, b.len() as int) =~= b);
    lemma_read_json(b, 0, j);
}


/// The JSON reader reads an escaped string body, up to its closing quote, as the UTF-8
/// bytes of the string.
proof fn lemma_string_body_gql(b: Seq<u8>, i: int, s: Seq<char>, buf: Seq<u8>)
    requires
        matches_at(b, i, encode_utf8(gql_escape_text(s)) + seq![0x22u8]),
    ensures
        string_body(b, i, buf) == (buf + encode_utf8(s), i + encode_utf8(gql_escape_text(s)).len() + 1),
    decreases s.len(),
{
    if s.len() == 0 {
        assert(gql_escape_text(s) =~= Seq::<char>::empty());
        assert(encode_utf8(gql_escape_text(s)) =~= Seq::<u8>::empty());
        lemma_match_at(b, i, encode_utf8(gql_escape_text(s)) + seq![0x22u8], 0);
        assert(encode_utf8(s) =~= Seq::<u8>::empty());
        assert(buf + encode_utf8(s) =~= buf);
    } else {
        let c = s[0];
        let r = s.drop_first();
        assert(s =~= seq![c] + r);
        lemma_gql_escape_front(c, r);
        lemma_enc_concat(gql_esc(c), gql_escape_text(r));
        lemma_enc_concat(seq![c], r);
        lemma_gql_esc_bytes(c);
        let e1 = encode_utf8(gql_esc(c));
        let er = encode_utf8(gql_escape_text(r));
        assert(encode_utf8(gql_escape_text(s)) + seq![0x22u8] =~= e1 + (er + seq![0x22u8]));
        lemma_match_split(b, i, e1, er + seq![0x22u8]);
        lemma_match_at(b, i + e1.len(), er + seq![0x22u8], er.len() as int);
        let buf1 = buf + encode_utf8(seq![c]);
        lemma_string_body_gql(b, i + e1.len(), r, buf1);
        if c == '\\' || c == '"' {
            lemma_match_at(b, i, e1, 0);
            lemma_match_at(b, i, e1, 1);
            assert(b[i] == 0x5c);
            assert(b[i + 1] == (c as u32) as u8);
            assert(byte_at(b, i + 1) == (c as u32) as u8);
            assert(simple_escape((c as u32) as u8) == Some((c as u32) as u8));
            assert(buf.push((c as u32) as u8) =~= buf1);
        } else {
            assert forall|k: int| i <= k < i + e1.len() implies #[trigger] b[k] != 0x22 && b[k] != 0x5c by {
                lemma_match_at(b, i, e1, k - i);
            }
            lemma_plain_run(b, i, e1.len() as int, buf);
            assert(b.subrange(i, i + e1.len()) =~= e1);
        }
        assert(buf1 + encode_utf8(r) =~= buf + encode_utf8(s));
    }
}

/// Any string, escaped by `gql_escape` and put in quotes (what `to_gql_arg` writes), reads
/// back through the JSON reader as itself (the reader keeps raw control characters).
pub proof fn law_gql_literal_reads_back(s: Seq<char>)
    ensures
        parse_json_ok(gql_string_literal(s)),
        parse_json(gql_string_literal(s)) == Json::Str(s),
{
    broadcast use vstd::utf8::encode_utf8_valid_utf8, vstd::utf8::encode_utf8_decode_utf8;
    let e = encode_utf8(gql_escape_text(s));
    let b = encode_utf8(gql_string_literal(s));
    lemma_enc_ascii('"');
    lemma_enc_concat(seq!['"'] + gql_escape_text(s), seq!['"']);
    lemma_enc_concat(seq!['"'], gql_escape_text(s));
    assert(b =~= seq![0x22u8] + (e + seq![0x22u8]));
    lemma_no_ws(b, 0);
    assert(matches_at(b, 1, e + seq![0x22u8])) by {
        assert(b.subrange(1, 1 + (e + seq![0x22u8]).len() as int) =~= e + seq![0x22u8]);
    }
    lemma_string_body_gql(b, 1, s, Seq::empty());
    assert(Seq::<u8>::empty() + encode_utf8(s) =~= encode_utf8(s));
    assert(utf8_or_empty_text(encode_utf8(s)) == s);
}

/// What `gql_escape` writes for one character.
pub open spec fn gql_esc(c: char) -> Seq<char> {
    if c == '\\' {
        seq!['\\', '\\']
    } else if c == '"' {
        seq!['\\', '"']
    } else {
        seq![c]
    }
}

/// `gql_escape_text` of a sequence with a first character.
proof fn lemma_gql_escape_front(c: char, s: Seq<char>)
    ensures
        gql_escape_text(seq![c] + s) == gql_esc(c) + gql_escape_text(s),
    decreases s.len(),
{
    if s.len() == 0 {
        assert(seq![c] + s =~= seq![c]);
        assert(seq![c].drop_last() =~= Seq::<char>::empty());
        assert(gql_escape_text(seq![c]) =~= gql_escape_text(Seq::<char>::empty()) + gql_esc(c));
        assert(gql_esc(c) + gql_escape_text(s) =~= gql_esc(c));
    } else {
        lemma_gql_escape_front(c, s.drop_last());
        assert((seq![c] + s).drop_last() =~= seq![c] + s.drop_last());
        assert((seq![c] + s).last() == s.last());
    }
}

/// The bytes of one escaped character: a backslash and the character's byte for `"` and
/// `\`, otherwise the character's own bytes, none of which is a quote or a backslash.
proof fn lemma_gql_esc_bytes(c: char)
    ensures
        (c == '\\' || c == '"') ==> encode_utf8(gql_esc(c)) == seq![0x5cu8, (c as u32) as u8]
            && encode_utf8(seq![c]) == seq![(c as u32) as u8]
            && ((c as u32) as u8 == 0x5c || (c as u32) as u8 == 0x22),
        !(c == '\\' || c == '"') ==> encode_utf8(gql_esc(c)) == encode_utf8(seq![c])
            && encode_utf8(seq![c]).len() >= 1
            && forall|k: int| 0 <= k < encode_utf8(seq![c]).len() ==>
                #[trigger] encode_utf8(seq![c])[k] != 0x5c && encode_utf8(seq![c])[k] != 0x22,
{
    if c == '\\' || c == '"' {
        lemma_enc_ascii('\\');
        lemma_enc_ascii(c);
        lemma_enc_concat(seq!['\\'], seq![c]);
        assert(gql_esc(c) =~= seq!['\\'] + seq![c]);
        assert(seq![0x5cu8] + seq![(c as u32) as u8] =~= seq![0x5cu8, (c as u32) as u8]);
    } else if (c as u32) < 0x80 {
        lemma_enc_ascii(c);
    } else {
        lemma_enc_high(c);
    }
}

/// Bytes other than a backslash pass through `unescape` as they are.
proof fn lemma_unescape_plain(x: Seq<u8>, rest: Seq<u8>)
    requires
        forall|k: int| 0 <= k < x.len() ==> #[trigger] x[k] != 0x5c,
    ensures
        unescape(x + rest) == x + unescape(rest),
    decreases x.len(),
{
    if x.len() == 0 {
        assert(x + rest =~= rest);
        assert(x + unescape(rest) =~= unescape(rest));
    } else {
        let y = x.drop_first();
        assert forall|k: int| 0 <= k < y.len() implies #[trigger] y[k] != 0x5c by {
            assert(y[k] == x[k + 1]);
        }
        lemma_unescape_plain(y, rest);
        assert((x + rest)[0] == x[0]);
        assert((x + rest).skip(1) =~= y + rest);
        assert(seq![x[0]] + (y + unescape(rest)) =~= x + unescape(rest));
    }
}

/// `unescape` undoes `gql_escape` on UTF-8 bytes, whatever follows.
proof fn lemma_unescape_escaped(s: Seq<char>, rest: Seq<u8>)
    ensures
        unescape(encode_utf8(gql_escape_text(s)) + rest) == encode_utf8(s) + unescape(rest),
    decreases s.len(),
{
    if s.len() == 0 {
        assert(gql_escape_text(s) =~= Seq::<char>::empty());
        assert(encode_utf8(gql_escape_text(s)) =~= Seq::<u8>::empty());
        assert(encode_utf8(s) =~= Seq::<u8>::empty());
        assert(Seq::<u8>::empty() + rest =~= rest);
        assert(Seq::<u8>::empty() + unescape(rest) =~= unescape(rest));
    } else {
        let c = s[0];
        let r = s.drop_first();
        assert(s =~= seq![c] + r);
        lemma_gql_escape_front(c, r);
        lemma_enc_concat(gql_esc(c), gql_escape_text(r));
        lemma_enc_concat(seq![c], r);
        lemma_gql_esc_bytes(c);
        let e1 = encode_utf8(gql_esc(c));
        let er = encode_utf8(gql_escape_text(r));
        lemma_unescape_escaped(r, rest);
        assert(encode_utf8(gql_escape_text(s)) + rest =~= e1 + (er + rest));
        if c == '\\' || c == '"' {
            let x = e1 + (er + rest);
            assert(x[0] == 0x5c && x.len() >= 2);
            assert(x[1] == (c as u32) as u8);
            assert(x.skip(2) =~= er + rest);
            assert(escaped_byte((c as u32) as u8) == (c as u32) as u8);
            assert(unescape(x) == seq![(c as u32) as u8] + unescape(er + rest));
        } else {
            lemma_unescape_plain(e1, er + rest);
        }
        assert(encode_utf8(s) + unescape(rest) =~= encode_utf8(seq![c]) + (encode_utf8(r) + unescape(rest)));
    }
}

/// Bytes other than a quote or a backslash are skipped by the closing-quote scan.
proof fn lemma_quote_end_plain(b: Seq<u8>, i: int, n: int)
    requires
        0 <= i,
        0 <= n,
        i + n <= b.len(),
        forall|k: int| i <= k < i + n ==> #[trigger] b[k] != 0x22 && b[k] != 0x5c,
    ensures
        quote_end(b, i) == quote_end(b, i + n),
    decreases n,
{
    if n > 0 {
        lemma_quote_end_plain(b, i + 1, n - 1);
    }
}

/// The closing-quote scan over an escaped text stops at the quote after it.
proof fn lemma_quote_end_escaped(b: Seq<u8>, i: int, s: Seq<char>)
    requires
        matches_at(b, i, encode_utf8(gql_escape_text(s)) + seq![0x22u8]),
    ensures
        quote_end(b, i) == i + encode_utf8(gql_escape_text(s)).len(),
    decreases s.len(),
{
    if s.len() == 0 {
        assert(gql_escape_text(s) =~= Seq::<char>::empty());
        assert(encode_utf8(gql_escape_text(s)) =~= Seq::<u8>::empty());
        lemma_match_at(b, i, encode_utf8(gql_escape_text(s)) + seq![0x22u8], 0);
    } else {
        let c = s[0];
        let r = s.drop_first();
        assert(s =~= seq![c] + r);
        lemma_gql_escape_front(c, r);
        lemma_enc_concat(gql_esc(c), gql_escape_text(r));
        lemma_gql_esc_bytes(c);
        let e1 = encode_utf8(gql_esc(c));
        let er = encode_utf8(gql_escape_text(r));
        assert(encode_utf8(gql_escape_text(s)) + seq![0x22u8] =~= e1 + (er + seq![0x22u8]));
        lemma_match_split(b, i, e1, er + seq![0x22u8]);
        lemma_quote_end_escaped(b, i + e1.len(), r);
        lemma_match_at(b, i + e1.len(), er + seq![0x22u8], er.len() as int);
        if c == '\\' || c == '"' {
            lemma_match_at(b, i, e1, 0);
            lemma_match_at(b, i, e1, 1);
            assert(b[i] == 0x5c);
        } else {
            assert forall|k: int| i <= k < i + e1.len() implies #[trigger] b[k] != 0x22 && b[k] != 0x5c by {
                lemma_match_at(b, i, e1, k - i);
            }
            lemma_quote_end_plain(b, i, e1.len() as int);
        }
    }
}

/// What `to_gql_arg` writes for a string reads back, through the GraphQL document
/// parser's argument reader, as that string, ending right after the closing quote.
pub proof fn law_gql_arg_reads_back(s: Seq<char>)
    ensures
        read_aval(encode_utf8(gql_string_literal(s)), 0)
            == (Json::Str(s), encode_utf8(gql_string_literal(s)).len() as int),
{
    broadcast use vstd::utf8::encode_utf8_valid_utf8, vstd::utf8::encode_utf8_decode_utf8;
    let e = encode_utf8(gql_escape_text(s));
    let b = encode_utf8(gql_string_literal(s));
    lemma_enc_ascii('"');
    lemma_enc_concat(seq!['"'] + gql_escape_text(s), seq!['"']);
    lemma_enc_concat(seq!['"'], gql_escape_text(s));
    assert(b =~= seq![0x22u8] + (e + seq![0x22u8]));
    assert(gap_end(b, 0) == 0);
    assert(matches_at(b, 1, e + seq![0x22u8])) by {
        assert(b.subrange(1, 1 + (e + seq![0x22u8]).len() as int) =~= e + seq![0x22u8]);
    }
    lemma_quote_end_escaped(b, 1, s);
    assert(b.subrange(1, 1 + e.len() as int) =~= e);
    lemma_unescape_escaped(s, Seq::empty());
    assert(e + Seq::<u8>::empty() =~= e);
    assert(encode_utf8(s) + unescape(Seq::<u8>::empty()) =~= encode_utf8(s));
    assert(utf8_text(encode_utf8(s)) == s);
}

} // verus!
