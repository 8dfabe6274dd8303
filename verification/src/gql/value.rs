//! Runtime value model of the GraphQL layer and its JSON text form.
use vstd::prelude::*;
use vstd::utf8::{encode_utf8, decode_utf8, valid_utf8, encode_scalar, is_scalar};

verus! {

/// A JSON-shaped value.  Floating-point numbers are kept as their literal text.
#[derive(Debug, PartialEq)]
pub enum Value {
    Null,
    Bool(bool),
    Int(i64),
    Float(String),
    Str(String),
    List(Vec<Value>),
    Object(Vec<(String, Value)>),
}

/// Mathematical model of a [`Value`]: strings as character sequences.
pub enum Json {
    Null,
    Bool(bool),
    Int(int),
    Float(Seq<char>),
    Str(Seq<char>),
    List(Seq<Json>),
    Object(Seq<(Seq<char>, Json)>),
}

/// The model of a value.
pub open spec fn model(v: Value) -> Json
    decreases v,
{
    match v {
        Value::Null => Json::Null,
        Value::Bool(b) => Json::Bool(b),
        Value::Int(n) => Json::Int(n as int),
        Value::Float(t) => Json::Float(t@),
        Value::Str(s) => Json::Str(s@),
        Value::List(xs) => Json::List(Seq::new(xs@.len(), |i: int| if 0 <= i < xs@.len() { model(xs@[i]) } else { Json::Null })),
        Value::Object(fs) => Json::Object(Seq::new(fs@.len(), |i: int| if 0 <= i < fs@.len() { (fs@[i].0@, model(fs@[i].1)) } else { (Seq::empty(), Json::Null) })),
    }
}

impl View for Value {
    type V = Json;

    open spec fn view(&self) -> Json {
        model(*self)
    }
}

} // verus!

verus! {

// ───────────────────────── model-level definitions ─────────────────────────

/// The value bound to `key` by the first field that has it.
pub open spec fn field_lookup(fs: Seq<(Seq<char>, Json)>, key: Seq<char>) -> Option<Json>
    decreases fs.len(),
{
    if fs.len() == 0 {
        None
    } else if fs[0].0 == key {
        Some(fs[0].1)
    } else {
        field_lookup(fs.drop_first(), key)
    }
}

/// `j.get(key)`: the first binding of `key` when `j` is an object.
pub open spec fn json_get(j: Json, key: Seq<char>) -> Option<Json> {
    match j {
        Json::Object(fs) => field_lookup(fs, key),
        _ => None,
    }
}

/// The decimal digit character for `d` (0..=9).
pub open spec fn digit_char(d: int) -> char {
    if d == 0 { '0' } else if d == 1 { '1' } else if d == 2 { '2' } else if d == 3 { '3' }
    else if d == 4 { '4' } else if d == 5 { '5' } else if d == 6 { '6' } else if d == 7 { '7' }
    else if d == 8 { '8' } else { '9' }
}

/// The lowercase hexadecimal digit character for `d` (0..=15).
pub open spec fn hex_char(d: int) -> char {
    if d < 10 { digit_char(d) } else if d == 10 { 'a' } else if d == 11 { 'b' } else if d == 12 { 'c' }
    else if d == 13 { 'd' } else if d == 14 { 'e' } else { 'f' }
}

/// Decimal text of a natural number (no leading zeros).
pub open spec fn nat_text(n: nat) -> Seq<char>
    decreases n,
{
    if n < 10 {
        seq![digit_char(n as int)]
    } else {
        nat_text(n / 10) + seq![digit_char((n % 10) as int)]
    }
}

/// Decimal text of an integer (leading `-` when negative).
pub open spec fn int_text(n: int) -> Seq<char> {
    if n < 0 {
        seq!['-'] + nat_text((-n) as nat)
    } else {
        nat_text(n as nat)
    }
}

/// JSON escape of one character.
pub open spec fn escape_char(c: char) -> Seq<char> {
    if c == '"' {
        seq!['\\', '"']
    } else if c == '\\' {
        seq!['\\', '\\']
    } else if c == '\n' {
        seq!['\\', 'n']
    } else if c == '\r' {
        seq!['\\', 'r']
    } else if c == '\t' {
        seq!['\\', 't']
    } else if (c as u32) < 0x20 {
        seq!['\\', 'u', '0', '0', hex_char((c as u32 / 16) as int), hex_char((c as u32 % 16) as int)]
    } else {
        seq![c]
    }
}

/// JSON escape of a character sequence.
pub open spec fn escape_text(s: Seq<char>) -> Seq<char>
    decreases s.len(),
{
    if s.len() == 0 {
        Seq::empty()
    } else {
        escape_text(s.drop_last()) + escape_char(s.last())
    }
}

/// A JSON string literal.
pub open spec fn quoted(s: Seq<char>) -> Seq<char> {
    seq!['"'] + escape_text(s) + seq!['"']
}

/// `parts` joined with `sep` between consecutive parts.
pub open spec fn join(parts: Seq<Seq<char>>, sep: Seq<char>) -> Seq<char>
    decreases parts.len(),
{
    if parts.len() == 0 {
        Seq::empty()
    } else if parts.len() == 1 {
        parts[0]
    } else {
        join(parts.drop_last(), sep) + sep + parts.last()
    }
}

/// The JSON text of a value (compact: no whitespace).
pub open spec fn json_text(j: Json) -> Seq<char>
    decreases j, 1int,
{
    match j {
        Json::Null => seq!['n', 'u', 'l', 'l'],
        Json::Bool(b) => if b { seq!['t', 'r', 'u', 'e'] } else { seq!['f', 'a', 'l', 's', 'e'] },
        Json::Int(n) => int_text(n),
        Json::Float(t) => t,
        Json::Str(s) => quoted(s),
        Json::List(xs) => seq!['['] + join(item_texts(xs), seq![',']) + seq![']'],
        Json::Object(fs) => seq!['{'] + join(field_texts(fs), seq![',']) + seq!['}'],
    }
}

/// The JSON text of each element of a list.
pub open spec fn item_texts(xs: Seq<Json>) -> Seq<Seq<char>>
    decreases xs, 0int,
{
    Seq::new(xs.len(), |i: int| if 0 <= i < xs.len() { json_text(xs[i]) } else { Seq::empty() })
}

/// The JSON text `"key":value` of each field of an object.
pub open spec fn field_texts(fs: Seq<(Seq<char>, Json)>) -> Seq<Seq<char>>
    decreases fs, 0int,
{
    Seq::new(fs.len(), |i: int| if 0 <= i < fs.len() {
        quoted(fs[i].0) + seq![':'] + json_text(fs[i].1)
    } else {
        Seq::empty()
    })
}

/// `join` of a prefix one longer.
pub proof fn lemma_join_step(parts: Seq<Seq<char>>, sep: Seq<char>, i: int)
    requires
        0 <= i < parts.len(),
    ensures
        join(parts.take(i + 1), sep) == if i == 0 { parts[0] } else { join(parts.take(i), sep) + sep + parts[i] },
{
    assert(parts.take(i + 1).drop_last() == parts.take(i));
    assert(parts.take(i + 1).last() == parts[i]);
    if i == 0 {
        assert(parts.take(1)[0] == parts[0]);
    }
}

// ───────────────────────── executable text builders ─────────────────────────

fn digit(d: u64) -> (c: char)
    requires
        d < 10,
    ensures
        c == digit_char(d as int),
{
    if d == 0 { '0' } else if d == 1 { '1' } else if d == 2 { '2' } else if d == 3 { '3' }
    else if d == 4 { '4' } else if d == 5 { '5' } else if d == 6 { '6' } else if d == 7 { '7' }
    else if d == 8 { '8' } else { '9' }
}

fn hex(d: u32) -> (c: char)
    requires
        d < 16,
    ensures
        c == hex_char(d as int),
{
    if d < 10 { digit(d as u64) } else if d == 10 { 'a' } else if d == 11 { 'b' } else if d == 12 { 'c' }
    else if d == 13 { 'd' } else if d == 14 { 'e' } else { 'f' }
}

/// Appends the decimal text of `n`.
pub fn push_nat(out: &mut Vec<char>, n: u64)
    ensures
        final(out)@ == old(out)@ + nat_text(n as nat),
    decreases n,
{
    if n >= 10 {
        push_nat(out, n / 10);
    }
    out.push(digit(n % 10));
    proof {
        if n >= 10 {
            assert(nat_text(n as nat) == nat_text((n / 10) as nat) + seq![digit_char((n % 10) as int)]);
        }
    }
}

/// Appends the decimal text of `n`.
pub fn push_int(out: &mut Vec<char>, n: i64)
    ensures
        final(out)@ == old(out)@ + int_text(n as int),
{
    if n < 0 {
        out.push('-');
        let m: u64 = if n == i64::MIN { 9223372036854775808u64 } else { (-n) as u64 };
        push_nat(out, m);
        proof {
            assert(m as int == -(n as int));
        }
    } else {
        push_nat(out, n as u64);
    }
}

/// Appends the JSON escape of `c`.
pub fn push_escaped(out: &mut Vec<char>, c: char)
    ensures
        final(out)@ == old(out)@ + escape_char(c),
{
    if c == '"' {
        out.push('\\');
        out.push('"');
    } else if c == '\\' {
        out.push('\\');
        out.push('\\');
    } else if c == '\n' {
        out.push('\\');
        out.push('n');
    } else if c == '\r' {
        out.push('\\');
        out.push('r');
    } else if c == '\t' {
        out.push('\\');
        out.push('t');
    } else if (c as u32) < 0x20 {
        let u = c as u32;
        out.push('\\');
        out.push('u');
        out.push('0');
        out.push('0');
        out.push(hex(u / 16));
        out.push(hex(u % 16));
    } else {
        out.push(c);
    }
}

/// Appends `s` as a JSON string literal.
pub fn push_quoted(out: &mut Vec<char>, s: &str)
    ensures
        final(out)@ == old(out)@ + quoted(s@),
{
    let cs = crate::text::chars_of(s);
    let ghost start = out@;
    out.push('"');
    let mut i: usize = 0;
    while i < cs.len()
        invariant
            0 <= i <= cs.len(),
            cs@ == s@,
            out@ == start + seq!['"'] + escape_text(cs@.take(i as int)),
        decreases cs.len() - i,
    {
        proof {
            assert(cs@.take(i + 1).drop_last() == cs@.take(i as int));
            assert(cs@.take(i + 1).last() == cs@[i as int]);
        }
        push_escaped(out, cs[i]);
        i += 1;
    }
    out.push('"');
    proof {
        assert(cs@.take(cs@.len() as int) == cs@);
    }
}

} // verus!

verus! {

impl Value {
    /// A copy with the same model.
    pub fn deep_copy(&self) -> (r: Value)
        ensures
            r@ == self@,
        decreases self,
    {
        match self {
            Value::Null => Value::Null,
            Value::Bool(b) => Value::Bool(*b),
            Value::Int(n) => Value::Int(*n),
            Value::Float(t) => Value::Float(t.clone()),
            Value::Str(s) => Value::Str(s.clone()),
            Value::List(xs) => {
                let mut out: Vec<Value> = Vec::new();
                let mut i: usize = 0;
                while i < xs.len()
                    invariant
                        *self == Value::List(*xs),
                        0 <= i <= xs@.len(),
                        out@.len() == i,
                        forall|k: int| 0 <= k < i ==> (#[trigger] out@[k])@ == xs@[k]@,
                    decreases xs@.len() - i,
                {
                    proof {
                        lemma_list_decreases(*self, i as int);
                    }
                    out.push(xs[i].deep_copy());
                    i += 1;
                }
                let r = Value::List(out);
                proof {
                    assert(r@ == self@) by {
                        if let Json::List(a) = r@ {
                            if let Json::List(b) = self@ {
                                assert(a =~= b);
                            }
                        }
                    }
                }
                r
            },
            Value::Object(fs) => {
                let mut out: Vec<(String, Value)> = Vec::new();
                let mut i: usize = 0;
                while i < fs.len()
                    invariant
                        *self == Value::Object(*fs),
                        0 <= i <= fs@.len(),
                        out@.len() == i,
                        forall|k: int| 0 <= k < i ==> (#[trigger] out@[k]).0@ == fs@[k].0@ && out@[k].1@ == fs@[k].1@,
                    decreases fs@.len() - i,
                {
                    proof {
                        lemma_object_decreases(*self, i as int);
                    }
                    out.push((fs[i].0.clone(), fs[i].1.deep_copy()));
                    i += 1;
                }
                let r = Value::Object(out);
                proof {
                    assert(r@ == self@) by {
                        if let Json::Object(a) = r@ {
                            if let Json::Object(b) = self@ {
                                assert forall|k: int| 0 <= k < a.len() implies a[k] == b[k] by {
                                    assert(a[k] == (out@[k].0@, out@[k].1@));
                                    assert(b[k] == (fs@[k].0@, fs@[k].1@));
                                }
                                assert(a =~= b);
                            }
                        }
                    }
                }
                r
            },
        }
    }

    /// The first field named `key` when this is an object.
    pub fn get(&self, key: &str) -> (r: Option<&Value>)
        ensures
            r is Some <==> json_get(self@, key@) is Some,
            r matches Some(v) ==> json_get(self@, key@) == Some(v@),
    {
        match self {
            Value::Object(fs) => {
                let k = key.to_owned();
                let mut i: usize = 0;
                while i < fs.len()
                    invariant
                        0 <= i <= fs@.len(),
                        k@ == key@,
                        *self == Value::Object(*fs),
                        forall|j: int| 0 <= j < i ==> (#[trigger] fs@[j]).0@ != key@,
                    decreases fs@.len() - i,
                {
                    if fs[i].0 == k {
                        proof {
                            Self::lemma_field_lookup_at(*self, *fs, key@, i as int);
                        }
                        return Some(&fs[i].1);
                    }
                    i += 1;
                }
                proof {
                    Self::lemma_field_lookup_at(*self, *fs, key@, i as int);
                }
                None
            },
            _ => None,
        }
    }

    proof fn lemma_field_lookup_at(v: Value, fs: Vec<(String, Value)>, key: Seq<char>, i: int)
        requires
            v == Value::Object(fs),
            0 <= i <= fs@.len(),
            forall|k: int| 0 <= k < i ==> (#[trigger] fs@[k]).0@ != key,
        ensures
            i < fs@.len() && fs@[i].0@ == key ==> json_get(v@, key) == Some(fs@[i].1@),
            i == fs@.len() ==> json_get(v@, key) is None,
    {
        if let Json::Object(m) = v@ {
            assert forall|k: int| 0 <= k < i implies (#[trigger] m[k]).0 != key by {
                assert(m[k].0 == fs@[k].0@);
            }
            lemma_field_lookup(m, key, i);
            if i < fs@.len() {
                assert(m[i] == (fs@[i].0@, fs@[i].1@));
            }
        }
    }

    /// The field named `key`, or `Null` when absent (or when this is not an object).
    pub fn field(&self, key: &str) -> (r: Value)
        ensures
            r@ == match json_get(self@, key@) {
                Some(v) => v,
                None => Json::Null,
            },
    {
        match self.get(key) {
            Some(v) => v.deep_copy(),
            None => Value::Null,
        }
    }

    /// The string content, or `""` when this is not a string.
    pub fn as_str(&self) -> (r: &str)
        ensures
            r@ == match self@ {
                Json::Str(s) => s,
                _ => Seq::empty(),
            },
    {
        match self {
            Value::Str(s) => s.as_str(),
            _ => {
                let e = "";
                proof {
                    reveal_strlit("");
                }
                e
            },
        }
    }

    /// `true` exactly for `Bool(true)`.
    pub fn as_bool(&self) -> (r: bool)
        ensures
            r == (self@ == Json::Bool(true)),
    {
        match self {
            Value::Bool(b) => *b,
            _ => false,
        }
    }

    /// The elements, or an empty slice when this is not a list.
    pub fn as_list(&self) -> (r: &[Value])
        ensures
            match self {
                Value::List(xs) => r@ == xs@,
                _ => r@.len() == 0,
            },
    {
        match self {
            Value::List(xs) => xs.as_slice(),
            _ => &[],
        }
    }

    pub fn is_null(&self) -> (r: bool)
        ensures
            r == (self@ == Json::Null),
    {
        match self {
            Value::Null => true,
            _ => false,
        }
    }

    /// Appends the JSON text of this value.
    pub fn write_json(&self, out: &mut Vec<char>)
        ensures
            final(out)@ == old(out)@ + json_text(self@),
        decreases self,
    {
        match self {
            Value::Null => {
                out.push('n');
                out.push('u');
                out.push('l');
                out.push('l');
                proof {
                    assert(out@ =~= old(out)@ + json_text(self@));
                }
            },
            Value::Bool(b) => {
                if *b {
                    out.push('t');
                    out.push('r');
                    out.push('u');
                    out.push('e');
                } else {
                    out.push('f');
                    out.push('a');
                    out.push('l');
                    out.push('s');
                    out.push('e');
                }
                proof {
                    assert(out@ =~= old(out)@ + json_text(self@));
                }
            },
            Value::Int(n) => push_int(out, *n),
            Value::Float(t) => {
                let cs = crate::text::chars_of(t.as_str());
                let mut i: usize = 0;
                let ghost start = out@;
                while i < cs.len()
                    invariant
                        0 <= i <= cs.len(),
                        out@ == start + cs@.take(i as int),
                    decreases cs.len() - i,
                {
                    out.push(cs[i]);
                    proof {
                        assert(cs@.take(i + 1) == cs@.take(i as int).push(cs@[i as int]));
                    }
                    i += 1;
                }
                proof {
                    assert(cs@.take(cs@.len() as int) == cs@);
                    assert(out@ =~= old(out)@ + json_text(self@));
                }
            },
            Value::Str(s) => push_quoted(out, s.as_str()),
            Value::List(xs) => {
                let ghost start = out@;
                let ghost parts = Seq::new(xs@.len(), |i: int| if 0 <= i < xs@.len() { json_text(xs@[i]@) } else { Seq::empty() });
                out.push('[');
                let mut i: usize = 0;
                while i < xs.len()
                    invariant
                        *self == Value::List(*xs),
                        0 <= i <= xs@.len(),
                        parts == Seq::new(xs@.len(), |i: int| if 0 <= i < xs@.len() { json_text(xs@[i]@) } else { Seq::empty() }),
                        out@ == start + seq!['['] + join(parts.take(i as int), seq![',']),
                    decreases xs@.len() - i,
                {
                    proof {
                        lemma_join_step(parts, seq![','], i as int);
                    }
                    if i > 0 {
                        out.push(',');
                    }
                    proof {
                        lemma_list_decreases(*self, i as int);
                    }
                    xs[i].write_json(out);
                    i += 1;
                }
                out.push(']');
                proof {
                    assert(parts.take(xs@.len() as int) == parts);
                    if let Json::List(m) = self@ {
                        let q = item_texts(m);
                        assert forall|k: int| 0 <= k < q.len() implies q[k] == parts[k] by {
                            assert(m[k] == xs@[k]@);
                        }
                        assert(q =~= parts);
                        assert(json_text(self@) == seq!['['] + join(q, seq![',']) + seq![']']);
                        assert(out@ =~= old(out)@ + json_text(self@));
                    }
                }
            },
            Value::Object(fs) => {
                let ghost start = out@;
                let ghost parts = Seq::new(fs@.len(), |i: int| if 0 <= i < fs@.len() {
                    quoted(fs@[i].0@) + seq![':'] + json_text(fs@[i].1@)
                } else {
                    Seq::empty()
                });
                out.push('{');
                let mut i: usize = 0;
                while i < fs.len()
                    invariant
                        *self == Value::Object(*fs),
                        0 <= i <= fs@.len(),
                        parts == Seq::new(fs@.len(), |i: int| if 0 <= i < fs@.len() {
                            quoted(fs@[i].0@) + seq![':'] + json_text(fs@[i].1@)
                        } else {
                            Seq::empty()
                        }),
                        out@ == start + seq!['{'] + join(parts.take(i as int), seq![',']),
                    decreases fs@.len() - i,
                {
                    proof {
                        lemma_join_step(parts, seq![','], i as int);
                    }
                    if i > 0 {
                        out.push(',');
                    }
                    push_quoted(out, fs[i].0.as_str());
                    out.push(':');
                    proof {
                        lemma_object_decreases(*self, i as int);
                    }
                    fs[i].1.write_json(out);
                    i += 1;
                }
                out.push('}');
                proof {
                    assert(parts.take(fs@.len() as int) == parts);
                    if let Json::Object(m) = self@ {
                        let q = field_texts(m);
                        assert forall|k: int| 0 <= k < q.len() implies q[k] == parts[k] by {
                            assert(m[k] == (fs@[k].0@, fs@[k].1@));
                        }
                        assert(q =~= parts);
                        assert(json_text(self@) == seq!['{'] + join(q, seq![',']) + seq!['}']);
                        assert(out@ =~= old(out)@ + json_text(self@));
                    }
                }
            },
        }
    }

    /// The compact JSON text of this value.
    pub fn to_json(&self) -> (r: String)
        ensures
            r@ == json_text(self@),
    {
        let mut out: Vec<char> = Vec::new();
        self.write_json(&mut out);
        crate::text::string_from(&out)
    }
}

/// A list element is structurally smaller than the list.
pub proof fn lemma_list_decreases(v: Value, i: int)
    requires
        v is List,
        0 <= i < v->List_0@.len(),
    ensures
        decreases_to!(v => v->List_0@[i]),
{
    assert(decreases_to!(v => v->List_0));
    assert(decreases_to!(v->List_0 => v->List_0@));
    assert(decreases_to!(v->List_0@ => v->List_0@[i]));
}

/// A field value is structurally smaller than the object.
pub proof fn lemma_object_decreases(v: Value, i: int)
    requires
        v is Object,
        0 <= i < v->Object_0@.len(),
    ensures
        decreases_to!(v => v->Object_0@[i].1),
{
    assert(decreases_to!(v => v->Object_0));
    assert(decreases_to!(v->Object_0 => v->Object_0@));
    assert(decreases_to!(v->Object_0@ => v->Object_0@[i]));
    assert(decreases_to!(v->Object_0@[i] => v->Object_0@[i].1));
}

/// `field_lookup` finds the first binding.
pub proof fn lemma_field_lookup(fs: Seq<(Seq<char>, Json)>, key: Seq<char>, i: int)
    requires
        0 <= i <= fs.len(),
        forall|j: int| 0 <= j < i ==> (#[trigger] fs[j]).0 != key,
    ensures
        i < fs.len() && fs[i].0 == key ==> field_lookup(fs, key) == Some(fs[i].1),
        i == fs.len() ==> field_lookup(fs, key) is None,
    decreases i,
{
    if fs.len() > 0 && i > 0 {
        let g = fs.drop_first();
        assert forall|j: int| 0 <= j < i - 1 implies (#[trigger] g[j]).0 != key by {
            assert(g[j] == fs[j + 1]);
        }
        assert(fs[0].0 != key);
        lemma_field_lookup(g, key, i - 1);
        if i < fs.len() {
            assert(g[i - 1] == fs[i]);
        }
    }
}

} // verus!

verus! {

// ───────────────────────────── JSON reading ─────────────────────────────
//
// The reader never rejects input: malformed text reads as the best-effort value the
// scanner arrives at (a number scan of nothing reads as the float 0).  Positions are
// byte indices; a backslash as the very last byte of a string moves the position one
// past the end, after which the reader stops at the next number or literal.

/// ASCII whitespace (`u8::is_ascii_whitespace`).
pub open spec fn is_json_ws(c: u8) -> bool {
    c == 0x20 || c == 0x09 || c == 0x0a || c == 0x0c || c == 0x0d
}

/// The byte at `i` (0 past the end).
pub open spec fn byte_at(b: Seq<u8>, i: int) -> u8 {
    if 0 <= i < b.len() { b[i] } else { 0 }
}

/// The position after the whitespace at `i`.
pub open spec fn skip_ws(b: Seq<u8>, i: int) -> int
    decreases b.len() - i,
{
    if 0 <= i < b.len() && is_json_ws(b[i]) { skip_ws(b, i + 1) } else { i }
}

/// `k` kept within `[lo, hi]`.
pub open spec fn clamp(k: int, lo: int, hi: int) -> int {
    if k < lo { lo } else if k > hi { hi } else { k }
}

/// Whitespace skipping never moves backwards nor past the end.
pub proof fn lemma_skip_ws(b: Seq<u8>, i: int)
    requires
        0 <= i,
    ensures
        i <= skip_ws(b, i),
        skip_ws(b, i) <= if i > b.len() { i } else { b.len() as int },
    decreases b.len() - i,
{
    if 0 <= i < b.len() && is_json_ws(b[i]) {
        lemma_skip_ws(b, i + 1);
    }
}

/// `skip_ws` kept within its provable bounds.
pub open spec fn ws_from(b: Seq<u8>, i: int) -> int {
    clamp(skip_ws(b, i), i, if i > b.len() { i } else { b.len() as int })
}

pub open spec fn hex_digit(c: u8) -> Option<u32> {
    if 0x30 <= c <= 0x39 {
        Some((c - 0x30) as u32)
    } else if 0x61 <= c <= 0x66 {
        Some((c - 0x61 + 10) as u32)
    } else if 0x41 <= c <= 0x46 {
        Some((c - 0x41 + 10) as u32)
    } else {
        None
    }
}

/// The value of a run of hex digits.
pub open spec fn hex_run(w: Seq<u8>) -> Option<u32>
    decreases w.len(),
{
    if w.len() == 0 {
        Some(0)
    } else {
        match (hex_run(w.drop_last()), hex_digit(w.last())) {
            (Some(a), Some(d)) => if a * 16 + d <= u32::MAX { Some((a * 16 + d) as u32) } else { None },
            _ => None,
        }
    }
}

/// `u32::from_str_radix(w, 16)`: an optional `+`, then at least one hex digit.
pub open spec fn hex_value_of(w: Seq<u8>) -> Option<u32> {
    let d = if w.len() > 0 && w[0] == 0x2b { w.drop_first() } else { w };
    if d.len() == 0 { None } else { hex_run(d) }
}

/// The bytes a `\u` escape with digit window `w` contributes: the UTF-8 encoding of the
/// code point when the window is hexadecimal and names a scalar value, nothing otherwise.
pub open spec fn unicode_escape(w: Seq<u8>) -> Seq<u8> {
    match hex_value_of(w) {
        Some(cp) => if is_scalar(cp) { encode_scalar(cp) } else { Seq::empty() },
        None => Seq::empty(),
    }
}

/// The bytes of one simple escape `\e` (`None` for `\u` and unknown escapes).
pub open spec fn simple_escape(e: u8) -> Option<u8> {
    if e == 0x22 { Some(0x22u8) }
    else if e == 0x5c { Some(0x5cu8) }
    else if e == 0x2f { Some(0x2fu8) }
    else if e == 0x6e { Some(0x0au8) }
    else if e == 0x74 { Some(0x09u8) }
    else if e == 0x72 { Some(0x0du8) }
    else if e == 0x62 { Some(0x08u8) }
    else if e == 0x66 { Some(0x0cu8) }
    else { None }
}

/// The content bytes of a string literal whose body starts at `i`, and the position after
/// it (after the closing quote, or the end).
pub open spec fn string_body(b: Seq<u8>, i: int, buf: Seq<u8>) -> (Seq<u8>, int)
    decreases b.len() + 2 - i,
{
    if i < 0 || i >= b.len() {
        (buf, i)
    } else if b[i] == 0x22 {
        (buf, i + 1)
    } else if b[i] == 0x5c {
        let e = byte_at(b, i + 1);
        let j = i + 2;
        if e == 0x75 {
            let end = if j + 4 < b.len() { j + 4 } else { b.len() as int };
            let w = if j <= end { b.subrange(j, end) } else { Seq::empty() };
            string_body(b, end, buf + unicode_escape(w))
        } else {
            match simple_escape(e) {
                Some(x) => string_body(b, j, buf.push(x)),
                None => string_body(b, j, buf),
            }
        }
    } else {
        string_body(b, i + 1, buf.push(b[i]))
    }
}

/// The end of the number scan at `i`, and whether it met `.`, `e` or `E`.
pub open spec fn number_scan(b: Seq<u8>, i: int, is_float: bool) -> (int, bool)
    decreases b.len() - i,
{
    if i < 0 || i >= b.len() {
        (i, is_float)
    } else if (0x30 <= b[i] <= 0x39) || b[i] == 0x2d || b[i] == 0x2b {
        number_scan(b, i + 1, is_float)
    } else if b[i] == 0x2e || b[i] == 0x65 || b[i] == 0x45 {
        number_scan(b, i + 1, true)
    } else {
        (i, is_float)
    }
}

/// The characters of ASCII bytes.
pub open spec fn ascii_chars(t: Seq<u8>) -> Seq<char> {
    Seq::new(t.len(), |i: int| t[i] as char)
}

pub open spec fn is_dec(c: u8) -> bool {
    0x30 <= c <= 0x39
}

/// All bytes are decimal digits.
pub open spec fn all_dec(t: Seq<u8>) -> bool {
    forall|i: int| 0 <= i < t.len() ==> is_dec(#[trigger] t[i])
}

/// The index of the first `e`/`E`, or the length.
pub open spec fn exp_at(t: Seq<u8>) -> int
    decreases t.len(),
{
    if t.len() == 0 {
        0
    } else if t[0] == 0x65 || t[0] == 0x45 {
        0
    } else {
        1 + exp_at(t.drop_first())
    }
}

/// The index of the first `.`, or the length.
pub open spec fn dot_at(t: Seq<u8>) -> int
    decreases t.len(),
{
    if t.len() == 0 {
        0
    } else if t[0] == 0x2e {
        0
    } else {
        1 + dot_at(t.drop_first())
    }
}

/// `Digit+ | Digit+ '.' Digit* | Digit* '.' Digit+`.
pub open spec fn mantissa_ok(m: Seq<u8>) -> bool {
    let d = dot_at(m);
    if d >= m.len() {
        m.len() > 0 && all_dec(m)
    } else {
        let ip = m.take(d);
        let fp = m.skip(d + 1);
        all_dec(ip) && all_dec(fp) && ip.len() + fp.len() > 0
    }
}

/// The text `f64::from_str` accepts, over the bytes the number scan admits:
/// `[+-]? Number ([eE] [+-]? Digit+)?`.
pub open spec fn float_ok(t: Seq<u8>) -> bool {
    let s = if t.len() > 0 && (t[0] == 0x2b || t[0] == 0x2d) { t.drop_first() } else { t };
    let e = exp_at(s);
    let m = s.take(e);
    if e >= s.len() {
        mantissa_ok(m)
    } else {
        let x = s.skip(e + 1);
        let xd = if x.len() > 0 && (x[0] == 0x2b || x[0] == 0x2d) { x.drop_first() } else { x };
        mantissa_ok(m) && xd.len() > 0 && all_dec(xd)
    }
}

/// A float read from literal text: the text itself when it is a float literal, `0` otherwise.
pub open spec fn float_text(t: Seq<u8>) -> Seq<char> {
    if float_ok(t) { ascii_chars(t) } else { seq!['0'] }
}

/// The value of a scanned number: an integer when it has no `.`/`e`/`E` and fits `i64`,
/// otherwise a float.
pub open spec fn number_json(t: Seq<u8>, is_float: bool) -> Json {
    if is_float {
        Json::Float(float_text(t))
    } else {
        match crate::runtime::parse_i64_spec(ascii_chars(t)) {
            Some(n) => Json::Int(n as int),
            None => Json::Float(float_text(t)),
        }
    }
}

/// The text of a string's content bytes (`""` when they are not UTF-8).
pub open spec fn utf8_or_empty_text(b: Seq<u8>) -> Seq<char> {
    if valid_utf8(b) { decode_utf8(b) } else { Seq::empty() }
}

/// A JSON read at `i`: the value, the position after it, and whether reading stayed in
/// bounds (a number or literal read past the end cannot be taken).
pub open spec fn read_value(b: Seq<u8>, i: int) -> (Json, int, bool)
    decreases b.len() + 2 - i, 1nat,
{
    if i < 0 || i > b.len() + 1 {
        (Json::Null, i, false)
    } else {
        let j = ws_from(b, i);
        let c = byte_at(b, j);
        if c == 0x7b {
            read_object(b, j + 1, Seq::empty())
        } else if c == 0x5b {
            read_array(b, j + 1, Seq::empty())
        } else if c == 0x22 {
            let (buf, k) = string_body(b, j + 1, Seq::empty());
            (Json::Str(utf8_or_empty_text(buf)), k, true)
        } else if c == 0x74 {
            (Json::Bool(true), lit_end(b, j, seq![0x74u8, 0x72, 0x75, 0x65]), true)
        } else if c == 0x66 {
            (Json::Bool(false), lit_end(b, j, seq![0x66u8, 0x61, 0x6c, 0x73, 0x65]), true)
        } else if c == 0x6e {
            (Json::Null, lit_end(b, j, seq![0x6eu8, 0x75, 0x6c, 0x6c]), true)
        } else if j > b.len() {
            (Json::Null, j, false)
        } else {
            let (end, fl) = number_scan(b, j, false);
            (number_json(b.subrange(j, end), fl), end, true)
        }
    }
}

/// The position after literal `w` at `j` (unchanged when the text does not start with it).
pub open spec fn lit_end(b: Seq<u8>, j: int, w: Seq<u8>) -> int {
    if 0 <= j && j + w.len() <= b.len() && b.subrange(j, j + w.len()) == w { j + w.len() } else { j }
}

/// The fields of an object whose next field (or end) is at `i`.
pub open spec fn read_object(b: Seq<u8>, i: int, acc: Seq<(Seq<char>, Json)>) -> (Json, int, bool)
    decreases b.len() + 2 - i, 2nat,
{
    if i < 0 || i > b.len() + 1 {
        (Json::Object(acc), i, false)
    } else {
        let j = ws_from(b, i);
        let c = byte_at(b, j);
        if c == 0x7d {
            (Json::Object(acc), j + 1, true)
        } else if c != 0x22 {
            (Json::Object(acc), j, true)
        } else {
            let (kb, k0) = string_body(b, j + 1, Seq::empty());
            let k = clamp(k0, j + 1, b.len() + 1 as int);
            let k1 = ws_from(b, k);
            let k2 = if byte_at(b, k1) == 0x3a { k1 + 1 } else { k1 };
            let (v, k3, ok) = read_value(b, k2);
            if !ok {
                (Json::Object(acc), k3, false)
            } else {
                let acc2 = acc.push((utf8_or_empty_text(kb), v));
                let k4 = ws_from(b, clamp(k3, k2, b.len() + 1 as int));
                let c2 = byte_at(b, k4);
                if c2 == 0x2c {
                    read_object(b, k4 + 1, acc2)
                } else if c2 == 0x7d {
                    (Json::Object(acc2), k4 + 1, true)
                } else {
                    (Json::Object(acc2), k4, true)
                }
            }
        }
    }
}

/// The elements of an array whose next element (or end) is at `i`.
pub open spec fn read_array(b: Seq<u8>, i: int, acc: Seq<Json>) -> (Json, int, bool)
    decreases b.len() + 2 - i, 2nat,
{
    if i < 0 || i > b.len() + 1 {
        (Json::List(acc), i, false)
    } else {
        let j = ws_from(b, i);
        if byte_at(b, j) == 0x5d {
            (Json::List(acc), j + 1, true)
        } else {
            let (v, k, ok) = read_value(b, j);
            if !ok {
                (Json::List(acc), k, false)
            } else {
                let acc2 = acc.push(v);
                let k1 = ws_from(b, clamp(k, j, b.len() + 1 as int));
                let c2 = byte_at(b, k1);
                if c2 == 0x2c {
                    read_array(b, k1 + 1, acc2)
                } else if c2 == 0x5d {
                    (Json::List(acc2), k1 + 1, true)
                } else {
                    (Json::List(acc2), k1, true)
                }
            }
        }
    }
}

/// The JSON value at the start of the text.
pub open spec fn parse_json(s: Seq<char>) -> Json {
    read_value(encode_utf8(s), 0).0
}

/// The reader stays in bounds on this text (it does unless a string ends in a lone
/// backslash right at the end of the input and a value is read after it).
pub open spec fn parse_json_ok(s: Seq<char>) -> bool {
    read_value(encode_utf8(s), 0).2
}

} // verus!

verus! {

/// The characters of UTF-8 bytes, or `""` when they are not UTF-8 (std
/// `String::from_utf8(..).unwrap_or_default()`: `from_utf8` fails exactly on invalid UTF-8).
#[verifier::external_body]
fn string_from_utf8_or_empty(b: Vec<u8>) -> (s: String)
    ensures
        s@ == utf8_or_empty_text(b@),
{
    String::from_utf8(b).unwrap_or_default()
}

fn skip_ws_exec(b: &[u8], i: usize) -> (r: usize)
    requires
        i <= b@.len() + 1,
    ensures
        r == skip_ws(b@, i as int),
        r == ws_from(b@, i as int),
        i <= r,
        r <= if i > b@.len() { i as int } else { b@.len() as int },
{
    proof {
        lemma_skip_ws(b@, i as int);
    }
    let mut j = i;
    while j < b.len() && (b[j] == 0x20 || b[j] == 0x09 || b[j] == 0x0a || b[j] == 0x0c || b[j] == 0x0d)
        invariant
            i <= j <= if i > b@.len() { i as int } else { b@.len() as int },
            skip_ws(b@, j as int) == skip_ws(b@, i as int),
        decreases b@.len() - j,
    {
        j += 1;
    }
    j
}

fn byte_at_exec(b: &[u8], i: usize) -> (c: u8)
    ensures
        c == byte_at(b@, i as int),
{
    if i < b.len() { b[i] } else { 0 }
}

fn hex_digit_exec(c: u8) -> (r: Option<u32>)
    ensures
        r == hex_digit(c),
{
    if 0x30 <= c && c <= 0x39 {
        Some((c - 0x30) as u32)
    } else if 0x61 <= c && c <= 0x66 {
        Some((c - 0x61 + 10) as u32)
    } else if 0x41 <= c && c <= 0x46 {
        Some((c - 0x41 + 10) as u32)
    } else {
        None
    }
}

/// The bytes of a `\u` escape with digit window `w` (at most four bytes).
fn unicode_escape_exec(w: &[u8], out: &mut Vec<u8>)
    requires
        w@.len() <= 4,
    ensures
        final(out)@ == old(out)@ + unicode_escape(w@),
{
    let start: usize = if w.len() > 0 && w[0] == 0x2b { 1 } else { 0 };
    let ghost d = if w@.len() > 0 && w@[0] == 0x2b { w@.drop_first() } else { w@ };
    proof {
        assert(d =~= w@.subrange(start as int, w@.len() as int));
    }
    if start >= w.len() {
        proof {
            assert(out@ =~= old(out)@ + unicode_escape(w@));
        }
        return;
    }
    let mut acc: u32 = 0;
    let mut k: usize = start;
    while k < w.len()
        invariant
            start <= k <= w@.len() <= 4,
            d == w@.subrange(start as int, w@.len() as int),
            d == if w@.len() > 0 && w@[0] == 0x2b { w@.drop_first() } else { w@ },
            d.len() > 0,
            hex_run(d.take(k - start)) == Some(acc),
            acc < if k - start == 0 { 1u32 } else if k - start == 1 { 16u32 } else if k - start == 2 { 256u32 } else if k - start == 3 { 4096u32 } else { 65536u32 },
        decreases w@.len() - k,
    {
        proof {
            assert(d.take(k - start + 1).drop_last() =~= d.take(k - start));
            assert(d.take(k - start + 1).last() == w@[k as int]);
        }
        match hex_digit_exec(w[k]) {
            Some(dv) => {
                acc = acc * 16 + dv;
            },
            None => {
                proof {
                    assert(hex_run(d.take(k - start + 1)) is None);
                    lemma_hex_run_none(d, k - start + 1);
                    assert(d.take(d.len() as int) =~= d);
                    assert(hex_value_of(w@) is None);
                    assert(out@ =~= old(out)@ + unicode_escape(w@));
                }
                return;
            },
        }
        k += 1;
    }
    proof {
        assert(d.take(d.len() as int) =~= d);
    }
    let cp = acc;
    if cp <= 0x7f {
        out.push((cp & 0x7f) as u8);
    } else if cp <= 0x7ff {
        out.push(0xc0 | ((cp >> 6) & 0x1f) as u8);
        out.push(0x80 | (cp & 0x3f) as u8);
    } else if !(0xd800 <= cp && cp <= 0xdfff) {
        out.push(0xe0 | ((cp >> 12) & 0x0f) as u8);
        out.push(0x80 | ((cp >> 6) & 0x3f) as u8);
        out.push(0x80 | (cp & 0x3f) as u8);
    }
    proof {
        assert(out@ =~= old(out)@ + unicode_escape(w@));
    }
}

/// A run with a non-hex digit stays invalid however it continues.
proof fn lemma_hex_run_none(d: Seq<u8>, n: int)
    requires
        0 < n <= d.len(),
        hex_run(d.take(n)) is None,
    ensures
        hex_run(d) is None,
    decreases d.len() - n,
{
    if n < d.len() {
        assert(d.take(n + 1).drop_last() =~= d.take(n));
        lemma_hex_run_none(d, n + 1);
    } else {
        assert(d.take(n) =~= d);
    }
}

/// Reads a string body at `i` into `buf`; returns the position after it.
fn string_body_exec(b: &[u8], i: usize, buf: &mut Vec<u8>) -> (r: usize)
    requires
        i <= b@.len() + 1,
        b@.len() + 8 <= usize::MAX,
    ensures
        (final(buf)@, r as int) == string_body(b@, i as int, old(buf)@),
        i <= r <= b@.len() + 1,
{
    let mut k = i;
    while k < b.len()
        invariant
            i <= k <= b@.len() + 1,
            b@.len() + 8 <= usize::MAX,
            string_body(b@, i as int, old(buf)@) == string_body(b@, k as int, buf@),
        decreases b@.len() + 2 - k,
    {
        let c = b[k];
        if c == 0x22 {
            return k + 1;
        } else if c == 0x5c {
            let e = byte_at_exec(b, k + 1);
            let j = k + 2;
            if e == 0x75 {
                let end = if j + 4 < b.len() { j + 4 } else { b.len() };
                if j <= end {
                    let w = &b[j..end];
                    proof {
                        assert(w@ == b@.subrange(j as int, end as int));
                    }
                    unicode_escape_exec(w, buf);
                } else {
                    proof {
                        assert(unicode_escape(Seq::<u8>::empty()) =~= Seq::<u8>::empty());
                        assert(buf@ + unicode_escape(Seq::<u8>::empty()) =~= buf@);
                    }
                }
                k = end;
            } else {
                if e == 0x22 { buf.push(0x22); }
                else if e == 0x5c { buf.push(0x5c); }
                else if e == 0x2f { buf.push(0x2f); }
                else if e == 0x6e { buf.push(0x0a); }
                else if e == 0x74 { buf.push(0x09); }
                else if e == 0x72 { buf.push(0x0d); }
                else if e == 0x62 { buf.push(0x08); }
                else if e == 0x66 { buf.push(0x0c); }
                k = j;
            }
        } else {
            buf.push(c);
            k = k + 1;
        }
    }
    k
}

fn number_scan_exec(b: &[u8], i: usize) -> (r: (usize, bool))
    requires
        i <= b@.len(),
    ensures
        (r.0 as int, r.1) == number_scan(b@, i as int, false),
        i <= r.0 <= b@.len(),
{
    let mut k = i;
    let mut fl = false;
    while k < b.len()
        invariant
            i <= k <= b@.len(),
            number_scan(b@, i as int, false) == number_scan(b@, k as int, fl),
        decreases b@.len() - k,
    {
        let c = b[k];
        if (0x30 <= c && c <= 0x39) || c == 0x2d || c == 0x2b {
            k += 1;
        } else if c == 0x2e || c == 0x65 || c == 0x45 {
            fl = true;
            k += 1;
        } else {
            return (k, fl);
        }
    }
    (k, fl)
}

/// The index of the first byte satisfying the test (`e`/`E` or `.`), or the length.
fn first_of(t: &Vec<u8>, dot: bool) -> (r: usize)
    ensures
        r as int == if dot { dot_at(t@) } else { exp_at(t@) },
        r <= t@.len(),
{
    let mut k: usize = 0;
    proof {
        assert(t@.skip(0) =~= t@);
    }
    while k < t.len()
        invariant
            0 <= k <= t@.len(),
            (if dot { dot_at(t@) } else { exp_at(t@) }) == k + (if dot { dot_at(t@.skip(k as int)) } else { exp_at(t@.skip(k as int)) }),
        decreases t@.len() - k,
    {
        let c = t[k];
        proof {
            assert(t@.skip(k as int)[0] == c);
            assert(t@.skip(k as int).drop_first() =~= t@.skip(k + 1));
        }
        if dot && c == 0x2e {
            return k;
        }
        if !dot && (c == 0x65 || c == 0x45) {
            return k;
        }
        k += 1;
    }
    proof {
        assert(t@.skip(k as int).len() == 0);
    }
    k
}

fn all_dec_exec(t: &Vec<u8>, a: usize, z: usize) -> (r: bool)
    requires
        a <= z <= t@.len(),
    ensures
        r == all_dec(t@.subrange(a as int, z as int)),
{
    let mut k = a;
    while k < z
        invariant
            a <= k <= z <= t@.len(),
            forall|j: int| a <= j < k ==> is_dec(t@[j]),
        decreases z - k,
    {
        if !(0x30 <= t[k] && t[k] <= 0x39) {
            proof {
                assert(!is_dec(t@.subrange(a as int, z as int)[k - a]));
            }
            return false;
        }
        k += 1;
    }
    proof {
        assert forall|j: int| 0 <= j < z - a implies is_dec(#[trigger] t@.subrange(a as int, z as int)[j]) by {
            assert(t@.subrange(a as int, z as int)[j] == t@[a + j]);
        }
    }
    true
}

fn slice_vec(t: &Vec<u8>, a: usize, z: usize) -> (r: Vec<u8>)
    requires
        a <= z <= t@.len(),
    ensures
        r@ == t@.subrange(a as int, z as int),
{
    let mut r: Vec<u8> = Vec::new();
    let mut k = a;
    while k < z
        invariant
            a <= k <= z <= t@.len(),
            r@ == t@.subrange(a as int, k as int),
        decreases z - k,
    {
        r.push(t[k]);
        proof {
            assert(t@.subrange(a as int, k + 1) =~= t@.subrange(a as int, k as int).push(t@[k as int]));
        }
        k += 1;
    }
    r
}

fn mantissa_ok_exec(m: &Vec<u8>) -> (r: bool)
    ensures
        r == mantissa_ok(m@),
{
    let d = first_of(m, true);
    if d >= m.len() {
        proof {
            assert(m@.subrange(0, m@.len() as int) =~= m@);
        }
        m.len() > 0 && all_dec_exec(m, 0, m.len())
    } else {
        proof {
            assert(m@.subrange(0, d as int) =~= m@.take(d as int));
            assert(m@.subrange(d + 1, m@.len() as int) =~= m@.skip(d + 1));
        }
        let ok_i = all_dec_exec(m, 0, d);
        let ok_f = all_dec_exec(m, d + 1, m.len());
        ok_i && ok_f && (d + (m.len() - d - 1)) > 0
    }
}

pub(crate) fn float_ok_exec(t: &Vec<u8>) -> (r: bool)
    ensures
        r == float_ok(t@),
{
    let s = if t.len() > 0 && (t[0] == 0x2b || t[0] == 0x2d) { slice_vec(t, 1, t.len()) } else { slice_vec(t, 0, t.len()) };
    proof {
        if t@.len() > 0 && (t@[0] == 0x2b || t@[0] == 0x2d) {
            assert(s@ =~= t@.drop_first());
        } else {
            assert(s@ =~= t@);
        }
    }
    let e = first_of(&s, false);
    let m = slice_vec(&s, 0, e);
    proof {
        assert(m@ =~= s@.take(e as int));
    }
    if e >= s.len() {
        mantissa_ok_exec(&m)
    } else {
        let x = slice_vec(&s, e + 1, s.len());
        proof {
            assert(x@ =~= s@.skip(e + 1));
        }
        let xd = if x.len() > 0 && (x[0] == 0x2b || x[0] == 0x2d) { slice_vec(&x, 1, x.len()) } else { slice_vec(&x, 0, x.len()) };
        proof {
            if x@.len() > 0 && (x@[0] == 0x2b || x@[0] == 0x2d) {
                assert(xd@ =~= x@.drop_first());
            } else {
                assert(xd@ =~= x@);
            }
            assert(xd@.subrange(0, xd@.len() as int) =~= xd@);
        }
        mantissa_ok_exec(&m) && xd.len() > 0 && all_dec_exec(&xd, 0, xd.len())
    }
}

pub(crate) fn ascii_string(t: &Vec<u8>) -> (s: String)
    ensures
        s@ == ascii_chars(t@),
{
    let mut cs: Vec<char> = Vec::new();
    let mut k: usize = 0;
    while k < t.len()
        invariant
            0 <= k <= t@.len(),
            cs@ == ascii_chars(t@.take(k as int)),
        decreases t@.len() - k,
    {
        cs.push(t[k] as char);
        proof {
            assert(cs@ =~= ascii_chars(t@.take(k + 1)));
        }
        k += 1;
    }
    proof {
        assert(t@.take(t@.len() as int) =~= t@);
    }
    crate::text::string_from(&cs)
}

fn float_value(t: &Vec<u8>) -> (v: Value)
    ensures
        v@ == Json::Float(float_text(t@)),
{
    if float_ok_exec(t) {
        Value::Float(ascii_string(t))
    } else {
        let z = "0";
        proof {
            reveal_strlit("0");
            assert(z@ =~= seq!['0']);
        }
        Value::Float(z.to_owned())
    }
}

fn number_value(t: &Vec<u8>, is_float: bool) -> (v: Value)
    ensures
        v@ == number_json(t@, is_float),
{
    if is_float {
        float_value(t)
    } else {
        let txt = ascii_string(t);
        match crate::runtime::parse_i64(txt.as_str()) {
            Some(n) => Value::Int(n),
            None => float_value(t),
        }
    }
}

fn lit_end_exec(b: &[u8], j: usize, w: &[u8]) -> (r: usize)
    requires
        j <= b@.len(),
        b@.len() <= usize::MAX,
    ensures
        r as int == lit_end(b@, j as int, w@),
{
    if w.len() > b.len() - j {
        return j;
    }
    let mut k: usize = 0;
    while k < w.len()
        invariant
            0 <= k <= w@.len(),
            j <= b@.len(),
            b@.len() <= usize::MAX,
            j + w@.len() <= b@.len(),
            forall|t: int| 0 <= t < k ==> b@[j + t] == w@[t],
        decreases w@.len() - k,
    {
        assert(j + k < b@.len());
        if b[j + k] != w[k] {
            proof {
                assert(b@.subrange(j as int, j + w@.len())[k as int] != w@[k as int]);
            }
            return j;
        }
        k += 1;
    }
    proof {
        assert(b@.subrange(j as int, j + w@.len()) =~= w@);
    }
    j + w.len()
}

fn read_value_exec(b: &[u8], i: usize) -> (r: (Value, usize, bool))
    requires
        i <= b@.len() + 1,
        b@.len() + 8 <= usize::MAX,
    ensures
        (r.0@, r.1 as int, r.2) == read_value(b@, i as int),
        r.2 ==> i <= r.1 <= b@.len() + 1,
    decreases b@.len() + 2 - i, 1nat,
{
    let j = skip_ws_exec(b, i);
    let c = byte_at_exec(b, j);
    if c == 0x7b {
        let e: Vec<(String, Value)> = Vec::new();
        proof {
            assert(crate::gql::store::fields_model(e@) =~= Seq::<(Seq<char>, Json)>::empty());
        }
        read_object_exec(b, j + 1, e)
    } else if c == 0x5b {
        let e: Vec<Value> = Vec::new();
        proof {
            assert(crate::gql::store::items_model(e@) =~= Seq::<Json>::empty());
        }
        read_array_exec(b, j + 1, e)
    } else if c == 0x22 {
        let mut buf: Vec<u8> = Vec::new();
        let k = string_body_exec(b, j + 1, &mut buf);
        (Value::Str(string_from_utf8_or_empty(buf)), k, true)
    } else if c == 0x74 {
        let w: [u8; 4] = [0x74, 0x72, 0x75, 0x65];
        proof {
            assert(w@ =~= seq![0x74u8, 0x72, 0x75, 0x65]);
        }
        (Value::Bool(true), lit_end_exec(b, j, &w), true)
    } else if c == 0x66 {
        let w: [u8; 5] = [0x66, 0x61, 0x6c, 0x73, 0x65];
        proof {
            assert(w@ =~= seq![0x66u8, 0x61, 0x6c, 0x73, 0x65]);
        }
        (Value::Bool(false), lit_end_exec(b, j, &w), true)
    } else if c == 0x6e {
        let w: [u8; 4] = [0x6e, 0x75, 0x6c, 0x6c];
        proof {
            assert(w@ =~= seq![0x6eu8, 0x75, 0x6c, 0x6c]);
        }
        (Value::Null, lit_end_exec(b, j, &w), true)
    } else if j > b.len() {
        (Value::Null, j, false)
    } else {
        let (end, fl) = number_scan_exec(b, j);
        let t = slice_bytes(b, j, end);
        (number_value(&t, fl), end, true)
    }
}

pub(crate) fn slice_bytes(b: &[u8], a: usize, z: usize) -> (r: Vec<u8>)
    requires
        a <= z <= b@.len(),
    ensures
        r@ == b@.subrange(a as int, z as int),
{
    let mut r: Vec<u8> = Vec::new();
    let mut k = a;
    while k < z
        invariant
            a <= k <= z <= b@.len(),
            r@ == b@.subrange(a as int, k as int),
        decreases z - k,
    {
        r.push(b[k]);
        proof {
            assert(b@.subrange(a as int, k + 1) =~= b@.subrange(a as int, k as int).push(b@[k as int]));
        }
        k += 1;
    }
    r
}

fn read_object_exec(b: &[u8], i: usize, acc: Vec<(String, Value)>) -> (r: (Value, usize, bool))
    requires
        i <= b@.len() + 1,
        b@.len() + 8 <= usize::MAX,
    ensures
        (r.0@, r.1 as int, r.2) == read_object(b@, i as int, crate::gql::store::fields_model(acc@)),
        r.2 ==> i <= r.1 <= b@.len() + 1,
    decreases b@.len() + 2 - i, 2nat,
{
    let ghost am = crate::gql::store::fields_model(acc@);
    proof {
        crate::gql::store::lemma_object_model(acc);
    }
    let j = skip_ws_exec(b, i);
    let c = byte_at_exec(b, j);
    if c == 0x7d {
        return (Value::Object(acc), j + 1, true);
    } else if c != 0x22 {
        return (Value::Object(acc), j, true);
    }
    let mut kb: Vec<u8> = Vec::new();
    let k = string_body_exec(b, j + 1, &mut kb);
    let k1 = skip_ws_exec(b, k);
    let k2 = if byte_at_exec(b, k1) == 0x3a { k1 + 1 } else { k1 };
    let (v, k3, ok) = read_value_exec(b, k2);
    if !ok {
        return (Value::Object(acc), k3, false);
    }
    let key = string_from_utf8_or_empty(kb);
    let mut acc2 = acc;
    let ghost kv = (key@, v@);
    acc2.push((key, v));
    proof {
        assert(crate::gql::store::fields_model(acc2@) =~= am.push(kv));
    }
    let k4 = skip_ws_exec(b, k3);
    let c2 = byte_at_exec(b, k4);
    if c2 == 0x2c {
        read_object_exec(b, k4 + 1, acc2)
    } else if c2 == 0x7d {
        proof {
            crate::gql::store::lemma_object_model(acc2);
        }
        (Value::Object(acc2), k4 + 1, true)
    } else {
        proof {
            crate::gql::store::lemma_object_model(acc2);
        }
        (Value::Object(acc2), k4, true)
    }
}

fn read_array_exec(b: &[u8], i: usize, acc: Vec<Value>) -> (r: (Value, usize, bool))
    requires
        i <= b@.len() + 1,
        b@.len() + 8 <= usize::MAX,
    ensures
        (r.0@, r.1 as int, r.2) == read_array(b@, i as int, crate::gql::store::items_model(acc@)),
        r.2 ==> i <= r.1 <= b@.len() + 1,
    decreases b@.len() + 2 - i, 2nat,
{
    let ghost am = crate::gql::store::items_model(acc@);
    proof {
        crate::gql::store::lemma_list_model(acc);
        assert(Seq::new(acc@.len(), |i: int| acc@[i]@) =~= am);
    }
    let j = skip_ws_exec(b, i);
    if byte_at_exec(b, j) == 0x5d {
        return (Value::List(acc), j + 1, true);
    }
    let (v, k, ok) = read_value_exec(b, j);
    if !ok {
        return (Value::List(acc), k, false);
    }
    let mut acc2 = acc;
    let ghost vv = v@;
    acc2.push(v);
    proof {
        assert(crate::gql::store::items_model(acc2@) =~= am.push(vv));
    }
    let k1 = skip_ws_exec(b, k);
    let c2 = byte_at_exec(b, k1);
    if c2 == 0x2c {
        read_array_exec(b, k1 + 1, acc2)
    } else {
        proof {
            crate::gql::store::lemma_list_model(acc2);
            assert(Seq::new(acc2@.len(), |i: int| acc2@[i]@) =~= crate::gql::store::items_model(acc2@));
        }
        if c2 == 0x5d {
            (Value::List(acc2), k1 + 1, true)
        } else {
            (Value::List(acc2), k1, true)
        }
    }
}

/// Reads the JSON value at the start of `s` (best effort: malformed text never fails).
pub fn parse(s: &str) -> (v: Value)
    requires
        parse_json_ok(s@),
        encode_utf8(s@).len() + 8 <= usize::MAX,
    ensures
        v@ == parse_json(s@),
{
    let b = s.as_bytes();
    let (v, _end, _ok) = read_value_exec(b, 0);
    v
}

/// Reads `s` as JSON when the reader stays in bounds on it (see [`parse_json_ok`]), and
/// `None` on the texts on which [`parse`] may not be called.
pub fn try_parse(s: &str) -> (r: Option<Value>)
    requires
        encode_utf8(s@).len() + 8 <= usize::MAX,
    ensures
        r is Some <==> parse_json_ok(s@),
        r matches Some(v) ==> v@ == parse_json(s@),
{
    let b = s.as_bytes();
    let (v, _end, ok) = read_value_exec(b, 0);
    if ok {
        Some(v)
    } else {
        None
    }
}

} // verus!

verus! {

// ───────────────────────────── GraphQL response envelopes ─────────────────────────────

/// The field `k` of `j`, `null` when absent.
pub open spec fn json_field(j: Json, k: Seq<char>) -> Json {
    match json_get(j, k) {
        Some(v) => v,
        None => Json::Null,
    }
}

/// The message of one GraphQL error (a placeholder when it has none).
pub open spec fn error_text(e: Json) -> Seq<char> {
    let m = match json_field(e, seq!['m', 'e', 's', 's', 'a', 'g', 'e']) {
        Json::Str(s) => s,
        _ => Seq::empty(),
    };
    if m.len() == 0 { "GraphQL 错误"@ } else { m }
}

/// The messages of a list of errors.
pub open spec fn error_texts(es: Seq<Json>) -> Seq<Seq<char>> {
    Seq::new(es.len(), |i: int| error_text(es[i]))
}

/// What `errors_message` reports for a response: `None` for a success (`{data, ...}`
/// without `errors`, or with an empty `errors` list); the joined messages of a non-empty
/// `errors` list; a fixed message for anything malformed (not an object, neither `data`
/// nor `errors`, or `errors` that is not a list).
pub open spec fn response_error(v: Json) -> Option<Seq<char>> {
    if !(v is Object) {
        Some("非法响应(非 JSON 对象)"@)
    } else {
        match json_get(v, seq!['e', 'r', 'r', 'o', 'r', 's']) {
            None => if json_get(v, seq!['d', 'a', 't', 'a']) is Some { None } else { Some("非法响应(缺少 data/errors)"@) },
            Some(Json::List(es)) => if es.len() == 0 { None } else { Some(join(error_texts(es), seq![';', ' '])) },
            Some(_) => Some("非法响应(errors 字段格式错误)"@),
        }
    }
}

/// The error a GraphQL response carries, if any (see [`response_error`]): data layers
/// report failed and malformed responses alike instead of taking them for empty successes.
pub fn errors_message(v: &Value) -> (r: Option<String>)
    ensures
        match r {
            Some(s) => response_error(v@) == Some(s@),
            None => response_error(v@) is None,
        },
{
    match v {
        Value::Object(_) => {},
        _ => {
            return Some("非法响应(非 JSON 对象)".to_owned());
        },
    }
    let ek = "errors";
    let dk = "data";
    let mk = "message";
    proof {
        reveal_strlit("errors");
        reveal_strlit("data");
        reveal_strlit("message");
        assert(ek@ =~= seq!['e', 'r', 'r', 'o', 'r', 's']);
        assert(dk@ =~= seq!['d', 'a', 't', 'a']);
        assert(mk@ =~= seq!['m', 'e', 's', 's', 'a', 'g', 'e']);
    }
    match v.get(ek) {
        None => {
            if v.get(dk).is_some() {
                None
            } else {
                Some("非法响应(缺少 data/errors)".to_owned())
            }
        },
        Some(Value::List(errs)) => {
            if errs.len() == 0 {
                return None;
            }
            let ghost em = Seq::new(errs@.len(), |i: int| errs@[i]@);
            proof {
                crate::gql::store::lemma_list_model(*errs);
            }
            let mut out: Vec<char> = Vec::new();
            let mut i: usize = 0;
            while i < errs.len()
                invariant
                    0 <= i <= errs@.len(),
                    errs@.len() > 0,
                    em == Seq::new(errs@.len(), |i: int| errs@[i]@),
                    mk@ == seq!['m', 'e', 's', 's', 'a', 'g', 'e'],
                    out@ == join(error_texts(em).take(i as int), seq![';', ' ']),
                decreases errs@.len() - i,
            {
                proof {
                    lemma_join_step(error_texts(em), seq![';', ' '], i as int);
                    assert(error_texts(em)[i as int] == error_text(errs@[i as int]@));
                }
                if i > 0 {
                    out.push(';');
                    out.push(' ');
                }
                let m = errs[i].field(mk);
                let t = m.as_str();
                if t.is_empty() {
                    let p = "GraphQL 错误";
                    let pc = crate::text::chars_of(p);
                    let mut k: usize = 0;
                    let ghost base = out@;
                    while k < pc.len()
                        invariant
                            0 <= k <= pc@.len(),
                            pc@ == p@,
                            out@ == base + pc@.take(k as int),
                        decreases pc@.len() - k,
                    {
                        out.push(pc[k]);
                        proof {
                            assert(pc@.take(k + 1) =~= pc@.take(k as int).push(pc@[k as int]));
                        }
                        k += 1;
                    }
                    proof {
                        assert(pc@.take(pc@.len() as int) =~= pc@);
                    }
                } else {
                    let tc = crate::text::chars_of(t);
                    let mut k: usize = 0;
                    let ghost base = out@;
                    while k < tc.len()
                        invariant
                            0 <= k <= tc@.len(),
                            tc@ == t@,
                            out@ == base + tc@.take(k as int),
                        decreases tc@.len() - k,
                    {
                        out.push(tc[k]);
                        proof {
                            assert(tc@.take(k + 1) =~= tc@.take(k as int).push(tc@[k as int]));
                        }
                        k += 1;
                    }
                    proof {
                        assert(tc@.take(tc@.len() as int) =~= tc@);
                    }
                }
                proof {
                    assert(out@ =~= join(error_texts(em).take(i + 1), seq![';', ' ']));
                }
                i += 1;
            }
            proof {
                assert(error_texts(em).take(errs@.len() as int) =~= error_texts(em));
            }
            Some(crate::text::string_from(&out))
        },
        Some(_) => Some("非法响应(errors 字段格式错误)".to_owned()),
    }
}

} // verus!

verus! {

// ───────────────────────────── typed reading and writing ─────────────────────────────

/// The integer a value reads as: an `Int` as is, a float literal's integer part (toward
/// zero, saturating at the bounds of `i64`), anything else 0.
pub open spec fn json_i64(j: Json) -> i64 {
    match j {
        Json::Int(n) => n as i64,
        Json::Float(t) => crate::gql::number::float_trunc(t),
        _ => 0,
    }
}

/// The text a value reads as: a string's characters, anything else empty.
pub open spec fn json_str(j: Json) -> Seq<char> {
    match j {
        Json::Str(s) => s,
        _ => Seq::empty(),
    }
}

impl Value {
    /// The integer this value reads as (see [`json_i64`]).  A float literal is read through
    /// its exact decimal value.
    pub fn as_i64(&self) -> (r: i64)
        ensures
            r == json_i64(self@),
    {
        match self {
            Value::Int(n) => *n,
            Value::Float(t) => {
                let cs = crate::text::chars_of(t.as_str());
                crate::gql::number::float_trunc_exec(&cs)
            },
            _ => 0,
        }
    }
}

/// Reading a Rust value out of a [`Value`] (query results, job payloads).  Missing or
/// mistyped parts read as defaults (empty, 0, false, empty list) rather than failing.
pub trait FromValue: Sized {
    /// `r` is what a value with model `j` reads as.
    spec fn decodes(j: Json, r: Self) -> bool;

    fn from_value(v: &Value) -> (r: Self)
        ensures
            Self::decodes(v@, r),
    ;
}

/// Writing a Rust value as a [`Value`] (resolver results, job payloads).
pub trait IntoValue {
    /// The model of the value written.
    spec fn encoded(&self) -> Json;

    fn into_value(&self) -> (v: Value)
        ensures
            v@ == self.encoded(),
    ;
}

impl FromValue for String {
    open spec fn decodes(j: Json, r: Self) -> bool {
        r@ == json_str(j)
    }

    fn from_value(v: &Value) -> (r: Self) {
        v.as_str().to_owned()
    }
}

impl FromValue for i64 {
    open spec fn decodes(j: Json, r: Self) -> bool {
        r == json_i64(j)
    }

    fn from_value(v: &Value) -> (r: Self) {
        v.as_i64()
    }
}

impl FromValue for bool {
    open spec fn decodes(j: Json, r: Self) -> bool {
        r == (j == Json::Bool(true))
    }

    fn from_value(v: &Value) -> (r: Self) {
        v.as_bool()
    }
}

impl<T: FromValue> FromValue for Vec<T> {
    open spec fn decodes(j: Json, r: Self) -> bool {
        match j {
            Json::List(xs) => r@.len() == xs.len() && forall|i: int| 0 <= i < xs.len() ==> T::decodes(xs[i], #[trigger] r@[i]),
            _ => r@.len() == 0,
        }
    }

    fn from_value(v: &Value) -> (r: Self) {
        let xs = v.as_list();
        let mut out: Vec<T> = Vec::new();
        let mut i: usize = 0;
        while i < xs.len()
            invariant
                0 <= i <= xs@.len(),
                out@.len() == i,
                v is List ==> xs@ == v->List_0@,
                !(v is List) ==> xs@.len() == 0,
                forall|k: int| 0 <= k < i ==> T::decodes(xs@[k]@, #[trigger] out@[k]),
            decreases xs@.len() - i,
        {
            let x = T::from_value(&xs[i]);
            out.push(x);
            i += 1;
        }
        proof {
            if v is List {
                let ys = v->List_0;
                assert forall|k: int| 0 <= k < ys@.len() implies T::decodes(model(*v)->List_0[k], #[trigger] out@[k]) by {
                    assert(model(*v)->List_0[k] == model(ys@[k]));
                }
            }
        }
        out
    }
}

impl<T: FromValue> FromValue for Option<T> {
    open spec fn decodes(j: Json, r: Self) -> bool {
        if j == Json::Null { r is None } else { r is Some && T::decodes(j, r->0) }
    }

    fn from_value(v: &Value) -> (r: Self) {
        if v.is_null() {
            None
        } else {
            Some(T::from_value(v))
        }
    }
}

impl IntoValue for String {
    open spec fn encoded(&self) -> Json {
        Json::Str(self@)
    }

    fn into_value(&self) -> (v: Value) {
        Value::Str(self.clone())
    }
}

impl IntoValue for str {
    open spec fn encoded(&self) -> Json {
        Json::Str(self@)
    }

    fn into_value(&self) -> (v: Value) {
        Value::Str(self.to_owned())
    }
}

impl IntoValue for i64 {
    open spec fn encoded(&self) -> Json {
        Json::Int(*self as int)
    }

    fn into_value(&self) -> (v: Value) {
        Value::Int(*self)
    }
}

impl IntoValue for bool {
    open spec fn encoded(&self) -> Json {
        Json::Bool(*self)
    }

    fn into_value(&self) -> (v: Value) {
        Value::Bool(*self)
    }
}

/// The models of the elements written one by one.
pub open spec fn encoded_all<T: IntoValue>(xs: Seq<T>) -> Seq<Json> {
    Seq::new(xs.len(), |i: int| xs[i].encoded())
}

impl<T: IntoValue> IntoValue for Vec<T> {
    open spec fn encoded(&self) -> Json {
        Json::List(encoded_all(self@))
    }

    fn into_value(&self) -> (v: Value) {
        let mut out: Vec<Value> = Vec::new();
        let mut i: usize = 0;
        while i < self.len()
            invariant
                0 <= i <= self@.len(),
                out@.len() == i,
                forall|k: int| 0 <= k < i ==> (#[trigger] out@[k])@ == self@[k].encoded(),
            decreases self@.len() - i,
        {
            let x = self[i].into_value();
            out.push(x);
            i += 1;
        }
        let v = Value::List(out);
        proof {
            assert(model(v)->List_0 =~= encoded_all(self@));
        }
        v
    }
}

impl<T: IntoValue> IntoValue for Option<T> {
    open spec fn encoded(&self) -> Json {
        match self {
            Some(x) => x.encoded(),
            None => Json::Null,
        }
    }

    fn into_value(&self) -> (v: Value) {
        match self {
            Some(x) => x.into_value(),
            None => Value::Null,
        }
    }
}

} // verus!
