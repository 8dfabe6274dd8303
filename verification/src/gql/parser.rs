//! GraphQL document reader (recursive descent over bytes): operations (query, mutation,
//! subscription, possibly anonymous), nested selections, field arguments, aliases, several
//! root fields.  Variable definitions are skipped (clients inline variable values).
//!
//! The reader accepts any text: malformed input reads as far as it makes sense and never
//! loops (every step that consumes nothing skips a byte), and selections nested deeper
//! than [`MAX_DEPTH`] are skipped without recursion, so hostile input can neither hang
//! nor exhaust the stack.
use vstd::prelude::*;
use crate::gql::value::{Json, byte_at, ascii_chars, float_text, ascii_string, float_ok_exec, slice_bytes};
use crate::runtime::{utf8_text, string_from_utf8_lossy, parse_i64_spec, parse_i64};

verus! {

/// Selections nested deeper than this are skipped (not read).
pub const MAX_DEPTH: usize = 64;

#[derive(Debug, Clone, Copy, PartialEq, Eq, Structural)]
pub enum OpKind {
    Query,
    Mutation,
    Subscription,
}

/// An argument value.  Floats are kept as their literal text.
#[derive(Debug, Clone)]
pub enum AVal {
    Str(String),
    Int(i64),
    Float(String),
    Bool(bool),
    Null,
}

#[derive(Debug)]
pub struct Field {
    pub alias: Option<String>,
    pub name: String,
    pub args: Vec<(String, AVal)>,
    pub selection: Vec<Field>,
}

#[derive(Debug)]
pub struct Operation {
    pub kind: OpKind,
    pub selection: Vec<Field>,
}

pub struct Document {
    pub ops: Vec<Operation>,
}

/// The model of a field.
pub struct FieldM {
    pub alias: Option<Seq<char>>,
    pub name: Seq<char>,
    pub args: Seq<(Seq<char>, Json)>,
    pub selection: Seq<FieldM>,
}

/// The model of an operation.
pub struct OpM {
    pub kind: OpKind,
    pub selection: Seq<FieldM>,
}

pub open spec fn aval_model(a: AVal) -> Json {
    match a {
        AVal::Str(s) => Json::Str(s@),
        AVal::Int(n) => Json::Int(n as int),
        AVal::Float(t) => Json::Float(t@),
        AVal::Bool(b) => Json::Bool(b),
        AVal::Null => Json::Null,
    }
}

pub open spec fn args_model(a: Seq<(String, AVal)>) -> Seq<(Seq<char>, Json)> {
    Seq::new(a.len(), |i: int| (a[i].0@, aval_model(a[i].1)))
}

pub open spec fn field_model(f: Field) -> FieldM
    decreases f,
{
    FieldM {
        alias: match f.alias { Some(a) => Some(a@), None => None },
        name: f.name@,
        args: args_model(f.args@),
        selection: Seq::new(f.selection@.len(), |i: int| if 0 <= i < f.selection@.len() { field_model(f.selection@[i]) } else { FieldM { alias: None, name: Seq::empty(), args: Seq::empty(), selection: Seq::empty() } }),
    }
}

pub open spec fn fields_model(v: Seq<Field>) -> Seq<FieldM> {
    Seq::new(v.len(), |i: int| field_model(v[i]))
}

pub open spec fn ops_model(v: Seq<Operation>) -> Seq<OpM> {
    Seq::new(v.len(), |i: int| OpM { kind: v[i].kind, selection: fields_model(v[i].selection@) })
}

// ───────────────────────────── lexical level ─────────────────────────────

/// Insignificant bytes: ASCII whitespace and commas.
pub open spec fn is_gap(c: u8) -> bool {
    c == 0x20 || c == 0x09 || c == 0x0a || c == 0x0c || c == 0x0d || c == 0x2c
}

/// Identifier bytes: ASCII letters, digits and `_`.
pub open spec fn is_ident(c: u8) -> bool {
    (0x30 <= c <= 0x39) || (0x41 <= c <= 0x5a) || (0x61 <= c <= 0x7a) || c == 0x5f
}

/// The position after the gap at `i`.
pub open spec fn gap_end(b: Seq<u8>, i: int) -> int
    decreases b.len() - i,
{
    if 0 <= i < b.len() && is_gap(b[i]) { gap_end(b, i + 1) } else { i }
}

/// The position after the identifier at `i`.
pub open spec fn ident_end(b: Seq<u8>, i: int) -> int
    decreases b.len() - i,
{
    if 0 <= i < b.len() && is_ident(b[i]) { ident_end(b, i + 1) } else { i }
}

/// The position of the next unescaped `"` at or after `i` (or the end); a `\` escapes
/// the byte after it.
pub open spec fn quote_end(b: Seq<u8>, i: int) -> int
    decreases b.len() - i,
{
    if 0 <= i < b.len() && b[i] != 0x22 {
        if b[i] == 0x5c && i + 1 < b.len() { quote_end(b, i + 2) } else { quote_end(b, i + 1) }
    } else {
        i
    }
}

/// The byte that the escape `\x` stands for: `\n`, `\t`, `\r`, `\b` and `\f` name
/// control characters; any other `x` (among them `"`, `\` and `/`) stands for itself.
pub open spec fn escaped_byte(x: u8) -> u8 {
    if x == 0x6e {
        0x0a
    } else if x == 0x74 {
        0x09
    } else if x == 0x72 {
        0x0d
    } else if x == 0x62 {
        0x08
    } else if x == 0x66 {
        0x0c
    } else {
        x
    }
}

/// The bytes of a quoted string's body with its escapes resolved.
pub open spec fn unescape(s: Seq<u8>) -> Seq<u8>
    decreases s.len(),
{
    if s.len() == 0 {
        Seq::empty()
    } else if s[0] == 0x5c && s.len() >= 2 {
        seq![escaped_byte(s[1])] + unescape(s.skip(2))
    } else {
        seq![s[0]] + unescape(s.skip(1))
    }
}

/// The end of the number scan at `i`, and whether it met `.`, `e` or `E`.
pub open spec fn num_end(b: Seq<u8>, i: int, fl: bool) -> (int, bool)
    decreases b.len() - i,
{
    if 0 <= i < b.len() && ((0x30 <= b[i] <= 0x39) || b[i] == 0x2d || b[i] == 0x2b) {
        num_end(b, i + 1, fl)
    } else if 0 <= i < b.len() && (b[i] == 0x2e || b[i] == 0x65 || b[i] == 0x45) {
        num_end(b, i + 1, true)
    } else {
        (i, fl)
    }
}

pub proof fn lemma_scan_bounds(b: Seq<u8>, i: int)
    requires
        0 <= i,
    ensures
        i <= gap_end(b, i) <= if i > b.len() { i } else { b.len() as int },
        i <= ident_end(b, i) <= if i > b.len() { i } else { b.len() as int },
        i <= quote_end(b, i) <= if i > b.len() { i } else { b.len() as int },
    decreases b.len() - i,
{
    if 0 <= i < b.len() {
        lemma_scan_bounds(b, i + 1);
        if i + 2 <= b.len() {
            lemma_scan_bounds(b, i + 2);
        }
    }
}

/// The text of bytes `[a, z)` as characters (the bytes are ASCII).
pub open spec fn text_of(b: Seq<u8>, a: int, z: int) -> Seq<char> {
    ascii_chars(b.subrange(a, z))
}

/// An argument value at `i` and the position after it.
pub open spec fn read_aval(b: Seq<u8>, i: int) -> (Json, int) {
    let j = gap_end(b, i);
    let c = byte_at(b, j);
    if c == 0x22 {
        let e = quote_end(b, j + 1);
        (Json::Str(utf8_text(unescape(b.subrange(j + 1, e)))), e + 1)
    } else if c == 0x74 || c == 0x66 {
        let e = ident_end(b, j);
        (Json::Bool(text_of(b, j, e) == seq!['t', 'r', 'u', 'e']), e)
    } else if c == 0x6e {
        (Json::Null, ident_end(b, j))
    } else {
        let (e, fl) = num_end(b, j, false);
        if e == j {
            (Json::Null, j + 1)
        } else if fl {
            (Json::Float(float_text(b.subrange(j, e))), e)
        } else {
            (Json::Int(match parse_i64_spec(text_of(b, j, e)) { Some(n) => n as int, None => 0 }), e)
        }
    }
}

/// The arguments from `i` (after `(` or after the previous argument) to the closing `)`.
pub open spec fn read_args(b: Seq<u8>, i: int, acc: Seq<(Seq<char>, Json)>) -> (Seq<(Seq<char>, Json)>, int)
    decreases b.len() + 1 - i,
{
    if i < 0 || i > b.len() {
        (acc, i)
    } else {
        let j = gap_end(b, i);
        if byte_at(b, j) == 0x29 || byte_at(b, j) == 0 {
            (acc, j + 1)
        } else {
            let e = ident_end(b, j);
            let name = text_of(b, j, e);
            let k = gap_end(b, e);
            let k2 = if byte_at(b, k) == 0x3a { k + 1 } else { k };
            let (val, k3) = read_aval(b, k2);
            let acc2 = if name.len() > 0 { acc.push((name, val)) } else { acc };
            let k4 = gap_end(b, k3);
            let k5 = if k4 == j { k4 + 1 } else { k4 };
            if k5 <= j || j < i || k5 >= b.len() {
                (acc2, (if k5 >= b.len() { k5 } else { j }) + 1)
            } else {
                read_args(b, k5, acc2)
            }
        }
    }
}

/// The position after a balanced group opened at `i` (`open`/`close` bytes, depth `d`).
pub open spec fn skip_group(b: Seq<u8>, i: int, d: int, open: u8, close: u8) -> int
    decreases b.len() - i,
{
    if i < 0 || i >= b.len() || b[i] == 0 {
        i
    } else if b[i] == open {
        skip_group(b, i + 1, d + 1, open, close)
    } else if b[i] == close {
        if d - 1 == 0 { i + 1 } else { skip_group(b, i + 1, d - 1, open, close) }
    } else {
        skip_group(b, i + 1, d, open, close)
    }
}

// ───────────────────────────── fields and selections ─────────────────────────────

/// The field at `j` (read with nesting depth `depth`) and the position after it.
pub open spec fn read_field(b: Seq<u8>, j: int, depth: nat) -> (FieldM, int)
    decreases b.len() + 1 - j, 1nat,
{
    if j < 0 || j > b.len() {
        (FieldM { alias: None, name: Seq::empty(), args: Seq::empty(), selection: Seq::empty() }, j)
    } else {
        let j0 = gap_end(b, j);
        let e = ident_end(b, j0);
        let k = gap_end(b, e);
        let aliased = byte_at(b, k) == 0x3a;
        let (alias, name, k2) = if aliased {
            let s = gap_end(b, k + 1);
            let e2 = ident_end(b, s);
            (Some(text_of(b, j0, e)), text_of(b, s, e2), gap_end(b, e2))
        } else {
            (None, text_of(b, j0, e), k)
        };
        let (args, k3) = if byte_at(b, k2) == 0x28 && k2 >= j {
            read_args(b, k2 + 1, Seq::empty())
        } else {
            (Seq::empty(), k2)
        };
        let k4 = gap_end(b, k3);
        let (sel, k5) = if byte_at(b, k4) == 0x7b && k4 >= j {
            if depth >= MAX_DEPTH {
                (Seq::empty(), skip_group(b, k4, 0, 0x7b, 0x7d))
            } else {
                read_selection(b, k4 + 1, Seq::empty(), depth + 1)
            }
        } else {
            (Seq::empty(), k4)
        };
        (FieldM { alias, name, args, selection: sel }, k5)
    }
}

/// The fields from `i` (after `{` or after the previous field) to the closing `}`.
pub open spec fn read_selection(b: Seq<u8>, i: int, acc: Seq<FieldM>, depth: nat) -> (Seq<FieldM>, int)
    decreases b.len() + 1 - i, 2nat,
{
    if i < 0 || i > b.len() {
        (acc, i)
    } else {
        let j = gap_end(b, i);
        if byte_at(b, j) == 0x7d || byte_at(b, j) == 0 {
            (acc, j + 1)
        } else if j < i {
            (acc, i)
        } else {
            let (f, k) = read_field(b, j, depth);
            if k == j {
                read_selection(b, j + 1, acc, depth)
            } else {
                let acc2 = if f.name.len() > 0 { acc.push(f) } else { acc };
                if k <= j || k >= b.len() {
                    (acc2, (if k >= b.len() { k } else { j }) + 1)
                } else {
                    read_selection(b, k, acc2, depth)
                }
            }
        }
    }
}

/// The operation kind a keyword names (anything else is a query).
pub open spec fn kind_of(kw: Seq<char>) -> OpKind {
    if kw == seq!['m', 'u', 't', 'a', 't', 'i', 'o', 'n'] {
        OpKind::Mutation
    } else if kw == seq!['s', 'u', 'b', 's', 'c', 'r', 'i', 'p', 't', 'i', 'o', 'n'] {
        OpKind::Subscription
    } else {
        OpKind::Query
    }
}

/// The operation at `i` and the position after it (`None` at the end or when no
/// selection set follows the header).
pub open spec fn read_operation(b: Seq<u8>, i: int) -> Option<(OpM, int)> {
    let j = gap_end(b, i);
    if byte_at(b, j) == 0 {
        None
    } else {
        let (kind, p) = if byte_at(b, j) != 0x7b {
            let e = ident_end(b, j);
            let kw = text_of(b, j, e);
            let k = gap_end(b, e);
            let k2 = if byte_at(b, k) != 0x7b && byte_at(b, k) != 0x28 { gap_end(b, ident_end(b, k)) } else { k };
            let k3 = if byte_at(b, k2) == 0x28 { gap_end(b, skip_group(b, k2, 0, 0x28, 0x29)) } else { k2 };
            (kind_of(kw), k3)
        } else {
            (OpKind::Query, j)
        };
        if byte_at(b, p) != 0x7b || p < i {
            None
        } else {
            let (sel, k) = read_selection(b, p + 1, Seq::empty(), 0);
            Some((OpM { kind, selection: sel }, k))
        }
    }
}

/// The operations from `i` on.
pub open spec fn read_ops(b: Seq<u8>, i: int, acc: Seq<OpM>) -> Seq<OpM>
    decreases b.len() + 1 - i,
{
    if i < 0 || i > b.len() {
        acc
    } else {
        let j = gap_end(b, i);
        if byte_at(b, j) == 0 {
            acc
        } else {
            match read_operation(b, j) {
                None => acc,
                Some((op, k)) => if k <= j || j < i || k >= b.len() { acc.push(op) } else { read_ops(b, k, acc.push(op)) },
            }
        }
    }
}

} // verus!

verus! {

fn gap_end_exec(b: &[u8], i: usize) -> (r: usize)
    ensures
        r == gap_end(b@, i as int),
        i <= r <= if i > b@.len() { i as int } else { b@.len() as int },
{
    proof {
        lemma_scan_bounds(b@, i as int);
    }
    let mut k = i;
    while k < b.len() && (b[k] == 0x20 || b[k] == 0x09 || b[k] == 0x0a || b[k] == 0x0c || b[k] == 0x0d || b[k] == 0x2c)
        invariant
            i <= k <= if i > b@.len() { i as int } else { b@.len() as int },
            gap_end(b@, k as int) == gap_end(b@, i as int),
        decreases b@.len() - k,
    {
        k += 1;
    }
    k
}

fn ident_end_exec(b: &[u8], i: usize) -> (r: usize)
    ensures
        r == ident_end(b@, i as int),
        i <= r <= if i > b@.len() { i as int } else { b@.len() as int },
{
    proof {
        lemma_scan_bounds(b@, i as int);
    }
    let mut k = i;
    while k < b.len() && ((0x30 <= b[k] && b[k] <= 0x39) || (0x41 <= b[k] && b[k] <= 0x5a) || (0x61 <= b[k] && b[k] <= 0x7a) || b[k] == 0x5f)
        invariant
            i <= k <= if i > b@.len() { i as int } else { b@.len() as int },
            ident_end(b@, k as int) == ident_end(b@, i as int),
        decreases b@.len() - k,
    {
        k += 1;
    }
    k
}

fn quote_end_exec(b: &[u8], i: usize) -> (r: usize)
    ensures
        r == quote_end(b@, i as int),
        i <= r <= if i > b@.len() { i as int } else { b@.len() as int },
{
    proof {
        lemma_scan_bounds(b@, i as int);
    }
    let mut k = i;
    while k < b.len() && b[k] != 0x22
        invariant
            i <= k <= if i > b@.len() { i as int } else { b@.len() as int },
            quote_end(b@, k as int) == quote_end(b@, i as int),
        decreases b@.len() - k,
    {
        if b[k] == 0x5c && k + 1 < b.len() {
            k += 2;
        } else {
            k += 1;
        }
    }
    k
}

/// Resolves the escapes of a quoted string's body.
fn unescape_exec(s: &[u8]) -> (r: Vec<u8>)
    ensures
        r@ == unescape(s@),
{
    let mut out: Vec<u8> = Vec::new();
    let mut i: usize = 0;
    proof {
        assert(s@.skip(0) =~= s@);
        assert(out@ + unescape(s@) =~= unescape(s@));
    }
    while i < s.len()
        invariant
            0 <= i <= s@.len(),
            unescape(s@) == out@ + unescape(s@.skip(i as int)),
        decreases s@.len() - i,
    {
        let ghost rest = s@.skip(i as int);
        if s[i] == 0x5c && i + 1 < s.len() {
            let x = s[i + 1];
            let c: u8 = if x == 0x6e {
                0x0a
            } else if x == 0x74 {
                0x09
            } else if x == 0x72 {
                0x0d
            } else if x == 0x62 {
                0x08
            } else if x == 0x66 {
                0x0c
            } else {
                x
            };
            proof {
                assert(rest.skip(2) =~= s@.skip(i + 2));
                assert(out@.push(c) + unescape(s@.skip(i + 2)) =~= out@ + (seq![c] + unescape(s@.skip(i + 2))));
            }
            out.push(c);
            i += 2;
        } else {
            let c = s[i];
            proof {
                assert(rest.skip(1) =~= s@.skip(i + 1));
                assert(out@.push(c) + unescape(s@.skip(i + 1)) =~= out@ + (seq![c] + unescape(s@.skip(i + 1))));
            }
            out.push(c);
            i += 1;
        }
    }
    proof {
        assert(s@.skip(i as int) =~= Seq::<u8>::empty());
        assert(out@ + Seq::<u8>::empty() =~= out@);
    }
    out
}

fn num_end_exec(b: &[u8], i: usize) -> (r: (usize, bool))
    requires
        i <= b@.len(),
    ensures
        (r.0 as int, r.1) == num_end(b@, i as int, false),
        i <= r.0 <= b@.len(),
{
    let mut k = i;
    let mut fl = false;
    while k < b.len()
        invariant
            i <= k <= b@.len(),
            num_end(b@, k as int, fl) == num_end(b@, i as int, false),
        decreases b@.len() - k,
    {
        let c = b[k];
        if (0x30 <= c && c <= 0x39) || c == 0x2d || c == 0x2b {
            k += 1;
        } else if c == 0x2e || c == 0x65 || c == 0x45 {
            fl = true;
            k += 1;
        } else {
            return (k, fl);
        }
    }
    (k, fl)
}

fn byte_at_exec(b: &[u8], i: usize) -> (c: u8)
    ensures
        c == byte_at(b@, i as int),
{
    if i < b.len() { b[i] } else { 0 }
}

/// The text of bytes `[a, z)`.
fn text_exec(b: &[u8], a: usize, z: usize) -> (s: String)
    requires
        a <= z <= b@.len(),
    ensures
        s@ == text_of(b@, a as int, z as int),
{
    let t = slice_bytes(b, a, z);
    ascii_string(&t)
}

fn read_aval_exec(b: &[u8], i: usize) -> (r: (AVal, usize))
    requires
        i <= b@.len(),
        b@.len() + 200 <= usize::MAX,
        b@.len() <= i64::MAX,
    ensures
        (aval_model(r.0), r.1 as int) == read_aval(b@, i as int),
        i <= r.1 <= b@.len() + 1,
{
    let j = gap_end_exec(b, i);
    let c = byte_at_exec(b, j);
    if c == 0x22 {
        let e = quote_end_exec(b, j + 1);
        let t = slice_bytes(b, j + 1, e);
        let u = unescape_exec(t.as_slice());
        (AVal::Str(string_from_utf8_lossy(u.as_slice())), e + 1)
    } else if c == 0x74 || c == 0x66 {
        let e = ident_end_exec(b, j);
        let t = text_exec(b, j, e);
        let tr = "true";
        proof {
            reveal_strlit("true");
            assert(tr@ =~= seq!['t', 'r', 'u', 'e']);
        }
        (AVal::Bool(t == tr.to_owned()), e)
    } else if c == 0x6e {
        (AVal::Null, ident_end_exec(b, j))
    } else {
        let (e, fl) = num_end_exec(b, j);
        if e == j {
            (AVal::Null, j + 1)
        } else if fl {
            let t = slice_bytes(b, j, e);
            if float_ok_exec(&t) {
                (AVal::Float(ascii_string(&t)), e)
            } else {
                let z = "0";
                proof {
                    reveal_strlit("0");
                    assert(z@ =~= seq!['0']);
                }
                (AVal::Float(z.to_owned()), e)
            }
        } else {
            let t = text_exec(b, j, e);
            match parse_i64(t.as_str()) {
                Some(n) => (AVal::Int(n), e),
                None => (AVal::Int(0), e),
            }
        }
    }
}

fn read_args_exec(b: &[u8], i: usize) -> (r: (Vec<(String, AVal)>, usize))
    requires
        i <= b@.len(),
        b@.len() + 200 <= usize::MAX,
        b@.len() <= i64::MAX,
    ensures
        (args_model(r.0@), r.1 as int) == read_args(b@, i as int, Seq::empty()),
        i <= r.1 <= b@.len() + 2,
{
    let mut acc: Vec<(String, AVal)> = Vec::new();
    let mut i2 = i;
    proof {
        assert(args_model(acc@) =~= Seq::<(Seq<char>, Json)>::empty());
    }
    loop
        invariant
            i <= i2 <= b@.len(),
            b@.len() + 200 <= usize::MAX,
            b@.len() <= i64::MAX,
        b@.len() <= i64::MAX,
            read_args(b@, i2 as int, args_model(acc@)) == read_args(b@, i as int, Seq::empty()),
        decreases b@.len() + 1 - i2,
    {
        let j = gap_end_exec(b, i2);
        let c = byte_at_exec(b, j);
        if c == 0x29 || c == 0 {
            return (acc, j + 1);
        }
        let e = ident_end_exec(b, j);
        let name = text_exec(b, j, e);
        let k = gap_end_exec(b, e);
        let k2 = if byte_at_exec(b, k) == 0x3a { k + 1 } else { k };
        let (val, k3) = read_aval_exec(b, k2);
        if !name.as_str().is_empty() {
            let ghost before = args_model(acc@);
            let ghost entry = (name@, aval_model(val));
            acc.push((name, val));
            proof {
                assert(args_model(acc@) =~= before.push(entry));
            }
        }
        let k4 = gap_end_exec(b, k3);
        let k5 = if k4 == j { k4 + 1 } else { k4 };
        if k5 >= b.len() {
            return (acc, k5 + 1);
        }
        i2 = k5;
    }
}

fn skip_group_exec(b: &[u8], i: usize, open: u8, close: u8) -> (r: usize)
    requires
        i <= b@.len(),
        b@.len() <= i64::MAX,
    ensures
        r as int == skip_group(b@, i as int, 0, open, close),
        i <= r <= b@.len(),
{
    let mut k = i;
    let mut d: i64 = 0;
    let ghost total = skip_group(b@, i as int, 0, open, close);
    while k < b.len()
        invariant
            i <= k <= b@.len(),
            skip_group(b@, k as int, d as int, open, close) == total,
            total == skip_group(b@, i as int, 0, open, close),
            -(k as int) <= d <= k as int,
            b@.len() <= i64::MAX,
        decreases b@.len() - k,
    {
        let c = b[k];
        if c == 0 {
            return k;
        }
        if c == open {
            d = d + 1;
        } else if c == close {
            d = d - 1;
            if d == 0 {
                return k + 1;
            }
        }
        k += 1;
    }
    k
}

/// The selection bound: how far past the end a read at `depth` can move.
pub open spec fn pos_bound(n: int, depth: int) -> int {
    n + 140 - 2 * depth
}

fn read_field_exec(b: &[u8], j: usize, depth: usize) -> (r: (Field, usize))
    requires
        j <= b@.len(),
        depth <= MAX_DEPTH,
        b@.len() + 200 <= usize::MAX,
        b@.len() <= i64::MAX,
    ensures
        (field_model(r.0), r.1 as int) == read_field(b@, j as int, depth as nat),
        j <= r.1 <= pos_bound(b@.len() as int, depth as int),
    decreases b@.len() + 1 - j, 1nat,
{
    let j0 = gap_end_exec(b, j);
    let e = ident_end_exec(b, j0);
    let k = gap_end_exec(b, e);
    let (alias, name, k2) = if byte_at_exec(b, k) == 0x3a {
        let s = gap_end_exec(b, k + 1);
        let e2 = ident_end_exec(b, s);
        (Some(text_exec(b, j0, e)), text_exec(b, s, e2), gap_end_exec(b, e2))
    } else {
        (None, text_exec(b, j0, e), k)
    };
    let (args, k3) = if byte_at_exec(b, k2) == 0x28 {
        read_args_exec(b, k2 + 1)
    } else {
        let a: Vec<(String, AVal)> = Vec::new();
        proof {
            assert(args_model(a@) =~= Seq::<(Seq<char>, Json)>::empty());
        }
        (a, k2)
    };
    let k4 = gap_end_exec(b, k3);
    let (sel, k5) = if byte_at_exec(b, k4) == 0x7b {
        if depth >= MAX_DEPTH {
            let v: Vec<Field> = Vec::new();
            proof {
                assert(fields_model(v@) =~= Seq::<FieldM>::empty());
            }
            (v, skip_group_exec(b, k4, 0x7b, 0x7d))
        } else {
            read_selection_exec(b, k4 + 1, depth + 1)
        }
    } else {
        let v: Vec<Field> = Vec::new();
        proof {
            assert(fields_model(v@) =~= Seq::<FieldM>::empty());
        }
        (v, k4)
    };
    let f = Field { alias, name, args, selection: sel };
    proof {
        assert(field_model(f).selection =~= fields_model(sel@));
    }
    (f, k5)
}

fn read_selection_exec(b: &[u8], i: usize, depth: usize) -> (r: (Vec<Field>, usize))
    requires
        i <= b@.len(),
        depth <= MAX_DEPTH,
        b@.len() + 200 <= usize::MAX,
        b@.len() <= i64::MAX,
    ensures
        (fields_model(r.0@), r.1 as int) == read_selection(b@, i as int, Seq::empty(), depth as nat),
        i <= r.1 <= pos_bound(b@.len() as int, depth as int) + 1,
    decreases b@.len() + 1 - i, 2nat,
{
    let mut acc: Vec<Field> = Vec::new();
    let mut i2 = i;
    proof {
        assert(fields_model(acc@) =~= Seq::<FieldM>::empty());
    }
    loop
        invariant
            i <= i2 <= b@.len(),
            depth <= MAX_DEPTH,
            b@.len() + 200 <= usize::MAX,
            b@.len() <= i64::MAX,
        b@.len() <= i64::MAX,
            read_selection(b@, i2 as int, fields_model(acc@), depth as nat) == read_selection(b@, i as int, Seq::empty(), depth as nat),
        decreases b@.len() + 1 - i2,
    {
        let j = gap_end_exec(b, i2);
        let c = byte_at_exec(b, j);
        if c == 0x7d || c == 0 {
            return (acc, j + 1);
        }
        let (f, k) = read_field_exec(b, j, depth);
        if k == j {
            i2 = j + 1;
        } else {
            if !f.name.as_str().is_empty() {
                let ghost before = fields_model(acc@);
                let ghost fm = field_model(f);
                acc.push(f);
                proof {
                    assert(fields_model(acc@) =~= before.push(fm));
                }
            }
            if k >= b.len() {
                return (acc, k + 1);
            }
            i2 = k;
        }
    }
}

fn read_operation_exec(b: &[u8], i: usize) -> (r: Option<(Operation, usize)>)
    requires
        i <= b@.len(),
        b@.len() + 200 <= usize::MAX,
        b@.len() <= i64::MAX,
    ensures
        match r {
            Some((op, k)) => read_operation(b@, i as int) == Some((OpM { kind: op.kind, selection: fields_model(op.selection@) }, k as int))
                && i < k <= pos_bound(b@.len() as int, 0) + 1,
            None => read_operation(b@, i as int) is None,
        },
{
    let j = gap_end_exec(b, i);
    if byte_at_exec(b, j) == 0 {
        return None;
    }
    let (kind, p) = if byte_at_exec(b, j) != 0x7b {
        let e = ident_end_exec(b, j);
        let kw = text_exec(b, j, e);
        let k = gap_end_exec(b, e);
        let c = byte_at_exec(b, k);
        let k2 = if c != 0x7b && c != 0x28 { let t = ident_end_exec(b, k); gap_end_exec(b, t) } else { k };
        let k3 = if byte_at_exec(b, k2) == 0x28 { let t = skip_group_exec(b, k2, 0x28, 0x29); gap_end_exec(b, t) } else { k2 };
        let mu = "mutation";
        let su = "subscription";
        proof {
            reveal_strlit("mutation");
            reveal_strlit("subscription");
            assert(mu@ =~= seq!['m', 'u', 't', 'a', 't', 'i', 'o', 'n']);
            assert(su@ =~= seq!['s', 'u', 'b', 's', 'c', 'r', 'i', 'p', 't', 'i', 'o', 'n']);
        }
        let kind = if kw == mu.to_owned() {
            OpKind::Mutation
        } else if kw == su.to_owned() {
            OpKind::Subscription
        } else {
            OpKind::Query
        };
        (kind, k3)
    } else {
        (OpKind::Query, j)
    };
    if byte_at_exec(b, p) != 0x7b {
        return None;
    }
    let (sel, k) = read_selection_exec(b, p + 1, 0);
    Some((Operation { kind, selection: sel }, k))
}

/// Reads a GraphQL document: its operations, in order.
pub fn parse(s: &str) -> (d: Document)
    requires
        vstd::utf8::encode_utf8(s@).len() + 200 <= usize::MAX,
        vstd::utf8::encode_utf8(s@).len() <= i64::MAX,
    ensures
        ops_model(d.ops@) == read_ops(vstd::utf8::encode_utf8(s@), 0, Seq::empty()),
{
    let b = s.as_bytes();
    let mut ops: Vec<Operation> = Vec::new();
    let mut i: usize = 0;
    proof {
        assert(ops_model(ops@) =~= Seq::<OpM>::empty());
    }
    loop
        invariant
            i <= b@.len(),
            b@.len() + 200 <= usize::MAX,
            b@.len() <= i64::MAX,
        b@.len() <= i64::MAX,
            read_ops(b@, i as int, ops_model(ops@)) == read_ops(b@, 0, Seq::empty()),
            b@ == vstd::utf8::encode_utf8(s@),
        decreases b@.len() + 1 - i,
    {
        let j = gap_end_exec(b, i);
        if byte_at_exec(b, j) == 0 {
            return Document { ops };
        }
        match read_operation_exec(b, j) {
            None => {
                return Document { ops };
            },
            Some((op, k)) => {
                let ghost before = ops_model(ops@);
                let ghost om = OpM { kind: op.kind, selection: fields_model(op.selection@) };
                ops.push(op);
                proof {
                    assert(ops_model(ops@) =~= before.push(om));
                }
                if k >= b.len() {
                    return Document { ops };
                }
                i = k;
            },
        }
    }
}

} // verus!
