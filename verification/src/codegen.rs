//! Helpers of the code generators (the component, page, job and query macros): snake- and
//! Pascal-case names for generated items, interval literals of interval jobs, escaping of
//! strings placed in generated GraphQL text, and the selection text the query macros
//! embed.
use vstd::prelude::*;
use crate::text::{chars_of, string_from};
use crate::server::{trim_ws, trim_chars};
use crate::runtime::{parse_uint_spec, parse_u64, slice_chars, split_all, lemma_split_all_len};
use crate::gql::{gql_escape, gql_escape_text};
use crate::gql::value::join;
use crate::text::append_str;

verus! {

/// What `char::is_uppercase` answers (the Unicode `Uppercase` property).
pub uninterp spec fn upper_case(c: char) -> bool;

/// What `char::to_lowercase` yields (one to three characters, by the Unicode case tables).
pub uninterp spec fn lower_case(c: char) -> Seq<char>;

/// std `char::is_uppercase`: the answer is a function of the character; ASCII `A`–`Z`
/// are upper case and other ASCII characters are not (the property's table for the rest
/// is not restated).
#[verifier::external_body]
fn is_upper(c: char) -> (r: bool)
    ensures
        r == upper_case(c),
        ('A' <= c <= 'Z') ==> r,
        (c as u32) < 128 && !('A' <= c <= 'Z') ==> !r,
{
    c.is_uppercase()
}

/// std `char::to_lowercase`, collected: a function of the character; an ASCII upper-case
/// letter becomes its lower-case letter (the mapping of the rest is not restated).
#[verifier::external_body]
fn to_lower(c: char) -> (r: Vec<char>)
    ensures
        r@ == lower_case(c),
        ('A' <= c <= 'Z') ==> r@ == seq![((c as u32) + 32) as char],
{
    c.to_lowercase().collect()
}

/// What `char::to_uppercase` yields (one to three characters, by the Unicode case tables).
pub uninterp spec fn upper_of(c: char) -> Seq<char>;

/// std `char::to_uppercase`, collected: a function of the character; an ASCII lower-case
/// letter becomes its upper-case letter and any other ASCII character stays as it is (the
/// mapping of the rest is not restated).
#[verifier::external_body]
fn to_upper(c: char) -> (r: Vec<char>)
    ensures
        r@ == upper_of(c),
        ('a' <= c <= 'z') ==> r@ == seq![((c as u32) - 32) as char],
        (c as u32) < 128 && !('a' <= c <= 'z') ==> r@ == seq![c],
{
    c.to_uppercase().collect()
}

/// The snake-case text of the character at a position (`first` for the first one).
pub open spec fn snake_piece(c: char, first: bool) -> Seq<char> {
    if upper_case(c) {
        (if first { Seq::empty() } else { seq!['_'] }) + lower_case(c)
    } else {
        seq![c]
    }
}

/// `CamelCase` to `snake_case`: every upper-case character is lowered, with a `_` before
/// it unless it comes first.
pub open spec fn snake_text(s: Seq<char>) -> Seq<char>
    decreases s.len(),
{
    if s.len() == 0 {
        Seq::empty()
    } else {
        snake_text(s.drop_last()) + snake_piece(s.last(), s.len() == 1)
    }
}

/// `CamelCase` to `snake_case` (names of generated items).
pub fn to_snake(s: &str) -> (r: String)
    ensures
        r@ == snake_text(s@),
{
    let cs = chars_of(s);
    let mut out: Vec<char> = Vec::new();
    let mut i: usize = 0;
    while i < cs.len()
        invariant
            0 <= i <= cs@.len(),
            out@ == snake_text(cs@.take(i as int)),
        decreases cs@.len() - i,
    {
        let c = cs[i];
        proof {
            assert(cs@.take(i + 1).drop_last() =~= cs@.take(i as int));
            assert(cs@.take(i + 1).last() == c);
        }
        let ghost before = out@;
        if is_upper(c) {
            if i != 0 {
                out.push('_');
            }
            let low = to_lower(c);
            let mut k: usize = 0;
            let ghost mid = out@;
            while k < low.len()
                invariant
                    0 <= k <= low@.len(),
                    out@ == mid + low@.take(k as int),
                decreases low@.len() - k,
            {
                out.push(low[k]);
                proof {
                    assert(low@.take(k + 1) =~= low@.take(k as int).push(low@[k as int]));
                }
                k += 1;
            }
            proof {
                assert(low@.take(low@.len() as int) =~= low@);
                assert(out@ =~= before + snake_piece(c, i == 0));
            }
        } else {
            out.push(c);
            proof {
                assert(out@ =~= before + snake_piece(c, i == 0));
            }
        }
        i += 1;
    }
    proof {
        assert(cs@.take(cs@.len() as int) =~= cs@);
    }
    string_from(&out)
}

/// The seconds per unit of an interval suffix (`s`, `m`, `h`, `d`), or 0.
pub open spec fn unit_seconds(c: char) -> int {
    if c == 's' { 1 } else if c == 'm' { 60 } else if c == 'h' { 3600 } else if c == 'd' { 86400 } else { 0 }
}

/// An interval literal (`30s`, `5m`, `2h`, `1d`; whitespace around it and before the
/// unit allowed) in seconds; `None` for another unit, a number that does not parse, or 0.
pub open spec fn duration_spec(s: Seq<char>) -> Option<int> {
    let t = trim_ws(s);
    if t.len() == 0 || unit_seconds(t.last()) == 0 {
        None
    } else {
        match parse_uint_spec(trim_ws(t.drop_last()), u64::MAX as int) {
            Some(n) => if n == 0 { None } else { Some(n * unit_seconds(t.last())) },
            None => None,
        }
    }
}

/// Parses an interval literal to seconds.  (The product of the number and its unit must
/// fit in `u64`: the generator fails there.)
pub fn parse_duration(s: &str) -> (r: Option<u64>)
    requires
        match duration_spec(s@) {
            Some(v) => v <= u64::MAX,
            None => true,
        },
    ensures
        r is Some <==> duration_spec(s@) is Some,
        r is Some ==> r->0 as int == duration_spec(s@)->0,
{
    let cs = chars_of(s);
    let t = trim_chars(&cs);
    if t.len() == 0 {
        return None;
    }
    let unit = t[t.len() - 1];
    let mult: u64 = if unit == 's' {
        1
    } else if unit == 'm' {
        60
    } else if unit == 'h' {
        3600
    } else if unit == 'd' {
        86400
    } else {
        return None;
    };
    let num = slice_chars(&t, 0, t.len() - 1);
    proof {
        assert(num@ =~= t@.drop_last());
    }
    let nt = trim_chars(&num);
    match parse_u64(&nt) {
        Some(n) => {
            if n == 0 {
                None
            } else {
                proof {
                    assert(n * mult <= u64::MAX);
                }
                Some(n * mult)
            }
        },
        None => None,
    }
}

/// `s` escaped for a double-quoted string in generated GraphQL text (`\` and `"`).
pub fn gql_esc(s: &str) -> (r: String)
    ensures
        r@ == gql_escape_text(s@),
{
    gql_escape(s)
}


/// A `_`-separated piece with its first character upper-cased.
pub open spec fn cap_piece(p: Seq<char>) -> Seq<char> {
    if p.len() == 0 { Seq::empty() } else { upper_of(p[0]) + p.drop_first() }
}

pub open spec fn concat_caps(ps: Seq<Seq<char>>) -> Seq<char>
    decreases ps.len(),
{
    if ps.len() == 0 { Seq::empty() } else { concat_caps(ps.drop_last()) + cap_piece(ps.last()) }
}

/// `snake_case` to `PascalCase`: the `_`-separated pieces, each with its first character
/// upper-cased, joined (empty pieces vanish).
pub open spec fn pascal_text(s: Seq<char>) -> Seq<char> {
    concat_caps(split_all(s, '_'))
}

/// `snake_case` to `PascalCase` (names of generated types).
pub fn to_pascal(s: &str) -> (r: String)
    ensures
        r@ == pascal_text(s@),
{
    let cs = chars_of(s);
    let mut out: Vec<char> = Vec::new();
    let mut at_start = true;
    let mut i: usize = 0;
    proof {
        assert(cs@.take(0) =~= Seq::<char>::empty());
        assert(split_all(Seq::<char>::empty(), '_') == seq![Seq::<char>::empty()]);
        assert(seq![Seq::<char>::empty()].drop_last() =~= Seq::<Seq<char>>::empty());
        assert(concat_caps(Seq::<Seq<char>>::empty()) == Seq::<char>::empty());
        assert(cap_piece(Seq::<char>::empty()) == Seq::<char>::empty());
        assert(seq![Seq::<char>::empty()].last() == Seq::<char>::empty());
        assert(concat_caps(seq![Seq::<char>::empty()]) =~= Seq::<char>::empty());
        assert(out@ == concat_caps(split_all(cs@.take(0), '_')));
    }
    while i < cs.len()
        invariant
            0 <= i <= cs@.len(),
            out@ == concat_caps(split_all(cs@.take(i as int), '_')),
            at_start == (split_all(cs@.take(i as int), '_').last().len() == 0),
        decreases cs@.len() - i,
    {
        let c = cs[i];
        let ghost t = cs@.take(i as int);
        let ghost r = split_all(t, '_');
        proof {
            lemma_split_all_len(t, '_');
            assert(cs@.take(i + 1).drop_last() =~= t);
            assert(cs@.take(i + 1).last() == c);
        }
        if c == '_' {
            proof {
                assert(split_all(cs@.take(i + 1), '_') == r.push(Seq::<char>::empty()));
                assert(r.push(Seq::<char>::empty()).drop_last() =~= r);
                assert(out@ =~= concat_caps(r.push(Seq::<char>::empty())));
            }
            at_start = true;
        } else {
            let ghost n = r.drop_last().push(r.last().push(c));
            proof {
                assert(split_all(cs@.take(i + 1), '_') == n);
                assert(n.drop_last() =~= r.drop_last());
                assert(n.last() == r.last().push(c));
            }
            if at_start {
                let up = to_upper(c);
                let mut k: usize = 0;
                let ghost mid = out@;
                while k < up.len()
                    invariant
                        0 <= k <= up@.len(),
                        out@ == mid + up@.take(k as int),
                    decreases up@.len() - k,
                {
                    out.push(up[k]);
                    proof {
                        assert(up@.take(k + 1) =~= up@.take(k as int).push(up@[k as int]));
                    }
                    k += 1;
                }
                proof {
                    assert(up@.take(up@.len() as int) =~= up@);
                    assert(r.last().push(c) =~= seq![c]);
                    assert(seq![c].drop_first() =~= Seq::<char>::empty());
                    assert(cap_piece(seq![c]) =~= upper_of(c));
                    assert(out@ =~= concat_caps(n));
                }
                at_start = false;
            } else {
                out.push(c);
                proof {
                    let l = r.last();
                    assert(l.push(c).drop_first() =~= l.drop_first().push(c));
                    assert(cap_piece(l.push(c)) =~= cap_piece(l).push(c));
                    assert(out@ =~= concat_caps(n));
                }
            }
        }
        i += 1;
    }
    proof {
        assert(cs@.take(cs@.len() as int) =~= cs@);
    }
    string_from(&out)
}


// ───────────────────────── selection text of the query macros ─────────────────────────

/// An argument of a selected field: a literal rendered when the macro expands (quoted
/// and escaped string, number or boolean), or a Rust expression formatted at run time.
pub enum SelArg {
    Lit(String),
    Var,
}

/// A selected field as the query macros parse it: `alias: name(args) { children }`, or a
/// fragment spread `...Name`.
pub struct Selection {
    pub alias: Option<String>,
    pub name: String,
    pub args: Vec<(String, SelArg)>,
    pub children: Vec<Selection>,
    pub spread: Option<String>,
}

/// `alias: name`, or `name`.
pub open spec fn sel_head_text(s: Selection) -> Seq<char> {
    match s.alias {
        Some(a) => a@ + seq![':', ' '] + s.name@,
        None => s.name@,
    }
}

/// `name: literal` for each literal argument, in order (run-time arguments are skipped).
pub open spec fn lit_parts(args: Seq<(String, SelArg)>) -> Seq<Seq<char>>
    decreases args.len(),
{
    if args.len() == 0 {
        Seq::empty()
    } else {
        lit_parts(args.drop_last()) + match args.last().1 {
            SelArg::Lit(t) => seq![args.last().0@ + seq![':', ' '] + t@],
            SelArg::Var => Seq::empty(),
        }
    }
}

/// `(a: 1, b: "x")` for the literal arguments, nothing when there are none.
pub open spec fn args_text(args: Seq<(String, SelArg)>) -> Seq<char> {
    let ps = lit_parts(args);
    if ps.len() == 0 { Seq::empty() } else { seq!['('] + join(ps, seq![',', ' ']) + seq![')'] }
}

/// The text of each selected field that is not a fragment spread, in order.
pub open spec fn sel_items(sels: Seq<Selection>) -> Seq<Seq<char>>
    decreases sels, 1int,
{
    if sels.len() == 0 {
        Seq::empty()
    } else {
        let prev = sels.subrange(0, sels.len() - 1);
        sel_items(prev) + if sels[sels.len() - 1].spread is Some {
            Seq::<Seq<char>>::empty()
        } else {
            seq![sel_item_text(sels[sels.len() - 1])]
        }
    }
}

/// One selected field: head, literal arguments, and its own selection in braces.
pub open spec fn sel_item_text(s: Selection) -> Seq<char>
    decreases s, 0int,
{
    sel_head_text(s) + args_text(s.args@) + if s.children@.len() == 0 {
        Seq::<char>::empty()
    } else {
        seq![' ', '{', ' '] + selection_text(s.children@) + seq![' ', '}']
    }
}

/// The selection text a query macro writes: `__typename` first (so the normalized
/// cache can key every object), then the fields separated by spaces.
pub open spec fn selection_text(sels: Seq<Selection>) -> Seq<char>
    decreases sels, 2int,
{
    seq!['_', '_', 't', 'y', 'p', 'e', 'n', 'a', 'm', 'e', ' '] + join(sel_items(sels), seq![' '])
}

/// `join` after one more part.
proof fn lemma_join_push(parts: Seq<Seq<char>>, sep: Seq<char>, x: Seq<char>)
    ensures
        join(parts.push(x), sep) == if parts.len() == 0 { x } else { join(parts, sep) + sep + x },
{
    assert(parts.push(x).drop_last() =~= parts);
    assert(parts.push(x).last() == x);
    if parts.len() == 0 {
        assert(parts.push(x)[0] == x);
    }
}

fn push_chars(out: &mut Vec<char>, v: &Vec<char>)
    ensures
        final(out)@ == old(out)@ + v@,
{
    let mut k: usize = 0;
    while k < v.len()
        invariant
            0 <= k <= v@.len(),
            out@ == old(out)@ + v@.take(k as int),
        decreases v@.len() - k,
    {
        out.push(v[k]);
        proof {
            assert(v@.take(k + 1) =~= v@.take(k as int).push(v@[k as int]));
        }
        k += 1;
    }
    proof {
        assert(v@.take(v@.len() as int) =~= v@);
    }
}

fn push_args_text(out: &mut Vec<char>, args: &Vec<(String, SelArg)>)
    ensures
        final(out)@ == old(out)@ + args_text(args@),
{
    let ghost start = out@;
    let mut any = false;
    let mut i: usize = 0;
    proof {
        assert(args@.take(0) =~= Seq::<(String, SelArg)>::empty());
    }
    while i < args.len()
        invariant
            0 <= i <= args@.len(),
            any == (lit_parts(args@.take(i as int)).len() > 0),
            out@ == start + if any { seq!['('] + join(lit_parts(args@.take(i as int)), seq![',', ' ']) } else { Seq::empty() },
        decreases args@.len() - i,
    {
        let ghost ps = lit_parts(args@.take(i as int));
        proof {
            assert(args@.take(i + 1).drop_last() =~= args@.take(i as int));
            assert(args@.take(i + 1).last() == args@[i as int]);
        }
        match &args[i].1 {
            SelArg::Lit(t) => {
                let ghost part = args@[i as int].0@ + seq![':', ' '] + t@;
                proof {
                    assert(lit_parts(args@.take(i + 1)) =~= ps.push(part));
                    lemma_join_push(ps, seq![',', ' '], part);
                }
                if any {
                    out.push(',');
                    out.push(' ');
                } else {
                    out.push('(');
                }
                append_str(out, args[i].0.as_str());
                out.push(':');
                out.push(' ');
                append_str(out, t.as_str());
                proof {
                    assert(out@ =~= start + (seq!['('] + join(ps.push(part), seq![',', ' '])));
                }
                any = true;
            },
            SelArg::Var => {
                proof {
                    assert(lit_parts(args@.take(i + 1)) =~= ps);
                }
            },
        }
        i += 1;
    }
    proof {
        assert(args@.take(args@.len() as int) =~= args@);
    }
    if any {
        out.push(')');
    }
    proof {
        assert(out@ =~= start + args_text(args@));
    }
}

fn push_sel_item(out: &mut Vec<char>, s: &Selection)
    ensures
        final(out)@ == old(out)@ + sel_item_text(*s),
    decreases s, 0int,
{
    let ghost start = out@;
    match &s.alias {
        Some(a) => {
            append_str(out, a.as_str());
            out.push(':');
            out.push(' ');
        },
        None => {},
    }
    append_str(out, s.name.as_str());
    proof {
        assert(out@ =~= start + sel_head_text(*s));
    }
    push_args_text(out, &s.args);
    if s.children.len() > 0 {
        out.push(' ');
        out.push('{');
        out.push(' ');
        proof {
            assert(decreases_to!(*s => s.children));
            assert(decreases_to!(s.children => s.children@));
        }
        push_selection_text(out, &s.children);
        out.push(' ');
        out.push('}');
    }
    proof {
        assert(out@ =~= start + sel_item_text(*s));
    }
}

fn push_selection_text(out: &mut Vec<char>, sels: &Vec<Selection>)
    ensures
        final(out)@ == old(out)@ + selection_text(sels@),
    decreases sels@, 2int,
{
    let ghost start = out@;
    append_str(out, "__typename ");
    proof {
        reveal_strlit("__typename ");
        assert(out@ =~= start + seq!['_', '_', 't', 'y', 'p', 'e', 'n', 'a', 'm', 'e', ' ']);
    }
    let ghost head = out@;
    let mut any = false;
    let mut i: usize = 0;
    proof {
        assert(sels@.subrange(0, 0) =~= Seq::<Selection>::empty());
    }
    while i < sels.len()
        invariant
            0 <= i <= sels@.len(),
            any == (sel_items(sels@.subrange(0, i as int)).len() > 0),
            out@ == head + join(sel_items(sels@.subrange(0, i as int)), seq![' ']),
        decreases sels@.len() - i,
    {
        let ghost pre = sels@.subrange(0, i as int);
        let ghost items = sel_items(pre);
        let ghost next = sels@.subrange(0, i + 1);
        proof {
            assert(next.subrange(0, next.len() - 1) =~= pre);
            assert(next[next.len() - 1] == sels@[i as int]);
        }
        if sels[i].spread.is_none() {
            proof {
                assert(sel_items(next) =~= items.push(sel_item_text(sels@[i as int])));
                lemma_join_push(items, seq![' '], sel_item_text(sels@[i as int]));
                assert(decreases_to!(sels@ => sels@[i as int]));
            }
            if any {
                out.push(' ');
            }
            push_sel_item(out, &sels[i]);
            proof {
                assert(out@ =~= head + join(sel_items(next), seq![' ']));
            }
            any = true;
        } else {
            proof {
                assert(sel_items(next) =~= items);
            }
        }
        i += 1;
    }
    proof {
        assert(sels@.subrange(0, sels@.len() as int) =~= sels@);
    }
}

/// The selection text a query macro embeds for a selection (see [`selection_text`]).
pub fn sel_to_string(sels: &Vec<Selection>) -> (r: String)
    ensures
        r@ == selection_text(sels@),
{
    let mut out: Vec<char> = Vec::new();
    push_selection_text(&mut out, sels);
    proof {
        assert(out@ =~= selection_text(sels@));
    }
    string_from(&out)
}

} // verus!
