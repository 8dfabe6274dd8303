//! The command line's decisions: the package name a manifest declares, whether a new
//! project's name can be used, and the files a new project starts with.  Running cargo
//! and the style compiler, the file system and the process are the host program's part.
use vstd::prelude::*;
use crate::text::{chars_of, string_from};
use crate::runtime::{split_all, split_all_exec, rows_of, first_index, find_char, slice_chars};
use crate::server::{trim_ws, trim_chars};

verus! {

/// `s` without its leading `c`s (`str::trim_start_matches`).
pub open spec fn strip_leading(s: Seq<char>, c: char) -> Seq<char>
    decreases s.len(),
{
    if s.len() > 0 && s[0] == c { strip_leading(s.drop_first(), c) } else { s }
}

/// `s` without its trailing `c`s (`str::trim_end_matches`).
pub open spec fn strip_trailing(s: Seq<char>, c: char) -> Seq<char>
    decreases s.len(),
{
    if s.len() > 0 && s.last() == c { strip_trailing(s.drop_last(), c) } else { s }
}

pub open spec fn is_quote(c: char) -> bool {
    c == '"' || c == '\''
}

pub open spec fn unquote_front(s: Seq<char>) -> Seq<char>
    decreases s.len(),
{
    if s.len() > 0 && is_quote(s[0]) { unquote_front(s.drop_first()) } else { s }
}

pub open spec fn unquote_back(s: Seq<char>) -> Seq<char>
    decreases s.len(),
{
    if s.len() > 0 && is_quote(s.last()) { unquote_back(s.drop_last()) } else { s }
}

/// `s` without the quotes around it (any number of `"` and `'` at either end).
pub open spec fn unquote(s: Seq<char>) -> Seq<char> {
    unquote_back(unquote_front(s))
}

/// `s` with every `-` made `_` (a package name as a crate identifier).
pub open spec fn underscored(s: Seq<char>) -> Seq<char> {
    Seq::new(s.len(), |i: int| if s[i] == '-' { '_' } else { s[i] })
}

/// The name inside a section header line (brackets and the blanks inside them dropped).
pub open spec fn section_name(l: Seq<char>) -> Seq<char> {
    trim_ws(strip_trailing(strip_leading(l, '['), ']'))
}

/// The text before the first `=` of a line.
pub open spec fn key_part(l: Seq<char>) -> Seq<char> {
    l.take(first_index(l, '='))
}

/// The text after the first `=` of a line.
pub open spec fn value_part(l: Seq<char>) -> Seq<char> {
    l.skip(first_index(l, '=') + 1)
}

/// The package name declared by the remaining manifest lines: the first `name = ...`
/// line (trimmed, quotes dropped, `-` made `_`) met while inside the `[package]` section.
pub open spec fn declared_name(lines: Seq<Seq<char>>, in_package: bool) -> Option<Seq<char>>
    decreases lines.len(),
{
    if lines.len() == 0 {
        None
    } else {
        let l = trim_ws(lines[0]);
        if l.len() > 0 && l[0] == '[' {
            declared_name(lines.drop_first(), section_name(l) == seq!['p', 'a', 'c', 'k', 'a', 'g', 'e'])
        } else if in_package && first_index(l, '=') >= 0 && trim_ws(key_part(l)) == seq!['n', 'a', 'm', 'e'] {
            Some(underscored(unquote(trim_ws(value_part(l)))))
        } else {
            declared_name(lines.drop_first(), in_package)
        }
    }
}

/// The package name a manifest declares, as a crate identifier.  Lines are cut at `\n`;
/// `str::lines` differs only in dropping a final empty line and a line's trailing `\r`,
/// which trimming each line makes no difference to.
pub open spec fn manifest_package_name(toml: Seq<char>) -> Option<Seq<char>> {
    declared_name(split_all(toml, '\n'), false)
}

fn same_chars(a: &Vec<char>, b: &Vec<char>) -> (r: bool)
    ensures
        r == (a@ == b@),
{
    if a.len() != b.len() {
        return false;
    }
    let mut i: usize = 0;
    while i < a.len()
        invariant
            0 <= i <= a@.len(),
            a@.len() == b@.len(),
            forall|j: int| 0 <= j < i ==> a@[j] == b@[j],
        decreases a@.len() - i,
    {
        if a[i] != b[i] {
            return false;
        }
        i += 1;
    }
    proof {
        assert(a@ =~= b@);
    }
    true
}

fn strip_leading_exec(s: &Vec<char>, c: char) -> (r: Vec<char>)
    ensures
        r@ == strip_leading(s@, c),
{
    let mut a: usize = 0;
    proof {
        assert(s@.skip(0) =~= s@);
    }
    while a < s.len() && s[a] == c
        invariant
            0 <= a <= s@.len(),
            strip_leading(s@.skip(a as int), c) == strip_leading(s@, c),
        decreases s@.len() - a,
    {
        proof {
            assert(s@.skip(a as int).drop_first() =~= s@.skip(a + 1));
        }
        a += 1;
    }
    proof {
        assert(s@.subrange(a as int, s@.len() as int) =~= s@.skip(a as int));
    }
    slice_chars(s, a, s.len())
}

fn strip_trailing_exec(s: &Vec<char>, c: char) -> (r: Vec<char>)
    ensures
        r@ == strip_trailing(s@, c),
{
    let mut b: usize = s.len();
    proof {
        assert(s@.take(s@.len() as int) =~= s@);
    }
    while b > 0 && s[b - 1] == c
        invariant
            0 <= b <= s@.len(),
            strip_trailing(s@.take(b as int), c) == strip_trailing(s@, c),
        decreases b,
    {
        proof {
            assert(s@.take(b as int).drop_last() =~= s@.take(b - 1));
        }
        b -= 1;
    }
    proof {
        assert(s@.subrange(0, b as int) =~= s@.take(b as int));
    }
    slice_chars(s, 0, b)
}

fn unquote_exec(s: &Vec<char>) -> (r: Vec<char>)
    ensures
        r@ == unquote(s@),
{
    let mut a: usize = 0;
    proof {
        assert(s@.skip(0) =~= s@);
    }
    while a < s.len() && (s[a] == '"' || s[a] == '\'')
        invariant
            0 <= a <= s@.len(),
            unquote_front(s@.skip(a as int)) == unquote_front(s@),
        decreases s@.len() - a,
    {
        proof {
            assert(s@.skip(a as int).drop_first() =~= s@.skip(a + 1));
        }
        a += 1;
    }
    let mut b: usize = s.len();
    let ghost f = s@.skip(a as int);
    proof {
        assert(f.take(f.len() as int) =~= f);
    }
    while b > a && (s[b - 1] == '"' || s[b - 1] == '\'')
        invariant
            a <= b <= s@.len(),
            f == s@.skip(a as int),
            unquote_back(f.take(b - a)) == unquote_back(f),
        decreases b,
    {
        proof {
            assert(f.take(b - a).drop_last() =~= f.take(b - 1 - a));
        }
        b -= 1;
    }
    proof {
        assert(s@.subrange(a as int, b as int) =~= f.take(b - a));
    }
    slice_chars(s, a, b)
}

fn underscored_exec(s: &Vec<char>) -> (r: Vec<char>)
    ensures
        r@ == underscored(s@),
{
    let mut r: Vec<char> = Vec::new();
    let mut i: usize = 0;
    while i < s.len()
        invariant
            0 <= i <= s@.len(),
            r@ == underscored(s@).take(i as int),
        decreases s@.len() - i,
    {
        r.push(if s[i] == '-' { '_' } else { s[i] });
        proof {
            assert(r@ =~= underscored(s@).take(i + 1));
        }
        i += 1;
    }
    proof {
        assert(underscored(s@).take(s@.len() as int) =~= underscored(s@));
    }
    r
}

/// The package name `Cargo.toml` text declares in its `[package]` section, with `-` made
/// `_` (the name of the built artifact); `None` when it declares none.
pub fn package_name(toml: &str) -> (r: Option<String>)
    ensures
        r is Some <==> manifest_package_name(toml@) is Some,
        r is Some ==> r->0@ == manifest_package_name(toml@)->0,
{
    let cs = chars_of(toml);
    let lines = split_all_exec(&cs, '\n');
    let ghost rows = rows_of(lines@);
    let package: Vec<char> = chars_of("package");
    let name: Vec<char> = chars_of("name");
    proof {
        reveal_strlit("package");
        reveal_strlit("name");
        assert(package@ =~= seq!['p', 'a', 'c', 'k', 'a', 'g', 'e']);
        assert(name@ =~= seq!['n', 'a', 'm', 'e']);
        assert(rows.skip(0) =~= rows);
    }
    let mut in_package = false;
    let mut i: usize = 0;
    while i < lines.len()
        invariant
            0 <= i <= lines@.len(),
            rows == rows_of(lines@),
            rows == split_all(cs@, '\n'),
            cs@ == toml@,
            package@ == seq!['p', 'a', 'c', 'k', 'a', 'g', 'e'],
            name@ == seq!['n', 'a', 'm', 'e'],
            declared_name(rows.skip(i as int), in_package) == declared_name(rows, false),
        decreases lines@.len() - i,
    {
        let ghost rest = rows.skip(i as int);
        proof {
            assert(rest[0] == lines@[i as int]@);
            assert(rest.drop_first() =~= rows.skip(i + 1));
        }
        let l = trim_chars(&lines[i]);
        if l.len() > 0 && l[0] == '[' {
            let inner = strip_trailing_exec(&strip_leading_exec(&l, '['), ']');
            let sec = trim_chars(&inner);
            in_package = same_chars(&sec, &package);
        } else if in_package {
            match find_char(&l, '=') {
                Some(p) => {
                    let k = trim_chars(&slice_chars(&l, 0, p));
                    if same_chars(&k, &name) {
                        let v = trim_chars(&slice_chars(&l, p + 1, l.len()));
                        let u = underscored_exec(&unquote_exec(&v));
                        proof {
                            assert(l@.subrange(0, p as int) =~= key_part(l@));
                            assert(l@.subrange(p + 1, l@.len() as int) =~= value_part(l@));
                        }
                        return Some(string_from(&u));
                    }
                    proof {
                        assert(l@.subrange(0, p as int) =~= key_part(l@));
                    }
                },
                None => {},
            }
        }
        i += 1;
    }
    proof {
        assert(rows.skip(i as int).len() == 0);
    }
    None
}

// ───────────────────────────── new projects ─────────────────────────────

pub open spec fn is_ascii_alpha(c: char) -> bool {
    ('a' <= c <= 'z') || ('A' <= c <= 'Z')
}

/// A character a project name may hold: an ASCII letter or digit, `-` or `_`.
pub open spec fn is_name_char(c: char) -> bool {
    is_ascii_alpha(c) || ('0' <= c <= '9') || c == '-' || c == '_'
}

/// A usable project name: it starts with a letter or `_`, holds only letters, digits,
/// `-` and `_`, and is not `_` as a crate identifier (a bare `_` cannot name a crate).
pub open spec fn valid_project_name_spec(name: Seq<char>) -> bool {
    &&& name.len() > 0
    &&& is_ascii_alpha(name[0]) || name[0] == '_'
    &&& forall|i: int| 0 <= i < name.len() ==> is_name_char(#[trigger] name[i])
    &&& underscored(name) != seq!['_']
}

/// Whether `name` can name a new project (see [`valid_project_name_spec`]).
pub fn valid_project_name(name: &str) -> (r: bool)
    ensures
        r == valid_project_name_spec(name@),
{
    let cs = chars_of(name);
    if cs.len() == 0 {
        return false;
    }
    let c0 = cs[0];
    if !(('a' <= c0 && c0 <= 'z') || ('A' <= c0 && c0 <= 'Z') || c0 == '_') {
        return false;
    }
    let mut i: usize = 0;
    while i < cs.len()
        invariant
            0 <= i <= cs@.len(),
            cs@ == name@,
            forall|j: int| 0 <= j < i ==> is_name_char(#[trigger] cs@[j]),
        decreases cs@.len() - i,
    {
        let c = cs[i];
        if !(('a' <= c && c <= 'z') || ('A' <= c && c <= 'Z') || ('0' <= c && c <= '9') || c == '-' || c == '_') {
            return false;
        }
        i += 1;
    }
    let u = underscored_exec(&cs);
    let lone = u.len() == 1 && u[0] == '_';
    proof {
        if lone {
            assert(u@ =~= seq!['_']);
        }
    }
    !lone
}

/// `name` as a crate identifier: every `-` made `_`.
pub fn crate_ident(name: &str) -> (r: String)
    ensures
        r@ == underscored(name@),
{
    let cs = chars_of(name);
    string_from(&underscored_exec(&cs))
}

/// `str::replace` for a non-empty pattern: the matches of `p`, taken left to right
/// without overlapping, each replaced by `r`.
pub open spec fn replace_all(s: Seq<char>, p: Seq<char>, r: Seq<char>) -> Seq<char>
    decreases s.len(),
{
    if s.len() == 0 {
        Seq::empty()
    } else if 0 < p.len() <= s.len() && s.take(p.len() as int) == p {
        r + replace_all(s.skip(p.len() as int), p, r)
    } else {
        seq![s[0]] + replace_all(s.drop_first(), p, r)
    }
}

fn starts_at(s: &Vec<char>, i: usize, p: &Vec<char>) -> (r: bool)
    requires
        i <= s@.len(),
    ensures
        r == (p@.len() <= s@.len() - i && s@.skip(i as int).take(p@.len() as int) == p@),
{
    let n = s.len();
    if p.len() > n - i {
        return false;
    }
    let mut k: usize = 0;
    while k < p.len()
        invariant
            0 <= k <= p@.len(),
            n == s@.len(),
            i <= s@.len(),
            p@.len() <= s@.len() - i,
            forall|j: int| 0 <= j < k ==> s@[i + j] == p@[j],
        decreases p@.len() - k,
    {
        if s[i + k] != p[k] {
            proof {
                assert(s@.skip(i as int).take(p@.len() as int)[k as int] == s@[i + k]);
            }
            return false;
        }
        k += 1;
    }
    proof {
        assert(s@.skip(i as int).take(p@.len() as int) =~= p@);
    }
    true
}

/// Every occurrence of `key` in `text` replaced by `value` (left to right, not overlapping).
pub fn fill(text: &str, key: &str, value: &str) -> (r: String)
    requires
        key@.len() > 0,
    ensures
        r@ == replace_all(text@, key@, value@),
{
    let s = chars_of(text);
    let p = chars_of(key);
    let v = chars_of(value);
    let mut out: Vec<char> = Vec::new();
    let mut i: usize = 0;
    proof {
        assert(s@.skip(0) =~= s@);
    }
    while i < s.len()
        invariant
            0 <= i <= s@.len(),
            s@ == text@,
            p@ == key@,
            v@ == value@,
            p@.len() > 0,
            out@ + replace_all(s@.skip(i as int), p@, v@) == replace_all(s@, p@, v@),
        decreases s@.len() - i,
    {
        let ghost rest = s@.skip(i as int);
        if starts_at(&s, i, &p) {
            proof {
                assert(rest.skip(p@.len() as int) =~= s@.skip(i + p@.len()));
                assert(out@ + v@ + replace_all(rest.skip(p@.len() as int), p@, v@)
                    =~= out@ + (v@ + replace_all(rest.skip(p@.len() as int), p@, v@)));
            }
            let mut k: usize = 0;
            let ghost before = out@;
            while k < v.len()
                invariant
                    0 <= k <= v@.len(),
                    out@ == before + v@.take(k as int),
                decreases v@.len() - k,
            {
                out.push(v[k]);
                proof {
                    assert(v@.take(k + 1) =~= v@.take(k as int).push(v@[k as int]));
                }
                k += 1;
            }
            proof {
                assert(v@.take(v@.len() as int) =~= v@);
            }
            i += p.len();
        } else {
            proof {
                assert(rest[0] == s@[i as int]);
                assert(rest.drop_first() =~= s@.skip(i + 1));
                assert(out@.push(s@[i as int]) + replace_all(rest.drop_first(), p@, v@)
                    =~= out@ + (seq![s@[i as int]] + replace_all(rest.drop_first(), p@, v@)));
            }
            out.push(s[i]);
            i += 1;
        }
    }
    string_from(&out)
}


/// The templates a new project is made from.
pub struct ProjectTemplates {
    pub cargo: String,
    pub tailwind: String,
    pub lib: String,
    pub ssr: String,
    pub data_mod: String,
    pub api_mod: String,
    pub view_mod: String,
}

/// The files of a new project named `name`, as (path inside the project, content): the
/// manifest gets the name and the framework's path, the server binary the crate
/// identifier; the other templates are copied as they are.
pub open spec fn project_files_spec(name: Seq<char>, rui: Seq<char>, t: ProjectTemplates) -> Seq<(Seq<char>, Seq<char>)> {
    seq![
        ("Cargo.toml"@, replace_all(replace_all(t.cargo@, "{NAME}"@, name), "{RUI}"@, rui)),
        ("tailwind.css"@, t.tailwind@),
        ("src/lib.rs"@, t.lib@),
        ("src/bin/ssr.rs"@, replace_all(t.ssr@, "{NAME}"@, underscored(name))),
        ("src/data/mod.rs"@, t.data_mod@),
        ("src/api/mod.rs"@, t.api_mod@),
        ("src/view/mod.rs"@, t.view_mod@),
    ]
}

/// The files a new project starts with (see [`project_files_spec`]).
pub fn project_files(name: &str, rui: &str, t: &ProjectTemplates) -> (r: Vec<(String, String)>)
    ensures
        r@.len() == 7,
        forall|i: int| 0 <= i < 7 ==> (#[trigger] r@[i]).0@ == project_files_spec(name@, rui@, *t)[i].0
            && r@[i].1@ == project_files_spec(name@, rui@, *t)[i].1,
{
    proof {
        reveal_strlit("{NAME}");
        reveal_strlit("{RUI}");
    }
    let ident = crate_ident(name);
    let cargo = fill(fill(t.cargo.as_str(), "{NAME}", name).as_str(), "{RUI}", rui);
    let ssr = fill(t.ssr.as_str(), "{NAME}", ident.as_str());
    let mut r: Vec<(String, String)> = Vec::new();
    r.push(("Cargo.toml".to_owned(), cargo));
    r.push(("tailwind.css".to_owned(), t.tailwind.clone()));
    r.push(("src/lib.rs".to_owned(), t.lib.clone()));
    r.push(("src/bin/ssr.rs".to_owned(), ssr));
    r.push(("src/data/mod.rs".to_owned(), t.data_mod.clone()));
    r.push(("src/api/mod.rs".to_owned(), t.api_mod.clone()));
    r.push(("src/view/mod.rs".to_owned(), t.view_mod.clone()));
    r
}

} // verus!
