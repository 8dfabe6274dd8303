//! Server side of the framework: host configuration (entry routes, body limit), the HTML
//! shell every page is rendered into, and the request-level decisions of the HTTP front
//! (which entry a request goes to, body length, `/graphql` answers).  Sockets, threads
//! and files are the host program's part.
use vstd::prelude::*;
use vstd::utf8::{encode_utf8, decode_utf8, valid_utf8};
use crate::text::{append_str, chars_of, string_from};
use crate::gql::{gql_escape, gql_escape_text};
use crate::runtime::{utf8_lossy, string_from_utf8_lossy, split_all, split_all_exec, first_index, before_char,
    after_char, find_char, slice_chars, split_url, parse_uint_spec, parse_u64, digits_value};
use crate::dom::{is_ws, is_whitespace, split_ws, split_whitespace, char_rows};
use crate::runtime::rows_of;
use crate::gql::value::{Value, json_text, slice_bytes};
use crate::gql::parser::{OpKind, read_ops};
use crate::gql::exec::{Args, execute, response_json, outcomes_model, root_fields, resolved_by};
use crate::view::Strategy;

verus! {

// ───────────────────────────── host entry map ─────────────────────────────

/// Every entry of the host: the protocol endpoints (query/mutation, subscription) and the
/// static assets (client glue, wasm, styles) with their paths on disk.  Server routing and
/// the client (through the shell's `window.__rui`) read this one map.
pub struct AssetMap {
    pub graphql_route: String,
    pub subscribe_route: String,
    pub router_js_route: String,
    pub wasm_route: String,
    pub wasm_disk: String,
    pub css_route: String,
    pub css_disk: String,
}

impl Default for AssetMap {
    fn default() -> (r: Self)
        ensures
            r.graphql_route@ == "/graphql"@,
            r.subscribe_route@ == "/graphql/subscribe"@,
            r.router_js_route@ == "/router.js"@,
            r.wasm_route@ == "/app.wasm"@,
            r.wasm_disk@ == "web/app.wasm"@,
            r.css_route@ == "/styles.css"@,
            r.css_disk@ == "web/styles.css"@,
    {
        AssetMap {
            graphql_route: "/graphql".to_owned(),
            subscribe_route: "/graphql/subscribe".to_owned(),
            router_js_route: "/router.js".to_owned(),
            wasm_route: "/app.wasm".to_owned(),
            wasm_disk: "web/app.wasm".to_owned(),
            css_route: "/styles.css".to_owned(),
            css_disk: "web/styles.css".to_owned(),
        }
    }
}

/// What the HTML shell is filled with.
pub struct ShellCtx<'a> {
    /// Server-rendered markup (empty for a client-rendered page).
    pub app_html: &'a str,
    /// The dehydrated query responses (JSON).
    pub data: &'a str,
    pub css_href: &'a str,
    pub router_src: &'a str,
    pub wasm_route: &'a str,
    pub graphql_route: &'a str,
    pub subscribe_route: &'a str,
}

/// `s` with every `</` written `<\/`, so that it cannot close an enclosing `<script>`.
pub open spec fn close_guard(s: Seq<char>) -> Seq<char>
    decreases s.len(),
{
    if s.len() < 2 {
        s
    } else if s[0] == '<' && s[1] == '/' {
        seq!['<', '\\', '/'] + close_guard(s.skip(2))
    } else {
        seq![s[0]] + close_guard(s.skip(1))
    }
}

/// A route as it is written into the inline script: quote-escaped, then `</`-guarded.
pub open spec fn script_text(s: Seq<char>) -> Seq<char> {
    close_guard(gql_escape_text(s))
}

/// The page skeleton of the default shell.
pub open spec fn shell_text(
    app: Seq<char>,
    data: Seq<char>,
    css: Seq<char>,
    router: Seq<char>,
    wasm: Seq<char>,
    graphql: Seq<char>,
    subscribe: Seq<char>,
) -> Seq<char> {
    "<!doctype html><html lang=\"zh\"><head><meta charset=\"utf-8\"><meta name=\"viewport\" content=\"width=device-width, initial-scale=1\"><title>rui</title><style>rui-slot,rui-frag{display:contents}</style><link rel=\"stylesheet\" href=\""@
        + css + "\"></head><body><div id=\"app\">"@ + app
        + "</div><script id=\"__rui_data\" type=\"application/json\">"@ + data + "</script>"@
        + "<script>window.__rui={wasm:\""@ + script_text(wasm) + "\",graphql:\""@ + script_text(graphql)
        + "\",subscribe:\""@ + script_text(subscribe) + "\"}</script>"@
        + "<script type=\"module\" src=\""@ + router + "\"></script></body></html>"@
}

/// Appends `close_guard(s)`.
pub(crate) fn push_guarded(out: &mut Vec<char>, s: &str)
    ensures
        final(out)@ == old(out)@ + close_guard(s@),
{
    let cs = chars_of(s);
    let ghost start = out@;
    let n = cs.len();
    let mut i: usize = 0;
    proof {
        assert(cs@.skip(0) =~= cs@);
    }
    while i < n
        invariant
            0 <= i <= n,
            n == cs@.len(),
            out@ + close_guard(cs@.skip(i as int)) == start + close_guard(cs@),
        decreases n - i,
    {
        let ghost rest = cs@.skip(i as int);
        if i + 1 < n && cs[i] == '<' && cs[i + 1] == '/' {
            out.push('<');
            out.push('\\');
            out.push('/');
            proof {
                assert(rest.skip(2) =~= cs@.skip(i + 2));
                assert(rest[0] == cs@[i as int] && rest[1] == cs@[i + 1]);
                assert(close_guard(rest) == seq!['<', '\\', '/'] + close_guard(cs@.skip(i + 2)));
                assert(out@ + close_guard(cs@.skip(i + 2)) =~= start + close_guard(cs@));
            }
            i += 2;
        } else {
            out.push(cs[i]);
            proof {
                assert(rest.skip(1) =~= cs@.skip(i + 1));
                assert(rest[0] == cs@[i as int]);
                if rest.len() < 2 {
                    assert(rest.skip(1).len() == 0);
                    assert(close_guard(rest.skip(1)) =~= Seq::<char>::empty());
                    assert(close_guard(rest) =~= seq![rest[0]] + close_guard(rest.skip(1)));
                } else {
                    assert(close_guard(rest) == seq![rest[0]] + close_guard(rest.skip(1)));
                }
                assert(out@ + close_guard(cs@.skip(i + 1)) =~= start + close_guard(cs@));
            }
            i += 1;
        }
    }
    proof {
        assert(cs@.skip(n as int) =~= Seq::<char>::empty());
        assert(close_guard(cs@.skip(n as int)) =~= Seq::<char>::empty());
        assert(out@ =~= start + close_guard(s@));
    }
}

/// The default page: the skeleton with the stylesheet, the server-rendered markup, the
/// dehydrated data, `window.__rui` (wasm / graphql / subscribe routes, escaped for the
/// inline script) and the client module.
pub fn default_shell(c: &ShellCtx) -> (r: String)
    ensures
        r@ == shell_text(c.app_html@, c.data@, c.css_href@, c.router_src@, c.wasm_route@, c.graphql_route@,
            c.subscribe_route@),
{
    let mut out: Vec<char> = Vec::new();
    append_str(
        &mut out,
        "<!doctype html><html lang=\"zh\"><head><meta charset=\"utf-8\"><meta name=\"viewport\" content=\"width=device-width, initial-scale=1\"><title>rui</title><style>rui-slot,rui-frag{display:contents}</style><link rel=\"stylesheet\" href=\"",
    );
    append_str(&mut out, c.css_href);
    append_str(&mut out, "\"></head><body><div id=\"app\">");
    append_str(&mut out, c.app_html);
    append_str(&mut out, "</div><script id=\"__rui_data\" type=\"application/json\">");
    append_str(&mut out, c.data);
    append_str(&mut out, "</script>");
    append_str(&mut out, "<script>window.__rui={wasm:\"");
    let w = gql_escape(c.wasm_route);
    push_guarded(&mut out, w.as_str());
    append_str(&mut out, "\",graphql:\"");
    let g = gql_escape(c.graphql_route);
    push_guarded(&mut out, g.as_str());
    append_str(&mut out, "\",subscribe:\"");
    let s = gql_escape(c.subscribe_route);
    push_guarded(&mut out, s.as_str());
    append_str(&mut out, "\"}</script>");
    append_str(&mut out, "<script type=\"module\" src=\"");
    append_str(&mut out, c.router_src);
    append_str(&mut out, "\"></script></body></html>");
    proof {
        assert(out@ =~= shell_text(c.app_html@, c.data@, c.css_href@, c.router_src@, c.wasm_route@,
            c.graphql_route@, c.subscribe_route@));
    }
    string_from(&out)
}

// ───────────────────────────── host configuration ─────────────────────────────

/// Host configuration: listen address, request body limit, entry map.  (The page shell and
/// the client glue text are chosen by the host program, which renders with
/// [`default_shell`] unless it brings its own.)
pub struct AppConfig {
    pub bind: (String, u16),
    pub body_limit: usize,
    pub assets: AssetMap,
}

impl Default for AppConfig {
    fn default() -> (r: Self)
        ensures
            r.bind.0@ == "127.0.0.1"@,
            r.bind.1 == 8084,
            r.body_limit == 1048576,
            r.assets.graphql_route@ == "/graphql"@,
            r.assets.subscribe_route@ == "/graphql/subscribe"@,
            r.assets.router_js_route@ == "/router.js"@,
            r.assets.wasm_route@ == "/app.wasm"@,
            r.assets.wasm_disk@ == "web/app.wasm"@,
            r.assets.css_route@ == "/styles.css"@,
            r.assets.css_disk@ == "web/styles.css"@,
    {
        let limit: usize = 1 << 20;
        assert(limit == 1048576) by (bit_vector)
            requires
                limit == 1usize << 20usize,
        ;
        AppConfig { bind: ("127.0.0.1".to_owned(), 8084), body_limit: limit, assets: AssetMap::default() }
    }
}

/// The five entry routes, in the order they are checked.
pub open spec fn entry_routes(a: AssetMap) -> Seq<Seq<char>> {
    seq![a.graphql_route@, a.subscribe_route@, a.router_js_route@, a.wasm_route@, a.css_route@]
}

/// The first index from `i` on whose route a later route repeats.
pub open spec fn first_clash(rs: Seq<Seq<char>>, i: int) -> Option<int>
    decreases rs.len() - i,
{
    if i < 0 || i >= rs.len() {
        None
    } else if exists|j: int| i < j < rs.len() && rs[j] == rs[i] {
        Some(i)
    } else {
        first_clash(rs, i + 1)
    }
}

/// The message for a route used by two entries.
pub open spec fn clash_message(route: Seq<char>) -> Seq<char> {
    "rui: AppConfig 入口路由冲突 `"@ + route + "` —— graphql · subscribe · router_js · wasm · css 须各异"@
}

fn same(a: &str, b: &str) -> (r: bool)
    ensures
        r == (a@ == b@),
{
    a.to_owned() == b.to_owned()
}

/// Installs the host configuration once.  The five entry routes must all differ: a
/// repeated route is refused with a message naming it (both backends would otherwise
/// disagree on which entry wins), and the slot is left as it was.  A configuration that
/// is already installed stays.
pub fn set_config(slot: &mut Option<AppConfig>, cfg: AppConfig) -> (r: Result<(), String>)
    ensures
        (r is Err) == (first_clash(entry_routes(cfg.assets), 0) is Some),
        r is Err ==> r->Err_0@ == clash_message(entry_routes(cfg.assets)[first_clash(entry_routes(cfg.assets), 0)->0])
            && *final(slot) == *old(slot),
        r is Ok ==> *final(slot) == (if *old(slot) is None { Some(cfg) } else { *old(slot) }),
{
    let ghost rs = entry_routes(cfg.assets);
    let mut routes: Vec<&str> = Vec::new();
    routes.push(cfg.assets.graphql_route.as_str());
    routes.push(cfg.assets.subscribe_route.as_str());
    routes.push(cfg.assets.router_js_route.as_str());
    routes.push(cfg.assets.wasm_route.as_str());
    routes.push(cfg.assets.css_route.as_str());
    let mut i: usize = 0;
    while i < 5
        invariant
            0 <= i <= 5,
            routes@.len() == 5,
            rs == entry_routes(cfg.assets),
            rs.len() == 5,
            forall|k: int| 0 <= k < 5 ==> (#[trigger] routes@[k])@ == rs[k],
            first_clash(rs, 0) == first_clash(rs, i as int),
        decreases 5 - i,
    {
        let mut j: usize = i + 1;
        while j < 5
            invariant
                i < 5,
                i + 1 <= j <= 5,
                routes@.len() == 5,
                rs == entry_routes(cfg.assets),
                rs.len() == 5,
                forall|k: int| 0 <= k < 5 ==> (#[trigger] routes@[k])@ == rs[k],
                first_clash(rs, 0) == first_clash(rs, i as int),
                forall|m: int| i < m < j ==> rs[m] != rs[i as int],
            decreases 5 - j,
        {
            if same(routes[i], routes[j]) {
                proof {
                    assert(rs[j as int] == rs[i as int]);
                    assert(first_clash(rs, i as int) == Some(i as int));
                }
                let mut msg: Vec<char> = Vec::new();
                append_str(&mut msg, "rui: AppConfig 入口路由冲突 `");
                append_str(&mut msg, routes[i]);
                append_str(&mut msg, "` —— graphql · subscribe · router_js · wasm · css 须各异");
                proof {
                    assert(msg@ =~= clash_message(rs[i as int]));
                }
                return Err(string_from(&msg));
            }
            j += 1;
        }
        proof {
            assert(!(exists|m: int| i < m < rs.len() && rs[m] == rs[i as int]));
        }
        i += 1;
    }
    if slot.is_none() {
        *slot = Some(cfg);
    }
    Ok(())
}

} // verus!

verus! {

// ───────────────────────────── Content-Length ─────────────────────────────

pub open spec fn trim_start(s: Seq<char>) -> Seq<char>
    decreases s.len(),
{
    if s.len() > 0 && is_ws(s[0]) { trim_start(s.drop_first()) } else { s }
}

pub open spec fn trim_end(s: Seq<char>) -> Seq<char>
    decreases s.len(),
{
    if s.len() > 0 && is_ws(s.last()) { trim_end(s.drop_last()) } else { s }
}

/// `str::trim`: leading and trailing Unicode whitespace removed.
pub open spec fn trim_ws(s: Seq<char>) -> Seq<char> {
    trim_end(trim_start(s))
}

/// The code of `c` with ASCII upper case folded to lower case.
pub open spec fn folded(c: char) -> int {
    if 'A' <= c <= 'Z' { (c as u32) + 32 } else { c as u32 as int }
}

/// `str::eq_ignore_ascii_case`.
pub open spec fn eq_ignore_case(a: Seq<char>, b: Seq<char>) -> bool {
    a.len() == b.len() && forall|i: int| 0 <= i < a.len() ==> folded(#[trigger] a[i]) == folded(b[i])
}

/// `str::parse::<usize>`: an optional `+`, then at least one ASCII digit, the value in range.
pub open spec fn parse_usize_spec(s: Seq<char>) -> Option<usize> {
    match parse_uint_spec(s, usize::MAX as int) {
        Some(v) => Some(v as usize),
        None => None,
    }
}

/// The value of the first `name: value` line whose name is `content-length` (in any
/// ASCII case, around whitespace trimmed); 0 when there is none or it does not parse.
pub open spec fn header_length(lines: Seq<Seq<char>>) -> usize
    decreases lines.len(),
{
    if lines.len() == 0 {
        0
    } else {
        let l = lines[0];
        if first_index(l, ':') >= 0 && eq_ignore_case(trim_ws(before_char(l, ':')), "content-length"@) {
            match parse_usize_spec(trim_ws(after_char(l, ':'))) {
                Some(v) => v,
                None => 0,
            }
        } else {
            header_length(lines.drop_first())
        }
    }
}

/// The declared body length of a header block (lines split at `\n`).
pub open spec fn content_length_text(h: Seq<char>) -> usize {
    header_length(split_all(h, '\n'))
}

pub(crate) fn trim_chars(v: &Vec<char>) -> (r: Vec<char>)
    ensures
        r@ == trim_ws(v@),
{
    let n = v.len();
    let mut a: usize = 0;
    proof {
        assert(v@.skip(0) =~= v@);
    }
    while a < n && is_whitespace(v[a])
        invariant
            0 <= a <= n,
            n == v@.len(),
            trim_start(v@) == trim_start(v@.skip(a as int)),
        decreases n - a,
    {
        proof {
            assert(v@.skip(a as int).drop_first() =~= v@.skip(a + 1));
        }
        a += 1;
    }
    proof {
        assert(trim_start(v@) == v@.skip(a as int));
        assert(v@.skip(a as int) =~= v@.subrange(a as int, n as int));
    }
    let mut b: usize = n;
    while b > a && is_whitespace(v[b - 1])
        invariant
            a <= b <= n,
            n == v@.len(),
            trim_ws(v@) == trim_end(v@.subrange(a as int, b as int)),
        decreases b - a,
    {
        proof {
            assert(v@.subrange(a as int, b as int).drop_last() =~= v@.subrange(a as int, b - 1));
        }
        b -= 1;
    }
    slice_chars(v, a, b)
}

fn lower_code(c: char) -> (r: u32)
    ensures
        r == folded(c),
{
    if 'A' <= c && c <= 'Z' { (c as u32) + 32 } else { c as u32 }
}

fn eq_ignore_case_exec(a: &Vec<char>, b: &Vec<char>) -> (r: bool)
    ensures
        r == eq_ignore_case(a@, b@),
{
    if a.len() != b.len() {
        return false;
    }
    let mut i: usize = 0;
    while i < a.len()
        invariant
            0 <= i <= a@.len(),
            a@.len() == b@.len(),
            forall|k: int| 0 <= k < i ==> folded(#[trigger] a@[k]) == folded(b@[k]),
        decreases a@.len() - i,
    {
        if lower_code(a[i]) != lower_code(b[i]) {
            return false;
        }
        i += 1;
    }
    true
}

/// Parses a decimal `usize` exactly as `str::parse::<usize>` does.
pub fn parse_usize(s: &Vec<char>) -> (r: Option<usize>)
    ensures
        r == parse_usize_spec(s@),
{
    let r = parse_u64(s);
    let ghost body = if s@.len() > 0 && s@[0] == '+' { s@.drop_first() } else { s@ };
    match r {
        Some(v) => {
            proof {
                assert(digits_value(body) == v);
            }
            if v <= usize::MAX as u64 {
                Some(v as usize)
            } else {
                None
            }
        },
        None => {
            proof {
                assert(parse_uint_spec(s@, u64::MAX as int) is None);
                assert(usize::MAX as int <= u64::MAX as int);
            }
            None
        },
    }
}

/// The declared body length of a header block given as text.
pub fn content_length_of(text: &str) -> (n: usize)
    ensures
        n == content_length_text(text@),
{
    let cs = chars_of(text);
    let lines = split_all_exec(&cs, '\n');
    let key = chars_of("content-length");
    let ghost ls = rows_of(lines@);
    let mut i: usize = 0;
    proof {
        assert(ls.skip(0) =~= ls);
    }
    while i < lines.len()
        invariant
            0 <= i <= lines@.len(),
            ls == rows_of(lines@),
            ls == split_all(text@, '\n'),
            key@ == "content-length"@,
            header_length(ls) == header_length(ls.skip(i as int)),
        decreases lines@.len() - i,
    {
        let line = &lines[i];
        proof {
            assert(ls.skip(i as int)[0] == line@);
            assert(ls.skip(i as int).drop_first() =~= ls.skip(i + 1));
        }
        match find_char(line, ':') {
            Some(p) => {
                let k = slice_chars(line, 0, p);
                let v = slice_chars(line, p + 1, line.len());
                proof {
                    assert(k@ =~= before_char(line@, ':'));
                    assert(v@ =~= after_char(line@, ':'));
                }
                let tk = trim_chars(&k);
                if eq_ignore_case_exec(&tk, &key) {
                    let tv = trim_chars(&v);
                    return match parse_usize(&tv) {
                        Some(n) => n,
                        None => 0,
                    };
                }
            },
            None => {},
        }
        i += 1;
    }
    0
}

/// The declared body length of a header block (bytes read as UTF-8, invalid sequences
/// replaced).
pub fn content_length(headers: &[u8]) -> (n: usize)
    ensures
        n == content_length_text(utf8_lossy(headers@)),
        valid_utf8(headers@) ==> n == content_length_text(decode_utf8(headers@)),
{
    let h = string_from_utf8_lossy(headers);
    content_length_of(h.as_str())
}

} // verus!

verus! {

// ───────────────────────────── /graphql answers ─────────────────────────────

/// The response text the executor gives for request text `q` when the resolver's outcomes
/// for its root fields are `outs`.
pub open spec fn executed(q: Seq<char>, outs: Seq<(Value, Vec<String>)>) -> Seq<char> {
    json_text(response_json(q, read_ops(encode_utf8(q), 0, Seq::empty()), outcomes_model(outs)))
}

/// `out` is the executor's response to `q` for outcomes of `resolve`, one per root field,
/// each one that `resolve` may return for that field's kind, name and arguments.
pub open spec fn executes_to<R: Fn(OpKind, &str, &Args) -> (Value, Vec<String>)>(resolve: R, q: Seq<char>, out: Seq<char>) -> bool {
    exists|outs: Seq<(Value, Vec<String>)>|
        #[trigger] outcomes_model(outs).len() == root_fields(read_ops(encode_utf8(q), 0, Seq::empty())).len()
        && resolved_by(resolve, root_fields(read_ops(encode_utf8(q), 0, Seq::empty())), outs)
        && out == executed(q, outs)
}

/// A blank line (`\r\n\r\n`) starts at `p`.
pub open spec fn blank_line_at(b: Seq<u8>, p: int) -> bool {
    0 <= p && p + 4 <= b.len() && b[p] == 13 && b[p + 1] == 10 && b[p + 2] == 13 && b[p + 3] == 10
}

/// Where the first blank line at or after `i` starts (the end of the headers), or -1.
pub open spec fn head_end(b: Seq<u8>, i: int) -> int
    decreases b.len() - i,
{
    if i < 0 || i + 4 > b.len() {
        -1
    } else if blank_line_at(b, i) {
        i
    } else {
        head_end(b, i + 1)
    }
}

pub open spec fn json_type() -> Seq<char> {
    "application/json; charset=utf-8"@
}

pub open spec fn malformed_body() -> Seq<char> {
    "{\"data\":null,\"errors\":[{\"message\":\"malformed request\"}]}"@
}

pub open spec fn too_large_body() -> Seq<char> {
    "{\"data\":null,\"errors\":[{\"message\":\"request body too large\"}]}"@
}

pub open spec fn bad_utf8_body() -> Seq<char> {
    "{\"data\":null,\"errors\":[{\"message\":\"invalid UTF-8 in request body\"}]}"@
}

/// std `str::from_utf8` (as an owned string): `Some` exactly for valid UTF-8, holding its
/// decoding.
#[verifier::external_body]
fn utf8_string(b: &[u8]) -> (r: Option<String>)
    ensures
        r is Some == valid_utf8(b@),
        r is Some ==> r->0@ == decode_utf8(b@),
{
    match std::str::from_utf8(b) {
        Ok(s) => Some(s.to_owned()),
        Err(_) => None,
    }
}

fn find_head_end(b: &[u8]) -> (r: Option<usize>)
    ensures
        match r {
            Some(p) => head_end(b@, 0) == p && p + 4 <= b@.len(),
            None => head_end(b@, 0) == -1,
        },
{
    let n = b.len();
    if n < 4 {
        return None;
    }
    let mut i: usize = 0;
    while i <= n - 4
        invariant
            4 <= n,
            n == b@.len(),
            head_end(b@, 0) == head_end(b@, i as int),
        decreases n - i,
    {
        if b[i] == 13 && b[i + 1] == 10 && b[i + 2] == 13 && b[i + 3] == 10 {
            return Some(i);
        }
        i += 1;
    }
    None
}

/// The answer to a `POST` on the query endpoint, from the raw request: the body is what
/// follows the first blank line (kept whole, blank lines inside it included).  No blank
/// line: 400.  A declared length over the limit: 413.  A body that is not UTF-8: 400.
/// Otherwise 200 with the executor's response.
pub fn graphql_response<R: Fn(OpKind, &str, &Args) -> (Value, Vec<String>)>(
    raw: &[u8],
    body_limit: usize,
    resolve: R,
) -> (r: (&'static str, &'static str, Vec<u8>))
    requires
        raw@.len() + 200 <= usize::MAX,
        raw@.len() <= i64::MAX,
        forall|k: OpKind, n: &str, a: &Args| call_requires(resolve, (k, n, a)),
    ensures
        r.1@ == json_type(),
        ({
            let p = head_end(raw@, 0);
            if p < 0 {
                r.0@ == "400 Bad Request"@ && r.2@ == encode_utf8(malformed_body())
            } else if content_length_text(utf8_lossy(raw@.take(p))) > body_limit {
                r.0@ == "413 Payload Too Large"@ && r.2@ == encode_utf8(too_large_body())
            } else if !valid_utf8(raw@.skip(p + 4)) {
                r.0@ == "400 Bad Request"@ && r.2@ == encode_utf8(bad_utf8_body())
            } else {
                r.0@ == "200 OK"@ && valid_utf8(r.2@) && executes_to(resolve, decode_utf8(raw@.skip(p + 4)), decode_utf8(r.2@))
            }
        }),
{
    let json = "application/json; charset=utf-8";
    let p = match find_head_end(raw) {
        Some(p) => p,
        None => {
            return ("400 Bad Request", json, "{\"data\":null,\"errors\":[{\"message\":\"malformed request\"}]}".as_bytes_vec());
        },
    };
    let head = slice_bytes(raw, 0, p);
    proof {
        assert(head@ =~= raw@.take(p as int));
    }
    if content_length(head.as_slice()) > body_limit {
        return ("413 Payload Too Large", json, "{\"data\":null,\"errors\":[{\"message\":\"request body too large\"}]}".as_bytes_vec());
    }
    let body = slice_bytes(raw, p + 4, raw.len());
    proof {
        assert(body@ =~= raw@.skip(p + 4));
    }
    match utf8_string(body.as_slice()) {
        Some(q) => {
            proof {
                vstd::utf8::decode_utf8_encode_utf8(body@);
            }
            let out = execute(q.as_str(), resolve);
            let bytes = out.as_str().as_bytes_vec();
            proof {
                vstd::utf8::encode_utf8_valid_utf8(out@);
                vstd::utf8::encode_utf8_decode_utf8(out@);
            }
            ("200 OK", json, bytes)
        },
        None => ("400 Bad Request", json, "{\"data\":null,\"errors\":[{\"message\":\"invalid UTF-8 in request body\"}]}".as_bytes_vec()),
    }
}

/// Runs a request with the registered resolver; with none registered (a bare skeleton, a
/// test), the response is an empty envelope.
pub fn local_execute<R: Fn(OpKind, &str, &Args) -> (Value, Vec<String>)>(resolve: Option<R>, req: &str) -> (out: String)
    requires
        encode_utf8(req@).len() + 200 <= usize::MAX,
        encode_utf8(req@).len() <= i64::MAX,
        forall|k: OpKind, n: &str, a: &Args| resolve is Some ==> call_requires(resolve->0, (k, n, a)),
    ensures
        resolve is None ==> out@ == "{\"data\":{},\"errors\":[]}"@,
        resolve is Some ==> executes_to(resolve->0, req@, out@),
{
    match resolve {
        Some(r) => execute(req, r),
        None => "{\"data\":{},\"errors\":[]}".to_owned(),
    }
}

// ───────────────────────────── request head and entry ─────────────────────────────

/// Which entry of the host a request goes to.
#[derive(Clone, Copy, PartialEq, Eq, Debug, Structural)]
pub enum Entry {
    /// The subscription stream.
    Subscribe,
    /// The query endpoint hit with another method than `POST` (405).
    MethodNotAllowed,
    /// A `POST` on the query endpoint.
    Graphql,
    RouterJs,
    Wasm,
    Css,
    /// Anything else is a page.
    Page,
}

/// Routes are matched exactly, in this order: subscription, query endpoint (POST only),
/// client glue, wasm, stylesheet; everything else renders a page.
pub open spec fn entry_for(a: AssetMap, method: Seq<char>, path: Seq<char>) -> Entry {
    if path == a.subscribe_route@ {
        Entry::Subscribe
    } else if path == a.graphql_route@ {
        if method == "POST"@ { Entry::Graphql } else { Entry::MethodNotAllowed }
    } else if path == a.router_js_route@ {
        Entry::RouterJs
    } else if path == a.wasm_route@ {
        Entry::Wasm
    } else if path == a.css_route@ {
        Entry::Css
    } else {
        Entry::Page
    }
}

/// The entry a request with this method and path goes to.
pub fn route_request(assets: &AssetMap, method: &str, path: &str) -> (e: Entry)
    ensures
        e == entry_for(*assets, method@, path@),
{
    if same(path, assets.subscribe_route.as_str()) {
        Entry::Subscribe
    } else if same(path, assets.graphql_route.as_str()) {
        if same(method, "POST") { Entry::Graphql } else { Entry::MethodNotAllowed }
    } else if same(path, assets.router_js_route.as_str()) {
        Entry::RouterJs
    } else if same(path, assets.wasm_route.as_str()) {
        Entry::Wasm
    } else if same(path, assets.css_route.as_str()) {
        Entry::Css
    } else {
        Entry::Page
    }
}

/// The first word of the request (its method), or empty.
pub open spec fn request_method(t: Seq<char>) -> Seq<char> {
    if split_ws(t).len() > 0 { split_ws(t)[0] } else { Seq::empty() }
}

/// The second word of the request (its target), or `/`.
pub open spec fn request_target(t: Seq<char>) -> Seq<char> {
    if split_ws(t).len() > 1 { split_ws(t)[1] } else { "/"@ }
}

/// The pathname of a target: the fragment dropped, cut at the first `?`, `/` when empty.
pub open spec fn target_path(target: Seq<char>) -> Seq<char> {
    let p = before_char(before_char(target, '#'), '?');
    if p.len() == 0 { "/"@ } else { p }
}

/// The query of a target: what follows the first `?` (the fragment dropped).
pub open spec fn target_query(target: Seq<char>) -> Seq<char> {
    after_char(before_char(target, '#'), '?')
}

/// Method, pathname and query of a request given as text.
pub fn request_head_of(text: &str) -> (r: (String, String, String))
    ensures
        r.0@ == request_method(text@),
        r.1@ == target_path(request_target(text@)),
        r.2@ == target_query(request_target(text@)),
{
    let cs = chars_of(text);
    let words = split_whitespace(&cs);
    proof {
        assert(char_rows(words@) == split_ws(text@));
        if words@.len() > 0 {
            assert(char_rows(words@)[0] == words@[0]@);
        }
        if words@.len() > 1 {
            assert(char_rows(words@)[1] == words@[1]@);
        }
    }
    let method = if words.len() > 0 { string_from(&words[0]) } else { String::new() };
    let target = if words.len() > 1 { string_from(&words[1]) } else { "/".to_owned() };
    let (p, q) = split_url(target.as_str());
    let path = if p.as_str().is_empty() { "/".to_owned() } else { p };
    (method, path, q)
}

/// Method, pathname and query of a raw request (read as UTF-8, invalid sequences replaced).
pub fn request_head(raw: &[u8]) -> (r: (String, String, String))
    ensures
        r.0@ == request_method(utf8_lossy(raw@)),
        r.1@ == target_path(request_target(utf8_lossy(raw@))),
        r.2@ == target_query(request_target(utf8_lossy(raw@))),
{
    let text = string_from_utf8_lossy(raw);
    request_head_of(text.as_str())
}

// ───────────────────────────── pages ─────────────────────────────

/// A whole page in the default shell, linked to the configured entries.
pub fn doc(cfg: &AppConfig, app_html: &str, data: &str) -> (r: String)
    ensures
        r@ == shell_text(app_html@, data@, cfg.assets.css_route@, cfg.assets.router_js_route@, cfg.assets.wasm_route@,
            cfg.assets.graphql_route@, cfg.assets.subscribe_route@),
{
    default_shell(
        &ShellCtx {
            app_html,
            data,
            css_href: cfg.assets.css_route.as_str(),
            router_src: cfg.assets.router_js_route.as_str(),
            wasm_route: cfg.assets.wasm_route.as_str(),
            graphql_route: cfg.assets.graphql_route.as_str(),
            subscribe_route: cfg.assets.subscribe_route.as_str(),
        },
    )
}

/// Text made safe inside a `<script>`: every `</` written `<\/`.
pub fn guard_script_text(s: &str) -> (r: String)
    ensures
        r@ == close_guard(s@),
{
    let mut d: Vec<char> = Vec::new();
    push_guarded(&mut d, s);
    string_from(&d)
}

/// A server-rendered page: the rendered markup, and the dehydrated data with `</`
/// guarded so that it cannot close its `<script>`.
pub fn ssr_doc(cfg: &AppConfig, app_html: &str, raw_data: &str) -> (r: String)
    ensures
        r@ == shell_text(app_html@, close_guard(raw_data@), cfg.assets.css_route@, cfg.assets.router_js_route@,
            cfg.assets.wasm_route@, cfg.assets.graphql_route@, cfg.assets.subscribe_route@),
{
    let mut d: Vec<char> = Vec::new();
    push_guarded(&mut d, raw_data);
    let data = string_from(&d);
    doc(cfg, app_html, data.as_str())
}

} // verus!

verus! {

// ───────────────────────────── static page cache key ─────────────────────────────

/// `a` sorts before or with `b`: lexicographic by code point (the order of `str`).
pub open spec fn code_le(a: Seq<char>, b: Seq<char>) -> bool
    decreases a.len(),
{
    if a.len() == 0 {
        true
    } else if b.len() == 0 {
        false
    } else if (a[0] as u32) != (b[0] as u32) {
        (a[0] as u32) < (b[0] as u32)
    } else {
        code_le(a.drop_first(), b.drop_first())
    }
}

pub open spec fn sorted_text(s: Seq<Seq<char>>) -> bool {
    forall|i: int, j: int| 0 <= i < j < s.len() ==> code_le(#[trigger] s[i], #[trigger] s[j])
}

/// The non-empty pieces, in order.
pub open spec fn nonempty(ps: Seq<Seq<char>>) -> Seq<Seq<char>>
    decreases ps.len(),
{
    if ps.len() == 0 {
        Seq::empty()
    } else {
        nonempty(ps.drop_last()) + (if ps.last().len() > 0 { seq![ps.last()] } else { Seq::empty() })
    }
}

/// The cache key of a static page: the path, and when there is a query, `?` and its
/// non-empty `&`-pieces sorted and rejoined (so parameter order does not matter).
pub open spec fn cache_key_ok(path: Seq<char>, query: Seq<char>, key: Seq<char>) -> bool {
    if query.len() == 0 {
        key == path
    } else {
        exists|ps: Seq<Seq<char>>|
            sorted_text(ps) && #[trigger] ps.to_multiset() == nonempty(split_all(query, '&')).to_multiset()
            && key == path + "?"@ + crate::gql::value::join(ps, "&"@)
    }
}

proof fn lemma_code_le_total(a: Seq<char>, b: Seq<char>)
    ensures
        code_le(a, b) || code_le(b, a),
    decreases a.len(),
{
    if a.len() > 0 && b.len() > 0 && (a[0] as u32) == (b[0] as u32) {
        lemma_code_le_total(a.drop_first(), b.drop_first());
    }
}

proof fn lemma_code_le_trans(a: Seq<char>, b: Seq<char>, c: Seq<char>)
    requires
        code_le(a, b),
        code_le(b, c),
    ensures
        code_le(a, c),
    decreases a.len(),
{
    if a.len() > 0 && b.len() > 0 && c.len() > 0 && (a[0] as u32) == (b[0] as u32) && (b[0] as u32) == (c[0] as u32) {
        lemma_code_le_trans(a.drop_first(), b.drop_first(), c.drop_first());
    }
}

proof fn lemma_code_le_antisym(a: Seq<char>, b: Seq<char>)
    requires
        code_le(a, b),
        code_le(b, a),
    ensures
        a == b,
    decreases a.len(),
{
    if a.len() == 0 {
        assert(b.len() == 0);
        assert(a =~= b);
    } else {
        assert(b.len() > 0);
        assert((a[0] as u32) == (b[0] as u32));
        vstd::utf8::char_u32_cast(b[0], a[0] as u32);
        vstd::utf8::char_u32_cast(a[0], a[0] as u32);
        assert(a[0] == b[0]);
        lemma_code_le_antisym(a.drop_first(), b.drop_first());
        assert(a =~= seq![a[0]] + a.drop_first());
        assert(b =~= seq![b[0]] + b.drop_first());
    }
}

proof fn lemma_code_le_refl(a: Seq<char>)
    ensures
        code_le(a, a),
    decreases a.len(),
{
    if a.len() > 0 {
        lemma_code_le_refl(a.drop_first());
    }
}

/// Two sorted sequences with the same elements (repeats counted) are the same.
proof fn lemma_sorted_unique(a: Seq<Seq<char>>, b: Seq<Seq<char>>)
    requires
        sorted_text(a),
        sorted_text(b),
        a.to_multiset() == b.to_multiset(),
    ensures
        a == b,
    decreases a.len(),
{
    broadcast use vstd::seq_lib::group_to_multiset_ensures;
    assert(a.len() == a.to_multiset().len());
    assert(b.len() == b.to_multiset().len());
    if a.len() == 0 {
        assert(a =~= b);
    } else {
        assert(b.contains(b[0]));
        assert(b.to_multiset().count(b[0]) > 0);
        assert(a.contains(b[0]));
        let i = choose|i: int| 0 <= i < a.len() && a[i] == b[0];
        assert(a.contains(a[0]));
        assert(a.to_multiset().count(a[0]) > 0);
        assert(b.contains(a[0]));
        let j = choose|j: int| 0 <= j < b.len() && b[j] == a[0];
        lemma_code_le_refl(a[0]);
        lemma_code_le_refl(b[0]);
        if i > 0 {
            assert(code_le(a[0], a[i]));
        }
        if j > 0 {
            assert(code_le(b[0], b[j]));
        }
        lemma_code_le_antisym(a[0], b[0]);
        assert(a.remove(0) =~= a.drop_first());
        assert(b.remove(0) =~= b.drop_first());
        assert(a.remove(0).to_multiset() == a.to_multiset().remove(a[0]));
        assert(b.remove(0).to_multiset() == b.to_multiset().remove(b[0]));
        assert(sorted_text(a.drop_first())) by {
            assert forall|x: int, y: int| 0 <= x < y < a.drop_first().len() implies
                code_le(#[trigger] a.drop_first()[x], #[trigger] a.drop_first()[y]) by {
                assert(a.drop_first()[x] == a[x + 1] && a.drop_first()[y] == a[y + 1]);
            }
        }
        assert(sorted_text(b.drop_first())) by {
            assert forall|x: int, y: int| 0 <= x < y < b.drop_first().len() implies
                code_le(#[trigger] b.drop_first()[x], #[trigger] b.drop_first()[y]) by {
                assert(b.drop_first()[x] == b[x + 1] && b.drop_first()[y] == b[y + 1]);
            }
        }
        lemma_sorted_unique(a.drop_first(), b.drop_first());
        assert(a =~= seq![a[0]] + a.drop_first());
        assert(b =~= seq![b[0]] + b.drop_first());
    }
}

/// The cache key of a static page does not depend on the order of its query's
/// parameters: two non-empty queries with the same non-empty `&`-pieces, in any order and
/// with repeats counted, give the same key.
pub proof fn law_cache_key_order_free(path: Seq<char>, q1: Seq<char>, q2: Seq<char>, k1: Seq<char>, k2: Seq<char>)
    requires
        q1.len() > 0,
        q2.len() > 0,
        nonempty(split_all(q1, '&')).to_multiset() == nonempty(split_all(q2, '&')).to_multiset(),
        cache_key_ok(path, q1, k1),
        cache_key_ok(path, q2, k2),
    ensures
        k1 == k2,
{
    let ps1 = choose|ps: Seq<Seq<char>>|
        sorted_text(ps) && #[trigger] ps.to_multiset() == nonempty(split_all(q1, '&')).to_multiset()
        && k1 == path + "?"@ + crate::gql::value::join(ps, "&"@);
    let ps2 = choose|ps: Seq<Seq<char>>|
        sorted_text(ps) && #[trigger] ps.to_multiset() == nonempty(split_all(q2, '&')).to_multiset()
        && k2 == path + "?"@ + crate::gql::value::join(ps, "&"@);
    lemma_sorted_unique(ps1, ps2);
}

/// `a` sorts strictly before `b`.
fn code_lt(a: &Vec<char>, b: &Vec<char>) -> (r: bool)
    ensures
        r == !code_le(b@, a@),
{
    let mut i: usize = 0;
    proof {
        assert(a@.skip(0) =~= a@);
        assert(b@.skip(0) =~= b@);
    }
    while i < a.len() && i < b.len()
        invariant
            0 <= i <= a@.len(),
            i <= b@.len(),
            code_le(b@, a@) == code_le(b@.skip(i as int), a@.skip(i as int)),
        decreases a@.len() - i,
    {
        if (a[i] as u32) != (b[i] as u32) {
            proof {
                assert(b@.skip(i as int)[0] == b@[i as int]);
                assert(a@.skip(i as int)[0] == a@[i as int]);
            }
            return (a[i] as u32) < (b[i] as u32);
        }
        proof {
            assert(b@.skip(i as int).drop_first() =~= b@.skip(i + 1));
            assert(a@.skip(i as int).drop_first() =~= a@.skip(i + 1));
        }
        i += 1;
    }
    proof {
        if i == b@.len() {
            assert(b@.skip(i as int).len() == 0);
        } else {
            assert(a@.skip(i as int).len() == 0);
            assert(b@.skip(i as int).len() > 0);
        }
    }
    i < b.len()
}

/// Sorted insertion: `x` goes before the first element it sorts strictly before.
fn insert_sorted(v: &mut Vec<Vec<char>>, x: Vec<char>)
    requires
        sorted_text(char_rows(old(v)@)),
    ensures
        sorted_text(char_rows(final(v)@)),
        char_rows(final(v)@).to_multiset() == char_rows(old(v)@).to_multiset().insert(x@),
{
    let ghost s = char_rows(v@);
    let mut pos: usize = 0;
    while pos < v.len() && !code_lt(&x, &v[pos])
        invariant
            0 <= pos <= v@.len(),
            s == char_rows(v@),
            forall|k: int| 0 <= k < pos ==> code_le(#[trigger] s[k], x@),
        decreases v@.len() - pos,
    {
        proof {
            assert(s[pos as int] == v@[pos as int]@);
        }
        pos += 1;
    }
    proof {
        if pos < v@.len() {
            assert(s[pos as int] == v@[pos as int]@);
            assert(!code_le(s[pos as int], x@));
            lemma_code_le_total(s[pos as int], x@);
        }
    }
    let ghost xv = x@;
    v.insert(pos, x);
    proof {
        let t = char_rows(v@);
        assert(t =~= s.insert(pos as int, xv));
        assert forall|i: int, j: int| 0 <= i < j < t.len() implies code_le(#[trigger] t[i], #[trigger] t[j]) by {
            if j < pos {
                assert(t[i] == s[i] && t[j] == s[j]);
            } else if j == pos {
                assert(t[j] == xv && t[i] == s[i]);
            } else if i == pos {
                assert(t[i] == xv && t[j] == s[j - 1]);
                if j - 1 > pos {
                    assert(code_le(s[pos as int], s[j - 1]));
                    lemma_code_le_trans(xv, s[pos as int], s[j - 1]);
                }
            } else if i < pos {
                assert(t[i] == s[i] && t[j] == s[j - 1]);
            } else {
                assert(t[i] == s[i - 1] && t[j] == s[j - 1]);
            }
        }
        vstd::seq_lib::to_multiset_insert(s, pos as int, xv);
    }
}

fn join_amp(ps: &Vec<Vec<char>>, out: &mut Vec<char>)
    ensures
        final(out)@ == old(out)@ + crate::gql::value::join(char_rows(ps@), "&"@),
{
    let ghost start = out@;
    let ghost s = char_rows(ps@);
    let mut i: usize = 0;
    while i < ps.len()
        invariant
            0 <= i <= ps@.len(),
            s == char_rows(ps@),
            out@ == start + crate::gql::value::join(s.take(i as int), "&"@),
        decreases ps@.len() - i,
    {
        proof {
            assert(s.take(i + 1).drop_last() =~= s.take(i as int));
            assert(s.take(i + 1).last() == ps@[i as int]@);
        }
        if i > 0 {
            append_str(out, "&");
        }
        let p = &ps[i];
        let mut k: usize = 0;
        let ghost mid = out@;
        while k < p.len()
            invariant
                0 <= k <= p@.len(),
                out@ == mid + p@.take(k as int),
            decreases p@.len() - k,
        {
            out.push(p[k]);
            proof {
                assert(p@.take(k + 1) =~= p@.take(k as int).push(p@[k as int]));
            }
            k += 1;
        }
        proof {
            assert(p@.take(p@.len() as int) =~= p@);
            if i == 0 {
                assert(s.take(1)[0] == p@);
            }
            assert(out@ =~= start + crate::gql::value::join(s.take(i + 1), "&"@));
        }
        i += 1;
    }
    proof {
        assert(s.take(s.len() as int) =~= s);
    }
}

/// The cache key of a static page (see [`cache_key_ok`]).
pub fn static_cache_key(path: &str, query: &str) -> (r: String)
    ensures
        cache_key_ok(path@, query@, r@),
{
    if query.is_empty() {
        return path.to_owned();
    }
    let qs = chars_of(query);
    let pieces = split_all_exec(&qs, '&');
    let ghost ps = rows_of(pieces@);
    let mut sorted: Vec<Vec<char>> = Vec::new();
    let mut i: usize = 0;
    proof {
        assert(char_rows(sorted@) =~= Seq::<Seq<char>>::empty());
        assert(ps.take(0) =~= Seq::<Seq<char>>::empty());
    }
    while i < pieces.len()
        invariant
            0 <= i <= pieces@.len(),
            ps == rows_of(pieces@),
            ps == split_all(query@, '&'),
            sorted_text(char_rows(sorted@)),
            char_rows(sorted@).to_multiset() == nonempty(ps.take(i as int)).to_multiset(),
        decreases pieces@.len() - i,
    {
        proof {
            assert(ps.take(i + 1).drop_last() =~= ps.take(i as int));
            assert(ps.take(i + 1).last() == pieces@[i as int]@);
        }
        if pieces[i].len() > 0 {
            let p = slice_chars(&pieces[i], 0, pieces[i].len());
            proof {
                assert(p@ =~= pieces@[i as int]@);
                assert(nonempty(ps.take(i + 1)) =~= nonempty(ps.take(i as int)).push(p@));
                vstd::seq_lib::to_multiset_build(nonempty(ps.take(i as int)), p@);
            }
            insert_sorted(&mut sorted, p);
        } else {
            proof {
                assert(nonempty(ps.take(i + 1)) =~= nonempty(ps.take(i as int)));
            }
        }
        i += 1;
    }
    proof {
        assert(ps.take(ps.len() as int) =~= ps);
    }
    let mut out: Vec<char> = Vec::new();
    append_str(&mut out, path);
    append_str(&mut out, "?");
    join_amp(&sorted, &mut out);
    proof {
        let w = char_rows(sorted@);
        assert(out@ == path@ + "?"@ + crate::gql::value::join(w, "&"@));
        assert(w.to_multiset() == nonempty(split_all(query@, '&')).to_multiset());
    }
    string_from(&out)
}


// ───────────────────────────── static page cache ─────────────────────────────

/// How many static pages are kept at most: arbitrary query strings cannot grow the cache
/// without bound; once full, pages are still rendered but no longer kept.
pub const STATIC_PAGE_LIMIT: usize = 1024;

/// How a page request is answered, by the page's rendering strategy.
#[derive(Clone, PartialEq, Eq, Debug)]
pub enum PageAction {
    /// A client-rendered page: the empty shell.
    EmptyShell,
    /// A server-rendered page: rendered for this request.
    Render,
    /// A static page already cached under its key: this HTML.
    Serve(String),
    /// A static page not cached yet: rendered, then remembered under its key.
    RenderAndRemember,
}

/// The answer to a page request: client-rendered pages get the empty shell,
/// server-rendered pages are rendered per request, static pages are served from the
/// cache (`cached` is what the cache holds under the request's key) or rendered once.
pub fn page_action(strategy: Strategy, cached: Option<String>) -> (a: PageAction)
    ensures
        strategy == Strategy::Csr ==> a == PageAction::EmptyShell,
        strategy == Strategy::Ssr ==> a == PageAction::Render,
        strategy == Strategy::Static ==> a == match cached {
            Some(h) => PageAction::Serve(h),
            None => PageAction::RenderAndRemember,
        },
{
    match strategy {
        Strategy::Csr => PageAction::EmptyShell,
        Strategy::Ssr => PageAction::Render,
        Strategy::Static => match cached {
            Some(h) => PageAction::Serve(h),
            None => PageAction::RenderAndRemember,
        },
    }
}

/// Rendered static pages by cache key.
pub struct PageCache {
    entries: Vec<(String, String)>,
}

/// The pages held, by key (later entries win).
pub open spec fn pages_of(es: Seq<(String, String)>) -> Map<Seq<char>, Seq<char>>
    decreases es.len(),
{
    if es.len() == 0 {
        Map::empty()
    } else {
        pages_of(es.drop_last()).insert(es.last().0@, es.last().1@)
    }
}

/// No key occurs twice.
pub open spec fn keys_unique(es: Seq<(String, String)>) -> bool {
    forall|i: int, j: int| 0 <= i < j < es.len() ==> es[i].0@ != es[j].0@
}

proof fn lemma_pages_of_has(es: Seq<(String, String)>, i: int)
    requires
        keys_unique(es),
        0 <= i < es.len(),
    ensures
        pages_of(es).contains_key(es[i].0@),
        pages_of(es)[es[i].0@] == es[i].1@,
    decreases es.len(),
{
    if i < es.len() - 1 {
        lemma_pages_of_has(es.drop_last(), i);
    }
}

proof fn lemma_pages_of_lacks(es: Seq<(String, String)>, k: Seq<char>)
    requires
        forall|i: int| 0 <= i < es.len() ==> (#[trigger] es[i]).0@ != k,
    ensures
        !pages_of(es).contains_key(k),
    decreases es.len(),
{
    if es.len() > 0 {
        lemma_pages_of_lacks(es.drop_last(), k);
    }
}

proof fn lemma_pages_of_update(es: Seq<(String, String)>, i: int, e: (String, String))
    requires
        keys_unique(es),
        0 <= i < es.len(),
        es[i].0@ == e.0@,
    ensures
        pages_of(es.update(i, e)) == pages_of(es).insert(e.0@, e.1@),
    decreases es.len(),
{
    let u = es.update(i, e);
    if i == es.len() - 1 {
        assert(u.drop_last() =~= es.drop_last());
        assert(pages_of(u) =~= pages_of(es).insert(e.0@, e.1@));
    } else {
        assert(u.drop_last() =~= es.drop_last().update(i, e));
        lemma_pages_of_update(es.drop_last(), i, e);
        assert(es.last().0@ != e.0@);
        assert(pages_of(u) =~= pages_of(es).insert(e.0@, e.1@));
    }
}

impl PageCache {
    /// The pages held, by key.
    pub closed spec fn pages(&self) -> Map<Seq<char>, Seq<char>> {
        pages_of(self.entries@)
    }

    /// The number of pages held.
    pub closed spec fn count(&self) -> nat {
        self.entries@.len()
    }

    /// Every key once, and never more pages than the limit.
    pub closed spec fn wf(&self) -> bool {
        keys_unique(self.entries@) && self.entries@.len() <= STATIC_PAGE_LIMIT
    }

    /// An empty cache.
    pub fn new() -> (c: PageCache)
        ensures
            c.wf(),
            c.count() == 0,
            c.pages() == Map::<Seq<char>, Seq<char>>::empty(),
    {
        PageCache { entries: Vec::new() }
    }

    /// The number of pages held.
    pub fn len(&self) -> (n: usize)
        requires
            self.wf(),
        ensures
            n == self.count(),
            n <= STATIC_PAGE_LIMIT,
    {
        self.entries.len()
    }

    fn index_of(&self, key: &str) -> (r: Option<usize>)
        requires
            self.wf(),
        ensures
            r is Some ==> r->0 < self.entries@.len() && self.entries@[r->0 as int].0@ == key@,
            r is None ==> forall|i: int| 0 <= i < self.entries@.len() ==> (#[trigger] self.entries@[i]).0@ != key@,
    {
        let mut i: usize = 0;
        while i < self.entries.len()
            invariant
                0 <= i <= self.entries@.len(),
                forall|j: int| 0 <= j < i ==> (#[trigger] self.entries@[j]).0@ != key@,
            decreases self.entries@.len() - i,
        {
            if same(self.entries[i].0.as_str(), key) {
                return Some(i);
            }
            i += 1;
        }
        None
    }

    /// The page cached under `key`.
    pub fn get(&self, key: &str) -> (r: Option<String>)
        requires
            self.wf(),
        ensures
            r is Some <==> self.pages().contains_key(key@),
            r is Some ==> r->0@ == self.pages()[key@],
    {
        match self.index_of(key) {
            Some(i) => {
                proof {
                    lemma_pages_of_has(self.entries@, i as int);
                }
                Some(self.entries[i].1.clone())
            },
            None => {
                proof {
                    lemma_pages_of_lacks(self.entries@, key@);
                }
                None
            },
        }
    }

    /// Keeps `html` under `key` while the cache holds fewer pages than the limit (a key
    /// already held gets the new page); a full cache is left as it is.
    pub fn remember(&mut self, key: String, html: String)
        requires
            old(self).wf(),
        ensures
            final(self).wf(),
            final(self).count() <= STATIC_PAGE_LIMIT,
            old(self).count() < STATIC_PAGE_LIMIT ==> final(self).pages() == old(self).pages().insert(key@, html@),
            old(self).count() < STATIC_PAGE_LIMIT ==> final(self).count() == old(self).count()
                + if old(self).pages().contains_key(key@) { 0nat } else { 1nat },
            old(self).count() >= STATIC_PAGE_LIMIT ==> final(self).pages() == old(self).pages()
                && final(self).count() == old(self).count(),
    {
        if self.entries.len() >= STATIC_PAGE_LIMIT {
            return;
        }
        match self.index_of(key.as_str()) {
            Some(i) => {
                proof {
                    lemma_pages_of_has(self.entries@, i as int);
                    lemma_pages_of_update(self.entries@, i as int, (key, html));
                }
                let ghost es = self.entries@;
                self.entries.set(i, (key, html));
                proof {
                    assert(self.entries@ == es.update(i as int, (key, html)));
                    assert(keys_unique(self.entries@)) by {
                        assert forall|a: int, b: int| 0 <= a < b < self.entries@.len() implies
                            self.entries@[a].0@ != self.entries@[b].0@ by {
                            assert(es[a].0@ != es[b].0@);
                        }
                    }
                }
            },
            None => {
                proof {
                    lemma_pages_of_lacks(self.entries@, key@);
                }
                let ghost es = self.entries@;
                self.entries.push((key, html));
                proof {
                    assert(self.entries@.drop_last() =~= es);
                }
            },
        }
    }
}


} // verus!
