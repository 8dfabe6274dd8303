//! Routing state shared by server and client rendering: the current path and query
//! (each a signal), route-pattern matching, path parameters (with the segment offset of a
//! route group), query parameters with percent decoding, and query-value encoding.
use vstd::prelude::*;
use vstd::utf8::{encode_utf8, decode_utf8, valid_utf8, is_ascii_chars, is_ascii_chars_encode_utf8, encode_utf8_valid_utf8, encode_utf8_decode_utf8};
use crate::reactive::{Runtime, Signal, Scope, keeps_graph, graph_grows, cleanups_invoked, lemma_keeps_refl, lemma_keeps_trans, memo, memo_starts, publishes};
use crate::dom::{Dom, clear_page};
use crate::text::{chars_of, string_from};

verus! {

// ───────────────────────────── path segments and patterns ─────────────────────────────

/// The maximal runs of characters other than `sep`, in order: `s.split(sep)` without the
/// empty pieces.
pub open spec fn segments_by(s: Seq<char>, sep: char) -> Seq<Seq<char>>
    decreases s.len(),
{
    if s.len() == 0 {
        Seq::empty()
    } else {
        let rest = segments_by(s.drop_last(), sep);
        let c = s.last();
        if c == sep {
            rest
        } else if s.len() >= 2 && s[s.len() - 2] != sep {
            rest.drop_last().push(rest.last().push(c))
        } else {
            rest.push(seq![c])
        }
    }
}

/// The non-empty `/`-separated segments of a path.
pub open spec fn path_segments(s: Seq<char>) -> Seq<Seq<char>> {
    segments_by(s, '/')
}

/// The character sequences of a list of character vectors.
pub open spec fn rows_of(v: Seq<Vec<char>>) -> Seq<Seq<char>> {
    Seq::new(v.len(), |i: int| v[i]@)
}

/// `segments_by` of the characters of `s`.
pub fn split_segments(s: &str, sep: char) -> (segs: Vec<Vec<char>>)
    ensures
        rows_of(segs@) == segments_by(s@, sep),
{
    let cs = chars_of(s);
    let mut segs: Vec<Vec<char>> = Vec::new();
    let mut cur: Vec<char> = Vec::new();
    let mut i: usize = 0;
    while i < cs.len()
        invariant
            0 <= i <= cs@.len(),
            cs@ == s@,
            segments_by(cs@.take(i as int), sep) == if cur@.len() > 0 { rows_of(segs@).push(cur@) } else { rows_of(segs@) },
            cur@.len() > 0 <==> (i > 0 && cs@[i - 1] != sep),
        decreases cs@.len() - i,
    {
        let c = cs[i];
        let ghost t = cs@.take(i + 1);
        let ghost rows = rows_of(segs@);
        let ghost cv = cur@;
        proof {
            assert(t.drop_last() == cs@.take(i as int));
            assert(t.last() == c);
            if i > 0 {
                assert(t[t.len() - 2] == cs@[i - 1]);
            }
        }
        if c == sep {
            if cur.len() > 0 {
                let mut done: Vec<char> = Vec::new();
                std::mem::swap(&mut done, &mut cur);
                segs.push(done);
                proof {
                    assert(rows_of(segs@) =~= rows.push(cv));
                }
            }
        } else {
            cur.push(c);
            proof {
                if cv.len() > 0 {
                    assert(rows.push(cv).drop_last() =~= rows);
                    assert(rows.push(cv).last() == cv);
                    assert(segments_by(t, sep) == rows.push(cv).drop_last().push(rows.push(cv).last().push(c)));
                } else {
                    assert(cur@ =~= seq![c]);
                }
                assert(rows_of(segs@) == rows);
            }
        }
        i += 1;
    }
    proof {
        assert(cs@.take(cs@.len() as int) == cs@);
    }
    if cur.len() > 0 {
        let ghost rows = rows_of(segs@);
        let ghost cv = cur@;
        segs.push(cur);
        proof {
            assert(rows_of(segs@) =~= rows.push(cv));
        }
    }
    segs
}

/// A pattern segment matches a path segment when it is a `:name` wildcard or equal to it.
pub open spec fn segment_matches(p: Seq<char>, x: Seq<char>) -> bool {
    (p.len() > 0 && p[0] == ':') || p == x
}

/// `pattern` matches `path`: as many segments, each matching.
pub open spec fn route_matches(pattern: Seq<char>, path: Seq<char>) -> bool {
    let ps = path_segments(pattern);
    let xs = path_segments(path);
    ps.len() == xs.len() && forall|i: int| 0 <= i < ps.len() ==> #[trigger] segment_matches(ps[i], xs[i])
}

/// Whether two character vectors are equal.
fn chars_eq(a: &Vec<char>, b: &Vec<char>) -> (r: bool)
    ensures
        r == (a@ == b@),
{
    if a.len() != b.len() {
        return false;
    }
    let mut i: usize = 0;
    while i < a.len()
        invariant
            0 <= i <= a@.len(),
            a@.len() == b@.len(),
            forall|j: int| 0 <= j < i ==> a@[j] == b@[j],
        decreases a@.len() - i,
    {
        if a[i] != b[i] {
            return false;
        }
        i += 1;
    }
    proof {
        assert(a@ =~= b@);
    }
    true
}

/// Route-pattern matching: `/todo/:id` matches `/todo/1` (same number of non-empty
/// segments, `:name` segments match anything, the others must be equal).  `/` and `""`
/// match the root.
pub fn matches(pattern: &str, path: &str) -> (r: bool)
    ensures
        r == route_matches(pattern@, path@),
{
    let ps = split_segments(pattern, '/');
    let xs = split_segments(path, '/');
    proof {
        assert(rows_of(ps@).len() == ps@.len());
        assert(rows_of(xs@).len() == xs@.len());
    }
    if ps.len() != xs.len() {
        return false;
    }
    let ghost pr = rows_of(ps@);
    let ghost xr = rows_of(xs@);
    let mut i: usize = 0;
    while i < ps.len()
        invariant
            0 <= i <= ps@.len(),
            ps@.len() == xs@.len(),
            pr == rows_of(ps@),
            xr == rows_of(xs@),
            pr == path_segments(pattern@),
            xr == path_segments(path@),
            forall|j: int| 0 <= j < i ==> #[trigger] segment_matches(pr[j], xr[j]),
        decreases ps@.len() - i,
    {
        let p = &ps[i];
        proof {
            assert(pr[i as int] == p@);
            assert(xr[i as int] == xs@[i as int]@);
        }
        let wild = p.len() > 0 && p[0] == ':';
        if !wild && !chars_eq(p, &xs[i]) {
            proof {
                assert(!segment_matches(pr[i as int], xr[i as int]));
                assert(pr == path_segments(pattern@));
                assert(xr == path_segments(path@));
                assert(!segment_matches(path_segments(pattern@)[i as int], path_segments(path@)[i as int]));
            }
            return false;
        }
        proof {
            assert(segment_matches(pr[i as int], xr[i as int]));
        }
        i += 1;
    }
    true
}

/// Segment `idx` of the path, or `""` past the last one.
pub open spec fn segment_at(path: Seq<char>, idx: int) -> Seq<char> {
    if 0 <= idx < path_segments(path).len() {
        path_segments(path)[idx]
    } else {
        Seq::empty()
    }
}

/// Segment `idx` of `path`, or `""` past the last one.
pub fn path_segment(path: &str, idx: usize) -> (r: String)
    ensures
        r@ == segment_at(path@, idx as int),
{
    let segs = split_segments(path, '/');
    if idx < segs.len() {
        proof {
            assert(rows_of(segs@)[idx as int] == segs@[idx as int]@);
        }
        string_from(&segs[idx])
    } else {
        String::new()
    }
}

// ───────────────────────────── router state ─────────────────────────────

/// The current location: a signal with the path, a signal with the raw query string (no
/// leading `?`), and the number of path segments consumed by the enclosing route group.
#[derive(Clone, Copy)]
pub struct Router {
    pub path: Signal,
    pub query: Signal,
    pub offset: usize,
}

impl Router {
    /// A router whose path and query are `""`.
    pub fn new(rt: &mut Runtime<String>) -> (r: Router)
        requires
            old(rt).wf(),
        ensures
            final(rt).wf(),
            r.path.id < final(rt).n_signals(),
            r.query.id < final(rt).n_signals(),
            r.path.id != r.query.id,
            r.offset == 0,
            final(rt).value(r.path.id as int)@ == Seq::<char>::empty(),
            final(rt).value(r.query.id as int)@ == Seq::<char>::empty(),
            final(rt).n_signals() == old(rt).n_signals() + 2,
    {
        let path = Signal::new(rt, String::new());
        let query = Signal::new(rt, String::new());
        Router { path, query, offset: 0 }
    }

    /// Both signals exist in `rt`.
    pub open spec fn valid(&self, rt: &Runtime<String>) -> bool {
        &&& rt.wf()
        &&& self.path.id < rt.n_signals()
        &&& self.query.id < rt.n_signals()
    }
}

/// The current-path signal (path parameters derive from it).
pub fn path(router: &Router) -> (s: Signal)
    ensures
        s == router.path,
{
    router.path
}

/// The current raw query-string signal (`"q=foo&sort=asc"`).
pub fn query_string(router: &Router) -> (s: Signal)
    ensures
        s == router.query,
{
    router.query
}

/// Runs `f` with the parameter offset set to `n` (route-group leaves: `n` is the number of
/// segments of the group prefix, so `param(i)` inside reads absolute segment `n + i`).
pub fn with_param_offset<R, F: FnOnce(&Router) -> R>(router: &Router, n: usize, f: F) -> (r: R)
    requires
        call_requires(f, (&Router { offset: n, ..*router },)),
    ensures
        call_ensures(f, (&Router { offset: n, ..*router },), r),
{
    let inner = Router { offset: n, ..*router };
    f(&inner)
}

/// A reactive view of one path segment: reading it reads (and, inside an effect,
/// subscribes to) the path signal.
#[derive(Clone, Copy)]
pub struct Param {
    pub path: Signal,
    pub index: usize,
}

/// What a memo over `rt` holds after it was made from the value `v` (`value_of` of the
/// state it first ran on): somewhere between its making and `after`, a state `mid` held
/// it in `s` (republished later only when it changes).
pub open spec fn memo_holds_text(rt: Runtime<String>, after: Runtime<String>, s: Signal, v: Seq<char>) -> bool {
    exists|mid: Runtime<String>| {
        &&& 0 <= s.id < mid.n_signals()
        &&& #[trigger] mid.value(s.id as int)@ == v
        &&& keeps_graph(mid, after)
        &&& (mid.pending().len() == 0 ==> after == mid)
    }
}

/// Path segment `i` (counted after the group offset) as a memo over the path signal: for
/// `/todo/1`, `param(1)` holds `"1"`.  It is recomputed when the path is set and
/// republished only when the segment changes, so a reader of one segment does not re-run
/// when another segment changes.
pub fn param(rt: &mut Runtime<String>, router: &Router, i: usize) -> (s: Signal)
    requires
        old(rt).wf(),
        router.offset + i <= usize::MAX,
    ensures
        keeps_graph(*old(rt), *final(rt)),
        old(rt).n_signals() <= s.id < final(rt).n_signals(),
        router.path.id < old(rt).n_signals() ==>
            memo_holds_text(*old(rt), *final(rt), s, segment_at(old(rt).value(router.path.id as int)@, router.offset + i)),
{
    let path = router.path;
    let idx = router.offset + i;
    let f = move |a: &mut Runtime<String>| -> (r: String)
        requires
            old(a).wf(),
        ensures
            keeps_graph(*old(a), *final(a)),
            final(a).signal_values() == old(a).signal_values(),
            path.id < old(a).n_signals() ==> r@ == segment_at(old(a).value(path.id as int)@, idx as int),
    {
        if path.is_in(a) {
            let p = path.get(a);
            path_segment(p.as_str(), idx)
        } else {
            proof {
                lemma_keeps_refl(*a);
            }
            String::new()
        }
    };
    let s = memo(rt, f);
    proof {
        if path.id < old(rt).n_signals() {
            old(rt).lemma_values();
            old(rt).untracked().lemma_values();
            let seg = segment_at(old(rt).value(path.id as int)@, idx as int);
            let (a0, v0) = choose|a0: &mut Runtime<String>, v0: String| {
                &&& *a0 == old(rt).untracked()
                &&& #[trigger] call_ensures(f, (a0,), v0)
                &&& exists|a1: &mut Runtime<String>, v1: String| {
                    &&& memo_starts(*final(a0), *a1, s.id, v0)
                    &&& #[trigger] call_ensures(f, (a1,), v1)
                    &&& exists|mid: Runtime<String>| {
                        &&& #[trigger] publishes(*final(a1), mid, s.id as int, v1)
                        &&& keeps_graph(mid, *final(rt))
                        &&& (mid.pending().len() == 0 ==> *final(rt) == mid)
                    }
                }
            };
            assert(a0.value(path.id as int) == old(rt).value(path.id as int));
            assert(v0@ == seg);
            let (a1, v1) = choose|a1: &mut Runtime<String>, v1: String| {
                &&& memo_starts(*final(a0), *a1, s.id, v0)
                &&& #[trigger] call_ensures(f, (a1,), v1)
                &&& exists|mid: Runtime<String>| {
                    &&& #[trigger] publishes(*final(a1), mid, s.id as int, v1)
                    &&& keeps_graph(mid, *final(rt))
                    &&& (mid.pending().len() == 0 ==> *final(rt) == mid)
                }
            };
            final(a0).lemma_values();
            a1.lemma_values();
            final(a1).lemma_values();
            assert(a1.value(path.id as int) == old(rt).value(path.id as int));
            assert(v1@ == seg);
            assert(final(a1).value(s.id as int) == v0);
            let mid = choose|mid: Runtime<String>| {
                &&& #[trigger] publishes(*final(a1), mid, s.id as int, v1)
                &&& keeps_graph(mid, *final(rt))
                &&& (mid.pending().len() == 0 ==> *final(rt) == mid)
            };
            assert(mid.value(s.id as int)@ == seg);
        }
    }
    s
}

impl Param {
    /// The segment's current value (`""` when the path is shorter).
    pub fn get(&self, rt: &mut Runtime<String>) -> (r: String)
        requires
            old(rt).wf(),
            self.path.id < old(rt).n_signals(),
        ensures
            final(rt).wf(),
            r@ == segment_at(old(rt).value(self.path.id as int)@, self.index as int),
            final(rt).signal_values() == old(rt).signal_values(),
            keeps_graph(*old(rt), *final(rt)),
    {
        let p = self.path.get(rt);
        path_segment(p.as_str(), self.index)
    }
}

/// Types a path or query parameter can be read as: the parse of the text, or the type's
/// default when it does not parse.
pub trait FromParam: Sized {
    /// `v` is what `s` reads as.
    spec fn reads_as(s: Seq<char>, v: Self) -> bool;

    fn from_param(s: &str) -> (v: Self)
        ensures
            Self::reads_as(s@, v);
}

impl FromParam for String {
    open spec fn reads_as(s: Seq<char>, v: String) -> bool {
        v@ == s
    }

    fn from_param(s: &str) -> (v: String) {
        s.to_string()
    }
}

impl FromParam for i64 {
    open spec fn reads_as(s: Seq<char>, v: i64) -> bool {
        v == match parse_i64_spec(s) {
            Some(n) => n,
            None => 0,
        }
    }

    fn from_param(s: &str) -> (v: i64) {
        match parse_i64(s) {
            Some(n) => n,
            None => 0,
        }
    }
}

impl FromParam for bool {
    open spec fn reads_as(s: Seq<char>, v: bool) -> bool {
        v == (s == seq!['t', 'r', 'u', 'e'])
    }

    fn from_param(s: &str) -> (v: bool) {
        let t = "true";
        proof {
            reveal_strlit("true");
        }
        let a = s.to_owned();
        let b = t.to_owned();
        proof {
            assert(b@ =~= seq!['t', 'r', 'u', 'e']);
        }
        a == b
    }
}

/// A typed reactive path parameter.
pub struct ParamAs<T> {
    pub param: Param,
    pub ty: core::marker::PhantomData<T>,
}

/// Path segment `i` read as a `T` (its default when missing or unparsable).
pub fn param_as<T: FromParam>(router: &Router, i: usize) -> (p: ParamAs<T>)
    requires
        router.offset + i <= usize::MAX,
    ensures
        p.param.path == router.path,
        p.param.index == router.offset + i,
{
    ParamAs { param: Param { path: router.path, index: router.offset + i }, ty: core::marker::PhantomData }
}

impl<T: FromParam> ParamAs<T> {
    pub fn get(&self, rt: &mut Runtime<String>) -> (r: T)
        requires
            old(rt).wf(),
            self.param.path.id < old(rt).n_signals(),
        ensures
            final(rt).wf(),
            T::reads_as(segment_at(old(rt).value(self.param.path.id as int)@, self.param.index as int), r),
            final(rt).signal_values() == old(rt).signal_values(),
    {
        let s = self.param.get(rt);
        T::from_param(s.as_str())
    }
}

// ───────────────────────────── decimal integers ─────────────────────────────

pub open spec fn is_digit(c: char) -> bool {
    '0' <= c <= '9'
}

pub open spec fn digit_value(c: char) -> int {
    (c as u32) as int - ('0' as u32) as int
}

/// The value of a non-empty run of decimal digits.
pub open spec fn digits_value(s: Seq<char>) -> int
    decreases s.len(),
{
    if s.len() == 0 {
        0
    } else {
        digits_value(s.drop_last()) * 10 + digit_value(s.last())
    }
}

pub open spec fn all_digits(s: Seq<char>) -> bool {
    forall|i: int| 0 <= i < s.len() ==> #[trigger] is_digit(s[i])
}

/// `str::parse::<i64>`: an optional `+` or `-`, then at least one ASCII digit, the value in range.
pub open spec fn parse_i64_spec(s: Seq<char>) -> Option<i64> {
    let neg = s.len() > 0 && s[0] == '-';
    let body = if s.len() > 0 && (s[0] == '-' || s[0] == '+') { s.drop_first() } else { s };
    let v = if neg { -digits_value(body) } else { digits_value(body) };
    if body.len() > 0 && all_digits(body) && i64::MIN <= v <= i64::MAX {
        Some(v as i64)
    } else {
        None
    }
}

proof fn lemma_digits_value_nonneg(s: Seq<char>)
    requires
        all_digits(s),
    ensures
        digits_value(s) >= 0,
    decreases s.len(),
{
    if s.len() > 0 {
        assert(all_digits(s.drop_last())) by {
            assert forall|i: int| 0 <= i < s.drop_last().len() implies #[trigger] is_digit(s.drop_last()[i]) by {
                assert(is_digit(s[i]));
            }
        }
        lemma_digits_value_nonneg(s.drop_last());
        assert(is_digit(s[s.len() - 1]));
    }
}

proof fn lemma_digits_value_mono(s: Seq<char>, i: int)
    requires
        all_digits(s),
        0 <= i <= s.len(),
    ensures
        digits_value(s.take(i)) <= digits_value(s),
    decreases s.len() - i,
{
    if i < s.len() {
        lemma_digits_value_mono(s, i + 1);
        assert(s.take(i + 1).drop_last() == s.take(i));
        assert(all_digits(s.take(i))) by {
            assert forall|j: int| 0 <= j < s.take(i).len() implies #[trigger] is_digit(s.take(i)[j]) by {
                assert(is_digit(s[j]));
            }
        }
        lemma_digits_value_nonneg(s.take(i));
        assert(is_digit(s[i]));
        assert(s.take(i + 1).last() == s[i]);
    } else {
        assert(s.take(i) == s);
    }
}

/// An unsigned decimal as `str::parse` reads it: an optional `+`, then at least one ASCII
/// digit, the value at most `max`.
pub open spec fn parse_uint_spec(s: Seq<char>, max: int) -> Option<int> {
    let body = if s.len() > 0 && s[0] == '+' { s.drop_first() } else { s };
    if body.len() > 0 && all_digits(body) && digits_value(body) <= max {
        Some(digits_value(body))
    } else {
        None
    }
}

/// Parses a decimal `u64` exactly as `str::parse::<u64>` does.
pub fn parse_u64(s: &Vec<char>) -> (r: Option<u64>)
    ensures
        r is Some <==> parse_uint_spec(s@, u64::MAX as int) is Some,
        r is Some ==> r->0 as int == parse_uint_spec(s@, u64::MAX as int)->0,
{
    let start: usize = if s.len() > 0 && s[0] == '+' { 1 } else { 0 };
    let ghost body = if s@.len() > 0 && s@[0] == '+' { s@.drop_first() } else { s@ };
    proof {
        assert(body =~= s@.subrange(start as int, s@.len() as int));
    }
    if start >= s.len() {
        return None;
    }
    let mut mag: u64 = 0;
    let mut i: usize = start;
    while i < s.len()
        invariant
            start <= i <= s@.len(),
            body == s@.subrange(start as int, s@.len() as int),
            body == if s@.len() > 0 && s@[0] == '+' { s@.drop_first() } else { s@ },
            all_digits(body.take(i - start)),
            mag == digits_value(body.take(i - start)),
        decreases s@.len() - i,
    {
        let c = s[i];
        let ghost k = i - start;
        proof {
            assert(body.take(k + 1).drop_last() == body.take(k));
            assert(body.take(k + 1).last() == c);
            assert(body[k] == c);
        }
        if c < '0' || c > '9' {
            proof {
                assert(!is_digit(body[k]));
            }
            return None;
        }
        let d = (c as u32 - '0' as u32) as u64;
        proof {
            assert(all_digits(body.take(k + 1))) by {
                assert forall|j: int| 0 <= j < k + 1 implies #[trigger] is_digit(body.take(k + 1)[j]) by {
                    if j < k {
                        assert(body.take(k + 1)[j] == body.take(k)[j]);
                    }
                }
            }
            assert(digits_value(body.take(k + 1)) == mag * 10 + d);
        }
        if mag > (u64::MAX - d) / 10 {
            proof {
                assert(mag * 10 + d > u64::MAX) by (nonlinear_arith)
                    requires
                        mag > (u64::MAX - d) / 10,
                        d <= 9,
                ;
                if all_digits(body) {
                    lemma_digits_value_mono(body, k + 1);
                }
            }
            return None;
        }
        proof {
            assert(mag * 10 + d <= u64::MAX) by (nonlinear_arith)
                requires
                    mag <= (u64::MAX - d) / 10,
                    d <= 9,
            ;
        }
        mag = mag * 10 + d;
        i += 1;
    }
    proof {
        assert(body.take(body.len() as int) == body);
    }
    Some(mag)
}

/// Parses a decimal `i64` exactly as `str::parse::<i64>` does.
pub fn parse_i64(s: &str) -> (r: Option<i64>)
    ensures
        r == parse_i64_spec(s@),
{
    let cs = chars_of(s);
    let neg = cs.len() > 0 && cs[0] == '-';
    let start: usize = if cs.len() > 0 && (cs[0] == '-' || cs[0] == '+') { 1 } else { 0 };
    let ghost body = if cs@.len() > 0 && (cs@[0] == '-' || cs@[0] == '+') { cs@.drop_first() } else { cs@ };
    proof {
        assert(body =~= cs@.subrange(start as int, cs@.len() as int));
    }
    if start >= cs.len() {
        return None;
    }
    let mut mag: u64 = 0;
    let mut i: usize = start;
    while i < cs.len()
        invariant
            start <= i <= cs@.len(),
            body == cs@.subrange(start as int, cs@.len() as int),
            body == if cs@.len() > 0 && (cs@[0] == '-' || cs@[0] == '+') { cs@.drop_first() } else { cs@ },
            neg == (cs@.len() > 0 && cs@[0] == '-'),
            all_digits(body.take(i - start)),
            mag == digits_value(body.take(i - start)),
            mag <= 0x8000_0000_0000_0000u64,
            cs@ == s@,
        decreases cs@.len() - i,
    {
        let c = cs[i];
        let ghost k = i - start;
        proof {
            assert(body.take(k + 1).drop_last() == body.take(k));
            assert(body.take(k + 1).last() == c);
            assert(body[k] == c);
        }
        if c < '0' || c > '9' {
            proof {
                assert(!is_digit(body[k]));
                assert(!all_digits(body));
            }
            return None;
        }
        let d = (c as u32 - '0' as u32) as u64;
        proof {
            assert(all_digits(body.take(k + 1))) by {
                assert forall|j: int| 0 <= j < k + 1 implies #[trigger] is_digit(body.take(k + 1)[j]) by {
                    if j < k {
                        assert(body.take(k + 1)[j] == body.take(k)[j]);
                    }
                }
            }
            assert(digits_value(body.take(k + 1)) == mag * 10 + d);
        }
        if mag > (0x8000_0000_0000_0000u64 - d) / 10 {
            proof {
                assert(mag * 10 + d > 0x8000_0000_0000_0000u64) by (nonlinear_arith)
                    requires
                        mag > (0x8000_0000_0000_0000u64 - d) / 10,
                        d <= 9,
                ;
                if all_digits(body) {
                    lemma_digits_value_mono(body, k + 1);
                }
            }
            return None;
        }
        proof {
            assert(mag * 10 + d <= 0x8000_0000_0000_0000u64) by (nonlinear_arith)
                requires
                    mag <= (0x8000_0000_0000_0000u64 - d) / 10,
                    d <= 9,
            ;
        }
        mag = mag * 10 + d;
        i += 1;
    }
    proof {
        assert(body.take(body.len() as int) == body);
    }
    if neg {
        if mag == 0x8000_0000_0000_0000u64 {
            Some(i64::MIN)
        } else {
            Some(-(mag as i64))
        }
    } else if mag > 0x7fff_ffff_ffff_ffffu64 {
        None
    } else {
        Some(mag as i64)
    }
}

// ───────────────────────────── query strings ─────────────────────────────

/// The value of a hexadecimal digit byte (`0-9`, `a-f`, `A-F`), as `char::to_digit(16)`.
pub open spec fn hex_value(b: u8) -> Option<u8> {
    if 0x30 <= b <= 0x39 {
        Some((b - 0x30) as u8)
    } else if 0x61 <= b <= 0x66 {
        Some((b - 0x61 + 10) as u8)
    } else if 0x41 <= b <= 0x46 {
        Some((b - 0x41 + 10) as u8)
    } else {
        None
    }
}

fn hex_digit_value(b: u8) -> (r: Option<u8>)
    ensures
        r == hex_value(b),
{
    if 0x30 <= b && b <= 0x39 {
        Some(b - 0x30)
    } else if 0x61 <= b && b <= 0x66 {
        Some(b - 0x61 + 10)
    } else if 0x41 <= b && b <= 0x46 {
        Some(b - 0x41 + 10)
    } else {
        None
    }
}

/// Percent and `+` decoding of bytes: `+` is a space, `%XY` with two hex digits (and at
/// least one more byte after the `%` than the two digits' position requires, as the
/// decoder checks `i + 2 < len`) is the byte `0xXY`, anything else stays.
pub open spec fn pct_bytes(b: Seq<u8>) -> Seq<u8>
    decreases b.len(),
{
    if b.len() == 0 {
        Seq::empty()
    } else if b[0] == 0x2b {
        seq![0x20u8] + pct_bytes(b.drop_first())
    } else if b[0] == 0x25 && 2 < b.len() && hex_value(b[1]) is Some && hex_value(b[2]) is Some {
        seq![(hex_value(b[1])->0 * 16 + hex_value(b[2])->0) as u8] + pct_bytes(b.subrange(3, b.len() as int))
    } else {
        seq![b[0]] + pct_bytes(b.drop_first())
    }
}

/// What `String::from_utf8_lossy` makes of a byte sequence: invalid sequences become
/// U+FFFD replacement characters.
pub uninterp spec fn utf8_lossy(b: Seq<u8>) -> Seq<char>;

/// std `String::from_utf8_lossy`: the result is a function of the bytes, and for valid
/// UTF-8 it is exactly their decoding (the std documentation: a valid input is returned as
/// it is).  Which replacement characters invalid input gets is not stated.
#[verifier::external_body]
pub(crate) fn string_from_utf8_lossy(b: &[u8]) -> (s: String)
    ensures
        s@ == utf8_lossy(b@),
        valid_utf8(b@) ==> s@ == decode_utf8(b@),
{
    String::from_utf8_lossy(b).into_owned()
}

/// Bytes read as UTF-8 text: decoded exactly when valid, else `String::from_utf8_lossy`'s reading.
pub open spec fn utf8_text(b: Seq<u8>) -> Seq<char> {
    if valid_utf8(b) { decode_utf8(b) } else { utf8_lossy(b) }
}

/// The percent-decoded text of `s` (its UTF-8 bytes decoded, then read back as UTF-8).
pub open spec fn pct_text(s: Seq<char>) -> Seq<char> {
    utf8_text(pct_bytes(encode_utf8(s)))
}

/// Percent and `+` decoding of a query component: `hello%20world` and `hello+world` both
/// read `hello world`.
pub fn pct_decode(s: &str) -> (r: String)
    ensures
        r@ == pct_text(s@),
{
    let b = s.as_bytes();
    let mut out: Vec<u8> = Vec::new();
    let mut i: usize = 0;
    proof {
        assert(b@.subrange(0, b@.len() as int) =~= b@);
        assert(out@ + pct_bytes(b@) =~= pct_bytes(b@));
    }
    while i < b.len()
        invariant
            0 <= i <= b@.len(),
            b@ == encode_utf8(s@),
            pct_bytes(b@) == out@ + pct_bytes(b@.subrange(i as int, b@.len() as int)),
        decreases b@.len() - i,
    {
        let ghost rest = b@.subrange(i as int, b@.len() as int);
        let c = b[i];
        proof {
            assert(rest[0] == c);
            assert(rest.drop_first() =~= b@.subrange(i + 1, b@.len() as int));
        }
        if c == 0x2b {
            out.push(0x20);
            i += 1;
            proof {
                assert(out@ + pct_bytes(b@.subrange(i as int, b@.len() as int)) =~= out@.drop_last() + pct_bytes(rest));
            }
        } else if c == 0x25 && b.len() - i > 2 {
            let h = hex_digit_value(b[i + 1]);
            let l = hex_digit_value(b[i + 2]);
            proof {
                assert(rest[1] == b@[i + 1]);
                assert(rest[2] == b@[i + 2]);
            }
            match (h, l) {
                (Some(h), Some(l)) => {
                    out.push(h * 16 + l);
                    proof {
                        assert(rest.subrange(3, rest.len() as int) =~= b@.subrange(i + 3, b@.len() as int));
                    }
                    i += 3;
                    proof {
                        assert(out@ + pct_bytes(b@.subrange(i as int, b@.len() as int)) =~= out@.drop_last() + pct_bytes(rest));
                    }
                },
                _ => {
                    out.push(0x25);
                    i += 1;
                    proof {
                        assert(out@ + pct_bytes(b@.subrange(i as int, b@.len() as int)) =~= out@.drop_last() + pct_bytes(rest));
                    }
                },
            }
        } else {
            out.push(c);
            i += 1;
            proof {
                assert(out@ + pct_bytes(b@.subrange(i as int, b@.len() as int)) =~= out@.drop_last() + pct_bytes(rest));
            }
        }
    }
    proof {
        assert(b@.subrange(b@.len() as int, b@.len() as int) =~= Seq::<u8>::empty());
        assert(out@ =~= pct_bytes(b@));
    }
    string_from_utf8_lossy(out.as_slice())
}

/// `s.split(c)`: all pieces, empty ones included (`""` gives one empty piece).
pub open spec fn split_all(s: Seq<char>, c: char) -> Seq<Seq<char>>
    decreases s.len(),
{
    if s.len() == 0 {
        seq![Seq::empty()]
    } else {
        let r = split_all(s.drop_last(), c);
        if s.last() == c {
            r.push(Seq::empty())
        } else {
            r.drop_last().push(r.last().push(s.last()))
        }
    }
}

pub(crate) proof fn lemma_split_all_len(s: Seq<char>, c: char)
    ensures
        split_all(s, c).len() >= 1,
    decreases s.len(),
{
    if s.len() > 0 {
        lemma_split_all_len(s.drop_last(), c);
    }
}

/// The pieces of `s` split at every `c`.
pub(crate) fn split_all_exec(s: &Vec<char>, c: char) -> (pieces: Vec<Vec<char>>)
    ensures
        rows_of(pieces@) == split_all(s@, c),
{
    let mut pieces: Vec<Vec<char>> = Vec::new();
    let mut cur: Vec<char> = Vec::new();
    let mut i: usize = 0;
    while i < s.len()
        invariant
            0 <= i <= s@.len(),
            split_all(s@.take(i as int), c) == rows_of(pieces@).push(cur@),
        decreases s@.len() - i,
    {
        let ch = s[i];
        let ghost rows = rows_of(pieces@);
        let ghost cv = cur@;
        proof {
            assert(s@.take(i + 1).drop_last() == s@.take(i as int));
            assert(s@.take(i + 1).last() == ch);
            assert(rows.push(cv).drop_last() =~= rows);
        }
        if ch == c {
            let mut done: Vec<char> = Vec::new();
            std::mem::swap(&mut done, &mut cur);
            pieces.push(done);
            proof {
                assert(rows_of(pieces@) =~= rows.push(cv));
                assert(cur@ =~= Seq::<char>::empty());
            }
        } else {
            cur.push(ch);
        }
        i += 1;
    }
    proof {
        assert(s@.take(s@.len() as int) == s@);
    }
    let ghost rows = rows_of(pieces@);
    let ghost cv = cur@;
    pieces.push(cur);
    proof {
        assert(rows_of(pieces@) =~= rows.push(cv));
    }
    pieces
}

/// The index of the first `c` in `s`, or -1.
pub open spec fn first_index(s: Seq<char>, c: char) -> int
    decreases s.len(),
{
    if s.len() == 0 {
        -1
    } else if s[0] == c {
        0
    } else {
        let r = first_index(s.drop_first(), c);
        if r < 0 { -1 } else { r + 1 }
    }
}

proof fn lemma_first_index(s: Seq<char>, c: char, i: int)
    requires
        0 <= i <= s.len(),
        forall|j: int| 0 <= j < i ==> s[j] != c,
        i == s.len() || s[i] == c,
    ensures
        first_index(s, c) == if i == s.len() { -1 } else { i },
    decreases i,
{
    if i > 0 {
        lemma_first_index(s.drop_first(), c, i - 1);
    }
}

/// The index of the first `c` in `s`, if any.
pub(crate) fn find_char(s: &Vec<char>, c: char) -> (r: Option<usize>)
    ensures
        match r {
            Some(i) => first_index(s@, c) == i && i < s@.len(),
            None => first_index(s@, c) == -1,
        },
{
    let mut i: usize = 0;
    while i < s.len()
        invariant
            0 <= i <= s@.len(),
            forall|j: int| 0 <= j < i ==> s@[j] != c,
        decreases s@.len() - i,
    {
        if s[i] == c {
            proof {
                lemma_first_index(s@, c, i as int);
            }
            return Some(i);
        }
        i += 1;
    }
    proof {
        lemma_first_index(s@, c, i as int);
    }
    None
}

/// The key of a `key=value` piece (the whole piece when it has no `=`).
pub open spec fn piece_key(p: Seq<char>) -> Seq<char> {
    if first_index(p, '=') >= 0 { p.take(first_index(p, '=')) } else { p }
}

/// The raw value of a `key=value` piece (`""` when it has no `=`).
pub open spec fn piece_value(p: Seq<char>) -> Seq<char> {
    if first_index(p, '=') >= 0 { p.skip(first_index(p, '=') + 1) } else { Seq::empty() }
}

/// The raw value of the first piece whose decoded key is `key`.
pub open spec fn lookup_pieces(ps: Seq<Seq<char>>, key: Seq<char>) -> Option<Seq<char>>
    decreases ps.len(),
{
    if ps.len() == 0 {
        None
    } else if pct_text(piece_key(ps[0])) == key {
        Some(piece_value(ps[0]))
    } else {
        lookup_pieces(ps.drop_first(), key)
    }
}

/// The raw (undecoded) value of query parameter `key` in the query string `qs`.
pub open spec fn query_lookup(qs: Seq<char>, key: Seq<char>) -> Option<Seq<char>> {
    lookup_pieces(split_all(qs, '&'), key)
}

proof fn lemma_lookup_pieces(ps: Seq<Seq<char>>, key: Seq<char>, i: int)
    requires
        0 <= i <= ps.len(),
        forall|j: int| 0 <= j < i ==> pct_text(piece_key(#[trigger] ps[j])) != key,
    ensures
        i < ps.len() && pct_text(piece_key(ps[i])) == key ==> lookup_pieces(ps, key) == Some(piece_value(ps[i])),
        i == ps.len() ==> lookup_pieces(ps, key) is None,
    decreases i,
{
    if i > 0 {
        let g = ps.drop_first();
        assert forall|j: int| 0 <= j < i - 1 implies pct_text(piece_key(#[trigger] g[j])) != key by {
            assert(g[j] == ps[j + 1]);
        }
        assert(pct_text(piece_key(ps[0])) != key);
        lemma_lookup_pieces(g, key, i - 1);
        if i < ps.len() {
            assert(g[i - 1] == ps[i]);
        }
    }
}

/// The characters of `v` from index `a` to index `b`.
pub(crate) fn slice_chars(v: &Vec<char>, a: usize, b: usize) -> (r: Vec<char>)
    requires
        a <= b <= v@.len(),
    ensures
        r@ == v@.subrange(a as int, b as int),
{
    let mut r: Vec<char> = Vec::new();
    let mut i: usize = a;
    while i < b
        invariant
            a <= i <= b <= v@.len(),
            r@ == v@.subrange(a as int, i as int),
        decreases b - i,
    {
        r.push(v[i]);
        proof {
            assert(v@.subrange(a as int, i + 1) == v@.subrange(a as int, i as int).push(v@[i as int]));
        }
        i += 1;
    }
    r
}

/// The raw (undecoded) value of query parameter `key` in `qs` (keys compare after decoding).
pub fn lookup_query(qs: &str, key: &str) -> (r: Option<String>)
    ensures
        match r {
            Some(v) => query_lookup(qs@, key@) == Some(v@),
            None => query_lookup(qs@, key@) is None,
        },
{
    let cs = chars_of(qs);
    let pieces = split_all_exec(&cs, '&');
    let ghost ps = rows_of(pieces@);
    let want = key.to_owned();
    let mut i: usize = 0;
    while i < pieces.len()
        invariant
            0 <= i <= pieces@.len(),
            ps == rows_of(pieces@),
            ps == split_all(qs@, '&'),
            want@ == key@,
            forall|j: int| 0 <= j < i ==> pct_text(piece_key(#[trigger] ps[j])) != key@,
        decreases pieces@.len() - i,
    {
        let p = &pieces[i];
        proof {
            assert(ps[i as int] == p@);
        }
        let (k, v) = match find_char(p, '=') {
            Some(e) => {
                let k = slice_chars(p, 0, e);
                let v = slice_chars(p, e + 1, p.len());
                proof {
                    assert(k@ =~= piece_key(p@));
                    assert(v@ =~= piece_value(p@));
                }
                (k, v)
            },
            None => {
                let k = slice_chars(p, 0, p.len());
                proof {
                    assert(k@ =~= piece_key(p@));
                    assert(Seq::<char>::empty() == piece_value(p@));
                }
                (k, Vec::new())
            },
        };
        let ks = string_from(&k);
        let decoded = pct_decode(ks.as_str());
        if decoded == want {
            proof {
                lemma_lookup_pieces(ps, key@, i as int);
            }
            return Some(string_from(&v));
        }
        i += 1;
    }
    proof {
        lemma_lookup_pieces(ps, key@, i as int);
    }
    None
}

/// The decoded value of query parameter `key` (`""` when absent).
pub open spec fn query_text(qs: Seq<char>, key: Seq<char>) -> Seq<char> {
    match query_lookup(qs, key) {
        Some(v) => pct_text(v),
        None => Seq::empty(),
    }
}

/// A reactive view of one query parameter.
pub struct QueryParam {
    pub query: Signal,
    pub key: String,
}

/// Query parameter `key` as a memo over the query signal: for `?q=foo`, `query_param("q")`
/// holds `"foo"` (absent: `""`; the value is percent/`+` decoded).  It is recomputed when
/// the query is set and republished only when the parameter's value changes.
pub fn query_param(rt: &mut Runtime<String>, router: &Router, key: &str) -> (s: Signal)
    requires
        old(rt).wf(),
    ensures
        keeps_graph(*old(rt), *final(rt)),
        old(rt).n_signals() <= s.id < final(rt).n_signals(),
        router.query.id < old(rt).n_signals() ==>
            memo_holds_text(*old(rt), *final(rt), s, query_text(old(rt).value(router.query.id as int)@, key@)),
{
    let view = QueryParam { query: router.query, key: key.to_string() };
    let ghost k = key@;
    let f = move |a: &mut Runtime<String>| -> (r: String)
        requires
            old(a).wf(),
        ensures
            keeps_graph(*old(a), *final(a)),
            final(a).signal_values() == old(a).signal_values(),
            view.query.id < old(a).n_signals() ==> r@ == query_text(old(a).value(view.query.id as int)@, view.key@),
    {
        if view.query.is_in(a) {
            view.get(a)
        } else {
            proof {
                lemma_keeps_refl(*a);
            }
            String::new()
        }
    };
    let s = memo(rt, f);
    proof {
        let q = router.query;
        if q.id < old(rt).n_signals() {
            old(rt).lemma_values();
            old(rt).untracked().lemma_values();
            let txt = query_text(old(rt).value(q.id as int)@, k);
            let (a0, v0) = choose|a0: &mut Runtime<String>, v0: String| {
                &&& *a0 == old(rt).untracked()
                &&& #[trigger] call_ensures(f, (a0,), v0)
                &&& exists|a1: &mut Runtime<String>, v1: String| {
                    &&& memo_starts(*final(a0), *a1, s.id, v0)
                    &&& #[trigger] call_ensures(f, (a1,), v1)
                    &&& exists|mid: Runtime<String>| {
                        &&& #[trigger] publishes(*final(a1), mid, s.id as int, v1)
                        &&& keeps_graph(mid, *final(rt))
                        &&& (mid.pending().len() == 0 ==> *final(rt) == mid)
                    }
                }
            };
            assert(a0.value(q.id as int) == old(rt).value(q.id as int));
            assert(v0@ == txt);
            let (a1, v1) = choose|a1: &mut Runtime<String>, v1: String| {
                &&& memo_starts(*final(a0), *a1, s.id, v0)
                &&& #[trigger] call_ensures(f, (a1,), v1)
                &&& exists|mid: Runtime<String>| {
                    &&& #[trigger] publishes(*final(a1), mid, s.id as int, v1)
                    &&& keeps_graph(mid, *final(rt))
                    &&& (mid.pending().len() == 0 ==> *final(rt) == mid)
                }
            };
            final(a0).lemma_values();
            a1.lemma_values();
            final(a1).lemma_values();
            assert(a1.value(q.id as int) == old(rt).value(q.id as int));
            assert(v1@ == txt);
            assert(final(a1).value(s.id as int) == v0);
            let mid = choose|mid: Runtime<String>| {
                &&& #[trigger] publishes(*final(a1), mid, s.id as int, v1)
                &&& keeps_graph(mid, *final(rt))
                &&& (mid.pending().len() == 0 ==> *final(rt) == mid)
            };
            assert(mid.value(s.id as int)@ == txt);
        }
    }
    s
}

impl QueryParam {
    pub fn get(&self, rt: &mut Runtime<String>) -> (r: String)
        requires
            old(rt).wf(),
            self.query.id < old(rt).n_signals(),
        ensures
            final(rt).wf(),
            r@ == query_text(old(rt).value(self.query.id as int)@, self.key@),
            final(rt).signal_values() == old(rt).signal_values(),
            keeps_graph(*old(rt), *final(rt)),
    {
        let qs = self.query.get(rt);
        match lookup_query(qs.as_str(), self.key.as_str()) {
            Some(v) => pct_decode(v.as_str()),
            None => String::new(),
        }
    }
}

/// A typed reactive query parameter.
pub struct QueryParamAs<T> {
    pub param: QueryParam,
    pub ty: core::marker::PhantomData<T>,
}

/// Query parameter `key` read as a `T` (decoded first; absent or unparsable: as `""` reads).
pub fn query_param_as<T: FromParam>(router: &Router, key: &str) -> (p: QueryParamAs<T>)
    ensures
        p.param.query == router.query,
        p.param.key@ == key@,
{
    QueryParamAs { param: QueryParam { query: router.query, key: key.to_string() }, ty: core::marker::PhantomData }
}

impl<T: FromParam> QueryParamAs<T> {
    pub fn get(&self, rt: &mut Runtime<String>) -> (r: T)
        requires
            old(rt).wf(),
            self.param.query.id < old(rt).n_signals(),
        ensures
            final(rt).wf(),
            T::reads_as(query_text(old(rt).value(self.param.query.id as int)@, self.param.key@), r),
            final(rt).signal_values() == old(rt).signal_values(),
    {
        let s = self.param.get(rt);
        T::from_param(s.as_str())
    }
}

/// Whether a byte is written as itself by `query_encode` (RFC 3986 unreserved).
pub open spec fn unreserved(b: u8) -> bool {
    (0x41 <= b <= 0x5a) || (0x61 <= b <= 0x7a) || (0x30 <= b <= 0x39) || b == 0x2d || b == 0x5f || b == 0x2e || b == 0x7e
}

/// The uppercase hexadecimal digit for `d` (0..=15).
pub open spec fn hex_upper(d: u8) -> char {
    if d < 10 { ((d + 0x30) as u8) as char } else { ((d - 10 + 0x41) as u8) as char }
}

/// The encoding of one byte: itself, or `%XY`.
pub open spec fn enc_byte(b: u8) -> Seq<char> {
    if unreserved(b) { seq![b as char] } else { seq!['%', hex_upper(b / 16), hex_upper(b % 16)] }
}

/// The encoding of a byte sequence.
pub open spec fn enc_bytes(b: Seq<u8>) -> Seq<char>
    decreases b.len(),
{
    if b.len() == 0 { Seq::empty() } else { enc_byte(b[0]) + enc_bytes(b.drop_first()) }
}

fn hex_upper_exec(d: u8) -> (c: char)
    requires
        d < 16,
    ensures
        c == hex_upper(d),
{
    if d < 10 { (d + 0x30) as char } else { (d - 10 + 0x41) as char }
}

/// Percent-encodes a query value (the inverse of the decoding `query_param` applies): the
/// unreserved bytes `A-Z a-z 0-9 - _ . ~` stay, every other byte of the UTF-8 text
/// becomes `%XY` (uppercase hex).
pub fn query_encode(s: &str) -> (r: String)
    ensures
        r@ == enc_bytes(encode_utf8(s@)),
{
    let b = s.as_bytes();
    let mut out: Vec<char> = Vec::new();
    let mut i: usize = 0;
    proof {
        assert(b@.subrange(0, b@.len() as int) =~= b@);
        assert(out@ + enc_bytes(b@) =~= enc_bytes(b@));
    }
    while i < b.len()
        invariant
            0 <= i <= b@.len(),
            b@ == encode_utf8(s@),
            enc_bytes(b@) == out@ + enc_bytes(b@.subrange(i as int, b@.len() as int)),
        decreases b@.len() - i,
    {
        let c = b[i];
        let ghost rest = b@.subrange(i as int, b@.len() as int);
        proof {
            assert(rest[0] == c);
            assert(rest.drop_first() =~= b@.subrange(i + 1, b@.len() as int));
        }
        let ghost before = out@;
        if (0x41 <= c && c <= 0x5a) || (0x61 <= c && c <= 0x7a) || (0x30 <= c && c <= 0x39) || c == 0x2d || c == 0x5f || c == 0x2e || c == 0x7e {
            out.push(c as char);
        } else {
            out.push('%');
            out.push(hex_upper_exec(c / 16));
            out.push(hex_upper_exec(c % 16));
        }
        proof {
            assert(out@ =~= before + enc_byte(c));
        }
        i += 1;
    }
    proof {
        assert(b@.subrange(b@.len() as int, b@.len() as int) =~= Seq::<u8>::empty());
        assert(out@ =~= enc_bytes(b@));
    }
    string_from(&out)
}

/// The bytes of an ASCII character sequence.
pub open spec fn ascii_bytes(q: Seq<char>) -> Seq<u8> {
    Seq::new(q.len(), |i: int| q[i] as u8)
}

proof fn lemma_hex_upper(d: u8)
    requires
        d < 16,
    ensures
        hex_value(hex_upper(d) as u8) == Some(d),
        (hex_upper(d) as u32) < 0x80,
{
    if d < 10 {
        let x: u8 = (d + 0x30) as u8;
        assert((x as char) as u8 == x);
        assert((x as char) as u32 == x);
    } else {
        let x: u8 = (d - 10 + 0x41) as u8;
        assert((x as char) as u8 == x);
        assert((x as char) as u32 == x);
    }
}

proof fn lemma_enc_bytes_ascii(b: Seq<u8>)
    ensures
        is_ascii_chars(enc_bytes(b)),
        pct_bytes(ascii_bytes(enc_bytes(b))) == b,
    decreases b.len(),
{
    if b.len() > 0 {
        let b0 = b[0];
        let rest = b.drop_first();
        lemma_enc_bytes_ascii(rest);
        let x = enc_byte(b0);
        let r = enc_bytes(rest);
        assert(enc_bytes(b) == x + r);
        assert(ascii_bytes(x + r) =~= ascii_bytes(x) + ascii_bytes(r));
        if unreserved(b0) {
            assert((b0 as char) as u8 == b0);
            assert((b0 as char) as u32 == b0);
            assert(ascii_bytes(x) =~= seq![b0]);
            let all = seq![b0] + ascii_bytes(r);
            assert(all.drop_first() =~= ascii_bytes(r));
            assert(pct_bytes(all) == seq![b0] + pct_bytes(ascii_bytes(r)));
            assert(seq![b0] + rest =~= b);
        } else {
            lemma_hex_upper(b0 / 16);
            lemma_hex_upper(b0 % 16);
            assert(ascii_bytes(x) =~= seq![0x25u8, hex_upper(b0 / 16) as u8, hex_upper(b0 % 16) as u8]);
            let all = ascii_bytes(x) + ascii_bytes(r);
            assert(all[0] == 0x25u8);
            assert(all[1] == hex_upper(b0 / 16) as u8);
            assert(all[2] == hex_upper(b0 % 16) as u8);
            assert(all.subrange(3, all.len() as int) =~= ascii_bytes(r));
            assert((b0 / 16) * 16 + b0 % 16 == b0);
            assert(pct_bytes(all) == seq![b0] + pct_bytes(ascii_bytes(r)));
            assert(seq![b0] + rest =~= b);
        }
        assert(is_ascii_chars(x + r)) by {
            assert forall|i: int| 0 <= i < (x + r).len() implies '\0' <= #[trigger] (x + r)[i] <= '\u{7f}' by {
                if i >= x.len() {
                    assert((x + r)[i] == r[i - x.len()]);
                } else if unreserved(b0) {
                    assert((b0 as char) as u32 == b0);
                } else {
                    lemma_hex_upper(b0 / 16);
                    lemma_hex_upper(b0 % 16);
                }
            }
        }
    }
}

/// Decoding undoes `query_encode`: the percent-decoded text of the encoding of `s` is `s`.
pub proof fn law_query_encode_roundtrip(s: Seq<char>)
    ensures
        pct_text(enc_bytes(encode_utf8(s))) == s,
{
    let b = encode_utf8(s);
    let q = enc_bytes(b);
    lemma_enc_bytes_ascii(b);
    is_ascii_chars_encode_utf8(q);
    assert(encode_utf8(q) =~= ascii_bytes(q));
    encode_utf8_valid_utf8(s);
    encode_utf8_decode_utf8(s);
}

// ───────────────────────────── setting the location ─────────────────────────────

/// Writes `v` into `sig` unless it already holds that text (an unchanged write would
/// re-run every parameter reader for nothing).
fn set_if_changed(rt: &mut Runtime<String>, sig: Signal, v: &str) -> (converged: bool)
    requires
        old(rt).wf(),
        sig.id < old(rt).n_signals(),
    ensures
        final(rt).wf(),
        old(rt).value(sig.id as int)@ == v@ ==> *final(rt) == *old(rt) && converged,
        old(rt).value(sig.id as int)@ != v@ && (old(rt).batch_depth() > 0 || old(rt).is_flushing()) ==> {
            &&& converged
            &&& final(rt).value(sig.id as int)@ == v@
            &&& final(rt).n_signals() == old(rt).n_signals()
        },
        keeps_graph(*old(rt), *final(rt)),
        old(rt).value(sig.id as int)@ != v@ && old(rt).batch_depth() == 0 && !old(rt).is_flushing() ==>
            exists|w: String, mid: Runtime<String>| {
                &&& w@ == v@
                &&& Runtime::written(*old(rt), mid, sig.id, w)
                &&& graph_grows(mid, *final(rt))
                &&& (mid.pending().len() == 0 ==> *final(rt) == mid)
            },
        old(rt).batch_depth() == 0 && !old(rt).is_flushing() && old(rt).pending().len() == 0
            && old(rt).subscribers(sig.id as int).len() == 0 ==> {
            &&& converged
            &&& final(rt).value(sig.id as int)@ == v@
            &&& final(rt).run_log() == old(rt).run_log()
        },
{
    let cur = sig.peek(rt);
    let want = v.to_owned();
    if cur == want {
        proof {
            lemma_keeps_refl(*rt);
        }
        true
    } else {
        sig.set(rt, want)
    }
}

/// Sets the current path (before server rendering, or on navigation); nothing happens
/// when it is unchanged.  Returns `false` only when the resulting flush did not settle.
pub fn set_current_path(rt: &mut Runtime<String>, router: &Router, path: &str) -> (converged: bool)
    requires
        router.valid(old(rt)),
    ensures
        final(rt).wf(),
        old(rt).value(router.path.id as int)@ == path@ ==> *final(rt) == *old(rt) && converged,
        old(rt).value(router.path.id as int)@ != path@ && (old(rt).batch_depth() > 0 || old(rt).is_flushing()) ==> {
            &&& converged
            &&& final(rt).value(router.path.id as int)@ == path@
            &&& final(rt).n_signals() == old(rt).n_signals()
        },
        keeps_graph(*old(rt), *final(rt)),
        old(rt).value(router.path.id as int)@ != path@ && old(rt).batch_depth() == 0 && !old(rt).is_flushing() ==>
            exists|w: String, mid: Runtime<String>| {
                &&& w@ == path@
                &&& Runtime::written(*old(rt), mid, router.path.id, w)
                &&& graph_grows(mid, *final(rt))
                &&& (mid.pending().len() == 0 ==> *final(rt) == mid)
            },
        old(rt).batch_depth() == 0 && !old(rt).is_flushing() && old(rt).pending().len() == 0
            && old(rt).subscribers(router.path.id as int).len() == 0 ==> {
            &&& converged
            &&& final(rt).value(router.path.id as int)@ == path@
            &&& final(rt).run_log() == old(rt).run_log()
        },
{
    set_if_changed(rt, router.path, path)
}

/// Sets the current raw query string (no leading `?`); nothing happens when it is unchanged.
pub fn set_current_query(rt: &mut Runtime<String>, router: &Router, query: &str) -> (converged: bool)
    requires
        router.valid(old(rt)),
    ensures
        final(rt).wf(),
        old(rt).value(router.query.id as int)@ == query@ ==> *final(rt) == *old(rt) && converged,
        old(rt).value(router.query.id as int)@ != query@ && (old(rt).batch_depth() > 0 || old(rt).is_flushing()) ==> {
            &&& converged
            &&& final(rt).value(router.query.id as int)@ == query@
            &&& final(rt).n_signals() == old(rt).n_signals()
        },
        keeps_graph(*old(rt), *final(rt)),
        old(rt).value(router.query.id as int)@ != query@ && old(rt).batch_depth() == 0 && !old(rt).is_flushing() ==>
            exists|w: String, mid: Runtime<String>| {
                &&& w@ == query@
                &&& Runtime::written(*old(rt), mid, router.query.id, w)
                &&& graph_grows(mid, *final(rt))
                &&& (mid.pending().len() == 0 ==> *final(rt) == mid)
            },
        old(rt).batch_depth() == 0 && !old(rt).is_flushing() && old(rt).pending().len() == 0
            && old(rt).subscribers(router.query.id as int).len() == 0 ==> {
            &&& converged
            &&& final(rt).value(router.query.id as int)@ == query@
            &&& final(rt).run_log() == old(rt).run_log()
        },
{
    set_if_changed(rt, router.query, query)
}

/// The text before the first `c` (all of `s` when there is none).
pub open spec fn before_char(s: Seq<char>, c: char) -> Seq<char> {
    if first_index(s, c) >= 0 { s.take(first_index(s, c)) } else { s }
}

/// The text after the first `c` (`""` when there is none).
pub open spec fn after_char(s: Seq<char>, c: char) -> Seq<char> {
    if first_index(s, c) >= 0 { s.skip(first_index(s, c) + 1) } else { Seq::empty() }
}

/// Splits a URL into (pathname, query): the `#fragment` is dropped, then the text is cut
/// at the first `?`.
pub fn split_url(full: &str) -> (r: (String, String))
    ensures
        r.0@ == before_char(before_char(full@, '#'), '?'),
        r.1@ == after_char(before_char(full@, '#'), '?'),
{
    let cs = chars_of(full);
    let no_frag = match find_char(&cs, '#') {
        Some(h) => slice_chars(&cs, 0, h),
        None => slice_chars(&cs, 0, cs.len()),
    };
    proof {
        assert(no_frag@ =~= before_char(full@, '#'));
    }
    match find_char(&no_frag, '?') {
        Some(q) => {
            let p = slice_chars(&no_frag, 0, q);
            let rest = slice_chars(&no_frag, q + 1, no_frag.len());
            proof {
                assert(p@ =~= before_char(no_frag@, '?'));
                assert(rest@ =~= after_char(no_frag@, '?'));
            }
            (string_from(&p), string_from(&rest))
        },
        None => {
            proof {
                assert(no_frag@ =~= before_char(no_frag@, '?'));
            }
            (string_from(&no_frag), String::new())
        },
    }
}

// ───────────────────────────── navigation ─────────────────────────────

/// The path part of a URL: the `#fragment` dropped, then the text before the first `?`.
pub open spec fn url_path(full: Seq<char>) -> Seq<char> {
    before_char(before_char(full, '#'), '?')
}

/// The query part of a URL: the `#fragment` dropped, then the text after the first `?`.
pub open spec fn url_query(full: Seq<char>) -> Seq<char> {
    after_char(before_char(full, '#'), '?')
}

/// The page being shown: its route key, and the scope that owns what rendering it built.
pub struct PageState {
    pub key: Option<String>,
    pub scope: Option<Scope>,
}

/// What navigating to a URL does: stay on the page (same route key) or replace it, and
/// the path and query it writes.
pub struct NavPlan {
    pub same_page: bool,
    pub path: String,
    pub query: String,
}

/// The page shown has route key `key`.
pub open spec fn same_key(cur: Option<String>, key: Seq<char>) -> bool {
    cur is Some && cur->0@ == key
}

/// The plan for navigating to `full` when the route for its path has key `new_key`.
pub fn navigate_plan(cur_key: &Option<String>, new_key: &str, full: &str) -> (p: NavPlan)
    ensures
        p.same_page == same_key(*cur_key, new_key@),
        p.path@ == url_path(full@),
        p.query@ == url_query(full@),
{
    let (path, query) = split_url(full);
    let same = match cur_key {
        Some(k) => str_eq(k.as_str(), new_key),
        None => false,
    };
    NavPlan { same_page: same, path, query }
}

/// Whether two texts are equal.
fn str_eq(a: &str, b: &str) -> (r: bool)
    ensures
        r == (a@ == b@),
{
    let x = chars_of(a);
    let y = chars_of(b);
    if x.len() != y.len() {
        return false;
    }
    let mut i: usize = 0;
    while i < x.len()
        invariant
            0 <= i <= x@.len(),
            x@.len() == y@.len(),
            x@ == a@,
            y@ == b@,
            forall|j: int| 0 <= j < i ==> x@[j] == y@[j],
        decreases x@.len() - i,
    {
        if x[i] != y[i] {
            return false;
        }
        i += 1;
    }
    proof {
        assert(x@ =~= y@);
    }
    true
}

/// Disposes the page's scope, if any: its cleanups are invoked, then its effects die.
fn drop_page_scope(rt: &mut Runtime<String>, page: &mut PageState)
    requires
        old(rt).wf(),
    ensures
        final(page).key == old(page).key,
        final(page).scope is None,
        keeps_graph(*old(rt), *final(rt)),
        old(page).scope is None ==> *final(rt) == *old(rt),
        old(page).scope matches Some(sc) ==> {
            &&& cleanups_invoked(*old(rt), *final(rt), sc.cleanups@)
            &&& forall|k: int| 0 <= k < sc.ids@.len() && sc.ids@[k] < old(rt).n_effects()
                ==> !final(rt).is_alive(#[trigger] sc.ids@[k] as int)
        },
{
    let taken = page.scope.take();
    match taken {
        Some(sc) => {
            sc.dispose(rt);
            assert(keeps_graph(*old(rt), *rt));
        },
        None => {
            assert(*rt == *old(rt));
            proof {
                lemma_keeps_refl(*rt);
            }
        },
    }
}

/// Client-side navigation.  On the same page (same route key) only the path and query
/// are written, so the page's readers update in place.  Otherwise the shown page is
/// disposed first (its cleanups are invoked and its effects die before the new path is
/// written, so none of them reruns on it), then path and query are written, the document
/// is cleared with its fetch handlers, and the new key is recorded; the caller then
/// renders the new page in a scope and keeps that scope in `page.scope`.
/// Returns whether the page must be rendered.
pub fn navigate<H>(rt: &mut Runtime<String>, dom: &mut Dom<H>, router: &Router, page: &mut PageState, key: &str, full: &str) -> (render: bool)
    requires
        router.valid(old(rt)),
        old(dom).wf(),
    ensures
        final(rt).wf(),
        keeps_graph(*old(rt), *final(rt)),
        render == !same_key(old(page).key, key@),
        !render ==> *final(dom) == *old(dom) && final(page).key == old(page).key,
        render ==> {
            &&& final(page).key matches Some(k) && k@ == key@
            &&& final(page).scope is None
            &&& final(dom).wf()
            &&& final(dom).root() is None
            &&& final(dom).handlers().len() == 0
            &&& final(dom).nodes() == old(dom).nodes()
            &&& final(dom).responses() == old(dom).responses()
        },
        render ==> exists|mid: Runtime<String>| {
            &&& keeps_graph(*old(rt), mid)
            &&& keeps_graph(mid, *final(rt))
            &&& (old(page).scope is None ==> mid == *old(rt))
            &&& (old(page).scope matches Some(sc) ==> {
                &&& cleanups_invoked(*old(rt), mid, sc.cleanups@)
                &&& forall|k: int| 0 <= k < sc.ids@.len() && sc.ids@[k] < old(rt).n_effects()
                    ==> !mid.is_alive(#[trigger] sc.ids@[k] as int)
            })
        },
{
    let plan = navigate_plan(&page.key, key, full);
    if plan.same_page {
        let _ = set_current_path(rt, router, plan.path.as_str());
        let ghost g1 = *rt;
        let _ = set_current_query(rt, router, plan.query.as_str());
        proof {
            lemma_keeps_trans(*old(rt), g1, *rt);
        }
        return false;
    }
    drop_page_scope(rt, page);
    let ghost mid = *rt;
    let _ = set_current_path(rt, router, plan.path.as_str());
    let ghost g1 = *rt;
    let _ = set_current_query(rt, router, plan.query.as_str());
    proof {
        lemma_keeps_trans(mid, g1, *rt);
        lemma_keeps_trans(*old(rt), mid, *rt);
    }
    clear_page(dom);
    page.key = Some(key.to_owned());
    true
}

/// First render (or a forced re-render) of the page for `full` with route key `key`: the
/// shown page's scope, if any, is disposed first, then path and query are written and the
/// key recorded; the caller renders the page in a scope and keeps it in `page.scope`.
pub fn render_path(rt: &mut Runtime<String>, router: &Router, page: &mut PageState, key: &str, full: &str)
    requires
        router.valid(old(rt)),
    ensures
        final(rt).wf(),
        keeps_graph(*old(rt), *final(rt)),
        final(page).key matches Some(k) && k@ == key@,
        final(page).scope is None,
        exists|mid: Runtime<String>| {
            &&& keeps_graph(*old(rt), mid)
            &&& keeps_graph(mid, *final(rt))
            &&& (old(page).scope is None ==> mid == *old(rt))
            &&& (old(page).scope matches Some(sc) ==> {
                &&& cleanups_invoked(*old(rt), mid, sc.cleanups@)
                &&& forall|k: int| 0 <= k < sc.ids@.len() && sc.ids@[k] < old(rt).n_effects()
                    ==> !mid.is_alive(#[trigger] sc.ids@[k] as int)
            })
        },
{
    let (path, query) = split_url(full);
    drop_page_scope(rt, page);
    let ghost mid = *rt;
    let _ = set_current_path(rt, router, path.as_str());
    let ghost g1 = *rt;
    let _ = set_current_query(rt, router, query.as_str());
    proof {
        lemma_keeps_trans(mid, g1, *rt);
        lemma_keeps_trans(*old(rt), mid, *rt);
    }
    page.key = Some(key.to_owned());
}

/// Mount callbacks run only in the browser, after the nodes are in the document; on the
/// server there is no document and the callback is dropped.
pub fn on_mount<F: FnOnce()>(f: F) {
}

/// Runs the queued mount callbacks: the server queues none.
pub fn flush_mounts() {
}

} // verus!
