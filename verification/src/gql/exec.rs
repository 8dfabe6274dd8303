//! Generic GraphQL executor (server side): read the document, hand every root field to the
//! application's resolver, cut each result down to the selected fields, and assemble the
//! standard `{"data":{...},"errors":[...]}` response.  The executor knows no schema: it works
//! on values and selections only and reaches the application through the resolver.
use vstd::prelude::*;
use vstd::utf8::encode_utf8;
use crate::gql::parser::{self, AVal, Document, Field, FieldM, OpKind, OpM, aval_model, args_model, field_model, fields_model, ops_model, read_ops};
use crate::gql::value::{Value, Json, json_get, json_text, model, lemma_list_decreases, json_i64};
use crate::gql::store::{lemma_object_model, lemma_list_model, lookup, lemma_key_index, lemma_key_index_at, key_index};

verus! {

/// The arguments of a root field, as the resolver sees them.
pub struct Args<'a>(pub &'a [(String, AVal)]);

/// The value of the first argument named `k`.
pub open spec fn arg_value(args: Seq<(Seq<char>, Json)>, k: Seq<char>) -> Option<Json> {
    lookup(args, k)
}

impl<'a> Args<'a> {
    fn find(&self, k: &str) -> (r: Option<usize>)
        ensures
            match r {
                Some(i) => i < self.0@.len() && arg_value(args_model(self.0@), k@) == Some(aval_model(self.0@[i as int].1)),
                None => arg_value(args_model(self.0@), k@) is None,
            },
    {
        let key = k.to_owned();
        let ghost m = args_model(self.0@);
        proof {
            lemma_key_index(m, k@);
        }
        let mut i: usize = 0;
        while i < self.0.len()
            invariant
                0 <= i <= self.0@.len(),
                key@ == k@,
                m == args_model(self.0@),
                forall|j: int| 0 <= j < i ==> m[j].0 != k@,
            decreases self.0@.len() - i,
        {
            if self.0[i].0 == key {
                proof {
                    assert(m[i as int] == (self.0@[i as int].0@, aval_model(self.0@[i as int].1)));
                    lemma_key_index_at(m, k@, i as int);
                    lemma_key_index(m, k@);
                }
                return Some(i);
            }
            proof {
                assert(m[i as int].0 == self.0@[i as int].0@);
            }
            i += 1;
        }
        proof {
            lemma_key_index_at(m, k@, i as int);
            lemma_key_index(m, k@);
        }
        None
    }

    /// The string argument `k` (`""` when missing or not a string).
    pub fn str(&self, k: &str) -> (r: String)
        ensures
            r@ == match arg_value(args_model(self.0@), k@) {
                Some(Json::Str(s)) => s,
                _ => Seq::empty(),
            },
    {
        match self.find(k) {
            Some(i) => match &self.0[i].1 {
                AVal::Str(s) => s.clone(),
                _ => String::new(),
            },
            None => String::new(),
        }
    }

    /// The integer argument `k` (0 when missing; a float argument is not read here).
    /// The integer argument `k`: an integer as is, a float's integer part (toward zero,
    /// saturating), anything else or a missing argument 0.
    pub fn i64(&self, k: &str) -> (r: i64)
        ensures
            r == match arg_value(args_model(self.0@), k@) {
                Some(j) => json_i64(j),
                None => 0,
            },
    {
        match self.find(k) {
            Some(i) => match &self.0[i].1 {
                AVal::Int(n) => *n,
                AVal::Float(t) => {
                    let cs = crate::text::chars_of(t.as_str());
                    crate::gql::number::float_trunc_exec(&cs)
                },
                _ => 0,
            },
            None => 0,
        }
    }

    /// The boolean argument `k` (`true` only for an argument `true`).
    pub fn bool(&self, k: &str) -> (r: bool)
        ensures
            r == (arg_value(args_model(self.0@), k@) == Some(Json::Bool(true))),
    {
        match self.find(k) {
            Some(i) => match &self.0[i].1 {
                AVal::Bool(b) => *b,
                _ => false,
            },
            None => false,
        }
    }
}

/// Reading a resolver parameter of a given type from the arguments.
pub trait FromArg: Sized {
    fn from_arg(args: &Args, name: &str) -> Self;
}

impl FromArg for String {
    fn from_arg(a: &Args, n: &str) -> (r: String)
        ensures
            r@ == match arg_value(args_model(a.0@), n@) {
                Some(Json::Str(s)) => s,
                _ => Seq::empty(),
            },
    {
        a.str(n)
    }
}

impl FromArg for i64 {
    fn from_arg(a: &Args, n: &str) -> (r: i64)
        ensures
            r == match arg_value(args_model(a.0@), n@) {
                Some(j) => json_i64(j),
                None => 0,
            },
    {
        a.i64(n)
    }
}

impl FromArg for bool {
    fn from_arg(a: &Args, n: &str) -> (r: bool)
        ensures
            r == (arg_value(args_model(a.0@), n@) == Some(Json::Bool(true))),
    {
        a.bool(n)
    }
}

/// One root field's resolver, implemented by the application for each field marker.
pub trait Resolve<M> {
    fn resolve(args: &Args) -> Value;
}

/// The placeholder resolver: every field is `null`, nothing is reported.
pub fn empty_resolver(kind: OpKind, field: &str, args: &Args) -> (r: (Value, Vec<String>))
    ensures
        r.0@ == Json::Null,
        r.1@.len() == 0,
{
    (Value::Null, Vec::new())
}

/// Records an error message reported by a resolver for the field it is resolving (it
/// ends up in the response's `errors`, with that field as its path).
pub fn report_error(reported: &mut Vec<String>, message: &str)
    ensures
        final(reported)@.len() == old(reported)@.len() + 1,
        forall|i: int| 0 <= i < old(reported)@.len() ==> final(reported)@[i] == old(reported)@[i],
        final(reported)@[old(reported)@.len() as int]@ == message@,
{
    reported.push(message.to_string());
}

// ───────────────────────────── projection ─────────────────────────────

pub open spec fn typename_key() -> Seq<char> {
    crate::gql::store::typename_key()
}

pub open spec fn id_key() -> Seq<char> {
    crate::gql::store::id_key()
}

/// The key a field's result gets: its alias, else its name.
pub open spec fn result_key(f: FieldM) -> Seq<char> {
    match f.alias {
        Some(a) => a,
        None => f.name,
    }
}

/// `__typename` and `__id` are always kept; an unaliased selection of them is not repeated.
pub open spec fn is_meta_pick(f: FieldM) -> bool {
    f.alias is None && (f.name == typename_key() || f.name == id_key())
}

/// The kept meta fields of an object.
pub open spec fn meta_fields(v: Json) -> Seq<(Seq<char>, Json)> {
    (match json_get(v, typename_key()) {
        Some(t) => seq![(typename_key(), t)],
        None => Seq::empty(),
    }) + (match json_get(v, id_key()) {
        Some(i) => seq![(id_key(), i)],
        None => Seq::empty(),
    })
}

/// The present entries of a sequence of optional entries, in order.
pub open spec fn somes<A>(s: Seq<Option<A>>) -> Seq<A>
    decreases s.len(),
{
    if s.len() == 0 {
        Seq::empty()
    } else {
        match s.last() {
            Some(x) => somes(s.drop_last()).push(x),
            None => somes(s.drop_last()),
        }
    }
}

/// The field of `v` named `k`, `null` when absent.
pub open spec fn field_of(v: Json, k: Seq<char>) -> Json {
    match json_get(v, k) {
        Some(x) => x,
        None => Json::Null,
    }
}

/// A resolver result cut down to the selection: lists element-wise; an object (when
/// something is selected) keeps its meta fields, then each selected field under its result
/// key, projected further when it has a sub-selection; anything else stays.
pub open spec fn project_json(v: Json, sel: Seq<FieldM>) -> Json
    decreases sel, v, 1nat, 0nat,
{
    match v {
        Json::List(xs) => Json::List(Seq::new(xs.len(), |i: int| if 0 <= i < xs.len() { project_json(xs[i], sel) } else { Json::Null })),
        Json::Object(_) => if sel.len() > 0 {
            Json::Object(meta_fields(v) + project_entries(v, sel, sel.len()))
        } else {
            v
        },
        _ => v,
    }
}

/// The entries the first `n` selected fields contribute.
pub open spec fn project_entries(v: Json, sel: Seq<FieldM>, n: nat) -> Seq<(Seq<char>, Json)>
    decreases sel, v, 0nat, n,
{
    if n == 0 || n > sel.len() {
        Seq::empty()
    } else {
        let p = project_entries(v, sel, (n - 1) as nat);
        let f = sel[n - 1];
        if is_meta_pick(f) {
            p
        } else {
            p.push((result_key(f), if f.selection.len() == 0 {
                field_of(v, f.name)
            } else {
                project_json(field_of(v, f.name), f.selection)
            }))
        }
    }
}

proof fn lemma_selection_decreases(sel: Seq<Field>, i: int)
    requires
        0 <= i < sel.len(),
    ensures
        decreases_to!(sel => sel[i].selection@),
{
    assert(decreases_to!(sel => sel[i]));
    assert(decreases_to!(sel[i] => sel[i].selection));
    assert(decreases_to!(sel[i].selection => sel[i].selection@));
}

/// The selection model of a list of fields agrees with the field models.
proof fn lemma_fields_model_index(sel: Seq<Field>, i: int)
    requires
        0 <= i < sel.len(),
    ensures
        fields_model(sel)[i] == field_model(sel[i]),
        field_model(sel[i]).selection == fields_model(sel[i].selection@),
{
    assert(field_model(sel[i]).selection =~= fields_model(sel[i].selection@));
}

fn lit_typename() -> (s: String)
    ensures
        s@ == typename_key(),
{
    let k = "__typename";
    proof {
        reveal_strlit("__typename");
    }
    k.to_owned()
}

fn lit_id() -> (s: String)
    ensures
        s@ == id_key(),
{
    let k = "__id";
    proof {
        reveal_strlit("__id");
    }
    k.to_owned()
}

/// Cuts a resolver result down to the selected fields (see [`project_json`]).
pub fn project(v: &Value, sel: &Vec<Field>) -> (r: Value)
    ensures
        r@ == project_json(v@, fields_model(sel@)),
    decreases sel@, v,
{
    let ghost sm = fields_model(sel@);
    match v {
        Value::List(xs) => {
            proof {
                lemma_list_model(*xs);
            }
            let mut out: Vec<Value> = Vec::new();
            let mut i: usize = 0;
            while i < xs.len()
                invariant
                    *v == Value::List(*xs),
                    0 <= i <= xs@.len(),
                    sm == fields_model(sel@),
                    out@.len() == i,
                    forall|k: int| 0 <= k < i ==> (#[trigger] out@[k])@ == project_json(xs@[k]@, sm),
                decreases xs@.len() - i,
            {
                proof {
                    lemma_list_decreases(*v, i as int);
                }
                out.push(project(&xs[i], sel));
                i += 1;
            }
            let r = Value::List(out);
            proof {
                lemma_list_model(out);
                let xm = Seq::new(xs@.len(), |i: int| xs@[i]@);
                assert(v@ == Json::List(xm));
                let p = project_json(v@, sm);
                assert(p is List);
                assert(p->List_0.len() == xm.len());
                assert forall|k: int| 0 <= k < xm.len() implies #[trigger] p->List_0[k] == out@[k]@ by {
                    assert(p->List_0[k] == project_json(xm[k], sm));
                }
                assert(Seq::new(out@.len(), |i: int| out@[i]@) =~= p->List_0);
                assert(r@ == Json::List(Seq::new(out@.len(), |i: int| out@[i]@)));
                assert(r@ == p);
            }
            r
        },
        Value::Object(_) => {
            if sel.len() == 0 {
                return v.deep_copy();
            }
            let mut out: Vec<(String, Value)> = Vec::new();
            let tk = lit_typename();
            let ik = lit_id();
            match v.get(tk.as_str()) {
                Some(t) => {
                    out.push((tk.clone(), t.deep_copy()));
                },
                None => {},
            }
            match v.get(ik.as_str()) {
                Some(x) => {
                    out.push((ik.clone(), x.deep_copy()));
                },
                None => {},
            }
            proof {
                assert(crate::gql::store::fields_model(out@) =~= meta_fields(v@));
            }
            let mut i: usize = 0;
            while i < sel.len()
                invariant
                    0 <= i <= sel@.len(),
                    sm == fields_model(sel@),
                    sm.len() == sel@.len(),
                    tk@ == typename_key(),
                    ik@ == id_key(),
                    crate::gql::store::fields_model(out@) == meta_fields(v@) + project_entries(v@, sm, i as nat),
                decreases sel@.len() - i,
            {
                let f = &sel[i];
                proof {
                    lemma_fields_model_index(sel@, i as int);
                }
                let meta = f.alias.is_none() && (f.name == tk || f.name == ik);
                if !meta {
                    let fv = v.field(f.name.as_str());
                    let pv = if f.selection.len() == 0 {
                        fv
                    } else {
                        proof {
                            lemma_selection_decreases(sel@, i as int);
                        }
                        project(&fv, &f.selection)
                    };
                    let key = match &f.alias {
                        Some(a) => a.clone(),
                        None => f.name.clone(),
                    };
                    let ghost before = crate::gql::store::fields_model(out@);
                    let ghost entry = (key@, pv@);
                    out.push((key, pv));
                    proof {
                        assert(crate::gql::store::fields_model(out@) =~= before.push(entry));
                    }
                }
                i += 1;
            }
            proof {
                lemma_object_model(out);
            }
            Value::Object(out)
        },
        _ => v.deep_copy(),
    }
}

} // verus!

verus! {

// ───────────────────────────── execution ─────────────────────────────

/// The root fields of a document, with the kind of their operation, in order.
pub open spec fn root_fields(ops: Seq<OpM>) -> Seq<(OpKind, FieldM)>
    decreases ops.len(),
{
    if ops.len() == 0 {
        Seq::empty()
    } else {
        root_fields(ops.drop_last()) + Seq::new(ops.last().selection.len(), |i: int| (ops.last().kind, ops.last().selection[i]))
    }
}

pub open spec fn message_key() -> Seq<char> {
    seq!['m', 'e', 's', 's', 'a', 'g', 'e']
}

pub open spec fn path_key() -> Seq<char> {
    seq!['p', 'a', 't', 'h']
}

/// An entry of `errors`: the message, and the root field as its path when there is one.
pub open spec fn error_entry(msg: Seq<char>, field: Seq<char>) -> Json {
    Json::Object(seq![(message_key(), Json::Str(msg))] + if field.len() > 0 {
        seq![(path_key(), Json::List(seq![Json::Str(field)]))]
    } else {
        Seq::empty()
    })
}

/// The error reported when a non-blank request holds no operation.
pub open spec fn parse_failure_text() -> Seq<char> {
    "无法解析 GraphQL 查询"@
}

/// The response envelope.
pub open spec fn envelope(data: Seq<(Seq<char>, Json)>, errors: Seq<Json>) -> Json {
    Json::Object(seq![(seq!['d', 'a', 't', 'a'], Json::Object(data)), (seq!['e', 'r', 'r', 'o', 'r', 's'], Json::List(errors))])
}

/// What the resolver returned for one root field: its value and the messages it reported.
pub open spec fn outcome_model(o: (Value, Vec<String>)) -> (Json, Seq<Seq<char>>) {
    (o.0@, Seq::new(o.1@.len(), |i: int| o.1@[i]@))
}

/// The models of resolver outcomes.
pub open spec fn outcomes_model(outs: Seq<(Value, Vec<String>)>) -> Seq<(Json, Seq<Seq<char>>)> {
    Seq::new(outs.len(), |i: int| outcome_model(outs[i]))
}

/// The `data` entries for the first `n` root fields.
pub open spec fn data_entries(roots: Seq<(OpKind, FieldM)>, outs: Seq<(Json, Seq<Seq<char>>)>, n: nat) -> Seq<(Seq<char>, Json)>
    decreases n,
{
    if n == 0 || n > roots.len() || n > outs.len() {
        Seq::empty()
    } else {
        data_entries(roots, outs, (n - 1) as nat).push((result_key(roots[n - 1].1), project_json(outs[n - 1].0, roots[n - 1].1.selection)))
    }
}

/// The `errors` entries for the first `n` root fields (each reported message, with the
/// field's name as path).
pub open spec fn error_entries(roots: Seq<(OpKind, FieldM)>, outs: Seq<(Json, Seq<Seq<char>>)>, n: nat) -> Seq<Json>
    decreases n,
{
    if n == 0 || n > roots.len() || n > outs.len() {
        Seq::empty()
    } else {
        error_entries(roots, outs, (n - 1) as nat)
            + Seq::new(outs[n - 1].1.len(), |i: int| error_entry(outs[n - 1].1[i], roots[n - 1].1.name))
    }
}

/// The request is blank (all of it whitespace).
pub open spec fn blank(s: Seq<char>) -> bool {
    forall|i: int| 0 <= i < s.len() ==> crate::dom::is_ws(#[trigger] s[i])
}

/// The response text for a request whose document is `ops`, given the resolver outcomes
/// of its root fields.
pub open spec fn response_json(req: Seq<char>, ops: Seq<OpM>, outs: Seq<(Json, Seq<Seq<char>>)>) -> Json {
    let roots = root_fields(ops);
    let failed = if ops.len() == 0 && !blank(req) { seq![error_entry(parse_failure_text(), Seq::empty())] } else { Seq::empty() };
    envelope(data_entries(roots, outs, roots.len()), failed + error_entries(roots, outs, roots.len()))
}

fn is_blank(s: &str) -> (r: bool)
    ensures
        r == blank(s@),
{
    let cs = crate::text::chars_of(s);
    let mut i: usize = 0;
    while i < cs.len()
        invariant
            0 <= i <= cs@.len(),
            cs@ == s@,
            forall|j: int| 0 <= j < i ==> crate::dom::is_ws(#[trigger] cs@[j]),
        decreases cs@.len() - i,
    {
        let c = cs[i];
        let u = c as u32;
        let ws = (0x09 <= u && u <= 0x0d) || u == 0x20 || u == 0x85 || u == 0xa0 || u == 0x1680 || (0x2000 <= u && u <= 0x200a)
            || u == 0x2028 || u == 0x2029 || u == 0x202f || u == 0x205f || u == 0x3000;
        if !ws {
            proof {
                assert(!crate::dom::is_ws(cs@[i as int]));
            }
            return false;
        }
        i += 1;
    }
    true
}

fn lit(s: &str) -> (r: String)
    ensures
        r@ == s@,
{
    s.to_owned()
}

/// An `errors` entry.
fn error_value(msg: &str, field: &str) -> (v: Value)
    ensures
        v@ == error_entry(msg@, field@),
{
    let mk = "message";
    let pk = "path";
    proof {
        reveal_strlit("message");
        reveal_strlit("path");
        assert(mk@ =~= message_key());
        assert(pk@ =~= path_key());
    }
    let mut fs: Vec<(String, Value)> = Vec::new();
    fs.push((lit(mk), Value::Str(lit(msg))));
    if !field.is_empty() {
        let mut one: Vec<Value> = Vec::new();
        one.push(Value::Str(lit(field)));
        proof {
            lemma_list_model(one);
            assert(Seq::new(one@.len(), |i: int| one@[i]@) =~= seq![Json::Str(field@)]);
        }
        fs.push((lit(pk), Value::List(one)));
    }
    proof {
        lemma_object_model(fs);
        if let Json::Object(w) = error_entry(msg@, field@) {
            assert(crate::gql::store::fields_model(fs@) =~= w);
        }
    }
    Value::Object(fs)
}

/// The root fields of `op`.
pub open spec fn op_roots(op: OpM) -> Seq<(OpKind, FieldM)> {
    Seq::new(op.selection.len(), |i: int| (op.kind, op.selection[i]))
}

proof fn lemma_root_fields_step(ops: Seq<OpM>, m: int)
    requires
        0 <= m < ops.len(),
    ensures
        root_fields(ops.take(m + 1)) == root_fields(ops.take(m)) + op_roots(ops[m]),
{
    assert(ops.take(m + 1).drop_last() =~= ops.take(m));
    assert(ops.take(m + 1).last() == ops[m]);
    assert(Seq::new(ops.take(m + 1).last().selection.len(), |i: int| (ops.take(m + 1).last().kind, ops.take(m + 1).last().selection[i])) =~= op_roots(ops[m]));
}

proof fn lemma_root_fields_prefix(ops: Seq<OpM>, m: int)
    requires
        0 <= m <= ops.len(),
    ensures
        root_fields(ops.take(m)).len() <= root_fields(ops).len(),
        root_fields(ops).take(root_fields(ops.take(m)).len() as int) == root_fields(ops.take(m)),
    decreases ops.len() - m,
{
    if m == ops.len() {
        assert(ops.take(m) =~= ops);
        assert(root_fields(ops).take(root_fields(ops).len() as int) =~= root_fields(ops));
    } else {
        lemma_root_fields_prefix(ops, m + 1);
        lemma_root_fields_step(ops, m);
        let a = root_fields(ops.take(m));
        let b = root_fields(ops.take(m + 1));
        assert(root_fields(ops).take(a.len() as int) =~= b.take(a.len() as int));
        assert(b.take(a.len() as int) =~= a);
    }
}

proof fn lemma_entries_prefix(roots: Seq<(OpKind, FieldM)>, o1: Seq<(Json, Seq<Seq<char>>)>, o2: Seq<(Json, Seq<Seq<char>>)>, n: nat)
    requires
        n <= o1.len(),
        n <= o2.len(),
        forall|i: int| 0 <= i < n ==> o1[i] == o2[i],
    ensures
        data_entries(roots, o1, n) == data_entries(roots, o2, n),
        error_entries(roots, o1, n) == error_entries(roots, o2, n),
    decreases n,
{
    if n > 0 {
        lemma_entries_prefix(roots, o1, o2, (n - 1) as nat);
    }
}

/// Outcome `o` is one that `resolve` may return for root field `root`, called with that
/// field's operation kind, name and arguments.
pub open spec fn outcome_of<R: Fn(OpKind, &str, &Args) -> (Value, Vec<String>)>(
    resolve: R,
    root: (OpKind, FieldM),
    o: (Value, Vec<String>),
) -> bool {
    exists|n: &str, a: &Args| {
        &&& n@ == root.1.name
        &&& args_model(a.0@) == root.1.args
        &&& #[trigger] call_ensures(resolve, (root.0, n, a), o)
    }
}

/// Each outcome in `outs` is one that `resolve` may return for the root field at the same
/// position (see [`outcome_of`]).
pub open spec fn resolved_by<R: Fn(OpKind, &str, &Args) -> (Value, Vec<String>)>(
    resolve: R,
    roots: Seq<(OpKind, FieldM)>,
    outs: Seq<(Value, Vec<String>)>,
) -> bool {
    &&& outs.len() <= roots.len()
    &&& forall|t: int| 0 <= t < outs.len() ==> #[trigger] outcome_of(resolve, roots[t], outs[t])
}

/// Runs a GraphQL request: every root field of every operation goes to `resolve` (its
/// kind, name and arguments), whose value is cut down to the field's selection and stored
/// under the field's alias or name in `data`; the messages the resolver reports go to
/// `errors` with the field as path.  A non-blank request without any operation adds a
/// parse error.
pub fn execute<R: Fn(OpKind, &str, &Args) -> (Value, Vec<String>)>(req: &str, resolve: R) -> (out: String)
    requires
        encode_utf8(req@).len() + 200 <= usize::MAX,
        encode_utf8(req@).len() <= i64::MAX,
        forall|k: OpKind, n: &str, a: &Args| call_requires(resolve, (k, n, a)),
    ensures
        exists|outs: Seq<(Value, Vec<String>)>|
            #[trigger] outcomes_model(outs).len() == root_fields(read_ops(encode_utf8(req@), 0, Seq::empty())).len()
            && resolved_by(resolve, root_fields(read_ops(encode_utf8(req@), 0, Seq::empty())), outs)
            && out@ == json_text(response_json(req@, read_ops(encode_utf8(req@), 0, Seq::empty()), outcomes_model(outs))),
{
    let doc = parser::parse(req);
    let ghost ops = ops_model(doc.ops@);
    let ghost roots = root_fields(ops);
    let mut outs: Vec<(Value, Vec<String>)> = Vec::new();
    let mut o: usize = 0;
    proof {
        assert(ops.take(0) =~= Seq::<OpM>::empty());
        assert(roots.take(0) =~= Seq::<(OpKind, FieldM)>::empty());
    }
    while o < doc.ops.len()
        invariant
            0 <= o <= doc.ops@.len(),
            ops == ops_model(doc.ops@),
            roots == root_fields(ops),
            forall|k: OpKind, n: &str, a: &Args| call_requires(resolve, (k, n, a)),
            outs@.len() == root_fields(ops.take(o as int)).len(),
            root_fields(ops.take(o as int)) == roots.take(outs@.len() as int),
            resolved_by(resolve, roots, outs@),
        decreases doc.ops@.len() - o,
    {
        let op = &doc.ops[o];
        let mut i: usize = 0;
        proof {
            lemma_root_fields_prefix(ops, o as int + 1);
            lemma_root_fields_step(ops, o as int);
            assert(Seq::new(0nat, |t: int| (ops[o as int].kind, ops[o as int].selection[t])) =~= Seq::<(OpKind, FieldM)>::empty());
            assert(root_fields(ops.take(o as int)) + Seq::<(OpKind, FieldM)>::empty() =~= root_fields(ops.take(o as int)));
        }
        while i < op.selection.len()
            invariant
                0 <= i <= op.selection@.len(),
                0 <= o < doc.ops@.len(),
                *op == doc.ops@[o as int],
                ops == ops_model(doc.ops@),
                roots == root_fields(ops),
                forall|k: OpKind, n: &str, a: &Args| call_requires(resolve, (k, n, a)),
                outs@.len() == root_fields(ops.take(o as int)).len() + i,
                roots.take(outs@.len() as int) == root_fields(ops.take(o as int)) + Seq::new(i as nat, |t: int| (ops[o as int].kind, ops[o as int].selection[t])),
                resolved_by(resolve, roots, outs@),
            decreases op.selection@.len() - i,
        {
            let f = &op.selection[i];
            let args = Args(f.args.as_slice());
            let nm = f.name.as_str();
            let res = resolve(op.kind, nm, &args);
            let ghost outs0 = outs@;
            let ghost r0 = res;
            outs.push(res);
            proof {
                let n = outs0.len();
                lemma_root_fields_step(ops, o as int);
                lemma_root_fields_prefix(ops, o as int + 1);
                let pre = root_fields(ops.take(o as int));
                assert(ops[o as int].selection == fields_model(op.selection@));
                assert(ops[o as int].kind == op.kind);
                crate::gql::exec::lemma_fields_model_index(op.selection@, i as int);
                assert(root_fields(ops.take(o + 1)) == pre + op_roots(ops[o as int]));
                assert(roots.take(root_fields(ops.take(o + 1)).len() as int) == root_fields(ops.take(o + 1)));
                assert(roots[n as int] == root_fields(ops.take(o + 1))[n as int]);
                assert(root_fields(ops.take(o + 1))[n as int] == op_roots(ops[o as int])[i as int]);
                assert(roots[n as int] == (op.kind, field_model(*f)));
                assert(roots.take(outs@.len() as int) =~= root_fields(ops.take(o as int)) + Seq::new((i + 1) as nat, |t: int| (ops[o as int].kind, ops[o as int].selection[t])));
                assert(outcome_of(resolve, roots[n as int], r0)) by {
                    assert(nm@ == roots[n as int].1.name);
                    assert(args.0@ == f.args@);
                    assert(args_model(args.0@) == roots[n as int].1.args);
                    assert(call_ensures(resolve, (roots[n as int].0, nm, &args), r0));
                }
                assert(outs@[n as int] == r0);
                assert forall|t: int| 0 <= t < outs@.len() implies #[trigger] outcome_of(resolve, roots[t], outs@[t]) by {
                    if t < n {
                        assert(outs@[t] == outs0[t]);
                    }
                }
            }
            i += 1;
        }
        proof {
            lemma_root_fields_step(ops, o as int);
            assert(Seq::new(op.selection@.len() as nat, |t: int| (ops[o as int].kind, ops[o as int].selection[t])) =~= op_roots(ops[o as int]));
        }
        o += 1;
    }
    proof {
        assert(ops.take(ops.len() as int) =~= ops);
        lemma_root_fields_prefix(ops, ops.len() as int);
        assert(outs@.len() == roots.len());
    }
    let out = assemble(req, &doc, &outs);
    proof {
        assert(ops == read_ops(encode_utf8(req@), 0, Seq::empty()));
        assert(outcomes_model(outs@).len() == roots.len());
    }
    out
}

/// The response to `req` for resolver outcomes given one per root field, in document
/// order; `None` when `outs` does not hold exactly one outcome per root field.
pub fn respond(req: &str, outs: &Vec<(Value, Vec<String>)>) -> (out: Option<String>)
    requires
        encode_utf8(req@).len() + 200 <= usize::MAX,
        encode_utf8(req@).len() <= i64::MAX,
    ensures
        out is Some <==> outs@.len() == root_fields(read_ops(encode_utf8(req@), 0, Seq::empty())).len(),
        out matches Some(t) ==>
            t@ == json_text(response_json(req@, read_ops(encode_utf8(req@), 0, Seq::empty()), outcomes_model(outs@))),
{
    let doc = parser::parse(req);
    if roots_counted(&doc, outs.len()) {
        Some(assemble(req, &doc, outs))
    } else {
        None
    }
}

/// Whether the document has exactly `n` root fields.
fn roots_counted(doc: &Document, n: usize) -> (r: bool)
    ensures
        r == (root_fields(ops_model(doc.ops@)).len() == n),
{
    let ghost ops = ops_model(doc.ops@);
    let mut total: usize = 0;
    let mut o: usize = 0;
    proof {
        assert(ops.take(0) =~= Seq::<OpM>::empty());
    }
    while o < doc.ops.len()
        invariant
            0 <= o <= doc.ops@.len(),
            ops == ops_model(doc.ops@),
            total == root_fields(ops.take(o as int)).len(),
            total <= n,
        decreases doc.ops@.len() - o,
    {
        let k = doc.ops[o].selection.len();
        proof {
            lemma_root_fields_step(ops, o as int);
            lemma_root_fields_prefix(ops, o as int + 1);
            assert(ops[o as int].selection == fields_model(doc.ops@[o as int].selection@));
            assert(op_roots(ops[o as int]).len() == k);
        }
        if k > n - total {
            return false;
        }
        total = total + k;
        o += 1;
    }
    proof {
        assert(ops.take(ops.len() as int) =~= ops);
    }
    total == n
}

/// Builds the response envelope of a parsed request from the outcomes of its root fields.
fn assemble(req: &str, doc: &Document, outs: &Vec<(Value, Vec<String>)>) -> (out: String)
    requires
        outs@.len() == root_fields(ops_model(doc.ops@)).len(),
    ensures
        out@ == json_text(response_json(req@, ops_model(doc.ops@), outcomes_model(outs@))),
{
    let ghost ops = ops_model(doc.ops@);
    let ghost roots = root_fields(ops);
    let ghost m = outcomes_model(outs@);
    let mut errors: Vec<Value> = Vec::new();
    if doc.ops.len() == 0 && !is_blank(req) {
        let empty = "";
        proof {
            reveal_strlit("");
        }
        errors.push(error_value("无法解析 GraphQL 查询", empty));
    }
    let mut data: Vec<(String, Value)> = Vec::new();
    proof {
        assert(crate::gql::store::items_model(errors@) =~= if ops.len() == 0 && !blank(req@) { seq![error_entry(parse_failure_text(), Seq::empty())] } else { Seq::<Json>::empty() });
        assert(ops.take(0) =~= Seq::<OpM>::empty());
        assert(roots.take(0) =~= Seq::<(OpKind, FieldM)>::empty());
        assert(crate::gql::store::items_model(errors@) + Seq::<Json>::empty() =~= crate::gql::store::items_model(errors@));
    }
    let ghost failed = crate::gql::store::items_model(errors@);
    let mut idx: usize = 0;
    let mut o: usize = 0;
    while o < doc.ops.len()
        invariant
            0 <= o <= doc.ops@.len(),
            ops == ops_model(doc.ops@),
            roots == root_fields(ops),
            m == outcomes_model(outs@),
            outs@.len() == roots.len(),
            idx == root_fields(ops.take(o as int)).len(),
            crate::gql::store::fields_model(data@) == data_entries(roots, m, idx as nat),
            crate::gql::store::items_model(errors@) == failed + error_entries(roots, m, idx as nat),
            root_fields(ops.take(o as int)) == roots.take(idx as int),
        decreases doc.ops@.len() - o,
    {
        let op = &doc.ops[o];
        let mut i: usize = 0;
        proof {
            lemma_root_fields_prefix(ops, o as int + 1);
            lemma_root_fields_step(ops, o as int);
            assert(Seq::new(0nat, |t: int| (ops[o as int].kind, ops[o as int].selection[t])) =~= Seq::<(OpKind, FieldM)>::empty());
            assert(root_fields(ops.take(o as int)) + Seq::<(OpKind, FieldM)>::empty() =~= root_fields(ops.take(o as int)));
        }
        while i < op.selection.len()
            invariant
                0 <= i <= op.selection@.len(),
                0 <= o < doc.ops@.len(),
                *op == doc.ops@[o as int],
                ops == ops_model(doc.ops@),
                roots == root_fields(ops),
                m == outcomes_model(outs@),
                outs@.len() == roots.len(),
                idx == root_fields(ops.take(o as int)).len() + i,
                root_fields(ops.take(o as int + 1)).len() <= roots.len(),
                root_fields(ops.take(o as int + 1)) == root_fields(ops.take(o as int)) + op_roots(ops[o as int]),
                crate::gql::store::fields_model(data@) == data_entries(roots, m, idx as nat),
                crate::gql::store::items_model(errors@) == failed + error_entries(roots, m, idx as nat),
                roots.take(idx as int) == root_fields(ops.take(o as int)) + Seq::new(i as nat, |t: int| (ops[o as int].kind, ops[o as int].selection[t])),
            decreases op.selection@.len() - i,
        {
            proof {
                assert(ops[o as int].selection == fields_model(op.selection@));
                assert(op_roots(ops[o as int]).len() == op.selection@.len());
            }
            let f = &op.selection[i];
            let res = &outs[idx];
            let ghost e0 = crate::gql::store::items_model(errors@);
            let mut k: usize = 0;
            proof {
                assert(Seq::new(0nat, |t: int| error_entry(res.1@[t]@, f.name@)) =~= Seq::<Json>::empty());
                assert(e0 + Seq::<Json>::empty() =~= e0);
            }
            while k < res.1.len()
                invariant
                    0 <= k <= res.1@.len(),
                    crate::gql::store::items_model(errors@) == e0 + Seq::new(k as nat, |t: int| error_entry(res.1@[t]@, f.name@)),
                decreases res.1@.len() - k,
            {
                let ghost before = crate::gql::store::items_model(errors@);
                let e = error_value(res.1[k].as_str(), f.name.as_str());
                errors.push(e);
                proof {
                    assert(crate::gql::store::items_model(errors@) =~= before.push(error_entry(res.1@[k as int]@, f.name@)));
                    assert(e0 + Seq::new((k + 1) as nat, |t: int| error_entry(res.1@[t]@, f.name@)) =~= before.push(error_entry(res.1@[k as int]@, f.name@)));
                }
                k += 1;
            }
            let pv = project(&res.0, &f.selection);
            let key = match &f.alias {
                Some(a) => a.clone(),
                None => f.name.clone(),
            };
            let ghost before = crate::gql::store::fields_model(data@);
            let ghost entry = (key@, pv@);
            data.push((key, pv));
            proof {
                let n = idx as int;
                assert(crate::gql::store::fields_model(data@) =~= before.push(entry));
                let pre = root_fields(ops.take(o as int));
                crate::gql::exec::lemma_fields_model_index(op.selection@, i as int);
                assert(roots.take(root_fields(ops.take(o + 1)).len() as int) == root_fields(ops.take(o + 1))) by {
                    lemma_root_fields_prefix(ops, o as int + 1);
                }
                assert(roots[n] == root_fields(ops.take(o + 1))[n]);
                assert(root_fields(ops.take(o + 1))[n] == op_roots(ops[o as int])[i as int]);
                assert(roots[n] == (op.kind, field_model(*f)));
                assert(m[n] == outcome_model(outs@[n]));
                assert(data_entries(roots, m, (n + 1) as nat) == data_entries(roots, m, n as nat).push((result_key(roots[n].1), project_json(m[n].0, roots[n].1.selection))));
                assert(error_entries(roots, m, (n + 1) as nat) == error_entries(roots, m, n as nat) + Seq::new(m[n].1.len(), |t: int| error_entry(m[n].1[t], roots[n].1.name)));
                assert(Seq::new(m[n].1.len(), |t: int| error_entry(m[n].1[t], roots[n].1.name)) =~= Seq::new(res.1@.len() as nat, |t: int| error_entry(res.1@[t]@, f.name@)));
                assert(crate::gql::store::items_model(errors@) =~= failed + error_entries(roots, m, (n + 1) as nat));
                assert(roots.take(n + 1) =~= root_fields(ops.take(o as int)) + Seq::new((i + 1) as nat, |t: int| (ops[o as int].kind, ops[o as int].selection[t])));
            }
            proof {
                assert(outs.len() == outs@.len());
            }
            idx += 1;
            i += 1;
        }
        proof {
            assert(Seq::new(op.selection@.len() as nat, |t: int| (ops[o as int].kind, ops[o as int].selection[t])) =~= op_roots(ops[o as int]));
        }
        o += 1;
    }
    let dk = "data";
    let ek = "errors";
    proof {
        reveal_strlit("data");
        reveal_strlit("errors");
    }
    let mut env: Vec<(String, Value)> = Vec::new();
    env.push((lit(dk), Value::Object(data)));
    env.push((lit(ek), Value::List(errors)));
    let v = Value::Object(env);
    proof {
        assert(ops.take(ops.len() as int) =~= ops);
        crate::gql::store::lemma_list_model(errors);
        assert(Seq::new(errors@.len(), |i: int| errors@[i]@) =~= crate::gql::store::items_model(errors@));
        lemma_object_model(data);
        lemma_object_model(env);
        assert(dk@ =~= seq!['d', 'a', 't', 'a']);
        assert(ek@ =~= seq!['e', 'r', 'r', 'o', 'r', 's']);
        if let Json::Object(w) = response_json(req@, ops, m) {
            assert(crate::gql::store::fields_model(env@) =~= w);
        }
        assert(v@ == response_json(req@, ops, m));
    }
    v.to_json()
}

} // verus!

verus! {

// ───────────────────────────── projection laws ─────────────────────────────

/// `k` may stand in an object projected to `sel`: a meta key, or the result key of a
/// selected (non-meta) field.
pub open spec fn selected_key(k: Seq<char>, sel: Seq<FieldM>) -> bool {
    k == typename_key() || k == id_key()
        || exists|m: int| 0 <= m < sel.len() && !is_meta_pick(sel[m]) && #[trigger] result_key(sel[m]) == k
}

/// Every object of `j` at its top level (`j` itself, or, through lists, any item at any
/// list depth) holds only keys that `sel` lets through.
pub open spec fn only_selected(j: Json, sel: Seq<FieldM>) -> bool
    decreases j, 0nat,
{
    match j {
        Json::List(xs) => only_selected_items(xs, xs.len(), sel),
        Json::Object(fs) => forall|i: int| 0 <= i < fs.len() ==> selected_key(#[trigger] fs[i].0, sel),
        _ => true,
    }
}

/// The first `n` items hold only keys that `sel` lets through (see [`only_selected`]).
pub open spec fn only_selected_items(xs: Seq<Json>, n: nat, sel: Seq<FieldM>) -> bool
    decreases xs, n + 1,
{
    if n == 0 || n > xs.len() {
        true
    } else {
        only_selected_items(xs, (n - 1) as nat, sel) && only_selected(xs[n - 1], sel)
    }
}

proof fn lemma_entries_keys(v: Json, sel: Seq<FieldM>, n: nat)
    ensures
        forall|i: int| 0 <= i < project_entries(v, sel, n).len() ==>
            selected_key(#[trigger] project_entries(v, sel, n)[i].0, sel),
    decreases n,
{
    if n > 0 && n <= sel.len() {
        lemma_entries_keys(v, sel, (n - 1) as nat);
        let p = project_entries(v, sel, (n - 1) as nat);
        let f = sel[n - 1];
        if !is_meta_pick(f) {
            let q = project_entries(v, sel, n);
            assert forall|i: int| 0 <= i < q.len() implies selected_key(#[trigger] q[i].0, sel) by {
                if i < p.len() {
                    assert(q[i] == p[i]);
                } else {
                    assert(q[i].0 == result_key(sel[n - 1]));
                    assert(!is_meta_pick(sel[n - 1]) && result_key(sel[n - 1]) == q[i].0);
                }
            }
        }
    }
}

proof fn lemma_only_selected_items(xs: Seq<Json>, n: nat, sel: Seq<FieldM>)
    requires
        n <= xs.len(),
        forall|i: int| 0 <= i < n ==> only_selected(#[trigger] xs[i], sel),
    ensures
        only_selected_items(xs, n, sel),
    decreases n,
{
    if n > 0 {
        lemma_only_selected_items(xs, (n - 1) as nat, sel);
    }
}

/// Projecting to a non-empty selection lets through only what is selected: every object
/// the result holds at its top level (through lists at any depth) has only meta keys and
/// the result keys of selected fields, so a field that is not selected never appears.
pub proof fn law_project_keeps_only_selected(v: Json, sel: Seq<FieldM>)
    requires
        sel.len() > 0,
    ensures
        only_selected(project_json(v, sel), sel),
    decreases v,
{
    match v {
        Json::List(xs) => {
            let r = project_json(v, sel);
            let ys = r->List_0;
            assert forall|i: int| 0 <= i < ys.len() implies only_selected(#[trigger] ys[i], sel) by {
                assert(ys[i] == project_json(xs[i], sel));
                law_project_keeps_only_selected(xs[i], sel);
            }
            lemma_only_selected_items(ys, ys.len(), sel);
        },
        Json::Object(_) => {
            let m = meta_fields(v);
            let e = project_entries(v, sel, sel.len());
            lemma_entries_keys(v, sel, sel.len());
            let fs = m + e;
            assert forall|i: int| 0 <= i < fs.len() implies selected_key(#[trigger] fs[i].0, sel) by {
                if i < m.len() {
                    assert(fs[i] == m[i]);
                } else {
                    assert(fs[i] == e[i - m.len()]);
                }
            }
        },
        _ => {},
    }
}

/// Projecting a list projects each item: the result is a list of the same length whose
/// `i`-th item is the projection of the `i`-th item.
pub proof fn law_project_list_itemwise(xs: Seq<Json>, sel: Seq<FieldM>)
    ensures
        project_json(Json::List(xs), sel) is List,
        project_json(Json::List(xs), sel)->List_0.len() == xs.len(),
        forall|i: int| 0 <= i < xs.len() ==>
            #[trigger] project_json(Json::List(xs), sel)->List_0[i] == project_json(xs[i], sel),
{
}

/// What selected field `f` contributes for `v`: its value, projected to its own selection
/// when it has one.
pub open spec fn selected_value(v: Json, f: FieldM) -> Json {
    if f.selection.len() == 0 {
        field_of(v, f.name)
    } else {
        project_json(field_of(v, f.name), f.selection)
    }
}

proof fn lemma_entries_hold(v: Json, sel: Seq<FieldM>, n: nat, m: int)
    requires
        0 <= m < n <= sel.len(),
        !is_meta_pick(sel[m]),
    ensures
        project_entries(v, sel, n).contains((result_key(sel[m]), selected_value(v, sel[m]))),
    decreases n,
{
    let p = project_entries(v, sel, (n - 1) as nat);
    let f = sel[n - 1];
    if m < n - 1 {
        lemma_entries_hold(v, sel, (n - 1) as nat, m);
        if !is_meta_pick(f) {
            let x = (result_key(sel[m]), selected_value(v, sel[m]));
            let w = choose|w: int| 0 <= w < p.len() && p[w] == x;
            assert(project_entries(v, sel, n)[w] == x);
        }
    } else {
        let q = project_entries(v, sel, n);
        assert(q[p.len() as int] == (result_key(f), selected_value(v, f)));
    }
}

/// Projecting an object to a non-empty selection keeps what is asked for: every selected
/// (non-meta) field stands under its result key with its value (projected to its own
/// selection), and `__typename` and `__id` stay when the object has them.
pub proof fn law_project_keeps_selected(v: Json, sel: Seq<FieldM>, m: int)
    requires
        v is Object,
        sel.len() > 0,
        0 <= m < sel.len(),
    ensures
        !is_meta_pick(sel[m]) ==>
            project_json(v, sel)->Object_0.contains((result_key(sel[m]), selected_value(v, sel[m]))),
        json_get(v, typename_key()) matches Some(t) ==> project_json(v, sel)->Object_0.contains((typename_key(), t)),
        json_get(v, id_key()) matches Some(t) ==> project_json(v, sel)->Object_0.contains((id_key(), t)),
{
    let mf = meta_fields(v);
    let e = project_entries(v, sel, sel.len());
    let r = project_json(v, sel)->Object_0;
    assert(r == mf + e);
    if !is_meta_pick(sel[m]) {
        lemma_entries_hold(v, sel, sel.len(), m);
        let x = (result_key(sel[m]), selected_value(v, sel[m]));
        let w = choose|w: int| 0 <= w < e.len() && e[w] == x;
        assert(r[mf.len() + w] == x);
    }
    if let Some(t) = json_get(v, typename_key()) {
        assert(r[0] == (typename_key(), t));
    }
    if let Some(t) = json_get(v, id_key()) {
        let a: Seq<(Seq<char>, Json)> = match json_get(v, typename_key()) { Some(t0) => seq![(typename_key(), t0)], None => Seq::empty() };
        assert(r[a.len() as int] == (id_key(), t));
    }
}

} // verus!
