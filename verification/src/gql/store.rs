//! Normalized cache (Relay style), used by queries on both ends.
//!
//! An entity is an object carrying `__typename` and `__id`; its key is `"Type:id"`.
//! Responses are normalized into the store: every entity object (nested ones too) is
//! merged into its record (later fields overwrite earlier ones, new fields accumulate)
//! and replaced by `{"$ref": key}` in its parent.  Every write bumps the version counter
//! of the records it touched, which is what views watch to refresh.  Reading an entity
//! inlines the references again.  Paginated connections are records too: their edges
//! are appended (deduplicated by cursor) or replaced page by page.
use vstd::prelude::*;
use crate::gql::value::{Value, Json, model, field_lookup, json_get, int_text, push_int, lemma_list_decreases, lemma_object_decreases};
use crate::text::string_from;
use crate::reactive::{Runtime, Signal, keeps_graph, graph_grows, new_runs, lemma_keeps_refl, lemma_keeps_trans};

verus! {

// ───────────────────────────── field lists ─────────────────────────────

/// The value of the first pair with key `k`.
pub open spec fn lookup<V>(fs: Seq<(Seq<char>, V)>, k: Seq<char>) -> Option<V>
    decreases fs.len(),
{
    if fs.len() == 0 {
        None
    } else if fs[0].0 == k {
        Some(fs[0].1)
    } else {
        lookup(fs.drop_first(), k)
    }
}

/// `lookup` on field lists is the object-field lookup of the value model.
pub proof fn lemma_lookup_fields(fs: Seq<(Seq<char>, Json)>, k: Seq<char>)
    ensures
        lookup(fs, k) == field_lookup(fs, k),
    decreases fs.len(),
{
    if fs.len() > 0 {
        lemma_lookup_fields(fs.drop_first(), k);
    }
}

/// The index of the first pair with key `k`, or -1.
pub open spec fn key_index<V>(fs: Seq<(Seq<char>, V)>, k: Seq<char>) -> int
    decreases fs.len(),
{
    if fs.len() == 0 {
        -1
    } else if fs[0].0 == k {
        0
    } else {
        let r = key_index(fs.drop_first(), k);
        if r < 0 { -1 } else { r + 1 }
    }
}

/// Sets the first pair with key `k` to `(k, v)`, or appends `(k, v)`.
pub open spec fn set_field<V>(fs: Seq<(Seq<char>, V)>, k: Seq<char>, v: V) -> Seq<(Seq<char>, V)> {
    if key_index(fs, k) >= 0 {
        fs.update(key_index(fs, k), (k, v))
    } else {
        fs.push((k, v))
    }
}

/// `dst` with every field of `src` set, in order (later writes win).
pub open spec fn merge_fields(dst: Seq<(Seq<char>, Json)>, src: Seq<(Seq<char>, Json)>) -> Seq<(Seq<char>, Json)>
    decreases src.len(),
{
    if src.len() == 0 {
        dst
    } else {
        set_field(merge_fields(dst, src.drop_last()), src.last().0, src.last().1)
    }
}

/// The value of the last pair with key `k`.
pub open spec fn last_binding(fs: Seq<(Seq<char>, Json)>, k: Seq<char>) -> Option<Json>
    decreases fs.len(),
{
    if fs.len() == 0 {
        None
    } else if fs.last().0 == k {
        Some(fs.last().1)
    } else {
        last_binding(fs.drop_last(), k)
    }
}

/// The keys of a pair list.
pub open spec fn keys_of_pairs<V>(fs: Seq<(Seq<char>, V)>) -> Seq<Seq<char>> {
    Seq::new(fs.len(), |i: int| fs[i].0)
}

pub proof fn lemma_key_index<V>(fs: Seq<(Seq<char>, V)>, k: Seq<char>)
    ensures
        -1 <= key_index(fs, k) < fs.len(),
        key_index(fs, k) >= 0 ==> fs[key_index(fs, k)].0 == k,
        key_index(fs, k) >= 0 ==> forall|j: int| 0 <= j < key_index(fs, k) ==> fs[j].0 != k,
        key_index(fs, k) < 0 ==> forall|j: int| 0 <= j < fs.len() ==> fs[j].0 != k,
        lookup(fs, k) == if key_index(fs, k) >= 0 { Some(fs[key_index(fs, k)].1) } else { None },
    decreases fs.len(),
{
    if fs.len() > 0 && fs[0].0 != k {
        lemma_key_index(fs.drop_first(), k);
        assert forall|j: int| 0 < j < fs.len() implies fs[j] == fs.drop_first()[j - 1] by {}
    }
}

/// The first index `i` whose key is `k`, when the earlier keys differ.
pub proof fn lemma_key_index_at<V>(fs: Seq<(Seq<char>, V)>, k: Seq<char>, i: int)
    requires
        0 <= i <= fs.len(),
        forall|j: int| 0 <= j < i ==> fs[j].0 != k,
        i == fs.len() || fs[i].0 == k,
    ensures
        key_index(fs, k) == if i == fs.len() { -1 } else { i },
    decreases i,
{
    if i > 0 {
        let g = fs.drop_first();
        assert forall|j: int| 0 <= j < i - 1 implies g[j].0 != k by {
            assert(g[j] == fs[j + 1]);
        }
        lemma_key_index_at(g, k, i - 1);
    }
}

/// What a lookup sees after `set_field`.
pub proof fn lemma_set_field_lookup<V>(fs: Seq<(Seq<char>, V)>, k: Seq<char>, v: V, k2: Seq<char>)
    ensures
        lookup(set_field(fs, k, v), k2) == if k2 == k { Some(v) } else { lookup(fs, k2) },
{
    lemma_key_index(fs, k);
    lemma_key_index(fs, k2);
    let g = set_field(fs, k, v);
    lemma_key_index(g, k2);
    let i = key_index(fs, k);
    let i2 = key_index(fs, k2);
    let j2 = key_index(g, k2);
    if k2 == k {
        if i >= 0 {
            assert(g[i].0 == k);
            if j2 >= 0 && j2 < i {
                assert(g[j2] == fs[j2]);
            }
            assert(j2 >= 0 && j2 <= i);
        } else {
            assert(g[fs.len() as int].0 == k);
            if j2 >= 0 && j2 < fs.len() {
                assert(g[j2] == fs[j2]);
            }
        }
    } else {
        if i >= 0 {
            // position i holds key k != k2 in both
            if i2 >= 0 {
                assert(g[i2] == fs[i2]);
                if j2 >= 0 && j2 < i2 {
                    if j2 != i {
                        assert(g[j2] == fs[j2]);
                    }
                }
            } else {
                if j2 >= 0 {
                    if j2 != i {
                        assert(g[j2] == fs[j2]);
                    }
                }
            }
        } else {
            if i2 >= 0 {
                assert(g[i2] == fs[i2]);
                if j2 >= 0 && j2 < i2 {
                    assert(g[j2] == fs[j2]);
                }
            } else if j2 >= 0 {
                if j2 < fs.len() {
                    assert(g[j2] == fs[j2]);
                }
            }
        }
    }
}

/// Merging is last-write-wins per field: a field that `src` sets reads its last value in
/// `src`; any other field reads as it did in `dst`.
pub proof fn law_merge_last_write_wins(dst: Seq<(Seq<char>, Json)>, src: Seq<(Seq<char>, Json)>, k: Seq<char>)
    ensures
        field_lookup(merge_fields(dst, src), k) == match last_binding(src, k) {
            Some(v) => Some(v),
            None => field_lookup(dst, k),
        },
    decreases src.len(),
{
    if src.len() > 0 {
        law_merge_last_write_wins(dst, src.drop_last(), k);
        lemma_set_field_lookup(merge_fields(dst, src.drop_last()), src.last().0, src.last().1, k);
        lemma_lookup_fields(merge_fields(dst, src.drop_last()), k);
        lemma_lookup_fields(merge_fields(dst, src), k);
    } else {
        lemma_lookup_fields(dst, k);
    }
}

// ───────────────────────────── entity keys ─────────────────────────────

pub open spec fn typename_key() -> Seq<char> {
    seq!['_', '_', 't', 'y', 'p', 'e', 'n', 'a', 'm', 'e']
}

pub open spec fn id_key() -> Seq<char> {
    seq!['_', '_', 'i', 'd']
}

pub open spec fn ref_key() -> Seq<char> {
    seq!['$', 'r', 'e', 'f']
}

pub open spec fn str_or_empty(j: Json) -> Seq<char> {
    match j {
        Json::Str(s) => s,
        _ => Seq::empty(),
    }
}

/// The key segment of a scalar id: a non-empty string as is, a number or a boolean as text.
pub open spec fn scalar_key(j: Json) -> Option<Seq<char>> {
    match j {
        Json::Str(s) => if s.len() > 0 { Some(s) } else { None },
        Json::Int(n) => Some(int_text(n)),
        Json::Float(t) => Some(t),
        Json::Bool(b) => Some(if b { seq!['t', 'r', 'u', 'e'] } else { seq!['f', 'a', 'l', 's', 'e'] }),
        _ => None,
    }
}

/// `"Type:id"` for an object with a non-empty string `__typename` and a scalar `__id`.
pub open spec fn entity_key(j: Json) -> Option<Seq<char>> {
    match json_get(j, typename_key()) {
        None => None,
        Some(t) => if str_or_empty(t).len() == 0 {
            None
        } else {
            match json_get(j, id_key()) {
                None => None,
                Some(i) => match scalar_key(i) {
                    None => None,
                    Some(id) => Some(str_or_empty(t) + seq![':'] + id),
                },
            }
        },
    }
}

fn lit_typename() -> (s: String)
    ensures
        s@ == typename_key(),
{
    let k = "__typename";
    proof {
        reveal_strlit("__typename");
    }
    k.to_owned()
}

fn lit_id() -> (s: String)
    ensures
        s@ == id_key(),
{
    let k = "__id";
    proof {
        reveal_strlit("__id");
    }
    k.to_owned()
}

fn lit_ref() -> (s: String)
    ensures
        s@ == ref_key(),
{
    let k = "$ref";
    proof {
        reveal_strlit("$ref");
    }
    k.to_owned()
}

fn append_chars(out: &mut Vec<char>, s: &str)
    ensures
        final(out)@ == old(out)@ + s@,
{
    let cs = crate::text::chars_of(s);
    let ghost start = out@;
    let mut i: usize = 0;
    while i < cs.len()
        invariant
            0 <= i <= cs@.len(),
            out@ == start + cs@.take(i as int),
        decreases cs@.len() - i,
    {
        out.push(cs[i]);
        proof {
            assert(cs@.take(i + 1) == cs@.take(i as int).push(cs@[i as int]));
        }
        i += 1;
    }
    proof {
        assert(cs@.take(cs@.len() as int) == cs@);
    }
}

/// The key segment of a scalar id.
pub fn scalar_key_of(v: &Value) -> (r: Option<String>)
    ensures
        match r {
            Some(s) => scalar_key(v@) == Some(s@),
            None => scalar_key(v@) is None,
        },
{
    match v {
        Value::Str(s) => if !s.as_str().is_empty() {
            Some(s.clone())
        } else {
            None
        },
        Value::Int(n) => {
            let mut out: Vec<char> = Vec::new();
            push_int(&mut out, *n);
            proof {
                assert(out@ =~= int_text(*n as int));
            }
            Some(string_from(&out))
        },
        Value::Float(t) => Some(t.clone()),
        Value::Bool(b) => {
            let mut out: Vec<char> = Vec::new();
            if *b {
                append_chars(&mut out, "true");
                proof {
                    reveal_strlit("true");
                }
            } else {
                append_chars(&mut out, "false");
                proof {
                    reveal_strlit("false");
                }
            }
            proof {
                assert(out@ =~= scalar_key(v@)->0);
            }
            Some(string_from(&out))
        },
        _ => None,
    }
}

/// The entity key `"Type:id"` of an object, when it has one.
pub fn entity_key_of(obj: &Value) -> (r: Option<String>)
    ensures
        match r {
            Some(s) => entity_key(obj@) == Some(s@),
            None => entity_key(obj@) is None,
        },
{
    let tk = lit_typename();
    let t = match obj.get(tk.as_str()) {
        Some(t) => t,
        None => return None,
    };
    let tn = t.as_str();
    if tn.is_empty() {
        proof {
            assert(str_or_empty(t@).len() == 0);
        }
        return None;
    }
    let ik = lit_id();
    let i = match obj.get(ik.as_str()) {
        Some(i) => i,
        None => return None,
    };
    match scalar_key_of(i) {
        Some(id) => {
            let mut out: Vec<char> = Vec::new();
            append_chars(&mut out, tn);
            out.push(':');
            append_chars(&mut out, id.as_str());
            proof {
                assert(out@ =~= str_or_empty(t@) + seq![':'] + id@);
            }
            Some(string_from(&out))
        },
        None => None,
    }
}

// ───────────────────────────── the store ─────────────────────────────

/// The model of a list of `(name, value)` pairs.
pub open spec fn fields_model(fs: Seq<(String, Value)>) -> Seq<(Seq<char>, Json)> {
    Seq::new(fs.len(), |i: int| (fs[i].0@, fs[i].1@))
}

/// The model of a list of `(name, counter)` pairs.
pub open spec fn counters_model(fs: Seq<(String, u64)>) -> Seq<(Seq<char>, u64)> {
    Seq::new(fs.len(), |i: int| (fs[i].0@, fs[i].1))
}

pub proof fn lemma_object_model(fs: Vec<(String, Value)>)
    ensures
        model(Value::Object(fs)) == Json::Object(fields_model(fs@)),
{
    if let Json::Object(m) = model(Value::Object(fs)) {
        assert(m =~= fields_model(fs@));
    }
}

/// The index of the first pair named `k`.
fn find_name<V>(fs: &Vec<(String, V)>, k: &String) -> (r: Option<usize>)
    ensures
        match r {
            Some(i) => i < fs@.len() && fs@[i as int].0@ == k@ && forall|j: int| 0 <= j < i ==> fs@[j].0@ != k@,
            None => forall|j: int| 0 <= j < fs@.len() ==> fs@[j].0@ != k@,
        },
{
    let mut i: usize = 0;
    while i < fs.len()
        invariant
            0 <= i <= fs@.len(),
            forall|j: int| 0 <= j < i ==> fs@[j].0@ != k@,
        decreases fs@.len() - i,
    {
        if fs[i].0 == *k {
            return Some(i);
        }
        i += 1;
    }
    None
}

/// Sets field `k` of a field list to `v` (first occurrence, else appended).
fn set_field_exec(fs: &mut Vec<(String, Value)>, k: String, v: Value)
    ensures
        fields_model(final(fs)@) == set_field(fields_model(old(fs)@), k@, v@),
{
    let ghost m = fields_model(fs@);
    match find_name(fs, &k) {
        Some(i) => {
            proof {
                lemma_key_index_at(m, k@, i as int);
            }
            let ghost kv = k@;
            let ghost vv = v@;
            let mut slot = (k, v);
            fs.set_and_swap(i, &mut slot);
            proof {
                assert(fields_model(fs@) =~= m.update(i as int, (kv, vv)));
            }
        },
        None => {
            proof {
                lemma_key_index_at(m, k@, m.len() as int);
            }
            let ghost kv = k@;
            let ghost vv = v@;
            fs.push((k, v));
            proof {
                assert(fields_model(fs@) =~= m.push((kv, vv)));
            }
        },
    }
}

/// A record after merging `obj` into it: two objects merge field by field (later writes
/// win), anything else leaves the record as it is.
pub open spec fn merged(cur: Json, obj: Json) -> Json {
    match (cur, obj) {
        (Json::Object(d), Json::Object(s)) => Json::Object(merge_fields(d, s)),
        _ => cur,
    }
}

pub open spec fn empty_object() -> Json {
    Json::Object(Seq::empty())
}

/// Records by key, plus a version counter per key that every write to the record bumps.
pub struct Store {
    entities: Vec<(String, Value)>,
    versions: Vec<(String, u64)>,
}

impl Store {
    /// The records, in insertion order.
    pub closed spec fn records(&self) -> Seq<(Seq<char>, Json)> {
        fields_model(self.entities@)
    }

    /// The version counters.
    pub closed spec fn counters(&self) -> Seq<(Seq<char>, u64)> {
        counters_model(self.versions@)
    }

    /// The record stored under `k`.
    pub open spec fn entity(&self, k: Seq<char>) -> Option<Json> {
        lookup(self.records(), k)
    }

    /// The version of `k` (0 before its first write).
    pub open spec fn version_of(&self, k: Seq<char>) -> u64 {
        match lookup(self.counters(), k) {
            Some(n) => n,
            None => 0,
        }
    }

    /// No key is stored twice.
    pub open spec fn wf(&self) -> bool {
        &&& crate::seqs::no_dup(keys_of_pairs(self.records()))
        &&& crate::seqs::no_dup(keys_of_pairs(self.counters()))
    }

    /// An empty store.
    pub fn new() -> (s: Store)
        ensures
            s.wf(),
            s.records().len() == 0,
            s.counters().len() == 0,
    {
        let s = Store { entities: Vec::new(), versions: Vec::new() };
        proof {
            assert(keys_of_pairs(s.records()) =~= Seq::<Seq<char>>::empty());
            assert(keys_of_pairs(s.counters()) =~= Seq::<Seq<char>>::empty());
        }
        s
    }

    /// Empties the records and the counters (before each server render).
    pub fn reset(&mut self)
        ensures
            final(self).wf(),
            final(self).records().len() == 0,
            final(self).counters().len() == 0,
            forall|k: Seq<char>| #[trigger] final(self).version_of(k) == 0,
            forall|k: Seq<char>| #[trigger] lookup(final(self).records(), k) is None,
    {
        *self = Store::new();
    }

    /// The version of `key`.
    pub fn version(&self, key: &str) -> (n: u64)
        ensures
            n == self.version_of(key@),
    {
        let k = key.to_owned();
        match find_name(&self.versions, &k) {
            Some(i) => {
                proof {
                    lemma_key_index_at(self.counters(), key@, i as int);
                    lemma_key_index(self.counters(), key@);
                }
                self.versions[i].1
            },
            None => {
                proof {
                    lemma_key_index_at(self.counters(), key@, self.counters().len() as int);
                    lemma_key_index(self.counters(), key@);
                }
                0
            },
        }
    }

    /// A copy of the record under `key`, as stored (references not inlined).
    pub fn raw(&self, key: &str) -> (r: Option<Value>)
        ensures
            match r {
                Some(v) => self.entity(key@) == Some(v@),
                None => self.entity(key@) is None,
            },
    {
        let k = key.to_owned();
        match find_name(&self.entities, &k) {
            Some(i) => {
                proof {
                    lemma_key_index_at(self.records(), key@, i as int);
                    lemma_key_index(self.records(), key@);
                }
                Some(self.entities[i].1.deep_copy())
            },
            None => {
                proof {
                    lemma_key_index_at(self.records(), key@, self.records().len() as int);
                    lemma_key_index(self.records(), key@);
                }
                None
            },
        }
    }

    /// Sets record `key` to `v`.
    fn put(&mut self, key: String, v: Value)
        requires
            old(self).wf(),
        ensures
            final(self).wf(),
            final(self).records() == set_field(old(self).records(), key@, v@),
            final(self).counters() == old(self).counters(),
    {
        let ghost before = self.records();
        proof {
            lemma_key_index(before, key@);
        }
        set_field_exec(&mut self.entities, key, v);
        proof {
            lemma_set_field_keys(before, key@, v@);
        }
    }

    /// Bumps the version of `key` (saturating at `u64::MAX`).
    pub fn bump(&mut self, key: &str)
        requires
            old(self).wf(),
        ensures
            final(self).wf(),
            final(self).records() == old(self).records(),
            final(self).counters() == set_field(old(self).counters(), key@, sat_inc(old(self).version_of(key@))),
    {
        let k = key.to_owned();
        let ghost m = self.counters();
        proof {
            lemma_key_index(m, key@);
        }
        match find_name(&self.versions, &k) {
            Some(i) => {
                proof {
                    lemma_key_index_at(m, key@, i as int);
                }
                let n = self.versions[i].1;
                let n2 = if n < u64::MAX { n + 1 } else { n };
                let mut slot = (k, n2);
                self.versions.set_and_swap(i, &mut slot);
                proof {
                    assert(self.counters() =~= m.update(i as int, (key@, n2)));
                }
            },
            None => {
                proof {
                    lemma_key_index_at(m, key@, m.len() as int);
                }
                self.versions.push((k, 1));
                proof {
                    assert(self.counters() =~= m.push((key@, 1u64)));
                }
            },
        }
        proof {
            lemma_set_field_keys(m, key@, sat_inc(old(self).version_of(key@)));
        }
    }

    /// Bumps the versions of `keys`, in order.
    pub fn bump_all(&mut self, keys: &Vec<String>)
        requires
            old(self).wf(),
        ensures
            final(self).wf(),
            final(self).records() == old(self).records(),
            final(self).counters() == bumped(old(self).counters(), strings_model(keys@)),
    {
        let mut i: usize = 0;
        while i < keys.len()
            invariant
                0 <= i <= keys@.len(),
                self.wf(),
                self.records() == old(self).records(),
                self.counters() == bumped(old(self).counters(), strings_model(keys@).take(i as int)),
            decreases keys@.len() - i,
        {
            proof {
                assert(strings_model(keys@).take(i + 1).drop_last() =~= strings_model(keys@).take(i as int));
                assert(strings_model(keys@).take(i + 1).last() == keys@[i as int]@);
            }
            self.bump(keys[i].as_str());
            i += 1;
        }
        proof {
            assert(strings_model(keys@).take(keys@.len() as int) =~= strings_model(keys@));
        }
    }

    /// Merges the fields of `obj` into record `key` (created empty when missing): later
    /// writes win, other fields stay, so queries selecting different fields accumulate.
    pub fn merge_into(&mut self, key: &str, obj: &Value)
        requires
            old(self).wf(),
        ensures
            final(self).wf(),
            final(self).records() == set_field(old(self).records(), key@,
                merged(match old(self).entity(key@) { Some(c) => c, None => empty_object() }, obj@)),
            final(self).counters() == old(self).counters(),
    {
        let k = key.to_owned();
        let ghost cur = match self.entity(key@) { Some(c) => c, None => empty_object() };
        let base = match self.raw(key) {
            Some(v) => v,
            None => {
                let e: Vec<(String, Value)> = Vec::new();
                proof {
                    lemma_object_model(e);
                    assert(fields_model(e@) =~= Seq::<(Seq<char>, Json)>::empty());
                }
                Value::Object(e)
            },
        };
        let next = match base {
            Value::Object(mut dst) => {
                match obj {
                    Value::Object(src) => {
                        let ghost d0 = fields_model(dst@);
                        proof {
                            lemma_object_model(dst);
                        }
                        let mut i: usize = 0;
                        while i < src.len()
                            invariant
                                0 <= i <= src@.len(),
                                fields_model(dst@) == merge_fields(d0, fields_model(src@).take(i as int)),
                            decreases src@.len() - i,
                        {
                            proof {
                                assert(fields_model(src@).take(i + 1).drop_last() =~= fields_model(src@).take(i as int));
                                assert(fields_model(src@).take(i + 1).last() == (src@[i as int].0@, src@[i as int].1@));
                            }
                            let fk = src[i].0.clone();
                            let fv = src[i].1.deep_copy();
                            set_field_exec(&mut dst, fk, fv);
                            i += 1;
                        }
                        proof {
                            assert(fields_model(src@).take(src@.len() as int) =~= fields_model(src@));
                            lemma_object_model(*src);
                            lemma_object_model(dst);
                        }
                        Value::Object(dst)
                    },
                    _ => Value::Object(dst),
                }
            },
            other => other,
        };
        proof {
            assert(next@ == merged(cur, obj@));
        }
        self.put(k, next);
    }
}

/// `n + 1`, saturating.
pub open spec fn sat_inc(n: u64) -> u64 {
    if n < u64::MAX { (n + 1) as u64 } else { n }
}

/// The characters of a list of strings.
pub open spec fn strings_model(v: Seq<String>) -> Seq<Seq<char>> {
    Seq::new(v.len(), |i: int| v[i]@)
}

/// The counters after bumping `keys` in order.
pub open spec fn bumped(cs: Seq<(Seq<char>, u64)>, keys: Seq<Seq<char>>) -> Seq<(Seq<char>, u64)>
    decreases keys.len(),
{
    if keys.len() == 0 {
        cs
    } else {
        let prev = bumped(cs, keys.drop_last());
        let k = keys.last();
        set_field(prev, k, sat_inc(match lookup(prev, k) { Some(n) => n, None => 0 }))
    }
}

/// `set_field` keeps the keys free of duplicates.
pub proof fn lemma_set_field_keys<V>(fs: Seq<(Seq<char>, V)>, k: Seq<char>, v: V)
    requires
        crate::seqs::no_dup(keys_of_pairs(fs)),
    ensures
        crate::seqs::no_dup(keys_of_pairs(set_field(fs, k, v))),
{
    lemma_key_index(fs, k);
    let g = set_field(fs, k, v);
    let ks = keys_of_pairs(fs);
    let gs = keys_of_pairs(g);
    if key_index(fs, k) >= 0 {
        assert(gs =~= ks);
    } else {
        assert forall|a: int, b: int| 0 <= a < gs.len() && 0 <= b < gs.len() && a != b implies gs[a] != gs[b] by {
            if a < fs.len() && b < fs.len() {
                assert(gs[a] == ks[a] && gs[b] == ks[b]);
            } else if a < fs.len() {
                assert(gs[a] == fs[a].0);
            } else {
                assert(gs[b] == fs[b].0);
            }
        }
    }
}

// ───────────────────────────── normalization ─────────────────────────────

/// `{"$ref": key}`.
pub open spec fn ref_to(k: Seq<char>) -> Json {
    Json::Object(seq![(ref_key(), Json::Str(k))])
}

/// The value with every entity object replaced by a reference to its record.
pub open spec fn norm_value(j: Json) -> Json
    decreases j, 0nat,
{
    match j {
        Json::List(xs) => Json::List(norm_items(xs)),
        Json::Object(fs) => match entity_key(j) {
            Some(k) => ref_to(k),
            None => Json::Object(norm_fields(fs)),
        },
        _ => j,
    }
}

/// `norm_value` of each element.
pub open spec fn norm_items(xs: Seq<Json>) -> Seq<Json>
    decreases xs, 1nat,
{
    Seq::new(xs.len(), |i: int| if 0 <= i < xs.len() { norm_value(xs[i]) } else { Json::Null })
}

/// `norm_value` of each field value.
pub open spec fn norm_fields(fs: Seq<(Seq<char>, Json)>) -> Seq<(Seq<char>, Json)>
    decreases fs, 1nat,
{
    Seq::new(fs.len(), |i: int| if 0 <= i < fs.len() { (fs[i].0, norm_value(fs[i].1)) } else { (Seq::empty(), Json::Null) })
}

/// Record `k` after merging `obj` into it.
pub open spec fn merge_record(s: Seq<(Seq<char>, Json)>, k: Seq<char>, obj: Json) -> Seq<(Seq<char>, Json)> {
    set_field(s, k, merged(match lookup(s, k) { Some(c) => c, None => empty_object() }, obj))
}

/// The records after normalizing `j`: children first, in order, then the object itself
/// when it is an entity.
pub open spec fn norm_store(s: Seq<(Seq<char>, Json)>, j: Json) -> Seq<(Seq<char>, Json)>
    decreases j, 0nat,
{
    match j {
        Json::List(xs) => norm_store_items(s, xs, xs.len()),
        Json::Object(fs) => {
            let s2 = norm_store_fields(s, fs, fs.len());
            match entity_key(j) {
                Some(k) => merge_record(s2, k, Json::Object(norm_fields(fs))),
                None => s2,
            }
        },
        _ => s,
    }
}

/// The records after normalizing the first `n` elements.
pub open spec fn norm_store_items(s: Seq<(Seq<char>, Json)>, xs: Seq<Json>, n: nat) -> Seq<(Seq<char>, Json)>
    decreases xs, n + 1,
{
    if n == 0 || n > xs.len() {
        s
    } else {
        norm_store(norm_store_items(s, xs, (n - 1) as nat), xs[n - 1])
    }
}

/// The records after normalizing the first `n` field values.
pub open spec fn norm_store_fields(s: Seq<(Seq<char>, Json)>, fs: Seq<(Seq<char>, Json)>, n: nat) -> Seq<(Seq<char>, Json)>
    decreases fs, n + 1,
{
    if n == 0 || n > fs.len() {
        s
    } else {
        norm_store(norm_store_fields(s, fs, (n - 1) as nat), fs[n - 1].1)
    }
}

/// The keys of the entities met while normalizing `j`, in merge order.
pub open spec fn norm_touched(j: Json) -> Seq<Seq<char>>
    decreases j, 0nat,
{
    match j {
        Json::List(xs) => norm_touched_items(xs, xs.len()),
        Json::Object(fs) => {
            let t = norm_touched_fields(fs, fs.len());
            match entity_key(j) {
                Some(k) => t.push(k),
                None => t,
            }
        },
        _ => Seq::empty(),
    }
}

pub open spec fn norm_touched_items(xs: Seq<Json>, n: nat) -> Seq<Seq<char>>
    decreases xs, n + 1,
{
    if n == 0 || n > xs.len() {
        Seq::empty()
    } else {
        norm_touched_items(xs, (n - 1) as nat) + norm_touched(xs[n - 1])
    }
}

pub open spec fn norm_touched_fields(fs: Seq<(Seq<char>, Json)>, n: nat) -> Seq<Seq<char>>
    decreases fs, n + 1,
{
    if n == 0 || n > fs.len() {
        Seq::empty()
    } else {
        norm_touched_fields(fs, (n - 1) as nat) + norm_touched(fs[n - 1].1)
    }
}

pub proof fn lemma_list_model(xs: Vec<Value>)
    ensures
        model(Value::List(xs)) == Json::List(Seq::new(xs@.len(), |i: int| xs@[i]@)),
{
    if let Json::List(m) = model(Value::List(xs)) {
        assert(m =~= Seq::new(xs@.len(), |i: int| xs@[i]@));
    }
}

impl Store {
    /// Normalizes `v` into the store: every entity object (nested ones included) is merged
    /// into its record and replaced by `{"$ref": key}`; the keys it merged are appended to
    /// `touched`, in merge order.
    pub fn normalize_value(&mut self, v: &Value, touched: &mut Vec<String>) -> (r: Value)
        requires
            old(self).wf(),
        ensures
            final(self).wf(),
            r@ == norm_value(v@),
            final(self).records() == norm_store(old(self).records(), v@),
            strings_model(final(touched)@) == strings_model(old(touched)@) + norm_touched(v@),
            final(self).counters() == old(self).counters(),
        decreases v,
    {
        match v {
            Value::List(xs) => {
                let ghost m = Seq::new(xs@.len(), |i: int| xs@[i]@);
                proof {
                    lemma_list_model(*xs);
                }
                let ghost s0 = self.records();
                let ghost t0 = strings_model(touched@);
                let mut out: Vec<Value> = Vec::new();
                let mut i: usize = 0;
                while i < xs.len()
                    invariant
                        *v == Value::List(*xs),
                        v@ == Json::List(m),
                        m == Seq::new(xs@.len(), |i: int| xs@[i]@),
                        0 <= i <= xs@.len(),
                        self.wf(),
                        self.counters() == old(self).counters(),
                        s0 == old(self).records(),
                        t0 == strings_model(old(touched)@),
                        self.records() == norm_store_items(s0, m, i as nat),
                        strings_model(touched@) == t0 + norm_touched_items(m, i as nat),
                        out@.len() == i,
                        forall|k: int| 0 <= k < i ==> (#[trigger] out@[k])@ == norm_value(m[k]),
                    decreases xs@.len() - i,
                {
                    proof {
                        lemma_list_decreases(*v, i as int);
                    }
                    let n = self.normalize_value(&xs[i], touched);
                    out.push(n);
                    proof {
                        assert(m[i as int] == xs@[i as int]@);
                        assert(norm_touched_items(m, (i + 1) as nat) == norm_touched_items(m, i as nat) + norm_touched(m[i as int]));
                        assert(strings_model(touched@) =~= t0 + norm_touched_items(m, (i + 1) as nat));
                    }
                    i += 1;
                }
                let r = Value::List(out);
                proof {
                    lemma_list_model(out);
                    assert(Seq::new(out@.len(), |i: int| out@[i]@) =~= norm_items(m));
                }
                r
            },
            Value::Object(fs) => {
                let ghost fm = fields_model(fs@);
                proof {
                    lemma_object_model(*fs);
                }
                let ghost s0 = self.records();
                let ghost t0 = strings_model(touched@);
                let mut out: Vec<(String, Value)> = Vec::new();
                let mut i: usize = 0;
                while i < fs.len()
                    invariant
                        *v == Value::Object(*fs),
                        v@ == Json::Object(fm),
                        fm == fields_model(fs@),
                        0 <= i <= fs@.len(),
                        self.wf(),
                        self.counters() == old(self).counters(),
                        s0 == old(self).records(),
                        t0 == strings_model(old(touched)@),
                        self.records() == norm_store_fields(s0, fm, i as nat),
                        strings_model(touched@) == t0 + norm_touched_fields(fm, i as nat),
                        out@.len() == i,
                        forall|k: int| 0 <= k < i ==> (#[trigger] out@[k]).0@ == fm[k].0 && out@[k].1@ == norm_value(fm[k].1),
                    decreases fs@.len() - i,
                {
                    proof {
                        lemma_object_decreases(*v, i as int);
                    }
                    let n = self.normalize_value(&fs[i].1, touched);
                    out.push((fs[i].0.clone(), n));
                    proof {
                        assert(fm[i as int] == (fs@[i as int].0@, fs@[i as int].1@));
                        assert(norm_touched_fields(fm, (i + 1) as nat) == norm_touched_fields(fm, i as nat) + norm_touched(fm[i as int].1));
                        assert(strings_model(touched@) =~= t0 + norm_touched_fields(fm, (i + 1) as nat));
                    }
                    i += 1;
                }
                proof {
                    lemma_object_model(out);
                    assert(fields_model(out@) =~= norm_fields(fm));
                }
                let inner = Value::Object(out);
                match entity_key_of(v) {
                    Some(key) => {
                        self.merge_into(key.as_str(), &inner);
                        let ghost tb = strings_model(touched@);
                        let ghost kv = key@;
                        touched.push(key.clone());
                        proof {
                            assert(strings_model(touched@) =~= tb.push(kv));
                        }
                        let rk = lit_ref();
                        let mut one: Vec<(String, Value)> = Vec::new();
                        one.push((rk, Value::Str(key)));
                        proof {
                            lemma_object_model(one);
                            assert(fields_model(one@) =~= seq![(ref_key(), Json::Str(kv))]);
                        }
                        Value::Object(one)
                    },
                    None => inner,
                }
            },
            Value::Null => Value::Null,
            Value::Bool(b) => Value::Bool(*b),
            Value::Int(n) => Value::Int(*n),
            Value::Float(t) => Value::Float(t.clone()),
            Value::Str(t) => Value::Str(t.clone()),
        }
    }

    /// Normalizes the field values of an object (the object itself is not merged); any
    /// other value is returned as it is.
    pub fn normalize_fields(&mut self, obj: &Value, touched: &mut Vec<String>) -> (r: Value)
        requires
            old(self).wf(),
        ensures
            final(self).wf(),
            final(self).counters() == old(self).counters(),
            match obj@ {
                Json::Object(fs) => {
                    &&& r@ == Json::Object(norm_fields(fs))
                    &&& final(self).records() == norm_store_fields(old(self).records(), fs, fs.len())
                    &&& strings_model(final(touched)@) == strings_model(old(touched)@) + norm_touched_fields(fs, fs.len())
                },
                _ => {
                    &&& r@ == obj@
                    &&& final(self).records() == old(self).records()
                    &&& final(touched)@ == old(touched)@
                },
            },
    {
        match obj {
            Value::Object(fs) => {
                let ghost fm = fields_model(fs@);
                proof {
                    lemma_object_model(*fs);
                }
                let ghost s0 = self.records();
                let ghost t0 = strings_model(touched@);
                let mut out: Vec<(String, Value)> = Vec::new();
                let mut i: usize = 0;
                while i < fs.len()
                    invariant
                        obj@ == Json::Object(fm),
                        fm == fields_model(fs@),
                        0 <= i <= fs@.len(),
                        self.wf(),
                        self.counters() == old(self).counters(),
                        s0 == old(self).records(),
                        t0 == strings_model(old(touched)@),
                        self.records() == norm_store_fields(s0, fm, i as nat),
                        strings_model(touched@) == t0 + norm_touched_fields(fm, i as nat),
                        out@.len() == i,
                        forall|k: int| 0 <= k < i ==> (#[trigger] out@[k]).0@ == fm[k].0 && out@[k].1@ == norm_value(fm[k].1),
                    decreases fs@.len() - i,
                {
                    let n = self.normalize_value(&fs[i].1, touched);
                    out.push((fs[i].0.clone(), n));
                    proof {
                        assert(fm[i as int] == (fs@[i as int].0@, fs@[i as int].1@));
                        assert(norm_touched_fields(fm, (i + 1) as nat) == norm_touched_fields(fm, i as nat) + norm_touched(fm[i as int].1));
                        assert(strings_model(touched@) =~= t0 + norm_touched_fields(fm, (i + 1) as nat));
                    }
                    i += 1;
                }
                proof {
                    lemma_object_model(out);
                    assert(fields_model(out@) =~= norm_fields(fm));
                }
                Value::Object(out)
            },
            _ => obj.deep_copy(),
        }
    }
}

// ───────────────────────────── batches of entities ─────────────────────────────

/// The elements of a list (none for any other value).
pub open spec fn list_items(j: Json) -> Seq<Json> {
    match j {
        Json::List(xs) => xs,
        _ => Seq::empty(),
    }
}

/// The records after `merge_all` has handled the first `n` elements: each top-level
/// entity has its fields normalized, then is merged into its record.
pub open spec fn merged_batch(s: Seq<(Seq<char>, Json)>, xs: Seq<Json>, n: nat) -> Seq<(Seq<char>, Json)>
    decreases n,
{
    if n == 0 || n > xs.len() {
        s
    } else {
        let p = merged_batch(s, xs, (n - 1) as nat);
        let x = xs[n - 1];
        match (entity_key(x), x) {
            (Some(k), Json::Object(fs)) => merge_record(norm_store_fields(p, fs, fs.len()), k, Json::Object(norm_fields(fs))),
            _ => p,
        }
    }
}

/// The nested entity keys met by `merge_all` in the first `n` elements.
pub open spec fn batch_touched(xs: Seq<Json>, n: nat) -> Seq<Seq<char>>
    decreases n,
{
    if n == 0 || n > xs.len() {
        Seq::empty()
    } else {
        let p = batch_touched(xs, (n - 1) as nat);
        let x = xs[n - 1];
        match (entity_key(x), x) {
            (Some(k), Json::Object(fs)) => p + norm_touched_fields(fs, fs.len()),
            _ => p,
        }
    }
}

/// The keys of the top-level entities among the first `n` elements.
pub open spec fn batch_keys(xs: Seq<Json>, n: nat) -> Seq<Seq<char>>
    decreases n,
{
    if n == 0 || n > xs.len() {
        Seq::empty()
    } else {
        let p = batch_keys(xs, (n - 1) as nat);
        match entity_key(xs[n - 1]) {
            Some(k) => p.push(k),
            None => p,
        }
    }
}

/// An entity key always belongs to an object.
proof fn lemma_entity_is_object(j: Json)
    ensures
        entity_key(j) is Some ==> j is Object,
{
}

impl Store {
    /// Merges a list of top-level entities (elements that are not entities are skipped):
    /// nested entities get their own records and are bumped now; the top-level keys are
    /// returned for the caller to bump once the whole batch is in (a consistent snapshot).
    pub fn merge_all(&mut self, v: &Value) -> (top: Vec<String>)
        requires
            old(self).wf(),
        ensures
            final(self).wf(),
            final(self).records() == merged_batch(old(self).records(), list_items(v@), list_items(v@).len()),
            final(self).counters() == bumped(old(self).counters(), batch_touched(list_items(v@), list_items(v@).len())),
            strings_model(top@) == batch_keys(list_items(v@), list_items(v@).len()),
    {
        let items = v.as_list();
        let ghost xs = list_items(v@);
        proof {
            match v {
                Value::List(l) => {
                    lemma_list_model(*l);
                    assert(xs =~= Seq::new(items@.len(), |i: int| items@[i]@));
                },
                _ => {},
            }
            assert(xs.len() == items@.len());
            assert(forall|i: int| 0 <= i < xs.len() ==> xs[i] == #[trigger] items@[i]@);
        }
        let ghost s0 = self.records();
        let mut top: Vec<String> = Vec::new();
        let mut touched: Vec<String> = Vec::new();
        let mut i: usize = 0;
        while i < items.len()
            invariant
                0 <= i <= items@.len(),
                xs.len() == items@.len(),
                forall|j: int| 0 <= j < xs.len() ==> xs[j] == #[trigger] items@[j]@,
                self.wf(),
                self.counters() == old(self).counters(),
                s0 == old(self).records(),
                self.records() == merged_batch(s0, xs, i as nat),
                strings_model(touched@) == batch_touched(xs, i as nat),
                strings_model(top@) == batch_keys(xs, i as nat),
            decreases items@.len() - i,
        {
            let obj = &items[i];
            proof {
                assert(xs[i as int] == obj@);
                lemma_entity_is_object(obj@);
            }
            match entity_key_of(obj) {
                Some(key) => {
                    let inner = self.normalize_fields(obj, &mut touched);
                    self.merge_into(key.as_str(), &inner);
                    let ghost tb = strings_model(top@);
                    let ghost kv = key@;
                    top.push(key);
                    proof {
                        assert(strings_model(top@) =~= tb.push(kv));
                    }
                },
                None => {},
            }
            i += 1;
        }
        self.bump_all(&touched);
        top
    }

    /// Merges a list of entities and bumps everything it touched (for mutation results).
    pub fn normalize_list(&mut self, v: &Value) -> (keys: Vec<String>)
        requires
            old(self).wf(),
        ensures
            final(self).wf(),
            final(self).records() == merged_batch(old(self).records(), list_items(v@), list_items(v@).len()),
            final(self).counters() == bumped(
                bumped(old(self).counters(), batch_touched(list_items(v@), list_items(v@).len())),
                batch_keys(list_items(v@), list_items(v@).len())),
            strings_model(keys@) == batch_keys(list_items(v@), list_items(v@).len()),
    {
        let keys = self.merge_all(v);
        self.bump_all(&keys);
        keys
    }
}

// ───────────────────────────── optimistic updates ─────────────────────────────

/// Removes the pair with key `k` (the first one).
pub open spec fn remove_key<V>(fs: Seq<(Seq<char>, V)>, k: Seq<char>) -> Seq<(Seq<char>, V)> {
    if key_index(fs, k) >= 0 { fs.remove(key_index(fs, k)) } else { fs }
}

/// The model of a snapshot.
pub open spec fn snap_model(v: Seq<(String, Option<Value>)>) -> Seq<(Seq<char>, Option<Json>)> {
    Seq::new(v.len(), |i: int| (v[i].0@, match v[i].1 { Some(x) => Some(x@), None => None }))
}

/// The records after restoring a snapshot: each entry put back (or removed when it was
/// absent), in order.
pub open spec fn restored(s: Seq<(Seq<char>, Json)>, snap: Seq<(Seq<char>, Option<Json>)>) -> Seq<(Seq<char>, Json)>
    decreases snap.len(),
{
    if snap.len() == 0 {
        s
    } else {
        let p = restored(s, snap.drop_last());
        match snap.last().1 {
            Some(v) => set_field(p, snap.last().0, v),
            None => remove_key(p, snap.last().0),
        }
    }
}

/// The keys of a snapshot.
pub open spec fn snap_keys(snap: Seq<(Seq<char>, Option<Json>)>) -> Seq<Seq<char>> {
    Seq::new(snap.len(), |i: int| snap[i].0)
}

pub proof fn lemma_remove_key<V>(fs: Seq<(Seq<char>, V)>, k: Seq<char>, k2: Seq<char>)
    requires
        crate::seqs::no_dup(keys_of_pairs(fs)),
    ensures
        crate::seqs::no_dup(keys_of_pairs(remove_key(fs, k))),
        lookup(remove_key(fs, k), k2) == if k2 == k { None } else { lookup(fs, k2) },
{
    lemma_key_index(fs, k);
    lemma_key_index(fs, k2);
    let g = remove_key(fs, k);
    lemma_key_index(g, k2);
    let i = key_index(fs, k);
    if i >= 0 {
        let ks = keys_of_pairs(fs);
        let gs = keys_of_pairs(g);
        assert(gs =~= ks.remove(i));
        assert forall|a: int, b: int| 0 <= a < gs.len() && 0 <= b < gs.len() && a != b implies gs[a] != gs[b] by {
            let a2 = if a < i { a } else { a + 1 };
            let b2 = if b < i { b } else { b + 1 };
            assert(gs[a] == ks[a2] && gs[b] == ks[b2]);
        }
        let j2 = key_index(g, k2);
        let i2 = key_index(fs, k2);
        if k2 == k {
            if j2 >= 0 {
                let jj = if j2 < i { j2 } else { j2 + 1 };
                assert(g[j2] == fs[jj]);
                assert(ks[jj] == ks[i]);
            }
        } else {
            if i2 >= 0 {
                let back = if i2 < i { i2 } else { i2 - 1 };
                assert(i2 != i);
                assert(g[back] == fs[i2]);
                if j2 >= 0 && j2 < back {
                    let jj = if j2 < i { j2 } else { j2 + 1 };
                    assert(g[j2] == fs[jj]);
                }
            } else if j2 >= 0 {
                let jj = if j2 < i { j2 } else { j2 + 1 };
                assert(g[j2] == fs[jj]);
            }
        }
    }
}

/// Restoring a snapshot taken from `orig` gives back, for every key of the snapshot,
/// the record `orig` had (or its absence), whatever was written in between.
pub proof fn law_restore_snapshot(orig: Seq<(Seq<char>, Json)>, cur: Seq<(Seq<char>, Json)>, keys: Seq<Seq<char>>, k: Seq<char>)
    requires
        crate::seqs::no_dup(keys_of_pairs(cur)),
        keys.contains(k),
    ensures
        lookup(restored(cur, Seq::new(keys.len(), |i: int| (keys[i], lookup(orig, keys[i])))), k) == lookup(orig, k),
    decreases keys.len(),
{
    let snap = Seq::new(keys.len(), |i: int| (keys[i], lookup(orig, keys[i])));
    let last = keys.last();
    let rest = keys.drop_last();
    let snap_rest = Seq::new(rest.len(), |i: int| (rest[i], lookup(orig, rest[i])));
    assert(snap.drop_last() =~= snap_rest);
    lemma_restored_wf(cur, snap_rest);
    let p = restored(cur, snap_rest);
    match lookup(orig, last) {
        Some(v) => {
            lemma_set_field_lookup(p, last, v, k);
        },
        None => {
            lemma_remove_key(p, last, k);
        },
    }
    if k != last {
        let idx = choose|i: int| 0 <= i < keys.len() && keys[i] == k;
        assert(rest[idx] == k);
        law_restore_snapshot(orig, cur, rest, k);
    }
}

pub proof fn lemma_restored_wf(s: Seq<(Seq<char>, Json)>, snap: Seq<(Seq<char>, Option<Json>)>)
    requires
        crate::seqs::no_dup(keys_of_pairs(s)),
    ensures
        crate::seqs::no_dup(keys_of_pairs(restored(s, snap))),
    decreases snap.len(),
{
    if snap.len() > 0 {
        lemma_restored_wf(s, snap.drop_last());
        let p = restored(s, snap.drop_last());
        match snap.last().1 {
            Some(v) => lemma_set_field_keys(p, snap.last().0, v),
            None => lemma_remove_key(p, snap.last().0, snap.last().0),
        }
    }
}

impl Store {
    /// The current record of each key (or its absence), to undo an optimistic write.
    pub fn snapshot(&self, keys: &Vec<String>) -> (snap: Vec<(String, Option<Value>)>)
        ensures
            snap_model(snap@) == Seq::new(keys@.len(), |i: int| (keys@[i]@, self.entity(keys@[i]@))),
    {
        let mut out: Vec<(String, Option<Value>)> = Vec::new();
        let mut i: usize = 0;
        while i < keys.len()
            invariant
                0 <= i <= keys@.len(),
                snap_model(out@) == Seq::new(i as nat, |j: int| (keys@[j]@, self.entity(keys@[j]@))),
            decreases keys@.len() - i,
        {
            let r = self.raw(keys[i].as_str());
            let ghost before = snap_model(out@);
            let ghost entry = (keys@[i as int]@, match &r { Some(x) => Some(x@), None => None });
            out.push((keys[i].clone(), r));
            proof {
                assert(snap_model(out@) =~= before.push(entry));
                assert(snap_model(out@) =~= Seq::new((i + 1) as nat, |j: int| (keys@[j]@, self.entity(keys@[j]@))));
            }
            i += 1;
        }
        out
    }

    /// Removes record `key`.
    fn remove(&mut self, key: &str)
        requires
            old(self).wf(),
        ensures
            final(self).wf(),
            final(self).records() == remove_key(old(self).records(), key@),
            final(self).counters() == old(self).counters(),
    {
        let k = key.to_owned();
        let ghost m = self.records();
        proof {
            lemma_remove_key(m, key@, key@);
        }
        match find_name(&self.entities, &k) {
            Some(i) => {
                proof {
                    lemma_key_index_at(m, key@, i as int);
                }
                let _ = self.entities.remove(i);
                proof {
                    assert(self.records() =~= m.remove(i as int));
                }
            },
            None => {
                proof {
                    lemma_key_index_at(m, key@, m.len() as int);
                }
            },
        }
    }

    /// Puts a snapshot back (undoing an optimistic write) and bumps its keys.
    pub fn restore(&mut self, snap: &Vec<(String, Option<Value>)>)
        requires
            old(self).wf(),
        ensures
            final(self).wf(),
            final(self).records() == restored(old(self).records(), snap_model(snap@)),
            final(self).counters() == bumped(old(self).counters(), snap_keys(snap_model(snap@))),
    {
        let ghost sm = snap_model(snap@);
        let ghost s0 = self.records();
        let mut keys: Vec<String> = Vec::new();
        let mut i: usize = 0;
        while i < snap.len()
            invariant
                0 <= i <= snap@.len(),
                sm == snap_model(snap@),
                self.wf(),
                s0 == old(self).records(),
                self.counters() == old(self).counters(),
                self.records() == restored(s0, sm.take(i as int)),
                strings_model(keys@) == snap_keys(sm.take(i as int)),
            decreases snap@.len() - i,
        {
            proof {
                assert(sm.take(i + 1).drop_last() =~= sm.take(i as int));
                assert(sm.take(i + 1).last() == sm[i as int]);
            }
            match &snap[i].1 {
                Some(v) => {
                    self.put(snap[i].0.clone(), v.deep_copy());
                },
                None => {
                    self.remove(snap[i].0.as_str());
                },
            }
            let ghost kb = strings_model(keys@);
            keys.push(snap[i].0.clone());
            proof {
                assert(sm[i as int].0 == snap@[i as int].0@);
                assert(strings_model(keys@) =~= kb.push(snap@[i as int].0@));
                assert(snap_keys(sm.take(i + 1)) =~= snap_keys(sm.take(i as int)).push(sm[i as int].0));
                assert(strings_model(keys@) =~= snap_keys(sm.take(i + 1)));
            }
            i += 1;
        }
        proof {
            assert(sm.take(sm.len() as int) =~= sm);
        }
        self.bump_all(&keys);
        proof {
            assert(strings_model(keys@) =~= snap_keys(sm));
        }
    }
}

// ───────────────────────────── reading ─────────────────────────────

/// `j` with its references inlined from the records `s`, following at most `fuel` nested
/// references (an exhausted budget, or a missing record, reads as `null`).
pub open spec fn denorm(s: Seq<(Seq<char>, Json)>, j: Json, fuel: nat) -> Json
    decreases fuel, j,
{
    match j {
        Json::Object(fs) => if fs.len() == 1 && fs[0].0 == ref_key() && fs[0].1 is Str {
            if fuel == 0 {
                Json::Null
            } else {
                match lookup(s, fs[0].1->Str_0) {
                    Some(r) => denorm(s, r, (fuel - 1) as nat),
                    None => Json::Null,
                }
            }
        } else {
            Json::Object(Seq::new(fs.len(), |i: int| if 0 <= i < fs.len() { (fs[i].0, denorm(s, fs[i].1, fuel)) } else { (Seq::empty(), Json::Null) }))
        },
        Json::List(xs) => Json::List(Seq::new(xs.len(), |i: int| if 0 <= i < xs.len() { denorm(s, xs[i], fuel) } else { Json::Null })),
        _ => j,
    }
}

impl Store {
    fn denormalize(&self, v: &Value, fuel: usize) -> (r: Value)
        ensures
            r@ == denorm(self.records(), v@, fuel as nat),
        decreases fuel, v,
    {
        match v {
            Value::Object(fs) => {
                proof {
                    lemma_object_model(*fs);
                }
                if fs.len() == 1 {
                    let rk = lit_ref();
                    if fs[0].0 == rk {
                        match &fs[0].1 {
                            Value::Str(k) => {
                                if fuel == 0 {
                                    return Value::Null;
                                }
                                match find_name(&self.entities, k) {
                                    Some(i) => {
                                        proof {
                                            lemma_key_index_at(self.records(), k@, i as int);
                                            lemma_key_index(self.records(), k@);
                                        }
                                        return self.denormalize(&self.entities[i].1, fuel - 1);
                                    },
                                    None => {
                                        proof {
                                            lemma_key_index_at(self.records(), k@, self.records().len() as int);
                                            lemma_key_index(self.records(), k@);
                                        }
                                        return Value::Null;
                                    },
                                }
                            },
                            _ => {},
                        }
                    }
                }
                let ghost fm = fields_model(fs@);
                let mut out: Vec<(String, Value)> = Vec::new();
                let mut i: usize = 0;
                while i < fs.len()
                    invariant
                        *v == Value::Object(*fs),
                        fm == fields_model(fs@),
                        0 <= i <= fs@.len(),
                        out@.len() == i,
                        forall|k: int| 0 <= k < i ==> (#[trigger] out@[k]).0@ == fm[k].0 && out@[k].1@ == denorm(self.records(), fm[k].1, fuel as nat),
                    decreases fs@.len() - i,
                {
                    proof {
                        lemma_object_decreases(*v, i as int);
                    }
                    let d = self.denormalize(&fs[i].1, fuel);
                    out.push((fs[i].0.clone(), d));
                    i += 1;
                }
                proof {
                    lemma_object_model(out);
                    if let Json::Object(w) = denorm(self.records(), v@, fuel as nat) {
                        assert(fields_model(out@) =~= w);
                    }
                }
                Value::Object(out)
            },
            Value::List(xs) => {
                proof {
                    lemma_list_model(*xs);
                }
                let mut out: Vec<Value> = Vec::new();
                let mut i: usize = 0;
                while i < xs.len()
                    invariant
                        *v == Value::List(*xs),
                        0 <= i <= xs@.len(),
                        out@.len() == i,
                        forall|k: int| 0 <= k < i ==> (#[trigger] out@[k])@ == denorm(self.records(), xs@[k]@, fuel as nat),
                    decreases xs@.len() - i,
                {
                    proof {
                        lemma_list_decreases(*v, i as int);
                    }
                    let d = self.denormalize(&xs[i], fuel);
                    out.push(d);
                    i += 1;
                }
                proof {
                    lemma_list_model(out);
                    if let Json::List(w) = denorm(self.records(), v@, fuel as nat) {
                        assert(Seq::new(out@.len(), |i: int| out@[i]@) =~= w);
                    }
                }
                Value::List(out)
            },
            _ => v.deep_copy(),
        }
    }

    /// Record `key` with its references inlined (`None` when there is no such record).
    /// References are followed at most as deep as there are records: an acyclic store is
    /// read completely; a cycle reads as `null` where the budget runs out.
    pub fn read_entity(&self, key: &str) -> (r: Option<Value>)
        ensures
            match r {
                Some(v) => self.entity(key@) matches Some(raw) && v@ == denorm(self.records(), raw, self.records().len()),
                None => self.entity(key@) is None,
            },
    {
        let k = key.to_owned();
        match find_name(&self.entities, &k) {
            Some(i) => {
                proof {
                    lemma_key_index_at(self.records(), key@, i as int);
                    lemma_key_index(self.records(), key@);
                }
                Some(self.denormalize(&self.entities[i].1, self.entities.len()))
            },
            None => {
                proof {
                    lemma_key_index_at(self.records(), key@, self.records().len() as int);
                    lemma_key_index(self.records(), key@);
                }
                None
            },
        }
    }
}

/// The entity keys in `j`, an entity before the ones nested in it.
pub open spec fn keys_in(j: Json) -> Seq<Seq<char>>
    decreases j, 0nat,
{
    match j {
        Json::List(xs) => keys_in_items(xs, xs.len()),
        Json::Object(fs) => (match entity_key(j) {
            Some(k) => seq![k],
            None => Seq::empty(),
        }) + keys_in_fields(fs, fs.len()),
        _ => Seq::empty(),
    }
}

pub open spec fn keys_in_items(xs: Seq<Json>, n: nat) -> Seq<Seq<char>>
    decreases xs, n + 1,
{
    if n == 0 || n > xs.len() {
        Seq::empty()
    } else {
        keys_in_items(xs, (n - 1) as nat) + keys_in(xs[n - 1])
    }
}

pub open spec fn keys_in_fields(fs: Seq<(Seq<char>, Json)>, n: nat) -> Seq<Seq<char>>
    decreases fs, n + 1,
{
    if n == 0 || n > fs.len() {
        Seq::empty()
    } else {
        keys_in_fields(fs, (n - 1) as nat) + keys_in(fs[n - 1].1)
    }
}

fn collect_keys(v: &Value, out: &mut Vec<String>)
    ensures
        strings_model(final(out)@) == strings_model(old(out)@) + keys_in(v@),
    decreases v,
{
    match v {
        Value::List(xs) => {
            let ghost m = Seq::new(xs@.len(), |i: int| xs@[i]@);
            proof {
                lemma_list_model(*xs);
            }
            let ghost t0 = strings_model(out@);
            let mut i: usize = 0;
            while i < xs.len()
                invariant
                    *v == Value::List(*xs),
                    v@ == Json::List(m),
                    m == Seq::new(xs@.len(), |i: int| xs@[i]@),
                    0 <= i <= xs@.len(),
                    t0 == strings_model(old(out)@),
                    strings_model(out@) == t0 + keys_in_items(m, i as nat),
                decreases xs@.len() - i,
            {
                proof {
                    lemma_list_decreases(*v, i as int);
                }
                collect_keys(&xs[i], out);
                proof {
                    assert(m[i as int] == xs@[i as int]@);
                    assert(strings_model(out@) =~= t0 + keys_in_items(m, (i + 1) as nat));
                }
                i += 1;
            }
        },
        Value::Object(fs) => {
            let ghost fm = fields_model(fs@);
            proof {
                lemma_object_model(*fs);
            }
            let ghost t0 = strings_model(out@);
            match entity_key_of(v) {
                Some(k) => {
                    let ghost kv = k@;
                    out.push(k);
                    proof {
                        assert(strings_model(out@) =~= t0.push(kv));
                    }
                },
                None => {},
            }
            let ghost t1 = strings_model(out@);
            proof {
                assert(t1 =~= t0 + (match entity_key(v@) { Some(k) => seq![k], None => Seq::<Seq<char>>::empty() }));
            }
            let mut i: usize = 0;
            while i < fs.len()
                invariant
                    *v == Value::Object(*fs),
                    v@ == Json::Object(fm),
                    fm == fields_model(fs@),
                    0 <= i <= fs@.len(),
                    t0 == strings_model(old(out)@),
                    t1 == t0 + (match entity_key(v@) { Some(k) => seq![k], None => Seq::<Seq<char>>::empty() }),
                    strings_model(out@) == t1 + keys_in_fields(fm, i as nat),
                decreases fs@.len() - i,
            {
                proof {
                    lemma_object_decreases(*v, i as int);
                }
                collect_keys(&fs[i].1, out);
                proof {
                    assert(fm[i as int] == (fs@[i as int].0@, fs@[i as int].1@));
                    assert(strings_model(out@) =~= t1 + keys_in_fields(fm, (i + 1) as nat));
                }
                i += 1;
            }
        },
        _ => {
            proof {
                assert(strings_model(out@) =~= strings_model(old(out)@) + keys_in(v@));
            }
        },
    }
}

/// The keys of every entity in `v` (top-level and nested), to snapshot before an
/// optimistic write.
pub fn keys_of(v: &Value) -> (keys: Vec<String>)
    ensures
        strings_model(keys@) == keys_in(v@),
{
    let mut out: Vec<String> = Vec::new();
    proof {
        assert(strings_model(out@) =~= Seq::<Seq<char>>::empty());
    }
    collect_keys(v, &mut out);
    proof {
        assert(Seq::<Seq<char>>::empty() + keys_in(v@) =~= keys_in(v@));
    }
    out
}

// ───────────────────────────── paginated connections ─────────────────────────────

pub open spec fn edges_key() -> Seq<char> {
    seq!['e', 'd', 'g', 'e', 's']
}

pub open spec fn page_info_key() -> Seq<char> {
    seq!['p', 'a', 'g', 'e', '_', 'i', 'n', 'f', 'o']
}

pub open spec fn cursor_key() -> Seq<char> {
    seq!['c', 'u', 'r', 's', 'o', 'r']
}

/// The field `k` of `j`, `null` when absent.
pub open spec fn field_or_null(j: Json, k: Seq<char>) -> Json {
    match json_get(j, k) {
        Some(v) => v,
        None => Json::Null,
    }
}

/// The cursor of an edge (`""` when missing or not a string).
pub open spec fn cursor_of(e: Json) -> Seq<char> {
    str_or_empty(field_or_null(e, cursor_key()))
}

/// Some edge of `lst` has cursor `c`.
pub open spec fn has_cursor(lst: Seq<Json>, c: Seq<char>) -> bool {
    exists|i: int| 0 <= i < lst.len() && cursor_of(#[trigger] lst[i]) == c
}

/// `lst` with the edges of `new` appended in order, skipping an edge whose non-empty
/// cursor is already present.
pub open spec fn append_edges(lst: Seq<Json>, new: Seq<Json>) -> Seq<Json>
    decreases new.len(),
{
    if new.len() == 0 {
        lst
    } else {
        let p = append_edges(lst, new.drop_last());
        let e = new.last();
        if cursor_of(e).len() > 0 && has_cursor(p, cursor_of(e)) { p } else { p.push(e) }
    }
}

proof fn lemma_append_edges_keeps(lst: Seq<Json>, new: Seq<Json>, c: Seq<char>)
    requires
        has_cursor(lst, c),
    ensures
        has_cursor(append_edges(lst, new), c),
    decreases new.len(),
{
    if new.len() > 0 {
        lemma_append_edges_keeps(lst, new.drop_last(), c);
        let p = append_edges(lst, new.drop_last());
        let i = choose|i: int| 0 <= i < p.len() && cursor_of(p[i]) == c;
        assert(p.push(new.last())[i] == p[i]);
    }
}

proof fn lemma_append_edges_covers(lst: Seq<Json>, new: Seq<Json>, j: int)
    requires
        0 <= j < new.len(),
    ensures
        has_cursor(append_edges(lst, new), cursor_of(new[j])),
    decreases new.len(),
{
    let p = append_edges(lst, new.drop_last());
    let e = new.last();
    if j < new.len() - 1 {
        lemma_append_edges_covers(lst, new.drop_last(), j);
        assert(new.drop_last()[j] == new[j]);
        let c = cursor_of(new[j]);
        let w = choose|i: int| 0 <= i < p.len() && cursor_of(p[i]) == c;
        assert(p.push(e)[w] == p[w]);
    } else {
        if !(cursor_of(e).len() > 0 && has_cursor(p, cursor_of(e))) {
            assert(p.push(e)[p.len() as int] == e);
        }
    }
}

/// Loading the same page twice adds its edges once: when every edge of the page has a
/// cursor, appending it again changes nothing.
pub proof fn law_append_edges_idempotent(lst: Seq<Json>, new: Seq<Json>)
    requires
        forall|j: int| 0 <= j < new.len() ==> cursor_of(#[trigger] new[j]).len() > 0,
    ensures
        append_edges(append_edges(lst, new), new) == append_edges(lst, new),
{
    let a = append_edges(lst, new);
    lemma_append_twice_prefix(lst, new, new.len() as int);
    assert(new.take(new.len() as int) =~= new);
}

proof fn lemma_append_twice_prefix(lst: Seq<Json>, new: Seq<Json>, m: int)
    requires
        0 <= m <= new.len(),
        forall|j: int| 0 <= j < new.len() ==> cursor_of(#[trigger] new[j]).len() > 0,
    ensures
        append_edges(append_edges(lst, new), new.take(m)) == append_edges(lst, new),
    decreases m,
{
    if m > 0 {
        lemma_append_twice_prefix(lst, new, m - 1);
        assert(new.take(m).drop_last() =~= new.take(m - 1));
        assert(new.take(m).last() == new[m - 1]);
        lemma_append_edges_covers(lst, new, m - 1);
    } else {
        assert(new.take(0).len() == 0);
    }
}

/// An edge as stored: its fields normalized (a node entity becomes a reference).
pub open spec fn norm_shallow(j: Json) -> Json {
    match j {
        Json::Object(fs) => Json::Object(norm_fields(fs)),
        _ => j,
    }
}

/// The records after normalizing the first `n` edges.
pub open spec fn edges_store(s: Seq<(Seq<char>, Json)>, es: Seq<Json>, n: nat) -> Seq<(Seq<char>, Json)>
    decreases n,
{
    if n == 0 || n > es.len() {
        s
    } else {
        let p = edges_store(s, es, (n - 1) as nat);
        match es[n - 1] {
            Json::Object(fs) => norm_store_fields(p, fs, fs.len()),
            _ => p,
        }
    }
}

/// The entity keys met while normalizing the first `n` edges.
pub open spec fn edges_touched(es: Seq<Json>, n: nat) -> Seq<Seq<char>>
    decreases n,
{
    if n == 0 || n > es.len() {
        Seq::empty()
    } else {
        let p = edges_touched(es, (n - 1) as nat);
        match es[n - 1] {
            Json::Object(fs) => p + norm_touched_fields(fs, fs.len()),
            _ => p,
        }
    }
}

/// A fresh connection record: no edges, no page info.
pub open spec fn empty_connection() -> Json {
    Json::Object(seq![(edges_key(), Json::List(Seq::empty())), (page_info_key(), Json::Null)])
}

/// The connection record after a page: its (first) `edges` list, when it is a list, gets
/// the page's edges (after the old ones when appending, in place of them otherwise,
/// deduplicated by cursor); its (first) `page_info` field, when present, becomes the
/// page's.  A record that is not an object stays as it is.
pub open spec fn connection_after(rec: Json, new_edges: Seq<Json>, page_info: Json, append: bool) -> Json {
    match rec {
        Json::Object(fs) => {
            let ei = key_index(fs, edges_key());
            let fs1 = if ei >= 0 && fs[ei].1 is List {
                fs.update(ei, (edges_key(), Json::List(append_edges(if append { fs[ei].1->List_0 } else { Seq::empty() }, new_edges))))
            } else {
                fs
            };
            let pi = key_index(fs1, page_info_key());
            Json::Object(if pi >= 0 { fs1.update(pi, (page_info_key(), page_info)) } else { fs1 })
        },
        _ => rec,
    }
}

fn lit_edges() -> (s: String)
    ensures
        s@ == edges_key(),
{
    let k = "edges";
    proof {
        reveal_strlit("edges");
    }
    k.to_owned()
}

fn lit_page_info() -> (s: String)
    ensures
        s@ == page_info_key(),
{
    let k = "page_info";
    proof {
        reveal_strlit("page_info");
    }
    k.to_owned()
}

fn lit_cursor() -> (s: String)
    ensures
        s@ == cursor_key(),
{
    let k = "cursor";
    proof {
        reveal_strlit("cursor");
    }
    k.to_owned()
}

/// The cursor of an edge.
fn edge_cursor(e: &Value) -> (c: String)
    ensures
        c@ == cursor_of(e@),
{
    let ck = lit_cursor();
    let f = e.field(ck.as_str());
    f.as_str().to_owned()
}

/// `lst` with `new` appended, deduplicated by cursor.
fn append_edges_exec(lst: &mut Vec<Value>, new: &Vec<Value>)
    ensures
        items_model(final(lst)@) == append_edges(items_model(old(lst)@), items_model(new@)),
{
    let ghost l0 = items_model(lst@);
    let ghost nm = items_model(new@);
    let mut i: usize = 0;
    while i < new.len()
        invariant
            0 <= i <= new@.len(),
            nm == items_model(new@),
            items_model(lst@) == append_edges(l0, nm.take(i as int)),
        decreases new@.len() - i,
    {
        proof {
            assert(nm.take(i + 1).drop_last() =~= nm.take(i as int));
            assert(nm.take(i + 1).last() == new@[i as int]@);
        }
        let c = edge_cursor(&new[i]);
        let mut dup = false;
        if !c.as_str().is_empty() {
            let ghost lm = items_model(lst@);
            let mut j: usize = 0;
            while j < lst.len()
                invariant
                    0 <= j <= lst@.len(),
                    lm == items_model(lst@),
                    dup == exists|t: int| 0 <= t < j && cursor_of(#[trigger] lm[t]) == c@,
                decreases lst@.len() - j,
            {
                let cj = edge_cursor(&lst[j]);
                if cj == c {
                    dup = true;
                    proof {
                        assert(lm[j as int] == lst@[j as int]@);
                        assert(cursor_of(lm[j as int]) == c@);
                    }
                }
                proof {
                    if cj != c {
                        assert(lm[j as int] == lst@[j as int]@);
                    }
                }
                j += 1;
            }
            proof {
                assert(dup == has_cursor(lm, c@));
            }
        }
        if !dup {
            let ghost lb = items_model(lst@);
            lst.push(new[i].deep_copy());
            proof {
                assert(items_model(lst@) =~= lb.push(new@[i as int]@));
            }
        }
        i += 1;
    }
    proof {
        assert(nm.take(nm.len() as int) =~= nm);
    }
}

/// The models of a list of values.
pub open spec fn items_model(v: Seq<Value>) -> Seq<Json> {
    Seq::new(v.len(), |i: int| v[i]@)
}

impl Store {
    /// Merges one page of a connection into record `conn_key`: each edge's node entity
    /// becomes its own record (and a reference in the edge), the page's edges are appended
    /// (`append`) or replace the old ones, deduplicated by cursor, and the page info is
    /// overwritten.  Bumps the nested entities, then the connection.
    pub fn merge_connection(&mut self, conn_key: &str, conn: &Value, append: bool)
        requires
            old(self).wf(),
        ensures
            final(self).wf(),
            ({
                let es = list_items(field_or_null(conn@, edges_key()));
                let s1 = edges_store(old(self).records(), es, es.len());
                let rec = match lookup(s1, conn_key@) { Some(r) => r, None => empty_connection() };
                &&& final(self).records() == set_field(s1, conn_key@,
                        connection_after(rec, Seq::new(es.len(), |i: int| norm_shallow(es[i])), field_or_null(conn@, page_info_key()), append))
                &&& final(self).counters() == bumped(old(self).counters(), edges_touched(es, es.len()).push(conn_key@))
            }),
    {
        let ek = lit_edges();
        let pk = lit_page_info();
        let edges_v = conn.field(ek.as_str());
        let es = edges_v.as_list();
        let ghost esm = list_items(field_or_null(conn@, edges_key()));
        proof {
            match &edges_v {
                Value::List(l) => {
                    lemma_list_model(*l);
                    assert(esm =~= items_model(es@));
                },
                _ => {
                    assert(esm =~= items_model(es@));
                },
            }
        }
        let ghost s0 = self.records();
        let mut touched: Vec<String> = Vec::new();
        let mut new_edges: Vec<Value> = Vec::new();
        let mut i: usize = 0;
        while i < es.len()
            invariant
                0 <= i <= es@.len(),
                esm == items_model(es@),
                self.wf(),
                s0 == old(self).records(),
                self.counters() == old(self).counters(),
                self.records() == edges_store(s0, esm, i as nat),
                strings_model(touched@) == edges_touched(esm, i as nat),
                new_edges@.len() == i,
                forall|k: int| 0 <= k < i ==> (#[trigger] new_edges@[k])@ == norm_shallow(esm[k]),
            decreases es@.len() - i,
        {
            proof {
                assert(esm[i as int] == es@[i as int]@);
            }
            let e = self.normalize_fields(&es[i], &mut touched);
            new_edges.push(e);
            proof {
                match esm[i as int] {
                    Json::Object(fs) => {},
                    _ => {
                        assert(strings_model(touched@) =~= edges_touched(esm, (i + 1) as nat));
                    },
                }
            }
            i += 1;
        }
        proof {
            assert(items_model(new_edges@) =~= Seq::new(esm.len(), |i: int| norm_shallow(esm[i])));
        }
        let page_info = conn.field(pk.as_str());
        let ghost s1 = self.records();
        let ghost rec0 = match lookup(s1, conn_key@) { Some(r) => r, None => empty_connection() };
        let rec = match self.raw(conn_key) {
            Some(r) => r,
            None => {
                let mut fs: Vec<(String, Value)> = Vec::new();
                let e: Vec<Value> = Vec::new();
                proof {
                    lemma_list_model(e);
                }
                fs.push((lit_edges(), Value::List(e)));
                fs.push((lit_page_info(), Value::Null));
                proof {
                    lemma_object_model(fs);
                    assert(Seq::new(e@.len(), |i: int| e@[i]@) =~= Seq::<Json>::empty());
                    assert(fields_model(fs@) =~= seq![(edges_key(), Json::List(Seq::empty())), (page_info_key(), Json::Null)]);
                }
                Value::Object(fs)
            },
        };
        proof {
            assert(rec@ == rec0);
        }
        let updated = match rec {
            Value::Object(mut fs) => {
                let ghost f0 = fields_model(fs@);
                proof {
                    lemma_object_model(fs);
                    lemma_key_index(f0, edges_key());
                }
                match find_name(&fs, &ek) {
                    Some(ei) => {
                        proof {
                            lemma_key_index_at(f0, edges_key(), ei as int);
                        }
                        let mut slot = (String::new(), Value::Null);
                        fs.set_and_swap(ei, &mut slot);
                        let (sk, sv) = slot;
                        match sv {
                            Value::List(mut lst) => {
                                proof {
                                    lemma_list_model(lst);
                                    assert(f0[ei as int].1 == Json::List(items_model(lst@)));
                                }
                                if !append {
                                    lst = Vec::new();
                                }
                                proof {
                                    assert(items_model(lst@) =~= if append { f0[ei as int].1->List_0 } else { Seq::<Json>::empty() });
                                }
                                append_edges_exec(&mut lst, &new_edges);
                                let ghost lm = items_model(lst@);
                                let mut back = (sk, Value::List(lst));
                                fs.set_and_swap(ei, &mut back);
                                proof {
                                    lemma_list_model(lst);
                                    assert(items_model(lst@) == lm);
                                    assert(fields_model(fs@) =~= f0.update(ei as int, (edges_key(), Json::List(lm))));
                                }
                            },
                            other => {
                                let mut back = (sk, other);
                                fs.set_and_swap(ei, &mut back);
                                proof {
                                    assert(fields_model(fs@) =~= f0);
                                }
                            },
                        }
                    },
                    None => {
                        proof {
                            lemma_key_index_at(f0, edges_key(), f0.len() as int);
                        }
                    },
                }
                let ghost f1 = fields_model(fs@);
                proof {
                    lemma_key_index(f1, page_info_key());
                }
                match find_name(&fs, &pk) {
                    Some(pi) => {
                        proof {
                            lemma_key_index_at(f1, page_info_key(), pi as int);
                        }
                        let ghost piv = page_info@;
                        let mut slot = (pk, page_info);
                        fs.set_and_swap(pi, &mut slot);
                        proof {
                            assert(fields_model(fs@) =~= f1.update(pi as int, (page_info_key(), piv)));
                        }
                    },
                    None => {
                        proof {
                            lemma_key_index_at(f1, page_info_key(), f1.len() as int);
                        }
                    },
                }
                proof {
                    lemma_object_model(fs);
                }
                Value::Object(fs)
            },
            other => other,
        };
        proof {
            assert(updated@ == connection_after(rec0, items_model(new_edges@), page_info@, append));
        }
        self.put(conn_key.to_owned(), updated);
        let ghost tb = strings_model(touched@);
        touched.push(conn_key.to_owned());
        proof {
            assert(strings_model(touched@) =~= tb.push(conn_key@));
        }
        self.bump_all(&touched);
    }

    /// The connection record with its references inlined (`{}` when there is none).
    pub fn read_connection(&self, conn_key: &str) -> (r: Value)
        ensures
            r@ == denorm(self.records(), match self.entity(conn_key@) { Some(c) => c, None => empty_object() }, self.records().len()),
    {
        match self.read_entity(conn_key) {
            Some(v) => v,
            None => {
                let e: Vec<(String, Value)> = Vec::new();
                proof {
                    lemma_object_model(e);
                    assert(fields_model(e@) =~= Seq::<(Seq<char>, Json)>::empty());
                    if let Json::Object(w) = denorm(self.records(), empty_object(), self.records().len()) {
                        assert(w =~= Seq::<(Seq<char>, Json)>::empty());
                    }
                }
                Value::Object(e)
            },
        }
    }
}


// ───────────────────────────── reactive versions ─────────────────────────────

/// The version signals of a store's entities, held in a reactive runtime: reading an
/// entity through [`StoreSignals::read_entity_in`] inside an effect subscribes the effect
/// to that entity's signal, and bumping the entity through [`StoreSignals::bump_in`]
/// writes the signal, so the effect re-runs.  A signal's value does not matter (a write
/// queues the readers whatever it holds); new signals start at `tick`.
pub struct StoreSignals<V> {
    sigs: Vec<(String, Signal)>,
    tick: V,
}

impl<V: Clone + PartialEq + 'static> StoreSignals<V> {
    /// The signals by key.
    pub closed spec fn table(&self) -> Seq<(Seq<char>, Signal)> {
        self.sigs@.map_values(|p: (String, Signal)| (p.0@, p.1))
    }

    /// The version signal of `key`, once one was made.
    pub open spec fn signal_of(&self, key: Seq<char>) -> Option<Signal> {
        lookup(self.table(), key)
    }

    /// Every signal belongs to `rt`.
    pub open spec fn valid(&self, rt: Runtime<V>) -> bool {
        &&& rt.wf()
        &&& forall|i: int| 0 <= i < self.table().len() ==> #[trigger] self.table()[i].1.id < rt.n_signals()
    }

    /// No signals yet.
    pub fn new(tick: V) -> (s: StoreSignals<V>)
        ensures
            s.table().len() == 0,
            forall|rt: Runtime<V>| rt.wf() ==> s.valid(rt),
    {
        StoreSignals { sigs: Vec::new(), tick }
    }

    /// The table stays valid while the runtime only grows.
    pub proof fn lemma_valid_grows(&self, a: Runtime<V>, b: Runtime<V>)
        requires
            self.valid(a),
            graph_grows(a, b),
        ensures
            self.valid(b),
    {
    }

    /// The signal of `key`, made (holding `tick`) when there is none yet.
    fn signal_for(&mut self, rt: &mut Runtime<V>, key: &str) -> (sig: Signal)
        requires
            old(self).valid(*old(rt)),
        ensures
            final(self).valid(*final(rt)),
            keeps_graph(*old(rt), *final(rt)),
            final(self).signal_of(key@) == Some(sig),
            sig.id < final(rt).n_signals(),
            old(self).signal_of(key@) matches Some(s0) ==> sig == s0 && *final(rt) == *old(rt)
                && final(self).table() == old(self).table(),
            old(self).signal_of(key@) is None ==> final(self).table() == old(self).table().push((key@, sig)),
            final(rt).tracking() == old(rt).tracking(),
            final(rt).n_effects() == old(rt).n_effects(),
            forall|e: int| 0 <= e < old(rt).n_effects() ==> #[trigger] final(rt).is_alive(e) == old(rt).is_alive(e),
            forall|k: Seq<char>| #[trigger] old(self).signal_of(k) is Some ==> final(self).signal_of(k) == old(self).signal_of(k),
    {
        let k = key.to_owned();
        proof {
            lemma_key_index(self.table(), key@);
        }
        match find_name(&self.sigs, &k) {
            Some(i) => {
                proof {
                    assert forall|j: int| 0 <= j < i implies self.table()[j].0 != key@ by {
                        assert(self.table()[j].0 == self.sigs@[j].0@);
                    }
                    assert(self.table()[i as int] == (self.sigs@[i as int].0@, self.sigs@[i as int].1));
                    lemma_key_index_at(self.table(), key@, i as int);
                    lemma_key_index(self.table(), key@);
                    assert(key_index(self.table(), key@) == i as int);
                    assert(lookup(self.table(), key@) == Some(self.sigs@[i as int].1));
                    lemma_keeps_refl(*rt);
                }
                let sig = self.sigs[i].1;
                proof {
                    assert(self.signal_of(key@) == Some(sig));
                }
                sig
            },
            None => {
                let ghost t0 = self.table();
                let sig = Signal::new(rt, self.tick.clone());
                self.sigs.push((k, sig));
                proof {
                    assert forall|j: int| 0 <= j < t0.len() implies t0[j].0 != key@ by {
                        assert(t0[j].0 == old(self).sigs@[j].0@);
                    }
                    lemma_key_index_at(t0, key@, t0.len() as int);
                    assert(self.table() =~= t0.push((key@, sig)));
                    lemma_key_index_at(self.table(), key@, t0.len() as int);
                    lemma_key_index(self.table(), key@);
                    assert(self.signal_of(key@) == Some(sig));
                    assert forall|i: int| 0 <= i < self.table().len() implies #[trigger] self.table()[i].1.id < rt.n_signals() by {
                        if i < t0.len() {
                            assert(self.table()[i] == t0[i]);
                        }
                    }
                    assert forall|k2: Seq<char>| #[trigger] lookup(t0, k2) is Some implies lookup(self.table(), k2) == lookup(t0, k2) by {
                        lemma_key_index(t0, k2);
                        let x = key_index(t0, k2);
                        assert forall|j: int| 0 <= j < x implies self.table()[j].0 != k2 by {
                            assert(self.table()[j] == t0[j]);
                        }
                        assert(self.table()[x] == t0[x]);
                        lemma_key_index_at(self.table(), k2, x);
                        lemma_key_index(self.table(), k2);
                    }
                }
                sig
            },
        }
    }

    /// Reads entity `key` (as `Store::read_entity`), subscribing the running effect, if
    /// any, to the entity's version signal.
    pub fn read_entity_in(&mut self, rt: &mut Runtime<V>, store: &Store, key: &str) -> (r: Option<Value>)
        requires
            old(self).valid(*old(rt)),
        ensures
            final(self).valid(*final(rt)),
            keeps_graph(*old(rt), *final(rt)),
            final(self).signal_of(key@) is Some,
            match r {
                Some(v) => store.entity(key@) matches Some(raw) && v@ == denorm(store.records(), raw, store.records().len()),
                None => store.entity(key@) is None,
            },
            match old(rt).tracking() {
                Some(e) => old(rt).is_alive(e as int) ==>
                    final(rt).subscribers(final(self).signal_of(key@)->0.id as int).contains(e),
                None => true,
            },
    {
        let sig = self.signal_for(rt, key);
        let ghost mid = *rt;
        proof {
            old(rt).lemma_tracking_bound();
            if let Some(e) = old(rt).tracking() {
                if old(rt).is_alive(e as int) {
                    assert(mid.is_alive(e as int));
                }
            }
        }
        let _ = sig.get(rt);
        proof {
            lemma_keeps_trans(*old(rt), mid, *rt);
            self.lemma_valid_grows(mid, *rt);
            assert(self.signal_of(key@) == Some(sig));
        }
        store.read_entity(key)
    }

    /// Bumps entity `key`: its version counter in `store` (as `Store::bump`) and its
    /// version signal, which queues every effect that read the entity through
    /// `read_entity_in` and is still subscribed; outside a batch and a running flush they
    /// re-run at once.
    pub fn bump_in(&mut self, rt: &mut Runtime<V>, store: &mut Store, key: &str) -> (converged: bool)
        requires
            old(self).valid(*old(rt)),
            old(store).wf(),
        ensures
            final(self).valid(*final(rt)),
            keeps_graph(*old(rt), *final(rt)),
            final(store).wf(),
            final(store).records() == old(store).records(),
            final(store).counters() == set_field(old(store).counters(), key@, sat_inc(old(store).version_of(key@))),
            final(self).signal_of(key@) is Some,
            forall|k: Seq<char>| #[trigger] old(self).signal_of(k) is Some ==> final(self).signal_of(k) == old(self).signal_of(k),
            old(self).signal_of(key@) matches Some(sig) ==> {
                (old(rt).batch_depth() == 0 && !old(rt).is_flushing() && converged) ==>
                    forall|e: int| 0 <= e < old(rt).n_effects() && #[trigger] old(rt).subscribers(sig.id as int).contains(e as usize)
                        ==> new_runs(*old(rt), *final(rt)).contains(e as usize) || !final(rt).is_alive(e)
            },
    {
        store.bump(key);
        let sig = self.signal_for(rt, key);
        let ghost mid = *rt;
        let v = sig.peek(rt);
        let c = sig.set(rt, v);
        proof {
            lemma_keeps_trans(*old(rt), mid, *rt);
            self.lemma_valid_grows(mid, *rt);
        }
        c
    }

    /// Bumps every key of `keys`, in order (a key listed twice is bumped twice).
    pub fn bump_all_in(&mut self, rt: &mut Runtime<V>, store: &mut Store, keys: &Vec<String>)
        requires
            old(self).valid(*old(rt)),
            old(store).wf(),
        ensures
            final(self).valid(*final(rt)),
            keeps_graph(*old(rt), *final(rt)),
            final(store).wf(),
            final(store).records() == old(store).records(),
            final(store).counters() == bumped(old(store).counters(), strings_model(keys@)),
            forall|k: int| 0 <= k < keys@.len() ==> #[trigger] final(self).signal_of(keys@[k]@) is Some,
    {
        let mut i: usize = 0;
        proof {
            lemma_keeps_refl(*rt);
            assert(strings_model(keys@).take(0) =~= Seq::<Seq<char>>::empty());
        }
        while i < keys.len()
            invariant
                0 <= i <= keys@.len(),
                self.valid(*rt),
                store.wf(),
                keeps_graph(*old(rt), *rt),
                store.records() == old(store).records(),
                store.counters() == bumped(old(store).counters(), strings_model(keys@).take(i as int)),
                forall|k: int| 0 <= k < i ==> #[trigger] self.signal_of(keys@[k]@) is Some,
            decreases keys@.len() - i,
        {
            let ghost before = *rt;
            let ghost s0 = *self;
            proof {
                assert(strings_model(keys@).take(i + 1).drop_last() =~= strings_model(keys@).take(i as int));
                assert(strings_model(keys@).take(i + 1).last() == keys@[i as int]@);
            }
            let _ = self.bump_in(rt, store, keys[i].as_str());
            proof {
                lemma_keeps_trans(*old(rt), before, *rt);
                assert forall|k: int| 0 <= k < i + 1 implies #[trigger] self.signal_of(keys@[k]@) is Some by {
                    if k < i {
                        assert(s0.signal_of(keys@[k]@) is Some);
                    }
                }
            }
            i += 1;
        }
        proof {
            assert(strings_model(keys@).take(keys@.len() as int) =~= strings_model(keys@));
        }
    }
}
} // verus!

verus! {

// ───────────────────────────── read-back and key laws ─────────────────────────────

/// `j` is a reference object `{"$ref": "k"}`.
pub open spec fn is_ref_object(j: Json) -> bool {
    &&& j is Object
    &&& j->Object_0.len() == 1
    &&& j->Object_0[0].0 == ref_key()
    &&& j->Object_0[0].1 is Str
}

/// Somewhere in `j` (at any depth, in object fields and list items) stands a reference
/// object.
pub open spec fn has_ref(j: Json) -> bool
    decreases j,
{
    match j {
        Json::Object(fs) => is_ref_object(j) || exists|i: int| 0 <= i < fs.len() && #[trigger] has_ref(fs[i].1),
        Json::List(xs) => exists|i: int| 0 <= i < xs.len() && #[trigger] has_ref(xs[i]),
        _ => false,
    }
}

/// Reading back inlines every reference, at every depth: in a store whose records are not
/// bare strings, what `denorm` gives holds no reference object at all (a reference is
/// replaced by the record it names, itself read back, or by `null` when the record is
/// missing or the budget is spent).
pub proof fn law_read_back_inlines_every_ref(s: Seq<(Seq<char>, Json)>, j: Json, fuel: nat)
    requires
        forall|i: int| 0 <= i < s.len() ==> !(#[trigger] s[i].1 is Str),
    ensures
        !has_ref(denorm(s, j, fuel)),
    decreases fuel, j,
{
    match j {
        Json::Object(fs) => {
            if fs.len() == 1 && fs[0].0 == ref_key() && fs[0].1 is Str {
                if fuel > 0 {
                    lemma_key_index(s, fs[0].1->Str_0);
                    match lookup(s, fs[0].1->Str_0) {
                        Some(r) => {
                            law_read_back_inlines_every_ref(s, r, (fuel - 1) as nat);
                        },
                        None => {},
                    }
                }
            } else {
                let d = denorm(s, j, fuel);
                let ds = d->Object_0;
                assert forall|i: int| 0 <= i < ds.len() implies !has_ref(#[trigger] ds[i].1) by {
                    assert(ds[i].1 == denorm(s, fs[i].1, fuel));
                    law_read_back_inlines_every_ref(s, fs[i].1, fuel);
                }
                if is_ref_object(d) {
                    assert(ds[0].0 == fs[0].0);
                    let v = fs[0].1;
                    assert(ds[0].1 == denorm(s, v, fuel));
                    assert(!(v is Str));
                    lemma_denorm_not_str(s, v, fuel);
                    assert(false);
                }
            }
        },
        Json::List(xs) => {
            let d = denorm(s, j, fuel);
            let ds = d->List_0;
            assert forall|i: int| 0 <= i < ds.len() implies !has_ref(#[trigger] ds[i]) by {
                assert(ds[i] == denorm(s, xs[i], fuel));
                law_read_back_inlines_every_ref(s, xs[i], fuel);
            }
        },
        _ => {},
    }
}

/// What is not a string does not read back as one, when no record is a string.
proof fn lemma_denorm_not_str(s: Seq<(Seq<char>, Json)>, j: Json, fuel: nat)
    requires
        forall|i: int| 0 <= i < s.len() ==> !(#[trigger] s[i].1 is Str),
        !(j is Str),
    ensures
        !(denorm(s, j, fuel) is Str),
    decreases fuel,
{
    if let Json::Object(fs) = j {
        if fs.len() == 1 && fs[0].0 == ref_key() && fs[0].1 is Str && fuel > 0 {
            lemma_key_index(s, fs[0].1->Str_0);
            if let Some(r) = lookup(s, fs[0].1->Str_0) {
                lemma_denorm_not_str(s, r, (fuel - 1) as nat);
            }
        }
    }
}

/// A reference reads back as the record it names, itself read back with one level less.
pub proof fn law_ref_reads_as_record(s: Seq<(Seq<char>, Json)>, k: Seq<char>, fuel: nat)
    ensures
        lookup(s, k) matches Some(r) ==>
            denorm(s, Json::Object(seq![(ref_key(), Json::Str(k))]), fuel + 1) == denorm(s, r, fuel),
        lookup(s, k) is None ==> denorm(s, Json::Object(seq![(ref_key(), Json::Str(k))]), fuel + 1) == Json::Null,
{
    let j = Json::Object(seq![(ref_key(), Json::Str(k))]);
    assert(j->Object_0[0].1->Str_0 == k);
}

/// Entity `k` stands somewhere in `j`: `j` itself, or anything inside its fields or items,
/// at any depth, is an object whose entity key is `k`.
pub open spec fn holds_entity(j: Json, k: Seq<char>) -> bool
    decreases j, 0nat,
{
    match j {
        Json::Object(fs) => entity_key(j) == Some(k) || entity_in_fields(fs, fs.len(), k),
        Json::List(xs) => entity_in_items(xs, xs.len(), k),
        _ => false,
    }
}

/// Entity `k` stands in one of the first `n` items.
pub open spec fn entity_in_items(xs: Seq<Json>, n: nat, k: Seq<char>) -> bool
    decreases xs, n + 1,
{
    if n == 0 || n > xs.len() {
        false
    } else {
        entity_in_items(xs, (n - 1) as nat, k) || holds_entity(xs[n - 1], k)
    }
}

/// Entity `k` stands in the value of one of the first `n` fields.
pub open spec fn entity_in_fields(fs: Seq<(Seq<char>, Json)>, n: nat, k: Seq<char>) -> bool
    decreases fs, n + 1,
{
    if n == 0 || n > fs.len() {
        false
    } else {
        entity_in_fields(fs, (n - 1) as nat, k) || holds_entity(fs[n - 1].1, k)
    }
}

proof fn lemma_concat_contains<T>(a: Seq<T>, b: Seq<T>, x: T)
    ensures
        (a + b).contains(x) <==> (a.contains(x) || b.contains(x)),
{
    if (a + b).contains(x) {
        let i = choose|i: int| 0 <= i < (a + b).len() && (a + b)[i] == x;
        if i < a.len() {
            assert(a[i] == x);
        } else {
            assert(b[i - a.len()] == x);
        }
    }
    if a.contains(x) {
        let i = choose|i: int| 0 <= i < a.len() && a[i] == x;
        assert((a + b)[i] == x);
    }
    if b.contains(x) {
        let i = choose|i: int| 0 <= i < b.len() && b[i] == x;
        assert((a + b)[i + a.len()] == x);
    }
}

proof fn lemma_keys_items(xs: Seq<Json>, n: nat, k: Seq<char>)
    ensures
        keys_in_items(xs, n).contains(k) <==> entity_in_items(xs, n, k),
    decreases xs, n + 1,
{
    if n > 0 && n <= xs.len() {
        lemma_keys_items(xs, (n - 1) as nat, k);
        law_keys_of_finds_every_entity(xs[n - 1], k);
        lemma_concat_contains(keys_in_items(xs, (n - 1) as nat), keys_in(xs[n - 1]), k);
    } else {
        assert(keys_in_items(xs, n) =~= Seq::<Seq<char>>::empty());
    }
}

proof fn lemma_keys_fields(fs: Seq<(Seq<char>, Json)>, n: nat, k: Seq<char>)
    ensures
        keys_in_fields(fs, n).contains(k) <==> entity_in_fields(fs, n, k),
    decreases fs, n + 1,
{
    if n > 0 && n <= fs.len() {
        lemma_keys_fields(fs, (n - 1) as nat, k);
        law_keys_of_finds_every_entity(fs[n - 1].1, k);
        lemma_concat_contains(keys_in_fields(fs, (n - 1) as nat), keys_in(fs[n - 1].1), k);
    } else {
        assert(keys_in_fields(fs, n) =~= Seq::<Seq<char>>::empty());
    }
}

/// An entity held by an item or a field value is held by the list or object.
pub proof fn lemma_entity_in_part(xs: Seq<Json>, fs: Seq<(Seq<char>, Json)>, i: int, k: Seq<char>)
    ensures
        0 <= i < xs.len() && holds_entity(xs[i], k) ==> entity_in_items(xs, xs.len(), k),
        0 <= i < fs.len() && holds_entity(fs[i].1, k) ==> entity_in_fields(fs, fs.len(), k),
{
    if 0 <= i < xs.len() && holds_entity(xs[i], k) {
        lemma_items_mono(xs, (i + 1) as nat, xs.len(), k);
    }
    if 0 <= i < fs.len() && holds_entity(fs[i].1, k) {
        lemma_fields_mono(fs, (i + 1) as nat, fs.len(), k);
    }
}

proof fn lemma_items_mono(xs: Seq<Json>, m: nat, n: nat, k: Seq<char>)
    requires
        m <= n <= xs.len(),
        entity_in_items(xs, m, k),
    ensures
        entity_in_items(xs, n, k),
    decreases n,
{
    if n > m {
        lemma_items_mono(xs, m, (n - 1) as nat, k);
    }
}

proof fn lemma_fields_mono(fs: Seq<(Seq<char>, Json)>, m: nat, n: nat, k: Seq<char>)
    requires
        m <= n <= fs.len(),
        entity_in_fields(fs, m, k),
    ensures
        entity_in_fields(fs, n, k),
    decreases n,
{
    if n > m {
        lemma_fields_mono(fs, m, (n - 1) as nat, k);
    }
}

/// The keys `keys_of` collects are exactly the entity keys found anywhere in the value: the
/// value itself, and every object nested at any depth inside fields (of entities or not)
/// and list items.
pub proof fn law_keys_of_finds_every_entity(j: Json, k: Seq<char>)
    ensures
        keys_in(j).contains(k) <==> holds_entity(j, k),
    decreases j, 0nat,
{
    match j {
        Json::List(xs) => {
            lemma_keys_items(xs, xs.len(), k);
        },
        Json::Object(fs) => {
            lemma_keys_fields(fs, fs.len(), k);
            let top: Seq<Seq<char>> = match entity_key(j) { Some(e) => seq![e], None => Seq::empty() };
            lemma_concat_contains(top, keys_in_fields(fs, fs.len()), k);
            if entity_key(j) == Some(k) {
                assert(top[0] == k);
            }
            if top.contains(k) {
                assert(entity_key(j) == Some(k));
            }
        },
        _ => {},
    }
}

/// The value of field `k` of an object (`None` for a missing field or a non-object).
pub open spec fn field_value(j: Json, k: Seq<char>) -> Option<Json> {
    match j {
        Json::Object(fs) => lookup(fs, k),
        _ => None,
    }
}

proof fn lemma_append_edges_from(lst: Seq<Json>, new: Seq<Json>, i: int)
    requires
        0 <= i < append_edges(lst, new).len(),
    ensures
        lst.contains(append_edges(lst, new)[i]) || new.contains(append_edges(lst, new)[i]),
    decreases new.len(),
{
    if new.len() > 0 {
        let p = append_edges(lst, new.drop_last());
        let x = append_edges(lst, new)[i];
        if i < p.len() {
            lemma_append_edges_from(lst, new.drop_last(), i);
            assert(x == p[i]);
            if new.drop_last().contains(x) {
                let j = choose|j: int| 0 <= j < new.drop_last().len() && new.drop_last()[j] == x;
                assert(new[j] == x);
            }
        } else {
            assert(x == new[new.len() - 1]);
        }
    }
}

proof fn lemma_field_after_updates(fs: Seq<(Seq<char>, Json)>, ei: int, x: Json, pv: Json)
    requires
        0 <= ei < fs.len(),
        key_index(fs, edges_key()) == ei,
    ensures
        ({
            let fs1 = fs.update(ei, (edges_key(), x));
            let pi = key_index(fs1, page_info_key());
            lookup(if pi >= 0 { fs1.update(pi, (page_info_key(), pv)) } else { fs1 }, edges_key()) == Some(x)
        }),
{
    lemma_key_index(fs, edges_key());
    let fs1 = fs.update(ei, (edges_key(), x));
    assert(edges_key() != page_info_key()) by {
        assert(edges_key()[0] != page_info_key()[0]);
    }
    lemma_key_index(fs1, page_info_key());
    let pi = key_index(fs1, page_info_key());
    let fs2 = if pi >= 0 { fs1.update(pi, (page_info_key(), pv)) } else { fs1 };
    assert forall|j: int| 0 <= j < ei implies fs2[j].0 != edges_key() by {
        assert(fs[j].0 != edges_key());
    }
    assert(fs2[ei] == (edges_key(), x));
    lemma_key_index_at(fs2, edges_key(), ei);
    lemma_key_index(fs2, edges_key());
}

/// Merging a page without appending replaces the connection's edges: what they become is
/// the same whatever edges the record held before, and every edge comes from the page
/// (each cursor of the page is present, as the append merge keeps it too).
pub proof fn law_replace_merge_ignores_old_edges(fs1: Seq<(Seq<char>, Json)>, fs2: Seq<(Seq<char>, Json)>, new: Seq<Json>, pi: Json)
    requires
        key_index(fs1, edges_key()) >= 0,
        fs1[key_index(fs1, edges_key())].1 is List,
        key_index(fs2, edges_key()) >= 0,
        fs2[key_index(fs2, edges_key())].1 is List,
    ensures
        field_value(connection_after(Json::Object(fs1), new, pi, false), edges_key())
            == field_value(connection_after(Json::Object(fs2), new, pi, false), edges_key()),
        field_value(connection_after(Json::Object(fs1), new, pi, false), edges_key()) matches Some(Json::List(es)) && {
            &&& forall|i: int| 0 <= i < es.len() ==> new.contains(#[trigger] es[i])
            &&& forall|j: int| 0 <= j < new.len() ==> has_cursor(es, cursor_of(#[trigger] new[j]))
        },
{
    lemma_key_index(fs1, edges_key());
    lemma_key_index(fs2, edges_key());
    let es = append_edges(Seq::empty(), new);
    lemma_field_after_updates(fs1, key_index(fs1, edges_key()), Json::List(es), pi);
    lemma_field_after_updates(fs2, key_index(fs2, edges_key()), Json::List(es), pi);
    assert forall|i: int| 0 <= i < es.len() implies new.contains(#[trigger] es[i]) by {
        lemma_append_edges_from(Seq::empty(), new, i);
    }
    assert forall|j: int| 0 <= j < new.len() implies has_cursor(es, cursor_of(#[trigger] new[j])) by {
        lemma_append_edges_covers(Seq::empty(), new, j);
    }
}

proof fn lemma_append_edges_prefix(lst: Seq<Json>, new: Seq<Json>)
    ensures
        lst.len() <= append_edges(lst, new).len(),
        append_edges(lst, new).subrange(0, lst.len() as int) == lst,
    decreases new.len(),
{
    if new.len() > 0 {
        lemma_append_edges_prefix(lst, new.drop_last());
        let p = append_edges(lst, new.drop_last());
        assert(p.push(new.last()).subrange(0, lst.len() as int) =~= p.subrange(0, lst.len() as int));
    }
}

/// Merging a page with `append` keeps the connection's old edges, in order, in front,
/// adds the page's edges after them (each cursor of the page is then present), and takes
/// every edge from the old ones or the page.
pub proof fn law_append_merge_keeps_old_edges(fs: Seq<(Seq<char>, Json)>, new: Seq<Json>, pi: Json)
    requires
        key_index(fs, edges_key()) >= 0,
        fs[key_index(fs, edges_key())].1 is List,
    ensures
        ({
            let old_edges = fs[key_index(fs, edges_key())].1->List_0;
            field_value(connection_after(Json::Object(fs), new, pi, true), edges_key()) matches Some(Json::List(es)) && {
                &&& old_edges.len() <= es.len()
                &&& es.subrange(0, old_edges.len() as int) == old_edges
                &&& forall|j: int| 0 <= j < new.len() ==> has_cursor(es, cursor_of(#[trigger] new[j]))
                &&& forall|i: int| 0 <= i < es.len() ==> old_edges.contains(#[trigger] es[i]) || new.contains(es[i])
            }
        }),
{
    lemma_key_index(fs, edges_key());
    let old_edges = fs[key_index(fs, edges_key())].1->List_0;
    let es = append_edges(old_edges, new);
    lemma_field_after_updates(fs, key_index(fs, edges_key()), Json::List(es), pi);
    lemma_append_edges_prefix(old_edges, new);
    assert forall|i: int| 0 <= i < es.len() implies old_edges.contains(#[trigger] es[i]) || new.contains(es[i]) by {
        lemma_append_edges_from(old_edges, new, i);
    }
    assert forall|j: int| 0 <= j < new.len() implies has_cursor(es, cursor_of(#[trigger] new[j])) by {
        lemma_append_edges_covers(old_edges, new, j);
    }
}

} // verus!
