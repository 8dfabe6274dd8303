//! The query layer under entity resolvers: an entity's table mapping, parameterised
//! scalar bindings, restricted filters, read plans whose columns follow the GraphQL
//! selection (projection pushdown), and write plans.  The database driver is the host's
//! (`DbExecutor`); this layer never names one.
use vstd::prelude::*;
use vstd::std_specs::convert::FromSpecImpl;
use crate::gql::value::{Value, FromValue, model};

verus! {

/// The table mapping of an entity (the entity derive implements it); a GraphQL field name
/// is its column name.
pub trait SqlEntity {
    const TABLE: &'static str;
    /// The primary key's field (= column).
    const PK: &'static str;
    /// Every field (= column).
    const COLUMNS: &'static [&'static str];
}

/// A bound scalar (queries are parameterised, never spliced).
#[derive(Clone, Debug)]
pub enum Scalar {
    Str(String),
    Bool(bool),
    Int(i64),
}

impl From<String> for Scalar {
    fn from(s: String) -> (r: Scalar) {
        Scalar::Str(s)
    }
}

impl FromSpecImpl<String> for Scalar {
    open spec fn obeys_from_spec() -> bool {
        true
    }

    open spec fn from_spec(s: String) -> Scalar {
        Scalar::Str(s)
    }
}

impl From<bool> for Scalar {
    fn from(b: bool) -> (r: Scalar) {
        Scalar::Bool(b)
    }
}

impl FromSpecImpl<bool> for Scalar {
    open spec fn obeys_from_spec() -> bool {
        true
    }

    open spec fn from_spec(b: bool) -> Scalar {
        Scalar::Bool(b)
    }
}

impl From<i64> for Scalar {
    fn from(i: i64) -> (r: Scalar) {
        Scalar::Int(i)
    }
}

impl FromSpecImpl<i64> for Scalar {
    open spec fn obeys_from_spec() -> bool {
        true
    }

    open spec fn from_spec(i: i64) -> Scalar {
        Scalar::Int(i)
    }
}

/// A restricted filter: column equals a value, or column contains a substring (the raw
/// text; the executor escapes pattern characters, so `%`, `_` and `\` match literally).
#[derive(Clone)]
pub enum Filter {
    Eq(String, Scalar),
    Contains(String, String),
}

/// A read plan: the columns come from the selection; filter, order and limit are restricted.
pub struct Query {
    pub table: &'static str,
    pub columns: Vec<String>,
    pub filter: Option<Filter>,
    pub order_by: Option<String>,
    pub limit: Option<i64>,
}

/// The value a write sets: a literal, or the column's boolean negation.
pub enum SetVal {
    Lit(Scalar),
    Toggle,
}

/// A write plan.
pub enum Write {
    Insert { table: &'static str, columns: Vec<String>, values: Vec<Scalar> },
    Update { table: &'static str, set: Vec<(String, SetVal)>, filter: Option<Filter> },
    Delete { table: &'static str, filter: Option<Filter> },
}

/// The database backend the host supplies: reads return rows of `(column, value)`.
pub trait DbExecutor {
    fn fetch(&self, q: &Query) -> Vec<Vec<(String, Value)>>;

    fn write(&self, w: &Write);
}

/// A read-query builder: `Q::new().eq("id", id).order("id").limit(10)`.
pub struct Q {
    pub filter: Option<Filter>,
    pub order_by: Option<String>,
    pub limit: Option<i64>,
}

impl Q {
    pub fn new() -> (q: Q)
        ensures
            q.filter is None,
            q.order_by is None,
            q.limit is None,
    {
        Q { filter: None, order_by: None, limit: None }
    }

    /// Filter on `col = v` (replacing any earlier filter).
    pub fn eq(self, col: &str, v: Scalar) -> (q: Q)
        ensures
            q.filter matches Some(Filter::Eq(c, x)) && c@ == col@ && x == v,
            q.order_by == self.order_by,
            q.limit == self.limit,
    {
        Q { filter: Some(Filter::Eq(col.to_owned(), v)), order_by: self.order_by, limit: self.limit }
    }

    /// Filter on `col` containing `v` literally (replacing any earlier filter).
    pub fn contains(self, col: &str, v: String) -> (q: Q)
        ensures
            q.filter matches Some(Filter::Contains(c, x)) && c@ == col@ && x == v,
            q.order_by == self.order_by,
            q.limit == self.limit,
    {
        Q { filter: Some(Filter::Contains(col.to_owned(), v)), order_by: self.order_by, limit: self.limit }
    }

    /// Order by `col`.
    pub fn order(self, col: &str) -> (q: Q)
        ensures
            q.order_by matches Some(c) && c@ == col@,
            q.filter == self.filter,
            q.limit == self.limit,
    {
        Q { filter: self.filter, order_by: Some(col.to_owned()), limit: self.limit }
    }

    /// At most `n` rows.
    pub fn limit(self, n: i64) -> (q: Q)
        ensures
            q.limit == Some(n),
            q.filter == self.filter,
            q.order_by == self.order_by,
    {
        Q { filter: self.filter, order_by: self.order_by, limit: Some(n) }
    }
}

pub open spec fn strs_view(v: Seq<&'static str>) -> Seq<Seq<char>> {
    Seq::new(v.len(), |i: int| v[i]@)
}

pub open spec fn strings_view(v: Seq<String>) -> Seq<Seq<char>> {
    Seq::new(v.len(), |i: int| v[i]@)
}

/// The columns that occur in the selection, in column order.
pub open spec fn selected_columns(cols: Seq<Seq<char>>, sel: Seq<Seq<char>>) -> Seq<Seq<char>>
    decreases cols.len(),
{
    if cols.len() == 0 {
        Seq::empty()
    } else {
        selected_columns(cols.drop_last(), sel) + (if sel.contains(cols.last()) { seq![cols.last()] } else {
            Seq::empty()
        })
    }
}

/// The columns a read loads: all of them when asked (`all`); else the selected ones (all of
/// them when none is selected), with the primary key added when missing (the normalized
/// cache keys entities by it).
pub open spec fn projected(cols: Seq<Seq<char>>, pk: Seq<char>, sel: Seq<Seq<char>>, all: bool) -> Seq<Seq<char>> {
    if all {
        cols
    } else {
        let c = selected_columns(cols, sel);
        let c2 = if c.len() == 0 { cols } else { c };
        if c2.contains(pk) { c2 } else { c2.push(pk) }
    }
}

fn same(a: &str, b: &str) -> (r: bool)
    ensures
        r == (a@ == b@),
{
    a.to_owned() == b.to_owned()
}

fn all_columns(cols: &[&'static str]) -> (r: Vec<String>)
    ensures
        strings_view(r@) == strs_view(cols@),
{
    let mut r: Vec<String> = Vec::new();
    let mut i: usize = 0;
    while i < cols.len()
        invariant
            0 <= i <= cols@.len(),
            r@.len() == i,
            forall|k: int| 0 <= k < i ==> (#[trigger] r@[k])@ == cols@[k]@,
        decreases cols@.len() - i,
    {
        r.push(cols[i].to_owned());
        i += 1;
    }
    proof {
        assert(strings_view(r@) =~= strs_view(cols@));
    }
    r
}

fn selection_has(sel: &Vec<String>, c: &str) -> (r: bool)
    ensures
        r == strings_view(sel@).contains(c@),
{
    let mut i: usize = 0;
    while i < sel.len()
        invariant
            0 <= i <= sel@.len(),
            forall|k: int| 0 <= k < i ==> sel@[k]@ != c@,
        decreases sel@.len() - i,
    {
        if same(sel[i].as_str(), c) {
            proof {
                assert(strings_view(sel@)[i as int] == c@);
            }
            return true;
        }
        i += 1;
    }
    proof {
        if strings_view(sel@).contains(c@) {
            let k = choose|k: int| 0 <= k < sel@.len() && strings_view(sel@)[k] == c@;
            assert(sel@[k]@ == c@);
        }
    }
    false
}

/// The columns to load for an entity given the current selection (see [`projected`]).
pub fn columns_for<E: SqlEntity>(selection: &Vec<String>, all: bool) -> (r: Vec<String>)
    ensures
        strings_view(r@) == projected(strs_view(E::COLUMNS@), E::PK@, strings_view(selection@), all),
{
    let cols: &[&'static str] = E::COLUMNS;
    if all {
        return all_columns(cols);
    }
    let ghost cv = strs_view(cols@);
    let ghost sv = strings_view(selection@);
    let mut r: Vec<String> = Vec::new();
    let mut i: usize = 0;
    while i < cols.len()
        invariant
            0 <= i <= cols@.len(),
            cv == strs_view(cols@),
            sv == strings_view(selection@),
            strings_view(r@) == selected_columns(cv.take(i as int), sv),
        decreases cols@.len() - i,
    {
        proof {
            assert(cv.take(i + 1).drop_last() =~= cv.take(i as int));
            assert(cv.take(i + 1).last() == cols@[i as int]@);
        }
        if selection_has(selection, cols[i]) {
            r.push(cols[i].to_owned());
        }
        proof {
            assert(strings_view(r@) =~= selected_columns(cv.take(i + 1), sv));
        }
        i += 1;
    }
    proof {
        assert(cv.take(cols@.len() as int) =~= cv);
    }
    if r.len() == 0 {
        r = all_columns(cols);
    }
    let ghost c2 = strings_view(r@);
    let mut has_pk = false;
    let mut k: usize = 0;
    while k < r.len()
        invariant
            0 <= k <= r@.len(),
            c2 == strings_view(r@),
            has_pk == (exists|j: int| 0 <= j < k && c2[j] == E::PK@),
        decreases r@.len() - k,
    {
        if same(r[k].as_str(), E::PK) {
            has_pk = true;
        }
        proof {
            assert(c2[k as int] == r@[k as int]@);
        }
        k += 1;
    }
    if !has_pk {
        r.push(E::PK.to_owned());
        proof {
            assert(strings_view(r@) =~= c2.push(E::PK@));
        }
    }
    r
}

/// The read plan for an entity: its table, the projected columns, and the builder's
/// filter, order and limit.
pub fn fetch_query<E: SqlEntity>(q: Q, selection: &Vec<String>, all: bool) -> (r: Query)
    ensures
        r.table == E::TABLE,
        strings_view(r.columns@) == projected(strs_view(E::COLUMNS@), E::PK@, strings_view(selection@), all),
        r.filter == q.filter,
        r.order_by == q.order_by,
        r.limit == q.limit,
{
    Query { table: E::TABLE, columns: columns_for::<E>(selection, all), filter: q.filter, order_by: q.order_by, limit: q.limit }
}


/// Each row read as an entity: a row is an object whose fields are its columns.
pub fn rows_to<E: FromValue>(rows: Vec<Vec<(String, Value)>>) -> (r: Vec<E>)
    ensures
        r@.len() == rows@.len(),
        forall|i: int| 0 <= i < rows@.len() ==> E::decodes(model(Value::Object(rows@[i])), #[trigger] r@[i]),
{
    let ghost all = rows@;
    let mut rows = rows;
    let mut rev: Vec<Vec<(String, Value)>> = Vec::new();
    while rows.len() > 0
        invariant
            rev@.len() + rows@.len() == all.len(),
            forall|k: int| 0 <= k < rows@.len() ==> #[trigger] rows@[k] == all[k],
            forall|k: int| 0 <= k < rev@.len() ==> #[trigger] rev@[k] == all[all.len() - 1 - k],
        decreases rows@.len(),
    {
        let row = rows.pop().unwrap();
        rev.push(row);
    }
    let mut out: Vec<E> = Vec::new();
    while rev.len() > 0
        invariant
            out@.len() + rev@.len() == all.len(),
            forall|k: int| 0 <= k < rev@.len() ==> #[trigger] rev@[k] == all[all.len() - 1 - k],
            forall|k: int| 0 <= k < out@.len() ==> E::decodes(model(Value::Object(all[k])), #[trigger] out@[k]),
        decreases rev@.len(),
    {
        let row = rev.pop().unwrap();
        let v = Value::Object(row);
        out.push(E::from_value(&v));
    }
    out
}

/// Reads entities through the host's database backend: the plan of [`fetch_query`] is
/// handed to it, and each row it returns is read as an entity (whatever rows come back).
pub fn fetch_from<E: SqlEntity + FromValue, D: DbExecutor + ?Sized>(db: &D, q: Q, selection: &Vec<String>, all: bool) -> (r: Vec<E>)
    ensures
        exists|rows: Seq<Vec<(String, Value)>>| #[trigger] rows.len() == r@.len()
            && forall|i: int| 0 <= i < rows.len() ==> E::decodes(model(Value::Object(rows[i])), #[trigger] r@[i]),
{
    let query = fetch_query::<E>(q, selection, all);
    let rows = db.fetch(&query);
    let ghost rs = rows@;
    let r = rows_to::<E>(rows);
    assert(rs.len() == r@.len());
    r
}

} // verus!
