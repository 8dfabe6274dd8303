use rui::gql::orm::{columns_for, fetch_from, fetch_query, rows_to, DbExecutor, Filter, Query, Scalar, SqlEntity, Write, Q};
use rui::gql::value::{FromValue, Json, Value};
use std::cell::RefCell;

#[derive(Debug, PartialEq)]
struct Todo {
    id: String,
    done: bool,
}

impl SqlEntity for Todo {
    const TABLE: &'static str = "todos";
    const PK: &'static str = "id";
    const COLUMNS: &'static [&'static str] = &["id", "text", "done"];
}

fn strings(v: &[&str]) -> Vec<String> {
    v.iter().map(|s| s.to_string()).collect()
}

#[test]
fn projection_follows_selection_and_keeps_the_key() {
    assert_eq!(columns_for::<Todo>(&strings(&["text"]), false), strings(&["text", "id"]));
    assert_eq!(columns_for::<Todo>(&strings(&["done", "id"]), false), strings(&["id", "done"]));
    assert_eq!(columns_for::<Todo>(&strings(&[]), false), strings(&["id", "text", "done"]));
    assert_eq!(columns_for::<Todo>(&strings(&["other"]), false), strings(&["id", "text", "done"]));
    assert_eq!(columns_for::<Todo>(&strings(&["text"]), true), strings(&["id", "text", "done"]));
}

#[test]
fn read_plans() {
    let q = fetch_query::<Todo>(Q::new().eq("id", Scalar::from(3i64)).order("id").limit(5), &strings(&["text"]), false);
    assert_eq!(q.table, "todos");
    assert_eq!(q.columns, strings(&["text", "id"]));
    assert!(matches!(q.filter, Some(Filter::Eq(ref c, Scalar::Int(3))) if c == "id"));
    assert_eq!(q.order_by.as_deref(), Some("id"));
    assert_eq!(q.limit, Some(5));
    let q = fetch_query::<Todo>(Q::new().contains("text", "50%".to_string()), &strings(&[]), true);
    assert!(matches!(q.filter, Some(Filter::Contains(ref c, ref v)) if c == "text" && v == "50%"));
    assert!(q.order_by.is_none() && q.limit.is_none());
}

impl FromValue for Todo {
    // The reading law is for the verifier only; nothing calls it when the program runs.
    fn decodes(_j: Json, _r: Self) -> bool {
        unreachable!()
    }

    fn from_value(v: &Value) -> Self {
        Todo { id: v.field("id").as_str().to_string(), done: v.field("done").as_bool() }
    }
}

struct Rows {
    seen: RefCell<Vec<Vec<String>>>,
}

impl DbExecutor for Rows {
    fn fetch(&self, q: &Query) -> Vec<Vec<(String, Value)>> {
        self.seen.borrow_mut().push(q.columns.clone());
        vec![
            vec![("id".to_string(), Value::Str("1".to_string())), ("done".to_string(), Value::Bool(true))],
            vec![("id".to_string(), Value::Str("2".to_string()))],
        ]
    }

    fn write(&self, _w: &Write) {}
}

#[test]
fn rows_read_as_entities_in_order() {
    let rows = vec![
        vec![("id".to_string(), Value::Str("a".to_string()))],
        vec![("done".to_string(), Value::Bool(true)), ("id".to_string(), Value::Str("b".to_string()))],
    ];
    let ts: Vec<Todo> = rows_to(rows);
    assert_eq!(ts, vec![Todo { id: "a".into(), done: false }, Todo { id: "b".into(), done: true }]);
}

#[test]
fn fetch_hands_the_plan_to_the_backend() {
    let db = Rows { seen: RefCell::new(Vec::new()) };
    let ts: Vec<Todo> = fetch_from(&db, Q::new(), &strings(&["done"]), false);
    assert_eq!(ts, vec![Todo { id: "1".into(), done: true }, Todo { id: "2".into(), done: false }]);
    assert_eq!(db.seen.borrow()[0], strings(&["done", "id"]));
}
