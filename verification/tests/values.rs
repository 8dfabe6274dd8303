use rui::gql::value::{parse, FromValue, IntoValue, Value};
use rui::gql::{decode_rows, try_decode_rows, gql_escape, GqlElem, GqlObject, Reshape, Scalar, ToGqlArg};
use rui::jobs::{CronJob, CronTick, Job, JobCtx, JobDispatch, JobError, JobResult};

#[test]
fn from_value_collections() {
    let xs: Vec<i64> = FromValue::from_value(&parse("[1,2,3]"));
    assert_eq!(xs, vec![1, 2, 3]);
}

#[test]
fn cron_tick_roundtrip() {
    let json = IntoValue::into_value(&CronTick { count: 42 }).to_json();
    assert_eq!(json, "42");
    let back = <CronTick as FromValue>::from_value(&parse(&json));
    assert_eq!(back.count, 42);
    assert_eq!(<CronTick as FromValue>::from_value(&Value::Int(-5)).count, 0);
    assert_eq!(<CronTick as FromValue>::from_value(&Value::Null).count, 0);
}

struct DemoJob;

impl Job for DemoJob {
    type Payload = String;
    const NAME: &'static str = "demo";
    fn run(_ctx: &JobCtx, payload: String) -> JobResult {
        if payload == "boom" {
            Err(JobError::new("炸了"))
        } else {
            Ok(())
        }
    }
}

#[test]
fn enqueue_serializes_and_dispatches() {
    let json = IntoValue::into_value(&"hi".to_string()).to_json();
    assert_eq!(json, "\"hi\"");
    let dispatch: JobDispatch = |name, ctx, json| {
        if name == DemoJob::NAME {
            let p = <String as FromValue>::from_value(&parse(json));
            return Some(DemoJob::run(ctx, p));
        }
        None
    };
    let ctx = JobCtx::new("demo");
    assert!(matches!(dispatch("demo", &ctx, "\"hi\""), Some(Ok(()))));
    assert!(matches!(dispatch("demo", &ctx, "\"boom\""), Some(Err(_))));
    assert!(dispatch("unknown", &ctx, "\"x\"").is_none());
}

#[test]
fn integers_from_float_literals() {
    assert_eq!(parse("1.9").as_i64(), 1);
    assert_eq!(parse("-2.7").as_i64(), -2);
    assert_eq!(parse("1.5e3").as_i64(), 1500);
    assert_eq!(parse("25e-1").as_i64(), 2);
    assert_eq!(parse("-0.5").as_i64(), 0);
    assert_eq!(parse("1e400").as_i64(), i64::MAX);
    assert_eq!(parse("-1e400").as_i64(), i64::MIN);
    assert_eq!(parse("1e-400").as_i64(), 0);
    assert_eq!(parse("9223372036854775807.5").as_i64(), i64::MAX);
    assert_eq!(parse("-9223372036854775808.9").as_i64(), i64::MIN);
    assert_eq!(parse("0e99999999999999999999999").as_i64(), 0);
    assert_eq!(Value::Float("not a number".to_string()).as_i64(), 0);
    assert_eq!(Value::Str("5".to_string()).as_i64(), 0);
    assert_eq!(Value::Int(-7).as_i64(), -7);
}

#[test]
fn typed_reading_defaults_and_options() {
    let v = parse(r#"{"a":"x","b":true,"c":null,"d":[["p"],[]]}"#);
    assert_eq!(String::from_value(&v.field("a")), "x");
    assert!(bool::from_value(&v.field("b")));
    assert_eq!(<Option<String> as FromValue>::from_value(&v.field("c")), None);
    assert_eq!(<Option<String> as FromValue>::from_value(&v.field("a")), Some("x".to_string()));
    let nested: Vec<Vec<String>> = FromValue::from_value(&v.field("d"));
    assert_eq!(nested, vec![vec!["p".to_string()], vec![]]);
    let none: Vec<i64> = FromValue::from_value(&Value::Str("no".to_string()));
    assert!(none.is_empty());
    assert_eq!(String::from_value(&Value::Int(3)), "");
}

#[test]
fn typed_writing() {
    let v = vec![Some(1i64), None].into_value();
    assert_eq!(v.to_json(), "[1,null]");
    assert_eq!("a\"b".into_value().to_json(), "\"a\\\"b\"");
    assert_eq!(true.into_value().to_json(), "true");
}

#[test]
fn rows_from_envelopes() {
    let rows: Vec<i64> = decode_rows(r#"{"data":{"todos":[1,2]}}"#, "todos");
    assert_eq!(rows, vec![1, 2]);
    let bare: Vec<i64> = decode_rows("[3]", "todos");
    assert_eq!(bare, vec![3]);
    let missing: Vec<i64> = decode_rows(r#"{"data":{}}"#, "todos");
    assert!(missing.is_empty());
}

#[test]
fn graphql_argument_literals() {
    assert_eq!(gql_escape("a\\b\"c"), "a\\\\b\\\"c");
    assert_eq!("x\"y".to_gql_arg(), "\"x\\\"y\"");
    assert_eq!(String::from("q").to_gql_arg(), "\"q\"");
    assert_eq!((-12i64).to_gql_arg(), "-12");
    assert_eq!(i64::MIN.to_gql_arg(), "-9223372036854775808");
    assert_eq!(false.to_gql_arg(), "false");
}

#[test]
fn json_text_reads_back() {
    let v = Value::Object(vec![(
        "k\u{1}\"".to_string(),
        Value::List(vec![
            Value::Int(i64::MIN),
            Value::Float("-2.5E+3".to_string()),
            Value::Str("tab\there\r\\ \u{7f} é你".to_string()),
            Value::Null,
            Value::Bool(false),
            Value::List(vec![]),
            Value::Object(vec![]),
        ]),
    )]);
    assert_eq!(parse(&v.to_json()), v);
    // float text without `.`, `e` or `E` reads back as an integer
    assert_eq!(parse(&Value::Float("7".to_string()).to_json()), Value::Int(7));
}

struct Sweep;

impl Job for Sweep {
    type Payload = CronTick;
    const NAME: &'static str = "sweep";
    fn run(_ctx: &JobCtx, tick: CronTick) -> JobResult {
        if tick.count == 0 { Err(JobError::new("no firing")) } else { Ok(()) }
    }
}

impl CronJob for Sweep {
    const INTERVAL_SECS: u64 = 3600;
}

#[test]
fn cron_job_interval() {
    assert_eq!(<Sweep as CronJob>::INTERVAL_SECS, 3600);
    let tick = CronTick::from_value(&parse("3"));
    assert!(Sweep::run(&JobCtx::new(Sweep::NAME), tick).is_ok());
}

struct Order {
    id: String,
    total: i64,
}

impl GqlObject for Order {
    const TYPENAME: &'static str = "Order";
    fn gql_id(&self) -> Value {
        Value::Str(self.id.clone())
    }
    fn gql_field(&self, name: &str) -> Option<Value> {
        match name {
            "id" => Some(self.gql_id()),
            "total" => Some(Value::Int(self.total)),
            _ => None,
        }
    }
}

fn element_type<E: GqlElem>() -> &'static str {
    <E::Elem as GqlObject>::TYPENAME
}

#[test]
fn type_level_schema() {
    assert_eq!(element_type::<Vec<Order>>(), "Order");
    let o = Order { id: "o1".to_string(), total: 9 };
    assert_eq!(o.gql_field("total"), Some(Value::Int(9)));
    assert_eq!(o.gql_field("nope"), None);
    let names: <Vec<Order> as Reshape<String>>::Out = FromValue::from_value(&parse(r#"["a","b"]"#));
    assert_eq!(names, vec!["a".to_string(), "b".to_string()]);
    let n: <i64 as Scalar>::Out = FromValue::from_value(&parse("12"));
    assert_eq!(n, 12);
}

#[test]
fn try_decode_rows_decodes_or_refuses() {
    let rows: Option<Vec<i64>> = try_decode_rows(r#"{"data":{"todos":[1,2]}}"#, "todos");
    assert_eq!(rows, Some(vec![1, 2]));
    let refused: Option<Vec<i64>> = try_decode_rows("{\"\\", "todos");
    assert_eq!(refused, None);
}

#[test]
fn gql_literal_reads_back_as_json() {
    let s = r#"q "quoted" \ back"#;
    assert_eq!(parse(&s.to_gql_arg()), Value::Str(s.to_string()));
}

#[test]
fn gql_literal_with_control_characters_reads_back() {
    let s = "line\nnext\ttab\u{1}end";
    assert_eq!(parse(&s.to_gql_arg()), Value::Str(s.to_string()));
}
