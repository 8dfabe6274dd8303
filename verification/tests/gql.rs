use rui::gql::exec::{execute, project, report_error, respond, Args};
use rui::gql::parser::{parse as parse_doc, AVal, OpKind};
use rui::gql::store::{keys_of, Store};
use rui::gql::value::{errors_message, parse, try_parse, Value};
use rui::gql::ToGqlArg;

fn float_of(v: &Value) -> f64 {
    match v {
        Value::Float(t) => t.parse::<f64>().unwrap(),
        Value::Int(n) => *n as f64,
        _ => panic!("not a number: {v:?}"),
    }
}

#[test]
fn roundtrip_nested() {
    let src = r#"{"a":1,"b":[{"x":true,"y":"hi\n"},{"x":false,"y":null}],"c":1.5,"d":-42}"#;
    let v = parse(src);
    assert_eq!(v.field("a"), Value::Int(1));
    assert_eq!(float_of(&v.field("c")), 1.5);
    assert_eq!(v.field("d"), Value::Int(-42));
    let b = v.field("b");
    let b = b.as_list();
    assert_eq!(b.len(), 2);
    assert!(b[0].field("x").as_bool());
    assert_eq!(b[0].field("y").as_str(), "hi\n");
    assert!(b[1].field("y").is_null());
    assert_eq!(parse(&v.to_json()), v);
}

#[test]
fn int_vs_float() {
    assert_eq!(parse("7"), Value::Int(7));
    assert_eq!(float_of(&parse("7.0")), 7.0);
    assert!(matches!(parse("7.0"), Value::Float(_)));
    assert_eq!(float_of(&parse("1e3")), 1000.0);
    assert!(matches!(parse("1e3"), Value::Float(_)));
}

#[test]
fn escapes() {
    let v = parse(r#""a\"b\\cé""#);
    assert_eq!(v.as_str(), "a\"b\\cé");
    assert_eq!(parse(&v.to_json()).as_str(), "a\"b\\cé");
}

#[test]
fn unicode_escape_and_control_chars() {
    assert_eq!(parse(r#""\u00e9\u4f60x""#).as_str(), "é你x");
    assert_eq!(parse(r#""\ud800""#).as_str(), "");
    assert_eq!(Value::Str("a\u{1}b".to_string()).to_json(), "\"a\\u0001b\"");
}

#[test]
fn malformed_numbers_read_as_float_zero() {
    assert_eq!(parse("-"), Value::Float("0".to_string()));
    assert_eq!(parse(""), Value::Float("0".to_string()));
    assert_eq!(parse("1.2.3"), Value::Float("0".to_string()));
    assert_eq!(parse("99999999999999999999"), Value::Float("99999999999999999999".to_string()));
}

#[test]
fn errors_message_classification() {
    assert_eq!(errors_message(&parse(r#"{"data":{"x":1},"errors":[]}"#)), None);
    assert_eq!(errors_message(&parse(r#"{"data":{"x":1}}"#)), None);
    assert_eq!(errors_message(&parse(r#"{"data":null,"errors":[{"message":"boom"}]}"#)), Some("boom".to_string()));
    assert_eq!(errors_message(&parse(r#"{"errors":[{"message":"a"},{"message":"b"}]}"#)), Some("a; b".to_string()));
    assert!(errors_message(&parse("0")).is_some());
    assert!(errors_message(&parse("{}")).is_some());
    assert!(errors_message(&parse(r#"{"errors":"boom"}"#)).is_some());
    assert_eq!(errors_message(&parse(r#"{"errors":[{}]}"#)), Some("GraphQL 错误".to_string()));
}

#[test]
fn nested_entity_normalized_and_denormalized() {
    let mut st = Store::new();
    let payload = parse(
        r#"[{"__typename":"Order","__id":"1","id":"1","items":[
            {"__typename":"Item","__id":"A","sku":"A","qty":2},
            {"__typename":"Item","__id":"B","sku":"B","qty":3}]}]"#,
    );
    let keys = st.merge_all(&payload);
    assert_eq!(keys, vec!["Order:1".to_string()]);
    assert_eq!(st.read_entity("Item:A").unwrap().field("sku").as_str(), "A");
    let raw = st.raw("Order:1").unwrap();
    assert_eq!(raw.field("items").as_list()[0].get("$ref").unwrap().as_str(), "Item:A");
    let order = st.read_entity("Order:1").unwrap();
    let items = order.field("items");
    let items = items.as_list();
    assert_eq!(items.len(), 2);
    assert_eq!(items[0].field("sku").as_str(), "A");
    assert_eq!(items[1].field("qty"), Value::Int(3));
    // nested entities were bumped, the top-level one is left to the caller
    assert_eq!(st.version("Item:A"), 1);
    assert_eq!(st.version("Order:1"), 0);
    st.reset();
    assert!(st.raw("Order:1").is_none());
}

#[test]
fn connection_append_and_node_update() {
    let mut st = Store::new();
    st.merge_connection(
        "@c",
        &parse(r#"{"edges":[{"node":{"__typename":"Stock","__id":"A","symbol":"A","price":1.0},"cursor":"A"}],
                   "page_info":{"has_next_page":true,"end_cursor":"A"}}"#),
        false,
    );
    st.merge_connection(
        "@c",
        &parse(r#"{"edges":[{"node":{"__typename":"Stock","__id":"B","symbol":"B","price":2.0},"cursor":"B"}],
                   "page_info":{"has_next_page":false,"end_cursor":"B"}}"#),
        true,
    );
    let conn = st.read_connection("@c");
    let edges = conn.field("edges");
    let edges = edges.as_list();
    assert_eq!(edges.len(), 2);
    assert_eq!(edges[0].field("node").field("symbol").as_str(), "A");
    assert_eq!(edges[1].field("node").field("symbol").as_str(), "B");
    st.merge_all(&parse(r#"[{"__typename":"Stock","__id":"A","symbol":"A","price":999.0}]"#));
    let conn2 = st.read_connection("@c");
    assert_eq!(float_of(&conn2.field("edges").as_list()[0].field("node").field("price")), 999.0);
    st.merge_connection(
        "@c",
        &parse(r#"{"edges":[{"node":{"__typename":"Stock","__id":"A","symbol":"A","price":999.0},"cursor":"A"}],
                   "page_info":{"has_next_page":false,"end_cursor":"A"}}"#),
        true,
    );
    assert_eq!(st.read_connection("@c").field("edges").as_list().len(), 2);
    assert_eq!(st.read_connection("@c").field("page_info").field("end_cursor").as_str(), "A");
}

#[test]
fn nested_entity_cross_query_update() {
    let mut st = Store::new();
    st.merge_all(&parse(
        r#"[{"__typename":"Order","__id":"1","id":"1","items":[{"__typename":"Item","__id":"A","sku":"A","qty":2}]}]"#,
    ));
    st.merge_all(&parse(r#"[{"__typename":"Item","__id":"A","sku":"A","qty":99}]"#));
    let order = st.read_entity("Order:1").unwrap();
    assert_eq!(order.field("items").as_list()[0].field("qty"), Value::Int(99));
}

#[test]
fn merge_is_last_write_wins_and_accumulates() {
    let mut st = Store::new();
    st.merge_into("T:1", &parse(r#"{"a":1,"b":2}"#));
    st.merge_into("T:1", &parse(r#"{"b":3,"c":4,"b":5}"#));
    assert_eq!(st.raw("T:1").unwrap().to_json(), r#"{"a":1,"b":5,"c":4}"#);
}

#[test]
fn snapshot_then_restore_undoes_optimistic_write() {
    let mut st = Store::new();
    st.merge_into("T:1", &parse(r#"{"v":1}"#));
    let keys = keys_of(&parse(r#"[{"__typename":"T","__id":1,"v":2},{"__typename":"U","__id":"x"}]"#));
    assert_eq!(keys, vec!["T:1".to_string(), "U:x".to_string()]);
    let snap = st.snapshot(&keys);
    st.normalize_list(&parse(r#"[{"__typename":"T","__id":1,"v":2},{"__typename":"U","__id":"x"}]"#));
    assert_eq!(st.raw("T:1").unwrap().field("v"), Value::Int(2));
    assert!(st.raw("U:x").is_some());
    st.restore(&snap);
    assert_eq!(st.raw("T:1").unwrap().field("v"), Value::Int(1));
    assert!(st.raw("U:x").is_none());
    assert_eq!(st.version("U:x"), 2);
}

#[test]
fn nested_with_args_and_alias() {
    let doc = parse_doc(r#"{ s: stock(id: "AAPL") { symbol price } orders { id items { sku qty } } }"#);
    assert_eq!(doc.ops.len(), 1);
    let sel = &doc.ops[0].selection;
    assert_eq!(sel.len(), 2);
    assert_eq!(sel[0].alias.as_deref(), Some("s"));
    assert_eq!(sel[0].name, "stock");
    assert_eq!(sel[0].args.len(), 1);
    assert_eq!(sel[0].args[0].0, "id");
    assert_eq!(sel[1].name, "orders");
    assert_eq!(sel[1].selection[1].name, "items");
    assert_eq!(sel[1].selection[1].selection.len(), 2);
}

#[test]
fn mutation_kind() {
    let doc = parse_doc(r#"mutation { set_price(symbol: "AAPL", price: 200.0) { symbol price } }"#);
    assert_eq!(doc.ops[0].kind, OpKind::Mutation);
    assert_eq!(doc.ops[0].selection[0].name, "set_price");
    assert_eq!(doc.ops[0].selection[0].args.len(), 2);
    match &doc.ops[0].selection[0].args[1].1 {
        AVal::Float(t) => assert_eq!(t.parse::<f64>().unwrap(), 200.0),
        other => panic!("{other:?}"),
    }
}

#[test]
fn malformed_input_terminates() {
    let _ = parse_doc("{ @ }");
    let _ = parse_doc("{ stock(id: $v) { symbol } }");
    let _ = parse_doc("{ a(x: [) }");
    let _ = parse_doc("{ # garbage ! }");
    let _ = parse_doc("{{{{");
    let doc = parse_doc("{ stocks { symbol } }");
    assert_eq!(doc.ops[0].selection[0].name, "stocks");
}

#[test]
fn deep_nesting_does_not_overflow_stack() {
    let payload = "{".repeat(1_000_000);
    let _ = parse_doc(&payload);
    let doc = parse_doc("{ a { b { c { d } } } }");
    assert_eq!(doc.ops[0].selection[0].selection[0].selection[0].selection[0].name, "d");
}

#[test]
fn variables_and_operation_names_are_skipped() {
    let doc = parse_doc("query Q($id: ID!) { a(x: 1, y: true, z: null, w: -2) } subscription { t }");
    assert_eq!(doc.ops.len(), 2);
    assert_eq!(doc.ops[1].kind, OpKind::Subscription);
    let args = &doc.ops[0].selection[0].args;
    assert!(matches!(args[0].1, AVal::Int(1)));
    assert!(matches!(args[1].1, AVal::Bool(true)));
    assert!(matches!(args[2].1, AVal::Null));
    assert!(matches!(args[3].1, AVal::Int(-2)));
}

fn resolver(_k: OpKind, field: &str, a: &Args) -> (Value, Vec<String>) {
    match field {
        "ok" => (Value::Object(vec![("id".to_string(), Value::Str("1".to_string())), ("x".to_string(), Value::Int(5))]), Vec::new()),
        "echo" => (Value::Str(a.str("v")), Vec::new()),
        "reported" => {
            let mut errs = Vec::new();
            report_error(&mut errs, "未找到");
            (Value::Null, errs)
        }
        _ => (Value::Null, Vec::new()),
    }
}

#[test]
fn clean_query_has_empty_errors() {
    let out = execute("{ ok { id } }", resolver);
    assert!(out.contains("\"errors\":[]"), "{out}");
    assert!(out.contains("\"id\":\"1\""), "{out}");
    assert!(!out.contains("\"x\""), "{out}");
}

#[test]
fn report_error_surfaces() {
    let out = execute("{ reported { id } }", resolver);
    assert!(out.contains("未找到"), "{out}");
    assert!(!out.contains("\"errors\":[]"), "{out}");
    assert!(out.contains("\"path\":[\"reported\"]"), "{out}");
}

#[test]
fn parse_failure_reports_error() {
    let out = execute("not a valid query", resolver);
    assert!(out.contains("无法解析"), "{out}");
    assert_eq!(execute("  \n", resolver), "{\"data\":{},\"errors\":[]}");
}

#[test]
fn aliases_and_arguments_reach_the_response() {
    let out = execute(r#"{ e: echo(v: "hi") o: ok { x } }"#, resolver);
    assert_eq!(out, r#"{"data":{"e":"hi","o":{"x":5}},"errors":[]}"#);
}

#[test]
fn project_keeps_meta_fields_once() {
    let v = parse(r#"{"__typename":"T","__id":"1","a":1,"b":2}"#);
    let doc = parse_doc("{ q { __typename a } }");
    let p = project(&v, &doc.ops[0].selection[0].selection);
    assert_eq!(p.to_json(), r#"{"__typename":"T","__id":"1","a":1}"#);
}

#[test]
fn integer_arguments_read_floats_toward_zero() {
    let doc = parse_doc(r#"{ f(a: 2.9, b: -1e2, c: "x", d: 7, e: -0.5) }"#);
    let args = Args(&doc.ops[0].selection[0].args);
    assert_eq!(args.i64("a"), 2);
    assert_eq!(args.i64("b"), -100);
    assert_eq!(args.i64("c"), 0);
    assert_eq!(args.i64("d"), 7);
    assert_eq!(args.i64("e"), 0);
    assert_eq!(args.i64("missing"), 0);
    assert_eq!(args.str("c"), "x");
}

#[test]
fn escaped_string_argument_reads_back() {
    let s = r#"a"b\c"#;
    let q = format!("{{ f(x: {}) }}", s.to_gql_arg());
    let doc = parse_doc(&q);
    let f = &doc.ops[0].selection[0];
    assert_eq!(f.name, "f");
    assert_eq!(f.args.len(), 1);
    assert_eq!(f.args[0].0, "x");
    match &f.args[0].1 {
        AVal::Str(t) => assert_eq!(t, s),
        other => panic!("{other:?}"),
    }
    assert_eq!(f.selection.len(), 0);
}

#[test]
fn string_argument_escapes_for_control_characters() {
    let doc = parse_doc(r#"{ f(x: "a\nb\tc\/d") }"#);
    match &doc.ops[0].selection[0].args[0].1 {
        AVal::Str(t) => assert_eq!(t, "a\nb\tc/d"),
        other => panic!("{other:?}"),
    }
}

#[test]
fn try_parse_reads_in_bounds_text_and_refuses_the_rest() {
    assert_eq!(try_parse("[1,2]"), Some(Value::List(vec![Value::Int(1), Value::Int(2)])));
    assert_eq!(try_parse(r#"{"a":true}"#), Some(parse(r#"{"a":true}"#)));
    assert_eq!(try_parse("{\"\\"), None);
}

#[test]
fn respond_builds_the_envelope_from_given_outcomes() {
    let outs = vec![
        (Value::Int(1), Vec::new()),
        (Value::Str("x".to_string()), vec!["oops".to_string()]),
    ];
    let out = respond("{ a b: c }", &outs);
    assert_eq!(
        out,
        Some(r#"{"data":{"a":1,"b":"x"},"errors":[{"message":"oops","path":["c"]}]}"#.to_string())
    );
    assert_eq!(respond("{ a }", &outs), None);
    assert_eq!(respond("  ", &Vec::new()), Some(r#"{"data":{},"errors":[]}"#.to_string()));
}
