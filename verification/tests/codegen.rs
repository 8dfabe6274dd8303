use rui::codegen::{gql_esc, parse_duration, sel_to_string, to_pascal, to_snake, SelArg, Selection};

#[test]
fn snake_case_names() {
    assert_eq!(to_snake("TodoItem"), "todo_item");
    assert_eq!(to_snake("ABC"), "a_b_c");
    assert_eq!(to_snake("already_snake"), "already_snake");
    assert_eq!(to_snake(""), "");
    assert_eq!(to_snake("ÉtéX"), "été_x");
}

#[test]
fn interval_literals() {
    assert_eq!(parse_duration("30s"), Some(30));
    assert_eq!(parse_duration(" 5m "), Some(300));
    assert_eq!(parse_duration("2h"), Some(7200));
    assert_eq!(parse_duration("1d"), Some(86400));
    assert_eq!(parse_duration("5 m"), Some(300));
    assert_eq!(parse_duration("+5s"), Some(5));
    assert_eq!(parse_duration("0s"), None);
    assert_eq!(parse_duration("5x"), None);
    assert_eq!(parse_duration("m"), None);
    assert_eq!(parse_duration(""), None);
    assert_eq!(parse_duration("-5s"), None);
}

#[test]
fn escaping_for_generated_queries() {
    assert_eq!(gql_esc("a\"b\\c"), "a\\\"b\\\\c");
}

#[test]
fn pascal_case_names() {
    assert_eq!(to_pascal("todo_item"), "TodoItem");
    assert_eq!(to_pascal("__a__b_"), "AB");
    assert_eq!(to_pascal("x"), "X");
    assert_eq!(to_pascal(""), "");
    assert_eq!(to_pascal("été_ok"), "ÉtéOk");
    assert_eq!(to_pascal("ß_x"), "SSX");
}

fn field(alias: Option<&str>, name: &str, args: Vec<(String, SelArg)>, children: Vec<Selection>) -> Selection {
    Selection { alias: alias.map(|a| a.to_string()), name: name.to_string(), args, children, spread: None }
}

#[test]
fn selection_text_of_a_mutation() {
    let sels = vec![
        field(
            Some("t"),
            "add_todo",
            vec![
                ("text".to_string(), SelArg::Lit("\"hi\"".to_string())),
                ("by".to_string(), SelArg::Var),
                ("n".to_string(), SelArg::Lit("3".to_string())),
            ],
            vec![field(None, "id", vec![], vec![]), field(None, "done", vec![], vec![])],
        ),
        Selection { alias: None, name: "Frag".to_string(), args: vec![], children: vec![], spread: Some("Frag".to_string()) },
        field(None, "count", vec![("by".to_string(), SelArg::Var)], vec![]),
    ];
    assert_eq!(sel_to_string(&sels), "__typename t: add_todo(text: \"hi\", n: 3) { __typename id done } count");
    assert_eq!(sel_to_string(&vec![]), "__typename ");
}
