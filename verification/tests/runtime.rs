use rui::dom::{el, mount, Dom};
use rui::reactive::{effect, on_cleanup, scope, Runtime, Signal};
use rui::runtime::{
    lookup_query, navigate, navigate_plan, param, param_as, parse_i64, path_segment, pct_decode, query_encode,
    query_param, query_param_as, render_path, set_current_path, set_current_query, split_url, with_param_offset,
    PageState, Router,
};
use std::cell::{Cell, RefCell};
use std::rc::Rc;

#[test]
fn group_param_absolute_offset() {
    let mut rt: Runtime<String> = Runtime::new();
    let router = Router::new(&mut rt);
    set_current_path(&mut rt, &router, "/dash/item/5");
    // top level (offset 0): relative index 1 is "item"
    assert_eq!(param_as::<String>(&router, 1).get(&mut rt), "item");
    // inside the group (offset 1): relative index 1 reads absolute segment 2
    let id = with_param_offset(&router, 1, |r: &Router| param_as::<i64>(r, 1));
    assert_eq!(id.get(&mut rt), 5, "a group page's :param reads the absolute segment");
    // the outer router is untouched
    assert_eq!(param_as::<String>(&router, 1).get(&mut rt), "item");
    set_current_path(&mut rt, &router, "/");
}

#[test]
fn inv1_route_identity_param_vs_crosspage() {
    assert!(rui::runtime::matches("/todo/:id", "/todo/1"));
    assert!(rui::runtime::matches("/todo/:id", "/todo/2"));
    assert!(!rui::runtime::matches("/todo/:id", "/archive"));
    assert!(!rui::runtime::matches("/todo/:id", "/todo/1/x"));
    assert!(rui::runtime::matches("/", "/"));
    assert!(rui::runtime::matches("/dash/settings", "/dash/settings"));
    assert!(!rui::runtime::matches("/dash/settings", "/dash"));
    assert!(rui::runtime::matches("/dash/:tab/:id", "/dash/a/1"));
}

#[test]
fn root_pattern_matches_empty_path() {
    assert!(rui::runtime::matches("", "/"));
    assert!(rui::runtime::matches("/", ""));
    assert!(rui::runtime::matches("//a//", "/a"));
}

#[test]
fn param_reads_segments_and_tracks_path() {
    let mut rt: Runtime<String> = Runtime::new();
    let router = Router::new(&mut rt);
    set_current_path(&mut rt, &router, "/todo/1");
    let p = param(&mut rt, &router, 1);
    assert_eq!(p.get(&mut rt), "1");
    set_current_path(&mut rt, &router, "/todo/42");
    assert_eq!(p.get(&mut rt), "42");
    let far = param(&mut rt, &router, 5);
    assert_eq!(far.get(&mut rt), "");
}

#[test]
fn param_memo_skips_readers_when_segment_unchanged() {
    let mut rt: Runtime<String> = Runtime::new();
    let router = Router::new(&mut rt);
    set_current_path(&mut rt, &router, "/todo/1");
    let p = param(&mut rt, &router, 0);
    let runs = Rc::new(Cell::new(0));
    let r2 = runs.clone();
    effect(&mut rt, move |rt: &mut Runtime<String>| {
        let _ = p.get(rt);
        r2.set(r2.get() + 1);
    });
    assert_eq!(runs.get(), 1);
    // segment 0 stays "todo": the memo recomputes but republishes nothing
    set_current_path(&mut rt, &router, "/todo/2");
    assert_eq!(runs.get(), 1);
    set_current_path(&mut rt, &router, "/user/2");
    assert_eq!(runs.get(), 2);
    assert_eq!(p.get(&mut rt), "user");
}

#[test]
fn param_as_falls_back_to_default() {
    let mut rt: Runtime<String> = Runtime::new();
    let router = Router::new(&mut rt);
    set_current_path(&mut rt, &router, "/item/abc");
    assert_eq!(param_as::<i64>(&router, 1).get(&mut rt), 0);
    assert_eq!(param_as::<bool>(&router, 1).get(&mut rt), false);
    set_current_path(&mut rt, &router, "/item/true");
    assert_eq!(param_as::<bool>(&router, 1).get(&mut rt), true);
}

#[test]
fn path_segment_skips_empty_pieces() {
    assert_eq!(path_segment("//a///b/", 0), "a");
    assert_eq!(path_segment("//a///b/", 1), "b");
    assert_eq!(path_segment("//a///b/", 2), "");
}

#[test]
fn parse_i64_matches_std() {
    for s in ["0", "42", "-7", "+8", "9223372036854775807", "-9223372036854775808", "9223372036854775808",
              "-9223372036854775809", "", "-", "+", "1a", " 1", "99999999999999999999", "007"] {
        assert_eq!(parse_i64(s), s.parse::<i64>().ok(), "input {s:?}");
    }
}

#[test]
fn query_param_decodes_values() {
    let mut rt: Runtime<String> = Runtime::new();
    let router = Router::new(&mut rt);
    set_current_query(&mut rt, &router, "q=hello%20world&sort=a+b&n=12&flag");
    assert_eq!(query_param(&mut rt, &router, "q").get(&mut rt), "hello world");
    assert_eq!(query_param(&mut rt, &router, "sort").get(&mut rt), "a b");
    assert_eq!(query_param(&mut rt, &router, "flag").get(&mut rt), "");
    assert_eq!(query_param(&mut rt, &router, "missing").get(&mut rt), "");
    assert_eq!(query_param_as::<i64>(&router, "n").get(&mut rt), 12);
    assert_eq!(query_param_as::<i64>(&router, "q").get(&mut rt), 0);
}

#[test]
fn lookup_query_first_match_and_encoded_keys() {
    assert_eq!(lookup_query("a=1&a=2", "a"), Some("1".to_string()));
    assert_eq!(lookup_query("x%20y=3", "x y"), Some("3".to_string()));
    assert_eq!(lookup_query("k=v=w", "k"), Some("v=w".to_string()));
    assert_eq!(lookup_query("", "k"), None);
}

#[test]
fn pct_decode_edge_cases() {
    assert_eq!(pct_decode("hello%20world"), "hello world");
    assert_eq!(pct_decode("hello+world"), "hello world");
    assert_eq!(pct_decode("%zz"), "%zz");
    assert_eq!(pct_decode("%41%42"), "AB");
    // "%41" at the very end is decoded only when a byte follows the two digits' position check
    assert_eq!(pct_decode("x%41"), "xA");
    assert_eq!(pct_decode("%4"), "%4");
    assert_eq!(pct_decode("%e4%bd%a0"), "你");
}

#[test]
fn query_encode_and_roundtrip() {
    assert_eq!(query_encode("a b&c"), "a%20b%26c");
    assert_eq!(query_encode("AZaz09-_.~"), "AZaz09-_.~");
    assert_eq!(query_encode("你"), "%E4%BD%A0");
    for s in ["hello world", "a+b=c&d", "你好", "100%", ""] {
        assert_eq!(pct_decode(&query_encode(s)), s);
    }
}

#[test]
fn split_url_drops_fragment_and_splits_query() {
    assert_eq!(split_url("/a/b?x=1#frag"), ("/a/b".to_string(), "x=1".to_string()));
    assert_eq!(split_url("/a#f?x"), ("/a".to_string(), "".to_string()));
    assert_eq!(split_url("/a?x?y"), ("/a".to_string(), "x?y".to_string()));
}

#[test]
fn set_current_path_unchanged_is_noop() {
    let mut rt: Runtime<String> = Runtime::new();
    let router = Router::new(&mut rt);
    assert!(set_current_path(&mut rt, &router, "/x"));
    assert!(set_current_path(&mut rt, &router, "/x"));
    assert_eq!(param(&mut rt, &router, 0).get(&mut rt), "x");
}

#[test]
fn navigate_plan_splits_and_compares_keys() {
    let p = navigate_plan(&Some("todo".to_string()), "todo", "/todo/3?x=1#top");
    assert!(p.same_page);
    assert_eq!((p.path.as_str(), p.query.as_str()), ("/todo/3", "x=1"));
    assert!(!navigate_plan(&Some("home".to_string()), "todo", "/todo").same_page);
    assert!(!navigate_plan(&None, "todo", "/todo").same_page);
}

#[test]
fn navigate_keeps_or_replaces_the_page() {
    type H = Box<dyn Fn(&str)>;
    let mut rt: Runtime<String> = Runtime::new();
    let mut dom: Dom<H> = Dom::new();
    let router = Router::new(&mut rt);
    let mut page = PageState { key: None, scope: None };
    render_path(&mut rt, &router, &mut page, "todo", "/todo/1");
    let runs = Rc::new(Cell::new(0));
    let log = Rc::new(RefCell::new(Vec::new()));
    let (r2, l2) = (runs.clone(), log.clone());
    let path_sig: Signal = router.path;
    let (_, sc) = scope(&mut rt, move |rt: &mut Runtime<String>| {
        effect(rt, move |rt: &mut Runtime<String>| {
            let _ = path_sig.get(rt);
            r2.set(r2.get() + 1);
        });
        on_cleanup(rt, move |_rt: &mut Runtime<String>| l2.borrow_mut().push("bye"));
    });
    page.scope = Some(sc);
    let n = el(&mut dom, "main");
    mount(&mut dom, n);
    assert_eq!(runs.get(), 1);
    // same key: only the path changes, the page's reader re-runs
    assert!(!navigate(&mut rt, &mut dom, &router, &mut page, "todo", "/todo/2?q=a"));
    assert_eq!(router.path.peek(&rt), "/todo/2");
    assert_eq!(router.query.peek(&rt), "q=a");
    assert_eq!(runs.get(), 2);
    assert!(page.scope.is_some());
    // other key: the page is disposed before the path is written
    assert!(navigate(&mut rt, &mut dom, &router, &mut page, "home", "/"));
    assert_eq!(*log.borrow(), vec!["bye"]);
    assert_eq!(runs.get(), 2);
    assert_eq!(router.path.peek(&rt), "/");
    assert!(page.scope.is_none());
    assert_eq!(page.key.as_deref(), Some("home"));
}
