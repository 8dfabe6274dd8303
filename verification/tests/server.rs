use rui::gql::exec::{empty_resolver, Args};
use rui::gql::parser::OpKind;
use rui::gql::value::Value;
use rui::view::Strategy;
use rui::server::{
    content_length, content_length_of, default_shell, doc, graphql_response, local_execute, request_head, route_request,
    set_config, ssr_doc, static_cache_key, page_action, AppConfig, AssetMap, Entry, PageAction, PageCache, ShellCtx, STATIC_PAGE_LIMIT,
};

fn shell_with(a: &AssetMap, app: &str, data: &str) -> String {
    default_shell(&ShellCtx {
        app_html: app,
        data,
        css_href: &a.css_route,
        router_src: &a.router_js_route,
        wasm_route: &a.wasm_route,
        graphql_route: &a.graphql_route,
        subscribe_route: &a.subscribe_route,
    })
}

#[test]
fn default_shell_injects_host_config() {
    let html = shell_with(&AssetMap::default(), "<p>x</p>", "{\"q\":1}");
    let expected = "<!doctype html><html lang=\"zh\"><head><meta charset=\"utf-8\">\
<meta name=\"viewport\" content=\"width=device-width, initial-scale=1\">\
<title>rui</title><style>rui-slot,rui-frag{display:contents}</style>\
<link rel=\"stylesheet\" href=\"/styles.css\"></head>\
<body><div id=\"app\"><p>x</p></div>\
<script id=\"__rui_data\" type=\"application/json\">{\"q\":1}</script>\
<script>window.__rui={wasm:\"/app.wasm\",graphql:\"/graphql\",subscribe:\"/graphql/subscribe\"}</script>\
<script type=\"module\" src=\"/router.js\"></script></body></html>";
    assert_eq!(html, expected, "default shell (with window.__rui) differs");
}

fn req(cl: usize, body: &[u8]) -> Vec<u8> {
    let mut v = format!("POST /graphql HTTP/1.1\r\nContent-Length: {cl}\r\n\r\n").into_bytes();
    v.extend_from_slice(body);
    v
}

#[test]
fn graphql_response_body_handling() {
    let (st, _, _) = graphql_response(&req(16, b"{ todos { id } }"), 1 << 20, empty_resolver);
    assert_eq!(st, "200 OK");
    let (st, _, _) = graphql_response(&req(5, b"{ \xff }"), 1 << 20, empty_resolver);
    assert_eq!(st, "400 Bad Request");
    let (st, _, _) = graphql_response(&req(999999, b"{}"), 100, empty_resolver);
    assert_eq!(st, "413 Payload Too Large");
    let (st, _, _) = graphql_response(&req(20, b"{ a }\r\n\r\n{ b }"), 1 << 20, empty_resolver);
    assert_eq!(st, "200 OK");
}

#[test]
fn custom_config_honored() {
    let a = AssetMap {
        css_route: "/app1/styles.css".into(),
        router_js_route: "/app1/router.js".into(),
        wasm_route: "/app1/app.wasm".into(),
        graphql_route: "/app1/graphql".into(),
        subscribe_route: "/app1/graphql/subscribe".into(),
        ..AssetMap::default()
    };
    let html = shell_with(&a, "", "");
    assert!(html.contains("href=\"/app1/styles.css\""));
    assert!(html.contains("src=\"/app1/router.js\""));
    assert!(html
        .contains("window.__rui={wasm:\"/app1/app.wasm\",graphql:\"/app1/graphql\",subscribe:\"/app1/graphql/subscribe\"}"));
    let d = AppConfig::default();
    assert_eq!(d.bind, ("127.0.0.1".to_string(), 8084));
    assert_eq!(d.body_limit, 1 << 20);
}

#[test]
fn shell_escapes_routes_in_script() {
    let a = AssetMap { wasm_route: "/x\"</script>\\".into(), ..AssetMap::default() };
    let html = shell_with(&a, "", "");
    assert!(html.contains("wasm:\"/x\\\"<\\/script>\\\\\""));
}

#[test]
fn graphql_response_bodies_exact() {
    let (st, ct, body) = graphql_response(b"POST /graphql HTTP/1.1\r\n", 100, empty_resolver);
    assert_eq!(st, "400 Bad Request");
    assert_eq!(ct, "application/json; charset=utf-8");
    assert_eq!(body, br#"{"data":null,"errors":[{"message":"malformed request"}]}"#.to_vec());
    let (_, _, body) = graphql_response(&req(999, b"{}"), 10, empty_resolver);
    assert_eq!(body, br#"{"data":null,"errors":[{"message":"request body too large"}]}"#.to_vec());
    let (_, _, body) = graphql_response(&req(3, b"{\xfe}"), 10, empty_resolver);
    assert_eq!(body, br#"{"data":null,"errors":[{"message":"invalid UTF-8 in request body"}]}"#.to_vec());
    let (_, _, body) = graphql_response(&req(10, b"{ todos }"), 100, empty_resolver);
    assert_eq!(String::from_utf8(body).unwrap(), r#"{"data":{"todos":null},"errors":[]}"#);
}

#[test]
fn content_length_reading() {
    assert_eq!(content_length(b"POST / HTTP/1.1\r\ncontent-LENGTH:  42 \r\nHost: x"), 42);
    assert_eq!(content_length(b"POST / HTTP/1.1\r\nHost: x"), 0);
    assert_eq!(content_length(b"Content-Length: +7"), 7);
    assert_eq!(content_length(b"Content-Length: 12abc\r\nContent-Length: 5"), 0);
    assert_eq!(content_length(b"X-Length: 3\r\nContent-Length: 99999999999999999999999"), 0);
    assert_eq!(content_length_of("a:b\nContent-Length:\t8"), 8);
}

#[test]
fn request_head_and_entry() {
    let (m, p, q) = request_head(b"GET /todo/1?x=1#frag HTTP/1.1\r\nHost: a\r\n\r\n");
    assert_eq!((m.as_str(), p.as_str(), q.as_str()), ("GET", "/todo/1", "x=1"));
    let (m, p, q) = request_head(b"GET ?utm=x HTTP/1.1");
    assert_eq!((m.as_str(), p.as_str(), q.as_str()), ("GET", "/", "utm=x"));
    let (m, p, q) = request_head(b"");
    assert_eq!((m.as_str(), p.as_str(), q.as_str()), ("", "/", ""));
    let a = AssetMap::default();
    assert_eq!(route_request(&a, "GET", "/graphql/subscribe"), Entry::Subscribe);
    assert_eq!(route_request(&a, "POST", "/graphql"), Entry::Graphql);
    assert_eq!(route_request(&a, "GET", "/graphql"), Entry::MethodNotAllowed);
    assert_eq!(route_request(&a, "GET", "/router.js"), Entry::RouterJs);
    assert_eq!(route_request(&a, "GET", "/app.wasm"), Entry::Wasm);
    assert_eq!(route_request(&a, "GET", "/styles.css"), Entry::Css);
    assert_eq!(route_request(&a, "GET", "/about"), Entry::Page);
}

#[test]
fn config_is_set_once_and_route_clashes_refused() {
    let mut slot: Option<AppConfig> = None;
    let mut bad = AppConfig::default();
    bad.assets.css_route = "/router.js".into();
    let e = set_config(&mut slot, bad).unwrap_err();
    assert_eq!(e, "rui: AppConfig 入口路由冲突 `/router.js` —— graphql · subscribe · router_js · wasm · css 须各异");
    assert!(slot.is_none());
    let mut first = AppConfig::default();
    first.body_limit = 7;
    assert!(set_config(&mut slot, first).is_ok());
    assert!(set_config(&mut slot, AppConfig::default()).is_ok());
    assert_eq!(slot.as_ref().unwrap().body_limit, 7);
}

#[test]
fn documents_and_local_execution() {
    let cfg = AppConfig::default();
    let page = ssr_doc(&cfg, "<p>a</p>", "{\"t\":\"</script>\"}");
    assert!(page.contains("{\"t\":\"<\\/script>\"}"));
    assert_eq!(doc(&cfg, "", ""), shell_with(&cfg.assets, "", ""));
    assert_eq!(local_execute(None::<fn(OpKind, &str, &Args) -> (Value, Vec<String>)>, "{ a }"), "{\"data\":{},\"errors\":[]}");
    assert_eq!(local_execute(Some(empty_resolver), "{ a }"), "{\"data\":{\"a\":null},\"errors\":[]}");
}

#[test]
fn static_cache_keys() {
    assert_eq!(static_cache_key("/p", ""), "/p");
    assert_eq!(static_cache_key("/p", "b=2&a=1"), "/p?a=1&b=2");
    assert_eq!(static_cache_key("/p", "a=1&b=2"), "/p?a=1&b=2");
    assert_eq!(static_cache_key("/p", "&&b&a&"), "/p?a&b");
    assert_eq!(static_cache_key("/p", "&"), "/p?");
    assert_eq!(static_cache_key("/p", "x=é&x=e"), "/p?x=e&x=é");
}

#[test]
fn page_cache_keeps_pages_up_to_the_limit() {
    let mut c = PageCache::new();
    assert_eq!(c.get("/a"), None);
    c.remember("/a".to_string(), "<a>".to_string());
    assert_eq!(c.get("/a"), Some("<a>".to_string()));
    c.remember("/a".to_string(), "<a2>".to_string());
    assert_eq!(c.get("/a"), Some("<a2>".to_string()));
    assert_eq!(c.len(), 1);
    for i in 1..STATIC_PAGE_LIMIT {
        c.remember(format!("/p{i}"), String::new());
    }
    assert_eq!(c.len(), STATIC_PAGE_LIMIT);
    c.remember("/late".to_string(), "<late>".to_string());
    assert_eq!(c.get("/late"), None);
    c.remember("/a".to_string(), "<a3>".to_string());
    assert_eq!(c.get("/a"), Some("<a2>".to_string()));
    assert_eq!(c.len(), STATIC_PAGE_LIMIT);
}

#[test]
fn page_action_by_strategy() {
    assert_eq!(page_action(Strategy::Csr, Some("x".to_string())), PageAction::EmptyShell);
    assert_eq!(page_action(Strategy::Ssr, None), PageAction::Render);
    assert_eq!(page_action(Strategy::Static, None), PageAction::RenderAndRemember);
    assert_eq!(page_action(Strategy::Static, Some("<p>".to_string())), PageAction::Serve("<p>".to_string()));
}
