use rui::dom::{
    add_class, append, attr, clear, dehydrate_responses, drop_fetch_handler, el, gql, mount, on_fetch_handler,
    remove_child, remove_class, reset, run_fetch, set_checked, set_interval, set_text, set_value, take_html, text,
    event, Dom, Event,
};
use std::cell::RefCell;
use std::rc::Rc;

type H = Box<dyn Fn(&str)>;

#[test]
fn set_checked_toggles_checked_attr() {
    let mut d: Dom<H> = Dom::new();
    reset(&mut d);
    let n = el(&mut d, "input");
    mount(&mut d, n);
    set_checked(&mut d, n, true);
    assert!(take_html(&d).contains("checked"), "true: the checked attribute is present");
    set_checked(&mut d, n, false);
    assert!(!take_html(&d).contains("checked"), "false: the checked attribute is removed");
}

#[test]
fn serializes_with_hydration_anchors_and_escapes() {
    let mut d: Dom<H> = Dom::new();
    let root = el(&mut d, "div");
    attr(&mut d, root, "title", "a\"b&c");
    let t = text(&mut d, "x<y & z>");
    append(&mut d, root, t);
    let p = el(&mut d, "p");
    set_text(&mut d, p, "hi");
    append(&mut d, root, p);
    mount(&mut d, root);
    assert_eq!(
        take_html(&d),
        "<div data-h=\"0\" title=\"a&quot;b&amp;c\"><!--h:1-->x&lt;y &amp; z&gt;<p data-h=\"2\">hi</p></div>"
    );
}

#[test]
fn nothing_mounted_gives_empty_html() {
    let mut d: Dom<H> = Dom::new();
    let _ = el(&mut d, "div");
    assert_eq!(take_html(&d), "");
}

#[test]
fn remove_child_and_clear() {
    let mut d: Dom<H> = Dom::new();
    let ul = el(&mut d, "ul");
    let a = el(&mut d, "li");
    let b = el(&mut d, "li");
    append(&mut d, ul, a);
    append(&mut d, ul, b);
    append(&mut d, ul, a);
    mount(&mut d, ul);
    remove_child(&mut d, ul, a);
    assert_eq!(take_html(&d), "<ul data-h=\"0\"><li data-h=\"2\"></li></ul>");
    set_text(&mut d, ul, "t");
    clear(&mut d, ul);
    assert_eq!(take_html(&d), "<ul data-h=\"0\"></ul>");
}

#[test]
fn set_value_replaces_first_or_appends() {
    let mut d: Dom<H> = Dom::new();
    let n = el(&mut d, "input");
    mount(&mut d, n);
    set_value(&mut d, n, "a");
    set_value(&mut d, n, "b");
    assert_eq!(take_html(&d), "<input data-h=\"0\" value=\"b\"></input>");
}

#[test]
fn class_add_and_remove() {
    let mut d: Dom<H> = Dom::new();
    let n = el(&mut d, "div");
    mount(&mut d, n);
    add_class(&mut d, n, "fade");
    add_class(&mut d, n, "fade");
    add_class(&mut d, n, "enter");
    assert_eq!(take_html(&d), "<div data-h=\"0\" class=\"fade enter\"></div>");
    remove_class(&mut d, n, "fade");
    assert_eq!(take_html(&d), "<div data-h=\"0\" class=\"enter\"></div>");
    attr(&mut d, n, "id", "x");
    remove_class(&mut d, n, "enter");
    assert_eq!(take_html(&d), "<div data-h=\"0\" class=\"\" id=\"x\"></div>");
}

#[test]
fn class_tokens_split_on_any_whitespace() {
    let mut d: Dom<H> = Dom::new();
    let n = el(&mut d, "div");
    mount(&mut d, n);
    attr(&mut d, n, "class", "  a\tb  ");
    add_class(&mut d, n, "b");
    assert_eq!(take_html(&d), "<div data-h=\"0\" class=\"  a\tb  \"></div>");
    remove_class(&mut d, n, "zzz");
    assert_eq!(take_html(&d), "<div data-h=\"0\" class=\"a b\"></div>");
}

#[test]
fn fetch_records_response_and_delivers_once_per_call() {
    let mut d: Dom<H> = Dom::new();
    let got = Rc::new(RefCell::new(Vec::new()));
    let g2 = got.clone();
    let h = on_fetch_handler(&mut d, Box::new(move |s: &str| g2.borrow_mut().push(s.to_string())));
    gql(&mut d, "{ a }", h, "{\"data\":1}");
    assert_eq!(*got.borrow(), vec!["{\"data\":1}".to_string()]);
    assert_eq!(dehydrate_responses(&d), "{\"{ a }\":\"{\\\"data\\\":1}\"}");
    drop_fetch_handler(&mut d, h);
    run_fetch(&d, h, "late");
    run_fetch(&d, 99, "unknown");
    assert_eq!(got.borrow().len(), 1);
    reset(&mut d);
    assert_eq!(dehydrate_responses(&d), "{}");
}

#[test]
fn server_timers_are_inert() {
    assert_eq!(set_interval(10, || panic!("never runs")), 0);
}

#[test]
fn event_decode_fields() {
    let enc = "hello\u{1f}1\u{1f}Enter\u{1f}Enter\u{1f}1\u{1f}\u{1f}\u{1f}1\u{1f}3.5\u{1f}4\u{1f}2\u{1f}\u{1f}a.txt\u{1e}12\u{1e}text/plain\u{1d}b.png\u{1e}99\u{1e}image/png";
    let e = Event::decode(enc);
    assert_eq!(e.value, "hello");
    assert!(e.checked);
    assert_eq!(e.key, "Enter");
    assert!(e.ctrl && !e.shift && !e.alt && e.meta);
    assert_eq!(e.client_x.parse::<f64>().unwrap_or(0.0), 3.5);
    assert_eq!(e.button, 2);
    assert_eq!(e.files.len(), 2);
    assert_eq!((e.files[0].name.as_str(), e.files[0].size), ("a.txt", 12));
    assert_eq!(e.files[1].mime, "image/png");
    let d = Event::decode("");
    assert!(d.value.is_empty() && !d.checked && d.files.is_empty());
}

#[test]
fn event_decode_bad_numbers_read_as_zero() {
    let e = Event::decode("v\u{1f}0\u{1f}\u{1f}\u{1f}\u{1f}\u{1f}\u{1f}\u{1f}\u{1f}\u{1f}99999999999\u{1f}\u{1f}f\u{1e}x");
    assert_eq!(e.button, 0);
    assert!(!e.checked);
    assert_eq!(e.files.len(), 1);
    assert_eq!((e.files[0].name.as_str(), e.files[0].size, e.files[0].mime.as_str()), ("f", 0, ""));
    assert_eq!(Event::decode("\u{1f}\u{1f}\u{1f}\u{1f}\u{1f}\u{1f}\u{1f}\u{1f}\u{1f}\u{1f}-7").button, -7);
}

#[test]
fn no_event_is_current_on_the_server() {
    let e = event();
    let d = Event::decode("");
    assert_eq!((e.value, e.checked, e.key, e.button, e.files.len()), (d.value, d.checked, d.key, d.button, d.files.len()));
    assert!(e.client_x.is_empty() && !e.ctrl && !e.meta);
}

#[test]
fn remove_after_add_class_is_remove_alone() {
    let mut d: Dom<H> = Dom::new();
    let n = el(&mut d, "div");
    mount(&mut d, n);
    attr(&mut d, n, "class", " a  b ");
    add_class(&mut d, n, "c");
    remove_class(&mut d, n, "c");
    let both = take_html(&d);
    let mut e: Dom<H> = Dom::new();
    let m = el(&mut e, "div");
    mount(&mut e, m);
    attr(&mut e, m, "class", " a  b ");
    remove_class(&mut e, m, "c");
    assert_eq!(both, take_html(&e));
    assert_eq!(both, "<div data-h=\"0\" class=\"a b\"></div>");
}
