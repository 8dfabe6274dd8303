use rui::dom::{append, el, mount, reset, take_html, text, Dom};
use rui::reactive::{effect, on_cleanup, provide_context, scope, Runtime, Signal};
use rui::view::{
    block_rebuild, boundary_view, error_sink, keyed_apply, keyed_plan, leave_current, node_ref, reset_writes, transition_apply,
    transition_step, BoundaryView, IntoView, NodeRef, NodeRefs, TransitionState, TransitionStep, View,
};
use std::cell::Cell;
use std::rc::Rc;

type H = Box<dyn Fn(&str)>;

#[test]
fn transition_toggles_enter_leave_classes() {
    let mut d: Dom<H> = Dom::new();
    reset(&mut d);
    let anchor = el(&mut d, "rui-slot");
    let child = el(&mut d, "div");
    let t = text(&mut d, "hi");
    append(&mut d, child, t);
    let mut st = TransitionState::new();
    let step = transition_step(&mut st, true);
    transition_apply(&mut d, anchor, child, "fade", step);
    mount(&mut d, anchor);
    let h = take_html(&d);
    assert!(h.contains("hi") && h.contains("fade-enter"), "shown: child with fade-enter: {h}");
    let step = transition_step(&mut st, false);
    transition_apply(&mut d, anchor, child, "fade", step);
    let h = take_html(&d);
    assert!(h.contains("fade-leave"), "hidden: fade-leave added: {h}");
    assert!(!h.contains("fade-enter"), "hidden: fade-enter removed: {h}");
}

#[test]
fn transition_steps_and_stale_removal() {
    let mut st = TransitionState::new();
    assert_eq!(transition_step(&mut st, false), TransitionStep::Unchanged);
    assert_eq!(transition_step(&mut st, true), TransitionStep::Enter);
    assert_eq!(transition_step(&mut st, true), TransitionStep::Unchanged);
    let leave = transition_step(&mut st, false);
    assert_eq!(leave, TransitionStep::Leave(2));
    assert!(leave_current(&st, 2));
    assert_eq!(transition_step(&mut st, true), TransitionStep::Enter);
    assert!(!leave_current(&st, 2), "switched back before the delay: no removal");
    let mut w = TransitionState { shown: true, gen: u32::MAX };
    assert_eq!(transition_step(&mut w, false), TransitionStep::Leave(0));
}

#[test]
fn node_refs_and_views() {
    let mut refs = NodeRefs::new();
    let r: NodeRef = node_ref(&mut refs);
    assert_eq!(r.get(&refs), 0);
    r.set(&mut refs, 7);
    assert_eq!(r.get(&refs), 7);
    assert_eq!(View(3).node(), 3);
}

#[test]
fn node_ref_copies_share_one_cell() {
    let mut refs = NodeRefs::new();
    let r = node_ref(&mut refs);
    let kept = r.clone();
    let other = node_ref(&mut refs);
    r.set(&mut refs, 42);
    assert_eq!(r.get(&refs), 42);
    assert_eq!(kept.get(&refs), 42);
    assert_eq!(other.get(&refs), 0);
    other.set(&mut refs, 5);
    assert_eq!(kept.get(&refs), 42);
    assert_eq!(other.get(&refs), 5);
}

#[test]
fn keyed_plan_reuses_by_key_and_removes_the_rest() {
    let plan = keyed_plan(&vec![10, 20, 30], &vec![30, 10, 40]);
    assert_eq!(plan.removed, vec![1]);
    assert_eq!(plan.rows, vec![Some(2), Some(0), None]);
    assert!(plan.leftover.is_empty());
}

#[test]
fn keyed_plan_repeated_keys() {
    let plan = keyed_plan(&vec![5, 5, 5], &vec![5]);
    assert!(plan.removed.is_empty());
    assert_eq!(plan.rows, vec![Some(0)]);
    assert_eq!(plan.leftover, vec![1, 2]);
    let plan = keyed_plan(&vec![7], &vec![7, 7]);
    assert_eq!(plan.rows, vec![Some(0), None]);
    let plan = keyed_plan(&vec![], &vec![1, 2]);
    assert_eq!(plan.rows, vec![None, None]);
    let plan = keyed_plan(&vec![1, 2], &vec![]);
    assert_eq!(plan.removed, vec![0, 1]);
}

fn html_of(d: &mut Dom<H>, node: u32) -> String {
    mount(d, node);
    take_html(d)
}

#[test]
fn values_render_as_nodes_and_update_in_place() {
    let mut d: Dom<H> = Dom::new();
    let (n, mut st) = 42i64.build(&mut d);
    assert_eq!(n, st);
    assert!(html_of(&mut d, n).contains("42"));
    (-7i64).rebuild(&mut d, &mut st);
    let h = take_html(&d);
    assert!(h.contains("-7") && !h.contains("42"), "{h}");
    assert_eq!(d.node_count(), 1, "rebuilding text adds no node");

    let mut d: Dom<H> = Dom::new();
    let (n, _) = vec!["a".to_string(), "b".to_string()].build(&mut d);
    let h = html_of(&mut d, n);
    assert!(h.starts_with("<rui-slot") && h.contains('a') && h.contains('b'), "{h}");

    let mut d: Dom<H> = Dom::new();
    let (n, mut st) = Some(true).build(&mut d);
    assert!(html_of(&mut d, n).contains("true"));
    None::<bool>.rebuild(&mut d, &mut st);
    assert!(!take_html(&d).contains("true"));

    let mut d: Dom<H> = Dom::new();
    let inner = el(&mut d, "p");
    let (n, _) = View(inner).build(&mut d);
    assert!(html_of(&mut d, n).contains("<p"));
    let (m, _) = ().build(&mut d);
    assert_eq!(m as usize + 1, d.node_count());
    let (c, _) = 'x'.build(&mut d);
    assert!(html_of(&mut d, c).contains('x'));
    let (u, _) = 7u8.build(&mut d);
    assert!(html_of(&mut d, u).contains('7'));
}

#[test]
fn boundary_shows_fallback_only_for_an_error() {
    assert_eq!(boundary_view(&None), BoundaryView::Children);
    assert_eq!(boundary_view(&Some("boom".to_string())), BoundaryView::Fallback("boom".to_string()));
    assert!(reset_writes(&Some("boom".to_string())));
    assert!(!reset_writes(&None));
}

#[test]
fn error_sink_is_the_nearest_boundary() {
    let mut rt: Runtime<u32> = Runtime::new();
    assert_eq!(error_sink(&rt), None);
    let (_, sc) = scope(&mut rt, |rt: &mut Runtime<u32>| {
        provide_context(rt, "ErrorSink", 1);
        let (inner, isc) = scope(rt, |rt: &mut Runtime<u32>| {
            provide_context(rt, "ErrorSink", 2);
            error_sink(rt)
        });
        isc.dispose(rt);
        assert_eq!(inner, Some(2));
        assert_eq!(error_sink(rt), Some(1));
    });
    sc.dispose(&mut rt);
}

#[test]
fn block_rebuild_replaces_child_and_disposes_previous_build() {
    let mut rt: Runtime<i32> = Runtime::new();
    let mut d: Dom<H> = Dom::new();
    let a = Signal::new(&mut rt, 0);
    let runs = Rc::new(Cell::new(0));
    let cleaned = Rc::new(Cell::new(0));
    let (r2, c2) = (runs.clone(), cleaned.clone());
    let (_, sc) = scope(&mut rt, move |rt: &mut Runtime<i32>| {
        effect(rt, move |rt: &mut Runtime<i32>| {
            let _ = a.get(rt);
            r2.set(r2.get() + 1);
        });
        on_cleanup(rt, move |_rt: &mut Runtime<i32>| c2.set(c2.get() + 1));
    });
    let anchor = el(&mut d, "div");
    let first = el(&mut d, "p");
    let second = el(&mut d, "span");
    mount(&mut d, anchor);
    block_rebuild(&mut rt, &mut d, anchor, None, first);
    assert_eq!(take_html(&d), "<div data-h=\"0\"><p data-h=\"1\"></p></div>");
    block_rebuild(&mut rt, &mut d, anchor, Some(sc), second);
    assert_eq!(take_html(&d), "<div data-h=\"0\"><span data-h=\"2\"></span></div>");
    assert_eq!(cleaned.get(), 1);
    a.set(&mut rt, 1);
    assert_eq!(runs.get(), 1);
}

#[test]
fn keyed_apply_keeps_unchanged_rows_and_reorders() {
    let mut d: Dom<H> = Dom::new();
    let ul = el(&mut d, "ul");
    mount(&mut d, ul);
    let old_nodes: Vec<u32> = (0..3).map(|_| el(&mut d, "li")).collect();
    for n in &old_nodes {
        append(&mut d, ul, *n);
    }
    // old keys 10, 20, 30; new keys 30, 10, 40; the item under 10 changed
    let plan = keyed_plan(&vec![10, 20, 30], &vec![30, 10, 40]);
    let rebuilt = el(&mut d, "li");
    let fresh = el(&mut d, "li");
    keyed_apply(&mut d, ul, &old_nodes, &plan, &vec![None, Some(rebuilt), Some(fresh)]);
    assert_eq!(
        take_html(&d),
        "<ul data-h=\"0\"><li data-h=\"3\"></li><li data-h=\"4\"></li><li data-h=\"5\"></li></ul>"
    );
}
