use rui::reactive::{
    batch, capture_contexts, effect, memo, on_cleanup, provide_context, provider, scope, use_context, with_contexts,
    Runtime, Signal,
};
use std::cell::{Cell, RefCell};
use std::rc::Rc;

#[test]
fn memo_recomputes_on_dep_change() {
    let mut rt: Runtime<i32> = Runtime::new();
    let a = Signal::new(&mut rt, 1);
    let m = memo(&mut rt, move |rt: &mut Runtime<i32>| a.get(rt) * 10);
    assert_eq!(m.get(&mut rt), 10);
    a.set(&mut rt, 2);
    assert_eq!(m.get(&mut rt), 20);
}

#[test]
fn dynamic_deps_cleanup() {
    // the condition signal holds 1 for true and 0 for false (one value type per runtime)
    let mut rt: Runtime<i32> = Runtime::new();
    let cond = Signal::new(&mut rt, 1);
    let a = Signal::new(&mut rt, 0);
    let b = Signal::new(&mut rt, 0);
    let runs = Rc::new(Cell::new(0));
    let r2 = runs.clone();
    effect(&mut rt, move |rt: &mut Runtime<i32>| {
        if cond.get(rt) == 1 {
            let _ = a.get(rt);
        } else {
            let _ = b.get(rt);
        }
        r2.set(r2.get() + 1);
    });
    assert_eq!(runs.get(), 1);
    a.set(&mut rt, 1); // depends on a -> runs
    assert_eq!(runs.get(), 2);
    cond.set(&mut rt, 0); // reruns, now reads b and no longer a
    assert_eq!(runs.get(), 3);
    a.set(&mut rt, 2); // stale dependency a was dropped -> no run
    assert_eq!(runs.get(), 3);
    b.set(&mut rt, 1); // now depends on b -> runs
    assert_eq!(runs.get(), 4);
}

#[test]
fn dispose_stops_effect() {
    let mut rt: Runtime<i32> = Runtime::new();
    let a = Signal::new(&mut rt, 0);
    let runs = Rc::new(Cell::new(0));
    let r2 = runs.clone();
    let h = effect(&mut rt, move |rt: &mut Runtime<i32>| {
        let _ = a.get(rt);
        r2.set(r2.get() + 1);
    });
    assert_eq!(runs.get(), 1);
    a.set(&mut rt, 1);
    assert_eq!(runs.get(), 2);
    h.dispose(&mut rt);
    a.set(&mut rt, 2);
    assert_eq!(runs.get(), 2); // disposed -> never runs again
}

#[test]
fn scope_dispose_all() {
    let mut rt: Runtime<i32> = Runtime::new();
    let a = Signal::new(&mut rt, 0);
    let runs = Rc::new(Cell::new(0));
    let r2 = runs.clone();
    let (_, sc) = scope(&mut rt, move |rt: &mut Runtime<i32>| {
        effect(rt, move |rt: &mut Runtime<i32>| {
            let _ = a.get(rt);
            r2.set(r2.get() + 1);
        });
    });
    assert_eq!(runs.get(), 1);
    a.set(&mut rt, 1);
    assert_eq!(runs.get(), 2);
    sc.dispose(&mut rt);
    a.set(&mut rt, 2);
    assert_eq!(runs.get(), 2); // whole scope disposed -> no run
}

#[test]
fn context_provide_inject() {
    let mut rt: Runtime<&'static str> = Runtime::new();
    let (_r, sc) = scope(&mut rt, |rt: &mut Runtime<&'static str>| {
        provide_context(rt, "Theme", "dark");
        let (_inner, isc) = scope(rt, |rt: &mut Runtime<&'static str>| {
            assert_eq!(use_context(rt, "Theme"), Some("dark")); // visible from an ancestor
        });
        isc.dispose(rt);
    });
    sc.dispose(&mut rt);
    assert_eq!(use_context(&rt, "Theme"), None); // outside every scope: empty stack
}

#[test]
fn context_inner_overrides_outer() {
    let mut rt: Runtime<&'static str> = Runtime::new();
    let (_r, sc) = scope(&mut rt, |rt: &mut Runtime<&'static str>| {
        provide_context(rt, "Theme", "outer");
        let (_i, isc) = scope(rt, |rt: &mut Runtime<&'static str>| {
            provide_context(rt, "Theme", "inner");
            assert_eq!(use_context(rt, "Theme"), Some("inner"));
        });
        isc.dispose(rt);
        assert_eq!(use_context(rt, "Theme"), Some("outer")); // inner frame popped
    });
    sc.dispose(&mut rt);
}

#[test]
fn context_same_frame_double_provide_overwrites() {
    let mut rt: Runtime<&'static str> = Runtime::new();
    let (_r, sc) = scope(&mut rt, |rt: &mut Runtime<&'static str>| {
        provide_context(rt, "Theme", "first");
        provide_context(rt, "Theme", "second"); // same frame, same key -> overwritten
        assert_eq!(use_context(rt, "Theme"), Some("second"));
    });
    sc.dispose(&mut rt);
}

#[test]
fn provider_confines_to_subtree() {
    let mut rt: Runtime<&'static str> = Runtime::new();
    let (_r, sc) = scope(&mut rt, |rt: &mut Runtime<&'static str>| {
        provider(rt, |rt: &mut Runtime<&'static str>| {
            provide_context(rt, "Theme", "inner");
            assert_eq!(use_context(rt, "Theme"), Some("inner"));
        });
        assert_eq!(use_context(rt, "Theme"), None); // provider frame popped -> siblings do not see it
    });
    sc.dispose(&mut rt);
}

#[test]
fn context_snapshot_survives_rerun() {
    let seen: Rc<RefCell<Vec<&'static str>>> = Rc::new(RefCell::new(Vec::new()));
    let mut rt: Runtime<&'static str> = Runtime::new();
    let trigger = Signal::new(&mut rt, "0");
    let (snap, sc) = scope(&mut rt, |rt: &mut Runtime<&'static str>| {
        provide_context(rt, "Theme", "ctx");
        capture_contexts(rt)
    });
    let seen2 = seen.clone();
    let h = effect(&mut rt, move |rt: &mut Runtime<&'static str>| {
        let _ = trigger.get(rt);
        with_contexts(rt, &snap, |rt: &mut Runtime<&'static str>| {
            seen2.borrow_mut().push(use_context(rt, "Theme").unwrap_or("MISSING"));
        });
    });
    sc.dispose(&mut rt);
    trigger.set(&mut rt, "1");
    h.dispose(&mut rt);
    assert_eq!(*seen.borrow(), vec!["ctx", "ctx"]); // first run and rerun both see it
}

#[test]
fn equal_depth_diamond_no_glitch() {
    let mut rt: Runtime<i32> = Runtime::new();
    let a = Signal::new(&mut rt, 1);
    let b = memo(&mut rt, move |rt: &mut Runtime<i32>| a.get(rt) * 2);
    let c = memo(&mut rt, move |rt: &mut Runtime<i32>| a.get(rt) + 100);
    let runs = Rc::new(Cell::new(0));
    let seen = Rc::new(RefCell::new(Vec::new()));
    let (r2, s2) = (runs.clone(), seen.clone());
    let _h = effect(&mut rt, move |rt: &mut Runtime<i32>| {
        r2.set(r2.get() + 1);
        let pair = (b.get(rt), c.get(rt));
        s2.borrow_mut().push(pair);
    });
    assert_eq!(runs.get(), 1);
    a.set(&mut rt, 5);
    assert_eq!(runs.get(), 2); // runs once more, no glitch
    assert_eq!(*seen.borrow(), vec![(2, 101), (10, 105)]);
}

#[test]
fn unequal_depth_diamond_no_glitch() {
    let mut rt: Runtime<i32> = Runtime::new();
    let a = Signal::new(&mut rt, 1);
    let b = memo(&mut rt, move |rt: &mut Runtime<i32>| a.get(rt) * 2); // b = a*2
    let c = memo(&mut rt, move |rt: &mut Runtime<i32>| b.get(rt) + 1); // c = b+1
    let runs = Rc::new(Cell::new(0));
    let seen = Rc::new(RefCell::new(Vec::new()));
    let (r2, s2) = (runs.clone(), seen.clone());
    let _h = effect(&mut rt, move |rt: &mut Runtime<i32>| {
        r2.set(r2.get() + 1);
        let pair = (a.get(rt), c.get(rt)); // a directly, c two hops away
        s2.borrow_mut().push(pair);
    });
    assert_eq!(runs.get(), 1);
    assert_eq!(*seen.borrow(), vec![(1, 3)]);
    a.set(&mut rt, 5);
    assert_eq!(runs.get(), 2); // once, not twice
    assert_eq!(*seen.borrow(), vec![(1, 3), (5, 11)]); // consistent snapshot, no (5,3)
}

#[test]
fn self_set_with_guard_converges() {
    let mut rt: Runtime<i32> = Runtime::new();
    let s = Signal::new(&mut rt, 0);
    let _h = effect(&mut rt, move |rt: &mut Runtime<i32>| {
        let v = s.get(rt);
        if v < 3 {
            s.set(rt, v + 1); // convergence guard: stops at 3
        }
    });
    assert_eq!(s.get(&mut rt), 3);
}

#[test]
fn batch_coalesces_sets() {
    let mut rt: Runtime<i32> = Runtime::new();
    let a = Signal::new(&mut rt, 0);
    let b = Signal::new(&mut rt, 0);
    let runs = Rc::new(Cell::new(0));
    let r2 = runs.clone();
    let _h = effect(&mut rt, move |rt: &mut Runtime<i32>| {
        let _ = (a.get(rt), b.get(rt));
        r2.set(r2.get() + 1);
    });
    assert_eq!(runs.get(), 1);
    a.set(&mut rt, 1);
    b.set(&mut rt, 1);
    assert_eq!(runs.get(), 3); // unbatched: one run per set
    batch(&mut rt, |rt: &mut Runtime<i32>| {
        a.set(rt, 2);
        b.set(rt, 2);
    });
    assert_eq!(runs.get(), 4); // batched: one run
}

#[test]
fn scope_cleanups_run_in_order_then_effects_stop() {
    let mut rt: Runtime<i32> = Runtime::new();
    let a = Signal::new(&mut rt, 0);
    let runs = Rc::new(Cell::new(0));
    let log = Rc::new(RefCell::new(Vec::new()));
    let r2 = runs.clone();
    let (l1, l2) = (log.clone(), log.clone());
    let (_, sc) = scope(&mut rt, move |rt: &mut Runtime<i32>| {
        effect(rt, move |rt: &mut Runtime<i32>| {
            let _ = a.get(rt);
            r2.set(r2.get() + 1);
        });
        on_cleanup(rt, move |_rt: &mut Runtime<i32>| l1.borrow_mut().push("first"));
        on_cleanup(rt, move |_rt: &mut Runtime<i32>| l2.borrow_mut().push("second"));
    });
    assert_eq!(runs.get(), 1);
    sc.dispose(&mut rt);
    assert_eq!(*log.borrow(), vec!["first", "second"]);
    a.set(&mut rt, 1);
    assert_eq!(runs.get(), 1);
}

#[test]
fn emptied_scope_disposes_nothing() {
    let mut rt: Runtime<i32> = Runtime::new();
    let a = Signal::new(&mut rt, 0);
    let runs = Rc::new(Cell::new(0));
    let cleaned = Rc::new(Cell::new(0));
    let (r2, c2) = (runs.clone(), cleaned.clone());
    let (_, mut sc) = scope(&mut rt, move |rt: &mut Runtime<i32>| {
        effect(rt, move |rt: &mut Runtime<i32>| {
            let _ = a.get(rt);
            r2.set(r2.get() + 1);
        });
        on_cleanup(rt, move |_rt: &mut Runtime<i32>| c2.set(c2.get() + 1));
    });
    let (ids, cleanups) = sc.take_parts();
    assert_eq!((ids.len(), cleanups.len()), (1, 1));
    sc.dispose(&mut rt);
    assert_eq!(cleaned.get(), 0);
    a.set(&mut rt, 1);
    assert_eq!(runs.get(), 2);
}

#[test]
fn set_without_readers_is_read_back() {
    let mut rt: Runtime<i32> = Runtime::new();
    let s = Signal::new(&mut rt, 3);
    assert!(s.set(&mut rt, 9));
    assert_eq!(s.get(&mut rt), 9);
    assert_eq!(s.peek(&rt), 9);
}
