use rui::gql::store::{Store, StoreSignals};
use rui::gql::value::{parse, Value};
use rui::reactive::{batch, effect, Runtime};
use std::cell::{Cell, RefCell};
use std::rc::Rc;

#[test]
fn entity_reader_reruns_on_bump() {
    let mut rt: Runtime<i32> = Runtime::new();
    let store = Rc::new(RefCell::new(Store::new()));
    let sigs = Rc::new(RefCell::new(StoreSignals::new(0)));
    store.borrow_mut().merge_all(&parse(r#"[{"__typename":"User","__id":"1","name":"Ann"}]"#));
    let seen: Rc<RefCell<Vec<String>>> = Rc::new(RefCell::new(Vec::new()));
    let (st2, sg2, seen2) = (store.clone(), sigs.clone(), seen.clone());
    effect(&mut rt, move |rt: &mut Runtime<i32>| {
        let v = sg2.borrow_mut().read_entity_in(rt, &st2.borrow(), "User:1");
        let name = match v {
            Some(v) => v.field("name").as_str().to_string(),
            None => "-".to_string(),
        };
        seen2.borrow_mut().push(name);
    });
    assert_eq!(*seen.borrow(), vec!["Ann".to_string()]);
    // change the record, then bump its version: the reader runs again and sees the change
    store.borrow_mut().merge_all(&parse(r#"[{"__typename":"User","__id":"1","name":"Bob"}]"#));
    let (st3, sg3) = (store.clone(), sigs.clone());
    batch(&mut rt, move |rt: &mut Runtime<i32>| {
        sg3.borrow_mut().bump_in(rt, &mut st3.borrow_mut(), "User:1");
    });
    assert_eq!(*seen.borrow(), vec!["Ann".to_string(), "Bob".to_string()]);
    assert_eq!(store.borrow().version("User:1"), 1);
}

#[test]
fn bump_of_other_key_leaves_reader() {
    let mut rt: Runtime<i32> = Runtime::new();
    let store = Rc::new(RefCell::new(Store::new()));
    let sigs = Rc::new(RefCell::new(StoreSignals::new(0)));
    let runs = Rc::new(Cell::new(0));
    let (st2, sg2, r2) = (store.clone(), sigs.clone(), runs.clone());
    effect(&mut rt, move |rt: &mut Runtime<i32>| {
        let v = sg2.borrow_mut().read_entity_in(rt, &st2.borrow(), "User:1");
        assert!(v.is_none());
        r2.set(r2.get() + 1);
    });
    assert_eq!(runs.get(), 1);
    let (st3, sg3) = (store.clone(), sigs.clone());
    batch(&mut rt, move |rt: &mut Runtime<i32>| {
        sg3.borrow_mut().bump_in(rt, &mut st3.borrow_mut(), "User:2");
    });
    assert_eq!(runs.get(), 1);
    let (st4, sg4) = (store.clone(), sigs.clone());
    batch(&mut rt, move |rt: &mut Runtime<i32>| {
        let keys = vec!["User:1".to_string(), "User:2".to_string()];
        sg4.borrow_mut().bump_all_in(rt, &mut st4.borrow_mut(), &keys);
    });
    assert_eq!(runs.get(), 2);
    assert_eq!(store.borrow().version("User:1"), 1);
    assert_eq!(store.borrow().version("User:2"), 2);
}

#[test]
fn read_outside_effect_subscribes_nothing() {
    let mut rt: Runtime<i32> = Runtime::new();
    let mut store = Store::new();
    let mut sigs = StoreSignals::new(0);
    store.merge_all(&parse(r#"[{"__typename":"Post","__id":"9","title":"T"}]"#));
    let v = sigs.read_entity_in(&mut rt, &store, "Post:9").unwrap();
    assert_eq!(v.field("title"), Value::Str("T".to_string()));
    assert!(sigs.bump_in(&mut rt, &mut store, "Post:9"));
    assert!(sigs.bump_in(&mut rt, &mut store, "Post:9"));
    assert_eq!(store.version("Post:9"), 2);
    assert_eq!(store.version("Post:1"), 0);
}
