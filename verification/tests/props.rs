use rui::props::{Given, Missing, OrDefault};
use std::cell::Cell;

#[test]
fn or_default_picks_set_else_default() {
    assert_eq!(Missing.or_default(|| 5), 5);
    assert_eq!(Given(9).or_default(|| 5), 9);
    assert_eq!(Given(String::from("x")).or_default(|| String::from("d")), "x");
    assert_eq!(Missing.or_default(|| String::from("d")), "d");
}

#[test]
fn default_is_lazy() {
    let ran = Cell::new(false);
    let v = Given(7).or_default(|| {
        ran.set(true);
        0
    });
    assert_eq!(v, 7);
    assert!(!ran.get(), "a given prop must not run the default");
}
