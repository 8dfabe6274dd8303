use rui::jobs::{JobCtx, JobError, MemQueue};

#[test]
fn mem_queue_publish_then_next() {
    let mut q = MemQueue::new();
    q.publish("send", r#"{"x":1}"#);
    q.publish("clean", "\"id\"");
    assert_eq!(q.next(), ("send".to_string(), r#"{"x":1}"#.to_string()));
    assert_eq!(q.next(), ("clean".to_string(), "\"id\"".to_string()));
}

#[test]
fn queue_length_and_context() {
    let mut q = MemQueue::new();
    assert_eq!(q.len(), 0);
    q.publish("a", "1");
    assert_eq!(q.len(), 1);
    let _ = q.next();
    assert_eq!(q.len(), 0);
    let ctx = JobCtx::new("demo");
    assert_eq!(ctx.job(), "demo");
    assert_eq!(JobError::new("boom").0, "boom");
    assert_eq!(JobError::from(String::from("x")).0, "x");
}
