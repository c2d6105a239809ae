use quiz_server::event_buffer::{EventBuffer, EVENT_BUFFER_CAPACITY};
use quiz_server::server_data::ServerData;

#[test]
fn pops_in_push_order() {
    let mut b = EventBuffer::new();
    assert_eq!(b.push("one".to_string()), Ok(()));
    assert_eq!(b.push("two".to_string()), Ok(()));
    assert_eq!(b.pop(), Some("one".to_string()));
    assert_eq!(b.push("three".to_string()), Ok(()));
    assert_eq!(b.pop(), Some("two".to_string()));
    assert_eq!(b.pop(), Some("three".to_string()));
    assert_eq!(b.pop(), None);
}

#[test]
fn full_buffer_hands_the_event_back() {
    let mut b = EventBuffer::with_capacity(4);
    for i in 0..EVENT_BUFFER_CAPACITY {
        assert_eq!(b.push(format!("e{i}")), Ok(()));
    }
    assert_eq!(b.push("late".to_string()), Err("late".to_string()));
    assert_eq!(b.pop(), Some("e0".to_string()));
    assert_eq!(b.push("late".to_string()), Ok(()));
}

#[test]
fn default_buffer_is_empty() {
    let mut b = EventBuffer::default();
    assert_eq!(b.pop(), None);
}

#[test]
fn display_events_go_to_the_display_buffer() {
    let mut s = ServerData::new();
    assert_eq!(s.register_display_event("update".to_string()), Ok(()));
    assert_eq!(s.display_buffer.pop(), Some("update".to_string()));
}
