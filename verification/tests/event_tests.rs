use chimera::event::{
    last_path_segment, supports_event_type, ApplicationShutdownEvent, ApplicationStartedEvent,
    ListenerRegistry,
};
use chimera::ordering::stable_order;

#[test]
fn listeners_are_indexed_by_name() {
    let mut r = ListenerRegistry::new();
    assert_eq!(r.add_listener("a".to_string()), 0);
    assert_eq!(r.add_listener("b".to_string()), 1);
    assert_eq!(r.add_listener("c".to_string()), 2);
    assert_eq!(r.listener_count(), 3);
    assert_eq!(r.remove_listener("b"), Some(1));
    assert_eq!(r.listener_count(), 2);
    assert_eq!(r.remove_listener("c"), Some(1));
    assert_eq!(r.remove_listener("b"), None);
    assert_eq!(r.remove_listener("a"), Some(0));
    assert_eq!(r.listener_count(), 0);
}

#[test]
fn a_repeated_name_points_at_the_latest_listener() {
    let mut r = ListenerRegistry::new();
    r.add_listener("x".to_string());
    r.add_listener("y".to_string());
    r.add_listener("x".to_string());
    assert_eq!(r.remove_listener("x"), Some(2));
    assert_eq!(r.listener_count(), 2);
    assert_eq!(r.remove_listener("x"), None);
    assert_eq!(r.remove_listener("y"), Some(1));
    r.remove_all_listeners();
    assert_eq!(r.listener_count(), 0);
}

#[test]
fn typed_listeners_match_short_type_names() {
    assert_eq!(last_path_segment("chimera_core::event::ApplicationStartedEvent"), "ApplicationStartedEvent");
    assert_eq!(last_path_segment("Plain"), "Plain");
    assert!(supports_event_type("my::events::UserCreated", "UserCreated"));
    assert!(!supports_event_type("my::events::UserCreated", "my::events::UserCreated"));
}

#[test]
fn application_events() {
    let s = ApplicationStartedEvent::new("demo".to_string(), 42);
    assert_eq!(s.app_name, "demo");
    assert_eq!(s.startup_time_ms, 42);
    assert_eq!(s.event_name(), "ApplicationStartedEvent");
    let d = ApplicationShutdownEvent::new("demo".to_string());
    assert_eq!(d.event_name(), "ApplicationShutdownEvent");
    assert!(d.timestamp >= s.timestamp);
}

#[test]
fn stable_ordering_by_priority() {
    let keys = vec![100, 50, 100, 0, 50];
    assert_eq!(stable_order(&keys, false), vec![3, 1, 4, 0, 2]);
    assert_eq!(stable_order(&keys, true), vec![0, 2, 1, 4, 3]);
    assert!(stable_order(&Vec::new(), false).is_empty());
}

#[test]
fn path_pieces_split_left_to_right() {
    assert_eq!(last_path_segment("a:::b"), ":b");
    assert_eq!(last_path_segment("a::b::"), "");
    assert_eq!(last_path_segment("core::option::Option<alloc::string::String>"), "String>");
    assert_eq!(last_path_segment(""), "");
}
