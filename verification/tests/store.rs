use mesh_file_share::state::AppState;
use mesh_file_share::types::SseEvent;

#[test]
fn new_state_is_empty() {
    let s = AppState::new(8080);
    assert_eq!(s.port, 8080);
    assert!(s.files.is_empty());
    assert!(s.clients.is_empty());
    assert!(s.queues.is_empty());
    assert!(s.channels.is_empty());
    assert!(s.outbox.is_empty());
}

#[test]
fn added_file_gets_a_fresh_id_and_is_announced() {
    let mut s = AppState::new(1);
    let f = s.add_file("big.iso".to_string(), 5_000_000_000, "/data/big.iso".to_string());
    assert_eq!(f.id.len(), 36);
    assert_eq!(f.id.chars().filter(|c| *c == '-').count(), 4);
    assert_eq!(f.name, "big.iso");
    assert_eq!(f.size, 5_000_000_000);
    assert_eq!(f.path, "/data/big.iso");
    let g = s.add_file("other".to_string(), 1, "/other".to_string());
    assert_ne!(f.id, g.id);
    assert_eq!(s.get_file(&f.id).unwrap().name, "big.iso");
    let events = s.take_events();
    assert_eq!(events.len(), 2);
    match &events[0] {
        SseEvent::FileAdded(x) => assert_eq!(x.id, f.id),
        _ => panic!("expected file-added"),
    }
    assert_eq!(events[0].event_type(), "file-added");
}

#[test]
fn get_after_add_and_list() {
    let mut s = AppState::new(1);
    s.add_file_with_id("a".to_string(), "A".to_string(), 3, "/a".to_string());
    s.add_file_with_id("b".to_string(), "B".to_string(), 4, "/b".to_string());
    let a = s.get_file("a").unwrap();
    assert_eq!((a.name.as_str(), a.size, a.path.as_str()), ("A", 3, "/a"));
    assert!(s.get_file("c").is_none());
    let names: Vec<String> = s.list_files().into_iter().map(|f| f.name).collect();
    assert_eq!(names, vec!["A".to_string(), "B".to_string()]);
}

#[test]
fn adding_under_a_taken_id_replaces() {
    let mut s = AppState::new(1);
    s.add_file_with_id("a".to_string(), "A".to_string(), 3, "/a".to_string());
    s.add_file_with_id("a".to_string(), "A2".to_string(), 5, "/a2".to_string());
    assert_eq!(s.files.len(), 1);
    assert_eq!(s.get_file("a").unwrap().name, "A2");
}

#[test]
fn remove_file_drops_it_and_its_queue() {
    let mut s = AppState::new(1);
    s.add_file_with_id("a".to_string(), "A".to_string(), 3, "/a".to_string());
    s.register_client_with_id("c".to_string());
    s.request_download("a", "c");
    s.take_events();
    assert!(s.remove_file("a"));
    assert!(s.get_file("a").is_none());
    assert!(s.queues.is_empty());
    let events = s.take_events();
    assert_eq!(events.len(), 1);
    match &events[0] {
        SseEvent::FileRemoved(id) => assert_eq!(id, "a"),
        _ => panic!("expected file-removed"),
    }
    assert_eq!(events[0].event_type(), "file-removed");
    assert!(!s.remove_file("a"));
    assert!(s.take_events().is_empty());
}

#[test]
fn registered_client_starts_idle() {
    let mut s = AppState::new(1);
    let id = s.register_client();
    assert_eq!(id.len(), 36);
    assert_eq!(s.clients.len(), 1);
    assert_eq!(s.clients[0].id, id);
    assert!(s.clients[0].completed_files.is_empty());
    assert!(!s.clients[0].is_relaying);
    let other = s.register_client();
    assert_ne!(id, other);
}

#[test]
fn register_relay_records_the_file_once() {
    let mut s = AppState::new(1);
    s.register_client_with_id("c".to_string());
    s.register_relay("c", "x");
    s.register_relay("c", "x");
    s.register_relay("nobody", "x");
    assert_eq!(s.clients[0].completed_files, vec!["x".to_string()]);
    assert_eq!(s.clients.len(), 1);
}

#[test]
fn event_names() {
    let mut s = AppState::new(1);
    s.add_file_with_id("a".to_string(), "A".to_string(), 3, "/a".to_string());
    s.register_client_with_id("r".to_string());
    s.register_client_with_id("t0".to_string());
    s.register_client_with_id("t1".to_string());
    s.register_relay("r", "a");
    s.request_download("a", "t0");
    s.request_download("a", "t1");
    let names: Vec<&str> = s.take_events().iter().map(|e| e.event_type()).collect();
    assert_eq!(
        names,
        vec!["file-added", "schedule-update", "schedule-update", "schedule-update", "relay-assign"]
    );
}

#[test]
fn removing_a_new_file_restores_the_list() {
    let mut s = AppState::new(1);
    s.add_file_with_id("a".to_string(), "A".to_string(), 3, "/a".to_string());
    s.take_events();
    let f = s.add_file("B".to_string(), 4, "/b".to_string());
    assert!(s.remove_file(&f.id));
    let ids: Vec<String> = s.list_files().into_iter().map(|f| f.id).collect();
    assert_eq!(ids, vec!["a".to_string()]);
    let names: Vec<&str> = s.take_events().iter().map(|e| e.event_type()).collect();
    assert_eq!(names, vec!["file-added", "file-removed"]);
    // a second removal finds nothing and announces nothing
    assert!(!s.remove_file(&f.id));
    assert_eq!(s.list_files().len(), 1);
    assert!(s.take_events().is_empty());
}

#[test]
fn removing_a_new_client_restores_the_list() {
    let mut s = AppState::new(1);
    s.register_client_with_id("a".to_string());
    let id = s.register_client();
    s.remove_client(&id);
    assert_eq!(s.clients.len(), 1);
    assert_eq!(s.clients[0].id, "a");
}
