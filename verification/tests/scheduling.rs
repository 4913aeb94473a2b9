use mesh_file_share::state::AppState;
use mesh_file_share::types::{ChannelType, DownloadState, SseEvent};

fn state_with_file(file: &str, size: u64) -> AppState {
    let mut s = AppState::new(8080);
    s.add_file_with_id(file.to_string(), format!("{}.iso", file), size, format!("/srv/{}.iso", file));
    s.take_events();
    s
}

fn connect(s: &mut AppState, ids: &[&str]) {
    for id in ids {
        s.register_client_with_id(id.to_string());
    }
}

fn item_state(s: &AppState, file: &str, client: &str) -> Option<DownloadState> {
    let q = s.queues.iter().find(|(f, _)| f == file)?;
    q.1.items.iter().find(|i| i.client_id == client).map(|i| i.state)
}

fn channels_of(s: &AppState, file: &str) -> Vec<(String, String, ChannelType)> {
    s.channels
        .iter()
        .filter(|c| c.file_id == file)
        .map(|c| (c.source.clone(), c.target.clone(), c.channel_type))
        .collect()
}

fn positions(events: &[SseEvent]) -> Vec<(String, usize)> {
    events
        .iter()
        .filter_map(|e| match e {
            SseEvent::ScheduleUpdate(u) => u.queue_position.map(|p| (u.client_id.clone(), p)),
            _ => None,
        })
        .collect()
}

#[test]
fn first_request_downloads_at_once() {
    let mut s = state_with_file("x", 100);
    connect(&mut s, &["a"]);
    let ev = s.request_download("x", "a").unwrap();
    assert_eq!(ev.state, DownloadState::Queued);
    assert_eq!(ev.queue_position, None);
    assert_eq!(item_state(&s, "x", "a"), Some(DownloadState::Downloading));
    assert_eq!(channels_of(&s, "x"), vec![("server".to_string(), "a".to_string(), ChannelType::Http)]);
    let events = s.take_events();
    assert_eq!(events.len(), 2);
    match &events[0] {
        SseEvent::ScheduleUpdate(u) => {
            assert_eq!(u.client_id, "a");
            assert_eq!(u.state, DownloadState::Queued);
        }
        _ => panic!("expected a schedule update"),
    }
    match &events[1] {
        SseEvent::ScheduleUpdate(u) => {
            assert_eq!(u.client_id, "a");
            assert_eq!(u.state, DownloadState::Downloading);
            assert_eq!(u.queue_position, None);
        }
        _ => panic!("expected a schedule update"),
    }
    assert!(s.take_events().is_empty());
}

#[test]
fn later_requests_wait_in_order() {
    let mut s = state_with_file("x", 100);
    connect(&mut s, &["a", "b", "c"]);
    s.request_download("x", "a");
    s.take_events();
    s.request_download("x", "b");
    let events = s.take_events();
    assert_eq!(positions(&events), vec![("b".to_string(), 1)]);
    s.request_download("x", "c");
    let events = s.take_events();
    assert_eq!(positions(&events), vec![("b".to_string(), 1), ("c".to_string(), 2)]);
    assert_eq!(item_state(&s, "x", "b"), Some(DownloadState::Queued));
    assert_eq!(item_state(&s, "x", "c"), Some(DownloadState::Queued));
    assert_eq!(channels_of(&s, "x").len(), 1);
}

#[test]
fn completion_pairs_server_and_relay() {
    let mut s = state_with_file("x", 100);
    connect(&mut s, &["a", "b", "c"]);
    for c in ["a", "b", "c"] {
        s.request_download("x", c);
    }
    s.take_events();
    s.mark_download_complete("x", "a");
    assert_eq!(item_state(&s, "x", "a"), Some(DownloadState::Completed));
    assert_eq!(item_state(&s, "x", "b"), Some(DownloadState::Downloading));
    assert_eq!(item_state(&s, "x", "c"), Some(DownloadState::Downloading));
    let mut chans = channels_of(&s, "x");
    chans.sort_by(|p, q| p.1.cmp(&q.1));
    assert_eq!(
        chans,
        vec![
            ("server".to_string(), "b".to_string(), ChannelType::Http),
            ("a".to_string(), "c".to_string(), ChannelType::Webrtc),
        ]
    );
    let a = s.clients.iter().find(|c| c.id == "a").unwrap();
    assert!(a.is_relaying);
    assert_eq!(a.completed_files, vec!["x".to_string()]);
    let events = s.take_events();
    let assign: Vec<_> = events
        .iter()
        .filter_map(|e| match e {
            SseEvent::RelayAssign(r) => Some(r.clone()),
            _ => None,
        })
        .collect();
    assert_eq!(assign.len(), 1);
    assert_eq!(assign[0].source_client_id, "a");
    assert_eq!(assign[0].target_client_id, "c");
    assert_eq!(assign[0].file_size, 100);
    let webrtc = s.channels.iter().find(|c| c.channel_type == ChannelType::Webrtc).unwrap();
    assert_eq!(assign[0].channel_id, webrtc.channel_id);
}

#[test]
fn two_holders_three_waiting_open_three_channels() {
    let mut s = state_with_file("x", 7);
    connect(&mut s, &["a", "b", "c", "d", "e"]);
    s.request_download("x", "a");
    s.request_download("x", "b");
    s.mark_download_complete("x", "a");
    // b now downloads from the share side: finish it too
    s.mark_download_complete("x", "b");
    for c in ["c", "d", "e"] {
        s.request_download("x", c);
    }
    assert_eq!(item_state(&s, "x", "c"), Some(DownloadState::Downloading));
    assert_eq!(item_state(&s, "x", "d"), Some(DownloadState::Downloading));
    assert_eq!(item_state(&s, "x", "e"), Some(DownloadState::Downloading));
    let chans = channels_of(&s, "x");
    assert_eq!(chans.len(), 3);
    assert_eq!(chans.iter().filter(|c| c.2 == ChannelType::Http).count(), 1);
    assert_eq!(chans.iter().filter(|c| c.2 == ChannelType::Webrtc).count(), 2);
}

#[test]
fn single_waiter_gets_only_the_server() {
    let mut s = state_with_file("x", 1);
    connect(&mut s, &["a", "b"]);
    s.request_download("x", "a");
    s.request_download("x", "b");
    s.mark_download_complete("x", "a");
    assert_eq!(channels_of(&s, "x"), vec![("server".to_string(), "b".to_string(), ChannelType::Http)]);
    let a = s.clients.iter().find(|c| c.id == "a").unwrap();
    assert!(!a.is_relaying);
}

#[test]
fn files_are_scheduled_independently() {
    let mut s = state_with_file("x", 1);
    s.add_file_with_id("y".to_string(), "y".to_string(), 2, "/y".to_string());
    connect(&mut s, &["a", "b"]);
    s.request_download("x", "a");
    s.request_download("y", "b");
    s.request_download("y", "a");
    assert_eq!(item_state(&s, "x", "a"), Some(DownloadState::Downloading));
    assert_eq!(item_state(&s, "y", "b"), Some(DownloadState::Downloading));
    assert_eq!(item_state(&s, "y", "a"), Some(DownloadState::Queued));
    assert_eq!(channels_of(&s, "x").len(), 1);
    assert_eq!(channels_of(&s, "y").len(), 1);
}

#[test]
fn request_for_unknown_file_is_refused() {
    let mut s = state_with_file("x", 1);
    connect(&mut s, &["a"]);
    assert!(s.request_download("nope", "a").is_none());
    assert!(s.queues.is_empty());
    assert!(s.take_events().is_empty());
}

#[test]
fn asking_again_reports_the_current_state() {
    let mut s = state_with_file("x", 1);
    connect(&mut s, &["a"]);
    s.request_download("x", "a");
    s.take_events();
    let ev = s.request_download("x", "a").unwrap();
    assert_eq!(ev.state, DownloadState::Downloading);
    assert!(s.take_events().is_empty());
    assert_eq!(s.queues[0].1.items.len(), 1);
}

#[test]
fn busy_relay_is_skipped() {
    let mut s = state_with_file("x", 1);
    connect(&mut s, &["a", "b", "c", "d"]);
    s.request_download("x", "a");
    for c in ["b", "c", "d"] {
        s.request_download("x", c);
    }
    s.mark_download_complete("x", "a");
    // server -> b, a -> c; d waits: the only relay is busy
    assert_eq!(item_state(&s, "x", "d"), Some(DownloadState::Queued));
    let events = s.take_events();
    assert_eq!(positions(&events).last(), Some(&("d".to_string(), 1)));
}

#[test]
fn webrtc_transfers_are_capped_at_four() {
    let mut s = state_with_file("x", 1);
    let holders = ["h1", "h2", "h3", "h4", "h5", "h6"];
    connect(&mut s, &holders);
    for h in holders {
        s.register_relay(h, "x");
    }
    let waiters = ["w1", "w2", "w3", "w4", "w5", "w6", "w7"];
    connect(&mut s, &waiters);
    for w in waiters {
        s.request_download("x", w);
    }
    let webrtc = s.channels.iter().filter(|c| c.channel_type == ChannelType::Webrtc).count();
    let http = s.channels.iter().filter(|c| c.channel_type == ChannelType::Http).count();
    assert_eq!(webrtc, 4);
    assert_eq!(http, 1);
    let waiting: Vec<_> = waiters.iter().filter(|w| item_state(&s, "x", w) == Some(DownloadState::Queued)).collect();
    assert_eq!(waiting.len(), 2);
}

#[test]
fn the_last_usable_relay_is_chosen() {
    let mut s = state_with_file("x", 1);
    connect(&mut s, &["r1", "r2", "t0", "t1"]);
    s.register_relay("r1", "x");
    s.register_relay("r2", "x");
    s.request_download("x", "t0");
    s.request_download("x", "t1");
    // t0 from the share side; t1 from the last relay in order, r2
    let c = s.channels.iter().find(|c| c.channel_type == ChannelType::Webrtc).unwrap();
    assert_eq!(c.source, "r2");
    assert_eq!(c.target, "t1");
}

#[test]
fn failure_report_is_handled_once() {
    let mut s = state_with_file("x", 1);
    connect(&mut s, &["r", "t0", "t1"]);
    s.register_relay("r", "x");
    s.request_download("x", "t0");
    s.request_download("x", "t1");
    s.take_events();
    assert!(s.mark_transfer_failed("x", "t1"));
    assert_eq!(item_state(&s, "x", "t1"), Some(DownloadState::Queued));
    let item = s.queues[0].1.items.iter().find(|i| i.client_id == "t1").unwrap();
    assert_eq!(item.failed_relays, vec!["r".to_string()]);
    let r = s.clients.iter().find(|c| c.id == "r").unwrap();
    assert!(!r.is_relaying);
    assert!(channels_of(&s, "x").iter().all(|c| c.1 != "t1"));
    let events = s.take_events();
    assert_eq!(events.len(), 2);
    match &events[1] {
        SseEvent::ScheduleUpdate(u) => {
            assert_eq!(u.client_id, "t1");
            assert_eq!(u.state, DownloadState::Queued);
        }
        _ => panic!("expected a schedule update"),
    }
    // the second report of the same failure changes nothing
    assert!(!s.mark_transfer_failed("x", "t1"));
    assert!(s.take_events().is_empty());
}

#[test]
fn failed_relay_is_not_paired_again_until_cleared() {
    let mut s = state_with_file("x", 1);
    connect(&mut s, &["r", "t0", "t1"]);
    s.register_relay("r", "x");
    s.request_download("x", "t0");
    s.request_download("x", "t1");
    s.mark_transfer_failed("x", "t1");
    s.dispatch_all();
    // r failed t1 before: no pair, and the record is cleared for the next round
    assert_eq!(item_state(&s, "x", "t1"), Some(DownloadState::Queued));
    let item = s.queues[0].1.items.iter().find(|i| i.client_id == "t1").unwrap();
    assert!(item.failed_relays.is_empty());
    s.dispatch_all();
    assert_eq!(item_state(&s, "x", "t1"), Some(DownloadState::Downloading));
}

#[test]
fn relay_completion_frees_the_relay() {
    let mut s = state_with_file("x", 1);
    connect(&mut s, &["r", "t0", "t1"]);
    s.register_relay("r", "x");
    s.request_download("x", "t0");
    s.request_download("x", "t1");
    s.take_events();
    s.mark_relay_complete("x", "r", "t1");
    assert_eq!(item_state(&s, "x", "t1"), Some(DownloadState::Completed));
    let r = s.clients.iter().find(|c| c.id == "r").unwrap();
    assert!(!r.is_relaying);
    let t1 = s.clients.iter().find(|c| c.id == "t1").unwrap();
    assert_eq!(t1.completed_files, vec!["x".to_string()]);
    assert!(channels_of(&s, "x").iter().all(|c| c.2 == ChannelType::Http));
    let events = s.take_events();
    match &events[0] {
        SseEvent::ScheduleUpdate(u) => {
            assert_eq!(u.client_id, "r");
            assert_eq!(u.state, DownloadState::Completed);
        }
        _ => panic!("expected a schedule update"),
    }
}

#[test]
fn disconnect_requeues_the_relayed_targets() {
    let mut s = state_with_file("x", 1);
    connect(&mut s, &["r", "t0", "t1"]);
    s.register_relay("r", "x");
    s.request_download("x", "t0");
    s.request_download("x", "t1");
    s.disconnect_client("r");
    assert!(s.clients.iter().all(|c| c.id != "r"));
    assert!(s.channels.iter().all(|c| c.source != "r" && c.target != "r"));
    assert_eq!(item_state(&s, "x", "t1"), Some(DownloadState::Queued));
    assert_eq!(item_state(&s, "x", "t0"), Some(DownloadState::Downloading));
}

#[test]
fn disconnect_of_a_downloader_leaves_every_queue() {
    let mut s = state_with_file("x", 1);
    connect(&mut s, &["a", "b"]);
    s.request_download("x", "a");
    s.request_download("x", "b");
    s.disconnect_client("a");
    assert_eq!(item_state(&s, "x", "a"), None);
    // the share side's transfer to a is closed, so b is served now
    assert_eq!(item_state(&s, "x", "b"), Some(DownloadState::Downloading));
    assert_eq!(channels_of(&s, "x"), vec![("server".to_string(), "b".to_string(), ChannelType::Http)]);
}

#[test]
fn remove_client_leaves_channels() {
    let mut s = state_with_file("x", 1);
    connect(&mut s, &["a"]);
    s.request_download("x", "a");
    s.remove_client("a");
    assert!(s.clients.is_empty());
    assert_eq!(item_state(&s, "x", "a"), None);
    assert_eq!(s.channels.len(), 1);
}

#[test]
fn every_idle_holder_is_put_to_work() {
    let mut s = state_with_file("x", 1);
    connect(&mut s, &["a", "b", "c", "d", "r1", "r2", "r3"]);
    for c in ["a", "b", "c", "d"] {
        s.request_download("x", c);
    }
    assert_eq!(channels_of(&s, "x").len(), 1);
    for r in ["r1", "r2", "r3"] {
        s.register_relay(r, "x");
    }
    s.dispatch_all();
    for c in ["b", "c", "d"] {
        assert_eq!(item_state(&s, "x", c), Some(DownloadState::Downloading));
    }
    let mut pairs: Vec<(String, String)> = s
        .channels
        .iter()
        .filter(|c| c.channel_type == ChannelType::Webrtc)
        .map(|c| (c.source.clone(), c.target.clone()))
        .collect();
    pairs.sort();
    // each target takes the last idle holder in order
    assert_eq!(
        pairs,
        vec![
            ("r1".to_string(), "d".to_string()),
            ("r2".to_string(), "c".to_string()),
            ("r3".to_string(), "b".to_string()),
        ]
    );
    assert!(s.clients.iter().filter(|c| c.id.starts_with('r')).all(|c| c.is_relaying));
}

#[test]
fn positions_are_announced_at_the_relay_cap() {
    let mut s = state_with_file("y", 1);
    s.add_file_with_id("x".to_string(), "x.iso".to_string(), 10, "/srv/x.iso".to_string());
    let holders = ["h1", "h2", "h3", "h4"];
    connect(&mut s, &holders);
    for h in holders {
        s.register_relay(h, "y");
    }
    let ys = ["y0", "y1", "y2", "y3", "y4"];
    connect(&mut s, &ys);
    for w in ys {
        s.request_download("y", w);
    }
    let webrtc = s.channels.iter().filter(|c| c.channel_type == ChannelType::Webrtc).count();
    assert_eq!(webrtc, 4);
    connect(&mut s, &["a", "b", "c"]);
    for c in ["a", "b", "c"] {
        s.request_download("x", c);
    }
    s.take_events();
    // a is done: b is served by the share side; no relay may start, but c
    // still hears its new place
    s.mark_download_complete("x", "a");
    assert_eq!(item_state(&s, "x", "b"), Some(DownloadState::Downloading));
    assert_eq!(item_state(&s, "x", "c"), Some(DownloadState::Queued));
    let events = s.take_events();
    assert_eq!(positions(&events), vec![("c".to_string(), 1)]);
}

#[test]
fn a_leaving_target_frees_its_relay() {
    let mut s = state_with_file("x", 1);
    connect(&mut s, &["r", "t0", "t1"]);
    s.register_relay("r", "x");
    s.request_download("x", "t0");
    s.request_download("x", "t1");
    assert!(s.clients.iter().find(|c| c.id == "r").unwrap().is_relaying);
    s.disconnect_client("t1");
    let r = s.clients.iter().find(|c| c.id == "r").unwrap();
    assert!(!r.is_relaying);
    assert!(s.channels.iter().all(|c| c.source != "r"));
}

#[test]
fn a_freed_relay_serves_the_next_waiting_downloader() {
    let mut s = state_with_file("x", 1);
    connect(&mut s, &["r", "t0", "t1", "t2"]);
    s.register_relay("r", "x");
    for t in ["t0", "t1", "t2"] {
        s.request_download("x", t);
    }
    assert_eq!(item_state(&s, "x", "t2"), Some(DownloadState::Queued));
    s.disconnect_client("t1");
    assert_eq!(item_state(&s, "x", "t2"), Some(DownloadState::Downloading));
    assert!(channels_of(&s, "x").contains(&("r".to_string(), "t2".to_string(), ChannelType::Webrtc)));
}

#[test]
fn schedules_list_every_item_with_its_place() {
    let mut s = state_with_file("x", 1);
    connect(&mut s, &["a", "b", "c"]);
    for c in ["a", "b", "c"] {
        s.request_download("x", c);
    }
    let got: Vec<(String, String, DownloadState, Option<usize>)> = s
        .list_schedules()
        .into_iter()
        .map(|e| (e.file_id, e.client_id, e.state, e.queue_position))
        .collect();
    assert_eq!(
        got,
        vec![
            ("x".to_string(), "a".to_string(), DownloadState::Downloading, None),
            ("x".to_string(), "b".to_string(), DownloadState::Queued, Some(1)),
            ("x".to_string(), "c".to_string(), DownloadState::Queued, Some(2)),
        ]
    );
}

#[test]
fn a_new_request_joins_the_end_of_the_queue() {
    let mut s = state_with_file("x", 1);
    connect(&mut s, &["a", "b", "c", "d"]);
    for c in ["a", "b", "c"] {
        s.request_download("x", c);
    }
    s.take_events();
    let ev = s.request_download("x", "d").unwrap();
    assert_eq!(ev.state, DownloadState::Queued);
    assert_eq!(ev.queue_position, None);
    let order: Vec<&str> = s.queues[0].1.items.iter().map(|i| i.client_id.as_str()).collect();
    assert_eq!(order, vec!["a", "b", "c", "d"]);
    let events = s.take_events();
    match &events[0] {
        SseEvent::ScheduleUpdate(u) => {
            assert_eq!(u.client_id, "d");
            assert_eq!(u.state, DownloadState::Queued);
            assert_eq!(u.queue_position, None);
        }
        _ => panic!("expected a schedule update"),
    }
    assert_eq!(positions(&events), vec![("b".to_string(), 1), ("c".to_string(), 2), ("d".to_string(), 3)]);
}

#[test]
fn channel_ids_are_random_uuids() {
    let mut s = state_with_file("x", 1);
    connect(&mut s, &["r", "t0", "t1"]);
    s.register_relay("r", "x");
    s.request_download("x", "t0");
    s.request_download("x", "t1");
    assert_eq!(s.channels.len(), 2);
    for c in &s.channels {
        let b = c.channel_id.as_bytes();
        assert_eq!(b.len(), 36);
        for (i, ch) in b.iter().enumerate() {
            if [8, 13, 18, 23].contains(&i) {
                assert_eq!(*ch, b'-');
            } else {
                assert!(ch.is_ascii_digit() || (b'a'..=b'f').contains(ch));
            }
        }
        assert_eq!(b[14], b'4');
        assert!([b'8', b'9', b'a', b'b'].contains(&b[19]));
    }
    assert_ne!(s.channels[0].channel_id, s.channels[1].channel_id);
}
