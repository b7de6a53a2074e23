use collab_core::doc::{DocState, Update};
use collab_core::group::{ClientMessage, CollabGroup, CollabType, InboundOutcome, User};
use collab_core::subscription::OutboundEvent;
use collab_core::sync::{StateVector, SyncResponse};

fn edit(key: &str, value: &str, clock: u64, actor: u64) -> Update {
    Update { key: key.to_string(), value: value.to_string(), clock, actor }
}

fn value_at(d: &DocState, key: &str) -> Option<String> {
    d.get(&key.to_string()).map(|reg| reg.value.clone())
}

fn new_group(threshold: usize) -> CollabGroup {
    CollabGroup::new(
        "object".to_string(),
        CollabType::Document,
        DocState::new(),
        0,
        threshold,
        None,
    )
}

fn user(uid: u64, device: u64, connection: u64) -> User {
    User { uid, device, connection }
}

/// Merge an incremental sync reply into a client replica, recording what
/// it has now seen.
fn apply_incremental(doc: &mut DocState, sv: &mut StateVector, updates: &[Update]) {
    for u in updates {
        doc.apply_update(u);
        if u.clock > sv.clock_of(u.actor) {
            sv.record(u.actor, u.clock);
        }
    }
}

#[test]
fn sync_collab_content_after_reconnect_test() {
    let mut server = new_group(50);
    let mut client = DocState::new();

    // The client edits offline: keys "0" through "5", values matching.
    let mut offline: Vec<Update> = Vec::new();
    for i in 0..=5u64 {
        let e = edit(&i.to_string(), &i.to_string(), i + 1, 1);
        client.apply_update(&e);
        offline.push(e);
    }

    // On reconnect every pending edit reaches the server.
    for e in offline {
        let r = server.handle_inbound(1, ClientMessage::Edit(e), true, 10);
        assert!(matches!(r, InboundOutcome::Applied));
    }

    for i in 0..=5u64 {
        assert_eq!(
            value_at(&server.doc, &i.to_string()),
            Some(i.to_string()),
            "server misses key {}",
            i
        );
        assert_eq!(value_at(&client, &i.to_string()), Some(i.to_string()));
    }
}

#[test]
fn same_client_with_diff_devices_edit_same_collab_test() {
    let mut server = new_group(50);
    let mut device_1 = DocState::new();
    let mut device_2 = DocState::new();

    // Device 1 writes first.
    let first = edit("name", "work", 1, 1);
    device_1.apply_update(&first);
    assert!(matches!(
        server.handle_inbound(1, ClientMessage::Edit(first.dup()), true, 1),
        InboundOutcome::Applied
    ));
    device_2.apply_update(&first);

    // Device 2, offline, writes the same key later, then reconnects.
    let second = edit("name", "workspace", 2, 2);
    device_2.apply_update(&second);
    assert!(matches!(
        server.handle_inbound(2, ClientMessage::Edit(second.dup()), true, 2),
        InboundOutcome::Applied
    ));
    device_1.apply_update(&second);

    let expected = Some("workspace".to_string());
    assert_eq!(value_at(&server.doc, "name"), expected);
    assert_eq!(value_at(&device_1, "name"), expected);
    assert_eq!(value_at(&device_2, "name"), expected);
}

#[test]
fn edit_document_with_both_clients_offline_then_online_sync_test() {
    let mut server = new_group(50);
    let mut client_1 = DocState::new();
    let mut sv_1 = StateVector::new();
    let mut client_2 = DocState::new();
    let mut sv_2 = StateVector::new();

    // Both clients edit offline, alternating keys.
    for i in 0..10u64 {
        let actor = if i % 2 == 0 { 1 } else { 2 };
        let e = edit(&i.to_string(), &format!("Task {}", i), i + 1, actor);
        if actor == 1 {
            client_1.apply_update(&e);
            sv_1.record(1, e.clock);
        } else {
            client_2.apply_update(&e);
            sv_2.record(2, e.clock);
        }
        assert!(matches!(
            server.handle_inbound(actor, ClientMessage::Edit(e), true, i),
            InboundOutcome::Applied
        ));
    }

    // Each client reconnects and asks for what it missed.
    for (doc, sv) in [(&mut client_1, &mut sv_1), (&mut client_2, &mut sv_2)] {
        let reply = server.handle_inbound(9, ClientMessage::SyncRequest(sv_dup(sv)), true, 20);
        match reply {
            InboundOutcome::SyncReply(SyncResponse::Incremental(missed)) => {
                apply_incremental(doc, sv, &missed);
            }
            other => panic!("expected an incremental reply, got {:?}", outcome_name(&other)),
        }
    }

    for i in 0..10u64 {
        let expected = Some(format!("Task {}", i));
        assert_eq!(value_at(&server.doc, &i.to_string()), expected);
        assert_eq!(value_at(&client_1, &i.to_string()), expected);
        assert_eq!(value_at(&client_2, &i.to_string()), expected);
    }
}

#[test]
fn same_client_with_diff_devices_edit_diff_collab_test() {
    // Two objects, one group each; the same user's two devices each edit
    // one object, then open the other and sync it over.
    let mut group_1 = new_group(50);
    let mut group_2 = new_group(50);

    let e1 = edit("name", "object 1", 1, 1);
    assert!(matches!(
        group_1.handle_inbound(1, ClientMessage::Edit(e1), true, 1),
        InboundOutcome::Applied
    ));
    let e2 = edit("name", "object 2", 1, 2);
    assert!(matches!(
        group_2.handle_inbound(2, ClientMessage::Edit(e2), true, 1),
        InboundOutcome::Applied
    ));

    // Device 1 opens object 2 cold; device 2 opens object 1 cold.
    let mut device_1_view_of_2 = DocState::new();
    let mut sv = StateVector::new();
    match group_2.handle_inbound(1, ClientMessage::SyncRequest(sv_dup(&sv)), true, 2) {
        InboundOutcome::SyncReply(SyncResponse::Incremental(missed)) => {
            apply_incremental(&mut device_1_view_of_2, &mut sv, &missed);
        }
        InboundOutcome::SyncReply(SyncResponse::FullState(enc)) => {
            device_1_view_of_2 = DocState::decode(&enc);
        }
        other => panic!("expected a sync reply, got {:?}", outcome_name(&other)),
    }
    let mut device_2_view_of_1 = DocState::new();
    let mut sv = StateVector::new();
    match group_1.handle_inbound(2, ClientMessage::SyncRequest(sv_dup(&sv)), true, 2) {
        InboundOutcome::SyncReply(SyncResponse::Incremental(missed)) => {
            apply_incremental(&mut device_2_view_of_1, &mut sv, &missed);
        }
        InboundOutcome::SyncReply(SyncResponse::FullState(enc)) => {
            device_2_view_of_1 = DocState::decode(&enc);
        }
        other => panic!("expected a sync reply, got {:?}", outcome_name(&other)),
    }

    assert_eq!(value_at(&device_1_view_of_2, "name"), Some("object 2".to_string()));
    assert_eq!(value_at(&device_2_view_of_1, "name"), Some("object 1".to_string()));
    assert_eq!(value_at(&group_1.doc, "name"), Some("object 1".to_string()));
    assert_eq!(value_at(&group_2.doc, "name"), Some("object 2".to_string()));
}

#[test]
fn init_sync_when_missing_updates_test() {
    let text: String = std::iter::repeat('x').take(1024).collect();
    let threshold = 3usize;
    let mut server = new_group(threshold);
    let mut client_2 = DocState::new();
    let mut sv_2 = StateVector::new();

    // Client 1's first edit reaches client 2 through the initial sync.
    let first = edit("1", "task 1", 1, 1);
    assert!(matches!(
        server.handle_inbound(1, ClientMessage::Edit(first.dup()), true, 1),
        InboundOutcome::Applied
    ));
    client_2.apply_update(&first);
    sv_2.record(1, first.clock);

    // Client 2 stops receiving; client 1 rewrites key "2" past the
    // threshold. The gap now exceeds what incremental replay is for.
    for clock in 2..=2 + threshold as u64 {
        let e = edit("2", &text, clock, 1);
        assert!(matches!(
            server.handle_inbound(1, ClientMessage::Edit(e), true, clock),
            InboundOutcome::Applied
        ));
    }

    // Reconnect: the reply is a full snapshot, not a replay.
    let reply = server.handle_inbound(2, ClientMessage::SyncRequest(sv_dup(&sv_2)), true, 10);
    match reply {
        InboundOutcome::SyncReply(SyncResponse::FullState(snapshot)) => {
            client_2 = DocState::decode(&snapshot);
        }
        other => panic!("expected a full-state reply, got {:?}", outcome_name(&other)),
    }
    assert_eq!(value_at(&client_2, "2"), Some(text.clone()));
    assert_eq!(value_at(&client_2, "2"), value_at(&server.doc, "2"));
    assert_eq!(value_at(&client_2, "1"), Some("task 1".to_string()));

    // A small gap is answered incrementally.
    let mut sv_caught_up = StateVector::new();
    sv_caught_up.record(1, 2 + threshold as u64);
    let e3 = edit("3", "task 3", 1, 2);
    assert!(matches!(
        server.handle_inbound(2, ClientMessage::Edit(e3), true, 11),
        InboundOutcome::Applied
    ));
    let e4 = edit("4", "task 4", 2 + threshold as u64 + 1, 1);
    assert!(matches!(
        server.handle_inbound(1, ClientMessage::Edit(e4), true, 12),
        InboundOutcome::Applied
    ));
    let reply = server.handle_inbound(2, ClientMessage::SyncRequest(sv_caught_up), true, 13);
    match reply {
        InboundOutcome::SyncReply(SyncResponse::Incremental(missed)) => {
            assert_eq!(missed.len(), 2);
            assert_eq!(missed[0].key, "3");
            assert_eq!(missed[1].key, "4");
        }
        other => panic!("expected an incremental reply, got {:?}", outcome_name(&other)),
    }
}

#[test]
fn echo_suppression_at_fan_out() {
    let mut server = new_group(50);
    server.subscribe(user(1, 1, 1), 1);
    server.subscribe(user(2, 2, 1), 2);
    let mut sub_1 = *lookup_sub(&server, &user(1, 1, 1));
    let mut sub_2 = *lookup_sub(&server, &user(2, 2, 1));

    let e = edit("greeting", "hello", 1, 1);
    assert!(matches!(
        server.handle_inbound(1, ClientMessage::Edit(e), true, 1),
        InboundOutcome::Applied
    ));

    // The author's own pump sees nothing; the other device gets the edit.
    assert!(matches!(sub_1.outbound_step(&server.broadcast), OutboundEvent::Idle));
    match sub_2.outbound_step(&server.broadcast) {
        OutboundEvent::Deliver(m) => {
            assert_ne!(m.origin, 2);
            assert_eq!(m.update.key, "greeting");
            assert_eq!(m.update.value, "hello");
        }
        _ => panic!("the other device should have been served the edit"),
    }
    // And nothing further for either.
    assert!(matches!(sub_1.outbound_step(&server.broadcast), OutboundEvent::Idle));
    assert!(matches!(sub_2.outbound_step(&server.broadcast), OutboundEvent::Idle));
}

#[test]
fn fan_out_preserves_publish_order() {
    let mut server = new_group(50);
    server.subscribe(user(1, 1, 1), 1);
    let mut sub = *lookup_sub(&server, &user(1, 1, 1));

    for clock in 1..=3u64 {
        let e = edit(&format!("k{}", clock), &format!("v{}", clock), clock, 2);
        assert!(matches!(
            server.handle_inbound(2, ClientMessage::Edit(e), true, clock),
            InboundOutcome::Applied
        ));
    }
    for clock in 1..=3u64 {
        match sub.outbound_step(&server.broadcast) {
            OutboundEvent::Deliver(m) => {
                assert_eq!(m.update.key, format!("k{}", clock));
                assert_eq!(m.update.value, format!("v{}", clock));
            }
            _ => panic!("expected delivery {}", clock),
        }
    }
    assert!(matches!(sub.outbound_step(&server.broadcast), OutboundEvent::Idle));
}

#[test]
fn slow_reader_observes_lag() {
    let mut server = new_group(50);
    server.subscribe(user(1, 1, 1), 1);
    let mut sub = *lookup_sub(&server, &user(1, 1, 1));

    // Twelve edits from another device overflow the bounded channel
    // (capacity ten) before the reader takes a single step.
    for clock in 1..=12u64 {
        let e = edit(&clock.to_string(), "v", clock, 2);
        assert!(matches!(
            server.handle_inbound(2, ClientMessage::Edit(e), true, clock),
            InboundOutcome::Applied
        ));
    }
    assert!(matches!(sub.outbound_step(&server.broadcast), OutboundEvent::Lagged));
    // After the lag the reader resumes from the oldest retained message.
    match sub.outbound_step(&server.broadcast) {
        OutboundEvent::Deliver(m) => assert_eq!(m.update.key, "3"),
        _ => panic!("expected the oldest retained message"),
    }
}

#[test]
fn stale_edit_is_ignored() {
    let mut server = new_group(50);
    let newer = edit("k", "new", 5, 1);
    assert!(matches!(
        server.handle_inbound(1, ClientMessage::Edit(newer), true, 1),
        InboundOutcome::Applied
    ));
    let replay = edit("k", "old", 5, 1);
    assert!(matches!(
        server.handle_inbound(1, ClientMessage::Edit(replay), true, 2),
        InboundOutcome::Stale
    ));
    assert_eq!(value_at(&server.doc, "k"), Some("new".to_string()));
}

#[test]
fn denied_edit_changes_nothing() {
    let mut server = new_group(50);
    let e = edit("k", "v", 1, 1);
    assert!(matches!(
        server.handle_inbound(1, ClientMessage::Edit(e), false, 1),
        InboundOutcome::Forbidden
    ));
    assert_eq!(value_at(&server.doc, "k"), None);
    assert_eq!(server.log.len(), 0);
}

#[test]
fn malformed_frame_is_a_protocol_error() {
    let mut server = new_group(50);
    assert!(matches!(
        server.handle_inbound(1, ClientMessage::Malformed, true, 1),
        InboundOutcome::ProtocolError
    ));
    assert_eq!(server.log.len(), 0);
}

#[test]
fn state_vector_with_duplicate_actor_is_rejected() {
    let mut server = new_group(50);
    let bad = StateVector { seen: vec![(1, 4), (1, 2)] };
    assert!(matches!(
        server.handle_inbound(1, ClientMessage::SyncRequest(bad), true, 1),
        InboundOutcome::ProtocolError
    ));
}

fn sv_dup(sv: &StateVector) -> StateVector {
    StateVector { seen: sv.seen.clone() }
}

fn lookup_sub<'a>(
    g: &'a CollabGroup,
    u: &User,
) -> &'a collab_core::subscription::Subscription {
    for entry in g.subscribers.iter() {
        if entry.0 == *u {
            return &entry.1;
        }
    }
    panic!("user not subscribed");
}

fn outcome_name(o: &InboundOutcome) -> &'static str {
    match o {
        InboundOutcome::Applied => "Applied",
        InboundOutcome::Stale => "Stale",
        InboundOutcome::Forbidden => "Forbidden",
        InboundOutcome::ProtocolError => "ProtocolError",
        InboundOutcome::SyncReply(_) => "SyncReply",
    }
}
