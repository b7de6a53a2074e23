use collab_core::doc::DocState;
use collab_core::group::{ClientMessage, CollabGroup, CollabType, InboundOutcome, User};
use collab_core::doc::Update;

fn group_of(collab_type: CollabType, created_at: u64, timeout_override: Option<u64>) -> CollabGroup {
    CollabGroup::new(
        "object".to_string(),
        collab_type,
        DocState::new(),
        created_at,
        50,
        timeout_override,
    )
}

fn user(uid: u64, device: u64, connection: u64) -> User {
    User { uid, device, connection }
}

#[test]
fn single_subscription_per_device() {
    let mut g = group_of(CollabType::Document, 0, None);
    assert_eq!(g.subscribe(user(7, 1, 1), 10).is_some(), false);
    assert_eq!(g.user_count(), 1);

    // The same device reconnects: exactly one subscription remains and
    // the prior one comes back stopped.
    let displaced = g.subscribe(user(7, 1, 2), 11);
    assert_eq!(g.user_count(), 1);
    let old = displaced.expect("the prior subscription must be handed back");
    assert!(old.stopped);
    assert_eq!(old.origin, 10);
    assert!(g.contains_user(&user(7, 1, 2)));
    assert!(!g.contains_user(&user(7, 1, 1)));
}

#[test]
fn same_user_on_two_devices_keeps_two_subscriptions() {
    let mut g = group_of(CollabType::Document, 0, None);
    assert!(g.subscribe(user(7, 1, 1), 10).is_none());
    assert!(g.subscribe(user(7, 2, 1), 11).is_none());
    assert_eq!(g.user_count(), 2);
    assert!(g.contains_user(&user(7, 1, 1)));
    assert!(g.contains_user(&user(7, 2, 1)));
}

#[test]
fn remove_user_stops_and_removes() {
    let mut g = group_of(CollabType::Document, 0, None);
    g.subscribe(user(7, 1, 1), 10);
    let removed = g.remove_user(&user(7, 1, 1)).expect("was subscribed");
    assert!(removed.stopped);
    assert_eq!(g.user_count(), 0);
    assert!(!g.contains_user(&user(7, 1, 1)));
    // Removing again is a no-op.
    assert!(g.remove_user(&user(7, 1, 1)).is_none());
}

#[test]
fn new_subscriber_reads_only_future_edits() {
    let mut g = group_of(CollabType::Document, 0, None);
    let e = Update { key: "k".to_string(), value: "v".to_string(), clock: 1, actor: 1 };
    assert!(matches!(
        g.handle_inbound(1, ClientMessage::Edit(e), true, 1),
        InboundOutcome::Applied
    ));
    g.subscribe(user(7, 1, 1), 10);
    let sub = g
        .subscribers
        .iter()
        .find(|entry| entry.0 == user(7, 1, 1))
        .map(|entry| entry.1)
        .expect("subscribed");
    assert_eq!(sub.cursor, 1);
}

#[test]
fn idempotent_stop_on_group() {
    let mut g = group_of(CollabType::Document, 0, None);
    g.subscribe(user(1, 1, 1), 10);
    g.subscribe(user(2, 2, 1), 11);

    let stopped = g.stop();
    assert_eq!(stopped.len(), 2);
    assert!(stopped.iter().all(|s| s.stopped));
    assert_eq!(g.user_count(), 0);

    // Stopping a second time drains nothing and changes nothing.
    let again = g.stop();
    assert!(again.is_empty());
    assert_eq!(g.user_count(), 0);
}

#[test]
fn idempotent_stop_on_subscription() {
    let mut g = group_of(CollabType::Document, 0, None);
    g.subscribe(user(1, 1, 1), 10);
    let mut sub = g.subscribers[0].1;
    sub.stop();
    let once = sub;
    sub.stop();
    assert_eq!(sub, once);
    assert!(sub.stopped);
}

#[test]
fn subscriber_keeps_group_active() {
    let mut g = group_of(CollabType::Document, 0, None);
    g.subscribe(user(1, 1, 1), 10);
    // Far past every timeout, a subscribed group is still active.
    assert!(!g.is_inactive(1_000_000_000));
}

#[test]
fn document_times_out_after_ten_minutes() {
    let g = group_of(CollabType::Document, 1000, None);
    assert!(!g.is_inactive(1000 + 600));
    assert!(g.is_inactive(1000 + 601));
}

#[test]
fn database_times_out_after_one_hour() {
    for t in [CollabType::Database, CollabType::DatabaseRow] {
        let g = group_of(t, 0, None);
        assert!(!g.is_inactive(3600));
        assert!(g.is_inactive(3601));
    }
}

#[test]
fn workspace_kinds_time_out_after_two_hours() {
    for t in [CollabType::WorkspaceDatabase, CollabType::Folder, CollabType::UserAwareness] {
        let g = group_of(t, 0, None);
        assert!(!g.is_inactive(7200));
        assert!(g.is_inactive(7201));
    }
}

#[test]
fn timeout_override_wins() {
    let g = group_of(CollabType::Document, 0, Some(60));
    assert!(!g.is_inactive(60));
    assert!(g.is_inactive(61));
}

#[test]
fn accepted_edit_refreshes_activity() {
    let mut g = group_of(CollabType::Document, 0, None);
    let e = Update { key: "k".to_string(), value: "v".to_string(), clock: 1, actor: 1 };
    assert!(matches!(
        g.handle_inbound(1, ClientMessage::Edit(e), true, 500),
        InboundOutcome::Applied
    ));
    // The clock restarts at the accepted edit, not at creation.
    assert!(!g.is_inactive(1100));
    assert!(g.is_inactive(1101));
}

#[test]
fn flush_and_encode_snapshot_the_document() {
    let mut g = group_of(CollabType::Document, 0, None);
    let e = Update { key: "k".to_string(), value: "v".to_string(), clock: 1, actor: 1 };
    g.handle_inbound(1, ClientMessage::Edit(e), true, 1);
    let flushed = g.flush_collab();
    let encoded = g.encode_collab();
    let from_flush = DocState::decode(&flushed);
    let from_encode = DocState::decode(&encoded);
    let key = "k".to_string();
    assert_eq!(from_flush.get(&key).map(|r| r.value.clone()), Some("v".to_string()));
    assert_eq!(from_encode.get(&key).map(|r| r.value.clone()), Some("v".to_string()));
}
