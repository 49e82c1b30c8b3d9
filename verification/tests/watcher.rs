use inkrypt_vaults::models::{FileEventType, FileSystemEvent};
use inkrypt_vaults::watcher::{
    deduplicate_events, process_notify_event, EventBatcher, PendingOps, RawEventKind, VaultWatcher,
    DEBOUNCE_MS, PENDING_TTL_MS,
};

fn evt(vault_id: u128, path: &str, event_type: FileEventType) -> FileSystemEvent {
    FileSystemEvent { event_type, path: path.to_string(), vault_id }
}

#[test]
fn test_deduplication() {
    let v = uuid::Uuid::now_v7().as_u128();
    let events = vec![
        evt(v, "x", FileEventType::Create),
        evt(v, "x", FileEventType::Modify),
        evt(v, "y", FileEventType::Create),
    ];

    let unique = deduplicate_events(&events);
    assert_eq!(unique.len(), 2);
    assert_eq!(unique[0].path, "x");
    assert_eq!(unique[0].event_type, FileEventType::Modify);
    assert_eq!(unique[1].path, "y");
    assert_eq!(unique[1].event_type, FileEventType::Create);
}

#[test]
fn test_deduplication_distinct_vaults_kept() {
    let v1 = 1u128;
    let v2 = 2u128;
    let events = vec![evt(v1, "x", FileEventType::Create), evt(v2, "x", FileEventType::Modify)];

    let unique = deduplicate_events(&events);
    assert_eq!(unique.len(), 2);
}

#[test]
fn test_suppression() {
    let v = uuid::Uuid::now_v7().as_u128();
    let mut pending = PendingOps::new();
    let marked_at: i64 = 1_000;
    pending.mark("/vault/note.md".to_string(), marked_at);

    let paths = vec!["/vault/note.md".to_string()];

    // Within the marker's lifetime: dropped.
    let within = marked_at + PENDING_TTL_MS - 1;
    let r = process_notify_event(RawEventKind::Create, &paths, v, "/vault", &pending, within);
    assert!(r.is_none());

    // After the marker has lapsed: emitted normally.
    let after = marked_at + PENDING_TTL_MS;
    let r = process_notify_event(RawEventKind::Create, &paths, v, "/vault", &pending, after);
    let e = r.unwrap();
    assert_eq!(e.event_type, FileEventType::Create);
    assert_eq!(e.path, "note.md");
    assert_eq!(e.vault_id, v);
}

#[test]
fn test_metadata_directory_filtered() {
    let v = 7u128;
    let pending = PendingOps::new();
    let paths = vec!["/vault/.inkrypt/vault.json".to_string()];
    let r = process_notify_event(RawEventKind::Modify, &paths, v, "/vault", &pending, 0);
    assert!(r.is_none());
}

#[test]
fn test_kind_mapping() {
    let v = 7u128;
    let pending = PendingOps::new();
    let paths = vec!["/vault/a.md".to_string()];

    let r = process_notify_event(RawEventKind::Remove, &paths, v, "/vault", &pending, 0);
    assert_eq!(r.unwrap().event_type, FileEventType::Delete);

    for kind in [RawEventKind::Access, RawEventKind::Any, RawEventKind::Other] {
        let r = process_notify_event(kind, &paths, v, "/vault", &pending, 0);
        assert!(r.is_none());
    }
}

#[test]
fn test_path_outside_vault_dropped() {
    let v = 7u128;
    let pending = PendingOps::new();
    let paths = vec!["/elsewhere/a.md".to_string()];
    let r = process_notify_event(RawEventKind::Create, &paths, v, "/vault", &pending, 0);
    assert!(r.is_none());
}

#[test]
fn test_pending_purge() {
    let mut pending = PendingOps::new();
    pending.mark("/vault/a.md".to_string(), 0);
    pending.mark("/vault/b.md".to_string(), 10_000);
    pending.purge_expired(PENDING_TTL_MS);
    assert_eq!(pending.marks.len(), 1);
    assert!(pending.is_pending("/vault/b.md", 10_001));
    assert!(!pending.is_pending("/vault/a.md", PENDING_TTL_MS));
}

#[test]
fn test_batcher_debounce() {
    let v = 3u128;
    let mut batcher = EventBatcher::new(0);

    batcher.on_event(evt(v, "x", FileEventType::Create));
    batcher.on_event(evt(v, "x", FileEventType::Modify));

    // Too early: nothing is flushed.
    assert!(batcher.on_timeout(DEBOUNCE_MS - 1).is_none());

    // At the window: one deduplicated batch comes out and the buffer clears.
    let batch = batcher.on_timeout(DEBOUNCE_MS).unwrap();
    assert_eq!(batch.len(), 1);
    assert_eq!(batch[0].event_type, FileEventType::Modify);
    assert!(batcher.buffer.is_empty());

    // Empty buffer: nothing more, however long it has been.
    assert!(batcher.on_timeout(10 * DEBOUNCE_MS).is_none());
}

#[test]
fn test_watch_state_machine() {
    let v1 = 1u128;
    let v2 = 2u128;
    let mut watcher = VaultWatcher::new();
    assert!(watcher.current.is_none());

    watcher.watch_vault(v1, "/base/one".to_string());
    assert_eq!(watcher.current.as_ref().unwrap().vault_id, v1);

    // A second watch implicitly stops the first: last caller wins.
    watcher.watch_vault(v2, "/base/two".to_string());
    assert_eq!(watcher.current.as_ref().unwrap().vault_id, v2);
    assert_eq!(watcher.current.as_ref().unwrap().vault_path, "/base/two");

    // Unwatching a non-matching id is a no-op.
    watcher.unwatch_vault(v1);
    assert!(watcher.current.is_some());

    watcher.unwatch_vault(v2);
    assert!(watcher.current.is_none());

    // Unwatching while idle is a no-op.
    watcher.unwatch_vault(v2);
    assert!(watcher.current.is_none());
}

#[test]
fn test_mark_pending_operation() {
    let mut watcher = VaultWatcher::new();
    watcher.watch_vault(5u128, "/vault".to_string());
    watcher.mark_pending_operation("/vault/n.md".to_string(), 100);
    assert!(watcher.pending.is_pending("/vault/n.md", 100 + PENDING_TTL_MS - 1));
    assert!(!watcher.pending.is_pending("/vault/n.md", 100 + PENDING_TTL_MS));
}

#[test]
fn test_vault_root_event_relative_path_empty() {
    let v = 9u128;
    let pending = PendingOps::new();
    let paths = vec!["/vault".to_string()];
    let r = process_notify_event(RawEventKind::Modify, &paths, v, "/vault", &pending, 0);
    assert_eq!(r.unwrap().path, "");
}
