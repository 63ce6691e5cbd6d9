use sutra::watcher::{extract_hash_id, watch_event_for, ChangeKind, WatchEvent};

#[test]
fn meta_filenames_yield_their_own_id() {
    assert_eq!(
        extract_hash_id("df79fed95eebc05d"),
        Some("df79fed95eebc05d".to_string())
    );
}

#[test]
fn status_filenames_yield_the_hex_prefix() {
    assert_eq!(
        extract_hash_id("df79fed95eebc05d.server.status"),
        Some("df79fed95eebc05d".to_string())
    );
}

#[test]
fn legacy_dot_prefixed_status_filenames_are_recognized() {
    assert_eq!(
        extract_hash_id(".df79fed95eebc05d.server.status"),
        Some("df79fed95eebc05d".to_string())
    );
}

#[test]
fn unrelated_filenames_are_ignored() {
    assert_eq!(extract_hash_id("notes.txt"), None);
    assert_eq!(extract_hash_id(".hidden"), None);
    assert_eq!(extract_hash_id(""), None);
    assert_eq!(extract_hash_id("xyz"), None);
    assert_eq!(extract_hash_id("xyz.server.status"), None);
    // A status filename needs an inner dot after the id.
    assert_eq!(extract_hash_id("ab.status"), None);
}

#[test]
fn removal_maps_to_environment_removed() {
    assert_eq!(
        watch_event_for(ChangeKind::Remove, "aa11.server.status"),
        Some(WatchEvent::EnvironmentRemoved("aa11".to_string()))
    );
}

#[test]
fn creation_and_modification_map_to_environment_changed() {
    assert_eq!(
        watch_event_for(ChangeKind::Create, "aa11"),
        Some(WatchEvent::EnvironmentChanged("aa11".to_string()))
    );
    assert_eq!(
        watch_event_for(ChangeKind::Modify, "aa11.server.status"),
        Some(WatchEvent::EnvironmentChanged("aa11".to_string()))
    );
}

#[test]
fn other_raw_events_and_foreign_files_are_ignored() {
    assert_eq!(watch_event_for(ChangeKind::Other, "aa11"), None);
    assert_eq!(watch_event_for(ChangeKind::Modify, "notes.txt"), None);
}
