use pirc_server::prekey_store::PreKeyBundleStore;

#[test]
fn store_and_get_bundle() {
    let mut store = PreKeyBundleStore::new();
    let alice = "Alice";
    let data = vec![1, 2, 3, 4];

    store.store_bundle(alice, data.clone());
    let retrieved = store.get_bundle(alice).unwrap();
    assert_eq!(retrieved, data);
}

#[test]
fn get_missing_bundle_returns_none() {
    let mut store = PreKeyBundleStore::new();
    let alice = "Alice";
    assert!(store.get_bundle(alice).is_none());
}

#[test]
fn store_replaces_existing_bundle() {
    let mut store = PreKeyBundleStore::new();
    let alice = "Alice";

    store.store_bundle(alice, vec![1, 2, 3]);
    store.store_bundle(alice, vec![4, 5, 6]);

    let retrieved = store.get_bundle(alice).unwrap();
    assert_eq!(retrieved, vec![4, 5, 6]);
}

#[test]
fn remove_bundle_clears_entry() {
    let mut store = PreKeyBundleStore::new();
    let alice = "Alice";

    store.store_bundle(alice, vec![1, 2, 3]);
    store.remove_bundle(alice);
    assert!(store.get_bundle(alice).is_none());
}

#[test]
fn remove_nonexistent_bundle_is_noop() {
    let mut store = PreKeyBundleStore::new();
    let alice = "Alice";
    store.remove_bundle(alice); // should not panic
}

#[test]
fn case_insensitive_lookup() {
    let mut store = PreKeyBundleStore::new();
    let alice_upper = "Alice";
    let alice_lower = "alice";

    store.store_bundle(alice_upper, vec![1, 2, 3]);
    let retrieved = store.get_bundle(alice_lower).unwrap();
    assert_eq!(retrieved, vec![1, 2, 3]);
}

#[test]
fn multiple_users_stored_independently() {
    let mut store = PreKeyBundleStore::new();
    let alice = "Alice";
    let bob = "Bob";

    store.store_bundle(alice, vec![1, 2, 3]);
    store.store_bundle(bob, vec![4, 5, 6]);

    assert_eq!(store.get_bundle(alice).unwrap(), vec![1, 2, 3]);
    assert_eq!(store.get_bundle(bob).unwrap(), vec![4, 5, 6]);
}

#[test]
fn default_creates_empty_store() {
    let mut store = PreKeyBundleStore::default();
    let alice = "Alice";
    assert!(store.get_bundle(alice).is_none());
}

// ── add_bundle_chunk ──────────────────────────────────────────

#[test]
fn chunk_single_returns_immediately() {
    let mut store = PreKeyBundleStore::new();
    let alice = "Alice";
    let result = store.add_bundle_chunk(alice, "abc", 1, 1);
    assert_eq!(result, Some("abc".to_string()));
}

#[test]
fn chunk_two_parts_assembled_in_order() {
    let mut store = PreKeyBundleStore::new();
    let alice = "Alice";
    assert!(store.add_bundle_chunk(alice, "foo", 1, 2).is_none());
    let result = store.add_bundle_chunk(alice, "bar", 2, 2);
    assert_eq!(result, Some("foobar".to_string()));
}

#[test]
fn chunk_out_of_order_assembly() {
    let mut store = PreKeyBundleStore::new();
    let alice = "Alice";
    assert!(store.add_bundle_chunk(alice, "bar", 2, 2).is_none());
    let result = store.add_bundle_chunk(alice, "foo", 1, 2);
    assert_eq!(result, Some("foobar".to_string()));
}

#[test]
fn chunk_buffer_cleared_after_assembly() {
    let mut store = PreKeyBundleStore::new();
    let alice = "Alice";
    store.add_bundle_chunk(alice, "x", 1, 1);
    // A second upload should start fresh.
    let result = store.add_bundle_chunk(alice, "y", 1, 1);
    assert_eq!(result, Some("y".to_string()));
}

#[test]
fn chunk_total_change_resets_buffer() {
    let mut store = PreKeyBundleStore::new();
    let alice = "Alice";
    // Start a 3-chunk upload.
    assert!(store.add_bundle_chunk(alice, "a", 1, 3).is_none());
    // New upload with total=2 should reset.
    assert!(store.add_bundle_chunk(alice, "x", 1, 2).is_none());
    let result = store.add_bundle_chunk(alice, "y", 2, 2);
    assert_eq!(result, Some("xy".to_string()));
}

#[test]
fn chunk_out_of_range_number_is_ignored() {
    let mut store = PreKeyBundleStore::new();
    assert!(store.add_bundle_chunk("Alice", "zzz", 3, 2).is_none());
    assert!(store.add_bundle_chunk("Alice", "zzz", 0, 2).is_none());
    assert!(store.add_bundle_chunk("Alice", "a", 1, 2).is_none());
    assert_eq!(store.add_bundle_chunk("ALICE", "b", 2, 2), Some("ab".to_string()));
}

#[test]
fn chunk_upload_of_zero_chunks_completes_empty() {
    let mut store = PreKeyBundleStore::new();
    assert_eq!(store.add_bundle_chunk("Alice", "ignored", 1, 0), Some(String::new()));
}

#[test]
fn chunk_uploads_of_two_users_do_not_mix() {
    let mut store = PreKeyBundleStore::new();
    assert!(store.add_bundle_chunk("Alice", "a1", 1, 2).is_none());
    assert!(store.add_bundle_chunk("Bob", "b1", 1, 2).is_none());
    assert_eq!(store.add_bundle_chunk("Bob", "b2", 2, 2), Some("b1b2".to_string()));
    assert_eq!(store.add_bundle_chunk("Alice", "a2", 2, 2), Some("a1a2".to_string()));
}

#[test]
fn chunk_sent_twice_keeps_the_latest() {
    let mut store = PreKeyBundleStore::new();
    assert!(store.add_bundle_chunk("Alice", "old", 1, 2).is_none());
    assert!(store.add_bundle_chunk("Alice", "new", 1, 2).is_none());
    assert_eq!(store.add_bundle_chunk("Alice", "-end", 2, 2), Some("new-end".to_string()));
}
