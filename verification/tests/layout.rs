use shitview::layout::{hex_encode, layout_key, normalize_key, LayoutStore};

#[derive(Debug, Clone, Copy, PartialEq)]
struct Entry {
    x: f32,
    y: f32,
    pinned: bool,
}

#[test]
fn stable_id_takes_priority_over_path_fallback() {
    let id = [1_u8, 2, 3];
    let mut store = LayoutStore::new();
    store.insert_stored(&layout_key(None, "H:/project/main.rs"), Entry { x: 1.0, y: 2.0, pinned: false });
    store.insert_stored(&layout_key(Some(&id), "H:/project/main.rs"), Entry { x: 3.0, y: 4.0, pinned: true });
    assert_eq!(store.entry_for(Some(&id), "H:/project/main.rs").unwrap().x, 3.0);
    assert!(store.entry_for(Some(&id), "H:/project/main.rs").unwrap().pinned);
}

#[test]
fn layout_keys_use_hex_ids_or_forward_slash_paths() {
    assert_eq!(layout_key(Some(&[0x01, 0xab, 0xff]), "ignored"), "id:01abff");
    assert_eq!(layout_key(None, "H:\\project\\main.rs"), "H:/project/main.rs");
    assert_eq!(layout_key(None, "H:/project/main.rs"), "H:/project/main.rs");
    assert_eq!(layout_key(Some(&[]), "x"), "id:");
}

#[test]
fn stored_keys_keep_id_keys_and_fix_path_slashes() {
    assert_eq!(normalize_key("id:0a\\b"), "id:0a\\b");
    assert_eq!(normalize_key("H:\\project\\main.rs"), "H:/project/main.rs");
    assert_eq!(hex_encode(&[0, 15, 16, 255]), "000f10ff");
}

#[test]
fn a_legacy_backslash_key_is_found_by_its_forward_slash_path() {
    let mut store = LayoutStore::new();
    store.insert_stored("H:\\project\\main.rs", Entry { x: 12.5, y: 8.0, pinned: false });
    assert_eq!(store.entry_for(None, "H:/project/main.rs"), Some(Entry { x: 12.5, y: 8.0, pinned: false }));
}

#[test]
fn a_position_saved_by_id_survives_a_rename() {
    let id = [9_u8, 8, 7];
    let mut store = LayoutStore::new();
    store.set(Some(&id), "H:/project/main.rs", Entry { x: 444.0, y: 333.0, pinned: true });
    assert_eq!(
        store.entry_for(Some(&id), "H:/renamed/main.rs"),
        Some(Entry { x: 444.0, y: 333.0, pinned: true })
    );
    assert_eq!(store.entry_for(None, "H:/project/main.rs"), None);
}

#[test]
fn setting_again_replaces_the_position() {
    let mut store = LayoutStore::new();
    store.set(None, "a/b", Entry { x: 1.0, y: 1.0, pinned: false });
    store.set(None, "a\\b", Entry { x: 2.0, y: 2.0, pinned: true });
    assert_eq!(store.entry_for(None, "a/b"), Some(Entry { x: 2.0, y: 2.0, pinned: true }));
    let saved = store.sorted_entries();
    assert_eq!(saved.len(), 1);
    assert_eq!(saved[0].0, "a/b");
}

#[test]
fn removing_with_an_id_drops_both_keys() {
    let id = [5_u8];
    let mut store = LayoutStore::new();
    store.set(None, "p/q", Entry { x: 1.0, y: 1.0, pinned: false });
    store.set(Some(&id), "p/q", Entry { x: 2.0, y: 2.0, pinned: false });
    store.set(None, "other", Entry { x: 3.0, y: 3.0, pinned: false });
    store.remove(Some(&id), "p/q");
    assert_eq!(store.entry_for(Some(&id), "p/q"), None);
    assert_eq!(store.entry_for(None, "other"), Some(Entry { x: 3.0, y: 3.0, pinned: false }));
    store.remove_all();
    assert_eq!(store.entry_for(None, "other"), None);
}

#[test]
fn saved_entries_come_out_sorted_by_key() {
    let mut store = LayoutStore::new();
    store.set(None, "zeta", Entry { x: 1.0, y: 1.0, pinned: false });
    store.set(Some(&[0x10]), "ignored", Entry { x: 2.0, y: 2.0, pinned: true });
    store.set(None, "Alpha", Entry { x: 3.0, y: 3.0, pinned: false });
    store.set(None, "beta", Entry { x: 4.0, y: 4.0, pinned: false });
    let keys: Vec<String> = store.sorted_entries().into_iter().map(|(k, _)| k).collect();
    assert_eq!(keys, vec!["Alpha", "beta", "id:10", "zeta"]);
}
