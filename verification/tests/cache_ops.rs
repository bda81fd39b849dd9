use memo_cache::{AppState, CacheData, Memo, MemoState};

fn memo(name: &str, display_time: &str, pinned: bool, state: MemoState, tags: &[&str]) -> Memo {
    Memo {
        name: name.to_string(),
        create_time: "2024-01-01T00:00:00Z".to_string(),
        update_time: display_time.to_string(),
        display_time: display_time.to_string(),
        visibility: "PRIVATE".to_string(),
        content: format!("content of {}", name),
        pinned,
        resources: vec![],
        relations: vec![],
        reactions: vec![],
        tags: tags.iter().map(|t| t.to_string()).collect(),
        state,
    }
}

#[test]
fn store_then_get_returns_equal_memo() {
    let mut cache = CacheData::new();
    let m = memo("memos/1", "2024-05-01T10:00:00Z", false, MemoState::Normal, &["work"]);
    cache.store_memo("memos/1".to_string(), m.clone());
    let got = cache.get_memo("memos/1").expect("stored memo must be found");
    assert_eq!(got, m);
}

#[test]
fn delete_then_get_returns_absence() {
    let mut cache = CacheData::new();
    let m = memo("memos/1", "2024-05-01T10:00:00Z", false, MemoState::Normal, &[]);
    cache.store_memo("memos/1".to_string(), m);
    cache.delete_memo("memos/1");
    assert!(cache.get_memo("memos/1").is_none());
    assert!(cache.is_all_memo_meta_updated);
}

#[test]
fn restoring_unchanged_memo_sets_no_dirty_flags() {
    let mut cache = CacheData::new();
    let m = memo("memos/1", "2024-05-01T10:00:00Z", true, MemoState::Normal, &["a"]);
    cache.store_memo("memos/1".to_string(), m.clone());
    // the first store dirtied both sides; flush clears the flags
    let _ = cache.collect_flush_plan();
    assert!(!cache.is_all_memo_meta_updated);
    cache.store_memo("memos/1".to_string(), m);
    assert!(!cache.is_all_memo_meta_updated);
    for (_, entry) in cache.memos.iter() {
        assert!(!entry.is_updated);
    }
}

#[test]
fn changed_memo_sets_both_dirty_flags() {
    let mut cache = CacheData::new();
    let m = memo("memos/1", "2024-05-01T10:00:00Z", true, MemoState::Normal, &["a"]);
    cache.store_memo("memos/1".to_string(), m.clone());
    let _ = cache.collect_flush_plan();
    let mut changed = m.clone();
    changed.pinned = false;
    cache.store_memo("memos/1".to_string(), changed);
    assert!(cache.is_all_memo_meta_updated);
    assert!(cache.memos.iter().any(|(_, e)| e.is_updated));
}

#[test]
fn content_only_change_leaves_meta_flag_clean() {
    let mut cache = CacheData::new();
    let m = memo("memos/1", "2024-05-01T10:00:00Z", false, MemoState::Normal, &[]);
    cache.store_memo("memos/1".to_string(), m.clone());
    let _ = cache.collect_flush_plan();
    let mut changed = m.clone();
    changed.content = "edited body".to_string();
    cache.store_memo("memos/1".to_string(), changed);
    // the projection ignores content, so only the entry flag moves
    assert!(!cache.is_all_memo_meta_updated);
    assert!(cache.memos.iter().any(|(_, e)| e.is_updated));
}

#[test]
fn loaded_memo_is_clean() {
    let mut cache = CacheData::new();
    let m = memo("memos/7", "2024-05-01T10:00:00Z", false, MemoState::Normal, &[]);
    cache.insert_loaded_memo("memos/7".to_string(), m.clone());
    assert!(!cache.is_all_memo_meta_updated);
    for (_, entry) in cache.memos.iter() {
        assert!(!entry.is_updated);
    }
    assert_eq!(cache.get_memo("memos/7").unwrap(), m);
}

#[test]
fn flush_plan_carries_dirty_entries_once() {
    let mut cache = CacheData::new();
    let m1 = memo("memos/1", "2024-05-01T10:00:00Z", false, MemoState::Normal, &[]);
    let m2 = memo("memos/2", "2024-05-02T10:00:00Z", true, MemoState::Normal, &[]);
    cache.store_memo("memos/1".to_string(), m1.clone());
    cache.store_memo("memos/2".to_string(), m2.clone());
    let plan = cache.collect_flush_plan();
    let snapshot = plan.meta_snapshot.expect("meta flag was dirty");
    assert_eq!(snapshot.len(), 2);
    assert_eq!(plan.dirty_memos.len(), 2);
    assert_eq!(plan.dirty_memos[0], m1);
    assert_eq!(plan.dirty_memos[1], m2);
    // a second tick with no mutation in between has nothing to write
    let plan = cache.collect_flush_plan();
    assert!(plan.meta_snapshot.is_none());
    assert!(plan.dirty_memos.is_empty());
}

#[test]
fn logout_empties_caches_but_not_disk_state() {
    let mut state = AppState::new();
    state.store.store_data("serverUrl".to_string(), "https://example.com".to_string());
    state.store.store_data("userName".to_string(), "alice".to_string());
    let m = memo("memos/1", "2024-05-01T10:00:00Z", false, MemoState::Normal, &[]);
    state.cache.store_memo("memos/1".to_string(), m);
    state.logout();
    assert!(state.cache.memos.is_empty());
    assert!(state.cache.all_memo_meta.is_empty());
    assert!(!state.cache.is_all_memo_meta_updated);
    assert_eq!(state.store.server_url, "");
    assert_eq!(state.store.user_name, "");
    assert!(state.store.get_data(&"serverUrl".to_string()).is_none());
    // what logout leaves for disk is the caller's: the in-memory flush
    // plan after logout is empty, so no cache file is rewritten
    let plan = state.cache.collect_flush_plan();
    assert!(plan.meta_snapshot.is_none());
    assert!(plan.dirty_memos.is_empty());
}
