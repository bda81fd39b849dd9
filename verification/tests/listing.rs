use memo_cache::{CacheData, Memo, MemoState};

fn memo(name: &str, display_time: &str, pinned: bool, state: MemoState, tags: &[&str]) -> Memo {
    Memo {
        name: name.to_string(),
        create_time: "2024-01-01T00:00:00Z".to_string(),
        update_time: display_time.to_string(),
        display_time: display_time.to_string(),
        visibility: "PRIVATE".to_string(),
        content: format!("content of {}", name),
        pinned,
        resources: vec![],
        relations: vec![],
        reactions: vec![],
        tags: tags.iter().map(|t| t.to_string()).collect(),
        state,
    }
}

fn filled_cache() -> CacheData {
    let mut cache = CacheData::new();
    for (name, time, pinned, state, tags) in [
        ("memos/1", "2024-05-01T10:00:00Z", false, MemoState::Normal, vec!["work"]),
        ("memos/2", "2024-05-03T10:00:00Z", false, MemoState::Normal, vec!["home"]),
        ("memos/3", "2024-05-02T10:00:00Z", true, MemoState::Normal, vec!["work"]),
        ("memos/4", "2024-05-04T10:00:00Z", false, MemoState::Archived, vec![]),
        ("memos/5", "2024-04-30T10:00:00Z", false, MemoState::Normal, vec![]),
    ] {
        let tag_refs: Vec<&str> = tags.clone();
        cache.store_memo(name.to_string(), memo(name, time, pinned, state, &tag_refs));
    }
    cache
}

#[test]
fn empty_cache_lists_nothing() {
    let cache = CacheData::new();
    assert!(cache.get_memo_list(0, 10, "".to_string(), false, false).is_none());
    assert!(cache.list_names(0, 10, "", true, false).is_none());
}

#[test]
fn storing_under_one_name_keeps_one_entry() {
    let mut cache = CacheData::new();
    let first = memo("memos/1", "2024-05-01T10:00:00Z", false, MemoState::Normal, &[]);
    let mut second = memo("memos/1", "2024-05-02T10:00:00Z", false, MemoState::Normal, &[]);
    second.content = "rewritten".to_string();
    cache.store_memo("memos/1".to_string(), first);
    cache.store_memo("memos/1".to_string(), second.clone());
    assert_eq!(cache.memos.len(), 1);
    assert_eq!(cache.all_memo_meta.len(), 1);
    assert_eq!(cache.get_memo("memos/1").unwrap(), second);
}

#[test]
fn pinned_filter_is_exact() {
    let cache = filled_cache();
    let pinned = cache.get_memo_list(0, 10, "".to_string(), true, false).unwrap();
    assert!(pinned.iter().all(|m| m.pinned));
    assert_eq!(pinned.len(), 1);
    let unpinned = cache.get_memo_list(0, 10, "".to_string(), false, false).unwrap();
    assert!(unpinned.iter().all(|m| !m.pinned));
    assert_eq!(unpinned.len(), 3);
}

#[test]
fn archived_filter_is_exact() {
    let cache = filled_cache();
    let archived = cache.get_memo_list(0, 10, "".to_string(), false, true).unwrap();
    assert_eq!(archived.len(), 1);
    assert_eq!(archived[0].name, "memos/4");
    let normal = cache.get_memo_list(0, 10, "".to_string(), false, false).unwrap();
    assert!(normal.iter().all(|m| m.state == MemoState::Normal));
}

#[test]
fn tag_filter_matches_tag_lists() {
    let cache = filled_cache();
    let work = cache.get_memo_list(0, 10, "work".to_string(), false, false).unwrap();
    assert_eq!(work.len(), 1);
    assert_eq!(work[0].name, "memos/1");
    assert!(cache.get_memo_list(0, 10, "nothing".to_string(), false, false).is_none());
}

#[test]
fn listing_is_sorted_by_display_time_descending() {
    let cache = filled_cache();
    let list = cache.get_memo_list(0, 10, "".to_string(), false, false).unwrap();
    let names: Vec<&str> = list.iter().map(|m| m.name.as_str()).collect();
    assert_eq!(names, ["memos/2", "memos/1", "memos/5"]);
}

#[test]
fn equal_display_times_keep_all_records() {
    let mut cache = CacheData::new();
    for name in ["memos/a", "memos/b", "memos/c"] {
        cache.store_memo(
            name.to_string(),
            memo(name, "2024-05-01T10:00:00Z", false, MemoState::Normal, &[]),
        );
    }
    let list = cache.get_memo_list(0, 10, "".to_string(), false, false).unwrap();
    let mut names: Vec<&str> = list.iter().map(|m| m.name.as_str()).collect();
    names.sort();
    assert_eq!(names, ["memos/a", "memos/b", "memos/c"]);
}

#[test]
fn pagination_window_and_absence() {
    let cache = filled_cache();
    // three un-pinned, normal memos survive the filters
    assert!(cache.get_memo_list(3, 10, "".to_string(), false, false).is_none());
    assert!(cache.get_memo_list(0, 0, "".to_string(), false, false).is_none());
    let page = cache.get_memo_list(1, 1, "".to_string(), false, false).unwrap();
    assert_eq!(page.len(), 1);
    assert_eq!(page[0].name, "memos/1");
    let tail = cache.get_memo_list(1, 10, "".to_string(), false, false).unwrap();
    assert_eq!(tail.len(), 2);
}

#[test]
fn list_names_matches_resolved_listing() {
    let cache = filled_cache();
    let names = cache.list_names(0, 10, "", false, false).unwrap();
    assert_eq!(names, ["memos/2", "memos/1", "memos/5"]);
    let list = cache.get_memo_list(0, 10, "".to_string(), false, false).unwrap();
    let listed: Vec<&str> = list.iter().map(|m| m.name.as_str()).collect();
    assert_eq!(names, listed);
}

#[test]
fn loaded_metadata_drives_listing_without_content() {
    let mut cache = CacheData::new();
    let full = memo("memos/9", "2024-05-01T10:00:00Z", false, MemoState::Normal, &[]);
    let meta = memo_cache::MemoMeta {
        name: full.name.clone(),
        create_time: full.create_time.clone(),
        update_time: full.update_time.clone(),
        display_time: full.display_time.clone(),
        visibility: full.visibility.clone(),
        pinned: full.pinned,
        tags: full.tags.clone(),
        state: full.state,
    };
    cache.insert_loaded_meta(meta);
    assert!(!cache.is_all_memo_meta_updated);
    // the name is selected, but without content nothing resolves
    let names = cache.list_names(0, 10, "", false, false).unwrap();
    assert_eq!(names, ["memos/9"]);
    let list = cache.get_memo_list(0, 10, "".to_string(), false, false).unwrap();
    assert!(list.is_empty());
    // once the content is loaded from disk, the listing resolves it
    cache.insert_loaded_memo("memos/9".to_string(), full.clone());
    let list = cache.get_memo_list(0, 10, "".to_string(), false, false).unwrap();
    assert_eq!(list, [full]);
}

#[test]
fn listing_skips_names_without_content() {
    let mut cache = filled_cache();
    // remove one content entry directly, leaving its metadata behind
    let idx = cache
        .memos
        .iter()
        .position(|(k, _)| k == "memos/1")
        .unwrap();
    cache.memos.remove(idx);
    let list = cache.get_memo_list(0, 10, "".to_string(), false, false).unwrap();
    let names: Vec<&str> = list.iter().map(|m| m.name.as_str()).collect();
    assert_eq!(names, ["memos/2", "memos/5"]);
}
