use memo_cache::{CacheData, Memo, MemoMeta, MemoState, StoreData};

#[test]
fn stored_value_is_readable() {
    let mut store = StoreData::new();
    assert!(store.get_data(&"theme".to_string()).is_none());
    store.store_data("theme".to_string(), "dark".to_string());
    assert_eq!(store.get_data(&"theme".to_string()).unwrap(), "dark");
    store.store_data("theme".to_string(), "light".to_string());
    assert_eq!(store.get_data(&"theme".to_string()).unwrap(), "light");
}

#[test]
fn reserved_keys_mirror_identity_fields() {
    let mut store = StoreData::new();
    store.store_data("serverUrl".to_string(), "https://example.com".to_string());
    store.store_data("userName".to_string(), "alice".to_string());
    assert_eq!(store.server_url, "https://example.com");
    assert_eq!(store.user_name, "alice");
    assert_eq!(store.get_data(&"serverUrl".to_string()).unwrap(), "https://example.com");
    store.store_data("other".to_string(), "x".to_string());
    assert_eq!(store.server_url, "https://example.com");
}

#[test]
fn remove_data_clears_keys_and_reserved_fields() {
    let mut store = StoreData::new();
    store.store_data("serverUrl".to_string(), "https://example.com".to_string());
    store.store_data("userName".to_string(), "alice".to_string());
    store.store_data("theme".to_string(), "dark".to_string());
    store.remove_data(vec!["serverUrl".to_string(), "theme".to_string()]);
    assert_eq!(store.server_url, "");
    assert_eq!(store.user_name, "alice");
    assert!(store.get_data(&"serverUrl".to_string()).is_none());
    assert!(store.get_data(&"theme".to_string()).is_none());
    assert_eq!(store.get_data(&"userName".to_string()).unwrap(), "alice");
}

fn meta_to_json(meta: &MemoMeta) -> serde_json::Value {
    let mut obj = serde_json::Map::new();
    obj.insert("name".to_string(), serde_json::Value::String(meta.name.clone()));
    obj.insert(
        "create_time".to_string(),
        serde_json::Value::String(meta.create_time.clone()),
    );
    obj.insert(
        "update_time".to_string(),
        serde_json::Value::String(meta.update_time.clone()),
    );
    obj.insert(
        "display_time".to_string(),
        serde_json::Value::String(meta.display_time.clone()),
    );
    obj.insert(
        "visibility".to_string(),
        serde_json::Value::String(meta.visibility.clone()),
    );
    obj.insert("pinned".to_string(), serde_json::Value::Bool(meta.pinned));
    obj.insert(
        "tags".to_string(),
        serde_json::Value::Array(
            meta.tags
                .iter()
                .map(|t| serde_json::Value::String(t.clone()))
                .collect(),
        ),
    );
    let state = match meta.state {
        MemoState::Normal => "NORMAL",
        MemoState::Archived => "ARCHIVED",
    };
    obj.insert("state".to_string(), serde_json::Value::String(state.to_string()));
    serde_json::Value::Object(obj)
}

fn meta_from_json(v: &serde_json::Value) -> MemoMeta {
    let get = |k: &str| v.get(k).unwrap().as_str().unwrap().to_string();
    MemoMeta {
        name: get("name"),
        create_time: get("create_time"),
        update_time: get("update_time"),
        display_time: get("display_time"),
        visibility: get("visibility"),
        pinned: v.get("pinned").unwrap().as_bool().unwrap(),
        tags: v
            .get("tags")
            .unwrap()
            .as_array()
            .unwrap()
            .iter()
            .map(|t| t.as_str().unwrap().to_string())
            .collect(),
        state: if get("state") == "ARCHIVED" {
            MemoState::Archived
        } else {
            MemoState::Normal
        },
    }
}

#[test]
fn dirty_metadata_snapshot_round_trips_through_json() {
    let mut cache = CacheData::new();
    for (name, pinned) in [("memos/1", false), ("memos/2", true)] {
        cache.store_memo(
            name.to_string(),
            Memo {
                name: name.to_string(),
                create_time: "2024-01-01T00:00:00Z".to_string(),
                update_time: "2024-05-01T00:00:00Z".to_string(),
                display_time: "2024-05-01T00:00:00Z".to_string(),
                visibility: "PUBLIC".to_string(),
                content: "body".to_string(),
                pinned,
                resources: vec![],
                relations: vec![],
                reactions: vec![],
                tags: vec!["t".to_string()],
                state: MemoState::Normal,
            },
        );
    }
    let plan = cache.collect_flush_plan();
    let snapshot = plan.meta_snapshot.expect("metadata map was dirty");

    // serialize the whole map as one JSON object, as the loop writes it
    let mut obj = serde_json::Map::new();
    for (key, meta) in &snapshot {
        obj.insert(key.clone(), meta_to_json(meta));
    }
    let written = serde_json::Value::Object(obj).to_string();

    // read it back and compare with what was flushed
    let parsed: serde_json::Value = serde_json::from_str(&written).unwrap();
    let parsed_obj = parsed.as_object().unwrap();
    assert_eq!(parsed_obj.len(), snapshot.len());
    for (key, meta) in &snapshot {
        let back = meta_from_json(parsed_obj.get(key).unwrap());
        assert_eq!(&back, meta);
    }
}
