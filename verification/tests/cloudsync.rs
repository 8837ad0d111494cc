#![allow(non_snake_case)]

use cloudsync::collection::{Collection, Document, KeyMap};
use cloudsync::config::{resolve_env, resolve_explicit, SyncError};
use cloudsync::Unique;

struct TestOBJ {
    key: String,
    data: String,
}

impl Unique<String> for TestOBJ {
    fn uuid(&self) -> String {
        String::from(&self.key)
    }
}

fn count_with_key(docs: &[Document], key: &str) -> usize {
    docs.iter().filter(|d| d.key == key).count()
}

#[test]
fn testSavingObject() {
    let obj = TestOBJ {
        key: "aaa".to_string(),
        data: "data".to_string(),
    };
    let mut testing = Collection::new();
    testing.save(&obj.uuid(), &obj.data);
    let vec = testing.fetch_all();
    assert_eq!(vec.len(), 1);
}

#[test]
fn fetch_all_returns_saved_entity() {
    let mut testing = Collection::new();
    testing.save(&"aaa".to_string(), &"data".to_string());
    let vec = testing.fetch_all();
    assert_eq!(vec.len(), 1);
    assert_eq!(vec[0].key, "aaa");
    assert_eq!(vec[0].data, "data");
}

#[test]
fn save_gives_exactly_one_with_key() {
    let mut c = Collection::new();
    c.save(&"k1".to_string(), &"v1".to_string());
    c.save(&"k2".to_string(), &"v2".to_string());
    c.save(&"k3".to_string(), &"v3".to_string());
    let all = c.fetch_all();
    assert_eq!(all.len(), 3);
    assert_eq!(count_with_key(&all, "k2"), 1);
    let found: Vec<&Document> = all.iter().filter(|d| d.key == "k2").collect();
    assert_eq!(found[0].data, "v2");
}

#[test]
fn remove_after_save_leaves_no_key() {
    let mut c = Collection::new();
    c.save(&"k1".to_string(), &"v1".to_string());
    c.save(&"k2".to_string(), &"v2".to_string());
    c.remove(&"k1".to_string());
    let all = c.fetch_all();
    assert_eq!(count_with_key(&all, "k1"), 0);
    assert_eq!(count_with_key(&all, "k2"), 1);
}

#[test]
fn remove_absent_key_is_no_error() {
    let mut c = Collection::new();
    c.save(&"k1".to_string(), &"v1".to_string());
    c.remove(&"missing".to_string());
    let all = c.fetch_all();
    assert_eq!(all.len(), 1);
    assert_eq!(all[0].key, "k1");
}

#[test]
fn save_twice_keeps_second_payload_only() {
    let mut c = Collection::new();
    c.save(&"k".to_string(), &"first".to_string());
    c.save(&"k".to_string(), &"second".to_string());
    let all = c.fetch_all();
    assert_eq!(all.len(), 1);
    assert_eq!(all[0].key, "k");
    assert_eq!(all[0].data, "second");
}

#[test]
fn map_keys_match_collection_in_any_order() {
    let mut forward = Collection::new();
    forward.save(&"a".to_string(), &"1".to_string());
    forward.save(&"b".to_string(), &"2".to_string());
    forward.save(&"c".to_string(), &"3".to_string());

    let mut backward = Collection::new();
    backward.save(&"c".to_string(), &"3".to_string());
    backward.save(&"b".to_string(), &"2".to_string());
    backward.save(&"a".to_string(), &"1".to_string());

    for c in [&forward, &backward] {
        let m = c.fetch_all_as_map();
        assert_eq!(m.get(&"a".to_string()), Some(&"1".to_string()));
        assert_eq!(m.get(&"b".to_string()), Some(&"2".to_string()));
        assert_eq!(m.get(&"c".to_string()), Some(&"3".to_string()));
        assert_eq!(m.get(&"d".to_string()), None);
    }
}

#[test]
fn map_overwrites_duplicate_keys() {
    let mut m = KeyMap::new();
    m.insert("k".to_string(), "first".to_string());
    m.insert("k".to_string(), "second".to_string());
    assert_eq!(m.get(&"k".to_string()), Some(&"second".to_string()));
}

#[test]
fn map_get_absent_is_none() {
    let m = KeyMap::new();
    assert_eq!(m.get(&"anything".to_string()), None);
}

#[test]
fn missing_env_project_is_configuration_error() {
    let r = resolve_env(None, "./firebase.json".to_string(), "TestOBJ".to_string());
    match r {
        Err(e) => assert_eq!(e, SyncError::Configuration),
        Ok(_) => panic!("resolution must fail when the variable is unset"),
    }
}

#[test]
fn empty_env_project_is_configuration_error() {
    let r = resolve_env(
        Some("".to_string()),
        "./firebase.json".to_string(),
        "TestOBJ".to_string(),
    );
    match r {
        Err(e) => assert_eq!(e, SyncError::Configuration),
        Ok(_) => panic!("resolution must fail on an empty project id"),
    }
}

#[test]
fn env_resolution_uses_entity_name_as_collection() {
    let r = resolve_env(
        Some("cloudsync-testing".to_string()),
        "./firebase.json".to_string(),
        "TestOBJ".to_string(),
    );
    let cfg = r.unwrap_or_else(|_| panic!("resolution must succeed"));
    assert_eq!(cfg.project_id, "cloudsync-testing");
    assert_eq!(cfg.cred_path, "./firebase.json");
    assert_eq!(cfg.collection, "TestOBJ");
}

#[test]
fn explicit_resolution_keeps_all_parts() {
    let r = resolve_explicit(
        "cloudsync-testing".to_string(),
        "./firebase.json".to_string(),
        "testing".to_string(),
    );
    let cfg = r.unwrap_or_else(|_| panic!("resolution must succeed"));
    assert_eq!(cfg.project_id, "cloudsync-testing");
    assert_eq!(cfg.cred_path, "./firebase.json");
    assert_eq!(cfg.collection, "testing");
}

#[test]
fn explicit_resolution_rejects_missing_parts() {
    let missing_project =
        resolve_explicit("".to_string(), "./firebase.json".to_string(), "testing".to_string());
    assert!(matches!(missing_project, Err(SyncError::Configuration)));
    let missing_cred =
        resolve_explicit("p".to_string(), "".to_string(), "testing".to_string());
    assert!(matches!(missing_cred, Err(SyncError::Configuration)));
    let missing_collection =
        resolve_explicit("p".to_string(), "./firebase.json".to_string(), "".to_string());
    assert!(matches!(missing_collection, Err(SyncError::Configuration)));
}
