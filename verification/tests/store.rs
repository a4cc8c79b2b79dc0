use attributes_cache::AttributesCache;
use attributes_cache::CacheError;

fn tags(names: &[&str]) -> Vec<String> {
    names.iter().map(|n| n.to_string()).collect()
}

#[test]
fn it_works() {
    let mut football_cache = AttributesCache::new();
    assert_eq!(
        football_cache.set(
            b"messi".to_vec(),
            tags(&["player", "argentina", "barcelona", "psg", "inter-miami"]),
        ),
        0
    );

    assert_eq!(
        football_cache.set(
            b"dimaria".to_vec(),
            tags(&["player", "argentina", "realmadrid", "psg", "manutd"]),
        ),
        1
    );

    assert_eq!(
        football_cache.set(
            b"vinicius".to_vec(),
            tags(&["player", "realmadrid", "brazil"]),
        ),
        2
    );

    assert_eq!(
        football_cache.set(
            b"arsenal".to_vec(),
            tags(&["club", "england", "london", "emirates"]),
        ),
        3
    );

    assert_eq!(
        football_cache.set(b"dortmund".to_vec(), tags(&["club", "germany", "borussia"])),
        4
    );

    assert_eq!(
        football_cache.get_by_attributes(tags(&["argentina"])).is_empty(),
        false
    );

    let v = football_cache.get_by_attributes(tags(&["argentina"]));
    assert_eq!(v.len(), 2);
    assert_eq!(v[0].1, b"messi".to_vec());
    assert_eq!(v[1].1, b"dimaria".to_vec());
}

#[test]
fn get_by_value_of_fresh_insert() {
    let mut cache = AttributesCache::new();
    let id = cache.set(b"payload".to_vec(), tags(&["red", "green", "blue"]));
    let attrs = cache.get_by_value(id);
    assert_eq!(attrs, Some(tags(&["red", "green", "blue"])));
}

#[test]
fn get_by_value_unknown_id() {
    let cache = AttributesCache::new();
    assert_eq!(cache.get_by_value(0), None);
    assert_eq!(cache.get_by_value(17), None);
}

#[test]
fn repeated_attributes_count_once() {
    let mut cache = AttributesCache::new();
    let id = cache.set(b"v".to_vec(), tags(&["a", "b", "a", "a", "b"]));
    assert_eq!(cache.get_by_value(id), Some(tags(&["a", "b"])));
    let hits = cache.get_by_attributes(tags(&["a", "b"]));
    assert_eq!(hits.len(), 1);
    assert_eq!(hits[0].0, id);
}

#[test]
fn value_with_no_attributes_is_only_reachable_by_id() {
    let mut cache = AttributesCache::new();
    let id = cache.set(b"orphan".to_vec(), Vec::new());
    assert_eq!(cache.get_by_value(id), Some(Vec::new()));
    assert!(cache.get_by_attributes(tags(&["anything"])).is_empty());
}

#[test]
fn delete_by_value_unknown_id_fails() {
    let mut cache = AttributesCache::new();
    assert_eq!(cache.delete_by_value(0), Err(CacheError::NotFound));
    let id = cache.set(b"v".to_vec(), tags(&["a"]));
    assert_eq!(cache.delete_by_value(id + 1), Err(CacheError::NotFound));
}

#[test]
fn ids_are_not_reused_after_delete() {
    let mut cache = AttributesCache::new();
    let first = cache.set(b"one".to_vec(), tags(&["a"]));
    assert_eq!(cache.delete_by_value(first), Ok(()));
    let second = cache.set(b"two".to_vec(), tags(&["a"]));
    assert_ne!(first, second);
    assert_eq!(second, 1);
    let hits = cache.get_by_attributes(tags(&["a"]));
    assert_eq!(hits.len(), 1);
    assert_eq!(hits[0].0, second);
}

#[test]
fn delete_by_attributes_returns_deleted_ids() {
    let mut cache = AttributesCache::new();
    let a = cache.set(b"a".to_vec(), tags(&["x", "y"]));
    let b = cache.set(b"b".to_vec(), tags(&["x"]));
    let c = cache.set(b"c".to_vec(), tags(&["x", "y"]));
    assert_eq!(cache.delete_by_attributes(tags(&["x", "y"])), Ok(vec![a, c]));
    assert_eq!(cache.get_by_value(a), None);
    assert_eq!(cache.get_by_value(c), None);
    assert_eq!(cache.get_by_value(b), Some(tags(&["x"])));
    let hits = cache.get_by_attributes(tags(&["x"]));
    assert_eq!(hits.len(), 1);
    assert_eq!(hits[0].0, b);
}

#[test]
fn delete_by_attributes_with_empty_query_deletes_nothing() {
    let mut cache = AttributesCache::new();
    let id = cache.set(b"kept".to_vec(), tags(&["a"]));
    assert_eq!(cache.delete_by_attributes(Vec::new()), Ok(Vec::new()));
    assert_eq!(cache.get_by_value(id), Some(tags(&["a"])));
}
