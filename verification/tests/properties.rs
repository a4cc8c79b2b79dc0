use attributes_cache::AttributesCache;
use attributes_cache::CacheError;

fn labels(names: &[&str]) -> Vec<String> {
    names.iter().map(|n| n.to_string()).collect()
}

#[test]
fn round_trip_returns_exactly_the_attributes() {
    let mut cache = AttributesCache::new();
    let id = cache.set(
        b"round".to_vec(),
        labels(&["alpha", "beta", "gamma", "delta"]),
    );
    assert_eq!(
        cache.get_by_value(id),
        Some(labels(&["alpha", "beta", "gamma", "delta"]))
    );
}

#[test]
fn conjunction_returns_exactly_the_supersets() {
    let mut cache = AttributesCache::new();
    let both = cache.set(b"both".to_vec(), labels(&["a", "b", "c"]));
    let _only_a = cache.set(b"only-a".to_vec(), labels(&["a"]));
    let _only_b = cache.set(b"only-b".to_vec(), labels(&["b", "c"]));
    let both_again = cache.set(b"both-again".to_vec(), labels(&["b", "a"]));
    let hits = cache.get_by_attributes(labels(&["a", "b"]));
    let ids: Vec<usize> = hits.iter().map(|(id, _)| *id).collect();
    assert_eq!(ids, vec![both, both_again]);
}

#[test]
fn empty_query_returns_empty() {
    let mut cache = AttributesCache::new();
    cache.set(b"something".to_vec(), labels(&["a"]));
    assert!(cache.get_by_attributes(Vec::new()).is_empty());
}

#[test]
fn unknown_attribute_returns_empty() {
    let mut cache = AttributesCache::new();
    cache.set(b"v1".to_vec(), labels(&["known", "other"]));
    cache.set(b"v2".to_vec(), labels(&["known"]));
    assert!(cache.get_by_attributes(labels(&["never-inserted"])).is_empty());
    assert!(cache
        .get_by_attributes(labels(&["known", "never-inserted"]))
        .is_empty());
    assert!(cache
        .get_by_attributes(labels(&["never-inserted", "known", "other"]))
        .is_empty());
}

#[test]
fn deletion_is_consistent_across_both_indexes() {
    let mut cache = AttributesCache::new();
    let id = cache.set(b"victim".to_vec(), labels(&["p", "q", "r"]));
    let other = cache.set(b"bystander".to_vec(), labels(&["p", "q"]));
    assert_eq!(cache.delete_by_value(id), Ok(()));
    assert_eq!(cache.get_by_value(id), None);
    for attr in ["p", "q", "r"] {
        let hits = cache.get_by_attributes(labels(&[attr]));
        assert!(hits.iter().all(|(hit, _)| *hit != id));
    }
    assert_eq!(cache.get_by_value(other), Some(labels(&["p", "q"])));
}

#[test]
fn double_delete_fails_with_not_found() {
    let mut cache = AttributesCache::new();
    let id = cache.set(b"once".to_vec(), labels(&["a"]));
    assert_eq!(cache.delete_by_value(id), Ok(()));
    assert_eq!(cache.delete_by_value(id), Err(CacheError::NotFound));
}

#[test]
fn result_order_ignores_attribute_order() {
    let mut cache = AttributesCache::new();
    cache.set(b"one".to_vec(), labels(&["a", "b", "c"]));
    cache.set(b"two".to_vec(), labels(&["c", "a", "b"]));
    cache.set(b"three".to_vec(), labels(&["b"]));
    let forward = cache.get_by_attributes(labels(&["a", "b", "c"]));
    let backward = cache.get_by_attributes(labels(&["c", "b", "a"]));
    let mixed = cache.get_by_attributes(labels(&["b", "c", "a"]));
    assert_eq!(forward, backward);
    assert_eq!(forward, mixed);
    let ids: Vec<usize> = forward.iter().map(|(id, _)| *id).collect();
    assert_eq!(ids, vec![0, 1]);
}

#[test]
fn end_to_end_scenario() {
    let mut cache = AttributesCache::new();
    let messi = cache.set(
        b"messi".to_vec(),
        labels(&["player", "argentina", "barcelona", "psg", "inter-miami"]),
    );
    let dimaria = cache.set(
        b"dimaria".to_vec(),
        labels(&["player", "argentina", "realmadrid", "psg", "manutd"]),
    );
    let vinicius = cache.set(b"vinicius".to_vec(), labels(&["player", "realmadrid", "brazil"]));

    let argentina = cache.get_by_attributes(labels(&["argentina"]));
    assert_eq!(
        argentina,
        vec![(messi, b"messi".to_vec()), (dimaria, b"dimaria".to_vec())]
    );

    let player_psg = cache.get_by_attributes(labels(&["player", "psg"]));
    assert_eq!(
        player_psg,
        vec![(messi, b"messi".to_vec()), (dimaria, b"dimaria".to_vec())]
    );

    let realmadrid = cache.get_by_attributes(labels(&["realmadrid"]));
    assert_eq!(
        realmadrid,
        vec![(dimaria, b"dimaria".to_vec()), (vinicius, b"vinicius".to_vec())]
    );

    assert_eq!(cache.delete_by_value(messi), Ok(()));
    let argentina_after = cache.get_by_attributes(labels(&["argentina"]));
    assert_eq!(argentina_after, vec![(dimaria, b"dimaria".to_vec())]);
}
