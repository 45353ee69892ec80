use netsync::shadow_cache::CachedShadowMap;

#[test]
fn fresh_cache_is_never_current() {
    let cache = CachedShadowMap::new();
    assert!(!cache.is_current(0, 0));
    assert!(!cache.is_current(3, 4));
}

#[test]
fn recorded_bake_is_current_until_versions_move() {
    let mut cache = CachedShadowMap::new();
    cache.record_bake(3, 4);
    assert!(cache.is_current(3, 4));
    assert!(!cache.is_current(4, 4));
    assert!(!cache.is_current(3, 5));
    cache.record_bake(4, 4);
    assert!(cache.is_current(4, 4));
}
