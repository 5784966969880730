//! Tests of Mermaid cache keys. The keys take the rounded rendering
//! parameters; `key` rounds font size and width as the renderer does.
use ferrite_core::markdown::mermaid::cache::{CacheKey, CacheStats, CachedFlowchart, MermaidCacheManager};
use ferrite_core::markdown::mermaid::flowchart::{parse_flowchart, Flowchart};

fn key(source: &str, font_size: f32, available_width: f32) -> CacheKey {
    CacheKey::new(
        source,
        (font_size * 2.0).round() as u32,
        (available_width / 10.0).round() as u32,
    )
}

#[test]
fn test_cache_key_creation() {
    let key1 = key("flowchart TD\n  A --> B", 14.0, 400.0);
    let key2 = key("flowchart TD\n  A --> B", 14.0, 400.0);
    let key3 = key("flowchart TD\n  A --> C", 14.0, 400.0);

    // Same source should produce same key
    assert_eq!(key1, key2);

    // Different source should produce different key
    assert_ne!(key1, key3);
}

#[test]
fn test_cache_key_font_size_rounding() {
    // Font sizes within 0.25 should round to same value
    let key1 = key("test", 14.0, 400.0);
    let key2 = key("test", 14.2, 400.0);
    let key3 = key("test", 14.5, 400.0);

    // 14.0 and 14.2 round to 14.0 (x2 = 28)
    assert_eq!(key1.font_size_x2, key2.font_size_x2);
    // 14.5 rounds to 14.5 (x2 = 29)
    assert_ne!(key1.font_size_x2, key3.font_size_x2);
}

#[test]
fn test_cache_key_width_rounding() {
    // Widths within 5 pixels should round to same value
    let key1 = key("test", 14.0, 400.0);
    let key2 = key("test", 14.0, 404.0);
    let key3 = key("test", 14.0, 410.0);

    // 400 and 404 round to 40
    assert_eq!(key1.width_div10, key2.width_div10);
    // 410 rounds to 41
    assert_ne!(key1.width_div10, key3.width_div10);
}

#[test]
fn test_cache_key_hash_is_blake3_of_source() {
    let k = CacheKey::new("flowchart TD", 28, 40);
    assert_eq!(k.source_hash(), blake3::hash("flowchart TD".as_bytes()).as_bytes());
    assert_ne!(&k.source_hash()[..12], "flowchart TD".as_bytes());
    assert_eq!(k.font_size_x2, 28);
    assert_eq!(k.width_div10, 40);
}

#[test]
fn test_cache_stats_default() {
    let s = CacheStats::default();
    assert_eq!((s.hits, s.misses, s.evictions), (0, 0, 0));
}

/// The layout slot of the tests' cache entries.
type FlowchartLayout = ();

#[test]
fn test_cache_manager_basic() {
    let mut cache: MermaidCacheManager<FlowchartLayout> = MermaidCacheManager::new();
    let key = key("flowchart TD\n  A --> B", 14.0, 400.0);

    // Cache should be empty initially
    assert!(cache.get_flowchart(&key).is_none());
    assert_eq!(cache.stats().misses, 1);

    // Insert a flowchart
    let flowchart = Flowchart::default();
    let layout: FlowchartLayout = ();
    cache.insert_flowchart(key, flowchart, layout);

    // Should now be cached
    assert!(cache.get_flowchart(&key).is_some());
    assert_eq!(cache.stats().hits, 1);
}

#[test]
fn test_cache_manager_eviction() {
    let mut cache: MermaidCacheManager<FlowchartLayout> = MermaidCacheManager::with_capacity(2);

    let key1 = key("source1", 14.0, 400.0);
    let key2 = key("source2", 14.0, 400.0);
    let key3 = key("source3", 14.0, 400.0);

    // Insert two entries
    cache.insert_flowchart(key1, Flowchart::default(), ());
    cache.insert_flowchart(key2, Flowchart::default(), ());

    assert_eq!(cache.len(), 2);

    // Access key1 to make it more recent
    cache.get_flowchart(&key1);

    // Insert third entry - should evict key2 (LRU)
    cache.insert_flowchart(key3, Flowchart::default(), ());

    assert_eq!(cache.len(), 2);
    assert!(cache.get_flowchart(&key1).is_some());
    assert!(cache.get_flowchart(&key3).is_some());
    // key2 should have been evicted
    assert_eq!(cache.stats().evictions, 1);
}

#[test]
fn test_cache_manager_clear() {
    let mut cache: MermaidCacheManager<FlowchartLayout> = MermaidCacheManager::new();
    let key = key("test", 14.0, 400.0);

    cache.insert_flowchart(key, Flowchart::default(), ());
    assert_eq!(cache.len(), 1);

    cache.clear();
    assert!(cache.is_empty());
}

#[test]
fn test_cache_get_after_insert_returns_entry() {
    let mut cache: MermaidCacheManager<u32> = MermaidCacheManager::with_capacity(1);
    let k1 = key("a", 14.0, 400.0);
    let k2 = key("b", 14.0, 400.0);
    let f = parse_flowchart("flowchart LR\n X --> Y").unwrap();
    cache.insert_flowchart(k1, f, 7);
    let got = cache.get_flowchart(&k1).unwrap();
    assert_eq!(got.layout, 7);
    assert_eq!(got.flowchart.nodes.len(), 2);
    // a full cache of one evicts the only entry for a new key
    cache.insert_flowchart(k2, Flowchart::default(), 8);
    assert_eq!(cache.len(), 1);
    assert!(cache.get_flowchart(&k1).is_none());
    assert_eq!(cache.get_flowchart(&k2).map(|e| e.layout), Some(8));
    // replacing a key keeps one entry
    cache.insert_flowchart(k2, Flowchart::default(), 9);
    assert_eq!(cache.len(), 1);
    assert_eq!(cache.get_flowchart(&k2).map(|e| e.layout), Some(9));
    assert_eq!(cache.stats().evictions, 2);
}

#[test]
fn test_cache_capacity_zero_holds_one() {
    let mut cache: MermaidCacheManager<()> = MermaidCacheManager::with_capacity(0);
    cache.insert_flowchart(key("a", 14.0, 400.0), Flowchart::default(), ());
    cache.insert_flowchart(key("b", 14.0, 400.0), Flowchart::default(), ());
    assert_eq!(cache.len(), 1);
    assert_eq!(cache.stats().evictions, 1);
}

#[test]
fn test_cached_flowchart_touch() {
    let mut e = CachedFlowchart::new(Flowchart::default(), (), 3);
    assert_eq!(e.last_access, 3);
    e.touch(10);
    assert_eq!(e.last_access, 10);
}
