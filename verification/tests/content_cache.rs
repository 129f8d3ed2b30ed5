use bytes::Bytes;
use spritebox::remote::content_cache::{ContentCache, ContentCacheConfig};

#[test]
fn hit_then_miss_after_eviction_by_bytes() {
    let mut c = ContentCache::new(ContentCacheConfig { chunk_size: 8, max_bytes: 16 });
    c.insert(1, 0, Bytes::from_static(b"AAAAAAAA"));
    c.insert(1, 1, Bytes::from_static(b"BBBBBBBB"));
    assert!(c.get(1, 0).is_some());
    assert!(c.get(1, 1).is_some());
    assert_eq!(c.bytes_used(), 16);

    c.insert(2, 0, Bytes::from_static(b"CCCCCCCC"));
    assert!(c.bytes_used() <= 16);
    assert_eq!(c.evictions, 1);
    assert_eq!(c.bytes_evicted, 8);
}

#[test]
fn many_small_entries_fit_under_byte_cap() {
    let mut c = ContentCache::new(ContentCacheConfig { chunk_size: 16, max_bytes: 1024 });
    for i in 0..64u64 {
        c.insert(i, 0, Bytes::from_static(&[0xAB; 16]));
    }
    assert_eq!(c.len(), 64);
    assert_eq!(c.bytes_used(), 1024);
    assert_eq!(c.evictions, 0);

    c.insert(64, 0, Bytes::from_static(&[0xCD; 16]));
    assert_eq!(c.evictions, 1);
    assert!(c.bytes_used() <= 1024);
}

#[test]
fn variable_size_chunks_evict_proportionally() {
    let mut c = ContentCache::new(ContentCacheConfig { chunk_size: 100, max_bytes: 200 });
    c.insert(1, 0, Bytes::from_static(&[0u8; 100]));
    c.insert(1, 1, Bytes::from_static(&[0u8; 30]));
    assert_eq!(c.bytes_used(), 130);

    c.insert(2, 0, Bytes::from_static(&[0u8; 100]));
    assert!(c.bytes_used() <= 200);
}

#[test]
fn invalidate_ino_returns_bytes_to_pool() {
    let mut c = ContentCache::new(ContentCacheConfig { chunk_size: 100, max_bytes: 1000 });
    c.insert(1, 0, Bytes::from_static(&[0u8; 100]));
    c.insert(1, 1, Bytes::from_static(&[0u8; 100]));
    c.insert(2, 0, Bytes::from_static(&[0u8; 100]));
    assert_eq!(c.bytes_used(), 300);
    c.invalidate_ino(1);
    assert_eq!(c.bytes_used(), 100);
    assert_eq!(c.len(), 1);
}

#[test]
fn invalidate_range_only_drops_intersecting() {
    let mut c = ContentCache::new(ContentCacheConfig { chunk_size: 100, max_bytes: 10000 });
    c.insert(1, 0, Bytes::from_static(&[0u8; 100]));
    c.insert(1, 1, Bytes::from_static(&[0u8; 100]));
    c.insert(1, 2, Bytes::from_static(&[0u8; 100]));
    c.invalidate_range(1, 150, 30);
    assert!(c.get(1, 0).is_some());
    assert!(c.get(1, 1).is_none());
    assert!(c.get(1, 2).is_some());
    assert_eq!(c.bytes_used(), 200);
}

#[test]
fn lru_promotes_on_hit() {
    let mut c = ContentCache::new(ContentCacheConfig { chunk_size: 8, max_bytes: 16 });
    c.insert(1, 0, Bytes::from_static(b"AAAAAAAA"));
    c.insert(1, 1, Bytes::from_static(b"BBBBBBBB"));
    let _ = c.get(1, 0);
    c.insert(1, 2, Bytes::from_static(b"CCCCCCCC"));
    assert!(c.get(1, 0).is_some());
    assert!(c.get(1, 1).is_none());
    assert!(c.get(1, 2).is_some());
}

#[test]
fn refuses_chunk_larger_than_cap() {
    let mut c = ContentCache::new(ContentCacheConfig { chunk_size: 100, max_bytes: 50 });
    c.insert(1, 0, Bytes::from_static(&[0u8; 100]));
    assert_eq!(c.len(), 0);
    assert_eq!(c.bytes_used(), 0);
}

#[test]
fn what_is_put_in_comes_out() {
    let mut c = ContentCache::new(ContentCacheConfig::default());
    c.insert(1, 0, Bytes::from_static(b"old"));
    c.insert(1, 0, Bytes::from_static(b"new!"));
    c.insert(2, 0, Bytes::from_static(b"other"));
    assert_eq!(c.get(1, 0), Some(Bytes::from_static(b"new!")));
    assert_eq!(c.get(2, 0), Some(Bytes::from_static(b"other")));
    assert_eq!(c.get(1, 1), None);
    assert_eq!(c.bytes_used(), 9);
    assert_eq!((c.hits, c.misses), (2, 1));
    assert!(!c.is_empty());
}

#[test]
fn the_whole_file_is_dropped_by_a_range_of_no_length() {
    let mut c = ContentCache::new(ContentCacheConfig { chunk_size: 4, max_bytes: 100 });
    c.insert(1, 0, Bytes::from_static(b"aaaa"));
    c.insert(1, 1, Bytes::from_static(b"bbbb"));
    c.insert(2, 0, Bytes::from_static(b"cccc"));
    c.invalidate_range(1, 0, 0);
    c.invalidate_range(1, 0, 0);
    assert_eq!(c.len(), 1);
    assert!(c.get(2, 0).is_some());
}
