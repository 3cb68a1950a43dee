use csv_tool::csv::PageCache;

fn page(tag: &str) -> Vec<Vec<String>> {
    vec![vec![tag.to_string(), "x".to_string()]]
}

#[test]
fn a_new_cache_is_empty() {
    let mut cache = PageCache::new(3);
    assert_eq!(cache.len(), 0);
    assert!(cache.is_empty());
    assert_eq!(cache.get(&0), None);
    let cache = PageCache::default();
    assert!(cache.is_empty());
}

#[test]
fn what_was_put_is_found() {
    let mut cache = PageCache::new(3);
    cache.put(7, page("seven"));
    assert_eq!(cache.len(), 1);
    assert!(!cache.is_empty());
    assert_eq!(cache.get(&7), Some(page("seven")));
    assert_eq!(cache.get(&8), None);
    cache.put(7, page("again"));
    assert_eq!(cache.len(), 1);
    assert_eq!(cache.get(&7), Some(page("again")));
}

#[test]
fn the_page_used_least_recently_is_forgotten() {
    let mut cache = PageCache::new(2);
    cache.put(1, page("a"));
    cache.put(2, page("b"));
    assert_eq!(cache.get(&1), Some(page("a")));
    cache.put(3, page("c"));
    assert_eq!(cache.len(), 2);
    assert_eq!(cache.get(&2), None);
    assert_eq!(cache.get(&1), Some(page("a")));
    assert_eq!(cache.get(&3), Some(page("c")));
    cache.put(4, page("d"));
    assert_eq!(cache.get(&1), None);
    assert_eq!(cache.get(&3), Some(page("c")));
    assert_eq!(cache.get(&4), Some(page("d")));
}

#[test]
fn the_default_cache_holds_ten_pages() {
    let mut cache = PageCache::default();
    for p in 0..11 {
        cache.put(p, page("p"));
    }
    assert_eq!(cache.len(), 10);
    assert_eq!(cache.get(&0), None);
    assert_eq!(cache.get(&1), Some(page("p")));
}

#[test]
fn capacity_zero_counts_as_one() {
    let mut cache = PageCache::new(0);
    cache.put(1, page("a"));
    cache.put(2, page("b"));
    assert_eq!(cache.len(), 1);
    assert_eq!(cache.get(&1), None);
    assert_eq!(cache.get(&2), Some(page("b")));
}

#[test]
fn clear_forgets_everything() {
    let mut cache = PageCache::new(4);
    cache.put(1, page("a"));
    cache.put(2, page("b"));
    cache.clear();
    assert_eq!(cache.len(), 0);
    assert_eq!(cache.get(&1), None);
    cache.put(1, page("c"));
    assert_eq!(cache.get(&1), Some(page("c")));
}
