use voxels::chunk_cache::{Cache, Entry};

#[test]
fn checkout_discipline() {
    let mut cache: Cache<u64, &str> = Cache::new();
    assert!(!cache.borrowed());
    cache.insert(7, "v");
    assert!(cache.contains(&7));
    assert!(!cache.is_borrowed(&7));
    assert_eq!(cache.acquire(&7), Some("v"));
    assert!(cache.borrowed());
    assert!(cache.contains(&7));
    assert!(cache.is_borrowed(&7));
    cache.release(7, "v2");
    assert!(!cache.borrowed());
    assert!(!cache.is_borrowed(&7));
    assert_eq!(cache.remove(&7), "v2");
    assert!(!cache.contains(&7));
    assert!(!cache.borrowed());
}

#[test]
fn acquire_of_an_absent_key_gives_nothing() {
    let mut cache: Cache<i32, u8> = Cache::new();
    assert_eq!(cache.acquire(&1), None);
    assert!(!cache.borrowed());
    assert!(!cache.contains(&1));
}

#[test]
fn insert_and_acquire_marks_the_key_as_checked_out() {
    let mut cache: Cache<u8, String> = Cache::new();
    cache.insert_and_acquire(3);
    assert!(cache.borrowed());
    assert!(cache.is_borrowed(&3));
    cache.release(3, "back".to_string());
    assert!(!cache.borrowed());
    assert_eq!(cache.acquire(&3), Some("back".to_string()));
}

#[test]
fn borrows_are_counted_by_key() {
    let mut cache: Cache<u32, u32> = Cache::new();
    for k in 0..5 {
        cache.insert(k, k * 10);
    }
    assert_eq!(cache.acquire(&1), Some(10));
    assert_eq!(cache.acquire(&3), Some(30));
    assert!(cache.borrowed());
    cache.release(1, 11);
    assert!(cache.borrowed());
    cache.release(3, 33);
    assert!(!cache.borrowed());
    assert_eq!(cache.remove(&1), 11);
    assert_eq!(cache.remove(&3), 33);
    assert_eq!(cache.remove(&0), 0);
}

#[test]
fn entry_moves_between_its_two_states() {
    let mut entry = Entry::Cached(5);
    assert_eq!(entry.acquire(), 5);
    assert!(matches!(entry, Entry::Borrowed));
    entry.release(6);
    assert!(matches!(entry, Entry::Cached(6)));
    assert_eq!(entry.unwrap(), 6);
}
