use tower_cache::LruProvider;
use tower_cache::LruState;
use tower_cache::ProviderRequest;
use tower_cache::ProviderResponse;

#[test]
fn capacity_never_exceeded() {
    let mut s = LruState::<u64, u64>::new(2);
    for k in 0..10u64 {
        s.insert(k, k * 100);
        assert!(s.len() <= 2);
    }
    assert_eq!(s.capacity(), 2);
}

#[test]
fn eviction_drops_least_recently_used() {
    let mut s = LruState::<u64, &str>::new(3);
    s.insert(1, "one");
    s.insert(2, "two");
    s.insert(3, "three");
    s.insert(4, "four");
    assert_eq!(s.get(&1), None);
    assert_eq!(s.get(&2), Some("two"));
    assert_eq!(s.get(&3), Some("three"));
    assert_eq!(s.get(&4), Some("four"));
}

#[test]
fn get_refreshes_recency() {
    let mut s = LruState::<&str, u64>::new(2);
    s.insert("a", 1);
    s.insert("b", 2);
    assert_eq!(s.get(&"a"), Some(1));
    s.insert("c", 3);
    assert_eq!(s.get(&"b"), None);
    assert_eq!(s.get(&"a"), Some(1));
    assert_eq!(s.get(&"c"), Some(3));
}

#[test]
fn insert_refreshes_recency() {
    let mut s = LruState::<u8, u8>::new(2);
    s.insert(1, 10);
    s.insert(2, 20);
    s.insert(1, 11);
    s.insert(3, 30);
    assert_eq!(s.get(&2), None);
    assert_eq!(s.get(&1), Some(11));
    assert_eq!(s.get(&3), Some(30));
}

#[test]
fn round_trip_returns_inserted_value() {
    let mut s = LruState::<u64, String>::new(4);
    s.insert(7, String::from("seven"));
    assert_eq!(s.get(&7), Some(String::from("seven")));
}

#[test]
fn insert_overwrites_value() {
    let mut s = LruState::<u64, String>::new(4);
    s.insert(7, String::from("first"));
    s.insert(7, String::from("second"));
    assert_eq!(s.len(), 1);
    assert_eq!(s.get(&7), Some(String::from("second")));
}

#[test]
fn miss_on_never_inserted_key() {
    let mut s = LruState::<u64, u64>::new(2);
    assert_eq!(s.get(&5), None);
    assert_eq!(s.len(), 0);
}

#[test]
fn zero_capacity_caches_nothing() {
    let mut s = LruState::<u64, u64>::new(0);
    s.insert(1, 1);
    assert_eq!(s.len(), 0);
    assert_eq!(s.get(&1), None);
}

#[test]
fn provider_insert_echoes_value() {
    let p = LruProvider::<u64, u64>::new(2);
    match p.call(ProviderRequest::Insert(1, 10)) {
        ProviderResponse::Found(v) => assert_eq!(v, 10),
        ProviderResponse::NotFound => panic!("insert must echo the inserted value"),
    }
}

#[test]
fn provider_round_trip_and_miss() {
    let p = LruProvider::<u64, String>::new(2);
    p.call(ProviderRequest::Insert(1, String::from("one")));
    match p.call(ProviderRequest::Get(1)) {
        ProviderResponse::Found(v) => assert_eq!(v, "one"),
        ProviderResponse::NotFound => panic!("an inserted key must be found"),
    }
    assert!(matches!(p.call(ProviderRequest::Get(2)), ProviderResponse::NotFound));
}

#[test]
fn cloned_handles_share_the_store() {
    let p = LruProvider::<u64, u64>::new(2);
    let q = p.clone();
    p.call(ProviderRequest::Insert(1, 10));
    assert!(matches!(q.call(ProviderRequest::Get(1)), ProviderResponse::Found(10)));
    assert_eq!(q.capacity(), 2);
    assert_eq!(p.capacity(), 2);
}
