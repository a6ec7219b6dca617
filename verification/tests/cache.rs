use sismokaos::cache::RecentHandles;

#[test]
fn hit_moves_entry_to_back() {
    let mut c: RecentHandles<&str> = RecentHandles::new(3);
    assert!(!c.touch(1));
    c.insert(1, "one");
    c.insert(2, "two");
    c.insert(3, "three");
    assert!(c.touch(1));
    assert_eq!(*c.most_recent_mut(), "one");
    assert_eq!(c.len(), 3);
}

#[test]
fn full_cache_evicts_least_recent() {
    let mut c: RecentHandles<u8> = RecentHandles::new(2);
    c.insert(10, 0);
    c.insert(20, 1);
    assert!(c.touch(10)); // order now 20, 10
    assert!(!c.touch(30));
    c.insert(30, 2); // evicts 20
    assert_eq!(c.len(), 2);
    assert!(!c.touch(20));
    assert!(c.touch(10));
    assert!(c.touch(30));
    *c.most_recent_mut() = 9;
    assert!(c.touch(30));
    assert_eq!(*c.most_recent_mut(), 9);
}

#[test]
fn eight_files_stay_open() {
    let mut c: RecentHandles<u32> = RecentHandles::new(8);
    for k in 0..20u32 {
        if !c.touch(k % 10) {
            c.insert(k % 10, k);
        }
        assert!(c.len() <= 8);
        assert_eq!(*c.most_recent_mut() % 10, k % 10);
    }
}
