use utdnsmasq::cache::{
    add_hosts_entry, add_hosts_line, cache_add_dhcp_entry, cache_reload, cache_unhash_dhcp,
    hosts_line_tokens, Cache, CacheRec,
};
use utdnsmasq::dnsmasq::{
    AllAddr, F_DHCP, F_FORWARD, F_HOSTS, F_IMMORTAL, F_IPV4, F_IPV6, F_NEG, F_REVERSE, OPT_EXPAND,
    OPT_NO_HOSTS,
};
use utdnsmasq::util::Time;

const NOW: u64 = 1_700_000_000;

fn now() -> Time {
    Time { secs: NOW, nanos: 0 }
}

fn ago(secs: u64) -> Time {
    Time { secs: NOW - secs, nanos: 0 }
}

fn v4(a: u8, b: u8, c: u8, d: u8) -> Option<AllAddr> {
    Some(AllAddr::V4(u32::from_be_bytes([a, b, c, d])))
}

fn rec(cache: &Cache, uid: u64) -> &CacheRec {
    cache.records.iter().find(|r| r.uid == uid).expect("record in the table")
}

fn name_at(cache: &Cache, uid: Option<u64>) -> String {
    rec(cache, uid.expect("a record")).crec.name.clone()
}

/// Inserts the records as one answer.
fn fill(cache: &mut Cache, recs: &[(&str, Option<AllAddr>, Time, u32, u16)]) {
    cache.cache_start_insert();
    for (name, addr, t, ttl, flags) in recs {
        cache.cache_insert(Some(name), *addr, *t, *ttl, *flags);
    }
    cache.cache_end_insert();
}

#[test]
fn test_cache_start_insert() {
    let mut cache = Cache::cache_init(100, 0);
    cache.cache_start_insert();
    assert!(cache.new_chain.is_empty(), "cache_start_insert should clear new_chain");
}

#[test]
fn test_cache_insert_basic() {
    let mut cache = Cache::cache_init(100, 0);
    cache.cache_start_insert();
    let addr = v4(192, 168, 1, 1);
    let flags = F_FORWARD | F_IPV4;
    cache.cache_insert(Some("example.com"), addr, now(), 3600, flags);
    assert_eq!(cache.new_chain.len(), 1, "cache_insert should add one item to new_chain");
    let crec = &cache.new_chain[0];
    assert_eq!(crec.addr, addr, "Address should match");
    assert_eq!(crec.flags, flags, "Flags should match");
    assert_eq!(crec.name, "example.com");
    assert_eq!(crec.ttd, Time { secs: NOW + 3600, nanos: 0 });
}

#[test]
fn test_cache_end_insert() {
    let mut cache = Cache::cache_init(100, 0);
    cache.cache_start_insert();
    cache.cache_insert(Some("example.com"), v4(192, 168, 1, 1), now(), 3600, F_FORWARD | F_IPV4);
    let original_length = cache.length;
    cache.cache_end_insert();
    assert_eq!(cache.length, original_length + 1, "cache_end_insert should add item to main cache");
    assert!(cache.new_chain.is_empty(), "cache_end_insert should clear new_chain");
    assert_eq!(cache.cache_inserted, 1);
}

#[test]
fn test_cache_insert_multiple() {
    let mut cache = Cache::cache_init(100, 0);
    cache.cache_start_insert();
    cache.cache_insert(Some("test1.com"), v4(192, 168, 1, 1), now(), 3600, F_FORWARD | F_IPV4);
    cache.cache_insert(Some("test2.com"), v4(192, 168, 1, 2), now(), 3600, F_FORWARD | F_IPV4);
    assert_eq!(cache.new_chain.len(), 2, "Should have 2 items in new_chain");
    let original_length = cache.length;
    cache.cache_end_insert();
    assert_eq!(cache.length, original_length + 2, "Should add 2 items to main cache");
}

#[test]
fn test_cache_insert_reverse() {
    let mut cache = Cache::cache_init(100, 0);
    cache.cache_start_insert();
    let addr = v4(192, 168, 1, 1);
    let flags = F_REVERSE | F_IPV4;
    cache.cache_insert(Some("1.1.168.192.in-addr.arpa"), addr, now(), 3600, flags);
    assert_eq!(cache.new_chain.len(), 1, "Reverse record should be added to new_chain");
    assert_eq!(cache.new_chain[0].addr, addr, "Reverse record address should match");
    assert_eq!(cache.new_chain[0].flags, flags, "Reverse record flags should match");
    cache.cache_end_insert();
}

#[test]
fn test_cache_insert_negative_reverse_has_no_name() {
    let mut cache = Cache::cache_init(100, 0);
    cache.cache_start_insert();
    cache.cache_insert(Some("1.1.168.192.in-addr.arpa"), v4(192, 168, 1, 1), now(), 60, F_NEG | F_REVERSE | F_IPV4);
    assert_eq!(cache.new_chain[0].name, "");
}

#[test]
fn test_cache_insert_config_flag_dropped() {
    let mut cache = Cache::cache_init(100, 0);
    cache.cache_start_insert();
    cache.cache_insert(Some("a.com"), v4(1, 2, 3, 4), now(), 60, F_FORWARD | F_IPV4 | 2);
    assert_eq!(cache.new_chain[0].flags, F_FORWARD | F_IPV4);
}

#[test]
fn test_cache_link_functionality() {
    let mut cache = Cache::cache_init(100, 0);
    cache.cache_start_insert();
    cache.cache_insert(Some("test1.com"), v4(192, 168, 1, 1), now(), 3600, F_FORWARD | F_IPV4);
    assert_eq!(cache.new_chain.len(), 1, "Record should be in new_chain");
    assert_eq!(cache.length, 0, "Main cache should be empty before cache_end_insert");
    assert!(cache.head.is_none(), "Head should be None before cache_end_insert");
    assert!(cache.tail.is_none(), "Tail should be None before cache_end_insert");
    cache.cache_end_insert();
    assert_eq!(cache.new_chain.len(), 0, "new_chain should be empty after cache_end_insert");
    assert_eq!(cache.length, 1, "Main cache should have one record");
    assert!(cache.head.is_some(), "Head should be set after cache_end_insert");
    assert!(cache.tail.is_some(), "Tail should be set after cache_end_insert");
    assert_eq!(cache.head, cache.tail, "Head and tail should point to same node when only one record exists");
    let node = rec(&cache, cache.head.unwrap());
    assert!(node.prev.is_none(), "Single node should have no previous");
    assert!(node.next.is_none(), "Single node should have no next");
}

#[test]
fn test_cache_link_multiple_records() {
    let mut cache = Cache::cache_init(100, 0);
    cache.cache_start_insert();
    cache.cache_insert(Some("test1.com"), v4(192, 168, 1, 1), now(), 3600, F_FORWARD | F_IPV4);
    cache.cache_insert(Some("test2.com"), v4(192, 168, 1, 2), now(), 3600, F_FORWARD | F_IPV4);
    cache.cache_insert(Some("test3.com"), v4(192, 168, 1, 3), now(), 3600, F_FORWARD | F_IPV4);
    assert_eq!(cache.new_chain.len(), 3, "Should have 3 records in new_chain");
    cache.cache_end_insert();
    assert_eq!(cache.new_chain.len(), 0, "new_chain should be empty");
    assert_eq!(cache.length, 3, "Main cache should have 3 records");
    assert!(cache.head.is_some(), "Head should be set");
    assert!(cache.tail.is_some(), "Tail should be set");
    assert_eq!(name_at(&cache, cache.head), "test3.com", "Head should point to last inserted record");
    assert_eq!(name_at(&cache, cache.tail), "test1.com", "Tail should point to first inserted record");
    let head = rec(&cache, cache.head.unwrap());
    assert!(head.next.is_some(), "Head node should have next pointer");
    let second = rec(&cache, head.next.unwrap());
    assert_eq!(second.crec.name, "test2.com", "Second node should be test2.com");
    assert!(second.next.is_some(), "Second node should have next pointer");
    let third = rec(&cache, second.next.unwrap());
    assert_eq!(third.crec.name, "test1.com", "Third node should be test1.com");
    assert!(third.next.is_none(), "Tail node should have no next");
    assert!(third.prev.is_some(), "Tail node should have previous pointer");
    assert_eq!(name_at(&cache, third.prev), "test2.com", "Tail's previous should be test2.com");
    assert!(second.prev.is_some(), "Second node should have previous pointer");
    assert_eq!(name_at(&cache, second.prev), "test3.com", "Second node's previous should be test3.com");
    assert!(head.prev.is_none(), "Head node should have no previous");
}

#[test]
fn test_move_to_front_functionality() {
    let mut cache = Cache::cache_init(100, 0);
    fill(
        &mut cache,
        &[
            ("test1.com", v4(192, 168, 1, 1), now(), 3600, F_FORWARD | F_IPV4),
            ("test2.com", v4(192, 168, 1, 2), now(), 3600, F_FORWARD | F_IPV4),
            ("test3.com", v4(192, 168, 1, 3), now(), 3600, F_FORWARD | F_IPV4),
        ],
    );
    let initial_head = name_at(&cache, cache.head);
    assert_eq!(initial_head, "test3.com", "Initial head should be test3.com");
    assert_eq!(name_at(&cache, cache.tail), "test1.com", "Initial tail should be test1.com");
    let result = cache.cache_find_by_name(None, "test2.com", now(), F_IPV4);
    assert!(result.is_some(), "Should find test2.com");
    let new_head = name_at(&cache, cache.head);
    assert_eq!(new_head, "test2.com", "Accessed record should be moved to front");
    assert_ne!(initial_head, new_head, "Head should have changed");
    let head = rec(&cache, cache.head.unwrap());
    assert_eq!(head.crec.name, "test2.com", "Head should be test2.com");
    assert!(head.next.is_some(), "Head should have next pointer");
    let next = rec(&cache, head.next.unwrap());
    assert_eq!(next.crec.name, "test3.com", "Next should be test3.com");
    assert!(next.next.is_some(), "Second node should have next pointer");
    assert_eq!(name_at(&cache, next.next), "test1.com", "Third should be test1.com");
    assert_eq!(name_at(&cache, cache.tail), "test1.com", "Tail should still be test1.com");
}

#[test]
fn test_move_to_front_multiple_accesses() {
    let mut cache = Cache::cache_init(100, 0);
    fill(
        &mut cache,
        &[
            ("test1.com", v4(192, 168, 1, 1), now(), 3600, F_FORWARD | F_IPV4),
            ("test2.com", v4(192, 168, 1, 2), now(), 3600, F_FORWARD | F_IPV4),
            ("test3.com", v4(192, 168, 1, 3), now(), 3600, F_FORWARD | F_IPV4),
        ],
    );
    assert!(cache.cache_find_by_name(None, "test1.com", now(), F_IPV4).is_some(), "Should find test1.com");
    assert_eq!(name_at(&cache, cache.head), "test1.com", "First access should move test1.com to front");
    assert!(cache.cache_find_by_name(None, "test3.com", now(), F_IPV4).is_some(), "Should find test3.com");
    assert_eq!(name_at(&cache, cache.head), "test3.com", "Second access should move test3.com to front");
    assert!(cache.cache_find_by_name(None, "test2.com", now(), F_IPV4).is_some(), "Should find test2.com");
    assert_eq!(name_at(&cache, cache.head), "test2.com", "Third access should move test2.com to front");
    let head = rec(&cache, cache.head.unwrap());
    assert_eq!(head.crec.name, "test2.com", "Head should be test2.com");
    let next = rec(&cache, head.next.unwrap());
    assert_eq!(next.crec.name, "test3.com", "Next should be test3.com");
    assert_eq!(name_at(&cache, next.next), "test1.com", "Third should be test1.com");
    assert_eq!(name_at(&cache, cache.tail), "test1.com", "Tail should be test1.com");
}

#[test]
fn test_move_to_front_hosts_records() {
    let mut cache = Cache::cache_init(100, 0);
    fill(
        &mut cache,
        &[
            ("hosts.com", v4(192, 168, 1, 1), now(), 3600, F_FORWARD | F_IPV4 | F_HOSTS),
            ("normal.com", v4(192, 168, 1, 2), now(), 3600, F_FORWARD | F_IPV4),
        ],
    );
    assert_eq!(name_at(&cache, cache.head), "normal.com", "Initial head should be normal.com");
    assert!(cache.cache_find_by_name(None, "hosts.com", now(), F_IPV4).is_some(), "Should find hosts.com");
    assert_eq!(name_at(&cache, cache.head), "normal.com", "Hosts record should not be moved to front (static record)");
    assert!(cache.cache_find_by_name(None, "normal.com", now(), F_IPV4).is_some(), "Should find normal.com");
    assert_eq!(name_at(&cache, cache.head), "normal.com", "Normal record should be moved to front");
}

#[test]
fn test_cache_find_by_name_with_while_loop() {
    let mut cache = Cache::cache_init(100, 0);
    fill(
        &mut cache,
        &[
            ("example.com", v4(192, 168, 1, 1), now(), 3600, F_FORWARD | F_IPV4),
            ("example.com", v4(192, 168, 1, 2), now(), 3600, F_FORWARD | F_IPV4),
            ("example.com", v4(192, 168, 1, 3), now(), 3600, F_FORWARD | F_IPV4),
        ],
    );
    let mut results = Vec::new();
    let mut current = cache.cache_find_by_name(None, "example.com", now(), F_IPV4);
    while let Some(r) = current {
        results.push(r.crec.addr);
        current = cache.cache_find_by_name(Some(r.uid), "example.com", now(), F_IPV4);
    }
    assert_eq!(results.len(), 3, "Should find all 3 records");
    let mut unique = results.clone();
    unique.sort_by_key(|a| match a {
        Some(AllAddr::V4(v)) => *v,
        _ => 0,
    });
    unique.dedup();
    assert_eq!(unique.len(), 3, "All addresses should be unique");
    for expected in [v4(192, 168, 1, 1), v4(192, 168, 1, 2), v4(192, 168, 1, 3)] {
        assert!(results.contains(&expected), "Should contain address {:?}", expected);
    }
}

/// The list of recent use from head to tail, checking that each record
/// names its neighbours.
fn list_order(cache: &Cache) -> Vec<u64> {
    let mut order = Vec::new();
    let mut prev: Option<u64> = None;
    let mut cur = cache.head;
    while let Some(u) = cur {
        let r = rec(cache, u);
        assert_eq!(r.prev, prev);
        order.push(u);
        prev = Some(u);
        cur = r.next;
        assert!(order.len() <= cache.records.len());
    }
    assert_eq!(cache.tail, prev);
    order
}

#[test]
fn test_cache_list_stays_a_chain() {
    let mut cache = Cache::cache_init(100, 0);
    fill(
        &mut cache,
        &[
            ("a.com", v4(10, 0, 0, 1), now(), 3600, F_FORWARD | F_IPV4),
            ("b.com", v4(10, 0, 0, 2), now(), 3600, F_FORWARD | F_IPV4),
            ("c.com", v4(10, 0, 0, 3), now(), 3600, F_FORWARD | F_IPV4),
        ],
    );
    let all = list_order(&cache);
    assert_eq!(all.len(), 3);
    let b = cache.cache_find_by_name(None, "b.com", now(), F_IPV4).expect("b.com");
    let moved = list_order(&cache);
    assert_eq!(moved[0], b.uid);
    assert_eq!(moved.len(), 3);
    cache.remove_crec(b.uid);
    let rest = list_order(&cache);
    assert_eq!(rest.len(), 2);
    assert!(!rest.contains(&b.uid));
    assert_eq!(cache.length, 2);
}

#[test]
fn test_cache_find_by_name_walk_twice() {
    let mut cache = Cache::cache_init(100, 0);
    fill(
        &mut cache,
        &[
            ("example.com", v4(10, 0, 0, 1), now(), 3600, F_FORWARD | F_IPV4),
            ("example.com", v4(10, 0, 0, 2), now(), 3600, F_FORWARD | F_IPV4),
            ("example.com", v4(10, 0, 0, 3), now(), 3600, F_FORWARD | F_IPV4),
        ],
    );
    for _ in 0..3 {
        let mut results = Vec::new();
        let mut current = cache.cache_find_by_name(None, "example.com", now(), F_IPV4);
        while let Some(r) = current {
            results.push(r.crec.addr);
            current = cache.cache_find_by_name(Some(r.uid), "example.com", now(), F_IPV4);
        }
        assert_eq!(results.len(), 3);
        for expected in [v4(10, 0, 0, 1), v4(10, 0, 0, 2), v4(10, 0, 0, 3)] {
            assert!(results.contains(&expected));
        }
    }
}

#[test]
fn test_cache_scan_free_forward_expired() {
    let mut cache = Cache::cache_init(100, 0);
    cache.cache_start_insert();
    cache.cache_insert(Some("example.com"), v4(192, 168, 1, 1), ago(3600), 1, F_FORWARD | F_IPV4);
    cache.cache_insert(Some("test.com"), v4(192, 168, 1, 1), Time { secs: NOW + 3600, nanos: 0 }, 3600, F_FORWARD | F_IPV4);
    cache.cache_end_insert();
    let original_length = cache.length;
    cache.cache_scan_free(Some("example.com"), None, now(), F_FORWARD);
    assert_eq!(cache.length, original_length - 1, "Expired record should be removed");
}

#[test]
fn test_cache_scan_free_forward_matching_name() {
    let mut cache = Cache::cache_init(100, 0);
    fill(
        &mut cache,
        &[
            ("example.com", v4(192, 168, 1, 1), now(), 3600, F_FORWARD | F_IPV4),
            ("other.com", v4(192, 168, 1, 2), now(), 3600, F_FORWARD | F_IPV4),
        ],
    );
    let original_length = cache.length;
    cache.cache_scan_free(Some("example.com"), None, now(), F_FORWARD | F_IPV4);
    assert_eq!(cache.length, original_length - 1, "Matching name records should be removed");
    assert!(cache.records.iter().all(|r| r.crec.name != "example.com"));
}

#[test]
fn test_cache_scan_free_reverse_matching_addr() {
    let mut cache = Cache::cache_init(100, 0);
    fill(
        &mut cache,
        &[
            ("1.1.168.192.in-addr.arpa", v4(192, 168, 1, 1), now(), 3600, F_REVERSE | F_IPV4),
            ("2.1.168.192.in-addr.arpa", v4(192, 168, 1, 2), now(), 3600, F_REVERSE | F_IPV4),
        ],
    );
    let original_length = cache.length;
    cache.cache_scan_free(None, v4(192, 168, 1, 1), now(), F_REVERSE | F_IPV4);
    assert_eq!(cache.length, original_length - 1, "Matching address records should be removed");
}

#[test]
fn test_cache_scan_free_all_expired() {
    let mut cache = Cache::cache_init(100, 0);
    fill(
        &mut cache,
        &[
            ("expired1.com", v4(192, 168, 1, 1), ago(3600), 1, F_FORWARD | F_IPV4),
            ("expired2.com", v4(192, 168, 1, 2), ago(3600), 1, F_FORWARD | F_IPV4),
            ("valid.com", v4(192, 168, 1, 3), now(), 3600, F_FORWARD | F_IPV4),
        ],
    );
    cache.cache_scan_free(None, None, now(), 0);
    assert_eq!(cache.length, 1, "All expired records should be removed");
    assert_eq!(cache.records[0].crec.name, "valid.com");
}

#[test]
fn test_cache_scan_free_immortal_and_static_records_stay() {
    let mut cache = Cache::cache_init(100, 0);
    fill(
        &mut cache,
        &[
            ("immortal.com", v4(192, 168, 1, 1), ago(3600), 1, F_FORWARD | F_IPV4 | F_IMMORTAL),
            ("hosts.com", v4(192, 168, 1, 2), ago(3600), 1, F_FORWARD | F_IPV4 | F_HOSTS),
            ("dhcp.com", v4(192, 168, 1, 3), ago(3600), 1, F_FORWARD | F_IPV4 | F_DHCP),
            ("mortal.com", v4(192, 168, 1, 4), ago(3600), 1, F_FORWARD | F_IPV4),
        ],
    );
    cache.cache_scan_free(None, None, now(), 0);
    assert_eq!(cache.length, 3, "Only the mortal normal record should be removed");
    assert!(cache.records.iter().all(|r| r.crec.name != "mortal.com"));
}

#[test]
fn test_cache_scan_free_empty_cache() {
    let mut cache = Cache::cache_init(100, 0);
    let original_length = cache.length;
    cache.cache_scan_free(Some("example.com"), None, now(), F_FORWARD);
    assert_eq!(cache.length, original_length, "Empty cache should remain unchanged");
}

#[test]
fn test_cache_find_by_name_basic() {
    let mut cache = Cache::cache_init(100, 0);
    fill(&mut cache, &[("example.com", v4(192, 168, 1, 1), now(), 3600, F_FORWARD | F_IPV4)]);
    let result = cache.cache_find_by_name(None, "example.com", now(), F_IPV4);
    assert!(result.is_some(), "Should find the record");
    let crec = result.unwrap().crec;
    assert_eq!(crec.name, "example.com", "Record name should match");
    assert_eq!(crec.addr, v4(192, 168, 1, 1), "Record address should match");
    assert_eq!(crec.flags, F_FORWARD | F_IPV4, "Record flags should match");
}

#[test]
fn test_cache_find_by_name_not_found() {
    let mut cache = Cache::cache_init(100, 0);
    let result = cache.cache_find_by_name(None, "nonexistent.com", now(), F_IPV4);
    assert!(result.is_none(), "Should not find nonexistent record");
}

#[test]
fn test_cache_find_by_name_wrong_kind() {
    let mut cache = Cache::cache_init(100, 0);
    fill(&mut cache, &[("example.com", v4(192, 168, 1, 1), now(), 3600, F_FORWARD | F_IPV4)]);
    assert!(cache.cache_find_by_name(None, "example.com", now(), F_IPV6).is_none());
}

#[test]
fn test_cache_find_by_name_multiple_records() {
    let mut cache = Cache::cache_init(100, 0);
    fill(
        &mut cache,
        &[
            ("example.com", v4(192, 168, 1, 1), now(), 3600, F_FORWARD | F_IPV4),
            ("example.com", v4(192, 168, 1, 2), now(), 3600, F_FORWARD | F_IPV4),
            ("example.com", v4(192, 168, 1, 3), now(), 3600, F_FORWARD | F_IPV4),
        ],
    );
    let r1 = cache.cache_find_by_name(None, "example.com", now(), F_IPV4);
    assert!(r1.is_some(), "Should find first record");
    assert_eq!(r1.as_ref().unwrap().crec.addr, v4(192, 168, 1, 1), "First lookup should return first address");
    let r2 = cache.cache_find_by_name(r1.map(|r| r.uid), "example.com", now(), F_IPV4);
    assert!(r2.is_some(), "Should find second record");
    assert_eq!(r2.as_ref().unwrap().crec.addr, v4(192, 168, 1, 2), "Second lookup should return second address");
    let r3 = cache.cache_find_by_name(r2.map(|r| r.uid), "example.com", now(), F_IPV4);
    assert!(r3.is_some(), "Should find third record");
    assert_eq!(r3.as_ref().unwrap().crec.addr, v4(192, 168, 1, 3), "Third lookup should return third address");
    let r4 = cache.cache_find_by_name(r3.map(|r| r.uid), "example.com", now(), F_IPV4);
    assert!(r4.is_none(), "Should find first record again");
}

#[test]
fn test_cache_find_by_name_round_robin() {
    let mut cache = Cache::cache_init(100, 0);
    fill(
        &mut cache,
        &[
            ("example.com", v4(10, 0, 0, 1), now(), 3600, F_FORWARD | F_IPV4),
            ("example.com", v4(10, 0, 0, 2), now(), 3600, F_FORWARD | F_IPV4),
        ],
    );
    let a = cache.cache_find_by_name(None, "example.com", now(), F_IPV4).unwrap();
    let b = cache.cache_find_by_name(None, "example.com", now(), F_IPV4).unwrap();
    let c = cache.cache_find_by_name(None, "example.com", now(), F_IPV4).unwrap();
    assert_eq!(a.crec.addr, v4(10, 0, 0, 1));
    assert_eq!(b.crec.addr, v4(10, 0, 0, 2));
    assert_eq!(c.crec.addr, v4(10, 0, 0, 1));
}

#[test]
fn test_cache_find_by_name_expired_records() {
    let mut cache = Cache::cache_init(100, 0);
    fill(&mut cache, &[("expired.com", v4(192, 168, 1, 1), ago(3600), 1, F_FORWARD | F_IPV4)]);
    let result = cache.cache_find_by_name(None, "expired.com", now(), F_IPV4);
    assert!(result.is_none(), "Should not find expired record");
    assert_eq!(cache.length, 0, "Expired record should be removed from cache");
}

#[test]
fn test_cache_find_by_name_immortal_records() {
    let mut cache = Cache::cache_init(100, 0);
    fill(&mut cache, &[("immortal.com", v4(192, 168, 1, 1), Time { secs: 0, nanos: 0 }, 0, F_FORWARD | F_IPV4 | F_IMMORTAL)]);
    let result = cache.cache_find_by_name(None, "immortal.com", now(), F_IPV4);
    assert!(result.is_some(), "Should find immortal record");
    let crec = result.unwrap().crec;
    assert_eq!(crec.name, "immortal.com", "Record name should match");
    assert!(crec.flags & F_IMMORTAL != 0, "Record should be immortal");
}

#[test]
fn test_cache_find_by_name_case_insensitive() {
    let mut cache = Cache::cache_init(100, 0);
    fill(&mut cache, &[("example.com", v4(192, 168, 1, 1), now(), 3600, F_FORWARD | F_IPV4)]);
    let result = cache.cache_find_by_name(None, "EXAMPLE.COM", now(), F_IPV4);
    assert!(result.is_some(), "Should find record with case-insensitive search");
    assert_eq!(result.unwrap().crec.name, "example.com", "Record name should match");
}

#[test]
fn test_cache_find_by_name_with_crecp_parameter() {
    let mut cache = Cache::cache_init(100, 0);
    fill(
        &mut cache,
        &[
            ("example.com", v4(192, 168, 1, 1), now(), 3600, F_FORWARD | F_IPV4),
            ("example.com", v4(192, 168, 1, 2), now(), 3600, F_FORWARD | F_IPV4),
        ],
    );
    let r1 = cache.cache_find_by_name(None, "example.com", now(), F_IPV4);
    assert!(r1.is_some(), "Should find first record");
    let r2 = cache.cache_find_by_name(r1.map(|r| r.uid), "example.com", now(), F_IPV4);
    assert!(r2.is_some(), "Should find second record");
    let r3 = cache.cache_find_by_name(r2.map(|r| r.uid), "example.com", now(), F_IPV4);
    assert!(r3.is_none(), "Should not find more records after all are returned");
}

#[test]
fn test_cache_find_by_name_hosts_dhcp_records() {
    let mut cache = Cache::cache_init(100, 0);
    fill(
        &mut cache,
        &[
            ("hosts.com", v4(192, 168, 1, 1), now(), 3600, F_FORWARD | F_IPV4 | F_HOSTS),
            ("dhcp.com", v4(192, 168, 1, 2), now(), 3600, F_FORWARD | F_IPV4 | F_DHCP),
        ],
    );
    let h = cache.cache_find_by_name(None, "hosts.com", now(), F_IPV4);
    assert!(h.is_some(), "Should find hosts record");
    assert!(h.unwrap().crec.flags & F_HOSTS != 0, "Should be hosts record");
    let d = cache.cache_find_by_name(None, "dhcp.com", now(), F_IPV4);
    assert!(d.is_some(), "Should find DHCP record");
    assert!(d.unwrap().crec.flags & F_DHCP != 0, "Should be DHCP record");
}

#[test]
fn test_cache_find_by_addr_first_match() {
    let mut cache = Cache::cache_init(100, 0);
    fill(
        &mut cache,
        &[
            ("a.example", v4(10, 0, 0, 9), now(), 3600, F_REVERSE | F_IPV4),
            ("b.example", v4(10, 0, 0, 8), now(), 3600, F_REVERSE | F_IPV4),
        ],
    );
    let r = cache.cache_find_by_addr(None, v4(10, 0, 0, 8), now(), F_IPV4).expect("found");
    assert_eq!(r.crec.name, "b.example");
    assert_eq!(name_at(&cache, cache.head), "b.example");
    assert!(cache.cache_find_by_addr(Some(r.uid), v4(10, 0, 0, 8), now(), F_IPV4).is_none());
    assert!(cache.cache_find_by_addr(None, v4(10, 0, 0, 7), now(), F_IPV4).is_none());
}

#[test]
fn test_cache_full_drops_least_recently_used() {
    let mut cache = Cache::cache_init(2, 0);
    fill(&mut cache, &[("one.com", v4(1, 1, 1, 1), now(), 3600, F_FORWARD | F_IPV4)]);
    fill(&mut cache, &[("two.com", v4(2, 2, 2, 2), now(), 3600, F_FORWARD | F_IPV4)]);
    fill(&mut cache, &[("three.com", v4(3, 3, 3, 3), now(), 3600, F_FORWARD | F_IPV4)]);
    assert_eq!(cache.length, 2);
    assert_eq!(cache.cache_live_freed, 1);
    assert!(cache.records.iter().all(|r| r.crec.name != "one.com"));
}

#[test]
fn test_cache_init_hash_size() {
    assert_eq!(Cache::cache_init(100, 0).hash_size, 64);
    assert_eq!(Cache::cache_init(1000, 0).hash_size, 128);
    assert_eq!(Cache::cache_init(10000, 1).hash_size, 1024);
}

#[test]
fn test_remove_crec_unlinks() {
    let mut cache = Cache::cache_init(100, 0);
    fill(
        &mut cache,
        &[
            ("test1.com", v4(192, 168, 1, 1), now(), 3600, F_FORWARD | F_IPV4),
            ("test2.com", v4(192, 168, 1, 2), now(), 3600, F_FORWARD | F_IPV4),
            ("test3.com", v4(192, 168, 1, 3), now(), 3600, F_FORWARD | F_IPV4),
        ],
    );
    let middle = rec(&cache, cache.head.unwrap()).next.unwrap();
    cache.remove_crec(middle);
    assert_eq!(cache.length, 2);
    let head = rec(&cache, cache.head.unwrap());
    assert_eq!(head.crec.name, "test3.com");
    assert_eq!(name_at(&cache, head.next), "test1.com");
    assert_eq!(name_at(&cache, rec(&cache, cache.tail.unwrap()).prev), "test3.com");
}

#[test]
fn test_add_dhcp_entry_and_unhash() {
    let mut cache = Cache::cache_init(100, 0);
    cache_add_dhcp_entry(&mut cache, "pc.lan", u32::from_be_bytes([192, 168, 0, 10]), Time { secs: NOW + 600, nanos: 0 }, F_REVERSE);
    assert_eq!(cache.length, 1);
    assert_eq!(cache.dhcp_inuse.len(), 1);
    let r = &cache.records[0].crec;
    assert_eq!(r.flags, F_DHCP | F_FORWARD | F_IPV4 | F_REVERSE);
    assert_eq!(r.addr, None);
    // A lease that never ends gives an immortal record.
    cache_add_dhcp_entry(&mut cache, "nas.lan", u32::from_be_bytes([192, 168, 0, 11]), Time { secs: 0, nanos: 0 }, 0);
    assert_eq!(cache.records[1].crec.flags, F_DHCP | F_FORWARD | F_IPV4 | F_IMMORTAL);
    // The same name again is left alone.
    cache_add_dhcp_entry(&mut cache, "pc.lan", u32::from_be_bytes([192, 168, 0, 12]), Time { secs: NOW + 600, nanos: 0 }, 0);
    assert_eq!(cache.length, 2);
    fill(&mut cache, &[("web.com", v4(9, 9, 9, 9), now(), 3600, F_FORWARD | F_IPV4)]);
    cache_unhash_dhcp(&mut cache);
    assert_eq!(cache.length, 1);
    assert!(cache.dhcp_inuse.is_empty());
    assert_eq!(cache.records[0].crec.name, "web.com");
}

#[test]
fn test_add_dhcp_entry_clashing_with_hosts() {
    let mut cache = Cache::cache_init(100, 0);
    add_hosts_entry(&mut cache, "pc.lan", AllAddr::V4(1), F_HOSTS | F_IMMORTAL | F_FORWARD | F_REVERSE | F_IPV4);
    cache_add_dhcp_entry(&mut cache, "pc.lan", 2, Time { secs: NOW + 600, nanos: 0 }, 0);
    assert_eq!(cache.length, 1);
    assert!(cache.dhcp_inuse.is_empty());
}

#[test]
fn test_hosts_line_tokens() {
    let t = hosts_line_tokens("127.0.0.1\tlocalhost  loopback|lo\r\n");
    assert_eq!(t, vec!["127.0.0.1", "localhost", "loopback", "lo"]);
    assert!(hosts_line_tokens("# a comment").is_empty());
    assert!(hosts_line_tokens("").is_empty());
    assert!(hosts_line_tokens("   ").is_empty());
}

#[test]
fn test_add_hosts_line_and_expand() {
    let mut cache = Cache::cache_init(100, 0);
    let toks: Vec<String> = hosts_line_tokens("192.168.1.5 server #skip bad!name server.example")
        .into_iter()
        .collect();
    let suffix = Some(String::from("lan"));
    let n = add_hosts_line(&mut cache, &toks, AllAddr::V4(u32::from_be_bytes([192, 168, 1, 5])), OPT_EXPAND, &suffix, 0);
    assert_eq!(n, 2);
    let names: Vec<&str> = cache.records.iter().map(|r| r.crec.name.as_str()).collect();
    assert_eq!(names, vec!["server.lan", "server", "server.example"]);
    assert_eq!(cache.records[0].crec.flags, F_HOSTS | F_IMMORTAL | F_FORWARD | F_REVERSE | F_IPV4);
    // The same line again adds nothing: the names are known with that address.
    let n2 = add_hosts_line(&mut cache, &toks, AllAddr::V4(u32::from_be_bytes([192, 168, 1, 5])), OPT_EXPAND, &suffix, 0);
    assert_eq!(n2, 2);
    assert_eq!(cache.length, 3);
    let six = add_hosts_line(&mut cache, &[String::from("::1"), String::from("ip6host")], AllAddr::V6(1), 0, &None, 0);
    assert_eq!(six, 1);
    assert_eq!(cache.records[3].crec.flags, F_HOSTS | F_IMMORTAL | F_FORWARD | F_REVERSE | F_IPV6);
}

#[test]
fn test_cache_reload_keeps_dhcp() {
    let mut cache = Cache::cache_init(100, 0);
    cache_add_dhcp_entry(&mut cache, "pc.lan", 10, Time { secs: NOW + 600, nanos: 0 }, 0);
    fill(&mut cache, &[("web.com", v4(9, 9, 9, 9), now(), 3600, F_FORWARD | F_IPV4)]);
    add_hosts_entry(&mut cache, "h", AllAddr::V4(3), F_HOSTS | F_IMMORTAL | F_FORWARD | F_REVERSE | F_IPV4);
    let plan = cache_reload(&mut cache, OPT_NO_HOSTS, true);
    assert!(!plan.read_hosts);
    assert!(plan.read_addn_hosts);
    assert_eq!(cache.length, 1);
    assert_eq!(cache.records[0].crec.name, "pc.lan");
    let plan2 = cache_reload(&mut cache, 0, false);
    assert!(plan2.read_hosts && !plan2.read_addn_hosts);
}
