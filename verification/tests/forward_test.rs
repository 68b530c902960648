use utdnsmasq::dnsmasq::{AllAddr, MySockAddr};
use utdnsmasq::forward::{
    delete_frec_list_id, forward_init, get_id, get_new_frec, lookup_frec, lookup_frec_by_sender,
    reap_forward, Frec, FrecTable, FTABSIZ, TIMEOUT,
};
use utdnsmasq::util::Time;

fn localhost() -> MySockAddr {
    MySockAddr { ip: AllAddr::V4(0x7f00_0001), port: 53 }
}

fn frec(new_id: u16, orig_id: u16, fd: i32, secs: u64) -> Frec {
    Frec {
        source: localhost(),
        sent_to: None,
        orig_id,
        new_id,
        fd,
        time: Time { secs, nanos: 0 },
    }
}

#[test]
fn test_lookup_frec_empty_list() {
    let mut table = FrecTable::new();
    forward_init(&mut table, true);
    let result = lookup_frec(&table, 123);
    assert!(result.is_none(), "Should return None for empty list");
}

#[test]
fn test_lookup_frec_not_found() {
    let mut table = FrecTable::new();
    forward_init(&mut table, true);
    table.frecs.push(frec(100, 50, 3, 1000));
    table.frecs.push(frec(200, 150, 4, 1000));

    assert!(lookup_frec(&table, 300).is_none(), "Should return None for non-existent ID");
    assert!(lookup_frec(&table, 100).is_some(), "Should find record with ID 100");
    assert!(lookup_frec(&table, 200).is_some(), "Should find record with ID 200");
}

#[test]
fn test_lookup_frec_multiple_records() {
    let mut table = FrecTable::new();
    forward_init(&mut table, true);
    for i in 1..=5u16 {
        table.frecs.push(frec(i * 100, i * 50, 3, 1000));
    }
    for i in 1..=5u16 {
        let result = lookup_frec(&table, i * 100);
        assert!(result.is_some(), "Should find record with ID {}", i * 100);
    }
    assert!(lookup_frec(&table, 999).is_none(), "Should return None for non-existent ID 999");
}

#[test]
fn test_lookup_frec_zero_id() {
    let mut table = FrecTable::new();
    forward_init(&mut table, true);
    table.frecs.push(frec(0, 100, 3, 1000));
    let result = lookup_frec(&table, 0);
    assert!(
        result.is_some(),
        "Should find record with ID 0 (unassigned records are still in the list)"
    );
}

#[test]
fn test_get_id_avoids_duplicates() {
    let mut table = FrecTable::new();
    forward_init(&mut table, true);
    table.ids.clear();
    table.ids.push(100);
    table.ids.push(200);
    table.ids.push(300);
    for _ in 0..50 {
        let id = get_id(&table);
        assert_ne!(id, 100, "Should not generate ID 100");
        assert_ne!(id, 200, "Should not generate ID 200");
        assert_ne!(id, 300, "Should not generate ID 300");
    }
}

#[test]
fn test_get_id_never_zero() {
    let mut table = FrecTable::new();
    forward_init(&mut table, true);
    table.ids.clear();
    for _ in 0..100 {
        let id = get_id(&table);
        assert_ne!(id, 0, "Generated ID should never be 0");
    }
}

#[test]
fn test_get_id_with_full_list() {
    let mut table = FrecTable::new();
    forward_init(&mut table, true);
    table.ids.clear();
    for i in 1..=65534u16 {
        if i != 5000 && i != 10000 && i != 15000 {
            table.ids.push(i);
        }
    }
    for _ in 0..3 {
        let id = get_id(&table);
        assert!(
            id == 5000 || id == 10000 || id == 15000 || id == 65535,
            "Generated ID should be one of the available IDs, got {}",
            id
        );
        table.ids.push(id);
    }
}

#[test]
fn test_forward_init_frees_records() {
    let mut table = FrecTable::new();
    table.frecs.push(frec(7, 1, 3, 10));
    table.frecs.push(frec(9, 2, 4, 10));
    table.ids.push(7);
    table.ids.push(9);
    forward_init(&mut table, false);
    assert!(table.ids.is_empty());
    assert_eq!(table.frecs.len(), 2);
    assert_eq!(table.frecs[0].new_id, 0);
    assert_eq!(table.frecs[1].new_id, 0);
    assert_eq!(table.frecs[1].orig_id, 2);
    forward_init(&mut table, true);
    assert!(table.frecs.is_empty());
}

#[test]
fn test_delete_frec_list_id_removes_every_copy() {
    let mut table = FrecTable::new();
    table.ids = vec![5, 6, 5, 7];
    delete_frec_list_id(&mut table, 5);
    assert_eq!(table.ids, vec![6, 7]);
    delete_frec_list_id(&mut table, 42);
    assert_eq!(table.ids, vec![6, 7]);
}

#[test]
fn test_reap_forward_frees_records_of_socket() {
    let mut table = FrecTable::new();
    table.frecs.push(frec(11, 1, 3, 10));
    table.frecs.push(frec(12, 2, 4, 10));
    table.frecs.push(frec(13, 3, 3, 10));
    table.ids = vec![11, 12, 13];
    reap_forward(&mut table, 3);
    assert_eq!(table.frecs[0].new_id, 0);
    assert_eq!(table.frecs[1].new_id, 12);
    assert_eq!(table.frecs[2].new_id, 0);
    assert_eq!(table.ids, vec![12]);
}

#[test]
fn test_lookup_frec_by_sender_needs_pending_record() {
    let mut table = FrecTable::new();
    table.frecs.push(frec(0, 77, 3, 10));
    table.frecs.push(frec(21, 77, 3, 10));
    assert_eq!(lookup_frec_by_sender(&table, 77, localhost()), Some(1));
    let other = MySockAddr { ip: AllAddr::V4(0x0a00_0001), port: 53 };
    assert_eq!(lookup_frec_by_sender(&table, 77, other), None);
    assert_eq!(lookup_frec_by_sender(&table, 78, localhost()), None);
}

#[test]
fn test_get_new_frec_prefers_free_record() {
    let mut table = FrecTable::new();
    table.frecs.push(frec(5, 1, 3, 100));
    table.frecs.push(frec(0, 2, 3, 100));
    let now = Time { secs: 200, nanos: 0 };
    let (choice, warn) = get_new_frec(&mut table, now);
    assert_eq!(choice, Some(1));
    assert!(!warn);
    assert_eq!(table.frecs[1].time, now);
    assert_eq!(table.frecs[0].time, Time { secs: 100, nanos: 0 });
}

#[test]
fn test_get_new_frec_reuses_timed_out_record() {
    let mut table = FrecTable::new();
    table.frecs.push(frec(5, 1, 3, 100));
    table.frecs.push(frec(6, 2, 3, 90));
    let now = Time { secs: 90 + TIMEOUT as u64 + 1, nanos: 0 };
    let (choice, _) = get_new_frec(&mut table, now);
    assert_eq!(choice, Some(1));
    assert_eq!(table.frecs[1].time, now);
}

#[test]
fn test_get_new_frec_adds_record() {
    let mut table = FrecTable::new();
    table.frecs.push(frec(5, 1, 3, 100));
    let now = Time { secs: 110, nanos: 0 };
    let (choice, _) = get_new_frec(&mut table, now);
    assert_eq!(choice, Some(1));
    assert_eq!(table.frecs.len(), 2);
    assert_eq!(table.frecs[1].new_id, 0);
    assert_eq!(table.frecs[1].time, now);
}

#[test]
fn test_get_new_frec_full_table_warns_once() {
    let mut table = FrecTable::new();
    for i in 0..(FTABSIZ as u16 + 1) {
        table.frecs.push(frec(i + 1, i, 3, 1000));
    }
    let now = Time { secs: 1010, nanos: 0 };
    let (choice, warn) = get_new_frec(&mut table, now);
    assert_eq!(choice, None);
    assert!(warn);
    assert_eq!(table.warn_time, now);
    let (choice, warn) = get_new_frec(&mut table, Time { secs: 1020, nanos: 0 });
    assert_eq!(choice, None);
    assert!(!warn);
    assert_eq!(table.warn_time, now);
}
