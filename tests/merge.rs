use timeclerk::entry::Entry;
use timeclerk::merge::{merge, next_start_id};

fn entry(id: u32, facet: u8, time: i64, duration: u32) -> Entry {
    Entry { id, facet, time, duration }
}

#[test]
fn resent_entry_keeps_stored_value() {
    let store = vec![entry(1, 0, 100, 10), entry(2, 1, 200, 20)];
    let device = vec![entry(2, 5, 999, 99), entry(3, 2, 300, 30)];
    let merged = merge(&store, &device);
    assert_eq!(merged, vec![entry(1, 0, 100, 10), entry(2, 1, 200, 20), entry(3, 2, 300, 30)]);
    assert_eq!(next_start_id(&merged, None, 0), 4);
}

#[test]
fn merge_sorts_incoming_by_id() {
    let store = vec![entry(2, 0, 20, 1)];
    let device = vec![entry(5, 0, 50, 1), entry(1, 0, 10, 1), entry(3, 0, 30, 1)];
    let merged = merge(&store, &device);
    let ids: Vec<u32> = merged.iter().map(|e| e.id).collect();
    assert_eq!(ids, vec![1, 2, 3, 5]);
}

#[test]
fn merge_twice_is_merge_once() {
    let store = vec![entry(1, 0, 10, 1), entry(4, 0, 40, 1)];
    let device = vec![entry(4, 3, 41, 2), entry(2, 1, 20, 1), entry(7, 2, 70, 1)];
    let once = merge(&store, &device);
    let twice = merge(&once, &device);
    assert_eq!(once, twice);
}

#[test]
fn merge_of_empty_sides() {
    let empty: Vec<Entry> = Vec::new();
    assert_eq!(merge(&empty, &empty), empty);
    let device = vec![entry(3, 0, 30, 1), entry(3, 1, 31, 1)];
    assert_eq!(merge(&empty, &device), vec![entry(3, 0, 30, 1)]);
}

#[test]
fn next_start_id_cases() {
    let empty: Vec<Entry> = Vec::new();
    assert_eq!(next_start_id(&empty, None, 0), 0);
    assert_eq!(next_start_id(&empty, None, 1), 1);
    assert_eq!(next_start_id(&empty, Some(9), 1), 9);
    let history = vec![entry(3, 0, 0, 0), entry(8, 0, 0, 0), entry(5, 0, 0, 0)];
    assert_eq!(next_start_id(&history, None, 0), 9);
    assert_eq!(next_start_id(&history, Some(2), 0), 2);
    let top = vec![entry(u32::MAX, 0, 0, 0)];
    assert_eq!(next_start_id(&top, None, 0), 4_294_967_296);
}
