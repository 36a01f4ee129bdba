use timeclerk::entry::Entry;
use timeclerk::view::{filter_since, summarized, table_by_day};

fn entry(id: u32, facet: u8, time: i64, duration: u32) -> Entry {
    Entry { id, facet, time, duration }
}

#[test]
fn same_day_entries_share_a_subtotal() {
    // 2024-03-01 09:00 and 14:00 UTC
    let entries = vec![entry(1, 0, 1_709_283_600, 30 * 60), entry(2, 1, 1_709_301_600, 45 * 60)];
    let groups = table_by_day(&entries, 0);
    assert_eq!(groups.len(), 1);
    assert_eq!(groups[0].day, 19_783);
    assert_eq!(groups[0].entries, entries);
    assert_eq!(groups[0].total, 75 * 60);
}

#[test]
fn days_follow_the_local_offset() {
    // 2024-03-01 23:30 UTC is 2024-03-02 01:30 at UTC+2
    let entries = vec![entry(1, 0, 1_709_335_800, 600), entry(2, 0, 1_709_337_600, 600)];
    let utc = table_by_day(&entries, 0);
    assert_eq!(utc.len(), 2);
    assert_eq!(utc[0].day, 19_783);
    assert_eq!(utc[1].day, 19_784);
    let ahead = table_by_day(&entries, 7200);
    assert_eq!(ahead.len(), 1);
    assert_eq!(ahead[0].day, 19_784);
    assert_eq!(ahead[0].total, 1200);
}

#[test]
fn days_before_the_epoch_round_down() {
    let entries = vec![entry(1, 0, -1, 5), entry(2, 0, -86_400, 5), entry(3, 0, -86_401, 5)];
    let groups = table_by_day(&entries, 0);
    assert_eq!(groups.len(), 2);
    assert_eq!(groups[0].day, -2);
    assert_eq!(groups[0].entries, vec![entry(3, 0, -86_401, 5)]);
    assert_eq!(groups[1].day, -1);
    assert_eq!(groups[1].entries.len(), 2);
}

#[test]
fn one_group_per_day_when_times_are_out_of_step() {
    // 2024-03-01 09:00, 2024-03-02 09:00, then 2024-03-01 14:00 again
    let entries = vec![
        entry(1, 0, 1_709_283_600, 600),
        entry(2, 0, 1_709_370_000, 300),
        entry(3, 1, 1_709_301_600, 900),
    ];
    let groups = table_by_day(&entries, 0);
    assert_eq!(groups.len(), 2);
    assert_eq!(groups[0].day, 19_783);
    assert_eq!(groups[0].entries, vec![entries[0], entries[2]]);
    assert_eq!(groups[0].total, 1500);
    assert_eq!(groups[1].day, 19_784);
    assert_eq!(groups[1].entries, vec![entries[1]]);
    assert_eq!(groups[1].total, 300);
}

#[test]
fn empty_table() {
    let entries: Vec<Entry> = Vec::new();
    assert!(table_by_day(&entries, 0).is_empty());
}

#[test]
fn filter_keeps_entries_from_the_threshold() {
    let entries = vec![entry(1, 0, 100, 1), entry(2, 0, 200, 1), entry(3, 0, 300, 1)];
    assert_eq!(filter_since(&entries, Some(200)), vec![entry(2, 0, 200, 1), entry(3, 0, 300, 1)]);
    assert_eq!(filter_since(&entries, None), entries);
    assert!(filter_since(&entries, Some(301)).is_empty());
}

#[test]
fn later_threshold_keeps_a_subset() {
    let entries = vec![entry(1, 0, 50, 1), entry(2, 0, 150, 1), entry(3, 0, 250, 1), entry(4, 0, 120, 1)];
    let early = filter_since(&entries, Some(100));
    let late = filter_since(&entries, Some(200));
    for e in &late {
        assert!(early.contains(e));
        assert!(e.time >= 200);
    }
    assert_eq!(early.len(), 3);
    assert_eq!(late.len(), 1);
}

#[test]
fn totals_per_facet() {
    let entries = vec![entry(1, 2, 0, 60), entry(2, 0, 0, 30), entry(3, 2, 0, 90), entry(4, 255, 0, 7)];
    let totals = summarized(&entries);
    assert_eq!(totals.len(), 256);
    assert_eq!(totals[0], 30);
    assert_eq!(totals[1], 0);
    assert_eq!(totals[2], 150);
    assert_eq!(totals[255], 7);
}

#[test]
fn totals_do_not_overflow() {
    let entries = vec![entry(1, 4, 0, u32::MAX), entry(2, 4, 0, u32::MAX)];
    let totals = summarized(&entries);
    assert_eq!(totals[4], 2 * u32::MAX as u64);
    let groups = table_by_day(&entries, 0);
    assert_eq!(groups[0].total, 2 * u32::MAX as u64);
}
