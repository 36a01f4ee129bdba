use timeclerk::entry::{Entry, FacetConfig};
use timeclerk::render::{push_duration, render_lines, render_summary, render_table};
use timeclerk::view::{summarized, table_by_day};

fn entry(id: u32, facet: u8, time: i64, duration: u32) -> Entry {
    Entry { id, facet, time, duration }
}

fn config() -> FacetConfig {
    FacetConfig { names: vec![Some("work".to_string()), None] }
}

#[test]
fn durations_as_text() {
    let mut s = String::from("> ");
    push_duration(&mut s, 4500);
    assert_eq!(s, "> 75m");
    let mut s = String::new();
    push_duration(&mut s, 150);
    assert_eq!(s, "2m30s");
    let mut s = String::new();
    push_duration(&mut s, 0);
    assert_eq!(s, "0m");
}

#[test]
fn lines_show_local_time_facet_and_duration() {
    let entries = vec![entry(1, 0, 1_709_283_600, 1800), entry(2, 1, 1_709_301_600, 2700)];
    assert_eq!(
        render_lines(&entries, &config(), 0),
        "2024-03-01 09:00  work  30m\n2024-03-01 14:00  facet 2  45m\n"
    );
    assert_eq!(
        render_lines(&entries, &config(), 3600),
        "2024-03-01 10:00  work  30m\n2024-03-01 15:00  facet 2  45m\n"
    );
}

#[test]
fn lines_with_an_impossible_offset() {
    let entries = vec![entry(1, 0, 0, 60)];
    assert_eq!(render_lines(&entries, &config(), 90_000), "?  work  1m\n");
}

#[test]
fn table_has_one_day_with_its_subtotal() {
    let entries = vec![entry(1, 0, 1_709_283_600, 30 * 60), entry(2, 1, 1_709_301_600, 45 * 60)];
    let groups = table_by_day(&entries, 0);
    assert_eq!(
        render_table(&groups, &config(), 0),
        "2024-03-01  75m\n2024-03-01 09:00  work  30m\n2024-03-01 14:00  facet 2  45m\n"
    );
}

#[test]
fn summary_lists_facets_with_time() {
    let entries = vec![entry(1, 0, 0, 4000), entry(2, 2, 0, 150), entry(3, 0, 0, 500)];
    let totals = summarized(&entries);
    assert_eq!(render_summary(&totals, &config()), "work  75m\nfacet 3  2m30s\n");
}

#[test]
fn moments_at_the_edges_of_the_calendar() {
    let last = vec![entry(1, 0, 8_210_266_876_799, 60)];
    assert!(!render_lines(&last, &config(), 0).starts_with('?'));
    let past = vec![entry(1, 0, 8_210_266_876_800, 60)];
    assert_eq!(render_lines(&past, &config(), 0), "?  work  1m\n");
    let first = vec![entry(1, 0, -8_334_601_228_800, 60)];
    assert!(!render_lines(&first, &config(), 0).starts_with('?'));
    let before = vec![entry(1, 0, -8_334_601_228_801, 60)];
    assert_eq!(render_lines(&before, &config(), 0), "?  work  1m\n");
}

#[test]
fn offsets_under_a_day_either_way() {
    let entries = vec![entry(1, 0, 0, 60)];
    assert_eq!(render_lines(&entries, &config(), 86_399), "1970-01-01 23:59  work  1m\n");
    assert_eq!(render_lines(&entries, &config(), -86_399), "1969-12-31 00:00  work  1m\n");
    assert_eq!(render_lines(&entries, &config(), 86_400), "?  work  1m\n");
    assert_eq!(render_lines(&entries, &config(), -86_400), "?  work  1m\n");
}

#[test]
fn table_dates_follow_the_offset() {
    let entries = vec![entry(1, 0, 1_709_335_800, 600)];
    let groups = table_by_day(&entries, 7200);
    assert_eq!(render_table(&groups, &config(), 7200), "2024-03-02  10m\n2024-03-02 01:30  work  10m\n");
    assert_eq!(render_table(&groups, &config(), 90_000), "?  10m\n?  work  10m\n");
}
