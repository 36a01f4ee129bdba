use timeclerk::calendar::{since_threshold, threshold_from_midnight};
use timeclerk::entry::{facet_name, Entry, EntryEdit, FacetConfig};
use timeclerk::store::{loaded_history, StoreError, StoreRead};

fn edit(id: u32) -> EntryEdit {
    EntryEdit {
        id,
        facet: "f".to_string(),
        start_time: 0,
        end_time: 0,
        description: String::new(),
    }
}

#[test]
fn missing_history_is_empty() {
    assert!(loaded_history(StoreRead::Missing).unwrap().is_empty());
}

#[test]
fn unreadable_and_corrupt_history_fail() {
    assert_eq!(loaded_history(StoreRead::Unreadable).err(), Some(StoreError::Io));
    assert_eq!(loaded_history(StoreRead::Corrupt).err(), Some(StoreError::Parse));
}

#[test]
fn parsed_history_loads_as_is() {
    let ok = loaded_history(StoreRead::Parsed(vec![edit(1), edit(3)])).unwrap();
    assert_eq!(ok.iter().map(|e| e.id).collect::<Vec<_>>(), vec![1, 3]);
    let unordered = loaded_history(StoreRead::Parsed(vec![edit(3), edit(3), edit(2)])).unwrap();
    assert_eq!(unordered.iter().map(|e| e.id).collect::<Vec<_>>(), vec![3, 3, 2]);
}

#[test]
fn facet_labels() {
    let config = FacetConfig { names: vec![Some("work".to_string()), None] };
    assert_eq!(facet_name(0, &config), "work");
    assert_eq!(facet_name(1, &config), "facet 2");
    assert_eq!(facet_name(11, &config), "facet 12");
    assert_eq!(facet_name(255, &config), "facet 256");
}

#[test]
fn conversion_to_edit_form() {
    let e = Entry { id: 4, facet: 0, time: 1000, duration: 250 };
    let config = FacetConfig { names: vec![Some("work".to_string())] };
    let with = EntryEdit::from_entry_with_config(&e, &config);
    assert_eq!((with.id, with.facet.as_str(), with.start_time, with.end_time, with.description.as_str()), (4, "work", 1000, 1250, ""));
    let plain = EntryEdit::from_entry(&e);
    assert_eq!(plain.facet, "facet 1");
    assert_eq!(plain.end_time, 1250);
}

#[test]
fn thresholds_from_dates() {
    assert_eq!(since_threshold(2024, 1, 1, 0), Some(1_704_067_200));
    assert_eq!(since_threshold(2024, 1, 1, 3600), Some(1_704_063_600));
    assert_eq!(since_threshold(1969, 12, 31, -7200), Some(-86_400 + 7200));
    assert_eq!(since_threshold(2024, 2, 29, 0), Some(1_709_164_800));
    assert_eq!(since_threshold(2023, 2, 29, 0), None);
    assert_eq!(since_threshold(2024, 13, 1, 0), None);
    assert_eq!(since_threshold(2024, 4, 31, 0), None);
    assert_eq!(threshold_from_midnight(100, 40), Some(60));
    assert_eq!(threshold_from_midnight(i64::MIN, 1), None);
}
