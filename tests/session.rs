use timeclerk::edit::{export_entries, is_acceptable, next_edit_id};
use timeclerk::entry::{Entry, EntryEdit, FacetConfig};
use timeclerk::session::{EditAction, EditError, EditEvent, EditSession, Phase};

fn entry(id: u32, facet: u8, time: i64, duration: u32) -> Entry {
    Entry { id, facet, time, duration }
}

fn edit(id: u32, facet: &str, start_time: i64, end_time: i64, description: &str) -> EntryEdit {
    EntryEdit {
        id,
        facet: facet.to_string(),
        start_time,
        end_time,
        description: description.to_string(),
    }
}

fn config() -> FacetConfig {
    FacetConfig { names: vec![Some("work".to_string()), None, Some("lunch".to_string())] }
}

fn copy(v: &[EntryEdit]) -> Vec<EntryEdit> {
    v.iter().map(|e| e.duplicate()).collect()
}

fn summary(v: &[EntryEdit]) -> Vec<(u32, String, i64, i64, String)> {
    v.iter()
        .map(|e| (e.id, e.facet.clone(), e.start_time, e.end_time, e.description.clone()))
        .collect()
}

#[test]
fn export_orders_selects_and_labels() {
    let fetched = vec![entry(7, 2, 700, 10), entry(5, 0, 500, 20), entry(6, 1, 600, 30), entry(5, 9, 1, 1)];
    let out = export_entries(&fetched, 6, None, &config()).unwrap();
    assert_eq!(
        summary(&out),
        vec![
            (6, "facet 2".to_string(), 600, 630, String::new()),
            (7, "lunch".to_string(), 700, 710, String::new()),
        ]
    );
    let bounded = export_entries(&fetched, 0, Some(6), &config()).unwrap();
    assert_eq!(
        summary(&bounded),
        vec![
            (5, "work".to_string(), 500, 520, String::new()),
            (6, "facet 2".to_string(), 600, 630, String::new()),
        ]
    );
}

#[test]
fn export_is_repeatable() {
    let fetched = vec![entry(2, 0, 20, 1), entry(1, 1, 10, 1)];
    let a = export_entries(&fetched, 0, None, &config()).unwrap();
    let b = export_entries(&fetched, 0, None, &config()).unwrap();
    assert_eq!(summary(&a), summary(&b));
}

#[test]
fn export_refuses_an_end_out_of_range() {
    let fetched = vec![entry(1, 0, i64::MAX, 1)];
    assert!(export_entries(&fetched, 0, None, &config()).is_none());
}

#[test]
fn acceptance_rules() {
    let history = vec![edit(1, "a", 0, 1, ""), edit(2, "a", 1, 2, "")];
    assert!(is_acceptable(&history, &vec![edit(3, "b", 2, 3, ""), edit(5, "b", 3, 4, "")]));
    assert!(is_acceptable(&history, &Vec::new()));
    assert!(!is_acceptable(&history, &vec![edit(2, "b", 2, 3, "")]));
    assert!(!is_acceptable(&history, &vec![edit(4, "b", 2, 3, ""), edit(3, "b", 3, 4, "")]));
    assert!(!is_acceptable(&history, &vec![edit(4, "b", 2, 3, ""), edit(4, "b", 3, 4, "")]));
}

#[test]
fn edit_ids_resume_after_history() {
    let empty: Vec<EntryEdit> = Vec::new();
    assert_eq!(next_edit_id(&empty, None), Some(1));
    assert_eq!(next_edit_id(&empty, Some(0)), Some(0));
    let history = vec![edit(4, "a", 0, 1, ""), edit(9, "a", 1, 2, "")];
    assert_eq!(next_edit_id(&history, None), Some(10));
    assert_eq!(next_edit_id(&vec![edit(u32::MAX, "a", 0, 0, "")], None), None);
}

#[test]
fn unchanged_edit_appends_the_new_entries() {
    let history = vec![edit(1, "work", 0, 10, "old"), edit(2, "lunch", 10, 20, "")];
    let mut session = EditSession::new(copy(&history), None, None, config()).unwrap();
    assert_eq!(session.phase, Phase::Idle);
    assert_eq!(session.start_id, 3);
    let fetched = vec![entry(4, 0, 40, 5), entry(3, 1, 30, 5)];
    assert_eq!(session.step(EditEvent::Fetched(fetched)), EditAction::WriteScratch);
    assert_eq!(session.phase, Phase::Exporting);
    assert_eq!(session.step(EditEvent::ScratchWritten(true)), EditAction::LaunchEditor);
    assert_eq!(session.step(EditEvent::EditorExited(true)), EditAction::ReloadScratch);
    let back = copy(&session.exported);
    assert_eq!(session.step(EditEvent::Reloaded(Some(back))), EditAction::Persist);
    assert_eq!(session.phase, Phase::Validating);
    let ids: Vec<u32> = session.candidate.iter().map(|e| e.id).collect();
    assert_eq!(ids, vec![1, 2, 3, 4]);
    assert_eq!(summary(&session.candidate[..2]), summary(&history));
    assert_eq!(session.step(EditEvent::Persisted(true)), EditAction::Done);
    assert_eq!(session.phase, Phase::Committed);
}

#[test]
fn edited_description_is_kept() {
    let mut session = EditSession::new(Vec::new(), None, None, config()).unwrap();
    session.step(EditEvent::Fetched(vec![entry(1, 0, 0, 60)]));
    session.step(EditEvent::ScratchWritten(true));
    session.step(EditEvent::EditorExited(true));
    let changed = vec![edit(1, "work", 0, 60, "wrote tests")];
    assert_eq!(session.step(EditEvent::Reloaded(Some(changed))), EditAction::Persist);
    assert_eq!(session.candidate[0].description, "wrote tests");
}

#[test]
fn session_needs_an_ordered_history_and_a_free_id() {
    let unordered = vec![edit(2, "a", 0, 1, ""), edit(1, "a", 1, 2, "")];
    assert_eq!(EditSession::new(unordered, None, None, config()).err(), Some(EditError::UnorderedHistory));
    let full = vec![edit(u32::MAX, "a", 0, 1, "")];
    assert_eq!(EditSession::new(full, None, None, config()).err(), Some(EditError::IdsExhausted));
    let full = vec![edit(u32::MAX, "a", 0, 1, "")];
    assert_eq!(EditSession::new(full, Some(5), None, config()).unwrap().start_id, 5);
}

#[test]
fn session_failures() {
    let fresh = || EditSession::new(vec![edit(1, "a", 0, 1, "")], Some(1), None, config()).unwrap();

    let mut s = fresh();
    assert_eq!(s.step(EditEvent::Fetched(vec![entry(1, 0, i64::MAX, 1)])), EditAction::Abort(EditError::OutOfRange));
    assert_eq!(s.phase, Phase::Failed);

    let mut s = fresh();
    s.step(EditEvent::Fetched(vec![entry(1, 0, 0, 1)]));
    assert_eq!(s.step(EditEvent::ScratchWritten(false)), EditAction::Abort(EditError::ScratchFile));

    let mut s = fresh();
    s.step(EditEvent::Fetched(Vec::new()));
    s.step(EditEvent::ScratchWritten(true));
    assert_eq!(s.step(EditEvent::EditorExited(false)), EditAction::Abort(EditError::EditorLaunch));

    let mut s = fresh();
    s.step(EditEvent::Fetched(Vec::new()));
    s.step(EditEvent::ScratchWritten(true));
    s.step(EditEvent::EditorExited(true));
    assert_eq!(s.step(EditEvent::Reloaded(None)), EditAction::Abort(EditError::Parse));

    let mut s = fresh();
    s.step(EditEvent::Fetched(vec![entry(1, 0, 0, 1)]));
    s.step(EditEvent::ScratchWritten(true));
    s.step(EditEvent::EditorExited(true));
    let back = copy(&s.exported);
    assert_eq!(s.step(EditEvent::Reloaded(Some(back))), EditAction::Abort(EditError::Rejected));

    let mut s = fresh();
    s.step(EditEvent::Fetched(Vec::new()));
    s.step(EditEvent::ScratchWritten(true));
    s.step(EditEvent::EditorExited(true));
    s.step(EditEvent::Reloaded(Some(Vec::new())));
    assert_eq!(s.step(EditEvent::Persisted(false)), EditAction::Abort(EditError::Persist));

    let mut s = fresh();
    assert_eq!(s.step(EditEvent::Persisted(true)), EditAction::Abort(EditError::OutOfOrder));
    assert_eq!(s.phase, Phase::Failed);
}
