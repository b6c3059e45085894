use lucid_dreamer::alarm::add_alarm;
use lucid_dreamer::alarm::mark_alarm_result;
use lucid_dreamer::alarm::next_id;
use lucid_dreamer::alarm::remove_alarm;
use lucid_dreamer::alarm::Alarm;
use lucid_dreamer::codec::alarms_from_doc;
use lucid_dreamer::codec::alarms_to_doc;
use lucid_dreamer::codec::history_from_doc;
use lucid_dreamer::codec::history_to_doc;
use lucid_dreamer::practice::append_record;
use lucid_dreamer::practice::PracticeRecord;
use lucid_dreamer::practice::TechniqueOutcome;

fn alarm(id: u32) -> Alarm {
    Alarm {
        id,
        bedtime: "23:00".to_string(),
        wake_time: "06:30".to_string(),
        awake_minutes: 20,
        enabled: true,
        last_triggered: None,
        success: None,
    }
}

#[test]
fn next_id_empty_is_one() {
    let alarms: Vec<Alarm> = Vec::new();
    assert_eq!(next_id(&alarms), 1);
}

#[test]
fn next_id_is_max_plus_one_in_any_order() {
    let ascending = vec![alarm(1), alarm(2), alarm(7)];
    let shuffled = vec![alarm(7), alarm(1), alarm(2)];
    assert_eq!(next_id(&ascending), 8);
    assert_eq!(next_id(&shuffled), 8);
}

#[test]
fn add_alarm_assigns_next_id() {
    let mut alarms = vec![alarm(3)];
    let id = add_alarm(&mut alarms, "23:00", "06:30", 20);
    assert_eq!(id, 4);
    assert_eq!(alarms.len(), 2);
    let a = &alarms[1];
    assert_eq!(a.id, 4);
    assert_eq!(a.bedtime, "23:00");
    assert_eq!(a.wake_time, "06:30");
    assert_eq!(a.awake_minutes, 20);
    assert!(a.enabled);
    assert!(a.last_triggered.is_none());
    assert!(a.success.is_none());
}

#[test]
fn remove_absent_id_reports_not_found_and_changes_nothing() {
    let mut alarms = vec![alarm(1), alarm(2)];
    let before = alarms_to_doc(&alarms);
    let found = remove_alarm(&mut alarms, 9);
    assert!(!found);
    // the persisted collection is unchanged, byte for byte.
    assert_eq!(alarms_to_doc(&alarms), before);
    assert_eq!(alarms.len(), 2);
}

#[test]
fn remove_present_id() {
    let mut alarms = vec![alarm(1), alarm(2), alarm(3)];
    let found = remove_alarm(&mut alarms, 2);
    assert!(found);
    assert_eq!(alarms.len(), 2);
    assert_eq!(alarms[0].id, 1);
    assert_eq!(alarms[1].id, 3);
}

#[test]
fn mark_alarm_result_updates_first_match() {
    let mut alarms = vec![alarm(1), alarm(2)];
    let found = mark_alarm_result(&mut alarms, 2, "2024-05-01", true);
    assert!(found);
    assert_eq!(alarms[1].last_triggered.as_deref(), Some("2024-05-01"));
    assert_eq!(alarms[1].success, Some(true));
    assert!(alarms[0].last_triggered.is_none());

    let found = mark_alarm_result(&mut alarms, 9, "2024-05-02", false);
    assert!(!found);
    assert_eq!(alarms[1].last_triggered.as_deref(), Some("2024-05-01"));
}

#[test]
fn alarm_doc_round_trips_every_field() {
    let mut a = alarm(12);
    a.last_triggered = Some("2024-04-30".to_string());
    a.success = Some(false);
    a.enabled = false;
    let alarms = vec![alarm(1), a];
    let doc = alarms_to_doc(&alarms);
    let loaded = alarms_from_doc(&doc).unwrap();
    assert_eq!(loaded.len(), 2);
    assert_eq!(loaded[0].id, 1);
    assert_eq!(loaded[0].bedtime, "23:00");
    assert!(loaded[0].enabled);
    assert_eq!(loaded[1].id, 12);
    assert_eq!(loaded[1].bedtime, "23:00");
    assert_eq!(loaded[1].wake_time, "06:30");
    assert_eq!(loaded[1].awake_minutes, 20);
    assert!(!loaded[1].enabled);
    assert_eq!(loaded[1].last_triggered.as_deref(), Some("2024-04-30"));
    assert_eq!(loaded[1].success, Some(false));
}

#[test]
fn malformed_alarm_doc_is_an_error() {
    assert!(alarms_from_doc("not a document").is_err());
    assert!(alarms_from_doc("").is_err());
    // a document with trailing garbage is rejected too.
    let doc = alarms_to_doc(&vec![alarm(1)]);
    let mut longer = doc.clone();
    longer.push('x');
    assert!(alarms_from_doc(&longer).is_err());
    // the untouched document still parses.
    assert!(alarms_from_doc(&doc).is_ok());
}

#[test]
fn history_append_then_load_round_trips_every_field() {
    let mut history: Vec<PracticeRecord> = Vec::new();
    append_record(&mut history, "MILD", TechniqueOutcome::Failed, 15, "2024-05-01");
    append_record(
        &mut history,
        "WBTB",
        TechniqueOutcome::FullLucid { control_level: 4 },
        30,
        "2024-05-02",
    );
    append_record(&mut history, "MILD", TechniqueOutcome::PartialLucid, 0, "2024-05-03");
    append_record(&mut history, "RC", TechniqueOutcome::Unattempted, 5, "2024-05-04");

    let doc = history_to_doc(&history);
    let loaded = history_from_doc(&doc);
    assert_eq!(loaded.len(), 4);

    assert_eq!(loaded[0].technique, "MILD");
    assert_eq!(loaded[0].date, "2024-05-01");
    assert_eq!(loaded[0].duration_minutes, 15);
    assert!(matches!(loaded[0].outcome, TechniqueOutcome::Failed));

    assert_eq!(loaded[1].technique, "WBTB");
    assert_eq!(loaded[1].date, "2024-05-02");
    assert_eq!(loaded[1].duration_minutes, 30);
    assert!(matches!(loaded[1].outcome, TechniqueOutcome::FullLucid { control_level: 4 }));

    assert_eq!(loaded[2].technique, "MILD");
    assert_eq!(loaded[2].duration_minutes, 0);
    assert!(matches!(loaded[2].outcome, TechniqueOutcome::PartialLucid));

    assert_eq!(loaded[3].technique, "RC");
    assert!(matches!(loaded[3].outcome, TechniqueOutcome::Unattempted));
}

#[test]
fn empty_history_round_trips() {
    let history: Vec<PracticeRecord> = Vec::new();
    let doc = history_to_doc(&history);
    assert!(history_from_doc(&doc).is_empty());
}

#[test]
fn malformed_history_loads_as_empty() {
    // the lenient load treats malformed data as no history.
    assert!(history_from_doc("garbage").is_empty());
    assert!(history_from_doc("").is_empty());
    let mut history: Vec<PracticeRecord> = Vec::new();
    append_record(&mut history, "MILD", TechniqueOutcome::Failed, 15, "2024-05-01");
    let mut doc = history_to_doc(&history);
    doc.push('!');
    assert!(history_from_doc(&doc).is_empty());
}
