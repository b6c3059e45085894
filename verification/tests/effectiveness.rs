use lucid_dreamer::clock::format_ymd;
use lucid_dreamer::clock::today_stamp;
use lucid_dreamer::practice::outcome_from_choice;
use lucid_dreamer::practice::PracticeRecord;
use lucid_dreamer::practice::TechniqueOutcome;
use lucid_dreamer::stats::compute_stats;
use lucid_dreamer::stats::normalize_conditions;
use lucid_dreamer::stats::rank;
use lucid_dreamer::stats::rate_centi;
use lucid_dreamer::stats::recommendation;
use lucid_dreamer::stats::Condition;
use lucid_dreamer::stats::TechniqueStats;

fn record(technique: &str, date: &str, outcome: TechniqueOutcome) -> PracticeRecord {
    PracticeRecord {
        technique: technique.to_string(),
        date: date.to_string(),
        duration_minutes: 20,
        outcome,
    }
}

#[test]
fn success_counting() {
    // one technique with Failed, PartialLucid, FullLucid(3), Unattempted:
    // four attempts, two successes, a rate of exactly fifty percent.
    let history = vec![
        record("WBTB", "2024-05-01", TechniqueOutcome::Failed),
        record("WBTB", "2024-05-02", TechniqueOutcome::PartialLucid),
        record("WBTB", "2024-05-03", TechniqueOutcome::FullLucid { control_level: 3 }),
        record("WBTB", "2024-05-04", TechniqueOutcome::Unattempted),
    ];
    let stats = compute_stats(&history);
    assert_eq!(stats.len(), 1);
    assert_eq!(stats[0].technique, "WBTB");
    assert_eq!(stats[0].attempts, 4);
    assert_eq!(stats[0].successes, 2);
    assert_eq!(stats[0].success_rate_centi, 5000);
}

#[test]
fn last_practiced_is_last_record_visited() {
    // the fold keeps the date of the last record visited in order, even when
    // an earlier date comes later in the history.
    let history = vec![
        record("MILD", "2024-05-09", TechniqueOutcome::Failed),
        record("MILD", "2024-05-01", TechniqueOutcome::PartialLucid),
    ];
    let stats = compute_stats(&history);
    assert_eq!(stats[0].last_practiced, "2024-05-01");
}

#[test]
fn groups_keep_first_seen_order() {
    let history = vec![
        record("MILD", "2024-05-01", TechniqueOutcome::Failed),
        record("WBTB", "2024-05-02", TechniqueOutcome::PartialLucid),
        record("MILD", "2024-05-03", TechniqueOutcome::FullLucid { control_level: 5 }),
    ];
    let stats = compute_stats(&history);
    assert_eq!(stats.len(), 2);
    assert_eq!(stats[0].technique, "MILD");
    assert_eq!(stats[0].attempts, 2);
    assert_eq!(stats[0].successes, 1);
    assert_eq!(stats[1].technique, "WBTB");
    assert_eq!(stats[1].attempts, 1);
    assert_eq!(stats[1].successes, 1);
    assert_eq!(stats[1].success_rate_centi, 10000);
}

#[test]
fn empty_history_gives_no_stats() {
    let history: Vec<PracticeRecord> = Vec::new();
    assert!(compute_stats(&history).is_empty());
}

#[test]
fn rate_is_exact() {
    assert_eq!(rate_centi(0, 0), 0);
    assert_eq!(rate_centi(1, 3), 3333);
    assert_eq!(rate_centi(2, 4), 5000);
    assert_eq!(rate_centi(3, 3), 10000);
}

#[test]
fn normalization_survives_zero_successes() {
    // a technique with one failed record and a seeded condition value must
    // not divide by zero: the condition comes out as 0.
    let history = vec![record("FILD", "2024-05-01", TechniqueOutcome::Failed)];
    let mut stats = compute_stats(&history);
    assert_eq!(stats[0].successes, 0);
    stats[0].optimal_conditions.push(Condition {
        name: "after 6h sleep".to_string(),
        rate_centi: 4200,
    });
    normalize_conditions(&mut stats);
    assert_eq!(stats[0].optimal_conditions.len(), 1);
    assert_eq!(stats[0].optimal_conditions[0].name, "after 6h sleep");
    assert_eq!(stats[0].optimal_conditions[0].rate_centi, 0);
}

#[test]
fn normalization_scales_by_successes() {
    let history = vec![
        record("FILD", "2024-05-01", TechniqueOutcome::PartialLucid),
        record("FILD", "2024-05-02", TechniqueOutcome::FullLucid { control_level: 2 }),
    ];
    let mut stats = compute_stats(&history);
    assert_eq!(stats[0].successes, 2);
    stats[0].optimal_conditions.push(Condition { name: "quiet room".to_string(), rate_centi: 3 });
    normalize_conditions(&mut stats);
    // 3 * 100 / 2
    assert_eq!(stats[0].optimal_conditions[0].rate_centi, 150);
    // everything else about the entry is kept.
    assert_eq!(stats[0].attempts, 2);
    assert_eq!(stats[0].success_rate_centi, 10000);
}

fn stats_entry(technique: &str, rate: u32) -> TechniqueStats {
    TechniqueStats {
        technique: technique.to_string(),
        attempts: 1,
        successes: 1,
        last_practiced: "2024-05-01".to_string(),
        success_rate_centi: rate,
        optimal_conditions: Vec::new(),
    }
}

#[test]
fn rank_picks_best_and_worst() {
    let stats = vec![stats_entry("A", 2500), stats_entry("B", 7500), stats_entry("C", 1000)];
    let (best, worst) = rank(&stats).unwrap();
    assert_eq!(stats[best].technique, "B");
    assert_eq!(stats[worst].technique, "C");
}

#[test]
fn rank_breaks_ties_by_position() {
    // equal rates: the earliest stays best, the latest stays worst, as a
    // stable sort by descending rate would order them.
    let stats = vec![stats_entry("A", 5000), stats_entry("B", 5000), stats_entry("C", 5000)];
    let (best, worst) = rank(&stats).unwrap();
    assert_eq!(best, 0);
    assert_eq!(worst, 2);
    let empty: Vec<TechniqueStats> = Vec::new();
    assert!(rank(&empty).is_none());
}

#[test]
fn recommendation_thresholds() {
    assert_eq!(recommendation(7001), "Continue using as primary technique");
    assert_eq!(recommendation(7000), "Combine with another technique");
    assert_eq!(recommendation(4001), "Combine with another technique");
    assert_eq!(recommendation(4000), "Try modifying approach or switch techniques");
    assert_eq!(recommendation(0), "Try modifying approach or switch techniques");
}

#[test]
fn date_stamp_format() {
    assert_eq!(format_ymd(2024, 5, 1), "2024-05-01");
    assert_eq!(format_ymd(0, 12, 31), "0000-12-31");
    assert_eq!(today_stamp().len(), 10);
}

#[test]
fn outcome_choice_mapping() {
    assert!(matches!(outcome_from_choice("1", 3), TechniqueOutcome::Failed));
    assert!(matches!(outcome_from_choice("2", 3), TechniqueOutcome::PartialLucid));
    assert!(matches!(
        outcome_from_choice("3", 4),
        TechniqueOutcome::FullLucid { control_level: 4 }
    ));
    // the control level is clamped into 1..=5.
    assert!(matches!(
        outcome_from_choice("3", 9),
        TechniqueOutcome::FullLucid { control_level: 5 }
    ));
    assert!(matches!(
        outcome_from_choice("3", 0),
        TechniqueOutcome::FullLucid { control_level: 1 }
    ));
    assert!(matches!(outcome_from_choice("4", 3), TechniqueOutcome::Unattempted));
    assert!(matches!(outcome_from_choice("", 3), TechniqueOutcome::Unattempted));
    assert!(matches!(outcome_from_choice("33", 3), TechniqueOutcome::Unattempted));
}
