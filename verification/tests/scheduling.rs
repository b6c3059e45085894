use lucid_dreamer::scheduler::plan_wake_delay;
use lucid_dreamer::sequencer::AlarmPhase;
use lucid_dreamer::sequencer::Sequencer;
use lucid_dreamer::sequencer::SequencerAction;
use lucid_dreamer::sequencer::SequencerEvent;
use lucid_dreamer::timeofday::compute_delay_seconds;
use lucid_dreamer::timeofday::parse_hhmm;
use lucid_dreamer::timeofday::TimeOfDay;

#[test]
fn parse_valid_times() {
    let t = parse_hhmm("06:30").unwrap();
    assert_eq!(t.hour, 6);
    assert_eq!(t.minute, 30);
    let t = parse_hhmm("00:00").unwrap();
    assert_eq!(t.hour, 0);
    assert_eq!(t.minute, 0);
    let t = parse_hhmm("23:59").unwrap();
    assert_eq!(t.hour, 23);
    assert_eq!(t.minute, 59);
}

#[test]
fn parse_invalid_times() {
    assert!(parse_hhmm("6:30").is_err());
    assert!(parse_hhmm("24:00").is_err());
    assert!(parse_hhmm("12:60").is_err());
    assert!(parse_hhmm("12-30").is_err());
    assert!(parse_hhmm("ab:cd").is_err());
    assert!(parse_hhmm("").is_err());
    assert!(parse_hhmm("12:345").is_err());
}

#[test]
fn delay_same_day_when_wake_is_later() {
    // 22:00 now, wake 06:30 tomorrow: 8.5 hours.
    let wake = TimeOfDay { hour: 6, minute: 30 };
    assert_eq!(compute_delay_seconds(wake, 22 * 3600), 30600);
    // 07:00 now, wake 06:30: rolled a full day, 23.5 hours.
    assert_eq!(compute_delay_seconds(wake, 7 * 3600), 84600);
    // one second before the wake time: same day.
    assert_eq!(compute_delay_seconds(wake, 6 * 3600 + 30 * 60 - 1), 1);
}

#[test]
fn delay_rolls_on_exact_match() {
    // a wake time equal to the current time rolls to the next day.
    let wake = TimeOfDay { hour: 6, minute: 30 };
    assert_eq!(compute_delay_seconds(wake, 6 * 3600 + 30 * 60), 86400);
}

#[test]
fn plan_wake_delay_scenario() {
    // set at 22:00 for wake 06:30: about 8.5 hours of delay.
    assert_eq!(plan_wake_delay("06:30", 22 * 3600), Ok(30600));
    // set at 07:00 the same day: rolled to the next day, about 23.5 hours.
    assert_eq!(plan_wake_delay("06:30", 7 * 3600), Ok(84600));
    assert!(plan_wake_delay("25:00", 0).is_err());
}

#[test]
fn sequencer_full_run() {
    let mut s = Sequencer::new(2);
    assert!(matches!(s.phase, AlarmPhase::Idle));
    assert!(!s.alarm_active);

    let a = s.step(SequencerEvent::DelayElapsed);
    assert!(matches!(a, SequencerAction::SoundAlarmAlert));
    assert!(matches!(s.phase, AlarmPhase::Ringing));
    assert!(s.alarm_active);

    let a = s.step(SequencerEvent::AlertFinished);
    assert!(matches!(a, SequencerAction::AnnounceAwakePeriod));
    assert!(matches!(s.phase, AlarmPhase::AwakeCountdown));
    assert_eq!(s.remaining_minutes, 2);
    assert!(s.alarm_active);

    let a = s.step(SequencerEvent::MinuteElapsed);
    assert!(matches!(a, SequencerAction::ReportMinutesRemaining { minutes: 2 }));
    let a = s.step(SequencerEvent::MinuteElapsed);
    assert!(matches!(a, SequencerAction::ReportMinutesRemaining { minutes: 1 }));
    assert!(s.alarm_active);

    let a = s.step(SequencerEvent::MinuteElapsed);
    assert!(matches!(a, SequencerAction::SoundReturnToSleep));
    assert!(matches!(s.phase, AlarmPhase::Completed));
    assert!(!s.alarm_active);
}

#[test]
fn sequencer_zero_awake_minutes() {
    let mut s = Sequencer::new(0);
    s.step(SequencerEvent::DelayElapsed);
    s.step(SequencerEvent::AlertFinished);
    assert_eq!(s.remaining_minutes, 0);
    // the countdown performs zero iterations and completes at once.
    let a = s.step(SequencerEvent::MinuteElapsed);
    assert!(matches!(a, SequencerAction::SoundReturnToSleep));
    assert!(matches!(s.phase, AlarmPhase::Completed));
    assert!(!s.alarm_active);
}

#[test]
fn sequencer_cancel_only_from_idle() {
    let mut s = Sequencer::new(5);
    let a = s.step(SequencerEvent::CancelRequested);
    assert!(matches!(a, SequencerAction::DoNothing));
    assert!(matches!(s.phase, AlarmPhase::Cancelled));
    // a cancelled sequence never moves again.
    s.step(SequencerEvent::DelayElapsed);
    assert!(matches!(s.phase, AlarmPhase::Cancelled));

    // once ringing, a cancel request changes nothing.
    let mut s = Sequencer::new(5);
    s.step(SequencerEvent::DelayElapsed);
    let a = s.step(SequencerEvent::CancelRequested);
    assert!(matches!(a, SequencerAction::DoNothing));
    assert!(matches!(s.phase, AlarmPhase::Ringing));
    assert!(s.alarm_active);
}
