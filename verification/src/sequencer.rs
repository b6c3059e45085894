//! The alarm firing sequence: a state machine driven by elapsed-time events,
//! owning the process-wide "alarm active" flag.
//!
//! The runner performs the returned action — sounding the alert, announcing
//! the awake period, waiting out one minute, or playing the return-to-sleep
//! cue — and feeds the next event back in. All waiting and output stays with
//! the runner; the machine only decides.
use vstd::prelude::*;

verus! {

/// The phase of one alarm's firing sequence.
#[derive(Clone, Copy, PartialEq, Eq, Structural, Debug)]
pub enum AlarmPhase {
    Idle,
    Ringing,
    AwakeCountdown,
    Completed,
    Cancelled,
}

/// What the sequencer can observe.
#[derive(Clone, Copy, PartialEq, Eq, Structural, Debug)]
pub enum SequencerEvent {
    DelayElapsed,
    AlertFinished,
    MinuteElapsed,
    CancelRequested,
}

/// What the runner must do after a step.
#[derive(Clone, Copy, PartialEq, Eq, Structural, Debug)]
pub enum SequencerAction {
    SoundAlarmAlert,
    AnnounceAwakePeriod,
    ReportMinutesRemaining { minutes: u32 },
    SoundReturnToSleep,
    DoNothing,
}

/// The state of one alarm's firing sequence.
#[derive(Clone, Copy, PartialEq, Eq, Structural, Debug)]
pub struct Sequencer {
    pub phase: AlarmPhase,
    pub awake_minutes: u32,
    pub remaining_minutes: u32,
    pub alarm_active: bool,
}

impl Sequencer {
    /// The alarm-active flag is set exactly while the sequence rings or
    /// counts down, and the countdown never exceeds the configured awake
    /// time.
    pub open spec fn inv(self) -> bool {
        &&& self.alarm_active <==> (self.phase is Ringing || self.phase is AwakeCountdown)
        &&& self.remaining_minutes <= self.awake_minutes
    }

    /// A fresh sequence: idle, flag clear, nothing counted down yet.
    pub fn new(awake_minutes: u32) -> (s: Self)
        ensures
            s.inv(),
            s.phase is Idle,
            s.awake_minutes == awake_minutes,
            s.remaining_minutes == 0,
            !s.alarm_active,
    {
        Sequencer {
            phase: AlarmPhase::Idle,
            awake_minutes,
            remaining_minutes: 0,
            alarm_active: false,
        }
    }

    /// One transition of the firing sequence. The elapsed delay starts the
    /// ringing and raises the flag; the finished alert opens the countdown at
    /// the full awake time; each elapsed minute counts down by one, and the
    /// minute that finds nothing left completes the sequence, plays the
    /// return-to-sleep cue and clears the flag — the only transition that
    /// clears it. Cancellation is honoured in the idle phase alone, and a
    /// finished or cancelled sequence never moves again.
    pub fn step(&mut self, event: SequencerEvent) -> (action: SequencerAction)
        requires
            old(self).inv(),
        ensures
            final(self).inv(),
            final(self).awake_minutes == old(self).awake_minutes,
            old(self).phase is Idle && event is DelayElapsed ==> final(self).phase is Ringing
                && final(self).alarm_active && action is SoundAlarmAlert,
            old(self).phase is Idle && event is CancelRequested ==> final(self).phase is Cancelled
                && !final(self).alarm_active && action is DoNothing,
            old(self).phase is Ringing && event is AlertFinished ==> final(self).phase
                is AwakeCountdown && final(self).alarm_active && final(self).remaining_minutes
                == old(self).awake_minutes && action is AnnounceAwakePeriod,
            old(self).phase is AwakeCountdown && event is MinuteElapsed && old(self).remaining_minutes
                > 0 ==> final(self).phase is AwakeCountdown && final(self).alarm_active
                && final(self).remaining_minutes == old(self).remaining_minutes - 1
                && action == (SequencerAction::ReportMinutesRemaining {
                minutes: old(self).remaining_minutes,
            }),
            old(self).phase is AwakeCountdown && event is MinuteElapsed && old(self).remaining_minutes
                == 0 ==> final(self).phase is Completed && !final(self).alarm_active
                && action is SoundReturnToSleep,
            !((old(self).phase is Idle && (event is DelayElapsed || event is CancelRequested))
                || (old(self).phase is Ringing && event is AlertFinished)
                || (old(self).phase is AwakeCountdown && event is MinuteElapsed)) ==> *final(self)
                == *old(self) && action is DoNothing,
            old(self).alarm_active && !final(self).alarm_active ==> final(self).phase is Completed,
            final(self).phase is Cancelled ==> old(self).phase is Cancelled || (old(self).phase
                is Idle && event is CancelRequested),
            old(self).phase is Completed ==> final(self).phase is Completed,
            old(self).phase is Cancelled ==> final(self).phase is Cancelled,
            event is MinuteElapsed ==> *final(self) == spec_minute_step(*old(self)),
    {
        match (self.phase, event) {
            (AlarmPhase::Idle, SequencerEvent::DelayElapsed) => {
                self.phase = AlarmPhase::Ringing;
                self.alarm_active = true;
                SequencerAction::SoundAlarmAlert
            },
            (AlarmPhase::Idle, SequencerEvent::CancelRequested) => {
                self.phase = AlarmPhase::Cancelled;
                SequencerAction::DoNothing
            },
            (AlarmPhase::Ringing, SequencerEvent::AlertFinished) => {
                self.phase = AlarmPhase::AwakeCountdown;
                self.remaining_minutes = self.awake_minutes;
                SequencerAction::AnnounceAwakePeriod
            },
            (AlarmPhase::AwakeCountdown, SequencerEvent::MinuteElapsed) => {
                if self.remaining_minutes > 0 {
                    let minutes = self.remaining_minutes;
                    self.remaining_minutes = self.remaining_minutes - 1;
                    SequencerAction::ReportMinutesRemaining { minutes }
                } else {
                    self.phase = AlarmPhase::Completed;
                    self.alarm_active = false;
                    SequencerAction::SoundReturnToSleep
                }
            },
            _ => SequencerAction::DoNothing,
        }
    }
}

/// What one elapsed minute does to a sequence, at the specification level:
/// exactly what `step` does on that event.
pub open spec fn spec_minute_step(s: Sequencer) -> Sequencer {
    if s.phase is AwakeCountdown {
        if s.remaining_minutes > 0 {
            Sequencer { remaining_minutes: (s.remaining_minutes - 1) as u32, ..s }
        } else {
            Sequencer { phase: AlarmPhase::Completed, alarm_active: false, ..s }
        }
    } else {
        s
    }
}

/// The state after `k` elapsed minutes.
pub open spec fn spec_after_minutes(s: Sequencer, k: nat) -> Sequencer
    decreases k,
{
    if k == 0 {
        s
    } else {
        spec_after_minutes(spec_minute_step(s), (k - 1) as nat)
    }
}

/// The countdown terminates: from the awake countdown, one elapsed minute per
/// remaining unit and one more complete the sequence and clear the flag, with
/// the configured awake time untouched.
pub proof fn lemma_countdown_completes(s: Sequencer)
    requires
        s.inv(),
        s.phase is AwakeCountdown,
    ensures
        ({
            let end = spec_after_minutes(s, (s.remaining_minutes + 1) as nat);
            end.phase is Completed && !end.alarm_active && end.awake_minutes == s.awake_minutes
        }),
    decreases s.remaining_minutes,
{
    let ms = spec_minute_step(s);
    if s.remaining_minutes == 0 {
        assert(spec_after_minutes(s, 1) == spec_after_minutes(ms, 0));
        assert(spec_after_minutes(ms, 0) == ms);
    } else {
        assert(ms.inv() && ms.phase is AwakeCountdown);
        lemma_countdown_completes(ms);
        assert(spec_after_minutes(s, (s.remaining_minutes + 1) as nat) == spec_after_minutes(
            ms,
            (ms.remaining_minutes + 1) as nat,
        ));
    }
}

} // verus!
