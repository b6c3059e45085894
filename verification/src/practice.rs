//! The append-only practice history: one record per technique attempt.
use vstd::prelude::*;

verus! {

/// The outcome of one practice attempt. The control level is meaningful only
/// for a fully lucid outcome.
#[derive(Clone, Copy, PartialEq, Eq, Structural, Debug)]
pub enum TechniqueOutcome {
    Unattempted,
    Failed,
    PartialLucid,
    FullLucid { control_level: u8 },
}

impl TechniqueOutcome {
    /// Whether this outcome counts as a success: any lucidity, partial or
    /// full; a failed or unattempted practice never does.
    pub open spec fn spec_is_success(self) -> bool {
        self is PartialLucid || self is FullLucid
    }

    /// Whether this outcome counts as a success.
    pub fn is_success(self) -> (r: bool)
        ensures
            r == self.spec_is_success(),
    {
        match self {
            TechniqueOutcome::PartialLucid => true,
            TechniqueOutcome::FullLucid { .. } => true,
            _ => false,
        }
    }
}

/// A control level clamped into the meaningful range 1..=5.
pub open spec fn spec_clamped_control(raw: u8) -> u8 {
    if raw < 1 {
        1
    } else if raw > 5 {
        5
    } else {
        raw
    }
}

/// The outcome a practice menu choice selects: "1" is failed, "2" partial
/// lucidity, "3" full lucidity at the given control level clamped into
/// 1..=5, and anything else counts as unattempted.
pub fn outcome_from_choice(choice: &str, control_level: u8) -> (o: TechniqueOutcome)
    ensures
        choice@ =~= seq!['1'] ==> o is Failed,
        choice@ =~= seq!['2'] ==> o is PartialLucid,
        choice@ =~= seq!['3'] ==> o == (TechniqueOutcome::FullLucid {
            control_level: spec_clamped_control(control_level),
        }),
        !(choice@ =~= seq!['1'] || choice@ =~= seq!['2'] || choice@ =~= seq!['3'])
            ==> o is Unattempted,
{
    if choice.unicode_len() != 1 {
        return TechniqueOutcome::Unattempted;
    }
    let c = choice.get_char(0);
    if c == '1' {
        TechniqueOutcome::Failed
    } else if c == '2' {
        TechniqueOutcome::PartialLucid
    } else if c == '3' {
        let clamped: u8 = if control_level < 1 {
            1
        } else if control_level > 5 {
            5
        } else {
            control_level
        };
        TechniqueOutcome::FullLucid { control_level: clamped }
    } else {
        TechniqueOutcome::Unattempted
    }
}

/// One recorded practice attempt; never mutated after it is appended.
pub struct PracticeRecord {
    pub technique: String,
    pub date: String,
    pub duration_minutes: u32,
    pub outcome: TechniqueOutcome,
}

/// The mathematical value of a practice record.
pub ghost struct RecordView {
    pub technique: Seq<char>,
    pub date: Seq<char>,
    pub duration_minutes: u32,
    pub outcome: TechniqueOutcome,
}

impl View for PracticeRecord {
    type V = RecordView;

    open spec fn view(&self) -> RecordView {
        RecordView {
            technique: self.technique@,
            date: self.date@,
            duration_minutes: self.duration_minutes,
            outcome: self.outcome,
        }
    }
}

impl DeepView for PracticeRecord {
    type V = RecordView;

    open spec fn deep_view(&self) -> RecordView {
        self.view()
    }
}

impl Clone for PracticeRecord {
    fn clone(&self) -> (r: Self)
        ensures
            r@ == self@,
    {
        PracticeRecord {
            technique: self.technique.clone(),
            date: self.date.clone(),
            duration_minutes: self.duration_minutes,
            outcome: self.outcome,
        }
    }
}

/// Appends one attempt, stamped with the given date, to the history; the
/// records already present are untouched.
pub fn append_record(
    history: &mut Vec<PracticeRecord>,
    technique: &str,
    outcome: TechniqueOutcome,
    duration_minutes: u32,
    date: &str,
) -> (unit: ())
    ensures
        final(history).deep_view() =~= old(history).deep_view().push(
            RecordView { technique: technique@, date: date@, duration_minutes, outcome },
        ),
{
    let record = PracticeRecord {
        technique: technique.to_owned(),
        date: date.to_owned(),
        duration_minutes,
        outcome,
    };
    history.push(record);
}

/// Appends one attempt stamped with today's date, read from the clock; the
/// records already present are untouched, and every other field of the new
/// record is exactly what was given.
pub fn append_record_today(
    history: &mut Vec<PracticeRecord>,
    technique: &str,
    outcome: TechniqueOutcome,
    duration_minutes: u32,
) -> (unit: ())
    ensures
        exists|d: Seq<char>|
            #![auto]
            d.len() == 10 && final(history).deep_view() == old(history).deep_view().push(
                RecordView { technique: technique@, date: d, duration_minutes, outcome },
            ),
{
    let date = crate::clock::today_stamp();
    append_record(history, technique, outcome, duration_minutes, date.as_str());
    proof {
        assert(history.deep_view() =~= old(history).deep_view().push(
            RecordView { technique: technique@, date: date@, duration_minutes, outcome },
        ));
    }
}

} // verus!
