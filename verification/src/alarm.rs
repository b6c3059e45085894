//! The alarm store: alarm records, id assignment, removal and result marking.
use vstd::prelude::*;

verus! {

/// One wake-back-to-bed alarm definition.
pub struct Alarm {
    pub id: u32,
    pub bedtime: String,
    pub wake_time: String,
    pub awake_minutes: u32,
    pub enabled: bool,
    pub last_triggered: Option<String>,
    pub success: Option<bool>,
}

/// The mathematical value of an alarm: its strings as character sequences.
pub ghost struct AlarmView {
    pub id: u32,
    pub bedtime: Seq<char>,
    pub wake_time: Seq<char>,
    pub awake_minutes: u32,
    pub enabled: bool,
    pub last_triggered: Option<Seq<char>>,
    pub success: Option<bool>,
}

impl View for Alarm {
    type V = AlarmView;

    open spec fn view(&self) -> AlarmView {
        AlarmView {
            id: self.id,
            bedtime: self.bedtime@,
            wake_time: self.wake_time@,
            awake_minutes: self.awake_minutes,
            enabled: self.enabled,
            last_triggered: match self.last_triggered {
                Some(s) => Some(s@),
                None => None,
            },
            success: self.success,
        }
    }
}

impl DeepView for Alarm {
    type V = AlarmView;

    open spec fn deep_view(&self) -> AlarmView {
        self.view()
    }
}

impl Clone for Alarm {
    fn clone(&self) -> (r: Self)
        ensures
            r@ == self@,
    {
        Alarm {
            id: self.id,
            bedtime: self.bedtime.clone(),
            wake_time: self.wake_time.clone(),
            awake_minutes: self.awake_minutes,
            enabled: self.enabled,
            last_triggered: match &self.last_triggered {
                Some(s) => Some(s.clone()),
                None => None,
            },
            success: self.success,
        }
    }
}

/// The greatest id among the alarms, or 0 when there are none.
pub open spec fn max_id(s: Seq<AlarmView>) -> int
    decreases s.len(),
{
    if s.len() == 0 {
        0
    } else {
        let rest = max_id(s.drop_last());
        if s.last().id > rest {
            s.last().id as int
        } else {
            rest
        }
    }
}

/// The id the store hands to the next alarm: one past the greatest id in use,
/// or 1 for an empty collection.
pub open spec fn spec_next_id(s: Seq<AlarmView>) -> int {
    max_id(s) + 1
}

/// Every id in the collection is at most `max_id`, and `max_id` is one of the
/// ids whenever the collection is nonempty.
pub proof fn lemma_max_id_is_max(s: Seq<AlarmView>)
    ensures
        forall|i: int| 0 <= i < s.len() ==> s[i].id <= max_id(s),
        s.len() > 0 ==> exists|i: int| 0 <= i < s.len() && s[i].id == max_id(s),
        0 <= max_id(s),
    decreases s.len(),
{
    if s.len() > 0 {
        lemma_max_id_is_max(s.drop_last());
        assert forall|i: int| 0 <= i < s.len() implies s[i].id <= max_id(s) by {
            if i < s.len() - 1 {
                assert(s.drop_last()[i] == s[i]);
            }
        }
        if s.last().id > max_id(s.drop_last()) {
            assert(s[s.len() - 1].id == max_id(s));
        } else {
            let j = choose|j: int|
                0 <= j < s.drop_last().len() && s.drop_last()[j].id == max_id(s.drop_last());
            if s.drop_last().len() > 0 {
                assert(s[j].id == max_id(s));
            } else {
                assert(s.last().id == 0);
                assert(s[s.len() - 1].id == max_id(s));
            }
        }
    }
}

/// The next id does not depend on the order of the collection: two stores that
/// hold the same alarms in any order hand out the same next id.
pub proof fn lemma_next_id_order_independent(s1: Seq<AlarmView>, s2: Seq<AlarmView>)
    requires
        s1.to_multiset() == s2.to_multiset(),
    ensures
        spec_next_id(s1) == spec_next_id(s2),
{
    s1.to_multiset_ensures();
    s2.to_multiset_ensures();
    lemma_max_id_is_max(s1);
    lemma_max_id_is_max(s2);
    if s1.len() > 0 {
        let i = choose|i: int| 0 <= i < s1.len() && s1[i].id == max_id(s1);
        assert(s1.to_multiset().contains(s1[i]));
        assert(s2.contains(s1[i]));
    }
    if s2.len() > 0 {
        let i = choose|i: int| 0 <= i < s2.len() && s2[i].id == max_id(s2);
        assert(s2.to_multiset().contains(s2[i]));
        assert(s1.contains(s2[i]));
    }
    assert(s1.len() == s2.len()) by {
        assert(s1.to_multiset().len() == s2.to_multiset().len());
    }
}

/// The id for a new alarm: greatest existing id plus one, or 1 when the
/// collection is empty.
pub fn next_id(alarms: &Vec<Alarm>) -> (r: u32)
    requires
        forall|i: int| 0 <= i < alarms@.len() ==> (#[trigger] alarms@[i])@.id < u32::MAX,
    ensures
        r == spec_next_id(alarms.deep_view()),
        r >= 1,
{
    let ghost s = alarms.deep_view();
    let mut best: u32 = 0;
    let mut i: usize = 0;
    proof {
        assert(s.subrange(0, 0) =~= Seq::<AlarmView>::empty());
    }
    while i < alarms.len()
        invariant
            0 <= i <= alarms.len(),
            s == alarms.deep_view(),
            s.len() == alarms@.len(),
            forall|j: int| 0 <= j < s.len() ==> #[trigger] s[j] == alarms@[j]@,
            forall|j: int| 0 <= j < s.len() ==> (#[trigger] s[j]).id < u32::MAX,
            best == max_id(s.subrange(0, i as int)),
        decreases alarms.len() - i,
    {
        let id = alarms[i].id;
        proof {
            assert(s.subrange(0, i + 1).drop_last() =~= s.subrange(0, i as int));
            assert(s.subrange(0, i + 1).last() == s[i as int]);
        }
        if id > best {
            best = id;
        }
        i += 1;
    }
    proof {
        assert(s.subrange(0, s.len() as int) =~= s);
        lemma_max_id_is_max(s);
    }
    best + 1
}

/// Appends a freshly created alarm: enabled, never triggered, no recorded
/// outcome, under the store's next id, and returns that id.
pub fn add_alarm(alarms: &mut Vec<Alarm>, bedtime: &str, wake_time: &str, awake_minutes: u32) -> (id:
    u32)
    requires
        forall|i: int| 0 <= i < old(alarms)@.len() ==> (#[trigger] old(alarms)@[i])@.id
            < u32::MAX,
    ensures
        id == spec_next_id(old(alarms).deep_view()),
        final(alarms).deep_view() =~= old(alarms).deep_view().push(
            AlarmView {
                id,
                bedtime: bedtime@,
                wake_time: wake_time@,
                awake_minutes,
                enabled: true,
                last_triggered: None,
                success: None,
            },
        ),
{
    let id = next_id(alarms);
    let new_alarm = Alarm {
        id,
        bedtime: bedtime.to_owned(),
        wake_time: wake_time.to_owned(),
        awake_minutes,
        enabled: true,
        last_triggered: None,
        success: None,
    };
    alarms.push(new_alarm);
    id
}

/// Whether some alarm in the collection carries the given id.
pub open spec fn has_id(s: Seq<AlarmView>, id: u32) -> bool {
    exists|i: int| 0 <= i < s.len() && (#[trigger] s[i]).id == id
}

/// Removes the first alarm with the given id and reports whether one was
/// found; an absent id leaves the collection exactly as it was.
pub fn remove_alarm(alarms: &mut Vec<Alarm>, id: u32) -> (found: bool)
    ensures
        found == has_id(old(alarms).deep_view(), id),
        !found ==> final(alarms)@ == old(alarms)@,
        found ==> exists|j: int|
            {
                &&& 0 <= j < old(alarms)@.len()
                &&& (#[trigger] old(alarms).deep_view()[j]).id == id
                &&& forall|k: int| 0 <= k < j ==> old(alarms).deep_view()[k].id != id
                &&& final(alarms).deep_view() =~= old(alarms).deep_view().remove(j)
            },
{
    let ghost s = alarms.deep_view();
    let mut i: usize = 0;
    while i < alarms.len()
        invariant
            0 <= i <= alarms.len(),
            s == alarms.deep_view(),
            s.len() == alarms@.len(),
            forall|j: int| 0 <= j < s.len() ==> #[trigger] s[j] == alarms@[j]@,
            forall|k: int| 0 <= k < i ==> s[k].id != id,
            alarms@ == old(alarms)@,
        decreases alarms.len() - i,
    {
        if alarms[i].id == id {
            alarms.remove(i);
            proof {
                let j = i as int;
                assert(old(alarms).deep_view() =~= s);
                assert(old(alarms).deep_view()[j].id == id);
                assert(alarms.deep_view() =~= s.remove(j));
            }
            return true;
        }
        i += 1;
    }
    false
}

/// Marks the first alarm with the given id as triggered on `date` with the
/// given success flag, and reports whether one was found; an absent id leaves
/// the collection exactly as it was.
pub fn mark_alarm_result(alarms: &mut Vec<Alarm>, id: u32, date: &str, success: bool) -> (found:
    bool)
    ensures
        found == has_id(old(alarms).deep_view(), id),
        !found ==> final(alarms)@ == old(alarms)@,
        found ==> exists|j: int|
            {
                &&& 0 <= j < old(alarms)@.len()
                &&& (#[trigger] old(alarms).deep_view()[j]).id == id
                &&& forall|k: int| 0 <= k < j ==> old(alarms).deep_view()[k].id != id
                &&& final(alarms).deep_view() =~= old(alarms).deep_view().update(
                    j,
                    AlarmView {
                        last_triggered: Some(date@),
                        success: Some(success),
                        ..old(alarms).deep_view()[j]
                    },
                )
            },
{
    let ghost s = alarms.deep_view();
    let mut i: usize = 0;
    while i < alarms.len()
        invariant
            0 <= i <= alarms.len(),
            s == alarms.deep_view(),
            s.len() == alarms@.len(),
            forall|j: int| 0 <= j < s.len() ==> #[trigger] s[j] == alarms@[j]@,
            forall|k: int| 0 <= k < i ==> s[k].id != id,
            alarms@ == old(alarms)@,
        decreases alarms.len() - i,
    {
        if alarms[i].id == id {
            let mut a = alarms[i].clone();
            a.last_triggered = Some(date.to_owned());
            a.success = Some(success);
            alarms.set(i, a);
            proof {
                let j = i as int;
                assert(old(alarms).deep_view() =~= s);
                assert(old(alarms).deep_view()[j].id == id);
                assert(alarms.deep_view() =~= s.update(
                    j,
                    AlarmView {
                        last_triggered: Some(date@),
                        success: Some(success),
                        ..s[j]
                    },
                ));
            }
            return true;
        }
        i += 1;
    }
    false
}

} // verus!
