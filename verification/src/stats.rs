//! The effectiveness engine: folding the practice history into per-technique
//! statistics and ranking the techniques.
//!
//! Rates are integers in hundredths of a percent, so fifty percent is 5000;
//! this keeps every figure exact.
use vstd::prelude::*;

use vstd::arithmetic::div_mod::lemma_div_is_ordered;
use vstd::arithmetic::div_mod::lemma_div_multiples_vanish;

use crate::practice::PracticeRecord;
use crate::practice::RecordView;

verus! {

/// One recorded condition and its rate, in hundredths of a percent.
pub struct Condition {
    pub name: String,
    pub rate_centi: u32,
}

/// The mathematical value of a condition entry.
#[verifier::ext_equal]
pub ghost struct ConditionView {
    pub name: Seq<char>,
    pub rate_centi: int,
}

impl View for Condition {
    type V = ConditionView;

    open spec fn view(&self) -> ConditionView {
        ConditionView { name: self.name@, rate_centi: self.rate_centi as int }
    }
}

impl DeepView for Condition {
    type V = ConditionView;

    open spec fn deep_view(&self) -> ConditionView {
        self.view()
    }
}

/// Derived statistics for one technique; recomputed wholesale from the
/// history, never authoritative.
pub struct TechniqueStats {
    pub technique: String,
    pub attempts: u32,
    pub successes: u32,
    pub last_practiced: String,
    pub success_rate_centi: u32,
    pub optimal_conditions: Vec<Condition>,
}

/// The mathematical value of one technique's statistics.
#[verifier::ext_equal]
pub ghost struct StatsView {
    pub technique: Seq<char>,
    pub attempts: int,
    pub successes: int,
    pub last_practiced: Seq<char>,
    pub success_rate_centi: int,
    pub optimal_conditions: Seq<ConditionView>,
}

impl View for TechniqueStats {
    type V = StatsView;

    open spec fn view(&self) -> StatsView {
        StatsView {
            technique: self.technique@,
            attempts: self.attempts as int,
            successes: self.successes as int,
            last_practiced: self.last_practiced@,
            success_rate_centi: self.success_rate_centi as int,
            optimal_conditions: self.optimal_conditions.deep_view(),
        }
    }
}

impl DeepView for TechniqueStats {
    type V = StatsView;

    open spec fn deep_view(&self) -> StatsView {
        self.view()
    }
}

/// The success rate in hundredths of a percent: successes over attempts,
/// scaled to ten thousand, and 0 when there are no attempts.
pub open spec fn spec_rate_centi(successes: int, attempts: int) -> int {
    if attempts == 0 {
        0
    } else {
        successes * 10000 / attempts
    }
}

/// The success rate in hundredths of a percent.
pub fn rate_centi(successes: u32, attempts: u32) -> (r: u32)
    requires
        successes <= attempts,
    ensures
        r == spec_rate_centi(successes as int, attempts as int),
        r <= 10000,
{
    if attempts == 0 {
        0
    } else {
        proof {
            lemma_div_is_ordered(
                successes as int * 10000,
                attempts as int * 10000,
                attempts as int,
            );
            lemma_div_multiples_vanish(10000, attempts as int);
        }
        (((successes as u64) * 10000) / (attempts as u64)) as u32
    }
}

/// The position of the first entry for technique `t`, or -1 when none exists.
pub open spec fn stats_index_of(sts: Seq<StatsView>, t: Seq<char>) -> int
    decreases sts.len(),
{
    if sts.len() == 0 {
        -1
    } else if sts[0].technique == t {
        0
    } else {
        let rest = stats_index_of(sts.drop_first(), t);
        if rest < 0 {
            -1
        } else {
            rest + 1
        }
    }
}

/// `stats_index_of` finds exactly the first entry of a technique, or reports
/// that there is none.
pub proof fn lemma_stats_index_char(sts: Seq<StatsView>, t: Seq<char>)
    ensures
        -1 <= stats_index_of(sts, t) < sts.len(),
        stats_index_of(sts, t) == -1 ==> forall|j: int|
            0 <= j < sts.len() ==> (#[trigger] sts[j]).technique != t,
        stats_index_of(sts, t) >= 0 ==> sts[stats_index_of(sts, t)].technique == t && forall|
            j: int,
        |
            0 <= j < stats_index_of(sts, t) ==> (#[trigger] sts[j]).technique != t,
    decreases sts.len(),
{
    if sts.len() > 0 && sts[0].technique != t {
        lemma_stats_index_char(sts.drop_first(), t);
        let rest = stats_index_of(sts.drop_first(), t);
        if rest == -1 {
            assert forall|j: int| 0 <= j < sts.len() implies (#[trigger] sts[j]).technique
                != t by {
                if j > 0 {
                    assert(sts.drop_first()[j - 1] == sts[j]);
                }
            }
        } else {
            assert(sts.drop_first()[rest] == sts[rest + 1]);
            assert forall|j: int| 0 <= j < stats_index_of(sts, t) implies (
            #[trigger] sts[j]).technique != t by {
                if j > 0 {
                    assert(sts.drop_first()[j - 1] == sts[j]);
                }
            }
        }
    }
}

/// One record folded into the statistics: a new technique opens an entry with
/// one attempt; a known one counts the attempt, counts a success for any
/// lucid outcome, stamps the record's date as last practiced, and refreshes
/// the rate.
pub open spec fn spec_merge(sts: Seq<StatsView>, r: RecordView) -> Seq<StatsView> {
    let i = stats_index_of(sts, r.technique);
    if i < 0 {
        let successes: int = if r.outcome.spec_is_success() {
            1
        } else {
            0
        };
        sts.push(
            StatsView {
                technique: r.technique,
                attempts: 1,
                successes,
                last_practiced: r.date,
                success_rate_centi: spec_rate_centi(successes, 1),
                optimal_conditions: Seq::empty(),
            },
        )
    } else {
        let attempts = sts[i].attempts + 1;
        let successes = sts[i].successes + if r.outcome.spec_is_success() {
            1int
        } else {
            0int
        };
        sts.update(
            i,
            StatsView {
                technique: sts[i].technique,
                attempts,
                successes,
                last_practiced: r.date,
                success_rate_centi: spec_rate_centi(successes, attempts),
                optimal_conditions: sts[i].optimal_conditions,
            },
        )
    }
}

/// The statistics of a whole history: every record folded in, in order.
pub open spec fn spec_compute_stats(h: Seq<RecordView>) -> Seq<StatsView>
    decreases h.len(),
{
    if h.len() == 0 {
        Seq::empty()
    } else {
        spec_merge(spec_compute_stats(h.drop_last()), h.last())
    }
}

/// Every entry of the folded statistics counts at least one attempt, never
/// more successes than attempts, no more attempts than there are records,
/// and carries exactly the rate its counts give.
pub proof fn lemma_stats_bounds(h: Seq<RecordView>)
    ensures
        forall|j: int|
            0 <= j < spec_compute_stats(h).len() ==> {
                let sv = #[trigger] spec_compute_stats(h)[j];
                1 <= sv.attempts <= h.len() && 0 <= sv.successes <= sv.attempts
                    && sv.success_rate_centi == spec_rate_centi(sv.successes, sv.attempts)
            },
    decreases h.len(),
{
    if h.len() > 0 {
        lemma_stats_bounds(h.drop_last());
        let prev = spec_compute_stats(h.drop_last());
        lemma_stats_index_char(prev, h.last().technique);
    }
}

/// How many records of the history belong to technique `t`.
pub open spec fn spec_attempts_of(h: Seq<RecordView>, t: Seq<char>) -> int
    decreases h.len(),
{
    if h.len() == 0 {
        0
    } else {
        spec_attempts_of(h.drop_last(), t) + if h.last().technique == t {
            1int
        } else {
            0int
        }
    }
}

/// How many of technique `t`'s records count as successes.
pub open spec fn spec_successes_of(h: Seq<RecordView>, t: Seq<char>) -> int
    decreases h.len(),
{
    if h.len() == 0 {
        0
    } else {
        spec_successes_of(h.drop_last(), t) + if h.last().technique == t
            && h.last().outcome.spec_is_success() {
            1int
        } else {
            0int
        }
    }
}

/// No technique owns two entries.
pub open spec fn distinct_techniques(sts: Seq<StatsView>) -> bool {
    forall|i: int, j: int|
        0 <= i < j < sts.len() ==> (#[trigger] sts[i]).technique != (#[trigger] sts[j]).technique
}

/// The fold counts exactly: every technique has at most one entry, an entry
/// exists exactly for the techniques that occur in the history, and each
/// entry's attempts and successes are precisely the number of that
/// technique's records and of its lucid outcomes among them. `Failed` and
/// `Unattempted` records never count as successes.
pub proof fn lemma_stats_counts(h: Seq<RecordView>)
    ensures
        distinct_techniques(spec_compute_stats(h)),
        forall|j: int|
            0 <= j < spec_compute_stats(h).len() ==> {
                let sv = #[trigger] spec_compute_stats(h)[j];
                sv.attempts == spec_attempts_of(h, sv.technique) && sv.successes
                    == spec_successes_of(h, sv.technique)
            },
        forall|t: Seq<char>|
            (#[trigger] spec_attempts_of(h, t)) > 0 <==> stats_index_of(spec_compute_stats(h), t)
                >= 0,
    decreases h.len(),
{
    if h.len() == 0 {
        assert forall|t: Seq<char>| #![auto] stats_index_of(spec_compute_stats(h), t) == -1 by {}
    } else {
        let hp = h.drop_last();
        let r = h.last();
        lemma_stats_counts(hp);
        let prev = spec_compute_stats(hp);
        let cur = spec_compute_stats(h);
        let i = stats_index_of(prev, r.technique);
        lemma_stats_index_char(prev, r.technique);
        assert(cur == spec_merge(prev, r));
        if i < 0 {
            // the record opens a new entry; no earlier record had its technique.
            lemma_counts_bounds(hp, r.technique);
            assert(spec_attempts_of(hp, r.technique) == 0);
            assert(cur =~= prev.push(cur.last()));
            assert forall|j: int| 0 <= j < cur.len() implies {
                let sv = #[trigger] cur[j];
                sv.attempts == spec_attempts_of(h, sv.technique) && sv.successes
                    == spec_successes_of(h, sv.technique)
            } by {
                if j < prev.len() {
                    assert(cur[j] == prev[j]);
                    assert(prev[j].technique != r.technique);
                } else {
                    assert(cur[j].technique == r.technique);
                }
            }
            assert forall|t: Seq<char>|
                (#[trigger] spec_attempts_of(h, t)) > 0 <==> stats_index_of(cur, t) >= 0 by {
                lemma_stats_index_char(cur, t);
                lemma_stats_index_char(prev, t);
                if t != r.technique {
                    assert(spec_attempts_of(h, t) == spec_attempts_of(hp, t));
                } else {
                    assert(spec_attempts_of(h, t) == spec_attempts_of(hp, t) + 1);
                }
                if t == r.technique {
                    assert(cur[cur.len() - 1].technique == t);
                    if stats_index_of(cur, t) == -1 {
                        assert(false);
                    }
                } else {
                    if spec_attempts_of(h, t) > 0 {
                        let k = stats_index_of(prev, t);
                        assert(k >= 0);
                        assert(cur[k] == prev[k]);
                        if stats_index_of(cur, t) == -1 {
                            assert(false);
                        }
                    } else {
                        if stats_index_of(cur, t) >= 0 {
                            let k = stats_index_of(cur, t);
                            if k < prev.len() {
                                assert(prev[k] == cur[k]);
                                assert(stats_index_of(prev, t) >= 0);
                            }
                            assert(false);
                        }
                    }
                }
            }
        } else {
            // the record joins its technique's one existing entry.
            assert(prev[i].technique == r.technique);
            assert(cur =~= prev.update(i, cur[i]));
            assert forall|j: int| 0 <= j < cur.len() implies {
                let sv = #[trigger] cur[j];
                sv.attempts == spec_attempts_of(h, sv.technique) && sv.successes
                    == spec_successes_of(h, sv.technique)
            } by {
                if j != i {
                    assert(cur[j] == prev[j]);
                    assert(prev[j].technique != r.technique);
                } else {
                    assert(cur[i].technique == r.technique);
                    assert(cur[i].attempts == prev[i].attempts + 1);
                }
            }
            assert forall|t: Seq<char>|
                (#[trigger] spec_attempts_of(h, t)) > 0 <==> stats_index_of(cur, t) >= 0 by {
                lemma_stats_index_char(cur, t);
                lemma_stats_index_char(prev, t);
                if t != r.technique {
                    assert(spec_attempts_of(h, t) == spec_attempts_of(hp, t));
                } else {
                    assert(spec_attempts_of(h, t) == spec_attempts_of(hp, t) + 1);
                }
                if spec_attempts_of(h, t) > 0 {
                    if t == r.technique {
                        assert(cur[i].technique == t);
                    } else {
                        let k = stats_index_of(prev, t);
                        assert(k >= 0);
                        assert(prev[k].technique == t);
                        assert(k != i);
                        assert(cur[k] == prev[k]);
                    }
                    if stats_index_of(cur, t) == -1 {
                        assert(false);
                    }
                } else {
                    assert(t != r.technique);
                    if stats_index_of(cur, t) >= 0 {
                        let k = stats_index_of(cur, t);
                        assert(cur[k].technique == t);
                        assert(k != i);
                        assert(prev[k] == cur[k]);
                        assert(stats_index_of(prev, t) >= 0);
                        assert(false);
                    }
                }
            }
        }
    }
}

/// A technique never has more successes than records.
proof fn lemma_counts_bounds(h: Seq<RecordView>, t: Seq<char>)
    ensures
        0 <= spec_successes_of(h, t) <= spec_attempts_of(h, t),
    decreases h.len(),
{
    if h.len() > 0 {
        lemma_counts_bounds(h.drop_last(), t);
    }
}

/// Clones a condition list, value for value.
fn clone_conditions(v: &Vec<Condition>) -> (r: Vec<Condition>)
    ensures
        r.deep_view() == v.deep_view(),
{
    let mut r: Vec<Condition> = Vec::new();
    let mut i: usize = 0;
    while i < v.len()
        invariant
            i <= v@.len(),
            r@.len() == i,
            forall|q: int| 0 <= q < i ==> #[trigger] r@[q]@ =~~= v@[q]@,
        decreases v.len() - i,
    {
        let name = v[i].name.clone();
        let rate_centi = v[i].rate_centi;
        r.push(Condition { name, rate_centi });
        i += 1;
    }
    proof {
        assert forall|q: int| 0 <= q < v@.len() implies #[trigger] r.deep_view()[q] =~~= v.deep_view()[q] by {
            assert(r@[q]@ =~~= v@[q]@);
        }
        assert(r.deep_view() =~~= v.deep_view());
    }
    r
}

impl Clone for TechniqueStats {
    fn clone(&self) -> (r: Self)
        ensures
            r@ == self@,
    {
        TechniqueStats {
            technique: self.technique.clone(),
            attempts: self.attempts,
            successes: self.successes,
            last_practiced: self.last_practiced.clone(),
            success_rate_centi: self.success_rate_centi,
            optimal_conditions: clone_conditions(&self.optimal_conditions),
        }
    }
}

/// Groups the history by technique and derives each technique's statistics,
/// exactly as the fold specification says: attempts and successes counted,
/// the date of the last record visited kept, the rate refreshed at each step.
pub fn compute_stats(history: &Vec<PracticeRecord>) -> (r: Vec<TechniqueStats>)
    requires
        history@.len() <= u32::MAX,
    ensures
        r.deep_view() == spec_compute_stats(history.deep_view()),
{
    let ghost h = history.deep_view();
    let mut stats: Vec<TechniqueStats> = Vec::new();
    let mut k: usize = 0;
    proof {
        assert(h.subrange(0, 0) =~= Seq::<RecordView>::empty());
        assert(stats.deep_view() =~= Seq::<StatsView>::empty());
    }
    while k < history.len()
        invariant
            k <= history.len(),
            h == history.deep_view(),
            h.len() == history@.len() <= u32::MAX,
            stats.deep_view() == spec_compute_stats(h.subrange(0, k as int)),
            forall|j: int|
                0 <= j < stats.deep_view().len() ==> {
                    let sv = #[trigger] stats.deep_view()[j];
                    1 <= sv.attempts <= k && 0 <= sv.successes <= sv.attempts
                },
        decreases history.len() - k,
    {
        let ghost sts = stats.deep_view();
        let rec = &history[k];
        proof {
            assert(rec@ == h[k as int]);
        }
        let n = stats.len();
        let mut pos: usize = n;
        let mut idx: usize = 0;
        while idx < n
            invariant
                n == stats@.len(),
                sts == stats.deep_view(),
                sts.len() == n,
                idx <= n,
                pos <= n,
                pos == n ==> forall|t: int|
                    0 <= t < idx ==> (#[trigger] sts[t]).technique != rec@.technique,
                pos < n ==> sts[pos as int].technique == rec@.technique && forall|t: int|
                    0 <= t < pos ==> (#[trigger] sts[t]).technique != rec@.technique,
            decreases n - idx,
        {
            if pos == n && stats[idx].technique == rec.technique {
                pos = idx;
            }
            idx += 1;
        }
        proof {
            lemma_stats_index_char(sts, rec@.technique);
            if pos == n {
                assert(stats_index_of(sts, rec@.technique) == -1);
            } else {
                assert(stats_index_of(sts, rec@.technique) == pos);
            }
        }
        if pos == n {
            let successes: u32 = if rec.outcome.is_success() {
                1
            } else {
                0
            };
            let st = TechniqueStats {
                technique: rec.technique.clone(),
                attempts: 1,
                successes,
                last_practiced: rec.date.clone(),
                success_rate_centi: rate_centi(successes, 1),
                optimal_conditions: Vec::new(),
            };
            stats.push(st);
            proof {
                assert(stats.deep_view() =~~= spec_merge(sts, h[k as int]));
            }
        } else {
            let mut st = stats[pos].clone();
            st.attempts = st.attempts + 1;
            if rec.outcome.is_success() {
                st.successes = st.successes + 1;
            }
            st.last_practiced = rec.date.clone();
            st.success_rate_centi = rate_centi(st.successes, st.attempts);
            stats.set(pos, st);
            proof {
                assert(stats.deep_view() =~~= spec_merge(sts, h[k as int]));
            }
        }
        proof {
            assert(h.subrange(0, k + 1).drop_last() =~= h.subrange(0, k as int));
            assert(h.subrange(0, k + 1).last() == h[k as int]);
        }
        k += 1;
    }
    proof {
        assert(h.subrange(0, h.len() as int) =~= h);
    }
    stats
}

/// The normalized value of one condition: scaled by one hundred over the
/// technique's successes, 0 when there are no successes (never a division by
/// zero), and capped at the greatest representable rate.
pub open spec fn spec_normalized(v: int, successes: int) -> int {
    if successes == 0 {
        0
    } else if v * 100 / successes > u32::MAX {
        u32::MAX as int
    } else {
        v * 100 / successes
    }
}

/// Normalizes every condition of every technique. A technique without
/// successes gets 0 for each of its conditions rather than a division by
/// zero; everything else about each entry is kept.
pub fn normalize_conditions(stats: &mut Vec<TechniqueStats>)
    ensures
        final(stats)@.len() == old(stats)@.len(),
        forall|i: int|
            0 <= i < old(stats)@.len() ==> {
                let o = #[trigger] old(stats).deep_view()[i];
                let nw = final(stats).deep_view()[i];
                nw.technique == o.technique && nw.attempts == o.attempts && nw.successes
                    == o.successes && nw.last_practiced == o.last_practiced
                    && nw.success_rate_centi == o.success_rate_centi
                    && nw.optimal_conditions.len() == o.optimal_conditions.len() && forall|j: int|
                    0 <= j < o.optimal_conditions.len() ==> {
                        let oc = #[trigger] o.optimal_conditions[j];
                        let nc = nw.optimal_conditions[j];
                        nc.name == oc.name && nc.rate_centi == spec_normalized(
                            oc.rate_centi,
                            o.successes,
                        )
                    }
            },
{
    let ghost before = stats.deep_view();
    let mut out: Vec<TechniqueStats> = Vec::new();
    let mut i: usize = 0;
    while i < stats.len()
        invariant
            i <= stats.len(),
            before == stats.deep_view(),
            before.len() == stats@.len(),
            out@.len() == i,
            forall|p: int|
                0 <= p < i ==> {
                    let o = #[trigger] before[p];
                    let nw = out.deep_view()[p];
                    nw.technique == o.technique && nw.attempts == o.attempts && nw.successes
                        == o.successes && nw.last_practiced == o.last_practiced
                        && nw.success_rate_centi == o.success_rate_centi
                        && nw.optimal_conditions.len() == o.optimal_conditions.len() && forall|
                        j: int,
                    |
                        0 <= j < o.optimal_conditions.len() ==> {
                            let oc = #[trigger] o.optimal_conditions[j];
                            let nc = nw.optimal_conditions[j];
                            nc.name == oc.name && nc.rate_centi == spec_normalized(
                                oc.rate_centi,
                                o.successes,
                            )
                        }
                },
        decreases stats.len() - i,
    {
        let st = &stats[i];
        let successes = st.successes;
        let mut conds: Vec<Condition> = Vec::new();
        let mut j: usize = 0;
        while j < st.optimal_conditions.len()
            invariant
                j <= st.optimal_conditions.len(),
                conds@.len() == j,
                forall|q: int|
                    0 <= q < j ==> {
                        let oc = #[trigger] st.optimal_conditions.deep_view()[q];
                        let nc = conds.deep_view()[q];
                        nc.name == oc.name && nc.rate_centi == spec_normalized(
                            oc.rate_centi,
                            successes as int,
                        )
                    },
            decreases st.optimal_conditions.len() - j,
        {
            let c = &st.optimal_conditions[j];
            let value: u32 = if successes == 0 {
                0
            } else {
                let scaled: u64 = (c.rate_centi as u64) * 100 / (successes as u64);
                if scaled > 0xFFFF_FFFF {
                    u32::MAX
                } else {
                    scaled as u32
                }
            };
            conds.push(Condition { name: c.name.clone(), rate_centi: value });
            j += 1;
        }
        out.push(
            TechniqueStats {
                technique: st.technique.clone(),
                attempts: st.attempts,
                successes: st.successes,
                last_practiced: st.last_practiced.clone(),
                success_rate_centi: st.success_rate_centi,
                optimal_conditions: conds,
            },
        );
        i += 1;
    }
    *stats = out;
}

/// The ranked comparison: the position of the most effective technique (the
/// earliest among equal rates) and of the least effective (the latest among
/// equal rates), exactly as a stable sort by descending rate would put them
/// first and last; nothing for an empty table.
pub fn rank(stats: &Vec<TechniqueStats>) -> (r: Option<(usize, usize)>)
    ensures
        match r {
            None => stats@.len() == 0,
            Some((b, w)) => {
                let sts = stats.deep_view();
                &&& stats@.len() > 0
                &&& b < stats@.len()
                &&& w < stats@.len()
                &&& forall|i: int|
                    0 <= i < sts.len() ==> (#[trigger] sts[i]).success_rate_centi <= sts[
                        b as int
                    ].success_rate_centi
                &&& forall|i: int|
                    0 <= i < b ==> (#[trigger] sts[i]).success_rate_centi < sts[
                        b as int
                    ].success_rate_centi
                &&& forall|i: int|
                    0 <= i < sts.len() ==> sts[w as int].success_rate_centi <= (
                    #[trigger] sts[i]).success_rate_centi
                &&& forall|i: int|
                    w < i < sts.len() ==> sts[w as int].success_rate_centi < (
                    #[trigger] sts[i]).success_rate_centi
            },
        },
{
    if stats.len() == 0 {
        return None;
    }
    let ghost sts = stats.deep_view();
    let mut best: usize = 0;
    let mut worst: usize = 0;
    let mut i: usize = 1;
    while i < stats.len()
        invariant
            sts == stats.deep_view(),
            sts.len() == stats@.len(),
            1 <= i <= stats@.len(),
            best < i,
            worst < i,
            forall|p: int|
                0 <= p < i ==> (#[trigger] sts[p]).success_rate_centi <= sts[
                    best as int
                ].success_rate_centi,
            forall|p: int|
                0 <= p < best ==> (#[trigger] sts[p]).success_rate_centi < sts[
                    best as int
                ].success_rate_centi,
            forall|p: int|
                0 <= p < i ==> sts[worst as int].success_rate_centi <= (
                #[trigger] sts[p]).success_rate_centi,
            forall|p: int|
                worst < p < i ==> sts[worst as int].success_rate_centi < (
                #[trigger] sts[p]).success_rate_centi,
        decreases stats.len() - i,
    {
        if stats[i].success_rate_centi > stats[best].success_rate_centi {
            best = i;
        }
        if stats[i].success_rate_centi <= stats[worst].success_rate_centi {
            worst = i;
        }
        i += 1;
    }
    Some((best, worst))
}

/// The advice the report prints for one technique, by its success rate: keep
/// it as the primary technique above seventy percent, combine it above forty,
/// otherwise change the approach.
pub fn recommendation(success_rate_centi: u32) -> (r: &'static str)
    ensures
        success_rate_centi > 7000 ==> r@ == "Continue using as primary technique"@,
        4000 < success_rate_centi <= 7000 ==> r@ == "Combine with another technique"@,
        success_rate_centi <= 4000 ==> r@ == "Try modifying approach or switch techniques"@,
{
    if success_rate_centi > 7000 {
        "Continue using as primary technique"
    } else if success_rate_centi > 4000 {
        "Combine with another technique"
    } else {
        "Try modifying approach or switch techniques"
    }
}

} // verus!
