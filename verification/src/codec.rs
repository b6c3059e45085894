//! The document codec of the record stores.
//!
//! A stored document is a single text line built from fixed-width decimal
//! numbers and length-prefixed strings: every number takes exactly ten digits,
//! a string is its length followed by its characters, and a collection is its
//! count followed by its elements. Parsing consumes the whole document and is
//! the exact inverse of encoding, which the round-trip lemmas state.
use vstd::prelude::*;

use vstd::arithmetic::div_mod::lemma_fundamental_div_mod;

use crate::digits::digit_char;
use crate::alarm::Alarm;
use crate::alarm::AlarmView;
use crate::practice::PracticeRecord;
use crate::practice::RecordView;
use crate::practice::TechniqueOutcome;
use crate::digits::digit_str;
use crate::digits::digit_val;
use crate::digits::is_digit;

verus! {

/// Ten to the given power.
pub open spec fn pow10(w: nat) -> int
    decreases w,
{
    if w == 0 {
        1
    } else {
        10 * pow10((w - 1) as nat)
    }
}

/// Width of every encoded number, in digits: enough for any `u32`.
pub const NUM_WIDTH: u32 = 10;

proof fn lemma_pow10_10()
    ensures
        pow10(10) == 10000000000int,
{
    reveal_with_fuel(pow10, 11);
}

proof fn lemma_pow10_increases(w1: nat, w2: nat)
    requires
        w1 <= w2,
    ensures
        0 < pow10(w1) <= pow10(w2),
    decreases w2,
{
    if w2 > 0 {
        if w1 == w2 {
            lemma_pow10_increases(0, (w2 - 1) as nat);
        } else {
            lemma_pow10_increases(w1, (w2 - 1) as nat);
        }
    }
}

/// Whether every character of `s` is a decimal digit.
pub open spec fn all_digits(s: Seq<char>) -> bool {
    forall|i: int| 0 <= i < s.len() ==> is_digit(#[trigger] s[i])
}

/// The number a big-endian digit string denotes.
pub open spec fn digits_val(s: Seq<char>) -> int
    decreases s.len(),
{
    if s.len() == 0 {
        0
    } else {
        digits_val(s.drop_last()) * 10 + digit_val(s.last())
    }
}

/// The fixed-width big-endian decimal encoding of `n`, `w` digits wide.
pub open spec fn enc_nat(n: int, w: nat) -> Seq<char>
    decreases w,
{
    if w == 0 {
        Seq::empty()
    } else {
        enc_nat(n / 10, (w - 1) as nat).push(digit_char(n % 10))
    }
}

/// The ten-digit encoding of a `u32`.
pub open spec fn enc_u32(n: u32) -> Seq<char> {
    enc_nat(n as int, NUM_WIDTH as nat)
}

/// The encoding of `n` is `w` digits whose value reads back as `n`.
pub proof fn lemma_enc_nat(n: int, w: nat)
    requires
        0 <= n < pow10(w),
    ensures
        enc_nat(n, w).len() == w,
        all_digits(enc_nat(n, w)),
        digits_val(enc_nat(n, w)) == n,
    decreases w,
{
    if w == 0 {
    } else {
        lemma_fundamental_div_mod(n, 10);
        assert(0 <= n % 10 < 10);
        if n / 10 < 0 {
            assert(n < 0);
        }
        if n / 10 >= pow10((w - 1) as nat) {
            assert(10 * (n / 10) >= 10 * pow10((w - 1) as nat));
            assert(n >= pow10(w));
        }
        lemma_enc_nat(n / 10, (w - 1) as nat);
        let inner = enc_nat(n / 10, (w - 1) as nat);
        let whole = enc_nat(n, w);
        assert(whole == inner.push(digit_char(n % 10)));
        assert(whole.drop_last() =~= inner);
        assert(whole.last() == digit_char(n % 10));
        crate::digits::lemma_digit_char_val(n % 10);
        assert(forall|i: int|
            0 <= i < whole.len() ==> is_digit(#[trigger] whole[i])) by {
            assert(forall|i: int|
                0 <= i < inner.len() ==> whole[i] == #[trigger] inner[i]);
        }
    }
}

/// What a parse of a ten-digit number starting at `i` yields: the number and
/// the position after it, or nothing when the digits are missing, malformed,
/// or denote a value too large for a `u32`.
pub open spec fn spec_parse_u32(s: Seq<char>, i: int) -> Option<(u32, int)> {
    if 0 <= i && i + NUM_WIDTH <= s.len() && all_digits(s.subrange(i, i + NUM_WIDTH))
        && digits_val(s.subrange(i, i + NUM_WIDTH)) <= u32::MAX {
        Some((digits_val(s.subrange(i, i + NUM_WIDTH)) as u32, i + NUM_WIDTH))
    } else {
        None
    }
}

/// An encoded `u32` standing at `i` parses back to itself.
pub proof fn lemma_parse_enc_u32(s: Seq<char>, i: int, n: u32)
    requires
        0 <= i,
        i + NUM_WIDTH <= s.len(),
        s.subrange(i, i + NUM_WIDTH) =~= enc_u32(n),
    ensures
        spec_parse_u32(s, i) == Some((n, i + NUM_WIDTH)),
{
    lemma_pow10_10();
    lemma_enc_nat(n as int, NUM_WIDTH as nat);
}

/// Appends the ten-digit encoding of `n` to `out`.
pub fn push_u32(out: &mut String, n: u32)
    ensures
        final(out)@ =~= old(out)@ + enc_u32(n),
{
    proof {
        lemma_pow10_10();
    }
    push_nat(out, n, NUM_WIDTH);
}

/// Appends the `w`-digit encoding of `n` to `out`.
pub(crate) fn push_nat(out: &mut String, n: u32, w: u32)
    requires
        w <= NUM_WIDTH,
        n < pow10(w as nat),
    ensures
        final(out)@ =~= old(out)@ + enc_nat(n as int, w as nat),
    decreases w,
{
    if w == 0 {
        return ;
    }
    proof {
        lemma_fundamental_div_mod(n as int, 10);
        if n as int / 10 >= pow10((w - 1) as nat) {
            assert(10 * (n as int / 10) >= 10 * pow10((w - 1) as nat));
        }
    }
    push_nat(out, n / 10, w - 1);
    let d = n % 10;
    out.append(digit_str(d));
    proof {
        assert(final(out)@ =~= old(out)@ + enc_nat(n as int / 10, (w - 1) as nat) + seq![
            digit_char(n as int % 10),
        ]);
        assert(enc_nat(n as int, w as nat) =~= enc_nat(n as int / 10, (w - 1) as nat) + seq![
            digit_char(n as int % 10),
        ]);
    }
}

/// Parses the ten-digit number standing at `i`, exactly as the specification
/// says.
pub fn parse_u32_at(s: &str, i: usize) -> (r: Option<(u32, usize)>)
    ensures
        match r {
            Some((n, j)) => spec_parse_u32(s@, i as int) == Some((n, j as int)),
            None => spec_parse_u32(s@, i as int) is None,
        },
{
    let len = s.unicode_len();
    if len < 10 || i > len - 10 {
        return None;
    }
    let ghost whole = s@.subrange(i as int, i as int + 10);
    let mut acc: u64 = 0;
    let mut k: usize = 0;
    proof {
        lemma_pow10_10();
        assert(s@.subrange(i as int, i as int) =~= Seq::<char>::empty());
    }
    while k < 10
        invariant
            len == s@.len(),
            i + 10 <= s@.len(),
            k <= 10,
            whole == s@.subrange(i as int, i as int + 10),
            all_digits(s@.subrange(i as int, i as int + k)),
            acc == digits_val(s@.subrange(i as int, i as int + k)),
            acc < pow10(k as nat),
            pow10(10) == 10000000000int,
        decreases 10 - k,
    {
        let c = s.get_char(i + k);
        if !(c >= '0' && c <= '9') {
            proof {
                assert(whole[k as int] == s@[i + k]);
                assert(!all_digits(whole));
            }
            return None;
        }
        let d: u64 = (c as u32 - 48) as u64;
        proof {
            let prefix = s@.subrange(i as int, i as int + k);
            let next = s@.subrange(i as int, i as int + k + 1);
            assert(next.drop_last() =~= prefix);
            assert(next.last() == s@[i + k]);
            lemma_pow10_increases((k + 1) as nat, 10);
        }
        acc = acc * 10 + d;
        k += 1;
    }
    if acc <= 0xFFFF_FFFF {
        Some((acc as u32, i + 10))
    } else {
        None
    }
}

/// A prefix of `s` at `i` that reads as the concatenation of `a` and `b`
/// splits into `a` and then `b`.
proof fn lemma_subrange_split(s: Seq<char>, i: int, a: Seq<char>, b: Seq<char>)
    requires
        0 <= i,
        i + a.len() + b.len() <= s.len(),
        s.subrange(i, i + a.len() + b.len()) == a + b,
    ensures
        s.subrange(i, i + a.len()) =~= a,
        s.subrange(i + a.len(), i + a.len() + b.len()) =~= b,
{
    let whole = s.subrange(i, i + a.len() + b.len());
    assert forall|k: int| 0 <= k < a.len() implies s.subrange(i, i + a.len())[k] == a[k] by {
        assert(whole[k] == a[k]);
    }
    assert forall|k: int| 0 <= k < b.len() implies s.subrange(
        i + a.len(),
        i + a.len() + b.len(),
    )[k] == b[k] by {
        assert(whole[a.len() + k] == b[k]);
    }
}

/// The encoding of a number is always exactly `w` characters.
proof fn lemma_enc_nat_len(n: int, w: nat)
    ensures
        enc_nat(n, w).len() == w,
    decreases w,
{
    if w > 0 {
        lemma_enc_nat_len(n / 10, (w - 1) as nat);
    }
}

/// The length-prefixed encoding of a string: its length, then its characters.
pub open spec fn enc_str(t: Seq<char>) -> Seq<char> {
    enc_nat(t.len() as int, NUM_WIDTH as nat) + t
}

/// What a parse of a length-prefixed string at `i` yields.
pub open spec fn spec_parse_str(s: Seq<char>, i: int) -> Option<(Seq<char>, int)> {
    match spec_parse_u32(s, i) {
        Some((n, j)) => if j + n <= s.len() {
            Some((s.subrange(j, j + n), j + n))
        } else {
            None
        },
        None => None,
    }
}

/// An encoded string standing at `i` parses back to itself.
proof fn lemma_parse_enc_str(s: Seq<char>, i: int, t: Seq<char>)
    requires
        t.len() <= u32::MAX,
        0 <= i,
        i + enc_str(t).len() <= s.len(),
        s.subrange(i, i + enc_str(t).len()) == enc_str(t),
    ensures
        spec_parse_str(s, i) == Some((t, i + NUM_WIDTH + t.len())),
{
    let n = t.len() as u32;
    lemma_enc_nat_len(n as int, NUM_WIDTH as nat);
    lemma_subrange_split(s, i, enc_u32(n), t);
    lemma_parse_enc_u32(s, i, n);
    assert(s.subrange(i + NUM_WIDTH, i + NUM_WIDTH + t.len()) =~= t);
}

/// The one-character encoding of a boolean.
pub open spec fn enc_bool(b: bool) -> Seq<char> {
    if b {
        seq!['1']
    } else {
        seq!['0']
    }
}

/// What a parse of a boolean character at `i` yields.
pub open spec fn spec_parse_bool(s: Seq<char>, i: int) -> Option<(bool, int)> {
    if 0 <= i < s.len() && (s[i] == '0' || s[i] == '1') {
        Some(((s[i] == '1'), i + 1))
    } else {
        None
    }
}

/// The encoding of an optional string: an absence flag, then the string.
pub open spec fn enc_opt_str(t: Option<Seq<char>>) -> Seq<char> {
    match t {
        None => seq!['0'],
        Some(x) => seq!['1'] + enc_str(x),
    }
}

/// What a parse of an optional string at `i` yields.
pub open spec fn spec_parse_opt_str(s: Seq<char>, i: int) -> Option<(Option<Seq<char>>, int)> {
    if 0 <= i < s.len() {
        if s[i] == '0' {
            Some((None, i + 1))
        } else if s[i] == '1' {
            match spec_parse_str(s, i + 1) {
                Some((t, j)) => Some((Some(t), j)),
                None => None,
            }
        } else {
            None
        }
    } else {
        None
    }
}

/// The encoding of an optional boolean: an absence flag, then the boolean.
pub open spec fn enc_opt_bool(b: Option<bool>) -> Seq<char> {
    match b {
        None => seq!['0'],
        Some(x) => seq!['1'] + enc_bool(x),
    }
}

/// What a parse of an optional boolean at `i` yields.
pub open spec fn spec_parse_opt_bool(s: Seq<char>, i: int) -> Option<(Option<bool>, int)> {
    if 0 <= i < s.len() {
        if s[i] == '0' {
            Some((None, i + 1))
        } else if s[i] == '1' {
            match spec_parse_bool(s, i + 1) {
                Some((b, j)) => Some((Some(b), j)),
                None => None,
            }
        } else {
            None
        }
    } else {
        None
    }
}

/// The encoding of an outcome: a tag character, then the control level for a
/// fully lucid outcome.
pub open spec fn enc_outcome(o: TechniqueOutcome) -> Seq<char> {
    match o {
        TechniqueOutcome::Unattempted => seq!['0'],
        TechniqueOutcome::Failed => seq!['1'],
        TechniqueOutcome::PartialLucid => seq!['2'],
        TechniqueOutcome::FullLucid { control_level } => seq!['3'] + enc_nat(
            control_level as int,
            NUM_WIDTH as nat,
        ),
    }
}

/// What a parse of an outcome at `i` yields.
pub open spec fn spec_parse_outcome(s: Seq<char>, i: int) -> Option<(TechniqueOutcome, int)> {
    if 0 <= i < s.len() {
        if s[i] == '0' {
            Some((TechniqueOutcome::Unattempted, i + 1))
        } else if s[i] == '1' {
            Some((TechniqueOutcome::Failed, i + 1))
        } else if s[i] == '2' {
            Some((TechniqueOutcome::PartialLucid, i + 1))
        } else if s[i] == '3' {
            match spec_parse_u32(s, i + 1) {
                Some((n, j)) => if n <= u8::MAX {
                    Some((TechniqueOutcome::FullLucid { control_level: n as u8 }, j))
                } else {
                    None
                },
                None => None,
            }
        } else {
            None
        }
    } else {
        None
    }
}

/// An encoded outcome standing at `i` parses back to itself.
proof fn lemma_parse_enc_outcome(s: Seq<char>, i: int, o: TechniqueOutcome)
    requires
        0 <= i,
        i + enc_outcome(o).len() <= s.len(),
        s.subrange(i, i + enc_outcome(o).len()) == enc_outcome(o),
    ensures
        spec_parse_outcome(s, i) == Some((o, i + enc_outcome(o).len())),
{
    match o {
        TechniqueOutcome::FullLucid { control_level } => {
            let tail = enc_nat(control_level as int, NUM_WIDTH as nat);
            lemma_enc_nat_len(control_level as int, NUM_WIDTH as nat);
            lemma_subrange_split(s, i, seq!['3'], tail);
            assert(s.subrange(i, i + 1)[0] == s[i]);
            assert(s[i] == '3');
            assert(s.subrange(i + 1, i + 1 + NUM_WIDTH) == enc_u32(control_level as u32));
            lemma_parse_enc_u32(s, i + 1, control_level as u32);
        },
        _ => {
            assert(s[i] == enc_outcome(o)[0]);
        },
    }
}

/// A record whose strings fit the length prefix of the codec.
pub open spec fn record_wf(r: RecordView) -> bool {
    r.technique.len() <= u32::MAX && r.date.len() <= u32::MAX
}

/// The encoding of one practice record: technique, date, duration, outcome.
pub open spec fn enc_record(r: RecordView) -> Seq<char> {
    enc_str(r.technique) + enc_str(r.date) + enc_u32(r.duration_minutes) + enc_outcome(r.outcome)
}

/// What a parse of one practice record at `i` yields.
pub open spec fn spec_parse_record(s: Seq<char>, i: int) -> Option<(RecordView, int)> {
    match spec_parse_str(s, i) {
        Some((technique, i1)) => match spec_parse_str(s, i1) {
            Some((date, i2)) => match spec_parse_u32(s, i2) {
                Some((duration_minutes, i3)) => match spec_parse_outcome(s, i3) {
                    Some((outcome, i4)) => Some(
                        (RecordView { technique, date, duration_minutes, outcome }, i4),
                    ),
                    None => None,
                },
                None => None,
            },
            None => None,
        },
        None => None,
    }
}

/// An encoded record standing at `i` parses back to itself.
proof fn lemma_parse_enc_record(s: Seq<char>, i: int, r: RecordView)
    requires
        record_wf(r),
        0 <= i,
        i + enc_record(r).len() <= s.len(),
        s.subrange(i, i + enc_record(r).len()) == enc_record(r),
    ensures
        spec_parse_record(s, i) == Some((r, i + enc_record(r).len())),
{
    let p1 = enc_str(r.technique);
    let p2 = enc_str(r.date);
    let p3 = enc_u32(r.duration_minutes);
    let p4 = enc_outcome(r.outcome);
    lemma_enc_nat_len(r.technique.len() as int, NUM_WIDTH as nat);
    lemma_enc_nat_len(r.date.len() as int, NUM_WIDTH as nat);
    lemma_enc_nat_len(r.duration_minutes as int, NUM_WIDTH as nat);
    assert(s.subrange(i, i + p1.len() + (p2.len() + p3.len() + p4.len())) == p1 + (p2 + p3 + p4))
        by {
        assert(enc_record(r) =~= p1 + (p2 + p3 + p4));
    }
    lemma_subrange_split(s, i, p1, p2 + p3 + p4);
    let i1 = i + p1.len();
    lemma_parse_enc_str(s, i, r.technique);
    assert(s.subrange(i1, i1 + p2.len() + (p3.len() + p4.len())) == p2 + (p3 + p4)) by {
        assert(p2 + p3 + p4 =~= p2 + (p3 + p4));
    }
    lemma_subrange_split(s, i1, p2, p3 + p4);
    let i2 = i1 + p2.len();
    lemma_parse_enc_str(s, i1, r.date);
    lemma_subrange_split(s, i2, p3, p4);
    let i3 = i2 + p3.len();
    lemma_parse_enc_u32(s, i2, r.duration_minutes);
    lemma_parse_enc_outcome(s, i3, r.outcome);
}

/// The concatenated encoding of a sequence of records.
pub open spec fn enc_records(rs: Seq<RecordView>) -> Seq<char>
    decreases rs.len(),
{
    if rs.len() == 0 {
        Seq::empty()
    } else {
        enc_record(rs.first()) + enc_records(rs.drop_first())
    }
}

/// Every record fits the codec's length prefixes.
pub open spec fn records_wf(rs: Seq<RecordView>) -> bool {
    forall|i: int| 0 <= i < rs.len() ==> record_wf(#[trigger] rs[i])
}

/// What a parse of `k` consecutive records at `i` yields.
pub open spec fn spec_parse_records(s: Seq<char>, i: int, k: nat) -> Option<
    (Seq<RecordView>, int),
>
    decreases k,
{
    if k == 0 {
        Some((Seq::empty(), i))
    } else {
        match spec_parse_record(s, i) {
            Some((r, j)) => match spec_parse_records(s, j, (k - 1) as nat) {
                Some((rest, e)) => Some((seq![r] + rest, e)),
                None => None,
            },
            None => None,
        }
    }
}

/// Appending one record extends the encoding by that record's encoding.
proof fn lemma_enc_records_push(rs: Seq<RecordView>, r: RecordView)
    ensures
        enc_records(rs.push(r)) =~= enc_records(rs) + enc_record(r),
    decreases rs.len(),
{
    if rs.len() == 0 {
        assert(rs.push(r).drop_first() =~= Seq::<RecordView>::empty());
        assert(rs.push(r).first() == r);
        assert(enc_records(rs.push(r)) == enc_record(r) + enc_records(
            Seq::<RecordView>::empty(),
        ));
        assert(enc_records(rs.push(r)) =~= enc_records(rs) + enc_record(r));
    } else {
        assert(rs.push(r).first() == rs.first());
        assert(rs.push(r).drop_first() =~= rs.drop_first().push(r));
        lemma_enc_records_push(rs.drop_first(), r);
        assert(enc_records(rs.push(r)) == enc_record(rs.first()) + enc_records(
            rs.drop_first().push(r),
        ));
        assert(enc_records(rs) == enc_record(rs.first()) + enc_records(rs.drop_first()));
        assert(enc_record(rs.first()) + (enc_records(rs.drop_first()) + enc_record(r)) =~= (
        enc_record(rs.first()) + enc_records(rs.drop_first())) + enc_record(r));
    }
}

/// Encoded records standing at `i` parse back to themselves.
proof fn lemma_parse_enc_records(s: Seq<char>, i: int, rs: Seq<RecordView>)
    requires
        records_wf(rs),
        0 <= i,
        i + enc_records(rs).len() <= s.len(),
        s.subrange(i, i + enc_records(rs).len()) == enc_records(rs),
    ensures
        spec_parse_records(s, i, rs.len()) == Some((rs, i + enc_records(rs).len())),
    decreases rs.len(),
{
    if rs.len() == 0 {
        assert(rs =~= Seq::<RecordView>::empty());
    } else {
        let head = enc_record(rs.first());
        let tail = enc_records(rs.drop_first());
        lemma_subrange_split(s, i, head, tail);
        assert(record_wf(rs.first())) by {
            assert(rs[0] == rs.first());
        }
        lemma_parse_enc_record(s, i, rs.first());
        assert(records_wf(rs.drop_first())) by {
            assert(forall|k: int|
                0 <= k < rs.drop_first().len() ==> #[trigger] rs.drop_first()[k] == rs[k + 1]);
        }
        lemma_parse_enc_records(s, i + head.len(), rs.drop_first());
        assert(seq![rs.first()] + rs.drop_first() =~= rs);
    }
}

/// The history document: the record count, then the records.
pub open spec fn enc_history(rs: Seq<RecordView>) -> Seq<char> {
    enc_nat(rs.len() as int, NUM_WIDTH as nat) + enc_records(rs)
}

/// What a whole history document denotes: its records, provided the whole
/// document is consumed; anything else is malformed.
pub open spec fn spec_parse_history(s: Seq<char>) -> Option<Seq<RecordView>> {
    match spec_parse_u32(s, 0) {
        Some((k, i)) => match spec_parse_records(s, i, k as nat) {
            Some((rs, e)) => if e == s.len() {
                Some(rs)
            } else {
                None
            },
            None => None,
        },
        None => None,
    }
}

/// Round trip of the practice history: the document written for any record
/// sequence parses back to exactly that sequence, every field preserved.
pub proof fn lemma_history_round_trip(rs: Seq<RecordView>)
    requires
        records_wf(rs),
        rs.len() <= u32::MAX,
    ensures
        spec_parse_history(enc_history(rs)) == Some(rs),
{
    let s = enc_history(rs);
    lemma_enc_nat_len(rs.len() as int, NUM_WIDTH as nat);
    assert(s.subrange(0, s.len() as int) =~= s);
    lemma_subrange_split(s, 0, enc_u32(rs.len() as u32), enc_records(rs));
    lemma_parse_enc_u32(s, 0, rs.len() as u32);
    lemma_parse_enc_records(s, NUM_WIDTH as int, rs);
}

/// Appending one record to a history and writing the store's document reads
/// back as exactly the extended history: nothing already stored and nothing
/// in the new record is changed by the trip through the document.
pub proof fn lemma_append_then_load(h: Seq<RecordView>, r: RecordView)
    requires
        records_wf(h),
        record_wf(r),
        h.len() + 1 <= u32::MAX,
    ensures
        spec_parse_history(enc_history(h.push(r))) == Some(h.push(r)),
{
    assert(records_wf(h.push(r))) by {
        assert(forall|j: int| 0 <= j < h.len() ==> h.push(r)[j] == #[trigger] h[j]);
        assert(h.push(r)[h.len() as int] == r);
    }
    lemma_history_round_trip(h.push(r));
}

/// Appends the length-prefixed encoding of a string field to `out`.
fn push_str_field(out: &mut String, t: &str)
    requires
        t@.len() <= u32::MAX,
    ensures
        final(out)@ =~= old(out)@ + enc_str(t@),
{
    let n = t.unicode_len();
    push_u32(out, n as u32);
    out.append(t);
}

/// Appends the encoding of an outcome to `out`.
fn push_outcome(out: &mut String, o: TechniqueOutcome)
    ensures
        final(out)@ =~= old(out)@ + enc_outcome(o),
{
    match o {
        TechniqueOutcome::Unattempted => out.append(digit_str(0)),
        TechniqueOutcome::Failed => out.append(digit_str(1)),
        TechniqueOutcome::PartialLucid => out.append(digit_str(2)),
        TechniqueOutcome::FullLucid { control_level } => {
            out.append(digit_str(3));
            push_u32(out, control_level as u32);
        },
    }
}

/// Appends the encoding of one record to `out`.
fn push_record(out: &mut String, rec: &PracticeRecord)
    requires
        record_wf(rec@),
    ensures
        final(out)@ =~= old(out)@ + enc_record(rec@),
{
    push_str_field(out, rec.technique.as_str());
    push_str_field(out, rec.date.as_str());
    push_u32(out, rec.duration_minutes);
    push_outcome(out, rec.outcome);
}

/// Writes the whole practice history as one document.
pub fn history_to_doc(records: &Vec<PracticeRecord>) -> (r: String)
    requires
        records@.len() <= u32::MAX,
        records_wf(records.deep_view()),
    ensures
        r@ == enc_history(records.deep_view()),
{
    let ghost rs = records.deep_view();
    let mut out = String::new();
    push_u32(&mut out, records.len() as u32);
    let mut k: usize = 0;
    proof {
        assert(rs.subrange(0, 0) =~= Seq::<RecordView>::empty());
    }
    while k < records.len()
        invariant
            k <= records.len(),
            rs == records.deep_view(),
            rs.len() == records@.len() <= u32::MAX,
            records_wf(rs),
            out@ =~= enc_nat(rs.len() as int, NUM_WIDTH as nat) + enc_records(
                rs.subrange(0, k as int),
            ),
        decreases records.len() - k,
    {
        push_record(&mut out, &records[k]);
        proof {
            assert(records@[k as int]@ == rs[k as int]);
            assert(rs.subrange(0, k + 1) =~= rs.subrange(0, k as int).push(rs[k as int]));
            lemma_enc_records_push(rs.subrange(0, k as int), rs[k as int]);
        }
        k += 1;
    }
    proof {
        assert(rs.subrange(0, rs.len() as int) =~= rs);
        assert(out@ =~= enc_history(rs));
    }
    out
}

/// Parses the length-prefixed string standing at `i`.
fn parse_str_at(s: &str, i: usize) -> (r: Option<(String, usize)>)
    ensures
        match r {
            Some((t, j)) => spec_parse_str(s@, i as int) == Some((t@, j as int)),
            None => spec_parse_str(s@, i as int) is None,
        },
{
    let (n, j) = match parse_u32_at(s, i) {
        Some(x) => x,
        None => {
            return None;
        },
    };
    let len = s.unicode_len();
    if (n as usize) > len - j {
        return None;
    }
    let t = s.substring_char(j, j + (n as usize)).to_owned();
    Some((t, j + (n as usize)))
}

/// Parses the outcome standing at `i`.
fn parse_outcome_at(s: &str, i: usize) -> (r: Option<(TechniqueOutcome, usize)>)
    ensures
        match r {
            Some((o, j)) => spec_parse_outcome(s@, i as int) == Some((o, j as int)),
            None => spec_parse_outcome(s@, i as int) is None,
        },
{
    let len = s.unicode_len();
    if i >= len {
        return None;
    }
    let c = s.get_char(i);
    if c == '0' {
        Some((TechniqueOutcome::Unattempted, i + 1))
    } else if c == '1' {
        Some((TechniqueOutcome::Failed, i + 1))
    } else if c == '2' {
        Some((TechniqueOutcome::PartialLucid, i + 1))
    } else if c == '3' {
        match parse_u32_at(s, i + 1) {
            Some((n, j)) => if n <= 255 {
                Some((TechniqueOutcome::FullLucid { control_level: n as u8 }, j))
            } else {
                None
            },
            None => None,
        }
    } else {
        None
    }
}

/// Parses the record standing at `i`.
fn parse_record_at(s: &str, i: usize) -> (r: Option<(PracticeRecord, usize)>)
    ensures
        match r {
            Some((rec, j)) => spec_parse_record(s@, i as int) == Some((rec@, j as int)),
            None => spec_parse_record(s@, i as int) is None,
        },
{
    let (technique, i1) = match parse_str_at(s, i) {
        Some(x) => x,
        None => {
            return None;
        },
    };
    let (date, i2) = match parse_str_at(s, i1) {
        Some(x) => x,
        None => {
            return None;
        },
    };
    let (duration_minutes, i3) = match parse_u32_at(s, i2) {
        Some(x) => x,
        None => {
            return None;
        },
    };
    let (outcome, i4) = match parse_outcome_at(s, i3) {
        Some(x) => x,
        None => {
            return None;
        },
    };
    Some((PracticeRecord { technique, date, duration_minutes, outcome }, i4))
}

/// Parses `k` consecutive records standing at `i`.
fn parse_records_at(s: &str, i: usize, k: u32) -> (r: Option<(Vec<PracticeRecord>, usize)>)
    ensures
        match r {
            Some((v, j)) => spec_parse_records(s@, i as int, k as nat) == Some(
                (v.deep_view(), j as int),
            ),
            None => spec_parse_records(s@, i as int, k as nat) is None,
        },
    decreases k,
{
    if k == 0 {
        let v: Vec<PracticeRecord> = Vec::new();
        proof {
            assert(v.deep_view() =~= Seq::<RecordView>::empty());
        }
        return Some((v, i));
    }
    let (rec, j) = match parse_record_at(s, i) {
        Some(x) => x,
        None => {
            return None;
        },
    };
    let (mut v, e) = match parse_records_at(s, j, k - 1) {
        Some(x) => x,
        None => {
            return None;
        },
    };
    let ghost rest = v.deep_view();
    v.insert(0, rec);
    proof {
        assert(v.deep_view() =~= seq![rec@] + rest);
    }
    Some((v, e))
}

/// Reads a practice-history document leniently: a malformed document counts
/// as an empty history rather than an error.
pub fn history_from_doc(doc: &str) -> (r: Vec<PracticeRecord>)
    ensures
        match spec_parse_history(doc@) {
            Some(rs) => r.deep_view() == rs,
            None => r.deep_view() =~= Seq::<RecordView>::empty(),
        },
{
    let parsed = match parse_u32_at(doc, 0) {
        Some((k, i)) => match parse_records_at(doc, i, k) {
            Some((v, e)) => if e == doc.unicode_len() {
                Some(v)
            } else {
                None
            },
            None => None,
        },
        None => None,
    };
    match parsed {
        Some(v) => v,
        None => {
            let v: Vec<PracticeRecord> = Vec::new();
            proof {
                assert(v.deep_view() =~= Seq::<RecordView>::empty());
            }
            v
        },
    }
}

/// A stored document that does not read back as a well-formed collection.
#[derive(Clone, Copy, PartialEq, Eq, Structural, Debug)]
pub struct PersistenceError;

/// An alarm whose strings fit the codec's length prefixes.
pub open spec fn alarm_wf(a: AlarmView) -> bool {
    &&& a.bedtime.len() <= u32::MAX
    &&& a.wake_time.len() <= u32::MAX
    &&& match a.last_triggered {
        Some(t) => t.len() <= u32::MAX,
        None => true,
    }
}

/// The encoding of one alarm: id, bedtime, wake time, awake minutes, enabled
/// flag, optional last-triggered date, optional success flag.
pub open spec fn enc_alarm(a: AlarmView) -> Seq<char> {
    enc_u32(a.id) + enc_str(a.bedtime) + enc_str(a.wake_time) + enc_u32(a.awake_minutes)
        + enc_bool(a.enabled) + enc_opt_str(a.last_triggered) + enc_opt_bool(a.success)
}

/// What a parse of one alarm at `i` yields.
pub open spec fn spec_parse_alarm(s: Seq<char>, i: int) -> Option<(AlarmView, int)> {
    match spec_parse_u32(s, i) {
        Some((id, i1)) => match spec_parse_str(s, i1) {
            Some((bedtime, i2)) => match spec_parse_str(s, i2) {
                Some((wake_time, i3)) => match spec_parse_u32(s, i3) {
                    Some((awake_minutes, i4)) => match spec_parse_bool(s, i4) {
                        Some((enabled, i5)) => match spec_parse_opt_str(s, i5) {
                            Some((last_triggered, i6)) => match spec_parse_opt_bool(s, i6) {
                                Some((success, i7)) => Some(
                                    (
                                        AlarmView {
                                            id,
                                            bedtime,
                                            wake_time,
                                            awake_minutes,
                                            enabled,
                                            last_triggered,
                                            success,
                                        },
                                        i7,
                                    ),
                                ),
                                None => None,
                            },
                            None => None,
                        },
                        None => None,
                    },
                    None => None,
                },
                None => None,
            },
            None => None,
        },
        None => None,
    }
}

/// An encoded boolean standing at `i` parses back to itself.
proof fn lemma_parse_enc_bool(s: Seq<char>, i: int, b: bool)
    requires
        0 <= i,
        i + 1 <= s.len(),
        s.subrange(i, i + 1) == enc_bool(b),
    ensures
        spec_parse_bool(s, i) == Some((b, i + 1)),
{
    assert(s.subrange(i, i + 1)[0] == s[i]);
}

/// An encoded optional string standing at `i` parses back to itself.
proof fn lemma_parse_enc_opt_str(s: Seq<char>, i: int, t: Option<Seq<char>>)
    requires
        match t {
            Some(x) => x.len() <= u32::MAX,
            None => true,
        },
        0 <= i,
        i + enc_opt_str(t).len() <= s.len(),
        s.subrange(i, i + enc_opt_str(t).len()) == enc_opt_str(t),
    ensures
        spec_parse_opt_str(s, i) == Some((t, i + enc_opt_str(t).len())),
{
    match t {
        None => {
            assert(s.subrange(i, i + 1)[0] == s[i]);
        },
        Some(x) => {
            lemma_subrange_split(s, i, seq!['1'], enc_str(x));
            assert(s.subrange(i, i + 1)[0] == s[i]);
            assert(s[i] == '1');
            lemma_enc_nat_len(x.len() as int, NUM_WIDTH as nat);
            lemma_parse_enc_str(s, i + 1, x);
        },
    }
}

/// An encoded optional boolean standing at `i` parses back to itself.
proof fn lemma_parse_enc_opt_bool(s: Seq<char>, i: int, b: Option<bool>)
    requires
        0 <= i,
        i + enc_opt_bool(b).len() <= s.len(),
        s.subrange(i, i + enc_opt_bool(b).len()) == enc_opt_bool(b),
    ensures
        spec_parse_opt_bool(s, i) == Some((b, i + enc_opt_bool(b).len())),
{
    match b {
        None => {
            assert(s.subrange(i, i + 1)[0] == s[i]);
        },
        Some(x) => {
            lemma_subrange_split(s, i, seq!['1'], enc_bool(x));
            assert(s.subrange(i, i + 1)[0] == s[i]);
            assert(s[i] == '1');
            lemma_parse_enc_bool(s, i + 1, x);
        },
    }
}

/// An encoded alarm standing at `i` parses back to itself.
proof fn lemma_parse_enc_alarm(s: Seq<char>, i: int, a: AlarmView)
    requires
        alarm_wf(a),
        0 <= i,
        i + enc_alarm(a).len() <= s.len(),
        s.subrange(i, i + enc_alarm(a).len()) == enc_alarm(a),
    ensures
        spec_parse_alarm(s, i) == Some((a, i + enc_alarm(a).len())),
{
    let p1 = enc_u32(a.id);
    let p2 = enc_str(a.bedtime);
    let p3 = enc_str(a.wake_time);
    let p4 = enc_u32(a.awake_minutes);
    let p5 = enc_bool(a.enabled);
    let p6 = enc_opt_str(a.last_triggered);
    let p7 = enc_opt_bool(a.success);
    lemma_enc_nat_len(a.id as int, NUM_WIDTH as nat);
    lemma_enc_nat_len(a.bedtime.len() as int, NUM_WIDTH as nat);
    lemma_enc_nat_len(a.wake_time.len() as int, NUM_WIDTH as nat);
    lemma_enc_nat_len(a.awake_minutes as int, NUM_WIDTH as nat);
    assert(s.subrange(i, i + p1.len() + (p2.len() + p3.len() + p4.len() + p5.len() + p6.len()
        + p7.len())) == p1 + (p2 + p3 + p4 + p5 + p6 + p7)) by {
        assert(enc_alarm(a) =~= p1 + (p2 + p3 + p4 + p5 + p6 + p7));
    }
    lemma_subrange_split(s, i, p1, p2 + p3 + p4 + p5 + p6 + p7);
    let i1 = i + p1.len();
    lemma_parse_enc_u32(s, i, a.id);
    assert(s.subrange(i1, i1 + p2.len() + (p3.len() + p4.len() + p5.len() + p6.len() + p7.len()))
        == p2 + (p3 + p4 + p5 + p6 + p7)) by {
        assert(p2 + p3 + p4 + p5 + p6 + p7 =~= p2 + (p3 + p4 + p5 + p6 + p7));
    }
    lemma_subrange_split(s, i1, p2, p3 + p4 + p5 + p6 + p7);
    let i2 = i1 + p2.len();
    lemma_parse_enc_str(s, i1, a.bedtime);
    assert(s.subrange(i2, i2 + p3.len() + (p4.len() + p5.len() + p6.len() + p7.len())) == p3 + (p4
        + p5 + p6 + p7)) by {
        assert(p3 + p4 + p5 + p6 + p7 =~= p3 + (p4 + p5 + p6 + p7));
    }
    lemma_subrange_split(s, i2, p3, p4 + p5 + p6 + p7);
    let i3 = i2 + p3.len();
    lemma_parse_enc_str(s, i2, a.wake_time);
    assert(s.subrange(i3, i3 + p4.len() + (p5.len() + p6.len() + p7.len())) == p4 + (p5 + p6
        + p7)) by {
        assert(p4 + p5 + p6 + p7 =~= p4 + (p5 + p6 + p7));
    }
    lemma_subrange_split(s, i3, p4, p5 + p6 + p7);
    let i4 = i3 + p4.len();
    lemma_parse_enc_u32(s, i3, a.awake_minutes);
    assert(s.subrange(i4, i4 + p5.len() + (p6.len() + p7.len())) == p5 + (p6 + p7)) by {
        assert(p5 + p6 + p7 =~= p5 + (p6 + p7));
    }
    lemma_subrange_split(s, i4, p5, p6 + p7);
    let i5 = i4 + p5.len();
    lemma_parse_enc_bool(s, i4, a.enabled);
    lemma_subrange_split(s, i5, p6, p7);
    let i6 = i5 + p6.len();
    lemma_parse_enc_opt_str(s, i5, a.last_triggered);
    lemma_parse_enc_opt_bool(s, i6, a.success);
}

/// The concatenated encoding of a sequence of alarms.
pub open spec fn enc_alarms(alarms: Seq<AlarmView>) -> Seq<char>
    decreases alarms.len(),
{
    if alarms.len() == 0 {
        Seq::empty()
    } else {
        enc_alarm(alarms.first()) + enc_alarms(alarms.drop_first())
    }
}

/// Every alarm fits the codec's length prefixes.
pub open spec fn alarms_wf(alarms: Seq<AlarmView>) -> bool {
    forall|i: int| 0 <= i < alarms.len() ==> alarm_wf(#[trigger] alarms[i])
}

/// What a parse of `k` consecutive alarms at `i` yields.
pub open spec fn spec_parse_alarms(s: Seq<char>, i: int, k: nat) -> Option<(Seq<AlarmView>, int)>
    decreases k,
{
    if k == 0 {
        Some((Seq::empty(), i))
    } else {
        match spec_parse_alarm(s, i) {
            Some((a, j)) => match spec_parse_alarms(s, j, (k - 1) as nat) {
                Some((rest, e)) => Some((seq![a] + rest, e)),
                None => None,
            },
            None => None,
        }
    }
}

/// Appending one alarm extends the encoding by that alarm's encoding.
proof fn lemma_enc_alarms_push(alarms: Seq<AlarmView>, a: AlarmView)
    ensures
        enc_alarms(alarms.push(a)) =~= enc_alarms(alarms) + enc_alarm(a),
    decreases alarms.len(),
{
    if alarms.len() == 0 {
        assert(alarms.push(a).drop_first() =~= Seq::<AlarmView>::empty());
        assert(alarms.push(a).first() == a);
        assert(enc_alarms(alarms.push(a)) == enc_alarm(a) + enc_alarms(
            Seq::<AlarmView>::empty(),
        ));
        assert(enc_alarms(alarms.push(a)) =~= enc_alarms(alarms) + enc_alarm(a));
    } else {
        assert(alarms.push(a).first() == alarms.first());
        assert(alarms.push(a).drop_first() =~= alarms.drop_first().push(a));
        lemma_enc_alarms_push(alarms.drop_first(), a);
        assert(enc_alarms(alarms.push(a)) == enc_alarm(alarms.first()) + enc_alarms(
            alarms.drop_first().push(a),
        ));
        assert(enc_alarms(alarms) == enc_alarm(alarms.first()) + enc_alarms(alarms.drop_first()));
        assert(enc_alarm(alarms.first()) + (enc_alarms(alarms.drop_first()) + enc_alarm(a)) =~= (
        enc_alarm(alarms.first()) + enc_alarms(alarms.drop_first())) + enc_alarm(a));
    }
}

/// Encoded alarms standing at `i` parse back to themselves.
proof fn lemma_parse_enc_alarms(s: Seq<char>, i: int, alarms: Seq<AlarmView>)
    requires
        alarms_wf(alarms),
        0 <= i,
        i + enc_alarms(alarms).len() <= s.len(),
        s.subrange(i, i + enc_alarms(alarms).len()) == enc_alarms(alarms),
    ensures
        spec_parse_alarms(s, i, alarms.len()) == Some((alarms, i + enc_alarms(alarms).len())),
    decreases alarms.len(),
{
    if alarms.len() == 0 {
        assert(alarms =~= Seq::<AlarmView>::empty());
    } else {
        let head = enc_alarm(alarms.first());
        let tail = enc_alarms(alarms.drop_first());
        lemma_subrange_split(s, i, head, tail);
        assert(alarm_wf(alarms.first())) by {
            assert(alarms[0] == alarms.first());
        }
        lemma_parse_enc_alarm(s, i, alarms.first());
        assert(alarms_wf(alarms.drop_first())) by {
            assert(forall|k: int|
                0 <= k < alarms.drop_first().len() ==> #[trigger] alarms.drop_first()[k]
                    == alarms[k + 1]);
        }
        lemma_parse_enc_alarms(s, i + head.len(), alarms.drop_first());
        assert(seq![alarms.first()] + alarms.drop_first() =~= alarms);
    }
}

/// The alarm document: the alarm count, then the alarms.
pub open spec fn enc_alarm_doc(alarms: Seq<AlarmView>) -> Seq<char> {
    enc_nat(alarms.len() as int, NUM_WIDTH as nat) + enc_alarms(alarms)
}

/// What a whole alarm document denotes: its alarms, provided the whole
/// document is consumed; anything else is malformed.
pub open spec fn spec_parse_alarm_doc(s: Seq<char>) -> Option<Seq<AlarmView>> {
    match spec_parse_u32(s, 0) {
        Some((k, i)) => match spec_parse_alarms(s, i, k as nat) {
            Some((alarms, e)) => if e == s.len() {
                Some(alarms)
            } else {
                None
            },
            None => None,
        },
        None => None,
    }
}

/// Round trip of the alarm store: the document written for any alarm sequence
/// parses back to exactly that sequence, every field preserved.
pub proof fn lemma_alarms_round_trip(alarms: Seq<AlarmView>)
    requires
        alarms_wf(alarms),
        alarms.len() <= u32::MAX,
    ensures
        spec_parse_alarm_doc(enc_alarm_doc(alarms)) == Some(alarms),
{
    let s = enc_alarm_doc(alarms);
    lemma_enc_nat_len(alarms.len() as int, NUM_WIDTH as nat);
    assert(s.subrange(0, s.len() as int) =~= s);
    lemma_subrange_split(s, 0, enc_u32(alarms.len() as u32), enc_alarms(alarms));
    lemma_parse_enc_u32(s, 0, alarms.len() as u32);
    lemma_parse_enc_alarms(s, NUM_WIDTH as int, alarms);
}

/// Appends the encoding of a boolean to `out`.
fn push_bool(out: &mut String, b: bool)
    ensures
        final(out)@ =~= old(out)@ + enc_bool(b),
{
    if b {
        out.append(digit_str(1));
    } else {
        out.append(digit_str(0));
    }
}

/// Appends the encoding of an optional string field to `out`.
fn push_opt_str(out: &mut String, t: &Option<String>)
    requires
        match t {
            Some(x) => x@.len() <= u32::MAX,
            None => true,
        },
    ensures
        final(out)@ =~= old(out)@ + enc_opt_str(
            match t {
                Some(x) => Some(x@),
                None => None,
            },
        ),
{
    match t {
        None => out.append(digit_str(0)),
        Some(x) => {
            out.append(digit_str(1));
            push_str_field(out, x.as_str());
        },
    }
}

/// Appends the encoding of an optional boolean to `out`.
fn push_opt_bool(out: &mut String, b: &Option<bool>)
    ensures
        final(out)@ =~= old(out)@ + enc_opt_bool(*b),
{
    match b {
        None => out.append(digit_str(0)),
        Some(x) => {
            out.append(digit_str(1));
            push_bool(out, *x);
        },
    }
}

/// Appends the encoding of one alarm to `out`.
fn push_alarm(out: &mut String, a: &Alarm)
    requires
        alarm_wf(a@),
    ensures
        final(out)@ =~= old(out)@ + enc_alarm(a@),
{
    push_u32(out, a.id);
    push_str_field(out, a.bedtime.as_str());
    push_str_field(out, a.wake_time.as_str());
    push_u32(out, a.awake_minutes);
    push_bool(out, a.enabled);
    push_opt_str(out, &a.last_triggered);
    push_opt_bool(out, &a.success);
}

/// Writes the whole alarm collection as one document.
pub fn alarms_to_doc(alarms: &Vec<Alarm>) -> (r: String)
    requires
        alarms@.len() <= u32::MAX,
        alarms_wf(alarms.deep_view()),
    ensures
        r@ == enc_alarm_doc(alarms.deep_view()),
{
    let ghost vs = alarms.deep_view();
    let mut out = String::new();
    push_u32(&mut out, alarms.len() as u32);
    let mut k: usize = 0;
    proof {
        assert(vs.subrange(0, 0) =~= Seq::<AlarmView>::empty());
    }
    while k < alarms.len()
        invariant
            k <= alarms.len(),
            vs == alarms.deep_view(),
            vs.len() == alarms@.len() <= u32::MAX,
            alarms_wf(vs),
            out@ =~= enc_nat(vs.len() as int, NUM_WIDTH as nat) + enc_alarms(
                vs.subrange(0, k as int),
            ),
        decreases alarms.len() - k,
    {
        push_alarm(&mut out, &alarms[k]);
        proof {
            assert(alarms@[k as int]@ == vs[k as int]);
            assert(vs.subrange(0, k + 1) =~= vs.subrange(0, k as int).push(vs[k as int]));
            lemma_enc_alarms_push(vs.subrange(0, k as int), vs[k as int]);
        }
        k += 1;
    }
    proof {
        assert(vs.subrange(0, vs.len() as int) =~= vs);
        assert(out@ =~= enc_alarm_doc(vs));
    }
    out
}

/// Parses the boolean standing at `i`.
fn parse_bool_at(s: &str, i: usize) -> (r: Option<(bool, usize)>)
    ensures
        match r {
            Some((b, j)) => spec_parse_bool(s@, i as int) == Some((b, j as int)),
            None => spec_parse_bool(s@, i as int) is None,
        },
{
    let len = s.unicode_len();
    if i >= len {
        return None;
    }
    let c = s.get_char(i);
    if c == '0' {
        Some((false, i + 1))
    } else if c == '1' {
        Some((true, i + 1))
    } else {
        None
    }
}

/// Parses the optional string standing at `i`.
fn parse_opt_str_at(s: &str, i: usize) -> (r: Option<(Option<String>, usize)>)
    ensures
        match r {
            Some((t, j)) => spec_parse_opt_str(s@, i as int) == Some(
                (
                    match t {
                        Some(x) => Some(x@),
                        None => None,
                    },
                    j as int,
                ),
            ),
            None => spec_parse_opt_str(s@, i as int) is None,
        },
{
    let len = s.unicode_len();
    if i >= len {
        return None;
    }
    let c = s.get_char(i);
    if c == '0' {
        Some((None, i + 1))
    } else if c == '1' {
        match parse_str_at(s, i + 1) {
            Some((t, j)) => Some((Some(t), j)),
            None => None,
        }
    } else {
        None
    }
}

/// Parses the optional boolean standing at `i`.
fn parse_opt_bool_at(s: &str, i: usize) -> (r: Option<(Option<bool>, usize)>)
    ensures
        match r {
            Some((b, j)) => spec_parse_opt_bool(s@, i as int) == Some((b, j as int)),
            None => spec_parse_opt_bool(s@, i as int) is None,
        },
{
    let len = s.unicode_len();
    if i >= len {
        return None;
    }
    let c = s.get_char(i);
    if c == '0' {
        Some((None, i + 1))
    } else if c == '1' {
        match parse_bool_at(s, i + 1) {
            Some((b, j)) => Some((Some(b), j)),
            None => None,
        }
    } else {
        None
    }
}

/// Parses the alarm standing at `i`.
fn parse_alarm_at(s: &str, i: usize) -> (r: Option<(Alarm, usize)>)
    ensures
        match r {
            Some((a, j)) => spec_parse_alarm(s@, i as int) == Some((a@, j as int)),
            None => spec_parse_alarm(s@, i as int) is None,
        },
{
    let (id, i1) = match parse_u32_at(s, i) {
        Some(x) => x,
        None => {
            return None;
        },
    };
    let (bedtime, i2) = match parse_str_at(s, i1) {
        Some(x) => x,
        None => {
            return None;
        },
    };
    let (wake_time, i3) = match parse_str_at(s, i2) {
        Some(x) => x,
        None => {
            return None;
        },
    };
    let (awake_minutes, i4) = match parse_u32_at(s, i3) {
        Some(x) => x,
        None => {
            return None;
        },
    };
    let (enabled, i5) = match parse_bool_at(s, i4) {
        Some(x) => x,
        None => {
            return None;
        },
    };
    let (last_triggered, i6) = match parse_opt_str_at(s, i5) {
        Some(x) => x,
        None => {
            return None;
        },
    };
    let (success, i7) = match parse_opt_bool_at(s, i6) {
        Some(x) => x,
        None => {
            return None;
        },
    };
    Some((Alarm { id, bedtime, wake_time, awake_minutes, enabled, last_triggered, success }, i7))
}

/// Parses `k` consecutive alarms standing at `i`.
fn parse_alarms_at(s: &str, i: usize, k: u32) -> (r: Option<(Vec<Alarm>, usize)>)
    ensures
        match r {
            Some((v, j)) => spec_parse_alarms(s@, i as int, k as nat) == Some(
                (v.deep_view(), j as int),
            ),
            None => spec_parse_alarms(s@, i as int, k as nat) is None,
        },
    decreases k,
{
    if k == 0 {
        let v: Vec<Alarm> = Vec::new();
        proof {
            assert(v.deep_view() =~= Seq::<AlarmView>::empty());
        }
        return Some((v, i));
    }
    let (a, j) = match parse_alarm_at(s, i) {
        Some(x) => x,
        None => {
            return None;
        },
    };
    let (mut v, e) = match parse_alarms_at(s, j, k - 1) {
        Some(x) => x,
        None => {
            return None;
        },
    };
    let ghost rest = v.deep_view();
    v.insert(0, a);
    proof {
        assert(v.deep_view() =~= seq![a@] + rest);
    }
    Some((v, e))
}

/// Reads an alarm document strictly: a malformed document is a persistence
/// error, and a well-formed one yields exactly the alarms it encodes.
pub fn alarms_from_doc(doc: &str) -> (r: Result<Vec<Alarm>, PersistenceError>)
    ensures
        match r {
            Ok(v) => spec_parse_alarm_doc(doc@) == Some(v.deep_view()),
            Err(_) => spec_parse_alarm_doc(doc@) is None,
        },
{
    let (k, i) = match parse_u32_at(doc, 0) {
        Some(x) => x,
        None => {
            return Err(PersistenceError);
        },
    };
    let (v, e) = match parse_alarms_at(doc, i, k) {
        Some(x) => x,
        None => {
            return Err(PersistenceError);
        },
    };
    if e == doc.unicode_len() {
        Ok(v)
    } else {
        Err(PersistenceError)
    }
}

} // verus!
