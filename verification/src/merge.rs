//! The interval merger: drops finished records, sorts by `(start, end)`,
//! folds each employee's records into the first contiguous run (chaining
//! same-day, next-day and Friday-to-Monday adjacency), and keeps only the
//! runs that cover the reference date.

use vstd::prelude::*;

use crate::date::{date_le, day_number, weekday, Date, FRIDAY};
use crate::records::TimeOff;

verus! {

broadcast use vstd::seq_lib::group_filter_ensures;

/// The weekend-skip adjacency rule on ordered dates: `b` is the same day as
/// `a`, the day after `a`, or `a` is a Friday and `b` the following Monday.
pub open spec fn adjacent_ordered(a: Date, b: Date) -> bool {
    ||| day_number(b) == day_number(a)
    ||| day_number(b) == day_number(a) + 1
    ||| (weekday(a) == FRIDAY as int && day_number(b) == day_number(a) + 3)
}

/// The adjacency rule in either order: the earlier of the two dates is
/// compared against the later one.
pub open spec fn spec_same_or_adjacent_workdays(x: Date, y: Date) -> bool {
    if day_number(x) <= day_number(y) {
        adjacent_ordered(x, y)
    } else {
        adjacent_ordered(y, x)
    }
}

/// Whether two dates are the same, on adjacent days, or separated only by a
/// weekend (a Friday and the following Monday).
pub fn same_or_adjacent_workdays(a: &Date, b: &Date) -> (r: bool)
    requires
        a.valid(),
        b.valid(),
    ensures
        r == spec_same_or_adjacent_workdays(*a, *b),
{
    let (x, y) = if a.on_or_before(b) {
        (a, b)
    } else {
        (b, a)
    };
    proof {
        crate::date::lemma_day_number_bounds(*x);
        crate::date::lemma_day_number_bounds(*y);
    }
    let dx = x.day_number();
    let dy = y.day_number();
    dy == dx || dy == dx + 1 || (x.weekday_from_monday() == FRIDAY && dy == dx + 3)
}

/// Records ordered by `(start, end)`, ascending.
pub open spec fn record_le(a: TimeOff, b: TimeOff) -> bool {
    ||| day_number(a.start) < day_number(b.start)
    ||| (day_number(a.start) == day_number(b.start) && day_number(a.end) <= day_number(b.end))
}

fn record_le_exec(a: &TimeOff, b: &TimeOff) -> (r: bool)
    requires
        a.dates_valid(),
        b.dates_valid(),
    ensures
        r == record_le(*a, *b),
{
    let a_start = a.start.day_number();
    let b_start = b.start.day_number();
    let a_end = a.end.day_number();
    let b_end = b.end.day_number();
    a_start < b_start || (a_start == b_start && a_end <= b_end)
}

/// Stable insertion of `x` into `s`: after every element that sorts on or
/// before it.
pub open spec fn insert_record(s: Seq<TimeOff>, x: TimeOff) -> Seq<TimeOff>
    decreases s.len(),
{
    if s.len() == 0 {
        seq![x]
    } else if record_le(s[0], x) {
        seq![s[0]] + insert_record(s.drop_first(), x)
    } else {
        seq![x] + s
    }
}

/// Stable insertion sort of records by `(start, end)`.
pub open spec fn sort_records_spec(s: Seq<TimeOff>) -> Seq<TimeOff>
    decreases s.len(),
{
    if s.len() == 0 {
        s
    } else {
        insert_record(sort_records_spec(s.drop_last()), s.last())
    }
}

/// Inserting at the end of the `record_le` prefix is what `insert_record`
/// does.
proof fn lemma_insert_record_at(s: Seq<TimeOff>, x: TimeOff, j: int)
    requires
        0 <= j <= s.len(),
        forall|k: int| 0 <= k < j ==> record_le(#[trigger] s[k], x),
        j < s.len() ==> !record_le(s[j], x),
    ensures
        insert_record(s, x) =~= s.take(j) + seq![x] + s.skip(j),
    decreases s.len(),
{
    if s.len() == 0 {
    } else if record_le(s[0], x) {
        assert(j >= 1);
        assert forall|k: int| 0 <= k < j - 1 implies record_le(#[trigger] s.drop_first()[k], x) by {
            assert(s.drop_first()[k] == s[k + 1]);
        }
        lemma_insert_record_at(s.drop_first(), x, j - 1);
    } else {
        assert(j == 0);
    }
}

proof fn lemma_insert_record_multiset(s: Seq<TimeOff>, x: TimeOff)
    ensures
        insert_record(s, x).to_multiset() =~= s.to_multiset().insert(x),
    decreases s.len(),
{
    broadcast use vstd::seq_lib::group_to_multiset_ensures;
    broadcast use vstd::seq_lib::lemma_multiset_commutative;

    if s.len() == 0 {
        assert(insert_record(s, x) =~= Seq::empty().push(x));
    } else if record_le(s[0], x) {
        lemma_insert_record_multiset(s.drop_first(), x);
        assert(seq![s[0]] =~= Seq::empty().push(s[0]));
        assert(s =~= seq![s[0]] + s.drop_first());
    } else {
        assert(seq![x] + s =~= (seq![x] + s.take(s.len() - 1)).push(s.last()));
        lemma_multiset_of_prepend(s, x);
    }
}

/// Multiset of `seq![x] + s` is the multiset of `s` with `x` added.
proof fn lemma_multiset_of_prepend(s: Seq<TimeOff>, x: TimeOff)
    ensures
        (seq![x] + s).to_multiset() =~= s.to_multiset().insert(x),
    decreases s.len(),
{
    broadcast use vstd::seq_lib::group_to_multiset_ensures;

    if s.len() == 0 {
        assert(seq![x] + s =~= Seq::empty().push(x));
    } else {
        lemma_multiset_of_prepend(s.drop_last(), x);
        assert(seq![x] + s =~= (seq![x] + s.drop_last()).push(s.last()));
        assert(s =~= s.drop_last().push(s.last()));
    }
}

proof fn lemma_insert_record_sorted(s: Seq<TimeOff>, x: TimeOff)
    requires
        vstd::relations::sorted_by(s, |a: TimeOff, b: TimeOff| record_le(a, b)),
    ensures
        vstd::relations::sorted_by(
            insert_record(s, x),
            |a: TimeOff, b: TimeOff| record_le(a, b),
        ),
    decreases s.len(),
{
    broadcast use vstd::seq_lib::group_to_multiset_ensures;

    let leq = |a: TimeOff, b: TimeOff| record_le(a, b);
    if s.len() == 0 {
    } else if record_le(s[0], x) {
        assert(vstd::relations::sorted_by(s.drop_first(), leq)) by {
            assert(forall|i: int, j: int|
                0 <= i < j < s.drop_first().len() ==> #[trigger] leq(
                    s.drop_first()[i],
                    s.drop_first()[j],
                ));
        }
        lemma_insert_record_sorted(s.drop_first(), x);
        lemma_insert_record_multiset(s.drop_first(), x);
        let t = seq![s[0]] + insert_record(s.drop_first(), x);
        assert forall|i: int, j: int| 0 <= i < j < t.len() implies #[trigger] leq(t[i], t[j]) by {
            if i == 0 {
                let y = insert_record(s.drop_first(), x)[j - 1];
                assert(insert_record(s.drop_first(), x).to_multiset().contains(y));
                if y == x {
                } else {
                    assert(s.drop_first().to_multiset().contains(y));
                    let k = choose|k: int|
                        0 <= k < s.drop_first().len() && s.drop_first()[k] == y;
                    assert(leq(s[0], s[k + 1]));
                }
            }
        }
    } else {
        let t = seq![x] + s;
        assert forall|i: int, j: int| 0 <= i < j < t.len() implies #[trigger] leq(t[i], t[j]) by {
            if i == 0 {
                assert(!record_le(s[0], x));
                assert(record_le(x, s[0]));
                if j > 1 {
                    assert(leq(s[0], s[j - 1]));
                }
            }
        }
    }
}

pub proof fn lemma_sort_records_spec_ensures(s: Seq<TimeOff>)
    ensures
        sort_records_spec(s).to_multiset() =~= s.to_multiset(),
        vstd::relations::sorted_by(
            sort_records_spec(s),
            |a: TimeOff, b: TimeOff| record_le(a, b),
        ),
    decreases s.len(),
{
    broadcast use vstd::seq_lib::group_to_multiset_ensures;

    if s.len() == 0 {
    } else {
        lemma_sort_records_spec_ensures(s.drop_last());
        lemma_insert_record_multiset(sort_records_spec(s.drop_last()), s.last());
        lemma_insert_record_sorted(sort_records_spec(s.drop_last()), s.last());
        assert(s =~= s.drop_last().push(s.last()));
    }
}

/// Sorts records by `(start, end)`, stably.
pub fn sort_records(v: &Vec<TimeOff>) -> (r: Vec<TimeOff>)
    requires
        forall|i: int| 0 <= i < v@.len() ==> (#[trigger] v@[i]).dates_valid(),
    ensures
        r@ == sort_records_spec(v@),
        r@.to_multiset() == v@.to_multiset(),
        vstd::relations::sorted_by(r@, |a: TimeOff, b: TimeOff| record_le(a, b)),
        forall|i: int| 0 <= i < r@.len() ==> (#[trigger] r@[i]).dates_valid(),
{
    let mut out: Vec<TimeOff> = Vec::new();
    let n = v.len();
    let mut idx: usize = 0;
    proof {
        assert(v@.take(0) =~= Seq::empty());
    }
    while idx < n
        invariant
            idx <= n,
            n == v@.len(),
            forall|i: int| 0 <= i < v@.len() ==> (#[trigger] v@[i]).dates_valid(),
            out@ == sort_records_spec(v@.take(idx as int)),
            forall|i: int| 0 <= i < out@.len() ==> (#[trigger] out@[i]).dates_valid(),
        decreases n - idx,
    {
        let x = v[idx].clone();
        let mut j: usize = 0;
        while j < out.len() && record_le_exec(&out[j], &x)
            invariant
                j <= out.len(),
                forall|k: int| 0 <= k < j ==> record_le(#[trigger] out@[k], x),
                x.dates_valid(),
                forall|i: int| 0 <= i < out@.len() ==> (#[trigger] out@[i]).dates_valid(),
            decreases out.len() - j,
        {
            j = j + 1;
        }
        proof {
            lemma_insert_record_at(out@, x, j as int);
            assert(v@.take(idx + 1).drop_last() =~= v@.take(idx as int));
            assert(v@.take(idx + 1).last() == v@[idx as int]);
            assert(out@.insert(j as int, x) =~= out@.take(j as int) + seq![x] + out@.skip(
                j as int,
            ));
        }
        out.insert(j, x);
        idx = idx + 1;
    }
    proof {
        assert(v@.take(n as int) =~= v@);
        lemma_sort_records_spec_ensures(v@);
    }
    out
}

/// One folding step of the merger: when the accumulated run's end and the
/// next record's start are the same, adjacent, or weekend-separated, the
/// run is extended to the later of the two ends; otherwise the record is
/// discarded and the run is unchanged.
pub open spec fn merge_step(a: TimeOff, b: TimeOff) -> TimeOff {
    if spec_same_or_adjacent_workdays(a.end, b.start) {
        TimeOff {
            employee_id: a.employee_id,
            name: a.name,
            start: a.start,
            end: if day_number(a.end) <= day_number(b.end) {
                b.end
            } else {
                a.end
            },
        }
    } else {
        a
    }
}

/// Left fold of `merge_step` over an employee's records, starting from the
/// employee's first record.
pub open spec fn fold_merge(a: TimeOff, rest: Seq<TimeOff>) -> TimeOff
    decreases rest.len(),
{
    if rest.len() == 0 {
        a
    } else {
        fold_merge(merge_step(a, rest[0]), rest.drop_first())
    }
}

/// The records of employee `e`, in order.
pub open spec fn records_of_employee(s: Seq<TimeOff>, e: u64) -> Seq<TimeOff> {
    s.filter(|r: TimeOff| r.employee_id == e)
}

/// The records of every employee but `e`, in order.
pub open spec fn records_of_other_employees(s: Seq<TimeOff>, e: u64) -> Seq<TimeOff> {
    s.filter(|r: TimeOff| r.employee_id != e)
}

/// One merged period per employee: for each employee, in order of first
/// appearance, the fold of that employee's records starting from the first.
pub open spec fn merge_groups(s: Seq<TimeOff>) -> Seq<TimeOff>
    decreases s.len(),
{
    if s.len() == 0 {
        Seq::empty()
    } else {
        let e = s[0].employee_id;
        seq![fold_merge(s[0], records_of_employee(s.drop_first(), e))] + merge_groups(
            records_of_other_employees(s.drop_first(), e),
        )
    }
}

proof fn lemma_fold_merge_push(a: TimeOff, s: Seq<TimeOff>, x: TimeOff)
    ensures
        fold_merge(a, s.push(x)) == merge_step(fold_merge(a, s), x),
    decreases s.len(),
{
    if s.len() == 0 {
        assert(s.push(x).drop_first() =~= Seq::empty());
        assert(fold_merge(merge_step(a, x), Seq::empty()) == merge_step(a, x));
    } else {
        assert(s.push(x).drop_first() =~= s.drop_first().push(x));
        assert(s.push(x)[0] == s[0]);
        lemma_fold_merge_push(merge_step(a, s[0]), s.drop_first(), x);
    }
}

proof fn lemma_records_of_employee_push(s: Seq<TimeOff>, x: TimeOff, e: u64)
    ensures
        records_of_employee(s.push(x), e) == if x.employee_id == e {
            records_of_employee(s, e).push(x)
        } else {
            records_of_employee(s, e)
        },
        records_of_other_employees(s.push(x), e) == if x.employee_id != e {
            records_of_other_employees(s, e).push(x)
        } else {
            records_of_other_employees(s, e)
        },
{
    reveal(Seq::filter);
    assert(s.push(x).drop_last() =~= s);
    assert(s.push(x).last() == x);
}

fn merge_step_exec(a: TimeOff, b: &TimeOff) -> (r: TimeOff)
    requires
        a.dates_valid(),
        b.dates_valid(),
    ensures
        r == merge_step(a, *b),
        r.dates_valid(),
{
    if same_or_adjacent_workdays(&a.end, &b.start) {
        let new_end = if a.end.on_or_before(&b.end) {
            b.end
        } else {
            a.end
        };
        TimeOff { employee_id: a.employee_id, name: a.name, start: a.start, end: new_end }
    } else {
        a
    }
}

fn merge_groups_exec(v: Vec<TimeOff>) -> (r: Vec<TimeOff>)
    requires
        forall|i: int| 0 <= i < v@.len() ==> (#[trigger] v@[i]).dates_valid(),
    ensures
        r@ == merge_groups(v@),
        forall|i: int| 0 <= i < r@.len() ==> (#[trigger] r@[i]).dates_valid(),
{
    let mut out: Vec<TimeOff> = Vec::new();
    let mut rem = v;
    while rem.len() > 0
        invariant
            out@ + merge_groups(rem@) =~= merge_groups(v@),
            forall|i: int| 0 <= i < rem@.len() ==> (#[trigger] rem@[i]).dates_valid(),
            forall|i: int| 0 <= i < out@.len() ==> (#[trigger] out@[i]).dates_valid(),
        decreases rem@.len(),
    {
        let ghost rem0 = rem@;
        let e = rem[0].employee_id;
        let mut acc = rem[0].clone();
        let mut rest: Vec<TimeOff> = Vec::new();
        let mut i: usize = 1;
        proof {
            reveal(Seq::filter);
            assert(rem0.subrange(1, 1) =~= Seq::empty());
            assert(records_of_employee(Seq::empty(), e) =~= Seq::empty());
            assert(records_of_other_employees(Seq::empty(), e) =~= Seq::empty());
        }
        while i < rem.len()
            invariant
                1 <= i <= rem@.len(),
                rem@ == rem0,
                e == rem0[0].employee_id,
                forall|k: int| 0 <= k < rem0.len() ==> (#[trigger] rem0[k]).dates_valid(),
                acc == fold_merge(rem0[0], records_of_employee(rem0.subrange(1, i as int), e)),
                acc.dates_valid(),
                rest@ == records_of_other_employees(rem0.subrange(1, i as int), e),
                forall|k: int| 0 <= k < rest@.len() ==> (#[trigger] rest@[k]).dates_valid(),
            decreases rem@.len() - i,
        {
            proof {
                assert(rem0.subrange(1, i + 1) =~= rem0.subrange(1, i as int).push(
                    rem0[i as int],
                ));
                lemma_records_of_employee_push(rem0.subrange(1, i as int), rem0[i as int], e);
                lemma_fold_merge_push(
                    rem0[0],
                    records_of_employee(rem0.subrange(1, i as int), e),
                    rem0[i as int],
                );
            }
            if rem[i].employee_id == e {
                acc = merge_step_exec(acc, &rem[i]);
            } else {
                rest.push(rem[i].clone());
            }
            i = i + 1;
        }
        proof {
            assert(rem0.subrange(1, rem0.len() as int) =~= rem0.drop_first());
            assert(merge_groups(rem0) == seq![
                fold_merge(rem0[0], records_of_employee(rem0.drop_first(), e)),
            ] + merge_groups(records_of_other_employees(rem0.drop_first(), e)));
            assert((out@ + merge_groups(rem0)) =~= (out@.push(acc) + merge_groups(rest@)));
        }
        out.push(acc);
        rem = rest;
    }
    proof {
        assert(merge_groups(rem@) =~= Seq::empty());
        assert(out@ + merge_groups(rem@) =~= out@);
    }
    out
}

/// Records whose end lies on or after `date`: leave that has not finished
/// yet.
pub open spec fn keep_unfinished(s: Seq<TimeOff>, date: Date) -> Seq<TimeOff> {
    s.filter(|l: TimeOff| date_le(date, l.end))
}

/// Merged periods that cover `date`.
pub open spec fn currently_away(s: Seq<TimeOff>, date: Date) -> Seq<TimeOff> {
    s.filter(|l: TimeOff| l.spec_includes(date))
}

/// The merger's full specification: drop finished records, sort by
/// `(start, end)`, fold each employee's records into the first contiguous
/// run, keep the runs that cover `date`.
pub open spec fn current_periods(s: Seq<TimeOff>, date: Date) -> Seq<TimeOff> {
    currently_away(merge_groups(sort_records_spec(keep_unfinished(s, date))), date)
}

proof fn lemma_keep_unfinished_push(s: Seq<TimeOff>, x: TimeOff, date: Date)
    ensures
        keep_unfinished(s.push(x), date) == if date_le(date, x.end) {
            keep_unfinished(s, date).push(x)
        } else {
            keep_unfinished(s, date)
        },
{
    reveal(Seq::filter);
    assert(s.push(x).drop_last() =~= s);
    assert(s.push(x).last() == x);
}

proof fn lemma_currently_away_push(s: Seq<TimeOff>, x: TimeOff, date: Date)
    ensures
        currently_away(s.push(x), date) == if x.spec_includes(date) {
            currently_away(s, date).push(x)
        } else {
            currently_away(s, date)
        },
{
    reveal(Seq::filter);
    assert(s.push(x).drop_last() =~= s);
    assert(s.push(x).last() == x);
}

/// The first contiguous period of leave for each employee, restricted to
/// periods that cover `date`.
///
/// Records whose leave already ended before `date` are ignored; the rest
/// are sorted by `(start, end)` and folded per employee, extending a run
/// while consecutive records are same-day, next-day or weekend-adjacent;
/// a record that does not chain onto the employee's first run is dropped
/// altogether. Only runs that include `date` are returned.
pub fn current_contiguous_period_per_user(leave: &Vec<TimeOff>, date: &Date) -> (r: Vec<TimeOff>)
    requires
        date.valid(),
        forall|i: int| 0 <= i < leave@.len() ==> (#[trigger] leave@[i]).dates_valid(),
    ensures
        r@ == current_periods(leave@, *date),
        forall|i: int| 0 <= i < r@.len() ==> (#[trigger] r@[i]).dates_valid(),
        forall|i: int| 0 <= i < r@.len() ==> (#[trigger] r@[i]).spec_includes(*date),
        forall|i: int, j: int|
            0 <= i < r@.len() && 0 <= j < r@.len() && (#[trigger] r@[i]).employee_id == (
            #[trigger] r@[j]).employee_id ==> r@[i] == r@[j],
{
    let mut kept: Vec<TimeOff> = Vec::new();
    let mut i: usize = 0;
    proof {
        reveal(Seq::filter);
        assert(leave@.take(0) =~= Seq::empty());
        assert(keep_unfinished(Seq::empty(), *date) =~= Seq::empty());
    }
    while i < leave.len()
        invariant
            i <= leave@.len(),
            date.valid(),
            forall|k: int| 0 <= k < leave@.len() ==> (#[trigger] leave@[k]).dates_valid(),
            kept@ == keep_unfinished(leave@.take(i as int), *date),
            forall|k: int| 0 <= k < kept@.len() ==> (#[trigger] kept@[k]).dates_valid(),
        decreases leave@.len() - i,
    {
        proof {
            assert(leave@.take(i + 1) =~= leave@.take(i as int).push(leave@[i as int]));
            lemma_keep_unfinished_push(leave@.take(i as int), leave@[i as int], *date);
        }
        if date.on_or_before(&leave[i].end) {
            kept.push(leave[i].clone());
        }
        i = i + 1;
    }
    proof {
        assert(leave@.take(leave@.len() as int) =~= leave@);
    }
    let sorted = sort_records(&kept);
    let merged = merge_groups_exec(sorted);
    let ghost merged_view = merged@;
    let mut out: Vec<TimeOff> = Vec::new();
    let mut j: usize = 0;
    proof {
        reveal(Seq::filter);
        assert(merged_view.take(0) =~= Seq::empty());
        assert(currently_away(Seq::empty(), *date) =~= Seq::empty());
    }
    while j < merged.len()
        invariant
            j <= merged_view.len(),
            merged@ == merged_view,
            date.valid(),
            forall|k: int| 0 <= k < merged_view.len() ==> (#[trigger] merged_view[k]).dates_valid(),
            out@ == currently_away(merged_view.take(j as int), *date),
            forall|k: int| 0 <= k < out@.len() ==> (#[trigger] out@[k]).dates_valid(),
            forall|k: int| 0 <= k < out@.len() ==> (#[trigger] out@[k]).spec_includes(*date),
        decreases merged_view.len() - j,
    {
        proof {
            assert(merged_view.take(j + 1) =~= merged_view.take(j as int).push(
                merged_view[j as int],
            ));
            lemma_currently_away_push(merged_view.take(j as int), merged_view[j as int], *date);
        }
        if merged[j].includes(date) {
            out.push(merged[j].clone());
        }
        j = j + 1;
    }
    proof {
        assert(merged_view.take(merged_view.len() as int) =~= merged_view);
        lemma_merge_groups_one_per_employee(sort_records_spec(keep_unfinished(leave@, *date)));
        lemma_currently_away_contains(merged_view, *date);
        assert forall|i: int, k: int|
            0 <= i < out@.len() && 0 <= k < out@.len() && (#[trigger] out@[i]).employee_id == (
            #[trigger] out@[k]).employee_id implies out@[i] == out@[k] by {
            assert(out@.contains(out@[i]));
            assert(out@.contains(out@[k]));
            assert(merged_view.contains(out@[i]));
            assert(merged_view.contains(out@[k]));
            let p = choose|p: int| 0 <= p < merged_view.len() && merged_view[p] == out@[i];
            let q = choose|q: int| 0 <= q < merged_view.len() && merged_view[q] == out@[k];
            assert(p == q);
        }
    }
    out
}

/// Folding never changes who or what the run is about, nor its start; the
/// end only ever moves later. In particular a run that starts no later than
/// it ends stays that way.
pub proof fn lemma_fold_merge_keeps_identity(a: TimeOff, rest: Seq<TimeOff>)
    ensures
        fold_merge(a, rest).employee_id == a.employee_id,
        fold_merge(a, rest).name == a.name,
        fold_merge(a, rest).start == a.start,
        day_number(a.end) <= day_number(fold_merge(a, rest).end),
    decreases rest.len(),
{
    if rest.len() > 0 {
        lemma_fold_merge_keeps_identity(merge_step(a, rest[0]), rest.drop_first());
    }
}

proof fn lemma_records_of_other_contains(s: Seq<TimeOff>, e: u64)
    ensures
        forall|x: TimeOff|
            #[trigger] records_of_other_employees(s, e).contains(x) ==> s.contains(x)
                && x.employee_id != e,
    decreases s.len(),
{
    reveal(Seq::filter);
    if s.len() > 0 {
        lemma_records_of_other_contains(s.drop_last(), e);
        let prev = records_of_other_employees(s.drop_last(), e);
        assert forall|x: TimeOff|
            #[trigger] records_of_other_employees(s, e).contains(x) implies s.contains(x)
            && x.employee_id != e by {
            let out = records_of_other_employees(s, e);
            let i = choose|i: int| 0 <= i < out.len() && out[i] == x;
            if s.last().employee_id != e && i == out.len() - 1 {
                assert(x == s.last());
                assert(s[s.len() - 1] == x);
            } else {
                assert(prev[i] == x);
                assert(prev.contains(x));
                let k = choose|k: int| 0 <= k < s.drop_last().len() && s.drop_last()[k] == x;
                assert(s[k] == x);
            }
        }
    }
}

proof fn lemma_currently_away_contains(s: Seq<TimeOff>, date: Date)
    ensures
        forall|x: TimeOff| #[trigger] currently_away(s, date).contains(x) ==> s.contains(x),
    decreases s.len(),
{
    reveal(Seq::filter);
    if s.len() > 0 {
        lemma_currently_away_contains(s.drop_last(), date);
        let prev = currently_away(s.drop_last(), date);
        assert forall|x: TimeOff| #[trigger] currently_away(s, date).contains(x) implies s.contains(
            x,
        ) by {
            let out = currently_away(s, date);
            let i = choose|i: int| 0 <= i < out.len() && out[i] == x;
            if s.last().spec_includes(date) && i == out.len() - 1 {
                assert(s[s.len() - 1] == x);
            } else {
                assert(prev[i] == x);
                assert(prev.contains(x));
                let k = choose|k: int| 0 <= k < s.drop_last().len() && s.drop_last()[k] == x;
                assert(s[k] == x);
            }
        }
    }
}

/// Every period the merger emits carries an employee identifier that occurs
/// in the input.
proof fn lemma_merge_groups_ids_present(s: Seq<TimeOff>)
    ensures
        forall|k: int|
            0 <= k < merge_groups(s).len() ==> exists|p: int|
                0 <= p < s.len() && s[p].employee_id == (#[trigger] merge_groups(
                    s,
                )[k]).employee_id,
    decreases s.len(),
{
    if s.len() > 0 {
        let e = s[0].employee_id;
        let group = records_of_employee(s.drop_first(), e);
        let rest = records_of_other_employees(s.drop_first(), e);
        lemma_merge_groups_ids_present(rest);
        lemma_records_of_other_contains(s.drop_first(), e);
        lemma_fold_merge_keeps_identity(s[0], group);
        assert forall|k: int| 0 <= k < merge_groups(s).len() implies exists|p: int|
            0 <= p < s.len() && s[p].employee_id == (#[trigger] merge_groups(
                s,
            )[k]).employee_id by {
            if k == 0 {
                assert(merge_groups(s)[0].employee_id == s[0].employee_id);
            } else {
                assert(merge_groups(s)[k] == merge_groups(rest)[k - 1]);
                let p = choose|p: int|
                    0 <= p < rest.len() && rest[p].employee_id == merge_groups(
                        rest,
                    )[k - 1].employee_id;
                assert(rest.contains(rest[p]));
                assert(s.drop_first().contains(rest[p]));
                let q = choose|q: int|
                    0 <= q < s.drop_first().len() && s.drop_first()[q] == rest[p];
                assert(s[q + 1] == rest[p]);
            }
        }
    }
}

/// Law: the merger emits at most one period per employee; its output meets
/// the renderer's determinism condition by construction.
pub proof fn lemma_merge_groups_one_per_employee(s: Seq<TimeOff>)
    ensures
        forall|i: int, j: int|
            0 <= i < merge_groups(s).len() && 0 <= j < merge_groups(s).len() && (
            #[trigger] merge_groups(s)[i]).employee_id == (#[trigger] merge_groups(
                s,
            )[j]).employee_id ==> i == j,
    decreases s.len(),
{
    if s.len() > 0 {
        let e = s[0].employee_id;
        let group = records_of_employee(s.drop_first(), e);
        let rest = records_of_other_employees(s.drop_first(), e);
        lemma_merge_groups_one_per_employee(rest);
        lemma_merge_groups_ids_present(rest);
        lemma_records_of_other_contains(s.drop_first(), e);
        lemma_fold_merge_keeps_identity(s[0], group);
        assert forall|i: int, j: int|
            0 <= i < merge_groups(s).len() && 0 <= j < merge_groups(s).len() && (
            #[trigger] merge_groups(s)[i]).employee_id == (#[trigger] merge_groups(
                s,
            )[j]).employee_id implies i == j by {
            if i > 0 {
                assert(merge_groups(s)[i] == merge_groups(rest)[i - 1]);
                lemma_merge_groups_rest_id_differs(s, i);
            }
            if j > 0 {
                assert(merge_groups(s)[j] == merge_groups(rest)[j - 1]);
                lemma_merge_groups_rest_id_differs(s, j);
            }
        }
    }
}

/// A period the merger emits after the first belongs to another employee
/// than the first record's.
proof fn lemma_merge_groups_rest_id_differs(s: Seq<TimeOff>, k: int)
    requires
        s.len() > 0,
        1 <= k < merge_groups(s).len(),
    ensures
        merge_groups(s)[k].employee_id != s[0].employee_id,
{
    let e = s[0].employee_id;
    let rest = records_of_other_employees(s.drop_first(), e);
    lemma_merge_groups_ids_present(rest);
    lemma_records_of_other_contains(s.drop_first(), e);
    assert(merge_groups(s)[k] == merge_groups(rest)[k - 1]);
    let p = choose|p: int|
        0 <= p < rest.len() && rest[p].employee_id == merge_groups(rest)[k - 1].employee_id;
    assert(rest.contains(rest[p]));
}

/// Law: two records of one employee whose first run ends on a Friday and
/// whose second starts the following Monday are weekend-adjacent, and the
/// merger folds them into one period running to the later of the two ends.
pub proof fn lemma_weekend_bridge_merges(a: TimeOff, b: TimeOff)
    requires
        a.employee_id == b.employee_id,
        weekday(a.end) == FRIDAY as int,
        day_number(b.start) == day_number(a.end) + 3,
    ensures
        spec_same_or_adjacent_workdays(a.end, b.start),
        merge_groups(seq![a, b]) =~= seq![
            (TimeOff {
                employee_id: a.employee_id,
                name: a.name,
                start: a.start,
                end: if day_number(a.end) <= day_number(b.end) {
                    b.end
                } else {
                    a.end
                },
            }),
        ],
{
    lemma_merge_groups_pair(a, b);
}

/// Law: two records of one employee separated by anything other than the
/// same-day, next-day or Friday-to-Monday rule are not merged; only the
/// earlier run is retained.
pub proof fn lemma_gap_keeps_first_run_only(a: TimeOff, b: TimeOff)
    requires
        a.employee_id == b.employee_id,
        day_number(a.end) + 1 < day_number(b.start),
        !(weekday(a.end) == FRIDAY as int && day_number(b.start) == day_number(a.end) + 3),
    ensures
        !spec_same_or_adjacent_workdays(a.end, b.start),
        merge_groups(seq![a, b]) =~= seq![a],
{
    lemma_merge_groups_pair(a, b);
}

/// The merger on exactly two records of the same employee performs exactly
/// one folding step.
proof fn lemma_merge_groups_pair(a: TimeOff, b: TimeOff)
    requires
        a.employee_id == b.employee_id,
    ensures
        merge_groups(seq![a, b]) =~= seq![merge_step(a, b)],
{
    reveal(Seq::filter);
    let s = seq![a, b];
    assert(s.drop_first() =~= seq![b]);
    assert(seq![b] =~= Seq::empty().push(b));
    lemma_records_of_employee_push(Seq::<TimeOff>::empty(), b, a.employee_id);
    assert(records_of_employee(Seq::empty(), a.employee_id) =~= Seq::empty());
    assert(records_of_other_employees(Seq::empty(), a.employee_id) =~= Seq::empty());
    assert(records_of_employee(seq![b], a.employee_id) =~= Seq::empty().push(b));
    assert(records_of_other_employees(seq![b], a.employee_id) =~= Seq::empty());
    lemma_fold_merge_push(a, Seq::empty(), b);
    assert(Seq::<TimeOff>::empty().push(b) =~= seq![b]);
    assert(fold_merge(a, Seq::empty()) == a);
    assert(merge_groups(Seq::<TimeOff>::empty()) =~= Seq::empty());
}

/// Law: a period is current exactly from its start date through its end
/// date; both boundary days count as current.
pub proof fn lemma_current_at_boundaries(p: TimeOff)
    requires
        date_le(p.start, p.end),
    ensures
        p.spec_includes(p.start),
        p.spec_includes(p.end),
{
}

} // verus!
