//! The integer tail of the EMI engine: once the rows of a schedule are
//! simulated, it fills in what is still owed after each row, dates the rows,
//! adds up the totals and builds the per-year breakdown. The laws that tie the
//! breakdown and the totals to the rows live here too.
use vstd::prelude::*;

use crate::emi::engine::{
    emi_total, empty_months, fill_remaining, fits_i64, group_by_year, grouped, month_in_range,
    months_in_range, real_total, suffix_totals_fit, with_remaining, year_step, year_totals_fit,
    years_view,
};
use crate::emi::model::{
    advance_fits, advanced, law_advance_counts_months, month_number, EmiMonth, EmiTotals, EmiYear,
    EmiYearMonth, EmiYearView, YearMonth,
};

verus! {

/// Every row carries both a year and a month.
pub open spec fn all_dated(rows: Seq<EmiMonth>) -> bool {
    forall|k: int| 0 <= k < rows.len() ==> (#[trigger] rows[k]).year is Some && rows[k].month is Some
}

/// Row `i` of `rows` carries the date `i` months after `start`.
pub open spec fn dated_from(rows: Seq<EmiMonth>, start: YearMonth) -> bool {
    forall|i: int|
        0 <= i < rows.len() ==> advance_fits(start, i) && (#[trigger] rows[i]).year == Some(
            advanced(start, i).year,
        ) && rows[i].month == Some(advanced(start, i).month)
}

/// Sum of the nominal totals of the years.
pub open spec fn years_nominal(years: Seq<EmiYearView>) -> int
    decreases years.len(),
{
    if years.len() == 0 {
        0
    } else {
        years_nominal(years.drop_last()) + years.last().nominal_total
    }
}

/// Sum of the real totals of the years.
pub open spec fn years_real(years: Seq<EmiYearView>) -> int
    decreases years.len(),
{
    if years.len() == 0 {
        0
    } else {
        years_real(years.drop_last()) + years.last().real_total
    }
}

/// How many slots hold a payment.
pub open spec fn filled(slots: Seq<Option<EmiYearMonth>>) -> int
    decreases slots.len(),
{
    if slots.len() == 0 {
        0
    } else {
        filled(slots.drop_last()) + if slots.last() is Some {
            1int
        } else {
            0int
        }
    }
}

/// How many slots of all the years hold a payment.
pub open spec fn years_filled(years: Seq<EmiYearView>) -> int
    decreases years.len(),
{
    if years.len() == 0 {
        0
    } else {
        years_filled(years.drop_last()) + filled(years.last().months)
    }
}

/// Totals add up over concatenation.
proof fn lemma_totals_concat(a: Seq<EmiMonth>, b: Seq<EmiMonth>)
    ensures
        emi_total(a + b) == emi_total(a) + emi_total(b),
        real_total(a + b) == real_total(a) + real_total(b),
    decreases a.len(),
{
    if a.len() == 0 {
        assert(a + b =~= b);
    } else {
        assert((a + b).drop_first() =~= a.drop_first() + b);
        lemma_totals_concat(a.drop_first(), b);
    }
}

/// Extending a run of rows by the next row adds that row's amounts.
proof fn lemma_segment_push(rows: Seq<EmiMonth>, a: int, k: int)
    requires
        0 <= a <= k < rows.len(),
    ensures
        emi_total(rows.subrange(a, k + 1)) == emi_total(rows.subrange(a, k)) + rows[k].emi,
        real_total(rows.subrange(a, k + 1)) == real_total(rows.subrange(a, k)) + rows[k].real_emi,
{
    assert(rows.subrange(a, k + 1) =~= rows.subrange(a, k) + seq![rows[k]]);
    lemma_totals_concat(rows.subrange(a, k), seq![rows[k]]);
    lemma_single_row_totals(rows[k]);
}

/// A single row totals its own amounts.
proof fn lemma_single_row_totals(row: EmiMonth)
    ensures
        emi_total(seq![row]) == row.emi,
        real_total(seq![row]) == row.real_emi,
{
    assert(seq![row].drop_first() =~= Seq::<EmiMonth>::empty());
    assert(emi_total(Seq::<EmiMonth>::empty()) == 0);
    assert(real_total(Seq::<EmiMonth>::empty()) == 0);
}

/// Every run of consecutive rows has totals that fit in an `i64`.
pub open spec fn segment_totals_fit(rows: Seq<EmiMonth>) -> bool {
    forall|a: int, b: int|
        0 <= a <= b <= rows.len() ==> fits_i64(emi_total(#[trigger] rows.subrange(a, b))) && fits_i64(
            real_total(rows.subrange(a, b)),
        )
}

/// `year` totals the rows `rows[a..b]` for some run `a..b`.
pub open spec fn totals_a_run(rows: Seq<EmiMonth>, year: EmiYearView) -> bool {
    exists|a: int, b: int|
        0 <= a <= b <= rows.len() && year.nominal_total == emi_total(#[trigger] rows.subrange(a, b))
            && year.real_total == real_total(rows.subrange(a, b))
}

/// `year` totals the rows from some row to the end.
pub open spec fn totals_a_tail(rows: Seq<EmiMonth>, year: EmiYearView) -> bool {
    exists|a: int|
        0 <= a <= rows.len() && year.nominal_total == emi_total(#[trigger] rows.subrange(a, rows.len() as int))
            && year.real_total == real_total(rows.subrange(a, rows.len() as int))
}

/// The rows before the last are dated when all rows are.
proof fn lemma_all_dated_prefix(rows: Seq<EmiMonth>)
    requires
        all_dated(rows),
        rows.len() > 0,
    ensures
        all_dated(rows.drop_last()),
        rows.last().year is Some,
        rows.last().month is Some,
{
    assert forall|k: int| 0 <= k < rows.drop_last().len() implies (#[trigger] rows.drop_last()[k]).year is Some && rows.drop_last()[k].month is Some by {
        assert(rows.drop_last()[k] == rows[k]);
    }
    assert(rows[rows.len() - 1] == rows.last());
}

/// In a breakdown of fully dated rows, each year totals a run of rows, and the
/// last year runs to the end.
proof fn lemma_grouped_runs(rows: Seq<EmiMonth>)
    requires
        all_dated(rows),
    ensures
        forall|j: int| 0 <= j < grouped(rows).len() ==> totals_a_run(rows, #[trigger] grouped(rows)[j]),
        rows.len() > 0 ==> grouped(rows).len() > 0 && totals_a_tail(rows, grouped(rows).last()),
    decreases rows.len(),
{
    if rows.len() > 0 {
        let n = rows.len() as int;
        let prev = rows.drop_last();
        lemma_all_dated_prefix(rows);
        lemma_grouped_runs(prev);
        let years = grouped(prev);
        let row = rows.last();
        assert(grouped(rows) == year_step(years, row));
        assert forall|a: int, b: int| 0 <= a <= b <= n - 1 implies #[trigger] prev.subrange(a, b) == rows.subrange(a, b) by {
            assert(prev.subrange(a, b) =~= rows.subrange(a, b));
        }
        assert(rows[n - 1] == row);
        let y = row.year->0;
        if years.len() > 0 && years.last().year == y {
            let a = choose|a: int| 0 <= a <= prev.len() && years.last().nominal_total == emi_total(#[trigger] prev.subrange(a, prev.len() as int)) && years.last().real_total == real_total(prev.subrange(a, prev.len() as int));
            assert(prev.subrange(a, n - 1) == rows.subrange(a, n - 1));
            lemma_segment_push(rows, a, n - 1);
            assert(rows.subrange(a, n) == rows.subrange(a, n));
            assert(totals_a_tail(rows, grouped(rows).last()));
            assert forall|j: int| 0 <= j < grouped(rows).len() implies totals_a_run(rows, #[trigger] grouped(rows)[j]) by {
                if j < years.len() - 1 {
                    assert(grouped(rows)[j] == years[j]);
                    assert(totals_a_run(prev, years[j]));
                    let (a2, b2) = choose|a2: int, b2: int| 0 <= a2 <= b2 <= prev.len() && years[j].nominal_total == emi_total(#[trigger] prev.subrange(a2, b2)) && years[j].real_total == real_total(prev.subrange(a2, b2));
                    assert(prev.subrange(a2, b2) == rows.subrange(a2, b2));
                } else {
                    assert(rows.subrange(a, n) == rows.subrange(a, n));
                }
            }
        } else {
            lemma_segment_push(rows, n - 1, n - 1);
            assert(rows.subrange(n - 1, n - 1) =~= Seq::<EmiMonth>::empty());
            assert(totals_a_tail(rows, grouped(rows).last()));
            assert forall|j: int| 0 <= j < grouped(rows).len() implies totals_a_run(rows, #[trigger] grouped(rows)[j]) by {
                if j < years.len() {
                    assert(grouped(rows)[j] == years[j]);
                    assert(totals_a_run(prev, years[j]));
                    let (a2, b2) = choose|a2: int, b2: int| 0 <= a2 <= b2 <= prev.len() && years[j].nominal_total == emi_total(#[trigger] prev.subrange(a2, b2)) && years[j].real_total == real_total(prev.subrange(a2, b2));
                    assert(prev.subrange(a2, b2) == rows.subrange(a2, b2));
                } else {
                    assert(rows.subrange(n - 1, n) == rows.subrange(n - 1, n));
                }
            }
        }
    }
}

/// A prefix of fully dated rows is fully dated.
proof fn lemma_all_dated_take(rows: Seq<EmiMonth>, k: int)
    requires
        all_dated(rows),
        0 <= k <= rows.len(),
    ensures
        all_dated(rows.take(k)),
{
    assert forall|i: int| 0 <= i < rows.take(k).len() implies (#[trigger] rows.take(k)[i]).year is Some && rows.take(k)[i].month is Some by {
        assert(rows.take(k)[i] == rows[i]);
    }
}

/// When every run of rows totals within `i64`, so does every running year
/// total of fully dated rows.
proof fn lemma_year_totals_fit(rows: Seq<EmiMonth>)
    requires
        all_dated(rows),
        segment_totals_fit(rows),
    ensures
        year_totals_fit(rows),
{
    assert forall|k: int, j: int|
        0 <= k <= rows.len() && 0 <= j < grouped(rows.take(k)).len() implies fits_i64(
        #[trigger] grouped(rows.take(k))[j].nominal_total,
    ) && fits_i64(grouped(rows.take(k))[j].real_total) by {
        let p = rows.take(k);
        lemma_all_dated_take(rows, k);
        lemma_grouped_runs(p);
        assert(totals_a_run(p, grouped(p)[j]));
        let (a, b) = choose|a: int, b: int| 0 <= a <= b <= p.len() && grouped(p)[j].nominal_total == emi_total(#[trigger] p.subrange(a, b)) && grouped(p)[j].real_total == real_total(p.subrange(a, b));
        assert(p.subrange(a, b) =~= rows.subrange(a, b));
    }
}

/// The year totals of fully dated rows add up to the schedule's totals: every
/// payment is counted in exactly one year.
pub proof fn law_year_totals_reconcile(rows: Seq<EmiMonth>)
    requires
        all_dated(rows),
    ensures
        years_nominal(grouped(rows)) == emi_total(rows),
        years_real(grouped(rows)) == real_total(rows),
    decreases rows.len(),
{
    if rows.len() == 0 {
        assert(grouped(rows) =~= Seq::<EmiYearView>::empty());
    } else {
        let n = rows.len() as int;
        let prev = rows.drop_last();
        lemma_all_dated_prefix(rows);
        law_year_totals_reconcile(prev);
        let years = grouped(prev);
        let row = rows.last();
        assert(grouped(rows) == year_step(years, row));
        assert(rows.take(n) =~= rows);
        assert(rows.subrange(0, n - 1) =~= prev);
        assert(rows.subrange(0, n) =~= rows);
        lemma_segment_push(rows, 0, n - 1);
        assert(rows[n - 1] == row);
        if years.len() > 0 && years.last().year == row.year->0 {
            assert(grouped(rows).drop_last() =~= years.drop_last());
        } else {
            assert(grouped(rows).drop_last() =~= years);
        }
    }
}

/// Filling an empty slot fills one more.
proof fn lemma_filled_update(slots: Seq<Option<EmiYearMonth>>, i: int, v: EmiYearMonth)
    requires
        0 <= i < slots.len(),
        slots[i] is None,
    ensures
        filled(slots.update(i, Some(v))) == filled(slots) + 1,
    decreases slots.len(),
{
    let u = slots.update(i, Some(v));
    if i == slots.len() - 1 {
        assert(u.drop_last() =~= slots.drop_last());
    } else {
        assert(u.drop_last() =~= slots.drop_last().update(i, Some(v)));
        lemma_filled_update(slots.drop_last(), i, v);
    }
}

/// Slots that are all empty hold no payment.
proof fn lemma_filled_none(slots: Seq<Option<EmiYearMonth>>)
    requires
        forall|i: int| 0 <= i < slots.len() ==> (#[trigger] slots[i]) is None,
    ensures
        filled(slots) == 0,
    decreases slots.len(),
{
    if slots.len() > 0 {
        lemma_filled_none(slots.drop_last());
    }
}

/// One month on from offset `t`, in the same year, is the next month.
proof fn lemma_next_month(t: int)
    requires
        0 <= t,
        t / 12 == (t + 1) / 12,
    ensures
        (t + 1) % 12 == t % 12 + 1,
{
    assert(t == (t / 12) * 12 + t % 12);
    assert(t + 1 == ((t + 1) / 12) * 12 + (t + 1) % 12);
}

/// The rows before the last of rows dated from `start` are dated from it too.
proof fn lemma_dated_from_prefix(rows: Seq<EmiMonth>, start: YearMonth)
    requires
        dated_from(rows, start),
        rows.len() > 0,
    ensures
        dated_from(rows.drop_last(), start),
{
    assert forall|i: int| 0 <= i < rows.drop_last().len() implies advance_fits(start, i) && (#[trigger] rows.drop_last()[i]).year == Some(advanced(start, i).year) && rows.drop_last()[i].month == Some(advanced(start, i).month) by {
        assert(rows.drop_last()[i] == rows[i]);
    }
}

/// The breakdown of rows dated month by month from `start` fills one slot per
/// row, and its last year is that of the last row, with every slot from that
/// row's month on still empty.
proof fn lemma_cover(rows: Seq<EmiMonth>, start: YearMonth)
    requires
        dated_from(rows, start),
    ensures
        years_filled(grouped(rows)) == rows.len(),
        forall|j: int| 0 <= j < grouped(rows).len() ==> (#[trigger] grouped(rows)[j]).months.len() == 12,
        rows.len() > 0 ==> ({
            let at = advanced(start, rows.len() - 1);
            &&& grouped(rows).len() > 0
            &&& grouped(rows).last().year == at.year
            &&& forall|q: int| at.month <= q < 12 ==> (#[trigger] grouped(rows).last().months[q]) is None
        }),
    decreases rows.len(),
{
    assert(months_in_range(rows)) by {
        assert forall|k: int| 0 <= k < rows.len() implies month_in_range(#[trigger] rows[k]) by {
            assert(advance_fits(start, k));
        }
    }
    crate::emi::engine::lemma_grouped_twelve_slots(rows);
    if rows.len() == 0 {
        assert(grouped(rows) =~= Seq::<EmiYearView>::empty());
    } else {
        let n = rows.len() as int;
        let prev = rows.drop_last();
        lemma_dated_from_prefix(rows, start);
        lemma_cover(prev, start);
        let years = grouped(prev);
        let row = rows.last();
        assert(rows[n - 1] == row);
        assert(grouped(rows) == year_step(years, row));
        assert(advance_fits(start, n - 1));
        let at = advanced(start, n - 1);
        let slot = Some(EmiYearMonth { nominal: row.emi, real: row.real_emi });
        if years.len() > 0 && years.last().year == at.year {
            let before = advanced(start, n - 2);
            assert(advance_fits(start, n - 2));
            let t = start.month - 1 + (n - 2);
            assert(t / 12 == (t + 1) / 12);
            lemma_next_month(t);
            assert(at.month == before.month + 1);
            let last = years.last();
            assert(last.months[at.month - 1] is None);
            lemma_filled_update(last.months, at.month - 1, EmiYearMonth { nominal: row.emi, real: row.real_emi });
            assert(grouped(rows).drop_last() =~= years.drop_last());
        } else {
            assert(grouped(rows).drop_last() =~= years);
            lemma_filled_none(empty_months());
            lemma_filled_update(empty_months(), at.month - 1, EmiYearMonth { nominal: row.emi, real: row.real_emi });
        }
    }
}

/// Every payment of a schedule dated month by month from `start` lands in
/// exactly one month slot of the per-year breakdown.
pub proof fn law_years_cover_each_payment(rows: Seq<EmiMonth>, start: YearMonth)
    requires
        dated_from(rows, start),
    ensures
        years_filled(grouped(rows)) == rows.len(),
{
    lemma_cover(rows, start);
}

/// A dated row's month, counted from January of year zero.
pub open spec fn row_month_number(row: EmiMonth) -> int {
    row.year->0 * 12 + row.month->0 - 1
}

/// The rows' dates strictly increase from row to row.
pub open spec fn dates_increase(rows: Seq<EmiMonth>) -> bool {
    forall|i: int, j: int|
        0 <= i < j < rows.len() ==> row_month_number(#[trigger] rows[i]) < row_month_number(
            #[trigger] rows[j],
        )
}

/// Some year entry of `years` is for `row`'s year and holds, in the slot of
/// `row`'s month, exactly `row`'s nominal and real payment.
pub open spec fn holds_payment(years: Seq<EmiYearView>, row: EmiMonth) -> bool {
    exists|j: int|
        0 <= j < years.len() && (#[trigger] years[j]).year == row.year->0 && years[j].months[row.month->0
            - 1] == Some(EmiYearMonth { nominal: row.emi, real: row.real_emi })
}

/// In the breakdown of rows whose dates increase, the year of a row that is
/// the last of its year closes on that row's outstanding balance.
pub proof fn law_year_closes_on_its_last_row(rows: Seq<EmiMonth>, k: int)
    requires
        all_dated(rows),
        months_in_range(rows),
        dates_increase(rows),
        0 <= k < rows.len(),
        k == rows.len() - 1 || rows[k + 1].year != rows[k].year,
    ensures
        exists|j: int|
            0 <= j < grouped(rows).len() && (#[trigger] grouped(rows)[j]).year == rows[k].year->0
                && grouped(rows)[j].closing_outstanding == rows[k].outstanding,
    decreases rows.len(),
{
    let n = rows.len() as int;
    let prev = rows.drop_last();
    let years = grouped(prev);
    let row = rows.last();
    lemma_all_dated_prefix(rows);
    assert(rows[n - 1] == row);
    assert(grouped(rows) == year_step(years, row));
    let y = row.year->0;
    if k == n - 1 {
        if years.len() > 0 && years.last().year == y {
            assert(grouped(rows)[years.len() - 1].closing_outstanding == row.outstanding);
        } else {
            assert(grouped(rows)[years.len() as int].closing_outstanding == row.outstanding);
        }
    } else {
        assert(months_in_range(prev)) by {
            assert forall|q: int| 0 <= q < prev.len() implies month_in_range(#[trigger] prev[q]) by {
                assert(prev[q] == rows[q]);
            }
        }
        assert(dates_increase(prev)) by {
            assert forall|i: int, j: int| 0 <= i < j < prev.len() implies row_month_number(#[trigger] prev[i]) < row_month_number(#[trigger] prev[j]) by {
                assert(prev[i] == rows[i]);
                assert(prev[j] == rows[j]);
            }
        }
        assert(prev[k] == rows[k]);
        if k + 1 < n - 1 {
            assert(prev[k + 1] == rows[k + 1]);
        }
        law_year_closes_on_its_last_row(prev, k);
        let j = choose|j: int| 0 <= j < years.len() && (#[trigger] years[j]).year == prev[k].year->0 && years[j].closing_outstanding == prev[k].outstanding;
        assert(month_in_range(rows[k]));
        assert(month_in_range(rows[k + 1]));
        assert(month_in_range(rows[n - 1]));
        assert(row_month_number(rows[k]) < row_month_number(rows[k + 1]));
        if k + 1 < n - 1 {
            assert(row_month_number(rows[k + 1]) < row_month_number(rows[n - 1]));
        }
        assert(rows[k + 1].year->0 > rows[k].year->0);
        assert(y != rows[k].year->0);
        assert(grouped(rows)[j] == years[j]);
    }
}

/// Rows dated month by month from `start` have increasing dates.
proof fn lemma_dated_from_increase(rows: Seq<EmiMonth>, start: YearMonth)
    requires
        dated_from(rows, start),
        1 <= start.month <= 12,
    ensures
        dates_increase(rows),
        all_dated(rows),
        months_in_range(rows),
{
    assert forall|i: int| 0 <= i < rows.len() implies row_month_number(#[trigger] rows[i]) == month_number(start) + i && month_in_range(rows[i]) by {
        let row = rows[i];
        assert(advance_fits(start, i));
        law_advance_counts_months(start, i);
    }
}

/// In the breakdown of rows whose dates increase, each row's payment sits in
/// its own month's slot of a year entry for its own year: the slot holds that
/// row's nominal and real payment, not a running total.
pub proof fn law_each_slot_holds_its_payment(rows: Seq<EmiMonth>, k: int)
    requires
        all_dated(rows),
        months_in_range(rows),
        dates_increase(rows),
        0 <= k < rows.len(),
    ensures
        holds_payment(grouped(rows), rows[k]),
    decreases rows.len(),
{
    let n = rows.len() as int;
    let prev = rows.drop_last();
    let years = grouped(prev);
    let row = rows.last();
    lemma_all_dated_prefix(rows);
    assert(rows[n - 1] == row);
    assert(month_in_range(rows[n - 1]));
    assert(months_in_range(prev)) by {
        assert forall|q: int| 0 <= q < prev.len() implies month_in_range(#[trigger] prev[q]) by {
            assert(prev[q] == rows[q]);
        }
    }
    crate::emi::engine::lemma_grouped_twelve_slots(prev);
    assert(grouped(rows) == year_step(years, row));
    let y = row.year->0;
    let m = row.month->0;
    let slot = Some(EmiYearMonth { nominal: row.emi, real: row.real_emi });
    if k == n - 1 {
        if years.len() > 0 && years.last().year == y {
            let j = years.len() - 1;
            assert(years.last().months.len() == 12);
            assert(grouped(rows)[j].months == years.last().months.update(m - 1, slot));
            assert(grouped(rows)[j].months[m - 1] == slot);
        } else {
            let j = years.len() as int;
            assert(grouped(rows)[j].months == empty_months().update(m - 1, slot));
            assert(grouped(rows)[j].months[m - 1] == slot);
        }
    } else {
        assert(dates_increase(prev)) by {
            assert forall|i: int, j: int| 0 <= i < j < prev.len() implies row_month_number(#[trigger] prev[i]) < row_month_number(#[trigger] prev[j]) by {
                assert(prev[i] == rows[i]);
                assert(prev[j] == rows[j]);
            }
        }
        assert(prev[k] == rows[k]);
        law_each_slot_holds_its_payment(prev, k);
        let j = choose|j: int| 0 <= j < years.len() && (#[trigger] years[j]).year == prev[k].year->0 && years[j].months[prev[k].month->0 - 1] == Some(EmiYearMonth { nominal: prev[k].emi, real: prev[k].real_emi });
        assert(row_month_number(rows[k]) < row_month_number(rows[n - 1]));
        assert(month_in_range(rows[k]));
        if years.len() > 0 && years.last().year == y {
            if j == years.len() - 1 {
                assert(rows[k].month->0 != m);
                assert(years[j].months.len() == 12);
                assert(grouped(rows)[j].months == years[j].months.update(m - 1, slot));
            } else {
                assert(grouped(rows)[j] == years[j]);
            }
        } else {
            assert(grouped(rows)[j] == years[j]);
        }
        assert(0 <= j < grouped(rows).len());
        assert(grouped(rows)[j].year == rows[k].year->0);
    }
}

/// The two schedules have the same amounts row by row.
pub open spec fn same_amounts(a: Seq<EmiMonth>, b: Seq<EmiMonth>) -> bool {
    &&& a.len() == b.len()
    &&& forall|i: int| 0 <= i < a.len() ==> (#[trigger] a[i]).emi == b[i].emi && a[i].real_emi == b[i].real_emi
}

/// Schedules with the same amounts have the same totals.
proof fn lemma_same_amounts_totals(a: Seq<EmiMonth>, b: Seq<EmiMonth>)
    requires
        same_amounts(a, b),
    ensures
        emi_total(a) == emi_total(b),
        real_total(a) == real_total(b),
    decreases a.len(),
{
    if a.len() > 0 {
        assert(same_amounts(a.drop_first(), b.drop_first())) by {
            assert forall|i: int| 0 <= i < a.drop_first().len() implies (#[trigger] a.drop_first()[i]).emi == b.drop_first()[i].emi && a.drop_first()[i].real_emi == b.drop_first()[i].real_emi by {
                assert(a.drop_first()[i] == a[i + 1]);
                assert(b.drop_first()[i] == b[i + 1]);
            }
        }
        lemma_same_amounts_totals(a.drop_first(), b.drop_first());
        assert(a[0].emi == b[0].emi);
    }
}

/// Runs of rows of schedules with the same amounts have the same totals.
proof fn lemma_same_amounts_segments(a: Seq<EmiMonth>, b: Seq<EmiMonth>)
    requires
        same_amounts(a, b),
        segment_totals_fit(a),
    ensures
        segment_totals_fit(b),
{
    assert forall|x: int, y: int| 0 <= x <= y <= b.len() implies fits_i64(emi_total(#[trigger] b.subrange(x, y))) && fits_i64(real_total(b.subrange(x, y))) by {
        assert(same_amounts(a.subrange(x, y), b.subrange(x, y))) by {
            assert forall|i: int| 0 <= i < a.subrange(x, y).len() implies (#[trigger] a.subrange(x, y)[i]).emi == b.subrange(x, y)[i].emi && a.subrange(x, y)[i].real_emi == b.subrange(x, y)[i].real_emi by {
                assert(a.subrange(x, y)[i] == a[x + i]);
                assert(b.subrange(x, y)[i] == b[x + i]);
            }
        }
        lemma_same_amounts_totals(a.subrange(x, y), b.subrange(x, y));
    }
}

/// The row as dated from `start`: with a start, its year and month are those
/// of `start` advanced by the row's index; without one it is unchanged.
pub open spec fn dated_row(row: EmiMonth, start: Option<YearMonth>) -> EmiMonth {
    match start {
        Some(s) => EmiMonth {
            year: Some(advanced(s, row.index as int).year),
            month: Some(advanced(s, row.index as int).month),
            ..row
        },
        None => row,
    }
}

/// Row `i` of the finished schedule: what is still owed after it filled in,
/// then dated.
pub open spec fn finished_row(rows: Seq<EmiMonth>, i: int, start: Option<YearMonth>) -> EmiMonth {
    dated_row(
        with_remaining(rows[i], emi_total(rows.skip(i + 1)), real_total(rows.skip(i + 1))),
        start,
    )
}

/// Every row's index can date it from `start`.
pub open spec fn start_fits(rows: Seq<EmiMonth>, start: Option<YearMonth>) -> bool {
    match start {
        Some(s) => forall|i: int| 0 <= i < rows.len() ==> advance_fits(s, (#[trigger] rows[i]).index as int),
        None => true,
    }
}

/// The headline totals of a schedule for a loan of `principal`.
pub open spec fn loan_totals(rows: Seq<EmiMonth>, principal: i64) -> EmiTotals {
    EmiTotals {
        nominal_paid: emi_total(rows) as i64,
        real_paid: real_total(rows) as i64,
        nominal_principal: principal,
        nominal_interest: (emi_total(rows) - principal) as i64,
        real_principal: principal,
        real_interest: (real_total(rows) - principal) as i64,
    }
}

/// The row indices run `0, 1, 2, ...` in order.
pub open spec fn dense_indices(rows: Seq<EmiMonth>) -> bool {
    forall|i: int| 0 <= i < rows.len() ==> (#[trigger] rows[i]).index == i
}

/// A finished schedule with its totals and per-year breakdown.
pub struct ScheduleSummary {
    /// The rows, with what is still owed after each filled in, and dated when
    /// there was a start.
    pub schedule: Vec<EmiMonth>,
    /// Headline totals.
    pub totals: EmiTotals,
    /// Per-calendar-year breakdown; empty without a start.
    pub years: Vec<EmiYear>,
}

/// Finishes a simulated schedule the way the engine does after simulating it:
/// fills in what is still owed after each row, dates the rows from `start`
/// when there is one, adds up the totals against the `principal` borrowed,
/// and builds the per-year breakdown of a dated schedule.
///
/// With a start, the year totals add up to the schedule's totals; when the
/// rows are numbered densely from zero, every payment also lands in exactly
/// one month slot of the breakdown.
pub fn summarize_schedule(schedule: Vec<EmiMonth>, start: Option<YearMonth>, principal: i64) -> (r:
    ScheduleSummary)
    requires
        segment_totals_fit(schedule@),
        fits_i64(emi_total(schedule@) - principal),
        fits_i64(real_total(schedule@) - principal),
        start_fits(schedule@, start),
    ensures
        r.schedule@.len() == schedule@.len(),
        forall|i: int|
            0 <= i < schedule@.len() ==> #[trigger] r.schedule@[i] == finished_row(schedule@, i, start),
        r.totals == loan_totals(schedule@, principal),
        match start {
            None => r.years@.len() == 0,
            Some(s) => {
                &&& years_view(r.years@) == grouped(r.schedule@)
                &&& years_nominal(years_view(r.years@)) == r.totals.nominal_paid
                &&& years_real(years_view(r.years@)) == r.totals.real_paid
                &&& dense_indices(schedule@) ==> years_filled(years_view(r.years@)) == schedule@.len()
                &&& dense_indices(schedule@) && 1 <= s.month <= 12 ==> forall|k: int|
                    0 <= k < schedule@.len() ==> holds_payment(
                        years_view(r.years@),
                        #[trigger] r.schedule@[k],
                    )
            },
        },
{
    let ghost orig = schedule@;
    let n = schedule.len();
    let mut rows = schedule;
    proof {
        assert forall|i: int| 0 <= i <= orig.len() implies fits_i64(emi_total(#[trigger] orig.skip(i))) && fits_i64(real_total(orig.skip(i))) by {
            assert(orig.skip(i) =~= orig.subrange(i, orig.len() as int));
        }
        assert(suffix_totals_fit(orig));
    }
    fill_remaining(&mut rows);
    if let Some(s) = start {
        for i in 0..n
            invariant
                n == orig.len(),
                rows@.len() == n,
                start == Some(s),
                start_fits(orig, start),
                forall|j: int| 0 <= j < i ==> #[trigger] rows@[j] == finished_row(orig, j, start),
                forall|j: int| i <= j < n ==> #[trigger] rows@[j] == with_remaining(orig[j], emi_total(orig.skip(j + 1)), real_total(orig.skip(j + 1))),
        {
            let mut row = rows[i];
            proof {
                assert(rows@[i as int] == with_remaining(orig[i as int], emi_total(orig.skip(i + 1)), real_total(orig.skip(i + 1))));
                assert(advance_fits(s, orig[i as int].index as int));
            }
            let at = s.advance(row.index);
            row.year = Some(at.year);
            row.month = Some(at.month);
            rows.set(i, row);
        }
    }
    let ghost finished = rows@;
    assert(forall|j: int| 0 <= j < n ==> #[trigger] finished[j] == finished_row(orig, j, start));
    proof {
        assert(same_amounts(orig, finished));
    }
    let mut nominal: i64 = 0;
    let mut discounted: i64 = 0;
    assert(orig.subrange(0, 0) =~= Seq::<EmiMonth>::empty());
    for i in 0..n
        invariant
            n == orig.len(),
            rows@ == finished,
            same_amounts(orig, finished),
            segment_totals_fit(orig),
            nominal == emi_total(orig.subrange(0, i as int)),
            discounted == real_total(orig.subrange(0, i as int)),
    {
        proof {
            lemma_segment_push(orig, 0, i as int);
            assert(fits_i64(emi_total(orig.subrange(0, i + 1))));
            assert(fits_i64(real_total(orig.subrange(0, i + 1))));
            assert(rows@[i as int].emi == orig[i as int].emi);
        }
        nominal = nominal + rows[i].emi;
        discounted = discounted + rows[i].real_emi;
    }
    assert(orig.subrange(0, n as int) =~= orig);
    let totals = EmiTotals {
        nominal_paid: nominal,
        real_paid: discounted,
        nominal_principal: principal,
        nominal_interest: nominal - principal,
        real_principal: principal,
        real_interest: discounted - principal,
    };
    let years = match start {
        Some(s) => {
            proof {
                assert(all_dated(finished));
                assert(months_in_range(finished)) by {
                    assert forall|k: int| 0 <= k < finished.len() implies month_in_range(#[trigger] finished[k]) by {
                        assert(advance_fits(s, orig[k].index as int));
                    }
                }
                lemma_same_amounts_segments(orig, finished);
                lemma_year_totals_fit(finished);
                law_year_totals_reconcile(finished);
                lemma_same_amounts_totals(orig, finished);
                if dense_indices(orig) {
                    assert forall|i: int| 0 <= i < finished.len() implies advance_fits(s, i) && (#[trigger] finished[i]).year == Some(advanced(s, i).year) && finished[i].month == Some(advanced(s, i).month) by {
                        assert(orig[i].index == i);
                        assert(advance_fits(s, orig[i].index as int));
                    }
                    law_years_cover_each_payment(finished, s);
                    if 1 <= s.month <= 12 {
                        lemma_dated_from_increase(finished, s);
                        assert forall|k: int| 0 <= k < finished.len() implies holds_payment(grouped(finished), #[trigger] finished[k]) by {
                            law_each_slot_holds_its_payment(finished, k);
                        }
                    }
                }
            }
            group_by_year(rows.as_slice())
        },
        None => Vec::new(),
    };
    ScheduleSummary { schedule: rows, totals, years }
}

} // verus!
