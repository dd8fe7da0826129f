//! What the EMI engine does with integers: tenure checks, and the finishing
//! of a simulated schedule.
use vstd::prelude::*;
use vstd::string::*;

use crate::emi::model::{
    EmiMode, EmiMonth, EmiYear, EmiYearMonth, EmiYearView, MAX_LOAN_MONTHS,
};
use crate::error::XfingineError;

verus! {

/// How a mode is named in messages: its variant name.
pub open spec fn mode_name(mode: EmiMode) -> Seq<char> {
    match mode {
        EmiMode::Emi => "Emi"@,
        EmiMode::Tenure => "Tenure"@,
        EmiMode::LoanAmount => "LoanAmount"@,
    }
}

/// The variant name of a mode.
fn mode_label(mode: EmiMode) -> (r: &'static str)
    ensures
        r@ == mode_name(mode),
{
    match mode {
        EmiMode::Emi => "Emi",
        EmiMode::Tenure => "Tenure",
        EmiMode::LoanAmount => "LoanAmount",
    }
}

/// `r` is an `InvalidInput` error with the message `text`.
pub open spec fn is_invalid_input<T>(r: Result<T, XfingineError>, text: Seq<char>) -> bool {
    r matches Err(XfingineError::InvalidInput(message)) && message@ == text
}

/// Checks the requested tenure: it must be present, positive, and no longer
/// than [`MAX_LOAN_MONTHS`].
pub fn required_months(months: Option<u32>, mode: EmiMode) -> (r: Result<u32, XfingineError>)
    ensures
        match months {
            None => is_invalid_input(r, "months is required when solving for "@ + mode_name(mode)),
            Some(m) => if m == 0 {
                is_invalid_input(r, "months must be greater than zero"@)
            } else if m > MAX_LOAN_MONTHS {
                r == Err::<u32, XfingineError>(
                    XfingineError::TenureTooLong { months: m as u64, max: MAX_LOAN_MONTHS },
                )
            } else {
                r == Ok::<u32, XfingineError>(m)
            },
        },
{
    match months {
        None => {
            let mut message = String::from_str("months is required when solving for ");
            message.append(mode_label(mode));
            Err(XfingineError::InvalidInput(message))
        },
        Some(m) => {
            if m == 0 {
                Err(XfingineError::InvalidInput(String::from_str("months must be greater than zero")))
            } else if m > MAX_LOAN_MONTHS {
                Err(XfingineError::TenureTooLong { months: m as u64, max: MAX_LOAN_MONTHS })
            } else {
                Ok(m)
            }
        },
    }
}

/// Sum of the `emi` of the rows.
pub open spec fn emi_total(rows: Seq<EmiMonth>) -> int
    decreases rows.len(),
{
    if rows.len() == 0 {
        0
    } else {
        rows[0].emi + emi_total(rows.drop_first())
    }
}

/// Sum of the `real_emi` of the rows.
pub open spec fn real_total(rows: Seq<EmiMonth>) -> int
    decreases rows.len(),
{
    if rows.len() == 0 {
        0
    } else {
        rows[0].real_emi + real_total(rows.drop_first())
    }
}

/// `x` fits in an `i64`.
pub open spec fn fits_i64(x: int) -> bool {
    i64::MIN <= x <= i64::MAX
}

/// What is still owed after each row, counted from the end, fits in an `i64`.
pub open spec fn suffix_totals_fit(rows: Seq<EmiMonth>) -> bool {
    forall|i: int|
        0 <= i <= rows.len() ==> fits_i64(emi_total(#[trigger] rows.skip(i))) && fits_i64(
            real_total(rows.skip(i)),
        )
}

/// `row` with its two remaining-amount fields set.
pub open spec fn with_remaining(row: EmiMonth, nominal: int, discounted: int) -> EmiMonth {
    EmiMonth { remaining_emi: nominal as i64, real_remaining_emi: discounted as i64, ..row }
}

/// Fill in what is still owed after each row, in one backwards pass: each
/// row's `remaining_emi` becomes the sum of the `emi` of the rows after it,
/// and `real_remaining_emi` the same in real terms. Nothing else changes.
pub fn fill_remaining(schedule: &mut Vec<EmiMonth>)
    requires
        suffix_totals_fit(old(schedule)@),
    ensures
        final(schedule)@.len() == old(schedule)@.len(),
        forall|i: int|
            0 <= i < old(schedule)@.len() ==> #[trigger] final(schedule)@[i] == with_remaining(
                old(schedule)@[i],
                emi_total(old(schedule)@.skip(i + 1)),
                real_total(old(schedule)@.skip(i + 1)),
            ),
{
    let ghost rows = schedule@;
    let n = schedule.len();
    let mut nominal: i64 = 0;
    let mut real_sum: i64 = 0;
    let mut i = n;
    assert(rows.skip(n as int) =~= Seq::<EmiMonth>::empty());
    while i > 0
        invariant
            n == rows.len(),
            suffix_totals_fit(rows),
            i <= n,
            schedule@.len() == n,
            nominal == emi_total(rows.skip(i as int)),
            real_sum == real_total(rows.skip(i as int)),
            forall|k: int| 0 <= k < i ==> #[trigger] schedule@[k] == rows[k],
            forall|k: int|
                i <= k < n ==> #[trigger] schedule@[k] == with_remaining(
                    rows[k],
                    emi_total(rows.skip(k + 1)),
                    real_total(rows.skip(k + 1)),
                ),
        decreases i,
    {
        i = i - 1;
        let mut row = schedule[i];
        row.remaining_emi = nominal;
        row.real_remaining_emi = real_sum;
        proof {
            assert(rows.skip(i as int).drop_first() =~= rows.skip(i + 1));
            assert(rows.skip(i as int)[0] == rows[i as int]);
            assert(fits_i64(emi_total(rows.skip(i as int))));
            assert(fits_i64(real_total(rows.skip(i as int))));
        }
        nominal = nominal + row.emi;
        real_sum = real_sum + row.real_emi;
        schedule.set(i, row);
    }
}

/// Twelve empty month slots.
pub open spec fn empty_months() -> Seq<Option<EmiYearMonth>> {
    Seq::new(12, |i: int| None)
}

/// What one schedule row does to the per-year breakdown: a dated row lands in
/// its month's slot of the last year when that year is its own, and opens a
/// new year otherwise; an undated row changes nothing.
pub open spec fn year_step(years: Seq<EmiYearView>, row: EmiMonth) -> Seq<EmiYearView> {
    match (row.year, row.month) {
        (Some(y), Some(m)) => {
            let slot = Some(EmiYearMonth { nominal: row.emi, real: row.real_emi });
            if years.len() > 0 && years.last().year == y {
                let last = years.last();
                years.update(
                    years.len() - 1,
                    EmiYearView {
                        year: y,
                        months: last.months.update(m - 1, slot),
                        nominal_total: last.nominal_total + row.emi,
                        real_total: last.real_total + row.real_emi,
                        closing_outstanding: row.outstanding,
                    },
                )
            } else {
                years.push(
                    EmiYearView {
                        year: y,
                        months: empty_months().update(m - 1, slot),
                        nominal_total: row.emi as int,
                        real_total: row.real_emi as int,
                        closing_outstanding: row.outstanding,
                    },
                )
            }
        },
        _ => years,
    }
}

/// The per-year breakdown of a schedule, built row by row.
pub open spec fn grouped(rows: Seq<EmiMonth>) -> Seq<EmiYearView>
    decreases rows.len(),
{
    if rows.len() == 0 {
        seq![]
    } else {
        year_step(grouped(rows.drop_last()), rows.last())
    }
}

/// The views of a list of years.
pub open spec fn years_view(years: Seq<EmiYear>) -> Seq<EmiYearView> {
    years.map_values(|y: EmiYear| y@)
}

/// A dated row names a month in `1..=12`.
pub open spec fn month_in_range(row: EmiMonth) -> bool {
    match (row.year, row.month) {
        (Some(_), Some(m)) => 1 <= m <= 12,
        _ => true,
    }
}

/// Every dated row names a month in `1..=12`.
pub open spec fn months_in_range(rows: Seq<EmiMonth>) -> bool {
    forall|k: int| 0 <= k < rows.len() ==> month_in_range(#[trigger] rows[k])
}

/// Every running year total, as the rows are taken one by one, fits in an
/// `i64`.
pub open spec fn year_totals_fit(rows: Seq<EmiMonth>) -> bool {
    forall|k: int, j: int|
        0 <= k <= rows.len() && 0 <= j < grouped(rows.take(k)).len() ==> fits_i64(
            #[trigger] grouped(rows.take(k))[j].nominal_total,
        ) && fits_i64(grouped(rows.take(k))[j].real_total)
}

/// Every year of a breakdown built from in-range rows has twelve slots.
pub(crate) proof fn lemma_grouped_twelve_slots(rows: Seq<EmiMonth>)
    requires
        months_in_range(rows),
    ensures
        forall|j: int| 0 <= j < grouped(rows).len() ==> (#[trigger] grouped(rows)[j]).months.len() == 12,
    decreases rows.len(),
{
    if rows.len() > 0 {
        assert(months_in_range(rows.drop_last())) by {
            assert forall|k: int| 0 <= k < rows.drop_last().len() implies month_in_range(#[trigger] rows.drop_last()[k]) by {
                assert(rows.drop_last()[k] == rows[k]);
            }
        }
        lemma_grouped_twelve_slots(rows.drop_last());
        assert(rows.last() == rows[rows.len() - 1]);
        assert(month_in_range(rows[rows.len() - 1]));
        let prev = grouped(rows.drop_last());
        assert(grouped(rows) == year_step(prev, rows.last()));
        assert(empty_months().len() == 12);
        if prev.len() > 0 {
            assert(prev.last().months.len() == 12);
        }
    }
}

/// Twelve empty month slots.
fn empty_slots() -> (v: Vec<Option<EmiYearMonth>>)
    ensures
        v@ == empty_months(),
{
    let mut v: Vec<Option<EmiYearMonth>> = Vec::new();
    for i in 0..12
        invariant
            v@ == Seq::new(i as nat, |k: int| None::<EmiYearMonth>),
    {
        v.push(None);
        assert(v@ =~= Seq::new((i + 1) as nat, |k: int| None::<EmiYearMonth>));
    }
    assert(v@ =~= empty_months());
    v
}

/// Collapse a dated schedule into calendar-year rows.
///
/// Rows without a date are skipped. Each dated row lands in the slot of its
/// month, adds its payment to the year's totals and sets the year's closing
/// balance; a row whose year differs from the last year's opens a new year.
pub fn group_by_year(schedule: &[EmiMonth]) -> (years: Vec<EmiYear>)
    requires
        months_in_range(schedule@),
        year_totals_fit(schedule@),
    ensures
        years_view(years@) == grouped(schedule@),
{
    let ghost rows = schedule@;
    let mut years: Vec<EmiYear> = Vec::new();
    assert(rows.take(0) =~= Seq::<EmiMonth>::empty());
    assert(years_view(years@) =~= grouped(rows.take(0)));
    for k in 0..schedule.len()
        invariant
            rows == schedule@,
            months_in_range(rows),
            year_totals_fit(rows),
            years_view(years@) == grouped(rows.take(k as int)),
    {
        let row = schedule[k];
        proof {
            assert(rows.take(k + 1).drop_last() =~= rows.take(k as int));
            assert(rows.take(k + 1).last() == row);
            assert(months_in_range(rows.take(k as int))) by {
                assert forall|i: int| 0 <= i < rows.take(k as int).len() implies month_in_range(#[trigger] rows.take(k as int)[i]) by {
                    assert(rows.take(k as int)[i] == rows[i]);
                }
            }
            lemma_grouped_twelve_slots(rows.take(k as int));
            assert(rows[k as int] == row);
        }
        let ghost before = years@;
        match (row.year, row.month) {
            (Some(y), Some(m)) => {
                let slot = Some(EmiYearMonth { nominal: row.emi, real: row.real_emi });
                let count = years.len();
                if count > 0 && years[count - 1].year == y {
                    let mut last = years.pop().unwrap();
                    proof {
                        assert(years_view(before)[count - 1] == last@);
                        assert(fits_i64(grouped(rows.take(k + 1))[count - 1].nominal_total));
                        assert(fits_i64(grouped(rows.take(k + 1))[count - 1].real_total));
                    }
                    last.months.set((m - 1) as usize, slot);
                    last.nominal_total = last.nominal_total + row.emi;
                    last.real_total = last.real_total + row.real_emi;
                    last.closing_outstanding = row.outstanding;
                    years.push(last);
                    proof {
                        assert(years_view(years@) =~= grouped(rows.take(k + 1)));
                    }
                } else {
                    let mut months = empty_slots();
                    months.set((m - 1) as usize, slot);
                    years.push(EmiYear {
                        year: y,
                        months,
                        nominal_total: row.emi,
                        real_total: row.real_emi,
                        closing_outstanding: row.outstanding,
                    });
                    proof {
                        assert(years_view(years@) =~= grouped(rows.take(k + 1)));
                    }
                }
            },
            _ => {
                proof {
                    assert(years_view(years@) =~= grouped(rows.take(k + 1)));
                }
            },
        }
    }
    assert(rows.take(rows.len() as int) =~= rows);
    years
}

} // verus!
