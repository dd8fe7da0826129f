use xfingine::emi::summary::summarize_schedule;
use xfingine::emi::{
    fill_remaining, group_by_year, required_months, EmiMode, EmiMonth, EmiYearMonth, YearMonth,
    MAX_LOAN_MONTHS,
};
use xfingine::emi::model::YearMonthError;
use xfingine::error::XfingineError;

/// A row with the given amounts, undated and with nothing filled in.
fn row(index: u32, emi: i64, real_emi: i64, outstanding: i64) -> EmiMonth {
    EmiMonth {
        index,
        year: None,
        month: None,
        emi,
        principal: emi - 10,
        interest: 10,
        outstanding,
        real_emi,
        real_principal: real_emi - 5,
        real_interest: 5,
        remaining_emi: 0,
        real_remaining_emi: 0,
    }
}

/// `count` rows paying 1000 nominal and 900 real each, balance running down.
fn rows(count: u32) -> Vec<EmiMonth> {
    (0..count)
        .map(|i| row(i, 1000, 900, ((count - 1 - i) as i64) * 1000))
        .collect()
}

#[test]
fn new_checks_the_month() {
    assert_eq!(YearMonth::new(2026, 3), Some(YearMonth { year: 2026, month: 3 }));
    assert_eq!(YearMonth::new(2026, 12), Some(YearMonth { year: 2026, month: 12 }));
    assert!(YearMonth::new(2026, 0).is_none());
    assert!(YearMonth::new(2026, 13).is_none());
}

#[test]
fn advance_counts_months_across_years() {
    let start = YearMonth::new(2026, 11).unwrap();
    assert_eq!(start.advance(0), start);
    assert_eq!(start.advance(1), YearMonth { year: 2026, month: 12 });
    assert_eq!(start.advance(2), YearMonth { year: 2027, month: 1 });
    // Nov 2026 + 59 months = Oct 2031.
    assert_eq!(start.advance(59), YearMonth { year: 2031, month: 10 });
    assert_eq!(start.advance(10).advance(49), start.advance(59));
}

#[test]
fn year_month_text_and_parse() {
    let ym = YearMonth::new(2026, 3).unwrap();
    assert_eq!(ym.to_text(), "2026-03");
    assert_eq!(YearMonth::parse("2026-03"), Ok(ym));
    assert_eq!(YearMonth { year: 7, month: 11 }.to_text(), "0007-11");
    assert_eq!(YearMonth { year: -1, month: 1 }.to_text(), "-001-01");
    assert_eq!(YearMonth { year: 12345, month: 1 }.to_text(), "12345-01");
    assert_eq!(YearMonth::parse("2026-13"), Err(YearMonthError::MonthOutOfRange));
    assert_eq!(YearMonth::parse("2026-00"), Err(YearMonthError::MonthOutOfRange));
    assert_eq!(YearMonth::parse("202603"), Err(YearMonthError::MissingDash));
    assert_eq!(YearMonth::parse("20x6-03"), Err(YearMonthError::InvalidYear));
    assert_eq!(YearMonth::parse("-2026-03"), Err(YearMonthError::InvalidYear));
    assert_eq!(YearMonth::parse("2026-3x"), Err(YearMonthError::InvalidMonth));
    assert_eq!(YearMonth::parse("2026-"), Err(YearMonthError::InvalidMonth));
    assert_eq!(YearMonth::parse("2026-+"), Err(YearMonthError::InvalidMonth));
    assert_eq!(YearMonth::parse("2026--3"), Err(YearMonthError::InvalidMonth));
    assert_eq!(YearMonth::parse("2026-4294967296"), Err(YearMonthError::InvalidMonth));
    // Signs and leading zeros read the way `str::parse` reads them.
    assert_eq!(YearMonth::parse("+2026-+3"), Ok(YearMonth { year: 2026, month: 3 }));
    assert_eq!(YearMonth::parse("02026-003"), Ok(YearMonth { year: 2026, month: 3 }));
    assert_eq!(YearMonth::parse("2147483647-1"), Ok(YearMonth { year: i32::MAX, month: 1 }));
    assert_eq!(YearMonth::parse("2147483648-1"), Err(YearMonthError::InvalidYear));
}

#[test]
fn text_round_trips() {
    for (year, month) in [(0, 1), (9, 9), (2026, 12), (99999, 6)] {
        let ym = YearMonth::new(year, month).unwrap();
        assert_eq!(YearMonth::parse(&ym.to_text()), Ok(ym));
    }
}

#[test]
fn required_months_checks_the_tenure() {
    assert_eq!(required_months(Some(240), EmiMode::Emi), Ok(240));
    assert_eq!(required_months(Some(MAX_LOAN_MONTHS), EmiMode::Emi), Ok(600));
    assert_eq!(
        required_months(Some(MAX_LOAN_MONTHS + 1), EmiMode::Emi),
        Err(XfingineError::TenureTooLong { months: 601, max: 600 })
    );
    assert_eq!(
        required_months(Some(0), EmiMode::LoanAmount),
        Err(XfingineError::InvalidInput("months must be greater than zero".to_string()))
    );
    assert_eq!(
        required_months(None, EmiMode::LoanAmount),
        Err(XfingineError::InvalidInput(
            "months is required when solving for LoanAmount".to_string()
        ))
    );
    assert_eq!(
        required_months(None, EmiMode::Emi),
        Err(XfingineError::InvalidInput("months is required when solving for Emi".to_string()))
    );
}

#[test]
fn remaining_counts_only_later_rows() {
    let mut schedule = rows(12);
    schedule[11].emi = 400;
    schedule[11].real_emi = 300;
    fill_remaining(&mut schedule);
    let total: i64 = schedule.iter().map(|row| row.emi).sum();
    assert_eq!(schedule[0].remaining_emi, total - schedule[0].emi);
    assert_eq!(schedule[10].remaining_emi, 400);
    assert_eq!(schedule[10].real_remaining_emi, 300);
    assert_eq!(schedule.last().unwrap().remaining_emi, 0);
    assert_eq!(schedule.last().unwrap().real_remaining_emi, 0);
    assert_eq!(schedule[0].real_remaining_emi, 11 * 900 - 900 + 300);
}

#[test]
fn fill_remaining_on_an_empty_schedule() {
    let mut schedule: Vec<EmiMonth> = Vec::new();
    fill_remaining(&mut schedule);
    assert!(schedule.is_empty());
}

#[test]
fn group_by_year_lays_out_calendar_slots() {
    let mut schedule = rows(4);
    let dates = [(2026, 11), (2026, 12), (2027, 1), (2027, 2)];
    for (row, (year, month)) in schedule.iter_mut().zip(dates) {
        row.year = Some(year);
        row.month = Some(month);
    }
    let years = group_by_year(&schedule);
    assert_eq!(years.len(), 2);
    assert_eq!(years[0].year, 2026);
    assert_eq!(years[0].months.len(), 12);
    assert_eq!(years[0].months[10], Some(EmiYearMonth { nominal: 1000, real: 900 }));
    assert_eq!(years[0].months[0], None);
    assert_eq!(years[0].nominal_total, 2000);
    assert_eq!(years[0].real_total, 1800);
    assert_eq!(years[0].closing_outstanding, 2000);
    assert_eq!(years[1].year, 2027);
    assert_eq!(years[1].months.iter().filter(|m| m.is_some()).count(), 2);
    assert_eq!(years[1].closing_outstanding, 0);
}

#[test]
fn group_by_year_skips_undated_rows() {
    let mut schedule = rows(3);
    schedule[1].year = Some(2030);
    schedule[1].month = Some(5);
    let years = group_by_year(&schedule);
    assert_eq!(years.len(), 1);
    assert_eq!(years[0].nominal_total, 1000);
    assert!(group_by_year(&rows(3)).is_empty());
}

#[test]
fn dates_are_opt_in() {
    let undated = summarize_schedule(rows(60), None, 50_000);
    assert!(undated.years.is_empty());
    assert!(undated.schedule.iter().all(|row| row.year.is_none()));

    let dated = summarize_schedule(rows(60), YearMonth::new(2026, 11), 50_000);
    assert_eq!(dated.schedule[0].year, Some(2026));
    assert_eq!(dated.schedule[0].month, Some(11));
    // Nov 2026 + 59 months = Oct 2031.
    assert_eq!(dated.schedule[59].year, Some(2031));
    assert_eq!(dated.schedule[59].month, Some(10));
    // Six calendar years touched: 2026 through 2031.
    assert_eq!(dated.years.len(), 6);
    assert_eq!(dated.years[0].months.iter().filter(|m| m.is_some()).count(), 2);
}

#[test]
fn summary_totals_reconcile_with_the_schedule() {
    let mut schedule = rows(30);
    schedule[29].emi = 123;
    schedule[29].real_emi = 77;
    let result = summarize_schedule(schedule, YearMonth::new(2025, 7), 25_000);

    let nominal: i64 = result.schedule.iter().map(|row| row.emi).sum();
    let real: i64 = result.schedule.iter().map(|row| row.real_emi).sum();
    assert_eq!(result.totals.nominal_paid, nominal);
    assert_eq!(result.totals.real_paid, real);
    assert_eq!(result.totals.nominal_principal, 25_000);
    assert_eq!(result.totals.real_principal, 25_000);
    assert_eq!(result.totals.nominal_interest, nominal - 25_000);
    assert_eq!(result.totals.real_interest, real - 25_000);
    assert_eq!(result.schedule.last().unwrap().remaining_emi, 0);
    assert_eq!(result.schedule[0].remaining_emi, nominal - 1000);

    let slotted: usize = result
        .years
        .iter()
        .map(|year| year.months.iter().filter(|m| m.is_some()).count())
        .sum();
    assert_eq!(slotted, result.schedule.len());
    let year_total: i64 = result.years.iter().map(|y| y.nominal_total).sum();
    assert_eq!(year_total, nominal);
    let year_real: i64 = result.years.iter().map(|y| y.real_total).sum();
    assert_eq!(year_real, real);
}

#[test]
fn empty_schedule_summarizes_to_zero() {
    let result = summarize_schedule(Vec::new(), YearMonth::new(2026, 1), 0);
    assert!(result.schedule.is_empty());
    assert!(result.years.is_empty());
    assert_eq!(result.totals.nominal_paid, 0);
    assert_eq!(result.totals.real_interest, 0);
}

#[test]
fn tenure_beyond_the_cap_is_rejected() {
    assert!(matches!(
        required_months(Some(MAX_LOAN_MONTHS + 1), EmiMode::Emi).unwrap_err(),
        XfingineError::TenureTooLong { .. }
    ));
}

#[test]
fn year_month_round_trips_through_json() {
    let ym = YearMonth::new(2026, 3).unwrap();
    assert_eq!(serde_json::to_string(&ym.to_text()).unwrap(), "\"2026-03\"");
    let text: String = serde_json::from_str("\"2026-03\"").unwrap();
    assert_eq!(YearMonth::parse(&text).unwrap(), ym);
    let text: String = serde_json::from_str("\"2026-13\"").unwrap();
    assert!(YearMonth::parse(&text).is_err());
    assert!(YearMonth::new(2026, 0).is_none());
}
