//! Data of the EMI engine that holds no floating-point value.
use vstd::prelude::*;

use crate::numbers::{
    all_digits, decimal, decimal_chars, digits_value, is_digit, lemma_decimal_reads_back,
    lemma_leading_zeros, pad_zeros, parse_i32, parse_u32, read_i32, read_u32, unsigned_digits,
    zero_padded,
};
use crate::text::{chars_of, string_of};

verus! {

/// The longest tenure any engine will simulate: 50 years.
pub const MAX_LOAN_MONTHS: u32 = 50 * 12;

/// Which of the three loan variables the engine should solve for.
///
/// The other two are supplied in the request; the third is derived.
#[derive(Debug, Clone, Copy, PartialEq, Eq)]
pub enum EmiMode {
    /// Given loan amount and tenure, solve for the monthly payment.
    Emi,
    /// Given loan amount and monthly payment, solve for the tenure.
    Tenure,
    /// Given monthly payment and tenure, solve for the loan amount.
    LoanAmount,
}

/// A calendar month, written `"YYYY-MM"` on the wire.
#[derive(Debug, Clone, Copy, PartialEq, Eq)]
pub struct YearMonth {
    /// Four-digit calendar year.
    pub year: i32,
    /// Month of the year, `1..=12`.
    pub month: u32,
}

/// The number of months from January of year zero to `ym`.
pub open spec fn month_number(ym: YearMonth) -> int {
    ym.year * 12 + ym.month - 1
}

/// The month `offset` months after `ym`, as `YearMonth::advance` computes it.
pub open spec fn advanced(ym: YearMonth, offset: int) -> YearMonth {
    YearMonth {
        year: (ym.year + (ym.month - 1 + offset) / 12) as i32,
        month: ((ym.month - 1 + offset) % 12 + 1) as u32,
    }
}

/// `YearMonth::advance` can move `ym` by `offset` months: the month is at
/// least one and neither the month count nor the year overflows.
pub open spec fn advance_fits(ym: YearMonth, offset: int) -> bool {
    &&& 1 <= ym.month
    &&& 0 <= offset
    &&& ym.month - 1 + offset <= u32::MAX
    &&& i32::MIN <= ym.year + (ym.month - 1 + offset) / 12 <= i32::MAX
}

impl YearMonth {
    /// Construct a month, returning `None` if `month` is outside `1..=12`.
    pub fn new(year: i32, month: u32) -> (r: Option<Self>)
        ensures
            r == (if 1 <= month <= 12 {
                Some(YearMonth { year, month })
            } else {
                None
            }),
    {
        if 1 <= month && month <= 12 {
            Some(YearMonth { year, month })
        } else {
            None
        }
    }

    /// The month `offset` months after this one.
    pub fn advance(self, offset: u32) -> (r: Self)
        requires
            advance_fits(self, offset as int),
        ensures
            r == advanced(self, offset as int),
            1 <= r.month <= 12,
    {
        let total = (self.month - 1) + offset;
        YearMonth { year: self.year + (total / 12) as i32, month: (total % 12) + 1 }
    }
}

/// Advancing a valid month by `offset` moves it exactly `offset` months on,
/// and gives a valid month.
pub proof fn law_advance_counts_months(ym: YearMonth, offset: int)
    requires
        1 <= ym.month <= 12,
        advance_fits(ym, offset),
    ensures
        month_number(advanced(ym, offset)) == month_number(ym) + offset,
        1 <= advanced(ym, offset).month <= 12,
{
    let total = ym.month - 1 + offset;
    assert(total == (total / 12) * 12 + total % 12);
}

/// Two valid months with the same month number are the same month.
proof fn lemma_month_number_injective(a: YearMonth, b: YearMonth)
    requires
        1 <= a.month <= 12,
        1 <= b.month <= 12,
        month_number(a) == month_number(b),
    ensures
        a == b,
{
    assert(a.year == b.year) by (nonlinear_arith)
        requires
            1 <= a.month <= 12,
            1 <= b.month <= 12,
            a.year * 12 + a.month - 1 == b.year * 12 + b.month - 1,
    ;
}

/// Advancing by zero months leaves a valid month unchanged.
pub proof fn law_advance_by_zero(ym: YearMonth)
    requires
        1 <= ym.month <= 12,
    ensures
        advanced(ym, 0) == ym,
{
    assert(advance_fits(ym, 0));
    law_advance_counts_months(ym, 0);
    lemma_month_number_injective(advanced(ym, 0), ym);
}

/// Advancing by `a` months and then by `b` is advancing by `a + b`.
pub proof fn law_advance_composes(ym: YearMonth, a: int, b: int)
    requires
        1 <= ym.month <= 12,
        advance_fits(ym, a),
        advance_fits(advanced(ym, a), b),
        advance_fits(ym, a + b),
    ensures
        advanced(advanced(ym, a), b) == advanced(ym, a + b),
{
    law_advance_counts_months(ym, a);
    law_advance_counts_months(advanced(ym, a), b);
    law_advance_counts_months(ym, a + b);
    lemma_month_number_injective(advanced(advanced(ym, a), b), advanced(ym, a + b));
}

/// Why text is not a `"YYYY-MM"` month.
#[derive(Debug, Clone, Copy, PartialEq, Eq)]
pub enum YearMonthError {
    /// There is no `-` between year and month.
    MissingDash,
    /// The part before the first `-` is not a year.
    InvalidYear,
    /// The part after the first `-` is not a month number.
    InvalidMonth,
    /// The month number is outside `1..=12`.
    MonthOutOfRange,
}

/// `s[i]` is the first `-` of `s`.
pub open spec fn first_dash(s: Seq<char>, i: int) -> bool {
    &&& 0 <= i < s.len()
    &&& s[i] == '-'
    &&& forall|j: int| 0 <= j < i ==> s[j] != '-'
}

/// What reading `s` as a month gives, when its first `-` is at `dash`: the
/// year before it as `i32` text, the month after it as `u32` text, and the
/// month checked to lie in `1..=12`.
pub open spec fn parsed_year_month(s: Seq<char>, dash: int) -> Result<YearMonth, YearMonthError> {
    match parse_i32(s.take(dash)) {
        None => Err(YearMonthError::InvalidYear),
        Some(year) => match parse_u32(s.skip(dash + 1)) {
            None => Err(YearMonthError::InvalidMonth),
            Some(month) => if 1 <= month <= 12 {
                Ok(YearMonth { year, month })
            } else {
                Err(YearMonthError::MonthOutOfRange)
            },
        },
    }
}

impl YearMonth {
    /// Reads a month written `"YYYY-MM"`: the text is split at its first `-`,
    /// the year is read as an `i32` and the month as a `u32`, and the month
    /// must lie in `1..=12`.
    pub fn parse(raw: &str) -> (r: Result<YearMonth, YearMonthError>)
        ensures
            (forall|j: int| 0 <= j < raw@.len() ==> raw@[j] != '-') ==> r == Err::<
                YearMonth,
                YearMonthError,
            >(YearMonthError::MissingDash),
            forall|i: int| first_dash(raw@, i) ==> r == parsed_year_month(raw@, i),
    {
        let s = chars_of(raw);
        let n = s.len();
        let mut dash: usize = 0;
        while dash < n && s[dash] != '-'
            invariant
                s@ == raw@,
                n == s@.len(),
                dash <= n,
                forall|j: int| 0 <= j < dash ==> s@[j] != '-',
            decreases n - dash,
        {
            dash = dash + 1;
        }
        if dash == n {
            return Err(YearMonthError::MissingDash);
        }
        proof {
            assert(first_dash(raw@, dash as int));
            assert forall|i: int| first_dash(raw@, i) implies i == dash by {
                if i < dash {
                } else if i > dash {
                    assert(raw@[dash as int] == '-');
                }
            }
            assert(s@.subrange(0, dash as int) =~= raw@.take(dash as int));
            assert(s@.subrange(dash + 1, n as int) =~= raw@.skip(dash + 1));
        }
        let year = match read_i32(&s, 0, dash) {
            Some(y) => y,
            None => {
                return Err(YearMonthError::InvalidYear);
            },
        };
        let month = match read_u32(&s, dash + 1, n) {
            Some(m) => m,
            None => {
                return Err(YearMonthError::InvalidMonth);
            },
        };
        match YearMonth::new(year, month) {
            Some(ym) => Ok(ym),
            None => Err(YearMonthError::MonthOutOfRange),
        }
    }
}

/// How a year is written: at least four digits, zero-padded, with a leading
/// `-` counted in the width when it is negative, as `{:04}` formats it.
pub open spec fn year_text(year: i32) -> Seq<char> {
    if year >= 0 {
        zero_padded(decimal(year as nat), 4)
    } else {
        seq!['-'] + zero_padded(decimal((-year) as nat), 3)
    }
}

/// How a month is written on the wire: `"YYYY-MM"`, as
/// `format!("{:04}-{:02}", year, month)` writes it.
pub open spec fn year_month_text(ym: YearMonth) -> Seq<char> {
    year_text(ym.year) + seq!['-'] + zero_padded(decimal(ym.month as nat), 2)
}

impl YearMonth {
    /// The month written `"YYYY-MM"`.
    pub fn to_text(&self) -> (s: String)
        ensures
            s@ == year_month_text(*self),
    {
        let mut chars: Vec<char> = Vec::new();
        if self.year >= 0 {
            let digits = decimal_chars(self.year as u32);
            chars = pad_zeros(&digits, 4);
        } else {
            let wide = self.year as i64;
            let magnitude = (0 - wide) as u32;
            let digits = decimal_chars(magnitude);
            let padded = pad_zeros(&digits, 3);
            chars.push('-');
            let mut i: usize = 0;
            while i < padded.len()
                invariant
                    i <= padded@.len(),
                    chars@ == seq!['-'] + padded@.take(i as int),
                decreases padded@.len() - i,
            {
                chars.push(padded[i]);
                i = i + 1;
                assert(chars@ =~= seq!['-'] + padded@.take(i as int));
            }
            assert(padded@.take(padded@.len() as int) =~= padded@);
        }
        let ghost year_part = chars@;
        chars.push('-');
        let month_digits = decimal_chars(self.month);
        let month_part = pad_zeros(&month_digits, 2);
        let mut i: usize = 0;
        while i < month_part.len()
            invariant
                i <= month_part@.len(),
                chars@ == year_part + seq!['-'] + month_part@.take(i as int),
            decreases month_part@.len() - i,
        {
            chars.push(month_part[i]);
            i = i + 1;
            assert(chars@ =~= year_part + seq!['-'] + month_part@.take(i as int));
        }
        assert(month_part@.take(month_part@.len() as int) =~= month_part@);
        assert(chars@ =~= year_month_text(*self));
        string_of(&chars)
    }
}

/// A month of a year from zero on, written `"YYYY-MM"`, reads back as itself:
/// its first `-` follows the year, and the parts read as the year and month.
pub proof fn law_text_reads_back(ym: YearMonth)
    requires
        0 <= ym.year,
        1 <= ym.month <= 12,
    ensures
        first_dash(year_month_text(ym), year_text(ym.year).len() as int),
        parsed_year_month(year_month_text(ym), year_text(ym.year).len() as int) == Ok::<
            YearMonth,
            YearMonthError,
        >(ym),
{
    let yt = year_text(ym.year);
    let mt = zero_padded(decimal(ym.month as nat), 2);
    let t = year_month_text(ym);
    lemma_decimal_reads_back(ym.year as nat);
    lemma_leading_zeros(4, decimal(ym.year as nat));
    lemma_decimal_reads_back(ym.month as nat);
    lemma_leading_zeros(2, decimal(ym.month as nat));
    let k = yt.len() as int;
    assert(t.take(k) =~= yt);
    assert(t.skip(k + 1) =~= mt);
    assert(t[k] == '-');
    assert forall|j: int| 0 <= j < k implies t[j] != '-' by {
        assert(t[j] == yt[j]);
        assert(is_digit(yt[j]));
    }
    assert(is_digit(yt[0]));
    assert(unsigned_digits(yt) == yt);
    assert(is_digit(mt[0]));
    assert(unsigned_digits(mt) == mt);
}

/// The code point of the digit character for `d`.
proof fn lemma_digit_code(d: int)
    requires
        0 <= d <= 9,
    ensures
        (crate::numbers::digit_char(d) as u32) == d + 48,
{
    vstd::utf8::char_u32_cast(crate::numbers::digit_char(d), (d + 48) as u32);
}

/// `"YYYY-MM"` ends in a dash and exactly two month digits: the tens and the
/// units of the month, October included.
pub proof fn law_text_month_part(ym: YearMonth)
    requires
        1 <= ym.month <= 12,
    ensures
        ({
            let t = year_month_text(ym);
            let k = year_text(ym.year).len() as int;
            &&& t.len() == k + 3
            &&& t.take(k) == year_text(ym.year)
            &&& t[k] == '-'
            &&& (t[k + 1] as u32) == 48 + ym.month / 10
            &&& (t[k + 2] as u32) == 48 + ym.month % 10
        }),
{
    let m = ym.month as nat;
    let t = year_month_text(ym);
    let k = year_text(ym.year).len() as int;
    let mt = zero_padded(decimal(m), 2);
    if m < 10 {
        assert(decimal(m) == seq![crate::numbers::digit_char(m as int)]);
        lemma_digit_code(m as int);
        assert(mt[0] == '0');
        assert(mt[1] == crate::numbers::digit_char(m as int));
    } else {
        assert(decimal(m / 10) == seq![crate::numbers::digit_char(1)]);
        assert(decimal(m) == decimal(m / 10).push(crate::numbers::digit_char((m % 10) as int)));
        lemma_digit_code(1);
        lemma_digit_code((m % 10) as int);
        assert(mt == decimal(m));
    }
    assert(mt.len() == 2);
    assert(t.take(k) =~= year_text(ym.year));
    assert(t[k + 1] == mt[0]);
    assert(t[k + 2] == mt[1]);
}

/// A year from 0 to 9999 is written as exactly four digits: thousands,
/// hundreds, tens and units.
pub proof fn law_text_year_part(year: i32)
    requires
        0 <= year <= 9999,
    ensures
        ({
            let y = year_text(year);
            &&& y.len() == 4
            &&& (y[0] as u32) == 48 + year / 1000
            &&& (y[1] as u32) == 48 + (year / 100) % 10
            &&& (y[2] as u32) == 48 + (year / 10) % 10
            &&& (y[3] as u32) == 48 + year % 10
        }),
{
    let n = year as nat;
    let y = year_text(year);
    let d = decimal(n);
    lemma_digit_code((n / 1000) as int);
    lemma_digit_code(((n / 100) % 10) as int);
    lemma_digit_code(((n / 10) % 10) as int);
    lemma_digit_code((n % 10) as int);
    assert((n / 10) / 10 == n / 100);
    assert((n / 100) / 10 == n / 1000);
    assert((n / 10) % 10 == (n / 10) % 10);
    if n < 10 {
        assert(d == seq![crate::numbers::digit_char(n as int)]);
        assert(n / 1000 == 0 && (n / 100) % 10 == 0 && (n / 10) % 10 == 0);
        lemma_digit_code(0);
        assert(y[0] == '0' && y[1] == '0' && y[2] == '0');
        assert(y[3] == d[0]);
    } else if n < 100 {
        assert(decimal(n / 10) == seq![crate::numbers::digit_char((n / 10) as int)]);
        assert(d == decimal(n / 10).push(crate::numbers::digit_char((n % 10) as int)));
        assert(n / 1000 == 0 && (n / 100) % 10 == 0 && (n / 10) % 10 == n / 10);
        assert(y[0] == '0' && y[1] == '0');
        assert(y[2] == d[0] && y[3] == d[1]);
    } else if n < 1000 {
        assert(decimal(n / 100) == seq![crate::numbers::digit_char((n / 100) as int)]);
        assert(decimal(n / 10) == decimal(n / 100).push(crate::numbers::digit_char(((n / 10) % 10) as int)));
        assert(d == decimal(n / 10).push(crate::numbers::digit_char((n % 10) as int)));
        assert(n / 1000 == 0 && (n / 100) % 10 == n / 100);
        assert(y[0] == '0');
        assert(y[1] == d[0] && y[2] == d[1] && y[3] == d[2]);
    } else {
        assert(decimal(n / 1000) == seq![crate::numbers::digit_char((n / 1000) as int)]);
        assert(decimal(n / 100) == decimal(n / 1000).push(crate::numbers::digit_char(((n / 100) % 10) as int)));
        assert(decimal(n / 10) == decimal(n / 100).push(crate::numbers::digit_char(((n / 10) % 10) as int)));
        assert(d == decimal(n / 10).push(crate::numbers::digit_char((n % 10) as int)));
        assert(y == d);
    }
}

/// Any year is written as at least four characters: digits whose value is
/// the year, after a `-` when the year is negative.
pub proof fn law_text_year_value(year: i32)
    ensures
        ({
            let y = year_text(year);
            &&& y.len() >= 4
            &&& year >= 0 ==> all_digits(y) && digits_value(y) == year
            &&& year < 0 ==> y[0] == '-' && all_digits(y.drop_first()) && digits_value(
                y.drop_first(),
            ) == -year
        }),
{
    if year >= 0 {
        lemma_decimal_reads_back(year as nat);
        lemma_leading_zeros(4, decimal(year as nat));
    } else {
        let d = decimal((-year) as nat);
        lemma_decimal_reads_back((-year) as nat);
        lemma_leading_zeros(3, d);
        assert(year_text(year).drop_first() =~= zero_padded(d, 3));
    }
}

/// One month of the repayment schedule. All amounts are whole rupees.
#[derive(Debug, Clone, Copy, PartialEq, Eq)]
pub struct EmiMonth {
    /// Zero-based position in the schedule.
    pub index: u32,
    /// Calendar year of this payment; `None` unless the request had a start.
    pub year: Option<i32>,
    /// Calendar month of this payment, `1..=12`; `None` unless the request had
    /// a start.
    pub month: Option<u32>,
    /// Amount actually debited this month.
    pub emi: i64,
    /// The part of `emi` that reduces the balance.
    pub principal: i64,
    /// The part of `emi` that is interest.
    pub interest: i64,
    /// Balance remaining after this payment.
    pub outstanding: i64,
    /// `emi` discounted to the value of money at the start of the loan.
    pub real_emi: i64,
    /// `principal` discounted to the start of the loan.
    pub real_principal: i64,
    /// `interest` discounted to the start of the loan.
    pub real_interest: i64,
    /// Sum of the `emi` of every later month: what is still left to pay after
    /// this one.
    pub remaining_emi: i64,
    /// The same, in start-of-loan rupees.
    pub real_remaining_emi: i64,
}

/// A single month's payment inside an [`EmiYear`] row.
#[derive(Debug, Clone, Copy, PartialEq, Eq)]
pub struct EmiYearMonth {
    /// The amount debited, in rupees of the day.
    pub nominal: i64,
    /// The same amount in start-of-loan rupees.
    pub real: i64,
}

/// One calendar year of the schedule, laid out as twelve month slots.
///
/// `months[0]` is January. Slots before the first payment and after the last
/// are `None`.
#[derive(Debug, Clone, PartialEq, Eq)]
pub struct EmiYear {
    /// The calendar year.
    pub year: i32,
    /// Twelve slots, January to December.
    pub months: Vec<Option<EmiYearMonth>>,
    /// Total debited during this year.
    pub nominal_total: i64,
    /// The same total in start-of-loan rupees.
    pub real_total: i64,
    /// Balance remaining after this year's last payment.
    pub closing_outstanding: i64,
}

/// An [`EmiYear`] as a mathematical value, with its totals as integers.
pub struct EmiYearView {
    pub year: i32,
    pub months: Seq<Option<EmiYearMonth>>,
    pub nominal_total: int,
    pub real_total: int,
    pub closing_outstanding: i64,
}

impl View for EmiYear {
    type V = EmiYearView;

    open spec fn view(&self) -> EmiYearView {
        EmiYearView {
            year: self.year,
            months: self.months@,
            nominal_total: self.nominal_total as int,
            real_total: self.real_total as int,
            closing_outstanding: self.closing_outstanding,
        }
    }
}

/// Headline totals for the whole loan.
///
/// The principal is not discounted: it is received on day one, so it is
/// already in start-of-loan rupees.
#[derive(Debug, Clone, Copy, PartialEq, Eq)]
pub struct EmiTotals {
    /// Sum of every payment, in rupees of the day.
    pub nominal_paid: i64,
    /// Sum of every payment, discounted to the start of the loan.
    pub real_paid: i64,
    /// The principal borrowed.
    pub nominal_principal: i64,
    /// `nominal_paid - nominal_principal`.
    pub nominal_interest: i64,
    /// The principal borrowed, undiscounted.
    pub real_principal: i64,
    /// `real_paid - real_principal`.
    pub real_interest: i64,
}

} // verus!
