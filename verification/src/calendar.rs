//! The due-date calendar: the month shown, moving between months, the six
//! weeks of days the month view shows, and checking a typed due date.

use vstd::prelude::*;
use chrono::Datelike;
use crate::requests::{padded, year_text};
use crate::text::{chars_of, decimal, push_decimal, push_signed_decimal, signed_decimal, string_of, trim, trimmed};

verus! {

/// The month the calendar shows.
#[derive(Clone, Debug)]
pub struct CalendarState {
    pub year: i32,
    /// The month, from 1 to 12.
    pub month: u32,
}

/// One day cell of the month view.
#[derive(Clone, Debug)]
pub struct CalendarDay {
    /// The day of the month, as shown.
    pub label: String,
    /// The date, as `YYYY-MM-DD`.
    pub date: String,
    /// The week of the view, from 0.
    pub row: i32,
    /// The weekday column, from 0 for Sunday.
    pub column: i32,
    /// Whether the day is in the month shown.
    pub current_month: bool,
}

/// The months since the start of year 0 of a year and month.
pub open spec fn month_index(year: int, month: int) -> int {
    year * 12 + month - 1
}

/// The year and month of a count of months since the start of year 0.
pub open spec fn from_month_index(i: int) -> (int, int) {
    (i / 12, i % 12 + 1)
}

/// The year and month `amount` months after `year`-`month`.
pub open spec fn months_after(year: int, month: int, amount: int) -> (int, int) {
    from_month_index(month_index(year, month) + amount)
}

/// The first year `chrono`'s dates reach.
pub open spec fn first_year() -> int {
    -262143
}

/// The last year `chrono`'s dates reach.
pub open spec fn last_year() -> int {
    262142
}

/// Today's year and month in the machine's time zone, from
/// `chrono::Local::now().date_naive()`. It rests on the clock and the time
/// zone, so only what holds of every date is stated: the month runs from 1
/// to 12 (as `Datelike::month` documents) and the year lies within
/// `NaiveDate`'s range (`MIN_YEAR` to `MAX_YEAR` in its source).
#[verifier::external_body]
fn local_today() -> (r: (i32, u32))
    ensures
        1 <= r.1 <= 12,
        first_year() <= r.0 <= last_year(),
{
    let today = chrono::Local::now().date_naive();
    (today.year(), today.month())
}

impl CalendarState {
    /// The month is one of the twelve.
    pub open spec fn wf(&self) -> bool {
        1 <= self.month <= 12
    }

    /// Whether moving by `amount` months stays within `i32` throughout the
    /// month arithmetic (`year * 12 + month - 1 + amount`).
    pub open spec fn move_fits(&self, amount: int) -> bool {
        &&& i32::MIN <= self.year * 12
        &&& self.year * 12 + self.month <= i32::MAX
        &&& i32::MIN <= month_index(self.year as int, self.month as int) + amount <= i32::MAX
    }

    /// The month of today.
    pub fn today() -> (r: CalendarState)
        ensures
            r.wf(),
            first_year() <= r.year <= last_year(),
    {
        let (year, month) = local_today();
        CalendarState { year, month }
    }

    /// Moves the calendar by `amount` months, forward or back, across years
    /// as needed.
    pub fn move_month(&mut self, amount: i32)
        requires
            old(self).wf(),
            old(self).move_fits(amount as int),
        ensures
            final(self).wf(),
            (final(self).year as int, final(self).month as int) == months_after(
                old(self).year as int,
                old(self).month as int,
                amount as int,
            ),
    {
        let index: i32 = self.year * 12 + self.month as i32 - 1 + amount;
        let mut q: i32 = index / 12;
        let mut r: i32 = index % 12;
        if r < 0 {
            q = q - 1;
            r = r + 12;
        }
        assert(q == index as int / 12 && r == index as int % 12) by {
            assert(index == 12 * q + r);
        }
        self.year = q;
        self.month = (r + 1) as u32;
    }
}

/// Moving by some months and then by others is moving by their sum.
pub proof fn law_months_compose(year: int, month: int, a: int, b: int)
    requires
        1 <= month <= 12,
    ensures
        ({
            let (y1, m1) = months_after(year, month, a);
            months_after(y1, m1, b)
        }) == months_after(year, month, a + b),
{
    let i = month_index(year, month) + a;
    let (y1, m1) = from_month_index(i);
    assert(month_index(y1, m1) == i);
}

/// Moving back by as many months as moved forward returns to the month
/// where the calendar was, and moving by nothing changes nothing.
pub proof fn law_months_undo(year: int, month: int, amount: int)
    requires
        1 <= month <= 12,
    ensures
        ({
            let (y1, m1) = months_after(year, month, amount);
            months_after(y1, m1, -amount)
        }) == (year, month),
        months_after(year, month, 0) == (year, month),
{
    law_months_compose(year, month, amount, -amount);
    let i = month_index(year, month);
    assert(i / 12 == year && i % 12 == month - 1);
}

/// Moving the calendar back by the months it was just moved returns it to
/// where it was. The move back fits in `i32` exactly when the calendar's
/// month count lies strictly below `i32::MAX` and its year times twelve does
/// not fall below `i32::MIN`; and after any move the month is one of the
/// twelve.
pub proof fn law_move_month_back(s: CalendarState, amount: i32, moved: CalendarState)
    requires
        s.wf(),
        s.move_fits(amount as int),
        (moved.year as int, moved.month as int) == months_after(
            s.year as int,
            s.month as int,
            amount as int,
        ),
    ensures
        moved.wf(),
        moved.move_fits(-amount) <==> (i32::MIN <= moved.year * 12 && month_index(
            moved.year as int,
            moved.month as int,
        ) < i32::MAX),
        months_after(moved.year as int, moved.month as int, -amount) == (s.year as int, s.month as int),
{
    let i = month_index(s.year as int, s.month as int) + amount;
    assert(month_index(moved.year as int, moved.month as int) == i);
    law_months_undo(s.year as int, s.month as int, amount as int);
}

/// Moving by twelve months keeps the month and changes the year by one.
pub proof fn law_twelve_months_is_a_year(year: int, month: int)
    requires
        1 <= month <= 12,
    ensures
        months_after(year, month, 12) == (year + 1, month),
        months_after(year, month, -12) == (year - 1, month),
{
    let i = month_index(year, month);
    assert((i + 12) / 12 == year + 1 && (i + 12) % 12 == month - 1);
    assert((i - 12) / 12 == year - 1 && (i - 12) % 12 == month - 1);
}

/// The heading of the month view, such as `2025年 3月`.
pub open spec fn calendar_label_text(state: CalendarState) -> Seq<char> {
    signed_decimal(state.year as int) + "年 "@ + decimal(state.month as nat) + "月"@
}

/// The heading of the month view.
pub fn calendar_label(state: &CalendarState) -> (r: String)
    ensures
        r@ == calendar_label_text(*state),
{
    let mut out: Vec<char> = Vec::new();
    push_signed_decimal(&mut out, state.year as i64);
    crate::jira::push_str(&mut out, "年 ");
    push_decimal(&mut out, state.month as u64);
    crate::jira::push_str(&mut out, "月");
    string_of(&out)
}

/// Whether a year is a leap year of the proleptic Gregorian calendar.
pub open spec fn is_leap(year: int) -> bool {
    year % 4 == 0 && (year % 100 != 0 || year % 400 == 0)
}

/// The number of days of a month.
pub open spec fn month_length(year: int, month: int) -> int {
    if month == 2 {
        if is_leap(year) { 29 } else { 28 }
    } else if month == 4 || month == 6 || month == 9 || month == 11 {
        30
    } else {
        31
    }
}

/// The days of a year before the first of a month.
pub open spec fn days_before_month(year: int, month: int) -> int {
    let leap: int = if is_leap(year) && month > 2 { 1 } else { 0 };
    let before: int = if month <= 1 {
        0
    } else if month == 2 {
        31
    } else if month == 3 {
        59
    } else if month == 4 {
        90
    } else if month == 5 {
        120
    } else if month == 6 {
        151
    } else if month == 7 {
        181
    } else if month == 8 {
        212
    } else if month == 9 {
        243
    } else if month == 10 {
        273
    } else if month == 11 {
        304
    } else {
        334
    };
    leap + before
}

/// The days before the first of January of a year, counted from 0001-01-01.
pub open spec fn days_before_year(year: int) -> int {
    let p = year - 1;
    365 * p + p / 4 - p / 100 + p / 400
}

/// The day number of a date in the proleptic Gregorian calendar,
/// 0001-01-01 being day 1, as `Datelike::num_days_from_ce` counts.
pub open spec fn day_count(year: int, month: int, day: int) -> int {
    days_before_year(year) + days_before_month(year, month) + day
}

/// Whether `chrono`'s `NaiveDate` has a date: a month of the twelve, a day
/// of that month, and a year within its range.
pub open spec fn valid_date(year: int, month: int, day: int) -> bool {
    &&& first_year() <= year <= last_year()
    &&& 1 <= month <= 12
    &&& 1 <= day <= month_length(year, month)
}

/// The day number of `NaiveDate::MIN`.
pub open spec fn first_day() -> int {
    day_count(first_year(), 1, 1)
}

/// The day number of `NaiveDate::MAX`.
pub open spec fn last_day() -> int {
    day_count(last_year(), 12, 31)
}

/// The date of a day number within `chrono`'s range.
pub open spec fn date_at(n: int) -> (int, int, int) {
    choose|t: (int, int, int)| valid_date(t.0, t.1, t.2) && day_count(t.0, t.1, t.2) == n
}

/// A date as `%Y-%m-%d` writes it: the year as `%Y` does, then the month and
/// the day in two digits each.
pub open spec fn date_text(year: int, month: int, day: int) -> Seq<char> {
    year_text(year) + seq!['-'] + padded(month as nat, 2) + seq!['-'] + padded(day as nat, 2)
}

/// A year has 365 days, and one more in a leap year.
proof fn lemma_year_length(year: int)
    ensures
        days_before_year(year + 1) == days_before_year(year) + 365 + (if is_leap(year) { 1int } else { 0int }),
{
    let p = year - 1;
    assert((p + 1) / 4 == p / 4 + (if year % 4 == 0 { 1int } else { 0int }));
    assert((p + 1) / 100 == p / 100 + (if year % 100 == 0 { 1int } else { 0int }));
    assert((p + 1) / 400 == p / 400 + (if year % 400 == 0 { 1int } else { 0int }));
}

/// Later years start later.
proof fn lemma_years_ordered(a: int, b: int)
    requires
        a < b,
    ensures
        days_before_year(a + 1) <= days_before_year(b),
    decreases b - a,
{
    if a + 1 < b {
        lemma_years_ordered(a + 1, b);
        lemma_year_length(a + 1);
    }
}

/// Within a year, a later month starts after every day of an earlier one.
proof fn lemma_within_year(year: int, month: int, day: int, later: int)
    requires
        valid_date(year, month, day),
        month < later <= 12,
    ensures
        days_before_month(year, month) + day <= days_before_month(year, later),
{
}

/// A valid date falls within its year.
proof fn lemma_in_year(year: int, month: int, day: int)
    requires
        valid_date(year, month, day),
    ensures
        days_before_year(year) < day_count(year, month, day) <= days_before_year(year + 1),
{
    lemma_year_length(year);
}

/// Two valid dates with one day number are one date.
proof fn lemma_day_count_injective(y1: int, m1: int, d1: int, y2: int, m2: int, d2: int)
    requires
        valid_date(y1, m1, d1),
        valid_date(y2, m2, d2),
        day_count(y1, m1, d1) == day_count(y2, m2, d2),
    ensures
        y1 == y2 && m1 == m2 && d1 == d2,
{
    lemma_in_year(y1, m1, d1);
    lemma_in_year(y2, m2, d2);
    if y1 < y2 {
        lemma_years_ordered(y1, y2);
    } else if y2 < y1 {
        lemma_years_ordered(y2, y1);
    } else if m1 < m2 {
        lemma_within_year(y1, m1, d1, m2);
    } else if m2 < m1 {
        lemma_within_year(y2, m2, d2, m1);
    }
}

/// The day number of a date, with `NaiveDate::from_ymd_opt` and
/// `Datelike::num_days_from_ce`: none where the month or the day does not
/// exist or the year lies outside `NaiveDate`'s range, else the date's place
/// in the proleptic Gregorian calendar, 0001-01-01 being day 1.
#[verifier::external_body]
fn day_number(year: i32, month: u32, day: u32) -> (r: Option<i32>)
    ensures
        r is Some <==> valid_date(year as int, month as int, day as int),
        r matches Some(n) ==> n == day_count(year as int, month as int, day as int),
{
    match chrono::NaiveDate::from_ymd_opt(year, month, day) {
        Some(d) => Some(d.num_days_from_ce()),
        None => None,
    }
}

/// The weekday of a day number, counted from Sunday as 0, with
/// `NaiveDate::from_num_days_from_ce_opt`, `Datelike::weekday` and
/// `Weekday::num_days_from_sunday`: none outside `NaiveDate`'s range, else
/// the day number modulo 7, 0001-01-01 being a Monday.
#[verifier::external_body]
fn weekday_from_sunday(n: i32) -> (r: Option<u32>)
    ensures
        r is Some <==> first_day() <= n <= last_day(),
        r matches Some(w) ==> w == n % 7,
{
    match chrono::NaiveDate::from_num_days_from_ce_opt(n) {
        Some(d) => Some(d.weekday().num_days_from_sunday()),
        None => None,
    }
}

/// The year, month and day of a day number, with
/// `NaiveDate::from_num_days_from_ce_opt` and `Datelike`'s accessors: none
/// outside `NaiveDate`'s range, else the valid date with that day number.
#[verifier::external_body]
fn date_of(n: i32) -> (r: Option<(i32, u32, u32)>)
    ensures
        r is Some <==> first_day() <= n <= last_day(),
        r matches Some(t) ==> valid_date(t.0 as int, t.1 as int, t.2 as int) && day_count(
            t.0 as int,
            t.1 as int,
            t.2 as int,
        ) == n,
{
    match chrono::NaiveDate::from_num_days_from_ce_opt(n) {
        Some(d) => Some((d.year(), d.month(), d.day())),
        None => None,
    }
}

/// A date written with `NaiveDate::from_ymd_opt` and `NaiveDate::format` in
/// `%Y-%m-%d`: none where the date does not exist, else the year as `%Y`
/// writes it, then the month and the day in two digits each.
#[verifier::external_body]
fn format_date(year: i32, month: u32, day: u32, format: &str) -> (r: Option<String>)
    requires
        format@ == "%Y-%m-%d"@,
    ensures
        r is Some <==> valid_date(year as int, month as int, day as int),
        r matches Some(s) ==> s@ == date_text(year as int, month as int, day as int),
{
    match chrono::NaiveDate::from_ymd_opt(year, month, day) {
        Some(d) => Some(d.format(format).to_string()),
        None => None,
    }
}

/// The day number the month view starts at: the Sunday on or before the
/// first of the month; none where the month has no first day in `chrono`.
pub open spec fn grid_start(state: CalendarState) -> Option<int> {
    if valid_date(state.year as int, state.month as int, 1) {
        let first = day_count(state.year as int, state.month as int, 1);
        Some(first - first % 7)
    } else {
        None
    }
}

/// Whether `c` is the cell at position `index` of a view starting at day
/// `start` for the month shown in `state`.
pub open spec fn cell_is(c: CalendarDay, state: CalendarState, start: int, index: int) -> bool {
    let (y, m, d) = date_at(start + index);
    &&& c.label@ == decimal(d as nat)
    &&& c.date@ == date_text(y, m, d)
    &&& c.row == index / 7
    &&& c.column == index % 7
    &&& c.current_month == (m == state.month)
}

/// The six weeks of days the month view shows, Sunday first, starting with
/// the week of the first of the month; none where the month has no first
/// day in `chrono` or the six weeks run past the ends of its range.
pub fn calendar_days(state: &CalendarState) -> (r: Option<Vec<CalendarDay>>)
    ensures
        r is Some <==> (grid_start(*state) is Some && first_day() <= grid_start(*state)->0
            && grid_start(*state)->0 + 41 <= last_day()),
        r matches Some(days) ==> days@.len() == 42 && forall|i: int|
            0 <= i < 42 ==> cell_is(#[trigger] days@[i], *state, grid_start(*state)->0, i),
{
    let first = match day_number(state.year, state.month, 1) {
        Some(n) => n,
        None => {
            return None;
        },
    };
    let w = match weekday_from_sunday(first) {
        Some(w) => w,
        None => {
            proof {
                lemma_in_year(state.year as int, state.month as int, 1);
                lemma_years_ordered(first_year(), state.year as int);
                lemma_years_ordered(state.year as int, last_year());
                lemma_in_year(last_year(), 12, 31);
            }
            return None;
        },
    };
    let start: i64 = first as i64 - w as i64;
    let ghost s = start as int;
    assert(grid_start(*state) == Some(s));
    let mut days: Vec<CalendarDay> = Vec::new();
    let mut index: i64 = 0;
    while index < 42
        invariant
            0 <= index <= 42,
            s == start,
            grid_start(*state) == Some(s),
            grid_start(*state)->0 == s,
            i32::MIN - 7 <= start <= i32::MAX,
            index > 0 ==> first_day() <= s && s + index - 1 <= last_day(),
            days@.len() == index,
            forall|i: int| 0 <= i < index ==> cell_is(#[trigger] days@[i], *state, s, i),
        decreases 42 - index,
    {
        let n = start + index;
        if n < i32::MIN as i64 || n > i32::MAX as i64 {
            proof {
                lemma_first_last_in_i32();
            }
            return None;
        }
        let (y, m, d) = match date_of(n as i32) {
            Some(t) => t,
            None => {
                return None;
            },
        };
        let date = match format_date(y, m, d, "%Y-%m-%d") {
            Some(t) => t,
            None => {
                return None;
            },
        };
        proof {
            let t = choose|t: (int, int, int)| valid_date(t.0, t.1, t.2) && day_count(t.0, t.1, t.2) == n;
            assert(valid_date(y as int, m as int, d as int) && day_count(y as int, m as int, d as int) == n);
            lemma_day_count_injective(t.0, t.1, t.2, y as int, m as int, d as int);
            assert(date_at(s + index) == (y as int, m as int, d as int));
        }
        let mut label: Vec<char> = Vec::new();
        push_decimal(&mut label, d as u64);
        let cell = CalendarDay {
            label: string_of(&label),
            date,
            row: (index / 7) as i32,
            column: (index % 7) as i32,
            current_month: m == state.month,
        };
        days.push(cell);
        assert(cell_is(days@[index as int], *state, s, index as int));
        index = index + 1;
    }
    Some(days)
}

/// `chrono`'s day numbers lie within `i32`.
proof fn lemma_first_last_in_i32()
    ensures
        i32::MIN < first_day() - 7,
        last_day() + 42 < i32::MAX,
{
    assert(first_day() == -95746129);
    assert(last_day() == 95745399);
}

/// Whether `NaiveDate::parse_from_str` reads `text` in `format`.
pub uninterp spec fn date_text_parses(text: Seq<char>, format: Seq<char>) -> bool;

/// Whether a text reads as a date with `chrono::NaiveDate::parse_from_str`.
/// The contract claims only the answer `date_text_parses` names.
#[verifier::external_body]
fn parses_as_date(text: &str, format: &str) -> (r: bool)
    ensures
        r == date_text_parses(text@, format@),
{
    chrono::NaiveDate::parse_from_str(text, format).is_ok()
}

/// Accepts a due date that is blank or reads as `YYYY-MM-DD` once trimmed.
pub fn validate_due(value: &str) -> (r: Result<(), String>)
    ensures
        r is Ok <==> (trim(value@).len() == 0 || date_text_parses(trim(value@), "%Y-%m-%d"@)),
        r matches Err(m) ==> m@ == "期限はカレンダーから選択するか YYYY-MM-DD で指定してください。"@,
{
    let t = trimmed(value);
    if chars_of(t.as_str()).len() == 0 || parses_as_date(t.as_str(), "%Y-%m-%d") {
        Ok(())
    } else {
        Err("期限はカレンダーから選択するか YYYY-MM-DD で指定してください。".to_owned())
    }
}

} // verus!
