//! The month calendar of the message-search day filter.
use vstd::prelude::*;
use vstd::string::StringExecFns;

verus! {

/// A calendar month: the month of a civil date, from year -9999 to 9999.
#[derive(Clone, Copy, Debug, PartialEq, Eq, Structural)]
pub struct CalendarMonth {
    pub year: i16,
    pub month: i8,
}

/// Whether the civil calendar has this month.
pub open spec fn month_exists(year: int, month: int) -> bool {
    -9999 <= year <= 9999 && 1 <= month <= 12
}

/// The months counted from January of year 0.
pub open spec fn month_number(m: CalendarMonth) -> int {
    m.year * 12 + m.month - 1
}

/// The number of the first month the calendar has.
pub open spec fn first_month_number() -> int {
    -9999int * 12
}

/// The number of the last month the calendar has.
pub open spec fn last_month_number() -> int {
    9999int * 12 + 11
}

/// Whether `jiff` has a date on the first of this month.
///
/// Calls `jiff::civil::Date::new(year, month, 1)`. Its documentation says that
/// it succeeds exactly when the year is in `-9999..=9999`, the month in
/// `1..=12` and the day at least 1 and at most the days of the month, which the
/// first of a month always is; the contract states that.
#[verifier::external_body]
fn month_starts(year: i16, month: i8) -> (r: bool)
    ensures
        r == month_exists(year as int, month as int),
{
    jiff::civil::Date::new(year, month, 1).is_ok()
}

impl CalendarMonth {
    pub open spec fn valid(self) -> bool {
        month_exists(self.year as int, self.month as int)
    }

    /// The month, when the calendar has it.
    pub fn new(year: i16, month: i8) -> (r: Option<Self>)
        ensures
            r == (if month_exists(year as int, month as int) {
                Some(CalendarMonth { year, month })
            } else {
                None
            }),
    {
        if month_starts(year, month) {
            Some(CalendarMonth { year, month })
        } else {
            None
        }
    }

    pub fn year(self) -> (r: i16)
        ensures
            r == self.year,
    {
        self.year
    }

    pub fn month(self) -> (r: i8)
        ensures
            r == self.month,
    {
        self.month
    }
}

/// The month one step back (a negative direction) or forward (otherwise);
/// past either end of the calendar the month stays where it is.
pub fn month_step(month: CalendarMonth, direction: i32) -> (r: CalendarMonth)
    requires
        month.valid(),
    ensures
        r.valid(),
        ({
            let target = month_number(month) + if direction < 0 {
                -1int
            } else {
                1int
            };
            if first_month_number() <= target <= last_month_number() {
                month_number(r) == target
            } else {
                r == month
            }
        }),
{
    let (year, number): (i16, i8) = if direction < 0 {
        if month.month == 1 {
            (month.year - 1, 12)
        } else {
            (month.year, month.month - 1)
        }
    } else if month.month == 12 {
        (month.year + 1, 1)
    } else {
        (month.year, month.month + 1)
    };
    if month_starts(year, number) {
        CalendarMonth { year, month: number }
    } else {
        month
    }
}

/// The English name of a month, January for anything that is not one.
pub open spec fn month_name(month: int) -> Seq<char> {
    if month == 2 {
        "February"@
    } else if month == 3 {
        "March"@
    } else if month == 4 {
        "April"@
    } else if month == 5 {
        "May"@
    } else if month == 6 {
        "June"@
    } else if month == 7 {
        "July"@
    } else if month == 8 {
        "August"@
    } else if month == 9 {
        "September"@
    } else if month == 10 {
        "October"@
    } else if month == 11 {
        "November"@
    } else if month == 12 {
        "December"@
    } else {
        "January"@
    }
}

/// The decimal digit `d`.
pub open spec fn digit_text(d: int) -> Seq<char> {
    if d == 1 {
        "1"@
    } else if d == 2 {
        "2"@
    } else if d == 3 {
        "3"@
    } else if d == 4 {
        "4"@
    } else if d == 5 {
        "5"@
    } else if d == 6 {
        "6"@
    } else if d == 7 {
        "7"@
    } else if d == 8 {
        "8"@
    } else if d == 9 {
        "9"@
    } else {
        "0"@
    }
}

/// The decimal numeral of `n`, without leading zeros.
pub open spec fn unsigned_text(n: nat) -> Seq<char>
    decreases n,
{
    if n < 10 {
        digit_text(n as int)
    } else {
        unsigned_text(n / 10) + digit_text((n % 10) as int)
    }
}

/// The decimal numeral of `n`, with a minus sign when it is negative.
pub open spec fn decimal_text(n: int) -> Seq<char> {
    if n < 0 {
        "-"@ + unsigned_text((-n) as nat)
    } else {
        unsigned_text(n as nat)
    }
}

fn digit_str(d: u32) -> (r: &'static str)
    requires
        d < 10,
    ensures
        r@ == digit_text(d as int),
{
    match d {
        1 => "1",
        2 => "2",
        3 => "3",
        4 => "4",
        5 => "5",
        6 => "6",
        7 => "7",
        8 => "8",
        9 => "9",
        _ => "0",
    }
}

fn append_unsigned(out: &mut String, n: u32)
    ensures
        final(out)@ == old(out)@ + unsigned_text(n as nat),
    decreases n,
{
    if n >= 10 {
        append_unsigned(out, n / 10);
    }
    out.append(digit_str(n % 10));
    assert(final(out)@ =~= old(out)@ + unsigned_text(n as nat));
}

/// The month's name and year, as the calendar header shows them.
pub fn month_label(month: CalendarMonth) -> (r: String)
    ensures
        r@ == month_name(month.month as int) + " "@ + decimal_text(month.year as int),
        1 <= month.month <= 12 ==> r@ == english_month_names()[month.month - 1] + " "@
            + decimal_text(month.year as int),
{
    let name = match month.month {
        2 => "February",
        3 => "March",
        4 => "April",
        5 => "May",
        6 => "June",
        7 => "July",
        8 => "August",
        9 => "September",
        10 => "October",
        11 => "November",
        12 => "December",
        _ => "January",
    };
    let mut out = String::new();
    out.append(name);
    out.append(" ");
    if month.year < 0 {
        out.append("-");
        let magnitude: u32 = (0 - (month.year as i32)) as u32;
        append_unsigned(&mut out, magnitude);
    } else {
        append_unsigned(&mut out, month.year as u32);
    }
    assert(out@ =~= month_name(month.month as int) + " "@ + decimal_text(month.year as int));
    proof {
        if 1 <= month.month <= 12 {
            lemma_month_names(month.month as int);
        }
    }
    out
}

/// The English month names, January first.
pub open spec fn english_month_names() -> Seq<Seq<char>> {
    seq![
        "January"@,
        "February"@,
        "March"@,
        "April"@,
        "May"@,
        "June"@,
        "July"@,
        "August"@,
        "September"@,
        "October"@,
        "November"@,
        "December"@,
    ]
}

/// The header names month `m` of the year by the `m`-th English month name.
pub proof fn lemma_month_names(m: int)
    requires
        1 <= m <= 12,
    ensures
        month_name(m) == english_month_names()[m - 1],
{
}

/// The value of a string of decimal digits, most significant first.
pub open spec fn numeral_value(digits: Seq<char>) -> int
    decreases digits.len(),
{
    if digits.len() == 0 {
        0
    } else {
        numeral_value(digits.drop_last()) * 10 + (digits.last() as int - '0' as int)
    }
}

/// Each digit is one character, the one whose code is `'0'` plus its value.
pub proof fn lemma_digit_text(d: int)
    requires
        0 <= d <= 9,
    ensures
        digit_text(d).len() == 1,
        digit_text(d)[0] as int == '0' as int + d,
{
    reveal_strlit("0");
    reveal_strlit("1");
    reveal_strlit("2");
    reveal_strlit("3");
    reveal_strlit("4");
    reveal_strlit("5");
    reveal_strlit("6");
    reveal_strlit("7");
    reveal_strlit("8");
    reveal_strlit("9");
}

/// The numeral of `n` is made of digits only, and read back it is `n`.
pub proof fn lemma_numeral_reads_back(n: nat)
    ensures
        unsigned_text(n).len() >= 1,
        forall|i: int|
            0 <= i < unsigned_text(n).len() ==> '0' <= #[trigger] unsigned_text(n)[i] <= '9',
        numeral_value(unsigned_text(n)) == n,
    decreases n,
{
    if n < 10 {
        lemma_digit_text(n as int);
        let s = digit_text(n as int);
        assert(s.drop_last() =~= Seq::<char>::empty());
        assert(numeral_value(s.drop_last()) == 0);
        assert(numeral_value(s) == s.last() as int - '0' as int);
    } else {
        lemma_numeral_reads_back(n / 10);
        lemma_digit_text((n % 10) as int);
        let head = unsigned_text(n / 10);
        let s = unsigned_text(n);
        assert(s == head + digit_text((n % 10) as int));
        assert(s.drop_last() =~= head);
        assert(s.last() == digit_text((n % 10) as int)[0]);
        assert forall|i: int| 0 <= i < s.len() implies '0' <= #[trigger] s[i] <= '9' by {
            if i < head.len() {
                assert(s[i] == head[i]);
            }
        }
        assert(numeral_value(s) == numeral_value(head) * 10 + (s.last() as int - '0' as int));
        assert((n / 10) * 10 + n % 10 == n);
    }
}

/// A month of the calendar is fixed by its number.
pub proof fn lemma_month_number_identifies(a: CalendarMonth, b: CalendarMonth)
    requires
        a.valid(),
        b.valid(),
        month_number(a) == month_number(b),
    ensures
        a == b,
{
}

/// Stepping forward from December lands on January of the next year, and
/// stepping back from January on December of the year before.
pub proof fn lemma_steps_cross_the_year(m: CalendarMonth, r: CalendarMonth)
    requires
        m.valid(),
        r.valid(),
    ensures
        m.month == 12 && month_number(r) == month_number(m) + 1 ==> r.year == m.year + 1
            && r.month == 1,
        m.month == 1 && month_number(r) == month_number(m) - 1 ==> r.year == m.year - 1
            && r.month == 12,
{
}

// ---------------------------------------------------------------------------
// The month grid
// ---------------------------------------------------------------------------

/// Whether the proleptic Gregorian calendar makes `year` a leap year.
pub open spec fn leap_year(year: int) -> bool {
    year % 4 == 0 && (year % 100 != 0 || year % 400 == 0)
}

/// The number of days in a month of the proleptic Gregorian calendar.
pub open spec fn days_in(year: int, month: int) -> int {
    if month == 2 {
        if leap_year(year) {
            29
        } else {
            28
        }
    } else if month == 4 || month == 6 || month == 9 || month == 11 {
        30
    } else {
        31
    }
}

/// The number of days in the month.
pub fn days_in_month(month: CalendarMonth) -> (r: i8)
    requires
        month.valid(),
    ensures
        r == days_in(month.year as int, month.month as int),
{
    if month.month == 2 {
        // Adding 10000, a multiple of 400, keeps every divisibility the rule asks about.
        let shifted: u32 = (month.year as i32 + 10000) as u32;
        proof {
            let y = month.year as int;
            assert(shifted as int == y + 10000);
            assert((y + 10000) % 4 == 0 <==> y % 4 == 0);
            assert((y + 10000) % 100 == 0 <==> y % 100 == 0);
            assert((y + 10000) % 400 == 0 <==> y % 400 == 0);
        }
        if shifted % 4 == 0 && (shifted % 100 != 0 || shifted % 400 == 0) {
            29
        } else {
            28
        }
    } else if month.month == 4 || month.month == 6 || month.month == 9 || month.month == 11 {
        30
    } else {
        31
    }
}

/// The number of days in a year of the proleptic Gregorian calendar.
pub open spec fn days_in_year(year: int) -> int {
    if leap_year(year) {
        366
    } else {
        365
    }
}

/// The days from 1 January 1970 to 1 January of `year` (negative before 1970).
pub open spec fn days_to_year(year: int) -> int
    decreases (if year >= 1970 {
        year - 1970
    } else {
        1970 - year
    }),
{
    if year == 1970 {
        0
    } else if year > 1970 {
        days_to_year(year - 1) + days_in_year(year - 1)
    } else {
        days_to_year(year + 1) - days_in_year(year)
    }
}

/// The days from 1 January to the first of `month` in `year`.
pub open spec fn days_to_month(year: int, month: int) -> int
    decreases month,
{
    if month <= 1 {
        0
    } else {
        days_to_month(year, month - 1) + days_in(year, month - 1)
    }
}

/// The weekday of the first of the month, counted from Monday as 0:
/// 1 January 1970 was a Thursday, and each day after it moves one weekday on.
pub open spec fn monday_offset(year: int, month: int) -> int {
    (days_to_year(year) + days_to_month(year, month) + 3) % 7
}

/// The weekday of the first of the month, counted from Monday as 0.
///
/// Calls `jiff::civil::Date::new(year, month, 1)`, which succeeds for a valid
/// month, then `weekday().to_monday_zero_offset()`. `jiff` counts days in the
/// proleptic Gregorian calendar, so the weekday is the one `monday_offset`
/// states.
#[verifier::external_body]
fn first_weekday_offset(month: CalendarMonth) -> (r: u8)
    requires
        month.valid(),
    ensures
        r == monday_offset(month.year as int, month.month as int),
{
    jiff::civil::Date::new(month.year, month.month, 1)
        .map(|date| date.weekday().to_monday_zero_offset() as u8)
        .unwrap_or(0)
}

/// The grid cell of each day, for a month whose first day is in column
/// `lead` (Monday first) and that has `days` days: the day, its column and
/// its row.
pub open spec fn grid_cells(lead: int, days: int) -> Seq<(i8, u8, u8)> {
    Seq::new(
        days as nat,
        |i: int| ((i + 1) as i8, ((lead + i) % 7) as u8, ((lead + i) / 7) as u8),
    )
}

/// Lays the days out in weeks of seven columns, Monday first, the first day
/// in column `lead`.
pub fn cells_from(lead: u8, days: i8) -> (r: Vec<(i8, u8, u8)>)
    requires
        lead < 7,
        0 <= days <= 31,
    ensures
        r@ == grid_cells(lead as int, days as int),
{
    let mut cells: Vec<(i8, u8, u8)> = Vec::new();
    let mut day: i8 = 1;
    while day <= days
        invariant
            1 <= day <= days + 1,
            lead < 7,
            days <= 31,
            cells@ == grid_cells(lead as int, days as int).take(day - 1),
        decreases days + 1 - day,
    {
        let index: u8 = lead + (day as u8) - 1;
        cells.push((day, index % 7, index / 7));
        assert(cells@ =~= grid_cells(lead as int, days as int).take(day as int));
        day = day + 1;
    }
    assert(cells@ =~= grid_cells(lead as int, days as int));
    cells
}

/// The calendar grid of the month: each day with its column (Monday first)
/// and its row.
pub fn month_cells(month: CalendarMonth) -> (r: Vec<(i8, u8, u8)>)
    requires
        month.valid(),
    ensures
        r@ == grid_cells(
            monday_offset(month.year as int, month.month as int),
            days_in(month.year as int, month.month as int),
        ),
{
    let lead = first_weekday_offset(month);
    assert(lead < 7);
    let days = days_in_month(month);
    cells_from(lead, days)
}

/// A civil date as year, month and day.
pub type CalendarDay = (i16, i8, i8);

/// The day filter after a click on `day`: a click on the selected day clears
/// the filter, a click on another day selects it.
pub fn day_clicked(selected: Option<CalendarDay>, day: CalendarDay) -> (r: Option<CalendarDay>)
    ensures
        r == (if selected == Some(day) {
            None
        } else {
            Some(day)
        }),
{
    match selected {
        Some(current) => if current.0 == day.0 && current.1 == day.1 && current.2 == day.2 {
            None
        } else {
            Some(day)
        },
        None => Some(day),
    }
}

/// The weekday names, Monday first.
pub open spec fn weekday_name(column: int) -> Seq<char> {
    if column == 0 {
        "Mon"@
    } else if column == 1 {
        "Tue"@
    } else if column == 2 {
        "Wed"@
    } else if column == 3 {
        "Thu"@
    } else if column == 4 {
        "Fri"@
    } else if column == 5 {
        "Sat"@
    } else {
        "Sun"@
    }
}

/// The English weekday names, shortened to three letters, Monday first.
pub open spec fn english_weekday_names() -> Seq<Seq<char>> {
    seq!["Mon"@, "Tue"@, "Wed"@, "Thu"@, "Fri"@, "Sat"@, "Sun"@]
}

/// Column `c` of the grid is the `c`-th weekday, counted from Monday.
pub proof fn lemma_weekday_names(c: int)
    requires
        0 <= c < 7,
    ensures
        weekday_name(c) == english_weekday_names()[c],
{
}

/// The header over a column of the grid: the first two letters of its
/// weekday, Monday first.
pub fn weekday_header(column: usize) -> (r: &'static str)
    requires
        column < 7,
    ensures
        r@ == weekday_name(column as int).take(2),
{
    proof {
        reveal_strlit("Mon");
        reveal_strlit("Tue");
        reveal_strlit("Wed");
        reveal_strlit("Thu");
        reveal_strlit("Fri");
        reveal_strlit("Sat");
        reveal_strlit("Sun");
        reveal_strlit("Mo");
        reveal_strlit("Tu");
        reveal_strlit("We");
        reveal_strlit("Th");
        reveal_strlit("Fr");
        reveal_strlit("Sa");
        reveal_strlit("Su");
    }
    let r = match column {
        0 => "Mo",
        1 => "Tu",
        2 => "We",
        3 => "Th",
        4 => "Fr",
        5 => "Sa",
        _ => "Su",
    };
    assert(r@ =~= weekday_name(column as int).take(2));
    r
}

/// The grid of a month holds each of its days once, in order, seven to a row,
/// and fits in six rows.
pub proof fn lemma_month_grid(lead: int, days: int, i: int)
    requires
        0 <= lead < 7,
        28 <= days <= 31,
        0 <= i < days,
    ensures
        grid_cells(lead, days)[i].0 == i + 1,
        grid_cells(lead, days)[i].1 < 7,
        grid_cells(lead, days)[i].2 < 6,
        grid_cells(lead, days)[i].2 * 7 + grid_cells(lead, days)[i].1 == lead + i,
{
}

/// Every month has from 28 to 31 days; February has 29 exactly in leap years.
pub proof fn lemma_days_in_month(year: int, month: int)
    requires
        month_exists(year, month),
    ensures
        28 <= days_in(year, month) <= 31,
        month == 2 ==> (days_in(year, month) == 29 <==> leap_year(year)),
{
}

/// The lengths of the twelve months, January first, in a leap year or not.
pub open spec fn month_lengths(leap: bool) -> Seq<int> {
    seq![31, if leap { 29 } else { 28 }, 31, 30, 31, 30, 31, 31, 30, 31, 30, 31]
}

/// Month `m` has the `m`-th of the month lengths of its year.
pub proof fn lemma_month_lengths(year: int, m: int)
    requires
        1 <= m <= 12,
    ensures
        days_in(year, m) == month_lengths(leap_year(year))[m - 1],
{
}

/// A year's months add up to its days: 366 in a leap year, else 365.
pub proof fn lemma_months_fill_the_year(year: int)
    ensures
        days_to_month(year, 12) + days_in(year, 12) == days_in_year(year),
{
    reveal_with_fuel(days_to_month, 13);
}

/// The grid of the next month starts in the column after the last day of this one.
pub proof fn lemma_next_month_starts_after_this_one(m: CalendarMonth, next: CalendarMonth)
    requires
        m.valid(),
        next.valid(),
        month_number(next) == month_number(m) + 1,
    ensures
        monday_offset(next.year as int, next.month as int) == (monday_offset(
            m.year as int,
            m.month as int,
        ) + days_in(m.year as int, m.month as int)) % 7,
{
    let y = m.year as int;
    if m.month == 12 {
        lemma_months_fill_the_year(y);
        assert(next.year == y + 1 && next.month == 1);
        assert(days_to_year(y + 1) == days_to_year(y) + days_in_year(y));
        assert(days_to_month(y + 1, 1) == 0);
    } else {
        assert(next.year == y && next.month == m.month + 1);
        assert(days_to_month(y, m.month + 1) == days_to_month(y, m.month as int) + days_in(
            y,
            m.month as int,
        ));
    }
    let a = days_to_year(y) + days_to_month(y, m.month as int) + 3;
    let d = days_in(y, m.month as int);
    assert((a + d) % 7 == (a % 7 + d) % 7) by (nonlinear_arith);
}

} // verus!
