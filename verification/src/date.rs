//! Calendar dates as plain values, and the date targets a search can name.
//!
//! A [`Date`] carries year, month and day directly, with the Gregorian
//! validity rules as its invariant; arithmetic steps through the calendar
//! one day at a time, pinned to the spec-level successor and predecessor.
//! [`DateTarget`] is the vocabulary of the search CLI — `today`,
//! `last week`, a specific day — and turns into an inclusive date range
//! relative to a given today.

use vstd::prelude::*;

use crate::numtext::{digit_char, digit_char_exec, digits_val, is_digit};

verus! {

broadcast use vstd::string::group_string_axioms;

/// A calendar date, limited to the four-digit years the zero-padded
/// `YYYY-MM-DD` notation can carry.
#[derive(Debug, Clone, Copy, PartialEq, Eq, Structural)]
pub struct Date {
    pub year: i32,
    pub month: u32,
    pub day: u32,
}

/// Gregorian leap years.
pub open spec fn is_leap(y: int) -> bool {
    y % 4 == 0 && (y % 100 != 0 || y % 400 == 0)
}

/// Days in a month of a given year.
pub open spec fn days_in_month(y: int, m: int) -> int {
    if m == 2 {
        if is_leap(y) {
            29
        } else {
            28
        }
    } else if m == 4 || m == 6 || m == 9 || m == 11 {
        30
    } else {
        31
    }
}

impl Date {
    /// A real calendar date within the representable years.
    pub open spec fn valid(self) -> bool {
        &&& 0 <= self.year <= 9999
        &&& 1 <= self.month <= 12
        &&& 1 <= self.day <= days_in_month(self.year as int, self.month as int)
    }

    /// The year, 0 through 9999.
    pub fn year(&self) -> (r: i32)
        ensures
            r == self.year,
    {
        self.year
    }

    /// The month, 1 through 12.
    pub fn month(&self) -> (r: u32)
        ensures
            r == self.month,
    {
        self.month
    }

    /// The day of month, starting from 1.
    pub fn day(&self) -> (r: u32)
        ensures
            r == self.day,
    {
        self.day
    }
}

/// Chronological order on dates.
pub open spec fn date_le(a: Date, b: Date) -> bool {
    a.year < b.year || (a.year == b.year && (a.month < b.month || (a.month == b.month && a.day
        <= b.day)))
}

/// The next calendar day, clamped at the last representable date.
pub open spec fn succ_date(d: Date) -> Date {
    if (d.day as int) < days_in_month(d.year as int, d.month as int) {
        Date { day: (d.day + 1) as u32, ..d }
    } else if d.month < 12 {
        Date { month: (d.month + 1) as u32, day: 1, ..d }
    } else if d.year < 9999 {
        Date { year: (d.year + 1) as i32, month: 1, day: 1 }
    } else {
        d
    }
}

/// The previous calendar day, clamped at the first representable date.
pub open spec fn pred_date(d: Date) -> Date {
    if d.day > 1 {
        Date { day: (d.day - 1) as u32, ..d }
    } else if d.month > 1 {
        Date {
            month: (d.month - 1) as u32,
            day: days_in_month(d.year as int, d.month as int - 1) as u32,
            ..d
        }
    } else if d.year > 0 {
        Date { year: (d.year - 1) as i32, month: 12, day: 31 }
    } else {
        d
    }
}

/// `n` calendar days later, clamped at the top.
pub open spec fn add_days_spec(d: Date, n: nat) -> Date
    decreases n,
{
    if n == 0 {
        d
    } else {
        succ_date(add_days_spec(d, (n - 1) as nat))
    }
}

/// `n` calendar days earlier, clamped at the bottom.
pub open spec fn sub_days_spec(d: Date, n: nat) -> Date
    decreases n,
{
    if n == 0 {
        d
    } else {
        pred_date(sub_days_spec(d, (n - 1) as nat))
    }
}

/// Days in a month, executable.
pub fn days_in_month_exec(y: i32, m: u32) -> (r: u32)
    requires
        1 <= m <= 12,
    ensures
        r == days_in_month(y as int, m as int),
{
    if m == 2 {
        if (y % 4 == 0 && y % 100 != 0) || y % 400 == 0 {
            29
        } else {
            28
        }
    } else if m == 4 || m == 6 || m == 9 || m == 11 {
        30
    } else {
        31
    }
}

impl Date {
    /// The next calendar day.
    pub fn succ(&self) -> (r: Date)
        requires
            self.valid(),
        ensures
            r == succ_date(*self),
            r.valid(),
    {
        let dim = days_in_month_exec(self.year, self.month);
        if self.day < dim {
            Date { day: self.day + 1, ..*self }
        } else if self.month < 12 {
            Date { month: self.month + 1, day: 1, ..*self }
        } else if self.year < 9999 {
            Date { year: self.year + 1, month: 1, day: 1 }
        } else {
            *self
        }
    }

    /// The previous calendar day.
    pub fn pred(&self) -> (r: Date)
        requires
            self.valid(),
        ensures
            r == pred_date(*self),
            r.valid(),
    {
        if self.day > 1 {
            Date { day: self.day - 1, ..*self }
        } else if self.month > 1 {
            Date {
                month: self.month - 1,
                day: days_in_month_exec(self.year, self.month - 1),
                ..*self
            }
        } else if self.year > 0 {
            Date { year: self.year - 1, month: 12, day: 31 }
        } else {
            *self
        }
    }

    /// `n` days later.
    pub fn add_days(&self, n: u32) -> (r: Date)
        requires
            self.valid(),
        ensures
            r == add_days_spec(*self, n as nat),
            r.valid(),
    {
        let mut d = *self;
        let mut i: u32 = 0;
        while i < n
            invariant
                i <= n,
                d == add_days_spec(*self, i as nat),
                d.valid(),
                self.valid(),
            decreases n - i,
        {
            d = d.succ();
            i = i + 1;
        }
        d
    }

    /// `n` days earlier.
    pub fn sub_days(&self, n: u32) -> (r: Date)
        requires
            self.valid(),
        ensures
            r == sub_days_spec(*self, n as nat),
            r.valid(),
    {
        let mut d = *self;
        let mut i: u32 = 0;
        while i < n
            invariant
                i <= n,
                d == sub_days_spec(*self, i as nat),
                d.valid(),
                self.valid(),
            decreases n - i,
        {
            d = d.pred();
            i = i + 1;
        }
        d
    }
}

/// The zero-padded `YYYY-MM-DD` notation of a date, chosen so that string
/// order equals chronological order.
pub open spec fn date_str(d: Date) -> Seq<char> {
    seq![
        digit_char(d.year as int / 1000),
        digit_char((d.year as int / 100) % 10),
        digit_char((d.year as int / 10) % 10),
        digit_char(d.year as int % 10),
        '-',
        digit_char(d.month as int / 10),
        digit_char(d.month as int % 10),
        '-',
        digit_char(d.day as int / 10),
        digit_char(d.day as int % 10),
    ]
}

impl Date {
    /// Render the date as zero-padded `YYYY-MM-DD`.
    pub fn to_string(&self) -> (r: String)
        requires
            self.valid(),
        ensures
            r@ == date_str(*self),
    {
        let y = self.year as u64;
        let m = self.month as u64;
        let d = self.day as u64;
        let mut out: Vec<char> = Vec::new();
        out.push(digit_char_exec(y / 1000));
        out.push(digit_char_exec((y / 100) % 10));
        out.push(digit_char_exec((y / 10) % 10));
        out.push(digit_char_exec(y % 10));
        out.push('-');
        out.push(digit_char_exec(m / 10));
        out.push(digit_char_exec(m % 10));
        out.push('-');
        out.push(digit_char_exec(d / 10));
        out.push(digit_char_exec(d % 10));
        proof {
            assert(out@ =~= date_str(*self));
        }
        crate::text::chars_to_string(&out)
    }
}

/// Why a date or date target failed to parse; the wording mirrors the
/// messages a calendar library's parser would give.
#[derive(Debug, Clone, Copy, PartialEq, Eq, Structural)]
pub enum DateParseError {
    /// The text does not have the shape of a date at all.
    InvalidCharacters,
    /// The shape is right but a component is out of its calendar range.
    OutOfRange,
}

impl DateParseError {
    /// The parse failure, in words.
    pub fn message(&self) -> (r: &'static str)
        ensures
            *self is InvalidCharacters ==> r@ == "input contains invalid characters"@,
            *self is OutOfRange ==> r@ == "input is out of range"@,
    {
        match self {
            DateParseError::InvalidCharacters => "input contains invalid characters",
            DateParseError::OutOfRange => "input is out of range",
        }
    }
}

/// Length of the run of decimal digits starting at `i`.
pub open spec fn digit_run_len(s: Seq<char>, i: int) -> int
    decreases s.len() - i,
{
    if 0 <= i < s.len() && is_digit(s[i]) {
        1 + digit_run_len(s, i + 1)
    } else {
        0
    }
}

/// The year, month and day fields of date text shaped `Y{1,4}-M{1,2}-D{1,2}`
/// with digit runs only, or nothing when the text has another shape.
pub open spec fn date_fields_of(s: Seq<char>) -> Option<(int, int, int)> {
    let la = digit_run_len(s, 0);
    if !(1 <= la <= 4 && la < s.len() && s[la] == '-') {
        None
    } else {
        let lb = digit_run_len(s, la + 1);
        if !(1 <= lb <= 2 && la + 1 + lb < s.len() && s[la + 1 + lb] == '-') {
            None
        } else {
            let lc = digit_run_len(s, la + 1 + lb + 1);
            if !(1 <= lc <= 2 && la + 1 + lb + 1 + lc == s.len()) {
                None
            } else {
                Some(
                    (
                        digits_val(s.subrange(0, la)),
                        digits_val(s.subrange(la + 1, la + 1 + lb)),
                        digits_val(s.subrange(la + 2 + lb, s.len() as int)),
                    ),
                )
            }
        }
    }
}

/// Every character inside a digit run is a digit, and the run stays within
/// the sequence.
proof fn lemma_digit_run(s: Seq<char>, from: int)
    requires
        0 <= from <= s.len(),
    ensures
        digit_run_len(s, from) >= 0,
        from + digit_run_len(s, from) <= s.len(),
        forall|k: int| from <= k < from + digit_run_len(s, from) ==> is_digit(#[trigger] s[k]),
    decreases s.len() - from,
{
    if from < s.len() && is_digit(s[from]) {
        lemma_digit_run(s, from + 1);
    }
}

/// Whether the character at `i` is a decimal digit.
fn digit_at(chars: &Vec<char>, i: usize) -> (r: bool)
    requires
        i < chars@.len(),
    ensures
        r == is_digit(chars@[i as int]),
{
    let cv = chars[i] as u32;
    48 <= cv && cv <= 57
}

/// Scan the digit run starting at `from`; afterwards `r` is its end.
#[verifier::loop_isolation(false)]
fn scan_digits(chars: &Vec<char>, from: usize) -> (r: usize)
    requires
        from <= chars@.len(),
    ensures
        from <= r <= chars@.len(),
        r - from == digit_run_len(chars@, from as int),
{
    let mut i = from;
    while i < chars.len() && digit_at(chars, i)
        invariant
            from <= i <= chars@.len(),
            digit_run_len(chars@, from as int) == (i - from) + digit_run_len(chars@, i as int),
        decreases chars@.len() - i,
    {
        i = i + 1;
    }
    i
}

/// Parse `YYYY-MM-DD` date text (each digit run may be shorter, as a
/// calendar parser accepts): text of another shape is the invalid-characters
/// error, a component outside its calendar range the out-of-range error,
/// and otherwise the date comes back, valid.
#[verifier::loop_isolation(false)]
pub fn parse_date(s: &str) -> (r: Result<Date, DateParseError>)
    ensures
        date_fields_of(s@) is None <==> r == Err::<Date, DateParseError>(
            DateParseError::InvalidCharacters,
        ),
        date_fields_of(s@) matches Some(f) ==> {
            let d = Date { year: f.0 as i32, month: f.1 as u32, day: f.2 as u32 };
            if d.valid() {
                r == Ok::<Date, DateParseError>(d)
            } else {
                r == Err::<Date, DateParseError>(DateParseError::OutOfRange)
            }
        },
{
    let chars = crate::text::str_to_chars(s);
    let la = scan_digits(&chars, 0);
    if !(1 <= la && la <= 4 && la < chars.len() && chars[la] == '-') {
        return Err(DateParseError::InvalidCharacters);
    }
    let mb = la + 1;
    let lb_end = scan_digits(&chars, mb);
    let lb = lb_end - mb;
    if !(1 <= lb && lb <= 2 && lb_end < chars.len() && chars[lb_end] == '-') {
        return Err(DateParseError::InvalidCharacters);
    }
    let mc = lb_end + 1;
    let lc_end = scan_digits(&chars, mc);
    let lc = lc_end - mc;
    if !(1 <= lc && lc <= 2 && lc_end == chars.len()) {
        return Err(DateParseError::InvalidCharacters);
    }
    proof {
        lemma_digit_run(chars@, 0);
        lemma_digit_run(chars@, mb as int);
        lemma_digit_run(chars@, mc as int);
    }
    let y = read_digits(&chars, 0, la);
    let m = read_digits(&chars, mb, lb_end);
    let d = read_digits(&chars, mc, lc_end);
    proof {
        assert(date_fields_of(chars@) == Some((y as int, m as int, d as int)));
    }
    let date = Date { year: y as i32, month: m as u32, day: d as u32 };
    if 1 <= date.month && date.month <= 12 && 1 <= date.day && date.day <= days_in_month_exec(
        date.year,
        date.month,
    ) {
        Ok(date)
    } else {
        Err(DateParseError::OutOfRange)
    }
}

/// The value of the digits between `from` and `to`.
#[verifier::loop_isolation(false)]
fn read_digits(chars: &Vec<char>, from: usize, to: usize) -> (r: u32)
    requires
        from <= to <= chars@.len(),
        to - from <= 4,
        forall|k: int| from <= k < to ==> is_digit(#[trigger] chars@[k]),
    ensures
        r == digits_val(chars@.subrange(from as int, to as int)),
        r <= 9999,
{
    let ghost whole = chars@.subrange(from as int, to as int);
    let mut v: u32 = 0;
    let mut i = from;
    while i < to
        invariant
            from <= i <= to,
            v == digits_val(chars@.subrange(from as int, i as int)),
            v < (if i - from == 0 {
                1int
            } else if i - from == 1 {
                10int
            } else if i - from == 2 {
                100int
            } else if i - from == 3 {
                1000int
            } else {
                10000int
            }),
        decreases to - i,
    {
        let cv = chars[i] as u32;
        proof {
            let pre = chars@.subrange(from as int, i as int);
            let cur = chars@.subrange(from as int, i + 1);
            assert(cur.drop_last() =~= pre);
            assert(cur.last() == chars@[i as int]);
        }
        v = v * 10 + (cv - 48);
        i = i + 1;
    }
    v
}

/// What a search may ask of the calendar: everything, one side of today,
/// one named day or span, or a specific date.
#[derive(Debug, Clone, Copy, PartialEq, Eq, Structural)]
pub enum DateTarget {
    All,
    Past,
    Future,
    Today,
    Yesterday,
    LastWeek,
    LastMonth,
    NextWeek,
    NextMonth,
    Specific(Date),
}

impl DateTarget {
    /// The inclusive date range a target spans, seen from a given today:
    /// open ends are `None`, the week spans are seven days, the month spans
    /// thirty, and past and future both exclude today itself.
    pub fn to_date_range(&self, today: Date) -> (r: (Option<Date>, Option<Date>))
        requires
            today.valid(),
            *self matches DateTarget::Specific(d) ==> d.valid(),
        ensures
            *self is All ==> r == (None::<Date>, None::<Date>),
            *self is Past ==> r == (None::<Date>, Some(pred_date(today))),
            *self is Future ==> r == (Some(succ_date(today)), None::<Date>),
            *self is Today ==> r == (Some(today), Some(today)),
            *self is Yesterday ==> r == (Some(pred_date(today)), Some(pred_date(today))),
            *self is LastWeek ==> r == (Some(sub_days_spec(today, 7)), Some(pred_date(today))),
            *self is LastMonth ==> r == (Some(sub_days_spec(today, 30)), Some(pred_date(today))),
            *self is NextWeek ==> r == (Some(succ_date(today)), Some(add_days_spec(today, 7))),
            *self is NextMonth ==> r == (Some(succ_date(today)), Some(add_days_spec(today, 30))),
            *self matches DateTarget::Specific(d) ==> r == (Some(d), Some(d)),
            r.0 matches Some(d) ==> d.valid(),
            r.1 matches Some(d) ==> d.valid(),
    {
        match self {
            DateTarget::All => (None, None),
            DateTarget::Past => (None, Some(today.pred())),
            DateTarget::Future => (Some(today.succ()), None),
            DateTarget::Today => (Some(today), Some(today)),
            DateTarget::Yesterday => {
                let y = today.pred();
                (Some(y), Some(y))
            }
            DateTarget::LastWeek => (Some(today.sub_days(7)), Some(today.pred())),
            DateTarget::LastMonth => (Some(today.sub_days(30)), Some(today.pred())),
            DateTarget::NextWeek => (Some(today.succ()), Some(today.add_days(7))),
            DateTarget::NextMonth => (Some(today.succ()), Some(today.add_days(30))),
            DateTarget::Specific(d) => (Some(*d), Some(*d)),
        }
    }

    /// Read a target from its command-line spelling; an empty word means
    /// everything, anything else must be a date.
    pub fn parse(s: &str) -> (r: Result<DateTarget, DateParseError>)
        ensures
            s@ == ""@ || s@ == "all"@ ==> r == Ok::<DateTarget, DateParseError>(DateTarget::All),
            s@ == "past"@ ==> r == Ok::<DateTarget, DateParseError>(DateTarget::Past),
            s@ == "future"@ ==> r == Ok::<DateTarget, DateParseError>(DateTarget::Future),
            s@ == "today"@ ==> r == Ok::<DateTarget, DateParseError>(DateTarget::Today),
            s@ == "yesterday"@ ==> r == Ok::<DateTarget, DateParseError>(DateTarget::Yesterday),
            s@ == "last week"@ ==> r == Ok::<DateTarget, DateParseError>(DateTarget::LastWeek),
            s@ == "last month"@ ==> r == Ok::<DateTarget, DateParseError>(DateTarget::LastMonth),
            s@ == "next week"@ ==> r == Ok::<DateTarget, DateParseError>(DateTarget::NextWeek),
            s@ == "next month"@ ==> r == Ok::<DateTarget, DateParseError>(DateTarget::NextMonth),
            r == Ok::<DateTarget, DateParseError>(DateTarget::All) ==> s@ == ""@ || s@ == "all"@,
            r == Ok::<DateTarget, DateParseError>(DateTarget::Past) ==> s@ == "past"@,
            r == Ok::<DateTarget, DateParseError>(DateTarget::Future) ==> s@ == "future"@,
            r == Ok::<DateTarget, DateParseError>(DateTarget::Today) ==> s@ == "today"@,
            r == Ok::<DateTarget, DateParseError>(DateTarget::Yesterday) ==> s@ == "yesterday"@,
            r == Ok::<DateTarget, DateParseError>(DateTarget::LastWeek) ==> s@ == "last week"@,
            r == Ok::<DateTarget, DateParseError>(DateTarget::LastMonth) ==> s@ == "last month"@,
            r == Ok::<DateTarget, DateParseError>(DateTarget::NextWeek) ==> s@ == "next week"@,
            r == Ok::<DateTarget, DateParseError>(DateTarget::NextMonth) ==> s@ == "next month"@,
            r matches Ok(t) ==> (t matches DateTarget::Specific(d) ==> d.valid()
                && parse_date_outcome(s@) == Ok::<Date, DateParseError>(d)),
            r matches Err(e) ==> parse_date_outcome(s@) == Err::<Date, DateParseError>(e),
    {
        proof {
            reveal_strlit("");
            reveal_strlit("all");
            reveal_strlit("past");
            reveal_strlit("future");
            reveal_strlit("today");
            reveal_strlit("yesterday");
            reveal_strlit("last week");
            reveal_strlit("last month");
            reveal_strlit("next week");
            reveal_strlit("next month");
            assert(""@.len() == 0);
            assert("all"@.len() == 3);
            assert("past"@.len() == 4);
            assert("future"@.len() == 6);
            assert("today"@.len() == 5);
            assert("yesterday"@.len() == 9);
            assert("last week"@.len() == 9);
            assert("last month"@.len() == 10);
            assert("next week"@.len() == 9);
            assert("next month"@.len() == 10);
            assert("yesterday"@[0] == 'y');
            assert("last week"@[0] == 'l');
            assert("next week"@[0] == 'n');
            assert("last month"@[0] == 'l');
            assert("next month"@[0] == 'n');
        }
        let owned = s.to_owned();
        if owned == "all".to_owned() || owned == "".to_owned() {
            Ok(DateTarget::All)
        } else if owned == "past".to_owned() {
            Ok(DateTarget::Past)
        } else if owned == "future".to_owned() {
            Ok(DateTarget::Future)
        } else if owned == "today".to_owned() {
            Ok(DateTarget::Today)
        } else if owned == "yesterday".to_owned() {
            Ok(DateTarget::Yesterday)
        } else if owned == "last week".to_owned() {
            Ok(DateTarget::LastWeek)
        } else if owned == "last month".to_owned() {
            Ok(DateTarget::LastMonth)
        } else if owned == "next week".to_owned() {
            Ok(DateTarget::NextWeek)
        } else if owned == "next month".to_owned() {
            Ok(DateTarget::NextMonth)
        } else {
            match parse_date(s) {
                Ok(d) => Ok(DateTarget::Specific(d)),
                Err(e) => Err(e),
            }
        }
    }

    /// The command-line spelling of a target.
    pub fn to_string(&self) -> (r: String)
        requires
            *self matches DateTarget::Specific(d) ==> d.valid(),
        ensures
            *self is All ==> r@ == "all"@,
            *self is Past ==> r@ == "past"@,
            *self is Future ==> r@ == "future"@,
            *self is Today ==> r@ == "today"@,
            *self is Yesterday ==> r@ == "yesterday"@,
            *self is LastWeek ==> r@ == "last week"@,
            *self is LastMonth ==> r@ == "last month"@,
            *self is NextWeek ==> r@ == "next week"@,
            *self is NextMonth ==> r@ == "next month"@,
            *self matches DateTarget::Specific(d) ==> r@ == date_str(d),
    {
        match self {
            DateTarget::All => "all".to_owned(),
            DateTarget::Past => "past".to_owned(),
            DateTarget::Future => "future".to_owned(),
            DateTarget::Today => "today".to_owned(),
            DateTarget::Yesterday => "yesterday".to_owned(),
            DateTarget::LastWeek => "last week".to_owned(),
            DateTarget::LastMonth => "last month".to_owned(),
            DateTarget::NextWeek => "next week".to_owned(),
            DateTarget::NextMonth => "next month".to_owned(),
            DateTarget::Specific(d) => d.to_string(),
        }
    }
}

/// What `parse_date` decides for this text.
pub open spec fn parse_date_outcome(s: Seq<char>) -> Result<Date, DateParseError> {
    match date_fields_of(s) {
        None => Err(DateParseError::InvalidCharacters),
        Some(f) => {
            let d = Date { year: f.0 as i32, month: f.1 as u32, day: f.2 as u32 };
            if d.valid() {
                Ok(d)
            } else {
                Err(DateParseError::OutOfRange)
            }
        }
    }
}

/// A date-target parse failure, wrapped with the argument parser's prefix.
#[derive(Debug, Clone, Copy, PartialEq, Eq, Structural)]
pub struct DateTargetError {
    pub kind: DateParseError,
}

impl DateTargetError {
    /// The failure in words, as the argument parser reports it.
    pub fn message(&self) -> (r: String)
        ensures
            self.kind is InvalidCharacters ==> r@ == "Invalid date target: "@
                + "input contains invalid characters"@,
            self.kind is OutOfRange ==> r@ == "Invalid date target: "@ + "input is out of range"@,
    {
        let mut m = "Invalid date target: ".to_owned();
        m.append(self.kind.message());
        m
    }
}

impl core::str::FromStr for DateTarget {
    type Err = DateTargetError;

    fn from_str(s: &str) -> Result<DateTarget, DateTargetError> {
        match DateTarget::parse(s) {
            Ok(t) => Ok(t),
            Err(kind) => Err(DateTargetError { kind }),
        }
    }
}

/// Where a new note's date comes from: today's date, or one given
/// explicitly.
#[derive(Debug, Clone, Copy, PartialEq, Eq, Structural)]
pub enum DateSource {
    Today,
    Specific(Date),
}

impl DateSource {
    /// The concrete date, seen from a given today.
    pub fn to_date(&self, today: Date) -> (r: Date)
        requires
            today.valid(),
            *self matches DateSource::Specific(d) ==> d.valid(),
        ensures
            *self is Today ==> r == today,
            *self matches DateSource::Specific(d) ==> r == d,
            r.valid(),
    {
        match self {
            DateSource::Today => today,
            DateSource::Specific(d) => *d,
        }
    }
}

/// Read a date source from its command-line spelling: the word `today`, or
/// a date.
pub fn parse_date_source(s: &str) -> (r: Result<DateSource, DateParseError>)
    ensures
        s@ == "today"@ ==> r == Ok::<DateSource, DateParseError>(DateSource::Today),
        r == Ok::<DateSource, DateParseError>(DateSource::Today) ==> s@ == "today"@,
        r matches Ok(t) ==> (t matches DateSource::Specific(d) ==> d.valid()
            && parse_date_outcome(s@) == Ok::<Date, DateParseError>(d)),
        r matches Err(e) ==> parse_date_outcome(s@) == Err::<Date, DateParseError>(e),
{
    proof {
        reveal_strlit("today");
    }
    let owned = s.to_owned();
    if owned == "today".to_owned() {
        Ok(DateSource::Today)
    } else {
        match parse_date(s) {
            Ok(d) => Ok(DateSource::Specific(d)),
            Err(e) => Err(e),
        }
    }
}

/// Read a search date target from its command-line spelling.
pub fn parse_date_target(s: &str) -> (r: Result<DateTarget, DateParseError>)
    ensures
        s@ == ""@ || s@ == "all"@ ==> r == Ok::<DateTarget, DateParseError>(DateTarget::All),
        s@ == "past"@ ==> r == Ok::<DateTarget, DateParseError>(DateTarget::Past),
        s@ == "future"@ ==> r == Ok::<DateTarget, DateParseError>(DateTarget::Future),
        s@ == "today"@ ==> r == Ok::<DateTarget, DateParseError>(DateTarget::Today),
        s@ == "yesterday"@ ==> r == Ok::<DateTarget, DateParseError>(DateTarget::Yesterday),
        s@ == "last week"@ ==> r == Ok::<DateTarget, DateParseError>(DateTarget::LastWeek),
        s@ == "last month"@ ==> r == Ok::<DateTarget, DateParseError>(DateTarget::LastMonth),
        s@ == "next week"@ ==> r == Ok::<DateTarget, DateParseError>(DateTarget::NextWeek),
        s@ == "next month"@ ==> r == Ok::<DateTarget, DateParseError>(DateTarget::NextMonth),
        r == Ok::<DateTarget, DateParseError>(DateTarget::All) ==> s@ == ""@ || s@ == "all"@,
        r == Ok::<DateTarget, DateParseError>(DateTarget::Past) ==> s@ == "past"@,
        r == Ok::<DateTarget, DateParseError>(DateTarget::Future) ==> s@ == "future"@,
        r == Ok::<DateTarget, DateParseError>(DateTarget::Today) ==> s@ == "today"@,
        r == Ok::<DateTarget, DateParseError>(DateTarget::Yesterday) ==> s@ == "yesterday"@,
        r == Ok::<DateTarget, DateParseError>(DateTarget::LastWeek) ==> s@ == "last week"@,
        r == Ok::<DateTarget, DateParseError>(DateTarget::LastMonth) ==> s@ == "last month"@,
        r == Ok::<DateTarget, DateParseError>(DateTarget::NextWeek) ==> s@ == "next week"@,
        r == Ok::<DateTarget, DateParseError>(DateTarget::NextMonth) ==> s@ == "next month"@,
        r matches Ok(t) ==> (t matches DateTarget::Specific(d) ==> d.valid()
            && parse_date_outcome(s@) == Ok::<Date, DateParseError>(d)),
        r matches Err(e) ==> parse_date_outcome(s@) == Err::<Date, DateParseError>(e),
{
    DateTarget::parse(s)
}

/// Today's local calendar date, validated; an out-of-range reading from the
/// platform clock falls back to the epoch's first day.
pub fn today() -> (r: Date)
    ensures
        r.valid(),
{
    let (y, m, d) = crate::clock::today_ymd();
    if 0 <= y && y <= 9999 && d <= days_in_month_exec(y, m) {
        Date { year: y, month: m, day: d }
    } else {
        Date { year: 1970, month: 1, day: 1 }
    }
}

} // verus!
