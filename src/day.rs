//! Calendar days: the key by which entries are grouped and ordered.
use vstd::prelude::*;
use crate::text::{digit_char, lemma_text_le_total, text_le};

verus! {

/// A calendar date of the proleptic Gregorian calendar, with no time of day.
#[derive(Clone, Copy, Debug, PartialEq, Eq, Structural)]
pub struct Day {
    pub year: i32,
    pub month: u32,
    pub day: u32,
}

/// Smallest year that a calendar date can carry.
pub const MIN_YEAR: i32 = -262143;

/// Largest year that a calendar date can carry.
pub const MAX_YEAR: i32 = 262142;

/// Whether a year of the proleptic Gregorian calendar has a 29th of February.
pub open spec fn is_leap_year(year: int) -> bool {
    (year % 4 == 0 && year % 100 != 0) || year % 400 == 0
}

/// How many days a month has in a given year.
pub open spec fn days_in_month(year: int, month: int) -> int {
    if month == 2 {
        if is_leap_year(year) { 29 } else { 28 }
    } else if month == 4 || month == 6 || month == 9 || month == 11 {
        30
    } else {
        31
    }
}

impl Day {
    /// The date exists in the calendar and lies in the supported range of years.
    pub open spec fn is_valid(self) -> bool {
        &&& MIN_YEAR <= self.year <= MAX_YEAR
        &&& 1 <= self.month <= 12
        &&& 1 <= self.day <= days_in_month(self.year as int, self.month as int)
    }

    /// Strict chronological order: `self` comes before `other`.
    pub open spec fn before(self, other: Day) -> bool {
        ||| self.year < other.year
        ||| (self.year == other.year && self.month < other.month)
        ||| (self.year == other.year && self.month == other.month && self.day < other.day)
    }

    /// Whether this day comes strictly before `other`.
    pub fn is_before(&self, other: &Day) -> (r: bool)
        ensures
            r == self.before(*other),
    {
        if self.year != other.year {
            self.year < other.year
        } else if self.month != other.month {
            self.month < other.month
        } else {
            self.day < other.day
        }
    }
}

/// The ISO 8601 text of a date (`YYYY-MM-DD`), as chrono formats it.
pub uninterp spec fn iso_date_text(year: int, month: int, day: int) -> Seq<char>;

/// The last `width` decimal digits of `n`, zero-padded.
pub open spec fn fixed_digits(n: int, width: nat) -> Seq<char>
    decreases width,
{
    if width == 0 {
        Seq::empty()
    } else {
        fixed_digits(n / 10, (width - 1) as nat) + seq![digit_char(n % 10)]
    }
}

/// `YYYY-MM-DD` with each field zero-padded: how a date whose year has at
/// most four digits is written.
pub open spec fn four_digit_date_text(year: int, month: int, day: int) -> Seq<char> {
    fixed_digits(year, 4) + seq!['-'] + fixed_digits(month, 2) + seq!['-'] + fixed_digits(day, 2)
}

/// The text under which a day is shown in the report: its ISO 8601 text,
/// which for a four-digit year is plain `YYYY-MM-DD`.
pub open spec fn day_label(d: Day) -> Seq<char> {
    if has_four_digit_year(d) {
        four_digit_date_text(d.year as int, d.month as int, d.day as int)
    } else {
        iso_date_text(d.year as int, d.month as int, d.day as int)
    }
}

/// The day's year is written with four digits and no sign.
pub open spec fn has_four_digit_year(d: Day) -> bool {
    0 <= d.year <= 9999
}

/// Relies on chrono's `NaiveDate::from_ymd_opt`, which gives a date for every
/// valid calendar day in its range of years, and on its `format("%Y-%m-%d")`,
/// whose text depends on the date alone: a year from 0 to 9999 as four
/// zero-padded digits (other years get a sign), month and day as two.
#[verifier::external_body]
pub(crate) fn format_day(d: &Day) -> (r: String)
    requires
        d.is_valid(),
    ensures
        r@ == iso_date_text(d.year as int, d.month as int, d.day as int),
        0 <= d.year <= 9999 ==> r@ == four_digit_date_text(d.year as int, d.month as int, d.day as int),
        r@ == day_label(*d),
{
    chrono::NaiveDate::from_ymd_opt(d.year, d.month, d.day).unwrap().format("%Y-%m-%d").to_string()
}

/// The local calendar date (year, month, day) of an RFC 3339 timestamp, as
/// chrono reads it, or nothing when the text is not such a timestamp.
pub uninterp spec fn rfc3339_date(s: Seq<char>) -> Option<(i32, u32, u32)>;

/// Relies on chrono's `DateTime::parse_from_rfc3339`, whose result depends on
/// the text alone, and on `date_naive` with the `Datelike` getters, which give
/// the date in the timestamp's own offset. A chrono date is always a valid
/// calendar date in its range of years; RFC 3339 years have four digits, so
/// shifting by the offset stays in that range.
#[verifier::external_body]
fn parse_timestamp_date(s: &str) -> (r: Option<(i32, u32, u32)>)
    ensures
        r == rfc3339_date(s@),
        r matches Some(t) ==> (Day { year: t.0, month: t.1, day: t.2 }).is_valid(),
{
    match chrono::DateTime::parse_from_rfc3339(s) {
        Ok(t) => {
            let d = t.date_naive();
            Some((chrono::Datelike::year(&d), chrono::Datelike::month(&d), chrono::Datelike::day(&d)))
        },
        Err(_) => None,
    }
}

/// The calendar day on which an RFC 3339 timestamp falls, in its own offset;
/// nothing when the text is not such a timestamp.
pub fn day_of_timestamp(s: &str) -> (r: Option<Day>)
    ensures
        rfc3339_date(s@) is None ==> r is None,
        rfc3339_date(s@) matches Some(t) ==> r == Some(Day { year: t.0, month: t.1, day: t.2 }),
        r matches Some(d) ==> d.is_valid(),
{
    match parse_timestamp_date(s) {
        Some(t) => Some(Day { year: t.0, month: t.1, day: t.2 }),
        None => None,
    }
}

/// The code point of a decimal digit's character.
proof fn lemma_digit_code(k: int)
    requires
        0 <= k <= 9,
    ensures
        digit_char(k) as u32 == 48 + k,
{
}

/// Behind equal prefixes, texts compare as what follows.
proof fn lemma_below_after_equal(p: Seq<char>, u: Seq<char>, v: Seq<char>)
    requires
        !text_le(v, u),
    ensures
        !text_le(p + v, p + u),
    decreases p.len(),
{
    if p.len() == 0 {
        assert(p + v =~= v);
        assert(p + u =~= u);
    } else {
        assert((p + v).drop_first() =~= p.drop_first() + v);
        assert((p + u).drop_first() =~= p.drop_first() + u);
        lemma_below_after_equal(p.drop_first(), u, v);
    }
}

/// Of two texts of one length, the one strictly below stays below whatever
/// follows each.
proof fn lemma_below_extends(a: Seq<char>, b: Seq<char>, s: Seq<char>, t: Seq<char>)
    requires
        a.len() == b.len(),
        !text_le(b, a),
    ensures
        !text_le(b + t, a + s),
    decreases a.len(),
{
    if (a[0] as u32) == (b[0] as u32) {
        assert((a + s).drop_first() =~= a.drop_first() + s);
        assert((b + t).drop_first() =~= b.drop_first() + t);
        lemma_below_extends(a.drop_first(), b.drop_first(), s, t);
    }
}

/// Ten to the power `w`.
pub open spec fn pow10(w: nat) -> int
    decreases w,
{
    if w == 0 { 1 } else { 10 * pow10((w - 1) as nat) }
}

/// Zero-padded digit texts of one width are ordered as the numbers.
proof fn lemma_fixed_digits_order(x: int, y: int, w: nat)
    requires
        0 <= x < y < pow10(w),
    ensures
        !text_le(fixed_digits(y, w), fixed_digits(x, w)),
    decreases w,
{
    let px = fixed_digits(x / 10, (w - 1) as nat);
    let py = fixed_digits(y / 10, (w - 1) as nat);
    lemma_digit_code(x % 10);
    lemma_digit_code(y % 10);
    if x / 10 < y / 10 {
        lemma_fixed_digits_order(x / 10, y / 10, (w - 1) as nat);
        lemma_fixed_digits_len(x / 10, (w - 1) as nat);
        lemma_fixed_digits_len(y / 10, (w - 1) as nat);
        lemma_below_extends(px, py, seq![digit_char(x % 10)], seq![digit_char(y % 10)]);
    } else {
        assert(x % 10 < y % 10);
        assert(!text_le(seq![digit_char(y % 10)], seq![digit_char(x % 10)]));
        lemma_below_after_equal(px, seq![digit_char(x % 10)], seq![digit_char(y % 10)]);
    }
}

/// A zero-padded digit text has its width.
proof fn lemma_fixed_digits_len(n: int, w: nat)
    ensures
        fixed_digits(n, w).len() == w,
    decreases w,
{
    if w > 0 {
        lemma_fixed_digits_len(n / 10, (w - 1) as nat);
    }
}

/// For valid days with four-digit years, the order of their labels is the
/// chronological order: a day before another has a label strictly below it.
pub proof fn lemma_label_order(a: Day, b: Day)
    requires
        a.is_valid(),
        b.is_valid(),
        has_four_digit_year(a),
        has_four_digit_year(b),
        a.before(b),
    ensures
        text_le(four_digit_date_text(a.year as int, a.month as int, a.day as int),
            four_digit_date_text(b.year as int, b.month as int, b.day as int)),
        !text_le(four_digit_date_text(b.year as int, b.month as int, b.day as int),
            four_digit_date_text(a.year as int, a.month as int, a.day as int)),
{
    let ya = fixed_digits(a.year as int, 4);
    let yb = fixed_digits(b.year as int, 4);
    let ma = fixed_digits(a.month as int, 2);
    let mb = fixed_digits(b.month as int, 2);
    let da = fixed_digits(a.day as int, 2);
    let db = fixed_digits(b.day as int, 2);
    let la = four_digit_date_text(a.year as int, a.month as int, a.day as int);
    let lb = four_digit_date_text(b.year as int, b.month as int, b.day as int);
    let dash = seq!['-'];
    lemma_fixed_digits_len(a.year as int, 4);
    lemma_fixed_digits_len(b.year as int, 4);
    lemma_fixed_digits_len(a.month as int, 2);
    lemma_fixed_digits_len(b.month as int, 2);
    assert(pow10(4) == 10000) by {
        reveal_with_fuel(pow10, 5);
    }
    assert(pow10(2) == 100) by {
        reveal_with_fuel(pow10, 3);
    }
    if a.year < b.year {
        lemma_fixed_digits_order(a.year as int, b.year as int, 4);
        assert(la =~= ya + (dash + ma + dash + da));
        assert(lb =~= yb + (dash + mb + dash + db));
        lemma_below_extends(ya, yb, dash + ma + dash + da, dash + mb + dash + db);
    } else if a.month < b.month {
        lemma_fixed_digits_order(a.month as int, b.month as int, 2);
        lemma_below_extends(ma, mb, dash + da, dash + db);
        assert(la =~= (ya + dash) + (ma + (dash + da)));
        assert(lb =~= (ya + dash) + (mb + (dash + db)));
        lemma_below_after_equal(ya + dash, ma + (dash + da), mb + (dash + db));
    } else {
        lemma_fixed_digits_order(a.day as int, b.day as int, 2);
        assert(la =~= (ya + dash + ma + dash) + da);
        assert(lb =~= (ya + dash + ma + dash) + db);
        lemma_below_after_equal(ya + dash + ma + dash, da, db);
    }
    lemma_text_le_total(la, lb);
}

} // verus!
