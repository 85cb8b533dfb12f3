//! Lists of recorded files.
use vstd::prelude::*;
use vstd::string::*;
use chrono::TimeZone;
use crate::bytes::views;
use crate::http::files::{extension, extension_of};
use crate::mp4::vod::{join_path, joined};
use crate::text::{
    begins_with, char_slice, chars_eq, chars_of, copy_text, cut_at, digit, digits_value,
    finishes_with, is_digit, keep_digits, lemma_first_is, only_digits, remove_char, split_once,
    text_eq, trim_back_text, trim_end_text, without_char,
};

verus! {

// ── time ────────────────────────────────────────────────────────────────

/// Whether a year of the Gregorian calendar has a leap day.
pub open spec fn is_leap(year: int) -> bool {
    year % 4 == 0 && (year % 100 != 0 || year % 400 == 0)
}

/// The days of a month.
pub open spec fn month_days(year: int, month: int) -> int {
    if month == 2 {
        if is_leap(year) {
            29
        } else {
            28
        }
    } else if month == 4 || month == 6 || month == 9 || month == 11 {
        30
    } else {
        31
    }
}

/// The days of a year that precede a month.
pub open spec fn days_before_month(year: int, month: int) -> int
    decreases month,
{
    if month <= 1 {
        0
    } else {
        days_before_month(year, month - 1) + month_days(year, month - 1)
    }
}

/// The days from the first day of the year 0 to that of the given year.
pub open spec fn days_before_year(year: int) -> int {
    365 * year + (year + 3) / 4 - (year + 99) / 100 + (year + 399) / 400
}

/// The milliseconds from the start of 1970 to a time in UTC; nothing when
/// there is no such time.
pub open spec fn utc_millis(
    year: int,
    month: int,
    day: int,
    hour: int,
    minute: int,
    second: int,
) -> Option<int> {
    if 1 <= month <= 12 && 1 <= day <= month_days(year, month) && 0 <= hour < 24 && 0 <= minute < 60
        && 0 <= second < 60 {
        let days = days_before_year(year) - days_before_year(1970) + days_before_month(year, month)
            + day - 1;
        Some((((days * 24 + hour) * 60 + minute) * 60 + second) * 1000)
    } else {
        None
    }
}

/// `TimeZone::with_ymd_and_hms` of chrono for UTC, and `timestamp_millis` of
/// the time it gives: the time in the Gregorian calendar, when there is one,
/// in milliseconds from the start of 1970.
#[verifier::external_body]
fn time_millis(year: i32, month: u32, day: u32, hour: u32, minute: u32, second: u32) -> (r: Option<
    i64,
>)
    requires
        0 <= year <= 9999,
    ensures
        match (
            r,
            utc_millis(
                year as int,
                month as int,
                day as int,
                hour as int,
                minute as int,
                second as int,
            ),
        ) {
            (Some(a), Some(b)) => a == b,
            (None, None) => true,
            _ => false,
        },
{
    chrono::Utc
        .with_ymd_and_hms(year, month, day, hour, minute, second)
        .single()
        .map(|t| t.timestamp_millis())
}

/// The number that two digits of a text make.
pub open spec fn two_digits(s: Seq<char>, i: int) -> int {
    digits_value(s.subrange(i, i + 2)).unwrap()
}

/// The time that digits of a date and a time of day give, in milliseconds from
/// the start of 1970; 0 when they give none. The seconds, or the whole time of
/// day, may be absent.
pub open spec fn digits_time(date: Seq<char>, time: Seq<char>) -> int {
    if date.len() < 8 || (time.len() < 4 && time.len() > 0) {
        0
    } else {
        let hour = if time.len() == 0 {
            0
        } else {
            two_digits(time, 0)
        };
        let minute = if time.len() == 0 {
            0
        } else {
            two_digits(time, 2)
        };
        let second = if time.len() < 6 {
            0
        } else {
            two_digits(time, 4)
        };
        match utc_millis(
            two_digits(date, 0) * 100 + two_digits(date, 2),
            two_digits(date, 4),
            two_digits(date, 6),
            hour,
            minute,
            second,
        ) {
            Some(t) => t,
            None => 0,
        }
    }
}

/// When a recording named `YYYYMMDD_HHMMSS.mp4` starts, in milliseconds from
/// the start of 1970; 0 when the name does not say. Only the digits of the
/// name count.
pub open spec fn record_start(name: Seq<char>) -> int {
    let stem = trim_back_text(name, ".mp4"@);
    match cut_at(stem, '_') {
        Some((date, time)) => digits_time(only_digits(date), only_digits(time)),
        None => digits_time(only_digits(stem), Seq::empty()),
    }
}

proof fn lemma_only_digits(s: Seq<char>, i: int)
    requires
        0 <= i < only_digits(s).len(),
    ensures
        is_digit(only_digits(s)[i]),
    decreases s.len(),
{
    if is_digit(s.last()) {
        if i < only_digits(s).len() - 1 {
            lemma_only_digits(s.drop_last(), i);
        }
    } else {
        lemma_only_digits(s.drop_last(), i);
    }
}

fn read_two(s: &[char], i: usize) -> (r: u32)
    requires
        i + 2 <= s@.len(),
        forall|k: int| 0 <= k < s@.len() ==> is_digit(#[trigger] s@[k]),
    ensures
        r == two_digits(s@, i as int),
        r < 100,
{
    let a: u32 = s[i] as u32 - 0x30;
    let b: u32 = s[i + 1] as u32 - 0x30;
    proof {
        let two = s@.subrange(i as int, i + 2);
        assert(two.last() == s@[i + 1]);
        assert(two.drop_last() =~= seq![s@[i as int]]);
        assert(digits_value(two.drop_last()) == Some(a as int));
        assert(is_digit(s@[i as int]) && is_digit(s@[i + 1]));
    }
    a * 10 + b
}

/// When digits of a date and a time of day are, in milliseconds from the start
/// of 1970; 0 when they give no time.
fn time_of_digits(date: &[char], time: &[char]) -> (r: i64)
    requires
        forall|k: int| 0 <= k < date@.len() ==> is_digit(#[trigger] date@[k]),
        forall|k: int| 0 <= k < time@.len() ==> is_digit(#[trigger] time@[k]),
    ensures
        r == digits_time(date@, time@),
{
    if date.len() < 8 || (time.len() < 4 && time.len() > 0) {
        return 0;
    }
    let year: i32 = (read_two(date, 0) * 100 + read_two(date, 2)) as i32;
    let month: u32 = read_two(date, 4);
    let day: u32 = read_two(date, 6);
    let hour: u32 = if time.len() == 0 {
        0
    } else {
        read_two(time, 0)
    };
    let minute: u32 = if time.len() == 0 {
        0
    } else {
        read_two(time, 2)
    };
    let second: u32 = if time.len() < 6 {
        0
    } else {
        read_two(time, 4)
    };
    match time_millis(year, month, day, hour, minute, second) {
        Some(t) => t,
        None => 0,
    }
}

/// When a recording starts, by its name.
pub fn parse_record_start(name: &str) -> (r: i64)
    ensures
        r == record_start(name@),
{
    let chars = chars_of(name);
    let stem = trim_end_text(chars.as_slice(), ".mp4");
    proof {
        assert forall|s: Seq<char>, i: int| 0 <= i < only_digits(s).len() implies is_digit(
            #[trigger] only_digits(s)[i],
        ) by {
            lemma_only_digits(s, i);
        }
    }
    match split_once(stem, '_') {
        Some((date, time)) => {
            let d = keep_digits(date);
            let t = keep_digits(time);
            time_of_digits(d.as_slice(), t.as_slice())
        },
        None => {
            let d = keep_digits(stem);
            let t: Vec<char> = Vec::new();
            assert(t@ =~= Seq::<char>::empty());
            time_of_digits(d.as_slice(), t.as_slice())
        },
    }
}

// ── names ───────────────────────────────────────────────────────────────

/// Two digits of a number below a hundred.
pub open spec fn two_text(n: int) -> Seq<char> {
    seq![digit(n / 10), digit(n % 10)]
}

/// The digits of a date.
pub open spec fn date_text(year: int, month: int, day: int) -> Seq<char> {
    two_text(year / 100) + two_text(year % 100) + two_text(month) + two_text(day)
}

/// The digits of a time of day.
pub open spec fn clock_text(hour: int, minute: int, second: int) -> Seq<char> {
    two_text(hour) + two_text(minute) + two_text(second)
}

/// The digits of a date and a time of day.
pub open spec fn time_text(
    year: int,
    month: int,
    day: int,
    hour: int,
    minute: int,
    second: int,
) -> Seq<char> {
    date_text(year, month, day).push('_') + clock_text(hour, minute, second)
}

/// Whether a time lies in the years 0 to 9999, in seconds from the start of
/// 1970.
pub open spec fn in_four_digit_years(seconds: int) -> bool {
    -62167219200 <= seconds <= 253402300799
}

/// `DateTime::from_timestamp` and `DateTime::format` of chrono, with the
/// pattern `%Y%m%d_%H%M%S`: the digits of the date and the time of day in UTC.
#[verifier::external_body]
fn format_time(seconds: i64) -> (r: String)
    requires
        in_four_digit_years(seconds as int),
    ensures
        forall|year: int, month: int, day: int, hour: int, minute: int, second: int|
            0 <= year <= 9999 && #[trigger] utc_millis(year, month, day, hour, minute, second)
                == Some(seconds * 1000) ==> r@ == time_text(
                year,
                month,
                day,
                hour,
                minute,
                second,
            ),
{
    chrono::DateTime::from_timestamp(seconds, 0)
        .map(|t| t.format("%Y%m%d_%H%M%S").to_string())
        .unwrap_or_default()
}

/// The name of a recording that starts at the given time.
pub open spec fn record_name(
    year: int,
    month: int,
    day: int,
    hour: int,
    minute: int,
    second: int,
) -> Seq<char> {
    time_text(year, month, day, hour, minute, second) + ".mp4"@
}

/// The name of a recording that starts at the given time, in seconds from the
/// start of 1970.
pub fn record_file_name(seconds: i64) -> (r: String)
    requires
        in_four_digit_years(seconds as int),
    ensures
        forall|year: int, month: int, day: int, hour: int, minute: int, second: int|
            0 <= year <= 9999 && #[trigger] utc_millis(year, month, day, hour, minute, second)
                == Some(seconds * 1000) ==> r@ == record_name(
                year,
                month,
                day,
                hour,
                minute,
                second,
            ),
{
    let mut out = format_time(seconds);
    out.append(".mp4");
    out
}

pub proof fn lemma_two(n: int)
    requires
        0 <= n < 100,
    ensures
        two_text(n).len() == 2,
        is_digit(two_text(n)[0]),
        is_digit(two_text(n)[1]),
        digits_value(two_text(n)) == Some(n),
{
    let t = two_text(n);
    assert(t.drop_last() =~= seq![t[0]]);
    assert(digits_value(t.drop_last()) == Some(n / 10));
}

proof fn lemma_all_digits(s: Seq<char>)
    requires
        forall|i: int| 0 <= i < s.len() ==> is_digit(#[trigger] s[i]),
    ensures
        only_digits(s) == s,
    decreases s.len(),
{
    if s.len() > 0 {
        assert(is_digit(s[s.len() - 1]));
        assert forall|i: int| 0 <= i < s.len() - 1 implies is_digit(
            #[trigger] s.drop_last()[i],
        ) by {
            assert(is_digit(s[i]));
        }
        lemma_all_digits(s.drop_last());
        assert(s.drop_last().push(s.last()) =~= s);
    } else {
        assert(s =~= Seq::empty());
    }
}

pub proof fn lemma_date(year: int, month: int, day: int)
    requires
        0 <= year <= 9999,
        1 <= month <= 12,
        1 <= day <= 31,
    ensures
        ({
            let d = date_text(year, month, day);
            &&& d.len() == 8
            &&& forall|i: int| 0 <= i < 8 ==> is_digit(#[trigger] d[i])
            &&& two_digits(d, 0) * 100 + two_digits(d, 2) == year
            &&& two_digits(d, 4) == month
            &&& two_digits(d, 6) == day
        }),
{
    lemma_two(year / 100);
    lemma_two(year % 100);
    lemma_two(month);
    lemma_two(day);
    let d = date_text(year, month, day);
    assert(d.subrange(0, 2) =~= two_text(year / 100));
    assert(d.subrange(2, 4) =~= two_text(year % 100));
    assert(d.subrange(4, 6) =~= two_text(month));
    assert(d.subrange(6, 8) =~= two_text(day));
}

proof fn lemma_clock(hour: int, minute: int, second: int)
    requires
        0 <= hour < 24,
        0 <= minute < 60,
        0 <= second < 60,
    ensures
        ({
            let t = clock_text(hour, minute, second);
            &&& t.len() == 6
            &&& forall|i: int| 0 <= i < 6 ==> is_digit(#[trigger] t[i])
            &&& two_digits(t, 0) == hour
            &&& two_digits(t, 2) == minute
            &&& two_digits(t, 4) == second
        }),
{
    lemma_two(hour);
    lemma_two(minute);
    lemma_two(second);
    let t = clock_text(hour, minute, second);
    assert(t.subrange(0, 2) =~= two_text(hour));
    assert(t.subrange(2, 4) =~= two_text(minute));
    assert(t.subrange(4, 6) =~= two_text(second));
}

/// When a recording started is read back from its name.
pub proof fn law_record_name_gives_start(
    year: int,
    month: int,
    day: int,
    hour: int,
    minute: int,
    second: int,
)
    requires
        0 <= year <= 9999,
        utc_millis(year, month, day, hour, minute, second) is Some,
    ensures
        Some(record_start(record_name(year, month, day, hour, minute, second))) == utc_millis(
            year,
            month,
            day,
            hour,
            minute,
            second,
        ),
{
    lemma_date(year, month, day);
    lemma_clock(hour, minute, second);
    let date = date_text(year, month, day);
    let clock = clock_text(hour, minute, second);
    let stem = time_text(year, month, day, hour, minute, second);
    let name = record_name(year, month, day, hour, minute, second);
    reveal_strlit(".mp4");
    let suffix = ".mp4"@;
    assert(name.skip(name.len() - 4) =~= suffix);
    assert(name.take(name.len() - 4) =~= stem);
    assert(!finishes_with(stem, suffix)) by {
        assert(stem[13] == clock[4]);
        assert(stem.skip(stem.len() - 4)[2] == stem[13]);
        assert(suffix[2] == 'p');
    }
    assert(trim_back_text(stem, suffix) == stem);
    assert(trim_back_text(name, suffix) == stem);
    lemma_first_is(stem, '_', 0, 8);
    assert(stem.take(8) =~= date);
    assert(stem.skip(9) =~= clock);
    lemma_all_digits(date);
    lemma_all_digits(clock);
}

// ── lists ───────────────────────────────────────────────────────────────

/// A recorded file.
pub struct RecordFile {
    pub file_name: String,
    pub file_path: String,
    pub file_size: u64,
    pub start_time: i64,
    pub url: String,
}

/// The model of a recorded file.
#[verifier::ext_equal]
pub struct RecordModel {
    pub file_name: Seq<char>,
    pub file_path: Seq<char>,
    pub file_size: int,
    pub start_time: int,
    pub url: Seq<char>,
}

impl View for RecordFile {
    type V = RecordModel;

    open spec fn view(&self) -> RecordModel {
        RecordModel {
            file_name: self.file_name@,
            file_path: self.file_path@,
            file_size: self.file_size as int,
            start_time: self.start_time as int,
            url: self.url@,
        }
    }
}

/// Whether a file of a directory is a recording of the period: an MP4 file
/// whose name begins with the period, which may be written with hyphens.
pub open spec fn in_period(name: Seq<char>, period: Seq<char>) -> bool {
    extension_of(name) == Some("mp4"@) && begins_with(name, without_char(period, '-'))
}

/// A recorded file by its name and size.
pub open spec fn record_of(
    base: Seq<char>,
    app: Seq<char>,
    stream: Seq<char>,
    name: Seq<char>,
    size: int,
) -> RecordModel {
    RecordModel {
        file_name: name,
        file_path: joined(base, name),
        file_size: size,
        start_time: record_start(name),
        url: "/record/"@ + app + "/"@ + stream + "/"@ + name,
    }
}

/// The recordings of a period among the first `n` files of a directory.
pub open spec fn records_among(
    base: Seq<char>,
    period: Seq<char>,
    app: Seq<char>,
    stream: Seq<char>,
    entries: Seq<(String, u64)>,
    n: int,
) -> Seq<RecordModel>
    decreases n,
{
    if n <= 0 {
        Seq::empty()
    } else {
        let before = records_among(base, period, app, stream, entries, n - 1);
        let (name, size) = entries[n - 1];
        if in_period(name@, period) {
            before.push(record_of(base, app, stream, name@, size as int))
        } else {
            before
        }
    }
}

fn wanted(name: &str, period: &[char]) -> (r: bool)
    ensures
        r == (extension_of(name@) == Some("mp4"@) && begins_with(name@, period@)),
{
    let is_mp4: bool = match extension(name) {
        Some(e) => text_eq(e.as_str(), "mp4"),
        None => false,
    };
    if !is_mp4 {
        return false;
    }
    let chars = chars_of(name);
    if period.len() > chars.len() {
        return false;
    }
    let head = char_slice(chars.as_slice(), 0, period.len());
    assert(head@ =~= name@.take(period@.len() as int));
    chars_eq(head, period)
}

/// The recordings of a period in the directory `base`, given its files with
/// their sizes.
pub fn list_record_files(
    base: &str,
    period: &str,
    app: &str,
    stream: &str,
    entries: &Vec<(String, u64)>,
) -> (r: Vec<RecordFile>)
    ensures
        views(r@) == records_among(
            base@,
            period@,
            app@,
            stream@,
            entries@,
            entries@.len() as int,
        ),
{
    let given = chars_of(period);
    let digits = remove_char(given.as_slice(), '-');
    let mut out: Vec<RecordFile> = Vec::new();
    let mut i: usize = 0;
    assert(views(out@) =~= Seq::empty());
    while i < entries.len()
        invariant
            i <= entries@.len(),
            digits@ == without_char(period@, '-'),
            views(out@) == records_among(base@, period@, app@, stream@, entries@, i as int),
        decreases entries@.len() - i,
    {
        let name = entries[i].0.as_str();
        if wanted(name, digits.as_slice()) {
            let ghost before = views(out@);
            let mut url = copy_text("/record/");
            url.append(app);
            url.append("/");
            url.append(stream);
            url.append("/");
            url.append(name);
            let nc = chars_of(name);
            let file = RecordFile {
                file_name: copy_text(name),
                file_path: join_path(base, nc.as_slice()),
                file_size: entries[i].1,
                start_time: parse_record_start(name),
                url,
            };
            proof {
                assert(file@ == record_of(base@, app@, stream@, name@, file.file_size as int));
            }
            out.push(file);
            assert(views(out@) =~= before.push(out@.last()@));
        }
        i = i + 1;
    }
    out
}

} // verus!
