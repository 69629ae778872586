//! The rotating file log's rules: the pruning policy and how it is packed,
//! local-clock stamps, the file-name scheme, the fixed-size first line that
//! states a file's span and how it ended, the entry timestamps it is
//! repaired from, and the rotation and pruning decisions.
//!
//! A file is cut at `MAX_FILE_BYTES` and at midnight; its header lives in
//! `HEADER_BYTES` reserved bytes, so closing a file only overwrites them.

use vstd::prelude::*;
use vstd::string::StringSliceAdditionalSpecFns;

use crate::text::{
    chars_of, contains_seq, dec_digits, dec_value, is_ascii_digit, occurs_at, push_char,
    push_decimal, push_padded, str_contains, str_less, str_lt, zero_pad,
};

verus! {

/// A log file is cut before it grows past this (10 MiB).
pub const MAX_FILE_BYTES: u64 = 10485760;

/// Default for "keep the newest N files".
pub const DEFAULT_MAX_FILES: u32 = 5;

/// Default for "keep the folder under N MB".
pub const DEFAULT_MAX_MB: u32 = 50;

/// A size limit below one full file would delete everything but the
/// current file.
pub const MIN_MAX_MB: u32 = 10;

/// Bytes reserved for the first line, newline included.
pub const HEADER_BYTES: usize = 256;

/// How far back from the end a cut-short file is searched for its last
/// entry.
pub const TAIL_BYTES: u64 = 65536;

/// Header mark of a file still being written.
pub const MARK_WRITING: &'static str = "ещё пишется";

/// Header mark of a file closed properly.
pub const MARK_CLOSED: &'static str = "закрыт";

/// Header mark of a file a crash or power-off cut short.
pub const MARK_CUT_SHORT: &'static str = "оборван (Nodus не успел закрыть лог: сбой или выключение компьютера)";

// ── Pruning policy ──────────────────────────────────────────────────────────

/// How old log files are pruned.
#[derive(Debug, Clone, Copy, PartialEq, Eq, Structural)]
pub enum Retention {
    /// Keep the newest N files, the one being written included.
    Files(u32),
    /// Keep the whole folder under N megabytes.
    Megabytes(u32),
}

/// The policy packed into one word, mode above value (0 = files,
/// 1 = megabytes), so a reader never sees the mode of one update with the
/// value of another.
pub open spec fn spec_pack(r: Retention) -> u64 {
    match r {
        Retention::Files(n) => n as u64,
        Retention::Megabytes(mb) => (0x1_0000_0000 + mb) as u64,
    }
}

/// The policy a packed word holds: mode 1 is megabytes, any other mode
/// files; the value is the low 32 bits.
pub open spec fn spec_unpack(p: u64) -> Retention {
    if p / 0x1_0000_0000 == 1 {
        Retention::Megabytes((p % 0x1_0000_0000) as u32)
    } else {
        Retention::Files((p % 0x1_0000_0000) as u32)
    }
}

/// Pack a policy.
pub fn pack_retention(r: Retention) -> (p: u64)
    ensures
        p == spec_pack(r),
{
    match r {
        Retention::Files(n) => n as u64,
        Retention::Megabytes(mb) => 0x1_0000_0000u64 + mb as u64,
    }
}

/// Unpack a policy.
pub fn unpack_retention(p: u64) -> (r: Retention)
    ensures
        r == spec_unpack(p),
{
    let value = (p % 0x1_0000_0000) as u32;
    if p / 0x1_0000_0000 == 1 {
        Retention::Megabytes(value)
    } else {
        Retention::Files(value)
    }
}

/// Unpacking a packed policy gives the policy back.
pub proof fn lemma_retention_roundtrip(r: Retention)
    ensures
        spec_unpack(spec_pack(r)) == r,
{
}

/// The current pruning policy, packed.
pub struct RetentionSetting {
    packed: u64,
}

impl RetentionSetting {
    /// The policy held.
    pub closed spec fn policy(&self) -> Retention {
        spec_unpack(self.packed)
    }

    /// The default: keep the newest `DEFAULT_MAX_FILES` files.
    pub fn new() -> (s: Self)
        ensures
            s.policy() == Retention::Files(DEFAULT_MAX_FILES),
    {
        RetentionSetting { packed: DEFAULT_MAX_FILES as u64 }
    }
}

/// Set the pruning policy (the caller then prunes right away).
pub fn set_retention(setting: &mut RetentionSetting, retention: Retention)
    ensures
        final(setting).policy() == retention,
{
    setting.packed = pack_retention(retention);
}

/// The pruning policy last set.
pub fn current_retention(setting: &RetentionSetting) -> (r: Retention)
    ensures
        r == setting.policy(),
{
    unpack_retention(setting.packed)
}

/// What a policy limits: a file count, or a byte total (megabytes, at least
/// `MIN_MAX_MB`).
pub fn retention_limits(r: Retention) -> (l: (Option<u64>, Option<u64>))
    ensures
        l == match r {
            Retention::Files(k) => (Some(k as u64), None),
            Retention::Megabytes(mb) => (
                None,
                Some(
                    ((if mb < MIN_MAX_MB {
                        MIN_MAX_MB
                    } else {
                        mb
                    }) * 1048576) as u64,
                ),
            ),
        },
{
    match r {
        Retention::Files(k) => (Some(k as u64), None),
        Retention::Megabytes(mb) => {
            let m: u32 = if mb < MIN_MAX_MB {
                MIN_MAX_MB
            } else {
                mb
            };
            (None, Some(m as u64 * 1048576))
        },
    }
}

/// How many of the oldest other files a count limit deletes: all beyond
/// `k - 1`, the current file taking one slot (and a limit of 0 counting as
/// 1).
pub fn excess_by_count(others: u64, k: u64) -> (n: u64)
    ensures
        n == (if others > (if k < 1 { 1 } else { k }) - 1 {
            others - ((if k < 1 { 1 } else { k }) - 1)
        } else {
            0
        }),
{
    let keep = if k < 1 {
        0
    } else {
        k - 1
    };
    if others > keep {
        others - keep
    } else {
        0
    }
}

/// Whether a size limit deletes the next oldest file: the folder is over the
/// limit and another file remains.
pub fn over_size_limit(total: u64, limit: u64, remaining: u64) -> (b: bool)
    ensures
        b == (total > limit && remaining > 0),
{
    total > limit && remaining > 0
}

// ── Local time ──────────────────────────────────────────────────────────────

/// A wall-clock time on the computer's local clock.
#[derive(Debug, Clone, Copy, PartialEq, Eq, Structural)]
pub struct Stamp {
    pub year: u16,
    pub month: u8,
    pub day: u8,
    pub hour: u8,
    pub minute: u8,
    pub second: u8,
    pub millis: u16,
}

/// A leap year of the Gregorian calendar.
pub open spec fn is_leap(y: int) -> bool {
    (y % 4 == 0 && y % 100 != 0) || y % 400 == 0
}

/// Days in year `y`.
pub open spec fn year_days(y: int) -> int {
    if is_leap(y) {
        366
    } else {
        365
    }
}

/// Days in month `m` (1..=12) of year `y`.
pub open spec fn month_days(y: int, m: int) -> int {
    if m == 2 {
        if is_leap(y) {
            29
        } else {
            28
        }
    } else if m == 4 || m == 6 || m == 9 || m == 11 {
        30
    } else {
        31
    }
}

/// Days from 1970-01-01 to the first of January of year `y`.
pub open spec fn days_to_year(y: int) -> int
    decreases y - 1970,
{
    if y <= 1970 {
        0
    } else {
        days_to_year(y - 1) + year_days(y - 1)
    }
}

/// Days from the first of January to the first of month `m` in year `y`.
pub open spec fn days_to_month(y: int, m: int) -> int
    decreases m,
{
    if m <= 1 {
        0
    } else {
        days_to_month(y, m - 1) + month_days(y, m - 1)
    }
}

/// Days from 1970-01-01 to the date `y`-`m`-`d`.
pub open spec fn civil_days(y: int, m: int, d: int) -> int {
    days_to_year(y) + days_to_month(y, m) + d - 1
}

/// The days of a timestamp this module converts: up to 65535-12-31, the
/// last day whose year a stamp's `u16` holds.
pub const MAX_DAYS: u64 = 23_217_003;

/// Leap years among 1..=n.
pub open spec fn leaps(n: int) -> int {
    n / 4 - n / 100 + n / 400
}

proof fn lemma_leap_step(n: int)
    requires
        n >= 1,
    ensures
        leaps(n) - leaps(n - 1) == if is_leap(n) { 1int } else { 0int },
{
    assert(leaps(n) - leaps(n - 1) == if is_leap(n) { 1int } else { 0int }) by (nonlinear_arith)
        requires
            n >= 1,
    ;
}

/// Days before a year, in closed form.
proof fn lemma_days_closed(y: int)
    requires
        y >= 1970,
    ensures
        days_to_year(y) == 365 * (y - 1970) + leaps(y - 1) - leaps(1969),
    decreases y - 1970,
{
    if y > 1970 {
        lemma_days_closed(y - 1);
        lemma_leap_step(y - 1);
    }
}

proof fn lemma_months_fill_year(y: int)
    ensures
        days_to_month(y, 13) == year_days(y),
{
    reveal_with_fuel(days_to_month, 13);
}

fn exec_year_days(y: u32) -> (n: u64)
    ensures
        n == year_days(y as int),
{
    if (y % 4 == 0 && y % 100 != 0) || y % 400 == 0 {
        366
    } else {
        365
    }
}

fn exec_month_days(y: u32, m: u32) -> (n: u64)
    ensures
        n == month_days(y as int, m as int),
{
    let leap = (y % 4 == 0 && y % 100 != 0) || y % 400 == 0;
    if m == 2 {
        if leap {
            29
        } else {
            28
        }
    } else if m == 4 || m == 6 || m == 9 || m == 11 {
        30
    } else {
        31
    }
}

/// Days since 1970-01-01 → (year, month, day) on the Gregorian calendar.
pub fn civil_from_days(z: u64) -> (r: (u16, u8, u8))
    requires
        z <= MAX_DAYS,
    ensures
        1 <= r.1 <= 12,
        1 <= r.2 <= month_days(r.0 as int, r.1 as int),
        r.0 >= 1970,
        civil_days(r.0 as int, r.1 as int, r.2 as int) == z,
{
    let mut y: u32 = 1970;
    let mut rem: u64 = z;
    proof {
        lemma_days_closed(65536);
    }
    loop
        invariant
            z <= MAX_DAYS,
            1970 <= y,
            days_to_year(y as int) + rem == z,
            days_to_year(65536) == MAX_DAYS + 1,
            y <= 65535,
        ensures
            1970 <= y <= 65535,
            days_to_year(y as int) + rem == z,
            rem < year_days(y as int),
        decreases rem,
    {
        let yd = exec_year_days(y);
        if rem < yd {
            break;
        }
        rem = rem - yd;
        y = y + 1;
    }
    let mut m: u32 = 1;
    let ghost rem0 = rem;
    proof {
        lemma_months_fill_year(y as int);
    }
    loop
        invariant
            1 <= m <= 12,
            days_to_month(y as int, m as int) + rem == rem0,
            rem0 < year_days(y as int),
            days_to_month(y as int, 13) == year_days(y as int),
            1970 <= y <= 65535,
        ensures
            1 <= m <= 12,
            days_to_month(y as int, m as int) + rem == rem0,
            rem < month_days(y as int, m as int),
            1970 <= y <= 65535,
        decreases rem,
    {
        let md = exec_month_days(y, m);
        if rem < md {
            break;
        }
        proof {
            if m == 12 {
                assert(days_to_month(y as int, 13) == days_to_month(y as int, 12) + month_days(y as int, 12));
            }
        }
        rem = rem - md;
        m = m + 1;
    }
    ((y as u16), (m as u8), ((rem + 1) as u8))
}

/// The stamp of a moment `secs` seconds and `millis` milliseconds after
/// 1970-01-01 00:00:00 (the clock's UTC reading, where no local time is
/// at hand).
pub fn stamp_from_unix(secs: u64, millis: u16) -> (t: Stamp)
    requires
        secs / 86400 <= MAX_DAYS,
    ensures
        civil_days(t.year as int, t.month as int, t.day as int) == secs / 86400,
        1 <= t.month <= 12,
        1 <= t.day <= month_days(t.year as int, t.month as int),
        t.hour == (secs % 86400) / 3600,
        t.minute == (secs % 86400) / 60 % 60,
        t.second == secs % 60,
        t.millis == millis,
{
    let (year, month, day) = civil_from_days(secs / 86400);
    let sod = secs % 86400;
    assert(secs % 60 == sod % 60) by (nonlinear_arith)
        requires
            sod == secs % 86400,
    ;
    Stamp {
        year,
        month,
        day,
        hour: (sod / 3600) as u8,
        minute: (sod / 60 % 60) as u8,
        second: (sod % 60) as u8,
        millis,
    }
}

/// `YYYY-MM-DD`.
pub open spec fn spec_date(s: Stamp) -> Seq<char> {
    zero_pad(dec_digits(s.year as nat), 4) + "-"@ + zero_pad(dec_digits(s.month as nat), 2) + "-"@
        + zero_pad(dec_digits(s.day as nat), 2)
}

/// `HH:MM:SS`.
pub open spec fn spec_hms(s: Stamp) -> Seq<char> {
    zero_pad(dec_digits(s.hour as nat), 2) + ":"@ + zero_pad(dec_digits(s.minute as nat), 2) + ":"@
        + zero_pad(dec_digits(s.second as nat), 2)
}

/// A field without its optional leading '+'.
pub open spec fn field_digits(f: Seq<char>) -> Seq<char> {
    if f.len() > 0 && f[0] == '+' {
        f.skip(1)
    } else {
        f
    }
}

/// One field of a date or time: an optional '+' and then decimal digits, as
/// integer parsing reads it; its value.
pub open spec fn field_value(f: Seq<char>) -> Option<nat> {
    let digits = field_digits(f);
    if digits.len() > 0 && forall|i: int| 0 <= i < digits.len() ==> is_ascii_digit(#[trigger] digits[i]) {
        Some(dec_value(digits))
    } else {
        None
    }
}

/// Every character is ASCII.
pub open spec fn all_ascii(s: Seq<char>) -> bool {
    forall|i: int| 0 <= i < s.len() ==> (#[trigger] s[i]) as u32 <= 0x7F
}

/// The stamp a file's date (`YYYY-MM-DD`) and a header time (`HH:MM:SS`)
/// give: both all ASCII of exactly 10 and 8 characters, and every field a
/// number (the separators themselves are not checked).
pub open spec fn spec_from_parts(date: Seq<char>, hms: Seq<char>) -> Option<Stamp> {
    if date.len() == 10 && hms.len() == 8 && all_ascii(date) && all_ascii(hms) {
        match (
            field_value(date.subrange(0, 4)),
            field_value(date.subrange(5, 7)),
            field_value(date.subrange(8, 10)),
            field_value(hms.subrange(0, 2)),
            field_value(hms.subrange(3, 5)),
            field_value(hms.subrange(6, 8)),
        ) {
            (Some(y), Some(mo), Some(d), Some(h), Some(mi), Some(s)) => Some(
                Stamp {
                    year: y as u16,
                    month: mo as u8,
                    day: d as u8,
                    hour: h as u8,
                    minute: mi as u8,
                    second: s as u8,
                    millis: 0,
                },
            ),
            _ => None,
        }
    } else {
        None
    }
}

proof fn lemma_dec_value_bound(d: Seq<char>)
    requires
        forall|i: int| 0 <= i < d.len() ==> is_ascii_digit(#[trigger] d[i]),
    ensures
        d.len() <= 1 ==> dec_value(d) < 10,
        d.len() <= 2 ==> dec_value(d) < 100,
        d.len() <= 3 ==> dec_value(d) < 1000,
        d.len() <= 4 ==> dec_value(d) < 10000,
    decreases d.len(),
{
    if d.len() > 0 {
        lemma_dec_value_bound(d.drop_last());
    }
}

/// The value of the field `c[from..to]`, as `field_value` states it.
fn parse_field(c: &Vec<char>, from: usize, to: usize) -> (r: Option<u16>)
    requires
        from < to <= c@.len(),
        to - from <= 4,
    ensures
        r == (match field_value(c@.subrange(from as int, to as int)) {
            Some(v) => Some(v as u16),
            None => None,
        }),
        field_value(c@.subrange(from as int, to as int)) matches Some(v) ==> v < 10000,
{
    let ghost f = c@.subrange(from as int, to as int);
    let start = if c[from] == '+' {
        from + 1
    } else {
        from
    };
    let ghost digits = c@.subrange(start as int, to as int);
    assert(digits =~= field_digits(f));
    if start == to {
        assert(digits.len() == 0);
        assert(field_value(f) is None);
        return None;
    }
    let mut v: u16 = 0;
    let mut i: usize = start;
    while i < to
        invariant
            start <= i <= to,
            to <= c@.len(),
            to - start <= 4,
            digits == c@.subrange(start as int, to as int),
            digits == field_digits(f),
            f == c@.subrange(from as int, to as int),
            forall|j: int| start <= j < i ==> is_ascii_digit(#[trigger] c@[j]),
            v == dec_value(c@.subrange(start as int, i as int)),
            v < 10000,
        decreases to - i,
    {
        if !('0' <= c[i] && c[i] <= '9') {
            assert(!is_ascii_digit(digits[i - start]));
            return None;
        }
        proof {
            let pre = c@.subrange(start as int, i + 1);
            assert(pre.drop_last() =~= c@.subrange(start as int, i as int));
            assert forall|j: int| 0 <= j < pre.len() implies is_ascii_digit(#[trigger] pre[j]) by {
                assert(pre[j] == c@[start + j]);
            }
            lemma_dec_value_bound(pre);
        }
        v = v * 10 + (c[i] as u32 - 48) as u16;
        i += 1;
    }
    assert(c@.subrange(start as int, i as int) =~= digits);
    Some(v)
}

/// Every character of `c` is ASCII.
fn all_ascii_vec(c: &Vec<char>) -> (b: bool)
    ensures
        b == all_ascii(c@),
{
    let mut i: usize = 0;
    while i < c.len()
        invariant
            i <= c@.len(),
            forall|j: int| 0 <= j < i ==> (#[trigger] c@[j]) as u32 <= 0x7F,
        decreases c@.len() - i,
    {
        if c[i] as u32 > 0x7F {
            return false;
        }
        i += 1;
    }
    true
}

impl Stamp {
    /// `YYYY-MM-DD`.
    pub fn date(&self) -> (s: String)
        ensures
            s@ == spec_date(*self),
    {
        let mut s = String::new();
        push_padded(&mut s, self.year as u64, 4);
        push_char(&mut s, '-');
        push_padded(&mut s, self.month as u64, 2);
        push_char(&mut s, '-');
        push_padded(&mut s, self.day as u64, 2);
        proof {
            reveal_strlit("-");
        }
        assert(s@ =~= spec_date(*self));
        s
    }

    /// `HH:MM:SS`.
    pub fn hms(&self) -> (s: String)
        ensures
            s@ == spec_hms(*self),
    {
        let mut s = String::new();
        push_padded(&mut s, self.hour as u64, 2);
        push_char(&mut s, ':');
        push_padded(&mut s, self.minute as u64, 2);
        push_char(&mut s, ':');
        push_padded(&mut s, self.second as u64, 2);
        proof {
            reveal_strlit(":");
        }
        assert(s@ =~= spec_hms(*self));
        s
    }

    /// Same calendar date.
    pub fn same_day(&self, other: &Stamp) -> (b: bool)
        ensures
            b == (self.year == other.year && self.month == other.month && self.day == other.day),
    {
        self.year == other.year && self.month == other.month && self.day == other.day
    }

    /// Rebuild a stamp from a file's date and a header time (see
    /// `spec_from_parts`).
    pub fn from_parts(date: &str, hms: &str) -> (r: Option<Stamp>)
        ensures
            r == spec_from_parts(date@, hms@),
    {
        let d = chars_of(date);
        let t = chars_of(hms);
        if d.len() != 10 || t.len() != 8 || !all_ascii_vec(&d) || !all_ascii_vec(&t) {
            return None;
        }
        let year = match parse_field(&d, 0, 4) {
            Some(v) => v,
            None => {
                return None;
            },
        };
        let month = match parse_field(&d, 5, 7) {
            Some(v) => v,
            None => {
                return None;
            },
        };
        let day = match parse_field(&d, 8, 10) {
            Some(v) => v,
            None => {
                return None;
            },
        };
        let hour = match parse_field(&t, 0, 2) {
            Some(v) => v,
            None => {
                return None;
            },
        };
        let minute = match parse_field(&t, 3, 5) {
            Some(v) => v,
            None => {
                return None;
            },
        };
        let second = match parse_field(&t, 6, 8) {
            Some(v) => v,
            None => {
                return None;
            },
        };
        Some(
            Stamp {
                year,
                month: month as u8,
                day: day as u8,
                hour: hour as u8,
                minute: minute as u8,
                second: second as u8,
                millis: 0,
            },
        )
    }
}


// ── File names ──────────────────────────────────────────────────────────────

/// `nodus.<date>-n<n>.log`.
pub open spec fn spec_file_name(date: Seq<char>, n: u32) -> Seq<char> {
    "nodus."@ + date + "-n"@ + dec_digits(n as nat) + ".log"@
}

/// The name of file `n` of a date.
pub fn file_name(date: &str, n: u32) -> (s: String)
    ensures
        s@ == spec_file_name(date@, n),
{
    let mut s = String::from_str("nodus.");
    s.append(date);
    s.append("-n");
    push_decimal(&mut s, n as u64);
    s.append(".log");
    s
}

/// `YYYY-MM-DD` by shape: ten ASCII digits and dashes, the dashes at 4 and
/// 7.
pub open spec fn date_shape(d: Seq<char>) -> bool {
    d.len() == 10 && forall|i: int|
        0 <= i < 10 ==> if i == 4 || i == 7 {
            d[i] == '-'
        } else {
            is_ascii_digit(#[trigger] d[i])
        }
}

/// `p` is the last position where `needle` occurs in `hay`.
pub open spec fn last_at(hay: Seq<char>, needle: Seq<char>, p: int) -> bool {
    occurs_at(hay, needle, p) && forall|j: int| p < j ==> !occurs_at(hay, needle, j)
}

/// Only ASCII digits.
pub open spec fn all_digits(s: Seq<char>) -> bool {
    forall|i: int| 0 <= i < s.len() ==> is_ascii_digit(#[trigger] s[i])
}

/// The date and number a file name of the scheme carries:
/// `nodus.` + date + `-n` + number + `.log`, split at the last `-n`, the date
/// of the `YYYY-MM-DD` shape and the number decimal digits of a value from
/// 1 to `u32::MAX`. Anything else (the old `nodus.log`, stray files) is
/// not one of ours.
pub open spec fn spec_parse_file_name(s: Seq<char>) -> Option<(Seq<char>, u32)> {
    if s.len() >= 10 && s.take(6) == "nodus."@ && s.skip(s.len() - 4) == ".log"@ {
        let core = s.subrange(6, s.len() - 4);
        if contains_seq(core, "-n"@) {
            let p = choose|p: int| last_at(core, "-n"@, p);
            let date = core.take(p);
            let n = core.skip(p + 2);
            if date_shape(date) && n.len() > 0 && all_digits(n) && 0 < dec_value(n) <= u32::MAX {
                Some((date, dec_value(n) as u32))
            } else {
                None
            }
        } else {
            None
        }
    } else {
        None
    }
}

/// A file name of the scheme reads back as the date and number it was
/// made from.
pub proof fn lemma_file_name_roundtrip(date: Seq<char>, n: u32)
    requires
        date_shape(date),
        n > 0,
    ensures
        spec_parse_file_name(spec_file_name(date, n)) == Some((date, n)),
{
    reveal_strlit("nodus.");
    reveal_strlit("-n");
    reveal_strlit(".log");
    let d = dec_digits(n as nat);
    crate::text::lemma_dec_roundtrip(n as nat);
    crate::text::lemma_dec_len(n as nat);
    let s = spec_file_name(date, n);
    assert(s.take(6) =~= "nodus."@);
    assert(s.skip(s.len() - 4) =~= ".log"@);
    let core = s.subrange(6, s.len() - 4);
    assert(core =~= date + "-n"@ + d);
    assert(core.subrange(10, 12) =~= "-n"@);
    assert(occurs_at(core, "-n"@, 10));
    assert forall|j: int| 10 < j implies !occurs_at(core, "-n"@, j) by {
        if occurs_at(core, "-n"@, j) {
            assert(core.subrange(j, j + 2)[0] == core[j]);
            assert(core[j] == '-');
            if j == 11 {
                assert(core[11] == 'n');
            } else {
                assert(core[j] == d[j - 12]);
                assert(is_ascii_digit(d[j - 12]));
            }
        }
    }
    assert(last_at(core, "-n"@, 10));
    let p = choose|p: int| last_at(core, "-n"@, p);
    if p < 10 {
        assert(!occurs_at(core, "-n"@, 10));
    }
    assert(p == 10);
    assert(core.take(10) =~= date);
    assert(core.skip(12) =~= d);
    assert(all_digits(d));
}

/// A needle that occurs has a last occurrence.
proof fn lemma_last_exists(hay: Seq<char>, needle: Seq<char>, q: int)
    requires
        occurs_at(hay, needle, q),
    ensures
        exists|p: int| last_at(hay, needle, p),
    decreases hay.len() - q,
{
    if forall|j: int| q < j ==> !occurs_at(hay, needle, j) {
        assert(last_at(hay, needle, q));
    } else {
        let j = choose|j: int| q < j && occurs_at(hay, needle, j);
        lemma_last_exists(hay, needle, j);
    }
}

/// Only names of our scheme parse: what parses is `nodus.`, a date of the
/// `YYYY-MM-DD` shape, `-n`, digits worth a number above 0, and `.log`.
pub proof fn lemma_parsed_names_follow_the_scheme(s: Seq<char>)
    requires
        spec_parse_file_name(s) is Some,
    ensures
        date_shape(spec_parse_file_name(s).unwrap().0),
        spec_parse_file_name(s).unwrap().1 > 0,
        exists|digits: Seq<char>|
            all_digits(digits) && dec_value(digits) == spec_parse_file_name(s).unwrap().1 && s == "nodus."@
                + spec_parse_file_name(s).unwrap().0 + "-n"@ + digits + ".log"@,
{
    reveal_strlit("nodus.");
    reveal_strlit("-n");
    reveal_strlit(".log");
    let core = s.subrange(6, s.len() - 4);
    assert(contains_seq(core, "-n"@));
    let q = choose|q: int| occurs_at(core, "-n"@, q);
    lemma_last_exists(core, "-n"@, q);
    let p = choose|p: int| last_at(core, "-n"@, p);
    let date = core.take(p);
    let n = core.skip(p + 2);
    assert(occurs_at(core, "-n"@, p));
    assert(core.subrange(p, p + 2) == "-n"@);
    assert(s =~= s.take(6) + core + s.skip(s.len() - 4));
    assert(core =~= date + core.subrange(p, p + 2) + n);
    assert(s =~= "nodus."@ + date + "-n"@ + n + ".log"@);
}

/// Does `c[from..to]` consist of the characters of `lit`?
fn chars_match(c: &Vec<char>, from: usize, lit: &str) -> (b: bool)
    requires
        from <= c@.len(),
    ensures
        b == (from + lit@.len() <= c@.len() && c@.subrange(from as int, from + lit@.len()) == lit@),
{
    let l = chars_of(lit);
    let clen = c.len();
    if l.len() > clen - from {
        return false;
    }
    let mut k: usize = 0;
    while k < l.len()
        invariant
            l@ == lit@,
            clen == c@.len(),
            from + l@.len() <= c@.len(),
            k <= l@.len(),
            forall|j: int| 0 <= j < k ==> c@[from + j] == l@[j],
        decreases l@.len() - k,
    {
        if c[from + k] != l[k] {
            assert(c@.subrange(from as int, from + l@.len())[k as int] != l@[k as int]);
            return false;
        }
        k += 1;
    }
    assert(c@.subrange(from as int, from + l@.len()) =~= l@);
    true
}

/// The last position of `-n` in `c[lo..hi]`, as an index into `c`.
fn last_dash_n(c: &Vec<char>, lo: usize, hi: usize) -> (r: Option<usize>)
    requires
        lo <= hi <= c@.len(),
    ensures
        match r {
            Some(q) => lo <= q && q + 2 <= hi && last_at(c@.subrange(lo as int, hi as int), "-n"@, q - lo),
            None => !contains_seq(c@.subrange(lo as int, hi as int), "-n"@),
        },
{
    let ghost core = c@.subrange(lo as int, hi as int);
    proof {
        reveal_strlit("-n");
    }
    let mut p: usize = hi;
    while p > lo
        invariant
            lo <= p <= hi <= c@.len(),
            core == c@.subrange(lo as int, hi as int),
            forall|j: int| p - lo <= j ==> !occurs_at(core, "-n"@, j),
        decreases p,
    {
        p -= 1;
        proof {
            reveal_strlit("-n");
        }
        if p + 1 < hi && c[p] == '-' && c[p + 1] == 'n' {
            assert(core.subrange(p - lo, p - lo + 2) =~= "-n"@);
            return Some(p);
        }
        assert(!occurs_at(core, "-n"@, p - lo)) by {
            if p + 2 <= hi {
                if core.subrange(p - lo, p - lo + 2) == "-n"@ {
                    assert(core.subrange(p - lo, p - lo + 2)[0] == c@[p as int]);
                    assert(core.subrange(p - lo, p - lo + 2)[1] == c@[p + 1]);
                }
            }
        }
    }
    None
}

/// The value of a run of ASCII digits, or `None` past `u32::MAX`.
fn digits_value(c: &Vec<char>, from: usize, to: usize) -> (r: Option<u32>)
    requires
        from <= to <= c@.len(),
        all_digits(c@.subrange(from as int, to as int)),
    ensures
        match r {
            Some(v) => v == dec_value(c@.subrange(from as int, to as int)),
            None => dec_value(c@.subrange(from as int, to as int)) > u32::MAX,
        },
{
    let mut acc: u64 = 0;
    let mut i: usize = from;
    while i < to
        invariant
            from <= i <= to <= c@.len(),
            all_digits(c@.subrange(from as int, to as int)),
            acc == dec_value(c@.subrange(from as int, i as int)),
            acc <= u32::MAX,
        decreases to - i,
    {
        let ghost pre = c@.subrange(from as int, i + 1);
        assert(pre.drop_last() =~= c@.subrange(from as int, i as int));
        assert(is_ascii_digit(c@.subrange(from as int, to as int)[i - from]));
        let d = (c[i] as u32 - 48) as u64;
        let next = acc * 10 + d;
        if next > 0xFFFF_FFFF {
            proof {
                lemma_dec_value_prefix_mono(c@.subrange(from as int, to as int), i + 1 - from);
                assert(c@.subrange(from as int, to as int).take(i + 1 - from) =~= pre);
            }
            return None;
        }
        acc = next;
        i += 1;
    }
    Some(acc as u32)
}

proof fn lemma_dec_value_prefix_mono(d: Seq<char>, k: int)
    requires
        0 <= k <= d.len(),
        all_digits(d),
    ensures
        dec_value(d.take(k)) <= dec_value(d),
    decreases d.len() - k,
{
    if k < d.len() {
        lemma_dec_value_prefix_mono(d, k + 1);
        let t = d.take(k + 1);
        assert(t.drop_last() =~= d.take(k));
        assert(is_ascii_digit(d[k]));
        assert(t.last() == d[k]);
        assert(dec_value(t) == dec_value(t.drop_last()) * 10 + (t.last() as nat - 48) as nat);
    } else {
        assert(d.take(k) =~= d);
    }
}

/// Split a file name of the scheme into its date and number (see
/// `spec_parse_file_name`).
pub fn parse_file_name(name: &str) -> (r: Option<(String, u32)>)
    ensures
        match r {
            Some((d, n)) => spec_parse_file_name(name@) == Some((d@, n)),
            None => spec_parse_file_name(name@) is None,
        },
{
    let c = chars_of(name);
    let len = c.len();
    proof {
        reveal_strlit("nodus.");
        reveal_strlit(".log");
        reveal_strlit("-n");
    }
    if len < 10 || !chars_match(&c, 0, "nodus.") || !chars_match(&c, len - 4, ".log") {
        proof {
            if len >= 10 {
                assert(c@.take(6) =~= c@.subrange(0, 6));
                assert(c@.skip(len - 4) =~= c@.subrange(len - 4, len as int));
            }
        }
        return None;
    }
    assert(c@.take(6) =~= c@.subrange(0, 6));
    assert(c@.skip(len - 4) =~= c@.subrange(len - 4, len as int));
    let ghost core = c@.subrange(6, len - 4);
    let lo: usize = 6;
    let hi: usize = len - 4;
    let p = match last_dash_n(&c, lo, hi) {
        Some(p) => p,
        None => {
            return None;
        },
    };
    let q = p - lo;
    proof {
        let pc = choose|pp: int| last_at(core, "-n"@, pp);
        assert(last_at(core, "-n"@, q as int));
        if pc < q {
            assert(!occurs_at(core, "-n"@, q as int));
        } else if pc > q {
            assert(!occurs_at(core, "-n"@, pc));
        }
        assert(pc == q);
    }
    let ghost date = core.take(q as int);
    let ghost num = core.skip(q + 2);
    assert(date =~= c@.subrange(6, p as int));
    assert(num =~= c@.subrange(p + 2, hi as int));
    assert(spec_parse_file_name(name@) == (if date_shape(date) && num.len() > 0 && all_digits(num)
        && 0 < dec_value(num) <= u32::MAX {
        Some((date, dec_value(num) as u32))
    } else {
        None
    }));
    // date shape
    let date_len = p - lo;
    if date_len != 10 {
        return None;
    }
    let mut k: usize = 0;
    while k < 10
        invariant
            p == lo + 10,
            lo == 6,
            p <= c@.len(),
            date == c@.subrange(6, p as int),
            spec_parse_file_name(name@) == (if date_shape(date) && num.len() > 0 && all_digits(num)
                && 0 < dec_value(num) <= u32::MAX {
                Some((date, dec_value(num) as u32))
            } else {
                None
            }),
            k <= 10,
            forall|i: int|
                0 <= i < k ==> if i == 4 || i == 7 {
                    date[i] == '-'
                } else {
                    is_ascii_digit(#[trigger] date[i])
                },
        decreases 10 - k,
    {
        let ch = c[lo + k];
        let ok = if k == 4 || k == 7 {
            ch == '-'
        } else {
            '0' <= ch && ch <= '9'
        };
        if !ok {
            assert(date[k as int] == c@[lo + k]);
            assert(!date_shape(date));
            return None;
        }
        k += 1;
    }
    // number: non-empty, all digits, 1..=u32::MAX
    let nstart = p + 2;
    if nstart >= hi {
        return None;
    }
    let mut m: usize = nstart;
    while m < hi
        invariant
            nstart <= m <= hi,
            hi <= c@.len(),
            num == c@.subrange(nstart as int, hi as int),
            spec_parse_file_name(name@) == (if date_shape(date) && num.len() > 0 && all_digits(num)
                && 0 < dec_value(num) <= u32::MAX {
                Some((date, dec_value(num) as u32))
            } else {
                None
            }),
            forall|i: int| nstart <= i < m ==> is_ascii_digit(#[trigger] c@[i]),
        decreases hi - m,
    {
        if !('0' <= c[m] && c[m] <= '9') {
            assert(!is_ascii_digit(num[m - nstart]));
            return None;
        }
        m += 1;
    }
    assert(all_digits(num)) by {
        assert forall|i: int| 0 <= i < num.len() implies is_ascii_digit(#[trigger] num[i]) by {
            assert(num[i] == c@[nstart + i]);
        }
    }
    let n = match digits_value(&c, nstart, hi) {
        Some(v) => v,
        None => {
            return None;
        },
    };
    if n == 0 {
        return None;
    }
    let mut d = String::new();
    let mut i: usize = lo;
    while i < p
        invariant
            lo <= i <= p <= c@.len(),
            d@ == c@.subrange(lo as int, i as int),
        decreases p - i,
    {
        push_char(&mut d, c[i]);
        assert(d@ =~= c@.subrange(lo as int, i + 1));
        i += 1;
    }
    Some((d, n))
}

/// What the directory listing says of one of our files.
#[derive(Debug, Clone)]
pub struct LogFileInfo {
    pub date: String,
    pub n: u32,
    pub bytes: u64,
}

/// The highest number a date's files carry (0 for none).
pub open spec fn max_index(files: Seq<LogFileInfo>, date: Seq<char>) -> nat
    decreases files.len(),
{
    if files.len() == 0 {
        0
    } else {
        let rest = max_index(files.drop_last(), date);
        let f = files.last();
        if f.date@ == date && f.n > rest {
            f.n as nat
        } else {
            rest
        }
    }
}

/// `files[i]` is the last listed file of `date` carrying its highest
/// number.
pub open spec fn last_of_day(files: Seq<LogFileInfo>, date: Seq<char>, i: int) -> bool {
    &&& 0 <= i < files.len()
    &&& files[i].date@ == date
    &&& files[i].n == max_index(files, date)
    &&& forall|j: int| i < j < files.len() ==> !((#[trigger] files[j]).date@ == date && files[j].n == max_index(files, date))
}

/// The file a launch on `date` carries on in: that day's highest-numbered
/// file, when it holds fewer than `max_bytes` (whether it was closed
/// properly is read from its header next).
pub fn file_to_continue(files: &[LogFileInfo], date: &str, max_bytes: u64) -> (r: Option<usize>)
    ensures
        match r {
            Some(i) => last_of_day(files@, date@, i as int) && files@[i as int].bytes < max_bytes,
            None => forall|i: int| #[trigger] last_of_day(files@, date@, i) ==> files@[i].bytes >= max_bytes,
        },
{
    let mut best: Option<usize> = None;
    let mut i: usize = 0;
    while i < files.len()
        invariant
            i <= files@.len(),
            match best {
                Some(b) => last_of_day(files@.take(i as int), date@, b as int),
                None => forall|j: int| 0 <= j < i ==> (#[trigger] files@[j]).date@ != date@,
            },
        decreases files@.len() - i,
    {
        let ghost pre = files@.take(i as int);
        let ghost post = files@.take(i + 1);
        assert(post.drop_last() =~= pre);
        assert(forall|j: int| 0 <= j < i ==> pre[j] == files@[j] && post[j] == files@[j]);
        assert(post[i as int] == files@[i as int]);
        if crate::text::str_eq(files[i].date.as_str(), date) {
            match best {
                Some(b) => {
                    if files[i].n >= files[b].n {
                        best = Some(i);
                    }
                },
                None => {
                    proof {
                        lemma_max_index_absent(pre, date@);
                    }
                    best = Some(i);
                },
            }
        }
        i += 1;
    }
    assert(files@.take(i as int) =~= files@);
    match best {
        Some(b) => {
            if files[b].bytes < max_bytes {
                Some(b)
            } else {
                proof {
                    assert forall|k: int| #[trigger] last_of_day(files@, date@, k) implies files@[k].bytes >= max_bytes by {
                        if k != b {
                            if k < b {
                                assert(!(files@[b as int].date@ == date@ && files@[b as int].n == max_index(files@, date@)));
                            } else {
                                assert(!(files@[k].date@ == date@ && files@[k].n == max_index(files@, date@)));
                            }
                        }
                    }
                }
                None
            }
        },
        None => None,
    }
}

/// A date none of whose files is listed has no highest number.
proof fn lemma_max_index_absent(files: Seq<LogFileInfo>, date: Seq<char>)
    requires
        forall|j: int| 0 <= j < files.len() ==> (#[trigger] files[j]).date@ != date,
    ensures
        max_index(files, date) == 0,
    decreases files.len(),
{
    if files.len() > 0 {
        lemma_max_index_absent(files.drop_last(), date);
    }
}

/// The number for a new file of `date`: one past the highest in use.
pub fn next_index(files: &[LogFileInfo], date: &str) -> (n: u32)
    requires
        max_index(files@, date@) < u32::MAX,
    ensures
        n == max_index(files@, date@) + 1,
{
    let mut best: u32 = 0;
    let mut i: usize = 0;
    while i < files.len()
        invariant
            i <= files@.len(),
            best == max_index(files@.take(i as int), date@),
            max_index(files@, date@) < u32::MAX,
        decreases files@.len() - i,
    {
        assert(files@.take(i + 1).drop_last() =~= files@.take(i as int));
        if crate::text::str_eq(files[i].date.as_str(), date) && files[i].n > best {
            best = files[i].n;
        }
        i += 1;
    }
    assert(files@.take(i as int) =~= files@);
    best + 1
}

// ── Pruning ─────────────────────────────────────────────────────────────────

/// `a` is older than `b`: an earlier date, or the same date and a lower
/// number.
pub open spec fn older(a: LogFileInfo, b: LogFileInfo) -> bool {
    str_lt(a.date@, b.date@) || (a.date@ == b.date@ && a.n < b.n)
}

/// The bytes of a list of files.
pub open spec fn sum_bytes(files: Seq<LogFileInfo>) -> int
    decreases files.len(),
{
    if files.len() == 0 {
        0
    } else {
        sum_bytes(files.drop_last()) + files.last().bytes
    }
}

/// The files at positions `idx`, in that order.
pub open spec fn picked(files: Seq<LogFileInfo>, idx: Seq<usize>) -> Seq<LogFileInfo> {
    idx.map_values(|i: usize| files[i as int])
}

/// What a size limit leaves of `total` bytes once the files of `gone`
/// are deleted.
pub open spec fn left_after(total: int, gone: Seq<LogFileInfo>) -> int {
    total - sum_bytes(gone)
}

/// `out` deletes the oldest files of `others`, oldest first: distinct
/// positions, in age order, none younger than a file that stays.
pub open spec fn oldest_first(others: Seq<LogFileInfo>, out: Seq<usize>) -> bool {
    &&& forall|j: int| 0 <= j < out.len() ==> #[trigger] out[j] < others.len()
    &&& forall|a: int, b: int| 0 <= a < b < out.len() ==> out[a] != out[b]
    &&& forall|a: int, b: int|
        0 <= a < b < out.len() ==> !older(#[trigger] others[out[b] as int], #[trigger] others[out[a] as int])
    &&& forall|a: int, t: int|
        0 <= a < out.len() && 0 <= t < others.len() && !out.contains(t as usize) ==> !older(
            #[trigger] others[t],
            #[trigger] others[out[a] as int],
        )
}

proof fn lemma_older_trans(a: LogFileInfo, b: LogFileInfo, c: LogFileInfo)
    requires
        older(a, b),
        older(b, c),
    ensures
        older(a, c),
{
    if str_lt(a.date@, b.date@) && str_lt(b.date@, c.date@) {
        crate::text::lemma_str_lt_trans(a.date@, b.date@, c.date@);
    }
}

/// The number of oldest files a count limit `k` deletes among `others`
/// (none without a count limit).
pub open spec fn count_excess(others: nat, max_files: Option<u64>) -> nat {
    match max_files {
        Some(k) => {
            let keep = (if k < 1 { 1 } else { k }) - 1;
            if others > keep { (others - keep) as nat } else { 0 }
        },
        None => 0,
    }
}

/// Which of the log files other than the current one the limits delete, as
/// positions into `others`, in the order they go: oldest first (by date,
/// then number). A count limit `k` deletes all but the newest `k - 1` (the
/// current file takes a slot); then a byte limit deletes on, oldest first,
/// while the folder, `current_bytes` included, is over it.
pub fn files_to_prune(others: &[LogFileInfo], current_bytes: u64, max_files: Option<u64>, max_bytes: Option<u64>) -> (out: Vec<usize>)
    requires
        current_bytes + sum_bytes(others@) <= u64::MAX,
    ensures
        oldest_first(others@, out@),
        out@.len() >= count_excess(others@.len(), max_files),
        match max_bytes {
            None => out@.len() == count_excess(others@.len(), max_files),
            Some(limit) => {
                let total = current_bytes + sum_bytes(others@);
                &&& forall|j: int|
                    count_excess(others@.len(), max_files) <= j < out@.len() ==> left_after(
                        total,
                        #[trigger] picked(others@, out@).take(j),
                    ) > limit
                &&& (out@.len() == others@.len() || left_after(total, picked(others@, out@)) <= limit)
            },
        },
{
    let ghost os = others@;
    let mut total: u64 = current_bytes;
    let mut i: usize = 0;
    while i < others.len()
        invariant
            os == others@,
            i <= os.len(),
            total == current_bytes + sum_bytes(os.take(i as int)),
            current_bytes + sum_bytes(os) <= u64::MAX,
        decreases os.len() - i,
    {
        assert(os.take(i + 1).drop_last() =~= os.take(i as int));
        proof {
            lemma_sum_prefix(os, i + 1);
        }
        total = total + others[i].bytes;
        i += 1;
    }
    assert(os.take(os.len() as int) =~= os);
    let count: usize = match max_files {
        Some(k) => {
            let n = excess_by_count(others.len() as u64, k);
            n as usize
        },
        None => 0,
    };
    let limit: u64 = match max_bytes {
        Some(l) => l,
        None => 0,
    };
    let by_size: bool = match max_bytes {
        Some(_) => true,
        None => false,
    };
    let mut rem: Vec<usize> = Vec::new();
    let mut r: usize = 0;
    while r < others.len()
        invariant
            os == others@,
            r <= os.len(),
            rem@.len() == r,
            forall|j: int| 0 <= j < r ==> #[trigger] rem@[j] == j,
        decreases os.len() - r,
    {
        rem.push(r);
        r += 1;
    }
    let mut out: Vec<usize> = Vec::new();
    let mut left: u64 = total;
    proof {
        assert forall|t: usize| t < os.len() implies #[trigger] rem@.contains(t) by {
            assert(rem@[t as int] == t);
        }
        assert(picked(os, out@) =~= Seq::<LogFileInfo>::empty());
        assert(picked(os, rem@) =~= os);
    }
    loop
        invariant
            os == others@,
            os.len() <= usize::MAX,
            count <= os.len(),
            count == count_excess(os.len(), max_files),
            !by_size ==> out@.len() <= count,
            out@.len() + rem@.len() == os.len(),
            forall|j: int| 0 <= j < rem@.len() ==> #[trigger] rem@[j] < os.len(),
            forall|a: int, b: int| 0 <= a < b < rem@.len() ==> rem@[a] != rem@[b],
            forall|a: int, j: int| 0 <= a < out@.len() && 0 <= j < rem@.len() ==> out@[a] != rem@[j],
            forall|t: usize| #![trigger out@.contains(t)] #![trigger rem@.contains(t)]
                t < os.len() ==> out@.contains(t) || rem@.contains(t),
            forall|j: int| 0 <= j < out@.len() ==> #[trigger] out@[j] < os.len(),
            forall|a: int, b: int| 0 <= a < b < out@.len() ==> out@[a] != out@[b],
            forall|a: int, b: int|
                0 <= a < b < out@.len() ==> !older(#[trigger] os[out@[b] as int], #[trigger] os[out@[a] as int]),
            forall|a: int, j: int|
                0 <= a < out@.len() && 0 <= j < rem@.len() ==> !older(#[trigger] os[rem@[j] as int], #[trigger] os[out@[a] as int]),
            left == total - sum_bytes(picked(os, out@)),
            left == current_bytes + sum_bytes(picked(os, rem@)),
            by_size ==> forall|j: int| count <= j < out@.len() ==> left_after(total as int, #[trigger] picked(os, out@).take(j)) > limit,
        ensures
            oldest_first(os, out@),
            out@.len() >= count,
            left == total - sum_bytes(picked(os, out@)),
            by_size ==> forall|j: int| count <= j < out@.len() ==> left_after(total as int, #[trigger] picked(os, out@).take(j)) > limit,
            !by_size ==> out@.len() == count,
            by_size ==> (out@.len() == os.len() || left <= limit),
        decreases os.len() - out@.len(),
    {
        if out.len() >= count && !(by_size && over_size_limit(left, limit, rem.len() as u64)) {
            proof {
                assert forall|a: int, t: int|
                    0 <= a < out@.len() && 0 <= t < os.len() && !out@.contains(t as usize) implies !older(
                        #[trigger] os[t],
                        #[trigger] os[out@[a] as int],
                    ) by {
                    assert(out@.contains(t as usize) || rem@.contains(t as usize));
                    assert(rem@.contains(t as usize));
                    let j = choose|j: int| 0 <= j < rem@.len() && rem@[j] == t as usize;
                    assert(rem@[j] as int == t);
                    assert(!older(os[rem@[j] as int], os[out@[a] as int]));
                }
            }
            break;
        }
        // the oldest file still left
        proof {
            lemma_older_irrefl(os[rem@[0] as int]);
        }
        let mut m: usize = 0;
        let mut s: usize = 1;
        while s < rem.len()
            invariant
                os == others@,
                rem@.len() > 0,
                m < s <= rem@.len(),
                forall|j: int| 0 <= j < rem@.len() ==> #[trigger] rem@[j] < os.len(),
                forall|t: int| 0 <= t < s ==> !older(#[trigger] os[rem@[t] as int], os[rem@[m as int] as int]),
            decreases rem@.len() - s,
        {
            if file_older(&others[rem[s]], &others[rem[m]]) {
                proof {
                    assert forall|t: int| 0 <= t < s + 1 implies !older(#[trigger] os[rem@[t] as int], os[rem@[s as int] as int]) by {
                        if t < s && older(os[rem@[t] as int], os[rem@[s as int] as int]) {
                            lemma_older_trans(os[rem@[t] as int], os[rem@[s as int] as int], os[rem@[m as int] as int]);
                        }
                        if t == s {
                            lemma_older_irrefl(os[rem@[t] as int]);
                        }
                    }
                }
                m = s;
            }
            s += 1;
        }
        proof {
            lemma_older_irrefl(os[rem@[m as int] as int]);
        }
        let ghost before_rem = rem@;
        let ghost before = out@;
        let x = rem.remove(m);
        out.push(x);
        proof {
            lemma_sum_push(os, before, x, out@);
            assert(picked(os, rem@) =~= picked(os, before_rem).remove(m as int));
            lemma_sum_remove(picked(os, before_rem), m as int);
            lemma_sum_nonneg(picked(os, rem@));
            assert forall|t: usize| t < os.len() implies out@.contains(t) || rem@.contains(t) by {
                assert(before.contains(t) || before_rem.contains(t));
                if before.contains(t) {
                    let a = choose|a: int| 0 <= a < before.len() && before[a] == t;
                    assert(out@[a] == t);
                } else {
                    let j = choose|j: int| 0 <= j < before_rem.len() && before_rem[j] == t;
                    if j < m {
                        assert(rem@[j] == t);
                    } else if j > m {
                        assert(rem@[j - 1] == t);
                    } else {
                        assert(out@[before.len() as int] == t);
                    }
                }
            }
            assert forall|a: int, b: int| 0 <= a < b < out@.len() implies !older(
                #[trigger] os[out@[b] as int],
                #[trigger] os[out@[a] as int],
            ) by {
                if b == before.len() {
                    assert(out@[b] == before_rem[m as int]);
                    assert(out@[a] == before[a]);
                }
            }
            assert forall|a: int, b: int| 0 <= a < b < out@.len() implies out@[a] != out@[b] by {
                if b == before.len() {
                    assert(out@[b] == before_rem[m as int]);
                }
            }
            assert forall|a: int, j: int| 0 <= a < out@.len() && 0 <= j < rem@.len() implies !older(
                #[trigger] os[rem@[j] as int],
                #[trigger] os[out@[a] as int],
            ) by {
                let jj = if j < m { j } else { j + 1 };
                assert(rem@[j] == before_rem[jj]);
                if a == before.len() {
                    assert(out@[a] == before_rem[m as int]);
                } else {
                    assert(out@[a] == before[a]);
                }
            }
            assert forall|a: int, j: int| 0 <= a < out@.len() && 0 <= j < rem@.len() implies out@[a] != rem@[j] by {
                let jj = if j < m { j } else { j + 1 };
                assert(rem@[j] == before_rem[jj]);
                if a == before.len() {
                    assert(out@[a] == before_rem[m as int]);
                }
            }
            assert forall|a: int, b: int| 0 <= a < b < rem@.len() implies rem@[a] != rem@[b] by {
                let aa = if a < m { a } else { a + 1 };
                let bb = if b < m { b } else { b + 1 };
                assert(rem@[a] == before_rem[aa]);
                assert(rem@[b] == before_rem[bb]);
            }
            assert forall|j: int| 0 <= j < rem@.len() implies #[trigger] rem@[j] < os.len() by {
                let jj = if j < m { j } else { j + 1 };
                assert(rem@[j] == before_rem[jj]);
            }
            if by_size {
                assert forall|j: int| count <= j < out@.len() implies left_after(total as int, #[trigger] picked(os, out@).take(j)) > limit by {
                    if j < before.len() {
                        assert(picked(os, out@).take(j) =~= picked(os, before).take(j));
                    } else {
                        assert(picked(os, out@).take(j) =~= picked(os, before));
                    }
                }
            }
        }
        left = left - others[x].bytes;
    }
    out
}

/// The next file the limits delete among `others` (any order), the
/// current file's bytes and those of files that could not be deleted
/// counted in `kept_bytes`: the oldest of them, while a count limit leaves
/// too many or the folder is over a byte limit; none otherwise.
pub fn next_to_prune(others: &[LogFileInfo], kept_bytes: u64, max_files: Option<u64>, max_bytes: Option<u64>) -> (r: Option<usize>)
    requires
        kept_bytes + sum_bytes(others@) <= u64::MAX,
    ensures
        r is Some <==> (count_excess(others@.len(), max_files) > 0 || (max_bytes matches Some(l) && kept_bytes
            + sum_bytes(others@) > l && others@.len() > 0)),
        r matches Some(i) ==> i < others@.len() && forall|j: int| 0 <= j < others@.len() ==> !older(#[trigger] others@[j], others@[i as int]),
{
    let ghost os = others@;
    let mut total: u64 = kept_bytes;
    let mut i: usize = 0;
    while i < others.len()
        invariant
            os == others@,
            i <= os.len(),
            total == kept_bytes + sum_bytes(os.take(i as int)),
            kept_bytes + sum_bytes(os) <= u64::MAX,
        decreases os.len() - i,
    {
        assert(os.take(i + 1).drop_last() =~= os.take(i as int));
        proof {
            lemma_sum_prefix(os, i + 1);
        }
        total = total + others[i].bytes;
        i += 1;
    }
    assert(os.take(os.len() as int) =~= os);
    let by_count: bool = match max_files {
        Some(k) => excess_by_count(others.len() as u64, k) > 0,
        None => false,
    };
    let by_size: bool = match max_bytes {
        Some(l) => over_size_limit(total, l, others.len() as u64),
        None => false,
    };
    if !by_count && !by_size {
        return None;
    }
    let mut m: usize = 0;
    let mut s: usize = 1;
    proof {
        lemma_older_irrefl(os[0]);
    }
    while s < others.len()
        invariant
            os == others@,
            os.len() > 0,
            m < s <= os.len(),
            forall|t: int| 0 <= t < s ==> !older(#[trigger] os[t], os[m as int]),
        decreases os.len() - s,
    {
        if file_older(&others[s], &others[m]) {
            proof {
                assert forall|t: int| 0 <= t < s + 1 implies !older(#[trigger] os[t], os[s as int]) by {
                    if t < s && older(os[t], os[s as int]) {
                        lemma_older_trans(os[t], os[s as int], os[m as int]);
                    }
                    if t == s {
                        lemma_older_irrefl(os[t]);
                    }
                }
            }
            m = s;
        }
        s += 1;
    }
    Some(m)
}

/// Whether `a` is older than `b`.
fn file_older(a: &LogFileInfo, b: &LogFileInfo) -> (r: bool)
    ensures
        r == older(*a, *b),
{
    str_less(a.date.as_str(), b.date.as_str()) || (crate::text::str_eq(a.date.as_str(), b.date.as_str()) && a.n < b.n)
}

proof fn lemma_sum_nonneg(q: Seq<LogFileInfo>)
    ensures
        sum_bytes(q) >= 0,
    decreases q.len(),
{
    if q.len() > 0 {
        lemma_sum_nonneg(q.drop_last());
    }
}

/// Taking one file out of a list takes its bytes out of the sum.
proof fn lemma_sum_remove(q: Seq<LogFileInfo>, m: int)
    requires
        0 <= m < q.len(),
    ensures
        sum_bytes(q) == sum_bytes(q.remove(m)) + q[m].bytes,
    decreases q.len(),
{
    if m == q.len() - 1 {
        assert(q.remove(m) =~= q.drop_last());
    } else {
        lemma_sum_remove(q.drop_last(), m);
        assert(q.remove(m).drop_last() =~= q.drop_last().remove(m));
        assert(q.remove(m).last() == q.last());
    }
}

proof fn lemma_older_irrefl(a: LogFileInfo)
    ensures
        !older(a, a),
{
    crate::text::lemma_str_lt_total(a.date@, a.date@);
}

proof fn lemma_sum_prefix(os: Seq<LogFileInfo>, i: int)
    requires
        0 <= i <= os.len(),
    ensures
        sum_bytes(os.take(i)) <= sum_bytes(os),
    decreases os.len() - i,
{
    if i < os.len() {
        lemma_sum_prefix(os, i + 1);
        assert(os.take(i + 1).drop_last() =~= os.take(i));
    } else {
        assert(os.take(i) =~= os);
    }
}

/// The bytes of `before` plus one more file.
proof fn lemma_sum_push(os: Seq<LogFileInfo>, before: Seq<usize>, m: usize, out: Seq<usize>)
    requires
        out == before.push(m),
        m < os.len(),
    ensures
        sum_bytes(picked(os, out)) == sum_bytes(picked(os, before)) + os[m as int].bytes,
{
    assert(picked(os, out).drop_last() =~= picked(os, before));
}
// ── Rotation ────────────────────────────────────────────────────────────────

/// Whether the writer opens a new file before writing `incoming` bytes: it
/// has none, the date changed, or the file is full. A file holding only its
/// header is never full, so one oversized line cannot spin through empty
/// files.
pub fn needs_rotation(has_file: bool, now: &Stamp, start: &Stamp, bytes: u64, incoming: u64, max_bytes: u64) -> (b: bool)
    ensures
        b == (!has_file || !(now.year == start.year && now.month == start.month && now.day
            == start.day) || (bytes > HEADER_BYTES && bytes + incoming > max_bytes)),
{
    let new_day = !now.same_day(start);
    let full = bytes > HEADER_BYTES as u64 && (bytes > max_bytes || incoming > max_bytes - bytes);
    !has_file || new_day || full
}


// ── Headers ─────────────────────────────────────────────────────────────────

/// How a file ended, as its header states it.
#[derive(Debug, Clone, Copy, PartialEq, Eq, Structural)]
pub enum Status {
    Writing,
    Closed,
    CutShort,
}

/// The header's opening: the version, the file's number and date, up to
/// the span.
pub open spec fn header_head(version: Seq<char>, date: Seq<char>, n: u32) -> Seq<char> {
    "# Nodus "@ + version + " · лог n"@ + dec_digits(n as nat) + " за "@ + date + " · период: "@
}

/// The header's span, in the wording of its status.
pub open spec fn header_tail(start: Seq<char>, end: Seq<char>, status: Status) -> Seq<char> {
    match status {
        Status::Writing => "с "@ + start + " · "@ + "ещё пишется"@,
        Status::Closed => start + " — "@ + end + " · "@ + "закрыт"@,
        Status::CutShort => start + " — "@ + end + " · "@
            + "оборван (Nodus не успел закрыть лог: сбой или выключение компьютера)"@,
    }
}

/// The header's text: the version, the file's number and date, and its
/// span in the wording of its status.
pub open spec fn header_text(version: Seq<char>, date: Seq<char>, n: u32, start: Seq<char>, end: Seq<char>, status: Status) -> Seq<char> {
    header_head(version, date, n) + header_tail(start, end, status)
}

/// The last character boundary of `b` at or below `k`.
pub open spec fn boundary_at_or_below(b: Seq<u8>, k: int) -> int
    decreases k,
{
    if k <= 0 {
        0
    } else if vstd::utf8::is_char_boundary(b, k) {
        k
    } else {
        boundary_at_or_below(b, k - 1)
    }
}

/// Where the header text's bytes are cut: all of them when they fit in
/// the line, else at the last character boundary that leaves room for the
/// newline.
pub open spec fn header_cut(b: Seq<u8>) -> int {
    if b.len() <= HEADER_BYTES - 1 {
        b.len() as int
    } else {
        boundary_at_or_below(b, HEADER_BYTES - 1)
    }
}

/// The header's bytes: the UTF-8 text (cut as `header_cut` says), padded
/// with spaces, and a newline, exactly `HEADER_BYTES` in all.
pub open spec fn spec_header_bytes(text: Seq<char>) -> Seq<u8> {
    let b = vstd::utf8::encode_utf8(text);
    let c = header_cut(b);
    b.take(c) + Seq::new((HEADER_BYTES - 1 - c) as nat, |i: int| 32u8) + seq![10u8]
}

proof fn lemma_boundary_range(b: Seq<u8>, k: int)
    requires
        0 <= k,
    ensures
        0 <= boundary_at_or_below(b, k) <= k,
    decreases k,
{
    if k > 0 && !vstd::utf8::is_char_boundary(b, k) {
        lemma_boundary_range(b, k - 1);
    }
}

/// The header text in bytes, as `header_text` states it.
fn header_string(version: &str, date: &str, n: u32, start: &str, end: &str, status: Status) -> (s: String)
    ensures
        s@ == header_text(version@, date@, n, start@, end@, status),
{
    let mut s = String::from_str("# Nodus ");
    s.append(version);
    s.append(" · лог n");
    push_decimal(&mut s, n as u64);
    s.append(" за ");
    s.append(date);
    s.append(" · период: ");
    match status {
        Status::Writing => {
            s.append("с ");
            s.append(start);
            s.append(" · ");
            s.append(MARK_WRITING);
        },
        Status::Closed => {
            s.append(start);
            s.append(" — ");
            s.append(end);
            s.append(" · ");
            s.append(MARK_CLOSED);
        },
        Status::CutShort => {
            s.append(start);
            s.append(" — ");
            s.append(end);
            s.append(" · ");
            s.append(MARK_CUT_SHORT);
        },
    }
    assert(s@ =~= header_text(version@, date@, n, start@, end@, status));
    s
}

/// The first line of a log file, always exactly `HEADER_BYTES` bytes ending
/// in a newline: that fixed size is what lets closing a file rewrite it in
/// place without touching the first entry after it.
pub fn render_header(version: &str, date: &str, n: u32, start: &str, end: &str, status: Status) -> (b: Vec<u8>)
    ensures
        b@ == spec_header_bytes(header_text(version@, date@, n, start@, end@, status)),
        b@.len() == HEADER_BYTES,
        b@[HEADER_BYTES - 1] == 10u8,
        vstd::utf8::valid_utf8(b@),
{
    let text = header_string(version, date, n, start, end, status);
    let t = text.as_str();
    let bytes = t.as_bytes();
    let ghost eb = vstd::utf8::encode_utf8(t@);
    assert(bytes@ == eb);
    let cut: usize = if bytes.len() <= HEADER_BYTES - 1 {
        bytes.len()
    } else {
        let mut k: usize = HEADER_BYTES - 1;
        while k > 0 && !t.is_char_boundary(k)
            invariant
                k <= HEADER_BYTES - 1,
                eb == t.spec_bytes(),
                boundary_at_or_below(eb, k as int) == boundary_at_or_below(eb, HEADER_BYTES - 1),
            decreases k,
        {
            k -= 1;
        }
        k
    };
    proof {
        lemma_boundary_range(eb, HEADER_BYTES - 1);
    }
    assert(cut == header_cut(eb));
    let mut out: Vec<u8> = Vec::new();
    let mut i: usize = 0;
    while i < cut
        invariant
            cut <= bytes@.len(),
            cut <= HEADER_BYTES - 1,
            i <= cut,
            out@ == bytes@.take(i as int),
        decreases cut - i,
    {
        out.push(bytes[i]);
        assert(out@ =~= bytes@.take(i + 1));
        i += 1;
    }
    while i < HEADER_BYTES - 1
        invariant
            cut <= i <= HEADER_BYTES - 1,
            out@ == bytes@.take(cut as int) + Seq::new((i - cut) as nat, |j: int| 32u8),
        decreases HEADER_BYTES - 1 - i,
    {
        out.push(32u8);
        assert(out@ =~= bytes@.take(cut as int) + Seq::new((i + 1 - cut) as nat, |j: int| 32u8));
        i += 1;
    }
    out.push(10u8);
    assert(out@ =~= spec_header_bytes(header_text(version@, date@, n, start@, end@, status)));
    proof {
        lemma_every_header_is_utf8(header_text(version@, date@, n, start@, end@, status));
    }
    out
}

/// A header's status by its marks; the cut-short wording is tested before
/// the closed one, since "закрыть" in it holds "закрыт".
pub open spec fn spec_header_status(h: Seq<char>) -> Option<Status> {
    if contains_seq(h, "ещё пишется"@) {
        Some(Status::Writing)
    } else if contains_seq(h, "оборван"@) {
        Some(Status::CutShort)
    } else if contains_seq(h, "закрыт"@) {
        Some(Status::Closed)
    } else {
        None
    }
}

/// The status a header states, if any.
pub fn header_status(header: &str) -> (r: Option<Status>)
    ensures
        r == spec_header_status(header@),
{
    if str_contains(header, MARK_WRITING) {
        Some(Status::Writing)
    } else if str_contains(header, "оборван") {
        Some(Status::CutShort)
    } else if str_contains(header, MARK_CLOSED) {
        Some(Status::Closed)
    } else {
        None
    }
}


/// `p` is the first position where `needle` occurs in `hay`.
pub open spec fn first_at(hay: Seq<char>, needle: Seq<char>, p: int) -> bool {
    occurs_at(hay, needle, p) && forall|j: int| 0 <= j < p ==> !occurs_at(hay, needle, j)
}

/// `hay` up to the first `needle`, or all of it when there is none.
pub open spec fn before_first(hay: Seq<char>, needle: Seq<char>) -> Seq<char> {
    if contains_seq(hay, needle) {
        hay.take(choose|p: int| first_at(hay, needle, p))
    } else {
        hay
    }
}

/// `hay` after the first `needle` (`None` when there is none).
pub open spec fn after_first(hay: Seq<char>, needle: Seq<char>) -> Option<Seq<char>> {
    if contains_seq(hay, needle) {
        Some(hay.skip((choose|p: int| first_at(hay, needle, p)) + needle.len()))
    } else {
        None
    }
}

proof fn lemma_first_at_unique(hay: Seq<char>, needle: Seq<char>, p: int, q: int)
    requires
        first_at(hay, needle, p),
        first_at(hay, needle, q),
    ensures
        p == q,
{
    if p < q {
        assert(!occurs_at(hay, needle, p));
    } else if q < p {
        assert(!occurs_at(hay, needle, q));
    }
}

/// The first position of `needle` in `hay`, as `first_at` states it.
fn first_position(hay: &Vec<char>, needle: &str) -> (r: Option<usize>)
    ensures
        match r {
            Some(p) => first_at(hay@, needle@, p as int) && (choose|q: int| first_at(hay@, needle@, q))
                == p,
            None => !contains_seq(hay@, needle@),
        },
{
    let nv = chars_of(needle);
    match crate::text::find_seq(hay, &nv) {
        Some(p) => {
            proof {
                let q = choose|q: int| first_at(hay@, needle@, q);
                assert(first_at(hay@, needle@, p as int));
                lemma_first_at_unique(hay@, needle@, p as int, q);
            }
            Some(p)
        },
        None => None,
    }
}

/// `c[from..to]` as a string.
fn string_of(c: &Vec<char>, from: usize, to: usize) -> (s: String)
    requires
        from <= to <= c@.len(),
    ensures
        s@ == c@.subrange(from as int, to as int),
{
    let mut s = String::new();
    let mut i: usize = from;
    while i < to
        invariant
            from <= i <= to <= c@.len(),
            s@ == c@.subrange(from as int, i as int),
        decreases to - i,
    {
        push_char(&mut s, c[i]);
        assert(s@ =~= c@.subrange(from as int, i + 1));
        i += 1;
    }
    s
}

/// The version a header names: what follows `# Nodus ` up to the first
/// ` · `.
pub open spec fn spec_header_version(h: Seq<char>) -> Option<Seq<char>> {
    if h.len() >= 8 && h.take(8) == "# Nodus "@ {
        Some(before_first(h.skip(8), " · "@))
    } else {
        None
    }
}

/// The version a header names, if it is one of ours.
pub fn header_version(header: &str) -> (r: Option<String>)
    ensures
        match r {
            Some(v) => spec_header_version(header@) == Some(v@),
            None => spec_header_version(header@) is None,
        },
{
    let c = chars_of(header);
    proof {
        reveal_strlit("# Nodus ");
    }
    if c.len() < 8 || !chars_match(&c, 0, "# Nodus ") {
        proof {
            if c@.len() >= 8 {
                assert(c@.take(8) =~= c@.subrange(0, 8));
            }
        }
        return None;
    }
    assert(c@.take(8) =~= c@.subrange(0, 8));
    let rest = string_of(&c, 8, c.len());
    let rv = chars_of(rest.as_str());
    assert(rv@ =~= c@.skip(8));
    match first_position(&rv, " · ") {
        Some(p) => Some(string_of(&rv, 0, p)),
        None => Some(rest),
    }
}

/// The start time a header records (`HH:MM:SS`, after `период: `, in
/// either the open wording with `с ` or the closed one), when it reads as a
/// time.
pub open spec fn spec_header_start(h: Seq<char>) -> Option<Seq<char>> {
    match after_first(h, "период: "@) {
        Some(after) => {
            let piece = before_first(after, "период: "@);
            let a = if piece.len() >= 2 && piece.take(2) == "с "@ {
                piece.skip(2)
            } else {
                piece
            };
            if a.len() >= 8 && spec_from_parts("2000-01-01"@, a.take(8)) is Some {
                Some(a.take(8))
            } else {
                None
            }
        },
        None => None,
    }
}

/// The start time a header records, if it has one.
pub fn header_start(header: &str) -> (r: Option<String>)
    ensures
        match r {
            Some(v) => spec_header_start(header@) == Some(v@),
            None => spec_header_start(header@) is None,
        },
{
    let c = chars_of(header);
    proof {
        reveal_strlit("период: ");
    }
    let clen = c.len();
    let p = match first_position(&c, "период: ") {
        Some(p) => p,
        None => {
            return None;
        },
    };
    assert(p + 8 <= clen);
    let after = string_of(&c, p + 8, c.len());
    let av = chars_of(after.as_str());
    assert(av@ =~= c@.skip(p + 8));
    let piece_end = match first_position(&av, "период: ") {
        Some(q) => q,
        None => av.len(),
    };
    let pv = chars_of(string_of(&av, 0, piece_end).as_str());
    assert(pv@ == before_first(av@, "период: "@));
    proof {
        reveal_strlit("с ");
    }
    let skip: usize = if pv.len() >= 2 && chars_match(&pv, 0, "с ") {
        assert(pv@.take(2) =~= pv@.subrange(0, 2));
        2
    } else {
        proof {
            if pv@.len() >= 2 {
                assert(pv@.take(2) =~= pv@.subrange(0, 2));
            }
        }
        0
    };
    if pv.len() < skip + 8 {
        return None;
    }
    let hms = string_of(&pv, skip, skip + 8);
    assert(hms@ =~= pv@.skip(skip as int).take(8));
    match Stamp::from_parts("2000-01-01", hms.as_str()) {
        Some(_) => Some(hms),
        None => None,
    }
}

// ── Reading a header back ───────────────────────────────────────────────────

/// The line a header's text fills when it fits: the text, spaces up to the
/// reserved size, and the newline.
pub open spec fn padded_header(text: Seq<char>) -> Seq<char> {
    text + Seq::new((HEADER_BYTES - 1 - vstd::utf8::encode_utf8(text).len()) as nat, |i: int| ' ')
        + seq!['\n']
}

/// `s` holds no `c`.
pub open spec fn lacks(s: Seq<char>, c: char) -> bool {
    forall|i: int| 0 <= i < s.len() ==> s[i] != c
}

/// `s` holds `c` at `k` and nowhere else.
pub open spec fn only_at(s: Seq<char>, c: char, k: int) -> bool {
    &&& 0 <= k < s.len()
    &&& s[k] == c
    &&& forall|i: int| 0 <= i < s.len() && s[i] == c ==> i == k
}

proof fn lemma_encode_concat(a: Seq<char>, b: Seq<char>)
    ensures
        vstd::utf8::encode_utf8(a + b) == vstd::utf8::encode_utf8(a) + vstd::utf8::encode_utf8(b),
    decreases a.len(),
{
    if a.len() == 0 {
        assert(a + b =~= b);
        assert(vstd::utf8::encode_utf8(a) =~= Seq::<u8>::empty());
        assert(vstd::utf8::encode_utf8(a) + vstd::utf8::encode_utf8(b) =~= vstd::utf8::encode_utf8(b));
    } else {
        assert((a + b).drop_first() =~= a.drop_first() + b);
        assert((a + b)[0] == a[0]);
        lemma_encode_concat(a.drop_first(), b);
        assert(vstd::utf8::encode_utf8(a + b) =~= vstd::utf8::encode_utf8(a) + vstd::utf8::encode_utf8(b));
    }
}

proof fn lemma_encode_ascii_char(c: char)
    requires
        (c as u32) < 0x80,
    ensures
        vstd::utf8::encode_scalar(c as u32) == seq![(c as u32) as u8],
{
    let v = c as u32;
    assert(vstd::utf8::has_width_1_encoding(v));
    assert(vstd::utf8::leading_byte_width_1(v) == v as u8) by (bit_vector)
        requires
            v < 0x80,
    ;
}

proof fn lemma_encode_spaces(k: nat)
    ensures
        vstd::utf8::encode_utf8(Seq::new(k, |i: int| ' ')) == Seq::new(k, |i: int| 32u8),
    decreases k,
{
    let sp = Seq::new(k, |i: int| ' ');
    if k == 0 {
        assert(vstd::utf8::encode_utf8(sp) =~= Seq::new(k, |i: int| 32u8));
    } else {
        assert(sp.drop_first() =~= Seq::new((k - 1) as nat, |i: int| ' '));
        lemma_encode_spaces((k - 1) as nat);
        lemma_encode_ascii_char(' ');
        assert(vstd::utf8::encode_utf8(sp) =~= Seq::new(k, |i: int| 32u8));
    }
}

/// A header whose text fits in its line is valid UTF-8, and it reads back as
/// that text padded with spaces up to the newline.
pub proof fn lemma_header_is_utf8(text: Seq<char>)
    requires
        vstd::utf8::encode_utf8(text).len() <= HEADER_BYTES - 1,
    ensures
        vstd::utf8::valid_utf8(spec_header_bytes(text)),
        vstd::utf8::decode_utf8(spec_header_bytes(text)) == padded_header(text),
{
    let b = vstd::utf8::encode_utf8(text);
    let k = (HEADER_BYTES - 1 - b.len()) as nat;
    let sp = Seq::new(k, |i: int| ' ');
    lemma_encode_spaces(k);
    lemma_encode_concat(text, sp);
    lemma_encode_concat(text + sp, seq!['\n']);
    lemma_encode_ascii_char('\n');
    assert(vstd::utf8::encode_utf8(seq!['\n']) =~= seq![10u8]) by {
        let nl = seq!['\n'];
        assert(nl.drop_first() =~= Seq::<char>::empty());
        assert(vstd::utf8::encode_utf8(nl.drop_first()) =~= Seq::<u8>::empty());
        assert(nl[0] == '\n');
        assert(('\n' as u32) == 10);
        assert(vstd::utf8::encode_utf8(nl) == vstd::utf8::encode_scalar(nl[0] as u32) + vstd::utf8::encode_utf8(nl.drop_first()));
    }
    assert(b.take(b.len() as int) =~= b);
    assert(spec_header_bytes(text) =~= vstd::utf8::encode_utf8(padded_header(text)));
    vstd::utf8::encode_utf8_valid_utf8(padded_header(text));
    vstd::utf8::encode_utf8_decode_utf8(padded_header(text));
}

proof fn lemma_lacks_concat(a: Seq<char>, b: Seq<char>, c: char)
    requires
        lacks(a, c),
        lacks(b, c),
    ensures
        lacks(a + b, c),
{
    assert forall|i: int| 0 <= i < (a + b).len() implies (a + b)[i] != c by {
        if i < a.len() {
            assert((a + b)[i] == a[i]);
        } else {
            assert((a + b)[i] == b[i - a.len()]);
        }
    }
}

proof fn lemma_only_left(a: Seq<char>, b: Seq<char>, c: char, k: int)
    requires
        only_at(a, c, k),
        lacks(b, c),
    ensures
        only_at(a + b, c, k),
{
    assert((a + b)[k] == a[k]);
    assert forall|i: int| 0 <= i < (a + b).len() && (a + b)[i] == c implies i == k by {
        if i < a.len() {
            assert((a + b)[i] == a[i]);
        } else {
            assert((a + b)[i] == b[i - a.len()]);
        }
    }
}

proof fn lemma_only_right(a: Seq<char>, b: Seq<char>, c: char, k: int)
    requires
        lacks(a, c),
        only_at(b, c, k),
    ensures
        only_at(a + b, c, a.len() + k),
{
    assert((a + b)[a.len() + k] == b[k]);
    assert forall|i: int| 0 <= i < (a + b).len() && (a + b)[i] == c implies i == a.len() + k by {
        if i < a.len() {
            assert((a + b)[i] == a[i]);
        } else {
            assert((a + b)[i] == b[i - a.len()]);
        }
    }
}

proof fn lemma_ascii_lacks(s: Seq<char>, c: char)
    requires
        all_ascii(s),
        (c as u32) > 0x7F,
    ensures
        lacks(s, c),
{
    assert forall|i: int| 0 <= i < s.len() implies s[i] != c by {
        assert((s[i] as u32) <= 0x7F);
    }
}

/// A needle holding a character the text lacks does not occur in it.
proof fn lemma_no_occurrence(hay: Seq<char>, needle: Seq<char>, k: int)
    requires
        0 <= k < needle.len(),
        lacks(hay, needle[k]),
    ensures
        !contains_seq(hay, needle),
{
    if contains_seq(hay, needle) {
        let p = choose|p: int| occurs_at(hay, needle, p);
        assert(hay.subrange(p, p + needle.len())[k] == hay[p + k]);
    }
}

/// An occurrence whose `k`-th character stands where the text has the only
/// one of it is the first.
proof fn lemma_sole_occurrence(hay: Seq<char>, needle: Seq<char>, k: int, p: int)
    requires
        occurs_at(hay, needle, p),
        0 <= k < needle.len(),
        only_at(hay, needle[k], p + k),
    ensures
        first_at(hay, needle, p),
{
    assert forall|j: int| 0 <= j < p implies !occurs_at(hay, needle, j) by {
        if occurs_at(hay, needle, j) {
            assert(hay.subrange(j, j + needle.len())[k] == hay[j + k]);
        }
    }
}

proof fn lemma_boundary_is_boundary(b: Seq<u8>, k: int)
    requires
        vstd::utf8::valid_utf8(b),
        0 <= k,
    ensures
        vstd::utf8::is_char_boundary(b, boundary_at_or_below(b, k)),
    decreases k,
{
    if k > 0 && !vstd::utf8::is_char_boundary(b, k) {
        lemma_boundary_is_boundary(b, k - 1);
    }
}

/// Every header's line is valid UTF-8, a cut one too: the text is cut at a
/// character boundary before the spaces and the newline.
pub proof fn lemma_every_header_is_utf8(text: Seq<char>)
    ensures
        vstd::utf8::valid_utf8(spec_header_bytes(text)),
{
    let b = vstd::utf8::encode_utf8(text);
    vstd::utf8::encode_utf8_valid_utf8(text);
    let c = header_cut(b);
    if b.len() > HEADER_BYTES - 1 {
        lemma_boundary_is_boundary(b, HEADER_BYTES - 1);
        lemma_boundary_range(b, HEADER_BYTES - 1);
    } else {
        assert(b.subrange(0, b.len() as int) =~= b);
    }
    assert(vstd::utf8::valid_utf8(b.subrange(0, c))) by {
        if b.len() > HEADER_BYTES - 1 {
            vstd::utf8::valid_utf8_split(b, c);
        }
    }
    assert(b.take(c) =~= b.subrange(0, c));
    let k = (HEADER_BYTES - 1 - c) as nat;
    let sp = Seq::new(k, |i: int| ' ');
    lemma_encode_spaces(k);
    lemma_encode_concat(sp, seq!['\n']);
    lemma_encode_ascii_char('\n');
    assert(vstd::utf8::encode_utf8(seq!['\n']) =~= seq![10u8]) by {
        let nl = seq!['\n'];
        assert(nl.drop_first() =~= Seq::<char>::empty());
        assert(vstd::utf8::encode_utf8(nl.drop_first()) =~= Seq::<u8>::empty());
        assert(vstd::utf8::encode_utf8(nl) == vstd::utf8::encode_scalar(nl[0] as u32) + vstd::utf8::encode_utf8(nl.drop_first()));
    }
    let tail = Seq::new(k, |i: int| 32u8) + seq![10u8];
    assert(vstd::utf8::encode_utf8(sp + seq!['\n']) =~= tail);
    vstd::utf8::encode_utf8_valid_utf8(sp + seq!['\n']);
    vstd::utf8::valid_utf8_concat(b.take(c), tail);
    assert(spec_header_bytes(text) =~= b.take(c) + tail);
}

/// The head holds one 'д', the one in "период", three from its end.
proof fn lemma_head_one_de(version: Seq<char>, date: Seq<char>, n: u32)
    requires
        all_ascii(version),
        all_ascii(date),
    ensures
        only_at(header_head(version, date, n), 'д', header_head(version, date, n).len() - 3),
        header_head(version, date, n).len() >= 11,
{
    reveal_strlit("# Nodus ");
    reveal_strlit(" · лог n");
    reveal_strlit(" за ");
    reveal_strlit(" · период: ");
    let dd = 'д';
    let digits = dec_digits(n as nat);
    crate::text::lemma_dec_roundtrip(n as nat);
    assert(lacks(digits, dd)) by {
        assert forall|i: int| 0 <= i < digits.len() implies digits[i] != dd by {
            assert(is_ascii_digit(digits[i]));
        }
    }
    lemma_ascii_lacks(version, dd);
    lemma_ascii_lacks(date, dd);
    let l0 = "# Nodus "@;
    let l1 = " · лог n"@;
    let l2 = " за "@;
    let l3 = " · период: "@;
    assert(lacks(l0, dd));
    assert(lacks(l1, dd));
    assert(lacks(l2, dd));
    assert(only_at(l3, dd, 8));
    lemma_lacks_concat(l0, version, dd);
    lemma_lacks_concat(l0 + version, l1, dd);
    lemma_lacks_concat(l0 + version + l1, digits, dd);
    lemma_lacks_concat(l0 + version + l1 + digits, l2, dd);
    lemma_lacks_concat(l0 + version + l1 + digits + l2, date, dd);
    lemma_only_right(l0 + version + l1 + digits + l2 + date, l3, dd, 8);
}

/// The head ends with "период: ".
proof fn lemma_head_ends_with_span(version: Seq<char>, date: Seq<char>, n: u32)
    ensures
        header_head(version, date, n).len() >= 8,
        header_head(version, date, n).subrange(
            header_head(version, date, n).len() - 8,
            header_head(version, date, n).len() as int,
        ) == "период: "@,
{
    reveal_strlit(" · период: ");
    reveal_strlit("период: ");
    let pre = "# Nodus "@ + version + " · лог n"@ + dec_digits(n as nat) + " за "@ + date;
    let hd = header_head(version, date, n);
    assert(hd.subrange(hd.len() - 8, hd.len() as int) =~= "период: "@);
}

/// The span's wording holds no 'д', no 'щ' unless it is still being
/// written, and no 'б' when it was closed properly.
proof fn lemma_tail_chars(start: Seq<char>, end: Seq<char>, status: Status)
    requires
        all_ascii(start),
        all_ascii(end),
    ensures
        lacks(header_tail(start, end, status), 'д'),
        status != Status::Writing ==> lacks(header_tail(start, end, status), 'щ'),
        status == Status::Closed ==> lacks(header_tail(start, end, status), 'б'),
{
    reveal_strlit("с ");
    reveal_strlit(" · ");
    reveal_strlit(" — ");
    reveal_strlit("ещё пишется");
    reveal_strlit("закрыт");
    reveal_strlit("оборван (Nodus не успел закрыть лог: сбой или выключение компьютера)");
    let t = header_tail(start, end, status);
    assert forall|c: char| (c as u32) > 0x7F implies lacks(start, c) && lacks(end, c) by {
        lemma_ascii_lacks(start, c);
        lemma_ascii_lacks(end, c);
    }
    match status {
        Status::Writing => {
            let dd = 'д';
            lemma_ascii_lacks(start, dd);
            lemma_lacks_concat("с "@, start, dd);
            lemma_lacks_concat("с "@ + start, " · "@, dd);
            lemma_lacks_concat("с "@ + start + " · "@, "ещё пишется"@, dd);
        },
        Status::Closed => {
            let w = "закрыт"@;
            assert forall|c: char| c == 'д' || c == 'щ' || c == 'б' implies lacks(t, c) by {
                lemma_ascii_lacks(start, c);
                lemma_ascii_lacks(end, c);
                lemma_lacks_concat(start, " — "@, c);
                lemma_lacks_concat(start + " — "@, end, c);
                lemma_lacks_concat(start + " — "@ + end, " · "@, c);
                lemma_lacks_concat(start + " — "@ + end + " · "@, w, c);
            }
        },
        Status::CutShort => {
            let w = "оборван (Nodus не успел закрыть лог: сбой или выключение компьютера)"@;
            assert forall|c: char| c == 'д' || c == 'щ' implies lacks(t, c) by {
                lemma_ascii_lacks(start, c);
                lemma_ascii_lacks(end, c);
                lemma_lacks_concat(start, " — "@, c);
                lemma_lacks_concat(start + " — "@, end, c);
                lemma_lacks_concat(start + " — "@ + end, " · "@, c);
                lemma_lacks_concat(start + " — "@ + end + " · "@, w, c);
            }
        },
    }
}

/// A header whose text fits in its line, with ASCII fields and a start that
/// reads as a time, gives back the start it was rendered with.
pub proof fn lemma_header_start_reads_back(
    version: Seq<char>,
    date: Seq<char>,
    n: u32,
    start: Seq<char>,
    end: Seq<char>,
    status: Status,
)
    requires
        all_ascii(version),
        all_ascii(date),
        all_ascii(start),
        all_ascii(end),
        start.len() == 8,
        spec_from_parts("2000-01-01"@, start) is Some,
        vstd::utf8::encode_utf8(header_text(version, date, n, start, end, status)).len() <= HEADER_BYTES - 1,
    ensures
        spec_header_start(padded_header(header_text(version, date, n, start, end, status))) == Some(start),
{
    let text = header_text(version, date, n, start, end, status);
    let head = header_head(version, date, n);
    let tail = header_tail(start, end, status);
    let h = head.len() as int;
    let dd = 'д';
    lemma_head_one_de(version, date, n);
    lemma_head_ends_with_span(version, date, n);
    lemma_tail_chars(start, end, status);
    let sp = Seq::new((HEADER_BYTES - 1 - vstd::utf8::encode_utf8(text).len()) as nat, |i: int| ' ');
    let nl = seq!['\n'];
    let rest = tail + sp + nl;
    let padded = padded_header(text);
    assert(padded =~= head + rest);
    assert(lacks(sp, dd));
    assert(lacks(nl, dd));
    lemma_lacks_concat(tail, sp, dd);
    lemma_lacks_concat(tail + sp, nl, dd);
    lemma_only_left(head, rest, dd, h - 3);
    reveal_strlit("период: ");
    let needle = "период: "@;
    assert(needle[5] == dd);
    assert(padded.subrange(h - 8, h) =~= head.subrange(h - 8, h));
    assert(occurs_at(padded, needle, h - 8));
    lemma_sole_occurrence(padded, needle, 5, h - 8);
    let p = choose|p: int| first_at(padded, needle, p);
    lemma_first_at_unique(padded, needle, p, h - 8);
    assert(padded.skip(h) =~= rest);
    assert(after_first(padded, needle) == Some(rest));
    lemma_no_occurrence(rest, needle, 5);
    assert(before_first(rest, needle) == rest);
    reveal_strlit("с ");
    reveal_strlit(" · ");
    reveal_strlit(" — ");
    match status {
        Status::Writing => {
            assert(rest.take(2) =~= "с "@);
            assert(rest.skip(2).take(8) =~= start);
        },
        _ => {
            assert(rest.take(2) != "с "@) by {
                assert((start[0] as u32) <= 0x7F);
                assert(rest.take(2)[0] == start[0]);
            }
            assert(rest.take(8) =~= start);
        },
    }
}

/// The head holds neither 'щ' nor 'б'.
proof fn lemma_head_lacks(version: Seq<char>, date: Seq<char>, n: u32, c: char)
    requires
        all_ascii(version),
        all_ascii(date),
        c == 'щ' || c == 'б',
    ensures
        lacks(header_head(version, date, n), c),
{
    reveal_strlit("# Nodus ");
    reveal_strlit(" · лог n");
    reveal_strlit(" за ");
    reveal_strlit(" · период: ");
    let digits = dec_digits(n as nat);
    crate::text::lemma_dec_roundtrip(n as nat);
    assert(lacks(digits, c)) by {
        assert forall|i: int| 0 <= i < digits.len() implies digits[i] != c by {
            assert(is_ascii_digit(digits[i]));
        }
    }
    lemma_ascii_lacks(version, c);
    lemma_ascii_lacks(date, c);
    let l0 = "# Nodus "@;
    let l1 = " · лог n"@;
    let l2 = " за "@;
    let l3 = " · период: "@;
    assert(lacks(l0, c));
    assert(lacks(l1, c));
    assert(lacks(l2, c));
    assert(lacks(l3, c));
    lemma_lacks_concat(l0, version, c);
    lemma_lacks_concat(l0 + version, l1, c);
    lemma_lacks_concat(l0 + version + l1, digits, c);
    lemma_lacks_concat(l0 + version + l1 + digits, l2, c);
    lemma_lacks_concat(l0 + version + l1 + digits + l2, date, c);
    lemma_lacks_concat(l0 + version + l1 + digits + l2 + date, l3, c);
}

/// The padding after a header's text holds only spaces and the newline.
proof fn lemma_padded_lacks(text: Seq<char>, c: char)
    requires
        lacks(text, c),
        (c as u32) > 0x7F,
    ensures
        lacks(padded_header(text), c),
{
    let sp = Seq::new((HEADER_BYTES - 1 - vstd::utf8::encode_utf8(text).len()) as nat, |i: int| ' ');
    let nl = seq!['\n'];
    assert(lacks(sp, c));
    assert(lacks(nl, c));
    lemma_lacks_concat(text, sp, c);
    lemma_lacks_concat(text + sp, nl, c);
}

/// A header whose text fits in its line, with ASCII fields, gives back the
/// status it was rendered with.
pub proof fn lemma_header_status_reads_back(
    version: Seq<char>,
    date: Seq<char>,
    n: u32,
    start: Seq<char>,
    end: Seq<char>,
    status: Status,
)
    requires
        all_ascii(version),
        all_ascii(date),
        all_ascii(start),
        all_ascii(end),
        vstd::utf8::encode_utf8(header_text(version, date, n, start, end, status)).len() <= HEADER_BYTES - 1,
    ensures
        spec_header_status(padded_header(header_text(version, date, n, start, end, status))) == Some(status),
{
    let text = header_text(version, date, n, start, end, status);
    let head = header_head(version, date, n);
    let tail = header_tail(start, end, status);
    let padded = padded_header(text);
    let t = text.len() as int;
    assert(padded.subrange(0, t) =~= text);
    reveal_strlit("ещё пишется");
    reveal_strlit("закрыт");
    reveal_strlit("оборван");
    reveal_strlit("оборван (Nodus не успел закрыть лог: сбой или выключение компьютера)");
    lemma_tail_chars(start, end, status);
    match status {
        Status::Writing => {
            let w = "ещё пишется"@;
            assert(padded.subrange(t - 11, t) =~= w);
            assert(occurs_at(padded, w, t - 11));
        },
        Status::Closed => {
            lemma_head_lacks(version, date, n, 'щ');
            lemma_head_lacks(version, date, n, 'б');
            lemma_lacks_concat(head, tail, 'щ');
            lemma_lacks_concat(head, tail, 'б');
            lemma_padded_lacks(text, 'щ');
            lemma_padded_lacks(text, 'б');
            assert("ещё пишется"@[1] == 'щ');
            lemma_no_occurrence(padded, "ещё пишется"@, 1);
            assert("оборван"@[1] == 'б');
            lemma_no_occurrence(padded, "оборван"@, 1);
            let w = "закрыт"@;
            assert(padded.subrange(t - 6, t) =~= w);
            assert(occurs_at(padded, w, t - 6));
        },
        Status::CutShort => {
            lemma_head_lacks(version, date, n, 'щ');
            lemma_lacks_concat(head, tail, 'щ');
            lemma_padded_lacks(text, 'щ');
            assert("ещё пишется"@[1] == 'щ');
            lemma_no_occurrence(padded, "ещё пишется"@, 1);
            let cut = "оборван (Nodus не успел закрыть лог: сбой или выключение компьютера)"@;
            let q = t - cut.len();
            assert(padded.subrange(q, q + 7) =~= "оборван"@);
            assert(occurs_at(padded, "оборван"@, q));
        },
    }
}

/// A header whose text fits in its line, with ASCII fields and a start that
/// reads as a time, reads back as it was written: its line is valid UTF-8,
/// and the status and the start read from it are those it was rendered
/// with.
pub proof fn lemma_header_reads_back(
    version: Seq<char>,
    date: Seq<char>,
    n: u32,
    start: Seq<char>,
    end: Seq<char>,
    status: Status,
)
    requires
        all_ascii(version),
        all_ascii(date),
        all_ascii(start),
        all_ascii(end),
        start.len() == 8,
        spec_from_parts("2000-01-01"@, start) is Some,
        vstd::utf8::encode_utf8(header_text(version, date, n, start, end, status)).len() <= HEADER_BYTES - 1,
    ensures
        vstd::utf8::valid_utf8(spec_header_bytes(header_text(version, date, n, start, end, status))),
        vstd::utf8::decode_utf8(spec_header_bytes(header_text(version, date, n, start, end, status))) == padded_header(
            header_text(version, date, n, start, end, status),
        ),
        spec_header_status(padded_header(header_text(version, date, n, start, end, status))) == Some(status),
        spec_header_start(padded_header(header_text(version, date, n, start, end, status))) == Some(start),
{
    lemma_header_is_utf8(header_text(version, date, n, start, end, status));
    lemma_header_status_reads_back(version, date, n, start, end, status);
    lemma_header_start_reads_back(version, date, n, start, end, status);
}

// ── Entries ─────────────────────────────────────────────────────────────────

/// A log line starts with its timestamp: `YYYY-MM-DD HH:MM:SS`.
pub open spec fn entry_shape(l: Seq<u8>) -> bool {
    &&& l.len() >= 19
    &&& l[4] == 45u8 && l[7] == 45u8 && l[10] == 32u8 && l[13] == 58u8 && l[16] == 58u8
    &&& forall|i: int|
        0 <= i < 19 && i != 4 && i != 7 && i != 10 && i != 13 && i != 16 ==> 48 <= #[trigger] l[i]
            <= 57
}

/// The `HH:MM:SS` of a line that starts with a timestamp. Continuation lines
/// (a multi-line message, a backtrace) carry none.
pub open spec fn spec_entry_time(l: Seq<u8>) -> Option<Seq<char>> {
    if entry_shape(l) {
        Some(Seq::new(8, |i: int| l[11 + i] as char))
    } else {
        None
    }
}

/// The time a log line starts with, if any.
pub fn entry_time(line: &[u8]) -> (r: Option<String>)
    ensures
        match r {
            Some(t) => spec_entry_time(line@) == Some(t@),
            None => spec_entry_time(line@) is None,
        },
{
    if line.len() < 19 {
        return None;
    }
    if line[4] != 45 || line[7] != 45 || line[10] != 32 || line[13] != 58 || line[16] != 58 {
        return None;
    }
    let mut i: usize = 0;
    while i < 19
        invariant
            line@.len() >= 19,
            i <= 19,
            forall|j: int|
                0 <= j < i && j != 4 && j != 7 && j != 10 && j != 13 && j != 16 ==> 48
                    <= #[trigger] line@[j] <= 57,
        decreases 19 - i,
    {
        if i != 4 && i != 7 && i != 10 && i != 13 && i != 16 && !(48 <= line[i] && line[i] <= 57) {
            return None;
        }
        i += 1;
    }
    let mut s = String::new();
    let mut k: usize = 0;
    while k < 8
        invariant
            line@.len() >= 19,
            k <= 8,
            s@ == Seq::new(k as nat, |j: int| line@[11 + j] as char),
        decreases 8 - k,
    {
        push_char(&mut s, line[11 + k] as char);
        assert(s@ =~= Seq::new((k + 1) as nat, |j: int| line@[11 + j] as char));
        k += 1;
    }
    Some(s)
}

/// Where the line starting at `s` ends: its newline, or the end.
pub open spec fn line_end(t: Seq<u8>, s: int) -> int
    decreases t.len() - s,
{
    if s >= t.len() || s < 0 {
        t.len() as int
    } else if t[s] == 10u8 {
        s
    } else {
        line_end(t, s + 1)
    }
}

/// A line starts at `s`: the beginning, or right after a newline (so text
/// ending in a newline ends with an empty line, as splitting gives).
pub open spec fn is_line_start(t: Seq<u8>, s: int) -> bool {
    s == 0 || (1 <= s <= t.len() && t[s - 1] == 10u8)
}

/// The line starting at `s`, without its newline.
pub open spec fn line_at(t: Seq<u8>, s: int) -> Seq<u8> {
    t.subrange(s, line_end(t, s))
}

proof fn lemma_line_end(t: Seq<u8>, s: int, e: int)
    requires
        0 <= s <= e <= t.len(),
        e == t.len() || t[e] == 10u8,
        forall|i: int| s <= i < e ==> t[i] != 10u8,
    ensures
        line_end(t, s) == e,
    decreases e - s,
{
    if s < e {
        lemma_line_end(t, s + 1, e);
    }
}

/// The time of the last line of `tail` that starts with a timestamp.
pub fn last_entry_in(tail: &[u8]) -> (r: Option<String>)
    ensures
        match r {
            Some(x) => exists|s: int|
                is_line_start(tail@, s) && spec_entry_time(line_at(tail@, s)) == Some(x@) && forall|s2: int|
                    s < s2 && is_line_start(tail@, s2) ==> #[trigger] spec_entry_time(line_at(tail@, s2)) is None,
            None => forall|s: int|
                is_line_start(tail@, s) ==> #[trigger] spec_entry_time(line_at(tail@, s)) is None,
        },
{
    let len = tail.len();
    let mut e: usize = len;
    loop
        invariant
            len == tail@.len(),
            e <= len,
            e == len || tail@[e as int] == 10u8,
            forall|s2: int|
                e < s2 && is_line_start(tail@, s2) ==> #[trigger] spec_entry_time(line_at(tail@, s2)) is None,
        decreases e,
    {
        let mut s: usize = e;
        while s > 0 && tail[s - 1] != 10
            invariant
                s <= e <= len,
                len == tail@.len(),
                forall|i: int| s <= i < e ==> tail@[i] != 10u8,
            decreases s,
        {
            s -= 1;
        }
        proof {
            lemma_line_end(tail@, s as int, e as int);
        }
        let line = vstd::slice::slice_subrange(tail, s, e);
        assert(line@ =~= line_at(tail@, s as int));
        match entry_time(line) {
            Some(t) => {
                assert(is_line_start(tail@, s as int));
                return Some(t);
            },
            None => {},
        }
        assert forall|s2: int| s <= s2 && is_line_start(tail@, s2) implies #[trigger] spec_entry_time(
            line_at(tail@, s2),
        ) is None by {
            if s < s2 && s2 <= e {
                assert(tail@[s2 - 1] != 10u8);
            }
        }
        if s == 0 {
            assert forall|s2: int| is_line_start(tail@, s2) implies #[trigger] spec_entry_time(
                line_at(tail@, s2),
            ) is None by {
                if s2 < 0 {
                } else {
                    assert(0 <= s2);
                }
            }
            return None;
        }
        e = s - 1;
    }
}

// ── Repair and continuation ─────────────────────────────────────────────────

/// The header a file left "still being written" by a run that never closed
/// it gets on the next launch: cut short, spanning from its recorded start
/// (or `??:??:??`) to its last entry (or its start), under its recorded
/// version (or `?`). Any other header is left alone (`None`).
pub open spec fn spec_repair(header: Seq<char>, date: Seq<char>, n: u32, last: Option<Seq<char>>) -> Option<Seq<u8>> {
    if spec_header_status(header) == Some(Status::Writing) {
        let version = match spec_header_version(header) {
            Some(v) => v,
            None => "?"@,
        };
        let start = match spec_header_start(header) {
            Some(s) => s,
            None => "??:??:??"@,
        };
        let end = match last {
            Some(e) => e,
            None => start,
        };
        Some(spec_header_bytes(header_text(version, date, n, start, end, Status::CutShort)))
    } else {
        None
    }
}

/// The repaired header of a file cut short (see `spec_repair`).
pub fn repair_header(header: &str, date: &str, n: u32, last: Option<&str>) -> (r: Option<Vec<u8>>)
    ensures
        match r {
            Some(b) => spec_repair(header@, date@, n, match last {
                Some(e) => Some(e@),
                None => None,
            }) == Some(b@),
            None => spec_repair(header@, date@, n, match last {
                Some(e) => Some(e@),
                None => None,
            }) is None,
        },
{
    match header_status(header) {
        Some(Status::Writing) => {},
        _ => {
            return None;
        },
    }
    let version = match header_version(header) {
        Some(v) => v,
        None => String::from_str("?"),
    };
    let start = match header_start(header) {
        Some(s) => s,
        None => String::from_str("??:??:??"),
    };
    let b = match last {
        Some(e) => render_header(version.as_str(), date, n, start.as_str(), e, Status::CutShort),
        None => render_header(
            version.as_str(),
            date,
            n,
            start.as_str(),
            start.as_str(),
            Status::CutShort,
        ),
    };
    Some(b)
}

/// What continuing a properly closed file takes: its recorded start, as a
/// stamp on the file's date, and the header that marks it being written
/// again from that start. A header that is not closed, or records no
/// readable start, is not continued (`None`).
pub fn continue_header(header: &str, version: &str, date: &str, n: u32) -> (r: Option<(Stamp, Vec<u8>)>)
    ensures
        match r {
            Some((st, b)) => spec_header_status(header@) == Some(Status::Closed) && exists|hms: Seq<char>|
                spec_header_start(header@) == Some(hms) && spec_from_parts(date@, hms) == Some(st)
                    && b@ == spec_header_bytes(header_text(version@, date@, n, hms, ""@, Status::Writing)),
            None => spec_header_status(header@) != Some(Status::Closed) || spec_header_start(header@)
                is None || spec_from_parts(date@, spec_header_start(header@)->0) is None,
        },
{
    match header_status(header) {
        Some(Status::Closed) => {},
        _ => {
            return None;
        },
    }
    let hms = match header_start(header) {
        Some(h) => h,
        None => {
            return None;
        },
    };
    let start = match Stamp::from_parts(date, hms.as_str()) {
        Some(s) => s,
        None => {
            return None;
        },
    };
    let b = render_header(version, date, n, hms.as_str(), "", Status::Writing);
    Some((start, b))
}

// ── The writer ──────────────────────────────────────────────────────────────

/// The rolling writer's bookkeeping, whatever holds the files: the file
/// being written (its number and when it was started), the time of the
/// last entry, the bytes in the file, and the size a file is cut at.
pub struct LogCursor {
    pub file: Option<(u32, Stamp)>,
    pub last: Stamp,
    pub bytes: u64,
    pub max_bytes: u64,
}

impl LogCursor {
    /// No file yet.
    pub fn new(now: Stamp, max_bytes: u64) -> (c: Self)
        ensures
            c.file is None,
            c.last == now,
            c.bytes == 0,
            c.max_bytes == max_bytes,
    {
        LogCursor { file: None, last: now, bytes: 0, max_bytes }
    }

    /// Starts a new file at `now`, numbered one past the highest of its day
    /// among `files`; returns its number and the header to write first.
    pub fn start_new(&mut self, version: &str, now: Stamp, files: &[LogFileInfo]) -> (r: (u32, Vec<u8>))
        requires
            max_index(files@, spec_date(now)) < u32::MAX,
        ensures
            r.0 == max_index(files@, spec_date(now)) + 1,
            r.1@ == spec_header_bytes(header_text(version@, spec_date(now), r.0, spec_hms(now), ""@, Status::Writing)),
            final(self).file == Some((r.0, now)),
            final(self).last == now,
            final(self).bytes == HEADER_BYTES,
            final(self).max_bytes == old(self).max_bytes,
    {
        let date = now.date();
        let n = next_index(files, date.as_str());
        let h = render_header(version, date.as_str(), n, now.hms().as_str(), "", Status::Writing);
        self.file = Some((n, now));
        self.last = now;
        self.bytes = HEADER_BYTES as u64;
        (n, h)
    }

    /// Carries on in file `n`, started at `start` and holding `bytes`,
    /// whose header was reopened.
    pub fn carry_on(&mut self, n: u32, start: Stamp, now: Stamp, bytes: u64)
        ensures
            final(self).file == Some((n, start)),
            final(self).last == now,
            final(self).bytes == bytes,
            final(self).max_bytes == old(self).max_bytes,
    {
        self.file = Some((n, start));
        self.last = now;
        self.bytes = bytes;
    }

    /// Whether writing `incoming` bytes at `now` opens a new file first (see
    /// `needs_rotation`).
    pub fn rotation_due(&self, now: Stamp, incoming: u64) -> (b: bool)
        ensures
            b == match self.file {
                None => true,
                Some((_, start)) => !(now.year == start.year && now.month == start.month && now.day == start.day)
                    || (self.bytes > HEADER_BYTES && self.bytes + incoming > self.max_bytes),
            },
    {
        match self.file {
            None => needs_rotation(false, &now, &now, self.bytes, incoming, self.max_bytes),
            Some((_, start)) => needs_rotation(true, &now, &start, self.bytes, incoming, self.max_bytes),
        }
    }

    /// Lets the file go; returns the header that stamps it with its real
    /// span (start to last entry) and `status`, when there was one.
    pub fn close(&mut self, version: &str, status: Status) -> (h: Option<Vec<u8>>)
        ensures
            match old(self).file {
                Some((n, start)) => h matches Some(v) && v@ == spec_header_bytes(
                    header_text(version@, spec_date(start), n, spec_hms(start), spec_hms(old(self).last), status),
                ),
                None => h is None,
            },
            final(self).file is None,
            final(self).last == old(self).last,
            final(self).bytes == old(self).bytes,
            final(self).max_bytes == old(self).max_bytes,
    {
        match self.file {
            Some((n, start)) => {
                let h = render_header(
                    version,
                    start.date().as_str(),
                    n,
                    start.hms().as_str(),
                    self.last.hms().as_str(),
                    status,
                );
                self.file = None;
                Some(h)
            },
            None => None,
        }
    }

    /// `len` bytes were written at `now`.
    pub fn wrote(&mut self, now: Stamp, len: u64)
        requires
            old(self).bytes + len <= u64::MAX,
        ensures
            final(self).file == old(self).file,
            final(self).last == now,
            final(self).bytes == old(self).bytes + len,
            final(self).max_bytes == old(self).max_bytes,
    {
        self.bytes = self.bytes + len;
        self.last = now;
    }
}

} // verus!
