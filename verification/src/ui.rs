//! Presentation logic of the viewer that does not draw: dates, text
//! truncation, colours and labels.
use vstd::prelude::*;
use crate::text::{chars_of, decimal, u64_decimal, zero_padded, push_zero_padded, string_of};
use crate::git::{has_prefix, starts_with};

verus! {

/// Within a 400-year era, day `doe` (counted from 1 March) falls in the
/// March-based year that Hinnant's formula gives.
#[verifier::rlimit(100)]
pub proof fn lemma_year_of_era(doe: u64)
    by (bit_vector)
    requires
        doe < 146097,
    ensures
        ({
            let yoe = (doe - doe / 1460 + doe / 36524 - doe / 146096) / 365;
            &&& yoe < 400
            &&& 365 * yoe + yoe / 4 - yoe / 100 <= doe
            &&& doe < 365 * (yoe + 1) + (yoe + 1) / 4 - (yoe + 1) / 100 + (yoe + 1) / 400
        }),
{
}

/// Within a March-based year, day `doy` falls in the month (counted from
/// March) that Hinnant's formula gives.
pub proof fn lemma_month_of_year(doy: u64)
    by (bit_vector)
    requires
        doy < 366,
    ensures
        ({
            let mp = (5 * doy + 2) / 153;
            &&& mp < 12
            &&& (153 * mp + 2) / 5 <= doy
            &&& doy < (153 * (mp + 1) + 2) / 5
        }),
{
}


/// Leap years of the proleptic Gregorian calendar.
pub open spec fn is_leap_year(y: int) -> bool {
    y % 4 == 0 && (y % 100 != 0 || y % 400 == 0)
}

/// The number of days of month `m` (1 to 12) of year `y`.
pub open spec fn days_in_month(y: int, m: int) -> int {
    if m == 2 {
        if is_leap_year(y) {
            29
        } else {
            28
        }
    } else if m == 4 || m == 6 || m == 9 || m == 11 {
        30
    } else {
        31
    }
}

/// The days of year `y` before the first of month `m`.
pub open spec fn days_before_month(y: int, m: int) -> int
    decreases m,
{
    if m <= 1 {
        0
    } else {
        days_before_month(y, m - 1) + days_in_month(y, m - 1)
    }
}

/// The number of leap years among the years 1 to `n` (and its extension
/// to all integers, which keeps `leap_years_through(n) -
/// leap_years_through(n - 1)` the leap-ness of `n`).
pub open spec fn leap_years_through(n: int) -> int {
    n / 4 - n / 100 + n / 400
}

/// The number of days from 1970-01-01 to the date `y`-`m`-`d` (negative
/// before it).
pub open spec fn days_from_civil(y: int, m: int, d: int) -> int {
    365 * (y - 1970) + leap_years_through(y - 1) - leap_years_through(1969) + days_before_month(y, m)
        + d - 1
}

/// A real date: a month from 1 to 12 and a day within it.
pub open spec fn is_valid_date(y: int, m: int, d: int) -> bool {
    1 <= m <= 12 && 1 <= d <= days_in_month(y, m)
}

/// Days from 1 March of year 0 of an era to 1 March of its year `k`.
pub open spec fn era_year_start(k: int) -> int {
    365 * k + k / 4 - k / 100 + k / 400
}

/// Days from 1 March to the first of the `mp`-th month after March.
pub open spec fn march_month_start(mp: int) -> int {
    (153 * mp + 2) / 5
}

/// `days_before_month` in closed form.
proof fn lemma_days_before_month(y: int, m: int)
    requires
        1 <= m <= 12,
    ensures
        days_before_month(y, m) == (if m == 1 {
            0int
        } else if m == 2 {
            31
        } else if m == 3 {
            59
        } else if m == 4 {
            90
        } else if m == 5 {
            120
        } else if m == 6 {
            151
        } else if m == 7 {
            181
        } else if m == 8 {
            212
        } else if m == 9 {
            243
        } else if m == 10 {
            273
        } else if m == 11 {
            304
        } else {
            334
        }) + (if m > 2 && is_leap_year(y) {
            1int
        } else {
            0
        }),
    decreases m,
{
    if m > 1 {
        lemma_days_before_month(y, m - 1);
    }
}

/// Whole eras shift the leap-year count by 97 per era, and keep leap-ness.
proof fn lemma_era_shift(era: int, k: int)
    ensures
        leap_years_through(400 * era + k) == 97 * era + leap_years_through(k),
        is_leap_year(400 * era + k) == is_leap_year(k),
{
    assert((400 * era + k) / 4 == 100 * era + k / 4);
    assert((400 * era + k) / 100 == 4 * era + k / 100);
    assert((400 * era + k) / 400 == era + k / 400);
    assert((400 * era + k) % 4 == k % 4);
    assert((400 * era + k) % 100 == k % 100);
    assert((400 * era + k) % 400 == k % 400);
}

/// Consecutive leap-year counts differ by the leap-ness of the year.
proof fn lemma_leap_step(k: int)
    ensures
        leap_years_through(k) - leap_years_through(k - 1) == (if is_leap_year(k) {
            1int
        } else {
            0
        }),
{
}

/// A day of an era, split into its March-based year `yoe` and day `doy`
/// and that day into month `mp` after March, is the date that
/// `civil_from_days` returns.
proof fn lemma_civil_date(era: int, yoe: int, doy: int, mp: int)
    requires
        0 <= yoe < 400,
        0 <= doy,
        era_year_start(yoe) + doy < era_year_start(yoe + 1),
        0 <= mp < 12,
        march_month_start(mp) <= doy < march_month_start(mp + 1),
    ensures
        ({
            let d = doy - march_month_start(mp) + 1;
            let m = if mp < 10 { mp + 3 } else { mp - 9 };
            let y = 400 * era + yoe + (if m <= 2 { 1int } else { 0 });
            &&& is_valid_date(y, m, d)
            &&& days_from_civil(y, m, d) == 146097 * era + era_year_start(yoe) + doy - 719468
        }),
{
    let d = doy - march_month_start(mp) + 1;
    let m = if mp < 10 { mp + 3 } else { mp - 9 };
    let y = 400 * era + yoe + (if m <= 2 { 1int } else { 0 });
    lemma_days_before_month(y, m);
    if m <= 2 {
        lemma_era_shift(era, yoe + 1);
        lemma_era_shift(era, yoe);
        lemma_leap_step(yoe + 1);
        assert(y - 1 == 400 * era + yoe);
    } else {
        lemma_era_shift(era, yoe);
        lemma_era_shift(era, yoe - 1);
        lemma_leap_step(yoe);
        lemma_leap_step(yoe + 1);
        assert(y - 1 == 400 * era + (yoe - 1));
    }
    assert(leap_years_through(1969) == 477);
}

/// The day count of 1 January of year `y`.
pub open spec fn year_start(y: int) -> int {
    365 * (y - 1970) + leap_years_through(y - 1) - leap_years_through(1969)
}

/// Each year starts where the previous one ends.
proof fn lemma_year_starts_ordered(y1: int, y2: int)
    requires
        y1 < y2,
    ensures
        year_start(y2) >= year_start(y1) + 365 + (if is_leap_year(y1) { 1int } else { 0 }),
    decreases y2 - y1,
{
    lemma_leap_step(y1);
    if y2 > y1 + 1 {
        lemma_year_starts_ordered(y1 + 1, y2);
        lemma_leap_step(y1 + 1);
    }
}

/// A valid date of year `y` lies within that year.
proof fn lemma_day_of_year(y: int, m: int, d: int)
    requires
        is_valid_date(y, m, d),
    ensures
        0 <= days_before_month(y, m) + d - 1 < 365 + (if is_leap_year(y) { 1int } else { 0 }),
{
    lemma_days_before_month(y, m);
}

/// A later month of the same year starts after an earlier one ends.
proof fn lemma_months_ordered(y: int, m1: int, m2: int)
    requires
        1 <= m1 < m2 <= 12,
    ensures
        days_before_month(y, m2) >= days_before_month(y, m1) + days_in_month(y, m1),
{
    lemma_days_before_month(y, m1);
    lemma_days_before_month(y, m2);
}

/// Each day count names at most one valid date: `days_from_civil` is
/// one-to-one on valid dates, so the date that `civil_from_days` returns is
/// the only one it could return.
pub proof fn law_days_from_civil_injective(y1: int, m1: int, d1: int, y2: int, m2: int, d2: int)
    requires
        is_valid_date(y1, m1, d1),
        is_valid_date(y2, m2, d2),
        days_from_civil(y1, m1, d1) == days_from_civil(y2, m2, d2),
    ensures
        y1 == y2 && m1 == m2 && d1 == d2,
{
    lemma_day_of_year(y1, m1, d1);
    lemma_day_of_year(y2, m2, d2);
    if y1 < y2 {
        lemma_year_starts_ordered(y1, y2);
    } else if y2 < y1 {
        lemma_year_starts_ordered(y2, y1);
    } else {
        if m1 < m2 {
            lemma_months_ordered(y1, m1, m2);
        } else if m2 < m1 {
            lemma_months_ordered(y1, m2, m1);
        }
    }
}

/// The calendar day right after `y`-`m`-`d`.
pub open spec fn next_day(y: int, m: int, d: int) -> (int, int, int) {
    if d < days_in_month(y, m) {
        (y, m, d + 1)
    } else if m < 12 {
        (y, m + 1, 1)
    } else {
        (y + 1, 1, 1)
    }
}

/// The day after a valid date is a valid date one day count later.
proof fn lemma_next_day(y: int, m: int, d: int)
    requires
        is_valid_date(y, m, d),
    ensures
        is_valid_date(next_day(y, m, d).0, next_day(y, m, d).1, next_day(y, m, d).2),
        days_from_civil(next_day(y, m, d).0, next_day(y, m, d).1, next_day(y, m, d).2)
            == days_from_civil(y, m, d) + 1,
{
    if d >= days_in_month(y, m) && m == 12 {
        lemma_days_before_month(y, 12);
        lemma_days_before_month(y + 1, 1);
        lemma_leap_step(y);
    }
}

/// Consecutive day counts name consecutive calendar days: where the valid
/// date `b` lies one day count after the valid date `a`, `b` is the day
/// right after `a`. So `civil_from_days(z + 1)` is the day after
/// `civil_from_days(z)`.
pub proof fn law_next_day_count(y1: int, m1: int, d1: int, y2: int, m2: int, d2: int)
    requires
        is_valid_date(y1, m1, d1),
        is_valid_date(y2, m2, d2),
        days_from_civil(y2, m2, d2) == days_from_civil(y1, m1, d1) + 1,
    ensures
        (y2, m2, d2) == next_day(y1, m1, d1),
{
    lemma_next_day(y1, m1, d1);
    let n = next_day(y1, m1, d1);
    law_days_from_civil_injective(n.0, n.1, n.2, y2, m2, d2);
}

/// Day count 0 is 1970-01-01, the only valid date with that count.
pub proof fn law_epoch_day(y: int, m: int, d: int)
    requires
        is_valid_date(y, m, d),
        days_from_civil(y, m, d) == 0,
    ensures
        y == 1970 && m == 1 && d == 1,
{
    assert(leap_years_through(1969) == 477);
    assert(days_from_civil(1970, 1, 1) == 0);
    law_days_from_civil_injective(y, m, d, 1970, 1, 1);
}

/// Converts a day count since the Unix epoch into a proleptic-Gregorian
/// (year, month, day), with Howard Hinnant's `civil_from_days` in integer
/// arithmetic: the result is the valid date that lies `z` days after
/// 1970-01-01.
pub fn civil_from_days(z: i64) -> (r: (i64, u32, u32))
    requires
        z <= i64::MAX - 719_468,
    ensures
        is_valid_date(r.0 as int, r.1 as int, r.2 as int),
        days_from_civil(r.0 as int, r.1 as int, r.2 as int) == z,
{
    let z = z + 719_468;
    let shifted = if z >= 0 {
        z
    } else {
        z - 146_096
    };
    let era = shifted / 146_097;
    assert(era == z as int / 146_097) by (nonlinear_arith)
        requires
            shifted == (if z >= 0 { z as int } else { z - 146_096 }),
            era == (if shifted >= 0 { shifted as int / 146_097 } else { -((-shifted) / 146_097) }),
    ;
    assert(0 <= z - era * 146_097 < 146_097);
    let doe = (z - era * 146_097) as u64;
    proof {
        lemma_year_of_era(doe);
    }
    let yoe = (doe - doe / 1460 + doe / 36524 - doe / 146096) / 365;
    let y = yoe as i64 + era * 400;
    let doy = doe - (365 * yoe + yoe / 4 - yoe / 100);
    proof {
        lemma_month_of_year(doy);
    }
    let mp = (5 * doy + 2) / 153;
    let d = (doy - (153 * mp + 2) / 5 + 1) as u32;
    let m = if mp < 10 {
        mp + 3
    } else {
        mp - 9
    } as u32;
    let y = if m <= 2 {
        y + 1
    } else {
        y
    };
    proof {
        lemma_civil_date(era as int, yoe as int, doy as int, mp as int);
    }
    (y, m, d)
}

/// A year as `{:04}` writes it: at least four characters, zero-padded after
/// the sign.
pub open spec fn year_text(y: int) -> Seq<char> {
    if y < 0 {
        seq!['-'] + zero_padded(decimal((0 - y) as nat), 3)
    } else {
        zero_padded(decimal(y as nat), 4)
    }
}

/// A date as `YYYY-MM-DD`.
pub open spec fn date_text(y: int, m: int, d: int) -> Seq<char> {
    year_text(y) + seq!['-'] + zero_padded(decimal(m as nat), 2) + seq!['-'] + zero_padded(
        decimal(d as nat),
        2,
    )
}

/// The calendar date of a Unix timestamp (seconds), as `YYYY-MM-DD`: the
/// date of the day that holds the timestamp.
pub fn format_unix_date(ts: i64) -> (r: String)
    ensures
        exists|y: int, m: int, d: int|
            is_valid_date(y, m, d) && days_from_civil(y, m, d) == ts as int / 86_400 && r@
                == date_text(y, m, d),
{
    let q = ts / 86_400;
    let rem = ts % 86_400;
    let days = if rem < 0 {
        q - 1
    } else {
        q
    };
    assert(days == ts as int / 86_400) by (nonlinear_arith)
        requires
            q == (if ts >= 0 { ts as int / 86_400 } else { -((-ts) / 86_400) }),
            rem == (if ts >= 0 { ts as int % 86_400 } else { -((-ts) % 86_400) }),
            days == (if rem < 0 { q - 1 } else { q as int }),
    ;
    let (y, m, d) = civil_from_days(days);
    let mut out: Vec<char> = Vec::new();
    if y < 0 {
        out.push('-');
        let mag: u64 = (0 - (y + 1)) as u64 + 1;
        let digits = u64_decimal(mag);
        push_zero_padded(&mut out, digits.as_slice(), 3);
    } else {
        let digits = u64_decimal(y as u64);
        push_zero_padded(&mut out, digits.as_slice(), 4);
    }
    assert(out@ =~= year_text(y as int));
    out.push('-');
    let md = u64_decimal(m as u64);
    push_zero_padded(&mut out, md.as_slice(), 2);
    out.push('-');
    let dd = u64_decimal(d as u64);
    push_zero_padded(&mut out, dd.as_slice(), 2);
    assert(out@ =~= date_text(y as int, m as int, d as int));
    string_of(out.as_slice())
}

/// The colours the viewer paints with.
#[derive(PartialEq, Eq, Structural, Clone, Copy, Debug)]
pub enum UiColor {
    Cyan,
    Magenta,
    Green,
    Yellow,
    Blue,
    Red,
    LightCyan,
    LightMagenta,
    LightGreen,
    LightYellow,
    Gray,
}

/// `s` cut to its first `max` characters.
pub open spec fn truncated(s: Seq<char>, max: nat) -> Seq<char> {
    if s.len() <= max {
        s
    } else {
        s.take(max as int)
    }
}

/// The first `max` characters of `s` (all of it if it is shorter).
pub fn truncate(s: &str, max: usize) -> (r: String)
    ensures
        r@ == truncated(s@, max as nat),
{
    let cs = chars_of(s);
    if cs.len() <= max {
        s.to_owned()
    } else {
        let head = &cs.as_slice()[0..max];
        assert(head@ =~= s@.take(max as int));
        string_of(head)
    }
}

/// The rolling hash of an author's UTF-8 bytes: `h * 31 + b`, wrapping at
/// 32 bits.
pub open spec fn author_hash(bytes: Seq<u8>) -> u32
    decreases bytes.len(),
{
    if bytes.len() == 0 {
        0
    } else {
        ((author_hash(bytes.drop_last()) as nat * 31 + bytes.last() as nat) % 0x1_0000_0000) as u32
    }
}

/// The ten author colours, in order.
pub open spec fn author_palette(i: int) -> UiColor {
    if i == 0 {
        UiColor::Cyan
    } else if i == 1 {
        UiColor::Magenta
    } else if i == 2 {
        UiColor::Green
    } else if i == 3 {
        UiColor::Yellow
    } else if i == 4 {
        UiColor::Blue
    } else if i == 5 {
        UiColor::Red
    } else if i == 6 {
        UiColor::LightCyan
    } else if i == 7 {
        UiColor::LightMagenta
    } else if i == 8 {
        UiColor::LightGreen
    } else {
        UiColor::LightYellow
    }
}

/// A colour for an author, the same for the same name: the palette entry
/// at the name's rolling hash modulo ten.
pub fn author_color(author: &str) -> (c: UiColor)
    ensures
        c == author_palette((author_hash(vstd::utf8::encode_utf8(author@)) % 10) as int),
{
    let bytes = author.as_bytes();
    let mut h: u32 = 0;
    let mut i: usize = 0;
    assert(bytes@.take(0) =~= Seq::<u8>::empty());
    while i < bytes.len()
        invariant
            bytes@ == vstd::utf8::encode_utf8(author@),
            0 <= i <= bytes@.len(),
            h == author_hash(bytes@.take(i as int)),
        decreases bytes@.len() - i,
    {
        let b = bytes[i];
        let next = h.wrapping_mul(31).wrapping_add(b as u32);
        assert(bytes@.take(i + 1).drop_last() =~= bytes@.take(i as int));
        assert(next == ((h as nat * 31 + b as nat) % 0x1_0000_0000) as u32) by (nonlinear_arith)
            requires
                next == (if (h as nat * 31) % 0x1_0000_0000 + b as nat > u32::MAX {
                    ((h as nat * 31) % 0x1_0000_0000 + b as nat - 0x1_0000_0000) as u32
                } else {
                    ((h as nat * 31) % 0x1_0000_0000 + b as nat) as u32
                }),
                b < 256,
        ;
        h = next;
        i = i + 1;
    }
    assert(bytes@.take(bytes@.len() as int) =~= bytes@);
    match h % 10 {
        0 => UiColor::Cyan,
        1 => UiColor::Magenta,
        2 => UiColor::Green,
        3 => UiColor::Yellow,
        4 => UiColor::Blue,
        5 => UiColor::Red,
        6 => UiColor::LightCyan,
        7 => UiColor::LightMagenta,
        8 => UiColor::LightGreen,
        _ => UiColor::LightYellow,
    }
}

/// The colour of a changed-file status letter.
pub open spec fn status_color(c: char) -> UiColor {
    if c == 'A' {
        UiColor::Green
    } else if c == 'D' {
        UiColor::Red
    } else if c == 'M' {
        UiColor::Yellow
    } else if c == 'R' {
        UiColor::Magenta
    } else if c == 'C' {
        UiColor::Cyan
    } else {
        UiColor::Gray
    }
}

/// The label and colour of a changed file's status: its first letter
/// (`?` for an empty status) and that letter's colour.
pub fn status_style(status: &str) -> (r: (UiColor, String))
    ensures
        ({
            let c = if status@.len() > 0 { status@[0] } else { '?' };
            r.0 == status_color(c) && r.1@ == seq![c]
        }),
{
    let cs = chars_of(status);
    let c = if cs.len() > 0 {
        cs[0]
    } else {
        '?'
    };
    let color = if c == 'A' {
        UiColor::Green
    } else if c == 'D' {
        UiColor::Red
    } else if c == 'M' {
        UiColor::Yellow
    } else if c == 'R' {
        UiColor::Magenta
    } else if c == 'C' {
        UiColor::Cyan
    } else {
        UiColor::Gray
    };
    let mut label: Vec<char> = Vec::new();
    label.push(c);
    assert(label@ =~= seq![c]);
    (color, string_of(label.as_slice()))
}

/// The colour of a line of a diff: additions green, removals red, hunk
/// headers cyan, file headers magenta, the rest gray.
pub open spec fn diff_line_color_of(line: Seq<char>) -> UiColor {
    if has_prefix(line, "+"@) && !has_prefix(line, "+++"@) {
        UiColor::Green
    } else if has_prefix(line, "-"@) && !has_prefix(line, "---"@) {
        UiColor::Red
    } else if has_prefix(line, "@@"@) {
        UiColor::Cyan
    } else if has_prefix(line, "diff "@) || has_prefix(line, "index "@) {
        UiColor::Magenta
    } else {
        UiColor::Gray
    }
}

/// The colour in which a diff line is shown.
pub fn diff_line_color(line: &str) -> (c: UiColor)
    ensures
        c == diff_line_color_of(line@),
{
    let cs = chars_of(line);
    let l = cs.as_slice();
    if starts_with(l, chars_of("+").as_slice()) && !starts_with(l, chars_of("+++").as_slice()) {
        UiColor::Green
    } else if starts_with(l, chars_of("-").as_slice()) && !starts_with(l, chars_of("---").as_slice()) {
        UiColor::Red
    } else if starts_with(l, chars_of("@@").as_slice()) {
        UiColor::Cyan
    } else if starts_with(l, chars_of("diff ").as_slice()) || starts_with(
        l,
        chars_of("index ").as_slice(),
    ) {
        UiColor::Magenta
    } else {
        UiColor::Gray
    }
}

/// The line counts of a changed file as `+added -deleted`, or `bin` when
/// git gave none.
pub open spec fn file_stats_of(additions: Option<u32>, deletions: Option<u32>) -> Seq<char> {
    match (additions, deletions) {
        (Some(a), Some(d)) => seq!['+'] + decimal(a as nat) + " -"@ + decimal(d as nat),
        _ => "bin"@,
    }
}

/// The line counts shown beside a changed file.
pub fn file_stats(additions: Option<u32>, deletions: Option<u32>) -> (r: String)
    ensures
        r@ == file_stats_of(additions, deletions),
{
    match (additions, deletions) {
        (Some(a), Some(d)) => {
            let mut out: Vec<char> = Vec::new();
            out.push('+');
            let ad = u64_decimal(a as u64);
            let mut r = string_of(out.as_slice());
            let at = string_of(ad.as_slice());
            r.append(at.as_str());
            r.append(" -");
            let dd = u64_decimal(d as u64);
            let dt = string_of(dd.as_slice());
            r.append(dt.as_str());
            assert(out@ =~= seq!['+']);
            r
        },
        _ => "bin".to_owned(),
    }
}

/// The text of the status line: the hint while there is no status,
/// else the status after a check mark.
pub open spec fn status_line_of(status: Seq<char>) -> Seq<char> {
    if status.len() == 0 {
        " Enter — copy hash"@
    } else {
        " ✓ "@ + status
    }
}

/// The status line under the search box.
pub fn status_line(status: &str) -> (r: String)
    ensures
        r@ == status_line_of(status@),
{
    if status.is_empty() {
        " Enter — copy hash".to_owned()
    } else {
        let mut r = " ✓ ".to_owned();
        r.append(status);
        r
    }
}
} // verus!
