//! Proleptic-Gregorian calendar arithmetic on days since the Unix epoch,
//! after Howard Hinnant's `civil_from_days` / `days_from_civil`.
//!
//! The monthly outbound counter is keyed by `year * 100 + month` in UTC,
//! and daily metrics buckets are keyed by the day number; both come from
//! these conversions.

use vstd::prelude::*;

verus! {

/// Milliseconds in one UTC day.
pub const MS_PER_DAY: i64 = 86400000;

/// Bound on day numbers accepted by the calendar conversions; every value
/// of `unix_ms.div_euclid(MS_PER_DAY)` over the whole `i64` range lies
/// within it.
pub const MAX_DAY_NUMBER: i64 = 146097000000;

/// Shift that makes the era division operate on non-negative numbers:
/// a whole number of 400-year eras.
pub const DAY_SHIFT: i64 = 292194000000;

/// Year component of `spec_civil_from_days`.
pub open spec fn spec_civil_year(days: int) -> int {
    let z = days + 719468 + DAY_SHIFT;
    let era = z / 146097 - 2000000;
    let doe = z % 146097;
    let yoe = (doe - doe / 1460 + doe / 36524 - doe / 146096) / 365;
    let doy = doe - (365 * yoe + yoe / 4 - yoe / 100);
    let mp = (5 * doy + 2) / 153;
    let m = if mp < 10 {
        mp + 3
    } else {
        mp - 9
    };
    if m <= 2 {
        yoe + era * 400 + 1
    } else {
        yoe + era * 400
    }
}

/// Month component of `spec_civil_from_days`.
pub open spec fn spec_civil_month(days: int) -> int {
    let z = days + 719468 + DAY_SHIFT;
    let doe = z % 146097;
    let yoe = (doe - doe / 1460 + doe / 36524 - doe / 146096) / 365;
    let doy = doe - (365 * yoe + yoe / 4 - yoe / 100);
    let mp = (5 * doy + 2) / 153;
    if mp < 10 {
        mp + 3
    } else {
        mp - 9
    }
}

/// Day-of-month component of `spec_civil_from_days`.
pub open spec fn spec_civil_day(days: int) -> int {
    let z = days + 719468 + DAY_SHIFT;
    let doe = z % 146097;
    let yoe = (doe - doe / 1460 + doe / 36524 - doe / 146096) / 365;
    let doy = doe - (365 * yoe + yoe / 4 - yoe / 100);
    let mp = (5 * doy + 2) / 153;
    doy - (153 * mp + 2) / 5 + 1
}

/// Convert a day number (days since 1970-01-01) to a calendar date.
pub fn civil_from_days(days: i64) -> (r: (i32, u32, u32))
    requires
        -MAX_DAY_NUMBER <= days <= MAX_DAY_NUMBER,
    ensures
        r.0 == spec_civil_year(days as int),
        r.1 == spec_civil_month(days as int),
        r.2 == spec_civil_day(days as int),
        1 <= r.1 <= 12,
        1 <= r.2 <= 31,
{
    let z: u64 = (days + 719468 + DAY_SHIFT) as u64;
    let era_shifted: u64 = z / 146097;
    let doe: u64 = z % 146097;
    assert(doe < 146097);
    let yoe: u64 = (doe - doe / 1460 + doe / 36524 - doe / 146096) / 365;
    assert(yoe <= 399) by {
        assert(doe - doe / 1460 + doe / 36524 - doe / 146096 <= 146096);
    }
    let doy: u64 = doe - (365 * yoe + yoe / 4 - yoe / 100);
    assert(doy <= 365) by {
        assert(365 * yoe + yoe / 4 - yoe / 100 <= doe);
        assert(doe - (365 * yoe + yoe / 4 - yoe / 100) <= 365);
    }
    let mp: u64 = (5 * doy + 2) / 153;
    assert(mp <= 11);
    let d_val: u64 = doy - (153 * mp + 2) / 5 + 1;
    assert(1 <= d_val <= 31) by {
        assert((153 * mp + 2) / 5 <= doy);
        assert(doy - (153 * mp + 2) / 5 <= 30);
    }
    let m_val: u64 = if mp < 10 {
        mp + 3
    } else {
        mp - 9
    };
    let y_base: i64 = (yoe as i64) + ((era_shifted as i64) - 2000000) * 400;
    let y_val: i64 = if m_val <= 2 {
        y_base + 1
    } else {
        y_base
    };
    (y_val as i32, m_val as u32, d_val as u32)
}

/// Convert a calendar date to its day number (days since 1970-01-01).
pub open spec fn spec_days_from_civil(year: int, month: int, day: int) -> int {
    let y = if month <= 2 {
        year - 1
    } else {
        year
    };
    let era = (y + 4000000000) / 400 - 10000000;
    let yoe = y - era * 400;
    let mp = if month > 2 {
        month - 3
    } else {
        month + 9
    };
    let doy = (153 * mp + 2) / 5 + day - 1;
    let doe = yoe * 365 + yoe / 4 - yoe / 100 + doy;
    era * 146097 + doe - 719468
}

/// Inverse of `civil_from_days` on valid dates.
pub fn days_from_civil(year: i32, month: u32, day: u32) -> (r: i64)
    requires
        1 <= month <= 12,
        1 <= day <= 31,
    ensures
        r == spec_days_from_civil(year as int, month as int, day as int),
{
    let y: i64 = if month <= 2 {
        (year as i64) - 1
    } else {
        year as i64
    };
    let yp: u64 = (y + 4000000000) as u64;
    let era_shifted: u64 = yp / 400;
    let yoe: u64 = yp % 400;
    assert(yoe == y + 4000000000 - (era_shifted as int) * 400);
    assert(yoe <= 399);
    let mp: u64 = if month > 2 {
        (month as u64) - 3
    } else {
        (month as u64) + 9
    };
    let doy: u64 = (153 * mp + 2) / 5 + (day as u64) - 1;
    assert(doy <= 367);
    let doe: u64 = yoe * 365 + yoe / 4 - yoe / 100 + doy;
    assert(doe <= 146200);
    let era: i64 = (era_shifted as i64) - 10000000;
    let r: i64 = era * 146097 + (doe as i64) - 719468;
    proof {
        let yi = y as int;
        assert((yp as int) / 400 == (yi + 4000000000) / 400);
        assert(yi - ((yi + 4000000000) / 400 - 10000000) * 400 == (yi + 4000000000) - ((yi
            + 4000000000) / 400) * 400) by (nonlinear_arith);
        assert((yp as int) % 400 == (yp as int) - ((yp as int) / 400) * 400);
    }
    r
}

/// Floor division of a millisecond timestamp by the length of a day:
/// the day number containing that instant.
pub fn day_num_from_unix_ms(ms_utc: i64) -> (r: i64)
    ensures
        r == (ms_utc as int) / (MS_PER_DAY as int),
        -MAX_DAY_NUMBER <= r <= MAX_DAY_NUMBER,
{
    if ms_utc >= 0 {
        let q: u64 = (ms_utc as u64) / (MS_PER_DAY as u64);
        q as i64
    } else {
        let neg: u64 = (-(ms_utc + 1)) as u64;
        let q: u64 = neg / (MS_PER_DAY as u64);
        proof {
            let m = ms_utc as int;
            let d = MS_PER_DAY as int;
            let n = (neg as int) / d;
            assert(neg as int == -m - 1);
            assert((-m - 1) == n * d + (-m - 1) % d);
            assert(0 <= (-m - 1) % d < d);
            assert(m == (-n - 1) * d + (d - 1 - (-m - 1) % d)) by (nonlinear_arith)
                requires
                    -m - 1 == n * d + (-m - 1) % d,
            ;
            assert(0 <= d - 1 - (-m - 1) % d < d);
            vstd::arithmetic::div_mod::lemma_fundamental_div_mod_converse(
                m,
                d,
                -n - 1,
                d - 1 - (-m - 1) % d,
            );
        }
        -(q as i64) - 1
    }
}

/// The UTC month key `year * 100 + month` for a millisecond timestamp.
pub open spec fn spec_month_utc(ms_utc: int) -> int {
    let days = ms_utc / (MS_PER_DAY as int);
    spec_civil_year(days) * 100 + spec_civil_month(days)
}

/// Compute the month key used by the monthly outbound counter.
pub fn month_utc_from_unix_ms(ms_utc: i64) -> (r: i64)
    ensures
        r == spec_month_utc(ms_utc as int),
{
    let days = day_num_from_unix_ms(ms_utc);
    let (y, m, _d) = civil_from_days(days);
    (y as i64) * 100 + (m as i64)
}

/// The decimal digit character for `d`.
pub open spec fn spec_digit(d: int) -> char {
    if d == 0 {
        '0'
    } else if d == 1 {
        '1'
    } else if d == 2 {
        '2'
    } else if d == 3 {
        '3'
    } else if d == 4 {
        '4'
    } else if d == 5 {
        '5'
    } else if d == 6 {
        '6'
    } else if d == 7 {
        '7'
    } else if d == 8 {
        '8'
    } else {
        '9'
    }
}

/// Decimal digits of a non-negative number, most significant first.
pub open spec fn dec_str(n: int) -> Seq<char>
    decreases n,
{
    if n < 10 {
        seq![spec_digit(n)]
    } else {
        dec_str(n / 10).push(spec_digit(n % 10))
    }
}

/// A year formatted to width four with leading zeros, the sign counting
/// toward the width.
pub open spec fn pad4(y: int) -> Seq<char> {
    if y >= 0 {
        (if y < 10 {
            "000"@
        } else if y < 100 {
            "00"@
        } else if y < 1000 {
            "0"@
        } else {
            Seq::empty()
        }) + dec_str(y)
    } else {
        "-"@ + (if -y < 10 {
            "00"@
        } else if -y < 100 {
            "0"@
        } else {
            Seq::empty()
        }) + dec_str(-y)
    }
}

/// A month or day formatted to width two.
pub open spec fn pad2(v: int) -> Seq<char> {
    (if 0 <= v < 10 {
        "0"@
    } else {
        Seq::empty()
    }) + dec_str(if v >= 0 {
        v
    } else {
        0
    })
}

/// The `YYYY-MM-DD` key of a day number.
pub open spec fn spec_day_str(days: int) -> Seq<char> {
    pad4(spec_civil_year(days)) + "-"@ + pad2(spec_civil_month(days)) + "-"@ + pad2(
        spec_civil_day(days),
    )
}

fn append_digit(out: &mut String, d: u64)
    requires
        d < 10,
    ensures
        final(out)@ == old(out)@ + seq![spec_digit(d as int)],
{
    proof {
        reveal_strlit("0");
        reveal_strlit("1");
        reveal_strlit("2");
        reveal_strlit("3");
        reveal_strlit("4");
        reveal_strlit("5");
        reveal_strlit("6");
        reveal_strlit("7");
        reveal_strlit("8");
        reveal_strlit("9");
    }
    if d == 0 {
        out.append("0");
    } else if d == 1 {
        out.append("1");
    } else if d == 2 {
        out.append("2");
    } else if d == 3 {
        out.append("3");
    } else if d == 4 {
        out.append("4");
    } else if d == 5 {
        out.append("5");
    } else if d == 6 {
        out.append("6");
    } else if d == 7 {
        out.append("7");
    } else if d == 8 {
        out.append("8");
    } else {
        out.append("9");
    }
    proof {
        assert(final(out)@ =~= old(out)@ + seq![spec_digit(d as int)]);
    }
}

fn append_dec(out: &mut String, n: u64)
    ensures
        final(out)@ == old(out)@ + dec_str(n as int),
    decreases n,
{
    if n < 10 {
        append_digit(out, n);
    } else {
        append_dec(out, n / 10);
        append_digit(out, n % 10);
        proof {
            assert(old(out)@ + dec_str((n / 10) as int) + seq![spec_digit((n % 10) as int)]
                =~= old(out)@ + dec_str(n as int));
        }
    }
}

/// Format a day number as its `YYYY-MM-DD` key.
pub fn format_day_utc_from_days(days_since_epoch: i64) -> (r: String)
    requires
        -MAX_DAY_NUMBER <= days_since_epoch <= MAX_DAY_NUMBER,
    ensures
        r@ == spec_day_str(days_since_epoch as int),
{
    let (y, m, d) = civil_from_days(days_since_epoch);
    let mut out = String::new();
    if y >= 0 {
        let ya = y as u64;
        if ya < 10 {
            out.append("000");
        } else if ya < 100 {
            out.append("00");
        } else if ya < 1000 {
            out.append("0");
        }
        append_dec(&mut out, ya);
    } else {
        out.append("-");
        let ya = (-(y as i64)) as u64;
        if ya < 10 {
            out.append("00");
        } else if ya < 100 {
            out.append("0");
        }
        append_dec(&mut out, ya);
    }
    proof {
        assert(out@ =~= pad4(spec_civil_year(days_since_epoch as int)));
    }
    out.append("-");
    if m < 10 {
        out.append("0");
    }
    append_dec(&mut out, m as u64);
    proof {
        assert(out@ =~= pad4(spec_civil_year(days_since_epoch as int)) + "-"@ + pad2(
            spec_civil_month(days_since_epoch as int),
        ));
    }
    out.append("-");
    if d < 10 {
        out.append("0");
    }
    append_dec(&mut out, d as u64);
    proof {
        assert(out@ =~= spec_day_str(days_since_epoch as int));
    }
    out
}

/// The `YYYY-MM-DD` key of the day containing a millisecond timestamp.
pub fn day_utc_from_unix_ms(ms_utc: i64) -> (r: String)
    ensures
        r@ == spec_day_str((ms_utc as int) / (MS_PER_DAY as int)),
{
    let days = day_num_from_unix_ms(ms_utc);
    format_day_utc_from_days(days)
}

/// Value of an unsigned digit run.
pub open spec fn parse_digits_of(ds: Seq<char>) -> Option<int> {
    if ds.len() > 0 && crate::attach::all_digits(ds) {
        Some(crate::attach::dec_val(ds))
    } else {
        None
    }
}

/// Value of an optionally signed decimal string, as `from_str` parses it:
/// an optional `+` or `-`, then one or more digits.
pub open spec fn parse_int_of(s: Seq<char>) -> Option<int> {
    if s.len() == 0 {
        None
    } else if s[0] == '-' {
        match parse_digits_of(s.skip(1)) {
            Some(v) => Some(-v),
            None => None,
        }
    } else if s[0] == '+' {
        parse_digits_of(s.skip(1))
    } else {
        parse_digits_of(s)
    }
}

/// Parse an optionally signed integer, rejecting values outside
/// `[lo, hi]`.
fn parse_int_range(s: &str, lo: i64, hi: i64) -> (r: Option<i64>)
    requires
        -1000000000000000000 <= lo <= hi <= 1000000000000000000,
    ensures
        match parse_int_of(s@) {
            Some(v) => if lo <= v <= hi {
                r == Some(v as i64)
            } else {
                r is None
            },
            None => r is None,
        },
{
    let len = s.unicode_len();
    if len == 0 {
        return None;
    }
    let c0 = s.get_char(0);
    let neg = c0 == '-';
    let start: usize = if c0 == '-' || c0 == '+' {
        1
    } else {
        0
    };
    let ghost ds = s@.skip(start as int);
    if start >= len {
        proof {
            assert(ds.len() == 0);
        }
        return None;
    }
    let mut val: i64 = 0;
    let mut i: usize = start;
    proof {
        assert(ds.take(0) =~= Seq::<char>::empty());
    }
    while i < len
        invariant
            start <= i <= len,
            start < len,
            start == 0 || start == 1,
            len == s@.len(),
            ds == s@.skip(start as int),
            ds.len() == len - start,
            forall|j: int| 0 <= j < ds.len() ==> ds[j] == s@[start + j],
            -1000000000000000000 <= lo <= hi <= 1000000000000000000,
            neg == (s@[0] == '-'),
            (start == 1) == (s@[0] == '-' || s@[0] == '+'),
            crate::attach::all_digits(ds.take(i - start)),
            val == crate::attach::dec_val(ds.take(i - start)),
            0 <= val <= 2100000000000000000,
        decreases len - i,
    {
        let c = s.get_char(i);
        proof {
            assert(ds[i - start] == s@[i as int]);
        }
        if c < '0' || c > '9' {
            proof {
                assert(!crate::attach::all_digits(ds));
            }
            return None;
        }
        let d: i64 = ((c as u32) - 48) as i64;
        proof {
            assert(ds.take(i - start + 1).drop_last() =~= ds.take(i - start));
            assert(ds.take(i - start + 1).last() == ds[i - start]);
            assert(d == ds[i - start] as int - '0' as int);
        }
        if val > 200000000000000000 {
            // The value can only grow further; it is already out of range.
            proof {
                let pre = ds.take(i - start + 1);
                assert(crate::attach::all_digits(pre));
                assert(crate::attach::dec_val(pre) == val * 10 + d);
                assert(crate::attach::dec_val(pre) > 2000000000000000000) by (nonlinear_arith)
                    requires
                        val > 200000000000000000,
                        d >= 0,
                        crate::attach::dec_val(pre) == val * 10 + d,
                ;
                crate::attach::lemma_dec_val_nonneg_pub(pre);
                if crate::attach::all_digits(ds) {
                    crate::attach::lemma_dec_val_prefix_bound(ds, i - start + 1);
                    assert(crate::attach::dec_val(ds) > 2000000000000000000);
                    assert(parse_digits_of(ds) == Some(crate::attach::dec_val(ds)));
                } else {
                    assert(parse_digits_of(ds) is None);
                }
                if start == 1 {
                    assert(ds == s@.skip(1));
                } else {
                    assert(ds == s@);
                    assert(s@[0] != '-' && s@[0] != '+');
                }
                assert(match parse_int_of(s@) {
                    Some(v) => v > 2000000000000000000 || v < -2000000000000000000,
                    None => true,
                });
            }
            return None;
        }
        val = val * 10 + d;
        i = i + 1;
    }
    proof {
        assert(ds.take(len - start) =~= ds);
    }
    let signed: i64 = if neg {
        -val
    } else {
        val
    };
    proof {
        assert(crate::attach::all_digits(ds) && ds.len() > 0);
        assert(parse_digits_of(ds) == Some(val as int));
        if s@[0] == '-' {
            assert(neg && start == 1 && ds == s@.skip(1));
        } else if s@[0] == '+' {
            assert(!neg && start == 1 && ds == s@.skip(1));
        } else {
            assert(!neg && start == 0 && ds == s@);
        }
        assert(parse_int_of(s@) == Some(signed as int));
    }
    if signed < lo || signed > hi {
        return None;
    }
    Some(signed)
}

/// What `parse_ymd` accepts: exactly three dash-separated parts of the
/// trimmed input, each an integer, the year in `i32` range, the month in
/// 1..=12 and the day in 1..=31.
pub open spec fn spec_parse_ymd(s: Seq<char>) -> Option<(int, int, int)> {
    let t = crate::strutil::trim_of(s);
    match crate::gc::first_colon_like(t, '-') {
        None => None,
        Some(d1) => {
            match crate::gc::first_colon_like(t.skip(d1 + 1), '-') {
                None => None,
                Some(d2r) => {
                    let yp = t.take(d1);
                    let mp = t.skip(d1 + 1).take(d2r);
                    let dp = t.skip(d1 + 1).skip(d2r + 1);
                    if crate::gc::first_colon_like(dp, '-') is Some {
                        None
                    } else {
                        match (parse_int_of(yp), parse_int_of(mp), parse_int_of(dp)) {
                            (Some(y), Some(m), Some(d)) => {
                                if -2147483648 <= y <= 2147483647 && 1 <= m <= 12 && 1 <= d <= 31 {
                                    Some((y, m, d))
                                } else {
                                    None
                                }
                            },
                            _ => None,
                        }
                    }
                },
            }
        },
    }
}

/// Split a trimmed `YYYY-MM-DD` string and parse its parts.
pub fn parse_ymd(s: &str) -> (r: Option<(i32, u32, u32)>)
    ensures
        match spec_parse_ymd(s@) {
            Some((y, m, d)) => r is Some && r.unwrap().0 == y && r.unwrap().1 == m && r.unwrap().2
                == d,
            None => r is None,
        },
{
    let t = crate::strutil::trim_str(s);
    let tl = t.unicode_len();
    let d1 = match find_char(t, '-') {
        Some(i) => i,
        None => {
            return None;
        },
    };
    proof {
        assert(d1 < tl);
    }
    let rest = t.substring_char(d1 + 1, tl);
    proof {
        assert(rest@ =~= crate::strutil::trim_of(s@).skip(d1 + 1));
    }
    let rl = rest.unicode_len();
    let d2r = match find_char(rest, '-') {
        Some(i) => i,
        None => {
            return None;
        },
    };
    proof {
        assert(d2r < rl);
    }
    let yp = t.substring_char(0, d1);
    let mp = rest.substring_char(0, d2r);
    let dp = rest.substring_char(d2r + 1, rl);
    proof {
        assert(yp@ =~= crate::strutil::trim_of(s@).take(d1 as int));
        assert(mp@ =~= rest@.take(d2r as int));
        assert(dp@ =~= rest@.skip(d2r + 1));
    }
    if find_char(dp, '-').is_some() {
        return None;
    }
    let y = match parse_int_range(yp, -2147483648, 2147483647) {
        Some(v) => v,
        None => {
            return None;
        },
    };
    let m = match parse_int_range(mp, -2147483648, 2147483647) {
        Some(v) => v,
        None => {
            return None;
        },
    };
    let d = match parse_int_range(dp, -2147483648, 2147483647) {
        Some(v) => v,
        None => {
            return None;
        },
    };
    if !(1 <= m && m <= 12) {
        return None;
    }
    if !(1 <= d && d <= 31) {
        return None;
    }
    Some((y as i32, m as u32, d as u32))
}

/// Position of the first occurrence of `c`.
fn find_char(s: &str, c: char) -> (r: Option<usize>)
    ensures
        match r {
            Some(i) => crate::gc::first_colon_like(s@, c) == Some(i as int) && i < s@.len(),
            None => crate::gc::first_colon_like(s@, c) is None,
        },
{
    let len = s.unicode_len();
    let mut i: usize = 0;
    while i < len
        invariant
            0 <= i <= len,
            len == s@.len(),
            crate::gc::first_colon_like(s@, c) == crate::gc::first_colon_like_from(
                s@,
                c,
                i as int,
            ),
        decreases len - i,
    {
        if s.get_char(i) == c {
            return Some(i);
        }
        i = i + 1;
    }
    None
}

/// Parse a `YYYY-MM-DD` key back to its day number.
pub fn parse_day_utc(s: &str) -> (r: Option<i64>)
    ensures
        match spec_parse_ymd(s@) {
            Some((y, m, d)) => r == Some(spec_days_from_civil(y, m, d) as i64),
            None => r is None,
        },
{
    match parse_ymd(s) {
        Some((y, m, d)) => Some(days_from_civil(y, m, d)),
        None => None,
    }
}

} // verus!
