//! The extension store: one record per line, `MM/DD/YY <seconds>`. Writing a
//! record replaces the whole store; a lookup scans lines from the top and the
//! first record for the day wins.
use vstd::prelude::*;
use crate::clock::{LogicalDay, civil_date, civil_of_epoch_day, days_in_month, valid_date};
use crate::decimal::{
    all_digits, decimal_bytes, decimal_millis, digits_value, first_non_digit, fraction_millis, is_digit,
    lemma_decimal_bytes_digits, parse_millis, push_decimal, sub_bytes,
};

verus! {

#[derive(Clone, Copy, Debug, PartialEq, Eq, Structural)]
pub enum StoreError {
    /// A line is not exactly a valid date and a non-negative decimal number.
    MalformedLine,
    /// The day lies outside the calendar's range.
    DayOutOfRange,
}

pub open spec fn is_space(b: u8) -> bool {
    b == 32 || b == 9 || b == 13
}

/// The first index at or after `i` whose byte is (or is not, by `space`) blank.
pub open spec fn find_class(s: Seq<u8>, i: int, space: bool) -> int
    decreases s.len() - i,
{
    if i < 0 || i >= s.len() {
        s.len() as int
    } else if is_space(s[i]) == space {
        i
    } else {
        find_class(s, i + 1, space)
    }
}

/// The index of the first line break at or after `i` (or the length).
pub open spec fn line_end(s: Seq<u8>, i: int) -> int
    decreases s.len() - i,
{
    if i < 0 || i >= s.len() {
        s.len() as int
    } else if s[i] == 10 {
        i
    } else {
        line_end(s, i + 1)
    }
}

/// The two blank-separated fields of a line, when it has exactly two.
pub open spec fn two_fields(line: Seq<u8>) -> Option<(Seq<u8>, Seq<u8>)> {
    let a = find_class(line, 0, false);
    let b = find_class(line, a, true);
    let c = find_class(line, b, false);
    let d = find_class(line, c, true);
    let e = find_class(line, d, false);
    if c < line.len() && e == line.len() {
        Some((line.subrange(a, b), line.subrange(c, d)))
    } else {
        None
    }
}

pub open spec fn two_digit_value(f: Seq<u8>, i: int) -> int {
    (f[i] - 48) * 10 + (f[i + 1] - 48)
}

pub open spec fn digit_at(f: Seq<u8>, i: int) -> bool {
    48 <= f[i] <= 57
}

/// A two-digit year: 00 to 69 in the 2000s, 70 to 99 in the 1900s.
pub open spec fn full_year(yy: int) -> int {
    if yy < 70 { 2000 + yy } else { 1900 + yy }
}

/// The date that a `MM/DD/YY` field names.
pub open spec fn date_field_value(f: Seq<u8>) -> Option<(int, int, int)> {
    if f.len() == 8 && f[2] == 47 && f[5] == 47 && digit_at(f, 0) && digit_at(f, 1) && digit_at(f, 3)
        && digit_at(f, 4) && digit_at(f, 6) && digit_at(f, 7) && valid_date(
        full_year(two_digit_value(f, 6)),
        two_digit_value(f, 0),
        two_digit_value(f, 3),
    ) {
        Some((full_year(two_digit_value(f, 6)), two_digit_value(f, 0), two_digit_value(f, 3)))
    } else {
        None
    }
}

/// The date and milliseconds of a record line.
pub open spec fn record_value(line: Seq<u8>) -> Option<((int, int, int), nat)> {
    match two_fields(line) {
        Some(fs) => match (date_field_value(fs.0), decimal_millis(fs.1)) {
            (Some(date), Some(ms)) => Some((date, ms)),
            _ => None,
        },
        None => None,
    }
}

/// A match found earlier takes precedence over the rest of the scan, but an
/// error in the rest still fails it.
pub open spec fn first_or(found: Option<nat>, rest: Result<nat, StoreError>) -> Result<nat, StoreError> {
    match rest {
        Err(e) => Err(e),
        Ok(v) => match found {
            Some(f) => Ok(f),
            None => Ok(v),
        },
    }
}

/// The extension for `date` in the store from byte `start` on: every line
/// must be a well-formed record, else the lookup fails; among them the first
/// record for the date wins, and no record gives 0.
pub open spec fn lookup(s: Seq<u8>, start: int, date: (int, int, int)) -> Result<nat, StoreError>
    decreases s.len() + 1 - start,
    via lookup_decreases
{
    if start < 0 || start >= s.len() {
        Ok(0)
    } else {
        let e = line_end(s, start);
        match record_value(s.subrange(start, e)) {
            None => Err(StoreError::MalformedLine),
            Some(rec) => first_or(
                if rec.0 == date { Some(rec.1) } else { None },
                lookup(s, e + 1, date),
            ),
        }
    }
}

pub open spec fn opt_nat(o: Option<u64>) -> Option<nat> {
    match o {
        Some(v) => Some(v as nat),
        None => None,
    }
}

pub proof fn lemma_line_end_bounds(s: Seq<u8>, i: int)
    requires
        0 <= i <= s.len(),
    ensures
        i <= line_end(s, i) <= s.len(),
        line_end(s, i) < s.len() ==> s[line_end(s, i)] == 10,
    decreases s.len() - i,
{
    if i < s.len() && s[i] != 10 {
        lemma_line_end_bounds(s, i + 1);
    }
}

#[via_fn]
proof fn lookup_decreases(s: Seq<u8>, start: int, date: (int, int, int)) {
    if 0 <= start < s.len() {
        lemma_line_end_bounds(s, start);
    }
}

fn find_class_exec(s: &[u8], i: usize, space: bool) -> (r: usize)
    requires
        i <= s@.len(),
    ensures
        r == find_class(s@, i as int, space),
        i <= r <= s@.len(),
{
    let mut k: usize = i;
    while k < s.len() && (s[k] == 32 || s[k] == 9 || s[k] == 13) != space
        invariant
            i <= k <= s@.len(),
            find_class(s@, i as int, space) == find_class(s@, k as int, space),
        decreases s@.len() - k,
    {
        k = k + 1;
    }
    k
}

fn line_end_exec(s: &[u8], i: usize) -> (r: usize)
    requires
        i <= s@.len(),
    ensures
        r == line_end(s@, i as int),
        i <= r <= s@.len(),
{
    let mut k: usize = i;
    while k < s.len() && s[k] != 10
        invariant
            i <= k <= s@.len(),
            line_end(s@, i as int) == line_end(s@, k as int),
        decreases s@.len() - k,
    {
        k = k + 1;
    }
    k
}

fn digit_pair(f: &[u8], i: usize) -> (r: Option<u32>)
    requires
        i + 1 < f@.len(),
    ensures
        r matches Some(v) <==> digit_at(f@, i as int) && digit_at(f@, i + 1),
        r matches Some(v) ==> v == two_digit_value(f@, i as int),
{
    if f[i] < 48 || f[i] > 57 || f[i + 1] < 48 || f[i + 1] > 57 {
        return None;
    }
    Some(((f[i] - 48) as u32) * 10 + (f[i + 1] - 48) as u32)
}

fn days_in_month_exec(y: u32, m: u32) -> (r: u32)
    ensures
        r == days_in_month(y as int, m as int),
{
    if m == 2 {
        if (y % 4 == 0 && y % 100 != 0) || y % 400 == 0 {
            29
        } else {
            28
        }
    } else if m == 4 || m == 6 || m == 9 || m == 11 {
        30
    } else {
        31
    }
}

/// Reads a `MM/DD/YY` date field.
pub fn parse_date_field(f: &[u8]) -> (r: Option<(i32, u32, u32)>)
    ensures
        r matches Some(d) <==> date_field_value(f@) is Some,
        r matches Some(d) ==> date_field_value(f@) == Some((d.0 as int, d.1 as int, d.2 as int)),
{
    if f.len() != 8 || f[2] != 47 || f[5] != 47 {
        return None;
    }
    let (m, d, yy) = match (digit_pair(f, 0), digit_pair(f, 3), digit_pair(f, 6)) {
        (Some(m), Some(d), Some(yy)) => (m, d, yy),
        _ => {
            return None;
        },
    };
    let y: u32 = if yy < 70 {
        2000 + yy
    } else {
        1900 + yy
    };
    if m < 1 || m > 12 || d < 1 || d > days_in_month_exec(y, m) {
        return None;
    }
    Some((y as i32, m, d))
}

/// Reads a record line: a date field and a milliseconds field.
pub fn parse_record(line: &[u8]) -> (r: Option<((i32, u32, u32), u64)>)
    ensures
        r matches Some(rec) <==> record_value(line@) is Some,
        r matches Some(rec) ==> record_value(line@) == Some(
            ((rec.0.0 as int, rec.0.1 as int, rec.0.2 as int), rec.1 as nat),
        ),
{
    let a = find_class_exec(line, 0, false);
    let b = find_class_exec(line, a, true);
    let c = find_class_exec(line, b, false);
    let d = find_class_exec(line, c, true);
    let e = find_class_exec(line, d, false);
    if c >= line.len() || e != line.len() {
        return None;
    }
    let date_bytes = sub_bytes(line, a, b);
    let millis_bytes = sub_bytes(line, c, d);
    match (parse_date_field(date_bytes.as_slice()), parse_millis(millis_bytes.as_slice())) {
        (Some(date), Some(ms)) => Some((date, ms)),
        _ => None,
    }
}

/// The extension, in milliseconds, that the store `content` holds for the
/// date (year, month, day).
pub fn find_extension(content: &[u8], year: i32, month: u32, day: u32) -> (r: Result<u64, StoreError>)
    ensures
        match r {
            Ok(v) => lookup(content@, 0, (year as int, month as int, day as int)) == Ok::<nat, StoreError>(v as nat),
            Err(e) => lookup(content@, 0, (year as int, month as int, day as int)) == Err::<nat, StoreError>(e),
        },
        r matches Err(e) ==> e == StoreError::MalformedLine,
{
    let ghost date = (year as int, month as int, day as int);
    let mut found: Option<u64> = None;
    let mut start: usize = 0;
    while start < content.len()
        invariant
            start <= content@.len(),
            date == (year as int, month as int, day as int),
            lookup(content@, 0, date) == first_or(opt_nat(found), lookup(content@, start as int, date)),
        decreases content@.len() - start,
    {
        let e = line_end_exec(content, start);
        let line = sub_bytes(content, start, e);
        proof {
            lemma_line_end_bounds(content@, start as int);
            if e == content.len() {
                assert(lookup(content@, e as int, date) == lookup(content@, e + 1, date));
            }
        }
        let ghost here = start as int;
        match parse_record(line.as_slice()) {
            None => {
                return Err(StoreError::MalformedLine);
            },
            Some(rec) => {
                let ghost m = if rec.0 == (year, month, day) { Some(rec.1 as nat) } else { None };
                assert(lookup(content@, here, date) == first_or(m, lookup(content@, e + 1, date)));
                if found.is_none() && rec.0.0 == year && rec.0.1 == month && rec.0.2 == day {
                    found = Some(rec.1);
                }
            },
        }
        if e == content.len() {
            start = e;
        } else {
            start = e + 1;
        }
    }
    match found {
        Some(v) => Ok(v),
        None => Ok(0),
    }
}

pub open spec fn two_digit_bytes(n: int) -> Seq<u8> {
    seq![(48 + n / 10) as u8, (48 + n % 10) as u8]
}

pub open spec fn three_digit_bytes(n: int) -> Seq<u8> {
    seq![(48 + n / 100) as u8, (48 + (n / 10) % 10) as u8, (48 + n % 10) as u8]
}

/// `MM/DD/YY`, the year taken modulo 100.
pub open spec fn date_field(y: int, m: int, d: int) -> Seq<u8> {
    two_digit_bytes(m) + seq![47u8] + two_digit_bytes(d) + seq![47u8] + two_digit_bytes(y % 100)
}

/// Milliseconds written as seconds: `120` when whole, else `90.500`.
pub open spec fn millis_field(ms: nat) -> Seq<u8> {
    if ms % 1000 == 0 {
        decimal_bytes(ms / 1000)
    } else {
        decimal_bytes(ms / 1000) + seq![46u8] + three_digit_bytes((ms % 1000) as int)
    }
}

pub open spec fn record_bytes(y: int, m: int, d: int, ms: nat) -> Seq<u8> {
    date_field(y, m, d) + seq![32u8] + millis_field(ms)
}

/// The store's whole content for an extension of `millis` on the date
/// (year, month, day).
pub fn extension_record(year: i32, month: u32, day: u32, millis: u64) -> (r: Vec<u8>)
    requires
        1 <= month <= 12,
        1 <= day <= 31,
    ensures
        r@ == record_bytes(year as int, month as int, day as int, millis as nat),
{
    let yy: u32 = if year >= 0 {
        (year as u32) % 100
    } else {
        let n: u32 = ((-(year as i64)) as u64 % 100) as u32;
        (100 - n) % 100
    };
    assert(yy == (year as int) % 100);
    let mut out: Vec<u8> = Vec::new();
    out.push(48 + (month / 10) as u8);
    out.push(48 + (month % 10) as u8);
    out.push(47);
    out.push(48 + (day / 10) as u8);
    out.push(48 + (day % 10) as u8);
    out.push(47);
    out.push(48 + (yy / 10) as u8);
    out.push(48 + (yy % 10) as u8);
    out.push(32);
    push_decimal(&mut out, millis / 1000);
    let frac = millis % 1000;
    if frac != 0 {
        out.push(46);
        out.push(48 + (frac / 100) as u8);
        out.push(48 + ((frac / 10) % 10) as u8);
        out.push(48 + (frac % 10) as u8);
    }
    assert(out@ =~= record_bytes(year as int, month as int, day as int, millis as nat));
    out
}

/// The store's whole content after extending `day` by `millis`: writing
/// replaces every earlier record.
pub fn store_record(day: LogicalDay, millis: u64) -> (r: Result<Vec<u8>, StoreError>)
    ensures
        match r {
            Ok(bytes) => {
                let c = civil_of_epoch_day(day.epoch_day as int);
                &&& bytes@ == record_bytes(c.0, c.1, c.2, millis as nat)
                &&& 1970 <= c.0 <= 2069 ==> lookup(bytes@, 0, c) == Ok::<nat, StoreError>(millis as nat)
            },
            Err(e) => e == StoreError::DayOutOfRange,
        },
        -90_000_000 <= day.epoch_day <= 90_000_000 ==> r is Ok,
{
    match civil_date(day) {
        Some(c) => {
            proof {
                if 1970 <= c.0 <= 2069 {
                    lemma_record_round_trip(c.0 as int, c.1 as int, c.2 as int, millis as nat, (0, 0, 0));
                }
            }
            Ok(extension_record(c.0, c.1, c.2, millis))
        },
        None => Err(StoreError::DayOutOfRange),
    }
}

/// The extension, in milliseconds, for `day`: 0 when there is no store
/// (`content` is `None`) or no record for the day.
pub fn load_extension(content: Option<&[u8]>, day: LogicalDay) -> (r: Result<u64, StoreError>)
    ensures
        content is None ==> r == Ok::<u64, StoreError>(0),
        content matches Some(bytes) ==> match r {
            Ok(v) => lookup(bytes@, 0, civil_of_epoch_day(day.epoch_day as int)) == Ok::<nat, StoreError>(v as nat),
            Err(e) => e == StoreError::DayOutOfRange
                || lookup(bytes@, 0, civil_of_epoch_day(day.epoch_day as int)) == Err::<nat, StoreError>(e),
        },
        -90_000_000 <= day.epoch_day <= 90_000_000 ==> r != Err::<u64, StoreError>(StoreError::DayOutOfRange),
{
    match content {
        None => Ok(0),
        Some(bytes) => match civil_date(day) {
            Some(c) => find_extension(bytes, c.0, c.1, c.2),
            None => Err(StoreError::DayOutOfRange),
        },
    }
}

proof fn lemma_find_class_at(s: Seq<u8>, i: int, j: int, space: bool)
    requires
        0 <= i <= j <= s.len(),
        forall|k: int| i <= k < j ==> is_space(#[trigger] s[k]) != space,
        j == s.len() || is_space(s[j]) == space,
    ensures
        find_class(s, i, space) == j,
    decreases j - i,
{
    if i < j {
        lemma_find_class_at(s, i + 1, j, space);
    }
}

proof fn lemma_no_line_break(s: Seq<u8>, i: int)
    requires
        0 <= i <= s.len(),
        forall|k: int| i <= k < s.len() ==> #[trigger] s[k] != 10,
    ensures
        line_end(s, i) == s.len(),
    decreases s.len() - i,
{
    if i < s.len() {
        lemma_no_line_break(s, i + 1);
    }
}

proof fn lemma_first_non_digit_at(s: Seq<u8>, i: int, j: int)
    requires
        0 <= i <= j <= s.len(),
        forall|k: int| i <= k < j ==> is_digit(#[trigger] s[k]),
        j == s.len() || !is_digit(s[j]),
    ensures
        first_non_digit(s, i) == j,
    decreases j - i,
{
    if i < j {
        lemma_first_non_digit_at(s, i + 1, j);
    }
}

proof fn lemma_date_field(y: int, m: int, d: int)
    requires
        1970 <= y <= 2069,
        valid_date(y, m, d),
    ensures
        date_field(y, m, d).len() == 8,
        date_field_value(date_field(y, m, d)) == Some((y, m, d)),
        forall|k: int| 0 <= k < 8 ==> !is_space(#[trigger] date_field(y, m, d)[k]) && date_field(y, m, d)[k] != 10,
{
    let f = date_field(y, m, d);
    let yy = y % 100;
    assert(full_year(yy) == y);
    assert(two_digit_value(f, 0) == m);
    assert(two_digit_value(f, 3) == d);
    assert(two_digit_value(f, 6) == yy);
}

proof fn lemma_millis_field(ms: nat)
    requires
        ms <= u64::MAX,
    ensures
        decimal_millis(millis_field(ms)) == Some(ms),
        millis_field(ms).len() > 0,
        forall|k: int| 0 <= k < millis_field(ms).len() ==> !is_space(#[trigger] millis_field(ms)[k])
            && millis_field(ms)[k] != 10,
{
    let w = decimal_bytes(ms / 1000);
    lemma_decimal_bytes_digits(ms / 1000);
    let f = millis_field(ms);
    assert(forall|k: int| 0 <= k < w.len() ==> is_digit(#[trigger] w[k]));
    if ms % 1000 == 0 {
        lemma_first_non_digit_at(f, 0, f.len() as int);
    } else {
        let k = w.len() as int;
        let frac = (ms % 1000) as int;
        assert(forall|i: int| 0 <= i < k ==> f[i] == w[i]);
        lemma_first_non_digit_at(f, 0, k);
        assert(f.take(k) =~= w);
        let t = f.skip(k + 1);
        assert(t =~= three_digit_bytes(frac));
        assert(all_digits(t));
        assert(fraction_millis(t) == frac);
    }
}

/// A written record reads back: the store that `record_bytes` describes
/// gives `ms` for its own date and 0 for any other date. Two-digit years
/// name 1970 to 2069, so the date's year lies in that span.
pub proof fn lemma_record_round_trip(y: int, m: int, d: int, ms: nat, other: (int, int, int))
    requires
        1970 <= y <= 2069,
        valid_date(y, m, d),
        ms <= u64::MAX,
    ensures
        lookup(record_bytes(y, m, d, ms), 0, (y, m, d)) == Ok::<nat, StoreError>(ms),
        other != (y, m, d) ==> lookup(record_bytes(y, m, d, ms), 0, other) == Ok::<nat, StoreError>(0),
{
    let s = record_bytes(y, m, d, ms);
    let df = date_field(y, m, d);
    let mf = millis_field(ms);
    lemma_date_field(y, m, d);
    lemma_millis_field(ms);
    assert(forall|k: int| 0 <= k < 8 ==> s[k] == df[k]);
    assert(forall|k: int| 9 <= k < s.len() ==> s[k] == mf[k - 9]);
    assert(forall|k: int| 0 <= k < s.len() ==> #[trigger] s[k] != 10) by {
        assert forall|k: int| 0 <= k < s.len() implies #[trigger] s[k] != 10 by {
            if k < 8 {
                assert(s[k] == df[k]);
            } else if k > 8 {
                assert(s[k] == mf[k - 9]);
            }
        }
    }
    lemma_no_line_break(s, 0);
    assert(s.subrange(0, s.len() as int) =~= s);
    lemma_find_class_at(s, 0, 0, false);
    lemma_find_class_at(s, 0, 8, true);
    lemma_find_class_at(s, 8, 9, false);
    assert forall|k: int| 9 <= k < s.len() implies is_space(#[trigger] s[k]) != true by {
        assert(s[k] == mf[k - 9]);
    }
    lemma_find_class_at(s, 9, s.len() as int, true);
    lemma_find_class_at(s, s.len() as int, s.len() as int, false);
    assert(s.subrange(0, 8) =~= df);
    assert(s.subrange(9, s.len() as int) =~= mf);
    assert(two_fields(s) == Some((df, mf)));
    assert(record_value(s) == Some(((y, m, d), ms)));
    assert(lookup(s, s.len() + 1int, other) == Ok::<nat, StoreError>(0));
    assert(lookup(s, s.len() + 1int, (y, m, d)) == Ok::<nat, StoreError>(0));
}

/// Writing a record replaces the store: after extending one date and then
/// another, the first date reads back no extension.
pub proof fn lemma_store_overwrite(
    first: (int, int, int),
    first_ms: nat,
    second: (int, int, int),
    second_ms: nat,
)
    requires
        1970 <= second.0 <= 2069,
        valid_date(second.0, second.1, second.2),
        second_ms <= u64::MAX,
        first != second,
    ensures
        lookup(record_bytes(second.0, second.1, second.2, second_ms), 0, first) == Ok::<nat, StoreError>(0),
        first_ms > 0 ==> lookup(record_bytes(second.0, second.1, second.2, second_ms), 0, first)
            != Ok::<nat, StoreError>(first_ms),
{
    lemma_record_round_trip(second.0, second.1, second.2, second_ms, first);
}

} // verus!
