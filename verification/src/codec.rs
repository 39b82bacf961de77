use vstd::prelude::*;

use crate::text::chars_to_string;

verus! {

/// Nanoseconds in one second.
pub const NANOS_PER_SEC: i64 = 1_000_000_000;

/// Raw store values beyond this magnitude are nanosecond offsets; the rest are
/// whole-second offsets.
pub const UNIT_THRESHOLD: i64 = 1_000_000_000_000;

/// Bound on the whole-second part of every decoded timestamp.
pub const SECS_BOUND: i64 = 1_000_000_000_000;

/// Nanoseconds in one day.
pub const NANOS_PER_DAY: i128 = 86_400_000_000_000;

/// A store timestamp as a signed offset from the store epoch
/// (2001-01-01 00:00:00 in local time), split into whole seconds and a
/// sub-second remainder in nanoseconds.
#[derive(Clone, Copy, Debug, PartialEq, Eq, Structural)]
pub struct Timestamp {
    pub secs: i64,
    pub nanos: i64,
}

impl Timestamp {
    /// Canonical form: the remainder is below one second in magnitude, never of
    /// the opposite sign to the seconds, and the seconds are in decodable range.
    pub open spec fn wf(self) -> bool {
        &&& -(NANOS_PER_SEC as int) < self.nanos < NANOS_PER_SEC as int
        &&& self.nanos > 0 ==> self.secs >= 0
        &&& self.nanos < 0 ==> self.secs <= 0
        &&& -(SECS_BOUND as int) <= self.secs <= SECS_BOUND as int
    }

    /// The offset as one mathematical count of nanoseconds from the epoch.
    pub open spec fn total_nanos(self) -> int {
        self.secs * (NANOS_PER_SEC as int) + self.nanos
    }
}

/// Quotient of `a` by positive `b`, truncated toward zero.
pub open spec fn trunc_div(a: int, b: int) -> int {
    if a >= 0 {
        a / b
    } else {
        -((-a) / b)
    }
}

/// Remainder matching `trunc_div`: it carries the sign of `a`.
pub open spec fn trunc_rem(a: int, b: int) -> int {
    a - b * trunc_div(a, b)
}

/// What a raw store value denotes: beyond the unit threshold in magnitude it is
/// a count of nanoseconds, split into seconds and remainder; otherwise it is a
/// count of whole seconds.
pub open spec fn spec_decode(raw: i64) -> Timestamp {
    if raw > UNIT_THRESHOLD || raw < -(UNIT_THRESHOLD as int) {
        Timestamp {
            secs: trunc_div(raw as int, NANOS_PER_SEC as int) as i64,
            nanos: trunc_rem(raw as int, NANOS_PER_SEC as int) as i64,
        }
    } else {
        Timestamp { secs: raw, nanos: 0 }
    }
}

/// Decodes a raw store value into a canonical timestamp. Total: every 64-bit
/// input, including 0, negative values and the extremes, yields a well-formed
/// timestamp and nothing panics.
pub fn cocoa_to_datetime(timestamp: i64) -> (r: Timestamp)
    ensures
        r == spec_decode(timestamp),
        r.wf(),
{
    if timestamp > UNIT_THRESHOLD || timestamp < -UNIT_THRESHOLD {
        let t: i128 = timestamp as i128;
        let neg: bool = t < 0;
        let mag: i128 = if neg {
            -t
        } else {
            t
        };
        let q: i128 = mag / (NANOS_PER_SEC as i128);
        let m: i128 = mag % (NANOS_PER_SEC as i128);
        proof {
            vstd::arithmetic::div_mod::lemma_fundamental_div_mod(
                mag as int,
                NANOS_PER_SEC as int,
            );
            vstd::arithmetic::div_mod::lemma_mod_bound(mag as int, NANOS_PER_SEC as int);
            assert(q <= 9_223_372_037) by {
                if q > 9_223_372_037 {
                    vstd::arithmetic::mul::lemma_mul_inequality(
                        9_223_372_038,
                        q as int,
                        NANOS_PER_SEC as int,
                    );
                }
            };
        }
        let secs: i64 = if neg {
            -(q as i64)
        } else {
            q as i64
        };
        let nanos: i64 = if neg {
            -(m as i64)
        } else {
            m as i64
        };
        Timestamp { secs, nanos }
    } else {
        Timestamp { secs: timestamp, nanos: 0 }
    }
}

/// The raw nanosecond encoding of a timestamp; an offset too large for the
/// store's 64-bit field encodes to 0.
pub open spec fn spec_encode(t: Timestamp) -> i64 {
    if i64::MIN <= t.total_nanos() <= i64::MAX {
        t.total_nanos() as i64
    } else {
        0
    }
}

/// Encodes a timestamp back into a raw store value, always in nanoseconds.
pub fn datetime_to_cocoa(dt: Timestamp) -> (r: i64)
    requires
        dt.wf(),
    ensures
        r == spec_encode(dt),
{
    match dt.secs.checked_mul(NANOS_PER_SEC) {
        Some(base) => match base.checked_add(dt.nanos) {
            Some(v) => v,
            None => 0,
        },
        None => 0,
    }
}

/// Strict order of two timestamps as offsets from the epoch.
pub fn timestamp_lt(a: &Timestamp, b: &Timestamp) -> (r: bool)
    requires
        a.wf(),
        b.wf(),
    ensures
        r == (a.total_nanos() < b.total_nanos()),
{
    proof {
        lemma_order_by_parts(*a, *b);
    }
    if a.secs != b.secs {
        a.secs < b.secs
    } else {
        a.nanos < b.nanos
    }
}

/// On canonical timestamps, comparing the parts lexicographically agrees with
/// comparing the total nanosecond offsets.
proof fn lemma_order_by_parts(a: Timestamp, b: Timestamp)
    requires
        a.wf(),
        b.wf(),
    ensures
        (a.total_nanos() < b.total_nanos()) == (a.secs < b.secs || (a.secs == b.secs
            && a.nanos < b.nanos)),
{
    if a.secs < b.secs {
        lemma_sec_order(a, b);
    } else if b.secs < a.secs {
        lemma_sec_order(b, a);
    }
}

/// A strictly smaller seconds part means a strictly smaller total offset.
proof fn lemma_sec_order(a: Timestamp, b: Timestamp)
    requires
        a.wf(),
        b.wf(),
        a.secs < b.secs,
    ensures
        a.total_nanos() < b.total_nanos(),
{
    if b.secs > 0 {
        // b.nanos >= 0 unless it is negative, which forces b.secs <= 0
        vstd::arithmetic::mul::lemma_mul_inequality(
            a.secs + 1,
            b.secs as int,
            NANOS_PER_SEC as int,
        );
    } else {
        // a.secs < b.secs <= 0, so a.nanos <= 0
        vstd::arithmetic::mul::lemma_mul_inequality(
            a.secs as int,
            b.secs - 1,
            NANOS_PER_SEC as int,
        );
    }
}

/// Whole days from `earlier` to `now`, truncated toward zero.
pub open spec fn spec_days_between(now: Timestamp, earlier: Timestamp) -> int {
    trunc_div(now.total_nanos() - earlier.total_nanos(), NANOS_PER_DAY as int)
}

/// Age in whole days of `earlier` as seen from `now`.
pub fn days_between(now: &Timestamp, earlier: &Timestamp) -> (r: i64)
    requires
        now.wf(),
        earlier.wf(),
    ensures
        r == spec_days_between(*now, *earlier),
{
    let ds: i128 = now.secs as i128 - earlier.secs as i128;
    proof {
        vstd::arithmetic::mul::lemma_mul_inequality(
            ds as int,
            2_000_000_000_000,
            NANOS_PER_SEC as int,
        );
        vstd::arithmetic::mul::lemma_mul_inequality(
            -2_000_000_000_000,
            ds as int,
            NANOS_PER_SEC as int,
        );
    }
    let d: i128 = ds * (NANOS_PER_SEC as i128) + (now.nanos as i128 - earlier.nanos as i128);
    let neg: bool = d < 0;
    let mag: i128 = if neg {
        -d
    } else {
        d
    };
    let q: i128 = mag / NANOS_PER_DAY;
    proof {
        vstd::arithmetic::div_mod::lemma_fundamental_div_mod(mag as int, NANOS_PER_DAY as int);
        vstd::arithmetic::div_mod::lemma_mod_bound(mag as int, NANOS_PER_DAY as int);
        assert(q <= 24_000_000_000int) by {
            if q > 24_000_000_000int {
                vstd::arithmetic::mul::lemma_mul_inequality(
                    24_000_000_001,
                    q as int,
                    NANOS_PER_DAY as int,
                );
            }
        };
    }
    if neg {
        -(q as i64)
    } else {
        q as i64
    }
}

/// The raw store value of the instant `days` days before `now`: the same
/// clamping as encoding, so an offset too large for the store's 64-bit field
/// yields 0.
pub open spec fn spec_cutoff(now: Timestamp, days: int) -> i64 {
    let total = now.total_nanos() - days * (NANOS_PER_DAY as int);
    if i64::MIN <= total <= i64::MAX {
        total as i64
    } else {
        0
    }
}

/// The raw store value bounding a window of `days` days before `now`.
pub fn window_cutoff(now: &Timestamp, days: u32) -> (r: i64)
    requires
        now.wf(),
    ensures
        r == spec_cutoff(*now, days as int),
{
    proof {
        vstd::arithmetic::mul::lemma_mul_inequality(
            now.secs as int,
            1_000_000_000_000,
            NANOS_PER_SEC as int,
        );
        vstd::arithmetic::mul::lemma_mul_inequality(
            -1_000_000_000_000,
            now.secs as int,
            NANOS_PER_SEC as int,
        );
        vstd::arithmetic::mul::lemma_mul_inequality(
            days as int,
            0x1_0000_0000,
            NANOS_PER_DAY as int,
        );
    }
    let total: i128 = now.secs as i128 * (NANOS_PER_SEC as i128) + now.nanos as i128 - (
    days as i128) * NANOS_PER_DAY;
    if total >= i64::MIN as i128 && total <= i64::MAX as i128 {
        total as i64
    } else {
        0
    }
}

/// Round trip: a second-precision timestamp far enough from the epoch to be
/// read back in nanosecond units, and near enough to encode without overflow,
/// decodes from its own encoding unchanged.
pub proof fn lemma_codec_round_trip(t: Timestamp)
    requires
        t.wf(),
        t.nanos == 0,
        t.secs > 1000 || t.secs < -1000,
        -9_223_372_036 <= t.secs <= 9_223_372_036,
    ensures
        spec_decode(spec_encode(t)) == t,
{
    let ns = NANOS_PER_SEC as int;
    let total = t.total_nanos();
    assert(total == t.secs * ns);
    if t.secs >= 0 {
        vstd::arithmetic::mul::lemma_mul_inequality(t.secs as int, 9_223_372_036, ns);
        vstd::arithmetic::mul::lemma_mul_inequality(1001, t.secs as int, ns);
        assert(spec_encode(t) == total as i64);
        vstd::arithmetic::div_mod::lemma_div_multiples_vanish(t.secs as int, ns);
        assert(trunc_div(total, ns) == t.secs);
    } else {
        vstd::arithmetic::mul::lemma_mul_inequality(-9_223_372_036, t.secs as int, ns);
        vstd::arithmetic::mul::lemma_mul_inequality(t.secs as int, -1001, ns);
        assert(spec_encode(t) == total as i64);
        vstd::arithmetic::div_mod::lemma_div_multiples_vanish(-t.secs as int, ns);
        assert((-total) == (-t.secs) * ns) by {
            vstd::arithmetic::mul::lemma_mul_unary_negation(t.secs as int, ns);
        };
        assert(trunc_div(total, ns) == t.secs);
    }
}

/// Calendar fields of a local-time instant.
pub struct CalendarFields {
    pub year: i32,
    pub month: u32,
    pub day: u32,
    pub hour: u32,
    pub minute: u32,
    pub second: u32,
}

/// The field ranges the calendar library documents.
pub open spec fn valid_fields(f: CalendarFields) -> bool {
    &&& 1 <= f.month <= 12
    &&& 1 <= f.day <= 31
    &&& f.hour <= 23
    &&& f.minute <= 59
    &&& f.second <= 59
}

/// Relies on chrono (NaiveDate::from_ymd_opt, and_hms_opt, and_local_timezone,
/// checked_add_signed, Datelike, Timelike): the store epoch 2001-01-01 00:00:00
/// in the machine's local time zone, shifted by the given offset, read back as
/// local calendar fields. The result depends on the machine's time zone, so
/// nothing beyond the documented field ranges is stated of it; chrono returns
/// None when the shifted instant leaves its representable range.
#[verifier::external_body]
fn local_calendar(secs: i64, nanos: i64) -> (r: Option<CalendarFields>)
    requires
        -SECS_BOUND <= secs <= SECS_BOUND,
        -NANOS_PER_SEC < nanos < NANOS_PER_SEC,
    ensures
        r is Some ==> valid_fields(r->0),
{
    let epoch = chrono::NaiveDate::from_ymd_opt(2001, 1, 1)
        .and_then(|d| d.and_hms_opt(0, 0, 0))
        .and_then(|t| t.and_local_timezone(chrono::Local).latest())?;
    let dt = epoch
        .checked_add_signed(chrono::Duration::seconds(secs))
        .and_then(|t| t.checked_add_signed(chrono::Duration::nanoseconds(nanos)))?;
    Some(CalendarFields {
        year: chrono::Datelike::year(&dt),
        month: chrono::Datelike::month(&dt),
        day: chrono::Datelike::day(&dt),
        hour: chrono::Timelike::hour(&dt),
        minute: chrono::Timelike::minute(&dt),
        second: chrono::Timelike::second(&dt),
    })
}

/// The character for one decimal digit.
pub open spec fn dec_digit(d: int) -> char {
    (48 + d) as char
}

/// The decimal digits of a nonnegative number, most significant first.
pub open spec fn dec_str(n: int) -> Seq<char>
    decreases n,
{
    if n <= 9 {
        seq![dec_digit(n)]
    } else {
        dec_str(n / 10).push(dec_digit(n % 10))
    }
}

/// `n` zero-padded to four digits, as the presentation format asks of years.
pub open spec fn padded4(n: int) -> Seq<char> {
    if dec_str(n).len() >= 4 {
        dec_str(n)
    } else {
        Seq::new((4 - dec_str(n).len()) as nat, |i: int| '0') + dec_str(n)
    }
}

/// A year as the presentation format renders it: four zero-padded digits, a
/// leading `+` beyond 9999, a leading `-` and four zero-padded digits below 0.
pub open spec fn year_str(y: int) -> Seq<char> {
    if 0 <= y <= 9999 {
        padded4(y)
    } else if y > 9999 {
        seq!['+'] + dec_str(y)
    } else {
        seq!['-'] + padded4(-y)
    }
}

/// A value below 100 as exactly two decimal digits.
pub open spec fn two_digits(n: int) -> Seq<char> {
    seq![dec_digit(n / 10), dec_digit(n % 10)]
}

/// The full fixed presentation pattern for calendar fields.
pub open spec fn spec_render_calendar(f: CalendarFields) -> Seq<char> {
    year_str(f.year as int) + seq!['-'] + two_digits(f.month as int) + seq!['-'] + two_digits(
        f.day as int,
    ) + seq![' '] + two_digits(f.hour as int) + seq![':'] + two_digits(f.minute as int) + seq![':']
        + two_digits(f.second as int)
}

/// The character of a single decimal digit.
fn digit_char(d: u32) -> (r: char)
    requires
        d <= 9,
    ensures
        r == dec_digit(d as int),
{
    if d == 0 {
        '0'
    } else if d == 1 {
        '1'
    } else if d == 2 {
        '2'
    } else if d == 3 {
        '3'
    } else if d == 4 {
        '4'
    } else if d == 5 {
        '5'
    } else if d == 6 {
        '6'
    } else if d == 7 {
        '7'
    } else if d == 8 {
        '8'
    } else {
        '9'
    }
}

/// Appends the decimal digits of `n`.
fn push_dec(out: &mut Vec<char>, n: u64)
    ensures
        final(out)@ == old(out)@ + dec_str(n as int),
    decreases n,
{
    if n <= 9 {
        out.push(digit_char(n as u32));
        assert(final(out)@ =~= old(out)@ + dec_str(n as int));
    } else {
        push_dec(out, n / 10);
        out.push(digit_char((n % 10) as u32));
        assert(final(out)@ =~= old(out)@ + dec_str(n as int));
    }
}

/// How many digits `dec_str` yields for small values.
proof fn lemma_dec_len(n: int)
    requires
        0 <= n <= 9999,
    ensures
        n <= 9 ==> dec_str(n).len() == 1,
        10 <= n <= 99 ==> dec_str(n).len() == 2,
        100 <= n <= 999 ==> dec_str(n).len() == 3,
        1000 <= n ==> dec_str(n).len() == 4,
{
    reveal_with_fuel(dec_str, 5);
}

/// Appends `n` zero-padded to four digits.
fn push_padded4(out: &mut Vec<char>, n: u64)
    requires
        n <= 9999,
    ensures
        final(out)@ == old(out)@ + padded4(n as int),
{
    proof {
        lemma_dec_len(n as int);
    }
    if n <= 9 {
        out.push('0');
        out.push('0');
        out.push('0');
    } else if n <= 99 {
        out.push('0');
        out.push('0');
    } else if n <= 999 {
        out.push('0');
    }
    push_dec(out, n);
    assert(final(out)@ =~= old(out)@ + padded4(n as int));
}

/// Appends a value below 100 as exactly two digits.
fn push_two(out: &mut Vec<char>, n: u32)
    requires
        n <= 99,
    ensures
        final(out)@ == old(out)@ + two_digits(n as int),
{
    out.push(digit_char(n / 10));
    out.push(digit_char(n % 10));
    assert(final(out)@ =~= old(out)@ + two_digits(n as int));
}

/// Renders calendar fields in the fixed presentation pattern
/// (four-digit year, then month, day, hour, minute, second, two digits each).
pub fn render_calendar(f: &CalendarFields) -> (r: String)
    requires
        valid_fields(*f),
    ensures
        r@ == spec_render_calendar(*f),
{
    let mut out: Vec<char> = Vec::new();
    if 0 <= f.year && f.year <= 9999 {
        push_padded4(&mut out, f.year as u64);
    } else if f.year > 9999 {
        out.push('+');
        push_dec(&mut out, f.year as u64);
    } else {
        out.push('-');
        let mag: i64 = -(f.year as i64);
        if mag <= 9999 {
            push_padded4(&mut out, mag as u64);
        } else {
            push_dec(&mut out, mag as u64);
            proof {
                lemma_dec_len_large(mag as int);
            }
        }
    }
    assert(out@ =~= year_str(f.year as int));
    out.push('-');
    push_two(&mut out, f.month);
    out.push('-');
    push_two(&mut out, f.day);
    out.push(' ');
    push_two(&mut out, f.hour);
    out.push(':');
    push_two(&mut out, f.minute);
    out.push(':');
    push_two(&mut out, f.second);
    assert(out@ =~= spec_render_calendar(*f));
    chars_to_string(&out)
}

/// Beyond four digits no padding is added.
proof fn lemma_dec_len_large(n: int)
    requires
        n >= 10000,
    ensures
        dec_str(n).len() >= 4,
    decreases n,
{
    reveal_with_fuel(dec_str, 5);
    if n >= 100000 {
        lemma_dec_len_large(n / 10);
    } else {
        lemma_dec_len(n / 10);
    }
}

/// Formats a raw store timestamp for presentation; an absent value stays
/// absent, and a value the calendar library cannot place yields nothing
/// rather than failing.
pub fn format_timestamp(ts: Option<i64>) -> (r: Option<String>)
    ensures
        ts is None ==> r is None,
        r is Some ==> ts is Some,
        r is Some ==> exists|f: CalendarFields|
            valid_fields(f) && r->0@ == spec_render_calendar(f),
{
    match ts {
        None => None,
        Some(raw) => {
            let t = cocoa_to_datetime(raw);
            match local_calendar(t.secs, t.nanos) {
                None => None,
                Some(f) => Some(render_calendar(&f)),
            }
        },
    }
}

} // verus!
