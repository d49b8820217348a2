//! Sizes, times and short names as they are shown.

use vstd::prelude::*;
use crate::text::{chars_of, decimal, decimal_of, digit_char, string_of, Text};
use crate::trust::TrustLevel;

verus! {

// ---------------------------------------------------------------------------------------
// Sizes

/// `a / b`, rounded to the nearest whole number, a half to the even one.
pub open spec fn rounded(a: nat, b: nat) -> nat {
    let q = a / b;
    let rest = a % b;
    if 2 * rest > b || (2 * rest == b && q % 2 == 1) {
        q + 1
    } else {
        q
    }
}

/// The least doubling of `step` with which 53 binary digits hold `n`.
pub open spec fn precision(n: nat, step: nat) -> nat
    decreases
            (if n >= 0x20_0000_0000_0000 * step {
                n - 0x20_0000_0000_0000 * step + 1
            } else {
                0
            }),
{
    if step > 0 && n >= 0x20_0000_0000_0000 * step {
        precision(n, 2 * step)
    } else {
        step
    }
}

/// `n` rounded to 53 binary digits, which is how a double holds it.
pub open spec fn as_double(n: nat) -> nat {
    rounded(n, precision(n, 1)) * precision(n, 1)
}

/// The unit in which a size is shown: how many bytes it has, and which one it is.
pub open spec fn unit_for(size: nat, bytes: nat, unit: nat) -> (nat, nat)
    decreases 5 - unit,
{
    if unit < 5 && size >= bytes * 1024 {
        unit_for(size, bytes * 1024, unit + 1)
    } else {
        (bytes, unit)
    }
}

/// The names of the units.
pub open spec fn unit_name(unit: nat) -> Text {
    if unit == 0 {
        "B"@
    } else if unit == 1 {
        "KiB"@
    } else if unit == 2 {
        "MiB"@
    } else if unit == 3 {
        "GiB"@
    } else if unit == 4 {
        "TiB"@
    } else {
        "PiB"@
    }
}

/// A size as it is shown: whole bytes below 1024, above that one decimal in the largest
/// unit that is not larger than the size.
pub open spec fn bytes_text(n: nat) -> Text {
    let size = as_double(n);
    let (bytes, unit) = unit_for(size, 1, 0);
    if unit == 0 {
        decimal(n) + " "@ + "B"@
    } else {
        let tenths = rounded(size * 10, bytes);
        decimal(tenths / 10) + "."@ + decimal(tenths % 10) + " "@ + unit_name(unit)
    }
}

fn round_of(a: u128, b: u128) -> (r: u128)
    requires
        0 < b <= 0x4_0000_0000_0000,
        a <= 0x100_0000_0000_0000_0000,
    ensures
        r == rounded(a as nat, b as nat),
        r <= a / b + 1,
{
    let q: u128 = a / b;
    let rest: u128 = a % b;
    assert(q <= a) by (nonlinear_arith)
        requires
            q == a / b,
            b > 0,
    ;
    if 2 * rest > b || (2 * rest == b && q % 2 == 1) {
        q + 1
    } else {
        q
    }
}

fn double_of(n: u64) -> (r: u128)
    ensures
        r == as_double(n as nat),
        r <= 0x1_0000_0000_0000_0000,
{
    let m: u128 = n as u128;
    let mut step: u128 = 1;
    while m >= 0x20_0000_0000_0000 * step
        invariant
            m == n,
            1 <= step <= 0x800,
            step == 0x800 || step == 0x400 || step == 0x200 || step == 0x100 || step == 0x80 || step
                == 0x40 || step == 0x20 || step == 0x10 || step == 8 || step == 4 || step == 2
                || step == 1,
            precision(n as nat, 1) == precision(n as nat, step as nat),
        decreases 0x1000 - step,
    {
        step = step * 2;
    }
    let q: u128 = round_of(m, step);
    assert(q <= 0x20_0000_0000_0000) by (nonlinear_arith)
        requires
            m < 0x20_0000_0000_0000 * step,
            q <= m / step + 1,
            step >= 1,
    ;
    assert(0 <= q * step <= 0x1_0000_0000_0000_0000) by (nonlinear_arith)
        requires
            0 <= q <= 0x20_0000_0000_0000,
            1 <= step <= 0x800,
    ;
    q * step
}

/// The name of a unit.
fn unit_label(unit: usize) -> (r: &'static str)
    ensures
        r@ == unit_name(unit as nat),
{
    if unit == 0 {
        "B"
    } else if unit == 1 {
        "KiB"
    } else if unit == 2 {
        "MiB"
    } else if unit == 3 {
        "GiB"
    } else if unit == 4 {
        "TiB"
    } else {
        "PiB"
    }
}

/// A size as it is shown.
pub fn human_bytes(n: u64) -> (r: String)
    ensures
        r@ == bytes_text(n as nat),
{
    let size: u128 = double_of(n);
    let mut bytes: u128 = 1;
    let mut unit: usize = 0;
    while unit < 5 && size >= bytes * 1024
        invariant
            unit <= 5,
            size == as_double(n as nat),
            size <= 0x1_0000_0000_0000_0000,
            1 <= bytes,
            unit == 0 ==> bytes == 1,
            unit == 1 ==> bytes == 0x400,
            unit == 2 ==> bytes == 0x10_0000,
            unit == 3 ==> bytes == 0x4000_0000,
            unit == 4 ==> bytes == 0x100_0000_0000,
            unit == 5 ==> bytes == 0x4_0000_0000_0000,
            unit_for(size as nat, 1, 0) == unit_for(size as nat, bytes as nat, unit as nat),
        decreases 5 - unit,
    {
        bytes = bytes * 1024;
        unit = unit + 1;
    }
    if unit == 0 {
        decimal_of(n).concat(" ").concat("B")
    } else {
        let tenths: u128 = round_of(size * 10, bytes);
        assert(tenths <= 0x1_0000_0000) by (nonlinear_arith)
            requires
                tenths <= (size * 10) / (bytes as int) + 1,
                size <= 0x1_0000_0000_0000_0000,
                size < bytes * 1024 || bytes == 0x4_0000_0000_0000,
                bytes >= 1,
        ;
        let t: u64 = tenths as u64;
        decimal_of(t / 10).concat(".").concat(decimal_of(t % 10).as_str()).concat(" ").concat(
            unit_label(unit),
        )
    }
}

/// Below 2^53, where a double holds every whole number, nothing is lost before the rounding
/// to tenths.
pub proof fn law_small_sizes_are_exact(n: nat)
    requires
        n < 0x20_0000_0000_0000,
    ensures
        as_double(n) == n,
{
    assert(precision(n, 1) == 1);
    assert(n / 1 == n && n % 1 == 0) by (nonlinear_arith);
    assert(rounded(n, 1) == n);
}

proof fn lemma_unit_for(size: nat, bytes: nat, unit: nat)
    requires
        unit <= 5,
        unit == 0 || bytes <= size,
    ensures
        unit_for(size, bytes, unit).1 <= 5,
        unit_for(size, bytes, unit).1 >= unit,
        unit_for(size, bytes, unit).1 > 0 ==> unit_for(size, bytes, unit).0 <= size,
        unit_for(size, bytes, unit).1 < 5 ==> size < unit_for(size, bytes, unit).0 * 1024,
    decreases 5 - unit,
{
    if unit < 5 && size >= bytes * 1024 {
        lemma_unit_for(size, bytes * 1024, unit + 1);
    }
}

/// The unit is the largest that is not larger than the size; only the last one goes on
/// without end.
pub proof fn law_unit_fits(size: nat)
    ensures
        ({
            let (bytes, unit) = unit_for(size, 1, 0);
            &&& unit <= 5
            &&& unit > 0 ==> bytes <= size
            &&& unit < 5 ==> size < bytes * 1024
        }),
{
    lemma_unit_for(size, 1, 0);
}

// ---------------------------------------------------------------------------------------
// Times

/// Whether the year has a 29th of February.
pub open spec fn is_leap_year(y: int) -> bool {
    y % 4 == 0 && (y % 100 != 0 || y % 400 == 0)
}

/// How many days the month has.
pub open spec fn days_in_month(y: int, m: int) -> int {
    if m == 2 {
        if is_leap_year(y) {
            29
        } else {
            28
        }
    } else if m == 4 || m == 6 || m == 9 || m == 11 {
        30
    } else {
        31
    }
}

/// How many days there are from the start of 1970 to the start of the year.
pub open spec fn days_to_year(y: int) -> int
    decreases y,
{
    if y <= 1970 {
        0
    } else if is_leap_year(y - 1) {
        days_to_year(y - 1) + 366
    } else {
        days_to_year(y - 1) + 365
    }
}

/// How many days there are from the start of the year to the start of the month.
pub open spec fn days_to_month(y: int, m: int) -> int
    decreases m,
{
    if m <= 1 {
        0
    } else {
        days_to_month(y, m - 1) + days_in_month(y, m - 1)
    }
}

/// Whether the day, counted from the start of 1970, is the one of that date.
pub open spec fn is_date(day: int, y: int, m: int, d: int) -> bool {
    &&& 1970 <= y
    &&& 1 <= m <= 12
    &&& 1 <= d <= days_in_month(y, m)
    &&& day == days_to_year(y) + days_to_month(y, m) + d - 1
}

/// A number in two digits.
pub open spec fn two_digits(n: int) -> Text {
    seq![digit_char(n / 10), digit_char(n % 10)]
}

/// A minute of a day as `2001-07-08 00:34`.
pub open spec fn minute_text(y: int, m: int, d: int, minute: int) -> Text {
    two_digits(y / 100) + two_digits(y % 100) + "-"@ + two_digits(m) + "-"@ + two_digits(d) + " "@
        + two_digits(minute / 60) + ":"@ + two_digits(minute % 60)
}

/// Whether the text is the minute of the time, as far as the year has four digits.
pub open spec fn is_minute_of(t: Text, secs: i64) -> bool {
    0 <= secs < 253_402_300_800 ==> forall|y: int, m: int, d: int| #[trigger]
        is_date(secs as int / 86_400, y, m, d) ==> t == minute_text(
            y,
            m,
            d,
            secs as int % 86_400 / 60,
        )
}

/// What chrono gives for `from_timestamp(secs, 0)`, or for the start of 1970 where that is
/// out of its range, formatted by `pattern`.
pub uninterp spec fn utc_text(secs: i64, pattern: Text) -> Text;

/// Calls `chrono::DateTime::<Utc>::from_timestamp` and formats the result with
/// `chrono::DateTime::format`. The text is a function of the seconds and of the pattern; from
/// 1970 to the end of 9999 it is the minute of the proleptic Gregorian calendar, as chrono
/// documents `%Y`, `%m`, `%d`, `%H` and `%M`. What it is for later times is not said. Other
/// patterns are left out: chrono cannot read some.
#[verifier::external_body]
fn format_utc(secs: i64, pattern: &str) -> (r: String)
    requires
        pattern@ == "%Y-%m-%d %H:%M"@,
    ensures
        r@ == utc_text(secs, pattern@),
        is_minute_of(r@, secs),
{
    let dt = chrono::DateTime::<chrono::Utc>::from_timestamp(secs, 0).unwrap_or_default();
    dt.format(pattern).to_string()
}

/// A time as it is shown.
pub open spec fn unix_text(ts: i64) -> Text {
    if ts <= 0 {
        "never"@
    } else {
        utc_text(ts, "%Y-%m-%d %H:%M"@)
    }
}

/// A time as it is shown: the minute in UTC, or `never` for a time that is not after 1970
/// began.
pub fn fmt_unix(ts: i64) -> (r: String)
    ensures
        r@ == unix_text(ts),
        ts > 0 ==> is_minute_of(r@, ts),
{
    if ts <= 0 {
        return "never".to_string();
    }
    format_utc(ts, "%Y-%m-%d %H:%M")
}

// ---------------------------------------------------------------------------------------
// Short names

/// How many bytes a character takes in UTF-8.
pub open spec fn char_bytes(c: char) -> nat {
    let n = c as u32;
    if n < 0x80 {
        1
    } else if n < 0x800 {
        2
    } else if n < 0x10000 {
        3
    } else {
        4
    }
}

/// How many bytes a text takes in UTF-8.
pub open spec fn text_bytes(t: Text) -> nat
    decreases t.len(),
{
    if t.len() == 0 {
        0
    } else {
        text_bytes(t.drop_last()) + char_bytes(t.last())
    }
}

/// The longest beginning of `t` of at most `n` bytes.
pub open spec fn byte_prefix(t: Text, n: nat) -> Text
    decreases t.len(),
{
    if text_bytes(t) <= n {
        t
    } else {
        byte_prefix(t.drop_last(), n)
    }
}

/// The longest end of `t` of at most `n` bytes.
pub open spec fn byte_suffix(t: Text, n: nat) -> Text
    decreases t.len(),
{
    if t.len() == 0 || text_bytes(t) <= n {
        t
    } else {
        byte_suffix(t.drop_first(), n)
    }
}

fn bytes_of_char(c: char) -> (r: usize)
    ensures
        r == char_bytes(c),
        1 <= r <= 4,
{
    let n: u32 = c as u32;
    if n < 0x80 {
        1
    } else if n < 0x800 {
        2
    } else if n < 0x10000 {
        3
    } else {
        4
    }
}

proof fn lemma_bytes_take(t: Text, i: int)
    requires
        0 <= i < t.len(),
    ensures
        text_bytes(t.take(i + 1)) == text_bytes(t.take(i)) + char_bytes(t[i]),
{
    assert(t.take(i + 1).drop_last() =~= t.take(i));
    assert(t.take(i + 1).last() == t[i]);
}

proof fn lemma_bytes_grow(t: Text, i: int)
    requires
        0 <= i <= t.len(),
    ensures
        text_bytes(t.take(i)) <= text_bytes(t),
        text_bytes(t.take(i)) + (t.len() - i) <= text_bytes(t),
    decreases t.len() - i,
{
    if i < t.len() {
        lemma_bytes_take(t, i);
        lemma_bytes_grow(t, i + 1);
    } else {
        assert(t.take(i) =~= t);
    }
}

proof fn lemma_byte_prefix(t: Text, n: nat, i: int)
    requires
        0 <= i <= t.len(),
        text_bytes(t.take(i)) <= n,
        i < t.len() ==> text_bytes(t.take(i + 1)) > n,
    ensures
        byte_prefix(t, n) == t.take(i),
    decreases t.len(),
{
    if i < t.len() {
        lemma_bytes_grow(t, i + 1);
        if i < t.len() - 1 {
            assert(t.drop_last().take(i + 1) =~= t.take(i + 1));
        }
        assert(t.drop_last().take(i) =~= t.take(i));
        lemma_byte_prefix(t.drop_last(), n, i);
    } else {
        assert(t.take(i) =~= t);
    }
}

proof fn lemma_bytes_first(t: Text)
    requires
        t.len() > 0,
    ensures
        text_bytes(t) == char_bytes(t[0]) + text_bytes(t.drop_first()),
    decreases t.len(),
{
    if t.len() == 1 {
        assert(t.drop_last() =~= Seq::<char>::empty());
        assert(t.drop_first() =~= Seq::<char>::empty());
    } else {
        lemma_bytes_first(t.drop_last());
        assert(t.drop_last().drop_first() =~= t.drop_first().drop_last());
        assert(t.drop_first().last() == t.last());
    }
}

/// The longest beginning of `s` of at most `n` bytes, and whether that is all of it.
fn cut_bytes(s: &Vec<char>, n: usize) -> (r: (String, bool))
    ensures
        r.0@ == byte_prefix(s@, n as nat),
        r.1 == (text_bytes(s@) <= n),
{
    let ghost t = s@;
    let mut i: usize = 0;
    let mut used: usize = 0;
    assert(t.take(0) =~= Seq::<char>::empty());
    while i < s.len() && bytes_of_char(s[i]) <= n - used
        invariant
            i <= s@.len(),
            t == s@,
            used == text_bytes(t.take(i as int)),
            used <= n,
        decreases s@.len() - i,
    {
        proof {
            lemma_bytes_take(t, i as int);
        }
        used = used + bytes_of_char(s[i]);
        i += 1;
    }
    proof {
        if i < s@.len() {
            lemma_bytes_take(t, i as int);
            lemma_bytes_grow(t, i + 1);
        } else {
            assert(t.take(i as int) =~= t);
        }
        lemma_byte_prefix(t, n as nat, i as int);
    }
    let head = vstd::slice::slice_subrange(s.as_slice(), 0, i);
    assert(head@ =~= t.take(i as int));
    (string_of(head), i == s.len())
}

/// Whether `s` takes at most `n` bytes.
pub fn takes_at_most(s: &str, n: usize) -> (r: bool)
    ensures
        r == (text_bytes(s@) <= n),
{
    let c = chars_of(s);
    cut_bytes(&c, n).1
}

/// At most the first `n` bytes of `s`, in whole characters.
pub fn first_bytes(s: &str, n: usize) -> (r: String)
    ensures
        r@ == byte_prefix(s@, n as nat),
{
    let c = chars_of(s);
    let (head, _all) = cut_bytes(&c, n);
    head
}

/// At most the last `n` bytes of `s`, in whole characters.
pub fn last_bytes(s: &str, n: usize) -> (r: String)
    ensures
        r@ == byte_suffix(s@, n as nat),
{
    let c = chars_of(s);
    let ghost t = s@;
    let mut i: usize = c.len();
    let mut used: usize = 0;
    assert(t.skip(i as int) =~= Seq::<char>::empty());
    while i > 0 && bytes_of_char(c[i - 1]) <= n - used
        invariant
            i <= c@.len(),
            t == c@,
            used == text_bytes(t.skip(i as int)),
            used <= n,
        decreases i,
    {
        proof {
            lemma_bytes_first(t.skip(i - 1));
            assert(t.skip(i - 1).drop_first() =~= t.skip(i as int));
        }
        used = used + bytes_of_char(c[i - 1]);
        i -= 1;
    }
    proof {
        if i > 0 {
            lemma_bytes_first(t.skip(i - 1));
            assert(t.skip(i - 1).drop_first() =~= t.skip(i as int));
        }
        lemma_byte_suffix(t, n as nat, i as int);
    }
    let tail = vstd::slice::slice_subrange(c.as_slice(), i, c.len());
    assert(tail@ =~= t.skip(i as int));
    string_of(tail)
}

proof fn lemma_byte_suffix(t: Text, n: nat, i: int)
    requires
        0 <= i <= t.len(),
        text_bytes(t.skip(i)) <= n,
        i > 0 ==> text_bytes(t.skip(i - 1)) > n,
    ensures
        byte_suffix(t, n) == t.skip(i),
    decreases t.len(),
{
    if i == 0 {
        assert(t.skip(0) =~= t);
    } else {
        lemma_skip_grows(t, i - 1);
        assert(t.drop_first().skip(i - 1) =~= t.skip(i));
        if i > 1 {
            assert(t.drop_first().skip(i - 2) =~= t.skip(i - 1));
        }
        lemma_byte_suffix(t.drop_first(), n, i - 1);
    }
}

proof fn lemma_skip_grows(t: Text, i: int)
    requires
        0 <= i <= t.len(),
    ensures
        text_bytes(t.skip(i)) <= text_bytes(t),
    decreases i,
{
    if i == 0 {
        assert(t.skip(0) =~= t);
    } else {
        lemma_skip_grows(t, i - 1);
        lemma_bytes_first(t.skip(i - 1));
        assert(t.skip(i - 1).drop_first() =~= t.skip(i));
    }
}

/// What is cut off at the end is cut no earlier than it has to be.
pub proof fn law_first_bytes(t: Text, n: nat)
    ensures
        byte_prefix(t, n).is_prefix_of(t),
        text_bytes(byte_prefix(t, n)) <= n,
        byte_prefix(t, n).len() < t.len() ==> text_bytes(
            t.take(byte_prefix(t, n).len() as int + 1),
        ) > n,
    decreases t.len(),
{
    if text_bytes(t) <= n {
        assert(t.is_prefix_of(t));
    } else {
        let rest = t.drop_last();
        law_first_bytes(rest, n);
        let k = byte_prefix(rest, n).len() as int;
        if k < rest.len() {
            assert(rest.take(k + 1) =~= t.take(k + 1));
        } else {
            assert(t.take(k + 1) =~= t);
        }
    }
}

/// A uuid as it is shown in titles.
pub open spec fn short_uuid_text(u: Text) -> Text {
    if text_bytes(u) > 8 {
        byte_prefix(u, 8) + "…"@
    } else {
        u
    }
}

/// A uuid as it is shown in titles: its first eight bytes, in whole characters, and an
/// ellipsis where something is left out.
pub fn short_uuid(u: &str) -> (r: String)
    ensures
        r@ == short_uuid_text(u@),
{
    let c = chars_of(u);
    let (head, all) = cut_bytes(&c, 8);
    if all {
        string_of(c.as_slice())
    } else {
        head.concat("…")
    }
}

// ---------------------------------------------------------------------------------------
// Colors

/// The colors of the terminal that the views use.
#[derive(Debug, Clone, Copy, PartialEq, Eq, Structural)]
pub enum Color {
    Reset,
    Red,
    Green,
    Yellow,
    Blue,
    Magenta,
    Cyan,
    Gray,
    DarkGray,
    White,
}

/// The color of a trust level.
pub fn trust_color(trust: TrustLevel) -> (r: Color)
    ensures
        r == (match trust {
            TrustLevel::Trusted => Color::Green,
            TrustLevel::SemiTrusted => Color::Yellow,
            TrustLevel::UnTrusted => Color::Red,
            TrustLevel::Dead => Color::DarkGray,
        }),
{
    match trust {
        TrustLevel::Trusted => Color::Green,
        TrustLevel::SemiTrusted => Color::Yellow,
        TrustLevel::UnTrusted => Color::Red,
        TrustLevel::Dead => Color::DarkGray,
    }
}

// ---------------------------------------------------------------------------------------
// Laws

/// What is rounded is off by half a unit at most, and lies at the even number where it is off
/// by just that.
pub proof fn law_rounded_to_nearest(a: nat, b: nat)
    requires
        b > 0,
    ensures
        2 * a <= 2 * (rounded(a, b) * b) + b,
        2 * (rounded(a, b) * b) <= 2 * a + b,
        2 * a == 2 * (rounded(a, b) * b) + b || 2 * (rounded(a, b) * b) == 2 * a + b ==> rounded(
            a,
            b,
        ) % 2 == 0,
{
    let q = a / b;
    let rest = a % b;
    vstd::arithmetic::div_mod::lemma_fundamental_div_mod(a as int, b as int);
    assert(0 <= rest < b);
    assert(b * q == q * b) by (nonlinear_arith);
    assert((q + 1) * b == q * b + b) by (nonlinear_arith);
    assert(a == q * b + rest);
}

proof fn lemma_precision(n: nat, step: nat)
    requires
        step > 0,
        step == 1 || 2 * n >= 0x20_0000_0000_0000 * step,
    ensures
        precision(n, step) > 0,
        n < 0x20_0000_0000_0000 * precision(n, step),
        precision(n, step) == 1 || 2 * n >= 0x20_0000_0000_0000 * precision(n, step),
    decreases
            (if n >= 0x20_0000_0000_0000 * step {
                n - 0x20_0000_0000_0000 * step + 1
            } else {
                0
            }),
{
    if n >= 0x20_0000_0000_0000 * step {
        lemma_precision(n, 2 * step);
    }
}

/// A size is held with 53 binary digits: it is off by half of the last of them at most.
pub proof fn law_large_sizes_are_near(n: nat)
    ensures
        ({
            let step = precision(n, 1);
            &&& step > 0
            &&& n < 0x20_0000_0000_0000 * step
            &&& step == 1 || 2 * n >= 0x20_0000_0000_0000 * step
            &&& 2 * n <= 2 * as_double(n) + step
            &&& 2 * as_double(n) <= 2 * n + step
        }),
{
    lemma_precision(n, 1);
    law_rounded_to_nearest(n, precision(n, 1));
}

/// Whether the text shows `n` bytes in the unit: to the nearest tenth.
pub open spec fn shows_in_unit(text: Text, n: nat, bytes: nat, unit: Text) -> bool {
    exists|tenths: nat| #[trigger]
        is_nearest_tenth(n, bytes, tenths) && text == decimal(tenths / 10) + "."@ + decimal(
            tenths % 10,
        ) + " "@ + unit
}

/// Whether no other number of tenths of the unit is nearer to `n` bytes.
pub open spec fn is_nearest_tenth(n: nat, bytes: nat, tenths: nat) -> bool {
    &&& 2 * (n * 10) <= 2 * (tenths * bytes) + bytes
    &&& 2 * (tenths * bytes) <= 2 * (n * 10) + bytes
}

/// A size is shown in bytes below a KiB, and else to the nearest tenth of the largest unit
/// that is not larger than the size.
#[verifier::rlimit(40)]
pub proof fn law_size_is_shown(n: nat)
    requires
        n < 0x20_0000_0000_0000,
    ensures
        n < 0x400 ==> bytes_text(n) == decimal(n) + " "@ + "B"@,
        0x400 <= n < 0x10_0000 ==> shows_in_unit(bytes_text(n), n, 0x400, "KiB"@),
        0x10_0000 <= n < 0x4000_0000 ==> shows_in_unit(bytes_text(n), n, 0x10_0000, "MiB"@),
        0x4000_0000 <= n < 0x100_0000_0000 ==> shows_in_unit(
            bytes_text(n),
            n,
            0x4000_0000,
            "GiB"@,
        ),
        0x100_0000_0000 <= n < 0x4_0000_0000_0000 ==> shows_in_unit(
            bytes_text(n),
            n,
            0x100_0000_0000,
            "TiB"@,
        ),
        0x4_0000_0000_0000 <= n ==> shows_in_unit(bytes_text(n), n, 0x4_0000_0000_0000, "PiB"@),
{
    law_small_sizes_are_exact(n);
    reveal_with_fuel(unit_for, 6);
    let (bytes, unit) = unit_for(n, 1, 0);
    law_rounded_to_nearest(n * 10, bytes);
    assert(is_nearest_tenth(n, bytes, rounded(n * 10, bytes)));
}

/// A uuid is shown whole if it has eight bytes or fewer; else it is cut, and a mark says so.
pub proof fn law_short_uuid(u: Text)
    ensures
        text_bytes(u) <= 8 ==> short_uuid_text(u) == u,
        text_bytes(u) > 8 ==> exists|head: Text| #[trigger]
            head.is_prefix_of(u) && text_bytes(head) <= 8 && short_uuid_text(u) == head + "…"@,
{
    law_first_bytes(u, 8);
}

/// The bytes of a text are those of its parts; a character of ASCII has one.
pub proof fn law_bytes_of_parts(a: Text, b: Text, c: char)
    ensures
        text_bytes(a + b) == text_bytes(a) + text_bytes(b),
        (c as u32) < 0x80 ==> text_bytes(seq![c]) == 1,
        1 <= text_bytes(seq![c]) <= 4,
        text_bytes(Seq::empty()) == 0,
    decreases b.len(),
{
    reveal_with_fuel(text_bytes, 2);
    assert(seq![c].drop_last() =~= Seq::<char>::empty());
    assert(seq![c].last() == c);
    if b.len() == 0 {
        assert(a + b =~= a);
    } else {
        law_bytes_of_parts(a, b.drop_last(), c);
        assert((a + b).drop_last() =~= a + b.drop_last());
    }
}

/// What is cut off at the start is cut no later than it has to be.
pub proof fn law_last_bytes(t: Text, n: nat)
    ensures
        byte_suffix(t, n).is_suffix_of(t),
        text_bytes(byte_suffix(t, n)) <= n,
        byte_suffix(t, n).len() < t.len() ==> text_bytes(
            t.skip(t.len() - byte_suffix(t, n).len() - 1),
        ) > n,
    decreases t.len(),
{
    if t.len() > 0 && text_bytes(t) > n {
        let rest = t.drop_first();
        law_last_bytes(rest, n);
        let k = byte_suffix(rest, n).len() as int;
        if k < rest.len() {
            assert(rest.skip(rest.len() - k - 1) =~= t.skip(t.len() - k - 1));
        } else {
            assert(t.skip(0) =~= t);
        }
        assert(byte_suffix(t, n) =~= t.subrange(t.len() - k, t.len() as int)) by {
            assert(byte_suffix(rest, n) =~= rest.subrange(rest.len() - k, rest.len() as int));
        }
    } else {
        assert(t.subrange(0, t.len() as int) =~= t);
    }
}

/// A time before the first second was never.
pub proof fn law_never(ts: i64)
    requires
        ts <= 0,
    ensures
        unix_text(ts) == "never"@,
{
}

} // verus!
