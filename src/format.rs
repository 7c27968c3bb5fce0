//! Text forms of the numbers a listing shows: byte sizes in binary units
//! and modification times as UTC calendar time.
use vstd::prelude::*;
use chrono::{Datelike, Timelike};
use crate::text::string_of;

verus! {

/// The character of decimal digit `d`.
pub open spec fn digit_char(d: nat) -> char {
    ((48 + d) as u8) as char
}

/// Decimal digits of `n`, without leading zeros.
pub open spec fn decimal(n: nat) -> Seq<char>
    decreases n,
{
    if n < 10 {
        seq![digit_char(n)]
    } else {
        decimal(n / 10).push(digit_char(n % 10))
    }
}

fn push_decimal(out: &mut Vec<char>, n: u128)
    ensures
        final(out)@ == old(out)@ + decimal(n as nat),
    decreases n,
{
    if n >= 10 {
        push_decimal(out, n / 10);
    }
    let d = (n % 10) as u8;
    out.push((48u8 + d) as char);
    proof {
        if n >= 10 {
            assert(old(out)@ + decimal(n as nat) =~= (old(out)@ + decimal((n / 10) as nat)).push(
                digit_char((n % 10) as nat),
            ));
        } else {
            assert(old(out)@ + decimal(n as nat) =~= old(out)@.push(digit_char(n as nat)));
        }
    }
}

/// `2` to the power `n`.
pub open spec fn pow2n(n: nat) -> nat
    decreases n,
{
    if n == 0 {
        1
    } else {
        2 * pow2n((n - 1) as nat)
    }
}

/// How many low bits of `s` a 64-bit float, with its 53-bit significand,
/// cannot hold.
pub open spec fn dropped_bits(s: nat) -> nat
    decreases s,
{
    if s < 0x20_0000_0000_0000 {
        0
    } else {
        1 + dropped_bits(s / 2)
    }
}

/// The value of `s` as a 64-bit float: rounded to 53 significant bits,
/// ties to even.
pub open spec fn float_value(s: nat) -> nat {
    let p = pow2n(dropped_bits(s));
    let q = s / p;
    let r = s % p;
    let up = 2 * r > p || (2 * r == p && q % 2 == 1);
    (if up {
        q + 1
    } else {
        q
    }) * p
}

/// Hundredths of `v / unit`, rounded to nearest, ties to even.
pub open spec fn hundredths(v: nat, unit: nat) -> nat
    recommends
        unit > 0,
{
    let q = (v * 100) / unit;
    let r = (v * 100) % unit;
    if 2 * r > unit || (2 * r == unit && q % 2 == 1) {
        q + 1
    } else {
        q
    }
}

/// `h` hundredths written with two decimal places.
pub open spec fn two_places(h: nat) -> Seq<char> {
    decimal(h / 100).push('.').push(digit_char((h / 10) % 10)).push(digit_char(h % 10))
}

/// The human-readable size of `s` bytes: the largest of GiB, MiB and KiB
/// that `s` reaches, with two decimal places of the size as a float, or
/// the plain count of bytes.
pub open spec fn size_text(s: u64) -> Seq<char> {
    if s >= 0x4000_0000 {
        two_places(hundredths(float_value(s as nat), 0x4000_0000)) + seq![' ', 'G', 'i', 'B']
    } else if s >= 0x10_0000 {
        two_places(hundredths(float_value(s as nat), 0x10_0000)) + seq![' ', 'M', 'i', 'B']
    } else if s >= 0x400 {
        two_places(hundredths(float_value(s as nat), 0x400)) + seq![' ', 'K', 'i', 'B']
    } else {
        decimal(s as nat) + seq![' ', 'B']
    }
}

fn float_value_exec(s: u64) -> (r: u128)
    ensures
        r as nat == float_value(s as nat),
        r <= 2 * (s as nat) + 1,
{
    let mut t: u64 = s;
    let mut p: u64 = 1;
    let ghost mut sh: nat = 0;
    while t >= 0x20_0000_0000_0000
        invariant
            dropped_bits(s as nat) == sh + dropped_bits(t as nat),
            p as nat == pow2n(sh),
            t as nat * p as nat <= s as nat,
            p == 1 || p <= s,
        decreases t,
    {
        assert((t / 2) as nat * (2 * p as nat) <= t as nat * p as nat) by (nonlinear_arith);
        assert(p as nat * 2 <= s as nat) by (nonlinear_arith)
            requires
                t as nat * p as nat <= s as nat,
                t >= 2,
        ;
        t = t / 2;
        p = p * 2;
        proof {
            sh = sh + 1;
        }
    }
    assert(p >= 1) by {
        assert(pow2n(sh) >= 1) by {
            lemma_pow2n_pos(sh);
        }
    }
    let q = s / p;
    let r = s % p;
    let up = 2 * (r as u128) > p as u128 || (2 * (r as u128) == p as u128 && q % 2 == 1);
    let q2: u128 = if up {
        q as u128 + 1
    } else {
        q as u128
    };
    assert(q as nat * p as nat <= s as nat) by (nonlinear_arith)
        requires
            q == s / p,
            p >= 1,
    ;
    assert(q2 * p as u128 <= 2 * (s as nat) + 1) by (nonlinear_arith)
        requires
            q2 <= q + 1,
            q as nat * p as nat <= s as nat,
            p <= s || p == 1,
    ;
    q2 * p as u128
}

proof fn lemma_pow2n_pos(n: nat)
    ensures
        pow2n(n) >= 1,
    decreases n,
{
    if n > 0 {
        lemma_pow2n_pos((n - 1) as nat);
    }
}

fn push_two_places(out: &mut Vec<char>, v: u128, unit: u128)
    requires
        0 < unit <= 0x4000_0000,
        v <= 0x4_0000_0000_0000_0000,
    ensures
        final(out)@ == old(out)@ + two_places(hundredths(v as nat, unit as nat)),
{
    let x = v * 100;
    let q = x / unit;
    let r = x % unit;
    let h: u128 = if 2 * r > unit || (2 * r == unit && q % 2 == 1) {
        q + 1
    } else {
        q
    };
    push_decimal(out, h / 100);
    out.push('.');
    let d1 = ((h / 10) % 10) as u8;
    let d2 = (h % 10) as u8;
    out.push((48u8 + d1) as char);
    out.push((48u8 + d2) as char);
    assert(final(out)@ =~= old(out)@ + two_places(hundredths(v as nat, unit as nat)));
}

/// The human-readable form of a size of `s` bytes: `1023 B`, `1.00 KiB`,
/// `1.00 MiB`, `1.00 GiB`.
pub fn humanize_size(s: u64) -> (r: String)
    ensures
        r@ == size_text(s),
{
    let mut out: Vec<char> = Vec::new();
    if s >= 0x4000_0000 {
        let v = float_value_exec(s);
        push_two_places(&mut out, v, 0x4000_0000);
        out.push(' ');
        out.push('G');
        out.push('i');
        out.push('B');
    } else if s >= 0x10_0000 {
        let v = float_value_exec(s);
        push_two_places(&mut out, v, 0x10_0000);
        out.push(' ');
        out.push('M');
        out.push('i');
        out.push('B');
    } else if s >= 0x400 {
        let v = float_value_exec(s);
        push_two_places(&mut out, v, 0x400);
        out.push(' ');
        out.push('K');
        out.push('i');
        out.push('B');
    } else {
        push_decimal(&mut out, s as u128);
        out.push(' ');
        out.push('B');
    }
    assert(out@ =~= size_text(s));
    string_of(&out)
}

/// A UTC calendar time, to the second.
pub struct UtcTime {
    pub year: i32,
    pub month: u32,
    pub day: u32,
    pub hour: u32,
    pub minute: u32,
    pub second: u32,
}

/// The proleptic Gregorian date, as year, month and day, of the UTC day
/// that holds second `t` of the Unix epoch, when chrono can represent it.
pub uninterp spec fn utc_date(t: i64) -> Option<(i32, u32, u32)>;

/// Relies on `chrono::DateTime::from_timestamp` with its `Datelike` and
/// `Timelike` getters: `None` outside chrono's range of dates; otherwise
/// the date, and the time of day taken from the second within the day.
#[verifier::external_body]
fn utc_time_of(t: i64) -> (r: Option<UtcTime>)
    ensures
        r is Some <==> utc_date(t) is Some,
        r matches Some(u) ==> {
            &&& (u.year, u.month, u.day) == utc_date(t)->0
            &&& 1 <= u.month <= 12
            &&& 1 <= u.day <= 31
            &&& u.hour == (t as int % 86400) / 3600
            &&& u.minute == (t as int % 3600) / 60
            &&& u.second == t as int % 60
        },
{
    chrono::DateTime::from_timestamp(t, 0).map(
        |dt| UtcTime {
            year: dt.year(),
            month: dt.month(),
            day: dt.day(),
            hour: dt.hour(),
            minute: dt.minute(),
            second: dt.second(),
        },
    )
}

/// Decimal digits of `n`, with zeros in front up to `width` characters.
pub open spec fn padded(n: nat, width: nat) -> Seq<char> {
    let d = decimal(n);
    if d.len() < width {
        Seq::new((width - d.len()) as nat, |i: int| '0') + d
    } else {
        d
    }
}

/// A year as a four-digit number, or with its sign and at least four
/// digits when it is outside 0 to 9999.
pub open spec fn year_text(y: int) -> Seq<char> {
    if 0 <= y <= 9999 {
        padded(y as nat, 4)
    } else if y < 0 {
        seq!['-'] + padded((-y) as nat, 4)
    } else {
        seq!['+'] + padded(y as nat, 4)
    }
}

/// `YYYY-MM-DD HH:MM:SS` for calendar time `u`.
pub open spec fn utc_text(u: UtcTime) -> Seq<char> {
    year_text(u.year as int) + seq!['-'] + padded(u.month as nat, 2) + seq!['-'] + padded(
        u.day as nat,
        2,
    ) + seq![' '] + padded(u.hour as nat, 2) + seq![':'] + padded(u.minute as nat, 2) + seq![':']
        + padded(u.second as nat, 2)
}

/// The text shown for a timestamp that has no calendar time.
pub open spec fn invalid_timestamp_text() -> Seq<char> {
    seq![
        'I', 'n', 'v', 'a', 'l', 'i', 'd', ' ', 't', 'i', 'm', 'e', 's', 't', 'a', 'm', 'p',
    ]
}

fn push_padded(out: &mut Vec<char>, n: u128, width: usize)
    ensures
        final(out)@ == old(out)@ + padded(n as nat, width as nat),
{
    let mut digits: Vec<char> = Vec::new();
    push_decimal(&mut digits, n);
    assert(digits@ =~= decimal(n as nat));
    if digits.len() < width {
        let fill = width - digits.len();
        let mut i: usize = 0;
        while i < fill
            invariant
                i <= fill,
                out@ == old(out)@ + Seq::new(i as nat, |k: int| '0'),
            decreases fill - i,
        {
            out.push('0');
            i = i + 1;
            assert(out@ =~= old(out)@ + Seq::new(i as nat, |k: int| '0'));
        }
    }
    crate::text::append_chars(out, &digits);
    assert(final(out)@ =~= old(out)@ + padded(n as nat, width as nat));
}

/// `YYYY-MM-DD HH:MM:SS` for `u`, the year signed when outside 0 to 9999.
pub fn format_utc(u: &UtcTime) -> (r: String)
    ensures
        r@ == utc_text(*u),
{
    let mut out: Vec<char> = Vec::new();
    if u.year >= 0 && u.year <= 9999 {
        push_padded(&mut out, u.year as u128, 4);
    } else if u.year < 0 {
        out.push('-');
        push_padded(&mut out, (0 - (u.year as i64)) as u128, 4);
    } else {
        out.push('+');
        push_padded(&mut out, u.year as u128, 4);
    }
    out.push('-');
    push_padded(&mut out, u.month as u128, 2);
    out.push('-');
    push_padded(&mut out, u.day as u128, 2);
    out.push(' ');
    push_padded(&mut out, u.hour as u128, 2);
    out.push(':');
    push_padded(&mut out, u.minute as u128, 2);
    out.push(':');
    push_padded(&mut out, u.second as u128, 2);
    assert(out@ =~= utc_text(*u));
    string_of(&out)
}

/// The modification time `t`, in seconds since the Unix epoch, as
/// `YYYY-MM-DD HH:MM:SS` in UTC, or `Invalid timestamp` when it has no
/// calendar date.
pub fn from_mtimestamp(t: i64) -> (r: String)
    ensures
        utc_date(t) is None ==> r@ == invalid_timestamp_text(),
        utc_date(t) matches Some(d) ==> r@ == utc_text(
            UtcTime {
                year: d.0,
                month: d.1,
                day: d.2,
                hour: ((t as int % 86400) / 3600) as u32,
                minute: ((t as int % 3600) / 60) as u32,
                second: (t as int % 60) as u32,
            },
        ),
{
    match utc_time_of(t) {
        Some(u) => format_utc(&u),
        None => {
            let text = "Invalid timestamp";
            proof {
                reveal_strlit("Invalid timestamp");
            }
            let r = text.to_owned();
            assert(r@ =~= invalid_timestamp_text());
            r
        },
    }
}

} // verus!
