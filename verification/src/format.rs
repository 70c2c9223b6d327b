//! Sizes as texts.
use vstd::prelude::*;

use crate::text::{decimal, digit, u64_text};

verus! {

/// `n / d` to the nearest whole number; of two that are as near, the even one.
pub open spec fn half_even(n: nat, d: nat) -> nat {
    let q = n / d;
    let r = n % d;
    if 2 * r > d || (2 * r == d && q % 2 == 1) {
        q + 1
    } else {
        q
    }
}

/// What one step of a number with 53 binary digits amounts to where it is as large as `n`.
pub open spec fn precision(n: nat) -> nat
    decreases n,
{
    if n < 0x20_0000_0000_0000 {
        1
    } else {
        2 * precision(n / 2)
    }
}

/// `n` as far as 53 binary digits can tell it.
pub open spec fn as_double(n: nat) -> nat {
    half_even(n, precision(n)) * precision(n)
}

/// `n` in units of `unit`, with two digits after the point.
pub open spec fn in_units(n: nat, unit: nat) -> Seq<char> {
    let h = half_even(as_double(n) * 100, unit);
    decimal(h / 100) + seq!['.', digit(h / 10 % 10), digit(h % 10)]
}

/// A kilobyte.
pub const KB: u64 = 1024;

/// A megabyte.
pub const MB: u64 = 1_048_576;

/// A gigabyte.
pub const GB: u64 = 1_073_741_824;

/// A terabyte.
pub const TB: u64 = 1_099_511_627_776;

/// A size as people read it: in the largest unit that it reaches.
pub open spec fn size_text(bytes: nat) -> Seq<char> {
    if bytes >= TB {
        in_units(bytes, TB as nat) + " TB"@
    } else if bytes >= GB {
        in_units(bytes, GB as nat) + " GB"@
    } else if bytes >= MB {
        in_units(bytes, MB as nat) + " MB"@
    } else if bytes >= KB {
        in_units(bytes, KB as nat) + " KB"@
    } else {
        decimal(bytes) + " B"@
    }
}

fn nearest(n: u128, d: u128) -> (r: u128)
    requires
        0 < d <= 0x1_0000_0000_0000_0000,
        n <= 0xffff_ffff_ffff_ffff_ffff_ffff,
    ensures
        r == half_even(n as nat, d as nat),
        r <= n / d + 1,
{
    let q: u128 = n / d;
    let r: u128 = n % d;
    assert(r < d);
    assert(q <= n) by (nonlinear_arith)
        requires
            q == n / d,
            d >= 1,
    ;
    if 2 * r > d || (2 * r == d && q % 2 == 1) {
        q + 1
    } else {
        q
    }
}

fn step_of(n: u64) -> (p: u64)
    ensures
        p == precision(n as nat),
        p == 1 || 2 <= p && p * 0x10_0000_0000_0000 <= n,
    decreases n,
{
    if n < 0x20_0000_0000_0000 {
        1
    } else {
        let q: u64 = step_of(n / 2);
        2 * q
    }
}

fn digit_char(d: u8) -> (c: char)
    requires
        d < 10,
    ensures
        c == digit(d as nat),
{
    (48 + d) as char
}

/// `n` in units of `unit`, with two digits after the point.
pub fn units_text(n: u64, unit: u64) -> (s: String)
    requires
        unit >= KB,
    ensures
        s@ == in_units(n as nat, unit as nat),
{
    let p: u64 = step_of(n);
    let whole: u128 = nearest(n as u128, p as u128);
    assert(whole * p <= n + p) by (nonlinear_arith)
        requires
            whole <= n as int / p as int + 1,
            p >= 1,
            n >= 0,
    ;
    let near: u128 = whole * p as u128;
    let h: u128 = nearest(near * 100, unit as u128);
    let ghost quotient = (near * 100) as int / unit as int;
    assert(quotient <= (near * 100) / 1024) by (nonlinear_arith)
        requires
            quotient == (near * 100) as int / unit as int,
            unit >= 1024,
            near >= 0,
    ;
    let mut s = u64_text((h / 100) as u64);
    s.push('.');
    s.push(digit_char((h / 10 % 10) as u8));
    s.push(digit_char((h % 10) as u8));
    assert(s@ =~= in_units(n as nat, unit as nat));
    s
}

/// A size as people read it: in the largest unit that it reaches.
pub fn format_size(bytes: u64) -> (s: String)
    ensures
        s@ == size_text(bytes as nat),
{
    if bytes >= TB {
        let mut s = units_text(bytes, TB);
        s.append(" TB");
        s
    } else if bytes >= GB {
        let mut s = units_text(bytes, GB);
        s.append(" GB");
        s
    } else if bytes >= MB {
        let mut s = units_text(bytes, MB);
        s.append(" MB");
        s
    } else if bytes >= KB {
        let mut s = units_text(bytes, KB);
        s.append(" KB");
        s
    } else {
        let mut s = u64_text(bytes);
        s.append(" B");
        s
    }
}

/// The magnitude of `n`.
pub open spec fn magnitude(n: int) -> nat {
    if n < 0 {
        (-n) as nat
    } else {
        n as nat
    }
}

fn magnitude_of(n: i64) -> (m: u64)
    ensures
        m == magnitude(n as int),
{
    if n >= 0 {
        n as u64
    } else if n == i64::MIN {
        0x8000_0000_0000_0000
    } else {
        (-n) as u64
    }
}

/// A signed size in megabytes, with two digits after the point.
pub open spec fn megabytes(n: int) -> Seq<char> {
    (if n < 0 {
        seq!['-']
    } else {
        Seq::empty()
    }) + in_units(magnitude(n), MB as nat)
}

/// A signed size in megabytes that always shows its sign.
pub open spec fn signed_megabytes(n: int) -> Seq<char> {
    seq![if n < 0 { '-' } else { '+' }] + in_units(magnitude(n), MB as nat)
}

/// A signed size in megabytes, with two digits after the point.
pub fn megabytes_text(n: i64) -> (s: String)
    ensures
        s@ == megabytes(n as int),
{
    let mut s = String::new();
    if n < 0 {
        s.push('-');
    }
    s.append(units_text(magnitude_of(n), MB).as_str());
    assert(s@ =~= megabytes(n as int));
    s
}

/// A signed size in megabytes that always shows its sign.
pub fn signed_megabytes_text(n: i64) -> (s: String)
    ensures
        s@ == signed_megabytes(n as int),
{
    let mut s = String::new();
    s.push(
        if n < 0 {
            '-'
        } else {
            '+'
        },
    );
    s.append(units_text(magnitude_of(n), MB).as_str());
    assert(s@ =~= signed_megabytes(n as int));
    s
}

} // verus!
