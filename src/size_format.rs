//! Byte counts as human-readable text.
use vstd::prelude::*;
use vstd::string::*;
use crate::text::same_text;

verus! {

/// How a byte count is displayed.
#[derive(Clone, Copy, Debug, PartialEq, Eq, Structural)]
pub enum SizeFormat {
    /// Powers of 1024, one fractional digit.
    Human,
    /// Powers of 1000, one fractional digit.
    Si,
    /// The plain decimal count.
    Raw,
}

/// The scheme a name selects: `human` or `h`, `si` or `H`, `raw` or `r`.
pub open spec fn format_named(s: Seq<char>) -> Option<SizeFormat> {
    if s == seq!['h', 'u', 'm', 'a', 'n'] || s == seq!['h'] {
        Some(SizeFormat::Human)
    } else if s == seq!['s', 'i'] || s == seq!['H'] {
        Some(SizeFormat::Si)
    } else if s == seq!['r', 'a', 'w'] || s == seq!['r'] {
        Some(SizeFormat::Raw)
    } else {
        None
    }
}

impl SizeFormat {
    /// The scheme named by `s`, if any.
    pub fn from_name(s: &str) -> (r: Option<SizeFormat>)
        ensures
            r == format_named(s@),
    {
        proof {
            reveal_strlit("human");
            reveal_strlit("h");
            reveal_strlit("si");
            reveal_strlit("H");
            reveal_strlit("raw");
            reveal_strlit("r");
            assert("human"@ =~= seq!['h', 'u', 'm', 'a', 'n']);
            assert("h"@ =~= seq!['h']);
            assert("si"@ =~= seq!['s', 'i']);
            assert("H"@ =~= seq!['H']);
            assert("raw"@ =~= seq!['r', 'a', 'w']);
            assert("r"@ =~= seq!['r']);
        }
        if same_text(s, "human") || same_text(s, "h") {
            Some(SizeFormat::Human)
        } else if same_text(s, "si") || same_text(s, "H") {
            Some(SizeFormat::Si)
        } else if same_text(s, "raw") || same_text(s, "r") {
            Some(SizeFormat::Raw)
        } else {
            None
        }
    }
}

/// Zero bytes read `0B` under both scaled schemes.
pub proof fn lemma_zero_reads_0b(f: SizeFormat)
    requires
        f != SizeFormat::Raw,
    ensures
        formatted(0, f) == seq!['0', 'B'],
{
    reveal_with_fuel(pow, 2);
    assert(pow(base_of(f), 1) == base_of(f));
    assert(unit_index(0, base_of(f), 0) == 0);
    assert(decimal(0) == seq!['0']);
}

/// The highest unit index: `E` (exa).
pub const TOP_UNIT: u64 = 6;

pub open spec fn digit_char(d: nat) -> char {
    if d == 0 { '0' } else if d == 1 { '1' } else if d == 2 { '2' } else if d == 3 { '3' }
    else if d == 4 { '4' } else if d == 5 { '5' } else if d == 6 { '6' } else if d == 7 { '7' }
    else if d == 8 { '8' } else { '9' }
}

/// The decimal digits of `n`, most significant first, with no leading zeros.
pub open spec fn decimal(n: nat) -> Seq<char>
    decreases n,
{
    if n < 10 {
        seq![digit_char(n)]
    } else {
        decimal(n / 10).push(digit_char(n % 10))
    }
}

pub open spec fn unit_char(k: nat) -> char {
    if k == 0 { 'B' } else if k == 1 { 'K' } else if k == 2 { 'M' } else if k == 3 { 'G' }
    else if k == 4 { 'T' } else if k == 5 { 'P' } else { 'E' }
}

pub open spec fn pow(b: nat, k: nat) -> nat
    decreases k,
{
    if k == 0 { 1 } else { b * pow(b, (k - 1) as nat) }
}

pub open spec fn base_of(f: SizeFormat) -> nat {
    match f {
        SizeFormat::Human => 1024,
        _ => 1000,
    }
}

/// The largest unit `k` (from `from` up to the top unit) with `b^k <= n`.
pub open spec fn unit_index(n: nat, b: nat, from: nat) -> nat
    decreases TOP_UNIT - from,
{
    if from < TOP_UNIT && pow(b, from + 1) <= n {
        unit_index(n, b, from + 1)
    } else {
        from
    }
}

/// `num / den` rounded to the nearest integer, ties to the even one.
pub open spec fn round_half_even(num: nat, den: nat) -> nat {
    let q = num / den;
    let r = num % den;
    if 2 * r > den || (2 * r == den && q % 2 == 1) {
        q + 1
    } else {
        q
    }
}

/// `n / b^k` in tenths, rounded half to even.
pub open spec fn tenths(n: nat, b: nat, k: nat) -> nat {
    round_half_even(n * 10, pow(b, k))
}

/// The unit a scaled count is shown in: the largest that fits, moved one up
/// when rounding reaches the next threshold.
pub open spec fn shown_unit(n: nat, b: nat) -> nat {
    let k = unit_index(n, b, 0);
    if k > 0 && k < TOP_UNIT && tenths(n, b, k) >= 10 * b {
        k + 1
    } else {
        k
    }
}

/// What `format_size` returns.
pub open spec fn formatted(n: nat, f: SizeFormat) -> Seq<char> {
    let b = base_of(f);
    let k = shown_unit(n, b);
    let t = tenths(n, b, k);
    if f == SizeFormat::Raw {
        decimal(n)
    } else if k == 0 {
        decimal(n).push('B')
    } else {
        decimal(t / 10).push('.').push(digit_char(t % 10)).push(unit_char(k))
    }
}

fn digit_str(d: u64) -> (r: &'static str)
    requires
        d < 10,
    ensures
        r@ == seq![digit_char(d as nat)],
{
    proof {
        reveal_strlit("0");
        reveal_strlit("1");
        reveal_strlit("2");
        reveal_strlit("3");
        reveal_strlit("4");
        reveal_strlit("5");
        reveal_strlit("6");
        reveal_strlit("7");
        reveal_strlit("8");
        reveal_strlit("9");
    }
    if d == 0 { "0" } else if d == 1 { "1" } else if d == 2 { "2" } else if d == 3 { "3" }
    else if d == 4 { "4" } else if d == 5 { "5" } else if d == 6 { "6" } else if d == 7 { "7" }
    else if d == 8 { "8" } else { "9" }
}

fn unit_str(k: u64) -> (r: &'static str)
    requires
        k <= TOP_UNIT,
    ensures
        r@ == seq![unit_char(k as nat)],
{
    proof {
        reveal_strlit("B");
        reveal_strlit("K");
        reveal_strlit("M");
        reveal_strlit("G");
        reveal_strlit("T");
        reveal_strlit("P");
        reveal_strlit("E");
    }
    if k == 0 { "B" } else if k == 1 { "K" } else if k == 2 { "M" } else if k == 3 { "G" }
    else if k == 4 { "T" } else if k == 5 { "P" } else { "E" }
}

/// The decimal digits of `n`.
pub fn decimal_string(n: u128) -> (r: String)
    ensures
        r@ == decimal(n as nat),
    decreases n,
{
    if n < 10 {
        String::from_str(digit_str(n as u64))
    } else {
        let mut s = decimal_string(n / 10);
        s.append(digit_str((n % 10) as u64));
        s
    }
}

/// One unit up from a divisor no larger than a `u64` count still fits in a
/// `u128`, and stays positive.
proof fn lemma_scaled_divisor_fits(d: u128, b: u128)
    requires
        1 <= d <= 0x1_0000_0000_0000_0000u128,
        1 <= b <= 1024,
    ensures
        1 <= (d as int) * (b as int) <= 0x1_0000_0000_0000_0000 * 1024,
{
    assert((d as int) * (b as int) <= 0x1_0000_0000_0000_0000 * 1024) by (nonlinear_arith)
        requires
            d <= 0x1_0000_0000_0000_0000u128,
            b <= 1024,
    ;
    assert((d as int) * (b as int) >= 1) by (nonlinear_arith)
        requires
            d >= 1,
            b >= 1,
    ;
}

/// The unit index for `n` and the divisor `b^k` that goes with it.
fn find_unit(n: u128, b: u128) -> (r: (u64, u128))
    requires
        n <= u64::MAX,
        b == 1000 || b == 1024,
    ensures
        r.0 == unit_index(n as nat, b as nat, 0),
        r.1 == pow(b as nat, r.0 as nat),
        r.0 <= TOP_UNIT,
        1 <= r.1,
        r.0 == 0 || r.1 <= n,
{
    let mut k: u64 = 0;
    let mut d: u128 = 1;
    while k < TOP_UNIT && d * b <= n
        invariant
            b == 1000 || b == 1024,
            n <= u64::MAX,
            k <= TOP_UNIT,
            d == pow(b as nat, k as nat),
            1 <= d,
            k == 0 || d <= n,
            unit_index(n as nat, b as nat, 0) == unit_index(n as nat, b as nat, k as nat),
        decreases TOP_UNIT - k,
    {
        proof {
            lemma_scaled_divisor_fits(d, b);
        }
        proof {
            assert(pow(b as nat, (k + 1) as nat) == b * pow(b as nat, k as nat));
        }
        d = d * b;
        k = k + 1;
    }
    proof {
        lemma_scaled_divisor_fits(d, b);
        assert(pow(b as nat, (k + 1) as nat) == b * pow(b as nat, k as nat));
    }
    (k, d)
}

/// `num / den` rounded half to even.
fn round_half_even_exec(num: u128, den: u128) -> (r: u128)
    requires
        1 <= den <= 0x1_0000_0000_0000_0000_0000u128,
        num <= 0x1_0000_0000_0000_0000_0000u128,
    ensures
        r == round_half_even(num as nat, den as nat),
{
    let q = num / den;
    let r = num % den;
    if 2 * r > den || (2 * r == den && q % 2 == 1) {
        q + 1
    } else {
        q
    }
}

/// Formats a byte count under the given scheme.
pub fn format_size(bytes: u64, f: SizeFormat) -> (r: String)
    ensures
        r@ == formatted(bytes as nat, f),
{
    if f == SizeFormat::Raw {
        return decimal_string(bytes as u128);
    }
    let b: u128 = if f == SizeFormat::Human { 1024 } else { 1000 };
    let n = bytes as u128;
    let (k0, d0) = find_unit(n, b);
    if k0 == 0 {
        let mut s = decimal_string(n);
        proof { reveal_strlit("B"); }
        s.append("B");
        return s;
    }
    let t0 = round_half_even_exec(n * 10, d0);
    let mut k = k0;
    let mut t = t0;
    if k0 < TOP_UNIT && t0 >= 10 * b {
        proof {
            lemma_scaled_divisor_fits(d0, b);
            assert(pow(b as nat, (k0 + 1) as nat) == b * pow(b as nat, k0 as nat));
        }
        k = k0 + 1;
        t = round_half_even_exec(n * 10, d0 * b);
    }
    let mut s = decimal_string(t / 10);
    proof { reveal_strlit("."); }
    s.append(".");
    s.append(digit_str((t % 10) as u64));
    s.append(unit_str(k));
    s
}

} // verus!
