//! Human-readable byte counts, as shown next to a scan result.
//!
//! A count is shown in the largest of B, KB, MB, GB and TB (powers of 1024) that
//! it reaches, with two decimals. The rounding is that of the count taken as an
//! `f64` (nearest, ties to even, at 53 significant bits) and printed with `{:.2}`
//! (nearest, ties to even); it is carried out here on integers.

use vstd::prelude::*;

verus! {

/// Two to the power `e`.
pub open spec fn pow2(e: nat) -> nat
    decreases e,
{
    if e == 0 {
        1
    } else {
        2 * pow2((e - 1) as nat)
    }
}

/// `num / den` rounded to the nearest integer, ties to even.
pub open spec fn round_half_even(num: nat, den: nat) -> nat
    recommends
        den > 0,
{
    let q = num / den;
    let r = num % den;
    if 2 * r > den || (2 * r == den && q % 2 == 1) {
        q + 1
    } else {
        q
    }
}

/// The least `s`, from `s` on, for which `b / 2^s` has fewer than 53 bits.
pub open spec fn shift_from(b: nat, s: nat) -> nat
    decreases 64 - s,
{
    if s >= 64 || b / pow2(s) < pow2(53) {
        s
    } else {
        shift_from(b, s + 1)
    }
}

/// The value of `b as f64`: `b` rounded to 53 significant bits, ties to even.
pub open spec fn f64_value(b: nat) -> nat {
    let s = shift_from(b, 0);
    round_half_even(b, pow2(s)) * pow2(s)
}

/// The decimal digit `d`.
pub open spec fn digit_char(d: nat) -> char {
    if d == 0 {
        '0'
    } else if d == 1 {
        '1'
    } else if d == 2 {
        '2'
    } else if d == 3 {
        '3'
    } else if d == 4 {
        '4'
    } else if d == 5 {
        '5'
    } else if d == 6 {
        '6'
    } else if d == 7 {
        '7'
    } else if d == 8 {
        '8'
    } else {
        '9'
    }
}

/// `n` in decimal, without leading zeros.
pub open spec fn decimal(n: nat) -> Seq<char>
    decreases n,
{
    if n < 10 {
        seq![digit_char(n)]
    } else {
        decimal(n / 10).push(digit_char(n % 10))
    }
}

/// `hundredths / 100` with two decimals.
pub open spec fn two_decimals(hundredths: nat) -> Seq<char> {
    decimal(hundredths / 100) + seq!['.', digit_char((hundredths % 100) / 10), digit_char(
        hundredths % 10,
    )]
}

/// The text for `bytes`.
pub open spec fn size_text(bytes: nat) -> Seq<char> {
    let v = f64_value(bytes);
    if bytes >= pow2(40) {
        two_decimals(round_half_even(v * 100, pow2(40))) + " TB"@
    } else if bytes >= pow2(30) {
        two_decimals(round_half_even(v * 100, pow2(30))) + " GB"@
    } else if bytes >= pow2(20) {
        two_decimals(round_half_even(v * 100, pow2(20))) + " MB"@
    } else if bytes >= pow2(10) {
        two_decimals(round_half_even(v * 100, pow2(10))) + " KB"@
    } else {
        decimal(bytes) + " B"@
    }
}

fn digit_str(d: u128) -> (s: &'static str)
    requires
        d < 10,
    ensures
        s@ == seq![digit_char(d as nat)],
{
    proof {
        reveal_strlit("0");
        reveal_strlit("1");
        reveal_strlit("2");
        reveal_strlit("3");
        reveal_strlit("4");
        reveal_strlit("5");
        reveal_strlit("6");
        reveal_strlit("7");
        reveal_strlit("8");
        reveal_strlit("9");
    }
    let s = if d == 0 {
        "0"
    } else if d == 1 {
        "1"
    } else if d == 2 {
        "2"
    } else if d == 3 {
        "3"
    } else if d == 4 {
        "4"
    } else if d == 5 {
        "5"
    } else if d == 6 {
        "6"
    } else if d == 7 {
        "7"
    } else if d == 8 {
        "8"
    } else {
        "9"
    };
    assert(s@ =~= seq![digit_char(d as nat)]);
    s
}

/// `n` in decimal.
pub fn decimal_text(n: u128) -> (s: String)
    ensures
        s@ == decimal(n as nat),
    decreases n,
{
    if n < 10 {
        String::from_str(digit_str(n))
    } else {
        let mut s = decimal_text(n / 10);
        s.append(digit_str(n % 10));
        s
    }
}

fn rhe(num: u128, den: u128) -> (r: u128)
    requires
        den > 0,
        num / den < u128::MAX,
    ensures
        r == round_half_even(num as nat, den as nat),
{
    let q = num / den;
    let r = num % den;
    if (r > den - r) || (r == den - r && q % 2 == 1) {
        q + 1
    } else {
        q
    }
}

proof fn lemma_pow2_bounds(e: nat)
    ensures
        pow2(e) >= 1,
        pow2(e + 1) == 2 * pow2(e),
    decreases e,
{
    if e > 0 {
        lemma_pow2_bounds((e - 1) as nat);
    }
}

proof fn lemma_pow2_add(a: nat, b: nat)
    ensures
        pow2(a + b) == pow2(a) * pow2(b),
    decreases a,
{
    if a > 0 {
        let c = (a - 1) as nat;
        lemma_pow2_add(c, b);
        assert(((a + b) - 1) as nat == c + b);
        assert(pow2(a + b) == 2 * pow2(c + b));
        let x = pow2(c);
        let y = pow2(b);
        assert(pow2(a) * y == 2 * (x * y)) by (nonlinear_arith)
            requires
                pow2(a) == 2 * x,
        ;
        assert(pow2(a + b) == pow2(a) * pow2(b));
    } else {
        assert(pow2(a) == 1);
        assert(a + b == b);
    }
}

proof fn lemma_pow2_values()
    ensures
        pow2(10) == 1024,
        pow2(11) == 2048,
        pow2(20) == 1048576,
        pow2(30) == 1073741824,
        pow2(40) == 1099511627776,
        pow2(53) == 9007199254740992,
        pow2(64) == 18446744073709551616,
{
    reveal_with_fuel(pow2, 12);
    assert(pow2(10) == 1024);
    assert(pow2(11) == 2048);
    lemma_pow2_add(10, 10);
    lemma_pow2_add(20, 10);
    lemma_pow2_add(30, 10);
    lemma_pow2_add(40, 10);
    lemma_pow2_add(50, 3);
    reveal_with_fuel(pow2, 4);
    assert(pow2(3) == 8);
    lemma_pow2_add(53, 11);
}

fn with_unit(hundredths: u128, unit: &str) -> (s: String)
    ensures
        s@ == two_decimals(hundredths as nat) + unit@,
{
    let mut s = decimal_text(hundredths / 100);
    proof {
        reveal_strlit(".");
    }
    s.append(".");
    s.append(digit_str((hundredths % 100) / 10));
    s.append(digit_str(hundredths % 10));
    s.append(unit);
    assert(s@ =~= two_decimals(hundredths as nat) + unit@);
    s
}

/// A byte count for people to read, such as `512 B` or `1.50 KB`.
pub fn format_bytes(bytes: u64) -> (s: String)
    ensures
        s@ == size_text(bytes as nat),
{
    proof {
        lemma_pow2_values();
    }
    let b = bytes as u128;
    let mut unit: u128 = 1;
    let mut sh: u32 = 0;
    assert(pow2(0) == 1);
    while b / unit >= 9007199254740992
        invariant
            b == bytes as u128,
            b < 18446744073709551616,
            unit as nat == pow2(sh as nat),
            unit >= 1,
            sh <= 11,
            shift_from(b as nat, sh as nat) == shift_from(b as nat, 0),
            pow2(53) == 9007199254740992,
            pow2(11) == 2048,
        decreases 64 - sh,
    {
        proof {
            lemma_pow2_bounds(sh as nat);
            assert(unit < 2048) by (nonlinear_arith)
                requires
                    b / unit >= 9007199254740992,
                    b < 18446744073709551616,
                    unit >= 1,
            ;
            if sh >= 11 {
                lemma_pow2_monotone(11, sh as nat);
            }
        }
        unit = unit * 2;
        sh = sh + 1;
    }
    proof {
        lemma_pow2_bounds(sh as nat);
        assert(shift_from(b as nat, sh as nat) == sh);
        assert(b / unit < 9007199254740992);
        assert(unit <= 2048) by {
            if sh < 11 {
                lemma_pow2_monotone(sh as nat, 11);
            }
        }
    }
    let q = rhe(b, unit);
    assert(q <= 9007199254740992);
    assert(q * unit <= 9007199254740992 * 2048) by (nonlinear_arith)
        requires
            q <= 9007199254740992,
            unit <= 2048,
    ;
    let fv = q * unit;
    assert(fv as nat == f64_value(bytes as nat));
    if bytes >= 1099511627776 {
        with_unit(rhe(fv * 100, 1099511627776), " TB")
    } else if bytes >= 1073741824 {
        with_unit(rhe(fv * 100, 1073741824), " GB")
    } else if bytes >= 1048576 {
        with_unit(rhe(fv * 100, 1048576), " MB")
    } else if bytes >= 1024 {
        with_unit(rhe(fv * 100, 1024), " KB")
    } else {
        let mut s = decimal_text(b);
        s.append(" B");
        s
    }
}

proof fn lemma_pow2_monotone(a: nat, b: nat)
    requires
        a <= b,
    ensures
        pow2(a) <= pow2(b),
    decreases b - a,
{
    if a < b {
        lemma_pow2_monotone(a, (b - 1) as nat);
        lemma_pow2_bounds((b - 1) as nat);
    }
}

} // verus!
