//! Human-readable byte sizes in units of one thousand.

use vstd::prelude::*;
use vstd::string::*;

verus! {

/// The index of the largest unit, `YB`.
pub const LAST_UNIT: usize = 8;

/// One thousand to the power `p`.
pub open spec fn pow1000(p: nat) -> nat
    decreases p,
{
    if p == 0 {
        1
    } else {
        1000 * pow1000((p - 1) as nat)
    }
}

/// The unit in which `n` bytes are shown: the number of whole factors of one
/// thousand in `n`, never more than `LAST_UNIT`, and 0 for `n == 0`.
pub open spec fn magnitude(n: nat) -> nat {
    if n < 1_000 {
        0
    } else if n < 1_000_000 {
        1
    } else if n < 1_000_000_000 {
        2
    } else if n < 1_000_000_000_000 {
        3
    } else if n < 1_000_000_000_000_000 {
        4
    } else if n < 1_000_000_000_000_000_000 {
        5
    } else if n < 1_000_000_000_000_000_000_000 {
        6
    } else if n < 1_000_000_000_000_000_000_000_000 {
        7
    } else {
        8
    }
}

/// The name of the unit with index `p`.
pub open spec fn unit_name(p: nat) -> Seq<char> {
    if p == 0 {
        seq!['B']
    } else if p == 1 {
        seq!['K', 'B']
    } else if p == 2 {
        seq!['M', 'B']
    } else if p == 3 {
        seq!['G', 'B']
    } else if p == 4 {
        seq!['T', 'B']
    } else if p == 5 {
        seq!['P', 'B']
    } else if p == 6 {
        seq!['E', 'B']
    } else if p == 7 {
        seq!['Z', 'B']
    } else {
        seq!['Y', 'B']
    }
}

/// `num / den` rounded to the nearest whole number; a quotient that lies
/// exactly between two whole numbers goes to the even one.
pub open spec fn round_half_even(num: nat, den: nat) -> nat
    recommends
        den > 0,
{
    let q = num / den;
    let r = num % den;
    if 2 * r < den || (2 * r == den && q % 2 == 0) {
        q
    } else {
        q + 1
    }
}

/// The distance between neighbouring numbers of 53 significant binary
/// digits at the height of `n`: 1 below 2^53, and twice as much with each
/// further binary digit of `n`, for counts that 64 bits hold.
pub open spec fn grain(n: nat) -> nat {
    if n < 0x20_0000_0000_0000 {
        1
    } else if n < 0x40_0000_0000_0000 {
        2
    } else if n < 0x80_0000_0000_0000 {
        4
    } else if n < 0x100_0000_0000_0000 {
        8
    } else if n < 0x200_0000_0000_0000 {
        16
    } else if n < 0x400_0000_0000_0000 {
        32
    } else if n < 0x800_0000_0000_0000 {
        64
    } else if n < 0x1000_0000_0000_0000 {
        128
    } else if n < 0x2000_0000_0000_0000 {
        256
    } else if n < 0x4000_0000_0000_0000 {
        512
    } else if n < 0x8000_0000_0000_0000 {
        1024
    } else {
        2048
    }
}

/// The count as double precision holds it: the nearest number of 53
/// significant binary digits, the even one of two that are equally near.
pub open spec fn held(n: nat) -> nat {
    round_half_even(n, grain(n)) * grain(n)
}

/// The power of two that lifts the quotient `h / den` to 53 binary digits
/// before the point: 2^52 for a quotient below 2, and half as much each time
/// the quotient doubles, for quotients below 1024.
pub open spec fn scale(h: nat, den: nat) -> nat {
    if h < 2 * den {
        0x10_0000_0000_0000
    } else if h < 4 * den {
        0x8_0000_0000_0000
    } else if h < 8 * den {
        0x4_0000_0000_0000
    } else if h < 16 * den {
        0x2_0000_0000_0000
    } else if h < 32 * den {
        0x1_0000_0000_0000
    } else if h < 64 * den {
        0x8000_0000_0000
    } else if h < 128 * den {
        0x4000_0000_0000
    } else if h < 256 * den {
        0x2000_0000_0000
    } else if h < 512 * den {
        0x1000_0000_0000
    } else {
        0x800_0000_0000
    }
}

/// The count in its unit as double precision holds the quotient, lifted by
/// `scale` to a whole number: the held count divided by the unit's size,
/// rounded to 53 significant binary digits.
pub open spec fn significand(n: nat) -> nat {
    let den = pow1000(magnitude(n));
    round_half_even(held(n) * scale(held(n), den), den)
}

/// The number shown for `n` bytes, counted in tenths of its unit. It is the
/// number that arithmetic in double precision gives: the count is held with
/// 53 significant binary digits, divided by the size of its unit, the
/// quotient held with 53 significant binary digits again, and that quotient
/// rounded to the nearest tenth. Every rounding goes to the nearest value,
/// and from the exact middle to the even neighbour.
pub open spec fn tenths(n: nat) -> nat {
    round_half_even(10 * significand(n), scale(held(n), pow1000(magnitude(n))))
}

/// The character for one decimal digit.
pub open spec fn digit_char(d: nat) -> char
    recommends
        d < 10,
{
    if d == 0 {
        '0'
    } else if d == 1 {
        '1'
    } else if d == 2 {
        '2'
    } else if d == 3 {
        '3'
    } else if d == 4 {
        '4'
    } else if d == 5 {
        '5'
    } else if d == 6 {
        '6'
    } else if d == 7 {
        '7'
    } else if d == 8 {
        '8'
    } else {
        '9'
    }
}

/// `n` written in decimal, without leading zeros.
pub open spec fn decimal(n: nat) -> Seq<char>
    decreases n,
{
    if n < 10 {
        seq![digit_char(n)]
    } else {
        decimal(n / 10).push(digit_char(n % 10))
    }
}

/// The number shown for `n` bytes: the count in its unit, with exactly one
/// digit after the point.
pub open spec fn spec_format_number(n: nat) -> Seq<char> {
    decimal(tenths(n) / 10) + seq!['.', digit_char(tenths(n) % 10)]
}

/// The text for `n` bytes: the number, a space, and the unit's name.
pub open spec fn spec_format_bytes(n: nat) -> Seq<char> {
    spec_format_number(n) + seq![' '] + unit_name(magnitude(n))
}

/// The unit of a count is the whole number of times that one thousand goes
/// into it as a factor: the unit's size is at most the count, and the next
/// unit's size is above it. Beyond the last unit the count stays in the last.
pub proof fn law_magnitude_brackets(n: nat)
    ensures
        magnitude(n) <= LAST_UNIT,
        n >= 1 ==> pow1000(magnitude(n)) <= n,
        magnitude(n) < LAST_UNIT ==> n < pow1000(magnitude(n) + 1),
        n == 0 ==> magnitude(n) == 0,
{
    reveal_with_fuel(pow1000, 10);
}

/// Rounding a quotient that is at most `b` gives at most `b`.
pub proof fn lemma_round_le(num: nat, den: nat, b: nat)
    requires
        den > 0,
        num <= b * den,
    ensures
        round_half_even(num, den) <= b,
{
    let q = num / den;
    let r = num % den;
    vstd::arithmetic::div_mod::lemma_fundamental_div_mod(num as int, den as int);
    vstd::arithmetic::div_mod::lemma_mod_bound(num as int, den as int);
    assert(q <= b && (q == b ==> r == 0)) by (nonlinear_arith)
        requires
            num == den * q + r,
            0 <= r < den,
            num <= b * den,
            den > 0,
    ;
}

/// Rounding a quotient that is at least `b` gives at least `b`.
pub proof fn lemma_round_ge(num: nat, den: nat, b: nat)
    requires
        den > 0,
        num >= b * den,
    ensures
        round_half_even(num, den) >= b,
{
    let q = num / den;
    let r = num % den;
    vstd::arithmetic::div_mod::lemma_fundamental_div_mod(num as int, den as int);
    vstd::arithmetic::div_mod::lemma_mod_bound(num as int, den as int);
    assert(q >= b) by (nonlinear_arith)
        requires
            num == den * q + r,
            0 <= r < den,
            num >= b * den,
            den > 0,
    ;
}

/// A rounded quotient is off by half at most.
pub proof fn lemma_round_near(num: nat, den: nat)
    requires
        den > 0,
    ensures
        2 * (round_half_even(num, den) * den - num) <= den,
        2 * (num - round_half_even(num, den) * den) <= den,
{
    let q = num / den;
    let r = num % den;
    vstd::arithmetic::div_mod::lemma_fundamental_div_mod(num as int, den as int);
    vstd::arithmetic::div_mod::lemma_mod_bound(num as int, den as int);
    assert((q + 1) * den == q * den + den) by (nonlinear_arith);
    assert(q * den == den * q) by (nonlinear_arith);
}

/// Rounding a whole multiple gives the multiple back.
pub proof fn lemma_round_exact(b: nat, den: nat)
    requires
        den > 0,
    ensures
        round_half_even(b * den, den) == b,
{
    lemma_round_le(b * den, den, b);
    lemma_round_ge(b * den, den, b);
}

/// Rounding to a multiple of `g` does not pass a bound that is itself such a
/// multiple.
proof fn lemma_multiple_bound(n: nat, g: nat, c: nat, top: nat)
    requires
        g * c == 2048,
        top % 2048 == 0,
        n <= top,
    ensures
        round_half_even(n, g) * g <= top,
{
    let k = top / 2048;
    assert(top == 2048 * k);
    assert(g > 0) by (nonlinear_arith)
        requires
            g * c == 2048,
    ;
    assert(top == (c * k) * g) by (nonlinear_arith)
        requires
            top == 2048 * k,
            g * c == 2048,
    ;
    lemma_round_le(n, g, c * k);
    assert(round_half_even(n, g) * g <= (c * k) * g) by (nonlinear_arith)
        requires
            round_half_even(n, g) <= c * k,
    ;
}

/// A count below 2^53 is held as it is, and no held count passes a bound
/// that is itself a multiple of every grain.
pub proof fn lemma_held_bound(n: nat, top: nat)
    requires
        n <= top,
        top % 2048 == 0,
    ensures
        held(n) <= top,
        n < 0x20_0000_0000_0000 ==> held(n) == n,
{
    let g = grain(n);
    if g == 1 {
        lemma_multiple_bound(n, 1, 2048, top);
        assert(n == n * 1);
        lemma_round_exact(n, 1);
    } else if g == 2 {
        lemma_multiple_bound(n, 2, 1024, top);
    } else if g == 4 {
        lemma_multiple_bound(n, 4, 512, top);
    } else if g == 8 {
        lemma_multiple_bound(n, 8, 256, top);
    } else if g == 16 {
        lemma_multiple_bound(n, 16, 128, top);
    } else if g == 32 {
        lemma_multiple_bound(n, 32, 64, top);
    } else if g == 64 {
        lemma_multiple_bound(n, 64, 32, top);
    } else if g == 128 {
        lemma_multiple_bound(n, 128, 16, top);
    } else if g == 256 {
        lemma_multiple_bound(n, 256, 8, top);
    } else if g == 512 {
        lemma_multiple_bound(n, 512, 4, top);
    } else if g == 1024 {
        lemma_multiple_bound(n, 1024, 2, top);
    } else {
        lemma_multiple_bound(n, 2048, 1, top);
    }
}

/// A count is shown with at most four digits before the point: the number is
/// at most one thousand, which it reaches only where rounding carries.
pub proof fn lemma_tenths_bound(n: nat)
    requires
        n <= u64::MAX,
    ensures
        held(n) <= 1000 * pow1000(magnitude(n)),
        held(n) <= 0x1_0000_0000_0000_0000,
        significand(n) <= 1000 * scale(held(n), pow1000(magnitude(n))),
        tenths(n) <= 10_000,
{
    reveal_with_fuel(pow1000, 8);
    let den = pow1000(magnitude(n));
    let h = held(n);
    let sc = scale(h, den);
    lemma_held_bound(n, 0x1_0000_0000_0000_0000);
    if n < 0x20_0000_0000_0000 {
    } else if n < 1_000_000_000_000_000_000 {
        lemma_held_bound(n, 1_000_000_000_000_000_000);
    }
    assert(h <= 1000 * den);
    assert(h * sc <= (1000 * sc) * den) by (nonlinear_arith)
        requires
            h <= 1000 * den,
    ;
    lemma_round_le(h * sc, den, 1000 * sc);
    let m = significand(n);
    assert(10 * m <= 10_000 * sc);
    lemma_round_le(10 * m, sc, 10_000);
}

/// The number shown is off by less than one tenth of the unit from the
/// count.
pub proof fn law_tenths_is_close(n: nat)
    requires
        n <= u64::MAX,
    ensures
        tenths(n) * pow1000(magnitude(n)) < 10 * n + pow1000(magnitude(n)),
        10 * n < tenths(n) * pow1000(magnitude(n)) + pow1000(magnitude(n)),
{
    reveal_with_fuel(pow1000, 8);
    if n < 1000 {
        law_bytes_are_shown_exactly(n);
    } else {
        let den = pow1000(magnitude(n)) as int;
        let g = grain(n) as int;
        let h = held(n) as int;
        let sc = scale(held(n), pow1000(magnitude(n))) as int;
        let m = significand(n) as int;
        let t = tenths(n) as int;
        lemma_round_near(n, grain(n));
        lemma_round_near(held(n) * scale(held(n), pow1000(magnitude(n))), pow1000(magnitude(n)));
        lemma_round_near(10 * significand(n), scale(held(n), pow1000(magnitude(n))));
        let a = t * sc - 10 * m;
        let b = m * den - h * sc;
        let c = h - n;
        let d = t * den - 10 * n;
        assert(40 * g <= den);
        assert(40 <= sc);
        assert(d * sc == a * den + 10 * b + 10 * (sc * c)) by (nonlinear_arith)
            requires
                a == t * sc - 10 * m,
                b == m * den - h * sc,
                c == h - n,
                d == t * den - 10 * n,
        ;
        assert(2 * (a * den) <= sc * den && -(sc * den) <= 2 * (a * den)) by (nonlinear_arith)
            requires
                2 * a <= sc,
                -sc <= 2 * a,
                den > 0,
        ;
        assert(2 * (sc * c) <= sc * g && -(sc * g) <= 2 * (sc * c)) by (nonlinear_arith)
            requires
                2 * c <= g,
                -g <= 2 * c,
                sc > 0,
        ;
        assert(40 * (sc * g) <= sc * den && 40 * den <= sc * den) by (nonlinear_arith)
            requires
                40 * g <= den,
                40 <= sc,
                den > 0,
        ;
        assert(d * sc < den * sc && -(den * sc) < d * sc) by (nonlinear_arith)
            requires
                d * sc == a * den + 10 * b + 10 * (sc * c),
                2 * (a * den) <= sc * den,
                -(sc * den) <= 2 * (a * den),
                2 * b <= den,
                -den <= 2 * b,
                2 * (sc * c) <= sc * g,
                -(sc * g) <= 2 * (sc * c),
                40 * (sc * g) <= sc * den,
                40 * den <= sc * den,
                sc * den > 0,
        ;
        assert(d < den && -den < d) by (nonlinear_arith)
            requires
                d * sc < den * sc,
                -(den * sc) < d * sc,
                sc > 0,
        ;
    }
}

/// Below one thousand bytes the number shown is the count itself.
pub proof fn law_bytes_are_shown_exactly(n: nat)
    requires
        n < 1000,
    ensures
        tenths(n) == 10 * n,
{
    reveal_with_fuel(pow1000, 2);
    lemma_held_bound(n, 2048);
    let sc = scale(n, 1);
    assert(n * sc == (n * sc) * 1);
    lemma_round_exact(n * sc, 1);
    assert(10 * (n * sc) == (10 * n) * sc) by (nonlinear_arith);
    lemma_round_exact(10 * n, sc);
}

/// The unit in which `n` bytes are shown.
pub fn magnitude_of(n: u64) -> (p: usize)
    ensures
        p == magnitude(n as nat),
        p <= LAST_UNIT,
{
    if n < 1_000 {
        0
    } else if n < 1_000_000 {
        1
    } else if n < 1_000_000_000 {
        2
    } else if n < 1_000_000_000_000 {
        3
    } else if n < 1_000_000_000_000_000 {
        4
    } else if n < 1_000_000_000_000_000_000 {
        5
    } else {
        6
    }
}

/// Tells whether `n` bytes are shown in gigabytes or a larger unit.
pub fn is_large(n: u64) -> (b: bool)
    ensures
        b == (magnitude(n as nat) > 2),
{
    magnitude_of(n) > 2
}

/// One thousand to the power `p`, for the units that a 64-bit count reaches.
fn unit_size(p: usize) -> (u: u64)
    requires
        p <= 6,
    ensures
        u == pow1000(p as nat),
        1 <= u <= 1_000_000_000_000_000_000,
{
    proof {
        reveal_with_fuel(pow1000, 8);
    }
    if p == 0 {
        1
    } else if p == 1 {
        1_000
    } else if p == 2 {
        1_000_000
    } else if p == 3 {
        1_000_000_000
    } else if p == 4 {
        1_000_000_000_000
    } else if p == 5 {
        1_000_000_000_000_000
    } else {
        1_000_000_000_000_000_000
    }
}

/// The name of the unit with index `p`.
pub fn unit_str(p: usize) -> (s: &'static str)
    ensures
        s@ == unit_name(p as nat),
{
    proof {
        reveal_strlit("B");
        reveal_strlit("KB");
        reveal_strlit("MB");
        reveal_strlit("GB");
        reveal_strlit("TB");
        reveal_strlit("PB");
        reveal_strlit("EB");
        reveal_strlit("ZB");
        reveal_strlit("YB");
    }
    let s = if p == 0 {
        "B"
    } else if p == 1 {
        "KB"
    } else if p == 2 {
        "MB"
    } else if p == 3 {
        "GB"
    } else if p == 4 {
        "TB"
    } else if p == 5 {
        "PB"
    } else if p == 6 {
        "EB"
    } else if p == 7 {
        "ZB"
    } else {
        "YB"
    };
    assert(s@ =~= unit_name(p as nat));
    s
}

/// The text of one decimal digit.
fn digit_str(d: u64) -> (s: &'static str)
    requires
        d < 10,
    ensures
        s@ == seq![digit_char(d as nat)],
{
    proof {
        reveal_strlit("0");
        reveal_strlit("1");
        reveal_strlit("2");
        reveal_strlit("3");
        reveal_strlit("4");
        reveal_strlit("5");
        reveal_strlit("6");
        reveal_strlit("7");
        reveal_strlit("8");
        reveal_strlit("9");
    }
    let s = if d == 0 {
        "0"
    } else if d == 1 {
        "1"
    } else if d == 2 {
        "2"
    } else if d == 3 {
        "3"
    } else if d == 4 {
        "4"
    } else if d == 5 {
        "5"
    } else if d == 6 {
        "6"
    } else if d == 7 {
        "7"
    } else if d == 8 {
        "8"
    } else {
        "9"
    };
    assert(s@ =~= seq![digit_char(d as nat)]);
    s
}

/// Appends `n` in decimal to `out`.
fn push_decimal(out: &mut String, n: u64)
    ensures
        final(out)@ == old(out)@ + decimal(n as nat),
    decreases n,
{
    if n >= 10 {
        push_decimal(out, n / 10);
    }
    out.append(digit_str(n % 10));
    assert(final(out)@ =~= old(out)@ + decimal(n as nat));
}

/// `num / den` rounded to the nearest whole number, from the exact middle to
/// the even neighbour.
fn round_div(num: u128, den: u128) -> (q: u128)
    requires
        0 < den <= 0x1_0000_0000_0000_0000,
        num < u128::MAX,
    ensures
        q == round_half_even(num as nat, den as nat),
{
    let q: u128 = num / den;
    let r: u128 = num % den;
    assert(q <= num) by (nonlinear_arith)
        requires
            q == num / den,
            den >= 1,
            num >= 0,
    ;
    if 2 * r < den || (2 * r == den && q % 2 == 0) {
        q
    } else {
        q + 1
    }
}

/// The distance between neighbouring numbers of 53 significant binary
/// digits at the height of `n`.
fn grain_of(n: u64) -> (g: u128)
    ensures
        g == grain(n as nat),
        1 <= g <= 2048,
{
    if n < 0x20_0000_0000_0000 {
        1
    } else if n < 0x40_0000_0000_0000 {
        2
    } else if n < 0x80_0000_0000_0000 {
        4
    } else if n < 0x100_0000_0000_0000 {
        8
    } else if n < 0x200_0000_0000_0000 {
        16
    } else if n < 0x400_0000_0000_0000 {
        32
    } else if n < 0x800_0000_0000_0000 {
        64
    } else if n < 0x1000_0000_0000_0000 {
        128
    } else if n < 0x2000_0000_0000_0000 {
        256
    } else if n < 0x4000_0000_0000_0000 {
        512
    } else if n < 0x8000_0000_0000_0000 {
        1024
    } else {
        2048
    }
}

/// The power of two that lifts the quotient `h / den` to 53 binary digits
/// before the point.
fn scale_of(h: u128, den: u128) -> (sc: u128)
    requires
        den <= 1_000_000_000_000_000_000,
    ensures
        sc == scale(h as nat, den as nat),
        0x800_0000_0000 <= sc <= 0x10_0000_0000_0000,
{
    if h < 2 * den {
        0x10_0000_0000_0000
    } else if h < 4 * den {
        0x8_0000_0000_0000
    } else if h < 8 * den {
        0x4_0000_0000_0000
    } else if h < 16 * den {
        0x2_0000_0000_0000
    } else if h < 32 * den {
        0x1_0000_0000_0000
    } else if h < 64 * den {
        0x8000_0000_0000
    } else if h < 128 * den {
        0x4000_0000_0000
    } else if h < 256 * den {
        0x2000_0000_0000
    } else if h < 512 * den {
        0x1000_0000_0000
    } else {
        0x800_0000_0000
    }
}

/// The number shown for `n` bytes, counted in tenths of its unit.
pub fn tenths_of(n: u64) -> (t: u64)
    ensures
        t == tenths(n as nat),
        t <= 10_000,
{
    proof {
        lemma_tenths_bound(n as nat);
    }
    let p: usize = magnitude_of(n);
    let den: u128 = unit_size(p) as u128;
    let g: u128 = grain_of(n);
    let whole: u128 = round_div(n as u128, g);
    assert(whole * g <= 0x1_0000_0000_0000_0000);
    let h: u128 = whole * g;
    let sc: u128 = scale_of(h, den);
    assert(h * sc <= 0x1_0000_0000_0000_0000 * 0x10_0000_0000_0000) by (nonlinear_arith)
        requires
            h <= 0x1_0000_0000_0000_0000,
            sc <= 0x10_0000_0000_0000,
    ;
    let m: u128 = round_div(h * sc, den);
    let t: u128 = round_div(10 * m, sc);
    t as u64
}

/// Formats the number of a byte count, without its unit: `1500000` gives `1.5`.
pub fn format_number(n: u64) -> (s: String)
    ensures
        s@ == spec_format_number(n as nat),
{
    let t: u64 = tenths_of(n);
    let mut s = String::new();
    push_decimal(&mut s, t / 10);
    s.append(".");
    s.append(digit_str(t % 10));
    proof {
        reveal_strlit(".");
        assert(s@ =~= spec_format_number(n as nat));
    }
    s
}

/// Formats a byte count for reading: `0` gives `0.0 B`, `1500000` gives `1.5 MB`.
pub fn format_bytes(n: u64) -> (s: String)
    ensures
        s@ == spec_format_bytes(n as nat),
{
    let mut s = format_number(n);
    s.append(" ");
    s.append(unit_str(magnitude_of(n)));
    proof {
        reveal_strlit(" ");
        assert(s@ =~= spec_format_bytes(n as nat));
    }
    s
}

} // verus!
