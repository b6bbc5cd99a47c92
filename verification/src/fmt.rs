//! Human-readable formatting, kept in one place so every report renders
//! identical numbers.
//!
//! Sizes and percentages are shown with one decimal, computed the way a
//! binary64 float computes them: an integer becomes the nearest value
//! with 53 significant bits, each product or quotient is rounded to 53
//! significant bits, and the one-decimal rendering rounds the exact binary
//! value to the nearest tenth, ties to even. All of it is done here in
//! exact integer arithmetic.

use vstd::prelude::*;

use vstd::arithmetic::power2::{lemma2_to64, lemma2_to64_rest, lemma_pow2_adds, lemma_pow2_pos, lemma_pow2_strictly_increases, lemma_pow2_unfold, pow2};
use vstd::string::StringExecFns;

use crate::text::push_char;

verus! {

/// The ASCII digit for `d` (0..=9).
pub open spec fn digit_char(d: int) -> char {
    (48 + d) as char
}

/// The decimal digits of `n`, most significant first, with no leading
/// zeros (`0` is the single digit `0`).
pub open spec fn decimal(n: nat) -> Seq<char>
    decreases n,
{
    if n < 10 {
        seq![digit_char(n as int)]
    } else {
        decimal(n / 10).push(digit_char((n % 10) as int))
    }
}

/// The digit character for `d`.
fn digit(d: u128) -> (c: char)
    requires
        d < 10,
    ensures
        c == digit_char(d as int),
{
    let b: u8 = 48 + d as u8;
    b as char
}

/// Appends the decimal digits of `n` to `out`.
pub(crate) fn push_decimal(out: &mut String, n: u128)
    ensures
        final(out)@ == old(out)@ + decimal(n as nat),
    decreases n,
{
    if n >= 10 {
        push_decimal(out, n / 10);
    }
    push_char(out, digit(n % 10));
    proof {
        if n < 10 {
            assert(n % 10 == n);
        }
    }
}

/// The decimal digits of `n`.
pub fn decimal_string(n: u64) -> (s: String)
    ensures
        s@ == decimal(n as nat),
{
    let mut s = String::new();
    push_decimal(&mut s, n as u128);
    proof {
        assert(Seq::<char>::empty() + decimal(n as nat) =~= decimal(n as nat));
    }
    s
}

/// The first `k` digits of `ds`, with a comma before every digit that has
/// a multiple of three digits from it to the end (the first digit
/// excepted).
pub open spec fn commas_upto(ds: Seq<char>, k: int) -> Seq<char>
    decreases k,
{
    if k <= 0 {
        Seq::empty()
    } else {
        let i = k - 1;
        if i > 0 && (ds.len() - i) % 3 == 0 {
            commas_upto(ds, i).push(',').push(ds[i])
        } else {
            commas_upto(ds, i).push(ds[i])
        }
    }
}

/// `ds` with its digits grouped in threes from the right by commas.
pub open spec fn grouped(ds: Seq<char>) -> Seq<char> {
    commas_upto(ds, ds.len() as int)
}

/// Groups digits with commas, e.g. `1,842,109`.
pub fn count(n: u64) -> (s: String)
    ensures
        s@ == grouped(decimal(n as nat)),
{
    let digits = decimal_string(n);
    let ds = crate::text::chars_of(digits.as_str());
    let len = ds.len();
    let lead = len % 3;
    let mut out = String::new();
    let mut i: usize = 0;
    while i < len
        invariant
            len == ds@.len(),
            ds@ == decimal(n as nat),
            lead == len % 3,
            i <= len,
            out@ == commas_upto(ds@, i as int),
        decreases len - i,
    {
        if i > 0 && i % 3 == lead {
            push_char(&mut out, ',');
        }
        push_char(&mut out, ds[i]);
        proof {
            assert((i > 0 && i % 3 == lead) == (i > 0 && (len - i) % 3 == 0)) by (nonlinear_arith)
                requires
                    lead == len % 3,
                    i < len,
            ;
        }
        i = i + 1;
    }
    out
}


/// Number of binary digits of `n` (0 for 0).
pub open spec fn bit_len(n: nat) -> nat
    decreases n,
{
    if n == 0 {
        0
    } else {
        1 + bit_len(n / 2)
    }
}

/// `num / den` rounded to the nearest integer, ties to the even one.
pub open spec fn round_div(num: nat, den: nat) -> nat {
    let q = num / den;
    let r = num % den;
    if 2 * r > den || (2 * r == den && q % 2 == 1) {
        q + 1
    } else {
        q
    }
}

/// The value the nonnegative integer `n` takes as a binary64 float:
/// itself below 2^53, otherwise rounded to 53 significant bits, ties to
/// even.
pub open spec fn as_f64(n: nat) -> nat {
    if bit_len(n) <= 53 {
        n
    } else {
        let s = (bit_len(n) - 53) as nat;
        round_div(n, pow2(s)) * pow2(s)
    }
}

/// Numerator of `x / (w * 2^e)` over [`scaled_den`].
pub open spec fn scaled_num(x: nat, e: int) -> nat {
    if e >= 0 {
        x
    } else {
        x * pow2((-e) as nat)
    }
}

/// Denominator of `x / (w * 2^e)` over [`scaled_num`].
pub open spec fn scaled_den(w: nat, e: int) -> nat {
    if e >= 0 {
        w * pow2(e as nat)
    } else {
        w
    }
}

/// Binary exponent of the binary64 quotient `x / w` (both positive): the
/// `e` with `2^52 <= x / (w * 2^e) < 2^53`.
pub open spec fn quot_exp(x: nat, w: nat) -> int {
    let e0 = bit_len(x) - bit_len(w) - 53;
    if scaled_num(x, e0) / scaled_den(w, e0) >= pow2(53) {
        e0 + 1
    } else {
        e0
    }
}

/// Significand of the binary64 quotient `x / w`: the quotient is
/// `quot_mant(x, w) * 2^quot_exp(x, w)`.
pub open spec fn quot_mant(x: nat, w: nat) -> nat {
    let e = quot_exp(x, w);
    round_div(scaled_num(x, e), scaled_den(w, e))
}

/// `m * 2^e` times ten, rounded to an integer, ties to even: the tenths
/// that a one-decimal rendering of that value shows.
pub open spec fn tenths_of(m: nat, e: int) -> nat {
    if e >= 0 {
        10 * m * pow2(e as nat)
    } else {
        round_div(10 * m, pow2((-e) as nat))
    }
}

/// Tenths shown for `part * 100 / whole`, computed as binary64 floats
/// (`whole > 0`).
pub open spec fn percent_tenths(part: nat, whole: nat) -> nat {
    let x = as_f64(as_f64(part) * 100);
    let w = as_f64(whole);
    if x == 0 {
        0
    } else {
        tenths_of(quot_mant(x, w), quot_exp(x, w))
    }
}

/// `t` tenths rendered with one decimal, e.g. `591` as `59.1`.
pub open spec fn one_decimal(t: nat) -> Seq<char> {
    decimal(t / 10) + seq!['.', digit_char((t % 10) as int)]
}

/// Percentage with one decimal, e.g. `59.1%`; a zero whole gives `0.0%`.
pub open spec fn percent_text(part: nat, whole: nat) -> Seq<char> {
    if whole == 0 {
        "0.0%"@
    } else {
        one_decimal(percent_tenths(part, whole)).push('%')
    }
}

/// Name of the binary unit `1024^u`.
pub open spec fn unit_name(u: nat) -> Seq<char> {
    if u == 0 {
        "B"@
    } else if u == 1 {
        "KiB"@
    } else if u == 2 {
        "MiB"@
    } else if u == 3 {
        "GiB"@
    } else if u == 4 {
        "TiB"@
    } else if u == 5 {
        "PiB"@
    } else {
        "EiB"@
    }
}

/// The unit a float value `v` is shown in, searching up from `u`: the
/// largest step whose `1024^step` is still at most `v`, capped at EiB.
pub open spec fn unit_index(v: nat, u: nat) -> nat
    decreases 6 - u,
{
    if u < 6 && v >= pow2(10 * (u + 1)) {
        unit_index(v, u + 1)
    } else {
        u
    }
}

/// A byte count in binary units, e.g. `698.2 GiB`; below 1 KiB the exact
/// count, with no decimal, e.g. `512 B`.
pub open spec fn bytes_text(n: nat) -> Seq<char> {
    if n < 1024 {
        decimal(n) + " B"@
    } else {
        let v = as_f64(n);
        let u = unit_index(v, 0);
        one_decimal(round_div(10 * v, pow2(10 * u))) + " "@ + unit_name(u)
    }
}

proof fn lemma_pow2_128()
    ensures
        pow2(53) == 0x20_0000_0000_0000,
        pow2(64) == 0x1_0000_0000_0000_0000,
        pow2(100) == 0x10_0000_0000_0000_0000_0000_0000,
        pow2(128) == 0x1_0000_0000_0000_0000_0000_0000_0000_0000,
{
    lemma2_to64();
    lemma2_to64_rest();
    lemma_pow2_adds(64, 64);
    lemma_pow2_adds(64, 36);
}

proof fn lemma_pow2_le(a: nat, b: nat)
    requires
        a <= b,
    ensures
        pow2(a) <= pow2(b),
{
    if a < b {
        lemma_pow2_strictly_increases(a, b);
    }
}

/// `n` lies in `[2^(bit_len - 1), 2^bit_len)`.
proof fn lemma_bit_len(n: nat)
    ensures
        n < pow2(bit_len(n)),
        n > 0 ==> pow2((bit_len(n) - 1) as nat) <= n,
        n == 0 ==> bit_len(n) == 0,
    decreases n,
{
    lemma2_to64();
    if n > 0 {
        lemma_bit_len(n / 2);
        lemma_pow2_unfold(bit_len(n));
        if n / 2 > 0 {
            lemma_pow2_unfold((bit_len(n) - 1) as nat);
        }
    }
}

/// A value below `2^k` has at most `k` binary digits.
proof fn lemma_bit_len_le(n: nat, k: nat)
    requires
        n < pow2(k),
    ensures
        bit_len(n) <= k,
{
    lemma_bit_len(n);
    if bit_len(n) > k {
        lemma_pow2_le(k, (bit_len(n) - 1) as nat);
    }
}

proof fn lemma_round_div_bounds(num: nat, den: nat)
    requires
        den > 0,
    ensures
        round_div(num, den) <= num / den + 1,
        round_div(num, den) * den <= num + den,
        num / den <= round_div(num, den),
{
    let q = num / den;
    let r = num % den;
    assert(q * den + r == num) by (nonlinear_arith)
        requires
            den > 0,
            q == num / den,
            r == num % den,
    ;
    assert((q + 1) * den == q * den + den) by (nonlinear_arith);
}

/// Number of binary digits of `n`.
fn bit_len_of(n: u128) -> (b: u32)
    ensures
        b == bit_len(n as nat),
        b <= 128,
{
    proof {
        lemma_pow2_128();
        lemma_bit_len_le(n as nat, 128);
    }
    let mut m = n;
    let mut b: u32 = 0;
    while m > 0
        invariant
            bit_len(n as nat) == b + bit_len(m as nat),
            bit_len(n as nat) <= 128,
        decreases m,
    {
        m = m / 2;
        b = b + 1;
    }
    b
}

/// `2^k`.
pub(crate) fn pow2_of(k: u32) -> (r: u128)
    requires
        k < 128,
    ensures
        r == pow2(k as nat),
{
    proof {
        lemma2_to64();
        lemma_pow2_128();
    }
    let mut r: u128 = 1;
    let mut i: u32 = 0;
    while i < k
        invariant
            i <= k < 128,
            r == pow2(i as nat),
            pow2(128) == 0x1_0000_0000_0000_0000_0000_0000_0000_0000,
        decreases k - i,
    {
        proof {
            lemma_pow2_unfold((i + 1) as nat);
            lemma_pow2_strictly_increases((i + 1) as nat, 128);
        }
        r = r * 2;
        i = i + 1;
    }
    r
}

/// `num / den` rounded to nearest, ties to even.
fn round_div_of(num: u128, den: u128) -> (r: u128)
    requires
        den > 0,
    ensures
        r == round_div(num as nat, den as nat),
{
    let q = num / den;
    let rem = num % den;
    let up = rem > den - rem || (rem == den - rem && q % 2 == 1);
    if up {
        assert(q < u128::MAX) by (nonlinear_arith)
            requires
                q == num / den,
                rem == num % den,
                rem > 0,
                den > 0,
                rem < den,
        ;
        q + 1
    } else {
        q
    }
}

/// The value `n` takes as a binary64 float.
fn f64_value(n: u128) -> (v: u128)
    requires
        n < pow2(100),
    ensures
        v == as_f64(n as nat),
        v <= 2 * n,
        n > 0 ==> v > 0,
{
    proof {
        lemma_pow2_128();
        lemma_pow2_strictly_increases(100, 128);
        lemma_bit_len_le(n as nat, 100);
    }
    let b = bit_len_of(n);
    if b <= 53 {
        n
    } else {
        let s = b - 53;
        let d = pow2_of(s);
        proof {
            lemma_pow2_pos(s as nat);
            lemma_round_div_bounds(n as nat, d as nat);
            lemma_bit_len(n as nat);
            lemma_pow2_le(s as nat, (b - 1) as nat);
        }
        let q = round_div_of(n, d);
        assert(q * d <= n + d);
        assert(d <= n);
        assert(n / d >= 1) by (nonlinear_arith)
            requires
                d <= n,
                d > 0,
        ;
        assert(q * d >= d) by (nonlinear_arith)
            requires
                q >= 1,
                d > 0,
        ;
        q * d
    }
}

/// `x * 2^k` stays below `2^(a + k)` when `x < 2^a`.
proof fn lemma_mul_pow2_lt(x: nat, a: nat, k: nat)
    requires
        x < pow2(a),
    ensures
        x * pow2(k) < pow2(a + k),
{
    lemma_pow2_adds(a, k);
    lemma_pow2_pos(k);
    assert(x * pow2(k) < pow2(a) * pow2(k)) by (nonlinear_arith)
        requires
            x < pow2(a),
            pow2(k) > 0,
    ;
}

/// Numerator and denominator of `x / (w * 2^e)`.
fn scaled(x: u128, w: u128, e: i32) -> (r: (u128, u128))
    requires
        1 <= x < pow2(80),
        1 <= w <= pow2(66),
        bit_len(x as nat) - bit_len(w as nat) - 53 <= e <= bit_len(x as nat) - bit_len(w as nat)
            - 52,
    ensures
        r.0 == scaled_num(x as nat, e as int),
        r.1 == scaled_den(w as nat, e as int),
        r.1 > 0,
        e < 0 ==> r.0 < pow2(54) * w,
{
    proof {
        lemma_pow2_128();
        lemma_pow2_strictly_increases(66, 67);
        lemma_bit_len_le(x as nat, 80);
        lemma_bit_len_le(w as nat, 67);
        lemma_bit_len(x as nat);
        lemma_bit_len(w as nat);
    }
    if e >= 0 {
        let p = pow2_of(e as u32);
        proof {
            lemma_pow2_le(e as nat, 27);
            lemma2_to64();
            lemma_pow2_pos(e as nat);
            assert(w * p <= 0x4_0000_0000_0000_0000 * 0x800_0000) by (nonlinear_arith)
                requires
                    w <= 0x4_0000_0000_0000_0000,
                    p <= 0x800_0000,
            ;
            assert(w * p >= 1) by (nonlinear_arith)
                requires
                    w >= 1,
                    p >= 1,
            ;
        }
        (x, w * p)
    } else {
        let k = (-e) as u32;
        let p = pow2_of(k);
        proof {
            let bx = bit_len(x as nat);
            let bw = bit_len(w as nat);
            let kk = (bw + 53 - bx) as nat;
            lemma_pow2_le(k as nat, kk);
            lemma_pow2_pos(k as nat);
            lemma_mul_pow2_lt(x as nat, bx, kk);
            assert(x * p <= x * pow2(kk)) by (nonlinear_arith)
                requires
                    p <= pow2(kk),
            ;
            assert(bx + kk == (bw - 1) + 54);
            lemma_pow2_adds((bw - 1) as nat, 54);
            let a = pow2((bw - 1) as nat);
            let b54 = pow2(54);
            lemma_pow2_pos(54);
            assert(x * pow2(kk) < a * b54);
            assert(a * b54 <= b54 * w) by (nonlinear_arith)
                requires
                    a <= w,
                    b54 > 0,
            ;
            lemma_pow2_pos(54);
            lemma_pow2_le(bw + 53, 120);
            lemma_pow2_strictly_increases(120, 128);
        }
        (x * p, w)
    }
}

/// Significand and binary exponent of the binary64 quotient `x / w`.
fn quotient_f64(x: u128, w: u128) -> (r: (u128, i32))
    requires
        1 <= x < pow2(80),
        1 <= w <= pow2(66),
    ensures
        r.0 == quot_mant(x as nat, w as nat),
        r.1 == quot_exp(x as nat, w as nat),
        r.0 <= pow2(80),
        -119 <= r.1 <= 27,
        r.1 < 0 ==> r.0 <= pow2(54) + 1,
{
    proof {
        lemma_pow2_128();
        lemma_pow2_strictly_increases(66, 67);
        lemma_bit_len_le(x as nat, 80);
        lemma_bit_len_le(w as nat, 67);
        lemma_bit_len(x as nat);
        lemma_bit_len(w as nat);
    }
    let bx = bit_len_of(x);
    let bw = bit_len_of(w);
    let e0: i32 = bx as i32 - bw as i32 - 53;
    let (n0, d0) = scaled(x, w, e0);
    let e: i32 = if n0 / d0 >= pow2_of(53) {
        e0 + 1
    } else {
        e0
    };
    let (n1, d1) = scaled(x, w, e);
    let m = round_div_of(n1, d1);
    proof {
        lemma_round_div_bounds(n1 as nat, d1 as nat);
        assert(n1 / d1 <= n1) by (nonlinear_arith)
            requires
                d1 > 0,
        ;
        if e < 0 {
            assert(n1 / d1 < pow2(54)) by (nonlinear_arith)
                requires
                    n1 < pow2(54) * d1,
                    d1 > 0,
            ;
        } else {
            assert(n1 == x);
        }
        lemma_pow2_strictly_increases(54, 80);
    }
    (m, e)
}

/// Tenths shown for `m * 2^e`.
fn tenths_exec(m: u128, e: i32) -> (t: u128)
    requires
        m <= pow2(80),
        -119 <= e <= 27,
        e < 0 ==> m <= pow2(54) + 1,
    ensures
        t == tenths_of(m as nat, e as int),
{
    proof {
        lemma_pow2_128();
        lemma2_to64();
        lemma_pow2_adds(80, 27);
    }
    if e >= 0 {
        let p = pow2_of(e as u32);
        proof {
            lemma_pow2_le(e as nat, 27);
            let big = pow2(107);
            lemma_pow2_adds(107, 21);
            lemma_pow2_pos(107);
            assert(10 * m <= 10 * pow2(80));
            assert(10 * m * p <= 10 * (pow2(80) * pow2(27))) by (nonlinear_arith)
                requires
                    m <= pow2(80),
                    p <= pow2(27),
            ;
            assert(10 * big < big * 0x20_0000) by (nonlinear_arith)
                requires
                    big > 0,
            ;
        }
        10 * m * p
    } else {
        let p = pow2_of((-e) as u32);
        proof {
            lemma_pow2_pos((-e) as nat);
            lemma_pow2_strictly_increases(54, 64);
        }
        round_div_of(10 * m, p)
    }
}

/// Tenths shown for `part * 100 / whole` as binary64 floats.
pub(crate) fn percent_tenths_of(part: u64, whole: u64) -> (t: u128)
    requires
        whole > 0,
    ensures
        t == percent_tenths(part as nat, whole as nat),
{
    proof {
        lemma_pow2_128();
        lemma2_to64();
        lemma_pow2_strictly_increases(80, 100);
        lemma_pow2_strictly_increases(66, 80);
        lemma_pow2_adds(64, 16);
        lemma_pow2_adds(64, 2);
    }
    let a = f64_value(part as u128);
    let x = f64_value(a * 100);
    let w = f64_value(whole as u128);
    if x == 0 {
        0
    } else {
        let (m, e) = quotient_f64(x, w);
        tenths_exec(m, e)
    }
}

/// Appends `t` tenths with one decimal, e.g. `591` as `59.1`.
pub(crate) fn push_one_decimal(out: &mut String, t: u128)
    ensures
        final(out)@ == old(out)@ + one_decimal(t as nat),
{
    push_decimal(out, t / 10);
    push_char(out, '.');
    push_char(out, digit(t % 10));
    proof {
        assert(final(out)@ =~= old(out)@ + one_decimal(t as nat));
    }
}

/// Percentage with one decimal, e.g. `59.1%`. A zero whole yields `0.0%`
/// rather than NaN.
pub fn percent(part: u64, whole: u64) -> (s: String)
    ensures
        s@ == percent_text(part as nat, whole as nat),
{
    if whole == 0 {
        proof {
            reveal_strlit("0.0%");
        }
        return String::from_str("0.0%");
    }
    let t = percent_tenths_of(part, whole);
    let mut s = String::new();
    push_one_decimal(&mut s, t);
    push_char(&mut s, '%');
    proof {
        assert(s@ =~= one_decimal(t as nat).push('%'));
    }
    s
}

/// Name of the unit `1024^u`.
fn unit_str(u: u32) -> (r: &'static str)
    ensures
        r@ == unit_name(u as nat),
{
    proof {
        reveal_strlit("B");
        reveal_strlit("KiB");
        reveal_strlit("MiB");
        reveal_strlit("GiB");
        reveal_strlit("TiB");
        reveal_strlit("PiB");
        reveal_strlit("EiB");
    }
    if u == 0 {
        "B"
    } else if u == 1 {
        "KiB"
    } else if u == 2 {
        "MiB"
    } else if u == 3 {
        "GiB"
    } else if u == 4 {
        "TiB"
    } else if u == 5 {
        "PiB"
    } else {
        "EiB"
    }
}

/// Formats a byte count in binary units, e.g. `698.2 GiB`. Counts below
/// 1 KiB are rendered exactly and without a decimal, since `512.0 B`
/// reads like a bug.
pub fn bytes(n: u64) -> (s: String)
    ensures
        s@ == bytes_text(n as nat),
{
    proof {
        lemma_pow2_128();
        lemma2_to64();
        lemma_pow2_strictly_increases(64, 100);
    }
    bytes_wide(n as u128)
}

/// [`bytes`] for totals wider than a `u64` (below `2^100`), such as sums
/// of many sizes.
pub(crate) fn bytes_wide(n: u128) -> (s: String)
    requires
        n < pow2(100),
    ensures
        s@ == bytes_text(n as nat),
{
    proof {
        reveal_strlit(" B");
        reveal_strlit(" ");
    }
    let mut s = String::new();
    if n < 1024 {
        push_decimal(&mut s, n);
        s.append(" B");
        proof {
            assert(s@ =~= decimal(n as nat) + " B"@);
        }
        return s;
    }
    proof {
        lemma_pow2_128();
        lemma2_to64();
    }
    let v = f64_value(n);
    let mut u: u32 = 0;
    while u < 6 && v >= pow2_of(10 * (u + 1))
        invariant
            u <= 6,
            unit_index(v as nat, 0) == unit_index(v as nat, u as nat),
        decreases 6 - u,
    {
        u = u + 1;
    }
    let p = pow2_of(10 * u);
    proof {
        lemma_pow2_pos((10 * u) as nat);
    }
    let t = round_div_of(10 * v, p);
    push_one_decimal(&mut s, t);
    s.append(" ");
    s.append(unit_str(u));
    proof {
        assert(s@ =~= one_decimal(t as nat) + " "@ + unit_name(u as nat));
    }
    s
}
} // verus!
