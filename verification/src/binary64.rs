//! Binary64 arithmetic on whole numbers: the double nearest to a rational,
//! and the few operations the dashboard performs in double precision
//! (conversion of an integer, division, multiplication, rounding to tenths
//! for display, comparison with a whole number, rounding half away from
//! zero). Ties round to even, as IEEE 754 prescribes.
use vstd::prelude::*;
use vstd::arithmetic::power2::{pow2, lemma_pow2_adds, lemma_pow2_pos, lemma2_to64, lemma2_to64_rest};
use vstd::arithmetic::div_mod::{lemma_fundamental_div_mod, lemma_fundamental_div_mod_converse};

verus! {

/// Doubles are held as `m · 2^e / 2^bias()`, so that every exponent met
/// here is a natural number.
pub open spec fn bias() -> nat {
    256
}

/// `a / b` rounded to the nearest whole number, ties to the even one.
pub open spec fn rne(a: nat, b: nat) -> nat {
    let q = a / b;
    let r = a % b;
    if 2 * r < b {
        q
    } else if 2 * r > b {
        q + 1
    } else if q % 2 == 0 {
        q
    } else {
        q + 1
    }
}

/// A non-negative double: the number `m · 2^e / 2^bias()`; zero is
/// `m == 0, e == 0`, every other value has a 53-bit mantissa.
#[derive(Debug, Clone, Copy, PartialEq, Eq, Structural)]
pub struct Double {
    pub m: u64,
    pub e: u32,
}

/// The number `d` stands for, times `2^bias()`.
pub open spec fn scaled(d: Double) -> nat {
    d.m as nat * pow2(d.e as nat)
}

/// Zero, or a 53-bit mantissa.
pub open spec fn wf(d: Double) -> bool {
    (d.m == 0 && d.e == 0) || (pow2(52) <= d.m && d.m < pow2(53))
}

/// At exponent `e` the rational `a / b` has a 53-bit mantissa.
pub open spec fn fits(a: nat, b: nat, e: nat) -> bool {
    &&& pow2(52) * b * pow2(e) <= a * pow2(bias())
    &&& a * pow2(bias()) < pow2(53) * b * pow2(e)
}

/// The double nearest to `a / b`, ties to the even mantissa.
pub open spec fn nearest(a: nat, b: nat) -> Double {
    if a == 0 {
        Double { m: 0, e: 0 }
    } else {
        let e = choose|e: nat| fits(a, b, e);
        let m = rne(a * pow2(bias()), b * pow2(e));
        if m == pow2(53) {
            Double { m: pow2(52) as u64, e: (e + 1) as u32 }
        } else {
            Double { m: m as u64, e: e as u32 }
        }
    }
}

/// The double of the whole number `n`.
pub open spec fn from_nat(n: nat) -> Double {
    nearest(n, 1)
}

/// The double quotient `x / y`.
pub open spec fn quotient(x: Double, y: Double) -> Double {
    nearest(scaled(x), scaled(y))
}

/// The double product `x * y`.
pub open spec fn product(x: Double, y: Double) -> Double {
    nearest(scaled(x) * scaled(y), pow2(2 * bias()))
}

/// `x` in tenths, rounded to the nearest, ties to even: the digits that
/// formatting with one decimal shows.
pub open spec fn tenths(x: Double) -> nat {
    rne(10 * scaled(x), pow2(bias()))
}

/// `x` is below the whole number `c`.
pub open spec fn below(x: Double, c: nat) -> bool {
    scaled(x) < c * pow2(bias())
}

/// `x` rounded to a whole number, halves away from zero.
pub open spec fn round_half_away(x: Double) -> nat {
    (2 * scaled(x) + pow2(bias())) / (2 * pow2(bias()))
}

proof fn lemma_pow2_facts()
    ensures
        pow2(52) == 0x10_0000_0000_0000,
        pow2(53) == 0x20_0000_0000_0000,
        pow2(53) == 2 * pow2(52),
        pow2(64) == 0x1_0000_0000_0000_0000,
{
    lemma2_to64();
    lemma2_to64_rest();
}

proof fn lemma_div_scale(a: nat, b: nat, c: nat)
    requires
        b > 0,
        c > 0,
    ensures
        (a * c) / (b * c) == a / b,
        (a * c) % (b * c) == (a % b) * c,
{
    let q = a / b;
    let r = a % b;
    assert(a == q * b + r && 0 <= r < b) by {
        lemma_fundamental_div_mod(a as int, b as int);
        assert(b * q == q * b) by (nonlinear_arith);
    }
    assert(a * c == q * (b * c) + r * c && r * c < b * c && b * c > 0) by (nonlinear_arith)
        requires
            a == q * b + r,
            0 <= r < b,
            c > 0,
    ;
    lemma_fundamental_div_mod_converse((a * c) as int, (b * c) as int, q as int, (r * c) as int);
}

proof fn lemma_rne_scale(a: nat, b: nat, c: nat)
    requires
        b > 0,
        c > 0,
    ensures
        rne(a * c, b * c) == rne(a, b),
{
    lemma_div_scale(a, b, c);
    let r = a % b;
    assert(2 * (r * c) < b * c <==> 2 * r < b) by (nonlinear_arith)
        requires
            c > 0,
    ;
    assert(2 * (r * c) > b * c <==> 2 * r > b) by (nonlinear_arith)
        requires
            c > 0,
    ;
}

proof fn lemma_rne_small(a: nat, b: nat)
    requires
        2 * a < b,
    ensures
        rne(a, b) == 0,
{
    lemma_fundamental_div_mod_converse(a as int, b as int, 0, a as int);
}

proof fn lemma_rne_whole(a: nat)
    ensures
        rne(a, 1) == a,
{
    lemma_fundamental_div_mod_converse(a as int, 1, a as int, 0);
}

proof fn lemma_fits_unique(a: nat, b: nat, e1: nat, e2: nat)
    requires
        b > 0,
        fits(a, b, e1),
        fits(a, b, e2),
    ensures
        e1 == e2,
    decreases (if e1 < e2 { 0nat } else { 1nat }),
{
    lemma_pow2_facts();
    if e1 < e2 {
        let d = (e2 - e1 - 1) as nat;
        lemma_pow2_adds(e1 + 1, d);
        lemma_pow2_adds(e1, 1);
        lemma_pow2_pos(d);
        lemma2_to64();
        assert((e1 + 1) + d == e2);
        let p1 = pow2(e1);
        let p2 = pow2(e2);
        assert(pow2(e1 + 1) == p1 * 2);
        assert(p2 == pow2(e1 + 1) * pow2(d));
        assert(p2 >= 2 * p1) by (nonlinear_arith)
            requires
                p2 == (p1 * 2) * pow2((e2 - e1 - 1) as nat),
                pow2((e2 - e1 - 1) as nat) >= 1,
                p1 >= 0,
        ;
        assert(false) by (nonlinear_arith)
            requires
                p2 >= 2 * p1,
                pow2(52) * b * p2 <= a * pow2(bias()),
                a * pow2(bias()) < pow2(53) * b * p1,
                pow2(53) == 2 * pow2(52),
                b > 0,
        ;
    } else if e2 < e1 {
        lemma_fits_unique(a, b, e2, e1);
    }
}

/// When `a · 2^bias() = x · c` and `b · 2^e = y · c` with `x / y` of 53
/// bits, the nearest double to `a / b` is `rne(x, y) · 2^e`, normalized.
proof fn lemma_nearest_via(a: nat, b: nat, e: nat, x: nat, y: nat, c: nat)
    requires
        a > 0,
        b > 0,
        c > 0,
        y > 0,
        a * pow2(bias()) == x * c,
        b * pow2(e) == y * c,
        pow2(52) * y <= x,
        x < pow2(53) * y,
    ensures
        nearest(a, b) == (if rne(x, y) == pow2(53) {
            Double { m: pow2(52) as u64, e: (e + 1) as u32 }
        } else {
            Double { m: rne(x, y) as u64, e: e as u32 }
        }),
{
    let pb = pow2(bias());
    let pe = pow2(e);
    assert(fits(a, b, e)) by {
        assert(pow2(52) * b * pe == (pow2(52) * y) * c) by (nonlinear_arith)
            requires
                b * pe == y * c,
        ;
        assert(pow2(53) * b * pe == (pow2(53) * y) * c) by (nonlinear_arith)
            requires
                b * pe == y * c,
        ;
        assert((pow2(52) * y) * c <= x * c) by (nonlinear_arith)
            requires
                pow2(52) * y <= x,
        ;
        assert(x * c < (pow2(53) * y) * c) by (nonlinear_arith)
            requires
                x < pow2(53) * y,
                c > 0,
        ;
    }
    let chosen = choose|f: nat| fits(a, b, f);
    lemma_fits_unique(a, b, chosen, e);
    lemma_rne_scale(x, y, c);
}

/// The number of binary digits of `n`.
fn bit_length(n: u64) -> (l: u32)
    requires
        n > 0,
    ensures
        1 <= l <= 64,
        pow2((l - 1) as nat) <= n,
        n < pow2(l as nat),
{
    let mut l: u32 = 0;
    let mut p: u128 = 1;
    proof {
        lemma2_to64();
    }
    while p <= n as u128
        invariant
            l <= 64,
            p == pow2(l as nat),
            l > 0 ==> pow2((l - 1) as nat) <= n,
            pow2(0) == 1,
            p <= n ==> l < 64,
        decreases 64 - l,
    {
        proof {
            lemma_pow2_adds(l as nat, 1);
            lemma2_to64();
            if l + 1 == 64 {
            } else if l + 1 < 64 {
                vstd::arithmetic::power2::lemma_pow2_strictly_increases((l + 1) as nat, 64);
            }
        }
        p = p * 2;
        l = l + 1;
        proof {
            if l < 64 {
                vstd::arithmetic::power2::lemma_pow2_strictly_increases(l as nat, 64);
            }
            assert(p <= n ==> l < 64) by {
                if l == 64 {
                    assert(p == 0x1_0000_0000_0000_0000u128);
                }
            }
        }
    }
    l
}

/// `2^k`.
fn pow2_exec(k: u32) -> (r: u128)
    requires
        k < 128,
    ensures
        r == pow2(k as nat),
{
    let mut r: u128 = 1;
    let mut i: u32 = 0;
    proof {
        lemma2_to64();
    }
    while i < k
        invariant
            i <= k,
            k < 128,
            r == pow2(i as nat),
        decreases k - i,
    {
        proof {
            lemma_pow2_adds(i as nat, 1);
            lemma2_to64();
            lemma_pow2_adds(64, 63);
            vstd::arithmetic::power2::lemma_pow2_strictly_increases((i + 1) as nat, 128);
            lemma_pow2_adds(64, 64);
            assert(pow2(128) == 0x1_0000_0000_0000_0000u128 * 0x1_0000_0000_0000_0000u128);
        }
        r = r * 2;
        i = i + 1;
    }
    r
}

/// `a / b` rounded to the nearest, ties to even.
fn rne_exec(a: u128, b: u128) -> (r: u128)
    requires
        0 < b < 0x8000_0000_0000_0000_0000_0000_0000_0000u128,
        a < 0xffff_ffff_ffff_ffff_ffff_ffff_ffff_ffffu128,
    ensures
        r == rne(a as nat, b as nat),
{
    let q = a / b;
    let rem = a % b;
    if 2 * rem < b {
        q
    } else if 2 * rem > b {
        q + 1
    } else if q % 2 == 0 {
        q
    } else {
        q + 1
    }
}

proof fn lemma_rne_range(x: nat, y: nat)
    requires
        y > 0,
        pow2(52) * y <= x,
        x < pow2(53) * y,
    ensures
        pow2(52) <= rne(x, y) <= pow2(53),
{
    lemma_pow2_facts();
    let q = x / y;
    let r = x % y;
    assert(x == q * y + r && 0 <= r < y) by {
        lemma_fundamental_div_mod(x as int, y as int);
        assert(y * q == q * y) by (nonlinear_arith);
    }
    assert(q < pow2(53)) by (nonlinear_arith)
        requires
            x == q * y + r,
            x < pow2(53) * y,
            r >= 0,
            y > 0,
    ;
    assert(q >= pow2(52)) by (nonlinear_arith)
        requires
            x == q * y + r,
            r < y,
            pow2(52) * y <= x,
            y > 0,
    ;
}

/// The double with mantissa `m0` at exponent `e`, carried into the next
/// exponent when rounding reached `2^53`.
fn normalize(m0: u128, e: u32) -> (r: Double)
    requires
        pow2(52) <= m0 <= pow2(53),
        e < 0xffff_ffff,
    ensures
        r == (if m0 == pow2(53) {
            Double { m: pow2(52) as u64, e: (e + 1) as u32 }
        } else {
            Double { m: m0 as u64, e: e }
        }),
        wf(r),
        r.m != 0,
{
    proof {
        lemma_pow2_facts();
    }
    if m0 == 0x20_0000_0000_0000u128 {
        Double { m: 0x10_0000_0000_0000u64, e: e + 1 }
    } else {
        Double { m: m0 as u64, e: e }
    }
}

/// The double nearest to `n`.
pub fn from_u64(n: u64) -> (r: Double)
    ensures
        r == from_nat(n as nat),
        wf(r),
        n == 0 ==> r.m == 0,
        n > 0 ==> r.m != 0 && 204 <= r.e <= 268,
        0 < n < 1024 ==> r.e <= 213,
        n < pow2(53) ==> scaled(r) == n * pow2(bias()),
{
    proof {
        lemma_pow2_facts();
    }
    if n == 0 {
        return Double { m: 0, e: 0 };
    }
    let l = bit_length(n);
    proof {
        lemma2_to64();
        if n < 1024 && l > 11 {
            vstd::arithmetic::power2::lemma_pow2_strictly_increases(10, (l - 1) as nat);
        }
        if l > 54 {
            vstd::arithmetic::power2::lemma_pow2_strictly_increases(53, (l - 1) as nat);
        }
    }
    if l <= 53 {
        let k: u32 = 53 - l;
        let pk = pow2_exec(k);
        let e: u32 = 256 - k;
        proof {
            lemma_pow2_adds((l - 1) as nat, k as nat);
            lemma_pow2_adds(l as nat, k as nat);
            lemma_pow2_adds(k as nat, e as nat);
            assert((l - 1) as nat + k as nat == 52);
            assert(l as nat + k as nat == 53);
            assert(k as nat + e as nat == 256);
            lemma_pow2_pos(k as nat);
            assert(n * pk >= pow2(52)) by (nonlinear_arith)
                requires
                    n >= pow2((l - 1) as nat),
                    pow2(52) == pow2((l - 1) as nat) * pk,
            ;
            assert(n * pk < pow2(53)) by (nonlinear_arith)
                requires
                    n < pow2(l as nat),
                    pow2(53) == pow2(l as nat) * pk,
                    pk > 0,
            ;
        }
        let m = (n as u128) * pk;
        proof {
            let pe = pow2(e as nat);
            assert(n * pow2(bias()) == m * pe) by (nonlinear_arith)
                requires
                    pow2(bias()) == pk * pe,
                    m == n * pk,
            ;
            lemma_pow2_pos(e as nat);
            lemma_nearest_via(n as nat, 1, e as nat, m as nat, 1, pe);
            lemma_rne_whole(m as nat);
        }
        Double { m: m as u64, e: e }
    } else {
        let s: u32 = l - 53;
        let ps = pow2_exec(s);
        let e: u32 = 256 + s;
        proof {
            lemma_pow2_adds(52, s as nat);
            lemma_pow2_adds(53, s as nat);
            lemma_pow2_adds(bias(), s as nat);
            assert(52 + s as nat == (l - 1) as nat);
            assert(53 + s as nat == l as nat);
            lemma_pow2_pos(bias());
            assert(1 * pow2(e as nat) == ps * pow2(bias())) by (nonlinear_arith)
                requires
                    pow2(e as nat) == pow2(bias()) * ps,
            ;
            lemma_nearest_via(n as nat, 1, e as nat, n as nat, ps as nat, pow2(bias()));
            lemma_rne_range(n as nat, ps as nat);
            vstd::arithmetic::power2::lemma_pow2_strictly_increases(s as nat, 64);
        }
        let m0 = rne_exec(n as u128, ps);
        normalize(m0, e)
    }
}

/// The double quotient `x / y`.
pub fn quotient_exec(x: Double, y: Double) -> (r: Double)
    requires
        wf(x),
        wf(y),
        y.m != 0,
        y.e <= x.e + 203,
        x.e <= 1000,
        y.e <= 1000,
    ensures
        r == quotient(x, y),
        wf(r),
        x.m == 0 ==> r.m == 0 && r.e == 0,
        x.m != 0 ==> r.m != 0 && x.e + 203 <= r.e + y.e <= x.e + 205,
{
    proof {
        lemma_pow2_facts();
    }
    if x.m == 0 {
        assert(scaled(x) == 0) by (nonlinear_arith)
            requires
                x.m == 0,
                scaled(x) == x.m * pow2(x.e as nat),
        ;
        return Double { m: 0, e: 0 };
    }
    let mx = x.m as u128;
    let my = y.m as u128;
    let ghost a = scaled(x);
    let ghost b = scaled(y);
    proof {
        lemma_pow2_pos(x.e as nat);
        lemma_pow2_pos(y.e as nat);
        assert(a > 0 && b > 0) by (nonlinear_arith)
            requires
                a == x.m * pow2(x.e as nat),
                b == y.m * pow2(y.e as nat),
                x.m > 0,
                y.m > 0,
                pow2(x.e as nat) > 0,
                pow2(y.e as nat) > 0,
        ;
    }
    if mx >= my {
        let xx = mx * 0x10_0000_0000_0000u128;
        let e: u32 = x.e + 204 - y.e;
        proof {
            let c = pow2((x.e + 204) as nat);
            lemma_pow2_pos((x.e + 204) as nat);
            lemma_pow2_adds(x.e as nat, bias());
            lemma_pow2_adds(52, (x.e + 204) as nat);
            lemma_pow2_adds(y.e as nat, e as nat);
            assert(x.e as nat + bias() == 52 + (x.e + 204) as nat);
            assert(y.e as nat + e as nat == (x.e + 204) as nat);
            assert(a * pow2(bias()) == xx * c) by (nonlinear_arith)
                requires
                    a == x.m * pow2(x.e as nat),
                    pow2(x.e as nat) * pow2(bias()) == pow2(52) * c,
                    xx == x.m * pow2(52),
            ;
            assert(b * pow2(e as nat) == my * c) by (nonlinear_arith)
                requires
                    b == y.m * pow2(y.e as nat),
                    pow2(y.e as nat) * pow2(e as nat) == c,
                    my == y.m,
            ;
            assert(pow2(52) * my <= xx && xx < pow2(53) * my) by (nonlinear_arith)
                requires
                    xx == mx * pow2(52),
                    mx >= my,
                    mx < pow2(53),
                    pow2(52) <= my,
                    pow2(53) == 2 * pow2(52),
            ;
            lemma_nearest_via(a, b, e as nat, xx as nat, my as nat, c);
            lemma_rne_range(xx as nat, my as nat);
        }
        let m0 = rne_exec(xx, my);
        normalize(m0, e)
    } else {
        let xx = mx * 0x20_0000_0000_0000u128;
        let e: u32 = x.e + 203 - y.e;
        proof {
            let c = pow2((x.e + 203) as nat);
            lemma_pow2_pos((x.e + 203) as nat);
            lemma_pow2_adds(x.e as nat, bias());
            lemma_pow2_adds(53, (x.e + 203) as nat);
            lemma_pow2_adds(y.e as nat, e as nat);
            assert(x.e as nat + bias() == 53 + (x.e + 203) as nat);
            assert(y.e as nat + e as nat == (x.e + 203) as nat);
            assert(a * pow2(bias()) == xx * c) by (nonlinear_arith)
                requires
                    a == x.m * pow2(x.e as nat),
                    pow2(x.e as nat) * pow2(bias()) == pow2(53) * c,
                    xx == x.m * pow2(53),
            ;
            assert(b * pow2(e as nat) == my * c) by (nonlinear_arith)
                requires
                    b == y.m * pow2(y.e as nat),
                    pow2(y.e as nat) * pow2(e as nat) == c,
                    my == y.m,
            ;
            assert(pow2(52) * my <= xx && xx < pow2(53) * my) by (nonlinear_arith)
                requires
                    xx == mx * pow2(53),
                    mx < my,
                    my < pow2(53),
                    pow2(52) <= mx,
                    pow2(53) == 2 * pow2(52),
            ;
            lemma_nearest_via(a, b, e as nat, xx as nat, my as nat, c);
            lemma_rne_range(xx as nat, my as nat);
        }
        let m0 = rne_exec(xx, my);
        normalize(m0, e)
    }
}

/// The double product `x * y`.
pub fn product_exec(x: Double, y: Double) -> (r: Double)
    requires
        wf(x),
        wf(y),
        x.e + y.e >= 204,
        x.e <= 1000,
        y.e <= 1000,
    ensures
        r == product(x, y),
        wf(r),
        (x.m == 0 || y.m == 0) ==> r.m == 0 && r.e == 0,
        (x.m != 0 && y.m != 0) ==> r.m != 0 && x.e + y.e <= r.e + 204 <= x.e + y.e + 2,
{
    proof {
        lemma_pow2_facts();
    }
    if x.m == 0 || y.m == 0 {
        proof {
            assert(scaled(x) * scaled(y) == 0) by (nonlinear_arith)
                requires
                    x.m == 0 || y.m == 0,
                    scaled(x) == x.m * pow2(x.e as nat),
                    scaled(y) == y.m * pow2(y.e as nat),
            ;
        }
        return Double { m: 0, e: 0 };
    }
    assert((x.m as u128) * (y.m as u128) < 0x1_0000_0000_0000_0000_0000_0000_0000u128) by (nonlinear_arith)
        requires
            x.m < 0x20_0000_0000_0000u64,
            y.m < 0x20_0000_0000_0000u64,
    ;
    let p = (x.m as u128) * (y.m as u128);
    let ghost a = scaled(x) * scaled(y);
    let ghost b = pow2(2 * bias());
    let ghost c = pow2((x.e + y.e + 256) as nat);
    proof {
        lemma_pow2_pos(x.e as nat);
        lemma_pow2_pos(y.e as nat);
        lemma_pow2_pos(2 * bias());
        lemma_pow2_pos((x.e + y.e + 256) as nat);
        lemma_pow2_adds(x.e as nat, y.e as nat);
        lemma_pow2_adds((x.e + y.e) as nat, bias());
        assert(a > 0) by (nonlinear_arith)
            requires
                a == (x.m * pow2(x.e as nat)) * (y.m * pow2(y.e as nat)),
                x.m > 0,
                y.m > 0,
                pow2(x.e as nat) > 0,
                pow2(y.e as nat) > 0,
        ;
        assert(a * pow2(bias()) == p * c) by (nonlinear_arith)
            requires
                a == (x.m * pow2(x.e as nat)) * (y.m * pow2(y.e as nat)),
                pow2((x.e + y.e) as nat) == pow2(x.e as nat) * pow2(y.e as nat),
                c == pow2((x.e + y.e) as nat) * pow2(bias()),
                p == x.m * y.m,
        ;
        assert(pow2(104) <= p && p < pow2(106)) by {
            lemma_pow2_adds(52, 52);
            lemma_pow2_adds(53, 53);
            assert(pow2(52) * pow2(52) <= p && p < pow2(53) * pow2(53)) by (nonlinear_arith)
                requires
                    p == x.m * y.m,
                    pow2(52) <= x.m < pow2(53),
                    pow2(52) <= y.m < pow2(53),
            ;
        }
        lemma_pow2_adds(104, 1);
        lemma_pow2_adds(105, 1);
        lemma_pow2_adds(52, 53);
        lemma_pow2_adds(53, 53);
    }
    if p >= 0x200_0000_0000_0000_0000_0000_0000u128 {
        let e: u32 = x.e + y.e - 203;
        proof {
            assert(pow2(105) == 0x200_0000_0000_0000_0000_0000_0000);
            lemma_pow2_adds(2 * bias(), e as nat);
            lemma_pow2_adds(53, (x.e + y.e + 256) as nat);
            assert(2 * bias() + e as nat == 53 + (x.e + y.e + 256) as nat);
            lemma_pow2_adds(53, 53);
            assert(pow2(52) * pow2(53) == pow2(105));
            assert(pow2(52) * pow2(53) <= p && p < pow2(53) * pow2(53));
            lemma_nearest_via(a, b, e as nat, p as nat, pow2(53), c);
            lemma_rne_range(p as nat, pow2(53));
        }
        let m0 = rne_exec(p, 0x20_0000_0000_0000u128);
        normalize(m0, e)
    } else {
        let e: u32 = x.e + y.e - 204;
        proof {
            assert(pow2(105) == 0x200_0000_0000_0000_0000_0000_0000);
            lemma_pow2_adds(2 * bias(), e as nat);
            lemma_pow2_adds(52, (x.e + y.e + 256) as nat);
            assert(2 * bias() + e as nat == 52 + (x.e + y.e + 256) as nat);
            assert(pow2(53) * pow2(52) == pow2(52) * pow2(53)) by (nonlinear_arith);
            lemma_pow2_adds(52, 52);
            assert(pow2(52) * pow2(52) == pow2(104));
            assert(pow2(52) * pow2(53) == pow2(105));
            assert(pow2(52) * pow2(52) <= p && p < pow2(53) * pow2(52));
            lemma_nearest_via(a, b, e as nat, p as nat, pow2(52), c);
            lemma_rne_range(p as nat, pow2(52));
        }
        let m0 = rne_exec(p, 0x10_0000_0000_0000u128);
        normalize(m0, e)
    }
}

proof fn lemma_small_quotient(a: nat, b: nat)
    requires
        a < b,
    ensures
        a / b == 0,
{
    lemma_fundamental_div_mod_converse(a as int, b as int, 0, a as int);
}

/// `x` in tenths, rounded to the nearest, ties to even.
pub fn tenths_exec(x: Double) -> (r: u128)
    requires
        wf(x),
        x.e <= 316,
    ensures
        r == tenths(x),
{
    proof {
        lemma_pow2_facts();
        lemma_pow2_pos(bias());
        lemma_pow2_pos(x.e as nat);
    }
    if x.m == 0 {
        proof {
            assert(scaled(x) == 0) by (nonlinear_arith)
                requires
                    x.m == 0,
                    scaled(x) == x.m * pow2(x.e as nat),
            ;
            lemma_rne_small(0, pow2(bias()));
        }
        return 0;
    }
    let tm = 10 * (x.m as u128);
    if x.e >= 256 {
        let s: u32 = x.e - 256;
        let ps = pow2_exec(s);
        proof {
            vstd::arithmetic::power2::lemma_pow2_strictly_increases(s as nat, 61);
            lemma2_to64_rest();
            assert(tm * ps < 0x100_0000_0000_0000_0000_0000_0000_0000u128) by (nonlinear_arith)
                requires
                    tm < 10 * 0x20_0000_0000_0000u128,
                    ps < 0x2000_0000_0000_0000u128,
            ;
        }
        let t = tm * ps;
        proof {
            lemma_pow2_adds(s as nat, bias());
            assert(s as nat + bias() == x.e as nat);
            assert(10 * scaled(x) == t * pow2(bias())) by (nonlinear_arith)
                requires
                    scaled(x) == x.m * pow2(x.e as nat),
                    pow2(x.e as nat) == ps * pow2(bias()),
                    t == 10 * x.m * ps,
            ;
            assert(pow2(bias()) == 1 * pow2(bias()));
            lemma_rne_scale(t as nat, 1, pow2(bias()));
            lemma_rne_whole(t as nat);
        }
        t
    } else {
        let k: u32 = 256 - x.e;
        proof {
            lemma_pow2_adds(k as nat, x.e as nat);
            assert(k as nat + x.e as nat == bias());
            assert(10 * scaled(x) == tm * pow2(x.e as nat)) by (nonlinear_arith)
                requires
                    scaled(x) == x.m * pow2(x.e as nat),
                    tm == 10 * x.m,
            ;
            lemma_pow2_pos(k as nat);
            lemma_rne_scale(tm as nat, pow2(k as nat), pow2(x.e as nat));
        }
        if k >= 100 {
            proof {
                lemma2_to64_rest();
                vstd::arithmetic::power2::lemma_pow2_strictly_increases(58, k as nat);
                assert(pow2(58) == 0x400_0000_0000_0000);
                lemma_rne_small(tm as nat, pow2(k as nat));
            }
            0
        } else {
            let pk = pow2_exec(k);
            proof {
                vstd::arithmetic::power2::lemma_pow2_strictly_increases(k as nat, 100);
                lemma_pow2_adds(64, 36);
                lemma2_to64();
                lemma2_to64_rest();
                lemma_pow2_pos(k as nat);
                assert(pow2(100) == 0x1_0000_0000_0000_0000u128 * 0x10_0000_0000u128);
            }
            rne_exec(tm, pk)
        }
    }
}

/// Whether `x` is below the whole number `c`.
pub fn below_exec(x: Double, c: u64) -> (r: bool)
    requires
        wf(x),
        1 <= c <= 1000,
    ensures
        r == below(x, c as nat),
{
    proof {
        lemma_pow2_facts();
        lemma_pow2_pos(bias());
        lemma_pow2_pos(x.e as nat);
    }
    if x.m == 0 {
        proof {
            assert(scaled(x) == 0) by (nonlinear_arith)
                requires
                    x.m == 0,
                    scaled(x) == x.m * pow2(x.e as nat),
            ;
            assert(c * pow2(bias()) > 0) by (nonlinear_arith)
                requires
                    c >= 1,
                    pow2(bias()) > 0,
            ;
        }
        return true;
    }
    if x.e >= 256 {
        proof {
            let s = (x.e - 256) as nat;
            lemma_pow2_adds(s, bias());
            lemma_pow2_pos(s);
            assert(scaled(x) >= c * pow2(bias())) by (nonlinear_arith)
                requires
                    scaled(x) == x.m * pow2(x.e as nat),
                    pow2(x.e as nat) == pow2(s) * pow2(bias()),
                    pow2(s) >= 1,
                    x.m >= 0x10_0000_0000_0000u64,
                    c <= 1000,
                    pow2(bias()) > 0,
            ;
        }
        return false;
    }
    let k: u32 = 256 - x.e;
    proof {
        lemma_pow2_adds(k as nat, x.e as nat);
        assert(k as nat + x.e as nat == bias());
        assert(below(x, c as nat) <==> x.m < c * pow2(k as nat)) by (nonlinear_arith)
            requires
                scaled(x) == x.m * pow2(x.e as nat),
                pow2(bias()) == pow2(k as nat) * pow2(x.e as nat),
                pow2(x.e as nat) > 0,
                below(x, c as nat) == (scaled(x) < c * pow2(bias())),
        ;
    }
    if k >= 64 {
        proof {
            if k > 64 {
                vstd::arithmetic::power2::lemma_pow2_strictly_increases(64, k as nat);
            }
            assert(c * pow2(k as nat) >= pow2(64)) by (nonlinear_arith)
                requires
                    c >= 1,
                    pow2(k as nat) >= pow2(64),
            ;
        }
        true
    } else {
        let pk = pow2_exec(k);
        proof {
            vstd::arithmetic::power2::lemma_pow2_strictly_increases(k as nat, 64);
            assert((c as u128) * pk < 0x10_0000_0000_0000_0000_0000u128) by (nonlinear_arith)
                requires
                    c <= 1000,
                    pk < 0x1_0000_0000_0000_0000u128,
            ;
        }
        (x.m as u128) < (c as u128) * pk
    }
}

/// `x` rounded to a whole number, halves away from zero.
pub fn round_half_away_exec(x: Double) -> (r: u128)
    requires
        wf(x),
        x.e <= 320,
    ensures
        r == round_half_away(x),
{
    proof {
        lemma_pow2_facts();
        lemma_pow2_pos(bias());
        lemma_pow2_pos(x.e as nat);
    }
    let ghost pb = pow2(bias());
    if x.m == 0 {
        proof {
            assert(scaled(x) == 0) by (nonlinear_arith)
                requires
                    x.m == 0,
                    scaled(x) == x.m * pow2(x.e as nat),
            ;
            lemma_small_quotient(pb, 2 * pb);
        }
        return 0;
    }
    if x.e >= 256 {
        let s: u32 = x.e - 256;
        let ps = pow2_exec(s);
        proof {
            if s < 64 {
                vstd::arithmetic::power2::lemma_pow2_strictly_increases(s as nat, 64);
            }
            assert((x.m as u128) * ps < 0x100_0000_0000_0000_0000_0000_0000_0000u128) by (nonlinear_arith)
                requires
                    x.m < 0x20_0000_0000_0000u64,
                    ps <= 0x1_0000_0000_0000_0000u128,
            ;
        }
        let v = (x.m as u128) * ps;
        proof {
            lemma_pow2_adds(s as nat, bias());
            assert(s as nat + bias() == x.e as nat);
            assert(2 * scaled(x) + pb == (2 * v + 1) * pb && 2 * pb == 2 * pb) by (nonlinear_arith)
                requires
                    scaled(x) == x.m * pow2(x.e as nat),
                    pow2(x.e as nat) == ps * pb,
                    v == x.m * ps,
            ;
            lemma_div_scale((2 * v + 1) as nat, 2, pb);
            assert((2 * v + 1) * pb == ((2 * v + 1) as nat) * pb);
            assert(2 * pb == 2 * pb);
            lemma_fundamental_div_mod_converse((2 * v + 1) as int, 2, v as int, 1);
        }
        v
    } else {
        let k: u32 = 256 - x.e;
        let ghost pe = pow2(x.e as nat);
        proof {
            lemma_pow2_adds(k as nat, x.e as nat);
            lemma_pow2_adds(k as nat, 1);
            lemma2_to64();
            assert(k as nat + x.e as nat == bias());
            lemma_pow2_pos(k as nat);
            assert(2 * scaled(x) + pb == (2 * x.m + pow2(k as nat)) * pe) by (nonlinear_arith)
                requires
                    scaled(x) == x.m * pe,
                    pb == pow2(k as nat) * pe,
            ;
            assert(2 * pb == pow2((k + 1) as nat) * pe) by (nonlinear_arith)
                requires
                    pb == pow2(k as nat) * pe,
                    pow2((k + 1) as nat) == pow2(k as nat) * 2,
            ;
            lemma_div_scale((2 * x.m + pow2(k as nat)) as nat, pow2((k + 1) as nat), pe);
        }
        if k >= 60 {
            proof {
                lemma2_to64_rest();
                vstd::arithmetic::power2::lemma_pow2_strictly_increases(54, k as nat);
                assert(pow2(54) == 0x40_0000_0000_0000);
                lemma_small_quotient((2 * x.m + pow2(k as nat)) as nat, pow2((k + 1) as nat));
            }
            0
        } else {
            let pk = pow2_exec(k);
            let pk1 = pow2_exec(k + 1);
            proof {
                vstd::arithmetic::power2::lemma_pow2_strictly_increases(k as nat, 64);
            }
            (2 * (x.m as u128) + pk) / pk1
        }
    }
}

} // verus!
