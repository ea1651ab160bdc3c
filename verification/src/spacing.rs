//! Even spacing of picks over a sorted list.
//!
//! Pick `k` of `n` out of a list of `len` is the element at
//! `(k + 0.5) / n * len`, rounded down, where each operation gives the nearest
//! single-precision number. That rounding can be seen in the result, so it is
//! part of what this module states. Numbers are kept as fractions.

use vstd::prelude::*;

verus! {

/// Two to the number of bits in the significand of a single-precision number.
pub const SIGNIFICANDS: u128 = 0x100_0000;

/// Rounding moves a pick by at most one part in twice this of the length of the list.
pub const MOST_SPREAD: u128 = 1_677_721;

/// The integer nearest to `num / den`; of two that are equally near, the even
/// one.
pub open spec fn nearest(num: nat, den: nat) -> nat {
    let down = num / den;
    let rest = num % den;
    if 2 * rest > den || (2 * rest == den && down % 2 == 1) {
        down + 1
    } else {
        down
    }
}

/// `num / den` rounded to so many bits that the significand fits, for fractions
/// that are not below half the number of significands: the step between two
/// results doubles until it does.
pub open spec fn coarse(num: nat, den: nat) -> nat
    decreases num - den,
{
    if den == 0 || num < den * SIGNIFICANDS {
        nearest(num, den)
    } else {
        2 * coarse(num, 2 * den)
    }
}

/// How far `num / den` is from half the number of significands.
pub open spec fn shortfall(num: nat, den: nat) -> nat {
    if 2 * num >= den * SIGNIFICANDS {
        0
    } else {
        (den * SIGNIFICANDS - 2 * num) as nat
    }
}

/// `num / den` rounded to a significand over a power of two, for fractions below
/// the number of significands: the step between two results halves until the
/// significand is full.
pub open spec fn fine(num: nat, den: nat) -> (nat, nat)
    decreases shortfall(num, den),
{
    if num == 0 || 2 * num >= den * SIGNIFICANDS {
        (nearest(num, den), 1)
    } else {
        let (significand, scale) = fine(2 * num, den);
        (significand, 2 * scale)
    }
}

/// The single-precision number nearest to `num / den`, as a fraction.
pub open spec fn single(num: nat, den: nat) -> (nat, nat) {
    if num >= den * SIGNIFICANDS {
        (coarse(num, den), 1)
    } else {
        fine(num, den)
    }
}

/// `k + 0.5`.
pub open spec fn half_past(k: nat) -> (nat, nat) {
    let (num, den) = single(k, 1);
    single(2 * num + den, 2 * den)
}

/// `(k + 0.5) / n`.
pub open spec fn share(k: nat, n: nat) -> (nat, nat) {
    let (num, den) = half_past(k);
    let (by, scale) = single(n, 1);
    single(num * scale, den * by)
}

/// `(k + 0.5) / n * len`.
pub open spec fn position(k: nat, n: nat, len: nat) -> (nat, nat) {
    let (num, den) = share(k, n);
    let (times, scale) = single(len, 1);
    single(num * times, den * scale)
}

/// The index of pick `k` of `n` in a list of `len`.
pub open spec fn slot(k: nat, n: nat, len: nat) -> nat {
    let (num, den) = position(k, n, len);
    if num / den < len {
        num / den
    } else {
        (len - 1) as nat
    }
}

fn round_nearest(num: u128, den: u128) -> (q: u128)
    requires
        den > 0,
        den < 0x8000_0000_0000_0000_0000_0000_0000_0000,
    ensures
        q == nearest(num as nat, den as nat),
        q <= num / den + 1,
        num / den <= q,
{
    let down: u128 = num / den;
    let rest: u128 = num % den;
    if 2 * rest > den || (2 * rest == den && down % 2 == 1) {
        assert(down < u128::MAX) by (nonlinear_arith)
            requires
                down == num / den,
                rest == num % den,
                den > 0,
                2 * rest >= den,
                num <= u128::MAX,
        ;
        down + 1
    } else {
        down
    }
}

/// A fraction that is rounded keeps its size within a factor of two.
spec fn close(num: nat, den: nat, r: (nat, nat)) -> bool {
    &&& r.1 > 0
    &&& r.0 * den <= 2 * (num * r.1)
    &&& num * r.1 <= 2 * (r.0 * den)
}

fn round_single(num: u128, den: u128) -> (r: (u128, u128))
    requires
        0 < num < 0x1_0000_0000_0000_0000_0000_0000,
        0 < den < 0x40_0000_0000_0000_0000_0000_0000,
    ensures
        (r.0 as nat, r.1 as nat) == single(num as nat, den as nat),
        close(num as nat, den as nat, (r.0 as nat, r.1 as nat)),
        r.0 > 0,
        num >= den * SIGNIFICANDS ==> r.1 == 1 && r.0 <= 2 * num,
        num < den * SIGNIFICANDS ==> r.0 <= SIGNIFICANDS,
{
    if num >= den * SIGNIFICANDS {
        let mut step: u128 = 1;
        let mut by: u128 = den;
        while num >= by * SIGNIFICANDS
            invariant
                0 < num < 0x1_0000_0000_0000_0000_0000_0000,
                0 < by < 0x40_0000_0000_0000_0000_0000_0000,
                by == den * step,
                0 < step <= by,
                2 * num >= by * SIGNIFICANDS,
                coarse(num as nat, den as nat) == step * coarse(num as nat, by as nat),
            decreases num - by,
        {
            let ghost c = coarse(num as nat, 2 * by as nat);
            assert(step * (2 * c) == (2 * step) * c) by (nonlinear_arith);
            assert(2 * by == den * (2 * step)) by (nonlinear_arith)
                requires
                    by == den * step,
            ;
            step = 2 * step;
            by = 2 * by;
        }
        let q = round_nearest(num, by);
        proof {
            lemma_coarse_size(num, den, by, step, q);
            assert(coarse(num as nat, by as nat) == q);
            assert(q * step == step * q) by (nonlinear_arith);
        }
        (q * step, 1)
    } else {
        let mut scale: u128 = 1;
        let mut of: u128 = num;
        while 2 * of < den * SIGNIFICANDS
            invariant
                0 < of,
                0 < den < 0x40_0000_0000_0000_0000_0000_0000,
                of == num * scale,
                0 < scale <= of,
                of < den * SIGNIFICANDS,
                fine(num as nat, den as nat).0 == fine(of as nat, den as nat).0,
                fine(num as nat, den as nat).1 == scale * fine(of as nat, den as nat).1,
            decreases shortfall(of as nat, den as nat),
        {
            let ghost c = fine(2 * of as nat, den as nat).1;
            assert(scale * (2 * c) == (2 * scale) * c) by (nonlinear_arith);
            assert(2 * of == num * (2 * scale)) by (nonlinear_arith)
                requires
                    of == num * scale,
            ;
            scale = 2 * scale;
            of = 2 * of;
        }
        let q = round_nearest(of, den);
        proof {
            lemma_fine_size(num, den, of, scale, q);
            assert(fine(of as nat, den as nat) == (q as nat, 1nat));
            assert(scale * 1 == scale);
        }
        (q, scale)
    }
}

proof fn lemma_coarse_size(num: u128, den: u128, by: u128, step: u128, q: u128)
    requires
        den > 0,
        by == den * step,
        0 < step <= by,
        by * SIGNIFICANDS <= 2 * num,
        num < by * SIGNIFICANDS,
        num / by <= q <= num / by + 1,
        num < 0x1_0000_0000_0000_0000_0000_0000,
    ensures
        close(num as nat, den as nat, ((q * step) as nat, 1)),
        q * step > 0,
        q * step <= 2 * num,
        q * step <= u128::MAX,
{
    let d = num as int / by as int;
    assert(d * by <= num < (d + 1) * by) by (nonlinear_arith)
        requires
            d == num as int / by as int,
            by > 0,
    ;
    assert(d >= 1) by (nonlinear_arith)
        requires
            num < (d + 1) * by,
            by * 0x100_0000 <= 2 * num,
            by > 0,
    ;
    assert(q * by <= 2 * num) by (nonlinear_arith)
        requires
            d * by <= num,
            q <= d + 1,
            d >= 1,
            by > 0,
    ;
    assert(num <= 2 * (q * by)) by (nonlinear_arith)
        requires
            num < (d + 1) * by,
            q >= d,
            d >= 1,
            by > 0,
    ;
    assert(q * by == (q * step) * den) by (nonlinear_arith)
        requires
            by == den * step,
    ;
    assert(0 < q * step <= q * by) by (nonlinear_arith)
        requires
            0 < step <= by,
            q >= 1,
    ;
}

proof fn lemma_fine_size(num: u128, den: u128, of: u128, scale: u128, q: u128)
    requires
        den > 0,
        of == num * scale,
        0 < scale,
        den * SIGNIFICANDS <= 2 * of,
        of < den * SIGNIFICANDS,
        of / den <= q <= of / den + 1,
    ensures
        close(num as nat, den as nat, (q as nat, scale as nat)),
        q > 0,
        q <= SIGNIFICANDS,
{
    let d = of as int / den as int;
    assert(d * den <= of < (d + 1) * den) by (nonlinear_arith)
        requires
            d == of as int / den as int,
            den > 0,
    ;
    assert(1 <= d < 0x100_0000) by (nonlinear_arith)
        requires
            d * den <= of,
            of < (d + 1) * den,
            den * 0x100_0000 <= 2 * of,
            of < den * 0x100_0000,
            den > 0,
    ;
    assert(q * den <= 2 * of) by (nonlinear_arith)
        requires
            d * den <= of,
            q <= d + 1,
            d >= 1,
            den > 0,
    ;
    assert(of <= 2 * (q * den)) by (nonlinear_arith)
        requires
            of < (d + 1) * den,
            q >= d,
            d >= 1,
            den > 0,
    ;
}

/// The single-precision number nearest to a positive integer.
fn whole(x: usize) -> (r: (u128, u128))
    requires
        x > 0,
    ensures
        (r.0 as nat, r.1 as nat) == single(x as nat, 1),
        0 < r.0 <= 0x2_0000_0000_0000_0000,
        0 < r.1 <= 0x200_0000,
        r.0 <= 2 * (x * r.1),
        x * r.1 <= 2 * r.0,
        x * r.1 <= 0x1_0000_0000_0000_0000,
{
    let r = round_single(x as u128, 1);
    if x < 0x100_0000 {
        assert(r.1 <= 0x200_0000) by (nonlinear_arith)
            requires
                x * r.1 <= 2 * (r.0 * 1),
                r.0 <= 0x100_0000,
                x > 0,
        ;
    }
    r
}

/// Computes [`half_past`].
fn past_half(k: usize) -> (r: (u128, u128))
    ensures
        (r.0 as nat, r.1 as nat) == half_past(k as nat),
        0 < r.0 <= 0x10_0000_0000_0000_0000,
        0 < r.1 <= 0x400_0000,
        r.1 <= 4 * r.0,
        r.0 <= (4 * k + 1) * r.1,
{
    let a: (u128, u128) = if k == 0 {
        (0, 1)
    } else {
        whole(k)
    };
    let num: u128 = 2 * a.0 + a.1;
    let den: u128 = 2 * a.1;
    let r = round_single(num, den);
    assert(r.1 <= 4 * r.0) by (nonlinear_arith)
        requires
            num * r.1 <= 2 * (r.0 * den),
            den <= 2 * num,
            den > 0,
    ;
    assert(num <= (4 * k + 1) * a.1) by (nonlinear_arith)
        requires
            num == 2 * a.0 + a.1,
            a.0 <= 2 * (k * a.1),
    ;
    assert(r.0 <= (4 * k + 1) * r.1) by (nonlinear_arith)
        requires
            r.0 * den <= 2 * (num * r.1),
            den == 2 * a.1,
            a.1 > 0,
            num <= (4 * k + 1) * a.1,
    ;
    r
}

/// Computes [`share`], which is at most one and not too small.
fn share_of(k: usize, n: usize) -> (r: (u128, u128))
    requires
        k < n,
    ensures
        (r.0 as nat, r.1 as nat) == share(k as nat, n as nat),
        0 < r.0 <= SIGNIFICANDS,
        0 < r.1 <= 0x1000_0000 * n,
{
    let b = past_half(k);
    let w = whole(n);
    assert(0 < b.0 * w.1 <= 0x10_0000_0000_0000_0000 * 0x200_0000) by (nonlinear_arith)
        requires
            0 < b.0 <= 0x10_0000_0000_0000_0000,
            0 < w.1 <= 0x200_0000,
    ;
    assert(0 < b.1 * w.0 <= 0x400_0000 * 0x2_0000_0000_0000_0000) by (nonlinear_arith)
        requires
            0 < b.1 <= 0x400_0000,
            0 < w.0 <= 0x2_0000_0000_0000_0000,
    ;
    let num: u128 = b.0 * w.1;
    let den: u128 = b.1 * w.0;
    let r = round_single(num, den);
    assert(num < den * 0x100_0000) by (nonlinear_arith)
        requires
            num == b.0 * w.1,
            den == b.1 * w.0,
            den > 0,
            b.0 <= (4 * k + 1) * b.1,
            k < n,
            n * w.1 <= 2 * w.0,
            b.1 > 0,
            w.1 > 0,
    {
        assert(b.0 * w.1 <= ((4 * k + 1) * b.1) * w.1);
        assert(((4 * k + 1) * b.1) * w.1 <= (4 * n * b.1) * w.1);
        assert((4 * n * b.1) * w.1 == 4 * b.1 * (n * w.1));
        assert(4 * b.1 * (n * w.1) <= 4 * b.1 * (2 * w.0));
        assert(4 * b.1 * (2 * w.0) == 8 * (b.1 * w.0));
    }
    assert(r.1 <= 16 * r.0 * n) by (nonlinear_arith)
        requires
            num * r.1 <= 2 * (r.0 * den),
            num == b.0 * w.1,
            den == b.1 * w.0,
            num > 0,
            b.1 <= 4 * b.0,
            w.0 <= 2 * (n * w.1),
            r.0 > 0,
    {
        assert(b.1 * w.0 <= (4 * b.0) * w.0);
        assert((4 * b.0) * w.0 <= (4 * b.0) * (2 * (n * w.1)));
        assert((4 * b.0) * (2 * (n * w.1)) == (8 * n) * (b.0 * w.1));
        assert(2 * (r.0 * den) <= 2 * (r.0 * ((8 * n) * num)));
        assert(2 * (r.0 * ((8 * n) * num)) == num * (16 * r.0 * n));
    }
    assert(16 * r.0 * n <= 0x1000_0000 * n) by (nonlinear_arith)
        requires
            r.0 <= 0x100_0000,
    ;
    r
}

proof fn lemma_nearest_scaled(num: nat, den: nat, by: nat)
    requires
        den > 0,
        by > 0,
    ensures
        nearest(num * by, den * by) == nearest(num, den),
{
    let q = (num / den) as int;
    let r = (num % den) as int;
    assert(num == q * den + r && 0 <= r < den) by (nonlinear_arith)
        requires
            den > 0,
            q == num / den,
            r == num % den,
    ;
    assert(num * by == q * (den * by) + r * by) by (nonlinear_arith)
        requires
            num == q * den + r,
    ;
    assert(0 <= r * by < den * by) by (nonlinear_arith)
        requires
            0 <= r < den,
            by > 0,
    ;
    vstd::arithmetic::div_mod::lemma_fundamental_div_mod_converse(
        (num * by) as int,
        (den * by) as int,
        q,
        r * by,
    );
    assert((2 * (r * by) > den * by <==> 2 * r > den) && (2 * (r * by) == den * by <==> 2 * r
        == den)) by (nonlinear_arith)
        requires
            by > 0,
    ;
}

proof fn lemma_coarse_scaled(num: nat, den: nat, by: nat)
    requires
        den > 0,
        by > 0,
    ensures
        coarse(num * by, den * by) == coarse(num, den),
    decreases num - den,
{
    assert(num * by < (den * by) * SIGNIFICANDS <==> num < den * SIGNIFICANDS) by (nonlinear_arith)
        requires
            by > 0,
    ;
    assert(den * by > 0) by (nonlinear_arith)
        requires
            den > 0,
            by > 0,
    ;
    if num < den * SIGNIFICANDS {
        lemma_nearest_scaled(num, den, by);
    } else {
        assert((2 * den) * by == 2 * (den * by)) by (nonlinear_arith);
        lemma_coarse_scaled(num, 2 * den, by);
    }
}

proof fn lemma_fine_scaled(num: nat, den: nat, by: nat)
    requires
        den > 0,
        by > 0,
    ensures
        fine(num * by, den * by) == fine(num, den),
    decreases shortfall(num, den),
{
    assert(2 * (num * by) >= (den * by) * SIGNIFICANDS <==> 2 * num >= den * SIGNIFICANDS)
        by (nonlinear_arith)
        requires
            by > 0,
    ;
    assert(num * by == 0 <==> num == 0) by (nonlinear_arith)
        requires
            by > 0,
    ;
    if num == 0 || 2 * num >= den * SIGNIFICANDS {
        lemma_nearest_scaled(num, den, by);
    } else {
        assert((2 * num) * by == 2 * (num * by)) by (nonlinear_arith);
        lemma_fine_scaled(2 * num, den, by);
    }
}

/// Rounding goes by the value of a fraction alone.
proof fn lemma_single_scaled(num: nat, den: nat, by: nat)
    requires
        den > 0,
        by > 0,
    ensures
        single(num * by, den * by) == single(num, den),
{
    assert(num * by >= (den * by) * SIGNIFICANDS <==> num >= den * SIGNIFICANDS)
        by (nonlinear_arith)
        requires
            by > 0,
    ;
    lemma_coarse_scaled(num, den, by);
    lemma_fine_scaled(num, den, by);
}

/// The index of pick `k` of `n` in a list of `len`.
pub fn even_slot(k: usize, n: usize, len: usize) -> (i: usize)
    requires
        k < n,
        len > 0,
    ensures
        i == slot(k as nat, n as nat, len as nat),
        i < len,
{
    let f = share_of(k, n);
    let w = whole(len);
    // A whole number that fits is used as it is.
    let times: u128 = if len < 0x100_0000 {
        len as u128
    } else {
        w.0
    };
    proof {
        if len < 0x100_0000 {
            lemma_fine_whole(len as nat);
            let by = w.1 as nat;
            assert((f.0 * len) * by == f.0 * w.0) by (nonlinear_arith)
                requires
                    w.0 == len * by,
            ;
            lemma_single_scaled((f.0 * len) as nat, f.1 as nat, by);
        }
    }
    assert(0 < f.0 * times <= 0x100_0000 * 0x2_0000_0000_0000_0000) by (nonlinear_arith)
        requires
            0 < f.0 <= 0x100_0000,
            0 < times <= 0x2_0000_0000_0000_0000,
    ;
    assert(0x1000_0000 * n <= 0x1000_0000 * 0x1_0000_0000_0000_0000);
    let p = round_single(f.0 * times, f.1);
    let at: u128 = p.0 / p.1;
    if at < len as u128 {
        at as usize
    } else {
        len - 1
    }
}

/// `a / b` differs from `c / d` by at most `e` parts in `SIGNIFICANDS` of the latter.
spec fn near(a: nat, b: nat, c: nat, d: nat, e: nat) -> bool {
    &&& b > 0
    &&& d > 0
    &&& (SIGNIFICANDS - e) * (c * b) <= SIGNIFICANDS * (a * d)
    &&& SIGNIFICANDS * (a * d) <= (SIGNIFICANDS + e) * (c * b)
}

proof fn lemma_nearest_near(num: nat, den: nat)
    requires
        den > 0,
        2 * num >= den * SIGNIFICANDS,
    ensures
        near(nearest(num, den), 1, num, den, 1),
{
    let down = num / den;
    let rest = num % den;
    let q = nearest(num, den);
    assert(num == down * den + rest && rest < den) by (nonlinear_arith)
        requires
            den > 0,
            down == num / den,
            rest == num % den,
    ;
    assert((down + 1) * den == down * den + den) by (nonlinear_arith);
    assert(2 * (q * den) <= 2 * num + den);
    assert(2 * num <= 2 * (q * den) + den);
}

proof fn lemma_coarse_near(num: nat, den: nat)
    requires
        den > 0,
        2 * num >= den * SIGNIFICANDS,
    ensures
        near(coarse(num, den), 1, num, den, 1),
    decreases num - den,
{
    if num < den * SIGNIFICANDS {
        lemma_nearest_near(num, den);
    } else {
        lemma_coarse_near(num, 2 * den);
        let q = coarse(num, 2 * den);
        assert((2 * q) * den == q * (2 * den)) by (nonlinear_arith);
    }
}

proof fn lemma_fine_near(num: nat, den: nat)
    requires
        den > 0,
        num > 0,
    ensures
        near(fine(num, den).0, fine(num, den).1, num, den, 1),
    decreases shortfall(num, den),
{
    if 2 * num >= den * SIGNIFICANDS {
        lemma_nearest_near(num, den);
    } else {
        lemma_fine_near(2 * num, den);
        let (q, scale) = fine(2 * num, den);
        assert(num * (2 * scale) == (2 * num) * scale) by (nonlinear_arith);
    }
}

proof fn lemma_single_near(num: nat, den: nat)
    requires
        den > 0,
        num > 0,
    ensures
        near(single(num, den).0, single(num, den).1, num, den, 1),
{
    if num >= den * SIGNIFICANDS {
        lemma_coarse_near(num, den);
    } else {
        lemma_fine_near(num, den);
    }
}

/// Whole numbers that fit are kept as they are.
proof fn lemma_fine_whole(num: nat)
    ensures
        fine(num, 1).1 > 0,
        fine(num, 1).0 == num * fine(num, 1).1,
    decreases shortfall(num, 1),
{
    if num == 0 || 2 * num >= SIGNIFICANDS {
    } else {
        lemma_fine_whole(2 * num);
        let scale = fine(2 * num, 1).1;
        assert(num * (2 * scale) == (2 * num) * scale) by (nonlinear_arith);
    }
}

/// Both parts of the second fraction may be multiplied or reduced.
proof fn lemma_near_scaled(a: nat, b: nat, c: nat, d: nat, s: nat, e: nat)
    requires
        near(a, b, c * s, d * s, e),
        e <= SIGNIFICANDS,
    ensures
        near(a, b, c, d, e),
{
    let m = SIGNIFICANDS as int;
    assert(s > 0 && d > 0) by (nonlinear_arith)
        requires
            d * s > 0,
    ;
    let (x, y) = (c * b, a * d);
    assert((c * s) * b == x * s) by (nonlinear_arith)
        requires
            x == c * b,
    ;
    assert(a * (d * s) == y * s) by (nonlinear_arith)
        requires
            y == a * d,
    ;
    assert((m - e) * x <= m * y && m * y <= (m + e) * x) by (nonlinear_arith)
        requires
            s > 0,
            (m - e) * (x * s) <= m * (y * s),
            m * (y * s) <= (m + e) * (x * s),
    ;
}

proof fn lemma_near_chain(a: nat, b: nat, c: nat, d: nat, f: nat, g: nat, e1: nat, e2: nat)
    requires
        near(a, b, c, d, e1),
        near(c, d, f, g, e2),
        e1 <= 100,
        e2 <= 100,
    ensures
        near(a, b, f, g, e1 + e2 + 1),
{
    let m = SIGNIFICANDS as int;
    let (ag, fb) = ((a * g) as int, (f * b) as int);
    let (ad, cb, cg, fd) = ((a * d) as int, (c * b) as int, (c * g) as int, (f * d) as int);
    assert(ad * g == ag * d && cb * g == cg * b && fd * b == fb * d) by (nonlinear_arith)
        requires
            ad == a * d,
            ag == a * g,
            cb == c * b,
            cg == c * g,
            fd == f * d,
            fb == f * b,
    ;
    // Above.
    assert(m * (ag * d) <= (m + e1) * (cg * b)) by (nonlinear_arith)
        requires
            m * ad <= (m + e1) * cb,
            ad * g == ag * d,
            cb * g == cg * b,
    ;
    assert(m * (cg * b) <= (m + e2) * (fb * d)) by (nonlinear_arith)
        requires
            m * cg <= (m + e2) * fd,
            fd * b == fb * d,
    ;
    assert((m * m) * (ag * d) <= ((m + e1) * (m + e2)) * (fb * d)) by (nonlinear_arith)
        requires
            m >= 0,
            m + e1 >= 0,
            m * (ag * d) <= (m + e1) * (cg * b),
            m * (cg * b) <= (m + e2) * (fb * d),
    ;
    assert((m + e1) * (m + e2) <= m * (m + e1 + e2 + 1)) by (nonlinear_arith)
        requires
            m == 0x100_0000,
            e1 <= 100,
            e2 <= 100,
    ;
    let up = m * (m + e1 + e2 + 1);
    assert(0 <= fb * d) by (nonlinear_arith)
        requires
            fb >= 0,
    ;
    assert(((m + e1) * (m + e2)) * (fb * d) <= up * (fb * d)) by (nonlinear_arith)
        requires
            (m + e1) * (m + e2) <= up,
            0 <= fb * d,
    ;
    assert(m * ag <= (m + e1 + e2 + 1) * fb) by (nonlinear_arith)
        requires
            m == 0x100_0000,
            d > 0,
            up == m * (m + e1 + e2 + 1),
            (m * m) * (ag * d) <= up * (fb * d),
    ;
    // Below.
    assert((m - e1) * (cg * b) <= m * (ag * d)) by (nonlinear_arith)
        requires
            (m - e1) * cb <= m * ad,
            ad * g == ag * d,
            cb * g == cg * b,
    ;
    assert((m - e2) * (fb * d) <= m * (cg * b)) by (nonlinear_arith)
        requires
            (m - e2) * fd <= m * cg,
            fd * b == fb * d,
    ;
    assert(((m - e1) * (m - e2)) * (fb * d) <= (m * m) * (ag * d)) by (nonlinear_arith)
        requires
            m >= 0,
            m - e1 >= 0,
            (m - e1) * (cg * b) <= m * (ag * d),
            (m - e2) * (fb * d) <= m * (cg * b),
    ;
    assert(m * (m - e1 - e2 - 1) <= (m - e1) * (m - e2)) by (nonlinear_arith)
        requires
            m >= 0,
    ;
    let low = m * (m - e1 - e2 - 1);
    assert(low * (fb * d) <= ((m - e1) * (m - e2)) * (fb * d)) by (nonlinear_arith)
        requires
            low <= (m - e1) * (m - e2),
            0 <= fb * d,
    ;
    assert((m - e1 - e2 - 1) * fb <= m * ag) by (nonlinear_arith)
        requires
            m == 0x100_0000,
            d > 0,
            low == m * (m - e1 - e2 - 1),
            low * (fb * d) <= (m * m) * (ag * d),
    ;
}

/// `k + 0.5` is exact as long as it fits a significand.
proof fn lemma_half_past_exact(k: nat)
    requires
        2 * k + 1 < SIGNIFICANDS,
    ensures
        half_past(k).1 > 0,
        2 * half_past(k).0 == (2 * k + 1) * half_past(k).1,
{
    let (k0, k1) = single(k, 1);
    lemma_fine_whole(k);
    assert(2 * k0 + k1 == (2 * k + 1) * k1) by (nonlinear_arith)
        requires
            k0 == k * k1,
    ;
    lemma_single_scaled(2 * k + 1, 2, k1);
    lemma_fine_scaled(2 * k + 1, 1, 2);
    lemma_fine_whole(2 * k + 1);
    let (q, s) = fine(2 * k + 1, 1);
    assert(half_past(k) == fine(2 * k + 1, 2));
    assert(fine(2 * k + 1, 2) == (q, 2 * s));
    assert(2 * ((2 * k + 1) * s) == (2 * k + 1) * (2 * s)) by (nonlinear_arith);
}

/// Both fractions may be multiplied by the same one.
proof fn lemma_near_times(a: nat, b: nat, c: nat, d: nat, x: nat, y: nat, e: nat)
    requires
        near(a, b, c, d, e),
        e <= SIGNIFICANDS,
        y > 0,
    ensures
        near(a * x, b * y, c * x, d * y, e),
{
    let m = SIGNIFICANDS as int;
    let (cb, ad, xy) = ((c * b) as int, (a * d) as int, (x * y) as int);
    assert(b * y > 0 && d * y > 0) by (nonlinear_arith)
        requires
            b > 0,
            d > 0,
            y > 0,
    ;
    assert((c * x) * (b * y) == cb * xy) by (nonlinear_arith)
        requires
            cb == c * b,
            xy == x * y,
    ;
    assert((a * x) * (d * y) == ad * xy) by (nonlinear_arith)
        requires
            ad == a * d,
            xy == x * y,
    ;
    assert(xy >= 0) by (nonlinear_arith)
        requires
            xy == x * y,
    ;
    assert((m - e) * (cb * xy) <= m * (ad * xy) && m * (ad * xy) <= (m + e) * (cb * xy))
        by (nonlinear_arith)
        requires
            (m - e) * cb <= m * ad,
            m * ad <= (m + e) * cb,
            xy >= 0,
    ;
}

/// The place of a pick is off from `(k + 1/2) * len / n` by five parts in
/// `SIGNIFICANDS` at most.
proof fn lemma_position_near(k: nat, n: nat, len: nat)
    requires
        k < n,
        2 * n < SIGNIFICANDS,
        0 < len,
    ensures
        near(position(k, n, len).0, position(k, n, len).1, (2 * k + 1) * len, 2 * n, 5),
{
    lemma_half_past_exact(k);
    let (h0, h1) = half_past(k);
    assert(h0 > 0) by (nonlinear_arith)
        requires
            2 * h0 == (2 * k + 1) * h1,
            h1 > 0,
    ;
    // The share is rounded once.
    let (n0, n1) = single(n, 1);
    lemma_fine_whole(n);
    assert(h1 * n0 == (h1 * n) * n1) by (nonlinear_arith)
        requires
            n0 == n * n1,
    ;
    assert(h1 * n > 0) by (nonlinear_arith)
        requires
            h1 > 0,
            n > 0,
    ;
    assert(h0 * n1 > 0 && (h1 * n) * n1 > 0) by (nonlinear_arith)
        requires
            h0 > 0,
            h1 * n > 0,
            n1 > 0,
    ;
    lemma_single_near(h0 * n1, h1 * n0);
    let (s0, s1) = share(k, n);
    lemma_near_scaled(s0, s1, h0, h1 * n, n1, 1);
    assert(near(s0, s1, 2 * k + 1, 2 * n, 1)) by {
        let m = SIGNIFICANDS as int;
        let (x, y) = (((2 * k + 1) * s1) as int, (s0 * (2 * n)) as int);
        assert(2 * (h0 * s1) == x * h1) by (nonlinear_arith)
            requires
                2 * h0 == (2 * k + 1) * h1,
                x == (2 * k + 1) * s1,
        ;
        assert(2 * (s0 * (h1 * n)) == y * h1) by (nonlinear_arith)
            requires
                y == s0 * (2 * n),
        ;
        assert((m - 1) * x <= m * y && m * y <= (m + 1) * x) by (nonlinear_arith)
            requires
                (m - 1) * (h0 * s1) <= m * (s0 * (h1 * n)),
                m * (s0 * (h1 * n)) <= (m + 1) * (h0 * s1),
                2 * (h0 * s1) == x * h1,
                2 * (s0 * (h1 * n)) == y * h1,
                h1 > 0,
        ;
    }
    // So is the length, and the product of the two.
    let (l0, l1) = single(len, 1);
    lemma_single_near(len, 1);
    lemma_single_grows(len, 1, len, 1);
    assert(s0 > 0) by {
        if s0 == 0 {
            assert(s0 * (2 * n) == 0) by (nonlinear_arith)
                requires
                    s0 == 0,
            ;
            assert((SIGNIFICANDS - 1) * ((2 * k + 1) * s1) > 0) by (nonlinear_arith)
                requires
                    s1 > 0,
                    SIGNIFICANDS == 0x100_0000,
            ;
        }
    }
    assert(s0 * l0 > 0 && s1 * l1 > 0) by (nonlinear_arith)
        requires
            s0 > 0,
            l0 > 0,
            s1 > 0,
            l1 > 0,
    ;
    lemma_single_near(s0 * l0, s1 * l1);
    let (p0, p1) = position(k, n, len);
    lemma_near_times(l0, l1, len, 1, s0, s1, 1);
    lemma_near_times(s0, s1, 2 * k + 1, 2 * n, len, 1, 1);
    assert(l0 * s0 == s0 * l0 && l1 * s1 == s1 * l1 && len * s0 == s0 * len) by (nonlinear_arith);
    lemma_near_chain(s0 * l0, s1 * l1, s0 * len, s1, (2 * k + 1) * len, 2 * n, 1, 1);
    lemma_near_chain(p0, p1, s0 * l0, s1 * l1, (2 * k + 1) * len, 2 * n, 1, 3);
}

/// `n` picks out of a list of `len` are so far apart that rounding does not bring two
/// of them together. Without rounding they are `(len - n) / n` more than one place
/// apart.
pub open spec fn well_apart(n: nat, len: nat) -> bool {
    n * len <= MOST_SPREAD * (len - n)
}

/// Picks out of a list are in the order of the list, and none is made twice, where
/// they are well apart. Where they are not, rounding may put two picks at one place.
pub proof fn law_slots_increase(j: nat, k: nat, n: nat, len: nat)
    requires
        j < k < n < len,
        well_apart(n, len),
    ensures
        slot(j, n, len) < slot(k, n, len) < len,
    decreases k - j,
{
    if j + 1 < k {
        law_slots_increase(j, (k - 1) as nat, n, len);
    }
    let i = (k - 1) as nat;
    let m = SIGNIFICANDS as int;
    lemma_few_picks(n, len);
    lemma_position_near(i, n, len);
    lemma_position_near(k, n, len);
    lemma_slot_is_whole(i, n, len);
    lemma_slot_is_whole(k, n, len);
    let (p0, p1) = position(i, n, len);
    let (r0, r1) = position(k, n, len);
    let a = p0 / p1;
    let c = (2 * i + 1) * len;
    let d = (2 * k + 1) * len;
    assert(a * p1 <= p0) by (nonlinear_arith)
        requires
            a == p0 / p1,
            p1 > 0,
    ;
    assert(m * (a * (2 * n)) <= (m + 5) * c) by (nonlinear_arith)
        requires
            m >= 0,
            p1 > 0,
            a * p1 <= p0,
            m * (p0 * (2 * n)) <= (m + 5) * (c * p1),
    ;
    assert(m * ((a + 1) * (2 * n)) <= (m - 5) * d) by {
        assert(k * len <= n * len) by (nonlinear_arith)
            requires
                k < n,
        ;
        assert(d == c + 2 * len) by (nonlinear_arith)
            requires
                c == (2 * i + 1) * len,
                d == (2 * k + 1) * len,
                k == i + 1,
        ;
        assert(c + len == 2 * (k * len)) by (nonlinear_arith)
            requires
                c == (2 * i + 1) * len,
                k == i + 1,
        ;
        assert((m - 5) * d == m * c + 2 * (m * len) - 5 * c - 10 * len) by (nonlinear_arith)
            requires
                d == c + 2 * len,
        ;
        assert((m + 5) * c == m * c + 5 * c) by (nonlinear_arith);
        assert(m * ((a + 1) * (2 * n)) == m * (a * (2 * n)) + 2 * (m * n)) by (nonlinear_arith);
        assert(m * len >= m * n + m) by (nonlinear_arith)
            requires
                m >= 0,
                len >= n + 1,
        ;
    }
    assert((a + 1) * r1 <= r0) by {
        let w = (a + 1) * (2 * n);
        assert((m * w) * r1 <= ((m - 5) * d) * r1) by (nonlinear_arith)
            requires
                m * w <= (m - 5) * d,
        ;
        assert(((m - 5) * d) * r1 == (m - 5) * (d * r1)) by (nonlinear_arith);
        assert((m * w) * r1 == (m * (2 * n)) * ((a + 1) * r1)) by (nonlinear_arith)
            requires
                w == (a + 1) * (2 * n),
        ;
        assert(m * (r0 * (2 * n)) == (m * (2 * n)) * r0) by (nonlinear_arith);
        assert(m * (2 * n) > 0) by (nonlinear_arith)
            requires
                m > 0,
                n > 0,
        ;
        let v = m * (2 * n);
        assert((a + 1) * r1 <= r0) by (nonlinear_arith)
            requires
                v > 0,
                v * ((a + 1) * r1) <= v * r0,
        ;
    }
    assert(r0 / r1 >= a + 1) by (nonlinear_arith)
        requires
            r1 > 0,
            (a + 1) * r1 <= r0,
    ;
}

/// Picks that are well apart are not too many.
proof fn lemma_few_picks(n: nat, len: nat)
    requires
        0 < n < len,
        well_apart(n, len),
    ensures
        n < MOST_SPREAD,
{
    assert(n < 1_677_721) by (nonlinear_arith)
        requires
            n * len <= 1_677_721 * (len - n),
            0 < n < len,
    ;
}

/// A pick is at its place rounded down, which is in the list.
proof fn lemma_slot_is_whole(k: nat, n: nat, len: nat)
    requires
        k < n < len,
        well_apart(n, len),
    ensures
        slot(k, n, len) == position(k, n, len).0 / position(k, n, len).1,
        slot(k, n, len) < len,
{
    let m = SIGNIFICANDS as int;
    lemma_few_picks(n, len);
    lemma_position_near(k, n, len);
    let (p0, p1) = position(k, n, len);
    let c = (2 * k + 1) * len;
    assert(c * p1 == (2 * k + 1) * (len * p1)) by (nonlinear_arith)
        requires
            c == (2 * k + 1) * len,
    ;
    let full = (len * p1) as int;
    assert(full > 0) by (nonlinear_arith)
        requires
            full == len * p1,
            len > 0,
            p1 > 0,
    ;
    assert((m + 5) * (2 * k + 1) < m * (2 * n)) by (nonlinear_arith)
        requires
            k + 1 <= n,
            10 * n <= m,
            m >= 0,
    ;
    assert((m + 5) * ((2 * k + 1) * full) < (m * (2 * n)) * full) by (nonlinear_arith)
        requires
            (m + 5) * (2 * k + 1) < m * (2 * n),
            full > 0,
    ;
    assert(m * (p0 * (2 * n)) == (m * (2 * n)) * p0) by (nonlinear_arith);
    let v = m * (2 * n);
    assert(p0 < full) by (nonlinear_arith)
        requires
            v * p0 < v * full,
            v >= 0,
    ;
    assert(p0 / p1 < len) by (nonlinear_arith)
        requires
            p0 < len * p1,
            p1 > 0,
    ;
}

/// `a / b` is at most `c / d`.
spec fn up_to(a: nat, b: nat, c: nat, d: nat) -> bool {
    &&& b > 0
    &&& d > 0
    &&& a * d <= c * b
}

proof fn lemma_nearest_grows(a: nat, b: nat, c: nat, d: nat)
    requires
        up_to(a, b, c, d),
    ensures
        nearest(a, b) <= nearest(c, d),
{
    let (p, r) = ((a / b) as int, (a % b) as int);
    let (q, t) = ((c / d) as int, (c % d) as int);
    assert(a == p * b + r && 0 <= r < b) by (nonlinear_arith)
        requires
            b > 0,
            p == a / b,
            r == a % b,
    ;
    assert(c == q * d + t && 0 <= t < d) by (nonlinear_arith)
        requires
            d > 0,
            q == c / d,
            t == c % d,
    ;
    assert(p <= q) by (nonlinear_arith)
        requires
            a == p * b + r,
            0 <= r,
            c == q * d + t,
            t < d,
            a * d <= c * b,
            b > 0,
            d > 0,
    {
        if p > q {
            assert(p * b * d >= (q + 1) * b * d);
        }
    }
    if p == q {
        assert(r * d <= t * b) by (nonlinear_arith)
            requires
                a == p * b + r,
                c == p * d + t,
                a * d <= c * b,
        ;
        assert((2 * r > b ==> 2 * t > d) && (2 * r == b ==> 2 * t >= d)) by (nonlinear_arith)
            requires
                r * d <= t * b,
                b > 0,
                d > 0,
        ;
    }
}

/// What fits a significand still does when it is rounded.
proof fn lemma_nearest_bounds(num: nat, den: nat)
    requires
        den > 0,
    ensures
        num < den * SIGNIFICANDS ==> nearest(num, den) <= SIGNIFICANDS,
        2 * num >= den * SIGNIFICANDS ==> 2 * nearest(num, den) >= SIGNIFICANDS,
{
    let q = num / den;
    assert(num < den * 0x100_0000 ==> q < 0x100_0000) by (nonlinear_arith)
        requires
            den > 0,
            q == num / den,
    ;
    assert(2 * num >= den * 0x100_0000 ==> q >= 0x80_0000) by (nonlinear_arith)
        requires
            den > 0,
            q == num / den,
    ;
}

proof fn lemma_fine_bounds(num: nat, den: nat)
    requires
        den > 0,
        num < den * SIGNIFICANDS,
    ensures
        fine(num, den).0 <= SIGNIFICANDS,
        fine(num, den).1 >= 1,
        num > 0 ==> 2 * fine(num, den).0 >= SIGNIFICANDS,
    decreases shortfall(num, den),
{
    lemma_nearest_bounds(num, den);
    if num > 0 && 2 * num < den * SIGNIFICANDS {
        lemma_fine_bounds(2 * num, den);
    }
}

proof fn lemma_fine_grows(a: nat, b: nat, c: nat, d: nat)
    requires
        up_to(a, b, c, d),
        c < d * SIGNIFICANDS,
    ensures
        a < b * SIGNIFICANDS,
        up_to(fine(a, b).0, fine(a, b).1, fine(c, d).0, fine(c, d).1),
    decreases shortfall(c, d),
{
    assert(a < b * 0x100_0000) by (nonlinear_arith)
        requires
            a * d <= c * b,
            c < d * 0x100_0000,
            b > 0,
            d > 0,
    ;
    lemma_fine_bounds(a, b);
    lemma_fine_bounds(c, d);
    let (q, s) = fine(a, b);
    let (r, t) = fine(c, d);
    if a == 0 {
        lemma_nearest_zero(b);
        assert(q * t <= r * s) by (nonlinear_arith)
            requires
                q == 0,
        ;
    } else {
        assert(c > 0) by (nonlinear_arith)
            requires
                a * d <= c * b,
                a > 0,
                d > 0,
        ;
        if 2 * c >= d * SIGNIFICANDS {
            if 2 * a >= b * SIGNIFICANDS {
                lemma_nearest_grows(a, b, c, d);
                assert(q * t <= r * s) by (nonlinear_arith)
                    requires
                        q <= r,
                        s == 1,
                        t == 1,
                ;
            } else {
                let half = fine(2 * a, b).1;
                lemma_fine_bounds(2 * a, b);
                assert(q * t <= r * s) by (nonlinear_arith)
                    requires
                        t == 1,
                        q <= 0x100_0000,
                        2 * r >= 0x100_0000,
                        s == 2 * half,
                        half >= 1,
                ;
            }
        } else {
            assert(2 * a < b * 0x100_0000) by (nonlinear_arith)
                requires
                    a * d <= c * b,
                    2 * c < d * 0x100_0000,
                    b > 0,
                    d > 0,
            ;
            assert((2 * a) * d <= (2 * c) * b) by (nonlinear_arith)
                requires
                    a * d <= c * b,
            ;
            lemma_fine_grows(2 * a, b, 2 * c, d);
            let (s2, t2) = (fine(2 * a, b).1, fine(2 * c, d).1);
            assert(q * (2 * t2) <= r * (2 * s2)) by (nonlinear_arith)
                requires
                    q * t2 <= r * s2,
            ;
        }
    }
}

proof fn lemma_nearest_zero(den: nat)
    requires
        den > 0,
    ensures
        nearest(0, den) == 0,
{
    assert(0nat / den == 0 && 0nat % den == 0) by (nonlinear_arith)
        requires
            den > 0,
    ;
}

proof fn lemma_coarse_bounds(num: nat, den: nat)
    requires
        den > 0,
    ensures
        2 * num >= den * SIGNIFICANDS ==> 2 * coarse(num, den) >= SIGNIFICANDS,
        num >= den * SIGNIFICANDS ==> coarse(num, den) >= SIGNIFICANDS,
        num < den * SIGNIFICANDS ==> coarse(num, den) <= SIGNIFICANDS,
    decreases num - den,
{
    lemma_nearest_bounds(num, den);
    if num >= den * SIGNIFICANDS {
        lemma_coarse_bounds(num, 2 * den);
    }
}

proof fn lemma_coarse_grows(a: nat, b: nat, c: nat, d: nat)
    requires
        up_to(a, b, c, d),
    ensures
        coarse(a, b) <= coarse(c, d),
    decreases c - d,
{
    lemma_coarse_bounds(a, b);
    lemma_coarse_bounds(c, d);
    if c < d * SIGNIFICANDS {
        assert(a < b * 0x100_0000) by (nonlinear_arith)
            requires
                a * d <= c * b,
                c < d * 0x100_0000,
                b > 0,
                d > 0,
        ;
        lemma_nearest_grows(a, b, c, d);
    } else if a >= b * SIGNIFICANDS {
        assert(a * (2 * d) <= c * (2 * b)) by (nonlinear_arith)
            requires
                a * d <= c * b,
        ;
        lemma_coarse_grows(a, 2 * b, c, 2 * d);
    }
}

/// Rounding keeps the order of fractions.
proof fn lemma_single_grows(a: nat, b: nat, c: nat, d: nat)
    requires
        up_to(a, b, c, d),
    ensures
        up_to(single(a, b).0, single(a, b).1, single(c, d).0, single(c, d).1),
        c > 0 ==> single(c, d).0 > 0,
{
    lemma_coarse_bounds(c, d);
    if c < d * SIGNIFICANDS {
        lemma_fine_grows(a, b, c, d);
        lemma_fine_bounds(c, d);
    } else if a < b * SIGNIFICANDS {
        lemma_fine_bounds(a, b);
        let (q, s) = fine(a, b);
        let r = coarse(c, d);
        assert(q * 1 <= r * s) by (nonlinear_arith)
            requires
                q <= 0x100_0000,
                r >= 0x100_0000,
                s >= 1,
        ;
    } else {
        lemma_coarse_grows(a, b, c, d);
    }
}

/// Picks are in the order of the list, though rounding may put two of them at one
/// place.
pub proof fn law_slots_never_decrease(j: nat, k: nat, n: nat, len: nat)
    requires
        j <= k < n,
        len > 0,
    ensures
        slot(j, n, len) <= slot(k, n, len) < len,
{
    lemma_single_grows(j, 1, k, 1);
    let (a, b) = single(j, 1);
    let (c, d) = single(k, 1);
    assert((2 * a + b) * (2 * d) <= (2 * c + d) * (2 * b)) by (nonlinear_arith)
        requires
            a * d <= c * b,
    ;
    lemma_single_grows(2 * a + b, 2 * b, 2 * c + d, 2 * d);
    let (h, i) = half_past(j);
    let (x, y) = half_past(k);
    lemma_single_grows(n, 1, n, 1);
    let (by, scale) = single(n, 1);
    assert((h * scale) * (y * by) <= (x * scale) * (i * by)) by (nonlinear_arith)
        requires
            h * y <= x * i,
    ;
    assert(i * by > 0 && y * by > 0) by (nonlinear_arith)
        requires
            i > 0,
            y > 0,
            by > 0,
    ;
    lemma_single_grows(h * scale, i * by, x * scale, y * by);
    let (s, t) = share(j, n);
    let (u, v) = share(k, n);
    lemma_single_grows(len, 1, len, 1);
    let (times, unit) = single(len, 1);
    assert((s * times) * (v * unit) <= (u * times) * (t * unit)) by (nonlinear_arith)
        requires
            s * v <= u * t,
    ;
    assert(t * unit > 0 && v * unit > 0) by (nonlinear_arith)
        requires
            t > 0,
            v > 0,
            unit > 0,
    ;
    lemma_single_grows(s * times, t * unit, u * times, v * unit);
    let (p0, p1) = position(j, n, len);
    let (r0, r1) = position(k, n, len);
    assert(p0 / p1 <= r0 / r1) by (nonlinear_arith)
        requires
            p0 * r1 <= r0 * p1,
            p1 > 0,
            r1 > 0,
    {
        let (e, f) = (p0 / p1, r0 / r1);
        assert(e * p1 <= p0);
        assert(r0 < (f + 1) * r1);
        if e > f {
            assert(e * p1 * r1 >= (f + 1) * p1 * r1);
        }
    }
}

/// A pick is at its share of the list: half a place past `k` of `n` parts, rounded down,
/// where single precision can be off by five parts in sixteen million.
pub proof fn law_slots_are_at_their_share(k: nat, n: nat, len: nat)
    requires
        k < n < len,
        well_apart(n, len),
    ensures
        0x100_0000 * (slot(k, n, len) * (2 * n)) <= (0x100_0000 + 5) * ((2 * k + 1) * len),
        0x100_0000 * ((slot(k, n, len) + 1) * (2 * n)) > (0x100_0000 - 5) * ((2 * k + 1) * len),
{
    let m = SIGNIFICANDS as int;
    lemma_few_picks(n, len);
    lemma_position_near(k, n, len);
    lemma_slot_is_whole(k, n, len);
    let (p0, p1) = position(k, n, len);
    let a = p0 / p1;
    let c = (2 * k + 1) * len;
    assert(a * p1 <= p0 < (a + 1) * p1) by (nonlinear_arith)
        requires
            a == p0 / p1,
            p1 > 0,
    ;
    assert(m * (a * (2 * n)) <= (m + 5) * c) by (nonlinear_arith)
        requires
            m >= 0,
            p1 > 0,
            a * p1 <= p0,
            m * (p0 * (2 * n)) <= (m + 5) * (c * p1),
    ;
    let w = (a + 1) * (2 * n);
    assert(m * w > (m - 5) * c) by {
        assert(m * (p0 * (2 * n)) < m * (((a + 1) * p1) * (2 * n))) by (nonlinear_arith)
            requires
                m > 0,
                n > 0,
                p0 < (a + 1) * p1,
        ;
        assert(m * (((a + 1) * p1) * (2 * n)) == (m * w) * p1) by (nonlinear_arith)
            requires
                w == (a + 1) * (2 * n),
        ;
        assert((m - 5) * (c * p1) == ((m - 5) * c) * p1) by (nonlinear_arith);
        let (x, y) = (m * w, (m - 5) * c);
        assert(x > y) by (nonlinear_arith)
            requires
                y * p1 < x * p1,
                p1 > 0,
        ;
    }
}

} // verus!
