//! Extended Euclidean algorithm and modular inverses on non-negative `i32`.

use vstd::prelude::*;

verus! {

/// Greatest common divisor by Euclid's recursion; `gcd(a, 0) == a`.
pub open spec fn gcd(a: nat, b: nat) -> nat
    decreases b,
{
    if b == 0 {
        a
    } else {
        gcd(b, a % b)
    }
}

/// Absolute value.
pub open spec fn abs(x: int) -> int {
    if x < 0 {
        -x
    } else {
        x
    }
}

/// `a * u + b * v`.
pub open spec fn combination(a: int, b: int, u: int, v: int) -> int {
    a * u + b * v
}

/// `k` copies of `g`.
pub open spec fn times(k: int, g: int) -> int {
    k * g
}

/// `EuclideanOutput(g, u, v)`: the gcd `g` of two numbers `a` and `b`, with
/// Bézout coefficients such that `a * u + b * v == g`.
#[derive(Clone, Copy, Debug, PartialEq, Eq, Structural)]
pub struct EuclideanOutput(pub i32, pub i32, pub i32);

/// One division step keeps the coefficient identity and alternating signs.
proof fn lemma_step(r0: int, r1: int, u0: int, u1: int, q: int, b: int)
    requires
        r1 > 0,
        q >= 0,
        q * r1 <= r0,
        u0 * u1 <= 0,
        abs(u1) * r0 + abs(u0) * r1 == b,
    ensures
        abs(u0 - q * u1) * r1 + abs(u1) * (r0 - q * r1) == b,
        u1 * (u0 - q * u1) <= 0,
        abs(q * u1) <= abs(u0 - q * u1),
{
    assert(u1 * (u0 - q * u1) <= 0) by (nonlinear_arith)
        requires
            q >= 0,
            u0 * u1 <= 0,
    ;
    let w = u0 - q * u1;
    if u1 == 0 {
        assert(q * u1 == 0 && w == u0 && abs(u1) * (r0 - q * r1) == 0) by (nonlinear_arith)
            requires
                u1 == 0,
                w == u0 - q * u1,
                abs(u1) == 0,
        ;
    } else if u1 > 0 {
        assert(u0 <= 0) by (nonlinear_arith)
            requires
                u0 * u1 <= 0,
                u1 > 0,
        ;
        assert(q * u1 >= 0) by (nonlinear_arith)
            requires
                q >= 0,
                u1 > 0,
        ;
        assert(abs(w) == q * u1 - u0 && abs(u1) == u1 && abs(u0) == -u0);
        assert((q * u1 - u0) * r1 + u1 * (r0 - q * r1) == u1 * r0 + (-u0) * r1) by (nonlinear_arith);
    } else {
        assert(u0 >= 0) by (nonlinear_arith)
            requires
                u0 * u1 <= 0,
                u1 < 0,
        ;
        assert(q * u1 <= 0) by (nonlinear_arith)
            requires
                q >= 0,
                u1 < 0,
        ;
        assert(abs(w) == u0 - q * u1 && abs(u1) == -u1 && abs(u0) == u0);
        assert((u0 - q * u1) * r1 + (-u1) * (r0 - q * r1) == (-u1) * r0 + u0 * r1) by (nonlinear_arith);
    }
}

/// Euclid's recursion on remainders `r`, carrying the coefficients `u` of
/// `a` (and, in ghost code, `v` of `b`) for the two current remainders.
fn extended_euclidean_algorithm_inner(
    r: (i32, i32),
    u: (i32, i32),
    Ghost(a): Ghost<int>,
    Ghost(b): Ghost<int>,
    Ghost(v): Ghost<(int, int)>,
) -> (out: EuclideanOutput)
    requires
        0 <= r.0,
        0 <= r.1,
        0 < b <= i32::MAX,
        a * u.0 + b * v.0 == r.0,
        a * u.1 + b * v.1 == r.1,
        u.0 * u.1 <= 0,
        abs(u.1 as int) * r.0 + abs(u.0 as int) * r.1 == b,
        (u.0 == 1 && u.1 == 0) || (r.1 < r.0 && (u.0 == 0 || abs(u.0 as int) * r.0 < b)),
    ensures
        out.0 == gcd(r.0 as nat, r.1 as nat),
        out.0 > 0,
        out.2 == 0,
        exists|w: int| #[trigger] combination(a, b, out.1 as int, w) == out.0,
        out.1 == 0 || abs(out.1 as int) * out.0 < b,
        exists|k0: int, k1: int| r.0 == #[trigger] times(k0, out.0 as int) && r.1 == #[trigger] times(k1, out.0 as int),
    decreases r.1,
{
    if r.1 == 0 {
        assert(r.0 > 0) by (nonlinear_arith)
            requires
                abs(u.1 as int) * r.0 == b,
                b > 0,
                r.0 >= 0,
        ;
        let out = EuclideanOutput(r.0, u.0, 0);
        assert(times(1, out.0 as int) == r.0) by (nonlinear_arith)
            requires
                out.0 == r.0,
        ;
        assert(times(0, out.0 as int) == r.1) by (nonlinear_arith)
            requires
                r.1 == 0,
        ;
        assert(combination(a, b, out.1 as int, v.0) == out.0);
        return out;
    }
    let q = r.0 / r.1;
    assert(q * r.1 <= r.0 && r.0 - q * r.1 == r.0 % r.1) by (nonlinear_arith)
        requires
            r.0 >= 0,
            r.1 > 0,
            q == r.0 / r.1,
    ;
    proof {
        lemma_step(r.0 as int, r.1 as int, u.0 as int, u.1 as int, q as int, b);
        assert(abs(u.0 - q * u.1) <= b) by (nonlinear_arith)
            requires
                abs(u.0 - q * u.1) * r.1 + abs(u.1 as int) * (r.0 - q * r.1) == b,
                r.1 >= 1,
                r.0 - q * r.1 >= 0,
                abs(u.1 as int) >= 0,
                abs(u.0 - q * u.1) >= 0,
        ;
        if !(u.0 == 1 && u.1 == 0) && u.1 != 0 {
            assert(abs(u.1 as int) * r.1 < abs(u.1 as int) * r.0) by (nonlinear_arith)
                requires
                    r.1 < r.0,
                    abs(u.1 as int) > 0,
            ;
            assert(abs(u.0 as int) * r.1 >= 0) by (nonlinear_arith)
                requires
                    r.1 >= 0,
            ;
        }
        assert(a * (u.0 - q * u.1) + b * (v.0 - q * v.1) == r.0 - q * r.1) by (nonlinear_arith)
            requires
                a * u.0 + b * v.0 == r.0,
                a * u.1 + b * v.1 == r.1,
        ;
    }
    let r_i = r.0 - q * r.1;
    let u_i = u.0 - q * u.1;
    let out = extended_euclidean_algorithm_inner(
        (r.1, r_i),
        (u.1, u_i),
        Ghost(a),
        Ghost(b),
        Ghost((v.1, v.0 - q * v.1)),
    );
    proof {
        let (k0, k1) = choose|k0: int, k1: int| r.1 == times(k0, out.0 as int) && r_i == times(k1, out.0 as int);
        assert(r.0 == (k1 + q * k0) * out.0) by (nonlinear_arith)
            requires
                r.1 == k0 * out.0,
                r_i == k1 * out.0,
                r_i == r.0 - q * r.1,
        ;
        assert(r.0 == times(k1 + q * k0, out.0 as int));
        assert(r.1 == times(k0, out.0 as int));
    }
    out
}

/// The gcd `g` of `a` and `b` with coefficients such that
/// `a * u + b * v == g`; when `b > 0`, `u` is the one in `0..b / g`, and
/// when `b == 0` the result is `(a, 1, 0)` for any `a`. Otherwise both
/// inputs are non-negative: on some negative inputs the coefficient search
/// never ends.
pub fn extended_euclidean_algorithm(a: i32, b: i32) -> (out: EuclideanOutput)
    requires
        0 <= b,
        b == 0 || 0 <= a,
    ensures
        b > 0 ==> out.0 == gcd(a as nat, b as nat),
        a * out.1 + b * out.2 == out.0,
        b == 0 ==> out == EuclideanOutput(a, 1, 0),
        b > 0 ==> 0 <= out.1 && out.1 * out.0 < b,
{
    let r_0: i32 = a;
    let u_0: i32 = 1;

    let r_1: i32 = b;
    let u_1: i32 = 0;

    if b == 0 {
        assert(a * 1 + b * 0 == a) by (nonlinear_arith);
        return EuclideanOutput(a, u_0, 0);
    }
    assert(abs(u_1 as int) * r_0 + abs(u_0 as int) * r_1 == b) by (nonlinear_arith)
        requires
            u_1 == 0,
            u_0 == 1,
            r_1 == b,
            abs(u_1 as int) == 0,
            abs(u_0 as int) == 1,
    ;
    assert(a * 1 + b * 0 == a && a * 0 + b * 1 == b) by (nonlinear_arith);

    let EuclideanOutput(g, mut u, _) = extended_euclidean_algorithm_inner(
        (r_0, r_1),
        (u_0, u_1),
        Ghost(a as int),
        Ghost(b as int),
        Ghost((0, 1)),
    );
    let ghost (k0, k1) = choose|k0: int, k1: int|
        a == times(k0, g as int) && b == times(k1, g as int);
    let ghost w0 = choose|w: int| combination(a as int, b as int, u as int, w) == g;
    proof {
        assert(b / g == k1 && k1 >= 1 && k0 >= 0) by (nonlinear_arith)
            requires
                a == k0 * g,
                b == k1 * g,
                g > 0,
                b > 0,
                a >= 0,
        ;
        assert(-k1 < u < k1) by (nonlinear_arith)
            requires
                u == 0 || abs(u as int) * g < b,
                b == k1 * g,
                g > 0,
                k1 >= 1,
        ;
    }
    let ghost mut w = w0;
    // Ensure u is a positive number as it's cleaner when finding
    // the inverse of the mod.
    while u < 0
        invariant
            g > 0,
            a == k0 * g,
            b == k1 * g,
            b / g == k1,
            k1 >= 1,
            -k1 < u < k1,
            a * u + b * w == g,
        decreases k1 - u,
    {
        let ghost old_u = u;
        u += b / g;
        assert(u == old_u + k1);
        proof {
            assert(a * u + b * (w - k0) == g) by (nonlinear_arith)
                requires
                    a * (u - k1) + b * w == g,
                    a == k0 * g,
                    b == k1 * g,
            ;
            w = w - k0;
        }
    }

    // Use equation to find v:
    // a*u + b*v = g
    proof {
        assert(g <= b) by (nonlinear_arith)
            requires
                b == k1 * g,
                k1 >= 1,
                g > 0,
        ;
        assert(a * u <= k0 * b) by (nonlinear_arith)
            requires
                a == k0 * g,
                b == k1 * g,
                0 <= u < k1,
                k0 >= 0,
                g > 0,
        ;
        assert(-k0 < w <= 1) by (nonlinear_arith)
            requires
                a * u + b * w == g,
                a * u <= k0 * b,
                a * u >= 0,
                0 < g <= b,
        ;
        assert(k0 <= a) by (nonlinear_arith)
            requires
                a == k0 * g,
                g >= 1,
                k0 >= 0,
        ;
        assert(0 <= a * u <= 0x4000_0000_0000_0000) by (nonlinear_arith)
            requires
                0 <= a <= 0x8000_0000,
                0 <= u <= 0x8000_0000,
        ;
        if a * u >= g {
            assert(a * u - g == b * (-w)) by (nonlinear_arith)
                requires
                    a * u + b * w == g,
            ;
            assert((a * u - g) / (b as int) == -w) by (nonlinear_arith)
                requires
                    a * u - g == b * (-w),
                    b > 0,
            ;
        } else {
            assert((g - a * u) / (b as int) == w) by (nonlinear_arith)
                requires
                    g - a * u == b * w,
                    b > 0,
            ;
        }
        assert(u * g < b) by (nonlinear_arith)
            requires
                0 <= u < k1,
                b == k1 * g,
                g > 0,
        ;
    }
    let au: i64 = (a as i64) * (u as i64);
    let v: i64 = if au >= g as i64 {
        -((au - g as i64) / (b as i64))
    } else {
        ((g as i64) - au) / (b as i64)
    };
    assert(v == w);
    EuclideanOutput(g, u, v as i32)
}

/// The inverse of `n` modulo `a`: the `u` in `0..a` with `n * u`
/// congruent to 1, where `gcd(n, a) == 1`; 0 where they share a factor.
/// With `a == 0`, any `n` is taken: the result is 1 for `n == 1`, else 0.
pub fn mod_inverse(a: i32, n: i32) -> (r: i32)
    requires
        0 <= a,
        a == 0 || 0 <= n,
    ensures
        a > 0 && gcd(n as nat, a as nat) != 1 ==> r == 0,
        a > 0 && gcd(n as nat, a as nat) == 1 ==> 0 <= r < a && exists|v: int|
            #[trigger] combination(n as int, a as int, r as int, v) == 1,
        a == 0 ==> r == if n == 1 {
            1i32
        } else {
            0i32
        },
{
    let out = extended_euclidean_algorithm(n, a);
    let EuclideanOutput(g, u, v) = out;
    if g == 1 {
        assert(combination(n as int, a as int, u as int, v as int) == 1);
        if a > 0 {
            assert(u < a) by (nonlinear_arith)
                requires
                    u * g < a,
                    g == 1,
            ;
        }
        u
    } else {
        // Inverse doesn't exists with non-coprime numbers.
        0
    }
}

} // verus!
