//! Q8.8 fixed-point arithmetic: values are `i32`, representing `real * 256`.
use vstd::arithmetic::div_mod::*;
use vstd::arithmetic::mul::*;
use vstd::prelude::*;

verus! {

/// Fixed-point scale: the integer 256 stands for the real number 1.
pub const SCALE: i32 = 256;

/// Largest value the square-root iteration keeps its estimate below (2^30).
pub const SQRT_CAP: i32 = 0x4000_0000;

/// Integer division rounding toward zero, as Rust's `/` does on signed integers.
pub open spec fn tdiv(a: int, b: int) -> int {
    if b == 0 {
        0
    } else if a >= 0 {
        if b > 0 { a / b } else { -(a / (-b)) }
    } else {
        if b > 0 { -((-a) / b) } else { (-a) / (-b) }
    }
}

/// `x` fits in `i32`.
pub open spec fn in_i32(x: int) -> bool {
    i32::MIN <= x <= i32::MAX
}

/// `x` fits in `i64`.
pub open spec fn in_i64(x: int) -> bool {
    i64::MIN <= x <= i64::MAX
}

/// `x` clamped to `[lo, hi]`.
pub open spec fn clamp(x: int, lo: int, hi: int) -> int {
    if x < lo { lo } else if x > hi { hi } else { x }
}

/// Fixed-point product: `a * b / 256`, rounded toward zero and wrapped to `i32`.
pub open spec fn fp_mul_spec(a: int, b: int) -> i32 {
    tdiv(a * b, 256) as i32
}

/// Fixed-point quotient: `a * 256 / b`, rounded toward zero and wrapped to `i32`;
/// zero when `b` is zero.
pub open spec fn fp_div_spec(a: int, b: int) -> i32 {
    if b == 0 { 0 } else { tdiv(a * 256, b) as i32 }
}

/// One Newton step of the fixed-point square root of `v` from estimate `x`.
pub open spec fn sqrt_next(v: int, x: int) -> int {
    tdiv(x + fp_div_spec(v, x), 2)
}

/// The estimate kept for the next step: at least 1 and at most `SQRT_CAP`.
pub open spec fn sqrt_keep(x: int) -> int {
    if x <= 0 { 1 } else if x > 0x4000_0000 { 0x4000_0000 } else { x }
}

/// The Newton iteration from estimate `x` with `fuel` steps left: it stops, keeping `x`,
/// as soon as the next estimate differs from `x` by at most one.
pub open spec fn sqrt_run(v: int, x: int, fuel: nat) -> int
    decreases fuel,
{
    if fuel == 0 {
        x
    } else {
        let next = sqrt_next(v, x);
        if -1 <= next - x <= 1 {
            x
        } else {
            sqrt_run(v, sqrt_keep(next), (fuel - 1) as nat)
        }
    }
}

/// Every sum `x + fp_div(v, x)` that the iteration from `x` forms fits in `i32`.
spec fn sqrt_run_safe(v: int, x: int, fuel: nat) -> bool
    decreases fuel,
{
    fuel == 0 || {
        let s = x + fp_div_spec(v, x);
        &&& in_i32(s)
        &&& {
            let next = tdiv(s, 2);
            (-1 <= next - x <= 1) || sqrt_run_safe(v, sqrt_keep(next), (fuel - 1) as nat)
        }
    }
}

/// Fixed-point square root of `v` (Newton's method from `v`, at most 20 steps);
/// zero for `v <= 0`.
pub open spec fn fp_sqrt_spec(v: int) -> int {
    if v <= 0 { 0 } else { sqrt_run(v, v, 20) }
}

/// Largest input of `fp_sqrt`: its first step forms `v + 256`, which must fit in `i32`.
pub const SQRT_INPUT_MAX: i32 = 0x7FFF_FEFF;

/// If `|a| <= c * b` with `b > 0`, then `|tdiv(a, b)| <= c`.
pub proof fn lemma_tdiv_bound(a: int, b: int, c: int)
    requires
        b > 0,
        c >= 0,
        -(c * b) <= a <= c * b,
    ensures
        -c <= tdiv(a, b) <= c,
{
    lemma_div_by_multiple(c, b);
    if a >= 0 {
        lemma_div_is_ordered(a, c * b, b);
        lemma_div_pos_is_pos(a, b);
    } else {
        lemma_div_is_ordered(-a, c * b, b);
        lemma_div_pos_is_pos(-a, b);
    }
}

/// Truncating division by a positive divisor never grows the magnitude.
pub proof fn lemma_tdiv_shrinks(a: int, b: int)
    requires
        b > 0,
    ensures
        a >= 0 ==> 0 <= tdiv(a, b) <= a,
        a < 0 ==> a <= tdiv(a, b) <= 0,
{
    if a >= 0 {
        lemma_div_pos_is_pos(a, b);
        lemma_div_is_ordered_by_denominator(a, 1, b);
    } else {
        lemma_div_pos_is_pos(-a, b);
        lemma_div_is_ordered_by_denominator(-a, 1, b);
    }
}

/// Truncating division by `b > 0` is off by less than `b`: `|b * tdiv(a, b) - a| < b`.
pub proof fn lemma_tdiv_rounding(a: int, b: int)
    requires
        b > 0,
    ensures
        -b < b * tdiv(a, b) - a < b,
{
    if a >= 0 {
        lemma_fundamental_div_mod(a, b);
        lemma_mod_bound(a, b);
    } else {
        lemma_fundamental_div_mod(-a, b);
        lemma_mod_bound(-a, b);
        assert(b * (-((-a) / b)) == -(b * ((-a) / b))) by (nonlinear_arith);
    }
}

/// `|a * b| <= ca * cb` when `|a| <= ca` and `|b| <= cb`.
pub proof fn lemma_product_bound(a: int, b: int, ca: int, cb: int)
    requires
        -ca <= a <= ca,
        -cb <= b <= cb,
    ensures
        -(ca * cb) <= a * b <= ca * cb,
{
    lemma_mul_upper_bound(if a < 0 { -a } else { a }, ca, if b < 0 { -b } else { b }, cb);
    assert(-(ca * cb) <= a * b <= ca * cb) by (nonlinear_arith)
        requires
            (if a < 0 { -a } else { a }) * (if b < 0 { -b } else { b }) <= ca * cb,
    ;
}

/// Truncating division is odd in its dividend.
pub proof fn lemma_tdiv_neg(a: int, b: int)
    requires
        b > 0,
    ensures
        tdiv(-a, b) == -tdiv(a, b),
{
}

/// `tdiv(q * b, b) == q` for `b > 0`.
pub proof fn lemma_tdiv_exact(q: int, b: int)
    requires
        b > 0,
    ensures
        tdiv(q * b, b) == q,
{
    if q >= 0 {
        lemma_mul_nonnegative(q, b);
        lemma_div_by_multiple(q, b);
    } else {
        lemma_mul_unary_negation(q, b);
        assert(-(q * b) == (-q) * b);
        lemma_div_by_multiple(-q, b);
    }
}

/// The fixed-point product before it is narrowed: `a * b / 256` rounded toward zero.
pub(crate) fn wide_product(a: i32, b: i32) -> (r: i64)
    ensures
        r == tdiv(a * b, 256),
{
    proof {
        lemma_mul_upper_bound(
            if a < 0 { -a } else { a as int },
            0x8000_0000,
            if b < 0 { -b } else { b as int },
            0x8000_0000,
        );
        assert(-0x4000_0000_0000_0000 <= a * b <= 0x4000_0000_0000_0000) by (nonlinear_arith)
            requires
                (if a < 0 { -a } else { a as int }) * (if b < 0 { -b } else { b as int })
                    <= 0x8000_0000 * 0x8000_0000,
        ;
    }
    let p: i64 = a as i64 * b as i64;
    p / 256
}

/// Fixed-point multiply.
pub fn fp_mul(a: i32, b: i32) -> (r: i32)
    ensures
        r == fp_mul_spec(a as int, b as int),
{
    let q: i64 = wide_product(a, b);
    (#[verifier::truncate] (q as i32))
}

/// Fixed-point divide; zero when `b` is zero.
pub fn fp_div(a: i32, b: i32) -> (r: i32)
    ensures
        r == fp_div_spec(a as int, b as int),
{
    if b == 0 {
        return 0;
    }
    let p: i64 = a as i64 * 256;
    // Rust's `/` rounds toward zero, so dividing by `-b` and negating is the same quotient.
    let q: i64 = if b > 0 { p / (b as i64) } else { -(p / -(b as i64)) };
    (#[verifier::truncate] (q as i32))
}

/// Fixed-point square root (Newton's method): at most 20 steps from the estimate `v`,
/// stopping when an estimate changes by at most one; zero for `v <= 0`. Above
/// `SQRT_INPUT_MAX` the first step would overflow.
pub fn fp_sqrt(v: i32) -> (r: i32)
    requires
        v <= SQRT_INPUT_MAX,
    ensures
        r == fp_sqrt_spec(v as int),
        v > 0 ==> r >= 1,
{
    if v <= 0 {
        return 0;
    }
    proof {
        let s = lemma_isqrt_exists(v * 256);
        lemma_setting(v as int, s);
        lemma_sqrt_run_safe(v as int, v as int, s, 20);
    }
    let mut x: i32 = v;
    let mut steps: u32 = 0;
    while steps < 20
        invariant
            0 < v,
            steps <= 20,
            1 <= x,
            steps > 0 ==> x <= SQRT_CAP,
            steps == 0 ==> x == v,
            sqrt_run(v as int, x as int, (20 - steps) as nat) == sqrt_run(v as int, v as int, 20),
            sqrt_run_safe(v as int, x as int, (20 - steps) as nat),
        ensures
            1 <= x,
            x as int == sqrt_run(v as int, v as int, 20),
        decreases 20 - steps,
    {
        let d = fp_div(v, x);
        if steps == 0 {
            assert(tdiv(v * 256, v as int) == 256) by {
                lemma_mul_is_commutative(v as int, 256);
                lemma_tdiv_exact(256, v as int);
            }
        }
        let s = x + d;
        let next = s / 2;
        assert(-0x4000_0000 <= next < 0x4000_0000);
        assert(steps == 0 ==> next >= 0);
        let diff = next - x;
        if -1 <= diff && diff <= 1 {
            break;
        }
        x = next;
        if x <= 0 {
            x = 1;
        }
        if x > SQRT_CAP {
            x = SQRT_CAP;
        }
        steps = steps + 1;
    }
    x
}

/// The square root is positive exactly on positive inputs.
pub proof fn lemma_sqrt_positive(v: int)
    ensures
        v <= 0 ==> fp_sqrt_spec(v) == 0,
        v > 0 ==> fp_sqrt_spec(v) >= 1,
{
    if v > 0 {
        lemma_sqrt_run_positive(v, v, 20);
    }
}

proof fn lemma_sqrt_run_positive(v: int, x: int, fuel: nat)
    requires
        x >= 1,
    ensures
        sqrt_run(v, x, fuel) >= 1,
    decreases fuel,
{
    if fuel > 0 {
        let next = sqrt_next(v, x);
        if !(-1 <= next - x <= 1) {
            lemma_sqrt_run_positive(v, sqrt_keep(next), (fuel - 1) as nat);
        }
    }
}

/// Multiplying by 1.0 (256) or dividing by it leaves a value unchanged, the product does
/// not depend on the order of its factors, and dividing by zero gives zero.
pub proof fn lemma_fp_identities(a: i32, b: i32)
    ensures
        fp_mul_spec(a as int, b as int) == fp_mul_spec(b as int, a as int),
        fp_mul_spec(a as int, 256) == a,
        fp_div_spec(a as int, 256) == a,
        fp_div_spec(a as int, 0) == 0,
{
    lemma_mul_is_commutative(a as int, b as int);
    lemma_tdiv_exact(a as int, 256);
}

// ---------------------------------------------------------------------------
// Safety and accuracy of the square root
// ---------------------------------------------------------------------------

/// `s` is the integer square root of `n`.
pub open spec fn is_isqrt(s: int, n: int) -> bool {
    0 <= s && s * s <= n < (s + 1) * (s + 1)
}

/// Every non-negative integer has an integer square root.
pub proof fn lemma_isqrt_exists(n: int) -> (s: int)
    requires
        n >= 0,
    ensures
        is_isqrt(s, n),
    decreases n,
{
    if n == 0 {
        0
    } else {
        let t = lemma_isqrt_exists(n - 1);
        if (t + 1) * (t + 1) <= n {
            assert(is_isqrt(t + 1, n)) by (nonlinear_arith)
                requires
                    t >= 0,
                    (t + 1) * (t + 1) <= n,
                    n - 1 < (t + 1) * (t + 1),
            ;
            t + 1
        } else {
            assert(is_isqrt(t, n));
            t
        }
    }
}

/// The setting of the proofs about the square root: `1 <= v <= SQRT_INPUT_MAX` and `s`
/// the integer square root of `256 v`, which puts `s` in `[16, 741455]`.
spec fn sqrt_setting(v: int, s: int) -> bool {
    &&& 1 <= v <= 0x7FFF_FEFF
    &&& is_isqrt(s, v * 256)
    &&& 16 <= s <= 741455
}

proof fn lemma_setting(v: int, s: int)
    requires
        1 <= v <= 0x7FFF_FEFF,
        is_isqrt(s, v * 256),
    ensures
        sqrt_setting(v, s),
{
    assert(16 <= s <= 741455) by (nonlinear_arith)
        requires
            1 <= v <= 0x7FFF_FEFF,
            0 <= s,
            s * s <= v * 256 < (s + 1) * (s + 1),
    {
        if s < 16 {
            assert((s + 1) * (s + 1) <= 256);
        }
        if s > 741455 {
            assert(s * s >= 741456 * 741456);
        }
    }
}

/// What one Newton step does, from the start `x == v` or from an estimate `x >= s`: the
/// sum it forms fits in `i32`; the next estimate is at least `s`, shrinks while above `s`,
/// and its error obeys `2 (next - s) x <= (x - s)^2 + 2 s`.
proof fn lemma_newton_step(v: int, x: int, s: int)
    requires
        sqrt_setting(v, s),
        x == v || s <= x <= 0x4000_0000,
    ensures
        in_i32(x + fp_div_spec(v, x)),
        s <= sqrt_next(v, x) <= 0x4000_0000,
        x >= s + 1 ==> sqrt_next(v, x) <= x - 1,
        x >= s + 3 ==> sqrt_next(v, x) <= x - 2,
        x == s ==> sqrt_next(v, x) <= s + 1,
        x >= s ==> 2 * (sqrt_next(v, x) - s) * x <= (x - s) * (x - s) + 2 * s,
        x == v ==> sqrt_next(v, x) == (v + 256) / 2,
{
    let n = v * 256;
    let q = n / x;
    lemma_fundamental_div_mod(n, x);
    lemma_div_pos_is_pos(n, x);
    let r = n % x;
    assert(n == x * q + r && 0 <= r < x);
    if x == v {
        assert(q == 256) by {
            lemma_mul_is_commutative(v, 256);
            lemma_div_by_multiple(256, v);
        }
    }
    if x >= s {
        assert(q <= s + 2) by (nonlinear_arith)
            requires
                n == x * q + r,
                0 <= r,
                x >= s,
                s >= 16,
                n < (s + 1) * (s + 1),
        {
            if q >= s + 3 {
                assert(x * q >= s * (s + 3));
            }
        }
    }
    assert(fp_div_spec(v, x) == q);
    let nx = (x + q) / 2;
    assert(sqrt_next(v, x) == nx);
    assert(x + q >= 2 * s) by (nonlinear_arith)
        requires
            n == x * q + r,
            0 <= r < x,
            x >= 1,
            s * s <= n,
    {
        if x + q < 2 * s {
            assert(x * (q + 1) <= x * (2 * s - x));
            assert(x * (2 * s - x) <= s * s);
        }
    }
    if x >= s + 1 {
        assert(q <= x - 1) by (nonlinear_arith)
            requires
                n == x * q + r,
                0 <= r,
                x >= s + 1,
                s >= 0,
                n < (s + 1) * (s + 1),
        {
            if q >= x {
                assert(x * q >= x * x);
                assert(x * x >= (s + 1) * (s + 1));
            }
        }
    }
    if x >= s + 3 {
        assert(q <= x - 3) by (nonlinear_arith)
            requires
                n == x * q + r,
                0 <= r,
                x >= s + 3,
                s >= 0,
                n < (s + 1) * (s + 1),
        {
            if q >= x - 2 {
                assert(x * q >= x * (x - 2));
                assert(x * (x - 2) >= (s + 1) * (s + 1));
            }
        }
    }
    if x >= s {
        assert(2 * nx * x <= x * x + x * q) by (nonlinear_arith)
            requires
                2 * nx <= x + q,
                x >= 1,
        ;
        assert(2 * (nx - s) * x <= (x - s) * (x - s) + 2 * s) by (nonlinear_arith)
            requires
                2 * nx * x <= x * x + x * q,
                n == x * q + r,
                0 <= r,
                n < (s + 1) * (s + 1),
        ;
    }
}

/// The iteration from the start or from any estimate `s <= x <= 2^30` overflows nothing.
proof fn lemma_sqrt_run_safe(v: int, x: int, s: int, fuel: nat)
    requires
        sqrt_setting(v, s),
        x == v || s <= x <= 0x4000_0000,
    ensures
        sqrt_run_safe(v, x, fuel),
    decreases fuel,
{
    if fuel > 0 {
        lemma_newton_step(v, x, s);
        let next = sqrt_next(v, x);
        assert(sqrt_keep(next) == next);
        lemma_sqrt_run_safe(v, next, s, (fuel - 1) as nat);
    }
}

/// After a step that does not stop, the run goes on from the next estimate, which the clamp
/// keeps; a step that stops does so with the estimate at most `s + 2`.
proof fn lemma_continue(v: int, x: int, s: int, fuel: nat)
    requires
        sqrt_setting(v, s),
        s <= x <= 0x4000_0000,
        fuel >= 1,
    ensures
        sqrt_keep(sqrt_next(v, x)) == sqrt_next(v, x),
        -1 <= sqrt_next(v, x) - x <= 1 ==> sqrt_run(v, x, fuel) == x && x <= s + 2,
        !(-1 <= sqrt_next(v, x) - x <= 1) ==> sqrt_run(v, x, fuel) == sqrt_run(
            v,
            sqrt_next(v, x),
            (fuel - 1) as nat,
        ),
{
    lemma_newton_step(v, x, s);
}

/// Error `e = x - s <= 1` and one step left: the iteration stops at once.
proof fn lemma_run_error_1(v: int, x: int, s: int, fuel: nat)
    requires
        sqrt_setting(v, s),
        s <= x <= s + 1,
        fuel >= 1,
    ensures
        s <= sqrt_run(v, x, fuel) <= s + 2,
{
    lemma_newton_step(v, x, s);
}

proof fn lemma_run_error_2(v: int, x: int, s: int, fuel: nat)
    requires
        sqrt_setting(v, s),
        s <= x <= s + 2,
        fuel >= 2,
    ensures
        s <= sqrt_run(v, x, fuel) <= s + 2,
{
    lemma_continue(v, x, s, fuel);
    lemma_newton_step(v, x, s);
    let n = sqrt_next(v, x);
    if !(-1 <= n - x <= 1) {
        assert(n - s <= 1) by (nonlinear_arith)
            requires
                2 * (n - s) * x <= (x - s) * (x - s) + 2 * s,
                s <= x <= s + 2,
                n >= s,
                s >= 16,
        {
            if n - s >= 2 {
                assert(2 * (n - s) * x >= 4 * s);
            }
        }
        lemma_run_error_1(v, n, s, (fuel - 1) as nat);
    }
}

proof fn lemma_run_error_3(v: int, x: int, s: int, fuel: nat)
    requires
        sqrt_setting(v, s),
        s <= x,
        32768 * (x - s - 2) <= s,
        fuel >= 3,
    ensures
        s <= sqrt_run(v, x, fuel) <= s + 2,
{
    lemma_continue(v, x, s, fuel);
    lemma_newton_step(v, x, s);
    let n = sqrt_next(v, x);
    let e = x - s;
    if !(-1 <= n - x <= 1) {
        assert(n - s <= 2) by (nonlinear_arith)
            requires
                2 * (n - s) * x <= e * e + 2 * s,
                x == s + e,
                e >= 0,
                32768 * (e - 2) <= s,
                n >= s,
                16 <= s <= 741455,
        {
            assert(0x4000_0000 * e * e <= (s + 65536) * (s + 65536));
            assert(s * s <= 741455 * s);
            if n - s >= 3 {
                assert(2 * (n - s) * x >= 6 * s);
            }
        }
        lemma_run_error_2(v, n, s, (fuel - 1) as nat);
    }
}

proof fn lemma_run_error_4(v: int, x: int, s: int, fuel: nat)
    requires
        sqrt_setting(v, s),
        s <= x,
        128 * (x - s - 2) <= s,
        fuel >= 4,
    ensures
        s <= sqrt_run(v, x, fuel) <= s + 2,
{
    lemma_continue(v, x, s, fuel);
    lemma_newton_step(v, x, s);
    let n = sqrt_next(v, x);
    let e = x - s;
    if !(-1 <= n - x <= 1) {
        assert(32768 * (n - s - 2) <= s) by (nonlinear_arith)
            requires
                2 * (n - s) * x <= e * e + 2 * s,
                x == s + e,
                e >= 0,
                128 * (e - 2) <= s,
                n >= s,
                s >= 16,
        {
            assert(16384 * e * e <= (s + 256) * (s + 256));
            assert(2 * (n - s) * s <= 2 * (n - s) * x);
        }
        lemma_run_error_3(v, n, s, (fuel - 1) as nat);
    }
}

proof fn lemma_run_error_5(v: int, x: int, s: int, fuel: nat)
    requires
        sqrt_setting(v, s),
        s <= x,
        8 * (x - s - 2) <= s,
        fuel >= 5,
    ensures
        s <= sqrt_run(v, x, fuel) <= s + 2,
{
    lemma_continue(v, x, s, fuel);
    lemma_newton_step(v, x, s);
    let n = sqrt_next(v, x);
    let e = x - s;
    if !(-1 <= n - x <= 1) {
        assert(128 * (n - s - 2) <= s) by (nonlinear_arith)
            requires
                2 * (n - s) * x <= e * e + 2 * s,
                x == s + e,
                e >= 0,
                8 * (e - 2) <= s,
                n >= s,
                s >= 16,
        {
            assert(64 * e * e <= (s + 16) * (s + 16));
            assert(2 * (n - s) * s <= 2 * (n - s) * x);
        }
        lemma_run_error_4(v, n, s, (fuel - 1) as nat);
    }
}

proof fn lemma_run_error_6(v: int, x: int, s: int, fuel: nat)
    requires
        sqrt_setting(v, s),
        s <= x,
        2 * (x - s - 1) <= s,
        fuel >= 6,
    ensures
        s <= sqrt_run(v, x, fuel) <= s + 2,
{
    lemma_continue(v, x, s, fuel);
    lemma_newton_step(v, x, s);
    let n = sqrt_next(v, x);
    let e = x - s;
    if !(-1 <= n - x <= 1) {
        assert(8 * (n - s - 2) <= s) by (nonlinear_arith)
            requires
                2 * (n - s) * x <= e * e + 2 * s,
                x == s + e,
                e >= 0,
                2 * (e - 1) <= s,
                n >= s,
                s >= 16,
        {
            assert(4 * e * e <= (s + 2) * (s + 2));
            assert(2 * (n - s) * s <= 2 * (n - s) * x);
        }
        lemma_run_error_5(v, n, s, (fuel - 1) as nat);
    }
}

proof fn lemma_run_error_7(v: int, x: int, s: int, fuel: nat)
    requires
        sqrt_setting(v, s),
        s <= x <= 2 * s,
        fuel >= 7,
    ensures
        s <= sqrt_run(v, x, fuel) <= s + 2,
{
    lemma_continue(v, x, s, fuel);
    lemma_newton_step(v, x, s);
    let n = sqrt_next(v, x);
    let e = x - s;
    if !(-1 <= n - x <= 1) {
        assert(2 * (n - s - 1) <= s) by (nonlinear_arith)
            requires
                2 * (n - s) * x <= e * e + 2 * s,
                x == s + e,
                0 <= e <= s,
                n >= s,
                s >= 16,
        {
            assert(e * e <= s * s);
            assert(2 * (n - s) * s <= 2 * (n - s) * x);
        }
        lemma_run_error_6(v, n, s, (fuel - 1) as nat);
    }
}

/// `2^t`.
spec fn doubling(t: nat) -> int
    decreases t,
{
    if t == 0 {
        1
    } else {
        2 * doubling((t - 1) as nat)
    }
}

proof fn lemma_doubling_positive(t: nat)
    ensures
        doubling(t) >= 1,
    decreases t,
{
    if t > 0 {
        lemma_doubling_positive((t - 1) as nat);
    }
}

/// While the error exceeds `s` each step at least halves it (up to one): an error at most
/// `2^t (s - 2) + 2` is down to `s` after `t` steps.
proof fn lemma_run_halving(v: int, x: int, s: int, t: nat, fuel: nat)
    requires
        sqrt_setting(v, s),
        s <= x <= 0x4000_0000,
        x - s <= doubling(t) * (s - 2) + 2,
        fuel >= t + 7,
    ensures
        s <= sqrt_run(v, x, fuel) <= s + 2,
    decreases t,
{
    let e = x - s;
    if e <= s {
        lemma_run_error_7(v, x, s, fuel);
    } else {
        assert(t > 0) by {
            if t == 0 {
                assert(doubling(t) == 1);
            }
        }
        lemma_continue(v, x, s, fuel);
        lemma_newton_step(v, x, s);
        let n = sqrt_next(v, x);
        let d = doubling((t - 1) as nat);
        assert(doubling(t) == 2 * d);
        lemma_doubling_positive((t - 1) as nat);
        assert(n - s <= d * (s - 2) + 2) by (nonlinear_arith)
            requires
                2 * (n - s) * x <= e * e + 2 * s,
                x == s + e,
                e > s,
                s >= 16,
                n >= s,
                d >= 1,
                e <= 2 * d * (s - 2) + 2,
        {
            assert(2 * (n - s) * e <= 2 * (n - s) * x);
            assert(2 * (n - s) * e <= e * e + 2 * e);
        }
        lemma_run_halving(v, n, s, (t - 1) as nat, (fuel - 1) as nat);
    }
}

/// For every input `1 <= v <= SQRT_INPUT_MAX`, the fixed-point square root of `v` is
/// within `[s - 1, s + 2]`, where `s` is the integer square root of `256 v`: the root of the
/// real `v / 256`, in fixed point, to within three units of the last place.
pub proof fn lemma_sqrt_accuracy(v: int, s: int)
    requires
        1 <= v <= SQRT_INPUT_MAX,
        is_isqrt(s, v * 256),
    ensures
        s - 1 <= fp_sqrt_spec(v) <= s + 2,
{
    lemma_setting(v, s);
    lemma_newton_step(v, v, s);
    let n = sqrt_next(v, v);
    if -1 <= n - v <= 1 {
        if v >= s + 3 {
            assert(false);
        }
    } else {
        assert(sqrt_keep(n) == n);
        assert(doubling(11) == 2048) by {
            reveal_with_fuel(doubling, 12);
        }
        assert(n - s <= 2048 * (s - 2) + 2) by (nonlinear_arith)
            requires
                n == (v + 256) / 2,
                v * 256 < (s + 1) * (s + 1),
                16 <= s <= 741455,
        {
            assert((s + 1) * (s + 1) <= 741456 * (s + 1));
        }
        lemma_run_halving(v, n, s, 11, 19);
    }
}

} // verus!
