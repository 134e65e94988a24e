use vstd::prelude::*;
use vstd::arithmetic::div_mod::{
    lemma_fundamental_div_mod, lemma_fundamental_div_mod_converse, lemma_mod_bound,
};

verus! {

/// Floor division by a positive divisor.
pub fn div_floor(a: i128, n: i128) -> (q: i128)
    requires
        n > 0,
        a > i128::MIN,
    ensures
        q == a / n,
        q * n <= a < q * n + n,
{
    if a >= 0 {
        let q: i128 = a / n;
        proof {
            lemma_floor_bounds(a as int, n as int);
        }
        q
    } else {
        let m: i128 = -a;
        let t: i128 = m / n;
        let r: i128 = m % n;
        let q: i128 = if r == 0 { -t } else { -t - 1 };
        proof {
            lemma_floor_bounds(m as int, n as int);
            assert(m == t * n + r) by {
                lemma_fundamental_div_mod(m as int, n as int);
                assert(n * t == t * n) by (nonlinear_arith);
            }
            lemma_mod_bound(m as int, n as int);
            assert(q * n <= a < q * n + n) by (nonlinear_arith)
                requires
                    m == t * n + r,
                    a == -m,
                    0 <= r < n,
                    q == (if r == 0 { -t } else { -t - 1 }),
            ;
            lemma_floor_unique(a as int, n as int, q as int);
        }
        q
    }
}

/// The quotient of floor division lies within one divisor below the dividend.
pub proof fn lemma_floor_bounds(a: int, n: int)
    requires
        n > 0,
    ensures
        (a / n) * n <= a < (a / n) * n + n,
{
    lemma_fundamental_div_mod(a, n);
    lemma_mod_bound(a, n);
    assert(n * (a / n) == (a / n) * n) by (nonlinear_arith);
}

/// The quotient of floor division is the only `q` with `q * n <= a < q * n + n`.
pub proof fn lemma_floor_unique(a: int, n: int, q: int)
    requires
        n > 0,
        q * n <= a < q * n + n,
    ensures
        q == a / n,
{
    lemma_fundamental_div_mod_converse(a, n, q, a - q * n);
}

/// Whether `q` is `w * |c| / sqrt(l2)` rounded up: the least `q >= 0` whose
/// square times `l2` reaches the square of `w * c`.
pub open spec fn is_scaled_up(q: int, w: int, c: int, l2: int) -> bool {
    reaches_first(q, l2, (w * c) * (w * c))
}

/// Whether `q` is the least number from zero up whose square times `l2`
/// reaches `x`.
pub open spec fn reaches_first(q: int, l2: int, x: int) -> bool {
    &&& q >= 0
    &&& q * q * l2 >= x
    &&& q > 0 ==> (q - 1) * (q - 1) * l2 < x
}

/// `w * |c| / sqrt(l2)` rounded up to an integer.
pub open spec fn scaled_up(w: int, c: int, l2: int) -> int {
    choose|q: int| is_scaled_up(q, w, c, l2)
}

/// At most one `q` is the rounded-up quotient.
pub proof fn lemma_scaled_up_unique(q: int, w: int, c: int, l2: int)
    requires
        l2 >= 0,
        is_scaled_up(q, w, c, l2),
    ensures
        scaled_up(w, c, l2) == q,
{
    let p = scaled_up(w, c, l2);
    let x = (w * c) * (w * c);
    assert(is_scaled_up(p, w, c, l2));
    if p < q {
        assert(p * p * l2 <= (q - 1) * (q - 1) * l2) by (nonlinear_arith)
            requires
                0 <= p <= q - 1,
                l2 >= 0,
        ;
    } else if q < p {
        assert(q * q * l2 <= (p - 1) * (p - 1) * l2) by (nonlinear_arith)
            requires
                0 <= q <= p - 1,
                l2 >= 0,
        ;
    }
}

/// The rounded-up quotient exists, and it is at most `w` for a component of
/// a vector of squared length `c * c + d * d`.
pub proof fn lemma_scaled_up_at_most(w: int, c: int, d: int)
    requires
        w >= 0,
    ensures
        is_scaled_up(scaled_up(w, c, c * c + d * d), w, c, c * c + d * d),
        0 <= scaled_up(w, c, c * c + d * d) <= w,
{
    let l2 = c * c + d * d;
    let x = (w * c) * (w * c);
    assert(l2 >= 0 && c * c <= l2) by (nonlinear_arith)
        requires
            l2 == c * c + d * d,
    ;
    assert(w * w * l2 >= x) by (nonlinear_arith)
        requires
            x == (w * c) * (w * c),
            c * c <= l2,
    ;
    assert(x >= 0) by (nonlinear_arith)
        requires
            x == (w * c) * (w * c),
    ;
    lemma_least_reaching(l2, x, w);
    let q = choose|q: int| 0 <= q <= w && #[trigger] reaches_first(q, l2, x);
    assert(is_scaled_up(q, w, c, l2));
    lemma_scaled_up_unique(q, w, c, l2);
}

/// Among `0 ..= top` there is a least `q` with `q * q * l2 >= x`, if `top`
/// is one.
proof fn lemma_least_reaching(l2: int, x: int, top: int)
    requires
        0 <= top,
        top * top * l2 >= x,
    ensures
        exists|q: int| 0 <= q <= top && #[trigger] reaches_first(q, l2, x),
    decreases top,
{
    if top > 0 && (top - 1) * (top - 1) * l2 >= x {
        lemma_least_reaching(l2, x, top - 1);
        let q = choose|q: int| 0 <= q <= top - 1 && #[trigger] reaches_first(q, l2, x);
        assert(0 <= q <= top && reaches_first(q, l2, x));
    } else {
        assert(reaches_first(top, l2, x));
    }
}

/// Along an axis the quotient is exact: a vector that lies on one axis has
/// length `|c|`, so scaling it to length `w` gives `w` on that axis.
pub proof fn lemma_scaled_up_on_axis(w: int, c: int)
    requires
        w >= 0,
        c != 0,
    ensures
        scaled_up(w, c, c * c) == w,
        scaled_up(w, 0, c * c) == 0,
{
    assert(c * c >= 0) by (nonlinear_arith);
    assert(is_scaled_up(w, w, c, c * c)) by (nonlinear_arith)
        requires
            w >= 0,
            c != 0,
    ;
    lemma_scaled_up_unique(w, w, c, c * c);
    assert(is_scaled_up(0, w, 0, c * c)) by (nonlinear_arith);
    lemma_scaled_up_unique(0, w, 0, c * c);
}

/// Largest length and largest component that [`scale_up`] takes.
pub const SCALE_LIMIT: i64 = 0x8000_0000;

/// Computes `w * |c| / sqrt(l2)` rounded up, for a component `c` of a vector
/// of squared length `l2`.
pub fn scale_up(w: i64, c: i64, l2: i128) -> (q: i64)
    requires
        0 <= w <= SCALE_LIMIT,
        -SCALE_LIMIT <= c <= SCALE_LIMIT,
        c * c <= l2 <= 2 * SCALE_LIMIT * SCALE_LIMIT,
    ensures
        q == scaled_up(w as int, c as int, l2 as int),
        is_scaled_up(q as int, w as int, c as int, l2 as int),
        0 <= q <= w,
{
    let wide_w: i128 = w as i128;
    let wide_c: i128 = c as i128;
    proof {
        assert(c * c >= 0) by (nonlinear_arith);
        assert(-(SCALE_LIMIT * SCALE_LIMIT) <= wide_w * wide_c <= SCALE_LIMIT * SCALE_LIMIT)
            by (nonlinear_arith)
            requires
                0 <= wide_w <= SCALE_LIMIT,
                -SCALE_LIMIT <= wide_c <= SCALE_LIMIT,
        ;
    }
    let wc: i128 = wide_w * wide_c;
    proof {
        assert(0 <= wc * wc <= (SCALE_LIMIT * SCALE_LIMIT) * (SCALE_LIMIT * SCALE_LIMIT))
            by (nonlinear_arith)
            requires
                -(SCALE_LIMIT * SCALE_LIMIT) <= wc <= SCALE_LIMIT * SCALE_LIMIT,
        ;
    }
    let target: i128 = wc * wc;
    if target == 0 {
        proof {
            assert(is_scaled_up(0, w as int, c as int, l2 as int)) by (nonlinear_arith)
                requires
                    target == (w * c) * (w * c),
                    target == 0,
            ;
            lemma_scaled_up_unique(0, w as int, c as int, l2 as int);
        }
        return 0;
    }
    proof {
        assert(w * w * l2 >= target) by (nonlinear_arith)
            requires
                target == (w * c) * (w * c),
                c * c <= l2,
                w >= 0,
        ;
        assert(w > 0) by (nonlinear_arith)
            requires
                target == (w * c) * (w * c),
                target != 0,
                w >= 0,
        ;
    }
    let mut lo: i64 = 0;
    let mut hi: i64 = w;
    while hi - lo > 1
        invariant
            0 <= lo < hi <= w,
            w <= SCALE_LIMIT,
            0 <= l2 <= 2 * SCALE_LIMIT * SCALE_LIMIT,
            target == (w * c) * (w * c),
            lo * lo * l2 < target,
            hi * hi * l2 >= target,
        decreases hi - lo,
    {
        let mid: i64 = lo + (hi - lo) / 2;
        let wide_mid: i128 = mid as i128;
        proof {
            assert(0 <= wide_mid * wide_mid <= SCALE_LIMIT * SCALE_LIMIT) by (nonlinear_arith)
                requires
                    0 <= wide_mid <= SCALE_LIMIT,
            ;
            assert(0 <= (wide_mid * wide_mid) * l2 <= (SCALE_LIMIT * SCALE_LIMIT) * (2
                * SCALE_LIMIT * SCALE_LIMIT)) by (nonlinear_arith)
                requires
                    0 <= wide_mid * wide_mid <= SCALE_LIMIT * SCALE_LIMIT,
                    0 <= l2 <= 2 * SCALE_LIMIT * SCALE_LIMIT,
            ;
        }
        if wide_mid * wide_mid * l2 >= target {
            hi = mid;
        } else {
            lo = mid;
        }
    }
    proof {
        assert(is_scaled_up(hi as int, w as int, c as int, l2 as int));
        lemma_scaled_up_unique(hi as int, w as int, c as int, l2 as int);
    }
    hi
}

} // verus!
