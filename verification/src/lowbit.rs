//! The lowest set bit of a positive index, stated arithmetically, with the
//! facts about it that a Fenwick tree rests on.

use vstd::prelude::*;
use vstd::arithmetic::div_mod::{lemma_fundamental_div_mod, lemma_fundamental_div_mod_converse};

verus! {

/// Largest index a Fenwick tree of this crate may address.
pub const MAX_INDEX: usize = 0x1000_0000;

/// Whether `x` is a power of two.
pub open spec fn is_pow2(x: int) -> bool
    decreases x,
{
    if x <= 0 {
        false
    } else if x == 1 {
        true
    } else {
        x % 2 == 0 && is_pow2(x / 2)
    }
}

/// The largest power of two that divides `i` (zero for non-positive `i`).
pub open spec fn lsb(i: int) -> int
    decreases i,
{
    if i <= 0 {
        0
    } else if i % 2 == 1 {
        1
    } else {
        2 * lsb(i / 2)
    }
}

/// What is left of `i` once its factors of two are taken out.
pub open spec fn odd_part(i: int) -> int
    decreases i,
{
    if i <= 0 {
        0
    } else if i % 2 == 1 {
        i
    } else {
        odd_part(i / 2)
    }
}

pub proof fn lemma_pow2_positive(x: int)
    requires
        is_pow2(x),
    ensures
        x >= 1,
{
}

/// A positive index is its lowest bit times an odd number.
pub proof fn lemma_lsb_factor(i: int)
    requires
        i >= 1,
    ensures
        is_pow2(lsb(i)),
        odd_part(i) >= 1,
        odd_part(i) % 2 == 1,
        i == lsb(i) * odd_part(i),
        1 <= lsb(i) <= i,
    decreases i,
{
    if i % 2 == 1 {
    } else {
        let h = i / 2;
        lemma_lsb_factor(h);
        let l = lsb(h);
        let o = odd_part(h);
        assert(i == (2 * l) * o) by (nonlinear_arith)
            requires
                i == 2 * h,
                h == l * o,
        ;
        assert((2 * l) / 2 == l);
        assert(2 * l <= i) by (nonlinear_arith)
            requires
                i == (2 * l) * o,
                o >= 1,
                l >= 1,
        ;
    }
}

/// Scaling by a power of two scales the lowest bit.
pub proof fn lemma_lsb_scaled(l: int, k: int)
    requires
        is_pow2(l),
        k >= 1,
    ensures
        lsb(l * k) == l * lsb(k),
    decreases l,
{
    if l == 1 {
    } else {
        let h = l / 2;
        lemma_pow2_positive(h);
        lemma_lsb_scaled(h, k);
        assert(l * k == 2 * (h * k) && h * k >= 1) by (nonlinear_arith)
            requires
                l == 2 * h,
                h >= 1,
                k >= 1,
        ;
        assert((2 * (h * k)) % 2 == 0);
        assert((2 * (h * k)) / 2 == h * k);
        assert(l * lsb(k) == 2 * (h * lsb(k))) by (nonlinear_arith)
            requires
                l == 2 * h,
        ;
    }
}

/// A power of two times an odd number has that power as its lowest bit.
pub proof fn lemma_lsb_of_odd_multiple(l: int, k: int)
    requires
        is_pow2(l),
        k >= 1,
        k % 2 == 1,
    ensures
        lsb(l * k) == l,
{
    lemma_lsb_scaled(l, k);
}

/// Of two powers of two, the larger is the smaller times a power of two.
pub proof fn lemma_pow2_ratio(a: int, b: int) -> (t: int)
    requires
        is_pow2(a),
        is_pow2(b),
        a <= b,
    ensures
        is_pow2(t),
        b == a * t,
        a < b ==> t % 2 == 0 && t >= 2,
    decreases a,
{
    if a == 1 {
        b
    } else {
        lemma_pow2_positive(a / 2);
        lemma_pow2_positive(b / 2);
        let t = lemma_pow2_ratio(a / 2, b / 2);
        assert(b == a * t) by (nonlinear_arith)
            requires
                b == 2 * (b / 2),
                a == 2 * (a / 2),
                b / 2 == (a / 2) * t,
        ;
        if a < b {
            assert(t != 1);
        }
        t
    }
}

/// Adding less than the lowest bit of `i` gives the lowest bit of what was added.
pub proof fn lemma_lsb_gap(i: int, r: int)
    requires
        i >= 1,
        0 < r < lsb(i),
    ensures
        lsb(i + r) == lsb(r),
{
    lemma_lsb_factor(i);
    lemma_lsb_factor(r);
    let big = lsb(i);
    let m = odd_part(i);
    let small = lsb(r);
    let s = odd_part(r);
    let t = lemma_pow2_ratio(small, big);
    let u = t / 2;
    assert(i + r == small * (2 * u * m + s)) by (nonlinear_arith)
        requires
            i == big * m,
            r == small * s,
            big == small * t,
            t == 2 * u,
    ;
    assert(u * m >= 1) by (nonlinear_arith)
        requires
            u >= 1,
            m >= 1,
    ;
    assert((2 * u * m + s) % 2 == 1) by (nonlinear_arith)
        requires
            s % 2 == 1,
            u * m >= 1,
    ;
    lemma_lsb_of_odd_multiple(small, 2 * u * m + s);
}

/// `x == l * m` with `l > 0`: `x` is a multiple of `2 * l` exactly when `m` is even.
pub proof fn lemma_mod_double(x: int, l: int, m: int)
    requires
        l > 0,
        m >= 0,
        x == l * m,
    ensures
        (x % (2 * l) == 0) == (m % 2 == 0),
{
    let w = m / 2;
    let b = m % 2;
    assert(x == w * (2 * l) + l * b) by (nonlinear_arith)
        requires
            x == l * m,
            m == 2 * w + b,
    ;
    assert(0 <= l * b < 2 * l) by (nonlinear_arith)
        requires
            l > 0,
            0 <= b < 2,
    ;
    lemma_fundamental_div_mod_converse(x, 2 * l, w, l * b);
    assert((l * b == 0) == (b == 0)) by (nonlinear_arith)
        requires
            l > 0,
            0 <= b < 2,
    ;
}

/// Moving up a Fenwick chain: the next index has a strictly larger lowest bit.
pub proof fn lemma_lsb_next(i: int)
    requires
        i >= 1,
    ensures
        lsb(i + lsb(i)) >= 2 * lsb(i),
        (i + lsb(i)) % (2 * lsb(i)) == 0,
        is_pow2(2 * lsb(i)),
{
    lemma_lsb_factor(i);
    let l = lsb(i);
    let m = odd_part(i);
    let w = (m + 1) / 2;
    assert(i + l == (2 * l) * w && w >= 1) by (nonlinear_arith)
        requires
            i == l * m,
            m % 2 == 1,
            m >= 1,
            w == (m + 1) / 2,
    ;
    assert(is_pow2(2 * l)) by {
        assert((2 * l) % 2 == 0);
        assert((2 * l) / 2 == l);
    }
    lemma_lsb_scaled(2 * l, w);
    lemma_lsb_factor(w);
    assert((2 * l) * lsb(w) >= 2 * l) by (nonlinear_arith)
        requires
            lsb(w) >= 1,
            l >= 1,
    ;
    assert(i + l == l * (m + 1)) by (nonlinear_arith)
        requires
            i == l * m,
    ;
    lemma_mod_double(i + l, l, m + 1);
}

/// Moving down a Fenwick chain: what is left has a strictly larger lowest bit.
pub proof fn lemma_lsb_prev(i: int)
    requires
        i > lsb(i),
        i >= 1,
    ensures
        lsb(i - lsb(i)) >= 2 * lsb(i),
        (i - lsb(i)) % (2 * lsb(i)) == 0,
        is_pow2(2 * lsb(i)),
{
    lemma_lsb_factor(i);
    let l = lsb(i);
    let m = odd_part(i);
    let w = (m - 1) / 2;
    assert(m >= 2) by (nonlinear_arith)
        requires
            i == l * m,
            i > l,
            l >= 1,
            m >= 1,
    ;
    assert(i - l == (2 * l) * w && w >= 1) by (nonlinear_arith)
        requires
            i == l * m,
            m % 2 == 1,
            m >= 2,
            w == (m - 1) / 2,
    ;
    assert(is_pow2(2 * l)) by {
        assert((2 * l) % 2 == 0);
        assert((2 * l) / 2 == l);
    }
    lemma_lsb_scaled(2 * l, w);
    lemma_lsb_factor(w);
    assert((2 * l) * lsb(w) >= 2 * l) by (nonlinear_arith)
        requires
            lsb(w) >= 1,
            l >= 1,
    ;
    assert(i - l == l * (m - 1)) by (nonlinear_arith)
        requires
            i == l * m,
    ;
    lemma_mod_double(i - l, l, m - 1);
}

/// The lowest set bit of `j`, searched upward from a power of two known to divide it.
pub fn lsb_from(j: usize, start: usize) -> (l: usize)
    requires
        1 <= j <= MAX_INDEX,
        is_pow2(start as int),
        j % start == 0,
    ensures
        l == lsb(j as int),
{
    proof {
        lemma_pow2_positive(start as int);
    }
    let ghost mut m: int = (j / start) as int;
    proof {
        lemma_fundamental_div_mod(j as int, start as int);
        assert(j == start * m);
        assert(m >= 1) by (nonlinear_arith)
            requires
                j == start * m,
                j >= 1,
                start >= 1,
        ;
        assert(start <= j) by (nonlinear_arith)
            requires
                j == start * m,
                m >= 1,
                start >= 1,
        ;
        lemma_lsb_scaled(start as int, m);
    }
    let mut l = start;
    loop
        invariant
            1 <= j <= MAX_INDEX,
            is_pow2(l as int),
            1 <= l <= j,
            m >= 1,
            j == l * m,
            lsb(j as int) == l * lsb(m),
        decreases m,
    {
        proof {
            lemma_mod_double(j as int, l as int, m);
        }
        if j % (2 * l) != 0 {
            assert(lsb(m) == 1);
            return l;
        }
        proof {
            let h = m / 2;
            assert(m == 2 * h);
            assert(j == (2 * l) * h) by (nonlinear_arith)
                requires
                    j == l * m,
                    m == 2 * h,
            ;
            assert(h >= 1);
            assert(2 * l <= j) by (nonlinear_arith)
                requires
                    j == (2 * l) * h,
                    h >= 1,
                    l >= 1,
            ;
            assert(lsb(m) == 2 * lsb(h));
            assert(l * lsb(m) == (2 * l) * lsb(h)) by (nonlinear_arith)
                requires
                    lsb(m) == 2 * lsb(h),
            ;
            assert(((2 * l) as int) % 2 == 0);
            assert(((2 * l) as int) / 2 == l);
            m = h;
        }
        l = 2 * l;
    }
}

} // verus!
