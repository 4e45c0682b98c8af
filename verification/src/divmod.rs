//! Truncating integer division, as Rust's `/` operator computes it, together
//! with the bound that keeps scanline and ray-crossing interpolation inside
//! the x-range of the edge being interpolated.

use vstd::prelude::*;
use vstd::arithmetic::div_mod::lemma_div_pos_is_pos;
use vstd::arithmetic::div_mod::lemma_div_of0;
use vstd::arithmetic::div_mod::lemma_multiply_divide_le;

verus! {

/// Integer division rounding toward zero — the quotient Rust's `/` returns.
/// (The spec-mode `/` rounds as Euclidean division instead, so the two differ
/// on negative operands.)
pub open spec fn trunc_div(num: int, den: int) -> int
    recommends
        den != 0,
{
    let n = if den < 0 {
        -num
    } else {
        num
    };
    let d = if den < 0 {
        -den
    } else {
        den
    };
    if n >= 0 {
        n / d
    } else {
        -((-n) / d)
    }
}

/// Runtime truncating division. Wide (128-bit) operands let callers divide
/// products of two 32-bit differences without any risk of overflow.
pub fn div_trunc(num: i128, den: i128) -> (q: i128)
    requires
        den != 0,
        i128::MIN < num,
        i128::MIN < den,
    ensures
        q == trunc_div(num as int, den as int),
{
    let (n, d) = if den < 0 {
        (-num, -den)
    } else {
        (num, den)
    };
    if n >= 0 {
        proof {
            lemma_div_pos_is_pos(n as int, d as int);
            assert(n <= d * n) by (nonlinear_arith)
                requires
                    0 <= n,
                    1 <= d,
            ;
            lemma_multiply_divide_le(n as int, d as int, n as int);
        }
        n / d
    } else {
        proof {
            lemma_div_pos_is_pos(-n as int, d as int);
            assert(-n <= d * (-n)) by (nonlinear_arith)
                requires
                    n < 0,
                    1 <= d,
            ;
            lemma_multiply_divide_le(-n as int, d as int, -n as int);
        }
        -((-n) / d)
    }
}

/// The magnitude of the truncated quotient is bounded by `m` whenever the
/// numerator's magnitude is at most `|den| * |m|`, and the quotient carries
/// the sign that `num / den` carries.
pub proof fn lemma_trunc_div_bound(num: int, den: int, m: int)
    requires
        den != 0,
        (if num < 0 {
            -num
        } else {
            num
        }) <= (if den < 0 {
            -den
        } else {
            den
        }) * (if m < 0 {
            -m
        } else {
            m
        }),
        num != 0 ==> (((num < 0) == (den < 0)) == (m >= 0)),
    ensures
        m >= 0 ==> 0 <= trunc_div(num, den) <= m,
        m < 0 ==> m <= trunc_div(num, den) <= 0,
{
    let na = if num < 0 {
        -num
    } else {
        num
    };
    let da = if den < 0 {
        -den
    } else {
        den
    };
    let ma = if m < 0 {
        -m
    } else {
        m
    };
    lemma_div_pos_is_pos(na, da);
    lemma_multiply_divide_le(na, da, ma);
    assert(0 <= na / da <= ma);
    let n = if den < 0 {
        -num
    } else {
        num
    };
    if num == 0 {
        lemma_div_of0(da);
    } else if n >= 0 {
        assert(n == na);
        assert(trunc_div(num, den) == na / da);
        assert(m >= 0);
    } else {
        assert(-n == na);
        assert(trunc_div(num, den) == -(na / da));
        assert(m < 0);
    }
}

} // verus!
